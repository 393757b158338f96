//! Authorization decisions, how two of them combine, and the engine's
//! configuration and counters.
use vstd::prelude::*;
use std::collections::HashMap;
use std::sync::Arc;
use crate::text::owned;
use crate::datalog::{DatalogEngine, datalog_model};
use crate::datalog::types::VRule;
use crate::error::RUNEError;
use crate::facts::{Fact, FactStore, VFact, clock_nanos, share};
use crate::policy::{PolicySet, policy_model, type_check_error, request_error, entities_refusal, entities_accepted};
use crate::cedar::cedar_consistent;
use crate::request::Request;
use crate::types::{ToText, Value, values_view};

verus! {

/// Authorization decision.
#[derive(Debug, Clone, Copy, PartialEq, Eq, Structural)]
pub enum Decision {
    /// Request is permitted
    Permit,
    /// Request is denied (no matching permit)
    Deny,
    /// Request is explicitly forbidden
    Forbid,
}

/// The combination of two decisions: forbid over deny over permit.
pub open spec fn combine_spec(a: Decision, b: Decision) -> Decision {
    if a == Decision::Forbid || b == Decision::Forbid {
        Decision::Forbid
    } else if a == Decision::Deny || b == Decision::Deny {
        Decision::Deny
    } else {
        Decision::Permit
    }
}

impl Decision {
    /// Whether the decision allows the action.
    pub fn is_permitted(&self) -> (r: bool)
        ensures
            r == (*self == Decision::Permit),
    {
        match self {
            Decision::Permit => true,
            _ => false,
        }
    }

    /// Combine two decisions: forbid over deny over permit.
    pub fn combine(self, other: Decision) -> (r: Decision)
        ensures
            r == combine_spec(self, other),
    {
        match (self, other) {
            (Decision::Forbid, _) | (_, Decision::Forbid) => Decision::Forbid,
            (Decision::Deny, _) | (_, Decision::Deny) => Decision::Deny,
            (Decision::Permit, Decision::Permit) => Decision::Permit,
        }
    }
}

/// Combining decisions does not depend on their order.
pub proof fn law_combine_commutative(a: Decision, b: Decision)
    ensures
        combine_spec(a, b) == combine_spec(b, a),
{
}

/// Combining decisions is associative.
pub proof fn law_combine_associative(a: Decision, b: Decision, c: Decision)
    ensures
        combine_spec(combine_spec(a, b), c) == combine_spec(a, combine_spec(b, c)),
{
}

/// A forbid wins over anything; a permit changes nothing; combining a decision
/// with itself gives it back.
pub proof fn law_combine_forbid_and_permit(a: Decision)
    ensures
        combine_spec(Decision::Forbid, a) == Decision::Forbid,
        combine_spec(Decision::Permit, a) == a,
        combine_spec(a, a) == a,
{
}

/// The combination permits only where both decisions permit.
pub proof fn law_combine_permits(a: Decision, b: Decision)
    ensures
        (combine_spec(a, b) == Decision::Permit) <==> (a == Decision::Permit && b
            == Decision::Permit),
{
}

/// Authorization result with details.
#[derive(Debug)]
pub struct AuthorizationResult {
    /// The decision
    pub decision: Decision,
    /// Explanation for the decision
    pub explanation: String,
    /// Rules that were evaluated
    pub evaluated_rules: Vec<String>,
    /// Facts that were used
    pub facts_used: Vec<String>,
    /// Evaluation time in nanoseconds
    pub evaluation_time_ns: u64,
    /// Whether result was cached
    pub cached: bool,
}

/// The models of a sequence of strings.
pub open spec fn strings_view(s: Seq<String>) -> Seq<Seq<char>> {
    s.map_values(|x: String| x@)
}

/// A copy of a list of strings.
pub fn strings_clone(v: &Vec<String>) -> (r: Vec<String>)
    ensures
        strings_view(r@) == strings_view(v@),
{
    let mut out: Vec<String> = Vec::new();
    let mut i: usize = 0;
    while i < v.len()
        invariant
            i <= v@.len(),
            out@.len() == i,
            forall|k: int| 0 <= k < i ==> #[trigger] out@[k]@ == v@[k]@,
        decreases v.len() - i,
    {
        out.push(owned(v[i].as_str()));
        i = i + 1;
    }
    assert(strings_view(out@) =~= strings_view(v@));
    out
}

impl AuthorizationResult {
    /// A copy of this result.
    pub fn duplicate(&self) -> (r: AuthorizationResult)
        ensures
            r.decision == self.decision,
            r.explanation@ == self.explanation@,
            strings_view(r.evaluated_rules@) == strings_view(self.evaluated_rules@),
            strings_view(r.facts_used@) == strings_view(self.facts_used@),
            r.evaluation_time_ns == self.evaluation_time_ns,
            r.cached == self.cached,
    {
        AuthorizationResult {
            decision: self.decision,
            explanation: owned(self.explanation.as_str()),
            evaluated_rules: strings_clone(&self.evaluated_rules),
            facts_used: strings_clone(&self.facts_used),
            evaluation_time_ns: self.evaluation_time_ns,
            cached: self.cached,
        }
    }
}

impl Clone for AuthorizationResult {
    fn clone(&self) -> (r: Self)
        ensures
            r.decision == self.decision,
            r.explanation@ == self.explanation@,
            strings_view(r.evaluated_rules@) == strings_view(self.evaluated_rules@),
            strings_view(r.facts_used@) == strings_view(self.facts_used@),
            r.evaluation_time_ns == self.evaluation_time_ns,
            r.cached == self.cached,
    {
        self.duplicate()
    }
}

/// Model of an authorization result: its texts as character sequences.
pub struct VResult {
    /// The decision
    pub decision: Decision,
    /// Explanation for the decision
    pub explanation: Seq<char>,
    /// Rules that were evaluated
    pub evaluated_rules: Seq<Seq<char>>,
    /// Facts that were used
    pub facts_used: Seq<Seq<char>>,
    /// Evaluation time in nanoseconds
    pub evaluation_time_ns: u64,
    /// Whether the result was cached
    pub cached: bool,
}

impl View for AuthorizationResult {
    type V = VResult;

    open spec fn view(&self) -> VResult {
        VResult {
            decision: self.decision,
            explanation: self.explanation@,
            evaluated_rules: strings_view(self.evaluated_rules@),
            facts_used: strings_view(self.facts_used@),
            evaluation_time_ns: self.evaluation_time_ns,
            cached: self.cached,
        }
    }
}

/// The explanation of a combined answer.
pub open spec fn combined_explanation(decision: Decision, d: VResult, p: VResult) -> Seq<char> {
    match decision {
        Decision::Permit => "Permitted by "@ + crate::text::decimal(
            (d.evaluated_rules.len() + p.evaluated_rules.len()) as nat,
        ) + " rules"@,
        Decision::Deny => "No matching permit rules"@,
        Decision::Forbid => if p.decision == Decision::Forbid {
            p.explanation
        } else {
            d.explanation
        },
    }
}

/// The engine's answer made of the Datalog side's and the policies' answers.
pub open spec fn combined(d: VResult, p: VResult, evaluation_time_ns: u64) -> VResult {
    let decision = combine_spec(d.decision, p.decision);
    VResult {
        decision,
        explanation: combined_explanation(decision, d, p),
        evaluated_rules: d.evaluated_rules + p.evaluated_rules,
        facts_used: d.facts_used + p.facts_used,
        evaluation_time_ns,
        cached: false,
    }
}

proof fn lemma_strings_view_concat(a: Seq<String>, b: Seq<String>)
    ensures
        strings_view(a + b) == strings_view(a) + strings_view(b),
{
    assert(strings_view(a + b) =~= strings_view(a) + strings_view(b));
}

/// Merge the results of the Datalog rules and of the policies into the
/// engine's answer: the combined decision, its explanation, and the rules and
/// facts of both sides, the Datalog side first.
pub fn combine_results(
    datalog: AuthorizationResult,
    policies: AuthorizationResult,
    evaluation_time_ns: u64,
) -> (r: AuthorizationResult)
    ensures
        r@ == combined(datalog@, policies@, evaluation_time_ns),
        r.evaluated_rules@ == datalog.evaluated_rules@ + policies.evaluated_rules@,
        r.facts_used@ == datalog.facts_used@ + policies.facts_used@,
{
    let ghost dv = datalog@;
    let ghost pv = policies@;
    let decision = datalog.decision.combine(policies.decision);
    let n: u128 = datalog.evaluated_rules.len() as u128 + policies.evaluated_rules.len() as u128;
    let explanation = match decision {
        Decision::Permit => {
            let mut s = owned("Permitted by ");
            let digits = crate::text::u128_to_string(n);
            s.append(digits.as_str());
            s.append(" rules");
            s
        },
        Decision::Deny => owned("No matching permit rules"),
        Decision::Forbid => {
            if policies.decision == Decision::Forbid {
                policies.explanation
            } else {
                datalog.explanation
            }
        },
    };
    let ghost d_rules = datalog.evaluated_rules@;
    let ghost p_rules = policies.evaluated_rules@;
    let ghost d_facts = datalog.facts_used@;
    let ghost p_facts = policies.facts_used@;
    let mut evaluated_rules = datalog.evaluated_rules;
    let mut more = policies.evaluated_rules;
    evaluated_rules.append(&mut more);
    let mut facts_used = datalog.facts_used;
    let mut more_facts = policies.facts_used;
    facts_used.append(&mut more_facts);
    proof {
        lemma_strings_view_concat(d_rules, p_rules);
        lemma_strings_view_concat(d_facts, p_facts);
    }
    AuthorizationResult {
        decision,
        explanation,
        evaluated_rules,
        facts_used,
        evaluation_time_ns,
        cached: false,
    }
}

/// Engine configuration.
#[derive(Debug, Clone)]
pub struct EngineConfig {
    /// Maximum cache size
    pub cache_size: usize,
    /// Cache TTL in seconds
    pub cache_ttl_secs: u64,
    /// Enable parallel evaluation
    pub parallel_eval: bool,
    /// Evaluation timeout in milliseconds
    pub timeout_ms: u64,
}

impl Default for EngineConfig {
    fn default() -> (r: Self)
        ensures
            r.cache_size == 10_000,
            r.cache_ttl_secs == 60,
            r.parallel_eval,
            r.timeout_ms == 100,
    {
        EngineConfig { cache_size: 10_000, cache_ttl_secs: 60, parallel_eval: true, timeout_ms: 100 }
    }
}

impl EngineConfig {
    /// Whether a cached answer of the given age, in seconds, may still be served.
    pub fn is_fresh(&self, age_secs: u64) -> (r: bool)
        ensures
            r == (age_secs < self.cache_ttl_secs),
    {
        age_secs < self.cache_ttl_secs
    }
}

/// Counters of the engine; each wraps around at the maximum, as an atomic add does.
#[derive(Debug, Clone)]
pub struct EngineMetrics {
    /// Answers served from the cache
    pub cache_hits: u64,
    /// Answers that had to be evaluated
    pub cache_misses: u64,
    /// Authorizations made
    pub total_authorizations: u64,
    /// Permits given
    pub total_permits: u64,
    /// Denies given
    pub total_denies: u64,
    /// Forbids given
    pub total_forbids: u64,
}

/// All counters at zero.
pub open spec fn zero_metrics() -> EngineMetrics {
    EngineMetrics {
        cache_hits: 0,
        cache_misses: 0,
        total_authorizations: 0,
        total_permits: 0,
        total_denies: 0,
        total_forbids: 0,
    }
}

/// One more, wrapping around at the maximum.
pub open spec fn bump(x: u64) -> u64 {
    if x == u64::MAX {
        0
    } else {
        (x + 1) as u64
    }
}

/// The counters after an authorization with the given decision.
pub open spec fn recorded(m: EngineMetrics, decision: Decision) -> EngineMetrics {
    EngineMetrics {
        total_authorizations: bump(m.total_authorizations),
        total_permits: if decision == Decision::Permit { bump(m.total_permits) } else { m.total_permits },
        total_denies: if decision == Decision::Deny { bump(m.total_denies) } else { m.total_denies },
        total_forbids: if decision == Decision::Forbid { bump(m.total_forbids) } else { m.total_forbids },
        ..m
    }
}

/// Add one, wrapping around at the maximum.
fn wrapping_increment(x: u64) -> (r: u64)
    ensures
        r == bump(x),
{
    if x == u64::MAX {
        0
    } else {
        x + 1
    }
}

impl EngineMetrics {
    /// All counters at zero.
    pub fn new() -> (r: Self)
        ensures
            r.cache_hits == 0,
            r.cache_misses == 0,
            r.total_authorizations == 0,
            r.total_permits == 0,
            r.total_denies == 0,
            r.total_forbids == 0,
    {
        EngineMetrics {
            cache_hits: 0,
            cache_misses: 0,
            total_authorizations: 0,
            total_permits: 0,
            total_denies: 0,
            total_forbids: 0,
        }
    }

    /// Count an answer served from the cache.
    pub fn record_cache_hit(&mut self)
        ensures
            *final(self) == (EngineMetrics { cache_hits: bump(old(self).cache_hits), ..*old(self) }),
    {
        self.cache_hits = wrapping_increment(self.cache_hits);
    }

    /// Count an answer that had to be evaluated.
    pub fn record_cache_miss(&mut self)
        ensures
            *final(self) == (EngineMetrics { cache_misses: bump(old(self).cache_misses), ..*old(self) }),
    {
        self.cache_misses = wrapping_increment(self.cache_misses);
    }

    /// Count an authorization and its decision.
    pub fn record_authorization(&mut self, decision: Decision)
        ensures
            *final(self) == recorded(*old(self), decision),
    {
        self.total_authorizations = wrapping_increment(self.total_authorizations);
        match decision {
            Decision::Permit => self.total_permits = wrapping_increment(self.total_permits),
            Decision::Deny => self.total_denies = wrapping_increment(self.total_denies),
            Decision::Forbid => self.total_forbids = wrapping_increment(self.total_forbids),
        }
    }

    /// A copy of the counters.
    pub fn snapshot(&self) -> (r: EngineMetrics)
        ensures
            r == *self,
    {
        EngineMetrics {
            cache_hits: self.cache_hits,
            cache_misses: self.cache_misses,
            total_authorizations: self.total_authorizations,
            total_permits: self.total_permits,
            total_denies: self.total_denies,
            total_forbids: self.total_forbids,
        }
    }
}

/// A cached answer and the clock reading, in nanoseconds, when it was made.
struct CacheEntry {
    result: AuthorizationResult,
    timestamp: u64,
}

/// The main engine: Datalog rules over a fact store, Cedar policies, and a
/// cache of answers by request key.
pub struct RUNEEngine {
    datalog: DatalogEngine,
    policies: PolicySet,
    facts: Arc<FactStore>,
    cache: HashMap<u64, CacheEntry>,
    config: EngineConfig,
    metrics: EngineMetrics,
}

/// Model of the engine.
pub struct VRUNEEngine {
    /// The Datalog rules
    pub rules: Seq<VRule>,
    /// The facts of the store, in order of addition
    pub facts: Seq<VFact>,
    /// The cached answers by key, each with the clock reading when it was made
    pub cache: Map<u64, (VResult, u64)>,
    /// The configuration
    pub config: EngineConfig,
    /// The counters
    pub metrics: EngineMetrics,
    /// The ids of the Cedar policies
    pub policies: Set<Seq<char>>,
}

/// The models of the cache's entries.
spec fn cache_view(m: Map<u64, CacheEntry>) -> Map<u64, (VResult, u64)> {
    m.map_values(|e: CacheEntry| (e.result@, e.timestamp))
}

impl View for RUNEEngine {
    type V = VRUNEEngine;

    closed spec fn view(&self) -> VRUNEEngine {
        VRUNEEngine {
            rules: self.datalog@.rules,
            facts: (*self.facts)@.facts,
            cache: cache_view(self.cache@),
            config: self.config,
            metrics: self.metrics,
            policies: self.policies@,
        }
    }
}

/// The whole seconds from `then` to `now`, zero when the clock went back.
pub open spec fn age_secs(now: u64, then: u64) -> nat {
    if now >= then {
        ((now - then) / 1_000_000_000) as nat
    } else {
        0
    }
}

/// Whether the cache holds an answer for the key that is younger than the
/// time to live.
pub open spec fn fresh_hit(e: VRUNEEngine, key: u64, now: u64) -> bool {
    e.cache.contains_key(key) && age_secs(now, e.cache[key].1) < e.config.cache_ttl_secs
}

/// An answer as served from the cache.
pub open spec fn as_cached(r: VResult) -> VResult {
    VResult { cached: true, ..r }
}

/// The engine after serving an answer from the cache.
pub open spec fn after_hit(e: VRUNEEngine) -> VRUNEEngine {
    VRUNEEngine { metrics: EngineMetrics { cache_hits: bump(e.metrics.cache_hits), ..e.metrics }, ..e }
}

/// The engine after a cache miss: a stale answer for the key is dropped.
pub open spec fn after_miss(e: VRUNEEngine, key: u64) -> VRUNEEngine {
    VRUNEEngine {
        cache: e.cache.remove(key),
        metrics: EngineMetrics { cache_misses: bump(e.metrics.cache_misses), ..e.metrics },
        ..e
    }
}

/// The engine after caching a new answer made at `now`.
pub open spec fn after_store(e: VRUNEEngine, key: u64, now: u64, r: VResult) -> VRUNEEngine {
    VRUNEEngine { cache: e.cache.insert(key, (r, now)), metrics: recorded(e.metrics, r.decision), ..e }
}

/// The models of an authorization's outcome.
pub open spec fn result_view(r: Result<AuthorizationResult, RUNEError>) -> Result<VResult, RUNEError> {
    match r {
        Ok(a) => Ok(a@),
        Err(e) => Err(e),
    }
}

/// One authorization of a request under a cache key at clock reading `now`,
/// taking the engine from `e` to `e2` with outcome `r`. A fresh cached
/// answer is served as it was stored, marked cached. Otherwise a stale answer
/// is dropped, and the answer combines the Datalog side's with the one Cedar
/// builds from its decision, its reasons and its errors, as Cedar gives them
/// for the engine's policies (with none, `Deny` with no reasons); it is
/// cached under the key with the clock reading. A request whose type names
/// Cedar refuses gets the policy set's error, and nothing is cached; any
/// other request is answered exactly when Cedar's entity store accepts its
/// entities (`entities_accepted`).
pub open spec fn authorize_step(
    e: VRUNEEngine,
    request: Request,
    key: u64,
    now: u64,
    e2: VRUNEEngine,
    r: Result<VResult, RUNEError>,
) -> bool {
    if fresh_hit(e, key, now) {
        e2 == after_hit(e) && r == Ok::<VResult, RUNEError>(as_cached(e.cache[key].0))
    } else {
        let mid = after_miss(e, key);
        &&& type_check_error(request) matches Some(s) ==> (r matches Err(RUNEError::InvalidRequest(t)) && t@ == s)
        &&& request_error(request) matches Some(s) ==> (r matches Err(RUNEError::InvalidRequest(t)) && t@ == s)
        &&& request_error(request) is None ==> (r is Ok || (r matches Err(RUNEError::InvalidRequest(t))
            && entities_refusal(t@)))
        &&& request_error(request) is None ==> (r is Ok <==> entities_accepted(request))
        &&& match r {
            Ok(res) => {
                &&& exists|allow: bool, reasons: Seq<Seq<char>>, errors: Seq<Seq<char>>|
                    res == #[trigger] combined(
                        datalog_model(e.rules, e.facts, 0),
                        policy_model(allow, reasons, errors, 0),
                        res.evaluation_time_ns,
                    ) && cedar_consistent(e.policies, allow, reasons, errors)
                &&& e2 == after_store(mid, key, now, res)
            },
            Err(err) => err is InvalidRequest && e2 == mid,
        }
    }
}

/// A combined answer does not depend on the two sides' evaluation times.
proof fn lemma_combined_times(d: VResult, p: VResult, t: u64)
    ensures
        combined(d, p, t) == combined(VResult { evaluation_time_ns: 0, ..d }, VResult { evaluation_time_ns: 0, ..p }, t),
{
}

impl RUNEEngine {
    #[verifier::type_invariant]
    spec fn inv(self) -> bool {
        &&& self.datalog@.rules.len() == 0
        &&& self.datalog@.store == (*self.facts)@.facts
        &&& self.policies@ == Set::<Seq<char>>::empty()
    }

    /// An engine with the default configuration.
    pub fn new() -> (r: Self)
        ensures
            r@.rules.len() == 0,
            r@.facts.len() == 0,
            r@.cache == Map::<u64, (VResult, u64)>::empty(),
            r@.config.cache_size == 10_000,
            r@.config.cache_ttl_secs == 60,
            r@.config.parallel_eval,
            r@.config.timeout_ms == 100,
            r@.metrics == zero_metrics(),
            r@.policies == Set::<Seq<char>>::empty(),
    {
        Self::with_config(EngineConfig::default())
    }

    /// An engine with a configuration: no rules, no facts, an empty cache,
    /// counters at zero.
    pub fn with_config(config: EngineConfig) -> (r: Self)
        ensures
            r@.rules.len() == 0,
            r@.facts.len() == 0,
            r@.cache == Map::<u64, (VResult, u64)>::empty(),
            r@.config == config,
            r@.metrics == zero_metrics(),
            r@.policies == Set::<Seq<char>>::empty(),
    {
        let facts = Arc::new(FactStore::new());
        let datalog = DatalogEngine::empty(share(&facts));
        let cache: HashMap<u64, CacheEntry> = HashMap::new();
        assert(cache_view(cache@) =~= Map::<u64, (VResult, u64)>::empty());
        RUNEEngine { datalog, policies: PolicySet::new(), facts, cache, config, metrics: EngineMetrics::new() }
    }

    /// Serve a fresh cached answer, counting the hit; or drop a stale one and
    /// count the miss.
    fn check_cache(&mut self, key: u64, now: u64) -> (r: Option<AuthorizationResult>)
        ensures
            fresh_hit(old(self)@, key, now) ==> (r matches Some(res) && res@ == as_cached(old(self)@.cache[key].0)
                && final(self)@ == after_hit(old(self)@)),
            !fresh_hit(old(self)@, key, now) ==> r is None && final(self)@ == after_miss(old(self)@, key),
    {
        proof {
            use_type_invariant(&*self);
        }
        let ghost e0 = self@;
        let hit = match self.cache.get(&key) {
            Some(entry) => {
                let age: u64 = if now >= entry.timestamp {
                    (now - entry.timestamp) / 1_000_000_000
                } else {
                    0
                };
                if self.config.is_fresh(age) {
                    let mut res = entry.result.duplicate();
                    res.cached = true;
                    Some(res)
                } else {
                    None
                }
            },
            None => None,
        };
        let mut metrics = EngineMetrics::new();
        std::mem::swap(&mut metrics, &mut self.metrics);
        match hit {
            Some(res) => {
                metrics.record_cache_hit();
                self.metrics = metrics;
                Some(res)
            },
            None => {
                let mut cache: HashMap<u64, CacheEntry> = HashMap::new();
                std::mem::swap(&mut cache, &mut self.cache);
                let ghost c0 = cache@;
                cache.remove(&key);
                proof {
                    assert(cache_view(cache@) =~= cache_view(c0).remove(key));
                }
                self.cache = cache;
                metrics.record_cache_miss();
                self.metrics = metrics;
                None
            },
        }
    }

    /// Cache an answer made at `now` under the key, and count it.
    fn store_result(&mut self, key: u64, now: u64, result: &AuthorizationResult)
        ensures
            final(self)@ == after_store(old(self)@, key, now, result@),
    {
        proof {
            use_type_invariant(&*self);
        }
        let entry = CacheEntry { result: result.duplicate(), timestamp: now };
        let mut cache: HashMap<u64, CacheEntry> = HashMap::new();
        std::mem::swap(&mut cache, &mut self.cache);
        let ghost c0 = cache@;
        cache.insert(key, entry);
        proof {
            assert(cache_view(cache@) =~= cache_view(c0).insert(key, (result@, now)));
        }
        self.cache = cache;
        let mut metrics = EngineMetrics::new();
        std::mem::swap(&mut metrics, &mut self.metrics);
        metrics.record_authorization(result.decision);
        self.metrics = metrics;
    }

    /// Authorize a request under a cache key, at clock reading `now`.
    pub fn authorize_at(&mut self, request: &Request, key: u64, now: u64) -> (r: Result<AuthorizationResult, RUNEError>)
        ensures
            authorize_step(old(self)@, *request, key, now, final(self)@, result_view(r)),
            old(self)@.policies == Set::<Seq<char>>::empty(),
            r matches Ok(res) ==> (!res.cached ==> res@ == combined(
                datalog_model(old(self)@.rules, old(self)@.facts, 0),
                policy_model(false, Seq::empty(), Seq::empty(), 0),
                res.evaluation_time_ns,
            )),
    {
        proof {
            use_type_invariant(&*self);
        }
        let ghost e0 = self@;
        if let Some(res) = self.check_cache(key, now) {
            return Ok(res);
        }
        proof {
            use_type_invariant(&*self);
        }
        let datalog_result = match self.datalog.evaluate(request, &self.facts) {
            Ok(d) => d,
            Err(e) => return Err(e),
        };
        let cedar_result = match self.policies.evaluate(request) {
            Ok(c) => c,
            Err(e) => return Err(e),
        };
        let end = clock_nanos();
        let elapsed = if end >= now { end - now } else { 0 };
        let ghost dv = datalog_result@;
        let ghost pv = cedar_result@;
        let result = combine_results(datalog_result, cedar_result, elapsed);
        proof {
            let (allow, reasons, errors) = choose|allow: bool, reasons: Seq<Seq<char>>, errors: Seq<Seq<char>>|
                #[trigger] crate::policy::policy_outcome(cedar_result, allow, reasons, errors)
                    && cedar_consistent(self.policies@, allow, reasons, errors);
            assert(cedar_consistent(e0.policies, allow, reasons, errors));
            assert(reasons =~= Seq::<Seq<char>>::empty());
            assert(errors =~= Seq::<Seq<char>>::empty());
            lemma_combined_times(dv, pv, elapsed);
            assert(VResult { evaluation_time_ns: 0, ..dv } == datalog_model(e0.rules, e0.facts, 0));
            assert(VResult { evaluation_time_ns: 0, ..pv } == policy_model(allow, reasons, errors, 0));
            assert(result@ == combined(datalog_model(e0.rules, e0.facts, 0), policy_model(allow, reasons, errors, 0), result.evaluation_time_ns));
        }
        self.store_result(key, now, &result);
        Ok(result)
    }

    /// Authorize a request: its cache key and the clock are read, then the
    /// answer is served or made as `authorize_at` says.
    pub fn authorize(&mut self, request: &Request) -> (r: Result<AuthorizationResult, RUNEError>)
        ensures
            exists|key: u64, now: u64| #[trigger] authorize_step(old(self)@, *request, key, now, final(self)@, result_view(r)),
            r matches Ok(res) ==> (!res.cached ==> res@ == combined(
                datalog_model(old(self)@.rules, old(self)@.facts, 0),
                policy_model(false, Seq::empty(), Seq::empty(), 0),
                res.evaluation_time_ns,
            )),
    {
        let now = clock_nanos();
        let key = request.cache_key();
        let r = self.authorize_at(request, key, now);
        assert(authorize_step(old(self)@, *request, key, now, self@, result_view(r)));
        r
    }

    /// Add a fact to the store that the Datalog side evaluates over.
    pub fn add_fact(&mut self, predicate: impl ToText, args: Vec<Value>)
        ensures
            final(self)@ == (VRUNEEngine {
                facts: old(self)@.facts.push(VFact { pred: predicate.text(), args: values_view(args@) }),
                ..old(self)@
            }),
    {
        proof {
            use_type_invariant(&*self);
        }
        let ghost f0 = self@.facts;
        let ghost e0 = self@;
        assert(e0.rules =~= Seq::<VRule>::empty());
        let fact = Fact::new(predicate, args);
        let ghost fv = fact@;
        let mut store = FactStore::new();
        store.add_facts(self.facts.all_facts());
        assert(store@.facts =~= f0);
        store.add_fact(fact);
        assert(store@.facts == f0.push(fv));
        let shared = Arc::new(store);
        let mut whole = RUNEEngine::new();
        std::mem::swap(&mut whole, self);
        let RUNEEngine { datalog: _, policies, facts: _, cache, config, metrics } = whole;
        let datalog = DatalogEngine::empty(share(&shared));
        *self = RUNEEngine { datalog, policies, facts: shared, cache, config, metrics };
        assert(self@.facts == f0.push(fv));
        assert(self@.rules == e0.rules);
        assert(self@.cache == e0.cache);
    }

    /// Empty the cache of answers.
    pub fn clear_cache(&mut self)
        ensures
            final(self)@ == (VRUNEEngine { cache: Map::empty(), ..old(self)@ }),
    {
        proof {
            use_type_invariant(&*self);
        }
        let mut cache: HashMap<u64, CacheEntry> = HashMap::new();
        std::mem::swap(&mut cache, &mut self.cache);
        cache.clear();
        assert(cache_view(cache@) =~= Map::<u64, (VResult, u64)>::empty());
        self.cache = cache;
    }

    /// The number of cached answers.
    pub fn cache_len(&self) -> (r: usize)
        ensures
            r == self@.cache.len(),
    {
        assert(cache_view(self.cache@).dom() =~= self.cache@.dom());
        self.cache.len()
    }

    /// The engine's counters.
    pub fn metrics(&self) -> (r: EngineMetrics)
        ensures
            r == self@.metrics,
    {
        self.metrics.snapshot()
    }

    /// The engine's configuration.
    pub fn config(&self) -> (r: &EngineConfig)
        ensures
            *r == self@.config,
    {
        &self.config
    }
}

impl Default for RUNEEngine {
    fn default() -> (r: Self)
        ensures
            r@.rules.len() == 0,
            r@.facts.len() == 0,
            r@.cache == Map::<u64, (VResult, u64)>::empty(),
            r@.config.cache_ttl_secs == 60,
            r@.metrics == zero_metrics(),
    {
        RUNEEngine::new()
    }
}

/// An answer made on a cache miss is what the next authorization under the
/// same key gives back, marked cached, while it is younger than the time to
/// live; the cache is left as it was.
pub proof fn law_cache_read_after_write(
    e0: VRUNEEngine,
    e1: VRUNEEngine,
    e2: VRUNEEngine,
    request1: Request,
    request2: Request,
    key: u64,
    t1: u64,
    t2: u64,
    r1: VResult,
    r2: Result<VResult, RUNEError>,
)
    requires
        !fresh_hit(e0, key, t1),
        authorize_step(e0, request1, key, t1, e1, Ok(r1)),
        authorize_step(e1, request2, key, t2, e2, r2),
        age_secs(t2, t1) < e0.config.cache_ttl_secs,
    ensures
        r2 == Ok::<VResult, RUNEError>(as_cached(r1)),
        e2.cache == e1.cache,
{
    assert(e1.cache.contains_key(key));
    assert(e1.cache[key] == (r1, t1));
    assert(fresh_hit(e1, key, t2));
}

/// Serving from the cache changes nothing but the hit counter; an answer is
/// cached only when it was made.
pub proof fn law_cache_hit_keeps_state(
    e0: VRUNEEngine,
    e1: VRUNEEngine,
    request: Request,
    key: u64,
    now: u64,
    r: Result<VResult, RUNEError>,
)
    requires
        authorize_step(e0, request, key, now, e1, r),
    ensures
        fresh_hit(e0, key, now) ==> (e1.cache == e0.cache && e1.metrics.cache_hits == bump(e0.metrics.cache_hits)
            && e1.metrics.total_authorizations == e0.metrics.total_authorizations),
        e1.config == e0.config,
        e1.rules == e0.rules,
        e1.facts == e0.facts,
{
}

} // verus!
