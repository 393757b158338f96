//! Cedar policies: loading them, and answering a request with them.
use vstd::prelude::*;
use cedar_policy::PolicySet as CedarPolicySet;
use cedar_policy::Authorizer as CedarAuthorizer;
use crate::cedar::{parse_policy_set, parse_policy, empty_policy_set, policy_set_add, policies_of, new_authorizer,
    entity_uid, cedar_request, cedar_entity, cedar_entities, is_authorized, policy_set_parse, policy_parse_error, policy_ids, cedar_consistent,
    KeyedEntity, KeyedUid, KeyedPolicy, store_ok, store_entries, uid_keys, pids, template_ids, linked_ids, cedar_answer,
    RequestKeys, type_name_error};
use crate::engine::{AuthorizationResult, Decision, VResult, strings_view, strings_clone};
use crate::error::RUNEError;
use crate::request::Request;
use crate::types::Entity;
use crate::text::{owned, concat2};
use crate::facts::clock_nanos;

verus! {

broadcast use vstd::std_specs::vec::group_vec_axioms;

/// The errors of an answer, each as `Error: message; `.
pub open spec fn errors_text(errors: Seq<Seq<char>>) -> Seq<char>
    decreases errors.len(),
{
    if errors.len() == 0 {
        Seq::empty()
    } else {
        errors_text(errors.drop_last()) + "Error: "@ + errors.last() + "; "@
    }
}

/// The explanation of Cedar's answer: its errors when there are any,
/// otherwise the decision in words.
pub open spec fn policy_explanation(allow: bool, errors: Seq<Seq<char>>) -> Seq<char> {
    if errors.len() > 0 {
        errors_text(errors)
    } else if allow {
        "Permitted by Cedar policies"@
    } else {
        "Denied by Cedar policies"@
    }
}

/// The answer built from Cedar's decision, the ids of the policies behind it
/// and the errors met.
pub open spec fn policy_model(allow: bool, reasons: Seq<Seq<char>>, errors: Seq<Seq<char>>, evaluation_time_ns: u64) -> VResult {
    VResult {
        decision: if allow { Decision::Permit } else { Decision::Deny },
        explanation: policy_explanation(allow, errors),
        evaluated_rules: reasons,
        facts_used: Seq::empty(),
        evaluation_time_ns,
        cached: false,
    }
}

/// Whether a result is the answer built from Cedar's decision, the ids of
/// the policies behind it and the errors met.
pub open spec fn policy_outcome(res: AuthorizationResult, allow: bool, reasons: Seq<Seq<char>>, errors: Seq<Seq<char>>) -> bool {
    res@ == policy_model(allow, reasons, errors, res.evaluation_time_ns)
}

/// The first of the request's type names that Cedar refuses, with its
/// message: the principal's, then the action's (`Action`), then the
/// resource's.
pub open spec fn type_check_error(request: Request) -> Option<Seq<char>> {
    let pt = request.principal.entity.entity_type@;
    let rt = request.resource.entity.entity_type@;
    match type_name_error(pt) {
        Some(m) => Some("Invalid principal type: "@ + m),
        None => match type_name_error("Action"@) {
            Some(m) => Some("Invalid action type: "@ + m),
            None => match type_name_error(rt) {
                Some(m) => Some("Invalid resource type: "@ + m),
                None => None,
            },
        },
    }
}

/// Why a request cannot be put to Cedar, before Cedar's entity store is
/// built: a refused type name of the request (`type_check_error`), else a
/// refused type name of the principal's or then the resource's entity or
/// parents (`convert_error`).
pub open spec fn request_error(request: Request) -> Option<Seq<char>> {
    match type_check_error(request) {
        Some(m) => Some(m),
        None => match convert_error(request.principal.entity) {
            Some(m) => Some(m),
            None => convert_error(request.resource.entity),
        },
    }
}

/// The key Cedar identifies an entity by: its type name and its id.
pub open spec fn entity_key(e: Entity) -> (Seq<char>, Seq<char>) {
    (e.entity_type@, e.id@)
}

/// The keys of an entity's parents, in order.
pub open spec fn parent_keys_of(e: Entity) -> Seq<(Seq<char>, Seq<char>)> {
    e.parents@.map_values(|p: Entity| entity_key(p))
}

/// The entity store a request is answered over: the principal's entity and
/// the resource's, each with its parents' keys, and the action (type
/// `Action`), without parents.
pub open spec fn store_model(request: Request) -> Seq<((Seq<char>, Seq<char>), Seq<(Seq<char>, Seq<char>)>)> {
    seq![
        (entity_key(request.principal.entity), parent_keys_of(request.principal.entity)),
        (entity_key(request.resource.entity), parent_keys_of(request.resource.entity)),
        (("Action"@, request.action.name@), Seq::<(Seq<char>, Seq<char>)>::empty()),
    ]
}

/// The keys of a request's principal, action (type `Action`) and resource.
pub open spec fn request_keys(request: Request) -> RequestKeys {
    (entity_key(request.principal.entity), ("Action"@, request.action.name@), entity_key(request.resource.entity))
}

/// The ids of policies hold an id exactly when one of them has it.
proof fn lemma_pids_has(ps: Seq<KeyedPolicy>, x: Seq<char>)
    ensures
        pids(ps).contains(x) <==> exists|i: int| 0 <= i < ps.len() && (#[trigger] ps[i]).pid() == x,
{
    let a = ps.map_values(|p: KeyedPolicy| p.pid());
    if a.contains(x) {
        let i = choose|i: int| 0 <= i < a.len() && a[i] == x;
        assert(ps[i].pid() == x);
    }
    if exists|i: int| 0 <= i < ps.len() && (#[trigger] ps[i]).pid() == x {
        let i = choose|i: int| 0 <= i < ps.len() && (#[trigger] ps[i]).pid() == x;
        assert(a[i] == x);
    }
}

/// The ids of policies and one more.
proof fn lemma_pids_push(ps: Seq<KeyedPolicy>, p: KeyedPolicy)
    ensures
        pids(ps.push(p)) == pids(ps).insert(p.pid()),
{
    assert forall|x: Seq<char>| pids(ps.push(p)).contains(x) <==> pids(ps).insert(p.pid()).contains(x) by {
        lemma_pids_has(ps.push(p), x);
        lemma_pids_has(ps, x);
        if exists|i: int| 0 <= i < ps.push(p).len() && (#[trigger] ps.push(p)[i]).pid() == x {
            let i = choose|i: int| 0 <= i < ps.push(p).len() && (#[trigger] ps.push(p)[i]).pid() == x;
            if i < ps.len() {
                assert(ps.push(p)[i] == ps[i]);
            }
        }
        if exists|i: int| 0 <= i < ps.len() && (#[trigger] ps[i]).pid() == x {
            let i = choose|i: int| 0 <= i < ps.len() && (#[trigger] ps[i]).pid() == x;
            assert(ps.push(p)[i] == ps[i]);
        }
        if x == p.pid() {
            assert(ps.push(p)[ps.len() as int] == p);
        }
    }
    assert(pids(ps.push(p)) =~= pids(ps).insert(p.pid()));
}

/// Whether Cedar's entity store accepts a request's entities: the
/// principal, the resource and the action have distinct identifiers, and
/// neither the principal nor the resource is, directly or through the
/// other, its own parent.
pub open spec fn entities_accepted(request: Request) -> bool {
    store_ok(store_model(request))
}

/// Whether an error text is Cedar's entity store refusing the entities
/// (for instance two entities with one identifier).
pub open spec fn entities_refusal(t: Seq<char>) -> bool {
    exists|m: Seq<char>| t == "Failed to create entities: "@ + m
}

/// The answer built from Cedar's response.
pub fn policy_result(allow: bool, reasons: Vec<String>, errors: Vec<String>, evaluation_time_ns: u64) -> (r: AuthorizationResult)
    ensures
        policy_outcome(r, allow, strings_view(reasons@), strings_view(errors@)),
        r.evaluation_time_ns == evaluation_time_ns,
{
    let ghost ev = strings_view(errors@);
    let mut explanation = owned("");
    proof {
        reveal_strlit("");
    }
    let mut i: usize = 0;
    assert(ev.take(0) =~= Seq::<Seq<char>>::empty());
    while i < errors.len()
        invariant
            i <= errors@.len(),
            ev == strings_view(errors@),
            explanation@ == errors_text(ev.take(i as int)),
        decreases errors.len() - i,
    {
        assert(ev.take(i + 1).drop_last() =~= ev.take(i as int));
        assert(ev.take(i + 1).last() == errors@[i as int]@);
        explanation.append("Error: ");
        explanation.append(errors[i].as_str());
        explanation.append("; ");
        i = i + 1;
    }
    assert(ev.take(i as int) =~= ev);
    if errors.len() == 0 {
        explanation = if allow { owned("Permitted by Cedar policies") } else { owned("Denied by Cedar policies") };
    }
    let decision = if allow { Decision::Permit } else { Decision::Deny };
    let facts_used: Vec<String> = Vec::new();
    assert(strings_view(facts_used@) =~= Seq::<Seq<char>>::empty());
    AuthorizationResult {
        decision,
        explanation,
        evaluated_rules: reasons,
        facts_used,
        evaluation_time_ns,
        cached: false,
    }
}

/// Cedar policies and the authorizer that applies them.
pub struct PolicySet {
    cedar_policies: CedarPolicySet,
    authorizer: CedarAuthorizer,
}

impl View for PolicySet {
    type V = Set<Seq<char>>;

    /// The ids of the policies held.
    closed spec fn view(&self) -> Set<Seq<char>> {
        policy_ids(self.cedar_policies)
    }
}

impl PolicySet {
    #[verifier::type_invariant]
    spec fn inv(self) -> bool {
        &&& policy_ids(self.cedar_policies).finite()
        &&& linked_ids(self.cedar_policies) == Set::<Seq<char>>::empty()
    }

    /// Cedar's answer with these policies to a request: whether it allows,
    /// the ids of the policies behind the decision, the messages of the
    /// errors met.
    pub closed spec fn answer(&self, request: Request) -> (bool, Set<Seq<char>>, Set<Seq<char>>) {
        cedar_answer(self.cedar_policies, request_keys(request), store_model(request))
    }

    /// An empty policy set.
    pub fn new() -> (r: Self)
        ensures
            r@ == Set::<Seq<char>>::empty(),
    {
        PolicySet { cedar_policies: empty_policy_set(), authorizer: new_authorizer() }
    }

    /// Replace the policies by those of a text; a text Cedar cannot parse
    /// gives a configuration error and leaves the policies as they were.
    pub fn load_policies(&mut self, policy_str: &str) -> (r: Result<(), RUNEError>)
        ensures
            match policy_set_parse(policy_str@) {
                Ok(ids) => r is Ok && final(self)@ == ids,
                Err(m) => r matches Err(RUNEError::ConfigError(s)) && s@ == "Failed to parse policies: "@ + m
                    && final(self)@ == old(self)@,
            },
    {
        match parse_policy_set(policy_str) {
            Ok(ps) => {
                self.cedar_policies = ps;
                Ok(())
            },
            Err(m) => Err(RUNEError::ConfigError(concat2("Failed to parse policies: ", m.as_str()))),
        }
    }

    /// Add one policy: it is parsed (Cedar gives it the id `policy0`), then
    /// put in a new set before the current policies; the set is replaced only
    /// when Cedar accepts them all, that is when no current policy has the
    /// id `policy0`, and then holds the new policy besides the earlier ones.
    pub fn add_policy(&mut self, _id: &str, policy_str: &str) -> (r: Result<(), RUNEError>)
        ensures
            policy_parse_error(policy_str@) matches Some(m) ==> r matches Err(RUNEError::ConfigError(s)) && s@
                == "Failed to parse policy: "@ + m,
            policy_parse_error(policy_str@) is None ==> (r is Ok <==> !old(self)@.contains("policy0"@)),
            r matches Err(e) ==> e is ConfigError,
            r is Err ==> final(self)@ == old(self)@,
            r is Ok ==> final(self)@ == old(self)@.insert("policy0"@),
    {
        proof {
            use_type_invariant(&*self);
        }
        let policy = match parse_policy(policy_str) {
            Ok(p) => p,
            Err(m) => return Err(RUNEError::ConfigError(concat2("Failed to parse policy: ", m.as_str()))),
        };
        let mut new_set = empty_policy_set();
        match policy_set_add(&mut new_set, policy) {
            Ok(()) => {},
            Err(m) => return Err(RUNEError::ConfigError(concat2("Failed to add policy: ", m.as_str()))),
        }
        let existing = policies_of(&self.cedar_policies);
        let ghost orig = existing@;
        let ghost old_ids = policy_ids(self.cedar_policies);
        let ghost mut k: int = 0;
        let mut rest = existing;
        proof {
            assert(orig.take(0) =~= Seq::<KeyedPolicy>::empty());
            assert(pids(orig.take(0)) =~= Set::<Seq<char>>::empty());
            assert(orig.skip(0) =~= orig);
        }
        while rest.len() > 0
            invariant
                policy_parse_error(policy_str@) is None,
                0 <= k <= orig.len(),
                rest@ == orig.skip(k),
                old_ids == policy_ids(self.cedar_policies),
                old_ids.finite(),
                linked_ids(self.cedar_policies) == Set::<Seq<char>>::empty(),
                pids(orig) == old_ids,
                forall|i: int, j: int| 0 <= i < j < orig.len() ==> (#[trigger] orig[i]).pid() != (#[trigger] orig[j]).pid(),
                forall|i: int| 0 <= i < orig.len() ==> ((#[trigger] orig[i]).static_policy() <==> !linked_ids(
                    self.cedar_policies,
                ).contains(orig[i].pid())),
                policy_ids(new_set) == pids(orig.take(k)).insert("policy0"@),
                !pids(orig.take(k)).contains("policy0"@),
                template_ids(new_set) == Set::<Seq<char>>::empty(),
                linked_ids(new_set) == Set::<Seq<char>>::empty(),
            decreases rest.len(),
        {
            let p = rest.remove(0);
            proof {
                assert(orig.skip(k)[0] == orig[k]);
                assert(p == orig[k]);
                assert(rest@ =~= orig.skip(k + 1));
                lemma_pids_has(orig.take(k), p.pid());
                if pids(orig.take(k)).contains(p.pid()) {
                    let j = choose|j: int| 0 <= j < orig.take(k).len() && (#[trigger] orig.take(k)[j]).pid() == p.pid();
                    assert(orig.take(k)[j] == orig[j]);
                    assert(false);
                }
            }
            match policy_set_add(&mut new_set, p) {
                Ok(()) => {},
                Err(m) => {
                    proof {
                        assert(p.pid() == "policy0"@);
                        lemma_pids_has(orig, p.pid());
                        assert(orig[k].pid() == p.pid());
                    }
                    return Err(RUNEError::ConfigError(concat2("Failed to merge policy: ", m.as_str())));
                },
            }
            proof {
                assert(orig.take(k + 1) =~= orig.take(k).push(orig[k]));
                lemma_pids_push(orig.take(k), orig[k]);
                k = k + 1;
            }
        }
        proof {
            assert(orig.take(k) =~= orig);
            assert(policy_ids(new_set) =~= old_ids.insert("policy0"@));
        }
        self.cedar_policies = new_set;
        Ok(())
    }

    /// Answer a request with the policies. The principal's, the action's
    /// (`Action`) and the resource's type names are checked in that order;
    /// then the Cedar request and entities are built and Cedar decides.
    pub fn evaluate(&self, request: &Request) -> (r: Result<AuthorizationResult, RUNEError>)
        ensures
            type_check_error(*request) matches Some(s) ==> r matches Err(RUNEError::InvalidRequest(t)) && t@ == s,
            request_error(*request) matches Some(s) ==> r matches Err(RUNEError::InvalidRequest(t)) && t@ == s,
            request_error(*request) is None ==> r is Ok || (r matches Err(RUNEError::InvalidRequest(t))
                && entities_refusal(t@)),
            request_error(*request) is None ==> (r is Ok <==> entities_accepted(*request)),
            r matches Ok(res) ==> exists|allow: bool, reasons: Seq<Seq<char>>, errors: Seq<Seq<char>>|
                #[trigger] policy_outcome(res, allow, reasons, errors) && cedar_consistent(self@, allow, reasons, errors),
            r matches Ok(res) ==> exists|errors: Seq<Seq<char>>|
                #[trigger] policy_outcome(res, self.answer(*request).0, res@.evaluated_rules, errors)
                    && res@.evaluated_rules.to_set() == self.answer(*request).1 && errors.to_set() == self.answer(*request).2,
            r matches Err(e) ==> e is InvalidRequest,
    {
        proof {
            use_type_invariant(self);
        }
        let start = clock_nanos();
        let principal = match entity_uid(request.principal.entity.entity_type.as_str(), request.principal.entity.id.as_str()) {
            Ok(u) => u,
            Err(m) => return Err(RUNEError::InvalidRequest(concat2("Invalid principal type: ", m.as_str()))),
        };
        let action = match entity_uid("Action", request.action.name.as_str()) {
            Ok(u) => u,
            Err(m) => return Err(RUNEError::InvalidRequest(concat2("Invalid action type: ", m.as_str()))),
        };
        let resource = match entity_uid(request.resource.entity.entity_type.as_str(), request.resource.entity.id.as_str()) {
            Ok(u) => u,
            Err(m) => return Err(RUNEError::InvalidRequest(concat2("Invalid resource type: ", m.as_str()))),
        };
        let cedar_req = match cedar_request(principal, action, resource) {
            Ok(r) => r,
            Err(m) => return Err(RUNEError::InvalidRequest(concat2("Failed to create Cedar request: ", m.as_str()))),
        };
        let mut all: Vec<KeyedEntity> = Vec::new();
        match convert_entity(&request.principal.entity) {
            Ok(e) => all.push(e),
            Err(e) => return Err(e),
        }
        match convert_entity(&request.resource.entity) {
            Ok(e) => all.push(e),
            Err(e) => return Err(e),
        }
        let action_uid = match entity_uid("Action", request.action.name.as_str()) {
            Ok(u) => u,
            Err(m) => return Err(RUNEError::InvalidRequest(concat2("Invalid action type: ", m.as_str()))),
        };
        let no_parents: Vec<KeyedUid> = Vec::new();
        match cedar_entity(action_uid, no_parents) {
            Ok(e) => all.push(e),
            Err(m) => return Err(RUNEError::InvalidRequest(concat2("Failed to create action entity: ", m.as_str()))),
        }
        proof {
            assert(uid_keys(no_parents@) =~= Seq::<(Seq<char>, Seq<char>)>::empty());
            assert(store_entries(all@) =~= store_model(*request));
        }
        let entities = match cedar_entities(all) {
            Ok(es) => es,
            Err(m) => {
                let t = concat2("Failed to create entities: ", m.as_str());
                assert(entities_refusal(t@));
                return Err(RUNEError::InvalidRequest(t));
            },
        };
        let (allow, reasons, errors) = is_authorized(&self.authorizer, &cedar_req, &self.cedar_policies, &entities);
        let now = clock_nanos();
        let ghost rv = strings_view(reasons@);
        let ghost ev = strings_view(errors@);
        proof {
            assert(cedar_req.keys() == request_keys(*request));
            assert(entities.entries() == store_model(*request));
        }
        let res = policy_result(allow, reasons, errors, if now >= start { now - start } else { 0 });
        assert(policy_outcome(res, allow, rv, ev) && cedar_consistent(self@, allow, rv, ev));
        assert(res@.evaluated_rules == rv);
        assert(policy_outcome(res, self.answer(*request).0, res@.evaluated_rules, ev));
        Ok(res)
    }
}

/// The message of the first type name among the entities that Cedar
/// refuses, if any.
pub open spec fn first_type_error(es: Seq<Entity>) -> Option<Seq<char>>
    decreases es.len(),
{
    if es.len() == 0 {
        None
    } else {
        match type_name_error(es[0].entity_type@) {
            Some(m) => Some(m),
            None => first_type_error(es.drop_first()),
        }
    }
}

/// Why an entity cannot be made a Cedar entity, if it cannot: its own type
/// name refused, else the first parent's type name refused.
pub open spec fn convert_error(e: Entity) -> Option<Seq<char>> {
    match type_name_error(e.entity_type@) {
        Some(m) => Some("Invalid entity type: "@ + m),
        None => match first_type_error(e.parents@) {
            Some(m) => Some("Invalid parent type: "@ + m),
            None => None,
        },
    }
}

/// A Cedar entity for an entity of the library: its identifier and its
/// parents' identifiers, no attributes.
fn convert_entity(entity: &Entity) -> (r: Result<KeyedEntity, RUNEError>)
    ensures
        r is Ok <==> convert_error(*entity) is None,
        r matches Ok(e) ==> e.key() == entity_key(*entity) && e.parent_keys() == parent_keys_of(*entity),
        r matches Err(e) ==> e is InvalidRequest,
        r matches Err(RUNEError::InvalidRequest(t)) ==> convert_error(*entity) == Some(t@),
{
    let uid = match entity_uid(entity.entity_type.as_str(), entity.id.as_str()) {
        Ok(u) => u,
        Err(m) => return Err(RUNEError::InvalidRequest(concat2("Invalid entity type: ", m.as_str()))),
    };
    let mut parents: Vec<KeyedUid> = Vec::new();
    let mut i: usize = 0;
    let ghost ps = entity.parents@;
    assert(ps.skip(0) =~= ps);
    assert(uid_keys(parents@) =~= ps.take(0).map_values(|p: Entity| entity_key(p)));
    while i < entity.parents.len()
        invariant
            i <= entity.parents@.len(),
            ps == entity.parents@,
            uid_keys(parents@) == ps.take(i as int).map_values(|p: Entity| entity_key(p)),
            first_type_error(ps) == first_type_error(ps.skip(i as int)),
            type_name_error(entity.entity_type@) is None,
        decreases entity.parents.len() - i,
    {
        let parent = &entity.parents[i];
        proof {
            assert(ps.skip(i as int)[0] == ps[i as int]);
            assert(ps.skip(i as int).drop_first() =~= ps.skip(i + 1));
        }
        match entity_uid(parent.entity_type.as_str(), parent.id.as_str()) {
            Ok(u) => {
                let ghost before = parents@;
                let ghost uk = u.key();
                parents.push(u);
                assert(uid_keys(parents@) =~= uid_keys(before).push(uk));
                assert(uk == entity_key(ps[i as int]));
                assert(uid_keys(parents@) =~= ps.take(i + 1).map_values(
                    |p: Entity| entity_key(p),
                )) by {
                    assert(ps.take(i + 1) =~= ps.take(i as int).push(ps[i as int]));
                    assert(uid_keys(before) == ps.take(i as int).map_values(|p: Entity| entity_key(p)));
                }
            },
            Err(m) => {
                assert(first_type_error(ps.skip(i as int)) == Some(m@));
                return Err(RUNEError::InvalidRequest(concat2("Invalid parent type: ", m.as_str())));
            },
        }
        i = i + 1;
    }
    assert(ps.skip(i as int).len() == 0);
    assert(ps.take(i as int) =~= ps);
    match cedar_entity(uid, parents) {
        Ok(e) => Ok(e),
        Err(m) => Err(RUNEError::InvalidRequest(concat2("Failed to create entity: ", m.as_str()))),
    }
}

impl Default for PolicySet {
    fn default() -> (r: Self)
        ensures
            r@ == Set::<Seq<char>>::empty(),
    {
        PolicySet::new()
    }
}

} // verus!
