//! Facts: ground predicates over values, and patterns that match them.
use vstd::prelude::*;
use crate::types::{Value, VValue, value_eq, value_clone, lemma_values_view, values_view, ToText};
use crate::text::{owned, str_eq};

verus! {

broadcast use vstd::std_specs::vec::group_vec_axioms;

/// Model of a fact: its predicate and the models of its arguments.
/// The timestamp is not part of a fact's identity.
pub struct VFact {
    /// Predicate
    pub pred: Seq<char>,
    /// Arguments
    pub args: Seq<VValue>,
}

/// A fact in the system.
#[derive(Debug)]
pub struct Fact {
    /// Fact name/predicate
    pub predicate: String,
    /// Fact arguments
    pub args: Vec<Value>,
    /// Fact timestamp (for temporal reasoning)
    pub timestamp: u64,
}

impl View for Fact {
    type V = VFact;

    open spec fn view(&self) -> VFact {
        VFact { pred: self.predicate@, args: values_view(self.args@) }
    }
}

/// A fresh timestamp read from the system clock (nanoseconds since the epoch).
#[verifier::external_body]
pub(crate) fn clock_nanos() -> u64 {
    match std::time::SystemTime::now().duration_since(std::time::UNIX_EPOCH) {
        Ok(d) => d.as_nanos() as u64,
        Err(_) => 0,
    }
}

/// Equality of argument vectors by their models.
pub fn values_eq(a: &Vec<Value>, b: &Vec<Value>) -> (r: bool)
    ensures
        r == (values_view(a@) == values_view(b@)),
{
    proof {
        lemma_values_view(a@);
        lemma_values_view(b@);
    }
    if a.len() != b.len() {
        return false;
    }
    let mut i: usize = 0;
    while i < a.len()
        invariant
            a@.len() == b@.len(),
            i <= a@.len(),
            values_view(a@).len() == a@.len(),
            values_view(b@).len() == b@.len(),
            forall|j: int| 0 <= j < a@.len() ==> #[trigger] values_view(a@)[j] == a@[j]@,
            forall|j: int| 0 <= j < b@.len() ==> #[trigger] values_view(b@)[j] == b@[j]@,
            forall|j: int| 0 <= j < i ==> a@[j]@ == b@[j]@,
        decreases a.len() - i,
    {
        if !value_eq(&a[i], &b[i]) {
            assert(values_view(a@)[i as int] != values_view(b@)[i as int]);
            return false;
        }
        i = i + 1;
    }
    assert(values_view(a@) =~= values_view(b@));
    true
}

/// A copy of a vector of values with the same model.
pub fn values_clone(a: &Vec<Value>) -> (r: Vec<Value>)
    ensures
        values_view(r@) == values_view(a@),
{
    let mut out: Vec<Value> = Vec::new();
    let mut i: usize = 0;
    while i < a.len()
        invariant
            i <= a@.len(),
            out@.len() == i,
            forall|j: int| 0 <= j < i ==> out@[j]@ == a@[j]@,
        decreases a.len() - i,
    {
        out.push(value_clone(&a[i]));
        i = i + 1;
    }
    proof {
        lemma_values_view(a@);
        lemma_values_view(out@);
        assert(values_view(out@) =~= values_view(a@));
    }
    out
}

impl Clone for Fact {
    fn clone(&self) -> (r: Self)
        ensures
            r@ == self@,
            r.timestamp == self.timestamp,
    {
        Fact {
            predicate: self.predicate.clone(),
            args: values_clone(&self.args),
            timestamp: self.timestamp,
        }
    }
}

impl PartialEq for Fact {
    fn eq(&self, other: &Self) -> (r: bool) {
        self.predicate == other.predicate && values_eq(&self.args, &other.args)
    }
}

impl vstd::std_specs::cmp::PartialEqSpecImpl for Fact {
    open spec fn obeys_eq_spec() -> bool {
        true
    }

    open spec fn eq_spec(&self, other: &Self) -> bool {
        self@ == other@
    }
}

impl Eq for Fact {}

/// Another handle to a shared value: std's `Arc::clone`, which points the new
/// handle at the same allocation, so the shared value is the same.
#[verifier::external_body]
pub(crate) fn share<T>(a: &std::sync::Arc<T>) -> (r: std::sync::Arc<T>)
    ensures
        *r == **a,
{
    a.clone()
}

/// Equality of facts by predicate and arguments, ignoring timestamps.
pub fn fact_eq(a: &Fact, b: &Fact) -> (r: bool)
    ensures
        r == (a@ == b@),
{
    a.predicate == b.predicate && values_eq(&a.args, &b.args)
}

impl Fact {
    /// Create a new fact, stamped with the current clock reading.
    pub fn new(predicate: impl ToText, args: Vec<Value>) -> (r: Fact)
        ensures
            r@ == (VFact { pred: predicate.text(), args: values_view(args@) }),
    {
        Fact { predicate: predicate.to_text(), args, timestamp: clock_nanos() }
    }

    /// Create a unary fact (single argument).
    pub fn unary(predicate: impl ToText, arg: Value) -> (r: Fact)
        ensures
            r@ == (VFact { pred: predicate.text(), args: seq![arg@] }),
    {
        let ghost a = arg@;
        let mut v: Vec<Value> = Vec::new();
        v.push(arg);
        proof {
            lemma_values_view(v@);
            assert(values_view(v@) =~= seq![a]);
        }
        Self::new(predicate, v)
    }

    /// Create a binary fact (two arguments).
    pub fn binary(predicate: impl ToText, arg1: Value, arg2: Value) -> (r: Fact)
        ensures
            r@ == (VFact { pred: predicate.text(), args: seq![arg1@, arg2@] }),
    {
        let ghost a = arg1@;
        let ghost b = arg2@;
        let mut v: Vec<Value> = Vec::new();
        v.push(arg1);
        v.push(arg2);
        proof {
            lemma_values_view(v@);
            assert(values_view(v@) =~= seq![a, b]);
        }
        Self::new(predicate, v)
    }

    /// Check if fact matches a pattern.
    pub fn matches_pattern(&self, pattern: &FactPattern) -> (r: bool)
        ensures
            r == pattern_matches(pattern@, self@),
    {
        proof {
            lemma_values_view(self.args@);
            lemma_pattern_args_view(pattern.args@);
        }
        if self.predicate != pattern.predicate {
            return false;
        }
        if self.args.len() != pattern.args.len() {
            return false;
        }
        let mut i: usize = 0;
        while i < self.args.len()
            invariant
                self@.args.len() == self.args@.len(),
                pattern@.args.len() == pattern.args@.len(),
                self.args@.len() == pattern.args@.len(),
                self@.pred == pattern@.pred,
                i <= self.args@.len(),
                forall|j: int| 0 <= j < self.args@.len() ==> #[trigger] self@.args[j] == self.args@[j]@,
                forall|j: int| 0 <= j < pattern.args@.len() ==> #[trigger] pattern@.args[j] == pattern.args@[j]@,
                forall|j: int| 0 <= j < i ==> #[trigger] arg_matches(pattern@.args[j], self@.args[j]),
            decreases self.args.len() - i,
        {
            match &pattern.args[i] {
                PatternArg::Variable(_) => {},
                PatternArg::Constant(val) => {
                    if !value_eq(&self.args[i], val) {
                        assert(!arg_matches(pattern@.args[i as int], self@.args[i as int]));
                        return false;
                    }
                },
            }
            i = i + 1;
        }
        true
    }
}

/// Models of a sequence of facts.
pub open spec fn facts_view(fs: Seq<Fact>) -> Seq<VFact> {
    Seq::new(fs.len(), |i: int| fs[i]@)
}

/// Whether a fact (by its model) occurs among facts.
pub fn fact_in(v: &Vec<Fact>, f: &Fact) -> (r: bool)
    ensures
        r == facts_view(v@).contains(f@),
{
    let mut i: usize = 0;
    while i < v.len()
        invariant
            i <= v@.len(),
            forall|j: int| 0 <= j < i ==> v@[j]@ != f@,
        decreases v.len() - i,
    {
        if fact_eq(&v[i], f) {
            assert(facts_view(v@)[i as int] == f@);
            return true;
        }
        i = i + 1;
    }
    assert(!facts_view(v@).contains(f@)) by {
        if facts_view(v@).contains(f@) {
            let k = choose|k: int| 0 <= k < facts_view(v@).len() && facts_view(v@)[k] == f@;
            assert(v@[k]@ == f@);
        }
    }
    false
}

/// A copy of a sequence of facts.
pub fn facts_clone(v: &Vec<Fact>) -> (r: Vec<Fact>)
    ensures
        facts_view(r@) == facts_view(v@),
        r@.len() == v@.len(),
        forall|j: int| 0 <= j < v@.len() ==> #[trigger] r@[j].timestamp == v@[j].timestamp,
{
    let mut out: Vec<Fact> = Vec::new();
    let mut i: usize = 0;
    while i < v.len()
        invariant
            i <= v@.len(),
            out@.len() == i,
            forall|j: int| 0 <= j < i ==> out@[j]@ == v@[j]@,
            forall|j: int| 0 <= j < i ==> #[trigger] out@[j].timestamp == v@[j].timestamp,
        decreases v.len() - i,
    {
        out.push(v[i].clone());
        i = i + 1;
    }
    assert(facts_view(out@) =~= facts_view(v@));
    out
}

/// Model of a pattern argument.
pub enum VPatternArg {
    /// Matches anything
    Var(Seq<char>),
    /// Matches exactly this value
    Const(VValue),
}

/// Argument in a fact pattern.
#[derive(Debug)]
pub enum PatternArg {
    /// Variable (matches anything)
    Variable(String),
    /// Constant (must match exactly)
    Constant(Value),
}

impl View for PatternArg {
    type V = VPatternArg;

    open spec fn view(&self) -> VPatternArg {
        match self {
            PatternArg::Variable(s) => VPatternArg::Var(s@),
            PatternArg::Constant(v) => VPatternArg::Const(v@),
        }
    }
}

impl Clone for PatternArg {
    fn clone(&self) -> (r: Self)
        ensures
            r@ == self@,
    {
        match self {
            PatternArg::Variable(s) => PatternArg::Variable(s.clone()),
            PatternArg::Constant(v) => PatternArg::Constant(value_clone(v)),
        }
    }
}

/// Equality of pattern arguments by their models.
pub fn pattern_arg_eq(a: &PatternArg, b: &PatternArg) -> (r: bool)
    ensures
        r == (a@ == b@),
{
    match (a, b) {
        (PatternArg::Variable(x), PatternArg::Variable(y)) => *x == *y,
        (PatternArg::Constant(x), PatternArg::Constant(y)) => value_eq(x, y),
        _ => false,
    }
}

impl PartialEq for PatternArg {
    fn eq(&self, other: &Self) -> (r: bool) {
        pattern_arg_eq(self, other)
    }
}

impl vstd::std_specs::cmp::PartialEqSpecImpl for PatternArg {
    open spec fn obeys_eq_spec() -> bool {
        true
    }

    open spec fn eq_spec(&self, other: &Self) -> bool {
        self@ == other@
    }
}

impl Eq for PatternArg {}

/// Model of a fact pattern.
pub struct VFactPattern {
    /// Predicate
    pub pred: Seq<char>,
    /// Arguments
    pub args: Seq<VPatternArg>,
}

/// Pattern for matching facts.
#[derive(Debug)]
pub struct FactPattern {
    /// Predicate to match
    pub predicate: String,
    /// Pattern arguments
    pub args: Vec<PatternArg>,
}

/// Model of a sequence of pattern arguments.
pub open spec fn pattern_args_view(s: Seq<PatternArg>) -> Seq<VPatternArg> {
    Seq::new(s.len(), |i: int| s[i]@)
}

/// The model of pattern arguments, element by element.
pub proof fn lemma_pattern_args_view(s: Seq<PatternArg>)
    ensures
        pattern_args_view(s).len() == s.len(),
        forall|i: int| 0 <= i < s.len() ==> #[trigger] pattern_args_view(s)[i] == s[i]@,
{
}

impl View for FactPattern {
    type V = VFactPattern;

    open spec fn view(&self) -> VFactPattern {
        VFactPattern { pred: self.predicate@, args: pattern_args_view(self.args@) }
    }
}

impl PartialEq for FactPattern {
    fn eq(&self, other: &Self) -> (r: bool) {
        proof {
            lemma_pattern_args_view(self.args@);
            lemma_pattern_args_view(other.args@);
        }
        if self.predicate != other.predicate {
            return false;
        }
        if self.args.len() != other.args.len() {
            assert(self@.args.len() != other@.args.len());
            return false;
        }
        let mut i: usize = 0;
        while i < self.args.len()
            invariant
                self.args@.len() == other.args@.len(),
                self.predicate@ == other.predicate@,
                i <= self.args@.len(),
                forall|j: int| 0 <= j < i ==> self.args@[j]@ == other.args@[j]@,
            decreases self.args.len() - i,
        {
            if !pattern_arg_eq(&self.args[i], &other.args[i]) {
                assert(pattern_args_view(self.args@)[i as int] != pattern_args_view(other.args@)[i as int]);
                return false;
            }
            i = i + 1;
        }
        assert(pattern_args_view(self.args@) =~= pattern_args_view(other.args@));
        true
    }
}

impl vstd::std_specs::cmp::PartialEqSpecImpl for FactPattern {
    open spec fn obeys_eq_spec() -> bool {
        true
    }

    open spec fn eq_spec(&self, other: &Self) -> bool {
        self@ == other@
    }
}

impl Eq for FactPattern {}

/// Whether a pattern argument admits a value.
pub open spec fn arg_matches(p: VPatternArg, v: VValue) -> bool {
    match p {
        VPatternArg::Var(_) => true,
        VPatternArg::Const(c) => c == v,
    }
}

/// Whether a fact matches a pattern: same predicate, same arity, and every
/// constant of the pattern equal to the argument at its position.
pub open spec fn pattern_matches(p: VFactPattern, f: VFact) -> bool {
    &&& p.pred == f.pred
    &&& p.args.len() == f.args.len()
    &&& forall|i: int| 0 <= i < p.args.len() ==> #[trigger] arg_matches(p.args[i], f.args[i])
}


/// The facts with a predicate, in order.
pub open spec fn with_pred(s: Seq<VFact>, p: Seq<char>) -> Seq<VFact>
    decreases s.len(),
{
    if s.len() == 0 {
        Seq::empty()
    } else {
        let r = with_pred(s.drop_last(), p);
        if s.last().pred == p {
            r.push(s.last())
        } else {
            r
        }
    }
}

/// The facts matching a pattern, in order.
pub open spec fn matching(s: Seq<VFact>, pat: VFactPattern) -> Seq<VFact>
    decreases s.len(),
{
    if s.len() == 0 {
        Seq::empty()
    } else {
        let r = matching(s.drop_last(), pat);
        if pattern_matches(pat, s.last()) {
            r.push(s.last())
        } else {
            r
        }
    }
}

proof fn lemma_matching_within_pred(s: Seq<VFact>, pat: VFactPattern)
    ensures
        matching(with_pred(s, pat.pred), pat) == matching(s, pat),
    decreases s.len(),
{
    if s.len() > 0 {
        lemma_matching_within_pred(s.drop_last(), pat);
        let r = with_pred(s.drop_last(), pat.pred);
        if s.last().pred == pat.pred {
            assert(r.push(s.last()).drop_last() =~= r);
        }
    }
}

proof fn lemma_with_pred_witness(s: Seq<VFact>, p: Seq<char>)
    requires
        with_pred(s, p).len() > 0,
    ensures
        exists|k: int| 0 <= k < s.len() && s[k].pred == p,
    decreases s.len(),
{
    if s.last().pred != p {
        lemma_with_pred_witness(s.drop_last(), p);
        let k = choose|k: int| 0 <= k < s.drop_last().len() && s.drop_last()[k].pred == p;
        assert(s[k] == s.drop_last()[k]);
    } else {
        assert(s[s.len() - 1].pred == p);
    }
}

proof fn lemma_with_pred_absent(s: Seq<VFact>, p: Seq<char>)
    requires
        forall|k: int| 0 <= k < s.len() ==> s[k].pred != p,
    ensures
        with_pred(s, p) == Seq::<VFact>::empty(),
{
    if with_pred(s, p).len() > 0 {
        lemma_with_pred_witness(s, p);
    }
}

/// Model of a fact store: its facts in order of addition, and a version that
/// moves on (wrapping) with every change.
pub struct VFactStore {
    /// All facts, in order of addition
    pub facts: Seq<VFact>,
    /// Change counter
    pub version: u64,
}

/// The models of a predicate index.
pub open spec fn index_view(s: Seq<(String, Vec<Fact>)>) -> Seq<(Seq<char>, Seq<VFact>)> {
    s.map_values(|e: (String, Vec<Fact>)| (e.0@, facts_view(e.1@)))
}

/// An index by predicate is consistent with the facts: one entry per
/// predicate that occurs, holding exactly that predicate's facts in order.
pub open spec fn index_consistent(index: Seq<(Seq<char>, Seq<VFact>)>, facts: Seq<VFact>) -> bool {
    &&& forall|i: int, j: int| 0 <= i < j < index.len() ==> index[i].0 != index[j].0
    &&& forall|i: int| 0 <= i < index.len() ==> #[trigger] index[i].1 == with_pred(facts, index[i].0)
    &&& forall|k: int| 0 <= k < facts.len() ==> exists|i: int| 0 <= i < index.len() && #[trigger] index[i].0 == #[trigger] facts[k].pred
}

/// A store of facts, indexed by predicate.
#[derive(Debug)]
pub struct FactStore {
    facts_by_predicate: Vec<(String, Vec<Fact>)>,
    all_facts: Vec<Fact>,
    version: u64,
}

impl View for FactStore {
    type V = VFactStore;

    closed spec fn view(&self) -> VFactStore {
        VFactStore { facts: facts_view(self.all_facts@), version: self.version }
    }
}

proof fn lemma_index_view(s: Seq<(String, Vec<Fact>)>)
    ensures
        index_view(s).len() == s.len(),
        forall|k: int| 0 <= k < s.len() ==> #[trigger] index_view(s)[k] == (s[k].0@, facts_view(s[k].1@)),
{
}

fn find_predicate(index: &Vec<(String, Vec<Fact>)>, p: &str) -> (r: Option<usize>)
    ensures
        match r {
            Some(i) => i < index@.len() && index@[i as int].0@ == p@,
            None => forall|i: int| 0 <= i < index@.len() ==> index@[i].0@ != p@,
        },
{
    let mut i: usize = 0;
    while i < index.len()
        invariant
            i <= index@.len(),
            forall|j: int| 0 <= j < i ==> index@[j].0@ != p@,
        decreases index.len() - i,
    {
        if str_eq(index[i].0.as_str(), p) {
            return Some(i);
        }
        i = i + 1;
    }
    None
}

impl FactStore {
    #[verifier::type_invariant]
    spec fn inv(self) -> bool {
        index_consistent(index_view(self.facts_by_predicate@), facts_view(self.all_facts@))
    }

    /// The timestamps of the facts, in order of addition.
    pub closed spec fn stamps(&self) -> Seq<u64> {
        self.all_facts@.map_values(|f: Fact| f.timestamp)
    }

    /// An empty store.
    pub fn new() -> (r: Self)
        ensures
            r@ == (VFactStore { facts: Seq::empty(), version: 0 }),
            r.stamps() == Seq::<u64>::empty(),
    {
        let r = FactStore { facts_by_predicate: Vec::new(), all_facts: Vec::new(), version: 0 };
        assert(facts_view(r.all_facts@) =~= Seq::<VFact>::empty());
        assert(r.stamps() =~= Seq::<u64>::empty());
        r
    }

    /// Add a fact; the version moves on.
    pub fn add_fact(&mut self, fact: Fact)
        ensures
            final(self)@ == (VFactStore {
                facts: old(self)@.facts.push(fact@),
                version: old(self)@.version.wrapping_add(1),
            }),
            final(self).stamps() == old(self).stamps().push(fact.timestamp),
    {
        proof {
            use_type_invariant(&*self);
        }
        let ghost fv = fact@;
        let ghost st0 = self.stamps();
        let ghost ts = fact.timestamp;
        let mut whole = FactStore::new();
        std::mem::swap(&mut whole, self);
        let FactStore { facts_by_predicate: mut index, all_facts: mut all, version } = whole;
        let ghost all0 = facts_view(all@);
        let ghost idx0 = index_view(index@);
        proof {
            lemma_index_view(index@);
        }
        let copy = fact.clone();
        let ghost mut slot: int = 0;
        match find_predicate(&index, fact.predicate.as_str()) {
            Some(i) => {
                proof {
                    slot = i as int;
                }
                let key = owned(index[i].0.as_str());
                let mut list = facts_clone(&index[i].1);
                let ghost lb = list@;
                list.push(copy);
                proof {
                    assert(facts_view(list@) =~= facts_view(lb).push(fv));
                }
                index.set(i, (key, list));
                proof {
                    lemma_index_view(index@);
                    assert(index_view(index@) =~= idx0.update(i as int, (fv.pred, idx0[i as int].1.push(fv))));
                }
            },
            None => {
                let mut list: Vec<Fact> = Vec::new();
                list.push(copy);
                let key = fact.predicate.clone();
                proof {
                    slot = index@.len() as int;
                    assert forall|k: int| 0 <= k < all0.len() implies all0[k].pred != fv.pred by {
                        let a = choose|a: int| 0 <= a < idx0.len() && #[trigger] idx0[a].0 == #[trigger] all0[k].pred;
                        assert(idx0[a].0 == index@[a].0@);
                    }
                    lemma_with_pred_absent(all0, fv.pred);
                    assert(facts_view(list@) =~= seq![fv]);
                }
                let ghost ib = index@;
                index.push((key, list));
                proof {
                    lemma_index_view(index@);
                    lemma_index_view(ib);
                    assert(index_view(index@) =~= idx0.push((fv.pred, seq![fv])));
                }
            },
        }
        let ghost all_b = all@;
        all.push(fact);
        proof {
            assert(all_b.map_values(|f: Fact| f.timestamp) == st0);
            assert(all@.map_values(|f: Fact| f.timestamp) =~= st0.push(ts));
            let all1 = facts_view(all@);
            assert(all1 =~= all0.push(fv));
            assert(all1.drop_last() =~= all0);
            assert(all1.last() == fv);
            let idx1 = index_view(index@);
            assert(idx1[slot].0 == fv.pred);
            assert forall|a: int| 0 <= a < idx1.len() implies #[trigger] idx1[a].1 == with_pred(all1, idx1[a].0) by {
                if a < idx0.len() {
                    assert(idx0[a].1 == with_pred(all0, idx0[a].0));
                    if a != slot {
                        assert(idx0[a].0 != idx0[slot].0 || slot >= idx0.len());
                    }
                }
            }
            assert forall|a: int, b: int| 0 <= a < b < idx1.len() implies idx1[a].0 != idx1[b].0 by {
                if b < idx0.len() {
                    assert(idx0[a].0 != idx0[b].0);
                }
            }
            assert forall|k: int| 0 <= k < all1.len() implies exists|a: int| 0 <= a < idx1.len() && #[trigger] idx1[a].0 == #[trigger] all1[k].pred by {
                if k < all0.len() {
                    assert(all1[k] == all0[k]);
                    let a = choose|a: int| 0 <= a < idx0.len() && #[trigger] idx0[a].0 == #[trigger] all0[k].pred;
                    assert(idx1[a].0 == idx0[a].0);
                } else {
                    assert(idx1[slot].0 == all1[k].pred);
                }
            }
        }
        *self = FactStore { facts_by_predicate: index, all_facts: all, version: version.wrapping_add(1) };
    }

    /// Add facts one by one, in order.
    pub fn add_facts(&mut self, facts: Vec<Fact>)
        ensures
            final(self)@.facts == old(self)@.facts + facts_view(facts@),
            final(self)@.version == wrapped_add(old(self)@.version, facts@.len()),
            final(self).stamps() == old(self).stamps() + facts@.map_values(|f: Fact| f.timestamp),
    {
        let ghost f0 = self@.facts;
        let ghost v0 = self@.version;
        let ghost s0 = self.stamps();
        let ghost fts = facts@.map_values(|f: Fact| f.timestamp);
        let mut i: usize = 0;
        while i < facts.len()
            invariant
                i <= facts@.len(),
                self@.facts == f0 + facts_view(facts@).take(i as int),
                self@.version == wrapped_add(v0, i as nat),
                fts == facts@.map_values(|f: Fact| f.timestamp),
                self.stamps() == s0 + fts.take(i as int),
            decreases facts.len() - i,
        {
            let f = facts[i].clone();
            self.add_fact(f);
            assert(fts.take(i + 1) =~= fts.take(i as int).push(fts[i as int]));
            assert(facts_view(facts@).take(i + 1) =~= facts_view(facts@).take(i as int).push(facts@[i as int]@));
            i = i + 1;
        }
        assert(facts_view(facts@).take(i as int) =~= facts_view(facts@));
        assert(fts.take(i as int) =~= fts);
    }

    /// The facts matching a pattern, in order of addition.
    pub fn query(&self, pattern: &FactPattern) -> (r: Vec<Fact>)
        ensures
            facts_view(r@) == matching(self@.facts, pattern@),
    {
        let candidates = self.get_by_predicate(pattern.predicate.as_str());
        let ghost cv = facts_view(candidates@);
        let mut out: Vec<Fact> = Vec::new();
        let mut i: usize = 0;
        assert(facts_view(out@) =~= matching(cv.take(0), pattern@));
        while i < candidates.len()
            invariant
                i <= candidates@.len(),
                cv == facts_view(candidates@),
                facts_view(out@) == matching(cv.take(i as int), pattern@),
            decreases candidates.len() - i,
        {
            assert(cv.take(i + 1).drop_last() =~= cv.take(i as int));
            assert(cv.take(i + 1).last() == candidates@[i as int]@);
            if candidates[i].matches_pattern(pattern) {
                let ghost ob = out@;
                out.push(candidates[i].clone());
                assert(facts_view(out@) =~= facts_view(ob).push(candidates@[i as int]@));
            }
            i = i + 1;
        }
        proof {
            assert(cv.take(i as int) =~= cv);
            lemma_matching_within_pred(self@.facts, pattern@);
        }
        out
    }

    /// The facts with a predicate, in order of addition.
    pub fn get_by_predicate(&self, predicate: &str) -> (r: Vec<Fact>)
        ensures
            facts_view(r@) == with_pred(self@.facts, predicate@),
    {
        proof {
            use_type_invariant(self);
            lemma_index_view(self.facts_by_predicate@);
        }
        match find_predicate(&self.facts_by_predicate, predicate) {
            Some(i) => {
                proof {
                    let idx = index_view(self.facts_by_predicate@);
                    assert(idx[i as int] == (self.facts_by_predicate@[i as int].0@, facts_view(self.facts_by_predicate@[i as int].1@)));
                    assert(idx[i as int].1 == with_pred(facts_view(self.all_facts@), idx[i as int].0));
                }
                facts_clone(&self.facts_by_predicate[i].1)
            },
            None => {
                proof {
                    let idx = index_view(self.facts_by_predicate@);
                    let all = facts_view(self.all_facts@);
                    assert forall|k: int| 0 <= k < all.len() implies all[k].pred != predicate@ by {
                        let a = choose|a: int| 0 <= a < idx.len() && #[trigger] idx[a].0 == #[trigger] all[k].pred;
                        assert(idx[a].0 == self.facts_by_predicate@[a].0@);
                    }
                    lemma_with_pred_absent(all, predicate@);
                }
                let v: Vec<Fact> = Vec::new();
                assert(facts_view(v@) =~= Seq::<VFact>::empty());
                v
            },
        }
    }

    /// All facts, in order of addition.
    pub fn all_facts(&self) -> (r: Vec<Fact>)
        ensures
            facts_view(r@) == self@.facts,
            r@.map_values(|f: Fact| f.timestamp) == self.stamps(),
    {
        let r = facts_clone(&self.all_facts);
        assert(r@.map_values(|f: Fact| f.timestamp) =~= self.stamps());
        r
    }

    /// The change counter.
    pub fn version(&self) -> (r: u64)
        ensures
            r == self@.version,
    {
        self.version
    }

    /// Whether the counter moved past a version.
    pub fn has_changed_since(&self, version: u64) -> (r: bool)
        ensures
            r == (self@.version > version),
    {
        self.version > version
    }

    /// Remove all facts; the version moves on.
    pub fn clear(&mut self)
        ensures
            final(self)@ == (VFactStore { facts: Seq::empty(), version: old(self)@.version.wrapping_add(1) }),
    {
        let v = self.version.wrapping_add(1);
        let fresh = FactStore { facts_by_predicate: Vec::new(), all_facts: Vec::new(), version: v };
        assert(facts_view(fresh.all_facts@) =~= Seq::<VFact>::empty());
        *self = fresh;
    }

    /// The number of facts.
    pub fn len(&self) -> (r: usize)
        ensures
            r == self@.facts.len(),
    {
        self.all_facts.len()
    }

    /// Whether there are no facts.
    pub fn is_empty(&self) -> (r: bool)
        ensures
            r == (self@.facts.len() == 0),
    {
        self.len() == 0
    }
}

/// A counter advanced `n` times, wrapping.
pub open spec fn wrapped_add(v: u64, n: nat) -> u64
    decreases n,
{
    if n == 0 {
        v
    } else {
        wrapped_add(v, (n - 1) as nat).wrapping_add(1)
    }
}

impl Default for FactStore {
    fn default() -> (r: Self)
        ensures
            r@ == (VFactStore { facts: Seq::empty(), version: 0 }),
    {
        FactStore::new()
    }
}

/// A copy of a store's facts and version at one moment.
#[derive(Debug)]
pub struct FactSnapshot {
    facts: Vec<Fact>,
    version: u64,
}

impl View for FactSnapshot {
    type V = VFactStore;

    closed spec fn view(&self) -> VFactStore {
        VFactStore { facts: facts_view(self.facts@), version: self.version }
    }
}

impl FactSnapshot {
    /// The store's current facts and version.
    pub fn from_store(store: &FactStore) -> (r: Self)
        ensures
            r@ == store@,
    {
        FactSnapshot { facts: store.all_facts(), version: store.version() }
    }

    /// The facts of the snapshot.
    pub fn facts(&self) -> (r: &[Fact])
        ensures
            facts_view(r@) == self@.facts,
    {
        self.facts.as_slice()
    }

    /// The version of the snapshot.
    pub fn version(&self) -> (r: u64)
        ensures
            r == self@.version,
    {
        self.version
    }
}

} // verus!
