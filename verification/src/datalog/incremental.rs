//! Deltas between fact sets, and incremental maintenance of derived facts.
use vstd::prelude::*;
use crate::facts::{Fact, VFact, facts_view};
use crate::datalog::backends::FactList;
use crate::datalog::evaluation::{fresh_facts, add_all, add_new, evaluate_spec, Evaluator, EvaluationResult};
use crate::datalog::provenance::ProvenanceTracker;
use crate::datalog::types::{Rule, VRule, rules_clone, rule_eq};
use crate::facts::{FactStore, share};
use crate::text::models;
use std::sync::Arc;

verus! {

/// Changes between two evaluations: facts added and facts removed.
#[derive(Debug)]
pub struct Delta {
    /// Facts added since last evaluation
    pub added: FactList,
    /// Facts removed since last evaluation
    pub removed: FactList,
}

/// The sets a delta stands for.
pub open spec fn delta_sets(d: Delta) -> (Set<VFact>, Set<VFact>) {
    (d.added@.to_set(), d.removed@.to_set())
}

/// Folding the facts of `other_removed` then `other_added` into (added, removed):
/// a fact removed after being added cancels out, and so does one added after
/// being removed.
pub open spec fn merge_sets(
    a: Set<VFact>,
    r: Set<VFact>,
    a2: Set<VFact>,
    r2: Set<VFact>,
) -> (Set<VFact>, Set<VFact>) {
    let a1 = a.difference(r2);
    let r1 = r.union(r2.difference(a));
    (a1.union(a2.difference(r1)), r1.difference(a2))
}

impl Delta {
    /// No changes.
    pub fn empty() -> (r: Delta)
        ensures
            r.added@ == Seq::<VFact>::empty(),
            r.removed@ == Seq::<VFact>::empty(),
    {
        Delta { added: FactList::new(), removed: FactList::new() }
    }

    /// The changes from `old_facts` to `new_facts`: what only the new has, and
    /// what only the old has.
    pub fn from_sets(old_facts: &FactList, new_facts: &FactList) -> (r: Delta)
        ensures
            r.added@.to_set() == new_facts@.to_set().difference(old_facts@.to_set()),
            r.removed@.to_set() == old_facts@.to_set().difference(new_facts@.to_set()),
            r.added@ == fresh_facts(new_facts@, old_facts@),
            r.removed@ == fresh_facts(old_facts@, new_facts@),
    {
        let new_v = new_facts.to_vec();
        let old_v = old_facts.to_vec();
        let added = only_in(&new_v, old_facts);
        let removed = only_in(&old_v, new_facts);
        Delta { added, removed }
    }

    /// Whether there is no change.
    pub fn is_empty(&self) -> (r: bool)
        ensures
            r == (self.added@.len() == 0 && self.removed@.len() == 0),
    {
        self.added.len() == 0 && self.removed.len() == 0
    }

    /// The number of changes.
    pub fn size(&self) -> (r: usize)
        requires
            self.added@.len() + self.removed@.len() <= usize::MAX,
        ensures
            r == self.added@.len() + self.removed@.len(),
    {
        self.added.len() + self.removed.len()
    }

    /// Fold another delta into this one; a fact that one delta adds and the
    /// other removes cancels out.
    pub fn merge(&mut self, other: Delta)
        ensures
            (final(self).added@.to_set(), final(self).removed@.to_set()) == merge_sets(
                old(self).added@.to_set(),
                old(self).removed@.to_set(),
                other.added@.to_set(),
                other.removed@.to_set(),
            ),
    {
        let ghost a = self.added@.to_set();
        let ghost r = self.removed@.to_set();
        let ghost a2 = other.added@.to_set();
        let ghost r2 = other.removed@.to_set();
        other.removed.check_no_dup();
        other.added.check_no_dup();
        let rem = other.removed.to_vec();
        let mut i: usize = 0;
        assert(facts_view(rem@).take(0).to_set() =~= Set::<VFact>::empty());
        assert(a.difference(Set::<VFact>::empty()) =~= a);
        assert(r.union(Set::<VFact>::empty().difference(a)) =~= r);
        while i < rem.len()
            invariant
                i <= rem@.len(),
                facts_view(rem@) == other.removed@,
                other.removed@.no_duplicates(),
                r2 == facts_view(rem@).to_set(),
                self.added@.to_set() == a.difference(facts_view(rem@).take(i as int).to_set()),
                self.removed@.to_set() == r.union(facts_view(rem@).take(i as int).to_set().difference(a)),
            decreases rem.len() - i,
        {
            let ghost pre = facts_view(rem@).take(i as int).to_set();
            let ghost x = rem@[i as int]@;
            assert(!pre.contains(x)) by {
                if pre.contains(x) {
                    let k = choose|k: int| 0 <= k < facts_view(rem@).take(i as int).len() && facts_view(rem@).take(i as int)[k] == x;
                    assert(facts_view(rem@)[k] == facts_view(rem@)[i as int]);
                }
            }
            assert(facts_view(rem@).take(i + 1) =~= facts_view(rem@).take(i as int).push(x));
            proof {
                crate::text::lemma_push_to_set(facts_view(rem@).take(i as int), x);
            }
            if self.added.contains(&rem[i]) {
                assert(self.added@.to_set().contains(x));
                assert(a.contains(x));
                self.added.remove(&rem[i]);
                assert(self.added@.to_set() =~= a.difference(pre.insert(x)));
                assert(r.union(pre.insert(x).difference(a)) =~= r.union(pre.difference(a)));
            } else {
                assert(!self.added@.to_set().contains(x));
                assert(!a.contains(x));
                let f = rem[i].clone();
                let ghost before = self.removed@;
                self.removed.insert(f);
                proof {
                    if !before.contains(x) {
                        crate::text::lemma_push_to_set(before, x);
                    } else {
                        assert(before.to_set().insert(x) =~= before.to_set());
                    }
                }
                assert(a.difference(pre.insert(x)) =~= a.difference(pre));
                assert(self.removed@.to_set() =~= r.union(pre.insert(x).difference(a)));
            }
            i = i + 1;
        }
        assert(facts_view(rem@).take(i as int) =~= facts_view(rem@));
        let ghost a1 = a.difference(r2);
        let ghost r1 = r.union(r2.difference(a));
        let add = other.added.to_vec();
        let mut j: usize = 0;
        assert(facts_view(add@).take(0).to_set() =~= Set::<VFact>::empty());
        assert(a1.union(Set::<VFact>::empty().difference(r1)) =~= a1);
        assert(r1.difference(Set::<VFact>::empty()) =~= r1);
        while j < add.len()
            invariant
                j <= add@.len(),
                facts_view(add@) == other.added@,
                other.added@.no_duplicates(),
                a2 == facts_view(add@).to_set(),
                self.added@.to_set() == a1.union(facts_view(add@).take(j as int).to_set().difference(r1)),
                self.removed@.to_set() == r1.difference(facts_view(add@).take(j as int).to_set()),
            decreases add.len() - j,
        {
            let ghost pre = facts_view(add@).take(j as int).to_set();
            let ghost x = add@[j as int]@;
            assert(!pre.contains(x)) by {
                if pre.contains(x) {
                    let k = choose|k: int| 0 <= k < facts_view(add@).take(j as int).len() && facts_view(add@).take(j as int)[k] == x;
                    assert(facts_view(add@)[k] == facts_view(add@)[j as int]);
                }
            }
            assert(facts_view(add@).take(j + 1) =~= facts_view(add@).take(j as int).push(x));
            proof {
                crate::text::lemma_push_to_set(facts_view(add@).take(j as int), x);
            }
            if self.removed.contains(&add[j]) {
                assert(self.removed@.to_set().contains(x));
                assert(r1.contains(x));
                self.removed.remove(&add[j]);
                assert(self.removed@.to_set() =~= r1.difference(pre.insert(x)));
                assert(a1.union(pre.insert(x).difference(r1)) =~= a1.union(pre.difference(r1)));
            } else {
                assert(!self.removed@.to_set().contains(x));
                assert(!r1.contains(x));
                let f = add[j].clone();
                let ghost before = self.added@;
                self.added.insert(f);
                proof {
                    if !before.contains(x) {
                        crate::text::lemma_push_to_set(before, x);
                    } else {
                        assert(before.to_set().insert(x) =~= before.to_set());
                    }
                }
                assert(r1.difference(pre.insert(x)) =~= r1.difference(pre));
                assert(self.added@.to_set() =~= a1.union(pre.insert(x).difference(r1)));
            }
            j = j + 1;
        }
        assert(facts_view(add@).take(j as int) =~= facts_view(add@));
    }
}

/// The facts of `v` that `other` lacks, each once, in order.
fn only_in(v: &Vec<Fact>, other: &FactList) -> (r: FactList)
    ensures
        r@.to_set() == facts_view(v@).to_set().difference(other@.to_set()),
        r@ == fresh_facts(facts_view(v@), other@),
{
    let mut out = FactList::new();
    let mut i: usize = 0;
    assert(facts_view(v@).take(0).to_set() =~= Set::<VFact>::empty());
    assert(out@.to_set() =~= Set::<VFact>::empty());
    while i < v.len()
        invariant
            i <= v@.len(),
            out@.to_set() == facts_view(v@).take(i as int).to_set().difference(other@.to_set()),
            out@ == fresh_facts(facts_view(v@).take(i as int), other@),
        decreases v.len() - i,
    {
        let ghost pre = facts_view(v@).take(i as int).to_set();
        let ghost x = v@[i as int]@;
        assert(facts_view(v@).take(i + 1) =~= facts_view(v@).take(i as int).push(x));
        assert(facts_view(v@).take(i + 1).drop_last() =~= facts_view(v@).take(i as int));
        proof {
            crate::text::lemma_push_to_set(facts_view(v@).take(i as int), x);
        }
        if !other.contains(&v[i]) {
            let ghost before = out@;
            let f = v[i].clone();
            out.insert(f);
            proof {
                if !before.contains(x) {
                    crate::text::lemma_push_to_set(before, x);
                }
            }
            assert(out@.to_set() =~= pre.insert(x).difference(other@.to_set()));
        } else {
            assert(pre.insert(x).difference(other@.to_set()) =~= pre.difference(other@.to_set()));
        }
        i = i + 1;
    }
    assert(facts_view(v@).take(i as int) =~= facts_view(v@));
    out
}

/// The facts of a slice, each once, in order of first occurrence.
pub fn fact_set(v: &[Fact]) -> (r: FactList)
    ensures
        r@.to_set() == facts_view(v@).to_set(),
        r@ == fresh_facts(facts_view(v@), Seq::empty()),
{
    let mut out = FactList::new();
    let mut i: usize = 0;
    assert(facts_view(v@).take(0).to_set() =~= Set::<VFact>::empty());
    assert(out@.to_set() =~= Set::<VFact>::empty());
    while i < v.len()
        invariant
            i <= v@.len(),
            out@.to_set() == facts_view(v@).take(i as int).to_set(),
            out@ == fresh_facts(facts_view(v@).take(i as int), Seq::empty()),
        decreases v.len() - i,
    {
        let ghost x = v@[i as int]@;
        assert(facts_view(v@).take(i + 1) =~= facts_view(v@).take(i as int).push(x));
        assert(facts_view(v@).take(i + 1).drop_last() =~= facts_view(v@).take(i as int));
        proof {
            crate::text::lemma_push_to_set(facts_view(v@).take(i as int), x);
        }
        let ghost before = out@;
        let f = v[i].clone();
        out.insert(f);
        proof {
            if !before.contains(x) {
                crate::text::lemma_push_to_set(before, x);
            } else {
                assert(before.to_set().insert(x) =~= before.to_set());
            }
        }
        i = i + 1;
    }
    assert(facts_view(v@).take(i as int) =~= facts_view(v@));
    out
}

/// The changes from one list of facts to another, as sets.
pub fn compute_fact_diff(old: &[Fact], new: &[Fact]) -> (r: Delta)
    ensures
        r.added@.to_set() == facts_view(new@).to_set().difference(facts_view(old@).to_set()),
        r.removed@.to_set() == facts_view(old@).to_set().difference(facts_view(new@).to_set()),
{
    let old_set = fact_set(old);
    let new_set = fact_set(new);
    Delta::from_sets(&old_set, &new_set)
}

/// A fact added by one delta and removed by the next leaves no trace: merging
/// both into a delta that held neither gives that delta back.
pub proof fn law_merge_undo(a: Set<VFact>, r: Set<VFact>, x: VFact)
    requires
        !a.contains(x),
        !r.contains(x),
    ensures
        merge_sets(
            merge_sets(a, r, set![x], Set::empty()).0,
            merge_sets(a, r, set![x], Set::empty()).1,
            Set::empty(),
            set![x],
        ) == (a, r),
{
    let (a1, r1) = merge_sets(a, r, set![x], Set::empty());
    assert(a1 =~= a.insert(x));
    assert(r1 =~= r);
    let (a2, r2) = merge_sets(a1, r1, Set::empty(), set![x]);
    assert(a2 =~= a);
    assert(r2 =~= r);
}


/// Whether some removed fact has a predicate.
pub open spec fn pred_removed(removed: Seq<VFact>, p: Seq<char>) -> bool {
    exists|i: int| 0 <= i < removed.len() && #[trigger] removed[i].pred == p
}

/// The facts whose predicate no removed fact has, in order.
pub open spec fn drop_removed_preds(d: Seq<VFact>, removed: Seq<VFact>) -> Seq<VFact>
    decreases d.len(),
{
    if d.len() == 0 {
        Seq::empty()
    } else {
        let r = drop_removed_preds(d.drop_last(), removed);
        if pred_removed(removed, d.last().pred) {
            r
        } else {
            r.push(d.last())
        }
    }
}

/// Model of an incremental evaluator.
pub struct VIncremental {
    /// Current rules
    pub rules: Seq<VRule>,
    /// The facts of its store
    pub store: Seq<VFact>,
    /// Derived facts kept from the last evaluation, each once
    pub derived: Seq<VFact>,
    /// Base facts seen at the last evaluation, each once
    pub base: Seq<VFact>,
    /// Evaluation counter
    pub generation: u64,
    /// Whether the next evaluation runs in full
    pub force_full: bool,
    /// Whether the rules changed since the last evaluation
    pub rules_changed: bool,
}

/// Evaluates rules again only as far as base facts changed.
#[derive(Debug)]
pub struct IncrementalEvaluator {
    rules: Vec<Rule>,
    fact_store: Arc<FactStore>,
    previous_derived: FactList,
    previous_base: FactList,
    generation: u64,
    force_full_eval: bool,
    rules_changed: bool,
}

impl View for IncrementalEvaluator {
    type V = VIncremental;

    closed spec fn view(&self) -> VIncremental {
        VIncremental {
            rules: models(self.rules@),
            store: (*self.fact_store)@.facts,
            derived: self.previous_derived@,
            base: self.previous_base@,
            generation: self.generation,
            force_full: self.force_full_eval,
            rules_changed: self.rules_changed,
        }
    }
}

/// Result of an incremental evaluation.
#[derive(Debug)]
pub struct IncrementalResult {
    /// The evaluation result
    pub evaluation: EvaluationResult,
    /// Changes in derived facts from the previous evaluation
    pub delta: Delta,
    /// Generation number
    pub generation: u64,
    /// Whether this evaluation was incremental (not full)
    pub was_incremental: bool,
}

/// Counts describing an incremental evaluator.
#[derive(Debug, Clone)]
pub struct IncrementalStats {
    /// Current generation
    pub generation: u64,
    /// Number of kept derived facts
    pub cached_derived_facts: usize,
    /// Number of kept base facts
    pub cached_base_facts: usize,
    /// Number of rules
    pub rules_count: usize,
}

fn rules_same(a: &Vec<Rule>, b: &Vec<Rule>) -> (r: bool)
    ensures
        r == (models(a@) == models(b@)),
{
    if a.len() != b.len() {
        assert(models(a@).len() != models(b@).len());
        return false;
    }
    let mut i: usize = 0;
    while i < a.len()
        invariant
            i <= a@.len(),
            a@.len() == b@.len(),
            forall|j: int| 0 <= j < i ==> a@[j]@ == b@[j]@,
        decreases a.len() - i,
    {
        if !rule_eq(&a[i], &b[i]) {
            assert(models(a@)[i as int] != models(b@)[i as int]);
            return false;
        }
        i = i + 1;
    }
    assert(models(a@) =~= models(b@));
    true
}

impl IncrementalEvaluator {
    /// An evaluator whose first evaluation runs in full.
    pub fn new(rules: Vec<Rule>, fact_store: Arc<FactStore>) -> (r: Self)
        ensures
            r@ == (VIncremental {
                rules: models(rules@),
                store: (*fact_store)@.facts,
                derived: Seq::empty(),
                base: Seq::empty(),
                generation: 0,
                force_full: true,
                rules_changed: false,
            }),
    {
        IncrementalEvaluator {
            rules,
            fact_store,
            previous_derived: FactList::new(),
            previous_base: FactList::new(),
            generation: 0,
            force_full_eval: true,
            rules_changed: false,
        }
    }

    /// Replace the rules when they differ; the next evaluation is then
    /// incremental, and derives with the new rules.
    pub fn update_rules(&mut self, rules: Vec<Rule>)
        ensures
            models(rules@) != old(self)@.rules ==> final(self)@ == (VIncremental {
                rules: models(rules@),
                force_full: false,
                rules_changed: true,
                ..old(self)@
            }),
            models(rules@) == old(self)@.rules ==> final(self)@ == old(self)@,
    {
        if !rules_same(&rules, &self.rules) {
            self.rules = rules;
            self.force_full_eval = false;
            self.rules_changed = true;
        }
    }

    /// The current rules.
    pub fn rules(&self) -> (r: &[Rule])
        ensures
            models(r@) == self@.rules,
    {
        self.rules.as_slice()
    }

    /// Make the next evaluation run in full.
    pub fn invalidate(&mut self)
        ensures
            final(self)@ == (VIncremental { force_full: true, ..old(self)@ }),
    {
        self.force_full_eval = true;
    }

    /// The evaluation counter.
    pub fn generation(&self) -> (r: u64)
        ensures
            r == self@.generation,
    {
        self.generation
    }

    /// Evaluate: in full when forced; otherwise, when the rules changed,
    /// derive with the new rules over all the base facts; otherwise, when
    /// the base facts did not change, give back the kept derived facts;
    /// otherwise evaluate the rules
    /// over the added base facts alone, drop the kept derived facts whose
    /// predicate a removed base fact has, and add what was derived.
    pub fn evaluate(&mut self) -> (r: IncrementalResult)
        requires
            old(self)@.generation < u64::MAX,
            old(self)@.rules.len() < usize::MAX - 10002,
        ensures
            ({
                let o = old(self)@;
                let n = final(self)@;
                let current = fresh_facts(o.store, Seq::empty());
                let added = fresh_facts(current, o.base);
                let removed = fresh_facts(o.base, current);
                &&& n.generation == o.generation + 1
                &&& r.generation == n.generation
                &&& n.rules == o.rules
                &&& n.store == o.store
                &&& !n.force_full
                &&& !n.rules_changed
                &&& if o.force_full {
                    let (facts, rounds) = evaluate_spec(o.rules, o.store);
                    &&& facts_view(r.evaluation.facts@) == facts
                    &&& r.evaluation.iterations == rounds
                    &&& !r.was_incremental
                    &&& r.delta.added@.len() == 0 && r.delta.removed@.len() == 0
                    &&& n.derived == fresh_facts(facts, Seq::empty())
                    &&& n.base == current
                } else if o.rules_changed {
                    let (facts, rounds) = evaluate_spec(o.rules, o.store);
                    let nd = fresh_facts(facts, Seq::empty());
                    &&& facts_view(r.evaluation.facts@) == nd
                    &&& r.evaluation.iterations == rounds
                    &&& r.was_incremental
                    &&& r.delta.added@ == fresh_facts(nd, o.derived)
                    &&& r.delta.removed@ == fresh_facts(o.derived, nd)
                    &&& n.derived == nd
                    &&& n.base == current
                } else if added.len() == 0 && removed.len() == 0 {
                    &&& facts_view(r.evaluation.facts@) == o.derived
                    &&& r.evaluation.iterations == 0
                    &&& r.was_incremental
                    &&& r.delta.added@.len() == 0 && r.delta.removed@.len() == 0
                    &&& n.derived == o.derived
                    &&& n.base == o.base
                } else {
                    let (dfacts, rounds) = evaluate_spec(o.rules, added);
                    let kept = if removed.len() == 0 { o.derived } else { drop_removed_preds(o.derived, removed) };
                    let nd = add_all(kept, dfacts);
                    &&& facts_view(r.evaluation.facts@) == nd
                    &&& r.evaluation.iterations == rounds
                    &&& r.was_incremental
                    &&& r.delta.added@ == fresh_facts(nd, o.derived)
                    &&& r.delta.removed@ == fresh_facts(o.derived, nd)
                    &&& n.derived == nd
                    &&& n.base == current
                }
            }),
    {
        self.generation = self.generation + 1;
        let store_facts = self.fact_store.all_facts();
        let current = fact_set(store_facts.as_slice());
        let base_delta = Delta::from_sets(&self.previous_base, &current);
        if self.force_full_eval {
            let rules = rules_clone(&self.rules);
            assert(models(rules@) =~= models(self.rules@));
            let evaluator = Evaluator::new(rules, share(&self.fact_store));
            let result = evaluator.evaluate();
            self.previous_derived = fact_set(result.facts.as_slice());
            self.previous_base = current;
            self.force_full_eval = false;
            self.rules_changed = false;
            return IncrementalResult {
                evaluation: result,
                delta: Delta::empty(),
                generation: self.generation,
                was_incremental: false,
            };
        }
        if self.rules_changed {
            let rules = rules_clone(&self.rules);
            assert(models(rules@) =~= models(self.rules@));
            let evaluator = Evaluator::new(rules, share(&self.fact_store));
            let result = evaluator.evaluate();
            let new_derived = fact_set(result.facts.as_slice());
            let derived_delta = Delta::from_sets(&self.previous_derived, &new_derived);
            let facts = new_derived.to_vec();
            self.previous_derived = new_derived;
            self.previous_base = current;
            self.rules_changed = false;
            return IncrementalResult {
                evaluation: EvaluationResult {
                    facts,
                    iterations: result.iterations,
                    evaluation_time_ns: result.evaluation_time_ns,
                    provenance: result.provenance,
                },
                delta: derived_delta,
                generation: self.generation,
                was_incremental: true,
            };
        }
        if base_delta.is_empty() {
            return IncrementalResult {
                evaluation: EvaluationResult {
                    facts: self.previous_derived.to_vec(),
                    iterations: 0,
                    evaluation_time_ns: 0,
                    provenance: ProvenanceTracker::new(false),
                },
                delta: Delta::empty(),
                generation: self.generation,
                was_incremental: true,
            };
        }
        let mut delta_store = FactStore::new();
        let added = base_delta.added.to_vec();
        delta_store.add_facts(added);
        let rules = rules_clone(&self.rules);
        assert(models(rules@) =~= models(self.rules@));
        let evaluator = Evaluator::new(rules, Arc::new(delta_store));
        let delta_result = evaluator.evaluate();
        let mut new_derived = if base_delta.removed.len() == 0 {
            self.previous_derived.duplicate()
        } else {
            keep_unremoved(&self.previous_derived, &base_delta.removed)
        };
        let mut i: usize = 0;
        let ghost kept = new_derived@;
        let ghost dv = facts_view(delta_result.facts@);
        assert(dv.take(0) =~= Seq::<VFact>::empty());
        while i < delta_result.facts.len()
            invariant
                i <= delta_result.facts@.len(),
                dv == facts_view(delta_result.facts@),
                new_derived@ == add_all(kept, dv.take(i as int)),
            decreases delta_result.facts.len() - i,
        {
            assert(dv.take(i + 1).drop_last() =~= dv.take(i as int));
            assert(dv.take(i + 1).last() == delta_result.facts@[i as int]@);
            new_derived.insert(delta_result.facts[i].clone());
            i = i + 1;
        }
        assert(dv.take(i as int) =~= dv);
        let derived_delta = Delta::from_sets(&self.previous_derived, &new_derived);
        let facts = new_derived.to_vec();
        self.previous_derived = new_derived;
        self.previous_base = current;
        IncrementalResult {
            evaluation: EvaluationResult {
                facts,
                iterations: delta_result.iterations,
                evaluation_time_ns: delta_result.evaluation_time_ns,
                provenance: delta_result.provenance,
            },
            delta: derived_delta,
            generation: self.generation,
            was_incremental: true,
        }
    }

    /// Forget everything kept; the next evaluation runs in full.
    pub fn reset(&mut self)
        ensures
            final(self)@ == (VIncremental {
                derived: Seq::empty(),
                base: Seq::empty(),
                generation: 0,
                force_full: true,
                ..old(self)@
            }),
    {
        self.previous_derived.clear();
        self.previous_base.clear();
        self.generation = 0;
        self.force_full_eval = true;
    }

    /// Counts describing the evaluator.
    pub fn stats(&self) -> (r: IncrementalStats)
        ensures
            r.generation == self@.generation,
            r.cached_derived_facts == self@.derived.len(),
            r.cached_base_facts == self@.base.len(),
            r.rules_count == self@.rules.len(),
    {
        IncrementalStats {
            generation: self.generation,
            cached_derived_facts: self.previous_derived.len(),
            cached_base_facts: self.previous_base.len(),
            rules_count: self.rules.len(),
        }
    }
}

/// The kept facts whose predicate no removed fact has.
fn keep_unremoved(d: &FactList, removed: &FactList) -> (r: FactList)
    ensures
        r@ == drop_removed_preds(d@, removed@),
{
    let dv = d.to_vec();
    let rv = removed.to_vec();
    let mut out = FactList::new();
    let mut i: usize = 0;
    d.check_no_dup();
    assert(facts_view(dv@).take(0) =~= Seq::<VFact>::empty());
    while i < dv.len()
        invariant
            i <= dv@.len(),
            facts_view(dv@) == d@,
            facts_view(rv@) == removed@,
            d@.no_duplicates(),
            out@ == drop_removed_preds(facts_view(dv@).take(i as int), removed@),
            forall|x: VFact| #[trigger] out@.contains(x) ==> facts_view(dv@).take(i as int).contains(x),
        decreases dv.len() - i,
    {
        let ghost pre = facts_view(dv@).take(i as int);
        assert(facts_view(dv@).take(i + 1).drop_last() =~= pre);
        assert(facts_view(dv@).take(i + 1).last() == dv@[i as int]@);
        let mut hit = false;
        let mut k: usize = 0;
        while k < rv.len()
            invariant
                k <= rv@.len(),
                i < dv@.len(),
                hit == exists|j: int| 0 <= j < k && #[trigger] facts_view(rv@)[j].pred == dv@[i as int]@.pred,
            decreases rv.len() - k,
        {
            if rv[k].predicate == dv[i].predicate {
                assert(facts_view(rv@)[k as int].pred == dv@[i as int]@.pred);
                hit = true;
            }
            k = k + 1;
        }
        if !hit {
            let ghost ob = out@;
            let x = dv[i].clone();
            assert(!ob.contains(dv@[i as int]@)) by {
                if ob.contains(dv@[i as int]@) {
                    assert(pre.contains(dv@[i as int]@));
                    let w = choose|w: int| 0 <= w < pre.len() && pre[w] == dv@[i as int]@;
                    assert(facts_view(dv@)[w] == facts_view(dv@)[i as int]);
                }
            }
            out.insert(x);
            assert forall|y: VFact| #[trigger] out@.contains(y) implies facts_view(dv@).take(i + 1).contains(y) by {
                if ob.contains(y) {
                    let w = choose|w: int| 0 <= w < pre.len() && pre[w] == y;
                    assert(facts_view(dv@).take(i + 1)[w] == y);
                } else {
                    assert(facts_view(dv@).take(i + 1)[i as int] == y);
                }
            }
        } else {
            assert forall|y: VFact| #[trigger] out@.contains(y) implies facts_view(dv@).take(i + 1).contains(y) by {
                let w = choose|w: int| 0 <= w < pre.len() && pre[w] == y;
                assert(facts_view(dv@).take(i + 1)[w] == y);
            }
        }
        i = i + 1;
    }
    assert(facts_view(dv@).take(i as int) =~= facts_view(dv@));
    out
}


/// A state after a delta: the removed facts gone, the added ones there.
pub open spec fn delta_applied(base: Set<VFact>, added: Set<VFact>, removed: Set<VFact>) -> Set<VFact> {
    base.difference(removed).union(added)
}

/// A delta fits a state when it adds only facts the state lacks and removes
/// only facts the state holds.
pub open spec fn delta_fits(base: Set<VFact>, added: Set<VFact>, removed: Set<VFact>) -> bool {
    added.disjoint(base) && removed.subset_of(base)
}

/// Merging deltas composes them: for a delta that fits a state, followed by
/// one that fits the state after it, the merged delta fits the first state
/// and leads to the same state as the two in turn. In particular a fact
/// removed by the first and added back by the second is in neither part of
/// the merge.
pub proof fn law_merge_composes(
    base: Set<VFact>,
    a1: Set<VFact>,
    r1: Set<VFact>,
    a2: Set<VFact>,
    r2: Set<VFact>,
)
    requires
        delta_fits(base, a1, r1),
        delta_fits(delta_applied(base, a1, r1), a2, r2),
    ensures
        delta_fits(base, merge_sets(a1, r1, a2, r2).0, merge_sets(a1, r1, a2, r2).1),
        delta_applied(base, merge_sets(a1, r1, a2, r2).0, merge_sets(a1, r1, a2, r2).1) == delta_applied(
            delta_applied(base, a1, r1),
            a2,
            r2,
        ),
        forall|x: VFact| r1.contains(x) && a2.contains(x) ==> !merge_sets(a1, r1, a2, r2).0.contains(x)
            && !merge_sets(a1, r1, a2, r2).1.contains(x),
{
    let (a, r) = merge_sets(a1, r1, a2, r2);
    let mid = delta_applied(base, a1, r1);
    assert(a.disjoint(base)) by {
        assert forall|x: VFact| a.contains(x) implies !base.contains(x) by {
            if a2.contains(x) && !a1.contains(x) && base.contains(x) {
                if !r1.contains(x) {
                    assert(mid.contains(x));
                }
            }
        }
    }
    assert(r.subset_of(base)) by {
        assert forall|x: VFact| r.contains(x) implies base.contains(x) by {
            if !r1.contains(x) {
                assert(r2.contains(x) && mid.contains(x));
            }
        }
    }
    assert(delta_applied(base, a, r) =~= delta_applied(mid, a2, r2)) by {
        assert forall|x: VFact| delta_applied(base, a, r).contains(x) == delta_applied(mid, a2, r2).contains(x) by {
            if a1.contains(x) {
                assert(!base.contains(x));
            }
            if r1.contains(x) {
                assert(base.contains(x));
            }
        }
    }
}

} // verus!
