//! Optimized semi-naive evaluation: facts indexed by predicate and by their
//! first and second arguments, rules stratified by negated dependencies and
//! ordered by an estimated cost, and rounds in which each rule is joined
//! with the last round's new facts at every body position.
//!
//! Body atoms are all joined positively here; the negation of an atom only
//! places its rule in a later stratum.
use vstd::prelude::*;
use crate::datalog::types::{Atom, Term, Rule, VAtom, VTerm, VRule, Substitution, apply_terms, all_ground};
use crate::datalog::unification::{atom_fact_unifier, unify_list, unify_term_spec, ground_atom, ground_args};
use crate::datalog::aggregation::{Bindings, apply_atom, extend_one, extend_all, extend_sub};
use crate::datalog::evaluation::{head_facts, add_all, add_new, fact_rule_heads, body_rules, fresh_facts, stratum_lookup,
    atom_to_fact, atom_fact, fresh_exec, add_all_exec, find_stratum, stratum_pairs};
use crate::datalog::types::rule_clone;
use std::sync::Arc;
use crate::facts::{FactStore, fact_in, clock_nanos};
use crate::text::models;
use crate::facts::{Fact, VFact, facts_view, facts_clone};
use crate::types::{Value, VValue, value_eq, value_clone};
use crate::text::str_eq;

verus! {

broadcast use vstd::std_specs::vec::group_vec_axioms;

/// Facts of a predicate.
pub open spec fn pred_is(p: Seq<char>) -> spec_fn(VFact) -> bool {
    |f: VFact| f.pred == p
}

/// Facts of a predicate with a given argument at a position.
pub open spec fn arg_is(p: Seq<char>, pos: int, v: VValue) -> spec_fn(VFact) -> bool {
    |f: VFact| f.pred == p && f.args.len() > pos && f.args[pos] == v
}

/// The candidate facts for an atom: those of its predicate with its first
/// argument, when that is a constant some fact has; else those with its
/// second argument, likewise; else all facts of its predicate.
pub open spec fn lookup_spec(all: Seq<VFact>, a: VAtom) -> Seq<VFact> {
    if a.terms.len() > 0 && a.terms[0] is Const && exists|k: int|
        0 <= k < all.len() && #[trigger] arg_is(a.pred, 0, a.terms[0]->Const_0)(all[k]) {
        all.filter(arg_is(a.pred, 0, a.terms[0]->Const_0))
    } else if a.terms.len() > 1 && a.terms[1] is Const && exists|k: int|
        0 <= k < all.len() && #[trigger] arg_is(a.pred, 1, a.terms[1]->Const_0)(all[k]) {
        all.filter(arg_is(a.pred, 1, a.terms[1]->Const_0))
    } else {
        all.filter(pred_is(a.pred))
    }
}

/// Buckets of facts by predicate: each holds, in order, the facts of its
/// predicate; keys are distinct; every fact's predicate has a bucket.
pub open spec fn pred_buckets_ok(b: Seq<(String, Vec<Fact>)>, all: Seq<VFact>) -> bool {
    &&& forall|i: int| 0 <= i < b.len() ==> facts_view(#[trigger] b[i].1@) == all.filter(pred_is(b[i].0@))
    &&& forall|i: int, j: int| 0 <= i < j < b.len() ==> #[trigger] b[i].0@ != #[trigger] b[j].0@
    &&& forall|k: int| 0 <= k < all.len() ==> has_pred_bucket(b, #[trigger] all[k].pred)
}

/// Whether some bucket has the predicate as key.
pub open spec fn has_pred_bucket(b: Seq<(String, Vec<Fact>)>, p: Seq<char>) -> bool {
    exists|i: int| 0 <= i < b.len() && #[trigger] b[i].0@ == p
}

/// Whether some bucket has the predicate and value as key.
pub open spec fn has_arg_bucket(b: Seq<((String, Value), Vec<Fact>)>, p: Seq<char>, v: VValue) -> bool {
    exists|i: int| 0 <= i < b.len() && b[i].0.0@ == p && #[trigger] b[i].0.1@ == v
}

/// Buckets of facts by predicate and the argument at a position: each holds,
/// in order, the facts with its key; keys are distinct; every fact with an
/// argument at the position has a bucket.
pub open spec fn arg_buckets_ok(b: Seq<((String, Value), Vec<Fact>)>, all: Seq<VFact>, pos: int) -> bool {
    &&& forall|i: int| 0 <= i < b.len() ==> facts_view(#[trigger] b[i].1@) == all.filter(arg_is(b[i].0.0@, pos, b[i].0.1@))
    &&& forall|i: int| 0 <= i < b.len() ==> (#[trigger] b[i].1@).len() > 0
    &&& forall|i: int, j: int| 0 <= i < j < b.len() ==> (#[trigger] b[i].0.0@, b[i].0.1@) != (#[trigger] b[j].0.0@, b[j].0.1@)
    &&& forall|k: int| 0 <= k < all.len() && #[trigger] all[k].args.len() > pos ==> has_arg_bucket(b, all[k].pred, all[k].args[pos])
}

/// Index for fast fact lookups.
pub struct FactIndex {
    facts: Ghost<Seq<VFact>>,
    by_predicate: Vec<(String, Vec<Fact>)>,
    by_first_arg: Vec<((String, Value), Vec<Fact>)>,
    by_second_arg: Vec<((String, Value), Vec<Fact>)>,
}

impl View for FactIndex {
    type V = Seq<VFact>;

    closed spec fn view(&self) -> Seq<VFact> {
        self.facts@
    }
}

/// Add a fact to its predicate's bucket, made when missing.
fn add_to_pred_bucket(b: &mut Vec<(String, Vec<Fact>)>, fact: &Fact, Ghost(all): Ghost<Seq<VFact>>)
    requires
        pred_buckets_ok(old(b)@, all),
    ensures
        pred_buckets_ok(final(b)@, all.push(fact@)),
{
    let ghost b0 = b@;
    let ghost all1 = all.push(fact@);
    let mut i: usize = 0;
    while i < b.len()
        invariant
            i <= b@.len(),
            b@ == b0,
            all1 == all.push(fact@),
            pred_buckets_ok(b0, all),
            forall|j: int| 0 <= j < i ==> #[trigger] b0[j].0@ != fact.predicate@,
        decreases b.len() - i,
    {
        if str_eq(b[i].0.as_str(), fact.predicate.as_str()) {
            let (key, mut list) = b.remove(i);
            let ghost l0 = list@;
            list.push(fact.clone());
            let ghost kv = key;
            let ghost lv = list;
            b.insert(i, (key, list));
            proof {
                assert(b@ =~= b0.update(i as int, (kv, lv)));
                all.lemma_filter_push(fact@, pred_is(kv@));
                assert(all1 == all.push(fact@));
                assert(facts_view(lv@) =~= facts_view(l0).push(fact@));
                assert forall|j: int| 0 <= j < b@.len() implies facts_view(#[trigger] b@[j].1@) == all1.filter(pred_is(b@[j].0@)) by {
                    if j != i {
                        all.lemma_filter_push(fact@, pred_is(b0[j].0@));
                        assert(b0[j].0@ != kv@);
                    }
                }
                assert forall|k: int| 0 <= k < all1.len() implies has_pred_bucket(b@, #[trigger] all1[k].pred) by {
                    if k < all.len() {
                        assert(all1[k] == all[k]);
                        assert(has_pred_bucket(b0, all[k].pred));
                        let j = choose|j: int| 0 <= j < b0.len() && #[trigger] b0[j].0@ == all[k].pred;
                        assert(b@[j].0@ == b0[j].0@);
                    } else {
                        assert(b@[i as int].0@ == all1[k].pred);
                    }
                }
                assert forall|x: int, y: int| 0 <= x < y < b@.len() implies #[trigger] b@[x].0@ != #[trigger] b@[y].0@ by {
                    assert(b@[x].0@ == b0[x].0@ && b@[y].0@ == b0[y].0@);
                }
            }
            return;
        }
        i = i + 1;
    }
    let mut list: Vec<Fact> = Vec::new();
    list.push(fact.clone());
    let ghost lv = list;
    let key = fact.predicate.clone();
    b.push((key, list));
    proof {
        assert(all.filter(pred_is(fact.predicate@)) =~= Seq::<VFact>::empty()) by {
            assert forall|k: int| 0 <= k < all.len() implies !pred_is(fact.predicate@)(all[k]) by {
                assert(has_pred_bucket(b0, all[k].pred));
            }
            lemma_filter_none(all, pred_is(fact.predicate@));
        }
        all.lemma_filter_push(fact@, pred_is(fact.predicate@));
        assert(facts_view(lv@) =~= seq![fact@]);
        assert forall|j: int| 0 <= j < b@.len() implies facts_view(#[trigger] b@[j].1@) == all1.filter(pred_is(b@[j].0@)) by {
            if j < b0.len() {
                all.lemma_filter_push(fact@, pred_is(b0[j].0@));
            } else {
                assert(all1.filter(pred_is(fact.predicate@)) =~= seq![fact@]);
            }
        }
        assert forall|k: int| 0 <= k < all1.len() implies has_pred_bucket(b@, #[trigger] all1[k].pred) by {
            if k < all.len() {
                assert(all1[k] == all[k]);
                assert(has_pred_bucket(b0, all[k].pred));
                let j = choose|j: int| 0 <= j < b0.len() && #[trigger] b0[j].0@ == all[k].pred;
                assert(b@[j].0@ == b0[j].0@);
            } else {
                assert(b@[b0.len() as int].0@ == all1[k].pred);
            }
        }
        assert forall|x: int, y: int| 0 <= x < y < b@.len() implies #[trigger] b@[x].0@ != #[trigger] b@[y].0@ by {
            assert(b@[x].0@ == b0[x].0@);
            if y < b0.len() {
                assert(b@[y].0@ == b0[y].0@);
            }
        }
    }
}

/// A filter that keeps nothing gives the empty sequence.
proof fn lemma_filter_none(s: Seq<VFact>, p: spec_fn(VFact) -> bool)
    requires
        forall|k: int| 0 <= k < s.len() ==> !p(#[trigger] s[k]),
    ensures
        s.filter(p) == Seq::<VFact>::empty(),
    decreases s.len(),
{
    if s.len() > 0 {
        let t = s.drop_last();
        assert forall|k: int| 0 <= k < t.len() implies !p(#[trigger] t[k]) by {
            assert(t[k] == s[k]);
        }
        lemma_filter_none(t, p);
        assert(s =~= t.push(s.last()));
        t.lemma_filter_push(s.last(), p);
    }
}

/// Add a fact to the bucket of its predicate and argument at a position,
/// made when missing; facts without that argument are left out.
fn add_to_arg_bucket(b: &mut Vec<((String, Value), Vec<Fact>)>, fact: &Fact, pos: usize, Ghost(all): Ghost<Seq<VFact>>)
    requires
        arg_buckets_ok(old(b)@, all, pos as int),
    ensures
        arg_buckets_ok(final(b)@, all.push(fact@), pos as int),
{
    let ghost b0 = b@;
    let ghost all1 = all.push(fact@);
    let ghost fv = fact@;
    proof {
        crate::types::lemma_values_view(fact.args@);
    }
    if fact.args.len() <= pos {
        proof {
            assert forall|j: int| 0 <= j < b@.len() implies facts_view(#[trigger] b@[j].1@) == all1.filter(arg_is(b@[j].0.0@, pos as int, b@[j].0.1@)) by {
                all.lemma_filter_push(fv, arg_is(b0[j].0.0@, pos as int, b0[j].0.1@));
            }
            assert forall|k: int| 0 <= k < all1.len() && #[trigger] all1[k].args.len() > pos implies has_arg_bucket(
                b@,
                all1[k].pred,
                all1[k].args[pos as int],
            ) by {
                assert(k < all.len());
                assert(all1[k] == all[k]);
            }
        }
        return;
    }
    let v = &fact.args[pos];
    assert(fv.args[pos as int] == v@);
    let mut i: usize = 0;
    while i < b.len()
        invariant
            i <= b@.len(),
            b@ == b0,
            fv == fact@,
            all1 == all.push(fact@),
            arg_buckets_ok(b0, all, pos as int),
            fv.args.len() > pos,
            fv.args[pos as int] == v@,
            forall|j: int| 0 <= j < i ==> (#[trigger] b0[j].0.0@, b0[j].0.1@) != (fv.pred, v@),
        decreases b.len() - i,
    {
        if str_eq(b[i].0.0.as_str(), fact.predicate.as_str()) && value_eq(&b[i].0.1, v) {
            let (key, mut list) = b.remove(i);
            let ghost l0 = list@;
            list.push(fact.clone());
            let ghost kv = key;
            let ghost lv = list;
            b.insert(i, (key, list));
            proof {
                assert(b@ =~= b0.update(i as int, (kv, lv)));
                all.lemma_filter_push(fv, arg_is(kv.0@, pos as int, kv.1@));
                assert(facts_view(lv@) =~= facts_view(l0).push(fv));
                assert forall|j: int| 0 <= j < b@.len() implies facts_view(#[trigger] b@[j].1@) == all1.filter(arg_is(b@[j].0.0@, pos as int, b@[j].0.1@)) by {
                    if j != i {
                        all.lemma_filter_push(fv, arg_is(b0[j].0.0@, pos as int, b0[j].0.1@));
                        assert((b0[j].0.0@, b0[j].0.1@) != (kv.0@, kv.1@));
                    }
                }
                assert forall|k: int| 0 <= k < all1.len() && #[trigger] all1[k].args.len() > pos implies has_arg_bucket(
                    b@,
                    all1[k].pred,
                    all1[k].args[pos as int],
                ) by {
                    if k < all.len() {
                        assert(all1[k] == all[k]);
                        assert(has_arg_bucket(b0, all[k].pred, all[k].args[pos as int]));
                        let j = choose|j: int| 0 <= j < b0.len() && b0[j].0.0@ == all[k].pred && #[trigger] b0[j].0.1@ == all[k].args[pos as int];
                        assert(b@[j].0.0@ == b0[j].0.0@ && b@[j].0.1@ == b0[j].0.1@);
                    } else {
                        assert(b@[i as int].0.0@ == all1[k].pred && b@[i as int].0.1@ == all1[k].args[pos as int]);
                    }
                }
                assert forall|x: int, y: int| 0 <= x < y < b@.len() implies (#[trigger] b@[x].0.0@, b@[x].0.1@) != (#[trigger] b@[y].0.0@, b@[y].0.1@) by {
                    assert(b@[x].0 == b0[x].0 && b@[y].0 == b0[y].0);
                }
            }
            return;
        }
        i = i + 1;
    }
    let mut list: Vec<Fact> = Vec::new();
    list.push(fact.clone());
    let ghost lv = list;
    let key = (fact.predicate.clone(), value_clone(v));
    let ghost kv = key;
    b.push((key, list));
    proof {
        assert(kv.0@ == fv.pred && kv.1@ == v@);
        assert forall|k: int| 0 <= k < all.len() implies !arg_is(fv.pred, pos as int, v@)(all[k]) by {
            if arg_is(fv.pred, pos as int, v@)(all[k]) {
                assert(all[k].args.len() > pos);
                assert(has_arg_bucket(b0, all[k].pred, all[k].args[pos as int]));
            }
        }
        lemma_filter_none(all, arg_is(fv.pred, pos as int, v@));
        all.lemma_filter_push(fv, arg_is(fv.pred, pos as int, v@));
        assert(facts_view(lv@) =~= seq![fv]);
        assert forall|j: int| 0 <= j < b@.len() implies facts_view(#[trigger] b@[j].1@) == all1.filter(arg_is(b@[j].0.0@, pos as int, b@[j].0.1@)) by {
            if j < b0.len() {
                all.lemma_filter_push(fv, arg_is(b0[j].0.0@, pos as int, b0[j].0.1@));
            } else {
                assert(all1.filter(arg_is(fv.pred, pos as int, v@)) =~= seq![fv]);
            }
        }
        assert forall|k: int| 0 <= k < all1.len() && #[trigger] all1[k].args.len() > pos implies has_arg_bucket(
            b@,
            all1[k].pred,
            all1[k].args[pos as int],
        ) by {
            if k < all.len() {
                assert(all1[k] == all[k]);
                assert(has_arg_bucket(b0, all[k].pred, all[k].args[pos as int]));
                let j = choose|j: int| 0 <= j < b0.len() && b0[j].0.0@ == all[k].pred && #[trigger] b0[j].0.1@ == all[k].args[pos as int];
                assert(b@[j] == b0[j]);
            } else {
                assert(b@[b0.len() as int].0.0@ == all1[k].pred && b@[b0.len() as int].0.1@ == all1[k].args[pos as int]);
            }
        }
        assert forall|x: int, y: int| 0 <= x < y < b@.len() implies (#[trigger] b@[x].0.0@, b@[x].0.1@) != (#[trigger] b@[y].0.0@, b@[y].0.1@) by {
            assert(b@[x] == b0[x]);
            if y < b0.len() {
                assert(b@[y] == b0[y]);
            }
        }
    }
}

impl FactIndex {
    #[verifier::type_invariant]
    spec fn inv(self) -> bool {
        &&& pred_buckets_ok(self.by_predicate@, self.facts@)
        &&& arg_buckets_ok(self.by_first_arg@, self.facts@, 0)
        &&& arg_buckets_ok(self.by_second_arg@, self.facts@, 1)
    }

    /// An empty index.
    pub fn new() -> (r: FactIndex)
        ensures
            r@ == Seq::<VFact>::empty(),
    {
        FactIndex {
            facts: Ghost(Seq::empty()),
            by_predicate: Vec::new(),
            by_first_arg: Vec::new(),
            by_second_arg: Vec::new(),
        }
    }

    /// Index a fact.
    pub fn index_fact(&mut self, fact: &Fact)
        ensures
            final(self)@ == old(self)@.push(fact@),
    {
        proof {
            use_type_invariant(&*self);
        }
        let mut whole = FactIndex::new();
        std::mem::swap(&mut whole, self);
        let FactIndex { facts, mut by_predicate, mut by_first_arg, mut by_second_arg } = whole;
        add_to_pred_bucket(&mut by_predicate, fact, Ghost(facts@));
        add_to_arg_bucket(&mut by_first_arg, fact, 0, Ghost(facts@));
        add_to_arg_bucket(&mut by_second_arg, fact, 1, Ghost(facts@));
        *self = FactIndex { facts: Ghost(facts@.push(fact@)), by_predicate, by_first_arg, by_second_arg };
    }

    /// The candidate facts for an atom, as `lookup_spec` chooses them.
    pub fn lookup(&self, atom: &Atom) -> (r: Vec<Fact>)
        ensures
            facts_view(r@) == lookup_spec(self@, atom@),
    {
        proof {
            use_type_invariant(self);
        }
        let ghost all = self@;
        let ghost a = atom@;
        if atom.terms.len() > 0 {
            match atom.terms[0].as_constant() {
                Some(c) => {
                    match find_arg_bucket(&self.by_first_arg, atom.predicate.as_str(), c) {
                        Some(i) => {
                            proof {
                                lemma_bucket_nonempty(self.by_first_arg@, all, 0, i as int);
                            }
                            return facts_clone(&self.by_first_arg[i].1);
                        },
                        None => {
                            proof {
                                lemma_no_bucket(self.by_first_arg@, all, 0, a.pred, c@);
                            }
                        },
                    }
                },
                None => {},
            }
        }
        if atom.terms.len() > 1 {
            match atom.terms[1].as_constant() {
                Some(c) => {
                    match find_arg_bucket(&self.by_second_arg, atom.predicate.as_str(), c) {
                        Some(i) => {
                            proof {
                                lemma_bucket_nonempty(self.by_second_arg@, all, 1, i as int);
                            }
                            return facts_clone(&self.by_second_arg[i].1);
                        },
                        None => {
                            proof {
                                lemma_no_bucket(self.by_second_arg@, all, 1, a.pred, c@);
                            }
                        },
                    }
                },
                None => {},
            }
        }
        proof {
            if a.terms.len() > 0 && a.terms[0] is Const {
                assert(!(exists|k: int| 0 <= k < all.len() && #[trigger] arg_is(a.pred, 0, a.terms[0]->Const_0)(all[k])));
            }
            if a.terms.len() > 1 && a.terms[1] is Const {
                assert(!(exists|k: int| 0 <= k < all.len() && #[trigger] arg_is(a.pred, 1, a.terms[1]->Const_0)(all[k])));
            }
            assert(lookup_spec(all, a) == all.filter(pred_is(a.pred)));
        }
        let mut i: usize = 0;
        while i < self.by_predicate.len()
            invariant
                i <= self.by_predicate@.len(),
                a == atom@,
                all == self@,
                lookup_spec(all, a) == all.filter(pred_is(a.pred)),
                pred_buckets_ok(self.by_predicate@, all),
                forall|j: int| 0 <= j < i ==> #[trigger] self.by_predicate@[j].0@ != atom@.pred,
            decreases self.by_predicate.len() - i,
        {
            if str_eq(self.by_predicate[i].0.as_str(), atom.predicate.as_str()) {
                return facts_clone(&self.by_predicate[i].1);
            }
            i = i + 1;
        }
        proof {
            assert forall|k: int| 0 <= k < all.len() implies !pred_is(a.pred)(all[k]) by {
                assert(has_pred_bucket(self.by_predicate@, all[k].pred));
            }
            lemma_filter_none(all, pred_is(a.pred));
        }
        Vec::new()
    }
}

impl Default for FactIndex {
    fn default() -> (r: Self)
        ensures
            r@ == Seq::<VFact>::empty(),
    {
        FactIndex::new()
    }
}

/// The bucket of a predicate and argument, if any.
fn find_arg_bucket(b: &Vec<((String, Value), Vec<Fact>)>, p: &str, v: &Value) -> (r: Option<usize>)
    ensures
        match r {
            Some(i) => i < b@.len() && b@[i as int].0.0@ == p@ && b@[i as int].0.1@ == v@,
            None => forall|j: int| 0 <= j < b@.len() ==> (#[trigger] b@[j].0.0@, b@[j].0.1@) != (p@, v@),
        },
{
    let mut i: usize = 0;
    while i < b.len()
        invariant
            i <= b@.len(),
            forall|j: int| 0 <= j < i ==> (#[trigger] b@[j].0.0@, b@[j].0.1@) != (p@, v@),
        decreases b.len() - i,
    {
        if str_eq(b[i].0.0.as_str(), p) && value_eq(&b[i].0.1, v) {
            return Some(i);
        }
        i = i + 1;
    }
    None
}

/// A bucket's facts are those with its key, and some fact has it.
proof fn lemma_bucket_nonempty(b: Seq<((String, Value), Vec<Fact>)>, all: Seq<VFact>, pos: int, i: int)
    requires
        arg_buckets_ok(b, all, pos),
        0 <= i < b.len(),
    ensures
        exists|k: int| 0 <= k < all.len() && #[trigger] arg_is(b[i].0.0@, pos, b[i].0.1@)(all[k]),
        facts_view(b[i].1@) == all.filter(arg_is(b[i].0.0@, pos, b[i].0.1@)),
{
    let q = arg_is(b[i].0.0@, pos, b[i].0.1@);
    let fl = all.filter(q);
    assert(b[i].1@.len() > 0);
    assert(facts_view(b[i].1@).len() == b[i].1@.len());
    assert(fl.len() > 0);
    let x = fl[0];
    assert(fl.contains(x));
    all.lemma_filter_contains_rev(q, x);
    all.lemma_filter_pred(q, 0);
    let k = choose|k: int| 0 <= k < all.len() && all[k] == x;
    assert(q(all[k]));
}

/// No bucket for a key: no fact has that key.
proof fn lemma_no_bucket(b: Seq<((String, Value), Vec<Fact>)>, all: Seq<VFact>, pos: int, p: Seq<char>, v: VValue)
    requires
        arg_buckets_ok(b, all, pos),
        forall|j: int| 0 <= j < b.len() ==> (#[trigger] b[j].0.0@, b[j].0.1@) != (p, v),
    ensures
        forall|k: int| 0 <= k < all.len() ==> !#[trigger] arg_is(p, pos, v)(all[k]),
{
    assert forall|k: int| 0 <= k < all.len() implies !#[trigger] arg_is(p, pos, v)(all[k]) by {
        if arg_is(p, pos, v)(all[k]) {
            assert(all[k].args.len() > pos);
            assert(has_arg_bucket(b, all[k].pred, all[k].args[pos]));
            let j = choose|j: int| 0 <= j < b.len() && b[j].0.0@ == all[k].pred && #[trigger] b[j].0.1@ == all[k].args[pos];
            assert((b[j].0.0@, b[j].0.1@) == (p, v));
        }
    }
}

/// A unifier found against a fact makes each constant of the atom equal to
/// the fact's argument at its position.
proof fn lemma_unify_list_const(ts: Seq<VTerm>, vs: Seq<VValue>, m: Map<Seq<char>, VValue>, i: int)
    requires
        unify_list(ts, vs, m) is Some,
        ts.len() == vs.len(),
        0 <= i < ts.len(),
        ts[i] is Const,
    ensures
        vs[i] == ts[i]->Const_0,
    decreases i,
{
    if i > 0 {
        match unify_term_spec(ts[0], VTerm::Const(vs[0]), m) {
            Some(m1) => {
                assert(ts.drop_first()[i - 1] == ts[i]);
                assert(vs.drop_first()[i - 1] == vs[i]);
                lemma_unify_list_const(ts.drop_first(), vs.drop_first(), m1, i - 1);
            },
            None => {},
        }
    }
}

/// Extending against the facts a filter keeps gives the same bindings as
/// against all facts, when every fact the atom unifies with is kept.
proof fn lemma_extend_one_filter(a: VAtom, m: Bindings, fs: Seq<VFact>, c: spec_fn(VFact) -> bool)
    requires
        forall|k: int| 0 <= k < fs.len() && (#[trigger] atom_fact_unifier(apply_atom(m, a), fs[k])) is Some ==> c(fs[k]),
    ensures
        extend_one(a, m, fs.filter(c)) == extend_one(a, m, fs),
    decreases fs.len(),
{
    if fs.len() > 0 {
        let t = fs.drop_last();
        let x = fs.last();
        assert(fs =~= t.push(x));
        assert forall|k: int| 0 <= k < t.len() && (#[trigger] atom_fact_unifier(apply_atom(m, a), t[k])) is Some implies c(t[k]) by {
            assert(t[k] == fs[k]);
        }
        lemma_extend_one_filter(a, m, t, c);
        t.lemma_filter_push(x, c);
        assert(atom_fact_unifier(apply_atom(m, a), fs[fs.len() - 1]) is Some ==> c(x));
        if c(x) {
            assert(t.filter(c).push(x).drop_last() =~= t.filter(c));
        }
    }
}

/// Extending against the candidates of a lookup gives the same bindings as
/// against all indexed facts.
proof fn lemma_lookup_extend(a: VAtom, m: Bindings, all: Seq<VFact>)
    ensures
        extend_one(a, m, lookup_spec(all, apply_atom(m, a))) == extend_one(a, m, all),
{
    let pa = apply_atom(m, a);
    assert forall|k: int| 0 <= k < all.len() && (#[trigger] atom_fact_unifier(pa, all[k])) is Some implies pred_is(pa.pred)(all[k]) by {
    }
    if pa.terms.len() > 0 && pa.terms[0] is Const && exists|k: int|
        0 <= k < all.len() && #[trigger] arg_is(pa.pred, 0, pa.terms[0]->Const_0)(all[k]) {
        assert forall|k: int| 0 <= k < all.len() && (#[trigger] atom_fact_unifier(pa, all[k])) is Some implies arg_is(
            pa.pred,
            0,
            pa.terms[0]->Const_0,
        )(all[k]) by {
            lemma_unify_list_const(pa.terms, all[k].args, Map::empty(), 0);
        }
        lemma_extend_one_filter(a, m, all, arg_is(pa.pred, 0, pa.terms[0]->Const_0));
    } else if pa.terms.len() > 1 && pa.terms[1] is Const && exists|k: int|
        0 <= k < all.len() && #[trigger] arg_is(pa.pred, 1, pa.terms[1]->Const_0)(all[k]) {
        assert forall|k: int| 0 <= k < all.len() && (#[trigger] atom_fact_unifier(pa, all[k])) is Some implies arg_is(
            pa.pred,
            1,
            pa.terms[1]->Const_0,
        )(all[k]) by {
            lemma_unify_list_const(pa.terms, all[k].args, Map::empty(), 1);
        }
        lemma_extend_one_filter(a, m, all, arg_is(pa.pred, 1, pa.terms[1]->Const_0));
    } else {
        lemma_extend_one_filter(a, m, all, pred_is(pa.pred));
    }
}

/// The bindings satisfying a body left to right, every atom matched as a
/// positive one: the atom at position `k` against the delta, the others
/// against all facts.
pub open spec fn positive_join(body: Seq<VAtom>, k: int, all: Seq<VFact>, delta: Seq<VFact>) -> Seq<Bindings>
    decreases body.len(),
{
    if body.len() == 0 {
        seq![Map::empty()]
    } else {
        extend_all(
            body.last(),
            positive_join(body.drop_last(), k, all, delta),
            if body.len() - 1 == k { delta } else { all },
        )
    }
}

/// The facts a rule derives with the delta at each of its first `n` body
/// positions in turn.
pub open spec fn positive_positions(r: VRule, all: Seq<VFact>, delta: Seq<VFact>, n: int) -> Seq<VFact>
    decreases n,
{
    if n <= 0 {
        Seq::empty()
    } else {
        positive_positions(r, all, delta, n - 1) + head_facts(r.head, positive_join(r.body, n - 1, all, delta))
    }
}

/// The facts a rule with a body derives in one round; none for a fact rule.
pub open spec fn rule_round_facts(r: VRule, all: Seq<VFact>, delta: Seq<VFact>) -> Seq<VFact> {
    if r.body.len() == 0 {
        Seq::empty()
    } else {
        positive_positions(r, all, delta, r.body.len() as int)
    }
}

/// The candidate facts an atom is tried against under each binding: the
/// sizes of the index lookups.
pub open spec fn candidates_tried(a: VAtom, subs: Seq<Bindings>, src: Seq<VFact>) -> nat
    decreases subs.len(),
{
    if subs.len() == 0 {
        0
    } else {
        candidates_tried(a, subs.drop_last(), src) + lookup_spec(src, apply_atom(subs.last(), a)).len()
    }
}

/// The index lookups and the candidate facts of the join of a body with the
/// delta at position `k`: one lookup per binding of the atoms before each atom.
pub open spec fn join_counts(body: Seq<VAtom>, k: int, all: Seq<VFact>, delta: Seq<VFact>) -> (nat, nat)
    decreases body.len(),
{
    if body.len() == 0 {
        (0, 0)
    } else {
        let c = join_counts(body.drop_last(), k, all, delta);
        let subs = positive_join(body.drop_last(), k, all, delta);
        let src = if body.len() - 1 == k { delta } else { all };
        (c.0 + subs.len(), c.1 + candidates_tried(body.last(), subs, src))
    }
}

/// The lookups and candidates of a rule's joins with the delta at each of
/// its first `n` body positions.
pub open spec fn positions_counts(r: VRule, all: Seq<VFact>, delta: Seq<VFact>, n: int) -> (nat, nat)
    decreases n,
{
    if n <= 0 {
        (0, 0)
    } else {
        let c = positions_counts(r, all, delta, n - 1);
        let d = join_counts(r.body, n - 1, all, delta);
        (c.0 + d.0, c.1 + d.1)
    }
}

/// The lookups and candidates of one rule in a round.
pub open spec fn rule_counts(r: VRule, all: Seq<VFact>, delta: Seq<VFact>) -> (nat, nat) {
    if r.body.len() == 0 {
        (0, 0)
    } else {
        positions_counts(r, all, delta, r.body.len() as int)
    }
}

/// The lookups and candidates of the rules in a round.
pub open spec fn round_counts(rules: Seq<VRule>, all: Seq<VFact>, delta: Seq<VFact>) -> (nat, nat)
    decreases rules.len(),
{
    if rules.len() == 0 {
        (0, 0)
    } else {
        let c = round_counts(rules.drop_last(), all, delta);
        let d = rule_counts(rules.last(), all, delta);
        (c.0 + d.0, c.1 + d.1)
    }
}

/// Bindings of a body at one delta position, through the indexes.
fn join_at(
    rule: &Rule,
    fact_index: &FactIndex,
    delta_index: &FactIndex,
    delta_pos: usize,
    stats: &mut EvaluationStats,
) -> (r: Vec<Substitution>)
    ensures
        models(r@) == positive_join(rule@.body, delta_pos as int, fact_index@, delta_index@),
        final(stats).total_facts_derived == old(stats).total_facts_derived,
        final(stats).total_iterations == old(stats).total_iterations,
        final(stats).rule_applications == old(stats).rule_applications,
        final(stats).index_lookups == capped(old(stats).index_lookups + join_counts(rule@.body, delta_pos as int, fact_index@, delta_index@).0),
        final(stats).unification_attempts == capped(old(stats).unification_attempts + join_counts(rule@.body, delta_pos as int, fact_index@, delta_index@).1),
{
    let ghost s0 = *stats;
    let ghost bv = rule@.body;
    let ghost av = fact_index@;
    let ghost dv = delta_index@;
    let mut subs: Vec<Substitution> = Vec::new();
    subs.push(Substitution::new());
    assert(bv.take(0) =~= Seq::<VAtom>::empty());
    assert(models(subs@) =~= positive_join(bv.take(0), delta_pos as int, av, dv));
    let mut pos: usize = 0;
    while pos < rule.body.len()
        invariant
            pos <= rule.body@.len(),
            bv == rule@.body,
            av == fact_index@,
            dv == delta_index@,
            models(subs@) == positive_join(bv.take(pos as int), delta_pos as int, av, dv),
            stats.total_facts_derived == s0.total_facts_derived,
            stats.total_iterations == s0.total_iterations,
            stats.rule_applications == s0.rule_applications,
            stats.index_lookups == capped(s0.index_lookups + join_counts(bv.take(pos as int), delta_pos as int, av, dv).0),
            stats.unification_attempts == capped(s0.unification_attempts + join_counts(bv.take(pos as int), delta_pos as int, av, dv).1),
        decreases rule.body.len() - pos,
    {
        let atom = &rule.body[pos];
        assert(bv[pos as int] == atom@);
        assert(bv.take(pos + 1).drop_last() =~= bv.take(pos as int));
        assert(bv.take(pos + 1).last() == atom@);
        let index = if pos == delta_pos { delta_index } else { fact_index };
        let ghost src = index@;
        let ghost jc0 = join_counts(bv.take(pos as int), delta_pos as int, av, dv);
        let mut next: Vec<Substitution> = Vec::new();
        let mut j: usize = 0;
        assert(models(next@) =~= extend_all(atom@, models(subs@).take(0), src));
        while j < subs.len()
            invariant
                j <= subs@.len(),
                src == index@,
                models(next@) == extend_all(atom@, models(subs@).take(j as int), src),
                stats.total_facts_derived == s0.total_facts_derived,
                stats.total_iterations == s0.total_iterations,
                stats.rule_applications == s0.rule_applications,
                stats.index_lookups == capped(s0.index_lookups + jc0.0 + j),
                stats.unification_attempts == capped(s0.unification_attempts + jc0.1 + candidates_tried(
                    atom@,
                    models(subs@).take(j as int),
                    src,
                )),
            decreases subs.len() - j,
        {
            assert(models(subs@).take(j + 1).drop_last() =~= models(subs@).take(j as int));
            let partial = atom.apply_substitution(&subs[j]);
            let candidates = index.lookup(&partial);
            stats.index_lookups = count_up(stats.index_lookups, 1);
            stats.unification_attempts = count_up(stats.unification_attempts, candidates.len());
            proof {
                let ms = models(subs@);
                lemma_capped_add(s0.index_lookups + jc0.0 + j, 1);
                assert(ms.take(j + 1).last() == subs@[j as int]@);
                assert(candidates.len() == facts_view(candidates@).len());
                lemma_capped_add(s0.unification_attempts + jc0.1 + candidates_tried(atom@, ms.take(j as int), src), candidates.len() as int);
                assert(partial@ == apply_atom(subs@[j as int]@, atom@));
                lemma_lookup_extend(atom@, subs@[j as int]@, src);
            }
            extend_sub(atom, &subs[j], candidates.as_slice(), &mut next);
            j = j + 1;
        }
        assert(models(subs@).take(j as int) =~= models(subs@));
        assert(models(subs@).len() == subs@.len());
        subs = next;
        pos = pos + 1;
    }
    assert(bv.take(pos as int) =~= bv);
    subs
}

/// The ground head facts under bindings, in order.
fn heads_of(head: &Atom, subs: &Vec<Substitution>) -> (r: Vec<Fact>)
    ensures
        facts_view(r@) == head_facts(head@, models(subs@)),
{
    let ghost sv = models(subs@);
    let mut out: Vec<Fact> = Vec::new();
    let mut i: usize = 0;
    assert(facts_view(out@) =~= head_facts(head@, sv.take(0)));
    while i < subs.len()
        invariant
            i <= subs@.len(),
            sv == models(subs@),
            facts_view(out@) == head_facts(head@, sv.take(i as int)),
        decreases subs.len() - i,
    {
        assert(sv.take(i + 1).drop_last() =~= sv.take(i as int));
        assert(sv.take(i + 1).last() == subs@[i as int]@);
        match ground_atom(head, &subs[i]) {
            Some(f) => {
                let ghost ob = out@;
                out.push(f);
                assert(facts_view(out@) =~= facts_view(ob).push(out@.last()@));
            },
            None => {},
        }
        i = i + 1;
    }
    assert(sv.take(i as int) =~= sv);
    out
}

/// One round of a rule with a body: its facts with the delta at each body
/// position in turn; none for a fact rule.
fn apply_single_rule(
    rule: &Rule,
    fact_index: &FactIndex,
    delta_index: &FactIndex,
    stats: &mut EvaluationStats,
) -> (r: Vec<Fact>)
    ensures
        facts_view(r@) == rule_round_facts(rule@, fact_index@, delta_index@),
        final(stats).total_facts_derived == old(stats).total_facts_derived,
        final(stats).total_iterations == old(stats).total_iterations,
        final(stats).rule_applications == old(stats).rule_applications,
        final(stats).index_lookups == capped(old(stats).index_lookups + rule_counts(rule@, fact_index@, delta_index@).0),
        final(stats).unification_attempts == capped(old(stats).unification_attempts + rule_counts(rule@, fact_index@, delta_index@).1),
{
    let ghost s0 = *stats;
    let mut results: Vec<Fact> = Vec::new();
    if rule.body.len() == 0 {
        assert(facts_view(results@) =~= Seq::<VFact>::empty());
        return results;
    }
    let mut k: usize = 0;
    assert(facts_view(results@) =~= positive_positions(rule@, fact_index@, delta_index@, 0));
    while k < rule.body.len()
        invariant
            k <= rule.body@.len(),
            facts_view(results@) == positive_positions(rule@, fact_index@, delta_index@, k as int),
            stats.total_facts_derived == s0.total_facts_derived,
            stats.total_iterations == s0.total_iterations,
            stats.rule_applications == s0.rule_applications,
            stats.index_lookups == capped(s0.index_lookups + positions_counts(rule@, fact_index@, delta_index@, k as int).0),
            stats.unification_attempts == capped(s0.unification_attempts + positions_counts(rule@, fact_index@, delta_index@, k as int).1),
        decreases rule.body.len() - k,
    {
        let ghost pc0 = positions_counts(rule@, fact_index@, delta_index@, k as int);
        let subs = join_at(rule, fact_index, delta_index, k, stats);
        proof {
            let d = join_counts(rule@.body, k as int, fact_index@, delta_index@);
            lemma_capped_add(s0.index_lookups + pc0.0, d.0 as int);
            lemma_capped_add(s0.unification_attempts + pc0.1, d.1 as int);
        }
        let mut derived = heads_of(&rule.head, &subs);
        let ghost rb = facts_view(results@);
        let ghost db = facts_view(derived@);
        results.append(&mut derived);
        assert(facts_view(results@) =~= rb + db);
        k = k + 1;
    }
    results
}

/// Facts of `s` that are not in `t`, in order.
pub open spec fn without(s: Seq<VFact>, t: Seq<VFact>) -> Seq<VFact> {
    s.filter(|f: VFact| !t.contains(f))
}

/// What the rules derive in one round, rule by rule.
pub open spec fn positive_round(rules: Seq<VRule>, all: Seq<VFact>, delta: Seq<VFact>) -> Seq<VFact>
    decreases rules.len(),
{
    if rules.len() == 0 {
        Seq::empty()
    } else {
        positive_round(rules.drop_last(), all, delta) + rule_round_facts(rules.last(), all, delta)
    }
}

/// Rounds while the delta is not empty and rounds are left: each round's
/// facts not yet accumulated are added, and are the next round's delta.
pub open spec fn positive_fixpoint(rules: Seq<VRule>, acc: Seq<VFact>, delta: Seq<VFact>, left: nat) -> Seq<VFact>
    decreases left,
{
    if left == 0 || delta.len() == 0 {
        acc
    } else {
        let fresh = fresh_facts(positive_round(rules, acc, delta), acc);
        positive_fixpoint(rules, acc + fresh, fresh, (left - 1) as nat)
    }
}

/// The facts a stratum adds to those of the strata before it: the earlier
/// facts, the store's facts and the ground fact rules start it; without
/// rules with a body, all of these but the earlier facts; otherwise rounds
/// run from the facts not earlier, and what they derive beyond the earlier
/// and the store's facts is the answer.
pub open spec fn stratum_facts(rules: Seq<VRule>, prior: Seq<VFact>, base: Seq<VFact>, max_iterations: nat) -> Seq<VFact> {
    let acc0 = add_all(add_all(prior, base), fact_rule_heads(rules));
    let derivation = body_rules(rules);
    if derivation.len() == 0 {
        without(acc0, prior)
    } else {
        without(positive_fixpoint(derivation, acc0, without(acc0, prior), max_iterations), add_all(prior, base))
    }
}

/// The stratum a rule's negated atoms ask for: one more than the latest
/// stratum of each negated predicate (zero when it has none), the largest
/// of these; zero without negation.
pub open spec fn negation_stratum(body: Seq<VAtom>, ps: Seq<(Seq<char>, nat)>) -> nat
    decreases body.len(),
{
    if body.len() == 0 {
        0
    } else {
        let m = negation_stratum(body.drop_last(), ps);
        let a = body.last();
        if a.negated {
            let s = match stratum_lookup(ps, a.pred) {
                Some(d) => d + 1,
                None => 1,
            };
            if s > m { s } else { m }
        } else {
            m
        }
    }
}

/// Strata with enough of them for index `m`, the new ones empty.
pub open spec fn grow_strata(st: Seq<Seq<VRule>>, m: nat) -> Seq<Seq<VRule>> {
    if st.len() > m {
        st
    } else {
        st + Seq::new((m + 1 - st.len()) as nat, |i: int| Seq::<VRule>::empty())
    }
}

/// Rules placed by negation, in order: each goes to the stratum its negated
/// atoms ask for, and that becomes its head predicate's stratum.
pub open spec fn basic_strata(rules: Seq<VRule>) -> (Seq<Seq<VRule>>, Seq<(Seq<char>, nat)>)
    decreases rules.len(),
{
    if rules.len() == 0 {
        (seq![Seq::<VRule>::empty()], Seq::empty())
    } else {
        let (st, ps) = basic_strata(rules.drop_last());
        let r = rules.last();
        let m = negation_stratum(r.body, ps);
        let grown = grow_strata(st, m);
        (grown.update(m as int, grown[m as int].push(r)), ps.push((r.head.pred, m)))
    }
}

/// The number of variables among terms.
pub open spec fn term_variables(ts: Seq<VTerm>) -> nat
    decreases ts.len(),
{
    if ts.len() == 0 {
        0
    } else {
        term_variables(ts.drop_last()) + if ts.last() is Var { 1nat } else { 0nat }
    }
}

/// The number of variable occurrences in a body.
pub open spec fn body_variables(body: Seq<VAtom>) -> nat
    decreases body.len(),
{
    if body.len() == 0 {
        0
    } else {
        body_variables(body.drop_last()) + term_variables(body.last().terms)
    }
}

/// The estimated cost of a rule: variable occurrences times body atoms.
pub open spec fn rule_cost(r: VRule) -> nat {
    body_variables(r.body) * r.body.len()
}

/// Where a rule goes among rules sorted by cost: after the last one that
/// costs no more.
pub open spec fn cost_position(s: Seq<VRule>, r: VRule) -> nat
    decreases s.len(),
{
    if s.len() == 0 || rule_cost(s.last()) <= rule_cost(r) {
        s.len()
    } else {
        cost_position(s.drop_last(), r)
    }
}

/// Rules sorted by cost, rules of equal cost in their first order.
pub open spec fn sort_by_cost(s: Seq<VRule>) -> Seq<VRule>
    decreases s.len(),
{
    if s.len() == 0 {
        s
    } else {
        let t = sort_by_cost(s.drop_last());
        t.insert(cost_position(t, s.last()) as int, s.last())
    }
}

/// The strata of a program: placed by negation, each sorted by cost.
pub open spec fn optimized_strata(rules: Seq<VRule>) -> Seq<Seq<VRule>> {
    basic_strata(rules).0.map_values(|st: Seq<VRule>| sort_by_cost(st))
}

/// The facts of strata evaluated in order, each adding to the earlier ones.
pub open spec fn strata_facts(strata: Seq<Seq<VRule>>, base: Seq<VFact>, max_iterations: nat) -> Seq<VFact>
    decreases strata.len(),
{
    if strata.len() == 0 {
        Seq::empty()
    } else {
        let prior = strata_facts(strata.drop_last(), base, max_iterations);
        add_all(prior, stratum_facts(strata.last(), prior, base, max_iterations))
    }
}

/// A counter that stops at the largest `usize`.
pub open spec fn capped(x: int) -> usize {
    if x <= usize::MAX {
        x as usize
    } else {
        usize::MAX
    }
}

/// What a stratum's rounds count: the rounds begun (one that finds the
/// delta empty counts too), the facts they add, the rule applications, the
/// index lookups and the candidate facts tried.
pub open spec fn rounds_counts(rules: Seq<VRule>, acc: Seq<VFact>, delta: Seq<VFact>, left: nat) -> (nat, nat, nat, nat, nat)
    decreases left,
{
    if left == 0 {
        (0, 0, 0, 0, 0)
    } else if delta.len() == 0 {
        (1, 0, 0, 0, 0)
    } else {
        let fresh = fresh_facts(positive_round(rules, acc, delta), acc);
        let c = rounds_counts(rules, acc + fresh, fresh, (left - 1) as nat);
        let r = round_counts(rules, acc, delta);
        (c.0 + 1, c.1 + fresh.len(), c.2 + rules.len(), c.3 + r.0, c.4 + r.1)
    }
}

/// What one stratum counts: its rounds, the heads of its ground fact rules
/// and the facts its rounds add, its rule applications, its index lookups
/// and its candidate facts.
pub open spec fn stratum_counts(rules: Seq<VRule>, prior: Seq<VFact>, base: Seq<VFact>, max_iterations: nat) -> (
    nat,
    nat,
    nat,
    nat,
    nat,
) {
    let acc0 = add_all(add_all(prior, base), fact_rule_heads(rules));
    let derivation = body_rules(rules);
    let heads = fact_rule_heads(rules).len();
    if derivation.len() == 0 {
        (0, heads, 0, 0, 0)
    } else {
        let c = rounds_counts(derivation, acc0, without(acc0, prior), max_iterations);
        (c.0, heads + c.1, c.2, c.3, c.4)
    }
}

/// What the strata count together, each after the facts of those before.
pub open spec fn strata_counts(strata: Seq<Seq<VRule>>, base: Seq<VFact>, max_iterations: nat) -> (nat, nat, nat, nat, nat)
    decreases strata.len(),
{
    if strata.len() == 0 {
        (0, 0, 0, 0, 0)
    } else {
        let prior = strata_facts(strata.drop_last(), base, max_iterations);
        let c = strata_counts(strata.drop_last(), base, max_iterations);
        let d = stratum_counts(strata.last(), prior, base, max_iterations);
        (c.0 + d.0, c.1 + d.1, c.2 + d.2, c.3 + d.3, c.4 + d.4)
    }
}

/// Counting on from a capped counter is counting the sum.
proof fn lemma_capped_add(c: int, n: int)
    requires
        c >= 0,
        n >= 0,
    ensures
        capped(capped(c) + n) == capped(c + n),
{
}

/// The facts of an optimized evaluation of rules over a store.
pub open spec fn optimized_evaluation(rules: Seq<VRule>, store: Seq<VFact>, max_iterations: nat) -> Seq<VFact> {
    strata_facts(optimized_strata(rules), store, max_iterations)
}

/// The facts of `s` that are not in `t`.
fn without_exec(s: &Vec<Fact>, t: &Vec<Fact>) -> (r: Vec<Fact>)
    ensures
        facts_view(r@) == without(facts_view(s@), facts_view(t@)),
{
    let ghost sv = facts_view(s@);
    let ghost tv = facts_view(t@);
    let ghost p = |f: VFact| !tv.contains(f);
    let mut out: Vec<Fact> = Vec::new();
    let mut i: usize = 0;
    assert(sv.take(0) =~= Seq::<VFact>::empty());
    while i < s.len()
        invariant
            i <= s@.len(),
            sv == facts_view(s@),
            tv == facts_view(t@),
            p == (|f: VFact| !tv.contains(f)),
            facts_view(out@) == sv.take(i as int).filter(p),
        decreases s.len() - i,
    {
        assert(sv.take(i + 1) =~= sv.take(i as int).push(sv[i as int]));
        proof {
            sv.take(i as int).lemma_filter_push(sv[i as int], p);
        }
        if !fact_in(t, &s[i]) {
            let ghost ob = facts_view(out@);
            out.push(s[i].clone());
            assert(facts_view(out@) =~= ob.push(sv[i as int]));
        }
        i = i + 1;
    }
    assert(sv.take(i as int) =~= sv);
    out
}

/// An index of the facts, in order.
fn index_all(facts: &Vec<Fact>) -> (r: FactIndex)
    ensures
        r@ == facts_view(facts@),
{
    let mut index = FactIndex::new();
    let mut i: usize = 0;
    while i < facts.len()
        invariant
            i <= facts@.len(),
            index@ == facts_view(facts@).take(i as int),
        decreases facts.len() - i,
    {
        index.index_fact(&facts[i]);
        assert(facts_view(facts@).take(i + 1) =~= facts_view(facts@).take(i as int).push(facts@[i as int]@));
        i = i + 1;
    }
    assert(facts_view(facts@).take(i as int) =~= facts_view(facts@));
    index
}

/// One round of the rules with a body.
fn apply_rules_sequential(
    rules: &Vec<Rule>,
    fact_index: &FactIndex,
    delta_index: &FactIndex,
    stats: &mut EvaluationStats,
) -> (r: Vec<Fact>)
    ensures
        facts_view(r@) == positive_round(models(rules@), fact_index@, delta_index@),
        final(stats).total_facts_derived == old(stats).total_facts_derived,
        final(stats).total_iterations == old(stats).total_iterations,
        final(stats).rule_applications == capped(old(stats).rule_applications + rules@.len()),
        final(stats).index_lookups == capped(old(stats).index_lookups + round_counts(models(rules@), fact_index@, delta_index@).0),
        final(stats).unification_attempts == capped(old(stats).unification_attempts + round_counts(models(rules@), fact_index@, delta_index@).1),
{
    let ghost s0 = *stats;
    let ghost rv = models(rules@);
    let mut out: Vec<Fact> = Vec::new();
    let mut i: usize = 0;
    assert(rv.take(0) =~= Seq::<VRule>::empty());
    assert(facts_view(out@) =~= positive_round(rv.take(0), fact_index@, delta_index@));
    while i < rules.len()
        invariant
            i <= rules@.len(),
            rv == models(rules@),
            facts_view(out@) == positive_round(rv.take(i as int), fact_index@, delta_index@),
            stats.total_facts_derived == s0.total_facts_derived,
            stats.total_iterations == s0.total_iterations,
            stats.rule_applications == capped(s0.rule_applications + i),
            stats.index_lookups == capped(s0.index_lookups + round_counts(rv.take(i as int), fact_index@, delta_index@).0),
            stats.unification_attempts == capped(s0.unification_attempts + round_counts(rv.take(i as int), fact_index@, delta_index@).1),
        decreases rules.len() - i,
    {
        assert(rv.take(i + 1).drop_last() =~= rv.take(i as int));
        assert(rv.take(i + 1).last() == rules@[i as int]@);
        stats.rule_applications = count_up(stats.rule_applications, 1);
        let ghost rc0 = round_counts(rv.take(i as int), fact_index@, delta_index@);
        let mut derived = apply_single_rule(&rules[i], fact_index, delta_index, stats);
        proof {
            let d = rule_counts(rules@[i as int]@, fact_index@, delta_index@);
            lemma_capped_add(s0.index_lookups + rc0.0, d.0 as int);
            lemma_capped_add(s0.unification_attempts + rc0.1, d.1 as int);
            lemma_capped_add(s0.rule_applications + i, 1);
        }
        let ghost ob = facts_view(out@);
        let ghost db = facts_view(derived@);
        out.append(&mut derived);
        assert(facts_view(out@) =~= ob + db);
        i = i + 1;
    }
    assert(rv.take(i as int) =~= rv);
    out
}

/// Statistics of an evaluation.
#[derive(Debug, Clone, Copy, PartialEq, Eq, Structural)]
pub struct EvaluationStats {
    /// Facts added
    pub total_facts_derived: usize,
    /// Rounds run
    pub total_iterations: usize,
    /// Rule applications
    pub rule_applications: usize,
    /// Index lookups
    pub index_lookups: usize,
    /// Unification attempts
    pub unification_attempts: usize,
    /// Evaluation time in nanoseconds
    pub evaluation_time_ns: u64,
}

impl Default for EvaluationStats {
    fn default() -> (r: Self)
        ensures
            r == (EvaluationStats {
                total_facts_derived: 0,
                total_iterations: 0,
                rule_applications: 0,
                index_lookups: 0,
                unification_attempts: 0,
                evaluation_time_ns: 0,
            }),
    {
        EvaluationStats {
            total_facts_derived: 0,
            total_iterations: 0,
            rule_applications: 0,
            index_lookups: 0,
            unification_attempts: 0,
            evaluation_time_ns: 0,
        }
    }
}

/// Model of an optimized evaluator.
pub struct VOptimizedEvaluator {
    /// Its rules
    pub rules: Seq<VRule>,
    /// The facts of its store
    pub store: Seq<VFact>,
    /// Whether rules are applied in parallel
    pub parallel: bool,
    /// The most rounds per stratum
    pub max_iterations: nat,
}

/// Optimized semi-naive evaluator.
pub struct OptimizedEvaluator {
    rules: Vec<Rule>,
    fact_store: Arc<FactStore>,
    enable_parallel: bool,
    max_iterations: usize,
}

impl View for OptimizedEvaluator {
    type V = VOptimizedEvaluator;

    closed spec fn view(&self) -> VOptimizedEvaluator {
        VOptimizedEvaluator {
            rules: models(self.rules@),
            store: (*self.fact_store)@.facts,
            parallel: self.enable_parallel,
            max_iterations: self.max_iterations as nat,
        }
    }
}

impl OptimizedEvaluator {
    /// An evaluator of rules over a store: parallel, at most 1000 rounds per
    /// stratum.
    pub fn new(rules: Vec<Rule>, fact_store: Arc<FactStore>) -> (r: Self)
        ensures
            r@ == (VOptimizedEvaluator {
                rules: models(rules@),
                store: (*fact_store)@.facts,
                parallel: true,
                max_iterations: 1000,
            }),
    {
        OptimizedEvaluator { rules, fact_store, enable_parallel: true, max_iterations: 1000 }
    }

    /// Whether rules are applied in parallel; the facts derived are the same
    /// either way.
    pub fn set_parallel(&mut self, enable: bool)
        ensures
            final(self)@ == (VOptimizedEvaluator { parallel: enable, ..old(self)@ }),
    {
        self.enable_parallel = enable;
    }

    /// The facts one stratum adds.
    fn evaluate_stratum(
        &self,
        rules: &Vec<Rule>,
        prior: &Vec<Fact>,
        base: &Vec<Fact>,
        stats: &mut EvaluationStats,
    ) -> (r: Vec<Fact>)
        ensures
            facts_view(r@) == stratum_facts(models(rules@), facts_view(prior@), facts_view(base@), self@.max_iterations),
            final(stats).total_iterations == capped(old(stats).total_iterations + stratum_counts(models(rules@), facts_view(prior@), facts_view(base@), self@.max_iterations).0),
            final(stats).total_facts_derived == capped(old(stats).total_facts_derived + stratum_counts(models(rules@), facts_view(prior@), facts_view(base@), self@.max_iterations).1),
            final(stats).rule_applications == capped(old(stats).rule_applications + stratum_counts(models(rules@), facts_view(prior@), facts_view(base@), self@.max_iterations).2),
            final(stats).index_lookups == capped(old(stats).index_lookups + stratum_counts(models(rules@), facts_view(prior@), facts_view(base@), self@.max_iterations).3),
            final(stats).unification_attempts == capped(old(stats).unification_attempts + stratum_counts(models(rules@), facts_view(prior@), facts_view(base@), self@.max_iterations).4),
    {
        let ghost s0 = *stats;
        let ghost rv = models(rules@);
        let ghost pv = facts_view(prior@);
        let ghost bv = facts_view(base@);
        let mut acc = facts_clone(prior);
        add_all_exec(&mut acc, base);
        let mut initial = facts_clone(prior);
        add_all_exec(&mut initial, base);
        let mut derivation: Vec<Rule> = Vec::new();
        let mut i: usize = 0;
        assert(rv.take(0) =~= Seq::<VRule>::empty());
        while i < rules.len()
            invariant
                i <= rules@.len(),
                rv == models(rules@),
                facts_view(initial@) == add_all(pv, bv),
                facts_view(acc@) == add_all(add_all(pv, bv), fact_rule_heads(rv.take(i as int))),
                models(derivation@) == body_rules(rv.take(i as int)),
                stats.total_facts_derived == capped(s0.total_facts_derived + fact_rule_heads(rv.take(i as int)).len()),
                stats.total_iterations == s0.total_iterations,
                stats.rule_applications == s0.rule_applications,
                stats.index_lookups == s0.index_lookups,
                stats.unification_attempts == s0.unification_attempts,
            decreases rules.len() - i,
        {
            assert(rv.take(i + 1).drop_last() =~= rv.take(i as int));
            assert(rv.take(i + 1).last() == rules@[i as int]@);
            let rule = &rules[i];
            if rule.is_fact() {
                match atom_to_fact(&rule.head) {
                    Some(f) => {
                        stats.total_facts_derived = count_up(stats.total_facts_derived, 1);
                        proof {
                            lemma_capped_add(s0.total_facts_derived + fact_rule_heads(rv.take(i as int)).len(), 1);
                        }
                        let ghost a0 = facts_view(acc@);
                        if !fact_in(&acc, &f) {
                            acc.push(f);
                            assert(facts_view(acc@) =~= a0.push(acc@.last()@));
                        }
                        proof {
                            let fr = fact_rule_heads(rv.take(i as int));
                            lemma_add_all_push(add_all(pv, bv), fr, atom_fact(rule@.head)->Some_0);
                        }
                    },
                    None => {},
                }
            } else {
                let ghost d0 = models(derivation@);
                derivation.push(rule_clone(rule));
                assert(models(derivation@) =~= d0.push(rule@));
            }
            i = i + 1;
        }
        assert(rv.take(i as int) =~= rv);
        if derivation.len() == 0 {
            return without_exec(&acc, prior);
        }
        let mut fact_index = index_all(&acc);
        let mut delta = without_exec(&acc, prior);
        let mut it: usize = 0;
        let ghost derv = models(derivation@);
        assert(facts_view(acc@) == add_all(add_all(pv, bv), fact_rule_heads(rv)));
        assert(facts_view(delta@) == without(add_all(add_all(pv, bv), fact_rule_heads(rv)), pv));
        let ghost s1 = *stats;
        let ghost a_init = facts_view(acc@);
        let ghost d_init = facts_view(delta@);
        let ghost total = rounds_counts(derv, a_init, d_init, self@.max_iterations);
        let ghost mut g_it: int = 0;
        let ghost mut g_fd: int = 0;
        let ghost mut g_ra: int = 0;
        let ghost mut g_il: int = 0;
        let ghost mut g_ua: int = 0;
        while it < self.max_iterations
            invariant_except_break
                rounds_counts(derv, facts_view(acc@), facts_view(delta@), (self.max_iterations - it) as nat).0 + g_it == total.0,
            invariant
                it <= self.max_iterations,
                derv == models(derivation@),
                derv == body_rules(rv),
                facts_view(initial@) == add_all(pv, bv),
                fact_index@ == facts_view(acc@),
                positive_fixpoint(derv, facts_view(acc@), facts_view(delta@), (self.max_iterations - it) as nat)
                    == positive_fixpoint(body_rules(rv), add_all(add_all(pv, bv), fact_rule_heads(rv)), without(
                    add_all(add_all(pv, bv), fact_rule_heads(rv)),
                    pv,
                ), self@.max_iterations),
                total == rounds_counts(derv, a_init, d_init, self@.max_iterations),
                rounds_counts(derv, facts_view(acc@), facts_view(delta@), (self.max_iterations - it) as nat).1 + g_fd == total.1,
                rounds_counts(derv, facts_view(acc@), facts_view(delta@), (self.max_iterations - it) as nat).2 + g_ra == total.2,
                rounds_counts(derv, facts_view(acc@), facts_view(delta@), (self.max_iterations - it) as nat).3 + g_il == total.3,
                rounds_counts(derv, facts_view(acc@), facts_view(delta@), (self.max_iterations - it) as nat).4 + g_ua == total.4,
                g_il >= 0,
                g_ua >= 0,
                stats.index_lookups == capped(s1.index_lookups + g_il),
                stats.unification_attempts == capped(s1.unification_attempts + g_ua),
                g_it >= 0,
                g_fd >= 0,
                g_ra >= 0,
                stats.total_iterations == capped(s1.total_iterations + g_it),
                stats.total_facts_derived == capped(s1.total_facts_derived + g_fd),
                stats.rule_applications == capped(s1.rule_applications + g_ra),
            ensures
                facts_view(initial@) == add_all(pv, bv),
                positive_fixpoint(derv, facts_view(acc@), facts_view(delta@), (self.max_iterations - it) as nat)
                    == positive_fixpoint(body_rules(rv), add_all(add_all(pv, bv), fact_rule_heads(rv)), without(
                    add_all(add_all(pv, bv), fact_rule_heads(rv)),
                    pv,
                ), self@.max_iterations),
                it == self.max_iterations || delta@.len() == 0,
                stats.total_iterations == capped(s1.total_iterations + total.0),
                stats.total_facts_derived == capped(s1.total_facts_derived + total.1),
                stats.rule_applications == capped(s1.rule_applications + total.2),
                stats.index_lookups == capped(s1.index_lookups + total.3),
                stats.unification_attempts == capped(s1.unification_attempts + total.4),
            decreases self.max_iterations - it,
        {
            stats.total_iterations = count_up(stats.total_iterations, 1);
            proof {
                lemma_capped_add(s1.total_iterations + g_it, 1);
                g_it = g_it + 1;
            }
            if delta.len() == 0 {
                break;
            }
            let delta_index = index_all(&delta);
            let ghost rnd = round_counts(derv, facts_view(acc@), facts_view(delta@));
            let new_facts = apply_rules_sequential(&derivation, &fact_index, &delta_index, stats);
            proof {
                lemma_capped_add(s1.rule_applications + g_ra, derivation@.len() as int);
                g_ra = g_ra + derivation@.len();
                lemma_capped_add(s1.index_lookups + g_il, rnd.0 as int);
                g_il = g_il + rnd.0;
                lemma_capped_add(s1.unification_attempts + g_ua, rnd.1 as int);
                g_ua = g_ua + rnd.1;
            }
            let fresh = fresh_exec(&new_facts, &acc);
            let ghost a0 = facts_view(acc@);
            let mut k: usize = 0;
            while k < fresh.len()
                invariant
                    k <= fresh@.len(),
                    facts_view(acc@) == a0 + facts_view(fresh@).take(k as int),
                    fact_index@ == facts_view(acc@),
                    g_fd >= 0,
                    stats.total_facts_derived == capped(s1.total_facts_derived + g_fd + k),
                    stats.total_iterations == capped(s1.total_iterations + g_it),
                    stats.rule_applications == capped(s1.rule_applications + g_ra),
                    stats.index_lookups == capped(s1.index_lookups + g_il),
                    stats.unification_attempts == capped(s1.unification_attempts + g_ua),
                decreases fresh.len() - k,
            {
                fact_index.index_fact(&fresh[k]);
                acc.push(fresh[k].clone());
                stats.total_facts_derived = count_up(stats.total_facts_derived, 1);
                proof {
                    lemma_capped_add(s1.total_facts_derived + g_fd + k, 1);
                }
                assert(facts_view(fresh@).take(k + 1) =~= facts_view(fresh@).take(k as int).push(fresh@[k as int]@));
                assert(facts_view(acc@) =~= a0 + facts_view(fresh@).take(k + 1));
                k = k + 1;
            }
            assert(facts_view(fresh@).take(k as int) =~= facts_view(fresh@));
            proof {
                g_fd = g_fd + fresh@.len();
            }
            delta = fresh;
            it = it + 1;
        }
        proof {
            lemma_capped_add(s0.total_facts_derived + fact_rule_heads(rv).len(), total.1 as int);
        }
        assert(positive_fixpoint(derv, facts_view(acc@), facts_view(delta@), (self.max_iterations - it) as nat) == facts_view(acc@));
        without_exec(&acc, &initial)
    }
}

/// Adding one more fact rule head adds it to the accumulated facts.
proof fn lemma_add_all_push(s: Seq<VFact>, fs: Seq<VFact>, f: VFact)
    ensures
        add_all(s, fs.push(f)) == add_new(add_all(s, fs), f),
{
    assert(fs.push(f).drop_last() =~= fs);
}

/// The models of strata of rules.
pub open spec fn strata_view(s: Seq<Vec<Rule>>) -> Seq<Seq<VRule>> {
    s.map_values(|st: Vec<Rule>| models(st@))
}

/// A stratum lookup gives a value some assignment has.
proof fn lemma_lookup_value(ps: Seq<(Seq<char>, nat)>, p: Seq<char>)
    ensures
        stratum_lookup(ps, p) matches Some(d) ==> exists|j: int| 0 <= j < ps.len() && #[trigger] ps[j].1 == d,
    decreases ps.len(),
{
    if ps.len() > 0 && ps.last().0 != p {
        lemma_lookup_value(ps.drop_last(), p);
        if let Some(d) = stratum_lookup(ps.drop_last(), p) {
            let j = choose|j: int| 0 <= j < ps.drop_last().len() && #[trigger] ps.drop_last()[j].1 == d;
            assert(ps[j].1 == d);
        }
    }
    if ps.len() > 0 && ps.last().0 == p {
        assert(ps[ps.len() - 1].1 == ps.last().1);
    }
}

/// With every assigned stratum at most its position, the stratum a body
/// asks for is at most the number of assignments.
proof fn lemma_negation_stratum_bound(body: Seq<VAtom>, ps: Seq<(Seq<char>, nat)>)
    requires
        forall|j: int| 0 <= j < ps.len() ==> #[trigger] ps[j].1 <= j + 1,
    ensures
        negation_stratum(body, ps) <= ps.len() + 1,
    decreases body.len(),
{
    if body.len() > 0 {
        lemma_negation_stratum_bound(body.drop_last(), ps);
        lemma_lookup_value(ps, body.last().pred);
        if let Some(d) = stratum_lookup(ps, body.last().pred) {
            let j = choose|j: int| 0 <= j < ps.len() && #[trigger] ps[j].1 == d;
            assert(ps[j].1 <= j + 1);
        }
    }
}

/// The stratum a body's negated atoms ask for.
fn negation_stratum_exec(body: &Vec<Atom>, ps: &Vec<(String, usize)>) -> (r: usize)
    requires
        ps@.len() < usize::MAX,
        forall|j: int| 0 <= j < ps@.len() ==> #[trigger] stratum_pairs(ps@)[j].1 <= j + 1,
    ensures
        r == negation_stratum(body@.map_values(|a: Atom| a@), stratum_pairs(ps@)),
        r <= ps@.len() + 1,
{
    let ghost bv = body@.map_values(|a: Atom| a@);
    let ghost pv = stratum_pairs(ps@);
    let mut m: usize = 0;
    let mut i: usize = 0;
    assert(bv.take(0) =~= Seq::<VAtom>::empty());
    while i < body.len()
        invariant
            i <= body@.len(),
            bv == body@.map_values(|a: Atom| a@),
            pv == stratum_pairs(ps@),
            ps@.len() < usize::MAX,
            forall|j: int| 0 <= j < ps@.len() ==> #[trigger] pv[j].1 <= j + 1,
            m == negation_stratum(bv.take(i as int), pv),
            m <= ps@.len() + 1,
        decreases body.len() - i,
    {
        assert(bv.take(i + 1).drop_last() =~= bv.take(i as int));
        assert(bv.take(i + 1).last() == body@[i as int]@);
        proof {
            lemma_negation_stratum_bound(bv.take(i + 1), pv);
            lemma_lookup_value(pv, body@[i as int]@.pred);
        }
        proof {
            if let Some(d) = stratum_lookup(pv, body@[i as int]@.pred) {
                let j = choose|j: int| 0 <= j < pv.len() && #[trigger] pv[j].1 == d;
                assert(pv[j].1 <= j + 1);
            }
        }
        if body[i].negated {
            let s = match find_stratum(ps, &body[i].predicate) {
                Some(d) => d + 1,
                None => 1,
            };
            if s > m {
                m = s;
            }
        }
        i = i + 1;
    }
    assert(bv.take(i as int) =~= bv);
    m
}

/// Rules placed in strata by their negated atoms.
fn basic_stratification(rules: &Vec<Rule>) -> (r: Vec<Vec<Rule>>)
    requires
        rules@.len() < usize::MAX,
    ensures
        strata_view(r@) == basic_strata(models(rules@)).0,
{
    let ghost rv = models(rules@);
    let mut strata: Vec<Vec<Rule>> = Vec::new();
    let first: Vec<Rule> = Vec::new();
    assert(models(first@) =~= Seq::<VRule>::empty());
    strata.push(first);
    let mut ps: Vec<(String, usize)> = Vec::new();
    let mut i: usize = 0;
    assert(rv.take(0) =~= Seq::<VRule>::empty());
    assert(strata_view(strata@) =~= seq![Seq::<VRule>::empty()]);
    assert(stratum_pairs(ps@) =~= Seq::<(Seq<char>, nat)>::empty());
    while i < rules.len()
        invariant
            i <= rules@.len(),
            rules@.len() < usize::MAX,
            rv == models(rules@),
            ps@.len() == i,
            forall|j: int| 0 <= j < ps@.len() ==> #[trigger] stratum_pairs(ps@)[j].1 <= j + 1,
            (strata_view(strata@), stratum_pairs(ps@)) == basic_strata(rv.take(i as int)),
        decreases rules.len() - i,
    {
        assert(rv.take(i + 1).drop_last() =~= rv.take(i as int));
        assert(rv.take(i + 1).last() == rules@[i as int]@);
        let rule = &rules[i];
        assert(rule.body@.map_values(|a: Atom| a@) == rule@.body);
        let m = negation_stratum_exec(&rule.body, &ps);
        let ghost st0 = strata_view(strata@);
        while strata.len() <= m
            invariant
                m <= i + 1,
                i < usize::MAX,
                strata_view(strata@).len() >= st0.len(),
                strata_view(strata@).len() <= if st0.len() > m { st0.len() as int } else { m + 1 },
                forall|k: int| 0 <= k < st0.len() ==> #[trigger] strata_view(strata@)[k] == st0[k],
                forall|k: int| st0.len() <= k < strata@.len() ==> #[trigger] strata_view(strata@)[k] == Seq::<VRule>::empty(),
            decreases m + 1 - strata.len(),
        {
            let ghost sb = strata@;
            let fresh_stratum: Vec<Rule> = Vec::new();
            assert(models(fresh_stratum@) =~= Seq::<VRule>::empty());
            strata.push(fresh_stratum);
            assert(strata_view(strata@) =~= strata_view(sb).push(Seq::<VRule>::empty()));
        }
        assert(strata_view(strata@) =~= grow_strata(st0, m as nat));
        let ghost sg = strata@;
        let mut bucket = strata.remove(m);
        let ghost b0 = bucket@;
        bucket.push(rule_clone(rule));
        let ghost bv = bucket;
        assert(models(bv@) =~= models(b0).push(rule@));
        strata.insert(m, bucket);
        assert(strata@ =~= sg.update(m as int, bv));
        let ghost ps0 = ps@;
        ps.push((rule.head.predicate.clone(), m));
        proof {
            let g = grow_strata(st0, m as nat);
            assert(strata_view(strata@) =~= g.update(m as int, g[m as int].push(rule@)));
            assert(stratum_pairs(ps@) =~= stratum_pairs(ps0).push((rule@.head.pred, m as nat)));
        }
        i = i + 1;
    }
    assert(rv.take(i as int) =~= rv);
    strata
}

/// Counting variables over a prefix gives no more than over all terms.
proof fn lemma_term_variables_prefix(ts: Seq<VTerm>, j: int)
    requires
        0 <= j <= ts.len(),
    ensures
        term_variables(ts.take(j)) <= term_variables(ts),
    decreases ts.len() - j,
{
    if j < ts.len() {
        lemma_term_variables_prefix(ts, j + 1);
        assert(ts.take(j + 1).drop_last() =~= ts.take(j));
    } else {
        assert(ts.take(j) =~= ts);
    }
}

/// Counting variables over a prefix of a body gives no more than over all of it.
proof fn lemma_body_variables_prefix(b: Seq<VAtom>, i: int)
    requires
        0 <= i <= b.len(),
    ensures
        body_variables(b.take(i)) <= body_variables(b),
    decreases b.len() - i,
{
    if i < b.len() {
        lemma_body_variables_prefix(b, i + 1);
        assert(b.take(i + 1).drop_last() =~= b.take(i));
    } else {
        assert(b.take(i) =~= b);
    }
}

/// The estimated cost of a rule.
fn rule_cost_exec(rule: &Rule) -> (r: usize)
    requires
        rule_cost(rule@) <= usize::MAX,
    ensures
        r == rule_cost(rule@),
{
    let ghost bv = rule@.body;
    let n = rule.body.len();
    if n == 0 {
        return 0;
    }
    proof {
        assert(body_variables(bv) <= rule_cost(rule@)) by (nonlinear_arith)
            requires
                rule_cost(rule@) == body_variables(bv) * bv.len(),
                bv.len() >= 1,
        ;
    }
    let mut count: usize = 0;
    let mut i: usize = 0;
    assert(bv.take(0) =~= Seq::<VAtom>::empty());
    while i < n
        invariant
            n == rule.body@.len(),
            n >= 1,
            bv == rule@.body,
            i <= n,
            body_variables(bv) <= usize::MAX,
            count == body_variables(bv.take(i as int)),
        decreases n - i,
    {
        let atom = &rule.body[i];
        assert(bv[i as int] == atom@);
        let ghost tv = atom@.terms;
        proof {
            lemma_body_variables_prefix(bv, i + 1);
            assert(bv.take(i + 1).drop_last() =~= bv.take(i as int));
        }
        let mut j: usize = 0;
        let mut c: usize = count;
        assert(tv.take(0) =~= Seq::<VTerm>::empty());
        while j < atom.terms.len()
            invariant
                j <= atom.terms@.len(),
                tv == atom@.terms,
                c == count + term_variables(tv.take(j as int)),
                count + term_variables(tv) <= usize::MAX,
            decreases atom.terms.len() - j,
        {
            proof {
                lemma_term_variables_prefix(tv, j + 1);
                assert(tv.take(j + 1).drop_last() =~= tv.take(j as int));
                assert(tv[j as int] == atom.terms@[j as int]@);
            }
            match &atom.terms[j] {
                Term::Variable(_) => {
                    c = c + 1;
                },
                _ => {},
            }
            j = j + 1;
        }
        assert(tv.take(j as int) =~= tv);
        count = c;
        i = i + 1;
    }
    assert(bv.take(i as int) =~= bv);
    proof {
        assert(count * n <= usize::MAX);
    }
    count * n
}

/// Rules sorted by cost, rules of equal cost kept in their order.
fn optimize_rule_order(rules: &Vec<Rule>) -> (r: Vec<Rule>)
    requires
        forall|k: int| 0 <= k < rules@.len() ==> rule_cost(#[trigger] rules@[k]@) <= usize::MAX,
    ensures
        models(r@) == sort_by_cost(models(rules@)),
{
    let ghost rv = models(rules@);
    let mut out: Vec<Rule> = Vec::new();
    let mut i: usize = 0;
    assert(rv.take(0) =~= Seq::<VRule>::empty());
    assert(models(out@) =~= sort_by_cost(rv.take(0)));
    while i < rules.len()
        invariant
            i <= rules@.len(),
            rv == models(rules@),
            forall|k: int| 0 <= k < rules@.len() ==> rule_cost(#[trigger] rules@[k]@) <= usize::MAX,
            forall|k: int| 0 <= k < out@.len() ==> rule_cost(#[trigger] out@[k]@) <= usize::MAX,
            models(out@) == sort_by_cost(rv.take(i as int)),
        decreases rules.len() - i,
    {
        assert(rv.take(i + 1).drop_last() =~= rv.take(i as int));
        assert(rv.take(i + 1).last() == rules@[i as int]@);
        let ghost t = models(out@);
        let c = rule_cost_exec(&rules[i]);
        let mut p: usize = out.len();
        assert(t.take(p as int) =~= t);
        while p > 0
            invariant
                p <= out@.len(),
                t == models(out@),
                c == rule_cost(rules@[i as int]@),
                forall|k: int| 0 <= k < out@.len() ==> rule_cost(#[trigger] out@[k]@) <= usize::MAX,
                cost_position(t, rules@[i as int]@) == cost_position(t.take(p as int), rules@[i as int]@),
            ensures
                p <= out@.len(),
                t == models(out@),
                cost_position(t, rules@[i as int]@) == cost_position(t.take(p as int), rules@[i as int]@),
                p == 0 || rule_cost(t[p - 1]) <= c,
            decreases p,
        {
            let cp = rule_cost_exec(&out[p - 1]);
            assert(t.take(p as int).last() == out@[p - 1]@);
            if cp <= c {
                break;
            }
            assert(t.take(p as int).drop_last() =~= t.take(p - 1));
            p = p - 1;
        }
        proof {
            if p == 0 {
                assert(t.take(0).len() == 0);
            } else {
                assert(t.take(p as int).last() == t[p - 1]);
            }
            assert(cost_position(t, rules@[i as int]@) == p);
        }
        let ghost rv_i = rules@[i as int]@;
        let ghost out0 = out@;
        out.insert(p, rule_clone(&rules[i]));
        proof {
            assert(models(out@) =~= t.insert(p as int, rv_i));
            assert forall|k: int| 0 <= k < out@.len() implies rule_cost(#[trigger] out@[k]@) <= usize::MAX by {
                if k < p {
                    assert(out@[k] == out0[k]);
                } else if k == p {
                    assert(out@[k]@ == rv_i);
                } else {
                    assert(out@[k] == out0[k - 1]);
                }
            }
        }
        i = i + 1;
    }
    assert(rv.take(i as int) =~= rv);
    out
}

/// A counter moved on by `n`, staying at the maximum.
fn count_up(x: usize, n: usize) -> (r: usize)
    ensures
        r == if x + n <= usize::MAX { (x + n) as usize } else { usize::MAX },
{
    if x <= usize::MAX - n {
        x + n
    } else {
        usize::MAX
    }
}

/// Every rule of a stratum is one of the program's rules.
proof fn lemma_basic_strata_members(rules: Seq<VRule>)
    ensures
        ({
            let st = basic_strata(rules).0;
            &&& st.len() >= 1
            &&& forall|s: int, k: int| 0 <= s < st.len() && 0 <= k < st[s].len() ==> rules.contains(#[trigger] st[s][k])
        }),
    decreases rules.len(),
{
    if rules.len() > 0 {
        let t = rules.drop_last();
        lemma_basic_strata_members(t);
        let (st, ps) = basic_strata(t);
        let r = rules.last();
        let m = negation_stratum(r.body, ps);
        let g = grow_strata(st, m);
        let st1 = g.update(m as int, g[m as int].push(r));
        assert forall|s: int, k: int| 0 <= s < st1.len() && 0 <= k < st1[s].len() implies rules.contains(#[trigger] st1[s][k]) by {
            if s == m && k == g[m as int].len() {
                assert(rules[rules.len() - 1] == r);
            } else {
                let x = st1[s][k];
                assert(x == g[s][k]);
                if s < st.len() {
                    assert(g[s] == st[s]);
                    assert(t.contains(x));
                    let j = choose|j: int| 0 <= j < t.len() && t[j] == x;
                    assert(rules[j] == x);
                } else {
                    assert(g[s] == Seq::<VRule>::empty());
                }
            }
        }
    }
}

impl OptimizedEvaluator {
    /// Evaluate: strata placed by negation, each sorted by cost, evaluated in
    /// order; the facts of each are added to those before. The statistics
    /// count the facts added, the rounds, the rule applications, the index
    /// lookups and the candidate facts tried, each stopping at the largest
    /// `usize` (`strata_counts`); the time comes from the clock and is not
    /// stated.
    pub fn evaluate(&self) -> (r: (Vec<Fact>, EvaluationStats))
        requires
            self@.rules.len() < usize::MAX,
            forall|k: int| 0 <= k < self@.rules.len() ==> rule_cost(#[trigger] self@.rules[k]) <= usize::MAX,
        ensures
            facts_view(r.0@) == optimized_evaluation(self@.rules, self@.store, self@.max_iterations),
            r.1.total_iterations == capped(strata_counts(optimized_strata(self@.rules), self@.store, self@.max_iterations).0 as int),
            r.1.total_facts_derived == capped(strata_counts(optimized_strata(self@.rules), self@.store, self@.max_iterations).1 as int),
            r.1.rule_applications == capped(strata_counts(optimized_strata(self@.rules), self@.store, self@.max_iterations).2 as int),
            r.1.index_lookups == capped(strata_counts(optimized_strata(self@.rules), self@.store, self@.max_iterations).3 as int),
            r.1.unification_attempts == capped(strata_counts(optimized_strata(self@.rules), self@.store, self@.max_iterations).4 as int),
    {
        let start = clock_nanos();
        let mut stats = EvaluationStats::default();
        let ghost rv = models(self.rules@);
        let strata = basic_stratification(&self.rules);
        let base = self.fact_store.all_facts();
        let ghost os = optimized_strata(rv);
        proof {
            lemma_basic_strata_members(rv);
        }
        let mut all: Vec<Fact> = Vec::new();
        let mut s: usize = 0;
        assert(os.take(0) =~= Seq::<Seq<VRule>>::empty());
        assert(facts_view(all@) =~= strata_facts(os.take(0), facts_view(base@), self@.max_iterations));
        while s < strata.len()
            invariant
                s <= strata@.len(),
                rv == models(self.rules@),
                rv == self@.rules,
                forall|k: int| 0 <= k < rv.len() ==> rule_cost(#[trigger] rv[k]) <= usize::MAX,
                strata_view(strata@) == basic_strata(rv).0,
                os == optimized_strata(rv),
                os.len() == strata@.len(),
                forall|x: int, k: int| 0 <= x < basic_strata(rv).0.len() && 0 <= k < basic_strata(rv).0[x].len()
                    ==> rv.contains(#[trigger] basic_strata(rv).0[x][k]),
                facts_view(base@) == self@.store,
                facts_view(all@) == strata_facts(os.take(s as int), facts_view(base@), self@.max_iterations),
                stats.total_iterations == capped(strata_counts(os.take(s as int), facts_view(base@), self@.max_iterations).0 as int),
                stats.total_facts_derived == capped(strata_counts(os.take(s as int), facts_view(base@), self@.max_iterations).1 as int),
                stats.rule_applications == capped(strata_counts(os.take(s as int), facts_view(base@), self@.max_iterations).2 as int),
                stats.index_lookups == capped(strata_counts(os.take(s as int), facts_view(base@), self@.max_iterations).3 as int),
                stats.unification_attempts == capped(strata_counts(os.take(s as int), facts_view(base@), self@.max_iterations).4 as int),
            decreases strata.len() - s,
        {
            let stratum = &strata[s];
            proof {
                assert(strata_view(strata@)[s as int] == models(stratum@));
                assert forall|k: int| 0 <= k < stratum@.len() implies rule_cost(#[trigger] stratum@[k]@) <= usize::MAX by {
                    assert(models(stratum@)[k] == stratum@[k]@);
                    assert(rv.contains(basic_strata(rv).0[s as int][k]));
                    let j = choose|j: int| 0 <= j < rv.len() && rv[j] == basic_strata(rv).0[s as int][k];
                    assert(rule_cost(rv[j]) <= usize::MAX);
                }
            }
            let sorted = optimize_rule_order(stratum);
            let ghost before = strata_counts(os.take(s as int), facts_view(base@), self@.max_iterations);
            let sf = self.evaluate_stratum(&sorted, &all, &base, &mut stats);
            proof {
                assert(os[s as int] == models(sorted@));
                assert(os.take(s + 1).drop_last() =~= os.take(s as int));
                assert(os.take(s + 1).last() == os[s as int]);
                let d = stratum_counts(models(sorted@), facts_view(all@), facts_view(base@), self@.max_iterations);
                lemma_capped_add(before.0 as int, d.0 as int);
                lemma_capped_add(before.1 as int, d.1 as int);
                lemma_capped_add(before.2 as int, d.2 as int);
                lemma_capped_add(before.3 as int, d.3 as int);
                lemma_capped_add(before.4 as int, d.4 as int);
            }
            add_all_exec(&mut all, &sf);
            s = s + 1;
        }
        assert(os.take(s as int) =~= os);
        let now = clock_nanos();
        stats.evaluation_time_ns = if now >= start { now - start } else { 0 };
        (all, stats)
    }
}

} // verus!
