//! Bottom-up semi-naive evaluation of Datalog rules with stratified negation.
use vstd::prelude::*;
use std::sync::Arc;
use crate::datalog::types::{Atom, Rule, Substitution, VAtom, VRule, VTerm, apply_terms, all_ground,
    atoms_view, terms_view, rule_clone, rules_clone};
use crate::datalog::unification::{unify_atom_with_fact, atom_fact_unifier, ground_atom, ground_args};
use crate::datalog::aggregation::{Bindings, apply_atom, extend_all, extend_one, extend_sub};
use crate::datalog::provenance::ProvenanceTracker;
use crate::datalog::magic_sets::{MagicSetsTransformer, Query, transform_spec, transform_magic_names,
    body_segments_ascii};
use crate::facts::{Fact, FactStore, VFact, facts_view, facts_clone, fact_in, clock_nanos};
use crate::types::{Value, value_clone, values_view, lemma_values_view};
use crate::text::{models, lemma_push_to_set};

verus! {

broadcast use vstd::std_specs::vec::group_vec_axioms;

/// Whether some fact unifies with an atom.
pub open spec fn has_match(a: VAtom, fs: Seq<VFact>) -> bool {
    exists|i: int| 0 <= i < fs.len() && (#[trigger] atom_fact_unifier(a, fs[i])) is Some
}

/// The bindings under which a negated atom matches no fact, in order.
pub open spec fn keep_unmatched(a: VAtom, subs: Seq<Bindings>, all: Seq<VFact>) -> Seq<Bindings>
    decreases subs.len(),
{
    if subs.len() == 0 {
        Seq::empty()
    } else {
        let r = keep_unmatched(a, subs.drop_last(), all);
        if has_match(apply_atom(subs.last(), a), all) {
            r
        } else {
            r.push(subs.last())
        }
    }
}

/// The bindings satisfying a rule body left to right, where the positive atom
/// at position `k` is matched against the delta and every other positive atom
/// against all facts; a negated atom keeps the bindings under which it matches
/// none of all the facts.
pub open spec fn delta_join(body: Seq<VAtom>, k: int, all: Seq<VFact>, delta: Seq<VFact>) -> Seq<Bindings>
    decreases body.len(),
{
    if body.len() == 0 {
        seq![Map::empty()]
    } else {
        let prev = delta_join(body.drop_last(), k, all, delta);
        let a = body.last();
        if a.negated {
            keep_unmatched(a, prev, all)
        } else {
            extend_all(a, prev, if body.len() - 1 == k { delta } else { all })
        }
    }
}

/// The ground instances of a head under bindings, in order (non-ground ones dropped).
pub open spec fn head_facts(head: VAtom, subs: Seq<Bindings>) -> Seq<VFact>
    decreases subs.len(),
{
    if subs.len() == 0 {
        Seq::empty()
    } else {
        let r = head_facts(head, subs.drop_last());
        let t = apply_terms(subs.last(), head.terms);
        if all_ground(t) {
            r.push(VFact { pred: head.pred, args: ground_args(t) })
        } else {
            r
        }
    }
}

/// The fact an atom states, when it is ground.
pub open spec fn atom_fact(a: VAtom) -> Option<VFact> {
    if all_ground(a.terms) {
        Some(VFact { pred: a.pred, args: ground_args(a.terms) })
    } else {
        None
    }
}

/// The facts a rule derives with the delta at each body position in turn.
pub open spec fn delta_rounds(r: VRule, all: Seq<VFact>, delta: Seq<VFact>, n: int) -> Seq<VFact>
    decreases n,
{
    if n <= 0 {
        Seq::empty()
    } else {
        delta_rounds(r, all, delta, n - 1) + head_facts(r.head, delta_join(r.body, n - 1, all, delta))
    }
}

/// One semi-naive application of a rule: a fact rule gives its head when
/// ground; another rule gives what it derives with the delta at each body
/// position.
pub open spec fn semi_naive_facts(r: VRule, all: Seq<VFact>, delta: Seq<VFact>) -> Seq<VFact> {
    if r.body.len() == 0 {
        match atom_fact(r.head) {
            Some(f) => seq![f],
            None => Seq::empty(),
        }
    } else {
        delta_rounds(r, all, delta, r.body.len() as int)
    }
}

/// Whether some fact unifies with an atom.
fn any_match(atom: &Atom, facts: &Vec<Fact>) -> (r: bool)
    ensures
        r == has_match(atom@, facts_view(facts@)),
{
    let mut i: usize = 0;
    while i < facts.len()
        invariant
            i <= facts@.len(),
            forall|j: int| 0 <= j < i ==> atom_fact_unifier(atom@, #[trigger] facts_view(facts@)[j]) is None,
        decreases facts.len() - i,
    {
        if unify_atom_with_fact(atom, &facts[i]).is_some() {
            assert(atom_fact_unifier(atom@, facts_view(facts@)[i as int]) is Some);
            return true;
        }
        i = i + 1;
    }
    false
}

/// The fact an atom states, when it is ground.
pub fn atom_to_fact(atom: &Atom) -> (r: Option<Fact>)
    ensures
        match atom_fact(atom@) {
            Some(f) => r is Some && r->0@ == f,
            None => r is None,
        },
{
    if !atom.is_ground() {
        return None;
    }
    let mut args: Vec<Value> = Vec::new();
    let mut i: usize = 0;
    while i < atom.terms.len()
        invariant
            i <= atom.terms@.len(),
            all_ground(atom@.terms),
            args@.len() == i,
            forall|j: int| 0 <= j < i ==> #[trigger] args@[j]@ == ground_args(atom@.terms)[j],
        decreases atom.terms.len() - i,
    {
        assert(atom@.terms[i as int] is Const);
        match atom.terms[i].as_constant() {
            Some(v) => args.push(value_clone(v)),
            None => {},
        }
        i = i + 1;
    }
    proof {
        lemma_values_view(args@);
        assert(values_view(args@) =~= ground_args(atom@.terms));
    }
    Some(Fact::new(atom.predicate.clone(), args))
}

/// The facts a rule derives with the delta at one body position.
pub fn apply_rule_with_delta_at(rule: &Rule, all: &Vec<Fact>, delta: &Vec<Fact>, delta_index: usize) -> (r: Vec<Fact>)
    ensures
        facts_view(r@) == head_facts(rule@.head, delta_join(rule@.body, delta_index as int, facts_view(all@), facts_view(delta@))),
{
    let ghost bv = rule@.body;
    let ghost av = facts_view(all@);
    let ghost dv = facts_view(delta@);
    let mut current: Vec<Substitution> = Vec::new();
    current.push(Substitution::new());
    assert(bv.take(0) =~= Seq::<VAtom>::empty());
    assert(models(current@) =~= delta_join(bv.take(0), delta_index as int, av, dv));
    let mut k: usize = 0;
    while k < rule.body.len()
        invariant
            k <= rule.body@.len(),
            bv == rule@.body,
            av == facts_view(all@),
            dv == facts_view(delta@),
            models(current@) == delta_join(bv.take(k as int), delta_index as int, av, dv),
        decreases rule.body.len() - k,
    {
        let atom = &rule.body[k];
        assert(bv[k as int] == atom@);
        assert(bv.take(k + 1).drop_last() =~= bv.take(k as int));
        assert(bv.take(k + 1).last() == atom@);
        let mut next: Vec<Substitution> = Vec::new();
        let mut j: usize = 0;
        if atom.negated {
            assert(models(next@) =~= keep_unmatched(atom@, models(current@).take(0), av));
            while j < current.len()
                invariant
                    j <= current@.len(),
                    atom@.negated,
                    av == facts_view(all@),
                    models(next@) == keep_unmatched(atom@, models(current@).take(j as int), av),
                decreases current.len() - j,
            {
                assert(models(current@).take(j + 1).drop_last() =~= models(current@).take(j as int));
                let grounded = atom.apply_substitution(&current[j]);
                if !any_match(&grounded, all) {
                    let ghost nb = models(next@);
                    next.push(current[j].duplicate());
                    assert(models(next@) =~= nb.push(current@[j as int]@));
                }
                j = j + 1;
            }
        } else {
            let source = if k == delta_index { delta } else { all };
            assert(models(next@) =~= extend_all(atom@, models(current@).take(0), facts_view(source@)));
            while j < current.len()
                invariant
                    j <= current@.len(),
                    models(next@) == extend_all(atom@, models(current@).take(j as int), facts_view(source@)),
                decreases current.len() - j,
            {
                assert(models(current@).take(j + 1).drop_last() =~= models(current@).take(j as int));
                extend_sub(atom, &current[j], source.as_slice(), &mut next);
                j = j + 1;
            }
        }
        assert(models(current@).take(j as int) =~= models(current@));
        current = next;
        k = k + 1;
    }
    assert(bv.take(k as int) =~= bv);
    let ghost subs = models(current@);
    let mut out: Vec<Fact> = Vec::new();
    let mut i: usize = 0;
    assert(facts_view(out@) =~= head_facts(rule@.head, subs.take(0)));
    while i < current.len()
        invariant
            i <= current@.len(),
            subs == models(current@),
            facts_view(out@) == head_facts(rule@.head, subs.take(i as int)),
        decreases current.len() - i,
    {
        assert(subs.take(i + 1).drop_last() =~= subs.take(i as int));
        assert(subs.take(i + 1).last() == current@[i as int]@);
        match ground_atom(&rule.head, &current[i]) {
            Some(f) => {
                let ghost ob = out@;
                out.push(f);
                assert(facts_view(out@) =~= facts_view(ob).push(out@.last()@));
            },
            None => {},
        }
        i = i + 1;
    }
    assert(subs.take(i as int) =~= subs);
    out
}

/// One semi-naive application of a rule.
pub fn apply_rule_semi_naive(rule: &Rule, all: &Vec<Fact>, delta: &Vec<Fact>) -> (r: Vec<Fact>)
    ensures
        facts_view(r@) == semi_naive_facts(rule@, facts_view(all@), facts_view(delta@)),
{
    if rule.is_fact() {
        match atom_to_fact(&rule.head) {
            Some(f) => {
                let mut v: Vec<Fact> = Vec::new();
                v.push(f);
                assert(facts_view(v@) =~= seq![v@[0]@]);
                return v;
            },
            None => {
                let v: Vec<Fact> = Vec::new();
                assert(facts_view(v@) =~= Seq::<VFact>::empty());
                return v;
            },
        }
    }
    let mut results: Vec<Fact> = Vec::new();
    let mut k: usize = 0;
    assert(facts_view(results@) =~= delta_rounds(rule@, facts_view(all@), facts_view(delta@), 0));
    while k < rule.body.len()
        invariant
            k <= rule.body@.len(),
            facts_view(results@) == delta_rounds(rule@, facts_view(all@), facts_view(delta@), k as int),
        decreases rule.body.len() - k,
    {
        let mut derived = apply_rule_with_delta_at(rule, all, delta, k);
        let ghost rb = facts_view(results@);
        let ghost db = facts_view(derived@);
        results.append(&mut derived);
        assert(facts_view(results@) =~= rb + db);
        k = k + 1;
    }
    results
}


/// The stratum assigned to a predicate, if any (latest assignment first;
/// a predicate is assigned once).
pub open spec fn stratum_lookup(a: Seq<(Seq<char>, nat)>, p: Seq<char>) -> Option<nat>
    decreases a.len(),
{
    if a.len() == 0 {
        None
    } else if a.last().0 == p {
        Some(a.last().1)
    } else {
        stratum_lookup(a.drop_last(), p)
    }
}

/// The stratum a body asks for: the largest, over its atoms whose predicate
/// already has a stratum, of that stratum, one more for a negated atom; zero
/// when there is none.
pub open spec fn body_stratum(body: Seq<VAtom>, a: Seq<(Seq<char>, nat)>) -> nat
    decreases body.len(),
{
    if body.len() == 0 {
        0
    } else {
        let m = body_stratum(body.drop_last(), a);
        let at = body.last();
        match stratum_lookup(a, at.pred) {
            Some(d) => {
                let s = if at.negated { d + 1 } else { d };
                if s > m { s } else { m }
            },
            None => m,
        }
    }
}

/// The head predicates, in order of first appearance, each at stratum zero.
pub open spec fn heads_zero(rules: Seq<VRule>) -> Seq<(Seq<char>, nat)>
    decreases rules.len(),
{
    if rules.len() == 0 {
        Seq::empty()
    } else {
        let a = heads_zero(rules.drop_last());
        let r = rules.last();
        if stratum_lookup(a, r.head.pred) is Some {
            a
        } else {
            a.push((r.head.pred, 0nat))
        }
    }
}

/// The stratum the rules for a predicate ask for under an assignment: the
/// largest that the body of one of them asks for (zero for none).
pub open spec fn pred_level(rules: Seq<VRule>, a: Seq<(Seq<char>, nat)>, p: Seq<char>) -> nat
    decreases rules.len(),
{
    if rules.len() == 0 {
        0
    } else {
        let m = pred_level(rules.drop_last(), a, p);
        let r = rules.last();
        if r.head.pred == p {
            let b = body_stratum(r.body, a);
            if b > m { b } else { m }
        } else {
            m
        }
    }
}

/// Each predicate of `s` given the stratum its rules ask for under `a`.
pub open spec fn round_over(rules: Seq<VRule>, a: Seq<(Seq<char>, nat)>, s: Seq<(Seq<char>, nat)>) -> Seq<(Seq<char>, nat)>
    decreases s.len(),
{
    if s.len() == 0 {
        Seq::empty()
    } else {
        round_over(rules, a, s.drop_last()).push((s.last().0, pred_level(rules, a, s.last().0)))
    }
}

/// One round of stratification: every head predicate is given the stratum
/// its rules ask for under the current assignment.
pub open spec fn strata_round(rules: Seq<VRule>, a: Seq<(Seq<char>, nat)>) -> Seq<(Seq<char>, nat)> {
    round_over(rules, a, a)
}

/// Rounds from `a`, at most `k` of them, stopping once a round changes nothing.
pub open spec fn settle(rules: Seq<VRule>, a: Seq<(Seq<char>, nat)>, k: nat) -> Seq<(Seq<char>, nat)>
    decreases k,
{
    if k == 0 || strata_round(rules, a) == a {
        a
    } else {
        settle(rules, strata_round(rules, a), (k - 1) as nat)
    }
}

/// Strata of the head predicates: from all at zero, rounds until nothing
/// changes, at most one per rule. A predicate negated in a body then sits
/// strictly below the head of that rule, one used positively no higher.
pub open spec fn assign_strata(rules: Seq<VRule>) -> Seq<(Seq<char>, nat)> {
    settle(rules, heads_zero(rules), rules.len())
}

/// Whether the strata of the rules settled: one more round changes nothing.
pub open spec fn strata_settled(rules: Seq<VRule>) -> bool {
    strata_round(rules, assign_strata(rules)) == assign_strata(rules)
}

/// No stratum of an assignment is above `b`.
pub open spec fn values_at_most(a: Seq<(Seq<char>, nat)>, b: nat) -> bool {
    forall|j: int| 0 <= j < a.len() ==> #[trigger] a[j].1 <= b
}

/// The largest assigned stratum (zero for none).
pub open spec fn max_stratum(a: Seq<(Seq<char>, nat)>) -> nat
    decreases a.len(),
{
    if a.len() == 0 {
        0
    } else {
        let m = max_stratum(a.drop_last());
        if a.last().1 > m { a.last().1 } else { m }
    }
}

/// The stratum of a rule: that of its head predicate.
pub open spec fn rule_stratum(a: Seq<(Seq<char>, nat)>, r: VRule) -> nat {
    match stratum_lookup(a, r.head.pred) {
        Some(s) => s,
        None => 0,
    }
}

/// The rules of one stratum, in order, each marked with it.
pub open spec fn in_stratum(rules: Seq<VRule>, a: Seq<(Seq<char>, nat)>, s: nat) -> Seq<VRule>
    decreases rules.len(),
{
    if rules.len() == 0 {
        Seq::empty()
    } else {
        let r = in_stratum(rules.drop_last(), a, s);
        if rule_stratum(a, rules.last()) == s {
            r.push(VRule { stratum: s, ..rules.last() })
        } else {
            r
        }
    }
}

/// The strata of a program: strata zero to the largest, each with its rules.
pub open spec fn strata_spec(rules: Seq<VRule>) -> Seq<Seq<VRule>> {
    let a = assign_strata(rules);
    Seq::new(max_stratum(a) + 1, |s: int| in_stratum(rules, a, s as nat))
}

proof fn lemma_lookup_bounded_loose(a: Seq<(Seq<char>, nat)>, p: Seq<char>, bound: nat)
    requires
        forall|j: int| 0 <= j < a.len() ==> #[trigger] a[j].1 < bound,
    ensures
        stratum_lookup(a, p) matches Some(v) ==> v < bound && v <= max_stratum(a),
    decreases a.len(),
{
    if a.len() > 0 && a.last().0 != p {
        assert forall|j: int| 0 <= j < a.drop_last().len() implies #[trigger] a.drop_last()[j].1 < bound by {
            assert(a.drop_last()[j] == a[j]);
        }
        lemma_lookup_bounded_loose(a.drop_last(), p, bound);
    }
}

/// A body asks for at most one stratum more than any assigned.
proof fn lemma_body_stratum_at_most(body: Seq<VAtom>, a: Seq<(Seq<char>, nat)>, b: nat)
    requires
        values_at_most(a, b),
    ensures
        body_stratum(body, a) <= b + 1,
    decreases body.len(),
{
    if body.len() > 0 {
        lemma_body_stratum_at_most(body.drop_last(), a, b);
        lemma_lookup_bounded_loose(a, body.last().pred, b + 1);
    }
}

/// The rules of a predicate ask for at most one stratum more than any assigned.
proof fn lemma_pred_level_at_most(rules: Seq<VRule>, a: Seq<(Seq<char>, nat)>, p: Seq<char>, b: nat)
    requires
        values_at_most(a, b),
    ensures
        pred_level(rules, a, p) <= b + 1,
    decreases rules.len(),
{
    if rules.len() > 0 {
        lemma_pred_level_at_most(rules.drop_last(), a, p, b);
        lemma_body_stratum_at_most(rules.last().body, a, b);
    }
}

/// A round keeps the predicates, in order, and raises no stratum above one
/// more than the largest before.
proof fn lemma_round_over(rules: Seq<VRule>, a: Seq<(Seq<char>, nat)>, s: Seq<(Seq<char>, nat)>, b: nat)
    requires
        values_at_most(a, b),
    ensures
        round_over(rules, a, s).len() == s.len(),
        forall|j: int| 0 <= j < s.len() ==> #[trigger] round_over(rules, a, s)[j] == (s[j].0, pred_level(rules, a, s[j].0)),
        values_at_most(round_over(rules, a, s), b + 1),
    decreases s.len(),
{
    if s.len() > 0 {
        lemma_round_over(rules, a, s.drop_last(), b);
        let r = round_over(rules, a, s);
        assert forall|j: int| 0 <= j < s.len() implies #[trigger] r[j] == (s[j].0, pred_level(rules, a, s[j].0)) by {
            if j < s.len() - 1 {
                assert(r[j] == round_over(rules, a, s.drop_last())[j]);
                assert(s.drop_last()[j] == s[j]);
            }
        }
        assert forall|j: int| 0 <= j < r.len() implies #[trigger] r[j].1 <= b + 1 by {
            lemma_pred_level_at_most(rules, a, s[j].0, b);
        }
    }
}

/// After a round a predicate has a stratum exactly when it had one, and it
/// is the stratum its rules ask for.
proof fn lemma_round_lookup(rules: Seq<VRule>, a: Seq<(Seq<char>, nat)>, s: Seq<(Seq<char>, nat)>, p: Seq<char>)
    ensures
        stratum_lookup(round_over(rules, a, s), p) == (if stratum_lookup(s, p) is Some {
            Some(pred_level(rules, a, p))
        } else {
            None::<nat>
        }),
    decreases s.len(),
{
    if s.len() > 0 {
        lemma_round_lookup(rules, a, s.drop_last(), p);
        assert(round_over(rules, a, s).drop_last() == round_over(rules, a, s.drop_last()));
    }
}

/// Settling keeps the predicates and raises strata by at most one a round.
proof fn lemma_settle(rules: Seq<VRule>, a: Seq<(Seq<char>, nat)>, k: nat, b: nat)
    requires
        values_at_most(a, b),
    ensures
        values_at_most(settle(rules, a, k), b + k),
        settle(rules, a, k).len() == a.len(),
        forall|p: Seq<char>| (#[trigger] stratum_lookup(settle(rules, a, k), p) is Some) == (stratum_lookup(a, p) is Some),
    decreases k,
{
    if !(k == 0 || strata_round(rules, a) == a) {
        let a2 = strata_round(rules, a);
        lemma_round_over(rules, a, a, b);
        assert forall|p: Seq<char>| (#[trigger] stratum_lookup(a2, p) is Some) == (stratum_lookup(a, p) is Some) by {
            lemma_round_lookup(rules, a, a, p);
        }
        lemma_settle(rules, a2, (k - 1) as nat, b + 1);
    }
}

/// Every head predicate is among the starting assignment, all at zero.
proof fn lemma_heads_zero(rules: Seq<VRule>)
    ensures
        values_at_most(heads_zero(rules), 0),
        heads_zero(rules).len() <= rules.len(),
        forall|i: int| 0 <= i < rules.len() ==> #[trigger] stratum_lookup(heads_zero(rules), rules[i].head.pred) is Some,
    decreases rules.len(),
{
    if rules.len() > 0 {
        let rest = rules.drop_last();
        lemma_heads_zero(rest);
        let a = heads_zero(rest);
        let a2 = heads_zero(rules);
        assert forall|j: int| 0 <= j < a2.len() implies #[trigger] a2[j].1 <= 0 by {
            if j < a.len() {
                assert(a2[j] == a[j] || a2 == a);
            }
        }
        assert forall|i: int| 0 <= i < rules.len() implies #[trigger] stratum_lookup(a2, rules[i].head.pred) is Some by {
            if i < rules.len() - 1 {
                assert(rest[i] == rules[i]);
                if stratum_lookup(a, rules.last().head.pred) is None {
                    lemma_lookup_push(a, (rules.last().head.pred, 0nat), rules[i].head.pred);
                }
            }
        }
    }
}

/// Adding an entry keeps every predicate that had a stratum.
proof fn lemma_lookup_push(a: Seq<(Seq<char>, nat)>, e: (Seq<char>, nat), p: Seq<char>)
    ensures
        stratum_lookup(a, p) is Some ==> stratum_lookup(a.push(e), p) is Some,
{
    assert(a.push(e).drop_last() == a);
}

/// The strata of the rules are at most the number of rules.
proof fn lemma_assign_bounded(rules: Seq<VRule>)
    ensures
        values_at_most(assign_strata(rules), rules.len()),
        assign_strata(rules).len() <= rules.len(),
        forall|i: int| 0 <= i < rules.len() ==> #[trigger] stratum_lookup(assign_strata(rules), rules[i].head.pred) is Some,
{
    lemma_heads_zero(rules);
    lemma_settle(rules, heads_zero(rules), rules.len(), 0);
    assert forall|i: int| 0 <= i < rules.len() implies #[trigger] stratum_lookup(assign_strata(rules), rules[i].head.pred) is Some by {
        assert(stratum_lookup(heads_zero(rules), rules[i].head.pred) is Some);
    }
}

/// The rules of a predicate ask for at least what each of their bodies asks for.
proof fn lemma_pred_level_ge(rules: Seq<VRule>, a: Seq<(Seq<char>, nat)>, i: int)
    requires
        0 <= i < rules.len(),
    ensures
        pred_level(rules, a, rules[i].head.pred) >= body_stratum(rules[i].body, a),
    decreases rules.len(),
{
    if i < rules.len() - 1 {
        lemma_pred_level_ge(rules.drop_last(), a, i);
        assert(rules.drop_last()[i] == rules[i]);
    }
}

/// A body asks for at least the stratum of each atom with one, one more
/// when the atom is negated.
proof fn lemma_body_stratum_ge(body: Seq<VAtom>, a: Seq<(Seq<char>, nat)>, k: int)
    requires
        0 <= k < body.len(),
    ensures
        stratum_lookup(a, body[k].pred) matches Some(d) ==> body_stratum(body, a) >= d + (if body[k].negated { 1int } else { 0int }),
    decreases body.len(),
{
    if k < body.len() - 1 {
        lemma_body_stratum_ge(body.drop_last(), a, k);
        assert(body.drop_last()[k] == body[k]);
    }
}

/// Stratified negation: once the strata have settled, a predicate negated
/// in the body of a rule has its rules in a strictly lower stratum than that
/// rule, and a predicate used positively has its rules in no higher one.
pub proof fn law_stratified_negation(rules: Seq<VRule>, i: int, k: int, j: int)
    requires
        0 <= i < rules.len(),
        0 <= k < rules[i].body.len(),
        0 <= j < rules.len(),
        rules[j].head.pred == rules[i].body[k].pred,
        strata_settled(rules),
    ensures
        rules[i].body[k].negated ==> rule_stratum(assign_strata(rules), rules[j]) < rule_stratum(assign_strata(rules), rules[i]),
        !rules[i].body[k].negated ==> rule_stratum(assign_strata(rules), rules[j]) <= rule_stratum(assign_strata(rules), rules[i]),
{
    let a = assign_strata(rules);
    lemma_assign_bounded(rules);
    assert(stratum_lookup(a, rules[j].head.pred) is Some);
    assert(stratum_lookup(a, rules[i].head.pred) is Some);
    lemma_round_lookup(rules, a, a, rules[i].head.pred);
    lemma_pred_level_ge(rules, a, i);
    lemma_body_stratum_ge(rules[i].body, a, k);
}

pub(crate) fn find_stratum(a: &Vec<(String, usize)>, p: &String) -> (r: Option<usize>)
    ensures
        match stratum_lookup(stratum_pairs(a@), p@) {
            Some(v) => r == Some(v as usize),
            None => r is None,
        },
{
    let ghost av = stratum_pairs(a@);
    let mut j: usize = a.len();
    assert(av.take(j as int) =~= av);
    while j > 0
        invariant
            j <= a@.len(),
            av == stratum_pairs(a@),
            av.len() == a@.len(),
            stratum_lookup(av, p@) == stratum_lookup(av.take(j as int), p@),
        decreases j,
    {
        assert(av.take(j as int).drop_last() =~= av.take(j - 1));
        assert(av.take(j as int).last() == (a@[j - 1].0@, a@[j - 1].1 as nat));
        if a[j - 1].0 == *p {
            return Some(a[j - 1].1);
        }
        j = j - 1;
    }
    None
}

/// The models of exec stratum assignments.
pub open spec fn stratum_pairs(a: Seq<(String, usize)>) -> Seq<(Seq<char>, nat)> {
    a.map_values(|e: (String, usize)| (e.0@, e.1 as nat))
}

/// The head predicates in order of first appearance, all at stratum zero.
fn heads_exec(rules: &Vec<Rule>) -> (r: Vec<(String, usize)>)
    ensures
        stratum_pairs(r@) == heads_zero(models(rules@)),
{
    let ghost rv = models(rules@);
    let mut assigned: Vec<(String, usize)> = Vec::new();
    let mut i: usize = 0;
    assert(rv.take(0) =~= Seq::<VRule>::empty());
    assert(stratum_pairs(assigned@) =~= Seq::<(Seq<char>, nat)>::empty());
    while i < rules.len()
        invariant
            i <= rules@.len(),
            rv == models(rules@),
            stratum_pairs(assigned@) == heads_zero(rv.take(i as int)),
        decreases rules.len() - i,
    {
        assert(rv.take(i + 1).drop_last() =~= rv.take(i as int));
        assert(rv.take(i + 1).last() == rules@[i as int]@);
        match find_stratum(&assigned, &rules[i].head.predicate) {
            Some(_) => {},
            None => {
                let ghost a = stratum_pairs(assigned@);
                assigned.push((rules[i].head.predicate.clone(), 0));
                assert(stratum_pairs(assigned@) =~= a.push((rules@[i as int]@.head.pred, 0nat)));
            },
        }
        i = i + 1;
    }
    assert(rv.take(i as int) =~= rv);
    assigned
}

/// The stratum a body asks for under an assignment.
fn body_stratum_exec(body: &Vec<Atom>, assigned: &Vec<(String, usize)>, Ghost(b): Ghost<nat>) -> (r: usize)
    requires
        values_at_most(stratum_pairs(assigned@), b),
        b < usize::MAX,
    ensures
        r == body_stratum(atoms_view(body@), stratum_pairs(assigned@)),
{
    let ghost bv = atoms_view(body@);
    let ghost a = stratum_pairs(assigned@);
    let mut m: usize = 0;
    let mut k: usize = 0;
    assert(bv.take(0) =~= Seq::<VAtom>::empty());
    while k < body.len()
        invariant
            k <= body@.len(),
            bv == atoms_view(body@),
            a == stratum_pairs(assigned@),
            values_at_most(a, b),
            b < usize::MAX,
            m == body_stratum(bv.take(k as int), a),
        decreases body.len() - k,
    {
        assert(bv.take(k + 1).drop_last() =~= bv.take(k as int));
        assert(bv.take(k + 1).last() == body@[k as int]@);
        proof {
            lemma_lookup_bounded_loose(a, body@[k as int]@.pred, b + 1);
        }
        match find_stratum(assigned, &body[k].predicate) {
            Some(d) => {
                let s = if body[k].negated { d + 1 } else { d };
                if s > m {
                    m = s;
                }
            },
            None => {},
        }
        k = k + 1;
    }
    assert(bv.take(k as int) =~= bv);
    m
}

/// The stratum the rules for a predicate ask for under an assignment.
fn pred_level_exec(rules: &Vec<Rule>, assigned: &Vec<(String, usize)>, p: &String, Ghost(b): Ghost<nat>) -> (r: usize)
    requires
        values_at_most(stratum_pairs(assigned@), b),
        b < usize::MAX,
    ensures
        r == pred_level(models(rules@), stratum_pairs(assigned@), p@),
{
    let ghost rv = models(rules@);
    let ghost a = stratum_pairs(assigned@);
    let mut m: usize = 0;
    let mut i: usize = 0;
    assert(rv.take(0) =~= Seq::<VRule>::empty());
    while i < rules.len()
        invariant
            i <= rules@.len(),
            rv == models(rules@),
            a == stratum_pairs(assigned@),
            values_at_most(a, b),
            b < usize::MAX,
            m == pred_level(rv.take(i as int), a, p@),
        decreases rules.len() - i,
    {
        assert(rv.take(i + 1).drop_last() =~= rv.take(i as int));
        assert(rv.take(i + 1).last() == rules@[i as int]@);
        if rules[i].head.predicate == *p {
            let bs = body_stratum_exec(&rules[i].body, assigned, Ghost(b));
            if bs > m {
                m = bs;
            }
        }
        i = i + 1;
    }
    assert(rv.take(i as int) =~= rv);
    m
}

/// One round of stratification.
fn strata_round_exec(rules: &Vec<Rule>, assigned: &Vec<(String, usize)>, Ghost(b): Ghost<nat>) -> (r: Vec<(String, usize)>)
    requires
        values_at_most(stratum_pairs(assigned@), b),
        b < usize::MAX,
    ensures
        stratum_pairs(r@) == strata_round(models(rules@), stratum_pairs(assigned@)),
{
    let ghost rv = models(rules@);
    let ghost a = stratum_pairs(assigned@);
    let mut out: Vec<(String, usize)> = Vec::new();
    let mut j: usize = 0;
    assert(a.take(0) =~= Seq::<(Seq<char>, nat)>::empty());
    assert(stratum_pairs(out@) =~= round_over(rv, a, a.take(0)));
    while j < assigned.len()
        invariant
            j <= assigned@.len(),
            rv == models(rules@),
            a == stratum_pairs(assigned@),
            values_at_most(a, b),
            b < usize::MAX,
            stratum_pairs(out@) == round_over(rv, a, a.take(j as int)),
        decreases assigned.len() - j,
    {
        assert(a.take(j + 1).drop_last() =~= a.take(j as int));
        assert(a.take(j + 1).last() == a[j as int]);
        let lv = pred_level_exec(rules, assigned, &assigned[j].0, Ghost(b));
        let ghost o = stratum_pairs(out@);
        out.push((assigned[j].0.clone(), lv));
        assert(stratum_pairs(out@) =~= o.push((a[j as int].0, lv as nat)));
        j = j + 1;
    }
    assert(a.take(j as int) =~= a);
    out
}

/// Whether two assignments of the same predicates give the same strata.
fn same_strata(x: &Vec<(String, usize)>, y: &Vec<(String, usize)>) -> (r: bool)
    requires
        x@.len() == y@.len(),
        forall|j: int| 0 <= j < x@.len() ==> #[trigger] x@[j].0@ == y@[j].0@,
    ensures
        r == (stratum_pairs(x@) == stratum_pairs(y@)),
{
    let mut j: usize = 0;
    while j < x.len()
        invariant
            j <= x@.len(),
            x@.len() == y@.len(),
            forall|i: int| 0 <= i < j ==> #[trigger] x@[i].1 == y@[i].1,
        decreases x.len() - j,
    {
        if x[j].1 != y[j].1 {
            assert(stratum_pairs(x@)[j as int] != stratum_pairs(y@)[j as int]);
            return false;
        }
        j = j + 1;
    }
    assert(stratum_pairs(x@) =~= stratum_pairs(y@));
    true
}

/// Group rules into strata: every head predicate starts at stratum zero and
/// is raised, round by round, to the stratum its rules ask for (the stratum
/// of each body predicate that heads a rule, one more where it is negated),
/// until a round changes nothing or one round per rule has run.
pub fn stratify_rules(rules: &Vec<Rule>) -> (r: Vec<Vec<Rule>>)
    requires
        rules@.len() < usize::MAX,
    ensures
        r@.len() == strata_spec(models(rules@)).len(),
        forall|s: int| 0 <= s < r@.len() ==> #[trigger] models(r@[s]@) == strata_spec(models(rules@))[s],
{
    let ghost rv = models(rules@);
    let ghost n = rules@.len();
    let mut assigned = heads_exec(rules);
    proof {
        lemma_heads_zero(rv);
    }
    let mut k: usize = 0;
    while k < rules.len()
        invariant_except_break
            k <= rules@.len(),
        invariant
            rv == models(rules@),
            n == rules@.len(),
            n < usize::MAX,
            values_at_most(stratum_pairs(assigned@), k as nat),
            k <= n,
            settle(rv, stratum_pairs(assigned@), (n - k) as nat) == assign_strata(rv),
        ensures
            stratum_pairs(assigned@) == assign_strata(rv),
        decreases rules.len() - k,
    {
        let next = strata_round_exec(rules, &assigned, Ghost(k as nat));
        proof {
            lemma_round_over(rv, stratum_pairs(assigned@), stratum_pairs(assigned@), k as nat);
            assert forall|j: int| 0 <= j < assigned@.len() implies #[trigger] assigned@[j].0@ == next@[j].0@ by {
                assert(stratum_pairs(assigned@)[j].0 == assigned@[j].0@);
                assert(stratum_pairs(next@)[j].0 == next@[j].0@);
            }
        }
        if same_strata(&assigned, &next) {
            break;
        }
        assigned = next;
        k = k + 1;
    }
    proof {
        lemma_assign_bounded(rv);
    }
    let ghost a = stratum_pairs(assigned@);
    let mut top: usize = 0;
    let mut j: usize = 0;
    assert(a.take(0) =~= Seq::<(Seq<char>, nat)>::empty());
    while j < assigned.len()
        invariant
            j <= assigned@.len(),
            a == stratum_pairs(assigned@),
            top == max_stratum(a.take(j as int)),
        decreases assigned.len() - j,
    {
        assert(a.take(j + 1).drop_last() =~= a.take(j as int));
        assert(a.take(j + 1).last() == (assigned@[j as int].0@, assigned@[j as int].1 as nat));
        if assigned[j].1 > top {
            top = assigned[j].1;
        }
        j = j + 1;
    }
    assert(a.take(j as int) =~= a);
    proof {
        if a.len() > 0 {
            lemma_max_member(a);
        }
    }
    let mut strata: Vec<Vec<Rule>> = Vec::new();
    let mut s: usize = 0;
    while s <= top
        invariant
            s <= top + 1,
            top == max_stratum(a),
            top < usize::MAX,
            a == stratum_pairs(assigned@),
            a == assign_strata(rv),
            values_at_most(a, rules@.len() as nat),
            a.len() <= rules@.len(),
            rules@.len() < usize::MAX,
            rv == models(rules@),
            strata@.len() == s,
            forall|t: int| 0 <= t < s ==> #[trigger] models(strata@[t]@) == in_stratum(rv, a, t as nat),
        decreases top + 1 - s,
    {
        let mut group: Vec<Rule> = Vec::new();
        let mut q: usize = 0;
        assert(rv.take(0) =~= Seq::<VRule>::empty());
        assert(models(group@) =~= in_stratum(rv.take(0), a, s as nat));
        while q < rules.len()
            invariant
                q <= rules@.len(),
                rv == models(rules@),
                a == stratum_pairs(assigned@),
                values_at_most(a, rules@.len() as nat),
                a.len() <= rules@.len(),
                rules@.len() < usize::MAX,
                models(group@) == in_stratum(rv.take(q as int), a, s as nat),
            decreases rules.len() - q,
        {
            proof {
                lemma_lookup_bounded_loose(a, rules@[q as int]@.head.pred, rules@.len() as nat + 1);
            }
            assert(rv.take(q + 1).drop_last() =~= rv.take(q as int));
            assert(rv.take(q + 1).last() == rules@[q as int]@);
            let st = match find_stratum(&assigned, &rules[q].head.predicate) {
                Some(v) => v,
                None => 0,
            };
            assert(st as nat == rule_stratum(a, rv[q as int]));
            if st == s {
                let mut c = rule_clone(&rules[q]);
                c.stratum = s;
                let ghost gb = group@;
                let ghost cv = c@;
                assert(cv == VRule { stratum: s as nat, ..rv[q as int] });
                group.push(c);
                assert(models(group@) =~= models(gb).push(cv));
            }
            q = q + 1;
        }
        assert(rv.take(q as int) =~= rv);
        strata.push(group);
        s = s + 1;
    }
    assert forall|t: int| 0 <= t < strata@.len() implies #[trigger] models(strata@[t]@) == strata_spec(models(rules@))[t] by {}
    strata
}

proof fn lemma_max_member(a: Seq<(Seq<char>, nat)>)
    requires
        a.len() > 0,
    ensures
        exists|j: int| 0 <= j < a.len() && #[trigger] a[j].1 == max_stratum(a),
    decreases a.len(),
{
    if a.len() > 1 {
        lemma_max_member(a.drop_last());
        let j = choose|j: int| 0 <= j < a.drop_last().len() && #[trigger] a.drop_last()[j].1 == max_stratum(a.drop_last());
        assert(a[j] == a.drop_last()[j]);
        if a.last().1 > max_stratum(a.drop_last()) {
            assert(a[a.len() - 1].1 == max_stratum(a));
        } else {
            assert(a[j].1 == max_stratum(a));
        }
    } else {
        assert(a.drop_last().len() == 0);
        assert(max_stratum(a.drop_last()) == 0);
        assert(a.last() == a[0]);
        assert(a[0].1 == max_stratum(a));
    }
}


/// Adding a fact unless an equal one is there.
pub open spec fn add_new(s: Seq<VFact>, f: VFact) -> Seq<VFact> {
    if s.contains(f) {
        s
    } else {
        s.push(f)
    }
}

/// Adding facts in order, each unless an equal one is there.
pub open spec fn add_all(s: Seq<VFact>, fs: Seq<VFact>) -> Seq<VFact>
    decreases fs.len(),
{
    if fs.len() == 0 {
        s
    } else {
        add_new(add_all(s, fs.drop_last()), fs.last())
    }
}

/// The facts stated by the ground fact rules, in order.
pub open spec fn fact_rule_heads(rules: Seq<VRule>) -> Seq<VFact>
    decreases rules.len(),
{
    if rules.len() == 0 {
        Seq::empty()
    } else {
        let r = fact_rule_heads(rules.drop_last());
        let last = rules.last();
        if last.body.len() == 0 {
            match atom_fact(last.head) {
                Some(f) => r.push(f),
                None => r,
            }
        } else {
            r
        }
    }
}

/// The rules with a body, in order.
pub open spec fn body_rules(rules: Seq<VRule>) -> Seq<VRule>
    decreases rules.len(),
{
    if rules.len() == 0 {
        Seq::empty()
    } else {
        let r = body_rules(rules.drop_last());
        if rules.last().body.len() == 0 {
            r
        } else {
            r.push(rules.last())
        }
    }
}

/// What the rules derive in one semi-naive round, rule by rule.
pub open spec fn round_facts(rules: Seq<VRule>, all: Seq<VFact>, delta: Seq<VFact>) -> Seq<VFact>
    decreases rules.len(),
{
    if rules.len() == 0 {
        Seq::empty()
    } else {
        round_facts(rules.drop_last(), all, delta) + semi_naive_facts(rules.last(), all, delta)
    }
}

/// The derived facts not yet accumulated, each once, in order.
pub open spec fn fresh_facts(derived: Seq<VFact>, acc: Seq<VFact>) -> Seq<VFact>
    decreases derived.len(),
{
    if derived.len() == 0 {
        Seq::empty()
    } else {
        let r = fresh_facts(derived.drop_last(), acc);
        let f = derived.last();
        if acc.contains(f) || r.contains(f) {
            r
        } else {
            r.push(f)
        }
    }
}

/// Rounds until nothing new is derived or the round counter passes 10000:
/// each round applies the rules to the store's facts and the accumulated
/// facts with the last round's new facts as delta; the counter counts rounds
/// over all strata. Gives the accumulated facts and the counter.
pub open spec fn fixpoint_rounds(
    rules: Seq<VRule>,
    store: Seq<VFact>,
    acc: Seq<VFact>,
    delta: Seq<VFact>,
    count: nat,
) -> (Seq<VFact>, nat)
    decreases (if count <= 10000 { 10001 - count } else { 0 }),
{
    let c1 = count + 1;
    let new = fresh_facts(round_facts(rules, store + acc, delta), acc);
    if new.len() == 0 || c1 > 10000 {
        (acc, c1)
    } else {
        fixpoint_rounds(rules, store, acc + new, new, c1)
    }
}

/// One stratum: add the heads of its fact rules and the store's facts to the
/// accumulated facts; all of them are the first delta (the stratum's rules
/// have not yet seen any fact); then, when the stratum has rules with a
/// body, run rounds.
pub open spec fn eval_stratum(stratum: Seq<VRule>, store: Seq<VFact>, acc0: Seq<VFact>, count: nat) -> (
    Seq<VFact>,
    nat,
) {
    let acc = add_all(add_all(acc0, fact_rule_heads(stratum)), store);
    let delta = acc;
    let rules = body_rules(stratum);
    if rules.len() == 0 {
        (acc, count)
    } else {
        fixpoint_rounds(rules, store, acc, delta, count)
    }
}

/// The strata in order, each starting from what the ones before accumulated.
pub open spec fn eval_strata(strata: Seq<Seq<VRule>>, store: Seq<VFact>) -> (Seq<VFact>, nat)
    decreases strata.len(),
{
    if strata.len() == 0 {
        (Seq::empty(), 0)
    } else {
        let (acc, count) = eval_strata(strata.drop_last(), store);
        eval_stratum(strata.last(), store, acc, count)
    }
}

/// The facts and the number of rounds of evaluating a program over a store.
pub open spec fn evaluate_spec(rules: Seq<VRule>, store: Seq<VFact>) -> (Seq<VFact>, nat) {
    eval_strata(strata_spec(rules), store)
}

proof fn lemma_rounds_count(rules: Seq<VRule>, store: Seq<VFact>, acc: Seq<VFact>, delta: Seq<VFact>, count: nat)
    ensures
        fixpoint_rounds(rules, store, acc, delta, count).1 <= (if count <= 10000 { 10000 } else { count }) + 1,
    decreases (if count <= 10000 { 10001 - count } else { 0 }),
{
    let c1 = count + 1;
    let new = fresh_facts(round_facts(rules, store + acc, delta), acc);
    if !(new.len() == 0 || c1 > 10000) {
        lemma_rounds_count(rules, store, acc + new, new, c1);
    }
}

/// The facts whose predicate is not among some names, in order.
pub open spec fn without_preds(s: Seq<VFact>, names: Set<Seq<char>>) -> Seq<VFact>
    decreases s.len(),
{
    if s.len() == 0 {
        Seq::empty()
    } else {
        let r = without_preds(s.drop_last(), names);
        if names.contains(s.last().pred) {
            r
        } else {
            r.push(s.last())
        }
    }
}

/// Result of evaluating Datalog rules.
#[derive(Debug)]
pub struct EvaluationResult {
    /// All derived facts
    pub facts: Vec<Fact>,
    /// Number of rounds until fixpoint
    pub iterations: usize,
    /// Time taken, in nanoseconds
    pub evaluation_time_ns: u64,
    /// Provenance recorded on the way
    pub provenance: ProvenanceTracker,
}

/// Model of an evaluator.
pub struct VEvaluator {
    /// Its rules
    pub rules: Seq<VRule>,
    /// The facts of its store
    pub store: Seq<VFact>,
    /// Whether it records provenance
    pub track_provenance: bool,
}

/// Semi-naive Datalog evaluator.
pub struct Evaluator {
    rules: Vec<Rule>,
    fact_store: Arc<FactStore>,
    track_provenance: bool,
}

impl View for Evaluator {
    type V = VEvaluator;

    closed spec fn view(&self) -> VEvaluator {
        VEvaluator {
            rules: models(self.rules@),
            store: (*self.fact_store)@.facts,
            track_provenance: self.track_provenance,
        }
    }
}

/// The nanoseconds from one clock reading to a later one, zero if the clock
/// went back.
pub open spec fn elapsed_between(start: u64, now: u64) -> u64 {
    if now >= start { (now - start) as u64 } else { 0 }
}

/// Time elapsed since a clock reading, in nanoseconds (zero if the clock went back).
fn elapsed_since(start: u64) -> (r: u64)
    ensures
        exists|now: u64| r == #[trigger] elapsed_between(start, now),
{
    let now = clock_nanos();
    let r = if now >= start { now - start } else { 0 };
    assert(r == elapsed_between(start, now));
    r
}

impl Evaluator {
    /// An evaluator without provenance.
    pub fn new(rules: Vec<Rule>, fact_store: Arc<FactStore>) -> (r: Self)
        ensures
            r@ == (VEvaluator { rules: models(rules@), store: (*fact_store)@.facts, track_provenance: false }),
    {
        Evaluator { rules, fact_store, track_provenance: false }
    }

    /// An evaluator that records provenance.
    pub fn with_provenance(rules: Vec<Rule>, fact_store: Arc<FactStore>) -> (r: Self)
        ensures
            r@ == (VEvaluator { rules: models(rules@), store: (*fact_store)@.facts, track_provenance: true }),
    {
        Evaluator { rules, fact_store, track_provenance: true }
    }

    /// Evaluate for a query: rewrite the rules with magic sets, evaluate the
    /// rewritten program, and leave out the facts of magic predicates.
    pub fn evaluate_query(&self, query: Query) -> (r: EvaluationResult)
        requires
            body_segments_ascii(self@.rules),
            transform_spec(self@.rules, query.predicate@, query.bound_args@).len() < usize::MAX - 10002,
        ensures
            ({
                let program = transform_spec(self@.rules, query.predicate@, query.bound_args@);
                let magic = transform_magic_names(self@.rules, query.predicate@, query.bound_args@);
                &&& facts_view(r.facts@) == without_preds(evaluate_spec(program, self@.store).0, magic)
                &&& r.iterations == evaluate_spec(program, self@.store).1
            }),
    {
        let start = clock_nanos();
        let mut transformer = MagicSetsTransformer::new(rules_clone(&self.rules));
        proof {
            assert(transformer@.rules =~= self@.rules);
        }
        let transformed = transformer.transform(&query);
        assert(transformer@.magic =~= transform_magic_names(self@.rules, query.predicate@, query.bound_args@));
        let goal_directed = Evaluator::new(transformed, crate::facts::share(&self.fact_store));
        let result = goal_directed.evaluate();
        let ghost fv = facts_view(result.facts@);
        let ghost magic = transformer@.magic;
        let mut kept: Vec<Fact> = Vec::new();
        let mut i: usize = 0;
        assert(fv.take(0) =~= Seq::<VFact>::empty());
        while i < result.facts.len()
            invariant
                i <= result.facts@.len(),
                fv == facts_view(result.facts@),
                magic == transformer@.magic,
                facts_view(kept@) == without_preds(fv.take(i as int), magic),
            decreases result.facts.len() - i,
        {
            assert(fv.take(i + 1).drop_last() =~= fv.take(i as int));
            assert(fv.take(i + 1).last() == result.facts@[i as int]@);
            if !transformer.is_magic_predicate(result.facts[i].predicate.as_str()) {
                let ghost kb = facts_view(kept@);
                kept.push(result.facts[i].clone());
                assert(facts_view(kept@) =~= kb.push(result.facts@[i as int]@));
            }
            i = i + 1;
        }
        assert(fv.take(i as int) =~= fv);
        EvaluationResult {
            facts: kept,
            iterations: result.iterations,
            evaluation_time_ns: elapsed_since(start),
            provenance: result.provenance,
        }
    }

    /// Evaluate all rules, stratum by stratum, until fixpoint.
    pub fn evaluate(&self) -> (r: EvaluationResult)
        requires
            self@.rules.len() < usize::MAX - 10002,
        ensures
            facts_view(r.facts@) == evaluate_spec(self@.rules, self@.store).0,
            r.iterations == evaluate_spec(self@.rules, self@.store).1,
            r.provenance@.enabled == self@.track_provenance,
    {
        let start = clock_nanos();
        let mut provenance = ProvenanceTracker::new(self.track_provenance);
        let strata = stratify_rules(&self.rules);
        let store_facts = self.fact_store.all_facts();
        let ghost sv = facts_view(store_facts@);
        let ghost strata_v = strata_spec(self@.rules);
        let mut all_acc: Vec<Fact> = Vec::new();
        let mut count: usize = 0;
        let mut si: usize = 0;
        proof {
            assert(strata_v.take(0) =~= Seq::<Seq<VRule>>::empty());
            assert(facts_view(all_acc@) =~= Seq::<VFact>::empty());
            lemma_strata_count(self@.rules);
        }
        while si < strata.len()
            invariant
                si <= strata@.len(),
                strata@.len() == strata_v.len(),
                strata_v.len() <= self@.rules.len() + 1,
                self@.rules.len() < usize::MAX - 10002,
                forall|t: int| 0 <= t < strata@.len() ==> #[trigger] models(strata@[t]@) == strata_v[t],
                sv == facts_view(store_facts@),
                sv == self@.store,
                (facts_view(all_acc@), count as nat) == eval_strata(strata_v.take(si as int), sv),
                count <= 10001 + si,
                provenance@.enabled == self@.track_provenance,
            decreases strata.len() - si,
        {
            assert(strata_v.take(si + 1).drop_last() =~= strata_v.take(si as int));
            assert(strata_v.take(si + 1).last() == strata_v[si as int]);
            let (acc, c) = self.evaluate_stratum(&strata[si], &store_facts, &all_acc, count, &mut provenance);
            all_acc = acc;
            count = c;
            si = si + 1;
        }
        assert(strata_v.take(si as int) =~= strata_v);
        EvaluationResult {
            facts: all_acc,
            iterations: count,
            evaluation_time_ns: elapsed_since(start),
            provenance,
        }
    }

    fn evaluate_stratum(
        &self,
        stratum: &Vec<Rule>,
        store: &Vec<Fact>,
        acc0: &Vec<Fact>,
        count: usize,
        provenance: &mut ProvenanceTracker,
    ) -> (r: (Vec<Fact>, usize))
        requires
            count < usize::MAX - 1,
        ensures
            (facts_view(r.0@), r.1 as nat) == eval_stratum(models(stratum@), facts_view(store@), facts_view(acc0@), count as nat),
            r.1 <= (if count <= 10000 { 10000 } else { count }) + 1,
            final(provenance)@.enabled == old(provenance)@.enabled,
    {
        let ghost rv = models(stratum@);
        let ghost sv = facts_view(store@);
        let ghost a0 = facts_view(acc0@);
        let mut acc = facts_clone(acc0);
        let mut heads: Vec<Fact> = Vec::new();
        let mut rules: Vec<Rule> = Vec::new();
        let mut i: usize = 0;
        assert(rv.take(0) =~= Seq::<VRule>::empty());
        assert(facts_view(heads@) =~= Seq::<VFact>::empty());
        assert(models(rules@) =~= Seq::<VRule>::empty());
        while i < stratum.len()
            invariant
                i <= stratum@.len(),
                rv == models(stratum@),
                facts_view(heads@) == fact_rule_heads(rv.take(i as int)),
                models(rules@) == body_rules(rv.take(i as int)),
                provenance@.enabled == old(provenance)@.enabled,
            decreases stratum.len() - i,
        {
            assert(rv.take(i + 1).drop_last() =~= rv.take(i as int));
            assert(rv.take(i + 1).last() == stratum@[i as int]@);
            let rule = &stratum[i];
            if rule.is_fact() {
                match atom_to_fact(&rule.head) {
                    Some(f) => {
                        provenance.record_base(f.clone());
                        let ghost hb = heads@;
                        let ghost fv = f@;
                        heads.push(f);
                        assert(facts_view(heads@) =~= facts_view(hb).push(fv));
                    },
                    None => {},
                }
            } else {
                let ghost rb = rules@;
                rules.push(rule_clone(rule));
                assert(models(rules@) =~= models(rb).push(rule@));
            }
            i = i + 1;
        }
        assert(rv.take(i as int) =~= rv);
        add_all_exec(&mut acc, &heads);
        let mut k: usize = 0;
        while k < store.len()
            invariant
                k <= store@.len(),
                provenance@.enabled == old(provenance)@.enabled,
            decreases store.len() - k,
        {
            provenance.record_base(store[k].clone());
            k = k + 1;
        }
        add_all_exec(&mut acc, store);
        proof {
            lemma_add_all_prefix(a0, fact_rule_heads(rv));
            lemma_add_all_prefix(add_all(a0, fact_rule_heads(rv)), sv);
        }
        let mut delta = facts_clone(&acc);
        if rules.len() == 0 {
            return (acc, count);
        }
        let ghost brv = models(rules@);
        let mut c = count;
        proof {
            lemma_rounds_count(brv, sv, facts_view(acc@), facts_view(delta@), count as nat);
        }
        let ghost goal = fixpoint_rounds(brv, sv, facts_view(acc@), facts_view(delta@), count as nat);
        loop
            invariant_except_break
                fixpoint_rounds(brv, sv, facts_view(acc@), facts_view(delta@), c as nat) == goal,
                c <= (if count <= 10000 { 10000 } else { count }),
            invariant
                brv == models(rules@),
                sv == facts_view(store@),
                rules@.len() > 0,
                count < usize::MAX - 1,
                provenance@.enabled == old(provenance)@.enabled,
            ensures
                (facts_view(acc@), c as nat) == goal,
                c <= (if count <= 10000 { 10000 } else { count }) + 1,
                provenance@.enabled == old(provenance)@.enabled,
            decreases (if c <= 10000 { 10001 - c } else { 0 }),
        {
            let ghost c_before = c as nat;
            c = c + 1;
            let mut all = facts_clone(store);
            let mut acc_copy = facts_clone(&acc);
            let ghost ab = facts_view(all@);
            all.append(&mut acc_copy);
            assert(facts_view(all@) =~= sv + facts_view(acc@));
            let mut derived: Vec<Fact> = Vec::new();
            let mut ri: usize = 0;
            assert(brv.take(0) =~= Seq::<VRule>::empty());
            assert(facts_view(derived@) =~= round_facts(brv.take(0), facts_view(all@), facts_view(delta@)));
            while ri < rules.len()
                invariant
                    ri <= rules@.len(),
                    brv == models(rules@),
                    facts_view(all@) == sv + facts_view(acc@),
                    facts_view(derived@) == round_facts(brv.take(ri as int), facts_view(all@), facts_view(delta@)),
                    provenance@.enabled == old(provenance)@.enabled,
                decreases rules.len() - ri,
            {
                assert(brv.take(ri + 1).drop_last() =~= brv.take(ri as int));
                assert(brv.take(ri + 1).last() == rules@[ri as int]@);
                let mut got = apply_rule_semi_naive(&rules[ri], &all, &delta);
                let mut g: usize = 0;
                while g < got.len()
                    invariant
                        g <= got@.len(),
                        ri < rules@.len(),
                        provenance@.enabled == old(provenance)@.enabled,
                    decreases got.len() - g,
                {
                    let mut premises: Vec<Fact> = Vec::new();
                    let mut p: usize = 0;
                    while p < delta.len() && p < rules[ri].body.len()
                        invariant
                            p <= delta@.len(),
                            ri < rules@.len(),
                        decreases delta.len() - p,
                    {
                        premises.push(delta[p].clone());
                        p = p + 1;
                    }
                    provenance.record_derived(got[g].clone(), rules[ri].head.predicate.clone(), ri, premises);
                    g = g + 1;
                }
                let ghost db = facts_view(derived@);
                let ghost gv = facts_view(got@);
                derived.append(&mut got);
                assert(facts_view(derived@) =~= db + gv);
                ri = ri + 1;
            }
            assert(brv.take(ri as int) =~= brv);
            let new_delta = fresh_exec(&derived, &acc);
            assert(fixpoint_rounds(brv, sv, facts_view(acc@), facts_view(delta@), c_before) == goal);
            if new_delta.len() == 0 {
                break;
            }
            if c > 10000 {
                break;
            }
            let mut add = facts_clone(&new_delta);
            let ghost accb = facts_view(acc@);
            let ghost nv = facts_view(add@);
            acc.append(&mut add);
            assert(facts_view(acc@) =~= accb + nv);
            delta = new_delta;
        }
        (acc, c)
    }
}

/// The fresh facts among derived ones.
pub(crate) fn fresh_exec(derived: &Vec<Fact>, acc: &Vec<Fact>) -> (r: Vec<Fact>)
    ensures
        facts_view(r@) == fresh_facts(facts_view(derived@), facts_view(acc@)),
{
    let ghost dv = facts_view(derived@);
    let mut out: Vec<Fact> = Vec::new();
    let mut i: usize = 0;
    assert(facts_view(out@) =~= fresh_facts(dv.take(0), facts_view(acc@)));
    while i < derived.len()
        invariant
            i <= derived@.len(),
            dv == facts_view(derived@),
            facts_view(out@) == fresh_facts(dv.take(i as int), facts_view(acc@)),
        decreases derived.len() - i,
    {
        assert(dv.take(i + 1).drop_last() =~= dv.take(i as int));
        assert(dv.take(i + 1).last() == derived@[i as int]@);
        if !fact_in(acc, &derived[i]) && !fact_in(&out, &derived[i]) {
            let ghost ob = facts_view(out@);
            out.push(derived[i].clone());
            assert(facts_view(out@) =~= ob.push(derived@[i as int]@));
        }
        i = i + 1;
    }
    assert(dv.take(i as int) =~= dv);
    out
}

/// Add facts in order, each unless an equal one is there.
pub(crate) fn add_all_exec(acc: &mut Vec<Fact>, fs: &Vec<Fact>)
    ensures
        facts_view(final(acc)@) == add_all(facts_view(old(acc)@), facts_view(fs@)),
{
    let ghost a0 = facts_view(acc@);
    let ghost fv = facts_view(fs@);
    let mut i: usize = 0;
    assert(fv.take(0) =~= Seq::<VFact>::empty());
    while i < fs.len()
        invariant
            i <= fs@.len(),
            fv == facts_view(fs@),
            facts_view(acc@) == add_all(a0, fv.take(i as int)),
        decreases fs.len() - i,
    {
        assert(fv.take(i + 1).drop_last() =~= fv.take(i as int));
        assert(fv.take(i + 1).last() == fs@[i as int]@);
        if !fact_in(acc, &fs[i]) {
            let ghost ab = facts_view(acc@);
            acc.push(fs[i].clone());
            assert(facts_view(acc@) =~= ab.push(fs@[i as int]@));
        }
        i = i + 1;
    }
    assert(fv.take(i as int) =~= fv);
}

proof fn lemma_add_all_prefix(s: Seq<VFact>, fs: Seq<VFact>)
    ensures
        add_all(s, fs).len() >= s.len(),
        add_all(s, fs).take(s.len() as int) == s,
    decreases fs.len(),
{
    if fs.len() > 0 {
        lemma_add_all_prefix(s, fs.drop_last());
        let a = add_all(s, fs.drop_last());
        if !a.contains(fs.last()) {
            assert(a.push(fs.last()).take(s.len() as int) =~= a.take(s.len() as int));
        }
    } else {
        assert(s.take(s.len() as int) =~= s);
    }
}

proof fn lemma_strata_count(rules: Seq<VRule>)
    ensures
        strata_spec(rules).len() <= rules.len() + 1,
{
    lemma_assign_bounded(rules);
    let a = assign_strata(rules);
    if a.len() > 0 {
        lemma_max_member(a);
    }
}

/// What is added is there afterwards, and so is what was there.
proof fn lemma_add_all_has(s: Seq<VFact>, fs: Seq<VFact>, x: VFact)
    ensures
        (s.contains(x) || fs.contains(x)) ==> add_all(s, fs).contains(x),
    decreases fs.len(),
{
    if fs.len() > 0 {
        let rest = fs.drop_last();
        lemma_add_all_has(s, rest, x);
        let a = add_all(s, rest);
        if s.contains(x) || fs.contains(x) {
            if !(s.contains(x) || rest.contains(x)) {
                let p = choose|p: int| 0 <= p < fs.len() && fs[p] == x;
                if p < rest.len() {
                    assert(rest[p] == x);
                }
                assert(x == fs.last());
            }
            if a.contains(x) && !a.contains(fs.last()) {
                let p = choose|p: int| 0 <= p < a.len() && a[p] == x;
                assert(a.push(fs.last())[p] == x);
            }
            if x == fs.last() && !a.contains(x) {
                assert(a.push(x)[a.len() as int] == x);
            }
        }
    }
}

/// The rules of a stratum hold every rule of that stratum, marked with it.
proof fn lemma_in_stratum_has(rules: Seq<VRule>, a: Seq<(Seq<char>, nat)>, s: nat, i: int)
    requires
        0 <= i < rules.len(),
        rule_stratum(a, rules[i]) == s,
    ensures
        in_stratum(rules, a, s).contains(VRule { stratum: s, ..rules[i] }),
    decreases rules.len(),
{
    let rest = rules.drop_last();
    let r = in_stratum(rest, a, s);
    if i < rules.len() - 1 {
        assert(rest[i] == rules[i]);
        lemma_in_stratum_has(rest, a, s, i);
        let p = choose|p: int| 0 <= p < r.len() && r[p] == VRule { stratum: s, ..rules[i] };
        if rule_stratum(a, rules.last()) == s {
            assert(r.push(VRule { stratum: s, ..rules.last() })[p] == VRule { stratum: s, ..rules[i] });
        }
    } else {
        assert(r.push(VRule { stratum: s, ..rules.last() })[r.len() as int] == VRule { stratum: s, ..rules[i] });
    }
}

/// The rules with a body hold every rule with a body.
proof fn lemma_body_rules_has(rules: Seq<VRule>, x: VRule)
    requires
        rules.contains(x),
        x.body.len() > 0,
    ensures
        body_rules(rules).contains(x),
    decreases rules.len(),
{
    let rest = rules.drop_last();
    let r = body_rules(rest);
    let p = choose|p: int| 0 <= p < rules.len() && rules[p] == x;
    if p < rules.len() - 1 {
        assert(rest[p] == x);
        lemma_body_rules_has(rest, x);
        let q = choose|q: int| 0 <= q < r.len() && r[q] == x;
        if rules.last().body.len() > 0 {
            assert(r.push(rules.last())[q] == x);
        }
    } else {
        assert(r.push(rules.last())[r.len() as int] == x);
    }
}

/// The heads of fact rules hold the head of every ground fact rule.
proof fn lemma_fact_heads_has(rules: Seq<VRule>, x: VRule, f: VFact)
    requires
        rules.contains(x),
        x.body.len() == 0,
        atom_fact(x.head) == Some(f),
    ensures
        fact_rule_heads(rules).contains(f),
    decreases rules.len(),
{
    let rest = rules.drop_last();
    let r = fact_rule_heads(rest);
    let p = choose|p: int| 0 <= p < rules.len() && rules[p] == x;
    if p < rules.len() - 1 {
        assert(rest[p] == x);
        lemma_fact_heads_has(rest, x, f);
        let q = choose|q: int| 0 <= q < r.len() && r[q] == f;
        if rules.last().body.len() == 0 && atom_fact(rules.last().head) is Some {
            assert(r.push(atom_fact(rules.last().head)->0)[q] == f);
        }
    } else {
        assert(r.push(f)[r.len() as int] == f);
    }
}

/// The rules with a body all have one.
proof fn lemma_body_rules_nonempty(rules: Seq<VRule>, k: int)
    requires
        0 <= k < body_rules(rules).len(),
    ensures
        body_rules(rules)[k].body.len() > 0,
    decreases rules.len(),
{
    if rules.len() > 0 {
        let r = body_rules(rules.drop_last());
        if k < r.len() {
            lemma_body_rules_nonempty(rules.drop_last(), k);
            if rules.last().body.len() > 0 {
                assert(r.push(rules.last())[k] == r[k]);
            }
        }
    }
}

/// What an addition holds was there or was added.
proof fn lemma_add_all_from(s: Seq<VFact>, fs: Seq<VFact>, x: VFact)
    requires
        add_all(s, fs).contains(x),
    ensures
        s.contains(x) || fs.contains(x),
    decreases fs.len(),
{
    if fs.len() > 0 {
        let rest = fs.drop_last();
        let a = add_all(s, rest);
        if a.contains(x) {
            lemma_add_all_from(s, rest, x);
            if rest.contains(x) {
                let p = choose|p: int| 0 <= p < rest.len() && rest[p] == x;
                assert(fs[p] == x);
            }
        } else {
            let p = choose|p: int| 0 <= p < a.push(fs.last()).len() && a.push(fs.last())[p] == x;
            if p < a.len() {
                assert(a[p] == x);
            }
            assert(fs[fs.len() - 1] == x);
        }
    }
}

/// Every rule of a stratum is a rule of the program, marked with the stratum.
proof fn lemma_in_stratum_from(rules: Seq<VRule>, a: Seq<(Seq<char>, nat)>, s: nat, x: VRule)
    requires
        in_stratum(rules, a, s).contains(x),
    ensures
        exists|i: int|
            #![trigger rules[i]]
            0 <= i < rules.len() && x == (VRule { stratum: s, ..rules[i] }) && rule_stratum(a, rules[i]) == s,
    decreases rules.len(),
{
    if rules.len() > 0 {
        let rest = rules.drop_last();
        let r = in_stratum(rest, a, s);
        if r.contains(x) {
            lemma_in_stratum_from(rest, a, s, x);
            let i = choose|i: int|
                #![trigger rest[i]]
                0 <= i < rest.len() && x == (VRule { stratum: s, ..rest[i] }) && rule_stratum(a, rest[i]) == s;
            assert(rules[i] == rest[i]);
        } else {
            let p = choose|p: int| 0 <= p < in_stratum(rules, a, s).len() && in_stratum(rules, a, s)[p] == x;
            if rule_stratum(a, rules.last()) == s {
                if p < r.len() {
                    assert(r[p] == x);
                }
                assert(x == VRule { stratum: s, ..rules[rules.len() - 1] });
            } else {
                assert(r[p] == x);
            }
        }
    }
}

/// A rule with a body is a rule of the stratum.
proof fn lemma_body_rules_from(rules: Seq<VRule>, x: VRule)
    requires
        body_rules(rules).contains(x),
    ensures
        rules.contains(x),
    decreases rules.len(),
{
    if rules.len() > 0 {
        let rest = rules.drop_last();
        let r = body_rules(rest);
        if r.contains(x) {
            lemma_body_rules_from(rest, x);
            let p = choose|p: int| 0 <= p < rest.len() && rest[p] == x;
            assert(rules[p] == x);
        } else {
            let p = choose|p: int| 0 <= p < body_rules(rules).len() && body_rules(rules)[p] == x;
            if rules.last().body.len() > 0 {
                if p < r.len() {
                    assert(r[p] == x);
                }
                assert(rules[rules.len() - 1] == x);
            } else {
                assert(r[p] == x);
            }
        }
    }
}

/// A head of a fact rule comes from a ground fact rule.
proof fn lemma_fact_heads_from(rules: Seq<VRule>, f: VFact)
    requires
        fact_rule_heads(rules).contains(f),
    ensures
        exists|x: VRule| #[trigger] rules.contains(x) && x.body.len() == 0 && atom_fact(x.head) == Some(f),
    decreases rules.len(),
{
    if rules.len() > 0 {
        let rest = rules.drop_last();
        let r = fact_rule_heads(rest);
        if r.contains(f) {
            lemma_fact_heads_from(rest, f);
            let x = choose|x: VRule| #[trigger] rest.contains(x) && x.body.len() == 0 && atom_fact(x.head) == Some(f);
            let p = choose|p: int| 0 <= p < rest.len() && rest[p] == x;
            assert(rules[p] == x);
            assert(rules.contains(x));
        } else {
            let last = rules.last();
            let p = choose|p: int| 0 <= p < fact_rule_heads(rules).len() && fact_rule_heads(rules)[p] == f;
            if last.body.len() == 0 && atom_fact(last.head) is Some {
                if p < r.len() {
                    assert(r[p] == f);
                }
                assert(atom_fact(last.head) == Some(f));
                assert(rules[rules.len() - 1] == last);
                assert(rules.contains(last));
            } else {
                assert(r[p] == f);
            }
        }
    }
}

/// A ground fact rule has its head as a consequence over any facts.
proof fn lemma_fact_rule_consequence(r: VRule, facts: Seq<VFact>, f: VFact)
    requires
        r.body.len() == 0,
        atom_fact(r.head) == Some(f),
    ensures
        crate::datalog::fixpoint::consequences(r, facts).contains(f),
{
    let m0 = Map::<Seq<char>, crate::types::VValue>::empty();
    assert(delta_join(r.body, -1, facts, facts) == seq![m0]);
    assert(apply_terms(m0, r.head.terms) =~= r.head.terms);
    assert(seq![m0].drop_last() =~= Seq::<Map<Seq<char>, crate::types::VValue>>::empty());
    assert(head_facts(r.head, Seq::<Map<Seq<char>, crate::types::VValue>>::empty()) == Seq::<VFact>::empty());
    assert(seq![m0].last() == m0);
    assert(head_facts(r.head, seq![m0])[0] == f);
}

/// What evaluation has after the first `k` strata: the facts and the round
/// counter.
pub open spec fn strata_prefix(rules: Seq<VRule>, store: Seq<VFact>, k: int) -> (Seq<VFact>, nat) {
    eval_strata(strata_spec(rules).take(k), store)
}

proof fn lemma_prefix_step(rules: Seq<VRule>, store: Seq<VFact>, k: int)
    requires
        0 <= k < strata_spec(rules).len(),
    ensures
        strata_prefix(rules, store, k + 1) == eval_stratum(
            strata_spec(rules)[k],
            store,
            strata_prefix(rules, store, k).0,
            strata_prefix(rules, store, k).1,
        ),
{
    let strata = strata_spec(rules);
    assert(strata.take(k + 1).drop_last() =~= strata.take(k));
    assert(strata.take(k + 1).last() == strata[k]);
}

/// A stratum keeps what it was given and the store, counts its rounds, and
/// adds only facts with the head predicate of one of its rules.
proof fn lemma_stratum_adds(st: Seq<VRule>, store: Seq<VFact>, acc0: Seq<VFact>, count: nat, f: VFact)
    ensures
        eval_stratum(st, store, acc0, count).1 >= count,
        (acc0.contains(f) || store.contains(f)) ==> eval_stratum(st, store, acc0, count).0.contains(f),
        eval_stratum(st, store, acc0, count).0.contains(f) && !acc0.contains(f) && !store.contains(f) ==> exists|j: int|
            0 <= j < st.len() && (#[trigger] st[j]).head.pred == f.pred,
{
    let heads = fact_rule_heads(st);
    let acc = add_all(add_all(acc0, heads), store);
    let brules = body_rules(st);
    let res = eval_stratum(st, store, acc0, count);
    lemma_add_all_has(acc0, heads, f);
    lemma_add_all_has(add_all(acc0, heads), store, f);
    if brules.len() > 0 {
        crate::datalog::fixpoint::lemma_rounds_count(brules, store, acc, acc, count);
        crate::datalog::fixpoint::lemma_rounds_keep(brules, store, acc, acc, count);
    }
    if res.0.contains(f) && !acc0.contains(f) && !store.contains(f) {
        if acc.contains(f) {
            lemma_add_all_from(add_all(acc0, heads), store, f);
            lemma_add_all_from(acc0, heads, f);
            lemma_fact_heads_from(st, f);
            let x = choose|x: VRule| #[trigger] st.contains(x) && x.body.len() == 0 && atom_fact(x.head) == Some(f);
            let j = choose|j: int| 0 <= j < st.len() && st[j] == x;
            assert(st[j].head.pred == f.pred);
        } else {
            assert(brules.len() > 0);
            crate::datalog::fixpoint::lemma_rounds_heads(brules, store, acc, acc, count, f);
            let i = choose|i: int| 0 <= i < brules.len() && (#[trigger] brules[i]).head.pred == f.pred;
            assert(brules.contains(brules[i]));
            lemma_body_rules_from(st, brules[i]);
            let j = choose|j: int| 0 <= j < st.len() && st[j] == brules[i];
            assert(st[j].head.pred == f.pred);
        }
    }
}

/// From one prefix of the strata to a longer one, evaluation keeps its
/// facts and its round counter only grows.
proof fn lemma_prefix_grow(rules: Seq<VRule>, store: Seq<VFact>, k: int, m: int, f: VFact)
    requires
        0 <= k <= m <= strata_spec(rules).len(),
    ensures
        strata_prefix(rules, store, k).1 <= strata_prefix(rules, store, m).1,
        strata_prefix(rules, store, k).0.contains(f) ==> strata_prefix(rules, store, m).0.contains(f),
    decreases m,
{
    if k < m {
        lemma_prefix_grow(rules, store, k, m - 1, f);
        lemma_prefix_step(rules, store, m - 1);
        let p = strata_prefix(rules, store, m - 1);
        lemma_stratum_adds(strata_spec(rules)[m - 1], store, p.0, p.1, f);
    }
}

/// A fact that the strata from `k` on add is in the store or has the head
/// predicate of a rule in one of those strata.
proof fn lemma_prefix_origin(rules: Seq<VRule>, store: Seq<VFact>, k: int, m: int, f: VFact)
    requires
        0 <= k <= m <= strata_spec(rules).len(),
        strata_prefix(rules, store, m).0.contains(f),
        !strata_prefix(rules, store, k).0.contains(f),
        !store.contains(f),
    ensures
        exists|i: int|
            0 <= i < rules.len() && (#[trigger] rules[i]).head.pred == f.pred && rule_stratum(assign_strata(rules), rules[i])
                >= k,
    decreases m,
{
    if k < m {
        let a = assign_strata(rules);
        let strata = strata_spec(rules);
        let p = strata_prefix(rules, store, m - 1);
        lemma_prefix_step(rules, store, m - 1);
        if p.0.contains(f) {
            lemma_prefix_origin(rules, store, k, m - 1, f);
        } else {
            let st = strata[m - 1];
            lemma_stratum_adds(st, store, p.0, p.1, f);
            let j = choose|j: int| 0 <= j < st.len() && (#[trigger] st[j]).head.pred == f.pred;
            assert(st == in_stratum(rules, a, (m - 1) as nat));
            assert(st.contains(st[j]));
            lemma_in_stratum_from(rules, a, (m - 1) as nat, st[j]);
            let i = choose|i: int|
                #![trigger rules[i]]
                0 <= i < rules.len() && st[j] == (VRule { stratum: (m - 1) as nat, ..rules[i] }) && rule_stratum(a, rules[i])
                    == (m - 1) as nat;
            assert(rules[i].head.pred == f.pred);
        }
    }
}

/// The rules of one stratum are closed over what evaluation has after it,
/// when the rounds stop before the limit.
proof fn lemma_stratum_closed(rules: Seq<VRule>, store: Seq<VFact>, k: int, i: int, f: VFact)
    requires
        0 <= i < rules.len(),
        0 <= k < strata_spec(rules).len(),
        rule_stratum(assign_strata(rules), rules[i]) == k,
        strata_prefix(rules, store, k + 1).1 <= 10000,
        crate::datalog::fixpoint::consequences(rules[i], store + strata_prefix(rules, store, k + 1).0).contains(f),
    ensures
        strata_prefix(rules, store, k + 1).0.contains(f),
{
    let a = assign_strata(rules);
    let strata = strata_spec(rules);
    let st = strata[k];
    assert(st == in_stratum(rules, a, k as nat));
    let prev = strata_prefix(rules, store, k);
    lemma_prefix_step(rules, store, k);
    let heads = fact_rule_heads(st);
    let acc = add_all(add_all(prev.0, heads), store);
    let brules = body_rules(st);
    let res = strata_prefix(rules, store, k + 1);
    lemma_in_stratum_has(rules, a, k as nat, i);
    let x = VRule { stratum: k as nat, ..rules[i] };
    assert(st.contains(x));
    assert forall|g: VFact| #[trigger] store.contains(g) implies acc.contains(g) by {
        lemma_add_all_has(add_all(prev.0, heads), store, g);
    }
    let fin = store + res.0;
    if rules[i].body.len() == 0 {
        let ts = rules[i].head.terms;
        let m0 = Map::<Seq<char>, crate::types::VValue>::empty();
        assert(delta_join(rules[i].body, -1, fin, fin) == seq![m0]);
        assert(apply_terms(m0, ts) =~= ts);
        let hf = head_facts(rules[i].head, seq![m0]);
        assert(hf.contains(f));
        assert(seq![m0].drop_last() =~= Seq::<Map<Seq<char>, crate::types::VValue>>::empty());
        assert(head_facts(rules[i].head, Seq::<Map<Seq<char>, crate::types::VValue>>::empty()) == Seq::<VFact>::empty());
        assert(seq![m0].last() == m0);
        assert(all_ground(ts));
        assert(atom_fact(x.head) == Some(f));
        lemma_fact_heads_has(st, x, f);
        lemma_add_all_has(prev.0, heads, f);
        lemma_add_all_has(add_all(prev.0, heads), store, f);
        assert(acc.contains(f));
        if brules.len() > 0 {
            crate::datalog::fixpoint::lemma_rounds_keep(brules, store, acc, acc, prev.1);
        }
    } else {
        lemma_body_rules_has(st, x);
        let j = choose|j: int| 0 <= j < brules.len() && brules[j] == x;
        assert forall|q: int| 0 <= q < brules.len() implies (#[trigger] brules[q]).body.len() > 0 by {
            lemma_body_rules_nonempty(st, q);
        }
        assert(crate::datalog::fixpoint::consequences(brules[j], fin) == crate::datalog::fixpoint::consequences(rules[i], fin));
        crate::datalog::fixpoint::law_rounds_fixpoint(brules, store, acc, prev.1, j, f);
    }
}

/// The fixpoint law of evaluation: once the strata have settled, when the
/// evaluation stops before the round limit, every head instance of a rule
/// whose body holds over the store and the result (a negated atom matching
/// none of them) is in the result.
pub proof fn law_evaluation_fixpoint(rules: Seq<VRule>, store: Seq<VFact>, i: int, f: VFact)
    requires
        strata_settled(rules),
        evaluate_spec(rules, store).1 <= 10000,
        0 <= i < rules.len(),
        crate::datalog::fixpoint::consequences(rules[i], store + evaluate_spec(rules, store).0).contains(f),
    ensures
        evaluate_spec(rules, store).0.contains(f),
{
    let a = assign_strata(rules);
    let strata = strata_spec(rules);
    let n = strata.len() as int;
    assert(strata.take(n) =~= strata);
    let res = evaluate_spec(rules, store);
    assert(strata_prefix(rules, store, n) == res);
    lemma_assign_bounded(rules);
    lemma_lookup_bounded_loose(a, rules[i].head.pred, rules.len() + 1);
    let k = rule_stratum(a, rules[i]) as int;
    assert(k < n);
    let e = strata_prefix(rules, store, k + 1);
    lemma_prefix_grow(rules, store, k + 1, n, f);
    let fin = store + res.0;
    let small = store + e.0;
    assert forall|g: VFact| #[trigger] small.contains(g) implies fin.contains(g) by {
        let q = choose|q: int| 0 <= q < small.len() && small[q] == g;
        if q < store.len() {
            assert(fin[q] == g);
        } else {
            assert(e.0[q - store.len()] == g);
            lemma_prefix_grow(rules, store, k + 1, n, g);
            let w = choose|w: int| 0 <= w < res.0.len() && res.0[w] == g;
            assert(fin[store.len() + w] == g);
        }
    }
    assert forall|g: VFact, j: int|
        #[trigger] fin.contains(g) && !small.contains(g) && 0 <= j < rules[i].body.len() implies (
        #[trigger] rules[i].body[j]).pred != g.pred by {
        let q = choose|q: int| 0 <= q < fin.len() && fin[q] == g;
        if q < store.len() {
            assert(small[q] == g);
        } else {
            assert(res.0[q - store.len()] == g);
            if store.contains(g) {
                let w = choose|w: int| 0 <= w < store.len() && store[w] == g;
                assert(small[w] == g);
            }
            if e.0.contains(g) {
                let w = choose|w: int| 0 <= w < e.0.len() && e.0[w] == g;
                assert(small[store.len() + w] == g);
            }
            lemma_prefix_origin(rules, store, k + 1, n, g);
            let i2 = choose|i2: int|
                0 <= i2 < rules.len() && (#[trigger] rules[i2]).head.pred == g.pred && rule_stratum(a, rules[i2]) >= k + 1;
            if rules[i].body[j].pred == g.pred {
                law_stratified_negation(rules, i, j, i2);
            }
        }
    }
    crate::datalog::fixpoint::lemma_consequences_local(rules[i], fin, small, f);
    lemma_stratum_closed(rules, store, k, i, f);
}

/// A fact that the first `m` strata have is in the store or is supported
/// by a rule over any facts holding the store and the result.
proof fn lemma_prefix_sound(rules: Seq<VRule>, store: Seq<VFact>, m: int, f: VFact)
    requires
        strata_settled(rules),
        0 <= m <= strata_spec(rules).len(),
        strata_prefix(rules, store, m).0.contains(f),
    ensures
        store.contains(f) || crate::datalog::fixpoint::supported(rules, store + evaluate_spec(rules, store).0, f),
    decreases m,
{
    let a = assign_strata(rules);
    let strata = strata_spec(rules);
    let n = strata.len() as int;
    if m == 0 {
        assert(strata.take(0) =~= Seq::<Seq<VRule>>::empty());
    } else {
        let k = m - 1;
        let prev = strata_prefix(rules, store, k);
        if prev.0.contains(f) {
            lemma_prefix_sound(rules, store, k, f);
        } else if !store.contains(f) {
            lemma_prefix_step(rules, store, k);
            assert(strata.take(n) =~= strata);
            let res = evaluate_spec(rules, store);
            assert(strata_prefix(rules, store, n) == res);
            let fin = store + res.0;
            let st = strata[k];
            assert(st == in_stratum(rules, a, k as nat));
            let heads = fact_rule_heads(st);
            let acc = add_all(add_all(prev.0, heads), store);
            let brules = body_rules(st);
            let cur = strata_prefix(rules, store, m);
            if acc.contains(f) {
                lemma_add_all_from(add_all(prev.0, heads), store, f);
                lemma_add_all_from(prev.0, heads, f);
                lemma_fact_heads_from(st, f);
                let x = choose|x: VRule| #[trigger] st.contains(x) && x.body.len() == 0 && atom_fact(x.head) == Some(f);
                lemma_in_stratum_from(rules, a, k as nat, x);
                let i = choose|i: int|
                    #![trigger rules[i]]
                    0 <= i < rules.len() && x == (VRule { stratum: k as nat, ..rules[i] }) && rule_stratum(a, rules[i])
                        == k as nat;
                lemma_fact_rule_consequence(rules[i], fin, f);
                assert(crate::datalog::fixpoint::supported(rules, fin, f));
            } else {
                assert(brules.len() > 0);
                assert forall|g: VFact| #[trigger] (store + cur.0).contains(g) implies fin.contains(g) by {
                    let q = choose|q: int| 0 <= q < (store + cur.0).len() && (store + cur.0)[q] == g;
                    if q < store.len() {
                        assert(fin[q] == g);
                    } else {
                        assert(cur.0[q - store.len()] == g);
                        lemma_prefix_grow(rules, store, m, n, g);
                        let w = choose|w: int| 0 <= w < res.0.len() && res.0[w] == g;
                        assert(fin[store.len() + w] == g);
                    }
                }
                assert forall|ii: int| 0 <= ii < brules.len() implies (#[trigger] brules[ii]).body.len() > 0
                    && crate::datalog::fixpoint::neg_apart(brules[ii].body, fin, store + acc) by {
                    lemma_body_rules_nonempty(st, ii);
                    assert(brules.contains(brules[ii]));
                    lemma_body_rules_from(st, brules[ii]);
                    lemma_in_stratum_from(rules, a, k as nat, brules[ii]);
                    let i = choose|i: int|
                        #![trigger rules[i]]
                        0 <= i < rules.len() && brules[ii] == (VRule { stratum: k as nat, ..rules[i] }) && rule_stratum(
                            a,
                            rules[i],
                        ) == k as nat;
                    assert forall|g: VFact, jj: int|
                        #[trigger] fin.contains(g) && !(store + acc).contains(g) && 0 <= jj < brules[ii].body.len()
                            && brules[ii].body[jj].negated implies (#[trigger] brules[ii].body[jj]).pred != g.pred by {
                        let q = choose|q: int| 0 <= q < fin.len() && fin[q] == g;
                        if q < store.len() {
                            assert((store + acc)[q] == g);
                        } else {
                            assert(res.0[q - store.len()] == g);
                            if store.contains(g) {
                                let w = choose|w: int| 0 <= w < store.len() && store[w] == g;
                                assert((store + acc)[w] == g);
                            }
                            if prev.0.contains(g) {
                                lemma_add_all_has(prev.0, heads, g);
                                lemma_add_all_has(add_all(prev.0, heads), store, g);
                                let w = choose|w: int| 0 <= w < acc.len() && acc[w] == g;
                                assert((store + acc)[store.len() + w] == g);
                            }
                            lemma_prefix_origin(rules, store, k, n, g);
                            let i2 = choose|i2: int|
                                0 <= i2 < rules.len() && (#[trigger] rules[i2]).head.pred == g.pred && rule_stratum(a, rules[i2])
                                    >= k;
                            if brules[ii].body[jj].pred == g.pred {
                                law_stratified_negation(rules, i, jj, i2);
                            }
                        }
                    }
                }
                crate::datalog::fixpoint::lemma_rounds_supported(brules, store, acc, acc, prev.1, fin, f);
                let j = choose|j: int| 0 <= j < brules.len() && #[trigger] crate::datalog::fixpoint::consequences(brules[j], fin).contains(f);
                assert(brules.contains(brules[j]));
                lemma_body_rules_from(st, brules[j]);
                lemma_in_stratum_from(rules, a, k as nat, brules[j]);
                let i = choose|i: int|
                    #![trigger rules[i]]
                    0 <= i < rules.len() && brules[j] == (VRule { stratum: k as nat, ..rules[i] }) && rule_stratum(a, rules[i])
                        == k as nat;
                assert(crate::datalog::fixpoint::consequences(rules[i], fin) == crate::datalog::fixpoint::consequences(brules[j], fin));
                assert(crate::datalog::fixpoint::supported(rules, fin, f));
            }
        }
    }
}

/// Soundness of evaluation: once the strata have settled, every fact of the
/// result is in the store or is the head instance of one of the rules under
/// a binding of its body over the store and the result (a negated atom
/// matching none of them).
pub proof fn law_evaluation_sound(rules: Seq<VRule>, store: Seq<VFact>, f: VFact)
    requires
        strata_settled(rules),
        evaluate_spec(rules, store).0.contains(f),
    ensures
        store.contains(f) || crate::datalog::fixpoint::supported(rules, store + evaluate_spec(rules, store).0, f),
{
    let strata = strata_spec(rules);
    let n = strata.len() as int;
    assert(strata.take(n) =~= strata);
    assert(strata_prefix(rules, store, n) == evaluate_spec(rules, store));
    lemma_prefix_sound(rules, store, n, f);
}

} // verus!
