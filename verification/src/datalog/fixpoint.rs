//! The fixpoint and soundness of evaluation: when the rounds of a stratum
//! stop because nothing new is derived, the facts are closed under the
//! stratum's rules; facts whose predicates a body does not name change none
//! of its bindings; and every fact the rounds add is the head of a rule
//! instance over the facts.
use vstd::prelude::*;
use crate::datalog::types::{VAtom, VRule, compatible};
use crate::datalog::aggregation::{Bindings, apply_atom, extend_all, extend_one};
use crate::datalog::unification::atom_fact_unifier;
use crate::datalog::evaluation::{has_match, keep_unmatched, delta_join, head_facts, delta_rounds, semi_naive_facts,
    round_facts, fresh_facts, fixpoint_rounds, atom_fact};
use crate::facts::VFact;

verus! {

/// Every element of `a` is an element of `b`.
pub open spec fn within<A>(a: Seq<A>, b: Seq<A>) -> bool {
    forall|x: A| #[trigger] a.contains(x) ==> b.contains(x)
}

/// What one application of a rule derives when every atom of its body is
/// matched against all the facts (and a negated atom must match none).
pub open spec fn consequences(r: VRule, facts: Seq<VFact>) -> Seq<VFact> {
    head_facts(r.head, delta_join(r.body, -1, facts, facts))
}

/// The facts a positive atom at position `i` is matched against.
pub open spec fn source(k: int, all: Seq<VFact>, delta: Seq<VFact>, i: int) -> Seq<VFact> {
    if i == k {
        delta
    } else {
        all
    }
}

/// The bindings of a body as `delta_join` gives them, with the facts that
/// negated atoms must not match given apart.
pub open spec fn joined(body: Seq<VAtom>, k: int, all: Seq<VFact>, delta: Seq<VFact>, neg: Seq<VFact>) -> Seq<Bindings>
    decreases body.len(),
{
    if body.len() == 0 {
        seq![Map::empty()]
    } else {
        let prev = joined(body.drop_last(), k, all, delta, neg);
        let a = body.last();
        if a.negated {
            keep_unmatched(a, prev, neg)
        } else {
            extend_all(a, prev, source(k, all, delta, body.len() - 1))
        }
    }
}

proof fn lemma_joined_delta_join(body: Seq<VAtom>, k: int, all: Seq<VFact>, delta: Seq<VFact>)
    ensures
        delta_join(body, k, all, delta) == joined(body, k, all, delta, all),
    decreases body.len(),
{
    if body.len() > 0 {
        lemma_joined_delta_join(body.drop_last(), k, all, delta);
    }
}

/// The binding a fact gives an atom under a binding, if they match.
pub open spec fn step(a: VAtom, m: Bindings, f: VFact) -> Option<Bindings> {
    match atom_fact_unifier(apply_atom(m, a), f) {
        Some(b) => if compatible(m, b) {
            Some(m.union_prefer_right(b))
        } else {
            None
        },
        None => None,
    }
}

proof fn lemma_extend_one_has(a: VAtom, m: Bindings, fs: Seq<VFact>, x: Bindings)
    ensures
        extend_one(a, m, fs).contains(x) <==> exists|i: int| 0 <= i < fs.len() && step(a, m, #[trigger] fs[i]) == Some(x),
    decreases fs.len(),
{
    if fs.len() > 0 {
        let rest = fs.drop_last();
        lemma_extend_one_has(a, m, rest, x);
        if extend_one(a, m, fs).contains(x) {
            if extend_one(a, m, rest).contains(x) {
                let i = choose|i: int| 0 <= i < rest.len() && step(a, m, #[trigger] rest[i]) == Some(x);
                assert(fs[i] == rest[i]);
            } else {
                assert(step(a, m, fs[fs.len() - 1]) == Some(x));
            }
        }
        if exists|i: int| 0 <= i < fs.len() && step(a, m, #[trigger] fs[i]) == Some(x) {
            let i = choose|i: int| 0 <= i < fs.len() && step(a, m, #[trigger] fs[i]) == Some(x);
            if i < fs.len() - 1 {
                assert(rest[i] == fs[i]);
                assert(extend_one(a, m, rest).contains(x));
                let s = extend_one(a, m, rest);
                let j = choose|j: int| 0 <= j < s.len() && s[j] == x;
                match atom_fact_unifier(apply_atom(m, a), fs.last()) {
                    Some(b) => if compatible(m, b) {
                        assert(extend_one(a, m, fs)[j] == x);
                    } else {
                    },
                    None => {},
                }
            } else {
                assert(extend_one(a, m, fs).last() == x);
            }
        }
    }
}

proof fn lemma_extend_one_mono(a: VAtom, m: Bindings, fs: Seq<VFact>, gs: Seq<VFact>, x: Bindings)
    requires
        within(fs, gs),
        extend_one(a, m, fs).contains(x),
    ensures
        extend_one(a, m, gs).contains(x),
{
    lemma_extend_one_has(a, m, fs, x);
    let i = choose|i: int| 0 <= i < fs.len() && step(a, m, #[trigger] fs[i]) == Some(x);
    assert(fs.contains(fs[i]));
    assert(gs.contains(fs[i]));
    let j = choose|j: int| 0 <= j < gs.len() && gs[j] == fs[i];
    assert(step(a, m, gs[j]) == Some(x));
    lemma_extend_one_has(a, m, gs, x);
}

proof fn lemma_extend_all_has(a: VAtom, subs: Seq<Bindings>, fs: Seq<VFact>, x: Bindings)
    ensures
        extend_all(a, subs, fs).contains(x) <==> exists|j: int| 0 <= j < subs.len() && extend_one(a, #[trigger] subs[j], fs).contains(x),
    decreases subs.len(),
{
    if subs.len() > 0 {
        let rest = subs.drop_last();
        lemma_extend_all_has(a, rest, fs, x);
        let l = extend_all(a, rest, fs);
        let e = extend_one(a, subs.last(), fs);
        assert(extend_all(a, subs, fs) == l + e);
        if (l + e).contains(x) {
            let p = choose|p: int| 0 <= p < (l + e).len() && (l + e)[p] == x;
            if p < l.len() {
                assert(l[p] == x);
                let j = choose|j: int| 0 <= j < rest.len() && extend_one(a, #[trigger] rest[j], fs).contains(x);
                assert(subs[j] == rest[j]);
            } else {
                assert(e[p - l.len()] == x);
                assert(e.contains(x));
            }
        }
        if exists|j: int| 0 <= j < subs.len() && extend_one(a, #[trigger] subs[j], fs).contains(x) {
            let j = choose|j: int| 0 <= j < subs.len() && extend_one(a, #[trigger] subs[j], fs).contains(x);
            if j < subs.len() - 1 {
                assert(rest[j] == subs[j]);
                assert(l.contains(x));
                let p = choose|p: int| 0 <= p < l.len() && l[p] == x;
                assert((l + e)[p] == x);
            } else {
                let p = choose|p: int| 0 <= p < e.len() && e[p] == x;
                assert((l + e)[l.len() + p] == x);
            }
        }
    }
}

proof fn lemma_keep_has(a: VAtom, subs: Seq<Bindings>, neg: Seq<VFact>, x: Bindings)
    ensures
        keep_unmatched(a, subs, neg).contains(x) <==> subs.contains(x) && !has_match(apply_atom(x, a), neg),
    decreases subs.len(),
{
    if subs.len() > 0 {
        let rest = subs.drop_last();
        lemma_keep_has(a, rest, neg, x);
        let k = keep_unmatched(a, subs, neg);
        let kr = keep_unmatched(a, rest, neg);
        if k.contains(x) {
            let p = choose|p: int| 0 <= p < k.len() && k[p] == x;
            if p < kr.len() {
                assert(kr[p] == x);
                let q = choose|q: int| 0 <= q < rest.len() && rest[q] == x;
                assert(subs[q] == x);
            } else {
                assert(x == subs.last());
                assert(subs[subs.len() - 1] == x);
            }
        }
        if subs.contains(x) && !has_match(apply_atom(x, a), neg) {
            let q = choose|q: int| 0 <= q < subs.len() && subs[q] == x;
            if q < subs.len() - 1 {
                assert(rest[q] == x);
                let p = choose|p: int| 0 <= p < kr.len() && kr[p] == x;
                if !has_match(apply_atom(subs.last(), a), neg) {
                    assert(k[p] == x);
                }
            } else {
                assert(k.last() == x);
            }
        }
    }
}

proof fn lemma_has_match_mono(x: VAtom, n1: Seq<VFact>, n2: Seq<VFact>)
    requires
        within(n1, n2),
        has_match(x, n1),
    ensures
        has_match(x, n2),
{
    let i = choose|i: int| 0 <= i < n1.len() && (#[trigger] atom_fact_unifier(x, n1[i])) is Some;
    assert(n1.contains(n1[i]));
    let j = choose|j: int| 0 <= j < n2.len() && n2[j] == n1[i];
    assert(atom_fact_unifier(x, n2[j]) is Some);
}

/// More facts to match positive atoms against, and fewer for negated
/// atoms, give more bindings.
proof fn lemma_joined_mono(
    body: Seq<VAtom>,
    k1: int,
    a1: Seq<VFact>,
    d1: Seq<VFact>,
    n1: Seq<VFact>,
    k2: int,
    a2: Seq<VFact>,
    d2: Seq<VFact>,
    n2: Seq<VFact>,
    x: Bindings,
)
    requires
        forall|i: int| 0 <= i < body.len() ==> within(#[trigger] source(k1, a1, d1, i), source(k2, a2, d2, i)),
        within(n2, n1),
        joined(body, k1, a1, d1, n1).contains(x),
    ensures
        joined(body, k2, a2, d2, n2).contains(x),
    decreases body.len(),
{
    if body.len() > 0 {
        let a = body.last();
        let pre = body.drop_last();
        let p1 = joined(pre, k1, a1, d1, n1);
        let p2 = joined(pre, k2, a2, d2, n2);
        if a.negated {
            lemma_keep_has(a, p1, n1, x);
            lemma_keep_has(a, p2, n2, x);
            assert forall|i: int| 0 <= i < pre.len() implies within(#[trigger] source(k1, a1, d1, i), source(k2, a2, d2, i)) by {
                assert(within(source(k1, a1, d1, i), source(k2, a2, d2, i)));
            }
            lemma_joined_mono(pre, k1, a1, d1, n1, k2, a2, d2, n2, x);
            if has_match(apply_atom(x, a), n2) {
                lemma_has_match_mono(apply_atom(x, a), n2, n1);
            }
        } else {
            let s1 = source(k1, a1, d1, body.len() - 1);
            let s2 = source(k2, a2, d2, body.len() - 1);
            assert(within(s1, s2));
            lemma_extend_all_has(a, p1, s1, x);
            let j = choose|j: int| 0 <= j < p1.len() && extend_one(a, #[trigger] p1[j], s1).contains(x);
            let m = p1[j];
            assert(p1.contains(m));
            assert forall|i: int| 0 <= i < pre.len() implies within(#[trigger] source(k1, a1, d1, i), source(k2, a2, d2, i)) by {
                assert(within(source(k1, a1, d1, i), source(k2, a2, d2, i)));
            }
            lemma_joined_mono(pre, k1, a1, d1, n1, k2, a2, d2, n2, m);
            lemma_extend_one_mono(a, m, s1, s2, x);
            let q = choose|q: int| 0 <= q < p2.len() && p2[q] == m;
            lemma_extend_all_has(a, p2, s2, x);
        }
    }
}

/// A binding over all the current facts uses only earlier facts, or some
/// newest fact at some positive position.
proof fn lemma_split(
    body: Seq<VAtom>,
    cur: Seq<VFact>,
    prev: Seq<VFact>,
    delta: Seq<VFact>,
    neg: Seq<VFact>,
    x: Bindings,
)
    requires
        forall|f: VFact| #[trigger] cur.contains(f) ==> prev.contains(f) || delta.contains(f),
        within(prev, cur),
        joined(body, -1, cur, cur, neg).contains(x),
    ensures
        joined(body, -1, prev, prev, neg).contains(x) || exists|k: int|
            0 <= k < body.len() && #[trigger] joined(body, k, cur, delta, neg).contains(x),
    decreases body.len(),
{
    if body.len() > 0 {
        let a = body.last();
        let pre = body.drop_last();
        let n = body.len();
        let pc = joined(pre, -1, cur, cur, neg);
        if a.negated {
            lemma_keep_has(a, pc, neg, x);
            lemma_split(pre, cur, prev, delta, neg, x);
            lemma_keep_has(a, joined(pre, -1, prev, prev, neg), neg, x);
            if exists|k: int| 0 <= k < pre.len() && #[trigger] joined(pre, k, cur, delta, neg).contains(x) {
                let k = choose|k: int| 0 <= k < pre.len() && #[trigger] joined(pre, k, cur, delta, neg).contains(x);
                lemma_keep_has(a, joined(pre, k, cur, delta, neg), neg, x);
                assert(joined(body, k, cur, delta, neg).contains(x));
            }
        } else {
            assert(source(-1, cur, cur, n - 1) == cur);
            lemma_extend_all_has(a, pc, cur, x);
            let j = choose|j: int| 0 <= j < pc.len() && extend_one(a, #[trigger] pc[j], cur).contains(x);
            let m = pc[j];
            assert(pc.contains(m));
            lemma_extend_one_has(a, m, cur, x);
            let i = choose|i: int| 0 <= i < cur.len() && step(a, m, #[trigger] cur[i]) == Some(x);
            let f = cur[i];
            assert(cur.contains(f));
            if prev.contains(f) {
                let pi = choose|pi: int| 0 <= pi < prev.len() && prev[pi] == f;
                assert(step(a, m, prev[pi]) == Some(x));
                lemma_split(pre, cur, prev, delta, neg, m);
                if joined(pre, -1, prev, prev, neg).contains(m) {
                    lemma_extend_one_has(a, m, prev, x);
                    let pp = joined(pre, -1, prev, prev, neg);
                    let q = choose|q: int| 0 <= q < pp.len() && pp[q] == m;
                    lemma_extend_all_has(a, pp, prev, x);
                    assert(source(-1, prev, prev, n - 1) == prev);
                } else {
                    let k = choose|k: int| 0 <= k < pre.len() && #[trigger] joined(pre, k, cur, delta, neg).contains(m);
                    let pk = joined(pre, k, cur, delta, neg);
                    assert(source(k, cur, delta, n - 1) == cur);
                    let q = choose|q: int| 0 <= q < pk.len() && pk[q] == m;
                    lemma_extend_all_has(a, pk, cur, x);
                    assert(joined(body, k, cur, delta, neg).contains(x));
                }
            } else {
                assert(delta.contains(f));
                let di = choose|di: int| 0 <= di < delta.len() && delta[di] == f;
                assert(step(a, m, delta[di]) == Some(x));
                lemma_extend_one_has(a, m, delta, x);
                let kk = n - 1;
                assert forall|ii: int| 0 <= ii < pre.len() implies within(#[trigger] source(-1, cur, cur, ii), source(kk, cur, delta, ii)) by {
                    assert(source(kk, cur, delta, ii) == cur);
                }
                lemma_joined_mono(pre, -1, cur, cur, neg, kk, cur, delta, neg, m);
                let pk = joined(pre, kk, cur, delta, neg);
                let q = choose|q: int| 0 <= q < pk.len() && pk[q] == m;
                assert(source(kk, cur, delta, n - 1) == delta);
                lemma_extend_all_has(a, pk, delta, x);
                assert(joined(body, kk, cur, delta, neg).contains(x));
            }
        }
    }
}

/// The fact a head gives under a binding, when it is ground.
pub open spec fn head_of(head: VAtom, m: Bindings) -> Option<VFact> {
    let t = crate::datalog::types::apply_terms(m, head.terms);
    if crate::datalog::types::all_ground(t) {
        Some(VFact { pred: head.pred, args: crate::datalog::unification::ground_args(t) })
    } else {
        None
    }
}

proof fn lemma_head_facts_has(head: VAtom, subs: Seq<Bindings>, f: VFact)
    ensures
        head_facts(head, subs).contains(f) <==> exists|j: int| 0 <= j < subs.len() && head_of(head, #[trigger] subs[j]) == Some(f),
    decreases subs.len(),
{
    if subs.len() > 0 {
        let rest = subs.drop_last();
        lemma_head_facts_has(head, rest, f);
        let h = head_facts(head, subs);
        let hr = head_facts(head, rest);
        if h.contains(f) {
            let p = choose|p: int| 0 <= p < h.len() && h[p] == f;
            if p < hr.len() {
                assert(hr[p] == f);
                let j = choose|j: int| 0 <= j < rest.len() && head_of(head, #[trigger] rest[j]) == Some(f);
                assert(subs[j] == rest[j]);
            } else {
                assert(head_of(head, subs[subs.len() - 1]) == Some(f));
            }
        }
        if exists|j: int| 0 <= j < subs.len() && head_of(head, #[trigger] subs[j]) == Some(f) {
            let j = choose|j: int| 0 <= j < subs.len() && head_of(head, #[trigger] subs[j]) == Some(f);
            if j < subs.len() - 1 {
                assert(rest[j] == subs[j]);
                let p = choose|p: int| 0 <= p < hr.len() && hr[p] == f;
                if head_of(head, subs.last()) is Some {
                    assert(h[p] == f);
                } else {
                    assert(h[p] == f);
                }
            } else {
                assert(h.last() == f);
            }
        }
    }
}

/// A head instance under a binding that some body gives is among the heads.
proof fn lemma_head_of_member(head: VAtom, subs: Seq<Bindings>, m: Bindings, f: VFact)
    requires
        subs.contains(m),
        head_of(head, m) == Some(f),
    ensures
        head_facts(head, subs).contains(f),
{
    let j = choose|j: int| 0 <= j < subs.len() && subs[j] == m;
    lemma_head_facts_has(head, subs, f);
}

proof fn lemma_delta_rounds_has(r: VRule, all: Seq<VFact>, delta: Seq<VFact>, n: int, k: int, f: VFact)
    requires
        0 <= k < n,
        head_facts(r.head, delta_join(r.body, k, all, delta)).contains(f),
    ensures
        delta_rounds(r, all, delta, n).contains(f),
    decreases n,
{
    let prev = delta_rounds(r, all, delta, n - 1);
    let h = head_facts(r.head, delta_join(r.body, n - 1, all, delta));
    assert(delta_rounds(r, all, delta, n) == prev + h);
    if k < n - 1 {
        lemma_delta_rounds_has(r, all, delta, n - 1, k, f);
        let p = choose|p: int| 0 <= p < prev.len() && prev[p] == f;
        assert((prev + h)[p] == f);
    } else {
        let p = choose|p: int| 0 <= p < h.len() && h[p] == f;
        assert((prev + h)[prev.len() + p] == f);
    }
}

proof fn lemma_round_facts_has(rules: Seq<VRule>, all: Seq<VFact>, delta: Seq<VFact>, i: int, f: VFact)
    requires
        0 <= i < rules.len(),
        semi_naive_facts(rules[i], all, delta).contains(f),
    ensures
        round_facts(rules, all, delta).contains(f),
    decreases rules.len(),
{
    let prev = round_facts(rules.drop_last(), all, delta);
    let s = semi_naive_facts(rules.last(), all, delta);
    assert(round_facts(rules, all, delta) == prev + s);
    if i < rules.len() - 1 {
        assert(rules.drop_last()[i] == rules[i]);
        lemma_round_facts_has(rules.drop_last(), all, delta, i, f);
        let p = choose|p: int| 0 <= p < prev.len() && prev[p] == f;
        assert((prev + s)[p] == f);
    } else {
        let p = choose|p: int| 0 <= p < s.len() && s[p] == f;
        assert((prev + s)[prev.len() + p] == f);
    }
}

proof fn lemma_fresh_has(derived: Seq<VFact>, acc: Seq<VFact>, f: VFact)
    ensures
        derived.contains(f) ==> acc.contains(f) || fresh_facts(derived, acc).contains(f),
        fresh_facts(derived, acc).contains(f) ==> derived.contains(f),
    decreases derived.len(),
{
    if derived.len() > 0 {
        let rest = derived.drop_last();
        lemma_fresh_has(rest, acc, f);
        let r = fresh_facts(rest, acc);
        let fr = fresh_facts(derived, acc);
        if derived.contains(f) && !acc.contains(f) {
            let p = choose|p: int| 0 <= p < derived.len() && derived[p] == f;
            if p < rest.len() {
                assert(rest[p] == f);
                let q = choose|q: int| 0 <= q < r.len() && r[q] == f;
                if !(acc.contains(derived.last()) || r.contains(derived.last())) {
                    assert(fr[q] == f);
                }
            } else {
                if r.contains(f) {
                } else {
                    assert(fr.last() == f);
                }
            }
        }
        if fr.contains(f) {
            let p = choose|p: int| 0 <= p < fr.len() && fr[p] == f;
            if p < r.len() {
                assert(r[p] == f);
                let q = choose|q: int| 0 <= q < rest.len() && rest[q] == f;
                assert(derived[q] == f);
            } else {
                assert(derived[derived.len() - 1] == f);
            }
        }
    }
}

/// What a rule derives with the newest facts as delta at some body position
/// is among what the round derives.
proof fn lemma_round_member(rules: Seq<VRule>, i: int, all: Seq<VFact>, delta: Seq<VFact>, k: int, m: Bindings, f: VFact)
    requires
        0 <= i < rules.len(),
        rules[i].body.len() > 0,
        0 <= k < rules[i].body.len(),
        joined(rules[i].body, k, all, delta, all).contains(m),
        head_of(rules[i].head, m) == Some(f),
    ensures
        round_facts(rules, all, delta).contains(f),
{
    let r = rules[i];
    lemma_joined_delta_join(r.body, k, all, delta);
    lemma_head_of_member(r.head, delta_join(r.body, k, all, delta), m, f);
    lemma_delta_rounds_has(r, all, delta, r.body.len() as int, k, f);
    lemma_round_facts_has(rules, all, delta, i, f);
}

/// What the rules give over facts `p`, negated atoms checked against `n`.
pub open spec fn derivable(rules: Seq<VRule>, p: Seq<VFact>, n: Seq<VFact>, f: VFact) -> bool {
    exists|i: int, m: Bindings|
        0 <= i < rules.len() && #[trigger] joined(rules[i].body, -1, p, p, n).contains(m) && #[trigger] head_of(
            rules[i].head,
            m,
        ) == Some(f)
}

/// The rounds keep every fact they had.
pub(crate) proof fn lemma_rounds_keep(rules: Seq<VRule>, store: Seq<VFact>, acc: Seq<VFact>, delta: Seq<VFact>, count: nat)
    ensures
        within(acc, fixpoint_rounds(rules, store, acc, delta, count).0),
{
    lemma_rounds_grow(rules, store, acc, delta, count);
}

proof fn lemma_rounds_grow(rules: Seq<VRule>, store: Seq<VFact>, acc: Seq<VFact>, delta: Seq<VFact>, count: nat)
    ensures
        within(acc, fixpoint_rounds(rules, store, acc, delta, count).0),
    decreases (if count <= 10000 { 10001 - count } else { 0 }),
{
    let c1 = count + 1;
    let new = fresh_facts(round_facts(rules, store + acc, delta), acc);
    if !(new.len() == 0 || c1 > 10000) {
        lemma_rounds_grow(rules, store, acc + new, new, c1);
        assert forall|x: VFact| #[trigger] acc.contains(x) implies (acc + new).contains(x) by {
            let p = choose|p: int| 0 <= p < acc.len() && acc[p] == x;
            assert((acc + new)[p] == x);
        }
    }
}

/// The invariant of the rounds: everything derivable from the earlier facts
/// is already accumulated or derived in the coming round; the current facts
/// are the earlier ones and the newest ones.
proof fn lemma_rounds_closed(
    rules: Seq<VRule>,
    store: Seq<VFact>,
    acc: Seq<VFact>,
    delta: Seq<VFact>,
    count: nat,
    prev: Seq<VFact>,
    fin: Seq<VFact>,
)
    requires
        forall|i: int| 0 <= i < rules.len() ==> (#[trigger] rules[i]).body.len() > 0,
        fin == store + fixpoint_rounds(rules, store, acc, delta, count).0,
        within(store, acc),
        forall|f: VFact| #[trigger] (store + acc).contains(f) ==> prev.contains(f) || delta.contains(f),
        within(prev, store + acc),
        forall|f: VFact| derivable(rules, prev, fin, f) ==> acc.contains(f) || round_facts(rules, store + acc, delta).contains(f),
        fixpoint_rounds(rules, store, acc, delta, count).1 <= 10000,
    ensures
        forall|f: VFact| derivable(rules, fin, fin, f) ==> fixpoint_rounds(rules, store, acc, delta, count).0.contains(f),
    decreases (if count <= 10000 { 10001 - count } else { 0 }),
{
    let c1 = count + 1;
    let cur = store + acc;
    let rf = round_facts(rules, cur, delta);
    let new = fresh_facts(rf, acc);
    let res = fixpoint_rounds(rules, store, acc, delta, count);
    lemma_rounds_grow(rules, store, acc, delta, count);
    assert(within(cur, fin)) by {
        assert forall|x: VFact| #[trigger] cur.contains(x) implies fin.contains(x) by {
            let p = choose|p: int| 0 <= p < cur.len() && cur[p] == x;
            if p < store.len() {
                assert(fin[p] == x);
            } else {
                assert(acc[p - store.len()] == x);
                assert(acc.contains(x));
                assert(res.0.contains(x));
                let q = choose|q: int| 0 <= q < res.0.len() && res.0[q] == x;
                assert(fin[store.len() + q] == x);
            }
        }
    }
    // Everything derivable from the current facts (negations against the
    // final facts) is accumulated or derived in this round.
    assert forall|f: VFact| derivable(rules, cur, fin, f) implies acc.contains(f) || rf.contains(f) by {
        let (i, m) = choose|i: int, m: Bindings|
            0 <= i < rules.len() && #[trigger] joined(rules[i].body, -1, cur, cur, fin).contains(m)
                && #[trigger] head_of(rules[i].head, m) == Some(f);
        lemma_split(rules[i].body, cur, prev, delta, fin, m);
        if joined(rules[i].body, -1, prev, prev, fin).contains(m) {
            assert(derivable(rules, prev, fin, f));
        } else {
            let k = choose|k: int| 0 <= k < rules[i].body.len() && #[trigger] joined(rules[i].body, k, cur, delta, fin).contains(m);
            assert forall|ii: int| 0 <= ii < rules[i].body.len() implies within(#[trigger] source(k, cur, delta, ii), source(k, cur, delta, ii)) by {}
            lemma_joined_mono(rules[i].body, k, cur, delta, fin, k, cur, delta, cur, m);
            lemma_round_member(rules, i, cur, delta, k, m, f);
        }
    }
    if new.len() == 0 || c1 > 10000 {
        assert(res.0 == acc);
        assert(fin == cur);
        assert forall|f: VFact| derivable(rules, fin, fin, f) implies res.0.contains(f) by {
            if !acc.contains(f) {
                lemma_fresh_has(rf, acc, f);
            }
        }
    } else {
        let acc2 = acc + new;
        assert forall|x: VFact| #[trigger] acc.contains(x) implies acc2.contains(x) by {
            let p = choose|p: int| 0 <= p < acc.len() && acc[p] == x;
            assert(acc2[p] == x);
        }
        assert forall|x: VFact| #[trigger] (store + acc2).contains(x) implies cur.contains(x) || new.contains(x) by {
            let p = choose|p: int| 0 <= p < (store + acc2).len() && (store + acc2)[p] == x;
            if p < store.len() + acc.len() {
                assert(cur[p] == x);
            } else {
                assert(new[p - store.len() - acc.len()] == x);
            }
        }
        assert forall|x: VFact| #[trigger] cur.contains(x) implies (store + acc2).contains(x) by {
            let p = choose|p: int| 0 <= p < cur.len() && cur[p] == x;
            assert((store + acc2)[p] == x);
        }
        assert forall|x: VFact| #[trigger] store.contains(x) implies acc2.contains(x) by {
            assert(acc.contains(x));
        }
        assert forall|f: VFact| derivable(rules, cur, fin, f) implies acc2.contains(f) || round_facts(
            rules,
            store + acc2,
            new,
        ).contains(f) by {
            if !acc.contains(f) {
                lemma_fresh_has(rf, acc, f);
                let p = choose|p: int| 0 <= p < new.len() && new[p] == f;
                assert(acc2[acc.len() + p] == f);
            }
        }
        lemma_rounds_closed(rules, store, acc2, new, c1, cur, fin);
    }
}

/// The fixpoint of a stratum's rounds: when they start with every fact as
/// delta and stop before the round limit, every head instance of one of the
/// rules whose body holds over the store and the accumulated facts is among
/// the accumulated facts.
pub proof fn law_rounds_fixpoint(rules: Seq<VRule>, store: Seq<VFact>, acc: Seq<VFact>, count: nat, i: int, f: VFact)
    requires
        forall|j: int| 0 <= j < rules.len() ==> (#[trigger] rules[j]).body.len() > 0,
        within(store, acc),
        fixpoint_rounds(rules, store, acc, acc, count).1 <= 10000,
        0 <= i < rules.len(),
        consequences(rules[i], store + fixpoint_rounds(rules, store, acc, acc, count).0).contains(f),
    ensures
        fixpoint_rounds(rules, store, acc, acc, count).0.contains(f),
{
    let fin = store + fixpoint_rounds(rules, store, acc, acc, count).0;
    let cur = store + acc;
    let empty = Seq::<VFact>::empty();
    assert forall|x: VFact| #[trigger] cur.contains(x) implies empty.contains(x) || acc.contains(x) by {
        let p = choose|p: int| 0 <= p < cur.len() && cur[p] == x;
        if p < store.len() {
            assert(store[p] == x);
            assert(store.contains(x));
        } else {
            assert(acc[p - store.len()] == x);
        }
    }
    assert forall|g: VFact| derivable(rules, empty, fin, g) implies acc.contains(g) || round_facts(rules, cur, acc).contains(
        g,
    ) by {
        let (j, m) = choose|j: int, m: Bindings|
            0 <= j < rules.len() && #[trigger] joined(rules[j].body, -1, empty, empty, fin).contains(m)
                && #[trigger] head_of(rules[j].head, m) == Some(g);
        assert forall|ii: int| 0 <= ii < rules[j].body.len() implies within(#[trigger] source(-1, empty, empty, ii), source(0, cur, acc, ii)) by {}
        lemma_rounds_grow(rules, store, acc, acc, count);
        assert(within(cur, fin)) by {
            assert forall|x: VFact| #[trigger] cur.contains(x) implies fin.contains(x) by {
                let p = choose|p: int| 0 <= p < cur.len() && cur[p] == x;
                if p < store.len() {
                    assert(fin[p] == x);
                } else {
                    let r0 = fixpoint_rounds(rules, store, acc, acc, count).0;
                    assert(acc.contains(x));
                    let q = choose|q: int| 0 <= q < r0.len() && r0[q] == x;
                    assert(fin[store.len() + q] == x);
                }
            }
        }
        lemma_joined_mono(rules[j].body, -1, empty, empty, fin, 0, cur, acc, cur, m);
        lemma_round_member(rules, j, cur, acc, 0, m, g);
    }
    assert(within(empty, cur));
    lemma_rounds_closed(rules, store, acc, acc, count, empty, fin);
    lemma_joined_delta_join(rules[i].body, -1, fin, fin);
    lemma_head_facts_has(rules[i].head, delta_join(rules[i].body, -1, fin, fin), f);
    let j = choose|j: int| 0 <= j < delta_join(rules[i].body, -1, fin, fin).len() && head_of(
        rules[i].head,
        #[trigger] delta_join(rules[i].body, -1, fin, fin)[j],
    ) == Some(f);
    let m = delta_join(rules[i].body, -1, fin, fin)[j];
    assert(joined(rules[i].body, -1, fin, fin, fin).contains(m));
    assert(derivable(rules, fin, fin, f));
}

proof fn lemma_round_facts_from(rules: Seq<VRule>, all: Seq<VFact>, delta: Seq<VFact>, f: VFact)
    requires
        round_facts(rules, all, delta).contains(f),
    ensures
        exists|i: int| 0 <= i < rules.len() && #[trigger] semi_naive_facts(rules[i], all, delta).contains(f),
    decreases rules.len(),
{
    let prev = round_facts(rules.drop_last(), all, delta);
    let s = semi_naive_facts(rules.last(), all, delta);
    assert(round_facts(rules, all, delta) == prev + s);
    let p = choose|p: int| 0 <= p < (prev + s).len() && (prev + s)[p] == f;
    if p < prev.len() {
        assert(prev[p] == f);
        lemma_round_facts_from(rules.drop_last(), all, delta, f);
        let i = choose|i: int| 0 <= i < rules.drop_last().len() && #[trigger] semi_naive_facts(rules.drop_last()[i], all, delta).contains(f);
        assert(rules.drop_last()[i] == rules[i]);
    } else {
        assert(s[p - prev.len()] == f);
        assert(semi_naive_facts(rules[rules.len() - 1], all, delta).contains(f));
    }
}

proof fn lemma_delta_rounds_from(r: VRule, all: Seq<VFact>, delta: Seq<VFact>, n: int, f: VFact)
    requires
        delta_rounds(r, all, delta, n).contains(f),
    ensures
        exists|k: int| 0 <= k < n && #[trigger] head_facts(r.head, delta_join(r.body, k, all, delta)).contains(f),
    decreases n,
{
    if n > 0 {
        let prev = delta_rounds(r, all, delta, n - 1);
        let h = head_facts(r.head, delta_join(r.body, n - 1, all, delta));
        assert(delta_rounds(r, all, delta, n) == prev + h);
        let p = choose|p: int| 0 <= p < (prev + h).len() && (prev + h)[p] == f;
        if p < prev.len() {
            assert(prev[p] == f);
            lemma_delta_rounds_from(r, all, delta, n - 1, f);
        } else {
            assert(h[p - prev.len()] == f);
            assert(h.contains(f));
        }
    }
}

/// No atom of a body has the predicate of a fact that `big` holds and
/// `small` lacks.
pub open spec fn apart(body: Seq<VAtom>, big: Seq<VFact>, small: Seq<VFact>) -> bool {
    forall|f: VFact, j: int|
        #[trigger] big.contains(f) && !small.contains(f) && 0 <= j < body.len() ==> (#[trigger] body[j]).pred != f.pred
}

/// Facts whose predicate no atom of a body names change none of its
/// bindings.
proof fn lemma_joined_local(body: Seq<VAtom>, big: Seq<VFact>, small: Seq<VFact>, x: Bindings)
    requires
        apart(body, big, small),
        within(small, big),
        joined(body, -1, big, big, big).contains(x),
    ensures
        joined(body, -1, small, small, small).contains(x),
    decreases body.len(),
{
    if body.len() > 0 {
        let a = body.last();
        let pre = body.drop_last();
        let n = body.len();
        assert(apart(pre, big, small)) by {
            assert forall|f: VFact, j: int|
                #[trigger] big.contains(f) && !small.contains(f) && 0 <= j < pre.len() implies (#[trigger] pre[j]).pred
                != f.pred by {
                assert(pre[j] == body[j]);
            }
        }
        let pb = joined(pre, -1, big, big, big);
        let ps = joined(pre, -1, small, small, small);
        if a.negated {
            lemma_keep_has(a, pb, big, x);
            lemma_joined_local(pre, big, small, x);
            if has_match(apply_atom(x, a), small) {
                lemma_has_match_mono(apply_atom(x, a), small, big);
            }
            lemma_keep_has(a, ps, small, x);
        } else {
            assert(source(-1, big, big, n - 1) == big);
            lemma_extend_all_has(a, pb, big, x);
            let jj = choose|jj: int| 0 <= jj < pb.len() && extend_one(a, #[trigger] pb[jj], big).contains(x);
            let m = pb[jj];
            assert(pb.contains(m));
            lemma_joined_local(pre, big, small, m);
            lemma_extend_one_has(a, m, big, x);
            let i = choose|i: int| 0 <= i < big.len() && step(a, m, #[trigger] big[i]) == Some(x);
            let f = big[i];
            assert(big.contains(f));
            assert(f.pred == a.pred);
            if !small.contains(f) {
                assert(body[n - 1] == a);
                assert(false);
            }
            let q = choose|q: int| 0 <= q < small.len() && small[q] == f;
            assert(step(a, m, small[q]) == Some(x));
            lemma_extend_one_has(a, m, small, x);
            assert(ps.contains(m));
            let r = choose|r: int| 0 <= r < ps.len() && ps[r] == m;
            lemma_extend_all_has(a, ps, small, x);
            assert(source(-1, small, small, n - 1) == small);
        }
    }
}

/// What a rule gives over more facts it also gives over fewer, when the
/// extra facts have predicates its body does not name.
pub(crate) proof fn lemma_consequences_local(r: VRule, big: Seq<VFact>, small: Seq<VFact>, f: VFact)
    requires
        apart(r.body, big, small),
        within(small, big),
        consequences(r, big).contains(f),
    ensures
        consequences(r, small).contains(f),
{
    let db = delta_join(r.body, -1, big, big);
    lemma_joined_delta_join(r.body, -1, big, big);
    lemma_head_facts_has(r.head, db, f);
    let j = choose|j: int| 0 <= j < db.len() && head_of(r.head, #[trigger] db[j]) == Some(f);
    let m = db[j];
    assert(db.contains(m));
    lemma_joined_local(r.body, big, small, m);
    lemma_joined_delta_join(r.body, -1, small, small);
    lemma_head_of_member(r.head, delta_join(r.body, -1, small, small), m, f);
}

/// A fact the rounds add has the head predicate of one of the rules.
pub(crate) proof fn lemma_rounds_heads(
    rules: Seq<VRule>,
    store: Seq<VFact>,
    acc: Seq<VFact>,
    delta: Seq<VFact>,
    count: nat,
    f: VFact,
)
    requires
        fixpoint_rounds(rules, store, acc, delta, count).0.contains(f),
        !acc.contains(f),
    ensures
        exists|i: int| 0 <= i < rules.len() && (#[trigger] rules[i]).head.pred == f.pred,
    decreases (if count <= 10000 { 10001 - count } else { 0 }),
{
    let c1 = count + 1;
    let cur = store + acc;
    let rf = round_facts(rules, cur, delta);
    let new = fresh_facts(rf, acc);
    if !(new.len() == 0 || c1 > 10000) {
        let acc2 = acc + new;
        if acc2.contains(f) {
            let p = choose|p: int| 0 <= p < acc2.len() && acc2[p] == f;
            if p < acc.len() {
                assert(acc[p] == f);
            }
            assert(new[p - acc.len()] == f);
            lemma_fresh_has(rf, acc, f);
            lemma_round_facts_from(rules, cur, delta, f);
            let i = choose|i: int| 0 <= i < rules.len() && #[trigger] semi_naive_facts(rules[i], cur, delta).contains(f);
            let r = rules[i];
            if r.body.len() == 0 {
                assert(atom_fact(r.head) is Some);
                assert(semi_naive_facts(r, cur, delta)[0] == f);
            } else {
                lemma_delta_rounds_from(r, cur, delta, r.body.len() as int, f);
                let k = choose|k: int| 0 <= k < r.body.len() && #[trigger] head_facts(r.head, delta_join(r.body, k, cur, delta)).contains(f);
                let dj = delta_join(r.body, k, cur, delta);
                lemma_head_facts_has(r.head, dj, f);
                let j = choose|j: int| 0 <= j < dj.len() && head_of(r.head, #[trigger] dj[j]) == Some(f);
            }
            assert(rules[i].head.pred == f.pred);
        } else {
            lemma_rounds_heads(rules, store, acc2, new, c1, f);
        }
    }
}

/// The rounds count at least one round.
pub(crate) proof fn lemma_rounds_count(rules: Seq<VRule>, store: Seq<VFact>, acc: Seq<VFact>, delta: Seq<VFact>, count: nat)
    ensures
        fixpoint_rounds(rules, store, acc, delta, count).1 > count,
    decreases (if count <= 10000 { 10001 - count } else { 0 }),
{
    let c1 = count + 1;
    let new = fresh_facts(round_facts(rules, store + acc, delta), acc);
    if !(new.len() == 0 || c1 > 10000) {
        lemma_rounds_count(rules, store, acc + new, new, c1);
    }
}

/// No negated atom of a body has the predicate of a fact that `big` holds
/// and `small` lacks.
pub open spec fn neg_apart(body: Seq<VAtom>, big: Seq<VFact>, small: Seq<VFact>) -> bool {
    forall|f: VFact, j: int|
        #[trigger] big.contains(f) && !small.contains(f) && 0 <= j < body.len() && body[j].negated ==> (
        #[trigger] body[j]).pred != f.pred
}

/// A binding found over some of the facts holds over all of them, when the
/// facts missing from those a negated atom was checked against have
/// predicates no negated atom names.
proof fn lemma_joined_lift(
    body: Seq<VAtom>,
    k: int,
    all: Seq<VFact>,
    delta: Seq<VFact>,
    neg: Seq<VFact>,
    fin: Seq<VFact>,
    x: Bindings,
)
    requires
        within(all, fin),
        within(delta, fin),
        within(neg, fin),
        neg_apart(body, fin, neg),
        joined(body, k, all, delta, neg).contains(x),
    ensures
        joined(body, -1, fin, fin, fin).contains(x),
    decreases body.len(),
{
    if body.len() > 0 {
        let a = body.last();
        let pre = body.drop_last();
        let n = body.len();
        assert(neg_apart(pre, fin, neg)) by {
            assert forall|f: VFact, j: int|
                #[trigger] fin.contains(f) && !neg.contains(f) && 0 <= j < pre.len() && pre[j].negated implies (
                #[trigger] pre[j]).pred != f.pred by {
                assert(pre[j] == body[j]);
            }
        }
        let p1 = joined(pre, k, all, delta, neg);
        let p2 = joined(pre, -1, fin, fin, fin);
        if a.negated {
            lemma_keep_has(a, p1, neg, x);
            lemma_joined_lift(pre, k, all, delta, neg, fin, x);
            let ax = apply_atom(x, a);
            if has_match(ax, fin) {
                let i = choose|i: int| 0 <= i < fin.len() && (#[trigger] atom_fact_unifier(ax, fin[i])) is Some;
                let g = fin[i];
                assert(fin.contains(g));
                assert(g.pred == a.pred);
                if !neg.contains(g) {
                    assert(body[n - 1] == a);
                    assert(false);
                }
                let q = choose|q: int| 0 <= q < neg.len() && neg[q] == g;
                assert(atom_fact_unifier(ax, neg[q]) is Some);
                assert(false);
            }
            lemma_keep_has(a, p2, fin, x);
        } else {
            let s1 = source(k, all, delta, n - 1);
            assert(within(s1, fin));
            lemma_extend_all_has(a, p1, s1, x);
            let jj = choose|jj: int| 0 <= jj < p1.len() && extend_one(a, #[trigger] p1[jj], s1).contains(x);
            let m = p1[jj];
            assert(p1.contains(m));
            lemma_joined_lift(pre, k, all, delta, neg, fin, m);
            lemma_extend_one_mono(a, m, s1, fin, x);
            let q = choose|q: int| 0 <= q < p2.len() && p2[q] == m;
            lemma_extend_all_has(a, p2, fin, x);
            assert(source(-1, fin, fin, n - 1) == fin);
        }
    }
}

/// Whether a fact is the head instance of one of the rules under a binding
/// of its body over the facts.
pub open spec fn supported(rules: Seq<VRule>, facts: Seq<VFact>, f: VFact) -> bool {
    exists|i: int| 0 <= i < rules.len() && #[trigger] consequences(rules[i], facts).contains(f)
}

/// A fact a round derives is a consequence of one of the rules over any
/// facts holding the round's facts, when the facts those hold beyond the
/// round's have predicates no negated atom names.
proof fn lemma_round_supported(rules: Seq<VRule>, cur: Seq<VFact>, delta: Seq<VFact>, fin: Seq<VFact>, f: VFact)
    requires
        forall|i: int| 0 <= i < rules.len() ==> (#[trigger] rules[i]).body.len() > 0 && neg_apart(rules[i].body, fin, cur),
        within(cur, fin),
        within(delta, fin),
        round_facts(rules, cur, delta).contains(f),
    ensures
        supported(rules, fin, f),
{
    lemma_round_facts_from(rules, cur, delta, f);
    let i = choose|i: int| 0 <= i < rules.len() && #[trigger] semi_naive_facts(rules[i], cur, delta).contains(f);
    let r = rules[i];
    assert(r.body.len() > 0 && neg_apart(r.body, fin, cur));
    lemma_delta_rounds_from(r, cur, delta, r.body.len() as int, f);
    let k = choose|k: int| 0 <= k < r.body.len() && #[trigger] head_facts(r.head, delta_join(r.body, k, cur, delta)).contains(f);
    let dj = delta_join(r.body, k, cur, delta);
    lemma_head_facts_has(r.head, dj, f);
    let j = choose|j: int| 0 <= j < dj.len() && head_of(r.head, #[trigger] dj[j]) == Some(f);
    let m = dj[j];
    lemma_joined_delta_join(r.body, k, cur, delta);
    assert(joined(r.body, k, cur, delta, cur).contains(m));
    lemma_joined_lift(r.body, k, cur, delta, cur, fin, m);
    lemma_joined_delta_join(r.body, -1, fin, fin);
    lemma_head_of_member(r.head, delta_join(r.body, -1, fin, fin), m, f);
    assert(consequences(rules[i], fin).contains(f));
}

/// Every fact the rounds add is supported by a rule over any facts holding
/// the store and the result, when the facts those hold beyond the store
/// and the accumulated ones have predicates no negated atom names.
pub(crate) proof fn lemma_rounds_supported(
    rules: Seq<VRule>,
    store: Seq<VFact>,
    acc: Seq<VFact>,
    delta: Seq<VFact>,
    count: nat,
    fin: Seq<VFact>,
    f: VFact,
)
    requires
        forall|i: int| 0 <= i < rules.len() ==> (#[trigger] rules[i]).body.len() > 0 && neg_apart(rules[i].body, fin, store + acc),
        within(store + fixpoint_rounds(rules, store, acc, delta, count).0, fin),
        fixpoint_rounds(rules, store, acc, delta, count).0.contains(f),
        within(delta, acc),
    ensures
        acc.contains(f) || supported(rules, fin, f),
    decreases (if count <= 10000 { 10001 - count } else { 0 }),
{
    let c1 = count + 1;
    let cur = store + acc;
    let rf = round_facts(rules, cur, delta);
    let new = fresh_facts(rf, acc);
    if !(new.len() == 0 || c1 > 10000) {
        let acc2 = acc + new;
        assert forall|x: VFact| #[trigger] new.contains(x) implies acc2.contains(x) by {
            let p = choose|p: int| 0 <= p < new.len() && new[p] == x;
            assert(acc2[acc.len() + p] == x);
        }
        assert forall|x: VFact| #[trigger] cur.contains(x) implies (store + acc2).contains(x) by {
            let p = choose|p: int| 0 <= p < cur.len() && cur[p] == x;
            assert((store + acc2)[p] == x);
        }
        assert forall|i: int| 0 <= i < rules.len() implies (#[trigger] rules[i]).body.len() > 0 && neg_apart(
            rules[i].body,
            fin,
            store + acc2,
        ) by {
            assert(neg_apart(rules[i].body, fin, cur));
        }
        lemma_rounds_supported(rules, store, acc2, new, c1, fin, f);
        if acc2.contains(f) && !acc.contains(f) {
            let p = choose|p: int| 0 <= p < acc2.len() && acc2[p] == f;
            if p < acc.len() {
                assert(acc[p] == f);
            }
            assert(new.contains(f));
            lemma_fresh_has(rf, acc, f);
            lemma_rounds_grow(rules, store, acc, delta, count);
            let res = fixpoint_rounds(rules, store, acc, delta, count).0;
            assert(within(cur, fin)) by {
                assert forall|x: VFact| #[trigger] cur.contains(x) implies fin.contains(x) by {
                    let q = choose|q: int| 0 <= q < cur.len() && cur[q] == x;
                    if q < store.len() {
                        assert((store + res)[q] == x);
                    } else {
                        assert(acc[q - store.len()] == x);
                        assert(acc.contains(x));
                        let w = choose|w: int| 0 <= w < res.len() && res[w] == x;
                        assert((store + res)[store.len() + w] == x);
                    }
                    assert((store + res).contains(x));
                }
            }
            assert(within(delta, fin)) by {
                assert forall|x: VFact| #[trigger] delta.contains(x) implies fin.contains(x) by {
                    assert(acc.contains(x));
                    let q = choose|q: int| 0 <= q < acc.len() && acc[q] == x;
                    assert(cur[store.len() + q] == x);
                    assert(cur.contains(x));
                }
            }
            lemma_round_supported(rules, cur, delta, fin, f);
        }
    }
}

} // verus!
