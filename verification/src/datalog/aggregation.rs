//! Aggregation (count, sum, min, max, mean) over the solutions of a
//! conjunction of atoms, and the join that finds those solutions.
use vstd::prelude::*;
use crate::datalog::types::{AggregateAtom, AggregateOp, Atom, Substitution, VAtom, apply_terms,
    atoms_view, compatible};
use crate::datalog::unification::{unify_atom_with_fact, atom_fact_unifier};
use crate::facts::{Fact, VFact, facts_view};
use crate::types::{Value, VValue, value_clone};
use crate::text::models;

verus! {

broadcast use vstd::std_specs::vec::group_vec_axioms;

/// Bindings of variables to values.
pub type Bindings = Map<Seq<char>, VValue>;

/// An atom under bindings.
pub open spec fn apply_atom(m: Bindings, a: VAtom) -> VAtom {
    VAtom { pred: a.pred, terms: apply_terms(m, a.terms), negated: a.negated }
}

/// The extensions of `m` that make `a` match each fact in turn, in fact order.
pub open spec fn extend_one(a: VAtom, m: Bindings, facts: Seq<VFact>) -> Seq<Bindings>
    decreases facts.len(),
{
    if facts.len() == 0 {
        Seq::empty()
    } else {
        let rest = extend_one(a, m, facts.drop_last());
        match atom_fact_unifier(apply_atom(m, a), facts.last()) {
            Some(b) => if compatible(m, b) {
                rest.push(m.union_prefer_right(b))
            } else {
                rest
            },
            None => rest,
        }
    }
}

/// The extensions of each of `subs` in turn.
pub open spec fn extend_all(a: VAtom, subs: Seq<Bindings>, facts: Seq<VFact>) -> Seq<Bindings>
    decreases subs.len(),
{
    if subs.len() == 0 {
        Seq::empty()
    } else {
        extend_all(a, subs.drop_last(), facts) + extend_one(a, subs.last(), facts)
    }
}

/// The bindings that satisfy the atoms of a body one after the other, in order.
pub open spec fn join_spec(body: Seq<VAtom>, facts: Seq<VFact>) -> Seq<Bindings>
    decreases body.len(),
{
    if body.len() == 0 {
        seq![Map::empty()]
    } else {
        extend_all(body.last(), join_spec(body.drop_last(), facts), facts)
    }
}

/// A sequence without its repeated elements, first occurrences kept.
pub open spec fn dedup<A>(s: Seq<A>) -> Seq<A>
    decreases s.len(),
{
    if s.len() == 0 {
        Seq::empty()
    } else {
        let d = dedup(s.drop_last());
        if d.contains(s.last()) {
            d
        } else {
            d.push(s.last())
        }
    }
}

/// The extensions of one substitution by one atom against the facts.
pub(crate) fn extend_sub(atom: &Atom, sub: &Substitution, facts: &[Fact], out: &mut Vec<Substitution>)
    ensures
        models(final(out)@) == models(old(out)@) + extend_one(atom@, sub@, facts_view(facts@)),
{
    let partial = atom.apply_substitution(sub);
    let ghost fv = facts_view(facts@);
    let ghost start = models(out@);
    let mut i: usize = 0;
    assert(fv.take(0) =~= Seq::<VFact>::empty());
    assert(models(out@) =~= start + Seq::<Bindings>::empty());
    while i < facts.len()
        invariant
            i <= facts@.len(),
            fv == facts_view(facts@),
            partial@ == apply_atom(sub@, atom@),
            models(out@) == start + extend_one(atom@, sub@, fv.take(i as int)),
        decreases facts.len() - i,
    {
        assert(fv.take(i + 1).drop_last() =~= fv.take(i as int));
        assert(fv.take(i + 1).last() == facts@[i as int]@);
        match unify_atom_with_fact(&partial, &facts[i]) {
            Some(nb) => {
                match sub.merge(&nb) {
                    Some(m) => {
                        let ghost before = models(out@);
                        let ghost mv = m@;
                        out.push(m);
                        assert(models(out@) =~= before.push(mv));
                    },
                    None => {},
                }
            },
            None => {},
        }
        i = i + 1;
    }
    assert(fv.take(i as int) =~= fv);
}

/// All substitutions that satisfy a conjunction of atoms against the facts,
/// each once, in the order the join finds them.
pub fn find_all_substitutions(body: &[Atom], facts: &[Fact]) -> (r: Vec<Substitution>)
    ensures
        models(r@) == dedup(join_spec(atoms_view(body@), facts_view(facts@))),
{
    let ghost bv = atoms_view(body@);
    let mut current: Vec<Substitution> = Vec::new();
    current.push(Substitution::new());
    assert(bv.take(0) =~= Seq::<VAtom>::empty());
    assert(models(current@) =~= join_spec(bv.take(0), facts_view(facts@)));
    let mut k: usize = 0;
    while k < body.len()
        invariant
            k <= body@.len(),
            bv == atoms_view(body@),
            models(current@) == join_spec(bv.take(k as int), facts_view(facts@)),
        decreases body.len() - k,
    {
        let mut next: Vec<Substitution> = Vec::new();
        let mut j: usize = 0;
        assert(models(next@) =~= extend_all(bv[k as int], models(current@).take(0), facts_view(facts@)));
        while j < current.len()
            invariant
                k < body@.len(),
                j <= current@.len(),
                bv == atoms_view(body@),
                models(next@) == extend_all(bv[k as int], models(current@).take(j as int), facts_view(facts@)),
            decreases current.len() - j,
        {
            assert(models(current@).take(j + 1).drop_last() =~= models(current@).take(j as int));
            assert(body@[k as int]@ == bv[k as int]);
            extend_sub(&body[k], &current[j], facts, &mut next);
            j = j + 1;
        }
        assert(models(current@).take(j as int) =~= models(current@));
        assert(bv.take(k + 1).drop_last() =~= bv.take(k as int));
        current = next;
        k = k + 1;
    }
    assert(bv.take(k as int) =~= bv);
    let ghost all = models(current@);
    let mut unique: Vec<Substitution> = Vec::new();
    let mut i: usize = 0;
    assert(all.take(0) =~= Seq::<Bindings>::empty());
    assert(models(unique@) =~= dedup(all.take(0)));
    while i < current.len()
        invariant
            i <= current@.len(),
            all == models(current@),
            models(unique@) == dedup(all.take(i as int)),
        decreases current.len() - i,
    {
        assert(all.take(i + 1).drop_last() =~= all.take(i as int));
        let mut seen = false;
        let mut j: usize = 0;
        while j < unique.len()
            invariant
                i < current@.len(),
                j <= unique@.len(),
                seen == models(unique@).take(j as int).contains(current@[i as int]@),
            decreases unique.len() - j,
        {
            let same = unique[j].same_bindings(&current[i]);
            proof {
                let m = models(unique@);
                assert(m.take(j + 1) =~= m.take(j as int).push(m[j as int]));
                if same {
                    assert(m.take(j + 1)[j as int] == current@[i as int]@);
                }
                if m.take(j + 1).contains(current@[i as int]@) && !same {
                    let t = m.take(j + 1);
                    let w = choose|w: int| 0 <= w < t.len() && #[trigger] t[w] == current@[i as int]@;
                    assert(m.take(j as int)[w] == current@[i as int]@);
                }
            }
            seen = seen || same;
            j = j + 1;
        }
        assert(models(unique@).take(j as int) =~= models(unique@));
        if !seen {
            let ghost before = models(unique@);
            let d = current[i].duplicate();
            unique.push(d);
            assert(models(unique@) =~= before.push(all[i as int]));
        }
        i = i + 1;
    }
    assert(all.take(i as int) =~= all);
    unique
}

/// Result of an aggregation.
#[derive(Debug)]
pub struct AggregationResult {
    /// The aggregated value
    pub value: Value,
    /// Number of facts aggregated over
    pub count: usize,
}

/// The values bound to a variable by each substitution that binds it, in order.
pub open spec fn bound_values(subs: Seq<Bindings>, var: Seq<char>) -> Seq<VValue>
    decreases subs.len(),
{
    if subs.len() == 0 {
        Seq::empty()
    } else {
        let rest = bound_values(subs.drop_last(), var);
        if subs.last().dom().contains(var) {
            rest.push(subs.last()[var])
        } else {
            rest
        }
    }
}

/// The sum of values that are all integers, else `None`.
pub open spec fn int_sum(vals: Seq<VValue>) -> Option<int>
    decreases vals.len(),
{
    if vals.len() == 0 {
        Some(0)
    } else {
        match int_sum(vals.drop_last()) {
            Some(s) => match vals.last() {
                VValue::Int(i) => Some(s + i),
                _ => None,
            },
            None => None,
        }
    }
}

/// The least of values that are all integers, else `None` (also when empty).
pub open spec fn int_min(vals: Seq<VValue>) -> Option<int>
    decreases vals.len(),
{
    if vals.len() == 0 {
        None
    } else {
        match vals.last() {
            VValue::Int(i) => if vals.len() == 1 {
                Some(i)
            } else {
                match int_min(vals.drop_last()) {
                    Some(m) => Some(if i < m { i } else { m }),
                    None => None,
                }
            },
            _ => None,
        }
    }
}

/// The greatest of values that are all integers, else `None` (also when empty).
pub open spec fn int_max(vals: Seq<VValue>) -> Option<int>
    decreases vals.len(),
{
    if vals.len() == 0 {
        None
    } else {
        match vals.last() {
            VValue::Int(i) => if vals.len() == 1 {
                Some(i)
            } else {
                match int_max(vals.drop_last()) {
                    Some(m) => Some(if i > m { i } else { m }),
                    None => None,
                }
            },
            _ => None,
        }
    }
}

/// Every running sum over a run of integers from the start stays within `i64`.
pub open spec fn sums_fit(vals: Seq<VValue>) -> bool {
    forall|k: int|
        0 <= k <= vals.len() ==> (#[trigger] int_sum(vals.take(k)) matches Some(s) ==> i64::MIN <= s
            <= i64::MAX)
}

/// Integer division rounding toward zero.
pub open spec fn div_trunc(a: int, b: int) -> int {
    if a >= 0 {
        a / b
    } else {
        -((-a) / b)
    }
}

/// The values the aggregate ranges over: those bound to its variable by the
/// distinct solutions of its body.
pub open spec fn aggregate_values(ag: AggregateAtom, facts: Seq<VFact>) -> Seq<VValue> {
    bound_values(dedup(join_spec(atoms_view(ag.body@), facts)), ag.aggregate_var@)
}

/// The aggregate of some values: their number, or the sum, least, greatest or
/// mean (rounded toward zero) of integers; `None` where a value is not an integer.
pub open spec fn aggregate_spec(op: AggregateOp, vals: Seq<VValue>) -> Option<int> {
    match op {
        AggregateOp::Count => Some((vals.len() as i64) as int),
        AggregateOp::Sum => int_sum(vals),
        AggregateOp::Min => int_min(vals),
        AggregateOp::Max => int_max(vals),
        AggregateOp::Mean => match int_sum(vals) {
            Some(s) => Some(div_trunc(s, (vals.len() as i64) as int)),
            None => None,
        },
    }
}

/// Evaluate an aggregate over the facts: `None` when no solution binds its
/// variable, or when a sum, minimum, maximum or mean meets a value that is not
/// an integer.
pub fn evaluate_aggregate(aggregate: &AggregateAtom, facts: &[Fact]) -> (r: Option<AggregationResult>)
    requires
        (aggregate.op == AggregateOp::Sum || aggregate.op == AggregateOp::Mean) ==> sums_fit(
            aggregate_values(*aggregate, facts_view(facts@)),
        ),
        aggregate_values(*aggregate, facts_view(facts@)).len() <= i64::MAX,
    ensures
        ({
            let vals = aggregate_values(*aggregate, facts_view(facts@));
            match r {
                Some(res) => vals.len() > 0 && res.count == vals.len() && aggregate_spec(
                    aggregate.op,
                    vals,
                ) == Some(res.value@->Int_0) && res.value@ is Int,
                None => vals.len() == 0 || aggregate_spec(aggregate.op, vals) is None,
            }
        }),
{
    let ghost fv = facts_view(facts@);
    let subs = find_all_substitutions(aggregate.body.as_slice(), facts);
    let ghost vals = aggregate_values(*aggregate, fv);
    let mut values: Vec<Value> = Vec::new();
    let mut i: usize = 0;
    assert(models(subs@).take(0) =~= Seq::<Bindings>::empty());
    assert(models(values@) =~= Seq::<VValue>::empty());
    while i < subs.len()
        invariant
            i <= subs@.len(),
            models(values@) == bound_values(models(subs@).take(i as int), aggregate.aggregate_var@),
        decreases subs.len() - i,
    {
        assert(models(subs@).take(i + 1).drop_last() =~= models(subs@).take(i as int));
        match subs[i].get(aggregate.aggregate_var.as_str()) {
            Some(v) => {
                let ghost before = models(values@);
                values.push(value_clone(v));
                assert(models(values@) =~= before.push(v@));
            },
            None => {},
        }
        i = i + 1;
    }
    assert(models(subs@).take(i as int) =~= models(subs@));
    assert(models(values@) == vals);
    if values.len() == 0 {
        return None;
    }
    let n = values.len();
    let value: Value = match aggregate.op {
        AggregateOp::Count => Value::Integer(n as i64),
        AggregateOp::Sum | AggregateOp::Mean => {
            let mut sum: i64 = 0;
            let mut k: usize = 0;
            assert(vals.take(0) =~= Seq::<VValue>::empty());
            while k < n
                invariant
                    n == values@.len(),
                    k <= n,
                    models(values@) == vals,
                    vals == aggregate_values(*aggregate, facts_view(facts@)),
                    vals.len() > 0,
                    aggregate.op == AggregateOp::Sum || aggregate.op == AggregateOp::Mean,
                    sums_fit(vals),
                    int_sum(vals.take(k as int)) == Some(sum as int),
                decreases n - k,
            {
                assert(vals.take(k + 1).drop_last() =~= vals.take(k as int));
                assert(vals[k as int] == values@[k as int]@);
                match &values[k] {
                    Value::Integer(x) => {
                        assert(int_sum(vals.take(k + 1)) == Some(sum + *x));
                        assert(int_sum(vals.take(k + 1)) matches Some(s) ==> i64::MIN <= s <= i64::MAX);
                        sum = sum + *x;
                    },
                    _ => {
                        proof {
                            lemma_int_sum_none_extends(vals, k as int + 1);
                        }
                        return None;
                    },
                }
                k = k + 1;
            }
            assert(vals.take(n as int) =~= vals);
            match aggregate.op {
                AggregateOp::Sum => Value::Integer(sum),
                _ => {
                    let cnt: i64 = n as i64;
                    let q: i64 = if sum >= 0 {
                        sum / cnt
                    } else {
                        let mag: i128 = -(sum as i128);
                        let qm: i128 = mag / (cnt as i128);
                        (-qm) as i64
                    };
                    Value::Integer(q)
                },
            }
        },
        AggregateOp::Min | AggregateOp::Max => {
            let want_min = aggregate.op == AggregateOp::Min;
            let mut best: i64 = 0;
            let mut k: usize = 0;
            assert(vals.take(0) =~= Seq::<VValue>::empty());
            while k < n
                invariant
                    n == values@.len(),
                    k <= n,
                    models(values@) == vals,
                    vals == aggregate_values(*aggregate, facts_view(facts@)),
                    vals.len() > 0,
                    aggregate.op == AggregateOp::Min || aggregate.op == AggregateOp::Max,
                    want_min == (aggregate.op == AggregateOp::Min),
                    k > 0 ==> (if want_min {
                        int_min(vals.take(k as int))
                    } else {
                        int_max(vals.take(k as int))
                    }) == Some(best as int),
                decreases n - k,
            {
                assert(vals.take(k + 1).drop_last() =~= vals.take(k as int));
                assert(vals[k as int] == values@[k as int]@);
                match &values[k] {
                    Value::Integer(x) => {
                        if k == 0 {
                            best = *x;
                        } else if want_min {
                            if *x < best {
                                best = *x;
                            }
                        } else {
                            if *x > best {
                                best = *x;
                            }
                        }
                    },
                    _ => {
                        proof {
                            lemma_min_max_none_extends(vals, k as int + 1);
                        }
                        return None;
                    },
                }
                k = k + 1;
            }
            assert(vals.take(n as int) =~= vals);
            Value::Integer(best)
        },
    };
    Some(AggregationResult { value, count: n })
}

proof fn lemma_int_sum_none_extends(vals: Seq<VValue>, k: int)
    requires
        0 < k <= vals.len(),
        !(vals[k - 1] is Int),
    ensures
        int_sum(vals) is None,
    decreases vals.len() - k,
{
    if k == vals.len() {
        assert(vals.take(k) =~= vals);
    } else {
        lemma_int_sum_none_extends(vals.drop_last(), k);
        assert(vals.drop_last()[k - 1] == vals[k - 1]);
    }
}

proof fn lemma_min_max_none_extends(vals: Seq<VValue>, k: int)
    requires
        0 < k <= vals.len(),
        !(vals[k - 1] is Int),
    ensures
        int_min(vals) is None,
        int_max(vals) is None,
    decreases vals.len() - k,
{
    if k < vals.len() {
        lemma_min_max_none_extends(vals.drop_last(), k);
        assert(vals.drop_last()[k - 1] == vals[k - 1]);
    }
}

} // verus!
