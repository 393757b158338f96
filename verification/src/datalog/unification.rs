//! Unification of terms and atoms, and matching of atoms against facts.
use vstd::prelude::*;
use crate::types::{Value, VValue, value_eq, value_clone, lemma_values_view, values_view};
use crate::facts::{Fact, VFact, facts_view};
use crate::datalog::types::{
    Term, VTerm, Atom, VAtom, Substitution, apply_term, apply_terms, all_ground, terms_view,
};

verus! {

broadcast use vstd::std_specs::vec::group_vec_axioms;

/// Result of unifying two terms under the bindings `m`: the extended bindings,
/// or `None` when the terms clash.  A variable meeting a variable, both unbound,
/// binds the second to the first one's name as a string.
pub open spec fn unify_term_spec(t1: VTerm, t2: VTerm, m: Map<Seq<char>, VValue>) -> Option<
    Map<Seq<char>, VValue>,
> {
    match (t1, t2) {
        (VTerm::Var(v1), VTerm::Var(v2)) => {
            if m.dom().contains(v1) && m.dom().contains(v2) {
                if m[v1] == m[v2] {
                    Some(m)
                } else {
                    None
                }
            } else if m.dom().contains(v1) {
                Some(m.insert(v2, m[v1]))
            } else if m.dom().contains(v2) {
                Some(m.insert(v1, m[v2]))
            } else {
                Some(m.insert(v2, VValue::Str(v1)))
            }
        },
        (VTerm::Var(v), VTerm::Const(c)) => bind_const(v, c, m),
        (VTerm::Const(c), VTerm::Var(v)) => bind_const(v, c, m),
        (VTerm::Const(a), VTerm::Const(b)) => if a == b {
            Some(m)
        } else {
            None
        },
    }
}

/// Binding a variable to a constant: agree with an existing binding, or add one.
pub open spec fn bind_const(v: Seq<char>, c: VValue, m: Map<Seq<char>, VValue>) -> Option<
    Map<Seq<char>, VValue>,
> {
    if m.dom().contains(v) {
        if m[v] == c {
            Some(m)
        } else {
            None
        }
    } else {
        Some(m.insert(v, c))
    }
}

/// Unifying each term with the constant at the same position, left to right.
pub open spec fn unify_list(ts: Seq<VTerm>, vs: Seq<VValue>, m: Map<Seq<char>, VValue>) -> Option<
    Map<Seq<char>, VValue>,
>
    decreases ts.len(),
{
    if ts.len() == 0 || vs.len() == 0 {
        Some(m)
    } else {
        match unify_term_spec(ts[0], VTerm::Const(vs[0]), m) {
            Some(m1) => unify_list(ts.drop_first(), vs.drop_first(), m1),
            None => None,
        }
    }
}

/// Unifying term pairs position by position, left to right.
pub open spec fn unify_pairs(ts: Seq<VTerm>, us: Seq<VTerm>, m: Map<Seq<char>, VValue>) -> Option<
    Map<Seq<char>, VValue>,
>
    decreases ts.len(),
{
    if ts.len() == 0 || us.len() == 0 {
        Some(m)
    } else {
        match unify_term_spec(ts[0], us[0], m) {
            Some(m1) => unify_pairs(ts.drop_first(), us.drop_first(), m1),
            None => None,
        }
    }
}

/// The substitution that makes an atom match a fact, if any.
pub open spec fn atom_fact_unifier(a: VAtom, f: VFact) -> Option<Map<Seq<char>, VValue>> {
    if a.pred != f.pred || a.terms.len() != f.args.len() {
        None
    } else {
        unify_list(a.terms, f.args, Map::empty())
    }
}

/// The substitution that unifies two atoms, if any.
pub open spec fn atoms_unifier(a: VAtom, b: VAtom) -> Option<Map<Seq<char>, VValue>> {
    if a.pred != b.pred || a.terms.len() != b.terms.len() {
        None
    } else {
        unify_pairs(a.terms, b.terms, Map::empty())
    }
}

/// Unify two terms, extending the substitution if successful.
/// On failure the substitution is left as it was.
pub fn unify_terms(term1: &Term, term2: &Term, sub: &mut Substitution) -> (r: bool)
    ensures
        match unify_term_spec(term1@, term2@, old(sub)@) {
            Some(m) => r && final(sub)@ == m,
            None => !r && final(sub)@ == old(sub)@,
        },
{
    match (term1, term2) {
        (Term::Variable(v1), Term::Variable(v2)) => {
            let b1 = match sub.get(v1.as_str()) {
                Some(x) => Some(value_clone(x)),
                None => None,
            };
            let b2 = match sub.get(v2.as_str()) {
                Some(x) => Some(value_clone(x)),
                None => None,
            };
            match (b1, b2) {
                (Some(val1), Some(val2)) => value_eq(&val1, &val2),
                (Some(val), None) => {
                    sub.bind(v2.clone(), val);
                    true
                },
                (None, Some(val)) => {
                    sub.bind(v1.clone(), val);
                    true
                },
                (None, None) => {
                    sub.bind(v2.clone(), Value::String(v1.clone()));
                    true
                },
            }
        },
        (Term::Variable(var), Term::Constant(val)) => bind_constant(var, val, sub),
        (Term::Constant(val), Term::Variable(var)) => bind_constant(var, val, sub),
        (Term::Constant(val1), Term::Constant(val2)) => value_eq(val1, val2),
    }
}

fn bind_constant(var: &String, val: &Value, sub: &mut Substitution) -> (r: bool)
    ensures
        match bind_const(var@, val@, old(sub)@) {
            Some(m) => r && final(sub)@ == m,
            None => !r && final(sub)@ == old(sub)@,
        },
{
    let existing = match sub.get(var.as_str()) {
        Some(x) => Some(value_eq(x, val)),
        None => None,
    };
    match existing {
        Some(same) => same,
        None => {
            sub.bind(var.clone(), value_clone(val));
            true
        },
    }
}

/// Unify an atom with a fact, producing a substitution if successful.
pub fn unify_atom_with_fact(atom: &Atom, fact: &Fact) -> (r: Option<Substitution>)
    ensures
        match atom_fact_unifier(atom@, fact@) {
            Some(m) => r is Some && r->0@ == m,
            None => r is None,
        },
{
    proof {
        lemma_values_view(fact.args@);
    }
    if atom.predicate != fact.predicate {
        return None;
    }
    if atom.terms.len() != fact.args.len() {
        return None;
    }
    let mut sub = Substitution::new();
    let ghost ts = atom@.terms;
    let ghost vs = fact@.args;
    let mut i: usize = 0;
    assert(ts.skip(0) =~= ts);
    assert(vs.skip(0) =~= vs);
    while i < atom.terms.len()
        invariant
            ts == atom@.terms,
            vs == fact@.args,
            ts.len() == vs.len(),
            atom.terms@.len() == ts.len(),
            fact.args@.len() == vs.len(),
            forall|j: int| 0 <= j < vs.len() ==> #[trigger] vs[j] == fact.args@[j]@,
            i <= ts.len(),
            unify_list(ts, vs, Map::empty()) == unify_list(ts.skip(i as int), vs.skip(i as int), sub@),
        decreases atom.terms.len() - i,
    {
        let c = Term::Constant(value_clone(&fact.args[i]));
        assert(ts.skip(i as int)[0] == ts[i as int]);
        assert(vs.skip(i as int)[0] == vs[i as int]);
        assert(ts.skip(i as int).drop_first() =~= ts.skip(i + 1));
        assert(vs.skip(i as int).drop_first() =~= vs.skip(i + 1));
        if !unify_terms(&atom.terms[i], &c, &mut sub) {
            return None;
        }
        i = i + 1;
    }
    Some(sub)
}

/// Unify two atoms, producing a substitution if successful.
pub fn unify_atoms(atom1: &Atom, atom2: &Atom) -> (r: Option<Substitution>)
    ensures
        match atoms_unifier(atom1@, atom2@) {
            Some(m) => r is Some && r->0@ == m,
            None => r is None,
        },
{
    if atom1.predicate != atom2.predicate {
        return None;
    }
    if atom1.terms.len() != atom2.terms.len() {
        return None;
    }
    let mut sub = Substitution::new();
    let ghost ts = atom1@.terms;
    let ghost us = atom2@.terms;
    let mut i: usize = 0;
    assert(ts.skip(0) =~= ts);
    assert(us.skip(0) =~= us);
    while i < atom1.terms.len()
        invariant
            ts == atom1@.terms,
            us == atom2@.terms,
            ts.len() == us.len(),
            atom1.terms@.len() == ts.len(),
            i <= ts.len(),
            unify_pairs(ts, us, Map::empty()) == unify_pairs(ts.skip(i as int), us.skip(i as int), sub@),
        decreases atom1.terms.len() - i,
    {
        assert(ts.skip(i as int)[0] == ts[i as int]);
        assert(us.skip(i as int)[0] == us[i as int]);
        assert(ts.skip(i as int).drop_first() =~= ts.skip(i + 1));
        assert(us.skip(i as int).drop_first() =~= us.skip(i + 1));
        if !unify_terms(&atom1.terms[i], &atom2.terms[i], &mut sub) {
            return None;
        }
        i = i + 1;
    }
    Some(sub)
}

/// Indices of the facts that unify with `a`, in order.
pub open spec fn matching_indices(a: VAtom, fs: Seq<VFact>) -> Seq<int>
    decreases fs.len(),
{
    if fs.len() == 0 {
        Seq::empty()
    } else {
        let rest = matching_indices(a, fs.drop_last());
        if atom_fact_unifier(a, fs.last()) is Some {
            rest.push(fs.len() - 1)
        } else {
            rest
        }
    }
}


/// Entry `(f, m)` reports that fact `i` of `fs` is `f` and unifies with `a` by `m`.
pub open spec fn match_ok(
    a: VAtom,
    fs: Seq<VFact>,
    i: int,
    f: VFact,
    m: Map<Seq<char>, VValue>,
) -> bool {
    &&& 0 <= i < fs.len()
    &&& f == fs[i]
    &&& atom_fact_unifier(a, fs[i]) == Some(m)
}

/// Find all facts that unify with an atom, each with its substitution, in order.
pub fn find_matching_facts<'a>(atom: &Atom, facts: &'a [Fact]) -> (r: Vec<(&'a Fact, Substitution)>)
    ensures
        r@.len() == matching_indices(atom@, facts_view(facts@)).len(),
        forall|k: int|
            0 <= k < r@.len() ==> match_ok(
                atom@,
                facts_view(facts@),
                matching_indices(atom@, facts_view(facts@))[k],
                (#[trigger] r@[k]).0@,
                r@[k].1@,
            ),
{
    let ghost fs = facts_view(facts@);
    let mut out: Vec<(&'a Fact, Substitution)> = Vec::new();
    let mut i: usize = 0;
    while i < facts.len()
        invariant
            fs == facts_view(facts@),
            i <= facts@.len(),
            out@.len() == matching_indices(atom@, fs.subrange(0, i as int)).len(),
            forall|k: int|
                0 <= k < out@.len() ==> match_ok(
                    atom@,
                    fs,
                    matching_indices(atom@, fs.subrange(0, i as int))[k],
                    (#[trigger] out@[k]).0@,
                    out@[k].1@,
                ),
        decreases facts.len() - i,
    {
        let ghost pre = fs.subrange(0, i as int);
        let ghost next = fs.subrange(0, i + 1);
        assert(next.drop_last() =~= pre);
        assert(next.last() == facts@[i as int]@);
        let fact = &facts[i];
        let ghost old_out = out@;
        match unify_atom_with_fact(atom, fact) {
            Some(sub) => {
                out.push((fact, sub));
            },
            None => {},
        }
        proof {
            if atom_fact_unifier(atom@, facts@[i as int]@) is Some {
                assert(matching_indices(atom@, next) == matching_indices(atom@, pre).push(i as int));
                assert(out@.len() == old_out.len() + 1);
            } else {
                assert(matching_indices(atom@, next) == matching_indices(atom@, pre));
                assert(out@ == old_out);
            }
            assert forall|k: int| 0 <= k < out@.len() implies match_ok(
                atom@,
                fs,
                matching_indices(atom@, next)[k],
                (#[trigger] out@[k]).0@,
                out@[k].1@,
            ) by {
                if k < old_out.len() {
                    assert(out@[k] == old_out[k]);
                    assert(matching_indices(atom@, next)[k] == matching_indices(atom@, pre)[k]);
                }
            }
        }
        i = i + 1;
        assert(fs.subrange(0, i as int) == next);
    }
    assert(fs.subrange(0, facts@.len() as int) =~= fs);
    out
}

/// The constants of a ground term sequence.
pub open spec fn ground_args(ts: Seq<VTerm>) -> Seq<VValue> {
    Seq::new(
        ts.len(),
        |i: int|
            match ts[i] {
                VTerm::Const(v) => v,
                VTerm::Var(_) => VValue::Null,
            },
    )
}

/// Apply a substitution to an atom to produce a ground atom (fact).
pub fn ground_atom(atom: &Atom, sub: &Substitution) -> (r: Option<Fact>)
    ensures
        match r {
            Some(f) => all_ground(apply_terms(sub@, atom@.terms)) && f@ == (VFact {
                pred: atom@.pred,
                args: ground_args(apply_terms(sub@, atom@.terms)),
            }),
            None => !all_ground(apply_terms(sub@, atom@.terms)),
        },
{
    let grounded = atom.apply_substitution(sub);
    if !grounded.is_ground() {
        return None;
    }
    let mut args: Vec<Value> = Vec::new();
    let mut i: usize = 0;
    while i < grounded.terms.len()
        invariant
            i <= grounded.terms@.len(),
            all_ground(grounded@.terms),
            args@.len() == i,
            forall|j: int| 0 <= j < i ==> #[trigger] args@[j]@ == ground_args(grounded@.terms)[j],
        decreases grounded.terms.len() - i,
    {
        match &grounded.terms[i] {
            Term::Constant(v) => {
                args.push(value_clone(v));
            },
            Term::Variable(_) => {
                assert(grounded@.terms[i as int] is Const);
            },
        }
        i = i + 1;
    }
    proof {
        lemma_values_view(args@);
        assert(values_view(args@) =~= ground_args(grounded@.terms));
    }
    Some(Fact::new(grounded.predicate.as_str(), args))
}

/// Unification only extends bindings, and afterwards every term of the list
/// denotes the constant it was unified with.
pub proof fn lemma_unify_list_sound(ts: Seq<VTerm>, vs: Seq<VValue>, m: Map<Seq<char>, VValue>)
    requires
        ts.len() == vs.len(),
    ensures
        unify_list(ts, vs, m) matches Some(m2) ==> {
            &&& m.submap_of(m2)
            &&& forall|i: int| 0 <= i < ts.len() ==> #[trigger] apply_term(m2, ts[i]) == VTerm::Const(vs[i])
        },
    decreases ts.len(),
{
    if ts.len() > 0 {
        match unify_term_spec(ts[0], VTerm::Const(vs[0]), m) {
            Some(m1) => {
                lemma_unify_list_sound(ts.drop_first(), vs.drop_first(), m1);
                if let Some(m2) = unify_list(ts, vs, m) {
                    assert(m.submap_of(m1)) by {
                        match ts[0] {
                            VTerm::Var(n) => {
                                if !m.dom().contains(n) {
                                    assert(m1 == m.insert(n, vs[0]));
                                }
                            },
                            VTerm::Const(_) => {},
                        }
                    }
                    assert(m1.submap_of(m2));
                    assert(m.submap_of(m2)) by {
                        assert forall|k: Seq<char>| #[trigger] m.dom().contains(k) implies m2.dom().contains(k) && m2[k] == m[k] by {
                            assert(m1.dom().contains(k));
                        }
                    }
                    assert(apply_term(m1, ts[0]) == VTerm::Const(vs[0]));
                    assert forall|i: int| 0 <= i < ts.len() implies #[trigger] apply_term(m2, ts[i])
                        == VTerm::Const(vs[i]) by {
                        if i > 0 {
                            assert(ts.drop_first()[i - 1] == ts[i]);
                            assert(apply_term(m2, ts.drop_first()[i - 1]) == VTerm::Const(
                                vs.drop_first()[i - 1],
                            ));
                        } else {
                            match ts[0] {
                                VTerm::Var(n) => {
                                    assert(m1.dom().contains(n));
                                    assert(m2[n] == m1[n]);
                                },
                                VTerm::Const(_) => {},
                            }
                        }
                    }
                }
            },
            None => {},
        }
    }
}

/// Law: when an atom unifies with a fact, applying the unifier to the atom
/// grounds it to exactly that fact.
pub proof fn law_unifier_grounds_atom(a: VAtom, f: VFact)
    ensures
        atom_fact_unifier(a, f) matches Some(m) ==> {
            &&& all_ground(apply_terms(m, a.terms))
            &&& ground_args(apply_terms(m, a.terms)) == f.args
            &&& a.pred == f.pred
        },
{
    if let Some(m) = atom_fact_unifier(a, f) {
        lemma_unify_list_sound(a.terms, f.args, Map::empty());
        assert(ground_args(apply_terms(m, a.terms)) =~= f.args);
    }
}


/// Unifying a list only extends bindings that some bindings `m` already
/// extend, when `m` grounds every term to the constant at its position.
proof fn lemma_unify_list_complete(
    ts: Seq<VTerm>,
    vs: Seq<VValue>,
    m0: Map<Seq<char>, VValue>,
    m: Map<Seq<char>, VValue>,
)
    requires
        ts.len() == vs.len(),
        m0.submap_of(m),
        forall|i: int| 0 <= i < ts.len() ==> #[trigger] apply_term(m, ts[i]) == VTerm::Const(vs[i]),
    ensures
        unify_list(ts, vs, m0) matches Some(m2) && m2.submap_of(m),
    decreases ts.len(),
{
    if ts.len() > 0 {
        assert(apply_term(m, ts[0]) == VTerm::Const(vs[0]));
        let m1 = match ts[0] {
            VTerm::Var(v) => {
                assert(m.dom().contains(v) && m[v] == vs[0]);
                if m0.dom().contains(v) {
                    assert(m0[v] == m[v]);
                    m0
                } else {
                    let m1 = m0.insert(v, vs[0]);
                    assert(m1.submap_of(m)) by {
                        assert forall|k: Seq<char>| #[trigger] m1.dom().contains(k) implies m.dom().contains(k) && m1[k] == m[k] by {
                            if k != v {
                                assert(m0.dom().contains(k));
                            }
                        }
                    }
                    m1
                }
            },
            VTerm::Const(c) => m0,
        };
        assert(unify_term_spec(ts[0], VTerm::Const(vs[0]), m0) == Some(m1));
        assert forall|i: int| 0 <= i < ts.drop_first().len() implies #[trigger] apply_term(m, ts.drop_first()[i])
            == VTerm::Const(vs.drop_first()[i]) by {
            assert(ts.drop_first()[i] == ts[i + 1]);
            assert(vs.drop_first()[i] == vs[i + 1]);
        }
        lemma_unify_list_complete(ts.drop_first(), vs.drop_first(), m1, m);
    }
}

/// Completeness of matching an atom against a fact: whenever some bindings
/// turn the atom's terms into exactly the fact's arguments (same predicate,
/// same arity), the matcher finds bindings, and they are part of those. So an
/// atom that repeats a variable matches a fact holding the same value at both
/// places.
pub proof fn law_atom_fact_unifier_complete(a: VAtom, f: VFact, m: Map<Seq<char>, VValue>)
    requires
        a.pred == f.pred,
        a.terms.len() == f.args.len(),
        forall|i: int| 0 <= i < a.terms.len() ==> #[trigger] apply_term(m, a.terms[i]) == VTerm::Const(f.args[i]),
    ensures
        atom_fact_unifier(a, f) matches Some(m2) && m2.submap_of(m),
{
    lemma_unify_list_complete(a.terms, f.args, Map::empty(), m);
}

/// Soundness of unifying two terms: when it succeeds, the new bindings
/// extend the old ones and make the two terms the same term. (Two variables
/// that are both unbound are left out: the second is bound to the first
/// one's name as a string, and the first stays a variable.)
pub proof fn law_unify_term_sound(t1: VTerm, t2: VTerm, m: Map<Seq<char>, VValue>)
    requires
        !(t1 matches VTerm::Var(v1) && t2 matches VTerm::Var(v2) && v1 != v2 && !m.dom().contains(v1)
            && !m.dom().contains(v2)),
    ensures
        unify_term_spec(t1, t2, m) matches Some(m2) ==> m.submap_of(m2) && apply_term(m2, t1) == apply_term(m2, t2),
{
    if let Some(m2) = unify_term_spec(t1, t2, m) {
        match (t1, t2) {
            (VTerm::Var(v1), VTerm::Var(v2)) => {
                if !m.dom().contains(v1) || !m.dom().contains(v2) {
                    assert(m.submap_of(m2));
                }
            },
            (VTerm::Var(v), VTerm::Const(c)) => {
                assert(m.submap_of(m2));
            },
            (VTerm::Const(c), VTerm::Var(v)) => {
                assert(m.submap_of(m2));
            },
            (VTerm::Const(x), VTerm::Const(y)) => {},
        }
    }
}


/// Unifying pairs that each hold a constant only extends the bindings, and
/// afterwards the two terms of every pair are the same term.
proof fn lemma_unify_pairs_sound(ts: Seq<VTerm>, us: Seq<VTerm>, m: Map<Seq<char>, VValue>)
    requires
        ts.len() == us.len(),
        forall|i: int| 0 <= i < ts.len() ==> (#[trigger] ts[i]) is Const || us[i] is Const,
    ensures
        unify_pairs(ts, us, m) matches Some(m2) ==> {
            &&& m.submap_of(m2)
            &&& forall|i: int| 0 <= i < ts.len() ==> #[trigger] apply_term(m2, ts[i]) == apply_term(m2, us[i])
        },
    decreases ts.len(),
{
    if ts.len() > 0 {
        law_unify_term_sound(ts[0], us[0], m);
        match unify_term_spec(ts[0], us[0], m) {
            Some(m1) => {
                assert forall|i: int| 0 <= i < ts.drop_first().len() implies (#[trigger] ts.drop_first()[i]) is Const
                    || us.drop_first()[i] is Const by {
                    assert(ts.drop_first()[i] == ts[i + 1]);
                    assert(us.drop_first()[i] == us[i + 1]);
                }
                lemma_unify_pairs_sound(ts.drop_first(), us.drop_first(), m1);
                if let Some(m2) = unify_pairs(ts, us, m) {
                    assert(m.submap_of(m2)) by {
                        assert forall|k: Seq<char>| #[trigger] m.dom().contains(k) implies m2.dom().contains(k) && m2[k] == m[k] by {
                            assert(m1.dom().contains(k));
                        }
                    }
                    assert forall|i: int| 0 <= i < ts.len() implies #[trigger] apply_term(m2, ts[i]) == apply_term(m2, us[i]) by {
                        if i > 0 {
                            assert(ts.drop_first()[i - 1] == ts[i]);
                            assert(us.drop_first()[i - 1] == us[i]);
                        } else {
                            assert(apply_term(m1, ts[0]) == apply_term(m1, us[0]));
                            match ts[0] {
                                VTerm::Var(n) => {
                                    if m1.dom().contains(n) {
                                        assert(m2[n] == m1[n]);
                                    }
                                },
                                VTerm::Const(_) => {},
                            }
                            match us[0] {
                                VTerm::Var(n) => {
                                    if m1.dom().contains(n) {
                                        assert(m2[n] == m1[n]);
                                    }
                                },
                                VTerm::Const(_) => {},
                            }
                        }
                    }
                }
            },
            None => {},
        }
    }
}

/// Soundness of unifying two atoms where each position holds a constant on
/// at least one side: the unifier makes the two atoms' terms the same, one by one.
pub proof fn law_atoms_unifier_sound(a: VAtom, b: VAtom)
    requires
        a.terms.len() == b.terms.len(),
        forall|i: int| 0 <= i < a.terms.len() ==> (#[trigger] a.terms[i]) is Const || b.terms[i] is Const,
    ensures
        atoms_unifier(a, b) matches Some(m) ==> a.pred == b.pred && apply_terms(m, a.terms) == apply_terms(m, b.terms),
{
    lemma_unify_pairs_sound(a.terms, b.terms, Map::empty());
    if let Some(m) = atoms_unifier(a, b) {
        assert(apply_terms(m, a.terms) =~= apply_terms(m, b.terms));
    }
}

} // verus!
