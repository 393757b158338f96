//! Magic sets: rewriting a program so that evaluation only derives facts
//! that can matter to a query with some arguments bound.
use vstd::prelude::*;
use crate::datalog::types::{Atom, Rule, Term, VAtom, VRule, VTerm, atoms_clone, terms_clone, atom_clone,
    atoms_view, terms_view, render_rule};
use crate::types::{Value, VValue, ToText, value_clone};
use crate::text::{models, owned, str_eq, chars_of};

verus! {

broadcast use vstd::std_specs::vec::group_vec_axioms;

/// A query: a predicate, with each argument bound to a value or left free.
#[derive(Debug)]
pub struct Query {
    /// The queried predicate
    pub predicate: String,
    /// Bound arguments (constants) by position
    pub bound_args: Vec<Option<Value>>,
}

/// The binding pattern of arguments: `b` for a bound one, `f` for a free one.
pub open spec fn pattern_of(bound: Seq<Option<Value>>) -> Seq<char> {
    Seq::new(bound.len(), |i: int| if bound[i] is Some { 'b' } else { 'f' })
}

impl Query {
    /// A query with some arguments bound.
    pub fn new(predicate: impl ToText, bound_args: Vec<Option<Value>>) -> (r: Query)
        ensures
            r.predicate@ == predicate.text(),
            r.bound_args@ == bound_args@,
    {
        Query { predicate: predicate.to_text(), bound_args }
    }

    /// A query with every argument free.
    pub fn unbound(predicate: impl ToText, arity: usize) -> (r: Query)
        ensures
            r.predicate@ == predicate.text(),
            r.bound_args@.len() == arity,
            forall|i: int| 0 <= i < arity ==> #[trigger] r.bound_args@[i] is None,
    {
        let mut args: Vec<Option<Value>> = Vec::new();
        let mut i: usize = 0;
        while i < arity
            invariant
                i <= arity,
                args@.len() == i,
                forall|j: int| 0 <= j < i ==> #[trigger] args@[j] is None,
            decreases arity - i,
        {
            args.push(None);
            i = i + 1;
        }
        Query { predicate: predicate.to_text(), bound_args: args }
    }

    /// Whether an argument position is bound.
    pub fn is_bound(&self, index: usize) -> (r: bool)
        ensures
            r == (index < self.bound_args@.len() && self.bound_args@[index as int] is Some),
    {
        index < self.bound_args.len() && self.bound_args[index].is_some()
    }

    /// The binding pattern, one letter per argument.
    pub fn binding_pattern(&self) -> (r: String)
        ensures
            r@ == pattern_of(self.bound_args@),
    {
        let mut s = owned("");
        proof {
            reveal_strlit("");
        }
        let mut i: usize = 0;
        while i < self.bound_args.len()
            invariant
                i <= self.bound_args@.len(),
                s@ == pattern_of(self.bound_args@).take(i as int),
            decreases self.bound_args.len() - i,
        {
            if self.bound_args[i].is_some() {
                crate::text::push_char(&mut s, 'b');
            } else {
                crate::text::push_char(&mut s, 'f');
            }
            assert(pattern_of(self.bound_args@).take(i + 1) =~= pattern_of(self.bound_args@).take(i as int).push(
                pattern_of(self.bound_args@)[i as int],
            ));
            i = i + 1;
        }
        assert(pattern_of(self.bound_args@).take(i as int) =~= pattern_of(self.bound_args@));
        s
    }
}

/// The name of a predicate adorned with a binding pattern: `pred_pattern`.
pub open spec fn adorned_name(pred: Seq<char>, pattern: Seq<char>) -> Seq<char> {
    pred + seq!['_'] + pattern
}

/// The name of the magic predicate of a predicate: `magic_pred`.
pub open spec fn magic_name(pred: Seq<char>) -> Seq<char> {
    "magic_"@ + pred
}

/// A pattern over `b` and `f`.
pub open spec fn valid_pattern(s: Seq<char>) -> bool {
    forall|i: int| 0 <= i < s.len() ==> #[trigger] s[i] == 'b' || s[i] == 'f'
}

/// Whether a variable sits at a bound position of the head.
pub open spec fn head_bound(head: Seq<VTerm>, hp: Seq<char>, v: Seq<char>) -> bool {
    exists|i: int| 0 <= i < head.len() && i < hp.len() && #[trigger] head[i] == VTerm::Var(v) && hp[i] == 'b'
}

/// The position of the first body atom equal to an atom (the body's length if none).
pub open spec fn first_equal(body: Seq<VAtom>, a: VAtom) -> int
    decreases body.len(),
{
    if body.len() == 0 {
        0
    } else if first_equal(body.drop_last(), a) < body.len() - 1 {
        first_equal(body.drop_last(), a)
    } else if body.last() == a {
        body.len() - 1
    } else {
        body.len() as int
    }
}

/// Whether one of the first `stop` body atoms mentions a variable.
pub open spec fn earlier_binds(body: Seq<VAtom>, stop: int, v: Seq<char>) -> bool {
    exists|j: int, k: int|
        0 <= j < stop && j < body.len() && 0 <= k < body[j].terms.len() && #[trigger] body[j].terms[k]
            == VTerm::Var(v)
}

/// A variable is bound at an atom of a rule when the head has it at a bound
/// position, or a body atom before the first one equal to that atom mentions it.
pub open spec fn var_bound(v: Seq<char>, r: VRule, hp: Seq<char>, a: VAtom) -> bool {
    head_bound(r.head.terms, hp, v) || earlier_binds(r.body, first_equal(r.body, a), v)
}

/// The binding pattern of a body atom in a rule whose head has a pattern.
pub open spec fn atom_pattern(a: VAtom, r: VRule, hp: Seq<char>) -> Seq<char> {
    Seq::new(
        a.terms.len(),
        |i: int|
            match a.terms[i] {
                VTerm::Const(_) => 'b',
                VTerm::Var(v) => if var_bound(v, r, hp, a) { 'b' } else { 'f' },
            },
    )
}

/// A rule with its head adorned by a pattern (not negated), body unchanged.
pub open spec fn adorn(r: VRule, hp: Seq<char>) -> VRule {
    VRule {
        head: VAtom { pred: adorned_name(r.head.pred, hp), terms: r.head.terms, negated: false },
        body: r.body,
        stratum: 0,
    }
}

/// The (predicate, pattern) pairs a rule's positive body atoms ask for, in order.
pub open spec fn body_requests(body: Seq<VAtom>, r: VRule, hp: Seq<char>) -> Seq<(Seq<char>, Seq<char>)>
    decreases body.len(),
{
    if body.len() == 0 {
        Seq::empty()
    } else {
        let q = body_requests(body.drop_last(), r, hp);
        let a = body.last();
        if a.negated {
            q
        } else {
            q.push((a.pred, atom_pattern(a, r, hp)))
        }
    }
}

/// The rules for a predicate, adorned with a pattern, and the pairs their
/// bodies ask for, rule by rule.
pub open spec fn adorn_matching(rules: Seq<VRule>, pred: Seq<char>, hp: Seq<char>) -> (
    Seq<(Seq<char>, Seq<char>)>,
    Seq<VRule>,
)
    decreases rules.len(),
{
    if rules.len() == 0 {
        (Seq::empty(), Seq::empty())
    } else {
        let (q, out) = adorn_matching(rules.drop_last(), pred, hp);
        let r = rules.last();
        if r.head.pred == pred {
            let ar = adorn(r, hp);
            (q + body_requests(ar.body, ar, hp), out.push(ar))
        } else {
            (q, out)
        }
    }
}

/// All patterns of a length, in order.
pub open spec fn all_patterns(n: nat) -> Seq<Seq<char>>
    decreases n,
{
    if n == 0 {
        seq![Seq::empty()]
    } else {
        let p = all_patterns((n - 1) as nat);
        p.map_values(|s: Seq<char>| s.push('b')) + p.map_values(|s: Seq<char>| s.push('f'))
    }
}

/// Every (predicate, pattern) pair the body atoms of rules can ask for.
pub open spec fn rules_universe(rules: Seq<VRule>) -> Seq<(Seq<char>, Seq<char>)>
    decreases rules.len(),
{
    if rules.len() == 0 {
        Seq::empty()
    } else {
        rules_universe(rules.drop_last()) + body_universe(rules.last().body)
    }
}

/// Every (predicate, pattern) pair the atoms of a body can ask for.
pub open spec fn body_universe(body: Seq<VAtom>) -> Seq<(Seq<char>, Seq<char>)>
    decreases body.len(),
{
    if body.len() == 0 {
        Seq::empty()
    } else {
        body_universe(body.drop_last()) + all_patterns(body.last().terms.len()).map_values(
            |s: Seq<char>| (body.last().pred, s),
        )
    }
}

/// The search may only meet pairs from the universe, and processes each once.
pub open spec fn search_ok(
    universe: Seq<(Seq<char>, Seq<char>)>,
    processed: Seq<(Seq<char>, Seq<char>)>,
    queue: Seq<(Seq<char>, Seq<char>)>,
) -> bool {
    &&& processed.no_duplicates()
    &&& forall|i: int| 0 <= i < processed.len() ==> universe.contains(#[trigger] processed[i])
    &&& forall|i: int| 0 <= i < queue.len() ==> universe.contains(#[trigger] queue[i])
}

/// The adorned program: a breadth-first search over (predicate, pattern)
/// pairs from the query's; each pair met for the first time adorns the rules
/// for its predicate and queues the pairs their positive body atoms ask for.
pub open spec fn adorn_search(
    rules: Seq<VRule>,
    universe: Seq<(Seq<char>, Seq<char>)>,
    processed: Seq<(Seq<char>, Seq<char>)>,
    queue: Seq<(Seq<char>, Seq<char>)>,
    out: Seq<VRule>,
) -> Seq<VRule>
    decreases universe.len() - processed.len(), queue.len(),
    when search_ok(universe, processed, queue)
{
    if queue.len() == 0 {
        out
    } else {
        let pair = queue[0];
        if processed.contains(pair) {
            proof {
                lemma_processed_bound(universe, processed);
            }
            adorn_search(rules, universe, processed, queue.drop_first(), out)
        } else {
            let (pushes, adorned) = adorn_matching(rules, pair.0, pair.1);
            proof {
                lemma_processed_bound(universe, processed.push(pair));
            }
            adorn_search(rules, universe, processed.push(pair), queue.drop_first() + pushes, out + adorned)
        }
    }
}

pub proof fn lemma_processed_bound(universe: Seq<(Seq<char>, Seq<char>)>, processed: Seq<(Seq<char>, Seq<char>)>)
    requires
        processed.no_duplicates(),
        forall|i: int| 0 <= i < processed.len() ==> universe.contains(#[trigger] processed[i]),
    ensures
        processed.len() <= universe.len(),
{
    processed.unique_seq_to_set();
    universe.lemma_cardinality_of_set();
    assert(processed.to_set().subset_of(universe.to_set())) by {
        assert forall|x| processed.to_set().contains(x) implies universe.to_set().contains(x) by {
            let i = choose|i: int| 0 <= i < processed.len() && processed[i] == x;
            assert(universe.contains(processed[i]));
        }
    }
    vstd::set_lib::lemma_len_subset(processed.to_set(), universe.to_set());
}


pub proof fn lemma_all_patterns_contains(n: nat, s: Seq<char>)
    requires
        s.len() == n,
        valid_pattern(s),
    ensures
        all_patterns(n).contains(s),
    decreases n,
{
    if n > 0 {
        let d = s.drop_last();
        assert(valid_pattern(d)) by {
            assert forall|i: int| 0 <= i < d.len() implies #[trigger] d[i] == 'b' || d[i] == 'f' by {
                assert(d[i] == s[i]);
            }
        }
        lemma_all_patterns_contains((n - 1) as nat, d);
        let p = all_patterns((n - 1) as nat);
        let k = choose|k: int| 0 <= k < p.len() && p[k] == d;
        assert(s =~= d.push(s.last()));
        let left = p.map_values(|x: Seq<char>| x.push('b'));
        let right = p.map_values(|x: Seq<char>| x.push('f'));
        assert(s.last() == s[s.len() - 1]);
        assert(left[k] == d.push('b'));
        assert(right[k] == d.push('f'));
        if s.last() == 'b' {
            assert((left + right)[k] == s);
        } else {
            assert(s.last() == 'f');
            assert((left + right)[left.len() + k] == s);
        }
        assert(all_patterns(n) == left + right);
    } else {
        assert(s =~= Seq::<char>::empty());
        assert(all_patterns(n)[0] == s);
    }
}

proof fn lemma_requests_in_body_universe(body: Seq<VAtom>, r: VRule, hp: Seq<char>)
    ensures
        forall|x| #[trigger] body_requests(body, r, hp).contains(x) ==> body_universe(body).contains(x),
    decreases body.len(),
{
    if body.len() > 0 {
        lemma_requests_in_body_universe(body.drop_last(), r, hp);
        let a = body.last();
        let q = body_requests(body.drop_last(), r, hp);
        let bu = body_universe(body.drop_last());
        let ap = all_patterns(a.terms.len()).map_values(|s: Seq<char>| (a.pred, s));
        assert forall|x| #[trigger] body_requests(body, r, hp).contains(x) implies body_universe(body).contains(x) by {
            let br = body_requests(body, r, hp);
            let k = choose|k: int| 0 <= k < br.len() && br[k] == x;
            if k < q.len() {
                assert(q[k] == x);
                assert(q.contains(x));
                let j = choose|j: int| 0 <= j < bu.len() && bu[j] == x;
                assert((bu + ap)[j] == x);
            } else {
                let pat = atom_pattern(a, r, hp);
                assert(valid_pattern(pat));
                lemma_all_patterns_contains(a.terms.len(), pat);
                let pats = all_patterns(a.terms.len());
                let j = choose|j: int| 0 <= j < pats.len() && pats[j] == pat;
                assert(ap[j] == (a.pred, pat));
                assert((bu + ap)[bu.len() + j] == x);
            }
        }
    }
}

pub proof fn lemma_requests_in_universe(rules: Seq<VRule>, pred: Seq<char>, hp: Seq<char>)
    ensures
        forall|x| #[trigger] adorn_matching(rules, pred, hp).0.contains(x) ==> rules_universe(rules).contains(x),
    decreases rules.len(),
{
    if rules.len() > 0 {
        lemma_requests_in_universe(rules.drop_last(), pred, hp);
        let r = rules.last();
        let (q, out) = adorn_matching(rules.drop_last(), pred, hp);
        let ru = rules_universe(rules.drop_last());
        let bu = body_universe(r.body);
        assert forall|x| #[trigger] adorn_matching(rules, pred, hp).0.contains(x) implies rules_universe(rules).contains(x) by {
            let all = adorn_matching(rules, pred, hp).0;
            let k = choose|k: int| 0 <= k < all.len() && all[k] == x;
            if r.head.pred == pred && k >= q.len() {
                let ar = adorn(r, hp);
                let br = body_requests(ar.body, ar, hp);
                assert(br[k - q.len()] == x);
                assert(br.contains(x));
                lemma_requests_in_body_universe(ar.body, ar, hp);
                assert(bu.contains(x));
                let j = choose|j: int| 0 <= j < bu.len() && bu[j] == x;
                assert((ru + bu)[ru.len() + j] == x);
            } else {
                assert(q[k] == x);
                assert(q.contains(x));
                let j = choose|j: int| 0 <= j < ru.len() && ru[j] == x;
                assert((ru + bu)[j] == x);
            }
        }
    }
}

/// The models of string pairs.
pub open spec fn pairs_view(s: Seq<(String, String)>) -> Seq<(Seq<char>, Seq<char>)> {
    s.map_values(|p: (String, String)| (p.0@, p.1@))
}

fn pair_in(v: &Vec<(String, String)>, a: &String, b: &String) -> (r: bool)
    ensures
        r == pairs_view(v@).contains((a@, b@)),
{
    let mut i: usize = 0;
    while i < v.len()
        invariant
            i <= v@.len(),
            forall|j: int| 0 <= j < i ==> (v@[j].0@, v@[j].1@) != (a@, b@),
        decreases v.len() - i,
    {
        if v[i].0 == *a && v[i].1 == *b {
            assert(pairs_view(v@)[i as int] == (a@, b@));
            return true;
        }
        i = i + 1;
    }
    assert(!pairs_view(v@).contains((a@, b@))) by {
        if pairs_view(v@).contains((a@, b@)) {
            let k = choose|k: int| 0 <= k < pairs_view(v@).len() && pairs_view(v@)[k] == (a@, b@);
            assert(pairs_view(v@)[k] == (v@[k].0@, v@[k].1@));
        }
    }
    false
}

/// Whether a variable is bound at an atom of a rule whose head has a pattern.
fn is_variable_bound(var: &String, rule: &Rule, head_pattern: &Vec<char>, current: &Atom) -> (r: bool)
    ensures
        r == var_bound(var@, rule@, head_pattern@, current@),
{
    let ghost hv = rule@.head.terms;
    let mut i: usize = 0;
    while i < rule.head.terms.len()
        invariant
            i <= rule.head.terms@.len(),
            hv == rule@.head.terms,
            forall|j: int| 0 <= j < i && j < head_pattern@.len() && #[trigger] hv[j] == VTerm::Var(var@) ==> head_pattern@[j] != 'b',
        decreases rule.head.terms.len() - i,
    {
        match &rule.head.terms[i] {
            Term::Variable(v) => {
                if *v == *var && i < head_pattern.len() && head_pattern[i] == 'b' {
                    assert(hv[i as int] == VTerm::Var(var@));
                    return true;
                }
            },
            Term::Constant(_) => {},
        }
        i = i + 1;
    }
    assert(!head_bound(hv, head_pattern@, var@));
    let ghost bv = rule@.body;
    let ghost stop = first_equal(bv, current@);
    proof {
        lemma_first_equal(bv, current@);
    }
    let mut j: usize = 0;
    while j < rule.body.len()
        invariant
            j <= rule.body@.len(),
            bv == rule@.body,
            stop == first_equal(bv, current@),
            0 <= stop <= bv.len(),
            j <= stop,
            forall|x: int| 0 <= x < j ==> bv[x] != current@,
            !head_bound(hv, head_pattern@, var@),
            hv == rule@.head.terms,
            forall|x: int, k: int| 0 <= x < j && 0 <= k < bv[x].terms.len() ==> #[trigger] bv[x].terms[k] != VTerm::Var(var@),
        decreases rule.body.len() - j,
    {
        let atom = &rule.body[j];
        assert(bv[j as int] == atom@);
        if crate::datalog::types::atom_eq(atom, current) {
            proof {
                lemma_first_equal_is(bv, current@, j as int);
            }
            assert(!earlier_binds(bv, stop, var@));
            return false;
        }
        proof {
            lemma_first_equal_past(bv, current@, j as int);
        }
        let mut k: usize = 0;
        while k < atom.terms.len()
            invariant
                k <= atom.terms@.len(),
                j < bv.len(),
                j < stop,
                bv == rule@.body,
                stop == first_equal(bv, current@),
                bv[j as int] == atom@,
                forall|y: int| 0 <= y < k ==> #[trigger] atom@.terms[y] != VTerm::Var(var@),
            decreases atom.terms.len() - k,
        {
            match &atom.terms[k] {
                Term::Variable(v) => {
                    if *v == *var {
                        assert(atom@.terms[k as int] == VTerm::Var(var@));
                        assert(bv[j as int].terms[k as int] == VTerm::Var(var@));
                        assert(earlier_binds(bv, stop, var@));
                        return true;
                    }
                },
                Term::Constant(_) => {},
            }
            k = k + 1;
        }
        j = j + 1;
    }
    assert(!earlier_binds(bv, stop, var@));
    false
}

proof fn lemma_first_equal(body: Seq<VAtom>, a: VAtom)
    ensures
        0 <= first_equal(body, a) <= body.len(),
        first_equal(body, a) < body.len() ==> body[first_equal(body, a)] == a,
        forall|x: int| 0 <= x < first_equal(body, a) ==> body[x] != a,
    decreases body.len(),
{
    if body.len() > 0 {
        lemma_first_equal(body.drop_last(), a);
        assert forall|x: int| 0 <= x < body.len() - 1 implies body.drop_last()[x] == body[x] by {}
    }
}

proof fn lemma_first_equal_is(body: Seq<VAtom>, a: VAtom, j: int)
    requires
        0 <= j < body.len(),
        body[j] == a,
        forall|x: int| 0 <= x < j ==> body[x] != a,
    ensures
        first_equal(body, a) == j,
{
    lemma_first_equal(body, a);
    let f = first_equal(body, a);
    if f < j {
        assert(body[f] == a);
    } else if f > j {
        assert(body[j] != a);
    }
}

proof fn lemma_first_equal_past(body: Seq<VAtom>, a: VAtom, j: int)
    requires
        0 <= j < body.len(),
        body[j] != a,
        forall|x: int| 0 <= x < j ==> body[x] != a,
    ensures
        j < first_equal(body, a),
{
    lemma_first_equal(body, a);
    let f = first_equal(body, a);
    if f <= j {
        if f < j {
            assert(body[f] != a);
        }
        assert(f < body.len());
        assert(body[f] == a);
    }
}

/// The binding pattern of a body atom in a rule whose head has a pattern.
fn compute_binding_pattern(atom: &Atom, rule: &Rule, head_pattern: &Vec<char>) -> (r: Vec<char>)
    ensures
        r@ == atom_pattern(atom@, rule@, head_pattern@),
{
    let mut out: Vec<char> = Vec::new();
    let mut i: usize = 0;
    while i < atom.terms.len()
        invariant
            i <= atom.terms@.len(),
            out@ == atom_pattern(atom@, rule@, head_pattern@).take(i as int),
        decreases atom.terms.len() - i,
    {
        let bound = match &atom.terms[i] {
            Term::Constant(_) => true,
            Term::Variable(v) => is_variable_bound(v, rule, head_pattern, atom),
        };
        out.push(if bound { 'b' } else { 'f' });
        assert(atom_pattern(atom@, rule@, head_pattern@).take(i + 1) =~= atom_pattern(atom@, rule@, head_pattern@).take(
            i as int,
        ).push(atom_pattern(atom@, rule@, head_pattern@)[i as int]));
        i = i + 1;
    }
    assert(atom_pattern(atom@, rule@, head_pattern@).take(i as int) =~= atom_pattern(atom@, rule@, head_pattern@));
    out
}


/// The part of a name after its last underscore (all of it when it has none).
pub open spec fn last_segment(s: Seq<char>) -> Seq<char>
    decreases s.len(),
{
    if s.len() == 0 {
        s
    } else if s.last() == '_' {
        Seq::empty()
    } else {
        last_segment(s.drop_last()).push(s.last())
    }
}

/// The first `n` terms at the positions a pattern marks `b`.
pub open spec fn bound_terms(ts: Seq<VTerm>, pat: Seq<char>, n: nat) -> Seq<VTerm>
    decreases n,
{
    if n == 0 {
        Seq::empty()
    } else {
        let r = bound_terms(ts, pat, (n - 1) as nat);
        if n - 1 < pat.len() && pat[n - 1] == 'b' {
            r.push(ts[n - 1])
        } else {
            r
        }
    }
}

/// The magic atom of an atom: the magic predicate over the terms at the
/// positions that the pattern ending its predicate's name marks bound.
pub open spec fn magic_atom(a: VAtom, magic_pred: Seq<char>) -> VAtom {
    VAtom {
        pred: magic_pred,
        terms: bound_terms(a.terms, last_segment(a.pred), a.terms.len()),
        negated: false,
    }
}

/// The magic rules of one adorned rule: for each positive body atom, its
/// magic atom follows from the head's magic atom and the positive atoms before it.
pub open spec fn magic_rules_upto(r: VRule, k: nat) -> (Seq<VRule>, Seq<VAtom>)
    decreases k,
{
    if k == 0 || k > r.body.len() {
        (Seq::empty(), Seq::empty())
    } else {
        let (rules, cum) = magic_rules_upto(r, (k - 1) as nat);
        let a = r.body[k - 1];
        if a.negated {
            (rules, cum)
        } else {
            let body = seq![magic_atom(r.head, magic_name(r.head.pred))] + cum;
            let head = magic_atom(a, magic_name(a.pred));
            (rules.push(VRule { head, body, stratum: 0 }), cum.push(a))
        }
    }
}

/// The magic rules of adorned rules, rule by rule.
pub open spec fn all_magic_rules(rs: Seq<VRule>) -> Seq<VRule>
    decreases rs.len(),
{
    if rs.len() == 0 {
        Seq::empty()
    } else {
        all_magic_rules(rs.drop_last()) + magic_rules_upto(rs.last(), rs.last().body.len()).0
    }
}

/// Rules without those whose rendering an earlier one already has.
pub open spec fn dedup_rendered(rs: Seq<VRule>) -> Seq<VRule>
    decreases rs.len(),
{
    if rs.len() == 0 {
        Seq::empty()
    } else {
        let d = dedup_rendered(rs.drop_last());
        if d.map_values(|x: VRule| render_rule(x)).contains(render_rule(rs.last())) {
            d
        } else {
            d.push(rs.last())
        }
    }
}

/// Adorned rules with their head's magic atom put first in the body.
pub open spec fn with_magic_filters(rs: Seq<VRule>) -> Seq<VRule> {
    Seq::new(
        rs.len(),
        |i: int|
            VRule {
                head: rs[i].head,
                body: seq![magic_atom(rs[i].head, magic_name(rs[i].head.pred))] + rs[i].body,
                stratum: 0,
            },
    )
}

/// The constants of the bound arguments, in order.
pub open spec fn bound_constants(bound: Seq<Option<Value>>) -> Seq<VTerm>
    decreases bound.len(),
{
    if bound.len() == 0 {
        Seq::empty()
    } else {
        let r = bound_constants(bound.drop_last());
        match bound.last() {
            Some(v) => r.push(VTerm::Const(v@)),
            None => r,
        }
    }
}

/// The seed fact of a query: the magic fact of its adorned predicate over its
/// bound values; none when nothing is bound.
pub open spec fn seed_rules(qpred: Seq<char>, bound: Seq<Option<Value>>) -> Seq<VRule> {
    let terms = bound_constants(bound);
    if terms.len() == 0 {
        Seq::empty()
    } else {
        seq![VRule {
            head: VAtom { pred: magic_name(adorned_name(qpred, pattern_of(bound))), terms, negated: false },
            body: Seq::empty(),
            stratum: 0,
        }]
    }
}

/// The adorned program of a query over rules.
pub open spec fn adorned_program(rules: Seq<VRule>, qpred: Seq<char>, bound: Seq<Option<Value>>) -> Seq<VRule> {
    let qpair = (qpred, pattern_of(bound));
    adorn_search(rules, seq![qpair] + rules_universe(rules), Seq::empty(), seq![qpair], Seq::empty())
}

/// The transformed program: seed facts, then magic rules, then adorned rules
/// filtered by their magic atoms.
pub open spec fn transform_spec(rules: Seq<VRule>, qpred: Seq<char>, bound: Seq<Option<Value>>) -> Seq<VRule> {
    let adorned = adorned_program(rules, qpred, bound);
    seed_rules(qpred, bound) + dedup_rendered(all_magic_rules(adorned)) + with_magic_filters(adorned)
}

/// Whether the text is plain ASCII.
pub open spec fn ascii_text(s: Seq<char>) -> bool {
    forall|i: int| 0 <= i < s.len() ==> (#[trigger] s[i] as u32) < 128
}

/// The first `n` characters of a text, or all of it when it is shorter.
pub open spec fn prefix_upto(s: Seq<char>, n: int) -> Seq<char> {
    if 0 <= n <= s.len() {
        s.take(n)
    } else {
        s
    }
}

/// The characters of an atom's pattern that its magic atom reads, one per
/// term, are ASCII (the pattern is read byte by byte at those positions).
pub open spec fn pattern_ascii(a: VAtom) -> bool {
    ascii_text(prefix_upto(last_segment(a.pred), a.terms.len() as int))
}

/// An ASCII text has ASCII prefixes.
proof fn lemma_prefix_ascii(s: Seq<char>, n: int)
    requires
        ascii_text(s),
    ensures
        ascii_text(prefix_upto(s, n)),
{
    if 0 <= n <= s.len() {
        assert forall|i: int| 0 <= i < s.take(n).len() implies (#[trigger] s.take(n)[i] as u32) < 128 by {
            assert(s.take(n)[i] == s[i]);
        }
    }
}

/// Every body atom reads only ASCII characters of its pattern.
pub open spec fn body_segments_ascii(rules: Seq<VRule>) -> bool {
    forall|i: int, j: int|
        0 <= i < rules.len() && 0 <= j < rules[i].body.len() ==> pattern_ascii(#[trigger] rules[i].body[j])
}

/// Model of a magic sets transformer: its rules and the magic predicate names recorded.
pub struct VMagic {
    /// The rules
    pub rules: Seq<VRule>,
    /// Magic predicate names recorded so far
    pub magic: Set<Seq<char>>,
    /// The rules of the latest transformation (the rules given, before any)
    pub transformed: Seq<VRule>,
}

/// Rewrites rules for a query with magic sets.
#[derive(Debug)]
pub struct MagicSetsTransformer {
    rules: Vec<Rule>,
    magic_predicates: Vec<String>,
    adorned_predicates: Vec<((String, String), String)>,
    transformed: Vec<Rule>,
}

impl View for MagicSetsTransformer {
    type V = VMagic;

    closed spec fn view(&self) -> VMagic {
        VMagic {
            rules: models(self.rules@),
            magic: strings_set(self.magic_predicates@),
            transformed: models(self.transformed@),
        }
    }
}

fn name_index(v: &Vec<String>, name: &String) -> (r: Option<usize>)
    ensures
        match r {
            Some(i) => i < v@.len() && v@[i as int]@ == name@,
            None => forall|j: int| 0 <= j < v@.len() ==> v@[j]@ != name@,
        },
{
    let mut i: usize = 0;
    while i < v.len()
        invariant
            i <= v@.len(),
            forall|j: int| 0 <= j < i ==> v@[j]@ != name@,
        decreases v.len() - i,
    {
        if v[i] == *name {
            return Some(i);
        }
        i = i + 1;
    }
    None
}

/// The set of the models of strings.
pub open spec fn strings_set(s: Seq<String>) -> Set<Seq<char>> {
    Set::new(|m: Seq<char>| exists|i: int| 0 <= i < s.len() && #[trigger] s[i]@ == m)
}

/// The cached adorned names are the names their keys give.
pub open spec fn cache_ok(c: Seq<((String, String), String)>) -> bool {
    forall|i: int| 0 <= i < c.len() ==> (#[trigger] c[i]).1@ == adorned_name(c[i].0.0@, c[i].0.1@)
}

impl MagicSetsTransformer {
    #[verifier::type_invariant]
    spec fn inv(self) -> bool {
        cache_ok(self.adorned_predicates@)
    }

    /// A transformer over rules.
    pub fn new(rules: Vec<Rule>) -> (r: Self)
        ensures
            r@ == (VMagic { rules: models(rules@), magic: Set::empty(), transformed: models(rules@) }),
    {
        let transformed = crate::datalog::types::rules_clone(&rules);
        let ghost given = models(rules@);
        let r = MagicSetsTransformer { rules, magic_predicates: Vec::new(), adorned_predicates: Vec::new(), transformed };
        assert(models(r.transformed@) == given);
        assert(strings_set(r.magic_predicates@) =~= Set::<Seq<char>>::empty());
        r
    }

    /// The name of a predicate adorned with a pattern (kept in a cache).
    pub fn get_adorned_predicate(&mut self, pred: &str, pattern: &str) -> (r: String)
        ensures
            r@ == adorned_name(pred@, pattern@),
            final(self)@ == old(self)@,
    {
        proof {
            use_type_invariant(&*self);
        }
        let mut i: usize = 0;
        while i < self.adorned_predicates.len()
            invariant
                i <= self.adorned_predicates@.len(),
                cache_ok(self.adorned_predicates@),
            decreases self.adorned_predicates.len() - i,
        {
            if str_eq(self.adorned_predicates[i].0.0.as_str(), pred) && str_eq(
                self.adorned_predicates[i].0.1.as_str(),
                pattern,
            ) {
                assert(self.adorned_predicates@[i as int].1@ == adorned_name(pred@, pattern@));
                return self.adorned_predicates[i].1.clone();
            }
            i = i + 1;
        }
        let mut name = owned(pred);
        crate::text::push_char(&mut name, '_');
        name.append(pattern);
        let mut cache: Vec<((String, String), String)> = Vec::new();
        std::mem::swap(&mut cache, &mut self.adorned_predicates);
        let ghost before = cache@;
        let key = (owned(pred), owned(pattern));
        let copy = owned(name.as_str());
        cache.push((key, copy));
        assert(cache_ok(cache@)) by {
            assert forall|k: int| 0 <= k < cache@.len() implies (#[trigger] cache@[k]).1@ == adorned_name(
                cache@[k].0.0@,
                cache@[k].0.1@,
            ) by {
                if k < before.len() {
                    assert(cache@[k] == before[k]);
                }
            }
        }
        self.adorned_predicates = cache;
        name
    }

    /// The name of the magic predicate of a predicate, recorded as magic.
    pub fn get_magic_predicate(&mut self, adorned_pred: &str) -> (r: String)
        ensures
            r@ == magic_name(adorned_pred@),
            final(self)@ == (VMagic { magic: old(self)@.magic.insert(r@), ..old(self)@ }),
    {
        proof {
            use_type_invariant(&*self);
        }
        let mut name = owned("magic_");
        name.append(adorned_pred);
        match name_index(&self.magic_predicates, &name) {
            Some(i) => {
                assert(strings_set(self.magic_predicates@).insert(name@) =~= strings_set(self.magic_predicates@)) by {
                    assert(self.magic_predicates@[i as int]@ == name@);
                }
            },
            None => {
                let ghost before = self.magic_predicates@;
                let mut names: Vec<String> = Vec::new();
                std::mem::swap(&mut names, &mut self.magic_predicates);
                names.push(name.clone());
                assert(strings_set(names@) =~= strings_set(before).insert(name@)) by {
                    assert(names@[before.len() as int]@ == name@);
                    assert forall|m| #[trigger] strings_set(before).contains(m) implies strings_set(names@).contains(m) by {
                        let k = choose|k: int| 0 <= k < before.len() && #[trigger] before[k]@ == m;
                        assert(names@[k] == before[k]);
                    }
                }
                self.magic_predicates = names;
            },
        }
        name
    }

    /// The rules of the latest transformation; the rules given, before any.
    pub fn get_transformed_rules(&self) -> (r: Vec<Rule>)
        ensures
            models(r@) == self@.transformed,
    {
        let r = crate::datalog::types::rules_clone(&self.transformed);
        assert(models(r@) =~= models(self.transformed@));
        r
    }

    /// Whether a name was recorded as a magic predicate.
    pub fn is_magic_predicate(&self, pred: &str) -> (r: bool)
        ensures
            r == self@.magic.contains(pred@),
    {
        let mut i: usize = 0;
        while i < self.magic_predicates.len()
            invariant
                i <= self.magic_predicates@.len(),
                forall|j: int| 0 <= j < i ==> self.magic_predicates@[j]@ != pred@,
            decreases self.magic_predicates.len() - i,
        {
            if str_eq(self.magic_predicates[i].as_str(), pred) {
                assert(self.magic_predicates@[i as int]@ == pred@);
                return true;
            }
            i = i + 1;
        }
        false
    }

    /// The magic predicate names recorded so far.
    pub fn magic_predicates(&self) -> (r: &Vec<String>)
        ensures
            strings_set(r@) == self@.magic,
    {
        &self.magic_predicates
    }
}


/// An adorned rule keeps the body of one of the rules, and its head's name
/// ends in an ASCII segment.
pub open spec fn adorned_ok(x: VRule, rules: Seq<VRule>) -> bool {
    &&& body_seqs(rules).contains(x.body)
    &&& ascii_text(last_segment(x.head.pred))
}

proof fn lemma_all_patterns_valid(n: nat)
    ensures
        forall|k: int| 0 <= k < all_patterns(n).len() ==> valid_pattern(#[trigger] all_patterns(n)[k]),
    decreases n,
{
    if n > 0 {
        lemma_all_patterns_valid((n - 1) as nat);
        let p = all_patterns((n - 1) as nat);
        let left = p.map_values(|x: Seq<char>| x.push('b'));
        let right = p.map_values(|x: Seq<char>| x.push('f'));
        assert forall|k: int| 0 <= k < (left + right).len() implies valid_pattern(#[trigger] (left + right)[k]) by {
            if k < left.len() {
                assert(valid_pattern(p[k]));
                assert(left[k] == p[k].push('b'));
                assert forall|i: int| 0 <= i < left[k].len() implies #[trigger] left[k][i] == 'b' || left[k][i] == 'f' by {
                    if i < p[k].len() {
                        assert(left[k][i] == p[k][i]);
                    }
                }
            } else {
                let j = k - left.len();
                assert(valid_pattern(p[j]));
                assert(right[j] == p[j].push('f'));
                assert forall|i: int| 0 <= i < right[j].len() implies #[trigger] right[j][i] == 'b' || right[j][i] == 'f' by {
                    if i < p[j].len() {
                        assert(right[j][i] == p[j][i]);
                    }
                }
            }
        }
    } else {
        assert(valid_pattern(Seq::<char>::empty()));
    }
}

proof fn lemma_body_universe_valid(body: Seq<VAtom>)
    ensures
        forall|k: int| 0 <= k < body_universe(body).len() ==> valid_pattern(#[trigger] body_universe(body)[k].1),
    decreases body.len(),
{
    if body.len() > 0 {
        lemma_body_universe_valid(body.drop_last());
        let a = body.last();
        lemma_all_patterns_valid(a.terms.len());
        let bu = body_universe(body.drop_last());
        let ap = all_patterns(a.terms.len()).map_values(|s: Seq<char>| (a.pred, s));
        assert forall|k: int| 0 <= k < (bu + ap).len() implies valid_pattern(#[trigger] (bu + ap)[k].1) by {
            if k < bu.len() {
                assert((bu + ap)[k] == bu[k]);
            } else {
                assert(ap[k - bu.len()].1 == all_patterns(a.terms.len())[k - bu.len()]);
            }
        }
    }
}

proof fn lemma_rules_universe_valid(rules: Seq<VRule>)
    ensures
        forall|k: int| 0 <= k < rules_universe(rules).len() ==> valid_pattern(#[trigger] rules_universe(rules)[k].1),
    decreases rules.len(),
{
    if rules.len() > 0 {
        lemma_rules_universe_valid(rules.drop_last());
        lemma_body_universe_valid(rules.last().body);
        let ru = rules_universe(rules.drop_last());
        let bu = body_universe(rules.last().body);
        assert forall|k: int| 0 <= k < (ru + bu).len() implies valid_pattern(#[trigger] (ru + bu)[k].1) by {
            if k < ru.len() {
                assert((ru + bu)[k] == ru[k]);
            } else {
                assert((ru + bu)[k] == bu[k - ru.len()]);
            }
        }
    }
}

proof fn lemma_segment_of_adorned(p: Seq<char>, hp: Seq<char>)
    requires
        valid_pattern(hp),
    ensures
        last_segment(adorned_name(p, hp)) == hp,
        ascii_text(hp),
    decreases hp.len(),
{
    if hp.len() == 0 {
        assert(adorned_name(p, hp) =~= p.push('_'));
        assert(adorned_name(p, hp).drop_last() =~= p);
    } else {
        let d = hp.drop_last();
        assert(valid_pattern(d)) by {
            assert forall|i: int| 0 <= i < d.len() implies #[trigger] d[i] == 'b' || d[i] == 'f' by {
                assert(d[i] == hp[i]);
            }
        }
        lemma_segment_of_adorned(p, d);
        assert(adorned_name(p, hp).drop_last() =~= adorned_name(p, d));
        assert(adorned_name(p, hp).last() == hp.last());
        assert(hp.last() == hp[hp.len() - 1]);
        assert(d.push(hp.last()) =~= hp);
    }
    assert forall|i: int| 0 <= i < hp.len() implies (#[trigger] hp[i] as u32) < 128 by {
        assert(hp[i] == 'b' || hp[i] == 'f');
    }
}

/// Every rule has the body of one of `all`.
pub open spec fn bodies_from(rules: Seq<VRule>, all: Seq<VRule>) -> bool {
    forall|i: int| 0 <= i < rules.len() ==> body_seqs(all).contains(#[trigger] rules[i].body)
}

/// The bodies of rules.
pub open spec fn body_seqs(rules: Seq<VRule>) -> Seq<Seq<VAtom>> {
    rules.map_values(|r: VRule| r.body)
}

proof fn lemma_adorn_matching_ok(rules: Seq<VRule>, all: Seq<VRule>, pred: Seq<char>, hp: Seq<char>)
    requires
        valid_pattern(hp),
        bodies_from(rules, all),
    ensures
        forall|k: int| 0 <= k < adorn_matching(rules, pred, hp).1.len() ==> adorned_ok(
            #[trigger] adorn_matching(rules, pred, hp).1[k],
            all,
        ),
    decreases rules.len(),
{
    if rules.len() > 0 {
        assert(bodies_from(rules.drop_last(), all)) by {
            assert forall|i: int| 0 <= i < rules.drop_last().len() implies body_seqs(all).contains(
                #[trigger] rules.drop_last()[i].body,
            ) by {
                assert(rules.drop_last()[i] == rules[i]);
            }
        }
        lemma_adorn_matching_ok(rules.drop_last(), all, pred, hp);
        let r = rules.last();
        let (q, out) = adorn_matching(rules.drop_last(), pred, hp);
        if r.head.pred == pred {
            let ar = adorn(r, hp);
            lemma_segment_of_adorned(r.head.pred, hp);
            assert(rules[rules.len() - 1] == r);
            assert(adorned_ok(ar, all));
            assert forall|k: int| 0 <= k < out.push(ar).len() implies adorned_ok(#[trigger] out.push(ar)[k], all) by {
                if k < out.len() {
                    assert(out.push(ar)[k] == out[k]);
                }
            }
        }
    }
}

proof fn lemma_adorn_search_ok(
    rules: Seq<VRule>,
    universe: Seq<(Seq<char>, Seq<char>)>,
    processed: Seq<(Seq<char>, Seq<char>)>,
    queue: Seq<(Seq<char>, Seq<char>)>,
    out: Seq<VRule>,
)
    requires
        search_ok(universe, processed, queue),
        forall|k: int| 0 <= k < universe.len() ==> valid_pattern(#[trigger] universe[k].1),
        forall|k: int| 0 <= k < out.len() ==> adorned_ok(#[trigger] out[k], rules),
        forall|x| #[trigger] rules_universe(rules).contains(x) ==> universe.contains(x),
    ensures
        forall|k: int| 0 <= k < adorn_search(rules, universe, processed, queue, out).len() ==> adorned_ok(
            #[trigger] adorn_search(rules, universe, processed, queue, out)[k],
            rules,
        ),
    decreases universe.len() - processed.len(), queue.len(),
{
    if queue.len() > 0 {
        let pair = queue[0];
        assert(universe.contains(queue[0]));
        let w = choose|w: int| 0 <= w < universe.len() && universe[w] == pair;
        assert(valid_pattern(universe[w].1));
        if processed.contains(pair) {
            lemma_processed_bound(universe, processed);
            assert forall|i: int| 0 <= i < queue.drop_first().len() implies universe.contains(#[trigger] queue.drop_first()[i]) by {
                assert(queue.drop_first()[i] == queue[i + 1]);
            }
            lemma_adorn_search_ok(rules, universe, processed, queue.drop_first(), out);
            assert(adorn_search(rules, universe, processed, queue, out) == adorn_search(
                rules,
                universe,
                processed,
                queue.drop_first(),
                out,
            ));
        } else {
            let (pushes, adorned) = adorn_matching(rules, pair.0, pair.1);
            let p2 = processed.push(pair);
            let q2 = queue.drop_first() + pushes;
            assert(p2.no_duplicates()) by {
                assert forall|i: int, j: int| 0 <= i < j < p2.len() implies p2[i] != p2[j] by {
                    if j == processed.len() {
                        assert(p2[i] == processed[i]);
                    }
                }
            }
            assert forall|i: int| 0 <= i < p2.len() implies universe.contains(#[trigger] p2[i]) by {
                if i < processed.len() {
                    assert(p2[i] == processed[i]);
                }
            }
            lemma_requests_in_universe(rules, pair.0, pair.1);
            assert forall|i: int| 0 <= i < q2.len() implies universe.contains(#[trigger] q2[i]) by {
                if i < queue.drop_first().len() {
                    assert(q2[i] == queue[i + 1]);
                } else {
                    assert(q2[i] == pushes[i - queue.drop_first().len()]);
                    assert(pushes.contains(q2[i]));
                }
            }
            lemma_processed_bound(universe, p2);
            assert(bodies_from(rules, rules)) by {
                assert forall|i: int| 0 <= i < rules.len() implies body_seqs(rules).contains(#[trigger] rules[i].body) by {
                    assert(body_seqs(rules)[i] == rules[i].body);
                }
            }
            lemma_adorn_matching_ok(rules, rules, pair.0, pair.1);
            assert forall|k: int| 0 <= k < (out + adorned).len() implies adorned_ok(#[trigger] (out + adorned)[k], rules) by {
                if k < out.len() {
                    assert((out + adorned)[k] == out[k]);
                } else {
                    assert((out + adorned)[k] == adorned[k - out.len()]);
                }
            }
            lemma_adorn_search_ok(rules, universe, p2, q2, out + adorned);
            assert(adorn_search(rules, universe, processed, queue, out) == adorn_search(
                rules,
                universe,
                p2,
                q2,
                out + adorned,
            ));
        }
    }
}


fn last_segment_exec(s: &str) -> (r: Vec<char>)
    ensures
        r@ == last_segment(s@),
{
    let cs = chars_of(s);
    let n = cs.len();
    let mut j: usize = n;
    assert(cs@.take(n as int) =~= cs@);
    assert(cs@.subrange(n as int, n as int) =~= Seq::<char>::empty());
    while j > 0 && cs[j - 1] != '_'
        invariant
            j <= n,
            n == cs@.len(),
            last_segment(cs@) == last_segment(cs@.take(j as int)) + cs@.subrange(j as int, n as int),
        decreases j,
    {
        let ghost t = cs@.take(j as int);
        assert(t.drop_last() =~= cs@.take(j - 1));
        assert(t.last() == cs@[j - 1]);
        assert(last_segment(cs@.take(j - 1)).push(cs@[j - 1]) + cs@.subrange(j as int, n as int) =~= last_segment(
            cs@.take(j - 1),
        ) + cs@.subrange(j - 1, n as int));
        j = j - 1;
    }
    if j > 0 {
        assert(cs@.take(j as int).last() == cs@[j - 1]);
    } else {
        assert(cs@.take(0) =~= Seq::<char>::empty());
    }
    assert(last_segment(cs@.take(j as int)) =~= Seq::<char>::empty());
    assert(last_segment(cs@) =~= cs@.subrange(j as int, n as int));
    crate::text::copy_range(cs.as_slice(), j, n)
}

/// The magic atom of an atom (see `magic_atom`).
pub fn create_magic_atom(atom: &Atom, magic_pred: &str) -> (r: Atom)
    requires
        pattern_ascii(atom@),
    ensures
        r@ == magic_atom(atom@, magic_pred@),
{
    let pattern = last_segment_exec(atom.predicate.as_str());
    let ghost ts = atom@.terms;
    let mut terms: Vec<Term> = Vec::new();
    let mut i: usize = 0;
    assert(terms_view(terms@) =~= bound_terms(ts, pattern@, 0));
    while i < atom.terms.len()
        invariant
            i <= atom.terms@.len(),
            ts == atom@.terms,
            terms_view(terms@) == bound_terms(ts, pattern@, i as nat),
        decreases atom.terms.len() - i,
    {
        if i < pattern.len() && pattern[i] == 'b' {
            let ghost tb = terms@;
            terms.push(atom.terms[i].clone());
            assert(terms_view(terms@) =~= terms_view(tb).push(ts[i as int]));
        }
        i = i + 1;
    }
    Atom::new(magic_pred, terms)
}

impl MagicSetsTransformer {
    /// A rule with its head adorned by a pattern.
    fn adorn_rule(&mut self, rule: &Rule, head_pattern: &str) -> (r: Rule)
        ensures
            r@ == adorn(rule@, head_pattern@),
            final(self)@ == old(self)@,
    {
        let pred = self.get_adorned_predicate(rule.head.predicate.as_str(), head_pattern);
        let head = Atom { predicate: pred, terms: terms_clone(&rule.head.terms), negated: false };
        Rule::new(head, atoms_clone(&rule.body))
    }

    /// The adorned program for a query (see `adorned_program`).
    fn generate_adorned_program(&mut self, query: &Query) -> (r: Vec<Rule>)
        ensures
            models(r@) == adorned_program(old(self)@.rules, query.predicate@, query.bound_args@),
            final(self)@ == old(self)@,
    {
        let ghost rv = self@.rules;
        let ghost qpair = (query.predicate@, pattern_of(query.bound_args@));
        let ghost universe = seq![qpair] + rules_universe(rv);
        let mut processed: Vec<(String, String)> = Vec::new();
        let mut queue: Vec<(String, String)> = Vec::new();
        queue.push((query.predicate.clone(), query.binding_pattern()));
        let mut out: Vec<Rule> = Vec::new();
        let mut head: usize = 0;
        let ghost goal = adorned_program(rv, query.predicate@, query.bound_args@);
        proof {
            assert(pairs_view(processed@) =~= Seq::<(Seq<char>, Seq<char>)>::empty());
            assert(pairs_view(queue@).skip(0) =~= seq![qpair]);
            assert(models(out@) =~= Seq::<VRule>::empty());
            assert(universe[0] == qpair);
            assert(search_ok(universe, pairs_view(processed@), pairs_view(queue@).skip(0)));
        }
        while head < queue.len()
            invariant
                head <= queue@.len(),
                self@ == old(self)@,
                rv == self@.rules,
                rv == models(self.rules@),
                universe == seq![qpair] + rules_universe(rv),
                search_ok(universe, pairs_view(processed@), pairs_view(queue@).skip(head as int)),
                pairs_view(processed@).len() <= universe.len(),
                adorn_search(rv, universe, pairs_view(processed@), pairs_view(queue@).skip(head as int), models(out@))
                    == goal,
            decreases universe.len() - processed@.len(), queue@.len() - head,
        {
            let ghost pv = pairs_view(processed@);
            let ghost qv = pairs_view(queue@).skip(head as int);
            let pr = queue[head].0.clone();
            let pt = queue[head].1.clone();
            assert(qv[0] == (pr@, pt@));
            proof {
                lemma_processed_bound(universe, pv);
            }
            if pair_in(&processed, &pr, &pt) {
                assert(pairs_view(queue@).skip(head + 1) =~= qv.drop_first());
                proof {
                    assert forall|i: int| 0 <= i < qv.drop_first().len() implies universe.contains(#[trigger] qv.drop_first()[i]) by {
                        assert(qv.drop_first()[i] == qv[i + 1]);
                    }
                }
                head = head + 1;
            } else {
                let ghost qlen = queue@.len();
                processed.push((pr.clone(), pt.clone()));
                assert(pairs_view(processed@) =~= pv.push((pr@, pt@)));
                let hp = chars_of(pt.as_str());
                let ghost q0 = pairs_view(queue@);
                let ghost o0 = models(out@);
                let mut ri: usize = 0;
                assert(rv.take(0) =~= Seq::<VRule>::empty());
                assert(q0 + adorn_matching(rv.take(0), pr@, pt@).0 =~= q0);
                assert(o0 + adorn_matching(rv.take(0), pr@, pt@).1 =~= o0);
                while ri < self.rules.len()
                    invariant
                        ri <= self.rules@.len(),
                        self@ == old(self)@,
                        rv == models(self.rules@),
                        self.rules@.len() == rv.len(),
                        hp@ == pt@,
                        qlen <= q0.len(),
                        pairs_view(queue@) == q0 + adorn_matching(rv.take(ri as int), pr@, pt@).0,
                        models(out@) == o0 + adorn_matching(rv.take(ri as int), pr@, pt@).1,
                    decreases self.rules.len() - ri,
                {
                    assert(rv.take(ri + 1).drop_last() =~= rv.take(ri as int));
                    assert(rv.take(ri + 1).last() == self.rules@[ri as int]@);
                    if self.rules[ri].head.predicate == pr {
                        let rule = crate::datalog::types::rule_clone(&self.rules[ri]);
                        let adorned = self.adorn_rule(&rule, pt.as_str());
                        assert(models(self.rules@).len() == self.rules@.len());
                        let ghost ar = adorned@;
                        let ghost qa = pairs_view(queue@);
                        let mut k: usize = 0;
                        assert(ar.body.take(0) =~= Seq::<VAtom>::empty());
                        assert(qa + body_requests(ar.body.take(0), ar, pt@) =~= qa);
                        while k < adorned.body.len()
                            invariant
                                k <= adorned.body@.len(),
                                ar == adorned@,
                                hp@ == pt@,
                                pairs_view(queue@) == qa + body_requests(ar.body.take(k as int), ar, pt@),
                            decreases adorned.body.len() - k,
                        {
                            assert(ar.body.take(k + 1).drop_last() =~= ar.body.take(k as int));
                            assert(ar.body.take(k + 1).last() == adorned.body@[k as int]@);
                            if !adorned.body[k].negated {
                                let pattern = compute_binding_pattern(&adorned.body[k], &adorned, &hp);
                                let ps = crate::text::string_from_chars(pattern.as_slice());
                                let ghost qb = pairs_view(queue@);
                                queue.push((adorned.body[k].predicate.clone(), ps));
                                assert(pairs_view(queue@) =~= qb.push((adorned.body@[k as int]@.pred, atom_pattern(adorned.body@[k as int]@, ar, pt@))));
                            }
                            k = k + 1;
                        }
                        assert(ar.body.take(k as int) =~= ar.body);
                        let ghost ob = models(out@);
                        out.push(adorned);
                        assert(models(out@) =~= ob.push(ar));
                        assert(pairs_view(queue@) =~= q0 + adorn_matching(rv.take(ri + 1), pr@, pt@).0);
                    }
                    ri = ri + 1;
                }
                assert(rv.take(ri as int) =~= rv);
                proof {
                    let (pushes, adorned) = adorn_matching(rv, pr@, pt@);
                    assert(pairs_view(queue@).skip(head + 1) =~= qv.drop_first() + pushes);
                    lemma_requests_in_universe(rv, pr@, pt@);
                    let p2 = pairs_view(processed@);
                    assert(p2.no_duplicates()) by {
                        assert forall|i: int, j: int| 0 <= i < j < p2.len() implies p2[i] != p2[j] by {
                            if j == pv.len() {
                                assert(p2[i] == pv[i]);
                            }
                        }
                    }
                    assert forall|i: int| 0 <= i < p2.len() implies universe.contains(#[trigger] p2[i]) by {
                        if i < pv.len() {
                            assert(p2[i] == pv[i]);
                        }
                    }
                    let q2 = qv.drop_first() + pushes;
                    assert forall|i: int| 0 <= i < q2.len() implies universe.contains(#[trigger] q2[i]) by {
                        if i < qv.drop_first().len() {
                            assert(q2[i] == qv[i + 1]);
                        } else {
                            assert(q2[i] == pushes[i - qv.drop_first().len()]);
                            assert(pushes.contains(q2[i]));
                            assert(rules_universe(rv).contains(q2[i]));
                            let w = choose|w: int| 0 <= w < rules_universe(rv).len() && rules_universe(rv)[w] == q2[i];
                            assert(universe[w + 1] == q2[i]);
                        }
                    }
                    lemma_processed_bound(universe, p2);
                }
                head = head + 1;
            }
        }
        assert(pairs_view(queue@).skip(head as int) =~= Seq::<(Seq<char>, Seq<char>)>::empty());
        out
    }
}


/// The magic names one adorned rule records up to body position `k`: its
/// head's, and those of its positive body atoms before `k`.
pub open spec fn rule_names_upto(r: VRule, k: int) -> Set<Seq<char>> {
    Set::new(
        |m: Seq<char>|
            m == magic_name(r.head.pred) || exists|j: int|
                0 <= j < k && j < r.body.len() && !r.body[j].negated && m == magic_name(#[trigger] r.body[j].pred),
    )
}

/// The magic names generating magic rules records for adorned rules.
pub open spec fn magic_names_of(rs: Seq<VRule>) -> Set<Seq<char>> {
    Set::new(|m: Seq<char>| exists|i: int| 0 <= i < rs.len() && #[trigger] rule_names_upto(rs[i], rs[i].body.len() as int).contains(m))
}

/// The magic names of the heads of rules.
pub open spec fn head_magic_names(rs: Seq<VRule>) -> Set<Seq<char>> {
    Set::new(|m: Seq<char>| exists|i: int| 0 <= i < rs.len() && m == magic_name(#[trigger] rs[i].head.pred))
}

/// The magic names transforming for a query records.
pub open spec fn transform_magic_names(rules: Seq<VRule>, qpred: Seq<char>, bound: Seq<Option<Value>>) -> Set<
    Seq<char>,
> {
    magic_names_of(adorned_program(rules, qpred, bound)).insert(magic_name(adorned_name(qpred, pattern_of(bound))))
}

proof fn lemma_body_ascii(rules: Seq<VRule>, b: Seq<VAtom>)
    requires
        body_segments_ascii(rules),
        body_seqs(rules).contains(b),
    ensures
        forall|j: int| 0 <= j < b.len() ==> pattern_ascii(#[trigger] b[j]),
{
    let i = choose|i: int| 0 <= i < body_seqs(rules).len() && body_seqs(rules)[i] == b;
    assert(rules[i].body == b);
    assert forall|j: int| 0 <= j < b.len() implies pattern_ascii(#[trigger] b[j]) by {
        assert(b[j] == rules[i].body[j]);
    }
}

impl MagicSetsTransformer {
    fn generate_magic_rules(&mut self, adorned: &Vec<Rule>) -> (r: Vec<Rule>)
        requires
            forall|k: int| 0 <= k < adorned@.len() ==> adorned_ok(#[trigger] adorned@[k]@, old(self)@.rules),
            body_segments_ascii(old(self)@.rules),
        ensures
            models(r@) == dedup_rendered(all_magic_rules(models(adorned@))),
            final(self)@.rules == old(self)@.rules,
            final(self)@.magic == old(self)@.magic.union(magic_names_of(models(adorned@))),
    {
        let ghost av = models(adorned@);
        let ghost m0 = self@.magic;
        let ghost rv = self@.rules;
        let mut all: Vec<Rule> = Vec::new();
        let mut i: usize = 0;
        assert(av.take(0) =~= Seq::<VRule>::empty());
        assert(models(all@) =~= all_magic_rules(av.take(0)));
        assert(m0.union(magic_names_of(av.take(0))) =~= m0);
        while i < adorned.len()
            invariant
                i <= adorned@.len(),
                av == models(adorned@),
                self@.rules == rv,
                forall|k: int| 0 <= k < adorned@.len() ==> adorned_ok(#[trigger] adorned@[k]@, rv),
                body_segments_ascii(rv),
                models(all@) == all_magic_rules(av.take(i as int)),
                self@.magic == m0.union(magic_names_of(av.take(i as int))),
            decreases adorned.len() - i,
        {
            let rule = &adorned[i];
            let ghost r = rule@;
            assert(av[i as int] == r);
            assert(adorned_ok(adorned@[i as int]@, rv));
            proof {
                lemma_body_ascii(rv, r.body);
            }
            let ghost mi = self@.magic;
            let head_magic = self.get_magic_predicate(rule.head.predicate.as_str());
            let ghost before_all = models(all@);
            let mut cum: Vec<Atom> = Vec::new();
            let mut k: usize = 0;
            assert(models(all@) =~= before_all + magic_rules_upto(r, 0).0);
            assert(atoms_view(cum@) =~= magic_rules_upto(r, 0).1);
            assert(mi.insert(head_magic@) =~= mi.union(rule_names_upto(r, 0)));
            while k < rule.body.len()
                invariant
                    k <= rule.body@.len(),
                    r == rule@,
                    head_magic@ == magic_name(r.head.pred),
                    ascii_text(last_segment(r.head.pred)),
                    forall|j: int| 0 <= j < r.body.len() ==> pattern_ascii(#[trigger] r.body[j]),
                    self@.rules == rv,
                    models(all@) == before_all + magic_rules_upto(r, k as nat).0,
                    atoms_view(cum@) == magic_rules_upto(r, k as nat).1,
                    self@.magic == mi.union(rule_names_upto(r, k as int)),
                decreases rule.body.len() - k,
            {
                let atom = &rule.body[k];
                assert(r.body[k as int] == atom@);
                let ghost prev = magic_rules_upto(r, k as nat);
                if atom.negated {
                    assert(rule_names_upto(r, k + 1) =~= rule_names_upto(r, k as int));
                    assert(magic_rules_upto(r, (k + 1) as nat) == prev);
                } else {
                    let ghost ms = self@.magic;
                    let body_magic = self.get_magic_predicate(atom.predicate.as_str());
                    assert(rule_names_upto(r, k + 1) =~= rule_names_upto(r, k as int).insert(body_magic@)) by {
                        assert forall|m| rule_names_upto(r, k as int).insert(body_magic@).contains(m) implies rule_names_upto(
                            r,
                            k + 1,
                        ).contains(m) by {
                            if m == body_magic@ {
                                assert(m == magic_name(r.body[k as int].pred));
                            } else if m != magic_name(r.head.pred) {
                                let j = choose|j: int|
                                    0 <= j < k && j < r.body.len() && !r.body[j].negated && m == magic_name(
                                        #[trigger] r.body[j].pred,
                                    );
                                assert(0 <= j < k + 1);
                            }
                        }
                        assert forall|m| rule_names_upto(r, k + 1).contains(m) implies rule_names_upto(r, k as int).insert(
                            body_magic@,
                        ).contains(m) by {
                            if m != magic_name(r.head.pred) && m != body_magic@ {
                                let j = choose|j: int|
                                    0 <= j < k + 1 && j < r.body.len() && !r.body[j].negated && m == magic_name(
                                        #[trigger] r.body[j].pred,
                                    );
                                assert(j != k);
                            }
                        }
                    }
                    assert(self@.magic =~= mi.union(rule_names_upto(r, k + 1)));
                    let mut mbody: Vec<Atom> = Vec::new();
                    proof {
                        lemma_prefix_ascii(last_segment(r.head.pred), r.head.terms.len() as int);
                    }
                    let hm = create_magic_atom(&rule.head, head_magic.as_str());
                    let ghost hmv = hm@;
                    mbody.push(hm);
                    let mut rest = atoms_clone(&cum);
                    let ghost mb = atoms_view(mbody@);
                    assert(mb =~= seq![hmv]);
                    let ghost cv = atoms_view(rest@);
                    mbody.append(&mut rest);
                    assert(atoms_view(mbody@) =~= mb + cv);
                    let mhead = create_magic_atom(atom, body_magic.as_str());
                    let ghost ab = models(all@);
                    let nr = Rule::new(mhead, mbody);
                    let ghost nrv = nr@;
                    all.push(nr);
                    assert(models(all@) =~= ab.push(nrv));
                    let ghost cb = atoms_view(cum@);
                    cum.push(atom_clone(atom));
                    assert(atoms_view(cum@) =~= cb.push(atom@));
                    assert(magic_rules_upto(r, (k + 1) as nat) == (prev.0.push(nrv), prev.1.push(atom@)));
                    assert(models(all@) =~= before_all + magic_rules_upto(r, (k + 1) as nat).0);
                }
                k = k + 1;
            }
            assert(av.take(i + 1).drop_last() =~= av.take(i as int));
            assert(av.take(i + 1).last() == r);
            assert(magic_names_of(av.take(i + 1)) =~= magic_names_of(av.take(i as int)).union(
                rule_names_upto(r, r.body.len() as int),
            )) by {
                let t1 = av.take(i + 1);
                let t0 = av.take(i as int);
                assert forall|m| magic_names_of(t1).contains(m) implies magic_names_of(t0).union(
                    rule_names_upto(r, r.body.len() as int),
                ).contains(m) by {
                    let q = choose|q: int| 0 <= q < t1.len() && #[trigger] rule_names_upto(t1[q], t1[q].body.len() as int).contains(m);
                    if q < t0.len() {
                        assert(t0[q] == t1[q]);
                    }
                }
                assert forall|m| magic_names_of(t0).union(rule_names_upto(r, r.body.len() as int)).contains(m) implies magic_names_of(
                    t1,
                ).contains(m) by {
                    if magic_names_of(t0).contains(m) {
                        let q = choose|q: int| 0 <= q < t0.len() && #[trigger] rule_names_upto(t0[q], t0[q].body.len() as int).contains(m);
                        assert(t1[q] == t0[q]);
                    } else {
                        assert(t1[i as int] == r);
                    }
                }
            }
            assert(self@.magic =~= m0.union(magic_names_of(av.take(i + 1))));
            i = i + 1;
        }
        assert(av.take(i as int) =~= av);
        let ghost allv = models(all@);
        let mut out: Vec<Rule> = Vec::new();
        let mut seen: Vec<String> = Vec::new();
        let mut j: usize = 0;
        assert(allv.take(0) =~= Seq::<VRule>::empty());
        assert(models(out@) =~= dedup_rendered(allv.take(0)));
        while j < all.len()
            invariant
                j <= all@.len(),
                allv == models(all@),
                models(out@) == dedup_rendered(allv.take(j as int)),
                seen@.len() == out@.len(),
                forall|q: int| 0 <= q < seen@.len() ==> #[trigger] seen@[q]@ == render_rule(out@[q]@),
            decreases all.len() - j,
        {
            assert(allv.take(j + 1).drop_last() =~= allv.take(j as int));
            assert(allv.take(j + 1).last() == all@[j as int]@);
            let text = all[j].render();
            let ghost d = models(out@);
            let ghost renders = d.map_values(|x: VRule| render_rule(x));
            match name_index(&seen, &text) {
                Some(q) => {
                    assert(renders[q as int] == text@);
                    assert(renders.contains(text@));
                },
                None => {
                    assert(!renders.contains(text@)) by {
                        if renders.contains(text@) {
                            let w = choose|w: int| 0 <= w < renders.len() && renders[w] == text@;
                            assert(seen@[w]@ == render_rule(out@[w]@));
                        }
                    }
                    seen.push(text);
                    let c = crate::datalog::types::rule_clone(&all[j]);
                    out.push(c);
                    assert(models(out@) =~= d.push(all@[j as int]@));
                },
            }
            j = j + 1;
        }
        assert(allv.take(j as int) =~= allv);
        out
    }

    fn add_magic_filters(&mut self, adorned: &Vec<Rule>) -> (r: Vec<Rule>)
        requires
            forall|k: int| 0 <= k < adorned@.len() ==> adorned_ok(#[trigger] adorned@[k]@, old(self)@.rules),
        ensures
            models(r@) == with_magic_filters(models(adorned@)),
            final(self)@.rules == old(self)@.rules,
            final(self)@.magic == old(self)@.magic.union(head_magic_names(models(adorned@))),
    {
        let ghost av = models(adorned@);
        let ghost m0 = self@.magic;
        let ghost rv = self@.rules;
        let mut result: Vec<Rule> = Vec::new();
        let mut i: usize = 0;
        assert(head_magic_names(av.take(0)) =~= Set::<Seq<char>>::empty());
        assert(m0.union(Set::<Seq<char>>::empty()) =~= m0);
        while i < adorned.len()
            invariant
                i <= adorned@.len(),
                av == models(adorned@),
                self@.rules == rv,
                forall|k: int| 0 <= k < adorned@.len() ==> adorned_ok(#[trigger] adorned@[k]@, rv),
                result@.len() == i,
                forall|q: int| 0 <= q < i ==> #[trigger] result@[q]@ == with_magic_filters(av)[q],
                self@.magic == m0.union(head_magic_names(av.take(i as int))),
            decreases adorned.len() - i,
        {
            let rule = &adorned[i];
            assert(av[i as int] == rule@);
            assert(adorned_ok(adorned@[i as int]@, rv));
            let magic_pred = self.get_magic_predicate(rule.head.predicate.as_str());
            proof {
                lemma_prefix_ascii(last_segment(rule@.head.pred), rule@.head.terms.len() as int);
            }
            let magic = create_magic_atom(&rule.head, magic_pred.as_str());
            let ghost mgv = magic@;
            let mut body: Vec<Atom> = Vec::new();
            body.push(magic);
            let mut rest = atoms_clone(&rule.body);
            let ghost b0 = atoms_view(body@);
            assert(b0 =~= seq![mgv]);
            let ghost bv = atoms_view(rest@);
            body.append(&mut rest);
            assert(atoms_view(body@) =~= b0 + bv);
            let nr = Rule::new(atom_clone(&rule.head), body);
            assert(nr@ == with_magic_filters(av)[i as int]);
            let ghost rb = result@;
            result.push(nr);
            assert forall|q: int| 0 <= q < i + 1 implies #[trigger] result@[q]@ == with_magic_filters(av)[q] by {
                if q < i {
                    assert(result@[q] == rb[q]);
                }
            }
            assert(head_magic_names(av.take(i + 1)) =~= head_magic_names(av.take(i as int)).insert(magic_pred@)) by {
                let t1 = av.take(i + 1);
                let t0 = av.take(i as int);
                assert forall|m| head_magic_names(t1).contains(m) implies head_magic_names(t0).insert(magic_pred@).contains(m) by {
                    let q = choose|q: int| 0 <= q < t1.len() && m == magic_name(#[trigger] t1[q].head.pred);
                    if q < t0.len() {
                        assert(t0[q] == t1[q]);
                    }
                }
                assert forall|m| head_magic_names(t0).insert(magic_pred@).contains(m) implies head_magic_names(t1).contains(m) by {
                    if head_magic_names(t0).contains(m) {
                        let q = choose|q: int| 0 <= q < t0.len() && m == magic_name(#[trigger] t0[q].head.pred);
                        assert(t1[q] == t0[q]);
                    } else {
                        assert(t1[i as int].head.pred == rule@.head.pred);
                    }
                }
            }
            assert(self@.magic =~= m0.union(head_magic_names(av.take(i + 1))));
            i = i + 1;
        }
        assert(av.take(i as int) =~= av);
        assert(models(result@) =~= with_magic_filters(av));
        result
    }

    fn generate_seed_facts(&mut self, query: &Query) -> (r: Vec<Rule>)
        ensures
            models(r@) == seed_rules(query.predicate@, query.bound_args@),
            final(self)@.rules == old(self)@.rules,
            final(self)@.magic == old(self)@.magic.insert(
                magic_name(adorned_name(query.predicate@, pattern_of(query.bound_args@))),
            ),
    {
        let pattern = query.binding_pattern();
        let adorned_pred = self.get_adorned_predicate(query.predicate.as_str(), pattern.as_str());
        let magic_pred = self.get_magic_predicate(adorned_pred.as_str());
        let mut terms: Vec<Term> = Vec::new();
        let mut i: usize = 0;
        let ghost bv = query.bound_args@;
        assert(bv.take(0) =~= Seq::<Option<Value>>::empty());
        while i < query.bound_args.len()
            invariant
                i <= bv.len(),
                bv == query.bound_args@,
                terms_view(terms@) == bound_constants(bv.take(i as int)),
            decreases query.bound_args.len() - i,
        {
            assert(bv.take(i + 1).drop_last() =~= bv.take(i as int));
            assert(bv.take(i + 1).last() == bv[i as int]);
            match &query.bound_args[i] {
                Some(value) => {
                    let ghost tb = terms_view(terms@);
                    terms.push(Term::Constant(value_clone(value)));
                    assert(terms_view(terms@) =~= tb.push(VTerm::Const(value@)));
                },
                None => {},
            }
            i = i + 1;
        }
        assert(bv.take(i as int) =~= bv);
        if terms.len() == 0 {
            let v: Vec<Rule> = Vec::new();
            assert(models(v@) =~= Seq::<VRule>::empty());
            return v;
        }
        let mut v: Vec<Rule> = Vec::new();
        v.push(Rule::fact(Atom::new(magic_pred.as_str(), terms)));
        assert(models(v@) =~= seed_rules(query.predicate@, query.bound_args@));
        v
    }

    /// Rewrite the rules for a query: seed facts, magic rules, then the
    /// adorned rules behind their magic atoms.
    pub fn transform(&mut self, query: &Query) -> (r: Vec<Rule>)
        requires
            body_segments_ascii(old(self)@.rules),
        ensures
            models(r@) == transform_spec(old(self)@.rules, query.predicate@, query.bound_args@),
            final(self)@.rules == old(self)@.rules,
            final(self)@.transformed == models(r@),
            final(self)@.magic == old(self)@.magic.union(
                transform_magic_names(old(self)@.rules, query.predicate@, query.bound_args@),
            ),
    {
        let ghost rv = self@.rules;
        let ghost m0 = self@.magic;
        let adorned_rules = self.generate_adorned_program(query);
        let ghost av = models(adorned_rules@);
        proof {
            let qpair = (query.predicate@, pattern_of(query.bound_args@));
            let universe = seq![qpair] + rules_universe(rv);
            lemma_rules_universe_valid(rv);
            assert(valid_pattern(pattern_of(query.bound_args@)));
            assert forall|k: int| 0 <= k < universe.len() implies valid_pattern(#[trigger] universe[k].1) by {
                if k > 0 {
                    assert(universe[k] == rules_universe(rv)[k - 1]);
                }
            }
            assert forall|x| #[trigger] rules_universe(rv).contains(x) implies universe.contains(x) by {
                let w = choose|w: int| 0 <= w < rules_universe(rv).len() && rules_universe(rv)[w] == x;
                assert(universe[w + 1] == x);
            }
            assert(universe[0] == qpair);
            assert(search_ok(universe, Seq::empty(), seq![qpair]));
            lemma_adorn_search_ok(rv, universe, Seq::empty(), seq![qpair], Seq::empty());
            assert forall|k: int| 0 <= k < adorned_rules@.len() implies adorned_ok(#[trigger] adorned_rules@[k]@, rv) by {
                assert(av[k] == adorned_rules@[k]@);
            }
        }
        let mut magic_rules = self.generate_magic_rules(&adorned_rules);
        let mut modified = self.add_magic_filters(&adorned_rules);
        let mut result = self.generate_seed_facts(query);
        let ghost sv = models(result@);
        let ghost mv = models(magic_rules@);
        let ghost fv = models(modified@);
        result.append(&mut magic_rules);
        result.append(&mut modified);
        assert(models(result@) =~= sv + mv + fv);
        assert(head_magic_names(av).subset_of(magic_names_of(av))) by {
            assert forall|m| head_magic_names(av).contains(m) implies magic_names_of(av).contains(m) by {
                let q = choose|q: int| 0 <= q < av.len() && m == magic_name(#[trigger] av[q].head.pred);
                assert(rule_names_upto(av[q], av[q].body.len() as int).contains(m));
            }
        }
        assert(self@.magic =~= m0.union(transform_magic_names(rv, query.predicate@, query.bound_args@)));
        let mut kept = crate::datalog::types::rules_clone(&result);
        proof {
            use_type_invariant(&*self);
        }
        std::mem::swap(&mut kept, &mut self.transformed);
        assert(models(self.transformed@) =~= models(result@));
        result
    }
}


/// Sideways information from the head: in a rule whose head pattern binds a
/// position, a body atom marks `b` every position that holds the variable the
/// head has there; and a constant position is always `b`.
pub proof fn law_head_binds_body(r: VRule, hp: Seq<char>, a: VAtom, i: int)
    requires
        0 <= i < a.terms.len(),
        a.terms[i] is Const || exists|j: int| 0 <= j < r.head.terms.len() && j < hp.len() && hp[j] == 'b'
            && #[trigger] r.head.terms[j] == a.terms[i],
    ensures
        atom_pattern(a, r, hp)[i] == 'b',
{
    if let VTerm::Var(v) = a.terms[i] {
        let j = choose|j: int| 0 <= j < r.head.terms.len() && j < hp.len() && hp[j] == 'b'
            && #[trigger] r.head.terms[j] == a.terms[i];
        assert(r.head.terms[j] == VTerm::Var(v));
        assert(head_bound(r.head.terms, hp, v));
    }
}


/// Sideways information from earlier body atoms: a variable that a body atom
/// before the first occurrence of an atom mentions is bound there, so the
/// atom marks its positions `b`; a variable that neither the head binds nor
/// such an earlier atom mentions is marked `f`.
pub proof fn law_earlier_binds_body(r: VRule, hp: Seq<char>, a: VAtom, i: int, j: int)
    requires
        0 <= i < a.terms.len(),
        0 <= j < r.body.len(),
        r.body[j] == a,
        forall|k: int| 0 <= k < j ==> r.body[k] != a,
    ensures
        (exists|k: int, p: int| 0 <= k < j && 0 <= p < r.body[k].terms.len() && #[trigger] r.body[k].terms[p] == a.terms[i]
            && a.terms[i] is Var) ==> atom_pattern(a, r, hp)[i] == 'b',
        (a.terms[i] is Var && (forall|k: int, p: int| 0 <= k < j && 0 <= p < r.body[k].terms.len() ==> #[trigger] r.body[k].terms[p]
            != a.terms[i]) && (forall|q: int| 0 <= q < r.head.terms.len() && q < hp.len() && #[trigger] r.head.terms[q] == a.terms[i]
            ==> hp[q] != 'b')) ==> atom_pattern(a, r, hp)[i] == 'f',
{
    lemma_first_equal_at(r.body, a, j);
}

/// The first position of an atom in a body is where it first occurs.
proof fn lemma_first_equal_at(body: Seq<VAtom>, a: VAtom, j: int)
    requires
        0 <= j < body.len(),
        body[j] == a,
        forall|k: int| 0 <= k < j ==> body[k] != a,
    ensures
        first_equal(body, a) == j,
    decreases body.len(),
{
    if j < body.len() - 1 {
        lemma_first_equal_at(body.drop_last(), a, j);
    } else {
        lemma_first_equal_absent(body.drop_last(), a);
    }
}

/// An atom a body does not hold has position the body's length.
proof fn lemma_first_equal_absent(body: Seq<VAtom>, a: VAtom)
    requires
        forall|k: int| 0 <= k < body.len() ==> body[k] != a,
    ensures
        first_equal(body, a) == body.len(),
    decreases body.len(),
{
    if body.len() > 0 {
        lemma_first_equal_absent(body.drop_last(), a);
    }
}

} // verus!
