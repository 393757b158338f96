//! Core Datalog data structures: terms, atoms, rules, substitutions.
use vstd::prelude::*;
use crate::types::{Value, VValue, value_eq, value_clone, ToText};
use crate::text::{owned, push_char, i64_to_string, signed_decimal};

verus! {

broadcast use vstd::std_specs::vec::group_vec_axioms;

/// Model of a term.
pub enum VTerm {
    /// Variable by name
    Var(Seq<char>),
    /// Constant value
    Const(VValue),
}

/// A term in Datalog (variable or constant).
#[derive(Debug)]
pub enum Term {
    /// Variable (e.g., X, Person, ?x)
    Variable(String),
    /// Constant value
    Constant(Value),
}

impl View for Term {
    type V = VTerm;

    open spec fn view(&self) -> VTerm {
        match self {
            Term::Variable(s) => VTerm::Var(s@),
            Term::Constant(v) => VTerm::Const(v@),
        }
    }
}

/// A copy of a term.
pub fn term_clone(t: &Term) -> (r: Term)
    ensures
        r@ == t@,
{
    match t {
        Term::Variable(s) => Term::Variable(s.clone()),
        Term::Constant(v) => Term::Constant(value_clone(v)),
    }
}

impl Clone for Term {
    fn clone(&self) -> (r: Self)
        ensures
            r@ == self@,
    {
        term_clone(self)
    }
}

/// Equality of terms by their models.
pub fn term_eq(a: &Term, b: &Term) -> (r: bool)
    ensures
        r == (a@ == b@),
{
    match (a, b) {
        (Term::Variable(x), Term::Variable(y)) => *x == *y,
        (Term::Constant(x), Term::Constant(y)) => value_eq(x, y),
        _ => false,
    }
}

impl PartialEq for Term {
    fn eq(&self, other: &Self) -> (r: bool) {
        term_eq(self, other)
    }
}

impl vstd::std_specs::cmp::PartialEqSpecImpl for Term {
    open spec fn obeys_eq_spec() -> bool {
        true
    }

    open spec fn eq_spec(&self, other: &Self) -> bool {
        self@ == other@
    }
}

impl Eq for Term {}

impl Term {
    /// Create a variable term.
    pub fn var(name: impl ToText) -> (r: Term)
        ensures
            r@ == VTerm::Var(name.text()),
    {
        Term::Variable(name.to_text())
    }

    /// Create a constant term.
    pub fn constant(value: Value) -> (r: Term)
        ensures
            r@ == VTerm::Const(value@),
    {
        Term::Constant(value)
    }

    /// Check if term is a variable.
    pub fn is_variable(&self) -> (r: bool)
        ensures
            r == (self@ is Var),
    {
        match self {
            Term::Variable(_) => true,
            _ => false,
        }
    }

    /// Check if term is a constant.
    pub fn is_constant(&self) -> (r: bool)
        ensures
            r == (self@ is Const),
    {
        match self {
            Term::Constant(_) => true,
            _ => false,
        }
    }

    /// Get variable name if this is a variable.
    pub fn as_variable(&self) -> (r: Option<&str>)
        ensures
            match self@ {
                VTerm::Var(n) => r is Some && r->0@ == n,
                VTerm::Const(_) => r is None,
            },
    {
        match self {
            Term::Variable(name) => Some(name.as_str()),
            _ => None,
        }
    }

    /// Get constant value if this is a constant.
    pub fn as_constant(&self) -> (r: Option<&Value>)
        ensures
            match self@ {
                VTerm::Const(v) => r is Some && r->0@ == v,
                VTerm::Var(_) => r is None,
            },
    {
        match self {
            Term::Constant(val) => Some(val),
            _ => None,
        }
    }

    /// Text rendering: `?name` for variables, the value for scalar constants.
    pub fn render(&self) -> (r: String)
        ensures
            r@ == render_term(self@),
    {
        match self {
            Term::Variable(name) => {
                let mut s = owned("?");
                s.append(name.as_str());
                s
            },
            Term::Constant(Value::String(v)) => {
                let mut s = owned("\"");
                s.append(v.as_str());
                push_char(&mut s, '"');
                s
            },
            Term::Constant(Value::Integer(i)) => i64_to_string(*i),
            Term::Constant(Value::Bool(b)) => if *b {
                owned("true")
            } else {
                owned("false")
            },
            Term::Constant(Value::Null) => owned("null"),
            Term::Constant(_) => owned("<complex>"),
        }
    }
}

/// Text rendering of a term.
pub open spec fn render_term(t: VTerm) -> Seq<char> {
    match t {
        VTerm::Var(n) => "?"@ + n,
        VTerm::Const(VValue::Str(s)) => ("\""@ + s).push('"'),
        VTerm::Const(VValue::Int(i)) => signed_decimal(i),
        VTerm::Const(VValue::Bool(b)) => if b {
            "true"@
        } else {
            "false"@
        },
        VTerm::Const(VValue::Null) => "null"@,
        VTerm::Const(_) => "<complex>"@,
    }
}

/// Model of an atom.
pub struct VAtom {
    /// Predicate name
    pub pred: Seq<char>,
    /// Terms
    pub terms: Seq<VTerm>,
    /// Negated
    pub negated: bool,
}

/// An atom in Datalog (predicate with terms).
#[derive(Debug)]
pub struct Atom {
    /// Predicate name
    pub predicate: String,
    /// Terms (arguments)
    pub terms: Vec<Term>,
    /// Whether this is a negated atom
    pub negated: bool,
}

/// Model of a sequence of terms.
pub open spec fn terms_view(s: Seq<Term>) -> Seq<VTerm> {
    Seq::new(s.len(), |i: int| s[i]@)
}

impl View for Atom {
    type V = VAtom;

    open spec fn view(&self) -> VAtom {
        VAtom { pred: self.predicate@, terms: terms_view(self.terms@), negated: self.negated }
    }
}

/// A copy of a sequence of terms.
pub fn terms_clone(v: &Vec<Term>) -> (r: Vec<Term>)
    ensures
        terms_view(r@) == terms_view(v@),
{
    let mut out: Vec<Term> = Vec::new();
    let mut i: usize = 0;
    while i < v.len()
        invariant
            i <= v@.len(),
            out@.len() == i,
            forall|j: int| 0 <= j < i ==> out@[j]@ == v@[j]@,
        decreases v.len() - i,
    {
        out.push(term_clone(&v[i]));
        i = i + 1;
    }
    assert(terms_view(out@) =~= terms_view(v@));
    out
}

/// A copy of an atom.
pub fn atom_clone(a: &Atom) -> (r: Atom)
    ensures
        r@ == a@,
{
    Atom { predicate: a.predicate.clone(), terms: terms_clone(&a.terms), negated: a.negated }
}

impl Clone for Atom {
    fn clone(&self) -> (r: Self)
        ensures
            r@ == self@,
    {
        atom_clone(self)
    }
}

/// Equality of atoms by their models.
pub fn atom_eq(a: &Atom, b: &Atom) -> (r: bool)
    ensures
        r == (a@ == b@),
{
    if a.negated != b.negated || a.predicate != b.predicate {
        return false;
    }
    if a.terms.len() != b.terms.len() {
        assert(a@.terms.len() != b@.terms.len());
        return false;
    }
    let mut i: usize = 0;
    while i < a.terms.len()
        invariant
            a.terms@.len() == b.terms@.len(),
            i <= a.terms@.len(),
            forall|j: int| 0 <= j < i ==> a.terms@[j]@ == b.terms@[j]@,
        decreases a.terms.len() - i,
    {
        if !term_eq(&a.terms[i], &b.terms[i]) {
            assert(a@.terms[i as int] != b@.terms[i as int]);
            return false;
        }
        i = i + 1;
    }
    assert(a@.terms =~= b@.terms);
    true
}

impl PartialEq for Atom {
    fn eq(&self, other: &Self) -> (r: bool) {
        atom_eq(self, other)
    }
}

impl vstd::std_specs::cmp::PartialEqSpecImpl for Atom {
    open spec fn obeys_eq_spec() -> bool {
        true
    }

    open spec fn eq_spec(&self, other: &Self) -> bool {
        self@ == other@
    }
}

impl Eq for Atom {}

/// The names of the variables among `ts`, in order, with repetitions.
pub open spec fn term_vars(ts: Seq<VTerm>) -> Seq<Seq<char>>
    decreases ts.len(),
{
    if ts.len() == 0 {
        Seq::empty()
    } else {
        let rest = term_vars(ts.drop_last());
        match ts.last() {
            VTerm::Var(n) => rest.push(n),
            VTerm::Const(_) => rest,
        }
    }
}

/// Whether `n` names a variable among `ts`.
pub open spec fn has_var(ts: Seq<VTerm>, n: Seq<char>) -> bool {
    exists|i: int| 0 <= i < ts.len() && #[trigger] ts[i] == VTerm::Var(n)
}

/// The variables of `ts` are exactly the names `n` with `has_var(ts, n)`.
pub proof fn lemma_term_vars(ts: Seq<VTerm>)
    ensures
        forall|n: Seq<char>| #[trigger] term_vars(ts).contains(n) <==> has_var(ts, n),
    decreases ts.len(),
{
    if ts.len() > 0 {
        let init = ts.drop_last();
        lemma_term_vars(init);
        assert forall|n: Seq<char>| #[trigger] term_vars(ts).contains(n) <==> has_var(ts, n) by {
            if has_var(ts, n) {
                let i = choose|i: int| 0 <= i < ts.len() && #[trigger] ts[i] == VTerm::Var(n);
                if i < ts.len() - 1 {
                    assert(init[i] == ts[i]);
                    assert(term_vars(init).contains(n));
                    match ts.last() {
                        VTerm::Var(m) => {
                            assert(term_vars(ts) == term_vars(init).push(m));
                            let k = choose|k: int| 0 <= k < term_vars(init).len() && term_vars(init)[k] == n;
                            assert(term_vars(ts)[k] == n);
                        },
                        VTerm::Const(_) => {},
                    }
                } else {
                    assert(term_vars(ts) == term_vars(init).push(n));
                    assert(term_vars(ts)[term_vars(init).len() as int] == n);
                }
            }
            if term_vars(ts).contains(n) {
                match ts.last() {
                    VTerm::Var(m) => {
                        let k = choose|k: int| 0 <= k < term_vars(ts).len() && term_vars(ts)[k] == n;
                        if k < term_vars(init).len() {
                            assert(term_vars(init)[k] == n);
                            assert(term_vars(init).contains(n));
                            let i = choose|i: int| 0 <= i < init.len() && #[trigger] init[i] == VTerm::Var(n);
                            assert(ts[i] == init[i]);
                        } else {
                            assert(ts[ts.len() - 1] == VTerm::Var(n));
                        }
                    },
                    VTerm::Const(_) => {
                        let i = choose|i: int| 0 <= i < init.len() && #[trigger] init[i] == VTerm::Var(n);
                        assert(ts[i] == init[i]);
                    },
                }
            }
        }
    }
}

/// Whether all terms are constants.
pub open spec fn all_ground(ts: Seq<VTerm>) -> bool {
    forall|i: int| 0 <= i < ts.len() ==> #[trigger] ts[i] is Const
}

impl Atom {
    /// Create a new atom.
    pub fn new(predicate: impl ToText, terms: Vec<Term>) -> (r: Atom)
        ensures
            r@ == (VAtom { pred: predicate.text(), terms: terms_view(terms@), negated: false }),
    {
        Atom { predicate: predicate.to_text(), terms, negated: false }
    }

    /// Create a negated atom.
    pub fn negated(predicate: impl ToText, terms: Vec<Term>) -> (r: Atom)
        ensures
            r@ == (VAtom { pred: predicate.text(), terms: terms_view(terms@), negated: true }),
    {
        Atom { predicate: predicate.to_text(), terms, negated: true }
    }

    /// Get the arity (number of terms).
    pub fn arity(&self) -> (r: usize)
        ensures
            r == self@.terms.len(),
    {
        self.terms.len()
    }

    /// Get all variables in this atom, in order.
    pub fn variables(&self) -> (r: Vec<&str>)
        ensures
            r@.len() == term_vars(self@.terms).len(),
            forall|i: int| 0 <= i < r@.len() ==> #[trigger] r@[i]@ == term_vars(self@.terms)[i],
    {
        let mut out: Vec<&str> = Vec::new();
        let mut i: usize = 0;
        while i < self.terms.len()
            invariant
                i <= self.terms@.len(),
                out@.len() == term_vars(self@.terms.subrange(0, i as int)).len(),
                forall|j: int|
                    0 <= j < out@.len() ==> #[trigger] out@[j]@ == term_vars(
                        self@.terms.subrange(0, i as int),
                    )[j],
            decreases self.terms.len() - i,
        {
            let ghost pre = self@.terms.subrange(0, i as int);
            assert(self@.terms.subrange(0, i + 1).drop_last() =~= pre);
            match &self.terms[i] {
                Term::Variable(name) => {
                    out.push(name.as_str());
                },
                Term::Constant(_) => {},
            }
            i = i + 1;
        }
        assert(self@.terms.subrange(0, self.terms@.len() as int) =~= self@.terms);
        out
    }

    /// Check if atom is ground (no variables).
    pub fn is_ground(&self) -> (r: bool)
        ensures
            r == all_ground(self@.terms),
    {
        let mut i: usize = 0;
        while i < self.terms.len()
            invariant
                i <= self.terms@.len(),
                forall|j: int| 0 <= j < i ==> #[trigger] self@.terms[j] is Const,
            decreases self.terms.len() - i,
        {
            if !self.terms[i].is_constant() {
                assert(!(self@.terms[i as int] is Const));
                return false;
            }
            i = i + 1;
        }
        true
    }

    /// Apply a substitution to get a new atom.
    pub fn apply_substitution(&self, sub: &Substitution) -> (r: Atom)
        ensures
            r@ == (VAtom {
                pred: self@.pred,
                terms: apply_terms(sub@, self@.terms),
                negated: self@.negated,
            }),
    {
        let mut out: Vec<Term> = Vec::new();
        let mut i: usize = 0;
        while i < self.terms.len()
            invariant
                i <= self.terms@.len(),
                out@.len() == i,
                forall|j: int| 0 <= j < i ==> #[trigger] out@[j]@ == apply_term(sub@, self@.terms[j]),
            decreases self.terms.len() - i,
        {
            out.push(sub.apply_to_term(&self.terms[i]));
            i = i + 1;
        }
        assert(terms_view(out@) =~= apply_terms(sub@, self@.terms));
        Atom { predicate: self.predicate.clone(), terms: out, negated: self.negated }
    }

    /// Text rendering: `not ` when negated, then `pred(t1, t2, ...)`.
    pub fn render(&self) -> (r: String)
        ensures
            r@ == render_atom(self@),
    {
        let mut s = if self.negated {
            owned("not ")
        } else {
            String::new()
        };
        s.append(self.predicate.as_str());
        push_char(&mut s, '(');
        let ghost head = s@;
        let mut i: usize = 0;
        while i < self.terms.len()
            invariant
                i <= self.terms@.len(),
                s@ == head + render_terms(self@.terms.subrange(0, i as int)),
            decreases self.terms.len() - i,
        {
            let ghost pre = self@.terms.subrange(0, i as int);
            assert(self@.terms.subrange(0, i + 1).drop_last() =~= pre);
            if i > 0 {
                s.append(", ");
            }
            let t = self.terms[i].render();
            s.append(t.as_str());
            proof {
                if i > 0 {
                    assert(head + render_terms(pre) + ", "@ + render_term(self@.terms[i as int])
                        =~= head + (render_terms(pre) + ", "@ + render_term(self@.terms[i as int])));
                } else {
                    assert(head + render_terms(pre) + render_term(self@.terms[i as int]) =~= head + (
                    render_terms(pre) + render_term(self@.terms[i as int])));
                }
            }
            i = i + 1;
        }
        assert(self@.terms.subrange(0, self.terms@.len() as int) =~= self@.terms);
        push_char(&mut s, ')');
        assert(s@ =~= render_atom(self@));
        s
    }
}

/// Comma-separated renderings of terms.
pub open spec fn render_terms(ts: Seq<VTerm>) -> Seq<char>
    decreases ts.len(),
{
    if ts.len() == 0 {
        Seq::empty()
    } else if ts.len() == 1 {
        render_term(ts[0])
    } else {
        render_terms(ts.drop_last()) + ", "@ + render_term(ts.last())
    }
}

/// Text rendering of an atom.
pub open spec fn render_atom(a: VAtom) -> Seq<char> {
    (((if a.negated { "not "@ } else { Seq::empty() }) + a.pred).push('(') + render_terms(a.terms)).push(')')
}

/// Model of a rule.
pub struct VRule {
    /// Head
    pub head: VAtom,
    /// Body
    pub body: Seq<VAtom>,
    /// Stratum
    pub stratum: nat,
}

/// A Datalog rule (Horn clause): head :- body.
#[derive(Debug)]
pub struct Rule {
    /// Head of the rule (consequent)
    pub head: Atom,
    /// Body of the rule (antecedents)
    pub body: Vec<Atom>,
    /// Stratification level (for negation)
    pub stratum: usize,
}

/// Model of a sequence of atoms.
pub open spec fn atoms_view(s: Seq<Atom>) -> Seq<VAtom> {
    Seq::new(s.len(), |i: int| s[i]@)
}

impl View for Rule {
    type V = VRule;

    open spec fn view(&self) -> VRule {
        VRule { head: self.head@, body: atoms_view(self.body@), stratum: self.stratum as nat }
    }
}

/// A copy of a sequence of atoms.
pub fn atoms_clone(v: &Vec<Atom>) -> (r: Vec<Atom>)
    ensures
        atoms_view(r@) == atoms_view(v@),
{
    let mut out: Vec<Atom> = Vec::new();
    let mut i: usize = 0;
    while i < v.len()
        invariant
            i <= v@.len(),
            out@.len() == i,
            forall|j: int| 0 <= j < i ==> out@[j]@ == v@[j]@,
        decreases v.len() - i,
    {
        out.push(atom_clone(&v[i]));
        i = i + 1;
    }
    assert(atoms_view(out@) =~= atoms_view(v@));
    out
}

/// A copy of a rule.
pub fn rule_clone(r: &Rule) -> (c: Rule)
    ensures
        c@ == r@,
{
    Rule { head: atom_clone(&r.head), body: atoms_clone(&r.body), stratum: r.stratum }
}

impl Clone for Rule {
    fn clone(&self) -> (r: Self)
        ensures
            r@ == self@,
    {
        rule_clone(self)
    }
}

/// A copy of a sequence of rules.
pub fn rules_clone(v: &Vec<Rule>) -> (r: Vec<Rule>)
    ensures
        r@.len() == v@.len(),
        forall|i: int| 0 <= i < v@.len() ==> #[trigger] r@[i]@ == v@[i]@,
{
    let mut out: Vec<Rule> = Vec::new();
    let mut i: usize = 0;
    while i < v.len()
        invariant
            i <= v@.len(),
            out@.len() == i,
            forall|j: int| 0 <= j < i ==> #[trigger] out@[j]@ == v@[j]@,
        decreases v.len() - i,
    {
        out.push(rule_clone(&v[i]));
        i = i + 1;
    }
    out
}

/// Equality of rules by their models.
pub fn rule_eq(a: &Rule, b: &Rule) -> (r: bool)
    ensures
        r == (a@ == b@),
{
    if a.stratum != b.stratum || !atom_eq(&a.head, &b.head) {
        return false;
    }
    if a.body.len() != b.body.len() {
        assert(a@.body.len() != b@.body.len());
        return false;
    }
    let mut i: usize = 0;
    while i < a.body.len()
        invariant
            a.body@.len() == b.body@.len(),
            i <= a.body@.len(),
            forall|j: int| 0 <= j < i ==> a.body@[j]@ == b.body@[j]@,
        decreases a.body.len() - i,
    {
        if !atom_eq(&a.body[i], &b.body[i]) {
            assert(a@.body[i as int] != b@.body[i as int]);
            return false;
        }
        i = i + 1;
    }
    assert(a@.body =~= b@.body);
    true
}

impl PartialEq for Rule {
    fn eq(&self, other: &Self) -> (r: bool) {
        rule_eq(self, other)
    }
}

impl vstd::std_specs::cmp::PartialEqSpecImpl for Rule {
    open spec fn obeys_eq_spec() -> bool {
        true
    }

    open spec fn eq_spec(&self, other: &Self) -> bool {
        self@ == other@
    }
}

impl Eq for Rule {}

/// Whether some body atom shares the head's predicate.
pub open spec fn rule_recursive(r: VRule) -> bool {
    exists|i: int| 0 <= i < r.body.len() && #[trigger] r.body[i].pred == r.head.pred
}

/// Whether `n` is a variable of the head or of a body atom.
pub open spec fn rule_has_var(r: VRule, n: Seq<char>) -> bool {
    has_var(r.head.terms, n) || exists|i: int| 0 <= i < r.body.len() && has_var(#[trigger] r.body[i].terms, n)
}

/// Whether `n` occurs in a positive body atom.
pub open spec fn positive_body_var(r: VRule, n: Seq<char>) -> bool {
    exists|i: int| 0 <= i < r.body.len() && !r.body[i].negated && has_var(#[trigger] r.body[i].terms, n)
}

/// Whether some string of `s` has the characters `n`.
pub open spec fn names_has(s: Seq<String>, n: Seq<char>) -> bool {
    exists|a: int| 0 <= a < s.len() && #[trigger] s[a]@ == n
}

/// Whether `n` is a variable among the first `i` terms of `ts`.
pub open spec fn prefix_has_var(ts: Seq<VTerm>, i: int, n: Seq<char>) -> bool {
    exists|j: int| 0 <= j < i && #[trigger] ts[j] == VTerm::Var(n)
}

/// Whether `n` is a variable of the head (when `k > 0`) or of one of the
/// first `k - 1` body atoms.
pub open spec fn rule_prefix_has_var(r: VRule, k: int, n: Seq<char>) -> bool {
    (k > 0 && has_var(r.head.terms, n)) || exists|b: int| 0 <= b < k - 1 && has_var(#[trigger] r.body[b].terms, n)
}

/// Safety: every head variable appears in some positive body atom.
pub open spec fn rule_safe(r: VRule) -> bool {
    forall|n: Seq<char>| has_var(r.head.terms, n) ==> #[trigger] positive_body_var(r, n)
}

/// Appends to `out` each variable of `ts` it does not hold yet.
fn add_vars(out: &mut Vec<String>, ts: &Vec<Term>)
    requires
        forall|i: int, j: int| 0 <= i < j < old(out)@.len() ==> old(out)@[i]@ != old(out)@[j]@,
    ensures
        forall|i: int, j: int| 0 <= i < j < final(out)@.len() ==> final(out)@[i]@ != final(out)@[j]@,
        forall|n: Seq<char>|
            #[trigger] names_has(final(out)@, n) <==> names_has(old(out)@, n) || has_var(terms_view(ts@), n),
{
    let ghost before = out@;
    let mut i: usize = 0;
    while i < ts.len()
        invariant
            i <= ts@.len(),
            forall|a: int, b: int| 0 <= a < b < out@.len() ==> out@[a]@ != out@[b]@,
            forall|n: Seq<char>|
                #[trigger] names_has(out@, n) <==> names_has(before, n) || prefix_has_var(
                    terms_view(ts@),
                    i as int,
                    n,
                ),
        decreases ts.len() - i,
    {
        match &ts[i] {
            Term::Variable(v) => {
                let mut present = false;
                let mut j: usize = 0;
                while j < out.len()
                    invariant
                        j <= out@.len(),
                        present <==> exists|a: int| 0 <= a < j && #[trigger] out@[a]@ == v@,
                    decreases out.len() - j,
                {
                    if out[j] == *v {
                        present = true;
                    }
                    j = j + 1;
                }
                let ghost mid = out@;
                if !present {
                    out.push(v.clone());
                }
                proof {
                    assert forall|n: Seq<char>|
                        #[trigger] names_has(out@, n) <==> names_has(before, n) || prefix_has_var(
                            terms_view(ts@),
                            i + 1,
                            n,
                        ) by {
                        assert(terms_view(ts@)[i as int] == VTerm::Var(v@));
                        if names_has(mid, n) {
                            let a = choose|a: int| 0 <= a < mid.len() && #[trigger] mid[a]@ == n;
                            assert(out@[a] == mid[a]);
                        }
                        if names_has(out@, n) && !names_has(mid, n) {
                            let a = choose|a: int| 0 <= a < out@.len() && #[trigger] out@[a]@ == n;
                            if a < mid.len() {
                                assert(out@[a] == mid[a]);
                            }
                        }
                        if n == v@ && !present {
                            assert(out@[out@.len() - 1]@ == n);
                        }
                        if n == v@ && present {
                            let a = choose|a: int| 0 <= a < mid.len() && #[trigger] mid[a]@ == v@;
                            assert(names_has(mid, n));
                        }
                        if prefix_has_var(terms_view(ts@), i + 1, n) && !prefix_has_var(
                            terms_view(ts@),
                            i as int,
                            n,
                        ) {
                            assert(n == v@);
                        }
                        if prefix_has_var(terms_view(ts@), i as int, n) {
                            let j = choose|j: int| 0 <= j < i && #[trigger] terms_view(ts@)[j] == VTerm::Var(n);
                            assert(0 <= j < i + 1);
                        }
                    }
                    assert forall|a: int, b: int| 0 <= a < b < out@.len() implies out@[a]@ != out@[b]@ by {
                        if b == mid.len() {
                            assert(out@[a] == mid[a]);
                        }
                    }
                }
            },
            Term::Constant(_) => {
                proof {
                    assert forall|n: Seq<char>|
                        #[trigger] names_has(out@, n) <==> names_has(before, n) || prefix_has_var(
                            terms_view(ts@),
                            i + 1,
                            n,
                        ) by {
                        if prefix_has_var(terms_view(ts@), i + 1, n) {
                            let j = choose|j: int| 0 <= j < i + 1 && #[trigger] terms_view(ts@)[j] == VTerm::Var(n);
                            assert(j != i);
                        }
                        if prefix_has_var(terms_view(ts@), i as int, n) {
                            let j = choose|j: int| 0 <= j < i && #[trigger] terms_view(ts@)[j] == VTerm::Var(n);
                            assert(0 <= j < i + 1);
                        }
                    }
                }
            },
        }
        i = i + 1;
    }
    proof {
        assert forall|n: Seq<char>|
            #[trigger] names_has(out@, n) <==> names_has(before, n) || has_var(terms_view(ts@), n) by {
            if has_var(terms_view(ts@), n) {
                let j = choose|j: int| 0 <= j < terms_view(ts@).len() && #[trigger] terms_view(ts@)[j] == VTerm::Var(n);
                assert(prefix_has_var(terms_view(ts@), ts@.len() as int, n));
            }
        }
    }
}

/// Whether `name` is a variable among the terms `ts` (executable).
pub fn terms_have_var(ts: &Vec<Term>, name: &String) -> (r: bool)
    ensures
        r == has_var(terms_view(ts@), name@),
{
    let mut i: usize = 0;
    while i < ts.len()
        invariant
            i <= ts@.len(),
            forall|j: int| 0 <= j < i ==> #[trigger] terms_view(ts@)[j] != VTerm::Var(name@),
        decreases ts.len() - i,
    {
        match &ts[i] {
            Term::Variable(v) => {
                if *v == *name {
                    assert(terms_view(ts@)[i as int] == VTerm::Var(name@));
                    return true;
                }
            },
            Term::Constant(_) => {},
        }
        i = i + 1;
    }
    false
}

impl Rule {
    /// Create a new rule (stratum 0).
    pub fn new(head: Atom, body: Vec<Atom>) -> (r: Rule)
        ensures
            r@ == (VRule { head: head@, body: atoms_view(body@), stratum: 0 }),
    {
        Rule { head, body, stratum: 0 }
    }

    /// Create a fact (rule with empty body).
    pub fn fact(head: Atom) -> (r: Rule)
        ensures
            r@ == (VRule { head: head@, body: Seq::empty(), stratum: 0 }),
    {
        let r = Rule::new(head, Vec::new());
        assert(r@.body =~= Seq::<VAtom>::empty());
        r
    }

    /// Check if this is a fact (empty body).
    pub fn is_fact(&self) -> (r: bool)
        ensures
            r == (self@.body.len() == 0),
    {
        self.body.len() == 0
    }

    /// Check if this is a recursive rule.
    pub fn is_recursive(&self) -> (r: bool)
        ensures
            r == rule_recursive(self@),
    {
        let mut i: usize = 0;
        while i < self.body.len()
            invariant
                i <= self.body@.len(),
                forall|j: int| 0 <= j < i ==> #[trigger] self@.body[j].pred != self@.head.pred,
            decreases self.body.len() - i,
        {
            if self.body[i].predicate == self.head.predicate {
                assert(self@.body[i as int].pred == self@.head.pred);
                return true;
            }
            i = i + 1;
        }
        false
    }

    /// Get all variables in the rule, each once, head variables first.
    pub fn variables(&self) -> (r: Vec<String>)
        ensures
            forall|n: Seq<char>| rule_has_var(self@, n) <==> #[trigger] names_has(r@, n),
            forall|i: int, j: int| 0 <= i < j < r@.len() ==> r@[i]@ != r@[j]@,
    {
        let mut out: Vec<String> = Vec::new();
        add_vars(&mut out, &self.head.terms);
        let mut k: usize = 0;
        while k < self.body.len()
            invariant
                k <= self.body@.len(),
                forall|i: int, j: int| 0 <= i < j < out@.len() ==> out@[i]@ != out@[j]@,
                forall|n: Seq<char>| rule_prefix_has_var(self@, k + 1, n) <==> #[trigger] names_has(out@, n),
            decreases self.body.len() - k,
        {
            let ghost before = out@;
            add_vars(&mut out, &self.body[k].terms);
            proof {
                assert forall|n: Seq<char>|
                    rule_prefix_has_var(self@, k + 2, n) <==> #[trigger] names_has(out@, n) by {
                    assert(terms_view(self.body@[k as int].terms@) == self@.body[k as int].terms);
                    if rule_prefix_has_var(self@, k + 2, n) && !has_var(self@.head.terms, n) {
                        let b = choose|b: int| 0 <= b < k + 1 && has_var(#[trigger] self@.body[b].terms, n);
                        if b < k {
                            assert(rule_prefix_has_var(self@, k + 1, n));
                        }
                    }
                    if rule_prefix_has_var(self@, k + 1, n) && !has_var(self@.head.terms, n) {
                        let b = choose|b: int| 0 <= b < k && has_var(#[trigger] self@.body[b].terms, n);
                        assert(0 <= b < k + 1);
                    }
                    if has_var(self@.body[k as int].terms, n) {
                        assert(rule_prefix_has_var(self@, k + 2, n));
                    }
                }
            }
            k = k + 1;
        }
        proof {
            assert forall|n: Seq<char>| rule_has_var(self@, n) <==> #[trigger] names_has(out@, n) by {
                assert(rule_prefix_has_var(self@, k + 1, n) == rule_has_var(self@, n));
            }
        }
        out
    }

    /// Check if rule is safe (all head variables appear in positive body atoms).
    pub fn is_safe(&self) -> (r: bool)
        ensures
            r == rule_safe(self@),
    {
        let mut i: usize = 0;
        while i < self.head.terms.len()
            invariant
                i <= self.head.terms@.len(),
                forall|j: int|
                    0 <= j < i ==> match #[trigger] self@.head.terms[j] {
                        VTerm::Var(n) => positive_body_var(self@, n),
                        VTerm::Const(_) => true,
                    },
            decreases self.head.terms.len() - i,
        {
            match &self.head.terms[i] {
                Term::Variable(name) => {
                    let mut found = false;
                    let mut b: usize = 0;
                    while b < self.body.len()
                        invariant
                            b <= self.body@.len(),
                            found <==> exists|x: int|
                                0 <= x < b && !self@.body[x].negated && has_var(
                                    #[trigger] self@.body[x].terms,
                                    name@,
                                ),
                        decreases self.body.len() - b,
                    {
                        assert(self@.body[b as int].terms == terms_view(self.body@[b as int].terms@));
                        if !self.body[b].negated && terms_have_var(&self.body[b].terms, name) {
                            found = true;
                        }
                        b = b + 1;
                    }
                    if !found {
                        assert(has_var(self@.head.terms, name@)) by {
                            assert(self@.head.terms[i as int] == VTerm::Var(name@));
                        }
                        assert(!positive_body_var(self@, name@));
                        assert(!rule_safe(self@));
                        return false;
                    }
                },
                Term::Constant(_) => {},
            }
            i = i + 1;
        }
        proof {
            assert forall|n: Seq<char>| has_var(self@.head.terms, n) implies #[trigger] positive_body_var(
                self@,
                n,
            ) by {
                let j = choose|j: int| 0 <= j < self@.head.terms.len() && #[trigger] self@.head.terms[j] == VTerm::Var(n);
                assert(match self@.head.terms[j] {
                    VTerm::Var(n) => positive_body_var(self@, n),
                    VTerm::Const(_) => true,
                });
            }
        }
        true
    }

    /// Get dependencies (the predicates of the body atoms, in order).
    pub fn dependencies(&self) -> (r: Vec<String>)
        ensures
            r@.len() == self@.body.len(),
            forall|i: int| 0 <= i < r@.len() ==> #[trigger] r@[i]@ == self@.body[i].pred,
    {
        let mut out: Vec<String> = Vec::new();
        let mut i: usize = 0;
        while i < self.body.len()
            invariant
                i <= self.body@.len(),
                out@.len() == i,
                forall|j: int| 0 <= j < i ==> #[trigger] out@[j]@ == self@.body[j].pred,
            decreases self.body.len() - i,
        {
            out.push(self.body[i].predicate.clone());
            i = i + 1;
        }
        out
    }

    /// Text rendering: `head :- a1, a2.` or `head.` for facts.
    pub fn render(&self) -> (r: String)
        ensures
            r@ == render_rule(self@),
    {
        let mut s = self.head.render();
        if self.body.len() > 0 {
            s.append(" :- ");
        }
        let ghost head = s@;
        let mut i: usize = 0;
        while i < self.body.len()
            invariant
                i <= self.body@.len(),
                s@ == head + render_atoms(self@.body.subrange(0, i as int)),
            decreases self.body.len() - i,
        {
            let ghost pre = self@.body.subrange(0, i as int);
            assert(self@.body.subrange(0, i + 1).drop_last() =~= pre);
            if i > 0 {
                s.append(", ");
            }
            let t = self.body[i].render();
            s.append(t.as_str());
            proof {
                if i > 0 {
                    assert(head + render_atoms(pre) + ", "@ + render_atom(self@.body[i as int])
                        =~= head + (render_atoms(pre) + ", "@ + render_atom(self@.body[i as int])));
                } else {
                    assert(head + render_atoms(pre) + render_atom(self@.body[i as int]) =~= head + (
                    render_atoms(pre) + render_atom(self@.body[i as int])));
                }
            }
            i = i + 1;
        }
        assert(self@.body.subrange(0, self.body@.len() as int) =~= self@.body);
        push_char(&mut s, '.');
        s
    }
}

/// Comma-separated renderings of atoms.
pub open spec fn render_atoms(ts: Seq<VAtom>) -> Seq<char>
    decreases ts.len(),
{
    if ts.len() == 0 {
        Seq::empty()
    } else if ts.len() == 1 {
        render_atom(ts[0])
    } else {
        render_atoms(ts.drop_last()) + ", "@ + render_atom(ts.last())
    }
}

/// Text rendering of a rule.
pub open spec fn render_rule(r: VRule) -> Seq<char> {
    (render_atom(r.head) + (if r.body.len() > 0 { " :- "@ } else { Seq::empty() }) + render_atoms(
        r.body,
    )).push('.')
}

/// Variable substitution (binding), each variable bound at most once.
#[derive(Debug)]
pub struct Substitution {
    bindings: Vec<(String, Value)>,
}

/// Model of a binding list: the value of each variable is its first binding.
pub open spec fn bindings_map(s: Seq<(String, Value)>) -> Map<Seq<char>, VValue>
    decreases s.len(),
{
    if s.len() == 0 {
        Map::empty()
    } else {
        bindings_map(s.drop_first()).insert(s[0].0@, s[0].1@)
    }
}

/// No variable bound twice.
pub open spec fn distinct_keys(s: Seq<(String, Value)>) -> bool {
    forall|i: int, j: int| 0 <= i < j < s.len() ==> (#[trigger] s[i]).0@ != (#[trigger] s[j]).0@
}

impl View for Substitution {
    type V = Map<Seq<char>, VValue>;

    closed spec fn view(&self) -> Map<Seq<char>, VValue> {
        bindings_map(self.bindings@)
    }
}

/// Facts about the model of a binding list.
proof fn lemma_bindings_map(s: Seq<(String, Value)>)
    ensures
        bindings_map(s).dom().finite(),
        forall|k: Seq<char>|
            #[trigger] bindings_map(s).dom().contains(k) <==> exists|i: int|
                0 <= i < s.len() && #[trigger] s[i].0@ == k,
        distinct_keys(s) ==> bindings_map(s).dom().len() == s.len(),
        distinct_keys(s) ==> forall|i: int| 0 <= i < s.len() ==> #[trigger] bindings_map(s)[s[i].0@] == s[i].1@,
    decreases s.len(),
{
    if s.len() > 0 {
        let rest = s.drop_first();
        lemma_bindings_map(rest);
        assert forall|k: Seq<char>|
            #[trigger] bindings_map(s).dom().contains(k) <==> exists|i: int|
                0 <= i < s.len() && #[trigger] s[i].0@ == k by {
            if exists|i: int| 0 <= i < s.len() && #[trigger] s[i].0@ == k {
                let i = choose|i: int| 0 <= i < s.len() && #[trigger] s[i].0@ == k;
                if i > 0 {
                    assert(rest[i - 1] == s[i]);
                }
            }
            if bindings_map(s).dom().contains(k) && k != s[0].0@ {
                let i = choose|i: int| 0 <= i < rest.len() && #[trigger] rest[i].0@ == k;
                assert(s[i + 1] == rest[i]);
            }
        }
        if distinct_keys(s) {
            assert(distinct_keys(rest)) by {
                assert forall|i: int, j: int| 0 <= i < j < rest.len() implies (#[trigger] rest[i]).0@
                    != (#[trigger] rest[j]).0@ by {
                    assert(rest[i] == s[i + 1]);
                    assert(rest[j] == s[j + 1]);
                }
            }
            assert(!bindings_map(rest).dom().contains(s[0].0@)) by {
                if bindings_map(rest).dom().contains(s[0].0@) {
                    let i = choose|i: int| 0 <= i < rest.len() && #[trigger] rest[i].0@ == s[0].0@;
                    assert(s[i + 1] == rest[i]);
                }
            }
            assert forall|i: int| 0 <= i < s.len() implies #[trigger] bindings_map(s)[s[i].0@] == s[i].1@ by {
                if i > 0 {
                    assert(rest[i - 1] == s[i]);
                    assert(s[i].0@ != s[0].0@);
                }
            }
        }
    }
}

/// The value of a term under a substitution.
pub open spec fn apply_term(m: Map<Seq<char>, VValue>, t: VTerm) -> VTerm {
    match t {
        VTerm::Var(n) => if m.dom().contains(n) {
            VTerm::Const(m[n])
        } else {
            t
        },
        VTerm::Const(_) => t,
    }
}

/// Terms after substitution.
pub open spec fn apply_terms(m: Map<Seq<char>, VValue>, ts: Seq<VTerm>) -> Seq<VTerm> {
    Seq::new(ts.len(), |i: int| apply_term(m, ts[i]))
}

impl Substitution {
    #[verifier::type_invariant]
    spec fn inv(self) -> bool {
        distinct_keys(self.bindings@)
    }

    /// Create an empty substitution.
    pub fn new() -> (r: Substitution)
        ensures
            r@ == Map::<Seq<char>, VValue>::empty(),
    {
        let r = Substitution { bindings: Vec::new() };
        assert(r@ =~= Map::<Seq<char>, VValue>::empty());
        r
    }

    /// Position of the binding of `variable`, if any.
    fn find(&self, variable: &str) -> (r: Option<usize>)
        ensures
            match r {
                Some(i) => i < self.bindings@.len() && self.bindings@[i as int].0@ == variable@,
                None => forall|i: int| 0 <= i < self.bindings@.len() ==> #[trigger] self.bindings@[i].0@ != variable@,
            },
    {
        let k = String::from_str(variable);
        let mut i: usize = 0;
        while i < self.bindings.len()
            invariant
                k@ == variable@,
                i <= self.bindings@.len(),
                forall|j: int| 0 <= j < i ==> #[trigger] self.bindings@[j].0@ != variable@,
            decreases self.bindings.len() - i,
        {
            if self.bindings[i].0 == k {
                return Some(i);
            }
            i = i + 1;
        }
        None
    }

    /// Add a binding (replacing an existing binding of the same variable).
    pub fn bind(&mut self, variable: String, value: Value)
        ensures
            final(self)@ == old(self)@.insert(variable@, value@),
    {
        proof {
            use_type_invariant(&*self);
            lemma_bindings_map(self.bindings@);
        }
        let ghost old_b = self.bindings@;
        let ghost kv = (variable@, value@);
        match self.find(variable.as_str()) {
            Some(i) => {
                let mut b = Vec::new();
                std::mem::swap(&mut b, &mut self.bindings);
                b.set(i, (variable, value));
                proof {
                    assert forall|x: int, y: int| 0 <= x < y < b@.len() implies (#[trigger] b@[x]).0@
                        != (#[trigger] b@[y]).0@ by {
                        if x != i {
                            assert(b@[x] == old_b[x]);
                        }
                        if y != i {
                            assert(b@[y] == old_b[y]);
                        }
                    }
                    lemma_bindings_map(b@);
                    assert(bindings_map(b@) =~= bindings_map(old_b).insert(kv.0, kv.1)) by {
                        assert forall|k: Seq<char>| #[trigger] bindings_map(b@).dom().contains(k)
                            <==> bindings_map(old_b).insert(kv.0, kv.1).dom().contains(k) by {
                            if bindings_map(old_b).dom().contains(k) && k != kv.0 {
                                let j = choose|j: int| 0 <= j < old_b.len() && #[trigger] old_b[j].0@ == k;
                                assert(b@[j] == old_b[j]);
                            }
                            if bindings_map(b@).dom().contains(k) && k != kv.0 {
                                let j = choose|j: int| 0 <= j < b@.len() && #[trigger] b@[j].0@ == k;
                                assert(b@[j] == old_b[j]);
                            }
                            if k == kv.0 {
                                assert(b@[i as int].0@ == k);
                            }
                        }
                        assert forall|k: Seq<char>| #[trigger] bindings_map(b@).dom().contains(k)
                            implies bindings_map(b@)[k] == bindings_map(old_b).insert(kv.0, kv.1)[k] by {
                            let j = choose|j: int| 0 <= j < b@.len() && #[trigger] b@[j].0@ == k;
                            if j != i {
                                assert(b@[j] == old_b[j]);
                            }
                        }
                    }
                }
                self.bindings = b;
            },
            None => {
                let mut b = Vec::new();
                std::mem::swap(&mut b, &mut self.bindings);
                b.push((variable, value));
                proof {
                    assert forall|x: int, y: int| 0 <= x < y < b@.len() implies (#[trigger] b@[x]).0@
                        != (#[trigger] b@[y]).0@ by {
                        assert(b@[x] == old_b[x]);
                        if y < old_b.len() {
                            assert(b@[y] == old_b[y]);
                        }
                    }
                    lemma_bindings_map(b@);
                    assert(bindings_map(b@) =~= bindings_map(old_b).insert(kv.0, kv.1)) by {
                        assert forall|k: Seq<char>| #[trigger] bindings_map(b@).dom().contains(k)
                            <==> bindings_map(old_b).insert(kv.0, kv.1).dom().contains(k) by {
                            if bindings_map(old_b).dom().contains(k) {
                                let j = choose|j: int| 0 <= j < old_b.len() && #[trigger] old_b[j].0@ == k;
                                assert(b@[j] == old_b[j]);
                            }
                            if bindings_map(b@).dom().contains(k) && k != kv.0 {
                                let j = choose|j: int| 0 <= j < b@.len() && #[trigger] b@[j].0@ == k;
                                assert(b@[j] == old_b[j]);
                            }
                            if k == kv.0 {
                                assert(b@[old_b.len() as int].0@ == k);
                            }
                        }
                        assert forall|k: Seq<char>| #[trigger] bindings_map(b@).dom().contains(k)
                            implies bindings_map(b@)[k] == bindings_map(old_b).insert(kv.0, kv.1)[k] by {
                            let j = choose|j: int| 0 <= j < b@.len() && #[trigger] b@[j].0@ == k;
                            if j < old_b.len() {
                                assert(b@[j] == old_b[j]);
                            }
                        }
                    }
                }
                self.bindings = b;
            },
        }
    }

    /// Get binding for a variable.
    pub fn get(&self, variable: &str) -> (r: Option<&Value>)
        ensures
            match r {
                Some(v) => self@.dom().contains(variable@) && self@[variable@] == v@,
                None => !self@.dom().contains(variable@),
            },
    {
        proof {
            use_type_invariant(self);
            lemma_bindings_map(self.bindings@);
        }
        match self.find(variable) {
            Some(i) => Some(&self.bindings[i].1),
            None => None,
        }
    }

    /// Check if variable is bound.
    pub fn contains(&self, variable: &str) -> (r: bool)
        ensures
            r == self@.dom().contains(variable@),
    {
        proof {
            use_type_invariant(self);
            lemma_bindings_map(self.bindings@);
        }
        self.find(variable).is_some()
    }

    /// Apply substitution to a term.
    pub fn apply_to_term(&self, term: &Term) -> (r: Term)
        ensures
            r@ == apply_term(self@, term@),
    {
        match term {
            Term::Variable(name) => {
                match self.get(name.as_str()) {
                    Some(value) => Term::Constant(value_clone(value)),
                    None => term_clone(term),
                }
            },
            Term::Constant(_) => term_clone(term),
        }
    }

    /// A copy of this substitution.
    pub fn duplicate(&self) -> (r: Substitution)
        ensures
            r@ == self@,
    {
        proof {
            use_type_invariant(self);
        }
        let mut out: Vec<(String, Value)> = Vec::new();
        let mut i: usize = 0;
        while i < self.bindings.len()
            invariant
                i <= self.bindings@.len(),
                out@.len() == i,
                forall|j: int|
                    0 <= j < i ==> (#[trigger] out@[j]).0@ == self.bindings@[j].0@ && out@[j].1@
                        == self.bindings@[j].1@,
            decreases self.bindings.len() - i,
        {
            out.push((self.bindings[i].0.clone(), value_clone(&self.bindings[i].1)));
            i = i + 1;
        }
        proof {
            lemma_same_bindings(out@, self.bindings@);
        }
        Substitution { bindings: out }
    }

    /// Merge two substitutions (None if they bind a variable to different values).
    pub fn merge(&self, other: &Substitution) -> (r: Option<Substitution>)
        ensures
            match r {
                Some(s) => compatible(self@, other@) && s@ == self@.union_prefer_right(other@),
                None => !compatible(self@, other@),
            },
    {
        proof {
            use_type_invariant(other);
            lemma_bindings_map(other.bindings@);
        }
        let mut result = self.duplicate();
        let mut i: usize = 0;
        while i < other.bindings.len()
            invariant
                i <= other.bindings@.len(),
                distinct_keys(other.bindings@),
                result@ == self@.union_prefer_right(bindings_map(other.bindings@.subrange(0, i as int))),
                compatible(self@, bindings_map(other.bindings@.subrange(0, i as int))),
            decreases other.bindings.len() - i,
        {
            let ghost pre = other.bindings@.subrange(0, i as int);
            let ghost next = other.bindings@.subrange(0, i + 1);
            proof {
                lemma_bindings_map_snoc(next);
                assert(next.drop_last() =~= pre);
                assert(next.last() == other.bindings@[i as int]);
                lemma_bindings_map(pre);
                assert(!bindings_map(pre).dom().contains(other.bindings@[i as int].0@)) by {
                    if bindings_map(pre).dom().contains(other.bindings@[i as int].0@) {
                        let j = choose|j: int| 0 <= j < pre.len() && #[trigger] pre[j].0@ == other.bindings@[i as int].0@;
                        assert(pre[j] == other.bindings@[j]);
                    }
                }
            }
            let var = &other.bindings[i].0;
            let val = &other.bindings[i].1;
            match result.get(var.as_str()) {
                Some(existing) => {
                    if !value_eq(existing, val) {
                        proof {
                            assert(!bindings_map(pre).dom().contains(var@));
                            assert(self@.dom().contains(var@));
                            lemma_bindings_map(other.bindings@);
                            assert(other@[var@] == val@);
                        }
                        return None;
                    }
                    proof {
                        assert(bindings_map(next) == bindings_map(pre).insert(var@, val@));
                        assert(result@.insert(var@, val@) =~= result@);
                        assert(self@.union_prefer_right(bindings_map(next)) =~= self@.union_prefer_right(
                            bindings_map(pre),
                        ).insert(var@, val@));
                    }
                },
                None => {
                    proof {
                        assert(self@.union_prefer_right(bindings_map(next)) =~= self@.union_prefer_right(
                            bindings_map(pre),
                        ).insert(var@, val@));
                    }
                    result.bind(var.clone(), value_clone(val));
                },
            }
            i = i + 1;
        }
        proof {
            assert(other.bindings@.subrange(0, other.bindings@.len() as int) =~= other.bindings@);
        }
        Some(result)
    }

    /// Whether every binding of `self` is also one of `other`.
    fn included_in(&self, other: &Substitution) -> (r: bool)
        ensures
            r == (forall|k: Seq<char>| #[trigger] self@.dom().contains(k) ==> other@.dom().contains(k)
                && other@[k] == self@[k]),
    {
        proof {
            use_type_invariant(self);
            lemma_bindings_map(self.bindings@);
        }
        let mut i: usize = 0;
        while i < self.bindings.len()
            invariant
                i <= self.bindings@.len(),
                distinct_keys(self.bindings@),
                self@ == bindings_map(self.bindings@),
                forall|j: int|
                    0 <= j < i ==> other@.dom().contains(#[trigger] self.bindings@[j].0@)
                        && other@[self.bindings@[j].0@] == self@[self.bindings@[j].0@],
            decreases self.bindings.len() - i,
        {
            proof {
                lemma_bindings_map(self.bindings@);
            }
            let k = &self.bindings[i].0;
            let ghost kk = self.bindings@[i as int].0@;
            assert(bindings_map(self.bindings@).dom().contains(kk));
            assert(self@.dom().contains(kk));
            match other.get(k.as_str()) {
                Some(v) => {
                    if !value_eq(v, &self.bindings[i].1) {
                        assert(self@[self.bindings@[i as int].0@] == self.bindings@[i as int].1@);
                        assert(other@[kk] != self@[kk]);
                        return false;
                    }
                    assert(self@[self.bindings@[i as int].0@] == self.bindings@[i as int].1@);
                },
                None => {
                    assert(!other@.dom().contains(kk));
                    return false;
                },
            }
            i = i + 1;
        }
        proof {
            assert forall|k: Seq<char>| #[trigger] self@.dom().contains(k) implies other@.dom().contains(k)
                && other@[k] == self@[k] by {
                let j = choose|j: int| 0 <= j < self.bindings@.len() && #[trigger] self.bindings@[j].0@ == k;
            }
        }
        true
    }

    /// Whether two substitutions bind the same variables to the same values.
    pub fn same_bindings(&self, other: &Substitution) -> (r: bool)
        ensures
            r == (self@ == other@),
    {
        let a = self.included_in(other);
        let b = other.included_in(self);
        proof {
            if a && b {
                assert(self@ =~= other@);
            }
        }
        a && b
    }

    /// Get all bindings, each variable once.
    pub fn bindings(&self) -> (r: &Vec<(String, Value)>)
        ensures
            distinct_keys(r@),
            bindings_map(r@) == self@,
    {
        proof {
            use_type_invariant(self);
        }
        &self.bindings
    }

    /// Number of bindings.
    pub fn len(&self) -> (r: usize)
        ensures
            r == self@.dom().len(),
    {
        proof {
            use_type_invariant(self);
            lemma_bindings_map(self.bindings@);
        }
        self.bindings.len()
    }

    /// Check if substitution is empty.
    pub fn is_empty(&self) -> (r: bool)
        ensures
            r == (self@.dom().len() == 0),
    {
        self.len() == 0
    }
}

/// Whether two substitutions agree on every variable they both bind.
pub open spec fn compatible(a: Map<Seq<char>, VValue>, b: Map<Seq<char>, VValue>) -> bool {
    forall|k: Seq<char>| a.dom().contains(k) && b.dom().contains(k) ==> #[trigger] a[k] == b[k]
}

/// Binding lists with equal entries have equal models.
proof fn lemma_same_bindings(a: Seq<(String, Value)>, b: Seq<(String, Value)>)
    requires
        a.len() == b.len(),
        forall|j: int| 0 <= j < a.len() ==> (#[trigger] a[j]).0@ == b[j].0@ && a[j].1@ == b[j].1@,
    ensures
        bindings_map(a) == bindings_map(b),
        distinct_keys(a) == distinct_keys(b),
    decreases a.len(),
{
    if a.len() > 0 {
        assert forall|j: int| 0 <= j < a.len() - 1 implies (#[trigger] a.drop_first()[j]).0@
            == b.drop_first()[j].0@ && a.drop_first()[j].1@ == b.drop_first()[j].1@ by {
            assert(a.drop_first()[j] == a[j + 1]);
        }
        lemma_same_bindings(a.drop_first(), b.drop_first());
    }
    if distinct_keys(a) != distinct_keys(b) {
        if distinct_keys(a) {
            let (i, j) = choose|i: int, j: int| 0 <= i < j < b.len() && (#[trigger] b[i]).0@ == (#[trigger] b[j]).0@;
            assert(a[i].0@ == a[j].0@);
        } else {
            let (i, j) = choose|i: int, j: int| 0 <= i < j < a.len() && (#[trigger] a[i]).0@ == (#[trigger] a[j]).0@;
            assert(b[i].0@ == b[j].0@);
        }
    }
}

/// Appending a binding for a fresh variable.
proof fn lemma_bindings_map_snoc(s: Seq<(String, Value)>)
    requires
        s.len() > 0,
    ensures
        !bindings_map(s.drop_last()).dom().contains(s.last().0@) ==> bindings_map(s) == bindings_map(
            s.drop_last(),
        ).insert(s.last().0@, s.last().1@),
    decreases s.len(),
{
    if s.len() > 1 {
        let t = s.drop_first();
        lemma_bindings_map_snoc(t);
        assert(t.drop_last() =~= s.drop_last().drop_first());
        assert(t.last() == s.last());
        if !bindings_map(s.drop_last()).dom().contains(s.last().0@) {
            assert(s.drop_last()[0] == s[0]);
            assert(bindings_map(s) =~= bindings_map(s.drop_last()).insert(s.last().0@, s.last().1@));
        }
    } else {
        assert(s.drop_last() =~= Seq::<(String, Value)>::empty());
        assert(s.drop_first() =~= Seq::<(String, Value)>::empty());
    }
}

/// Aggregate operation.
#[derive(Debug, Clone, Copy, PartialEq, Eq, Structural)]
pub enum AggregateOp {
    /// Count aggregation
    Count,
    /// Sum aggregation
    Sum,
    /// Minimum
    Min,
    /// Maximum
    Max,
    /// Average (mean)
    Mean,
}

impl AggregateOp {
    /// The operation's name.
    pub fn name(&self) -> (r: &'static str)
        ensures
            r@ == aggregate_op_name(*self),
    {
        match self {
            AggregateOp::Count => "count",
            AggregateOp::Sum => "sum",
            AggregateOp::Min => "min",
            AggregateOp::Max => "max",
            AggregateOp::Mean => "mean",
        }
    }
}

/// The name of an aggregate operation.
pub open spec fn aggregate_op_name(op: AggregateOp) -> Seq<char> {
    match op {
        AggregateOp::Count => "count"@,
        AggregateOp::Sum => "sum"@,
        AggregateOp::Min => "min"@,
        AggregateOp::Max => "max"@,
        AggregateOp::Mean => "mean"@,
    }
}

/// Aggregate atom (e.g., count(?X, R) :- edge(?X, ?Y)).
#[derive(Debug)]
pub struct AggregateAtom {
    /// Aggregate operation
    pub op: AggregateOp,
    /// Variable to aggregate over
    pub aggregate_var: String,
    /// Result variable
    pub result_var: String,
    /// Body atoms
    pub body: Vec<Atom>,
}

impl AggregateAtom {
    /// Create a new aggregate atom.
    pub fn new(op: AggregateOp, aggregate_var: String, result_var: String, body: Vec<Atom>) -> (r:
        AggregateAtom)
        ensures
            r.op == op,
            r.aggregate_var@ == aggregate_var@,
            r.result_var@ == result_var@,
            atoms_view(r.body@) == atoms_view(body@),
    {
        AggregateAtom { op, aggregate_var, result_var, body }
    }
}

} // verus!
