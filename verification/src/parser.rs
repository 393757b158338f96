//! Parser for RUNE configuration files: sections, Datalog rules, terms,
//! atoms and Cedar policy texts.
use vstd::prelude::*;
use crate::types::{Value, VValue};
use crate::datalog::types::{Atom, Rule, Term, VAtom, VRule, VTerm, terms_view, atoms_view};
use crate::text::{CharClass, chars_of, copy_range, drop_trailing, find_char, first_index, models,
    pieces, split_chars, strip, strip_spec, string_from_chars, trim, text_lines, lines_of, is_prefix,
    starts_with, decimal, u64_to_string, owned, str_eq};
use crate::error::RUNEError;
use crate::toml_data::{toml_from_str, empty_toml_table, toml_parse_error, toml_document};

verus! {

broadcast use vstd::std_specs::vec::group_vec_axioms;

/// Whether a character has the Unicode `Uppercase` property.
pub uninterp spec fn uppercase(c: char) -> bool;

/// Whether a character is uppercase: among ASCII characters exactly `A` to
/// `Z`; beyond ASCII, by the Unicode `Uppercase` property.
pub open spec fn is_upper(c: char) -> bool {
    if (c as u32) < 128 {
        'A' <= c && c <= 'Z'
    } else {
        uppercase(c)
    }
}

/// `char::is_uppercase`: the Unicode `Uppercase` property; among ASCII
/// characters exactly `A` to `Z` have it.
#[verifier::external_body]
fn char_is_uppercase(c: char) -> (r: bool)
    ensures
        r == is_upper(c),
        (c as u32) >= 128 ==> r == uppercase(c),
{
    c.is_uppercase()
}

/// The value of a string of decimal digits.
pub open spec fn digits_value(s: Seq<char>) -> int
    decreases s.len(),
{
    if s.len() == 0 {
        0
    } else {
        digits_value(s.drop_last()) * 10 + (s.last() as int - '0' as int)
    }
}

/// Every character is a decimal digit.
pub open spec fn all_digits(s: Seq<char>) -> bool {
    forall|i: int| 0 <= i < s.len() ==> '0' <= #[trigger] s[i] && s[i] <= '9'
}

/// What `str::parse::<i64>` gives: an optional sign, then at least one
/// decimal digit and nothing else, with the value in range.
pub open spec fn parse_i64_spec(s: Seq<char>) -> Option<i64> {
    let neg = s.len() > 0 && s[0] == '-';
    let d = if s.len() > 0 && (s[0] == '-' || s[0] == '+') {
        s.drop_first()
    } else {
        s
    };
    if d.len() == 0 || !all_digits(d) {
        None
    } else {
        let v = if neg {
            -digits_value(d)
        } else {
            digits_value(d)
        };
        if i64::MIN <= v && v <= i64::MAX {
            Some(v as i64)
        } else {
            None
        }
    }
}

proof fn lemma_digits_value_nonneg(s: Seq<char>)
    requires
        all_digits(s),
    ensures
        digits_value(s) >= 0,
    decreases s.len(),
{
    if s.len() > 0 {
        assert(all_digits(s.drop_last())) by {
            assert forall|i: int| 0 <= i < s.drop_last().len() implies '0' <= #[trigger] s.drop_last()[i]
                && s.drop_last()[i] <= '9' by {
                assert(s.drop_last()[i] == s[i]);
            }
        }
        lemma_digits_value_nonneg(s.drop_last());
        assert('0' <= s[s.len() - 1]);
    }
}

proof fn lemma_digits_value_grows(s: Seq<char>, i: int)
    requires
        all_digits(s),
        0 <= i <= s.len(),
    ensures
        digits_value(s.take(i)) <= digits_value(s),
    decreases s.len() - i,
{
    if i < s.len() {
        lemma_digits_value_grows(s, i + 1);
        assert(s.take(i + 1).drop_last() =~= s.take(i));
        assert(all_digits(s.take(i))) by {
            assert forall|k: int| 0 <= k < s.take(i).len() implies '0' <= #[trigger] s.take(i)[k]
                && s.take(i)[k] <= '9' by {
                assert(s.take(i)[k] == s[k]);
            }
        }
        lemma_digits_value_nonneg(s.take(i));
        assert('0' <= s[i] && s[i] <= '9');
    } else {
        assert(s.take(i) =~= s);
    }
}

/// `str::parse::<i64>` on a character slice.
pub fn parse_i64(s: &[char]) -> (r: Option<i64>)
    ensures
        r == parse_i64_spec(s@),
{
    let n = s.len();
    let neg = n > 0 && s[0] == '-';
    let start: usize = if n > 0 && (s[0] == '-' || s[0] == '+') { 1 } else { 0 };
    let ghost d = if n > 0 && (s@[0] == '-' || s@[0] == '+') {
        s@.drop_first()
    } else {
        s@
    };
    assert(d =~= s@.skip(start as int));
    if start == n {
        return None;
    }
    let bound: i128 = 9223372036854775808;
    let mut acc: i128 = 0;
    let mut i: usize = start;
    while i < n
        invariant
            n == s@.len(),
            bound == 9223372036854775808,
            neg == (s@.len() > 0 && s@[0] == '-'),
            d == (if s@.len() > 0 && (s@[0] == '-' || s@[0] == '+') {
                s@.drop_first()
            } else {
                s@
            }),
            start <= i <= n,
            d == s@.skip(start as int),
            all_digits(d.take(i - start)),
            acc == digits_value(d.take(i - start)),
            0 <= acc <= bound,
        decreases n - i,
    {
        let c = s[i];
        assert(d[i - start] == c);
        if !('0' <= c && c <= '9') {
            assert(!all_digits(d));
            return None;
        }
        let dv = (c as u32 - '0' as u32) as i128;
        assert(d.take(i + 1 - start).drop_last() =~= d.take(i - start));
        assert(all_digits(d.take(i + 1 - start))) by {
            assert forall|k: int| 0 <= k < d.take(i + 1 - start).len() implies '0' <= #[trigger] d.take(
                i + 1 - start,
            )[k] && d.take(i + 1 - start)[k] <= '9' by {
                if k < i - start {
                    assert(d.take(i + 1 - start)[k] == d.take(i - start)[k]);
                }
            }
        }
        let next = acc * 10 + dv;
        if next > bound {
            proof {
                let j = i + 1 - start;
                if all_digits(d) {
                    lemma_digits_value_grows(d, j);
                }
            }
            return None;
        }
        acc = next;
        i = i + 1;
    }
    assert(d.take(n - start) =~= d);
    if neg {
        Some((-acc) as i64)
    } else if acc <= 9223372036854775807 {
        Some(acc as i64)
    } else {
        None
    }
}

/// The text with the characters `s` holds.
pub open spec fn literal_true() -> Seq<char> {
    seq!['t', 'r', 'u', 'e']
}

/// The text with the characters `s` holds.
pub open spec fn literal_false() -> Seq<char> {
    seq!['f', 'a', 'l', 's', 'e']
}

/// The term a text stands for: a variable where it starts with an upper-case
/// letter or `_`, else an integer, a boolean, or a string without its quotes.
pub open spec fn parse_term_spec(input: Seq<char>) -> VTerm {
    let t = trim(input);
    if t.len() > 0 && (is_upper(t[0]) || t[0] == '_') {
        VTerm::Var(t)
    } else {
        match parse_i64_spec(t) {
            Some(i) => VTerm::Const(VValue::Int(i as int)),
            None => if t == literal_true() {
                VTerm::Const(VValue::Bool(true))
            } else if t == literal_false() {
                VTerm::Const(VValue::Bool(false))
            } else {
                VTerm::Const(
                    VValue::Str(
                        strip_spec(
                            strip_spec(t, CharClass::Is('"'), true, true),
                            CharClass::Is('\''),
                            true,
                            true,
                        ),
                    ),
                )
            },
        }
    }
}

/// Whether two character slices are equal.
fn chars_eq(a: &[char], b: &[char]) -> (r: bool)
    ensures
        r == (a@ == b@),
{
    if a.len() != b.len() {
        return false;
    }
    let mut i: usize = 0;
    while i < a.len()
        invariant
            a@.len() == b@.len(),
            i <= a@.len(),
            forall|k: int| 0 <= k < i ==> a@[k] == b@[k],
        decreases a.len() - i,
    {
        if a[i] != b[i] {
            return false;
        }
        i = i + 1;
    }
    assert(a@ =~= b@);
    true
}

/// Parse a term (variable or constant); every text is some term.
pub fn parse_term_chars(input: &[char]) -> (r: Term)
    ensures
        r@ == parse_term_spec(input@),
{
    let t = strip(input, CharClass::Space, true, true);
    if t.len() > 0 && (char_is_uppercase(t[0]) || t[0] == '_') {
        return Term::Variable(string_from_chars(t.as_slice()));
    }
    match parse_i64(t.as_slice()) {
        Some(i) => Term::Constant(Value::Integer(i)),
        None => {
            let tv = vec!['t', 'r', 'u', 'e'];
            let fv = vec!['f', 'a', 'l', 's', 'e'];
            assert(tv@ =~= literal_true());
            assert(fv@ =~= literal_false());
            if chars_eq(t.as_slice(), tv.as_slice()) {
                Term::Constant(Value::Bool(true))
            } else if chars_eq(t.as_slice(), fv.as_slice()) {
                Term::Constant(Value::Bool(false))
            } else {
                let a = strip(t.as_slice(), CharClass::Is('"'), true, true);
                let b = strip(a.as_slice(), CharClass::Is('\''), true, true);
                Term::Constant(Value::String(string_from_chars(b.as_slice())))
            }
        },
    }
}

/// Parse a term (variable or constant); every text is some term.
pub fn parse_term(input: &str) -> (r: Result<Term, crate::error::RUNEError>)
    ensures
        r matches Ok(t) && t@ == parse_term_spec(input@),
{
    let c = chars_of(input);
    Ok(parse_term_chars(c.as_slice()))
}

/// The atom a text stands for: a predicate, then arguments between
/// parentheses separated by commas (closing parentheses and periods at the end
/// are dropped); without a parenthesis, the text less final periods is the predicate.
pub open spec fn parse_atom_spec(input: Seq<char>, negated: bool) -> VAtom {
    match first_index(input, '(') {
        Some(p) => {
            let args = drop_trailing(
                drop_trailing(input.skip(p + 1), CharClass::Is('.')),
                CharClass::Is(')'),
            );
            VAtom {
                pred: trim(input.take(p)),
                terms: if args.len() == 0 {
                    Seq::empty()
                } else {
                    pieces(args, ',').map_values(|a: Seq<char>| parse_term_spec(trim(a)))
                },
                negated,
            }
        },
        None => VAtom {
            pred: drop_trailing(input, CharClass::Is('.')),
            terms: Seq::empty(),
            negated,
        },
    }
}

/// Parse an atom; every text is some atom.
pub fn parse_atom_chars(input: &[char], negated: bool) -> (r: Atom)
    ensures
        r@ == parse_atom_spec(input@, negated),
{
    match find_char(input, '(') {
        Some(p) => {
            let len = input.len();
            assert(p < len);
            let head = copy_range(input, 0, p);
            let pred = strip(head.as_slice(), CharClass::Space, true, true);
            let rest = copy_range(input, p + 1, len);
            let a1 = strip(rest.as_slice(), CharClass::Is('.'), false, true);
            let args = strip(a1.as_slice(), CharClass::Is(')'), false, true);
            assert(head@ =~= input@.take(p as int));
            assert(rest@ =~= input@.skip(p + 1));
            let mut terms: Vec<Term> = Vec::new();
            if args.len() > 0 {
                let parts = split_chars(args.as_slice(), ',');
                let mut i: usize = 0;
                while i < parts.len()
                    invariant
                        i <= parts@.len(),
                        models(parts@) == pieces(args@, ','),
                        terms_view(terms@) == pieces(args@, ',').map_values(
                            |a: Seq<char>| parse_term_spec(trim(a)),
                        ).take(i as int),
                    decreases parts.len() - i,
                {
                    let piece = strip(parts[i].as_slice(), CharClass::Space, true, true);
                    let t = parse_term_chars(piece.as_slice());
                    proof {
                        assert(pieces(args@, ',')[i as int] == parts@[i as int]@);
                        assert(parse_term_spec(trim(piece@)) == parse_term_spec(piece@)) by {
                            lemma_trim_idempotent(parts@[i as int]@);
                        }
                    }
                    let ghost before = terms_view(terms@);
                    terms.push(t);
                    assert(terms_view(terms@) =~= before.push(t@));
                    assert(terms_view(terms@) =~= pieces(args@, ',').map_values(
                        |a: Seq<char>| parse_term_spec(trim(a)),
                    ).take(i + 1));
                    i = i + 1;
                }
                assert(pieces(args@, ',').map_values(|a: Seq<char>| parse_term_spec(trim(a))).take(
                    i as int,
                ) =~= pieces(args@, ',').map_values(|a: Seq<char>| parse_term_spec(trim(a))));
            } else {
                assert(terms_view(terms@) =~= Seq::<VTerm>::empty());
            }
            Atom { predicate: string_from_chars(pred.as_slice()), terms, negated }
        },
        None => {
            let pred = strip(input, CharClass::Is('.'), false, true);
            let terms: Vec<Term> = Vec::new();
            assert(terms_view(terms@) =~= Seq::<VTerm>::empty());
            Atom { predicate: string_from_chars(pred.as_slice()), terms, negated }
        },
    }
}

/// Parse an atom; every text is some atom.
pub fn parse_atom(input: &str, negated: bool) -> (r: Result<Atom, crate::error::RUNEError>)
    ensures
        r matches Ok(a) && a@ == parse_atom_spec(input@, negated),
{
    let c = chars_of(input);
    Ok(parse_atom_chars(c.as_slice(), negated))
}


/// The state of the top-level comma split after a prefix of the text.
pub struct SplitState {
    /// The parts finished so far
    pub done: Seq<Seq<char>>,
    /// The part being read
    pub cur: Seq<char>,
    /// The parenthesis depth
    pub depth: int,
}

/// One character of the top-level comma split.
pub open spec fn split_step(st: SplitState, c: char) -> SplitState {
    if c == '(' {
        SplitState { cur: st.cur.push(c), depth: st.depth + 1, ..st }
    } else if c == ')' {
        SplitState { cur: st.cur.push(c), depth: st.depth - 1, ..st }
    } else if c == ',' && st.depth == 0 {
        SplitState { done: st.done.push(st.cur), cur: Seq::empty(), depth: st.depth }
    } else {
        SplitState { cur: st.cur.push(c), ..st }
    }
}

/// The state of the top-level comma split after the whole text.
pub open spec fn split_state(s: Seq<char>) -> SplitState
    decreases s.len(),
{
    if s.len() == 0 {
        SplitState { done: Seq::empty(), cur: Seq::empty(), depth: 0 }
    } else {
        split_step(split_state(s.drop_last()), s.last())
    }
}

/// The parts of a text between the commas outside all parentheses; a final
/// empty part is left out.
pub open spec fn split_top(s: Seq<char>) -> Seq<Seq<char>> {
    let st = split_state(s);
    if st.cur.len() > 0 {
        st.done.push(st.cur)
    } else {
        st.done
    }
}

/// The parts of a text between the commas outside all parentheses.
pub fn split_preserving_parens_chars(input: &[char]) -> (r: Vec<Vec<char>>)
    ensures
        models(r@) == split_top(input@),
{
    let mut done: Vec<Vec<char>> = Vec::new();
    let mut cur: Vec<char> = Vec::new();
    let mut opens: usize = 0;
    let mut closes: usize = 0;
    let mut i: usize = 0;
    assert(input@.take(0) =~= Seq::<char>::empty());
    assert(models(done@) =~= Seq::<Seq<char>>::empty());
    while i < input.len()
        invariant
            i <= input@.len(),
            opens + closes <= i,
            split_state(input@.take(i as int)) == (SplitState {
                done: models(done@),
                cur: cur@,
                depth: opens - closes,
            }),
        decreases input.len() - i,
    {
        let c = input[i];
        let ghost st = split_state(input@.take(i as int));
        assert(input@.take(i + 1).drop_last() =~= input@.take(i as int));
        if c == '(' {
            cur.push(c);
            opens = opens + 1;
        } else if c == ')' {
            cur.push(c);
            closes = closes + 1;
        } else if c == ',' && opens == closes {
            let ghost before = models(done@);
            done.push(cur);
            cur = Vec::new();
            assert(models(done@) =~= before.push(st.cur));
        } else {
            cur.push(c);
        }
        i = i + 1;
    }
    assert(input@.take(i as int) =~= input@);
    if cur.len() > 0 {
        let ghost before = models(done@);
        done.push(cur);
        assert(models(done@) =~= before.push(split_state(input@).cur));
    }
    done
}

/// The parts of a text between the commas outside all parentheses.
pub fn split_preserving_parens(input: &str) -> (r: Vec<String>)
    ensures
        models(r@) == split_top(input@),
{
    let c = chars_of(input);
    let parts = split_preserving_parens_chars(c.as_slice());
    let mut out: Vec<String> = Vec::new();
    let mut i: usize = 0;
    while i < parts.len()
        invariant
            i <= parts@.len(),
            models(out@) == models(parts@).take(i as int),
        decreases parts.len() - i,
    {
        let ghost before = models(out@);
        let s = string_from_chars(parts[i].as_slice());
        out.push(s);
        assert(models(out@) =~= before.push(parts@[i as int]@));
        assert(models(out@) =~= models(parts@).take(i + 1));
        i = i + 1;
    }
    assert(models(parts@).take(i as int) =~= models(parts@));
    out
}

/// The first position where `a` is directly followed by `b`.
pub open spec fn find_pair(s: Seq<char>, a: char, b: char) -> Option<int>
    decreases s.len(),
{
    if s.len() < 2 {
        None
    } else if s[0] == a && s[1] == b {
        Some(0)
    } else {
        match find_pair(s.drop_first(), a, b) {
            Some(i) => Some(i + 1),
            None => None,
        }
    }
}

/// The first position where `a` is directly followed by `b`.
fn find_pair_exec(s: &[char], a: char, b: char) -> (r: Option<usize>)
    ensures
        match r {
            Some(i) => find_pair(s@, a, b) == Some(i as int) && i + 2 <= s@.len(),
            None => find_pair(s@, a, b) is None,
        },
{
    let mut i: usize = 0;
    assert(s@.skip(0) =~= s@);
    while i < s.len() && s.len() - i >= 2
        invariant
            i <= s@.len(),
            find_pair(s@, a, b) == match find_pair(s@.skip(i as int), a, b) {
                Some(k) => Some(k + i),
                None => None,
            },
        decreases s.len() - i,
    {
        assert(s@.skip(i as int)[0] == s@[i as int]);
        assert(s@.skip(i as int)[1] == s@[i + 1]);
        if s[i] == a && s[i + 1] == b {
            return Some(i);
        }
        assert(s@.skip(i as int).drop_first() =~= s@.skip(i + 1));
        i = i + 1;
    }
    None
}

/// A body atom: a part less its white space, negated where it starts with `not `.
pub open spec fn body_atom_spec(part: Seq<char>) -> VAtom {
    let s = trim(part);
    let neg = is_prefix("not "@, s);
    let a = if neg {
        s.skip("not "@.len() as int)
    } else {
        s
    };
    parse_atom_spec(trim(a), neg)
}

/// The rule a complete rule text stands for: head and body around the first
/// `:-`, else a fact.
pub open spec fn rule_spec(rs: Seq<char>) -> VRule {
    match find_pair(rs, ':', '-') {
        Some(k) => VRule {
            head: parse_atom_spec(trim(rs.take(k)), false),
            body: split_top(drop_trailing(trim(rs.skip(k + 2)), CharClass::Is('.'))).map_values(
                |p: Seq<char>| body_atom_spec(p),
            ),
            stratum: 0,
        },
        None => VRule {
            head: parse_atom_spec(drop_trailing(rs, CharClass::Is('.')), false),
            body: Seq::empty(),
            stratum: 0,
        },
    }
}

/// The state of rule parsing: the rules so far and the text of an unfinished rule.
pub struct RulesState {
    /// Rules read so far
    pub rules: Seq<VRule>,
    /// Text of the rule being read
    pub cur: Seq<char>,
}

/// One line of rule parsing: blank lines and comments are skipped; a rule
/// ends at a line that ends with a period.
pub open spec fn rules_step(st: RulesState, line: Seq<char>) -> RulesState {
    let t = trim(line);
    if t.len() == 0 || t[0] == '#' {
        st
    } else {
        let cur = if st.cur.len() > 0 {
            st.cur.push(' ') + t
        } else {
            t
        };
        let te = drop_trailing(cur, CharClass::Space);
        if te.len() > 0 && te.last() == '.' {
            RulesState { rules: st.rules.push(rule_spec(trim(cur))), cur: Seq::empty() }
        } else {
            RulesState { rules: st.rules, cur }
        }
    }
}

/// The state of rule parsing after some lines.
pub open spec fn rules_after(lines: Seq<Seq<char>>) -> RulesState
    decreases lines.len(),
{
    if lines.len() == 0 {
        RulesState { rules: Seq::empty(), cur: Seq::empty() }
    } else {
        rules_step(rules_after(lines.drop_last()), lines.last())
    }
}

/// The rules of a text; an unfinished last rule is dropped.
pub open spec fn parse_rules_spec(input: Seq<char>) -> Seq<VRule> {
    rules_after(text_lines(input)).rules
}

/// Parse a rule text that is complete.
fn parse_rule_text(rs: &[char]) -> (r: Rule)
    ensures
        r@ == rule_spec(rs@),
{
    match find_pair_exec(rs, ':', '-') {
        Some(k) => {
            let h = copy_range(rs, 0, k);
            let ht = strip(h.as_slice(), CharClass::Space, true, true);
            let head = parse_atom_chars(ht.as_slice(), false);
            let len = rs.len();
            assert(k + 2 <= len);
            let b = copy_range(rs, k + 2, len);
            let bt = strip(b.as_slice(), CharClass::Space, true, true);
            let bd = strip(bt.as_slice(), CharClass::Is('.'), false, true);
            assert(h@ =~= rs@.take(k as int));
            assert(b@ =~= rs@.skip(k + 2));
            let parts = split_preserving_parens_chars(bd.as_slice());
            let not_ = chars_of("not ");
            let mut body: Vec<Atom> = Vec::new();
            let mut i: usize = 0;
            while i < parts.len()
                invariant
                    i <= parts@.len(),
                    not_@ == "not "@,
                    models(parts@) == split_top(bd@),
                    atoms_view(body@) == split_top(bd@).map_values(|p: Seq<char>| body_atom_spec(p)).take(
                        i as int,
                    ),
                decreases parts.len() - i,
            {
                let s = strip(parts[i].as_slice(), CharClass::Space, true, true);
                let neg = starts_with(s.as_slice(), not_.as_slice());
                let a = if neg {
                    copy_range(s.as_slice(), not_.len(), s.len())
                } else {
                    copy_range(s.as_slice(), 0, s.len())
                };
                let at = strip(a.as_slice(), CharClass::Space, true, true);
                let atom = parse_atom_chars(at.as_slice(), neg);
                proof {
                    assert(split_top(bd@)[i as int] == parts@[i as int]@);
                    if neg {
                        assert(a@ =~= s@.skip("not "@.len() as int));
                    } else {
                        assert(a@ =~= s@);
                    }
                }
                let ghost before = atoms_view(body@);
                body.push(atom);
                assert(atoms_view(body@) =~= before.push(atom@));
                assert(atoms_view(body@) =~= split_top(bd@).map_values(|p: Seq<char>| body_atom_spec(p)).take(
                    i + 1,
                ));
                i = i + 1;
            }
            assert(split_top(bd@).map_values(|p: Seq<char>| body_atom_spec(p)).take(i as int)
                =~= split_top(bd@).map_values(|p: Seq<char>| body_atom_spec(p)));
            Rule::new(head, body)
        },
        None => {
            let h = strip(rs, CharClass::Is('.'), false, true);
            let head = parse_atom_chars(h.as_slice(), false);
            Rule::fact(head)
        },
    }
}

/// Parse Datalog rules: one per text ending in a period, over one or more
/// lines; blank lines and `#` comments are skipped. No text is refused.
pub fn parse_rules(input: &str) -> (r: Result<Vec<Rule>, RUNEError>)
    ensures
        r matches Ok(rules) && atoms_rules_view(rules@) == parse_rules_spec(input@),
{
    let lines = lines_of(input);
    let mut rules: Vec<Rule> = Vec::new();
    let mut cur: Vec<char> = Vec::new();
    let mut i: usize = 0;
    assert(models(lines@).take(0) =~= Seq::<Seq<char>>::empty());
    assert(atoms_rules_view(rules@) =~= Seq::<VRule>::empty());
    while i < lines.len()
        invariant
            i <= lines@.len(),
            models(lines@) == text_lines(input@),
            rules_after(models(lines@).take(i as int)) == (RulesState {
                rules: atoms_rules_view(rules@),
                cur: cur@,
            }),
        decreases lines.len() - i,
    {
        let ghost st = rules_after(models(lines@).take(i as int));
        assert(models(lines@).take(i + 1).drop_last() =~= models(lines@).take(i as int));
        assert(models(lines@).take(i + 1).last() == lines@[i as int]@);
        let t = strip(lines[i].as_slice(), CharClass::Space, true, true);
        if t.len() == 0 || t[0] == '#' {
        } else {
            if cur.len() > 0 {
                cur.push(' ');
            }
            let mut k: usize = 0;
            let ghost base = cur@;
            while k < t.len()
                invariant
                    k <= t@.len(),
                    cur@ == base + t@.take(k as int),
                decreases t.len() - k,
            {
                cur.push(t[k]);
                k = k + 1;
                assert(cur@ =~= base + t@.take(k as int));
            }
            assert(t@.take(k as int) =~= t@);
            assert(cur@ =~= if st.cur.len() > 0 {
                st.cur.push(' ') + t@
            } else {
                t@
            });
            let te = strip(cur.as_slice(), CharClass::Space, false, true);
            if te.len() > 0 && te[te.len() - 1] == '.' {
                let rs = strip(cur.as_slice(), CharClass::Space, true, true);
                let rule = parse_rule_text(rs.as_slice());
                let ghost before = atoms_rules_view(rules@);
                rules.push(rule);
                assert(atoms_rules_view(rules@) =~= before.push(rule@));
                cur = Vec::new();
            }
        }
        i = i + 1;
    }
    assert(models(lines@).take(i as int) =~= models(lines@));
    Ok(rules)
}

/// The models of a list of rules.
pub open spec fn atoms_rules_view(s: Seq<Rule>) -> Seq<VRule> {
    s.map_values(|r: Rule| r@)
}


/// A Cedar policy in a RUNE file.
#[derive(Debug, Clone)]
pub struct Policy {
    /// Policy ID
    pub id: String,
    /// Policy content
    pub content: String,
}

/// The state of policy splitting: finished policies (id, text) and the one being read.
pub struct PolicyState {
    /// Policies finished so far
    pub done: Seq<(Seq<char>, Seq<char>)>,
    /// The policy being read
    pub cur: Option<(Seq<char>, Seq<char>)>,
}

/// One line of policy splitting: a line starting with `permit` or `forbid`
/// starts a new policy, numbered from zero; other lines join the current one.
pub open spec fn policy_step(st: PolicyState, line: Seq<char>) -> PolicyState {
    if is_prefix("permit"@, line) || is_prefix("forbid"@, line) {
        let done = match st.cur {
            Some(p) => st.done.push(p),
            None => st.done,
        };
        PolicyState { done, cur: Some(("policy_"@ + decimal(done.len()), line + "\n"@)) }
    } else {
        match st.cur {
            Some((id, c)) => PolicyState { done: st.done, cur: Some((id, c + line + "\n"@)) },
            None => st,
        }
    }
}

/// The state of policy splitting after some lines.
pub open spec fn policies_after(lines: Seq<Seq<char>>) -> PolicyState
    decreases lines.len(),
{
    if lines.len() == 0 {
        PolicyState { done: Seq::empty(), cur: None }
    } else {
        policy_step(policies_after(lines.drop_last()), lines.last())
    }
}

/// The policies of a text.
pub open spec fn parse_policies_spec(input: Seq<char>) -> Seq<(Seq<char>, Seq<char>)> {
    let st = policies_after(text_lines(input));
    match st.cur {
        Some(p) => st.done.push(p),
        None => st.done,
    }
}

/// The models of a list of policies.
pub open spec fn policies_view(s: Seq<Policy>) -> Seq<(Seq<char>, Seq<char>)> {
    s.map_values(|p: Policy| (p.id@, p.content@))
}

/// Split the text of the policies section into policies; no text is refused.
pub fn parse_policies(input: &str) -> (r: Result<Vec<Policy>, RUNEError>)
    ensures
        r matches Ok(ps) && policies_view(ps@) == parse_policies_spec(input@),
{
    let lines = lines_of(input);
    let permit = chars_of("permit");
    let forbid = chars_of("forbid");
    let mut done: Vec<Policy> = Vec::new();
    let mut cur: Option<Policy> = None;
    let mut i: usize = 0;
    assert(models(lines@).take(0) =~= Seq::<Seq<char>>::empty());
    assert(policies_view(done@) =~= Seq::<(Seq<char>, Seq<char>)>::empty());
    while i < lines.len()
        invariant
            i <= lines@.len(),
            permit@ == "permit"@,
            forbid@ == "forbid"@,
            models(lines@) == text_lines(input@),
            policies_after(models(lines@).take(i as int)) == (PolicyState {
                done: policies_view(done@),
                cur: match cur {
                    Some(p) => Some((p.id@, p.content@)),
                    None => None,
                },
            }),
        decreases lines.len() - i,
    {
        assert(models(lines@).take(i + 1).drop_last() =~= models(lines@).take(i as int));
        assert(models(lines@).take(i + 1).last() == lines@[i as int]@);
        let line = &lines[i];
        let text = string_from_chars(line.as_slice());
        if starts_with(line.as_slice(), permit.as_slice()) || starts_with(
            line.as_slice(),
            forbid.as_slice(),
        ) {
            match cur {
                Some(p) => {
                    let ghost before = policies_view(done@);
                    done.push(p);
                    assert(policies_view(done@) =~= before.push((p.id@, p.content@)));
                },
                None => {},
            }
            let mut id = owned("policy_");
            let n = u64_to_string(done.len() as u64);
            id.append(n.as_str());
            let mut content = text;
            content.append("\n");
            cur = Some(Policy { id, content });
        } else {
            match cur {
                Some(p) => {
                    let mut content = p.content;
                    content.append(text.as_str());
                    content.append("\n");
                    cur = Some(Policy { id: p.id, content });
                },
                None => {},
            }
        }
        i = i + 1;
    }
    assert(models(lines@).take(i as int) =~= models(lines@));
    match cur {
        Some(p) => {
            let ghost before = policies_view(done@);
            done.push(p);
            assert(policies_view(done@) =~= before.push((p.id@, p.content@)));
        },
        None => {},
    }
    Ok(done)
}

/// The sections of a RUNE file, each as text.
#[derive(Debug)]
pub struct Sections {
    /// The declared version
    pub version: Option<String>,
    /// The data section
    pub data: Option<String>,
    /// The rules section
    pub rules: Option<String>,
    /// The policies section
    pub policies: Option<String>,
}

/// Model of the sections.
pub struct VSections {
    /// The declared version
    pub version: Option<Seq<char>>,
    /// The data section
    pub data: Option<Seq<char>>,
    /// The rules section
    pub rules: Option<Seq<char>>,
    /// The policies section
    pub policies: Option<Seq<char>>,
}

/// The model of an optional string.
pub open spec fn opt_text(s: Option<String>) -> Option<Seq<char>> {
    match s {
        Some(x) => Some(x@),
        None => None,
    }
}

impl View for Sections {
    type V = VSections;

    open spec fn view(&self) -> VSections {
        VSections {
            version: opt_text(self.version),
            data: opt_text(self.data),
            rules: opt_text(self.rules),
            policies: opt_text(self.policies),
        }
    }
}

/// Storing the text of a section: nothing for an empty text or an unknown
/// section name, else the text replaces that section's.
pub open spec fn save_spec(secs: VSections, name: Option<Seq<char>>, content: Seq<char>) -> VSections {
    if content.len() == 0 {
        secs
    } else if name == Some("data"@) {
        VSections { data: Some(content), ..secs }
    } else if name == Some("rules"@) {
        VSections { rules: Some(content), ..secs }
    } else if name == Some("policies"@) {
        VSections { policies: Some(content), ..secs }
    } else {
        secs
    }
}

/// Store the text of a section.
pub fn save_section(sections: &mut Sections, section_name: Option<&str>, content: &str)
    ensures
        final(sections)@ == save_spec(
            old(sections)@,
            match section_name {
                Some(n) => Some(n@),
                None => None,
            },
            content@,
        ),
{
    if content.unicode_len() == 0 {
        return;
    }
    match section_name {
        Some(name) => {
            if str_eq(name, "data") {
                sections.data = Some(owned(content));
            } else if str_eq(name, "rules") {
                sections.rules = Some(owned(content));
            } else if str_eq(name, "policies") {
                sections.policies = Some(owned(content));
            }
        },
        None => {},
    }
}

/// The state of section splitting: the sections so far, the current section
/// and its text.
pub struct SectionState {
    /// Sections so far
    pub secs: VSections,
    /// Name of the current section
    pub current: Option<Seq<char>>,
    /// Text of the current section
    pub content: Seq<char>,
}

/// One line of section splitting: a `version` line stores the current
/// section and takes the version between the first and second `=` (trimmed,
/// quotes dropped); a section header stores the current section and opens
/// the named one; other lines join the current section.
pub open spec fn section_step(st: SectionState, line: Seq<char>) -> SectionState {
    let saved = save_spec(st.secs, st.current, st.content);
    if is_prefix("version"@, line) {
        let ps = pieces(line, '=');
        let version = if ps.len() >= 2 {
            Some(strip_spec(trim(ps[1]), CharClass::Is('"'), true, true))
        } else {
            saved.version
        };
        SectionState { secs: VSections { version, ..saved }, current: None, content: Seq::empty() }
    } else if is_prefix("[data]"@, line) {
        SectionState { secs: saved, current: Some("data"@), content: Seq::empty() }
    } else if is_prefix("[rules]"@, line) {
        SectionState { secs: saved, current: Some("rules"@), content: Seq::empty() }
    } else if is_prefix("[policies]"@, line) {
        SectionState { secs: saved, current: Some("policies"@), content: Seq::empty() }
    } else if st.current is Some {
        SectionState { content: st.content + line + "\n"@, ..st }
    } else {
        st
    }
}

/// The state of section splitting after some lines.
pub open spec fn sections_after(lines: Seq<Seq<char>>) -> SectionState
    decreases lines.len(),
{
    if lines.len() == 0 {
        SectionState {
            secs: VSections { version: None, data: None, rules: None, policies: None },
            current: None,
            content: Seq::empty(),
        }
    } else {
        section_step(sections_after(lines.drop_last()), lines.last())
    }
}

/// The sections of a RUNE file.
pub open spec fn sections_spec(input: Seq<char>) -> VSections {
    let st = sections_after(text_lines(input));
    save_spec(st.secs, st.current, st.content)
}

/// The model of an optional static name.
pub open spec fn opt_name(s: Option<&str>) -> Option<Seq<char>> {
    match s {
        Some(x) => Some(x@),
        None => None,
    }
}

/// Split a RUNE file into its sections; no text is refused.
pub fn split_sections(input: &str) -> (r: Result<Sections, RUNEError>)
    ensures
        r matches Ok(s) && s@ == sections_spec(input@),
{
    let lines = lines_of(input);
    let version_kw = chars_of("version");
    let data_kw = chars_of("[data]");
    let rules_kw = chars_of("[rules]");
    let policies_kw = chars_of("[policies]");
    let mut sections = Sections { version: None, data: None, rules: None, policies: None };
    let mut current: Option<&str> = None;
    let mut content = String::new();
    let mut i: usize = 0;
    assert(models(lines@).take(0) =~= Seq::<Seq<char>>::empty());
    while i < lines.len()
        invariant
            i <= lines@.len(),
            version_kw@ == "version"@,
            data_kw@ == "[data]"@,
            rules_kw@ == "[rules]"@,
            policies_kw@ == "[policies]"@,
            models(lines@) == text_lines(input@),
            sections_after(models(lines@).take(i as int)) == (SectionState {
                secs: sections@,
                current: opt_name(current),
                content: content@,
            }),
        decreases lines.len() - i,
    {
        assert(models(lines@).take(i + 1).drop_last() =~= models(lines@).take(i as int));
        assert(models(lines@).take(i + 1).last() == lines@[i as int]@);
        let line = &lines[i];
        if starts_with(line.as_slice(), version_kw.as_slice()) {
            save_section(&mut sections, current, content.as_str());
            content = String::new();
            let ps = split_chars(line.as_slice(), '=');
            if ps.len() >= 2 {
                let t = strip(ps[1].as_slice(), CharClass::Space, true, true);
                let v = strip(t.as_slice(), CharClass::Is('"'), true, true);
                assert(pieces(line@, '=')[1] == ps@[1]@);
                sections.version = Some(string_from_chars(v.as_slice()));
            }
            current = None;
        } else if starts_with(line.as_slice(), data_kw.as_slice()) {
            save_section(&mut sections, current, content.as_str());
            content = String::new();
            current = Some("data");
        } else if starts_with(line.as_slice(), rules_kw.as_slice()) {
            save_section(&mut sections, current, content.as_str());
            content = String::new();
            current = Some("rules");
        } else if starts_with(line.as_slice(), policies_kw.as_slice()) {
            save_section(&mut sections, current, content.as_str());
            content = String::new();
            current = Some("policies");
        } else if current.is_some() {
            let text = string_from_chars(line.as_slice());
            content.append(text.as_str());
            content.append("\n");
        }
        i = i + 1;
    }
    assert(models(lines@).take(i as int) =~= models(lines@));
    save_section(&mut sections, current, content.as_str());
    Ok(sections)
}

/// Parsed RUNE configuration.
#[derive(Debug)]
pub struct RUNEConfig {
    /// Version string
    pub version: String,
    /// Data section (TOML)
    pub data: toml::Value,
    /// Datalog rules
    pub rules: Vec<Rule>,
    /// Cedar policies
    pub policies: Vec<Policy>,
}

/// The configuration of a file from its sections and the outcome of parsing
/// its data section: the missing version is reported first, then a data
/// section that is not TOML; rules and policies are never refused.
pub fn assemble_config(sections: Sections, data: Result<toml::Value, String>) -> (r: Result<
    RUNEConfig,
    RUNEError,
>)
    ensures
        sections@.version is None ==> (r matches Err(RUNEError::ParseError(m)) && m@
            == "Missing version declaration"@),
        sections@.version is Some ==> match data {
            Err(msg) => r matches Err(RUNEError::ParseError(m)) && m@
                == "Failed to parse data section: "@ + msg@,
            Ok(v) => r matches Ok(cfg) && Some(cfg.version@) == sections@.version && cfg.data == v
                && atoms_rules_view(cfg.rules@) == match sections@.rules {
                Some(t) => parse_rules_spec(t),
                None => Seq::empty(),
            } && policies_view(cfg.policies@) == match sections@.policies {
                Some(t) => parse_policies_spec(t),
                None => Seq::empty(),
            },
        },
{
    let Sections { version, data: _, rules, policies } = sections;
    let version = match version {
        Some(v) => v,
        None => return Err(RUNEError::ParseError(owned("Missing version declaration"))),
    };
    let data = match data {
        Ok(v) => v,
        Err(msg) => {
            let mut m = owned("Failed to parse data section: ");
            m.append(msg.as_str());
            return Err(RUNEError::ParseError(m));
        },
    };
    let rules = match rules {
        Some(t) => match parse_rules(t.as_str()) {
            Ok(r) => r,
            Err(e) => return Err(e),
        },
        None => {
            let v: Vec<Rule> = Vec::new();
            assert(atoms_rules_view(v@) =~= Seq::<VRule>::empty());
            v
        },
    };
    let policies = match policies {
        Some(t) => match parse_policies(t.as_str()) {
            Ok(p) => p,
            Err(e) => return Err(e),
        },
        None => {
            let v: Vec<Policy> = Vec::new();
            assert(policies_view(v@) =~= Seq::<(Seq<char>, Seq<char>)>::empty());
            v
        },
    };
    Ok(RUNEConfig { version, data, rules, policies })
}

/// Parse a RUNE configuration file: its version, its data section as TOML
/// (an empty table where there is none), its rules and its policies.
pub fn parse_rune_file(input: &str) -> (r: Result<RUNEConfig, RUNEError>)
    ensures
        sections_spec(input@).version is None ==> (r matches Err(RUNEError::ParseError(m)) && m@
            == "Missing version declaration"@),
        sections_spec(input@).version is Some ==> match sections_spec(input@).data {
            Some(d) => match toml_parse_error(d) {
                Some(msg) => r matches Err(RUNEError::ParseError(m)) && m@
                    == "Failed to parse data section: "@ + msg,
                None => r is Ok,
            },
            None => r is Ok,
        },
        r matches Ok(cfg) ==> Some(cfg.version@) == sections_spec(input@).version
            && atoms_rules_view(cfg.rules@) == match sections_spec(input@).rules {
            Some(t) => parse_rules_spec(t),
            None => Seq::empty(),
        } && policies_view(cfg.policies@) == match sections_spec(input@).policies {
            Some(t) => parse_policies_spec(t),
            None => Seq::empty(),
        },
        r matches Ok(cfg) ==> (sections_spec(input@).data matches Some(d) ==> cfg.data == toml_document(d)),
{
    let sections = match split_sections(input) {
        Ok(s) => s,
        Err(e) => return Err(e),
    };
    let data = match &sections.data {
        Some(d) => toml_from_str(d.as_str()),
        None => Ok(empty_toml_table()),
    };
    assemble_config(sections, data)
}

/// Trimming twice is trimming once.
pub proof fn lemma_trim_idempotent(s: Seq<char>)
    ensures
        trim(trim(s)) == trim(s),
{
    let a = crate::text::drop_leading(s, CharClass::Space);
    lemma_drop_leading_stops(s, CharClass::Space);
    lemma_drop_trailing_stops(a, CharClass::Space);
    let t = drop_trailing(a, CharClass::Space);
    lemma_drop_trailing_prefix(a, CharClass::Space);
    if t.len() > 0 {
        assert(t[0] == a[0]);
    }
    lemma_drop_leading_noop(t, CharClass::Space);
    lemma_drop_trailing_noop(t, CharClass::Space);
}

proof fn lemma_drop_leading_stops(s: Seq<char>, cls: CharClass)
    ensures
        crate::text::drop_leading(s, cls).len() == 0 || !crate::text::in_class(
            cls,
            crate::text::drop_leading(s, cls)[0],
        ),
    decreases s.len(),
{
    if s.len() > 0 && crate::text::in_class(cls, s[0]) {
        lemma_drop_leading_stops(s.drop_first(), cls);
    }
}

proof fn lemma_drop_trailing_stops(s: Seq<char>, cls: CharClass)
    ensures
        drop_trailing(s, cls).len() == 0 || !crate::text::in_class(cls, drop_trailing(s, cls).last()),
    decreases s.len(),
{
    if s.len() > 0 && crate::text::in_class(cls, s.last()) {
        lemma_drop_trailing_stops(s.drop_last(), cls);
    }
}

proof fn lemma_drop_trailing_prefix(s: Seq<char>, cls: CharClass)
    ensures
        drop_trailing(s, cls).len() <= s.len(),
        drop_trailing(s, cls) == s.take(drop_trailing(s, cls).len() as int),
    decreases s.len(),
{
    if s.len() > 0 && crate::text::in_class(cls, s.last()) {
        lemma_drop_trailing_prefix(s.drop_last(), cls);
        assert(s.drop_last().take(drop_trailing(s, cls).len() as int) =~= s.take(
            drop_trailing(s, cls).len() as int,
        ));
    } else {
        assert(s.take(s.len() as int) =~= s);
    }
}

proof fn lemma_drop_leading_noop(s: Seq<char>, cls: CharClass)
    requires
        s.len() == 0 || !crate::text::in_class(cls, s[0]),
    ensures
        crate::text::drop_leading(s, cls) == s,
{
}

proof fn lemma_drop_trailing_noop(s: Seq<char>, cls: CharClass)
    requires
        s.len() == 0 || !crate::text::in_class(cls, s.last()),
    ensures
        drop_trailing(s, cls) == s,
{
}


/// A boolean literal, padded with white space or not, parses to that
/// boolean: `true` to true and `false` to false (so the two never parse to
/// the same term).
pub proof fn law_bool_literal(s: Seq<char>, b: bool)
    requires
        trim(s) == (if b { "true"@ } else { "false"@ }),
    ensures
        parse_term_spec(s) == VTerm::Const(VValue::Bool(b)),
{
    reveal_strlit("true");
    reveal_strlit("false");
    let t = trim(s);
    if b {
        assert(t =~= literal_true());
    } else {
        assert(t =~= literal_false());
    }
    assert(!is_upper(t[0]) && t[0] != '_');
    assert(!all_digits(t)) by {
        assert(!('0' <= t[0] && t[0] <= '9'));
    }
    assert(!all_digits(t.drop_first())) by {
        assert(t.drop_first()[0] == t[1]);
        assert(!('0' <= t[1] && t[1] <= '9'));
    }
    assert(parse_i64_spec(t) is None);
}


/// A decimal digit's character stands the digit's distance after `0`.
proof fn lemma_digit_char(d: nat)
    requires
        d < 10,
    ensures
        crate::text::digit_char(d) as int - '0' as int == d,
        '0' <= crate::text::digit_char(d) <= '9',
{
    assert('0' as int == 48);
    assert('1' as int == 49);
    assert('2' as int == 50);
    assert('3' as int == 51);
    assert('4' as int == 52);
    assert('5' as int == 53);
    assert('6' as int == 54);
    assert('7' as int == 55);
    assert('8' as int == 56);
    assert('9' as int == 57);
}

/// The decimal text of a number is digits whose value is the number.
proof fn lemma_decimal_digits(n: nat)
    ensures
        crate::text::decimal(n).len() > 0,
        all_digits(crate::text::decimal(n)),
        digits_value(crate::text::decimal(n)) == n,
    decreases n,
{
    let d = crate::text::decimal(n);
    lemma_digit_char(n % 10);
    if n < 10 {
        assert(d == seq![crate::text::digit_char(n)]);
        assert(d.drop_last() =~= Seq::<char>::empty());
        assert(digits_value(d.drop_last()) == 0);
        assert(n % 10 == n);
        assert(d.last() == crate::text::digit_char(n));
        assert(digits_value(d) == digits_value(d.drop_last()) * 10 + (d.last() as int - '0' as int));
    } else {
        lemma_decimal_digits(n / 10);
        let p = crate::text::decimal(n / 10);
        assert(d == p.push(crate::text::digit_char(n % 10)));
        assert(d.drop_last() =~= p);
        assert forall|i: int| 0 <= i < d.len() implies '0' <= #[trigger] d[i] && d[i] <= '9' by {
            if i < p.len() {
                assert(d[i] == p[i]);
            }
        }
        assert(n == (n / 10) * 10 + n % 10);
        assert(d.last() == crate::text::digit_char(n % 10));
        assert(digits_value(d) == digits_value(d.drop_last()) * 10 + (d.last() as int - '0' as int));
    }
}

/// An integer written in decimal (with a minus sign when negative) parses to
/// that integer.
pub proof fn law_int_literal(n: i64)
    ensures
        parse_term_spec(crate::text::signed_decimal(n as int)) == VTerm::Const(VValue::Int(n as int)),
{
    let s = crate::text::signed_decimal(n as int);
    let m: nat = if n < 0 { (-(n as int)) as nat } else { n as nat };
    lemma_decimal_digits(m);
    let d = crate::text::decimal(m);
    if n < 0 {
        assert(s == seq!['-'] + d);
        assert(s.drop_first() =~= d);
    } else {
        assert(s == d);
    }
    assert(s[0] == '-' || ('0' <= s[0] && s[0] <= '9')) by {
        if n >= 0 {
            assert(s[0] == d[0]);
        }
    }
    assert(s.last() == d.last());
    assert('0' <= s.last() && s.last() <= '9');
    assert(crate::text::drop_leading(s, CharClass::Space) == s);
    assert(crate::text::drop_trailing(s, CharClass::Space) == s);
    assert(trim(s) == s);
    assert(!is_upper(s[0]) && s[0] != '_');
    assert(parse_i64_spec(s) == Some(n));
}

} // verus!
