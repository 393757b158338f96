//! Text helpers: character sequences, lexicographic order, decimal rendering.
use vstd::prelude::*;

verus! {

/// Three-way comparison result.
#[derive(Debug, Clone, Copy, PartialEq, Eq, Structural)]
pub enum Trichotomy {
    /// Strictly smaller.
    Less,
    /// Equal.
    Equal,
    /// Strictly greater.
    Greater,
}

/// Lexicographic comparison of character sequences by code point:
/// -1, 0 or 1.
pub open spec fn chars_order(a: Seq<char>, b: Seq<char>) -> int
    decreases a.len(),
{
    if a.len() == 0 {
        if b.len() == 0 { 0 } else { -1 }
    } else if b.len() == 0 {
        1
    } else if (a[0] as u32) < (b[0] as u32) {
        -1
    } else if (a[0] as u32) > (b[0] as u32) {
        1
    } else {
        chars_order(a.drop_first(), b.drop_first())
    }
}

/// The spec value of a `Trichotomy`.
pub open spec fn order_int(c: Trichotomy) -> int {
    match c {
        Trichotomy::Less => -1,
        Trichotomy::Equal => 0,
        Trichotomy::Greater => 1,
    }
}

/// Comparison is zero exactly on equal sequences.
pub proof fn lemma_chars_order_eq(a: Seq<char>, b: Seq<char>)
    ensures
        (chars_order(a, b) == 0) <==> (a == b),
        -1 <= chars_order(a, b) <= 1,
    decreases a.len(),
{
    if a.len() == 0 && b.len() == 0 {
        assert(a =~= b);
    }
    if a.len() != 0 && b.len() != 0 && (a[0] as u32) == (b[0] as u32) {
        lemma_chars_order_eq(a.drop_first(), b.drop_first());
        lemma_char_inj(a[0], b[0]);
        if a.drop_first() == b.drop_first() {
            assert(a =~= seq![a[0]] + a.drop_first());
            assert(b =~= seq![b[0]] + b.drop_first());
        }
    }
}

/// Characters with the same code point are equal.
pub proof fn lemma_char_inj(x: char, y: char)
    requires
        (x as u32) == (y as u32),
    ensures
        x == y,
{
}

/// Comparison is antisymmetric.
pub proof fn lemma_chars_order_antisym(a: Seq<char>, b: Seq<char>)
    ensures
        chars_order(a, b) == -chars_order(b, a),
    decreases a.len(),
{
    if a.len() != 0 && b.len() != 0 && (a[0] as u32) == (b[0] as u32) {
        lemma_chars_order_antisym(a.drop_first(), b.drop_first());
    }
}

/// Comparison is transitive.
pub proof fn lemma_chars_order_trans(a: Seq<char>, b: Seq<char>, c: Seq<char>)
    requires
        chars_order(a, b) < 0,
        chars_order(b, c) < 0,
    ensures
        chars_order(a, c) < 0,
    decreases a.len(),
{
    if a.len() != 0 && b.len() != 0 && c.len() != 0 && (a[0] as u32) == (b[0] as u32) && (b[0]
        as u32) == (c[0] as u32) {
        lemma_chars_order_trans(a.drop_first(), b.drop_first(), c.drop_first());
    }
}

/// The characters of a string slice.
pub fn chars_of(s: &str) -> (r: Vec<char>)
    ensures
        r@ == s@,
{
    let n = s.unicode_len();
    let mut r: Vec<char> = Vec::new();
    let mut i: usize = 0;
    while i < n
        invariant
            n == s@.len(),
            i <= n,
            r@ == s@.subrange(0, i as int),
        decreases n - i,
    {
        let c = s.get_char(i);
        r.push(c);
        i = i + 1;
        assert(r@ =~= s@.subrange(0, i as int));
    }
    assert(r@ =~= s@);
    r
}

/// Builds a string from its characters (`Iterator::collect` into a `String`).
#[verifier::external_body]
pub fn string_from_chars(v: &[char]) -> (r: String)
    ensures
        r@ == v@,
{
    v.iter().collect()
}

/// Appends a character to a string (`String::push`).
#[verifier::external_body]
pub fn push_char(s: &mut String, c: char)
    ensures
        final(s)@ == old(s)@.push(c),
{
    s.push(c)
}

/// A fresh string with the characters of `s`.
pub fn owned(s: &str) -> (r: String)
    ensures
        r@ == s@,
{
    String::from_str(s)
}

/// Concatenation of a string and a slice.
pub fn concat2(a: &str, b: &str) -> (r: String)
    ensures
        r@ == a@ + b@,
{
    let mut r = String::from_str(a);
    r.append(b);
    r
}

/// Concatenation of three slices.
pub fn concat3(a: &str, b: &str, c: &str) -> (r: String)
    ensures
        r@ == a@ + b@ + c@,
{
    let mut r = String::from_str(a);
    r.append(b);
    r.append(c);
    r
}

/// Equality of two slices by their characters.
pub fn str_eq(a: &str, b: &str) -> (r: bool)
    ensures
        r == (a@ == b@),
{
    let x = String::from_str(a);
    let y = String::from_str(b);
    x == y
}

/// Lexicographic comparison of two slices.
pub fn str_order(a: &str, b: &str) -> (r: Trichotomy)
    ensures
        order_int(r) == chars_order(a@, b@),
{
    let n = a.unicode_len();
    let m = b.unicode_len();
    let mut i: usize = 0;
    assert(a@.skip(0) =~= a@);
    assert(b@.skip(0) =~= b@);
    while i < n && i < m
        invariant
            n == a@.len(),
            m == b@.len(),
            i <= n,
            i <= m,
            chars_order(a@, b@) == chars_order(a@.skip(i as int), b@.skip(i as int)),
        decreases n - i,
    {
        let x = a.get_char(i);
        let y = b.get_char(i);
        assert(a@.skip(i as int)[0] == x);
        assert(b@.skip(i as int)[0] == y);
        if (x as u32) < (y as u32) {
            return Trichotomy::Less;
        }
        if (x as u32) > (y as u32) {
            return Trichotomy::Greater;
        }
        assert(a@.skip(i as int).drop_first() =~= a@.skip(i + 1));
        assert(b@.skip(i as int).drop_first() =~= b@.skip(i + 1));
        i = i + 1;
    }
    if i < n {
        Trichotomy::Greater
    } else if i < m {
        Trichotomy::Less
    } else {
        Trichotomy::Equal
    }
}


/// The models of a sequence of elements.
pub open spec fn models<T: View>(s: Seq<T>) -> Seq<T::V> {
    s.map_values(|t: T| t@)
}

/// Appending an element adds it to the set of a sequence.
pub proof fn lemma_push_to_set<A>(s: Seq<A>, x: A)
    ensures
        s.push(x).to_set() == s.to_set().insert(x),
{
    assert forall|v: A| s.push(x).contains(v) <==> s.to_set().insert(x).contains(v) by {
        if s.push(x).contains(v) {
            let k = choose|k: int| 0 <= k < s.push(x).len() && s.push(x)[k] == v;
            if k < s.len() {
                assert(s[k] == v);
            }
        }
        if s.contains(v) {
            let k = choose|k: int| 0 <= k < s.len() && s[k] == v;
            assert(s.push(x)[k] == v);
        }
        if v == x {
            assert(s.push(x)[s.len() as int] == v);
        }
    }
    assert(s.push(x).to_set() =~= s.to_set().insert(x));
}

/// The pieces of a text between separator characters (one more than there are separators).
pub open spec fn pieces(s: Seq<char>, sep: char) -> Seq<Seq<char>>
    decreases s.len(),
{
    if s.len() == 0 {
        seq![Seq::empty()]
    } else {
        let p = pieces(s.drop_last(), sep);
        if s.last() == sep {
            p.push(Seq::empty())
        } else {
            p.update(p.len() - 1, p.last().push(s.last()))
        }
    }
}

/// There is always at least one piece.
pub proof fn lemma_pieces_len(s: Seq<char>, sep: char)
    ensures
        pieces(s, sep).len() >= 1,
    decreases s.len(),
{
    if s.len() > 0 {
        lemma_pieces_len(s.drop_last(), sep);
    }
}

/// The pieces of `s` between occurrences of `sep`.
pub fn split_chars(s: &[char], sep: char) -> (r: Vec<Vec<char>>)
    ensures
        models(r@) == pieces(s@, sep),
        r@.len() >= 1,
{
    let mut done: Vec<Vec<char>> = Vec::new();
    let mut cur: Vec<char> = Vec::new();
    let mut i: usize = 0;
    assert(s@.take(0) =~= Seq::<char>::empty());
    assert(models(done@).push(cur@) =~= seq![Seq::<char>::empty()]);
    while i < s.len()
        invariant
            i <= s@.len(),
            pieces(s@.take(i as int), sep) == models(done@).push(cur@),
        decreases s.len() - i,
    {
        let c = s[i];
        let ghost old_done = models(done@);
        let ghost old_cur = cur@;
        assert(s@.take(i + 1).drop_last() =~= s@.take(i as int));
        if c == sep {
            done.push(cur);
            cur = Vec::new();
            assert(models(done@).push(cur@) =~= old_done.push(old_cur).push(Seq::empty()));
        } else {
            cur.push(c);
            assert(models(done@).push(cur@) =~= old_done.push(old_cur).update(
                old_done.len() as int,
                old_cur.push(c),
            ));
        }
        i = i + 1;
    }
    assert(s@.take(i as int) =~= s@);
    let ghost before = models(done@);
    done.push(cur);
    assert(models(done@) =~= before.push(cur@));
    done
}

/// A line without the carriage return that ends it, if one does.
pub open spec fn strip_cr(l: Seq<char>) -> Seq<char> {
    if l.len() > 0 && l.last() == '\r' {
        l.drop_last()
    } else {
        l
    }
}

/// The lines of a text: split at each newline, a carriage return before a
/// newline dropped, and no empty last line after a final newline.
pub open spec fn text_lines(s: Seq<char>) -> Seq<Seq<char>> {
    let p = pieces(s, '\n');
    let init = p.drop_last().map_values(|l: Seq<char>| strip_cr(l));
    if p.last().len() == 0 {
        init
    } else {
        init.push(p.last())
    }
}

/// A copy of `s[i..j]`.
pub fn copy_range(s: &[char], i: usize, j: usize) -> (r: Vec<char>)
    requires
        i <= j <= s@.len(),
    ensures
        r@ == s@.subrange(i as int, j as int),
{
    let mut out: Vec<char> = Vec::new();
    let mut k: usize = i;
    while k < j
        invariant
            i <= k <= j,
            j <= s@.len(),
            out@ == s@.subrange(i as int, k as int),
        decreases j - k,
    {
        out.push(s[k]);
        k = k + 1;
        assert(out@ =~= s@.subrange(i as int, k as int));
    }
    out
}

/// The lines of a text, as `str::lines` gives them.
pub fn lines_of(source: &str) -> (r: Vec<Vec<char>>)
    ensures
        models(r@) == text_lines(source@),
{
    let chars = chars_of(source);
    let p = split_chars(chars.as_slice(), '\n');
    let ghost ps = pieces(source@, '\n');
    let last = p.len() - 1;
    let mut lines: Vec<Vec<char>> = Vec::new();
    let mut k: usize = 0;
    while k < last
        invariant
            last == p@.len() - 1,
            k <= last,
            models(p@) == ps,
            models(lines@) == ps.drop_last().map_values(|l: Seq<char>| strip_cr(l)).take(k as int),
        decreases last - k,
    {
        let n = p[k].len();
        let cut: usize = if n > 0 && p[k][n - 1] == '\r' { n - 1 } else { n };
        let l = copy_range(p[k].as_slice(), 0, cut);
        assert(ps[k as int] == p@[k as int]@);
        assert(l@ =~= strip_cr(ps[k as int]));
        let ghost ol = models(lines@);
        lines.push(l);
        assert(models(lines@) =~= ol.push(strip_cr(ps[k as int])));
        assert(models(lines@) =~= ps.drop_last().map_values(|l: Seq<char>| strip_cr(l)).take(k + 1));
        k = k + 1;
    }
    assert(ps.drop_last().map_values(|l: Seq<char>| strip_cr(l)).take(k as int) =~= ps.drop_last().map_values(
        |l: Seq<char>| strip_cr(l),
    ));
    assert(ps.last() == p@[last as int]@);
    if p[last].len() > 0 {
        let l = copy_range(p[last].as_slice(), 0, p[last].len());
        assert(l@ =~= ps.last());
        let ghost ol = models(lines@);
        lines.push(l);
        assert(models(lines@) =~= ol.push(ps.last()));
    }
    lines
}

/// Classes of characters that trimming removes.
#[derive(Debug, Clone, Copy)]
pub enum CharClass {
    /// White space, as `char::is_whitespace` defines it
    Space,
    /// One given character
    Is(char),
}

/// Unicode white space (the `White_Space` property).
pub open spec fn is_ws(c: char) -> bool {
    let u = c as u32;
    (0x9 <= u && u <= 0xd) || u == 0x20 || u == 0x85 || u == 0xa0 || u == 0x1680 || (0x2000 <= u
        && u <= 0x200a) || u == 0x2028 || u == 0x2029 || u == 0x202f || u == 0x205f || u == 0x3000
}

/// Whether a character is in a class.
pub open spec fn in_class(cls: CharClass, c: char) -> bool {
    match cls {
        CharClass::Space => is_ws(c),
        CharClass::Is(x) => c == x,
    }
}

/// Whether a character is in a class.
pub fn class_has(cls: CharClass, c: char) -> (r: bool)
    ensures
        r == in_class(cls, c),
{
    match cls {
        CharClass::Space => {
            let u = c as u32;
            (0x9 <= u && u <= 0xd) || u == 0x20 || u == 0x85 || u == 0xa0 || u == 0x1680 || (0x2000
                <= u && u <= 0x200a) || u == 0x2028 || u == 0x2029 || u == 0x202f || u == 0x205f
                || u == 0x3000
        },
        CharClass::Is(x) => c == x,
    }
}

/// A text without its leading characters of a class.
pub open spec fn drop_leading(s: Seq<char>, cls: CharClass) -> Seq<char>
    decreases s.len(),
{
    if s.len() > 0 && in_class(cls, s[0]) {
        drop_leading(s.drop_first(), cls)
    } else {
        s
    }
}

/// A text without its trailing characters of a class.
pub open spec fn drop_trailing(s: Seq<char>, cls: CharClass) -> Seq<char>
    decreases s.len(),
{
    if s.len() > 0 && in_class(cls, s.last()) {
        drop_trailing(s.drop_last(), cls)
    } else {
        s
    }
}

/// A text without leading and trailing white space (`str::trim`).
pub open spec fn trim(s: Seq<char>) -> Seq<char> {
    drop_trailing(drop_leading(s, CharClass::Space), CharClass::Space)
}

proof fn lemma_drop_leading(s: Seq<char>, cls: CharClass, i: int)
    requires
        0 <= i <= s.len(),
        forall|k: int| 0 <= k < i ==> in_class(cls, #[trigger] s[k]),
        i == s.len() || !in_class(cls, s[i]),
    ensures
        drop_leading(s, cls) == s.skip(i),
    decreases i,
{
    if i > 0 {
        assert forall|k: int| 0 <= k < i - 1 implies in_class(cls, #[trigger] s.drop_first()[k]) by {
            assert(s.drop_first()[k] == s[k + 1]);
        }
        lemma_drop_leading(s.drop_first(), cls, i - 1);
        assert(s.drop_first().skip(i - 1) =~= s.skip(i));
    } else {
        assert(s.skip(0) =~= s);
    }
}

proof fn lemma_drop_trailing(s: Seq<char>, cls: CharClass, j: int)
    requires
        0 <= j <= s.len(),
        forall|k: int| j <= k < s.len() ==> in_class(cls, #[trigger] s[k]),
        j == 0 || !in_class(cls, s[j - 1]),
    ensures
        drop_trailing(s, cls) == s.take(j),
    decreases s.len() - j,
{
    if j < s.len() {
        assert forall|k: int| j <= k < s.drop_last().len() implies in_class(
            cls,
            #[trigger] s.drop_last()[k],
        ) by {
            assert(s.drop_last()[k] == s[k]);
        }
        lemma_drop_trailing(s.drop_last(), cls, j);
        assert(s.drop_last().take(j) =~= s.take(j));
    } else {
        assert(s.take(j) =~= s);
    }
}

/// `s` without leading (if `lead`) and trailing (if `trail`) characters of a class.
pub open spec fn strip_spec(s: Seq<char>, cls: CharClass, lead: bool, trail: bool) -> Seq<char> {
    let a = if lead {
        drop_leading(s, cls)
    } else {
        s
    };
    if trail {
        drop_trailing(a, cls)
    } else {
        a
    }
}

/// `s` without leading (if `lead`) and trailing (if `trail`) characters of a class.
pub fn strip(s: &[char], cls: CharClass, lead: bool, trail: bool) -> (r: Vec<char>)
    ensures
        r@ == strip_spec(s@, cls, lead, trail),
{
    let mut i: usize = 0;
    if lead {
        while i < s.len() && class_has(cls, s[i])
            invariant
                i <= s@.len(),
                forall|k: int| 0 <= k < i ==> in_class(cls, #[trigger] s@[k]),
            decreases s.len() - i,
        {
            i = i + 1;
        }
        proof {
            lemma_drop_leading(s@, cls, i as int);
        }
    } else {
        assert(s@.skip(0) =~= s@);
    }
    let ghost a = s@.skip(i as int);
    let mut j: usize = s.len();
    if trail {
        while j > i && class_has(cls, s[j - 1])
            invariant
                i <= j <= s@.len(),
                forall|k: int| j <= k < s@.len() ==> in_class(cls, #[trigger] s@[k]),
            decreases j - i,
        {
            j = j - 1;
        }
        proof {
            assert forall|k: int| j - i <= k < a.len() implies in_class(cls, #[trigger] a[k]) by {
                assert(a[k] == s@[k + i]);
            }
            if j > i {
                assert(a[j - i - 1] == s@[j - 1]);
            }
            lemma_drop_trailing(a, cls, j - i);
            assert(a.take(j - i) =~= s@.subrange(i as int, j as int));
        }
    } else {
        assert(a =~= s@.subrange(i as int, j as int));
    }
    copy_range(s, i, j)
}

/// The first position of a character, if it occurs.
pub open spec fn first_index(s: Seq<char>, c: char) -> Option<int>
    decreases s.len(),
{
    if s.len() == 0 {
        None
    } else if s[0] == c {
        Some(0)
    } else {
        match first_index(s.drop_first(), c) {
            Some(i) => Some(i + 1),
            None => None,
        }
    }
}

/// The first position of a character, if it occurs.
pub fn find_char(s: &[char], c: char) -> (r: Option<usize>)
    ensures
        match r {
            Some(i) => first_index(s@, c) == Some(i as int) && i < s@.len() && s@[i as int] == c,
            None => first_index(s@, c) is None,
        },
{
    let mut i: usize = 0;
    assert(s@.skip(0) =~= s@);
    while i < s.len()
        invariant
            i <= s@.len(),
            first_index(s@, c) == match first_index(s@.skip(i as int), c) {
                Some(k) => Some(k + i),
                None => None,
            },
        decreases s.len() - i,
    {
        assert(s@.skip(i as int)[0] == s@[i as int]);
        if s[i] == c {
            return Some(i);
        }
        assert(s@.skip(i as int).drop_first() =~= s@.skip(i + 1));
        i = i + 1;
    }
    None
}

/// Whether `p` is a prefix of `s`.
pub open spec fn is_prefix(p: Seq<char>, s: Seq<char>) -> bool {
    p.len() <= s.len() && s.subrange(0, p.len() as int) == p
}

/// Whether `p` occurs somewhere in `s`.
pub open spec fn contains_seq(s: Seq<char>, p: Seq<char>) -> bool {
    exists|i: int| 0 <= i <= s.len() - p.len() && #[trigger] s.subrange(i, i + p.len()) == p
}

/// Whether `p` is a prefix of `s`.
pub fn starts_with(s: &[char], p: &[char]) -> (r: bool)
    ensures
        r == is_prefix(p@, s@),
{
    if p.len() > s.len() {
        return false;
    }
    let mut i: usize = 0;
    while i < p.len()
        invariant
            p@.len() <= s@.len(),
            i <= p@.len(),
            forall|j: int| 0 <= j < i ==> s@[j] == p@[j],
        decreases p.len() - i,
    {
        if s[i] != p[i] {
            assert(s@.subrange(0, p@.len() as int)[i as int] != p@[i as int]);
            return false;
        }
        i = i + 1;
    }
    assert(s@.subrange(0, p@.len() as int) =~= p@);
    true
}

/// Whether `p` occurs in `s` at position `at`.
pub fn matches_at(s: &[char], p: &[char], at: usize) -> (r: bool)
    requires
        at <= s@.len(),
    ensures
        r == (at + p@.len() <= s@.len() && s@.subrange(at as int, at + p@.len()) == p@),
{
    if p.len() > s.len() - at {
        return false;
    }
    let end: usize = at + p.len();
    let mut i: usize = 0;
    while i < p.len()
        invariant
            at <= s@.len(),
            end == at + p@.len(),
            at + p@.len() <= s@.len(),
            i <= p@.len(),
            forall|j: int| 0 <= j < i ==> s@[at + j] == p@[j],
        decreases p.len() - i,
    {
        if s[at + i] != p[i] {
            assert(s@.subrange(at as int, at + p@.len())[i as int] != p@[i as int]);
            return false;
        }
        i = i + 1;
    }
    assert(s@.subrange(at as int, at + p@.len()) =~= p@);
    true
}

/// Whether `p` occurs somewhere in `s`.
pub fn contains_chars(s: &[char], p: &[char]) -> (r: bool)
    ensures
        r == contains_seq(s@, p@),
{
    if p.len() > s.len() {
        return false;
    }
    let last = s.len() - p.len();
    let mut i: usize = 0;
    while i <= last
        invariant
            last == s@.len() - p@.len(),
            i <= last + 1,
            forall|j: int| 0 <= j < i ==> #[trigger] s@.subrange(j, j + p@.len()) != p@,
        decreases last + 1 - i,
    {
        if matches_at(s, p, i) {
            return true;
        }
        if i == last {
            return false;
        }
        i = i + 1;
    }
    false
}

/// Whether the slice `s` contains the slice `p`.
pub fn str_contains(s: &str, p: &str) -> (r: bool)
    ensures
        r == contains_seq(s@, p@),
{
    let a = chars_of(s);
    let b = chars_of(p);
    contains_chars(a.as_slice(), b.as_slice())
}

/// The decimal digit character of `d`.
pub open spec fn digit_char(d: nat) -> char {
    if d == 0 { '0' }
    else if d == 1 { '1' }
    else if d == 2 { '2' }
    else if d == 3 { '3' }
    else if d == 4 { '4' }
    else if d == 5 { '5' }
    else if d == 6 { '6' }
    else if d == 7 { '7' }
    else if d == 8 { '8' }
    else { '9' }
}

/// Decimal rendering of a natural number, without leading zeros.
pub open spec fn decimal(n: nat) -> Seq<char>
    decreases n,
{
    if n < 10 {
        seq![digit_char(n)]
    } else {
        decimal(n / 10).push(digit_char(n % 10))
    }
}

fn digit(d: u64) -> (c: char)
    requires
        d < 10,
    ensures
        c == digit_char(d as nat),
{
    if d == 0 { '0' }
    else if d == 1 { '1' }
    else if d == 2 { '2' }
    else if d == 3 { '3' }
    else if d == 4 { '4' }
    else if d == 5 { '5' }
    else if d == 6 { '6' }
    else if d == 7 { '7' }
    else if d == 8 { '8' }
    else { '9' }
}

/// Decimal rendering of an unsigned integer.
pub fn u64_to_string(n: u64) -> (r: String)
    ensures
        r@ == decimal(n as nat),
    decreases n,
{
    if n < 10 {
        let mut s = String::new();
        push_char(&mut s, digit(n));
        assert(s@ =~= seq![digit_char(n as nat)]);
        s
    } else {
        let mut s = u64_to_string(n / 10);
        push_char(&mut s, digit(n % 10));
        s
    }
}

/// Decimal rendering of a 128-bit unsigned integer.
pub fn u128_to_string(n: u128) -> (r: String)
    ensures
        r@ == decimal(n as nat),
    decreases n,
{
    if n < 10 {
        let mut s = String::new();
        push_char(&mut s, digit(n as u64));
        assert(s@ =~= seq![digit_char(n as nat)]);
        s
    } else {
        let mut s = u128_to_string(n / 10);
        push_char(&mut s, digit((n % 10) as u64));
        s
    }
}

/// Decimal rendering of a signed integer, with a leading '-' when negative.
pub open spec fn signed_decimal(i: int) -> Seq<char> {
    if i < 0 {
        seq!['-'] + decimal((-i) as nat)
    } else {
        decimal(i as nat)
    }
}

/// Decimal rendering of a signed integer.
pub fn i64_to_string(i: i64) -> (r: String)
    ensures
        r@ == signed_decimal(i as int),
{
    if i < 0 {
        let m: u64 = if i == i64::MIN {
            9223372036854775808u64
        } else {
            (-i) as u64
        };
        let mut s = String::new();
        push_char(&mut s, '-');
        let d = u64_to_string(m);
        s.append(d.as_str());
        assert(s@ =~= seq!['-'] + decimal((-i) as nat));
        s
    } else {
        u64_to_string(i as u64)
    }
}

} // verus!
