//! Metric names as Prometheus accepts them.
use vstd::prelude::*;
use crate::text::{chars_of, string_from_chars};

verus! {

broadcast use vstd::std_specs::vec::group_vec_axioms;

/// Whether a character is alphanumeric in Unicode's sense.
pub uninterp spec fn alphanumeric(c: char) -> bool;

/// `char::is_alphanumeric`: the Unicode `Alphabetic` or `Numeric` property;
/// among ASCII characters exactly letters and digits have it.
#[verifier::external_body]
fn char_is_alphanumeric(c: char) -> (r: bool)
    ensures
        r == is_alnum(c),
        (c as u32) >= 128 ==> r == alphanumeric(c),
{
    c.is_alphanumeric()
}

/// Whether a character is alphanumeric: among ASCII characters exactly the
/// letters and digits; beyond ASCII, by the Unicode properties.
pub open spec fn is_alnum(c: char) -> bool {
    if (c as u32) < 128 {
        ('a' <= c && c <= 'z') || ('A' <= c && c <= 'Z') || ('0' <= c && c <= '9')
    } else {
        alphanumeric(c)
    }
}

/// A metric name with every character that is neither alphanumeric nor `_`
/// replaced by `_`.
pub open spec fn sanitized(name: Seq<char>) -> Seq<char> {
    Seq::new(name.len(), |i: int| if is_alnum(name[i]) || name[i] == '_' { name[i] } else { '_' })
}

/// Sanitize a metric name for Prometheus.
pub fn sanitize_metric_name(name: &str) -> (r: String)
    ensures
        r@ == sanitized(name@),
{
    let cs = chars_of(name);
    let mut out: Vec<char> = Vec::new();
    let mut i: usize = 0;
    while i < cs.len()
        invariant
            i <= cs@.len(),
            cs@ == name@,
            out@ == sanitized(name@).take(i as int),
        decreases cs.len() - i,
    {
        let c = cs[i];
        if char_is_alphanumeric(c) || c == '_' {
            out.push(c);
        } else {
            out.push('_');
        }
        assert(sanitized(name@).take(i + 1) =~= sanitized(name@).take(i as int).push(sanitized(name@)[i as int]));
        i = i + 1;
    }
    assert(sanitized(name@).take(i as int) =~= sanitized(name@));
    string_from_chars(out.as_slice())
}

} // verus!
