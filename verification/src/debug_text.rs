//! The debug texts of values and facts: how `{:?}` shows them, written out.
use vstd::prelude::*;
use crate::types::{Value, VValue, value_view, values_view, entries_view, lemma_values_view};
use crate::text::{owned, chars_of, push_char, signed_decimal, decimal, i64_to_string, u64_to_string};

verus! {

/// What `char::escape_debug` gives for a character.
pub uninterp spec fn escape_debug_of(c: char) -> Seq<char>;

/// `char::escape_debug`, collected into a string.
#[verifier::external_body]
fn char_escape_debug(c: char) -> (r: String)
    ensures
        r@ == escape_debug_of(c),
{
    c.escape_debug().to_string()
}

/// The characters of a string as its debug text shows them: each as
/// `char::escape_debug` gives it, except the single quote, which stands as
/// itself inside double quotes.
pub open spec fn escaped(s: Seq<char>) -> Seq<char>
    decreases s.len(),
{
    if s.len() == 0 {
        Seq::empty()
    } else {
        escaped(s.drop_last()) + if s.last() == '\'' {
            seq!['\'']
        } else {
            escape_debug_of(s.last())
        }
    }
}

/// A string's debug text: its escaped characters in double quotes.
pub open spec fn quoted(s: Seq<char>) -> Seq<char> {
    seq!['"'] + escaped(s) + seq!['"']
}

/// A value's debug text: its variant, and in brackets what it holds; an
/// object shows its entries as a map, `{"key": value, ...}`.
pub open spec fn value_text(v: VValue) -> Seq<char>
    decreases v, 0nat,
{
    match v {
        VValue::Null => "Null"@,
        VValue::Bool(b) => if b {
            "Bool(true)"@
        } else {
            "Bool(false)"@
        },
        VValue::Int(i) => "Integer("@ + signed_decimal(i) + ")"@,
        VValue::Str(s) => "String("@ + quoted(s) + ")"@,
        VValue::Arr(vs) => "Array(["@ + items_text(vs) + "])"@,
        VValue::Obj(es) => "Object({"@ + entries_text(es) + "})"@,
    }
}

/// The debug texts of values, separated by `, `.
pub open spec fn items_text(vs: Seq<VValue>) -> Seq<char>
    decreases vs, 1nat,
{
    if vs.len() == 0 {
        Seq::empty()
    } else if vs.len() == 1 {
        value_text(vs[0])
    } else {
        items_text(vs.drop_last()) + ", "@ + value_text(vs.last())
    }
}

/// The debug texts of map entries, `"key": value`, separated by `, `.
pub open spec fn entries_text(es: Seq<(Seq<char>, VValue)>) -> Seq<char>
    decreases es, 1nat,
{
    if es.len() == 0 {
        Seq::empty()
    } else if es.len() == 1 {
        quoted(es[0].0) + ": "@ + value_text(es[0].1)
    } else {
        entries_text(es.drop_last()) + ", "@ + quoted(es.last().0) + ": "@ + value_text(es.last().1)
    }
}

/// The debug text of a list of values: `[` their texts `]`.
pub open spec fn list_text(vs: Seq<VValue>) -> Seq<char> {
    "["@ + items_text(vs) + "]"@
}

/// The debug text of a fact: its predicate, its arguments and its timestamp.
pub open spec fn fact_text(pred: Seq<char>, args: Seq<VValue>, timestamp: u64) -> Seq<char> {
    "Fact { predicate: "@ + quoted(pred) + ", args: "@ + list_text(args) + ", timestamp: "@ + decimal(timestamp as nat)
        + " }"@
}

/// Appends a string's escaped characters.
fn push_escaped(out: &mut String, s: &str)
    ensures
        final(out)@ == old(out)@ + escaped(s@),
{
    let cs = chars_of(s);
    let ghost o = out@;
    let mut i: usize = 0;
    assert(cs@.take(0) =~= Seq::<char>::empty());
    assert(o + escaped(cs@.take(0)) =~= o);
    while i < cs.len()
        invariant
            i <= cs@.len(),
            cs@ == s@,
            out@ == o + escaped(cs@.take(i as int)),
        decreases cs.len() - i,
    {
        let c = cs[i];
        assert(cs@.take(i + 1).drop_last() =~= cs@.take(i as int));
        assert(cs@.take(i + 1).last() == c);
        if c == '\'' {
            push_char(out, '\'');
        } else {
            let e = char_escape_debug(c);
            out.append(e.as_str());
        }
        assert(out@ =~= o + escaped(cs@.take(i + 1)));
        i = i + 1;
    }
    assert(cs@.take(i as int) =~= s@);
}

/// Appends a string's debug text.
fn push_quoted(out: &mut String, s: &str)
    ensures
        final(out)@ == old(out)@ + quoted(s@),
{
    let ghost o = out@;
    push_char(out, '"');
    push_escaped(out, s);
    push_char(out, '"');
    assert(out@ =~= o + quoted(s@));
}

/// Appends a value's debug text.
fn push_value(out: &mut String, v: &Value)
    ensures
        final(out)@ == old(out)@ + value_text(v@),
    decreases v,
{
    let ghost o = out@;
    match v {
        Value::Null => {
            out.append("Null");
        },
        Value::Bool(b) => {
            if *b {
                out.append("Bool(true)");
            } else {
                out.append("Bool(false)");
            }
        },
        Value::Integer(i) => {
            out.append("Integer(");
            let d = i64_to_string(*i);
            out.append(d.as_str());
            out.append(")");
        },
        Value::String(s) => {
            out.append("String(");
            push_quoted(out, s.as_str());
            out.append(")");
        },
        Value::Array(x) => {
            out.append("Array([");
            let ghost start = out@;
            let ghost xs = values_view(x@);
            proof {
                lemma_values_view(x@);
                assert(xs.take(0) =~= Seq::<VValue>::empty());
            }
            let mut i: usize = 0;
            while i < x.len()
                invariant
                    *v == Value::Array(*x),
                    i <= x@.len(),
                    xs == values_view(x@),
                    xs.len() == x@.len(),
                    forall|j: int| 0 <= j < x@.len() ==> #[trigger] xs[j] == x@[j]@,
                    out@ == start + items_text(xs.take(i as int)),
                decreases x.len() - i,
            {
                proof {
                    assert(decreases_to!(*v => (*v)->Array_0));
                    assert(decreases_to!(*x => x[i as int]));
                    assert(decreases_to!(*v => x[i as int]));
                    assert(xs.take(i + 1).drop_last() =~= xs.take(i as int));
                    assert(xs.take(i + 1).last() == x@[i as int]@);
                }
                if i > 0 {
                    out.append(", ");
                }
                push_value(out, &x[i]);
                proof {
                    if i == 0 {
                        assert(xs.take(1)[0] == x@[0]@);
                    }
                    assert(out@ =~= start + items_text(xs.take(i + 1)));
                }
                i = i + 1;
            }
            assert(xs.take(i as int) =~= xs);
            out.append("])");
        },
        Value::Object(m) => {
            out.append("Object({");
            let ghost start = out@;
            let ghost es = entries_view(m.entries@);
            proof {
                crate::types::lemma_entries_view(m.entries@);
                assert(es.take(0) =~= Seq::<(Seq<char>, VValue)>::empty());
            }
            let mut i: usize = 0;
            while i < m.entries.len()
                invariant
                    *v == Value::Object(*m),
                    i <= m.entries@.len(),
                    es == entries_view(m.entries@),
                    es.len() == m.entries@.len(),
                    forall|j: int| 0 <= j < m.entries@.len() ==> #[trigger] es[j] == (m.entries@[j].0@, m.entries@[j].1@),
                    out@ == start + entries_text(es.take(i as int)),
                decreases m.entries.len() - i,
            {
                proof {
                    assert(decreases_to!(*v => (*v)->Object_0));
                    assert(decreases_to!(*m => m.entries));
                    assert(decreases_to!(m.entries => m.entries[i as int]));
                    assert(decreases_to!(m.entries[i as int] => m.entries[i as int].1));
                    assert(decreases_to!(*v => m.entries[i as int].1));
                    assert(es.take(i + 1).drop_last() =~= es.take(i as int));
                    assert(es.take(i + 1).last() == es[i as int]);
                }
                if i > 0 {
                    out.append(", ");
                }
                push_quoted(out, m.entries[i].0.as_str());
                out.append(": ");
                push_value(out, &m.entries[i].1);
                proof {
                    if i == 0 {
                        assert(es.take(1)[0] == es[0]);
                    }
                    assert(out@ =~= start + entries_text(es.take(i + 1)));
                }
                i = i + 1;
            }
            assert(es.take(i as int) =~= es);
            out.append("})");
        },
    }
    assert(out@ =~= o + value_text(v@));
}

/// The debug text of a value.
pub fn value_debug(v: &Value) -> (r: String)
    ensures
        r@ == value_text(v@),
{
    let mut out = owned("");
    proof {
        reveal_strlit("");
    }
    push_value(&mut out, v);
    assert(out@ =~= value_text(v@));
    out
}

/// The debug text of a list of values.
pub fn values_debug(vs: &Vec<Value>) -> (r: String)
    ensures
        r@ == list_text(values_view(vs@)),
{
    let mut out = owned("[");
    let ghost xs = values_view(vs@);
    let ghost start = out@;
    proof {
        lemma_values_view(vs@);
        assert(xs.take(0) =~= Seq::<VValue>::empty());
        assert(out@ =~= start + items_text(xs.take(0)));
    }
    let mut i: usize = 0;
    while i < vs.len()
        invariant
            i <= vs@.len(),
            xs == values_view(vs@),
            xs.len() == vs@.len(),
            forall|j: int| 0 <= j < vs@.len() ==> #[trigger] xs[j] == vs@[j]@,
            start == "["@,
            out@ == start + items_text(xs.take(i as int)),
        decreases vs.len() - i,
    {
        proof {
            assert(xs.take(i + 1).drop_last() =~= xs.take(i as int));
            assert(xs.take(i + 1).last() == vs@[i as int]@);
        }
        if i > 0 {
            out.append(", ");
        }
        push_value(&mut out, &vs[i]);
        proof {
            if i == 0 {
                assert(xs.take(1)[0] == vs@[0]@);
            }
            assert(out@ =~= start + items_text(xs.take(i + 1)));
        }
        i = i + 1;
    }
    assert(xs.take(i as int) =~= xs);
    out.append("]");
    assert(out@ =~= list_text(xs));
    out
}

/// The debug text of a fact with a predicate, arguments and a timestamp.
pub fn fact_debug(pred: &str, args: &Vec<Value>, timestamp: u64) -> (r: String)
    ensures
        r@ == fact_text(pred@, values_view(args@), timestamp),
{
    let mut out = owned("Fact { predicate: ");
    push_quoted(&mut out, pred);
    out.append(", args: ");
    let a = values_debug(args);
    out.append(a.as_str());
    out.append(", timestamp: ");
    let t = u64_to_string(timestamp);
    out.append(t.as_str());
    out.append(" }");
    assert(out@ =~= fact_text(pred@, values_view(args@), timestamp));
    out
}

} // verus!
