//! Total orders used by lattices and joins.
use vstd::prelude::*;
use crate::types::{Value, VValue, values_view, entries_view, lemma_values_view, lemma_entries_view};
use crate::text::{Trichotomy, order_int, chars_order, lemma_chars_order_eq, lemma_chars_order_antisym,
    lemma_chars_order_trans, str_order};

verus! {

/// Types with a total order on their models and an executable comparison.
pub trait TotalOrder: View + Sized {
    /// `a` is at most `b`.
    spec fn le(a: Self::V, b: Self::V) -> bool;

    /// Reflexivity.
    proof fn lemma_reflexive(x: Self::V)
        ensures
            Self::le(x, x),
    ;

    /// Transitivity.
    proof fn lemma_transitive(x: Self::V, y: Self::V, z: Self::V)
        requires
            Self::le(x, y),
            Self::le(y, z),
        ensures
            Self::le(x, z),
    ;

    /// Antisymmetry.
    proof fn lemma_antisymmetric(x: Self::V, y: Self::V)
        requires
            Self::le(x, y),
            Self::le(y, x),
        ensures
            x == y,
    ;

    /// Totality.
    proof fn lemma_total(x: Self::V, y: Self::V)
        ensures
            Self::le(x, y) || Self::le(y, x),
    ;

    /// Executable comparison.
    fn le_exec(&self, other: &Self) -> (r: bool)
        ensures
            r == Self::le(self@, other@),
    ;

    /// A copy with the same model.
    fn copy_value(&self) -> (r: Self)
        ensures
            r@ == self@,
    ;
}


/// Rank of a value's kind in the order of values: null, booleans, integers,
/// strings, arrays, objects.
pub open spec fn kind_rank(v: VValue) -> int {
    match v {
        VValue::Null => 0,
        VValue::Bool(_) => 1,
        VValue::Int(_) => 2,
        VValue::Str(_) => 3,
        VValue::Arr(_) => 4,
        VValue::Obj(_) => 5,
    }
}

/// Three-way comparison of values (-1, 0, 1): by kind first; then false
/// before true, integers by size, strings and arrays lexicographically,
/// objects entry by entry, key first, then value.
pub open spec fn value_order(a: VValue, b: VValue) -> int
    decreases a, 0nat,
{
    if kind_rank(a) < kind_rank(b) {
        -1
    } else if kind_rank(a) > kind_rank(b) {
        1
    } else {
        match a {
            VValue::Null => 0,
            VValue::Bool(x) => match b {
                VValue::Bool(y) => if x == y {
                    0
                } else if !x {
                    -1
                } else {
                    1
                },
                _ => 0,
            },
            VValue::Int(x) => match b {
                VValue::Int(y) => if x < y {
                    -1
                } else if x > y {
                    1
                } else {
                    0
                },
                _ => 0,
            },
            VValue::Str(x) => match b {
                VValue::Str(y) => chars_order(x, y),
                _ => 0,
            },
            VValue::Arr(x) => match b {
                VValue::Arr(y) => values_order(x, y),
                _ => 0,
            },
            VValue::Obj(x) => match b {
                VValue::Obj(y) => entries_order(x, y),
                _ => 0,
            },
        }
    }
}

/// Lexicographic comparison of sequences of values.
pub open spec fn values_order(x: Seq<VValue>, y: Seq<VValue>) -> int
    decreases x, 1nat,
{
    if x.len() == 0 {
        if y.len() == 0 {
            0
        } else {
            -1
        }
    } else if y.len() == 0 {
        1
    } else {
        let c = value_order(x[0], y[0]);
        if c != 0 {
            c
        } else {
            values_order(x.drop_first(), y.drop_first())
        }
    }
}

/// Lexicographic comparison of object entries: key, then value.
pub open spec fn entries_order(x: Seq<(Seq<char>, VValue)>, y: Seq<(Seq<char>, VValue)>) -> int
    decreases x, 1nat,
{
    if x.len() == 0 {
        if y.len() == 0 {
            0
        } else {
            -1
        }
    } else if y.len() == 0 {
        1
    } else {
        let k = chars_order(x[0].0, y[0].0);
        if k != 0 {
            k
        } else {
            proof {
                assert(decreases_to!(x => x[0]));
                assert(decreases_to!(x[0] => x[0].1));
            }
            let c = value_order(x[0].1, y[0].1);
            if c != 0 {
                c
            } else {
                entries_order(x.drop_first(), y.drop_first())
            }
        }
    }
}

/// The comparison of values is -1, 0 or 1; zero exactly on equal values;
/// and swapping the arguments negates it.
pub proof fn lemma_value_order_basics(a: VValue, b: VValue)
    ensures
        -1 <= value_order(a, b) <= 1,
        (value_order(a, b) == 0) <==> (a == b),
        value_order(a, b) == -value_order(b, a),
    decreases a, 0nat,
{
    if kind_rank(a) == kind_rank(b) {
        match a {
            VValue::Str(x) => match b {
                VValue::Str(y) => {
                    lemma_chars_order_eq(x, y);
                    lemma_chars_order_antisym(x, y);
                },
                _ => {},
            },
            VValue::Arr(x) => match b {
                VValue::Arr(y) => {
                    lemma_values_order_basics(x, y);
                },
                _ => {},
            },
            VValue::Obj(x) => match b {
                VValue::Obj(y) => {
                    lemma_entries_order_basics(x, y);
                },
                _ => {},
            },
            _ => {},
        }
    }
}

/// The basics of the comparison, for sequences of values.
pub proof fn lemma_values_order_basics(x: Seq<VValue>, y: Seq<VValue>)
    ensures
        -1 <= values_order(x, y) <= 1,
        (values_order(x, y) == 0) <==> (x == y),
        values_order(x, y) == -values_order(y, x),
    decreases x, 1nat,
{
    if x.len() == 0 && y.len() == 0 {
        assert(x =~= y);
    } else if x.len() > 0 && y.len() > 0 {
        lemma_value_order_basics(x[0], y[0]);
        lemma_values_order_basics(x.drop_first(), y.drop_first());
        if x[0] == y[0] && x.drop_first() == y.drop_first() {
            assert(x =~= seq![x[0]] + x.drop_first());
            assert(y =~= seq![y[0]] + y.drop_first());
        }
        if x == y {
            assert(x.drop_first() =~= y.drop_first());
        }
    }
}

/// The basics of the comparison, for object entries.
pub proof fn lemma_entries_order_basics(x: Seq<(Seq<char>, VValue)>, y: Seq<(Seq<char>, VValue)>)
    ensures
        -1 <= entries_order(x, y) <= 1,
        (entries_order(x, y) == 0) <==> (x == y),
        entries_order(x, y) == -entries_order(y, x),
    decreases x, 1nat,
{
    if x.len() == 0 && y.len() == 0 {
        assert(x =~= y);
    } else if x.len() > 0 && y.len() > 0 {
        lemma_chars_order_eq(x[0].0, y[0].0);
        lemma_chars_order_antisym(x[0].0, y[0].0);
        assert(decreases_to!(x => x[0]));
        assert(decreases_to!(x[0] => x[0].1));
        lemma_value_order_basics(x[0].1, y[0].1);
        lemma_entries_order_basics(x.drop_first(), y.drop_first());
        if x[0] == y[0] && x.drop_first() == y.drop_first() {
            assert(x =~= seq![x[0]] + x.drop_first());
            assert(y =~= seq![y[0]] + y.drop_first());
        }
        if x == y {
            assert(x.drop_first() =~= y.drop_first());
        }
    }
}

/// The comparison of values is transitive.
pub proof fn lemma_value_order_trans(a: VValue, b: VValue, c: VValue)
    requires
        value_order(a, b) < 0,
        value_order(b, c) < 0,
    ensures
        value_order(a, c) < 0,
    decreases a, 0nat,
{
    if kind_rank(a) == kind_rank(b) && kind_rank(b) == kind_rank(c) {
        match a {
            VValue::Str(x) => match b {
                VValue::Str(y) => match c {
                    VValue::Str(z) => lemma_chars_order_trans(x, y, z),
                    _ => {},
                },
                _ => {},
            },
            VValue::Arr(x) => match b {
                VValue::Arr(y) => match c {
                    VValue::Arr(z) => lemma_values_order_trans(x, y, z),
                    _ => {},
                },
                _ => {},
            },
            VValue::Obj(x) => match b {
                VValue::Obj(y) => match c {
                    VValue::Obj(z) => lemma_entries_order_trans(x, y, z),
                    _ => {},
                },
                _ => {},
            },
            _ => {},
        }
    }
}

/// Lexicographic comparison of sequences of values is transitive.
pub proof fn lemma_values_order_trans(x: Seq<VValue>, y: Seq<VValue>, z: Seq<VValue>)
    requires
        values_order(x, y) < 0,
        values_order(y, z) < 0,
    ensures
        values_order(x, z) < 0,
    decreases x, 1nat,
{
    if x.len() > 0 && y.len() > 0 && z.len() > 0 {
        lemma_value_order_basics(x[0], y[0]);
        lemma_value_order_basics(y[0], z[0]);
        lemma_value_order_basics(x[0], z[0]);
        let c1 = value_order(x[0], y[0]);
        let c2 = value_order(y[0], z[0]);
        if c1 < 0 && c2 < 0 {
            lemma_value_order_trans(x[0], y[0], z[0]);
        } else if c1 == 0 && c2 == 0 {
            lemma_values_order_trans(x.drop_first(), y.drop_first(), z.drop_first());
        }
    }
}

/// Lexicographic comparison of object entries is transitive.
pub proof fn lemma_entries_order_trans(
    x: Seq<(Seq<char>, VValue)>,
    y: Seq<(Seq<char>, VValue)>,
    z: Seq<(Seq<char>, VValue)>,
)
    requires
        entries_order(x, y) < 0,
        entries_order(y, z) < 0,
    ensures
        entries_order(x, z) < 0,
    decreases x, 1nat,
{
    if x.len() > 0 && y.len() > 0 && z.len() > 0 {
        lemma_chars_order_eq(x[0].0, y[0].0);
        lemma_chars_order_eq(y[0].0, z[0].0);
        lemma_chars_order_eq(x[0].0, z[0].0);
        let k1 = chars_order(x[0].0, y[0].0);
        let k2 = chars_order(y[0].0, z[0].0);
        if k1 < 0 && k2 < 0 {
            lemma_chars_order_trans(x[0].0, y[0].0, z[0].0);
        } else if k1 == 0 && k2 == 0 {
            assert(decreases_to!(x => x[0]));
            assert(decreases_to!(x[0] => x[0].1));
            lemma_value_order_basics(x[0].1, y[0].1);
            lemma_value_order_basics(y[0].1, z[0].1);
            lemma_value_order_basics(x[0].1, z[0].1);
            let c1 = value_order(x[0].1, y[0].1);
            let c2 = value_order(y[0].1, z[0].1);
            if c1 < 0 && c2 < 0 {
                lemma_value_order_trans(x[0].1, y[0].1, z[0].1);
            } else if c1 == 0 && c2 == 0 {
                lemma_entries_order_trans(x.drop_first(), y.drop_first(), z.drop_first());
            }
        }
    }
}

/// The rank of a value's kind.
fn kind_rank_exec(v: &Value) -> (r: u8)
    ensures
        r as int == kind_rank(v@),
{
    match v {
        Value::Null => 0,
        Value::Bool(_) => 1,
        Value::Integer(_) => 2,
        Value::String(_) => 3,
        Value::Array(_) => 4,
        Value::Object(_) => 5,
    }
}

/// The three-way result of an integer comparison result.
fn trichotomy_of(c: i8) -> (r: Trichotomy)
    requires
        -1 <= c <= 1,
    ensures
        order_int(r) == c,
{
    if c < 0 {
        Trichotomy::Less
    } else if c > 0 {
        Trichotomy::Greater
    } else {
        Trichotomy::Equal
    }
}

/// Three-way comparison of two values, as `value_order` defines it.
pub fn compare_values(a: &Value, b: &Value) -> (r: Trichotomy)
    ensures
        order_int(r) == value_order(a@, b@),
    decreases a,
{
    let ra = kind_rank_exec(a);
    let rb = kind_rank_exec(b);
    if ra < rb {
        return Trichotomy::Less;
    }
    if ra > rb {
        return Trichotomy::Greater;
    }
    match (a, b) {
        (Value::Null, Value::Null) => Trichotomy::Equal,
        (Value::Bool(x), Value::Bool(y)) => {
            if *x == *y {
                Trichotomy::Equal
            } else if !*x {
                Trichotomy::Less
            } else {
                Trichotomy::Greater
            }
        },
        (Value::Integer(x), Value::Integer(y)) => {
            if *x < *y {
                Trichotomy::Less
            } else if *x > *y {
                Trichotomy::Greater
            } else {
                Trichotomy::Equal
            }
        },
        (Value::String(x), Value::String(y)) => str_order(x.as_str(), y.as_str()),
        (Value::Array(x), Value::Array(y)) => {
            let ghost xv = values_view(x@);
            let ghost yv = values_view(y@);
            proof {
                lemma_values_view(x@);
                lemma_values_view(y@);
                assert(xv.skip(0) =~= xv);
                assert(yv.skip(0) =~= yv);
            }
            let mut i: usize = 0;
            while i < x.len() && i < y.len()
                invariant
                    *a == Value::Array(*x),
                    *b == Value::Array(*y),
                    xv == values_view(x@),
                    yv == values_view(y@),
                    xv.len() == x@.len(),
                    yv.len() == y@.len(),
                    forall|j: int| 0 <= j < x@.len() ==> #[trigger] xv[j] == x@[j]@,
                    forall|j: int| 0 <= j < y@.len() ==> #[trigger] yv[j] == y@[j]@,
                    i <= x@.len(),
                    i <= y@.len(),
                    values_order(xv, yv) == values_order(xv.skip(i as int), yv.skip(i as int)),
                decreases x.len() - i,
            {
                proof {
                    assert(decreases_to!(*a => (*a)->Array_0));
                    assert(decreases_to!(*x => x[i as int]));
                    assert(decreases_to!(*a => x[i as int]));
                }
                let c = compare_values(&x[i], &y[i]);
                proof {
                    assert(xv.skip(i as int).len() > 0 && yv.skip(i as int).len() > 0);
                    assert(xv.skip(i as int)[0] == xv[i as int]);
                    assert(yv.skip(i as int)[0] == yv[i as int]);
                    assert(xv.skip(i as int).drop_first() =~= xv.skip(i + 1));
                    assert(yv.skip(i as int).drop_first() =~= yv.skip(i + 1));
                }
                match c {
                    Trichotomy::Equal => {},
                    _ => {
                        assert(values_order(xv.skip(i as int), yv.skip(i as int)) == order_int(c));
                        return c;
                    },
                }
                i = i + 1;
            }
            if x.len() == y.len() {
                Trichotomy::Equal
            } else if x.len() < y.len() {
                Trichotomy::Less
            } else {
                Trichotomy::Greater
            }
        },
        (Value::Object(x), Value::Object(y)) => {
            let ghost xv = entries_view(x.entries@);
            let ghost yv = entries_view(y.entries@);
            proof {
                lemma_entries_view(x.entries@);
                lemma_entries_view(y.entries@);
                assert(xv.skip(0) =~= xv);
                assert(yv.skip(0) =~= yv);
            }
            let mut i: usize = 0;
            while i < x.entries.len() && i < y.entries.len()
                invariant
                    *a == Value::Object(*x),
                    *b == Value::Object(*y),
                    xv == entries_view(x.entries@),
                    yv == entries_view(y.entries@),
                    xv.len() == x.entries@.len(),
                    yv.len() == y.entries@.len(),
                    forall|j: int|
                        0 <= j < x.entries@.len() ==> #[trigger] xv[j] == (x.entries@[j].0@, x.entries@[j].1@),
                    forall|j: int|
                        0 <= j < y.entries@.len() ==> #[trigger] yv[j] == (y.entries@[j].0@, y.entries@[j].1@),
                    i <= x.entries@.len(),
                    i <= y.entries@.len(),
                    entries_order(xv, yv) == entries_order(xv.skip(i as int), yv.skip(i as int)),
                decreases x.entries.len() - i,
            {
                proof {
                    assert(decreases_to!(*a => (*a)->Object_0));
                    assert(decreases_to!(*x => x.entries));
                    assert(decreases_to!(x.entries => x.entries[i as int]));
                    assert(decreases_to!(x.entries[i as int] => x.entries[i as int].1));
                    assert(decreases_to!(*a => x.entries[i as int].1));
                    assert(xv.skip(i as int).len() > 0 && yv.skip(i as int).len() > 0);
                    assert(xv.skip(i as int)[0] == xv[i as int]);
                    assert(yv.skip(i as int)[0] == yv[i as int]);
                    assert(xv.skip(i as int).drop_first() =~= xv.skip(i + 1));
                    assert(yv.skip(i as int).drop_first() =~= yv.skip(i + 1));
                }
                let k = str_order(x.entries[i].0.as_str(), y.entries[i].0.as_str());
                match k {
                    Trichotomy::Equal => {},
                    _ => {
                        assert(entries_order(xv.skip(i as int), yv.skip(i as int)) == order_int(k));
                        return k;
                    },
                }
                let c = compare_values(&x.entries[i].1, &y.entries[i].1);
                match c {
                    Trichotomy::Equal => {},
                    _ => {
                        assert(entries_order(xv.skip(i as int), yv.skip(i as int)) == order_int(c));
                        return c;
                    },
                }
                i = i + 1;
            }
            if x.entries.len() == y.entries.len() {
                Trichotomy::Equal
            } else if x.entries.len() < y.entries.len() {
                Trichotomy::Less
            } else {
                Trichotomy::Greater
            }
        },
        _ => Trichotomy::Equal,
    }
}

impl TotalOrder for i32 {
    open spec fn le(a: i32, b: i32) -> bool {
        a <= b
    }

    proof fn lemma_reflexive(x: i32) {
    }

    proof fn lemma_transitive(x: i32, y: i32, z: i32) {
    }

    proof fn lemma_antisymmetric(x: i32, y: i32) {
    }

    proof fn lemma_total(x: i32, y: i32) {
    }

    fn le_exec(&self, other: &Self) -> (r: bool) {
        *self <= *other
    }

    fn copy_value(&self) -> (r: Self) {
        *self
    }
}

impl TotalOrder for i64 {
    open spec fn le(a: i64, b: i64) -> bool {
        a <= b
    }

    proof fn lemma_reflexive(x: i64) {
    }

    proof fn lemma_transitive(x: i64, y: i64, z: i64) {
    }

    proof fn lemma_antisymmetric(x: i64, y: i64) {
    }

    proof fn lemma_total(x: i64, y: i64) {
    }

    fn le_exec(&self, other: &Self) -> (r: bool) {
        *self <= *other
    }

    fn copy_value(&self) -> (r: Self) {
        *self
    }
}

impl TotalOrder for u64 {
    open spec fn le(a: u64, b: u64) -> bool {
        a <= b
    }

    proof fn lemma_reflexive(x: u64) {
    }

    proof fn lemma_transitive(x: u64, y: u64, z: u64) {
    }

    proof fn lemma_antisymmetric(x: u64, y: u64) {
    }

    proof fn lemma_total(x: u64, y: u64) {
    }

    fn le_exec(&self, other: &Self) -> (r: bool) {
        *self <= *other
    }

    fn copy_value(&self) -> (r: Self) {
        *self
    }
}

} // verus!
