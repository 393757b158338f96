//! Values, entities and the principals, actions and resources built on them.
use vstd::prelude::*;
use crate::text::{Trichotomy, chars_order, lemma_chars_order_eq, lemma_chars_order_antisym, lemma_chars_order_trans, str_order};

verus! {

broadcast use vstd::std_specs::vec::group_vec_axioms;

/// Mathematical model of a value.
pub enum VValue {
    /// Null
    Null,
    /// Boolean
    Bool(bool),
    /// Integer
    Int(int),
    /// String by its characters
    Str(Seq<char>),
    /// Array by its elements
    Arr(Seq<VValue>),
    /// Object by its entries, keys strictly increasing
    Obj(Seq<(Seq<char>, VValue)>),
}

/// Core value type.
#[derive(Debug)]
pub enum Value {
    /// Null value
    Null,
    /// Boolean value
    Bool(bool),
    /// Integer value
    Integer(i64),
    /// String value
    String(String),
    /// Array of values
    Array(Vec<Value>),
    /// Object: map from string keys to values, kept ordered by key
    Object(AttrMap),
}

/// A map from string keys to values, entries kept strictly ordered by key.
#[derive(Debug)]
pub struct AttrMap {
    /// The entries, in key order
    pub entries: Vec<(String, Value)>,
}

/// Model of a value.
pub open spec fn value_view(v: Value) -> VValue
    decreases v, 0nat,
{
    match v {
        Value::Null => VValue::Null,
        Value::Bool(b) => VValue::Bool(b),
        Value::Integer(i) => VValue::Int(i as int),
        Value::String(s) => VValue::Str(s@),
        Value::Array(a) => VValue::Arr(values_view(a@)),
        Value::Object(m) => VValue::Obj(entries_view(m.entries@)),
    }
}

/// Model of a sequence of values.
pub open spec fn values_view(s: Seq<Value>) -> Seq<VValue>
    decreases s, 1nat,
{
    if s.len() == 0 {
        Seq::empty()
    } else {
        values_view(s.drop_last()).push(value_view(s.last()))
    }
}

/// Model of a sequence of map entries.
pub open spec fn entries_view(s: Seq<(String, Value)>) -> Seq<(Seq<char>, VValue)>
    decreases s, 1nat,
{
    if s.len() == 0 {
        Seq::empty()
    } else {
        entries_view(s.drop_last()).push((s.last().0@, value_view(s.last().1)))
    }
}

impl View for Value {
    type V = VValue;

    open spec fn view(&self) -> VValue {
        value_view(*self)
    }
}

impl View for AttrMap {
    type V = Seq<(Seq<char>, VValue)>;

    open spec fn view(&self) -> Seq<(Seq<char>, VValue)> {
        entries_view(self.entries@)
    }
}

/// The model of a sequence of values, element by element.
pub proof fn lemma_values_view(s: Seq<Value>)
    ensures
        values_view(s).len() == s.len(),
        forall|i: int| 0 <= i < s.len() ==> #[trigger] values_view(s)[i] == s[i]@,
    decreases s.len(),
{
    if s.len() > 0 {
        lemma_values_view(s.drop_last());
    }
}

/// The model of a sequence of entries, entry by entry.
pub proof fn lemma_entries_view(s: Seq<(String, Value)>)
    ensures
        entries_view(s).len() == s.len(),
        forall|i: int|
            0 <= i < s.len() ==> #[trigger] entries_view(s)[i] == (s[i].0@, s[i].1@),
    decreases s.len(),
{
    if s.len() > 0 {
        lemma_entries_view(s.drop_last());
    }
}

/// Keys strictly increasing.
pub open spec fn keys_sorted(m: Seq<(Seq<char>, VValue)>) -> bool {
    forall|i: int, j: int| 0 <= i < j < m.len() ==> chars_order(#[trigger] m[i].0, #[trigger] m[j].0) < 0
}

/// The value bound to `k`, if any.
pub open spec fn map_get(m: Seq<(Seq<char>, VValue)>, k: Seq<char>) -> Option<VValue>
    decreases m.len(),
{
    if m.len() == 0 {
        None
    } else if m[0].0 == k {
        Some(m[0].1)
    } else {
        map_get(m.drop_first(), k)
    }
}

/// Whether `v` is truthy.
pub open spec fn truthy(v: VValue) -> bool {
    match v {
        VValue::Null => false,
        VValue::Bool(b) => b,
        VValue::Int(i) => i != 0,
        VValue::Str(s) => s.len() != 0,
        VValue::Arr(a) => a.len() != 0,
        VValue::Obj(o) => o.len() != 0,
    }
}

/// Structural equality of two values.
pub fn value_eq(a: &Value, b: &Value) -> (r: bool)
    ensures
        r == (a@ == b@),
    decreases a,
{
    match (a, b) {
        (Value::Null, Value::Null) => true,
        (Value::Bool(x), Value::Bool(y)) => *x == *y,
        (Value::Integer(x), Value::Integer(y)) => *x == *y,
        (Value::String(x), Value::String(y)) => *x == *y,
        (Value::Array(x), Value::Array(y)) => {
            proof {
                lemma_values_view(x@);
                lemma_values_view(y@);
            }
            if x.len() != y.len() {
                assert(values_view(x@).len() != values_view(y@).len());
                return false;
            }
            let mut i: usize = 0;
            while i < x.len()
                invariant
                    *a == Value::Array(*x),
                    *b == Value::Array(*y),
                    x@.len() == y@.len(),
                    i <= x@.len(),
                    values_view(x@).len() == x@.len(),
                    values_view(y@).len() == y@.len(),
                    forall|j: int| 0 <= j < x@.len() ==> #[trigger] values_view(x@)[j] == x@[j]@,
                    forall|j: int| 0 <= j < y@.len() ==> #[trigger] values_view(y@)[j] == y@[j]@,
                    forall|j: int| 0 <= j < i ==> x@[j]@ == y@[j]@,
                decreases x.len() - i,
            {
                proof {
                    assert(decreases_to!(*a => (*a)->Array_0));
                    assert(decreases_to!(*x => x[i as int]));
                    assert(decreases_to!(*a => x[i as int]));
                }
                if !value_eq(&x[i], &y[i]) {
                    assert(values_view(x@)[i as int] != values_view(y@)[i as int]);
                    return false;
                }
                i = i + 1;
            }
            assert(values_view(x@) =~= values_view(y@));
            true
        },
        (Value::Object(x), Value::Object(y)) => {
            proof {
                lemma_entries_view(x.entries@);
                lemma_entries_view(y.entries@);
            }
            if x.entries.len() != y.entries.len() {
                assert(x@.len() != y@.len());
                return false;
            }
            let mut i: usize = 0;
            while i < x.entries.len()
                invariant
                    *a == Value::Object(*x),
                    *b == Value::Object(*y),
                    x.entries@.len() == y.entries@.len(),
                    i <= x.entries@.len(),
                    entries_view(x.entries@).len() == x.entries@.len(),
                    entries_view(y.entries@).len() == y.entries@.len(),
                    forall|j: int|
                        0 <= j < x.entries@.len() ==> #[trigger] entries_view(x.entries@)[j] == (
                        x.entries@[j].0@, x.entries@[j].1@),
                    forall|j: int|
                        0 <= j < y.entries@.len() ==> #[trigger] entries_view(y.entries@)[j] == (
                        y.entries@[j].0@, y.entries@[j].1@),
                    forall|j: int|
                        0 <= j < i ==> x.entries@[j].0@ == y.entries@[j].0@ && x.entries@[j].1@
                            == y.entries@[j].1@,
                decreases x.entries.len() - i,
            {
                proof {
                    assert(decreases_to!(*a => (*a)->Object_0));
                    assert(decreases_to!(*x => x.entries));
                    assert(decreases_to!(x.entries => x.entries[i as int]));
                    assert(decreases_to!(x.entries[i as int] => x.entries[i as int].1));
                    assert(decreases_to!(*a => x.entries[i as int].1));
                }
                if x.entries[i].0 != y.entries[i].0 {
                    assert(entries_view(x.entries@)[i as int] != entries_view(y.entries@)[i as int]);
                    return false;
                }
                if !value_eq(&x.entries[i].1, &y.entries[i].1) {
                    assert(entries_view(x.entries@)[i as int] != entries_view(y.entries@)[i as int]);
                    return false;
                }
                i = i + 1;
            }
            assert(entries_view(x.entries@) =~= entries_view(y.entries@));
            true
        },
        _ => false,
    }
}

/// A copy of a value with the same model.
pub fn value_clone(a: &Value) -> (r: Value)
    ensures
        r@ == a@,
    decreases a,
{
    match a {
        Value::Null => Value::Null,
        Value::Bool(x) => Value::Bool(*x),
        Value::Integer(x) => Value::Integer(*x),
        Value::String(x) => Value::String(x.clone()),
        Value::Array(x) => {
            let mut out: Vec<Value> = Vec::new();
            let mut i: usize = 0;
            while i < x.len()
                invariant
                    *a == Value::Array(*x),
                    i <= x@.len(),
                    out@.len() == i,
                    forall|j: int| 0 <= j < i ==> out@[j]@ == x@[j]@,
                decreases x.len() - i,
            {
                proof {
                    assert(decreases_to!(*a => (*a)->Array_0));
                    assert(decreases_to!(*x => x[i as int]));
                    assert(decreases_to!(*a => x[i as int]));
                }
                let c = value_clone(&x[i]);
                out.push(c);
                i = i + 1;
            }
            proof {
                lemma_values_view(x@);
                lemma_values_view(out@);
                assert(values_view(out@) =~= values_view(x@));
            }
            Value::Array(out)
        },
        Value::Object(x) => {
            let mut out: Vec<(String, Value)> = Vec::new();
            let mut i: usize = 0;
            while i < x.entries.len()
                invariant
                    *a == Value::Object(*x),
                    i <= x.entries@.len(),
                    out@.len() == i,
                    forall|j: int|
                        0 <= j < i ==> out@[j].0@ == x.entries@[j].0@ && out@[j].1@
                            == x.entries@[j].1@,
                decreases x.entries.len() - i,
            {
                proof {
                    assert(decreases_to!(*a => (*a)->Object_0));
                    assert(decreases_to!(*x => x.entries));
                    assert(decreases_to!(x.entries => x.entries[i as int]));
                    assert(decreases_to!(x.entries[i as int] => x.entries[i as int].1));
                    assert(decreases_to!(*a => x.entries[i as int].1));
                }
                let k = x.entries[i].0.clone();
                let c = value_clone(&x.entries[i].1);
                out.push((k, c));
                i = i + 1;
            }
            proof {
                lemma_entries_view(x.entries@);
                lemma_entries_view(out@);
                assert(entries_view(out@) =~= entries_view(x.entries@));
            }
            Value::Object(AttrMap { entries: out })
        },
    }
}

impl Clone for Value {
    fn clone(&self) -> (r: Self)
        ensures
            r@ == self@,
    {
        value_clone(self)
    }
}

impl PartialEq for Value {
    fn eq(&self, other: &Self) -> (r: bool) {
        value_eq(self, other)
    }
}

impl vstd::std_specs::cmp::PartialEqSpecImpl for Value {
    open spec fn obeys_eq_spec() -> bool {
        true
    }

    open spec fn eq_spec(&self, other: &Self) -> bool {
        self@ == other@
    }
}

impl Eq for Value {}

impl Value {
    /// Create a string value.
    pub fn string(s: impl ToText) -> (r: Value)
        ensures
            r@ == VValue::Str(s.text()),
    {
        Value::String(s.to_text())
    }

    /// Create an array value.
    pub fn array(values: Vec<Value>) -> (r: Value)
        ensures
            r@ == VValue::Arr(values_view(values@)),
    {
        Value::Array(values)
    }

    /// Create an object value.
    pub fn object(map: AttrMap) -> (r: Value)
        ensures
            r@ == VValue::Obj(map@),
    {
        Value::Object(map)
    }

    /// Check if value is truthy.
    pub fn is_truthy(&self) -> (r: bool)
        ensures
            r == truthy(self@),
    {
        match self {
            Value::Null => false,
            Value::Bool(b) => *b,
            Value::Integer(i) => *i != 0,
            Value::String(s) => s.as_str().unicode_len() != 0,
            Value::Array(a) => {
                proof {
                    lemma_values_view(a@);
                }
                a.len() != 0
            },
            Value::Object(o) => {
                proof {
                    lemma_entries_view(o.entries@);
                }
                o.entries.len() != 0
            },
        }
    }
}

impl Clone for AttrMap {
    fn clone(&self) -> (r: Self)
        ensures
            r@ == self@,
    {
        let mut out: Vec<(String, Value)> = Vec::new();
        let mut i: usize = 0;
        while i < self.entries.len()
            invariant
                i <= self.entries@.len(),
                out@.len() == i,
                forall|j: int|
                    0 <= j < i ==> out@[j].0@ == self.entries@[j].0@ && out@[j].1@
                        == self.entries@[j].1@,
            decreases self.entries.len() - i,
        {
            let k = self.entries[i].0.clone();
            let c = value_clone(&self.entries[i].1);
            out.push((k, c));
            i = i + 1;
        }
        proof {
            lemma_entries_view(self.entries@);
            lemma_entries_view(out@);
            assert(entries_view(out@) =~= entries_view(self.entries@));
        }
        AttrMap { entries: out }
    }
}

impl AttrMap {
    /// Create an empty map.
    pub fn new() -> (r: AttrMap)
        ensures
            r@ == Seq::<(Seq<char>, VValue)>::empty(),
    {
        let r = AttrMap { entries: Vec::new() };
        proof {
            lemma_entries_view(r.entries@);
        }
        r
    }

    /// Number of entries.
    pub fn len(&self) -> (r: usize)
        ensures
            r == self@.len(),
    {
        proof {
            lemma_entries_view(self.entries@);
        }
        self.entries.len()
    }

    /// Whether the map is empty.
    pub fn is_empty(&self) -> (r: bool)
        ensures
            r == (self@.len() == 0),
    {
        self.len() == 0
    }

    /// The key of entry `i`.
    pub fn key_at(&self, i: usize) -> (r: &String)
        requires
            i < self@.len(),
        ensures
            r@ == self@[i as int].0,
    {
        proof {
            lemma_entries_view(self.entries@);
        }
        &self.entries[i].0
    }

    /// The value of entry `i`.
    pub fn value_at(&self, i: usize) -> (r: &Value)
        requires
            i < self@.len(),
        ensures
            r@ == self@[i as int].1,
    {
        proof {
            lemma_entries_view(self.entries@);
        }
        &self.entries[i].1
    }

    /// Look up the value bound to `key`.
    pub fn get(&self, key: &str) -> (r: Option<&Value>)
        ensures
            match r {
                Some(v) => map_get(self@, key@) == Some(v@),
                None => map_get(self@, key@) is None,
            },
    {
        proof {
            lemma_entries_view(self.entries@);
        }
        let k = String::from_str(key);
        let mut i: usize = 0;
        assert(self@.skip(0) =~= self@);
        while i < self.entries.len()
            invariant
                k@ == key@,
                i <= self@.len(),
                self@.len() == self.entries@.len(),
                forall|j: int|
                    0 <= j < self.entries@.len() ==> #[trigger] self@[j] == (
                    self.entries@[j].0@, self.entries@[j].1@),
                map_get(self@, key@) == map_get(self@.skip(i as int), key@),
            decreases self.entries.len() - i,
        {
            assert(self@.skip(i as int)[0] == self@[i as int]);
            if self.entries[i].0 == k {
                return Some(&self.entries[i].1);
            }
            assert(self@.skip(i as int).drop_first() =~= self@.skip(i + 1));
            i = i + 1;
        }
        None
    }

    /// Insert or replace the binding of `key`, keeping keys ordered.
    pub fn insert(&mut self, key: String, value: Value)
        ensures
            keys_sorted(old(self)@) ==> keys_sorted(final(self)@),
            forall|k: Seq<char>|
                #[trigger] map_get(final(self)@, k) == if k == key@ {
                    Some(value@)
                } else {
                    map_get(old(self)@, k)
                },
    {
        proof {
            lemma_entries_view(self.entries@);
        }
        let ghost old_m = self@;
        let ghost old_entries = self.entries@;
        let n = self.entries.len();
        let mut i: usize = 0;
        let mut stop = false;
        while !stop && i < n
            invariant
                self@ == old_m,
                old(self)@ == old_m,
                self.entries@ == old_entries,
                n == old_entries.len(),
                i <= old_m.len(),
                old_m.len() == old_entries.len(),
                forall|j: int|
                    0 <= j < old_entries.len() ==> #[trigger] old_m[j] == (
                    old_entries[j].0@, old_entries[j].1@),
                forall|j: int| 0 <= j < i ==> chars_order(#[trigger] old_m[j].0, key@) < 0,
                stop ==> i < n && chars_order(key@, old_m[i as int].0) < 0,
            decreases 2 * (n - i) + (if stop { 0int } else { 1int }),
        {
            let c = str_order(self.entries[i].0.as_str(), key.as_str());
            match c {
                Trichotomy::Less => {
                    i = i + 1;
                },
                Trichotomy::Equal => {
                    proof {
                        lemma_chars_order_eq(old_m[i as int].0, key@);
                        lemma_map_get_prefix(old_m, i as int);
                    }
                    let ghost kv = (key@, value@);
                    self.entries.set(i, (key, value));
                    proof {
                        lemma_entries_view(self.entries@);
                        assert(self@[i as int] == kv);
                        assert forall|j: int| 0 <= j < old_m.len() && j != i implies #[trigger] self@[j]
                            == old_m[j] by {
                            assert(self.entries@[j] == old_entries[j]);
                        }
                        lemma_set_entry(old_m, self@, i as int);
                    }
                    return;
                },
                Trichotomy::Greater => {
                    proof {
                        lemma_chars_order_antisym(old_m[i as int].0, key@);
                    }
                    stop = true;
                },
            }
        }
        let ghost new_entry = (key@, value@);
        proof {
            lemma_map_get_absent(old_m, i as int, key@);
        }
        self.entries.insert(i, (key, value));
        proof {
            lemma_entries_view(self.entries@);
            assert forall|j: int| 0 <= j < self@.len() implies #[trigger] self@[j] == old_m.insert(
                i as int,
                new_entry,
            )[j] by {
                if j < i {
                    assert(self.entries@[j] == old_entries[j]);
                } else if j > i {
                    assert(self.entries@[j] == old_entries[j - 1]);
                }
            }
            assert(self@ =~= old_m.insert(i as int, new_entry));
            lemma_insert_entry(old_m, i as int, new_entry);
        }
    }

    /// The entries in key order.
    pub fn entries(&self) -> (r: &Vec<(String, Value)>)
        ensures
            entries_view(r@) == self@,
    {
        &self.entries
    }
}

/// Looking up a key that precedes position `i` finds it before `i`.
proof fn lemma_map_get_prefix(m: Seq<(Seq<char>, VValue)>, i: int)
    requires
        0 <= i < m.len(),
        forall|j: int| 0 <= j < i ==> chars_order(#[trigger] m[j].0, m[i].0) < 0,
    ensures
        map_get(m, m[i].0) == Some(m[i].1),
    decreases i,
{
    if i > 0 {
        lemma_chars_order_eq(m[0].0, m[i].0);
        assert forall|j: int| 0 <= j < i - 1 implies chars_order(
            #[trigger] m.drop_first()[j].0,
            m.drop_first()[i - 1].0,
        ) < 0 by {
            assert(m.drop_first()[j] == m[j + 1]);
        }
        lemma_map_get_prefix(m.drop_first(), i - 1);
    }
}

/// A key smaller-than-equal keys nowhere: absent.
proof fn lemma_map_get_absent(m: Seq<(Seq<char>, VValue)>, i: int, k: Seq<char>)
    requires
        0 <= i <= m.len(),
        forall|j: int| 0 <= j < i ==> chars_order(#[trigger] m[j].0, k) < 0,
        i < m.len() ==> chars_order(k, m[i].0) < 0,
        keys_sorted(m) || true,
    ensures
        forall|j: int| 0 <= j < i ==> m[j].0 != k,
{
    assert forall|j: int| 0 <= j < i implies m[j].0 != k by {
        lemma_chars_order_eq(m[j].0, k);
    }
}

/// Replacing the value at position `i` whose key is the first occurrence.
proof fn lemma_set_entry(m: Seq<(Seq<char>, VValue)>, n: Seq<(Seq<char>, VValue)>, i: int)
    requires
        0 <= i < m.len(),
        n.len() == m.len(),
        n[i].0 == m[i].0,
        forall|j: int| 0 <= j < m.len() && j != i ==> #[trigger] n[j] == m[j],
        forall|j: int| 0 <= j < i ==> chars_order(#[trigger] m[j].0, m[i].0) < 0,
    ensures
        keys_sorted(m) ==> keys_sorted(n),
        forall|k: Seq<char>|
            #[trigger] map_get(n, k) == if k == m[i].0 {
                Some(n[i].1)
            } else {
                map_get(m, k)
            },
    decreases i,
{
    assert forall|k: Seq<char>|
        #[trigger] map_get(n, k) == if k == m[i].0 {
            Some(n[i].1)
        } else {
            map_get(m, k)
        } by {
        lemma_set_entry_get(m, n, i, k);
    }
    if keys_sorted(m) {
        assert forall|a: int, b: int| 0 <= a < b < n.len() implies chars_order(
            #[trigger] n[a].0,
            #[trigger] n[b].0,
        ) < 0 by {
            assert(m[a].0 == n[a].0);
            assert(m[b].0 == n[b].0);
        }
    }
}

proof fn lemma_set_entry_get(
    m: Seq<(Seq<char>, VValue)>,
    n: Seq<(Seq<char>, VValue)>,
    i: int,
    k: Seq<char>,
)
    requires
        0 <= i < m.len(),
        n.len() == m.len(),
        n[i].0 == m[i].0,
        forall|j: int| 0 <= j < m.len() && j != i ==> #[trigger] n[j] == m[j],
        forall|j: int| 0 <= j < i ==> chars_order(#[trigger] m[j].0, m[i].0) < 0,
    ensures
        map_get(n, k) == if k == m[i].0 {
            Some(n[i].1)
        } else {
            map_get(m, k)
        },
    decreases i,
{
    if i == 0 {
        if k != m[0].0 {
            assert(n.drop_first() =~= m.drop_first());
        }
    } else {
        assert(n[0] == m[0]);
        lemma_chars_order_eq(m[0].0, m[i].0);
        if m[0].0 != k {
            assert forall|j: int| 0 <= j < i - 1 implies chars_order(
                #[trigger] m.drop_first()[j].0,
                m.drop_first()[i - 1].0,
            ) < 0 by {
                assert(m.drop_first()[j] == m[j + 1]);
            }
            lemma_set_entry_get(m.drop_first(), n.drop_first(), i - 1, k);
        }
    }
}

/// Inserting a fresh entry at its ordered position.
proof fn lemma_insert_entry(m: Seq<(Seq<char>, VValue)>, i: int, e: (Seq<char>, VValue))
    requires
        0 <= i <= m.len(),
        forall|j: int| 0 <= j < i ==> chars_order(#[trigger] m[j].0, e.0) < 0,
        i < m.len() ==> chars_order(e.0, m[i].0) < 0,
    ensures
        keys_sorted(m) ==> keys_sorted(m.insert(i, e)),
        forall|k: Seq<char>|
            #[trigger] map_get(m.insert(i, e), k) == if k == e.0 {
                Some(e.1)
            } else {
                map_get(m, k)
            },
{
    let n = m.insert(i, e);
    assert forall|k: Seq<char>|
        #[trigger] map_get(n, k) == if k == e.0 {
            Some(e.1)
        } else {
            map_get(m, k)
        } by {
        lemma_insert_entry_get(m, i, e, k);
    }
    if keys_sorted(m) {
        assert forall|a: int, b: int| 0 <= a < b < n.len() implies chars_order(
            #[trigger] n[a].0,
            #[trigger] n[b].0,
        ) < 0 by {
            if b < i {
            } else if b == i {
                assert(n[b] == e);
                assert(n[a] == m[a]);
            } else if a < i {
                assert(n[b] == m[b - 1]);
                assert(n[a] == m[a]);
                if i < m.len() {
                    if i < b - 1 {
                        lemma_chars_order_trans(e.0, m[i].0, m[b - 1].0);
                    }
                    lemma_chars_order_trans(m[a].0, e.0, m[b - 1].0);
                }
            } else if a == i {
                assert(n[a] == e);
                assert(n[b] == m[b - 1]);
                if i < b - 1 {
                    lemma_chars_order_trans(e.0, m[i].0, m[b - 1].0);
                }
            } else {
                assert(n[a] == m[a - 1]);
                assert(n[b] == m[b - 1]);
            }
        }
    }
}

proof fn lemma_insert_entry_get(m: Seq<(Seq<char>, VValue)>, i: int, e: (Seq<char>, VValue), k: Seq<char>)
    requires
        0 <= i <= m.len(),
        forall|j: int| 0 <= j < i ==> chars_order(#[trigger] m[j].0, e.0) < 0,
    ensures
        map_get(m.insert(i, e), k) == if k == e.0 {
            Some(e.1)
        } else {
            map_get(m, k)
        },
    decreases i,
{
    let n = m.insert(i, e);
    if i == 0 {
        assert(n[0] == e);
        assert(n.drop_first() =~= m);
    } else {
        assert(n[0] == m[0]);
        lemma_chars_order_eq(m[0].0, e.0);
        assert(n.drop_first() =~= m.drop_first().insert(i - 1, e));
        assert forall|j: int| 0 <= j < i - 1 implies chars_order(#[trigger] m.drop_first()[j].0, e.0)
            < 0 by {
            assert(m.drop_first()[j] == m[j + 1]);
        }
        if m[0].0 != k {
            lemma_insert_entry_get(m.drop_first(), i - 1, e, k);
        }
    }
}

} // verus!

verus! {

/// Types that can be turned into an owned string.
pub trait ToText {
    /// The characters of the text.
    spec fn text(&self) -> Seq<char>;

    /// The owned string.
    fn to_text(self) -> (r: String)
        ensures
            r@ == self.text(),
    ;
}

impl<'a> ToText for &'a str {
    open spec fn text(&self) -> Seq<char> {
        (*self)@
    }

    fn to_text(self) -> (r: String) {
        String::from_str(self)
    }
}

impl ToText for String {
    open spec fn text(&self) -> Seq<char> {
        self@
    }

    fn to_text(self) -> (r: String) {
        self
    }
}

impl<'a> ToText for &'a String {
    open spec fn text(&self) -> Seq<char> {
        (*self)@
    }

    fn to_text(self) -> (r: String) {
        self.clone()
    }
}

/// Mathematical model of an entity.
pub struct VEntity {
    /// Entity type
    pub ty: Seq<char>,
    /// Entity id
    pub id: Seq<char>,
    /// Attribute entries in key order
    pub attrs: Seq<(Seq<char>, VValue)>,
    /// Parents
    pub parents: Seq<VEntity>,
}

/// Entity in the RUNE system.
#[derive(Debug)]
pub struct Entity {
    /// Entity type (e.g., "User", "Agent", "Resource")
    pub entity_type: String,
    /// Entity ID
    pub id: String,
    /// Entity attributes
    pub attributes: AttrMap,
    /// Parent entities (for hierarchies)
    pub parents: Vec<Entity>,
}

/// Model of an entity.
pub open spec fn entity_view(e: Entity) -> VEntity
    decreases e, 0nat,
{
    VEntity {
        ty: e.entity_type@,
        id: e.id@,
        attrs: e.attributes@,
        parents: entities_view(e.parents@),
    }
}

/// Model of a sequence of entities.
pub open spec fn entities_view(s: Seq<Entity>) -> Seq<VEntity>
    decreases s, 1nat,
{
    if s.len() == 0 {
        Seq::empty()
    } else {
        entities_view(s.drop_last()).push(entity_view(s.last()))
    }
}

impl View for Entity {
    type V = VEntity;

    open spec fn view(&self) -> VEntity {
        entity_view(*self)
    }
}

/// The model of a sequence of entities, element by element.
pub proof fn lemma_entities_view(s: Seq<Entity>)
    ensures
        entities_view(s).len() == s.len(),
        forall|i: int| 0 <= i < s.len() ==> #[trigger] entities_view(s)[i] == s[i]@,
    decreases s.len(),
{
    if s.len() > 0 {
        lemma_entities_view(s.drop_last());
    }
}

/// A copy of an entity with the same model.
pub fn entity_clone(e: &Entity) -> (r: Entity)
    ensures
        r@ == e@,
    decreases e,
{
    let mut parents: Vec<Entity> = Vec::new();
    let mut i: usize = 0;
    while i < e.parents.len()
        invariant
            i <= e.parents@.len(),
            parents@.len() == i,
            forall|j: int| 0 <= j < i ==> parents@[j]@ == e.parents@[j]@,
        decreases e.parents.len() - i,
    {
        proof {
            assert(decreases_to!(*e => e.parents));
            assert(decreases_to!(e.parents => e.parents[i as int]));
            assert(decreases_to!(*e => e.parents[i as int]));
        }
        let p = entity_clone(&e.parents[i]);
        parents.push(p);
        i = i + 1;
    }
    proof {
        lemma_entities_view(e.parents@);
        lemma_entities_view(parents@);
        assert(entities_view(parents@) =~= entities_view(e.parents@));
    }
    Entity {
        entity_type: e.entity_type.clone(),
        id: e.id.clone(),
        attributes: e.attributes.clone(),
        parents,
    }
}

impl Clone for Entity {
    fn clone(&self) -> (r: Self)
        ensures
            r@ == self@,
    {
        entity_clone(self)
    }
}

impl Entity {
    /// Create a new entity without attributes or parents.
    pub fn new(entity_type: impl ToText, id: impl ToText) -> (r: Entity)
        ensures
            r@ == (VEntity {
                ty: entity_type.text(),
                id: id.text(),
                attrs: Seq::empty(),
                parents: Seq::empty(),
            }),
    {
        let r = Entity {
            entity_type: entity_type.to_text(),
            id: id.to_text(),
            attributes: AttrMap::new(),
            parents: Vec::new(),
        };
        proof {
            lemma_entities_view(r.parents@);
        }
        r
    }

    /// Add (or replace) an attribute.
    pub fn with_attribute(self, key: impl ToText, value: Value) -> (r: Entity)
        ensures
            r@.ty == self@.ty,
            r@.id == self@.id,
            r@.parents == self@.parents,
            keys_sorted(self@.attrs) ==> keys_sorted(r@.attrs),
            forall|k: Seq<char>|
                #[trigger] map_get(r@.attrs, k) == if k == key.text() {
                    Some(value@)
                } else {
                    map_get(self@.attrs, k)
                },
    {
        let mut e = self;
        let k = key.to_text();
        e.attributes.insert(k, value);
        e
    }

    /// Add a parent entity.
    pub fn with_parent(self, parent: Entity) -> (r: Entity)
        ensures
            r@ == (VEntity { parents: self@.parents.push(parent@), ..self@ }),
    {
        let ghost p = parent@;
        let mut e = self;
        let ghost old_parents = e.parents@;
        e.parents.push(parent);
        proof {
            lemma_entities_view(old_parents);
            lemma_entities_view(e.parents@);
            assert(entities_view(e.parents@) =~= entities_view(old_parents).push(p));
        }
        e
    }
}

/// Principal making the request.
#[derive(Debug)]
pub struct Principal {
    /// The entity representing the principal
    pub entity: Entity,
}

impl Clone for Principal {
    fn clone(&self) -> (r: Self)
        ensures
            r.entity@ == self.entity@,
    {
        Principal { entity: entity_clone(&self.entity) }
    }
}

impl Principal {
    /// Create a new principal.
    pub fn new(entity_type: impl ToText, id: impl ToText) -> (r: Principal)
        ensures
            r.entity@ == (VEntity {
                ty: entity_type.text(),
                id: id.text(),
                attrs: Seq::empty(),
                parents: Seq::empty(),
            }),
    {
        Principal { entity: Entity::new(entity_type, id) }
    }

    /// Create an agent principal.
    pub fn agent(id: impl ToText) -> (r: Principal)
        ensures
            r.entity@ == (VEntity {
                ty: "Agent"@,
                id: id.text(),
                attrs: Seq::empty(),
                parents: Seq::empty(),
            }),
    {
        Self::new("Agent", id)
    }

    /// Create a user principal.
    pub fn user(id: impl ToText) -> (r: Principal)
        ensures
            r.entity@ == (VEntity {
                ty: "User"@,
                id: id.text(),
                attrs: Seq::empty(),
                parents: Seq::empty(),
            }),
    {
        Self::new("User", id)
    }
}

/// Action being performed.
#[derive(Debug)]
pub struct Action {
    /// Action name
    pub name: String,
    /// Action parameters
    pub parameters: AttrMap,
}

impl Clone for Action {
    fn clone(&self) -> (r: Self)
        ensures
            r.name@ == self.name@,
            r.parameters@ == self.parameters@,
    {
        Action { name: self.name.clone(), parameters: self.parameters.clone() }
    }
}

impl Action {
    /// Create a new action without parameters.
    pub fn new(name: impl ToText) -> (r: Action)
        ensures
            r.name@ == name.text(),
            r.parameters@ == Seq::<(Seq<char>, VValue)>::empty(),
    {
        Action { name: name.to_text(), parameters: AttrMap::new() }
    }

    /// Add (or replace) a parameter.
    pub fn with_parameter(self, key: impl ToText, value: Value) -> (r: Action)
        ensures
            r.name@ == self.name@,
            keys_sorted(self.parameters@) ==> keys_sorted(r.parameters@),
            forall|k: Seq<char>|
                #[trigger] map_get(r.parameters@, k) == if k == key.text() {
                    Some(value@)
                } else {
                    map_get(self.parameters@, k)
                },
    {
        let mut a = self;
        let k = key.to_text();
        a.parameters.insert(k, value);
        a
    }
}

/// Resource being accessed.
#[derive(Debug)]
pub struct Resource {
    /// The entity representing the resource
    pub entity: Entity,
}

impl Clone for Resource {
    fn clone(&self) -> (r: Self)
        ensures
            r.entity@ == self.entity@,
    {
        Resource { entity: entity_clone(&self.entity) }
    }
}

impl Resource {
    /// Create a new resource.
    pub fn new(entity_type: impl ToText, id: impl ToText) -> (r: Resource)
        ensures
            r.entity@ == (VEntity {
                ty: entity_type.text(),
                id: id.text(),
                attrs: Seq::empty(),
                parents: Seq::empty(),
            }),
    {
        Resource { entity: Entity::new(entity_type, id) }
    }

    /// Create a file resource.
    pub fn file(path: impl ToText) -> (r: Resource)
        ensures
            r.entity@ == (VEntity {
                ty: "File"@,
                id: path.text(),
                attrs: Seq::empty(),
                parents: Seq::empty(),
            }),
    {
        Self::new("File", path)
    }

    /// Create a database resource.
    pub fn database(name: impl ToText) -> (r: Resource)
        ensures
            r.entity@ == (VEntity {
                ty: "Database"@,
                id: name.text(),
                attrs: Seq::empty(),
                parents: Seq::empty(),
            }),
    {
        Self::new("Database", name)
    }

    /// Create an API resource.
    pub fn api(endpoint: impl ToText) -> (r: Resource)
        ensures
            r.entity@ == (VEntity {
                ty: "API"@,
                id: endpoint.text(),
                attrs: Seq::empty(),
                parents: Seq::empty(),
            }),
    {
        Self::new("API", endpoint)
    }
}

} // verus!
