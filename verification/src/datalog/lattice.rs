//! Lattices for monotonic Datalog: a join (least upper bound) that is
//! commutative and associative, and for most of them idempotent.
use vstd::prelude::*;
use crate::datalog::order::TotalOrder;
use crate::text::{models, lemma_push_to_set};
use crate::types::{Value, VValue, value_eq, value_clone, values_view, lemma_values_view};

verus! {

/// A join-semilattice, stated over the model of its elements.
pub trait Lattice: View + Sized {
    /// The join of two models.
    spec fn join_spec(a: Self::V, b: Self::V) -> Self::V;

    /// Whether the lattice has a least element.
    spec fn has_bottom() -> bool;

    /// The least element, where there is one.
    spec fn bottom_spec() -> Self::V;

    /// The least upper bound of two elements.
    fn join(&self, other: &Self) -> (r: Self)
        ensures
            r@ == Self::join_spec(self@, other@),
    ;

    /// `self <= other`, that is `self ⊔ other == other`.
    fn less_than_or_equal(&self, other: &Self) -> (r: bool)
        ensures
            r == (Self::join_spec(self@, other@) == other@),
    ;

    /// The least element, if the lattice has one.
    fn bottom() -> (r: Option<Self>)
        ensures
            r is Some <==> Self::has_bottom(),
            r matches Some(b) ==> b@ == Self::bottom_spec(),
    ;

    /// The join is commutative.
    proof fn lemma_join_commutative(a: Self::V, b: Self::V)
        ensures
            Self::join_spec(a, b) == Self::join_spec(b, a),
    ;

    /// The join is associative.
    proof fn lemma_join_associative(a: Self::V, b: Self::V, c: Self::V)
        ensures
            Self::join_spec(Self::join_spec(a, b), c) == Self::join_spec(a, Self::join_spec(b, c)),
    ;

    /// The least element, where there is one, is an identity of the join.
    proof fn lemma_join_bottom(a: Self::V)
        ensures
            Self::has_bottom() ==> Self::join_spec(a, Self::bottom_spec()) == a,
    ;
}

/// The larger of two models under a total order (the second when equal).
pub open spec fn order_max<T: TotalOrder>(a: T::V, b: T::V) -> T::V {
    if T::le(a, b) {
        b
    } else {
        a
    }
}

/// The smaller of two models under a total order (the first when equal).
pub open spec fn order_min<T: TotalOrder>(a: T::V, b: T::V) -> T::V {
    if T::le(a, b) {
        a
    } else {
        b
    }
}

/// Every ordering fact among three models that the order laws give.
proof fn lemma_order_facts<T: TotalOrder>(a: T::V, b: T::V, c: T::V)
    ensures
        T::le(a, b) || T::le(b, a),
        T::le(b, c) || T::le(c, b),
        T::le(a, c) || T::le(c, a),
        T::le(a, b) && T::le(b, a) ==> a == b,
        T::le(b, c) && T::le(c, b) ==> b == c,
        T::le(a, c) && T::le(c, a) ==> a == c,
        T::le(a, b) && T::le(b, c) ==> T::le(a, c),
        T::le(a, c) && T::le(c, b) ==> T::le(a, b),
        T::le(b, a) && T::le(a, c) ==> T::le(b, c),
        T::le(b, c) && T::le(c, a) ==> T::le(b, a),
        T::le(c, a) && T::le(a, b) ==> T::le(c, b),
        T::le(c, b) && T::le(b, a) ==> T::le(c, a),
{
    T::lemma_total(a, b);
    T::lemma_total(b, c);
    T::lemma_total(a, c);
    if T::le(a, b) && T::le(b, a) {
        T::lemma_antisymmetric(a, b);
    }
    if T::le(b, c) && T::le(c, b) {
        T::lemma_antisymmetric(b, c);
    }
    if T::le(a, c) && T::le(c, a) {
        T::lemma_antisymmetric(a, c);
    }
    if T::le(a, b) && T::le(b, c) {
        T::lemma_transitive(a, b, c);
    }
    if T::le(a, c) && T::le(c, b) {
        T::lemma_transitive(a, c, b);
    }
    if T::le(b, a) && T::le(a, c) {
        T::lemma_transitive(b, a, c);
    }
    if T::le(b, c) && T::le(c, a) {
        T::lemma_transitive(b, c, a);
    }
    if T::le(c, a) && T::le(a, b) {
        T::lemma_transitive(c, a, b);
    }
    if T::le(c, b) && T::le(b, a) {
        T::lemma_transitive(c, b, a);
    }
}

/// Lattice of a totally ordered type under maximum.
#[derive(Debug, PartialEq, Eq, Hash)]
pub struct MaxLattice<T: TotalOrder> {
    value: T,
}

impl<T: TotalOrder> View for MaxLattice<T> {
    type V = T::V;

    closed spec fn view(&self) -> T::V {
        self.value@
    }
}

impl<T: TotalOrder> MaxLattice<T> {
    /// A lattice element holding `value`.
    pub fn new(value: T) -> (r: Self)
        ensures
            r@ == value@,
    {
        MaxLattice { value }
    }

    /// The value held.
    pub fn value(&self) -> (r: &T)
        ensures
            r@ == self@,
    {
        &self.value
    }

    /// Joining an element with itself gives it back.
    pub proof fn lemma_join_idempotent(a: T::V)
        ensures
            Self::join_spec(a, a) == a,
    {
    }

    /// Each argument is at most the join.
    pub proof fn lemma_join_upper_bound(a: T::V, b: T::V)
        ensures
            Self::join_spec(a, Self::join_spec(a, b)) == Self::join_spec(a, b),
            Self::join_spec(b, Self::join_spec(a, b)) == Self::join_spec(a, b),
    {
        lemma_order_facts::<T>(a, b, b);
        T::lemma_reflexive(a);
        T::lemma_reflexive(b);
    }
}

impl<T: TotalOrder> Clone for MaxLattice<T> {
    fn clone(&self) -> (r: Self)
        ensures
            r@ == self@,
    {
        MaxLattice { value: self.value.copy_value() }
    }
}

impl<T: TotalOrder> Lattice for MaxLattice<T> {
    open spec fn join_spec(a: T::V, b: T::V) -> T::V {
        order_max::<T>(a, b)
    }

    open spec fn has_bottom() -> bool {
        false
    }

    open spec fn bottom_spec() -> T::V {
        arbitrary()
    }

    fn join(&self, other: &Self) -> (r: Self) {
        if self.value.le_exec(&other.value) {
            MaxLattice { value: other.value.copy_value() }
        } else {
            MaxLattice { value: self.value.copy_value() }
        }
    }

    fn less_than_or_equal(&self, other: &Self) -> (r: bool) {
        let r = self.value.le_exec(&other.value);
        proof {
            lemma_order_facts::<T>(self@, other@, other@);
        }
        r
    }

    fn bottom() -> (r: Option<Self>) {
        None
    }

    proof fn lemma_join_commutative(a: T::V, b: T::V) {
        lemma_order_facts::<T>(a, b, b);
    }

    proof fn lemma_join_associative(a: T::V, b: T::V, c: T::V) {
        lemma_order_facts::<T>(a, b, c);
    }

    proof fn lemma_join_bottom(a: T::V) {
    }
}

/// Lattice of a totally ordered type under minimum.
#[derive(Debug, PartialEq, Eq, Hash)]
pub struct MinLattice<T: TotalOrder> {
    value: T,
}

impl<T: TotalOrder> View for MinLattice<T> {
    type V = T::V;

    closed spec fn view(&self) -> T::V {
        self.value@
    }
}

impl<T: TotalOrder> MinLattice<T> {
    /// A lattice element holding `value`.
    pub fn new(value: T) -> (r: Self)
        ensures
            r@ == value@,
    {
        MinLattice { value }
    }

    /// The value held.
    pub fn value(&self) -> (r: &T)
        ensures
            r@ == self@,
    {
        &self.value
    }

    /// Joining an element with itself gives it back.
    pub proof fn lemma_join_idempotent(a: T::V)
        ensures
            Self::join_spec(a, a) == a,
    {
    }

    /// Each argument is at most the join (in the reversed order of this lattice).
    pub proof fn lemma_join_upper_bound(a: T::V, b: T::V)
        ensures
            Self::join_spec(a, Self::join_spec(a, b)) == Self::join_spec(a, b),
            Self::join_spec(b, Self::join_spec(a, b)) == Self::join_spec(a, b),
    {
        lemma_order_facts::<T>(a, b, b);
        T::lemma_reflexive(a);
        T::lemma_reflexive(b);
    }
}

impl<T: TotalOrder> Clone for MinLattice<T> {
    fn clone(&self) -> (r: Self)
        ensures
            r@ == self@,
    {
        MinLattice { value: self.value.copy_value() }
    }
}

impl<T: TotalOrder> Lattice for MinLattice<T> {
    open spec fn join_spec(a: T::V, b: T::V) -> T::V {
        order_min::<T>(a, b)
    }

    open spec fn has_bottom() -> bool {
        false
    }

    open spec fn bottom_spec() -> T::V {
        arbitrary()
    }

    fn join(&self, other: &Self) -> (r: Self) {
        if self.value.le_exec(&other.value) {
            MinLattice { value: self.value.copy_value() }
        } else {
            MinLattice { value: other.value.copy_value() }
        }
    }

    fn less_than_or_equal(&self, other: &Self) -> (r: bool) {
        let r = other.value.le_exec(&self.value);
        proof {
            lemma_order_facts::<T>(self@, other@, other@);
            T::lemma_reflexive(other@);
        }
        r
    }

    fn bottom() -> (r: Option<Self>) {
        None
    }

    proof fn lemma_join_commutative(a: T::V, b: T::V) {
        lemma_order_facts::<T>(a, b, b);
    }

    proof fn lemma_join_associative(a: T::V, b: T::V, c: T::V) {
        lemma_order_facts::<T>(a, b, c);
    }

    proof fn lemma_join_bottom(a: T::V) {
    }
}


/// Strictly increasing under the order of `T`.
pub open spec fn strictly_sorted<T: TotalOrder>(s: Seq<T::V>) -> bool {
    forall|i: int, j: int|
        #![trigger s[i], s[j]]
        0 <= i < j < s.len() ==> T::le(s[i], s[j]) && s[i] != s[j]
}

/// Inserting into a strictly increasing sequence at the place the order gives
/// keeps it strictly increasing and adds the element to its set.
proof fn lemma_sorted_insert<T: TotalOrder>(s: Seq<T::V>, i: int, x: T::V)
    requires
        strictly_sorted::<T>(s),
        0 <= i <= s.len(),
        forall|j: int| 0 <= j < i ==> T::le(#[trigger] s[j], x) && s[j] != x,
        i < s.len() ==> T::le(x, s[i]) && x != s[i],
    ensures
        strictly_sorted::<T>(s.insert(i, x)),
        s.insert(i, x).to_set() == s.to_set().insert(x),
{
    let t = s.insert(i, x);
    s.insert_ensures(i, x);
    assert forall|a: int, b: int| 0 <= a < b < t.len() implies T::le(t[a], t[b]) && t[a] != t[b] by {
        if b < i {
        } else if b == i {
        } else if a < i {
            assert(t[b] == s[b - 1]);
        } else if a == i {
            assert(t[b] == s[b - 1]);
            if b - 1 > i {
                lemma_order_facts::<T>(x, s[i], s[b - 1]);
            }
        } else {
            assert(t[a] == s[a - 1]);
            assert(t[b] == s[b - 1]);
        }
    }
    assert(strictly_sorted::<T>(t));
    assert forall|v: T::V| t.contains(v) <==> s.to_set().insert(x).contains(v) by {
        if t.contains(v) {
            let k = choose|k: int| 0 <= k < t.len() && t[k] == v;
            if k < i {
                assert(s.contains(v));
            } else if k > i {
                assert(s[k - 1] == v);
                assert(s.contains(v));
            }
        }
        if s.contains(v) {
            let k = choose|k: int| 0 <= k < s.len() && s[k] == v;
            if k < i {
                assert(t[k] == v);
            } else {
                assert(t[k + 1] == v);
            }
        }
        if v == x {
            assert(t[i] == v);
        }
    }
    assert(t.to_set() =~= s.to_set().insert(x));
}

/// A strictly increasing sequence has as many elements as its set.
proof fn lemma_sorted_len<T: TotalOrder>(s: Seq<T::V>)
    requires
        strictly_sorted::<T>(s),
    ensures
        s.to_set().len() == s.len(),
        s.to_set().finite(),
{
    assert(s.no_duplicates()) by {
        assert forall|i: int, j: int| 0 <= i < s.len() && 0 <= j < s.len() && i != j implies s[i] != s[j] by {
            if i < j {
                assert(T::le(s[i], s[j]) && s[i] != s[j]);
            } else {
                assert(T::le(s[j], s[i]) && s[j] != s[i]);
            }
        }
    }
    s.unique_seq_to_set();
    vstd::seq_lib::seq_to_set_is_finite(s);
}

/// Lattice of finite sets under union, the elements kept in increasing order.
#[derive(Debug, PartialEq, Eq)]
pub struct SetLattice<T: TotalOrder> {
    elements: Vec<T>,
}

impl<T: TotalOrder> View for SetLattice<T> {
    type V = Set<T::V>;

    closed spec fn view(&self) -> Set<T::V> {
        models(self.elements@).to_set()
    }
}

impl<T: TotalOrder> SetLattice<T> {
    #[verifier::type_invariant]
    spec fn wf(self) -> bool {
        strictly_sorted::<T>(models(self.elements@))
    }

    /// The empty set.
    pub fn new() -> (r: Self)
        ensures
            r@ == Set::<T::V>::empty(),
    {
        let r = SetLattice { elements: Vec::new() };
        assert(models(r.elements@).to_set() =~= Set::<T::V>::empty());
        r
    }

    /// The set of the given elements.
    pub fn from_iter(items: Vec<T>) -> (r: Self)
        ensures
            r@ == models(items@).to_set(),
    {
        let mut r = SetLattice::new();
        let mut i: usize = 0;
        while i < items.len()
            invariant
                i <= items@.len(),
                r@ == models(items@).take(i as int).to_set(),
            decreases items.len() - i,
        {
            r.insert(items[i].copy_value());
            proof {
                assert(models(items@).take(i + 1) =~= models(items@).take(i as int).push(items@[i as int]@));
                lemma_push_to_set(models(items@).take(i as int), items@[i as int]@);
            }
            i = i + 1;
        }
        assert(models(items@).take(items@.len() as int) =~= models(items@));
        r
    }

    /// Add an element; nothing changes where an equal one is present.
    pub fn insert(&mut self, element: T)
        ensures
            final(self)@ == old(self)@.insert(element@),
    {
        proof {
            use_type_invariant(&*self);
        }
        let ghost s = models(self.elements@);
        let n = self.elements.len();
        let mut i: usize = 0;
        while i < n && !element.le_exec(&self.elements[i])
            invariant
                n == self.elements@.len(),
                s == models(self.elements@),
                strictly_sorted::<T>(s),
                i <= n,
                forall|j: int| 0 <= j < i ==> T::le(#[trigger] s[j], element@) && s[j] != element@,
            decreases n - i,
        {
            proof {
                T::lemma_total(element@, s[i as int]);
                T::lemma_reflexive(element@);
            }
            i = i + 1;
        }
        if i < n && self.elements[i].le_exec(&element) {
            proof {
                T::lemma_antisymmetric(element@, s[i as int]);
                assert(s.to_set().contains(element@));
                assert(s.to_set().insert(element@) =~= s.to_set());
            }
        } else {
            proof {
                if i < n {
                    T::lemma_reflexive(element@);
                }
                lemma_sorted_insert::<T>(s, i as int, element@);
            }
            let mut elements: Vec<T> = Vec::new();
            std::mem::swap(&mut elements, &mut self.elements);
            elements.insert(i, element);
            proof {
                assert(models(elements@) =~= s.insert(i as int, models(elements@)[i as int]));
            }
            self.elements = elements;
        }
    }

    /// Whether an element equal to `element` is present.
    pub fn contains(&self, element: &T) -> (r: bool)
        ensures
            r == self@.contains(element@),
    {
        let ghost s = models(self.elements@);
        let mut i: usize = 0;
        while i < self.elements.len()
            invariant
                s == models(self.elements@),
                i <= self.elements@.len(),
                forall|j: int| 0 <= j < i ==> #[trigger] s[j] != element@,
            decreases self.elements.len() - i,
        {
            if self.elements[i].le_exec(element) && element.le_exec(&self.elements[i]) {
                proof {
                    T::lemma_antisymmetric(s[i as int], element@);
                    assert(s.contains(element@));
                }
                return true;
            }
            proof {
                T::lemma_reflexive(element@);
            }
            i = i + 1;
        }
        false
    }

    /// The number of elements.
    pub fn len(&self) -> (r: usize)
        ensures
            r == self@.len(),
    {
        proof {
            use_type_invariant(self);
            lemma_sorted_len::<T>(models(self.elements@));
        }
        self.elements.len()
    }

    /// Whether the set is empty.
    pub fn is_empty(&self) -> (r: bool)
        ensures
            r == (self@.len() == 0),
    {
        proof {
            use_type_invariant(self);
            lemma_sorted_len::<T>(models(self.elements@));
        }
        self.elements.len() == 0
    }

    /// The elements in increasing order.
    pub fn iter(&self) -> (r: Vec<T>)
        ensures
            strictly_sorted::<T>(models(r@)),
            models(r@).to_set() == self@,
    {
        proof {
            use_type_invariant(self);
        }
        let mut out: Vec<T> = Vec::new();
        let mut i: usize = 0;
        while i < self.elements.len()
            invariant
                i <= self.elements@.len(),
                out@.len() == i,
                forall|k: int| 0 <= k < i ==> #[trigger] out@[k]@ == self.elements@[k]@,
            decreases self.elements.len() - i,
        {
            out.push(self.elements[i].copy_value());
            i = i + 1;
        }
        proof {
            assert(models(out@) =~= models(self.elements@));
        }
        out
    }

    /// A copy with the same elements.
    pub fn duplicate(&self) -> (r: Self)
        ensures
            r@ == self@,
    {
        proof {
            use_type_invariant(self);
        }
        let mut out: Vec<T> = Vec::new();
        let mut i: usize = 0;
        while i < self.elements.len()
            invariant
                i <= self.elements@.len(),
                out@.len() == i,
                forall|k: int| 0 <= k < i ==> #[trigger] out@[k]@ == self.elements@[k]@,
                strictly_sorted::<T>(models(self.elements@)),
            decreases self.elements.len() - i,
        {
            out.push(self.elements[i].copy_value());
            i = i + 1;
        }
        proof {
            assert(models(out@) =~= models(self.elements@));
        }
        SetLattice { elements: out }
    }

    /// Joining a set with itself gives it back.
    pub proof fn lemma_join_idempotent(a: Set<T::V>)
        ensures
            Self::join_spec(a, a) == a,
    {
        assert(a.union(a) =~= a);
    }

    /// Each argument is a subset of the join.
    pub proof fn lemma_join_upper_bound(a: Set<T::V>, b: Set<T::V>)
        ensures
            Self::join_spec(a, Self::join_spec(a, b)) == Self::join_spec(a, b),
            Self::join_spec(b, Self::join_spec(a, b)) == Self::join_spec(a, b),
    {
        assert(a.union(a.union(b)) =~= a.union(b));
        assert(b.union(a.union(b)) =~= a.union(b));
    }
}

impl<T: TotalOrder> Default for SetLattice<T> {
    fn default() -> (r: Self)
        ensures
            r@ == Set::<T::V>::empty(),
    {
        SetLattice::new()
    }
}

impl<T: TotalOrder> Clone for SetLattice<T> {
    fn clone(&self) -> (r: Self)
        ensures
            r@ == self@,
    {
        self.duplicate()
    }
}

impl<T: TotalOrder> Lattice for SetLattice<T> {
    open spec fn join_spec(a: Set<T::V>, b: Set<T::V>) -> Set<T::V> {
        a.union(b)
    }

    open spec fn has_bottom() -> bool {
        true
    }

    open spec fn bottom_spec() -> Set<T::V> {
        Set::empty()
    }

    fn join(&self, other: &Self) -> (r: Self) {
        let mut r = self.duplicate();
        let items = other.iter();
        let mut i: usize = 0;
        while i < items.len()
            invariant
                i <= items@.len(),
                r@ == self@.union(models(items@).take(i as int).to_set()),
                models(items@).to_set() == other@,
            decreases items.len() - i,
        {
            r.insert(items[i].copy_value());
            proof {
                assert(models(items@).take(i + 1) =~= models(items@).take(i as int).push(items@[i as int]@));
                lemma_push_to_set(models(items@).take(i as int), items@[i as int]@);
                assert(self@.union(models(items@).take(i + 1).to_set()) =~= self@.union(
                    models(items@).take(i as int).to_set(),
                ).insert(items@[i as int]@));
            }
            i = i + 1;
        }
        assert(models(items@).take(items@.len() as int) =~= models(items@));
        r
    }

    fn less_than_or_equal(&self, other: &Self) -> (r: bool) {
        let items = self.iter();
        let mut i: usize = 0;
        while i < items.len()
            invariant
                i <= items@.len(),
                models(items@).to_set() == self@,
                forall|j: int| 0 <= j < i ==> other@.contains(#[trigger] models(items@)[j]),
            decreases items.len() - i,
        {
            if !other.contains(&items[i]) {
                proof {
                    assert(models(items@)[i as int] == items@[i as int]@);
                    assert(models(items@).contains(items@[i as int]@));
                    assert(!self@.union(other@).subset_of(other@));
                    assert(self@.union(other@) != other@);
                }
                return false;
            }
            i = i + 1;
        }
        proof {
            assert forall|v: T::V| self@.contains(v) implies other@.contains(v) by {
                let k = choose|k: int| 0 <= k < models(items@).len() && models(items@)[k] == v;
            }
            assert(self@.union(other@) =~= other@);
        }
        true
    }

    fn bottom() -> (r: Option<Self>) {
        Some(SetLattice::new())
    }

    proof fn lemma_join_commutative(a: Set<T::V>, b: Set<T::V>) {
        assert(a.union(b) =~= b.union(a));
    }

    proof fn lemma_join_associative(a: Set<T::V>, b: Set<T::V>, c: Set<T::V>) {
        assert(a.union(b).union(c) =~= a.union(b.union(c)));
    }

    proof fn lemma_join_bottom(a: Set<T::V>) {
        assert(a.union(Set::empty()) =~= a);
    }
}


/// A finite set of values, each present once, kept in the order of arrival.
#[derive(Debug)]
pub struct ValueSet {
    items: Vec<Value>,
}

impl View for ValueSet {
    type V = Set<VValue>;

    closed spec fn view(&self) -> Set<VValue> {
        models(self.items@).to_set()
    }
}

impl ValueSet {
    #[verifier::type_invariant]
    spec fn wf(self) -> bool {
        models(self.items@).no_duplicates()
    }

    /// The empty set.
    pub fn new() -> (r: Self)
        ensures
            r@ == Set::<VValue>::empty(),
    {
        let r = ValueSet { items: Vec::new() };
        assert(models(r.items@).to_set() =~= Set::<VValue>::empty());
        r
    }

    /// Whether a value equal to `value` is present.
    pub fn contains(&self, value: &Value) -> (r: bool)
        ensures
            r == self@.contains(value@),
    {
        let ghost s = models(self.items@);
        let mut i: usize = 0;
        while i < self.items.len()
            invariant
                s == models(self.items@),
                i <= self.items@.len(),
                forall|j: int| 0 <= j < i ==> #[trigger] s[j] != value@,
            decreases self.items.len() - i,
        {
            if value_eq(&self.items[i], value) {
                assert(s[i as int] == value@);
                return true;
            }
            i = i + 1;
        }
        false
    }

    /// Add a value; nothing changes where an equal one is present.
    pub fn insert(&mut self, value: Value)
        ensures
            final(self)@ == old(self)@.insert(value@),
    {
        proof {
            use_type_invariant(&*self);
        }
        if self.contains(&value) {
            assert(self@.insert(value@) =~= self@);
        } else {
            let ghost s = models(self.items@);
            let mut items: Vec<Value> = Vec::new();
            std::mem::swap(&mut items, &mut self.items);
            items.push(value);
            proof {
                assert(models(items@) =~= s.push(value@));
                lemma_push_to_set(s, value@);
                assert forall|i: int, j: int|
                    0 <= i < j < models(items@).len() implies models(items@)[i] != models(items@)[j] by {
                    if j == s.len() {
                        assert(s.contains(s[i]));
                    }
                }
            }
            self.items = items;
        }
    }

    /// The number of values.
    pub fn len(&self) -> (r: usize)
        ensures
            r == self@.len(),
    {
        proof {
            use_type_invariant(self);
            models(self.items@).unique_seq_to_set();
        }
        self.items.len()
    }

    /// Whether the set is empty.
    pub fn is_empty(&self) -> (r: bool)
        ensures
            r == (self@.len() == 0),
    {
        proof {
            use_type_invariant(self);
            models(self.items@).unique_seq_to_set();
        }
        self.items.len() == 0
    }

    /// The values, each once, in the order they arrived.
    pub fn iter(&self) -> (r: Vec<Value>)
        ensures
            models(r@).no_duplicates(),
            models(r@).to_set() == self@,
    {
        proof {
            use_type_invariant(self);
        }
        let mut out: Vec<Value> = Vec::new();
        let mut i: usize = 0;
        while i < self.items.len()
            invariant
                i <= self.items@.len(),
                out@.len() == i,
                forall|k: int| 0 <= k < i ==> #[trigger] out@[k]@ == self.items@[k]@,
            decreases self.items.len() - i,
        {
            out.push(value_clone(&self.items[i]));
            i = i + 1;
        }
        proof {
            assert(models(out@) =~= models(self.items@));
        }
        out
    }

    /// The set of the given values.
    pub fn from_values(values: Vec<Value>) -> (r: Self)
        ensures
            r@ == models(values@).to_set(),
    {
        let mut r = ValueSet::new();
        let mut i: usize = 0;
        while i < values.len()
            invariant
                i <= values@.len(),
                r@ == models(values@).take(i as int).to_set(),
            decreases values.len() - i,
        {
            r.insert(value_clone(&values[i]));
            proof {
                assert(models(values@).take(i + 1) =~= models(values@).take(i as int).push(values@[i as int]@));
                lemma_push_to_set(models(values@).take(i as int), values@[i as int]@);
            }
            i = i + 1;
        }
        assert(models(values@).take(values@.len() as int) =~= models(values@));
        r
    }

    /// Whether every value of `self` is in `other`.
    pub fn is_subset(&self, other: &ValueSet) -> (r: bool)
        ensures
            r == self@.subset_of(other@),
    {
        let items = self.iter();
        let mut i: usize = 0;
        while i < items.len()
            invariant
                i <= items@.len(),
                models(items@).to_set() == self@,
                forall|j: int| 0 <= j < i ==> other@.contains(#[trigger] models(items@)[j]),
            decreases items.len() - i,
        {
            if !other.contains(&items[i]) {
                assert(models(items@)[i as int] == items@[i as int]@);
                assert(models(items@).contains(items@[i as int]@));
                return false;
            }
            i = i + 1;
        }
        assert forall|v: VValue| self@.contains(v) implies other@.contains(v) by {
            let k = choose|k: int| 0 <= k < models(items@).len() && models(items@)[k] == v;
        }
        true
    }

    /// The union of two sets.
    pub fn union(&self, other: &ValueSet) -> (r: ValueSet)
        ensures
            r@ == self@.union(other@),
    {
        let mut r = ValueSet::from_values(self.iter());
        let items = other.iter();
        let mut i: usize = 0;
        while i < items.len()
            invariant
                i <= items@.len(),
                r@ == self@.union(models(items@).take(i as int).to_set()),
                models(items@).to_set() == other@,
            decreases items.len() - i,
        {
            r.insert(value_clone(&items[i]));
            proof {
                assert(models(items@).take(i + 1) =~= models(items@).take(i as int).push(items@[i as int]@));
                lemma_push_to_set(models(items@).take(i as int), items@[i as int]@);
                assert(self@.union(models(items@).take(i + 1).to_set()) =~= self@.union(
                    models(items@).take(i as int).to_set(),
                ).insert(items@[i as int]@));
            }
            i = i + 1;
        }
        assert(models(items@).take(items@.len() as int) =~= models(items@));
        r
    }
}

/// Model of a lattice value.
pub enum VLatticeValue {
    /// Maximum of integers
    Max(i64),
    /// Minimum of integers
    Min(i64),
    /// Set of values
    Values(Set<VValue>),
    /// Counter
    Counter(u64),
    /// Boolean under disjunction
    Bool(bool),
}

/// A lattice value that can stand in a fact.
#[derive(Debug)]
pub enum LatticeValue {
    /// Maximum of integers
    Max(i64),
    /// Minimum of integers
    Min(i64),
    /// Set of values
    Values(ValueSet),
    /// Counter (natural number with saturating addition)
    Counter(u64),
    /// Boolean with OR
    Bool(bool),
}

impl View for LatticeValue {
    type V = VLatticeValue;

    open spec fn view(&self) -> VLatticeValue {
        match self {
            LatticeValue::Max(v) => VLatticeValue::Max(*v),
            LatticeValue::Min(v) => VLatticeValue::Min(*v),
            LatticeValue::Values(s) => VLatticeValue::Values(s@),
            LatticeValue::Counter(c) => VLatticeValue::Counter(*c),
            LatticeValue::Bool(b) => VLatticeValue::Bool(*b),
        }
    }
}

/// The join of two lattice values; `None` when they are of different kinds.
pub open spec fn lattice_join(a: VLatticeValue, b: VLatticeValue) -> Option<VLatticeValue> {
    match (a, b) {
        (VLatticeValue::Max(x), VLatticeValue::Max(y)) => Some(
            VLatticeValue::Max(if x <= y { y } else { x }),
        ),
        (VLatticeValue::Min(x), VLatticeValue::Min(y)) => Some(
            VLatticeValue::Min(if x <= y { x } else { y }),
        ),
        (VLatticeValue::Values(x), VLatticeValue::Values(y)) => Some(VLatticeValue::Values(x.union(y))),
        (VLatticeValue::Counter(x), VLatticeValue::Counter(y)) => Some(
            VLatticeValue::Counter(saturating_sum(x, y)),
        ),
        (VLatticeValue::Bool(x), VLatticeValue::Bool(y)) => Some(VLatticeValue::Bool(x || y)),
        _ => None,
    }
}

/// The order of lattice values; values of different kinds are unrelated.
pub open spec fn lattice_le(a: VLatticeValue, b: VLatticeValue) -> bool {
    match (a, b) {
        (VLatticeValue::Max(x), VLatticeValue::Max(y)) => x <= y,
        (VLatticeValue::Min(x), VLatticeValue::Min(y)) => x >= y,
        (VLatticeValue::Values(x), VLatticeValue::Values(y)) => x.subset_of(y),
        (VLatticeValue::Counter(x), VLatticeValue::Counter(y)) => x <= y,
        (VLatticeValue::Bool(x), VLatticeValue::Bool(y)) => !x || y,
        _ => false,
    }
}

impl LatticeValue {
    /// A max lattice value.
    pub fn max(value: i64) -> (r: Self)
        ensures
            r@ == VLatticeValue::Max(value),
    {
        LatticeValue::Max(value)
    }

    /// A min lattice value.
    pub fn min(value: i64) -> (r: Self)
        ensures
            r@ == VLatticeValue::Min(value),
    {
        LatticeValue::Min(value)
    }

    /// A set lattice value of the given values.
    pub fn set(values: Vec<Value>) -> (r: Self)
        ensures
            r@ == VLatticeValue::Values(models(values@).to_set()),
    {
        LatticeValue::Values(ValueSet::from_values(values))
    }

    /// A counter lattice value.
    pub fn counter(count: u64) -> (r: Self)
        ensures
            r@ == VLatticeValue::Counter(count),
    {
        LatticeValue::Counter(count)
    }

    /// A boolean lattice value.
    pub fn bool(value: bool) -> (r: Self)
        ensures
            r@ == VLatticeValue::Bool(value),
    {
        LatticeValue::Bool(value)
    }

    /// Join two lattice values of the same kind.
    pub fn join(&self, other: &Self) -> (r: Option<Self>)
        ensures
            match r {
                Some(v) => lattice_join(self@, other@) == Some(v@),
                None => lattice_join(self@, other@) is None,
            },
    {
        match (self, other) {
            (LatticeValue::Max(a), LatticeValue::Max(b)) => Some(
                LatticeValue::Max(if *a <= *b { *b } else { *a }),
            ),
            (LatticeValue::Min(a), LatticeValue::Min(b)) => Some(
                LatticeValue::Min(if *a <= *b { *a } else { *b }),
            ),
            (LatticeValue::Values(a), LatticeValue::Values(b)) => Some(LatticeValue::Values(a.union(b))),
            (LatticeValue::Counter(a), LatticeValue::Counter(b)) => Some(
                LatticeValue::Counter(a.saturating_add(*b)),
            ),
            (LatticeValue::Bool(a), LatticeValue::Bool(b)) => Some(LatticeValue::Bool(*a || *b)),
            _ => None,
        }
    }

    /// Whether this value is at most `other` in its lattice.
    pub fn less_than_or_equal(&self, other: &Self) -> (r: bool)
        ensures
            r == lattice_le(self@, other@),
    {
        match (self, other) {
            (LatticeValue::Max(a), LatticeValue::Max(b)) => *a <= *b,
            (LatticeValue::Min(a), LatticeValue::Min(b)) => *a >= *b,
            (LatticeValue::Values(a), LatticeValue::Values(b)) => a.is_subset(b),
            (LatticeValue::Counter(a), LatticeValue::Counter(b)) => *a <= *b,
            (LatticeValue::Bool(a), LatticeValue::Bool(b)) => !*a || *b,
            _ => false,
        }
    }

    /// The value stored for this lattice value: integers for the numeric kinds
    /// (a counter above the largest `i64` wraps), a boolean, or an array holding
    /// each member of a set once.
    pub fn to_value(&self) -> (r: Value)
        ensures
            match self@ {
                VLatticeValue::Max(v) => r@ == VValue::Int(v as int),
                VLatticeValue::Min(v) => r@ == VValue::Int(v as int),
                VLatticeValue::Counter(c) => r@ == VValue::Int((c as i64) as int),
                VLatticeValue::Bool(b) => r@ == VValue::Bool(b),
                VLatticeValue::Values(s) => r@ matches VValue::Arr(a) && a.no_duplicates()
                    && a.to_set() == s,
            },
    {
        match self {
            LatticeValue::Max(v) => Value::Integer(*v),
            LatticeValue::Min(v) => Value::Integer(*v),
            LatticeValue::Counter(c) => Value::Integer(*c as i64),
            LatticeValue::Bool(b) => Value::Bool(*b),
            LatticeValue::Values(s) => {
                let items = s.iter();
                proof {
                    lemma_values_view(items@);
                    assert(values_view(items@) =~= models(items@));
                }
                Value::Array(items)
            },
        }
    }
}

impl PartialEq for LatticeValue {
    fn eq(&self, other: &Self) -> (r: bool) {
        match (self, other) {
            (LatticeValue::Max(a), LatticeValue::Max(b)) => *a == *b,
            (LatticeValue::Min(a), LatticeValue::Min(b)) => *a == *b,
            (LatticeValue::Values(a), LatticeValue::Values(b)) => {
                let r = a.is_subset(b) && b.is_subset(a);
                proof {
                    if r {
                        assert(a@ =~= b@);
                    }
                }
                r
            },
            (LatticeValue::Counter(a), LatticeValue::Counter(b)) => *a == *b,
            (LatticeValue::Bool(a), LatticeValue::Bool(b)) => *a == *b,
            _ => false,
        }
    }
}

impl vstd::std_specs::cmp::PartialEqSpecImpl for LatticeValue {
    open spec fn obeys_eq_spec() -> bool {
        true
    }

    open spec fn eq_spec(&self, other: &Self) -> bool {
        self@ == other@
    }
}

impl Eq for LatticeValue {}

/// The join of lattice values is commutative.
pub proof fn law_lattice_join_commutative(a: VLatticeValue, b: VLatticeValue)
    ensures
        lattice_join(a, b) == lattice_join(b, a),
{
    match (a, b) {
        (VLatticeValue::Values(x), VLatticeValue::Values(y)) => {
            assert(x.union(y) =~= y.union(x));
        },
        _ => {},
    }
}

/// The join of lattice values of one kind is associative.
pub proof fn law_lattice_join_associative(a: VLatticeValue, b: VLatticeValue, c: VLatticeValue)
    requires
        lattice_join(a, b) is Some,
        lattice_join(b, c) is Some,
    ensures
        lattice_join(lattice_join(a, b)->0, c) == lattice_join(a, lattice_join(b, c)->0),
{
    match (a, b, c) {
        (VLatticeValue::Values(x), VLatticeValue::Values(y), VLatticeValue::Values(z)) => {
            assert(x.union(y).union(z) =~= x.union(y.union(z)));
        },
        _ => {},
    }
}

/// A lattice value is at most its join with any value of its kind.
pub proof fn law_lattice_join_upper_bound(a: VLatticeValue, b: VLatticeValue)
    requires
        lattice_join(a, b) is Some,
    ensures
        lattice_le(a, lattice_join(a, b)->0),
        lattice_le(b, lattice_join(a, b)->0),
{
}

/// Saturating sum of two counts.
pub open spec fn saturating_sum(a: u64, b: u64) -> u64 {
    if a + b > u64::MAX {
        u64::MAX
    } else {
        (a + b) as u64
    }
}

/// Lattice of counts under saturating addition.
#[derive(Debug, PartialEq, Eq, Hash)]
pub struct CounterLattice {
    count: u64,
}

impl View for CounterLattice {
    type V = u64;

    closed spec fn view(&self) -> u64 {
        self.count
    }
}

impl CounterLattice {
    /// A counter at `count`.
    pub fn new(count: u64) -> (r: Self)
        ensures
            r@ == count,
    {
        CounterLattice { count }
    }

    /// The current count.
    pub fn count(&self) -> (r: u64)
        ensures
            r == self@,
    {
        self.count
    }

    /// Add one, saturating at the maximum.
    pub fn increment(&mut self)
        ensures
            final(self)@ == saturating_sum(old(self)@, 1),
    {
        self.count = self.count.saturating_add(1);
    }

    /// Add `value`, saturating at the maximum.
    pub fn add(&mut self, value: u64)
        ensures
            final(self)@ == saturating_sum(old(self)@, value),
    {
        self.count = self.count.saturating_add(value);
    }

    /// Joining a counter with itself gives it back exactly when it is zero or saturated.
    pub proof fn lemma_join_self(a: u64)
        ensures
            (Self::join_spec(a, a) == a) <==> (a == 0 || a == u64::MAX),
    {
    }
}

impl Clone for CounterLattice {
    fn clone(&self) -> (r: Self)
        ensures
            r@ == self@,
    {
        CounterLattice { count: self.count }
    }
}

impl Lattice for CounterLattice {
    open spec fn join_spec(a: u64, b: u64) -> u64 {
        saturating_sum(a, b)
    }

    open spec fn has_bottom() -> bool {
        true
    }

    open spec fn bottom_spec() -> u64 {
        0
    }

    fn join(&self, other: &Self) -> (r: Self) {
        CounterLattice { count: self.count.saturating_add(other.count) }
    }

    fn less_than_or_equal(&self, other: &Self) -> (r: bool) {
        self.count.saturating_add(other.count) == other.count
    }

    fn bottom() -> (r: Option<Self>) {
        Some(CounterLattice::new(0))
    }

    proof fn lemma_join_commutative(a: u64, b: u64) {
    }

    proof fn lemma_join_associative(a: u64, b: u64, c: u64) {
    }

    proof fn lemma_join_bottom(a: u64) {
    }
}

/// Lattice of booleans under disjunction.
#[derive(Debug, PartialEq, Eq, Hash)]
pub struct BoolLattice {
    value: bool,
}

impl View for BoolLattice {
    type V = bool;

    closed spec fn view(&self) -> bool {
        self.value
    }
}

impl BoolLattice {
    /// A lattice element holding `value`.
    pub fn new(value: bool) -> (r: Self)
        ensures
            r@ == value,
    {
        BoolLattice { value }
    }

    /// The value held.
    pub fn value(&self) -> (r: bool)
        ensures
            r == self@,
    {
        self.value
    }

    /// Joining an element with itself gives it back.
    pub proof fn lemma_join_idempotent(a: bool)
        ensures
            Self::join_spec(a, a) == a,
    {
    }
}

impl Clone for BoolLattice {
    fn clone(&self) -> (r: Self)
        ensures
            r@ == self@,
    {
        BoolLattice { value: self.value }
    }
}

impl Lattice for BoolLattice {
    open spec fn join_spec(a: bool, b: bool) -> bool {
        a || b
    }

    open spec fn has_bottom() -> bool {
        true
    }

    open spec fn bottom_spec() -> bool {
        false
    }

    fn join(&self, other: &Self) -> (r: Self) {
        BoolLattice { value: self.value || other.value }
    }

    fn less_than_or_equal(&self, other: &Self) -> (r: bool) {
        !self.value || other.value
    }

    fn bottom() -> (r: Option<Self>) {
        Some(BoolLattice::new(false))
    }

    proof fn lemma_join_commutative(a: bool, b: bool) {
    }

    proof fn lemma_join_associative(a: bool, b: bool, c: bool) {
    }

    proof fn lemma_join_bottom(a: bool) {
    }
}

} // verus!
