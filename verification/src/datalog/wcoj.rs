//! Worst-case optimal joins: leapfrog intersection of sorted value
//! iterators, tries of fact arguments, and an index of tries by predicate
//! and column order.
//!
//! Values are ordered by `value_order`: by kind (null, booleans, integers,
//! strings, arrays, objects), then within a kind.
use vstd::prelude::*;
use crate::types::{Value, VValue, values_view, lemma_values_view, value_clone, value_eq};
use crate::facts::{Fact, VFact, facts_view};
use crate::text::str_eq;
use crate::text::Trichotomy;
use crate::datalog::order::{value_order, compare_values, lemma_value_order_basics, lemma_value_order_trans};

verus! {

broadcast use {vstd::std_specs::vec::group_vec_axioms, vstd::seq_lib::group_seq_properties};

/// Values in strictly increasing order.
pub open spec fn strictly_sorted(s: Seq<VValue>) -> bool {
    forall|i: int, j: int| 0 <= i < j < s.len() ==> value_order(#[trigger] s[i], #[trigger] s[j]) < 0
}

/// What is left of a sorted sequence after skipping the values below `t`.
pub open spec fn drop_below(s: Seq<VValue>, t: VValue) -> Seq<VValue>
    decreases s.len(),
{
    if s.len() > 0 && value_order(s[0], t) < 0 {
        drop_below(s.drop_first(), t)
    } else {
        s
    }
}

/// Skipping the values below `t` keeps exactly the values not below it, in
/// order; it shortens the sequence when its first value is below `t`.
pub proof fn lemma_drop_below(s: Seq<VValue>, t: VValue)
    requires
        strictly_sorted(s),
    ensures
        strictly_sorted(drop_below(s, t)),
        drop_below(s, t).len() <= s.len(),
        forall|v: VValue| #[trigger] drop_below(s, t).contains(v) <==> (s.contains(v) && value_order(v, t) >= 0),
        s.len() > 0 && value_order(s[0], t) < 0 ==> drop_below(s, t).len() < s.len(),
        s.len() > 0 && value_order(s[0], t) >= 0 ==> drop_below(s, t) == s,
        drop_below(s, t).len() > 0 ==> value_order(drop_below(s, t)[0], t) >= 0,
    decreases s.len(),
{
    if s.len() > 0 && value_order(s[0], t) < 0 {
        let rest = s.drop_first();
        assert(strictly_sorted(rest)) by {
            assert forall|i: int, j: int| 0 <= i < j < rest.len() implies value_order(#[trigger] rest[i], #[trigger] rest[j]) < 0 by {
                assert(rest[i] == s[i + 1] && rest[j] == s[j + 1]);
            }
        }
        lemma_drop_below(rest, t);
        assert forall|v: VValue| #[trigger] drop_below(s, t).contains(v) <==> (s.contains(v) && value_order(v, t) >= 0) by {
            if s.contains(v) && v != s[0] {
                let k = choose|k: int| 0 <= k < s.len() && s[k] == v;
                assert(k != 0);
                assert(rest[k - 1] == v);
            }
            if rest.contains(v) {
                let k = choose|k: int| 0 <= k < rest.len() && rest[k] == v;
                assert(s[k + 1] == v);
            }
        }
    } else if s.len() > 0 {
        assert forall|v: VValue| s.contains(v) implies value_order(v, t) >= 0 by {
            let k = choose|k: int| 0 <= k < s.len() && s[k] == v;
            if k > 0 {
                lemma_value_order_basics(s[0], t);
                lemma_value_order_basics(s[k], t);
                lemma_value_order_basics(t, s[k]);
                if value_order(s[0], t) == 0 {
                    assert(s[0] == t);
                } else {
                    lemma_value_order_trans(t, s[0], s[k]);
                }
            }
        }
    }
}

/// A sorted copy of the values without repetitions.
pub fn sorted_unique(values: &Vec<Value>) -> (r: Vec<Value>)
    ensures
        strictly_sorted(values_view(r@)),
        values_view(r@).to_set() == values_view(values@).to_set(),
{
    let ghost vv = values_view(values@);
    proof {
        lemma_values_view(values@);
        assert(vv.take(0).to_set() =~= Set::<VValue>::empty());
    }
    let mut out: Vec<Value> = Vec::new();
    proof {
        lemma_values_view(out@);
    }
    let mut i: usize = 0;
    while i < values.len()
        invariant
            i <= values@.len(),
            vv == values_view(values@),
            vv.len() == values@.len(),
            forall|j: int| 0 <= j < values@.len() ==> #[trigger] vv[j] == values@[j]@,
            strictly_sorted(values_view(out@)),
            values_view(out@).to_set() == vv.take(i as int).to_set(),
        decreases values.len() - i,
    {
        let ghost ov = values_view(out@);
        proof {
            lemma_values_view(out@);
        }
        let v = &values[i];
        let mut p: usize = 0;
        let mut found = false;
        while p < out.len()
            invariant_except_break
                !found,
            invariant
                p <= out@.len(),
                ov == values_view(out@),
                ov.len() == out@.len(),
                forall|j: int| 0 <= j < out@.len() ==> #[trigger] ov[j] == out@[j]@,
                forall|j: int| 0 <= j < p ==> value_order(#[trigger] ov[j], v@) < 0,
            ensures
                p <= out@.len(),
                forall|j: int| 0 <= j < p ==> value_order(#[trigger] ov[j], v@) < 0,
                found ==> p < out@.len() && ov[p as int] == v@,
                !found ==> p < out@.len() ==> value_order(ov[p as int], v@) > 0,
            decreases out.len() - p,
        {
            match compare_values(&out[p], v) {
                Trichotomy::Less => {
                    p = p + 1;
                },
                Trichotomy::Equal => {
                    proof {
                        lemma_value_order_basics(ov[p as int], v@);
                    }
                    found = true;
                    break;
                },
                Trichotomy::Greater => {
                    break;
                },
            }
        }
        proof {
            assert(vv.take(i + 1) =~= vv.take(i as int).push(vv[i as int]));
            assert(vv.take(i + 1).to_set() =~= vv.take(i as int).to_set().insert(v@));
        }
        if !found {
            let c = value_clone(v);
            out.insert(p, c);
            proof {
                lemma_values_view(out@);
                assert(values_view(out@) =~= ov.insert(p as int, v@));
                lemma_insert_sorted(ov, p as int, v@);
                assert(ov.insert(p as int, v@).to_set() =~= ov.to_set().insert(v@));
            }
        } else {
            proof {
                assert(ov.contains(v@));
                assert(ov.to_set().insert(v@) =~= ov.to_set());
            }
        }
        i = i + 1;
    }
    proof {
        assert(vv.take(i as int) =~= vv);
    }
    out
}

/// Inserting a value at its place keeps a sequence strictly sorted.
#[verifier::spinoff_prover]
#[verifier::rlimit(40)]
proof fn lemma_insert_sorted(s: Seq<VValue>, p: int, v: VValue)
    requires
        strictly_sorted(s),
        0 <= p <= s.len(),
        forall|j: int| 0 <= j < p ==> value_order(#[trigger] s[j], v) < 0,
        p < s.len() ==> value_order(s[p], v) > 0,
    ensures
        strictly_sorted(s.insert(p, v)),
{
    let t = s.insert(p, v);
    assert forall|i: int, j: int| 0 <= i < j < t.len() implies value_order(#[trigger] t[i], #[trigger] t[j]) < 0 by {
        if i < p && j < p {
            assert(t[i] == s[i] && t[j] == s[j]);
        } else if i < p && j == p {
            assert(t[i] == s[i] && t[j] == v);
        } else if i < p {
            assert(t[i] == s[i] && t[j] == s[j - 1]);
        } else if i == p {
            assert(t[i] == v && t[j] == s[j - 1]);
            lemma_value_order_basics(s[p], v);
            if j - 1 > p {
                lemma_value_order_trans(v, s[p], s[j - 1]);
            }
        } else {
            assert(t[i] == s[i - 1] && t[j] == s[j - 1]);
        }
    }
}


/// An iterator over sorted values that can skip ahead: the leapfrog
/// iterator of a trie level.
pub trait LeapfrogIterator: Sized {
    /// The values from the current position on.
    spec fn remaining(&self) -> Seq<VValue>;

    /// How many levels lie below this one.
    spec fn depth(&self) -> nat;

    /// The levels below the values of this one, by value.
    spec fn below(&self) -> Seq<(VValue, VTrie)>;

    /// The remaining values are strictly increasing.
    fn sorted_keys(&self)
        ensures
            strictly_sorted(self.remaining()),
    ;

    /// The current value.
    fn key(&self) -> (r: Option<&Value>)
        ensures
            self.remaining().len() == 0 ==> r is None,
            self.remaining().len() > 0 ==> (r matches Some(v) && v@ == self.remaining()[0]),
    ;

    /// Move to the next value.
    fn next(&mut self)
        ensures
            final(self).remaining() == if old(self).remaining().len() > 0 {
                old(self).remaining().drop_first()
            } else {
                old(self).remaining()
            },
            final(self).depth() == old(self).depth(),
            final(self).below() == old(self).below(),
    ;

    /// Move to the first value not below `target`.
    fn seek(&mut self, target: &Value)
        ensures
            final(self).remaining() == drop_below(old(self).remaining(), target@),
            final(self).depth() == old(self).depth(),
            final(self).below() == old(self).below(),
    ;

    /// Whether no value is left.
    fn at_end(&self) -> (r: bool)
        ensures
            r == (self.remaining().len() == 0),
    ;

    /// An iterator over the level below the current value, if there is one.
    fn open(&self) -> (r: Option<Self>)
        ensures
            r matches Some(c) ==> c.depth() < self.depth(),
            r is Some <==> opened((VLevel { rem: self.remaining(), below: self.below() })) is Some,
            r matches Some(c) ==> opened((VLevel { rem: self.remaining(), below: self.below() })) == Some(
                (VLevel { rem: c.remaining(), below: c.below() }),
            ),
    ;
}

/// Iterator over a sorted list of values.
#[derive(Debug)]
pub struct ValueIterator {
    values: Vec<Value>,
    position: usize,
}

impl View for ValueIterator {
    type V = (Seq<VValue>, nat);

    closed spec fn view(&self) -> (Seq<VValue>, nat) {
        (values_view(self.values@), self.position as nat)
    }
}

impl ValueIterator {
    #[verifier::type_invariant]
    spec fn inv(self) -> bool {
        &&& strictly_sorted(values_view(self.values@))
        &&& self.position <= self.values@.len()
    }

    /// An iterator over the values, sorted and without repetitions, at the
    /// first one.
    pub fn new(values: Vec<Value>) -> (r: ValueIterator)
        ensures
            r.remaining().to_set() == values_view(values@).to_set(),
            strictly_sorted(r.remaining()),
            r.depth() == 0,
    {
        let sorted = sorted_unique(&values);
        proof {
            lemma_values_view(sorted@);
            assert(values_view(sorted@).skip(0) =~= values_view(sorted@));
        }
        ValueIterator { values: sorted, position: 0 }
    }

    /// An iterator over no values.
    pub fn empty() -> (r: ValueIterator)
        ensures
            r.remaining() == Seq::<VValue>::empty(),
            r.depth() == 0,
    {
        let v: Vec<Value> = Vec::new();
        proof {
            lemma_values_view(v@);
        }
        let r = ValueIterator { values: v, position: 0 };
        assert(r.remaining() =~= Seq::<VValue>::empty());
        r
    }
}

impl LeapfrogIterator for ValueIterator {
    open spec fn remaining(&self) -> Seq<VValue> {
        self@.0.skip(self@.1 as int)
    }

    open spec fn depth(&self) -> nat {
        0
    }

    open spec fn below(&self) -> Seq<(VValue, VTrie)> {
        Seq::empty()
    }

    fn sorted_keys(&self) {
        proof {
            use_type_invariant(self);
            lemma_values_view(self.values@);
            let s = self@.0;
            let t = s.skip(self@.1 as int);
            assert forall|i: int, j: int| 0 <= i < j < t.len() implies value_order(#[trigger] t[i], #[trigger] t[j]) < 0 by {
                assert(t[i] == s[i + self@.1] && t[j] == s[j + self@.1]);
            }
        }
    }

    fn key(&self) -> (r: Option<&Value>) {
        proof {
            use_type_invariant(self);
            lemma_values_view(self.values@);
        }
        if self.position >= self.values.len() {
            None
        } else {
            Some(&self.values[self.position])
        }
    }

    fn next(&mut self) {
        proof {
            use_type_invariant(&*self);
            lemma_values_view(self.values@);
        }
        if self.position < self.values.len() {
            self.position = self.position + 1;
            assert(old(self)@.0.skip(old(self)@.1 as int).drop_first() =~= self@.0.skip(self@.1 as int));
        }
    }

    fn seek(&mut self, target: &Value) {
        proof {
            use_type_invariant(&*self);
            lemma_values_view(self.values@);
        }
        let ghost start = self.remaining();
        while self.position < self.values.len()
            invariant
                self.position <= self.values@.len(),
                values_view(self.values@).len() == self.values@.len(),
                forall|j: int| 0 <= j < self.values@.len() ==> #[trigger] values_view(self.values@)[j] == self.values@[j]@,
                drop_below(start, target@) == drop_below(self.remaining(), target@),
                self.values@ == old(self).values@,
                strictly_sorted(values_view(self.values@)),
            ensures
                drop_below(start, target@) == self.remaining(),
            decreases self.values.len() - self.position,
        {
            match compare_values(&self.values[self.position], target) {
                Trichotomy::Less => {
                    let ghost cur = self.remaining();
                    self.position = self.position + 1;
                    assert(cur.drop_first() =~= self.remaining());
                },
                _ => {
                    break;
                },
            }
        }
    }

    fn at_end(&self) -> (r: bool) {
        proof {
            use_type_invariant(self);
            lemma_values_view(self.values@);
        }
        self.position >= self.values.len()
    }

    fn open(&self) -> (r: Option<Self>) {
        None
    }
}

/// The remaining values of each iterator.
pub open spec fn remainings<I: LeapfrogIterator>(its: Seq<I>) -> Seq<Seq<VValue>> {
    its.map_values(|it: I| it.remaining())
}

/// Whether a value is among the values of every sequence.
pub open spec fn in_all(rs: Seq<Seq<VValue>>, v: VValue) -> bool {
    forall|k: int| 0 <= k < rs.len() ==> #[trigger] rs[k].contains(v)
}

/// The number of values left over all sequences.
pub open spec fn total_len(rs: Seq<Seq<VValue>>) -> nat
    decreases rs.len(),
{
    if rs.len() == 0 {
        0
    } else {
        total_len(rs.drop_last()) + rs.last().len()
    }
}

/// Sequences no longer than others, one shorter, hold fewer values in all.
proof fn lemma_total_len(a: Seq<Seq<VValue>>, b: Seq<Seq<VValue>>)
    requires
        a.len() == b.len(),
        forall|k: int| 0 <= k < a.len() ==> #[trigger] a[k].len() <= b[k].len(),
    ensures
        total_len(a) <= total_len(b),
        (exists|k: int| 0 <= k < a.len() && #[trigger] a[k].len() < b[k].len()) ==> total_len(a) < total_len(b),
    decreases a.len(),
{
    if a.len() > 0 {
        let a1 = a.drop_last();
        let b1 = b.drop_last();
        assert forall|k: int| 0 <= k < a1.len() implies #[trigger] a1[k].len() <= b1[k].len() by {
            assert(a1[k] == a[k] && b1[k] == b[k]);
        }
        lemma_total_len(a1, b1);
        if exists|k: int| 0 <= k < a.len() && #[trigger] a[k].len() < b[k].len() {
            let k = choose|k: int| 0 <= k < a.len() && #[trigger] a[k].len() < b[k].len();
            if k < a.len() - 1 {
                assert(a1[k] == a[k] && b1[k] == b[k]);
            }
        }
    }
}

/// The state of a leapfrog intersection between rounds: each iterator's
/// remaining values are sorted, present in its starting values and not
/// exhausted; the results are sorted, common to all starting values and
/// below every remaining value; and every common value not yet in the
/// results remains in every iterator.
pub open spec fn leapfrog_state(r0: Seq<Seq<VValue>>, rs: Seq<Seq<VValue>>, res: Seq<VValue>) -> bool {
    &&& rs.len() == r0.len()
    &&& rs.len() > 0
    &&& forall|k: int| 0 <= k < rs.len() ==> strictly_sorted(#[trigger] rs[k])
    &&& forall|k: int| 0 <= k < rs.len() ==> #[trigger] rs[k].len() > 0
    &&& forall|k: int, v: VValue| 0 <= k < rs.len() && #[trigger] rs[k].contains(v) ==> r0[k].contains(v)
    &&& strictly_sorted(res)
    &&& forall|v: VValue| #[trigger] res.contains(v) ==> in_all(r0, v)
    &&& forall|i: int, k: int, v: VValue|
        0 <= i < res.len() && 0 <= k < rs.len() && #[trigger] rs[k].contains(v) ==> value_order(#[trigger] res[i], v) < 0
    &&& forall|v: VValue| #[trigger] in_all(r0, v) ==> res.contains(v) || in_all(rs, v)
}

/// Leapfrog join of several iterators.
pub struct LeapfrogJoin<I: LeapfrogIterator> {
    iterators: Vec<I>,
}

impl<I: LeapfrogIterator> LeapfrogJoin<I> {
    /// The iterators joined.
    pub closed spec fn iters(&self) -> Seq<I> {
        self.iterators@
    }

    /// A join of the iterators.
    pub fn new(iterators: Vec<I>) -> (r: Self)
        ensures
            r.iters() == iterators@,
    {
        LeapfrogJoin { iterators }
    }

    /// The largest current value among the iterators.
    fn find_max_key(&self) -> (m: Value)
        requires
            self.iterators@.len() > 0,
            forall|k: int| 0 <= k < self.iterators@.len() ==> #[trigger] self.iterators@[k].remaining().len() > 0,
        ensures
            exists|k: int| 0 <= k < self.iterators@.len() && #[trigger] self.iterators@[k].remaining()[0] == m@,
            forall|k: int|
                0 <= k < self.iterators@.len() ==> value_order(#[trigger] self.iterators@[k].remaining()[0], m@) <= 0,
    {
        let first = match self.iterators[0].key() {
            Some(v) => v,
            None => {
                assert(false);
                return Value::Null;
            },
        };
        let mut m = value_clone(first);
        proof {
            lemma_value_order_basics(m@, m@);
        }
        let mut k: usize = 1;
        while k < self.iterators.len()
            invariant
                1 <= k <= self.iterators@.len(),
                forall|j: int| 0 <= j < self.iterators@.len() ==> #[trigger] self.iterators@[j].remaining().len() > 0,
                exists|j: int| 0 <= j < k && #[trigger] self.iterators@[j].remaining()[0] == m@,
                forall|j: int| 0 <= j < k ==> value_order(#[trigger] self.iterators@[j].remaining()[0], m@) <= 0,
            decreases self.iterators.len() - k,
        {
            let key = match self.iterators[k].key() {
                Some(v) => v,
                None => {
                    assert(false);
                    return m;
                },
            };
            match compare_values(key, &m) {
                Trichotomy::Greater => {
                    let ghost old_m = m@;
                    m = value_clone(key);
                    proof {
                        lemma_value_order_basics(key@, old_m);
                        assert forall|j: int| 0 <= j < k + 1 implies value_order(
                            #[trigger] self.iterators@[j].remaining()[0],
                            m@,
                        ) <= 0 by {
                            if j < k {
                                let x = self.iterators@[j].remaining()[0];
                                lemma_value_order_basics(x, old_m);
                                lemma_value_order_basics(x, m@);
                                if x == old_m {
                                } else {
                                    lemma_value_order_trans(x, old_m, m@);
                                }
                            } else {
                                lemma_value_order_basics(m@, m@);
                            }
                        }
                    }
                },
                _ => {
                    proof {
                        lemma_value_order_basics(key@, m@);
                    }
                },
            }
            k = k + 1;
        }
        m
    }

    /// The values common to all iterators, in increasing order; none when
    /// there are no iterators.
    pub fn intersect(&mut self) -> (r: Vec<Value>)
        ensures
            strictly_sorted(values_view(r@)),
            forall|v: VValue|
                #[trigger] values_view(r@).contains(v) <==> (old(self).iters().len() > 0 && in_all(
                    remainings(old(self).iters()),
                    v,
                )),
    {
        let mut results: Vec<Value> = Vec::new();
        proof {
            lemma_values_view(results@);
        }
        let n = self.iterators.len();
        if n == 0 {
            return results;
        }
        let ghost r0 = remainings(self.iterators@);
        let mut k: usize = 0;
        while k < n
            invariant
                k <= n,
                n == self.iterators@.len(),
                r0 == remainings(self.iterators@),
                r0 == remainings(old(self).iters()),
                values_view(results@) == Seq::<VValue>::empty(),
                forall|j: int| 0 <= j < k ==> strictly_sorted(#[trigger] r0[j]),
                forall|j: int| 0 <= j < k ==> #[trigger] r0[j].len() > 0,
            decreases n - k,
        {
            self.iterators[k].sorted_keys();
            if self.iterators[k].at_end() {
                proof {
                    assert forall|v: VValue| !#[trigger] in_all(r0, v) by {
                        assert(!r0[k as int].contains(v));
                    }
                }
                return results;
            }
            k = k + 1;
        }
        proof {
            assert(leapfrog_state(r0, r0, values_view(results@)));
        }
        loop
            invariant
                n == self.iterators@.len(),
                r0 == remainings(old(self).iters()),
                leapfrog_state(r0, remainings(self.iterators@), values_view(results@)),
            decreases total_len(remainings(self.iterators@)),
        {
            let ghost before = remainings(self.iterators@);
            let ghost res0 = values_view(results@);
            proof {
                assert forall|j: int| 0 <= j < n implies #[trigger] self.iterators@[j].remaining().len() > 0 by {
                    assert(before[j] == self.iterators@[j].remaining());
                }
            }
            let m = self.find_max_key();
            let ghost k0 = choose|j: int| 0 <= j < n && #[trigger] self.iterators@[j].remaining()[0] == m@;
            proof {
                assert(before[k0] == self.iterators@[k0].remaining());
                assert(before[k0][0] == m@);
                assert forall|j: int| 0 <= j < n implies value_order(#[trigger] before[j][0], m@) <= 0 by {
                    assert(before[j] == self.iterators@[j].remaining());
                }
                // every common value not yet found is at least `m`
                assert forall|v: VValue| #[trigger] in_all(r0, v) && !res0.contains(v) implies value_order(v, m@) >= 0 by {
                    assert(before[k0].contains(v));
                    let q = choose|q: int| 0 <= q < before[k0].len() && before[k0][q] == v;
                    if q > 0 {
                        lemma_value_order_basics(m@, v);
                    } else {
                        lemma_value_order_basics(v, v);
                    }
                }
            }
            let mut all_at_max = true;
            k = 0;
            while k < n
                invariant
                    k <= n,
                    n == self.iterators@.len(),
                    before.len() == n,
                    r0 == remainings(old(self).iters()),
                    leapfrog_state(r0, before, res0),
                    values_view(results@) == res0,
                    0 <= k0 < n,
                    before[k0][0] == m@,
                    forall|j: int| 0 <= j < n ==> value_order(#[trigger] before[j][0], m@) <= 0,
                    forall|v: VValue| #[trigger] in_all(r0, v) && !res0.contains(v) ==> value_order(v, m@) >= 0,
                    forall|j: int| 0 <= j < k ==> #[trigger] remainings(self.iterators@)[j] == drop_below(before[j], m@),
                    forall|j: int| 0 <= j < k ==> #[trigger] remainings(self.iterators@)[j].len() > 0,
                    forall|j: int| k <= j < n ==> #[trigger] remainings(self.iterators@)[j] == before[j],
                    all_at_max ==> forall|j: int| 0 <= j < k ==> #[trigger] remainings(self.iterators@)[j][0] == m@,
                    !all_at_max ==> exists|j: int| 0 <= j < k && #[trigger] remainings(self.iterators@)[j].len() < before[j].len(),
                decreases n - k,
            {
                let ghost its0 = self.iterators@;
                let ghost was_all = all_at_max;
                let mut it = self.iterators.remove(k);
                proof {
                    assert(remainings(its0)[k as int] == before[k as int]);
                    assert(it.remaining() == before[k as int]);
                    lemma_drop_below(before[k as int], m@);
                }
                it.seek(&m);
                if it.at_end() {
                    self.iterators.insert(k, it);
                    proof {
                        assert forall|v: VValue| #[trigger] in_all(r0, v) implies res0.contains(v) by {
                            if !res0.contains(v) {
                                assert(in_all(before, v));
                                assert(before[k as int].contains(v));
                                assert(value_order(v, m@) >= 0);
                                assert(drop_below(before[k as int], m@).contains(v));
                            }
                        }
                    }
                    return results;
                }
                let same = match it.key() {
                    Some(v) => value_eq(v, &m),
                    None => false,
                };
                if !same {
                    all_at_max = false;
                    proof {
                        lemma_value_order_basics(before[k as int][0], m@);
                    }
                }
                let ghost itv = it;
                self.iterators.insert(k, it);
                proof {
                    assert(self.iterators@ =~= its0.update(k as int, itv));
                    assert(remainings(self.iterators@)[k as int] == drop_below(before[k as int], m@));
                    lemma_value_order_basics(before[k as int][0], m@);
                    if !same {
                        assert(remainings(self.iterators@)[k as int].len() < before[k as int].len());
                    } else {
                        assert(remainings(self.iterators@)[k as int][0] == m@);
                    }
                    if !was_all {
                        let j = choose|j: int| 0 <= j < k && #[trigger] remainings(its0)[j].len() < before[j].len();
                        assert(self.iterators@[j] == its0[j]);
                        assert(remainings(self.iterators@)[j] == remainings(its0)[j]);
                    }
                    assert forall|j: int| 0 <= j < n && j != k implies #[trigger] remainings(self.iterators@)[j]
                        == remainings(its0)[j] by {
                        assert(self.iterators@[j] == its0[j]);
                    }
                }
                k = k + 1;
            }
            let ghost cur = remainings(self.iterators@);
            proof {
                assert forall|j: int| 0 <= j < n implies strictly_sorted(#[trigger] cur[j]) && cur[j].len() <= before[j].len()
                    && (forall|v: VValue| #[trigger] cur[j].contains(v) <==> (before[j].contains(v) && value_order(v, m@) >= 0)) by {
                    lemma_drop_below(before[j], m@);
                }
                assert forall|v: VValue| #[trigger] in_all(r0, v) && !res0.contains(v) implies in_all(cur, v) by {
                    assert forall|j: int| 0 <= j < cur.len() implies #[trigger] cur[j].contains(v) by {
                        assert(in_all(before, v));
                        assert(before[j].contains(v));
                    }
                }
            }
            if all_at_max {
                let ghost mv = m@;
                let ghost old_r = results@;
                proof {
                    assert forall|j: int| 0 <= j < n implies #[trigger] r0[j].contains(mv) by {
                        assert(cur[j][0] == mv);
                        assert(cur[j].contains(mv));
                    }
                    assert(in_all(r0, mv));
                }
                results.push(m);
                proof {
                    assert(results@.drop_last() =~= old_r);
                    assert(values_view(results@) == res0.push(mv));
                    assert forall|v: VValue| #[trigger] res0.push(mv).contains(v) implies in_all(r0, v) by {
                        let q = choose|q: int| 0 <= q < res0.push(mv).len() && res0.push(mv)[q] == v;
                        if q < res0.len() {
                            assert(res0[q] == v);
                            assert(res0.contains(v));
                        }
                    }
                    assert forall|a: int, b: int| 0 <= a < b < res0.push(mv).len() implies value_order(#[trigger] res0.push(mv)[a], #[trigger] res0.push(mv)[b]) < 0 by {
                        if b < res0.len() {
                        } else {
                            assert(before[k0].contains(mv));
                        }
                    }
                }
                k = 0;
                while k < n
                    invariant
                        k <= n,
                        n == self.iterators@.len(),
                        cur.len() == n,
                        r0.len() == n,
                        r0 == remainings(old(self).iters()),
                        values_view(results@) == res0.push(mv),
                        forall|j: int| 0 <= j < n ==> #[trigger] cur[j].len() > 0 && cur[j][0] == mv,
                        forall|j: int| 0 <= j < k ==> #[trigger] remainings(self.iterators@)[j] == cur[j].drop_first(),
                        forall|j: int| 0 <= j < k ==> #[trigger] remainings(self.iterators@)[j].len() > 0,
                        forall|j: int| k <= j < n ==> #[trigger] remainings(self.iterators@)[j] == cur[j],
                        forall|v: VValue| #[trigger] in_all(r0, v) && !res0.contains(v) ==> in_all(cur, v),
                        forall|v: VValue| #[trigger] values_view(results@).contains(v) ==> in_all(r0, v),
                        strictly_sorted(values_view(results@)),
                    decreases n - k,
                {
                    let ghost its0 = self.iterators@;
                    let mut it = self.iterators.remove(k);
                    proof {
                        assert(remainings(its0)[k as int] == cur[k as int]);
                    }
                    it.next();
                    let end = it.at_end();
                    let ghost itv = it;
                    self.iterators.insert(k, it);
                    proof {
                        assert(self.iterators@ =~= its0.update(k as int, itv));
                        assert forall|j: int| 0 <= j < n && j != k implies #[trigger] remainings(self.iterators@)[j]
                            == remainings(its0)[j] by {
                            assert(self.iterators@[j] == its0[j]);
                        }
                    }
                    if end {
                        proof {
                            assert(itv.remaining() == cur[k as int].drop_first());
                            assert(cur[k as int].len() == 1);
                            assert forall|v: VValue| #[trigger] in_all(r0, v) implies values_view(results@).contains(v) by {
                                if !res0.contains(v) && v != mv {
                                    assert(cur[k as int].contains(v));
                                    let q = choose|q: int| 0 <= q < cur[k as int].len() && cur[k as int][q] == v;
                                    assert(q == 0);
                                }
                                if res0.contains(v) {
                                    let q = choose|q: int| 0 <= q < res0.len() && res0[q] == v;
                                    assert(values_view(results@)[q] == v);
                                }
                                if v == mv {
                                    assert(values_view(results@)[res0.len() as int] == v);
                                }
                            }
                        }
                        return results;
                    }
                    k = k + 1;
                }
                proof {
                    let after = remainings(self.iterators@);
                    let res1 = values_view(results@);
                    assert forall|j: int| 0 <= j < n implies #[trigger] after[j].len() < before[j].len() by {
                        assert(after[j] == cur[j].drop_first());
                    }
                    assert forall|j: int| 0 <= j < n implies strictly_sorted(#[trigger] after[j]) by {
                        let c = cur[j];
                        let t = after[j];
                        assert(t == c.drop_first());
                        assert forall|a: int, b: int| 0 <= a < b < t.len() implies value_order(#[trigger] t[a], #[trigger] t[b]) < 0 by {
                            assert(t[a] == c[a + 1] && t[b] == c[b + 1]);
                        }
                    }
                    assert forall|j: int, v: VValue| 0 <= j < n && #[trigger] after[j].contains(v) implies r0[j].contains(v) by {
                        let q = choose|q: int| 0 <= q < after[j].len() && after[j][q] == v;
                        assert(cur[j][q + 1] == v);
                        assert(cur[j].contains(v));
                    }
                    assert forall|i: int, j: int, v: VValue|
                        0 <= i < res1.len() && 0 <= j < n && #[trigger] after[j].contains(v) implies value_order(
                        #[trigger] res1[i],
                        v,
                    ) < 0 by {
                        let q = choose|q: int| 0 <= q < after[j].len() && after[j][q] == v;
                        assert(cur[j][q + 1] == v);
                        assert(cur[j].contains(v));
                        assert(before[j].contains(v));
                        if i < res0.len() {
                            assert(res1[i] == res0[i]);
                        } else {
                            assert(res1[i] == mv);
                            assert(cur[j][0] == mv);
                        }
                    }
                    assert forall|a: int, b: int| 0 <= a < b < res1.len() implies value_order(#[trigger] res1[a], #[trigger] res1[b]) < 0 by {
                        if b < res0.len() {
                            assert(res1[a] == res0[a] && res1[b] == res0[b]);
                        } else {
                            assert(res1[b] == mv);
                            assert(res1[a] == res0[a]);
                            assert(cur[k0].contains(mv));
                            assert(before[k0].contains(mv));
                        }
                    }
                    assert forall|v: VValue| #[trigger] in_all(r0, v) implies res1.contains(v) || in_all(after, v) by {
                        if !res0.contains(v) && v != mv {
                            assert forall|j: int| 0 <= j < after.len() implies #[trigger] after[j].contains(v) by {
                                assert(cur[j].contains(v));
                                let q = choose|q: int| 0 <= q < cur[j].len() && cur[j][q] == v;
                                assert(q != 0);
                                assert(after[j][q - 1] == v);
                            }
                        }
                        if res0.contains(v) {
                            let q = choose|q: int| 0 <= q < res0.len() && res0[q] == v;
                            assert(res1[q] == v);
                        }
                        if v == mv {
                            assert(res1[res0.len() as int] == v);
                        }
                    }
                    assert(leapfrog_state(r0, after, res1));
                    lemma_total_len(after, before);
                    assert(after[0].len() < before[0].len());
                }
            } else {
                proof {
                    assert(forall|j: int| 0 <= j < n ==> #[trigger] cur[j].len() > 0);
                    assert forall|j: int, v: VValue| 0 <= j < n && #[trigger] cur[j].contains(v) implies r0[j].contains(v) by {
                        assert(before[j].contains(v));
                    }
                    assert forall|i: int, j: int, v: VValue|
                        0 <= i < res0.len() && 0 <= j < n && #[trigger] cur[j].contains(v) implies value_order(
                        #[trigger] res0[i],
                        v,
                    ) < 0 by {
                        assert(before[j].contains(v));
                    }
                    assert(leapfrog_state(r0, cur, res0));
                    lemma_total_len(cur, before);
                }
            }
        }
    }
}

/// The greatest depth among iterators.
pub open spec fn max_depth<I: LeapfrogIterator>(its: Seq<I>) -> nat
    decreases its.len(),
{
    if its.len() == 0 {
        0
    } else {
        let d = its.last().depth();
        let rest = max_depth(its.drop_last());
        if d > rest { d } else { rest }
    }
}

/// No iterator is deeper than the greatest depth.
proof fn lemma_max_depth<I: LeapfrogIterator>(its: Seq<I>)
    ensures
        forall|j: int| 0 <= j < its.len() ==> #[trigger] its[j].depth() <= max_depth(its),
    decreases its.len(),
{
    if its.len() > 0 {
        lemma_max_depth(its.drop_last());
        assert forall|j: int| 0 <= j < its.len() implies #[trigger] its[j].depth() <= max_depth(its) by {
            if j < its.len() - 1 {
                assert(its.drop_last()[j] == its[j]);
            }
        }
    }
}

/// Iterators all shallower than a bound have a greatest depth below it.
proof fn lemma_max_depth_below<I: LeapfrogIterator>(its: Seq<I>, bound: nat)
    requires
        bound > 0,
        forall|j: int| 0 <= j < its.len() ==> #[trigger] its[j].depth() < bound,
    ensures
        max_depth(its) < bound,
    decreases its.len(),
{
    if its.len() > 0 {
        let rest = its.drop_last();
        assert forall|j: int| 0 <= j < rest.len() implies #[trigger] rest[j].depth() < bound by {
            assert(rest[j] == its[j]);
        }
        lemma_max_depth_below(rest, bound);
    }
}

/// Model of an iterator's place: the values left at its level, and the
/// levels below its values.
pub struct VLevel {
    /// Values left
    pub rem: Seq<VValue>,
    /// Levels below, by value
    pub below: Seq<(VValue, VTrie)>,
}

/// The model of an iterator's place.
pub open spec fn level_of<I: LeapfrogIterator>(it: I) -> VLevel {
    VLevel { rem: it.remaining(), below: it.below() }
}

/// The models of the places of iterators.
pub open spec fn levels<I: LeapfrogIterator>(its: Seq<I>) -> Seq<VLevel> {
    its.map_values(|it: I| level_of(it))
}

/// The values of a set in strictly increasing order.
pub open spec fn sorted_values(s: Set<VValue>) -> Seq<VValue> {
    choose|q: Seq<VValue>| strictly_sorted(q) && q.to_set() == s
}

/// The level below the current value, if that value has one: its values
/// in increasing order, at the first, and the levels below them.
pub open spec fn opened(l: VLevel) -> Option<VLevel> {
    if l.rem.len() == 0 {
        None
    } else {
        match child_position(l.below, l.rem[0]) {
            Some(i) => Some(VLevel { rem: sorted_values(l.below[i].1.values.to_set()), below: l.below[i].1.children }),
            None => None,
        }
    }
}

/// The levels opened below each place that has one, in order.
pub open spec fn opened_all(ls: Seq<VLevel>) -> Seq<VLevel>
    decreases ls.len(),
{
    if ls.len() == 0 {
        Seq::empty()
    } else {
        let rest = opened_all(ls.drop_last());
        match opened(ls.last()) {
            Some(c) => rest.push(c),
            None => rest,
        }
    }
}

/// There are places, and all are at one same current value.
pub open spec fn heads_agree(ls: Seq<VLevel>) -> bool {
    &&& ls.len() > 0
    &&& forall|k: int| 0 <= k < ls.len() ==> #[trigger] ls[k].rem.len() > 0 && ls[k].rem[0] == ls[0].rem[0]
}

/// The next tuple of a join of places, looking at most `fuel` levels deep:
/// the common current value followed by the next tuple of the levels
/// opened below, when all places agree and the levels below give one.
pub open spec fn join_next(ls: Seq<VLevel>, fuel: nat) -> Option<Seq<VValue>>
    decreases fuel,
{
    if fuel == 0 || !heads_agree(ls) {
        None
    } else {
        let cs = opened_all(ls);
        if cs.len() == 0 {
            Some(seq![ls[0].rem[0]])
        } else {
            match join_next(cs, (fuel - 1) as nat) {
                Some(t) => Some(seq![ls[0].rem[0]] + t),
                None => None,
            }
        }
    }
}

/// The greatest height of the levels below the places.
pub open spec fn levels_height(ls: Seq<VLevel>) -> nat
    decreases ls.len(),
{
    if ls.len() == 0 {
        0
    } else {
        let h = children_height(ls.last().below);
        let rest = levels_height(ls.drop_last());
        if h > rest { h } else { rest }
    }
}

/// No place is higher than the greatest height; places all lower than a
/// positive bound have their greatest height below it.
proof fn lemma_levels_height(ls: Seq<VLevel>, bound: nat)
    ensures
        forall|j: int| 0 <= j < ls.len() ==> children_height(#[trigger] ls[j].below) <= levels_height(ls),
        (bound > 0 && forall|j: int| 0 <= j < ls.len() ==> children_height(#[trigger] ls[j].below) < bound)
            ==> levels_height(ls) < bound,
    decreases ls.len(),
{
    if ls.len() > 0 {
        let rest = ls.drop_last();
        lemma_levels_height(rest, bound);
        assert forall|j: int| 0 <= j < ls.len() implies children_height(#[trigger] ls[j].below) <= levels_height(ls) by {
            if j < ls.len() - 1 {
                assert(rest[j] == ls[j]);
            }
        }
        if bound > 0 && forall|j: int| 0 <= j < ls.len() ==> children_height(#[trigger] ls[j].below) < bound {
            assert forall|j: int| 0 <= j < rest.len() implies children_height(#[trigger] rest[j].below) < bound by {
                assert(rest[j] == ls[j]);
            }
        }
    }
}

/// A level opened below a place has lower levels below it than the place.
proof fn lemma_opened_height(l: VLevel)
    ensures
        opened(l) matches Some(c) ==> children_height(c.below) < children_height(l.below),
{
    if l.rem.len() > 0 {
        lemma_position_from(l.below, l.rem[0], 0);
        lemma_children_height(l.below);
    }
}

/// Each level opened below places is the level opened below one of them.
proof fn lemma_opened_all(ls: Seq<VLevel>)
    ensures
        forall|j: int| 0 <= j < opened_all(ls).len() ==> exists|k: int| 0 <= k < ls.len() && opened(#[trigger] ls[k]) == Some(
            #[trigger] opened_all(ls)[j],
        ),
    decreases ls.len(),
{
    if ls.len() > 0 {
        let rest = ls.drop_last();
        lemma_opened_all(rest);
        assert forall|j: int| 0 <= j < opened_all(ls).len() implies exists|k: int| 0 <= k < ls.len() && opened(#[trigger] ls[k])
            == Some(#[trigger] opened_all(ls)[j]) by {
            if j < opened_all(rest).len() {
                let k = choose|k: int| 0 <= k < rest.len() && opened(#[trigger] rest[k]) == Some(opened_all(rest)[j]);
                assert(rest[k] == ls[k]);
            } else {
                assert(opened(ls[ls.len() - 1]) == Some(opened_all(ls)[j]));
            }
        }
    }
}

/// The levels opened below places that agree are lower than the places.
proof fn lemma_opened_all_height(ls: Seq<VLevel>)
    requires
        opened_all(ls).len() > 0,
    ensures
        levels_height(opened_all(ls)) < levels_height(ls),
{
    let cs = opened_all(ls);
    lemma_opened_all(ls);
    lemma_levels_height(ls, 0);
    assert forall|j: int| 0 <= j < cs.len() implies children_height(#[trigger] cs[j].below) < levels_height(ls) by {
        let k = choose|k: int| 0 <= k < ls.len() && opened(#[trigger] ls[k]) == Some(cs[j]);
        lemma_opened_height(ls[k]);
    }
    assert(children_height(cs[0].below) < levels_height(ls));
    lemma_levels_height(cs, levels_height(ls));
}

/// Any fuel above the greatest height gives the same next tuple.
proof fn lemma_join_fuel(ls: Seq<VLevel>, f1: nat, f2: nat)
    requires
        f1 > levels_height(ls),
        f2 > levels_height(ls),
    ensures
        join_next(ls, f1) == join_next(ls, f2),
    decreases f1,
{
    if heads_agree(ls) {
        let cs = opened_all(ls);
        if cs.len() > 0 {
            lemma_opened_all_height(ls);
            lemma_join_fuel(cs, (f1 - 1) as nat, (f2 - 1) as nat);
        }
    }
}

/// Two strictly increasing sequences of the same values are the same.
proof fn lemma_sorted_unique(a: Seq<VValue>, b: Seq<VValue>)
    requires
        strictly_sorted(a),
        strictly_sorted(b),
        a.to_set() == b.to_set(),
    ensures
        a == b,
    decreases a.len(),
{
    if a.len() == 0 {
        if b.len() > 0 {
            assert(b.to_set().contains(b[0]));
        }
        assert(a =~= b);
    } else {
        assert(a.to_set().contains(a[0]));
        assert(b.to_set().contains(a[0]));
        assert(b.len() > 0);
        assert(b.to_set().contains(b[0]));
        assert(a.to_set().contains(b[0]));
        let j = choose|j: int| 0 <= j < b.len() && b[j] == a[0];
        let i = choose|i: int| 0 <= i < a.len() && a[i] == b[0];
        lemma_value_order_basics(a[0], a[0]);
        lemma_value_order_basics(a[0], b[0]);
        if j > 0 {
            assert(value_order(b[0], b[j]) < 0);
            if i > 0 {
                assert(value_order(a[0], a[i]) < 0);
            }
        }
        assert(a[0] == b[0]);
        let a1 = a.drop_first();
        let b1 = b.drop_first();
        assert forall|x: VValue| a1.to_set().contains(x) implies b1.to_set().contains(x) by {
            let p = choose|p: int| 0 <= p < a1.len() && a1[p] == x;
            assert(a[p + 1] == x);
            assert(value_order(a[0], a[p + 1]) < 0);
            lemma_value_order_basics(a[0], x);
            assert(b.to_set().contains(x));
            let q = choose|q: int| 0 <= q < b.len() && b[q] == x;
            assert(q != 0);
            assert(b1[q - 1] == x);
        }
        assert forall|x: VValue| b1.to_set().contains(x) implies a1.to_set().contains(x) by {
            let p = choose|p: int| 0 <= p < b1.len() && b1[p] == x;
            assert(b[p + 1] == x);
            assert(value_order(b[0], b[p + 1]) < 0);
            lemma_value_order_basics(b[0], x);
            assert(a.to_set().contains(x));
            let q = choose|q: int| 0 <= q < a.len() && a[q] == x;
            assert(q != 0);
            assert(a1[q - 1] == x);
        }
        assert(a1.to_set() =~= b1.to_set());
        assert forall|x: int, y: int| 0 <= x < y < a1.len() implies value_order(#[trigger] a1[x], #[trigger] a1[y]) < 0 by {
            assert(a1[x] == a[x + 1] && a1[y] == a[y + 1]);
        }
        assert forall|x: int, y: int| 0 <= x < y < b1.len() implies value_order(#[trigger] b1[x], #[trigger] b1[y]) < 0 by {
            assert(b1[x] == b[x + 1] && b1[y] == b[y + 1]);
        }
        lemma_sorted_unique(a1, b1);
        assert(a =~= seq![a[0]] + a1);
        assert(b =~= seq![b[0]] + b1);
    }
}

impl<I: LeapfrogIterator> LeapfrogJoin<I> {
    /// The next tuple of the join: when every iterator is at the same value,
    /// that value followed by the next tuple of the join of the levels below
    /// (when there are any); then every iterator moves on. Nothing, and no
    /// move, when there are no iterators, when the first is at its end, when
    /// the current values differ, or when the levels below give nothing.
    pub fn next_tuple(&mut self) -> (r: Option<Vec<Value>>)
        ensures
            ({
                let rs0 = remainings(old(self).iters());
                let ls0 = levels(old(self).iters());
                &&& r is None <==> join_next(ls0, levels_height(ls0) + 1) is None
                &&& r matches Some(t) ==> join_next(ls0, levels_height(ls0) + 1) == Some(values_view(t@))
                &&& r matches Some(_) ==> forall|k: int| 0 <= k < rs0.len() ==> #[trigger] levels(final(self).iters())[k].below == ls0[k].below
                &&& old(self).iters().len() == 0 ==> r is None
                &&& (old(self).iters().len() > 0 && rs0[0].len() == 0) ==> r is None
                &&& (exists|k: int| 0 <= k < rs0.len() && (#[trigger] rs0[k].len() == 0 || rs0[k][0] != rs0[0][0])) ==> r is None
                &&& r is None ==> final(self).iters() == old(self).iters()
                &&& r matches Some(t) ==> {
                    &&& rs0.len() > 0
                    &&& t@.len() >= 1
                    &&& t@[0]@ == rs0[0][0]
                    &&& forall|k: int| 0 <= k < rs0.len() ==> #[trigger] rs0[k].len() > 0 && rs0[k][0] == rs0[0][0]
                    &&& remainings(final(self).iters()).len() == rs0.len()
                    &&& forall|k: int| 0 <= k < rs0.len() ==> #[trigger] remainings(final(self).iters())[k] == rs0[k].drop_first()
                }
            }),
        decreases max_depth(self.iters()),
    {
        let ghost rs0 = remainings(self.iterators@);
        let ghost ls0 = levels(self.iterators@);
        let ghost fuel = levels_height(ls0) + 1;
        let n = self.iterators.len();
        if n == 0 {
            return None;
        }
        let first_key = match self.iterators[0].key() {
            Some(v) => value_clone(v),
            None => {
                proof {
                    assert(ls0[0].rem == rs0[0]);
                }
                return None;
            },
        };
        let mut k: usize = 0;
        while k < n
            invariant
                k <= n,
                n == self.iterators@.len(),
                rs0 == remainings(self.iterators@),
                ls0 == levels(self.iterators@),
                fuel == levels_height(ls0) + 1,
                rs0[0].len() > 0,
                first_key@ == rs0[0][0],
                forall|j: int| 0 <= j < k ==> #[trigger] rs0[j].len() > 0 && rs0[j][0] == rs0[0][0],
            decreases n - k,
        {
            match self.iterators[k].key() {
                Some(v) => {
                    if !value_eq(v, &first_key) {
                        proof {
                            assert(ls0[k as int].rem == rs0[k as int]);
                            assert(ls0[0].rem == rs0[0]);
                            assert(!heads_agree(ls0));
                        }
                        return None;
                    }
                },
                None => {
                    proof {
                        assert(ls0[k as int].rem == rs0[k as int]);
                        assert(!heads_agree(ls0));
                    }
                    return None;
                },
            }
            k = k + 1;
        }
        proof {
            assert(heads_agree(ls0)) by {
                assert forall|j: int| 0 <= j < ls0.len() implies #[trigger] ls0[j].rem.len() > 0 && ls0[j].rem[0] == ls0[0].rem[0] by {
                    assert(ls0[j].rem == rs0[j]);
                    assert(ls0[0].rem == rs0[0]);
                }
            }
        }
        let ghost head = rs0[0][0];
        let mut tuple: Vec<Value> = Vec::new();
        tuple.push(first_key);
        let mut child_iters: Vec<I> = Vec::new();
        proof {
            lemma_max_depth(self.iterators@);
            assert(ls0.take(0) =~= Seq::<VLevel>::empty());
            assert(levels(child_iters@) =~= opened_all(ls0.take(0)));
        }
        k = 0;
        while k < n
            invariant
                k <= n,
                n == self.iterators@.len(),
                rs0 == remainings(self.iterators@),
                ls0 == levels(self.iterators@),
                levels(child_iters@) == opened_all(ls0.take(k as int)),
                forall|j: int| 0 <= j < self.iterators@.len() ==> #[trigger] self.iterators@[j].depth() <= max_depth(self.iterators@),
                forall|j: int| 0 <= j < child_iters@.len() ==> #[trigger] child_iters@[j].depth() < max_depth(self.iterators@),
            decreases n - k,
        {
            let ghost before = child_iters@;
            proof {
                assert(ls0.take(k + 1).drop_last() =~= ls0.take(k as int));
                assert(ls0.take(k + 1).last() == level_of(self.iterators@[k as int]));
            }
            match self.iterators[k].open() {
                Some(child) => {
                    child_iters.push(child);
                    proof {
                        assert(levels(child_iters@) =~= levels(before).push(level_of(child)));
                    }
                },
                None => {},
            }
            k = k + 1;
        }
        proof {
            assert(ls0.take(n as int) =~= ls0);
        }
        let ghost cs = opened_all(ls0);
        if child_iters.len() > 0 {
            proof {
                assert(child_iters@[0].depth() < max_depth(self.iterators@));
                lemma_max_depth_below(child_iters@, max_depth(self.iterators@));
                lemma_opened_all_height(ls0);
                lemma_join_fuel(cs, levels_height(cs) + 1, levels_height(ls0));
            }
            let mut child_join = LeapfrogJoin::new(child_iters);
            match child_join.next_tuple() {
                Some(child_tuple) => {
                    let ghost tv = values_view(tuple@);
                    let ghost cv = values_view(child_tuple@);
                    let mut rest = child_tuple;
                    proof {
                        lemma_values_view(tuple@);
                        lemma_values_view(rest@);
                    }
                    tuple.append(&mut rest);
                    proof {
                        lemma_values_view(tuple@);
                        assert(values_view(tuple@) =~= seq![head] + cv);
                        assert(ls0[0].rem == rs0[0]);
                        assert(join_next(ls0, fuel) == Some(values_view(tuple@)));
                    }
                },
                None => {
                    proof {
                        assert(join_next(ls0, fuel) is None);
                    }
                    return None;
                },
            }
        } else {
            proof {
                lemma_values_view(tuple@);
                assert(values_view(tuple@) =~= seq![head]);
                assert(ls0[0].rem == rs0[0]);
                assert(join_next(ls0, fuel) == Some(values_view(tuple@)));
            }
        }
        let ghost result_view = values_view(tuple@);
        k = 0;
        while k < n
            invariant
                k <= n,
                n == self.iterators@.len(),
                rs0.len() == n,
                forall|j: int| 0 <= j < n ==> #[trigger] rs0[j].len() > 0 && rs0[j][0] == rs0[0][0],
                forall|j: int| 0 <= j < k ==> #[trigger] remainings(self.iterators@)[j] == rs0[j].drop_first(),
                forall|j: int| k <= j < n ==> #[trigger] remainings(self.iterators@)[j] == rs0[j],
                forall|j: int| 0 <= j < n ==> #[trigger] levels(self.iterators@)[j].below == ls0[j].below,
                join_next(ls0, fuel) == Some(result_view),
                result_view == values_view(tuple@),
            decreases n - k,
        {
            let ghost its0 = self.iterators@;
            let mut it = self.iterators.remove(k);
            proof {
                assert(remainings(its0)[k as int] == rs0[k as int]);
            }
            it.next();
            let ghost itv = it;
            self.iterators.insert(k, it);
            proof {
                assert(self.iterators@ =~= its0.update(k as int, itv));
                assert forall|j: int| 0 <= j < n && j != k implies #[trigger] remainings(self.iterators@)[j]
                    == remainings(its0)[j] by {
                    assert(self.iterators@[j] == its0[j]);
                }
                assert forall|j: int| 0 <= j < n implies #[trigger] levels(self.iterators@)[j].below == ls0[j].below by {
                    assert(levels(its0)[j].below == ls0[j].below);
                    if j != k {
                        assert(self.iterators@[j] == its0[j]);
                    } else {
                        assert(self.iterators@[j] == itv);
                        assert(itv.below() == its0[j].below());
                    }
                }
            }
            k = k + 1;
        }
        Some(tuple)
    }
}

/// Model of a trie level: the values seen at this level in order of first
/// insertion, and the levels below them by value.
pub struct VTrie {
    /// Values at this level
    pub values: Seq<VValue>,
    /// The level below each value that had one
    pub children: Seq<(VValue, VTrie)>,
}

/// Trie node for organizing the arguments of facts level by level.
#[derive(Debug)]
pub struct TrieNode {
    values: Vec<Value>,
    children: Vec<(Value, TrieNode)>,
}

/// Model of a trie node.
pub closed spec fn trie_view(n: TrieNode) -> VTrie
    decreases n, 0nat,
{
    VTrie { values: values_view(n.values@), children: children_view(n.children@) }
}

/// Models of a node's children.
pub closed spec fn children_view(s: Seq<(Value, TrieNode)>) -> Seq<(VValue, VTrie)>
    decreases s, 1nat,
{
    if s.len() == 0 {
        Seq::empty()
    } else {
        proof {
            assert(decreases_to!(s => s[s.len() - 1]));
            assert(decreases_to!(s[s.len() - 1] => s[s.len() - 1].1));
        }
        children_view(s.drop_last()).push((s.last().0@, trie_view(s.last().1)))
    }
}

/// The models of a node's children, one by one.
proof fn lemma_children_view(s: Seq<(Value, TrieNode)>)
    ensures
        children_view(s).len() == s.len(),
        forall|i: int| 0 <= i < s.len() ==> #[trigger] children_view(s)[i] == (s[i].0@, trie_view(s[i].1)),
    decreases s.len(),
{
    if s.len() > 0 {
        lemma_children_view(s.drop_last());
    }
}

/// The first position, from `i` on, of a value among the children's keys.
pub open spec fn position_from(children: Seq<(VValue, VTrie)>, v: VValue, i: int) -> Option<int>
    decreases children.len() - i,
{
    if i < 0 || i >= children.len() {
        None
    } else if children[i].0 == v {
        Some(i)
    } else {
        position_from(children, v, i + 1)
    }
}

/// The first position of a value among the children's keys, if any.
pub open spec fn child_position(children: Seq<(VValue, VTrie)>, v: VValue) -> Option<int> {
    position_from(children, v, 0)
}

/// A position found from `i` on holds the value; none found means no key
/// from `i` on is the value.
proof fn lemma_position_from(children: Seq<(VValue, VTrie)>, v: VValue, i: int)
    requires
        0 <= i,
    ensures
        position_from(children, v, i) matches Some(k) ==> i <= k < children.len() && children[k].0 == v,
        position_from(children, v, i) is None ==> forall|j: int| i <= j < children.len() ==> children[j].0 != v,
    decreases children.len() - i,
{
    if i < children.len() && children[i].0 != v {
        lemma_position_from(children, v, i + 1);
    }
}

/// An empty trie level.
pub open spec fn empty_trie() -> VTrie {
    VTrie { values: Seq::empty(), children: Seq::empty() }
}

/// A trie after inserting a path: its first value is added to the level if
/// new, and the rest of the path goes into the level below that value,
/// which is made when missing.
pub open spec fn trie_insert(t: VTrie, path: Seq<VValue>) -> VTrie
    decreases path.len(),
{
    if path.len() == 0 {
        t
    } else {
        let first = path[0];
        let values = if t.values.contains(first) { t.values } else { t.values.push(first) };
        if path.len() == 1 {
            VTrie { values, children: t.children }
        } else {
            match child_position(t.children, first) {
                Some(i) => VTrie {
                    values,
                    children: t.children.update(i, (first, trie_insert(t.children[i].1, path.drop_first()))),
                },
                None => VTrie {
                    values,
                    children: t.children.push((first, trie_insert(empty_trie(), path.drop_first()))),
                },
            }
        }
    }
}

/// The height of a trie: one more than the highest level below it.
pub open spec fn trie_height(t: VTrie) -> nat
    decreases t, 0nat,
{
    1 + children_height(t.children)
}

/// The greatest height among the levels below.
pub open spec fn children_height(s: Seq<(VValue, VTrie)>) -> nat
    decreases s, 1nat,
{
    if s.len() == 0 {
        0
    } else {
        proof {
            assert(decreases_to!(s => s[s.len() - 1]));
            assert(decreases_to!(s[s.len() - 1] => s[s.len() - 1].1));
        }
        let h = trie_height(s.last().1);
        let rest = children_height(s.drop_last());
        if h > rest { h } else { rest }
    }
}

/// No level below is higher than the greatest height.
proof fn lemma_children_height(s: Seq<(VValue, VTrie)>)
    ensures
        forall|i: int| 0 <= i < s.len() ==> trie_height(#[trigger] s[i].1) <= children_height(s),
    decreases s.len(),
{
    if s.len() > 0 {
        lemma_children_height(s.drop_last());
        assert forall|i: int| 0 <= i < s.len() implies trie_height(#[trigger] s[i].1) <= children_height(s) by {
            if i < s.len() - 1 {
                assert(s.drop_last()[i] == s[i]);
            }
        }
    }
}

/// Position of a value among the keys of children, the first one if any.
fn find_child(children: &Vec<(Value, TrieNode)>, v: &Value) -> (r: Option<usize>)
    ensures
        ({
            let cv = children_view(children@);
            match r {
                Some(i) => i < children@.len() && child_position(cv, v@) == Some(i as int),
                None => child_position(cv, v@) is None,
            }
        }),
{
    proof {
        lemma_children_view(children@);
    }
    let ghost cv = children_view(children@);
    let mut i: usize = 0;
    while i < children.len()
        invariant
            i <= children@.len(),
            cv == children_view(children@),
            cv.len() == children@.len(),
            forall|j: int| 0 <= j < children@.len() ==> #[trigger] cv[j] == (children@[j].0@, trie_view(children@[j].1)),
            child_position(cv, v@) == position_from(cv, v@, i as int),
        decreases children.len() - i,
    {
        if value_eq(&children[i].0, v) {
            return Some(i);
        }
        i = i + 1;
    }
    None
}

/// Whether a value is among the values.
fn contains_value(values: &Vec<Value>, v: &Value) -> (r: bool)
    ensures
        r == values_view(values@).contains(v@),
{
    proof {
        lemma_values_view(values@);
    }
    let mut i: usize = 0;
    while i < values.len()
        invariant
            i <= values@.len(),
            values_view(values@).len() == values@.len(),
            forall|j: int| 0 <= j < values@.len() ==> #[trigger] values_view(values@)[j] == values@[j]@,
            forall|j: int| 0 <= j < i ==> values_view(values@)[j] != v@,
        decreases values.len() - i,
    {
        if value_eq(&values[i], v) {
            assert(values_view(values@)[i as int] == v@);
            return true;
        }
        i = i + 1;
    }
    false
}

/// The chosen position holds the value.
proof fn lemma_child_position_some(cv: Seq<(VValue, VTrie)>, v: VValue, i: int)
    requires
        child_position(cv, v) == Some(i),
    ensures
        0 <= i < cv.len(),
        cv[i].0 == v,
{
    lemma_position_from(cv, v, 0);
}

/// Replacing a child replaces its model.
proof fn lemma_children_view_update(s: Seq<(Value, TrieNode)>, i: int, key: Value, node: TrieNode)
    requires
        0 <= i < s.len(),
    ensures
        children_view(s.update(i, (key, node))) == children_view(s).update(i, (key@, trie_view(node))),
{
    let t = s.update(i, (key, node));
    lemma_children_view(s);
    lemma_children_view(t);
    assert(children_view(t) =~= children_view(s).update(i, (key@, trie_view(node))));
}

/// Add a value unless it is already there.
fn push_new_value(values: &mut Vec<Value>, v: &Value)
    ensures
        values_view(final(values)@) == if values_view(old(values)@).contains(v@) {
            values_view(old(values)@)
        } else {
            values_view(old(values)@).push(v@)
        },
{
    if !contains_value(values, v) {
        let ghost vals0 = values@;
        values.push(value_clone(v));
        proof {
            assert(values@.drop_last() =~= vals0);
        }
    }
}

/// Insert the rest of a path, from position `next` on, into the level below
/// `first`, which is made when missing.
fn insert_below(children: &mut Vec<(Value, TrieNode)>, first: &Value, path: &[Value], next: usize)
    requires
        next <= path@.len(),
    ensures
        ({
            let cv0 = children_view(old(children)@);
            let rest = values_view(path@).skip(next as int);
            children_view(final(children)@) == match child_position(cv0, first@) {
                Some(i) => cv0.update(i, (first@, trie_insert(cv0[i].1, rest))),
                None => cv0.push((first@, trie_insert(empty_trie(), rest))),
            }
        }),
    decreases path@.len() - next + 1, 0nat,
{
    proof {
        lemma_children_view(children@);
    }
    let ghost cs0 = children@;
    let ghost cv0 = children_view(cs0);
    match find_child(children, first) {
        Some(i) => {
            let (key, mut child) = children.remove(i);
            child.insert_from(path, next);
            let ghost kv = key@;
            let ghost tv = trie_view(child);
            children.insert(i, (key, child));
            proof {
                assert(children@ =~= cs0.update(i as int, (key, child)));
                lemma_child_position_some(cv0, first@, i as int);
                lemma_children_view_update(cs0, i as int, key, child);
                assert(kv == first@);
            }
        },
        None => {
            let mut child = TrieNode::new();
            child.insert_from(path, next);
            children.push((value_clone(first), child));
            proof {
                assert(children@.drop_last() =~= cs0);
            }
        },
    }
}

impl TrieNode {
    /// An empty node.
    pub fn new() -> (r: TrieNode)
        ensures
            trie_view(r) == empty_trie(),
    {
        let r = TrieNode { values: Vec::new(), children: Vec::new() };
        proof {
            lemma_values_view(r.values@);
            lemma_children_view(r.children@);
        }
        assert(trie_view(r).values =~= Seq::<VValue>::empty());
        assert(trie_view(r).children =~= Seq::<(VValue, VTrie)>::empty());
        r
    }

    /// The values at this level, in order of first insertion.
    pub fn values(&self) -> (r: &[Value])
        ensures
            values_view(r@) == trie_view(*self).values,
    {
        self.values.as_slice()
    }

    /// Whether a level below exists for the value.
    pub fn has_child(&self, v: &Value) -> (r: bool)
        ensures
            r == (child_position(trie_view(*self).children, v@) is Some),
    {
        find_child(&self.children, v).is_some()
    }

    /// A copy of this node with the same model.
    pub fn duplicate(&self) -> (r: TrieNode)
        ensures
            trie_view(r) == trie_view(*self),
        decreases self,
    {
        let mut values: Vec<Value> = Vec::new();
        proof {
            lemma_values_view(self.values@);
            lemma_children_view(self.children@);
        }
        let mut i: usize = 0;
        while i < self.values.len()
            invariant
                i <= self.values@.len(),
                values@.len() == i,
                values_view(self.values@).len() == self.values@.len(),
                forall|j: int| 0 <= j < self.values@.len() ==> #[trigger] values_view(self.values@)[j] == self.values@[j]@,
                forall|j: int| 0 <= j < i ==> #[trigger] values@[j]@ == self.values@[j]@,
            decreases self.values.len() - i,
        {
            values.push(value_clone(&self.values[i]));
            i = i + 1;
        }
        proof {
            lemma_values_view(values@);
            assert(values_view(values@) =~= values_view(self.values@));
        }
        let mut children: Vec<(Value, TrieNode)> = Vec::new();
        let mut k: usize = 0;
        while k < self.children.len()
            invariant
                k <= self.children@.len(),
                children@.len() == k,
                forall|j: int| 0 <= j < k ==> #[trigger] children@[j].0@ == self.children@[j].0@ && trie_view(children@[j].1)
                    == trie_view(self.children@[j].1),
            decreases self.children.len() - k,
        {
            proof {
                assert(decreases_to!(self.children => self.children[k as int]));
                assert(decreases_to!(self.children[k as int] => self.children[k as int].1));
            }
            let key = value_clone(&self.children[k].0);
            let node = self.children[k].1.duplicate();
            children.push((key, node));
            k = k + 1;
        }
        proof {
            lemma_children_view(children@);
            lemma_children_view(self.children@);
            assert(children_view(children@) =~= children_view(self.children@));
        }
        TrieNode { values, children }
    }

    /// Insert a path: each value goes to its level, in order.
    pub fn insert(&mut self, path: &[Value])
        ensures
            trie_view(*final(self)) == trie_insert(trie_view(*old(self)), values_view(path@)),
    {
        self.insert_from(path, 0);
        proof {
            lemma_values_view(path@);
            assert(values_view(path@).skip(0) =~= values_view(path@));
        }
    }

    /// Insert the part of a path from position `start` on.
    fn insert_from(&mut self, path: &[Value], start: usize)
        requires
            start <= path@.len(),
        ensures
            trie_view(*final(self)) == trie_insert(trie_view(*old(self)), values_view(path@).skip(start as int)),
        decreases path@.len() - start, 1nat,
    {
        proof {
            lemma_values_view(path@);
        }
        let ghost t0 = trie_view(*self);
        let ghost rest = values_view(path@).skip(start as int);
        if start >= path.len() {
            assert(rest.len() == 0);
            return;
        }
        let first = &path[start];
        assert(rest[0] == first@);
        push_new_value(&mut self.values, first);
        if start + 1 < path.len() {
            assert(rest.drop_first() =~= values_view(path@).skip(start + 1));
            insert_below(&mut self.children, first, path, start + 1);
        }
        proof {
            lemma_values_view(self.values@);
            lemma_children_view(self.children@);
            assert(trie_view(*self).values == trie_insert(t0, rest).values);
            assert(trie_view(*self).children == trie_insert(t0, rest).children);
        }
    }

    /// An iterator over this level's values, sorted, with the levels below.
    pub fn iter(&self) -> (r: TrieIterator)
        ensures
            r.remaining().to_set() == trie_view(*self).values.to_set(),
            strictly_sorted(r.remaining()),
            r.depth() == children_height(trie_view(*self).children),
            r.below() == trie_view(*self).children,
    {
        let values = sorted_unique(&self.values);
        let mut children: Vec<(Value, TrieNode)> = Vec::new();
        proof {
            lemma_children_view(self.children@);
        }
        let mut k: usize = 0;
        while k < self.children.len()
            invariant
                k <= self.children@.len(),
                children@.len() == k,
                forall|j: int| 0 <= j < k ==> #[trigger] children@[j].0@ == self.children@[j].0@ && trie_view(children@[j].1)
                    == trie_view(self.children@[j].1),
            decreases self.children.len() - k,
        {
            let key = value_clone(&self.children[k].0);
            let node = self.children[k].1.duplicate();
            children.push((key, node));
            k = k + 1;
        }
        proof {
            lemma_children_view(children@);
            assert(children_view(children@) =~= children_view(self.children@));
            lemma_values_view(values@);
            assert(values_view(values@).skip(0) =~= values_view(values@));
        }
        TrieIterator { values, position: 0, children }
    }
}

impl Default for TrieNode {
    fn default() -> (r: Self)
        ensures
            trie_view(r) == empty_trie(),
    {
        TrieNode::new()
    }
}

/// Iterator over a trie level.
#[derive(Debug)]
pub struct TrieIterator {
    values: Vec<Value>,
    position: usize,
    children: Vec<(Value, TrieNode)>,
}

impl View for TrieIterator {
    type V = (Seq<VValue>, nat, Seq<(VValue, VTrie)>);

    closed spec fn view(&self) -> (Seq<VValue>, nat, Seq<(VValue, VTrie)>) {
        (values_view(self.values@), self.position as nat, children_view(self.children@))
    }
}

impl TrieIterator {
    #[verifier::type_invariant]
    spec fn inv(self) -> bool {
        &&& strictly_sorted(values_view(self.values@))
        &&& self.position <= self.values@.len()
    }
}

impl LeapfrogIterator for TrieIterator {
    open spec fn remaining(&self) -> Seq<VValue> {
        self@.0.skip(self@.1 as int)
    }

    open spec fn depth(&self) -> nat {
        children_height(self@.2)
    }

    open spec fn below(&self) -> Seq<(VValue, VTrie)> {
        self@.2
    }

    fn sorted_keys(&self) {
        proof {
            use_type_invariant(self);
            lemma_values_view(self.values@);
            let s = self@.0;
            let t = s.skip(self@.1 as int);
            assert forall|i: int, j: int| 0 <= i < j < t.len() implies value_order(#[trigger] t[i], #[trigger] t[j]) < 0 by {
                assert(t[i] == s[i + self@.1] && t[j] == s[j + self@.1]);
            }
        }
    }

    fn key(&self) -> (r: Option<&Value>) {
        proof {
            use_type_invariant(self);
            lemma_values_view(self.values@);
        }
        if self.position >= self.values.len() {
            None
        } else {
            Some(&self.values[self.position])
        }
    }

    fn next(&mut self) {
        proof {
            use_type_invariant(&*self);
            lemma_values_view(self.values@);
        }
        if self.position < self.values.len() {
            self.position = self.position + 1;
            assert(old(self)@.0.skip(old(self)@.1 as int).drop_first() =~= self@.0.skip(self@.1 as int));
        }
    }

    fn seek(&mut self, target: &Value) {
        proof {
            use_type_invariant(&*self);
            lemma_values_view(self.values@);
        }
        let ghost start = self.remaining();
        while self.position < self.values.len()
            invariant
                self.position <= self.values@.len(),
                values_view(self.values@).len() == self.values@.len(),
                forall|j: int| 0 <= j < self.values@.len() ==> #[trigger] values_view(self.values@)[j] == self.values@[j]@,
                drop_below(start, target@) == drop_below(self.remaining(), target@),
                self.values@ == old(self).values@,
                self.children@ == old(self).children@,
                strictly_sorted(values_view(self.values@)),
            ensures
                drop_below(start, target@) == self.remaining(),
            decreases self.values.len() - self.position,
        {
            match compare_values(&self.values[self.position], target) {
                Trichotomy::Less => {
                    let ghost cur = self.remaining();
                    self.position = self.position + 1;
                    assert(cur.drop_first() =~= self.remaining());
                },
                _ => {
                    break;
                },
            }
        }
    }

    fn at_end(&self) -> (r: bool) {
        proof {
            use_type_invariant(self);
            lemma_values_view(self.values@);
        }
        self.position >= self.values.len()
    }

    fn open(&self) -> (r: Option<Self>) {
        proof {
            use_type_invariant(self);
            lemma_values_view(self.values@);
            lemma_children_view(self.children@);
        }
        if self.position >= self.values.len() {
            return None;
        }
        match find_child(&self.children, &self.values[self.position]) {
            Some(i) => {
                let child = &self.children[i].1;
                let c = child.iter();
                proof {
                    let cv = children_view(self.children@);
                    lemma_children_height(cv);
                    assert(cv[i as int].1 == trie_view(*child));
                    let vs = cv[i as int].1.values.to_set();
                    assert(strictly_sorted(c.remaining()) && c.remaining().to_set() == vs);
                    let q = sorted_values(vs);
                    assert(strictly_sorted(q) && q.to_set() == vs);
                    lemma_sorted_unique(q, c.remaining());
                    assert(self.remaining()[0] == self.values@[self.position as int]@);
                    assert(opened((VLevel { rem: self.remaining(), below: self.below() })) == Some(
                        (VLevel { rem: c.remaining(), below: c.below() }),
                    ));
                }
                Some(c)
            },
            None => {
                proof {
                    assert(self.remaining()[0] == self.values@[self.position as int]@);
                }
                None
            },
        }
    }
}

/// The column orders indexed for facts of an arity: none for no argument,
/// the identity for one, both orders for two, and the identity and its
/// reverse beyond.
pub open spec fn column_orders(n: nat) -> Seq<Seq<usize>> {
    if n == 0 {
        seq![Seq::<usize>::empty()]
    } else if n == 1 {
        seq![seq![0usize]]
    } else if n == 2 {
        seq![seq![0usize, 1usize], seq![1usize, 0usize]]
    } else {
        seq![Seq::new(n, |i: int| i as usize), Seq::new(n, |i: int| (n - 1 - i) as usize)]
    }
}

/// A fact's arguments in a column order.
pub open spec fn reorder(args: Seq<VValue>, order: Seq<usize>) -> Seq<VValue> {
    order.map_values(|i: usize| args[i as int])
}

/// The first entry, from `i` on, with the key.
pub open spec fn entry_from(
    entries: Seq<((Seq<char>, Seq<usize>), VTrie)>,
    key: (Seq<char>, Seq<usize>),
    i: int,
) -> Option<int>
    decreases entries.len() - i,
{
    if i < 0 || i >= entries.len() {
        None
    } else if entries[i].0 == key {
        Some(i)
    } else {
        entry_from(entries, key, i + 1)
    }
}

/// The index after inserting a path into the trie of a key, made when missing.
pub open spec fn index_insert(
    entries: Seq<((Seq<char>, Seq<usize>), VTrie)>,
    key: (Seq<char>, Seq<usize>),
    path: Seq<VValue>,
) -> Seq<((Seq<char>, Seq<usize>), VTrie)> {
    match entry_from(entries, key, 0) {
        Some(i) => entries.update(i, (key, trie_insert(entries[i].1, path))),
        None => entries.push((key, trie_insert(empty_trie(), path))),
    }
}

/// The index after adding a fact under each of the column orders, in turn.
pub open spec fn index_add_orders(
    entries: Seq<((Seq<char>, Seq<usize>), VTrie)>,
    f: VFact,
    orders: Seq<Seq<usize>>,
) -> Seq<((Seq<char>, Seq<usize>), VTrie)>
    decreases orders.len(),
{
    if orders.len() == 0 {
        entries
    } else {
        index_add_orders(index_insert(entries, (f.pred, orders[0]), reorder(f.args, orders[0])), f, orders.drop_first())
    }
}

/// The index after adding facts in turn.
pub open spec fn index_add_facts(entries: Seq<((Seq<char>, Seq<usize>), VTrie)>, fs: Seq<VFact>) -> Seq<
    ((Seq<char>, Seq<usize>), VTrie),
>
    decreases fs.len(),
{
    if fs.len() == 0 {
        entries
    } else {
        index_add_facts(index_add_orders(entries, fs[0], column_orders(fs[0].args.len())), fs.drop_first())
    }
}

/// Index for worst-case optimal joins: a trie per predicate and column order.
#[derive(Debug)]
pub struct WCOJIndex {
    tries: Vec<((String, Vec<usize>), TrieNode)>,
}

/// Models of the index's entries.
pub closed spec fn entries_view(s: Seq<((String, Vec<usize>), TrieNode)>) -> Seq<((Seq<char>, Seq<usize>), VTrie)> {
    s.map_values(|e: ((String, Vec<usize>), TrieNode)| ((e.0.0@, e.0.1@), trie_view(e.1)))
}

impl View for WCOJIndex {
    type V = Seq<((Seq<char>, Seq<usize>), VTrie)>;

    closed spec fn view(&self) -> Seq<((Seq<char>, Seq<usize>), VTrie)> {
        entries_view(self.tries@)
    }
}

/// The column orders indexed for facts of an arity.
fn generate_permutations(n: usize) -> (r: Vec<Vec<usize>>)
    ensures
        r@.map_values(|o: Vec<usize>| o@) == column_orders(n as nat),
{
    let mut out: Vec<Vec<usize>> = Vec::new();
    if n == 0 {
        let e: Vec<usize> = Vec::new();
        assert(e@ =~= Seq::<usize>::empty());
        out.push(e);
        assert(out@.map_values(|o: Vec<usize>| o@) =~= column_orders(n as nat));
    } else if n == 1 {
        let mut o: Vec<usize> = Vec::new();
        o.push(0);
        assert(o@ =~= seq![0usize]);
        out.push(o);
        assert(out@.map_values(|o: Vec<usize>| o@) =~= column_orders(n as nat));
    } else if n == 2 {
        let mut a: Vec<usize> = Vec::new();
        a.push(0);
        a.push(1);
        let mut b: Vec<usize> = Vec::new();
        b.push(1);
        b.push(0);
        assert(a@ =~= seq![0usize, 1usize]);
        assert(b@ =~= seq![1usize, 0usize]);
        out.push(a);
        out.push(b);
        assert(out@.map_values(|o: Vec<usize>| o@) =~= column_orders(n as nat));
    } else {
        let mut up: Vec<usize> = Vec::new();
        let mut down: Vec<usize> = Vec::new();
        let mut i: usize = 0;
        while i < n
            invariant
                i <= n,
                up@ == Seq::new(i as nat, |j: int| j as usize),
                down@ == Seq::new(i as nat, |j: int| (n - 1 - j) as usize),
            decreases n - i,
        {
            up.push(i);
            down.push(n - 1 - i);
            i = i + 1;
            assert(up@ =~= Seq::new(i as nat, |j: int| j as usize));
            assert(down@ =~= Seq::new(i as nat, |j: int| (n - 1 - j) as usize));
        }
        out.push(up);
        out.push(down);
        assert(out@.map_values(|o: Vec<usize>| o@) =~= column_orders(n as nat));
    }
    out
}

/// Equality of two column orders.
fn orders_eq(a: &Vec<usize>, b: &Vec<usize>) -> (r: bool)
    ensures
        r == (a@ == b@),
{
    if a.len() != b.len() {
        return false;
    }
    let mut i: usize = 0;
    while i < a.len()
        invariant
            i <= a@.len(),
            a@.len() == b@.len(),
            forall|j: int| 0 <= j < i ==> a@[j] == b@[j],
        decreases a.len() - i,
    {
        if a[i] != b[i] {
            return false;
        }
        i = i + 1;
    }
    assert(a@ =~= b@);
    true
}

impl WCOJIndex {
    /// An empty index.
    pub fn new() -> (r: WCOJIndex)
        ensures
            r@ == Seq::<((Seq<char>, Seq<usize>), VTrie)>::empty(),
    {
        let r = WCOJIndex { tries: Vec::new() };
        assert(r@ =~= Seq::<((Seq<char>, Seq<usize>), VTrie)>::empty());
        r
    }

    /// The first entry for a predicate and column order.
    fn find_entry(&self, predicate: &str, order: &Vec<usize>) -> (r: Option<usize>)
        ensures
            match r {
                Some(i) => i < self.tries@.len() && entry_from(self@, (predicate@, order@), 0) == Some(i as int),
                None => entry_from(self@, (predicate@, order@), 0) is None,
            },
    {
        let ghost ev = self@;
        let mut i: usize = 0;
        while i < self.tries.len()
            invariant
                i <= self.tries@.len(),
                ev == self@,
                ev.len() == self.tries@.len(),
                entry_from(ev, (predicate@, order@), 0) == entry_from(ev, (predicate@, order@), i as int),
            decreases self.tries.len() - i,
        {
            assert(ev[i as int] == ((self.tries@[i as int].0.0@, self.tries@[i as int].0.1@), trie_view(self.tries@[i as int].1)));
            if str_eq(self.tries[i].0.0.as_str(), predicate) && orders_eq(&self.tries[i].0.1, order) {
                return Some(i);
            }
            i = i + 1;
        }
        None
    }

    /// Insert a path into the trie of a predicate and column order, made
    /// when missing.
    fn insert_path(&mut self, predicate: &str, order: &Vec<usize>, path: &Vec<Value>)
        ensures
            final(self)@ == index_insert(old(self)@, (predicate@, order@), values_view(path@)),
    {
        let ghost e0 = self@;
        let ghost t0 = self.tries@;
        match self.find_entry(predicate, order) {
            Some(i) => {
                let (key, mut trie) = self.tries.remove(i);
                trie.insert(path.as_slice());
                let ghost kv = key;
                let ghost tv = trie;
                self.tries.insert(i, (key, trie));
                proof {
                    assert(self.tries@ =~= t0.update(i as int, (kv, tv)));
                    assert(e0[i as int] == ((t0[i as int].0.0@, t0[i as int].0.1@), trie_view(t0[i as int].1)));
                    lemma_entry_from(e0, (predicate@, order@), 0);
                    assert(self@ =~= e0.update(i as int, ((predicate@, order@), trie_insert(e0[i as int].1, values_view(path@)))));
                }
            },
            None => {
                let mut trie = TrieNode::new();
                trie.insert(path.as_slice());
                let key = (String::from_str(predicate), order.clone());
                self.tries.push((key, trie));
                proof {
                    assert(self@ =~= e0.push(((predicate@, order@), trie_insert(empty_trie(), values_view(path@)))));
                }
            },
        }
    }

    /// Add facts: each fact's arguments go, in each indexed column order, into
    /// the trie of its predicate and that order.
    pub fn add_facts(&mut self, facts: &[Fact])
        ensures
            final(self)@ == index_add_facts(old(self)@, facts_view(facts@)),
    {
        let ghost fv = facts_view(facts@);
        proof {
            assert(fv.skip(0) =~= fv);
        }
        let mut i: usize = 0;
        while i < facts.len()
            invariant
                i <= facts@.len(),
                fv == facts_view(facts@),
                fv.len() == facts@.len(),
                index_add_facts(old(self)@, fv) == index_add_facts(self@, fv.skip(i as int)),
            decreases facts.len() - i,
        {
            let fact = &facts[i];
            assert(fv[i as int] == fact@);
            let arity = fact.args.len();
            let perms = generate_permutations(arity);
            let ghost orders = column_orders(arity as nat);
            let ghost start = self@;
            proof {
                lemma_values_view(fact.args@);
                assert(perms@.map_values(|o: Vec<usize>| o@).skip(0) =~= orders);
            }
            let mut p: usize = 0;
            while p < perms.len()
                invariant
                    p <= perms@.len(),
                    perms@.map_values(|o: Vec<usize>| o@) == orders,
                    orders.len() == perms@.len(),
                    forall|q: int, c: int| 0 <= q < orders.len() && 0 <= c < orders[q].len() ==> #[trigger] orders[q][c] < arity,
                    arity == fact.args@.len(),
                    values_view(fact.args@).len() == fact.args@.len(),
                    forall|j: int| 0 <= j < fact.args@.len() ==> #[trigger] values_view(fact.args@)[j] == fact.args@[j]@,
                    index_add_orders(start, fact@, orders) == index_add_orders(self@, fact@, orders.skip(p as int)),
                decreases perms.len() - p,
            {
                let order = &perms[p];
                assert(orders[p as int] == order@);
                let mut path: Vec<Value> = Vec::new();
                let mut c: usize = 0;
                while c < order.len()
                    invariant
                        c <= order@.len(),
                        path@.len() == c,
                        forall|d: int| 0 <= d < order@.len() ==> #[trigger] order@[d] < arity,
                        arity == fact.args@.len(),
                        forall|j: int| 0 <= j < fact.args@.len() ==> #[trigger] values_view(fact.args@)[j] == fact.args@[j]@,
                        forall|d: int| 0 <= d < c ==> #[trigger] path@[d]@ == fact.args@[order@[d] as int]@,
                    decreases order.len() - c,
                {
                    path.push(value_clone(&fact.args[order[c]]));
                    c = c + 1;
                }
                proof {
                    lemma_values_view(path@);
                    assert(values_view(path@) =~= reorder(fact@.args, order@));
                }
                self.insert_path(fact.predicate.as_str(), order, &path);
                proof {
                    assert(orders.skip(p as int).drop_first() =~= orders.skip(p + 1));
                    assert(orders.skip(p as int)[0] == order@);
                }
                p = p + 1;
            }
            proof {
                assert(fv.skip(i as int).drop_first() =~= fv.skip(i + 1));
                assert(fv.skip(i as int)[0] == fact@);
            }
            i = i + 1;
        }
    }

    /// The trie of a predicate and column order, if indexed.
    pub fn get_trie(&self, predicate: &str, order: &[usize]) -> (r: Option<&TrieNode>)
        ensures
            match entry_from(self@, (predicate@, order@), 0) {
                Some(i) => r matches Some(t) && trie_view(*t) == self@[i].1,
                None => r is None,
            },
    {
        let mut o: Vec<usize> = Vec::new();
        let mut i: usize = 0;
        while i < order.len()
            invariant
                i <= order@.len(),
                o@ == order@.subrange(0, i as int),
            decreases order.len() - i,
        {
            o.push(order[i]);
            i = i + 1;
            assert(o@ =~= order@.subrange(0, i as int));
        }
        assert(o@ =~= order@);
        match self.find_entry(predicate, &o) {
            Some(k) => Some(&self.tries[k].1),
            None => None,
        }
    }
}

impl Default for WCOJIndex {
    fn default() -> (r: Self)
        ensures
            r@ == Seq::<((Seq<char>, Seq<usize>), VTrie)>::empty(),
    {
        WCOJIndex::new()
    }
}

/// A found entry holds the key.
proof fn lemma_entry_from(entries: Seq<((Seq<char>, Seq<usize>), VTrie)>, key: (Seq<char>, Seq<usize>), i: int)
    requires
        0 <= i,
    ensures
        entry_from(entries, key, i) matches Some(k) ==> i <= k < entries.len() && entries[k].0 == key,
    decreases entries.len() - i,
{
    if i < entries.len() && entries[i].0 != key {
        lemma_entry_from(entries, key, i + 1);
    }
}

} // verus!
