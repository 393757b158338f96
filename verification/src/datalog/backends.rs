//! Relation backends: interchangeable stores of facts.
//!
//! Every backend holds a set of facts (each fact at most once, facts compared by
//! predicate and arguments) and supports insertion with deduplication,
//! membership, enumeration, clearing, extension and predicate filtering.
//! `VecBackend` keeps insertion order; `HashBackend` and `UnionFindBackend`
//! keep their facts in a duplicate-free vector; `TrieBackend` indexes facts by
//! the path predicate, argument 1, argument 2, ...
use vstd::prelude::*;
use crate::types::{Value, VValue, value_eq, value_clone, lemma_values_view, values_view};
use crate::facts::{Fact, VFact, fact_eq, facts_view, facts_clone};
use crate::text::{str_contains, contains_seq, str_eq};

verus! {

broadcast use {vstd::std_specs::vec::group_vec_axioms, vstd::seq_lib::group_seq_properties};

/// Facts of `s` whose predicate is `p`.
pub open spec fn with_pred(s: Set<VFact>, p: Seq<char>) -> Set<VFact> {
    s.filter(|f: VFact| f.pred == p)
}

/// Trait for relation storage backends.
pub trait RelationBackend: Sized {
    /// The facts stored.
    spec fn fact_set(&self) -> Set<VFact>;

    /// Insert a fact, returning true if it was newly inserted.
    fn insert(&mut self, fact: Fact) -> (r: bool)
        ensures
            r == !old(self).fact_set().contains(fact@),
            final(self).fact_set() == old(self).fact_set().insert(fact@),
    ;

    /// Check if a fact exists.
    fn contains(&self, fact: &Fact) -> (r: bool)
        ensures
            r == self.fact_set().contains(fact@),
    ;

    /// Get all facts as a Vec, each once.
    fn iter(&self) -> (r: Vec<Fact>)
        ensures
            facts_view(r@).no_duplicates(),
            facts_view(r@).to_set() == self.fact_set(),
    ;

    /// Number of facts stored.
    fn len(&self) -> (r: usize)
        ensures
            self.fact_set().finite(),
            r == self.fact_set().len(),
    ;

    /// Check if empty.
    fn is_empty(&self) -> (r: bool)
        ensures
            r == (self.fact_set().len() == 0),
    {
        self.len() == 0
    }

    /// Clear all facts.
    fn clear(&mut self)
        ensures
            final(self).fact_set() == Set::<VFact>::empty(),
    ;

    /// Extend with facts from another backend.
    fn extend(&mut self, other: &Self)
        ensures
            final(self).fact_set() == old(self).fact_set().union(other.fact_set()),
    {
        let facts = other.iter();
        let ghost start = self.fact_set();
        let ghost fs = facts_view(facts@);
        let mut i: usize = 0;
        while i < facts.len()
            invariant
                fs == facts_view(facts@),
                i <= facts@.len(),
                self.fact_set() == start.union(fs.subrange(0, i as int).to_set()),
            decreases facts.len() - i,
        {
            let f = facts[i].clone();
            self.insert(f);
            proof {
                assert(fs.subrange(0, i + 1) =~= fs.subrange(0, i as int).push(fs[i as int]));
                assert(fs.subrange(0, i + 1).to_set() =~= fs.subrange(0, i as int).to_set().insert(fs[i as int]));
                assert(self.fact_set() =~= start.union(fs.subrange(0, i + 1).to_set()));
            }
            i = i + 1;
        }
        proof {
            assert(fs.subrange(0, facts@.len() as int) =~= fs);
        }
    }

    /// Get facts matching a predicate.
    fn filter_by_predicate(&self, predicate: &str) -> (r: Vec<Fact>)
        ensures
            facts_view(r@).no_duplicates(),
            facts_view(r@).to_set() == with_pred(self.fact_set(), predicate@),
    {
        let all = self.iter();
        let ghost fs = facts_view(all@);
        let mut out: Vec<Fact> = Vec::new();
        let mut i: usize = 0;
        while i < all.len()
            invariant
                fs == facts_view(all@),
                fs.no_duplicates(),
                i <= all@.len(),
                facts_view(out@).no_duplicates(),
                forall|j: int| 0 <= j < out@.len() ==> exists|k: int| 0 <= k < i && #[trigger] fs[k] == #[trigger] out@[j]@,
                facts_view(out@).to_set() == with_pred(fs.subrange(0, i as int).to_set(), predicate@),
            decreases all.len() - i,
        {
            let ghost old_out = facts_view(out@);
            let p = String::from_str(predicate);
            if all[i].predicate == p {
                out.push(all[i].clone());
                proof {
                    assert(fs[i as int].pred == predicate@);
                    assert(facts_view(out@) =~= old_out.push(fs[i as int]));
                    assert(facts_view(out@).to_set() =~= old_out.to_set().insert(fs[i as int]));
                    assert(facts_view(out@) =~= old_out.push(fs[i as int]));
                    assert forall|a: int, b: int| 0 <= a < facts_view(out@).len() && 0 <= b < facts_view(out@).len() && a != b implies facts_view(out@)[a] != facts_view(out@)[b] by {
                        if b == old_out.len() && a < old_out.len() {
                            let k = choose|k: int| 0 <= k < i && #[trigger] fs[k] == #[trigger] out@[a]@;
                            assert(fs[k] != fs[i as int]);
                        }
                        if a == old_out.len() && b < old_out.len() {
                            let k = choose|k: int| 0 <= k < i && #[trigger] fs[k] == #[trigger] out@[b]@;
                            assert(fs[k] != fs[i as int]);
                        }
                    }
                    assert forall|j: int| 0 <= j < out@.len() implies exists|k: int| 0 <= k < i + 1 && #[trigger] fs[k] == #[trigger] out@[j]@ by {
                        if j < old_out.len() {
                            let k = choose|k: int| 0 <= k < i && #[trigger] fs[k] == facts_view(out@)[j];
                            assert(fs[k] == out@[j]@);
                        } else {
                            assert(fs[i as int] == out@[j]@);
                        }
                    }
                }
            } else {
                proof {
                    assert(fs[i as int].pred != predicate@);
                    assert forall|j: int| 0 <= j < out@.len() implies exists|k: int| 0 <= k < i + 1 && #[trigger] fs[k] == #[trigger] out@[j]@ by {
                        let k = choose|k: int| 0 <= k < i && #[trigger] fs[k] == facts_view(out@)[j];
                        assert(fs[k] == out@[j]@);
                    }
                }
            }
            proof {
                assert(fs.subrange(0, i + 1) =~= fs.subrange(0, i as int).push(fs[i as int]));
                assert(fs.subrange(0, i + 1).to_set() =~= fs.subrange(0, i as int).to_set().insert(fs[i as int]));
                assert(facts_view(out@).to_set() =~= with_pred(fs.subrange(0, i + 1).to_set(), predicate@));
            }
            i = i + 1;
        }
        proof {
            assert(fs.subrange(0, all@.len() as int) =~= fs);
        }
        out
    }
}

/// A duplicate-free list of facts in insertion order.
#[derive(Debug)]
pub struct FactList {
    facts: Vec<Fact>,
}

impl View for FactList {
    type V = Seq<VFact>;

    closed spec fn view(&self) -> Seq<VFact> {
        facts_view(self.facts@)
    }
}

impl FactList {
    #[verifier::type_invariant]
    spec fn inv(self) -> bool {
        facts_view(self.facts@).no_duplicates()
    }

    /// The stored facts have no duplicates.
    pub fn check_no_dup(&self)
        ensures
            self@.no_duplicates(),
            self@.to_set().finite(),
            self@.to_set().len() == self@.len(),
    {
        proof {
            use_type_invariant(self);
            self@.unique_seq_to_set();
        }
    }

    /// An empty list.
    pub fn new() -> (r: FactList)
        ensures
            r@ == Seq::<VFact>::empty(),
    {
        let r = FactList { facts: Vec::new() };
        assert(r@ =~= Seq::<VFact>::empty());
        r
    }

    /// Position of `fact`, if stored.
    fn position(&self, fact: &Fact) -> (r: Option<usize>)
        ensures
            match r {
                Some(i) => i < self@.len() && self@[i as int] == fact@,
                None => !self@.contains(fact@),
            },
    {
        let mut i: usize = 0;
        while i < self.facts.len()
            invariant
                i <= self.facts@.len(),
                forall|j: int| 0 <= j < i ==> #[trigger] self.facts@[j]@ != fact@,
            decreases self.facts.len() - i,
        {
            if fact_eq(&self.facts[i], fact) {
                return Some(i);
            }
            i = i + 1;
        }
        proof {
            assert forall|j: int| 0 <= j < self@.len() implies self@[j] != fact@ by {
                assert(self@[j] == self.facts@[j]@);
            }
        }
        None
    }

    /// Append `fact` unless already stored; true if appended.
    pub fn insert(&mut self, fact: Fact) -> (r: bool)
        ensures
            r == !old(self)@.contains(fact@),
            final(self)@ == if r {
                old(self)@.push(fact@)
            } else {
                old(self)@
            },
    {
        proof {
            use_type_invariant(&*self);
        }
        if self.position(&fact).is_some() {
            return false;
        }
        let ghost old_v = self@;
        let ghost fv = fact@;
        let mut v = Vec::new();
        std::mem::swap(&mut v, &mut self.facts);
        v.push(fact);
        proof {
            assert(facts_view(v@) =~= old_v.push(fv));
            assert forall|a: int, b: int| 0 <= a < facts_view(v@).len() && 0 <= b < facts_view(v@).len() && a != b implies facts_view(v@)[a] != facts_view(v@)[b] by {
                if a == old_v.len() {
                    assert(old_v[b] != fv);
                }
                if b == old_v.len() {
                    assert(old_v[a] != fv);
                }
            }
        }
        self.facts = v;
        true
    }

    /// Remove `fact` if stored; true if it was.
    pub fn remove(&mut self, fact: &Fact) -> (r: bool)
        ensures
            r == old(self)@.contains(fact@),
            final(self)@.to_set() == old(self)@.to_set().remove(fact@),
            !final(self)@.contains(fact@),
    {
        proof {
            use_type_invariant(&*self);
        }
        match self.position(fact) {
            None => {
                assert(self@.to_set().remove(fact@) =~= self@.to_set());
                false
            },
            Some(i) => {
                let ghost old_v = self@;
                let mut v = Vec::new();
                std::mem::swap(&mut v, &mut self.facts);
                v.remove(i);
                proof {
                    assert(facts_view(v@) =~= old_v.remove(i as int));
                    old_v.remove_ensures(i as int);
                    assert forall|a: int, b: int|
                        0 <= a < facts_view(v@).len() && 0 <= b < facts_view(v@).len() && a != b implies facts_view(
                        v@,
                    )[a] != facts_view(v@)[b] by {
                        let a1 = if a < i { a } else { a + 1 };
                        let b1 = if b < i { b } else { b + 1 };
                        assert(facts_view(v@)[a] == old_v[a1]);
                        assert(facts_view(v@)[b] == old_v[b1]);
                    }
                    assert forall|x: VFact| facts_view(v@).contains(x) <==> old_v.to_set().remove(fact@).contains(x) by {
                        if facts_view(v@).contains(x) {
                            let k = choose|k: int| 0 <= k < facts_view(v@).len() && facts_view(v@)[k] == x;
                            let k1 = if k < i { k } else { k + 1 };
                            assert(old_v[k1] == x);
                            assert(k1 != i);
                        }
                        if old_v.to_set().remove(fact@).contains(x) {
                            let k = choose|k: int| 0 <= k < old_v.len() && old_v[k] == x;
                            assert(k != i);
                            if k < i {
                                assert(facts_view(v@)[k] == x);
                            } else {
                                assert(facts_view(v@)[k - 1] == x);
                            }
                        }
                    }
                    assert(facts_view(v@).to_set() =~= old_v.to_set().remove(fact@));
                }
                self.facts = v;
                true
            },
        }
    }

    /// Whether `fact` is stored.
    pub fn contains(&self, fact: &Fact) -> (r: bool)
        ensures
            r == self@.contains(fact@),
    {
        self.position(fact).is_some()
    }

    /// Copies of the stored facts, in order.
    pub fn to_vec(&self) -> (r: Vec<Fact>)
        ensures
            facts_view(r@) == self@,
    {
        facts_clone(&self.facts)
    }

    /// Number of stored facts.
    pub fn len(&self) -> (r: usize)
        ensures
            r == self@.len(),
    {
        self.facts.len()
    }

    /// Remove all facts.
    pub fn clear(&mut self)
        ensures
            final(self)@ == Seq::<VFact>::empty(),
    {
        let mut v = Vec::new();
        std::mem::swap(&mut v, &mut self.facts);
        self.facts = Vec::new();
        assert(self@ =~= Seq::<VFact>::empty());
    }

    /// A copy.
    pub fn duplicate(&self) -> (r: FactList)
        ensures
            r@ == self@,
    {
        proof {
            use_type_invariant(self);
        }
        FactList { facts: facts_clone(&self.facts) }
    }
}

/// Vector-based backend for small, append-only relations; keeps insertion order.
#[derive(Debug)]
pub struct VecBackend {
    facts: FactList,
}

impl View for VecBackend {
    type V = Seq<VFact>;

    closed spec fn view(&self) -> Seq<VFact> {
        self.facts@
    }
}

impl VecBackend {
    /// Create a new empty vector backend.
    pub fn new() -> (r: VecBackend)
        ensures
            r@ == Seq::<VFact>::empty(),
    {
        VecBackend { facts: FactList::new() }
    }

    /// Create a new vector backend with pre-allocated capacity.
    pub fn with_capacity(capacity: usize) -> (r: VecBackend)
        ensures
            r@ == Seq::<VFact>::empty(),
    {
        Self::new()
    }

    /// Insert, keeping insertion order: the fact is appended when new.
    pub fn insert_ordered(&mut self, fact: Fact) -> (r: bool)
        ensures
            r == !old(self)@.contains(fact@),
            final(self)@ == if r {
                old(self)@.push(fact@)
            } else {
                old(self)@
            },
    {
        self.facts.insert(fact)
    }

    /// The facts in insertion order.
    pub fn ordered(&self) -> (r: Vec<Fact>)
        ensures
            facts_view(r@) == self@,
    {
        self.facts.to_vec()
    }
}

impl Clone for VecBackend {
    fn clone(&self) -> (r: Self)
        ensures
            r@ == self@,
    {
        VecBackend { facts: self.facts.duplicate() }
    }
}

impl Default for VecBackend {
    fn default() -> (r: Self)
        ensures
            r@ == Seq::<VFact>::empty(),
    {
        Self::new()
    }
}

impl RelationBackend for VecBackend {
    open spec fn fact_set(&self) -> Set<VFact> {
        self@.to_set()
    }

    fn insert(&mut self, fact: Fact) -> (r: bool) {
        let ghost old_v = self.facts@;
        let ghost fv = fact@;
        let r = self.facts.insert(fact);
        proof {
            assert(old_v.push(fv).to_set() =~= old_v.to_set().insert(fv));
            if old_v.contains(fv) {
                assert(old_v.to_set().insert(fv) =~= old_v.to_set());
            }
        }
        r
    }

    fn contains(&self, fact: &Fact) -> (r: bool) {
        self.facts.contains(fact)
    }

    fn iter(&self) -> (r: Vec<Fact>) {
        self.facts.check_no_dup();
        self.facts.to_vec()
    }

    fn len(&self) -> (r: usize) {
        self.facts.check_no_dup();
        self.facts.len()
    }

    fn clear(&mut self) {
        self.facts.clear();
        assert(self@.to_set() =~= Set::<VFact>::empty());
    }
}

/// General-purpose backend: a duplicate-free collection of facts.
#[derive(Debug)]
pub struct HashBackend {
    facts: FactList,
}

impl View for HashBackend {
    type V = Set<VFact>;

    closed spec fn view(&self) -> Set<VFact> {
        self.facts@.to_set()
    }
}

impl HashBackend {
    /// Create a new empty hash backend.
    pub fn new() -> (r: HashBackend)
        ensures
            r@ == Set::<VFact>::empty(),
    {
        let r = HashBackend { facts: FactList::new() };
        assert(r@ =~= Set::<VFact>::empty());
        r
    }

    /// Create a new hash backend with pre-allocated capacity.
    pub fn with_capacity(capacity: usize) -> (r: HashBackend)
        ensures
            r@ == Set::<VFact>::empty(),
    {
        Self::new()
    }

    /// Create from a collection of facts (duplicates are kept once).
    pub fn from_set(facts: Vec<Fact>) -> (r: HashBackend)
        ensures
            r@ == facts_view(facts@).to_set(),
    {
        let mut b = Self::new();
        let ghost fs = facts_view(facts@);
        let mut v = facts;
        let mut i: usize = 0;
        while i < v.len()
            invariant
                fs == facts_view(v@),
                i <= v@.len(),
                b@ == fs.subrange(0, i as int).to_set(),
            decreases v.len() - i,
        {
            let f = v[i].clone();
            b.insert(f);
            proof {
                assert(fs.subrange(0, i + 1) =~= fs.subrange(0, i as int).push(fs[i as int]));
                assert(fs.subrange(0, i + 1).to_set() =~= fs.subrange(0, i as int).to_set().insert(fs[i as int]));
            }
            i = i + 1;
        }
        assert(fs.subrange(0, v@.len() as int) =~= fs);
        b
    }
}

impl Clone for HashBackend {
    fn clone(&self) -> (r: Self)
        ensures
            r@ == self@,
    {
        HashBackend { facts: self.facts.duplicate() }
    }
}

impl Default for HashBackend {
    fn default() -> (r: Self)
        ensures
            r@ == Set::<VFact>::empty(),
    {
        Self::new()
    }
}

impl RelationBackend for HashBackend {
    open spec fn fact_set(&self) -> Set<VFact> {
        self@
    }

    fn insert(&mut self, fact: Fact) -> (r: bool) {
        let ghost old_v = self.facts@;
        let ghost fv = fact@;
        let r = self.facts.insert(fact);
        proof {
            assert(old_v.push(fv).to_set() =~= old_v.to_set().insert(fv));
            if old_v.contains(fv) {
                assert(old_v.to_set().insert(fv) =~= old_v.to_set());
            }
        }
        r
    }

    fn contains(&self, fact: &Fact) -> (r: bool) {
        self.facts.contains(fact)
    }

    fn iter(&self) -> (r: Vec<Fact>) {
        self.facts.check_no_dup();
        self.facts.to_vec()
    }

    fn len(&self) -> (r: usize) {
        self.facts.check_no_dup();
        self.facts.len()
    }

    fn clear(&mut self) {
        self.facts.clear();
        assert(self@ =~= Set::<VFact>::empty());
    }
}

/// Backend for transitive-closure relations: a duplicate-free collection of facts.
#[derive(Debug)]
pub struct UnionFindBackend {
    facts: FactList,
}

impl View for UnionFindBackend {
    type V = Set<VFact>;

    closed spec fn view(&self) -> Set<VFact> {
        self.facts@.to_set()
    }
}

impl UnionFindBackend {
    /// Create a new empty union-find backend.
    pub fn new() -> (r: UnionFindBackend)
        ensures
            r@ == Set::<VFact>::empty(),
    {
        let r = UnionFindBackend { facts: FactList::new() };
        assert(r@ =~= Set::<VFact>::empty());
        r
    }

    /// Create a new union-find backend with pre-allocated capacity.
    pub fn with_capacity(capacity: usize) -> (r: UnionFindBackend)
        ensures
            r@ == Set::<VFact>::empty(),
    {
        Self::new()
    }
}

impl Clone for UnionFindBackend {
    fn clone(&self) -> (r: Self)
        ensures
            r@ == self@,
    {
        UnionFindBackend { facts: self.facts.duplicate() }
    }
}

impl Default for UnionFindBackend {
    fn default() -> (r: Self)
        ensures
            r@ == Set::<VFact>::empty(),
    {
        Self::new()
    }
}

impl RelationBackend for UnionFindBackend {
    open spec fn fact_set(&self) -> Set<VFact> {
        self@
    }

    fn insert(&mut self, fact: Fact) -> (r: bool) {
        let ghost old_v = self.facts@;
        let ghost fv = fact@;
        let r = self.facts.insert(fact);
        proof {
            assert(old_v.push(fv).to_set() =~= old_v.to_set().insert(fv));
            if old_v.contains(fv) {
                assert(old_v.to_set().insert(fv) =~= old_v.to_set());
            }
        }
        r
    }

    fn contains(&self, fact: &Fact) -> (r: bool) {
        self.facts.contains(fact)
    }

    fn iter(&self) -> (r: Vec<Fact>) {
        self.facts.check_no_dup();
        self.facts.to_vec()
    }

    fn len(&self) -> (r: usize) {
        self.facts.check_no_dup();
        self.facts.len()
    }

    fn clear(&mut self) {
        self.facts.clear();
        assert(self@ =~= Set::<VFact>::empty());
    }
}

/// The path under which a fact is kept: its predicate as a string value,
/// then its arguments.
pub open spec fn fact_path(f: VFact) -> Seq<VValue> {
    seq![VValue::Str(f.pred)] + f.args
}

/// Whether `path` starts with `prefix`.
pub open spec fn has_prefix(path: Seq<VValue>, prefix: Seq<VValue>) -> bool {
    prefix.len() <= path.len() && forall|i: int| 0 <= i < prefix.len() ==> #[trigger] path[i] == prefix[i]
}

/// Whether the first `n` elements of `path` agree with `pattern`, where
/// `None` stands for any value.
pub open spec fn agrees_upto(path: Seq<VValue>, pattern: Seq<Option<VValue>>, n: int) -> bool {
    forall|i: int| 0 <= i < n ==> (#[trigger] pattern[i] matches Some(v) ==> path[i] == v)
}

/// Whether a path answers a pattern lookup: a path as long as the pattern
/// that agrees with it, or a path one shorter that agrees with all but the
/// pattern's last element.
pub open spec fn pattern_hit(path: Seq<VValue>, pattern: Seq<Option<VValue>>) -> bool {
    ||| pattern.len() > 0 && path.len() == pattern.len() && agrees_upto(path, pattern, pattern.len() as int)
    ||| pattern.len() > 0 && path.len() + 1 == pattern.len() && agrees_upto(path, pattern, path.len() as int)
}

/// The models of a pattern's elements.
pub open spec fn options_view(s: Seq<Option<Value>>) -> Seq<Option<VValue>> {
    s.map_values(
        |o: Option<Value>|
            match o {
                Some(v) => Some(v@),
                None => None,
            },
    )
}

/// Filtering a duplicate-free sequence keeps it duplicate-free, and keeps
/// the elements of its set that satisfy the predicate.
proof fn lemma_filter_unique<A>(s: Seq<A>, p: spec_fn(A) -> bool)
    requires
        s.no_duplicates(),
    ensures
        s.filter(p).no_duplicates(),
        s.filter(p).to_set() == s.to_set().filter(p),
    decreases s.len(),
{
    if s.len() == 0 {
        assert(s.filter(p).to_set() =~= s.to_set().filter(p));
    } else {
        let t = s.drop_last();
        let x = s.last();
        assert(s =~= t.push(x));
        assert(t.no_duplicates()) by {
            assert forall|a: int, b: int| 0 <= a < t.len() && 0 <= b < t.len() && a != b implies t[a] != t[b] by {
                assert(s[a] == t[a] && s[b] == t[b]);
            }
        }
        lemma_filter_unique(t, p);
        assert(!t.contains(x)) by {
            if t.contains(x) {
                let k = choose|k: int| 0 <= k < t.len() && t[k] == x;
                assert(s[k] == s[s.len() - 1]);
            }
        }
        assert(!t.filter(p).contains(x)) by {
            if t.filter(p).contains(x) {
                t.lemma_filter_contains_rev(p, x);
            }
        }
        t.lemma_filter_push(x, p);
        assert(s.to_set() =~= t.to_set().insert(x));
        if p(x) {
            assert(s.filter(p) == t.filter(p).push(x));
            assert(t.filter(p).push(x).to_set() =~= t.filter(p).to_set().insert(x));
            assert(s.filter(p).to_set() =~= s.to_set().filter(p));
        } else {
            assert(s.filter(p) == t.filter(p));
            assert(s.filter(p).to_set() =~= s.to_set().filter(p));
        }
    }
}

/// Whether element `i` of a fact's path is `v`.
fn path_elem_is(f: &Fact, i: usize, v: &Value) -> (r: bool)
    requires
        i < f.args@.len() + 1,
    ensures
        r == (fact_path(f@)[i as int] == v@),
{
    proof {
        lemma_values_view(f.args@);
    }
    if i == 0 {
        match v {
            Value::String(s) => str_eq(f.predicate.as_str(), s.as_str()),
            _ => false,
        }
    } else {
        value_eq(&f.args[i - 1], v)
    }
}

/// Whether a fact's path starts with `prefix`.
fn path_has_prefix(f: &Fact, prefix: &[Value]) -> (r: bool)
    ensures
        r == has_prefix(fact_path(f@), values_view(prefix@)),
{
    proof {
        lemma_values_view(prefix@);
        lemma_values_view(f.args@);
    }
    let ghost path = fact_path(f@);
    let ghost pv = values_view(prefix@);
    if prefix.len() > 0 && prefix.len() - 1 > f.args.len() {
        return false;
    }
    let mut i: usize = 0;
    while i < prefix.len()
        invariant
            i <= prefix@.len(),
            prefix@.len() <= f.args@.len() + 1,
            path == fact_path(f@),
            pv == values_view(prefix@),
            pv.len() == prefix@.len(),
            path.len() == f.args@.len() + 1,
            forall|k: int| 0 <= k < pv.len() ==> #[trigger] pv[k] == prefix@[k]@,
            forall|k: int| 0 <= k < i ==> #[trigger] path[k] == pv[k],
        decreases prefix.len() - i,
    {
        if !path_elem_is(f, i, &prefix[i]) {
            return false;
        }
        i = i + 1;
    }
    true
}

/// Whether a fact's path answers a pattern lookup.
fn path_matches(f: &Fact, pattern: &[Option<Value>]) -> (r: bool)
    ensures
        r == pattern_hit(fact_path(f@), options_view(pattern@)),
{
    let ghost path = fact_path(f@);
    let ghost ov = options_view(pattern@);
    proof {
        lemma_values_view(f.args@);
        assert(path.len() == f.args@.len() + 1);
        assert(ov.len() == pattern@.len());
    }
    let pl = pattern.len();
    let m = f.args.len();
    if pl == 0 || !(pl - 1 == m || (pl >= 2 && pl - 2 == m)) {
        return false;
    }
    let n = if pl - 1 == m { pl } else { pl - 1 };
    let mut i: usize = 0;
    while i < n
        invariant
            i <= n,
            n == f.args@.len() + 1,
            path == fact_path(f@),
            path.len() == n,
            ov == options_view(pattern@),
            ov.len() == pattern@.len(),
            pattern@.len() == n || pattern@.len() == n + 1,
            agrees_upto(path, ov, i as int),
        decreases n - i,
    {
        match &pattern[i] {
            Some(v) => {
                if !path_elem_is(f, i, v) {
                    assert(ov[i as int] == Some(v@));
                    return false;
                }
            },
            None => {},
        }
        assert(agrees_upto(path, ov, i + 1)) by {
            assert forall|k: int| 0 <= k < i + 1 implies (#[trigger] ov[k] matches Some(v) ==> path[k] == v) by {
                if k == i {
                    match pattern@[k] {
                        Some(w) => assert(ov[k] == Some(w@)),
                        None => assert(ov[k] is None),
                    }
                }
            }
        }
        i = i + 1;
    }
    true
}

/// Backend for hierarchical data: facts kept by their path (predicate, then
/// arguments), with lookups by path prefix and by path pattern.
#[derive(Debug)]
pub struct TrieBackend {
    facts: FactList,
}

impl View for TrieBackend {
    type V = Set<VFact>;

    closed spec fn view(&self) -> Set<VFact> {
        self.facts@.to_set()
    }
}

/// A trie backend counts distinct facts: after an insertion that reports
/// whether the fact was new, the backend holds the fact, and its length
/// grew by one exactly when it was new.
pub proof fn law_trie_insert_len(before: TrieBackend, after: TrieBackend, fact: VFact, inserted: bool)
    requires
        after@ == before@.insert(fact),
        inserted == !before@.contains(fact),
    ensures
        after@.contains(fact),
        after@.len() == before@.len() + (if inserted { 1nat } else { 0nat }),
{
    vstd::seq_lib::seq_to_set_is_finite(before.facts@);
    if !inserted {
        assert(before@.insert(fact) =~= before@);
    }
}

impl TrieBackend {
    /// Create a new empty trie backend.
    pub fn new() -> (r: TrieBackend)
        ensures
            r@ == Set::<VFact>::empty(),
    {
        let r = TrieBackend { facts: FactList::new() };
        assert(r@ =~= Set::<VFact>::empty());
        r
    }

    /// Create a new trie backend; the capacity is only a hint.
    pub fn with_capacity(_capacity: usize) -> (r: TrieBackend)
        ensures
            r@ == Set::<VFact>::empty(),
    {
        TrieBackend::new()
    }

    /// Insert a fact under its path; true if it was not there yet.
    pub fn insert_path(&mut self, fact: &Fact) -> (r: bool)
        ensures
            r == !old(self)@.contains(fact@),
            final(self)@ == old(self)@.insert(fact@),
    {
        let ghost old_v = self.facts@;
        let ghost fv = fact@;
        let r = self.facts.insert(fact.clone());
        proof {
            assert(old_v.push(fv).to_set() =~= old_v.to_set().insert(fv));
            if old_v.contains(fv) {
                assert(old_v.to_set().insert(fv) =~= old_v.to_set());
            }
        }
        r
    }

    /// All facts whose path starts with `prefix`, each once.
    pub fn find_prefix(&self, prefix: &[Value]) -> (r: Vec<Fact>)
        ensures
            facts_view(r@).no_duplicates(),
            facts_view(r@).to_set() == self@.filter(|f: VFact| has_prefix(fact_path(f), values_view(prefix@))),
    {
        self.facts.check_no_dup();
        let all = self.facts.to_vec();
        let ghost fs = facts_view(all@);
        let ghost p = |f: VFact| has_prefix(fact_path(f), values_view(prefix@));
        let mut out: Vec<Fact> = Vec::new();
        let mut i: usize = 0;
        assert(fs.take(0) =~= Seq::<VFact>::empty());
        while i < all.len()
            invariant
                i <= all@.len(),
                fs == facts_view(all@),
                fs == self.facts@,
                p == (|f: VFact| has_prefix(fact_path(f), values_view(prefix@))),
                facts_view(out@) == fs.take(i as int).filter(p),
            decreases all.len() - i,
        {
            let ghost before = fs.take(i as int);
            assert(fs.take(i + 1) =~= before.push(fs[i as int]));
            proof { before.lemma_filter_push(fs[i as int], p); }
            if path_has_prefix(&all[i], prefix) {
                out.push(all[i].clone());
                assert(facts_view(out@) =~= before.filter(p).push(fs[i as int]));
            }
            i = i + 1;
        }
        assert(fs.take(i as int) =~= fs);
        proof {
            lemma_filter_unique(fs, p);
        }
        out
    }

    /// All facts of a predicate: those whose path starts with the predicate.
    pub fn find_predicate_prefix(&self, predicate: &str) -> (r: Vec<Fact>)
        ensures
            facts_view(r@).no_duplicates(),
            facts_view(r@).to_set() == with_pred(self@, predicate@),
    {
        let mut prefix: Vec<Value> = Vec::new();
        prefix.push(Value::String(String::from_str(predicate)));
        let r = self.find_prefix(prefix.as_slice());
        proof {
            lemma_values_view(prefix@);
            let pv = values_view(prefix@);
            assert(pv[0] == VValue::Str(predicate@));
            assert forall|f: VFact| has_prefix(fact_path(f), pv) <==> f.pred == predicate@ by {
                assert(fact_path(f)[0] == VValue::Str(f.pred));
            }
            assert(self@.filter(|f: VFact| has_prefix(fact_path(f), values_view(prefix@))) =~= with_pred(
                self@,
                predicate@,
            ));
        }
        r
    }

    /// All facts whose path answers the pattern (`None` matches any value):
    /// paths as long as the pattern, and paths one shorter that agree with
    /// all but its last element.
    pub fn find_pattern(&self, pattern: &[Option<Value>]) -> (r: Vec<Fact>)
        ensures
            facts_view(r@).no_duplicates(),
            facts_view(r@).to_set() == self@.filter(|f: VFact| pattern_hit(fact_path(f), options_view(pattern@))),
    {
        self.facts.check_no_dup();
        let all = self.facts.to_vec();
        let ghost fs = facts_view(all@);
        let ghost p = |f: VFact| pattern_hit(fact_path(f), options_view(pattern@));
        let mut out: Vec<Fact> = Vec::new();
        let mut i: usize = 0;
        assert(fs.take(0) =~= Seq::<VFact>::empty());
        while i < all.len()
            invariant
                i <= all@.len(),
                fs == facts_view(all@),
                fs == self.facts@,
                p == (|f: VFact| pattern_hit(fact_path(f), options_view(pattern@))),
                facts_view(out@) == fs.take(i as int).filter(p),
            decreases all.len() - i,
        {
            let ghost before = fs.take(i as int);
            assert(fs.take(i + 1) =~= before.push(fs[i as int]));
            proof { before.lemma_filter_push(fs[i as int], p); }
            if path_matches(&all[i], pattern) {
                out.push(all[i].clone());
                assert(facts_view(out@) =~= before.filter(p).push(fs[i as int]));
            }
            i = i + 1;
        }
        assert(fs.take(i as int) =~= fs);
        proof {
            lemma_filter_unique(fs, p);
        }
        out
    }
}

impl Default for TrieBackend {
    fn default() -> (r: Self)
        ensures
            r@ == Set::<VFact>::empty(),
    {
        TrieBackend::new()
    }
}

impl RelationBackend for TrieBackend {
    open spec fn fact_set(&self) -> Set<VFact> {
        self@
    }

    fn insert(&mut self, fact: Fact) -> (r: bool) {
        self.insert_path(&fact)
    }

    fn contains(&self, fact: &Fact) -> (r: bool) {
        proof {
            self.facts@.to_set();
        }
        self.facts.contains(fact)
    }

    fn iter(&self) -> (r: Vec<Fact>) {
        self.facts.check_no_dup();
        self.facts.to_vec()
    }

    fn len(&self) -> (r: usize) {
        self.facts.check_no_dup();
        self.facts.len()
    }

    fn clear(&mut self) {
        self.facts.clear();
        assert(self@ =~= Set::<VFact>::empty());
    }

    fn filter_by_predicate(&self, predicate: &str) -> (r: Vec<Fact>) {
        self.find_predicate_prefix(predicate)
    }
}

/// Backend selection based on relation characteristics.
#[derive(Debug, Clone, Copy, PartialEq, Eq, Structural)]
pub enum BackendType {
    /// Vector backend for small relations
    Vec,
    /// Hash backend for general-purpose relations
    Hash,
    /// UnionFind backend for transitive closure
    UnionFind,
    /// Trie backend for hierarchical data
    Trie,
}

/// The backend chosen for a relation: transitive-closure names first, then
/// hierarchical names, then by expected size (under 100 facts: Vec).
pub open spec fn select_backend(p: Seq<char>, estimated_size: nat) -> BackendType {
    if contains_seq(p, "path"@) || contains_seq(p, "reachable"@) || contains_seq(p, "ancestor"@)
        || contains_seq(p, "descendant"@) {
        BackendType::UnionFind
    } else if contains_seq(p, "parent"@) || contains_seq(p, "child"@) || contains_seq(p, "prefix"@)
        || contains_seq(p, "resource"@) {
        BackendType::Trie
    } else if estimated_size < 100 {
        BackendType::Vec
    } else {
        BackendType::Hash
    }
}

impl BackendType {
    /// Automatically select backend based on relation name and expected size.
    pub fn select_for_relation(predicate: &str, estimated_size: usize) -> (r: BackendType)
        ensures
            r == select_backend(predicate@, estimated_size as nat),
    {
        if str_contains(predicate, "path") || str_contains(predicate, "reachable") || str_contains(
            predicate,
            "ancestor",
        ) || str_contains(predicate, "descendant") {
            BackendType::UnionFind
        } else if str_contains(predicate, "parent") || str_contains(predicate, "child")
            || str_contains(predicate, "prefix") || str_contains(predicate, "resource") {
            BackendType::Trie
        } else if estimated_size < 100 {
            BackendType::Vec
        } else {
            BackendType::Hash
        }
    }

    /// Create a hash backend instance.
    pub fn create_hash_backend(&self) -> (r: HashBackend)
        ensures
            r@ == Set::<VFact>::empty(),
    {
        HashBackend::new()
    }

    /// Create a vector backend instance.
    pub fn create_vec_backend(&self) -> (r: VecBackend)
        ensures
            r@ == Seq::<VFact>::empty(),
    {
        VecBackend::new()
    }

    /// Create a union-find backend instance.
    pub fn create_unionfind_backend(&self) -> (r: UnionFindBackend)
        ensures
            r@ == Set::<VFact>::empty(),
    {
        UnionFindBackend::new()
    }

    /// Create a trie backend instance.
    pub fn create_trie_backend(&self) -> (r: TrieBackend)
        ensures
            r@ == Set::<VFact>::empty(),
    {
        TrieBackend::new()
    }
}

} // verus!
