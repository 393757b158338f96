//! Provenance: how each fact was derived, as trees of rule applications over
//! base facts, with queries and explanations over them.
use vstd::prelude::*;
use crate::facts::{Fact, VFact, facts_view, fact_eq, fact_in};
use crate::debug_text::{fact_debug, fact_text};
use crate::types::{VValue, values_view};
use crate::text::{owned, models, lemma_push_to_set};

verus! {

broadcast use vstd::std_specs::vec::group_vec_axioms;

/// A derivation node: a fact and how it was obtained.
#[derive(Debug)]
pub struct Derivation {
    /// The fact that was derived
    pub fact: Fact,
    /// How this fact was derived
    pub source: DerivationSource,
}

/// Source of a derivation.
#[derive(Debug)]
pub enum DerivationSource {
    /// Base fact (not derived)
    Base,
    /// Derived from a rule application
    Rule {
        /// Name of the rule that was applied
        rule_name: String,
        /// Rule ID for tracking
        rule_id: usize,
        /// Derivations of the premises of this rule application
        premises: Vec<Derivation>,
    },
}

/// Model of a derivation.
pub struct VDerivation {
    /// The fact
    pub fact: VFact,
    /// How it was obtained
    pub source: VSource,
}

/// Model of the source of a derivation.
pub enum VSource {
    /// A base fact
    Base,
    /// A rule application
    Rule {
        /// Rule name
        name: Seq<char>,
        /// Rule id
        id: usize,
        /// Premises
        premises: Seq<VDerivation>,
    },
}

/// The model of a derivation.
pub open spec fn derivation_view(d: Derivation) -> VDerivation
    decreases d, 0nat,
{
    VDerivation { fact: d.fact@, source: source_view(d.source) }
}

/// The model of the source of a derivation.
pub open spec fn source_view(s: DerivationSource) -> VSource
    decreases s, 0nat,
{
    match s {
        DerivationSource::Base => VSource::Base,
        DerivationSource::Rule { rule_name, rule_id, premises } => VSource::Rule {
            name: rule_name@,
            id: rule_id,
            premises: derivations_view(premises@),
        },
    }
}

/// The models of derivations.
pub open spec fn derivations_view(s: Seq<Derivation>) -> Seq<VDerivation>
    decreases s, 1nat,
{
    if s.len() == 0 {
        Seq::empty()
    } else {
        derivations_view(s.drop_last()).push(derivation_view(s.last()))
    }
}

impl View for Derivation {
    type V = VDerivation;

    open spec fn view(&self) -> VDerivation {
        derivation_view(*self)
    }
}

/// The models of derivations, one by one.
pub proof fn lemma_derivations_view(s: Seq<Derivation>)
    ensures
        derivations_view(s).len() == s.len(),
        forall|i: int| 0 <= i < s.len() ==> #[trigger] derivations_view(s)[i] == s[i]@,
    decreases s.len(),
{
    if s.len() > 0 {
        lemma_derivations_view(s.drop_last());
    }
}

/// A copy of a derivation.
pub fn derivation_clone(d: &Derivation) -> (r: Derivation)
    ensures
        r@ == d@,
    decreases d,
{
    let fact = d.fact.clone();
    let source = match &d.source {
        DerivationSource::Base => DerivationSource::Base,
        DerivationSource::Rule { rule_name, rule_id, premises } => {
            let mut out: Vec<Derivation> = Vec::new();
            let mut i: usize = 0;
            while i < premises.len()
                invariant
                    d.source == (DerivationSource::Rule {
                        rule_name: *rule_name,
                        rule_id: *rule_id,
                        premises: *premises,
                    }),
                    i <= premises@.len(),
                    out@.len() == i,
                    forall|j: int| 0 <= j < i ==> #[trigger] out@[j]@ == premises@[j]@,
                decreases premises.len() - i,
            {
                proof {
                    assert(decreases_to!(*d => d.source));
                    assert(decreases_to!(d.source => (d.source)->premises));
                    assert(decreases_to!(*premises => premises[i as int]));
                    assert(decreases_to!(*d => premises[i as int]));
                }
                out.push(derivation_clone(&premises[i]));
                i = i + 1;
            }
            proof {
                lemma_derivations_view(out@);
                lemma_derivations_view(premises@);
                assert(derivations_view(out@) =~= derivations_view(premises@));
            }
            DerivationSource::Rule { rule_name: owned(rule_name.as_str()), rule_id: *rule_id, premises: out }
        },
    };
    Derivation { fact, source }
}

/// Whether two derivations have the same model.
pub fn derivation_eq(a: &Derivation, b: &Derivation) -> (r: bool)
    ensures
        r == (a@ == b@),
    decreases a, 1nat,
{
    proof {
        assert(decreases_to!(*a => a.source));
    }
    fact_eq(&a.fact, &b.fact) && source_eq(&a.source, &b.source)
}

/// Whether two derivation sources have the same model.
pub fn source_eq(a: &DerivationSource, b: &DerivationSource) -> (r: bool)
    ensures
        r == (source_view(*a) == source_view(*b)),
    decreases a, 0nat,
{
    match (a, b) {
        (DerivationSource::Base, DerivationSource::Base) => true,
        (
            DerivationSource::Rule { rule_name: n1, rule_id: i1, premises: p1 },
            DerivationSource::Rule { rule_name: n2, rule_id: i2, premises: p2 },
        ) => {
            proof {
                lemma_derivations_view(p1@);
                lemma_derivations_view(p2@);
            }
            if *n1 != *n2 || *i1 != *i2 || p1.len() != p2.len() {
                assert(derivations_view(p1@).len() != derivations_view(p2@).len() || n1@ != n2@ || *i1
                    != *i2);
                return false;
            }
            let mut i: usize = 0;
            while i < p1.len()
                invariant
                    *a == (DerivationSource::Rule { rule_name: *n1, rule_id: *i1, premises: *p1 }),
                    *b == (DerivationSource::Rule { rule_name: *n2, rule_id: *i2, premises: *p2 }),
                    n1@ == n2@,
                    *i1 == *i2,
                    p1@.len() == p2@.len(),
                    i <= p1@.len(),
                    derivations_view(p1@).len() == p1@.len(),
                    derivations_view(p2@).len() == p2@.len(),
                    forall|j: int| 0 <= j < p1@.len() ==> #[trigger] derivations_view(p1@)[j] == p1@[j]@,
                    forall|j: int| 0 <= j < p2@.len() ==> #[trigger] derivations_view(p2@)[j] == p2@[j]@,
                    forall|j: int| 0 <= j < i ==> p1@[j]@ == p2@[j]@,
                decreases p1.len() - i,
            {
                proof {
                    assert(decreases_to!(*a => (*a)->premises));
                    assert(decreases_to!(*p1 => p1[i as int]));
                    assert(decreases_to!(*a => p1[i as int]));
                }
                if !derivation_eq(&p1[i], &p2[i]) {
                    assert(derivations_view(p1@)[i as int] != derivations_view(p2@)[i as int]);
                    return false;
                }
                i = i + 1;
            }
            assert(derivations_view(p1@) =~= derivations_view(p2@));
            true
        },
        _ => false,
    }
}

impl Clone for Derivation {
    fn clone(&self) -> (r: Self)
        ensures
            r@ == self@,
    {
        derivation_clone(self)
    }
}

impl PartialEq for Derivation {
    fn eq(&self, other: &Self) -> (r: bool) {
        derivation_eq(self, other)
    }
}

impl vstd::std_specs::cmp::PartialEqSpecImpl for Derivation {
    open spec fn obeys_eq_spec() -> bool {
        true
    }

    open spec fn eq_spec(&self, other: &Self) -> bool {
        self@ == other@
    }
}

impl Eq for Derivation {}

impl PartialEq for DerivationSource {
    fn eq(&self, other: &Self) -> (r: bool) {
        source_eq(self, other)
    }
}

impl vstd::std_specs::cmp::PartialEqSpecImpl for DerivationSource {
    open spec fn obeys_eq_spec() -> bool {
        true
    }

    open spec fn eq_spec(&self, other: &Self) -> bool {
        source_view(*self) == source_view(*other)
    }
}

impl Eq for DerivationSource {}


/// The models of a tracker's entries: each fact with its derivations.
pub open spec fn entries_view(s: Seq<(Fact, Vec<Derivation>)>) -> Seq<(VFact, Seq<VDerivation>)> {
    s.map_values(|e: (Fact, Vec<Derivation>)| (e.0@, derivations_view(e.1@)))
}

/// The position of a fact among the entries.
pub open spec fn entry_index(entries: Seq<(VFact, Seq<VDerivation>)>, f: VFact) -> Option<int>
    decreases entries.len(),
{
    if entries.len() == 0 {
        None
    } else {
        match entry_index(entries.drop_last(), f) {
            Some(i) => Some(i),
            None => if entries.last().0 == f {
                Some(entries.len() - 1)
            } else {
                None
            },
        }
    }
}

/// The derivations recorded for a fact, if any.
pub open spec fn lookup(entries: Seq<(VFact, Seq<VDerivation>)>, f: VFact) -> Option<Seq<VDerivation>> {
    match entry_index(entries, f) {
        Some(i) => Some(entries[i].1),
        None => None,
    }
}

/// Recording one more derivation of a fact.
pub open spec fn entries_add(entries: Seq<(VFact, Seq<VDerivation>)>, f: VFact, d: VDerivation) -> Seq<
    (VFact, Seq<VDerivation>),
> {
    match entry_index(entries, f) {
        Some(i) => entries.update(i, (f, entries[i].1.push(d))),
        None => entries.push((f, seq![d])),
    }
}

/// Adding a derivation to the cache unless an equal one is there.
pub open spec fn cache_add(cache: Seq<VDerivation>, d: VDerivation) -> Seq<VDerivation> {
    if cache.contains(d) {
        cache
    } else {
        cache.push(d)
    }
}

/// The derivation of a base fact.
pub open spec fn base_of(f: VFact) -> VDerivation {
    VDerivation { fact: f, source: VSource::Base }
}

/// The derivations standing for the premises of a rule application: all
/// those recorded for each premise, or a base derivation for one without any;
/// and the cache after adding those base derivations.
pub open spec fn premise_derivations(
    entries: Seq<(VFact, Seq<VDerivation>)>,
    cache: Seq<VDerivation>,
    premises: Seq<VFact>,
) -> (Seq<VDerivation>, Seq<VDerivation>)
    decreases premises.len(),
{
    if premises.len() == 0 {
        (Seq::empty(), cache)
    } else {
        let (ds, c) = premise_derivations(entries, cache, premises.drop_last());
        match lookup(entries, premises.last()) {
            Some(list) => (ds + list, c),
            None => (ds.push(base_of(premises.last())), cache_add(c, base_of(premises.last()))),
        }
    }
}

/// Model of a provenance tracker.
pub struct VTracker {
    /// Each fact with its derivations, in order of first record
    pub entries: Seq<(VFact, Seq<VDerivation>)>,
    /// The distinct derivations made so far
    pub cache: Seq<VDerivation>,
    /// Whether recording is on
    pub enabled: bool,
}

/// Records how facts were derived.
#[derive(Debug)]
pub struct ProvenanceTracker {
    derivations: Vec<(Fact, Vec<Derivation>)>,
    derivation_cache: Vec<Derivation>,
    enabled: bool,
}

impl View for ProvenanceTracker {
    type V = VTracker;

    closed spec fn view(&self) -> VTracker {
        VTracker {
            entries: entries_view(self.derivations@),
            cache: derivations_view(self.derivation_cache@),
            enabled: self.enabled,
        }
    }
}

/// No fact has two entries.
pub open spec fn keys_distinct(entries: Seq<(VFact, Seq<VDerivation>)>) -> bool {
    forall|i: int, j: int| 0 <= i < j < entries.len() ==> entries[i].0 != entries[j].0
}

/// Every entry holds at least one derivation.
pub open spec fn lists_nonempty(entries: Seq<(VFact, Seq<VDerivation>)>) -> bool {
    forall|i: int| 0 <= i < entries.len() ==> #[trigger] entries[i].1.len() > 0
}

proof fn lemma_entry_index(entries: Seq<(VFact, Seq<VDerivation>)>, f: VFact)
    ensures
        match entry_index(entries, f) {
            Some(i) => 0 <= i < entries.len() && entries[i].0 == f && forall|j: int|
                0 <= j < i ==> entries[j].0 != f,
            None => forall|j: int| 0 <= j < entries.len() ==> entries[j].0 != f,
        },
    decreases entries.len(),
{
    if entries.len() > 0 {
        lemma_entry_index(entries.drop_last(), f);
        assert forall|j: int| 0 <= j < entries.len() - 1 implies entries.drop_last()[j] == entries[j] by {
        }
    }
}

proof fn lemma_first_match(entries: Seq<(VFact, Seq<VDerivation>)>, f: VFact, i: int)
    requires
        0 <= i < entries.len(),
        entries[i].0 == f,
        forall|j: int| 0 <= j < i ==> entries[j].0 != f,
    ensures
        entry_index(entries, f) == Some(i),
{
    lemma_entry_index(entries, f);
    match entry_index(entries, f) {
        Some(k) => {
            if k < i {
                assert(entries[k].0 != f);
            } else if k > i {
                assert(entries[i].0 != f);
            }
        },
        None => {
            assert(entries[i].0 != f);
        },
    }
}

proof fn lemma_entries_view(s: Seq<(Fact, Vec<Derivation>)>)
    ensures
        entries_view(s).len() == s.len(),
        forall|k: int| 0 <= k < s.len() ==> #[trigger] entries_view(s)[k] == (s[k].0@, derivations_view(s[k].1@)),
{
}

/// Adds a derivation to the cache unless an equal one is there; gives the cached one.
fn cache_get_or_add(cache: &mut Vec<Derivation>, d: Derivation) -> (r: Derivation)
    ensures
        r@ == d@,
        derivations_view(final(cache)@) == cache_add(derivations_view(old(cache)@), d@),
{
    proof {
        lemma_derivations_view(cache@);
    }
    let mut i: usize = 0;
    while i < cache.len()
        invariant
            i <= cache@.len(),
            derivations_view(cache@).len() == cache@.len(),
            forall|j: int| 0 <= j < cache@.len() ==> #[trigger] derivations_view(cache@)[j] == cache@[j]@,
            forall|j: int| 0 <= j < i ==> cache@[j]@ != d@,
        decreases cache.len() - i,
    {
        if derivation_eq(&cache[i], &d) {
            assert(derivations_view(cache@).contains(d@)) by {
                assert(derivations_view(cache@)[i as int] == d@);
            }
            return derivation_clone(&cache[i]);
        }
        i = i + 1;
    }
    assert(!derivations_view(cache@).contains(d@)) by {
        if derivations_view(cache@).contains(d@) {
            let k = choose|k: int| 0 <= k < derivations_view(cache@).len() && derivations_view(cache@)[k] == d@;
            assert(cache@[k]@ == d@);
        }
    }
    let r = derivation_clone(&d);
    let ghost before = cache@;
    cache.push(d);
    proof {
        lemma_derivations_view(cache@);
        lemma_derivations_view(before);
        assert(derivations_view(cache@) =~= derivations_view(before).push(r@));
    }
    r
}

/// Copies of derivations.
pub fn derivations_clone(v: &Vec<Derivation>) -> (r: Vec<Derivation>)
    ensures
        derivations_view(r@) == derivations_view(v@),
{
    let mut out: Vec<Derivation> = Vec::new();
    let mut i: usize = 0;
    while i < v.len()
        invariant
            i <= v@.len(),
            out@.len() == i,
            forall|j: int| 0 <= j < i ==> #[trigger] out@[j]@ == v@[j]@,
        decreases v.len() - i,
    {
        out.push(derivation_clone(&v[i]));
        i = i + 1;
    }
    proof {
        lemma_derivations_view(out@);
        lemma_derivations_view(v@);
        assert(derivations_view(out@) =~= derivations_view(v@));
    }
    out
}

/// Records one more derivation of a fact.
fn entries_add_exec(entries: &mut Vec<(Fact, Vec<Derivation>)>, f: Fact, d: Derivation)
    requires
        keys_distinct(entries_view(old(entries)@)),
        lists_nonempty(entries_view(old(entries)@)),
    ensures
        entries_view(final(entries)@) == entries_add(entries_view(old(entries)@), f@, d@),
        keys_distinct(entries_view(final(entries)@)),
        lists_nonempty(entries_view(final(entries)@)),
{
    let ghost ev = entries_view(entries@);
    proof {
        lemma_entry_index(ev, f@);
    }
    let mut i: usize = 0;
    while i < entries.len()
        invariant
            i <= entries@.len(),
            ev == entries_view(entries@),
            ev == entries_view(old(entries)@),
            keys_distinct(ev),
            lists_nonempty(ev),
            forall|j: int| 0 <= j < i ==> entries@[j].0@ != f@,
        decreases entries.len() - i,
    {
        if fact_eq(&entries[i].0, &f) {
            proof {
                lemma_entries_view(entries@);
                assert forall|j: int| 0 <= j < i implies ev[j].0 != f@ by {
                    assert(ev[j] == (entries@[j].0@, derivations_view(entries@[j].1@)));
                }
                assert(ev[i as int] == (entries@[i as int].0@, derivations_view(entries@[i as int].1@)));
                lemma_first_match(ev, f@, i as int);
            }
            let ghost dv = d@;
            let key = entries[i].0.clone();
            let mut list = derivations_clone(&entries[i].1);
            let ghost before = list@;
            let ghost lv = derivations_view(list@);
            list.push(d);
            proof {
                assert(list@.drop_last() =~= before);
                assert(derivations_view(list@) == lv.push(dv));
            }
            entries.set(i, (key, list));
            proof {
                lemma_entries_view(entries@);
                assert(entries_view(entries@) =~= ev.update(i as int, (f@, ev[i as int].1.push(dv))));
                assert forall|a: int, b: int| 0 <= a < b < entries_view(entries@).len() implies
                    entries_view(entries@)[a].0 != entries_view(entries@)[b].0 by {
                    assert(ev[a].0 != ev[b].0);
                }
            }
            return;
        }
        i = i + 1;
    }
    proof {
        assert forall|j: int| 0 <= j < ev.len() implies ev[j].0 != f@ by {
            assert(ev[j].0 == entries@[j].0@);
        }
        lemma_entry_index(ev, f@);
    }
    let ghost fv = f@;
    let ghost dv = d@;
    let mut list: Vec<Derivation> = Vec::new();
    list.push(d);
    proof {
        lemma_derivations_view(list@);
        assert(derivations_view(list@) =~= seq![dv]);
    }
    entries.push((f, list));
    assert(entries_view(entries@) =~= ev.push((fv, seq![dv])));
}

impl ProvenanceTracker {
    #[verifier::type_invariant]
    spec fn inv(self) -> bool {
        &&& keys_distinct(entries_view(self.derivations@))
        &&& lists_nonempty(entries_view(self.derivations@))
    }

    /// A tracker, recording or not.
    pub fn new(enabled: bool) -> (r: Self)
        ensures
            r@ == (VTracker { entries: Seq::empty(), cache: Seq::empty(), enabled }),
    {
        let r = ProvenanceTracker { derivations: Vec::new(), derivation_cache: Vec::new(), enabled };
        assert(entries_view(r.derivations@) =~= Seq::<(VFact, Seq<VDerivation>)>::empty());
        assert(derivations_view(r.derivation_cache@) =~= Seq::<VDerivation>::empty());
        r
    }

    /// Record a base fact (nothing happens when recording is off).
    pub fn record_base(&mut self, fact: Fact)
        ensures
            !old(self)@.enabled ==> final(self)@ == old(self)@,
            old(self)@.enabled ==> final(self)@ == (VTracker {
                entries: entries_add(old(self)@.entries, fact@, base_of(fact@)),
                cache: cache_add(old(self)@.cache, base_of(fact@)),
                enabled: true,
            }),
    {
        proof {
            use_type_invariant(&*self);
        }
        if !self.enabled {
            return;
        }
        let d = Derivation { fact: fact.clone(), source: DerivationSource::Base };
        let mut cache: Vec<Derivation> = Vec::new();
        std::mem::swap(&mut cache, &mut self.derivation_cache);
        let cached = cache_get_or_add(&mut cache, d);
        self.derivation_cache = cache;
        let mut entries: Vec<(Fact, Vec<Derivation>)> = Vec::new();
        std::mem::swap(&mut entries, &mut self.derivations);
        entries_add_exec(&mut entries, fact, cached);
        self.derivations = entries;
    }

    /// Record a fact derived by a rule from premises (nothing happens when
    /// recording is off); each premise stands by all its recorded derivations,
    /// or by a base derivation where it has none.
    pub fn record_derived(&mut self, fact: Fact, rule_name: String, rule_id: usize, premises: Vec<Fact>)
        ensures
            !old(self)@.enabled ==> final(self)@ == old(self)@,
            old(self)@.enabled ==> ({
                let (ds, c) = premise_derivations(old(self)@.entries, old(self)@.cache, facts_view(premises@));
                let d = VDerivation {
                    fact: fact@,
                    source: VSource::Rule { name: rule_name@, id: rule_id, premises: ds },
                };
                final(self)@ == (VTracker {
                    entries: entries_add(old(self)@.entries, fact@, d),
                    cache: cache_add(c, d),
                    enabled: true,
                })
            }),
    {
        proof {
            use_type_invariant(&*self);
        }
        if !self.enabled {
            return;
        }
        let ghost ev = entries_view(self.derivations@);
        let mut cache: Vec<Derivation> = Vec::new();
        std::mem::swap(&mut cache, &mut self.derivation_cache);
        let ghost c0 = derivations_view(cache@);
        let mut ds: Vec<Derivation> = Vec::new();
        let mut k: usize = 0;
        assert(facts_view(premises@).take(0) =~= Seq::<VFact>::empty());
        assert(derivations_view(ds@) =~= Seq::<VDerivation>::empty());
        while k < premises.len()
            invariant
                k <= premises@.len(),
                ev == entries_view(self.derivations@),
                keys_distinct(ev),
                lists_nonempty(ev),
                (derivations_view(ds@), derivations_view(cache@)) == premise_derivations(
                    ev,
                    c0,
                    facts_view(premises@).take(k as int),
                ),
            decreases premises.len() - k,
        {
            assert(facts_view(premises@).take(k + 1).drop_last() =~= facts_view(premises@).take(k as int));
            assert(facts_view(premises@).take(k + 1).last() == premises@[k as int]@);
            match self.find_entry(&premises[k]) {
                Some(j) => {
                    let ghost before = derivations_view(ds@);
                    let list = &self.derivations[j].1;
                    let mut t: usize = 0;
                    proof {
                        lemma_derivations_view(list@);
                    }
                    while t < list.len()
                        invariant
                            t <= list@.len(),
                            derivations_view(list@).len() == list@.len(),
                            forall|q: int| 0 <= q < list@.len() ==> #[trigger] derivations_view(list@)[q] == list@[q]@,
                            derivations_view(ds@) == before + derivations_view(list@).take(t as int),
                        decreases list.len() - t,
                    {
                        let ghost b2 = ds@;
                        ds.push(derivation_clone(&list[t]));
                        proof {
                            lemma_derivations_view(ds@);
                            lemma_derivations_view(b2);
                            assert(derivations_view(ds@) =~= derivations_view(b2).push(list@[t as int]@));
                            assert(derivations_view(list@).take(t + 1) =~= derivations_view(list@).take(t as int).push(derivations_view(list@)[t as int]));
                        }
                        t = t + 1;
                    }
                    assert(derivations_view(list@).take(t as int) =~= derivations_view(list@));
                },
                None => {
                    let b = Derivation { fact: premises[k].clone(), source: DerivationSource::Base };
                    let cached = cache_get_or_add(&mut cache, b);
                    let ghost before = ds@;
                    ds.push(cached);
                    proof {
                        lemma_derivations_view(ds@);
                        lemma_derivations_view(before);
                        assert(derivations_view(ds@) =~= derivations_view(before).push(base_of(premises@[k as int]@)));
                    }
                },
            }
            k = k + 1;
        }
        assert(facts_view(premises@).take(k as int) =~= facts_view(premises@));
        let ghost dsv = derivations_view(ds@);
        let d = Derivation {
            fact: fact.clone(),
            source: DerivationSource::Rule { rule_name, rule_id, premises: ds },
        };
        let cached = cache_get_or_add(&mut cache, d);
        self.derivation_cache = cache;
        let mut entries: Vec<(Fact, Vec<Derivation>)> = Vec::new();
        std::mem::swap(&mut entries, &mut self.derivations);
        entries_add_exec(&mut entries, fact, cached);
        self.derivations = entries;
    }

    /// All derivations recorded for a fact (none when it has no entry).
    pub fn get_derivations(&self, fact: &Fact) -> (r: Vec<Derivation>)
        ensures
            derivations_view(r@) == match lookup(self@.entries, fact@) {
                Some(l) => l,
                None => Seq::<VDerivation>::empty(),
            },
    {
        match self.find_entry(fact) {
            Some(j) => derivations_clone(&self.derivations[j].1),
            None => {
                let v: Vec<Derivation> = Vec::new();
                assert(derivations_view(v@) =~= Seq::<VDerivation>::empty());
                v
            },
        }
    }

    /// Whether a fact has any recorded derivation.
    pub fn has_derivation(&self, fact: &Fact) -> (r: bool)
        ensures
            r == lookup(self@.entries, fact@) is Some,
    {
        self.find_entry(fact).is_some()
    }

    /// A proof tree for a fact: its first recorded derivation.
    pub fn get_proof_tree(&self, fact: &Fact) -> (r: Option<ProofTree>)
        ensures
            match lookup(self@.entries, fact@) {
                Some(l) => l.len() > 0 && r is Some && r->0.root@ == l[0],
                None => r is None,
            },
    {
        proof {
            use_type_invariant(self);
        }
        match self.find_entry(fact) {
            Some(j) => {
                proof {
                    lemma_entries_view(self.derivations@);
                    let ev = entries_view(self.derivations@);
                    lemma_entry_index(ev, fact@);
                    let k = entry_index(ev, fact@)->0;
                    assert(ev[k].1.len() > 0);
                    lemma_derivations_view(self.derivations@[j as int].1@);
                }
                let list = &self.derivations[j].1;
                Some(ProofTree { root: derivation_clone(&list[0]) })
            },
            None => None,
        }
    }

    /// A human-readable explanation of how a fact was derived.
    pub fn explain(&self, fact: &Fact) -> (r: String)
        requires
            lookup(self@.entries, fact@) matches Some(l) ==> vdepth(l[0]) <= usize::MAX,
        ensures
            match lookup(self@.entries, fact@) {
                Some(l) => exists|d: Derivation| d@ == l[0] && r@ == #[trigger] explanation_text(d, 0),
                None => r@ == "No derivation found for: "@ + fact_text(
                    fact.predicate@,
                    values_view(fact.args@),
                    fact.timestamp,
                ),
            },
    {
        match self.get_proof_tree(fact) {
            Some(proof_tree) => proof_tree.to_explanation(),
            None => {
                let mut out = owned("No derivation found for: ");
                let text = fact_debug(fact.predicate.as_str(), &fact.args, fact.timestamp);
                out.append(text.as_str());
                out
            },
        }
    }

    /// Forget everything recorded.
    pub fn clear(&mut self)
        ensures
            final(self)@ == (VTracker { entries: Seq::empty(), cache: Seq::empty(), enabled: old(self)@.enabled }),
    {
        self.derivations = Vec::new();
        self.derivation_cache = Vec::new();
        assert(entries_view(self.derivations@) =~= Seq::<(VFact, Seq<VDerivation>)>::empty());
        assert(derivations_view(self.derivation_cache@) =~= Seq::<VDerivation>::empty());
    }

    /// Turn recording on or off; turning it off forgets everything recorded.
    pub fn set_enabled(&mut self, enabled: bool)
        ensures
            enabled ==> final(self)@ == (VTracker { enabled: true, ..old(self)@ }),
            !enabled ==> final(self)@ == (VTracker { entries: Seq::empty(), cache: Seq::empty(), enabled: false }),
    {
        proof {
            use_type_invariant(&*self);
        }
        self.enabled = enabled;
        if !enabled {
            self.clear();
        }
    }

    /// Counts of what was recorded.
    pub fn stats(&self) -> (r: ProvenanceStats)
        requires
            total_derivations(self@.entries) <= usize::MAX,
        ensures
            r.total_facts == self@.entries.len(),
            r.total_derivations == total_derivations(self@.entries),
            r.cached_nodes == self@.cache.len(),
            r.enabled == self@.enabled,
    {
        proof {
            lemma_entries_view(self.derivations@);
            lemma_derivations_view(self.derivation_cache@);
        }
        let ghost ev = entries_view(self.derivations@);
        let mut total: usize = 0;
        let mut i: usize = 0;
        while i < self.derivations.len()
            invariant
                i <= self.derivations@.len(),
                ev == entries_view(self.derivations@),
                ev.len() == self.derivations@.len(),
                total_derivations(ev) <= usize::MAX,
                total == total_derivations(ev.take(i as int)),
            decreases self.derivations.len() - i,
        {
            proof {
                lemma_entries_view(self.derivations@);
                lemma_derivations_view(self.derivations@[i as int].1@);
                assert(ev.take(i + 1).drop_last() =~= ev.take(i as int));
                lemma_total_prefix(ev, i + 1);
            }
            total = total + self.derivations[i].1.len();
            i = i + 1;
        }
        assert(ev.take(i as int) =~= ev);
        ProvenanceStats {
            total_facts: self.derivations.len(),
            total_derivations: total,
            cached_nodes: self.derivation_cache.len(),
            enabled: self.enabled,
        }
    }

    /// The position of a fact's entry.
    fn find_entry(&self, fact: &Fact) -> (r: Option<usize>)
        ensures
            match r {
                Some(j) => j < self.derivations@.len() && lookup(self@.entries, fact@) == Some(
                    derivations_view(self.derivations@[j as int].1@),
                ),
                None => lookup(self@.entries, fact@) is None,
            },
    {
        let ghost ev = entries_view(self.derivations@);
        proof {
            lemma_entry_index(ev, fact@);
        }
        let mut i: usize = 0;
        while i < self.derivations.len()
            invariant
                i <= self.derivations@.len(),
                ev == entries_view(self.derivations@),
                forall|j: int| 0 <= j < i ==> self.derivations@[j].0@ != fact@,
            decreases self.derivations.len() - i,
        {
            if fact_eq(&self.derivations[i].0, fact) {
                proof {
                    lemma_entries_view(self.derivations@);
                    assert forall|j: int| 0 <= j < i implies ev[j].0 != fact@ by {
                        assert(ev[j] == (self.derivations@[j].0@, derivations_view(self.derivations@[j].1@)));
                    }
                    assert(ev[i as int] == (self.derivations@[i as int].0@, derivations_view(self.derivations@[i as int].1@)));
                    lemma_first_match(ev, fact@, i as int);
                }
                return Some(i);
            }
            i = i + 1;
        }
        proof {
            lemma_entries_view(self.derivations@);
            assert forall|j: int| 0 <= j < ev.len() implies ev[j].0 != fact@ by {
                assert(ev[j] == (self.derivations@[j].0@, derivations_view(self.derivations@[j].1@)));
            }
            lemma_entry_index(ev, fact@);
        }
        None
    }
}


/// The number of derivations over all entries.
pub open spec fn total_derivations(entries: Seq<(VFact, Seq<VDerivation>)>) -> nat
    decreases entries.len(),
{
    if entries.len() == 0 {
        0
    } else {
        total_derivations(entries.drop_last()) + entries.last().1.len()
    }
}

proof fn lemma_total_prefix(entries: Seq<(VFact, Seq<VDerivation>)>, k: int)
    requires
        0 <= k <= entries.len(),
    ensures
        total_derivations(entries.take(k)) <= total_derivations(entries),
    decreases entries.len(),
{
    if k < entries.len() {
        assert(entries.drop_last().take(k) =~= entries.take(k));
        lemma_total_prefix(entries.drop_last(), k);
    } else {
        assert(entries.take(k) =~= entries);
    }
}

/// Reading back after recording: once a derivation of a fact is recorded,
/// the fact's derivations are those it had before, then the new one; the
/// derivations of every other fact are unchanged.
pub proof fn law_record_then_lookup(entries: Seq<(VFact, Seq<VDerivation>)>, f: VFact, d: VDerivation, g: VFact)
    requires
        keys_distinct(entries),
    ensures
        lookup(entries_add(entries, f, d), f) == Some(
            match lookup(entries, f) {
                Some(l) => l.push(d),
                None => seq![d],
            },
        ),
        g != f ==> lookup(entries_add(entries, f, d), g) == lookup(entries, g),
        keys_distinct(entries_add(entries, f, d)),
{
    lemma_entry_index(entries, f);
    lemma_entry_index(entries, g);
    let e2 = entries_add(entries, f, d);
    lemma_entry_index(e2, f);
    lemma_entry_index(e2, g);
    match entry_index(entries, f) {
        Some(i) => {
            lemma_first_match(e2, f, i);
            match entry_index(entries, g) {
                Some(k) => {
                    if g != f {
                        lemma_first_match(e2, g, k);
                    }
                },
                None => {},
            }
        },
        None => {
            lemma_first_match(e2, f, entries.len() as int);
            match entry_index(entries, g) {
                Some(k) => {
                    if g != f {
                        lemma_first_match(e2, g, k);
                    }
                },
                None => {},
            }
        },
    }
}

/// Counts of what a tracker recorded.
#[derive(Debug, Clone)]
pub struct ProvenanceStats {
    /// Number of facts with provenance
    pub total_facts: usize,
    /// Number of derivations over all facts
    pub total_derivations: usize,
    /// Number of distinct derivation nodes
    pub cached_nodes: usize,
    /// Whether recording is on
    pub enabled: bool,
}

/// The depth of a derivation: one for a base fact, one more than its deepest
/// premise for a rule application.
pub open spec fn vdepth(d: VDerivation) -> nat
    decreases d, 0nat,
{
    match d.source {
        VSource::Base => 1,
        VSource::Rule { premises, .. } => 1 + max_depth(premises),
    }
}

/// The greatest depth among derivations (zero for none).
pub open spec fn max_depth(ps: Seq<VDerivation>) -> nat
    decreases ps, 1nat,
{
    if ps.len() == 0 {
        0
    } else {
        let a = max_depth(ps.drop_last());
        let b = vdepth(ps.last());
        if a >= b {
            a
        } else {
            b
        }
    }
}

proof fn lemma_max_depth(ps: Seq<VDerivation>, i: int)
    requires
        0 <= i < ps.len(),
    ensures
        vdepth(ps[i]) <= max_depth(ps),
    decreases ps.len(),
{
    if i < ps.len() - 1 {
        assert(ps.drop_last()[i] == ps[i]);
        lemma_max_depth(ps.drop_last(), i);
    }
}

/// Indentation: two spaces per level.
pub open spec fn indent_text(n: nat) -> Seq<char>
    decreases n,
{
    if n == 0 {
        Seq::empty()
    } else {
        indent_text((n - 1) as nat) + "  "@
    }
}

/// The explanation of a derivation at an indentation level: a bullet line for
/// the fact and how it was obtained, then, for a rule with premises, a
/// "because:" line and the premises one level deeper, each on its own line.
pub open spec fn explanation_text(d: Derivation, indent: nat) -> Seq<char>
    decreases d, 0nat,
{
    let head = indent_text(indent) + "• "@ + fact_text(
        d.fact.predicate@,
        values_view(d.fact.args@),
        d.fact.timestamp,
    );
    match d.source {
        DerivationSource::Base => head + " (base fact)"@,
        DerivationSource::Rule { rule_name, premises, .. } => {
            let line = head + " (by "@ + rule_name@ + ")"@;
            if premises@.len() == 0 {
                line
            } else {
                line + "\n"@ + indent_text(indent) + "  because:"@ + premises_text(premises@, indent + 1)
            }
        },
    }
}

/// The explanations of premises, each after a line break.
pub open spec fn premises_text(ps: Seq<Derivation>, indent: nat) -> Seq<char>
    decreases ps, 1nat,
{
    if ps.len() == 0 {
        Seq::empty()
    } else {
        premises_text(ps.drop_last(), indent) + "\n"@ + explanation_text(ps.last(), indent)
    }
}

/// A proof tree: the derivation of a fact, as the root of its premises.
#[derive(Debug)]
pub struct ProofTree {
    /// Root derivation
    pub root: Derivation,
}

impl Clone for ProofTree {
    fn clone(&self) -> (r: Self)
        ensures
            r.root@ == self.root@,
    {
        ProofTree { root: derivation_clone(&self.root) }
    }
}

fn indent_string(n: usize) -> (r: String)
    ensures
        r@ == indent_text(n as nat),
{
    let mut s = owned("");
    let mut i: usize = 0;
    proof {
        reveal_strlit("");
    }
    while i < n
        invariant
            i <= n,
            s@ == indent_text(i as nat),
        decreases n - i,
    {
        s.append("  ");
        i = i + 1;
    }
    s
}

impl ProofTree {
    /// The explanation of the whole tree.
    pub fn to_explanation(&self) -> (r: String)
        requires
            vdepth(self.root@) <= usize::MAX,
        ensures
            r@ == explanation_text(self.root, 0),
    {
        format_derivation(&self.root, 0)
    }

    /// The number of nodes met by a depth-first walk that counts each fact once.
    pub fn node_count(&self) -> (r: usize)
        requires
            count_nodes_spec(self.root@, Set::empty()).0 <= usize::MAX,
        ensures
            r == count_nodes_spec(self.root@, Set::empty()).0,
    {
        let mut visited: Vec<Fact> = Vec::new();
        assert(facts_view(visited@).to_set() =~= Set::<VFact>::empty());
        count_nodes(&self.root, &mut visited)
    }

    /// The depth of the tree.
    pub fn depth(&self) -> (r: usize)
        requires
            vdepth(self.root@) <= usize::MAX,
        ensures
            r == vdepth(self.root@),
    {
        compute_depth(&self.root)
    }
}

fn format_derivation(d: &Derivation, indent: usize) -> (r: String)
    requires
        indent + vdepth(d@) <= usize::MAX,
    ensures
        r@ == explanation_text(*d, indent as nat),
    decreases d, 0nat,
{
    let pad = indent_string(indent);
    let mut out = pad.clone();
    out.append("• ");
    let shown = fact_debug(d.fact.predicate.as_str(), &d.fact.args, d.fact.timestamp);
    out.append(shown.as_str());
    let ghost head = out@;
    match &d.source {
        DerivationSource::Base => {
            out.append(" (base fact)");
        },
        DerivationSource::Rule { rule_name, premises, .. } => {
            out.append(" (by ");
            out.append(rule_name.as_str());
            out.append(")");
            if premises.len() > 0 {
                out.append("\n");
                out.append(pad.as_str());
                out.append("  because:");
                let ghost before = out@;
                proof {
                    lemma_derivations_view(premises@);
                }
                let mut i: usize = 0;
                while i < premises.len()
                    invariant
                        d.source == (DerivationSource::Rule {
                            rule_name: *rule_name,
                            rule_id: (d.source)->rule_id,
                            premises: *premises,
                        }),
                        indent + vdepth(d@) <= usize::MAX,
                        i <= premises@.len(),
                        derivations_view(premises@).len() == premises@.len(),
                        forall|j: int| 0 <= j < premises@.len() ==> #[trigger] derivations_view(premises@)[j] == premises@[j]@,
                        out@ == before + premises_text(premises@.take(i as int), indent as nat + 1),
                    decreases premises.len() - i,
                {
                    proof {
                        assert(decreases_to!(*d => (*d).source));
                        assert(decreases_to!((*d).source => (d.source)->premises));
                        assert(decreases_to!(*premises => premises[i as int]));
                        assert(decreases_to!(*d => premises[i as int]));
                        lemma_max_depth(derivations_view(premises@), i as int);
                        assert(premises@.take(i + 1).drop_last() =~= premises@.take(i as int));
                    }
                    let sub = format_derivation(&premises[i], indent + 1);
                    out.append("\n");
                    out.append(sub.as_str());
                    i = i + 1;
                }
                assert(premises@.take(i as int) =~= premises@);
            }
        },
    }
    out
}

/// A depth-first count of the nodes of a derivation whose facts were not yet
/// visited, with the visited facts after the walk.
pub open spec fn count_nodes_spec(d: VDerivation, visited: Set<VFact>) -> (nat, Set<VFact>)
    decreases d, 0nat,
{
    if visited.contains(d.fact) {
        (0, visited)
    } else {
        let v1 = visited.insert(d.fact);
        match d.source {
            VSource::Base => (1, v1),
            VSource::Rule { premises, .. } => {
                let (n, v2) = count_list_spec(premises, v1);
                (1 + n, v2)
            },
        }
    }
}

/// The depth-first count over derivations in order.
pub open spec fn count_list_spec(ps: Seq<VDerivation>, visited: Set<VFact>) -> (nat, Set<VFact>)
    decreases ps, 1nat,
{
    if ps.len() == 0 {
        (0, visited)
    } else {
        let (n1, v1) = count_list_spec(ps.drop_last(), visited);
        let (n2, v2) = count_nodes_spec(ps.last(), v1);
        (n1 + n2, v2)
    }
}

proof fn lemma_count_prefix(ps: Seq<VDerivation>, visited: Set<VFact>, k: int)
    requires
        0 <= k <= ps.len(),
    ensures
        count_list_spec(ps.take(k), visited).0 <= count_list_spec(ps, visited).0,
    decreases ps.len(),
{
    if k < ps.len() {
        assert(ps.drop_last().take(k) =~= ps.take(k));
        lemma_count_prefix(ps.drop_last(), visited, k);
    } else {
        assert(ps.take(k) =~= ps);
    }
}

fn count_nodes(d: &Derivation, visited: &mut Vec<Fact>) -> (r: usize)
    requires
        count_nodes_spec(d@, facts_view(old(visited)@).to_set()).0 <= usize::MAX,
    ensures
        (r as nat, facts_view(final(visited)@).to_set()) == count_nodes_spec(
            d@,
            facts_view(old(visited)@).to_set(),
        ),
    decreases d, 0nat,
{
    if fact_in(visited, &d.fact) {
        return 0;
    }
    let ghost vb = visited@;
    visited.push(d.fact.clone());
    proof {
        assert(facts_view(visited@) =~= facts_view(vb).push(d.fact@));
        lemma_push_to_set(facts_view(vb), d.fact@);
    }
    match &d.source {
        DerivationSource::Base => 1,
        DerivationSource::Rule { premises, .. } => {
            proof {
                lemma_derivations_view(premises@);
            }
            let ghost ps = derivations_view(premises@);
            let ghost v1 = facts_view(visited@).to_set();
            proof {
                lemma_count_prefix(ps, v1, ps.len() as int);
            }
            let mut total: usize = 0;
            let mut i: usize = 0;
            assert(ps.take(0) =~= Seq::<VDerivation>::empty());
            while i < premises.len()
                invariant
                    d.source == (DerivationSource::Rule {
                        rule_name: (d.source)->rule_name,
                        rule_id: (d.source)->rule_id,
                        premises: *premises,
                    }),
                    ps == derivations_view(premises@),
                    i <= premises@.len(),
                    ps.len() == premises@.len(),
                    forall|j: int| 0 <= j < premises@.len() ==> #[trigger] ps[j] == premises@[j]@,
                    1 + count_list_spec(ps, v1).0 <= usize::MAX,
                    (total as nat, facts_view(visited@).to_set()) == count_list_spec(ps.take(i as int), v1),
                decreases premises.len() - i,
            {
                proof {
                    assert(decreases_to!(*d => (*d).source));
                    assert(decreases_to!((*d).source => (d.source)->premises));
                    assert(decreases_to!(*premises => premises[i as int]));
                    assert(decreases_to!(*d => premises[i as int]));
                    assert(ps.take(i + 1).drop_last() =~= ps.take(i as int));
                    assert(ps.take(i + 1).last() == premises@[i as int]@);
                    lemma_count_prefix(ps, v1, i + 1);
                }
                let n = count_nodes(&premises[i], visited);
                total = total + n;
                i = i + 1;
            }
            assert(ps.take(i as int) =~= ps);
            1 + total
        },
    }
}

fn compute_depth(d: &Derivation) -> (r: usize)
    requires
        vdepth(d@) <= usize::MAX,
    ensures
        r == vdepth(d@),
    decreases d, 0nat,
{
    match &d.source {
        DerivationSource::Base => 1,
        DerivationSource::Rule { premises, .. } => {
            proof {
                lemma_derivations_view(premises@);
            }
            let ghost ps = derivations_view(premises@);
            let mut m: usize = 0;
            let mut i: usize = 0;
            while i < premises.len()
                invariant
                    d.source == (DerivationSource::Rule {
                        rule_name: (d.source)->rule_name,
                        rule_id: (d.source)->rule_id,
                        premises: *premises,
                    }),
                    vdepth(d@) <= usize::MAX,
                    ps == derivations_view(premises@),
                    i <= premises@.len(),
                    ps.len() == premises@.len(),
                    forall|j: int| 0 <= j < premises@.len() ==> #[trigger] ps[j] == premises@[j]@,
                    m == max_depth(ps.take(i as int)),
                decreases premises.len() - i,
            {
                proof {
                    assert(decreases_to!(*d => (*d).source));
                    assert(decreases_to!((*d).source => (d.source)->premises));
                    assert(decreases_to!(*premises => premises[i as int]));
                    assert(decreases_to!(*d => premises[i as int]));
                    lemma_max_depth(ps, i as int);
                    assert(ps.take(i + 1).drop_last() =~= ps.take(i as int));
                    assert(ps.take(i + 1).last() == ps[i as int]);
                }
                let v = compute_depth(&premises[i]);
                if v > m {
                    m = v;
                }
                i = i + 1;
            }
            assert(ps.take(i as int) =~= ps);
            1 + m
        },
    }
}


/// The number of nodes of a derivation tree.
pub open spec fn vsize(d: VDerivation) -> nat
    decreases d, 0nat,
{
    match d.source {
        VSource::Base => 1,
        VSource::Rule { premises, .. } => 1 + vsizes(premises),
    }
}

/// The number of nodes of derivation trees together.
pub open spec fn vsizes(ps: Seq<VDerivation>) -> nat
    decreases ps, 1nat,
{
    if ps.len() == 0 {
        0
    } else {
        vsizes(ps.drop_last()) + vsize(ps.last())
    }
}

pub proof fn lemma_sizes_concat(a: Seq<VDerivation>, b: Seq<VDerivation>)
    ensures
        vsizes(a + b) == vsizes(a) + vsizes(b),
    decreases b.len(),
{
    if b.len() > 0 {
        assert((a + b).drop_last() =~= a + b.drop_last());
        lemma_sizes_concat(a, b.drop_last());
    } else {
        assert(a + b =~= a);
    }
}

pub proof fn lemma_sizes_first(q: Seq<VDerivation>)
    requires
        q.len() > 0,
    ensures
        vsizes(q) == vsize(q[0]) + vsizes(q.drop_first()),
{
    let s1 = seq![q[0]];
    assert(s1.drop_last() =~= Seq::<VDerivation>::empty());
    assert(vsizes(s1) == vsizes(s1.drop_last()) + vsize(s1.last()));
    assert(vsizes(s1) == vsize(q[0]));
    assert(q =~= s1 + q.drop_first());
    lemma_sizes_concat(s1, q.drop_first());
}

/// The premises whose facts have not been seen, in order.
pub open spec fn fresh_premises(ps: Seq<VDerivation>, seen: Set<VFact>) -> Seq<VDerivation>
    decreases ps.len(),
{
    if ps.len() == 0 {
        Seq::empty()
    } else {
        let r = fresh_premises(ps.drop_last(), seen);
        if seen.contains(ps.last().fact) {
            r
        } else {
            r.push(ps.last())
        }
    }
}

pub proof fn lemma_fresh_le(ps: Seq<VDerivation>, seen: Set<VFact>)
    ensures
        vsizes(fresh_premises(ps, seen)) <= vsizes(ps),
    decreases ps.len(),
{
    if ps.len() > 0 {
        lemma_fresh_le(ps.drop_last(), seen);
        let r = fresh_premises(ps.drop_last(), seen);
        if !seen.contains(ps.last().fact) {
            assert(r.push(ps.last()).drop_last() =~= r);
        }
    }
}

/// What a search step queues after a derivation: its premises whose facts
/// have not been seen.
pub open spec fn queued_after(d: VDerivation, seen: Set<VFact>) -> Seq<VDerivation> {
    match d.source {
        VSource::Base => Seq::empty(),
        VSource::Rule { premises, .. } => fresh_premises(premises, seen),
    }
}

pub proof fn lemma_search_step(q: Seq<VDerivation>, seen: Set<VFact>)
    requires
        q.len() > 0,
    ensures
        vsizes(q.drop_first() + queued_after(q[0], seen)) < vsizes(q),
{
    lemma_sizes_first(q);
    lemma_sizes_concat(q.drop_first(), queued_after(q[0], seen));
    match q[0].source {
        VSource::Base => {},
        VSource::Rule { premises, .. } => {
            lemma_fresh_le(premises, seen);
        },
    }
}

/// The facts reached by a breadth-first search from a queue: each derivation
/// taken from the front adds its fact, and its premises whose facts are not
/// yet found go to the back.
pub open spec fn facts_search(found: Set<VFact>, queue: Seq<VDerivation>) -> Set<VFact>
    decreases vsizes(queue),
{
    if queue.len() == 0 {
        found
    } else {
        let f1 = found.insert(queue[0].fact);
        proof {
            lemma_search_step(queue, f1);
        }
        facts_search(f1, queue.drop_first() + queued_after(queue[0], f1))
    }
}

/// What a rule search step queues after a derivation: all its premises.
pub open spec fn premises_of(d: VDerivation) -> Seq<VDerivation> {
    match d.source {
        VSource::Base => Seq::empty(),
        VSource::Rule { premises, .. } => premises,
    }
}

/// The rules (name and id) reached by a breadth-first search from a queue,
/// visiting each fact once: a derivation whose fact was visited is skipped;
/// otherwise its rule, if any, is added and all its premises go to the back.
pub open spec fn rules_search(
    visited: Set<VFact>,
    rules: Set<(Seq<char>, usize)>,
    queue: Seq<VDerivation>,
) -> Set<(Seq<char>, usize)>
    decreases vsizes(queue),
{
    if queue.len() == 0 {
        rules
    } else {
        let d = queue[0];
        proof {
            lemma_search_step(queue, Set::empty());
            lemma_fresh_all(premises_of(d));
        }
        if visited.contains(d.fact) {
            proof {
                lemma_sizes_first(queue);
            }
            rules_search(visited, rules, queue.drop_first())
        } else {
            let v1 = visited.insert(d.fact);
            match d.source {
                VSource::Base => rules_search(v1, rules, queue.drop_first()),
                VSource::Rule { name, id, premises } => rules_search(
                    v1,
                    rules.insert((name, id)),
                    queue.drop_first() + premises,
                ),
            }
        }
    }
}

pub proof fn lemma_fresh_all(ps: Seq<VDerivation>)
    ensures
        fresh_premises(ps, Set::empty()) == ps,
    decreases ps.len(),
{
    if ps.len() > 0 {
        lemma_fresh_all(ps.drop_last());
        assert(ps.drop_last().push(ps.last()) =~= ps);
    }
}

/// The position of the first derivation of least depth.
pub open spec fn first_min_depth(l: Seq<VDerivation>) -> int
    decreases l.len(),
{
    if l.len() <= 1 {
        0
    } else {
        let k = first_min_depth(l.drop_last());
        if vdepth(l.last()) < vdepth(l[k]) {
            l.len() - 1
        } else {
            k
        }
    }
}

proof fn lemma_first_min_depth(l: Seq<VDerivation>)
    requires
        l.len() > 0,
    ensures
        0 <= first_min_depth(l) < l.len(),
        forall|j: int| 0 <= j < l.len() ==> vdepth(l[first_min_depth(l)]) <= #[trigger] vdepth(l[j]),
        forall|j: int| 0 <= j < first_min_depth(l) ==> vdepth(l[first_min_depth(l)]) < #[trigger] vdepth(l[j]),
    decreases l.len(),
{
    if l.len() > 1 {
        lemma_first_min_depth(l.drop_last());
        assert forall|j: int| 0 <= j < l.len() - 1 implies l.drop_last()[j] == l[j] by {}
    }
}

/// The derivation `shortest_proof` answers with has the least depth of all
/// the target's derivations, and every derivation recorded before it is
/// deeper: no recorded proof is shorter, and ties go to the earliest.
pub proof fn law_shortest_proof_least(l: Seq<VDerivation>)
    requires
        l.len() > 0,
    ensures
        0 <= first_min_depth(l) < l.len(),
        forall|j: int| 0 <= j < l.len() ==> vdepth(l[first_min_depth(l)]) <= #[trigger] vdepth(l[j]),
        forall|j: int| 0 <= j < first_min_depth(l) ==> vdepth(l[first_min_depth(l)]) < #[trigger] vdepth(l[j]),
{
    lemma_first_min_depth(l);
}

/// Questions about what a tracker recorded.
pub struct ProvenanceQuery<'a> {
    tracker: &'a ProvenanceTracker,
}

impl<'a> View for ProvenanceQuery<'a> {
    type V = VTracker;

    closed spec fn view(&self) -> VTracker {
        self.tracker@
    }
}

impl<'a> ProvenanceQuery<'a> {
    /// Questions about a tracker.
    pub fn new(tracker: &'a ProvenanceTracker) -> (r: Self)
        ensures
            r@ == tracker@,
    {
        ProvenanceQuery { tracker }
    }

    /// The facts met by a breadth-first search of the target's proof tree
    /// (none when the target has no derivation).
    pub fn contributing_facts(&self, target: &Fact) -> (r: Vec<Fact>)
        ensures
            facts_view(r@).no_duplicates(),
            facts_view(r@).to_set() == match lookup(self@.entries, target@) {
                Some(l) => facts_search(Set::empty(), seq![l[0]]),
                None => Set::empty(),
            },
    {
        let mut result: Vec<Fact> = Vec::new();
        let mut queue: Vec<Derivation> = Vec::new();
        if let Some(proof_tree) = self.tracker.get_proof_tree(target) {
            queue.push(proof_tree.root);
        }
        let ghost goal = facts_search(Set::empty(), derivations_view(queue@));
        proof {
            lemma_derivations_view(queue@);
            assert(facts_view(result@) =~= Seq::<VFact>::empty());
            assert(facts_view(result@).to_set() =~= Set::<VFact>::empty());
            assert(derivations_view(queue@).skip(0) =~= derivations_view(queue@));
            match lookup(self@.entries, target@) {
                Some(l) => assert(derivations_view(queue@) =~= seq![l[0]]),
                None => assert(derivations_view(queue@) =~= Seq::<VDerivation>::empty()),
            }
        }
        let mut head: usize = 0;
        while head < queue.len()
            invariant
                head <= queue@.len(),
                facts_view(result@).no_duplicates(),
                derivations_view(queue@).len() == queue@.len(),
                forall|j: int| 0 <= j < queue@.len() ==> #[trigger] derivations_view(queue@)[j] == queue@[j]@,
                facts_search(facts_view(result@).to_set(), derivations_view(queue@).skip(head as int)) == goal,
            decreases vsizes(derivations_view(queue@).skip(head as int)),
        {
            let ghost q0 = derivations_view(queue@).skip(head as int);
            let ghost found0 = facts_view(result@).to_set();
            let d = derivation_clone(&queue[head]);
            assert(q0[0] == d@);
            if !fact_in(&result, &d.fact) {
                let ghost before = result@;
                result.push(d.fact.clone());
                proof {
                    assert(facts_view(result@) =~= facts_view(before).push(d.fact@));
                    lemma_push_to_set(facts_view(before), d.fact@);
                }
            } else {
                assert(found0.insert(d.fact@) =~= found0);
            }
            let ghost found1 = facts_view(result@).to_set();
            assert(found1 == found0.insert(d@.fact));
            let ghost qlen = queue@.len();
            let ghost qv0 = derivations_view(queue@);
            match &d.source {
                DerivationSource::Base => {},
                DerivationSource::Rule { premises, .. } => {
                    proof {
                        lemma_derivations_view(premises@);
                    }
                    let ghost ps = derivations_view(premises@);
                    let mut i: usize = 0;
                    while i < premises.len()
                        invariant
                            i <= premises@.len(),
                            ps == derivations_view(premises@),
                            ps.len() == premises@.len(),
                            forall|j: int| 0 <= j < premises@.len() ==> #[trigger] ps[j] == premises@[j]@,
                            facts_view(result@).to_set() == found1,
                            qlen <= queue@.len(),
                            derivations_view(queue@).len() == queue@.len(),
                            forall|j: int| 0 <= j < queue@.len() ==> #[trigger] derivations_view(queue@)[j] == queue@[j]@,
                            derivations_view(queue@) == qv0 + fresh_premises(ps.take(i as int), found1),
                        decreases premises.len() - i,
                    {
                        assert(ps.take(i + 1).drop_last() =~= ps.take(i as int));
                        assert(ps.take(i + 1).last() == premises@[i as int]@);
                        if !fact_in(&result, &premises[i].fact) {
                            let ghost qb = queue@;
                            queue.push(derivation_clone(&premises[i]));
                            proof {
                                lemma_derivations_view(queue@);
                                lemma_derivations_view(qb);
                                assert(derivations_view(queue@) =~= derivations_view(qb).push(premises@[i as int]@));
                            }
                        }
                        i = i + 1;
                    }
                    assert(ps.take(i as int) =~= ps);
                },
            }
            proof {
                lemma_derivations_view(queue@);
                assert(derivations_view(queue@) == qv0 + queued_after(d@, found1));
                assert(derivations_view(queue@).skip(head + 1) =~= q0.drop_first() + queued_after(q0[0], found1));
                lemma_search_step(q0, found1);
            }
            head = head + 1;
        }
        result
    }

    /// The rules (name and id) met by a breadth-first search of the target's
    /// proof tree that visits each fact once (none when the target has no
    /// derivation).
    pub fn contributing_rules(&self, target: &Fact) -> (r: Vec<(String, usize)>)
        ensures
            rule_keys(r@).no_duplicates(),
            rule_keys(r@).to_set() == match lookup(self@.entries, target@) {
                Some(l) => rules_search(Set::empty(), Set::empty(), seq![l[0]]),
                None => Set::empty(),
            },
    {
        let mut result: Vec<(String, usize)> = Vec::new();
        let mut visited: Vec<Fact> = Vec::new();
        let mut queue: Vec<Derivation> = Vec::new();
        if let Some(proof_tree) = self.tracker.get_proof_tree(target) {
            queue.push(proof_tree.root);
        }
        let ghost goal = rules_search(Set::empty(), Set::empty(), derivations_view(queue@));
        proof {
            lemma_derivations_view(queue@);
            assert(facts_view(visited@).to_set() =~= Set::<VFact>::empty());
            assert(rule_keys(result@) =~= Seq::<(Seq<char>, usize)>::empty());
            assert(rule_keys(result@).to_set() =~= Set::<(Seq<char>, usize)>::empty());
            assert(derivations_view(queue@).skip(0) =~= derivations_view(queue@));
            match lookup(self@.entries, target@) {
                Some(l) => assert(derivations_view(queue@) =~= seq![l[0]]),
                None => assert(derivations_view(queue@) =~= Seq::<VDerivation>::empty()),
            }
        }
        let mut head: usize = 0;
        while head < queue.len()
            invariant
                head <= queue@.len(),
                rule_keys(result@).no_duplicates(),
                derivations_view(queue@).len() == queue@.len(),
                forall|j: int| 0 <= j < queue@.len() ==> #[trigger] derivations_view(queue@)[j] == queue@[j]@,
                rules_search(
                    facts_view(visited@).to_set(),
                    rule_keys(result@).to_set(),
                    derivations_view(queue@).skip(head as int),
                ) == goal,
            decreases vsizes(derivations_view(queue@).skip(head as int)),
        {
            let ghost q0 = derivations_view(queue@).skip(head as int);
            let ghost vis0 = facts_view(visited@).to_set();
            let ghost rules0 = rule_keys(result@).to_set();
            let d = derivation_clone(&queue[head]);
            assert(q0[0] == d@);
            proof {
                lemma_search_step(q0, Set::empty());
                lemma_fresh_all(premises_of(q0[0]));
                lemma_sizes_first(q0);
            }
            if fact_in(&visited, &d.fact) {
                assert(derivations_view(queue@).skip(head + 1) =~= q0.drop_first());
                head = head + 1;
            } else {
                let ghost vb = visited@;
                visited.push(d.fact.clone());
                proof {
                    assert(facts_view(visited@) =~= facts_view(vb).push(d.fact@));
                    lemma_push_to_set(facts_view(vb), d.fact@);
                }
                let ghost qv0 = derivations_view(queue@);
                match &d.source {
                    DerivationSource::Base => {
                        assert(derivations_view(queue@).skip(head + 1) =~= q0.drop_first());
                    },
                    DerivationSource::Rule { rule_name, rule_id, premises } => {
                        if !rule_key_in(&result, rule_name, *rule_id) {
                            let ghost rb = result@;
                            result.push((owned(rule_name.as_str()), *rule_id));
                            proof {
                                assert(rule_keys(result@) =~= rule_keys(rb).push((rule_name@, *rule_id)));
                                lemma_push_to_set(rule_keys(rb), (rule_name@, *rule_id));
                            }
                        } else {
                            assert(rules0.insert((rule_name@, *rule_id)) =~= rules0);
                        }
                        proof {
                            lemma_derivations_view(premises@);
                        }
                        let mut i: usize = 0;
                        while i < premises.len()
                            invariant
                                i <= premises@.len(),
                                derivations_view(premises@).len() == premises@.len(),
                                forall|j: int| 0 <= j < premises@.len() ==> #[trigger] derivations_view(premises@)[j] == premises@[j]@,
                                derivations_view(queue@).len() == queue@.len(),
                                forall|j: int| 0 <= j < queue@.len() ==> #[trigger] derivations_view(queue@)[j] == queue@[j]@,
                                derivations_view(queue@) == qv0 + derivations_view(premises@).take(i as int),
                            decreases premises.len() - i,
                        {
                            let ghost qb = queue@;
                            queue.push(derivation_clone(&premises[i]));
                            proof {
                                lemma_derivations_view(queue@);
                                lemma_derivations_view(qb);
                                assert(derivations_view(queue@) =~= derivations_view(qb).push(premises@[i as int]@));
                                assert(derivations_view(premises@).take(i + 1) =~= derivations_view(premises@).take(i as int).push(premises@[i as int]@));
                            }
                            i = i + 1;
                        }
                        assert(derivations_view(premises@).take(i as int) =~= derivations_view(premises@));
                        assert(derivations_view(queue@).skip(head + 1) =~= q0.drop_first() + derivations_view(premises@));
                    },
                }
                head = head + 1;
            }
        }
        result
    }

    /// The first of the target's derivations of least depth, as a proof tree.
    pub fn shortest_proof(&self, target: &Fact) -> (r: Option<ProofTree>)
        requires
            lookup(self@.entries, target@) matches Some(l) ==> forall|i: int|
                0 <= i < l.len() ==> vdepth(#[trigger] l[i]) <= usize::MAX,
        ensures
            match lookup(self@.entries, target@) {
                Some(l) => l.len() > 0 && r is Some && r->0.root@ == l[first_min_depth(l)],
                None => r is None,
            },
    {
        proof {
            use_type_invariant(self.tracker);
        }
        let list = self.tracker.get_derivations(target);
        let ghost l = derivations_view(list@);
        proof {
            lemma_derivations_view(list@);
            match lookup(self@.entries, target@) {
                Some(l) => {
                    let ev = entries_view(self.tracker.derivations@);
                    lemma_entry_index(ev, target@);
                    let k = entry_index(ev, target@)->0;
                    assert(ev[k].1.len() > 0);
                },
                None => {},
            }
        }
        if list.len() == 0 {
            return None;
        }
        proof {
            assert(lookup(self@.entries, target@) is Some);
            assert(forall|j: int| 0 <= j < l.len() ==> vdepth(#[trigger] l[j]) <= usize::MAX);
            assert(l[0] == list@[0]@);
        }
        let mut best: usize = 0;
        let mut best_depth: usize = compute_depth(&list[0]);
        let mut i: usize = 1;
        while i < list.len()
            invariant
                1 <= i <= list@.len(),
                l == derivations_view(list@),
                l.len() == list@.len(),
                forall|j: int| 0 <= j < list@.len() ==> #[trigger] l[j] == list@[j]@,
                forall|j: int| 0 <= j < l.len() ==> vdepth(#[trigger] l[j]) <= usize::MAX,
                best == first_min_depth(l.take(i as int)),
                best < i,
                best_depth == vdepth(l[best as int]),
            decreases list.len() - i,
        {
            assert(l.take(i + 1).drop_last() =~= l.take(i as int));
            proof {
                lemma_first_min_depth(l.take(i as int));
                assert(l[i as int] == list@[i as int]@);
                assert(vdepth(l[i as int]) <= usize::MAX);
            }
            let v = compute_depth(&list[i]);
            if v < best_depth {
                best = i;
                best_depth = v;
            }
            i = i + 1;
        }
        assert(l.take(i as int) =~= l);
        Some(ProofTree { root: derivation_clone(&list[best]) })
    }
}

/// The models of rule keys.
pub open spec fn rule_keys(s: Seq<(String, usize)>) -> Seq<(Seq<char>, usize)> {
    s.map_values(|e: (String, usize)| (e.0@, e.1))
}

fn rule_key_in(v: &Vec<(String, usize)>, name: &String, id: usize) -> (r: bool)
    ensures
        r == rule_keys(v@).contains((name@, id)),
{
    let mut i: usize = 0;
    while i < v.len()
        invariant
            i <= v@.len(),
            forall|j: int| 0 <= j < i ==> (v@[j].0@, v@[j].1) != (name@, id),
        decreases v.len() - i,
    {
        if v[i].1 == id && v[i].0 == *name {
            assert(rule_keys(v@)[i as int] == (name@, id));
            return true;
        }
        i = i + 1;
    }
    assert(!rule_keys(v@).contains((name@, id))) by {
        if rule_keys(v@).contains((name@, id)) {
            let k = choose|k: int| 0 <= k < rule_keys(v@).len() && rule_keys(v@)[k] == (name@, id);
            assert(rule_keys(v@)[k] == (v@[k].0@, v@[k].1));
        }
    }
    false
}

} // verus!
