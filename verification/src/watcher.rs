//! File change events, and the debouncer that holds each file's latest event
//! until no new one came for a while.
use vstd::prelude::*;
use crate::facts::clock_nanos;

verus! {

broadcast use vstd::std_specs::vec::group_vec_axioms;

/// Type of file change.
#[derive(Debug, Clone, Copy, PartialEq, Eq, Structural)]
pub enum ChangeKind {
    /// File was created
    Created,
    /// File was modified
    Modified,
    /// File was removed
    Removed,
}

/// A file change: the file's path, the kind of change, and when it was seen
/// (nanoseconds on the clock the watcher reads).
#[derive(Debug)]
pub struct FileChangeEvent {
    /// Path that changed
    pub path: String,
    /// Type of change
    pub kind: ChangeKind,
    /// When the change was seen
    pub timestamp: u64,
}

impl Clone for FileChangeEvent {
    fn clone(&self) -> (r: Self)
        ensures
            r.path@ == self.path@,
            r.kind == self.kind,
            r.timestamp == self.timestamp,
    {
        FileChangeEvent { path: self.path.clone(), kind: self.kind, timestamp: self.timestamp }
    }
}

/// Model of an event.
pub open spec fn event_view(e: FileChangeEvent) -> (Seq<char>, ChangeKind, u64) {
    (e.path@, e.kind, e.timestamp)
}

/// Models of the pending events, by path.
pub open spec fn pending_view(s: Seq<(String, FileChangeEvent)>) -> Seq<(Seq<char>, (Seq<char>, ChangeKind, u64))> {
    s.map_values(|e: (String, FileChangeEvent)| (e.0@, event_view(e.1)))
}

/// Models of the last event times, by path.
pub open spec fn times_view(s: Seq<(String, u64)>) -> Seq<(Seq<char>, u64)> {
    s.map_values(|e: (String, u64)| (e.0@, e.1))
}

/// Whether `i` is the first position of a key.
pub open spec fn first_at<V>(s: Seq<(Seq<char>, V)>, k: Seq<char>, i: int) -> bool {
    0 <= i < s.len() && s[i].0 == k && forall|j: int| 0 <= j < i ==> s[j].0 != k
}

/// Setting the value of a key: replaced at its first position, or added at the end.
pub open spec fn set_key<V>(s: Seq<(Seq<char>, V)>, k: Seq<char>, v: V) -> Seq<(Seq<char>, V)> {
    if exists|i: int| first_at(s, k, i) {
        let i = choose|i: int| first_at(s, k, i);
        s.update(i, (k, v))
    } else {
        s.push((k, v))
    }
}

/// Keys appear at most once.
pub open spec fn keys_unique<V>(s: Seq<(Seq<char>, V)>) -> bool {
    forall|i: int, j: int| 0 <= i < j < s.len() ==> s[i].0 != s[j].0
}

/// Holds back file events until they settle: an event is released once no
/// newer event for its path came within the debounce duration.
#[derive(Debug)]
pub struct EventDebouncer {
    /// How long an event must stay alone before it is released, in nanoseconds
    duration_ns: u64,
    /// Pending events, by path (the latest one for each path)
    pending: Vec<(String, FileChangeEvent)>,
    /// When the latest event for each path came
    last_event_time: Vec<(String, u64)>,
}

fn find_key<V>(s: &Vec<(String, V)>, k: &String) -> (r: Option<usize>)
    ensures
        match r {
            Some(i) => i < s@.len() && s@[i as int].0@ == k@ && forall|j: int| 0 <= j < i ==> s@[j].0@ != k@,
            None => forall|j: int| 0 <= j < s@.len() ==> s@[j].0@ != k@,
        },
{
    let mut i: usize = 0;
    while i < s.len()
        invariant
            i <= s@.len(),
            forall|j: int| 0 <= j < i ==> s@[j].0@ != k@,
        decreases s.len() - i,
    {
        if s[i].0 == *k {
            return Some(i);
        }
        i = i + 1;
    }
    None
}

/// The events released at a moment: for each path in the order of its last
/// event time entry whose time is at least the duration before the moment,
/// its pending event (if any); and what stays pending and timed.
pub open spec fn settle(
    pending: Seq<(Seq<char>, (Seq<char>, ChangeKind, u64))>,
    times: Seq<(Seq<char>, u64)>,
    now: u64,
    dur: u64,
) -> (Seq<(Seq<char>, ChangeKind, u64)>, Seq<(Seq<char>, (Seq<char>, ChangeKind, u64))>, Seq<(Seq<char>, u64)>)
    decreases times.len(),
{
    if times.len() == 0 {
        (Seq::empty(), pending, Seq::empty())
    } else {
        let (out, p, t) = settle(pending, times.drop_last(), now, dur);
        let (k, at) = times.last();
        if now - at >= dur && exists|i: int| first_at(p, k, i) {
            let i = choose|i: int| first_at(p, k, i);
            (out.push(p[i].1), p.remove(i), t)
        } else {
            (out, p, t.push((k, at)))
        }
    }
}

impl EventDebouncer {
    /// Each path has at most one pending event and one time.
    #[verifier::type_invariant]
    spec fn inv(self) -> bool {
        &&& keys_unique(pending_view(self.pending@))
        &&& keys_unique(times_view(self.last_event_time@))
    }

    /// How long an event must stay alone before it is released, in nanoseconds.
    pub closed spec fn duration(&self) -> u64 {
        self.duration_ns
    }

    /// The pending events, by path.
    pub closed spec fn pending_events(&self) -> Seq<(Seq<char>, (Seq<char>, ChangeKind, u64))> {
        pending_view(self.pending@)
    }

    /// The time of the latest event of each path.
    pub closed spec fn event_times(&self) -> Seq<(Seq<char>, u64)> {
        times_view(self.last_event_time@)
    }

    /// The number of pending events.
    pub fn pending_count(&self) -> (r: usize)
        ensures
            r == self.pending_events().len(),
    {
        self.pending.len()
    }

    /// The number of paths with a recorded event time.
    pub fn timed_count(&self) -> (r: usize)
        ensures
            r == self.event_times().len(),
    {
        self.last_event_time.len()
    }

    /// A debouncer that waits `duration_ns` nanoseconds.
    pub fn new(duration_ns: u64) -> (r: Self)
        ensures
            r.duration() == duration_ns,
            r.pending_events().len() == 0,
            r.event_times().len() == 0,
    {
        EventDebouncer { duration_ns, pending: Vec::new(), last_event_time: Vec::new() }
    }

    /// Record an event now (reads the clock).
    pub fn add_event(&mut self, event: FileChangeEvent)
        ensures
            final(self).duration() == old(self).duration(),
            final(self).pending_events() == set_key(old(self).pending_events(), event.path@, event_view(event)),
            exists|now: u64| final(self).event_times() == #[trigger] set_key(old(self).event_times(), event.path@, now),
    {
        let now = clock_nanos();
        self.add_event_at(event, now);
    }

    /// Record an event at a moment: it replaces the pending event of its
    /// path, and the moment becomes the path's last event time.
    pub fn add_event_at(&mut self, event: FileChangeEvent, now: u64)
        ensures
            final(self).duration() == old(self).duration(),
            final(self).pending_events() == set_key(old(self).pending_events(), event.path@, event_view(event)),
            final(self).event_times() == set_key(old(self).event_times(), event.path@, now),
    {
        proof {
            use_type_invariant(&*self);
        }
        let ghost pv = pending_view(self.pending@);
        let ghost tv = times_view(self.last_event_time@);
        let ghost ev = event_view(event);
        let path = event.path.clone();
        let mut pending: Vec<(String, FileChangeEvent)> = Vec::new();
        std::mem::swap(&mut pending, &mut self.pending);
        match find_key(&pending, &event.path) {
            Some(i) => {
                let k = event.path.clone();
                pending.set(i, (k, event));
                proof {
                    lemma_set_key_at(pv, path@, ev, i as int);
                    assert(pending_view(pending@) =~= pv.update(i as int, (path@, ev)));
                }
            },
            None => {
                let k = event.path.clone();
                pending.push((k, event));
                proof {
                    lemma_set_key_absent(pv, path@, ev);
                    assert(pending_view(pending@) =~= pv.push((path@, ev)));
                }
            },
        }
        proof {
            lemma_set_key_unique(pv, path@, ev);
        }
        self.pending = pending;
        let mut times: Vec<(String, u64)> = Vec::new();
        std::mem::swap(&mut times, &mut self.last_event_time);
        match find_key(&times, &path) {
            Some(i) => {
                times.set(i, (path.clone(), now));
                proof {
                    lemma_set_key_at(tv, path@, now, i as int);
                    assert(times_view(times@) =~= tv.update(i as int, (path@, now)));
                }
            },
            None => {
                times.push((path.clone(), now));
                proof {
                    lemma_set_key_absent(tv, path@, now);
                    assert(times_view(times@) =~= tv.push((path@, now)));
                }
            },
        }
        proof {
            lemma_set_key_unique(tv, path@, now);
        }
        self.last_event_time = times;
    }

    /// Release the events that settled by now (reads the clock).
    pub fn get_settled_events(&mut self) -> (r: Vec<FileChangeEvent>)
        ensures
            final(self).duration() == old(self).duration(),
            exists|now: u64| #[trigger] settle(old(self).pending_events(), old(self).event_times(), now, old(self).duration()) == (
                r@.map_values(|e: FileChangeEvent| event_view(e)),
                final(self).pending_events(),
                final(self).event_times(),
            ) && released_exactly(
                old(self).pending_events(),
                old(self).event_times(),
                now,
                old(self).duration(),
                r@.map_values(|e: FileChangeEvent| event_view(e)),
                final(self).pending_events(),
            ),
    {
        let now = clock_nanos();
        let r = self.settled_at(now);
        assert(settle(old(self).pending_events(), old(self).event_times(), now, old(self).duration()) == (
            r@.map_values(|e: FileChangeEvent| event_view(e)),
            self.pending_events(),
            self.event_times(),
        ));
        r
    }

    /// Release the events that settled by a moment (see `settle`).
    pub fn settled_at(&mut self, now: u64) -> (r: Vec<FileChangeEvent>)
        ensures
            final(self).duration() == old(self).duration(),
            ({
                let (out, p, t) = settle(old(self).pending_events(), old(self).event_times(), now, old(self).duration());
                &&& r@.map_values(|e: FileChangeEvent| event_view(e)) == out
                &&& final(self).pending_events() == p
                &&& final(self).event_times() == t
            }),
            released_exactly(
                old(self).pending_events(),
                old(self).event_times(),
                now,
                old(self).duration(),
                r@.map_values(|e: FileChangeEvent| event_view(e)),
                final(self).pending_events(),
            ),
    {
        proof {
            use_type_invariant(&*self);
        }
        let ghost p0 = pending_view(self.pending@);
        let ghost t0 = times_view(self.last_event_time@);
        let mut times: Vec<(String, u64)> = Vec::new();
        std::mem::swap(&mut times, &mut self.last_event_time);
        let mut pend: Vec<(String, FileChangeEvent)> = Vec::new();
        std::mem::swap(&mut pend, &mut self.pending);
        let mut kept: Vec<(String, u64)> = Vec::new();
        let mut out: Vec<FileChangeEvent> = Vec::new();
        let mut i: usize = 0;
        assert(t0.take(0) =~= Seq::<(Seq<char>, u64)>::empty());
        assert(out@.map_values(|e: FileChangeEvent| event_view(e)) =~= Seq::<(Seq<char>, ChangeKind, u64)>::empty());
        assert(times_view(kept@) =~= Seq::<(Seq<char>, u64)>::empty());
        while i < times.len()
            invariant
                i <= times@.len(),
                t0 == times_view(times@),
                self.duration_ns == old(self).duration(),
                ({
                    let (o, p, t) = settle(p0, t0.take(i as int), now, self.duration_ns);
                    &&& out@.map_values(|e: FileChangeEvent| event_view(e)) == o
                    &&& pending_view(pend@) == p
                    &&& times_view(kept@) == t
                }),
            decreases times.len() - i,
        {
            assert(t0.take(i + 1).drop_last() =~= t0.take(i as int));
            assert(t0.take(i + 1).last() == (times@[i as int].0@, times@[i as int].1));
            let ghost pb = pending_view(pend@);
            let ghost ob = out@.map_values(|e: FileChangeEvent| event_view(e));
            let ghost kb = times_view(kept@);
            let at = times[i].1;
            let settled = if now >= at { now - at >= self.duration_ns } else { false };
            let found = if settled { find_key(&pend, &times[i].0) } else { None };
            match found {
                Some(j) => {
                    let entry = pend.remove(j);
                    let ghost evv = event_view(entry.1);
                    proof {
                        assert(first_at(pb, times@[i as int].0@, j as int)) by {
                            assert forall|q: int| 0 <= q < j implies pb[q].0 != times@[i as int].0@ by {
                            }
                        }
                        lemma_first_unique(pb, times@[i as int].0@, j as int);
                    }
                    out.push(entry.1);
                    assert(out@.map_values(|e: FileChangeEvent| event_view(e)) =~= ob.push(evv));
                    assert(pending_view(pend@) =~= pb.remove(j as int));
                },
                None => {
                    kept.push((times[i].0.clone(), at));
                    assert(times_view(kept@) =~= kb.push((times@[i as int].0@, at)));
                },
            }
            i = i + 1;
        }
        assert(t0.take(i as int) =~= t0);
        proof {
            law_settle_releases_expired(p0, t0, now, self.duration_ns);
        }
        self.pending = pend;
        self.last_event_time = kept;
        out
    }

    /// Whether any event is pending.
    pub fn has_pending(&self) -> (r: bool)
        ensures
            r == (self.pending_events().len() > 0),
    {
        self.pending.len() > 0
    }

    /// Drop all pending events.
    pub fn clear(&mut self)
        ensures
            final(self).duration() == old(self).duration(),
            final(self).pending_events().len() == 0,
            final(self).event_times().len() == 0,
    {
        proof {
            use_type_invariant(&*self);
        }
        let empty: Vec<(String, FileChangeEvent)> = Vec::new();
        assert(pending_view(empty@) =~= Seq::<(Seq<char>, (Seq<char>, ChangeKind, u64))>::empty());
        self.pending = empty;
        let no_times: Vec<(String, u64)> = Vec::new();
        assert(times_view(no_times@) =~= Seq::<(Seq<char>, u64)>::empty());
        self.last_event_time = no_times;
    }
}

proof fn lemma_first_unique<V>(s: Seq<(Seq<char>, V)>, k: Seq<char>, i: int)
    requires
        first_at(s, k, i),
    ensures
        (choose|w: int| first_at(s, k, w)) == i,
{
    let w = choose|w: int| first_at(s, k, w);
    assert(first_at(s, k, w));
    if w < i {
        assert(s[w].0 != k);
    } else if w > i {
        assert(s[i].0 != k);
    }
}

proof fn lemma_set_key_at<V>(s: Seq<(Seq<char>, V)>, k: Seq<char>, v: V, i: int)
    requires
        first_at(s, k, i),
    ensures
        set_key(s, k, v) == s.update(i, (k, v)),
{
    lemma_first_unique(s, k, i);
}

proof fn lemma_set_key_absent<V>(s: Seq<(Seq<char>, V)>, k: Seq<char>, v: V)
    requires
        forall|j: int| 0 <= j < s.len() ==> s[j].0 != k,
    ensures
        set_key(s, k, v) == s.push((k, v)),
{
    if exists|i: int| first_at(s, k, i) {
        let i = choose|i: int| first_at(s, k, i);
        assert(s[i].0 != k);
    }
}

/// Setting the value of a key keeps the keys unique.
proof fn lemma_set_key_unique<V>(s: Seq<(Seq<char>, V)>, k: Seq<char>, v: V)
    requires
        keys_unique(s),
    ensures
        keys_unique(set_key(s, k, v)),
{
    if exists|i: int| first_at(s, k, i) {
        let i = choose|i: int| first_at(s, k, i);
        let t = s.update(i, (k, v));
        assert forall|a: int, b: int| 0 <= a < b < t.len() implies t[a].0 != t[b].0 by {
            assert(t[a].0 == s[a].0);
            assert(t[b].0 == s[b].0);
        }
    } else {
        let t = s.push((k, v));
        assert forall|a: int, b: int| 0 <= a < b < t.len() implies t[a].0 != t[b].0 by {
            if b == s.len() && s[a].0 == k {
                assert forall|j: int| 0 <= j < a implies s[j].0 != k by {
                    assert(s[j].0 != s[a].0);
                }
                assert(first_at(s, k, a));
            } else if b < s.len() {
                assert(t[a] == s[a]);
                assert(t[b] == s[b]);
            }
        }
    }
}

/// The events released are exactly the pending events of the paths whose
/// time is at least `dur` before `now`, and exactly the other pending events
/// stay pending.
pub open spec fn released_exactly(
    pending: Seq<(Seq<char>, (Seq<char>, ChangeKind, u64))>,
    times: Seq<(Seq<char>, u64)>,
    now: u64,
    dur: u64,
    out: Seq<(Seq<char>, ChangeKind, u64)>,
    kept: Seq<(Seq<char>, (Seq<char>, ChangeKind, u64))>,
) -> bool {
    &&& forall|x: (Seq<char>, ChangeKind, u64)| #[trigger] out.contains(x) <==> exists|j: int|
        0 <= j < pending.len() && (#[trigger] pending[j]).1 == x && expired(times, pending[j].0, now, dur)
    &&& forall|x: (Seq<char>, (Seq<char>, ChangeKind, u64))| #[trigger] kept.contains(x) <==> pending.contains(x)
        && !expired(times, x.0, now, dur)
}

/// Whether a time entry of `k` is at least `dur` before `now`.
pub open spec fn expired(times: Seq<(Seq<char>, u64)>, k: Seq<char>, now: u64, dur: u64) -> bool {
    exists|i: int| 0 <= i < times.len() && (#[trigger] times[i]).0 == k && now - times[i].1 >= dur
}

/// Settling a debouncer whose paths each have one pending event and one
/// time: the events released are exactly the pending events of the paths
/// whose time is at least the duration before the moment, and exactly the
/// other pending events stay pending.
pub proof fn law_settle_releases_expired(
    pending: Seq<(Seq<char>, (Seq<char>, ChangeKind, u64))>,
    times: Seq<(Seq<char>, u64)>,
    now: u64,
    dur: u64,
)
    requires
        keys_unique(pending),
        keys_unique(times),
    ensures
        keys_unique(settle(pending, times, now, dur).1),
        forall|x: (Seq<char>, ChangeKind, u64)| #[trigger] settle(pending, times, now, dur).0.contains(x) <==> exists|j: int|
            0 <= j < pending.len() && (#[trigger] pending[j]).1 == x && expired(times, pending[j].0, now, dur),
        forall|x: (Seq<char>, (Seq<char>, ChangeKind, u64))| #[trigger] settle(pending, times, now, dur).1.contains(x)
            <==> pending.contains(x) && !expired(times, x.0, now, dur),
        keys_unique(settle(pending, times, now, dur).2),
        forall|y: (Seq<char>, u64)| #[trigger] settle(pending, times, now, dur).2.contains(y) ==> times.contains(y),
    decreases times.len(),
{
    if times.len() > 0 {
        let tl = times.drop_last();
        assert(keys_unique(tl)) by {
            assert forall|i: int, j: int| 0 <= i < j < tl.len() implies #[trigger] tl[i].0 != #[trigger] tl[j].0 by {
                assert(tl[i] == times[i]);
                assert(tl[j] == times[j]);
            }
        }
        law_settle_releases_expired(pending, tl, now, dur);
        let (out0, p0, t0) = settle(pending, tl, now, dur);
        let (k, at) = times.last();
        let n = times.len() - 1;
        assert forall|kk: Seq<char>| #[trigger] expired(times, kk, now, dur) <==> expired(tl, kk, now, dur) || (kk == k
            && now - at >= dur) by {
            if expired(times, kk, now, dur) {
                let i = choose|i: int| 0 <= i < times.len() && (#[trigger] times[i]).0 == kk && now - times[i].1 >= dur;
                if i < n {
                    assert(tl[i] == times[i]);
                }
            }
            if expired(tl, kk, now, dur) {
                let i = choose|i: int| 0 <= i < tl.len() && (#[trigger] tl[i]).0 == kk && now - tl[i].1 >= dur;
                assert(times[i] == tl[i]);
            }
            if kk == k && now - at >= dur {
                assert(times[n].0 == kk);
            }
        }
        assert(!expired(tl, k, now, dur)) by {
            if expired(tl, k, now, dur) {
                let i = choose|i: int| 0 <= i < tl.len() && (#[trigger] tl[i]).0 == k && now - tl[i].1 >= dur;
                assert(times[i].0 == times[n].0);
            }
        }
        assert forall|y: (Seq<char>, u64)| #[trigger] tl.contains(y) implies times.contains(y) && y.0 != k by {
            let q = choose|q: int| 0 <= q < tl.len() && tl[q] == y;
            assert(times[q] == y);
            assert(times[q].0 != times[n].0);
        }
        assert(times[n] == (k, at));
        if !(now - at >= dur && exists|i: int| first_at(p0, k, i)) {
            let t1 = t0.push((k, at));
            assert forall|a: int, b: int| 0 <= a < b < t1.len() implies t1[a].0 != t1[b].0 by {
                assert(t1[a] == t0[a]);
                assert(t0.contains(t0[a]));
                if b < t0.len() {
                    assert(t1[b] == t0[b]);
                }
            }
            assert forall|y: (Seq<char>, u64)| #[trigger] t1.contains(y) implies times.contains(y) by {
                let q = choose|q: int| 0 <= q < t1.len() && t1[q] == y;
                if q < t0.len() {
                    assert(t0[q] == y);
                    assert(t0.contains(y));
                } else {
                    assert(y == times[n]);
                }
            }
        }
        if now - at >= dur && exists|i: int| first_at(p0, k, i) {
            let i = choose|i: int| first_at(p0, k, i);
            let e = p0[i];
            assert(p0.contains(e));
            assert(pending.contains(e) && !expired(tl, e.0, now, dur));
            let p1 = p0.remove(i);
            assert forall|a: int, b: int| 0 <= a < b < p1.len() implies #[trigger] p1[a].0 != #[trigger] p1[b].0 by {
                let a0 = if a < i { a } else { a + 1 };
                let b0 = if b < i { b } else { b + 1 };
                assert(p1[a] == p0[a0]);
                assert(p1[b] == p0[b0]);
            }
            assert forall|x: (Seq<char>, (Seq<char>, ChangeKind, u64))| #[trigger] p1.contains(x) <==> pending.contains(x)
                && !expired(times, x.0, now, dur) by {
                if p1.contains(x) {
                    let q = choose|q: int| 0 <= q < p1.len() && p1[q] == x;
                    let q0 = if q < i { q } else { q + 1 };
                    assert(p1[q] == p0[q0]);
                    assert(p0.contains(x));
                }
                if pending.contains(x) && !expired(times, x.0, now, dur) {
                    assert(p0.contains(x));
                    let q = choose|q: int| 0 <= q < p0.len() && p0[q] == x;
                    assert(x.0 != k);
                    if q < i {
                        assert(p1[q] == x);
                    } else {
                        assert(q != i);
                        assert(p1[q - 1] == x);
                    }
                }
            }
            assert forall|x: (Seq<char>, ChangeKind, u64)| #[trigger] out0.push(e.1).contains(x) <==> exists|j: int|
                0 <= j < pending.len() && (#[trigger] pending[j]).1 == x && expired(times, pending[j].0, now, dur) by {
                if out0.push(e.1).contains(x) {
                    let q = choose|q: int| 0 <= q < out0.push(e.1).len() && out0.push(e.1)[q] == x;
                    if q < out0.len() {
                        assert(out0[q] == x);
                        assert(out0.contains(x));
                        let j = choose|j: int|
                            0 <= j < pending.len() && (#[trigger] pending[j]).1 == x && expired(tl, pending[j].0, now, dur);
                        assert(expired(times, pending[j].0, now, dur));
                    } else {
                        let j = choose|j: int| 0 <= j < pending.len() && pending[j] == e;
                        assert(pending[j].1 == x);
                        assert(expired(times, pending[j].0, now, dur));
                    }
                }
                if exists|j: int| 0 <= j < pending.len() && (#[trigger] pending[j]).1 == x && expired(times, pending[j].0, now, dur) {
                    let j = choose|j: int|
                        0 <= j < pending.len() && (#[trigger] pending[j]).1 == x && expired(times, pending[j].0, now, dur);
                    if expired(tl, pending[j].0, now, dur) {
                        assert(out0.contains(x));
                        let q = choose|q: int| 0 <= q < out0.len() && out0[q] == x;
                        assert(out0.push(e.1)[q] == x);
                    } else {
                        assert(pending[j].0 == k);
                        let je = choose|je: int| 0 <= je < pending.len() && pending[je] == e;
                        if je != j {
                            if je < j {
                                assert(pending[je].0 != pending[j].0);
                            } else {
                                assert(pending[j].0 != pending[je].0);
                            }
                        }
                        assert(out0.push(e.1)[out0.len() as int] == x);
                    }
                }
            }
        } else {
            assert forall|x: (Seq<char>, (Seq<char>, ChangeKind, u64))| #[trigger] p0.contains(x) <==> pending.contains(x)
                && !expired(times, x.0, now, dur) by {
                if p0.contains(x) && now - at >= dur && x.0 == k {
                    let q = choose|q: int| 0 <= q < p0.len() && p0[q] == x;
                    assert forall|j: int| 0 <= j < q implies p0[j].0 != k by {
                        assert(p0[j].0 != p0[q].0);
                    }
                    assert(first_at(p0, k, q));
                }
            }
            assert forall|x: (Seq<char>, ChangeKind, u64)| #[trigger] out0.contains(x) <==> exists|j: int|
                0 <= j < pending.len() && (#[trigger] pending[j]).1 == x && expired(times, pending[j].0, now, dur) by {
                if exists|j: int| 0 <= j < pending.len() && (#[trigger] pending[j]).1 == x && expired(times, pending[j].0, now, dur) {
                    let j = choose|j: int|
                        0 <= j < pending.len() && (#[trigger] pending[j]).1 == x && expired(times, pending[j].0, now, dur);
                    if !expired(tl, pending[j].0, now, dur) {
                        assert(pending.contains(pending[j]));
                        assert(p0.contains(pending[j]));
                        let q = choose|q: int| 0 <= q < p0.len() && p0[q] == pending[j];
                        assert forall|jj: int| 0 <= jj < q implies p0[jj].0 != k by {
                            assert(p0[jj].0 != p0[q].0);
                        }
                        assert(first_at(p0, k, q));
                    }
                }
            }
        }
    }
}

} // verus!
