use std::collections::BTreeMap;
use vstd::hash_map::StringHashMap;
use vstd::prelude::*;
use vstd::std_specs::iter::IteratorSpec;
use vstd::std_specs::cmp::OrdSpec;

verus! {

/// The oldest instant among the keys of `times`.
pub open spec fn oldest(times: Map<i128, Seq<char>>) -> i128 {
    choose|k: i128| times.contains_key(k) && forall|j: i128| times.contains_key(j) ==> k <= j
}

/// Whether `k` is the oldest instant among the keys of `times`.
pub open spec fn is_oldest(times: Map<i128, Seq<char>>, k: i128) -> bool {
    times.contains_key(k) && forall|j: i128| times.contains_key(j) ==> k <= j
}

/// What one visit of `path` at instant `now` does to the two indexes of a history
/// that keeps at most `cap` entries.
pub open spec fn add_step(
    paths: Map<Seq<char>, i128>,
    times: Map<i128, Seq<char>>,
    cap: nat,
    path: Seq<char>,
    now: i128,
) -> (Map<Seq<char>, i128>, Map<i128, Seq<char>>) {
    let p1 = if paths.contains_key(path) { paths.remove(path) } else { paths };
    let t1 = if paths.contains_key(path) { times.remove(paths[path]) } else { times };
    let p2 = p1.insert(path, now);
    let t2 = t1.insert(now, path);
    if t2.len() > cap {
        let k = oldest(t2);
        (p2.remove(t2[k]), t2.remove(k))
    } else {
        (p2, t2)
    }
}

/// The indexes after visiting `visits` in order, the `i`-th at `instants[i]`, starting
/// from `paths` and `times`.
pub open spec fn add_all(
    paths: Map<Seq<char>, i128>,
    times: Map<i128, Seq<char>>,
    cap: nat,
    visits: Seq<Seq<char>>,
    instants: Seq<i128>,
) -> (Map<Seq<char>, i128>, Map<i128, Seq<char>>)
    decreases visits.len(),
{
    if visits.len() == 0 || instants.len() == 0 {
        (paths, times)
    } else {
        let before = add_all(paths, times, cap, visits.drop_last(), instants.drop_last());
        add_step(before.0, before.1, cap, visits.last(), instants.last())
    }
}

/// The two indexes are inverse to each other: each path is recorded at its visit instant
/// and each instant names the path recorded at it.
pub open spec fn consistent(paths: Map<Seq<char>, i128>, times: Map<i128, Seq<char>>) -> bool {
    &&& forall|p: Seq<char>|
        #[trigger] paths.contains_key(p) ==> times.contains_key(paths[p]) && times[paths[p]] == p
    &&& forall|t: i128|
        #[trigger] times.contains_key(t) ==> paths.contains_key(times[t]) && paths[times[t]] == t
}

/// The indexes are finite, no path is recorded at two instants, and the path recorded at
/// each instant has that instant as its last visit in the path index. (The path index
/// may hold more: a path whose instant was taken over by a later visit at the same
/// instant.)
#[verifier::opaque]
pub open spec fn indexes_track(paths: Map<Seq<char>, i128>, times: Map<i128, Seq<char>>) -> bool {
    &&& paths.dom().finite()
    &&& times.dom().finite()
    &&& forall|t1: i128, t2: i128|
        #[trigger] times.contains_key(t1) && #[trigger] times.contains_key(t2) && t1 != t2
            ==> times[t1] != times[t2]
    &&& forall|t: i128|
        #[trigger] times.contains_key(t) ==> paths.contains_key(times[t]) && paths[times[t]] == t
}

/// Capacity of a history made with `max_size`.
pub open spec fn new_capacity(max_size: nat) -> nat {
    if max_size < 1 { 1 } else { max_size }
}

/// `now` is later than every instant recorded in `times`.
pub open spec fn is_fresh(times: Map<i128, Seq<char>>, now: i128) -> bool {
    forall|t: i128| #[trigger] times.contains_key(t) ==> t < now
}

/// `entries` lists every entry of `times` exactly once, as (path, instant),
/// the most recent instant first.
pub open spec fn newest_first(times: Map<i128, Seq<char>>, entries: Seq<(Seq<char>, i128)>) -> bool {
    &&& entries.len() == times.len()
    &&& forall|i: int, j: int| 0 <= i < j < entries.len() ==> entries[j].1 < entries[i].1
    &&& forall|i: int|
        0 <= i < entries.len() ==> times.contains_key(#[trigger] entries[i].1) && times[entries[i].1]
            == entries[i].0
    &&& forall|t: i128| times.contains_key(t) ==> exists|i: int| 0 <= i < entries.len() && #[trigger] entries[i].1 == t
}

/// The entries with each path taken by its characters.
pub open spec fn entry_views(entries: Seq<(i128, String)>) -> Seq<(Seq<char>, i128)> {
    entries.map_values(|e: (i128, String)| (e.1@, e.0))
}

/// The paths among the first `k` items.
pub open spec fn path_prefix(items: Seq<Option<String>>, k: int) -> Seq<Seq<char>> {
    Seq::new(k as nat, |i: int| items[i]->Some_0@)
}

/// Signed nanoseconds since the Unix epoch of an offset that lies `Ok(n)` nanoseconds
/// after or `Err(n)` nanoseconds before it, clamped to the range of `i128`.
pub open spec fn timestamp_spec(offset: Result<u128, u128>) -> i128 {
    match offset {
        Ok(n) => if n <= i128::MAX { n as i128 } else { i128::MAX },
        Err(n) => if n <= i128::MAX { -(n as int) as i128 } else { i128::MIN },
    }
}

/// Whole seconds since the Unix epoch of instant `t`; `0` for an instant before the epoch.
pub open spec fn seconds_spec(t: i128) -> u64 {
    if t < 0 {
        0
    } else if t / 1_000_000_000 > u64::MAX {
        u64::MAX
    } else {
        (t / 1_000_000_000) as u64
    }
}

/// Declares `std::time::SystemTime`, so that an instant read from the clock can pass
/// through verified code.
#[verifier::external_type_specification]
#[verifier::external_body]
pub struct ExSystemTime(std::time::SystemTime);

/// Reads the system clock through `std::time::SystemTime::now`. Nothing is claimed of
/// the instant it returns: it depends on the time and on how the clock is set.
#[verifier::external_body]
fn system_time_now() -> (t: std::time::SystemTime) {
    std::time::SystemTime::now()
}

/// Calls `std::time::SystemTime::duration_since` with the Unix epoch, and hands back the
/// distance in nanoseconds: `Ok` for an instant at or after the epoch, `Err` for one
/// before it. Nothing is claimed of the result, as the instant is opaque here.
#[verifier::external_body]
fn offset_from_unix_epoch(t: &std::time::SystemTime) -> (offset: Result<u128, u128>) {
    match t.duration_since(std::time::UNIX_EPOCH) {
        Ok(d) => Ok(d.as_nanos()),
        Err(e) => Err(e.duration().as_nanos()),
    }
}

/// Turns a distance from the Unix epoch into the instants that a history records.
pub fn timestamp_from_offset(offset: Result<u128, u128>) -> (t: i128)
    ensures
        t == timestamp_spec(offset),
{
    match offset {
        Ok(n) => if n <= 170141183460469231731687303715884105727u128 {
            n as i128
        } else {
            i128::MAX
        },
        Err(n) => if n <= 170141183460469231731687303715884105727u128 {
            -(n as i128)
        } else {
            i128::MIN
        },
    }
}

/// The current instant, in nanoseconds since the Unix epoch.
pub fn now_timestamp() -> i128 {
    let t = system_time_now();
    timestamp_from_offset(offset_from_unix_epoch(&t))
}

/// Whole seconds since the Unix epoch of instant `t`; `0` for an instant before the epoch.
pub fn seconds_since_epoch(t: i128) -> (s: u64)
    ensures
        s == seconds_spec(t),
{
    if t < 0 {
        0
    } else {
        let q = t / 1_000_000_000;
        if q > 18446744073709551615i128 {
            u64::MAX
        } else {
            q as u64
        }
    }
}

/// Directory history of `cd`: the most recently visited paths, each with the instant
/// of its last visit, bounded in number.
pub struct History {
    by_path: StringHashMap<i128>,
    by_time: BTreeMap<i128, String>,
    max_size: usize,
}

/// An item that was not a path.
#[derive(Debug, Clone, Copy, PartialEq, Eq, Structural)]
pub struct NotAPath;

/// Data from the directory history status server that is not text.
#[derive(Debug, Clone, Copy, PartialEq, Eq, Structural)]
pub struct UnexpectedData;

impl History {
    /// Last visit instant of each path, as the path index records it.
    pub closed spec fn paths(&self) -> Map<Seq<char>, i128> {
        self.by_path@
    }

    /// Path visited at each instant, as the time index records it.
    pub closed spec fn times(&self) -> Map<i128, Seq<char>> {
        self.by_time@.map_values(|s: String| s@)
    }

    /// Largest number of entries the time index keeps.
    pub closed spec fn capacity(&self) -> nat {
        self.max_size as nat
    }

    /// The capacity is at least one, the time index keeps within it, and the indexes
    /// track each other as `indexes_track` says.
    pub closed spec fn well_formed(&self) -> bool {
        &&& self.max_size >= 1
        &&& self.by_time@.len() <= self.max_size
        &&& indexes_track(self.paths(), self.times())
    }

    fn oldest_key(&self) -> (k: i128)
        requires
            self.by_time@.len() > 0,
        ensures
            self.by_time@.contains_key(k),
            forall|j: i128| self.by_time@.contains_key(j) ==> k <= j,
    {
        let mut best: i128 = 0;
        let mut found = false;
        for key in it: self.by_time.keys()
            invariant
                it.seq().unref().to_set() == self.by_time@.dom(),
                it.seq().len() == self.by_time@.len(),
                self.by_time@.len() > 0,
                found <==> it.index() > 0,
                found ==> self.by_time@.contains_key(best),
                forall|i: int| 0 <= i < it.index() ==> best <= *it.seq()[i],
                it.index() == it.seq().len() ==> forall|j: i128|
                    self.by_time@.contains_key(j) ==> best <= j,
        {
            if !found || *key < best {
                best = *key;
            }
            found = true;
            assert forall|j: i128|
                it.index() + 1 == it.seq().len() && self.by_time@.contains_key(j) implies best <= j by {
                assert(it.seq().unref().to_set().contains(j));
            }
        }
        best
    }

    /// An empty history that keeps at most `max_size` entries, and at least one.
    pub fn new(max_size: usize) -> (h: Self)
        ensures
            h.well_formed(),
            h.paths() == Map::<Seq<char>, i128>::empty(),
            h.times() == Map::<i128, Seq<char>>::empty(),
            h.capacity() == new_capacity(max_size as nat),
    {
        let h = History {
            by_path: StringHashMap::new(),
            by_time: BTreeMap::new(),
            max_size: if max_size < 1 { 1 } else { max_size },
        };
        assert(h.times() =~= Map::<i128, Seq<char>>::empty());
        proof {
            lemma_empty_indexes_track();
        }
        h
    }

    /// Number of entries in the time index.
    pub fn len(&self) -> (n: usize)
        ensures
            n == self.times().len(),
    {
        assert(self.times().dom() =~= self.by_time@.dom());
        self.by_time.len()
    }

    /// Number of entries in the path index.
    pub fn len_by_path(&self) -> (n: usize)
        ensures
            n == self.paths().len(),
    {
        self.by_path.len()
    }

    /// Forgets every entry; the capacity stays.
    pub fn clear(&mut self)
        requires
            old(self).well_formed(),
        ensures
            final(self).well_formed(),
            final(self).capacity() == old(self).capacity(),
            final(self).paths() == Map::<Seq<char>, i128>::empty(),
            final(self).times() == Map::<i128, Seq<char>>::empty(),
    {
        self.by_path.clear();
        self.by_time.clear();
        assert(self.times() =~= Map::<i128, Seq<char>>::empty());
        proof {
            lemma_empty_indexes_track();
        }
    }

    /// Records a visit of `path` at instant `now`: any earlier entry of `path` is dropped,
    /// the new one is added, and the oldest entry is evicted while the time index is over
    /// its capacity.
    pub fn add_at(&mut self, path: &str, now: i128)
        requires
            old(self).well_formed(),
        ensures
            final(self).well_formed(),
            final(self).capacity() == old(self).capacity(),
            (final(self).paths(), final(self).times()) == add_step(
                old(self).paths(),
                old(self).times(),
                old(self).capacity(),
                path@,
                now,
            ),
    {
        let ghost p0 = self.paths();
        let ghost t0 = self.times();
        let ghost p1 = if p0.contains_key(path@) { p0.remove(path@) } else { p0 };
        let ghost t1 = if p0.contains_key(path@) { t0.remove(p0[path@]) } else { t0 };
        match self.by_path.get(path) {
            Some(old_time) => {
                let old_time = *old_time;
                self.by_path.remove(path);
                let _ = self.by_time.remove(&old_time);
            },
            None => {},
        }
        assert(self.times() =~= t1);
        assert(self.paths() =~= p1);
        let entry = path.to_string();
        self.by_path.insert(entry.clone(), now);
        self.by_time.insert(now, entry);
        let ghost p2 = p1.insert(path@, now);
        let ghost t2 = t1.insert(now, path@);
        assert(self.times() =~= t2);
        assert(self.paths() =~= p2);
        assert(self.times().dom() =~= self.by_time@.dom());
        while self.by_time.len() > self.max_size
            invariant
                self.max_size >= 1,
                self.max_size == old(self).max_size,
                self.by_time@.len() <= self.max_size + 1,
                self.times().dom() == self.by_time@.dom(),
                p1 == if p0.contains_key(path@) { p0.remove(path@) } else { p0 },
                t1 == if p0.contains_key(path@) { t0.remove(p0[path@]) } else { t0 },
                p2 == p1.insert(path@, now),
                t2 == t1.insert(now, path@),
                self.by_time@.len() > self.max_size ==> self.paths() == p2 && self.times() == t2,
                self.by_time@.len() <= self.max_size ==> (self.paths(), self.times()) == add_step(
                    p0,
                    t0,
                    self.max_size as nat,
                    path@,
                    now,
                ),
            decreases self.by_time@.len(),
        {
            let k = self.oldest_key();
            proof {
                assert(t2.dom() == self.by_time@.dom());
                assert(t2.len() == self.by_time@.len());
                assert(t2.len() > self.max_size as nat);
                lemma_oldest_is_unique(t2, k);
            }
            let removed = self.by_time.remove(&k);
            match removed {
                Some(p) => {
                    self.by_path.remove(p.as_str());
                },
                None => {},
            }
            assert(self.times() =~= t2.remove(k));
            assert(self.paths() =~= p2.remove(t2[k]));
            assert(self.times().dom() =~= self.by_time@.dom());
        }
        proof {
            lemma_add_step_keeps_tracking(p0, t0, self.max_size as nat, path@, now);
        }
    }

    /// Records a visit of `path` now, as `add_at` does with the clock's current instant.
    pub fn add(&mut self, path: &str)
        requires
            old(self).well_formed(),
        ensures
            final(self).well_formed(),
            final(self).capacity() == old(self).capacity(),
            exists|now: i128|
                (final(self).paths(), final(self).times()) == #[trigger] add_step(
                    old(self).paths(),
                    old(self).times(),
                    old(self).capacity(),
                    path@,
                    now,
                ),
    {
        let now = now_timestamp();
        self.add_at(path, now);
    }

    /// Every entry of the time index as (instant, path), the most recent first.
    pub fn recents(&self) -> (r: Vec<(i128, String)>)
        ensures
            newest_first(self.times(), entry_views(r@)),
    {
        let mut asc = self.entries_oldest_first();
        let ghost a = asc@;
        let mut r: Vec<(i128, String)> = Vec::new();
        while asc.len() > 0
            invariant
                asc@ == a.subrange(0, asc@.len() as int),
                asc@.len() <= a.len(),
                r@.len() + asc@.len() == a.len(),
                forall|i: int|
                    0 <= i < r@.len() ==> #[trigger] r@[i] == (a[a.len() - 1 - i].1, a[a.len() - 1 - i].0),
            decreases asc@.len(),
        {
            let (path, t) = asc.pop().unwrap();
            r.push((t, path));
        }
        proof {
            let v = entry_views(r@);
            let t = self.times();
            assert(t.dom() =~= self.by_time@.dom());
            assert(v.len() == t.len());
            assert forall|i: int| 0 <= i < v.len() implies t.contains_key(#[trigger] v[i].1) && t[v[i].1] == v[i].0 by {
                assert(r@[i] == (a[a.len() - 1 - i].1, a[a.len() - 1 - i].0));
            }
            assert forall|i: int, j: int| 0 <= i < j < v.len() implies v[j].1 < v[i].1 by {
                assert(r@[i] == (a[a.len() - 1 - i].1, a[a.len() - 1 - i].0));
                assert(r@[j] == (a[a.len() - 1 - j].1, a[a.len() - 1 - j].0));
            }
            assert forall|k: i128| t.contains_key(k) implies exists|i: int| 0 <= i < v.len() && #[trigger] v[i].1 == k by {
                assert(self.by_time@.contains_key(k));
                let m = choose|m: int| 0 <= m < a.len() && #[trigger] a[m].1 == k;
                let i = a.len() - 1 - m;
                assert(r@[i] == (a[m].1, a[m].0));
                assert(v[i].1 == k);
            }
        }
        r
    }

    /// Every entry of the time index as (whole seconds since the Unix epoch, path), the
    /// most recent first.
    pub fn recent_seconds(&self) -> (r: Vec<(u64, String)>)
        ensures
            exists|e: Seq<(Seq<char>, i128)>|
                #![trigger newest_first(self.times(), e)]
                {
                    &&& newest_first(self.times(), e)
                    &&& r@.len() == e.len()
                    &&& forall|i: int|
                        0 <= i < e.len() ==> (#[trigger] r@[i]).0 == seconds_spec(e[i].1) && r@[i].1@
                            == e[i].0
                },
    {
        let entries = self.recents();
        let mut r: Vec<(u64, String)> = Vec::new();
        let mut i: usize = 0;
        while i < entries.len()
            invariant
                i <= entries@.len(),
                r@.len() == i,
                forall|j: int| 0 <= j < i ==> (#[trigger] r@[j]).0 == seconds_spec(entries@[j].0) && r@[j].1@ == entries@[j].1@,
            decreases entries@.len() - i,
        {
            let (t, path) = &entries[i];
            r.push((seconds_since_epoch(*t), path.clone()));
            i += 1;
        }
        assert(newest_first(self.times(), entry_views(entries@)));
        r
    }

    /// A copy of this history: the same capacity and the same time index, with the path
    /// index rebuilt from the time index. The copy's path index equals this one's whenever
    /// this history's two indexes are consistent, as they stay while each visit comes
    /// later than those recorded.
    pub fn duplicate(&self) -> (c: Self)
        requires
            self.well_formed(),
        ensures
            c.well_formed(),
            c.capacity() == self.capacity(),
            c.times() == self.times(),
            consistent(c.paths(), c.times()),
            consistent(self.paths(), self.times()) ==> c.paths() == self.paths(),
    {
        proof {
            reveal(indexes_track);
        }
        let asc = self.entries_oldest_first();
        let ghost a = asc@;
        let ghost t0 = self.times();
        assert(t0.dom() =~= self.by_time@.dom());
        assert forall|j1: int, j2: int| 0 <= j1 < j2 < a.len() implies a[j1].0@ != a[j2].0@ by {
            assert(t0[a[j1].1] == a[j1].0@);
            assert(t0[a[j2].1] == a[j2].0@);
        }
        let mut by_path: StringHashMap<i128> = StringHashMap::new();
        let mut by_time: BTreeMap<i128, String> = BTreeMap::new();
        let mut i: usize = 0;
        while i < asc.len()
            invariant
                a == asc@,
                i <= a.len(),
                forall|j1: int, j2: int| 0 <= j1 < j2 < a.len() ==> a[j1].0@ != a[j2].0@,
                forall|j1: int, j2: int| 0 <= j1 < j2 < a.len() ==> a[j1].1 < a[j2].1,
                by_time@.dom().finite(),
                by_path@.dom().finite(),
                by_time@.len() == i,
                forall|t: i128|
                    #[trigger] by_time@.contains_key(t) ==> exists|j: int| 0 <= j < i && a[j].1 == t,
                forall|j: int|
                    0 <= j < i ==> by_time@.contains_key(#[trigger] a[j].1) && by_time@[a[j].1]@
                        == a[j].0@,
                forall|p: Seq<char>|
                    #[trigger] by_path@.contains_key(p) ==> exists|j: int| 0 <= j < i && a[j].0@ == p,
                forall|j: int|
                    0 <= j < i ==> by_path@.contains_key(#[trigger] a[j].0@) && by_path@[a[j].0@]
                        == a[j].1,
            decreases a.len() - i,
        {
            let (p, t) = &asc[i];
            assert(!by_time@.contains_key(*t)) by {
                if by_time@.contains_key(*t) {
                    let j = choose|j: int| 0 <= j < i && a[j].1 == *t;
                    assert(a[j].1 < a[i as int].1);
                }
            }
            by_path.insert(p.clone(), *t);
            by_time.insert(*t, p.clone());
            i += 1;
        }
        let c = History { by_path, by_time, max_size: self.max_size };
        proof {
            let n = a.len() as int;
            let ct = c.times();
            assert forall|k: i128| ct.contains_key(k) <==> t0.contains_key(k) by {
                if ct.contains_key(k) {
                    let j = choose|j: int| 0 <= j < n && a[j].1 == k;
                    assert(self.by_time@.contains_key(a[j].1));
                }
                if t0.contains_key(k) {
                    assert(self.by_time@.contains_key(k));
                    let j = choose|j: int| 0 <= j < n && #[trigger] a[j].1 == k;
                    assert(c.by_time@.contains_key(a[j].1));
                }
            }
            assert forall|k: i128| ct.contains_key(k) implies ct[k] == t0[k] by {
                let j = choose|j: int| 0 <= j < n && a[j].1 == k;
                assert(c.by_time@[a[j].1]@ == a[j].0@);
            }
            assert(ct =~= t0);
            let cp = c.paths();
            assert forall|q: Seq<char>| #[trigger] cp.contains_key(q) implies ct.contains_key(cp[q]) && ct[cp[q]] == q by {
                let j = choose|j: int| 0 <= j < n && a[j].0@ == q;
                assert(c.by_path@[a[j].0@] == a[j].1);
                assert(c.by_time@.contains_key(a[j].1));
            }
            assert forall|k: i128| #[trigger] ct.contains_key(k) implies cp.contains_key(ct[k]) && cp[ct[k]] == k by {
                let j = choose|j: int| 0 <= j < n && a[j].1 == k;
                assert(c.by_time@[a[j].1]@ == a[j].0@);
                assert(c.by_path@.contains_key(a[j].0@));
            }
            assert(consistent(cp, ct));
            assert(ct.dom() =~= c.by_time@.dom());
            if consistent(self.paths(), t0) {
                let sp = self.paths();
                assert forall|q: Seq<char>| cp.contains_key(q) <==> sp.contains_key(q) by {
                    if cp.contains_key(q) {
                        assert(ct.contains_key(cp[q]) && ct[cp[q]] == q);
                    }
                    if sp.contains_key(q) {
                        assert(t0.contains_key(sp[q]) && t0[sp[q]] == q);
                    }
                }
                assert forall|q: Seq<char>| cp.contains_key(q) implies cp[q] == sp[q] by {
                    assert(ct.contains_key(cp[q]) && ct[cp[q]] == q);
                    assert(sp[t0[cp[q]]] == cp[q]);
                }
                assert(cp =~= sp);
            }
        }
        c
    }

    /// Replaces the whole history with visits, now, of the paths in `items`, in order.
    /// At the first item that is not a path it stops with an error, keeping the visits
    /// made before it.
    pub fn replace_paths(&mut self, items: &Vec<Option<String>>) -> (r: Result<(), NotAPath>)
        requires
            old(self).well_formed(),
        ensures
            final(self).well_formed(),
            final(self).capacity() == old(self).capacity(),
            exists|k: int, instants: Seq<i128>|
                #![trigger add_all(Map::empty(), Map::empty(), old(self).capacity(), path_prefix(items@, k), instants)]
                {
                    &&& 0 <= k <= items@.len()
                    &&& instants.len() == k
                    &&& forall|i: int| 0 <= i < k ==> (#[trigger] items@[i]) is Some
                    &&& (k < items@.len() ==> items@[k] is None)
                    &&& (r is Ok <==> k == items@.len())
                    &&& (final(self).paths(), final(self).times()) == add_all(
                        Map::empty(),
                        Map::empty(),
                        old(self).capacity(),
                        path_prefix(items@, k),
                        instants,
                    )
                },
    {
        self.clear();
        let ghost mut instants: Seq<i128> = Seq::empty();
        let ghost cap = self.capacity();
        let mut i: usize = 0;
        while i < items.len()
            invariant
                self.well_formed(),
                self.capacity() == cap,
                cap == old(self).capacity(),
                i <= items@.len(),
                instants.len() == i,
                forall|j: int| 0 <= j < i ==> (#[trigger] items@[j]) is Some,
                (self.paths(), self.times()) == add_all(
                    Map::empty(),
                    Map::empty(),
                    cap,
                    path_prefix(items@, i as int),
                    instants,
                ),
            decreases items@.len() - i,
        {
            match &items[i] {
                Some(path) => {
                    let ghost before = (self.paths(), self.times());
                    let now = now_timestamp();
                    self.add_at(path.as_str(), now);
                    proof {
                        let visits = path_prefix(items@, i + 1);
                        let next = instants.push(now);
                        assert(visits.drop_last() =~= path_prefix(items@, i as int));
                        assert(next.drop_last() =~= instants);
                        assert(visits.last() == path@);
                        instants = next;
                    }
                },
                None => {
                    return Err(NotAPath);
                },
            }
            i += 1;
        }
        Ok(())
    }

    /// Entries oldest first.
    fn entries_oldest_first(&self) -> (asc: Vec<(String, i128)>)
        ensures
            asc@.len() == self.by_time@.len(),
            forall|i: int, j: int| 0 <= i < j < asc@.len() ==> asc@[i].1 < asc@[j].1,
            forall|i: int|
                0 <= i < asc@.len() ==> self.by_time@.contains_key(#[trigger] asc@[i].1)
                    && self.by_time@[asc@[i].1] == asc@[i].0,
            forall|t: i128| self.by_time@.contains_key(t) ==> exists|i: int| 0 <= i < asc@.len() && #[trigger] asc@[i].1 == t,
    {
        let mut asc: Vec<(String, i128)> = Vec::new();
        let entries = self.by_time.iter();
        assert forall|i: int, j: int| 0 <= i < j < entries.remaining().len()
            implies *entries.remaining()[i].0 < *entries.remaining()[j].0 by {
            let keys = entries.remaining().map_values(|kv: (&i128, &String)| *kv.0);
            assert(vstd::laws_cmp::obeys_cmp::<i128>());
            assert(vstd::std_specs::btree::key_obeys_cmp_spec::<i128>());
            assert(vstd::std_specs::btree::increasing_seq(keys));
            assert(keys[i].cmp_spec(&keys[j]) is Less);
            assert(keys[i] == *entries.remaining()[i].0);
            assert(keys[j] == *entries.remaining()[j].0);
        }
        for entry in it: entries
            invariant
                it.seq().len() == self.by_time@.len(),
                forall|i: int| 0 <= i < it.seq().len() ==> self.by_time@.contains_key(*(#[trigger] it.seq()[i]).0)
                    && self.by_time@[*it.seq()[i].0] == *it.seq()[i].1,
                forall|t: i128| self.by_time@.contains_key(t) ==> exists|i: int| 0 <= i < it.seq().len() && *(#[trigger] it.seq()[i]).0 == t,
                forall|i: int, j: int| 0 <= i < j < it.seq().len() ==> *it.seq()[i].0 < *it.seq()[j].0,
                asc@.len() == it.index(),
                forall|i: int| 0 <= i < it.index() ==> (#[trigger] asc@[i]).1 == *it.seq()[i].0 && asc@[i].0 == *it.seq()[i].1,
                it.index() == it.seq().len() ==> forall|t: i128| self.by_time@.contains_key(t) ==> exists|i: int| 0 <= i < asc@.len() && #[trigger] asc@[i].1 == t,
        {
            let (t, p) = entry;
            asc.push((p.clone(), *t));
            assert forall|k: i128|
                it.index() + 1 == it.seq().len() && self.by_time@.contains_key(k)
                implies exists|i: int| 0 <= i < asc@.len() && #[trigger] asc@[i].1 == k by {
                let i = choose|i: int| 0 <= i < it.seq().len() && *(#[trigger] it.seq()[i]).0 == k;
                assert(asc@[i].1 == k);
            }
        }
        asc
    }
}

/// Calls `std::str::from_utf8`, which succeeds exactly on valid UTF-8, and tells whether
/// it succeeded.
#[verifier::external_body]
fn is_utf8(bytes: &[u8]) -> (r: bool)
    ensures
        r == vstd::utf8::valid_utf8(bytes@),
{
    std::str::from_utf8(bytes).is_ok()
}

/// Checks a datagram from the directory history status server before it is handed on:
/// it must be UTF-8 text.
pub fn check_status_datagram(data: &[u8]) -> (r: Result<(), UnexpectedData>)
    ensures
        r is Ok <==> vstd::utf8::valid_utf8(data@),
{
    if is_utf8(data) {
        Ok(())
    } else {
        Err(UnexpectedData)
    }
}

proof fn lemma_oldest_is_unique(times: Map<i128, Seq<char>>, k: i128)
    requires
        is_oldest(times, k),
    ensures
        oldest(times) == k,
{
    assert(is_oldest(times, oldest(times)));
}

/// Empty indexes track each other.
proof fn lemma_empty_indexes_track()
    ensures
        indexes_track(Map::<Seq<char>, i128>::empty(), Map::<i128, Seq<char>>::empty()),
{
    reveal(indexes_track);
}

/// One visit keeps the indexes tracking each other, whatever its instant.
proof fn lemma_add_step_keeps_tracking(
    paths: Map<Seq<char>, i128>,
    times: Map<i128, Seq<char>>,
    cap: nat,
    path: Seq<char>,
    now: i128,
)
    requires
        indexes_track(paths, times),
    ensures
        indexes_track(add_step(paths, times, cap, path, now).0, add_step(paths, times, cap, path, now).1),
{
    reveal(indexes_track);
    let p1 = if paths.contains_key(path) { paths.remove(path) } else { paths };
    let t1 = if paths.contains_key(path) { times.remove(paths[path]) } else { times };
    assert forall|t: i128| t1.contains_key(t) implies t1[t] != path && p1.contains_key(t1[t]) && p1[t1[t]] == t by {
        assert(times.contains_key(t));
        if times[t] == path {
            assert(paths[path] == t);
        }
    }
    let p2 = p1.insert(path, now);
    let t2 = t1.insert(now, path);
    assert(indexes_track(p2, t2));
    if t2.len() > cap {
        lemma_oldest_exists(t2);
        let k = oldest(t2);
        let r = t2[k];
        assert forall|t: i128| t2.remove(k).contains_key(t) implies p2.remove(r).contains_key(t2[t])
            && p2.remove(r)[t2[t]] == t by {
            assert(t2[t] != r);
        }
        assert(indexes_track(p2.remove(r), t2.remove(k)));
    }
}

proof fn lemma_oldest_exists(times: Map<i128, Seq<char>>)
    requires
        times.dom().finite(),
        times.len() > 0,
    ensures
        is_oldest(times, oldest(times)),
    decreases times.len(),
{
    let k = times.dom().choose();
    let rest = times.remove(k);
    if rest.len() == 0 {
        assert forall|j: i128| times.contains_key(j) implies k <= j by {
            if j != k {
                assert(rest.contains_key(j));
            }
        }
        assert(is_oldest(times, k));
    } else {
        lemma_oldest_exists(rest);
        let m = oldest(rest);
        if k <= m {
            assert(is_oldest(times, k));
        } else {
            assert(is_oldest(times, m));
        }
    }
}

/// Law: one visit never leaves the time index above the capacity it keeps.
pub proof fn law_add_stays_within_capacity(
    paths: Map<Seq<char>, i128>,
    times: Map<i128, Seq<char>>,
    cap: nat,
    path: Seq<char>,
    now: i128,
)
    requires
        times.dom().finite(),
        cap >= 1,
        times.len() <= cap,
    ensures
        add_step(paths, times, cap, path, now).1.len() <= cap,
{
    let t1 = if paths.contains_key(path) { times.remove(paths[path]) } else { times };
    let t2 = t1.insert(now, path);
    if t2.len() > cap {
        lemma_oldest_exists(t2);
    }
}

/// Law: when the indexes agree and the visit is later than every recorded one, they
/// still agree after it, the visited path is recorded at the visit instant, and that
/// instant names it.
pub proof fn law_add_keeps_indexes_consistent(
    paths: Map<Seq<char>, i128>,
    times: Map<i128, Seq<char>>,
    cap: nat,
    path: Seq<char>,
    now: i128,
)
    requires
        times.dom().finite(),
        paths.dom().finite(),
        cap >= 1,
        consistent(paths, times),
        is_fresh(times, now),
    ensures
        ({
            let (p, t) = add_step(paths, times, cap, path, now);
            &&& consistent(p, t)
            &&& p.contains_key(path) && p[path] == now
            &&& t.contains_key(now) && t[now] == path
        }),
{
    let p1 = if paths.contains_key(path) { paths.remove(path) } else { paths };
    let t1 = if paths.contains_key(path) { times.remove(paths[path]) } else { times };
    assert(consistent(p1, t1));
    assert(!t1.contains_key(now));
    assert(!p1.contains_key(path));
    let p2 = p1.insert(path, now);
    let t2 = t1.insert(now, path);
    assert(consistent(p2, t2));
    if t2.len() > cap {
        lemma_oldest_exists(t2);
        let k = oldest(t2);
        if k == now {
            assert(t2.len() >= 2);
            assert(t1.len() >= 1);
            let other = t1.dom().choose();
            assert(t2.contains_key(other));
            assert(k <= other);
            assert(false);
        }
        assert(consistent(p2.remove(t2[k]), t2.remove(k)));
    }
}

/// Law: visiting again a path the history already holds, later than every recorded
/// visit, keeps the number of entries.
pub proof fn law_revisit_keeps_size(
    paths: Map<Seq<char>, i128>,
    times: Map<i128, Seq<char>>,
    cap: nat,
    path: Seq<char>,
    now: i128,
)
    requires
        times.dom().finite(),
        paths.dom().finite(),
        times.len() <= cap,
        consistent(paths, times),
        is_fresh(times, now),
        paths.contains_key(path),
    ensures
        add_step(paths, times, cap, path, now).1.len() == times.len(),
        add_step(paths, times, cap, path, now).0.len() == paths.len(),
{
    let t1 = times.remove(paths[path]);
    assert(!t1.contains_key(now));
    let p1 = paths.remove(path);
    assert(!p1.contains_key(path));
}

/// Law: visiting a new path, later than every recorded visit, when the history is full,
/// drops exactly the oldest entry and records the new one.
pub proof fn law_new_path_evicts_oldest(
    paths: Map<Seq<char>, i128>,
    times: Map<i128, Seq<char>>,
    cap: nat,
    path: Seq<char>,
    now: i128,
)
    requires
        times.dom().finite(),
        paths.dom().finite(),
        cap >= 1,
        times.len() == cap,
        consistent(paths, times),
        is_fresh(times, now),
        !paths.contains_key(path),
    ensures
        add_step(paths, times, cap, path, now).1 == times.remove(oldest(times)).insert(now, path),
        add_step(paths, times, cap, path, now).0 == paths.remove(times[oldest(times)]).insert(
            path,
            now,
        ),
{
    lemma_oldest_exists(times);
    let o = oldest(times);
    let t2 = times.insert(now, path);
    assert(!times.contains_key(now));
    assert(t2.len() == cap + 1);
    assert(is_oldest(t2, o));
    lemma_oldest_is_unique(t2, o);
    assert(t2.remove(o) =~= times.remove(o).insert(now, path));
    assert(times[o] != path);
    assert(paths.insert(path, now).remove(times[o]) =~= paths.remove(times[o]).insert(path, now));
}

/// Law: indexes that agree hold as many paths as instants.
pub proof fn law_consistent_indexes_have_equal_sizes(
    paths: Map<Seq<char>, i128>,
    times: Map<i128, Seq<char>>,
)
    requires
        paths.dom().finite(),
        consistent(paths, times),
    ensures
        paths.len() == times.len(),
{
    let f = |p: Seq<char>| paths[p];
    assert(vstd::relations::injective_on(f, paths.dom())) by {
        assert forall|p1: Seq<char>, p2: Seq<char>|
            paths.dom().contains(p1) && paths.dom().contains(p2) && #[trigger] f(p1) == #[trigger] f(p2)
            implies p1 == p2 by {
            assert(times[paths[p1]] == p1);
            assert(times[paths[p2]] == p2);
        }
    }
    assert(paths.dom().map(f) =~= times.dom()) by {
        assert forall|t: i128| times.dom().contains(t) implies paths.dom().map(f).contains(t) by {
            assert(paths.contains_key(times[t]) && f(times[t]) == t);
        }
    }
    vstd::set_lib::lemma_map_size(paths.dom(), times.dom(), f);
}

/// Law: a listing that puts the newest entry first starts with the latest visit.
pub proof fn law_recents_start_with_latest_visit(
    times: Map<i128, Seq<char>>,
    entries: Seq<(Seq<char>, i128)>,
    now: i128,
)
    requires
        newest_first(times, entries),
        times.contains_key(now),
        forall|t: i128| #[trigger] times.contains_key(t) ==> t <= now,
    ensures
        entries.len() > 0,
        entries[0] == (times[now], now),
{
    let i = choose|i: int| 0 <= i < entries.len() && #[trigger] entries[i].1 == now;
    if i > 0 {
        assert(times.contains_key(entries[0].1));
        assert(entries[i].1 < entries[0].1);
    }
}


/// Law: after a visit later than every recorded one, the newest-first listing starts with
/// the visited path at the visit instant.
pub proof fn law_listing_after_visit_starts_with_it(
    paths: Map<Seq<char>, i128>,
    times: Map<i128, Seq<char>>,
    cap: nat,
    path: Seq<char>,
    now: i128,
    entries: Seq<(Seq<char>, i128)>,
)
    requires
        times.dom().finite(),
        paths.dom().finite(),
        cap >= 1,
        consistent(paths, times),
        is_fresh(times, now),
        newest_first(add_step(paths, times, cap, path, now).1, entries),
    ensures
        entries.len() > 0,
        entries[0] == (path, now),
{
    law_add_keeps_indexes_consistent(paths, times, cap, path, now);
    let t = add_step(paths, times, cap, path, now).1;
    let t1 = if paths.contains_key(path) { times.remove(paths[path]) } else { times };
    let t2 = t1.insert(now, path);
    assert forall|k: i128| #[trigger] t.contains_key(k) implies k <= now by {
        assert(t2.contains_key(k));
        if k != now {
            assert(times.contains_key(k));
        }
    }
    law_recents_start_with_latest_visit(t, entries, now);
}

/// What `indexes_track` says, spelled out.
pub proof fn law_indexes_track_meaning(paths: Map<Seq<char>, i128>, times: Map<i128, Seq<char>>)
    requires
        indexes_track(paths, times),
    ensures
        paths.dom().finite(),
        times.dom().finite(),
        forall|t1: i128, t2: i128|
            #[trigger] times.contains_key(t1) && #[trigger] times.contains_key(t2) && t1 != t2
                ==> times[t1] != times[t2],
        forall|t: i128|
            #[trigger] times.contains_key(t) ==> paths.contains_key(times[t]) && paths[times[t]] == t,
{
    reveal(indexes_track);
}

/// Law: every history that the operations of this module produce, whatever instants the
/// clock gave, has indexes that track each other, a capacity of at least one, and no more
/// entries in its time index than that capacity.
pub proof fn law_reachable_history(h: &History)
    requires
        h.well_formed(),
    ensures
        indexes_track(h.paths(), h.times()),
        h.capacity() >= 1,
        h.times().len() <= h.capacity(),
{
    assert(h.times().dom() =~= h.by_time@.dom());
}

/// Law: a newest-first listing of a history names each path once, with instants that
/// strictly decrease, and has as many entries as the time index, at most the capacity.
pub proof fn law_listing_names_each_path_once(h: &History, entries: Seq<(Seq<char>, i128)>)
    requires
        h.well_formed(),
        newest_first(h.times(), entries),
    ensures
        forall|i: int, j: int| 0 <= i < j < entries.len() ==> entries[i].0 != entries[j].0,
        forall|i: int, j: int| 0 <= i < j < entries.len() ==> entries[j].1 < entries[i].1,
        entries.len() == h.times().len(),
        entries.len() <= h.capacity(),
{
    law_reachable_history(h);
    law_indexes_track_meaning(h.paths(), h.times());
    assert forall|i: int, j: int| 0 <= i < j < entries.len() implies entries[i].0 != entries[j].0 by {
        let t = h.times();
        assert(t.contains_key(entries[i].1) && t[entries[i].1] == entries[i].0);
        assert(t.contains_key(entries[j].1) && t[entries[j].1] == entries[j].0);
    }
}

/// Law: visits made one after another to a new history, at any instants, leave indexes
/// that track each other and no more entries than the capacity of `History::new(max_size)`.
pub proof fn law_visits_from_new(max_size: nat, visits: Seq<Seq<char>>, instants: Seq<i128>)
    ensures
        indexes_track(
            add_all(Map::empty(), Map::empty(), new_capacity(max_size), visits, instants).0,
            add_all(Map::empty(), Map::empty(), new_capacity(max_size), visits, instants).1,
        ),
        add_all(Map::empty(), Map::empty(), new_capacity(max_size), visits, instants).1.len()
            <= new_capacity(max_size),
    decreases visits.len(),
{
    let cap = new_capacity(max_size);
    if visits.len() == 0 || instants.len() == 0 {
        lemma_empty_indexes_track();
        assert(Map::<i128, Seq<char>>::empty().len() == 0);
    } else {
        law_visits_from_new(max_size, visits.drop_last(), instants.drop_last());
        let before = add_all(Map::empty(), Map::empty(), cap, visits.drop_last(), instants.drop_last());
        law_indexes_track_meaning(before.0, before.1);
        lemma_add_step_keeps_tracking(before.0, before.1, cap, visits.last(), instants.last());
        law_add_stays_within_capacity(before.0, before.1, cap, visits.last(), instants.last());
    }
}

/// Law: a history made with capacity zero acts as one made with capacity one.
pub proof fn law_new_zero_acts_as_new_one(visits: Seq<Seq<char>>, instants: Seq<i128>)
    ensures
        new_capacity(0) == new_capacity(1),
        add_all(Map::empty(), Map::empty(), new_capacity(0), visits, instants) == add_all(
            Map::empty(),
            Map::empty(),
            new_capacity(1),
            visits,
            instants,
        ),
{
}

/// The smaller of `a` and `b`.
pub open spec fn min_nat(a: nat, b: nat) -> nat {
    if a < b { a } else { b }
}

proof fn lemma_distinct_visits(cap: nat, visits: Seq<Seq<char>>, instants: Seq<i128>)
    requires
        cap >= 1,
        visits.len() == instants.len(),
        visits.no_duplicates(),
        forall|i: int, j: int| 0 <= i < j < instants.len() ==> instants[i] < instants[j],
    ensures
        ({
            let (p, t) = add_all(Map::empty(), Map::empty(), cap, visits, instants);
            &&& consistent(p, t)
            &&& p.dom().finite()
            &&& t.dom().finite()
            &&& forall|q: Seq<char>| #[trigger] p.contains_key(q) ==> visits.contains(q)
            &&& forall|k: i128| #[trigger] t.contains_key(k) ==> instants.contains(k)
            &&& t.len() == min_nat(visits.len(), cap)
        }),
    decreases visits.len(),
{
    if visits.len() == 0 {
        assert(Map::<i128, Seq<char>>::empty().len() == 0);
    } else {
        let vs = visits.drop_last();
        let is = instants.drop_last();
        lemma_distinct_visits(cap, vs, is);
        let (p, t) = add_all(Map::empty(), Map::empty(), cap, vs, is);
        let v = visits.last();
        let now = instants.last();
        assert(!p.contains_key(v)) by {
            if p.contains_key(v) {
                let i = choose|i: int| 0 <= i < vs.len() && vs[i] == v;
                assert(visits[i] == visits[visits.len() - 1]);
            }
        }
        assert(is_fresh(t, now)) by {
            assert forall|k: i128| #[trigger] t.contains_key(k) implies k < now by {
                let i = choose|i: int| 0 <= i < is.len() && is[i] == k;
                assert(instants[i] < instants[instants.len() - 1]);
            }
        }
        law_add_keeps_indexes_consistent(p, t, cap, v, now);
        let t2 = t.insert(now, v);
        assert(!t.contains_key(now));
        assert(t2.len() == t.len() + 1);
        if t2.len() > cap {
            lemma_oldest_exists(t2);
        }
        let (p3, t3) = add_step(p, t, cap, v, now);
        assert forall|q: Seq<char>| #[trigger] p3.contains_key(q) implies visits.contains(q) by {
            if q != v {
                assert(p.contains_key(q));
                let i = choose|i: int| 0 <= i < vs.len() && vs[i] == q;
                assert(visits[i] == q);
            } else {
                assert(visits[visits.len() - 1] == q);
            }
        }
        assert forall|k: i128| #[trigger] t3.contains_key(k) implies instants.contains(k) by {
            if k != now {
                assert(t.contains_key(k));
                let i = choose|i: int| 0 <= i < is.len() && is[i] == k;
                assert(instants[i] == k);
            } else {
                assert(instants[instants.len() - 1] == k);
            }
        }
    }
}

/// Law: `k` visits of distinct paths to a new history, at increasing instants, leave
/// `min(k, capacity)` entries, with indexes that agree.
pub proof fn law_distinct_visits_fill_up_to_capacity(
    max_size: nat,
    visits: Seq<Seq<char>>,
    instants: Seq<i128>,
)
    requires
        visits.len() == instants.len(),
        visits.no_duplicates(),
        forall|i: int, j: int| 0 <= i < j < instants.len() ==> instants[i] < instants[j],
    ensures
        ({
            let (p, t) = add_all(Map::empty(), Map::empty(), new_capacity(max_size), visits, instants);
            &&& consistent(p, t)
            &&& t.len() == min_nat(visits.len(), new_capacity(max_size))
        }),
{
    lemma_distinct_visits(new_capacity(max_size), visits, instants);
}

/// Law: visiting a path and then visiting it again, each later than everything recorded,
/// leaves the same indexes as the second visit alone.
pub proof fn law_second_visit_same_as_one(
    paths: Map<Seq<char>, i128>,
    times: Map<i128, Seq<char>>,
    cap: nat,
    path: Seq<char>,
    now1: i128,
    now2: i128,
)
    requires
        indexes_track(paths, times),
        cap >= 1,
        times.len() <= cap,
        is_fresh(times, now1),
        now1 < now2,
    ensures
        ({
            let once = add_step(paths, times, cap, path, now1);
            add_step(once.0, once.1, cap, path, now2) == add_step(paths, times, cap, path, now2)
        }),
{
    reveal(indexes_track);
    let p1 = if paths.contains_key(path) { paths.remove(path) } else { paths };
    let t1 = if paths.contains_key(path) { times.remove(paths[path]) } else { times };
    assert forall|t: i128| t1.contains_key(t) implies t1[t] != path && t < now1 by {
        assert(times.contains_key(t));
        if times[t] == path {
            assert(paths[path] == t);
        }
    }
    let ta = t1.insert(now1, path);
    let tb = t1.insert(now2, path);
    let pa = p1.insert(path, now1);
    let pb = p1.insert(path, now2);
    assert(!t1.contains_key(now1));
    assert(!t1.contains_key(now2));
    assert(ta.len() == t1.len() + 1);
    assert(tb.len() == t1.len() + 1);
    law_add_stays_within_capacity(paths, times, cap, path, now1);
    let once = add_step(paths, times, cap, path, now1);
    if ta.len() > cap {
        assert(t1.len() > 0);
        lemma_oldest_exists(t1);
        let o = oldest(t1);
        assert(is_oldest(ta, o));
        assert(is_oldest(tb, o));
        lemma_oldest_is_unique(ta, o);
        lemma_oldest_is_unique(tb, o);
        let r = t1[o];
        assert(r != path);
        assert(once.0 == pa.remove(r));
        assert(once.1 == ta.remove(o));
        assert(once.0.contains_key(path) && once.0[path] == now1);
        let q1 = once.0.remove(path);
        let u1 = once.1.remove(now1);
        assert(u1 =~= t1.remove(o));
        assert(q1 =~= p1.remove(r));
        assert(u1.insert(now2, path) =~= tb.remove(o));
        assert(q1.insert(path, now2) =~= pb.remove(r));
        assert(u1.insert(now2, path).len() == u1.len() + 1);
    } else {
        assert(once.0 == pa);
        assert(once.1 == ta);
        let q1 = pa.remove(path);
        let u1 = ta.remove(now1);
        assert(u1 =~= t1);
        assert(q1 =~= p1);
    }
}

proof fn lemma_newest_first_drop_first(times: Map<i128, Seq<char>>, entries: Seq<(Seq<char>, i128)>)
    requires
        times.dom().finite(),
        newest_first(times, entries),
        entries.len() > 0,
    ensures
        newest_first(times.remove(entries[0].1), entries.drop_first()),
{
    let k = entries[0].1;
    let t = times.remove(k);
    let d = entries.drop_first();
    assert(times.contains_key(k));
    assert(t.len() == times.len() - 1);
    assert forall|i: int| 0 <= i < d.len() implies t.contains_key(#[trigger] d[i].1) && t[d[i].1] == d[i].0 by {
        assert(d[i] == entries[i + 1]);
        assert(times.contains_key(entries[i + 1].1));
        assert(entries[i + 1].1 < entries[0].1);
    }
    assert forall|i: int, j: int| 0 <= i < j < d.len() implies d[j].1 < d[i].1 by {
        assert(d[i] == entries[i + 1]);
        assert(d[j] == entries[j + 1]);
    }
    assert forall|x: i128| t.contains_key(x) implies exists|i: int| 0 <= i < d.len() && #[trigger] d[i].1 == x by {
        assert(times.contains_key(x));
        let m = choose|m: int| 0 <= m < entries.len() && #[trigger] entries[m].1 == x;
        assert(m != 0);
        assert(d[m - 1] == entries[m]);
    }
}

proof fn lemma_newest_first_is_unique(
    times: Map<i128, Seq<char>>,
    e1: Seq<(Seq<char>, i128)>,
    e2: Seq<(Seq<char>, i128)>,
)
    requires
        times.dom().finite(),
        newest_first(times, e1),
        newest_first(times, e2),
    ensures
        e1 == e2,
    decreases e1.len(),
{
    if e1.len() == 0 {
        assert(e1 =~= e2);
    } else {
        let k1 = e1[0].1;
        let k2 = e2[0].1;
        if k1 != k2 {
            assert(times.contains_key(k1));
            assert(times.contains_key(k2));
            let j = choose|j: int| 0 <= j < e2.len() && #[trigger] e2[j].1 == k1;
            let i = choose|i: int| 0 <= i < e1.len() && #[trigger] e1[i].1 == k2;
            assert(j != 0 && i != 0);
            assert(k1 < k2 && k2 < k1);
        }
        lemma_newest_first_drop_first(times, e1);
        lemma_newest_first_drop_first(times, e2);
        lemma_newest_first_is_unique(times.remove(k1), e1.drop_first(), e2.drop_first());
        assert(e1[0] == e2[0]);
        assert forall|i: int| 0 <= i < e1.len() implies e1[i] == e2[i] by {
            if i > 0 {
                assert(e1[i] == e1.drop_first()[i - 1]);
                assert(e2[i] == e2.drop_first()[i - 1]);
            }
        }
        assert(e1 =~= e2);
    }
}

/// One fresh visit at either of two instants: the time index is the same `rest` plus the
/// visited path at its instant, and the path indexes agree apart from the visited path.
proof fn lemma_fresh_visit_at_two_instants(
    paths: Map<Seq<char>, i128>,
    times: Map<i128, Seq<char>>,
    cap: nat,
    path: Seq<char>,
    now1: i128,
    now2: i128,
) -> (rest: Map<i128, Seq<char>>)
    requires
        indexes_track(paths, times),
        cap >= 1,
        is_fresh(times, now1),
        is_fresh(times, now2),
    ensures
        rest.dom().finite(),
        is_fresh(rest, now1),
        is_fresh(rest, now2),
        add_step(paths, times, cap, path, now1).1 == rest.insert(now1, path),
        add_step(paths, times, cap, path, now2).1 == rest.insert(now2, path),
        add_step(paths, times, cap, path, now1).0.remove(path) == add_step(
            paths,
            times,
            cap,
            path,
            now2,
        ).0.remove(path),
{
    reveal(indexes_track);
    let p1 = if paths.contains_key(path) { paths.remove(path) } else { paths };
    let t1 = if paths.contains_key(path) { times.remove(paths[path]) } else { times };
    assert forall|t: i128| t1.contains_key(t) implies t1[t] != path && t < now1 && t < now2 by {
        assert(times.contains_key(t));
        if times[t] == path {
            assert(paths[path] == t);
        }
    }
    let ta = t1.insert(now1, path);
    let tb = t1.insert(now2, path);
    assert(!t1.contains_key(now1));
    assert(!t1.contains_key(now2));
    assert(ta.len() == t1.len() + 1);
    assert(tb.len() == t1.len() + 1);
    let ra = add_step(paths, times, cap, path, now1);
    let rb = add_step(paths, times, cap, path, now2);
    if ta.len() > cap {
        assert(t1.len() > 0);
        lemma_oldest_exists(t1);
        let o = oldest(t1);
        assert(is_oldest(ta, o));
        assert(is_oldest(tb, o));
        lemma_oldest_is_unique(ta, o);
        lemma_oldest_is_unique(tb, o);
        assert(t1[o] != path);
        let rest = t1.remove(o);
        assert(ra.1 =~= rest.insert(now1, path));
        assert(rb.1 =~= rest.insert(now2, path));
        assert(ra.0.remove(path) =~= p1.remove(t1[o]));
        assert(rb.0.remove(path) =~= p1.remove(t1[o]));
        rest
    } else {
        assert(ra.1 =~= t1.insert(now1, path));
        assert(rb.1 =~= t1.insert(now2, path));
        assert(ra.0.remove(path) =~= p1);
        assert(rb.0.remove(path) =~= p1);
        t1
    }
}

/// A newest-first listing of `rest` plus a newer entry starts with that entry and goes on
/// with a listing of `rest`.
proof fn lemma_listing_of_newer_entry(
    rest: Map<i128, Seq<char>>,
    now: i128,
    path: Seq<char>,
    entries: Seq<(Seq<char>, i128)>,
)
    requires
        rest.dom().finite(),
        is_fresh(rest, now),
        newest_first(rest.insert(now, path), entries),
    ensures
        entries.len() > 0,
        entries[0] == (path, now),
        newest_first(rest, entries.drop_first()),
{
    let t = rest.insert(now, path);
    assert forall|k: i128| #[trigger] t.contains_key(k) implies k <= now by {
        if k != now {
            assert(rest.contains_key(k));
        }
    }
    law_recents_start_with_latest_visit(t, entries, now);
    lemma_newest_first_drop_first(t, entries);
    assert(!rest.contains_key(now));
    assert(t.remove(now) =~= rest);
}

/// Law: a visit of a path, later than everything recorded, lists the same paths in the
/// same order whatever its instant; only the instant of the visited path differs.
pub proof fn law_visit_instant_does_not_change_listed_paths(
    paths: Map<Seq<char>, i128>,
    times: Map<i128, Seq<char>>,
    cap: nat,
    path: Seq<char>,
    now1: i128,
    now2: i128,
    e1: Seq<(Seq<char>, i128)>,
    e2: Seq<(Seq<char>, i128)>,
)
    requires
        indexes_track(paths, times),
        cap >= 1,
        is_fresh(times, now1),
        is_fresh(times, now2),
        newest_first(add_step(paths, times, cap, path, now1).1, e1),
        newest_first(add_step(paths, times, cap, path, now2).1, e2),
    ensures
        e1.len() == e2.len(),
        forall|i: int| 0 <= i < e1.len() ==> #[trigger] e1[i].0 == e2[i].0,
        e1[0] == (path, now1),
        e2[0] == (path, now2),
        e1.drop_first() == e2.drop_first(),
        add_step(paths, times, cap, path, now1).0.remove(path) == add_step(
            paths,
            times,
            cap,
            path,
            now2,
        ).0.remove(path),
{
    let rest = lemma_fresh_visit_at_two_instants(paths, times, cap, path, now1, now2);
    lemma_listing_of_newer_entry(rest, now1, path, e1);
    lemma_listing_of_newer_entry(rest, now2, path, e2);
    lemma_newest_first_is_unique(rest, e1.drop_first(), e2.drop_first());
    assert forall|i: int| 0 <= i < e1.len() implies #[trigger] e1[i].0 == e2[i].0 by {
        if i > 0 {
            assert(e1[i] == e1.drop_first()[i - 1]);
            assert(e2[i] == e2.drop_first()[i - 1]);
        }
    }
}

/// Law: visiting a path twice in a row lists the same paths, in the same order, as
/// visiting it once, when every visit comes later than everything recorded; the two
/// histories hold as many entries.
pub proof fn law_repeated_visit_lists_as_one_visit(
    paths: Map<Seq<char>, i128>,
    times: Map<i128, Seq<char>>,
    cap: nat,
    path: Seq<char>,
    once_at: i128,
    first_at: i128,
    second_at: i128,
    once: Seq<(Seq<char>, i128)>,
    twice: Seq<(Seq<char>, i128)>,
)
    requires
        indexes_track(paths, times),
        cap >= 1,
        times.len() <= cap,
        is_fresh(times, once_at),
        is_fresh(times, first_at),
        first_at < second_at,
        newest_first(add_step(paths, times, cap, path, once_at).1, once),
        newest_first(
            ({
                let first = add_step(paths, times, cap, path, first_at);
                add_step(first.0, first.1, cap, path, second_at).1
            }),
            twice,
        ),
    ensures
        once.len() == twice.len(),
        forall|i: int| 0 <= i < once.len() ==> #[trigger] once[i].0 == twice[i].0,
{
    law_second_visit_same_as_one(paths, times, cap, path, first_at, second_at);
    assert(is_fresh(times, second_at));
    law_visit_instant_does_not_change_listed_paths(
        paths,
        times,
        cap,
        path,
        once_at,
        second_at,
        once,
        twice,
    );
}

/// One visit of a new path at an instant later than all others, to a time index that
/// keeps the last of the earlier visits.
proof fn lemma_keep_the_last_step(cap: nat, t: Map<i128, Seq<char>>, visits: Seq<Seq<char>>, instants: Seq<i128>)
    requires
        cap >= 1,
        visits.len() == instants.len(),
        visits.len() >= 1,
        forall|i: int, j: int| 0 <= i < j < instants.len() ==> instants[i] < instants[j],
        t.dom().finite(),
        t.len() == min_nat((visits.len() - 1) as nat, cap),
        forall|k: i128| #[trigger] t.contains_key(k) ==> exists|i: int| 0 <= i < visits.len() - 1 && instants[i] == k,
        forall|i: int|
            0 <= i < visits.len() - 1 ==> (t.contains_key(#[trigger] instants[i]) <==> visits.len() - 1
                - min_nat((visits.len() - 1) as nat, cap) <= i) && (t.contains_key(instants[i])
                ==> t[instants[i]] == visits[i]),
    ensures
        ({
            let n = visits.len() as int;
            let t2 = t.insert(instants[n - 1], visits[n - 1]);
            let t3 = if t2.len() > cap { t2.remove(oldest(t2)) } else { t2 };
            forall|i: int|
                0 <= i < n ==> (t3.contains_key(#[trigger] instants[i]) <==> n - min_nat(visits.len(), cap)
                    <= i) && (t3.contains_key(instants[i]) ==> t3[instants[i]] == visits[i])
        }),
{
    let n = visits.len() as int;
    let now = instants[n - 1];
    assert(!t.contains_key(now)) by {
        if t.contains_key(now) {
            let i = choose|i: int| 0 <= i < n - 1 && instants[i] == now;
            assert(instants[i] < instants[n - 1]);
        }
    }
    let t2 = t.insert(now, visits[n - 1]);
    assert(t2.len() == t.len() + 1);
    if t2.len() > cap {
        let m0 = n - 1 - cap;
        assert(0 <= m0 < n - 1);
        assert(t.contains_key(instants[m0]));
        assert forall|j: i128| t2.contains_key(j) implies instants[m0] <= j by {
            if j != now {
                let i = choose|i: int| 0 <= i < n - 1 && instants[i] == j;
                assert(t.contains_key(instants[i]));
                if i != m0 {
                    assert(instants[m0] < instants[i]);
                }
            } else {
                assert(instants[m0] < instants[n - 1]);
            }
        }
        lemma_oldest_is_unique(t2, instants[m0]);
        let t3 = t2.remove(instants[m0]);
        assert forall|i: int| 0 <= i < n implies (t3.contains_key(#[trigger] instants[i]) <==> n - cap <= i)
            && (t3.contains_key(instants[i]) ==> t3[instants[i]] == visits[i]) by {
            if i < n - 1 {
                assert(instants[i] < now);
                if i < m0 {
                    assert(instants[i] < instants[m0]);
                } else if i > m0 {
                    assert(instants[m0] < instants[i]);
                }
            }
        }
    } else {
        assert forall|i: int| 0 <= i < n implies (t2.contains_key(#[trigger] instants[i]) <==> n - min_nat(visits.len(), cap) <= i)
            && (t2.contains_key(instants[i]) ==> t2[instants[i]] == visits[i]) by {
            if i < n - 1 {
                assert(instants[i] < now);
            }
        }
    }
}

/// Distinct visits at increasing instants keep, in the time index, exactly the last
/// `min(k, cap)` of the `k` visits, each at its own instant.
proof fn lemma_distinct_visits_keep_the_last(cap: nat, visits: Seq<Seq<char>>, instants: Seq<i128>)
    requires
        cap >= 1,
        visits.len() == instants.len(),
        visits.no_duplicates(),
        forall|i: int, j: int| 0 <= i < j < instants.len() ==> instants[i] < instants[j],
    ensures
        ({
            let t = add_all(Map::empty(), Map::empty(), cap, visits, instants).1;
            let n = visits.len() as int;
            let m = min_nat(visits.len(), cap) as int;
            forall|i: int|
                0 <= i < n ==> (t.contains_key(#[trigger] instants[i]) <==> n - m <= i) && (
                t.contains_key(instants[i]) ==> t[instants[i]] == visits[i])
        }),
    decreases visits.len(),
{
    if visits.len() > 0 {
        let vs = visits.drop_last();
        let is = instants.drop_last();
        let n = visits.len() as int;
        assert forall|i: int, j: int| 0 <= i < j < is.len() implies is[i] < is[j] by {
            assert(is[i] == instants[i] && is[j] == instants[j]);
        }
        assert(vs.no_duplicates()) by {
            assert forall|i: int, j: int| 0 <= i < vs.len() && 0 <= j < vs.len() && i != j implies vs[i] != vs[j] by {
                assert(vs[i] == visits[i] && vs[j] == visits[j]);
            }
        }
        lemma_distinct_visits_keep_the_last(cap, vs, is);
        lemma_distinct_visits(cap, vs, is);
        let (p, t) = add_all(Map::empty(), Map::empty(), cap, vs, is);
        let v = visits.last();
        let now = instants.last();
        assert(!p.contains_key(v)) by {
            if p.contains_key(v) {
                let i = choose|i: int| 0 <= i < vs.len() && vs[i] == v;
                assert(visits[i] == visits[visits.len() - 1]);
            }
        }
        assert forall|k: i128| #[trigger] t.contains_key(k) implies exists|i: int| 0 <= i < n - 1 && instants[i] == k by {
            let i = choose|i: int| 0 <= i < is.len() && is[i] == k;
            assert(is[i] == instants[i]);
        }
        assert forall|i: int| 0 <= i < n - 1 implies (t.contains_key(#[trigger] instants[i]) <==> n - 1
            - min_nat((n - 1) as nat, cap) <= i) && (t.contains_key(instants[i]) ==> t[instants[i]] == visits[i]) by {
            assert(is[i] == instants[i]);
            assert(vs[i] == visits[i]);
        }
        lemma_keep_the_last_step(cap, t, visits, instants);
        assert(add_all(Map::empty(), Map::empty(), cap, visits, instants) == add_step(p, t, cap, v, now));
    }
}

/// Law: loading distinct paths into a new history at increasing instants keeps the last
/// `min(k, capacity)` of the `k` paths, and lists them newest first: the last loaded path
/// first, each at its own instant.
pub proof fn law_distinct_visits_list_the_last_newest_first(
    max_size: nat,
    visits: Seq<Seq<char>>,
    instants: Seq<i128>,
    entries: Seq<(Seq<char>, i128)>,
)
    requires
        visits.len() == instants.len(),
        visits.no_duplicates(),
        forall|i: int, j: int| 0 <= i < j < instants.len() ==> instants[i] < instants[j],
        newest_first(
            add_all(Map::empty(), Map::empty(), new_capacity(max_size), visits, instants).1,
            entries,
        ),
    ensures
        entries.len() == min_nat(visits.len(), new_capacity(max_size)),
        forall|j: int|
            0 <= j < entries.len() ==> #[trigger] entries[j] == (
                visits[visits.len() - 1 - j],
                instants[visits.len() - 1 - j],
            ),
{
    let cap = new_capacity(max_size);
    lemma_distinct_visits(cap, visits, instants);
    lemma_distinct_visits_keep_the_last(cap, visits, instants);
    let t = add_all(Map::empty(), Map::empty(), cap, visits, instants).1;
    let n = visits.len() as int;
    let m = min_nat(visits.len(), cap) as int;
    let expected = Seq::new(m as nat, |j: int| (visits[n - 1 - j], instants[n - 1 - j]));
    assert(t.contains_key(instants[n - 1 - 0]) || m == 0);
    assert forall|j: int| 0 <= j < m implies t.contains_key(#[trigger] expected[j].1) && t[expected[j].1]
        == expected[j].0 by {
        assert(t.contains_key(instants[n - 1 - j]));
    }
    assert forall|i: int, j: int| 0 <= i < j < expected.len() implies expected[j].1 < expected[i].1 by {
        assert(instants[n - 1 - j] < instants[n - 1 - i]);
    }
    assert forall|k: i128| t.contains_key(k) implies exists|j: int| 0 <= j < expected.len() && #[trigger] expected[j].1 == k by {
        let i = choose|i: int| 0 <= i < instants.len() && instants[i] == k;
        assert(t.contains_key(instants[i]));
        assert(expected[n - 1 - i].1 == k);
    }
    assert(newest_first(t, expected));
    lemma_newest_first_is_unique(t, entries, expected);
}

} // verus!
