//! The cache engine: which tier owns each key, and what to do on each call.
//!
//! The engine never touches the disk. A call that needs disk work says so in
//! its result (a key to load, keys to flush, a file to delete); the caller
//! does that work and reports back through `complete_load`, `abort_load` and
//! `finish_flush`. Callers that wait on a load learn its outcome from
//! `poll_load`, so that one load, and its failure, serve them all.
use std::collections::{HashMap, HashSet};
use vstd::prelude::*;

use crate::error::Error;
use crate::frequency::{
    bumped, eligible, has_eligible, lemma_resident_update, pick_eviction_candidate,
    resident_count, Entry, Tier,
};

verus! {

broadcast use vstd::std_specs::hash::group_hash_axioms;

/// What a successful `get` asks of its caller.
#[derive(Clone, Copy, Debug, PartialEq, Eq, Structural)]
pub enum Access {
    /// The value is in memory and one more handle on it is counted.
    Hit,
    /// The value is on disk only: load it, then call `complete_load`
    /// (or `abort_load` if that fails).
    Load,
    /// A load of this key is already under way: the caller is counted as
    /// waiting for it, and learns its outcome from `poll_load`.
    Wait,
}

/// What `poll_load` tells a caller waiting on a load.
#[derive(Clone, Copy, Debug, PartialEq, Eq, Structural)]
pub enum LoadState {
    /// No failure is owed, and a load is still under way.
    Pending,
    /// The load is over and did not fail: ask `get` again.
    Ready,
    /// The load failed; this caller is told once.
    Failed,
}

/// An LFU cache over keys identified by `u128`, holding values of type `V`.
///
/// Policies: replacing a value keeps its frequency; a reloaded entry starts
/// again at frequency 1; when every resident entry is borrowed, a `put` still
/// succeeds and the capacity is exceeded until a later call can evict.
pub struct LfuCache<V> {
    capacity: usize,
    entries: Vec<Entry<V>>,
    disk: HashSet<u128>,
    loading: HashMap<u128, u64>,
    failed: HashMap<u128, u64>,
}

pub open spec fn has_key<V>(s: Seq<Entry<V>>, k: u128) -> bool {
    exists|i: int| 0 <= i < s.len() && (#[trigger] s[i]).key == k
}

/// The position of `k` in the table (meaningful where `has_key(s, k)`).
pub open spec fn index_of<V>(s: Seq<Entry<V>>, k: u128) -> int {
    choose|i: int| 0 <= i < s.len() && (#[trigger] s[i]).key == k
}

pub open spec fn keys_unique<V>(s: Seq<Entry<V>>) -> bool {
    forall|i: int, j: int|
        0 <= i < s.len() && 0 <= j < s.len() && (#[trigger] s[i]).key == (#[trigger] s[j]).key
            ==> i == j
}

/// An entry after one more access through a new handle.
pub open spec fn touched<V>(e: Entry<V>) -> Entry<V> {
    Entry { key: e.key, value: e.value, freq: bumped(e.freq), borrows: (e.borrows + 1) as u64, tier: e.tier }
}

/// A new resident entry at frequency 1.
pub open spec fn fresh<V>(k: u128, v: V, borrows: u64) -> Entry<V> {
    Entry { key: k, value: v, freq: 1, borrows: borrows, tier: Tier::Memory }
}

pub open spec fn with_value<V>(e: Entry<V>, v: V) -> Entry<V> {
    Entry { key: e.key, value: v, freq: e.freq, borrows: e.borrows, tier: e.tier }
}

pub open spec fn with_tier<V>(e: Entry<V>, t: Tier) -> Entry<V> {
    Entry { key: e.key, value: e.value, freq: e.freq, borrows: e.borrows, tier: t }
}

pub open spec fn with_borrows<V>(e: Entry<V>, b: u64) -> Entry<V> {
    Entry { key: e.key, value: e.value, freq: e.freq, borrows: b, tier: e.tier }
}

pub proof fn lemma_index_of<V>(s: Seq<Entry<V>>, i: int)
    requires
        keys_unique(s),
        0 <= i < s.len(),
    ensures
        has_key(s, s[i].key),
        index_of(s, s[i].key) == i,
{
    assert(has_key(s, s[i].key));
}

/// Keys are unique, none is being loaded, and no entry being flushed is borrowed.
pub open spec fn table_ok<V>(s: Seq<Entry<V>>, loading: Set<u128>) -> bool {
    &&& keys_unique(s)
    &&& forall|i: int| 0 <= i < s.len() ==> !loading.contains((#[trigger] s[i]).key)
    &&& forall|i: int|
        0 <= i < s.len() && (#[trigger] s[i]).tier == Tier::Flushing ==> s[i].borrows == 0
}

/// The number of failures owed to waiters of `k`.
pub open spec fn owed(failures: Map<u128, u64>, k: u128) -> nat {
    if failures.contains_key(k) {
        failures[k] as nat
    } else {
        0
    }
}

/// `failures` with one failure of `k` told.
pub open spec fn one_told(failures: Map<u128, u64>, k: u128) -> Map<u128, u64> {
    if failures[k] > 1 {
        failures.insert(k, (failures[k] - 1) as u64)
    } else {
        failures.remove(k)
    }
}

/// Each failure is owed to someone; the waiters of a key and the failures
/// owed for it can be counted together.
pub open spec fn failures_ok(failures: Map<u128, u64>, waiting: Map<u128, u64>) -> bool {
    &&& forall|k: u128| #[trigger] failures.contains_key(k) ==> failures[k] > 0
    &&& forall|k: u128| #[trigger] waiting.contains_key(k) ==> waiting[k] + owed(failures, k) <= u64::MAX
}

pub proof fn lemma_table_ok_remove<V>(s: Seq<Entry<V>>, i: int, loading: Set<u128>)
    requires
        table_ok(s, loading),
        0 <= i < s.len(),
    ensures
        table_ok(s.remove(i), loading),
        !has_key(s.remove(i), s[i].key),
{
    let r = s.remove(i);
    assert forall|a: int| 0 <= a < r.len() implies r[a] == s[if a < i { a } else { a + 1 }] by {}
    assert forall|a: int, b: int|
        0 <= a < r.len() && 0 <= b < r.len() && (#[trigger] r[a]).key == (#[trigger] r[b]).key
        implies a == b by {
        assert(r[a] == s[if a < i { a } else { a + 1 }]);
        assert(r[b] == s[if b < i { b } else { b + 1 }]);
    }
    if has_key(r, s[i].key) {
        let a = choose|a: int| 0 <= a < r.len() && (#[trigger] r[a]).key == s[i].key;
        assert(r[a] == s[if a < i { a } else { a + 1 }]);
    }
}

/// What `get(k)` does, from state `o` to state `n` with result `r`.
pub open spec fn get_post<V, E>(o: LfuCache<V>, k: u128, n: LfuCache<V>, r: Result<Access, Error<E>>) -> bool {
    let s = o.table();
    if has_key(s, k) {
        let i = index_of(s, k);
        if s[i].tier == Tier::Memory && s[i].borrows < u64::MAX {
            &&& r == Ok::<Access, Error<E>>(Access::Hit)
            &&& n.table() == s.remove(i).push(touched(s[i]))
            &&& n.same_sets(o)
        } else {
            r == Err::<Access, Error<E>>(Error::Immutable(k)) && n == o
        }
    } else if o.in_flight().contains(k) {
        if o.waiting()[k] + owed(o.failures(), k) < u64::MAX {
            &&& r == Ok::<Access, Error<E>>(Access::Wait)
            &&& n.table() == s
            &&& n.cap() == o.cap()
            &&& n.on_disk() == o.on_disk()
            &&& n.waiting() == o.waiting().insert(k, (o.waiting()[k] + 1) as u64)
            &&& n.failures() == o.failures()
        } else {
            r == Err::<Access, Error<E>>(Error::Immutable(k)) && n == o
        }
    } else if o.on_disk().contains(k) {
        &&& r == Ok::<Access, Error<E>>(Access::Load)
        &&& n.table() == s
        &&& n.cap() == o.cap()
        &&& n.on_disk() == o.on_disk()
        &&& n.waiting() == o.waiting().insert(k, 0)
        &&& n.failures() == o.failures()
    } else {
        r == Err::<Access, Error<E>>(Error::NotFound(k)) && n == o
    }
}

/// What `release(k)` does.
pub open spec fn release_post<V>(o: LfuCache<V>, k: u128, n: LfuCache<V>, r: bool) -> bool {
    let s = o.table();
    if has_key(s, k) && s[index_of(s, k)].borrows > 0 {
        let i = index_of(s, k);
        &&& r
        &&& n.table() == s.update(i, with_borrows(s[i], (s[i].borrows - 1) as u64))
        &&& n.same_sets(o)
    } else {
        !r && n == o
    }
}

/// Victims come first in eviction order: each has a lower frequency than every
/// eligible entry of `t` left behind, or the same frequency and an earlier place.
pub open spec fn victims_first<V>(t: Seq<Entry<V>>, victims: Seq<u128>) -> bool {
    forall|a: int, b: int|
        0 <= a < t.len() && 0 <= b < t.len() && victims.contains(#[trigger] t[a].key)
            && eligible(#[trigger] t[b]) && !victims.contains(t[b].key) ==> t[a].freq < t[b].freq
            || (t[a].freq == t[b].freq && a < b)
}

/// The entries of `u` are those of `t`, with the tier of each victim turned to
/// `Flushing`; each victim was eligible, and went before those left; no more
/// were taken than bring the resident count down to `capacity`, and fewer only
/// where none is eligible.
pub open spec fn evicted<V>(t: Seq<Entry<V>>, capacity: nat, victims: Seq<u128>, u: Seq<Entry<V>>) -> bool {
    &&& u.len() == t.len()
    &&& forall|i: int|
        0 <= i < t.len() ==> {
            &&& (#[trigger] u[i]).key == t[i].key
            &&& u[i].value == t[i].value
            &&& u[i].freq == t[i].freq
            &&& u[i].borrows == t[i].borrows
            &&& if victims.contains(t[i].key) {
                eligible(t[i]) && u[i].tier == Tier::Flushing
            } else {
                u[i].tier == t[i].tier
            }
        }
    &&& forall|j: int| 0 <= j < victims.len() ==> has_key(t, #[trigger] victims[j])
    &&& victims.no_duplicates()
    &&& victims_first(t, victims)
    &&& resident_count(u) + victims.len() == resident_count(t)
    &&& resident_count(u) <= capacity || !has_eligible(u)
    &&& victims.len() > 0 ==> resident_count(u) >= capacity
}

/// What `put(k, v)` does. A value in place is replaced and keeps its
/// frequency; a new key enters at frequency 1, and the keys returned are to
/// be flushed.
pub open spec fn put_post<V, E>(o: LfuCache<V>, k: u128, v: V, n: LfuCache<V>, r: Result<Vec<u128>, Error<E>>) -> bool {
    let s = o.table();
    if has_key(s, k) {
        let i = index_of(s, k);
        if eligible(s[i]) {
            &&& r is Ok
            &&& r->Ok_0@.len() == 0
            &&& n.table() == s.update(i, with_value(s[i], v))
            &&& n.same_sets(o)
        } else {
            r == Err::<Vec<u128>, Error<E>>(Error::Immutable(k)) && n == o
        }
    } else if o.in_flight().contains(k) {
        r == Err::<Vec<u128>, Error<E>>(Error::Immutable(k)) && n == o
    } else {
        &&& r is Ok
        &&& evicted(s.push(fresh(k, v, 0)), o.cap(), r->Ok_0@, n.table())
        &&& n.same_sets(o)
    }
}

/// What `complete_load(k, v)` does: `k` enters at frequency 1 with the
/// requesting caller's handle, and capacity is enforced.
pub open spec fn complete_load_post<V>(o: LfuCache<V>, k: u128, v: V, n: LfuCache<V>, victims: Seq<u128>) -> bool {
    &&& evicted(o.table().push(fresh(k, v, 1)), o.cap(), victims, n.table())
    &&& n.cap() == o.cap()
    &&& n.on_disk() == o.on_disk()
    &&& n.waiting() == o.waiting().remove(k)
    &&& n.failures() == o.failures()
}

/// What `abort_load(k, missing)` does: the load is over, and each caller that
/// waited on it is owed the failure once.
pub open spec fn abort_load_post<V>(o: LfuCache<V>, k: u128, missing: bool, n: LfuCache<V>) -> bool {
    &&& n.table() == o.table()
    &&& n.cap() == o.cap()
    &&& n.waiting() == o.waiting().remove(k)
    &&& n.failures() == if o.in_flight().contains(k) && o.waiting()[k] > 0 {
        o.failures().insert(k, (owed(o.failures(), k) + o.waiting()[k]) as u64)
    } else {
        o.failures()
    }
    &&& n.on_disk() == if missing {
        o.on_disk().remove(k)
    } else {
        o.on_disk()
    }
}

/// What `stop_waiting(k)` does.
pub open spec fn stop_waiting_post<V>(o: LfuCache<V>, k: u128, n: LfuCache<V>) -> bool {
    &&& n.table() == o.table()
    &&& n.cap() == o.cap()
    &&& n.on_disk() == o.on_disk()
    &&& if o.in_flight().contains(k) && o.waiting()[k] > 0 {
        n.waiting() == o.waiting().insert(k, (o.waiting()[k] - 1) as u64) && n.failures()
            == o.failures()
    } else if o.failures().contains_key(k) {
        n.waiting() == o.waiting() && n.failures() == one_told(o.failures(), k)
    } else {
        n == o
    }
}

/// What `poll_load(k)` does. Failures owed are told first.
pub open spec fn poll_load_post<V>(o: LfuCache<V>, k: u128, n: LfuCache<V>, r: LoadState) -> bool {
    if o.failures().contains_key(k) {
        &&& r == LoadState::Failed
        &&& n.table() == o.table()
        &&& n.cap() == o.cap()
        &&& n.on_disk() == o.on_disk()
        &&& n.waiting() == o.waiting()
        &&& n.failures() == one_told(o.failures(), k)
    } else if o.in_flight().contains(k) {
        r == LoadState::Pending && n == o
    } else {
        r == LoadState::Ready && n == o
    }
}

/// What `finish_flush(k, ok)` does to an entry being flushed.
pub open spec fn finish_flush_post<V>(o: LfuCache<V>, k: u128, ok: bool, n: LfuCache<V>) -> bool {
    let s = o.table();
    let i = index_of(s, k);
    &&& n.cap() == o.cap()
    &&& n.waiting() == o.waiting()
    &&& n.failures() == o.failures()
    &&& if ok {
        n.table() == s.remove(i) && n.on_disk() == o.on_disk().insert(k)
    } else {
        n.table() == s.update(i, with_tier(s[i], Tier::Memory)) && n.on_disk() == o.on_disk()
    }
}

/// What `remove(k)` does. `Ok(true)` asks the caller to delete the file of `k`.
pub open spec fn remove_post<V, E>(o: LfuCache<V>, k: u128, n: LfuCache<V>, r: Result<bool, Error<E>>) -> bool {
    let s = o.table();
    if has_key(s, k) {
        let i = index_of(s, k);
        if eligible(s[i]) {
            &&& r == Ok::<bool, Error<E>>(o.on_disk().contains(k))
            &&& n.table() == s.remove(i)
            &&& n.cap() == o.cap()
            &&& n.waiting() == o.waiting()
            &&& n.failures() == o.failures()
            &&& n.on_disk() == o.on_disk().remove(k)
        } else {
            r == Err::<bool, Error<E>>(Error::Immutable(k)) && n == o
        }
    } else if o.in_flight().contains(k) {
        r == Err::<bool, Error<E>>(Error::Immutable(k)) && n == o
    } else if o.on_disk().contains(k) {
        &&& r == Ok::<bool, Error<E>>(true)
        &&& n.table() == s
        &&& n.cap() == o.cap()
        &&& n.waiting() == o.waiting()
        &&& n.failures() == o.failures()
        &&& n.on_disk() == o.on_disk().remove(k)
    } else {
        r == Err::<bool, Error<E>>(Error::NotFound(k)) && n == o
    }
}

impl<V> LfuCache<V> {
    /// The most entries that may be resident after a call completes.
    pub closed spec fn cap(&self) -> nat {
        self.capacity as nat
    }

    /// The entries held in memory (resident or being flushed), in eviction order.
    pub closed spec fn table(&self) -> Seq<Entry<V>> {
        self.entries@
    }

    /// The keys that have a file in the backing directory.
    pub closed spec fn on_disk(&self) -> Set<u128> {
        self.disk@
    }

    /// For each key whose load from disk is under way, the number of callers
    /// waiting on it besides the one that loads.
    pub closed spec fn waiting(&self) -> Map<u128, u64> {
        self.loading@
    }

    /// For each key whose last load failed, the number of waiting callers
    /// that have not been told yet.
    pub closed spec fn failures(&self) -> Map<u128, u64> {
        self.failed@
    }

    /// The keys whose load from disk is under way.
    pub open spec fn in_flight(&self) -> Set<u128> {
        self.waiting().dom()
    }

    /// The table is well formed; a key is not both being loaded and failed;
    /// a failure is kept only while someone is owed it.
    pub open spec fn wf(&self) -> bool {
        &&& table_ok(self.table(), self.in_flight())
        &&& failures_ok(self.failures(), self.waiting())
    }

    /// Everything but the table is as in `o`.
    pub open spec fn same_sets(&self, o: Self) -> bool {
        &&& self.cap() == o.cap()
        &&& self.on_disk() == o.on_disk()
        &&& self.waiting() == o.waiting()
        &&& self.failures() == o.failures()
    }

    /// A cache holding nothing, that keeps at most `capacity` entries resident.
    pub fn new(capacity: usize) -> (r: Self)
        ensures
            r.wf(),
            r.cap() == capacity,
            r.table().len() == 0,
            r.on_disk() == Set::<u128>::empty(),
            r.waiting() == Map::<u128, u64>::empty(),
            r.failures() == Map::<u128, u64>::empty(),
    {
        LfuCache {
            capacity,
            entries: Vec::new(),
            disk: HashSet::new(),
            loading: HashMap::new(),
            failed: HashMap::new(),
        }
    }

    /// The capacity the cache was made with.
    pub fn capacity(&self) -> (r: usize)
        ensures
            r == self.cap(),
    {
        self.capacity
    }

    fn find(&self, k: u128) -> (r: Option<usize>)
        requires
            self.wf(),
        ensures
            match r {
                Some(i) => i < self.table().len() && index_of(self.table(), k) == i && has_key(
                    self.table(),
                    k,
                ),
                None => !has_key(self.table(), k),
            },
    {
        let mut i: usize = 0;
        while i < self.entries.len()
            invariant
                self.wf(),
                i <= self.entries@.len(),
                forall|j: int| 0 <= j < i ==> (#[trigger] self.entries@[j]).key != k,
            decreases self.entries.len() - i,
        {
            if self.entries[i].key == k {
                proof {
                    lemma_index_of(self.entries@, i as int);
                }
                return Some(i);
            }
            i += 1;
        }
        None
    }

    /// The number of resident entries (those not being flushed).
    pub fn len(&self) -> (r: usize)
        ensures
            r == resident_count(self.table()),
    {
        let mut n: usize = 0;
        let mut i: usize = 0;
        while i < self.entries.len()
            invariant
                i <= self.entries@.len(),
                n == resident_count(self.entries@.take(i as int)),
                n <= i,
            decreases self.entries.len() - i,
        {
            proof {
                assert(self.entries@.take(i + 1).drop_last() =~= self.entries@.take(i as int));
            }
            if self.entries[i].tier == Tier::Memory {
                n += 1;
            }
            i += 1;
        }
        proof {
            assert(self.entries@.take(i as int) =~= self.entries@);
        }
        n
    }

    /// The value held in memory for `k`, if any.
    pub fn value(&self, k: u128) -> (r: Option<&V>)
        requires
            self.wf(),
        ensures
            match r {
                Some(v) => has_key(self.table(), k) && *v == self.table()[index_of(
                    self.table(),
                    k,
                )].value,
                None => !has_key(self.table(), k),
            },
    {
        match self.find(k) {
            Some(i) => Some(&self.entries[i].value),
            None => None,
        }
    }

    /// The access count recorded for `k`, if it is held in memory.
    pub fn frequency(&self, k: u128) -> (r: Option<u64>)
        requires
            self.wf(),
        ensures
            match r {
                Some(f) => has_key(self.table(), k) && f == self.table()[index_of(
                    self.table(),
                    k,
                )].freq,
                None => !has_key(self.table(), k),
            },
    {
        match self.find(k) {
            Some(i) => Some(self.entries[i].freq),
            None => None,
        }
    }

    /// The number of outstanding handles on `k`, if it is held in memory.
    pub fn borrow_count(&self, k: u128) -> (r: Option<u64>)
        requires
            self.wf(),
        ensures
            match r {
                Some(b) => has_key(self.table(), k) && b == self.table()[index_of(
                    self.table(),
                    k,
                )].borrows,
                None => !has_key(self.table(), k),
            },
    {
        match self.find(k) {
            Some(i) => Some(self.entries[i].borrows),
            None => None,
        }
    }

    /// The tier of `k`, if it is held in memory.
    pub fn tier(&self, k: u128) -> (r: Option<Tier>)
        requires
            self.wf(),
        ensures
            match r {
                Some(t) => has_key(self.table(), k) && t == self.table()[index_of(
                    self.table(),
                    k,
                )].tier,
                None => !has_key(self.table(), k),
            },
    {
        match self.find(k) {
            Some(i) => Some(self.entries[i].tier),
            None => None,
        }
    }

    /// Whether `k` has a file in the backing directory.
    pub fn is_on_disk(&self, k: u128) -> (r: bool)
        ensures
            r == self.on_disk().contains(k),
    {
        self.disk.contains(&k)
    }

    /// Whether a load of `k` is under way.
    pub fn is_loading(&self, k: u128) -> (r: bool)
        ensures
            r == self.in_flight().contains(k),
    {
        self.loading.contains_key(&k)
    }

    /// Tells a caller that got `Access::Wait` for `k` how that load stands.
    /// A failure is told once to each caller that waited on it.
    pub fn poll_load(&mut self, k: u128) -> (r: LoadState)
        requires
            old(self).wf(),
        ensures
            final(self).wf(),
            poll_load_post(*old(self), k, *final(self), r),
    {
        match self.failed.get(&k) {
            Some(n) => {
                let n = *n;
                if n > 1 {
                    self.failed.insert(k, n - 1);
                } else {
                    self.failed.remove(&k);
                }
                LoadState::Failed
            },
            None => {
                if self.loading.contains_key(&k) {
                    LoadState::Pending
                } else {
                    LoadState::Ready
                }
            },
        }
    }

    /// Withdraws a caller that got `Access::Wait` for `k` and will not poll:
    /// it no longer counts as waiting, or is no longer owed a failure.
    pub fn stop_waiting(&mut self, k: u128)
        requires
            old(self).wf(),
        ensures
            final(self).wf(),
            stop_waiting_post(*old(self), k, *final(self)),
    {
        match self.loading.get(&k) {
            Some(w) if *w > 0 => {
                let w = *w;
                self.loading.insert(k, w - 1);
                return;
            },
            _ => {},
        }
        match self.failed.get(&k) {
            Some(n) => {
                let n = *n;
                if n > 1 {
                    self.failed.insert(k, n - 1);
                } else {
                    self.failed.remove(&k);
                }
            },
            None => {},
        }
    }

    /// Records that `k` has a file again: a delete that `remove` asked for
    /// did not happen.
    pub fn keep_file(&mut self, k: u128)
        requires
            old(self).wf(),
        ensures
            final(self).wf(),
            final(self).table() == old(self).table(),
            final(self).cap() == old(self).cap(),
            final(self).waiting() == old(self).waiting(),
            final(self).failures() == old(self).failures(),
            final(self).on_disk() == old(self).on_disk().insert(k),
    {
        self.disk.insert(k);
    }
    /// Looks `k` up. A resident entry is counted as accessed once more and
    /// gets one more handle, which `release` gives back. A key found on disk
    /// only is marked as loading, so that one load serves every caller.
    pub fn get<E>(&mut self, k: u128) -> (r: Result<Access, Error<E>>)
        requires
            old(self).wf(),
        ensures
            final(self).wf(),
            get_post(*old(self), k, *final(self), r),
    {
        match self.find(k) {
            Some(i) => {
                if self.entries[i].tier == Tier::Memory && self.entries[i].borrows < u64::MAX {
                    let ghost s = self.entries@;
                    let mut e = self.entries.remove(i);
                    if e.freq < u64::MAX {
                        e.freq = e.freq + 1;
                    }
                    e.borrows = e.borrows + 1;
                    self.entries.push(e);
                    proof {
                        assert(self.entries@ == s.remove(i as int).push(touched(s[i as int])));
                        lemma_table_ok_remove(s, i as int, self.in_flight());
                        let r = s.remove(i as int);
                        assert forall|a: int| 0 <= a < r.len() implies (#[trigger] r[a]).key != k by {}
                    }
                    Ok(Access::Hit)
                } else {
                    Err(Error::Immutable(k))
                }
            },
            None => {
                match self.loading.get(&k) {
                    Some(w) => {
                        let w = *w;
                        let f: u64 = match self.failed.get(&k) {
                            Some(f) => *f,
                            None => 0,
                        };
                        if w < u64::MAX - f {
                            self.loading.insert(k, w + 1);
                            Ok(Access::Wait)
                        } else {
                            Err(Error::Immutable(k))
                        }
                    },
                    None => {
                        if self.disk.contains(&k) {
                            self.loading.insert(k, 0);
                            Ok(Access::Load)
                        } else {
                            Err(Error::NotFound(k))
                        }
                    },
                }
            },
        }
    }

    /// Gives back one handle on `k`. Returns false, and changes nothing, where
    /// `k` is not in memory or has no handle out.
    pub fn release(&mut self, k: u128) -> (r: bool)
        requires
            old(self).wf(),
        ensures
            final(self).wf(),
            release_post(*old(self), k, *final(self), r),
    {
        match self.find(k) {
            Some(i) => {
                if self.entries[i].borrows > 0 {
                    let ghost s = self.entries@;
                    let b = self.entries[i].borrows - 1;
                    self.entries[i].borrows = b;
                    proof {
                        assert(self.entries@ == s.update(i as int, with_borrows(s[i as int], b)));
                    }
                    true
                } else {
                    false
                }
            },
            None => false,
        }
    }
    /// Turns victims to `Flushing` until the resident count is within the
    /// capacity or no entry is eligible, and returns their keys.
    fn enforce_capacity(&mut self) -> (victims: Vec<u128>)
        requires
            old(self).wf(),
        ensures
            final(self).wf(),
            final(self).same_sets(*old(self)),
            evicted(old(self).table(), old(self).cap(), victims@, final(self).table()),
    {
        let ghost t = self.entries@;
        let mut victims: Vec<u128> = Vec::new();
        let mut count = self.len();
        let mut stuck = false;
        proof {
            assert forall|i: int| 0 <= i < t.len() implies !victims@.contains(#[trigger] t[i].key) by {}
        }
        while count > self.capacity && !stuck
            invariant
                self.wf(),
                self.same_sets(*old(self)),
                self.entries@.len() == t.len(),
                count == resident_count(self.entries@),
                forall|i: int|
                    0 <= i < t.len() ==> {
                        &&& (#[trigger] self.entries@[i]).key == t[i].key
                        &&& self.entries@[i].value == t[i].value
                        &&& self.entries@[i].freq == t[i].freq
                        &&& self.entries@[i].borrows == t[i].borrows
                        &&& if victims@.contains(t[i].key) {
                            eligible(t[i]) && self.entries@[i].tier == Tier::Flushing
                        } else {
                            self.entries@[i].tier == t[i].tier
                        }
                    },
                forall|j: int| 0 <= j < victims@.len() ==> has_key(t, #[trigger] victims@[j]),
                victims@.no_duplicates(),
                victims_first(t, victims@),
                resident_count(self.entries@) + victims@.len() == resident_count(t),
                victims@.len() > 0 ==> resident_count(self.entries@) >= self.capacity,
                stuck ==> !has_eligible(self.entries@),
                keys_unique(t),
            decreases count, (if stuck { 0int } else { 1int }),
        {
            match pick_eviction_candidate(&self.entries) {
                None => {
                    stuck = true;
                },
                Some(i) => {
                    let ghost u = self.entries@;
                    let key = self.entries[i].key;
                    self.entries[i].tier = Tier::Flushing;
                    proof {
                        lemma_resident_update(u, i as int, with_tier(u[i as int], Tier::Flushing));
                        assert(self.entries@ == u.update(i as int, with_tier(u[i as int], Tier::Flushing)));
                        assert(!victims@.contains(key));
                        assert(has_key(t, key)) by {
                            assert(t[i as int].key == key);
                        }
                    }
                    let ghost old_victims = victims@;
                    victims.push(key);
                    proof {
                        assert(victims@.drop_last() =~= old_victims);
                        assert forall|a: int| 0 <= a < t.len() implies
                            (victims@.contains(t[a].key) <==> (victims@.drop_last().contains(t[a].key) || a == i)) by {
                            if a != i {
                                assert(t[a].key != key);
                            }
                            if victims@.drop_last().contains(t[a].key) {
                                let w = choose|w: int| 0 <= w < victims@.len() - 1 && victims@.drop_last()[w] == t[a].key;
                                assert(victims@[w] == t[a].key);
                            }
                            if a == i {
                                assert(victims@[victims@.len() - 1] == key);
                            }
                            if victims@.contains(t[a].key) {
                                let w = choose|w: int| 0 <= w < victims@.len() && victims@[w] == t[a].key;
                                if w < victims@.len() - 1 {
                                    assert(victims@.drop_last()[w] == t[a].key);
                                }
                            }
                        }
                    }
                    proof {
                        assert forall|a: int| 0 <= a < t.len() implies {
                            &&& (#[trigger] self.entries@[a]).key == t[a].key
                            &&& self.entries@[a].value == t[a].value
                            &&& self.entries@[a].freq == t[a].freq
                            &&& self.entries@[a].borrows == t[a].borrows
                            &&& if victims@.contains(t[a].key) {
                                eligible(t[a]) && self.entries@[a].tier == Tier::Flushing
                            } else {
                                self.entries@[a].tier == t[a].tier
                            }
                        } by {
                            assert(victims@.drop_last() == old_victims);
                            assert(u[a].key == t[a].key);
                            if a == i {
                                assert(eligible(u[a]));
                            }
                        }
                        assert forall|a: int, b: int|
                            0 <= a < t.len() && 0 <= b < t.len() && victims@.contains(#[trigger] t[a].key)
                                && eligible(#[trigger] t[b]) && !victims@.contains(t[b].key) implies t[a].freq < t[b].freq
                                || (t[a].freq == t[b].freq && a < b) by {
                            assert(!old_victims.contains(t[b].key)) by {
                                if old_victims.contains(t[b].key) {
                                    let w = choose|w: int| 0 <= w < old_victims.len() && old_victims[w] == t[b].key;
                                    assert(victims@[w] == t[b].key);
                                }
                            }
                            assert(b != i);
                            assert(u[b] == t[b] || u[b].tier != t[b].tier);
                            assert(eligible(u[b]));
                        }
                    }
                    count = count - 1;
                },
            }
        }
        victims
    }

    /// Stores `v` under `k`. Fails with `Immutable` where `k` has a handle
    /// out, is being flushed, or is being loaded. On success, returns the keys
    /// now being flushed: write each value out, then call `finish_flush`.
    pub fn put<E>(&mut self, k: u128, v: V) -> (r: Result<Vec<u128>, Error<E>>)
        requires
            old(self).wf(),
        ensures
            final(self).wf(),
            put_post(*old(self), k, v, *final(self), r),
    {
        match self.find(k) {
            Some(i) => {
                if self.entries[i].tier == Tier::Memory && self.entries[i].borrows == 0 {
                    let ghost s = self.entries@;
                    self.entries[i].value = v;
                    proof {
                        assert(self.entries@ == s.update(i as int, with_value(s[i as int], v)));
                    }
                    Ok(Vec::new())
                } else {
                    Err(Error::Immutable(k))
                }
            },
            None => {
                if self.loading.contains_key(&k) {
                    Err(Error::Immutable(k))
                } else {
                    let ghost s = self.entries@;
                    self.entries.push(Entry { key: k, value: v, freq: 1, borrows: 0, tier: Tier::Memory });
                    proof {
                        assert(self.entries@ == s.push(fresh(k, v, 0)));
                        assert forall|a: int| 0 <= a < s.len() implies (#[trigger] s[a]).key != k by {
                            assert(s[a].key == k ==> has_key(s, k));
                        }
                    }
                    Ok(self.enforce_capacity())
                }
            },
        }
    }
    /// Puts the value that was loaded for `k` in memory, with one handle out
    /// for the caller that asked for the load. Returns the keys now being
    /// flushed.
    pub fn complete_load(&mut self, k: u128, v: V) -> (victims: Vec<u128>)
        requires
            old(self).wf(),
            old(self).in_flight().contains(k),
        ensures
            final(self).wf(),
            complete_load_post(*old(self), k, v, *final(self), victims@),
    {
        let ghost s = self.entries@;
        self.loading.remove(&k);
        self.entries.push(Entry { key: k, value: v, freq: 1, borrows: 1, tier: Tier::Memory });
        proof {
            assert(self.entries@ == s.push(fresh(k, v, 1)));
            assert forall|a: int| 0 <= a < s.len() implies (#[trigger] s[a]).key != k by {}
        }
        self.enforce_capacity()
    }

    /// Ends a load of `k` that failed; `missing` says the file was not there.
    /// Callers that waited on the load are owed the failure.
    pub fn abort_load(&mut self, k: u128, missing: bool)
        requires
            old(self).wf(),
        ensures
            final(self).wf(),
            abort_load_post(*old(self), k, missing, *final(self)),
    {
        match self.loading.remove(&k) {
            Some(w) => {
                if w > 0 {
                    let f: u64 = match self.failed.get(&k) {
                        Some(f) => *f,
                        None => 0,
                    };
                    self.failed.insert(k, f + w);
                }
            },
            None => {},
        }
        if missing {
            self.disk.remove(&k);
        }
    }

    /// Ends the flush of `k`. Where it succeeded the entry leaves memory and
    /// `k` is on disk; where it failed the entry is resident again, unchanged.
    pub fn finish_flush(&mut self, k: u128, ok: bool)
        requires
            old(self).wf(),
            has_key(old(self).table(), k),
            old(self).table()[index_of(old(self).table(), k)].tier == Tier::Flushing,
        ensures
            final(self).wf(),
            finish_flush_post(*old(self), k, ok, *final(self)),
    {
        let ghost s = self.entries@;
        let i = self.find(k).unwrap();
        if ok {
            self.entries.remove(i);
            self.disk.insert(k);
            proof {
                lemma_table_ok_remove(s, i as int, self.in_flight());
            }
        } else {
            self.entries[i].tier = Tier::Memory;
            proof {
                assert(self.entries@ == s.update(i as int, with_tier(s[i as int], Tier::Memory)));
            }
        }
    }

    /// Removes `k` from memory and from disk. Fails with `Immutable` where
    /// `k` has a handle out or is being flushed or loaded, and with
    /// `NotFound` where it is nowhere. `Ok(true)` asks the caller to delete
    /// the file of `k`.
    pub fn remove<E>(&mut self, k: u128) -> (r: Result<bool, Error<E>>)
        requires
            old(self).wf(),
        ensures
            final(self).wf(),
            remove_post(*old(self), k, *final(self), r),
    {
        match self.find(k) {
            Some(i) => {
                if self.entries[i].tier == Tier::Memory && self.entries[i].borrows == 0 {
                    let ghost s = self.entries@;
                    self.entries.remove(i);
                    let had_file = self.disk.remove(&k);
                    proof {
                        lemma_table_ok_remove(s, i as int, self.in_flight());
                    }
                    Ok(had_file)
                } else {
                    Err(Error::Immutable(k))
                }
            },
            None => {
                if self.loading.contains_key(&k) {
                    Err(Error::Immutable(k))
                } else if self.disk.contains(&k) {
                    self.disk.remove(&k);
                    Ok(true)
                } else {
                    Err(Error::NotFound(k))
                }
            },
        }
    }
}

} // verus!
