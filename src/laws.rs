//! Properties that hold across calls of the cache.
use vstd::prelude::*;

use crate::cache::{
    abort_load_post, get_post, owed, has_key, index_of, poll_load_post, put_post, remove_post, Access,
    LfuCache, LoadState,
};
use crate::error::Error;
use crate::frequency::{
    eligible, has_eligible, lemma_resident_update, resident_count, Tier,
};

verus! {

/// After `put(k, v)` succeeds without `k` among the keys it sends to disk, a
/// `get(k)` is served from memory, and the value it hands out is `v`.
pub proof fn lemma_put_then_get<V, E>(
    c0: LfuCache<V>,
    k: u128,
    v: V,
    c1: LfuCache<V>,
    r: Result<Vec<u128>, Error<E>>,
    c2: LfuCache<V>,
    g: Result<Access, Error<E>>,
)
    requires
        c0.wf(),
        c1.wf(),
        c2.wf(),
        put_post(c0, k, v, c1, r),
        r is Ok,
        !r->Ok_0@.contains(k),
        get_post(c1, k, c2, g),
    ensures
        g == Ok::<Access, Error<E>>(Access::Hit),
        has_key(c2.table(), k),
        c2.table()[index_of(c2.table(), k)].value == v,
{
    let s = c0.table();
    let u = c1.table();
    let j: int = if has_key(s, k) { index_of(s, k) } else { s.len() as int };
    assert(u[j].key == k);
    crate::cache::lemma_index_of(u, j);
    assert(u[j].tier == Tier::Memory && u[j].borrows == 0 && u[j].value == v);
    let w = c2.table();
    let last = w.len() - 1;
    assert(w[last].key == k);
    crate::cache::lemma_index_of(w, last);
}

/// Resident entries stay within the capacity, or none of them can be
/// evicted: a `put` that succeeds keeps this so.
pub proof fn lemma_put_keeps_capacity<V, E>(
    c0: LfuCache<V>,
    k: u128,
    v: V,
    c1: LfuCache<V>,
    r: Result<Vec<u128>, Error<E>>,
)
    requires
        c0.wf(),
        put_post(c0, k, v, c1, r),
        resident_count(c0.table()) <= c0.cap() || !has_eligible(c0.table()),
    ensures
        resident_count(c1.table()) <= c1.cap() || !has_eligible(c1.table()),
{
    let s = c0.table();
    if has_key(s, k) {
        let i = index_of(s, k);
        if eligible(s[i]) {
            let e = crate::cache::with_value(s[i], v);
            lemma_resident_update(s, i, e);
            let u = c1.table();
            if has_eligible(u) {
                let j = choose|j: int| 0 <= j < u.len() && eligible(#[trigger] u[j]);
                assert(eligible(s[j]));
            }
        }
    }
}

/// An entry with a handle out is neither replaced nor removed: both calls
/// fail with `Immutable` and leave the cache as it was.
pub proof fn lemma_borrowed_is_immutable<V, E>(
    c0: LfuCache<V>,
    k: u128,
    v: V,
    c1: LfuCache<V>,
    r: Result<Vec<u128>, Error<E>>,
    c2: LfuCache<V>,
    d: Result<bool, Error<E>>,
)
    requires
        has_key(c0.table(), k),
        c0.table()[index_of(c0.table(), k)].borrows > 0,
        put_post(c0, k, v, c1, r),
        remove_post(c0, k, c2, d),
    ensures
        r == Err::<Vec<u128>, Error<E>>(Error::Immutable(k)),
        c1 == c0,
        d == Err::<bool, Error<E>>(Error::Immutable(k)),
        c2 == c0,
{
}

/// Storing another key never evicts an entry with a handle out: it stays
/// resident, with its value and its handles.
pub proof fn lemma_borrowed_survives_put<V, E>(
    c0: LfuCache<V>,
    j: u128,
    v: V,
    c1: LfuCache<V>,
    r: Result<Vec<u128>, Error<E>>,
    k: u128,
)
    requires
        c0.wf(),
        c1.wf(),
        j != k,
        has_key(c0.table(), k),
        c0.table()[index_of(c0.table(), k)].borrows > 0,
        put_post(c0, j, v, c1, r),
    ensures
        has_key(c1.table(), k),
        c1.table()[index_of(c1.table(), k)].tier == Tier::Memory,
        c1.table()[index_of(c1.table(), k)].value == c0.table()[index_of(c0.table(), k)].value,
        c1.table()[index_of(c1.table(), k)].borrows == c0.table()[index_of(c0.table(), k)].borrows,
{
    let s = c0.table();
    let u = c1.table();
    let i = index_of(s, k);
    assert(s[i].tier == Tier::Memory);
    if r is Ok {
        assert(u[i].key == k);
        crate::cache::lemma_index_of(u, i);
    }
}

/// While a load of `k` is under way, another `get(k)` starts no second load.
/// Unless the count of callers told about `k` is full, it answers `Wait` and
/// is counted as waiting on the load under way.
pub proof fn lemma_single_load<V, E>(
    c0: LfuCache<V>,
    k: u128,
    c1: LfuCache<V>,
    g1: Result<Access, Error<E>>,
    c2: LfuCache<V>,
    g2: Result<Access, Error<E>>,
)
    requires
        get_post(c0, k, c1, g1),
        g1 == Ok::<Access, Error<E>>(Access::Load),
        get_post(c1, k, c2, g2),
    ensures
        g2 != Ok::<Access, Error<E>>(Access::Load),
        c2.table() == c1.table(),
        c2.in_flight() == c1.in_flight(),
        owed(c0.failures(), k) < u64::MAX ==> g2 == Ok::<Access, Error<E>>(Access::Wait)
            && c2.waiting()[k] == 1,
{
    assert(c2.in_flight() =~= c1.in_flight());
}

/// Callers that wait on a load share its failure: when the load is aborted,
/// each of them is owed it, and a caller that waited and then polls is told
/// `Failed`.
pub proof fn lemma_failed_load_is_shared<V, E>(
    c0: LfuCache<V>,
    k: u128,
    c1: LfuCache<V>,
    g: Result<Access, Error<E>>,
    missing: bool,
    c2: LfuCache<V>,
    c3: LfuCache<V>,
    p: LoadState,
)
    requires
        c0.wf(),
        get_post(c0, k, c1, g),
        g == Ok::<Access, Error<E>>(Access::Wait),
        abort_load_post(c1, k, missing, c2),
        poll_load_post(c2, k, c3, p),
    ensures
        c2.failures()[k] == owed(c1.failures(), k) + c1.waiting()[k],
        c1.waiting()[k] >= 1,
        p == LoadState::Failed,
{
    assert(c1.in_flight().contains(k));
    assert(!c2.in_flight().contains(k));
    assert(c2.failures().contains_key(k));
}

} // verus!
