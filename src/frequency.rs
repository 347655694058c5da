//! Per-entry access counts and the choice of the entry to evict.
//!
//! Entries stand in the order in which they entered their current frequency:
//! an entry whose count changes moves to the end. Among eligible entries of
//! the least frequency, the first in that order is the one evicted.
use vstd::prelude::*;

verus! {

/// Where an entry of the table stands.
#[derive(Clone, Copy, Debug, PartialEq, Eq, Structural)]
pub enum Tier {
    /// Live in memory.
    Memory,
    /// Being written to disk; neither readable nor mutable until that ends.
    Flushing,
}

/// One key held in memory.
pub struct Entry<V> {
    pub key: u128,
    pub value: V,
    pub freq: u64,
    pub borrows: u64,
    pub tier: Tier,
}

/// An entry that may be chosen for eviction: in memory and not borrowed.
pub open spec fn eligible<V>(e: Entry<V>) -> bool {
    e.tier == Tier::Memory && e.borrows == 0
}

pub open spec fn resident_at<V>(e: Entry<V>) -> nat {
    if e.tier == Tier::Memory {
        1
    } else {
        0
    }
}

/// The number of entries whose tier is `Memory`.
pub open spec fn resident_count<V>(s: Seq<Entry<V>>) -> nat
    decreases s.len(),
{
    if s.len() == 0 {
        0
    } else {
        resident_count(s.drop_last()) + resident_at(s.last())
    }
}

/// A count after one more access; it stays put at the top of its range.
pub open spec fn bumped(f: u64) -> u64 {
    if f < u64::MAX {
        (f + 1) as u64
    } else {
        f
    }
}

pub open spec fn has_eligible<V>(s: Seq<Entry<V>>) -> bool {
    exists|j: int| 0 <= j < s.len() && eligible(#[trigger] s[j])
}

/// `i` is the entry to evict: eligible, of the least frequency among the
/// eligible entries, and the first of that frequency in the table's order.
pub open spec fn is_victim<V>(s: Seq<Entry<V>>, i: int) -> bool {
    &&& 0 <= i < s.len()
    &&& eligible(s[i])
    &&& forall|j: int| 0 <= j < s.len() && eligible(#[trigger] s[j]) ==> s[i].freq <= s[j].freq
    &&& forall|j: int| 0 <= j < i && eligible(#[trigger] s[j]) ==> s[i].freq < s[j].freq
}

pub proof fn lemma_resident_update<V>(s: Seq<Entry<V>>, i: int, e: Entry<V>)
    requires
        0 <= i < s.len(),
    ensures
        resident_count(s.update(i, e)) + resident_at(s[i]) == resident_count(s) + resident_at(e),
    decreases s.len(),
{
    if i == s.len() - 1 {
        assert(s.update(i, e).drop_last() =~= s.drop_last());
    } else {
        assert(s.update(i, e).drop_last() =~= s.drop_last().update(i, e));
        lemma_resident_update(s.drop_last(), i, e);
    }
}

/// Chooses the entry to evict, if any entry is eligible.
pub fn pick_eviction_candidate<V>(entries: &Vec<Entry<V>>) -> (r: Option<usize>)
    ensures
        match r {
            Some(i) => is_victim(entries@, i as int),
            None => !has_eligible(entries@),
        },
{
    let mut best: Option<usize> = None;
    let mut i: usize = 0;
    while i < entries.len()
        invariant
            i <= entries.len(),
            match best {
                Some(b) => {
                    &&& b < i
                    &&& eligible(entries@[b as int])
                    &&& forall|j: int|
                        0 <= j < i && eligible(#[trigger] entries@[j]) ==> entries@[b as int].freq
                            <= entries@[j].freq
                    &&& forall|j: int|
                        0 <= j < b && eligible(#[trigger] entries@[j]) ==> entries@[b as int].freq
                            < entries@[j].freq
                },
                None => forall|j: int| 0 <= j < i ==> !eligible(#[trigger] entries@[j]),
            },
        decreases entries.len() - i,
    {
        let e = &entries[i];
        if e.tier == Tier::Memory && e.borrows == 0 {
            match best {
                None => {
                    best = Some(i);
                },
                Some(b) => {
                    if e.freq < entries[b].freq {
                        best = Some(i);
                    }
                },
            }
        }
        i += 1;
    }
    best
}

} // verus!
