//! The accounting both image caches keep: an LRU clock, a decoded-byte total
//! against a budget, and the keys the current frame has touched.

use std::collections::HashSet;
use vstd::prelude::*;

verus! {

pub struct Budget<K> {
    pub decoded_bytes: usize,
    pub byte_budget: usize,
    pub max_items: usize,
    pub clock: u64,
    pub used_this_frame: HashSet<K>,
}

impl<K> Budget<K> {
    /// An empty budget with the given limits.
    pub fn new(byte_budget: usize, max_items: usize) -> (budget: Self)
        ensures
            budget.decoded_bytes == 0,
            budget.byte_budget == byte_budget,
            budget.max_items == max_items,
            budget.clock == 0,
            budget.used_this_frame@ == Set::<K>::empty(),
    {
        Budget { decoded_bytes: 0, byte_budget, max_items, clock: 0, used_this_frame: HashSet::new() }
    }

    /// Advances the LRU clock, wrapping at `u64::MAX`, and returns the new
    /// stamp.
    pub fn tick(&mut self) -> (stamp: u64)
        ensures
            stamp == final(self).clock,
            final(self).clock == vstd::wrapping::u64_specs::wrapping_add(old(self).clock, 1),
            final(self).decoded_bytes == old(self).decoded_bytes,
            final(self).byte_budget == old(self).byte_budget,
            final(self).max_items == old(self).max_items,
            final(self).used_this_frame == old(self).used_this_frame,
    {
        self.clock = self.clock.wrapping_add(1);
        self.clock
    }

    /// Counts `bytes` more decoded bytes, saturating at `usize::MAX`.
    pub fn add_bytes(&mut self, bytes: usize)
        ensures
            final(self).decoded_bytes == (if old(self).decoded_bytes + bytes > usize::MAX {
                usize::MAX as int
            } else {
                old(self).decoded_bytes + bytes
            }),
            final(self).byte_budget == old(self).byte_budget,
            final(self).max_items == old(self).max_items,
            final(self).clock == old(self).clock,
            final(self).used_this_frame == old(self).used_this_frame,
    {
        self.decoded_bytes = self.decoded_bytes.saturating_add(bytes);
    }

    /// Counts `bytes` fewer decoded bytes, stopping at zero.
    pub fn remove_bytes(&mut self, bytes: usize)
        ensures
            final(self).decoded_bytes == (if old(self).decoded_bytes < bytes {
                0
            } else {
                old(self).decoded_bytes - bytes
            }),
            final(self).byte_budget == old(self).byte_budget,
            final(self).max_items == old(self).max_items,
            final(self).clock == old(self).clock,
            final(self).used_this_frame == old(self).used_this_frame,
    {
        self.decoded_bytes = self.decoded_bytes.saturating_sub(bytes);
    }

    /// The decoded-byte total once the first `k` candidates, of the given
    /// sizes, are released, each release stopping at zero.
    pub open spec fn bytes_after(&self, sizes: Seq<usize>, k: int) -> int
        decreases k,
    {
        if k <= 0 {
            self.decoded_bytes as int
        } else {
            let before = self.bytes_after(sizes, k - 1);
            if before < sizes[k - 1] {
                0
            } else {
                before - sizes[k - 1]
            }
        }
    }

    /// Whether the cache is still over its limits once the first `k`
    /// candidates are released from `item_count` entries.
    pub open spec fn over_after(&self, item_count: int, sizes: Seq<usize>, k: int) -> bool {
        self.bytes_after(sizes, k) > self.byte_budget || item_count - k > self.max_items
    }

    /// How many eviction candidates, of the given decoded sizes in eviction
    /// order, a finished frame releases: candidates are released in order
    /// while the cache is over its limits, so the count is the first at
    /// which it fits, or all of them.
    pub fn release_count(&self, item_count: usize, sizes: &Vec<usize>) -> (count: usize)
        requires
            sizes@.len() <= item_count,
        ensures
            count <= sizes@.len(),
            forall|j: int| 0 <= j < count ==> #[trigger] self.over_after(item_count as int, sizes@, j),
            count == sizes@.len() || !self.over_after(item_count as int, sizes@, count as int),
    {
        let mut bytes = self.decoded_bytes;
        let mut count: usize = 0;
        while count < sizes.len()
            invariant
                count <= sizes@.len() <= item_count,
                bytes == self.bytes_after(sizes@, count as int),
                forall|j: int| 0 <= j < count ==> #[trigger] self.over_after(item_count as int, sizes@, j),
            ensures
                count <= sizes@.len(),
                forall|j: int| 0 <= j < count ==> #[trigger] self.over_after(item_count as int, sizes@, j),
                count == sizes@.len() || !self.over_after(item_count as int, sizes@, count as int),
            decreases sizes@.len() - count,
        {
            if !(bytes > self.byte_budget || item_count - count > self.max_items) {
                break;
            }
            bytes = bytes.saturating_sub(sizes[count]);
            count += 1;
        }
        count
    }

    /// Whether the cache holds more than its limits allow with `item_count`
    /// entries.
    pub fn over_limit(&self, item_count: usize) -> (over: bool)
        ensures
            over == (self.decoded_bytes > self.byte_budget || item_count > self.max_items),
    {
        self.decoded_bytes > self.byte_budget || item_count > self.max_items
    }
}

/// The entries whose key the current frame did not use, in entry order.
/// An entry is its last-use stamp and its key.
pub open spec fn unprotected(entries: Seq<(u64, u64)>, protected: Set<u64>) -> Seq<(u64, u64)>
    decreases entries.len(),
{
    if entries.len() == 0 {
        Seq::empty()
    } else {
        let rest = unprotected(entries.drop_last(), protected);
        if protected.contains(entries.last().1) {
            rest
        } else {
            rest.push(entries.last())
        }
    }
}

/// Ordered least recently used first.
pub open spec fn oldest_first(order: Seq<(u64, u64)>) -> bool {
    forall|i: int, j: int| 0 <= i < j < order.len() ==> order[i].0 <= order[j].0
}

/// Every unprotected key, least recently used first: the keys of an
/// ordering of the unprotected entries by last use. Entries used at the same
/// stamp may come in any order.
pub fn eviction_candidates(entries: &Vec<(u64, u64)>, protected: &HashSet<u64>) -> (keys: Vec<u64>)
    ensures
        exists|order: Seq<(u64, u64)>|
            {
                &&& order.to_multiset() == unprotected(entries@, protected@).to_multiset()
                &&& oldest_first(order)
                &&& keys@ == order.map_values(|entry: (u64, u64)| entry.1)
            },
{
    broadcast use vstd::std_specs::hash::group_hash_axioms;
    broadcast use vstd::seq_lib::group_to_multiset_ensures;

    let mut sorted: Vec<(u64, u64)> = Vec::new();
    let mut index: usize = 0;
    while index < entries.len()
        invariant
            index <= entries@.len(),
            oldest_first(sorted@),
            sorted@.to_multiset() == unprotected(entries@.take(index as int), protected@).to_multiset(),
        decreases entries@.len() - index,
    {
        let entry = entries[index];
        assert(entries@.take(index + 1).drop_last() =~= entries@.take(index as int));
        assert(entries@.take(index + 1).last() == entry);
        let used = protected.contains(&entry.1);
        assert(used == protected@.contains(entry.1));
        let ghost grown = unprotected(entries@.take(index + 1), protected@);
        assert(grown == if used {
            unprotected(entries@.take(index as int), protected@)
        } else {
            unprotected(entries@.take(index as int), protected@).push(entry)
        });
        if !used {
            let mut position: usize = 0;
            while position < sorted.len() && sorted[position].0 <= entry.0
                invariant
                    position <= sorted@.len(),
                    forall|i: int| 0 <= i < position ==> #[trigger] sorted@[i].0 <= entry.0,
                decreases sorted@.len() - position,
            {
                position += 1;
            }
            let ghost before = sorted@;
            proof {
                vstd::seq_lib::to_multiset_insert(before, position as int, entry);
            }
            sorted.insert(position, entry);
            proof {
                vstd::seq_lib::to_multiset_build(
                    unprotected(entries@.take(index as int), protected@),
                    entry,
                );
            }
            assert forall|i: int, j: int| 0 <= i < j < sorted@.len() implies sorted@[i].0
                <= sorted@[j].0 by {
                if j < position {
                    assert(sorted@[i] == before[i] && sorted@[j] == before[j]);
                } else if j == position {
                    assert(sorted@[i] == before[i]);
                } else if i < position {
                    assert(sorted@[i] == before[i] && sorted@[j] == before[j - 1]);
                    assert(before[position as int].0 > entry.0);
                } else if i == position {
                    assert(sorted@[j] == before[j - 1]);
                    assert(before[position as int].0 > entry.0);
                } else {
                    assert(sorted@[i] == before[i - 1] && sorted@[j] == before[j - 1]);
                }
            }
        }
        index += 1;
    }
    assert(entries@.take(entries@.len() as int) =~= entries@);
    let mut keys: Vec<u64> = Vec::new();
    let mut k: usize = 0;
    while k < sorted.len()
        invariant
            k <= sorted@.len(),
            keys@ == sorted@.take(k as int).map_values(|entry: (u64, u64)| entry.1),
        decreases sorted@.len() - k,
    {
        keys.push(sorted[k].1);
        assert(sorted@.take(k + 1).map_values(|entry: (u64, u64)| entry.1) =~= sorted@.take(
            k as int,
        ).map_values(|entry: (u64, u64)| entry.1).push(sorted@[k as int].1));
        k += 1;
    }
    assert(sorted@.take(sorted@.len() as int) =~= sorted@);
    keys
}

} // verus!
