//! The backlog: a bounded accumulator of files awaiting re-digesting.
//!
//! Inserting for an already-queued path overwrites the prior entry; the
//! backlog calls for a drain once its entry count or its accumulated size
//! crosses the configured threshold, and a drain empties it atomically.

use vstd::prelude::*;

use crate::table::has_key;
use crate::table::keys_unique;
use crate::table::lookup;
use crate::table::table_put;

verus! {

/// A queued file: its path, and the size and modification time seen on disk.
/// Stored as a pair keyed by path: the value holds size and mtime.
pub type BacklogItem = (String, (u64, Option<u64>));

/// The accumulated size of the queued entries.
pub open spec fn total_size(s: Seq<BacklogItem>) -> int
    decreases s.len(),
{
    if s.len() == 0 {
        0
    } else {
        s[0].1.0 + total_size(s.drop_first())
    }
}

/// Extending a prefix by one entry adds that entry's size.
pub proof fn lemma_total_take_step(s: Seq<BacklogItem>, i: int)
    requires
        0 <= i < s.len(),
    ensures
        total_size(s.take(i + 1)) == total_size(s.take(i)) + s[i].1.0,
    decreases s.len(),
{
    if i == 0 {
        assert(s.take(1)[0] == s[0]);
        assert(s.take(1).drop_first() =~= Seq::<BacklogItem>::empty());
        assert(s.take(0) =~= Seq::<BacklogItem>::empty());
    } else {
        assert(s.take(i + 1)[0] == s[0]);
        assert(s.take(i)[0] == s[0]);
        assert(s.take(i + 1).drop_first() =~= s.drop_first().take(i));
        assert(s.take(i).drop_first() =~= s.drop_first().take(i - 1));
        lemma_total_take_step(s.drop_first(), i - 1);
    }
}

/// A prefix's total never exceeds the whole sequence's total.
pub proof fn lemma_total_prefix_le(s: Seq<BacklogItem>, i: int)
    requires
        0 <= i <= s.len(),
    ensures
        total_size(s.take(i)) <= total_size(s),
    decreases s.len() - i,
{
    if i == s.len() {
        assert(s.take(i) =~= s);
    } else {
        lemma_total_take_step(s, i);
        lemma_total_prefix_le(s, i + 1);
    }
}

/// The position of the pair carrying this key (meaningful when the key is
/// present and the keys are unique).
pub open spec fn key_index(s: Seq<BacklogItem>, k: Seq<char>) -> int {
    choose|i: int| 0 <= i < s.len() && s[i].0@ == k
}

/// What inserting does to the queued entries: replaces the entry with the
/// same path in place, or appends one.
pub open spec fn upsert(s: Seq<BacklogItem>, item: BacklogItem) -> Seq<BacklogItem> {
    if has_key(s, item.0@) {
        s.update(key_index(s, item.0@), item)
    } else {
        s.push(item)
    }
}

/// What a drain hands out for these queued entries: their (path, mtime)
/// pairs, in order.
pub open spec fn map_drain(s: Seq<BacklogItem>) -> Seq<(String, Option<u64>)> {
    s.map(|i: int, it: BacklogItem| (it.0, it.1.1))
}

/// The drain condition over queued entries and the two thresholds.
pub open spec fn needs_drain_at(s: Seq<BacklogItem>, max_count: int, max_size: int) -> bool {
    s.len() > max_count || total_size(s) > max_size
}

/// What a scan does with a stream of selected entries, starting from a given
/// backlog: each entry is upserted in turn, and whenever a threshold is
/// crossed the whole backlog is drained into one batch. Yields the emitted
/// batches in order and the entries still queued at the end.
pub open spec fn scan_batches_model(
    init: Seq<BacklogItem>,
    items: Seq<BacklogItem>,
    max_count: int,
    max_size: int,
) -> (Seq<Seq<(String, Option<u64>)>>, Seq<BacklogItem>)
    decreases items.len(),
{
    if items.len() == 0 {
        (Seq::empty(), init)
    } else {
        let (bs, bl) = scan_batches_model(init, items.drop_last(), max_count, max_size);
        let b2 = upsert(bl, items.last());
        if needs_drain_at(b2, max_count, max_size) {
            (bs.push(map_drain(b2)), Seq::empty())
        } else {
            (bs, b2)
        }
    }
}

/// The backlog: queued entries with unique paths, and the drain thresholds.
pub struct SummaryBacklog {
    entries: Vec<BacklogItem>,
    max_count: usize,
    max_size: u64,
}

impl SummaryBacklog {
    /// The queued entries, in insertion order.
    pub closed spec fn entries_seq(self) -> Seq<BacklogItem> {
        self.entries@
    }

    /// The count threshold.
    pub closed spec fn count_threshold(self) -> int {
        self.max_count as int
    }

    /// The size threshold.
    pub closed spec fn size_threshold(self) -> int {
        self.max_size as int
    }

    /// Paths are unique, and the size threshold leaves room for exact
    /// saturation-free accounting.
    pub open spec fn wf(self) -> bool {
        keys_unique(self.entries_seq()) && self.size_threshold() < u64::MAX
    }

    /// An empty backlog with the given thresholds.
    pub fn new(max_count: usize, max_size: u64) -> (r: SummaryBacklog)
        requires
            max_size < u64::MAX,
        ensures
            r.wf(),
            r.entries_seq().len() == 0,
            r.count_threshold() == max_count,
            r.size_threshold() == max_size,
    {
        SummaryBacklog { entries: Vec::new(), max_count, max_size }
    }

    /// Upserts an entry: replaces any prior entry for the same path, else
    /// appends one.
    pub fn insert(&mut self, path: String, size: u64, mtime: Option<u64>)
        requires
            old(self).wf(),
        ensures
            final(self).wf(),
            final(self).count_threshold() == old(self).count_threshold(),
            final(self).size_threshold() == old(self).size_threshold(),
            lookup(final(self).entries_seq(), path@) == Some((size, mtime)),
            forall|k2: Seq<char>|
                k2 != path@ ==> lookup(final(self).entries_seq(), k2) == lookup(
                    old(self).entries_seq(),
                    k2,
                ),
            !has_key(old(self).entries_seq(), path@) ==> final(self).entries_seq() == old(
                self,
            ).entries_seq().push((path, (size, mtime))),
            has_key(old(self).entries_seq(), path@) ==> final(self).entries_seq().len() == old(
                self,
            ).entries_seq().len(),
            final(self).entries_seq() == upsert(old(self).entries_seq(), (path, (size, mtime))),
    {
        let ghost s = self.entries@;
        let ghost item = (path, (size, mtime));
        table_put(&mut self.entries, path, (size, mtime));
        proof {
            if has_key(s, item.0@) {
                let i = choose|i: int|
                    0 <= i < s.len() && s[i].0@ == item.0@ && self.entries@ == s.update(i, item);
                let ki = key_index(s, item.0@);
                assert(0 <= ki < s.len() && s[ki].0@ == item.0@);
                if i != ki {
                    if i < ki {
                        assert(s[i].0@ != s[ki].0@);
                    } else {
                        assert(s[ki].0@ != s[i].0@);
                    }
                    assert(false);
                }
            }
        }
    }

    /// Whether the count or the accumulated size has crossed its threshold.
    pub fn needs_drain(&self) -> (r: bool)
        requires
            self.wf(),
        ensures
            r == needs_drain_at(self.entries_seq(), self.count_threshold(), self.size_threshold()),
    {
        if self.entries.len() > self.max_count {
            return true;
        }
        let ghost s = self.entries@;
        let n = self.entries.len();
        let mut sum: u64 = 0;
        let mut i: usize = 0;
        proof {
            assert(s.take(0) =~= Seq::<BacklogItem>::empty());
        }
        while i < n
            invariant
                self.wf(),
                s == self.entries@,
                n == s.len(),
                i <= n,
                sum == total_size(s.take(i as int)),
                sum <= self.max_size,
            decreases n - i,
        {
            let size = self.entries[i].1.0;
            proof {
                lemma_total_take_step(s, i as int);
            }
            if size > self.max_size - sum {
                proof {
                    lemma_total_prefix_le(s, i as int + 1);
                }
                return true;
            }
            sum = sum + size;
            i = i + 1;
        }
        proof {
            assert(s.take(n as int) =~= s);
        }
        false
    }

    /// Atomically empties the backlog and returns every queued entry, as
    /// (path, mtime) pairs in insertion order.
    pub fn drain(&mut self) -> (r: Vec<(String, Option<u64>)>)
        requires
            old(self).wf(),
        ensures
            final(self).wf(),
            final(self).count_threshold() == old(self).count_threshold(),
            final(self).size_threshold() == old(self).size_threshold(),
            final(self).entries_seq().len() == 0,
            r@.len() == old(self).entries_seq().len(),
            forall|i: int|
                0 <= i < r@.len() ==> r@[i].0 == old(self).entries_seq()[i].0 && r@[i].1 == old(
                    self,
                ).entries_seq()[i].1.1,
    {
        let n = self.entries.len();
        let mut out: Vec<(String, Option<u64>)> = Vec::new();
        let mut i: usize = 0;
        while i < n
            invariant
                self.entries@ == old(self).entries_seq(),
                n == self.entries@.len(),
                i <= n,
                out@.len() == i,
                forall|j: int|
                    0 <= j < i ==> out@[j].0 == self.entries@[j].0 && out@[j].1
                        == self.entries@[j].1.1,
            decreases n - i,
        {
            let path = self.entries[i].0.clone();
            let mtime = self.entries[i].1.1;
            out.push((path, mtime));
            i = i + 1;
        }
        self.entries = Vec::new();
        out
    }

    /// Threshold-triggered drain: from an empty backlog, entries with
    /// pairwise distinct paths queue up one by one; with N the count
    /// threshold and the sizes within the size threshold, none of the first
    /// N entries calls for a drain, and the (N+1)-th does — so exactly one
    /// drain happens, and it yields all N+1 entries.
    pub proof fn lemma_threshold_drain(items: Seq<BacklogItem>, max_count: int, max_size: int)
        requires
            items.len() == max_count + 1,
            total_size(items) <= max_size,
        ensures
            forall|k: int|
                0 <= k < items.len() ==> !needs_drain_at(
                    #[trigger] items.take(k),
                    max_count,
                    max_size,
                ),
            needs_drain_at(items, max_count, max_size),
    {
        assert forall|k: int|
            0 <= k < items.len() implies !needs_drain_at(
            #[trigger] items.take(k),
            max_count,
            max_size,
        ) by {
            assert(items.take(k).len() == k <= max_count);
            lemma_total_prefix_le(items, k);
        }
        assert(items.len() > max_count);
    }
}

} // verus!
