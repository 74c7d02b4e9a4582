//! The persistence stage: batches summaries and commits them atomically.
//!
//! Incoming summarized files accumulate until either the count threshold is
//! reached or the time window since the first pending item has elapsed,
//! whichever comes first; each flushed batch is written in one transaction,
//! every file's digest record and summary record together.

use vstd::prelude::*;

use crate::types::SummarizedFile;

verus! {

/// What one push does to the batching state: the new pending queue, the new
/// window start, and the flushed batch if the count threshold was reached.
pub open spec fn push_model(
    pending: Seq<SummarizedFile>,
    started: Option<u64>,
    f: SummarizedFile,
    now: u64,
    max_count: int,
) -> (Seq<SummarizedFile>, Option<u64>, Option<Seq<SummarizedFile>>) {
    let p2 = pending.push(f);
    if p2.len() >= max_count {
        (Seq::empty(), None, Some(p2))
    } else if pending.len() == 0 {
        (p2, Some(now), None)
    } else {
        (p2, started, None)
    }
}

/// Pushing a whole sequence of files, all at one time: the final pending
/// queue and window start, and whether any push flushed a batch.
pub open spec fn feed_model(
    pending: Seq<SummarizedFile>,
    started: Option<u64>,
    items: Seq<SummarizedFile>,
    now: u64,
    max_count: int,
) -> (Seq<SummarizedFile>, Option<u64>, bool)
    decreases items.len(),
{
    if items.len() == 0 {
        (pending, started, false)
    } else {
        let (p, st, flushed) = feed_model(pending, started, items.drop_last(), now, max_count);
        let (p2, st2, batch) = push_model(p, st, items.last(), now, max_count);
        (p2, st2, flushed || batch is Some)
    }
}

/// Whether a poll at this time flushes: something is pending and the window
/// since the first pending item has elapsed.
pub open spec fn poll_flushes(
    pending: Seq<SummarizedFile>,
    started: Option<u64>,
    now: u64,
    window: u64,
) -> bool {
    pending.len() > 0 && match started {
        Some(t0) => now >= t0 + window,
        None => false,
    }
}

/// The persistence stage's batching state.
pub struct Persister {
    pending: Vec<SummarizedFile>,
    started_at: Option<u64>,
    max_count: usize,
    window: u64,
}

impl Persister {
    /// The pending files, in arrival order.
    pub closed spec fn pending_seq(self) -> Seq<SummarizedFile> {
        self.pending@
    }

    /// When the first pending file arrived, if any is pending.
    pub closed spec fn started(self) -> Option<u64> {
        self.started_at
    }

    /// The count threshold.
    pub closed spec fn count_threshold(self) -> int {
        self.max_count as int
    }

    /// The time window.
    pub closed spec fn window_spec(self) -> int {
        self.window as int
    }

    pub open spec fn wf(self) -> bool {
        self.count_threshold() >= 1
    }

    /// An empty batcher with the given count threshold and time window.
    pub fn new(max_count: usize, window: u64) -> (r: Persister)
        requires
            max_count >= 1,
        ensures
            r.wf(),
            r.pending_seq().len() == 0,
            r.started() is None,
            r.count_threshold() == max_count,
            r.window_spec() == window,
    {
        Persister { pending: Vec::new(), started_at: None, max_count, window }
    }

    /// Accepts one summarized file at the given time; returns the batch to
    /// persist when the count threshold is reached.
    pub fn push(&mut self, f: SummarizedFile, now: u64) -> (r: Option<Vec<SummarizedFile>>)
        requires
            old(self).wf(),
        ensures
            final(self).wf(),
            final(self).count_threshold() == old(self).count_threshold(),
            final(self).window_spec() == old(self).window_spec(),
            ({
                let (p2, st2, batch) = push_model(
                    old(self).pending_seq(),
                    old(self).started(),
                    f,
                    now,
                    old(self).count_threshold(),
                );
                &&& final(self).pending_seq() == p2
                &&& final(self).started() == st2
                &&& match r {
                    Some(b) => batch == Some(b@),
                    None => batch is None,
                }
            }),
    {
        if self.pending.len() == 0 {
            self.started_at = Some(now);
        }
        self.pending.push(f);
        if self.pending.len() >= self.max_count {
            let mut tmp: Vec<SummarizedFile> = Vec::new();
            core::mem::swap(&mut self.pending, &mut tmp);
            self.started_at = None;
            Some(tmp)
        } else {
            None
        }
    }

    /// Flushes the pending batch when the time window since the first
    /// pending file has elapsed, even though the count threshold was not
    /// reached.
    pub fn poll(&mut self, now: u64) -> (r: Option<Vec<SummarizedFile>>)
        requires
            old(self).wf(),
        ensures
            final(self).wf(),
            final(self).count_threshold() == old(self).count_threshold(),
            final(self).window_spec() == old(self).window_spec(),
            poll_flushes(
                old(self).pending_seq(),
                old(self).started(),
                now,
                old(self).window_spec() as u64,
            ) ==> r is Some && r.unwrap()@ == old(self).pending_seq() && final(self).pending_seq().len() == 0 && final(self).started() is None,
            !poll_flushes(
                old(self).pending_seq(),
                old(self).started(),
                now,
                old(self).window_spec() as u64,
            ) ==> r is None && final(self).pending_seq() == old(self).pending_seq() && final(self).started() == old(self).started(),
    {
        let elapsed = match self.started_at {
            Some(t0) => now >= t0 && now - t0 >= self.window,
            None => false,
        };
        if self.pending.len() > 0 && elapsed {
            let mut tmp: Vec<SummarizedFile> = Vec::new();
            core::mem::swap(&mut self.pending, &mut tmp);
            self.started_at = None;
            Some(tmp)
        } else {
            None
        }
    }

    /// Flushes whatever is pending, at the end of a run.
    pub fn finish(&mut self) -> (r: Vec<SummarizedFile>)
        requires
            old(self).wf(),
        ensures
            final(self).wf(),
            final(self).count_threshold() == old(self).count_threshold(),
            final(self).window_spec() == old(self).window_spec(),
            r@ == old(self).pending_seq(),
            final(self).pending_seq().len() == 0,
            final(self).started() is None,
    {
        let mut tmp: Vec<SummarizedFile> = Vec::new();
        core::mem::swap(&mut self.pending, &mut tmp);
        self.started_at = None;
        tmp
    }

    /// Time-triggered flush: fewer files than the count threshold, all
    /// arriving at one time into an empty batcher, never flush on their own;
    /// once the window has elapsed, a poll flushes exactly those files.
    pub proof fn lemma_time_flush(
        items: Seq<SummarizedFile>,
        t0: u64,
        now: u64,
        max_count: int,
        window: u64,
    )
        requires
            0 < items.len() < max_count,
            now >= t0 + window,
        ensures
            ({
                let (p, st, flushed) = feed_model(Seq::empty(), None, items, t0, max_count);
                &&& p == items
                &&& st == Some(t0)
                &&& !flushed
                &&& poll_flushes(p, st, now, window)
            }),
    {
        Self::lemma_feed_accumulates(items, t0, max_count);
    }

    /// Feeding fewer files than the count threshold into an empty batcher
    /// only accumulates them.
    proof fn lemma_feed_accumulates(items: Seq<SummarizedFile>, t0: u64, max_count: int)
        requires
            0 < items.len() < max_count,
        ensures
            ({
                let (p, st, flushed) = feed_model(Seq::empty(), None, items, t0, max_count);
                p == items && st == Some(t0) && !flushed
            }),
        decreases items.len(),
    {
        if items.len() == 1 {
            assert(items.drop_last().len() == 0);
            assert(Seq::<SummarizedFile>::empty().push(items.last()) =~= items);
        } else {
            Self::lemma_feed_accumulates(items.drop_last(), t0, max_count);
            assert(items.drop_last().push(items.last()) =~= items);
        }
    }
}

} // verus!
