//! The two-table store: digest records by path key, summaries by digest.
//!
//! An embedded transactional key-value engine in the sense of the design: a
//! write transaction stages its puts and the store changes only at commit, so
//! a batch becomes visible all at once or not at all.

use vstd::prelude::*;

use crate::table::count_key;
use crate::table::keys_unique;
use crate::table::lemma_lookup_has_key;
use crate::table::lemma_unique_count;
use crate::table::lookup;
use crate::table::lookup_last;
use crate::table::table_get;
use crate::table::table_put;
use crate::table::table_remove;
use crate::types::FileDigest;

verus! {

/// The staged value if there is one, else the base value.
pub open spec fn merged<V>(base: Option<V>, over: Option<V>) -> Option<V> {
    if over is Some {
        over
    } else {
        base
    }
}

/// The store: a table of digest records keyed by encoded path, and a table of
/// summaries keyed by content digest.
pub struct Store {
    digests: Vec<(String, FileDigest)>,
    summaries: Vec<(String, String)>,
}

impl Store {
    /// The digest table's pairs, in storage order.
    pub closed spec fn digest_table(self) -> Seq<(String, FileDigest)> {
        self.digests@
    }

    /// The summary table's pairs, in storage order.
    pub closed spec fn summary_table(self) -> Seq<(String, String)> {
        self.summaries@
    }

    /// Each table's keys are unique: at most one record per key.
    pub open spec fn wf(self) -> bool {
        keys_unique(self.digest_table()) && keys_unique(self.summary_table())
    }

    /// The digest record for an encoded path key, if any.
    pub open spec fn digest_record(self, key: Seq<char>) -> Option<FileDigest> {
        lookup(self.digest_table(), key)
    }

    /// The summary recorded for a content digest, if any.
    pub open spec fn summary_record(self, digest: Seq<char>) -> Option<String> {
        lookup(self.summary_table(), digest)
    }

    /// An empty store.
    pub fn new() -> (r: Store)
        ensures
            r.wf(),
            r.digest_table().len() == 0,
            r.summary_table().len() == 0,
            forall|k: Seq<char>| r.digest_record(k) is None,
            forall|k: Seq<char>| r.summary_record(k) is None,
    {
        Store { digests: Vec::new(), summaries: Vec::new() }
    }

    /// The digest table's pairs, for read access.
    pub fn digest_pairs(&self) -> (r: &Vec<(String, FileDigest)>)
        ensures
            r@ == self.digest_table(),
    {
        &self.digests
    }

    /// The summary table's pairs, for read access.
    pub fn summary_pairs(&self) -> (r: &Vec<(String, String)>)
        ensures
            r@ == self.summary_table(),
    {
        &self.summaries
    }

    /// Reads the digest record for an encoded path key.
    pub fn get_digest(&self, key: &String) -> (r: Option<&FileDigest>)
        requires
            self.wf(),
        ensures
            match r {
                Some(v) => self.digest_record(key@) == Some(*v),
                None => self.digest_record(key@) is None,
            },
    {
        table_get(&self.digests, key)
    }

    /// Reads the summary recorded for a content digest.
    pub fn get_summary(&self, digest: &String) -> (r: Option<&String>)
        requires
            self.wf(),
        ensures
            match r {
                Some(v) => self.summary_record(digest@) == Some(*v),
                None => self.summary_record(digest@) is None,
            },
    {
        table_get(&self.summaries, digest)
    }

    /// Deletes the digest record for an encoded path key, if any.
    pub fn remove_digest(&mut self, key: &String)
        requires
            old(self).wf(),
        ensures
            final(self).wf(),
            final(self).digest_record(key@) is None,
            forall|k2: Seq<char>|
                k2 != key@ ==> final(self).digest_record(k2) == old(self).digest_record(k2),
            final(self).summary_table() == old(self).summary_table(),
    {
        table_remove(&mut self.digests, key)
    }

    /// Deletes the summary recorded for a content digest, if any.
    pub fn remove_summary(&mut self, digest: &String)
        requires
            old(self).wf(),
        ensures
            final(self).wf(),
            final(self).summary_record(digest@) is None,
            forall|k2: Seq<char>|
                k2 != digest@ ==> final(self).summary_record(k2) == old(self).summary_record(k2),
            final(self).digest_table() == old(self).digest_table(),
    {
        table_remove(&mut self.summaries, digest)
    }

    /// Whether some digest record still references this content digest.
    pub fn digest_referenced(&self, digest: &String) -> (r: bool)
        ensures
            r == exists|i: int|
                0 <= i < self.digest_table().len() && self.digest_table()[i].1.digest@ == digest@,
    {
        let n = self.digests.len();
        let mut i: usize = 0;
        while i < n
            invariant
                n == self.digest_table().len(),
                i <= n,
                forall|j: int| 0 <= j < i ==> self.digest_table()[j].1.digest@ != digest@,
            decreases n - i,
        {
            if self.digests[i].1.digest == *digest {
                return true;
            }
            i = i + 1;
        }
        false
    }

    /// Begins a write transaction. Nothing staged in it touches the store
    /// before [`Store::commit`]; dropping it discards all staged writes.
    pub fn begin_write(&self) -> (r: WriteTxn)
        ensures
            r.digest_puts().len() == 0,
            r.summary_puts().len() == 0,
    {
        WriteTxn { digest_puts: Vec::new(), summary_puts: Vec::new() }
    }

    /// Commits a write transaction: applies every staged put, in staging
    /// order, so that for each key the last staged value wins and every other
    /// key keeps its old record. The batch becomes visible all at once.
    pub fn commit(&mut self, txn: WriteTxn)
        requires
            old(self).wf(),
        ensures
            final(self).wf(),
            forall|k: Seq<char>|
                final(self).digest_record(k) == merged(
                    old(self).digest_record(k),
                    lookup_last(txn.digest_puts(), k),
                ),
            forall|k: Seq<char>|
                final(self).summary_record(k) == merged(
                    old(self).summary_record(k),
                    lookup_last(txn.summary_puts(), k),
                ),
            txn.digest_puts().len() == 0 && txn.summary_puts().len() == 0 ==> *final(self) == *old(
                self,
            ),
    {
        let WriteTxn { digest_puts, summary_puts } = txn;
        let ghost dp = digest_puts@;
        let ghost sp = summary_puts@;
        let n = digest_puts.len();
        let mut i: usize = 0;
        while i < n
            invariant
                self.wf(),
                self.summary_table() == old(self).summary_table(),
                i == 0 ==> *self == *old(self),
                n == dp.len(),
                i <= n,
                digest_puts@ == dp,
                forall|k: Seq<char>|
                    self.digest_record(k) == merged(
                        old(self).digest_record(k),
                        lookup_last(dp.take(i as int), k),
                    ),
            decreases n - i,
        {
            let key = digest_puts[i].0.clone();
            let value = FileDigest {
                mtime: digest_puts[i].1.mtime,
                digest: digest_puts[i].1.digest.clone(),
            };
            let ghost idx = i as int;
            let ghost prev = *self;
            proof {
                assert((key, value) == dp[idx]);
            }
            table_put(&mut self.digests, key, value);
            i = i + 1;
            proof {
                let prefix = dp.take(idx + 1);
                assert(prefix.len() == idx + 1);
                assert(prefix.drop_last() =~= dp.take(idx));
                assert(prefix.last() == dp[idx]);
                assert forall|k: Seq<char>|
                    self.digest_record(k) == merged(
                        old(self).digest_record(k),
                        lookup_last(prefix, k),
                    ) by {
                    assert(prev.digest_record(k) == merged(
                        old(self).digest_record(k),
                        lookup_last(dp.take(idx), k),
                    ));
                    if k == dp[idx].0@ {
                        assert(lookup_last(prefix, k) == Some(dp[idx].1));
                        assert(self.digest_record(k) == Some(dp[idx].1));
                    } else {
                        assert(lookup_last(prefix, k) == lookup_last(dp.take(idx), k));
                        assert(self.digest_record(k) == prev.digest_record(k));
                    }
                }
            }
        }
        proof {
            assert(dp.take(dp.len() as int) =~= dp);
        }
        let m = summary_puts.len();
        let mut j: usize = 0;
        while j < m
            invariant
                self.wf(),
                dp.len() == 0 && j == 0 ==> *self == *old(self),
                m == sp.len(),
                j <= m,
                summary_puts@ == sp,
                forall|k: Seq<char>|
                    self.digest_record(k) == merged(
                        old(self).digest_record(k),
                        lookup_last(dp, k),
                    ),
                forall|k: Seq<char>|
                    self.summary_record(k) == merged(
                        old(self).summary_record(k),
                        lookup_last(sp.take(j as int), k),
                    ),
            decreases m - j,
        {
            let key = summary_puts[j].0.clone();
            let value = summary_puts[j].1.clone();
            let ghost idx = j as int;
            let ghost prev = *self;
            proof {
                assert((key, value) == sp[idx]);
            }
            table_put(&mut self.summaries, key, value);
            j = j + 1;
            proof {
                let prefix = sp.take(idx + 1);
                assert(prefix.len() == idx + 1);
                assert(prefix.drop_last() =~= sp.take(idx));
                assert(prefix.last() == sp[idx]);
                assert forall|k: Seq<char>|
                    self.summary_record(k) == merged(
                        old(self).summary_record(k),
                        lookup_last(prefix, k),
                    ) by {
                    assert(prev.summary_record(k) == merged(
                        old(self).summary_record(k),
                        lookup_last(sp.take(idx), k),
                    ));
                    if k == sp[idx].0@ {
                        assert(lookup_last(prefix, k) == Some(sp[idx].1));
                        assert(self.summary_record(k) == Some(sp[idx].1));
                    } else {
                        assert(lookup_last(prefix, k) == lookup_last(sp.take(idx), k));
                        assert(self.summary_record(k) == prev.summary_record(k));
                    }
                }
                assert forall|k: Seq<char>|
                    self.digest_record(k) == merged(
                        old(self).digest_record(k),
                        lookup_last(dp, k),
                    ) by {
                    assert(prev.digest_record(k) == merged(
                        old(self).digest_record(k),
                        lookup_last(dp, k),
                    ));
                    assert(self.digest_record(k) == prev.digest_record(k));
                }
            }
        }
        proof {
            assert(sp.take(sp.len() as int) =~= sp);
        }
    }

    /// Tombstones a removed file: deletes its digest record and, when no
    /// other path's record still references the same content digest, garbage
    /// collects the orphaned summary record.
    pub fn remove_path_record(&mut self, key: &String)
        requires
            old(self).wf(),
        ensures
            final(self).wf(),
            final(self).digest_record(key@) is None,
            forall|k2: Seq<char>|
                k2 != key@ ==> final(self).digest_record(k2) == old(self).digest_record(k2),
            match old(self).digest_record(key@) {
                None => final(self).summary_table() == old(self).summary_table(),
                Some(rec) => ({
                    let shared = exists|i: int|
                        0 <= i < old(self).digest_table().len() && old(self).digest_table()[i].0@
                            != key@ && old(self).digest_table()[i].1.digest@ == rec.digest@;
                    &&& shared ==> final(self).summary_table() == old(self).summary_table()
                    &&& !shared ==> final(self).summary_record(rec.digest@) is None && (forall|
                        d: Seq<char>,
                    |
                        d != rec.digest@ ==> final(self).summary_record(d) == old(
                            self,
                        ).summary_record(d))
                }),
            },
    {
        let rec = self.get_digest(key);
        match rec {
            None => {
                proof {
                    crate::table::lemma_lookup_has_key(self.digest_table(), key@);
                }
                table_remove(&mut self.digests, key);
            },
            Some(r) => {
                let d = r.digest.clone();
                proof {
                    crate::table::lemma_lookup_has_key(self.digest_table(), key@);
                }
                let ghost before = self.digest_table();
                table_remove(&mut self.digests, key);
                proof {
                    let i = choose|i: int|
                        0 <= i < before.len() && before[i].0@ == key@ && self.digest_table()
                            == before.remove(i);
                    assert forall|j: int|
                        0 <= j < self.digest_table().len() implies (self.digest_table()[j].0@
                        != key@ && exists|l: int|
                        0 <= l < before.len() && before[l].0@ != key@ && before[l]
                            == self.digest_table()[j]) by {
                        if j < i {
                            assert(self.digest_table()[j] == before[j]);
                            assert(before[j].0@ != key@);
                        } else {
                            assert(self.digest_table()[j] == before[j + 1]);
                            assert(before[j + 1].0@ != key@);
                        }
                    }
                }
                if self.digest_referenced(&d) {
                    proof {
                        let j = choose|j: int|
                            0 <= j < self.digest_table().len() && self.digest_table()[j].1.digest@
                                == d@;
                    }
                } else {
                    proof {
                        let i = choose|i: int|
                            0 <= i < before.len() && before[i].0@ == key@ && self.digest_table()
                                == before.remove(i);
                        assert forall|l: int|
                            0 <= l < before.len() && before[l].0@ != key@ implies before[l].1.digest@
                            != d@ by {
                            if l < i {
                                assert(self.digest_table()[l] == before[l]);
                            } else if l > i {
                                assert(self.digest_table()[l - 1] == before[l]);
                            } else {
                                assert(before[l].0@ == key@);
                            }
                        }
                    }
                    self.remove_summary(&d);
                }
            },
        }
    }

    /// A well-formed store holds at most one summary record per digest: the
    /// dedup invariant of the summary table.
    pub proof fn lemma_one_summary_per_digest(self, digest: Seq<char>)
        requires
            self.wf(),
        ensures
            count_key(self.summary_table(), digest) <= 1,
            self.summary_record(digest) is Some ==> count_key(self.summary_table(), digest) == 1,
    {
        lemma_unique_count(self.summary_table(), digest);
        lemma_lookup_has_key(self.summary_table(), digest);
    }
}

/// A write transaction: staged puts for both tables. The store it came from
/// is untouched until the transaction is committed.
pub struct WriteTxn {
    digest_puts: Vec<(String, FileDigest)>,
    summary_puts: Vec<(String, String)>,
}

impl WriteTxn {
    /// The staged digest-table puts, in staging order.
    pub closed spec fn digest_puts(self) -> Seq<(String, FileDigest)> {
        self.digest_puts@
    }

    /// The staged summary-table puts, in staging order.
    pub closed spec fn summary_puts(self) -> Seq<(String, String)> {
        self.summary_puts@
    }

    /// Stages a digest record for an encoded path key.
    pub fn put_digest(&mut self, key: String, value: FileDigest)
        ensures
            final(self).digest_puts() == old(self).digest_puts().push((key, value)),
            final(self).summary_puts() == old(self).summary_puts(),
    {
        self.digest_puts.push((key, value));
    }

    /// Stages a summary for a content digest.
    pub fn put_summary(&mut self, digest: String, summary: String)
        ensures
            final(self).summary_puts() == old(self).summary_puts().push((digest, summary)),
            final(self).digest_puts() == old(self).digest_puts(),
    {
        self.summary_puts.push((digest, summary));
    }

    /// Abandons the transaction: every staged write is discarded, and the
    /// store the transaction was begun on is left exactly as it was — this is
    /// what a crash before commit leaves behind.
    pub fn abort(self) {
    }
}

} // verus!
