//! The summary index: change detection over a directory snapshot.
//!
//! A scan walks a snapshot (all entries, or a delta of changed ones), looks
//! each live file's digest record up by its encoded path, and queues files
//! whose recorded modification time is missing or stale; whenever the backlog
//! calls for a drain, the drained entries are emitted as one batch for the
//! digest stage. Removed paths lose their digest record, and a summary no
//! path references any more is garbage collected.

use vstd::prelude::*;

use crate::backlog::map_drain;
use crate::backlog::needs_drain_at;
use crate::backlog::scan_batches_model;
use crate::backlog::upsert;
use crate::backlog::BacklogItem;
use crate::backlog::SummaryBacklog;
use crate::pathkey::db_key;
use crate::pathkey::db_key_for_path;
use crate::store::Store;
use crate::table::has_key;
use crate::types::entry_of_id;
use crate::types::lemma_entry_of_id_member;
use crate::types::mtime_eq;
use crate::digest::digest_file;
use crate::store::merged;
use crate::summarize::resolve_model;
use crate::summarize::summ_model;
use crate::summarize::summarize_files;
use crate::table::keys_unique;
use crate::table::lookup;
use crate::table::lookup_last;
use crate::table::table_get;
use crate::types::Entry;
use crate::types::FileDigest;
use crate::types::PathChange;
use crate::types::ProviderOutcome;
use crate::types::Snapshot;
use crate::types::SummarizedFile;
use crate::types::SummaryError;
use crate::types::UnsummarizedFile;
use crate::types::UpdatedEntry;

verus! {

/// Change detection: a file needs re-digesting when it has no digest record
/// or the recorded modification time differs from the one on disk.
pub open spec fn needs_update(rec: Option<FileDigest>, mtime: Option<u64>) -> bool {
    match rec {
        None => true,
        Some(r) => r.mtime != mtime,
    }
}

/// Whether a scan selects this entry: live files whose record is missing or
/// stale.
pub open spec fn entry_selected(s: Store, e: Entry) -> bool {
    e.is_file && needs_update(s.digest_record(db_key(e.path@)), e.mtime)
}

/// The (path, mtime) pairs a full scan selects, in snapshot order.
pub open spec fn selected_of(s: Store, entries: Seq<Entry>) -> Seq<(String, Option<u64>)>
    decreases entries.len(),
{
    if entries.len() == 0 {
        Seq::empty()
    } else {
        let rest = selected_of(s, entries.drop_last());
        let e = entries.last();
        if entry_selected(s, e) {
            rest.push((e.path, e.mtime))
        } else {
            rest
        }
    }
}

/// The (path, mtime) pairs a delta scan selects, in change-set order: live
/// changes whose id resolves to a selected file entry.
pub open spec fn selected_updates(s: Store, snap: Snapshot, ups: Seq<UpdatedEntry>) -> Seq<
    (String, Option<u64>),
>
    decreases ups.len(),
{
    if ups.len() == 0 {
        Seq::empty()
    } else {
        let rest = selected_updates(s, snap, ups.drop_last());
        let u = ups.last();
        if u.change != PathChange::Removed {
            match entry_of_id(snap.entries@, u.entry_id) {
                Some(e) => if entry_selected(s, e) {
                    rest.push((e.path, e.mtime))
                } else {
                    rest
                },
                None => rest,
            }
        } else {
            rest
        }
    }
}

/// The selected entries of a full scan with their sizes, in snapshot order:
/// what the scan feeds into the backlog.
pub open spec fn selected_items_of(s: Store, entries: Seq<Entry>) -> Seq<BacklogItem>
    decreases entries.len(),
{
    if entries.len() == 0 {
        Seq::empty()
    } else {
        let rest = selected_items_of(s, entries.drop_last());
        let e = entries.last();
        if entry_selected(s, e) {
            rest.push((e.path, (e.size, e.mtime)))
        } else {
            rest
        }
    }
}

/// The selected entries of a delta scan with their sizes, in change-set
/// order: what the scan feeds into the backlog.
pub open spec fn selected_update_items_of(s: Store, snap: Snapshot, ups: Seq<UpdatedEntry>) -> Seq<
    BacklogItem,
>
    decreases ups.len(),
{
    if ups.len() == 0 {
        Seq::empty()
    } else {
        let rest = selected_update_items_of(s, snap, ups.drop_last());
        let u = ups.last();
        if u.change != PathChange::Removed {
            match entry_of_id(snap.entries@, u.entry_id) {
                Some(e) => if entry_selected(s, e) {
                    rest.push((e.path, (e.size, e.mtime)))
                } else {
                    rest
                },
                None => rest,
            }
        } else {
            rest
        }
    }
}

/// Whether the change set removes a path with this encoded key.
pub open spec fn is_removed_key(ups: Seq<UpdatedEntry>, k: Seq<char>) -> bool {
    exists|j: int|
        0 <= j < ups.len() && ups[j].change == PathChange::Removed && db_key(ups[j].path@) == k
}

/// This path stems from a live change among the first `bound` elements of
/// the change set, resolved through the snapshot.
pub open spec fn from_live_update(snap: Snapshot, ups: Seq<UpdatedEntry>, bound: int, p: String) -> bool {
    exists|l: int|
        0 <= l < bound && ups[l].change != PathChange::Removed && entry_of_id(
            snap.entries@,
            ups[l].entry_id,
        ) is Some && p == entry_of_id(snap.entries@, ups[l].entry_id).unwrap().path
}

/// Some digest record of this store references the digest and belongs to a
/// path the change set removes.
pub open spec fn referenced_by_removed(s: Store, ups: Seq<UpdatedEntry>, d: Seq<char>) -> bool {
    exists|i: int|
        0 <= i < s.digest_table().len() && (#[trigger] s.digest_table()[i]).1.digest@ == d
            && is_removed_key(ups, s.digest_table()[i].0@)
}

/// Some digest record of this store references the digest and belongs to a
/// path the change set does not remove.
pub open spec fn referenced_by_surviving(s: Store, ups: Seq<UpdatedEntry>, d: Seq<char>) -> bool {
    exists|i: int|
        0 <= i < s.digest_table().len() && (#[trigger] s.digest_table()[i]).1.digest@ == d
            && !is_removed_key(ups, s.digest_table()[i].0@)
}

/// Every queued path stems from a live change among the first `bound`
/// elements of the change set, resolved through the snapshot.
pub open spec fn backlog_from_updates(
    b: Seq<BacklogItem>,
    snap: Snapshot,
    ups: Seq<UpdatedEntry>,
    bound: int,
) -> bool {
    forall|j: int| 0 <= j < b.len() ==> from_live_update(snap, ups, bound, (#[trigger] b[j]).0)
}

/// A wider bound keeps the provenance of the queued paths.
proof fn lemma_backlog_from_updates_widen(
    b: Seq<BacklogItem>,
    snap: Snapshot,
    ups: Seq<UpdatedEntry>,
    bound: int,
    bound2: int,
)
    requires
        backlog_from_updates(b, snap, ups, bound),
        bound <= bound2,
    ensures
        backlog_from_updates(b, snap, ups, bound2),
{
    assert forall|j: int| 0 <= j < b.len() implies from_live_update(
        snap,
        ups,
        bound2,
        b[j].0,
    ) by {
        assert(from_live_update(snap, ups, bound, b[j].0));
        lemma_from_live_update_widen(snap, ups, bound, bound2, b[j].0);
    }
}

/// Queuing the entry a live change resolves to keeps the provenance of the
/// queued paths.
proof fn lemma_backlog_from_updates_push(
    b: Seq<BacklogItem>,
    snap: Snapshot,
    ups: Seq<UpdatedEntry>,
    bound: int,
    item: BacklogItem,
)
    requires
        backlog_from_updates(b, snap, ups, bound),
        0 <= bound < ups.len(),
        ups[bound].change != PathChange::Removed,
        entry_of_id(snap.entries@, ups[bound].entry_id) is Some,
        item.0 == entry_of_id(snap.entries@, ups[bound].entry_id).unwrap().path,
    ensures
        backlog_from_updates(b.push(item), snap, ups, bound + 1),
{
    let b2 = b.push(item);
    assert forall|j: int| 0 <= j < b2.len() implies from_live_update(
        snap,
        ups,
        bound + 1,
        b2[j].0,
    ) by {
        if j < b.len() {
            assert(b2[j] == b[j]);
            assert(from_live_update(snap, ups, bound, b[j].0));
            lemma_from_live_update_widen(snap, ups, bound, bound + 1, b[j].0);
        } else {
            assert(b2[j] == item);
            assert(from_live_update(snap, ups, bound + 1, item.0)) by {
                assert(0 <= bound < bound + 1);
                assert(ups[bound].change != PathChange::Removed);
                assert(entry_of_id(snap.entries@, ups[bound].entry_id) is Some);
                assert(item.0 == entry_of_id(snap.entries@, ups[bound].entry_id).unwrap().path);
            }
        }
    }
}

/// A wider bound keeps the provenance of one path.
proof fn lemma_from_live_update_widen(
    snap: Snapshot,
    ups: Seq<UpdatedEntry>,
    bound: int,
    bound2: int,
    p: String,
)
    requires
        from_live_update(snap, ups, bound, p),
        bound <= bound2,
    ensures
        from_live_update(snap, ups, bound2, p),
{
    let l0 = choose|l: int|
        0 <= l < bound && ups[l].change != PathChange::Removed && entry_of_id(
            snap.entries@,
            ups[l].entry_id,
        ) is Some && p == entry_of_id(snap.entries@, ups[l].entry_id).unwrap().path;
    assert(0 <= l0 < bound2);
}

/// All batches in emission order, concatenated.
pub open spec fn flatten_batches(s: Seq<Vec<(String, Option<u64>)>>) -> Seq<(String, Option<u64>)>
    decreases s.len(),
{
    if s.len() == 0 {
        Seq::empty()
    } else {
        flatten_batches(s.drop_last()) + s.last()@
    }
}

/// All batches of a scan model in emission order, concatenated.
pub open spec fn flatten_seqs(s: Seq<Seq<(String, Option<u64>)>>) -> Seq<(String, Option<u64>)>
    decreases s.len(),
{
    if s.len() == 0 {
        Seq::empty()
    } else {
        flatten_seqs(s.drop_last()) + s.last()
    }
}

/// Emitted batches that match the model pointwise concatenate to the same
/// stream.
proof fn lemma_flatten_eq(
    vs: Seq<Vec<(String, Option<u64>)>>,
    ss: Seq<Seq<(String, Option<u64>)>>,
)
    requires
        vs.len() == ss.len(),
        forall|b: int| 0 <= b < vs.len() ==> (#[trigger] vs[b])@ == ss[b],
    ensures
        flatten_batches(vs) == flatten_seqs(ss),
    decreases vs.len(),
{
    if vs.len() > 0 {
        assert(forall|b: int|
            0 <= b < vs.drop_last().len() ==> #[trigger] vs.drop_last()[b] == vs[b]
                && ss.drop_last()[b] == ss[b]);
        lemma_flatten_eq(vs.drop_last(), ss.drop_last());
        assert(vs.last()@ == ss.last());
    }
}

/// The digest stage's output for a stream of (path, mtime) pairs against the
/// given disk contents: one well-digested file per pair whose disk lookup
/// yields contents, in order; pairs whose read failed or whose path is
/// unknown are dropped.
pub open spec fn digested_rel(
    pairs: Seq<(String, Option<u64>)>,
    disk: Seq<(String, Option<String>)>,
    files: Seq<UnsummarizedFile>,
) -> bool
    decreases pairs.len(),
{
    if pairs.len() == 0 {
        files.len() == 0
    } else {
        let p = pairs.last();
        match lookup(disk, p.0@) {
            Some(loaded) => match loaded {
                Some(c) => {
                    &&& files.len() > 0
                    &&& files.last().path == p.0
                    &&& files.last().mtime == p.1
                    &&& files.last().contents == c
                    &&& files.last().digest@ == crate::digest::content_digest_of(c@)
                    &&& crate::digest::is_digest(files.last().digest@)
                    &&& digested_rel(pairs.drop_last(), disk, files.drop_last())
                },
                None => digested_rel(pairs.drop_last(), disk, files),
            },
            None => digested_rel(pairs.drop_last(), disk, files),
        }
    }
}

/// What one persisted batch leaves behind: for every key the last batch file
/// wins, every other record is untouched.
pub open spec fn persisted_run(s: Store, s2: Store, batch: Seq<SummarizedFile>) -> bool {
    &&& forall|k: Seq<char>|
        s2.digest_record(k) == merged(s.digest_record(k), last_digest_for(batch, k))
    &&& forall|d: Seq<char>|
        s2.summary_record(d) == merged(s.summary_record(d), last_summary_for(batch, d))
}

/// The files the cache check forwards: those whose digest has no summary
/// record yet, in order.
pub open spec fn cache_misses(s: Store, files: Seq<UnsummarizedFile>) -> Seq<UnsummarizedFile>
    decreases files.len(),
{
    if files.len() == 0 {
        Seq::empty()
    } else {
        let rest = cache_misses(s, files.drop_last());
        if s.summary_record(files.last().digest@) is None {
            rest.push(files.last())
        } else {
            rest
        }
    }
}

/// The digest record a persisted batch leaves for this key: the last batch
/// file with that encoded path, if any.
pub open spec fn last_digest_for(batch: Seq<SummarizedFile>, k: Seq<char>) -> Option<FileDigest>
    decreases batch.len(),
{
    if batch.len() == 0 {
        None
    } else if db_key(batch.last().path@) == k {
        Some(FileDigest { mtime: batch.last().mtime, digest: batch.last().digest })
    } else {
        last_digest_for(batch.drop_last(), k)
    }
}

/// The summary a persisted batch leaves for this digest: the last batch file
/// with that digest, if any.
pub open spec fn last_summary_for(batch: Seq<SummarizedFile>, d: Seq<char>) -> Option<String>
    decreases batch.len(),
{
    if batch.len() == 0 {
        None
    } else if batch.last().digest@ == d {
        Some(batch.last().summary)
    } else {
        last_summary_for(batch.drop_last(), d)
    }
}

/// Staged digest puts that mirror a batch file-for-file leave the same
/// last record per key.
proof fn lemma_digest_puts_eq(
    puts: Seq<(String, FileDigest)>,
    batch: Seq<SummarizedFile>,
    k: Seq<char>,
)
    requires
        puts.len() == batch.len(),
        forall|j: int|
            0 <= j < puts.len() ==> (#[trigger] puts[j]).0@ == db_key(batch[j].path@) && puts[j].1
                == (FileDigest { mtime: batch[j].mtime, digest: batch[j].digest }),
    ensures
        crate::table::lookup_last(puts, k) == last_digest_for(batch, k),
    decreases batch.len(),
{
    if batch.len() > 0 {
        assert(puts.last() == puts[puts.len() - 1]);
        assert(puts.drop_last().len() == batch.drop_last().len());
        assert(forall|j: int|
            0 <= j < puts.drop_last().len() ==> #[trigger] puts.drop_last()[j] == puts[j]
                && batch.drop_last()[j] == batch[j]);
        lemma_digest_puts_eq(puts.drop_last(), batch.drop_last(), k);
    }
}

/// Staged summary puts that mirror a batch file-for-file leave the same
/// last summary per digest.
proof fn lemma_summary_puts_eq(puts: Seq<(String, String)>, batch: Seq<SummarizedFile>, d: Seq<char>)
    requires
        puts.len() == batch.len(),
        forall|j: int|
            0 <= j < puts.len() ==> (#[trigger] puts[j]).0@ == batch[j].digest@ && puts[j].1
                == batch[j].summary,
    ensures
        crate::table::lookup_last(puts, d) == last_summary_for(batch, d),
    decreases batch.len(),
{
    if batch.len() > 0 {
        assert(puts.last() == puts[puts.len() - 1]);
        assert(forall|j: int|
            0 <= j < puts.drop_last().len() ==> #[trigger] puts.drop_last()[j] == puts[j]
                && batch.drop_last()[j] == batch[j]);
        lemma_summary_puts_eq(puts.drop_last(), batch.drop_last(), d);
    }
}

/// The summary index: the two-table store and the shared backlog.
pub struct SummaryIndex {
    store: Store,
    backlog: SummaryBacklog,
}

impl SummaryIndex {
    /// The store.
    pub closed spec fn store_spec(self) -> Store {
        self.store
    }

    /// The backlog.
    pub closed spec fn backlog_spec(self) -> SummaryBacklog {
        self.backlog
    }

    /// The queued backlog entries.
    pub open spec fn backlog_entries(self) -> Seq<BacklogItem> {
        self.backlog_spec().entries_seq()
    }

    /// The backlog's count threshold.
    pub open spec fn count_threshold(self) -> int {
        self.backlog_spec().count_threshold()
    }

    /// The backlog's size threshold.
    pub open spec fn size_threshold(self) -> int {
        self.backlog_spec().size_threshold()
    }

    pub open spec fn wf(self) -> bool {
        self.store_spec().wf() && self.backlog_spec().wf()
    }

    /// A summary index over the given store, with the backlog's drain
    /// thresholds.
    pub fn new(store: Store, max_count: usize, max_size: u64) -> (r: SummaryIndex)
        requires
            store.wf(),
            max_size < u64::MAX,
        ensures
            r.wf(),
            r.store_spec() == store,
            r.backlog_entries().len() == 0,
            r.count_threshold() == max_count,
            r.size_threshold() == max_size,
    {
        SummaryIndex { store, backlog: SummaryBacklog::new(max_count, max_size) }
    }

    /// The digest table: encoded path keys and their records.
    pub fn file_digest_db(&self) -> (r: &Vec<(String, FileDigest)>)
        ensures
            r@ == self.store_spec().digest_table(),
    {
        self.store.digest_pairs()
    }

    /// The summary table: content digests and their summaries.
    pub fn summary_db(&self) -> (r: &Vec<(String, String)>)
        ensures
            r@ == self.store_spec().summary_table(),
    {
        self.store.summary_pairs()
    }

    /// One scan step: queues the entry if it is a selected live file, and
    /// drains the backlog into a batch once a threshold is crossed.
    pub fn add_to_backlog(&mut self, entry: &Entry) -> (r: Vec<(String, Option<u64>)>)
        requires
            old(self).wf(),
        ensures
            final(self).wf(),
            final(self).store_spec() == old(self).store_spec(),
            final(self).count_threshold() == old(self).count_threshold(),
            final(self).size_threshold() == old(self).size_threshold(),
            !entry_selected(old(self).store_spec(), *entry) ==> final(self).backlog_entries()
                == old(self).backlog_entries() && r@.len() == 0,
            (entry_selected(old(self).store_spec(), *entry) && !has_key(
                old(self).backlog_entries(),
                entry.path@,
            )) ==> ({
                let b2 = old(self).backlog_entries().push(
                    (entry.path, (entry.size, entry.mtime)),
                );
                &&& needs_drain_at(b2, old(self).count_threshold(), old(self).size_threshold())
                    ==> r@ == map_drain(b2) && final(self).backlog_entries().len() == 0
                &&& !needs_drain_at(b2, old(self).count_threshold(), old(self).size_threshold())
                    ==> r@.len() == 0 && final(self).backlog_entries() == b2
            }),
            entry_selected(old(self).store_spec(), *entry) ==> ({
                let b2 = upsert(
                    old(self).backlog_entries(),
                    (entry.path, (entry.size, entry.mtime)),
                );
                &&& needs_drain_at(b2, old(self).count_threshold(), old(self).size_threshold())
                    ==> r@ == map_drain(b2) && final(self).backlog_entries().len() == 0
                &&& !needs_drain_at(b2, old(self).count_threshold(), old(self).size_threshold())
                    ==> r@.len() == 0 && final(self).backlog_entries() == b2
            }),
    {
        let key = db_key_for_path(entry.path.as_str());
        let selected: bool = match self.store.get_digest(&key) {
            None => entry.is_file,
            Some(r) => entry.is_file && !mtime_eq(&r.mtime, &entry.mtime),
        };
        proof {
            assert(selected == entry_selected(self.store_spec(), *entry));
        }
        if selected {
            let ghost oldb = self.backlog.entries_seq();
            let p = entry.path.clone();
            self.backlog.insert(p, entry.size, entry.mtime);
            proof {
                if !has_key(oldb, entry.path@) {
                    assert(self.backlog.entries_seq() == oldb.push(
                        (entry.path, (entry.size, entry.mtime)),
                    ));
                }
            }
            if self.backlog.needs_drain() {
                let ghost b2 = self.backlog.entries_seq();
                let out = self.backlog.drain();
                proof {
                    assert(out@ =~= map_drain(b2));
                }
                return out;
            }
        }
        Vec::new()
    }

    /// A full scan: walks every entry of the snapshot in order, queues the
    /// selected ones, and returns the drained batches in emission order.
    /// With nothing selected, nothing happens at all; starting from an empty
    /// backlog, the emitted batches followed by what stays queued are exactly
    /// the selected files.
    pub fn scan_entries(&mut self, snapshot: &Snapshot) -> (batches: Vec<
        Vec<(String, Option<u64>)>,
    >)
        requires
            old(self).wf(),
            snapshot.wf(),
        ensures
            final(self).wf(),
            final(self).store_spec() == old(self).store_spec(),
            final(self).count_threshold() == old(self).count_threshold(),
            final(self).size_threshold() == old(self).size_threshold(),
            selected_of(old(self).store_spec(), snapshot.entries@).len() == 0 ==> batches@.len()
                == 0 && final(self).backlog_entries() == old(self).backlog_entries(),
            old(self).backlog_entries().len() == 0 ==> flatten_batches(batches@) + map_drain(
                final(self).backlog_entries(),
            ) == selected_of(old(self).store_spec(), snapshot.entries@),
            ({
                let m = scan_batches_model(
                    old(self).backlog_entries(),
                    selected_items_of(old(self).store_spec(), snapshot.entries@),
                    old(self).count_threshold(),
                    old(self).size_threshold(),
                );
                &&& batches@.len() == m.0.len()
                &&& (forall|b: int|
                    0 <= b < batches@.len() ==> (#[trigger] batches@[b])@ == m.0[b])
                &&& final(self).backlog_entries() == m.1
            }),
            forall|b: int| 0 <= b < batches@.len() ==> (#[trigger] batches@[b])@.len() > 0,
    {
        let mut batches: Vec<Vec<(String, Option<u64>)>> = Vec::new();
        let n = snapshot.entries.len();
        let mut i: usize = 0;
        while i < n
            invariant
                self.wf(),
                snapshot.wf(),
                self.store_spec() == old(self).store_spec(),
                self.count_threshold() == old(self).count_threshold(),
                self.size_threshold() == old(self).size_threshold(),
                n == snapshot.entries@.len(),
                i <= n,
                selected_of(old(self).store_spec(), snapshot.entries@.take(i as int)).len() == 0
                    ==> batches@.len() == 0 && self.backlog_entries() == old(
                    self,
                ).backlog_entries(),
                old(self).backlog_entries().len() == 0 ==> flatten_batches(batches@) + map_drain(
                    self.backlog_entries(),
                ) == selected_of(old(self).store_spec(), snapshot.entries@.take(i as int)),
                old(self).backlog_entries().len() == 0 ==> forall|j: int|
                    0 <= j < self.backlog_entries().len() ==> exists|l: int|
                        0 <= l < i && #[trigger] self.backlog_entries()[j].0
                            == snapshot.entries@[l].path,
                ({
                    let m = scan_batches_model(
                        old(self).backlog_entries(),
                        selected_items_of(
                            old(self).store_spec(),
                            snapshot.entries@.take(i as int),
                        ),
                        old(self).count_threshold(),
                        old(self).size_threshold(),
                    );
                    &&& batches@.len() == m.0.len()
                    &&& (forall|b: int|
                        0 <= b < batches@.len() ==> (#[trigger] batches@[b])@ == m.0[b])
                    &&& self.backlog_entries() == m.1
                }),
                forall|b: int| 0 <= b < batches@.len() ==> (#[trigger] batches@[b])@.len() > 0,
            decreases n - i,
        {
            let ghost prefix = snapshot.entries@.take(i as int);
            let ghost prev = *self;
            let ghost prev_batches = batches@;
            let entry = &snapshot.entries[i];
            let batch = self.add_to_backlog(entry);
            let got_batch = batch.len() > 0;
            if got_batch {
                batches.push(batch);
            }
            i = i + 1;
            proof {
                let prefix2 = snapshot.entries@.take(i as int);
                assert(prefix2.drop_last() =~= prefix);
                assert(prefix2.last() == snapshot.entries@[i - 1]);
                if old(self).backlog_entries().len() == 0 {
                    if entry_selected(old(self).store_spec(), *entry) {
                        assert(!has_key(prev.backlog_entries(), entry.path@)) by {
                            if has_key(prev.backlog_entries(), entry.path@) {
                                let j = choose|j: int|
                                    0 <= j < prev.backlog_entries().len()
                                        && prev.backlog_entries()[j].0@ == entry.path@;
                                let l = choose|l: int|
                                    0 <= l < i - 1 && prev.backlog_entries()[j].0
                                        == snapshot.entries@[l].path;
                                assert(snapshot.entries@[l].path@ == entry.path@);
                                assert(false);
                            }
                        }
                        let b2 = prev.backlog_entries().push(
                            (entry.path, (entry.size, entry.mtime)),
                        );
                        if needs_drain_at(b2, prev.count_threshold(), prev.size_threshold()) {
                            assert(map_drain(b2) =~= map_drain(prev.backlog_entries()).push(
                                (entry.path, entry.mtime),
                            ));
                            assert(got_batch) by {
                                assert(batch@.len() == map_drain(b2).len() == b2.len());
                            }
                            assert(batches@ == prev_batches.push(batch));
                            assert(flatten_batches(batches@) == flatten_batches(prev_batches)
                                + batch@) by {
                                assert(batches@.drop_last() =~= prev_batches);
                            }
                            assert(map_drain(self.backlog_entries()) =~= Seq::<
                                (String, Option<u64>),
                            >::empty());
                            assert(flatten_batches(batches@) + map_drain(self.backlog_entries())
                                =~= selected_of(old(self).store_spec(), prefix2));
                        } else {
                            assert(!got_batch);
                            assert(batches@ == prev_batches);
                            assert(map_drain(b2) =~= map_drain(prev.backlog_entries()).push(
                                (entry.path, entry.mtime),
                            ));
                            assert(flatten_batches(batches@) + map_drain(self.backlog_entries())
                                =~= selected_of(old(self).store_spec(), prefix2));
                        }
                    } else {
                        assert(!got_batch);
                        assert(batches@ == prev_batches);
                        assert(selected_of(old(self).store_spec(), prefix2) == selected_of(
                            old(self).store_spec(),
                            prefix,
                        ));
                    }
                }
                let cnt0 = old(self).count_threshold();
                let sz0 = old(self).size_threshold();
                let sitems = selected_items_of(old(self).store_spec(), prefix);
                let sitems2 = selected_items_of(old(self).store_spec(), prefix2);
                let m_prev = scan_batches_model(old(self).backlog_entries(), sitems, cnt0, sz0);
                let m2 = scan_batches_model(old(self).backlog_entries(), sitems2, cnt0, sz0);
                if entry_selected(old(self).store_spec(), *entry) {
                    let item = (entry.path, (entry.size, entry.mtime));
                    assert(sitems2.drop_last() =~= sitems);
                    assert(sitems2.last() == item);
                    assert(sitems2.len() > 0);
                    let b2u = upsert(m_prev.1, item);
                    assert(m_prev.1 == prev.backlog_entries());
                    assert(b2u.len() > 0) by {
                        if has_key(prev.backlog_entries(), item.0@) {
                            let wi = choose|wi: int|
                                0 <= wi < prev.backlog_entries().len()
                                    && prev.backlog_entries()[wi].0@ == item.0@;
                            assert(prev.backlog_entries().len() > 0);
                        }
                    }
                    if needs_drain_at(b2u, cnt0, sz0) {
                        assert(m2.0 == m_prev.0.push(map_drain(b2u)));
                        assert(m2.1 =~= Seq::<BacklogItem>::empty());
                        assert(batch@ == map_drain(b2u));
                        assert(map_drain(b2u).len() == b2u.len());
                        assert(got_batch);
                        assert(batches@ == prev_batches.push(batch));
                        assert(batches@.len() == m2.0.len());
                        assert forall|b: int|
                            0 <= b < batches@.len() implies (#[trigger] batches@[b])@
                            == m2.0[b] by {
                            if b < prev_batches.len() {
                                assert(batches@[b] == prev_batches[b]);
                                assert(m2.0[b] == m_prev.0[b]);
                            } else {
                                assert(batches@[b] == batch);
                                assert(m2.0[b] == map_drain(b2u));
                            }
                        }
                        assert(self.backlog_entries() =~= m2.1);
                    } else {
                        assert(m2.0 == m_prev.0);
                        assert(m2.1 == b2u);
                        assert(!got_batch);
                        assert(batches@ == prev_batches);
                        assert(self.backlog_entries() == b2u);
                    }
                } else {
                    assert(sitems2 == sitems);
                    assert(m2 == m_prev);
                    assert(!got_batch);
                    assert(batches@ == prev_batches);
                    assert(self.backlog_entries() == prev.backlog_entries());
                }
            }
        }
        proof {
            assert(snapshot.entries@.take(n as int) =~= snapshot.entries@);
        }
        batches
    }

    /// A delta scan: walks the change set in order. Live changes (loaded,
    /// added, updated) resolve their entry by id and queue it when selected,
    /// draining into batches as in a full scan. Removed paths then lose
    /// their digest record, and a summary that no remaining path references
    /// is garbage collected; no other record is touched, and nothing new
    /// appears.
    pub fn scan_updated_entries(&mut self, snapshot: &Snapshot, updated: &Vec<UpdatedEntry>) -> (batches: Vec<Vec<(String, Option<u64>)>>)
        requires
            old(self).wf(),
            snapshot.wf(),
            forall|x: int, y: int|
                0 <= x < y < updated@.len() ==> updated@[x].entry_id != updated@[y].entry_id,
        ensures
            final(self).wf(),
            final(self).count_threshold() == old(self).count_threshold(),
            final(self).size_threshold() == old(self).size_threshold(),
            selected_updates(old(self).store_spec(), *snapshot, updated@).len() == 0
                ==> batches@.len() == 0 && final(self).backlog_entries() == old(
                self,
            ).backlog_entries(),
            old(self).backlog_entries().len() == 0 ==> flatten_batches(batches@) + map_drain(
                final(self).backlog_entries(),
            ) == selected_updates(old(self).store_spec(), *snapshot, updated@),
            ({
                let m = scan_batches_model(
                    old(self).backlog_entries(),
                    selected_update_items_of(old(self).store_spec(), *snapshot, updated@),
                    old(self).count_threshold(),
                    old(self).size_threshold(),
                );
                &&& batches@.len() == m.0.len()
                &&& (forall|b: int|
                    0 <= b < batches@.len() ==> (#[trigger] batches@[b])@ == m.0[b])
                &&& final(self).backlog_entries() == m.1
            }),
            forall|b: int| 0 <= b < batches@.len() ==> (#[trigger] batches@[b])@.len() > 0,
            forall|k: Seq<char>|
                is_removed_key(updated@, k) ==> final(self).store_spec().digest_record(k) is None,
            forall|k: Seq<char>|
                !is_removed_key(updated@, k) ==> final(self).store_spec().digest_record(k) == old(
                    self,
                ).store_spec().digest_record(k),
            forall|d: Seq<char>|
                #[trigger] final(self).store_spec().summary_record(d) == old(
                    self,
                ).store_spec().summary_record(d) || (final(self).store_spec().summary_record(
                    d,
                ) is None && referenced_by_removed(old(self).store_spec(), updated@, d)),
            forall|d: Seq<char>|
                referenced_by_surviving(old(self).store_spec(), updated@, d)
                    ==> #[trigger] final(self).store_spec().summary_record(d) == old(
                    self,
                ).store_spec().summary_record(d),
            (forall|j: int| 0 <= j < updated@.len() ==> updated@[j].change != PathChange::Removed)
                ==> final(self).store_spec() == old(self).store_spec(),
    {
        let mut batches: Vec<Vec<(String, Option<u64>)>> = Vec::new();
        let n = updated.len();
        let mut i: usize = 0;
        while i < n
            invariant
                self.wf(),
                snapshot.wf(),
                forall|x: int, y: int|
                    0 <= x < y < updated@.len() ==> updated@[x].entry_id != updated@[y].entry_id,
                self.store_spec() == old(self).store_spec(),
                self.count_threshold() == old(self).count_threshold(),
                self.size_threshold() == old(self).size_threshold(),
                n == updated@.len(),
                i <= n,
                selected_updates(old(self).store_spec(), *snapshot, updated@.take(i as int)).len()
                    == 0 ==> batches@.len() == 0 && self.backlog_entries() == old(
                    self,
                ).backlog_entries(),
                old(self).backlog_entries().len() == 0 ==> flatten_batches(batches@) + map_drain(
                    self.backlog_entries(),
                ) == selected_updates(old(self).store_spec(), *snapshot, updated@.take(i as int)),
                old(self).backlog_entries().len() == 0 ==> backlog_from_updates(
                    self.backlog_entries(),
                    *snapshot,
                    updated@,
                    i as int,
                ),
                ({
                    let m = scan_batches_model(
                        old(self).backlog_entries(),
                        selected_update_items_of(
                            old(self).store_spec(),
                            *snapshot,
                            updated@.take(i as int),
                        ),
                        old(self).count_threshold(),
                        old(self).size_threshold(),
                    );
                    &&& batches@.len() == m.0.len()
                    &&& (forall|b: int|
                        0 <= b < batches@.len() ==> (#[trigger] batches@[b])@ == m.0[b])
                    &&& self.backlog_entries() == m.1
                }),
                forall|b: int| 0 <= b < batches@.len() ==> (#[trigger] batches@[b])@.len() > 0,
            decreases n - i,
        {
            let ghost prefix = updated@.take(i as int);
            let ghost prev = *self;
            let ghost prev_batches = batches@;
            let u = &updated[i];
            let is_removed = match u.change {
                PathChange::Removed => true,
                _ => false,
            };
            if !is_removed {
                match snapshot.entry_for_id(u.entry_id) {
                    Some(entry) => {
                        proof {
                            if old(self).backlog_entries().len() == 0 && entry_selected(
                                old(self).store_spec(),
                                *entry,
                            ) && has_key(prev.backlog_entries(), entry.path@) {
                                lemma_entry_of_id_member(snapshot.entries@, u.entry_id);
                                let j = choose|j: int|
                                    0 <= j < prev.backlog_entries().len()
                                        && prev.backlog_entries()[j].0@ == entry.path@;
                                assert(from_live_update(
                                    *snapshot,
                                    updated@,
                                    i as int,
                                    prev.backlog_entries()[j].0,
                                ));
                                let l = choose|l: int|
                                    0 <= l < i && updated@[l].change != PathChange::Removed
                                        && entry_of_id(
                                        snapshot.entries@,
                                        updated@[l].entry_id,
                                    ) is Some && prev.backlog_entries()[j].0 == entry_of_id(
                                        snapshot.entries@,
                                        updated@[l].entry_id,
                                    ).unwrap().path;
                                let e_l = entry_of_id(
                                    snapshot.entries@,
                                    updated@[l].entry_id,
                                ).unwrap();
                                lemma_entry_of_id_member(snapshot.entries@, updated@[l].entry_id);
                                let a = choose|a: int|
                                    0 <= a < snapshot.entries@.len() && snapshot.entries@[a] == e_l;
                                let b = choose|b: int|
                                    0 <= b < snapshot.entries@.len() && snapshot.entries@[b]
                                        == *entry;
                                assert(updated@[l].entry_id != u.entry_id);
                                assert(a != b);
                                assert(snapshot.entries@[a].path@ != snapshot.entries@[b].path@);
                                assert(false);
                            }
                        }
                        let batch = self.add_to_backlog(entry);
                        let got_batch = batch.len() > 0;
                        if got_batch {
                            batches.push(batch);
                        }
                        proof {
                            let prefix2 = updated@.take(i as int + 1);
                            assert(prefix2.drop_last() =~= prefix);
                            assert(prefix2.last() == updated@[i as int]);
                            assert(entry_of_id(snapshot.entries@, u.entry_id) == Some(*entry));
                            if old(self).backlog_entries().len() == 0 {
                                if entry_selected(old(self).store_spec(), *entry) {
                                    let b2 = prev.backlog_entries().push(
                                        (entry.path, (entry.size, entry.mtime)),
                                    );
                                    if needs_drain_at(
                                        b2,
                                        prev.count_threshold(),
                                        prev.size_threshold(),
                                    ) {
                                        assert(map_drain(b2) =~= map_drain(
                                            prev.backlog_entries(),
                                        ).push((entry.path, entry.mtime)));
                                        assert(got_batch) by {
                                            assert(batch@.len() == map_drain(b2).len()
                                                == b2.len());
                                        }
                                        assert(batches@ == prev_batches.push(batch));
                                        assert(flatten_batches(batches@) == flatten_batches(
                                            prev_batches,
                                        ) + batch@) by {
                                            assert(batches@.drop_last() =~= prev_batches);
                                        }
                                        assert(map_drain(self.backlog_entries()) =~= Seq::<
                                            (String, Option<u64>),
                                        >::empty());
                                        assert(flatten_batches(batches@) + map_drain(
                                            self.backlog_entries(),
                                        ) =~= selected_updates(
                                            old(self).store_spec(),
                                            *snapshot,
                                            prefix2,
                                        ));
                                        assert(self.backlog_entries().len() == 0);
                                        assert(backlog_from_updates(
                                            self.backlog_entries(),
                                            *snapshot,
                                            updated@,
                                            i as int + 1,
                                        ));
                                    } else {
                                        assert(!got_batch);
                                        assert(batches@ == prev_batches);
                                        assert(map_drain(b2) =~= map_drain(
                                            prev.backlog_entries(),
                                        ).push((entry.path, entry.mtime)));
                                        assert(flatten_batches(batches@) + map_drain(
                                            self.backlog_entries(),
                                        ) =~= selected_updates(
                                            old(self).store_spec(),
                                            *snapshot,
                                            prefix2,
                                        ));
                                        lemma_backlog_from_updates_push(
                                            prev.backlog_entries(),
                                            *snapshot,
                                            updated@,
                                            i as int,
                                            (entry.path, (entry.size, entry.mtime)),
                                        );
                                        assert(self.backlog_entries() == b2);
                                    }
                                } else {
                                    assert(!got_batch);
                                    assert(selected_updates(
                                        old(self).store_spec(),
                                        *snapshot,
                                        prefix2,
                                    ) == selected_updates(
                                        old(self).store_spec(),
                                        *snapshot,
                                        prefix,
                                    ));
                                    lemma_backlog_from_updates_widen(
                                        self.backlog_entries(),
                                        *snapshot,
                                        updated@,
                                        i as int,
                                        i as int + 1,
                                    );
                                }
                            }
                            let cnt0 = old(self).count_threshold();
                            let sz0 = old(self).size_threshold();
                            let sitems = selected_update_items_of(
                                old(self).store_spec(),
                                *snapshot,
                                prefix,
                            );
                            let sitems2 = selected_update_items_of(
                                old(self).store_spec(),
                                *snapshot,
                                prefix2,
                            );
                            let m_prev = scan_batches_model(
                                old(self).backlog_entries(),
                                sitems,
                                cnt0,
                                sz0,
                            );
                            let m2 = scan_batches_model(
                                old(self).backlog_entries(),
                                sitems2,
                                cnt0,
                                sz0,
                            );
                            if entry_selected(old(self).store_spec(), *entry) {
                                let item = (entry.path, (entry.size, entry.mtime));
                                assert(sitems2.drop_last() =~= sitems);
                                assert(sitems2.last() == item);
                                assert(sitems2.len() > 0);
                                let b2u = upsert(m_prev.1, item);
                                assert(m_prev.1 == prev.backlog_entries());
                                assert(b2u.len() > 0) by {
                                    if has_key(prev.backlog_entries(), item.0@) {
                                        let wi = choose|wi: int|
                                            0 <= wi < prev.backlog_entries().len()
                                                && prev.backlog_entries()[wi].0@ == item.0@;
                                        assert(prev.backlog_entries().len() > 0);
                                    }
                                }
                                if needs_drain_at(b2u, cnt0, sz0) {
                                    assert(m2.0 == m_prev.0.push(map_drain(b2u)));
                                    assert(m2.1 =~= Seq::<BacklogItem>::empty());
                                    assert(batch@ == map_drain(b2u));
                                    assert(map_drain(b2u).len() == b2u.len());
                                    assert(got_batch);
                                    assert(batches@ == prev_batches.push(batch));
                                    assert(batches@.len() == m2.0.len());
                                    assert forall|b: int|
                                        0 <= b < batches@.len() implies (#[trigger] batches@[b])@
                                        == m2.0[b] by {
                                        if b < prev_batches.len() {
                                            assert(batches@[b] == prev_batches[b]);
                                            assert(m2.0[b] == m_prev.0[b]);
                                        } else {
                                            assert(batches@[b] == batch);
                                            assert(m2.0[b] == map_drain(b2u));
                                        }
                                    }
                                    assert(self.backlog_entries() =~= m2.1);
                                } else {
                                    assert(m2.0 == m_prev.0);
                                    assert(m2.1 == b2u);
                                    assert(!got_batch);
                                    assert(batches@ == prev_batches);
                                    assert(self.backlog_entries() == b2u);
                                }
                            } else {
                                assert(sitems2 == sitems);
                                assert(m2 == m_prev);
                                assert(!got_batch);
                                assert(batches@ == prev_batches);
                                assert(self.backlog_entries() == prev.backlog_entries());
                            }
                        }
                    },
                    None => {
                        proof {
                            let prefix2 = updated@.take(i as int + 1);
                            assert(prefix2.drop_last() =~= prefix);
                            assert(prefix2.last() == updated@[i as int]);
                            if old(self).backlog_entries().len() == 0 {
                                lemma_backlog_from_updates_widen(
                                    self.backlog_entries(),
                                    *snapshot,
                                    updated@,
                                    i as int,
                                    i as int + 1,
                                );
                            }
                            assert(selected_update_items_of(
                                old(self).store_spec(),
                                *snapshot,
                                prefix2,
                            ) == selected_update_items_of(
                                old(self).store_spec(),
                                *snapshot,
                                prefix,
                            ));
                        }
                    },
                }
            } else {
                proof {
                    let prefix2 = updated@.take(i as int + 1);
                    assert(prefix2.drop_last() =~= prefix);
                    assert(prefix2.last() == updated@[i as int]);
                    if old(self).backlog_entries().len() == 0 {
                        lemma_backlog_from_updates_widen(
                            self.backlog_entries(),
                            *snapshot,
                            updated@,
                            i as int,
                            i as int + 1,
                        );
                    }
                    assert(selected_update_items_of(
                        old(self).store_spec(),
                        *snapshot,
                        prefix2,
                    ) == selected_update_items_of(
                        old(self).store_spec(),
                        *snapshot,
                        prefix,
                    ));
                }
            }
            i = i + 1;
        }
        proof {
            assert(updated@.take(n as int) =~= updated@);
        }
        let ghost mid = *self;
        proof {
            assert(mid.store_spec() == old(self).store_spec());
        }
        let mut j: usize = 0;
        while j < n
            invariant
                self.wf(),
                mid.store_spec().wf(),
                n == updated@.len(),
                j <= n,
                self.backlog_spec() == mid.backlog_spec(),
                forall|k: Seq<char>|
                    is_removed_key(updated@.take(j as int), k) ==> self.store_spec().digest_record(
                        k,
                    ) is None,
                forall|k: Seq<char>|
                    !is_removed_key(updated@, k) ==> self.store_spec().digest_record(k)
                        == mid.store_spec().digest_record(k),
                forall|k: Seq<char>|
                    !is_removed_key(updated@.take(j as int), k) ==> self.store_spec().digest_record(
                        k,
                    ) == mid.store_spec().digest_record(k),
                forall|d: Seq<char>|
                    #[trigger] self.store_spec().summary_record(d) == mid.store_spec(
                    ).summary_record(d) || (self.store_spec().summary_record(d) is None
                        && referenced_by_removed(mid.store_spec(), updated@, d)),
                forall|d: Seq<char>|
                    referenced_by_surviving(mid.store_spec(), updated@, d)
                        ==> #[trigger] self.store_spec().summary_record(d) == mid.store_spec(
                    ).summary_record(d),
                (forall|l: int|
                    0 <= l < j ==> updated@[l].change != PathChange::Removed)
                    ==> self.store_spec() == mid.store_spec(),
            decreases n - j,
        {
            let u = &updated[j];
            let is_removed = match u.change {
                PathChange::Removed => true,
                _ => false,
            };
            if is_removed {
                let ghost prev_store = self.store_spec();
                let key = db_key_for_path(u.path.as_str());
                self.store.remove_path_record(&key);
                proof {
                    assert(is_removed_key(updated@, key@)) by {
                        assert(updated@[j as int].change == PathChange::Removed);
                        assert(db_key(updated@[j as int].path@) == key@);
                    }
                    assert forall|k: Seq<char>|
                        is_removed_key(updated@.take(j as int + 1), k) implies self.store_spec()
                        .digest_record(k) is None by {
                        let l = choose|l: int|
                            0 <= l < j + 1 && (#[trigger] updated@.take(j as int + 1)[l]).change
                                == PathChange::Removed && db_key(
                                updated@.take(j as int + 1)[l].path@,
                            ) == k;
                        if l < j {
                            assert(is_removed_key(updated@.take(j as int), k)) by {
                                assert(updated@.take(j as int)[l] == updated@[l]);
                            }
                            assert(prev_store.digest_record(k) is None);
                            if k != key@ {
                                assert(self.store_spec().digest_record(k) == prev_store
                                    .digest_record(k));
                            }
                        } else {
                            assert(updated@[l] == *u);
                            assert(k == key@);
                        }
                    }
                    assert forall|k: Seq<char>|
                        !is_removed_key(updated@.take(j as int + 1), k) implies self.store_spec()
                        .digest_record(k) == mid.store_spec().digest_record(k) by {
                        assert(!is_removed_key(updated@.take(j as int), k)) by {
                            if is_removed_key(updated@.take(j as int), k) {
                                let l = choose|l: int|
                                    0 <= l < j && (#[trigger] updated@.take(j as int)[l]).change
                                        == PathChange::Removed && db_key(
                                        updated@.take(j as int)[l].path@,
                                    ) == k;
                                assert(updated@.take(j as int + 1)[l] == updated@[l]);
                                assert(updated@.take(j as int)[l] == updated@[l]);
                                assert(is_removed_key(updated@.take(j as int + 1), k));
                            }
                        }
                        assert(k != key@) by {
                            if k == key@ {
                                assert(updated@.take(j as int + 1)[j as int] == *u);
                                assert(is_removed_key(updated@.take(j as int + 1), k));
                            }
                        }
                        assert(self.store_spec().digest_record(k) == prev_store.digest_record(k));
                    }
                    let rec_opt = prev_store.digest_record(key@);
                    assert forall|d: Seq<char>|
                        referenced_by_surviving(mid.store_spec(), updated@, d) implies #[trigger] self.store_spec().summary_record(d) == mid.store_spec().summary_record(d) by {
                        assert(prev_store.summary_record(d) == mid.store_spec().summary_record(d));
                        match rec_opt {
                            None => {
                                assert(self.store_spec().summary_table() == prev_store
                                    .summary_table());
                            },
                            Some(rec) => {
                                if d == rec.digest@ {
                                    let wi = choose|i: int|
                                        0 <= i < mid.store_spec().digest_table().len() && (
                                        #[trigger] mid.store_spec().digest_table()[i]).1.digest@
                                            == d && !is_removed_key(
                                            updated@,
                                            mid.store_spec().digest_table()[i].0@,
                                        );
                                    let kk = mid.store_spec().digest_table()[wi].0@;
                                    assert(kk != key@);
                                    crate::table::lemma_lookup_at(
                                        mid.store_spec().digest_table(),
                                        kk,
                                        wi,
                                    );
                                    assert(prev_store.digest_record(kk) == Some(
                                        mid.store_spec().digest_table()[wi].1,
                                    ));
                                    crate::table::lemma_lookup_index(
                                        prev_store.digest_table(),
                                        kk,
                                    );
                                    let pi = choose|i: int|
                                        0 <= i < prev_store.digest_table().len() && (
                                        #[trigger] prev_store.digest_table()[i]).0@ == kk
                                            && prev_store.digest_table()[i].1
                                            == prev_store.digest_record(kk).unwrap();
                                    assert(prev_store.digest_table()[pi].0@ != key@
                                        && prev_store.digest_table()[pi].1.digest@
                                        == rec.digest@);
                                } else {
                                    let shared = exists|i: int|
                                        0 <= i < prev_store.digest_table().len()
                                            && prev_store.digest_table()[i].0@ != key@
                                            && prev_store.digest_table()[i].1.digest@
                                            == rec.digest@;
                                    if shared {
                                        assert(self.store_spec().summary_table() == prev_store
                                            .summary_table());
                                    } else {
                                        assert(self.store_spec().summary_record(d) == prev_store
                                            .summary_record(d));
                                    }
                                }
                            },
                        }
                    }
                    assert forall|d: Seq<char>|
                        #[trigger] self.store_spec().summary_record(d) == mid.store_spec(
                        ).summary_record(d) || (self.store_spec().summary_record(d) is None
                            && referenced_by_removed(mid.store_spec(), updated@, d)) by {
                        if prev_store.summary_record(d) == mid.store_spec().summary_record(d) {
                            if self.store_spec().summary_record(d) != prev_store.summary_record(
                                d,
                            ) {
                                match rec_opt {
                                    None => {
                                        assert(self.store_spec().summary_table() == prev_store
                                            .summary_table());
                                    },
                                    Some(rec) => {
                                        assert(d == rec.digest@ && self.store_spec()
                                            .summary_record(d) is None) by {
                                            let shared = exists|i: int|
                                                0 <= i < prev_store.digest_table().len()
                                                    && prev_store.digest_table()[i].0@ != key@
                                                    && prev_store.digest_table()[i].1.digest@
                                                    == rec.digest@;
                                            if shared {
                                                assert(self.store_spec().summary_table()
                                                    == prev_store.summary_table());
                                            } else {
                                                if d != rec.digest@ {
                                                    assert(self.store_spec().summary_record(d)
                                                        == prev_store.summary_record(d));
                                                }
                                            }
                                        }
                                        assert(!is_removed_key(updated@.take(j as int), key@))
                                            by {
                                            if is_removed_key(updated@.take(j as int), key@) {
                                                assert(prev_store.digest_record(key@) is None);
                                            }
                                        }
                                        assert(mid.store_spec().digest_record(key@) == Some(
                                            rec,
                                        ));
                                        crate::table::lemma_lookup_index(
                                            mid.store_spec().digest_table(),
                                            key@,
                                        );
                                        let mi = choose|i: int|
                                            0 <= i < mid.store_spec().digest_table().len() && (
                                            #[trigger] mid.store_spec().digest_table()[i]).0@
                                                == key@ && mid.store_spec().digest_table()[i].1
                                                == rec;
                                        assert(mid.store_spec().digest_table()[mi].1.digest@
                                            == d && is_removed_key(
                                            updated@,
                                            mid.store_spec().digest_table()[mi].0@,
                                        ));
                                        assert(referenced_by_removed(
                                            mid.store_spec(),
                                            updated@,
                                            d,
                                        ));
                                    },
                                }
                            }
                        } else {
                            assert(prev_store.summary_record(d) is None && referenced_by_removed(
                                mid.store_spec(),
                                updated@,
                                d,
                            ));
                            assert(self.store_spec().summary_record(d) is None) by {
                                match rec_opt {
                                    None => {
                                        assert(self.store_spec().summary_table() == prev_store
                                            .summary_table());
                                    },
                                    Some(rec) => {
                                        let shared = exists|i: int|
                                            0 <= i < prev_store.digest_table().len()
                                                && prev_store.digest_table()[i].0@ != key@
                                                && prev_store.digest_table()[i].1.digest@
                                                == rec.digest@;
                                        if shared {
                                            assert(self.store_spec().summary_table()
                                                == prev_store.summary_table());
                                        } else {
                                            if d != rec.digest@ {
                                                assert(self.store_spec().summary_record(d)
                                                    == prev_store.summary_record(d));
                                            }
                                        }
                                    },
                                }
                            }
                        }
                    }
                }
            } else {
                proof {
                    assert forall|k: Seq<char>|
                        is_removed_key(updated@.take(j as int + 1), k) implies self.store_spec()
                        .digest_record(k) is None by {
                        let l = choose|l: int|
                            0 <= l < j + 1 && (#[trigger] updated@.take(j as int + 1)[l]).change
                                == PathChange::Removed && db_key(
                                updated@.take(j as int + 1)[l].path@,
                            ) == k;
                        assert(updated@.take(j as int)[l] == updated@[l]);
                        assert(is_removed_key(updated@.take(j as int), k));
                    }
                    assert forall|k: Seq<char>|
                        !is_removed_key(updated@.take(j as int + 1), k) implies self.store_spec()
                        .digest_record(k) == mid.store_spec().digest_record(k) by {
                        assert(!is_removed_key(updated@.take(j as int), k)) by {
                            if is_removed_key(updated@.take(j as int), k) {
                                let l = choose|l: int|
                                    0 <= l < j && (#[trigger] updated@.take(j as int)[l]).change
                                        == PathChange::Removed && db_key(
                                        updated@.take(j as int)[l].path@,
                                    ) == k;
                                assert(updated@.take(j as int + 1)[l] == updated@[l]);
                                assert(updated@.take(j as int)[l] == updated@[l]);
                                assert(is_removed_key(updated@.take(j as int + 1), k));
                            }
                        }
                    }
                }
            }
            j = j + 1;
        }
        proof {
            assert(updated@.take(n as int) =~= updated@);
        }
        batches
    }

    /// The cache check: forwards exactly the files whose content digest has
    /// no summary record yet; a cache hit needs no further work.
    pub fn check_summary_cache(&self, files: &Vec<UnsummarizedFile>) -> (r: Vec<UnsummarizedFile>)
        requires
            self.wf(),
        ensures
            r@ == cache_misses(self.store_spec(), files@),
    {
        let mut out: Vec<UnsummarizedFile> = Vec::new();
        let n = files.len();
        let mut i: usize = 0;
        while i < n
            invariant
                self.wf(),
                n == files@.len(),
                i <= n,
                out@ == cache_misses(self.store_spec(), files@.take(i as int)),
            decreases n - i,
        {
            proof {
                let prefix2 = files@.take(i as int + 1);
                assert(prefix2.drop_last() =~= files@.take(i as int));
                assert(prefix2.last() == files@[i as int]);
            }
            match self.store.get_summary(&files[i].digest) {
                None => {
                    out.push(files[i].duplicate());
                },
                Some(_) => {},
            }
            i = i + 1;
        }
        proof {
            assert(files@.take(n as int) =~= files@);
        }
        out
    }

    /// Persists one batch in a single write transaction: for every file, the
    /// digest record for its encoded path and the summary record for its
    /// digest are staged together, and the commit makes the whole batch
    /// visible at once. For each key the last batch file wins; every other
    /// record is untouched; an empty batch changes nothing.
    pub fn persist_summaries(&mut self, batch: &Vec<SummarizedFile>)
        requires
            old(self).wf(),
        ensures
            final(self).wf(),
            final(self).backlog_spec() == old(self).backlog_spec(),
            forall|k: Seq<char>|
                final(self).store_spec().digest_record(k) == merged(
                    old(self).store_spec().digest_record(k),
                    last_digest_for(batch@, k),
                ),
            forall|d: Seq<char>|
                final(self).store_spec().summary_record(d) == merged(
                    old(self).store_spec().summary_record(d),
                    last_summary_for(batch@, d),
                ),
            batch@.len() == 0 ==> final(self).store_spec() == old(self).store_spec(),
    {
        let mut txn = self.store.begin_write();
        let n = batch.len();
        let mut i: usize = 0;
        while i < n
            invariant
                n == batch@.len(),
                i <= n,
                txn.digest_puts().len() == i,
                txn.summary_puts().len() == i,
                forall|j: int|
                    0 <= j < i ==> (#[trigger] txn.digest_puts()[j]).0@ == db_key(batch@[j].path@)
                        && txn.digest_puts()[j].1 == (FileDigest {
                        mtime: batch@[j].mtime,
                        digest: batch@[j].digest,
                    }),
                forall|j: int|
                    0 <= j < i ==> (#[trigger] txn.summary_puts()[j]).0@ == batch@[j].digest@
                        && txn.summary_puts()[j].1 == batch@[j].summary,
            decreases n - i,
        {
            let f = &batch[i];
            let key = db_key_for_path(f.path.as_str());
            txn.put_digest(key, FileDigest { mtime: f.mtime, digest: f.digest.clone() });
            txn.put_summary(f.digest.clone(), f.summary.clone());
            i = i + 1;
        }
        let ghost dp = txn.digest_puts();
        let ghost sp = txn.summary_puts();
        self.store.commit(txn);
        proof {
            assert forall|k: Seq<char>|
                final(self).store_spec().digest_record(k) == merged(
                    old(self).store_spec().digest_record(k),
                    last_digest_for(batch@, k),
                ) by {
                lemma_digest_puts_eq(dp, batch@, k);
            }
            assert forall|d: Seq<char>|
                final(self).store_spec().summary_record(d) == merged(
                    old(self).store_spec().summary_record(d),
                    last_summary_for(batch@, d),
                ) by {
                lemma_summary_puts_eq(sp, batch@, d);
            }
        }
    }

    /// Digests the scanned batches against the given disk contents (path to
    /// contents; a missing or failed read drops the file for this run).
    fn digest_batches(
        batches: &Vec<Vec<(String, Option<u64>)>>,
        disk: &Vec<(String, Option<String>)>,
    ) -> (files: Vec<UnsummarizedFile>)
        requires
            keys_unique(disk@),
        ensures
            batches@.len() == 0 ==> files@.len() == 0,
            digested_rel(flatten_batches(batches@), disk@, files@),
    {
        let mut files: Vec<UnsummarizedFile> = Vec::new();
        let nb = batches.len();
        let mut bi: usize = 0;
        proof {
            assert(flatten_batches(batches@.take(0)) =~= Seq::<(String, Option<u64>)>::empty());
        }
        while bi < nb
            invariant
                keys_unique(disk@),
                nb == batches@.len(),
                bi <= nb,
                bi == 0 ==> files@.len() == 0,
                digested_rel(flatten_batches(batches@.take(bi as int)), disk@, files@),
            decreases nb - bi,
        {
            let batch = &batches[bi];
            let ghost fb = flatten_batches(batches@.take(bi as int));
            let m = batch.len();
            let mut k: usize = 0;
            proof {
                assert(fb + batch@.take(0) =~= fb);
            }
            while k < m
                invariant
                    keys_unique(disk@),
                    m == batch@.len(),
                    k <= m,
                    digested_rel(fb + batch@.take(k as int), disk@, files@),
                decreases m - k,
            {
                let ghost pairs = fb + batch@.take(k as int);
                let ghost pairs2 = fb + batch@.take(k as int + 1);
                proof {
                    assert(pairs2.drop_last() =~= pairs);
                    assert(pairs2.last() == batch@[k as int]);
                    assert(pairs2.len() > 0);
                }
                let path = batch[k].0.clone();
                let mtime = batch[k].1;
                let loaded: Option<String> = match table_get(disk, &path) {
                    None => None,
                    Some(opt) => match opt {
                        None => None,
                        Some(c) => Some(c.clone()),
                    },
                };
                let ghost files_before = files@;
                match digest_file(path, mtime, loaded) {
                    Some(f) => {
                        files.push(f);
                        proof {
                            assert(files@.drop_last() =~= files_before);
                            assert(files@.last() == f);
                        }
                    },
                    None => {},
                }
                proof {
                    assert(digested_rel(pairs2, disk@, files@));
                }
                k = k + 1;
            }
            proof {
                assert(batch@.take(m as int) =~= batch@);
                let t2 = batches@.take(bi as int + 1);
                assert(t2.drop_last() =~= batches@.take(bi as int));
                assert(t2.last() == batches@[bi as int]);
                assert(flatten_batches(t2) == fb + batch@);
            }
            bi = bi + 1;
        }
        proof {
            assert(batches@.take(nb as int) =~= batches@);
        }
        files
    }

    /// A whole run over everything changed on disk: scans the full snapshot,
    /// digests the emitted batches against the given disk contents,
    /// summarizes the cache misses with the provider's successive outcomes,
    /// and persists the result in one batch. Fails, touching nothing, if and
    /// only if the configured model is not among the available ones; with
    /// nothing selected, the run changes nothing and makes no provider call.
    pub fn index_entries_changed_on_disk(
        &mut self,
        snapshot: &Snapshot,
        disk: &Vec<(String, Option<String>)>,
        available_models: &Vec<String>,
        model_name: &String,
        outcomes: &Vec<ProviderOutcome>,
    ) -> (r: Result<(), SummaryError>)
        requires
            old(self).wf(),
            snapshot.wf(),
            keys_unique(disk@),
        ensures
            final(self).wf(),
            final(self).count_threshold() == old(self).count_threshold(),
            final(self).size_threshold() == old(self).size_threshold(),
            r is Ok <==> exists|i: int|
                0 <= i < available_models@.len() && available_models@[i]@ == model_name@,
            r is Err ==> r == Err::<(), SummaryError>(SummaryError::NoModel) && *final(self)
                == *old(self),
            (r is Ok && selected_of(old(self).store_spec(), snapshot.entries@).len() == 0)
                ==> final(self).store_spec() == old(self).store_spec()
                && final(self).backlog_entries() == old(self).backlog_entries(),
            r is Ok ==> ({
                let m = scan_batches_model(
                    old(self).backlog_entries(),
                    selected_items_of(old(self).store_spec(), snapshot.entries@),
                    old(self).count_threshold(),
                    old(self).size_threshold(),
                );
                &&& final(self).backlog_entries() == m.1
                &&& exists|files: Seq<UnsummarizedFile>|
                    digested_rel(flatten_seqs(m.0), disk@, files) && persisted_run(
                        old(self).store_spec(),
                        final(self).store_spec(),
                        summ_model(cache_misses(old(self).store_spec(), files), outcomes@).0,
                    )
            }),
            forall|k: Seq<char>|
                final(self).store_spec().digest_record(k) != old(self).store_spec().digest_record(
                    k,
                ) ==> (#[trigger] final(self).store_spec().digest_record(k)) is Some
                    && final(self).store_spec().summary_record(
                    final(self).store_spec().digest_record(k).unwrap().digest@,
                ) is Some,
    {
        match resolve_model(available_models, model_name) {
            Err(e) => {
                return Err(e);
            },
            Ok(_) => {},
        }
        let batches = self.scan_entries(snapshot);
        let files = Self::digest_batches(&batches, disk);
        let misses = self.check_summary_cache(&files);
        let (summarized, _calls) = summarize_files(&misses, outcomes);
        proof {
            if selected_of(old(self).store_spec(), snapshot.entries@).len() == 0 {
                assert(files@.len() == 0);
                assert(misses@ =~= Seq::<UnsummarizedFile>::empty());
                assert(summarized@.len() == 0);
            }
        }
        let ghost before_persist = self.store_spec();
        self.persist_summaries(&summarized);
        proof {
            crate::laws::lemma_no_digest_without_summary(
                before_persist,
                self.store_spec(),
                summarized@,
            );
            let m = scan_batches_model(
                old(self).backlog_entries(),
                selected_items_of(old(self).store_spec(), snapshot.entries@),
                old(self).count_threshold(),
                old(self).size_threshold(),
            );
            lemma_flatten_eq(batches@, m.0);
            assert(digested_rel(flatten_seqs(m.0), disk@, files@));
            assert(persisted_run(
                old(self).store_spec(),
                self.store_spec(),
                summ_model(cache_misses(old(self).store_spec(), files@), outcomes@).0,
            ));
        }
        Ok(())
    }

    /// A whole run over a delta of updated entries: scans the change set
    /// (including tombstoning of removed paths), then digests, summarizes
    /// and persists as a full run does. Fails, touching nothing, if and only
    /// if the configured model is not among the available ones; with nothing
    /// selected and nothing removed, the run changes nothing.
    pub fn index_updated_entries(
        &mut self,
        snapshot: &Snapshot,
        updated: &Vec<UpdatedEntry>,
        disk: &Vec<(String, Option<String>)>,
        available_models: &Vec<String>,
        model_name: &String,
        outcomes: &Vec<ProviderOutcome>,
    ) -> (r: Result<(), SummaryError>)
        requires
            old(self).wf(),
            snapshot.wf(),
            keys_unique(disk@),
            forall|x: int, y: int|
                0 <= x < y < updated@.len() ==> updated@[x].entry_id != updated@[y].entry_id,
        ensures
            final(self).wf(),
            final(self).count_threshold() == old(self).count_threshold(),
            final(self).size_threshold() == old(self).size_threshold(),
            r is Ok <==> exists|i: int|
                0 <= i < available_models@.len() && available_models@[i]@ == model_name@,
            r is Err ==> r == Err::<(), SummaryError>(SummaryError::NoModel) && *final(self)
                == *old(self),
            (r is Ok && selected_updates(old(self).store_spec(), *snapshot, updated@).len() == 0
                && (forall|j: int|
                0 <= j < updated@.len() ==> updated@[j].change != PathChange::Removed))
                ==> final(self).store_spec() == old(self).store_spec()
                && final(self).backlog_entries() == old(self).backlog_entries(),
            r is Ok ==> ({
                let m = scan_batches_model(
                    old(self).backlog_entries(),
                    selected_update_items_of(old(self).store_spec(), *snapshot, updated@),
                    old(self).count_threshold(),
                    old(self).size_threshold(),
                );
                &&& final(self).backlog_entries() == m.1
                &&& exists|mid: Store, files: Seq<UnsummarizedFile>|
                    (forall|k: Seq<char>|
                        is_removed_key(updated@, k) ==> (#[trigger] mid.digest_record(k)) is None)
                        && (forall|k: Seq<char>|
                        !is_removed_key(updated@, k) ==> (#[trigger] mid.digest_record(k)) == old(
                            self,
                        ).store_spec().digest_record(k)) && (forall|d: Seq<char>|
                        (#[trigger] mid.summary_record(d)) == old(self).store_spec().summary_record(
                            d,
                        ) || (mid.summary_record(d) is None && referenced_by_removed(
                            old(self).store_spec(),
                            updated@,
                            d,
                        ))) && (forall|d: Seq<char>|
                        referenced_by_surviving(old(self).store_spec(), updated@, d) ==> (
                        #[trigger] mid.summary_record(d)) == old(self).store_spec().summary_record(
                            d,
                        )) && digested_rel(flatten_seqs(m.0), disk@, files) && persisted_run(
                        mid,
                        final(self).store_spec(),
                        summ_model(cache_misses(mid, files), outcomes@).0,
                    )
            }),
    {
        match resolve_model(available_models, model_name) {
            Err(e) => {
                return Err(e);
            },
            Ok(_) => {},
        }
        let batches = self.scan_updated_entries(snapshot, updated);
        let ghost mid_store = self.store_spec();
        let files = Self::digest_batches(&batches, disk);
        let misses = self.check_summary_cache(&files);
        let (summarized, _calls) = summarize_files(&misses, outcomes);
        proof {
            if selected_updates(old(self).store_spec(), *snapshot, updated@).len() == 0 {
                assert(files@.len() == 0);
                assert(misses@ =~= Seq::<UnsummarizedFile>::empty());
                assert(summarized@.len() == 0);
            }
        }
        self.persist_summaries(&summarized);
        proof {
            let m = scan_batches_model(
                old(self).backlog_entries(),
                selected_update_items_of(old(self).store_spec(), *snapshot, updated@),
                old(self).count_threshold(),
                old(self).size_threshold(),
            );
            lemma_flatten_eq(batches@, m.0);
            assert(digested_rel(flatten_seqs(m.0), disk@, files@));
            assert(persisted_run(
                mid_store,
                self.store_spec(),
                summ_model(cache_misses(mid_store, files@), outcomes@).0,
            ));
        }
        Ok(())
    }
}

} // verus!
