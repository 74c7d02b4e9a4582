//! Cross-stage laws of the pipeline.

use vstd::prelude::*;

use crate::digest::content_digest_of;
use crate::index::entry_selected;
use crate::index::last_digest_for;
use crate::index::last_summary_for;
use crate::index::selected_of;
use crate::pathkey::db_key;
use crate::pathkey::lemma_db_key_injective;
use crate::store::merged;
use crate::store::Store;
use crate::summarize::outcome_text;
use crate::summarize::summ_model;
use crate::table::count_key;
use crate::table::lookup;
use crate::types::Entry;
use crate::types::FileDigest;
use crate::types::ProviderOutcome;
use crate::types::UnsummarizedFile;

verus! {

/// Idempotent no-op: when every file entry of a snapshot has a digest record
/// whose modification time matches the entry's — as a completed run leaves
/// them — a full scan selects nothing, so it queues nothing, emits no batch
/// and leaves the backlog as it was.
pub proof fn lemma_idempotent_rescan(s: Store, entries: Seq<Entry>)
    requires
        forall|i: int|
            0 <= i < entries.len() && entries[i].is_file ==> (#[trigger] s.digest_record(
                db_key(entries[i].path@),
            )) is Some && s.digest_record(db_key(entries[i].path@)).unwrap().mtime
                == entries[i].mtime,
    ensures
        selected_of(s, entries).len() == 0,
    decreases entries.len(),
{
    if entries.len() > 0 {
        assert(forall|i: int|
            0 <= i < entries.drop_last().len() ==> entries.drop_last()[i] == entries[i]);
        lemma_idempotent_rescan(s, entries.drop_last());
        let e = entries.last();
        assert(e == entries[entries.len() - 1]);
        if e.is_file {
            assert(s.digest_record(db_key(e.path@)) is Some);
            assert(!entry_selected(s, e));
        }
    }
}

/// Dedup invariant: two distinct paths with byte-identical contents share
/// one digest, make exactly one provider call between them, and — once the
/// summarizer's output is persisted — both digest records reference that
/// digest while the summary table holds exactly one record for it.
pub proof fn lemma_dedup_two_paths(
    f1: UnsummarizedFile,
    f2: UnsummarizedFile,
    t: String,
    s: Store,
    s2: Store,
)
    requires
        f1.contents@ == f2.contents@,
        f1.digest@ == content_digest_of(f1.contents@),
        f2.digest@ == content_digest_of(f2.contents@),
        f1.path@ != f2.path@,
        !f1.path@.contains('\0'),
        !f2.path@.contains('\0'),
        t@.len() > 0,
        s.wf(),
        s2.wf(),
        forall|k: Seq<char>|
            s2.digest_record(k) == merged(
                s.digest_record(k),
                last_digest_for(summ_model(seq![f1, f2], seq![ProviderOutcome::Success(t)]).0, k),
            ),
        forall|d: Seq<char>|
            s2.summary_record(d) == merged(
                s.summary_record(d),
                last_summary_for(summ_model(seq![f1, f2], seq![ProviderOutcome::Success(t)]).0, d),
            ),
    ensures
        f1.digest@ == f2.digest@,
        summ_model(seq![f1, f2], seq![ProviderOutcome::Success(t)]).1 == 1,
        summ_model(seq![f1, f2], seq![ProviderOutcome::Success(t)]).0.len() == 2,
        s2.digest_record(db_key(f1.path@)) == Some(
            FileDigest { mtime: f1.mtime, digest: f1.digest },
        ),
        s2.digest_record(db_key(f2.path@)) == Some(
            FileDigest { mtime: f2.mtime, digest: f2.digest },
        ),
        s2.summary_record(f1.digest@) == Some(t),
        count_key(s2.summary_table(), f1.digest@) == 1,
{
    let files = seq![f1, f2];
    let outs = seq![ProviderOutcome::Success(t)];
    assert(files.drop_last() =~= seq![f1]);
    assert(seq![f1].drop_last() =~= Seq::<UnsummarizedFile>::empty());
    let base = summ_model(Seq::empty(), outs);
    assert(base.0 =~= Seq::<crate::types::SummarizedFile>::empty());
    assert(base.2 =~= Seq::<(String, String)>::empty());
    let step1 = summ_model(seq![f1], outs);
    assert(lookup(base.2, f1.digest@) is None);
    assert(outs[0] == ProviderOutcome::Success(t));
    let s1 = crate::types::SummarizedFile {
        path: f1.path,
        mtime: f1.mtime,
        digest: f1.digest,
        summary: t,
    };
    assert(step1.0 == base.0.push(s1));
    assert(step1.1 == 1);
    assert(step1.2 == base.2.push((f1.digest, t)));
    let step2 = summ_model(files, outs);
    assert(step1.2[0] == (f1.digest, t));
    assert(step1.2[0].0@ == f2.digest@);
    assert(lookup(step1.2, f2.digest@) == Some(t));
    let s2f = crate::types::SummarizedFile {
        path: f2.path,
        mtime: f2.mtime,
        digest: f2.digest,
        summary: t,
    };
    assert(step2.0 == step1.0.push(s2f));
    assert(step2.1 == 1);
    let out = step2.0;
    assert(out.len() == 2);
    assert(out.last() == s2f);
    assert(out.drop_last() =~= seq![s1]);
    assert(seq![s1].last() == s1);
    assert(seq![s1].drop_last() =~= Seq::<crate::types::SummarizedFile>::empty());
    // digest record for f2's path: the last batch element carries it
    assert(last_digest_for(out, db_key(f2.path@)) == Some(
        FileDigest { mtime: f2.mtime, digest: f2.digest },
    ));
    // digest record for f1's path: keys differ, so the first element carries it
    assert(db_key(f1.path@) != db_key(f2.path@)) by {
        if db_key(f1.path@) == db_key(f2.path@) {
            lemma_db_key_injective(f1.path@, f2.path@);
        }
    }
    assert(out.last().path@ == f2.path@);
    assert(last_digest_for(out, db_key(f1.path@)) == last_digest_for(
        out.drop_last(),
        db_key(f1.path@),
    ));
    assert(last_digest_for(seq![s1], db_key(f1.path@)) == Some(
        FileDigest { mtime: s1.mtime, digest: s1.digest },
    ));
    assert(last_digest_for(out, db_key(f1.path@)) == Some(
        FileDigest { mtime: f1.mtime, digest: f1.digest },
    ));
    assert(last_summary_for(out, f1.digest@) == Some(t));
    s2.lemma_one_summary_per_digest(f1.digest@);
}

/// A batch that leaves a digest record for some key also leaves a summary
/// record for that record's digest.
proof fn lemma_batch_digest_has_summary(batch: Seq<crate::types::SummarizedFile>, k: Seq<char>)
    requires
        last_digest_for(batch, k) is Some,
    ensures
        last_summary_for(batch, last_digest_for(batch, k).unwrap().digest@) is Some,
    decreases batch.len(),
{
    let rec = last_digest_for(batch, k).unwrap();
    if db_key(batch.last().path@) == k {
        assert(rec.digest == batch.last().digest);
        assert(last_summary_for(batch, rec.digest@) is Some);
    } else {
        lemma_batch_digest_has_summary(batch.drop_last(), k);
        let d = last_digest_for(batch.drop_last(), k).unwrap().digest@;
        if batch.last().digest@ == d {
            assert(last_summary_for(batch, d) is Some);
        } else {
            assert(last_summary_for(batch, d) == last_summary_for(batch.drop_last(), d));
        }
    }
}

/// Ordering guarantee: within one persisted batch a path's digest record and
/// its content's summary record are written together, so a reader never
/// observes an updated digest record without the corresponding summary.
pub proof fn lemma_no_digest_without_summary(s: Store, s2: Store, batch: Seq<crate::types::SummarizedFile>)
    requires
        forall|k: Seq<char>|
            s2.digest_record(k) == merged(s.digest_record(k), last_digest_for(batch, k)),
        forall|d: Seq<char>|
            s2.summary_record(d) == merged(s.summary_record(d), last_summary_for(batch, d)),
    ensures
        forall|k: Seq<char>|
            s2.digest_record(k) != s.digest_record(k) ==> (#[trigger] s2.digest_record(
                k,
            )) is Some && s2.summary_record(s2.digest_record(k).unwrap().digest@) is Some,
{
    assert forall|k: Seq<char>|
        s2.digest_record(k) != s.digest_record(k) implies (#[trigger] s2.digest_record(
        k,
    )) is Some && s2.summary_record(s2.digest_record(k).unwrap().digest@) is Some by {
        assert(last_digest_for(batch, k) is Some);
        lemma_batch_digest_has_summary(batch, k);
    }
}

/// Retry on failure: a failed (or empty) provider answer emits nothing, so
/// persisting the run's output writes no record for the file, and a later
/// scan still selects exactly the entries it would have selected before.
pub proof fn lemma_retry_on_failure(f: UnsummarizedFile, o: ProviderOutcome, s: Store, s2: Store)
    requires
        outcome_text(o).len() == 0,
        forall|k: Seq<char>|
            s2.digest_record(k) == merged(
                s.digest_record(k),
                last_digest_for(summ_model(seq![f], seq![o]).0, k),
            ),
        forall|d: Seq<char>|
            s2.summary_record(d) == merged(
                s.summary_record(d),
                last_summary_for(summ_model(seq![f], seq![o]).0, d),
            ),
    ensures
        summ_model(seq![f], seq![o]).0.len() == 0,
        forall|k: Seq<char>| s2.digest_record(k) == s.digest_record(k),
        forall|d: Seq<char>| s2.summary_record(d) == s.summary_record(d),
        forall|e: Entry| #[trigger] entry_selected(s2, e) == entry_selected(s, e),
{
    let files = seq![f];
    let outs = seq![o];
    assert(files.drop_last() =~= Seq::<UnsummarizedFile>::empty());
    let base = summ_model(Seq::empty(), outs);
    assert(base.0 =~= Seq::<crate::types::SummarizedFile>::empty());
    assert(base.2 =~= Seq::<(String, String)>::empty());
    assert(lookup(base.2, f.digest@) is None);
    let step = summ_model(files, outs);
    assert(outs[0] == o);
    match o {
        ProviderOutcome::Success(t) => {
            assert(t@.len() == 0);
            assert(step.0 == base.0);
        },
        ProviderOutcome::Failure => {
            assert(step.0 == base.0);
        },
    }
    assert(step.0.len() == 0);
    assert forall|k: Seq<char>| s2.digest_record(k) == s.digest_record(k) by {
        assert(last_digest_for(step.0, k) is None);
    }
    assert forall|d: Seq<char>| s2.summary_record(d) == s.summary_record(d) by {
        assert(last_summary_for(step.0, d) is None);
    }
    assert forall|e: Entry| #[trigger] entry_selected(s2, e) == entry_selected(s, e) by {
        assert(s2.digest_record(db_key(e.path@)) == s.digest_record(db_key(e.path@)));
    }
}

} // verus!
