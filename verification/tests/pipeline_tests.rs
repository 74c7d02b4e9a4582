use summary_index::digest::digest_file;
use summary_index::index::SummaryIndex;
use summary_index::pathkey::db_key_for_path;
use summary_index::store::Store;
use summary_index::summarize::build_prompt;
use summary_index::summarize::resolve_model;
use summary_index::summarize::summarize_files;
use summary_index::summarize::Summarizer;
use summary_index::summarize::summary_for_outcome;
use summary_index::types::Entry;
use summary_index::types::FileSummary;
use summary_index::types::ProviderOutcome;
use summary_index::types::PathChange;
use summary_index::types::Snapshot;
use summary_index::types::SummaryError;
use summary_index::types::UnsummarizedFile;
use summary_index::types::UpdatedEntry;

fn entry(path: &str, id: u64, mtime: u64) -> Entry {
    Entry { path: path.to_string(), entry_id: id, size: 5, mtime: Some(mtime), is_file: true }
}

fn models() -> Vec<String> {
    vec!["gpt-4o-mini".to_string()]
}

fn wanted() -> String {
    "gpt-4o-mini".to_string()
}

#[test]
fn db_key_replaces_separators_with_null_bytes() {
    assert_eq!(db_key_for_path("a/b/c.txt"), "a\0b\0c.txt");
    assert_eq!(db_key_for_path("plain.txt"), "plain.txt");
    assert_eq!(db_key_for_path(""), "");
}

#[test]
fn digest_matches_hash_of_contents() {
    let f = digest_file("a.txt".to_string(), Some(1), Some("hello".to_string()))
        .expect("loaded file is digested");
    assert_eq!(f.digest.len(), 64);
    assert_eq!(f.digest, blake3::hash("hello".as_bytes()).to_hex().as_str());
    assert_eq!(f.contents, "hello");
    // a failed read drops the file
    assert!(digest_file("a.txt".to_string(), Some(1), None).is_none());
    // byte-identical contents under different paths share the digest
    let g = digest_file("b.txt".to_string(), Some(2), Some("hello".to_string())).unwrap();
    assert_eq!(f.digest, g.digest);
}

#[test]
fn prompt_is_instruction_newline_contents() {
    let p = build_prompt("fn main() {}");
    assert_eq!(
        p,
        "Summarize this code in 3 sentences, using no newlines or bullet points in the summary:\nfn main() {}"
    );
}

#[test]
fn model_resolution_error() {
    assert_eq!(resolve_model(&models(), &wanted()), Ok(0));
    assert_eq!(
        resolve_model(&models(), &"other-model".to_string()),
        Err(SummaryError::NoModel)
    );
    assert_eq!(resolve_model(&Vec::new(), &wanted()), Err(SummaryError::NoModel));
}

#[test]
fn outcome_text_soft_fails_to_empty() {
    assert_eq!(summary_for_outcome(ProviderOutcome::Success("ok".to_string())), "ok");
    assert_eq!(summary_for_outcome(ProviderOutcome::Failure), "");
}

fn unsummarized(path: &str, contents: &str) -> UnsummarizedFile {
    digest_file(path.to_string(), Some(1), Some(contents.to_string())).unwrap()
}

#[test]
fn summarizer_memoizes_duplicate_digests() {
    // two distinct paths, byte-identical contents: one provider call
    let files = vec![unsummarized("a.txt", "same"), unsummarized("b.txt", "same")];
    let outcomes = vec![ProviderOutcome::Success("the summary".to_string())];
    let (out, calls) = summarize_files(&files, &outcomes);
    assert_eq!(calls, 1);
    assert_eq!(out.len(), 2);
    assert_eq!(out[0].path, "a.txt");
    assert_eq!(out[1].path, "b.txt");
    assert_eq!(out[0].summary, "the summary");
    assert_eq!(out[1].summary, "the summary");
    assert_eq!(out[0].digest, out[1].digest);
}

#[test]
fn summarizer_steps_memoize_and_soft_fail() {
    let mut st = Summarizer::new();
    let a = unsummarized("a.txt", "same");
    let b = unsummarized("b.txt", "same");
    let c = unsummarized("c.txt", "other");
    assert!(st.needs_call(&a));
    let r1 = st.step(&a, Some(ProviderOutcome::Success("the summary".to_string())));
    assert_eq!(r1.unwrap().summary, "the summary");
    // same digest: no further call is needed, the memoized summary is reused
    assert!(!st.needs_call(&b));
    let r2 = st.step(&b, None).unwrap();
    assert_eq!(r2.path, "b.txt");
    assert_eq!(r2.summary, "the summary");
    // a failed call drops the file and memoizes nothing
    assert!(st.needs_call(&c));
    assert!(st.step(&c, Some(ProviderOutcome::Failure)).is_none());
    assert!(st.needs_call(&c));
}

#[test]
fn summarizer_drops_failures_and_empty_answers() {
    let files = vec![unsummarized("a.txt", "one"), unsummarized("b.txt", "two")];
    let outcomes = vec![ProviderOutcome::Failure, ProviderOutcome::Success(String::new())];
    let (out, calls) = summarize_files(&files, &outcomes);
    assert_eq!(calls, 2);
    assert_eq!(out.len(), 0);
}

#[test]
fn full_run_persists_and_second_scan_is_noop() {
    // the concrete scenario: a.txt with contents "hello", first run writes
    // both records, a second run with unchanged mtime selects nothing
    let mut idx = SummaryIndex::new(Store::new(), 0, 1_000_000);
    let snapshot = Snapshot { entries: vec![entry("a.txt", 1, 100)] };
    let disk = vec![("a.txt".to_string(), Some("hello".to_string()))];
    let outcomes = vec![ProviderOutcome::Success("a fine summary".to_string())];
    let d = blake3::hash("hello".as_bytes()).to_hex().as_str().to_string();

    let r = idx.index_entries_changed_on_disk(&snapshot, &disk, &models(), &wanted(), &outcomes);
    assert_eq!(r, Ok(()));
    assert_eq!(idx.file_digest_db().len(), 1);
    assert_eq!(idx.file_digest_db()[0].0, "a.txt");
    assert_eq!(idx.file_digest_db()[0].1.mtime, Some(100));
    assert_eq!(idx.file_digest_db()[0].1.digest, d);
    assert_eq!(idx.summary_db().len(), 1);
    assert_eq!(idx.summary_db()[0].0, d);
    assert_eq!(idx.summary_db()[0].1, "a fine summary");

    // idempotent no-op: the rescan queues nothing and emits no batch
    let batches = idx.scan_entries(&snapshot);
    assert_eq!(batches.len(), 0);

    // and a whole second run changes nothing
    let r2 = idx.index_entries_changed_on_disk(&snapshot, &disk, &models(), &wanted(), &Vec::new());
    assert_eq!(r2, Ok(()));
    assert_eq!(idx.file_digest_db().len(), 1);
    assert_eq!(idx.summary_db().len(), 1);
}

#[test]
fn dedup_two_paths_one_summary_record() {
    let mut idx = SummaryIndex::new(Store::new(), 0, 1_000_000);
    let snapshot = Snapshot { entries: vec![entry("a.txt", 1, 100), entry("b.txt", 2, 200)] };
    let disk = vec![
        ("a.txt".to_string(), Some("same contents".to_string())),
        ("b.txt".to_string(), Some("same contents".to_string())),
    ];
    // a single outcome: the one call the run is allowed to make
    let outcomes = vec![ProviderOutcome::Success("shared summary".to_string())];
    let r = idx.index_entries_changed_on_disk(&snapshot, &disk, &models(), &wanted(), &outcomes);
    assert_eq!(r, Ok(()));
    let d = blake3::hash("same contents".as_bytes()).to_hex().as_str().to_string();
    // both paths' records reference the same digest
    assert_eq!(idx.file_digest_db().len(), 2);
    assert_eq!(idx.file_digest_db()[0].1.digest, d);
    assert_eq!(idx.file_digest_db()[1].1.digest, d);
    // and only one summary record exists for it
    assert_eq!(idx.summary_db().len(), 1);
    assert_eq!(idx.summary_db()[0].0, d);
    assert_eq!(idx.summary_db()[0].1, "shared summary");
}

#[test]
fn provider_failure_leaves_no_record_and_is_retried() {
    let mut idx = SummaryIndex::new(Store::new(), 0, 1_000_000);
    let snapshot = Snapshot { entries: vec![entry("a.txt", 1, 100)] };
    let disk = vec![("a.txt".to_string(), Some("hello".to_string()))];
    let r = idx.index_entries_changed_on_disk(
        &snapshot,
        &disk,
        &models(),
        &wanted(),
        &vec![ProviderOutcome::Failure],
    );
    assert_eq!(r, Ok(()));
    assert_eq!(idx.file_digest_db().len(), 0);
    assert_eq!(idx.summary_db().len(), 0);
    // the next scan selects the same file again (same digest, same mtime)
    let batches = idx.scan_entries(&snapshot);
    assert_eq!(batches.len(), 1);
    assert_eq!(batches[0], vec![("a.txt".to_string(), Some(100))]);
}

#[test]
fn missing_model_is_fatal_and_touches_nothing() {
    let mut idx = SummaryIndex::new(Store::new(), 0, 1_000_000);
    let snapshot = Snapshot { entries: vec![entry("a.txt", 1, 100)] };
    let disk = vec![("a.txt".to_string(), Some("hello".to_string()))];
    let r = idx.index_entries_changed_on_disk(
        &snapshot,
        &disk,
        &Vec::new(),
        &wanted(),
        &vec![ProviderOutcome::Success("s".to_string())],
    );
    assert_eq!(r, Err(SummaryError::NoModel));
    assert_eq!(idx.file_digest_db().len(), 0);
    assert_eq!(idx.summary_db().len(), 0);
}

#[test]
fn unreadable_file_is_skipped_and_retried() {
    let mut idx = SummaryIndex::new(Store::new(), 0, 1_000_000);
    let snapshot = Snapshot { entries: vec![entry("a.txt", 1, 100)] };
    // the read fails: the file is dropped for this run
    let disk = vec![("a.txt".to_string(), None)];
    let r = idx.index_entries_changed_on_disk(
        &snapshot,
        &disk,
        &models(),
        &wanted(),
        &vec![ProviderOutcome::Success("s".to_string())],
    );
    assert_eq!(r, Ok(()));
    assert_eq!(idx.file_digest_db().len(), 0);
    let batches = idx.scan_entries(&snapshot);
    assert_eq!(batches.len(), 1);
}

#[test]
fn delta_scan_updates_and_removes() {
    let mut idx = SummaryIndex::new(Store::new(), 0, 1_000_000);
    let snapshot = Snapshot { entries: vec![entry("a.txt", 1, 100), entry("b.txt", 2, 200)] };
    let disk = vec![
        ("a.txt".to_string(), Some("aaa".to_string())),
        ("b.txt".to_string(), Some("bbb".to_string())),
    ];
    let updated = vec![
        UpdatedEntry { path: "a.txt".to_string(), entry_id: 1, change: PathChange::Added },
        UpdatedEntry { path: "b.txt".to_string(), entry_id: 2, change: PathChange::Updated },
    ];
    let outcomes = vec![
        ProviderOutcome::Success("summary a".to_string()),
        ProviderOutcome::Success("summary b".to_string()),
    ];
    let r = idx.index_updated_entries(&snapshot, &updated, &disk, &models(), &wanted(), &outcomes);
    assert_eq!(r, Ok(()));
    assert_eq!(idx.file_digest_db().len(), 2);
    assert_eq!(idx.summary_db().len(), 2);

    // removing one path tombstones its record and collects its orphaned summary
    let removal = vec![UpdatedEntry {
        path: "a.txt".to_string(),
        entry_id: 1,
        change: PathChange::Removed,
    }];
    let r2 = idx.index_updated_entries(&snapshot, &removal, &disk, &models(), &wanted(), &Vec::new());
    assert_eq!(r2, Ok(()));
    assert_eq!(idx.file_digest_db().len(), 1);
    assert_eq!(idx.file_digest_db()[0].0, "b.txt");
    assert_eq!(idx.summary_db().len(), 1);
    let db = blake3::hash("bbb".as_bytes()).to_hex().as_str().to_string();
    assert_eq!(idx.summary_db()[0].0, db);
}

#[test]
fn file_summary_pairs_name_and_text() {
    let fs = FileSummary { filename: "a.txt".to_string(), summary: "about a".to_string() };
    assert_eq!(fs.filename, "a.txt");
    assert_eq!(fs.summary, "about a");
}
