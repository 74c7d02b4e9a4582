use summary_index::store::Store;
use summary_index::types::FileDigest;

fn digest64(c: char) -> String {
    let mut s = String::new();
    for _ in 0..64 {
        s.push(c);
    }
    s
}

#[test]
fn commit_applies_whole_batch() {
    let mut store = Store::new();
    let mut txn = store.begin_write();
    txn.put_digest(
        "a.txt".to_string(),
        FileDigest { mtime: Some(10), digest: digest64('a') },
    );
    txn.put_summary(digest64('a'), "summary of a".to_string());
    store.commit(txn);
    let rec = store.get_digest(&"a.txt".to_string()).expect("record");
    assert_eq!(rec.mtime, Some(10));
    assert_eq!(rec.digest, digest64('a'));
    let s = store.get_summary(&digest64('a')).expect("summary");
    assert_eq!(s, "summary of a");
}

#[test]
fn aborted_transaction_leaves_no_trace() {
    let mut store = Store::new();
    let mut txn = store.begin_write();
    txn.put_digest(
        "a.txt".to_string(),
        FileDigest { mtime: Some(10), digest: digest64('a') },
    );
    // a crash between the two writes of one transaction: the second write
    // never happens and the transaction never commits
    txn.abort();
    assert!(store.get_digest(&"a.txt".to_string()).is_none());
    assert!(store.get_summary(&digest64('a')).is_none());
    assert_eq!(store.digest_pairs().len(), 0);
    assert_eq!(store.summary_pairs().len(), 0);
    let mut txn2 = store.begin_write();
    txn2.put_digest(
        "b.txt".to_string(),
        FileDigest { mtime: None, digest: digest64('b') },
    );
    txn2.put_summary(digest64('b'), "b summary".to_string());
    txn2.abort();
    assert_eq!(store.digest_pairs().len(), 0);
    assert_eq!(store.summary_pairs().len(), 0);
}

#[test]
fn last_put_wins_within_batch() {
    let mut store = Store::new();
    let mut txn = store.begin_write();
    txn.put_digest(
        "a.txt".to_string(),
        FileDigest { mtime: Some(1), digest: digest64('a') },
    );
    txn.put_digest(
        "a.txt".to_string(),
        FileDigest { mtime: Some(2), digest: digest64('c') },
    );
    store.commit(txn);
    assert_eq!(store.digest_pairs().len(), 1);
    let rec = store.get_digest(&"a.txt".to_string()).expect("record");
    assert_eq!(rec.mtime, Some(2));
    assert_eq!(rec.digest, digest64('c'));
}

#[test]
fn removal_keeps_shared_summary_and_collects_orphan() {
    let mut store = Store::new();
    let mut txn = store.begin_write();
    txn.put_digest(
        "a.txt".to_string(),
        FileDigest { mtime: Some(1), digest: digest64('d') },
    );
    txn.put_digest(
        "b.txt".to_string(),
        FileDigest { mtime: Some(2), digest: digest64('d') },
    );
    txn.put_summary(digest64('d'), "shared".to_string());
    store.commit(txn);

    // another path still references the digest: the summary stays
    store.remove_path_record(&"a.txt".to_string());
    assert!(store.get_digest(&"a.txt".to_string()).is_none());
    assert_eq!(store.get_summary(&digest64('d')).expect("kept"), "shared");

    // the last reference goes: the orphaned summary is collected
    store.remove_path_record(&"b.txt".to_string());
    assert!(store.get_digest(&"b.txt".to_string()).is_none());
    assert!(store.get_summary(&digest64('d')).is_none());
}

#[test]
fn removing_unknown_path_changes_nothing() {
    let mut store = Store::new();
    let mut txn = store.begin_write();
    txn.put_digest(
        "a.txt".to_string(),
        FileDigest { mtime: Some(1), digest: digest64('a') },
    );
    txn.put_summary(digest64('a'), "a".to_string());
    store.commit(txn);
    store.remove_path_record(&"missing.txt".to_string());
    assert_eq!(store.digest_pairs().len(), 1);
    assert_eq!(store.summary_pairs().len(), 1);
}
