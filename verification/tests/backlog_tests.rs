use summary_index::backlog::SummaryBacklog;
use summary_index::persist::Persister;
use summary_index::types::SummarizedFile;

#[test]
fn threshold_triggered_drain() {
    // count threshold 3: the backlog calls for a drain once a fourth entry
    // crosses it, and the drain yields all four entries
    let mut backlog = SummaryBacklog::new(3, 1_000_000);
    backlog.insert("a".to_string(), 1, Some(1));
    assert!(!backlog.needs_drain());
    backlog.insert("b".to_string(), 1, Some(2));
    assert!(!backlog.needs_drain());
    backlog.insert("c".to_string(), 1, Some(3));
    assert!(!backlog.needs_drain());
    backlog.insert("d".to_string(), 1, Some(4));
    assert!(backlog.needs_drain());
    let drained = backlog.drain();
    assert_eq!(drained.len(), 4);
    assert_eq!(drained[0], ("a".to_string(), Some(1)));
    assert_eq!(drained[3], ("d".to_string(), Some(4)));
    assert!(!backlog.needs_drain());
    let empty = backlog.drain();
    assert_eq!(empty.len(), 0);
}

#[test]
fn size_triggered_drain() {
    let mut backlog = SummaryBacklog::new(100, 10);
    backlog.insert("a".to_string(), 6, None);
    assert!(!backlog.needs_drain());
    backlog.insert("b".to_string(), 5, None);
    assert!(backlog.needs_drain());
}

#[test]
fn insert_overwrites_same_path() {
    let mut backlog = SummaryBacklog::new(100, 1_000);
    backlog.insert("a".to_string(), 1, Some(1));
    backlog.insert("a".to_string(), 2, Some(9));
    let drained = backlog.drain();
    assert_eq!(drained.len(), 1);
    assert_eq!(drained[0], ("a".to_string(), Some(9)));
}

fn summarized(name: &str) -> SummarizedFile {
    SummarizedFile {
        path: name.to_string(),
        mtime: Some(1),
        digest: "d".repeat(64),
        summary: "s".to_string(),
    }
}

#[test]
fn count_triggered_flush() {
    let mut p = Persister::new(2, 100);
    assert!(p.push(summarized("a"), 10).is_none());
    let batch = p.push(summarized("b"), 11).expect("count threshold reached");
    assert_eq!(batch.len(), 2);
    assert_eq!(batch[0].path, "a");
    assert_eq!(batch[1].path, "b");
    assert!(p.poll(1_000).is_none());
}

#[test]
fn time_triggered_flush() {
    // fewer files than the count threshold, but the window elapses
    let mut p = Persister::new(100, 50);
    assert!(p.push(summarized("a"), 10).is_none());
    assert!(p.push(summarized("b"), 20).is_none());
    assert!(p.poll(59).is_none());
    let batch = p.poll(60).expect("window elapsed since first pending file");
    assert_eq!(batch.len(), 2);
    assert_eq!(batch[0].path, "a");
    assert_eq!(batch[1].path, "b");
    assert!(p.poll(1_000).is_none());
}

#[test]
fn finish_flushes_remainder() {
    let mut p = Persister::new(100, 50);
    assert!(p.push(summarized("a"), 10).is_none());
    let batch = p.finish();
    assert_eq!(batch.len(), 1);
    assert_eq!(batch[0].path, "a");
    assert_eq!(p.finish().len(), 0);
}
