use icebucket::logger::{Log, LogEntry};

fn entry_at(path: &str, total: u64, updated_at: u64) -> LogEntry {
    LogEntry {
        file_path: path.to_string(),
        destination_service: "bucket".to_string(),
        destination_bucket: "key".to_string(),
        completed_bytes: 0,
        total_bytes: total,
        completed: false,
        updated_at,
    }
}

#[test]
fn new_entry_starts_incomplete() {
    let e = LogEntry::new(
        "w/a.txt".to_string(),
        "bucket".to_string(),
        "a.txt".to_string(),
        10,
    );
    assert_eq!(e.file_path, "w/a.txt");
    assert_eq!(e.destination_service, "bucket");
    assert_eq!(e.destination_bucket, "a.txt");
    assert_eq!(e.completed_bytes, 0);
    assert_eq!(e.total_bytes, 10);
    assert!(!e.completed);
}

#[test]
fn update_entry_marks_first_match_completed() {
    let mut log = Log::new();
    log.add_entry(entry_at("w/a.txt", 10, 1));
    log.add_entry(entry_at("w/b.txt", 20, 2));
    log.update_entry("w/a.txt", 10);
    assert_eq!(log.entries[0].completed_bytes, 10);
    assert!(log.entries[0].completed);
    assert_eq!(log.entries[1].completed_bytes, 0);
    assert!(!log.entries[1].completed);
}

#[test]
fn update_entry_without_match_changes_nothing() {
    let mut log = Log::new();
    log.add_entry(entry_at("w/a.txt", 10, 1));
    log.update_entry("w/missing.txt", 10);
    assert_eq!(log.entries.len(), 1);
    assert_eq!(log.entries[0].completed_bytes, 0);
    assert!(!log.entries[0].completed);
}

#[test]
fn increment_progress_adds_bytes_only() {
    let mut log = Log::new();
    log.add_entry(entry_at("w/big.bin", 12582912, 7));
    log.increment_progress("w/big.bin", 5242880);
    assert_eq!(log.entries[0].completed_bytes, 5242880);
    assert!(!log.entries[0].completed);
    assert_eq!(log.entries[0].updated_at, 7);
    log.increment_progress("w/big.bin", 5242880);
    assert_eq!(log.entries[0].completed_bytes, 10485760);
    log.increment_progress("w/big.bin", 2097152);
    assert_eq!(log.entries[0].completed_bytes, 12582912);
}

#[test]
fn rolling_window_keeps_four_most_recent_in_order() {
    let mut log = Log::new();
    log.add_entry(entry_at("one", 1, 10));
    log.add_entry(entry_at("two", 1, 50));
    log.add_entry(entry_at("three", 1, 30));
    log.add_entry(entry_at("four", 1, 20));
    log.add_entry(entry_at("five", 1, 40));
    log.add_entry(entry_at("six", 1, 60));
    let w = log.rolling_window();
    assert_eq!(w.len(), 4);
    let paths: Vec<&str> = w.iter().map(|e| e.file_path.as_str()).collect();
    assert_eq!(paths, vec!["six", "two", "five", "three"]);
    let times: Vec<u64> = w.iter().map(|e| e.updated_at).collect();
    assert_eq!(times, vec![60, 50, 40, 30]);
}

#[test]
fn rolling_window_of_small_log_is_whole_log() {
    let mut log = Log::new();
    log.add_entry(entry_at("one", 1, 10));
    log.add_entry(entry_at("two", 1, 5));
    let w = log.rolling_window();
    assert_eq!(w.len(), 2);
    assert_eq!(w[0].file_path, "one");
    assert_eq!(w[1].file_path, "two");
}

#[test]
fn sorted_by_recency_desc_orders_whole_log() {
    let mut log = Log::new();
    log.add_entry(entry_at("a", 1, 3));
    log.add_entry(entry_at("b", 1, 9));
    log.add_entry(entry_at("c", 1, 6));
    let s = log.sorted_by_recency_desc();
    let times: Vec<u64> = s.iter().map(|e| e.updated_at).collect();
    assert_eq!(times, vec![9, 6, 3]);
}
