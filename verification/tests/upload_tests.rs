use icebucket::logger::{Log, LogEntry};
use icebucket::upload::{
    part_count, record_session_completed, ChunkedUpload, UploadError, UploadPhase, PART_SIZE,
};

const MIB: u64 = 1024 * 1024;

#[test]
fn part_count_is_ceiling_division() {
    assert_eq!(part_count(0), 0);
    assert_eq!(part_count(1), 1);
    assert_eq!(part_count(10), 1);
    assert_eq!(part_count(PART_SIZE), 1);
    assert_eq!(part_count(PART_SIZE + 1), 2);
    assert_eq!(part_count(12 * MIB), 3);
    assert_eq!(part_count(10 * MIB), 2);
}

#[test]
fn chunked_session_uploads_twelve_mib_in_three_parts() {
    let mut s = ChunkedUpload::new("upload-1".to_string(), 12 * MIB);
    assert_eq!(s.phase, UploadPhase::Uploading);
    assert_eq!(s.completed_bytes, 0);

    assert_eq!(s.next_part_number(), 1);
    assert_eq!(s.next_part_len(), 5 * MIB);
    assert_eq!(s.record_part("e1".to_string(), 5 * MIB), Ok(()));
    assert_eq!(s.completed_bytes, 5242880);

    assert_eq!(s.next_part_number(), 2);
    assert_eq!(s.next_part_len(), 5 * MIB);
    assert_eq!(s.record_part("e2".to_string(), 5 * MIB), Ok(()));
    assert_eq!(s.completed_bytes, 10485760);

    assert_eq!(s.next_part_number(), 3);
    assert_eq!(s.next_part_len(), 2 * MIB);
    assert_eq!(s.record_part("e3".to_string(), 2 * MIB), Ok(()));
    assert_eq!(s.completed_bytes, 12582912);
    assert_eq!(s.phase, UploadPhase::Finalizing);

    let numbers: Vec<u64> = s.parts.iter().map(|p| p.part_number).collect();
    assert_eq!(numbers, vec![1, 2, 3]);
    let tags: Vec<&str> = s.parts.iter().map(|p| p.etag.as_str()).collect();
    assert_eq!(tags, vec!["e1", "e2", "e3"]);

    s.mark_completed();
    assert_eq!(s.phase, UploadPhase::Completed);
    assert_eq!(s.completed_bytes, s.total_bytes);
}

#[test]
fn exact_multiple_has_full_final_part() {
    let mut s = ChunkedUpload::new("upload-2".to_string(), 10 * MIB);
    assert_eq!(s.record_part("e1".to_string(), 5 * MIB), Ok(()));
    assert_eq!(s.next_part_len(), 5 * MIB);
    assert_eq!(s.record_part("e2".to_string(), 5 * MIB), Ok(()));
    assert_eq!(s.phase, UploadPhase::Finalizing);
    assert_eq!(s.completed_bytes, 10 * MIB);
}

#[test]
fn undersized_part_aborts_the_session() {
    let mut s = ChunkedUpload::new("upload-3".to_string(), 12 * MIB);
    let r = s.record_part("e1".to_string(), 100);
    assert_eq!(r, Err(UploadError::PartSizeMismatch));
    assert_eq!(s.phase, UploadPhase::Aborted);
    assert!(s.parts.is_empty());
    assert_eq!(s.completed_bytes, 0);
}

#[test]
fn abort_is_reachable_while_uploading() {
    let mut s = ChunkedUpload::new("upload-4".to_string(), 12 * MIB);
    assert_eq!(s.record_part("e1".to_string(), 5 * MIB), Ok(()));
    s.mark_aborted();
    assert_eq!(s.phase, UploadPhase::Aborted);
    assert_eq!(s.completed_bytes, 5 * MIB);
}

#[test]
fn completed_session_completes_the_record() {
    let mut log = Log::new();
    log.add_entry(LogEntry::new(
        "w/big.bin".to_string(),
        "bucket".to_string(),
        "big.bin".to_string(),
        12 * MIB,
    ));
    let mut s = ChunkedUpload::new("upload-5".to_string(), 12 * MIB);
    assert_eq!(s.record_part("e1".to_string(), 5 * MIB), Ok(()));
    assert_eq!(s.record_part("e2".to_string(), 5 * MIB), Ok(()));
    assert_eq!(s.record_part("e3".to_string(), 2 * MIB), Ok(()));
    s.mark_completed();
    record_session_completed(&mut log, &s, "w/big.bin");
    assert_eq!(log.entries[0].completed_bytes, 12 * MIB);
    assert!(log.entries[0].completed);
}
