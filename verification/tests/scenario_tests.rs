//! One full synchronization cycle, wired as the runtime wires it, with the
//! backend simulated: a small text file goes up in one request, a 12 MiB
//! binary goes up chunked, and a second cycle over the unchanged directory
//! issues no upload at all.

use icebucket::cycle::{plan_uploads, remote_key_for, UploadCandidate, UploadMethod};
use icebucket::logger::{Log, LogEntry};
use icebucket::remote::key_exists_in_listing;
use icebucket::scan::{FileManifest, FileObservation};
use icebucket::upload::{record_session_completed, ChunkedUpload, UploadPhase};

const MIB: u64 = 1024 * 1024;

fn size_of(path: &str) -> u64 {
    match path {
        "w/a.txt" => 10,
        "w/big.bin" => 12 * MIB,
        _ => panic!("unexpected path"),
    }
}

#[test]
fn first_cycle_uploads_second_cycle_is_quiet() {
    let mut manifest = FileManifest::new();
    let mut log = Log::new();
    let remote_keys: Vec<String> = vec![];

    // First cycle: both files are new and absent remotely.
    let listing = vec![
        FileObservation { path: "w/a.txt".to_string(), mtime: 100 },
        FileObservation { path: "w/big.bin".to_string(), mtime: 100 },
    ];
    let delta = manifest.scan(&listing);
    assert_eq!(delta.to_sync, vec!["w/a.txt".to_string(), "w/big.bin".to_string()]);

    let mut candidates = Vec::new();
    for path in &delta.to_sync {
        let key = remote_key_for(path, "w").expect("path under the watched directory");
        candidates.push(UploadCandidate {
            path: path.clone(),
            size: size_of(path),
            exists_remote: key_exists_in_listing(&remote_keys, &key),
        });
    }
    let actions = plan_uploads(&candidates);
    assert_eq!(actions.len(), 2);

    let mut upload_calls = 0;
    for action in &actions {
        match action.method {
            UploadMethod::Single => {
                assert_eq!(action.path, "w/a.txt");
                log.add_entry(LogEntry::new(
                    action.path.clone(),
                    "my-bucket".to_string(),
                    "a.txt".to_string(),
                    action.size,
                ));
                upload_calls += 1;  // the one put request
                log.update_entry(&action.path, action.size);
            }
            UploadMethod::Chunked => {
                assert_eq!(action.path, "w/big.bin");
                log.add_entry(LogEntry::new(
                    action.path.clone(),
                    "my-bucket".to_string(),
                    "big.bin".to_string(),
                    action.size,
                ));
                let mut session = ChunkedUpload::new("sess-1".to_string(), action.size);
                let mut expected_progress = Vec::new();
                while session.phase == UploadPhase::Uploading {
                    let len = session.next_part_len();
                    let tag = format!("tag-{}", session.next_part_number());
                    upload_calls += 1;  // one part upload request
                    session.record_part(tag, len).expect("exact part length");
                    log.increment_progress(&action.path, len);
                    expected_progress.push(log.entries[1].completed_bytes);
                }
                assert_eq!(expected_progress, vec![5242880, 10485760, 12582912]);
                let numbers: Vec<u64> = session.parts.iter().map(|p| p.part_number).collect();
                assert_eq!(numbers, vec![1, 2, 3]);
                session.mark_completed();
                record_session_completed(&mut log, &session, &action.path);
            }
        }
    }
    assert_eq!(upload_calls, 4);

    assert_eq!(log.entries[0].completed_bytes, 10);
    assert_eq!(log.entries[0].total_bytes, 10);
    assert!(log.entries[0].completed);
    assert_eq!(log.entries[1].completed_bytes, 12582912);
    assert_eq!(log.entries[1].total_bytes, 12582912);
    assert!(log.entries[1].completed);

    // Second cycle: nothing changed, so the scan is empty and no candidate
    // ever reaches the planner -- zero backend calls.
    let delta2 = manifest.scan(&listing);
    assert!(delta2.to_sync.is_empty());
    assert!(delta2.deleted.is_empty());
    let actions2 = plan_uploads(&vec![]);
    assert!(actions2.is_empty());
}

#[test]
fn objects_already_present_are_skipped() {
    let mut manifest = FileManifest::new();
    let remote_keys = vec!["a.txt".to_string(), "big.bin".to_string()];
    let listing = vec![
        FileObservation { path: "w/a.txt".to_string(), mtime: 100 },
        FileObservation { path: "w/big.bin".to_string(), mtime: 100 },
    ];
    let delta = manifest.scan(&listing);
    let mut candidates = Vec::new();
    for path in &delta.to_sync {
        let key = remote_key_for(path, "w").expect("path under the watched directory");
        candidates.push(UploadCandidate {
            path: path.clone(),
            size: size_of(path),
            exists_remote: key_exists_in_listing(&remote_keys, &key),
        });
    }
    let actions = plan_uploads(&candidates);
    assert!(actions.is_empty());
}
