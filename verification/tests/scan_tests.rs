use icebucket::scan::{FileManifest, FileObservation};

fn obs(path: &str, mtime: u64) -> FileObservation {
    FileObservation { path: path.to_string(), mtime }
}

#[test]
fn first_scan_reports_every_file() {
    let mut manifest = FileManifest::new();
    let listing = vec![obs("w/a.txt", 100), obs("w/big.bin", 100)];
    let delta = manifest.scan(&listing);
    assert_eq!(delta.to_sync, vec!["w/a.txt".to_string(), "w/big.bin".to_string()]);
    assert!(delta.deleted.is_empty());
    assert!(manifest.contains_path(&"w/a.txt".to_string()));
    assert!(manifest.contains_path(&"w/big.bin".to_string()));
    assert_eq!(manifest.mtime_of(&"w/a.txt".to_string()), Some(100));
}

#[test]
fn rescan_without_change_is_empty() {
    let mut manifest = FileManifest::new();
    let listing = vec![obs("w/a.txt", 100), obs("w/b.txt", 200)];
    let _ = manifest.scan(&listing);
    let second = manifest.scan(&listing);
    assert!(second.to_sync.is_empty());
    assert!(second.deleted.is_empty());
}

#[test]
fn new_file_is_synced_exactly_once() {
    let mut manifest = FileManifest::new();
    let _ = manifest.scan(&vec![obs("w/a.txt", 100)]);
    let listing2 = vec![obs("w/a.txt", 100), obs("w/new.txt", 150)];
    let delta2 = manifest.scan(&listing2);
    assert_eq!(delta2.to_sync, vec!["w/new.txt".to_string()]);
    let delta3 = manifest.scan(&listing2);
    assert!(delta3.to_sync.is_empty());
}

#[test]
fn modified_file_is_synced_only_on_newer_mtime() {
    let mut manifest = FileManifest::new();
    let _ = manifest.scan(&vec![obs("w/a.txt", 100)]);
    // strictly newer: re-uploaded
    let d_newer = manifest.scan(&vec![obs("w/a.txt", 101)]);
    assert_eq!(d_newer.to_sync, vec!["w/a.txt".to_string()]);
    // equal: unchanged
    let d_equal = manifest.scan(&vec![obs("w/a.txt", 101)]);
    assert!(d_equal.to_sync.is_empty());
    // older: not re-uploaded, but the manifest records the observed time
    let d_older = manifest.scan(&vec![obs("w/a.txt", 50)]);
    assert!(d_older.to_sync.is_empty());
    assert_eq!(manifest.mtime_of(&"w/a.txt".to_string()), Some(50));
}

#[test]
fn removed_file_is_deleted_exactly_once() {
    let mut manifest = FileManifest::new();
    let _ = manifest.scan(&vec![obs("w/a.txt", 100), obs("w/b.txt", 100)]);
    let listing2 = vec![obs("w/a.txt", 100)];
    let delta2 = manifest.scan(&listing2);
    assert!(delta2.to_sync.is_empty());
    assert_eq!(delta2.deleted, vec!["w/b.txt".to_string()]);
    assert!(!manifest.contains_path(&"w/b.txt".to_string()));
    let delta3 = manifest.scan(&listing2);
    assert!(delta3.deleted.is_empty());
}

#[test]
fn deletion_detected_after_additions_in_same_pass() {
    let mut manifest = FileManifest::new();
    let _ = manifest.scan(&vec![obs("w/old.txt", 100)]);
    let delta = manifest.scan(&vec![obs("w/new.txt", 120)]);
    assert_eq!(delta.to_sync, vec!["w/new.txt".to_string()]);
    assert_eq!(delta.deleted, vec!["w/old.txt".to_string()]);
    assert!(manifest.contains_path(&"w/new.txt".to_string()));
    assert!(!manifest.contains_path(&"w/old.txt".to_string()));
}

#[test]
fn empty_listing_deletes_everything() {
    let mut manifest = FileManifest::new();
    let _ = manifest.scan(&vec![obs("w/a.txt", 1), obs("w/b.txt", 2)]);
    let delta = manifest.scan(&vec![]);
    assert!(delta.to_sync.is_empty());
    assert_eq!(delta.deleted.len(), 2);
    assert!(delta.deleted.contains(&"w/a.txt".to_string()));
    assert!(delta.deleted.contains(&"w/b.txt".to_string()));
}
