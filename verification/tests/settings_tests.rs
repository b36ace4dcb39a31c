use icebucket::settings::{str_is_blank, Settings, SyncSettings};

#[test]
fn default_settings_watch_the_working_directory() {
    let s = Settings::default();
    assert_eq!(s.directories_to_scan, vec!["./".to_string()]);
    assert_eq!(s.seconds_between_scans, 60);
}

#[test]
fn default_sync_settings_hold_placeholders() {
    let s = SyncSettings::default();
    assert_eq!(s.service, "s3");
    assert_eq!(s.access_key, "YOUR_ACCESS_KEY");
    assert_eq!(s.secret_key, "YOUR_SECRET_KEY");
    assert_eq!(s.region, "us-east-1");
    assert_eq!(s.bucket, "your-bucket-name");
    assert_eq!(s.endpoint, "");
    assert_eq!(s.sync_type, "upload-only");
    assert_eq!(s.conflicts, "keep-local");
    assert!(!s.public);
    assert!(s.is_s3());
}

#[test]
fn blank_directories_are_rejected() {
    assert!(str_is_blank(""));
    assert!(str_is_blank("   \t\n"));
    assert!(!str_is_blank(" x "));
    let mut s = Settings::default();
    s.add_directory("   ".to_string());
    assert_eq!(s.directories_to_scan.len(), 1);
    s.add_directory("/data/photos".to_string());
    assert_eq!(s.directories_to_scan.len(), 2);
    assert_eq!(s.directories_to_scan[1], "/data/photos");
}

#[test]
fn removing_a_directory_keeps_the_rest_in_order() {
    let mut s = Settings::default();
    s.add_directory("/a".to_string());
    s.add_directory("/b".to_string());
    s.add_directory("/a".to_string());
    s.remove_directory(&"/a".to_string());
    assert_eq!(s.directories_to_scan, vec!["./".to_string(), "/b".to_string()]);
    s.remove_directory(&"/missing".to_string());
    assert_eq!(s.directories_to_scan, vec!["./".to_string(), "/b".to_string()]);
}

#[test]
fn other_service_kinds_are_not_s3() {
    let mut s = SyncSettings::default();
    s.service = "other".to_string();
    assert!(!s.is_s3());
}
