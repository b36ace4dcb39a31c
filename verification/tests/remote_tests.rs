use icebucket::remote::{
    content_matches_etag, hash_matches_etag, key_exists_in_listing, object_candidate_matches,
};
use icebucket::text::{str_eq, strip_quotes};

#[test]
fn existence_needs_an_exact_key_match() {
    let keys = vec!["a.txt.bak".to_string(), "sub/a.txt".to_string()];
    assert!(!key_exists_in_listing(&keys, &"a.txt".to_string()));
    let keys2 = vec!["x".to_string(), "a.txt".to_string()];
    assert!(key_exists_in_listing(&keys2, &"a.txt".to_string()));
    assert!(!key_exists_in_listing(&vec![], &"a.txt".to_string()));
}

#[test]
fn quotes_are_stripped_from_tags() {
    assert_eq!(strip_quotes("\"abc\""), "abc");
    assert_eq!(strip_quotes("abc"), "abc");
    assert_eq!(strip_quotes("\"\""), "");
    assert!(hash_matches_etag("\"deadbeef\"", &"deadbeef".to_string()));
    assert!(!hash_matches_etag("\"deadbeef\"", &"deadbee0".to_string()));
}

#[test]
fn content_digest_matches_its_known_tag() {
    // SHA-256("abc"), as the backend would report it as a quoted tag
    let tag = "\"ba7816bf8f01cfea414140de5dae2223b00361a396177a9cb410ff61f20015ad\"";
    assert!(content_matches_etag(tag, &b"abc".to_vec()));
    assert!(!content_matches_etag(tag, &b"abd".to_vec()));
    assert!(!content_matches_etag(tag, &b"".to_vec()));
}

#[test]
fn empty_content_has_the_well_known_digest() {
    let tag = "\"e3b0c44298fc1c149afbf4c8996fb92427ae41e4649b934ca495991b7852b855\"";
    assert!(content_matches_etag(tag, &b"".to_vec()));
    assert!(!content_matches_etag(tag, &b"x".to_vec()));
}

#[test]
fn strict_candidate_needs_key_and_size() {
    let key = "a.txt".to_string();
    let target = "a.txt".to_string();
    assert!(object_candidate_matches(&key, 10, &target, 10));
    assert!(!object_candidate_matches(&key, 11, &target, 10));
    assert!(!object_candidate_matches(&"b.txt".to_string(), 10, &target, 10));
}

#[test]
fn str_eq_compares_by_characters() {
    assert!(str_eq("abc", "abc"));
    assert!(!str_eq("abc", "abd"));
    assert!(!str_eq("abc", "ab"));
    assert!(str_eq("", ""));
}
