//! Tests of the reconciler, the content hash and the debouncer.

use taskfile::worker::{normalize_content, simple_hash, FileDebouncer};

#[test]
fn test_reconcile_drops_blank_lines() {
    let content =
        b"- [ ] Simple task #work id:550e8400-e29b-41d4-a716-446655440000\n\n".to_vec();
    let (out, kept, changed) = normalize_content(&content);
    assert_eq!(
        out,
        b"- [ ] Simple task #work id:550e8400-e29b-41d4-a716-446655440000\n".to_vec()
    );
    assert_eq!(kept, 1);
    assert!(changed);
}

#[test]
fn test_reconcile_is_idempotent() {
    let content = b"- [x] messy   one @2024-01-01 #coding\nstray prose\n- [ ] fine #work id:550e8400-e29b-41d4-a716-446655440000".to_vec();
    let (out1, kept1, changed1) = normalize_content(&content);
    assert!(changed1);
    assert_eq!(kept1, 2);
    let (out2, kept2, changed2) = normalize_content(&out1);
    assert_eq!(out2, out1);
    assert_eq!(kept2, 2);
    assert!(!changed2);
}

#[test]
fn test_reconcile_reorders_fields_keeping_id() {
    let content =
        b"- [ ] Task #work !2 @2024-05-06 id:550e8400-e29b-41d4-a716-446655440000\n".to_vec();
    let (out, kept, _) = normalize_content(&content);
    assert_eq!(
        out,
        b"- [ ] Task #work @2024-05-06 !2 id:550e8400-e29b-41d4-a716-446655440000\n".to_vec()
    );
    assert_eq!(kept, 1);
}

#[test]
fn test_reconcile_reorders_date_before_bucket() {
    let content =
        b"- [ ] Fix sink @2024-01-15 #home id:550e8400-e29b-41d4-a716-446655440000\n".to_vec();
    let (out, kept, changed) = normalize_content(&content);
    assert_eq!(
        out,
        b"- [ ] Fix sink #home @2024-01-15 id:550e8400-e29b-41d4-a716-446655440000\n".to_vec()
    );
    assert_eq!(kept, 1);
    assert!(changed);
    // and the repaired file is a fixed point of reconciliation
    let (out2, _, changed2) = normalize_content(&out);
    assert_eq!(out2, out);
    assert!(!changed2);
}

#[test]
fn test_reconcile_settles_doubled_tokens() {
    // two priority tokens on one line: the first becomes the field, both
    // leave the text, and the repaired line is already canonical
    let content = b"- [ ] a !1 b !2 #w\n".to_vec();
    let (out, kept, changed) = normalize_content(&content);
    assert!(changed);
    assert_eq!(kept, 1);
    let head = b"- [ ] a b #w !1 id:".to_vec();
    assert_eq!(&out[..head.len()], &head[..]);
    let (out2, _, changed2) = normalize_content(&out);
    assert_eq!(out2, out);
    assert!(!changed2);
}

#[test]
fn test_reconcile_canonical_file_unchanged() {
    let content =
        b"- [ ] Task #work @2024-05-06 id:550e8400-e29b-41d4-a716-446655440000\n".to_vec();
    let (out, kept, changed) = normalize_content(&content);
    assert_eq!(out, content);
    assert_eq!(kept, 1);
    assert!(!changed);
}

#[test]
fn test_hash_is_deterministic_and_content_sensitive() {
    let a = b"- [ ] one #x\n".to_vec();
    let b = b"- [ ] two #x\n".to_vec();
    assert_eq!(simple_hash(&a), simple_hash(&a));
    assert_ne!(simple_hash(&a), simple_hash(&b));
    assert_eq!(simple_hash(&[]), 0xcbf29ce484222325);
}

#[test]
fn test_debounce_two_rapid_writes_fire_once() {
    let mut d = FileDebouncer::new(500);
    let path = b"tasks.md".to_vec();
    d.add_file(path.clone());
    // first write: new content, outside any window
    assert!(d.should_process(&path, 1000, Some(11)));
    // second write 100 ms later, within the 500 ms window: suppressed
    assert!(!d.should_process(&path, 1100, Some(22)));
    // after the window, the final content is picked up exactly once
    assert!(d.should_process(&path, 1600, Some(22)));
    assert!(!d.should_process(&path, 2200, Some(22)));
}

#[test]
fn test_debounce_ignores_same_content() {
    let mut d = FileDebouncer::new(500);
    let path = b"tasks.md".to_vec();
    d.add_file(path.clone());
    assert!(d.should_process(&path, 1000, Some(7)));
    // the reconciler's own write: same hash, no second pass
    assert!(!d.should_process(&path, 1600, Some(7)));
}

#[test]
fn test_debounce_unreadable_and_unknown() {
    let mut d = FileDebouncer::new(500);
    let path = b"tasks.md".to_vec();
    d.add_file(path.clone());
    assert!(!d.should_process(&path, 1000, None));
    assert!(!d.should_process(&b"other.md".to_vec(), 1000, Some(1)));
    assert_eq!(d.process(&path), Some(path.clone()));
    assert_eq!(d.process(&b"other.md".to_vec()), None);
}
