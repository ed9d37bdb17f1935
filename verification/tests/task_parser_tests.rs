//! Tests of the two-tier parser, the serializer and the add-flow builder.

use taskfile::record::ParsedTask;
use taskfile::task_parser::{TaskBuilder, TaskError, extract_clean_text};

#[test]
fn test_parse_full_line() {
    let line =
        b"- [ ] Buy groceries #home @2024-01-15 !2 [[Store]] id:550e8400-e29b-41d4-a716-446655440000"
            .to_vec();
    let task = ParsedTask::from_line(&line).unwrap();

    assert_eq!(task.text, b"Buy groceries".to_vec());
    assert_eq!(task.bucket, b"home".to_vec());
    assert_eq!(task.due, Some(b"2024-01-15".to_vec()));
    assert_eq!(task.priority, Some(2));
    assert_eq!(task.link, Some(b"Store".to_vec()));
    assert!(!task.completed);
}

#[test]
fn test_parse_minimal_line() {
    let line = b"- [ ] Simple task #work id:550e8400-e29b-41d4-a716-446655440000".to_vec();
    let task = ParsedTask::from_line(&line).unwrap();

    assert_eq!(task.text, b"Simple task".to_vec());
    assert_eq!(task.bucket, b"work".to_vec());
    assert_eq!(task.due, None);
    assert_eq!(task.priority, None);
}

#[test]
fn test_parse_manual_edit() {
    let line = b"- [x] Messy   task with #coding stuff @2024-01-01".to_vec();
    let task = ParsedTask::from_line(&line).unwrap();

    assert_eq!(task.text, b"Messy   task with stuff".to_vec());
    assert_eq!(task.bucket, b"coding".to_vec());
    assert!(task.completed);
}

#[test]
fn test_builder() {
    let task = TaskBuilder::parse_with_flags(
        b"Buy milk #home @2024-01-15".to_vec(),
        None,
        None,
        Some(b"Store".to_vec()),
        Some(1),
    )
    .unwrap();

    assert_eq!(task.text, b"Buy milk".to_vec());
    assert_eq!(task.bucket, b"home".to_vec());
    assert_eq!(task.due, Some(b"2024-01-15".to_vec()));
    assert_eq!(task.priority, Some(1));
    assert_eq!(task.link, Some(b"Store".to_vec()));
}

#[test]
fn test_roundtrip() {
    let original =
        b"- [ ] Test task #work @2024-01-15 !3 [[Note]] id:550e8400-e29b-41d4-a716-446655440000"
            .to_vec();
    let task = ParsedTask::from_line(&original).unwrap();
    let formatted = task.to_line();
    let reparsed = ParsedTask::from_line(&formatted).unwrap();

    assert_eq!(task.text, reparsed.text);
    assert_eq!(task.bucket, reparsed.bucket);
    assert_eq!(task.due, reparsed.due);
    assert_eq!(task.priority, reparsed.priority);
    assert_eq!(task.id, reparsed.id);
}

#[test]
fn test_canonical_line_reserializes_identically() {
    let original =
        b"- [x] Test task #work @2024-01-15 !3 [[Note]] id:550e8400-e29b-41d4-a716-446655440000"
            .to_vec();
    let task = ParsedTask::from_line(&original).unwrap();
    assert_eq!(task.to_line(), original);
    assert!(task.completed);
}

#[test]
fn test_builder_line_shape() {
    let task = TaskBuilder::parse_with_flags(
        b"Buy milk #home @2024-01-15".to_vec(),
        None,
        None,
        Some(b"Store".to_vec()),
        Some(1),
    )
    .unwrap();
    let line = task.to_line();
    let expected_head = b"- [ ] Buy milk #home @2024-01-15 !1 [[Store]] id:".to_vec();
    assert_eq!(&line[..expected_head.len()], &expected_head[..]);
    // the generated id prints as 36 canonical characters, ending the line
    assert_eq!(line.len(), expected_head.len() + 36);
}

#[test]
fn test_builder_missing_bucket() {
    let r = TaskBuilder::parse_with_flags(b"no tag here".to_vec(), None, None, None, None);
    assert_eq!(r.unwrap_err(), TaskError::MissingBucket);
}

#[test]
fn test_builder_empty_text() {
    let r = TaskBuilder::parse_with_flags(b"#home".to_vec(), None, None, None, None);
    assert_eq!(r.unwrap_err(), TaskError::EmptyText);
}

#[test]
fn test_builder_flag_precedence() {
    let task = TaskBuilder::parse_with_flags(
        b"Call mom #family".to_vec(),
        Some(b"phone".to_vec()),
        Some(b"2025-12-31".to_vec()),
        None,
        None,
    )
    .unwrap();
    assert_eq!(task.bucket, b"phone".to_vec());
    assert_eq!(task.due, Some(b"2025-12-31".to_vec()));
    assert_eq!(task.text, b"Call mom".to_vec());
}

#[test]
fn test_builder_new_defaults() {
    let b = TaskBuilder::new(b"anything".to_vec());
    assert_eq!(b.text, b"anything".to_vec());
    assert!(b.bucket.is_none());
    assert!(b.due.is_none());
    assert!(b.link.is_none());
    assert!(b.priority.is_none());
}

#[test]
fn test_date_before_bucket_is_reordered() {
    let line = b"- [ ] Fix sink @2024-01-15 #home id:550e8400-e29b-41d4-a716-446655440000".to_vec();
    let task = ParsedTask::from_line(&line).unwrap();
    assert_eq!(task.text, b"Fix sink".to_vec());
    assert_eq!(task.bucket, b"home".to_vec());
    assert_eq!(task.due, Some(b"2024-01-15".to_vec()));
    assert_eq!(
        task.to_line(),
        b"- [ ] Fix sink #home @2024-01-15 id:550e8400-e29b-41d4-a716-446655440000".to_vec()
    );
}

#[test]
fn test_lenient_reorders_fields() {
    let line = b"- [ ] Task #work !2 @2024-01-01 id:550e8400-e29b-41d4-a716-446655440000".to_vec();
    let task = ParsedTask::from_line(&line).unwrap();
    assert_eq!(
        task.to_line(),
        b"- [ ] Task #work @2024-01-01 !2 id:550e8400-e29b-41d4-a716-446655440000".to_vec()
    );
}

#[test]
fn test_lenient_defaults_bucket_and_mints_id() {
    let line = b"- [ ] just words".to_vec();
    let task = ParsedTask::from_line(&line).unwrap();
    assert_eq!(task.bucket, b"general".to_vec());
    assert_eq!(task.text, b"just words".to_vec());
    let out = task.to_line();
    // a minted id prints as 36 canonical characters after " id:"
    let head = b"- [ ] just words #general id:".to_vec();
    assert_eq!(&out[..head.len()], &head[..]);
    assert_eq!(out.len(), head.len() + 36);
}

#[test]
fn test_prose_line_is_not_task_syntax() {
    assert!(ParsedTask::from_line(&b"some stray prose".to_vec()).is_none());
}

#[test]
fn test_unparseable_id_token_mints_fresh() {
    let line = b"- [ ] Task #work id:not-a-uuid".to_vec();
    let task = ParsedTask::from_line(&line).unwrap();
    assert_eq!(task.bucket, b"work".to_vec());
    let out = task.to_line();
    // the line is kept, with a freshly minted id rather than a failure
    assert!(out.windows(4).any(|w| w == b" id:"));
    assert_ne!(out, line);
}

#[test]
fn test_hex_but_invalid_id_token_mints_fresh() {
    let line = b"- [ ] Task #work id:dead".to_vec();
    let task = ParsedTask::from_line(&line).unwrap();
    // the token is recognised and stripped, but does not parse as an id
    assert_eq!(task.text, b"Task".to_vec());
    let out = task.to_line();
    assert_eq!(&out[..out.len() - 36], &b"- [ ] Task #work id:"[..]);
}

#[test]
fn test_uppercase_id_is_canonicalized() {
    let line = b"- [ ] Task #work id:550E8400-E29B-41D4-A716-446655440000".to_vec();
    let task = ParsedTask::from_line(&line).unwrap();
    assert_eq!(
        task.to_line(),
        b"- [ ] Task #work id:550e8400-e29b-41d4-a716-446655440000".to_vec()
    );
}

#[test]
fn test_clean_text_strips_one_of_each() {
    let line = b"- [x] alpha #work beta @2024-01-15 gamma !7 [[L]] id:550e8400-e29b-41d4-a716-446655440000 omega";
    let clean = extract_clean_text(line);
    assert_eq!(clean, b"alpha beta gamma omega".to_vec());
}

#[test]
fn test_clean_text_strips_every_token() {
    // the first tag names the bucket; the leftover tag is cleared from the
    // text as well, so the stored text never holds a marker
    let line = b"- [ ] a #x b #y";
    let clean = extract_clean_text(line);
    assert_eq!(clean, b"a b".to_vec());
    let task = ParsedTask::from_line(&line.to_vec()).unwrap();
    assert_eq!(task.bucket, b"x".to_vec());
    assert_eq!(task.text, b"a b".to_vec());
}

#[test]
fn test_unicode_bucket() {
    let line = b"- [ ] order espresso #caf\xc3\xa9 id:550e8400-e29b-41d4-a716-446655440000".to_vec();
    let task = ParsedTask::from_line(&line).unwrap();
    assert_eq!(task.bucket, b"caf\xc3\xa9".to_vec());
    assert_eq!(task.text, b"order espresso".to_vec());
}

#[test]
fn test_untrimmed_text_is_repaired() {
    // two spaces after the checkbox deviate from the canonical single space
    let line = b"- [ ]  Task #w id:550e8400-e29b-41d4-a716-446655440000".to_vec();
    let task = ParsedTask::from_line(&line).unwrap();
    assert_eq!(task.text, b"Task".to_vec());
    assert_eq!(
        task.to_line(),
        b"- [ ] Task #w id:550e8400-e29b-41d4-a716-446655440000".to_vec()
    );
}

#[test]
fn test_simple_form_id_is_canonicalized() {
    let line = b"- [ ] Task #work id:550e8400e29b41d4a716446655440000".to_vec();
    let task = ParsedTask::from_line(&line).unwrap();
    assert_eq!(
        task.to_line(),
        b"- [ ] Task #work id:550e8400-e29b-41d4-a716-446655440000".to_vec()
    );
}

#[test]
fn test_plus_marks_a_bucket_too() {
    let line = b"- [ ] ship it +release".to_vec();
    let task = ParsedTask::from_line(&line).unwrap();
    assert_eq!(task.bucket, b"release".to_vec());
    assert_eq!(task.text, b"ship it".to_vec());
}

#[test]
fn test_priority_overflow_is_dropped() {
    let line = b"- [ ] big #work !999 id:550e8400-e29b-41d4-a716-446655440000".to_vec();
    let task = ParsedTask::from_line(&line).unwrap();
    assert_eq!(task.priority, None);
    assert_eq!(task.text, b"big".to_vec());
}

#[test]
fn test_with_builders_set_fields() {
    let t = ParsedTask::new(b"walk".to_vec(), b"health".to_vec())
        .with_due(b"2024-06-01".to_vec())
        .with_link(b"plan".to_vec())
        .with_priority(2)
        .with_completed(true);
    assert!(t.completed);
    assert_eq!(t.due, Some(b"2024-06-01".to_vec()));
    assert_eq!(t.link, Some(b"plan".to_vec()));
    assert_eq!(t.priority, Some(2));
    let line = t.to_line();
    let head = b"- [x] walk #health @2024-06-01 !2 [[plan]] id:".to_vec();
    assert_eq!(&line[..head.len()], &head[..]);
}
