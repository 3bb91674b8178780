use adjmerge::error::MergeError;
use adjmerge::merge;
use adjmerge::output::{ConflictStyle, Labels, MergeOutcome};

#[test]
fn merge_clean_writes_input() {
    let mut out = Vec::new();
    let outcome = merge(
        b"a\nb\n",
        b"a\nb\n",
        b"a\nb\n",
        &mut out,
        ConflictStyle::Diff3,
        &Labels::default(),
    )
    .unwrap();
    assert_eq!(outcome, MergeOutcome::Clean);
    assert_eq!(out, b"a\nb\n".to_vec());
}

#[test]
fn merge_one_side_change_taken() {
    let mut out = Vec::new();
    let outcome = merge(
        b"a\nb\nc\n",
        b"a\nb\nc\n",
        b"a\nB\nc\n",
        &mut out,
        ConflictStyle::Zdiff3,
        &Labels::default(),
    )
    .unwrap();
    assert_eq!(outcome, MergeOutcome::AutoResolved);
    assert_eq!(out, b"a\nB\nc\n".to_vec());
}

#[test]
fn merge_rejects_non_utf8_and_writes_nothing() {
    let mut out = b"keep".to_vec();
    let r = merge(
        b"a\n",
        b"\xff\n",
        b"a\n",
        &mut out,
        ConflictStyle::Diff3,
        &Labels::default(),
    );
    match r {
        Err(MergeError::Utf8 { position, .. }) => assert_eq!(position, 0),
        _ => panic!("expected a utf-8 error"),
    }
    assert_eq!(out, b"keep".to_vec());
}

#[test]
fn io_error_converts() {
    let e = MergeError::from(std::io::Error::new(std::io::ErrorKind::Other, "disk"));
    assert!(matches!(e, MergeError::Io(_)));
}

#[test]
fn merge_adjacent_changes_resolve() {
    let mut out = Vec::new();
    let outcome = merge(
        b"foo\nbar\nbaz\n",
        b"foo\nnew_bar\nbaz\n",
        b"foo\nbar\nnew_baz\n",
        &mut out,
        ConflictStyle::Diff3,
        &Labels::default(),
    )
    .unwrap();
    assert_eq!(outcome, MergeOutcome::AutoResolved);
    assert_eq!(out, b"foo\nnew_bar\nnew_baz\n".to_vec());
}

#[test]
fn merge_same_lines_both_sides_clean_with_own_eol() {
    // both sides hold the same lines (one with CRLF): clean; the local lines are kept
    let mut out = Vec::new();
    let outcome = merge(
        b"a\nb\n",
        b"a\nc\n",
        b"a\r\nc\r\n",
        &mut out,
        ConflictStyle::Diff3,
        &Labels::default(),
    )
    .unwrap();
    assert_eq!(outcome, MergeOutcome::Clean);
    assert_eq!(out, b"a\nc\n".to_vec());
}

#[test]
fn merge_appends_to_existing_output() {
    let mut out = b">".to_vec();
    merge(
        b"x",
        b"x",
        b"x",
        &mut out,
        ConflictStyle::Diff3,
        &Labels::default(),
    )
    .unwrap();
    assert_eq!(out, b">x".to_vec());
}

#[test]
fn merge_error_names_first_invalid_input() {
    let mut out = Vec::new();
    let r = merge(
        b"ok\n",
        b"ab\xff\n",
        b"\xfe\n",
        &mut out,
        ConflictStyle::Diff3,
        &Labels::default(),
    );
    match r {
        Err(MergeError::Utf8 { position, .. }) => assert_eq!(position, 2),
        _ => panic!("expected a utf-8 error"),
    }
    assert!(out.is_empty());
}

#[test]
fn merge_equal_sides_write_that_side() {
    let mut out = Vec::new();
    let outcome = merge(
        b"a\nb\nc\n",
        b"a\nX\nc\nd\n",
        b"a\nX\nc\nd\n",
        &mut out,
        ConflictStyle::Diff3,
        &Labels::default(),
    )
    .unwrap();
    assert_eq!(outcome, MergeOutcome::Clean);
    assert_eq!(out, b"a\nX\nc\nd\n".to_vec());
}

#[test]
fn merge_local_is_base_writes_remote() {
    let mut out = Vec::new();
    let outcome = merge(
        b"a\nb\nc\n",
        b"a\nb\nc\n",
        b"Z\na\nc\n",
        &mut out,
        ConflictStyle::Zdiff3,
        &Labels::default(),
    )
    .unwrap();
    assert_eq!(outcome, MergeOutcome::AutoResolved);
    assert_eq!(out, b"Z\na\nc\n".to_vec());
}

#[test]
fn merge_remote_is_base_writes_local() {
    let mut out = Vec::new();
    let outcome = merge(
        b"a\nb\n",
        b"a\nb\nc\n",
        b"a\nb\n",
        &mut out,
        ConflictStyle::Diff3,
        &Labels::default(),
    )
    .unwrap();
    assert_eq!(outcome, MergeOutcome::AutoResolved);
    assert_eq!(out, b"a\nb\nc\n".to_vec());
}
