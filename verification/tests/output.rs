use adjmerge::diff3::{reconcile, DiffRegion};
use adjmerge::output::{write_merged, ConflictStyle, Labels, MergeOutcome};
use adjmerge::tokenizer::tokenize;

fn merge_to_string(
    base: &str,
    local: &str,
    remote: &str,
    style: ConflictStyle,
) -> (String, MergeOutcome) {
    let base_lines = tokenize(base.as_bytes()).unwrap();
    let local_lines = tokenize(local.as_bytes()).unwrap();
    let remote_lines = tokenize(remote.as_bytes()).unwrap();

    let regions = reconcile(&base_lines, &local_lines, &remote_lines);

    let mut buf = Vec::new();
    let outcome = write_merged(&regions, &mut buf, style, &Labels::default());

    (String::from_utf8(buf).unwrap(), outcome)
}

#[test]
fn clean_merge_auto_resolved() {
    let (out, outcome) = merge_to_string(
        "Aa\nBb\nCc\n",
        "Xx\nAa\nBb\nCc\n",
        "Aa\nBb\nCc\nYy\n",
        ConflictStyle::Diff3,
    );
    assert_eq!(outcome, MergeOutcome::AutoResolved);
    assert_eq!(out, "Xx\nAa\nBb\nCc\nYy\n");
}

#[test]
fn adjacent_merge_auto_resolved() {
    let (out, outcome) = merge_to_string(
        "foo\nbar\nbaz\n",
        "foo\nnew_bar\nbaz\n",
        "foo\nbar\nnew_baz\n",
        ConflictStyle::Diff3,
    );
    assert_eq!(outcome, MergeOutcome::AutoResolved);
    assert_eq!(out, "foo\nnew_bar\nnew_baz\n");
}

#[test]
fn identical_files_clean() {
    let (out, outcome) = merge_to_string(
        "Aa\nBb\nCc\n",
        "Aa\nBb\nCc\n",
        "Aa\nBb\nCc\n",
        ConflictStyle::Diff3,
    );
    assert_eq!(outcome, MergeOutcome::Clean);
    assert_eq!(out, "Aa\nBb\nCc\n");
}

#[test]
fn conflict_markers_diff3() {
    let (out, outcome) = merge_to_string(
        "Aa\nBb\nCc\n",
        "Aa\nXx\nCc\n",
        "Aa\nYy\nCc\n",
        ConflictStyle::Diff3,
    );
    assert_eq!(outcome, MergeOutcome::Conflict);
    assert!(out.contains("<<<<<<< LOCAL"));
    assert!(out.contains("||||||| BASE"));
    assert!(out.contains("======="));
    assert!(out.contains(">>>>>>> REMOTE"));
}

#[test]
fn conflict_markers_zdiff3() {
    let (out, outcome) = merge_to_string(
        "Aa\nBb\nCc\n",
        "Aa\nXx\nCc\n",
        "Aa\nYy\nCc\n",
        ConflictStyle::Zdiff3,
    );
    assert_eq!(outcome, MergeOutcome::Conflict);
    assert!(out.contains("<<<<<<< LOCAL"));
    let marker_start = out.find("<<<<<<< LOCAL").unwrap();
    let marker_end = out.find(">>>>>>> REMOTE").unwrap();
    let before = &out[..marker_start];
    let after = &out[marker_end..];
    assert!(before.contains("Aa\n"));
    assert!(after.contains("Cc\n"));
}

#[test]
fn zdiff3_asymmetric_base_kept() {
    // zdiff3-only: base matches local (A B) but not remote (Q...).
    let base_lines = tokenize(b"A\nB\nC\n").unwrap();
    let local_lines = tokenize(b"A\nB\nX\n").unwrap();
    let remote_lines = tokenize(b"Q\nB\nX\n").unwrap();
    let regions = vec![DiffRegion::Conflict {
        base: &base_lines,
        local: &local_lines,
        remote: &remote_lines,
    }];

    let mut buf = Vec::new();
    let outcome = write_merged(
        &regions,
        &mut buf,
        ConflictStyle::Zdiff3,
        &Labels::default(),
    );
    assert_eq!(outcome, MergeOutcome::Conflict);
    let out = String::from_utf8(buf).unwrap();

    // shared suffix [B X] moved outside markers
    assert!(out.ends_with("B\nX\n"), "suffix not moved out:\n{}", out);
    // base section must keep full context
    let base_start = out.find("||||||| BASE").unwrap();
    let div = out.find("=======").unwrap();
    let base_section = &out[base_start..div];
    assert!(
        base_section.contains("A\n") && base_section.contains("B\n"),
        "base trimmed too far (old bug):\n{}",
        out
    );
}

#[test]
fn both_same_clean() {
    let (out, outcome) = merge_to_string(
        "Aa\nold\nBb\n",
        "Aa\nnew\nBb\n",
        "Aa\nnew\nBb\n",
        ConflictStyle::Diff3,
    );
    assert_eq!(outcome, MergeOutcome::Clean);
    assert_eq!(out, "Aa\nnew\nBb\n");
}

#[test]
fn diff3_conflict_exact_bytes() {
    let (out, _) = merge_to_string(
        "Aa\nBb\nCc\n",
        "Aa\nXx\nCc\n",
        "Aa\nYy\nCc\n",
        ConflictStyle::Diff3,
    );
    assert_eq!(
        out,
        "Aa\n<<<<<<< LOCAL\nXx\n||||||| BASE\nBb\n=======\nYy\n>>>>>>> REMOTE\nCc\n"
    );
}

#[test]
fn zdiff3_moves_shared_lines_out() {
    let base_lines = tokenize(b"1\n2\n3\n").unwrap();
    let local_lines = tokenize(b"S\nL\nE\n").unwrap();
    let remote_lines = tokenize(b"S\nR\nE\n").unwrap();
    let regions = vec![DiffRegion::Conflict {
        base: &base_lines,
        local: &local_lines,
        remote: &remote_lines,
    }];
    let mut buf = Vec::new();
    let labels = Labels {
        local: "ours",
        base: "o",
        remote: "theirs",
    };
    let outcome = write_merged(&regions, &mut buf, ConflictStyle::Zdiff3, &labels);
    assert_eq!(outcome, MergeOutcome::Conflict);
    assert_eq!(
        String::from_utf8(buf).unwrap(),
        "S\n<<<<<<< ours\nL\n||||||| o\n1\n2\n3\n=======\nR\n>>>>>>> theirs\nE\n"
    );
}

#[test]
fn write_merged_appends_and_keeps_eol() {
    let lines = tokenize(b"x\r\ny\rz").unwrap();
    let regions = vec![DiffRegion::Unchanged { lines: &lines }];
    let mut buf = b"pre:".to_vec();
    let outcome = write_merged(&regions, &mut buf, ConflictStyle::Diff3, &Labels::default());
    assert_eq!(outcome, MergeOutcome::Clean);
    assert_eq!(buf, b"pre:x\r\ny\rz".to_vec());
}

#[test]
fn outcome_auto_when_one_side_only() {
    let base = tokenize(b"a\n").unwrap();
    let local = tokenize(b"b\n").unwrap();
    let regions = vec![DiffRegion::LocalOnly {
        base: &base,
        local: &local,
    }];
    let mut buf = Vec::new();
    assert_eq!(
        write_merged(&regions, &mut buf, ConflictStyle::Diff3, &Labels::default()),
        MergeOutcome::AutoResolved
    );
    assert_eq!(buf, b"b\n".to_vec());
}

#[test]
fn default_labels() {
    let labels = Labels::default();
    assert_eq!(labels.local, "LOCAL");
    assert_eq!(labels.base, "BASE");
    assert_eq!(labels.remote, "REMOTE");
}

#[test]
fn style_irrelevant_without_conflicts() {
    let base = tokenize(b"a\nb\nc\n").unwrap();
    let local = tokenize(b"a\nB\nc\n").unwrap();
    let remote = tokenize(b"a\nb\nC\n").unwrap();
    let regions = reconcile(&base, &local, &remote);
    let mut diff3 = Vec::new();
    let mut zdiff3 = Vec::new();
    let o1 = write_merged(&regions, &mut diff3, ConflictStyle::Diff3, &Labels::default());
    let o2 = write_merged(&regions, &mut zdiff3, ConflictStyle::Zdiff3, &Labels::default());
    assert_eq!(o1, o2);
    assert_eq!(diff3, zdiff3);
    assert_eq!(diff3, b"a\nB\nC\n".to_vec());
}
