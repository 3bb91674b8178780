use adjmerge::diff3::{reconcile, reconcile_hunks, DiffRegion, Hunk};
use adjmerge::tokenizer::{tokenize, Line};

fn tok(s: &str) -> Vec<Line<'_>> {
    tokenize(s.as_bytes()).unwrap()
}

fn has_conflict(regions: &[DiffRegion]) -> bool {
    regions
        .iter()
        .any(|r| matches!(r, DiffRegion::Conflict { .. }))
}

fn texts(lines: &[Line]) -> Vec<String> {
    lines.iter().map(|l| l.content.to_string()).collect()
}

#[test]
fn no_overlap_clean_merge() {
    // LOCAL adds at start, REMOTE adds at end
    let base = tok("Aa\nBb\nCc\n");
    let local = tok("Xx\nAa\nBb\nCc\n");
    let remote = tok("Aa\nBb\nCc\nYy\n");

    let regions = reconcile(&base, &local, &remote);

    assert!(!regions
        .iter()
        .any(|r| matches!(r, DiffRegion::Conflict { .. })));
}

#[test]
fn adjacent_changes_clean_merge() {
    // Git conflicts here; the touching hunks stay separate
    let base = tok("foo\nbar\nbaz\n");
    let local = tok("foo\nnew_bar\nbaz\n");
    let remote = tok("foo\nbar\nnew_baz\n");

    let regions = reconcile(&base, &local, &remote);

    // Must NOT be a conflict
    assert!(!regions
        .iter()
        .any(|r| matches!(r, DiffRegion::Conflict { .. })));
}

#[test]
fn genuine_conflict() {
    // Both changed same line differently
    let base = tok("Aa\nBb\nCc\n");
    let local = tok("Aa\nXx\nCc\n");
    let remote = tok("Aa\nYy\nCc\n");

    let regions = reconcile(&base, &local, &remote);

    assert!(regions
        .iter()
        .any(|r| matches!(r, DiffRegion::Conflict { .. })));
}

#[test]
fn idempotent_both_same() {
    // Both sides made same change — take once
    let base = tok("Aa\nold\nBb\n");
    let local = tok("Aa\nnew\nBb\n");
    let remote = tok("Aa\nnew\nBb\n");

    let regions = reconcile(&base, &local, &remote);

    assert!(!regions
        .iter()
        .any(|r| matches!(r, DiffRegion::Conflict { .. })));
    assert!(regions
        .iter()
        .any(|r| matches!(r, DiffRegion::BothSame { .. })));
}

#[test]
fn same_insertion_point_identical_content() {
    // Both sides insert the same line — should deduplicate, not emit twice
    let base = tok("Aa\nCc\n");
    let local = tok("Aa\nBb\nCc\n");
    let remote = tok("Aa\nBb\nCc\n");

    let regions = reconcile(&base, &local, &remote);

    assert!(!regions
        .iter()
        .any(|r| matches!(r, DiffRegion::Conflict { .. })));
    assert!(regions
        .iter()
        .any(|r| matches!(r, DiffRegion::BothSame { .. })));
}

#[test]
fn same_insertion_point_different_content() {
    // Both sides insert different content at same point — both kept
    let base = tok("Aa\nCc\n");
    let local = tok("Aa\nXx\nCc\n");
    let remote = tok("Aa\nYy\nCc\n");

    let regions = reconcile(&base, &local, &remote);

    assert!(!regions
        .iter()
        .any(|r| matches!(r, DiffRegion::Conflict { .. })));
}

fn hunk(bs: u32, be: u32, a_s: u32, ae: u32) -> Hunk {
    Hunk {
        before_start: bs,
        before_end: be,
        after_start: a_s,
        after_end: ae,
    }
}

#[test]
fn hunks_touching_stay_separate() {
    let base = tok("a\nb\nc\n");
    let local = tok("a\nB\nc\n");
    let remote = tok("a\nb\nC\n");
    let regions = reconcile_hunks(
        &base,
        &local,
        &remote,
        &[hunk(1, 2, 1, 2)],
        &[hunk(2, 3, 2, 3)],
    );
    assert!(!has_conflict(&regions));
    assert_eq!(regions.len(), 3);
    match &regions[0] {
        DiffRegion::Unchanged { lines } => assert_eq!(texts(lines), vec!["a"]),
        _ => panic!("first region should be unchanged"),
    }
    match &regions[1] {
        DiffRegion::LocalOnly { base, local } => {
            assert_eq!(texts(base), vec!["b"]);
            assert_eq!(texts(local), vec!["B"]);
        }
        _ => panic!("second region should take local"),
    }
    match &regions[2] {
        DiffRegion::RemoteOnly { base, remote } => {
            assert_eq!(texts(base), vec!["c"]);
            assert_eq!(texts(remote), vec!["C"]);
        }
        _ => panic!("third region should take remote"),
    }
}

#[test]
fn hunks_overlapping_conflict() {
    let base = tok("a\nb\nc\n");
    let local = tok("a\nX\nc\n");
    let remote = tok("Y\nc\n");
    let regions = reconcile_hunks(
        &base,
        &local,
        &remote,
        &[hunk(1, 2, 1, 2)],
        &[hunk(0, 2, 0, 1)],
    );
    assert_eq!(regions.len(), 2);
    match &regions[0] {
        DiffRegion::Conflict { base, local, remote } => {
            assert_eq!(texts(base), vec!["a", "b"]);
            assert_eq!(texts(local), vec!["a", "X"]);
            assert_eq!(texts(remote), vec!["Y"]);
        }
        _ => panic!("expected a conflict"),
    }
    match &regions[1] {
        DiffRegion::Unchanged { lines } => assert_eq!(texts(lines), vec!["c"]),
        _ => panic!("expected the unchanged tail"),
    }
}

#[test]
fn hunks_same_insertion_kept_in_order() {
    let base = tok("a\nc\n");
    let local = tok("a\nL\nc\n");
    let remote = tok("a\nR\nc\n");
    let regions = reconcile_hunks(
        &base,
        &local,
        &remote,
        &[hunk(1, 1, 1, 2)],
        &[hunk(1, 1, 1, 2)],
    );
    assert_eq!(regions.len(), 4);
    assert!(matches!(regions[1], DiffRegion::LocalOnly { .. }));
    assert!(matches!(regions[2], DiffRegion::RemoteOnly { .. }));
}

#[test]
fn hunks_none_is_all_unchanged() {
    let base = tok("a\nb\n");
    let regions = reconcile_hunks(&base, &base, &base, &[], &[]);
    assert_eq!(regions.len(), 1);
    match &regions[0] {
        DiffRegion::Unchanged { lines } => assert_eq!(texts(lines), vec!["a", "b"]),
        _ => panic!("expected one unchanged region"),
    }
    let empty: Vec<Line> = Vec::new();
    assert!(reconcile_hunks(&empty, &empty, &empty, &[], &[]).is_empty());
}

fn base_texts(regions: &[DiffRegion]) -> Vec<String> {
    let mut out = Vec::new();
    for r in regions {
        let lines: &[Line] = match r {
            DiffRegion::Unchanged { lines } => lines,
            DiffRegion::LocalOnly { base, .. } => base,
            DiffRegion::RemoteOnly { base, .. } => base,
            DiffRegion::BothSame { base, .. } => base,
            DiffRegion::Conflict { base, .. } => base,
        };
        out.extend(texts(lines));
    }
    out
}

#[test]
fn regions_split_base_once() {
    let base = tok("a\nb\nc\nd\ne\n");
    let local = tok("a\nB\nc\nd\ne\nL\n");
    let remote = tok("a\nb\nC\nR\nd\ne\n");
    let regions = reconcile_hunks(
        &base,
        &local,
        &remote,
        &[hunk(1, 2, 1, 2), hunk(5, 5, 5, 6)],
        &[hunk(2, 3, 2, 4)],
    );
    assert!(!has_conflict(&regions));
    assert_eq!(base_texts(&regions), vec!["a", "b", "c", "d", "e"]);
}

#[test]
fn conflict_sides_differ_through_reconcile() {
    let base = tok("x\ny\n");
    let local = tok("x\nL\n");
    let remote = tok("x\nR\n");
    for r in reconcile(&base, &local, &remote) {
        if let DiffRegion::Conflict { local, remote, .. } = r {
            assert_ne!(texts(local), texts(remote));
        }
    }
}

fn side_texts(regions: &[DiffRegion], local_side: bool) -> Vec<String> {
    let mut out = Vec::new();
    for r in regions {
        let lines: &[Line] = match r {
            DiffRegion::Unchanged { lines } => lines,
            DiffRegion::LocalOnly { base, local } => {
                if local_side {
                    local
                } else {
                    base
                }
            }
            DiffRegion::RemoteOnly { base, remote } => {
                if local_side {
                    base
                } else {
                    remote
                }
            }
            DiffRegion::BothSame { resolved, .. } => resolved,
            DiffRegion::Conflict { local, remote, .. } => {
                if local_side {
                    local
                } else {
                    remote
                }
            }
        };
        out.extend(texts(lines));
    }
    out
}

#[test]
fn insertion_where_other_side_replaces_tiles_base() {
    // local replaces lines 1..3, remote inserts at line 1: the insertion comes first,
    // then the replacement, and no base line is visited twice.
    let base = tok("a\nb\nc\nd\n");
    let local = tok("a\nX\nd\n");
    let remote = tok("a\nI\nb\nc\nd\n");
    let regions = reconcile_hunks(
        &base,
        &local,
        &remote,
        &[hunk(1, 3, 1, 2)],
        &[hunk(1, 1, 1, 2)],
    );
    assert!(!has_conflict(&regions));
    assert_eq!(regions.len(), 4);
    match &regions[0] {
        DiffRegion::Unchanged { lines } => assert_eq!(texts(lines), vec!["a"]),
        _ => panic!("expected the unchanged head"),
    }
    match &regions[1] {
        DiffRegion::RemoteOnly { base, remote } => {
            assert!(base.is_empty());
            assert_eq!(texts(remote), vec!["I"]);
        }
        _ => panic!("expected the remote insertion"),
    }
    match &regions[2] {
        DiffRegion::LocalOnly { base, local } => {
            assert_eq!(texts(base), vec!["b", "c"]);
            assert_eq!(texts(local), vec!["X"]);
        }
        _ => panic!("expected the local replacement"),
    }
    match &regions[3] {
        DiffRegion::Unchanged { lines } => assert_eq!(texts(lines), vec!["d"]),
        _ => panic!("expected the unchanged tail"),
    }
    assert_eq!(base_texts(&regions), vec!["a", "b", "c", "d"]);
    assert_eq!(side_texts(&regions, true), vec!["a", "X", "d"]);
    assert_eq!(side_texts(&regions, false), vec!["a", "I", "b", "c", "d"]);
}

#[test]
fn overlapping_hunks_keep_each_side_whole() {
    let base = tok("a\nb\nc\n");
    let local = tok("a\nX\nc\n");
    let remote = tok("Y\nc\n");
    let regions = reconcile_hunks(
        &base,
        &local,
        &remote,
        &[hunk(1, 2, 1, 2)],
        &[hunk(0, 2, 0, 1)],
    );
    assert_eq!(base_texts(&regions), vec!["a", "b", "c"]);
    assert_eq!(side_texts(&regions, true), vec!["a", "X", "c"]);
    assert_eq!(side_texts(&regions, false), vec!["Y", "c"]);
}

#[test]
fn chained_overlaps_form_one_region() {
    // local 1..3 overlaps remote 2..5, which overlaps local 4..5.
    let base = tok("a\nb\nc\nd\ne\nf\n");
    let local = tok("a\nP\nd\nf\n");
    let remote = tok("a\nb\nR\nf\n");
    let regions = reconcile_hunks(
        &base,
        &local,
        &remote,
        &[hunk(1, 3, 1, 2), hunk(4, 5, 3, 3)],
        &[hunk(2, 5, 2, 3)],
    );
    assert_eq!(regions.len(), 3);
    match &regions[1] {
        DiffRegion::Conflict { base, local, remote } => {
            assert_eq!(texts(base), vec!["b", "c", "d", "e"]);
            assert_eq!(texts(local), vec!["P", "d"]);
            assert_eq!(texts(remote), vec!["b", "R"]);
        }
        _ => panic!("expected one conflict over the chain"),
    }
    assert_eq!(base_texts(&regions), vec!["a", "b", "c", "d", "e", "f"]);
    assert_eq!(side_texts(&regions, true), vec!["a", "P", "d", "f"]);
    assert_eq!(side_texts(&regions, false), vec!["a", "b", "R", "f"]);
}

#[test]
fn regions_read_back_through_reconcile() {
    let base = tok("a\nb\nc\nd\ne\n");
    let local = tok("a\nB\nc\nd\nE\n");
    let remote = tok("a\nb\nC\nd\ne\nF\n");
    let regions = reconcile(&base, &local, &remote);
    assert_eq!(base_texts(&regions), vec!["a", "b", "c", "d", "e"]);
    assert_eq!(side_texts(&regions, true), vec!["a", "B", "c", "d", "E"]);
    assert_eq!(side_texts(&regions, false), vec!["a", "b", "C", "d", "e", "F"]);
}

#[test]
fn single_line_conflict_regions() {
    let base = tok("a\nb\nc\n");
    let local = tok("a\nX\nc\n");
    let remote = tok("a\nY\nc\n");
    let regions = reconcile_hunks(
        &base,
        &local,
        &remote,
        &[hunk(1, 2, 1, 2)],
        &[hunk(1, 2, 1, 2)],
    );
    assert_eq!(regions.len(), 3);
    match &regions[0] {
        DiffRegion::Unchanged { lines } => assert_eq!(texts(lines), vec!["a"]),
        _ => panic!("expected the unchanged head"),
    }
    match &regions[1] {
        DiffRegion::Conflict { base, local, remote } => {
            assert_eq!(texts(base), vec!["b"]);
            assert_eq!(texts(local), vec!["X"]);
            assert_eq!(texts(remote), vec!["Y"]);
        }
        _ => panic!("expected one conflict"),
    }
    match &regions[2] {
        DiffRegion::Unchanged { lines } => assert_eq!(texts(lines), vec!["c"]),
        _ => panic!("expected the unchanged tail"),
    }
}

#[test]
fn one_side_unchanged_takes_other_side_only() {
    let base = tok("a\nb\nc\nd\n");
    let local = tok("a\nb\nc\nd\n");
    let remote = tok("a\nB\nc\nD\nE\n");
    for r in reconcile(&base, &local, &remote) {
        assert!(matches!(
            r,
            DiffRegion::Unchanged { .. } | DiffRegion::RemoteOnly { .. }
        ));
    }
}
