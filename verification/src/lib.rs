pub mod diff3;
pub mod error;
pub mod output;
pub mod tokenizer;

use vstd::prelude::*;
use vstd::utf8::valid_utf8;

use crate::diff3::{
    base_lines, contents, histogram_line_diff, kept_lines, law_local_only_change_taken,
    law_no_changes_keep_base, law_regions_read_back_sides, law_regions_split_base,
    law_lf_lines_stay_lf, law_local_change_shows, law_remote_change_shows,
    law_remote_only_change_taken, law_same_changes_agree, lemma_lf_lines_equal,
    lemma_shape_base_ordered,
    line_diff_facts, local_lines, only_local_changes, only_remote_changes, reconcile,
    reconcile_spec, remote_lines,
};
use crate::error::MergeError;
use crate::output::{
    law_conflict_free_renders_kept_lines, law_outcome_of_agreed, outcome_of, render_regions,
    write_merged, ConflictStyle, Labels, LabelsView, MergeOutcome,
};
use crate::tokenizer::{
    lemma_split_lines_lf, lemma_split_render_roundtrip, lf_text, longest_valid_prefix, render_lines, split_lines, tokenize,
    view_lines, Line,
};

verus! {

/// The regions of merging the three inputs, all of them UTF-8.
pub open spec fn merge_regions(base: Seq<u8>, local: Seq<u8>, remote: Seq<u8>) -> Seq<
    crate::diff3::RegionView,
> {
    reconcile_spec(split_lines(base), split_lines(local), split_lines(remote))
}

/// Each input is well-formed UTF-8.
pub open spec fn all_utf8(base: Seq<u8>, local: Seq<u8>, remote: Seq<u8>) -> bool {
    valid_utf8(base) && valid_utf8(local) && valid_utf8(remote)
}

/// Where the first input that is not UTF-8, taken in the order base, local, remote,
/// stops being valid: `position` is the length of its longest valid prefix.
pub open spec fn first_utf8_error_at(base: Seq<u8>, local: Seq<u8>, remote: Seq<u8>, position: int) -> bool {
    if !valid_utf8(base) {
        longest_valid_prefix(base, position)
    } else if !valid_utf8(local) {
        longest_valid_prefix(local, position)
    } else {
        longest_valid_prefix(remote, position)
    }
}

/// The two texts have the same lines, terminators left aside.
pub open spec fn same_line_contents(a: Seq<u8>, b: Seq<u8>) -> bool {
    contents(split_lines(a)) == contents(split_lines(b))
}

/// What merging three inputs appends to `before`, giving `after`, with the outcome: the
/// rendering of `merge_regions` and the outcome those regions call for, where the
/// regions split the base's lines in order and, read side by side, give back the lines
/// of each side; moreover, three
/// identical inputs merge cleanly into themselves; when one side has the base's lines,
/// every region keeps the base or takes the other side, with no conflict, and the
/// merged lines have the other side's contents; and when both sides have the same
/// lines, the merge is clean and the merged lines have their contents. Where every line
/// of the inputs involved ends in `\n`, this holds byte for byte: two equal sides
/// merge cleanly into themselves, and when one side is the base the merge writes the
/// other side, Clean when it has the base's lines and AutoResolved otherwise.
pub open spec fn merge_appends(
    base: Seq<u8>,
    local: Seq<u8>,
    remote: Seq<u8>,
    style: ConflictStyle,
    labels: LabelsView,
    before: Seq<u8>,
    after: Seq<u8>,
    outcome: MergeOutcome,
) -> bool {
    let rs = merge_regions(base, local, remote);
    let kept = kept_lines(rs);
    &&& after == before + render_regions(rs, style, labels)
    &&& outcome == outcome_of(rs)
    &&& base_lines(rs) == split_lines(base)
    &&& contents(local_lines(rs)) == contents(split_lines(local))
    &&& contents(remote_lines(rs)) == contents(split_lines(remote))
    &&& local == base && remote == base ==> {
        &&& after == before + base
        &&& outcome == MergeOutcome::Clean
    }
    &&& same_line_contents(local, base) ==> {
        &&& only_remote_changes(rs)
        &&& outcome != MergeOutcome::Conflict
        &&& after == before + render_lines(kept)
        &&& contents(kept) == contents(split_lines(remote))
    }
    &&& same_line_contents(remote, base) ==> {
        &&& only_local_changes(rs)
        &&& outcome != MergeOutcome::Conflict
        &&& after == before + render_lines(kept)
        &&& contents(kept) == contents(split_lines(local))
    }
    &&& same_line_contents(local, remote) ==> {
        &&& outcome == MergeOutcome::Clean
        &&& after == before + render_lines(kept)
        &&& contents(kept) == contents(split_lines(local))
    }
    &&& local == remote && lf_text(base) && lf_text(local) ==> {
        &&& after == before + local
        &&& outcome == MergeOutcome::Clean
    }
    &&& local == base && lf_text(base) && lf_text(remote) ==> {
        &&& after == before + remote
        &&& outcome == if same_line_contents(remote, base) {
            MergeOutcome::Clean
        } else {
            MergeOutcome::AutoResolved
        }
    }
    &&& remote == base && lf_text(base) && lf_text(local) ==> {
        &&& after == before + local
        &&& outcome == if same_line_contents(local, base) {
            MergeOutcome::Clean
        } else {
            MergeOutcome::AutoResolved
        }
    }
}

/// What the laws of the walk give for the bytes and the outcome of a merge.
proof fn lemma_merge_regions(
    base: Seq<u8>,
    local: Seq<u8>,
    remote: Seq<u8>,
    style: ConflictStyle,
    labels: LabelsView,
    before: Seq<u8>,
    after: Seq<u8>,
    outcome: MergeOutcome,
)
    requires
        line_diff_facts(split_lines(base), split_lines(local)),
        line_diff_facts(split_lines(base), split_lines(remote)),
        after == before + render_regions(merge_regions(base, local, remote), style, labels),
        outcome == outcome_of(merge_regions(base, local, remote)),
    ensures
        merge_appends(base, local, remote, style, labels, before, after, outcome),
{
    let b = split_lines(base);
    let l = split_lines(local);
    let r = split_lines(remote);
    let lh = histogram_line_diff(contents(b), contents(l));
    let rh = histogram_line_diff(contents(b), contents(r));
    let rs = merge_regions(base, local, remote);
    lemma_shape_base_ordered(lh, b.len(), l.len());
    lemma_shape_base_ordered(rh, b.len(), r.len());
    law_regions_split_base(b, l, r, lh, rh);
    law_regions_read_back_sides(b, l, r, lh, rh);
    law_outcome_of_agreed(rs);
    if local == base && remote == base {
        law_no_changes_keep_base(b, l, r, lh, rh);
        law_conflict_free_renders_kept_lines(rs, style, labels);
        lemma_split_render_roundtrip(base);
    }
    if same_line_contents(local, base) {
        law_remote_only_change_taken(b, l, r, lh, rh);
        law_conflict_free_renders_kept_lines(rs, style, labels);
    }
    if same_line_contents(remote, base) {
        law_local_only_change_taken(b, l, r, lh, rh);
        law_conflict_free_renders_kept_lines(rs, style, labels);
    }
    if same_line_contents(local, remote) {
        law_same_changes_agree(b, l, r, lh);
        law_conflict_free_renders_kept_lines(rs, style, labels);
    }
    if local == remote && lf_text(base) && lf_text(local) {
        lemma_split_lines_lf(base);
        lemma_split_lines_lf(local);
        law_lf_lines_stay_lf(b, l, r, lh, rh);
        lemma_lf_lines_equal(kept_lines(rs), l);
        lemma_split_render_roundtrip(local);
    }
    if local == base && lf_text(base) && lf_text(remote) {
        lemma_split_lines_lf(base);
        lemma_split_lines_lf(remote);
        law_lf_lines_stay_lf(b, l, r, lh, rh);
        lemma_lf_lines_equal(kept_lines(rs), r);
        lemma_split_render_roundtrip(remote);
        if !same_line_contents(remote, base) {
            law_remote_change_shows(b, l, r, lh, rh);
            let k = choose|k: int| 0 <= k < rs.len() && #[trigger] rs[k] is RemoteOnly;
            assert(rs[k] is LocalOnly || rs[k] is RemoteOnly);
        }
    }
    if remote == base && lf_text(base) && lf_text(local) {
        lemma_split_lines_lf(base);
        lemma_split_lines_lf(local);
        law_lf_lines_stay_lf(b, l, r, lh, rh);
        lemma_lf_lines_equal(kept_lines(rs), l);
        lemma_split_render_roundtrip(local);
        if !same_line_contents(local, base) {
            law_local_change_shows(b, l, r, lh, rh);
            let k = choose|k: int| 0 <= k < rs.len() && #[trigger] rs[k] is LocalOnly;
            assert(rs[k] is LocalOnly || rs[k] is RemoteOnly);
        }
    }
}

/// Merges the lines of three inputs, appending the merged text to `out`.
fn merge_lines(
    base_lines: &[Line],
    local_lines: &[Line],
    remote_lines: &[Line],
    inputs: Ghost<(Seq<u8>, Seq<u8>, Seq<u8>)>,
    out: &mut Vec<u8>,
    style: ConflictStyle,
    labels: &Labels<'_>,
) -> (outcome: MergeOutcome)
    requires
        view_lines(base_lines@) == split_lines(inputs@.0),
        view_lines(local_lines@) == split_lines(inputs@.1),
        view_lines(remote_lines@) == split_lines(inputs@.2),
        split_lines(inputs@.0).len() < i32::MAX,
        split_lines(inputs@.1).len() < i32::MAX,
        split_lines(inputs@.2).len() < i32::MAX,
    ensures
        merge_appends(inputs@.0, inputs@.1, inputs@.2, style, labels@, old(out)@, final(out)@, outcome),
{
    let ghost (base, local, remote) = inputs@;
    let regions = reconcile(base_lines, local_lines, remote_lines);
    let ghost before = out@;
    let outcome = write_merged(regions.as_slice(), out, style, labels);
    proof {
        lemma_merge_regions(base, local, remote, style, labels@, before, out@, outcome);
    }
    outcome
}

/// Merge base/local/remote bytes, appending the merged text to `out`.
///
/// Fails exactly when an input is not UTF-8, and then writes nothing; the error's
/// position is in the first such input, in the order base, local, remote. Otherwise the
/// bytes appended are the rendering of `merge_regions`, and the outcome is the one
/// that those regions call for. Moreover: three identical inputs merge cleanly into
/// themselves; when one side has the base's lines, the other side's change is taken
/// without conflict; and when both sides have the same lines, the merge is clean. Where
/// the inputs' lines all end in `\n`, equal sides merge into themselves and a side
/// equal to the base gives the other side, byte for byte.
pub fn merge(
    base: &[u8],
    local: &[u8],
    remote: &[u8],
    out: &mut Vec<u8>,
    style: ConflictStyle,
    labels: &Labels<'_>,
) -> (r: Result<MergeOutcome, MergeError>)
    requires
        all_utf8(base@, local@, remote@) ==> {
            &&& split_lines(base@).len() < i32::MAX
            &&& split_lines(local@).len() < i32::MAX
            &&& split_lines(remote@).len() < i32::MAX
        },
    ensures
        r is Ok <==> all_utf8(base@, local@, remote@),
        r matches Err(e) ==> e is Utf8 && final(out)@ == old(out)@,
        r matches Err(MergeError::Utf8 { position, .. }) ==> first_utf8_error_at(
            base@,
            local@,
            remote@,
            position as int,
        ),
        r matches Ok(outcome) ==> merge_appends(
            base@,
            local@,
            remote@,
            style,
            labels@,
            old(out)@,
            final(out)@,
            outcome,
        ),
{
    let base_lines = match tokenize(base) {
        Ok(lines) => lines,
        Err(e) => return Err(e),
    };
    let local_lines = match tokenize(local) {
        Ok(lines) => lines,
        Err(e) => return Err(e),
    };
    let remote_lines = match tokenize(remote) {
        Ok(lines) => lines,
        Err(e) => return Err(e),
    };
    let outcome = merge_lines(
        base_lines.as_slice(),
        local_lines.as_slice(),
        remote_lines.as_slice(),
        Ghost((base@, local@, remote@)),
        out,
        style,
        labels,
    );
    Ok(outcome)
}

} // verus!
