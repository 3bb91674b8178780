use vstd::prelude::*;

use crate::output::same_text;
use crate::tokenizer::{all_lf, lemma_view_lines_subrange, view_lines, Eol, Line, LineView};
use imara_diff::{Algorithm, Diff, InternedInput};

verus! {

/// One stretch of the merge: which side's lines it keeps and what the base held there.
pub enum DiffRegion<'a> {
    Unchanged { lines: &'a [Line<'a>] },
    LocalOnly { base: &'a [Line<'a>], local: &'a [Line<'a>] },
    RemoteOnly { base: &'a [Line<'a>], remote: &'a [Line<'a>] },
    BothSame { base: &'a [Line<'a>], resolved: &'a [Line<'a>] },
    Conflict { base: &'a [Line<'a>], local: &'a [Line<'a>], remote: &'a [Line<'a>] },
}

/// A region as the lines it holds.
pub enum RegionView {
    Unchanged { lines: Seq<LineView> },
    LocalOnly { base: Seq<LineView>, local: Seq<LineView> },
    RemoteOnly { base: Seq<LineView>, remote: Seq<LineView> },
    BothSame { base: Seq<LineView>, resolved: Seq<LineView> },
    Conflict { base: Seq<LineView>, local: Seq<LineView>, remote: Seq<LineView> },
}

impl<'a> View for DiffRegion<'a> {
    type V = RegionView;

    open spec fn view(&self) -> RegionView {
        match *self {
            DiffRegion::Unchanged { lines } => RegionView::Unchanged { lines: view_lines(lines@) },
            DiffRegion::LocalOnly { base, local } => RegionView::LocalOnly {
                base: view_lines(base@),
                local: view_lines(local@),
            },
            DiffRegion::RemoteOnly { base, remote } => RegionView::RemoteOnly {
                base: view_lines(base@),
                remote: view_lines(remote@),
            },
            DiffRegion::BothSame { base, resolved } => RegionView::BothSame {
                base: view_lines(base@),
                resolved: view_lines(resolved@),
            },
            DiffRegion::Conflict { base, local, remote } => RegionView::Conflict {
                base: view_lines(base@),
                local: view_lines(local@),
                remote: view_lines(remote@),
            },
        }
    }
}

/// The views of a sequence of regions.
pub open spec fn view_regions<'a>(regions: Seq<DiffRegion<'a>>) -> Seq<RegionView> {
    regions.map_values(|r: DiffRegion<'a>| r@)
}


/// A change that a two-way diff found: lines `before_start..before_end` of the base
/// were replaced by lines `after_start..after_end` of the other side.
#[derive(Debug, Clone, Copy, PartialEq, Eq, Structural)]
pub struct Hunk {
    pub before_start: u32,
    pub before_end: u32,
    pub after_start: u32,
    pub after_end: u32,
}

/// The contents of a sequence of lines, terminators left out.
pub open spec fn contents(lines: Seq<LineView>) -> Seq<Seq<u8>> {
    lines.map_values(|l: LineView| l.content)
}

/// The hunks that imara-diff's histogram diff, post-processed for lines, finds
/// between two sequences of line contents.
pub uninterp spec fn histogram_line_diff(before: Seq<Seq<u8>>, after: Seq<Seq<u8>>) -> Seq<Hunk>;

/// Every hunk's ranges are ordered and lie within sequences of the given lengths.
pub open spec fn hunks_fit(hunks: Seq<Hunk>, before_len: nat, after_len: nat) -> bool {
    forall|k: int|
        #![trigger hunks[k]]
        0 <= k < hunks.len() ==> {
            &&& hunks[k].before_start <= hunks[k].before_end
            &&& hunks[k].before_end <= before_len
            &&& hunks[k].after_start <= hunks[k].after_end
            &&& hunks[k].after_end <= after_len
        }
}

/// Where the base stretch before hunk `k` starts (after the last hunk when `k` is the
/// number of hunks).
pub open spec fn gap_before_start(h: Seq<Hunk>, k: int) -> int {
    if k == 0 {
        0
    } else {
        h[k - 1].before_end as int
    }
}

/// Where the base stretch before hunk `k` ends.
pub open spec fn gap_before_end(h: Seq<Hunk>, k: int, len: nat) -> int {
    if k == h.len() {
        len as int
    } else {
        h[k].before_start as int
    }
}

/// Where the other side's stretch before hunk `k` starts.
pub open spec fn gap_after_start(h: Seq<Hunk>, k: int) -> int {
    if k == 0 {
        0
    } else {
        h[k - 1].after_end as int
    }
}

/// Where the other side's stretch before hunk `k` ends.
pub open spec fn gap_after_end(h: Seq<Hunk>, k: int, len: nat) -> int {
    if k == h.len() {
        len as int
    } else {
        h[k].after_start as int
    }
}

/// The hunks are in strictly increasing order on the base.
pub open spec fn hunks_ordered(h: Seq<Hunk>) -> bool {
    forall|i: int, j: int|
        0 <= i < j < h.len() ==> #[trigger] h[i].before_end < #[trigger] h[j].before_start
}

/// Every hunk's base range is ordered and lies in a base of `len` lines, and the hunks
/// come in strictly increasing order on the base.
pub open spec fn base_ordered(h: Seq<Hunk>, len: nat) -> bool {
    &&& forall|k: int|
        #![trigger h[k]]
        0 <= k < h.len() ==> h[k].before_start <= h[k].before_end <= len
    &&& hunks_ordered(h)
}

/// The hunks have the shape of an edit script from `before_len` items to `after_len`
/// items: ranges that fit, strictly increasing on both sides, and stretches between
/// hunks of equal length on both sides.
pub open spec fn edit_shape(h: Seq<Hunk>, before_len: nat, after_len: nat) -> bool {
    &&& hunks_fit(h, before_len, after_len)
    &&& hunks_ordered(h)
    &&& forall|i: int, j: int|
        0 <= i < j < h.len() ==> #[trigger] h[i].after_end < #[trigger] h[j].after_start
    &&& forall|k: int|
        0 <= k <= h.len() ==> gap_before_end(h, k, before_len) - #[trigger] gap_before_start(h, k)
            == gap_after_end(h, k, after_len) - gap_after_start(h, k)
}

/// The hunks turn `before` into `after`: they have the shape of an edit script, and
/// outside the hunks the two sequences hold the same items, stretch for stretch.
pub open spec fn edit_script(before: Seq<Seq<u8>>, after: Seq<Seq<u8>>, h: Seq<Hunk>) -> bool {
    &&& edit_shape(h, before.len(), after.len())
    &&& forall|k: int|
        0 <= k <= h.len() ==> before.subrange(
            #[trigger] gap_before_start(h, k),
            gap_before_end(h, k, before.len()),
        ) == after.subrange(gap_after_start(h, k), gap_after_end(h, k, after.len()))
}

/// Every hunk changes something: it removes or adds at least one item.
pub open spec fn hunks_nonempty(h: Seq<Hunk>) -> bool {
    forall|k: int|
        #![trigger h[k]]
        0 <= k < h.len() ==> h[k].before_start < h[k].before_end || h[k].after_start
            < h[k].after_end
}

/// What is known of imara-diff's line diff from `before` to `after`.
pub open spec fn line_diff_facts(before: Seq<LineView>, after: Seq<LineView>) -> bool {
    let h = histogram_line_diff(contents(before), contents(after));
    &&& edit_script(contents(before), contents(after), h)
    &&& hunks_nonempty(h)
    &&& (contents(before) == contents(after) ==> h.len() == 0)
}

/// The line diff of imara-diff: `InternedInput` over the line contents,
/// `Diff::compute` with `Algorithm::Histogram`, `Diff::postprocess_lines`, then
/// `Diff::hunks`. Claims: the result is `histogram_line_diff` of the two content
/// sequences; it is an edit script from the first to the second (the crate documents
/// `Diff::compute` as computing "an edit-script that transforms `before` into
/// `after`", and `HunkIter` as yielding hunks in strictly increasing order); every
/// hunk removes or adds a line (`HunkIter::next` yields a hunk only when it counted a
/// removal or an addition); and equal sequences give no hunk (`Diff::compute_with`
/// strips the common prefix before running the algorithm, so nothing is marked
/// changed). `Diff::compute_with` asserts that each side has fewer than `i32::MAX`
/// tokens.
#[verifier::external_body]
fn diff_lines(base: &[Line], modified: &[Line]) -> (r: Vec<Hunk>)
    requires
        base@.len() < i32::MAX,
        modified@.len() < i32::MAX,
    ensures
        r@ == histogram_line_diff(contents(view_lines(base@)), contents(view_lines(modified@))),
        edit_script(contents(view_lines(base@)), contents(view_lines(modified@)), r@),
        hunks_nonempty(r@),
        contents(view_lines(base@)) == contents(view_lines(modified@)) ==> r@.len() == 0,
{
    let mut input: InternedInput<&str> = InternedInput::default();
    input.update_before(base.iter().map(|l| l.content));
    input.update_after(modified.iter().map(|l| l.content));
    let mut diff = Diff::compute(Algorithm::Histogram, &input);
    diff.postprocess_lines(&input);
    diff.hunks().map(
        |h| Hunk {
            before_start: h.before.start,
            before_end: h.before.end,
            after_start: h.after.start,
            after_end: h.after.end,
        },
    ).collect()
}

/// The two hunks replace base ranges that share at least one line; ranges that only
/// touch do not overlap.
pub open spec fn hunks_overlap(l: Hunk, r: Hunk) -> bool {
    l.before_end > r.before_start && r.before_end > l.before_start
}

/// Both hunks replace the same non-empty base range.
pub open spec fn same_modification(l: Hunk, r: Hunk) -> bool {
    l.before_start == r.before_start && l.before_end == r.before_end && l.before_start
        < l.before_end
}

/// The hunk only inserts: its base range is empty.
pub open spec fn is_insertion(h: Hunk) -> bool {
    h.before_start == h.before_end
}

/// Both hunks insert at the same point of the base.
pub open spec fn same_insertion_point(l: Hunk, r: Hunk) -> bool {
    l.before_start == r.before_start && is_insertion(l) && is_insertion(r)
}

/// The two sequences have the same number of lines with the same contents.
pub open spec fn same_contents(a: Seq<LineView>, b: Seq<LineView>) -> bool {
    a.len() == b.len() && forall|i: int| 0 <= i < a.len() ==> #[trigger] a[i].content
        == b[i].content
}

/// What is left of `n` items once `i` of them are done.
pub open spec fn left(n: nat, i: nat) -> nat {
    if i < n {
        (n - i) as nat
    } else {
        0
    }
}

pub open spec fn min_int(x: int, y: int) -> int {
    if x < y {
        x
    } else {
        y
    }
}

pub open spec fn max_int(x: int, y: int) -> int {
    if x < y {
        y
    } else {
        x
    }
}

/// The base line at which the next hunk of either list starts.
pub open spec fn next_start(lh: Seq<Hunk>, rh: Seq<Hunk>, li: nat, ri: nat) -> int {
    if li < lh.len() && ri < rh.len() {
        min_int(lh[li as int].before_start as int, rh[ri as int].before_start as int)
    } else if li < lh.len() {
        lh[li as int].before_start as int
    } else {
        rh[ri as int].before_start as int
    }
}

/// The base lines from `pos` up to `end`, as one unchanged region when there are any.
pub open spec fn unchanged_between(b: Seq<LineView>, pos: int, end: int) -> Seq<RegionView> {
    if end > pos {
        seq![RegionView::Unchanged { lines: b.subrange(pos, end) }]
    } else {
        seq![]
    }
}

/// The next region starts with the local hunk: it starts first, or both start at the
/// same line and the remote hunk is not an insertion in front of a local change.
pub open spec fn local_first(lh: Seq<Hunk>, rh: Seq<Hunk>, li: nat, ri: nat) -> bool {
    ri >= rh.len() || (li < lh.len() && {
        let x = lh[li as int];
        let y = rh[ri as int];
        x.before_start < y.before_start || (x.before_start == y.before_start && (is_insertion(x)
            || !is_insertion(y)))
    })
}

/// Takes into a region that ends at base line `end` every further hunk, of either side,
/// that starts before `end`, extending the region over it; gives the indices after the
/// hunks taken and where the region ends.
pub open spec fn absorb(lh: Seq<Hunk>, rh: Seq<Hunk>, li: nat, ri: nat, end: int) -> (
    nat,
    nat,
    int,
)
    decreases left(lh.len(), li) + left(rh.len(), ri),
{
    if li < lh.len() && lh[li as int].before_start < end {
        absorb(lh, rh, li + 1, ri, max_int(end, lh[li as int].before_end as int))
    } else if ri < rh.len() && rh[ri as int].before_start < end {
        absorb(lh, rh, li, ri + 1, max_int(end, rh[ri as int].before_end as int))
    } else {
        (li, ri, end)
    }
}

/// The hunks that the next region takes, as the local and remote indices after them,
/// and the base line where the region ends. Two insertions at the same line form a
/// region of their own, and so does an insertion that comes first; a change that comes
/// first takes with it every hunk that overlaps it, and every hunk that overlaps those.
pub open spec fn chunk_bounds(lh: Seq<Hunk>, rh: Seq<Hunk>, li: nat, ri: nat) -> (nat, nat, int) {
    if li < lh.len() && ri < rh.len() && same_insertion_point(lh[li as int], rh[ri as int]) {
        (li + 1, ri + 1, lh[li as int].before_start as int)
    } else if local_first(lh, rh, li, ri) {
        let x = lh[li as int];
        if is_insertion(x) {
            (li + 1, ri, x.before_start as int)
        } else {
            absorb(lh, rh, li + 1, ri, x.before_end as int)
        }
    } else {
        let y = rh[ri as int];
        if is_insertion(y) {
            (li, ri + 1, y.before_start as int)
        } else {
            absorb(lh, rh, li, ri + 1, y.before_end as int)
        }
    }
}

/// Where base line `p` falls in a side whose first `k` hunks lie before it.
pub open spec fn side_pos(h: Seq<Hunk>, k: int, p: int) -> int {
    if k == 0 {
        p
    } else {
        h[k - 1].after_end + (p - h[k - 1].before_end)
    }
}

/// The region for base lines `bs..be`, which take local hunks `li..li2` and remote
/// hunks `ri..ri2`: each side's text over those base lines, taken alone when only one
/// side changed them; when both did, resolved if the two texts agree, both kept (local
/// first) when they are insertions at the same line, and a conflict otherwise.
pub open spec fn chunk_regions(
    b: Seq<LineView>,
    l: Seq<LineView>,
    r: Seq<LineView>,
    lh: Seq<Hunk>,
    rh: Seq<Hunk>,
    li: nat,
    ri: nat,
    li2: nat,
    ri2: nat,
    bs: int,
    be: int,
) -> Seq<RegionView> {
    let bt = b.subrange(bs, be);
    let lt = l.subrange(side_pos(lh, li as int, bs), side_pos(lh, li2 as int, be));
    let rt = r.subrange(side_pos(rh, ri as int, bs), side_pos(rh, ri2 as int, be));
    if ri2 == ri {
        seq![RegionView::LocalOnly { base: bt, local: lt }]
    } else if li2 == li {
        seq![RegionView::RemoteOnly { base: bt, remote: rt }]
    } else if same_contents(lt, rt) {
        seq![RegionView::BothSame { base: bt, resolved: lt }]
    } else if bs == be {
        seq![
            RegionView::LocalOnly { base: bt, local: lt },
            RegionView::RemoteOnly { base: bt, remote: rt },
        ]
    } else {
        seq![RegionView::Conflict { base: bt, local: lt, remote: rt }]
    }
}

proof fn lemma_absorb_progress(lh: Seq<Hunk>, rh: Seq<Hunk>, li: nat, ri: nat, end: int)
    ensures
        ({
            let a = absorb(lh, rh, li, ri, end);
            &&& li <= a.0
            &&& ri <= a.1
            &&& left(lh.len(), a.0) <= left(lh.len(), li)
            &&& left(rh.len(), a.1) <= left(rh.len(), ri)
        }),
    decreases left(lh.len(), li) + left(rh.len(), ri),
{
    if li < lh.len() && lh[li as int].before_start < end {
        lemma_absorb_progress(lh, rh, li + 1, ri, max_int(end, lh[li as int].before_end as int));
    } else if ri < rh.len() && rh[ri as int].before_start < end {
        lemma_absorb_progress(lh, rh, li, ri + 1, max_int(end, rh[ri as int].before_end as int));
    }
}

pub proof fn lemma_chunk_progress(lh: Seq<Hunk>, rh: Seq<Hunk>, li: nat, ri: nat)
    requires
        li < lh.len() || ri < rh.len(),
    ensures
        ({
            let c = chunk_bounds(lh, rh, li, ri);
            &&& li <= c.0
            &&& ri <= c.1
            &&& left(lh.len(), c.0) + left(rh.len(), c.1) < left(lh.len(), li) + left(
                rh.len(),
                ri,
            )
        }),
{
    if li < lh.len() && ri < rh.len() && same_insertion_point(lh[li as int], rh[ri as int]) {
    } else if local_first(lh, rh, li, ri) {
        lemma_absorb_progress(lh, rh, li + 1, ri, lh[li as int].before_end as int);
    } else {
        lemma_absorb_progress(lh, rh, li, ri + 1, rh[ri as int].before_end as int);
    }
}

/// The regions that the walk over both hunk lists yields, from local hunk `li`,
/// remote hunk `ri` and base line `pos` on: the base lines before the next hunk are
/// unchanged, then the next region takes the hunks that `chunk_bounds` groups; once
/// both lists are done, the rest of the base is unchanged.
pub open spec fn walk(
    b: Seq<LineView>,
    l: Seq<LineView>,
    r: Seq<LineView>,
    lh: Seq<Hunk>,
    rh: Seq<Hunk>,
    li: nat,
    ri: nat,
    pos: int,
) -> Seq<RegionView>
    decreases left(lh.len(), li) + left(rh.len(), ri),
{
    if li >= lh.len() && ri >= rh.len() {
        unchanged_between(b, pos, b.len() as int)
    } else {
        let ue = next_start(lh, rh, li, ri);
        let c = chunk_bounds(lh, rh, li, ri);
        proof {
            lemma_chunk_progress(lh, rh, li, ri);
        }
        unchanged_between(b, pos, ue) + chunk_regions(b, l, r, lh, rh, li, ri, c.0, c.1, ue, c.2)
            + walk(b, l, r, lh, rh, c.0, c.1, c.2)
    }
}

/// The regions of a three-way merge of the given hunk lists.
pub open spec fn reconcile_walk(
    b: Seq<LineView>,
    l: Seq<LineView>,
    r: Seq<LineView>,
    lh: Seq<Hunk>,
    rh: Seq<Hunk>,
) -> Seq<RegionView> {
    walk(b, l, r, lh, rh, 0, 0, 0)
}

/// The regions of a three-way merge, with the hunks of imara-diff's histogram line diff.
pub open spec fn reconcile_spec(b: Seq<LineView>, l: Seq<LineView>, r: Seq<LineView>) -> Seq<
    RegionView,
> {
    reconcile_walk(
        b,
        l,
        r,
        histogram_line_diff(contents(b), contents(l)),
        histogram_line_diff(contents(b), contents(r)),
    )
}

/// Whether two slices of lines have the same contents, line by line.
fn same_lines(a: &[Line], b: &[Line]) -> (r: bool)
    ensures
        r == same_contents(view_lines(a@), view_lines(b@)),
{
    if a.len() != b.len() {
        return false;
    }
    let mut i: usize = 0;
    while i < a.len()
        invariant
            a@.len() == b@.len(),
            i <= a@.len(),
            forall|j: int| 0 <= j < i ==> #[trigger] a@[j]@.content == b@[j]@.content,
        decreases a@.len() - i,
    {
        if !same_text(a[i].content, b[i].content) {
            proof {
                assert(view_lines(a@)[i as int].content != view_lines(b@)[i as int].content);
            }
            return false;
        }
        i += 1;
    }
    proof {
        assert forall|j: int| 0 <= j < view_lines(a@).len() implies #[trigger] view_lines(
            a@,
        )[j].content == view_lines(b@)[j].content by {
            assert(a@[j]@.content == b@[j]@.content);
        }
    }
    true
}


/// Gathers, region after region, the lines that `f` picks from each region.
pub open spec fn gather(rs: Seq<RegionView>, f: spec_fn(RegionView) -> Seq<LineView>) -> Seq<
    LineView,
>
    decreases rs.len(),
{
    if rs.len() == 0 {
        seq![]
    } else {
        gather(rs.drop_last(), f) + f(rs.last())
    }
}

/// The lines a region keeps in the merged text; a conflict keeps none of its own, as it
/// is written out with markers.
pub open spec fn region_lines(r: RegionView) -> Seq<LineView> {
    match r {
        RegionView::Unchanged { lines } => lines,
        RegionView::LocalOnly { local, .. } => local,
        RegionView::RemoteOnly { remote, .. } => remote,
        RegionView::BothSame { resolved, .. } => resolved,
        RegionView::Conflict { .. } => seq![],
    }
}

/// The base lines a region stands for.
pub open spec fn region_base(r: RegionView) -> Seq<LineView> {
    match r {
        RegionView::Unchanged { lines } => lines,
        RegionView::LocalOnly { base, .. } => base,
        RegionView::RemoteOnly { base, .. } => base,
        RegionView::BothSame { base, .. } => base,
        RegionView::Conflict { base, .. } => base,
    }
}

/// The local side's lines over a region: the base where only the remote side changed it.
pub open spec fn region_local(r: RegionView) -> Seq<LineView> {
    match r {
        RegionView::Unchanged { lines } => lines,
        RegionView::LocalOnly { local, .. } => local,
        RegionView::RemoteOnly { base, .. } => base,
        RegionView::BothSame { resolved, .. } => resolved,
        RegionView::Conflict { local, .. } => local,
    }
}

/// The remote side's lines over a region: the base where only the local side changed it.
pub open spec fn region_remote(r: RegionView) -> Seq<LineView> {
    match r {
        RegionView::Unchanged { lines } => lines,
        RegionView::LocalOnly { base, .. } => base,
        RegionView::RemoteOnly { remote, .. } => remote,
        RegionView::BothSame { resolved, .. } => resolved,
        RegionView::Conflict { remote, .. } => remote,
    }
}

/// The lines that a sequence of regions keeps, one region after the other.
pub open spec fn kept_lines(rs: Seq<RegionView>) -> Seq<LineView> {
    gather(rs, |r: RegionView| region_lines(r))
}

/// The base lines that a sequence of regions stands for, one region after the other.
pub open spec fn base_lines(rs: Seq<RegionView>) -> Seq<LineView> {
    gather(rs, |r: RegionView| region_base(r))
}

/// The local side as the regions tell it, one region after the other.
pub open spec fn local_lines(rs: Seq<RegionView>) -> Seq<LineView> {
    gather(rs, |r: RegionView| region_local(r))
}

/// The remote side as the regions tell it, one region after the other.
pub open spec fn remote_lines(rs: Seq<RegionView>) -> Seq<LineView> {
    gather(rs, |r: RegionView| region_remote(r))
}

pub proof fn lemma_gather_concat(
    a: Seq<RegionView>,
    b: Seq<RegionView>,
    f: spec_fn(RegionView) -> Seq<LineView>,
)
    ensures
        gather(a + b, f) == gather(a, f) + gather(b, f),
    decreases b.len(),
{
    if b.len() == 0 {
        assert(a + b =~= a);
        assert(gather(a, f) + gather(b, f) =~= gather(a, f));
    } else {
        lemma_gather_concat(a, b.drop_last(), f);
        assert((a + b).drop_last() =~= a + b.drop_last());
        assert(gather(a + b, f) =~= gather(a, f) + gather(b, f));
    }
}

pub proof fn lemma_gather_single(r: RegionView, f: spec_fn(RegionView) -> Seq<LineView>)
    ensures
        gather(seq![r], f) == f(r),
{
    assert(seq![r].drop_last() =~= Seq::<RegionView>::empty());
    assert(gather(Seq::<RegionView>::empty(), f) + f(r) =~= f(r));
}

pub proof fn lemma_gather_pair(
    r1: RegionView,
    r2: RegionView,
    f: spec_fn(RegionView) -> Seq<LineView>,
)
    ensures
        gather(seq![r1, r2], f) == f(r1) + f(r2),
{
    assert(seq![r1, r2] =~= seq![r1] + seq![r2]);
    lemma_gather_concat(seq![r1], seq![r2], f);
    lemma_gather_single(r1, f);
    lemma_gather_single(r2, f);
}

/// The position facts that hold between steps of the walk: the indices are in range,
/// the hunks already taken end at or before `pos`, and those left start at or after it.
pub open spec fn walk_state(lh: Seq<Hunk>, rh: Seq<Hunk>, blen: nat, li: nat, ri: nat, pos: int) -> bool {
    &&& li <= lh.len()
    &&& ri <= rh.len()
    &&& 0 <= pos <= blen
    &&& (li > 0 ==> lh[li - 1].before_end <= pos)
    &&& (ri > 0 ==> rh[ri - 1].before_end <= pos)
    &&& (li < lh.len() ==> pos <= lh[li as int].before_start)
    &&& (ri < rh.len() ==> pos <= rh[ri as int].before_start)
}

proof fn lemma_absorb_state(
    lh: Seq<Hunk>,
    rh: Seq<Hunk>,
    blen: nat,
    li: nat,
    ri: nat,
    end: int,
)
    requires
        base_ordered(lh, blen),
        base_ordered(rh, blen),
        li <= lh.len(),
        ri <= rh.len(),
        0 <= end <= blen,
        li > 0 ==> lh[li - 1].before_end <= end,
        ri > 0 ==> rh[ri - 1].before_end <= end,
    ensures
        ({
            let a = absorb(lh, rh, li, ri, end);
            &&& li <= a.0 <= lh.len()
            &&& ri <= a.1 <= rh.len()
            &&& end <= a.2 <= blen
            &&& a.0 > 0 ==> lh[a.0 - 1].before_end <= a.2
            &&& a.1 > 0 ==> rh[a.1 - 1].before_end <= a.2
            &&& a.0 < lh.len() ==> a.2 <= lh[a.0 as int].before_start
            &&& a.1 < rh.len() ==> a.2 <= rh[a.1 as int].before_start
        }),
    decreases left(lh.len(), li) + left(rh.len(), ri),
{
    if li < lh.len() && lh[li as int].before_start < end {
        assert(lh[li as int].before_end <= blen);
        lemma_absorb_state(lh, rh, blen, li + 1, ri, max_int(end, lh[li as int].before_end as int));
    } else if ri < rh.len() && rh[ri as int].before_start < end {
        assert(rh[ri as int].before_end <= blen);
        lemma_absorb_state(lh, rh, blen, li, ri + 1, max_int(end, rh[ri as int].before_end as int));
    }
}

/// One step of the walk keeps the position facts, and its region covers base lines
/// from the next hunk's start on.
pub proof fn lemma_chunk_state(
    lh: Seq<Hunk>,
    rh: Seq<Hunk>,
    blen: nat,
    li: nat,
    ri: nat,
    pos: int,
)
    requires
        base_ordered(lh, blen),
        base_ordered(rh, blen),
        walk_state(lh, rh, blen, li, ri, pos),
        li < lh.len() || ri < rh.len(),
    ensures
        ({
            let ue = next_start(lh, rh, li, ri);
            let c = chunk_bounds(lh, rh, li, ri);
            &&& pos <= ue <= c.2
            &&& walk_state(lh, rh, blen, c.0, c.1, c.2)
            &&& walk_state(lh, rh, blen, li, ri, ue)
            &&& li <= c.0
            &&& ri <= c.1
        }),
{
    let ue = next_start(lh, rh, li, ri);
    if li < lh.len() {
        assert(lh[li as int].before_end <= blen);
    }
    if ri < rh.len() {
        assert(rh[ri as int].before_end <= blen);
    }
    if li < lh.len() && ri < rh.len() && same_insertion_point(lh[li as int], rh[ri as int]) {
        if li + 1 < lh.len() {
            assert(lh[li as int].before_end < lh[li + 1 as int].before_start);
        }
        if ri + 1 < rh.len() {
            assert(rh[ri as int].before_end < rh[ri + 1 as int].before_start);
        }
    } else if local_first(lh, rh, li, ri) {
        let x = lh[li as int];
        if li + 1 < lh.len() {
            assert(x.before_end < lh[li + 1 as int].before_start);
        }
        if !is_insertion(x) {
            lemma_absorb_state(lh, rh, blen, li + 1, ri, x.before_end as int);
            let a = absorb(lh, rh, li + 1, ri, x.before_end as int);
            if a.0 < lh.len() {
                assert(lh[a.0 - 1].before_end < lh[a.0 as int].before_start);
            }
        } else {
            if ri < rh.len() {
                assert(x.before_start <= rh[ri as int].before_start);
            }
        }
    } else {
        let y = rh[ri as int];
        if ri + 1 < rh.len() {
            assert(y.before_end < rh[ri + 1 as int].before_start);
        }
        if !is_insertion(y) {
            lemma_absorb_state(lh, rh, blen, li, ri + 1, y.before_end as int);
        } else {
            if li < lh.len() {
                assert(y.before_start <= lh[li as int].before_start);
            }
        }
    }
}


/// No local hunk overlaps a remote hunk, and no two of them replace the same
/// non-empty base range: the two sides changed separate (at most touching) places.
pub open spec fn separate_changes(lh: Seq<Hunk>, rh: Seq<Hunk>) -> bool {
    forall|i: int, j: int|
        0 <= i < lh.len() && 0 <= j < rh.len() ==> !hunks_overlap(#[trigger] lh[i], #[trigger] rh[j])
            && !same_modification(lh[i], rh[j])
}

/// No region of `rs` is a conflict.
pub open spec fn conflict_free(rs: Seq<RegionView>) -> bool {
    forall|k: int| 0 <= k < rs.len() ==> !(#[trigger] rs[k] is Conflict)
}

/// Every region of `rs` keeps the base or a change that both sides made.
pub open spec fn only_agreed(rs: Seq<RegionView>) -> bool {
    forall|k: int| 0 <= k < rs.len() ==> (#[trigger] rs[k] is Unchanged || rs[k] is BothSame)
}

/// Every region of `rs` keeps the base or takes the remote side.
pub open spec fn only_remote_changes(rs: Seq<RegionView>) -> bool {
    forall|k: int| 0 <= k < rs.len() ==> (#[trigger] rs[k] is Unchanged || rs[k] is RemoteOnly)
}

/// Every region of `rs` keeps the base or takes the local side.
pub open spec fn only_local_changes(rs: Seq<RegionView>) -> bool {
    forall|k: int| 0 <= k < rs.len() ==> (#[trigger] rs[k] is Unchanged || rs[k] is LocalOnly)
}

/// In every conflict region the two sides hold different lines.
pub open spec fn conflicts_disagree(rs: Seq<RegionView>) -> bool {
    forall|k: int|
        0 <= k < rs.len() ==> (#[trigger] rs[k] matches RegionView::Conflict { local, remote, .. }
            ==> !same_contents(local, remote))
}

/// Unchanged regions hold at least one line, and no two of them follow each other.
pub open spec fn unchanged_well_placed(rs: Seq<RegionView>) -> bool {
    &&& forall|k: int|
        0 <= k < rs.len() ==> (#[trigger] rs[k] matches RegionView::Unchanged { lines }
            ==> lines.len() > 0)
    &&& forall|k: int|
        0 <= k < rs.len() - 1 ==> !(#[trigger] rs[k] is Unchanged && rs[k + 1] is Unchanged)
}


/// Base line `p` lies between hunk `k - 1` and hunk `k`.
pub open spec fn in_gap(h: Seq<Hunk>, k: int, p: int) -> bool {
    &&& (k == 0 || h[k - 1].before_end <= p)
    &&& (k == h.len() || p <= h[k].before_start)
}

pub proof fn lemma_shape_base_ordered(h: Seq<Hunk>, blen: nat, slen: nat)
    requires
        edit_shape(h, blen, slen),
    ensures
        base_ordered(h, blen),
{
    assert forall|k: int| 0 <= k < h.len() implies #[trigger] h[k].before_start <= h[k].before_end
        <= blen by {
        assert(hunks_fit(h, blen, slen));
    }
}

/// A base line between two hunks falls, on the other side, in the matching stretch.
pub proof fn lemma_side_pos(h: Seq<Hunk>, blen: nat, slen: nat, k: int, p: int)
    requires
        edit_shape(h, blen, slen),
        0 <= k <= h.len(),
        0 <= p <= blen,
        in_gap(h, k, p),
    ensures
        gap_after_start(h, k) <= side_pos(h, k, p) <= gap_after_end(h, k, slen),
        0 <= side_pos(h, k, p) <= slen,
        side_pos(h, k, p) - gap_after_start(h, k) == p - gap_before_start(h, k),
{
    assert(gap_before_end(h, k, blen) - gap_before_start(h, k) == gap_after_end(h, k, slen)
        - gap_after_start(h, k));
    if k > 0 {
        assert(h[k - 1].after_end <= slen);
    }
    if k < h.len() {
        assert(h[k].after_start <= h[k].after_end <= slen);
        assert(p <= gap_before_end(h, k, blen));
    }
}

pub proof fn lemma_side_pos_mono(
    h: Seq<Hunk>,
    blen: nat,
    slen: nat,
    k0: int,
    p0: int,
    k1: int,
    p1: int,
)
    requires
        edit_shape(h, blen, slen),
        0 <= k0 <= k1 <= h.len(),
        0 <= p0 <= p1 <= blen,
        in_gap(h, k0, p0),
        in_gap(h, k1, p1),
    ensures
        side_pos(h, k0, p0) <= side_pos(h, k1, p1),
{
    lemma_side_pos(h, blen, slen, k0, p0);
    lemma_side_pos(h, blen, slen, k1, p1);
    if k0 < k1 {
        assert(h[k0].after_start <= h[k0].after_end);
        if k0 < k1 - 1 {
            assert(h[k0].after_end < h[k1 - 1].after_start);
            assert(h[k1 - 1].after_start <= h[k1 - 1].after_end);
        }
    }
}

proof fn lemma_base_lines_concat(a: Seq<RegionView>, b: Seq<RegionView>)
    ensures
        base_lines(a + b) == base_lines(a) + base_lines(b),
{
    lemma_gather_concat(a, b, |r: RegionView| region_base(r));
}

proof fn lemma_unchanged_base(b: Seq<LineView>, pos: int, end: int)
    requires
        0 <= pos <= end <= b.len(),
    ensures
        base_lines(unchanged_between(b, pos, end)) == b.subrange(pos, end),
{
    if end > pos {
        lemma_gather_single(RegionView::Unchanged { lines: b.subrange(pos, end) }, |r: RegionView| region_base(r));
    } else {
        assert(b.subrange(pos, end) =~= Seq::<LineView>::empty());
    }
}

proof fn lemma_chunk_base(
    b: Seq<LineView>,
    l: Seq<LineView>,
    r: Seq<LineView>,
    lh: Seq<Hunk>,
    rh: Seq<Hunk>,
    li: nat,
    ri: nat,
    li2: nat,
    ri2: nat,
    bs: int,
    be: int,
)
    requires
        0 <= bs <= be <= b.len(),
    ensures
        base_lines(chunk_regions(b, l, r, lh, rh, li, ri, li2, ri2, bs, be)) == b.subrange(bs, be),
{
    let bt = b.subrange(bs, be);
    let lt = l.subrange(side_pos(lh, li as int, bs), side_pos(lh, li2 as int, be));
    let rt = r.subrange(side_pos(rh, ri as int, bs), side_pos(rh, ri2 as int, be));
    let f = |x: RegionView| region_base(x);
    if ri2 == ri {
        lemma_gather_single(RegionView::LocalOnly { base: bt, local: lt }, f);
    } else if li2 == li {
        lemma_gather_single(RegionView::RemoteOnly { base: bt, remote: rt }, f);
    } else if same_contents(lt, rt) {
        lemma_gather_single(RegionView::BothSame { base: bt, resolved: lt }, f);
    } else if bs == be {
        lemma_gather_pair(
            RegionView::LocalOnly { base: bt, local: lt },
            RegionView::RemoteOnly { base: bt, remote: rt },
            f,
        );
        assert(bt + bt =~= bt);
    } else {
        lemma_gather_single(RegionView::Conflict { base: bt, local: lt, remote: rt }, f);
    }
}

proof fn lemma_walk_base(
    b: Seq<LineView>,
    l: Seq<LineView>,
    r: Seq<LineView>,
    lh: Seq<Hunk>,
    rh: Seq<Hunk>,
    li: nat,
    ri: nat,
    pos: int,
)
    requires
        base_ordered(lh, b.len()),
        base_ordered(rh, b.len()),
        walk_state(lh, rh, b.len(), li, ri, pos),
    ensures
        base_lines(walk(b, l, r, lh, rh, li, ri, pos)) == b.subrange(pos, b.len() as int),
    decreases left(lh.len(), li) + left(rh.len(), ri),
{
    if li >= lh.len() && ri >= rh.len() {
        lemma_unchanged_base(b, pos, b.len() as int);
    } else {
        let ue = next_start(lh, rh, li, ri);
        let c = chunk_bounds(lh, rh, li, ri);
        lemma_chunk_progress(lh, rh, li, ri);
        lemma_chunk_state(lh, rh, b.len(), li, ri, pos);
        let u = unchanged_between(b, pos, ue);
        let cr = chunk_regions(b, l, r, lh, rh, li, ri, c.0, c.1, ue, c.2);
        let w = walk(b, l, r, lh, rh, c.0, c.1, c.2);
        lemma_walk_base(b, l, r, lh, rh, c.0, c.1, c.2);
        lemma_unchanged_base(b, pos, ue);
        lemma_chunk_base(b, l, r, lh, rh, li, ri, c.0, c.1, ue, c.2);
        lemma_base_lines_concat(u, cr);
        lemma_base_lines_concat(u + cr, w);
        assert(b.subrange(pos, b.len() as int) =~= b.subrange(pos, ue) + b.subrange(ue, c.2)
            + b.subrange(c.2, b.len() as int));
    }
}

/// The regions split the base: their base parts, one after the other, are the base.
pub proof fn law_regions_split_base(
    b: Seq<LineView>,
    l: Seq<LineView>,
    r: Seq<LineView>,
    lh: Seq<Hunk>,
    rh: Seq<Hunk>,
)
    requires
        base_ordered(lh, b.len()),
        base_ordered(rh, b.len()),
    ensures
        base_lines(reconcile_walk(b, l, r, lh, rh)) == b,
{
    lemma_walk_base(b, l, r, lh, rh, 0, 0, 0);
    assert(b.subrange(0, b.len() as int) =~= b);
}

pub proof fn lemma_contents_subrange(s: Seq<LineView>, i: int, j: int)
    requires
        0 <= i <= j <= s.len(),
    ensures
        contents(s.subrange(i, j)) == contents(s).subrange(i, j),
{
    assert(contents(s.subrange(i, j)) =~= contents(s).subrange(i, j));
}

pub proof fn lemma_contents_concat(a: Seq<LineView>, b: Seq<LineView>)
    ensures
        contents(a + b) == contents(a) + contents(b),
{
    assert(contents(a + b) =~= contents(a) + contents(b));
}

pub proof fn lemma_same_contents(a: Seq<LineView>, b: Seq<LineView>)
    requires
        same_contents(a, b),
    ensures
        contents(a) == contents(b),
{
    assert(contents(a) =~= contents(b));
}

/// Between two hunks the base and the other side hold the same items.
proof fn lemma_gap_contents(b: Seq<Seq<u8>>, s: Seq<Seq<u8>>, h: Seq<Hunk>, k: int, p: int, q: int)
    requires
        edit_script(b, s, h),
        0 <= k <= h.len(),
        0 <= p <= q <= b.len(),
        in_gap(h, k, p),
        in_gap(h, k, q),
    ensures
        b.subrange(p, q) == s.subrange(side_pos(h, k, p), side_pos(h, k, q)),
{
    lemma_side_pos(h, b.len(), s.len(), k, p);
    lemma_side_pos(h, b.len(), s.len(), k, q);
    let gbs = gap_before_start(h, k);
    let gbe = gap_before_end(h, k, b.len());
    let gas = gap_after_start(h, k);
    let gae = gap_after_end(h, k, s.len());
    assert(b.subrange(gbs, gbe) == s.subrange(gas, gae));
    if k < h.len() {
        assert(hunks_fit(h, b.len(), s.len()));
        assert(h[k].before_start <= b.len());
        assert(h[k].after_start <= s.len());
    }
    assert(b.subrange(p, q) =~= b.subrange(gbs, gbe).subrange(p - gbs, q - gbs));
    assert(s.subrange(side_pos(h, k, p), side_pos(h, k, q)) =~= s.subrange(gas, gae).subrange(
        p - gbs,
        q - gbs,
    ));
}

proof fn lemma_local_lines_concat(a: Seq<RegionView>, b: Seq<RegionView>)
    ensures
        local_lines(a + b) == local_lines(a) + local_lines(b),
{
    lemma_gather_concat(a, b, |r: RegionView| region_local(r));
}

proof fn lemma_remote_lines_concat(a: Seq<RegionView>, b: Seq<RegionView>)
    ensures
        remote_lines(a + b) == remote_lines(a) + remote_lines(b),
{
    lemma_gather_concat(a, b, |r: RegionView| region_remote(r));
}

proof fn lemma_unchanged_sides(b: Seq<LineView>, pos: int, end: int)
    requires
        0 <= pos <= end <= b.len(),
    ensures
        local_lines(unchanged_between(b, pos, end)) == b.subrange(pos, end),
        remote_lines(unchanged_between(b, pos, end)) == b.subrange(pos, end),
{
    if end > pos {
        let u = RegionView::Unchanged { lines: b.subrange(pos, end) };
        lemma_gather_single(u, |r: RegionView| region_local(r));
        lemma_gather_single(u, |r: RegionView| region_remote(r));
    } else {
        assert(b.subrange(pos, end) =~= Seq::<LineView>::empty());
    }
}

proof fn lemma_chunk_sides(
    b: Seq<LineView>,
    l: Seq<LineView>,
    r: Seq<LineView>,
    lh: Seq<Hunk>,
    rh: Seq<Hunk>,
    li: nat,
    ri: nat,
    li2: nat,
    ri2: nat,
    bs: int,
    be: int,
)
    requires
        0 <= bs <= be <= b.len(),
    ensures
        ({
            let bt = b.subrange(bs, be);
            let lt = l.subrange(side_pos(lh, li as int, bs), side_pos(lh, li2 as int, be));
            let rt = r.subrange(side_pos(rh, ri as int, bs), side_pos(rh, ri2 as int, be));
            let rs = chunk_regions(b, l, r, lh, rh, li, ri, li2, ri2, bs, be);
            &&& local_lines(rs) == if ri2 != ri && li2 == li {
                bt
            } else {
                lt
            }
            &&& contents(remote_lines(rs)) == if ri2 == ri {
                contents(bt)
            } else {
                contents(rt)
            }
        }),
{
    let bt = b.subrange(bs, be);
    let lt = l.subrange(side_pos(lh, li as int, bs), side_pos(lh, li2 as int, be));
    let rt = r.subrange(side_pos(rh, ri as int, bs), side_pos(rh, ri2 as int, be));
    let fl = |x: RegionView| region_local(x);
    let fr = |x: RegionView| region_remote(x);
    if ri2 == ri {
        lemma_gather_single(RegionView::LocalOnly { base: bt, local: lt }, fl);
        lemma_gather_single(RegionView::LocalOnly { base: bt, local: lt }, fr);
    } else if li2 == li {
        lemma_gather_single(RegionView::RemoteOnly { base: bt, remote: rt }, fl);
        lemma_gather_single(RegionView::RemoteOnly { base: bt, remote: rt }, fr);
    } else if same_contents(lt, rt) {
        lemma_gather_single(RegionView::BothSame { base: bt, resolved: lt }, fl);
        lemma_gather_single(RegionView::BothSame { base: bt, resolved: lt }, fr);
        lemma_same_contents(lt, rt);
    } else if bs == be {
        let x = RegionView::LocalOnly { base: bt, local: lt };
        let y = RegionView::RemoteOnly { base: bt, remote: rt };
        lemma_gather_pair(x, y, fl);
        lemma_gather_pair(x, y, fr);
        assert(lt + bt =~= lt);
        assert(bt + rt =~= rt);
    } else {
        let x = RegionView::Conflict { base: bt, local: lt, remote: rt };
        lemma_gather_single(x, fl);
        lemma_gather_single(x, fr);
    }
}

proof fn lemma_walk_local(
    b: Seq<LineView>,
    l: Seq<LineView>,
    r: Seq<LineView>,
    lh: Seq<Hunk>,
    rh: Seq<Hunk>,
    li: nat,
    ri: nat,
    pos: int,
)
    requires
        edit_script(contents(b), contents(l), lh),
        base_ordered(lh, b.len()),
        base_ordered(rh, b.len()),
        walk_state(lh, rh, b.len(), li, ri, pos),
    ensures
        contents(local_lines(walk(b, l, r, lh, rh, li, ri, pos))) == contents(l).subrange(
            side_pos(lh, li as int, pos),
            l.len() as int,
        ),
    decreases left(lh.len(), li) + left(rh.len(), ri),
{
    let cb = contents(b);
    let cl = contents(l);
    let blen = b.len() as int;
    if li >= lh.len() && ri >= rh.len() {
        lemma_unchanged_sides(b, pos, blen);
        lemma_contents_subrange(b, pos, blen);
        lemma_gap_contents(cb, cl, lh, li as int, pos, blen);
        lemma_side_pos(lh, b.len(), l.len(), li as int, blen);
    } else {
        let ue = next_start(lh, rh, li, ri);
        let c = chunk_bounds(lh, rh, li, ri);
        lemma_chunk_progress(lh, rh, li, ri);
        lemma_chunk_state(lh, rh, b.len(), li, ri, pos);
        let u = unchanged_between(b, pos, ue);
        let cr = chunk_regions(b, l, r, lh, rh, li, ri, c.0, c.1, ue, c.2);
        let w = walk(b, l, r, lh, rh, c.0, c.1, c.2);
        lemma_walk_local(b, l, r, lh, rh, c.0, c.1, c.2);
        lemma_unchanged_sides(b, pos, ue);
        lemma_chunk_sides(b, l, r, lh, rh, li, ri, c.0, c.1, ue, c.2);
        lemma_local_lines_concat(u, cr);
        lemma_local_lines_concat(u + cr, w);
        lemma_contents_concat(local_lines(u), local_lines(cr));
        lemma_contents_concat(local_lines(u) + local_lines(cr), local_lines(w));
        lemma_contents_subrange(b, pos, ue);
        lemma_gap_contents(cb, cl, lh, li as int, pos, ue);
        let p0 = side_pos(lh, li as int, pos);
        let p1 = side_pos(lh, li as int, ue);
        let p2 = side_pos(lh, c.0 as int, c.2);
        lemma_side_pos_mono(lh, b.len(), l.len(), li as int, pos, li as int, ue);
        lemma_side_pos_mono(lh, b.len(), l.len(), li as int, ue, c.0 as int, c.2);
        lemma_side_pos(lh, b.len(), l.len(), c.0 as int, c.2);
        if c.1 != ri && c.0 == li {
            lemma_contents_subrange(b, ue, c.2);
            lemma_gap_contents(cb, cl, lh, li as int, ue, c.2);
        } else {
            lemma_contents_subrange(l, p1, p2);
        }
        assert(cl.subrange(p0, l.len() as int) =~= cl.subrange(p0, p1) + cl.subrange(p1, p2)
            + cl.subrange(p2, l.len() as int));
    }
}

proof fn lemma_walk_remote(
    b: Seq<LineView>,
    l: Seq<LineView>,
    r: Seq<LineView>,
    lh: Seq<Hunk>,
    rh: Seq<Hunk>,
    li: nat,
    ri: nat,
    pos: int,
)
    requires
        edit_script(contents(b), contents(r), rh),
        base_ordered(lh, b.len()),
        base_ordered(rh, b.len()),
        walk_state(lh, rh, b.len(), li, ri, pos),
    ensures
        contents(remote_lines(walk(b, l, r, lh, rh, li, ri, pos))) == contents(r).subrange(
            side_pos(rh, ri as int, pos),
            r.len() as int,
        ),
    decreases left(lh.len(), li) + left(rh.len(), ri),
{
    let cb = contents(b);
    let cr = contents(r);
    let blen = b.len() as int;
    if li >= lh.len() && ri >= rh.len() {
        lemma_unchanged_sides(b, pos, blen);
        lemma_contents_subrange(b, pos, blen);
        lemma_gap_contents(cb, cr, rh, ri as int, pos, blen);
        lemma_side_pos(rh, b.len(), r.len(), ri as int, blen);
    } else {
        let ue = next_start(lh, rh, li, ri);
        let c = chunk_bounds(lh, rh, li, ri);
        lemma_chunk_progress(lh, rh, li, ri);
        lemma_chunk_state(lh, rh, b.len(), li, ri, pos);
        let u = unchanged_between(b, pos, ue);
        let ch = chunk_regions(b, l, r, lh, rh, li, ri, c.0, c.1, ue, c.2);
        let w = walk(b, l, r, lh, rh, c.0, c.1, c.2);
        lemma_walk_remote(b, l, r, lh, rh, c.0, c.1, c.2);
        lemma_unchanged_sides(b, pos, ue);
        lemma_chunk_sides(b, l, r, lh, rh, li, ri, c.0, c.1, ue, c.2);
        lemma_remote_lines_concat(u, ch);
        lemma_remote_lines_concat(u + ch, w);
        lemma_contents_concat(remote_lines(u), remote_lines(ch));
        lemma_contents_concat(remote_lines(u) + remote_lines(ch), remote_lines(w));
        lemma_contents_subrange(b, pos, ue);
        lemma_gap_contents(cb, cr, rh, ri as int, pos, ue);
        let p0 = side_pos(rh, ri as int, pos);
        let p1 = side_pos(rh, ri as int, ue);
        let p2 = side_pos(rh, c.1 as int, c.2);
        lemma_side_pos_mono(rh, b.len(), r.len(), ri as int, pos, ri as int, ue);
        lemma_side_pos_mono(rh, b.len(), r.len(), ri as int, ue, c.1 as int, c.2);
        lemma_side_pos(rh, b.len(), r.len(), c.1 as int, c.2);
        if c.1 == ri {
            lemma_contents_subrange(b, ue, c.2);
            lemma_gap_contents(cb, cr, rh, ri as int, ue, c.2);
        } else {
            lemma_contents_subrange(r, p1, p2);
        }
        assert(cr.subrange(p0, r.len() as int) =~= cr.subrange(p0, p1) + cr.subrange(p1, p2)
            + cr.subrange(p2, r.len() as int));
    }
}

/// Read side by side, the regions give back each side: over every region, the local
/// side's lines (the base where only the remote side changed it) are, one after the
/// other, the local lines, and likewise for the remote side, line contents compared.
pub proof fn law_regions_read_back_sides(
    b: Seq<LineView>,
    l: Seq<LineView>,
    r: Seq<LineView>,
    lh: Seq<Hunk>,
    rh: Seq<Hunk>,
)
    requires
        edit_script(contents(b), contents(l), lh),
        edit_script(contents(b), contents(r), rh),
    ensures
        contents(local_lines(reconcile_walk(b, l, r, lh, rh))) == contents(l),
        contents(remote_lines(reconcile_walk(b, l, r, lh, rh))) == contents(r),
{
    lemma_shape_base_ordered(lh, b.len(), l.len());
    lemma_shape_base_ordered(rh, b.len(), r.len());
    lemma_walk_local(b, l, r, lh, rh, 0, 0, 0);
    lemma_walk_remote(b, l, r, lh, rh, 0, 0, 0);
    assert(contents(l).subrange(0, l.len() as int) =~= contents(l));
    assert(contents(r).subrange(0, r.len() as int) =~= contents(r));
}

/// Every region of `rs` has the property `p`.
pub open spec fn every(rs: Seq<RegionView>, p: spec_fn(RegionView) -> bool) -> bool {
    forall|k: int| 0 <= k < rs.len() ==> p(#[trigger] rs[k])
}

proof fn lemma_every_concat(a: Seq<RegionView>, c: Seq<RegionView>, p: spec_fn(RegionView) -> bool)
    requires
        every(a, p),
        every(c, p),
    ensures
        every(a + c, p),
{
    assert forall|k: int| 0 <= k < (a + c).len() implies p(#[trigger] (a + c)[k]) by {
        if k < a.len() {
            assert((a + c)[k] == a[k]);
        } else {
            assert((a + c)[k] == c[k - a.len()]);
        }
    }
}

proof fn lemma_every_walk_step(
    u: Seq<RegionView>,
    ch: Seq<RegionView>,
    w: Seq<RegionView>,
    p: spec_fn(RegionView) -> bool,
)
    requires
        u.len() <= 1,
        u.len() == 1 ==> u[0] is Unchanged,
        forall|lines: Seq<LineView>| #[trigger] p(RegionView::Unchanged { lines }),
        every(ch, p),
        every(w, p),
    ensures
        every(u + ch + w, p),
{
    if u.len() == 1 {
        let x = u[0];
        if let RegionView::Unchanged { lines } = x {
            assert(p(RegionView::Unchanged { lines }));
        }
    }
    lemma_every_concat(u, ch, p);
    lemma_every_concat(u + ch, w, p);
}

proof fn lemma_walk_conflicts_disagree(
    b: Seq<LineView>,
    l: Seq<LineView>,
    r: Seq<LineView>,
    lh: Seq<Hunk>,
    rh: Seq<Hunk>,
    li: nat,
    ri: nat,
    pos: int,
)
    ensures
        conflicts_disagree(walk(b, l, r, lh, rh, li, ri, pos)),
    decreases left(lh.len(), li) + left(rh.len(), ri),
{
    let p = |x: RegionView|
        x matches RegionView::Conflict { local, remote, .. } ==> !same_contents(local, remote);
    let rs = walk(b, l, r, lh, rh, li, ri, pos);
    if li >= lh.len() && ri >= rh.len() {
    } else {
        let ue = next_start(lh, rh, li, ri);
        let c = chunk_bounds(lh, rh, li, ri);
        lemma_chunk_progress(lh, rh, li, ri);
        lemma_walk_conflicts_disagree(b, l, r, lh, rh, c.0, c.1, c.2);
        let w = walk(b, l, r, lh, rh, c.0, c.1, c.2);
        assert(every(w, p));
        lemma_every_walk_step(
            unchanged_between(b, pos, ue),
            chunk_regions(b, l, r, lh, rh, li, ri, c.0, c.1, ue, c.2),
            w,
            p,
        );
        assert(every(rs, p));
    }
}

/// A conflict is only reported where the two sides wrote different lines.
pub proof fn law_conflicts_disagree(
    b: Seq<LineView>,
    l: Seq<LineView>,
    r: Seq<LineView>,
    lh: Seq<Hunk>,
    rh: Seq<Hunk>,
)
    ensures
        conflicts_disagree(reconcile_walk(b, l, r, lh, rh)),
{
    lemma_walk_conflicts_disagree(b, l, r, lh, rh, 0, 0, 0);
}

proof fn lemma_walk_agreed(
    b: Seq<LineView>,
    l: Seq<LineView>,
    r: Seq<LineView>,
    h: Seq<Hunk>,
    i: nat,
    pos: int,
)
    requires
        contents(l) == contents(r),
        edit_shape(h, b.len(), l.len()),
        walk_state(h, h, b.len(), i, i, pos),
    ensures
        only_agreed(walk(b, l, r, h, h, i, i, pos)),
    decreases left(h.len(), i) + left(h.len(), i),
{
    let p = |x: RegionView| x is Unchanged || x is BothSame;
    let rs = walk(b, l, r, h, h, i, i, pos);
    lemma_shape_base_ordered(h, b.len(), l.len());
    assert(l.len() == contents(l).len() == contents(r).len() == r.len());
    if i < h.len() {
        let x = h[i as int];
        let ue = next_start(h, h, i, i);
        let c = chunk_bounds(h, h, i, i);
        if i + 1 < h.len() {
            assert(x.before_end < h[i + 1 as int].before_start);
        }
        if !is_insertion(x) {
            assert(absorb(h, h, i + 1, i + 1, x.before_end as int) == (
                i + 1,
                i + 1,
                x.before_end as int,
            ));
            assert(absorb(h, h, i + 1, i, x.before_end as int) == (
                i + 1,
                i + 1,
                x.before_end as int,
            ));
        }
        assert(c == (i + 1, i + 1, ue + (x.before_end - x.before_start)));
        lemma_chunk_state(h, h, b.len(), i, i, pos);
        let n: nat = (i + 1) as nat;
        lemma_walk_agreed(b, l, r, h, n, c.2);
        let w = walk(b, l, r, h, h, n, n, c.2);
        assert(every(w, p));
        let s0 = side_pos(h, i as int, ue);
        let s1 = side_pos(h, n as int, c.2);
        lemma_side_pos_mono(h, b.len(), l.len(), i as int, ue, n as int, c.2);
        lemma_side_pos(h, b.len(), l.len(), n as int, c.2);
        lemma_side_pos(h, b.len(), l.len(), i as int, ue);
        let lt = l.subrange(s0, s1);
        let rt = r.subrange(s0, s1);
        assert forall|j: int| 0 <= j < lt.len() implies #[trigger] lt[j].content == rt[j].content by {
            assert(contents(l)[s0 + j] == contents(r)[s0 + j]);
        }
        assert(same_contents(lt, rt));
        let ch = chunk_regions(b, l, r, h, h, i, i, n, n, ue, c.2);
        assert(every(ch, p));
        lemma_every_walk_step(unchanged_between(b, pos, ue), ch, w, p);
    }
    assert(every(rs, p));
}

/// When both sides made the same changes (the same hunks, and lines with the same
/// contents), every region keeps the base or the agreed change: nothing conflicts,
/// nothing is taken from one side alone, and the lines the merge keeps have the
/// contents of both sides.
pub proof fn law_same_changes_agree(
    b: Seq<LineView>,
    l: Seq<LineView>,
    r: Seq<LineView>,
    h: Seq<Hunk>,
)
    requires
        contents(l) == contents(r),
        edit_script(contents(b), contents(l), h),
    ensures
        only_agreed(reconcile_walk(b, l, r, h, h)),
        conflict_free(reconcile_walk(b, l, r, h, h)),
        contents(kept_lines(reconcile_walk(b, l, r, h, h))) == contents(l),
{
    let rs = reconcile_walk(b, l, r, h, h);
    lemma_walk_agreed(b, l, r, h, 0, 0);
    lemma_kept_sides(rs);
    law_regions_read_back_sides(b, l, r, h, h);
    assert forall|k: int| 0 <= k < rs.len() implies !(#[trigger] rs[k] is Conflict) by {
        assert(rs[k] is Unchanged || rs[k] is BothSame);
    }
}

/// Where each side changes the same single line `i`, and their new lines differ, the
/// merge is the base before it, one conflict over that line, and the base after it.
pub proof fn law_single_line_conflict(
    b: Seq<LineView>,
    l: Seq<LineView>,
    r: Seq<LineView>,
    i: int,
)
    requires
        0 <= i < b.len(),
        i < l.len(),
        i < r.len(),
        i < u32::MAX,
        l[i].content != r[i].content,
    ensures
        ({
            let h = Hunk { before_start: i as u32, before_end: (i + 1) as u32, after_start: i as u32, after_end: (i + 1) as u32 };
            reconcile_walk(b, l, r, seq![h], seq![h]) == unchanged_between(b, 0, i) + seq![
                RegionView::Conflict {
                    base: b.subrange(i, i + 1),
                    local: l.subrange(i, i + 1),
                    remote: r.subrange(i, i + 1),
                },
            ] + unchanged_between(b, i + 1, b.len() as int)
        }),
{
    let h = Hunk { before_start: i as u32, before_end: (i + 1) as u32, after_start: i as u32, after_end: (i + 1) as u32 };
    let hs = seq![h];
    assert(absorb(hs, hs, 1, 1, i + 1) == (1nat, 1nat, i + 1));
    assert(absorb(hs, hs, 1, 0, i + 1) == (1nat, 1nat, i + 1));
    assert(chunk_bounds(hs, hs, 0, 0) == (1nat, 1nat, i + 1));
    let lt = l.subrange(i, i + 1);
    let rt = r.subrange(i, i + 1);
    assert(!same_contents(lt, rt)) by {
        assert(lt[0].content == l[i].content);
        assert(rt[0].content == r[i].content);
    }
    assert(walk(b, l, r, hs, hs, 1, 1, i + 1) == unchanged_between(b, i + 1, b.len() as int));
}

proof fn lemma_absorb_keeps_done(lh: Seq<Hunk>, rh: Seq<Hunk>, li: nat, ri: nat, end: int)
    ensures
        li >= lh.len() ==> absorb(lh, rh, li, ri, end).0 == li,
        ri >= rh.len() ==> absorb(lh, rh, li, ri, end).1 == ri,
    decreases left(lh.len(), li) + left(rh.len(), ri),
{
    if li < lh.len() && lh[li as int].before_start < end {
        lemma_absorb_keeps_done(lh, rh, li + 1, ri, max_int(end, lh[li as int].before_end as int));
    } else if ri < rh.len() && rh[ri as int].before_start < end {
        lemma_absorb_keeps_done(lh, rh, li, ri + 1, max_int(end, rh[ri as int].before_end as int));
    }
}

proof fn lemma_walk_one_side(
    b: Seq<LineView>,
    l: Seq<LineView>,
    r: Seq<LineView>,
    lh: Seq<Hunk>,
    rh: Seq<Hunk>,
    li: nat,
    ri: nat,
    pos: int,
)
    ensures
        li >= lh.len() ==> only_remote_changes(walk(b, l, r, lh, rh, li, ri, pos)),
        ri >= rh.len() ==> only_local_changes(walk(b, l, r, lh, rh, li, ri, pos)),
    decreases left(lh.len(), li) + left(rh.len(), ri),
{
    let pr = |x: RegionView| x is Unchanged || x is RemoteOnly;
    let pl = |x: RegionView| x is Unchanged || x is LocalOnly;
    let rs = walk(b, l, r, lh, rh, li, ri, pos);
    if li >= lh.len() && ri >= rh.len() {
    } else {
        let ue = next_start(lh, rh, li, ri);
        let c = chunk_bounds(lh, rh, li, ri);
        lemma_chunk_progress(lh, rh, li, ri);
        lemma_walk_one_side(b, l, r, lh, rh, c.0, c.1, c.2);
        let w = walk(b, l, r, lh, rh, c.0, c.1, c.2);
        let u = unchanged_between(b, pos, ue);
        let ch = chunk_regions(b, l, r, lh, rh, li, ri, c.0, c.1, ue, c.2);
        if li >= lh.len() {
            lemma_absorb_keeps_done(lh, rh, li, ri + 1, rh[ri as int].before_end as int);
            assert(c.0 == li);
            assert(every(w, pr));
            assert(every(ch, pr));
            lemma_every_walk_step(u, ch, w, pr);
            assert(every(rs, pr));
        }
        if ri >= rh.len() {
            lemma_absorb_keeps_done(lh, rh, li + 1, ri, lh[li as int].before_end as int);
            assert(c.1 == ri);
            assert(every(w, pl));
            assert(every(ch, pl));
            lemma_every_walk_step(u, ch, w, pl);
            assert(every(rs, pl));
        }
    }
}

proof fn lemma_kept_sides(rs: Seq<RegionView>)
    ensures
        only_remote_changes(rs) ==> kept_lines(rs) == remote_lines(rs),
        only_local_changes(rs) ==> kept_lines(rs) == local_lines(rs),
        only_agreed(rs) ==> kept_lines(rs) == local_lines(rs),
    decreases rs.len(),
{
    if rs.len() > 0 {
        let d = rs.drop_last();
        assert forall|k: int| 0 <= k < d.len() implies #[trigger] d[k] == rs[k] by {}
        lemma_kept_sides(d);
        if only_remote_changes(rs) {
            assert(rs[rs.len() - 1] is Unchanged || rs[rs.len() - 1] is RemoteOnly);
            assert(only_remote_changes(d));
        }
        if only_local_changes(rs) {
            assert(rs[rs.len() - 1] is Unchanged || rs[rs.len() - 1] is LocalOnly);
            assert(only_local_changes(d));
        }
        if only_agreed(rs) {
            assert(rs[rs.len() - 1] is Unchanged || rs[rs.len() - 1] is BothSame);
            assert(only_agreed(d));
        }
    }
}

/// A change made on the remote side only is taken: when the local side has no hunks
/// and the remote hunks form an edit script from the base, every region keeps the base
/// or takes the remote side, and the lines the merge keeps have the remote side's
/// contents.
pub proof fn law_remote_only_change_taken(
    b: Seq<LineView>,
    l: Seq<LineView>,
    r: Seq<LineView>,
    lh: Seq<Hunk>,
    rh: Seq<Hunk>,
)
    requires
        lh.len() == 0,
        edit_script(contents(b), contents(r), rh),
    ensures
        only_remote_changes(reconcile_walk(b, l, r, lh, rh)),
        conflict_free(reconcile_walk(b, l, r, lh, rh)),
        contents(kept_lines(reconcile_walk(b, l, r, lh, rh))) == contents(r),
{
    let rs = reconcile_walk(b, l, r, lh, rh);
    lemma_shape_base_ordered(rh, b.len(), r.len());
    lemma_walk_one_side(b, l, r, lh, rh, 0, 0, 0);
    lemma_kept_sides(rs);
    lemma_walk_remote(b, l, r, lh, rh, 0, 0, 0);
    assert(contents(r).subrange(0, r.len() as int) =~= contents(r));
    assert forall|k: int| 0 <= k < rs.len() implies !(#[trigger] rs[k] is Conflict) by {
        assert(rs[k] is Unchanged || rs[k] is RemoteOnly);
    }
}

/// A change made on the local side only is taken: when the remote side has no hunks
/// and the local hunks form an edit script from the base, every region keeps the base
/// or takes the local side, and the lines the merge keeps have the local side's
/// contents.
pub proof fn law_local_only_change_taken(
    b: Seq<LineView>,
    l: Seq<LineView>,
    r: Seq<LineView>,
    lh: Seq<Hunk>,
    rh: Seq<Hunk>,
)
    requires
        rh.len() == 0,
        edit_script(contents(b), contents(l), lh),
    ensures
        only_local_changes(reconcile_walk(b, l, r, lh, rh)),
        conflict_free(reconcile_walk(b, l, r, lh, rh)),
        contents(kept_lines(reconcile_walk(b, l, r, lh, rh))) == contents(l),
{
    let rs = reconcile_walk(b, l, r, lh, rh);
    lemma_shape_base_ordered(lh, b.len(), l.len());
    lemma_walk_one_side(b, l, r, lh, rh, 0, 0, 0);
    lemma_kept_sides(rs);
    lemma_walk_local(b, l, r, lh, rh, 0, 0, 0);
    assert(contents(l).subrange(0, l.len() as int) =~= contents(l));
    assert forall|k: int| 0 <= k < rs.len() implies !(#[trigger] rs[k] is Conflict) by {
        assert(rs[k] is Unchanged || rs[k] is LocalOnly);
    }
}

/// With no hunk on either side, the merge is the base, unchanged.
pub proof fn law_no_changes_keep_base(
    b: Seq<LineView>,
    l: Seq<LineView>,
    r: Seq<LineView>,
    lh: Seq<Hunk>,
    rh: Seq<Hunk>,
)
    requires
        lh.len() == 0,
        rh.len() == 0,
    ensures
        only_agreed(reconcile_walk(b, l, r, lh, rh)),
        kept_lines(reconcile_walk(b, l, r, lh, rh)) == b,
{
    if b.len() > 0 {
        lemma_gather_single(RegionView::Unchanged { lines: b.subrange(0, b.len() as int) }, |x: RegionView| region_lines(x));
    }
    assert(b.subrange(0, b.len() as int) =~= b);
    assert(b.len() == 0 ==> b =~= Seq::<LineView>::empty());
}

proof fn lemma_chunk_separate(lh: Seq<Hunk>, rh: Seq<Hunk>, blen: nat, li: nat, ri: nat)
    requires
        separate_changes(lh, rh),
        base_ordered(lh, blen),
        base_ordered(rh, blen),
        li < lh.len() || ri < rh.len(),
    ensures
        ({
            let c = chunk_bounds(lh, rh, li, ri);
            ||| c.0 == li
            ||| c.1 == ri
            ||| (li < lh.len() && ri < rh.len() && same_insertion_point(lh[li as int], rh[ri as int])
                && c == (li + 1, ri + 1, next_start(lh, rh, li, ri)))
        }),
{
    if li < lh.len() && ri < rh.len() && same_insertion_point(lh[li as int], rh[ri as int]) {
    } else if local_first(lh, rh, li, ri) {
        let x = lh[li as int];
        if !is_insertion(x) {
            if li + 1 < lh.len() {
                assert(x.before_end < lh[li + 1 as int].before_start);
            }
            if ri < rh.len() {
                let y = rh[ri as int];
                assert(y.before_start <= y.before_end);
                assert(!hunks_overlap(x, y));
                assert(!(y.before_start < x.before_end));
            }
            assert(absorb(lh, rh, li + 1, ri, x.before_end as int) == (
                li + 1,
                ri,
                x.before_end as int,
            ));
        }
    } else {
        let y = rh[ri as int];
        if !is_insertion(y) {
            if ri + 1 < rh.len() {
                assert(y.before_end < rh[ri + 1 as int].before_start);
            }
            if li < lh.len() {
                let x = lh[li as int];
                assert(x.before_start <= x.before_end);
                assert(!hunks_overlap(x, y));
                assert(!(x.before_start < y.before_end));
            }
            assert(absorb(lh, rh, li, ri + 1, y.before_end as int) == (
                li,
                ri + 1,
                y.before_end as int,
            ));
        }
    }
}

proof fn lemma_walk_separate(
    b: Seq<LineView>,
    l: Seq<LineView>,
    r: Seq<LineView>,
    lh: Seq<Hunk>,
    rh: Seq<Hunk>,
    li: nat,
    ri: nat,
    pos: int,
)
    requires
        separate_changes(lh, rh),
        base_ordered(lh, b.len()),
        base_ordered(rh, b.len()),
    ensures
        conflict_free(walk(b, l, r, lh, rh, li, ri, pos)),
    decreases left(lh.len(), li) + left(rh.len(), ri),
{
    let p = |x: RegionView| !(x is Conflict);
    let rs = walk(b, l, r, lh, rh, li, ri, pos);
    if li >= lh.len() && ri >= rh.len() {
    } else {
        let ue = next_start(lh, rh, li, ri);
        let c = chunk_bounds(lh, rh, li, ri);
        lemma_chunk_progress(lh, rh, li, ri);
        lemma_chunk_separate(lh, rh, b.len(), li, ri);
        lemma_walk_separate(b, l, r, lh, rh, c.0, c.1, c.2);
        let w = walk(b, l, r, lh, rh, c.0, c.1, c.2);
        assert(every(w, p));
        let ch = chunk_regions(b, l, r, lh, rh, li, ri, c.0, c.1, ue, c.2);
        assert(every(ch, p));
        lemma_every_walk_step(unchanged_between(b, pos, ue), ch, w, p);
        assert(every(rs, p));
    }
}

/// Changes at separate places never conflict: when no local hunk overlaps a remote
/// hunk (hunks that only touch do not overlap) and no two replace the same base range,
/// the merge has no conflict region.
pub proof fn law_separate_changes_never_conflict(
    b: Seq<LineView>,
    l: Seq<LineView>,
    r: Seq<LineView>,
    lh: Seq<Hunk>,
    rh: Seq<Hunk>,
)
    requires
        separate_changes(lh, rh),
        base_ordered(lh, b.len()),
        base_ordered(rh, b.len()),
    ensures
        conflict_free(reconcile_walk(b, l, r, lh, rh)),
{
    lemma_walk_separate(b, l, r, lh, rh, 0, 0, 0);
}

proof fn lemma_well_placed_step(u: Seq<RegionView>, ch: Seq<RegionView>, w: Seq<RegionView>)
    requires
        u.len() <= 1,
        u.len() == 1 ==> (u[0] matches RegionView::Unchanged { lines } && lines.len() > 0),
        ch.len() >= 1,
        forall|k: int| 0 <= k < ch.len() ==> !(#[trigger] ch[k] is Unchanged),
        unchanged_well_placed(w),
    ensures
        unchanged_well_placed(u + ch + w),
{
    let rs = u + ch + w;
    let n = u.len() + ch.len();
    assert forall|k: int| 0 <= k < rs.len() implies (#[trigger] rs[k] matches RegionView::Unchanged {
        lines,
    } ==> lines.len() > 0) by {
        if k < u.len() {
            assert(rs[k] == u[k]);
        } else if k < n {
            assert(rs[k] == ch[k - u.len()]);
        } else {
            assert(rs[k] == w[k - n]);
        }
    }
    assert forall|k: int| 0 <= k < rs.len() - 1 implies !(#[trigger] rs[k] is Unchanged && rs[k
        + 1] is Unchanged) by {
        if k < u.len() {
            assert(rs[k + 1] == ch[k + 1 - u.len()]);
        } else if k < n {
            assert(rs[k] == ch[k - u.len()]);
        } else {
            assert(rs[k] == w[k - n]);
            assert(rs[k + 1] == w[k + 1 - n]);
        }
    }
}

proof fn lemma_walk_well_placed(
    b: Seq<LineView>,
    l: Seq<LineView>,
    r: Seq<LineView>,
    lh: Seq<Hunk>,
    rh: Seq<Hunk>,
    li: nat,
    ri: nat,
    pos: int,
)
    requires
        base_ordered(lh, b.len()),
        base_ordered(rh, b.len()),
        walk_state(lh, rh, b.len(), li, ri, pos),
    ensures
        unchanged_well_placed(walk(b, l, r, lh, rh, li, ri, pos)),
    decreases left(lh.len(), li) + left(rh.len(), ri),
{
    if li >= lh.len() && ri >= rh.len() {
    } else {
        let ue = next_start(lh, rh, li, ri);
        let c = chunk_bounds(lh, rh, li, ri);
        lemma_chunk_progress(lh, rh, li, ri);
        lemma_chunk_state(lh, rh, b.len(), li, ri, pos);
        lemma_walk_well_placed(b, l, r, lh, rh, c.0, c.1, c.2);
        let ch = chunk_regions(b, l, r, lh, rh, li, ri, c.0, c.1, ue, c.2);
        assert forall|k: int| 0 <= k < ch.len() implies !(#[trigger] ch[k] is Unchanged) by {}
        lemma_well_placed_step(
            unchanged_between(b, pos, ue),
            ch,
            walk(b, l, r, lh, rh, c.0, c.1, c.2),
        );
    }
}

/// Unchanged regions are never empty and never follow each other: between two of them
/// stands at least one change.
pub proof fn law_unchanged_well_placed(
    b: Seq<LineView>,
    l: Seq<LineView>,
    r: Seq<LineView>,
    lh: Seq<Hunk>,
    rh: Seq<Hunk>,
)
    requires
        base_ordered(lh, b.len()),
        base_ordered(rh, b.len()),
    ensures
        unchanged_well_placed(reconcile_walk(b, l, r, lh, rh)),
{
    lemma_walk_well_placed(b, l, r, lh, rh, 0, 0, 0);
}

/// Lines that all end in `\n` are fixed by their contents.
pub proof fn lemma_lf_lines_equal(a: Seq<LineView>, b: Seq<LineView>)
    requires
        all_lf(a),
        all_lf(b),
        contents(a) == contents(b),
    ensures
        a == b,
{
    assert(a.len() == contents(a).len() == contents(b).len() == b.len());
    assert forall|k: int| 0 <= k < a.len() implies #[trigger] a[k] == b[k] by {
        assert(contents(a)[k] == contents(b)[k]);
        assert(a[k].eol == Eol::Lf && b[k].eol == Eol::Lf);
    }
    assert(a =~= b);
}

/// Every part of the region ends each line in `\n`.
pub open spec fn region_lf(r: RegionView) -> bool {
    match r {
        RegionView::Unchanged { lines } => all_lf(lines),
        RegionView::LocalOnly { base, local } => all_lf(base) && all_lf(local),
        RegionView::RemoteOnly { base, remote } => all_lf(base) && all_lf(remote),
        RegionView::BothSame { base, resolved } => all_lf(base) && all_lf(resolved),
        RegionView::Conflict { base, local, remote } => all_lf(base) && all_lf(local) && all_lf(
            remote,
        ),
    }
}

proof fn lemma_walk_lf(
    b: Seq<LineView>,
    l: Seq<LineView>,
    r: Seq<LineView>,
    lh: Seq<Hunk>,
    rh: Seq<Hunk>,
    li: nat,
    ri: nat,
    pos: int,
)
    requires
        edit_shape(lh, b.len(), l.len()),
        edit_shape(rh, b.len(), r.len()),
        all_lf(b),
        all_lf(l),
        all_lf(r),
        walk_state(lh, rh, b.len(), li, ri, pos),
    ensures
        every(walk(b, l, r, lh, rh, li, ri, pos), |x: RegionView| region_lf(x)),
    decreases left(lh.len(), li) + left(rh.len(), ri),
{
    let p = |x: RegionView| region_lf(x);
    lemma_shape_base_ordered(lh, b.len(), l.len());
    lemma_shape_base_ordered(rh, b.len(), r.len());
    if li >= lh.len() && ri >= rh.len() {
        if pos < b.len() {
            let u = b.subrange(pos, b.len() as int);
            assert(all_lf(u));
        }
    } else {
        let ue = next_start(lh, rh, li, ri);
        let c = chunk_bounds(lh, rh, li, ri);
        lemma_chunk_progress(lh, rh, li, ri);
        lemma_chunk_state(lh, rh, b.len(), li, ri, pos);
        lemma_walk_lf(b, l, r, lh, rh, c.0, c.1, c.2);
        lemma_side_pos_mono(lh, b.len(), l.len(), li as int, ue, c.0 as int, c.2);
        lemma_side_pos(lh, b.len(), l.len(), c.0 as int, c.2);
        lemma_side_pos(lh, b.len(), l.len(), li as int, ue);
        lemma_side_pos_mono(rh, b.len(), r.len(), ri as int, ue, c.1 as int, c.2);
        lemma_side_pos(rh, b.len(), r.len(), c.1 as int, c.2);
        lemma_side_pos(rh, b.len(), r.len(), ri as int, ue);
        let bt = b.subrange(ue, c.2);
        let lt = l.subrange(side_pos(lh, li as int, ue), side_pos(lh, c.0 as int, c.2));
        let rt = r.subrange(side_pos(rh, ri as int, ue), side_pos(rh, c.1 as int, c.2));
        assert(all_lf(bt));
        assert(all_lf(lt));
        assert(all_lf(rt));
        let ch = chunk_regions(b, l, r, lh, rh, li, ri, c.0, c.1, ue, c.2);
        assert(every(ch, p));
        let u = unchanged_between(b, pos, ue);
        if ue > pos {
            assert(all_lf(b.subrange(pos, ue)));
        }
        assert(every(u, p));
        let w = walk(b, l, r, lh, rh, c.0, c.1, c.2);
        lemma_every_concat(u, ch, p);
        lemma_every_concat(u + ch, w, p);
    }
}

proof fn lemma_gather_lf(rs: Seq<RegionView>)
    requires
        every(rs, |x: RegionView| region_lf(x)),
    ensures
        all_lf(kept_lines(rs)),
    decreases rs.len(),
{
    if rs.len() > 0 {
        let d = rs.drop_last();
        assert forall|k: int| 0 <= k < d.len() implies region_lf(#[trigger] d[k]) by {
            assert(d[k] == rs[k]);
            assert(region_lf(rs[k]));
        }
        assert(every(d, |x: RegionView| region_lf(x)));
        lemma_gather_lf(d);
        assert(region_lf(rs[rs.len() - 1]));
        let a = kept_lines(d);
        let e = region_lines(rs.last());
        assert(all_lf(e));
        assert(kept_lines(rs) == a + e);
        assert forall|k: int| 0 <= k < (a + e).len() implies #[trigger] (a + e)[k].eol == Eol::Lf by {
            if k < a.len() {
                assert((a + e)[k] == a[k]);
            } else {
                assert((a + e)[k] == e[k - a.len()]);
            }
        }
    }
}

/// When every line of the base and of both sides ends in `\n`, so does every line
/// that the merge keeps.
pub proof fn law_lf_lines_stay_lf(
    b: Seq<LineView>,
    l: Seq<LineView>,
    r: Seq<LineView>,
    lh: Seq<Hunk>,
    rh: Seq<Hunk>,
)
    requires
        edit_shape(lh, b.len(), l.len()),
        edit_shape(rh, b.len(), r.len()),
        all_lf(b),
        all_lf(l),
        all_lf(r),
    ensures
        all_lf(kept_lines(reconcile_walk(b, l, r, lh, rh))),
{
    lemma_walk_lf(b, l, r, lh, rh, 0, 0, 0);
    lemma_gather_lf(reconcile_walk(b, l, r, lh, rh));
}

proof fn lemma_all_unchanged_sides(rs: Seq<RegionView>)
    requires
        forall|k: int| 0 <= k < rs.len() ==> #[trigger] rs[k] is Unchanged,
    ensures
        local_lines(rs) == base_lines(rs),
        remote_lines(rs) == base_lines(rs),
    decreases rs.len(),
{
    if rs.len() > 0 {
        let d = rs.drop_last();
        assert forall|k: int| 0 <= k < d.len() implies #[trigger] d[k] is Unchanged by {
            assert(d[k] == rs[k]);
        }
        lemma_all_unchanged_sides(d);
        assert(rs[rs.len() - 1] is Unchanged);
    }
}

/// When only the remote side has hunks and its lines differ from the base, some region
/// takes the remote side.
pub proof fn law_remote_change_shows(
    b: Seq<LineView>,
    l: Seq<LineView>,
    r: Seq<LineView>,
    lh: Seq<Hunk>,
    rh: Seq<Hunk>,
)
    requires
        lh.len() == 0,
        edit_script(contents(b), contents(r), rh),
        contents(r) != contents(b),
    ensures
        exists|k: int|
            0 <= k < reconcile_walk(b, l, r, lh, rh).len() && #[trigger] reconcile_walk(
                b,
                l,
                r,
                lh,
                rh,
            )[k] is RemoteOnly,
{
    let rs = reconcile_walk(b, l, r, lh, rh);
    law_remote_only_change_taken(b, l, r, lh, rh);
    lemma_shape_base_ordered(rh, b.len(), r.len());
    law_regions_split_base(b, l, r, lh, rh);
    lemma_walk_remote(b, l, r, lh, rh, 0, 0, 0);
    assert(contents(r).subrange(0, r.len() as int) =~= contents(r));
    if !exists|k: int| 0 <= k < rs.len() && #[trigger] rs[k] is RemoteOnly {
        assert forall|k: int| 0 <= k < rs.len() implies #[trigger] rs[k] is Unchanged by {
            assert(rs[k] is Unchanged || rs[k] is RemoteOnly);
        }
        lemma_all_unchanged_sides(rs);
        assert(false);
    }
}

/// When only the local side has hunks and its lines differ from the base, some region
/// takes the local side.
pub proof fn law_local_change_shows(
    b: Seq<LineView>,
    l: Seq<LineView>,
    r: Seq<LineView>,
    lh: Seq<Hunk>,
    rh: Seq<Hunk>,
)
    requires
        rh.len() == 0,
        edit_script(contents(b), contents(l), lh),
        contents(l) != contents(b),
    ensures
        exists|k: int|
            0 <= k < reconcile_walk(b, l, r, lh, rh).len() && #[trigger] reconcile_walk(
                b,
                l,
                r,
                lh,
                rh,
            )[k] is LocalOnly,
{
    let rs = reconcile_walk(b, l, r, lh, rh);
    law_local_only_change_taken(b, l, r, lh, rh);
    lemma_shape_base_ordered(lh, b.len(), l.len());
    law_regions_split_base(b, l, r, lh, rh);
    lemma_walk_local(b, l, r, lh, rh, 0, 0, 0);
    assert(contents(l).subrange(0, l.len() as int) =~= contents(l));
    if !exists|k: int| 0 <= k < rs.len() && #[trigger] rs[k] is LocalOnly {
        assert forall|k: int| 0 <= k < rs.len() implies #[trigger] rs[k] is Unchanged by {
            assert(rs[k] is Unchanged || rs[k] is LocalOnly);
        }
        lemma_all_unchanged_sides(rs);
        assert(false);
    }
}

/// Where base line `p` falls in a side whose first `k` hunks lie before it.
fn side_position(h: &[Hunk], k: usize, p: usize) -> (r: usize)
    requires
        k <= h@.len(),
        k == 0 || h@[k - 1].before_end <= p,
        side_pos(h@, k as int, p as int) <= usize::MAX,
    ensures
        r == side_pos(h@, k as int, p as int),
{
    if k == 0 {
        p
    } else {
        h[k - 1].after_end as usize + (p - h[k - 1].before_end as usize)
    }
}

/// The hunks that the next region takes, as `chunk_bounds` gives them.
fn next_chunk(lh: &[Hunk], rh: &[Hunk], li: usize, ri: usize) -> (c: (usize, usize, usize))
    requires
        li <= lh@.len(),
        ri <= rh@.len(),
        li < lh@.len() || ri < rh@.len(),
    ensures
        c.0 == chunk_bounds(lh@, rh@, li as nat, ri as nat).0,
        c.1 == chunk_bounds(lh@, rh@, li as nat, ri as nat).1,
        c.2 == chunk_bounds(lh@, rh@, li as nat, ri as nat).2,
{
    if li < lh.len() && ri < rh.len() {
        let x = lh[li];
        let y = rh[ri];
        if x.before_start == y.before_start && x.before_start == x.before_end && y.before_start
            == y.before_end {
            return (li + 1, ri + 1, x.before_start as usize);
        }
    }
    let local_first = ri >= rh.len() || (li < lh.len() && (lh[li].before_start
        < rh[ri].before_start || (lh[li].before_start == rh[ri].before_start && (
    lh[li].before_start == lh[li].before_end || rh[ri].before_start != rh[ri].before_end))));
    let mut a: usize;
    let mut b: usize;
    let mut end: usize;
    if local_first {
        let x = lh[li];
        if x.before_start == x.before_end {
            return (li + 1, ri, x.before_start as usize);
        }
        a = li + 1;
        b = ri;
        end = x.before_end as usize;
    } else {
        let y = rh[ri];
        if y.before_start == y.before_end {
            return (li, ri + 1, y.before_start as usize);
        }
        a = li;
        b = ri + 1;
        end = y.before_end as usize;
    }
    // Take every further hunk that starts inside the region.
    loop
        invariant_except_break
            a <= lh@.len(),
            b <= rh@.len(),
            absorb(lh@, rh@, a as nat, b as nat, end as int) == chunk_bounds(
                lh@,
                rh@,
                li as nat,
                ri as nat,
            ),
        ensures
            a == chunk_bounds(lh@, rh@, li as nat, ri as nat).0,
            b == chunk_bounds(lh@, rh@, li as nat, ri as nat).1,
            end == chunk_bounds(lh@, rh@, li as nat, ri as nat).2,
        decreases left(lh@.len(), a as nat) + left(rh@.len(), b as nat),
    {
        if a < lh.len() && (lh[a].before_start as usize) < end {
            let e = lh[a].before_end as usize;
            if e > end {
                end = e;
            }
            a += 1;
        } else if b < rh.len() && (rh[b].before_start as usize) < end {
            let e = rh[b].before_end as usize;
            if e > end {
                end = e;
            }
            b += 1;
        } else {
            break ;
        }
    }
    (a, b, end)
}


/// Appends the region for base lines `bs..be`, which take local hunks `li..li2` and
/// remote hunks `ri..ri2`.
fn push_chunk<'a>(
    base: &'a [Line<'a>],
    local: &'a [Line<'a>],
    remote: &'a [Line<'a>],
    local_hunks: &[Hunk],
    remote_hunks: &[Hunk],
    li: usize,
    ri: usize,
    li2: usize,
    ri2: usize,
    bs: usize,
    be: usize,
    regions: &mut Vec<DiffRegion<'a>>,
)
    requires
        edit_shape(local_hunks@, base@.len(), local@.len()),
        edit_shape(remote_hunks@, base@.len(), remote@.len()),
        li <= li2 <= local_hunks@.len(),
        ri <= ri2 <= remote_hunks@.len(),
        bs <= be <= base@.len(),
        in_gap(local_hunks@, li as int, bs as int),
        in_gap(local_hunks@, li2 as int, be as int),
        in_gap(remote_hunks@, ri as int, bs as int),
        in_gap(remote_hunks@, ri2 as int, be as int),
    ensures
        view_regions(final(regions)@) == view_regions(old(regions)@) + chunk_regions(
            view_lines(base@),
            view_lines(local@),
            view_lines(remote@),
            local_hunks@,
            remote_hunks@,
            li as nat,
            ri as nat,
            li2 as nat,
            ri2 as nat,
            bs as int,
            be as int,
        ),
{
    let ghost lh = local_hunks@;
    let ghost rh = remote_hunks@;
    let _local_len = local.len();
    let _remote_len = remote.len();
    proof {
        lemma_side_pos_mono(lh, base@.len(), local@.len(), li as int, bs as int, li2 as int, be as int);
        lemma_side_pos(lh, base@.len(), local@.len(), li2 as int, be as int);
        lemma_side_pos_mono(rh, base@.len(), remote@.len(), ri as int, bs as int, ri2 as int, be as int);
        lemma_side_pos(rh, base@.len(), remote@.len(), ri2 as int, be as int);
        lemma_side_pos(lh, base@.len(), local@.len(), li as int, bs as int);
        lemma_side_pos(rh, base@.len(), remote@.len(), ri as int, bs as int);
    }
    let ls = side_position(local_hunks, li, bs);
    let le = side_position(local_hunks, li2, be);
    let rs = side_position(remote_hunks, ri, bs);
    let re = side_position(remote_hunks, ri2, be);
    let bt = &base[bs..be];
    let lt = &local[ls..le];
    let rt = &remote[rs..re];
    proof {
        lemma_view_lines_subrange(base@, bs as int, be as int);
        lemma_view_lines_subrange(local@, ls as int, le as int);
        lemma_view_lines_subrange(remote@, rs as int, re as int);
    }
    let ghost start = view_regions(regions@);
    if ri2 == ri {
        regions.push(DiffRegion::LocalOnly { base: bt, local: lt });
    } else if li2 == li {
        regions.push(DiffRegion::RemoteOnly { base: bt, remote: rt });
    } else if same_lines(lt, rt) {
        regions.push(DiffRegion::BothSame { base: bt, resolved: lt });
    } else if bs == be {
        // Same spot, different text: both are kept, local first.
        regions.push(DiffRegion::LocalOnly { base: bt, local: lt });
        regions.push(DiffRegion::RemoteOnly { base: bt, remote: rt });
    } else {
        regions.push(DiffRegion::Conflict { base: bt, local: lt, remote: rt });
    }
    proof {
        assert(view_regions(regions@) =~= start + chunk_regions(
            view_lines(base@),
            view_lines(local@),
            view_lines(remote@),
            lh,
            rh,
            li as nat,
            ri as nat,
            li2 as nat,
            ri2 as nat,
            bs as int,
            be as int,
        ));
    }
}

/// Split base/local/remote into regions, given the hunks of the two two-way diffs
/// base-to-local and base-to-remote. The regions split the base in order; hunks that
/// overlap, directly or through other hunks, form one region, while touching hunks
/// stay separate, so changes on neighbouring lines merge without conflict.
#[verifier::rlimit(60)]
pub fn reconcile_hunks<'a>(
    base: &'a [Line<'a>],
    local: &'a [Line<'a>],
    remote: &'a [Line<'a>],
    local_hunks: &[Hunk],
    remote_hunks: &[Hunk],
) -> (regions: Vec<DiffRegion<'a>>)
    requires
        edit_shape(local_hunks@, base@.len(), local@.len()),
        edit_shape(remote_hunks@, base@.len(), remote@.len()),
    ensures
        view_regions(regions@) == reconcile_walk(
            view_lines(base@),
            view_lines(local@),
            view_lines(remote@),
            local_hunks@,
            remote_hunks@,
        ),
{
    let ghost vb = view_lines(base@);
    let ghost vl = view_lines(local@);
    let ghost vr = view_lines(remote@);
    let ghost lh = local_hunks@;
    let ghost rh = remote_hunks@;
    let ghost blen = base@.len();
    proof {
        lemma_shape_base_ordered(lh, blen, local@.len());
        lemma_shape_base_ordered(rh, blen, remote@.len());
    }
    let mut regions: Vec<DiffRegion<'a>> = Vec::new();
    let mut base_pos: usize = 0;
    let mut li: usize = 0;
    let mut ri: usize = 0;
    proof {
        assert(view_regions(regions@) + walk(vb, vl, vr, lh, rh, 0, 0, 0) =~= reconcile_walk(
            vb,
            vl,
            vr,
            lh,
            rh,
        ));
    }
    while li < local_hunks.len() || ri < remote_hunks.len()
        invariant
            vb == view_lines(base@),
            vl == view_lines(local@),
            vr == view_lines(remote@),
            lh == local_hunks@,
            rh == remote_hunks@,
            blen == base@.len(),
            edit_shape(lh, blen, local@.len()),
            edit_shape(rh, blen, remote@.len()),
            base_ordered(lh, blen),
            base_ordered(rh, blen),
            walk_state(lh, rh, blen, li as nat, ri as nat, base_pos as int),
            view_regions(regions@) + walk(vb, vl, vr, lh, rh, li as nat, ri as nat, base_pos as int)
                == reconcile_walk(vb, vl, vr, lh, rh),
        decreases left(lh.len(), li as nat) + left(rh.len(), ri as nat),
    {
        let ghost old_regions = view_regions(regions@);
        let ghost old_pos = base_pos as int;
        proof {
            lemma_chunk_state(lh, rh, blen, li as nat, ri as nat, base_pos as int);
            lemma_chunk_progress(lh, rh, li as nat, ri as nat);
        }
        let l_start: usize = if li < local_hunks.len() {
            local_hunks[li].before_start as usize
        } else {
            usize::MAX
        };
        let r_start: usize = if ri < remote_hunks.len() {
            remote_hunks[ri].before_start as usize
        } else {
            usize::MAX
        };
        // Emit stable lines before the next hunk.
        let unchanged_end = if l_start < r_start {
            l_start
        } else {
            r_start
        };
        proof {
            assert(unchanged_end as int == next_start(lh, rh, li as nat, ri as nat));
        }
        if unchanged_end > base_pos {
            regions.push(DiffRegion::Unchanged { lines: &base[base_pos..unchanged_end] });
            proof {
                lemma_view_lines_subrange(base@, old_pos, unchanged_end as int);
            }
        }
        proof {
            assert(view_regions(regions@) =~= old_regions + unchanged_between(
                vb,
                old_pos,
                unchanged_end as int,
            ));
        }
        let ghost mid = view_regions(regions@);
        let (nli, nri, end) = next_chunk(local_hunks, remote_hunks, li, ri);
        push_chunk(
            base,
            local,
            remote,
            local_hunks,
            remote_hunks,
            li,
            ri,
            nli,
            nri,
            unchanged_end,
            end,
            &mut regions,
        );
        proof {
            let cr = chunk_regions(
                vb,
                vl,
                vr,
                lh,
                rh,
                li as nat,
                ri as nat,
                nli as nat,
                nri as nat,
                unchanged_end as int,
                end as int,
            );
            let w = walk(vb, vl, vr, lh, rh, nli as nat, nri as nat, end as int);
            assert(walk(vb, vl, vr, lh, rh, li as nat, ri as nat, old_pos) == unchanged_between(
                vb,
                old_pos,
                unchanged_end as int,
            ) + cr + w);
            assert(view_regions(regions@) + w =~= old_regions + walk(
                vb,
                vl,
                vr,
                lh,
                rh,
                li as nat,
                ri as nat,
                old_pos,
            ));
        }
        li = nli;
        ri = nri;
        base_pos = end;
    }
    let ghost last = view_regions(regions@);
    if base_pos < base.len() {
        regions.push(DiffRegion::Unchanged { lines: &base[base_pos..base.len()] });
        proof {
            lemma_view_lines_subrange(base@, base_pos as int, base@.len() as int);
        }
    }
    proof {
        assert(view_regions(regions@) =~= last + walk(
            vb,
            vl,
            vr,
            lh,
            rh,
            li as nat,
            ri as nat,
            base_pos as int,
        ));
    }
    regions
}

/// Split base/local/remote into regions: two two-way diffs (base to local, base to
/// remote), then a walk over both hunk lists.
pub fn reconcile<'a>(
    base: &'a [Line<'a>],
    local: &'a [Line<'a>],
    remote: &'a [Line<'a>],
) -> (regions: Vec<DiffRegion<'a>>)
    requires
        base@.len() < i32::MAX,
        local@.len() < i32::MAX,
        remote@.len() < i32::MAX,
    ensures
        view_regions(regions@) == reconcile_spec(
            view_lines(base@),
            view_lines(local@),
            view_lines(remote@),
        ),
        line_diff_facts(view_lines(base@), view_lines(local@)),
        line_diff_facts(view_lines(base@), view_lines(remote@)),
        base_lines(view_regions(regions@)) == view_lines(base@),
        contents(local_lines(view_regions(regions@))) == contents(view_lines(local@)),
        contents(remote_lines(view_regions(regions@))) == contents(view_lines(remote@)),
        conflicts_disagree(view_regions(regions@)),
        unchanged_well_placed(view_regions(regions@)),
        contents(view_lines(local@)) == contents(view_lines(base@)) ==> only_remote_changes(
            view_regions(regions@),
        ),
        contents(view_lines(remote@)) == contents(view_lines(base@)) ==> only_local_changes(
            view_regions(regions@),
        ),
        contents(view_lines(local@)) == contents(view_lines(base@)) && contents(
            view_lines(remote@),
        ) == contents(view_lines(base@)) ==> view_regions(regions@) == unchanged_between(
            view_lines(base@),
            0,
            base@.len() as int,
        ),
{
    let local_hunks = diff_lines(base, local);
    let remote_hunks = diff_lines(base, remote);
    proof {
        assert(contents(view_lines(base@)).len() == base@.len());
        assert(contents(view_lines(local@)).len() == local@.len());
        assert(contents(view_lines(remote@)).len() == remote@.len());
    }
    let regions = reconcile_hunks(
        base,
        local,
        remote,
        local_hunks.as_slice(),
        remote_hunks.as_slice(),
    );
    proof {
        let (b, l, r) = (view_lines(base@), view_lines(local@), view_lines(remote@));
        let (lh, rh) = (local_hunks@, remote_hunks@);
        lemma_shape_base_ordered(lh, base@.len(), local@.len());
        lemma_shape_base_ordered(rh, base@.len(), remote@.len());
        law_regions_split_base(b, l, r, lh, rh);
        law_regions_read_back_sides(b, l, r, lh, rh);
        law_conflicts_disagree(b, l, r, lh, rh);
        law_unchanged_well_placed(b, l, r, lh, rh);
        if contents(l) == contents(b) {
            law_remote_only_change_taken(b, l, r, lh, rh);
        }
        if contents(r) == contents(b) {
            law_local_only_change_taken(b, l, r, lh, rh);
        }
    }
    regions
}

} // verus!
