use vstd::prelude::*;
use vstd::string::StringSliceAdditionalSpecFns;

use crate::diff3::{
    conflict_free, contents, kept_lines, only_agreed, region_lines, view_regions, DiffRegion,
    RegionView,
};
use crate::tokenizer::{
    eol_bytes, lemma_render_lines_concat, lemma_view_lines_subrange, render_line, render_lines, view_lines, Eol, Line,
    LineView,
};

verus! {

/// How a conflict is written out.
#[derive(Debug, Clone, Copy, PartialEq, Eq, Structural)]
pub enum ConflictStyle {
    Diff3,
    Zdiff3,
}

/// The names written after the conflict markers.
pub struct Labels<'a> {
    pub local: &'a str,
    pub base: &'a str,
    pub remote: &'a str,
}

impl Default for Labels<'_> {
    fn default() -> (r: Self)
        ensures
            r.local@ == "LOCAL"@,
            r.base@ == "BASE"@,
            r.remote@ == "REMOTE"@,
    {
        Labels { local: "LOCAL", base: "BASE", remote: "REMOTE" }
    }
}

/// The overall result of a merge.
#[derive(Debug, Clone, Copy, PartialEq, Eq, Structural)]
pub enum MergeOutcome {
    Clean,
    AutoResolved,
    Conflict,
}

/// The label bytes of a set of labels: local, base, remote.
pub struct LabelsView {
    pub local: Seq<u8>,
    pub base: Seq<u8>,
    pub remote: Seq<u8>,
}

impl<'a> View for Labels<'a> {
    type V = LabelsView;

    open spec fn view(&self) -> LabelsView {
        LabelsView {
            local: self.local.spec_bytes(),
            base: self.base.spec_bytes(),
            remote: self.remote.spec_bytes(),
        }
    }
}

/// A marker line: seven copies of `c`, a space, the label and a newline.
pub open spec fn marker_line(c: u8, label: Seq<u8>) -> Seq<u8> {
    Seq::new(7, |_i: int| c) + seq![32u8] + label + seq![10u8]
}

/// The line between the base and the remote side: seven `=` and a newline.
pub open spec fn separator_line() -> Seq<u8> {
    Seq::new(7, |_i: int| 61u8) + seq![10u8]
}

/// A conflict written with markers: local side, base, remote side.
pub open spec fn conflict_block(
    local: Seq<LineView>,
    base: Seq<LineView>,
    remote: Seq<LineView>,
    labels: LabelsView,
) -> Seq<u8> {
    marker_line(60u8, labels.local) + render_lines(local) + marker_line(124u8, labels.base)
        + render_lines(base) + separator_line() + render_lines(remote) + marker_line(
        62u8,
        labels.remote,
    )
}

/// How many lines at the start of `a` and `b` have the same content.
pub open spec fn common_prefix(a: Seq<LineView>, b: Seq<LineView>) -> nat
    decreases a.len(),
{
    if a.len() == 0 || b.len() == 0 || a[0].content != b[0].content {
        0
    } else {
        1 + common_prefix(a.drop_first(), b.drop_first())
    }
}

/// How many lines at the end of `a` and `b` have the same content, counting at most `limit`.
pub open spec fn suffix_match(a: Seq<LineView>, b: Seq<LineView>, limit: nat) -> nat
    decreases limit,
{
    if limit == 0 || a.len() == 0 || b.len() == 0 || a.last().content != b.last().content {
        0
    } else {
        1 + suffix_match(a.drop_last(), b.drop_last(), (limit - 1) as nat)
    }
}

/// How many lines at the end of `a` and `b` have the same content, not reaching into
/// the first `prefix` lines of either.
pub open spec fn common_suffix(a: Seq<LineView>, b: Seq<LineView>, prefix: nat) -> nat {
    let ra = a.len() - prefix;
    let rb = b.len() - prefix;
    suffix_match(a, b, (if ra < rb { ra } else { rb }) as nat)
}

pub open spec fn min_nat(x: nat, y: nat) -> nat {
    if x < y {
        x
    } else {
        y
    }
}

/// A conflict in zdiff3 style: the lines that both sides share at the start and at the
/// end stand outside the markers, and the base is trimmed only where it agrees with
/// both sides.
pub open spec fn zdiff3_block(
    local: Seq<LineView>,
    base: Seq<LineView>,
    remote: Seq<LineView>,
    labels: LabelsView,
) -> Seq<u8> {
    let p = common_prefix(local, remote);
    let s = common_suffix(local, remote, p);
    let bp = min_nat(min_nat(common_prefix(base, local), common_prefix(base, remote)), p);
    let bs = min_nat(
        min_nat(common_suffix(base, local, bp), common_suffix(base, remote, bp)),
        s,
    );
    render_lines(local.take(p as int)) + conflict_block(
        local.subrange(p as int, local.len() - s),
        base.subrange(bp as int, base.len() - bs),
        remote.subrange(p as int, remote.len() - s),
        labels,
    ) + render_lines(local.skip(local.len() - s))
}

/// The bytes written for one region.
pub open spec fn render_region(r: RegionView, style: ConflictStyle, labels: LabelsView) -> Seq<
    u8,
> {
    match r {
        RegionView::Unchanged { lines } => render_lines(lines),
        RegionView::LocalOnly { local, .. } => render_lines(local),
        RegionView::RemoteOnly { remote, .. } => render_lines(remote),
        RegionView::BothSame { resolved, .. } => render_lines(resolved),
        RegionView::Conflict { base, local, remote } => match style {
            ConflictStyle::Diff3 => conflict_block(local, base, remote, labels),
            ConflictStyle::Zdiff3 => zdiff3_block(local, base, remote, labels),
        },
    }
}

/// The bytes written for a sequence of regions, one after the other.
pub open spec fn render_regions(rs: Seq<RegionView>, style: ConflictStyle, labels: LabelsView) -> Seq<
    u8,
>
    decreases rs.len(),
{
    if rs.len() == 0 {
        seq![]
    } else {
        render_regions(rs.drop_last(), style, labels) + render_region(rs.last(), style, labels)
    }
}

/// Conflict when any region conflicts; else AutoResolved when a region takes one
/// side's change; else Clean.
pub open spec fn outcome_of(rs: Seq<RegionView>) -> MergeOutcome {
    if exists|k: int| 0 <= k < rs.len() && #[trigger] rs[k] is Conflict {
        MergeOutcome::Conflict
    } else if exists|k: int|
        0 <= k < rs.len() && (#[trigger] rs[k] is LocalOnly || rs[k] is RemoteOnly) {
        MergeOutcome::AutoResolved
    } else {
        MergeOutcome::Clean
    }
}

fn write_bytes(bytes: &[u8], out: &mut Vec<u8>)
    ensures
        final(out)@ == old(out)@ + bytes@,
{
    let ghost start = out@;
    let mut i: usize = 0;
    while i < bytes.len()
        invariant
            i <= bytes@.len(),
            out@ == start + bytes@.take(i as int),
        decreases bytes@.len() - i,
    {
        out.push(bytes[i]);
        i += 1;
        proof {
            assert(bytes@.take(i as int) =~= bytes@.take(i - 1).push(bytes@[i - 1]));
        }
    }
    proof {
        assert(bytes@.take(i as int) =~= bytes@);
    }
}

fn write_line(line: &Line, out: &mut Vec<u8>)
    ensures
        final(out)@ == old(out)@ + render_line(line@),
{
    write_bytes(line.content.as_bytes(), out);
    match line.eol {
        Eol::Lf => out.push(10u8),
        Eol::CrLf => {
            out.push(13u8);
            out.push(10u8);
        },
        Eol::Cr => out.push(13u8),
        Eol::Missing => {},
    }
    proof {
        assert(final(out)@ =~= old(out)@ + line.content.spec_bytes() + eol_bytes(line.eol));
    }
}

fn write_lines(lines: &[Line], out: &mut Vec<u8>)
    ensures
        final(out)@ == old(out)@ + render_lines(view_lines(lines@)),
{
    let ghost start = out@;
    let mut i: usize = 0;
    while i < lines.len()
        invariant
            i <= lines@.len(),
            out@ == start + render_lines(view_lines(lines@.take(i as int))),
        decreases lines@.len() - i,
    {
        write_line(&lines[i], out);
        i += 1;
        proof {
            let vs = view_lines(lines@.take(i as int));
            assert(vs.drop_last() =~= view_lines(lines@.take(i - 1)));
            assert(vs.last() == lines@[i - 1]@);
        }
    }
    proof {
        assert(lines@.take(i as int) =~= lines@);
    }
}


/// Whether two texts have the same bytes.
pub(crate) fn same_text(x: &str, y: &str) -> (r: bool)
    ensures
        r == (x.spec_bytes() == y.spec_bytes()),
{
    let a = x.as_bytes();
    let b = y.as_bytes();
    if a.len() != b.len() {
        return false;
    }
    let mut i: usize = 0;
    while i < a.len()
        invariant
            a@ == x.spec_bytes(),
            b@ == y.spec_bytes(),
            a@.len() == b@.len(),
            i <= a@.len(),
            forall|j: int| 0 <= j < i ==> a@[j] == b@[j],
        decreases a@.len() - i,
    {
        if a[i] != b[i] {
            return false;
        }
        i += 1;
    }
    proof {
        assert(a@ =~= b@);
    }
    true
}

proof fn lemma_common_prefix(a: Seq<LineView>, b: Seq<LineView>, n: int)
    requires
        0 <= n <= a.len(),
        n <= b.len(),
        forall|j: int| 0 <= j < n ==> #[trigger] a[j].content == b[j].content,
        n == a.len() || n == b.len() || a[n].content != b[n].content,
    ensures
        common_prefix(a, b) == n,
    decreases n,
{
    if n > 0 {
        assert forall|j: int| 0 <= j < n - 1 implies #[trigger] a.drop_first()[j].content
            == b.drop_first()[j].content by {
            assert(a[j + 1].content == b[j + 1].content);
        }
        lemma_common_prefix(a.drop_first(), b.drop_first(), n - 1);
    }
}

proof fn lemma_suffix_match(a: Seq<LineView>, b: Seq<LineView>, limit: nat, n: int)
    requires
        0 <= n <= limit,
        limit <= a.len(),
        limit <= b.len(),
        forall|j: int|
            0 <= j < n ==> #[trigger] a[a.len() - 1 - j].content == b[b.len() - 1 - j].content,
        n == limit || a[a.len() - 1 - n].content != b[b.len() - 1 - n].content,
    ensures
        suffix_match(a, b, limit) == n,
    decreases n,
{
    if n > 0 {
        let a1 = a.drop_last();
        let b1 = b.drop_last();
        assert forall|j: int| 0 <= j < n - 1 implies #[trigger] a1[a1.len() - 1 - j].content
            == b1[b1.len() - 1 - j].content by {
            assert(a[a.len() - 1 - (j + 1)].content == b[b.len() - 1 - (j + 1)].content);
        }
        assert(a.last().content == b.last().content) by {
            assert(a[a.len() - 1 - 0].content == b[b.len() - 1 - 0].content);
        }
        lemma_suffix_match(a1, b1, (limit - 1) as nat, n - 1);
    } else if limit > 0 {
        assert(a.last().content != b.last().content);
    }
}

proof fn lemma_common_prefix_facts(a: Seq<LineView>, b: Seq<LineView>)
    ensures
        common_prefix(a, b) <= a.len(),
        common_prefix(a, b) <= b.len(),
        forall|j: int| 0 <= j < common_prefix(a, b) ==> #[trigger] a[j].content == b[j].content,
        common_prefix(a, b) == a.len() || common_prefix(a, b) == b.len() || a[common_prefix(
            a,
            b,
        ) as int].content != b[common_prefix(a, b) as int].content,
    decreases a.len(),
{
    if !(a.len() == 0 || b.len() == 0 || a[0].content != b[0].content) {
        lemma_common_prefix_facts(a.drop_first(), b.drop_first());
        let c = common_prefix(a.drop_first(), b.drop_first()) as int;
        if c < a.len() - 1 && c < b.len() - 1 {
            assert(a[c + 1] == a.drop_first()[c]);
            assert(b[c + 1] == b.drop_first()[c]);
        }
        assert forall|j: int| 0 <= j < common_prefix(a, b) implies #[trigger] a[j].content
            == b[j].content by {
            if j > 0 {
                assert(a[j] == a.drop_first()[j - 1]);
                assert(b[j] == b.drop_first()[j - 1]);
            }
        }
    }
}

proof fn lemma_suffix_match_facts(a: Seq<LineView>, b: Seq<LineView>, limit: nat)
    ensures
        suffix_match(a, b, limit) <= limit,
        suffix_match(a, b, limit) <= a.len(),
        suffix_match(a, b, limit) <= b.len(),
        forall|j: int|
            0 <= j < suffix_match(a, b, limit) ==> #[trigger] a[a.len() - 1 - j].content == b[b.len()
                - 1 - j].content,
        ({
            let n = suffix_match(a, b, limit) as int;
            n == limit || n == a.len() || n == b.len() || a[a.len() - 1 - n].content != b[b.len()
                - 1 - n].content
        }),
    decreases limit,
{
    if !(limit == 0 || a.len() == 0 || b.len() == 0 || a.last().content != b.last().content) {
        let a1 = a.drop_last();
        let b1 = b.drop_last();
        lemma_suffix_match_facts(a1, b1, (limit - 1) as nat);
        let c = suffix_match(a1, b1, (limit - 1) as nat) as int;
        if c < a1.len() && c < b1.len() {
            assert(a[a.len() - 1 - (c + 1)] == a1[a1.len() - 1 - c]);
            assert(b[b.len() - 1 - (c + 1)] == b1[b1.len() - 1 - c]);
        }
        assert forall|j: int| 0 <= j < suffix_match(a, b, limit) implies #[trigger] a[a.len() - 1
            - j].content == b[b.len() - 1 - j].content by {
            if j > 0 {
                assert(a[a.len() - 1 - j] == a1[a1.len() - 1 - (j - 1)]);
                assert(b[b.len() - 1 - j] == b1[b1.len() - 1 - (j - 1)]);
            }
        }
    }
}

/// In the zdiff3 layout of a conflict, the shared lines outside the markers belong to
/// both sides: taken with the local section they give back the local lines, and with
/// the remote section the remote lines' contents. The base section is trimmed only of
/// lines that agree with both sides.
pub proof fn law_zdiff3_layout(local: Seq<LineView>, base: Seq<LineView>, remote: Seq<LineView>)
    ensures
        ({
            let n = local.len() as int;
            let m = remote.len() as int;
            let p = common_prefix(local, remote) as int;
            let s = common_suffix(local, remote, p as nat) as int;
            let bp = min_nat(min_nat(common_prefix(base, local), common_prefix(base, remote)), p as nat) as int;
            let bs = min_nat(
                min_nat(common_suffix(base, local, bp as nat), common_suffix(base, remote, bp as nat)),
                s as nat,
            ) as int;
            let k = base.len() as int;
            &&& p + s <= n
            &&& p + s <= m
            &&& local.take(p) + local.subrange(p, n - s) + local.skip(n - s) == local
            &&& contents(local.take(p) + remote.subrange(p, m - s) + local.skip(n - s)) == contents(remote)
            &&& bp + bs <= k
            &&& forall|j: int|
                0 <= j < bp ==> #[trigger] base[j].content == local[j].content && base[j].content
                    == remote[j].content
            &&& forall|j: int|
                0 <= j < bs ==> #[trigger] base[k - 1 - j].content == local[n - 1 - j].content
                    && base[k - 1 - j].content == remote[m - 1 - j].content
        }),
{
    let n = local.len() as int;
    let m = remote.len() as int;
    let k = base.len() as int;
    lemma_common_prefix_facts(local, remote);
    let p = common_prefix(local, remote) as int;
    let ls = if n - p < m - p { n - p } else { m - p };
    lemma_suffix_match_facts(local, remote, ls as nat);
    let s = common_suffix(local, remote, p as nat) as int;
    lemma_common_prefix_facts(base, local);
    lemma_common_prefix_facts(base, remote);
    let bp = min_nat(min_nat(common_prefix(base, local), common_prefix(base, remote)), p as nat) as int;
    lemma_suffix_match_facts(base, local, (if k - bp < n - bp { k - bp } else { n - bp }) as nat);
    lemma_suffix_match_facts(base, remote, (if k - bp < m - bp { k - bp } else { m - bp }) as nat);
    let bs = min_nat(
        min_nat(common_suffix(base, local, bp as nat), common_suffix(base, remote, bp as nat)),
        s as nat,
    ) as int;
    assert(local.take(p) + local.subrange(p, n - s) + local.skip(n - s) =~= local);
    let t = local.take(p) + remote.subrange(p, m - s) + local.skip(n - s);
    assert(t.len() == m);
    assert forall|j: int| 0 <= j < m implies #[trigger] contents(t)[j] == contents(remote)[j] by {
        if j < p {
            assert(t[j] == local[j]);
        } else if j < m - s {
            assert(t[j] == remote[j]);
        } else {
            let i = m - 1 - j;
            assert(t[j] == local[n - 1 - i]);
            assert(local[n - 1 - i].content == remote[m - 1 - i].content);
        }
    }
    assert(contents(t) =~= contents(remote));
    assert forall|j: int| 0 <= j < bs implies #[trigger] base[k - 1 - j].content == local[n - 1
        - j].content && base[k - 1 - j].content == remote[m - 1 - j].content by {
        assert(local[n - 1 - j].content == remote[m - 1 - j].content);
    }
}

/// Count how many lines at the start of both slices have the same content.
fn common_prefix_len(a: &[Line], b: &[Line]) -> (r: usize)
    ensures
        r == common_prefix(view_lines(a@), view_lines(b@)),
        r <= a@.len(),
        r <= b@.len(),
{
    let mut count: usize = 0;
    let limit = if a.len() < b.len() {
        a.len()
    } else {
        b.len()
    };
    while count < limit && same_text(a[count].content, b[count].content)
        invariant
            limit <= a@.len(),
            limit <= b@.len(),
            limit == a@.len() || limit == b@.len(),
            count <= limit,
            forall|j: int| 0 <= j < count ==> #[trigger] a@[j]@.content == b@[j]@.content,
        decreases limit - count,
    {
        count += 1;
    }
    proof {
        lemma_common_prefix(view_lines(a@), view_lines(b@), count as int);
    }
    count
}

/// Count how many lines at the end of both slices have the same content,
/// not overlapping with the already-matched prefix.
fn common_suffix_len(a: &[Line], b: &[Line], prefix_len: usize) -> (r: usize)
    requires
        prefix_len <= a@.len(),
        prefix_len <= b@.len(),
    ensures
        r == common_suffix(view_lines(a@), view_lines(b@), prefix_len as nat),
        r + prefix_len <= a@.len(),
        r + prefix_len <= b@.len(),
{
    let mut count: usize = 0;
    let a_remaining = a.len() - prefix_len;
    let b_remaining = b.len() - prefix_len;
    let limit = if a_remaining < b_remaining {
        a_remaining
    } else {
        b_remaining
    };
    while count < limit && same_text(
        a[a.len() - 1 - count].content,
        b[b.len() - 1 - count].content,
    )
        invariant
            a_remaining == a@.len() - prefix_len,
            b_remaining == b@.len() - prefix_len,
            limit == (if a_remaining < b_remaining {
                a_remaining
            } else {
                b_remaining
            }),
            count <= limit,
            forall|j: int|
                0 <= j < count ==> #[trigger] a@[a@.len() - 1 - j]@.content == b@[b@.len() - 1
                    - j]@.content,
        decreases limit - count,
    {
        count += 1;
    }
    proof {
        let va = view_lines(a@);
        let vb = view_lines(b@);
        assert forall|j: int| 0 <= j < count implies #[trigger] va[va.len() - 1 - j].content
            == vb[vb.len() - 1 - j].content by {
            assert(a@[a@.len() - 1 - j]@.content == b@[b@.len() - 1 - j]@.content);
        }
        lemma_suffix_match(va, vb, limit as nat, count as int);
    }
    count
}

/// Writes a marker line: seven copies of `c`, a space, the label and a newline.
fn write_marker(c: u8, label: &str, out: &mut Vec<u8>)
    ensures
        final(out)@ == old(out)@ + marker_line(c, label.spec_bytes()),
{
    let mut i: usize = 0;
    while i < 7
        invariant
            i <= 7,
            out@ == old(out)@ + Seq::new(i as nat, |_j: int| c),
        decreases 7 - i,
    {
        out.push(c);
        i += 1;
        proof {
            assert(Seq::new(i as nat, |_j: int| c) =~= Seq::new((i - 1) as nat, |_j: int| c).push(c));
        }
    }
    out.push(32u8);
    write_bytes(label.as_bytes(), out);
    out.push(10u8);
    proof {
        assert(final(out)@ =~= old(out)@ + marker_line(c, label.spec_bytes()));
    }
}

fn write_separator(out: &mut Vec<u8>)
    ensures
        final(out)@ == old(out)@ + separator_line(),
{
    let mut i: usize = 0;
    while i < 7
        invariant
            i <= 7,
            out@ == old(out)@ + Seq::new(i as nat, |_j: int| 61u8),
        decreases 7 - i,
    {
        out.push(61u8);
        i += 1;
        proof {
            assert(Seq::new(i as nat, |_j: int| 61u8) =~= Seq::new((i - 1) as nat, |_j: int| 61u8).push(61u8));
        }
    }
    out.push(10u8);
    proof {
        assert(final(out)@ =~= old(out)@ + separator_line());
    }
}

fn write_conflict(
    out: &mut Vec<u8>,
    labels: &Labels<'_>,
    local: &[Line],
    base: &[Line],
    remote: &[Line],
)
    ensures
        final(out)@ == old(out)@ + conflict_block(
            view_lines(local@),
            view_lines(base@),
            view_lines(remote@),
            labels@,
        ),
{
    write_marker(60u8, labels.local, out);
    write_lines(local, out);
    write_marker(124u8, labels.base, out);
    write_lines(base, out);
    write_separator(out);
    write_lines(remote, out);
    write_marker(62u8, labels.remote, out);
    proof {
        assert(final(out)@ =~= old(out)@ + conflict_block(
            view_lines(local@),
            view_lines(base@),
            view_lines(remote@),
            labels@,
        ));
    }
}


#[verifier::rlimit(40)]
/// Writes one conflict in zdiff3 style.
fn write_zdiff3_conflict(
    out: &mut Vec<u8>,
    labels: &Labels<'_>,
    local: &[Line],
    base: &[Line],
    remote: &[Line],
)
    ensures
        final(out)@ == old(out)@ + zdiff3_block(
            view_lines(local@),
            view_lines(base@),
            view_lines(remote@),
            labels@,
        ),
{
    let prefix = common_prefix_len(local, remote);
    let suffix = common_suffix_len(local, remote, prefix);
    // Base trim has to agree with *both* sides, not just local.
    let bl = common_prefix_len(base, local);
    let br = common_prefix_len(base, remote);
    let mut base_prefix = if bl < br {
        bl
    } else {
        br
    };
    if prefix < base_prefix {
        base_prefix = prefix;
    }
    let sl = common_suffix_len(base, local, base_prefix);
    let sr = common_suffix_len(base, remote, base_prefix);
    let mut base_suffix = if sl < sr {
        sl
    } else {
        sr
    };
    if suffix < base_suffix {
        base_suffix = suffix;
    }
    let ghost o0 = out@;
    write_lines(&local[0..prefix], out);
    let ghost o1 = out@;
    write_conflict(
        out,
        labels,
        &local[prefix..local.len() - suffix],
        &base[base_prefix..base.len().saturating_sub(base_suffix)],
        &remote[prefix..remote.len() - suffix],
    );
    let ghost o2 = out@;
    write_lines(&local[local.len() - suffix..local.len()], out);
    proof {
        let vl = view_lines(local@);
        let vb = view_lines(base@);
        let vr = view_lines(remote@);
        lemma_view_lines_subrange(local@, 0, prefix as int);
        lemma_view_lines_subrange(local@, prefix as int, local@.len() - suffix);
        lemma_view_lines_subrange(base@, base_prefix as int, base@.len() - base_suffix);
        lemma_view_lines_subrange(remote@, prefix as int, remote@.len() - suffix);
        lemma_view_lines_subrange(local@, local@.len() - suffix, local@.len() as int);
        assert(vl.take(prefix as int) =~= vl.subrange(0, prefix as int));
        assert(vl.skip(vl.len() - suffix) =~= vl.subrange(vl.len() - suffix, vl.len() as int));
        let a = render_lines(vl.take(prefix as int));
        let b = conflict_block(
            vl.subrange(prefix as int, vl.len() - suffix),
            vb.subrange(base_prefix as int, vb.len() - base_suffix),
            vr.subrange(prefix as int, vr.len() - suffix),
            labels@,
        );
        let c = render_lines(vl.skip(vl.len() - suffix));
        assert(o1 == o0 + a);
        assert(o2 == o1 + b);
        assert(out@ == o2 + c);
        assert(zdiff3_block(vl, vb, vr, labels@) == a + b + c);
        assert(out@ =~= o0 + (a + b + c));
    }
}

/// Write merged output, returning how the merge went.
pub fn write_merged(
    regions: &[DiffRegion<'_>],
    out: &mut Vec<u8>,
    style: ConflictStyle,
    labels: &Labels<'_>,
) -> (r: MergeOutcome)
    ensures
        final(out)@ == old(out)@ + render_regions(view_regions(regions@), style, labels@),
        r == outcome_of(view_regions(regions@)),
        r == MergeOutcome::Conflict <==> exists|k: int|
            0 <= k < regions@.len() && #[trigger] view_regions(regions@)[k] is Conflict,
{
    let ghost start = out@;
    let mut had_conflict = false;
    let mut had_auto = false;
    let mut i: usize = 0;
    while i < regions.len()
        invariant
            i <= regions@.len(),
            out@ == start + render_regions(view_regions(regions@.take(i as int)), style, labels@),
            had_conflict == exists|k: int|
                0 <= k < i && #[trigger] view_regions(regions@)[k] is Conflict,
            had_auto == exists|k: int|
                0 <= k < i && (#[trigger] view_regions(regions@)[k] is LocalOnly || view_regions(
                    regions@,
                )[k] is RemoteOnly),
        decreases regions@.len() - i,
    {
        let ghost mid = out@;
        match &regions[i] {
            DiffRegion::Unchanged { lines } => {
                write_lines(lines, out);
            },
            DiffRegion::LocalOnly { local, .. } => {
                had_auto = true;
                write_lines(local, out);
            },
            DiffRegion::RemoteOnly { remote, .. } => {
                had_auto = true;
                write_lines(remote, out);
            },
            DiffRegion::BothSame { resolved, .. } => {
                write_lines(resolved, out);
            },
            DiffRegion::Conflict { base, local, remote } => {
                had_conflict = true;
                match style {
                    ConflictStyle::Diff3 => {
                        write_conflict(out, labels, local, base, remote);
                    },
                    ConflictStyle::Zdiff3 => {
                        write_zdiff3_conflict(out, labels, local, base, remote);
                    },
                }
            },
        }
        i += 1;
        proof {
            let vs = view_regions(regions@.take(i as int));
            assert(vs.drop_last() =~= view_regions(regions@.take(i - 1)));
            assert(vs.last() == view_regions(regions@)[i - 1]);
            assert(out@ == mid + render_region(vs.last(), style, labels@));
        }
    }
    proof {
        assert(regions@.take(i as int) =~= regions@);
    }
    proof {
        law_outcome_rules(view_regions(regions@));
    }
    if had_conflict {
        MergeOutcome::Conflict
    } else if had_auto {
        MergeOutcome::AutoResolved
    } else {
        MergeOutcome::Clean
    }
}


/// Without conflicts the style plays no part: the merged text is the kept lines,
/// written one after the other.
pub proof fn law_conflict_free_renders_kept_lines(
    rs: Seq<RegionView>,
    style: ConflictStyle,
    labels: LabelsView,
)
    requires
        conflict_free(rs),
    ensures
        render_regions(rs, style, labels) == render_lines(kept_lines(rs)),
    decreases rs.len(),
{
    if rs.len() > 0 {
        assert forall|k: int| 0 <= k < rs.drop_last().len() implies !(
        #[trigger] rs.drop_last()[k] is Conflict) by {
            assert(rs.drop_last()[k] == rs[k]);
        }
        law_conflict_free_renders_kept_lines(rs.drop_last(), style, labels);
        assert(!(rs[rs.len() - 1] is Conflict));
        lemma_render_lines_concat(kept_lines(rs.drop_last()), region_lines(rs.last()));
    }
}

/// The outcome of regions that keep only the base and agreed changes is Clean; the
/// outcome of conflict-free regions is not Conflict.
pub proof fn law_outcome_of_agreed(rs: Seq<RegionView>)
    ensures
        only_agreed(rs) ==> outcome_of(rs) == MergeOutcome::Clean,
        conflict_free(rs) ==> outcome_of(rs) != MergeOutcome::Conflict,
{
    if only_agreed(rs) {
        assert(!exists|k: int| 0 <= k < rs.len() && #[trigger] rs[k] is Conflict);
        assert(!exists|k: int|
            0 <= k < rs.len() && (#[trigger] rs[k] is LocalOnly || rs[k] is RemoteOnly));
    }
}

/// Writing regions one after the other: the text for two sequences of regions is the
/// text for the first followed by the text for the second, whatever either holds.
pub proof fn law_render_regions_concat(
    a: Seq<RegionView>,
    b: Seq<RegionView>,
    style: ConflictStyle,
    labels: LabelsView,
)
    ensures
        render_regions(a + b, style, labels) == render_regions(a, style, labels) + render_regions(
            b,
            style,
            labels,
        ),
    decreases b.len(),
{
    if b.len() == 0 {
        assert(a + b =~= a);
        assert(render_regions(a, style, labels) + render_regions(b, style, labels) =~= render_regions(
            a,
            style,
            labels,
        ));
    } else {
        law_render_regions_concat(a, b.drop_last(), style, labels);
        assert((a + b).drop_last() =~= a + b.drop_last());
        assert((a + b).last() == b.last());
        assert(render_regions(a + b, style, labels) =~= render_regions(a, style, labels)
            + render_regions(b, style, labels));
    }
}

proof fn lemma_render_single(r: RegionView, style: ConflictStyle, labels: LabelsView)
    ensures
        render_regions(seq![r], style, labels) == render_region(r, style, labels),
{
    let e = Seq::<RegionView>::empty();
    assert(seq![r].drop_last() =~= e);
    assert(seq![r].last() == r);
    assert(render_regions(e, style, labels) == Seq::<u8>::empty());
    assert(render_regions(seq![r], style, labels) == render_regions(e, style, labels) + render_region(r, style, labels));
    assert(Seq::<u8>::empty() + render_region(r, style, labels) =~= render_region(r, style, labels));
}

/// A region that is not a conflict is written as the lines it keeps: the base's for
/// an unchanged stretch, the changed side's for a one-sided change, the agreed lines
/// for a change both sides made.
pub proof fn law_kept_region_written(r: RegionView, style: ConflictStyle, labels: LabelsView)
    ensures
        match r {
            RegionView::Unchanged { lines } => render_regions(seq![r], style, labels)
                == render_lines(lines),
            RegionView::LocalOnly { local, .. } => render_regions(seq![r], style, labels)
                == render_lines(local),
            RegionView::RemoteOnly { remote, .. } => render_regions(seq![r], style, labels)
                == render_lines(remote),
            RegionView::BothSame { resolved, .. } => render_regions(seq![r], style, labels)
                == render_lines(resolved),
            RegionView::Conflict { .. } => true,
        },
        !(r is Conflict) ==> render_regions(seq![r], style, labels) == render_lines(
            region_lines(r),
        ),
{
    lemma_render_single(r, style, labels);
}

/// Each region is written in its place the same way, whatever the regions around it
/// hold: the text is that of the regions before it, then the region's own text, then
/// that of the regions after it; a region that is not a conflict contributes exactly
/// the lines it keeps.
pub proof fn law_each_region_written(
    rs: Seq<RegionView>,
    k: int,
    style: ConflictStyle,
    labels: LabelsView,
)
    requires
        0 <= k < rs.len(),
    ensures
        render_regions(rs, style, labels) == render_regions(rs.take(k), style, labels)
            + render_regions(seq![rs[k]], style, labels) + render_regions(
            rs.skip(k + 1),
            style,
            labels,
        ),
        !(rs[k] is Conflict) ==> render_regions(rs, style, labels) == render_regions(
            rs.take(k),
            style,
            labels,
        ) + render_lines(region_lines(rs[k])) + render_regions(rs.skip(k + 1), style, labels),
{
    assert(rs =~= rs.take(k) + seq![rs[k]] + rs.skip(k + 1));
    law_render_regions_concat(rs.take(k), seq![rs[k]], style, labels);
    law_render_regions_concat(rs.take(k) + seq![rs[k]], rs.skip(k + 1), style, labels);
    law_kept_region_written(rs[k], style, labels);
}

/// In diff3 style a conflict is written whole: the local marker, every local line, the
/// base marker, every base line, the separator, every remote line, and the remote
/// marker.
pub proof fn law_diff3_conflict_written(
    base: Seq<LineView>,
    local: Seq<LineView>,
    remote: Seq<LineView>,
    labels: LabelsView,
)
    ensures
        render_regions(
            seq![RegionView::Conflict { base, local, remote }],
            ConflictStyle::Diff3,
            labels,
        ) == marker_line(60u8, labels.local) + render_lines(local) + marker_line(124u8, labels.base)
            + render_lines(base) + separator_line() + render_lines(remote) + marker_line(
            62u8,
            labels.remote,
        ),
{
    law_kept_region_written(RegionView::Conflict { base, local, remote }, ConflictStyle::Diff3, labels);
    lemma_render_single(RegionView::Conflict { base, local, remote }, ConflictStyle::Diff3, labels);
}

/// In zdiff3 style a conflict is written as: the lines that both sides share at the
/// start (`p` of them, as many as there are), the markers around the sides without
/// those shared lines and without the lines both share at the end (`s`, as many as
/// there are after the first `p`), and the shared end lines. The base section leaves
/// out only base lines that agree with both sides and lie inside the shared start or
/// end (`bp` at the start, `bs` at the end), as many as there are.
pub proof fn law_zdiff3_conflict_written(
    base: Seq<LineView>,
    local: Seq<LineView>,
    remote: Seq<LineView>,
    labels: LabelsView,
)
    ensures
        ({
            let n = local.len() as int;
            let m = remote.len() as int;
            let k = base.len() as int;
            let p = common_prefix(local, remote) as int;
            let s = common_suffix(local, remote, p as nat) as int;
            let bp = min_nat(min_nat(common_prefix(base, local), common_prefix(base, remote)), p as nat) as int;
            let bs = min_nat(
                min_nat(common_suffix(base, local, bp as nat), common_suffix(base, remote, bp as nat)),
                s as nat,
            ) as int;
            &&& 0 <= p && 0 <= s && p + s <= n && p + s <= m
            &&& forall|j: int| 0 <= j < p ==> #[trigger] local[j].content == remote[j].content
            &&& forall|j: int|
                0 <= j < s ==> #[trigger] local[n - 1 - j].content == remote[m - 1 - j].content
            &&& (p == n || p == m || local[p].content != remote[p].content)
            &&& (p + s == n || p + s == m || local[n - 1 - s].content != remote[m - 1 - s].content)
            &&& 0 <= bp <= p && 0 <= bs <= s && bp + bs <= k
            &&& forall|j: int|
                0 <= j < bp ==> #[trigger] base[j].content == local[j].content && base[j].content
                    == remote[j].content
            &&& forall|j: int|
                0 <= j < bs ==> #[trigger] base[k - 1 - j].content == local[n - 1 - j].content
                    && base[k - 1 - j].content == remote[m - 1 - j].content
            &&& (bp == p || bp == k || base[bp].content != local[bp].content || base[bp].content
                != remote[bp].content)
            &&& (bs == s || bp + bs == k || base[k - 1 - bs].content != local[n - 1 - bs].content
                || base[k - 1 - bs].content != remote[m - 1 - bs].content)
            &&& render_regions(
                seq![RegionView::Conflict { base, local, remote }],
                ConflictStyle::Zdiff3,
                labels,
            ) == render_lines(local.take(p)) + marker_line(60u8, labels.local) + render_lines(
                local.subrange(p, n - s),
            ) + marker_line(124u8, labels.base) + render_lines(base.subrange(bp, k - bs))
                + separator_line() + render_lines(remote.subrange(p, m - s)) + marker_line(
                62u8,
                labels.remote,
            ) + render_lines(local.skip(n - s))
        }),
{
    let n = local.len() as int;
    let m = remote.len() as int;
    let k = base.len() as int;
    lemma_common_prefix_facts(local, remote);
    let p = common_prefix(local, remote) as int;
    let ls = if n - p < m - p { n - p } else { m - p };
    lemma_suffix_match_facts(local, remote, ls as nat);
    let s = common_suffix(local, remote, p as nat) as int;
    lemma_common_prefix_facts(base, local);
    lemma_common_prefix_facts(base, remote);
    let bp = min_nat(min_nat(common_prefix(base, local), common_prefix(base, remote)), p as nat) as int;
    let ll = (if k - bp < n - bp { k - bp } else { n - bp }) as nat;
    let lr = (if k - bp < m - bp { k - bp } else { m - bp }) as nat;
    lemma_suffix_match_facts(base, local, ll);
    lemma_suffix_match_facts(base, remote, lr);
    let bs = min_nat(
        min_nat(common_suffix(base, local, bp as nat), common_suffix(base, remote, bp as nat)),
        s as nat,
    ) as int;
    assert forall|j: int| 0 <= j < bp implies #[trigger] base[j].content == local[j].content
        && base[j].content == remote[j].content by {
        assert(local[j].content == remote[j].content);
    }
    assert forall|j: int| 0 <= j < bs implies #[trigger] base[k - 1 - j].content == local[n - 1
        - j].content && base[k - 1 - j].content == remote[m - 1 - j].content by {
        assert(local[n - 1 - j].content == remote[m - 1 - j].content);
    }
    lemma_render_single(RegionView::Conflict { base, local, remote }, ConflictStyle::Zdiff3, labels);
    let a = render_lines(local.take(p));
    let c = render_lines(local.skip(n - s));
    let m1 = marker_line(60u8, labels.local);
    let x1 = render_lines(local.subrange(p, n - s));
    let m2 = marker_line(124u8, labels.base);
    let x2 = render_lines(base.subrange(bp, k - bs));
    let sep = separator_line();
    let x3 = render_lines(remote.subrange(p, m - s));
    let m3 = marker_line(62u8, labels.remote);
    assert(zdiff3_block(local, base, remote, labels) == a + (m1 + x1 + m2 + x2 + sep + x3 + m3)
        + c);
    assert(a + (m1 + x1 + m2 + x2 + sep + x3 + m3) + c =~= a + m1 + x1 + m2 + x2 + sep + x3 + m3
        + c);
}

/// How a merge went follows from its regions: Conflict as soon as any region is a
/// conflict; otherwise AutoResolved as soon as a region takes one side's change;
/// otherwise (only unchanged stretches and agreed changes) Clean.
pub proof fn law_outcome_rules(rs: Seq<RegionView>)
    ensures
        (exists|k: int| 0 <= k < rs.len() && #[trigger] rs[k] is Conflict) ==> outcome_of(rs)
            == MergeOutcome::Conflict,
        (forall|k: int| 0 <= k < rs.len() ==> !(#[trigger] rs[k] is Conflict)) && (exists|k: int|
            0 <= k < rs.len() && (#[trigger] rs[k] is LocalOnly || rs[k] is RemoteOnly))
            ==> outcome_of(rs) == MergeOutcome::AutoResolved,
        (forall|k: int| 0 <= k < rs.len() ==> (#[trigger] rs[k] is Unchanged || rs[k] is BothSame))
            ==> outcome_of(rs) == MergeOutcome::Clean,
        outcome_of(rs) == MergeOutcome::Conflict ==> exists|k: int|
            0 <= k < rs.len() && #[trigger] rs[k] is Conflict,
{
    if forall|k: int| 0 <= k < rs.len() ==> (#[trigger] rs[k] is Unchanged || rs[k] is BothSame) {
        assert(!exists|k: int| 0 <= k < rs.len() && #[trigger] rs[k] is Conflict);
        assert(!exists|k: int|
            0 <= k < rs.len() && (#[trigger] rs[k] is LocalOnly || rs[k] is RemoteOnly));
    }
    if forall|k: int| 0 <= k < rs.len() ==> !(#[trigger] rs[k] is Conflict) {
        assert(!exists|k: int| 0 <= k < rs.len() && #[trigger] rs[k] is Conflict);
    }
}

/// A marker line is seven copies of the marker byte, a space, the label and a newline;
/// the separator is seven `=` and a newline.
pub proof fn law_marker_bytes(c: u8, label: Seq<u8>)
    ensures
        marker_line(c, label).len() == label.len() + 9,
        forall|j: int| 0 <= j < 7 ==> #[trigger] marker_line(c, label)[j] == c,
        marker_line(c, label)[7] == 32u8,
        marker_line(c, label).subrange(8, label.len() + 8 as int) == label,
        marker_line(c, label).last() == 10u8,
        separator_line() == seq![61u8, 61u8, 61u8, 61u8, 61u8, 61u8, 61u8, 10u8],
{
    let m = marker_line(c, label);
    assert(m.subrange(8, label.len() + 8 as int) =~= label);
    assert(separator_line() =~= seq![61u8, 61u8, 61u8, 61u8, 61u8, 61u8, 61u8, 10u8]);
}

} // verus!
