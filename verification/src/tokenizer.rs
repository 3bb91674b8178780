use vstd::prelude::*;
use vstd::string::StringSliceAdditionalSpecFns;
use vstd::utf8::*;

use crate::error::MergeError;

verus! {

broadcast use vstd::utf8::group_utf8_lib;

/// How a line ended in the input.
#[derive(Debug, Clone, Copy, PartialEq, Eq, Hash, Structural)]
pub enum Eol {
    Lf,
    CrLf,
    Cr,
    Missing,
}

/// One line of the input: its text without the line terminator, and the terminator.
#[derive(Debug, Clone)]
pub struct Line<'a> {
    pub content: &'a str,
    pub eol: Eol,
}

/// What a line is, as bytes: the content and the terminator.
#[verifier::ext_equal]
pub struct LineView {
    pub content: Seq<u8>,
    pub eol: Eol,
}

impl<'a> View for Line<'a> {
    type V = LineView;

    open spec fn view(&self) -> LineView {
        LineView { content: self.content.spec_bytes(), eol: self.eol }
    }
}

/// The views of a sequence of lines.
pub open spec fn view_lines<'a>(lines: Seq<Line<'a>>) -> Seq<LineView> {
    lines.map_values(|l: Line<'a>| l@)
}

/// A byte that ends a line: `\n` or `\r`.
pub open spec fn is_break(b: u8) -> bool {
    b == 10u8 || b == 13u8
}

/// Index of the first line-break byte in `s`, or `s.len()` when there is none.
pub open spec fn first_break(s: Seq<u8>) -> nat
    decreases s.len(),
{
    if s.len() == 0 {
        0
    } else if is_break(s[0]) {
        0
    } else {
        1 + first_break(s.drop_first())
    }
}

/// The bytes that a line terminator stands for.
pub open spec fn eol_bytes(e: Eol) -> Seq<u8> {
    match e {
        Eol::Lf => seq![10u8],
        Eol::CrLf => seq![13u8, 10u8],
        Eol::Cr => seq![13u8],
        Eol::Missing => seq![],
    }
}

/// The terminator that starts at the break byte `s[i]`: `\r\n` is one terminator.
pub open spec fn eol_at(s: Seq<u8>, i: int) -> Eol {
    if s[i] == 13u8 {
        if i + 1 < s.len() && s[i + 1] == 10u8 {
            Eol::CrLf
        } else {
            Eol::Cr
        }
    } else {
        Eol::Lf
    }
}

pub proof fn lemma_first_break(s: Seq<u8>)
    ensures
        first_break(s) <= s.len(),
        forall|j: int| 0 <= j < first_break(s) ==> !is_break(#[trigger] s[j]),
        first_break(s) < s.len() ==> is_break(s[first_break(s) as int]),
    decreases s.len(),
{
    if s.len() > 0 && !is_break(s[0]) {
        lemma_first_break(s.drop_first());
        assert forall|j: int| 0 <= j < first_break(s) implies !is_break(#[trigger] s[j]) by {
            if j > 0 {
                assert(s[j] == s.drop_first()[j - 1]);
            }
        }
    }
}

/// The lines of `s`: each ends at the first `\n`, `\r\n` or `\r`, and a last line
/// without terminator holds what follows the last one.
pub open spec fn split_lines(s: Seq<u8>) -> Seq<LineView>
    decreases s.len(),
{
    if s.len() == 0 {
        seq![]
    } else {
        let i = first_break(s) as int;
        if i >= s.len() {
            seq![LineView { content: s, eol: Eol::Missing }]
        } else {
            let e = eol_at(s, i);
            proof {
                lemma_first_break(s);
            }
            seq![LineView { content: s.take(i), eol: e }] + split_lines(s.skip(i + eol_bytes(e).len()))
        }
    }
}


/// The bytes of one line: its content followed by its terminator.
pub open spec fn render_line(l: LineView) -> Seq<u8> {
    l.content + eol_bytes(l.eol)
}

/// The bytes of a sequence of lines, one after the other.
pub open spec fn render_lines(lines: Seq<LineView>) -> Seq<u8>
    decreases lines.len(),
{
    if lines.len() == 0 {
        seq![]
    } else {
        render_lines(lines.drop_last()) + render_line(lines.last())
    }
}

pub proof fn lemma_render_lines_concat(a: Seq<LineView>, b: Seq<LineView>)
    ensures
        render_lines(a + b) == render_lines(a) + render_lines(b),
    decreases b.len(),
{
    if b.len() == 0 {
        assert(a + b =~= a);
    } else {
        lemma_render_lines_concat(a, b.drop_last());
        assert((a + b).drop_last() =~= a + b.drop_last());
    }
}

pub proof fn lemma_render_lines_single(l: LineView)
    ensures
        render_lines(seq![l]) == render_line(l),
{
    assert(seq![l].drop_last() =~= Seq::<LineView>::empty());
    assert(render_lines(Seq::<LineView>::empty()) + render_line(l) =~= render_line(l));
}

/// Splitting the input into lines and writing the lines back gives the input, byte for byte.
pub proof fn lemma_split_render_roundtrip(s: Seq<u8>)
    ensures
        render_lines(split_lines(s)) == s,
    decreases s.len(),
{
    if s.len() == 0 {
    } else {
        lemma_first_break(s);
        let i = first_break(s) as int;
        if i >= s.len() {
            lemma_render_lines_single(LineView { content: s, eol: Eol::Missing });
            assert(s + Seq::<u8>::empty() =~= s);
        } else {
            let e = eol_at(s, i);
            let k = eol_bytes(e).len() as int;
            let first = LineView { content: s.take(i), eol: e };
            let rest = s.skip(i + k);
            lemma_split_render_roundtrip(rest);
            lemma_render_lines_concat(seq![first], split_lines(rest));
            lemma_render_lines_single(first);
            assert(eol_bytes(e) =~= s.subrange(i, i + k));
            assert(s.take(i) + eol_bytes(e) + rest =~= s);
        }
    }
}

/// There are never more lines than bytes.
pub proof fn lemma_split_lines_len(s: Seq<u8>)
    ensures
        split_lines(s).len() <= s.len(),
    decreases s.len(),
{
    if s.len() > 0 {
        lemma_first_break(s);
        let i = first_break(s) as int;
        if i < s.len() {
            let e = eol_at(s, i);
            lemma_split_lines_len(s.skip(i + eol_bytes(e).len()));
        }
    }
}

/// No line content holds a `\n` or a `\r`.
pub proof fn lemma_split_contents_have_no_break(s: Seq<u8>)
    ensures
        forall|k: int, j: int|
            0 <= k < split_lines(s).len() && 0 <= j < split_lines(s)[k].content.len()
                ==> !is_break(#[trigger] split_lines(s)[k].content[j]),
    decreases s.len(),
{
    if s.len() > 0 {
        lemma_first_break(s);
        let i = first_break(s) as int;
        if i < s.len() {
            let e = eol_at(s, i);
            let rest = s.skip(i + eol_bytes(e).len());
            lemma_split_contents_have_no_break(rest);
            assert forall|k: int, j: int|
                0 <= k < split_lines(s).len() && 0 <= j < split_lines(s)[k].content.len()
                implies !is_break(#[trigger] split_lines(s)[k].content[j]) by {
                if k > 0 {
                    assert(split_lines(s)[k] == split_lines(rest)[k - 1]);
                } else {
                    assert(split_lines(s)[k].content[j] == s[j]);
                }
            }
        } else {
            assert forall|k: int, j: int|
                0 <= k < split_lines(s).len() && 0 <= j < split_lines(s)[k].content.len()
                implies !is_break(#[trigger] split_lines(s)[k].content[j]) by {
                assert(split_lines(s)[k].content[j] == s[j]);
            }
        }
    }
}

proof fn lemma_split_first_line(s: Seq<u8>)
    requires
        s.len() > 0,
    ensures
        split_lines(s).len() > 0,
        split_lines(s)[0].content.len() == 0 && split_lines(s)[0].eol == Eol::Lf ==> s[0] == 10u8,
{
    lemma_first_break(s);
    let i = first_break(s) as int;
    if i < s.len() {
        let e = eol_at(s, i);
        assert(split_lines(s)[0] == LineView { content: s.take(i), eol: e });
    }
}

/// Only the last line may lack a terminator, and a `\r` followed by `\n` is one
/// terminator: a line ended by a lone `\r` is never followed by an empty line ended
/// by `\n`.
pub proof fn lemma_split_lines_terminated(s: Seq<u8>)
    ensures
        forall|k: int|
            #![trigger split_lines(s)[k]]
            0 <= k < split_lines(s).len() - 1 ==> split_lines(s)[k].eol != Eol::Missing,
        forall|k: int|
            #![trigger split_lines(s)[k]]
            0 <= k < split_lines(s).len() - 1 && split_lines(s)[k].eol == Eol::Cr ==> !(split_lines(
                s,
            )[k + 1].content.len() == 0 && split_lines(s)[k + 1].eol == Eol::Lf),
{
    assert forall|k: int| #![trigger split_lines(s)[k]] 0 <= k < split_lines(s).len() - 1 implies {
        &&& split_lines(s)[k].eol != Eol::Missing
        &&& split_lines(s)[k].eol == Eol::Cr ==> !(split_lines(s)[k + 1].content.len() == 0
            && split_lines(s)[k + 1].eol == Eol::Lf)
    } by {
        lemma_split_line_terminated(s, k);
    }
}

proof fn lemma_split_line_terminated(s: Seq<u8>, k: int)
    requires
        0 <= k < split_lines(s).len() - 1,
    ensures
        split_lines(s)[k].eol != Eol::Missing,
        split_lines(s)[k].eol == Eol::Cr ==> !(split_lines(s)[k + 1].content.len() == 0
            && split_lines(s)[k + 1].eol == Eol::Lf),
    decreases s.len(),
{
    lemma_first_break(s);
    let i = first_break(s) as int;
    if i < s.len() {
        let e = eol_at(s, i);
        let rest = s.skip(i + eol_bytes(e).len());
        let lr = split_lines(rest);
        let ls = split_lines(s);
        let first = LineView { content: s.take(i), eol: e };
        assert(ls == seq![first] + lr);
        if k > 0 {
            lemma_split_line_terminated(rest, k - 1);
            assert(ls[k] == lr[k - 1]);
            assert(ls[k + 1] == lr[k]);
        } else {
            assert(rest.len() > 0);
            lemma_split_first_line(rest);
            assert(ls[1] == lr[0]);
            assert(ls[0] == first);
            if e == Eol::Cr {
                assert(rest[0] == s[i + 1]);
            }
        }
    }
}

/// A text whose lines all end in `\n`: it holds no `\r`, and it is empty or ends in `\n`.
pub open spec fn lf_text(s: Seq<u8>) -> bool {
    &&& forall|j: int| 0 <= j < s.len() ==> #[trigger] s[j] != 13u8
    &&& (s.len() == 0 || s.last() == 10u8)
}

/// Every line ends in `\n`.
pub open spec fn all_lf(lines: Seq<LineView>) -> bool {
    forall|k: int| 0 <= k < lines.len() ==> #[trigger] lines[k].eol == Eol::Lf
}

proof fn lemma_split_line_lf(s: Seq<u8>, k: int)
    requires
        lf_text(s),
        0 <= k < split_lines(s).len(),
    ensures
        split_lines(s)[k].eol == Eol::Lf,
    decreases s.len(),
{
    lemma_first_break(s);
    let i = first_break(s) as int;
    if i >= s.len() {
        assert(is_break(s[s.len() - 1]));
        assert(false);
    } else {
        let e = eol_at(s, i);
        assert(s[i] != 13u8);
        assert(e == Eol::Lf);
        let rest = s.skip(i + 1);
        let first = LineView { content: s.take(i), eol: e };
        assert(split_lines(s) == seq![first] + split_lines(rest));
        if k > 0 {
            assert forall|j: int| 0 <= j < rest.len() implies #[trigger] rest[j] != 13u8 by {
                assert(rest[j] == s[i + 1 + j]);
            }
            if rest.len() > 0 {
                assert(rest.last() == s.last());
            }
            lemma_split_line_lf(rest, k - 1);
            assert(split_lines(s)[k] == split_lines(rest)[k - 1]);
        }
    }
}

/// The lines of a text without `\r` that is empty or ends in `\n` all end in `\n`.
pub proof fn lemma_split_lines_lf(s: Seq<u8>)
    requires
        lf_text(s),
    ensures
        all_lf(split_lines(s)),
{
    assert forall|k: int| 0 <= k < split_lines(s).len() implies #[trigger] split_lines(s)[k].eol
        == Eol::Lf by {
        lemma_split_line_lf(s, k);
    }
}

/// A non-empty input gives at least one line, and the last line has no terminator
/// exactly when the input does not end with `\n` or `\r`.
pub proof fn lemma_split_last_line_eol(s: Seq<u8>)
    requires
        s.len() > 0,
    ensures
        split_lines(s).len() > 0,
        split_lines(s).last().eol == Eol::Missing <==> !is_break(s.last()),
    decreases s.len(),
{
    lemma_first_break(s);
    let i = first_break(s) as int;
    if i >= s.len() {
        assert(!is_break(s[s.len() - 1]));
    } else {
        let e = eol_at(s, i);
        let k = eol_bytes(e).len() as int;
        let rest = s.skip(i + k);
        if rest.len() == 0 {
            assert(split_lines(rest).len() == 0);
            assert(split_lines(s) =~= seq![LineView { content: s.take(i), eol: e }]);
            assert(i + k == s.len());
        } else {
            lemma_split_last_line_eol(rest);
            assert(split_lines(s).last() == split_lines(rest).last());
            assert(rest.last() == s.last());
        }
    }
}

/// `p` is the length of the longest prefix of `s` that is well-formed UTF-8.
pub open spec fn longest_valid_prefix(s: Seq<u8>, p: int) -> bool {
    &&& 0 <= p <= s.len()
    &&& valid_utf8(s.take(p))
    &&& forall|q: int| p < q <= s.len() ==> !valid_utf8(#[trigger] s.take(q))
}

/// `std::str::from_utf8`: succeeds exactly on well-formed UTF-8, and the text it
/// returns has the input's bytes. On failure the error comes with the position that
/// `Utf8Error::valid_up_to` reports, which std documents as the largest index such
/// that `from_utf8(&input[..index])` succeeds: the length of the longest valid prefix.
#[verifier::external_body]
fn str_from_utf8(input: &[u8]) -> (r: Result<&str, (usize, std::str::Utf8Error)>)
    ensures
        r is Ok <==> valid_utf8(input@),
        r matches Ok(text) ==> text.spec_bytes() == input@,
        r matches Err((position, _)) ==> longest_valid_prefix(input@, position as int),
{
    match std::str::from_utf8(input) {
        Ok(text) => Ok(text),
        Err(e) => Err((e.valid_up_to(), e)),
    }
}

/// `memchr::memchr2`: the index of the first byte of `haystack` equal to
/// `needle1` or `needle2`, or `None` when there is no such byte.
#[verifier::external_body]
fn memchr2(needle1: u8, needle2: u8, haystack: &[u8]) -> (r: Option<usize>)
    ensures
        match r {
            Some(i) => {
                &&& i < haystack@.len()
                &&& (haystack@[i as int] == needle1 || haystack@[i as int] == needle2)
                &&& forall|j: int|
                    0 <= j < i ==> #[trigger] haystack@[j] != needle1 && haystack@[j] != needle2
            },
            None => forall|j: int|
                0 <= j < haystack@.len() ==> #[trigger] haystack@[j] != needle1 && haystack@[j]
                    != needle2,
        },
{
    memchr::memchr2(needle1, needle2, haystack)
}

proof fn lemma_ascii_first_boundary(b: Seq<u8>)
    requires
        valid_utf8(b),
        b.len() > 0,
        b[0] < 0x80,
    ensures
        is_char_boundary(b, 1),
{
    reveal_with_fuel(is_char_boundary, 2);
    assert(pop_first_scalar(b) =~= b.subrange(1, b.len() as int));
}

/// Drops the first byte of a text that starts with an ASCII byte.
fn drop_first_ascii<'a>(s: &'a str) -> (r: &'a str)
    requires
        s.spec_bytes().len() > 0,
        s.spec_bytes()[0] < 0x80,
    ensures
        r.spec_bytes() == s.spec_bytes().skip(1),
{
    proof {
        lemma_ascii_first_boundary(s.spec_bytes());
    }
    let (_, r) = s.split_at(1);
    proof {
        assert(s.spec_bytes().subrange(1, s.spec_bytes().len() as int) =~= s.spec_bytes().skip(1));
    }
    r
}

proof fn lemma_tokenized_terminated<'a>(lines: Seq<Line<'a>>, input: Seq<u8>)
    requires
        view_lines(lines) == split_lines(input),
    ensures
        forall|k: int|
            #![trigger lines[k]]
            0 <= k < lines.len() - 1 ==> lines[k].eol != Eol::Missing,
        forall|j: int, k: int|
            #![trigger lines[j], lines[k]]
            0 <= j && k == j + 1 && k < lines.len() && lines[j].eol == Eol::Cr ==> !(
            lines[k]@.content.len() == 0 && lines[k].eol == Eol::Lf),
{
    lemma_split_lines_terminated(input);
    assert forall|k: int| 0 <= k < lines.len() - 1 implies #[trigger] lines[k].eol != Eol::Missing by {
        assert(view_lines(lines)[k] == lines[k]@);
    }
    assert forall|j: int, k: int|
        #![trigger lines[j], lines[k]]
        0 <= j && k == j + 1 && k < lines.len() && lines[j].eol == Eol::Cr implies !(
        lines[k]@.content.len() == 0 && lines[k].eol == Eol::Lf) by {
        assert(view_lines(lines)[j] == lines[j]@);
        assert(view_lines(lines)[k] == lines[k]@);
        assert(split_lines(input)[j] == lines[j]@);
    }
}

proof fn lemma_tokenized_lines<'a>(lines: Seq<Line<'a>>, input: Seq<u8>)
    requires
        view_lines(lines) == split_lines(input),
    ensures
        render_lines(view_lines(lines)) == input,
        forall|k: int, j: int|
            0 <= k < lines.len() && 0 <= j < lines[k]@.content.len() ==> !is_break(
                #[trigger] lines[k]@.content[j],
            ),
        input.len() > 0 ==> lines.len() > 0 && (lines.last().eol == Eol::Missing <==> !is_break(
            input.last(),
        )),
{
    lemma_split_render_roundtrip(input);
    lemma_split_contents_have_no_break(input);
    assert forall|k: int| 0 <= k < lines.len() implies #[trigger] lines[k]@ == split_lines(input)[k] by {
        assert(view_lines(lines)[k] == lines[k]@);
    }
    if input.len() > 0 {
        lemma_split_last_line_eol(input);
        assert(lines.last()@ == split_lines(input).last());
    }
}

/// Split input bytes into lines, tracking EOL style separately from content.
///
/// Fails exactly when the input is not UTF-8, with the length of its longest valid
/// prefix as the position; otherwise the lines are `split_lines` of the input.
pub fn tokenize<'a>(input: &'a [u8]) -> (r: Result<Vec<Line<'a>>, MergeError>)
    ensures
        r is Ok <==> valid_utf8(input@),
        r matches Ok(lines) ==> view_lines(lines@) == split_lines(input@),
        r matches Ok(lines) ==> render_lines(view_lines(lines@)) == input@,
        r matches Ok(lines) ==> forall|k: int, j: int|
            0 <= k < lines@.len() && 0 <= j < lines@[k]@.content.len() ==> !is_break(
                #[trigger] lines@[k]@.content[j],
            ),
        r matches Ok(lines) ==> (input@.len() > 0 ==> lines@.len() > 0 && (lines@.last().eol
            == Eol::Missing <==> !is_break(input@.last()))),
        r matches Ok(lines) ==> forall|k: int|
            #![trigger lines@[k]]
            0 <= k < lines@.len() - 1 ==> lines@[k].eol != Eol::Missing,
        r matches Ok(lines) ==> forall|j: int, k: int|
            #![trigger lines@[j], lines@[k]]
            0 <= j && k == j + 1 && k < lines@.len() && lines@[j].eol == Eol::Cr ==> !(
            lines@[k]@.content.len() == 0 && lines@[k].eol == Eol::Lf),
        r matches Err(e) ==> e is Utf8,
        r matches Err(MergeError::Utf8 { position, .. }) ==> longest_valid_prefix(
            input@,
            position as int,
        ),
{
    let text = match str_from_utf8(input) {
        Ok(t) => t,
        Err((position, cause)) => {
            return Err(MergeError::Utf8 { position, cause });
        },
    };
    let mut lines: Vec<Line<'a>> = Vec::new();
    let mut rest: &'a str = text;
    proof {
        assert(view_lines(lines@) + split_lines(rest.spec_bytes()) =~= split_lines(input@));
    }
    loop
        invariant_except_break
            view_lines(lines@) + split_lines(rest.spec_bytes()) == split_lines(input@),
        ensures
            view_lines(lines@) == split_lines(input@),
        decreases rest.spec_bytes().len(),
    {
        let ghost rb = rest.spec_bytes();
        let ghost before = lines@;
        let bytes = rest.as_bytes();
        proof {
            lemma_first_break(rb);
        }
        match memchr2(10u8, 13u8, bytes) {
            None => {
                proof {
                    assert forall|j: int| 0 <= j < rb.len() implies !is_break(rb[j]) by {
                        assert(bytes@[j] == rb[j]);
                    }
                    lemma_no_break_first_break(rb);
                }
                if bytes.len() > 0 {
                    lines.push(Line { content: rest, eol: Eol::Missing });
                    proof {
                        assert(view_lines(lines@) =~= view_lines(before) + split_lines(rb));
                    }
                } else {
                    proof {
                        assert(view_lines(lines@) =~= view_lines(before) + split_lines(rb));
                    }
                }
                break ;
            },
            Some(pos) => {
                proof {
                    lemma_first_break_at(rb, pos as int);
                }
                let eol = if bytes[pos] == 13u8 {
                    if pos + 1 < bytes.len() && bytes[pos + 1] == 10u8 {
                        Eol::CrLf
                    } else {
                        Eol::Cr
                    }
                } else {
                    Eol::Lf
                };
                proof {
                    is_char_boundary_iff_not_is_continuation_byte(rb, pos as int);
                }
                let (content, tail) = rest.split_at(pos);
                let mut after = drop_first_ascii(tail);
                if eol == Eol::CrLf {
                    after = drop_first_ascii(after);
                }
                lines.push(Line { content, eol });
                proof {
                    let k = eol_bytes(eol).len() as int;
                    assert(eol == eol_at(rb, pos as int));
                    assert(content.spec_bytes() =~= rb.take(pos as int));
                    assert(after.spec_bytes() =~= rb.skip(pos + k));
                    let first = LineView { content: rb.take(pos as int), eol };
                    assert(split_lines(rb) == seq![first] + split_lines(rb.skip(pos + k)));
                    assert(view_lines(lines@) =~= view_lines(before).push(first));
                    assert(view_lines(lines@) + split_lines(after.spec_bytes()) =~= view_lines(
                        before,
                    ) + split_lines(rb));
                }
                rest = after;
            },
        }
    }
    proof {
        lemma_tokenized_lines(lines@, input@);
        lemma_tokenized_terminated(lines@, input@);
    }
    Ok(lines)
}

proof fn lemma_no_break_first_break(s: Seq<u8>)
    requires
        forall|j: int| 0 <= j < s.len() ==> !is_break(#[trigger] s[j]),
    ensures
        first_break(s) == s.len(),
    decreases s.len(),
{
    if s.len() > 0 {
        assert forall|j: int| 0 <= j < s.drop_first().len() implies !is_break(
            #[trigger] s.drop_first()[j],
        ) by {
            assert(s.drop_first()[j] == s[j + 1]);
        }
        lemma_no_break_first_break(s.drop_first());
    }
}

proof fn lemma_first_break_at(s: Seq<u8>, i: int)
    requires
        0 <= i < s.len(),
        is_break(s[i]),
        forall|j: int| 0 <= j < i ==> !is_break(#[trigger] s[j]),
    ensures
        first_break(s) == i,
    decreases s.len(),
{
    if i > 0 {
        assert forall|j: int| 0 <= j < i - 1 implies !is_break(#[trigger] s.drop_first()[j]) by {
            assert(s.drop_first()[j] == s[j + 1]);
        }
        lemma_first_break_at(s.drop_first(), i - 1);
    }
}

pub proof fn lemma_view_lines_subrange<'a>(lines: Seq<Line<'a>>, i: int, j: int)
    requires
        0 <= i <= j <= lines.len(),
    ensures
        view_lines(lines.subrange(i, j)) == view_lines(lines).subrange(i, j),
{
    assert(view_lines(lines.subrange(i, j)) =~= view_lines(lines).subrange(i, j));
}

} // verus!
