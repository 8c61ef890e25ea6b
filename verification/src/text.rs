//! Styled runs of text and their grouping into lines.
use vstd::prelude::*;

use crate::strings::{has_visible, is_ws, str_has_visible, string_from_chars, to_chars};
use vstd::string::{StringExecFns, StringSliceAdditionalSpecFns};
use vstd::utf8::{
    decode_utf8, encode_utf8, encode_utf8_decode_utf8, encode_utf8_valid_utf8, is_char_boundary,
    is_char_boundary_iff_not_is_continuation_byte, is_char_boundary_start_end_of_seq,
    valid_utf8_split,
};

verus! {

/// How a run of text is drawn.
#[derive(Clone, Copy, Debug, PartialEq, Eq, Hash, Structural)]
pub enum TextStyle {
    Normal,
    Bold,
    Italic,
    Code,
    Math,
}

/// A run of text in one style.
#[derive(Clone, Debug)]
pub struct TextRun {
    pub text: String,
    pub style: TextStyle,
}

/// The model of a [`TextRun`].
pub struct RunV {
    pub text: Seq<char>,
    pub style: TextStyle,
}

impl View for TextRun {
    type V = RunV;

    open spec fn view(&self) -> RunV {
        RunV { text: self.text@, style: self.style }
    }
}

/// The models of a sequence of runs.
pub open spec fn runs_view(s: Seq<TextRun>) -> Seq<RunV> {
    s.map_values(|r: TextRun| r@)
}

impl TextRun {
    /// A run of `text` in `style`.
    pub fn new(text: &str, style: TextStyle) -> (r: TextRun)
        ensures
            r@ == (RunV { text: text@, style }),
    {
        TextRun { text: text.to_owned(), style }
    }
}

/// `runs` after `push_text_run(runs, text, style)`: empty text adds nothing;
/// text in the style of the last run joins it, unless the style is `Math`;
/// otherwise it starts a run of its own.
pub open spec fn push_run_v(runs: Seq<RunV>, text: Seq<char>, style: TextStyle) -> Seq<RunV> {
    if text.len() == 0 {
        runs
    } else if style != TextStyle::Math && runs.len() > 0 && runs.last().style == style {
        runs.update(runs.len() - 1, RunV { text: runs.last().text + text, style })
    } else {
        runs.push(RunV { text, style })
    }
}

/// Appends styled text to `runs`, joining it to the last run where the
/// style allows.
pub fn push_text_run(runs: &mut Vec<TextRun>, text: &str, style: TextStyle)
    ensures
        runs_view(final(runs)@) == push_run_v(runs_view(old(runs)@), text@, style),
{
    if text.is_empty() {
        return;
    }
    let n = runs.len();
    if style != TextStyle::Math && n > 0 && runs[n - 1].style == style {
        let mut last = runs.pop().unwrap();
        last.text.append(text);
        runs.push(last);
        assert(runs_view(runs@) =~= push_run_v(runs_view(old(runs)@), text@, style));
        return;
    }
    let r = TextRun::new(text, style);
    runs.push(r);
    assert(runs_view(runs@) =~= push_run_v(runs_view(old(runs)@), text@, style));
}

/// Whether some run holds a character that is not whitespace.
pub open spec fn runs_visible(runs: Seq<RunV>) -> bool {
    exists|i: int| 0 <= i < runs.len() && has_visible(#[trigger] runs[i].text)
}

/// Whether some run holds a character that is not whitespace.
pub fn runs_have_visible_text(runs: &[TextRun]) -> (r: bool)
    ensures
        r == runs_visible(runs_view(runs@)),
{
    let mut i: usize = 0;
    while i < runs.len()
        invariant
            i <= runs@.len(),
            forall|k: int| 0 <= k < i ==> !has_visible(#[trigger] runs@[k].text@),
        decreases runs.len() - i,
    {
        if str_has_visible(runs[i].text.as_str()) {
            assert(runs_view(runs@)[i as int].text == runs@[i as int].text@);
            return true;
        }
        i = i + 1;
    }
    assert forall|k: int| 0 <= k < runs_view(runs@).len() implies !has_visible(
        #[trigger] runs_view(runs@)[k].text,
    ) by {
        assert(runs_view(runs@)[k].text == runs@[k].text@);
    }
    false
}

/// The attributes of the `<tspan>` that draws a run in the given style.
pub open spec fn tspan_attrs_v(style: TextStyle) -> Seq<char> {
    match style {
        TextStyle::Normal => ""@,
        TextStyle::Bold => "font-weight=\"700\""@,
        TextStyle::Italic => "font-style=\"italic\""@,
        TextStyle::Code => "fill=\"#ff9500\" font-family=\"LXGW WenKai Mono, monospace\""@,
        TextStyle::Math => "fill=\"#0f766e\""@,
    }
}

/// The text that the `<tspan>` of a run shows: math between dollar signs.
pub open spec fn tspan_text_v(run: RunV) -> Seq<char> {
    if run.style == TextStyle::Math {
        seq!['$'] + run.text + seq!['$']
    } else {
        run.text
    }
}

/// The `<tspan>` attributes and text for a run.
pub fn svg_tspan_for_run(run: &TextRun) -> (r: (&'static str, String))
    ensures
        r.0@ == tspan_attrs_v(run.style),
        r.1@ == tspan_text_v(run@),
{
    match run.style {
        TextStyle::Normal => ("", run.text.clone()),
        TextStyle::Bold => ("font-weight=\"700\"", run.text.clone()),
        TextStyle::Italic => ("font-style=\"italic\"", run.text.clone()),
        TextStyle::Code => (
            "fill=\"#ff9500\" font-family=\"LXGW WenKai Mono, monospace\"",
            run.text.clone(),
        ),
        TextStyle::Math => {
            let mut t = String::new();
            crate::strings::push_char(&mut t, '$');
            t.append(run.text.as_str());
            crate::strings::push_char(&mut t, '$');
            assert(t@ =~= tspan_text_v(run@));
            ("fill=\"#0f766e\"", t)
        },
    }
}

// ───────────────────────────── logical lines ─────────────────────────────

/// The index of the first line feed in `s`, or `s.len()` when it has none.
pub open spec fn first_nl(s: Seq<char>) -> int
    decreases s.len(),
{
    if s.len() == 0 {
        0
    } else if s[0] == '\n' {
        0
    } else {
        1 + first_nl(s.drop_first())
    }
}

/// What `first_nl` finds.
pub proof fn lemma_first_nl(s: Seq<char>)
    ensures
        0 <= first_nl(s) <= s.len(),
        forall|k: int| 0 <= k < first_nl(s) ==> #[trigger] s[k] != '\n',
        first_nl(s) < s.len() ==> s[first_nl(s)] == '\n',
    decreases s.len(),
{
    if s.len() > 0 && s[0] != '\n' {
        lemma_first_nl(s.drop_first());
        assert forall|k: int| 0 <= k < first_nl(s) implies #[trigger] s[k] != '\n' by {
            if k > 0 {
                assert(s[k] == s.drop_first()[k - 1]);
            }
        }
    }
}

/// `first_nl` is the first position that holds a line feed.
pub proof fn lemma_first_nl_at(s: Seq<char>, j: int)
    requires
        0 <= j <= s.len(),
        forall|k: int| 0 <= k < j ==> #[trigger] s[k] != '\n',
        j < s.len() ==> s[j] == '\n',
    ensures
        first_nl(s) == j,
    decreases s.len(),
{
    if s.len() > 0 && j > 0 {
        assert(s[0] != '\n');
        assert forall|k: int| 0 <= k < j - 1 implies #[trigger] s.drop_first()[k] != '\n' by {
            assert(s.drop_first()[k] == s[k + 1]);
        }
        lemma_first_nl_at(s.drop_first(), j - 1);
    }
}

/// `seg` added to the last line, when it is not empty.
pub open spec fn push_seg_v(lines: Seq<Seq<RunV>>, seg: Seq<char>, style: TextStyle) -> Seq<
    Seq<RunV>,
> {
    if lines.len() == 0 {
        lines
    } else {
        lines.update(lines.len() - 1, push_run_v(lines.last(), seg, style))
    }
}

/// `lines` after the text of one run: each line feed starts a new line.
pub open spec fn put_text_v(lines: Seq<Seq<RunV>>, text: Seq<char>, style: TextStyle) -> Seq<
    Seq<RunV>,
>
    decreases text.len(),
{
    let i = first_nl(text);
    if i >= text.len() {
        push_seg_v(lines, text, style)
    } else {
        proof {
            lemma_first_nl(text);
        }
        put_text_v(
            push_seg_v(lines, text.take(i), style).push(Seq::empty()),
            text.skip(i + 1),
            style,
        )
    }
}

/// The logical lines of a sequence of runs: the runs split at line feeds,
/// which they lose.
pub open spec fn split_lines_v(runs: Seq<RunV>) -> Seq<Seq<RunV>>
    decreases runs.len(),
{
    if runs.len() == 0 {
        seq![Seq::empty()]
    } else {
        put_text_v(split_lines_v(runs.drop_last()), runs.last().text, runs.last().style)
    }
}

/// The models of a sequence of lines.
pub open spec fn lines_view(lines: Seq<Vec<TextRun>>) -> Seq<Seq<RunV>> {
    lines.map_values(|l: Vec<TextRun>| runs_view(l@))
}

fn push_seg(lines: &mut Vec<Vec<TextRun>>, seg: &str, style: TextStyle)
    requires
        old(lines)@.len() > 0,
    ensures
        final(lines)@.len() == old(lines)@.len(),
        lines_view(final(lines)@) == push_seg_v(lines_view(old(lines)@), seg@, style),
{
    let mut last = lines.pop().unwrap();
    push_text_run(&mut last, seg, style);
    lines.push(last);
    assert(lines_view(lines@) =~= push_seg_v(lines_view(old(lines)@), seg@, style));
}

fn put_text(lines: &mut Vec<Vec<TextRun>>, text: &str, style: TextStyle)
    requires
        old(lines)@.len() > 0,
    ensures
        final(lines)@.len() > 0,
        lines_view(final(lines)@) == put_text_v(lines_view(old(lines)@), text@, style),
{
    let cs = to_chars(text);
    let n = cs.len();
    let mut start: usize = 0;
    let mut j: usize = 0;
    assert(cs@.skip(0) =~= cs@);
    while j < n
        invariant
            start <= j <= n == cs@.len(),
            cs@ == text@,
            lines@.len() > 0,
            forall|k: int| start <= k < j ==> #[trigger] cs@[k] != '\n',
            put_text_v(lines_view(lines@), cs@.skip(start as int), style) == put_text_v(
                lines_view(old(lines)@),
                text@,
                style,
            ),
        decreases n - j,
    {
        if cs[j] == '\n' {
            let ghost rest = cs@.skip(start as int);
            proof {
                assert forall|k: int| 0 <= k < j - start implies #[trigger] rest[k] != '\n' by {
                    assert(rest[k] == cs@[start + k]);
                }
                lemma_first_nl_at(rest, j - start);
                assert(rest.take(j - start) =~= cs@.subrange(start as int, j as int));
                assert(rest.skip(j - start + 1) =~= cs@.skip(j + 1));
            }
            let seg = string_from_chars(&cs, start, j);
            push_seg(lines, seg.as_str(), style);
            let ghost before = lines_view(lines@);
            let fresh: Vec<TextRun> = Vec::new();
            assert(runs_view(fresh@) =~= Seq::<RunV>::empty());
            lines.push(fresh);
            assert(lines_view(lines@) =~= before.push(Seq::empty()));
            start = j + 1;
        }
        j = j + 1;
    }
    let ghost rest = cs@.skip(start as int);
    proof {
        assert forall|k: int| 0 <= k < n - start implies #[trigger] rest[k] != '\n' by {
            assert(rest[k] == cs@[start + k]);
        }
        lemma_first_nl_at(rest, n - start);
        assert(cs@.subrange(start as int, n as int) =~= rest);
    }
    let seg = string_from_chars(&cs, start, n);
    push_seg(lines, seg.as_str(), style);
}

/// Splits runs into logical lines at line feeds; a run that spans a line
/// feed is cut in two, and no line feed remains.
pub fn split_runs_on_newlines(runs: &[TextRun]) -> (lines: Vec<Vec<TextRun>>)
    ensures
        lines_view(lines@) == split_lines_v(runs_view(runs@)),
{
    let mut lines: Vec<Vec<TextRun>> = Vec::new();
    lines.push(Vec::new());
    assert(lines_view(lines@) =~= seq![Seq::<RunV>::empty()]) by {
        assert(runs_view(Seq::<TextRun>::empty()) =~= Seq::<RunV>::empty());
    }
    let mut i: usize = 0;
    while i < runs.len()
        invariant
            i <= runs@.len(),
            lines@.len() > 0,
            lines_view(lines@) == split_lines_v(runs_view(runs@.take(i as int))),
        decreases runs.len() - i,
    {
        proof {
            assert(runs_view(runs@.take(i + 1)).drop_last() =~= runs_view(runs@.take(i as int)));
            assert(runs_view(runs@.take(i + 1)).last() == runs@[i as int]@);
        }
        put_text(&mut lines, runs[i].text.as_str(), runs[i].style);
        i = i + 1;
    }
    assert(runs@.take(runs@.len() as int) =~= runs@);
    lines
}

// ───────────────────────────── visual lines ─────────────────────────────

/// A byte range of a run in a shaped line's text, with the run's style.
pub type StyledRange = (usize, usize, TextStyle);

/// The part of `[run_start, run_end)` inside `[start, end)`.
pub open spec fn clip_v(r: StyledRange, start: int, end: int) -> (int, int) {
    (
        if start > r.0 {
            start
        } else {
            r.0 as int
        },
        if end < r.1 {
            end
        } else {
            r.1 as int
        },
    )
}

/// Whether every non-empty clipped range falls on character boundaries of
/// the text (else slicing the text would panic).
pub open spec fn ranges_on_boundaries(
    bytes: Seq<u8>,
    ranges: Seq<StyledRange>,
    start: int,
    end: int,
) -> bool {
    forall|k: int|
        0 <= k < ranges.len() ==> {
            let (s, e) = #[trigger] clip_v(ranges[k], start, end);
            s < e ==> e <= bytes.len() && is_char_boundary(bytes, s) && is_char_boundary(bytes, e)
        }
}

/// The runs of the byte range `[start, end)` of a text whose runs have the
/// given byte ranges: each run's part inside the range, in order, joined as
/// `push_text_run` joins them.
pub open spec fn slice_runs_v(
    bytes: Seq<u8>,
    ranges: Seq<StyledRange>,
    start: int,
    end: int,
) -> Seq<RunV>
    decreases ranges.len(),
{
    if ranges.len() == 0 {
        Seq::empty()
    } else {
        let prev = slice_runs_v(bytes, ranges.drop_last(), start, end);
        let (s, e) = clip_v(ranges.last(), start, end);
        if s >= e {
            prev
        } else {
            push_run_v(prev, decode_utf8(bytes.subrange(s, e)), ranges.last().2)
        }
    }
}

proof fn lemma_tail_boundary(bytes: Seq<u8>, s: int, e: int)
    requires
        vstd::utf8::valid_utf8(bytes),
        0 <= s <= e <= bytes.len(),
        is_char_boundary(bytes, s),
        is_char_boundary(bytes, e),
    ensures
        vstd::utf8::valid_utf8(bytes.subrange(s, bytes.len() as int)),
        is_char_boundary(bytes.subrange(s, bytes.len() as int), e - s),
{
    let tail = bytes.subrange(s, bytes.len() as int);
    valid_utf8_split(bytes, s);
    is_char_boundary_start_end_of_seq(tail);
    if e == bytes.len() {
        assert(tail.len() == e - s);
    } else if e > s {
        is_char_boundary_iff_not_is_continuation_byte(bytes, e);
        is_char_boundary_iff_not_is_continuation_byte(tail, e - s);
        assert(tail[e - s] == bytes[e]);
    }
}

/// The text of the byte range `[s, e)` of `text`.
fn byte_slice(text: &str, s: usize, e: usize) -> (r: &str)
    requires
        s < e <= text.spec_bytes().len(),
        is_char_boundary(text.spec_bytes(), s as int),
        is_char_boundary(text.spec_bytes(), e as int),
    ensures
        r@ == decode_utf8(text.spec_bytes().subrange(s as int, e as int)),
{
    let ghost bytes = text.spec_bytes();
    proof {
        encode_utf8_valid_utf8(text@);
        lemma_tail_boundary(bytes, s as int, e as int);
    }
    let (_, tail) = text.split_at(s);
    let (mid, _) = tail.split_at(e - s);
    proof {
        assert(mid.spec_bytes() =~= bytes.subrange(s as int, e as int));
        encode_utf8_decode_utf8(mid@);
    }
    mid
}

/// The runs of the byte range `[start, end)` of `full_text`, given the byte
/// range and style of each of its runs.
pub fn slice_runs_by_byte_range(
    full_text: &str,
    byte_styles: &[StyledRange],
    start: usize,
    end: usize,
) -> (runs: Vec<TextRun>)
    requires
        ranges_on_boundaries(full_text.spec_bytes(), byte_styles@, start as int, end as int),
    ensures
        runs_view(runs@) == slice_runs_v(full_text.spec_bytes(), byte_styles@, start as int, end as int),
{
    let mut runs: Vec<TextRun> = Vec::new();
    let mut i: usize = 0;
    assert(runs_view(runs@) =~= Seq::<RunV>::empty());
    while i < byte_styles.len()
        invariant
            i <= byte_styles@.len(),
            ranges_on_boundaries(full_text.spec_bytes(), byte_styles@, start as int, end as int),
            runs_view(runs@) == slice_runs_v(
                full_text.spec_bytes(),
                byte_styles@.take(i as int),
                start as int,
                end as int,
            ),
        decreases byte_styles.len() - i,
    {
        let (run_start, run_end, style) = byte_styles[i];
        proof {
            assert(byte_styles@.take(i + 1).drop_last() =~= byte_styles@.take(i as int));
            assert(byte_styles@.take(i + 1).last() == byte_styles@[i as int]);
            let _ = clip_v(byte_styles@[i as int], start as int, end as int);
        }
        let s = if start > run_start {
            start
        } else {
            run_start
        };
        let e = if end < run_end {
            end
        } else {
            run_end
        };
        if s < e {
            let piece = byte_slice(full_text, s, e);
            push_text_run(&mut runs, piece, style);
        }
        i = i + 1;
    }
    assert(byte_styles@.take(byte_styles@.len() as int) =~= byte_styles@);
    runs
}

// ───────────────────────────── words ─────────────────────────────

/// The number of characters of `s` that are not whitespace.
pub open spec fn count_non_ws(s: Seq<char>) -> nat
    decreases s.len(),
{
    if s.len() == 0 {
        0
    } else {
        count_non_ws(s.drop_last()) + if is_ws(s.last()) {
            0nat
        } else {
            1nat
        }
    }
}

/// The word count shown in the card's header: the characters of the
/// Markdown source that are not whitespace.
pub fn word_count(markdown: &str) -> (n: usize)
    ensures
        n == count_non_ws(markdown@),
{
    let cs = to_chars(markdown);
    let mut n: usize = 0;
    let mut i: usize = 0;
    while i < cs.len()
        invariant
            i <= cs@.len(),
            cs@ == markdown@,
            n == count_non_ws(cs@.take(i as int)),
            n <= i,
        decreases cs.len() - i,
    {
        assert(cs@.take(i + 1).drop_last() =~= cs@.take(i as int));
        if !crate::strings::is_whitespace(cs[i]) {
            n = n + 1;
        }
        i = i + 1;
    }
    assert(cs@.take(cs@.len() as int) =~= cs@);
    n
}

// ───────────────────────────── laws ─────────────────────────────

/// The texts of runs, one after the other.
pub open spec fn flat(runs: Seq<RunV>) -> Seq<char>
    decreases runs.len(),
{
    if runs.len() == 0 {
        Seq::empty()
    } else {
        flat(runs.drop_last()) + runs.last().text
    }
}

/// Whether runs are as `push_text_run` keeps them: none is empty, and a run
/// follows one of its own style only when it is a formula.
pub open spec fn runs_normal(runs: Seq<RunV>) -> bool {
    &&& forall|i: int| 0 <= i < runs.len() ==> (#[trigger] runs[i]).text.len() > 0
    &&& forall|i: int|
        0 <= i < runs.len() - 1 ==> (#[trigger] runs[i + 1]).style == TextStyle::Math
            || runs[i].style != runs[i + 1].style
}

/// Adding text to runs adds exactly that text at the end.
pub proof fn law_push_run_keeps_text(runs: Seq<RunV>, text: Seq<char>, style: TextStyle)
    ensures
        flat(push_run_v(runs, text, style)) == flat(runs) + text,
{
    if text.len() == 0 {
        assert(flat(runs) + text =~= flat(runs));
    } else if style != TextStyle::Math && runs.len() > 0 && runs.last().style == style {
        let r = push_run_v(runs, text, style);
        assert(r.drop_last() =~= runs.drop_last());
        assert(flat(r) =~= flat(runs) + text);
    } else {
        let r = push_run_v(runs, text, style);
        assert(r.drop_last() =~= runs);
    }
}

/// Adding text keeps runs in their normal form.
pub proof fn law_push_run_keeps_normal(runs: Seq<RunV>, text: Seq<char>, style: TextStyle)
    requires
        runs_normal(runs),
    ensures
        runs_normal(push_run_v(runs, text, style)),
{
    let r = push_run_v(runs, text, style);
    if text.len() > 0 {
        if style != TextStyle::Math && runs.len() > 0 && runs.last().style == style {
            assert forall|i: int| 0 <= i < r.len() - 1 implies (#[trigger] r[i + 1]).style
                == TextStyle::Math || r[i].style != r[i + 1].style by {
                assert(r[i].style == runs[i].style);
                assert(r[i + 1].style == runs[i + 1].style);
            }
        } else {
            assert forall|i: int| 0 <= i < r.len() - 1 implies (#[trigger] r[i + 1]).style
                == TextStyle::Math || r[i].style != r[i + 1].style by {
                if i + 1 < runs.len() {
                    assert(r[i + 1] == runs[i + 1]);
                }
            }
        }
    }
}

/// Whether no run of no line holds a line feed.
pub open spec fn no_line_feed(lines: Seq<Seq<RunV>>) -> bool {
    forall|l: int, i: int, k: int|
        0 <= l < lines.len() && 0 <= i < lines[l].len() && 0 <= k < lines[l][i].text.len()
            ==> #[trigger] lines[l][i].text[k] != '\n'
}

/// The lines' texts joined by line feeds.
pub open spec fn join_lines(lines: Seq<Seq<RunV>>) -> Seq<char>
    decreases lines.len(),
{
    if lines.len() == 0 {
        Seq::empty()
    } else if lines.len() == 1 {
        flat(lines[0])
    } else {
        join_lines(lines.drop_last()) + seq!['\n'] + flat(lines.last())
    }
}

proof fn lemma_join_update_last(lines: Seq<Seq<RunV>>, last: Seq<RunV>, extra: Seq<char>)
    requires
        lines.len() > 0,
        flat(last) == flat(lines.last()) + extra,
    ensures
        join_lines(lines.update(lines.len() - 1, last)) == join_lines(lines) + extra,
{
    let u = lines.update(lines.len() - 1, last);
    if lines.len() == 1 {
        assert(u[0] == last);
    } else {
        assert(u.drop_last() =~= lines.drop_last());
        assert(join_lines(u) =~= join_lines(lines) + extra);
    }
}

proof fn lemma_put_text_join(lines: Seq<Seq<RunV>>, text: Seq<char>, style: TextStyle)
    requires
        lines.len() > 0,
    ensures
        put_text_v(lines, text, style).len() > 0,
        join_lines(put_text_v(lines, text, style)) == join_lines(lines) + text,
    decreases text.len(),
{
    lemma_first_nl(text);
    let i = first_nl(text);
    if i >= text.len() {
        law_push_run_keeps_text(lines.last(), text, style);
        lemma_join_update_last(lines, push_run_v(lines.last(), text, style), text);
    } else {
        let seg = text.take(i);
        law_push_run_keeps_text(lines.last(), seg, style);
        lemma_join_update_last(lines, push_run_v(lines.last(), seg, style), seg);
        let l1 = push_seg_v(lines, seg, style);
        let l2 = l1.push(Seq::empty());
        assert(l2.drop_last() =~= l1);
        assert(flat(Seq::<RunV>::empty()) == Seq::<char>::empty());
        assert(join_lines(l2) =~= join_lines(l1) + seq!['\n']);
        lemma_put_text_join(l2, text.skip(i + 1), style);
        assert(text =~= seg + seq!['\n'] + text.skip(i + 1));
        assert(join_lines(lines) + seg + seq!['\n'] + text.skip(i + 1) =~= join_lines(lines) + text);
    }
}

proof fn lemma_push_run_no_lf(runs: Seq<RunV>, text: Seq<char>, style: TextStyle)
    requires
        forall|i: int, k: int|
            0 <= i < runs.len() && 0 <= k < runs[i].text.len() ==> #[trigger] runs[i].text[k] != '\n',
        forall|k: int| 0 <= k < text.len() ==> #[trigger] text[k] != '\n',
    ensures
        ({
            let r = push_run_v(runs, text, style);
            forall|i: int, k: int|
                0 <= i < r.len() && 0 <= k < r[i].text.len() ==> #[trigger] r[i].text[k] != '\n'
        }),
{
    let r = push_run_v(runs, text, style);
    assert forall|i: int, k: int| 0 <= i < r.len() && 0 <= k < r[i].text.len() implies #[trigger] r[i].text[k]
        != '\n' by {
        if text.len() > 0 && style != TextStyle::Math && runs.len() > 0 && runs.last().style == style && i
            == runs.len() - 1 {
            let t = runs.last().text;
            if k < t.len() {
                assert(r[i].text[k] == t[k]);
                assert(runs[i].text[k] != '\n');
            } else {
                assert(r[i].text[k] == text[k - t.len()]);
            }
        } else if i < runs.len() {
            assert(r[i] == runs[i]);
        } else {
            assert(r[i].text == text);
        }
    }
}

proof fn lemma_put_text_no_lf(lines: Seq<Seq<RunV>>, text: Seq<char>, style: TextStyle)
    requires
        lines.len() > 0,
        no_line_feed(lines),
    ensures
        no_line_feed(put_text_v(lines, text, style)),
    decreases text.len(),
{
    lemma_first_nl(text);
    let i = first_nl(text);
    let seg = if i >= text.len() {
        text
    } else {
        text.take(i)
    };
    assert forall|k: int| 0 <= k < seg.len() implies #[trigger] seg[k] != '\n' by {
        assert(seg[k] == text[k]);
    }
    let last = lines.last();
    assert forall|a: int, k: int| 0 <= a < last.len() && 0 <= k < last[a].text.len() implies #[trigger] last[a].text[k]
        != '\n' by {
        assert(lines[lines.len() - 1][a].text[k] != '\n');
    }
    lemma_push_run_no_lf(last, seg, style);
    let l1 = push_seg_v(lines, seg, style);
    assert(no_line_feed(l1)) by {
        assert forall|l: int, a: int, k: int|
            0 <= l < l1.len() && 0 <= a < l1[l].len() && 0 <= k < l1[l][a].text.len() implies #[trigger] l1[l][a].text[k]
            != '\n' by {
            if l < lines.len() - 1 {
                assert(l1[l] == lines[l]);
            }
        }
    }
    if i < text.len() {
        let l2 = l1.push(Seq::empty());
        assert(no_line_feed(l2)) by {
            assert forall|l: int, a: int, k: int|
                0 <= l < l2.len() && 0 <= a < l2[l].len() && 0 <= k < l2[l][a].text.len() implies #[trigger] l2[l][a].text[k]
                != '\n' by {
                assert(l2[l] == l1[l]);
            }
        }
        lemma_put_text_no_lf(l2, text.skip(i + 1), style);
    }
}

/// Splitting runs into lines loses no text but the line feeds: joining the
/// lines with line feeds gives the runs' text back, and no line feed is left
/// in any run.
pub proof fn law_split_lines_keeps_text(runs: Seq<RunV>)
    ensures
        join_lines(split_lines_v(runs)) == flat(runs),
        no_line_feed(split_lines_v(runs)),
        split_lines_v(runs).len() > 0,
    decreases runs.len(),
{
    if runs.len() == 0 {
        assert(flat(Seq::<RunV>::empty()) == Seq::<char>::empty());
        assert(seq![Seq::<RunV>::empty()][0] == Seq::<RunV>::empty());
    } else {
        law_split_lines_keeps_text(runs.drop_last());
        lemma_put_text_join(split_lines_v(runs.drop_last()), runs.last().text, runs.last().style);
        lemma_put_text_no_lf(split_lines_v(runs.drop_last()), runs.last().text, runs.last().style);
    }
}

// ───────────────────────────── styles ─────────────────────────────

/// Each character of `text` paired with `style`.
pub open spec fn styled(text: Seq<char>, style: TextStyle) -> Seq<(char, TextStyle)> {
    text.map_values(|c: char| (c, style))
}

/// The characters of runs, in order, each with the style of its run.
pub open spec fn styled_chars(runs: Seq<RunV>) -> Seq<(char, TextStyle)>
    decreases runs.len(),
{
    if runs.len() == 0 {
        Seq::empty()
    } else {
        styled_chars(runs.drop_last()) + styled(runs.last().text, runs.last().style)
    }
}

/// Styling a concatenation is concatenating the styled parts.
pub proof fn lemma_styled_concat(a: Seq<char>, b: Seq<char>, style: TextStyle)
    ensures
        styled(a + b, style) == styled(a, style) + styled(b, style),
{
    assert(styled(a + b, style) =~= styled(a, style) + styled(b, style));
}

/// The styled characters of runs with one more run at the end.
pub proof fn lemma_styled_chars_push(runs: Seq<RunV>, r: RunV)
    ensures
        styled_chars(runs.push(r)) == styled_chars(runs) + styled(r.text, r.style),
{
    assert(runs.push(r).drop_last() =~= runs);
}

/// Adding text to runs adds exactly that text, each character in the style
/// it was added with, and changes no character before it.
pub proof fn law_push_run_keeps_styles(runs: Seq<RunV>, text: Seq<char>, style: TextStyle)
    ensures
        styled_chars(push_run_v(runs, text, style)) == styled_chars(runs) + styled(text, style),
{
    if text.len() == 0 {
        assert(styled(text, style) =~= Seq::<(char, TextStyle)>::empty());
        assert(styled_chars(runs) + styled(text, style) =~= styled_chars(runs));
    } else if style != TextStyle::Math && runs.len() > 0 && runs.last().style == style {
        let r = push_run_v(runs, text, style);
        assert(r.drop_last() =~= runs.drop_last());
        lemma_styled_concat(runs.last().text, text, style);
        assert(styled_chars(r) =~= styled_chars(runs) + styled(text, style));
    } else {
        lemma_styled_chars_push(runs, RunV { text, style });
    }
}

/// The styled characters of lines, one line after the other.
pub open spec fn lines_styled(lines: Seq<Seq<RunV>>) -> Seq<(char, TextStyle)>
    decreases lines.len(),
{
    if lines.len() == 0 {
        Seq::empty()
    } else {
        lines_styled(lines.drop_last()) + styled_chars(lines.last())
    }
}

/// Styled characters without the line feeds.
pub open spec fn drop_line_feeds(s: Seq<(char, TextStyle)>) -> Seq<(char, TextStyle)>
    decreases s.len(),
{
    if s.len() == 0 {
        Seq::empty()
    } else if s.last().0 == '\n' {
        drop_line_feeds(s.drop_last())
    } else {
        drop_line_feeds(s.drop_last()).push(s.last())
    }
}

proof fn lemma_drop_lf_concat(a: Seq<(char, TextStyle)>, b: Seq<(char, TextStyle)>)
    ensures
        drop_line_feeds(a + b) == drop_line_feeds(a) + drop_line_feeds(b),
    decreases b.len(),
{
    if b.len() == 0 {
        assert(a + b =~= a);
        assert(drop_line_feeds(a) + drop_line_feeds(b) =~= drop_line_feeds(a));
    } else {
        assert((a + b).drop_last() =~= a + b.drop_last());
        assert((a + b).last() == b.last());
        lemma_drop_lf_concat(a, b.drop_last());
        if b.last().0 != '\n' {
            assert(drop_line_feeds(a + b) =~= drop_line_feeds(a) + drop_line_feeds(b));
        }
    }
}

proof fn lemma_drop_lf_none(text: Seq<char>, style: TextStyle)
    requires
        forall|k: int| 0 <= k < text.len() ==> #[trigger] text[k] != '\n',
    ensures
        drop_line_feeds(styled(text, style)) == styled(text, style),
    decreases text.len(),
{
    if text.len() > 0 {
        let d = text.drop_last();
        assert forall|k: int| 0 <= k < d.len() implies #[trigger] d[k] != '\n' by {
            assert(d[k] == text[k]);
        }
        lemma_drop_lf_none(d, style);
        assert(styled(text, style).drop_last() =~= styled(d, style));
        assert(text[text.len() - 1] != '\n');
        assert(drop_line_feeds(styled(text, style)) =~= styled(text, style));
    }
}

proof fn lemma_lines_styled_update_last(
    lines: Seq<Seq<RunV>>,
    last: Seq<RunV>,
    extra: Seq<(char, TextStyle)>,
)
    requires
        lines.len() > 0,
        styled_chars(last) == styled_chars(lines.last()) + extra,
    ensures
        lines_styled(lines.update(lines.len() - 1, last)) == lines_styled(lines) + extra,
{
    let u = lines.update(lines.len() - 1, last);
    assert(u.drop_last() =~= lines.drop_last());
    assert(lines_styled(u) =~= lines_styled(lines) + extra);
}

proof fn lemma_put_text_styles(lines: Seq<Seq<RunV>>, text: Seq<char>, style: TextStyle)
    requires
        lines.len() > 0,
    ensures
        put_text_v(lines, text, style).len() > 0,
        lines_styled(put_text_v(lines, text, style)) == lines_styled(lines) + drop_line_feeds(
            styled(text, style),
        ),
    decreases text.len(),
{
    lemma_first_nl(text);
    let i = first_nl(text);
    if i >= text.len() {
        law_push_run_keeps_styles(lines.last(), text, style);
        lemma_lines_styled_update_last(lines, push_run_v(lines.last(), text, style), styled(text, style));
        lemma_drop_lf_none(text, style);
    } else {
        let seg = text.take(i);
        let rest = text.skip(i + 1);
        law_push_run_keeps_styles(lines.last(), seg, style);
        lemma_lines_styled_update_last(lines, push_run_v(lines.last(), seg, style), styled(seg, style));
        let l1 = push_seg_v(lines, seg, style);
        let l2 = l1.push(Seq::empty());
        assert(l2.drop_last() =~= l1);
        assert(styled_chars(Seq::<RunV>::empty()) == Seq::<(char, TextStyle)>::empty());
        assert(lines_styled(l2) =~= lines_styled(l1));
        lemma_put_text_styles(l2, rest, style);
        assert(text =~= seg + seq!['\n'] + rest);
        lemma_styled_concat(seg + seq!['\n'], rest, style);
        lemma_styled_concat(seg, seq!['\n'], style);
        assert forall|k: int| 0 <= k < seg.len() implies #[trigger] seg[k] != '\n' by {
            assert(seg[k] == text[k]);
        }
        lemma_drop_lf_none(seg, style);
        let nl = styled(seq!['\n'], style);
        assert(nl.len() == 1);
        assert(nl.drop_last() =~= Seq::<(char, TextStyle)>::empty());
        assert(nl.last() == ('\n', style));
        assert(drop_line_feeds(nl.drop_last()) =~= Seq::<(char, TextStyle)>::empty());
        assert(drop_line_feeds(nl) =~= Seq::<(char, TextStyle)>::empty());
        lemma_drop_lf_concat(styled(seg, style) + nl, styled(rest, style));
        lemma_drop_lf_concat(styled(seg, style), nl);
        assert(drop_line_feeds(styled(text, style)) =~= styled(seg, style) + drop_line_feeds(
            styled(rest, style),
        ));
        assert(lines_styled(lines) + styled(seg, style) + drop_line_feeds(styled(rest, style))
            =~= lines_styled(lines) + drop_line_feeds(styled(text, style)));
    }
}

/// Splitting runs into lines keeps every character but the line feeds, in
/// order and each in its own style: the lines' styled characters are the
/// runs' styled characters without the line feeds.
pub proof fn law_split_lines_keeps_styles(runs: Seq<RunV>)
    ensures
        lines_styled(split_lines_v(runs)) == drop_line_feeds(styled_chars(runs)),
    decreases runs.len(),
{
    if runs.len() == 0 {
        let l = seq![Seq::<RunV>::empty()];
        assert(l.len() == 1);
        assert(l.drop_last() =~= Seq::<Seq<RunV>>::empty());
        assert(lines_styled(l.drop_last()) =~= Seq::<(char, TextStyle)>::empty());
        assert(styled_chars(l.last()) == Seq::<(char, TextStyle)>::empty());
        assert(lines_styled(l) =~= Seq::<(char, TextStyle)>::empty());
        assert(styled_chars(runs) =~= Seq::<(char, TextStyle)>::empty());
    } else {
        let prev = runs.drop_last();
        let r = runs.last();
        law_split_lines_keeps_styles(prev);
        law_split_lines_keeps_text(prev);
        lemma_put_text_styles(split_lines_v(prev), r.text, r.style);
        lemma_drop_lf_concat(styled_chars(prev), styled(r.text, r.style));
    }
}

/// The characters of the byte range `[start, end)` of a text, each in the
/// style of the run its bytes belong to.
pub open spec fn slice_styled_v(
    bytes: Seq<u8>,
    ranges: Seq<StyledRange>,
    start: int,
    end: int,
) -> Seq<(char, TextStyle)>
    decreases ranges.len(),
{
    if ranges.len() == 0 {
        Seq::empty()
    } else {
        let prev = slice_styled_v(bytes, ranges.drop_last(), start, end);
        let (s, e) = clip_v(ranges.last(), start, end);
        if s >= e {
            prev
        } else {
            prev + styled(decode_utf8(bytes.subrange(s, e)), ranges.last().2)
        }
    }
}

/// Slicing runs by a byte range keeps each character of the range in the
/// style of the run it came from, in order, whatever runs are joined.
pub proof fn law_slice_keeps_styles(bytes: Seq<u8>, ranges: Seq<StyledRange>, start: int, end: int)
    ensures
        styled_chars(slice_runs_v(bytes, ranges, start, end)) == slice_styled_v(bytes, ranges, start, end),
    decreases ranges.len(),
{
    if ranges.len() > 0 {
        law_slice_keeps_styles(bytes, ranges.drop_last(), start, end);
        let (s, e) = clip_v(ranges.last(), start, end);
        if s < e {
            law_push_run_keeps_styles(
                slice_runs_v(bytes, ranges.drop_last(), start, end),
                decode_utf8(bytes.subrange(s, e)),
                ranges.last().2,
            );
        }
    }
}

} // verus!
