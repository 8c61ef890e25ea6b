//! What the SVG layout decides without measuring: the runs of a paragraph,
//! which blocks have anything to show, and where a long formula may break.
use vstd::prelude::*;

use crate::ast::{
    inlines_view, lemma_nodes_view_index, node_view, nodes_view, row_view, rows_view, Inline,
    InlineV, Node, NodeV, TableAlignment,
};
use crate::strings::{has_visible, is_ws, push_char, trim_end, trim_start, str_has_visible, string_from_chars, strings_view, to_chars, trim, trim_str};
use crate::text::{
    lemma_styled_chars_push, law_push_run_keeps_styles, push_run_v, push_text_run, runs_have_visible_text, runs_view, runs_visible, styled, styled_chars, svg_tspan_for_run,
    tspan_attrs_v, tspan_text_v, RunV, TextRun, TextStyle,
};
use crate::code::{hex_digit, hex_digit_v, hex_value, lemma_hex_digit_value, tokens_text, tokens_view, CodeToken, TokenV};
use crate::util::{esc, escape, law_escape_has_no_markup, law_unescape_escape, lemma_escape_concat, unescape};
use vstd::string::StringExecFns;

verus! {

// ───────────────────────────── inlines → runs ─────────────────────────────

/// The runs of a paragraph after one more inline: inline code gets a space
/// on each side, and a formula always starts a run of its own.
pub open spec fn inline_runs_step_v(runs: Seq<RunV>, i: InlineV) -> Seq<RunV> {
    match i {
        InlineV::Text(s) => push_run_v(runs, s, TextStyle::Normal),
        InlineV::Bold(s) => push_run_v(runs, s, TextStyle::Bold),
        InlineV::Italic(s) => push_run_v(runs, s, TextStyle::Italic),
        InlineV::Code(s) => push_run_v(runs, seq![' '] + s + seq![' '], TextStyle::Code),
        InlineV::Math(s) => runs.push(RunV { text: s, style: TextStyle::Math }),
    }
}

/// The runs of a sequence of inlines.
pub open spec fn inline_runs_v(inlines: Seq<InlineV>) -> Seq<RunV>
    decreases inlines.len(),
{
    if inlines.len() == 0 {
        Seq::empty()
    } else {
        inline_runs_step_v(inline_runs_v(inlines.drop_last()), inlines.last())
    }
}

/// The styled runs of a sequence of inlines.
pub fn inlines_to_runs(inlines: &[Inline]) -> (runs: Vec<TextRun>)
    ensures
        runs_view(runs@) == inline_runs_v(inlines_view(inlines@)),
{
    let mut runs: Vec<TextRun> = Vec::new();
    let mut i: usize = 0;
    assert(runs_view(runs@) =~= Seq::<RunV>::empty());
    while i < inlines.len()
        invariant
            i <= inlines@.len(),
            runs_view(runs@) == inline_runs_v(inlines_view(inlines@.take(i as int))),
        decreases inlines.len() - i,
    {
        proof {
            assert(inlines_view(inlines@.take(i + 1)).drop_last() =~= inlines_view(
                inlines@.take(i as int),
            ));
            assert(inlines_view(inlines@.take(i + 1)).last() == inlines@[i as int]@);
        }
        match &inlines[i] {
            Inline::Text(s) => push_text_run(&mut runs, s.as_str(), TextStyle::Normal),
            Inline::Bold(s) => push_text_run(&mut runs, s.as_str(), TextStyle::Bold),
            Inline::Italic(s) => push_text_run(&mut runs, s.as_str(), TextStyle::Italic),
            Inline::Code(s) => {
                let mut padded = String::new();
                crate::strings::push_char(&mut padded, ' ');
                padded.append(s.as_str());
                crate::strings::push_char(&mut padded, ' ');
                assert(padded@ =~= seq![' '] + s@ + seq![' ']);
                push_text_run(&mut runs, padded.as_str(), TextStyle::Code);
            },
            Inline::Math(s) => {
                let r = TextRun::new(s.as_str(), TextStyle::Math);
                let ghost before = runs_view(runs@);
                runs.push(r);
                assert(runs_view(runs@) =~= before.push(r@));
            },
        }
        i = i + 1;
    }
    assert(inlines@.take(inlines@.len() as int) =~= inlines@);
    runs
}

// ───────────────────────────── visible content ─────────────────────────────

/// The text of an inline.
pub open spec fn inline_text_v(i: InlineV) -> Seq<char> {
    match i {
        InlineV::Text(s) => s,
        InlineV::Bold(s) => s,
        InlineV::Italic(s) => s,
        InlineV::Code(s) => s,
        InlineV::Math(s) => s,
    }
}

/// Whether some inline holds a character that is not whitespace.
pub open spec fn inlines_visible_v(s: Seq<InlineV>) -> bool {
    exists|i: int| 0 <= i < s.len() && has_visible(inline_text_v(#[trigger] s[i]))
}

/// Whether some cell of a row shows something.
pub open spec fn row_visible_v(row: Seq<Seq<InlineV>>) -> bool {
    exists|i: int| 0 <= i < row.len() && inlines_visible_v(#[trigger] row[i])
}

/// Whether a table shows anything: some cell of its header or of a row
/// does.
pub open spec fn table_visible_v(header: Seq<Seq<InlineV>>, rows: Seq<Seq<Seq<InlineV>>>) -> bool {
    row_visible_v(header) || exists|r: int| 0 <= r < rows.len() && row_visible_v(#[trigger] rows[r])
}

/// Whether a node would show anything: text that is not all whitespace, a
/// non-blank code block or formula, a table cell with such text, or a rule.
pub open spec fn node_visible_v(n: NodeV) -> bool
    decreases n,
{
    match n {
        NodeV::Heading { content, .. } => inlines_visible_v(content),
        NodeV::Paragraph(content) => inlines_visible_v(content),
        NodeV::Quote { children } => nodes_visible_v(children),
        NodeV::ListItem { children } => nodes_visible_v(children),
        NodeV::List { items, .. } => nodes_visible_v(items),
        NodeV::CodeBlock { content, .. } => has_visible(content),
        NodeV::MathBlock { latex } => has_visible(latex),
        NodeV::Table { header, rows, .. } => table_visible_v(header, rows),
        NodeV::Rule => true,
    }
}

/// Whether some node of a sequence would show anything.
pub open spec fn nodes_visible_v(s: Seq<NodeV>) -> bool
    decreases s,
{
    if s.len() == 0 {
        false
    } else {
        nodes_visible_v(s.drop_last()) || node_visible_v(s.last())
    }
}

/// Whether some inline holds a character that is not whitespace.
pub fn inlines_have_visible_content(inlines: &[Inline]) -> (r: bool)
    ensures
        r == inlines_visible_v(inlines_view(inlines@)),
{
    let mut i: usize = 0;
    while i < inlines.len()
        invariant
            i <= inlines@.len(),
            forall|k: int| 0 <= k < i ==> !has_visible(inline_text_v(#[trigger] inlines@[k]@)),
        decreases inlines.len() - i,
    {
        let s = match &inlines[i] {
            Inline::Text(s) => s,
            Inline::Bold(s) => s,
            Inline::Italic(s) => s,
            Inline::Code(s) => s,
            Inline::Math(s) => s,
        };
        assert(s@ == inline_text_v(inlines@[i as int]@));
        if str_has_visible(s.as_str()) {
            assert(inlines_view(inlines@)[i as int] == inlines@[i as int]@);
            return true;
        }
        i = i + 1;
    }
    assert forall|k: int| 0 <= k < inlines_view(inlines@).len() implies !has_visible(
        inline_text_v(#[trigger] inlines_view(inlines@)[k]),
    ) by {
        assert(inlines_view(inlines@)[k] == inlines@[k]@);
    }
    false
}

fn row_has_visible_content(row: &Vec<Vec<Inline>>) -> (r: bool)
    ensures
        r == row_visible_v(crate::ast::row_view(row@)),
{
    let mut i: usize = 0;
    while i < row.len()
        invariant
            i <= row@.len(),
            forall|k: int| 0 <= k < i ==> !inlines_visible_v(#[trigger] inlines_view(row@[k]@)),
        decreases row.len() - i,
    {
        if inlines_have_visible_content(row[i].as_slice()) {
            assert(crate::ast::row_view(row@)[i as int] == inlines_view(row@[i as int]@));
            return true;
        }
        i = i + 1;
    }
    assert forall|k: int| 0 <= k < crate::ast::row_view(row@).len() implies !inlines_visible_v(
        #[trigger] crate::ast::row_view(row@)[k],
    ) by {
        assert(crate::ast::row_view(row@)[k] == inlines_view(row@[k]@));
    }
    false
}

fn rows_have_visible_content(rows: &Vec<Vec<Vec<Inline>>>) -> (r: bool)
    ensures
        r == exists|k: int|
            0 <= k < crate::ast::rows_view(rows@).len() && row_visible_v(
                #[trigger] crate::ast::rows_view(rows@)[k],
            ),
{
    let mut i: usize = 0;
    while i < rows.len()
        invariant
            i <= rows@.len(),
            forall|k: int| 0 <= k < i ==> !row_visible_v(#[trigger] crate::ast::row_view(rows@[k]@)),
        decreases rows.len() - i,
    {
        if row_has_visible_content(&rows[i]) {
            assert(crate::ast::rows_view(rows@)[i as int] == crate::ast::row_view(rows@[i as int]@));
            return true;
        }
        i = i + 1;
    }
    assert forall|k: int| 0 <= k < crate::ast::rows_view(rows@).len() implies !row_visible_v(
        #[trigger] crate::ast::rows_view(rows@)[k],
    ) by {
        assert(crate::ast::rows_view(rows@)[k] == crate::ast::row_view(rows@[k]@));
    }
    false
}

/// Whether some node of `nodes` would show anything.
pub fn nodes_have_visible_content(nodes: &[Node]) -> (r: bool)
    ensures
        r == nodes_visible_v(nodes_view(nodes@)),
    decreases nodes@, 0nat,
{
    let mut i: usize = 0;
    let mut found = false;
    while i < nodes.len()
        invariant
            i <= nodes@.len(),
            found == nodes_visible_v(nodes_view(nodes@.take(i as int))),
        decreases nodes.len() - i,
    {
        proof {
            assert(nodes@.take(i + 1).drop_last() =~= nodes@.take(i as int));
            let s1 = nodes_view(nodes@.take(i + 1));
            assert(s1.drop_last() =~= nodes_view(nodes@.take(i as int)));
            assert(s1.last() == node_view(nodes@[i as int]));
        }
        let v = node_has_visible_content(&nodes[i]);
        found = found || v;
        i = i + 1;
    }
    assert(nodes@.take(nodes@.len() as int) =~= nodes@);
    found
}

/// Whether a node would show anything.
#[verifier::rlimit(40)]
pub fn node_has_visible_content(node: &Node) -> (r: bool)
    ensures
        r == node_visible_v(node_view(*node)),
    decreases node, 1nat,
{
    match node {
        Node::Heading { content, .. } => {
            return inlines_have_visible_content(content.as_slice());
        },
        Node::Paragraph(content) => {
            return inlines_have_visible_content(content.as_slice());
        },
        Node::Quote { children } => {
            return nodes_have_visible_content(children.as_slice());
        },
        Node::ListItem { children } => {
            return nodes_have_visible_content(children.as_slice());
        },
        Node::List { items, .. } => {
            return nodes_have_visible_content(items.as_slice());
        },
        Node::CodeBlock { content, .. } => {
            return str_has_visible(content.as_str());
        },
        Node::MathBlock { latex } => {
            return str_has_visible(latex.as_str());
        },
        Node::Table { header, rows, .. } => {
            let a = row_has_visible_content(header);
            let b = rows_have_visible_content(rows);
            return a || b;
        },
        Node::Rule => {
            return true;
        },
    }
}

// ───────────────────────────── breaking a formula ─────────────────────────────

/// `pieces` after one more piece: trimmed, and only when something is left.
pub open spec fn push_piece_v(pieces: Seq<Seq<char>>, piece: Seq<char>) -> Seq<Seq<char>> {
    if trim(piece).len() > 0 {
        pieces.push(trim(piece))
    } else {
        pieces
    }
}

/// Scans `s` from position `i`, with the current piece starting at `start`,
/// braces `depth` deep, and after a backslash when `escaped`. At brace depth
/// zero a piece ends after each `=` and `+`, and after each `-` that is not
/// the first character of its piece; an escaped character is never a break.
pub open spec fn latex_scan_v(
    s: Seq<char>,
    i: int,
    start: int,
    depth: int,
    escaped: bool,
    pieces: Seq<Seq<char>>,
) -> Seq<Seq<char>>
    decreases s.len() - i,
{
    if i >= s.len() {
        push_piece_v(pieces, s.subrange(start, s.len() as int))
    } else if escaped {
        latex_scan_v(s, i + 1, start, depth, false, pieces)
    } else {
        let c = s[i];
        if c == '\\' {
            latex_scan_v(s, i + 1, start, depth, true, pieces)
        } else if c == '{' {
            latex_scan_v(s, i + 1, start, depth + 1, false, pieces)
        } else if c == '}' {
            latex_scan_v(s, i + 1, start, if depth > 0 { depth - 1 } else { 0 }, false, pieces)
        } else if depth == 0 && (c == '=' || c == '+' || (c == '-' && i > start)) {
            latex_scan_v(s, i + 1, i + 1, depth, false, push_piece_v(pieces, s.subrange(start, i + 1)))
        } else {
            latex_scan_v(s, i + 1, start, depth, false, pieces)
        }
    }
}

/// The pieces that a formula may break into.
pub open spec fn latex_pieces_v(s: Seq<char>) -> Seq<Seq<char>> {
    latex_scan_v(s, 0, 0, 0, false, Seq::empty())
}

/// Adds a piece of a formula, trimmed, unless it is blank.
pub fn push_latex_piece(pieces: &mut Vec<String>, piece: &str)
    ensures
        strings_view(final(pieces)@) == push_piece_v(strings_view(old(pieces)@), piece@),
{
    let t = trim_str(piece);
    if !t.as_str().is_empty() {
        let ghost before = strings_view(pieces@);
        pieces.push(t);
        assert(strings_view(pieces@) =~= before.push(t@));
    }
}

/// Splits a formula after the top-level `=`, `+` and `-` signs, the places
/// where a long inline formula may wrap; blank pieces are dropped.
pub fn split_latex_for_wrap(latex: &str) -> (pieces: Vec<String>)
    ensures
        strings_view(pieces@) == latex_pieces_v(latex@),
{
    let cs = to_chars(latex);
    let n = cs.len();
    let mut pieces: Vec<String> = Vec::new();
    let mut start: usize = 0;
    let mut depth: usize = 0;
    let mut escaped = false;
    let mut i: usize = 0;
    assert(strings_view(pieces@) =~= Seq::<Seq<char>>::empty());
    while i < n
        invariant
            start <= i <= n == cs@.len(),
            depth <= i,
            cs@ == latex@,
            latex_scan_v(cs@, i as int, start as int, depth as int, escaped, strings_view(pieces@))
                == latex_pieces_v(latex@),
        decreases n - i,
    {
        let c = cs[i];
        if escaped {
            escaped = false;
        } else if c == '\\' {
            escaped = true;
        } else if c == '{' {
            depth = depth + 1;
        } else if c == '}' {
            if depth > 0 {
                depth = depth - 1;
            }
        } else if depth == 0 && (c == '=' || c == '+' || (c == '-' && i > start)) {
            let piece = string_from_chars(&cs, start, i + 1);
            push_latex_piece(&mut pieces, piece.as_str());
            start = i + 1;
        }
        i = i + 1;
    }
    let rest = string_from_chars(&cs, start, n);
    push_latex_piece(&mut pieces, rest.as_str());
    pieces
}

/// Whether every piece is non-empty and trimmed.
pub open spec fn all_trimmed(pieces: Seq<Seq<char>>) -> bool {
    forall|k: int| 0 <= k < pieces.len() ==> (#[trigger] pieces[k]).len() > 0 && trim(pieces[k]) == pieces[k]
}

/// Every piece of a formula is trimmed and not empty.
pub proof fn law_latex_pieces_trimmed(s: Seq<char>)
    ensures
        all_trimmed(latex_pieces_v(s)),
{
    lemma_scan_trimmed(s, 0, 0, 0, false, Seq::empty());
}

/// Trimming twice is trimming once.
pub proof fn lemma_trim_idempotent(s: Seq<char>)
    ensures
        trim(trim(s)) == trim(s),
{
    lemma_trim_start_of_trimmed(s);
    lemma_trim_end_idem(crate::strings::trim_start(s));
}

proof fn lemma_trim_start_of_trimmed(s: Seq<char>)
    ensures
        crate::strings::trim_start(trim(s)) == trim(s),
{
    crate::strings::lemma_trim_start_shape(s);
    lemma_trim_end_keeps_head(crate::strings::trim_start(s));
}

proof fn lemma_trim_end_keeps_head(s: Seq<char>)
    requires
        s.len() > 0 ==> !crate::strings::is_ws(s[0]),
    ensures
        crate::strings::trim_start(crate::strings::trim_end(s)) == crate::strings::trim_end(s),
    decreases s.len(),
{
    if s.len() > 0 && crate::strings::is_ws(s.last()) {
        if s.len() > 1 {
            assert(s.drop_last()[0] == s[0]);
        }
        lemma_trim_end_keeps_head(s.drop_last());
    }
}

proof fn lemma_trim_end_idem(s: Seq<char>)
    ensures
        crate::strings::trim_end(crate::strings::trim_end(s)) == crate::strings::trim_end(s),
    decreases s.len(),
{
    if s.len() > 0 && crate::strings::is_ws(s.last()) {
        lemma_trim_end_idem(s.drop_last());
    }
}

proof fn lemma_scan_trimmed(
    s: Seq<char>,
    i: int,
    start: int,
    depth: int,
    escaped: bool,
    pieces: Seq<Seq<char>>,
)
    requires
        all_trimmed(pieces),
    ensures
        all_trimmed(latex_scan_v(s, i, start, depth, escaped, pieces)),
    decreases s.len() - i,
{
    if i >= s.len() {
        lemma_push_piece_trimmed(pieces, s.subrange(start, s.len() as int));
    } else if escaped {
        lemma_scan_trimmed(s, i + 1, start, depth, false, pieces);
    } else {
        let c = s[i];
        if c == '\\' {
            lemma_scan_trimmed(s, i + 1, start, depth, true, pieces);
        } else if c == '{' {
            lemma_scan_trimmed(s, i + 1, start, depth + 1, false, pieces);
        } else if c == '}' {
            lemma_scan_trimmed(s, i + 1, start, if depth > 0 { depth - 1 } else { 0 }, false, pieces);
        } else if depth == 0 && (c == '=' || c == '+' || (c == '-' && i > start)) {
            lemma_push_piece_trimmed(pieces, s.subrange(start, i + 1));
            lemma_scan_trimmed(
                s,
                i + 1,
                i + 1,
                depth,
                false,
                push_piece_v(pieces, s.subrange(start, i + 1)),
            );
        } else {
            lemma_scan_trimmed(s, i + 1, start, depth, false, pieces);
        }
    }
}

proof fn lemma_push_piece_trimmed(pieces: Seq<Seq<char>>, piece: Seq<char>)
    requires
        all_trimmed(pieces),
    ensures
        all_trimmed(push_piece_v(pieces, piece)),
{
    lemma_trim_idempotent(piece);
    if trim(piece).len() > 0 {
        let p = pieces.push(trim(piece));
        assert forall|k: int| 0 <= k < p.len() implies (#[trigger] p[k]).len() > 0 && trim(p[k]) == p[k] by {
            if k < pieces.len() {
                assert(p[k] == pieces[k]);
            }
        }
    }
}

// ───────────────────────────── table cells ─────────────────────────────

/// A table cell before layout: its runs and its column's alignment.
#[derive(Debug)]
pub struct SourceCell {
    pub runs: Vec<TextRun>,
    pub align: TableAlignment,
}

/// The model of a [`SourceCell`].
pub struct CellV {
    pub runs: Seq<RunV>,
    pub align: TableAlignment,
}

impl View for SourceCell {
    type V = CellV;

    open spec fn view(&self) -> CellV {
        CellV { runs: runs_view(self.runs@), align: self.align }
    }
}

/// The models of a sequence of rows of cells.
pub open spec fn cell_rows_view(rows: Seq<Vec<SourceCell>>) -> Seq<Seq<CellV>> {
    rows.map_values(|r: Vec<SourceCell>| r@.map_values(|c: SourceCell| c@))
}

/// The number of columns of a table: the most of its alignments, its header
/// cells and the cells of any row.
pub open spec fn col_count_v(
    alignments: Seq<TableAlignment>,
    header: Seq<Seq<InlineV>>,
    rows: Seq<Seq<Seq<InlineV>>>,
) -> int
    decreases rows.len(),
{
    if rows.len() == 0 {
        if alignments.len() > header.len() {
            alignments.len() as int
        } else {
            header.len() as int
        }
    } else {
        let prev = col_count_v(alignments, header, rows.drop_last());
        if rows.last().len() > prev {
            rows.last().len() as int
        } else {
            prev
        }
    }
}

/// The alignment of column `idx`: as given, `Unaligned` past the given ones.
pub open spec fn align_for_col_v(alignments: Seq<TableAlignment>, idx: int) -> TableAlignment {
    if 0 <= idx < alignments.len() {
        alignments[idx]
    } else {
        TableAlignment::Unaligned
    }
}

/// Header text is bold: normal runs become bold ones, others keep their style.
pub open spec fn embolden_v(runs: Seq<RunV>) -> Seq<RunV> {
    runs.map_values(
        |r: RunV|
            if r.style == TextStyle::Normal {
                RunV { text: r.text, style: TextStyle::Bold }
            } else {
                r
            },
    )
}

/// One row of cells, padded to `n` columns with empty cells.
pub open spec fn cell_row_v(
    alignments: Seq<TableAlignment>,
    row: Seq<Seq<InlineV>>,
    n: int,
    bold: bool,
) -> Seq<CellV> {
    Seq::new(
        n as nat,
        |idx: int|
            CellV {
                runs: if idx < row.len() {
                    if bold {
                        embolden_v(inline_runs_v(row[idx]))
                    } else {
                        inline_runs_v(row[idx])
                    }
                } else {
                    Seq::empty()
                },
                align: align_for_col_v(alignments, idx),
            },
    )
}

/// The rows of cells of a table: its header (when it has one) in bold, then
/// its rows, each padded to the column count; nothing when it has no column.
pub open spec fn table_cells_v(
    alignments: Seq<TableAlignment>,
    header: Seq<Seq<InlineV>>,
    rows: Seq<Seq<Seq<InlineV>>>,
) -> Option<(int, Seq<Seq<CellV>>)> {
    let n = col_count_v(alignments, header, rows);
    if n == 0 {
        None
    } else {
        let body = Seq::new(rows.len(), |r: int| cell_row_v(alignments, rows[r], n, false));
        Some(
            (
                n,
                if header.len() > 0 {
                    seq![cell_row_v(alignments, header, n, true)] + body
                } else {
                    body
                },
            ),
        )
    }
}

fn embolden(runs: &mut Vec<TextRun>)
    ensures
        runs_view(final(runs)@) == embolden_v(runs_view(old(runs)@)),
{
    let mut out: Vec<TextRun> = Vec::new();
    let ghost src = runs_view(runs@);
    let mut i: usize = 0;
    while i < runs.len()
        invariant
            i <= runs@.len(),
            src == runs_view(runs@),
            runs_view(out@) =~= embolden_v(src.take(i as int)),
        decreases runs.len() - i,
    {
        let r = &runs[i];
        let style = if r.style == TextStyle::Normal {
            TextStyle::Bold
        } else {
            r.style
        };
        let ghost before = runs_view(out@);
        out.push(TextRun { text: r.text.clone(), style });
        proof {
            assert(src.take(i + 1) =~= src.take(i as int).push(src[i as int]));
            assert(runs_view(out@) =~= before.push(out@[i as int]@));
        }
        i = i + 1;
    }
    assert(src.take(src.len() as int) =~= src);
    *runs = out;
}

fn cell_row(alignments: &[TableAlignment], row: &Vec<Vec<Inline>>, n: usize, bold: bool) -> (cells: Vec<
    SourceCell,
>)
    ensures
        cells@.map_values(|c: SourceCell| c@) == cell_row_v(alignments@, row_view(row@), n as int, bold),
{
    let mut cells: Vec<SourceCell> = Vec::new();
    let mut idx: usize = 0;
    while idx < n
        invariant
            idx <= n,
            cells@.len() == idx,
            forall|k: int|
                0 <= k < idx ==> (#[trigger] cells@[k])@ == cell_row_v(
                    alignments@,
                    row_view(row@),
                    n as int,
                    bold,
                )[k],
        decreases n - idx,
    {
        let mut runs = if idx < row.len() {
            inlines_to_runs(row[idx].as_slice())
        } else {
            Vec::new()
        };
        if bold && idx < row.len() {
            embolden(&mut runs);
        }
        let align = if idx < alignments.len() {
            alignments[idx]
        } else {
            TableAlignment::Unaligned
        };
        proof {
            if idx < row.len() {
                assert(row_view(row@)[idx as int] == inlines_view(row@[idx as int]@));
            } else {
                assert(runs_view(runs@) =~= Seq::<RunV>::empty());
            }
        }
        cells.push(SourceCell { runs, align });
        idx = idx + 1;
    }
    assert(cells@.map_values(|c: SourceCell| c@) =~= cell_row_v(
        alignments@,
        row_view(row@),
        n as int,
        bold,
    ));
    cells
}

/// The cells of a table before layout, with its column count; `None` when
/// it has no column.
pub fn table_source_rows(
    alignments: &[TableAlignment],
    header: &Vec<Vec<Inline>>,
    rows: &Vec<Vec<Vec<Inline>>>,
) -> (r: Option<(usize, Vec<Vec<SourceCell>>)>)
    ensures
        match (r, table_cells_v(alignments@, row_view(header@), rows_view(rows@))) {
            (Some((n, cells)), Some((m, cv))) => n == m && cell_rows_view(cells@) == cv,
            (None, None) => true,
            _ => false,
        },
{
    let mut n: usize = if alignments.len() > header.len() {
        alignments.len()
    } else {
        header.len()
    };
    let mut i: usize = 0;
    while i < rows.len()
        invariant
            i <= rows@.len(),
            n == col_count_v(alignments@, row_view(header@), rows_view(rows@).take(i as int)),
        decreases rows.len() - i,
    {
        proof {
            assert(rows_view(rows@).take(i + 1).drop_last() =~= rows_view(rows@).take(i as int));
            assert(rows_view(rows@)[i as int] == row_view(rows@[i as int]@));
        }
        if rows[i].len() > n {
            n = rows[i].len();
        }
        i = i + 1;
    }
    assert(rows_view(rows@).take(rows@.len() as int) =~= rows_view(rows@));
    if n == 0 {
        return None;
    }
    let ghost hv = row_view(header@);
    let ghost rv = rows_view(rows@);
    let mut out: Vec<Vec<SourceCell>> = Vec::new();
    if header.len() > 0 {
        out.push(cell_row(alignments, header, n, true));
    }
    let ghost h: int = if header.len() > 0 { 1 } else { 0 };
    let mut j: usize = 0;
    while j < rows.len()
        invariant
            j <= rows@.len(),
            h == (if header@.len() > 0 { 1int } else { 0int }),
            out@.len() == h + j,
            hv == row_view(header@),
            rv == rows_view(rows@),
            h == 1 ==> cell_rows_view(out@)[0] == cell_row_v(alignments@, hv, n as int, true),
            forall|k: int|
                0 <= k < j ==> #[trigger] cell_rows_view(out@)[h + k] == cell_row_v(
                    alignments@,
                    rv[k],
                    n as int,
                    false,
                ),
        decreases rows.len() - j,
    {
        let row = cell_row(alignments, &rows[j], n, false);
        proof {
            assert(rv[j as int] == row_view(rows@[j as int]@));
        }
        let ghost before = cell_rows_view(out@);
        let ghost rowv = row@.map_values(|c: SourceCell| c@);
        out.push(row);
        assert(cell_rows_view(out@) =~= before.push(rowv));
        j = j + 1;
    }
    let ghost expected = table_cells_v(alignments@, hv, rv);
    proof {
        let body = Seq::new(rv.len(), |r: int| cell_row_v(alignments@, rv[r], n as int, false));
        let want = if hv.len() > 0 {
            seq![cell_row_v(alignments@, hv, n as int, true)] + body
        } else {
            body
        };
        assert(cell_rows_view(out@) =~= want) by {
            assert forall|k: int| 0 <= k < want.len() implies cell_rows_view(out@)[k] == want[k] by {
                if h == 1 && k == 0 {
                } else {
                    assert(cell_rows_view(out@)[h + (k - h)] == cell_row_v(alignments@, rv[k - h], n as int, false));
                }
            }
        }
    }
    Some((n, out))
}


// ───────────────────────────── visible runs ─────────────────────────────

proof fn lemma_has_visible_concat(a: Seq<char>, b: Seq<char>)
    ensures
        has_visible(a + b) == (has_visible(a) || has_visible(b)),
{
    let ab = a + b;
    if has_visible(ab) {
        let i = choose|i: int| 0 <= i < ab.len() && !is_ws(#[trigger] ab[i]);
        if i < a.len() {
            assert(a[i] == ab[i]);
        } else {
            assert(b[i - a.len()] == ab[i]);
        }
    }
    if has_visible(a) {
        let i = choose|i: int| 0 <= i < a.len() && !is_ws(#[trigger] a[i]);
        assert(ab[i] == a[i]);
    }
    if has_visible(b) {
        let i = choose|i: int| 0 <= i < b.len() && !is_ws(#[trigger] b[i]);
        assert(ab[a.len() + i] == b[i]);
    }
}

proof fn lemma_space_not_visible()
    ensures
        !has_visible(seq![' ']),
{
    assert forall|i: int| 0 <= i < seq![' '].len() implies is_ws(#[trigger] seq![' '][i]) by {
        assert(seq![' '][i] == ' ');
    }
}

proof fn lemma_push_run_visible(runs: Seq<RunV>, text: Seq<char>, style: TextStyle)
    ensures
        runs_visible(push_run_v(runs, text, style)) == (runs_visible(runs) || has_visible(text)),
{
    let r = push_run_v(runs, text, style);
    if text.len() == 0 {
        if has_visible(text) {
            let i = choose|i: int| 0 <= i < text.len() && !is_ws(#[trigger] text[i]);
        }
    } else if style != TextStyle::Math && runs.len() > 0 && runs.last().style == style {
        let last = runs.len() - 1;
        lemma_has_visible_concat(runs.last().text, text);
        if runs_visible(r) {
            let i = choose|i: int| 0 <= i < r.len() && has_visible(#[trigger] r[i].text);
            if i != last {
                assert(r[i] == runs[i]);
            }
        }
        if runs_visible(runs) {
            let i = choose|i: int| 0 <= i < runs.len() && has_visible(#[trigger] runs[i].text);
            if i != last {
                assert(r[i] == runs[i]);
            } else {
                assert(has_visible(r[last].text));
            }
        }
        if has_visible(text) {
            assert(has_visible(r[last].text));
        }
    } else {
        lemma_push_visible(runs, RunV { text, style });
    }
}

proof fn lemma_push_visible(runs: Seq<RunV>, run: RunV)
    ensures
        runs_visible(runs.push(run)) == (runs_visible(runs) || has_visible(run.text)),
{
    let r = runs.push(run);
    if runs_visible(r) {
        let i = choose|i: int| 0 <= i < r.len() && has_visible(#[trigger] r[i].text);
        if i < runs.len() {
            assert(r[i] == runs[i]);
        }
    }
    if runs_visible(runs) {
        let i = choose|i: int| 0 <= i < runs.len() && has_visible(#[trigger] runs[i].text);
        assert(r[i] == runs[i]);
    }
    if has_visible(run.text) {
        assert(r[runs.len() as int] == run);
    }
}

proof fn lemma_inlines_visible_snoc(s: Seq<InlineV>)
    requires
        s.len() > 0,
    ensures
        inlines_visible_v(s) == (inlines_visible_v(s.drop_last()) || has_visible(
            inline_text_v(s.last()),
        )),
{
    let d = s.drop_last();
    if inlines_visible_v(s) {
        let i = choose|i: int| 0 <= i < s.len() && has_visible(inline_text_v(#[trigger] s[i]));
        if i < d.len() {
            assert(d[i] == s[i]);
        }
    }
    if inlines_visible_v(d) {
        let i = choose|i: int| 0 <= i < d.len() && has_visible(inline_text_v(#[trigger] d[i]));
        assert(s[i] == d[i]);
    }
    if has_visible(inline_text_v(s.last())) {
        assert(s[s.len() - 1] == s.last());
    }
}

/// A paragraph's runs show something exactly when its inlines do: turning
/// inlines into runs (with the spaces around inline code) neither adds nor
/// removes a character that is not whitespace.
pub proof fn law_runs_visible_iff_inlines_visible(s: Seq<InlineV>)
    ensures
        runs_visible(inline_runs_v(s)) == inlines_visible_v(s),
    decreases s.len(),
{
    if s.len() == 0 {
        assert(!runs_visible(Seq::<RunV>::empty()));
    } else {
        law_runs_visible_iff_inlines_visible(s.drop_last());
        lemma_inlines_visible_snoc(s);
        let prev = inline_runs_v(s.drop_last());
        match s.last() {
            InlineV::Text(t) => lemma_push_run_visible(prev, t, TextStyle::Normal),
            InlineV::Bold(t) => lemma_push_run_visible(prev, t, TextStyle::Bold),
            InlineV::Italic(t) => lemma_push_run_visible(prev, t, TextStyle::Italic),
            InlineV::Code(t) => {
                lemma_push_run_visible(prev, seq![' '] + t + seq![' '], TextStyle::Code);
                lemma_has_visible_concat(seq![' '] + t, seq![' ']);
                lemma_has_visible_concat(seq![' '], t);
                lemma_space_not_visible();
            },
            InlineV::Math(t) => lemma_push_visible(prev, RunV { text: t, style: TextStyle::Math }),
        }
    }
}


// ───────────────────────────── SVG markup ─────────────────────────────

/// The `<tspan>` that draws one token of a code line: its colour as the
/// fill, its text escaped.
pub open spec fn code_tspan_v(t: TokenV) -> Seq<char> {
    "<tspan fill=\""@ + t.0 + "\">"@ + escape(t.1) + "</tspan>"@
}

/// The `<tspan>`s of a code line, one per token.
pub open spec fn code_tspans_v(tokens: Seq<TokenV>) -> Seq<char>
    decreases tokens.len(),
{
    if tokens.len() == 0 {
        Seq::empty()
    } else {
        code_tspans_v(tokens.drop_last()) + code_tspan_v(tokens.last())
    }
}

/// The markup of a highlighted code line: one coloured `<tspan>` per token.
pub fn code_line_tspans(tokens: &[CodeToken]) -> (r: String)
    ensures
        r@ == code_tspans_v(tokens_view(tokens@)),
{
    let ghost tv = tokens_view(tokens@);
    let mut out = String::new();
    let mut i: usize = 0;
    proof {
        reveal_strlit("<tspan fill=\"");
        reveal_strlit("\">");
        reveal_strlit("</tspan>");
    }
    while i < tokens.len()
        invariant
            i <= tokens@.len(),
            tv == tokens_view(tokens@),
            out@ == code_tspans_v(tv.take(i as int)),
        decreases tokens.len() - i,
    {
        let ghost before = out@;
        out.append("<tspan fill=\"");
        out.append(tokens[i].0.as_str());
        out.append("\">");
        let escaped = esc(tokens[i].1.as_str());
        out.append(escaped.as_str());
        out.append("</tspan>");
        proof {
            assert(tv.take(i + 1).drop_last() =~= tv.take(i as int));
            assert(tv.take(i + 1).last() == tv[i as int]);
            assert(out@ =~= before + code_tspan_v(tv[i as int]));
        }
        i = i + 1;
    }
    assert(tv.take(tv.len() as int) =~= tv);
    out
}

/// The `<tspan>` that draws one run of text: the attributes of its style,
/// its shown text escaped.
pub open spec fn run_tspan_v(run: RunV) -> Seq<char> {
    "<tspan "@ + tspan_attrs_v(run.style) + ">"@ + escape(tspan_text_v(run)) + "</tspan>"@
}

/// The `<tspan>`s of runs, one per run that holds text.
pub open spec fn runs_tspans_v(runs: Seq<RunV>) -> Seq<char>
    decreases runs.len(),
{
    if runs.len() == 0 {
        Seq::empty()
    } else if runs.last().text.len() == 0 {
        runs_tspans_v(runs.drop_last())
    } else {
        runs_tspans_v(runs.drop_last()) + run_tspan_v(runs.last())
    }
}

/// The markup of a group of runs: one styled `<tspan>` per run that holds
/// text.
pub fn runs_tspans(runs: &[TextRun]) -> (r: String)
    ensures
        r@ == runs_tspans_v(runs_view(runs@)),
{
    let ghost rv = runs_view(runs@);
    let mut out = String::new();
    let mut i: usize = 0;
    proof {
        reveal_strlit("<tspan ");
        reveal_strlit(">");
        reveal_strlit("</tspan>");
    }
    while i < runs.len()
        invariant
            i <= runs@.len(),
            rv == runs_view(runs@),
            out@ == runs_tspans_v(rv.take(i as int)),
        decreases runs.len() - i,
    {
        let ghost before = out@;
        proof {
            assert(rv.take(i + 1).drop_last() =~= rv.take(i as int));
            assert(rv.take(i + 1).last() == rv[i as int]);
            assert(rv[i as int] == runs@[i as int]@);
        }
        if !runs[i].text.as_str().is_empty() {
            let (attrs, text) = svg_tspan_for_run(&runs[i]);
            out.append("<tspan ");
            out.append(attrs);
            out.append(">");
            let escaped = esc(text.as_str());
            out.append(escaped.as_str());
            out.append("</tspan>");
            assert(out@ =~= before + run_tspan_v(rv[i as int]));
        }
        i = i + 1;
    }
    assert(rv.take(rv.len() as int) =~= rv);
    out
}

// ───────────────────────────── lists and tables ─────────────────────────────

/// The decimal digits of `n`.
pub open spec fn decimal_v(n: nat) -> Seq<char>
    decreases n,
{
    if n < 10 {
        seq![hex_digit_v(n as int)]
    } else {
        decimal_v(n / 10) + seq![hex_digit_v((n % 10) as int)]
    }
}

fn push_decimal(s: &mut String, n: u64)
    ensures
        final(s)@ == old(s)@ + decimal_v(n as nat),
    decreases n,
{
    if n >= 10 {
        push_decimal(s, n / 10);
    }
    let ghost mid = s@;
    push_char(s, hex_digit((n % 10) as u8));
    proof {
        if n < 10 {
            assert(s@ =~= old(s)@ + decimal_v(n as nat));
        } else {
            assert(s@ =~= mid + seq![hex_digit_v((n % 10) as int)]);
            assert(s@ =~= old(s)@ + decimal_v(n as nat));
        }
    }
}

/// The marker of item number `n` of an ordered list: `n`, a full stop and a
/// space.
pub fn list_marker(n: u64) -> (r: String)
    ensures
        r@ == decimal_v(n as nat) + seq!['.', ' '],
{
    let mut s = String::new();
    push_decimal(&mut s, n);
    push_char(&mut s, '.');
    push_char(&mut s, ' ');
    assert(s@ =~= decimal_v(n as nat) + seq!['.', ' ']);
    s
}

/// Whether a list item gets a marker (and, in an ordered list, a number):
/// its first paragraph, skipping other children, has runs that show
/// something.
pub open spec fn item_marked_v(children: Seq<NodeV>) -> bool
    decreases children.len(),
{
    if children.len() == 0 {
        false
    } else {
        match children[0] {
            NodeV::Paragraph(content) => runs_visible(inline_runs_v(content)),
            _ => item_marked_v(children.drop_first()),
        }
    }
}

/// Whether a list item with these children gets a marker.
pub fn item_has_marker(children: &[Node]) -> (r: bool)
    ensures
        r == item_marked_v(nodes_view(children@)),
{
    let ghost nv = nodes_view(children@);
    proof {
        lemma_nodes_view_index(children@);
        assert(nv.skip(0) =~= nv);
    }
    let mut i: usize = 0;
    while i < children.len()
        invariant
            i <= children@.len(),
            nv == nodes_view(children@),
            nv.len() == children@.len(),
            forall|k: int| 0 <= k < children@.len() ==> #[trigger] nv[k] == node_view(children@[k]),
            item_marked_v(nv.skip(i as int)) == item_marked_v(nv),
        decreases children.len() - i,
    {
        let ghost rest = nv.skip(i as int);
        proof {
            assert(rest[0] == nv[i as int]);
            assert(rest.drop_first() =~= nv.skip(i + 1));
        }
        match &children[i] {
            Node::Paragraph(content) => {
                let runs = inlines_to_runs(content.as_slice());
                return runs_have_visible_text(runs.as_slice());
            },
            _ => {},
        }
        i = i + 1;
    }
    false
}

/// Whether row `row_idx` of a table is shaded: every second row after the
/// header rows, starting with the second.
pub fn is_shaded_row(row_idx: usize, header_rows: usize) -> (r: bool)
    ensures
        r == (row_idx >= header_rows && (row_idx - header_rows) % 2 == 1),
{
    row_idx >= header_rows && (row_idx - header_rows) % 2 == 1
}

// ───────────────────────────── ordered-list numbers ─────────────────────────────

/// How many markers are drawn inside a list item with these children: its
/// own, at its first paragraph when that shows something, and those of the
/// items nested in it. `seen` once the first paragraph is behind.
pub open spec fn item_markers_v(children: Seq<NodeV>, seen: bool) -> nat
    decreases children,
{
    if children.len() == 0 {
        0
    } else {
        let rest = children.drop_first();
        match children[0] {
            NodeV::Paragraph(content) => if seen {
                item_markers_v(rest, true)
            } else {
                (if runs_visible(inline_runs_v(content)) {
                    1nat
                } else {
                    0nat
                }) + item_markers_v(rest, true)
            },
            NodeV::ListItem { children: sub } => item_markers_v(sub, false) + item_markers_v(rest, seen),
            _ => item_markers_v(rest, seen),
        }
    }
}

/// How many markers the items of a list draw.
pub open spec fn list_markers_v(items: Seq<NodeV>) -> nat
    decreases items.len(),
{
    if items.len() == 0 {
        0
    } else {
        list_markers_v(items.drop_last()) + match items.last() {
            NodeV::ListItem { children } => item_markers_v(children, false),
            _ => 0nat,
        }
    }
}

/// The number of a list's first item: its start, 1 when it gives none.
pub open spec fn first_number_v(start: Option<u64>) -> int {
    match start {
        Some(n) => n as int,
        None => 1,
    }
}

fn item_markers(children: &[Node], seen: bool, budget: u64) -> (r: Option<u64>)
    ensures
        match r {
            Some(n) => n == item_markers_v(nodes_view(children@), seen) && n <= budget,
            None => item_markers_v(nodes_view(children@), seen) > budget,
        },
    decreases children@,
{
    let ghost nv = nodes_view(children@);
    proof {
        lemma_nodes_view_index(children@);
        assert(nv.skip(0) =~= nv);
    }
    let mut acc: u64 = 0;
    let mut seen_now = seen;
    let mut i: usize = 0;
    while i < children.len()
        invariant
            i <= children@.len(),
            nv == nodes_view(children@),
            nv.len() == children@.len(),
            forall|k: int| 0 <= k < children@.len() ==> #[trigger] nv[k] == node_view(children@[k]),
            acc <= budget,
            item_markers_v(nv, seen) == acc + item_markers_v(nv.skip(i as int), seen_now),
        decreases children.len() - i,
    {
        let ghost rest = nv.skip(i as int);
        proof {
            assert(rest[0] == nv[i as int]);
            assert(rest.drop_first() =~= nv.skip(i + 1));
        }
        match &children[i] {
            Node::Paragraph(content) => {
                if !seen_now {
                    let runs = inlines_to_runs(content.as_slice());
                    if runs_have_visible_text(runs.as_slice()) {
                        if acc == budget {
                            return None;
                        }
                        acc = acc + 1;
                    }
                    seen_now = true;
                }
            },
            Node::ListItem { children: sub } => {
                assert(decreases_to!(children@ => children@[i as int]));
                match item_markers(sub.as_slice(), false, budget - acc) {
                    Some(n) => {
                        acc = acc + n;
                    },
                    None => {
                        return None;
                    },
                }
            },
            _ => {},
        }
        i = i + 1;
    }
    proof {
        assert(nv.skip(i as int).len() == 0);
    }
    Some(acc)
}

/// The numbers that an ordered list's markers show, in the order they are
/// drawn: consecutive from the list's first number. `None` when the last
/// one would pass `u64::MAX` (the counter would overflow).
pub fn list_numbers(start: Option<u64>, items: &[Node]) -> (r: Option<Vec<u64>>)
    ensures
        r is None <==> first_number_v(start) + list_markers_v(nodes_view(items@)) > u64::MAX,
        r matches Some(v) ==> v@ == Seq::new(
            list_markers_v(nodes_view(items@)),
            |k: int| (first_number_v(start) + k) as u64,
        ),
{
    let first: u64 = match start {
        Some(n) => n,
        None => 1,
    };
    let ghost nv = nodes_view(items@);
    proof {
        lemma_nodes_view_index(items@);
    }
    let mut count: u64 = 0;
    let mut i: usize = 0;
    while i < items.len()
        invariant
            i <= items@.len(),
            nv == nodes_view(items@),
            nv.len() == items@.len(),
            forall|k: int| 0 <= k < items@.len() ==> #[trigger] nv[k] == node_view(items@[k]),
            first == first_number_v(start),
            count == list_markers_v(nv.take(i as int)),
            first + count <= u64::MAX,
        decreases items.len() - i,
    {
        proof {
            assert(nv.take(i + 1).drop_last() =~= nv.take(i as int));
            assert(nv.take(i + 1).last() == nv[i as int]);
        }
        match &items[i] {
            Node::ListItem { children } => {
                match item_markers(children.as_slice(), false, u64::MAX - first - count) {
                    Some(n) => {
                        count = count + n;
                    },
                    None => {
                        proof {
                            lemma_list_markers_prefix(nv, i as int + 1);
                        }
                        return None;
                    },
                }
            },
            _ => {},
        }
        i = i + 1;
    }
    assert(nv.take(i as int) =~= nv);
    let mut out: Vec<u64> = Vec::new();
    let mut k: u64 = 0;
    while k < count
        invariant
            k <= count,
            first + count <= u64::MAX,
            out@ == Seq::new(k as nat, |j: int| (first + j) as u64),
        decreases count - k,
    {
        out.push(first + k);
        assert(out@ =~= Seq::new((k + 1) as nat, |j: int| (first + j) as u64));
        k = k + 1;
    }
    Some(out)
}

proof fn lemma_list_markers_prefix(items: Seq<NodeV>, i: int)
    requires
        0 <= i <= items.len(),
    ensures
        list_markers_v(items.take(i)) <= list_markers_v(items),
    decreases items.len(),
{
    if i < items.len() {
        assert(items.drop_last().take(i) =~= items.take(i));
        lemma_list_markers_prefix(items.drop_last(), i);
    } else {
        assert(items.take(i) =~= items);
    }
}

// ───────────────────────────── styles of runs ─────────────────────────────

/// The style that an inline's text is drawn in.
pub open spec fn inline_style_v(i: InlineV) -> TextStyle {
    match i {
        InlineV::Text(_) => TextStyle::Normal,
        InlineV::Bold(_) => TextStyle::Bold,
        InlineV::Italic(_) => TextStyle::Italic,
        InlineV::Code(_) => TextStyle::Code,
        InlineV::Math(_) => TextStyle::Math,
    }
}

/// The text an inline shows: inline code with a space on each side.
pub open spec fn inline_shown_v(i: InlineV) -> Seq<char> {
    match i {
        InlineV::Code(s) => seq![' '] + s + seq![' '],
        _ => inline_text_v(i),
    }
}

/// The characters that inlines show, in order, each in its inline's style.
pub open spec fn inlines_styled_v(s: Seq<InlineV>) -> Seq<(char, TextStyle)>
    decreases s.len(),
{
    if s.len() == 0 {
        Seq::empty()
    } else {
        inlines_styled_v(s.drop_last()) + styled(inline_shown_v(s.last()), inline_style_v(s.last()))
    }
}

/// Turning inlines into runs keeps every character and its style: the runs'
/// characters are the inlines' shown characters, in order, each in the
/// style of the inline it came from.
pub proof fn law_runs_keep_inline_styles(s: Seq<InlineV>)
    ensures
        styled_chars(inline_runs_v(s)) == inlines_styled_v(s),
    decreases s.len(),
{
    if s.len() > 0 {
        law_runs_keep_inline_styles(s.drop_last());
        let prev = inline_runs_v(s.drop_last());
        match s.last() {
            InlineV::Text(t) => law_push_run_keeps_styles(prev, t, TextStyle::Normal),
            InlineV::Bold(t) => law_push_run_keeps_styles(prev, t, TextStyle::Bold),
            InlineV::Italic(t) => law_push_run_keeps_styles(prev, t, TextStyle::Italic),
            InlineV::Code(t) => law_push_run_keeps_styles(prev, seq![' '] + t + seq![' '], TextStyle::Code),
            InlineV::Math(t) => lemma_styled_chars_push(prev, RunV { text: t, style: TextStyle::Math }),
        }
    }
}

// ───────────────────────────── text of the markup ─────────────────────────────

/// The characters of markup that stand outside its tags (a tag runs from a
/// `<` to the next `>`); `in_tag` when the markup starts inside a tag.
pub open spec fn outside_tags(m: Seq<char>, in_tag: bool) -> Seq<char>
    decreases m.len(),
{
    if m.len() == 0 {
        Seq::empty()
    } else if in_tag {
        outside_tags(m.drop_first(), m[0] != '>')
    } else if m[0] == '<' {
        outside_tags(m.drop_first(), true)
    } else {
        seq![m[0]] + outside_tags(m.drop_first(), false)
    }
}

/// The text that runs show, one after the other: each run's shown text
/// (whitespace included), an empty formula showing nothing.
pub open spec fn runs_shown_v(runs: Seq<RunV>) -> Seq<char>
    decreases runs.len(),
{
    if runs.len() == 0 {
        Seq::empty()
    } else {
        runs_shown_v(runs.drop_last()) + if runs.last().style == TextStyle::Math
            && runs.last().text.len() == 0 {
            Seq::<char>::empty()
        } else {
            tspan_text_v(runs.last())
        }
    }
}

proof fn lemma_outside_plain(x: Seq<char>, y: Seq<char>)
    requires
        forall|k: int| 0 <= k < x.len() ==> #[trigger] x[k] != '<',
    ensures
        outside_tags(x + y, false) == x + outside_tags(y, false),
    decreases x.len(),
{
    if x.len() == 0 {
        assert(x + y =~= y);
        assert(x + outside_tags(y, false) =~= outside_tags(y, false));
    } else {
        let d = x.drop_first();
        assert forall|k: int| 0 <= k < d.len() implies #[trigger] d[k] != '<' by {
            assert(d[k] == x[k + 1]);
        }
        lemma_outside_plain(d, y);
        assert((x + y).drop_first() =~= d + y);
        assert((x + y)[0] == x[0]);
        assert(x[0] != '<');
        assert(outside_tags(x + y, false) =~= x + outside_tags(y, false));
    }
}

proof fn lemma_outside_tag(a: Seq<char>, y: Seq<char>)
    requires
        forall|k: int| 0 <= k < a.len() ==> #[trigger] a[k] != '>',
    ensures
        outside_tags(a + seq!['>'] + y, true) == outside_tags(y, false),
    decreases a.len(),
{
    let m = a + seq!['>'] + y;
    if a.len() == 0 {
        assert(m[0] == '>');
        assert(m.drop_first() =~= y);
    } else {
        let d = a.drop_first();
        assert forall|k: int| 0 <= k < d.len() implies #[trigger] d[k] != '>' by {
            assert(d[k] == a[k + 1]);
        }
        lemma_outside_tag(d, y);
        assert(m[0] == a[0]);
        assert(m.drop_first() =~= d + seq!['>'] + y);
    }
}

/// Markup made of a tag `<` + `a` + `>` and then `y`, outside its tags, is
/// `y` outside its tags.
proof fn lemma_outside_skip_tag(a: Seq<char>, y: Seq<char>)
    requires
        forall|k: int| 0 <= k < a.len() ==> #[trigger] a[k] != '>',
    ensures
        outside_tags(seq!['<'] + a + seq!['>'] + y, false) == outside_tags(y, false),
{
    let m = seq!['<'] + a + seq!['>'] + y;
    assert(m[0] == '<');
    assert(m.drop_first() =~= a + seq!['>'] + y);
    lemma_outside_tag(a, y);
}

proof fn lemma_escape_no_lt(t: Seq<char>)
    ensures
        forall|k: int| 0 <= k < escape(t).len() ==> #[trigger] escape(t)[k] != '<',
{
    law_escape_has_no_markup(t);
    assert forall|k: int| 0 <= k < escape(t).len() implies #[trigger] escape(t)[k] != '<' by {
        let c = escape(t)[k];
        assert(c != '<' && c != '>' && c != '"' && c != '\'');
    }
}

proof fn lemma_attrs_no_gt(style: TextStyle)
    ensures
        forall|k: int| 0 <= k < tspan_attrs_v(style).len() ==> #[trigger] tspan_attrs_v(style)[k] != '>',
{
    reveal_strlit("");
    reveal_strlit("font-weight=\"700\"");
    reveal_strlit("font-style=\"italic\"");
    reveal_strlit("fill=\"#ff9500\" font-family=\"LXGW WenKai Mono, monospace\"");
    reveal_strlit("fill=\"#0f766e\"");
}

/// The close tag after a `<tspan>`'s text, and what follows it.
proof fn lemma_outside_close(y: Seq<char>)
    ensures
        outside_tags("</tspan>"@ + y, false) == outside_tags(y, false),
{
    reveal_strlit("</tspan>");
    let a = seq!['/', 't', 's', 'p', 'a', 'n'];
    assert("</tspan>"@ + y =~= seq!['<'] + a + seq!['>'] + y);
    lemma_outside_skip_tag(a, y);
}

proof fn lemma_run_tspan_outside(r: RunV, y: Seq<char>)
    ensures
        outside_tags(run_tspan_v(r) + y, false) == escape(tspan_text_v(r)) + outside_tags(y, false),
{
    reveal_strlit("<tspan ");
    reveal_strlit(">");
    let e = escape(tspan_text_v(r));
    let a = seq!['t', 's', 'p', 'a', 'n', ' '] + tspan_attrs_v(r.style);
    lemma_attrs_no_gt(r.style);
    assert forall|k: int| 0 <= k < a.len() implies #[trigger] a[k] != '>' by {
        if k >= 6 {
            assert(a[k] == tspan_attrs_v(r.style)[k - 6]);
        }
    }
    let rest = "</tspan>"@ + y;
    assert(run_tspan_v(r) + y =~= seq!['<'] + a + seq!['>'] + (e + rest));
    lemma_outside_skip_tag(a, e + rest);
    lemma_escape_no_lt(tspan_text_v(r));
    lemma_outside_plain(e, rest);
    lemma_outside_close(y);
}

proof fn lemma_runs_tspans_outside(runs: Seq<RunV>, y: Seq<char>)
    ensures
        outside_tags(runs_tspans_v(runs) + y, false) == escape(runs_shown_v(runs)) + outside_tags(
            y,
            false,
        ),
    decreases runs.len(),
{
    if runs.len() == 0 {
        assert(runs_tspans_v(runs) + y =~= y);
        assert(escape(runs_shown_v(runs)) == Seq::<char>::empty());
        assert(escape(runs_shown_v(runs)) + outside_tags(y, false) =~= outside_tags(y, false));
    } else {
        let prev = runs.drop_last();
        let r = runs.last();
        if r.text.len() == 0 {
            lemma_runs_tspans_outside(prev, y);
            if r.style != TextStyle::Math {
                assert(tspan_text_v(r) =~= Seq::<char>::empty());
            }
            assert(runs_shown_v(runs) =~= runs_shown_v(prev));
        } else {
            assert(runs_tspans_v(runs) + y =~= runs_tspans_v(prev) + (run_tspan_v(r) + y));
            lemma_runs_tspans_outside(prev, run_tspan_v(r) + y);
            lemma_run_tspan_outside(r, y);
            lemma_escape_concat(runs_shown_v(prev), tspan_text_v(r));
            assert(escape(runs_shown_v(prev)) + (escape(tspan_text_v(r)) + outside_tags(y, false))
                =~= escape(runs_shown_v(runs)) + outside_tags(y, false));
        }
    }
}

/// The markup of runs shows all their text: reading the text outside its
/// tags and turning the entities back into characters gives every run's
/// shown text, in order, whitespace-only runs included.
pub proof fn law_runs_tspans_show_text(runs: Seq<RunV>)
    ensures
        unescape(outside_tags(runs_tspans_v(runs), false)) == runs_shown_v(runs),
{
    lemma_runs_tspans_outside(runs, Seq::empty());
    assert(runs_tspans_v(runs) + Seq::<char>::empty() =~= runs_tspans_v(runs));
    assert(escape(runs_shown_v(runs)) + Seq::<char>::empty() =~= escape(runs_shown_v(runs)));
    law_unescape_escape(runs_shown_v(runs));
}

proof fn lemma_code_tspan_outside(t: TokenV, y: Seq<char>)
    requires
        forall|k: int| 0 <= k < t.0.len() ==> #[trigger] t.0[k] != '>',
    ensures
        outside_tags(code_tspan_v(t) + y, false) == escape(t.1) + outside_tags(y, false),
{
    reveal_strlit("<tspan fill=\"");
    reveal_strlit("\">");
    let e = escape(t.1);
    let a = seq!['t', 's', 'p', 'a', 'n', ' ', 'f', 'i', 'l', 'l', '=', '"'] + t.0 + seq!['"'];
    assert forall|k: int| 0 <= k < a.len() implies #[trigger] a[k] != '>' by {
        if 12 <= k < 12 + t.0.len() {
            assert(a[k] == t.0[k - 12]);
        }
    }
    let rest = "</tspan>"@ + y;
    assert(code_tspan_v(t) + y =~= seq!['<'] + a + seq!['>'] + (e + rest));
    lemma_outside_skip_tag(a, e + rest);
    lemma_escape_no_lt(t.1);
    lemma_outside_plain(e, rest);
    lemma_outside_close(y);
}

/// Whether no colour of the tokens holds a `>` (as no `#rrggbb` does).
pub open spec fn colours_plain(tokens: Seq<TokenV>) -> bool {
    forall|i: int, k: int| 0 <= i < tokens.len() && 0 <= k < tokens[i].0.len() ==> #[trigger] tokens[i].0[k]
        != '>'
}

proof fn lemma_code_tspans_outside(tokens: Seq<TokenV>, y: Seq<char>)
    requires
        colours_plain(tokens),
    ensures
        outside_tags(code_tspans_v(tokens) + y, false) == escape(tokens_text(tokens)) + outside_tags(
            y,
            false,
        ),
    decreases tokens.len(),
{
    if tokens.len() == 0 {
        assert(code_tspans_v(tokens) + y =~= y);
        assert(escape(tokens_text(tokens)) + outside_tags(y, false) =~= outside_tags(y, false));
    } else {
        let prev = tokens.drop_last();
        let t = tokens.last();
        assert forall|i: int, k: int| 0 <= i < prev.len() && 0 <= k < prev[i].0.len() implies #[trigger] prev[i].0[k]
            != '>' by {
            assert(prev[i] == tokens[i]);
        }
        assert forall|k: int| 0 <= k < t.0.len() implies #[trigger] t.0[k] != '>' by {
            assert(tokens[tokens.len() - 1].0[k] != '>');
        }
        assert(code_tspans_v(tokens) + y =~= code_tspans_v(prev) + (code_tspan_v(t) + y));
        lemma_code_tspans_outside(prev, code_tspan_v(t) + y);
        lemma_code_tspan_outside(t, y);
        lemma_escape_concat(tokens_text(prev), t.1);
        assert(escape(tokens_text(prev)) + (escape(t.1) + outside_tags(y, false)) =~= escape(
            tokens_text(tokens),
        ) + outside_tags(y, false));
    }
}

/// The markup of a code line shows all its text: reading the text outside
/// its tags and turning the entities back gives the tokens' text, in order
/// (for colours without a `>`, as every `#rrggbb` is).
pub proof fn law_code_tspans_show_text(tokens: Seq<TokenV>)
    requires
        colours_plain(tokens),
    ensures
        unescape(outside_tags(code_tspans_v(tokens), false)) == tokens_text(tokens),
{
    lemma_code_tspans_outside(tokens, Seq::empty());
    assert(code_tspans_v(tokens) + Seq::<char>::empty() =~= code_tspans_v(tokens));
    assert(escape(tokens_text(tokens)) + Seq::<char>::empty() =~= escape(tokens_text(tokens)));
    law_unescape_escape(tokens_text(tokens));
}

// ───────────────────────────── braces of formula pieces ─────────────────────────────

/// The brace depth and escape state after one more character: a backslash
/// escapes the next character, `{` opens and `}` closes.
pub open spec fn brace_step(st: (int, bool), c: char) -> (int, bool) {
    if st.1 {
        (st.0, false)
    } else if c == '\\' {
        (st.0, true)
    } else if c == '{' {
        (st.0 + 1, false)
    } else if c == '}' {
        (st.0 - 1, false)
    } else {
        (st.0, false)
    }
}

/// The brace depth and escape state at the end of `t`.
pub open spec fn brace_state(t: Seq<char>) -> (int, bool)
    decreases t.len(),
{
    if t.len() == 0 {
        (0, false)
    } else {
        brace_step(brace_state(t.drop_last()), t.last())
    }
}

/// Whether the braces of `t` match: no `}` closes more than was opened, and
/// all that opens closes.
pub open spec fn braces_balanced(t: Seq<char>) -> bool {
    &&& brace_state(t).0 == 0
    &&& forall|k: int| 0 <= k <= t.len() ==> (#[trigger] brace_state(t.take(k))).0 >= 0
}

/// Whether the braces of every piece match.
pub open spec fn pieces_balanced(pieces: Seq<Seq<char>>) -> bool {
    forall|k: int| 0 <= k < pieces.len() ==> braces_balanced(#[trigger] pieces[k])
}

proof fn lemma_state_take_step(s: Seq<char>, i: int)
    requires
        0 <= i < s.len(),
    ensures
        brace_state(s.take(i + 1)) == brace_step(brace_state(s.take(i)), s[i]),
{
    assert(s.take(i + 1).drop_last() =~= s.take(i));
    assert(s.take(i + 1).last() == s[i]);
}

proof fn lemma_sub_state(s: Seq<char>, start: int, j: int)
    requires
        0 <= start <= j <= s.len(),
        brace_state(s.take(start)) == (0int, false),
    ensures
        brace_state(s.subrange(start, j)) == brace_state(s.take(j)),
    decreases j - start,
{
    if j > start {
        lemma_sub_state(s, start, j - 1);
        assert(s.subrange(start, j).drop_last() =~= s.subrange(start, j - 1));
        assert(s.subrange(start, j).last() == s[j - 1]);
        lemma_state_take_step(s, j - 1);
    } else {
        assert(s.subrange(start, j).len() == 0);
    }
}

proof fn lemma_piece_balanced(s: Seq<char>, start: int, end: int)
    requires
        braces_balanced(s),
        0 <= start <= end <= s.len(),
        brace_state(s.take(start)) == (0int, false),
        brace_state(s.take(end)).0 == 0,
    ensures
        braces_balanced(s.subrange(start, end)),
{
    let p = s.subrange(start, end);
    lemma_sub_state(s, start, end);
    assert forall|k: int| 0 <= k <= p.len() implies (#[trigger] brace_state(p.take(k))).0 >= 0 by {
        assert(p.take(k) =~= s.subrange(start, start + k));
        lemma_sub_state(s, start, start + k);
        assert(brace_state(s.take(start + k)).0 >= 0);
    }
}

proof fn lemma_ws_step(st: (int, bool), c: char)
    requires
        is_ws(c),
    ensures
        brace_step(st, c) == (st.0, false),
{
}

proof fn lemma_balanced_drop_first_ws(t: Seq<char>)
    requires
        t.len() > 0,
        is_ws(t[0]),
        braces_balanced(t),
    ensures
        braces_balanced(t.drop_first()),
{
    let d = t.drop_first();
    assert forall|k: int| 0 <= k <= d.len() implies brace_state(#[trigger] d.take(k)) == brace_state(
        t.take(k + 1),
    ) by {
        lemma_drop_first_state(t, k);
    }
    assert(d.take(d.len() as int) =~= d);
    assert(t.take(t.len() as int) =~= t);
    assert forall|k: int| 0 <= k <= d.len() implies (#[trigger] brace_state(d.take(k))).0 >= 0 by {
        assert(brace_state(t.take(k + 1)).0 >= 0);
    }
}

proof fn lemma_drop_first_state(t: Seq<char>, k: int)
    requires
        t.len() > 0,
        is_ws(t[0]),
        0 <= k < t.len(),
    ensures
        brace_state(t.drop_first().take(k)) == brace_state(t.take(k + 1)),
    decreases k,
{
    let d = t.drop_first();
    if k == 0 {
        assert(d.take(0).len() == 0);
        assert(t.take(0).len() == 0);
        assert(brace_state(t.take(0)) == (0int, false));
        assert(brace_state(d.take(0)) == (0int, false));
        assert(t.take(1).len() == 1);
        assert(t.take(1).drop_last() =~= t.take(0));
        assert(t.take(1).last() == t[0]);
        lemma_ws_step((0int, false), t[0]);
    } else {
        lemma_drop_first_state(t, k - 1);
        assert(d.take(k).len() == k);
        assert(d.take(k).drop_last() =~= d.take(k - 1));
        assert(d.take(k).last() == t[k]);
        lemma_state_take_step(t, k);
    }
}

proof fn lemma_balanced_drop_last_ws(t: Seq<char>)
    requires
        t.len() > 0,
        is_ws(t.last()),
        braces_balanced(t),
    ensures
        braces_balanced(t.drop_last()),
{
    let d = t.drop_last();
    lemma_ws_step(brace_state(d), t.last());
    assert forall|k: int| 0 <= k <= d.len() implies (#[trigger] brace_state(d.take(k))).0 >= 0 by {
        assert(d.take(k) =~= t.take(k));
    }
}

proof fn lemma_balanced_trim_start(t: Seq<char>)
    requires
        braces_balanced(t),
    ensures
        braces_balanced(trim_start(t)),
    decreases t.len(),
{
    if t.len() > 0 && is_ws(t[0]) {
        lemma_balanced_drop_first_ws(t);
        lemma_balanced_trim_start(t.drop_first());
    }
}

proof fn lemma_balanced_trim_end(t: Seq<char>)
    requires
        braces_balanced(t),
    ensures
        braces_balanced(trim_end(t)),
    decreases t.len(),
{
    if t.len() > 0 && is_ws(t.last()) {
        lemma_balanced_drop_last_ws(t);
        lemma_balanced_trim_end(t.drop_last());
    }
}

proof fn lemma_push_piece_balanced(pieces: Seq<Seq<char>>, piece: Seq<char>)
    requires
        pieces_balanced(pieces),
        braces_balanced(piece),
    ensures
        pieces_balanced(push_piece_v(pieces, piece)),
{
    lemma_balanced_trim_start(piece);
    lemma_balanced_trim_end(trim_start(piece));
    if trim(piece).len() > 0 {
        let p = pieces.push(trim(piece));
        assert forall|k: int| 0 <= k < p.len() implies braces_balanced(#[trigger] p[k]) by {
            if k < pieces.len() {
                assert(p[k] == pieces[k]);
            }
        }
    }
}

proof fn lemma_scan_balanced(
    s: Seq<char>,
    i: int,
    start: int,
    depth: int,
    escaped: bool,
    pieces: Seq<Seq<char>>,
)
    requires
        braces_balanced(s),
        0 <= start <= i <= s.len(),
        brace_state(s.take(start)) == (0int, false),
        brace_state(s.take(i)) == (depth, escaped),
        pieces_balanced(pieces),
    ensures
        pieces_balanced(latex_scan_v(s, i, start, depth, escaped, pieces)),
    decreases s.len() - i,
{
    if i >= s.len() {
        assert(s.take(s.len() as int) =~= s);
        lemma_piece_balanced(s, start, s.len() as int);
        lemma_push_piece_balanced(pieces, s.subrange(start, s.len() as int));
    } else {
        lemma_state_take_step(s, i);
        assert(brace_state(s.take(i + 1)).0 >= 0);
        let c = s[i];
        if escaped {
            lemma_scan_balanced(s, i + 1, start, depth, false, pieces);
        } else if c == '\\' {
            lemma_scan_balanced(s, i + 1, start, depth, true, pieces);
        } else if c == '{' {
            lemma_scan_balanced(s, i + 1, start, depth + 1, false, pieces);
        } else if c == '}' {
            lemma_scan_balanced(s, i + 1, start, depth - 1, false, pieces);
        } else if depth == 0 && (c == '=' || c == '+' || (c == '-' && i > start)) {
            lemma_piece_balanced(s, start, i + 1);
            lemma_push_piece_balanced(pieces, s.subrange(start, i + 1));
            lemma_scan_balanced(
                s,
                i + 1,
                i + 1,
                depth,
                false,
                push_piece_v(pieces, s.subrange(start, i + 1)),
            );
        } else {
            lemma_scan_balanced(s, i + 1, start, depth, false, pieces);
        }
    }
}

/// A formula breaks only where no brace is open: when its braces match, so
/// do the braces of every piece (`\frac{a+b}{2} = c` breaks after the `=`,
/// never inside `{a+b}`).
pub proof fn law_latex_pieces_balanced(s: Seq<char>)
    requires
        braces_balanced(s),
    ensures
        pieces_balanced(latex_pieces_v(s)),
{
    assert(s.take(0).len() == 0);
    lemma_scan_balanced(s, 0, 0, 0, false, Seq::empty());
}

// ───────────────────────────── nothing of a formula is lost ─────────────────────────────

/// `s` without its whitespace.
pub open spec fn without_ws(s: Seq<char>) -> Seq<char>
    decreases s.len(),
{
    if s.len() == 0 {
        Seq::empty()
    } else if is_ws(s.last()) {
        without_ws(s.drop_last())
    } else {
        without_ws(s.drop_last()).push(s.last())
    }
}

/// Pieces one after the other.
pub open spec fn concat_pieces(p: Seq<Seq<char>>) -> Seq<char>
    decreases p.len(),
{
    if p.len() == 0 {
        Seq::empty()
    } else {
        concat_pieces(p.drop_last()) + p.last()
    }
}

proof fn lemma_without_ws_concat(a: Seq<char>, b: Seq<char>)
    ensures
        without_ws(a + b) == without_ws(a) + without_ws(b),
    decreases b.len(),
{
    if b.len() == 0 {
        assert(a + b =~= a);
        assert(without_ws(a) + without_ws(b) =~= without_ws(a));
    } else {
        assert((a + b).drop_last() =~= a + b.drop_last());
        assert((a + b).last() == b.last());
        lemma_without_ws_concat(a, b.drop_last());
        if !is_ws(b.last()) {
            assert(without_ws(a + b) =~= without_ws(a) + without_ws(b));
        }
    }
}

proof fn lemma_without_ws_trim_start(x: Seq<char>)
    ensures
        without_ws(trim_start(x)) == without_ws(x),
    decreases x.len(),
{
    if x.len() > 0 && is_ws(x[0]) {
        lemma_without_ws_trim_start(x.drop_first());
        assert(x =~= seq![x[0]] + x.drop_first());
        lemma_without_ws_concat(seq![x[0]], x.drop_first());
        let one = seq![x[0]];
        assert(one.len() == 1);
        assert(one.last() == x[0]);
        assert(one.drop_last() =~= Seq::<char>::empty());
        assert(without_ws(one.drop_last()) =~= Seq::<char>::empty());
        assert(without_ws(one) =~= Seq::<char>::empty());
        assert(Seq::<char>::empty() + without_ws(x.drop_first()) =~= without_ws(x.drop_first()));
    }
}

proof fn lemma_without_ws_trim_end(x: Seq<char>)
    ensures
        without_ws(trim_end(x)) == without_ws(x),
    decreases x.len(),
{
    if x.len() > 0 && is_ws(x.last()) {
        lemma_without_ws_trim_end(x.drop_last());
    }
}

proof fn lemma_push_piece_keeps(pieces: Seq<Seq<char>>, piece: Seq<char>)
    ensures
        without_ws(concat_pieces(push_piece_v(pieces, piece))) == without_ws(concat_pieces(pieces))
            + without_ws(piece),
{
    lemma_without_ws_trim_start(piece);
    lemma_without_ws_trim_end(trim_start(piece));
    if trim(piece).len() > 0 {
        let p = pieces.push(trim(piece));
        assert(p.drop_last() =~= pieces);
        lemma_without_ws_concat(concat_pieces(pieces), trim(piece));
    } else {
        assert(trim(piece) =~= Seq::<char>::empty());
        assert(without_ws(piece) =~= Seq::<char>::empty());
        assert(without_ws(concat_pieces(pieces)) + without_ws(piece) =~= without_ws(
            concat_pieces(pieces),
        ));
    }
}

proof fn lemma_scan_keeps(
    s: Seq<char>,
    i: int,
    start: int,
    depth: int,
    escaped: bool,
    pieces: Seq<Seq<char>>,
)
    requires
        0 <= start <= i <= s.len(),
        without_ws(concat_pieces(pieces)) == without_ws(s.take(start)),
    ensures
        without_ws(concat_pieces(latex_scan_v(s, i, start, depth, escaped, pieces))) == without_ws(s),
    decreases s.len() - i,
{
    if i >= s.len() {
        let piece = s.subrange(start, s.len() as int);
        lemma_push_piece_keeps(pieces, piece);
        assert(s =~= s.take(start) + piece);
        lemma_without_ws_concat(s.take(start), piece);
    } else {
        let c = s[i];
        if escaped {
            lemma_scan_keeps(s, i + 1, start, depth, false, pieces);
        } else if c == '\\' {
            lemma_scan_keeps(s, i + 1, start, depth, true, pieces);
        } else if c == '{' {
            lemma_scan_keeps(s, i + 1, start, depth + 1, false, pieces);
        } else if c == '}' {
            lemma_scan_keeps(s, i + 1, start, if depth > 0 { depth - 1 } else { 0 }, false, pieces);
        } else if depth == 0 && (c == '=' || c == '+' || (c == '-' && i > start)) {
            let piece = s.subrange(start, i + 1);
            lemma_push_piece_keeps(pieces, piece);
            assert(s.take(i + 1) =~= s.take(start) + piece);
            lemma_without_ws_concat(s.take(start), piece);
            lemma_scan_keeps(s, i + 1, i + 1, depth, false, push_piece_v(pieces, piece));
        } else {
            lemma_scan_keeps(s, i + 1, start, depth, false, pieces);
        }
    }
}

/// Breaking a formula loses nothing but whitespace: its pieces, one after
/// the other, hold every character of the formula that is not whitespace,
/// in order.
pub proof fn law_latex_pieces_keep_formula(s: Seq<char>)
    ensures
        without_ws(concat_pieces(latex_pieces_v(s))) == without_ws(s),
{
    assert(s.take(0) =~= Seq::<char>::empty());
    lemma_scan_keeps(s, 0, 0, 0, false, Seq::empty());
}

// ───────────────────────────── formulas break at every top-level sign ─────────────────────────────

/// Whether `c` at position `j` of a piece would have ended the piece had it
/// stood outside every brace: `=`, `+`, or `-` anywhere but first.
pub open spec fn breaks_at(c: char, j: int) -> bool {
    c == '=' || c == '+' || (c == '-' && j > 0)
}

/// Whether no character of `p` but its last is a sign outside every brace
/// and escape: a piece runs to the first such sign and no further.
pub open spec fn no_inner_break(p: Seq<char>) -> bool {
    forall|j: int|
        0 <= j < p.len() - 1 && #[trigger] brace_state(p.take(j)) == (0int, false) ==> !breaks_at(
            p[j],
            j,
        )
}

proof fn lemma_inner_drop_first(x: Seq<char>)
    requires
        x.len() > 0,
        is_ws(x[0]),
        no_inner_break(x),
    ensures
        no_inner_break(x.drop_first()),
{
    let d = x.drop_first();
    assert forall|j: int|
        0 <= j < d.len() - 1 && #[trigger] brace_state(d.take(j)) == (0int, false) implies !breaks_at(
        d[j],
        j,
    ) by {
        lemma_drop_first_state(x, j);
        assert(d[j] == x[j + 1]);
        assert(brace_state(x.take(j + 1)) == (0int, false));
        assert(!breaks_at(x[j + 1], j + 1));
    }
}

proof fn lemma_inner_drop_last(x: Seq<char>)
    requires
        x.len() > 0,
        no_inner_break(x),
    ensures
        no_inner_break(x.drop_last()),
{
    let d = x.drop_last();
    assert forall|j: int|
        0 <= j < d.len() - 1 && #[trigger] brace_state(d.take(j)) == (0int, false) implies !breaks_at(
        d[j],
        j,
    ) by {
        assert(d.take(j) =~= x.take(j));
        assert(d[j] == x[j]);
        assert(brace_state(x.take(j)) == (0int, false));
    }
}

proof fn lemma_inner_trim(x: Seq<char>)
    requires
        no_inner_break(x),
    ensures
        no_inner_break(trim(x)),
{
    lemma_inner_trim_start(x);
    lemma_inner_trim_end(trim_start(x));
}

proof fn lemma_inner_trim_start(x: Seq<char>)
    requires
        no_inner_break(x),
    ensures
        no_inner_break(trim_start(x)),
    decreases x.len(),
{
    if x.len() > 0 && is_ws(x[0]) {
        lemma_inner_drop_first(x);
        lemma_inner_trim_start(x.drop_first());
    }
}

proof fn lemma_inner_trim_end(x: Seq<char>)
    requires
        no_inner_break(x),
    ensures
        no_inner_break(trim_end(x)),
    decreases x.len(),
{
    if x.len() > 0 && is_ws(x.last()) {
        lemma_inner_drop_last(x);
        lemma_inner_trim_end(x.drop_last());
    }
}

/// Whether every piece runs to its first top-level sign and no further.
pub open spec fn pieces_break_at_signs(pieces: Seq<Seq<char>>) -> bool {
    forall|k: int| 0 <= k < pieces.len() ==> no_inner_break(#[trigger] pieces[k])
}

proof fn lemma_push_piece_inner(pieces: Seq<Seq<char>>, piece: Seq<char>)
    requires
        pieces_break_at_signs(pieces),
        no_inner_break(piece),
    ensures
        pieces_break_at_signs(push_piece_v(pieces, piece)),
{
    lemma_inner_trim(piece);
    if trim(piece).len() > 0 {
        let p = pieces.push(trim(piece));
        assert forall|k: int| 0 <= k < p.len() implies no_inner_break(#[trigger] p[k]) by {
            if k < pieces.len() {
                assert(p[k] == pieces[k]);
            }
        }
    }
}

/// The piece `s[start..end)` has no inner break when no position before its
/// last that is outside every brace and escape holds a sign.
proof fn lemma_piece_inner(s: Seq<char>, start: int, end: int)
    requires
        0 <= start < end <= s.len(),
        brace_state(s.take(start)) == (0int, false),
        forall|j: int|
            start <= j < end - 1 && #[trigger] brace_state(s.take(j)) == (0int, false) ==> !breaks_at(
                s[j],
                j - start,
            ),
    ensures
        no_inner_break(s.subrange(start, end)),
{
    let p = s.subrange(start, end);
    assert forall|j: int|
        0 <= j < p.len() - 1 && #[trigger] brace_state(p.take(j)) == (0int, false) implies !breaks_at(
        p[j],
        j,
    ) by {
        assert(p.take(j) =~= s.subrange(start, start + j));
        lemma_sub_state(s, start, start + j);
        assert(brace_state(s.take(start + j)) == (0int, false));
        assert(p[j] == s[start + j]);
    }
}

proof fn lemma_scan_inner(
    s: Seq<char>,
    i: int,
    start: int,
    depth: int,
    escaped: bool,
    pieces: Seq<Seq<char>>,
)
    requires
        braces_balanced(s),
        0 <= start <= i <= s.len(),
        brace_state(s.take(start)) == (0int, false),
        brace_state(s.take(i)) == (depth, escaped),
        forall|j: int|
            start <= j < i && #[trigger] brace_state(s.take(j)) == (0int, false) ==> !breaks_at(
                s[j],
                j - start,
            ),
        pieces_break_at_signs(pieces),
    ensures
        pieces_break_at_signs(latex_scan_v(s, i, start, depth, escaped, pieces)),
    decreases s.len() - i,
{
    if i >= s.len() {
        if start < s.len() {
            lemma_piece_inner(s, start, s.len() as int);
        } else {
            assert(s.subrange(start, s.len() as int).len() == 0);
        }
        lemma_push_piece_inner(pieces, s.subrange(start, s.len() as int));
    } else {
        lemma_state_take_step(s, i);
        assert(brace_state(s.take(i + 1)).0 >= 0);
        let c = s[i];
        if escaped {
            lemma_scan_inner(s, i + 1, start, depth, false, pieces);
        } else if c == '\\' {
            lemma_scan_inner(s, i + 1, start, depth, true, pieces);
        } else if c == '{' {
            lemma_scan_inner(s, i + 1, start, depth + 1, false, pieces);
        } else if c == '}' {
            lemma_scan_inner(s, i + 1, start, depth - 1, false, pieces);
        } else if depth == 0 && (c == '=' || c == '+' || (c == '-' && i > start)) {
            lemma_piece_inner(s, start, i + 1);
            lemma_push_piece_inner(pieces, s.subrange(start, i + 1));
            lemma_scan_inner(
                s,
                i + 1,
                i + 1,
                depth,
                false,
                push_piece_v(pieces, s.subrange(start, i + 1)),
            );
        } else {
            lemma_scan_inner(s, i + 1, start, depth, false, pieces);
        }
    }
}

/// A formula whose braces match breaks at every sign outside its braces:
/// no piece holds an `=` or `+` outside every brace before its last
/// character, nor a `-` there but first.
pub proof fn law_latex_pieces_break_at_signs(s: Seq<char>)
    requires
        braces_balanced(s),
    ensures
        pieces_break_at_signs(latex_pieces_v(s)),
{
    assert(s.take(0).len() == 0);
    lemma_scan_inner(s, 0, 0, 0, false, Seq::empty());
}

// ───────────────────────────── list numbers read back ─────────────────────────────

/// The number that decimal digits spell.
pub open spec fn decimal_value(s: Seq<char>) -> int
    decreases s.len(),
{
    if s.len() == 0 {
        0
    } else {
        decimal_value(s.drop_last()) * 10 + hex_value(s.last())
    }
}

/// A list marker's digits spell its number, with no leading zero.
pub proof fn law_decimal_reads_back(n: nat)
    ensures
        decimal_value(decimal_v(n)) == n,
        decimal_v(n).len() > 0,
        decimal_v(n).len() > 1 ==> decimal_v(n)[0] != '0',
    decreases n,
{
    if n < 10 {
        lemma_hex_digit_value(n as int);
        let d = decimal_v(n);
        assert(d == seq![hex_digit_v(n as int)]);
        assert(d.len() == 1);
        assert(d.last() == hex_digit_v(n as int));
        assert(d.drop_last() =~= Seq::<char>::empty());
        assert(decimal_value(d.drop_last()) == 0);
    } else {
        law_decimal_reads_back(n / 10);
        let d = decimal_v(n);
        lemma_hex_digit_value((n % 10) as int);
        assert(d == decimal_v(n / 10) + seq![hex_digit_v((n % 10) as int)]);
        assert(d.drop_last() =~= decimal_v(n / 10));
        assert(d.last() == hex_digit_v((n % 10) as int));
        assert(n == (n / 10) * 10 + n % 10);
        assert(decimal_value(d) == decimal_value(decimal_v(n / 10)) * 10 + (n % 10));
        assert(d[0] == decimal_v(n / 10)[0]);
        if decimal_v(n / 10).len() == 1 {
            assert(n / 10 < 10) by {
                if n / 10 >= 10 {
                    assert(decimal_v(n / 10).len() >= 2) by {
                        assert(decimal_v(n / 10) == decimal_v(n / 10 / 10) + seq![hex_digit_v(((n / 10) % 10) as int)]);
                    }
                }
            }
            let q = (n / 10) as int;
            assert(1 <= q < 10);
            let ds = seq!['0', '1', '2', '3', '4', '5', '6', '7', '8', '9', 'a', 'b', 'c', 'd', 'e', 'f'];
            assert(decimal_v(n / 10)[0] == ds[q]);
            assert(ds[q] != '0');
        }
    }
}

/// A list marker is its number's digits, a full stop and a space.
pub proof fn law_list_marker_reads_back(n: u64)
    ensures
        ({
            let m = decimal_v(n as nat) + seq!['.', ' '];
            &&& m.len() >= 3
            &&& m[m.len() - 2] == '.'
            &&& m[m.len() - 1] == ' '
            &&& decimal_value(m.take(m.len() - 2)) == n
        }),
{
    law_decimal_reads_back(n as nat);
    let m = decimal_v(n as nat) + seq!['.', ' '];
    assert(m.take(m.len() - 2) =~= decimal_v(n as nat));
}

// ───────────────────────────── shape of table cells ─────────────────────────────

proof fn lemma_col_count(
    alignments: Seq<TableAlignment>,
    header: Seq<Seq<InlineV>>,
    rows: Seq<Seq<Seq<InlineV>>>,
)
    ensures
        col_count_v(alignments, header, rows) >= alignments.len(),
        col_count_v(alignments, header, rows) >= header.len(),
        forall|r: int| 0 <= r < rows.len() ==> col_count_v(alignments, header, rows) >= #[trigger] rows[r].len(),
        col_count_v(alignments, header, rows) == alignments.len() || col_count_v(alignments, header, rows)
            == header.len() || exists|r: int| 0 <= r < rows.len() && col_count_v(alignments, header, rows)
            == #[trigger] rows[r].len(),
    decreases rows.len(),
{
    if rows.len() > 0 {
        let prev = rows.drop_last();
        lemma_col_count(alignments, header, prev);
        assert forall|r: int| 0 <= r < rows.len() implies col_count_v(alignments, header, rows) >= #[trigger] rows[r].len() by {
            if r < prev.len() {
                assert(rows[r] == prev[r]);
            }
        }
        let n = col_count_v(alignments, header, prev);
        if rows.last().len() > n {
            assert(rows[rows.len() - 1] == rows.last());
        } else if n != alignments.len() && n != header.len() {
            let r = choose|r: int| 0 <= r < prev.len() && n == #[trigger] prev[r].len();
            assert(rows[r] == prev[r]);
        }
    }
}

/// The cells of a table: as many columns as its widest part (alignments,
/// header or any row), every row padded to that many cells, the header's
/// row first when there is one, with no run in the normal style; no cells
/// exactly when nothing has a column.
pub proof fn law_table_cells_shape(
    alignments: Seq<TableAlignment>,
    header: Seq<Seq<InlineV>>,
    rows: Seq<Seq<Seq<InlineV>>>,
)
    ensures
        match table_cells_v(alignments, header, rows) {
            Some((n, cells)) => {
                &&& n >= 1
                &&& n >= alignments.len()
                &&& n >= header.len()
                &&& forall|r: int| 0 <= r < rows.len() ==> n >= #[trigger] rows[r].len()
                &&& cells.len() == rows.len() + if header.len() > 0 { 1int } else { 0int }
                &&& forall|i: int| 0 <= i < cells.len() ==> (#[trigger] cells[i]).len() == n
                &&& forall|i: int, k: int|
                    0 <= i < cells.len() && 0 <= k < n ==> (#[trigger] cells[i][k]).align == if k
                        < alignments.len() {
                        alignments[k]
                    } else {
                        TableAlignment::Unaligned
                    }
                &&& header.len() > 0 ==> forall|k: int, j: int|
                    0 <= k < n && 0 <= j < cells[0][k].runs.len() ==> (#[trigger] cells[0][k].runs[j]).style
                        != TextStyle::Normal
            },
            None => alignments.len() == 0 && header.len() == 0 && forall|r: int|
                0 <= r < rows.len() ==> (#[trigger] rows[r]).len() == 0,
        },
{
    lemma_col_count(alignments, header, rows);
    let n = col_count_v(alignments, header, rows);
    if n != 0 {
        let body = Seq::new(rows.len(), |r: int| cell_row_v(alignments, rows[r], n, false));
        let cells = if header.len() > 0 {
            seq![cell_row_v(alignments, header, n, true)] + body
        } else {
            body
        };
        assert forall|i: int| 0 <= i < cells.len() implies (#[trigger] cells[i]).len() == n by {
            if header.len() > 0 && i > 0 {
                assert(cells[i] == body[i - 1]);
            }
        }
        assert forall|i: int, k: int| 0 <= i < cells.len() && 0 <= k < n implies (#[trigger] cells[i][k]).align
            == if k < alignments.len() {
            alignments[k]
        } else {
            TableAlignment::Unaligned
        } by {
            if header.len() > 0 && i > 0 {
                assert(cells[i] == body[i - 1]);
            }
        }
        if header.len() > 0 {
            let h = cell_row_v(alignments, header, n, true);
            assert(cells[0] == h);
            assert forall|k: int, j: int| 0 <= k < n && 0 <= j < cells[0][k].runs.len() implies (#[trigger] cells[0][k].runs[j]).style
                != TextStyle::Normal by {
                assert(cells[0][k] == h[k]);
            }
        }
    } else {
        assert forall|r: int| 0 <= r < rows.len() implies (#[trigger] rows[r]).len() == 0 by {}
    }
}

} // verus!
