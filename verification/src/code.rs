//! Code blocks: splitting into lines, highlighting, and the tokens of a
//! wrapped line.
use vstd::prelude::*;

use crate::strings::{push_char, string_from_chars, strings_view, to_chars};
use crate::syntax::{
    highlight_by_name, highlight_by_token, highlighted_view, highlighting_view,
    highlights_lines, pieces_view, syntect_by_name_v, syntect_by_token_v, DefaultSets,
    HighlightedLine, HighlightedV, PieceV,
};
use crate::text::{first_nl, lemma_first_nl, lemma_first_nl_at};
use vstd::string::StringExecFns;

verus! {

/// A token of highlighted code: its colour (`#rrggbb`) and its text.
pub type CodeToken = (String, String);

/// The model of a [`CodeToken`].
pub type TokenV = (Seq<char>, Seq<char>);

/// The models of a sequence of tokens.
pub open spec fn tokens_view(s: Seq<CodeToken>) -> Seq<TokenV> {
    s.map_values(|t: CodeToken| (t.0@, t.1@))
}

/// The texts of tokens, one after the other.
pub open spec fn tokens_text(s: Seq<TokenV>) -> Seq<char>
    decreases s.len(),
{
    if s.len() == 0 {
        Seq::empty()
    } else {
        tokens_text(s.drop_last()) + s.last().1
    }
}

// ───────────────────────────── character classes ─────────────────────────────

/// Printable ASCII: U+0020 to U+007E.
pub open spec fn is_ascii_printable_v(ch: char) -> bool {
    0x20 <= (ch as u32) <= 0x7e
}

/// CJK symbols and punctuation (U+3000 to U+303F) and half- and full-width
/// forms (U+FF00 to U+FFEF).
pub open spec fn is_cjk_punctuation_v(ch: char) -> bool {
    (0x3000 <= (ch as u32) <= 0x303f) || (0xff00 <= (ch as u32) <= 0xffef)
}

/// CJK unified ideographs (U+4E00 to U+9FFF) and their extension A
/// (U+3400 to U+4DBF).
pub open spec fn is_cjk_v(ch: char) -> bool {
    (0x4e00 <= (ch as u32) <= 0x9fff) || (0x3400 <= (ch as u32) <= 0x4dbf)
}

/// Whether `ch` is printable ASCII.
pub fn is_ascii_printable(ch: char) -> (r: bool)
    ensures
        r == is_ascii_printable_v(ch),
{
    let c = ch as u32;
    0x20 <= c && c <= 0x7e
}

/// Whether `ch` is CJK punctuation or a half- or full-width form.
pub fn is_cjk_punctuation(ch: char) -> (r: bool)
    ensures
        r == is_cjk_punctuation_v(ch),
{
    let c = ch as u32;
    (0x3000 <= c && c <= 0x303f) || (0xff00 <= c && c <= 0xffef)
}

/// Whether `ch` is a CJK ideograph.
pub fn is_cjk(ch: char) -> (r: bool)
    ensures
        r == is_cjk_v(ch),
{
    let c = ch as u32;
    (0x4e00 <= c && c <= 0x9fff) || (0x3400 <= c && c <= 0x4dbf)
}

// ───────────────────────────── tokens of a line ─────────────────────────────

/// `tokens` after `push_code_token(tokens, color, text)`: empty text adds
/// nothing; text of the same colour as the last token joins it; otherwise it
/// is a token of its own.
pub open spec fn push_token_v(tokens: Seq<TokenV>, color: Seq<char>, text: Seq<char>) -> Seq<
    TokenV,
> {
    if text.len() == 0 {
        tokens
    } else if tokens.len() > 0 && tokens.last().0 == color {
        tokens.update(tokens.len() - 1, (color, tokens.last().1 + text))
    } else {
        tokens.push((color, text))
    }
}

/// Appends coloured text to a line's tokens, joining it to the last token
/// when the colours agree.
pub fn push_code_token(tokens: &mut Vec<CodeToken>, color: String, text: String)
    ensures
        tokens_view(final(tokens)@) == push_token_v(tokens_view(old(tokens)@), color@, text@),
{
    if text.as_str().is_empty() {
        return;
    }
    let n = tokens.len();
    if n > 0 && tokens[n - 1].0 == color {
        let (last_color, mut last_text) = tokens.pop().unwrap();
        last_text.append(text.as_str());
        tokens.push((last_color, last_text));
        assert(tokens_view(tokens@) =~= push_token_v(tokens_view(old(tokens)@), color@, text@));
        return;
    }
    tokens.push((color, text));
    assert(tokens_view(tokens@) =~= push_token_v(tokens_view(old(tokens)@), color@, text@));
}

/// Removes the last character of a `String` (`String::pop`).
/// Trusted: it returns the last character, now gone, or `None` when the
/// string was empty and stays so.
#[verifier::external_body]
pub fn pop_char(s: &mut String) -> (r: Option<char>)
    ensures
        old(s)@.len() == 0 ==> r is None && final(s)@ == old(s)@,
        old(s)@.len() > 0 ==> r == Some(old(s)@.last()) && final(s)@ == old(s)@.drop_last(),
{
    s.pop()
}

/// A line's tokens and plain text after `trim_code_line_end`: while the text
/// ends in a space, the space goes, and so does the last character of the
/// last token (and the token, once it is empty); the trimming stops after
/// the first space when there is no token left.
pub open spec fn trim_line_end_v(tokens: Seq<TokenV>, plain: Seq<char>) -> (Seq<TokenV>, Seq<char>)
    decreases plain.len(),
{
    if plain.len() > 0 && plain.last() == ' ' {
        let p1 = plain.drop_last();
        if tokens.len() == 0 {
            (tokens, p1)
        } else {
            let t = tokens.last();
            let text1 = if t.1.len() > 0 {
                t.1.drop_last()
            } else {
                t.1
            };
            let toks1 = if text1.len() == 0 {
                tokens.drop_last()
            } else {
                tokens.update(tokens.len() - 1, (t.0, text1))
            };
            trim_line_end_v(toks1, p1)
        }
    } else {
        (tokens, plain)
    }
}

/// Drops the trailing spaces of a wrapped code line, from its plain text and
/// from its tokens.
pub fn trim_code_line_end(tokens: &mut Vec<CodeToken>, plain: &mut String)
    ensures
        (tokens_view(final(tokens)@), final(plain)@) == trim_line_end_v(
            tokens_view(old(tokens)@),
            old(plain)@,
        ),
{
    loop
        invariant
            trim_line_end_v(tokens_view(tokens@), plain@) == trim_line_end_v(
                tokens_view(old(tokens)@),
                old(plain)@,
            ),
        decreases plain@.len(),
    {
        let ghost p0 = plain@;
        let ghost t0 = tokens_view(tokens@);
        match pop_char(plain) {
            Some(c) => {
                if c != ' ' {
                    push_char(plain, c);
                    assert(plain@ =~= p0);
                    return;
                }
                if tokens.len() == 0 {
                    return;
                }
                let (color, mut text) = tokens.pop().unwrap();
                let _ = pop_char(&mut text);
                if !text.as_str().is_empty() {
                    tokens.push((color, text));
                }
                proof {
                    let t = t0.last();
                    let text1 = if t.1.len() > 0 {
                        t.1.drop_last()
                    } else {
                        t.1
                    };
                    let toks1 = if text1.len() == 0 {
                        t0.drop_last()
                    } else {
                        t0.update(t0.len() - 1, (t.0, text1))
                    };
                    assert(tokens_view(tokens@) =~= toks1);
                }
            },
            None => {
                return;
            },
        }
    }
}

// ───────────────────────────── lines ─────────────────────────────

/// A line without the carriage return before its line feed.
pub open spec fn strip_cr(s: Seq<char>) -> Seq<char> {
    if s.len() > 0 && s.last() == '\r' {
        s.drop_last()
    } else {
        s
    }
}

/// The lines of a text (`str::lines`): split at line feeds, each line
/// without the carriage return that ended it, and no empty last line after
/// a final line feed.
pub open spec fn lines_v(s: Seq<char>) -> Seq<Seq<char>>
    decreases s.len(),
{
    if s.len() == 0 {
        Seq::empty()
    } else {
        let i = first_nl(s);
        if i >= s.len() {
            seq![s]
        } else {
            proof {
                lemma_first_nl(s);
            }
            seq![strip_cr(s.take(i))] + lines_v(s.skip(i + 1))
        }
    }
}

/// The lines of `text`, as `str::lines` gives them.
pub fn split_code_lines(text: &str) -> (r: Vec<String>)
    ensures
        strings_view(r@) == lines_v(text@),
{
    let cs = to_chars(text);
    let n = cs.len();
    let mut out: Vec<String> = Vec::new();
    let mut start: usize = 0;
    let mut j: usize = 0;
    assert(cs@.skip(0) =~= cs@);
    while j < n
        invariant
            start <= j <= n == cs@.len(),
            cs@ == text@,
            forall|k: int| start <= k < j ==> #[trigger] cs@[k] != '\n',
            strings_view(out@) + lines_v(cs@.skip(start as int)) == lines_v(text@),
        decreases n - j,
    {
        if cs[j] == '\n' {
            let ghost rest = cs@.skip(start as int);
            proof {
                assert forall|k: int| 0 <= k < j - start implies #[trigger] rest[k] != '\n' by {
                    assert(rest[k] == cs@[start + k]);
                }
                lemma_first_nl_at(rest, j - start);
                assert(rest.take(j - start) =~= cs@.subrange(start as int, j as int));
                assert(rest.skip(j - start + 1) =~= cs@.skip(j + 1));
            }
            let end = if j > start && cs[j - 1] == '\r' {
                j - 1
            } else {
                j
            };
            let line = string_from_chars(&cs, start, end);
            proof {
                assert(line@ =~= strip_cr(cs@.subrange(start as int, j as int)));
                assert(strings_view(out@.push(line)) =~= strings_view(out@).push(line@));
                assert(seq![line@] + lines_v(cs@.skip(j + 1)) == lines_v(rest));
                assert(strings_view(out@).push(line@) + lines_v(cs@.skip(j + 1)) =~= strings_view(
                    out@,
                ) + (seq![line@] + lines_v(cs@.skip(j + 1))));
            }
            out.push(line);
            start = j + 1;
        }
        j = j + 1;
    }
    let ghost rest = cs@.skip(start as int);
    if start < n {
        proof {
            assert forall|k: int| 0 <= k < n - start implies #[trigger] rest[k] != '\n' by {
                assert(rest[k] == cs@[start + k]);
            }
            lemma_first_nl_at(rest, n - start);
            assert(cs@.subrange(start as int, n as int) =~= rest);
        }
        let line = string_from_chars(&cs, start, n);
        proof {
            assert(strings_view(out@.push(line)) =~= strings_view(out@).push(line@));
            assert(strings_view(out@).push(line@) =~= strings_view(out@) + seq![line@]);
        }
        out.push(line);
    } else {
        assert(rest.len() == 0);
        assert(strings_view(out@) + lines_v(rest) =~= strings_view(out@));
    }
    out
}

// ───────────────────────────── colours ─────────────────────────────

/// The lower-case hexadecimal digit of `d` (below 16).
pub open spec fn hex_digit_v(d: int) -> char {
    seq!['0', '1', '2', '3', '4', '5', '6', '7', '8', '9', 'a', 'b', 'c', 'd', 'e', 'f'][d]
}

/// `#rrggbb` in lower-case hexadecimal, as `format!("#{:02x}{:02x}{:02x}")`
/// writes it.
pub open spec fn hex_color_v(r: u8, g: u8, b: u8) -> Seq<char> {
    seq![
        '#',
        hex_digit_v((r / 16) as int),
        hex_digit_v((r % 16) as int),
        hex_digit_v((g / 16) as int),
        hex_digit_v((g % 16) as int),
        hex_digit_v((b / 16) as int),
        hex_digit_v((b % 16) as int),
    ]
}

pub(crate) fn hex_digit(d: u8) -> (c: char)
    requires
        d < 16,
    ensures
        c == hex_digit_v(d as int),
{
    let digits = [
        '0', '1', '2', '3', '4', '5', '6', '7', '8', '9', 'a', 'b', 'c', 'd', 'e', 'f',
    ];
    let c = digits[d as usize];
    assert(c == hex_digit_v(d as int));
    c
}

/// The colour `(r, g, b)` as `#rrggbb`.
pub fn hex_color(r: u8, g: u8, b: u8) -> (s: String)
    ensures
        s@ == hex_color_v(r, g, b),
{
    let mut s = String::new();
    push_char(&mut s, '#');
    push_char(&mut s, hex_digit(r / 16));
    push_char(&mut s, hex_digit(r % 16));
    push_char(&mut s, hex_digit(g / 16));
    push_char(&mut s, hex_digit(g % 16));
    push_char(&mut s, hex_digit(b / 16));
    push_char(&mut s, hex_digit(b % 16));
    assert(s@ =~= hex_color_v(r, g, b));
    s
}

// ───────────────────────────── highlighting ─────────────────────────────

/// The theme that code blocks are highlighted with.
pub open spec fn default_theme_name() -> Seq<char> {
    "base16-ocean.dark"@
}

/// The syntax used when the language names none.
pub open spec fn plain_text_name() -> Seq<char> {
    "Plain Text"@
}

/// The tokens of one highlighted line: each piece with its colour written
/// `#rrggbb`; when highlighting failed, the whole line in black (the
/// foreground of `syntect`'s default style).
pub open spec fn line_tokens_v(line: Seq<char>, highlighted: HighlightedV) -> Seq<TokenV> {
    match highlighted {
        Ok(pieces) => pieces.map_values(|p: PieceV| (hex_color_v(p.0, p.1, p.2), p.3)),
        Err(_) => seq![(hex_color_v(0, 0, 0), line)],
    }
}

/// Turns the highlighting of one line into tokens.
pub fn line_tokens(line: &str, highlighted: &HighlightedLine) -> (r: Vec<CodeToken>)
    ensures
        tokens_view(r@) == line_tokens_v(line@, highlighted_view(*highlighted)),
{
    let mut out: Vec<CodeToken> = Vec::new();
    match highlighted {
        Ok(pieces) => {
            let ghost pv = pieces_view(pieces@);
            let mut i: usize = 0;
            while i < pieces.len()
                invariant
                    i <= pieces@.len(),
                    pv == pieces_view(pieces@),
                    tokens_view(out@) =~= line_tokens_v(line@, Ok(pv.take(i as int))),
                decreases pieces.len() - i,
            {
                let piece = &pieces[i];
                let color = hex_color(piece.0, piece.1, piece.2);
                let text = piece.3.clone();
                proof {
                    assert(pv[i as int] == (piece.0, piece.1, piece.2, piece.3@));
                    assert(pv.take(i + 1) =~= pv.take(i as int).push(pv[i as int]));
                }
                let ghost before = tokens_view(out@);
                out.push((color, text));
                proof {
                    let f = |p: PieceV| (hex_color_v(p.0, p.1, p.2), p.3);
                    assert(tokens_view(out@) =~= before.push((color@, text@)));
                    assert(pv.take(i + 1).map_values(f) =~= pv.take(i as int).map_values(f).push(
                        f(pv[i as int]),
                    ));
                }
                assert(tokens_view(out@) =~= line_tokens_v(line@, Ok(pv.take(i + 1))));
                i = i + 1;
            }
            assert(pv.take(pv.len() as int) =~= pv);
        },
        Err(_) => {
            out.push((hex_color(0, 0, 0), line.to_owned()));
            assert(tokens_view(out@) =~= line_tokens_v(line@, Err(())));
        },
    }
    out
}

/// The highlighting of `lines` for `language` with a theme: the syntax that
/// the language names (by extension, then by name), else plain text.
pub open spec fn highlighting_v(language: Seq<char>, theme: Seq<char>, lines: Seq<Seq<char>>) -> Option<
    Seq<HighlightedV>,
> {
    match syntect_by_token_v(language, theme, lines) {
        Some(h) => Some(h),
        None => syntect_by_name_v(plain_text_name(), theme, lines),
    }
}

/// The models of the token lists of a code block.
pub open spec fn code_tokens_view(r: Seq<Vec<CodeToken>>) -> Seq<Seq<TokenV>> {
    r.map_values(|t: Vec<CodeToken>| tokens_view(t@))
}

/// Whether `tokens` hold, line by line, what [`line_tokens`] makes of the
/// highlighting `h` of `lines` (of a failure on every line when there is
/// none).
pub open spec fn tokens_of_highlighting(
    tokens: Seq<Seq<TokenV>>,
    lines: Seq<Seq<char>>,
    h: Option<Seq<HighlightedV>>,
) -> bool {
    &&& tokens.len() == lines.len()
    &&& forall|i: int|
        0 <= i < lines.len() ==> #[trigger] tokens[i] == match h {
            Some(hs) => line_tokens_v(lines[i], hs[i]),
            None => line_tokens_v(lines[i], Err(())),
        }
}

fn highlight_lines(sets: &DefaultSets, language: &str, theme: &str, lines: &Vec<String>) -> (r: Option<
    Vec<HighlightedLine>,
>)
    ensures
        highlighting_view(r) == highlighting_v(language@, theme@, strings_view(lines@)),
        highlights_lines(strings_view(lines@), highlighting_view(r)),
        theme@ == default_theme_name() ==> r is Some,
{
    match highlight_by_token(sets, language, theme, lines) {
        Some(h) => Some(h),
        None => {
            proof { reveal_strlit("Plain Text"); }
            highlight_by_name(sets, "Plain Text", theme, lines)
        },
    }
}

fn tokens_of(lines: &Vec<String>, h: &Option<Vec<HighlightedLine>>) -> (r: Vec<Vec<CodeToken>>)
    requires
        highlights_lines(strings_view(lines@), highlighting_view(*h)),
    ensures
        tokens_of_highlighting(code_tokens_view(r@), strings_view(lines@), highlighting_view(*h)),
{
    let ghost lv = strings_view(lines@);
    let ghost hv = highlighting_view(*h);
    let mut out: Vec<Vec<CodeToken>> = Vec::new();
    let mut i: usize = 0;
    while i < lines.len()
        invariant
            i <= lines@.len(),
            lv == strings_view(lines@),
            hv == highlighting_view(*h),
            highlights_lines(lv, hv),
            out@.len() == i,
            forall|k: int|
                0 <= k < i ==> #[trigger] code_tokens_view(out@)[k] == match hv {
                    Some(hs) => line_tokens_v(lv[k], hs[k]),
                    None => line_tokens_v(lv[k], Err(())),
                },
        decreases lines.len() - i,
    {
        let ghost before = out@;
        let toks = match h {
            Some(hs) => {
                assert(hv->0[i as int] == highlighted_view(hs@[i as int]));
                line_tokens(lines[i].as_str(), &hs[i])
            },
            None => line_tokens(lines[i].as_str(), &Err(())),
        };
        out.push(toks);
        proof {
            assert(lines@[i as int]@ == lv[i as int]);
            assert forall|k: int| 0 <= k < i + 1 implies #[trigger] code_tokens_view(out@)[k] == match hv {
                Some(hs) => line_tokens_v(lv[k], hs[k]),
                None => line_tokens_v(lv[k], Err(())),
            } by {
                assert(code_tokens_view(out@)[k] == tokens_view(out@[k]@));
                if k < i {
                    assert(out@[k] == before[k]);
                    assert(code_tokens_view(before)[k] == tokens_view(before[k]@));
                }
            }
        }
        i = i + 1;
    }
    out
}

/// Highlights code for the language named by `language` (a file extension
/// or a syntax name; plain text when none matches) with the
/// `base16-ocean.dark` theme, one list of tokens per line of `code`.
pub fn highlight_code(sets: &DefaultSets, code: &str, language: &str) -> (r: Vec<Vec<CodeToken>>)
    ensures
        highlighting_v(language@, default_theme_name(), lines_v(code@)) is Some,
        tokens_of_highlighting(
            code_tokens_view(r@),
            lines_v(code@),
            highlighting_v(language@, default_theme_name(), lines_v(code@)),
        ),
{
    let lines = split_code_lines(code);
    proof {
        reveal_strlit("base16-ocean.dark");
        reveal_strlit("Plain Text");
    }
    let h = highlight_lines(sets, language, "base16-ocean.dark", &lines);
    tokens_of(&lines, &h)
}

// ───────────────────────────── continuation indent ─────────────────────────────

/// `s` with every tab replaced by four spaces.
pub open spec fn expand_tabs(s: Seq<char>) -> Seq<char>
    decreases s.len(),
{
    if s.len() == 0 {
        Seq::empty()
    } else {
        expand_tabs(s.drop_last()) + if s.last() == '\t' {
            seq![' ', ' ', ' ', ' ']
        } else {
            seq![s.last()]
        }
    }
}

/// The whitespace that `s` starts with.
pub open spec fn leading_ws(s: Seq<char>) -> Seq<char>
    decreases s.len(),
{
    if s.len() > 0 && crate::strings::is_ws(s[0]) {
        seq![s[0]] + leading_ws(s.drop_first())
    } else {
        Seq::empty()
    }
}

proof fn lemma_leading_ws_append(a: Seq<char>, b: Seq<char>)
    requires
        leading_ws(a) == a,
    ensures
        leading_ws(a + b) == a + leading_ws(b),
    decreases a.len(),
{
    if a.len() == 0 {
        assert(a + b =~= b);
        assert(a + leading_ws(b) =~= leading_ws(b));
    } else {
        assert(crate::strings::is_ws(a[0])) by {
            if !crate::strings::is_ws(a[0]) {
                assert(leading_ws(a).len() == 0);
            }
        }
        assert(leading_ws(a.drop_first()) =~= a.drop_first()) by {
            assert(leading_ws(a) == seq![a[0]] + leading_ws(a.drop_first()));
            assert((seq![a[0]] + leading_ws(a.drop_first())).drop_first() =~= leading_ws(
                a.drop_first(),
            ));
        }
        lemma_leading_ws_append(a.drop_first(), b);
        assert((a + b).drop_first() =~= a.drop_first() + b);
        assert((a + b)[0] == a[0]);
        assert(leading_ws(a + b) =~= a + leading_ws(b));
    }
}

/// The indent that a wrapped code line's continuation lines get: the
/// leading whitespace of the line's text, with tabs as four spaces.
pub fn code_line_indent(tokens: &[CodeToken]) -> (r: String)
    ensures
        r@ == leading_ws(expand_tabs(tokens_text(tokens_view(tokens@)))),
{
    let ghost all = tokens_text(tokens_view(tokens@));
    let mut expanded: Vec<char> = Vec::new();
    let mut i: usize = 0;
    assert(tokens_view(tokens@).take(0) =~= Seq::<TokenV>::empty());
    while i < tokens.len()
        invariant
            i <= tokens@.len(),
            all == tokens_text(tokens_view(tokens@)),
            expanded@ == expand_tabs(tokens_text(tokens_view(tokens@).take(i as int))),
        decreases tokens.len() - i,
    {
        let cs = to_chars(tokens[i].1.as_str());
        let ghost base = tokens_text(tokens_view(tokens@).take(i as int));
        let mut j: usize = 0;
        assert(cs@.take(0) =~= Seq::<char>::empty());
        assert(base + cs@.take(0) =~= base);
        while j < cs.len()
            invariant
                j <= cs@.len(),
                expanded@ == expand_tabs(base + cs@.take(j as int)),
            decreases cs.len() - j,
        {
            let ghost before = expanded@;
            assert((base + cs@.take(j + 1)).drop_last() =~= base + cs@.take(j as int));
            assert((base + cs@.take(j + 1)).last() == cs@[j as int]);
            if cs[j] == '\t' {
                expanded.push(' ');
                expanded.push(' ');
                expanded.push(' ');
                expanded.push(' ');
                assert(expanded@ =~= before + seq![' ', ' ', ' ', ' ']);
            } else {
                expanded.push(cs[j]);
                assert(expanded@ =~= before + seq![cs@[j as int]]);
            }
            j = j + 1;
        }
        proof {
            assert(cs@.take(cs@.len() as int) =~= cs@);
            assert(tokens_view(tokens@).take(i + 1).drop_last() =~= tokens_view(tokens@).take(i as int));
            assert(tokens_view(tokens@).take(i + 1).last().1 == tokens@[i as int].1@);
        }
        i = i + 1;
    }
    assert(tokens_view(tokens@).take(tokens@.len() as int) =~= tokens_view(tokens@));
    let mut k: usize = 0;
    assert(expanded@.take(0) =~= Seq::<char>::empty());
    assert(expanded@.skip(0) =~= expanded@);
    while k < expanded.len() && crate::strings::is_whitespace(expanded[k])
        invariant
            k <= expanded@.len(),
            leading_ws(expanded@.take(k as int)) == expanded@.take(k as int),
            leading_ws(expanded@) == expanded@.take(k as int) + leading_ws(expanded@.skip(k as int)),
        decreases expanded.len() - k,
    {
        proof {
            let t = expanded@.take(k as int);
            let c = expanded@[k as int];
            assert(crate::strings::is_ws(c));
            assert(leading_ws(seq![c]) =~= seq![c]) by {
                assert(seq![c].drop_first() =~= Seq::<char>::empty());
                assert(leading_ws(Seq::<char>::empty()) == Seq::<char>::empty());
                assert(seq![c][0] == c);
            }
            lemma_leading_ws_append(t, seq![c]);
            assert(expanded@.take(k + 1) =~= t + seq![c]);
            let rest = expanded@.skip(k as int);
            assert(rest[0] == c);
            assert(rest.drop_first() =~= expanded@.skip(k + 1));
            assert(t + leading_ws(rest) =~= expanded@.take(k + 1) + leading_ws(expanded@.skip(k + 1)));
        }
        k = k + 1;
    }
    proof {
        let rest = expanded@.skip(k as int);
        assert(leading_ws(rest) =~= Seq::<char>::empty());
        assert(expanded@.take(k as int) + Seq::<char>::empty() =~= expanded@.take(k as int));
    }
    string_from_chars(&expanded, 0, k)
}

// ───────────────────────────── laws ─────────────────────────────

/// Whether a line's tokens spell its plain text, and none is empty: the
/// form in which a wrapped line is built.
pub open spec fn tokens_in_sync(tokens: Seq<TokenV>, plain: Seq<char>) -> bool {
    &&& tokens_text(tokens) == plain
    &&& forall|i: int| 0 <= i < tokens.len() ==> (#[trigger] tokens[i]).1.len() > 0
}

/// `s` without its trailing spaces.
pub open spec fn trim_spaces_end(s: Seq<char>) -> Seq<char>
    decreases s.len(),
{
    if s.len() > 0 && s.last() == ' ' {
        trim_spaces_end(s.drop_last())
    } else {
        s
    }
}

/// Adding coloured text keeps tokens and plain text in step.
pub proof fn law_push_token_in_sync(
    tokens: Seq<TokenV>,
    plain: Seq<char>,
    color: Seq<char>,
    text: Seq<char>,
)
    requires
        tokens_in_sync(tokens, plain),
    ensures
        tokens_in_sync(push_token_v(tokens, color, text), plain + text),
{
    let r = push_token_v(tokens, color, text);
    if text.len() == 0 {
        assert(plain + text =~= plain);
    } else if tokens.len() > 0 && tokens.last().0 == color {
        assert(r.drop_last() =~= tokens.drop_last());
        assert(tokens_text(r) =~= plain + text);
        assert forall|i: int| 0 <= i < r.len() implies (#[trigger] r[i]).1.len() > 0 by {
            if i < tokens.len() - 1 {
                assert(r[i] == tokens[i]);
            } else {
                assert(tokens[i].1.len() > 0);
            }
        }
    } else {
        assert(r.drop_last() =~= tokens);
        assert forall|i: int| 0 <= i < r.len() implies (#[trigger] r[i]).1.len() > 0 by {
            if i < tokens.len() {
                assert(r[i] == tokens[i]);
            }
        }
    }
}

/// Trimming the end of a line whose tokens spell its text removes exactly
/// the trailing spaces, from both, and leaves them in step.
pub proof fn law_trim_line_end(tokens: Seq<TokenV>, plain: Seq<char>)
    requires
        tokens_in_sync(tokens, plain),
    ensures
        trim_line_end_v(tokens, plain).1 == trim_spaces_end(plain),
        tokens_in_sync(trim_line_end_v(tokens, plain).0, trim_line_end_v(tokens, plain).1),
    decreases plain.len(),
{
    if plain.len() > 0 && plain.last() == ' ' {
        let p1 = plain.drop_last();
        if tokens.len() == 0 {
            assert(tokens_text(tokens) == Seq::<char>::empty());
        } else {
            let t = tokens.last();
            assert(tokens[tokens.len() - 1].1.len() > 0);
            let prev = tokens_text(tokens.drop_last());
            assert(plain == prev + t.1);
            let text1 = t.1.drop_last();
            assert(p1 =~= prev + text1);
            if text1.len() == 0 {
                let toks1 = tokens.drop_last();
                assert(p1 =~= prev);
                assert forall|i: int| 0 <= i < toks1.len() implies (#[trigger] toks1[i]).1.len() > 0 by {
                    assert(toks1[i] == tokens[i]);
                }
                law_trim_line_end(toks1, p1);
            } else {
                let toks1 = tokens.update(tokens.len() - 1, (t.0, text1));
                assert(toks1.drop_last() =~= tokens.drop_last());
                assert forall|i: int| 0 <= i < toks1.len() implies (#[trigger] toks1[i]).1.len() > 0 by {
                    if i < tokens.len() - 1 {
                        assert(toks1[i] == tokens[i]);
                    }
                }
                law_trim_line_end(toks1, p1);
            }
        }
    }
}

/// The value of a lower-case hexadecimal digit.
pub open spec fn hex_value(c: char) -> int {
    if '0' <= c <= '9' {
        c as int - '0' as int
    } else {
        c as int - 'a' as int + 10
    }
}

pub proof fn lemma_hex_digit_value(d: int)
    requires
        0 <= d < 16,
    ensures
        hex_value(hex_digit_v(d)) == d,
{
    let ds = seq!['0', '1', '2', '3', '4', '5', '6', '7', '8', '9', 'a', 'b', 'c', 'd', 'e', 'f'];
    assert(hex_digit_v(d) == ds[d]);
    if d == 0 { assert(ds[0] == '0'); } else if d == 1 { assert(ds[1] == '1'); }
    else if d == 2 { assert(ds[2] == '2'); } else if d == 3 { assert(ds[3] == '3'); }
    else if d == 4 { assert(ds[4] == '4'); } else if d == 5 { assert(ds[5] == '5'); }
    else if d == 6 { assert(ds[6] == '6'); } else if d == 7 { assert(ds[7] == '7'); }
    else if d == 8 { assert(ds[8] == '8'); } else if d == 9 { assert(ds[9] == '9'); }
    else if d == 10 { assert(ds[10] == 'a'); } else if d == 11 { assert(ds[11] == 'b'); }
    else if d == 12 { assert(ds[12] == 'c'); } else if d == 13 { assert(ds[13] == 'd'); }
    else if d == 14 { assert(ds[14] == 'e'); } else { assert(ds[15] == 'f'); }
}

/// A colour written `#rrggbb` reads back as the red, green and blue it was
/// written from.
pub proof fn law_hex_color_reads_back(r: u8, g: u8, b: u8)
    ensures
        ({
            let s = hex_color_v(r, g, b);
            &&& s.len() == 7
            &&& s[0] == '#'
            &&& hex_value(s[1]) * 16 + hex_value(s[2]) == r
            &&& hex_value(s[3]) * 16 + hex_value(s[4]) == g
            &&& hex_value(s[5]) * 16 + hex_value(s[6]) == b
        }),
{
    lemma_hex_digit_value((r / 16) as int);
    lemma_hex_digit_value((r % 16) as int);
    lemma_hex_digit_value((g / 16) as int);
    lemma_hex_digit_value((g % 16) as int);
    lemma_hex_digit_value((b / 16) as int);
    lemma_hex_digit_value((b % 16) as int);
}

/// Lines joined by line feeds.
pub open spec fn join_with_lf(lines: Seq<Seq<char>>) -> Seq<char>
    decreases lines.len(),
{
    if lines.len() == 0 {
        Seq::empty()
    } else if lines.len() == 1 {
        lines[0]
    } else {
        lines[0] + seq!['\n'] + join_with_lf(lines.drop_first())
    }
}

/// `s` without the line feed it ends with, if any.
pub open spec fn without_final_lf(s: Seq<char>) -> Seq<char> {
    if s.len() > 0 && s.last() == '\n' {
        s.drop_last()
    } else {
        s
    }
}

/// The lines of a text hold no line feed, and when the text holds no
/// carriage return, joining them with line feeds gives the text back, less
/// a final line feed.
pub proof fn law_lines_rejoin(s: Seq<char>)
    ensures
        forall|i: int, k: int|
            0 <= i < lines_v(s).len() && 0 <= k < lines_v(s)[i].len() ==> #[trigger] lines_v(s)[i][k]
                != '\n',
        (forall|k: int| 0 <= k < s.len() ==> #[trigger] s[k] != '\r') ==> join_with_lf(lines_v(s))
            == without_final_lf(s),
    decreases s.len(),
{
    if s.len() > 0 {
        lemma_first_nl(s);
        let i = first_nl(s);
        if i < s.len() {
            let head = strip_cr(s.take(i));
            let rest = s.skip(i + 1);
            law_lines_rejoin(rest);
            let ls = lines_v(s);
            assert(ls == seq![head] + lines_v(rest));
            assert forall|a: int, k: int| 0 <= a < ls.len() && 0 <= k < ls[a].len() implies #[trigger] ls[a][k]
                != '\n' by {
                if a == 0 {
                    assert(ls[0] == head);
                    assert(head[k] == s[k]);
                } else {
                    assert(ls[a] == lines_v(rest)[a - 1]);
                }
            }
            if forall|k: int| 0 <= k < s.len() ==> #[trigger] s[k] != '\r' {
                assert forall|k: int| 0 <= k < rest.len() implies #[trigger] rest[k] != '\r' by {
                    assert(rest[k] == s[k + i + 1]);
                }
                if i > 0 {
                    assert(s.take(i).last() == s[i - 1]);
                }
                assert(head == s.take(i));
                if rest.len() == 0 {
                    assert(lines_v(rest) =~= Seq::<Seq<char>>::empty());
                    assert(ls =~= seq![head]);
                    assert(s.drop_last() =~= s.take(i));
                } else {
                    assert(ls.drop_first() =~= lines_v(rest));
                    assert(s.last() == rest.last());
                    if rest.last() == '\n' {
                        assert(s.drop_last() =~= s.take(i) + seq!['\n'] + rest.drop_last());
                    } else {
                        assert(s =~= s.take(i) + seq!['\n'] + rest);
                    }
                }
            }
        } else {
            assert(lines_v(s) =~= seq![s]);
            assert forall|a: int, k: int| 0 <= a < lines_v(s).len() && 0 <= k < lines_v(s)[a].len() implies #[trigger] lines_v(s)[a][k]
                != '\n' by {
                assert(lines_v(s)[a] == s);
            }
        }
    }
}

} // verus!
