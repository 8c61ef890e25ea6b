//! Syntax highlighting with the syntax and theme sets that `syntect` ships.
//! The items here call `syntect`; their contracts are what its source shows.
use vstd::prelude::*;

use crate::strings::strings_view;
use syntect::easy::HighlightLines;
use syntect::highlighting::ThemeSet;
use syntect::parsing::SyntaxSet;

verus! {

#[verifier::external_type_specification]
#[verifier::external_body]
pub struct ExSyntaxSet(SyntaxSet);

#[verifier::external_type_specification]
#[verifier::external_body]
pub struct ExThemeSet(ThemeSet);

/// The syntax set (with newlines) and the theme set that `syntect` ships.
/// Its fields are private and `load` is its only constructor, so every
/// value holds exactly those default sets.
pub struct DefaultSets {
    syntaxes: SyntaxSet,
    themes: ThemeSet,
}

impl DefaultSets {
    /// `SyntaxSet::load_defaults_newlines` and `ThemeSet::load_defaults`:
    /// both decode data built into `syntect`.
    #[verifier::external_body]
    pub fn load() -> (sets: DefaultSets) {
        DefaultSets {
            syntaxes: SyntaxSet::load_defaults_newlines(),
            themes: ThemeSet::load_defaults(),
        }
    }
}

/// A highlighted piece of a line: the red, green and blue of its foreground
/// colour and its text.
pub type ColoredPiece = (u8, u8, u8, String);

/// The model of a [`ColoredPiece`].
pub type PieceV = (u8, u8, u8, Seq<char>);

/// The highlighting of one line: its pieces, or `Err` when `syntect` failed.
pub type HighlightedLine = Result<Vec<ColoredPiece>, ()>;

/// The model of a [`HighlightedLine`].
pub type HighlightedV = Result<Seq<PieceV>, ()>;

/// The models of a sequence of pieces.
pub open spec fn pieces_view(s: Seq<ColoredPiece>) -> Seq<PieceV> {
    s.map_values(|p: ColoredPiece| (p.0, p.1, p.2, p.3@))
}

/// The model of the highlighting of one line.
pub open spec fn highlighted_view(h: HighlightedLine) -> HighlightedV {
    match h {
        Ok(p) => Ok(pieces_view(p@)),
        Err(_) => Err(()),
    }
}

/// The model of the highlighting of a text, when there is one.
pub open spec fn highlighting_view(r: Option<Vec<HighlightedLine>>) -> Option<Seq<HighlightedV>> {
    match r {
        Some(v) => Some(v@.map_values(|h: HighlightedLine| highlighted_view(h))),
        None => None,
    }
}

/// The texts of pieces, one after the other.
pub open spec fn pieces_text(s: Seq<PieceV>) -> Seq<char>
    decreases s.len(),
{
    if s.len() == 0 {
        Seq::empty()
    } else {
        pieces_text(s.drop_last()) + s.last().3
    }
}

/// What every successful highlighting of `line` is: pieces that are not
/// empty and that, one after the other, spell a prefix of the line.
pub open spec fn is_highlighting_of(line: Seq<char>, pieces: Seq<PieceV>) -> bool {
    &&& line.take(pieces_text(pieces).len() as int) == pieces_text(pieces)
    &&& pieces_text(pieces).len() <= line.len()
    &&& forall|i: int| 0 <= i < pieces.len() ==> (#[trigger] pieces[i]).3.len() > 0
}

/// What a highlighting of `lines` is: one result per line, and each success
/// a highlighting of its line.
pub open spec fn highlights_lines(lines: Seq<Seq<char>>, h: Option<Seq<HighlightedV>>) -> bool {
    h matches Some(hs) ==> {
        &&& hs.len() == lines.len()
        &&& forall|i: int|
            0 <= i < hs.len() ==> (#[trigger] hs[i] matches Ok(p) ==> is_highlighting_of(lines[i], p))
    }
}

/// What `syntect` makes of `lines`, highlighted one after the other with
/// the default syntax that `find_syntax_by_token(token)` finds and the
/// default theme named `theme`; `None` when either is missing.
pub uninterp spec fn syntect_by_token_v(
    token: Seq<char>,
    theme: Seq<char>,
    lines: Seq<Seq<char>>,
) -> Option<Seq<HighlightedV>>;

/// The same, with the default syntax that `find_syntax_by_name(name)` finds.
pub uninterp spec fn syntect_by_name_v(
    name: Seq<char>,
    theme: Seq<char>,
    lines: Seq<Seq<char>>,
) -> Option<Seq<HighlightedV>>;

/// `SyntaxSet::find_syntax_by_token` (by file extension, then by name
/// ignoring case), `themes.get(theme)`, then `HighlightLines::highlight_line`
/// on each line in order, each piece reduced to its foreground colour and its
/// text. Trusted: the result depends on the token, the theme name and the
/// lines alone (the sets are the built-in ones), named `syntect_by_token_v`;
/// there is one result per line; a successful one is non-empty pieces that
/// spell a prefix of its line (the source's iterator yields consecutive
/// slices from the line's start, skips empty ones, and may stop early).
#[verifier::external_body]
pub fn highlight_by_token(sets: &DefaultSets, token: &str, theme: &str, lines: &Vec<String>) -> (r:
    Option<Vec<HighlightedLine>>)
    ensures
        highlighting_view(r) == syntect_by_token_v(token@, theme@, strings_view(lines@)),
        highlights_lines(strings_view(lines@), highlighting_view(r)),
{
    let syntax = sets.syntaxes.find_syntax_by_token(token)?;
    let mut h = HighlightLines::new(syntax, sets.themes.themes.get(theme)?);
    Some(lines.iter().map(|line| match h.highlight_line(line, &sets.syntaxes) {
        Ok(ranges) => Ok(ranges.into_iter().map(|(s, t)| (s.foreground.r, s.foreground.g, s.foreground.b, t.to_string())).collect()),
        Err(_) => Err(()),
    }).collect())
}

/// As [`highlight_by_token`], with `SyntaxSet::find_syntax_by_name` for the
/// syntax; named `syntect_by_name_v`. Trusted too: the built-in sets hold
/// the syntax named "Plain Text" and the theme "base16-ocean.dark", so with
/// those two names the result is never `None`.
#[verifier::external_body]
pub fn highlight_by_name(sets: &DefaultSets, name: &str, theme: &str, lines: &Vec<String>) -> (r:
    Option<Vec<HighlightedLine>>)
    ensures
        highlighting_view(r) == syntect_by_name_v(name@, theme@, strings_view(lines@)),
        highlights_lines(strings_view(lines@), highlighting_view(r)),
        name@ == "Plain Text"@ && theme@ == "base16-ocean.dark"@ ==> r is Some,
{
    let syntax = sets.syntaxes.find_syntax_by_name(name)?;
    let mut h = HighlightLines::new(syntax, sets.themes.themes.get(theme)?);
    Some(lines.iter().map(|line| match h.highlight_line(line, &sets.syntaxes) {
        Ok(ranges) => Ok(ranges.into_iter().map(|(s, t)| (s.foreground.r, s.foreground.g, s.foreground.b, t.to_string())).collect()),
        Err(_) => Err(()),
    }).collect())
}

} // verus!
