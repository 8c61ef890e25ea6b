use markdown_preview_service::code::{
    code_line_indent, hex_color, highlight_code, is_ascii_printable, is_cjk, is_cjk_punctuation,
    line_tokens, push_code_token, split_code_lines, trim_code_line_end, CodeToken,
};
use markdown_preview_service::syntax::{highlight_by_name, highlight_by_token, DefaultSets};
use syntect::highlighting::ThemeSet;
use syntect::parsing::SyntaxSet;

/// Highlighting as `syntect`'s own calls give it, with the default sets.
fn reference_highlighting(code: &str, language: &str) -> Vec<Vec<(String, String)>> {
    let ss = SyntaxSet::load_defaults_newlines();
    let ts = ThemeSet::load_defaults();
    let syntax = ss.find_syntax_by_token(language).unwrap_or_else(|| ss.find_syntax_plain_text());
    let theme = ts.themes.get("base16-ocean.dark").or_else(|| ts.themes.values().next()).unwrap();
    let mut h = syntect::easy::HighlightLines::new(syntax, theme);
    code.lines()
        .map(|line| {
            let ranges = h
                .highlight_line(line, &ss)
                .unwrap_or_else(|_| vec![(syntect::highlighting::Style::default(), line)]);
            ranges
                .into_iter()
                .map(|(style, text)| {
                    let c = style.foreground;
                    (format!("#{:02x}{:02x}{:02x}", c.r, c.g, c.b), text.to_string())
                })
                .collect()
        })
        .collect()
}

fn tok(c: &str, t: &str) -> CodeToken {
    (c.to_string(), t.to_string())
}

#[test]
fn character_classes() {
    assert!(is_ascii_printable(' '));
    assert!(is_ascii_printable('~'));
    assert!(!is_ascii_printable('\t'));
    assert!(!is_ascii_printable('\u{7f}'));
    assert!(is_cjk_punctuation('\u{3002}'));
    assert!(is_cjk_punctuation('\u{ff0c}'));
    assert!(!is_cjk_punctuation('a'));
    assert!(is_cjk('中'));
    assert!(is_cjk('\u{3400}'));
    assert!(!is_cjk('\u{3002}'));
}

#[test]
fn push_code_token_joins_same_colour() {
    let mut tokens = Vec::new();
    push_code_token(&mut tokens, "#111111".into(), "let".into());
    push_code_token(&mut tokens, "#111111".into(), " x".into());
    push_code_token(&mut tokens, "#222222".into(), "".into());
    push_code_token(&mut tokens, "#222222".into(), "=".into());
    assert_eq!(tokens, vec![tok("#111111", "let x"), tok("#222222", "=")]);
}

#[test]
fn trim_line_end_removes_trailing_spaces() {
    let mut tokens = vec![tok("#a", "x = "), tok("#b", "  ")];
    let mut plain = String::from("x =   ");
    trim_code_line_end(&mut tokens, &mut plain);
    assert_eq!(plain, "x =");
    assert_eq!(tokens, vec![tok("#a", "x =")]);
}

#[test]
fn trim_line_end_without_tokens_removes_one_space() {
    let mut tokens: Vec<CodeToken> = Vec::new();
    let mut plain = String::from("ab  ");
    trim_code_line_end(&mut tokens, &mut plain);
    assert_eq!(plain, "ab ");
    assert!(tokens.is_empty());
}

#[test]
fn trim_line_end_keeps_other_characters() {
    let mut tokens = vec![tok("#a", "ab")];
    let mut plain = String::from("ab");
    trim_code_line_end(&mut tokens, &mut plain);
    assert_eq!(plain, "ab");
    assert_eq!(tokens, vec![tok("#a", "ab")]);
}

#[test]
fn lines_like_str_lines() {
    for text in ["", "a", "a\n", "a\r\nb", "\n\nx\r", "a\rb\n\n"] {
        let got = split_code_lines(text);
        let want: Vec<String> = text.lines().map(|l| l.to_string()).collect();
        assert_eq!(got, want, "text {:?}", text);
    }
}

#[test]
fn hex_colours() {
    assert_eq!(hex_color(0, 0, 0), "#000000");
    assert_eq!(hex_color(255, 16, 171), "#ff10ab");
}

#[test]
fn failed_highlighting_keeps_the_line_in_black() {
    assert_eq!(line_tokens("let x", &Err(())), vec![tok("#000000", "let x")]);
    assert_eq!(
        line_tokens("ab", &Ok(vec![(1, 2, 3, "a".to_string()), (255, 255, 255, "b".to_string())])),
        vec![tok("#010203", "a"), tok("#ffffff", "b")]
    );
}

#[test]
fn highlighting_spells_each_line() {
    let sets = DefaultSets::load();
    let code = "fn main() {\n    println!(\"hi\");\n}\n";
    let out = highlight_code(&sets, code, "rust");
    assert_eq!(out.len(), 3);
    for (line, tokens) in code.lines().zip(&out) {
        let spelled: String = tokens.iter().map(|(_, t)| t.as_str()).collect();
        assert!(line.starts_with(&spelled));
        for (c, _) in tokens {
            assert_eq!(c.len(), 7);
            assert!(c.starts_with('#'));
        }
    }
    // a keyword and a string are not drawn in the same colour
    let colours: std::collections::HashSet<&String> = out.iter().flatten().map(|(c, _)| c).collect();
    assert!(colours.len() > 1);
}

#[test]
fn unknown_language_is_plain_text() {
    let sets = DefaultSets::load();
    let out = highlight_code(&sets, "a b\nc", "no-such-language");
    assert_eq!(out.len(), 2);
    let first: String = out[0].iter().map(|(_, t)| t.as_str()).collect();
    assert_eq!(first, "a b");
}

#[test]
fn continuation_indent() {
    assert_eq!(code_line_indent(&[tok("#a", "\t  "), tok("#b", " x")]), "       ");
    assert_eq!(code_line_indent(&[tok("#a", "x  ")]), "");
    assert_eq!(code_line_indent(&[]), "");
}

#[test]
fn highlighting_matches_syntect_with_base16_ocean_dark() {
    let sets = DefaultSets::load();
    let code = "fn main() {\n    let s = \"hi\"; // note\n}\n";
    assert_eq!(highlight_code(&sets, code, "rust"), reference_highlighting(code, "rust"));
    let py = "def f(x):\n    return x + 1\n";
    assert_eq!(highlight_code(&sets, py, "py"), reference_highlighting(py, "py"));
    assert_eq!(highlight_code(&sets, "a b\nc", "nothing"), reference_highlighting("a b\nc", "nothing"));
}

#[test]
fn highlight_by_token_and_by_name() {
    let sets = DefaultSets::load();
    let lines = vec!["let x = 1;".to_string(), "x".to_string()];
    let by_token = highlight_by_token(&sets, "rs", "base16-ocean.dark", &lines).unwrap();
    assert_eq!(by_token.len(), 2);
    let spelled: String = by_token[0].as_ref().unwrap().iter().map(|p| p.3.as_str()).collect();
    assert_eq!(spelled, "let x = 1;");
    assert!(highlight_by_token(&sets, "no-such-language", "base16-ocean.dark", &lines).is_none());
    assert!(highlight_by_token(&sets, "rs", "no-such-theme", &lines).is_none());
    assert!(highlight_by_name(&sets, "Plain Text", "base16-ocean.dark", &lines).is_some());
    assert!(highlight_by_name(&sets, "rs", "base16-ocean.dark", &lines).is_none());
}
