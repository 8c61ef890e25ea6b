use markdown_preview_service::text::{
    push_text_run, runs_have_visible_text, slice_runs_by_byte_range, split_runs_on_newlines,
    svg_tspan_for_run, word_count, TextRun, TextStyle,
};

fn texts(runs: &[TextRun]) -> Vec<(String, TextStyle)> {
    runs.iter().map(|r| (r.text.clone(), r.style)).collect()
}

#[test]
fn push_text_run_joins_same_style() {
    let mut runs = Vec::new();
    push_text_run(&mut runs, "ab", TextStyle::Normal);
    push_text_run(&mut runs, "cd", TextStyle::Normal);
    push_text_run(&mut runs, "", TextStyle::Bold);
    push_text_run(&mut runs, "e", TextStyle::Bold);
    assert_eq!(
        texts(&runs),
        vec![(String::from("abcd"), TextStyle::Normal), (String::from("e"), TextStyle::Bold)]
    );
}

#[test]
fn push_text_run_never_joins_math() {
    let mut runs = Vec::new();
    push_text_run(&mut runs, "x", TextStyle::Math);
    push_text_run(&mut runs, "y", TextStyle::Math);
    assert_eq!(
        texts(&runs),
        vec![(String::from("x"), TextStyle::Math), (String::from("y"), TextStyle::Math)]
    );
}

#[test]
fn visible_text() {
    assert!(!runs_have_visible_text(&[]));
    assert!(!runs_have_visible_text(&[
        TextRun::new(" \t\n", TextStyle::Normal),
        TextRun::new("\u{3000}", TextStyle::Bold),
    ]));
    assert!(runs_have_visible_text(&[
        TextRun::new("  ", TextStyle::Normal),
        TextRun::new(" x ", TextStyle::Code),
    ]));
}

#[test]
fn split_on_newlines() {
    let runs = vec![
        TextRun::new("a\nb", TextStyle::Normal),
        TextRun::new("c\n", TextStyle::Bold),
        TextRun::new("\nd", TextStyle::Normal),
    ];
    let lines = split_runs_on_newlines(&runs);
    let got: Vec<Vec<(String, TextStyle)>> = lines.iter().map(|l| texts(l)).collect();
    assert_eq!(
        got,
        vec![
            vec![(String::from("a"), TextStyle::Normal)],
            vec![(String::from("b"), TextStyle::Normal), (String::from("c"), TextStyle::Bold)],
            vec![],
            vec![(String::from("d"), TextStyle::Normal)],
        ]
    );
}

#[test]
fn split_on_newlines_of_nothing_is_one_empty_line() {
    let lines = split_runs_on_newlines(&[]);
    assert_eq!(lines.len(), 1);
    assert!(lines[0].is_empty());
}

#[test]
fn split_keeps_text_but_line_feeds() {
    let runs = vec![
        TextRun::new("one\ntwo", TextStyle::Italic),
        TextRun::new("three\n\nfour", TextStyle::Normal),
    ];
    let lines = split_runs_on_newlines(&runs);
    let joined: Vec<String> = lines
        .iter()
        .map(|l| l.iter().map(|r| r.text.as_str()).collect::<String>())
        .collect();
    assert_eq!(joined.join("\n"), "one\ntwothree\n\nfour");
    assert!(lines.iter().all(|l| l.iter().all(|r| !r.text.contains('\n'))));
}

#[test]
fn slice_by_byte_range() {
    // "中文" is 6 bytes, then "ab" bold
    let full = "中文ab";
    let styles = vec![(0usize, 6usize, TextStyle::Normal), (6, 8, TextStyle::Bold)];
    let runs = slice_runs_by_byte_range(full, &styles, 3, 7);
    assert_eq!(
        texts(&runs),
        vec![(String::from("文"), TextStyle::Normal), (String::from("a"), TextStyle::Bold)]
    );
    let none = slice_runs_by_byte_range(full, &styles, 8, 8);
    assert!(none.is_empty());
}

#[test]
fn slice_by_byte_range_joins_equal_styles() {
    let full = "abcd";
    let styles = vec![(0usize, 2usize, TextStyle::Normal), (2, 4, TextStyle::Normal)];
    let runs = slice_runs_by_byte_range(full, &styles, 1, 4);
    assert_eq!(texts(&runs), vec![(String::from("bcd"), TextStyle::Normal)]);
}

#[test]
fn tspan_attributes() {
    let (a, t) = svg_tspan_for_run(&TextRun::new("x^2", TextStyle::Math));
    assert_eq!(a, "fill=\"#0f766e\"");
    assert_eq!(t, "$x^2$");
    let (a, t) = svg_tspan_for_run(&TextRun::new("b", TextStyle::Bold));
    assert_eq!(a, "font-weight=\"700\"");
    assert_eq!(t, "b");
    let (a, _) = svg_tspan_for_run(&TextRun::new("c", TextStyle::Code));
    assert_eq!(a, "fill=\"#ff9500\" font-family=\"LXGW WenKai Mono, monospace\"");
    let (a, _) = svg_tspan_for_run(&TextRun::new("i", TextStyle::Italic));
    assert_eq!(a, "font-style=\"italic\"");
    let (a, _) = svg_tspan_for_run(&TextRun::new("n", TextStyle::Normal));
    assert_eq!(a, "");
}

#[test]
fn words_are_non_whitespace_characters() {
    assert_eq!(word_count("# 标题\n\nhello  world\t!"), 14);
    assert_eq!(word_count(""), 0);
    assert_eq!(word_count(" \n\u{3000}"), 0);
}
