use markdown_preview_service::ast::{Inline, Node, TableAlignment};
use markdown_preview_service::math::{svg_inner_content, view_box_attr};
use markdown_preview_service::svg_builder::{
    code_line_tspans, inlines_have_visible_content, inlines_to_runs, is_shaded_row,
    item_has_marker, list_marker, list_numbers, node_has_visible_content, nodes_have_visible_content,
    push_latex_piece, runs_tspans, split_latex_for_wrap, table_source_rows,
};
use markdown_preview_service::text::{runs_have_visible_text, TextRun, TextStyle};

fn s(t: &str) -> String {
    t.to_string()
}

#[test]
fn runs_of_inlines() {
    let runs = inlines_to_runs(&[
        Inline::Text(s("a")),
        Inline::Text(s("b")),
        Inline::Code(s("x")),
        Inline::Math(s("")),
        Inline::Math(s("y")),
        Inline::Bold(s("")),
    ]);
    let got: Vec<(String, TextStyle)> = runs.iter().map(|r| (r.text.clone(), r.style)).collect();
    assert_eq!(
        got,
        vec![
            (s("ab"), TextStyle::Normal),
            (s(" x "), TextStyle::Code),
            (s(""), TextStyle::Math),
            (s("y"), TextStyle::Math),
        ]
    );
}

#[test]
fn latex_breaks_at_top_level_signs() {
    assert_eq!(split_latex_for_wrap("a = b + c - d"), vec![s("a ="), s("b +"), s("c -"), s("d")]);
    assert_eq!(split_latex_for_wrap("\\frac{a=b}{c}=d"), vec![s("\\frac{a=b}{c}="), s("d")]);
    assert_eq!(split_latex_for_wrap("-a-b=c"), vec![s("-a-"), s("b="), s("c")]);
    assert_eq!(split_latex_for_wrap("x\\=y"), vec![s("x\\=y")]);
    assert_eq!(split_latex_for_wrap("}}=x"), vec![s("}}="), s("x")]);
    assert!(split_latex_for_wrap("   ").is_empty());
}

#[test]
fn latex_piece_is_trimmed() {
    let mut pieces = Vec::new();
    push_latex_piece(&mut pieces, "  a + ");
    push_latex_piece(&mut pieces, " \t ");
    assert_eq!(pieces, vec![s("a +")]);
}

#[test]
fn visibility() {
    assert!(!inlines_have_visible_content(&[Inline::Text(s("  ")), Inline::Math(s("\n"))]));
    assert!(inlines_have_visible_content(&[Inline::Code(s(" c "))]));
    assert!(node_has_visible_content(&Node::Rule));
    assert!(!node_has_visible_content(&Node::CodeBlock { language: s("rust"), content: s(" \n ") }));
    assert!(!node_has_visible_content(&Node::MathBlock { latex: s(" ") }));
    let quote = Node::Quote {
        children: vec![
            Node::Paragraph(vec![Inline::Text(s(" "))]),
            Node::List {
                ordered: false,
                start: None,
                items: vec![Node::ListItem { children: vec![Node::Paragraph(vec![Inline::Bold(s("x"))])] }],
            },
        ],
    };
    assert!(node_has_visible_content(&quote));
    assert!(!nodes_have_visible_content(&[Node::Quote { children: vec![] }]));
    let table = Node::Table {
        alignments: vec![],
        header: vec![vec![Inline::Text(s(" "))]],
        rows: vec![vec![vec![], vec![Inline::Text(s("v"))]]],
    };
    assert!(node_has_visible_content(&table));
    let blank_table = Node::Table { alignments: vec![], header: vec![], rows: vec![vec![vec![]]] };
    assert!(!node_has_visible_content(&blank_table));
}

#[test]
fn table_cells_are_padded_and_header_is_bold() {
    let header = vec![vec![Inline::Text(s("H")), Inline::Italic(s("i"))]];
    let rows = vec![vec![vec![Inline::Text(s("a"))], vec![Inline::Text(s("b"))], vec![]]];
    let (n, cells) = table_source_rows(&[TableAlignment::Center], &header, &rows).unwrap();
    assert_eq!(n, 3);
    assert_eq!(cells.len(), 2);
    assert_eq!(cells[0].len(), 3);
    assert_eq!(cells[0][0].align, TableAlignment::Center);
    assert_eq!(cells[0][1].align, TableAlignment::Unaligned);
    let h: Vec<(String, TextStyle)> = cells[0][0].runs.iter().map(|r| (r.text.clone(), r.style)).collect();
    assert_eq!(h, vec![(s("H"), TextStyle::Bold), (s("i"), TextStyle::Italic)]);
    assert!(cells[0][1].runs.is_empty());
    assert_eq!(cells[1][1].runs[0].style, TextStyle::Normal);
    assert!(cells[1][2].runs.is_empty());
}

#[test]
fn table_without_columns() {
    assert!(table_source_rows(&[], &vec![], &vec![vec![]]).is_none());
}

#[test]
fn inner_content_of_svg() {
    assert_eq!(svg_inner_content("<svg a=\"1\"><g/></svg>"), Some("<g/>"));
    assert_eq!(svg_inner_content("<svg><svg>x</svg></svg>"), Some("<svg>x</svg>"));
    assert_eq!(svg_inner_content("<svg>"), None);
    assert_eq!(svg_inner_content("</svg>"), None);
    assert_eq!(svg_inner_content("no tag"), None);
}

#[test]
fn view_box_attribute() {
    assert_eq!(view_box_attr("<svg viewBox=\"0 -750 1200 1000\" x=\"1\">"), Some("0 -750 1200 1000"));
    assert_eq!(view_box_attr("<svg viewBox=\"0 0"), None);
    assert_eq!(view_box_attr("<svg width=\"1\">"), None);
}

#[test]
fn runs_show_exactly_what_inlines_show() {
    let cases = vec![
        vec![],
        vec![Inline::Text(s("  "))],
        vec![Inline::Code(s(""))],
        vec![Inline::Code(s(" \t"))],
        vec![Inline::Math(s(" "))],
        vec![Inline::Text(s(" ")), Inline::Bold(s("x"))],
        vec![Inline::Code(s("y"))],
        vec![Inline::Math(s("z"))],
        vec![Inline::Italic(s(" ")), Inline::Text(s("\n"))],
    ];
    for inlines in cases {
        assert_eq!(
            runs_have_visible_text(&inlines_to_runs(&inlines)),
            inlines_have_visible_content(&inlines),
            "{:?}",
            inlines
        );
    }
}

#[test]
fn code_line_markup() {
    let tokens = vec![(s("#ff0000"), s("a<b")), (s("#00ff00"), s("'c'"))];
    assert_eq!(
        code_line_tspans(&tokens),
        "<tspan fill=\"#ff0000\">a&lt;b</tspan><tspan fill=\"#00ff00\">&apos;c&apos;</tspan>"
    );
    assert_eq!(code_line_tspans(&[]), "");
}

#[test]
fn run_markup() {
    let runs = vec![
        TextRun::new("a&b", TextStyle::Normal),
        TextRun::new("", TextStyle::Bold),
        TextRun::new("x", TextStyle::Bold),
        TextRun::new("x<1", TextStyle::Math),
    ];
    assert_eq!(
        runs_tspans(&runs),
        "<tspan >a&amp;b</tspan><tspan font-weight=\"700\">x</tspan><tspan fill=\"#0f766e\">$x&lt;1$</tspan>"
    );
}

#[test]
fn list_markers() {
    assert_eq!(list_marker(0), "0. ");
    assert_eq!(list_marker(7), "7. ");
    assert_eq!(list_marker(10), "10. ");
    assert_eq!(list_marker(1203), "1203. ");
    assert_eq!(list_marker(u64::MAX), format!("{}. ", u64::MAX));
}

#[test]
fn item_markers() {
    assert!(item_has_marker(&[Node::Paragraph(vec![Inline::Text(s("one"))])]));
    assert!(!item_has_marker(&[Node::Paragraph(vec![Inline::Text(s("  "))])]));
    assert!(!item_has_marker(&[]));
    assert!(!item_has_marker(&[Node::Rule]));
    // the first paragraph decides, whatever comes before or after it
    assert!(item_has_marker(&[Node::Rule, Node::Paragraph(vec![Inline::Code(s("c"))])]));
    assert!(!item_has_marker(&[
        Node::Paragraph(vec![]),
        Node::Paragraph(vec![Inline::Text(s("later"))]),
    ]));
}

#[test]
fn shaded_rows() {
    let shaded: Vec<usize> = (0..7).filter(|&r| is_shaded_row(r, 1)).collect();
    assert_eq!(shaded, vec![2, 4, 6]);
    let shaded: Vec<usize> = (0..5).filter(|&r| is_shaded_row(r, 0)).collect();
    assert_eq!(shaded, vec![1, 3]);
}

#[test]
fn inner_of_wrapped_markup() {
    let head = r#"<svg xmlns="http://www.w3.org/2000/svg" viewBox="0 0 1 1">"#;
    for inner in ["", "<g>x</g>", "a>b</svg>c", "</svg>"] {
        let svg = format!("{head}{inner}</svg>");
        assert_eq!(svg_inner_content(&svg), Some(inner));
    }
}

fn item(children: Vec<Node>) -> Node {
    Node::ListItem { children }
}

fn para(t: &str) -> Node {
    Node::Paragraph(vec![Inline::Text(s(t))])
}

#[test]
fn list_numbers_count_marked_items() {
    let items = vec![item(vec![para("a")]), item(vec![para(" ")]), item(vec![para("b")])];
    assert_eq!(list_numbers(None, &items), Some(vec![1, 2]));
    assert_eq!(list_numbers(Some(7), &items), Some(vec![7, 8]));
    // nested items share the counter, in the order they are drawn
    let nested = vec![
        item(vec![item(vec![para("inner")]), para("outer")]),
        Node::Rule,
        item(vec![para("last"), para("second paragraph")]),
    ];
    assert_eq!(list_numbers(Some(3), &nested), Some(vec![3, 4, 5]));
    assert_eq!(list_numbers(Some(0), &[]), Some(vec![]));
}

#[test]
fn list_numbers_overflow() {
    let items = vec![item(vec![para("a")]), item(vec![para("b")])];
    assert_eq!(list_numbers(Some(u64::MAX - 2), &items), Some(vec![u64::MAX - 2, u64::MAX - 1]));
    assert_eq!(list_numbers(Some(u64::MAX - 1), &items), None);
    assert_eq!(list_numbers(Some(u64::MAX), &[]), Some(vec![]));
}
