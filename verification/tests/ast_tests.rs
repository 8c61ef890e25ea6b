use markdown_preview_service::ast::{AstBuilder, Inline, MdEvent, Node, TableAlignment};

fn s(text: &str) -> String {
    text.to_string()
}

fn dbg(nodes: &[Node]) -> String {
    format!("{:?}", nodes)
}

#[test]
fn heading_then_paragraph() {
    let nodes = AstBuilder::build(vec![
        MdEvent::StartHeading(1),
        MdEvent::Text(s("Title")),
        MdEvent::EndHeading,
        MdEvent::StartParagraph,
        MdEvent::Text(s("Hello ")),
        MdEvent::StartStrong,
        MdEvent::Text(s("world")),
        MdEvent::EndStrong,
        MdEvent::EndParagraph,
    ]);
    assert_eq!(nodes.len(), 2);
    match &nodes[0] {
        Node::Heading { level, content } => {
            assert_eq!(*level, 1);
            assert_eq!(content, &vec![Inline::Text(s("Title"))]);
        }
        other => panic!("unexpected {:?}", other),
    }
    match &nodes[1] {
        Node::Paragraph(inlines) => {
            assert_eq!(inlines, &vec![Inline::Text(s("Hello ")), Inline::Bold(s("world"))]);
        }
        other => panic!("unexpected {:?}", other),
    }
}

#[test]
fn deep_headings_become_level_three() {
    for level in [3u8, 4, 5, 6] {
        let nodes = AstBuilder::build(vec![
            MdEvent::StartHeading(level),
            MdEvent::Text(s("h")),
            MdEvent::EndHeading,
        ]);
        assert!(matches!(&nodes[0], Node::Heading { level: 3, .. }));
    }
    let nodes = AstBuilder::build(vec![
        MdEvent::StartHeading(2),
        MdEvent::Text(s("h")),
        MdEvent::EndHeading,
    ]);
    assert!(matches!(&nodes[0], Node::Heading { level: 2, .. }));
}

#[test]
fn empty_heading_is_dropped() {
    let nodes = AstBuilder::build(vec![MdEvent::StartHeading(1), MdEvent::EndHeading]);
    assert!(nodes.is_empty());
}

#[test]
fn code_block_keeps_text_verbatim() {
    let nodes = AstBuilder::build(vec![
        MdEvent::StartCodeBlock(Some(s("  rust  "))),
        MdEvent::Text(s("fn main() {\n")),
        MdEvent::Text(s("    *x < 1 && y\n")),
        MdEvent::Text(s("}\n")),
        MdEvent::EndCodeBlock,
    ]);
    assert_eq!(nodes.len(), 1);
    match &nodes[0] {
        Node::CodeBlock { language, content } => {
            assert_eq!(language, "rust");
            assert_eq!(content, "fn main() {\n    *x < 1 && y\n}\n");
        }
        other => panic!("unexpected {:?}", other),
    }
}

#[test]
fn indented_code_block_has_no_language() {
    let nodes = AstBuilder::build(vec![
        MdEvent::StartCodeBlock(None),
        MdEvent::Text(s("a")),
        MdEvent::SoftBreak,
        MdEvent::Text(s("b")),
        MdEvent::EndCodeBlock,
    ]);
    match &nodes[0] {
        Node::CodeBlock { language, content } => {
            assert_eq!(language, "");
            assert_eq!(content, "a\nb");
        }
        other => panic!("unexpected {:?}", other),
    }
}

#[test]
fn task_list_markers() {
    let nodes = AstBuilder::build(vec![
        MdEvent::StartList(None),
        MdEvent::StartItem,
        MdEvent::TaskListMarker(true),
        MdEvent::Text(s("done")),
        MdEvent::EndItem,
        MdEvent::StartItem,
        MdEvent::TaskListMarker(false),
        MdEvent::Text(s("todo")),
        MdEvent::EndItem,
        MdEvent::EndList,
    ]);
    assert_eq!(nodes.len(), 1);
    match &nodes[0] {
        Node::List { ordered, start, items } => {
            assert!(!ordered);
            assert_eq!(*start, None);
            assert_eq!(items.len(), 2);
            match &items[0] {
                Node::ListItem { children } => match &children[0] {
                    Node::Paragraph(inl) => assert_eq!(inl, &vec![Inline::Text(s("\u{2611} done"))]),
                    other => panic!("unexpected {:?}", other),
                },
                other => panic!("unexpected {:?}", other),
            }
            match &items[1] {
                Node::ListItem { children } => match &children[0] {
                    Node::Paragraph(inl) => assert_eq!(inl, &vec![Inline::Text(s("\u{2610} todo"))]),
                    other => panic!("unexpected {:?}", other),
                },
                other => panic!("unexpected {:?}", other),
            }
        }
        other => panic!("unexpected {:?}", other),
    }
}

#[test]
fn ordered_list_keeps_start() {
    let nodes = AstBuilder::build(vec![
        MdEvent::StartList(Some(3)),
        MdEvent::StartItem,
        MdEvent::Text(s("x")),
        MdEvent::EndItem,
        MdEvent::EndList,
    ]);
    assert!(matches!(&nodes[0], Node::List { ordered: true, start: Some(3), .. }));
}

#[test]
fn quote_holds_its_paragraphs() {
    let nodes = AstBuilder::build(vec![
        MdEvent::StartBlockQuote,
        MdEvent::StartParagraph,
        MdEvent::Text(s("quoted")),
        MdEvent::EndParagraph,
        MdEvent::EndBlockQuote,
        MdEvent::Rule,
    ]);
    assert_eq!(dbg(&nodes), "[Quote { children: [Paragraph([Text(\"quoted\")])] }, Rule]");
}

#[test]
fn empty_quote() {
    let nodes = AstBuilder::build(vec![MdEvent::StartBlockQuote, MdEvent::EndBlockQuote]);
    assert_eq!(dbg(&nodes), "[Quote { children: [] }]");
}

#[test]
fn unmatched_end_of_emphasis_keeps_normal_style() {
    let nodes = AstBuilder::build(vec![
        MdEvent::StartParagraph,
        MdEvent::EndEmphasis,
        MdEvent::EndStrong,
        MdEvent::Text(s("plain")),
        MdEvent::EndParagraph,
    ]);
    assert_eq!(dbg(&nodes), "[Paragraph([Text(\"plain\")])]");
}

#[test]
fn nested_styles() {
    let nodes = AstBuilder::build(vec![
        MdEvent::StartParagraph,
        MdEvent::StartEmphasis,
        MdEvent::Text(s("a")),
        MdEvent::StartStrong,
        MdEvent::Text(s("b")),
        MdEvent::EndStrong,
        MdEvent::Text(s("c")),
        MdEvent::EndEmphasis,
        MdEvent::Code(s("x")),
        MdEvent::InlineMath(s("y^2")),
        MdEvent::EndParagraph,
    ]);
    assert_eq!(
        dbg(&nodes),
        "[Paragraph([Italic(\"a\"), Bold(\"b\"), Italic(\"c\"), Code(\"x\"), Math(\"y^2\")])]"
    );
}

#[test]
fn display_math_is_a_block() {
    let nodes = AstBuilder::build(vec![
        MdEvent::StartParagraph,
        MdEvent::Text(s("before")),
        MdEvent::DisplayMath(s("x=1")),
        MdEvent::Text(s("after")),
        MdEvent::EndParagraph,
    ]);
    assert_eq!(
        dbg(&nodes),
        "[Paragraph([Text(\"before\")]), MathBlock { latex: \"x=1\" }, Paragraph([Text(\"after\")])]"
    );
}

#[test]
fn table_with_header_and_rows() {
    let nodes = AstBuilder::build(vec![
        MdEvent::StartTable(vec![TableAlignment::Left, TableAlignment::Right]),
        MdEvent::StartTableHead,
        MdEvent::StartTableCell,
        MdEvent::Text(s("A")),
        MdEvent::EndTableCell,
        MdEvent::StartTableCell,
        MdEvent::Text(s("B")),
        MdEvent::EndTableCell,
        MdEvent::EndTableHead,
        MdEvent::StartTableRow,
        MdEvent::StartTableCell,
        MdEvent::Text(s("1")),
        MdEvent::EndTableCell,
        MdEvent::StartTableCell,
        MdEvent::DisplayMath(s("z")),
        MdEvent::EndTableCell,
        MdEvent::EndTableRow,
        MdEvent::EndTable,
    ]);
    assert_eq!(
        dbg(&nodes),
        "[Table { alignments: [Left, Right], header: [[Text(\"A\")], [Text(\"B\")]], rows: [[[Text(\"1\")], [Math(\"z\")]]] }]"
    );
}

#[test]
fn empty_table_is_dropped() {
    let nodes = AstBuilder::build(vec![
        MdEvent::StartTable(vec![TableAlignment::Unaligned]),
        MdEvent::EndTable,
    ]);
    assert!(nodes.is_empty());
}

#[test]
fn trailing_text_becomes_a_paragraph() {
    let nodes = AstBuilder::build(vec![MdEvent::Text(s("loose")), MdEvent::HardBreak, MdEvent::Text(s("text"))]);
    assert_eq!(dbg(&nodes), "[Paragraph([Text(\"loose\\ntext\")])]");
}

#[test]
fn no_events_no_nodes() {
    assert!(AstBuilder::build(Vec::new()).is_empty());
}

#[test]
fn other_events_are_ignored() {
    let nodes = AstBuilder::build(vec![MdEvent::Other, MdEvent::Other]);
    assert!(nodes.is_empty());
}

#[test]
fn flush_text_uses_current_style() {
    let mut b = AstBuilder {
        stack: Vec::new(),
        current_text: s("x"),
        style_stack: vec![],
        inlines: Vec::new(),
        in_code: false,
        code_lang: String::new(),
        code_buf: String::new(),
        heading_level: 0,
        table: None,
    };
    assert_eq!(b.current_style(), markdown_preview_service::ast::InlineStyle::Normal);
    b.flush_text();
    assert_eq!(b.inlines, vec![Inline::Text(s("x"))]);
    assert_eq!(b.current_text, "");
    // nothing is open: a paragraph goes nowhere
    b.flush_inlines_as_paragraph();
    assert!(b.inlines.is_empty());
    assert!(b.stack.is_empty());
}

/// Whether every node is well formed: no empty paragraph or heading, no
/// styled text without text, no table without rows, headings of level 1 to 3.
fn well_formed(nodes: &[Node]) -> bool {
    fn inlines_ok(c: &[Inline]) -> bool {
        c.iter().all(|i| match i {
            Inline::Text(t) | Inline::Bold(t) | Inline::Italic(t) => !t.is_empty(),
            _ => true,
        })
    }
    nodes.iter().all(|n| match n {
        Node::Heading { level, content } => (1..=3).contains(level) && !content.is_empty() && inlines_ok(content),
        Node::Paragraph(c) => !c.is_empty() && inlines_ok(c),
        Node::Quote { children } | Node::ListItem { children } => well_formed(children),
        Node::List { items, .. } => well_formed(items),
        Node::Table { header, rows, .. } => {
            (!header.is_empty() || !rows.is_empty())
                && header.iter().all(|c| inlines_ok(c))
                && rows.iter().all(|r| !r.is_empty() && r.iter().all(|c| inlines_ok(c)))
        }
        _ => true,
    })
}

#[test]
fn documents_are_well_formed() {
    let nodes = AstBuilder::build(vec![
        MdEvent::StartParagraph,
        MdEvent::EndParagraph,
        MdEvent::StartHeading(5),
        MdEvent::StartStrong,
        MdEvent::EndStrong,
        MdEvent::Text(s("h")),
        MdEvent::EndHeading,
        MdEvent::StartTable(vec![TableAlignment::Left]),
        MdEvent::StartTableHead,
        MdEvent::EndTableHead,
        MdEvent::StartTableRow,
        MdEvent::EndTableRow,
        MdEvent::EndTable,
        MdEvent::StartBlockQuote,
        MdEvent::StartParagraph,
        MdEvent::Text(s("")),
        MdEvent::EndParagraph,
        MdEvent::EndBlockQuote,
    ]);
    assert!(well_formed(&nodes));
    assert_eq!(nodes.len(), 2);
}

#[test]
fn heading_ended_before_any_start_has_level_zero() {
    let nodes = AstBuilder::build(vec![MdEvent::Text(s("a")), MdEvent::EndHeading]);
    assert!(matches!(&nodes[0], Node::Heading { level: 0, .. }));
}
