use markdown_preview_service::ast::{Inline, MdEvent, Node, TableAlignment};
use markdown_preview_service::markdown::{markdown_document, parse_markdown};

fn s(text: &str) -> String {
    text.to_string()
}

#[test]
fn parse_heading_and_emphasis() {
    let events = parse_markdown("# Title\n\nHello *world*");
    let shown = format!("{:?}", events);
    assert_eq!(
        shown,
        format!(
            "{:?}",
            vec![
                MdEvent::StartHeading(1),
                MdEvent::Text(s("Title")),
                MdEvent::EndHeading,
                MdEvent::StartParagraph,
                MdEvent::Text(s("Hello ")),
                MdEvent::StartEmphasis,
                MdEvent::Text(s("world")),
                MdEvent::EndEmphasis,
                MdEvent::EndParagraph,
            ]
        )
    );
}

#[test]
fn parse_fenced_and_indented_code() {
    let events = parse_markdown("```rust\nfn main() {}\n```\n");
    assert!(matches!(&events[0], MdEvent::StartCodeBlock(Some(l)) if l == "rust"));
    assert!(matches!(&events[1], MdEvent::Text(t) if t == "fn main() {}\n"));
    assert!(matches!(&events[2], MdEvent::EndCodeBlock));
    let events = parse_markdown("    code\n");
    assert!(matches!(&events[0], MdEvent::StartCodeBlock(None)));
}

#[test]
fn parse_table_alignments() {
    let events = parse_markdown("| a | b | c | d |\n|:--|:-:|--:|---|\n| 1 | 2 | 3 | 4 |\n");
    match &events[0] {
        MdEvent::StartTable(a) => assert_eq!(
            a,
            &vec![
                TableAlignment::Left,
                TableAlignment::Center,
                TableAlignment::Right,
                TableAlignment::Unaligned
            ]
        ),
        other => panic!("unexpected {:?}", other),
    }
}

#[test]
fn parse_math_and_task_markers() {
    let events = parse_markdown("- [x] $a+b$\n\n$$c$$\n");
    assert!(events.iter().any(|e| matches!(e, MdEvent::TaskListMarker(true))));
    assert!(events.iter().any(|e| matches!(e, MdEvent::InlineMath(m) if m == "a+b")));
    assert!(events.iter().any(|e| matches!(e, MdEvent::DisplayMath(m) if m == "c")));
}

#[test]
fn parse_skipped_events_are_other() {
    let events = parse_markdown("~~gone~~");
    assert!(events.iter().any(|e| matches!(e, MdEvent::Other)));
}

#[test]
fn document_of_markdown_text() {
    let nodes = markdown_document("# Title\n\nHello **world**\n\n---\n\n1. one\n2. two\n");
    assert_eq!(nodes.len(), 4);
    match &nodes[0] {
        Node::Heading { level, content } => {
            assert_eq!(*level, 1);
            assert_eq!(content, &vec![Inline::Text(s("Title"))]);
        }
        other => panic!("unexpected {:?}", other),
    }
    match &nodes[1] {
        Node::Paragraph(inlines) => {
            assert_eq!(inlines, &vec![Inline::Text(s("Hello ")), Inline::Bold(s("world"))])
        }
        other => panic!("unexpected {:?}", other),
    }
    assert!(matches!(&nodes[2], Node::Rule));
    match &nodes[3] {
        Node::List { ordered, start, items } => {
            assert!(*ordered);
            assert_eq!(*start, Some(1));
            assert_eq!(items.len(), 2);
        }
        other => panic!("unexpected {:?}", other),
    }
}

#[test]
fn document_of_task_list() {
    let nodes = markdown_document("- [ ] todo\n");
    let shown = format!("{:?}", nodes);
    assert!(shown.contains("\u{2610} todo"));
}
