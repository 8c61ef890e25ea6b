//! Parsing Markdown text into the events that the document builder folds.
use vstd::prelude::*;

use crate::ast::{events_view, nodes_view, document_v, AstBuilder, EventV, MdEvent, Node, TableAlignment};
use pulldown_cmark::{Alignment, CodeBlockKind, Event, Options, Parser, Tag, TagEnd};

verus! {

#[verifier::external_type_specification]
#[verifier::external_body]
pub struct ExEvent<'a>(Event<'a>);

#[verifier::external_type_specification]
#[verifier::external_body]
pub struct ExTag<'a>(Tag<'a>);

#[verifier::external_type_specification]
#[verifier::external_body]
pub struct ExTagEnd(TagEnd);

#[verifier::external_type_specification]
#[verifier::external_body]
pub struct ExAlignment(Alignment);

/// The events that `pulldown_cmark` reads from a Markdown text, with tables,
/// footnotes, strikethrough, task lists, smart punctuation and math enabled.
pub uninterp spec fn markdown_events_v(markdown: Seq<char>) -> Seq<EventV>;

/// `pulldown_cmark::Parser::new_ext` with tables, footnotes, strikethrough,
/// task lists, smart punctuation and math enabled, each event converted to
/// an [`MdEvent`]. Trusted: the events are a function of the text alone
/// (the parser reads nothing but the text and the options), named
/// `markdown_events_v`.
#[verifier::external_body]
pub fn parse_markdown(markdown: &str) -> (events: Vec<MdEvent>)
    ensures
        events_view(events@) == markdown_events_v(markdown@),
{
    let options = Options::ENABLE_TABLES | Options::ENABLE_FOOTNOTES | Options::ENABLE_STRIKETHROUGH
        | Options::ENABLE_TASKLISTS | Options::ENABLE_SMART_PUNCTUATION | Options::ENABLE_MATH;
    Parser::new_ext(markdown, options).map(md_event).collect()
}

/// Converts one `pulldown_cmark` event, one variant for one variant; the
/// events the builder does not read become `Other`. Only `parse_markdown`
/// calls it.
#[verifier::external_body]
fn md_event(event: Event<'_>) -> MdEvent {
    match event {
        Event::Start(Tag::CodeBlock(CodeBlockKind::Fenced(i))) => MdEvent::StartCodeBlock(Some(i.into_string())),
        Event::Start(Tag::CodeBlock(CodeBlockKind::Indented)) => MdEvent::StartCodeBlock(None),
        Event::Start(tag) => start_event(tag),
        Event::End(tag) => end_event(tag),
        Event::Text(t) => MdEvent::Text(t.into_string()),
        Event::Code(c) => MdEvent::Code(c.into_string()),
        Event::InlineMath(m) => MdEvent::InlineMath(m.into_string()),
        Event::DisplayMath(m) => MdEvent::DisplayMath(m.into_string()),
        Event::SoftBreak => MdEvent::SoftBreak,
        Event::HardBreak => MdEvent::HardBreak,
        Event::TaskListMarker(checked) => MdEvent::TaskListMarker(checked),
        Event::Rule => MdEvent::Rule,
        _ => MdEvent::Other,
    }
}

/// Converts the start of a `pulldown_cmark` tag other than a code block, one
/// variant for one variant. Only `md_event` calls it.
#[verifier::external_body]
fn start_event(tag: Tag<'_>) -> MdEvent {
    match tag {
        Tag::Table(a) => MdEvent::StartTable(a.into_iter().map(table_alignment).collect()),
        Tag::TableHead => MdEvent::StartTableHead,
        Tag::TableRow => MdEvent::StartTableRow,
        Tag::TableCell => MdEvent::StartTableCell,
        Tag::Heading { level, .. } => MdEvent::StartHeading(level as u8),
        Tag::BlockQuote(_) => MdEvent::StartBlockQuote,
        Tag::List(start) => MdEvent::StartList(start),
        Tag::Item => MdEvent::StartItem,
        Tag::Paragraph => MdEvent::StartParagraph,
        Tag::Emphasis => MdEvent::StartEmphasis,
        Tag::Strong => MdEvent::StartStrong,
        _ => MdEvent::Other,
    }
}

/// Converts the end of a `pulldown_cmark` tag, one variant for one variant.
/// Only `md_event` calls it.
#[verifier::external_body]
fn end_event(tag: TagEnd) -> MdEvent {
    match tag {
        TagEnd::CodeBlock => MdEvent::EndCodeBlock,
        TagEnd::Table => MdEvent::EndTable,
        TagEnd::TableHead => MdEvent::EndTableHead,
        TagEnd::TableRow => MdEvent::EndTableRow,
        TagEnd::TableCell => MdEvent::EndTableCell,
        TagEnd::Heading(_) => MdEvent::EndHeading,
        TagEnd::BlockQuote(_) => MdEvent::EndBlockQuote,
        TagEnd::List(_) => MdEvent::EndList,
        TagEnd::Item => MdEvent::EndItem,
        TagEnd::Paragraph => MdEvent::EndParagraph,
        TagEnd::Emphasis => MdEvent::EndEmphasis,
        TagEnd::Strong => MdEvent::EndStrong,
        _ => MdEvent::Other,
    }
}

/// Converts a `pulldown_cmark` column alignment. Only `start_event` calls it.
#[verifier::external_body]
fn table_alignment(a: Alignment) -> TableAlignment {
    match a {
        Alignment::None => TableAlignment::Unaligned,
        Alignment::Left => TableAlignment::Left,
        Alignment::Center => TableAlignment::Center,
        Alignment::Right => TableAlignment::Right,
    }
}

/// The document that a Markdown text describes: its events, folded.
pub fn markdown_document(markdown: &str) -> (nodes: Vec<Node>)
    ensures
        nodes_view(nodes@) == document_v(markdown_events_v(markdown@)),
{
    let events = parse_markdown(markdown);
    AstBuilder::build(events)
}

} // verus!
