//! The document tree and the builder that folds a stream of Markdown
//! events into it.
use vstd::prelude::*;

use crate::strings::{push_char, take_string, take_vec, trim, trim_str};
use vstd::string::StringExecFns;

verus! {

// ───────────────────────────── document tree ─────────────────────────────

/// A piece of inline text with its style.
#[derive(Clone, Debug, PartialEq, Eq)]
pub enum Inline {
    Text(String),
    Bold(String),
    Italic(String),
    Code(String),
    Math(String),
}

/// A block of the document.
#[derive(Debug)]
pub enum Node {
    Heading { level: u8, content: Vec<Inline> },
    Paragraph(Vec<Inline>),
    Quote { children: Vec<Node> },
    List { ordered: bool, start: Option<u64>, items: Vec<Node> },
    ListItem { children: Vec<Node> },
    CodeBlock { language: String, content: String },
    MathBlock { latex: String },
    Table {
        alignments: Vec<TableAlignment>,
        header: Vec<Vec<Inline>>,
        rows: Vec<Vec<Vec<Inline>>>,
    },
    Rule,
}

/// Horizontal alignment of a table column; `Unaligned` when the source
/// gives none.
#[derive(Clone, Copy, Debug, PartialEq, Eq, Structural)]
pub enum TableAlignment {
    Unaligned,
    Left,
    Center,
    Right,
}

// ───────────────────────────── models ─────────────────────────────

/// The mathematical model of an [`Inline`].
pub enum InlineV {
    Text(Seq<char>),
    Bold(Seq<char>),
    Italic(Seq<char>),
    Code(Seq<char>),
    Math(Seq<char>),
}

/// The mathematical model of a [`Node`].
pub enum NodeV {
    Heading { level: u8, content: Seq<InlineV> },
    Paragraph(Seq<InlineV>),
    Quote { children: Seq<NodeV> },
    List { ordered: bool, start: Option<u64>, items: Seq<NodeV> },
    ListItem { children: Seq<NodeV> },
    CodeBlock { language: Seq<char>, content: Seq<char> },
    MathBlock { latex: Seq<char> },
    Table {
        alignments: Seq<TableAlignment>,
        header: Seq<Seq<InlineV>>,
        rows: Seq<Seq<Seq<InlineV>>>,
    },
    Rule,
}

impl View for Inline {
    type V = InlineV;

    open spec fn view(&self) -> InlineV {
        match self {
            Inline::Text(s) => InlineV::Text(s@),
            Inline::Bold(s) => InlineV::Bold(s@),
            Inline::Italic(s) => InlineV::Italic(s@),
            Inline::Code(s) => InlineV::Code(s@),
            Inline::Math(s) => InlineV::Math(s@),
        }
    }
}

/// The model of a sequence of inlines.
pub open spec fn inlines_view(s: Seq<Inline>) -> Seq<InlineV> {
    s.map_values(|i: Inline| i@)
}

/// The model of one table row.
pub open spec fn row_view(r: Seq<Vec<Inline>>) -> Seq<Seq<InlineV>> {
    r.map_values(|c: Vec<Inline>| inlines_view(c@))
}

/// The model of a sequence of table rows.
pub open spec fn rows_view(r: Seq<Vec<Vec<Inline>>>) -> Seq<Seq<Seq<InlineV>>> {
    r.map_values(|row: Vec<Vec<Inline>>| row_view(row@))
}

/// The model of a node.
pub open spec fn node_view(n: Node) -> NodeV
    decreases n,
{
    match n {
        Node::Heading { level, content } => NodeV::Heading { level, content: inlines_view(content@) },
        Node::Paragraph(content) => NodeV::Paragraph(inlines_view(content@)),
        Node::Quote { children } => NodeV::Quote { children: nodes_view(children@) },
        Node::List { ordered, start, items } => NodeV::List {
            ordered,
            start,
            items: nodes_view(items@),
        },
        Node::ListItem { children } => NodeV::ListItem { children: nodes_view(children@) },
        Node::CodeBlock { language, content } => NodeV::CodeBlock {
            language: language@,
            content: content@,
        },
        Node::MathBlock { latex } => NodeV::MathBlock { latex: latex@ },
        Node::Table { alignments, header, rows } => NodeV::Table {
            alignments: alignments@,
            header: row_view(header@),
            rows: rows_view(rows@),
        },
        Node::Rule => NodeV::Rule,
    }
}

/// The model of a sequence of nodes.
pub open spec fn nodes_view(s: Seq<Node>) -> Seq<NodeV>
    decreases s,
{
    if s.len() == 0 {
        Seq::empty()
    } else {
        nodes_view(s.drop_last()).push(node_view(s.last()))
    }
}

impl View for Node {
    type V = NodeV;

    open spec fn view(&self) -> NodeV {
        node_view(*self)
    }
}

// ───────────────────────────── events ─────────────────────────────

/// The Markdown events that the builder reads: the start and end of each
/// block or span it knows, the leaves, and `Other` for everything it skips.
#[derive(Debug)]
pub enum MdEvent {
    /// A code block starts; `Some(info)` for a fenced one with its info
    /// string, `None` for an indented one.
    StartCodeBlock(Option<String>),
    EndCodeBlock,
    StartTable(Vec<TableAlignment>),
    EndTable,
    StartTableHead,
    EndTableHead,
    StartTableRow,
    EndTableRow,
    StartTableCell,
    EndTableCell,
    /// A heading starts, with its level (1 to 6).
    StartHeading(u8),
    EndHeading,
    StartBlockQuote,
    EndBlockQuote,
    /// A list starts; `Some(n)` for an ordered list that counts from `n`.
    StartList(Option<u64>),
    EndList,
    StartItem,
    EndItem,
    StartParagraph,
    EndParagraph,
    StartEmphasis,
    EndEmphasis,
    StartStrong,
    EndStrong,
    Text(String),
    Code(String),
    InlineMath(String),
    DisplayMath(String),
    SoftBreak,
    HardBreak,
    TaskListMarker(bool),
    Rule,
    Other,
}

/// The model of an [`MdEvent`].
pub enum EventV {
    StartCodeBlock(Option<Seq<char>>),
    EndCodeBlock,
    StartTable(Seq<TableAlignment>),
    EndTable,
    StartTableHead,
    EndTableHead,
    StartTableRow,
    EndTableRow,
    StartTableCell,
    EndTableCell,
    StartHeading(u8),
    EndHeading,
    StartBlockQuote,
    EndBlockQuote,
    StartList(Option<u64>),
    EndList,
    StartItem,
    EndItem,
    StartParagraph,
    EndParagraph,
    StartEmphasis,
    EndEmphasis,
    StartStrong,
    EndStrong,
    Text(Seq<char>),
    Code(Seq<char>),
    InlineMath(Seq<char>),
    DisplayMath(Seq<char>),
    SoftBreak,
    HardBreak,
    TaskListMarker(bool),
    Rule,
    Other,
}

impl View for MdEvent {
    type V = EventV;

    open spec fn view(&self) -> EventV {
        match self {
            MdEvent::StartCodeBlock(info) => EventV::StartCodeBlock(
                match info {
                    Some(s) => Some(s@),
                    None => None,
                },
            ),
            MdEvent::EndCodeBlock => EventV::EndCodeBlock,
            MdEvent::StartTable(a) => EventV::StartTable(a@),
            MdEvent::EndTable => EventV::EndTable,
            MdEvent::StartTableHead => EventV::StartTableHead,
            MdEvent::EndTableHead => EventV::EndTableHead,
            MdEvent::StartTableRow => EventV::StartTableRow,
            MdEvent::EndTableRow => EventV::EndTableRow,
            MdEvent::StartTableCell => EventV::StartTableCell,
            MdEvent::EndTableCell => EventV::EndTableCell,
            MdEvent::StartHeading(l) => EventV::StartHeading(*l),
            MdEvent::EndHeading => EventV::EndHeading,
            MdEvent::StartBlockQuote => EventV::StartBlockQuote,
            MdEvent::EndBlockQuote => EventV::EndBlockQuote,
            MdEvent::StartList(s) => EventV::StartList(*s),
            MdEvent::EndList => EventV::EndList,
            MdEvent::StartItem => EventV::StartItem,
            MdEvent::EndItem => EventV::EndItem,
            MdEvent::StartParagraph => EventV::StartParagraph,
            MdEvent::EndParagraph => EventV::EndParagraph,
            MdEvent::StartEmphasis => EventV::StartEmphasis,
            MdEvent::EndEmphasis => EventV::EndEmphasis,
            MdEvent::StartStrong => EventV::StartStrong,
            MdEvent::EndStrong => EventV::EndStrong,
            MdEvent::Text(s) => EventV::Text(s@),
            MdEvent::Code(s) => EventV::Code(s@),
            MdEvent::InlineMath(s) => EventV::InlineMath(s@),
            MdEvent::DisplayMath(s) => EventV::DisplayMath(s@),
            MdEvent::SoftBreak => EventV::SoftBreak,
            MdEvent::HardBreak => EventV::HardBreak,
            MdEvent::TaskListMarker(b) => EventV::TaskListMarker(*b),
            MdEvent::Rule => EventV::Rule,
            MdEvent::Other => EventV::Other,
        }
    }
}

// ───────────────────────────── builder state ─────────────────────────────

/// The style that plain text currently gets.
#[derive(Clone, Copy, Debug, PartialEq, Eq, Structural)]
pub enum InlineStyle {
    Normal,
    Bold,
    Italic,
}

/// An open block that collects the nodes inside it.
#[derive(Debug)]
pub enum Container {
    Root(Vec<Node>),
    BlockQuote(Vec<Node>),
    List { ordered: bool, start: Option<u64>, items: Vec<Node> },
    ListItem(Vec<Node>),
}

/// A table under construction.
#[derive(Debug)]
pub struct TableBuilder {
    pub alignments: Vec<TableAlignment>,
    pub header: Vec<Vec<Inline>>,
    pub rows: Vec<Vec<Vec<Inline>>>,
    pub current_row: Vec<Vec<Inline>>,
    pub in_head: bool,
    pub in_cell: bool,
}

/// Folds Markdown events into a list of [`Node`]s.
#[derive(Debug)]
pub struct AstBuilder {
    pub stack: Vec<Container>,
    pub current_text: String,
    pub style_stack: Vec<InlineStyle>,
    pub inlines: Vec<Inline>,
    pub in_code: bool,
    pub code_lang: String,
    pub code_buf: String,
    pub heading_level: u8,
    pub table: Option<TableBuilder>,
}

/// The model of a [`Container`].
pub enum ContainerV {
    Root(Seq<NodeV>),
    BlockQuote(Seq<NodeV>),
    List { ordered: bool, start: Option<u64>, items: Seq<NodeV> },
    ListItem(Seq<NodeV>),
}

/// The model of a [`TableBuilder`].
pub struct TableV {
    pub alignments: Seq<TableAlignment>,
    pub header: Seq<Seq<InlineV>>,
    pub rows: Seq<Seq<Seq<InlineV>>>,
    pub current_row: Seq<Seq<InlineV>>,
    pub in_head: bool,
    pub in_cell: bool,
}

/// The model of an [`AstBuilder`].
pub struct BuilderV {
    pub stack: Seq<ContainerV>,
    pub current_text: Seq<char>,
    pub styles: Seq<InlineStyle>,
    pub inlines: Seq<InlineV>,
    pub in_code: bool,
    pub code_lang: Seq<char>,
    pub code_buf: Seq<char>,
    pub heading_level: u8,
    pub table: Option<TableV>,
}

impl View for Container {
    type V = ContainerV;

    open spec fn view(&self) -> ContainerV {
        match self {
            Container::Root(c) => ContainerV::Root(nodes_view(c@)),
            Container::BlockQuote(c) => ContainerV::BlockQuote(nodes_view(c@)),
            Container::List { ordered, start, items } => ContainerV::List {
                ordered: *ordered,
                start: *start,
                items: nodes_view(items@),
            },
            Container::ListItem(c) => ContainerV::ListItem(nodes_view(c@)),
        }
    }
}

impl View for TableBuilder {
    type V = TableV;

    open spec fn view(&self) -> TableV {
        TableV {
            alignments: self.alignments@,
            header: row_view(self.header@),
            rows: rows_view(self.rows@),
            current_row: row_view(self.current_row@),
            in_head: self.in_head,
            in_cell: self.in_cell,
        }
    }
}

/// The model of an optional table.
pub open spec fn table_opt_view(t: Option<TableBuilder>) -> Option<TableV> {
    match t {
        Some(t) => Some(t@),
        None => None,
    }
}

impl View for AstBuilder {
    type V = BuilderV;

    open spec fn view(&self) -> BuilderV {
        BuilderV {
            stack: self.stack@.map_values(|c: Container| c@),
            current_text: self.current_text@,
            styles: self.style_stack@,
            inlines: inlines_view(self.inlines@),
            in_code: self.in_code,
            code_lang: self.code_lang@,
            code_buf: self.code_buf@,
            heading_level: self.heading_level,
            table: table_opt_view(self.table),
        }
    }
}

// ───────────────────────────── the fold, as mathematics ─────────────────────────────

/// The builder before any event: an empty root, no text, the normal style.
pub open spec fn init_v() -> BuilderV {
    BuilderV {
        stack: seq![ContainerV::Root(Seq::empty())],
        current_text: Seq::empty(),
        styles: seq![InlineStyle::Normal],
        inlines: Seq::empty(),
        in_code: false,
        code_lang: Seq::empty(),
        code_buf: Seq::empty(),
        heading_level: 0,
        table: None,
    }
}

/// The style on top of the style stack, `Normal` when it is empty.
pub open spec fn current_style_v(styles: Seq<InlineStyle>) -> InlineStyle {
    if styles.len() == 0 {
        InlineStyle::Normal
    } else {
        styles.last()
    }
}

/// Plain text in the given style.
pub open spec fn styled_v(style: InlineStyle, text: Seq<char>) -> InlineV {
    match style {
        InlineStyle::Normal => InlineV::Text(text),
        InlineStyle::Bold => InlineV::Bold(text),
        InlineStyle::Italic => InlineV::Italic(text),
    }
}

/// Whether the builder is inside a table cell.
pub open spec fn in_cell_v(b: BuilderV) -> bool {
    match b.table {
        Some(t) => t.in_cell,
        None => false,
    }
}

/// `node` added to the innermost open container (nothing when none is open).
pub open spec fn push_node_v(b: BuilderV, node: NodeV) -> BuilderV {
    if b.stack.len() == 0 {
        b
    } else {
        let last = (b.stack.len() - 1) as int;
        let c = match b.stack[last] {
            ContainerV::Root(ns) => ContainerV::Root(ns.push(node)),
            ContainerV::BlockQuote(ns) => ContainerV::BlockQuote(ns.push(node)),
            ContainerV::List { ordered, start, items } => ContainerV::List {
                ordered,
                start,
                items: items.push(node),
            },
            ContainerV::ListItem(ns) => ContainerV::ListItem(ns.push(node)),
        };
        BuilderV { stack: b.stack.update(last, c), ..b }
    }
}

/// Pending text becomes an inline in the current style.
pub open spec fn flush_text_v(b: BuilderV) -> BuilderV {
    if b.current_text.len() == 0 {
        b
    } else {
        BuilderV {
            current_text: Seq::empty(),
            inlines: b.inlines.push(styled_v(current_style_v(b.styles), b.current_text)),
            ..b
        }
    }
}

/// Pending inlines become a paragraph, except inside a table cell.
pub open spec fn flush_paragraph_v(b: BuilderV) -> BuilderV {
    if in_cell_v(b) {
        b
    } else if b.inlines.len() == 0 {
        b
    } else {
        push_node_v(BuilderV { inlines: Seq::empty(), ..b }, NodeV::Paragraph(b.inlines))
    }
}

/// Both flushes, text first: what every block boundary does.
pub open spec fn flush_all_v(b: BuilderV) -> BuilderV {
    flush_paragraph_v(flush_text_v(b))
}

/// The heading level that the document keeps: 1, 2, or 3 for all deeper ones.
pub open spec fn heading_level_v(level: u8) -> u8 {
    if level == 1 {
        1
    } else if level == 2 {
        2
    } else {
        3
    }
}

/// The text that a task list marker adds: a checked or an empty ballot box
/// and a space.
pub open spec fn task_marker_v(checked: bool) -> Seq<char> {
    if checked {
        seq!['\u{2611}', ' ']
    } else {
        seq!['\u{2610}', ' ']
    }
}

/// The builder with `t` as its open table.
pub open spec fn with_table_v(b: BuilderV, t: TableV) -> BuilderV {
    BuilderV { table: Some(t), ..b }
}

/// The kind of container that an end event closes.
#[derive(Clone, Copy, Debug, PartialEq, Eq, Structural)]
pub enum ContainerKind {
    BlockQuote,
    List,
    ListItem,
}

/// Closes the innermost container: the popped container becomes a node in
/// its parent when it is of the kind that the end event closes.
pub open spec fn close_container_v(b: BuilderV, kind: ContainerKind) -> BuilderV {
    if b.stack.len() == 0 {
        b
    } else {
        let popped = b.stack.last();
        let rest = BuilderV { stack: b.stack.drop_last(), ..b };
        match popped {
            ContainerV::BlockQuote(children) => if kind == ContainerKind::BlockQuote {
                push_node_v(rest, NodeV::Quote { children })
            } else {
                rest
            },
            ContainerV::List { ordered, start, items } => if kind == ContainerKind::List {
                push_node_v(rest, NodeV::List { ordered, start, items })
            } else {
                rest
            },
            ContainerV::ListItem(children) => if kind == ContainerKind::ListItem {
                push_node_v(rest, NodeV::ListItem { children })
            } else {
                rest
            },
            ContainerV::Root(_) => rest,
        }
    }
}

/// What one event does to the builder.
pub open spec fn step_v(b: BuilderV, e: EventV) -> BuilderV {
    match e {
        EventV::StartCodeBlock(info) => BuilderV {
            in_code: true,
            code_lang: match info {
                Some(l) => trim(l),
                None => Seq::empty(),
            },
            code_buf: Seq::empty(),
            ..b
        },
        EventV::EndCodeBlock => push_node_v(
            BuilderV { in_code: false, code_lang: Seq::empty(), code_buf: Seq::empty(), ..b },
            NodeV::CodeBlock { language: b.code_lang, content: b.code_buf },
        ),
        EventV::StartTable(alignments) => with_table_v(
            flush_all_v(b),
            TableV {
                alignments,
                header: Seq::empty(),
                rows: Seq::empty(),
                current_row: Seq::empty(),
                in_head: false,
                in_cell: false,
            },
        ),
        EventV::EndTable => {
            let b1 = flush_text_v(b);
            match b1.table {
                Some(t) => {
                    let b2 = BuilderV { table: None, ..b1 };
                    if t.header.len() > 0 || t.rows.len() > 0 {
                        push_node_v(
                            b2,
                            NodeV::Table { alignments: t.alignments, header: t.header, rows: t.rows },
                        )
                    } else {
                        b2
                    }
                },
                None => b1,
            }
        },
        EventV::StartTableHead => match b.table {
            Some(t) => with_table_v(b, TableV { in_head: true, ..t }),
            None => b,
        },
        EventV::EndTableHead => match b.table {
            Some(t) => if t.current_row.len() > 0 {
                with_table_v(
                    b,
                    TableV { header: t.current_row, current_row: Seq::empty(), in_head: false, ..t },
                )
            } else {
                with_table_v(b, TableV { in_head: false, ..t })
            },
            None => b,
        },
        EventV::StartTableRow => match b.table {
            Some(t) => with_table_v(b, TableV { current_row: Seq::empty(), ..t }),
            None => b,
        },
        EventV::EndTableRow => {
            let b1 = flush_text_v(b);
            match b1.table {
                Some(t) => {
                    let row = t.current_row;
                    let t1 = TableV { current_row: Seq::empty(), ..t };
                    if row.len() == 0 {
                        with_table_v(b1, t1)
                    } else if t.in_head {
                        with_table_v(b1, TableV { header: row, ..t1 })
                    } else {
                        with_table_v(b1, TableV { rows: t.rows.push(row), ..t1 })
                    }
                },
                None => b1,
            }
        },
        EventV::StartTableCell => {
            let b1 = BuilderV { inlines: Seq::empty(), ..flush_text_v(b) };
            match b1.table {
                Some(t) => with_table_v(b1, TableV { in_cell: true, ..t }),
                None => b1,
            }
        },
        EventV::EndTableCell => {
            let b1 = flush_text_v(b);
            let b2 = BuilderV { inlines: Seq::empty(), ..b1 };
            match b1.table {
                Some(t) => with_table_v(
                    b2,
                    TableV { current_row: t.current_row.push(b1.inlines), in_cell: false, ..t },
                ),
                None => b2,
            }
        },
        EventV::StartHeading(level) => BuilderV {
            heading_level: heading_level_v(level),
            inlines: Seq::empty(),
            ..flush_all_v(b)
        },
        EventV::EndHeading => {
            let b1 = flush_text_v(b);
            let b2 = BuilderV { inlines: Seq::empty(), ..b1 };
            if b1.inlines.len() > 0 {
                push_node_v(b2, NodeV::Heading { level: b1.heading_level, content: b1.inlines })
            } else {
                b2
            }
        },
        EventV::StartBlockQuote => {
            let b1 = flush_all_v(b);
            BuilderV { stack: b1.stack.push(ContainerV::BlockQuote(Seq::empty())), ..b1 }
        },
        EventV::EndBlockQuote => close_container_v(flush_all_v(b), ContainerKind::BlockQuote),
        EventV::StartList(start) => {
            let b1 = flush_all_v(b);
            BuilderV {
                stack: b1.stack.push(
                    ContainerV::List { ordered: start is Some, start, items: Seq::empty() },
                ),
                ..b1
            }
        },
        EventV::EndList => close_container_v(flush_all_v(b), ContainerKind::List),
        EventV::StartItem => {
            let b1 = flush_all_v(b);
            BuilderV { stack: b1.stack.push(ContainerV::ListItem(Seq::empty())), ..b1 }
        },
        EventV::EndItem => close_container_v(flush_all_v(b), ContainerKind::ListItem),
        EventV::StartParagraph => BuilderV { inlines: Seq::empty(), ..flush_text_v(b) },
        EventV::EndParagraph => {
            let b1 = flush_text_v(b);
            if b1.inlines.len() == 0 || in_cell_v(b1) {
                b1
            } else {
                push_node_v(BuilderV { inlines: Seq::empty(), ..b1 }, NodeV::Paragraph(b1.inlines))
            }
        },
        EventV::StartEmphasis => {
            let b1 = flush_text_v(b);
            BuilderV { styles: b1.styles.push(InlineStyle::Italic), ..b1 }
        },
        EventV::StartStrong => {
            let b1 = flush_text_v(b);
            BuilderV { styles: b1.styles.push(InlineStyle::Bold), ..b1 }
        },
        EventV::EndEmphasis | EventV::EndStrong => {
            let b1 = flush_text_v(b);
            if b1.styles.len() > 1 {
                BuilderV { styles: b1.styles.drop_last(), ..b1 }
            } else {
                b1
            }
        },
        EventV::Text(t) => if b.in_code {
            BuilderV { code_buf: b.code_buf + t, ..b }
        } else {
            BuilderV { current_text: b.current_text + t, ..b }
        },
        EventV::Code(s) => {
            let b1 = flush_text_v(b);
            BuilderV { inlines: b1.inlines.push(InlineV::Code(s)), ..b1 }
        },
        EventV::InlineMath(s) => {
            let b1 = flush_text_v(b);
            BuilderV { inlines: b1.inlines.push(InlineV::Math(s)), ..b1 }
        },
        EventV::DisplayMath(s) => {
            let b1 = flush_text_v(b);
            if in_cell_v(b1) {
                BuilderV { inlines: b1.inlines.push(InlineV::Math(s)), ..b1 }
            } else {
                push_node_v(flush_paragraph_v(b1), NodeV::MathBlock { latex: s })
            }
        },
        EventV::SoftBreak | EventV::HardBreak => if b.in_code {
            BuilderV { code_buf: b.code_buf.push('\n'), ..b }
        } else {
            BuilderV { current_text: b.current_text.push('\n'), ..b }
        },
        EventV::TaskListMarker(checked) => BuilderV {
            current_text: b.current_text + task_marker_v(checked),
            ..b
        },
        EventV::Rule => push_node_v(flush_all_v(b), NodeV::Rule),
        EventV::Other => b,
    }
}

/// The builder after the given events, one by one from `b`.
pub open spec fn run_v(b: BuilderV, events: Seq<EventV>) -> BuilderV
    decreases events.len(),
{
    if events.len() == 0 {
        b
    } else {
        step_v(run_v(b, events.drop_last()), events.last())
    }
}

/// What the document is once the events are over: pending text and inlines
/// are flushed, and the root's nodes are the result (none when the innermost
/// open container is not the root).
pub open spec fn finish_v(b: BuilderV) -> Seq<NodeV> {
    let f = flush_all_v(b);
    if f.stack.len() == 0 {
        Seq::empty()
    } else {
        match f.stack.last() {
            ContainerV::Root(nodes) => nodes,
            _ => Seq::empty(),
        }
    }
}

/// The document that a stream of events describes.
pub open spec fn document_v(events: Seq<EventV>) -> Seq<NodeV> {
    finish_v(run_v(init_v(), events))
}

/// The models of a sequence of events.
pub open spec fn events_view(s: Seq<MdEvent>) -> Seq<EventV> {
    s.map_values(|e: MdEvent| e@)
}

// ───────────────────────────── view lemmas ─────────────────────────────

proof fn lemma_nodes_view_push(s: Seq<Node>, n: Node)
    ensures
        nodes_view(s.push(n)) == nodes_view(s).push(node_view(n)),
{
    assert(s.push(n).drop_last() =~= s);
}

/// The model of a sequence of nodes is the model of each node, in order.
pub proof fn lemma_nodes_view_index(s: Seq<Node>)
    ensures
        nodes_view(s).len() == s.len(),
        forall|i: int| 0 <= i < s.len() ==> #[trigger] nodes_view(s)[i] == node_view(s[i]),
    decreases s.len(),
{
    if s.len() > 0 {
        lemma_nodes_view_index(s.drop_last());
        assert forall|i: int| 0 <= i < s.len() implies #[trigger] nodes_view(s)[i] == node_view(s[i]) by {
            if i < s.len() - 1 {
                assert(s.drop_last()[i] == s[i]);
            }
        }
    }
}

proof fn lemma_inlines_view_push(s: Seq<Inline>, i: Inline)
    ensures
        inlines_view(s.push(i)) == inlines_view(s).push(i@),
{
    assert(inlines_view(s.push(i)) =~= inlines_view(s).push(i@));
}

proof fn lemma_row_view_push(s: Seq<Vec<Inline>>, c: Vec<Inline>)
    ensures
        row_view(s.push(c)) == row_view(s).push(inlines_view(c@)),
{
    assert(row_view(s.push(c)) =~= row_view(s).push(inlines_view(c@)));
}

proof fn lemma_rows_view_push(s: Seq<Vec<Vec<Inline>>>, r: Vec<Vec<Inline>>)
    ensures
        rows_view(s.push(r)) == rows_view(s).push(row_view(r@)),
{
    assert(rows_view(s.push(r)) =~= rows_view(s).push(row_view(r@)));
}

proof fn lemma_stack_view_push(s: Seq<Container>, c: Container)
    ensures
        s.push(c).map_values(|c: Container| c@) == s.map_values(|c: Container| c@).push(c@),
{
    assert(s.push(c).map_values(|c: Container| c@) =~= s.map_values(|c: Container| c@).push(c@));
}

proof fn lemma_stack_view_pop(s: Seq<Container>)
    requires
        s.len() > 0,
    ensures
        s.drop_last().map_values(|c: Container| c@) == s.map_values(|c: Container| c@).drop_last(),
{
    assert(s.drop_last().map_values(|c: Container| c@) =~= s.map_values(|c: Container| c@).drop_last());
}

// ───────────────────────────── the builder ─────────────────────────────

impl AstBuilder {
    /// Adds `node` to the innermost open container; does nothing when no
    /// container is open.
    pub fn push_node(&mut self, node: Node)
        ensures
            final(self)@ == push_node_v(old(self)@, node@),
    {
        let ghost s0 = self.stack@;
        proof {
            if s0.len() > 0 {
                lemma_stack_view_pop(s0);
            }
        }
        match self.stack.pop() {
            Some(Container::Root(mut children)) => {
                proof { lemma_nodes_view_push(children@, node); }
                children.push(node);
                proof { lemma_stack_view_push(self.stack@, Container::Root(children)); }
                self.stack.push(Container::Root(children));
            },
            Some(Container::BlockQuote(mut children)) => {
                proof { lemma_nodes_view_push(children@, node); }
                children.push(node);
                proof { lemma_stack_view_push(self.stack@, Container::BlockQuote(children)); }
                self.stack.push(Container::BlockQuote(children));
            },
            Some(Container::List { ordered, start, mut items }) => {
                proof { lemma_nodes_view_push(items@, node); }
                items.push(node);
                proof { lemma_stack_view_push(self.stack@, Container::List { ordered, start, items }); }
                self.stack.push(Container::List { ordered, start, items });
            },
            Some(Container::ListItem(mut children)) => {
                proof { lemma_nodes_view_push(children@, node); }
                children.push(node);
                proof { lemma_stack_view_push(self.stack@, Container::ListItem(children)); }
                self.stack.push(Container::ListItem(children));
            },
            None => {},
        }
        assert(final(self)@.stack =~= push_node_v(old(self)@, node@).stack);
    }

    /// Opens a container inside the current one.
    pub fn push_container(&mut self, c: Container)
        ensures
            final(self)@ == (BuilderV { stack: old(self)@.stack.push(c@), ..old(self)@ }),
    {
        proof { lemma_stack_view_push(self.stack@, c); }
        self.stack.push(c);
    }

    /// The style that plain text gets now: the top of the style stack,
    /// `Normal` when it is empty.
    pub fn current_style(&self) -> (s: InlineStyle)
        ensures
            s == current_style_v(self@.styles),
    {
        let n = self.style_stack.len();
        if n == 0 {
            InlineStyle::Normal
        } else {
            self.style_stack[n - 1]
        }
    }

    /// Turns the pending text, if any, into an inline in the current style.
    pub fn flush_text(&mut self)
        ensures
            final(self)@ == flush_text_v(old(self)@),
    {
        let text = take_string(&mut self.current_text);
        let empty = text.as_str().is_empty();
        if empty {
            assert(self.current_text@ =~= old(self).current_text@);
            return;
        }
        let inline = match self.current_style() {
            InlineStyle::Normal => Inline::Text(text),
            InlineStyle::Bold => Inline::Bold(text),
            InlineStyle::Italic => Inline::Italic(text),
        };
        proof { lemma_inlines_view_push(self.inlines@, inline); }
        self.inlines.push(inline);
    }

    /// Turns the pending inlines, if any, into a paragraph, unless the
    /// builder is inside a table cell.
    pub fn flush_inlines_as_paragraph(&mut self)
        ensures
            final(self)@ == flush_paragraph_v(old(self)@),
    {
        let in_cell = match &self.table {
            Some(t) => t.in_cell,
            None => false,
        };
        if in_cell {
            return;
        }
        let inlines = take_vec(&mut self.inlines);
        if inlines.len() > 0 {
            assert(self@.inlines =~= Seq::<InlineV>::empty());
            assert(Node::Paragraph(inlines)@ == NodeV::Paragraph(old(self)@.inlines));
            self.push_node(Node::Paragraph(inlines));
        } else {
            assert(self.inlines@ =~= old(self).inlines@);
            assert(self@.inlines =~= old(self)@.inlines);
        }
    }

    /// Closes the innermost container; it becomes a node in its parent when
    /// it is of the kind `kind`.
    fn close_container(&mut self, kind: ContainerKind)
        ensures
            final(self)@ == close_container_v(old(self)@, kind),
    {
        let ghost s0 = self.stack@;
        proof {
            if s0.len() > 0 {
                lemma_stack_view_pop(s0);
            }
        }
        match self.stack.pop() {
            Some(Container::BlockQuote(children)) => {
                if kind == ContainerKind::BlockQuote {
                    self.push_node(Node::Quote { children });
                }
            },
            Some(Container::List { ordered, start, items }) => {
                if kind == ContainerKind::List {
                    self.push_node(Node::List { ordered, start, items });
                }
            },
            Some(Container::ListItem(children)) => {
                if kind == ContainerKind::ListItem {
                    self.push_node(Node::ListItem { children });
                }
            },
            Some(Container::Root(_)) => {},
            None => {},
        }
    }

    /// Whether the builder is inside a table cell.
    fn in_table_cell(&self) -> (r: bool)
        ensures
            r == in_cell_v(self@),
    {
        match &self.table {
            Some(t) => t.in_cell,
            None => false,
        }
    }

    fn start_code_block(&mut self, info: Option<String>)
        ensures
            final(self)@ == step_v(old(self)@, MdEvent::StartCodeBlock(info)@),
    {
        self.in_code = true;
        self.code_lang = match info {
            Some(lang) => trim_str(lang.as_str()),
            None => String::new(),
        };
        self.code_buf = String::new();
    }

    fn end_code_block(&mut self)
        ensures
            final(self)@ == step_v(old(self)@, MdEvent::EndCodeBlock@),
    {
        let language = take_string(&mut self.code_lang);
        let content = take_string(&mut self.code_buf);
        self.in_code = false;
        self.push_node(Node::CodeBlock { language, content });
    }

    fn start_table(&mut self, alignments: Vec<TableAlignment>)
        ensures
            final(self)@ == step_v(old(self)@, MdEvent::StartTable(alignments)@),
    {
        self.flush_all();
        let t = TableBuilder {
            alignments,
            header: Vec::new(),
            rows: Vec::new(),
            current_row: Vec::new(),
            in_head: false,
            in_cell: false,
        };
        assert(t@.header =~= Seq::<Seq<InlineV>>::empty());
        assert(t@.rows =~= Seq::<Seq<Seq<InlineV>>>::empty());
        assert(t@.current_row =~= Seq::<Seq<InlineV>>::empty());
        self.table = Some(t);
    }

    fn end_table(&mut self)
        ensures
            final(self)@ == step_v(old(self)@, MdEvent::EndTable@),
    {
        self.flush_text();
        match self.table.take() {
            Some(t) => {
                if t.header.len() > 0 || t.rows.len() > 0 {
                    self.push_node(
                        Node::Table { alignments: t.alignments, header: t.header, rows: t.rows },
                    );
                }
            },
            None => {},
        }
    }

    fn start_table_head(&mut self)
        ensures
            final(self)@ == step_v(old(self)@, MdEvent::StartTableHead@),
    {
        match self.table.take() {
            Some(mut t) => {
                t.in_head = true;
                self.table = Some(t);
            },
            None => {},
        }
    }

    fn end_table_head(&mut self)
        ensures
            final(self)@ == step_v(old(self)@, MdEvent::EndTableHead@),
    {
        match self.table.take() {
            Some(mut t) => {
                if t.current_row.len() > 0 {
                    t.header = take_vec(&mut t.current_row);
                    assert(t@.current_row =~= Seq::<Seq<InlineV>>::empty());
                }
                t.in_head = false;
                self.table = Some(t);
            },
            None => {},
        }
    }

    fn start_table_row(&mut self)
        ensures
            final(self)@ == step_v(old(self)@, MdEvent::StartTableRow@),
    {
        match self.table.take() {
            Some(mut t) => {
                t.current_row = Vec::new();
                assert(t@.current_row =~= Seq::<Seq<InlineV>>::empty());
                self.table = Some(t);
            },
            None => {},
        }
    }

    fn end_table_row(&mut self)
        ensures
            final(self)@ == step_v(old(self)@, MdEvent::EndTableRow@),
    {
        self.flush_text();
        match self.table.take() {
            Some(mut t) => {
                let row = take_vec(&mut t.current_row);
                assert(t@.current_row =~= Seq::<Seq<InlineV>>::empty());
                if row.len() > 0 {
                    if t.in_head {
                        t.header = row;
                    } else {
                        proof { lemma_rows_view_push(t.rows@, row); }
                        t.rows.push(row);
                    }
                } else {
                    assert(row_view(row@) =~= Seq::<Seq<InlineV>>::empty());
                }
                self.table = Some(t);
            },
            None => {},
        }
    }

    fn start_table_cell(&mut self)
        ensures
            final(self)@ == step_v(old(self)@, MdEvent::StartTableCell@),
    {
        self.flush_text();
        self.inlines = Vec::new();
        assert(self@.inlines =~= Seq::<InlineV>::empty());
        match self.table.take() {
            Some(mut t) => {
                t.in_cell = true;
                self.table = Some(t);
            },
            None => {},
        }
    }

    fn end_table_cell(&mut self)
        ensures
            final(self)@ == step_v(old(self)@, MdEvent::EndTableCell@),
    {
        self.flush_text();
        let cell = take_vec(&mut self.inlines);
        assert(self@.inlines =~= Seq::<InlineV>::empty());
        match self.table.take() {
            Some(mut t) => {
                proof { lemma_row_view_push(t.current_row@, cell); }
                t.current_row.push(cell);
                t.in_cell = false;
                self.table = Some(t);
            },
            None => {},
        }
    }

    fn start_heading(&mut self, level: u8)
        ensures
            final(self)@ == step_v(old(self)@, MdEvent::StartHeading(level)@),
    {
        self.flush_all();
        self.heading_level = if level == 1 {
            1
        } else if level == 2 {
            2
        } else {
            3
        };
        self.inlines = Vec::new();
        assert(self@.inlines =~= Seq::<InlineV>::empty());
    }

    fn end_heading(&mut self)
        ensures
            final(self)@ == step_v(old(self)@, MdEvent::EndHeading@),
    {
        self.flush_text();
        let content = take_vec(&mut self.inlines);
        assert(self@.inlines =~= Seq::<InlineV>::empty());
        if content.len() > 0 {
            let level = self.heading_level;
            self.push_node(Node::Heading { level, content });
        }
    }

    fn end_paragraph(&mut self)
        ensures
            final(self)@ == step_v(old(self)@, MdEvent::EndParagraph@),
    {
        self.flush_text();
        let inlines = take_vec(&mut self.inlines);
        if inlines.len() > 0 {
            if self.in_table_cell() {
                self.inlines = inlines;
            } else {
                assert(self@.inlines =~= Seq::<InlineV>::empty());
                self.push_node(Node::Paragraph(inlines));
            }
        } else {
            assert(self@.inlines =~= inlines_view(inlines@));
        }
    }

    fn end_style(&mut self)
        ensures
            final(self)@ == step_v(old(self)@, MdEvent::EndEmphasis@),
            final(self)@ == step_v(old(self)@, MdEvent::EndStrong@),
    {
        self.flush_text();
        if self.style_stack.len() > 1 {
            self.style_stack.pop();
        }
    }

    fn push_inline(&mut self, inline: Inline)
        ensures
            final(self)@ == (BuilderV { inlines: old(self)@.inlines.push(inline@), ..old(self)@ }),
    {
        proof { lemma_inlines_view_push(self.inlines@, inline); }
        self.inlines.push(inline);
    }

    fn display_math(&mut self, latex: String)
        ensures
            final(self)@ == step_v(old(self)@, MdEvent::DisplayMath(latex)@),
    {
        self.flush_text();
        if self.in_table_cell() {
            self.push_inline(Inline::Math(latex));
        } else {
            self.flush_inlines_as_paragraph();
            self.push_node(Node::MathBlock { latex });
        }
    }

    fn line_break(&mut self)
        ensures
            final(self)@ == step_v(old(self)@, MdEvent::SoftBreak@),
            final(self)@ == step_v(old(self)@, MdEvent::HardBreak@),
    {
        if self.in_code {
            push_char(&mut self.code_buf, '\n');
        } else {
            push_char(&mut self.current_text, '\n');
        }
    }

    fn text(&mut self, t: String)
        ensures
            final(self)@ == step_v(old(self)@, MdEvent::Text(t)@),
    {
        if self.in_code {
            self.code_buf.append(t.as_str());
        } else {
            self.current_text.append(t.as_str());
        }
    }

    fn task_list_marker(&mut self, checked: bool)
        ensures
            final(self)@ == step_v(old(self)@, MdEvent::TaskListMarker(checked)@),
    {
        let ghost t0 = self.current_text@;
        push_char(&mut self.current_text, if checked { '\u{2611}' } else { '\u{2610}' });
        push_char(&mut self.current_text, ' ');
        assert(self.current_text@ =~= t0 + task_marker_v(checked));
    }

    /// Applies one event: opens or closes a block, collects text, or
    /// changes the inline style, as the event says.
    pub fn handle_event(&mut self, event: MdEvent)
        ensures
            final(self)@ == step_v(old(self)@, event@),
    {
        match event {
            MdEvent::StartCodeBlock(info) => self.start_code_block(info),
            MdEvent::EndCodeBlock => self.end_code_block(),
            MdEvent::StartTable(alignments) => self.start_table(alignments),
            MdEvent::EndTable => self.end_table(),
            MdEvent::StartTableHead => self.start_table_head(),
            MdEvent::EndTableHead => self.end_table_head(),
            MdEvent::StartTableRow => self.start_table_row(),
            MdEvent::EndTableRow => self.end_table_row(),
            MdEvent::StartTableCell => self.start_table_cell(),
            MdEvent::EndTableCell => self.end_table_cell(),
            MdEvent::StartHeading(level) => self.start_heading(level),
            MdEvent::EndHeading => self.end_heading(),
            MdEvent::StartBlockQuote => {
                self.flush_all();
                self.push_container(Container::BlockQuote(Vec::new()));
            },
            MdEvent::EndBlockQuote => {
                self.flush_all();
                self.close_container(ContainerKind::BlockQuote);
            },
            MdEvent::StartList(start) => {
                self.flush_all();
                self.push_container(Container::List { ordered: start.is_some(), start, items: Vec::new() });
            },
            MdEvent::EndList => {
                self.flush_all();
                self.close_container(ContainerKind::List);
            },
            MdEvent::StartItem => {
                self.flush_all();
                self.push_container(Container::ListItem(Vec::new()));
            },
            MdEvent::EndItem => {
                self.flush_all();
                self.close_container(ContainerKind::ListItem);
            },
            MdEvent::StartParagraph => {
                self.flush_text();
                self.inlines = Vec::new();
                assert(self@.inlines =~= Seq::<InlineV>::empty());
            },
            MdEvent::EndParagraph => self.end_paragraph(),
            MdEvent::StartEmphasis => {
                self.flush_text();
                self.style_stack.push(InlineStyle::Italic);
            },
            MdEvent::EndEmphasis => self.end_style(),
            MdEvent::StartStrong => {
                self.flush_text();
                self.style_stack.push(InlineStyle::Bold);
            },
            MdEvent::EndStrong => self.end_style(),
            MdEvent::Text(t) => self.text(t),
            MdEvent::Code(code) => {
                self.flush_text();
                self.push_inline(Inline::Code(code));
            },
            MdEvent::InlineMath(math) => {
                self.flush_text();
                self.push_inline(Inline::Math(math));
            },
            MdEvent::DisplayMath(math) => self.display_math(math),
            MdEvent::SoftBreak => self.line_break(),
            MdEvent::HardBreak => self.line_break(),
            MdEvent::TaskListMarker(checked) => self.task_list_marker(checked),
            MdEvent::Rule => {
                self.flush_all();
                self.push_node(Node::Rule);
            },
            MdEvent::Other => {},
        }
    }

    /// Folds the events, in order, into the document they describe.
    pub fn build(events: Vec<MdEvent>) -> (nodes: Vec<Node>)
        ensures
            nodes_view(nodes@) == document_v(events_view(events@)),
    {
        let mut stack: Vec<Container> = Vec::new();
        stack.push(Container::Root(Vec::new()));
        let mut style_stack: Vec<InlineStyle> = Vec::new();
        style_stack.push(InlineStyle::Normal);
        let mut b = AstBuilder {
            stack,
            current_text: String::new(),
            style_stack,
            inlines: Vec::new(),
            in_code: false,
            code_lang: String::new(),
            code_buf: String::new(),
            heading_level: 0,
            table: None,
        };
        assert(b@.stack =~= init_v().stack) by {
            assert(nodes_view(Seq::<Node>::empty()) =~= Seq::<NodeV>::empty());
        }
        assert(b@.inlines =~= init_v().inlines);
        assert(b@.styles =~= init_v().styles);
        let ghost all = events_view(events@);
        for event in it: events.into_iter()
            invariant
                all == events_view(it.seq()),
                b@ == run_v(init_v(), all.take(it.index() as int)),
        {
            let ghost i = it.index() as int;
            proof {
                assert(all.take(i + 1).drop_last() =~= all.take(i));
                assert(all.take(i + 1).last() == event@);
            }
            b.handle_event(event);
        }
        assert(all.take(all.len() as int) =~= all);
        b.flush_all();
        match b.stack.pop() {
            Some(Container::Root(nodes)) => nodes,
            _ => {
                assert(nodes_view(Seq::<Node>::empty()) =~= Seq::<NodeV>::empty());
                Vec::new()
            },
        }
    }

    /// Both flushes, text first.
    fn flush_all(&mut self)
        ensures
            final(self)@ == flush_all_v(old(self)@),
    {
        self.flush_text();
        self.flush_inlines_as_paragraph();
    }
}

// ───────────────────────────── laws ─────────────────────────────

/// Whether the style stack has the normal style at its base.
pub open spec fn base_style_kept(b: BuilderV) -> bool {
    b.styles.len() >= 1 && b.styles[0] == InlineStyle::Normal
}

/// No event removes the normal style at the base of the style stack: an
/// unmatched end of emphasis or strong text leaves it in place.
pub proof fn law_step_keeps_base_style(b: BuilderV, e: EventV)
    requires
        base_style_kept(b),
    ensures
        base_style_kept(step_v(b, e)),
{
    assert(flush_text_v(b).styles == b.styles);
    assert(flush_paragraph_v(flush_text_v(b)).styles == b.styles);
    assert(forall|x: BuilderV, n: NodeV| #[trigger] push_node_v(x, n).styles == x.styles);
    assert(forall|x: BuilderV, k: ContainerKind| #[trigger] close_container_v(x, k).styles == x.styles);
    match e {
        EventV::StartEmphasis | EventV::StartStrong => {
            let b1 = flush_text_v(b);
            assert(b1.styles.push(InlineStyle::Italic)[0] == b1.styles[0]);
            assert(b1.styles.push(InlineStyle::Bold)[0] == b1.styles[0]);
        },
        EventV::EndEmphasis | EventV::EndStrong => {
            let b1 = flush_text_v(b);
            if b1.styles.len() > 1 {
                assert(b1.styles.drop_last()[0] == b1.styles[0]);
            }
        },
        _ => {},
    }
}

/// The same holds of any run of events from the initial builder.
pub proof fn law_run_keeps_base_style(events: Seq<EventV>)
    ensures
        base_style_kept(run_v(init_v(), events)),
    decreases events.len(),
{
    if events.len() > 0 {
        law_run_keeps_base_style(events.drop_last());
        law_step_keeps_base_style(run_v(init_v(), events.drop_last()), events.last());
    }
}

/// Whether an event is text or a line break, the events a code block holds.
pub open spec fn is_code_text(e: EventV) -> bool {
    match e {
        EventV::Text(_) | EventV::SoftBreak | EventV::HardBreak => true,
        _ => false,
    }
}

/// The text of such events: each text as it is, each break a line feed.
pub open spec fn code_text_v(events: Seq<EventV>) -> Seq<char>
    decreases events.len(),
{
    if events.len() == 0 {
        Seq::empty()
    } else {
        code_text_v(events.drop_last()) + match events.last() {
            EventV::Text(t) => t,
            _ => seq!['\n'],
        }
    }
}

/// The language that a code block's info string names: the info trimmed,
/// nothing for an indented block.
pub open spec fn code_language_v(info: Option<Seq<char>>) -> Seq<char> {
    match info {
        Some(l) => trim(l),
        None => Seq::empty(),
    }
}

proof fn lemma_code_texts(b: BuilderV, ts: Seq<EventV>)
    requires
        b.in_code,
        forall|i: int| 0 <= i < ts.len() ==> is_code_text(#[trigger] ts[i]),
    ensures
        run_v(b, ts) == (BuilderV { code_buf: b.code_buf + code_text_v(ts), ..b }),
    decreases ts.len(),
{
    if ts.len() == 0 {
        assert(b.code_buf + code_text_v(ts) =~= b.code_buf);
    } else {
        assert forall|i: int| 0 <= i < ts.drop_last().len() implies is_code_text(
            #[trigger] ts.drop_last()[i],
        ) by {
            assert(ts.drop_last()[i] == ts[i]);
        }
        lemma_code_texts(b, ts.drop_last());
        assert(is_code_text(ts[ts.len() - 1]));
        let prev = b.code_buf + code_text_v(ts.drop_last());
        match ts.last() {
            EventV::Text(t) => {
                assert(prev + t =~= b.code_buf + code_text_v(ts));
            },
            _ => {
                assert(prev.push('\n') =~= b.code_buf + code_text_v(ts));
            },
        }
    }
}

/// A code block keeps its text verbatim: between its start and its end,
/// texts and line breaks only collect, and the end adds one code block with
/// the trimmed info string as its language and exactly that text as its
/// content; nothing else about the builder changes.
pub proof fn law_code_block_verbatim(b: BuilderV, info: Option<Seq<char>>, ts: Seq<EventV>)
    requires
        forall|i: int| 0 <= i < ts.len() ==> is_code_text(#[trigger] ts[i]),
    ensures
        step_v(run_v(step_v(b, EventV::StartCodeBlock(info)), ts), EventV::EndCodeBlock)
            == push_node_v(
            BuilderV { in_code: false, code_lang: Seq::empty(), code_buf: Seq::empty(), ..b },
            NodeV::CodeBlock { language: code_language_v(info), content: code_text_v(ts) },
        ),
{
    let b1 = step_v(b, EventV::StartCodeBlock(info));
    lemma_code_texts(b1, ts);
    assert(Seq::<char>::empty() + code_text_v(ts) =~= code_text_v(ts));
}

/// Flushing pending text twice is flushing it once.
pub proof fn law_flush_text_idempotent(b: BuilderV)
    ensures
        flush_text_v(flush_text_v(b)) == flush_text_v(b),
{
}

/// A block quote that is opened and closed at once, with nothing pending,
/// adds an empty quote to the container around it.
pub proof fn law_empty_quote(b: BuilderV)
    requires
        b.current_text.len() == 0,
        b.inlines.len() == 0,
    ensures
        step_v(step_v(b, EventV::StartBlockQuote), EventV::EndBlockQuote) == push_node_v(
            b,
            NodeV::Quote { children: Seq::empty() },
        ),
{
    let b1 = step_v(b, EventV::StartBlockQuote);
    assert(flush_all_v(b) == b);
    assert(flush_all_v(b1) == b1);
    assert(b1.stack.drop_last() =~= b.stack);
}

/// A paragraph of one text, started with nothing pending and outside code
/// and table cells, becomes one paragraph in the current container, holding
/// that text in the current style (nothing when the text is empty).
pub proof fn law_paragraph_of_text(b: BuilderV, t: Seq<char>)
    requires
        b.current_text.len() == 0,
        !b.in_code,
        !in_cell_v(b),
    ensures
        ({
            let after = run_v(
                b,
                seq![EventV::StartParagraph, EventV::Text(t), EventV::EndParagraph],
            );
            let cleared = BuilderV { inlines: Seq::empty(), ..b };
            if t.len() > 0 {
                after == push_node_v(
                    cleared,
                    NodeV::Paragraph(seq![styled_v(current_style_v(b.styles), t)]),
                )
            } else {
                after == cleared
            }
        }),
{
    let evs = seq![EventV::StartParagraph, EventV::Text(t), EventV::EndParagraph];
    assert(evs.drop_last().drop_last().drop_last() =~= Seq::<EventV>::empty());
    assert(evs.drop_last().drop_last().last() == EventV::StartParagraph);
    assert(evs.drop_last().last() == EventV::Text(t));
    assert(evs.last() == EventV::EndParagraph);
    assert(b.current_text =~= Seq::<char>::empty());
    let b1 = step_v(b, EventV::StartParagraph);
    assert(b1 == BuilderV { inlines: Seq::empty(), ..b });
    let b2 = step_v(b1, EventV::Text(t));
    assert(b2.current_text =~= t);
    assert(run_v(b, evs.drop_last().drop_last().drop_last()) == b);
    assert(run_v(b, evs.drop_last().drop_last()) == b1);
    assert(run_v(b, evs.drop_last()) == b2);
    assert(run_v(b, evs) == step_v(b2, EventV::EndParagraph));
    assert(in_cell_v(flush_text_v(b2)) == in_cell_v(b));
    if t.len() > 0 {
        assert(Seq::<InlineV>::empty().push(styled_v(current_style_v(b.styles), t)) =~= seq![
            styled_v(current_style_v(b.styles), t),
        ]);
    } else {
        assert(b2.current_text =~= Seq::<char>::empty());
        assert(flush_text_v(b2) == b2);
    }
}

// ───────────────────────────── well-formed documents ─────────────────────────────

/// Whether an inline holds text, where it is text in a style: pending text
/// becomes an inline only when there is some.
pub open spec fn inline_ok(i: InlineV) -> bool {
    match i {
        InlineV::Text(s) => s.len() > 0,
        InlineV::Bold(s) => s.len() > 0,
        InlineV::Italic(s) => s.len() > 0,
        _ => true,
    }
}

/// Whether every inline holds text where it is text in a style.
pub open spec fn inlines_ok(s: Seq<InlineV>) -> bool {
    forall|i: int| 0 <= i < s.len() ==> inline_ok(#[trigger] s[i])
}

/// Whether every cell of a table row is well formed.
pub open spec fn row_ok(r: Seq<Seq<InlineV>>) -> bool {
    forall|c: int| 0 <= c < r.len() ==> inlines_ok(#[trigger] r[c])
}

/// Whether the body rows of a table are all non-empty and well formed.
pub open spec fn rows_ok(rows: Seq<Seq<Seq<InlineV>>>) -> bool {
    forall|r: int| 0 <= r < rows.len() ==> (#[trigger] rows[r]).len() > 0 && row_ok(rows[r])
}

/// Whether a node is well formed, with headings of level `lo` to 3: no
/// empty heading or paragraph, no table without rows, and every part of it
/// well formed.
pub open spec fn node_ok(n: NodeV, lo: int) -> bool
    decreases n,
{
    match n {
        NodeV::Heading { level, content } => lo <= level <= 3 && content.len() > 0 && inlines_ok(
            content,
        ),
        NodeV::Paragraph(content) => content.len() > 0 && inlines_ok(content),
        NodeV::Quote { children } => nodes_ok(children, lo),
        NodeV::ListItem { children } => nodes_ok(children, lo),
        NodeV::List { items, .. } => nodes_ok(items, lo),
        NodeV::Table { header, rows, .. } => (header.len() > 0 || rows.len() > 0) && row_ok(header)
            && rows_ok(rows),
        _ => true,
    }
}

/// Whether every node of a sequence is well formed.
pub open spec fn nodes_ok(s: Seq<NodeV>, lo: int) -> bool
    decreases s,
{
    if s.len() == 0 {
        true
    } else {
        nodes_ok(s.drop_last(), lo) && node_ok(s.last(), lo)
    }
}

/// Whether an open container's nodes are well formed.
pub open spec fn container_ok(c: ContainerV, lo: int) -> bool {
    match c {
        ContainerV::Root(ns) => nodes_ok(ns, lo),
        ContainerV::BlockQuote(ns) => nodes_ok(ns, lo),
        ContainerV::List { items, .. } => nodes_ok(items, lo),
        ContainerV::ListItem(ns) => nodes_ok(ns, lo),
    }
}

/// Whether a table under construction is well formed.
pub open spec fn table_ok(t: TableV) -> bool {
    row_ok(t.header) && row_ok(t.current_row) && rows_ok(t.rows)
}

/// The builder's invariant: its open containers, pending inlines and table
/// are well formed, its heading level is at most 3, and at least 1 once a
/// heading has started (`seen`).
pub open spec fn builder_ok(b: BuilderV, lo: int, seen: bool) -> bool {
    &&& forall|i: int| 0 <= i < b.stack.len() ==> container_ok(#[trigger] b.stack[i], lo)
    &&& inlines_ok(b.inlines)
    &&& b.heading_level <= 3
    &&& seen ==> b.heading_level >= 1
    &&& b.table matches Some(t) ==> table_ok(t)
}

/// Whether some event starts a heading.
pub open spec fn heading_started(events: Seq<EventV>) -> bool {
    exists|j: int| 0 <= j < events.len() && #[trigger] events[j] is StartHeading
}

/// Whether every end of a heading comes after the start of some heading, as
/// in any stream that a parser balances.
pub open spec fn headings_opened(events: Seq<EventV>) -> bool {
    forall|i: int|
        0 <= i < events.len() && #[trigger] events[i] is EndHeading ==> heading_started(
            events.take(i),
        )
}

proof fn lemma_nodes_ok_push(ns: Seq<NodeV>, n: NodeV, lo: int)
    ensures
        nodes_ok(ns.push(n), lo) == (nodes_ok(ns, lo) && node_ok(n, lo)),
{
    assert(ns.push(n).drop_last() =~= ns);
}

proof fn lemma_inlines_ok_push(s: Seq<InlineV>, i: InlineV)
    requires
        inlines_ok(s),
        inline_ok(i),
    ensures
        inlines_ok(s.push(i)),
{
    assert forall|k: int| 0 <= k < s.push(i).len() implies inline_ok(#[trigger] s.push(i)[k]) by {
        if k < s.len() {
            assert(s.push(i)[k] == s[k]);
        }
    }
}

proof fn lemma_push_node_ok(b: BuilderV, n: NodeV, lo: int, seen: bool)
    requires
        builder_ok(b, lo, seen),
        node_ok(n, lo),
    ensures
        builder_ok(push_node_v(b, n), lo, seen),
{
    if b.stack.len() > 0 {
        let last = b.stack.len() - 1;
        assert(container_ok(b.stack[last], lo));
        match b.stack[last] {
            ContainerV::Root(ns) => lemma_nodes_ok_push(ns, n, lo),
            ContainerV::BlockQuote(ns) => lemma_nodes_ok_push(ns, n, lo),
            ContainerV::List { items, .. } => lemma_nodes_ok_push(items, n, lo),
            ContainerV::ListItem(ns) => lemma_nodes_ok_push(ns, n, lo),
        }
        let r = push_node_v(b, n);
        assert forall|i: int| 0 <= i < r.stack.len() implies container_ok(#[trigger] r.stack[i], lo) by {
            if i != last {
                assert(r.stack[i] == b.stack[i]);
            }
        }
    }
}

proof fn lemma_open_container_ok(b: BuilderV, c: ContainerV, lo: int, seen: bool)
    requires
        builder_ok(b, lo, seen),
        container_ok(c, lo),
    ensures
        builder_ok(BuilderV { stack: b.stack.push(c), ..b }, lo, seen),
{
    let st = b.stack.push(c);
    assert forall|i: int| 0 <= i < st.len() implies container_ok(#[trigger] st[i], lo) by {
        if i < b.stack.len() {
            assert(st[i] == b.stack[i]);
        }
    }
}

proof fn lemma_flush_text_ok(b: BuilderV, lo: int, seen: bool)
    requires
        builder_ok(b, lo, seen),
    ensures
        builder_ok(flush_text_v(b), lo, seen),
{
    if b.current_text.len() > 0 {
        lemma_inlines_ok_push(b.inlines, styled_v(current_style_v(b.styles), b.current_text));
    }
}

proof fn lemma_flush_all_ok(b: BuilderV, lo: int, seen: bool)
    requires
        builder_ok(b, lo, seen),
    ensures
        builder_ok(flush_text_v(b), lo, seen),
        builder_ok(flush_all_v(b), lo, seen),
{
    lemma_flush_text_ok(b, lo, seen);
    let b1 = flush_text_v(b);
    if !in_cell_v(b1) && b1.inlines.len() > 0 {
        lemma_push_node_ok(BuilderV { inlines: Seq::empty(), ..b1 }, NodeV::Paragraph(b1.inlines), lo, seen);
    }
}

proof fn lemma_close_container_ok(b: BuilderV, kind: ContainerKind, lo: int, seen: bool)
    requires
        builder_ok(b, lo, seen),
    ensures
        builder_ok(close_container_v(b, kind), lo, seen),
{
    if b.stack.len() > 0 {
        let popped = b.stack.last();
        assert(container_ok(b.stack[b.stack.len() - 1], lo));
        let rest = BuilderV { stack: b.stack.drop_last(), ..b };
        assert forall|i: int| 0 <= i < rest.stack.len() implies container_ok(#[trigger] rest.stack[i], lo) by {
            assert(rest.stack[i] == b.stack[i]);
        }
        match popped {
            ContainerV::BlockQuote(children) => if kind == ContainerKind::BlockQuote {
                lemma_push_node_ok(rest, NodeV::Quote { children }, lo, seen);
            },
            ContainerV::List { ordered, start, items } => if kind == ContainerKind::List {
                lemma_push_node_ok(rest, NodeV::List { ordered, start, items }, lo, seen);
            },
            ContainerV::ListItem(children) => if kind == ContainerKind::ListItem {
                lemma_push_node_ok(rest, NodeV::ListItem { children }, lo, seen);
            },
            ContainerV::Root(_) => {},
        }
    }
}

proof fn lemma_row_ok_push(r: Seq<Seq<InlineV>>, c: Seq<InlineV>)
    requires
        row_ok(r),
        inlines_ok(c),
    ensures
        row_ok(r.push(c)),
{
    assert forall|k: int| 0 <= k < r.push(c).len() implies inlines_ok(#[trigger] r.push(c)[k]) by {
        if k < r.len() {
            assert(r.push(c)[k] == r[k]);
        }
    }
}

proof fn lemma_rows_ok_push(rows: Seq<Seq<Seq<InlineV>>>, row: Seq<Seq<InlineV>>)
    requires
        rows_ok(rows),
        row.len() > 0,
        row_ok(row),
    ensures
        rows_ok(rows.push(row)),
{
    assert forall|k: int| 0 <= k < rows.push(row).len() implies (#[trigger] rows.push(row)[k]).len() > 0
        && row_ok(rows.push(row)[k]) by {
        if k < rows.len() {
            assert(rows.push(row)[k] == rows[k]);
        }
    }
}

proof fn lemma_step_table_ok(b: BuilderV, e: EventV, lo: int, seen: bool)
    requires
        builder_ok(b, lo, seen),
        e is StartTable || e is EndTable || e is StartTableHead || e is EndTableHead
            || e is StartTableRow || e is EndTableRow || e is StartTableCell || e is EndTableCell,
    ensures
        builder_ok(step_v(b, e), lo, seen),
{
    lemma_flush_all_ok(b, lo, seen);
    let b1 = flush_text_v(b);
    match e {
        EventV::StartTable(alignments) => {
            assert(table_ok(TableV {
                alignments,
                header: Seq::empty(),
                rows: Seq::empty(),
                current_row: Seq::empty(),
                in_head: false,
                in_cell: false,
            }));
        },
        EventV::EndTable => {
            if let Some(t) = b1.table {
                let b2 = BuilderV { table: None, ..b1 };
                if t.header.len() > 0 || t.rows.len() > 0 {
                    lemma_push_node_ok(
                        b2,
                        NodeV::Table { alignments: t.alignments, header: t.header, rows: t.rows },
                        lo,
                        seen,
                    );
                }
            }
        },
        EventV::EndTableRow => {
            if let Some(t) = b1.table {
                if t.current_row.len() > 0 && !t.in_head {
                    lemma_rows_ok_push(t.rows, t.current_row);
                }
            }
        },
        EventV::EndTableCell => {
            if let Some(t) = b1.table {
                lemma_row_ok_push(t.current_row, b1.inlines);
            }
        },
        _ => {},
    }
}

proof fn lemma_step_ok(b: BuilderV, e: EventV, lo: int, seen: bool)
    requires
        builder_ok(b, lo, seen),
        0 <= lo <= 1,
        lo == 1 && e is EndHeading ==> seen,
    ensures
        builder_ok(step_v(b, e), lo, seen || e is StartHeading),
{
    lemma_flush_all_ok(b, lo, seen);
    let b1 = flush_text_v(b);
    match e {
        EventV::StartTable(_) | EventV::EndTable | EventV::StartTableHead | EventV::EndTableHead
        | EventV::StartTableRow | EventV::EndTableRow | EventV::StartTableCell
        | EventV::EndTableCell => {
            lemma_step_table_ok(b, e, lo, seen);
        },
        EventV::EndCodeBlock => {
            lemma_push_node_ok(
                BuilderV { in_code: false, code_lang: Seq::empty(), code_buf: Seq::empty(), ..b },
                NodeV::CodeBlock { language: b.code_lang, content: b.code_buf },
                lo,
                seen,
            );
        },
        EventV::EndHeading => {
            let b2 = BuilderV { inlines: Seq::empty(), ..b1 };
            if b1.inlines.len() > 0 {
                lemma_push_node_ok(
                    b2,
                    NodeV::Heading { level: b1.heading_level, content: b1.inlines },
                    lo,
                    seen,
                );
            }
        },
        EventV::StartBlockQuote => {
            lemma_open_container_ok(flush_all_v(b), ContainerV::BlockQuote(Seq::empty()), lo, seen);
        },
        EventV::StartList(start) => {
            lemma_open_container_ok(
                flush_all_v(b),
                ContainerV::List { ordered: start is Some, start, items: Seq::empty() },
                lo,
                seen,
            );
        },
        EventV::StartItem => {
            lemma_open_container_ok(flush_all_v(b), ContainerV::ListItem(Seq::empty()), lo, seen);
        },
        EventV::EndBlockQuote => lemma_close_container_ok(flush_all_v(b), ContainerKind::BlockQuote, lo, seen),
        EventV::EndList => lemma_close_container_ok(flush_all_v(b), ContainerKind::List, lo, seen),
        EventV::EndItem => lemma_close_container_ok(flush_all_v(b), ContainerKind::ListItem, lo, seen),
        EventV::EndParagraph => {
            if !(b1.inlines.len() == 0 || in_cell_v(b1)) {
                lemma_push_node_ok(
                    BuilderV { inlines: Seq::empty(), ..b1 },
                    NodeV::Paragraph(b1.inlines),
                    lo,
                    seen,
                );
            }
        },
        EventV::Code(s) => lemma_inlines_ok_push(b1.inlines, InlineV::Code(s)),
        EventV::InlineMath(s) => lemma_inlines_ok_push(b1.inlines, InlineV::Math(s)),
        EventV::DisplayMath(s) => {
            if in_cell_v(b1) {
                lemma_inlines_ok_push(b1.inlines, InlineV::Math(s));
            } else {
                lemma_flush_all_ok(b, lo, seen);
                lemma_push_node_ok(flush_paragraph_v(b1), NodeV::MathBlock { latex: s }, lo, seen);
            }
        },
        EventV::Rule => lemma_push_node_ok(flush_all_v(b), NodeV::Rule, lo, seen),
        _ => {},
    }
}

proof fn lemma_run_ok(events: Seq<EventV>, lo: int)
    requires
        0 <= lo <= 1,
        lo == 1 ==> headings_opened(events),
    ensures
        builder_ok(run_v(init_v(), events), lo, heading_started(events)),
    decreases events.len(),
{
    if events.len() == 0 {
        let b = init_v();
        assert forall|i: int| 0 <= i < b.stack.len() implies container_ok(#[trigger] b.stack[i], lo) by {
            assert(b.stack[i] == ContainerV::Root(Seq::empty()));
        }
    } else {
        let prev = events.drop_last();
        let e = events.last();
        let n = events.len() - 1;
        if lo == 1 {
            assert forall|i: int| 0 <= i < prev.len() && #[trigger] prev[i] is EndHeading implies heading_started(
                prev.take(i),
            ) by {
                assert(events[i] == prev[i]);
                assert(events.take(i) =~= prev.take(i));
            }
            if e is EndHeading {
                assert(events[n] is EndHeading);
                assert(events.take(n) =~= prev);
            }
        }
        lemma_run_ok(prev, lo);
        lemma_step_ok(run_v(init_v(), prev), e, lo, heading_started(prev));
        if heading_started(prev) {
            let j = choose|j: int| 0 <= j < prev.len() && #[trigger] prev[j] is StartHeading;
            assert(events[j] == prev[j]);
        }
        if e is StartHeading {
            assert(events[n] is StartHeading);
        }
        if heading_started(events) {
            let j = choose|j: int| 0 <= j < events.len() && #[trigger] events[j] is StartHeading;
            if j < n {
                assert(prev[j] == events[j]);
            }
        }
    }
}

/// Every document is well formed, with headings of level 0 to 3: no empty
/// paragraph or heading, no styled text inline without text, and no table
/// without a row, at any depth.
pub proof fn law_document_well_formed(events: Seq<EventV>)
    ensures
        nodes_ok(document_v(events), 0),
{
    lemma_run_ok(events, 0);
    lemma_finish_ok(run_v(init_v(), events), 0, heading_started(events));
}

/// When every heading that ends has started, as in a parsed stream, the
/// document's headings are moreover of level 1 to 3.
pub proof fn law_document_heading_levels(events: Seq<EventV>)
    requires
        headings_opened(events),
    ensures
        nodes_ok(document_v(events), 1),
{
    lemma_run_ok(events, 1);
    lemma_finish_ok(run_v(init_v(), events), 1, heading_started(events));
}

proof fn lemma_finish_ok(b: BuilderV, lo: int, seen: bool)
    requires
        builder_ok(b, lo, seen),
    ensures
        nodes_ok(finish_v(b), lo),
{
    lemma_flush_all_ok(b, lo, seen);
    let f = flush_all_v(b);
    if f.stack.len() > 0 {
        assert(container_ok(f.stack[f.stack.len() - 1], lo));
    }
}

// ───────────────────────────── table rows ─────────────────────────────

/// A body row that ends is added after all the rows before it: the rows of
/// a table keep the order of the source.
pub proof fn law_end_row_appends(b: BuilderV)
    requires
        b.table matches Some(t) && !t.in_head && t.current_row.len() > 0,
    ensures
        ({
            let t = b.table->0;
            let after = step_v(b, EventV::EndTableRow).table->0;
            &&& step_v(b, EventV::EndTableRow).table is Some
            &&& after.rows.len() == t.rows.len() + 1
            &&& after.rows.take(t.rows.len() as int) == t.rows
            &&& after.rows.last() == t.current_row
            &&& after.header == t.header
        }),
{
    let t = b.table->0;
    assert(t.rows.push(t.current_row).take(t.rows.len() as int) =~= t.rows);
}

/// While a table is open, no event reorders or drops its body rows: the
/// rows before an event are the first rows after it, and at most one row is
/// added.
pub proof fn law_table_rows_only_grow(b: BuilderV, e: EventV)
    requires
        b.table is Some,
        !(e is StartTable),
        !(e is EndTable),
    ensures
        step_v(b, e).table is Some,
        ({
            let before = b.table->0.rows;
            let after = step_v(b, e).table->0.rows;
            &&& before.len() <= after.len() <= before.len() + 1
            &&& after.take(before.len() as int) == before
        }),
{
    let before = b.table->0.rows;
    assert(flush_text_v(b).table == b.table);
    assert(flush_all_v(b).table == b.table) by {
        assert(forall|x: BuilderV, n: NodeV| #[trigger] push_node_v(x, n).table == x.table);
    }
    assert(forall|x: BuilderV, n: NodeV| #[trigger] push_node_v(x, n).table == x.table);
    assert(forall|x: BuilderV, k: ContainerKind| #[trigger] close_container_v(x, k).table == x.table);
    assert(before.take(before.len() as int) =~= before);
    if e is EndTableRow {
        let t = b.table->0;
        assert(t.rows.push(t.current_row).take(t.rows.len() as int) =~= t.rows);
    }
}

/// A cell that ends is added after the cells before it in its row, holding
/// the inlines collected since it started, pending text included.
pub proof fn law_end_cell_appends(b: BuilderV)
    requires
        b.table is Some,
    ensures
        ({
            let t = b.table->0;
            let after = step_v(b, EventV::EndTableCell);
            &&& after.table is Some
            &&& after.table->0.current_row.len() == t.current_row.len() + 1
            &&& after.table->0.current_row.take(t.current_row.len() as int) == t.current_row
            &&& after.table->0.current_row.last() == flush_text_v(b).inlines
            &&& after.table->0.rows == t.rows
            &&& after.table->0.header == t.header
            &&& after.inlines.len() == 0
        }),
{
    let t = b.table->0;
    let row = t.current_row.push(flush_text_v(b).inlines);
    assert(row.take(t.current_row.len() as int) =~= t.current_row);
}

/// Pending text that is flushed becomes one more inline after the ones
/// before it, in the current style, and nothing else changes.
pub proof fn law_flush_text_appends(b: BuilderV)
    requires
        b.current_text.len() > 0,
    ensures
        flush_text_v(b).inlines.len() == b.inlines.len() + 1,
        flush_text_v(b).inlines.take(b.inlines.len() as int) == b.inlines,
        flush_text_v(b).inlines.last() == styled_v(current_style_v(b.styles), b.current_text),
        flush_text_v(b).current_text.len() == 0,
        flush_text_v(b).stack == b.stack,
{
    assert(b.inlines.push(styled_v(current_style_v(b.styles), b.current_text)).take(
        b.inlines.len() as int,
    ) =~= b.inlines);
}

/// The nodes of a container as a sequence.
pub open spec fn container_nodes(c: ContainerV) -> Seq<NodeV> {
    match c {
        ContainerV::Root(ns) => ns,
        ContainerV::BlockQuote(ns) => ns,
        ContainerV::List { items, .. } => items,
        ContainerV::ListItem(ns) => ns,
    }
}

/// A node is added after the nodes already in the innermost open container;
/// the containers around it do not change.
pub proof fn law_push_node_appends(b: BuilderV, n: NodeV)
    requires
        b.stack.len() > 0,
    ensures
        ({
            let last = b.stack.len() - 1;
            let after = push_node_v(b, n);
            &&& after.stack.len() == b.stack.len()
            &&& after.stack.take(last) == b.stack.take(last)
            &&& container_nodes(after.stack[last]) == container_nodes(b.stack[last]).push(n)
        }),
{
    let last = b.stack.len() - 1;
    assert(push_node_v(b, n).stack.take(last) =~= b.stack.take(last));
}

/// A heading that starts keeps its level up to 3; deeper headings are drawn
/// at level 3.
pub proof fn law_heading_level(b: BuilderV, level: u8)
    requires
        level >= 1,
    ensures
        step_v(b, EventV::StartHeading(level)).heading_level == (if level <= 3 {
            level
        } else {
            3
        }),
        step_v(b, EventV::StartHeading(level)).inlines.len() == 0,
{
}

/// A task list marker adds a ballot box, checked or not, and a space to the
/// pending text.
pub proof fn law_task_marker(b: BuilderV, checked: bool)
    ensures
        step_v(b, EventV::TaskListMarker(checked)).current_text == b.current_text + seq![
            if checked {
                '\u{2611}'
            } else {
                '\u{2610}'
            },
            ' ',
        ],
{
    assert(task_marker_v(checked) =~= seq![if checked { '\u{2611}' } else { '\u{2610}' }, ' ']);
}

} // verus!
