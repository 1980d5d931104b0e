use comrak::nodes::{AstNode, NodeValue};
use mdit::markdown::parser::{line_offsets, to_offset, MarkdownSpan, NodeKind};

fn parse(source: &str) -> Vec<MarkdownSpan> {
    let arena = comrak::Arena::new();
    let mut opts = comrak::Options::default();
    opts.extension.strikethrough = true;
    opts.extension.table = true;
    opts.extension.footnotes = true;
    opts.extension.math_dollars = true;
    let root = comrak::parse_document(&arena, source, &opts);
    let offsets = line_offsets(source);
    collect_spans(root, source, &offsets)
}

fn collect_spans<'a>(node: &'a AstNode<'a>, source: &str, offsets: &[usize]) -> Vec<MarkdownSpan> {
    let mut spans = Vec::new();
    for child in node.children() {
        spans.push(node_to_span(child, source, offsets));
    }
    spans
}

fn node_to_span<'a>(node: &'a AstNode<'a>, source: &str, offsets: &[usize]) -> MarkdownSpan {
    let data = node.data.borrow();
    let sp = &data.sourcepos;
    let start = to_offset(offsets, sp.start.line, sp.start.column);
    let end = to_offset(offsets, sp.end.line, sp.end.column + 1);
    let source_range = (start.min(source.len()), end.min(source.len()));
    let children = collect_spans(node, source, offsets);
    let kind = match &data.value {
        NodeValue::Strong => NodeKind::Strong,
        NodeValue::Emph => NodeKind::Emph,
        NodeValue::Code(_) => NodeKind::Code,
        NodeValue::Math(_) => NodeKind::Math,
        NodeValue::Link(l) => NodeKind::Link { url: l.url.clone() },
        NodeValue::Image(i) => NodeKind::Image { url: i.url.clone() },
        NodeValue::Heading(h) => NodeKind::Heading { level: h.level },
        NodeValue::CodeBlock(cb) => NodeKind::CodeBlock {
            language: cb.info.trim().to_string(),
            code: cb.literal.strip_suffix('\n').unwrap_or(&cb.literal).to_string(),
        },
        NodeValue::Table(_) => NodeKind::Table,
        NodeValue::FootnoteDefinition(_) | NodeValue::FootnoteReference(_) => NodeKind::Footnote,
        NodeValue::Strikethrough => NodeKind::Strikethrough,
        NodeValue::List(_) => NodeKind::List,
        NodeValue::Item(_) => NodeKind::Item,
        NodeValue::BlockQuote => NodeKind::BlockQuote,
        NodeValue::Paragraph => NodeKind::Paragraph,
        NodeValue::Text(_) => NodeKind::Text,
        NodeValue::HtmlInline(_) => NodeKind::HtmlInline,
        _ => NodeKind::Other,
    };
    MarkdownSpan { kind, source_range, children }
}

use mdit::editor::cursor_tracker::find_containing_span;

#[test]
fn cursor_inside_bold_finds_strong_span() {
    let text = "hello **world** end";
    let spans = parse(text);
    let result = find_containing_span(&spans, 10);
    assert!(result.is_some(), "should find a span at position 10");
    assert_eq!(result.unwrap().kind, NodeKind::Strong);
}

#[test]
fn cursor_outside_all_spans_finds_nothing_interesting() {
    let text = "**bold**";
    let spans = parse(text);
    let result = find_containing_span(&spans, 200);
    assert!(result.is_none(), "should not find a span at position 200");
}

#[test]
fn cursor_in_heading_finds_heading() {
    let text = "# Title";
    let spans = parse(text);
    let result = find_containing_span(&spans, 3);
    assert!(result.is_some());
    assert!(matches!(result.unwrap().kind, NodeKind::Heading { .. }));
}

#[test]
fn cursor_in_italic_finds_emph() {
    let text = "some *italic* text";
    let spans = parse(text);
    let result = find_containing_span(&spans, 7);
    assert!(result.is_some());
    assert_eq!(result.unwrap().kind, NodeKind::Emph);
}
