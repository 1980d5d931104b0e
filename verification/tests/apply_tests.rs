use comrak::nodes::{AstNode, NodeValue};
use mdit::markdown::parser::{line_offsets, to_offset, MarkdownSpan, NodeKind};

fn parse(source: &str) -> Vec<MarkdownSpan> {
    let arena = comrak::Arena::new();
    let mut opts = comrak::Options::default();
    opts.extension.strikethrough = true;
    opts.extension.table = true;
    opts.extension.footnotes = true;
    opts.extension.math_dollars = true;
    let root = comrak::parse_document(&arena, source, &opts);
    let offsets = line_offsets(source);
    collect_spans(root, source, &offsets)
}

fn collect_spans<'a>(node: &'a AstNode<'a>, source: &str, offsets: &[usize]) -> Vec<MarkdownSpan> {
    let mut spans = Vec::new();
    for child in node.children() {
        spans.push(node_to_span(child, source, offsets));
    }
    spans
}

fn node_to_span<'a>(node: &'a AstNode<'a>, source: &str, offsets: &[usize]) -> MarkdownSpan {
    let data = node.data.borrow();
    let sp = &data.sourcepos;
    let start = to_offset(offsets, sp.start.line, sp.start.column);
    let end = to_offset(offsets, sp.end.line, sp.end.column + 1);
    let source_range = (start.min(source.len()), end.min(source.len()));
    let children = collect_spans(node, source, offsets);
    let kind = match &data.value {
        NodeValue::Strong => NodeKind::Strong,
        NodeValue::Emph => NodeKind::Emph,
        NodeValue::Code(_) => NodeKind::Code,
        NodeValue::Math(_) => NodeKind::Math,
        NodeValue::Link(l) => NodeKind::Link { url: l.url.clone() },
        NodeValue::Image(i) => NodeKind::Image { url: i.url.clone() },
        NodeValue::Heading(h) => NodeKind::Heading { level: h.level },
        NodeValue::CodeBlock(cb) => NodeKind::CodeBlock {
            language: cb.info.trim().to_string(),
            code: cb.literal.strip_suffix('\n').unwrap_or(&cb.literal).to_string(),
        },
        NodeValue::Table(_) => NodeKind::Table,
        NodeValue::FootnoteDefinition(_) | NodeValue::FootnoteReference(_) => NodeKind::Footnote,
        NodeValue::Strikethrough => NodeKind::Strikethrough,
        NodeValue::List(_) => NodeKind::List,
        NodeValue::Item(_) => NodeKind::Item,
        NodeValue::BlockQuote => NodeKind::BlockQuote,
        NodeValue::Paragraph => NodeKind::Paragraph,
        NodeValue::Text(_) => NodeKind::Text,
        NodeValue::HtmlInline(_) => NodeKind::HtmlInline,
        _ => NodeKind::Other,
    };
    MarkdownSpan { kind, source_range, children }
}

use mdit::editor::apply::collect_code_block_infos;

#[test]
fn code_block_infos_collected() {
    let text = "```rust\nlet x = 1;\n```\n";
    let spans = parse(text);
    let infos = collect_code_block_infos(&spans, text);
    assert_eq!(infos.len(), 1);
    assert_eq!(infos[0].text, "let x = 1;");
    assert!(infos[0].start_utf16 < infos[0].end_utf16);
}

#[test]
fn two_code_blocks_both_collected() {
    let text = "```\nfoo\n```\n\nsome text\n\n```\nbar\n```\n";
    let spans = parse(text);
    let infos = collect_code_block_infos(&spans, text);
    assert_eq!(infos.len(), 2);
    assert_eq!(infos[0].text, "foo");
    assert_eq!(infos[1].text, "bar");
}

#[test]
fn no_code_blocks_returns_empty() {
    let text = "Just a paragraph.\n";
    let spans = parse(text);
    let infos = collect_code_block_infos(&spans, text);
    assert!(infos.is_empty());
}
