use comrak::nodes::{AstNode, NodeValue};
use mdit::markdown::parser::{line_offsets, to_offset, MarkdownSpan, NodeKind};

fn parse(source: &str) -> Vec<MarkdownSpan> {
    let arena = comrak::Arena::new();
    let mut opts = comrak::Options::default();
    opts.extension.strikethrough = true;
    opts.extension.table = true;
    opts.extension.footnotes = true;
    opts.extension.math_dollars = true;
    let root = comrak::parse_document(&arena, source, &opts);
    let offsets = line_offsets(source);
    collect_spans(root, source, &offsets)
}

fn collect_spans<'a>(node: &'a AstNode<'a>, source: &str, offsets: &[usize]) -> Vec<MarkdownSpan> {
    let mut spans = Vec::new();
    for child in node.children() {
        spans.push(node_to_span(child, source, offsets));
    }
    spans
}

fn node_to_span<'a>(node: &'a AstNode<'a>, source: &str, offsets: &[usize]) -> MarkdownSpan {
    let data = node.data.borrow();
    let sp = &data.sourcepos;
    let start = to_offset(offsets, sp.start.line, sp.start.column);
    let end = to_offset(offsets, sp.end.line, sp.end.column + 1);
    let source_range = (start.min(source.len()), end.min(source.len()));
    let children = collect_spans(node, source, offsets);
    let kind = match &data.value {
        NodeValue::Strong => NodeKind::Strong,
        NodeValue::Emph => NodeKind::Emph,
        NodeValue::Code(_) => NodeKind::Code,
        NodeValue::Math(_) => NodeKind::Math,
        NodeValue::Link(l) => NodeKind::Link { url: l.url.clone() },
        NodeValue::Image(i) => NodeKind::Image { url: i.url.clone() },
        NodeValue::Heading(h) => NodeKind::Heading { level: h.level },
        NodeValue::CodeBlock(cb) => NodeKind::CodeBlock {
            language: cb.info.trim().to_string(),
            code: cb.literal.strip_suffix('\n').unwrap_or(&cb.literal).to_string(),
        },
        NodeValue::Table(_) => NodeKind::Table,
        NodeValue::FootnoteDefinition(_) | NodeValue::FootnoteReference(_) => NodeKind::Footnote,
        NodeValue::Strikethrough => NodeKind::Strikethrough,
        NodeValue::List(_) => NodeKind::List,
        NodeValue::Item(_) => NodeKind::Item,
        NodeValue::BlockQuote => NodeKind::BlockQuote,
        NodeValue::Paragraph => NodeKind::Paragraph,
        NodeValue::Text(_) => NodeKind::Text,
        NodeValue::HtmlInline(_) => NodeKind::HtmlInline,
        _ => NodeKind::Other,
    };
    MarkdownSpan { kind, source_range, children }
}

use mdit::editor::apply::{byte_to_utf16, heading_separator_positions};
use mdit::editor::image_handler::assemble_image_path;
use mdit::editor::text_storage::EditorSession;
use mdit::editor::renderer::{compute_attribute_runs, AttributeRun};
use mdit::markdown::attributes::TextAttribute;

fn strong_span(start: usize, end: usize) -> MarkdownSpan {
    MarkdownSpan { kind: NodeKind::Strong, source_range: (start, end), children: Vec::new() }
}

fn assert_partitions(runs: &[AttributeRun], text_len: usize) {
    assert!(!runs.is_empty() || text_len == 0);
    if text_len > 0 {
        assert_eq!(runs[0].range.0, 0, "first run must start at 0");
        assert_eq!(runs[runs.len() - 1].range.1, text_len, "last run must reach the text end");
    }
    for r in runs {
        assert!(r.range.0 < r.range.1, "runs must be nonempty: {:?}", r.range);
    }
    for w in runs.windows(2) {
        assert_eq!(w[0].range.1, w[1].range.0, "runs must be adjacent");
    }
}

#[test]
fn output_partitions_text_exactly() {
    for text in [
        "hello **world** end",
        "# Title\n\nsome *italic* text\n\n```rust\nlet x = 1;\n```\n",
        "- one\n- two\n\n> quote\n",
        "",
    ] {
        let spans = parse(text);
        let runs = compute_attribute_runs(text, &spans, Some(4));
        assert_partitions(&runs, text.len());
    }
}

#[test]
fn identical_inputs_give_identical_output() {
    let text = "# Title\n\nhello **world** `code` end\n";
    let spans = parse(text);
    let a = compute_attribute_runs(text, &spans, Some(3));
    let b = compute_attribute_runs(text, &spans, Some(3));
    assert_eq!(a.len(), b.len());
    for (x, y) in a.iter().zip(b.iter()) {
        assert_eq!(x.range, y.range);
        assert_eq!(x.attrs.attrs(), y.attrs.attrs());
    }
}

#[test]
fn marker_visibility_is_boundary_inclusive() {
    let text = "hello **world** end";
    let spans = vec![strong_span(6, 15)];
    for caret in [6, 15] {
        let runs = compute_attribute_runs(text, &spans, Some(caret));
        let hidden = runs.iter().filter(|r| r.attrs.contains(&TextAttribute::Hidden)).count();
        assert_eq!(hidden, 0, "caret at {} touches the span, markers stay visible", caret);
    }
    for caret in [3, 20] {
        let runs = compute_attribute_runs(text, &spans, Some(caret));
        let hidden: Vec<_> = runs
            .iter()
            .filter(|r| r.attrs.contains(&TextAttribute::Hidden))
            .map(|r| r.range)
            .collect();
        assert_eq!(hidden, vec![(6, 8), (13, 15)], "caret at {} hides both markers", caret);
    }
}

#[test]
fn byte_to_utf16_counts_code_units() {
    let text = "a\u{e4}\u{20ac}\u{10348}x";
    assert_eq!(byte_to_utf16(text, 0), 0);
    assert_eq!(byte_to_utf16(text, 1), 1);
    assert_eq!(byte_to_utf16(text, 3), 2);
    assert_eq!(byte_to_utf16(text, 6), 3);
    assert_eq!(byte_to_utf16(text, 10), 5);
    assert_eq!(byte_to_utf16(text, 11), 6);
    assert_eq!(byte_to_utf16(text, 999), 6, "offsets past the end saturate");
    assert_eq!(byte_to_utf16(text, 7), 3, "a cut inside a character counts only whole ones");
}

#[test]
fn image_paths_assemble_exactly() {
    assert_eq!(assemble_image_path("/a/b.md", "png", "NAME"), "/a/b-assets/NAME.png");
    assert_eq!(assemble_image_path("b.md", "png", "NAME"), "b-assets/NAME.png");
    assert_eq!(assemble_image_path("/a/.hidden", "jpg", "N"), "/a/.hidden-assets/N.jpg");
}

#[test]
fn line_offsets_and_to_offset_roundtrip() {
    let offsets = line_offsets("ab\ncd\nef");
    assert_eq!(offsets, vec![0, 3, 6]);
    assert_eq!(to_offset(&offsets, 1, 1), 0);
    assert_eq!(to_offset(&offsets, 2, 2), 4);
    assert_eq!(to_offset(&offsets, 3, 1), 6);
}

#[test]
fn separator_positions_need_content_before() {
    let text = "intro\n\nTitle\n=====\n";
    let spans = parse(text);
    let runs = compute_attribute_runs(text, &spans, None);
    let positions = heading_separator_positions(text, &runs);
    assert_eq!(positions, vec![7], "heading after content gets a separator at its start");

    let lone = "Title\n=====\n";
    let lone_spans = parse(lone);
    let lone_runs = compute_attribute_runs(lone, &lone_spans, None);
    let lone_positions = heading_separator_positions(lone, &lone_runs);
    assert!(lone_positions.is_empty(), "a heading with nothing before it gets no separator");
}

#[test]
fn cursor_query_prefers_inner_span() {
    let text = "before **bold *inner* bold** after";
    let spans = parse(text);
    let hit = mdit::editor::cursor_tracker::find_containing_span(&spans, 17);
    assert!(hit.is_some());
    assert_eq!(hit.unwrap().kind, NodeKind::Emph, "the innermost span wins");
}

#[test]
fn editor_session_tracks_state_across_edits() {
    let mut session = EditorSession::new();
    assert!(session.cursor_pos().is_none());
    assert!(session.spans().is_empty());

    session.set_cursor_pos(Some(3));
    assert_eq!(session.cursor_pos(), Some(3));

    let text = "intro\n\nTitle\n=====\n\n```rust\nlet x = 1;\n```\n";
    let runs = session.process_edit(text, parse(text));
    assert_partitions(&runs, text.len());
    assert!(!session.spans().is_empty());
    assert_eq!(session.heading_sep_positions(), &vec![7]);
    let infos = session.code_block_infos();
    assert_eq!(infos.len(), 1);
    assert_eq!(infos[0].text, "let x = 1;");

    let again = session.reapply(text);
    assert_eq!(runs.len(), again.len());
    for (x, y) in runs.iter().zip(again.iter()) {
        assert_eq!(x.range, y.range);
        assert_eq!(x.attrs.attrs(), y.attrs.attrs());
    }
}

#[test]
fn strikethrough_gets_strikethrough_attribute() {
    let text = "~~strike~~";
    let spans = parse(text);
    let runs = compute_attribute_runs(text, &spans, None);
    assert!(runs.iter().any(|r| r.attrs.contains(&TextAttribute::Strikethrough)));
    let hidden: Vec<_> = runs
        .iter()
        .filter(|r| r.attrs.contains(&TextAttribute::Hidden))
        .map(|r| r.range)
        .collect();
    assert_eq!(hidden, vec![(0, 2), (8, 10)], "both ~~ markers are hidden");
}

#[test]
fn link_span_gets_link_color() {
    let text = "[label](https://example.com)";
    let spans = parse(text);
    let runs = compute_attribute_runs(text, &spans, None);
    assert!(runs
        .iter()
        .any(|r| r.attrs.contains(&TextAttribute::ForegroundColor("link"))));
}

#[test]
fn display_math_accepts_bare_marker_pair() {
    assert!(mdit::editor::math_view::is_display_math("$$"));
    assert!(!mdit::editor::math_view::is_display_math("$"));
}
