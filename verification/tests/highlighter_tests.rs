use mdit::markdown::highlighter::highlight;

#[test]
fn highlights_rust_code() {
    let result = highlight("fn main() {}", "rust");
    assert!(!result.spans.is_empty(), "should produce highlight spans for Rust");
}

#[test]
fn unknown_language_falls_back_gracefully() {
    let result = highlight("some code", "foobar_no_such_lang");
    assert_eq!(result.spans.len(), 1, "unknown language: single unstyled span");
}

#[test]
fn highlights_python_code() {
    let result = highlight("def foo():\n    pass\n", "python");
    assert!(
        result.spans.len() > 1,
        "Python code should produce multiple highlight spans"
    );
}

#[test]
fn empty_code_returns_no_spans() {
    let result = highlight("", "rust");
    assert!(result.spans.is_empty(), "empty code should yield no spans");
}

#[test]
fn unknown_language_span_covers_whole_code() {
    let result = highlight("some code", "foobar_no_such_lang");
    assert_eq!(result.spans[0].range, (0, 9));
    assert_eq!(result.spans[0].color, (200, 200, 200));
}

#[test]
fn span_ranges_are_ordered_and_disjoint() {
    let result = highlight("fn main() {\n    let x = 1;\n}\n", "rust");
    let spans = &result.spans;
    for w in spans.windows(2) {
        assert!(w[0].range.1 <= w[1].range.0, "spans must not overlap");
    }
    for s in spans {
        assert!(s.range.0 <= s.range.1);
    }
}
