use mdit::editor::math_view::{build_katex_html, is_display_math};

#[test]
fn html_contains_latex() {
    let html = build_katex_html("x^2", false);
    assert!(html.contains("x^2"), "HTML should embed the LaTeX source");
}

#[test]
fn html_contains_katex_cdn() {
    let html = build_katex_html("x^2", false);
    assert!(
        html.contains("katex"),
        "HTML should reference the KaTeX library"
    );
}

#[test]
fn display_mode_true() {
    let html = build_katex_html("E=mc^2", true);
    assert!(html.contains("displayMode: true"));
}

#[test]
fn display_mode_false() {
    let html = build_katex_html("E=mc^2", false);
    assert!(html.contains("displayMode: false"));
}

#[test]
fn backslash_escaped() {
    let html = build_katex_html(r"\frac{1}{2}", false);
    assert!(html.contains("\\\\frac"), "backslash must be JS-escaped");
}

#[test]
fn is_display_math_detection() {
    assert!(is_display_math("$$x^2$$"));
    assert!(!is_display_math("$x^2$"));
}
