//! Building the HTML page that renders a LaTeX snippet with KaTeX, and
//! classifying math spans. A host embeds the page in its web view.

use vstd::prelude::*;

verus! {

use vstd::string::StringExecFns;

/// Everything before the embedded LaTeX source.
pub open spec fn katex_head() -> Seq<char> {
    "<!DOCTYPE html>\n<html>\n<head>\n  <meta charset=\"UTF-8\">\n  <link rel=\"stylesheet\"\n        href=\"https://cdn.jsdelivr.net/npm/katex@0.16.9/dist/katex.min.css\">\n  <script src=\"https://cdn.jsdelivr.net/npm/katex@0.16.9/dist/katex.min.js\">\n  </script>\n  <style>\n    html, body { margin: 0; padding: 2px 4px; background: transparent; }\n  </style>\n</head>\n<body>\n  <span id=\"m\"></span>\n  <script>\n    katex.render('"@
}

/// Between the LaTeX source and the display-mode flag.
pub open spec fn katex_mid() -> Seq<char> {
    "', document.getElementById('m'), {\n      displayMode: "@
}

/// Everything after the display-mode flag.
pub open spec fn katex_tail() -> Seq<char> {
    ",\n      throwOnError: false\n    });\n  </script>\n</body>\n</html>"@
}

/// How one character is written inside a JS single-quoted string literal:
/// backslashes and quotes are escaped, carriage returns dropped, newlines
/// turned into spaces.
pub open spec fn char_escape(c: char) -> Seq<char> {
    if c == '\\' {
        "\\\\"@
    } else if c == '\'' {
        "\\'"@
    } else if c == '\r' {
        Seq::<char>::empty()
    } else if c == '\n' {
        " "@
    } else {
        seq![c]
    }
}

/// The whole text escaped for a JS single-quoted string literal.
pub open spec fn escape_js(s: Seq<char>) -> Seq<char>
    decreases s.len(),
{
    if s.len() == 0 {
        Seq::<char>::empty()
    } else {
        char_escape(s[0]) + escape_js(s.drop_first())
    }
}

/// The complete page: head, escaped LaTeX, display-mode flag, tail.
pub open spec fn katex_page(latex: Seq<char>, display: bool) -> Seq<char> {
    katex_head() + escape_js(latex) + katex_mid() + (if display {
        "true"@
    } else {
        "false"@
    }) + katex_tail()
}

/// Relies on String::push: appends exactly the one character.
#[verifier::external_body]
pub(crate) fn push_char(s: &mut String, c: char)
    ensures
        final(s)@ == old(s)@.push(c),
{
    s.push(c);
}

/// Escape `latex` for safe embedding in a JS single-quoted string literal.
fn escape_latex(latex: &str) -> (r: String)
    ensures
        r@ == escape_js(latex@),
{
    let mut out = String::new();
    let n = latex.unicode_len();
    let mut i: usize = 0;
    proof {
        assert(latex@.skip(0) =~= latex@);
        assert(Seq::<char>::empty() + escape_js(latex@) =~= escape_js(latex@));
    }
    while i < n
        invariant
            n == latex@.len(),
            i <= n,
            out@ + escape_js(latex@.skip(i as int)) == escape_js(latex@),
        decreases n - i,
    {
        let ghost prev = out@;
        let c = latex.get_char(i);
        proof {
            assert(latex@.skip(i as int)[0] == latex@[i as int]);
            assert(latex@.skip(i as int).drop_first() =~= latex@.skip(i as int + 1));
        }
        if c == '\\' {
            out.append("\\\\");
        } else if c == '\'' {
            out.append("\\'");
        } else if c == '\r' {
        } else if c == '\n' {
            out.append(" ");
        } else {
            push_char(&mut out, c);
            proof {
                assert(prev.push(c) =~= prev + seq![c]);
            }
        }
        proof {
            assert(out@ =~= prev + char_escape(latex@[i as int]));
            assert((prev + char_escape(latex@[i as int])) + escape_js(
                latex@.skip(i as int + 1),
            ) =~= prev + (char_escape(latex@[i as int]) + escape_js(latex@.skip(i as int + 1))));
        }
        i = i + 1;
    }
    proof {
        assert(latex@.skip(n as int) =~= Seq::<char>::empty());
        assert(out@ + Seq::<char>::empty() =~= out@);
    }
    out
}

/// Build a minimal HTML page that renders `latex` with KaTeX.
///
/// `display` selects display mode (centred, large) over inline mode.
pub fn build_katex_html(latex: &str, display: bool) -> (r: String)
    ensures
        r@ == katex_page(latex@, display),
{
    let escaped = escape_latex(latex);
    let mut out = String::new();
    out.append(
        "<!DOCTYPE html>\n<html>\n<head>\n  <meta charset=\"UTF-8\">\n  <link rel=\"stylesheet\"\n        href=\"https://cdn.jsdelivr.net/npm/katex@0.16.9/dist/katex.min.css\">\n  <script src=\"https://cdn.jsdelivr.net/npm/katex@0.16.9/dist/katex.min.js\">\n  </script>\n  <style>\n    html, body { margin: 0; padding: 2px 4px; background: transparent; }\n  </style>\n</head>\n<body>\n  <span id=\"m\"></span>\n  <script>\n    katex.render('",
    );
    out.append(escaped.as_str());
    out.append("', document.getElementById('m'), {\n      displayMode: ");
    if display {
        out.append("true");
    } else {
        out.append("false");
    }
    out.append(",\n      throwOnError: false\n    });\n  </script>\n</body>\n</html>");
    out
}

/// Whether the span's source is display math: wrapped in `$$` on both
/// sides (possibly overlapping, as in `$$` itself).
pub fn is_display_math(latex: &str) -> (r: bool)
    ensures
        r == (latex@.len() >= 2 && latex@[0] == '$' && latex@[1] == '$' && latex@[latex@.len()
            - 1] == '$' && latex@[latex@.len() - 2] == '$'),
{
    let n = latex.unicode_len();
    if n < 2 {
        return false;
    }
    latex.get_char(0) == '$' && latex.get_char(1) == '$' && latex.get_char(n - 1) == '$'
        && latex.get_char(n - 2) == '$'
}

} // verus!
