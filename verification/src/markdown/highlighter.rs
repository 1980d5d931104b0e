//! Syntax colorization of code-block contents, over the syntect library.
//! The library's sets, themes and line highlighter are opaque here: what is
//! proved is the bookkeeping around them — line splitting, byte-offset
//! accumulation, and the shape of the resulting span list.

use vstd::prelude::*;

verus! {

use vstd::string::StringExecFns;
use vstd::string::StringSliceAdditionalSpecFns;
use crate::markdown::attributes::str_eq;

/// One colored region of the highlighted code.
#[derive(Debug)]
pub struct HighlightSpan {
    /// Byte range within the code string.
    pub range: (usize, usize),
    /// Foreground color (RGB, 0-255).
    pub color: (u8, u8, u8),
}

/// Mathematical model of a [`HighlightSpan`].
pub struct HlModel {
    pub start: int,
    pub end: int,
    pub color: (u8, u8, u8),
}

impl DeepView for HighlightSpan {
    type V = HlModel;

    open spec fn deep_view(&self) -> HlModel {
        HlModel {
            start: self.range.0 as int,
            end: self.range.1 as int,
            color: self.color,
        }
    }
}

/// The models of a span sequence, in order.
pub open spec fn hl_models(rs: Seq<HighlightSpan>) -> Seq<HlModel> {
    Seq::new(rs.len(), |i: int| rs[i].deep_view())
}

/// All spans of `rs`: ordered, non-overlapping, and ending by `bound`.
pub open spec fn hl_chain(rs: Seq<HlModel>, bound: int) -> bool {
    &&& forall|i: int| #![trigger rs[i]] 0 <= i < rs.len() ==> rs[i].start <= rs[i].end
    &&& forall|i: int| #![trigger rs[i]] 0 <= i && i + 1 < rs.len() ==> rs[i].end <= rs[i + 1].start
    &&& forall|i: int| #![trigger rs[i]] 0 <= i < rs.len() ==> rs[i].end <= bound
}

pub struct HighlightResult {
    pub spans: Vec<HighlightSpan>,
}

/// A byte offset advanced by a segment length, saturating at the machine
/// limit.
pub open spec fn advanced(offset: int, len: int) -> int {
    if offset + len > usize::MAX {
        usize::MAX as int
    } else {
        offset + len
    }
}

/// The spans a segment list produces from a starting byte offset: one span
/// per segment, each beginning where the previous ended.
pub open spec fn spans_of_segments(segs: Seq<(u8, u8, u8, usize)>, offset: int) -> Seq<HlModel>
    decreases segs.len(),
{
    if segs.len() == 0 {
        Seq::<HlModel>::empty()
    } else {
        let s = segs[0];
        seq![HlModel { start: offset, end: advanced(offset, s.3 as int), color: (s.0, s.1, s.2) }]
            + spans_of_segments(segs.subrange(1, segs.len() as int), advanced(offset, s.3 as int))
    }
}

/// The byte offset after a segment list.
pub open spec fn offset_after(segs: Seq<(u8, u8, u8, usize)>, offset: int) -> int
    decreases segs.len(),
{
    if segs.len() == 0 {
        offset
    } else {
        offset_after(segs.subrange(1, segs.len() as int), advanced(offset, segs[0].3 as int))
    }
}

/// Segment spans form a chain from their offset to the final offset.
proof fn lemma_segment_spans_chain(segs: Seq<(u8, u8, u8, usize)>, offset: int)
    requires
        0 <= offset <= usize::MAX,
    ensures
        hl_chain(spans_of_segments(segs, offset), offset_after(segs, offset)),
        offset <= offset_after(segs, offset) <= usize::MAX,
        spans_of_segments(segs, offset).len() > 0 ==> spans_of_segments(segs, offset)[0].start
            == offset,
    decreases segs.len(),
{
    if segs.len() > 0 {
        let next = advanced(offset, segs[0].3 as int);
        lemma_segment_spans_chain(segs.subrange(1, segs.len() as int), next);
        let out = spans_of_segments(segs, offset);
        let rest = spans_of_segments(segs.subrange(1, segs.len() as int), next);
        assert(out =~= seq![
            HlModel { start: offset, end: next, color: (segs[0].0, segs[0].1, segs[0].2) },
        ] + rest);
    }
}

/// Append one span per segment, each starting where the previous one ended;
/// returns the byte offset after the last segment. Lengths accumulate with
/// saturation, so the result is defined for every segment list.
pub fn append_segment_spans(
    spans: &mut Vec<HighlightSpan>,
    offset: usize,
    segments: &Vec<(u8, u8, u8, usize)>,
) -> (new_offset: usize)
    ensures
        hl_models(final(spans)@) == hl_models(old(spans)@) + spans_of_segments(
            segments@,
            offset as int,
        ),
        new_offset as int == offset_after(segments@, offset as int),
        offset <= new_offset,
{
    let ghost base = hl_models(spans@);
    let mut pos: usize = offset;
    let n = segments.len();
    let mut i: usize = 0;
    proof {
        assert(segments@.subrange(0, n as int) =~= segments@);
        assert(base + spans_of_segments(segments@, offset as int) == base + spans_of_segments(
            segments@.subrange(0, n as int),
            pos as int,
        ));
    }
    while i < n
        invariant
            n == segments@.len(),
            i <= n,
            offset <= pos,
            hl_models(spans@) + spans_of_segments(
                segments@.subrange(i as int, n as int),
                pos as int,
            ) == hl_models(old(spans)@) + spans_of_segments(segments@, offset as int),
            offset_after(segments@.subrange(i as int, n as int), pos as int) == offset_after(
                segments@,
                offset as int,
            ),
        decreases n - i,
    {
        let ghost prev = hl_models(spans@);
        let ghost suf = segments@.subrange(i as int, n as int);
        proof {
            assert(suf[0] == segments@[i as int]);
            assert(suf.subrange(1, suf.len() as int) =~= segments@.subrange(i + 1, n as int));
        }
        let (cr, cg, cb, len) = segments[i];
        let end: usize = if len > usize::MAX - pos {
            usize::MAX
        } else {
            pos + len
        };
        spans.push(HighlightSpan { range: (pos, end), color: (cr, cg, cb) });
        proof {
            assert(hl_models(spans@) =~= prev.push(
                HlModel {
                    start: pos as int,
                    end: end as int,
                    color: (suf[0].0, suf[0].1, suf[0].2),
                },
            ));
            assert(hl_models(spans@) =~= prev + seq![
                HlModel {
                    start: pos as int,
                    end: end as int,
                    color: (suf[0].0, suf[0].1, suf[0].2),
                },
            ]);
            assert((prev + seq![
                HlModel {
                    start: pos as int,
                    end: end as int,
                    color: (suf[0].0, suf[0].1, suf[0].2),
                },
            ]) + spans_of_segments(segments@.subrange(i + 1, n as int), end as int) =~= prev + (
            seq![
                HlModel {
                    start: pos as int,
                    end: end as int,
                    color: (suf[0].0, suf[0].1, suf[0].2),
                },
            ] + spans_of_segments(segments@.subrange(i + 1, n as int), end as int)));
        }
        pos = end;
        i = i + 1;
    }
    proof {
        assert(segments@.subrange(n as int, n as int) =~= Seq::<(u8, u8, u8, usize)>::empty());
        assert(hl_models(spans@) + Seq::<HlModel>::empty() =~= hl_models(spans@));
    }
    pos
}

/// The concatenation of a sequence of lines.
pub open spec fn joined(ls: Seq<Seq<char>>) -> Seq<char>
    decreases ls.len(),
{
    if ls.len() == 0 {
        Seq::<char>::empty()
    } else {
        ls[0] + joined(ls.subrange(1, ls.len() as int))
    }
}

/// Split the code into lines, each keeping its trailing newline; the last
/// line may lack one. The lines concatenate back to the input.
fn split_lines(code: &str) -> (r: Vec<String>)
    ensures
        joined(Seq::new(r@.len(), |i: int| r@[i]@)) == code@,
{
    let mut out: Vec<String> = Vec::new();
    let mut cur = String::new();
    let n = code.unicode_len();
    let mut i: usize = 0;
    proof {
        assert(Seq::new(0nat, |j: int| Seq::<char>::empty()) =~= Seq::<Seq<char>>::empty());
        assert(joined(Seq::new(out@.len(), |j: int| out@[j]@)) + cur@ + code@.skip(0) =~= code@);
    }
    while i < n
        invariant
            n == code@.len(),
            i <= n,
            joined(Seq::new(out@.len(), |j: int| out@[j]@)) + cur@ + code@.skip(i as int)
                == code@,
        decreases n - i,
    {
        let ghost lines_before = Seq::new(out@.len(), |j: int| out@[j]@);
        let ghost cur_before = cur@;
        let c = code.get_char(i);
        proof {
            assert(code@.skip(i as int)[0] == code@[i as int]);
            assert(code@.skip(i as int).drop_first() =~= code@.skip(i as int + 1));
        }
        crate::editor::math_view::push_char(&mut cur, c);
        if c == '\n' {
            out.push(cur);
            cur = String::new();
            proof {
                let lines_now = Seq::new(out@.len(), |j: int| out@[j]@);
                assert(lines_now =~= lines_before.push(cur_before.push(c)));
                lemma_joined_push(lines_before, cur_before.push(c));
                assert((joined(lines_before) + cur_before.push(c)) + code@.skip(i as int + 1)
                    =~= (joined(lines_before) + cur_before) + (seq![c] + code@.skip(
                    i as int + 1,
                )));
                assert(seq![c] + code@.skip(i as int + 1) =~= code@.skip(i as int));
                assert(joined(lines_now) + cur@ + code@.skip(i as int + 1) =~= joined(
                    lines_before,
                ) + cur_before.push(c) + code@.skip(i as int + 1));
            }
        } else {
            proof {
                let lines_now = Seq::new(out@.len(), |j: int| out@[j]@);
                assert(lines_now =~= lines_before);
                assert((joined(lines_before) + cur_before.push(c)) + code@.skip(i as int + 1)
                    =~= (joined(lines_before) + cur_before) + (seq![c] + code@.skip(
                    i as int + 1,
                )));
                assert(seq![c] + code@.skip(i as int + 1) =~= code@.skip(i as int));
            }
        }
        i = i + 1;
    }
    if cur.unicode_len() > 0 {
        let ghost lines_before = Seq::new(out@.len(), |j: int| out@[j]@);
        let ghost cur_before = cur@;
        out.push(cur);
        proof {
            let lines_now = Seq::new(out@.len(), |j: int| out@[j]@);
            assert(lines_now =~= lines_before.push(cur_before));
            lemma_joined_push(lines_before, cur_before);
            assert(code@.skip(n as int) =~= Seq::<char>::empty());
            assert(joined(lines_now) =~= joined(lines_before) + cur_before);
            assert(joined(lines_now) =~= code@);
        }
    } else {
        proof {
            assert(code@.skip(n as int) =~= Seq::<char>::empty());
            assert(cur@ =~= Seq::<char>::empty());
            assert(joined(Seq::new(out@.len(), |j: int| out@[j]@)) =~= code@);
        }
    }
    out
}

/// Appending a line extends the concatenation by that line.
proof fn lemma_joined_push(ls: Seq<Seq<char>>, line: Seq<char>)
    ensures
        joined(ls.push(line)) == joined(ls) + line,
    decreases ls.len(),
{
    if ls.len() == 0 {
        let pushed = ls.push(line);
        assert(pushed.len() == 1);
        assert(pushed[0] == line);
        assert(pushed.subrange(1, pushed.len() as int) =~= Seq::<Seq<char>>::empty());
        assert(joined(pushed.subrange(1, pushed.len() as int)) == Seq::<char>::empty());
        assert(joined(pushed) == line + Seq::<char>::empty());
        assert(joined(ls) == Seq::<char>::empty());
        assert(line + Seq::<char>::empty() =~= Seq::<char>::empty() + line);
    } else {
        let tail = ls.subrange(1, ls.len() as int);
        assert(ls.push(line)[0] == ls[0]);
        assert(ls.push(line).subrange(1, ls.len() as int + 1) =~= tail.push(line));
        lemma_joined_push(tail, line);
        assert(joined(ls.push(line)) == ls[0] + joined(tail.push(line)));
        assert(ls[0] + (joined(tail) + line) =~= (ls[0] + joined(tail)) + line);
        assert(joined(ls) == ls[0] + joined(tail));
        assert(joined(ls.push(line)) =~= joined(ls) + line);
    }
}

/// Relies on `syntect::parsing::SyntaxSet` as an opaque value.
#[verifier::external_type_specification]
#[verifier::external_body]
pub struct ExSyntaxSet(syntect::parsing::SyntaxSet);

/// Relies on `syntect::parsing::SyntaxReference` as an opaque value.
#[verifier::external_type_specification]
#[verifier::external_body]
pub struct ExSyntaxReference(syntect::parsing::SyntaxReference);

/// Relies on `syntect::highlighting::Theme` as an opaque value.
#[verifier::external_type_specification]
#[verifier::external_body]
pub struct ExTheme(syntect::highlighting::Theme);

/// Relies on `syntect::easy::HighlightLines` as an opaque value.
#[verifier::external_type_specification]
#[verifier::external_body]
pub struct ExHighlightLines<'a>(syntect::easy::HighlightLines<'a>);

/// Relies on `SyntaxSet::load_defaults_newlines`: the bundled syntax
/// definitions, newline variants.
#[verifier::external_body]
fn load_syntax_set() -> syntect::parsing::SyntaxSet {
    syntect::parsing::SyntaxSet::load_defaults_newlines()
}

/// Relies on `SyntaxSet::find_syntax_by_token`: looks a syntax up by
/// name or file extension.
#[verifier::external_body]
fn syntax_by_token<'a>(
    ss: &'a syntect::parsing::SyntaxSet,
    language: &str,
) -> Option<&'a syntect::parsing::SyntaxReference> {
    ss.find_syntax_by_token(language)
}

/// Relies on `SyntaxSet::find_syntax_by_name`: looks a syntax up by its
/// exact name.
#[verifier::external_body]
fn syntax_by_name<'a>(
    ss: &'a syntect::parsing::SyntaxSet,
    name: &str,
) -> Option<&'a syntect::parsing::SyntaxReference> {
    ss.find_syntax_by_name(name)
}

/// Relies on the public `name` field of `SyntaxReference`.
#[verifier::external_body]
fn syntax_name(s: &syntect::parsing::SyntaxReference) -> String {
    s.name.clone()
}

/// Relies on `ThemeSet::load_defaults` and `BTreeMap::get`: the bundled
/// theme of that name, if present.
#[verifier::external_body]
fn load_theme(name: &str) -> Option<syntect::highlighting::Theme> {
    syntect::highlighting::ThemeSet::load_defaults().themes.get(name).cloned()
}

/// Relies on `HighlightLines::new`: a fresh line highlighter for the given
/// syntax and theme.
#[verifier::external_body]
fn new_highlighter<'a>(
    syntax: &syntect::parsing::SyntaxReference,
    theme: &'a syntect::highlighting::Theme,
) -> syntect::easy::HighlightLines<'a> {
    syntect::easy::HighlightLines::new(syntax, theme)
}

/// Relies on `HighlightLines::highlight_line`: each returned segment is
/// reduced to its foreground color and its byte length.
#[verifier::external_body]
fn highlight_line_segments(
    h: &mut syntect::easy::HighlightLines,
    line: &str,
    ss: &syntect::parsing::SyntaxSet,
) -> Option<Vec<(u8, u8, u8, usize)>> {
    match h.highlight_line(line, ss) {
        Ok(v) => Some(
            v.into_iter().map(
                |(st, t)| (st.foreground.r, st.foreground.g, st.foreground.b, t.len()),
            ).collect(),
        ),
        Err(_) => None,
    }
}

/// One unstyled span covering the whole code: the fallback for an unknown
/// language or a missing theme.
fn fallback_result(code: &str) -> (r: HighlightResult)
    ensures
        hl_models(r.spans@) == seq![
            HlModel {
                start: 0,
                end: code.spec_bytes().len() as int,
                color: (200u8, 200u8, 200u8),
            },
        ],
{
    let mut spans: Vec<HighlightSpan> = Vec::new();
    let byte_len = code.as_bytes().len();
    spans.push(HighlightSpan { range: (0, byte_len), color: (200, 200, 200) });
    proof {
        assert(hl_models(spans@) =~= seq![
            HlModel {
                start: 0,
                end: code.spec_bytes().len() as int,
                color: (200u8, 200u8, 200u8),
            },
        ]);
    }
    HighlightResult { spans }
}

/// Highlight `code` according to `language` and return colored spans with
/// byte ranges into the code.
///
/// Empty code yields no spans. An unknown language yields one unstyled
/// span over the whole code. Whatever the highlighting library reports,
/// the spans come back ordered and non-overlapping: a line that fails to
/// highlight contributes none and the following lines keep their offsets.
pub fn highlight(code: &str, language: &str) -> (r: HighlightResult)
    ensures
        code@.len() == 0 ==> r.spans@.len() == 0,
        hl_chain(hl_models(r.spans@), usize::MAX as int),
{
    if code.is_empty() {
        return HighlightResult { spans: Vec::new() };
    }
    let ss = load_syntax_set();
    let syntax = match syntax_by_token(&ss, language) {
        Option::Some(s) => s,
        Option::None => {
            match syntax_by_name(&ss, "Plain Text") {
                Option::Some(p) => p,
                Option::None => {
                    return fallback_result(code);
                },
            }
        },
    };
    let name = syntax_name(syntax);
    let is_plain = str_eq(name.as_str(), "Plain Text") && !language.is_empty();
    if is_plain {
        return fallback_result(code);
    }
    let theme = match load_theme("base16-ocean.dark") {
        Option::Some(t) => t,
        Option::None => {
            return fallback_result(code);
        },
    };
    let mut h = new_highlighter(syntax, &theme);
    let lines = split_lines(code);
    let mut spans: Vec<HighlightSpan> = Vec::new();
    let mut offset: usize = 0;
    let n = lines.len();
    let mut i: usize = 0;
    while i < n
        invariant
            n == lines@.len(),
            i <= n,
            hl_chain(hl_models(spans@), offset as int),
            offset <= usize::MAX,
        decreases n - i,
    {
        let ghost before = hl_models(spans@);
        let line = &lines[i];
        match highlight_line_segments(&mut h, line.as_str(), &ss) {
            Option::Some(segments) => {
                let new_offset = append_segment_spans(&mut spans, offset, &segments);
                proof {
                    lemma_segment_spans_chain(segments@, offset as int);
                    let fresh = spans_of_segments(segments@, offset as int);
                    assert(hl_models(spans@) =~= before + fresh);
                    assert forall|q: int|
                        0 <= q < hl_models(spans@).len() implies (#[trigger] hl_models(
                        spans@,
                    )[q]).start <= hl_models(spans@)[q].end && hl_models(spans@)[q].end
                        <= new_offset by {
                        if q < before.len() {
                            assert(hl_models(spans@)[q] == before[q]);
                        } else {
                            assert(hl_models(spans@)[q] == fresh[q - before.len()]);
                        }
                    }
                    assert forall|q: int|
                        0 <= q && q + 1 < hl_models(spans@).len() implies (#[trigger] hl_models(
                        spans@,
                    )[q]).end <= hl_models(spans@)[q + 1].start by {
                        if q + 1 < before.len() {
                            assert(hl_models(spans@)[q] == before[q]);
                            assert(hl_models(spans@)[q + 1] == before[q + 1]);
                        } else if q + 1 == before.len() {
                            assert(hl_models(spans@)[q] == before[q]);
                            assert(hl_models(spans@)[q + 1] == fresh[0]);
                        } else {
                            assert(hl_models(spans@)[q] == fresh[q - before.len()]);
                            assert(hl_models(spans@)[q + 1] == fresh[q + 1 - before.len()]);
                        }
                    }
                }
                offset = new_offset;
            },
            Option::None => {
                let line_len = line.as_str().as_bytes().len();
                offset = if line_len > usize::MAX - offset {
                    usize::MAX
                } else {
                    offset + line_len
                };
            },
        }
        i = i + 1;
    }
    HighlightResult { spans }
}

} // verus!
