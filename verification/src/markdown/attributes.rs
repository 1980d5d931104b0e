//! The attribute-set model: a closed vocabulary of style facts and named
//! constructors for the semantic roles the run compiler emits.

use vstd::prelude::*;

verus! {

use vstd::string::StringSliceAdditionalSpecFns;

/// Platform-agnostic description of how a text range should be styled.
/// Converted to concrete rendering attributes by the host's bridge layer.
#[derive(Debug, Clone, PartialEq)]
pub enum TextAttribute {
    Bold,
    Italic,
    Monospace,
    Hidden,
    FontSize(u8),
    /// Named color token resolved by the host's active color scheme.
    ForegroundColor(&'static str),
    BackgroundColor(&'static str),
    ListMarker,
    BlockquoteBar,
    Strikethrough,
    /// In tenths of a point (e.g. 96 = 9.6pt).
    LineSpacing(u32),
    /// Marks an H1/H2 heading paragraph: the host may draw a separator line
    /// above it (only when content precedes it in the document).
    HeadingSeparator,
}

/// Mathematical model of a [`TextAttribute`]: color tokens become character
/// sequences, numeric payloads become unbounded integers.
pub enum AttrModel {
    Bold,
    Italic,
    Monospace,
    Hidden,
    FontSize(int),
    ForegroundColor(Seq<char>),
    BackgroundColor(Seq<char>),
    ListMarker,
    BlockquoteBar,
    Strikethrough,
    LineSpacing(int),
    HeadingSeparator,
}

impl DeepView for TextAttribute {
    type V = AttrModel;

    open spec fn deep_view(&self) -> AttrModel {
        match self {
            TextAttribute::Bold => AttrModel::Bold,
            TextAttribute::Italic => AttrModel::Italic,
            TextAttribute::Monospace => AttrModel::Monospace,
            TextAttribute::Hidden => AttrModel::Hidden,
            TextAttribute::FontSize(s) => AttrModel::FontSize(*s as int),
            TextAttribute::ForegroundColor(t) => AttrModel::ForegroundColor(t@),
            TextAttribute::BackgroundColor(t) => AttrModel::BackgroundColor(t@),
            TextAttribute::ListMarker => AttrModel::ListMarker,
            TextAttribute::BlockquoteBar => AttrModel::BlockquoteBar,
            TextAttribute::Strikethrough => AttrModel::Strikethrough,
            TextAttribute::LineSpacing(s) => AttrModel::LineSpacing(*s as int),
            TextAttribute::HeadingSeparator => AttrModel::HeadingSeparator,
        }
    }
}

/// Equality of two `&str` values, decided on their UTF-8 bytes.
pub(crate) fn str_eq(a: &str, b: &str) -> (r: bool)
    ensures
        r == (a@ == b@),
{
    let ab = a.as_bytes();
    let bb = b.as_bytes();
    if ab.len() != bb.len() {
        proof {
            if a@ == b@ {
                assert(a.spec_bytes() == b.spec_bytes());
            }
        }
        return false;
    }
    let n = ab.len();
    let mut i: usize = 0;
    while i < n
        invariant
            n == ab@.len() == bb@.len(),
            i <= n,
            ab@ == a.spec_bytes(),
            bb@ == b.spec_bytes(),
            forall|j: int| 0 <= j < i ==> ab@[j] == bb@[j],
        decreases n - i,
    {
        if ab[i] != bb[i] {
            proof {
                if a@ == b@ {
                    assert(a.spec_bytes() == b.spec_bytes());
                }
            }
            return false;
        }
        i = i + 1;
    }
    proof {
        assert(a.spec_bytes() =~= b.spec_bytes());
        vstd::utf8::encode_utf8_decode_utf8(a@);
        vstd::utf8::encode_utf8_decode_utf8(b@);
    }
    true
}

/// Equality of two attributes, decided on their models (color tokens are
/// compared by content).
fn attr_eq(a: &TextAttribute, b: &TextAttribute) -> (r: bool)
    ensures
        r == (a.deep_view() == b.deep_view()),
{
    match (a, b) {
        (TextAttribute::Bold, TextAttribute::Bold) => true,
        (TextAttribute::Italic, TextAttribute::Italic) => true,
        (TextAttribute::Monospace, TextAttribute::Monospace) => true,
        (TextAttribute::Hidden, TextAttribute::Hidden) => true,
        (TextAttribute::FontSize(x), TextAttribute::FontSize(y)) => x == y,
        (TextAttribute::ForegroundColor(x), TextAttribute::ForegroundColor(y)) => str_eq(x, y),
        (TextAttribute::BackgroundColor(x), TextAttribute::BackgroundColor(y)) => str_eq(x, y),
        (TextAttribute::ListMarker, TextAttribute::ListMarker) => true,
        (TextAttribute::BlockquoteBar, TextAttribute::BlockquoteBar) => true,
        (TextAttribute::Strikethrough, TextAttribute::Strikethrough) => true,
        (TextAttribute::LineSpacing(x), TextAttribute::LineSpacing(y)) => x == y,
        (TextAttribute::HeadingSeparator, TextAttribute::HeadingSeparator) => true,
        _ => false,
    }
}

/// An unordered collection of style facts (duplicates are harmless).
#[derive(Debug, Clone, Default)]
pub struct AttributeSet(Vec<TextAttribute>);

impl View for AttributeSet {
    type V = Seq<AttrModel>;

    closed spec fn view(&self) -> Seq<AttrModel> {
        self.0.deep_view()
    }
}

impl DeepView for AttributeSet {
    type V = Seq<AttrModel>;

    open spec fn deep_view(&self) -> Seq<AttrModel> {
        self.view()
    }
}

/// The font size an attribute sequence asks for: the first `FontSize` fact,
/// defaulting to 16 points when none is present.
pub open spec fn font_size_of(s: Seq<AttrModel>) -> int
    decreases s.len(),
{
    if s.len() == 0 {
        16
    } else if s[0] is FontSize {
        s[0]->FontSize_0
    } else {
        font_size_of(s.drop_first())
    }
}

/// The point size of a heading of the given level.
pub open spec fn heading_size(level: int) -> int {
    if level == 1 {
        32
    } else if level == 2 {
        26
    } else if level == 3 {
        21
    } else {
        16
    }
}

/// The model of `AttributeSet::for_heading(level)`: bold, sized by level,
/// colored with the `heading` token, and carrying `HeadingSeparator` exactly
/// for levels 1 and 2.
pub open spec fn heading_attrs(level: int) -> Seq<AttrModel> {
    let base = seq![
        AttrModel::Bold,
        AttrModel::FontSize(heading_size(level)),
        AttrModel::ForegroundColor("heading"@),
    ];
    if level <= 2 {
        base.push(AttrModel::HeadingSeparator)
    } else {
        base
    }
}

/// The model of `AttributeSet::for_strong()`.
pub open spec fn strong_attrs() -> Seq<AttrModel> {
    seq![AttrModel::Bold]
}

/// The model of `AttributeSet::for_emph()`.
pub open spec fn emph_attrs() -> Seq<AttrModel> {
    seq![AttrModel::Italic]
}

/// The model of `AttributeSet::for_strong_emph()`.
pub open spec fn strong_emph_attrs() -> Seq<AttrModel> {
    seq![AttrModel::Bold, AttrModel::Italic]
}

/// The model of `AttributeSet::for_inline_code()`.
pub open spec fn inline_code_attrs() -> Seq<AttrModel> {
    seq![
        AttrModel::Monospace,
        AttrModel::BackgroundColor("code_bg"@),
        AttrModel::ForegroundColor("code_fg"@),
    ]
}

/// The model of `AttributeSet::for_code_block()`.
pub open spec fn code_block_attrs() -> Seq<AttrModel> {
    seq![AttrModel::Monospace, AttrModel::ForegroundColor("code_fg"@)]
}

/// The model of `AttributeSet::for_link()`.
pub open spec fn link_attrs() -> Seq<AttrModel> {
    seq![AttrModel::ForegroundColor("link"@)]
}

/// The model of `AttributeSet::for_strikethrough()`.
pub open spec fn strikethrough_attrs() -> Seq<AttrModel> {
    seq![AttrModel::Strikethrough, AttrModel::ForegroundColor("strikethrough"@)]
}

/// The model of `AttributeSet::for_blockquote()`.
pub open spec fn blockquote_attrs() -> Seq<AttrModel> {
    seq![AttrModel::BlockquoteBar, AttrModel::ForegroundColor("blockquote"@)]
}

/// The model of `AttributeSet::for_list_marker()`.
pub open spec fn list_marker_attrs() -> Seq<AttrModel> {
    seq![AttrModel::ListMarker, AttrModel::ForegroundColor("list_marker"@)]
}

/// The model of `AttributeSet::syntax_hidden()`.
pub open spec fn hidden_attrs() -> Seq<AttrModel> {
    seq![AttrModel::Hidden]
}

/// The model of `AttributeSet::syntax_visible()`.
pub open spec fn visible_attrs() -> Seq<AttrModel> {
    seq![AttrModel::ForegroundColor("syntax"@)]
}

/// The model of `AttributeSet::plain()`.
pub open spec fn plain_attrs() -> Seq<AttrModel> {
    Seq::<AttrModel>::empty()
}

impl AttributeSet {
    pub fn new(attrs: Vec<TextAttribute>) -> (r: Self)
        ensures
            r@ == attrs.deep_view(),
    {
        Self(attrs)
    }

    /// Membership test, comparing color tokens by content.
    pub fn contains(&self, attr: &TextAttribute) -> (r: bool)
        ensures
            r == self@.contains(attr.deep_view()),
    {
        let n = self.0.len();
        let mut i: usize = 0;
        while i < n
            invariant
                n == self.0@.len(),
                i <= n,
                forall|j: int| 0 <= j < i ==> self@[j] != attr.deep_view(),
            decreases n - i,
        {
            if attr_eq(&self.0[i], attr) {
                assert(self@[i as int] == attr.deep_view());
                return true;
            }
            i = i + 1;
        }
        false
    }

    /// The first `FontSize` fact, in points; 16 when none is present.
    pub fn font_size(&self) -> (r: u8)
        ensures
            r as int == font_size_of(self@),
    {
        let n = self.0.len();
        let mut i: usize = 0;
        proof {
            assert(self@.skip(0) =~= self@);
        }
        while i < n
            invariant
                n == self.0@.len(),
                i <= n,
                font_size_of(self@) == font_size_of(self@.skip(i as int)),
        decreases n - i,
        {
            if let TextAttribute::FontSize(s) = self.0[i] {
                assert(self@.skip(i as int)[0] == self@[i as int]);
                return s;
            }
            proof {
                assert(self@.skip(i as int)[0] == self@[i as int]);
                assert(self@.skip(i as int).drop_first() =~= self@.skip(i as int + 1));
            }
            i = i + 1;
        }
        proof {
            assert(self@.skip(n as int) =~= Seq::<AttrModel>::empty());
        }
        16
    }

    /// Read-only access to the underlying facts.
    pub fn attrs(&self) -> (r: &[TextAttribute])
        ensures
            r.deep_view() == self@,
            r@.len() == self@.len(),
    {
        self.0.as_slice()
    }

    pub fn for_strong() -> (r: Self)
        ensures
            r@ =~= strong_attrs(),
    {
        let mut v: Vec<TextAttribute> = Vec::new();
        v.push(TextAttribute::Bold);
        Self(v)
    }

    pub fn for_emph() -> (r: Self)
        ensures
            r@ =~= emph_attrs(),
    {
        let mut v: Vec<TextAttribute> = Vec::new();
        v.push(TextAttribute::Italic);
        Self(v)
    }

    pub fn for_strong_emph() -> (r: Self)
        ensures
            r@ =~= strong_emph_attrs(),
    {
        let mut v: Vec<TextAttribute> = Vec::new();
        v.push(TextAttribute::Bold);
        v.push(TextAttribute::Italic);
        Self(v)
    }

    pub fn for_heading(level: u8) -> (r: Self)
        ensures
            r@ =~= heading_attrs(level as int),
    {
        let size: u8 = if level == 1 {
            32
        } else if level == 2 {
            26
        } else if level == 3 {
            21
        } else {
            16
        };
        let mut v: Vec<TextAttribute> = Vec::new();
        v.push(TextAttribute::Bold);
        v.push(TextAttribute::FontSize(size));
        v.push(TextAttribute::ForegroundColor("heading"));
        if level <= 2 {
            v.push(TextAttribute::HeadingSeparator);
        }
        Self(v)
    }

    pub fn for_inline_code() -> (r: Self)
        ensures
            r@ =~= inline_code_attrs(),
    {
        let mut v: Vec<TextAttribute> = Vec::new();
        v.push(TextAttribute::Monospace);
        v.push(TextAttribute::BackgroundColor("code_bg"));
        v.push(TextAttribute::ForegroundColor("code_fg"));
        Self(v)
    }

    /// Code blocks carry no background fact: the host draws their fill as an
    /// overlay instead of a per-character background.
    pub fn for_code_block() -> (r: Self)
        ensures
            r@ =~= code_block_attrs(),
    {
        let mut v: Vec<TextAttribute> = Vec::new();
        v.push(TextAttribute::Monospace);
        v.push(TextAttribute::ForegroundColor("code_fg"));
        Self(v)
    }

    pub fn for_link() -> (r: Self)
        ensures
            r@ =~= link_attrs(),
    {
        let mut v: Vec<TextAttribute> = Vec::new();
        v.push(TextAttribute::ForegroundColor("link"));
        Self(v)
    }

    pub fn for_strikethrough() -> (r: Self)
        ensures
            r@ =~= strikethrough_attrs(),
    {
        let mut v: Vec<TextAttribute> = Vec::new();
        v.push(TextAttribute::Strikethrough);
        v.push(TextAttribute::ForegroundColor("strikethrough"));
        Self(v)
    }

    pub fn for_blockquote() -> (r: Self)
        ensures
            r@ =~= blockquote_attrs(),
    {
        let mut v: Vec<TextAttribute> = Vec::new();
        v.push(TextAttribute::BlockquoteBar);
        v.push(TextAttribute::ForegroundColor("blockquote"));
        Self(v)
    }

    pub fn for_list_marker() -> (r: Self)
        ensures
            r@ =~= list_marker_attrs(),
    {
        let mut v: Vec<TextAttribute> = Vec::new();
        v.push(TextAttribute::ListMarker);
        v.push(TextAttribute::ForegroundColor("list_marker"));
        Self(v)
    }

    pub fn syntax_hidden() -> (r: Self)
        ensures
            r@ =~= hidden_attrs(),
    {
        let mut v: Vec<TextAttribute> = Vec::new();
        v.push(TextAttribute::Hidden);
        Self(v)
    }

    pub fn syntax_visible() -> (r: Self)
        ensures
            r@ =~= visible_attrs(),
    {
        let mut v: Vec<TextAttribute> = Vec::new();
        v.push(TextAttribute::ForegroundColor("syntax"));
        Self(v)
    }

    pub fn plain() -> (r: Self)
        ensures
            r@ =~= plain_attrs(),
    {
        Self(Vec::new())
    }
}

/// The heading separator fact is granted to levels 1 and 2 and to no other:
/// `for_heading(level)` carries `HeadingSeparator` exactly when `level <= 2`.
pub proof fn lemma_heading_separator_gating(level: int)
    ensures
        heading_attrs(level).contains(AttrModel::HeadingSeparator) <==> level <= 2,
{
    if level <= 2 {
        assert(heading_attrs(level)[3] == AttrModel::HeadingSeparator);
    } else {
        assert forall|i: int| 0 <= i < heading_attrs(level).len() implies heading_attrs(
            level,
        )[i] != AttrModel::HeadingSeparator by {}
    }
}

} // verus!
