use vstd::prelude::*;

use std::sync::Arc;

use crate::chars::{str_chars, string_from_chars};
use crate::font::Font;
use crate::richtext::{markup_text, parse_markup};
use crate::style::{JustifyMethod, OverflowMethod, Span, TextStyle, null_style};

verus! {

/// How to apply styles that fall inside a ligature glyph.
#[derive(Debug, Clone, Copy, PartialEq, Eq, Structural)]
pub enum LigatureStyleMethod {
    /// Extend the style from the first character of the ligature.
    First,
    /// Extend the style from the last character of the ligature.
    Last,
}

/// Plain text with a base style and styled spans.
#[derive(Debug)]
pub struct StyledText {
    pub plain: String,
    pub style: Option<TextStyle>,
    pub spans: Vec<Span>,
}

/// Characters that control codes stripping removes: bell, backspace,
/// vertical tab, form feed and carriage return.
pub open spec fn is_control_code(c: char) -> bool {
    c == '\x07' || c == '\x08' || c == '\x0B' || c == '\x0C' || c == '\r'
}

/// `s` without its control codes.
pub open spec fn strip_controls(s: Seq<char>) -> Seq<char>
    decreases s.len(),
{
    if s.len() == 0 {
        Seq::empty()
    } else {
        let r = strip_controls(s.drop_last());
        if is_control_code(s.last()) { r } else { r.push(s.last()) }
    }
}

/// Removes control codes from a text.
///
/// Trusted wrapper of `rich_rs::strip_control_codes`, which keeps every
/// character but bell, backspace, vertical tab, form feed and carriage
/// return, in order.
#[verifier::external_body]
fn strip_control_codes(s: &str) -> (r: String)
    ensures
        r@ == strip_controls(s@),
{
    rich_rs::strip_control_codes(s)
}

/// Large decorative text rendered using Unicode box-drawing glyphs.
pub struct Typography {
    pub text: String,
    pub style: TextStyle,
    pub spans: Vec<Span>,
    pub justify: Option<JustifyMethod>,
    pub overflow: Option<OverflowMethod>,
    pub no_wrap: Option<bool>,
    pub tab_size: Option<usize>,
    pub font: Arc<Font>,
    pub adjust_spacing: i32,
    pub use_kerning: bool,
    pub use_ligatures: bool,
    pub style_ligatures: Option<LigatureStyleMethod>,
}

/// The spans that remain when a text shrinks to `n` characters: those that
/// start before `n`, each ending at `n` at the latest.
pub open spec fn clipped_spans(spans: Seq<Span>, n: nat) -> Seq<Span>
    decreases spans.len(),
{
    if spans.len() == 0 {
        Seq::empty()
    } else {
        let r = clipped_spans(spans.drop_last(), n);
        let s = spans.last();
        if s.start < n {
            r.push(Span { end: if s.end > n { n as usize } else { s.end }, ..s })
        } else {
            r
        }
    }
}

pub(crate) fn copy_spans(v: &Vec<Span>) -> (r: Vec<Span>)
    ensures
        r@ == v@,
{
    let mut r: Vec<Span> = Vec::new();
    let mut i: usize = 0;
    while i < v.len()
        invariant
            i <= v@.len(),
            r@ == v@.take(i as int),
        decreases v@.len() - i,
    {
        r.push(v[i]);
        i = i + 1;
        assert(r@ =~= v@.take(i as int));
    }
    assert(v@.take(i as int) =~= v@);
    r
}

impl Typography {
    /// The plain text.
    pub open spec fn text_view(&self) -> Seq<char> {
        self.text@
    }

    /// The text holds no control codes: every constructor and `set_plain`
    /// remove them, and every other operation keeps the text or sets it
    /// through `set_plain`.
    pub open spec fn text_clean(&self) -> bool {
        forall|i: int| 0 <= i < self.text_view().len() ==> !is_control_code(#[trigger] self.text_view()[i])
    }

    pub open spec fn base_style(&self) -> TextStyle {
        self.style
    }

    pub open spec fn span_view(&self) -> Seq<Span> {
        self.spans@
    }

    /// Everything but the text and the spans is the same in `self` and `o`.
    pub open spec fn same_settings(&self, o: &Typography) -> bool {
        &&& self.style == o.style
        &&& self.justify == o.justify
        &&& self.overflow == o.overflow
        &&& self.no_wrap == o.no_wrap
        &&& self.tab_size == o.tab_size
        &&& self.font == o.font
        &&& self.adjust_spacing == o.adjust_spacing
        &&& self.use_kerning == o.use_kerning
        &&& self.use_ligatures == o.use_ligatures
        &&& self.style_ligatures == o.style_ligatures
    }

    /// The spans after the plain text is replaced by `t`: when the text gets
    /// shorter, spans starting past its end are dropped and the others
    /// clipped to it.
    pub open spec fn spans_for_plain(&self, t: Seq<char>) -> Seq<Span> {
        let n = strip_controls(t).len();
        if self.text_view().len() > n { clipped_spans(self.span_view(), n) } else { self.span_view() }
    }

    /// Create a new `Typography` instance; control codes are removed from `text`.
    pub fn new(
        text: &str,
        style: TextStyle,
        font: Arc<Font>,
        adjust_spacing: i32,
        use_kerning: bool,
        use_ligatures: bool,
        style_ligatures: Option<LigatureStyleMethod>,
    ) -> (r: Self)
        ensures
            r.text_view() == strip_controls(text@),
            r.text_clean(),
            r.base_style() == style,
            r.span_view() == Seq::<Span>::empty(),
            r.justify is None,
            r.overflow is None,
            r.no_wrap is None,
            r.tab_size is None,
            r.font == font,
            r.adjust_spacing == adjust_spacing,
            r.use_kerning == use_kerning,
            r.use_ligatures == use_ligatures,
            r.style_ligatures == style_ligatures,
    {
        proof {
            crate::laws::law_strip_controls(text@);
        }
        let text = strip_control_codes(text);
        Typography {
            text,
            style,
            spans: Vec::new(),
            justify: None,
            overflow: None,
            no_wrap: None,
            tab_size: None,
            font,
            adjust_spacing,
            use_kerning,
            use_ligatures,
            style_ligatures,
        }
    }

    /// Create from a styled text: control codes are removed from its plain
    /// text, its base style (the null style when it has none) and its spans
    /// are kept.
    pub fn from_text(
        text: &StyledText,
        font: Arc<Font>,
        adjust_spacing: i32,
        use_kerning: bool,
        use_ligatures: bool,
        style_ligatures: Option<LigatureStyleMethod>,
    ) -> (r: Self)
        ensures
            r.text_view() == strip_controls(text.plain@),
            r.text_clean(),
            r.base_style() == text.style.unwrap_or(null_style()),
            r.span_view() == text.spans@,
            r.justify is None,
            r.overflow is None,
            r.no_wrap is None,
            r.tab_size is None,
            r.font == font,
            r.adjust_spacing == adjust_spacing,
            r.use_kerning == use_kerning,
            r.use_ligatures == use_ligatures,
            r.style_ligatures == style_ligatures,
    {
        let plain = strip_control_codes(text.plain.as_str());
        proof {
            crate::laws::law_strip_controls(text.plain@);
        }
        let base_style = match text.style {
            Some(s) => s,
            None => TextStyle::new(),
        };
        let spans = copy_spans(&text.spans);
        Typography {
            text: plain,
            style: base_style,
            spans,
            justify: None,
            overflow: None,
            no_wrap: None,
            tab_size: None,
            font,
            adjust_spacing,
            use_kerning,
            use_ligatures,
            style_ligatures,
        }
    }

    /// Create from rich markup (e.g. `"[bold red]Hello[/] World"`): the text
    /// that the markup reads as, made a typography as `from_text` does, with
    /// a non-null `style` combined on top of its base style and the
    /// justification and overflow set; the parse error's message when the
    /// markup does not read.
    pub fn from_markup(
        markup: &str,
        style: TextStyle,
        font: Arc<Font>,
        adjust_spacing: i32,
        use_kerning: bool,
        use_ligatures: bool,
        style_ligatures: Option<LigatureStyleMethod>,
        justify: Option<JustifyMethod>,
        overflow: Option<OverflowMethod>,
    ) -> (r: Result<Self, String>)
        ensures
            match r {
                Ok(t) => markup_text(markup@) matches Some(v) && {
                    let b = v.1.unwrap_or(null_style());
                    &&& t.text_view() == strip_controls(v.0)
                    &&& t.text_clean()
                    &&& t.span_view() == v.2
                    &&& t.base_style() == (if style == null_style() { b } else { crate::style::combined(b, style) })
                    &&& t.justify == justify
                    &&& t.overflow == overflow
                    &&& t.no_wrap is None
                    &&& t.tab_size is None
                    &&& t.font == font
                    &&& t.adjust_spacing == adjust_spacing
                    &&& t.use_kerning == use_kerning
                    &&& t.use_ligatures == use_ligatures
                    &&& t.style_ligatures == style_ligatures
                },
                Err(_) => markup_text(markup@) is None,
            },
    {
        match parse_markup(markup) {
            Ok(text) => {
                let t = Self::from_text(&text, font, adjust_spacing, use_kerning, use_ligatures, style_ligatures);
                Ok(t.with_markup_settings(style, justify, overflow))
            },
            Err(e) => Err(e),
        }
    }

    /// Apply the parts of a markup reading that markup construction adds:
    /// a non-null `style` is combined on top of the base style, and the
    /// justification and overflow are set.
    pub fn with_markup_settings(
        self,
        style: TextStyle,
        justify: Option<JustifyMethod>,
        overflow: Option<OverflowMethod>,
    ) -> (r: Self)
        ensures
            r.text_view() == self.text_view(),
            r.span_view() == self.span_view(),
            r.base_style() == (if style == null_style() { self.base_style() } else { crate::style::combined(self.base_style(), style) }),
            r.justify == justify,
            r.overflow == overflow,
            r.no_wrap == self.no_wrap,
            r.tab_size == self.tab_size,
            r.font == self.font,
            r.adjust_spacing == self.adjust_spacing,
            r.use_kerning == self.use_kerning,
            r.use_ligatures == self.use_ligatures,
            r.style_ligatures == self.style_ligatures,
    {
        let mut result = self;
        if !style.is_null() {
            result.style = result.style.combine(&style);
        }
        result.justify = justify;
        result.overflow = overflow;
        result
    }

    /// Convert back to a styled text: the plain text, the base style and the spans.
    pub fn to_text(&self) -> (r: StyledText)
        ensures
            r.plain@ == self.text_view(),
            r.style == Some(self.base_style()),
            r.spans@ == self.span_view(),
    {
        StyledText { plain: self.text.clone(), style: Some(self.style), spans: copy_spans(&self.spans) }
    }

    /// Return a copy of this `Typography`, sharing the font.
    pub fn copy(&self) -> (r: Self)
        ensures
            r.text_view() == self.text_view(),
            r.base_style() == self.base_style(),
            r.span_view() == self.span_view(),
            r.justify == self.justify,
            r.overflow == self.overflow,
            r.no_wrap == self.no_wrap,
            r.tab_size == self.tab_size,
            r.font == self.font,
            r.adjust_spacing == self.adjust_spacing,
            r.use_kerning == self.use_kerning,
            r.use_ligatures == self.use_ligatures,
            r.style_ligatures == self.style_ligatures,
    {
        Typography {
            text: self.text.clone(),
            style: self.style,
            spans: copy_spans(&self.spans),
            justify: self.justify,
            overflow: self.overflow,
            no_wrap: self.no_wrap,
            tab_size: self.tab_size,
            font: Arc::clone(&self.font),
            adjust_spacing: self.adjust_spacing,
            use_kerning: self.use_kerning,
            use_ligatures: self.use_ligatures,
            style_ligatures: self.style_ligatures,
        }
    }

    /// The plain text.
    pub fn plain(&self) -> (r: &str)
        ensures
            r@ == self.text_view(),
    {
        self.text.as_str()
    }

    /// Replace the plain text (control codes removed); when it gets shorter,
    /// spans starting past its end are dropped and the others clipped to it.
    pub fn set_plain(&mut self, new_text: &str)
        ensures
            final(self).text_view() == strip_controls(new_text@),
            final(self).text_clean(),
            final(self).span_view() == old(self).spans_for_plain(new_text@),
            final(self).same_settings(old(self)),
    {
        let sanitized = strip_control_codes(new_text);
        proof {
            crate::laws::law_strip_controls(new_text@);
        }
        let old_len = str_chars(self.text.as_str()).len();
        let new_len = str_chars(sanitized.as_str()).len();
        self.text = sanitized;
        if old_len > new_len {
            let ghost sp = self.spans@;
            let mut kept: Vec<Span> = Vec::new();
            let mut i: usize = 0;
            while i < self.spans.len()
                invariant
                    sp == self.spans@,
                    i <= sp.len(),
                    kept@ == clipped_spans(sp.take(i as int), new_len as nat),
                decreases sp.len() - i,
            {
                assert(sp.take(i + 1).drop_last() =~= sp.take(i as int));
                let s = self.spans[i];
                if s.start < new_len {
                    kept.push(Span { end: if s.end > new_len { new_len } else { s.end }, ..s });
                }
                i = i + 1;
            }
            assert(sp.take(i as int) =~= sp);
            self.spans = kept;
        }
    }
}

} // verus!
