use vstd::prelude::*;

use crate::style::{Color, Span, TextStyle};
use crate::typography::StyledText;

verus! {

/// rich's styled text.
#[verifier::external_type_specification]
#[verifier::external_body]
pub struct ExRichText(rich_rs::Text);

/// rich's text style.
#[verifier::external_type_specification]
#[verifier::external_body]
pub struct ExRichStyle(rich_rs::Style);

/// The plain view of a styled text.
pub open spec fn styled_view(t: StyledText) -> (Seq<char>, Option<TextStyle>, Seq<Span>) {
    (t.plain@, t.style, t.spans@)
}

/// The plain views of styled texts.
pub open spec fn styled_views(v: Seq<StyledText>) -> Seq<(Seq<char>, Option<TextStyle>, Seq<Span>)> {
    Seq::new(v.len(), |i: int| styled_view(v[i]))
}

/// The rich style with the same colours and attributes as `s`.
///
/// Trusted conversion: copies each field of `s`, colour by colour variant.
#[verifier::external_body]
fn rich_style(s: &TextStyle) -> rich_rs::Style {
    let c = |x| match x {
        Color::Default => rich_rs::SimpleColor::Default,
        Color::Standard(n) => rich_rs::SimpleColor::Standard(n),
        Color::EightBit(n) => rich_rs::SimpleColor::EightBit(n),
        Color::Rgb { r, g, b } => rich_rs::SimpleColor::Rgb { r, g, b },
    };
    rich_rs::Style { color: s.color.map(c), bgcolor: s.bgcolor.map(c), bold: s.bold, dim: s.dim,
        italic: s.italic, underline: s.underline, blink: s.blink, blink2: s.blink2, reverse: s.reverse,
        conceal: s.conceal, strike: s.strike, underline2: s.underline2, frame: s.frame,
        encircle: s.encircle, overline: s.overline }
}

/// The style with the same colours and attributes as the rich style `s`.
///
/// Trusted conversion: copies each field of `s`, colour by colour variant.
#[verifier::external_body]
fn plain_style(s: &rich_rs::Style) -> TextStyle {
    let c = |x| match x {
        rich_rs::SimpleColor::Default => Color::Default,
        rich_rs::SimpleColor::Standard(n) => Color::Standard(n),
        rich_rs::SimpleColor::EightBit(n) => Color::EightBit(n),
        rich_rs::SimpleColor::Rgb { r, g, b } => Color::Rgb { r, g, b },
    };
    TextStyle { color: s.color.map(c), bgcolor: s.bgcolor.map(c), bold: s.bold, dim: s.dim,
        italic: s.italic, underline: s.underline, blink: s.blink, blink2: s.blink2, reverse: s.reverse,
        conceal: s.conceal, strike: s.strike, underline2: s.underline2, frame: s.frame,
        encircle: s.encircle, overline: s.overline }
}

/// The rich text with the plain text, base style and spans of `t`.
///
/// Trusted conversion through `rich_rs::Text::styled` and `Text::spans_mut`;
/// a missing base style becomes rich's default style.
#[verifier::external_body]
fn rich_text(t: &StyledText) -> rich_rs::Text {
    let base = match t.style { Some(s) => rich_style(&s), None => rich_rs::Style::default() };
    let mut out = rich_rs::Text::styled(t.plain.clone(), base);
    for s in &t.spans {
        out.spans_mut().push(rich_rs::Span::new(s.start, s.end, rich_style(&s.style)));
    }
    out
}

/// The plain text, base style and spans of the rich text `t`.
///
/// Trusted conversion through `Text::plain_text`, `Text::base_style` and
/// `Text::spans`.
#[verifier::external_body]
fn plain_text(t: &rich_rs::Text) -> StyledText {
    StyledText {
        plain: t.plain_text().to_string(),
        style: t.base_style().map(|s| plain_style(&s)),
        spans: t.spans().iter().map(|s| Span { start: s.start, end: s.end, style: plain_style(&s.style) }).collect(),
    }
}

/// What `rich_rs::Text::from_markup` reads from a markup string (with emoji
/// codes replaced): the plain text, base style and spans, or `None` when
/// the markup does not parse.
pub uninterp spec fn markup_text(m: Seq<char>) -> Option<(Seq<char>, Option<TextStyle>, Seq<Span>)>;

/// The lines `rich_rs::Text::split` cuts a styled text into at line breaks
/// (the breaks left out, blank lines kept).
pub uninterp spec fn rich_lines(t: (Seq<char>, Option<TextStyle>, Seq<Span>)) -> Seq<(Seq<char>, Option<TextStyle>, Seq<Span>)>;

/// The styled text `rich_rs::Text::expand_tabs` gives for `tab_size`.
pub uninterp spec fn rich_tabs_expanded(t: (Seq<char>, Option<TextStyle>, Seq<Span>), tab_size: usize) -> (
    Seq<char>,
    Option<TextStyle>,
    Seq<Span>,
);

/// The pieces `rich_rs::Text::divide` cuts a styled text into at `offsets`.
pub uninterp spec fn rich_divided(t: (Seq<char>, Option<TextStyle>, Seq<Span>), offsets: Seq<usize>) -> Seq<
    (Seq<char>, Option<TextStyle>, Seq<Span>),
>;

/// Reads rich markup.
///
/// Trusted wrapper of `rich_rs::Text::from_markup` (emoji codes replaced):
/// its reading is named by `markup_text`, a function of the markup alone;
/// a parse error becomes its message.
#[verifier::external_body]
pub(crate) fn parse_markup(m: &str) -> (r: Result<StyledText, String>)
    ensures
        match r {
            Ok(t) => markup_text(m@) == Some(styled_view(t)),
            Err(_) => markup_text(m@) is None,
        },
{
    match rich_rs::Text::from_markup(m, true) {
        Ok(t) => Ok(plain_text(&t)),
        Err(e) => Err(e.to_string()),
    }
}

/// The lines of a styled text.
///
/// Trusted wrapper of `rich_rs::Text::split` at `"\n"`, the breaks left
/// out and blank lines kept; the lines are named by `rich_lines`.
#[verifier::external_body]
pub(crate) fn split_lines_rich(t: &StyledText) -> (r: Vec<StyledText>)
    ensures
        styled_views(r@) == rich_lines(styled_view(*t)),
{
    rich_text(t).split("\n", false, true).iter().map(plain_text).collect()
}

/// A styled text with its tabs expanded.
///
/// Trusted wrapper of `rich_rs::Text::expand_tabs`; the result is named by
/// `rich_tabs_expanded`.
#[verifier::external_body]
pub(crate) fn expand_tabs_rich(t: &StyledText, tab_size: usize) -> (r: StyledText)
    ensures
        styled_view(r) == rich_tabs_expanded(styled_view(*t), tab_size),
{
    plain_text(&rich_text(t).expand_tabs(tab_size))
}

/// A styled text cut at character offsets.
///
/// Trusted wrapper of `rich_rs::Text::divide`; the pieces are named by
/// `rich_divided`.
#[verifier::external_body]
pub(crate) fn divide_rich(t: &StyledText, offsets: &Vec<usize>) -> (r: Vec<StyledText>)
    ensures
        styled_views(r@) == rich_divided(styled_view(*t), offsets@),
{
    rich_text(t).divide(offsets.iter().copied()).iter().map(plain_text).collect()
}

} // verus!
