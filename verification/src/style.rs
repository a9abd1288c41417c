use vstd::prelude::*;

verus! {

/// A terminal color.
#[derive(Debug, Clone, Copy, PartialEq, Eq, Structural)]
pub enum Color {
    /// Default terminal color (no color set).
    Default,
    /// Standard ANSI color (0-15).
    Standard(u8),
    /// 8-bit color (0-255).
    EightBit(u8),
    /// 24-bit RGB color.
    Rgb { r: u8, g: u8, b: u8 },
}

/// Text style: colors and attributes, each either unset (`None`, inherited)
/// or set on or off.
#[derive(Debug, Clone, Copy, PartialEq, Eq, Structural)]
pub struct TextStyle {
    pub color: Option<Color>,
    pub bgcolor: Option<Color>,
    pub bold: Option<bool>,
    pub dim: Option<bool>,
    pub italic: Option<bool>,
    pub underline: Option<bool>,
    pub blink: Option<bool>,
    pub blink2: Option<bool>,
    pub reverse: Option<bool>,
    pub conceal: Option<bool>,
    pub strike: Option<bool>,
    pub underline2: Option<bool>,
    pub frame: Option<bool>,
    pub encircle: Option<bool>,
    pub overline: Option<bool>,
}

/// `b` where it is set, else `a`.
pub open spec fn or_else<T>(b: Option<T>, a: Option<T>) -> Option<T> {
    if b is Some { b } else { a }
}

/// The style with every attribute unset.
pub open spec fn null_style() -> TextStyle {
    TextStyle {
        color: None,
        bgcolor: None,
        bold: None,
        dim: None,
        italic: None,
        underline: None,
        blink: None,
        blink2: None,
        reverse: None,
        conceal: None,
        strike: None,
        underline2: None,
        frame: None,
        encircle: None,
        overline: None,
    }
}

/// `a` combined with `b`: each attribute of `b` that is set wins.
pub open spec fn combined(a: TextStyle, b: TextStyle) -> TextStyle {
    TextStyle {
        color: or_else(b.color, a.color),
        bgcolor: or_else(b.bgcolor, a.bgcolor),
        bold: or_else(b.bold, a.bold),
        dim: or_else(b.dim, a.dim),
        italic: or_else(b.italic, a.italic),
        underline: or_else(b.underline, a.underline),
        blink: or_else(b.blink, a.blink),
        blink2: or_else(b.blink2, a.blink2),
        reverse: or_else(b.reverse, a.reverse),
        conceal: or_else(b.conceal, a.conceal),
        strike: or_else(b.strike, a.strike),
        underline2: or_else(b.underline2, a.underline2),
        frame: or_else(b.frame, a.frame),
        encircle: or_else(b.encircle, a.encircle),
        overline: or_else(b.overline, a.overline),
    }
}

fn pick<T: Copy>(b: Option<T>, a: Option<T>) -> (r: Option<T>)
    ensures
        r == or_else(b, a),
{
    match b {
        Some(x) => Some(x),
        None => a,
    }
}

impl TextStyle {
    /// The style with every attribute unset.
    pub fn new() -> (r: Self)
        ensures
            r == null_style(),
    {
        TextStyle {
            color: None,
            bgcolor: None,
            bold: None,
            dim: None,
            italic: None,
            underline: None,
            blink: None,
            blink2: None,
            reverse: None,
            conceal: None,
            strike: None,
            underline2: None,
            frame: None,
            encircle: None,
            overline: None,
        }
    }

    /// Combine this style with another, with `other` taking precedence
    /// where it sets an attribute.
    pub fn combine(&self, other: &TextStyle) -> (r: Self)
        ensures
            r == combined(*self, *other),
    {
        TextStyle {
            color: pick(other.color, self.color),
            bgcolor: pick(other.bgcolor, self.bgcolor),
            bold: pick(other.bold, self.bold),
            dim: pick(other.dim, self.dim),
            italic: pick(other.italic, self.italic),
            underline: pick(other.underline, self.underline),
            blink: pick(other.blink, self.blink),
            blink2: pick(other.blink2, self.blink2),
            reverse: pick(other.reverse, self.reverse),
            conceal: pick(other.conceal, self.conceal),
            strike: pick(other.strike, self.strike),
            underline2: pick(other.underline2, self.underline2),
            frame: pick(other.frame, self.frame),
            encircle: pick(other.encircle, self.encircle),
            overline: pick(other.overline, self.overline),
        }
    }

    /// Whether every attribute is unset.
    pub fn is_null(&self) -> (r: bool)
        ensures
            r == (*self == null_style()),
    {
        self.color.is_none() && self.bgcolor.is_none() && self.bold.is_none() && self.dim.is_none()
            && self.italic.is_none() && self.underline.is_none() && self.blink.is_none()
            && self.blink2.is_none() && self.reverse.is_none() && self.conceal.is_none()
            && self.strike.is_none() && self.underline2.is_none() && self.frame.is_none()
            && self.encircle.is_none() && self.overline.is_none()
    }

    /// This style with the foreground color set.
    pub fn with_color(self, color: Color) -> (r: Self)
        ensures
            r == (TextStyle { color: Some(color), ..self }),
    {
        TextStyle { color: Some(color), ..self }
    }

    /// This style with the background color set.
    pub fn with_bgcolor(self, color: Color) -> (r: Self)
        ensures
            r == (TextStyle { bgcolor: Some(color), ..self }),
    {
        TextStyle { bgcolor: Some(color), ..self }
    }

    /// This style with bold set.
    pub fn with_bold(self, bold: bool) -> (r: Self)
        ensures
            r == (TextStyle { bold: Some(bold), ..self }),
    {
        TextStyle { bold: Some(bold), ..self }
    }

    /// This style with underline set.
    pub fn with_underline(self, underline: bool) -> (r: Self)
        ensures
            r == (TextStyle { underline: Some(underline), ..self }),
    {
        TextStyle { underline: Some(underline), ..self }
    }

    /// This style with double underline set.
    pub fn with_underline2(self, underline2: bool) -> (r: Self)
        ensures
            r == (TextStyle { underline2: Some(underline2), ..self }),
    {
        TextStyle { underline2: Some(underline2), ..self }
    }

    /// This style with overline set.
    pub fn with_overline(self, overline: bool) -> (r: Self)
        ensures
            r == (TextStyle { overline: Some(overline), ..self }),
    {
        TextStyle { overline: Some(overline), ..self }
    }

    /// This style with strike-through set.
    pub fn with_strike(self, strike: bool) -> (r: Self)
        ensures
            r == (TextStyle { strike: Some(strike), ..self }),
    {
        TextStyle { strike: Some(strike), ..self }
    }
}

impl Default for TextStyle {
    fn default() -> (r: Self)
        ensures
            r == null_style(),
    {
        TextStyle::new()
    }
}

/// A style applied to the characters `start..end` of a text.
#[derive(Debug, Clone, Copy, PartialEq, Eq, Structural)]
pub struct Span {
    pub start: usize,
    pub end: usize,
    pub style: TextStyle,
}

/// Horizontal justification of a line.
#[derive(Debug, Clone, Copy, PartialEq, Eq, Structural)]
pub enum JustifyMethod {
    Default,
    Left,
    Center,
    Right,
    Full,
}

/// What to do with text wider than the available width.
#[derive(Debug, Clone, Copy, PartialEq, Eq, Structural)]
pub enum OverflowMethod {
    Fold,
    Crop,
    Ellipsis,
    Ignore,
}

/// A piece of rendered output: text with an optional style.
#[derive(Debug)]
pub struct Segment {
    pub text: String,
    pub style: Option<TextStyle>,
}

} // verus!
