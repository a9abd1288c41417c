use vstd::prelude::*;

use crate::chars::str_eq;

verus! {

/// Type of decorative line.
#[derive(Debug, Clone, Copy, PartialEq, Eq, Structural)]
pub enum LineType {
    Underline,
    Underline2,
    Strike,
    Overline,
    Custom,
}

/// The line type named by `s`, if `s` names one.
pub open spec fn line_type_named(s: Seq<char>) -> Option<LineType> {
    if s == "underline"@ {
        Some(LineType::Underline)
    } else if s == "underline2"@ {
        Some(LineType::Underline2)
    } else if s == "strike"@ {
        Some(LineType::Strike)
    } else if s == "overline"@ {
        Some(LineType::Overline)
    } else if s == "custom"@ {
        Some(LineType::Custom)
    } else {
        None
    }
}

impl LineType {
    /// Parses a line type from its lower-case name.
    pub fn from_str(s: &str) -> (r: Option<Self>)
        ensures
            r == line_type_named(s@),
    {
        if str_eq(s, "underline") {
            Some(LineType::Underline)
        } else if str_eq(s, "underline2") {
            Some(LineType::Underline2)
        } else if str_eq(s, "strike") {
            Some(LineType::Strike)
        } else if str_eq(s, "overline") {
            Some(LineType::Overline)
        } else if str_eq(s, "custom") {
            Some(LineType::Custom)
        } else {
            None
        }
    }
}

/// Style configuration for underline, overline, or strikethrough decorations.
#[derive(Debug, Clone, Copy, PartialEq, Eq, Structural)]
pub struct LineStyle {
    /// Which font row this decoration appears on (0-indexed).
    pub index: usize,
    /// The type of line decoration.
    pub line: LineType,
    /// Custom character (only used when `line == LineType::Custom`).
    pub char: Option<char>,
}

impl LineStyle {
    pub fn new(index: usize, line: LineType, char: Option<char>) -> (r: Self)
        ensures
            r == (LineStyle { index, line, char }),
    {
        LineStyle { index, line, char }
    }
}

/// Override used when constructing a `Font`: either a row index or a full `LineStyle`.
#[derive(Debug, Clone, Copy, PartialEq, Eq, Structural)]
pub enum LineStyleOverride {
    /// Override only the row index, keeping the line type and char from the default.
    Index(usize),
    /// Override with a complete `LineStyle`, merging right-side-wins.
    Style(LineStyle),
}

impl From<usize> for LineStyleOverride {
    fn from(i: usize) -> (r: Self) {
        LineStyleOverride::Index(i)
    }
}

impl vstd::std_specs::convert::FromSpecImpl<usize> for LineStyleOverride {
    open spec fn obeys_from_spec() -> bool {
        true
    }

    open spec fn from_spec(i: usize) -> Self {
        LineStyleOverride::Index(i)
    }
}

impl From<LineStyle> for LineStyleOverride {
    fn from(s: LineStyle) -> (r: Self) {
        LineStyleOverride::Style(s)
    }
}

impl vstd::std_specs::convert::FromSpecImpl<LineStyle> for LineStyleOverride {
    open spec fn obeys_from_spec() -> bool {
        true
    }

    open spec fn from_spec(s: LineStyle) -> Self {
        LineStyleOverride::Style(s)
    }
}

/// `base` with `other` applied on top of it.
///
/// No override keeps `base`; an index override replaces the index only; a
/// full style replaces the line type, keeps `base`'s index where the
/// override's index is 0, and keeps `base`'s char where the override has none.
pub open spec fn overridden(base: LineStyle, other: Option<LineStyleOverride>) -> LineStyle {
    match other {
        None => base,
        Some(LineStyleOverride::Index(i)) => LineStyle { index: i, ..base },
        Some(LineStyleOverride::Style(s)) => LineStyle {
            index: if s.index != 0 { s.index } else { base.index },
            line: s.line,
            char: if s.char is Some { s.char } else { base.char },
        },
    }
}

impl LineStyle {
    /// Apply an optional override on top of this LineStyle.
    pub fn with_override(self, other: Option<LineStyleOverride>) -> (r: Self)
        ensures
            r == overridden(self, other),
    {
        match other {
            None => self,
            Some(LineStyleOverride::Index(i)) => LineStyle { index: i, ..self },
            Some(LineStyleOverride::Style(s)) => LineStyle {
                index: if s.index != 0 { s.index } else { self.index },
                line: s.line,
                char: match s.char {
                    Some(c) => Some(c),
                    None => self.char,
                },
            },
        }
    }
}

} // verus!
