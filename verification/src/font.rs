use vstd::prelude::*;

use std::sync::Arc;

use crate::chars::{concat, str_chars, string_from_chars, string_of};
use crate::glyph::{
    Glyph, GlyphEntry, Glyphs, clone_glyph, entries_within, glyph_is_within, glyph_within, insert_entry,
    lemma_insert_entry, lemma_lookup_within, lookup, entries_widest, glyph_widest, glyph_widest_of, lemma_entries_widest,
    lemma_glyph_widest,
};
use crate::layout::spaces;
use crate::line::{LineStyle, LineStyleOverride, LineType, overridden};

verus! {

/// Error type for font loading and parsing.
#[derive(Debug)]
pub enum FontError {
    NotFound(String),
    MissingHeader,
    ParseError(String),
    Io(std::io::Error),
}

/// The input/output error type of the standard library, carried through as is.
#[verifier::external_type_specification]
#[verifier::external_body]
pub struct ExIoError(std::io::Error);

impl From<std::io::Error> for FontError {
    fn from(e: std::io::Error) -> (r: Self) {
        FontError::Io(e)
    }
}

impl vstd::std_specs::convert::FromSpecImpl<std::io::Error> for FontError {
    open spec fn obeys_from_spec() -> bool {
        true
    }

    open spec fn from_spec(v: std::io::Error) -> Self {
        FontError::Io(v)
    }
}

impl FontError {
    /// The error's message, as it prints: the missing path, the missing
    /// header, the parse failure, or the input/output error's own text.
    pub fn message(&self) -> (r: String)
        ensures
            match self {
                FontError::NotFound(p) => r@ == "Font file not found: "@ + p@,
                FontError::MissingHeader => r@ == "Font file missing [header] section"@,
                FontError::ParseError(m) => r@ == "Parse error: "@ + m@,
                FontError::Io(_) => exists|t: Seq<char>| r@ == "IO error: "@ + t,
            },
    {
        match self {
            FontError::NotFound(p) => concat("Font file not found: ", p.as_str()),
            FontError::MissingHeader => string_of("Font file missing [header] section"),
            FontError::ParseError(m) => concat("Parse error: ", m.as_str()),
            FontError::Io(e) => {
                let t = e.to_string();
                let r = concat("IO error: ", t.as_str());
                assert(r@ == "IO error: "@ + t@);
                r
            },
        }
    }
}

/// The space glyph: `line_height` rows of `width` spaces.
pub open spec fn space_glyph(width: nat, line_height: nat) -> Seq<Seq<char>> {
    Seq::new(line_height, |_i: int| spaces(width))
}

/// The placeholder glyph: a box `line_height` rows high, with a top edge on
/// the first row, a bottom edge on the last row (when there are at least two
/// rows) and sides in between.
pub open spec fn placeholder_glyph(line_height: nat) -> Seq<Seq<char>> {
    Seq::new(line_height, |i: int|
        if i == 0 {
            "┌─┐"@
        } else if i == line_height - 1 {
            "└─┘"@
        } else {
            "│ │"@
        })
}

/// A typography font with glyph and ligature maps.
#[derive(Debug)]
pub struct Font {
    name: String,
    line_height: usize,
    glyphs: Glyphs,
    ligatures: Glyphs,
    letter_spacing: i32,
    space_width: usize,
    baseline: usize,
    underline: LineStyle,
    underline2: LineStyle,
    overline: LineStyle,
    strike: LineStyle,
    placeholder: Glyph,
}

impl Font {
    /// The placeholder has the shape `make_placeholder` gives for the line height.
    #[verifier::type_invariant]
    closed spec fn placeholder_shaped(&self) -> bool {
        self.placeholder.deep_view() == placeholder_glyph(self.line_height as nat)
    }

    pub closed spec fn name_view(&self) -> Seq<char> {
        self.name@
    }

    pub closed spec fn height(&self) -> usize {
        self.line_height
    }

    /// The glyph entries for single characters.
    pub closed spec fn glyph_entries(&self) -> Seq<GlyphEntry> {
        self.glyphs.entries()
    }

    /// The glyph entries for ligature sequences.
    pub closed spec fn ligature_entries(&self) -> Seq<GlyphEntry> {
        self.ligatures.entries()
    }

    pub closed spec fn spacing(&self) -> i32 {
        self.letter_spacing
    }

    pub closed spec fn space(&self) -> usize {
        self.space_width
    }

    pub closed spec fn base(&self) -> usize {
        self.baseline
    }

    pub closed spec fn underline_style(&self) -> LineStyle {
        self.underline
    }

    pub closed spec fn underline2_style(&self) -> LineStyle {
        self.underline2
    }

    pub closed spec fn overline_style(&self) -> LineStyle {
        self.overline
    }

    pub closed spec fn strike_style(&self) -> LineStyle {
        self.strike
    }

    pub closed spec fn placeholder_view(&self) -> Seq<Seq<char>> {
        self.placeholder.deep_view()
    }

    /// The glyph that `get` returns for `key`: a single character is looked
    /// up among the glyphs, anything else among the ligatures, and a key
    /// that is not found gives the placeholder.
    pub open spec fn glyph_for(&self, key: Seq<char>) -> Seq<Seq<char>> {
        let found = if key.len() == 1 { lookup(self.glyph_entries(), key) } else { lookup(self.ligature_entries(), key) };
        match found {
            Some(g) => g,
            None => self.placeholder_view(),
        }
    }

    /// Whether `key` is a character or ligature of this font.
    pub open spec fn has_glyph(&self, key: Seq<char>) -> bool {
        if key.len() == 1 { lookup(self.glyph_entries(), key) is Some } else { lookup(self.ligature_entries(), key) is Some }
    }

    /// `self` is the font that `new` builds from these arguments.
    pub open spec fn is_new_font(
        &self,
        name: Seq<char>,
        glyphs: Seq<GlyphEntry>,
        ligatures: Seq<GlyphEntry>,
        letter_spacing: i32,
        space_width: usize,
        baseline: Option<usize>,
        underline: Option<LineStyleOverride>,
        underline2: Option<LineStyleOverride>,
        overline: Option<LineStyleOverride>,
        strike: Option<LineStyleOverride>,
    ) -> bool {
        &&& self.name_view() == name
        &&& self.height() == (if glyphs.len() == 0 { 5 } else { glyphs[0].1.len() })
        &&& self.base() == baseline.unwrap_or((if self.height() >= 2 { self.height() - 2 } else { 0 }) as usize)
        &&& self.glyph_entries() == insert_entry(glyphs, " "@, space_glyph(space_width as nat, self.height() as nat))
        &&& self.ligature_entries() == ligatures
        &&& self.spacing() == letter_spacing
        &&& self.space() == space_width
        &&& self.placeholder_view() == placeholder_glyph(self.height() as nat)
        &&& self.underline_style() == overridden(LineStyle { index: self.base(), line: LineType::Underline, char: None }, underline)
        &&& self.underline2_style() == overridden(LineStyle { index: (self.base() + 1) as usize, line: LineType::Underline2, char: None }, underline2)
        &&& self.overline_style() == overridden(LineStyle { index: 0, line: LineType::Overline, char: None }, overline)
        &&& self.strike_style() == overridden(LineStyle { index: self.height() / 2, line: LineType::Strike, char: None }, strike)
    }

    /// The longest glyph row of the font, the space width included.
    pub open spec fn widest(&self) -> nat {
        let a = entries_widest(self.glyph_entries());
        let b = entries_widest(self.ligature_entries());
        let c = glyph_widest(self.placeholder_view());
        let ab = if a > b { a } else { b };
        let abc = if ab > c { ab } else { c };
        if abc > self.space() { abc } else { self.space() as nat }
    }

    /// No glyph that `get` can return has a row longer than `widest`.
    pub proof fn lemma_glyph_for_widest(&self, key: Seq<char>)
        ensures
            glyph_within(self.glyph_for(key), 0, self.widest()),
            self.space() <= self.widest(),
    {
        lemma_entries_widest(self.glyph_entries());
        lemma_entries_widest(self.ligature_entries());
        lemma_glyph_widest(self.placeholder_view());
        let w = self.widest();
        if key.len() == 1 {
            if lookup(self.glyph_entries(), key) is Some {
                lemma_lookup_within(self.glyph_entries(), key, 0, entries_widest(self.glyph_entries()));
            }
        } else {
            if lookup(self.ligature_entries(), key) is Some {
                lemma_lookup_within(self.ligature_entries(), key, 0, entries_widest(self.ligature_entries()));
            }
        }
    }

    /// The longest glyph row of the font, the space width included.
    pub fn widest_row(&self) -> (r: usize)
        ensures
            r == self.widest(),
    {
        let a = self.glyphs.widest();
        let b = self.ligatures.widest();
        let c = glyph_widest_of(&self.placeholder);
        let ab = if a > b { a } else { b };
        let abc = if ab > c { ab } else { c };
        if abc > self.space_width { abc } else { self.space_width }
    }

    /// Every glyph, ligature and the placeholder has at least `line_height`
    /// rows: rendering reads that many rows of each.
    pub open spec fn rows_complete(&self) -> bool {
        &&& entries_within(self.glyph_entries(), self.height() as nat, self.widest())
        &&& entries_within(self.ligature_entries(), self.height() as nat, self.widest())
        &&& glyph_within(self.placeholder_view(), self.height() as nat, self.widest())
    }

    /// Whether the font is `rows_complete`.
    pub fn has_complete_rows(&self) -> (r: bool)
        ensures
            r == self.rows_complete(),
    {
        let w = self.widest_row();
        self.glyphs.all_within(self.line_height, w) && self.ligatures.all_within(self.line_height, w)
            && glyph_is_within(&self.placeholder, self.line_height, w)
    }

    /// Every glyph that `get` can return for a font with complete rows has
    /// at least `line_height` rows, none longer than `widest`.
    pub proof fn lemma_glyph_for_complete(&self, key: Seq<char>)
        requires
            self.rows_complete(),
        ensures
            glyph_within(self.glyph_for(key), self.height() as nat, self.widest()),
    {
        if key.len() == 1 {
            if lookup(self.glyph_entries(), key) is Some {
                lemma_lookup_within(self.glyph_entries(), key, self.height() as nat, self.widest());
            }
        } else {
            if lookup(self.ligature_entries(), key) is Some {
                lemma_lookup_within(self.ligature_entries(), key, self.height() as nat, self.widest());
            }
        }
    }

    /// Create a new Font.
    ///
    /// The line height is that of the first glyph given (5 when there is
    /// none); the baseline defaults to two rows above the bottom. A space
    /// glyph is added, and each line style is its default with the given
    /// override applied.
    pub fn new(
        name: String,
        glyphs: Glyphs,
        ligatures: Glyphs,
        letter_spacing: i32,
        space_width: usize,
        baseline: Option<usize>,
        underline: Option<LineStyleOverride>,
        underline2: Option<LineStyleOverride>,
        overline: Option<LineStyleOverride>,
        strike: Option<LineStyleOverride>,
    ) -> (r: Self)
        requires
            baseline != Some(usize::MAX),
        ensures
            r.is_new_font(name@, glyphs.entries(), ligatures.entries(), letter_spacing, space_width, baseline, underline, underline2, overline, strike),
    {
        let line_height = if glyphs.is_empty() { 5 } else { glyphs.line_height() };
        let baseline = match baseline {
            Some(b) => b,
            None => if line_height >= 2 { line_height - 2 } else { 0 },
        };
        let space_glyph = Self::make_space(space_width, line_height);
        let mut all_glyphs = glyphs;
        all_glyphs.insert(string_of(" "), space_glyph);
        let placeholder = Self::make_placeholder(line_height);
        let underline_style = LineStyle::new(baseline, LineType::Underline, None).with_override(underline);
        let underline2_style = LineStyle::new(baseline + 1, LineType::Underline2, None).with_override(underline2);
        let overline_style = LineStyle::new(0, LineType::Overline, None).with_override(overline);
        let strike_style = LineStyle::new(line_height / 2, LineType::Strike, None).with_override(strike);
        Font {
            name,
            line_height,
            glyphs: all_glyphs,
            ligatures,
            letter_spacing,
            space_width,
            baseline,
            underline: underline_style,
            underline2: underline2_style,
            overline: overline_style,
            strike: strike_style,
            placeholder,
        }
    }

    /// Generate a space glyph of the given width and height.
    pub fn make_space(width: usize, line_height: usize) -> (r: Glyph)
        ensures
            r.deep_view() == space_glyph(width as nat, line_height as nat),
    {
        let mut row: Vec<char> = Vec::new();
        let mut k: usize = 0;
        while k < width
            invariant
                k <= width,
                row@ == spaces(k as nat),
            decreases width - k,
        {
            row.push(' ');
            k = k + 1;
            assert(row@ =~= spaces(k as nat));
        }
        let mut r: Glyph = Vec::new();
        let mut i: usize = 0;
        while i < line_height
            invariant
                i <= line_height,
                row@ == spaces(width as nat),
                r@.len() == i,
                forall|j: int| 0 <= j < i ==> #[trigger] r@[j]@ == spaces(width as nat),
            decreases line_height - i,
        {
            r.push(string_from_chars(row.as_slice()));
            i = i + 1;
        }
        assert(r.deep_view() =~= space_glyph(width as nat, line_height as nat));
        r
    }

    /// Generate a placeholder box glyph for unknown characters.
    pub fn make_placeholder(line_height: usize) -> (r: Glyph)
        ensures
            r.deep_view() == placeholder_glyph(line_height as nat),
    {
        let mut r: Glyph = Vec::new();
        let mut i: usize = 0;
        while i < line_height
            invariant
                i <= line_height,
                r@.len() == i,
                forall|j: int| 0 <= j < i ==> #[trigger] r@[j]@ == placeholder_glyph(line_height as nat)[j],
            decreases line_height - i,
        {
            let row = if i == 0 {
                string_of("┌─┐")
            } else if i == line_height - 1 {
                string_of("└─┘")
            } else {
                string_of("│ │")
            };
            r.push(row);
            i = i + 1;
        }
        assert(r.deep_view() =~= placeholder_glyph(line_height as nat));
        r
    }

    pub fn name(&self) -> (r: &str)
        ensures
            r@ == self.name_view(),
    {
        self.name.as_str()
    }

    pub fn line_height(&self) -> (r: usize)
        ensures
            r == self.height(),
    {
        self.line_height
    }

    pub fn letter_spacing(&self) -> (r: i32)
        ensures
            r == self.spacing(),
    {
        self.letter_spacing
    }

    pub fn space_width(&self) -> (r: usize)
        ensures
            r == self.space(),
    {
        self.space_width
    }

    pub fn baseline(&self) -> (r: usize)
        ensures
            r == self.base(),
    {
        self.baseline
    }

    pub fn underline(&self) -> (r: &LineStyle)
        ensures
            *r == self.underline_style(),
    {
        &self.underline
    }

    pub fn underline2(&self) -> (r: &LineStyle)
        ensures
            *r == self.underline2_style(),
    {
        &self.underline2
    }

    pub fn overline(&self) -> (r: &LineStyle)
        ensures
            *r == self.overline_style(),
    {
        &self.overline
    }

    pub fn strike(&self) -> (r: &LineStyle)
        ensures
            *r == self.strike_style(),
    {
        &self.strike
    }

    /// All ligature sequences available in this font, in entry order.
    pub fn ligature_keys(&self) -> (r: Vec<String>)
        ensures
            r@.len() == self.ligature_entries().len(),
            forall|i: int| 0 <= i < r@.len() ==> #[trigger] r@[i]@ == self.ligature_entries()[i].0,
    {
        self.ligatures.keys()
    }

    /// Look up a glyph for a single character or ligature sequence.
    /// Returns the placeholder glyph for unknown keys.
    pub fn get(&self, key: &str) -> (r: &Glyph)
        ensures
            r.deep_view() == self.glyph_for(key@),
            !self.has_glyph(key@) ==> r.deep_view() == placeholder_glyph(self.height() as nat),
    {
        proof {
            use_type_invariant(self);
        }
        let n = str_chars(key).len();
        let found = if n == 1 { self.glyphs.get(key) } else { self.ligatures.get(key) };
        match found {
            Some(g) => g,
            None => &self.placeholder,
        }
    }

    /// Check whether a char or ligature is available in this font.
    pub fn contains(&self, key: &str) -> (r: bool)
        ensures
            r == self.has_glyph(key@),
    {
        let n = str_chars(key).len();
        if n == 1 {
            self.glyphs.contains_key(key)
        } else {
            self.ligatures.contains_key(key)
        }
    }

    /// Wrap in an `Arc` for cheap cloning.
    pub fn into_arc(self) -> (r: Arc<Font>)
        ensures
            *r == self,
    {
        Arc::new(self)
    }

    /// Reference to the underlying ligature map.
    pub fn ligatures(&self) -> (r: &Glyphs)
        ensures
            r.entries() == self.ligature_entries(),
    {
        &self.ligatures
    }
}

impl Clone for Font {
    fn clone(&self) -> (r: Self)
        ensures
            r.name_view() == self.name_view(),
            r.height() == self.height(),
            r.glyph_entries() == self.glyph_entries(),
            r.ligature_entries() == self.ligature_entries(),
            r.spacing() == self.spacing(),
            r.space() == self.space(),
            r.base() == self.base(),
            r.placeholder_view() == self.placeholder_view(),
            r.underline_style() == self.underline_style(),
            r.underline2_style() == self.underline2_style(),
            r.overline_style() == self.overline_style(),
            r.strike_style() == self.strike_style(),
    {
        proof {
            use_type_invariant(self);
        }
        Font {
            name: self.name.clone(),
            line_height: self.line_height,
            glyphs: self.glyphs.clone(),
            ligatures: self.ligatures.clone(),
            letter_spacing: self.letter_spacing,
            space_width: self.space_width,
            baseline: self.baseline,
            underline: self.underline,
            underline2: self.underline2,
            overline: self.overline,
            strike: self.strike,
            placeholder: clone_glyph(&self.placeholder),
        }
    }
}

} // verus!
