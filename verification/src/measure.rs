use vstd::prelude::*;

use crate::chars::{str_chars, str_eq};
use crate::glyph::{Glyph, glyph_within};
use crate::layout::{lemma_max_overlap_le_first_rows, max_overlap};
use crate::ligature::{
    build_pattern, byte_offsets, char_at_byte, char_index_or, char_pieces, index_of_byte, is_boundary,
    lemma_byte_offset_increasing, lemma_char_at_byte, ligature_pattern, matches_well_formed, pieces_by_char,
    pieces_from_matches, pieces_view, pieces_with_matches, regex_compiles, regex_find, regex_find_all, regex_valid,
    str_byte_len, byte_len, byte_offset, keys_fit, lemma_pieces_with_matches_keys,
};
use crate::typography::Typography;

verus! {

/// Width in cells of a glyph: the length of its first row, 0 without rows.
pub open spec fn glyph_width(g: Seq<Seq<char>>) -> nat {
    if g.len() == 0 { 0 } else { g[0].len() }
}

/// The glyph keys of a list of pieces.
pub open spec fn piece_keys(p: Seq<(int, Seq<char>)>) -> Seq<Seq<char>> {
    Seq::new(p.len(), |i: int| p[i].1)
}

/// Width in cells of a glyph.
pub fn glyph_width_of(g: &Glyph) -> (r: usize)
    ensures
        r == glyph_width(g.deep_view()),
{
    if g.len() == 0 {
        0
    } else {
        str_chars(g[0].as_str()).len()
    }
}

/// Characters whose glyphs never overlap a neighbour: space and quotes.
pub open spec fn non_overlapping_char(c: char) -> bool {
    c == ' ' || c == '"' || c == '\''
}

/// Some character of `s` never overlaps a neighbour.
pub open spec fn has_non_overlapping(s: Seq<char>) -> bool {
    exists|i: int| 0 <= i < s.len() && non_overlapping_char(#[trigger] s[i])
}

fn any_non_overlapping(s: &str) -> (r: bool)
    ensures
        r == has_non_overlapping(s@),
{
    let v = str_chars(s);
    let mut i: usize = 0;
    while i < v.len()
        invariant
            v@ == s@,
            i <= v@.len(),
            forall|j: int| 0 <= j < i ==> !non_overlapping_char(#[trigger] v@[j]),
        decreases v@.len() - i,
    {
        if v[i] == ' ' || v[i] == '"' || v[i] == '\'' {
            assert(non_overlapping_char(s@[i as int]));
            return true;
        }
        i = i + 1;
    }
    false
}

/// Character position where match `m` starts and its number of characters.
pub open spec fn match_extent(s: Seq<char>, m: (usize, usize)) -> (int, int) {
    (char_index_or(s, m.0 as int, 0), char_at_byte(s, m.1 as int) - char_at_byte(s, m.0 as int))
}

/// Position `p` lies inside a match, after its first character.
pub open spec fn inside_match(s: Seq<char>, ms: Seq<(usize, usize)>, p: int) -> bool {
    exists|j: int| 0 <= j < ms.len() && match_extent(s, #[trigger] ms[j]).0 + 1 <= p < match_extent(s, ms[j]).0 + match_extent(s, ms[j]).1
}

/// The positions `0..n`, in order, that lie inside no match.
pub open spec fn positions_outside(s: Seq<char>, ms: Seq<(usize, usize)>, n: nat) -> Seq<int>
    decreases n,
{
    if n == 0 {
        Seq::empty()
    } else {
        let r = positions_outside(s, ms, (n - 1) as nat);
        if inside_match(s, ms, n - 1) { r } else { r.push(n - 1) }
    }
}

/// The positions outside matches lie in `0..n`, in increasing order.
pub proof fn lemma_positions_outside_range(s: Seq<char>, ms: Seq<(usize, usize)>, n: nat)
    ensures
        forall|i: int| 0 <= i < positions_outside(s, ms, n).len() ==> 0 <= #[trigger] positions_outside(s, ms, n)[i] < n,
        forall|i: int, j: int| 0 <= i < j < positions_outside(s, ms, n).len() ==> positions_outside(s, ms, n)[i] < positions_outside(s, ms, n)[j],
    decreases n,
{
    if n > 0 {
        lemma_positions_outside_range(s, ms, (n - 1) as nat);
        let r = positions_outside(s, ms, (n - 1) as nat);
        let t = positions_outside(s, ms, n);
        assert forall|i: int| 0 <= i < t.len() implies 0 <= #[trigger] t[i] < n by {
            if i < r.len() {
                assert(t[i] == r[i]);
            }
        }
        assert forall|i: int, j: int| 0 <= i < j < t.len() implies t[i] < t[j] by {
            assert(t[i] == r[i]);
            if j < r.len() {
                assert(t[j] == r[j]);
            }
        }
    }
}

impl Typography {
    /// The glyph starts of `s` are positions of `s`, in increasing order.
    pub proof fn lemma_glyph_borders_range(&self, s: Seq<char>)
        ensures
            forall|i: int| 0 <= i < self.glyph_border_seq(s).len() ==> 0 <= #[trigger] self.glyph_border_seq(s)[i] < s.len(),
            forall|i: int, j: int| 0 <= i < j < self.glyph_border_seq(s).len() ==> self.glyph_border_seq(s)[i] < self.glyph_border_seq(s)[j],
    {
        if self.uses_ligature_regex() {
            lemma_positions_outside_range(s, regex_find(self.ligature_regex(), s), s.len());
        }
    }

    /// Whether two neighbouring glyphs may overlap: kerning is on, both keys
    /// are non-empty and neither holds a space or a quote.
    pub open spec fn overlaps(&self, a: Seq<char>, b: Seq<char>) -> bool {
        a.len() > 0 && b.len() > 0 && self.use_kerning && !has_non_overlapping(a) && !has_non_overlapping(b)
    }

    /// The character positions of `s` where a glyph starts: every position,
    /// except those inside a ligature after its first character.
    pub open spec fn glyph_border_seq(&self, s: Seq<char>) -> Seq<int> {
        if self.uses_ligature_regex() {
            positions_outside(s, regex_find(self.ligature_regex(), s), s.len())
        } else {
            Seq::new(s.len(), |i: int| i)
        }
    }

    /// The font's ligature keys, in entry order.
    pub open spec fn ligature_key_view(&self) -> Seq<Seq<char>> {
        Seq::new(self.font.ligature_entries().len(), |i: int| self.font.ligature_entries()[i].0)
    }

    /// Ligatures are substituted: they are switched on and the font has some.
    pub open spec fn uses_ligature_regex(&self) -> bool {
        self.use_ligatures && self.font.ligature_entries().len() > 0
    }

    /// The alternation of the font's ligature keys, longest first.
    pub open spec fn ligature_regex(&self) -> Seq<char> {
        ligature_pattern(self.ligature_key_view())
    }

    /// The ligature pattern is a valid regular expression wherever it is used.
    pub open spec fn ligatures_compile(&self) -> bool {
        self.uses_ligature_regex() ==> regex_valid(self.ligature_regex())
    }

    /// The `(position, key)` glyph pieces of `s`.
    pub open spec fn glyph_pieces(&self, s: Seq<char>) -> Seq<(int, Seq<char>)> {
        if self.uses_ligature_regex() {
            pieces_with_matches(s, regex_find(self.ligature_regex(), s))
        } else {
            pieces_by_char(s)
        }
    }

    /// Kerning applies between `l` and `r`: it is on and neither is a space.
    pub open spec fn kerned(&self, l: Seq<char>, r: Seq<char>) -> bool {
        self.use_kerning && l != " "@ && r != " "@
    }

    /// Spacing between two glyphs: the letter spacing plus the adjustment,
    /// less the overlap of the two glyphs when kerned.
    pub open spec fn adjust_between(&self, l: Seq<char>, r: Seq<char>) -> int {
        self.font.spacing() + self.adjust_spacing - (if self.kerned(l, r) {
            max_overlap(self.font.glyph_for(l), self.font.glyph_for(r)) as int
        } else {
            0
        })
    }

    /// The spacing computation stays within `i32` (and the overlap within `usize`).
    pub open spec fn adjust_fits(&self, l: Seq<char>, r: Seq<char>) -> bool {
        let gl = self.font.glyph_for(l);
        let gr = self.font.glyph_for(r);
        &&& i32::MIN <= self.font.spacing() + self.adjust_spacing <= i32::MAX
        &&& self.kerned(l, r) ==> {
            &&& max_overlap(gl, gr) <= i32::MAX
            &&& i32::MIN <= self.adjust_between(l, r)
            &&& forall|i: int| 0 <= i < gl.len() && 0 <= i < gr.len() ==> #[trigger] gl[i].len() + gr[i].len() <= usize::MAX
        }
    }

    /// Width of glyphs laid out in a row: the first glyph's width, then for
    /// each next glyph its width and the spacing before it, never below 0.
    pub open spec fn keys_width(&self, keys: Seq<Seq<char>>) -> int
        decreases keys.len(),
    {
        if keys.len() == 0 {
            0
        } else if keys.len() == 1 {
            glyph_width(self.font.glyph_for(keys[0])) as int
        } else {
            let w = self.keys_width(keys.drop_last()) + glyph_width(self.font.glyph_for(keys.last()))
                + self.adjust_between(keys[keys.len() - 2], keys.last());
            if w > 0 { w } else { 0 }
        }
    }

    /// Width in terminal cells that `s` renders to.
    pub open spec fn text_width(&self, s: Seq<char>) -> int {
        if s.len() == 0 { 0 } else { self.keys_width(piece_keys(self.glyph_pieces(s))) }
    }

    /// How far the spacing between two glyphs can move before kerning:
    /// the letter spacing and the adjustment, each either way.
    pub open spec fn spread(&self) -> int {
        (if self.font.spacing() >= 0 { self.font.spacing() as int } else { -self.font.spacing() })
            + (if self.adjust_spacing >= 0 { self.adjust_spacing as int } else { -self.adjust_spacing })
    }

    /// The most a glyph and the spacing before it can add to a width.
    pub open spec fn step(&self) -> int {
        self.font.widest() + self.spread()
    }

    /// A text of `n` characters can be measured: the ligature pattern is
    /// valid and the widest the text could render to, `step` cells for each
    /// of the (at most `2 * n + 1`) glyph pieces, fits in an `i32`, the type
    /// widths are summed in.
    pub open spec fn measurable(&self, n: int) -> bool {
        &&& self.ligatures_compile()
        &&& (2 * n + 1) * self.step() <= i32::MAX
    }

    pub proof fn lemma_step_nonneg(&self)
        ensures
            0 <= self.spread() <= self.step(),
            self.font.widest() <= self.step(),
    {
    }

    /// A measurable text of `n` characters keeps its arithmetic within `i32`:
    /// `step` itself, and each of at most `2 * n + 1` steps.
    pub proof fn lemma_measurable_step(&self, n: int, m: int)
        requires
            self.measurable(n),
            0 <= n,
            0 <= m <= 2 * n + 1,
        ensures
            self.step() <= i32::MAX,
            m * self.step() <= (2 * n + 1) * self.step(),
            n >= 1 ==> 3 * self.step() <= i32::MAX,
    {
        self.lemma_step_nonneg();
        assert(m * self.step() <= (2 * n + 1) * self.step()) by (nonlinear_arith)
            requires 0 <= m <= 2 * n + 1, 0 <= self.step();
        assert(self.step() <= (2 * n + 1) * self.step()) by (nonlinear_arith)
            requires 0 <= n, 0 <= self.step();
        if n >= 1 {
            assert(3 * self.step() <= (2 * n + 1) * self.step()) by (nonlinear_arith)
                requires 1 <= n, 0 <= self.step();
        }
    }

    /// A shorter text of a measurable length is measurable too.
    pub proof fn lemma_measurable_le(&self, n: int, m: int)
        requires
            self.measurable(n),
            0 <= m <= n,
        ensures
            self.measurable(m),
    {
        self.lemma_step_nonneg();
        assert((2 * m + 1) * self.step() <= (2 * n + 1) * self.step()) by (nonlinear_arith)
            requires 0 <= m <= n, 0 <= self.step();
    }

    /// Whether a text of `n` characters is `measurable`.
    pub fn is_measurable(&self, n: usize) -> (r: bool)
        ensures
            r == self.measurable(n as int),
    {
        if !self.check_ligatures_compile() {
            return false;
        }
        let ls = self.font.letter_spacing();
        let a: u128 = if ls >= 0 { ls as u128 } else { (-(ls as i64)) as u128 };
        let b: u128 = if self.adjust_spacing >= 0 { self.adjust_spacing as u128 } else { (-(self.adjust_spacing as i64)) as u128 };
        let step: u128 = self.font.widest_row() as u128 + a + b;
        assert(step == self.step());
        if step > 2147483647 {
            proof {
                self.lemma_step_nonneg();
                assert((2 * n + 1) * self.step() >= self.step()) by (nonlinear_arith)
                    requires 0 <= n, 0 <= self.step();
            }
            return false;
        }
        let k: u128 = 2 * (n as u128) + 1;
        assert(k * step <= (2 * 18446744073709551615 + 1) * 2147483647) by (nonlinear_arith)
            requires k <= 2 * 18446744073709551615 + 1, step <= 2147483647;
        k * step <= 2147483647
    }

    pub proof fn lemma_adjust_bounds(&self, l: Seq<char>, r: Seq<char>)
        requires
            3 * self.step() <= i32::MAX,
        ensures
            self.adjust_fits(l, r),
            -self.spread() - 2 * self.font.widest() <= self.adjust_between(l, r) <= self.spread(),
    {
        let gl = self.font.glyph_for(l);
        let gr = self.font.glyph_for(r);
        self.font.lemma_glyph_for_widest(l);
        self.font.lemma_glyph_for_widest(r);
        lemma_max_overlap_le_first_rows(gl, gr);
        if gl.len() > 0 && gr.len() > 0 {
            assert(gl[0].len() <= self.font.widest());
            assert(gr[0].len() <= self.font.widest());
        }
        assert forall|i: int| 0 <= i < gl.len() && 0 <= i < gr.len() implies #[trigger] gl[i].len() + gr[i].len() <= usize::MAX by {
            assert(gl[i].len() <= self.font.widest());
            assert(gr[i].len() <= self.font.widest());
        }
    }

    pub proof fn lemma_glyph_width_bound(&self, k: Seq<char>)
        ensures
            glyph_width(self.font.glyph_for(k)) <= self.font.widest(),
    {
        self.font.lemma_glyph_for_widest(k);
        let g = self.font.glyph_for(k);
        if g.len() > 0 {
            assert(g[0].len() <= self.font.widest());
        }
    }

    /// A row of glyphs is at most `step` cells per glyph wide.
    pub proof fn lemma_keys_width_bound(&self, keys: Seq<Seq<char>>)
        requires
            3 * self.step() <= i32::MAX,
        ensures
            0 <= self.keys_width(keys) <= keys.len() * self.step(),
        decreases keys.len(),
    {
        self.lemma_step_nonneg();
        if keys.len() == 1 {
            self.lemma_glyph_width_bound(keys[0]);
        } else if keys.len() > 1 {
            self.lemma_keys_width_bound(keys.drop_last());
            self.lemma_glyph_width_bound(keys.last());
            self.lemma_adjust_bounds(keys[keys.len() - 2], keys.last());
            assert((keys.len() - 1) * self.step() + self.step() == keys.len() * self.step()) by (nonlinear_arith);
        }
    }

    /// Whether the ligature pattern is a valid regular expression wherever it is used.
    pub(crate) fn check_ligatures_compile(&self) -> (r: bool)
        ensures
            r == self.ligatures_compile(),
    {
        if !self.use_ligatures {
            return true;
        }
        let keys = self.font.ligature_keys();
        if keys.len() == 0 {
            return true;
        }
        assert(keys.deep_view() =~= self.ligature_key_view());
        let pattern = build_pattern(&keys);
        regex_compiles(pattern.as_str())
    }

    /// Split `text` into `(source_char_index, glyph_key)` pairs, substituting
    /// ligatures, in order of character index.
    ///
    /// Without ligature substitution every character is a piece of its own.
    /// With it, each match of the ligature pattern is one piece at the
    /// character index where it starts, every other character a piece at its
    /// character index.
    pub fn split_glyphs(&self, text: &str) -> (r: Vec<(usize, String)>)
        requires
            self.ligatures_compile(),
        ensures
            pieces_view(r@) == self.glyph_pieces(text@),
            r@.len() <= 2 * text@.len() + 1,
            keys_fit(text@, self.glyph_pieces(text@)),
            crate::laws::joined_keys(pieces_view(r@)) == text@,
            self.uses_ligature_regex() ==> matches_well_formed(text@, regex_find(self.ligature_regex(), text@)),
    {
        let v = str_chars(text);
        // the text's byte length fits in a usize
        let _nbytes: usize = str_byte_len(text);
        if !self.use_ligatures {
            let r = char_pieces(v.as_slice());
            assert(pieces_view(r@).len() == r@.len());
            proof {
                self.law_glyph_pieces_cover(text@);
            }
            return r;
        }
        let keys = self.font.ligature_keys();
        if keys.len() == 0 {
            let r = char_pieces(v.as_slice());
            assert(pieces_view(r@).len() == r@.len());
            proof {
                self.law_glyph_pieces_cover(text@);
            }
            return r;
        }
        assert(keys.deep_view() =~= self.ligature_key_view());
        let pattern = build_pattern(&keys);
        let ms = regex_find_all(pattern.as_str(), text);
        proof {
            lemma_pieces_with_matches_keys(text@, ms@);
            self.law_glyph_pieces_cover(text@);
        }
        pieces_from_matches(v.as_slice(), &ms)
    }

    /// `split_glyphs`, or `None` when the ligature pattern is not a valid
    /// regular expression.
    pub fn try_split_glyphs(&self, text: &str) -> (r: Option<Vec<(usize, String)>>)
        ensures
            r is Some <==> self.ligatures_compile(),
            r matches Some(v) ==> pieces_view(v@) == self.glyph_pieces(text@),
    {
        if self.check_ligatures_compile() {
            Some(self.split_glyphs(text))
        } else {
            None
        }
    }

    /// The matches of the ligature pattern in `text`.
    fn ligature_matches(&self, text: &str) -> (r: Vec<(usize, usize)>)
        requires
            self.uses_ligature_regex(),
            self.ligatures_compile(),
        ensures
            r@ == regex_find(self.ligature_regex(), text@),
            matches_well_formed(text@, r@),
    {
        let keys = self.font.ligature_keys();
        assert(keys.deep_view() =~= self.ligature_key_view());
        let pattern = build_pattern(&keys);
        regex_find_all(pattern.as_str(), text)
    }

    /// Returns whether the given char/ligature can overlap with its neighbor.
    pub fn should_overlap(&self, a: &str, b: &str) -> (r: bool)
        ensures
            r == self.overlaps(a@, b@),
    {
        if str_chars(a).len() == 0 || str_chars(b).len() == 0 {
            return false;
        }
        if !self.use_kerning {
            return false;
        }
        !any_non_overlapping(a) && !any_non_overlapping(b)
    }

    /// Character positions that are glyph start positions (excluding mid-ligature indices).
    pub fn glyph_borders(&self, text: &str) -> (r: Vec<usize>)
        requires
            self.ligatures_compile(),
        ensures
            r@.len() == self.glyph_border_seq(text@).len(),
            forall|i: int| 0 <= i < r@.len() ==> r@[i] == #[trigger] self.glyph_border_seq(text@)[i],
            forall|i: int| 0 <= i < r@.len() ==> #[trigger] r@[i] < text@.len(),
            forall|i: int, j: int| 0 <= i < j < r@.len() ==> r@[i] < r@[j],
            self.uses_ligature_regex() ==> matches_well_formed(text@, regex_find(self.ligature_regex(), text@)),
    {
        proof {
            self.lemma_glyph_borders_range(text@);
        }
        let v = str_chars(text);
        let n = v.len();
        let mut result: Vec<usize> = Vec::new();
        if !self.use_ligatures || self.font.ligature_keys().len() == 0 {
            let mut i: usize = 0;
            while i < n
                invariant
                    n == text@.len(),
                    i <= n,
                    result@.len() == i,
                    forall|j: int| 0 <= j < i ==> #[trigger] result@[j] == j,
                decreases n - i,
            {
                result.push(i);
                i = i + 1;
            }
            return result;
        }
        let ghost s = text@;
        // the text's byte length fits in a usize
        let _nbytes: usize = str_byte_len(text);
        let ms = self.ligature_matches(text);
        let offs = byte_offsets(v.as_slice());
        let total = offs[n];
        // start and character count of each match
        let mut extents: Vec<(usize, usize)> = Vec::new();
        let mut j: usize = 0;
        while j < ms.len()
            invariant
                s == v@,
                n == s.len(),
                matches_well_formed(s, ms@),
                offs@.len() == s.len() + 1,
                forall|k: int| 0 <= k <= s.len() ==> #[trigger] offs@[k] == byte_offset(s, k),
                total == byte_len(s),
                j <= ms@.len(),
                extents@.len() == j,
                forall|k: int| 0 <= k < j ==> #[trigger] extents@[k].0 == match_extent(s, ms@[k]).0
                    && extents@[k].0 + extents@[k].1 == match_extent(s, ms@[k]).0 + match_extent(s, ms@[k]).1
                    && extents@[k].0 + extents@[k].1 <= n,
            decreases ms@.len() - j,
        {
            let (b0, b1) = ms[j];
            assert(is_boundary(s, ms@[j as int].0 as int));
            assert(is_boundary(s, ms@[j as int].1 as int));
            let c0 = index_of_byte(&offs, b0, Ghost(s));
            let c1 = index_of_byte(&offs, b1, Ghost(s));
            proof {
                if c1 < c0 {
                    lemma_byte_offset_increasing(s, c1 as int, c0 as int);
                }
                if b0 >= total {
                    lemma_char_at_byte(s, s.len() as int);
                    if c0 < s.len() {
                        lemma_byte_offset_increasing(s, c0 as int, s.len() as int);
                    }
                    if c1 < s.len() {
                        lemma_byte_offset_increasing(s, c1 as int, s.len() as int);
                    }
                }
            }
            let start = if b0 < total { c0 } else { 0 };
            extents.push((start, c1 - c0));
            j = j + 1;
        }
        let mut p: usize = 0;
        while p < n
            invariant
                n == s.len(),
                extents@.len() == ms@.len(),
                forall|k: int| 0 <= k < extents@.len() ==> #[trigger] extents@[k].0 == match_extent(s, ms@[k]).0
                    && extents@[k].0 + extents@[k].1 == match_extent(s, ms@[k]).0 + match_extent(s, ms@[k]).1
                    && extents@[k].0 + extents@[k].1 <= n,
                p <= n,
                result@.len() == positions_outside(s, ms@, p as nat).len(),
                forall|k: int| 0 <= k < result@.len() ==> #[trigger] result@[k] == positions_outside(s, ms@, p as nat)[k],
            decreases n - p,
        {
            let mut inside = false;
            let mut k: usize = 0;
            while k < extents.len() && !inside
                invariant
                    extents@.len() == ms@.len(),
                    forall|q: int| 0 <= q < extents@.len() ==> #[trigger] extents@[q].0 == match_extent(s, ms@[q]).0
                        && extents@[q].0 + extents@[q].1 == match_extent(s, ms@[q]).0 + match_extent(s, ms@[q]).1
                        && extents@[q].0 + extents@[q].1 <= n,
                    n == s.len(),
                    k <= extents@.len(),
                    inside ==> inside_match(s, ms@, p as int),
                    !inside ==> forall|q: int| 0 <= q < k ==> !(match_extent(s, #[trigger] ms@[q]).0 + 1 <= p
                        < match_extent(s, ms@[q]).0 + match_extent(s, ms@[q]).1),
                decreases extents@.len() - k, (if inside { 0int } else { 1int }),
            {
                let (st, cnt) = extents[k];
                if st < p && p < st + cnt {
                    inside = true;
                    assert(match_extent(s, ms@[k as int]).0 + 1 <= p < match_extent(s, ms@[k as int]).0 + match_extent(s, ms@[k as int]).1);
                } else {
                    k = k + 1;
                }
            }
            let ghost before = result@;
            if !inside {
                result.push(p);
            }
            proof {
                if !inside {
                    assert(!inside_match(s, ms@, p as int));
                }
                assert forall|q: int| 0 <= q < result@.len() implies #[trigger] result@[q] == positions_outside(s, ms@, (p + 1) as nat)[q] by {
                    if q < before.len() {
                        assert(result@[q] == before[q]);
                    }
                }
            }
            p = p + 1;
        }
        result
    }

    /// Compute the inter-glyph spacing between two adjacent chars/ligatures.
    pub fn letter_adjust(&self, left: &str, right: &str) -> (r: i32)
        requires
            self.adjust_fits(left@, right@),
        ensures
            r == self.adjust_between(left@, right@),
    {
        let mut value = self.font.letter_spacing() + self.adjust_spacing;
        if self.use_kerning && !str_eq(left, " ") && !str_eq(right, " ") {
            let gl = self.font.get(left);
            let gr = self.font.get(right);
            assert forall|i: int| 0 <= i < gl@.len() && 0 <= i < gr@.len() implies gl@[i]@.len() + gr@[i]@.len() <= usize::MAX by {
                assert(gl.deep_view()[i] == gl@[i]@);
                assert(gr.deep_view()[i] == gr@[i]@);
            }
            let o = crate::glyph::Glyphs::max_overlap(gl, gr);
            value = value - o as i32;
        }
        value
    }

    /// Width in terminal cells that `text` would render to with this font.
    pub fn rendered_width(&self, text: &str) -> (r: usize)
        requires
            self.measurable(text@.len() as int),
        ensures
            r == self.text_width(text@),
            r <= (2 * text@.len() + 1) * self.step(),
    {
        let v = str_chars(text);
        if v.len() == 0 {
            return 0;
        }
        let pieces = self.split_glyphs(text);
        let ghost n = text@.len() as int;
        let ghost keys = piece_keys(self.glyph_pieces(text@));
        proof {
            assert(keys.len() == pieces@.len());
            assert forall|q: int| 0 <= q < keys.len() implies #[trigger] keys[q] == pieces@[q].1@ by {
                assert(pieces_view(pieces@)[q] == (pieces@[q].0 as int, pieces@[q].1@));
            }
            self.lemma_measurable_step(n, keys.len() as int);
            self.lemma_keys_width_bound(keys);
        }
        if pieces.len() == 0 {
            return 0;
        }
        let mut width: i64 = glyph_width_of(self.font.get(pieces[0].1.as_str())) as i64;
        proof {
            self.lemma_glyph_width_bound(keys[0]);
            self.lemma_step_nonneg();
            assert(keys.take(1).len() == 1 && keys.take(1)[0] == keys[0]);
            assert(width == glyph_width(self.font.glyph_for(keys[0])));
            assert(1 * self.step() == self.step());
        }
        let mut i: usize = 1;
        while i < pieces.len()
            invariant
                self.measurable(n),
                n >= 1,
                3 * self.step() <= i32::MAX,
                keys.len() == pieces@.len(),
                keys.len() <= 2 * n + 1,
                forall|q: int| 0 <= q < keys.len() ==> #[trigger] keys[q] == pieces@[q].1@,
                1 <= i <= pieces@.len(),
                width == self.keys_width(keys.take(i as int)),
                0 <= width <= i * self.step(),
            decreases pieces@.len() - i,
        {
            let g = self.font.get(pieces[i].1.as_str());
            let gw = glyph_width_of(g);
            proof {
                self.lemma_glyph_width_bound(keys[i as int]);
                self.lemma_step_nonneg();
                assert(g.deep_view() == self.font.glyph_for(keys[i as int]));
                self.lemma_adjust_bounds(keys[i - 1], keys[i as int]);
                self.lemma_measurable_step(n, i as int);
            }
            let adj = self.letter_adjust(pieces[i - 1].1.as_str(), pieces[i].1.as_str());
            let w = width + gw as i64 + adj as i64;
            width = if w > 0 { w } else { 0 };
            proof {
                let t = keys.take(i + 1);
                assert(t.drop_last() =~= keys.take(i as int));
                assert(t.last() == keys[i as int]);
                assert(t[t.len() - 2] == keys[i - 1]);
                assert(i * self.step() + self.step() == (i + 1) * self.step()) by (nonlinear_arith);
            }
            i = i + 1;
        }
        assert(keys.take(i as int) =~= keys);
        assert(text@.len() > 0);
        assert(self.text_width(text@) == self.keys_width(keys));
        proof {
            self.lemma_measurable_step(n, i as int);
        }
        width as usize
    }

    /// `rendered_width`, or `None` when the text is not `measurable`.
    pub fn try_rendered_width(&self, text: &str) -> (r: Option<usize>)
        ensures
            r is Some <==> self.measurable(text@.len() as int),
            r matches Some(w) ==> w == self.text_width(text@),
    {
        if self.is_measurable(str_chars(text).len()) {
            Some(self.rendered_width(text))
        } else {
            None
        }
    }
}

impl Typography {
    /// The glyph keys a text is measured by: each of its characters, then
    /// each key its glyph pieces have.
    pub open spec fn measure_keys(&self, s: Seq<char>) -> Seq<Seq<char>> {
        Seq::new(s.len(), |i: int| seq![s[i]]) + piece_keys(self.glyph_pieces(s))
    }

    /// The largest rendered width among `keys` (0 for none).
    pub open spec fn widest(&self, keys: Seq<Seq<char>>) -> int
        decreases keys.len(),
    {
        if keys.len() == 0 {
            0
        } else {
            let m = self.widest(keys.drop_last());
            let w = self.text_width(keys.last());
            if w > m { w } else { m }
        }
    }

    /// The minimum and maximum widths of the text: the widest single glyph
    /// key, and the width of the whole text.
    pub fn measure_widths(&self) -> (r: (usize, usize))
        requires
            self.measurable(self.text_view().len() as int),
            self.measurable(1),
        ensures
            r.0 == self.widest(self.measure_keys(self.text_view())),
            r.1 == self.text_width(self.text_view()),
    {
        let v = str_chars(self.plain());
        let pieces = self.split_glyphs(self.plain());
        let ghost s = self.text_view();
        let ghost keys = self.measure_keys(s);
        let n = v.len();
        let mut best: usize = 0;
        let mut i: usize = 0;
        while i < n
            invariant
                self.measurable(s.len() as int),
                v@ == s,
                n == s.len(),
                keys == self.measure_keys(s),
                i <= n,
                best == self.widest(keys.take(i as int)),
            decreases n - i,
        {
            let key = crate::ligature::one_char_string(v[i]);
            proof {
                assert(keys[i as int] == seq![s[i as int]]);
                self.lemma_measurable_le(s.len() as int, 1);
                assert(keys.take(i + 1).drop_last() =~= keys.take(i as int));
                assert(keys.take(i + 1).last() == keys[i as int]);
            }
            let w = self.rendered_width(key.as_str());
            if w > best {
                best = w;
            }
            i = i + 1;
        }
        let mut j: usize = 0;
        while j < pieces.len()
            invariant
                self.measurable(s.len() as int),
                self.measurable(1),
                v@ == s,
                n == s.len(),
                pieces_view(pieces@) == self.glyph_pieces(s),
                keys_fit(s, self.glyph_pieces(s)),
                keys == self.measure_keys(s),
                keys.len() == n + pieces@.len(),
                j <= pieces@.len(),
                best == self.widest(keys.take(n + j)),
            decreases pieces@.len() - j,
        {
            let key = crate::chars::string_of(pieces[j].1.as_str());
            proof {
                assert(keys[n + j] == piece_keys(self.glyph_pieces(s))[j as int]);
                assert(pieces_view(pieces@)[j as int] == (pieces@[j as int].0 as int, pieces@[j as int].1@));
                assert(self.glyph_pieces(s)[j as int].1.len() <= s.len() || self.glyph_pieces(s)[j as int].1.len() == 1);
                if key@.len() <= s.len() {
                    self.lemma_measurable_le(s.len() as int, key@.len() as int);
                }
                assert(keys.take(n + j + 1).drop_last() =~= keys.take(n + j));
                assert(keys.take(n + j + 1).last() == keys[n + j]);
            }
            let w = self.rendered_width(key.as_str());
            if w > best {
                best = w;
            }
            j = j + 1;
        }
        assert(keys.take(n + j) =~= keys);
        (best, self.rendered_width(self.plain()))
    }
}

} // verus!
