use vstd::prelude::*;

use crate::chars::{str_chars, string_from_chars};
use crate::glyph::{Glyph, Glyphs, clone_glyph, glyph_within};
use crate::layout::{
    bg_offset, fg_boundary_at, lemma_bg_shift_range, lemma_lead_le, lemma_max_overlap_le_rows, lemma_merged_line_len,
    lemma_trail_le, max_overlap, merged, merged_line,
};
use crate::ligature::{one_char_string, pieces_view};
use crate::line::{LineStyle, LineType};
use crate::measure::{glyph_width, piece_keys};
use crate::style::{Segment, TextStyle, combined, null_style};
use crate::styling::{
    MutableSpan, decoration_on, line_style_active, line_type_style, line_type_to_style, overlay, overlay_styles,
    resolved,
};
use crate::typography::Typography;

verus! {

/// The style that switches every line decoration off.
pub open spec fn line_reset() -> TextStyle {
    TextStyle { underline: Some(false), underline2: Some(false), overline: Some(false), strike: Some(false), ..null_style() }
}

/// `s` with every space replaced by `c`.
pub open spec fn spaces_to(s: Seq<char>, c: char) -> Seq<char> {
    Seq::new(s.len(), |i: int| if s[i] == ' ' { c } else { s[i] })
}

/// One decoration applied to a piece of row `row` styled `st`: when `st`
/// switches on the decoration `attr` and the line is drawn on this row, a
/// custom line turns the spaces into its character, any other line type
/// switches its decoration on in the override.
pub open spec fn decoration_step(
    acc: (Seq<char>, TextStyle),
    ls: LineStyle,
    attr: Seq<char>,
    st: TextStyle,
    row: int,
) -> (Seq<char>, TextStyle) {
    if !decoration_on(st, attr) || ls.index != row {
        acc
    } else if ls.line == LineType::Custom {
        match ls.char {
            Some(c) => (spaces_to(acc.0, c), acc.1),
            None => acc,
        }
    } else {
        (acc.0, combined(acc.1, line_type_style(ls.line)))
    }
}

/// A piece of text of row `row` with the font's line decorations applied:
/// its text and its style.
pub open spec fn decorated(
    lines: (LineStyle, LineStyle, LineStyle, LineStyle),
    st: TextStyle,
    row: int,
    text: Seq<char>,
) -> (Seq<char>, TextStyle) {
    let a0 = (text, line_reset());
    let a1 = decoration_step(a0, lines.0, "underline"@, st, row);
    let a2 = decoration_step(a1, lines.1, "underline2"@, st, row);
    let a3 = decoration_step(a2, lines.2, "overline"@, st, row);
    let a4 = decoration_step(a3, lines.3, "strike"@, st, row);
    (a4.0, combined(st, a4.1))
}

/// The characters `a..b` of `s`, both clipped to its length.
pub open spec fn clip_range(s: Seq<char>, a: int, b: int) -> Seq<char> {
    let x = if a <= s.len() { a } else { s.len() as int };
    let y = if b <= s.len() { b } else { s.len() as int };
    s.subrange(x, y)
}

/// The segments of row `row`: one per span, the text under it, decorated
/// when it has a style.
pub open spec fn row_segments(
    lines: (LineStyle, LineStyle, LineStyle, LineStyle),
    row_text: Seq<char>,
    spans: Seq<MutableSpan>,
    row: int,
) -> Seq<(Seq<char>, Option<TextStyle>)> {
    Seq::new(spans.len(), |i: int| {
        let t = clip_range(row_text, spans[i].start as int, spans[i].end as int);
        match spans[i].style {
            Some(st) => {
                let d = decorated(lines, st, row, t);
                (d.0, Some(d.1))
            },
            None => (t, None),
        }
    })
}

/// The number of characters of the segments' texts together.
pub open spec fn texts_len(segs: Seq<(Seq<char>, Option<TextStyle>)>) -> int
    decreases segs.len(),
{
    if segs.len() == 0 { 0 } else { texts_len(segs.drop_last()) + segs.last().0.len() }
}

/// Decorating a piece of a row keeps its length.
pub proof fn lemma_decorated_keeps_len(
    lines: (LineStyle, LineStyle, LineStyle, LineStyle),
    st: TextStyle,
    row: int,
    t: Seq<char>,
)
    ensures
        decorated(lines, st, row, t).0.len() == t.len(),
{
}

proof fn lemma_row_segments_prefix(
    lines: (LineStyle, LineStyle, LineStyle, LineStyle),
    row_text: Seq<char>,
    spans: Seq<MutableSpan>,
    row: int,
    k: int,
)
    requires
        1 <= k <= spans.len(),
        spans[0].start == 0,
        forall|i: int| 0 <= i < spans.len() - 1 ==> (#[trigger] spans[i]).end == spans[i + 1].start,
        forall|i: int| 0 <= i < spans.len() ==> (#[trigger] spans[i]).start <= spans[i].end,
    ensures
        texts_len(row_segments(lines, row_text, spans, row).take(k)) == if spans[k - 1].end <= row_text.len() {
            spans[k - 1].end as int
        } else {
            row_text.len() as int
        },
    decreases k,
{
    let segs = row_segments(lines, row_text, spans, row);
    let t = clip_range(row_text, spans[k - 1].start as int, spans[k - 1].end as int);
    assert(segs[k - 1].0.len() == t.len()) by {
        match spans[k - 1].style {
            Some(st) => {
                lemma_decorated_keeps_len(lines, st, row, t);
            },
            None => {},
        }
    }
    assert(segs.take(k).drop_last() =~= segs.take(k - 1));
    assert(segs.take(k).last() == segs[k - 1]);
    assert(texts_len(segs.take(k)) == texts_len(segs.take(k - 1)) + segs[k - 1].0.len());
    let lo: int = if spans[k - 1].start <= row_text.len() { spans[k - 1].start as int } else { row_text.len() as int };
    let hi: int = if spans[k - 1].end <= row_text.len() { spans[k - 1].end as int } else { row_text.len() as int };
    assert(t.len() == hi - lo);
    if k == 1 {
        assert(segs.take(0) =~= Seq::<(Seq<char>, Option<TextStyle>)>::empty());
    } else {
        lemma_row_segments_prefix(lines, row_text, spans, row, k - 1);
        assert(spans[k - 2].end == spans[k - 1].start);
    }
}

/// Cut along spans that start at 0, follow one another without gaps and
/// reach its end, a row's segments hold as many characters as the row.
pub proof fn lemma_row_segments_cover(
    lines: (LineStyle, LineStyle, LineStyle, LineStyle),
    row_text: Seq<char>,
    spans: Seq<MutableSpan>,
    row: int,
)
    requires
        spans.len() >= 1,
        spans[0].start == 0,
        forall|i: int| 0 <= i < spans.len() - 1 ==> (#[trigger] spans[i]).end == spans[i + 1].start,
        forall|i: int| 0 <= i < spans.len() ==> (#[trigger] spans[i]).start <= spans[i].end,
        spans.last().end >= row_text.len(),
    ensures
        texts_len(row_segments(lines, row_text, spans, row)) == row_text.len(),
{
    let segs = row_segments(lines, row_text, spans, row);
    lemma_row_segments_prefix(lines, row_text, spans, row, spans.len() as int);
    assert(segs.take(spans.len() as int) =~= segs);
}

/// The plain view of segments.
pub open spec fn segments_view(v: Seq<Segment>) -> Seq<(Seq<char>, Option<TextStyle>)> {
    Seq::new(v.len(), |i: int| (v[i].text@, v[i].style))
}

/// Every span starts no later than it ends.
pub open spec fn spans_ordered(spans: Seq<MutableSpan>) -> bool {
    forall|i: int| 0 <= i < spans.len() ==> (#[trigger] spans[i]).start <= spans[i].end
}

fn replace_spaces(v: &Vec<char>, c: char) -> (r: Vec<char>)
    ensures
        r@ == spaces_to(v@, c),
{
    let mut r: Vec<char> = Vec::new();
    let mut i: usize = 0;
    while i < v.len()
        invariant
            i <= v@.len(),
            r@ == spaces_to(v@, c).take(i as int),
        decreases v@.len() - i,
    {
        r.push(if v[i] == ' ' { c } else { v[i] });
        i = i + 1;
        assert(r@ =~= spaces_to(v@, c).take(i as int));
    }
    assert(spaces_to(v@, c).take(i as int) =~= spaces_to(v@, c));
    r
}

fn decoration_apply(text: &mut Vec<char>, over: &mut TextStyle, ls: &LineStyle, attr: &str, st: &TextStyle, row: usize)
    ensures
        (final(text)@, *final(over)) == decoration_step((old(text)@, *old(over)), *ls, attr@, *st, row as int),
{
    if !line_style_active(st, attr) || ls.index != row {
        return;
    }
    if ls.line == LineType::Custom {
        match ls.char {
            Some(c) => {
                let r = replace_spaces(text, c);
                *text = r;
            },
            None => {},
        }
    } else {
        *over = over.combine(&line_type_to_style(&ls.line));
    }
}

impl Typography {
    /// The font's four line decorations.
    pub open spec fn font_lines(&self) -> (LineStyle, LineStyle, LineStyle, LineStyle) {
        (self.font.underline_style(), self.font.underline2_style(), self.font.overline_style(), self.font.strike_style())
    }

    fn decorate(&self, st: &TextStyle, row: usize, text: Vec<char>) -> (r: (Vec<char>, TextStyle))
        ensures
            (r.0@, r.1) == decorated(self.font_lines(), *st, row as int, text@),
    {
        let mut t = text;
        let mut over = TextStyle::new();
        over.underline = Some(false);
        over.underline2 = Some(false);
        over.overline = Some(false);
        over.strike = Some(false);
        decoration_apply(&mut t, &mut over, self.font.underline(), "underline", st, row);
        decoration_apply(&mut t, &mut over, self.font.underline2(), "underline2", st, row);
        decoration_apply(&mut t, &mut over, self.font.overline(), "overline", st, row);
        decoration_apply(&mut t, &mut over, self.font.strike(), "strike", st, row);
        (t, st.combine(&over))
    }

    /// The segments of one rendered row.
    pub(crate) fn emit_row(&self, row_text: &String, spans: &Vec<MutableSpan>, row: usize, out: &mut Vec<Segment>)
        requires
            spans_ordered(spans@),
        ensures
            segments_view(final(out)@) == segments_view(old(out)@) + row_segments(self.font_lines(), row_text@, spans@, row as int),
    {
        let chars = str_chars(row_text.as_str());
        let n = chars.len();
        let ghost base = segments_view(out@);
        let ghost rs = row_segments(self.font_lines(), row_text@, spans@, row as int);
        let mut i: usize = 0;
        assert(segments_view(out@) =~= base + rs.take(0));
        while i < spans.len()
            invariant
                chars@ == row_text@,
                n == chars@.len(),
                spans_ordered(spans@),
                rs == row_segments(self.font_lines(), row_text@, spans@, row as int),
                i <= spans@.len(),
                segments_view(out@) == base + rs.take(i as int),
            decreases spans@.len() - i,
        {
            let sp = spans[i];
            let start = if sp.start <= n { sp.start } else { n };
            let end = if sp.end <= n { sp.end } else { n };
            let piece = crate::text::slice_to_vec(chars.as_slice(), start, end);
            let seg = match sp.style {
                Some(st) => {
                    let (t, s) = self.decorate(&st, row, piece);
                    Segment { text: string_from_chars(t.as_slice()), style: Some(s) }
                },
                None => Segment { text: string_from_chars(piece.as_slice()), style: None },
            };
            let ghost before = out@;
            out.push(seg);
            proof {
                assert(segments_view(out@) =~= segments_view(before).push(rs[i as int]));
                assert(rs.take(i + 1) =~= rs.take(i as int).push(rs[i as int]));
            }
            i = i + 1;
        }
        assert(rs.take(i as int) =~= rs);
    }
}

/// The longest a laid-out row may grow: half the range of `i32`, so that
/// offsets into a row computed in `i32` cannot overflow.
pub const ROW_LIMIT: usize = 1073741824;

/// The rows of a glyph are each at most `w` characters long.
pub open spec fn rows_within(g: Seq<Seq<char>>, w: int) -> bool {
    forall|d: int| 0 <= d < g.len() ==> (#[trigger] g[d]).len() <= w
}

impl Typography {
    /// The letter spacing plus the adjustment.
    pub open spec fn base_spacing(&self) -> int {
        self.font.spacing() + self.adjust_spacing
    }

    /// The glyphs of `keys` merged into one, left to right: each next glyph
    /// follows at the base spacing, less the overlap of the glyph so far and
    /// the next one where the two keys may overlap.
    pub open spec fn fragment_glyph(&self, keys: Seq<Seq<char>>) -> Seq<Seq<char>>
        decreases keys.len(),
    {
        if keys.len() == 0 {
            Seq::empty()
        } else if keys.len() == 1 {
            self.font.glyph_for(keys[0])
        } else {
            let rows = self.fragment_glyph(keys.drop_last());
            let letter = self.font.glyph_for(keys.last());
            let sp = if self.overlaps(keys[keys.len() - 2], keys.last()) {
                self.base_spacing() - max_overlap(rows, letter)
            } else {
                self.base_spacing()
            };
            merged(rows, letter, sp)
        }
    }

    /// Merges `letter` after `rows` as `fragment_glyph` does, with kerning
    /// decided by `olap`.
    fn merge_next(&self, rows: &Glyph, letter: &Glyph, olap: bool, Ghost(bound): Ghost<int>) -> (r: Glyph)
        requires
            rows@.len() >= self.font.height(),
            glyph_within(letter.deep_view(), self.font.height() as nat, self.font.widest()),
            rows_within(rows.deep_view(), bound),
            0 <= bound,
            bound + self.step() <= ROW_LIMIT,
        ensures
            r.deep_view() == merged(rows.deep_view(), letter.deep_view(),
                if olap { self.base_spacing() - max_overlap(rows.deep_view(), letter.deep_view()) } else { self.base_spacing() }),
            r@.len() >= self.font.height(),
            rows_within(r.deep_view(), bound + self.step()),
    {
        let ghost rv = rows.deep_view();
        let ghost lv = letter.deep_view();
        proof {
            self.lemma_step_nonneg();
        }
        let base: i32 = self.font.letter_spacing() + self.adjust_spacing;
        let mut spacing: i32 = base;
        if olap {
            assert forall|i: int| 0 <= i < rows@.len() && 0 <= i < letter@.len() implies rows@[i]@.len() + letter@[i]@.len() <= usize::MAX by {
                assert(rv[i] == rows@[i]@);
                assert(lv[i] == letter@[i]@);
            }
            let mo = Glyphs::max_overlap(rows, letter);
            proof {
                if rv.len() > 0 && lv.len() > 0 {
                    lemma_max_overlap_le_rows(rv, lv, 0);
                }
            }
            spacing = base - mo as i32;
        }
        let r = Glyphs::merge(rows, letter, spacing);
        proof {
            let rr = r.deep_view();
            assert forall|d: int| 0 <= d < rr.len() implies (#[trigger] rr[d]).len() <= bound + self.step() by {
                lemma_merged_line_len(rv[d], lv[d], spacing as int);
                if olap {
                    lemma_max_overlap_le_rows(rv, lv, d);
                }
            }
        }
        r
    }

    /// The merged glyph of a fragment's keys.
    fn fragment_rows(&self, keys: &Vec<String>) -> (r: Glyph)
        requires
            self.font.rows_complete(),
            1 <= keys@.len(),
            keys@.len() * self.step() <= ROW_LIMIT,
        ensures
            r.deep_view() == self.fragment_glyph(keys.deep_view()),
            r@.len() >= self.font.height(),
            rows_within(r.deep_view(), keys@.len() * self.step()),
    {
        let ghost kv = keys.deep_view();
        proof {
            self.font.lemma_glyph_for_complete(kv[0]);
            self.lemma_step_nonneg();
            assert(kv.take(1).len() == 1 && kv.take(1)[0] == kv[0]);
        }
        let mut rows = clone_glyph(self.font.get(keys[0].as_str()));
        let mut i: usize = 1;
        while i < keys.len()
            invariant
                self.font.rows_complete(),
                kv == keys.deep_view(),
                1 <= i <= kv.len(),
                kv.len() * self.step() <= ROW_LIMIT,
                0 <= self.step(),
                rows.deep_view() == self.fragment_glyph(kv.take(i as int)),
                rows@.len() >= self.font.height(),
                rows_within(rows.deep_view(), i * self.step()),
            decreases kv.len() - i,
        {
            let letter = self.font.get(keys[i].as_str());
            proof {
                self.font.lemma_glyph_for_complete(kv[i as int]);
                assert(i * self.step() + self.step() <= kv.len() * self.step()) by (nonlinear_arith)
                    requires i + 1 <= kv.len(), 0 <= self.step();
                assert(i * self.step() >= 0) by (nonlinear_arith)
                    requires i >= 0, 0 <= self.step();
            }
            let olap = self.should_overlap(keys[i - 1].as_str(), keys[i].as_str());
            rows = self.merge_next(&rows, letter, olap, Ghost(i * self.step()));
            proof {
                let t = kv.take(i + 1);
                assert(t.drop_last() =~= kv.take(i as int));
                assert(t.last() == kv[i as int]);
                assert(t[t.len() - 2] == kv[i - 1]);
                assert(i * self.step() + self.step() == (i + 1) * self.step()) by (nonlinear_arith);
            }
            i = i + 1;
        }
        assert(kv.take(i as int) =~= kv);
        rows
    }
}

/// `x`, or 0 when it is negative.
pub open spec fn nonneg(x: int) -> int {
    if x > 0 { x } else { 0 }
}

/// A span from `s` to `e`.
pub open spec fn mspan(s: int, e: int, style: Option<TextStyle>) -> MutableSpan {
    MutableSpan { start: s as usize, end: e as usize, style }
}

/// The spans with the end of the last one moved to `e`.
pub open spec fn with_last_end(spans: Seq<MutableSpan>, e: int) -> Seq<MutableSpan> {
    if spans.len() > 0 {
        spans.update(spans.len() - 1, MutableSpan { end: e as usize, ..spans.last() })
    } else {
        spans
    }
}

/// A style with a background color.
pub open spec fn has_bg(s: Option<TextStyle>) -> bool {
    s matches Some(st) && st.bgcolor is Some
}

/// The spans of a row of `rcl` cells after a fragment row of `flen` cells
/// is merged in with foreground boundary `fg` and background boundary `bg`.
/// Without split styles the previous span ends at the foreground boundary
/// and the fragment's span starts there. With them the previous span ends
/// at the nearer boundary, the zone between the two boundaries gets the
/// overlay of the two styles (foreground of the side that is drawn over),
/// and the fragment's span starts at the farther boundary.
pub open spec fn row_spans_step(
    spans: Seq<MutableSpan>,
    rcl: int,
    fg: int,
    bg: int,
    split: bool,
    fstyle: Option<TextStyle>,
    lstyle: Option<TextStyle>,
    flen: int,
) -> Seq<MutableSpan> {
    if split {
        let lo = if fg <= bg { fg } else { bg };
        let hi = if fg >= bg { fg } else { bg };
        let s1 = with_last_end(spans, nonneg(rcl + lo));
        let s2 = if fg > bg {
            s1.push(mspan(nonneg(rcl + bg), nonneg(rcl + fg), Some(overlay(lstyle, fstyle))))
        } else if fg < bg {
            s1.push(mspan(nonneg(rcl + fg), nonneg(rcl + bg), Some(overlay(fstyle, lstyle))))
        } else {
            s1
        };
        s2.push(mspan(nonneg(rcl + hi), rcl + flen, fstyle))
    } else {
        with_last_end(spans, nonneg(rcl + fg)).push(mspan(nonneg(rcl + fg), rcl + flen, fstyle))
    }
}

fn copy_mspans(v: &Vec<MutableSpan>) -> (r: Vec<MutableSpan>)
    ensures
        r@ == v@,
{
    let mut r: Vec<MutableSpan> = Vec::new();
    let mut i: usize = 0;
    while i < v.len()
        invariant
            i <= v@.len(),
            r@ == v@.take(i as int),
        decreases v@.len() - i,
    {
        r.push(v[i]);
        i = i + 1;
        assert(r@ =~= v@.take(i as int));
    }
    assert(v@.take(i as int) =~= v@);
    r
}

/// A row's spans as layout keeps them: one at least, the first starting at
/// the row's start, the last not starting after it ends.
pub open spec fn spans_shaped(sp: Seq<MutableSpan>) -> bool {
    &&& sp.len() >= 1
    &&& sp[0].start == 0
    &&& sp.last().start <= sp.last().end
}

/// The spans of one row after a fragment is merged in.
fn spans_step(
    spans: &Vec<MutableSpan>,
    rcl: usize,
    fg: i32,
    bg: i32,
    split: bool,
    fstyle: Option<TextStyle>,
    lstyle: Option<TextStyle>,
    flen: usize,
) -> (r: Vec<MutableSpan>)
    requires
        rcl <= i32::MAX,
        rcl + flen <= usize::MAX,
        fg <= 0,
        bg <= 0,
    ensures
        r@ == row_spans_step(spans@, rcl as int, fg as int, bg as int, split, fstyle, lstyle, flen as int),
        spans_shaped(spans@) ==> spans_shaped(r@),
{
    let mut out = copy_mspans(spans);
    let r = rcl as i64;
    let n = out.len();
    if split {
        let lo = if fg <= bg { fg } else { bg };
        let hi = if fg >= bg { fg } else { bg };
        let e1 = if r + lo as i64 > 0 { (r + lo as i64) as usize } else { 0 };
        if n > 0 {
            let last = out[n - 1];
            out.set(n - 1, MutableSpan { end: e1, ..last });
        }
        let pb = if r + bg as i64 > 0 { (r + bg as i64) as usize } else { 0 };
        let pf = if r + fg as i64 > 0 { (r + fg as i64) as usize } else { 0 };
        if fg > bg {
            out.push(MutableSpan { start: pb, end: pf, style: Some(overlay_styles(lstyle, fstyle)) });
        } else if fg < bg {
            out.push(MutableSpan { start: pf, end: pb, style: Some(overlay_styles(fstyle, lstyle)) });
        }
        let ph = if r + hi as i64 > 0 { (r + hi as i64) as usize } else { 0 };
        out.push(MutableSpan { start: ph, end: rcl + flen, style: fstyle });
    } else {
        let pf = if r + fg as i64 > 0 { (r + fg as i64) as usize } else { 0 };
        if n > 0 {
            let last = out[n - 1];
            out.set(n - 1, MutableSpan { end: pf, ..last });
        }
        out.push(MutableSpan { start: pf, end: rcl + flen, style: fstyle });
    }
    out
}

/// What laying out a line keeps track of: the rows so far, the spans of
/// each row, the last glyph key and the last fragment's style.
pub type LayoutState = (Seq<Seq<char>>, Seq<Seq<MutableSpan>>, Seq<char>, Option<TextStyle>);

/// The plain view of the spans of each row.
pub open spec fn span_rows_view(v: Seq<Vec<MutableSpan>>) -> Seq<Seq<MutableSpan>> {
    Seq::new(v.len(), |d: int| v[d]@)
}

impl Typography {
    /// The layout state after the fragment `text`, styled `fstyle`, is
    /// merged in. An empty fragment, or one whose glyph has no rows, changes
    /// nothing. Otherwise the fragment's glyph follows at the base spacing,
    /// less the overlap of the rows so far and the glyph when the last key
    /// and the fragment's first character may overlap; styles are split at
    /// the boundaries when either style has a background and the spacing is
    /// not 0.
    pub open spec fn fragment_step(&self, st: LayoutState, text: Seq<char>, fstyle: Option<TextStyle>) -> LayoutState {
        let (rows, spans, last_char, last_style) = st;
        if text.len() == 0 {
            st
        } else {
            let keys = piece_keys(self.glyph_pieces(text));
            let frows = self.fragment_glyph(keys);
            if frows.len() == 0 {
                st
            } else {
                let olap = last_char.len() > 0 && self.overlaps(last_char, seq![text[0]]);
                let fsp = if olap { self.base_spacing() - max_overlap(rows, frows) } else { self.base_spacing() };
                let split = (has_bg(fstyle) || has_bg(last_style)) && fsp != 0;
                let bg = bg_offset(rows, frows, fsp);
                let new_spans = Seq::new(spans.len(), |d: int|
                    row_spans_step(spans[d], rows[d].len() as int, fg_boundary_at(rows, frows, fsp, d), bg, split, fstyle,
                        last_style, frows[d].len() as int));
                (merged(rows, frows, fsp), new_spans, keys.last(), fstyle)
            }
        }
    }

    /// Merge one fragment into the rows and spans of a line.
    pub(crate) fn render_fragment(
        &self,
        rows: Glyph,
        spans: Vec<Vec<MutableSpan>>,
        last_char: String,
        last_style: Option<TextStyle>,
        text: &String,
        fstyle: Option<TextStyle>,
        Ghost(bound): Ghost<int>,
    ) -> (r: (Glyph, Vec<Vec<MutableSpan>>, String, Option<TextStyle>))
        requires
            self.font.rows_complete(),
            self.ligatures_compile(),
            rows@.len() == self.font.height(),
            spans@.len() == self.font.height(),
            self.font.height() <= i32::MAX,
            0 <= bound,
            bound + (2 * text@.len() + 2) * self.step() <= ROW_LIMIT,
            rows_within(rows.deep_view(), bound),
        ensures
            (r.0.deep_view(), span_rows_view(r.1@), r.2@, r.3) == self.fragment_step(
                (rows.deep_view(), span_rows_view(spans@), last_char@, last_style), text@, fstyle),
            r.0@.len() == self.font.height(),
            r.1@.len() == self.font.height(),
            rows_within(r.0.deep_view(), bound + (2 * text@.len() + 2) * self.step()),
            (forall|q: int| 0 <= q < spans@.len() ==> spans_shaped(#[trigger] spans@[q]@))
                ==> (forall|q: int| 0 <= q < r.1@.len() ==> spans_shaped(#[trigger] r.1@[q]@)),
    {
        let ghost rv = rows.deep_view();
        let tv = str_chars(text.as_str());
        proof {
            self.lemma_step_nonneg();
            assert((2 * text@.len() + 2) * self.step() >= 0) by (nonlinear_arith)
                requires 0 <= self.step();
            assert(bound <= bound + (2 * text@.len() + 2) * self.step());
        }
        if tv.len() == 0 {
            return (rows, spans, last_char, last_style);
        }
        let pieces = self.split_glyphs(text.as_str());
        let ghost kv = piece_keys(self.glyph_pieces(text@));
        let mut keys: Vec<String> = Vec::new();
        let mut i: usize = 0;
        while i < pieces.len()
            invariant
                kv == piece_keys(pieces_view(pieces@)),
                i <= pieces@.len(),
                keys.deep_view() == kv.take(i as int),
            decreases pieces@.len() - i,
        {
            let k = crate::chars::string_of(pieces[i].1.as_str());
            let ghost before = keys.deep_view();
            keys.push(k);
            proof {
                assert(kv[i as int] == pieces_view(pieces@)[i as int].1);
                assert(pieces_view(pieces@)[i as int].1 == pieces@[i as int].1@);
                assert(keys.deep_view() =~= before.push(k@));
            }
            i = i + 1;
            assert(keys.deep_view() =~= kv.take(i as int));
        }
        assert(kv.take(i as int) =~= kv);
        if keys.len() == 0 {
            proof {
                assert(self.fragment_glyph(kv).len() == 0);
            }
            return (rows, spans, last_char, last_style);
        }
        proof {
            assert(keys@.len() * self.step() <= (2 * text@.len() + 1) * self.step()) by (nonlinear_arith)
                requires keys@.len() <= 2 * text@.len() + 1, 0 <= self.step();
            assert((2 * text@.len() + 1) * self.step() + self.step() == (2 * text@.len() + 2) * self.step()) by (nonlinear_arith);
        }
        let frows = self.fragment_rows(&keys);
        let ghost fv = frows.deep_view();
        if frows.len() == 0 {
            return (rows, spans, last_char, last_style);
        }
        proof {
            assert(keys@.len() * self.step() <= (2 * text@.len() + 1) * self.step()) by (nonlinear_arith)
                requires keys@.len() <= 2 * text@.len() + 1, 0 <= self.step();
            assert((2 * text@.len() + 1) * self.step() + self.step() == (2 * text@.len() + 2) * self.step()) by (nonlinear_arith);
        }
        let first = one_char_string(tv[0]);
        assert(first@ == seq![text@[0]]);
        let base: i32 = self.font.letter_spacing() + self.adjust_spacing;
        let mut fsp: i32 = base;
        let lc_len = str_chars(last_char.as_str()).len();
        let olap = lc_len > 0 && self.should_overlap(last_char.as_str(), first.as_str());
        if olap {
            assert forall|q: int| 0 <= q < rows@.len() && 0 <= q < frows@.len() implies rows@[q]@.len() + frows@[q]@.len() <= usize::MAX by {
                assert(rv[q] == rows@[q]@);
                assert(fv[q] == frows@[q]@);
            }
            let mo = Glyphs::max_overlap(&rows, &frows);
            proof {
                if rv.len() > 0 {
                    lemma_max_overlap_le_rows(rv, fv, 0);
                }
            }
            fsp = base - mo as i32;
        }
        let split = (has_bg_style(fstyle) || has_bg_style(last_style)) && fsp != 0;
        proof {
            assert forall|q: int| 0 <= q < rows@.len() implies crate::layout::trail(#[trigger] rows@[q]@) <= i32::MAX by {
                assert(rv[q] == rows@[q]@);
                lemma_trail_le(rows@[q]@);
            }
            assert forall|q: int| 0 <= q < rows@.len() implies crate::layout::lead(#[trigger] frows@[q]@) <= i32::MAX
                && fsp + crate::layout::lead(frows@[q]@) <= i32::MAX by {
                assert(fv[q] == frows@[q]@);
                lemma_lead_le(frows@[q]@);
            }
        }
        let fg = Glyphs::boundary(&rows, &frows, fsp);
        let bg = Glyphs::bg_boundary(&rows, &frows, fsp);
        let ghost bgv = bg_offset(rv, fv, fsp as int);
        proof {
            let a = if fsp >= 0 { fsp as int } else { -(fsp as int) };
            lemma_bg_shift_range(rv, fv, a, 0);
        }
        let h = rows.len();
        let mut new_spans: Vec<Vec<MutableSpan>> = Vec::new();
        let mut d: usize = 0;
        while d < h
            invariant
                h == rows@.len(),
                h == spans@.len(),
                rv == rows.deep_view(),
                fv == frows.deep_view(),
                frows@.len() >= h,
                fg@.len() == h,
                bg@.len() == h,
                forall|q: int| 0 <= q < h ==> #[trigger] fg@[q] == fg_boundary_at(rv, fv, fsp as int, q),
                forall|q: int| 0 <= q < h ==> #[trigger] bg@[q] == bgv,
                bgv <= 0,
                rows_within(rv, bound),
                rows_within(fv, ROW_LIMIT as int),
                bound <= ROW_LIMIT,
                d <= h,
                new_spans@.len() == d,
                forall|q: int| 0 <= q < d ==> (#[trigger] new_spans@[q])@ == row_spans_step(spans@[q]@, rv[q].len() as int,
                    fg_boundary_at(rv, fv, fsp as int, q), bgv, split, fstyle, last_style, fv[q].len() as int),
                forall|q: int| 0 <= q < d ==> spans_shaped(spans@[q]@) ==> spans_shaped(#[trigger] new_spans@[q]@),
            decreases h - d,
        {
            let rcl = str_chars(rows[d].as_str()).len();
            let flen = str_chars(frows[d].as_str()).len();
            proof {
                assert(rv[d as int] == rows@[d as int]@);
                assert(fv[d as int] == frows@[d as int]@);
                assert(rcl <= bound);
                assert(flen <= ROW_LIMIT);
            }
            let sd = spans_step(&spans[d], rcl, fg[d], bg[d], split, fstyle, last_style, flen);
            new_spans.push(sd);
            d = d + 1;
        }
        let merged_rows = Glyphs::merge(&rows, &frows, fsp);
        let new_last = keys[keys.len() - 1].clone();
        assert(merged_rows@.len() == merged_rows.deep_view().len());
        assert(frows@.len() == fv.len());
        proof {
            let st2 = self.fragment_step((rv, span_rows_view(spans@), last_char@, last_style), text@, fstyle);
            assert(span_rows_view(new_spans@) =~= st2.1);
            assert(kv.last() == keys@[keys@.len() - 1]@);
            let mr = merged_rows.deep_view();
            assert forall|q: int| 0 <= q < mr.len() implies (#[trigger] mr[q]).len() <= bound + (2 * text@.len() + 2) * self.step() by {
                lemma_merged_line_len(rv[q], fv[q], fsp as int);
                if olap {
                    lemma_max_overlap_le_rows(rv, fv, q);
                }
            }
        }
        (merged_rows, new_spans, new_last, fstyle)
    }
}

fn has_bg_style(s: Option<TextStyle>) -> (r: bool)
    ensures
        r == has_bg(s),
{
    match s {
        Some(st) => st.bgcolor.is_some(),
        None => false,
    }
}

} // verus!
