use vstd::prelude::*;

use crate::chars::{str_chars, string_from_chars, string_of};
use crate::glyph::Glyph;
use crate::justify::{frag_view, lemma_text_before_mono, lemma_text_before_nonneg, text_before};
use crate::layout::spaces;
use crate::render::{
    ROW_LIMIT, LayoutState, lemma_row_segments_cover, mspan, nonneg, row_segments, rows_within, segments_view, span_rows_view,
    spans_ordered, spans_shaped, texts_len,
};
use crate::style::{JustifyMethod, Segment, TextStyle};
use crate::styling::{MutableSpan, lemma_resolved_ordered, resolved};
use crate::text::{lemma_trim_end_len, lines_of, split_chars_on, split_lines, split_on, trim_end, trim_end_chars};
use crate::typography::Typography;

verus! {

/// Justifications that lay out a line without its trailing white space.
pub open spec fn trims_line(j: JustifyMethod) -> bool {
    j == JustifyMethod::Right || j == JustifyMethod::Center || j == JustifyMethod::Full
}

/// The text of a line as it is laid out.
pub open spec fn line_text_for(line: Seq<char>, j: JustifyMethod) -> Seq<char> {
    if trims_line(j) { trim_end(line) } else { line }
}

/// The indent of a line `lw` cells wide in `width` cells: the free room for
/// right justification, half of it for centring, none otherwise.
pub open spec fn indent_for(width: int, lw: int, j: JustifyMethod) -> int {
    if j == JustifyMethod::Right {
        nonneg(width - lw)
    } else if j == JustifyMethod::Center {
        nonneg(width - lw) / 2
    } else {
        0
    }
}

/// A row cut to `width` cells and, unless justification is the default,
/// padded with spaces to that width.
pub open spec fn fitted_row(row: Seq<char>, width: int, j: JustifyMethod) -> Seq<char> {
    let t = if row.len() <= width { row } else { row.take(width) };
    if j != JustifyMethod::Default && t.len() < width { t + spaces((width - t.len()) as nat) } else { t }
}

/// The spans of a row closed by an unstyled span to the end of the row at
/// `fl`, then resolved.
pub open spec fn closed_spans(spans: Seq<MutableSpan>, fl: int) -> Seq<MutableSpan> {
    let last_end: int = if spans.len() > 0 { spans.last().end as int } else { 0 };
    resolved(spans.push(mspan(last_end, fl, None)))
}

/// The segment that ends a row.
pub open spec fn newline_segment() -> (Seq<char>, Option<TextStyle>) {
    (seq!['\n'], None)
}

impl Typography {
    /// The fragments a line is laid out from: its style fragments, fully
    /// justified for full justification.
    pub open spec fn line_fragments(&self, lt: Seq<char>, width: int, j: JustifyMethod) -> Seq<(Seq<char>, Option<TextStyle>)> {
        if j == JustifyMethod::Full { self.justified(width, lt, self.fragments(lt)) } else { self.fragments(lt) }
    }

    /// The layout state after the first `n` fragments.
    pub open spec fn layout_upto(&self, frags: Seq<(Seq<char>, Option<TextStyle>)>, n: nat, init: LayoutState) -> LayoutState
        decreases n,
    {
        if n == 0 || n > frags.len() {
            init
        } else {
            let st = self.layout_upto(frags, (n - 1) as nat, init);
            self.fragment_step(st, frags[n - 1].0, frags[n - 1].1)
        }
    }

    /// The layout state a line starts from: every row the indent's spaces,
    /// with one unstyled span over them.
    pub open spec fn initial_layout(&self, indent: int) -> LayoutState {
        let h = self.font.height();
        (Seq::new(h as nat, |_d: int| spaces(indent as nat)), Seq::new(h as nat, |_d: int| seq![mspan(0, indent, None)]),
            Seq::empty(), None)
    }

    /// The layout state after a line's fragments.
    pub open spec fn line_layout(&self, lt: Seq<char>, width: int, j: JustifyMethod) -> LayoutState {
        let frags = self.line_fragments(lt, width, j);
        self.layout_upto(frags, frags.len(), self.initial_layout(indent_for(width, self.text_width(lt), j)))
    }

    /// The segments of the first `k` rows, each row ended by a line break.
    pub open spec fn rows_segments(&self, rows: Seq<Seq<char>>, spans: Seq<Seq<MutableSpan>>, fl: int, k: nat) -> Seq<
        (Seq<char>, Option<TextStyle>),
    >
        decreases k,
    {
        if k == 0 {
            Seq::empty()
        } else {
            self.rows_segments(rows, spans, fl, (k - 1) as nat) + row_segments(
                self.font_lines(),
                rows[k - 1],
                closed_spans(spans[k - 1], fl),
                k - 1,
            ) + seq![newline_segment()]
        }
    }

    /// The rows a line renders to: laid out, then fitted to the width.
    pub open spec fn line_rows(&self, line: Seq<char>, width: int, j: JustifyMethod) -> Seq<Seq<char>> {
        let st = self.line_layout(line_text_for(line, j), width, j);
        Seq::new(st.0.len(), |d: int| fitted_row(st.0[d], width, j))
    }

    /// The segments of one line of text: its rows fitted to the width, each
    /// cut along its resolved spans.
    pub open spec fn line_segments(&self, line: Seq<char>, width: int, j: JustifyMethod) -> Seq<(Seq<char>, Option<TextStyle>)> {
        let st = self.line_layout(line_text_for(line, j), width, j);
        let fr = self.line_rows(line, width, j);
        let fl: int = if fr.len() > 0 { fr[0].len() as int } else { 0 };
        self.rows_segments(fr, st.1, fl, fr.len())
    }

    /// The segments of row `d` of a line, before the line break that ends it.
    pub open spec fn row_pieces(&self, line: Seq<char>, width: int, j: JustifyMethod, d: int) -> Seq<
        (Seq<char>, Option<TextStyle>),
    > {
        let st = self.line_layout(line_text_for(line, j), width, j);
        let fr = self.line_rows(line, width, j);
        let fl: int = if fr.len() > 0 { fr[0].len() as int } else { 0 };
        row_segments(self.font_lines(), fr[d], closed_spans(st.1[d], fl), d)
    }

    /// The segments of the first `k` lines.
    pub open spec fn lines_segments(&self, lines: Seq<Seq<char>>, width: int, j: JustifyMethod, k: nat) -> Seq<
        (Seq<char>, Option<TextStyle>),
    >
        decreases k,
    {
        if k == 0 || k > lines.len() {
            Seq::empty()
        } else {
            self.lines_segments(lines, width, j, (k - 1) as nat) + self.line_segments(lines[k - 1], width, j)
        }
    }

    /// The segments the text renders to at `width` cells.
    pub open spec fn rendered(&self, width: int, j: JustifyMethod) -> Seq<(Seq<char>, Option<TextStyle>)> {
        let lines = lines_of(self.text_view());
        self.lines_segments(lines, width, j, lines.len())
    }

    /// Rendering ends: with full justification every line of several
    /// words can be filled.
    pub open spec fn justification_ends(&self, width: int, j: JustifyMethod) -> bool {
        j == JustifyMethod::Full ==> forall|i: int| 0 <= i < lines_of(self.text_view()).len()
            ==> self.justify_ends(width, #[trigger] line_text_for(lines_of(self.text_view())[i], j))
    }
}

/// A string of `n` spaces.
fn spaces_string(n: usize) -> (r: String)
    ensures
        r@ == spaces(n as nat),
{
    let mut v: Vec<char> = Vec::new();
    let mut i: usize = 0;
    while i < n
        invariant
            i <= n,
            v@ == spaces(i as nat),
        decreases n - i,
    {
        v.push(' ');
        i = i + 1;
        assert(v@ =~= spaces(i as nat));
    }
    string_from_chars(v.as_slice())
}

/// A row fitted to `width` cells.
fn fit_row(row: &String, width: usize, j: JustifyMethod) -> (r: String)
    ensures
        r@ == fitted_row(row@, width as int, j),
{
    let v = str_chars(row.as_str());
    let n = if v.len() <= width { v.len() } else { width };
    let mut t = crate::text::slice_to_vec(v.as_slice(), 0, n);
    assert(v@.subrange(0, n as int) =~= (if row@.len() <= width { row@ } else { row@.take(width as int) }));
    if j != JustifyMethod::Default && t.len() < width {
        let ghost t0 = t@;
        let mut k: usize = t.len();
        while k < width
            invariant
                t0.len() <= k <= width,
                t@ == t0 + spaces((k - t0.len()) as nat),
            decreases width - k,
        {
            t.push(' ');
            k = k + 1;
            assert(t@ =~= t0 + spaces((k - t0.len()) as nat));
        }
    }
    string_from_chars(t.as_slice())
}

fn copy_row_spans(v: &Vec<MutableSpan>) -> (r: Vec<MutableSpan>)
    ensures
        r@ == v@,
{
    let mut r: Vec<MutableSpan> = Vec::new();
    let mut i: usize = 0;
    while i < v.len()
        invariant
            i <= v@.len(),
            r@ == v@.take(i as int),
        decreases v@.len() - i,
    {
        r.push(v[i]);
        i = i + 1;
        assert(r@ =~= v@.take(i as int));
    }
    assert(v@.take(i as int) =~= v@);
    r
}

impl Typography {
    /// A text of `n` characters can be laid out at `width` cells: the
    /// font's rows are complete and its line height fits an `i32`, the
    /// ligature pattern is valid, and the longest a row could grow (the
    /// indent, then `step` cells for each of the up to `4 * n + 2 * width + 2`
    /// pieces a justified line is merged from) stays within `ROW_LIMIT`.
    pub open spec fn renderable(&self, n: int, width: int) -> bool {
        &&& self.font.rows_complete()
        &&& self.font.height() <= i32::MAX
        &&& self.ligatures_compile()
        &&& width + (4 * n + 2 * width + 2) * self.step() <= ROW_LIMIT
    }

    /// A shorter text of a renderable length is renderable too, and measurable.
    pub proof fn lemma_renderable_le(&self, n: int, m: int, width: int)
        requires
            self.renderable(n, width),
            0 <= m <= n,
            0 <= width,
        ensures
            self.renderable(m, width),
            self.measurable(m),
    {
        self.lemma_step_nonneg();
        assert((4 * m + 2 * width + 2) * self.step() <= (4 * n + 2 * width + 2) * self.step()) by (nonlinear_arith)
            requires 0 <= m <= n, 0 <= width, 0 <= self.step();
        assert((2 * m + 1) * self.step() <= (4 * m + 2 * width + 2) * self.step()) by (nonlinear_arith)
            requires 0 <= m, 0 <= width, 0 <= self.step();
    }

    /// Whether a text of `n` characters is `renderable` at `width` cells.
    pub fn is_renderable(&self, n: usize, width: usize) -> (r: bool)
        ensures
            r == self.renderable(n as int, width as int),
    {
        if !self.font.has_complete_rows() || self.font.line_height() > 2147483647 || !self.check_ligatures_compile() {
            return false;
        }
        let ls = self.font.letter_spacing();
        let a: u128 = if ls >= 0 { ls as u128 } else { (-(ls as i64)) as u128 };
        let b: u128 = if self.adjust_spacing >= 0 { self.adjust_spacing as u128 } else { (-(self.adjust_spacing as i64)) as u128 };
        let step: u128 = self.font.widest_row() as u128 + a + b;
        assert(step == self.step());
        if width > ROW_LIMIT {
            proof {
                assert((4 * n + 2 * width + 2) * self.step() >= 0) by (nonlinear_arith)
                    requires 0 <= n, 0 <= width, 0 <= self.step();
            }
            return false;
        }
        if step == 0 {
            assert((4 * n + 2 * width + 2) * self.step() == 0) by (nonlinear_arith)
                requires self.step() == 0;
            return true;
        }
        if n > ROW_LIMIT || step > ROW_LIMIT as u128 {
            proof {
                assert((4 * n + 2 * width + 2) * self.step() >= 4 * n + 2 * width + 2) by (nonlinear_arith)
                    requires 0 <= n, 0 <= width, 1 <= self.step();
                assert((4 * n + 2 * width + 2) * self.step() >= self.step()) by (nonlinear_arith)
                    requires 0 <= n, 0 <= width, 1 <= self.step();
            }
            return false;
        }
        let k: u128 = 4 * (n as u128) + 2 * (width as u128) + 2;
        assert(k * step <= (4 * 1073741824 + 2 * 1073741824 + 2) * 1073741824) by (nonlinear_arith)
            requires k <= 4 * 1073741824 + 2 * 1073741824 + 2, step <= 1073741824;
        width as u128 + k * step <= ROW_LIMIT as u128
    }

    /// The fragments and the indent a line is laid out with.
    fn line_prelude(&self, line: &Vec<char>, width: usize, j: JustifyMethod) -> (r: (Vec<(String, Option<TextStyle>)>, usize))
        requires
            self.renderable(line@.len() as int, width as int),
            j == JustifyMethod::Full ==> self.justify_ends(width as int, line_text_for(line@, j)),
        ensures
            frag_view(r.0@) == self.line_fragments(line_text_for(line@, j), width as int, j),
            r.1 as int == indent_for(width as int, self.text_width(line_text_for(line@, j)), j),
            r.1 <= width,
            r.0@.len() <= line@.len() + 1,
            text_before(frag_view(r.0@), r.0@.len() as int) <= line@.len() + width,
    {
        let trims = j == JustifyMethod::Right || j == JustifyMethod::Center || j == JustifyMethod::Full;
        let lt: Vec<char> = if trims { trim_end_chars(line.as_slice()) } else { crate::text::slice_to_vec(line.as_slice(), 0, line.len()) };
        assert(line@.subrange(0, line@.len() as int) =~= line@);
        let ghost lts = lt@;
        assert(lts == line_text_for(line@, j));
        proof {
            lemma_trim_end_len(line@);
        }
        let lt_str = string_from_chars(lt.as_slice());
        let frags0 = self.style_fragments(lt_str.as_str());
        proof {
            self.lemma_renderable_le(line@.len() as int, lts.len() as int, width as int);
        }
        let lw = self.rendered_width(lt_str.as_str());
        let dw: i64 = width as i64 - lw as i64;
        let nn: i64 = if dw > 0 { dw } else { 0 };
        let indent: usize = if j == JustifyMethod::Right {
            nn as usize
        } else if j == JustifyMethod::Center {
            (nn / 2) as usize
        } else {
            0
        };
        let ghost fv0 = self.fragments(lts);
        proof {
            self.lemma_fragments_total(lts);
            assert(frag_view(frags0@) =~= fv0);
        }
        assert(lt_str@ == lts);
        let ltn = lt.len();
        assert(ltn == lts.len());
        assert(text_before(frag_view(frags0@), frags0@.len() as int) <= lts.len());
        let frags = if j == JustifyMethod::Full {
            self.justify_full(width, lt_str.as_str(), frags0)
        } else {
            frags0
        };
        let ghost fv = self.line_fragments(lts, width as int, j);
        proof {
            assert(frag_view(frags@) =~= fv);
            if j == JustifyMethod::Full {
                self.lemma_justified_total(width as int, lts, fv0);
                lemma_trim_end_len(lts);
            }
        }
        (frags, indent)
    }

    /// The rows and spans of a line laid out from its fragments.
    fn layout_line(&self, frags: &Vec<(String, Option<TextStyle>)>, indent: usize) -> (r: (Glyph, Vec<Vec<MutableSpan>>))
        requires
            self.font.rows_complete(),
            self.font.height() <= i32::MAX,
            self.ligatures_compile(),
            indent + (2 * text_before(frag_view(frags@), frags@.len() as int) + 2 * frags@.len()) * self.step() <= ROW_LIMIT,
        ensures
            r.0.deep_view() == self.layout_upto(frag_view(frags@), frags@.len() as nat, self.initial_layout(indent as int)).0,
            span_rows_view(r.1@) == self.layout_upto(frag_view(frags@), frags@.len() as nat, self.initial_layout(indent as int)).1,
            r.0@.len() == self.font.height(),
            r.1@.len() == self.font.height(),
            forall|q: int| 0 <= q < r.1@.len() ==> spans_shaped(#[trigger] r.1@[q]@),
    {
        let ghost fv = frag_view(frags@);
        let h = self.font.line_height();
        let ind = spaces_string(indent);
        let mut rows: Glyph = Vec::new();
        let mut spans: Vec<Vec<MutableSpan>> = Vec::new();
        let mut d: usize = 0;
        while d < h
            invariant
                d <= h,
                ind@ == spaces(indent as nat),
                rows@.len() == d,
                spans@.len() == d,
                forall|q: int| 0 <= q < d ==> #[trigger] rows@[q]@ == spaces(indent as nat),
                forall|q: int| 0 <= q < d ==> #[trigger] spans@[q]@ == seq![mspan(0, indent as int, None)],
                forall|q: int| 0 <= q < d ==> spans_shaped(#[trigger] spans@[q]@),
            decreases h - d,
        {
            let row = string_of(ind.as_str());
            let ghost before = rows@;
            rows.push(row);
            let mut sp: Vec<MutableSpan> = Vec::new();
            sp.push(MutableSpan { start: 0, end: indent, style: None });
            assert(sp@ =~= seq![mspan(0, indent as int, None)]);
            spans.push(sp);
            proof {
                assert forall|q: int| 0 <= q < d + 1 implies #[trigger] rows@[q]@ == spaces(indent as nat) by {
                    if q < d {
                        assert(rows@[q] == before[q]);
                    }
                }
            }
            d = d + 1;
        }
        let ghost init = self.initial_layout(indent as int);
        let mut last_char = String::new();
        let mut last_style: Option<TextStyle> = None;
        proof {
            assert(rows.deep_view() =~= init.0);
            assert(span_rows_view(spans@) =~= init.1);
            assert(last_char@ =~= init.2);
        }
        let mut i: usize = 0;
        while i < frags.len()
            invariant
                self.font.rows_complete(),
                self.font.height() <= i32::MAX,
                self.ligatures_compile(),
                0 <= self.step(),
                fv == frag_view(frags@),
                indent + (2 * text_before(fv, fv.len() as int) + 2 * fv.len()) * self.step() <= ROW_LIMIT,
                rows@.len() == self.font.height(),
                spans@.len() == self.font.height(),
                i <= fv.len(),
                (rows.deep_view(), span_rows_view(spans@), last_char@, last_style) == self.layout_upto(fv, i as nat, init),
                rows_within(rows.deep_view(), indent + (2 * text_before(fv, i as int) + 2 * i) * self.step()),
                forall|q: int| 0 <= q < spans@.len() ==> spans_shaped(#[trigger] spans@[q]@),
            decreases fv.len() - i,
        {
            let ghost tb = text_before(fv, i as int);
            let ghost bound = indent + (2 * tb + 2 * i) * self.step();
            proof {
                lemma_text_before_mono(fv, i + 1, fv.len() as int);
                lemma_text_before_nonneg(fv, i as int);
                assert(text_before(fv, i + 1) == tb + fv[i as int].0.len());
                assert(frags@[i as int].0@ == fv[i as int].0);
                assert(bound + (2 * fv[i as int].0.len() + 2) * self.step() == indent + (2 * text_before(fv, i + 1) + 2 * (i + 1))
                    * self.step()) by (nonlinear_arith)
                    requires bound == indent + (2 * tb + 2 * i) * self.step(), text_before(fv, i + 1) == tb + fv[i as int].0.len();
                assert((2 * text_before(fv, i + 1) + 2 * (i + 1)) * self.step() <= (2 * text_before(fv, fv.len() as int) + 2 * fv.len()) * self.step()) by (nonlinear_arith)
                    requires text_before(fv, i + 1) <= text_before(fv, fv.len() as int), i + 1 <= fv.len(), 0 <= self.step(), 0 <= text_before(fv, i + 1);
                assert((2 * tb + 2 * i) * self.step() >= 0) by (nonlinear_arith)
                    requires tb >= 0, i >= 0, 0 <= self.step();
            }
            let (r0, r1, r2, r3) = self.render_fragment(rows, spans, last_char, last_style, &frags[i].0, frags[i].1, Ghost(bound));
            rows = r0;
            spans = r1;
            last_char = r2;
            last_style = r3;
            i = i + 1;
        }
        (rows, spans)
    }

    /// Emit the segments of laid-out rows, each fitted to `width` cells.
    fn emit_rows(&self, rows: &Glyph, spans: &Vec<Vec<MutableSpan>>, width: usize, j: JustifyMethod, out: &mut Vec<Segment>)
        requires
            rows@.len() == spans@.len(),
        ensures
            segments_view(final(out)@) == segments_view(old(out)@) + self.rows_segments(
                Seq::new(rows@.len(), |q: int| fitted_row(rows.deep_view()[q], width as int, j)),
                span_rows_view(spans@),
                (if rows@.len() > 0 { fitted_row(rows.deep_view()[0], width as int, j).len() as int } else { 0 }),
                rows@.len() as nat,
            ),
    {
        let ghost base = segments_view(out@);
        let h = rows.len();
        let ghost fr = Seq::new(rows@.len(), |q: int| fitted_row(rows.deep_view()[q], width as int, j));
        let ghost sv = span_rows_view(spans@);
        let mut fitted: Vec<String> = Vec::new();
        let mut d: usize = 0;
        while d < h
            invariant
                h == rows@.len(),
                fr == Seq::new(rows@.len(), |q: int| fitted_row(rows.deep_view()[q], width as int, j)),
                d <= h,
                fitted@.len() == d,
                forall|q: int| 0 <= q < d ==> #[trigger] fitted@[q]@ == fr[q],
            decreases h - d,
        {
            assert(rows.deep_view()[d as int] == rows@[d as int]@);
            fitted.push(fit_row(&rows[d], width, j));
            d = d + 1;
        }
        let fl: usize = if h > 0 { str_chars(fitted[0].as_str()).len() } else { 0 };
        let ghost fli: int = if h > 0 { fr[0].len() as int } else { 0 };
        assert(fl == fli);
        let mut d: usize = 0;
        while d < h
            invariant
                h == rows@.len(),
                h == spans@.len(),
                sv == span_rows_view(spans@),
                fr.len() == h,
                fitted@.len() == h,
                forall|q: int| 0 <= q < h ==> #[trigger] fitted@[q]@ == fr[q],
                fl == fli,
                d <= h,
                segments_view(out@) == base + self.rows_segments(fr, sv, fli, d as nat),
            decreases h - d,
        {
            let mut sd = copy_row_spans(&spans[d]);
            let n = sd.len();
            let last_end = if n > 0 { sd[n - 1].end } else { 0 };
            sd.push(MutableSpan { start: last_end, end: fl, style: None });
            proof {
                assert(sv[d as int] == spans@[d as int]@);
                assert(sd@ == sv[d as int].push(mspan((if sv[d as int].len() > 0 { sv[d as int].last().end as int } else { 0 }), fli, None)));
            }
            let res = MutableSpan::resolve(sd);
            proof {
                lemma_resolved_ordered(sd@);
            }
            self.emit_row(&fitted[d], &res, d, out);
            let ghost mid = out@;
            let nl = string_of("\n");
            proof {
                reveal_strlit("\n");
                assert(nl@ =~= seq!['\n']);
            }
            out.push(Segment { text: nl, style: None });
            proof {
                assert(segments_view(out@) =~= segments_view(mid).push(newline_segment()));
                assert(res@ == closed_spans(sv[d as int], fli));
            }
            d = d + 1;
        }
    }

    /// With any justification but the default, every row of a line whose
    /// spans are shaped as layout keeps them holds exactly `width`
    /// characters in its segments.
    proof fn lemma_rows_fill(&self, line: Seq<char>, width: usize, j: JustifyMethod)
        requires
            j != JustifyMethod::Default,
            self.line_layout(line_text_for(line, j), width as int, j).1.len() >= self.line_layout(
                line_text_for(line, j),
                width as int,
                j,
            ).0.len(),
            forall|q: int| 0 <= q < self.line_layout(line_text_for(line, j), width as int, j).1.len()
                ==> spans_shaped(#[trigger] self.line_layout(line_text_for(line, j), width as int, j).1[q]),
        ensures
            forall|d: int| 0 <= d < self.line_rows(line, width as int, j).len()
                ==> texts_len(#[trigger] self.row_pieces(line, width as int, j, d)) == width,
    {
        let st = self.line_layout(line_text_for(line, j), width as int, j);
        let fr = self.line_rows(line, width as int, j);
        assert forall|d: int| 0 <= d < fr.len() implies (#[trigger] fr[d]).len() == width by {
            let row = st.0[d];
            let t = if row.len() <= width { row } else { row.take(width as int) };
            assert(fr[d] == fitted_row(row, width as int, j));
            if t.len() < width {
                assert(fr[d] == t + spaces((width - t.len()) as nat));
            }
        }
        assert forall|d: int| 0 <= d < fr.len() implies texts_len(#[trigger] self.row_pieces(line, width as int, j, d)) == width by {
            let sp = st.1[d];
            assert(spans_shaped(sp));
            assert(fr[0].len() == width);
            let closing = MutableSpan { start: sp.last().end, end: width, style: None };
            assert(mspan(sp.last().end as int, width as int, None) == closing);
            assert(closed_spans(sp, width as int) == resolved(sp.push(closing)));
            crate::styling::lemma_resolved_cover(sp, width);
            lemma_row_segments_cover(self.font_lines(), fr[d], resolved(sp.push(closing)), d);
        }
    }

    /// Render one line of text to segments.
    fn render_text_line(&self, line: &Vec<char>, width: usize, j: JustifyMethod, out: &mut Vec<Segment>)
        requires
            self.renderable(line@.len() as int, width as int),
            j == JustifyMethod::Full ==> self.justify_ends(width as int, line_text_for(line@, j)),
        ensures
            segments_view(final(out)@) == segments_view(old(out)@) + self.line_segments(line@, width as int, j),
            j != JustifyMethod::Default ==> forall|d: int| 0 <= d < self.line_rows(line@, width as int, j).len()
                ==> texts_len(#[trigger] self.row_pieces(line@, width as int, j, d)) == width,
    {
        let (frags, indent) = self.line_prelude(line, width, j);
        proof {
            let tb = text_before(frag_view(frags@), frags@.len() as int);
            let n = line@.len() as int;
            lemma_text_before_nonneg(frag_view(frags@), frags@.len() as int);
            self.lemma_step_nonneg();
            assert((2 * tb + 2 * frags@.len()) * self.step() <= (4 * n + 2 * width + 2) * self.step()) by (nonlinear_arith)
                requires 0 <= tb <= n + width, frags@.len() <= n + 1, 0 <= self.step();
        }
        let (rows, spans) = self.layout_line(&frags, indent);
        proof {
            let fv = frag_view(frags@);
            assert(fv.len() == frags@.len());
        }
        self.emit_rows(&rows, &spans, width, j, out);
        proof {
            let st = self.line_layout(line_text_for(line@, j), width as int, j);
            assert(st.0 == rows.deep_view());
            assert(Seq::new(rows@.len(), |q: int| fitted_row(rows.deep_view()[q], width as int, j))
                =~= Seq::new(st.0.len(), |d: int| fitted_row(st.0[d], width as int, j)));
            if j != JustifyMethod::Default {
                assert(st.1 == span_rows_view(spans@));
                assert forall|q: int| 0 <= q < st.1.len() implies spans_shaped(#[trigger] st.1[q]) by {
                    assert(st.1[q] == spans@[q]@);
                }
                self.lemma_rows_fill(line@, width, j);
            }
        }
    }
}

impl Typography {
    /// Whether justification of `line` to `width` cells ends.
    fn check_justify_ends(&self, width: usize, line: &Vec<char>) -> (r: bool)
        requires
            self.measurable(line@.len() as int),
        ensures
            r == self.justify_ends(width as int, line@),
    {
        let lv = trim_end_chars(line.as_slice());
        proof {
            lemma_trim_end_len(line@);
        }
        let words = split_chars_on(lv.as_slice(), ' ');
        let ghost ws = split_on(lv@, ' ');
        if words.len() <= 1 || self.font.space_width() > 0 {
            return true;
        }
        proof {
            crate::text::lemma_split_on_total(lv@, ' ');
            crate::text::lemma_total_len_nonneg(ws);
        }
        let ghost big = (2 * line@.len() + 1) * self.step();
        proof {
            self.lemma_step_nonneg();
        }
        let mut wsum: u128 = 0;
        let mut k: usize = 0;
        while k < words.len()
            invariant
                self.measurable(line@.len() as int),
                big == (2 * line@.len() + 1) * self.step(),
                big <= i32::MAX,
                words@.len() == ws.len(),
                forall|q: int| 0 <= q < words@.len() ==> #[trigger] words@[q]@ == ws[q],
                total_len_ok(ws, lv@.len() as int),
                lv@.len() <= line@.len(),
                k <= ws.len(),
                wsum == self.words_width(ws.take(k as int)),
                wsum <= k * big,
            decreases ws.len() - k,
        {
            proof {
                crate::text::lemma_total_len_elem(ws, k as int);
                assert(ws.take(k + 1).drop_last() =~= ws.take(k as int));
                assert(ws.take(k + 1).last() == ws[k as int]);
            }
            let wstr = string_from_chars(words[k].as_slice());
            proof {
                self.lemma_measurable_le(line@.len() as int, ws[k as int].len() as int);
                self.lemma_measurable_step(line@.len() as int, 2 * ws[k as int].len() as int + 1);
                assert(wsum <= 18446744073709551615 * 2147483647) by (nonlinear_arith)
                    requires wsum <= k * big, k <= 18446744073709551615, 0 <= big <= 2147483647;
            }
            let ww = self.rendered_width(wstr.as_str());
            wsum = wsum + ww as u128;
            assert(k * big + big == (k + 1) * big) by (nonlinear_arith);
            k = k + 1;
        }
        assert(ws.take(k as int) =~= ws);
        wsum >= width as u128
    }

    /// Render the text, line by line, to segments: each line gives as many
    /// rows as the font is high, each row ended by a line break. With any
    /// justification but the default, every row fills the width exactly.
    #[verifier::rlimit(30)]
    pub fn render_line(&self, width: usize, justify: JustifyMethod) -> (r: Vec<Segment>)
        requires
            self.renderable(self.text_view().len() as int, width as int),
            self.justification_ends(width as int, justify),
        ensures
            segments_view(r@) == self.rendered(width as int, justify),
            justify != JustifyMethod::Default ==> forall|k: int, d: int|
                0 <= k < lines_of(self.text_view()).len() && 0 <= d < self.line_rows(
                    lines_of(self.text_view())[k],
                    width as int,
                    justify,
                ).len() ==> texts_len(#[trigger] self.row_pieces(lines_of(self.text_view())[k], width as int, justify, d))
                    == width,
    {
        let v = str_chars(self.plain());
        let lines = split_lines(v.as_slice());
        let ghost ls = lines_of(self.text_view());
        proof {
            crate::text::lemma_lines_of_len(self.text_view());
        }
        let mut out: Vec<Segment> = Vec::new();
        let mut k: usize = 0;
        while k < lines.len()
            invariant
                self.renderable(self.text_view().len() as int, width as int),
                self.justification_ends(width as int, justify),
                ls == lines_of(self.text_view()),
                lines@.len() == ls.len(),
                forall|q: int| 0 <= q < lines@.len() ==> #[trigger] lines@[q]@ == ls[q],
                forall|q: int| 0 <= q < ls.len() ==> (#[trigger] ls[q]).len() <= self.text_view().len(),
                k <= ls.len(),
                segments_view(out@) == self.lines_segments(ls, width as int, justify, k as nat),
                justify != JustifyMethod::Default ==> forall|q: int, d: int|
                    0 <= q < k && 0 <= d < self.line_rows(ls[q], width as int, justify).len()
                        ==> texts_len(#[trigger] self.row_pieces(ls[q], width as int, justify, d)) == width,
            decreases ls.len() - k,
        {
            assert(lines@[k as int]@ == ls[k as int]);
            assert(ls[k as int].len() <= self.text_view().len());
            proof {
                self.lemma_renderable_le(self.text_view().len() as int, ls[k as int].len() as int, width as int);
                if justify == JustifyMethod::Full {
                    assert(self.justify_ends(width as int, line_text_for(ls[k as int], justify)));
                }
            }
            self.render_text_line(&lines[k], width, justify, &mut out);
            k = k + 1;
        }
        out
    }

    /// Whether `render_line` accepts these arguments.
    fn check_render(&self, width: usize, justify: JustifyMethod) -> (r: bool)
        ensures
            r == (self.renderable(self.text_view().len() as int, width as int)
                && self.justification_ends(width as int, justify)),
    {
        let v = str_chars(self.plain());
        if !self.is_renderable(v.len(), width) {
            return false;
        }
        if justify != JustifyMethod::Full {
            return true;
        }
        let lines = split_lines(v.as_slice());
        let ghost ls = lines_of(self.text_view());
        proof {
            crate::text::lemma_lines_of_len(self.text_view());
        }
        let mut k: usize = 0;
        while k < lines.len()
            invariant
                self.renderable(self.text_view().len() as int, width as int),
                justify == JustifyMethod::Full,
                ls == lines_of(self.text_view()),
                lines@.len() == ls.len(),
                forall|q: int| 0 <= q < lines@.len() ==> #[trigger] lines@[q]@ == ls[q],
                forall|q: int| 0 <= q < ls.len() ==> (#[trigger] ls[q]).len() <= self.text_view().len(),
                k <= ls.len(),
                forall|q: int| 0 <= q < k ==> self.justify_ends(width as int, #[trigger] line_text_for(ls[q], justify)),
            decreases ls.len() - k,
        {
            let lt = trim_end_chars(lines[k].as_slice());
            proof {
                assert(lines@[k as int]@ == ls[k as int]);
                lemma_trim_end_len(ls[k as int]);
                self.lemma_renderable_le(self.text_view().len() as int, lt@.len() as int, width as int);
            }
            if !self.check_justify_ends(width, &lt) {
                assert(!self.justify_ends(width as int, line_text_for(ls[k as int], justify)));
                return false;
            }
            k = k + 1;
        }
        true
    }

    /// `render_line`, or `None` when the text is not `renderable` at
    /// `width` cells or full justification cannot fill a line.
    pub fn try_render_line(&self, width: usize, justify: JustifyMethod) -> (r: Option<Vec<Segment>>)
        ensures
            r is Some <==> (self.renderable(self.text_view().len() as int, width as int)
                && self.justification_ends(width as int, justify)),
            r matches Some(v) ==> segments_view(v@) == self.rendered(width as int, justify),
    {
        if self.check_render(width, justify) {
            Some(self.render_line(width, justify))
        } else {
            None
        }
    }
}

/// The pieces of a split of a text no longer than `n` hold at most `n` characters.
pub open spec fn total_len_ok(ws: Seq<Seq<char>>, n: int) -> bool {
    crate::text::total_len(ws) + ws.len() - 1 == n && crate::text::total_len(ws) >= 0
}

} // verus!
