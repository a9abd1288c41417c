use vstd::prelude::*;

use std::sync::Arc;

use crate::chars::{str_chars, string_of};
use crate::fit::{WrapSettings, offsets_view};
use crate::laws::{law_strip_controls, law_strip_controls_keeps_clean};
use crate::richtext::{
    divide_rich, expand_tabs_rich, rich_divided, rich_lines, rich_tabs_expanded, split_lines_rich, styled_view, styled_views,
};
use crate::style::{OverflowMethod, Span, TextStyle, null_style};
use crate::typography::{StyledText, Typography, clipped_spans, copy_spans, strip_controls};

verus! {

/// A styled text's plain text, base style and spans.
pub type TextParts = (Seq<char>, Option<TextStyle>, Seq<Span>);

/// A line with its tabs expanded when it holds any.
pub open spec fn tabs_expanded(l: TextParts, st: WrapSettings) -> TextParts {
    if l.0.contains('\t') { rich_tabs_expanded(l, st.tab_size) } else { l }
}

/// Offsets as machine integers.
pub open spec fn usize_offsets(d: Seq<int>) -> Seq<usize> {
    Seq::new(d.len(), |i: int| d[i] as usize)
}

/// The overflow method a wrapped line is truncated with.
pub open spec fn line_overflow(overflow: Option<OverflowMethod>) -> OverflowMethod {
    match overflow {
        Some(m) => m,
        None => OverflowMethod::Fold,
    }
}

/// The overflow method a wrapped line is truncated with.
fn line_overflow_of(overflow: Option<OverflowMethod>) -> (r: OverflowMethod)
    ensures
        r == line_overflow(overflow),
{
    match overflow {
        Some(m) => m,
        None => OverflowMethod::Fold,
    }
}

impl Typography {
    /// The typography as a styled text.
    pub open spec fn full_view(&self) -> TextParts {
        (self.text_view(), Some(self.base_style()), self.span_view())
    }

    /// The pieces a line of the text breaks into when wrapped to `width`
    /// cells: its tabs expanded, then, unless lines stay whole, the line
    /// divided at the offsets of `division`.
    pub open spec fn line_pieces(&self, l: TextParts, width: int, st: WrapSettings) -> Seq<TextParts> {
        let l2 = tabs_expanded(l, st);
        if st.no_wrap {
            seq![l2]
        } else {
            rich_divided(l2, usize_offsets(self.division(l2.0, width, st.overflow == OverflowMethod::Fold)))
        }
    }

    /// The pieces of the first `k` lines.
    pub open spec fn pieces_of_lines(&self, lines: Seq<TextParts>, k: nat, width: int, st: WrapSettings) -> Seq<TextParts>
        decreases k,
    {
        if k == 0 || k > lines.len() {
            Seq::empty()
        } else {
            self.pieces_of_lines(lines, (k - 1) as nat, width, st) + self.line_pieces(lines[k - 1], width, st)
        }
    }

    /// The pieces `wrap` makes its lines of: the text's lines, each broken
    /// into pieces.
    pub open spec fn wrap_pieces(
        &self,
        width: int,
        overflow: Option<OverflowMethod>,
        tab_size: Option<usize>,
        no_wrap: Option<bool>,
    ) -> Seq<TextParts> {
        let st = self.wrap_settings_of(overflow, tab_size, no_wrap);
        let lines = rich_lines(self.full_view());
        self.pieces_of_lines(lines, lines.len(), width, st)
    }

    /// A line can be measured: its expanded text when it is divided (whose
    /// end offset must fit a `usize`), the text of each of its pieces, and
    /// the ellipsis a piece may be truncated with.
    pub open spec fn line_measurable(&self, l: TextParts, width: int, st: WrapSettings) -> bool {
        &&& !st.no_wrap ==> self.measurable(tabs_expanded(l, st).0.len() as int) && tabs_expanded(l, st).0.len() < usize::MAX
        &&& forall|i: int| 0 <= i < self.line_pieces(l, width, st).len()
            ==> self.measurable(strip_controls(#[trigger] self.line_pieces(l, width, st)[i].0).len() as int)
    }

    /// Every line of the text can be measured.
    pub open spec fn wrap_measurable(
        &self,
        width: int,
        overflow: Option<OverflowMethod>,
        tab_size: Option<usize>,
        no_wrap: Option<bool>,
    ) -> bool {
        let st = self.wrap_settings_of(overflow, tab_size, no_wrap);
        let lines = rich_lines(self.full_view());
        &&& self.ellipsis_measurable(line_overflow(overflow))
        &&& forall|k: int| 0 <= k < lines.len() ==> self.line_measurable(#[trigger] lines[k], width, st)
    }

    /// The text a line keeps once truncated to `w` cells with overflow `m`:
    /// all of it when it fits or overflow is ignored, else a prefix that
    /// leaves room for the ellipsis followed by it, or a prefix that fits.
    pub open spec fn fitted_text(&self, s: Seq<char>, w: int, m: OverflowMethod) -> Seq<char> {
        if m == OverflowMethod::Ignore || self.text_width(s) <= w {
            s
        } else if m == OverflowMethod::Ellipsis {
            let e = self.ellipsis_text();
            let ew = self.text_width(e);
            self.shrunk(s, if w >= ew { w - ew } else { 0 }) + e
        } else {
            self.shrunk(s, w)
        }
    }

    /// `t` is the wrapped line made of piece `v`: a typography of the piece
    /// with this typography's font and measures and no settings of its own,
    /// its text truncated to `width` cells, and the piece's spans, clipped
    /// to the text when truncation shortened it.
    pub open spec fn wrapped_line(&self, t: Typography, v: TextParts, width: int, overflow: Option<OverflowMethod>) -> bool {
        &&& t.font == self.font
        &&& t.adjust_spacing == self.adjust_spacing
        &&& t.use_kerning == self.use_kerning
        &&& t.use_ligatures == self.use_ligatures
        &&& t.style_ligatures == self.style_ligatures
        &&& t.justify is None
        &&& t.overflow is None
        &&& t.no_wrap is None
        &&& t.tab_size is None
        &&& t.base_style() == v.1.unwrap_or(null_style())
        &&& t.text_view() == strip_controls(self.fitted_text(strip_controls(v.0), width, line_overflow(overflow)))
        &&& t.span_view() == (if strip_controls(v.0).len() > t.text_view().len() {
            clipped_spans(v.2, t.text_view().len())
        } else {
            v.2
        })
    }

    /// `r` are the lines `wrap` makes.
    pub open spec fn wrapped_lines(
        &self,
        r: Seq<Typography>,
        width: int,
        overflow: Option<OverflowMethod>,
        tab_size: Option<usize>,
        no_wrap: Option<bool>,
    ) -> bool {
        let p = self.wrap_pieces(width, overflow, tab_size, no_wrap);
        &&& r.len() == p.len()
        &&& forall|i: int| 0 <= i < r.len() ==> self.wrapped_line(#[trigger] r[i], p[i], width, overflow)
    }

    proof fn lemma_same_keys_width(&self, other: &Typography, keys: Seq<Seq<char>>)
        requires
            self.font == other.font,
            self.use_kerning == other.use_kerning,
            self.adjust_spacing == other.adjust_spacing,
        ensures
            self.keys_width(keys) == other.keys_width(keys),
        decreases keys.len(),
    {
        if keys.len() > 1 {
            self.lemma_same_keys_width(other, keys.drop_last());
        }
    }

    /// Two typographies with the same font and measures measure texts alike.
    pub proof fn lemma_same_measure(&self, other: &Typography, s: Seq<char>, w: int)
        requires
            self.font == other.font,
            self.use_kerning == other.use_kerning,
            self.use_ligatures == other.use_ligatures,
            self.adjust_spacing == other.adjust_spacing,
        ensures
            self.text_width(s) == other.text_width(s),
            self.shrunk(s, w) == other.shrunk(s, w),
            self.ellipsis_text() == other.ellipsis_text(),
        decreases s.len(),
    {
        if s.len() > 0 {
            self.lemma_same_keys_width(other, crate::measure::piece_keys(self.glyph_pieces(s)));
            self.lemma_same_measure(other, s.drop_last(), w);
        }
    }

    /// A fitted text that fits: cropping or folding leaves a text without
    /// control codes that renders within the width, or nothing.
    proof fn lemma_fitted_fits(&self, s: Seq<char>, w: int, m: OverflowMethod)
        requires
            forall|i: int| 0 <= i < s.len() ==> !crate::typography::is_control_code(#[trigger] s[i]),
            m == OverflowMethod::Fold || m == OverflowMethod::Crop,
        ensures
            strip_controls(self.fitted_text(s, w, m)) == self.fitted_text(s, w, m),
            self.fitted_text(s, w, m).len() == 0 || self.text_width(self.fitted_text(s, w, m)) <= w,
    {
        let f = self.fitted_text(s, w, m);
        if !(self.text_width(s) <= w) {
            self.lemma_shrunk_prefix(s, w);
            self.law_shrunk_fits(s, w);
            assert forall|i: int| 0 <= i < f.len() implies !crate::typography::is_control_code(#[trigger] f[i]) by {
                assert(f[i] == s[i]);
            }
        }
        law_strip_controls_keeps_clean(f);
    }

    /// One piece made a typography and truncated to `width` cells.
    fn wrap_piece(&self, p: &StyledText, width: usize, overflow: Option<OverflowMethod>) -> (r: Option<Typography>)
        ensures
            r is Some <==> self.measurable(strip_controls(p.plain@).len() as int)
                && self.ellipsis_measurable(line_overflow(overflow)),
            r matches Some(t) ==> self.wrapped_line(t, styled_view(*p), width as int, overflow),
    {
        let mut lt = Typography::from_text(
            p,
            Arc::clone(&self.font),
            self.adjust_spacing,
            self.use_kerning,
            self.use_ligatures,
            self.style_ligatures,
        );
        let ghost before = lt;
        let ghost s = lt.text_view();
        proof {
            let ew = self.text_width(self.ellipsis_text());
            self.lemma_same_measure(&before, s, width as int);
            self.lemma_same_measure(&before, s, if width >= ew { width - ew } else { 0 });
            self.lemma_same_measure(&before, self.ellipsis_text(), 0);
            law_strip_controls(p.plain@);
        }
        if lt.try_truncate(width, overflow) {
            Some(lt)
        } else {
            None
        }
    }

    /// The pieces of a line whose tabs are expanded.
    fn line_divided(&self, l2: &StyledText, width: usize, st: WrapSettings) -> (r: Option<Vec<StyledText>>)
        requires
            width <= i32::MAX,
        ensures
            r is Some <==> (st.no_wrap || (self.measurable(l2.plain@.len() as int) && l2.plain@.len() < usize::MAX)),
            r matches Some(v) ==> styled_views(v@) == (if st.no_wrap {
                seq![styled_view(*l2)]
            } else {
                rich_divided(styled_view(*l2), usize_offsets(self.division(l2.plain@, width as int, st.overflow == OverflowMethod::Fold)))
            }),
    {
        if st.no_wrap {
            let c = StyledText { plain: string_of(l2.plain.as_str()), style: l2.style, spans: copy_spans(&l2.spans) };
            let v = vec![c];
            assert(styled_views(v@) =~= seq![styled_view(*l2)]);
            return Some(v);
        }
        match self.try_divide_offsets(l2.plain.as_str(), width, st.overflow == OverflowMethod::Fold) {
            Some(offsets) => {
                let ghost d = self.division(l2.plain@, width as int, st.overflow == OverflowMethod::Fold);
                assert(offsets@ =~= usize_offsets(d)) by {
                    assert(offsets_view(offsets@) == d);
                    assert forall|i: int| 0 <= i < offsets@.len() implies offsets@[i] == usize_offsets(d)[i] by {
                        assert(offsets_view(offsets@)[i] == offsets@[i] as int);
                    }
                }
                Some(divide_rich(l2, &offsets))
            },
            None => None,
        }
    }

    /// Wrap one line of the text, appending its wrapped lines to `out`;
    /// `false` when the line cannot be measured.
    fn wrap_line(
        &self,
        line: &StyledText,
        width: usize,
        overflow: Option<OverflowMethod>,
        st: WrapSettings,
        out: &mut Vec<Typography>,
    ) -> (ok: bool)
        requires
            width <= i32::MAX,
            self.ellipsis_measurable(line_overflow(overflow)),
        ensures
            ok <==> self.line_measurable(styled_view(*line), width as int, st),
            ok ==> final(out)@ =~= old(out)@ + final(out)@.skip(old(out)@.len() as int),
            ok ==> final(out)@.len() == old(out)@.len() + self.line_pieces(styled_view(*line), width as int, st).len(),
            ok ==> forall|i: int| 0 <= i < self.line_pieces(styled_view(*line), width as int, st).len() ==> self.wrapped_line(
                #[trigger] final(out)@[old(out)@.len() + i],
                self.line_pieces(styled_view(*line), width as int, st)[i],
                width as int,
                overflow,
            ),
    {
        let ghost lv = styled_view(*line);
        let ghost pv = self.line_pieces(lv, width as int, st);
        let tab = has_tab(line.plain.as_str());
        let pieces = if tab {
            let l2 = expand_tabs_rich(line, st.tab_size);
            self.line_divided(&l2, width, st)
        } else {
            self.line_divided(line, width, st)
        };
        let pieces = match pieces {
            Some(v) => v,
            None => {
                return false;
            },
        };
        assert(styled_views(pieces@) == pv);
        let ghost base = out@;
        let mut i: usize = 0;
        while i < pieces.len()
            invariant
                styled_views(pieces@) == pv,
                self.ellipsis_measurable(line_overflow(overflow)),
                pv == self.line_pieces(lv, width as int, st),
                lv == styled_view(*line),
                i <= pieces@.len(),
                out@.len() == base.len() + i,
                forall|q: int| 0 <= q < base.len() ==> out@[q] == base[q],
                forall|q: int| 0 <= q < i ==> self.measurable(strip_controls(#[trigger] pv[q].0).len() as int),
                forall|q: int| 0 <= q < i ==> self.wrapped_line(#[trigger] out@[base.len() + q], pv[q], width as int, overflow),
            decreases pieces@.len() - i,
        {
            assert(styled_view(pieces@[i as int]) == pv[i as int]);
            match self.wrap_piece(&pieces[i], width, overflow) {
                Some(t) => {
                    out.push(t);
                },
                None => {
                    proof {
                        assert(!self.measurable(strip_controls(pv[i as int].0).len() as int));
                        if self.line_measurable(lv, width as int, st) {
                            assert(self.measurable(strip_controls(self.line_pieces(lv, width as int, st)[i as int].0).len() as int));
                        }
                    }
                    return false;
                },
            }
            i = i + 1;
        }
        proof {
            assert(out@ =~= base + out@.skip(base.len() as int));
            assert forall|q: int| 0 <= q < pv.len() implies self.measurable(strip_controls(#[trigger] pv[q].0).len() as int) by {}
        }
        true
    }

    fn wrap_parts(
        &self,
        width: usize,
        overflow: Option<OverflowMethod>,
        tab_size: Option<usize>,
        no_wrap: Option<bool>,
    ) -> (r: Option<Vec<Typography>>)
        ensures
            r is Some <==> (width <= i32::MAX && self.wrap_measurable(width as int, overflow, tab_size, no_wrap)),
            r matches Some(v) ==> self.wrapped_lines(v@, width as int, overflow, tab_size, no_wrap),
    {
        if width > 2147483647 || !self.check_ellipsis(line_overflow_of(overflow)) {
            return None;
        }
        let st = self.wrap_settings(overflow, tab_size, no_wrap);
        let t = self.to_text();
        let lines = split_lines_rich(&t);
        let ghost lv = styled_views(lines@);
        let ghost w = width as int;
        let mut out: Vec<Typography> = Vec::new();
        let mut k: usize = 0;
        while k < lines.len()
            invariant
                width <= i32::MAX,
                self.ellipsis_measurable(line_overflow(overflow)),
                w == width,
                st == self.wrap_settings_of(overflow, tab_size, no_wrap),
                lv == styled_views(lines@),
                lv == rich_lines(self.full_view()),
                k <= lines@.len(),
                forall|q: int| 0 <= q < k ==> self.line_measurable(#[trigger] lv[q], w, st),
                out@.len() == self.pieces_of_lines(lv, k as nat, w, st).len(),
                forall|i: int| 0 <= i < out@.len() ==> self.wrapped_line(
                    #[trigger] out@[i],
                    self.pieces_of_lines(lv, k as nat, w, st)[i],
                    w,
                    overflow,
                ),
            decreases lines@.len() - k,
        {
            let ghost before = out@;
            let ghost prev = self.pieces_of_lines(lv, k as nat, w, st);
            assert(styled_view(lines@[k as int]) == lv[k as int]);
            if !self.wrap_line(&lines[k], width, overflow, st, &mut out) {
                return None;
            }
            proof {
                let next = self.pieces_of_lines(lv, (k + 1) as nat, w, st);
                let lp = self.line_pieces(lv[k as int], w, st);
                assert(next == prev + lp);
                assert forall|i: int| 0 <= i < out@.len() implies self.wrapped_line(#[trigger] out@[i], next[i], w, overflow) by {
                    if i < before.len() {
                        assert(out@ == before + out@.skip(before.len() as int));
                        assert(out@[i] == before[i]);
                        assert(next[i] == prev[i]);
                    } else {
                        let j = i - before.len();
                        assert(next[i] == lp[j]);
                        assert(self.wrapped_line(out@[before.len() + j], lp[j], w, overflow));
                    }
                }
            }
            k = k + 1;
        }
        Some(out)
    }

    /// Word-wrap this typography into one typography per line: the text is
    /// cut at its line breaks, each line's tabs are expanded and, unless
    /// lines stay whole, the line is divided where words end or fold; each
    /// piece becomes a typography with this font and these measures,
    /// truncated to `width` cells. Cropped or folded lines then render
    /// within the width, or are empty.
    pub fn wrap(
        &self,
        width: usize,
        overflow: Option<OverflowMethod>,
        tab_size: Option<usize>,
        no_wrap: Option<bool>,
    ) -> (r: Vec<Typography>)
        requires
            width <= i32::MAX,
            self.wrap_measurable(width as int, overflow, tab_size, no_wrap),
        ensures
            self.wrapped_lines(r@, width as int, overflow, tab_size, no_wrap),
            overflow is None || overflow == Some(OverflowMethod::Fold) || overflow == Some(OverflowMethod::Crop)
                ==> forall|i: int| 0 <= i < r@.len() ==> (#[trigger] r@[i]).text_view().len() == 0
                    || r@[i].text_width(r@[i].text_view()) <= width,
    {
        match self.wrap_parts(width, overflow, tab_size, no_wrap) {
            Some(v) => {
                proof {
                    let p = self.wrap_pieces(width as int, overflow, tab_size, no_wrap);
                    if overflow is None || overflow == Some(OverflowMethod::Fold) || overflow == Some(OverflowMethod::Crop) {
                        assert forall|i: int| 0 <= i < v@.len() implies (#[trigger] v@[i]).text_view().len() == 0
                            || v@[i].text_width(v@[i].text_view()) <= width by {
                            assert(self.wrapped_line(v@[i], p[i], width as int, overflow));
                            let s = strip_controls(p[i].0);
                            law_strip_controls(p[i].0);
                            self.lemma_fitted_fits(s, width as int, line_overflow(overflow));
                            let f = self.fitted_text(s, width as int, line_overflow(overflow));
                            self.lemma_same_measure(&v@[i], f, 0);
                        }
                    }
                }
                v
            },
            None => Vec::new(),
        }
    }

    /// `wrap`, or `None` when the width is more than `i32::MAX` or a line
    /// cannot be measured.
    pub fn try_wrap(
        &self,
        width: usize,
        overflow: Option<OverflowMethod>,
        tab_size: Option<usize>,
        no_wrap: Option<bool>,
    ) -> (r: Option<Vec<Typography>>)
        ensures
            r is Some <==> (width <= i32::MAX && self.wrap_measurable(width as int, overflow, tab_size, no_wrap)),
            r matches Some(v) ==> self.wrapped_lines(v@, width as int, overflow, tab_size, no_wrap),
    {
        if self.wrap_parts(width, overflow, tab_size, no_wrap).is_some() {
            Some(self.wrap(width, overflow, tab_size, no_wrap))
        } else {
            None
        }
    }
}

/// Whether a text holds a tab.
fn has_tab(s: &str) -> (r: bool)
    ensures
        r == s@.contains('\t'),
{
    let v = str_chars(s);
    let mut i: usize = 0;
    while i < v.len()
        invariant
            v@ == s@,
            i <= v@.len(),
            forall|q: int| 0 <= q < i ==> v@[q] != '\t',
        decreases v@.len() - i,
    {
        if v[i] == '\t' {
            assert(v@[i as int] == '\t');
            return true;
        }
        i = i + 1;
    }
    false
}

} // verus!
