use vstd::prelude::*;

use crate::chars::{str_chars, str_eq, string_from_chars};
use crate::line::LineType;
use crate::style::{Span, TextStyle, combined, null_style};
use crate::typography::{LigatureStyleMethod, Typography};

verus! {

/// Styles combined left to right, later ones winning, from the null style.
pub open spec fn combine_seq(ss: Seq<TextStyle>) -> TextStyle
    decreases ss.len(),
{
    if ss.len() == 0 {
        null_style()
    } else {
        combined(combine_seq(ss.drop_last()), ss.last())
    }
}

/// Styles combined left to right, or `None` when there are none.
pub open spec fn combine_opt(ss: Seq<TextStyle>) -> Option<TextStyle> {
    if ss.len() == 0 { None } else { Some(combine_seq(ss)) }
}

/// Combine styles left-to-right (later = higher priority); `None` for no styles.
pub fn combine_styles(styles: &Vec<TextStyle>) -> (r: Option<TextStyle>)
    ensures
        r == combine_opt(styles@),
{
    if styles.len() == 0 {
        return None;
    }
    let mut acc = TextStyle::new();
    let mut i: usize = 0;
    while i < styles.len()
        invariant
            i <= styles@.len(),
            acc == combine_seq(styles@.take(i as int)),
        decreases styles@.len() - i,
    {
        assert(styles@.take(i + 1).drop_last() =~= styles@.take(i as int));
        acc = acc.combine(&styles[i]);
        i = i + 1;
    }
    assert(styles@.take(i as int) =~= styles@);
    Some(acc)
}

/// The style of an overlap zone: foreground attributes (color, blink,
/// strike) from `fg`, background attributes (background color and the
/// under- and overlines) from `bg`, the rest unset.
pub open spec fn overlay(fg: Option<TextStyle>, bg: Option<TextStyle>) -> TextStyle {
    let f = fg.unwrap_or(null_style());
    let b = bg.unwrap_or(null_style());
    TextStyle {
        color: f.color,
        blink: f.blink,
        strike: f.strike,
        bgcolor: b.bgcolor,
        underline: b.underline,
        underline2: b.underline2,
        overline: b.overline,
        ..null_style()
    }
}

/// Blend two styles for the overlap zone: FG attributes from `fg`, BG from `bg`.
pub fn overlay_styles(fg: Option<TextStyle>, bg: Option<TextStyle>) -> (r: TextStyle)
    ensures
        r == overlay(fg, bg),
{
    let f = match fg {
        Some(s) => s,
        None => TextStyle::new(),
    };
    let b = match bg {
        Some(s) => s,
        None => TextStyle::new(),
    };
    TextStyle {
        color: f.color,
        blink: f.blink,
        strike: f.strike,
        bgcolor: b.bgcolor,
        underline: b.underline,
        underline2: b.underline2,
        overline: b.overline,
        ..TextStyle::new()
    }
}

/// Whether `style` switches on the decoration named `attr`.
pub open spec fn decoration_on(style: TextStyle, attr: Seq<char>) -> bool {
    if attr == "underline"@ {
        style.underline == Some(true)
    } else if attr == "underline2"@ {
        style.underline2 == Some(true)
    } else if attr == "overline"@ {
        style.overline == Some(true)
    } else if attr == "strike"@ {
        style.strike == Some(true)
    } else {
        false
    }
}

/// Return true if the style has a given line decoration enabled.
pub fn line_style_active(style: &TextStyle, attr: &str) -> (r: bool)
    ensures
        r == decoration_on(*style, attr@),
{
    if str_eq(attr, "underline") {
        style.underline == Some(true)
    } else if str_eq(attr, "underline2") {
        style.underline2 == Some(true)
    } else if str_eq(attr, "overline") {
        style.overline == Some(true)
    } else if str_eq(attr, "strike") {
        style.strike == Some(true)
    } else {
        false
    }
}

/// The style that switches on a line type's decoration (none for custom lines).
pub open spec fn line_type_style(line: LineType) -> TextStyle {
    match line {
        LineType::Underline => TextStyle { underline: Some(true), ..null_style() },
        LineType::Underline2 => TextStyle { underline2: Some(true), ..null_style() },
        LineType::Overline => TextStyle { overline: Some(true), ..null_style() },
        LineType::Strike => TextStyle { strike: Some(true), ..null_style() },
        LineType::Custom => null_style(),
    }
}

/// Convert a `LineType` to the corresponding `TextStyle` that enables it.
pub fn line_type_to_style(line_type: &LineType) -> (r: TextStyle)
    ensures
        r == line_type_style(*line_type),
{
    match line_type {
        LineType::Underline => TextStyle::new().with_underline(true),
        LineType::Underline2 => TextStyle::new().with_underline2(true),
        LineType::Overline => TextStyle::new().with_overline(true),
        LineType::Strike => TextStyle::new().with_strike(true),
        LineType::Custom => TextStyle::new(),
    }
}

/// A span of a rendered row whose end may still move.
#[derive(Debug, Clone, Copy)]
pub struct MutableSpan {
    pub start: usize,
    pub end: usize,
    pub style: Option<TextStyle>,
}

/// One step of resolving spans taken from the last: a span that starts
/// after it ends is dropped; the first kept span is kept whole; a later one
/// is kept, cut at the start of the span kept before it, only if it starts
/// before that one.
pub open spec fn resolve_step(acc: Seq<MutableSpan>, sp: MutableSpan) -> Seq<MutableSpan> {
    if sp.start > sp.end {
        acc
    } else if acc.len() == 0 {
        acc.push(sp)
    } else if sp.start < acc.last().start {
        acc.push(MutableSpan { end: acc.last().start, ..sp })
    } else {
        acc
    }
}

/// The spans kept when resolving the last `n` spans of `spans`, in the
/// order they were taken (from the last span backwards).
pub open spec fn resolve_from_end(spans: Seq<MutableSpan>, n: nat) -> Seq<MutableSpan>
    decreases n,
{
    if n == 0 || n > spans.len() {
        Seq::empty()
    } else {
        resolve_step(resolve_from_end(spans, (n - 1) as nat), spans[spans.len() - n])
    }
}

/// Overlapping spans resolved: later spans take precedence over earlier
/// ones, whose end moves back to the start of the later span.
pub open spec fn resolved(spans: Seq<MutableSpan>) -> Seq<MutableSpan> {
    resolve_from_end(spans, spans.len()).reverse()
}

impl MutableSpan {
    pub fn new(start: usize, end: usize, style: Option<TextStyle>) -> (r: Self)
        ensures
            r == (MutableSpan { start, end, style }),
    {
        MutableSpan { start, end, style }
    }

    /// Resolve overlapping spans: later spans take precedence over earlier ones.
    /// Earlier spans have their end adjusted to the start of the later span.
    pub fn resolve(spans: Vec<MutableSpan>) -> (r: Vec<MutableSpan>)
        ensures
            r@ == resolved(spans@),
            r@ == kept_from(spans@, 0),
    {
        proof {
            law_resolved_rule(spans@);
        }
        let ghost s = spans@;
        let mut acc: Vec<MutableSpan> = Vec::new();
        let mut k: usize = 0;
        while k < spans.len()
            invariant
                s == spans@,
                k <= s.len(),
                acc@ == resolve_from_end(s, k as nat),
            decreases s.len() - k,
        {
            let sp = spans[spans.len() - 1 - k];
            if sp.start > sp.end {
            } else if acc.len() == 0 {
                acc.push(sp);
            } else {
                let prev_start = acc[acc.len() - 1].start;
                if sp.start < prev_start {
                    acc.push(MutableSpan { end: prev_start, ..sp });
                }
            }
            k = k + 1;
        }
        let mut r: Vec<MutableSpan> = Vec::new();
        let mut j: usize = acc.len();
        while j > 0
            invariant
                j <= acc@.len(),
                r@ == acc@.skip(j as int).reverse(),
            decreases j,
        {
            j = j - 1;
            r.push(acc[j]);
            assert(acc@.skip(j as int).reverse() =~= acc@.skip(j + 1).reverse().push(acc@[j as int]));
        }
        assert(acc@.skip(0) =~= acc@);
        r
    }
}

/// The first index from `i` on of a span starting after `start`, or the length.
pub open spec fn first_starting_after(sorted: Seq<Span>, start: usize, i: int) -> int
    decreases sorted.len() - i,
{
    if i >= sorted.len() || i < 0 {
        sorted.len() as int
    } else if sorted[i].start > start {
        i
    } else {
        first_starting_after(sorted, start, i + 1)
    }
}

/// Spans sorted by start, spans with equal starts keeping their order.
pub open spec fn sort_by_start(spans: Seq<Span>) -> Seq<Span>
    decreases spans.len(),
{
    if spans.len() == 0 {
        Seq::empty()
    } else {
        let sorted = sort_by_start(spans.drop_last());
        let p = first_starting_after(sorted, spans.last().start, 0);
        sorted.take(p) + seq![spans.last()] + sorted.skip(p)
    }
}

/// A span is open at position `p`: it has started, and has not ended unless
/// its end is not after its start.
pub open spec fn span_open_at(sp: Span, p: int) -> bool {
    sp.start <= p && (sp.end <= sp.start || p < sp.end)
}

/// The styles of the spans open at `p`, in order, null styles left out.
pub open spec fn open_styles(spans: Seq<Span>, p: int) -> Seq<TextStyle>
    decreases spans.len(),
{
    if spans.len() == 0 {
        Seq::empty()
    } else {
        let r = open_styles(spans.drop_last(), p);
        let sp = spans.last();
        if span_open_at(sp, p) && sp.style != null_style() { r.push(sp.style) } else { r }
    }
}

/// Some span starts or ends at `p`.
pub open spec fn span_edge_at(spans: Seq<Span>, p: int) -> bool {
    exists|k: int| 0 <= k < spans.len() && ((#[trigger] spans[k]).start == p || spans[k].end == p)
}

impl Typography {
    /// The styles in force at position `p`: the base style (unless null),
    /// then the styles of the spans open at `p`, by start and then in order.
    pub open spec fn styles_at(&self, p: int) -> Seq<TextStyle> {
        let base: Seq<TextStyle> = if self.style == null_style() { Seq::empty() } else { seq![self.style] };
        base + open_styles(sort_by_start(self.span_view()), p)
    }

    /// Style transitions at the positions `0..k` of a text `n` characters
    /// long: each position where the text or a span starts or ends, with
    /// the styles in force there combined.
    pub open spec fn style_borders_upto(&self, n: nat, k: nat) -> Seq<(int, Option<TextStyle>)>
        decreases k,
    {
        if k == 0 {
            Seq::empty()
        } else {
            let r = self.style_borders_upto(n, (k - 1) as nat);
            let p = k - 1;
            if p == 0 || span_edge_at(self.span_view(), p) {
                r.push((p, combine_opt(self.styles_at(p))))
            } else {
                r
            }
        }
    }

    /// Style transition points of a text `n` characters long, by position;
    /// position 0 with no style for an empty text.
    pub open spec fn style_border_seq(&self, n: nat) -> Seq<(int, Option<TextStyle>)> {
        if n == 0 { seq![(0, None)] } else { self.style_borders_upto(n, n) }
    }
}

impl Typography {
    pub proof fn lemma_style_borders_range(&self, n: nat, k: nat)
        ensures
            forall|i: int| 0 <= i < self.style_borders_upto(n, k).len() ==> 0 <= (#[trigger] self.style_borders_upto(n, k)[i]).0 < k,
        decreases k,
    {
        if k > 0 {
            self.lemma_style_borders_range(n, (k - 1) as nat);
            let r = self.style_borders_upto(n, (k - 1) as nat);
            let p = k - 1;
            assert forall|i: int| 0 <= i < self.style_borders_upto(n, k).len() implies 0 <= (#[trigger] self.style_borders_upto(n, k)[i]).0 < k by {
                if i < r.len() {
                    assert(self.style_borders_upto(n, k)[i] == r[i]);
                }
            }
        }
    }
}

/// The spans sorted by start, stably.
pub fn sorted_by_start(spans: &Vec<Span>) -> (r: Vec<Span>)
    ensures
        r@ == sort_by_start(spans@),
{
    let ghost sv = spans@;
    let mut sorted: Vec<Span> = Vec::new();
    let mut i: usize = 0;
    while i < spans.len()
        invariant
            sv == spans@,
            i <= sv.len(),
            sorted@ == sort_by_start(sv.take(i as int)),
        decreases sv.len() - i,
    {
        let ghost so = sorted@;
        let st = spans[i].start;
        let mut p: usize = 0;
        while p < sorted.len() && sorted[p].start <= st
            invariant
                so == sorted@,
                p <= so.len(),
                first_starting_after(so, st, 0) == first_starting_after(so, st, p as int),
            decreases so.len() - p,
        {
            p = p + 1;
        }
        proof {
            assert(first_starting_after(so, st, 0) == p as int);
            assert(sv.take(i + 1).drop_last() =~= sv.take(i as int));
            assert(sv.take(i + 1).last() == sv[i as int]);
        }
        sorted.insert(p, spans[i]);
        assert(sorted@ =~= so.take(p as int) + seq![sv[i as int]] + so.skip(p as int));
        i = i + 1;
    }
    assert(sv.take(i as int) =~= sv);
    sorted
}

impl Typography {
    /// Style transition points in a text `text_len` characters long, sorted by
    /// character position: `(char_pos, combined_style)`.
    pub fn style_borders(&self, text_len: usize) -> (r: Vec<(usize, Option<TextStyle>)>)
        ensures
            r@.len() == self.style_border_seq(text_len as nat).len(),
            forall|i: int| 0 <= i < r@.len() ==> (r@[i].0 as int, r@[i].1) == #[trigger] self.style_border_seq(text_len as nat)[i],
    {
        let mut result: Vec<(usize, Option<TextStyle>)> = Vec::new();
        if text_len == 0 {
            result.push((0, None));
            return result;
        }
        let sorted = sorted_by_start(&self.spans);
        let base_null = self.style.is_null();
        let mut p: usize = 0;
        while p < text_len
            invariant
                sorted@ == sort_by_start(self.span_view()),
                base_null == (self.style == null_style()),
                p <= text_len,
                result@.len() == self.style_borders_upto(text_len as nat, p as nat).len(),
                forall|i: int| 0 <= i < result@.len() ==> (result@[i].0 as int, result@[i].1) == #[trigger] self.style_borders_upto(text_len as nat, p as nat)[i],
            decreases text_len - p,
        {
            // is `p` a border?
            let mut edge = p == 0;
            let mut k: usize = 0;
            while k < self.spans.len() && !edge
                invariant
                    k <= self.span_view().len(),
                    edge ==> (p == 0 || span_edge_at(self.span_view(), p as int)),
                    !edge ==> p != 0 && forall|q: int| 0 <= q < k ==> !((#[trigger] self.span_view()[q]).start == p || self.span_view()[q].end == p),
                decreases self.span_view().len() - k, (if edge { 0int } else { 1int }),
            {
                if self.spans[k].start == p || self.spans[k].end == p {
                    edge = true;
                    assert(self.span_view()[k as int] == self.spans@[k as int]);
                } else {
                    k = k + 1;
                }
            }
            let ghost before = result@;
            if edge {
                let mut styles: Vec<TextStyle> = Vec::new();
                if !base_null {
                    styles.push(self.style);
                }
                let ghost base = styles@;
                let mut j: usize = 0;
                while j < sorted.len()
                    invariant
                        sorted@ == sort_by_start(self.span_view()),
                        j <= sorted@.len(),
                        styles@ == base + open_styles(sorted@.take(j as int), p as int),
                    decreases sorted@.len() - j,
                {
                    assert(sorted@.take(j + 1).drop_last() =~= sorted@.take(j as int));
                    assert(sorted@.take(j + 1).last() == sorted@[j as int]);
                    let sp = sorted[j];
                    if sp.start <= p && (sp.end <= sp.start || p < sp.end) && !sp.style.is_null() {
                        styles.push(sp.style);
                    }
                    j = j + 1;
                }
                assert(sorted@.take(j as int) =~= sorted@);
                assert(styles@ =~= self.styles_at(p as int));
                let combined_style = combine_styles(&styles);
                result.push((p, combined_style));
            } else {
                assert(!span_edge_at(self.span_view(), p as int));
            }
            proof {
                assert forall|i: int| 0 <= i < result@.len() implies (result@[i].0 as int, result@[i].1) == #[trigger] self.style_borders_upto(text_len as nat, (p + 1) as nat)[i] by {
                    if i < before.len() {
                        assert(result@[i] == before[i]);
                    }
                }
            }
            p = p + 1;
        }
        result
    }
}

/// Number of the positions `bs` that are at most `pos`.
pub open spec fn count_at_most(bs: Seq<int>, pos: int) -> int
    decreases bs.len(),
{
    if bs.len() == 0 {
        0
    } else {
        count_at_most(bs.drop_last(), pos) + (if bs.last() <= pos { 1int } else { 0int })
    }
}

/// Where a style transition at `pos` lands among the glyph starts `bs`
/// (increasing): `pos` itself when a glyph starts there; otherwise the glyph
/// start before it when `last`, else the one after it, if there is one.
pub open spec fn snap(bs: Seq<int>, pos: int, last: bool) -> Option<int> {
    if bs.contains(pos) {
        Some(pos)
    } else {
        let right = count_at_most(bs, pos);
        let left = if right >= 1 { right - 1 } else { 0 };
        if last {
            if left < bs.len() { Some(bs[left]) } else { None }
        } else {
            if right < bs.len() { Some(bs[right]) } else { None }
        }
    }
}

/// The first index from `i` on whose key is at least `q`, or the length.
pub open spec fn first_key_at_least(acc: Seq<(int, Option<TextStyle>)>, q: int, i: int) -> int
    decreases acc.len() - i,
{
    if i >= acc.len() || i < 0 {
        acc.len() as int
    } else if acc[i].0 >= q {
        i
    } else {
        first_key_at_least(acc, q, i + 1)
    }
}

/// `acc`, kept sorted by key, with `st` stored under key `q`, replacing what
/// was stored there.
pub open spec fn put_sorted(acc: Seq<(int, Option<TextStyle>)>, q: int, st: Option<TextStyle>) -> Seq<(int, Option<TextStyle>)> {
    let i = first_key_at_least(acc, q, 0);
    if i < acc.len() && acc[i].0 == q {
        acc.update(i, (q, st))
    } else {
        acc.take(i) + seq![(q, st)] + acc.skip(i)
    }
}

/// The first `n` style transitions moved onto glyph starts: with
/// ligatures each lands where `snap` puts it (or is dropped), without
/// ligatures it stays; a later transition landing on the same position
/// replaces an earlier one.
pub open spec fn snapped_upto(
    styles: Seq<(int, Option<TextStyle>)>,
    bs: Seq<int>,
    ligatures: bool,
    last: bool,
    n: nat,
) -> Seq<(int, Option<TextStyle>)>
    decreases n,
{
    if n == 0 {
        Seq::empty()
    } else {
        let acc = snapped_upto(styles, bs, ligatures, last, (n - 1) as nat);
        let (pos, st) = styles[n - 1];
        let target = if ligatures { snap(bs, pos, last) } else { Some(pos) };
        match target {
            Some(q) => put_sorted(acc, q, st),
            None => acc,
        }
    }
}

/// The text cut at the sorted positions of `c`, each piece with its style:
/// from a position to the next one, the last to the end of the text.
pub open spec fn cut_at(text: Seq<char>, c: Seq<(int, Option<TextStyle>)>) -> Seq<(Seq<char>, Option<TextStyle>)> {
    Seq::new(c.len(), |i: int| {
        let end = if i + 1 < c.len() { c[i + 1].0 } else { text.len() as int };
        let e = if end <= text.len() { end } else { text.len() as int };
        (text.subrange(c[i].0, e), c[i].1)
    })
}

/// Keys strictly increasing and within `0..=n`.
pub open spec fn keys_sorted_within(acc: Seq<(int, Option<TextStyle>)>, n: int) -> bool {
    &&& forall|i: int| 0 <= i < acc.len() ==> 0 <= #[trigger] acc[i].0 <= n
    &&& forall|i: int, j: int| 0 <= i < j < acc.len() ==> acc[i].0 < acc[j].0
}

impl Typography {
    /// The `(text, style)` fragments of `text`: its style transitions moved
    /// onto glyph starts, and the text cut there.
    pub open spec fn fragments(&self, text: Seq<char>) -> Seq<(Seq<char>, Option<TextStyle>)> {
        let styles = self.style_border_seq(text.len());
        let bs = self.glyph_border_seq(text);
        let c = snapped_upto(styles, bs, self.use_ligatures, self.style_ligatures == Some(LigatureStyleMethod::Last), styles.len());
        cut_at(text, c)
    }
}

pub proof fn lemma_put_sorted(acc: Seq<(int, Option<TextStyle>)>, q: int, st: Option<TextStyle>, n: int)
    requires
        keys_sorted_within(acc, n),
        0 <= q <= n,
    ensures
        keys_sorted_within(put_sorted(acc, q, st), n),
{
    let i = first_key_at_least(acc, q, 0);
    lemma_first_key_at_least(acc, q, 0);
    let r = put_sorted(acc, q, st);
    if i < acc.len() && acc[i].0 == q {
        assert forall|a: int, b: int| 0 <= a < b < r.len() implies r[a].0 < r[b].0 by {
            assert(acc[a].0 < acc[b].0);
        }
    } else {
        assert forall|a: int, b: int| 0 <= a < b < r.len() implies r[a].0 < r[b].0 by {
            if a < i && b < i {
                assert(r[a] == acc[a] && r[b] == acc[b]);
            } else if a < i && b == i {
                assert(r[a] == acc[a]);
            } else if a < i {
                assert(r[a] == acc[a] && r[b] == acc[b - 1]);
            } else if a == i {
                assert(r[b] == acc[b - 1]);
                assert(acc[b - 1].0 >= q);
            } else {
                assert(r[a] == acc[a - 1] && r[b] == acc[b - 1]);
            }
        }
        assert forall|a: int| 0 <= a < r.len() implies 0 <= #[trigger] r[a].0 <= n by {
            if a < i {
                assert(r[a] == acc[a]);
            } else if a > i {
                assert(r[a] == acc[a - 1]);
            }
        }
    }
}

pub proof fn lemma_first_key_at_least(acc: Seq<(int, Option<TextStyle>)>, q: int, i: int)
    requires
        0 <= i <= acc.len(),
        keys_sorted_within(acc, acc.len() + q + 1) || true,
    ensures
        i <= first_key_at_least(acc, q, i) <= acc.len(),
        forall|j: int| i <= j < first_key_at_least(acc, q, i) ==> #[trigger] acc[j].0 < q,
        first_key_at_least(acc, q, i) < acc.len() ==> acc[first_key_at_least(acc, q, i)].0 >= q,
    decreases acc.len() - i,
{
    if i < acc.len() && acc[i].0 < q {
        lemma_first_key_at_least(acc, q, i + 1);
    }
}

impl Typography {
    /// Combine glyph and style borders into `(text_fragment, style)` pairs.
    pub fn style_fragments(&self, text: &str) -> (r: Vec<(String, Option<TextStyle>)>)
        requires
            self.ligatures_compile(),
        ensures
            r@.len() == self.fragments(text@).len(),
            forall|i: int| 0 <= i < r@.len() ==> (r@[i].0@, r@[i].1) == #[trigger] self.fragments(text@)[i],
            text@.len() > 0 ==> crate::laws::joined_texts(self.fragments(text@)) == text@,
            text@.len() > 0 ==> forall|i: int| 0 <= i < r@.len() ==> (#[trigger] r@[i]).0@.len() > 0,
    {
        let v = str_chars(text);
        let n = v.len();
        let borders = self.glyph_borders(text);
        let styles = self.style_borders(n);
        let ghost bs = self.glyph_border_seq(text@);
        let ghost sv = self.style_border_seq(n as nat);
        let last = self.style_ligatures == Some(LigatureStyleMethod::Last);
        proof {
            self.lemma_glyph_borders_range(text@);
            self.lemma_style_borders_range(n as nat, n as nat);
        }
        let mut corrected: Vec<(usize, Option<TextStyle>)> = Vec::new();
        let mut i: usize = 0;
        while i < styles.len()
            invariant
                n == text@.len(),
                borders@.len() == bs.len(),
                forall|k: int| 0 <= k < borders@.len() ==> borders@[k] == #[trigger] bs[k],
                forall|k: int| 0 <= k < bs.len() ==> 0 <= #[trigger] bs[k] < n,
                styles@.len() == sv.len(),
                forall|k: int| 0 <= k < styles@.len() ==> (styles@[k].0 as int, styles@[k].1) == #[trigger] sv[k],
                forall|k: int| 0 <= k < sv.len() ==> 0 <= (#[trigger] sv[k]).0 <= n,
                last == (self.style_ligatures == Some(LigatureStyleMethod::Last)),
                i <= sv.len(),
                Seq::new(corrected@.len(), |k: int| (corrected@[k].0 as int, corrected@[k].1))
                    == snapped_upto(sv, bs, self.use_ligatures, last, i as nat),
                keys_sorted_within(snapped_upto(sv, bs, self.use_ligatures, last, i as nat), n as int),
            decreases sv.len() - i,
        {
            let (pos, st) = styles[i];
            assert(sv[i as int] == (pos as int, st));
            let mut target: Option<usize> = Some(pos);
            if self.use_ligatures {
                // membership and number of borders at most `pos`
                let mut member = false;
                let mut count: usize = 0;
                let mut k: usize = 0;
                while k < borders.len()
                    invariant
                        borders@.len() == bs.len(),
                        forall|q: int| 0 <= q < borders@.len() ==> borders@[q] == #[trigger] bs[q],
                        k <= bs.len(),
                        member == (exists|q: int| 0 <= q < k && #[trigger] bs[q] == pos),
                        count == count_at_most(bs.take(k as int), pos as int),
                        count <= k,
                    decreases bs.len() - k,
                {
                    assert(bs.take(k + 1).drop_last() =~= bs.take(k as int));
                    assert(bs.take(k + 1).last() == bs[k as int]);
                    if borders[k] == pos {
                        member = true;
                    }
                    if borders[k] <= pos {
                        count = count + 1;
                    }
                    k = k + 1;
                }
                assert(bs.take(k as int) =~= bs);
                assert(member == bs.contains(pos as int));
                if member {
                    target = Some(pos);
                } else {
                    let left = if count >= 1 { count - 1 } else { 0 };
                    if last {
                        target = if left < borders.len() { Some(borders[left]) } else { None };
                    } else {
                        target = if count < borders.len() { Some(borders[count]) } else { None };
                    }
                }
            }
            let ghost acc = snapped_upto(sv, bs, self.use_ligatures, last, i as nat);
            match target {
                Some(q) => {
                    proof {
                        lemma_put_sorted(acc, q as int, st, n as int);
                        lemma_first_key_at_least(acc, q as int, 0);
                    }
                    let mut j: usize = 0;
                    while j < corrected.len() && corrected[j].0 < q
                        invariant
                            j <= corrected@.len(),
                            corrected@.len() == acc.len(),
                            forall|w: int| 0 <= w < acc.len() ==> #[trigger] acc[w] == (corrected@[w].0 as int, corrected@[w].1),
                            first_key_at_least(acc, q as int, 0) == first_key_at_least(acc, q as int, j as int),
                        decreases corrected@.len() - j,
                    {
                        assert(acc[j as int].0 == corrected@[j as int].0);
                        j = j + 1;
                    }
                    proof {
                        if j < corrected@.len() {
                            assert(acc[j as int].0 == corrected@[j as int].0);
                        }
                    }
                    let ghost before = corrected@;
                    if j < corrected.len() && corrected[j].0 == q {
                        corrected.set(j, (q, st));
                    } else {
                        corrected.insert(j, (q, st));
                    }
                    proof {
                        let pv = put_sorted(acc, q as int, st);
                        let cv = Seq::new(corrected@.len(), |w: int| (corrected@[w].0 as int, corrected@[w].1));
                        assert forall|w: int| 0 <= w < cv.len() implies cv[w] == pv[w] by {
                            if w < j {
                                assert(corrected@[w] == before[w]);
                                assert(acc[w] == (before[w].0 as int, before[w].1));
                            } else if w > j {
                                if corrected@.len() > before.len() {
                                    assert(corrected@[w] == before[w - 1]);
                                    assert(acc[w - 1] == (before[w - 1].0 as int, before[w - 1].1));
                                } else {
                                    assert(corrected@[w] == before[w]);
                                    assert(acc[w] == (before[w].0 as int, before[w].1));
                                }
                            }
                        }
                        assert(cv =~= pv);
                    }
                }
                None => {}
            }
            proof {
                let s2 = snapped_upto(sv, bs, self.use_ligatures, last, (i + 1) as nat);
                assert(s2 == (match target {
                    Some(q) => put_sorted(acc, q as int, st),
                    None => acc,
                })) by {
                    if self.use_ligatures {
                        assert(target == (match snap(bs, pos as int, last) { Some(q) => Some(q as usize), None => None }));
                    }
                }
            }
            i = i + 1;
        }
        let ghost cseq = snapped_upto(sv, bs, self.use_ligatures, last, sv.len());
        let mut result: Vec<(String, Option<TextStyle>)> = Vec::new();
        let mut j: usize = 0;
        while j < corrected.len()
            invariant
                n == v@.len(),
                v@ == text@,
                Seq::new(corrected@.len(), |k: int| (corrected@[k].0 as int, corrected@[k].1)) == cseq,
                keys_sorted_within(cseq, n as int),
                j <= corrected@.len(),
                result@.len() == j,
                forall|k: int| 0 <= k < j ==> (result@[k].0@, result@[k].1) == #[trigger] cut_at(text@, cseq)[k],
            decreases corrected@.len() - j,
        {
            let start = corrected[j].0;
            let end = if j + 1 < corrected.len() { corrected[j + 1].0 } else { n };
            let e = if end <= n { end } else { n };
            proof {
                assert(cseq[j as int].0 == start as int);
                if j + 1 < corrected@.len() {
                    assert(cseq[j + 1].0 == corrected@[j + 1].0 as int);
                    assert(cseq[j as int].0 < cseq[j + 1].0);
                }
                assert(0 <= cseq[j as int].0 <= n);
            }
            let piece = string_from_chars(&v.as_slice()[start..e]);
            result.push((piece, corrected[j].1));
            proof {
                assert(cseq[j as int].1 == corrected@[j as int].1);
                assert(v@.subrange(start as int, e as int) == text@.subrange(start as int, e as int));
            }
            j = j + 1;
        }
        proof {
            if text@.len() > 0 {
                self.law_fragments_cover(text@);
                self.law_fragments_nonempty(text@);
                assert forall|i: int| 0 <= i < result@.len() implies (#[trigger] result@[i]).0@.len() > 0 by {
                    assert((result@[i].0@, result@[i].1) == self.fragments(text@)[i]);
                }
            }
        }
        result
    }
}

pub proof fn lemma_snap_within(bs: Seq<int>, pos: int, last: bool, n: int)
    requires
        0 <= pos <= n,
        forall|i: int| 0 <= i < bs.len() ==> 0 <= #[trigger] bs[i] <= n,
        0 <= count_at_most(bs, pos) <= bs.len(),
    ensures
        snap(bs, pos, last) matches Some(q) ==> 0 <= q <= n,
{
    if !bs.contains(pos) {
        let right = count_at_most(bs, pos);
        let left = if right >= 1 { right - 1 } else { 0 };
        if left < bs.len() {
            assert(0 <= bs[left] <= n);
        }
        if right < bs.len() {
            assert(0 <= bs[right] <= n);
        }
    }
}

pub proof fn lemma_count_at_most_le(bs: Seq<int>, pos: int)
    ensures
        0 <= count_at_most(bs, pos) <= bs.len(),
    decreases bs.len(),
{
    if bs.len() > 0 {
        lemma_count_at_most_le(bs.drop_last(), pos);
    }
}

/// The snapped style transitions stay sorted and within the text.
pub proof fn lemma_snapped_sorted(
    styles: Seq<(int, Option<TextStyle>)>,
    bs: Seq<int>,
    ligatures: bool,
    last: bool,
    n: int,
    k: nat,
)
    requires
        k <= styles.len(),
        forall|i: int| 0 <= i < styles.len() ==> 0 <= (#[trigger] styles[i]).0 <= n,
        forall|i: int| 0 <= i < bs.len() ==> 0 <= #[trigger] bs[i] <= n,
    ensures
        keys_sorted_within(snapped_upto(styles, bs, ligatures, last, k), n),
    decreases k,
{
    if k > 0 {
        lemma_snapped_sorted(styles, bs, ligatures, last, n, (k - 1) as nat);
        let acc = snapped_upto(styles, bs, ligatures, last, (k - 1) as nat);
        let (pos, st) = styles[k - 1];
        lemma_count_at_most_le(bs, pos);
        lemma_snap_within(bs, pos, last, n);
        let target = if ligatures { snap(bs, pos, last) } else { Some(pos) };
        match target {
            Some(q) => {
                lemma_put_sorted(acc, q, st, n);
            },
            None => {},
        }
    }
}

/// Strictly increasing keys within `0..=n` are at most `n + 1`.
pub proof fn lemma_sorted_keys_count(c: Seq<(int, Option<TextStyle>)>, n: int)
    requires
        keys_sorted_within(c, n),
        n >= 0,
    ensures
        c.len() <= n + 1,
{
    if c.len() > 0 {
        assert forall|i: int| 0 <= i < c.len() implies #[trigger] c[i].0 >= i by {
            lemma_key_at_least_index(c, n, i);
        }
        assert(c[c.len() - 1].0 >= c.len() - 1);
        assert(c[c.len() - 1].0 <= n);
    }
}

proof fn lemma_key_at_least_index(c: Seq<(int, Option<TextStyle>)>, n: int, i: int)
    requires
        keys_sorted_within(c, n),
        0 <= i < c.len(),
    ensures
        c[i].0 >= i,
    decreases i,
{
    if i > 0 {
        lemma_key_at_least_index(c, n, i - 1);
        assert(c[i - 1].0 < c[i].0);
    }
}

/// The pieces cut at sorted positions hold the text from the first position on.
pub proof fn lemma_cut_total(text: Seq<char>, c: Seq<(int, Option<TextStyle>)>, k: int)
    requires
        keys_sorted_within(c, text.len() as int),
        c.len() > 0,
        0 <= k <= c.len(),
    ensures
        crate::justify::text_before(cut_at(text, c), k) == (if k < c.len() { c[k].0 } else { text.len() as int }) - c[0].0,
    decreases k,
{
    if k > 0 {
        lemma_cut_total(text, c, k - 1);
        if k < c.len() {
            assert(c[k - 1].0 < c[k].0);
        }
    }
}

impl Typography {
    /// The fragments of a text are at most one more than its characters and
    /// hold no more characters than it.
    pub proof fn lemma_fragments_total(&self, text: Seq<char>)
        ensures
            self.fragments(text).len() <= text.len() + 1,
            0 <= crate::justify::text_before(self.fragments(text), self.fragments(text).len() as int) <= text.len(),
    {
        let n = text.len();
        let styles = self.style_border_seq(n);
        let bs = self.glyph_border_seq(text);
        self.lemma_glyph_borders_range(text);
        self.lemma_style_borders_range(n, n);
        let last = self.style_ligatures == Some(LigatureStyleMethod::Last);
        assert forall|i: int| 0 <= i < styles.len() implies 0 <= (#[trigger] styles[i]).0 <= n by {}
        lemma_snapped_sorted(styles, bs, self.use_ligatures, last, n as int, styles.len());
        let c = snapped_upto(styles, bs, self.use_ligatures, last, styles.len());
        lemma_sorted_keys_count(c, n as int);
        if c.len() > 0 {
            lemma_cut_total(text, c, c.len() as int);
        }
    }
}

proof fn lemma_resolve_from_end_ordered(spans: Seq<MutableSpan>, n: nat)
    ensures
        forall|i: int| 0 <= i < resolve_from_end(spans, n).len() ==> (#[trigger] resolve_from_end(spans, n)[i]).start
            <= resolve_from_end(spans, n)[i].end,
    decreases n,
{
    if n > 0 && n <= spans.len() {
        lemma_resolve_from_end_ordered(spans, (n - 1) as nat);
        let acc = resolve_from_end(spans, (n - 1) as nat);
        let r = resolve_from_end(spans, n);
        assert forall|i: int| 0 <= i < r.len() implies (#[trigger] r[i]).start <= r[i].end by {
            if i < acc.len() {
                assert(r[i] == acc[i]);
            }
        }
    }
}

/// Spans kept by resolving follow one another without gaps: each ends
/// where the one kept before it (a later one in the row) starts.
proof fn lemma_resolve_from_end_adjacent(spans: Seq<MutableSpan>, n: nat)
    ensures
        forall|k: int| 0 <= k < resolve_from_end(spans, n).len() - 1 ==>
            (#[trigger] resolve_from_end(spans, n)[k + 1]).end == resolve_from_end(spans, n)[k].start,
    decreases n,
{
    if n > 0 && n <= spans.len() {
        lemma_resolve_from_end_adjacent(spans, (n - 1) as nat);
        let acc = resolve_from_end(spans, (n - 1) as nat);
        let r = resolve_from_end(spans, n);
        assert forall|k: int| 0 <= k < r.len() - 1 implies (#[trigger] r[k + 1]).end == r[k].start by {
            assert(r[k] == acc[k]);
            if k + 1 < acc.len() {
                assert(r[k + 1] == acc[k + 1]);
            }
        }
    }
}

/// The last span kept by resolving starts no later than any span taken
/// that does not start after it ends.
proof fn lemma_resolve_from_end_least_start(spans: Seq<MutableSpan>, n: nat)
    requires
        n <= spans.len(),
    ensures
        forall|i: int| spans.len() - n <= i < spans.len() && (#[trigger] spans[i]).start <= spans[i].end ==>
            resolve_from_end(spans, n).len() > 0 && resolve_from_end(spans, n).last().start <= spans[i].start,
    decreases n,
{
    if n > 0 {
        lemma_resolve_from_end_least_start(spans, (n - 1) as nat);
    }
}

/// Once a span is kept, the first span kept stays the same.
proof fn lemma_resolve_from_end_first(spans: Seq<MutableSpan>, m: nat, n: nat)
    requires
        m <= n <= spans.len(),
        resolve_from_end(spans, m).len() > 0,
    ensures
        resolve_from_end(spans, n).len() > 0,
        resolve_from_end(spans, n)[0] == resolve_from_end(spans, m)[0],
    decreases n - m,
{
    if m < n {
        lemma_resolve_from_end_first(spans, m, (n - 1) as nat);
    }
}

/// The first span kept when resolving spans followed by a closing span:
/// the closing span when it does not start after it ends, else the last of
/// the spans.
proof fn lemma_resolved_cover_last(spans: Seq<MutableSpan>, fl: usize)
    requires
        spans.len() >= 1,
        spans.last().start <= spans.last().end,
    ensures
        ({
            let all = spans.push(MutableSpan { start: spans.last().end, end: fl, style: None });
            &&& resolve_from_end(all, all.len()).len() > 0
            &&& resolve_from_end(all, all.len())[0].end >= fl
        }),
{
    let all = spans.push(MutableSpan { start: spans.last().end, end: fl, style: None });
    let n = all.len();
    if spans.last().end <= fl {
        assert(resolve_from_end(all, 1) == resolve_step(resolve_from_end(all, 0), all[n - 1]));
        assert(resolve_from_end(all, 1)[0] == all[n - 1]);
        lemma_resolve_from_end_first(all, 1, n);
    } else {
        assert(all[n - 1].start > all[n - 1].end);
        assert(resolve_from_end(all, 1) == resolve_step(resolve_from_end(all, 0), all[n - 1]));
        assert(resolve_from_end(all, 1) =~= Seq::<MutableSpan>::empty());
        assert(all[n - 2] == spans.last());
        assert(resolve_from_end(all, 2) == resolve_step(resolve_from_end(all, 1), all[n - 2]));
        assert(resolve_from_end(all, 2)[0] == spans.last());
        lemma_resolve_from_end_first(all, 2, n);
    }
}

/// Resolving spans whose first starts at 0 and whose last does not start
/// after it ends, then a span from the last end to `fl`: the resolved spans
/// start at 0, each ends where the next starts, and the last ends at `fl`
/// or later.
pub proof fn lemma_resolved_cover(spans: Seq<MutableSpan>, fl: usize)
    requires
        spans.len() >= 1,
        spans[0].start == 0,
        spans.last().start <= spans.last().end,
    ensures
        ({
            let r = resolved(spans.push(MutableSpan { start: spans.last().end, end: fl, style: None }));
            &&& r.len() >= 1
            &&& r[0].start == 0
            &&& forall|i: int| 0 <= i < r.len() - 1 ==> (#[trigger] r[i]).end == r[i + 1].start
            &&& r.last().end >= fl
            &&& forall|i: int| 0 <= i < r.len() ==> (#[trigger] r[i]).start <= r[i].end
        }),
{
    let all = spans.push(MutableSpan { start: spans.last().end, end: fl, style: None });
    let n = all.len();
    let acc = resolve_from_end(all, n);
    let r = resolved(all);
    assert(acc.len() > 0 && acc.last().start == 0) by {
        lemma_resolve_from_end_least_start(all, n);
        assert(all[0] == spans[0]);
        assert(all[0].start <= all[0].end);
    }
    assert(r.len() == acc.len());
    assert(r[0].start == 0) by {
        assert(r[0] == acc[acc.len() - 1]);
    }
    assert forall|i: int| 0 <= i < r.len() - 1 implies (#[trigger] r[i]).end == r[i + 1].start by {
        lemma_resolve_from_end_adjacent(all, n);
        let k = acc.len() - 2 - i;
        assert(r[i] == acc[k + 1]);
        assert(r[i + 1] == acc[k]);
    }
    assert forall|i: int| 0 <= i < r.len() implies (#[trigger] r[i]).start <= r[i].end by {
        lemma_resolve_from_end_ordered(all, n);
        assert(r[i] == acc[acc.len() - 1 - i]);
    }
    assert(r.last().end >= fl) by {
        lemma_resolved_cover_last(spans, fl);
        assert(r.last() == acc[0]);
    }
}

/// The least start among the spans after `i` that do not start after they
/// end, if there is one.
pub open spec fn least_later_start(spans: Seq<MutableSpan>, i: int) -> Option<usize>
    decreases spans.len() - i,
{
    if i + 1 >= spans.len() {
        None
    } else {
        let rest = least_later_start(spans, i + 1);
        let sp = spans[i + 1];
        if sp.start > sp.end {
            rest
        } else {
            match rest {
                None => Some(sp.start),
                Some(m) => Some(if sp.start < m { sp.start } else { m }),
            }
        }
    }
}

/// Span `i` survives resolving: it does not start after it ends, and it
/// starts before every later span that does not either.
pub open spec fn span_kept(spans: Seq<MutableSpan>, i: int) -> bool {
    &&& spans[i].start <= spans[i].end
    &&& match least_later_start(spans, i) {
        None => true,
        Some(m) => spans[i].start < m,
    }
}

/// The spans from `i` on that survive resolving, each ending where the
/// least later start is (its own end when there is none).
pub open spec fn kept_from(spans: Seq<MutableSpan>, i: int) -> Seq<MutableSpan>
    decreases spans.len() - i,
{
    if i < 0 || i >= spans.len() {
        Seq::empty()
    } else {
        let here = if span_kept(spans, i) {
            seq![MutableSpan { end: least_later_start(spans, i).unwrap_or(spans[i].end), ..spans[i] }]
        } else {
            Seq::empty()
        };
        here + kept_from(spans, i + 1)
    }
}

proof fn lemma_resolve_from_end_kept(spans: Seq<MutableSpan>, n: nat)
    requires
        n <= spans.len(),
    ensures
        resolve_from_end(spans, n).reverse() == kept_from(spans, spans.len() - n),
        resolve_from_end(spans, n).len() > 0 <==> least_later_start(spans, spans.len() - n - 1) is Some,
        resolve_from_end(spans, n).len() > 0 ==> Some(resolve_from_end(spans, n).last().start) == least_later_start(
            spans,
            spans.len() - n - 1,
        ),
    decreases n,
{
    let len = spans.len() as int;
    if n == 0 {
        assert(resolve_from_end(spans, 0).reverse() =~= Seq::<MutableSpan>::empty());
    } else {
        lemma_resolve_from_end_kept(spans, (n - 1) as nat);
        let i = len - n;
        let acc = resolve_from_end(spans, (n - 1) as nat);
        let sp = spans[i];
        let r = resolve_from_end(spans, n);
        assert(r == resolve_step(acc, sp));
        assert(least_later_start(spans, i) == least_later_start(spans, len - (n - 1) - 1));
        if sp.start > sp.end {
            assert(kept_from(spans, i) =~= kept_from(spans, i + 1));
        } else if acc.len() == 0 {
            assert(r.reverse() =~= seq![sp] + acc.reverse());
            assert(kept_from(spans, i) =~= seq![sp] + kept_from(spans, i + 1));
        } else if sp.start < acc.last().start {
            let cut = MutableSpan { end: acc.last().start, ..sp };
            assert(r.reverse() =~= seq![cut] + acc.reverse());
            assert(kept_from(spans, i) =~= seq![cut] + kept_from(spans, i + 1));
        } else {
            assert(kept_from(spans, i) =~= kept_from(spans, i + 1));
        }
    }
}

/// Resolving keeps, in order, exactly the spans that do not start after
/// they end and start before every later such span; each kept span ends
/// where the least later start is, the last one kept at its own end.
pub proof fn law_resolved_rule(spans: Seq<MutableSpan>)
    ensures
        resolved(spans) == kept_from(spans, 0),
{
    lemma_resolve_from_end_kept(spans, spans.len());
}

/// Resolved spans each start no later than they end.
pub proof fn lemma_resolved_ordered(spans: Seq<MutableSpan>)
    ensures
        forall|i: int| 0 <= i < resolved(spans).len() ==> (#[trigger] resolved(spans)[i]).start <= resolved(spans)[i].end,
{
    let a = resolve_from_end(spans, spans.len());
    lemma_resolve_from_end_ordered(spans, spans.len());
    assert forall|i: int| 0 <= i < resolved(spans).len() implies (#[trigger] resolved(spans)[i]).start <= resolved(spans)[i].end by {
        assert(resolved(spans)[i] == a[a.len() - 1 - i]);
    }
}

} // verus!
