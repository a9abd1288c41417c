use vstd::prelude::*;

use crate::chars::{str_chars, string_from_chars};
use crate::layout::spaces;
use crate::style::TextStyle;
use crate::text::{lemma_split_on_total, lemma_total_len_elem, split_chars_on, split_on, total_len, trim_end, trim_end_chars};
use crate::typography::Typography;

verus! {

/// The plain view of `(text, style)` fragments.
pub open spec fn frag_view(v: Seq<(String, Option<TextStyle>)>) -> Seq<(Seq<char>, Option<TextStyle>)> {
    Seq::new(v.len(), |i: int| (v[i].0@, v[i].1))
}

/// Space counts of `ns` gaps, and the turn, after `e` extra spaces were
/// handed out one per gap in turn from the rightmost gap leftwards,
/// starting from one space per gap.
pub open spec fn gap_state(ns: nat, e: nat) -> (Seq<int>, int)
    decreases e,
{
    if e == 0 {
        (Seq::new(ns, |_i: int| 1int), 0)
    } else {
        let (g, i) = gap_state(ns, (e - 1) as nat);
        let idx = ns - i - 1;
        (g.update(idx, g[idx] + 1), if i + 1 < ns { i + 1 } else { 0 })
    }
}

/// Space counts of the gaps after `e` extra spaces were handed out.
pub open spec fn gap_spaces(ns: nat, e: nat) -> Seq<int> {
    gap_state(ns, e).0
}

/// The number of extra spaces full justification hands out: from `e` on,
/// the first count at which the words (`w` cells together) and all spaces
/// (`ns` gaps, `sw` cells each) fill `width` cells.
pub open spec fn extra_from(w: int, ns: int, sw: int, width: int, e: int) -> int
    decreases width - e,
{
    if w + (ns + e) * sw >= width || e >= width || sw <= 0 {
        e
    } else {
        extra_from(w, ns, sw, width, e + 1)
    }
}

/// The words joined, each followed by its gap's spaces (none after the last).
pub open spec fn joined(words: Seq<Seq<char>>, gaps: Seq<int>) -> Seq<char>
    decreases words.len(),
{
    if words.len() == 0 {
        Seq::empty()
    } else {
        let k = words.len() - 1;
        let n: nat = if k < gaps.len() && gaps[k] >= 0 { gaps[k] as nat } else { 0 };
        joined(words.drop_last(), gaps) + words.last() + spaces(n)
    }
}

/// Number of spaces in `s`.
pub open spec fn count_spaces(s: Seq<char>) -> int
    decreases s.len(),
{
    if s.len() == 0 { 0 } else { count_spaces(s.drop_last()) + (if s.last() == ' ' { 1int } else { 0int }) }
}

/// Sum of the first `m` values.
pub open spec fn sum_first(g: Seq<int>, m: int) -> int
    decreases m,
{
    if m <= 0 || g.len() == 0 {
        0
    } else if m > g.len() {
        sum_first(g, g.len() as int)
    } else {
        sum_first(g, m - 1) + g[m - 1]
    }
}

/// Total number of characters of the fragments before fragment `i`.
pub open spec fn text_before(spans: Seq<(Seq<char>, Option<TextStyle>)>, i: int) -> int
    decreases i,
{
    if i <= 0 || i > spans.len() { 0 } else { text_before(spans, i - 1) + spans[i - 1].0.len() }
}

/// Where character offset `p` of a line lands once its gaps hold `gaps`
/// spaces: the extra spaces of the gaps before it are added.
pub open spec fn moved(line: Seq<char>, gaps: Seq<int>, p: int) -> int {
    let before = count_spaces(line.take(if p <= line.len() { p } else { line.len() as int }));
    let m = if before <= gaps.len() { before } else { gaps.len() as int };
    let extra = sum_first(gaps, m) - before;
    p + (if extra > 0 { extra } else { 0 })
}

/// The characters `a..b` of `s`, both clipped to its length.
pub open spec fn clipped(s: Seq<char>, a: int, b: int) -> Seq<char> {
    let x = if a <= s.len() { a } else { s.len() as int };
    let y = if b <= s.len() { b } else { s.len() as int };
    s.subrange(x, y)
}

impl Typography {
    /// Total width of the words.
    pub open spec fn words_width(&self, words: Seq<Seq<char>>) -> int
        decreases words.len(),
    {
        if words.len() == 0 { 0 } else { self.words_width(words.drop_last()) + self.text_width(words.last()) }
    }

    /// Full justification of `line` to `width` cells: extra spaces are
    /// handed out to the gaps between its words until the words and spaces
    /// fill the width, and each fragment takes the stretch of the widened
    /// line that its characters moved to. A line of one word is left as it is.
    pub open spec fn justified(
        &self,
        width: int,
        line: Seq<char>,
        spans: Seq<(Seq<char>, Option<TextStyle>)>,
    ) -> Seq<(Seq<char>, Option<TextStyle>)> {
        let l = trim_end(line);
        let words = split_on(l, ' ');
        if words.len() <= 1 {
            spans
        } else {
            let ns = (words.len() - 1) as nat;
            let e = extra_from(self.words_width(words), ns as int, self.font.space() as int, width, 0);
            let gaps = gap_spaces(ns, e as nat);
            let adjusted = joined(words, gaps);
            Seq::new(spans.len(), |i: int| {
                let pos = text_before(spans, i);
                let end = pos + spans[i].0.len();
                (clipped(adjusted, moved(l, gaps, pos), moved(l, gaps, end)), spans[i].1)
            })
        }
    }

    /// Justification ends: there is a space width, or the words fill the line already.
    pub open spec fn justify_ends(&self, width: int, line: Seq<char>) -> bool {
        let words = split_on(trim_end(line), ' ');
        words.len() <= 1 || self.font.space() > 0 || self.words_width(words) >= width
    }
}

pub proof fn lemma_gap_spaces(ns: nat, e: nat)
    requires
        ns >= 1,
    ensures
        gap_state(ns, e).0.len() == ns,
        0 <= gap_state(ns, e).1 < ns,
        forall|i: int| 0 <= i < ns ==> 1 <= #[trigger] gap_state(ns, e).0[i] <= 1 + e,
    decreases e,
{
    if e > 0 {
        lemma_gap_spaces(ns, (e - 1) as nat);
        let (g, i) = gap_state(ns, (e - 1) as nat);
        let idx = ns - i - 1;
        assert forall|k: int| 0 <= k < ns implies 1 <= #[trigger] gap_state(ns, e).0[k] <= 1 + e by {
            assert(gap_state(ns, e).0 == g.update(idx, g[idx] + 1));
        }
    }
}

impl Typography {
    /// Full justification: expand spaces to fill `width`.
    pub fn justify_full(&self, width: usize, line: &str, spans: Vec<(String, Option<TextStyle>)>) -> (r: Vec<(String, Option<TextStyle>)>)
        requires
            self.measurable(line@.len() as int),
            self.justify_ends(width as int, line@),
            text_before(frag_view(spans@), spans@.len() as int) <= usize::MAX,
        ensures
            r@.len() == spans@.len(),
            forall|i: int| 0 <= i < r@.len() ==> (r@[i].0@, r@[i].1) == #[trigger] self.justified(width as int,
                line@, frag_view(spans@))[i],
    {
        let ghost sv = frag_view(spans@);
        let lc = str_chars(line);
        let lv = trim_end_chars(lc.as_slice());
        let ghost l = trim_end(line@);
        let words = split_chars_on(lv.as_slice(), ' ');
        let ghost ws = split_on(l, ' ');
        if words.len() <= 1 {
            return spans;
        }
        proof {
            lemma_split_on_total(l, ' ');
            crate::text::lemma_trim_end_len(line@);
            crate::text::lemma_total_len_nonneg(ws);
        }
        let ns = words.len() - 1;
        let sw = self.font.space_width();
        let ghost big = (2 * line@.len() + 1) * self.step();
        proof {
            self.lemma_step_nonneg();
        }
        // total width of the words
        let mut wsum: u128 = 0;
        let mut k: usize = 0;
        while k < words.len()
            invariant
                self.measurable(line@.len() as int),
                big == (2 * line@.len() + 1) * self.step(),
                big <= i32::MAX,
                words@.len() == ws.len(),
                forall|q: int| 0 <= q < words@.len() ==> #[trigger] words@[q]@ == ws[q],
                total_len(ws) + ws.len() - 1 == l.len(),
                l.len() <= line@.len(),
                k <= ws.len(),
                wsum == self.words_width(ws.take(k as int)),
                wsum <= k * big,
            decreases ws.len() - k,
        {
            proof {
                lemma_total_len_elem(ws, k as int);
                assert(ws.take(k + 1).drop_last() =~= ws.take(k as int));
                assert(ws.take(k + 1).last() == ws[k as int]);
            }
            let wstr = string_from_chars(words[k].as_slice());
            proof {
                self.lemma_measurable_le(line@.len() as int, ws[k as int].len() as int);
                self.lemma_measurable_step(line@.len() as int, 2 * ws[k as int].len() as int + 1);
                assert(wsum <= 18446744073709551615 * 2147483647) by (nonlinear_arith)
                    requires wsum <= k * big, k <= 18446744073709551615, 0 <= big <= 2147483647;
            }
            let ww = self.rendered_width(wstr.as_str());
            wsum = wsum + ww as u128;
            assert(k * big + big == (k + 1) * big) by (nonlinear_arith);
            k = k + 1;
        }
        assert(ws.take(k as int) =~= ws);
        // hand out extra spaces from the right
        let mut gaps: Vec<usize> = Vec::new();
        let mut q: usize = 0;
        while q < ns
            invariant
                q <= ns,
                gaps@.len() == q,
                forall|i: int| 0 <= i < q ==> #[trigger] gaps@[i] == 1,
            decreases ns - q,
        {
            gaps.push(1);
            q = q + 1;
        }
        let ghost wtot = self.words_width(ws);
        let mut total: u128 = ns as u128;
        proof {
            crate::text::lemma_total_len_nonneg(ws);
            assert(ns * sw <= usize::MAX * usize::MAX) by (nonlinear_arith)
                requires ns <= usize::MAX, sw <= usize::MAX;
            assert(usize::MAX * usize::MAX <= 18446744073709551615 * 18446744073709551615) by (nonlinear_arith);
            assert(wsum <= usize::MAX * i32::MAX) by (nonlinear_arith)
                requires wsum <= k * big, k <= usize::MAX, 0 <= big <= i32::MAX;
        }
        let mut spread: u128 = ns as u128 * sw as u128;
        let mut index: usize = 0;
        let ghost mut e: nat = 0;
        proof {
            lemma_gap_spaces(ns as nat, 0);
            assert(Seq::new(gaps@.len(), |i: int| gaps@[i] as int) =~= gap_spaces(ns as nat, 0));
        }
        while spread < width as u128 && wsum < width as u128 - spread
            invariant
                self.justify_ends(width as int, line@),
                ws == split_on(trim_end(line@), ' '),
                ws.len() == ns + 1,
                ns >= 1,
                wsum == wtot,
                wtot == self.words_width(ws),
                sw == self.font.space(),
                e <= width,
                total == ns + e,
                spread == total * sw,
                spread <= usize::MAX + sw || e == 0,
                spread <= usize::MAX * usize::MAX || e > 0,
                index == gap_state(ns as nat, e).1,
                gaps@.len() == ns,
                Seq::new(gaps@.len(), |i: int| gaps@[i] as int) == gap_spaces(ns as nat, e),
                forall|i: int| 0 <= i < ns ==> #[trigger] gaps@[i] <= 1 + e,
                extra_from(wtot, ns as int, sw as int, width as int, 0) == extra_from(wtot, ns as int, sw as int, width as int, e as int),
                wsum <= usize::MAX * i32::MAX,
            decreases width - e,
        {
            proof {
                assert(sw > 0);
                assert((ns + e) * sw >= ns + e) by (nonlinear_arith)
                    requires sw >= 1, ns + e >= 0;
                assert(e + 1 < width);
                assert(ns <= usize::MAX);
            }
            let ghost g = gap_spaces(ns as nat, e);
            proof {
                lemma_gap_spaces(ns as nat, e);
            }
            let idx = ns - index - 1;
            assert(gaps@[idx as int] == g[idx as int]);
            gaps.set(idx, gaps[idx] + 1);
            total = total + 1;
            spread = spread + sw as u128;
            index = if index + 1 < ns { index + 1 } else { 0 };
            proof {
                e = e + 1;
                lemma_gap_spaces(ns as nat, e);
                assert(gap_spaces(ns as nat, e) == g.update(idx as int, g[idx as int] + 1));
                assert(Seq::new(gaps@.len(), |i: int| gaps@[i] as int) =~= gap_spaces(ns as nat, e));
                assert forall|i: int| 0 <= i < ns implies #[trigger] gaps@[i] <= 1 + e by {
                    assert(gaps@[i] as int == gap_spaces(ns as nat, e)[i]);
                }
                assert(spread == total * sw) by (nonlinear_arith)
                    requires spread == (total - 1) * sw + sw;
            }
        }
        let ghost gs = gap_spaces(ns as nat, e);
        proof {
            lemma_gap_spaces(ns as nat, e);
            assert(extra_from(wtot, ns as int, sw as int, width as int, e as int) == e as int);
        }
        let ghost spec_gaps = gap_spaces(ns as nat, extra_from(self.words_width(ws), ns as int, self.font.space() as int, width as int, 0) as nat);
        assert(spec_gaps == gs);
        // the widened line
        let mut adj: Vec<char> = Vec::new();
        let mut k: usize = 0;
        while k < words.len()
            invariant
                words@.len() == ws.len(),
                forall|q: int| 0 <= q < words@.len() ==> #[trigger] words@[q]@ == ws[q],
                ws.len() == ns + 1,
                gaps@.len() == ns,
                Seq::new(gaps@.len(), |i: int| gaps@[i] as int) == gs,
                k <= ws.len(),
                adj@ == joined(ws.take(k as int), gs),
            decreases ws.len() - k,
        {
            let ghost before = adj@;
            let mut c: usize = 0;
            while c < words[k].len()
                invariant
                    k < words@.len(),
                    c <= words@[k as int]@.len(),
                    adj@ == before + words@[k as int]@.take(c as int),
                decreases words@[k as int]@.len() - c,
            {
                adj.push(words[k][c]);
                c = c + 1;
                assert(adj@ =~= before + words@[k as int]@.take(c as int));
            }
            assert(words@[k as int]@.take(c as int) =~= words@[k as int]@);
            let ghost mid = adj@;
            let n = if k < ns { gaps[k] } else { 0 };
            let mut c2: usize = 0;
            while c2 < n
                invariant
                    c2 <= n,
                    adj@ == mid + spaces(c2 as nat),
                decreases n - c2,
            {
                adj.push(' ');
                c2 = c2 + 1;
                assert(adj@ =~= mid + spaces(c2 as nat));
            }
            proof {
                let t = ws.take(k + 1);
                assert(t.drop_last() =~= ws.take(k as int));
                assert(t.last() == ws[k as int]);
                if k < ns {
                    assert(gs[k as int] == gaps@[k as int] as int);
                }
                assert(adj@ =~= joined(t, gs));
            }
            k = k + 1;
        }
        assert(ws.take(k as int) =~= ws);
        let alen = adj.len();
        // move the fragments
        let mut result: Vec<(String, Option<TextStyle>)> = Vec::new();
        let mut pos: usize = 0;
        let mut i: usize = 0;
        while i < spans.len()
            invariant
                i <= sv.len(),
                sv == frag_view(spans@),
                text_before(sv, sv.len() as int) <= usize::MAX,
                pos == text_before(sv, i as int),
                lv@ == l,
                l == trim_end(line@),
                ws == split_on(l, ' '),
                ws.len() == ns + 1,
                gaps@.len() == ns,
                Seq::new(gaps@.len(), |q: int| gaps@[q] as int) == gs,
                forall|q: int| 0 <= q < gs.len() ==> 1 <= #[trigger] gs[q],
                forall|q: int| 0 <= q < ns ==> #[trigger] gaps@[q] <= 1 + e,
                e <= width,
                adj@ == joined(ws, gs),
                alen == adj@.len(),
                gs == gap_spaces(ns as nat, extra_from(self.words_width(ws), ns as int, self.font.space() as int, width as int, 0) as nat),
                ws.len() > 1,
                result@.len() == i,
                forall|q: int| 0 <= q < i ==> (result@[q].0@, result@[q].1) == #[trigger] self.justified(width as int, line@, sv)[q],
            decreases sv.len() - i,
        {
            proof {
                lemma_text_before_mono(sv, i + 1, sv.len() as int);
            }
            let tl = str_chars(spans[i].0.as_str()).len();
            let end = pos + tl;
            let a = self.moved_offset(&lv, &gaps, pos, Ghost(e));
            let b = self.moved_offset(&lv, &gaps, end, Ghost(e));
            let x = if a <= alen as u128 { a as usize } else { alen };
            let y = if b <= alen as u128 { b as usize } else { alen };
            proof {
                lemma_moved_mono(l, gs, pos as int, end as int);
            }
            assert(Seq::new(gaps@.len(), |q: int| gaps@[q] as int) =~= gs);
            let piece = string_from_chars(&adj.as_slice()[x..y]);
            result.push((piece, spans[i].1));
            proof {
                assert(sv[i as int] == (spans@[i as int].0@, spans@[i as int].1));
                assert(adj@.subrange(x as int, y as int) == clipped(joined(ws, gs), moved(l, gs, pos as int), moved(l, gs, end as int)));
                let jj = self.justified(width as int, line@, sv);
                assert(jj[i as int] == (clipped(joined(ws, gs), moved(l, gs, pos as int), moved(l, gs, end as int)), sv[i as int].1));
                assert forall|q: int| 0 <= q < i + 1 implies (result@[q].0@, result@[q].1) == #[trigger] jj[q] by {
                    if q < i {
                    }
                }
            }
            pos = end;
            i = i + 1;
        }
        result
    }

    /// Where offset `p` of the line `lv` lands once its gaps hold `gaps` spaces.
    fn moved_offset(&self, lv: &Vec<char>, gaps: &Vec<usize>, p: usize, Ghost(e): Ghost<nat>) -> (r: u128)
        requires
            forall|q: int| 0 <= q < gaps@.len() ==> #[trigger] gaps@[q] <= 1 + e,
            e <= usize::MAX,
        ensures
            r == moved(lv@, Seq::new(gaps@.len(), |q: int| gaps@[q] as int), p as int),
    {
        let ghost g = Seq::new(gaps@.len(), |q: int| gaps@[q] as int);
        let upto = if p <= lv.len() { p } else { lv.len() };
        let mut before: usize = 0;
        let mut c: usize = 0;
        while c < upto
            invariant
                upto <= lv@.len(),
                c <= upto,
                before == count_spaces(lv@.take(c as int)),
                before <= c,
            decreases upto - c,
        {
            assert(lv@.take(c + 1).drop_last() =~= lv@.take(c as int));
            if lv[c] == ' ' {
                before = before + 1;
            }
            c = c + 1;
        }
        let m = if before <= gaps.len() { before } else { gaps.len() };
        let mut sum: u128 = 0;
        let mut j: usize = 0;
        while j < m
            invariant
                g == Seq::new(gaps@.len(), |q: int| gaps@[q] as int),
                m <= gaps@.len(),
                forall|q: int| 0 <= q < gaps@.len() ==> #[trigger] gaps@[q] <= 1 + e,
                e <= usize::MAX,
                j <= m,
                sum == sum_first(g, j as int),
                sum <= j * (1 + e),
            decreases m - j,
        {
            assert((j + 1) * (1 + e) <= usize::MAX * (1 + usize::MAX)) by (nonlinear_arith)
                requires j + 1 <= usize::MAX, e <= usize::MAX;
            assert(usize::MAX * (1 + usize::MAX) <= 18446744073709551615 * 18446744073709551616) by (nonlinear_arith);
            assert(sum_first(g, j + 1) == sum_first(g, j as int) + g[j as int]);
            assert(j * (1 + e) + (1 + e) == (j + 1) * (1 + e)) by (nonlinear_arith);
            sum = sum + gaps[j] as u128;
            j = j + 1;
        }
        let extra: u128 = if sum > before as u128 { sum - before as u128 } else { 0 };
        assert(j * (1 + e) <= usize::MAX * (1 + usize::MAX)) by (nonlinear_arith)
            requires j <= usize::MAX, e <= usize::MAX;
        assert(usize::MAX * (1 + usize::MAX) <= 18446744073709551615 * 18446744073709551616) by (nonlinear_arith);
        p as u128 + extra
    }
}

pub proof fn lemma_text_before_mono(spans: Seq<(Seq<char>, Option<TextStyle>)>, i: int, j: int)
    requires
        0 <= i <= j <= spans.len(),
    ensures
        0 <= text_before(spans, i) <= text_before(spans, j),
    decreases j - i,
{
    if i < j {
        lemma_text_before_mono(spans, i, j - 1);
    } else {
        lemma_text_before_nonneg(spans, i);
    }
}

pub proof fn lemma_text_before_nonneg(spans: Seq<(Seq<char>, Option<TextStyle>)>, i: int)
    ensures
        0 <= text_before(spans, i),
    decreases i,
{
    if 0 < i <= spans.len() {
        lemma_text_before_nonneg(spans, i - 1);
    }
}

proof fn lemma_count_spaces_mono(s: Seq<char>, a: int, b: int)
    requires
        0 <= a <= b <= s.len(),
    ensures
        count_spaces(s.take(a)) <= count_spaces(s.take(b)),
        count_spaces(s.take(b)) - count_spaces(s.take(a)) <= b - a,
    decreases b - a,
{
    if a < b {
        lemma_count_spaces_mono(s, a, b - 1);
        assert(s.take(b).drop_last() =~= s.take(b - 1));
    }
}

proof fn lemma_sum_first_mono(g: Seq<int>, a: int, b: int)
    requires
        0 <= a <= b <= g.len(),
        forall|i: int| 0 <= i < g.len() ==> 1 <= #[trigger] g[i],
    ensures
        sum_first(g, b) - sum_first(g, a) >= b - a,
    decreases b - a,
{
    if a < b {
        lemma_sum_first_mono(g, a, b - 1);
    }
}

/// Moving offsets keeps them in order.
pub proof fn lemma_moved_mono(l: Seq<char>, gaps: Seq<int>, p: int, q: int)
    requires
        0 <= p <= q,
        forall|i: int| 0 <= i < gaps.len() ==> 1 <= #[trigger] gaps[i],
    ensures
        moved(l, gaps, p) <= moved(l, gaps, q),
{
    let pp = if p <= l.len() { p } else { l.len() as int };
    let qq = if q <= l.len() { q } else { l.len() as int };
    lemma_count_spaces_mono(l, pp, qq);
    lemma_count_spaces_mono(l, 0, pp);
    assert(l.take(0) =~= Seq::<char>::empty());
    let bp = count_spaces(l.take(pp));
    let bq = count_spaces(l.take(qq));
    let mp = if bp <= gaps.len() { bp } else { gaps.len() as int };
    let mq = if bq <= gaps.len() { bq } else { gaps.len() as int };
    lemma_sum_first_mono(gaps, 0, mp);
    lemma_sum_first_mono(gaps, mp, mq);
    lemma_sum_first_mono(gaps, 0, mq);
}

pub proof fn lemma_extra_from_le(w: int, ns: int, sw: int, width: int, e: int)
    requires
        0 <= e <= width,
    ensures
        e <= extra_from(w, ns, sw, width, e) <= width,
    decreases width - e,
{
    if !(w + (ns + e) * sw >= width || e >= width || sw <= 0) {
        lemma_extra_from_le(w, ns, sw, width, e + 1);
    }
}

proof fn lemma_sum_first_update(g: Seq<int>, i: int, v: int, m: int)
    requires
        0 <= i < g.len(),
        0 <= m <= g.len(),
    ensures
        sum_first(g.update(i, v), m) == sum_first(g, m) + (if i < m { v - g[i] } else { 0 }),
    decreases m,
{
    if m > 0 {
        lemma_sum_first_update(g, i, v, m - 1);
    }
}

pub proof fn lemma_gap_sum(ns: nat, e: nat)
    requires
        ns >= 1,
    ensures
        sum_first(gap_spaces(ns, e), ns as int) == ns + e,
    decreases e,
{
    lemma_gap_spaces(ns, e);
    if e == 0 {
        lemma_sum_first_ones(ns, ns as int);
    } else {
        lemma_gap_sum(ns, (e - 1) as nat);
        lemma_gap_spaces(ns, (e - 1) as nat);
        let (g, i) = gap_state(ns, (e - 1) as nat);
        let idx = ns - i - 1;
        lemma_sum_first_update(g, idx, g[idx] + 1, ns as int);
    }
}

pub proof fn lemma_sum_first_ones(ns: nat, m: int)
    requires
        0 <= m <= ns,
    ensures
        sum_first(Seq::new(ns, |_i: int| 1int), m) == m,
    decreases m,
{
    if m > 0 {
        lemma_sum_first_ones(ns, m - 1);
    }
}

pub proof fn lemma_joined_len(words: Seq<Seq<char>>, gaps: Seq<int>)
    requires
        words.len() <= gaps.len() + 1,
        forall|i: int| 0 <= i < gaps.len() ==> 0 <= #[trigger] gaps[i],
    ensures
        joined(words, gaps).len() == total_len(words) + sum_first(gaps, words.len() as int),
    decreases words.len(),
{
    if words.len() > 0 {
        lemma_joined_len(words.drop_last(), gaps);
    }
}

pub proof fn lemma_moved_zero(l: Seq<char>, gaps: Seq<int>)
    ensures
        moved(l, gaps, 0) == 0,
{
    assert(l.take(0) =~= Seq::<char>::empty());
}

impl Typography {
    /// The justified fragments are as many as the fragments given; for a
    /// line of several words they hold no more characters than the trimmed
    /// line and the width together.
    pub proof fn lemma_justified_total(&self, width: int, line: Seq<char>, spans: Seq<(Seq<char>, Option<TextStyle>)>)
        requires
            width >= 0,
        ensures
            self.justified(width, line, spans).len() == spans.len(),
            split_on(trim_end(line), ' ').len() <= 1 ==> self.justified(width, line, spans) == spans,
            split_on(trim_end(line), ' ').len() > 1 ==> text_before(self.justified(width, line, spans), spans.len() as int)
                <= trim_end(line).len() + width,
    {
        let l = trim_end(line);
        let words = split_on(l, ' ');
        if words.len() > 1 {
            let ns = (words.len() - 1) as nat;
            let e = extra_from(self.words_width(words), ns as int, self.font.space() as int, width, 0);
            lemma_extra_from_le(self.words_width(words), ns as int, self.font.space() as int, width, 0);
            let gaps = gap_spaces(ns, e as nat);
            lemma_gap_spaces(ns, e as nat);
            lemma_gap_sum(ns, e as nat);
            lemma_joined_len(words, gaps);
            lemma_split_on_total(l, ' ');
            let adj = joined(words, gaps);
            assert(sum_first(gaps, words.len() as int) == sum_first(gaps, ns as int));
            assert(adj.len() == l.len() + e);
            let jj = self.justified(width, line, spans);
            lemma_moved_zero(l, gaps);
            assert forall|k: int| 0 <= k <= spans.len() implies #[trigger] text_before(jj, k) == {
                let m = moved(l, gaps, text_before(spans, k));
                if m <= adj.len() { m } else { adj.len() as int }
            } by {
                self.lemma_justified_prefix(width, line, spans, k);
            }
        }
    }

    pub proof fn lemma_justified_prefix(&self, width: int, line: Seq<char>, spans: Seq<(Seq<char>, Option<TextStyle>)>, k: int)
        requires
            width >= 0,
            0 <= k <= spans.len(),
            split_on(trim_end(line), ' ').len() > 1,
        ensures
            ({
                let l = trim_end(line);
                let words = split_on(l, ' ');
                let ns = (words.len() - 1) as nat;
                let e = extra_from(self.words_width(words), ns as int, self.font.space() as int, width, 0);
                let gaps = gap_spaces(ns, e as nat);
                let adj = joined(words, gaps);
                let m = moved(l, gaps, text_before(spans, k));
                text_before(self.justified(width, line, spans), k) == if m <= adj.len() { m } else { adj.len() as int }
            }),
        decreases k,
    {
        let l = trim_end(line);
        let words = split_on(l, ' ');
        let ns = (words.len() - 1) as nat;
        let e = extra_from(self.words_width(words), ns as int, self.font.space() as int, width, 0);
        let gaps = gap_spaces(ns, e as nat);
        lemma_gap_spaces(ns, e as nat);
        let jj = self.justified(width, line, spans);
        if k == 0 {
            lemma_moved_zero(l, gaps);
        } else {
            self.lemma_justified_prefix(width, line, spans, k - 1);
            lemma_text_before_nonneg(spans, k - 1);
            lemma_moved_mono(l, gaps, text_before(spans, k - 1), text_before(spans, k));
            assert(text_before(spans, k) == text_before(spans, k - 1) + spans[k - 1].0.len());
        }
    }
}

} // verus!
