use vstd::prelude::*;

use crate::glyph::{GlyphEntry, has_key, insert_all, insert_entry, keys_unique, lemma_insert_all, lemma_insert_entry, lookup};
use crate::layout::{bg_offset, fg_boundary_at, lead, lemma_bg_shift_range, max_overlap, merged, merged_line, spaces, trail};
use crate::ligature::{
    byte_len, byte_offset, char_at_byte, char_index_or, is_boundary, lemma_boundary_chars, lemma_byte_offset_increasing,
    lemma_char_at_byte, matches_well_formed, pieces_by_char, pieces_upto, pieces_with_matches, single_pieces,
};
use crate::justify::{extra_from, gap_spaces, gap_state, sum_first};
use crate::measure::piece_keys;
use crate::text::{split_on, trim_end};
use crate::style::{Span, TextStyle, combined, null_style};
use crate::typography::{Typography, clipped_spans, is_control_code, strip_controls};

verus! {

/// A glyph stored under a key is what a lookup of that key gives back.
pub proof fn law_glyph_read_after_insert(e: Seq<GlyphEntry>, k: Seq<char>, v: Seq<Seq<char>>, q: Seq<char>)
    requires
        keys_unique(e),
    ensures
        lookup(insert_entry(e, k, v), k) == Some(v),
        q != k ==> lookup(insert_entry(e, k, v), q) == lookup(e, q),
        keys_unique(insert_entry(e, k, v)),
{
    lemma_insert_entry(e, k, v);
}

/// Extending a glyph map with another one: a key the other map has takes
/// its glyph from there, any other key keeps its glyph.
pub proof fn law_extend_right_wins(e: Seq<GlyphEntry>, other: Seq<GlyphEntry>, q: Seq<char>)
    requires
        keys_unique(e),
    ensures
        lookup(insert_all(e, other), q) == if lookup(other, q) is Some { lookup(other, q) } else { lookup(e, q) },
{
    lemma_insert_all(e, other);
}

/// The foreground and background boundaries never lie past the end of the
/// left glyph's row.
pub proof fn law_boundaries_not_positive(left: Seq<Seq<char>>, right: Seq<Seq<char>>, spacing: int, i: int)
    ensures
        fg_boundary_at(left, right, spacing, i) <= 0,
        bg_offset(left, right, spacing) <= 0,
{
    let a = if spacing >= 0 { spacing } else { -spacing };
    lemma_bg_shift_range(left, right, a, 0);
}

/// Combining with the null style changes nothing, on either side.
pub proof fn law_null_style_identity(a: TextStyle)
    ensures
        combined(a, null_style()) == a,
        combined(null_style(), a) == a,
{
}

/// Combining styles is associative.
pub proof fn law_combine_associative(a: TextStyle, b: TextStyle, c: TextStyle)
    ensures
        combined(combined(a, b), c) == combined(a, combined(b, c)),
{
}

/// The characters of a row that are all trailing spaces.
proof fn lemma_trail_spaces(s: Seq<char>)
    ensures
        trail(s) <= s.len(),
        forall|j: int| s.len() - trail(s) <= j < s.len() ==> s[j] == ' ',
    decreases s.len(),
{
    if s.len() > 0 && s.last() == ' ' {
        lemma_trail_spaces(s.drop_last());
        assert forall|j: int| s.len() - trail(s) <= j < s.len() implies s[j] == ' ' by {
            if j < s.len() - 1 {
                assert(s[j] == s.drop_last()[j]);
            }
        }
    }
}

/// The characters of a row that are all leading spaces.
proof fn lemma_lead_spaces(s: Seq<char>)
    ensures
        lead(s) <= s.len(),
        forall|j: int| 0 <= j < lead(s) ==> s[j] == ' ',
    decreases s.len(),
{
    if s.len() > 0 && s.first() == ' ' {
        lemma_lead_spaces(s.drop_first());
        assert forall|j: int| 0 <= j < lead(s) implies s[j] == ' ' by {
            if j > 0 {
                assert(s[j] == s.drop_first()[j - 1]);
            }
        }
    }
}

/// Overlapping two rows by no more than the trailing spaces of the left one
/// and the leading spaces of the right one together only removes spaces:
/// every other character of both rows stays, in place.
pub proof fn law_overlap_keeps_characters(l: Seq<char>, r: Seq<char>, o: int)
    requires
        0 <= o <= trail(l) + lead(r),
        o <= l.len(),
        o <= r.len(),
    ensures
        merged_line(l, r, -o) == l.take(l.len() - trail(l)) + spaces((trail(l) + lead(r) - o) as nat) + r.skip(lead(r) as int),
{
    lemma_trail_spaces(l);
    lemma_lead_spaces(r);
    let t = trail(l) as int;
    let d = lead(r) as int;
    let n = l.len() as int;
    let m = merged_line(l, r, -o);
    let want = l.take(n - t) + spaces((t + d - o) as nat) + r.skip(d);
    if o == 0 {
        assert(m == l + spaces(0) + r);
        assert forall|q: int| 0 <= q < want.len() implies m[q] == want[q] by {
            if q < n - t {
            } else if q < n + d {
                if q < n {
                    assert(l[q] == ' ');
                } else {
                    assert(r[q - n] == ' ');
                }
            }
        }
        assert(m =~= want);
    } else {
        let s = n - o;
        assert(m.len() == want.len());
        assert forall|q: int| 0 <= q < want.len() implies m[q] == want[q] by {
            if q < s {
                assert(m[q] == l[q]);
                if q >= n - t {
                    assert(l[q] == ' ');
                }
            } else if q < n {
                let i = q - s;
                assert(m[q] == crate::layout::overlay_char(crate::layout::char_or_space(l, s + i), crate::layout::char_or_space(r, i)));
                if q >= n - t {
                    assert(l[q] == ' ');
                    if i < d {
                        assert(r[i] == ' ');
                    }
                } else {
                    assert(i < d);
                    assert(r[i] == ' ');
                }
            } else {
                assert(m[q] == r[q - s]);
                if q - s < d {
                    assert(r[q - s] == ' ');
                }
            }
        }
        assert(m =~= want);
    }
}

/// The keys of pieces written one after another.
pub open spec fn joined_keys(p: Seq<(int, Seq<char>)>) -> Seq<char>
    decreases p.len(),
{
    if p.len() == 0 { Seq::empty() } else { joined_keys(p.drop_last()) + p.last().1 }
}

proof fn lemma_joined_keys_concat(a: Seq<(int, Seq<char>)>, b: Seq<(int, Seq<char>)>)
    ensures
        joined_keys(a + b) == joined_keys(a) + joined_keys(b),
    decreases b.len(),
{
    if b.len() == 0 {
        assert(a + b =~= a);
        assert(joined_keys(a) + joined_keys(b) =~= joined_keys(a));
    } else {
        lemma_joined_keys_concat(a, b.drop_last());
        assert((a + b).drop_last() =~= a + b.drop_last());
        assert(joined_keys(a) + joined_keys(b.drop_last()) + b.last().1 =~= joined_keys(a) + (joined_keys(b.drop_last())
            + b.last().1));
    }
}

proof fn lemma_single_pieces_keys(s: Seq<char>, from: int, to: int)
    requires
        0 <= from <= to <= s.len(),
    ensures
        joined_keys(single_pieces(s, from, to)) == s.subrange(from, to),
    decreases to - from,
{
    if to > from {
        lemma_single_pieces_keys(s, from, to - 1);
        assert(single_pieces(s, from, to).drop_last() =~= single_pieces(s, from, to - 1));
        assert(s.subrange(from, to) =~= s.subrange(from, to - 1) + seq![s[to - 1]]);
    } else {
        assert(single_pieces(s, from, to) =~= Seq::<(int, Seq<char>)>::empty());
        assert(s.subrange(from, to) =~= Seq::<char>::empty());
    }
}

/// Splitting character by character gives back the text.
pub proof fn law_pieces_by_char_cover(s: Seq<char>)
    ensures
        joined_keys(pieces_by_char(s)) == s,
{
    lemma_pieces_by_char_prefix(s, s.len() as int);
    assert(s.take(s.len() as int) =~= s);
    assert(pieces_by_char(s).take(s.len() as int) =~= pieces_by_char(s));
}

proof fn lemma_pieces_by_char_prefix(s: Seq<char>, k: int)
    requires
        0 <= k <= s.len(),
    ensures
        joined_keys(pieces_by_char(s).take(k)) == s.take(k),
    decreases k,
{
    if k > 0 {
        lemma_pieces_by_char_prefix(s, k - 1);
        assert(pieces_by_char(s).take(k).drop_last() =~= pieces_by_char(s).take(k - 1));
        assert(s.take(k) =~= s.take(k - 1) + seq![s[k - 1]]);
    } else {
        assert(s.take(0) =~= Seq::<char>::empty());
    }
}

proof fn lemma_pieces_upto_cover(s: Seq<char>, ms: Seq<(usize, usize)>, n: nat)
    requires
        matches_well_formed(s, ms),
        n <= ms.len(),
    ensures
        n > 0 ==> is_boundary(s, pieces_upto(s, ms, n).1),
        n == 0 ==> pieces_upto(s, ms, n).1 == 0,
        n < ms.len() ==> pieces_upto(s, ms, n).1 <= ms[n as int].0,
        joined_keys(pieces_upto(s, ms, n).0) == s.take(char_at_byte(s, pieces_upto(s, ms, n).1)),
        0 <= char_at_byte(s, pieces_upto(s, ms, n).1) <= s.len(),
    decreases n,
{
    if n == 0 {
        assert(byte_offset(s, 0) == 0);
        lemma_char_at_byte(s, 0);
        assert(s.take(0) =~= Seq::<char>::empty());
    } else {
        lemma_pieces_upto_cover(s, ms, (n - 1) as nat);
        let (p, lb) = pieces_upto(s, ms, (n - 1) as nat);
        let m = ms[n - 1];
        if n - 1 == 0 {
            assert(byte_offset(s, 0) == 0);
            assert(is_boundary(s, 0));
        }
        lemma_boundary_chars(s, lb, m.0 as int);
        lemma_boundary_chars(s, m.0 as int, m.1 as int);
        let c0 = char_at_byte(s, lb);
        let c1 = char_at_byte(s, m.0 as int);
        let c2 = char_at_byte(s, m.1 as int);
        let from = char_index_or(s, lb, 0);
        let singles = if lb < byte_len(s) { single_pieces(s, from, c1) } else { Seq::empty() };
        let lig = (char_index_or(s, m.0 as int, 0), s.subrange(c1, c2));
        if lb < byte_len(s) {
            lemma_single_pieces_keys(s, c0, c1);
        } else {
            lemma_char_at_byte(s, s.len() as int);
            assert(byte_len(s) == byte_offset(s, s.len() as int));
            if c0 < s.len() {
                lemma_byte_offset_increasing(s, c0, s.len() as int);
            }
            if c1 < s.len() {
                lemma_byte_offset_increasing(s, c1, s.len() as int);
            }
            assert(singles =~= Seq::<(int, Seq<char>)>::empty());
            assert(s.subrange(c0, c1) =~= Seq::<char>::empty());
        }
        lemma_joined_keys_concat(p + singles, seq![lig]);
        lemma_joined_keys_concat(p, singles);
        let one: Seq<(int, Seq<char>)> = seq![lig];
        assert(one.drop_last() =~= Seq::<(int, Seq<char>)>::empty());
        assert(joined_keys(one.drop_last()) =~= Seq::<char>::empty());
        assert(one.last().1 == s.subrange(c1, c2));
        assert(joined_keys(one) == joined_keys(one.drop_last()) + one.last().1);
        assert(joined_keys(one) =~= s.subrange(c1, c2));
        assert(s.take(c0) + s.subrange(c0, c1) + s.subrange(c1, c2) =~= s.take(c2));
    }
}

/// With well-formed matches, the pieces with ligatures give back the text.
pub proof fn law_pieces_with_matches_cover(s: Seq<char>, ms: Seq<(usize, usize)>)
    requires
        matches_well_formed(s, ms),
    ensures
        joined_keys(pieces_with_matches(s, ms)) == s,
{
    lemma_pieces_upto_cover(s, ms, ms.len());
    let (p, lb) = pieces_upto(s, ms, ms.len());
    let c = char_at_byte(s, lb);
    let start = char_index_or(s, lb, s.len() as int);
    if ms.len() == 0 {
        assert(byte_offset(s, 0) == 0);
        lemma_char_at_byte(s, 0);
    }
    if lb >= byte_len(s) {
        lemma_char_at_byte(s, s.len() as int);
        if c < s.len() {
            lemma_byte_offset_increasing(s, c, s.len() as int);
        }
    }
    lemma_single_pieces_keys(s, start, s.len() as int);
    lemma_joined_keys_concat(p, single_pieces(s, start, s.len() as int));
    assert(s.take(c) + s.subrange(c, s.len() as int) =~= s);
}

impl Typography {
    /// The glyph keys of a text, written one after another, give back the
    /// text, whenever the ligature matches are well formed (as the matching
    /// call states of every result).
    pub proof fn law_glyph_pieces_cover(&self, s: Seq<char>)
        requires
            self.uses_ligature_regex() ==> matches_well_formed(s, regex_find_of(self, s)),
        ensures
            joined_keys(self.glyph_pieces(s)) == s,
    {
        if self.uses_ligature_regex() {
            law_pieces_with_matches_cover(s, regex_find_of(self, s));
        } else {
            law_pieces_by_char_cover(s);
        }
    }
}

/// The matches of the typography's ligature pattern in `s`.
pub open spec fn regex_find_of(t: &Typography, s: Seq<char>) -> Seq<(usize, usize)> {
    crate::ligature::regex_find(t.ligature_regex(), s)
}

/// A text without control codes is left as it is by removing them; so a
/// typography whose text holds none (as every one built by `new`,
/// `from_text` or `set_plain` does) keeps its text through `to_text` and
/// `from_text`.
pub proof fn law_strip_controls_keeps_clean(s: Seq<char>)
    requires
        forall|i: int| 0 <= i < s.len() ==> !is_control_code(#[trigger] s[i]),
    ensures
        strip_controls(s) == s,
    decreases s.len(),
{
    if s.len() > 0 {
        assert forall|i: int| 0 <= i < s.drop_last().len() implies !is_control_code(#[trigger] s.drop_last()[i]) by {
            assert(s.drop_last()[i] == s[i]);
        }
        law_strip_controls_keeps_clean(s.drop_last());
        assert(!is_control_code(s[s.len() - 1]));
        assert(s.drop_last().push(s.last()) =~= s);
    }
}

/// Removing control codes leaves none, and removing them again changes nothing.
pub proof fn law_strip_controls(s: Seq<char>)
    ensures
        forall|i: int| 0 <= i < strip_controls(s).len() ==> !is_control_code(#[trigger] strip_controls(s)[i]),
        strip_controls(strip_controls(s)) == strip_controls(s),
        strip_controls(s).len() <= s.len(),
    decreases s.len(),
{
    if s.len() > 0 {
        law_strip_controls(s.drop_last());
        let r = strip_controls(s.drop_last());
        if !is_control_code(s.last()) {
            let t = r.push(s.last());
            assert(t.drop_last() =~= r);
            assert forall|i: int| 0 <= i < t.len() implies !is_control_code(#[trigger] t[i]) by {
                if i < r.len() {
                    assert(t[i] == r[i]);
                }
            }
        }
    }
}

/// After the text shrinks to `n` characters, every span lies within it.
pub proof fn law_clipped_spans_inside(spans: Seq<Span>, n: nat)
    ensures
        forall|i: int| 0 <= i < clipped_spans(spans, n).len() ==> (#[trigger] clipped_spans(spans, n)[i]).start < n
            && clipped_spans(spans, n)[i].end <= n,
        clipped_spans(spans, n).len() <= spans.len(),
    decreases spans.len(),
{
    if spans.len() > 0 {
        law_clipped_spans_inside(spans.drop_last(), n);
        let r = clipped_spans(spans.drop_last(), n);
        let t = clipped_spans(spans, n);
        assert forall|i: int| 0 <= i < t.len() implies (#[trigger] t[i]).start < n && t[i].end <= n by {
            if i < r.len() {
                assert(t[i] == r[i]);
            }
        }
    }
}

impl Typography {
    /// Shrinking keeps a prefix of the text that renders within the width,
    /// unless nothing is left.
    pub proof fn law_shrunk_fits(&self, s: Seq<char>, w: int)
        ensures
            self.shrunk(s, w) == s.take(self.shrunk(s, w).len() as int),
            self.shrunk(s, w).len() == 0 || self.text_width(self.shrunk(s, w)) <= w,
        decreases s.len(),
    {
        self.lemma_shrunk_prefix(s, w);
        if !(s.len() == 0 || self.text_width(s) <= w) {
            self.law_shrunk_fits(s.drop_last(), w);
        }
    }
}

proof fn lemma_resolve_from_end_chain(spans: Seq<crate::styling::MutableSpan>, n: nat)
    ensures
        forall|k: int| 0 <= k < crate::styling::resolve_from_end(spans, n).len()
            ==> (#[trigger] crate::styling::resolve_from_end(spans, n)[k]).start <= crate::styling::resolve_from_end(spans, n)[k].end,
        forall|k: int, l: int| 0 <= k < l < crate::styling::resolve_from_end(spans, n).len()
            ==> crate::styling::resolve_from_end(spans, n)[l].end <= crate::styling::resolve_from_end(spans, n)[k].start,
    decreases n,
{
    if n > 0 && n <= spans.len() {
        lemma_resolve_from_end_chain(spans, (n - 1) as nat);
        let acc = crate::styling::resolve_from_end(spans, (n - 1) as nat);
        let r = crate::styling::resolve_from_end(spans, n);
        assert forall|k: int| 0 <= k < r.len() implies (#[trigger] r[k]).start <= r[k].end by {
            if k < acc.len() {
                assert(r[k] == acc[k]);
            }
        }
        assert forall|k: int, l: int| 0 <= k < l < r.len() implies r[l].end <= r[k].start by {
            assert(r[k] == acc[k]);
            if l < acc.len() {
                assert(r[l] == acc[l]);
            } else {
                assert(r[l].end <= acc.last().start);
                assert(acc.last() == acc[acc.len() - 1]);
                if k < acc.len() - 1 {
                    assert(acc[acc.len() - 1].end <= acc[k].start);
                    assert(acc[acc.len() - 1].start <= acc[acc.len() - 1].end);
                }
            }
        }
    }
}

/// Resolved spans each start no later than they end, and follow one another
/// without overlapping.
pub proof fn law_resolved_disjoint(spans: Seq<crate::styling::MutableSpan>)
    ensures
        forall|i: int| 0 <= i < crate::styling::resolved(spans).len()
            ==> (#[trigger] crate::styling::resolved(spans)[i]).start <= crate::styling::resolved(spans)[i].end,
        forall|i: int, j: int| 0 <= i < j < crate::styling::resolved(spans).len()
            ==> crate::styling::resolved(spans)[i].end <= crate::styling::resolved(spans)[j].start,
{
    let a = crate::styling::resolve_from_end(spans, spans.len());
    lemma_resolve_from_end_chain(spans, spans.len());
    let r = crate::styling::resolved(spans);
    assert forall|i: int| 0 <= i < r.len() implies (#[trigger] r[i]).start <= r[i].end by {
        assert(r[i] == a[a.len() - 1 - i]);
    }
    assert forall|i: int, j: int| 0 <= i < j < r.len() implies r[i].end <= r[j].start by {
        assert(r[i] == a[a.len() - 1 - i]);
        assert(r[j] == a[a.len() - 1 - j]);
    }
}

impl Typography {
    /// The style transitions of a text come at increasing positions, the
    /// first at position 0, each at a character of the text (position 0 for
    /// an empty one).
    pub proof fn law_style_borders_sorted(&self, n: nat)
        ensures
            self.style_border_seq(n).len() >= 1,
            self.style_border_seq(n)[0].0 == 0,
            forall|i: int| 0 <= i < self.style_border_seq(n).len() ==> 0 <= #[trigger] self.style_border_seq(n)[i].0 <= n,
            forall|i: int| 0 <= i < self.style_border_seq(n).len() ==> #[trigger] self.style_border_seq(n)[i].0 < (if n > 0 { n } else { 1 }),
            forall|i: int, j: int| 0 <= i < j < self.style_border_seq(n).len()
                ==> self.style_border_seq(n)[i].0 < self.style_border_seq(n)[j].0,
    {
        if n > 0 {
            self.lemma_style_borders_upto_sorted(n, n);
        }
    }

    proof fn lemma_style_borders_upto_sorted(&self, n: nat, k: nat)
        requires
            1 <= k <= n,
        ensures
            self.style_borders_upto(n, k).len() >= 1,
            self.style_borders_upto(n, k)[0].0 == 0,
            forall|i: int| 0 <= i < self.style_borders_upto(n, k).len() ==> 0 <= #[trigger] self.style_borders_upto(n, k)[i].0 < k,
            forall|i: int, j: int| 0 <= i < j < self.style_borders_upto(n, k).len()
                ==> self.style_borders_upto(n, k)[i].0 < self.style_borders_upto(n, k)[j].0,
        decreases k,
    {
        if k == 1 {
            assert(self.style_borders_upto(n, 0) =~= Seq::<(int, Option<TextStyle>)>::empty());
        } else {
            self.lemma_style_borders_upto_sorted(n, (k - 1) as nat);
            let r = self.style_borders_upto(n, (k - 1) as nat);
            let t = self.style_borders_upto(n, k);
            assert forall|i: int| 0 <= i < t.len() implies 0 <= #[trigger] t[i].0 < k by {
                if i < r.len() {
                    assert(t[i] == r[i]);
                }
            }
            assert forall|i: int, j: int| 0 <= i < j < t.len() implies t[i].0 < t[j].0 by {
                assert(t[i] == r[i]);
                if j < r.len() {
                    assert(t[j] == r[j]);
                }
            }
            assert(t[0] == r[0]);
        }
    }
}

/// Every name `builtin_names` lists is a built-in font whose source loads.
pub proof fn law_builtin_names_load(i: int)
    requires
        0 <= i < crate::builtin::loaded_names(crate::builtin::builtin_name_list().len()).len(),
    ensures
        crate::builtin::builtin_source(crate::builtin::loaded_names(crate::builtin::builtin_name_list().len())[i]) matches Some(src)
            && crate::builtin::loads(src),
{
    lemma_loaded_names(crate::builtin::builtin_name_list().len(), i);
}

proof fn lemma_loaded_names(k: nat, i: int)
    requires
        0 <= i < crate::builtin::loaded_names(k).len(),
    ensures
        crate::builtin::builtin_source(crate::builtin::loaded_names(k)[i]) matches Some(src) && crate::builtin::loads(src),
    decreases k,
{
    if k > 0 && k <= crate::builtin::builtin_name_list().len() {
        let r = crate::builtin::loaded_names((k - 1) as nat);
        if i < r.len() {
            lemma_loaded_names((k - 1) as nat, i);
            assert(crate::builtin::loaded_names(k)[i] == r[i]);
        }
    }
}

/// The texts of fragments written one after another.
pub open spec fn joined_texts(f: Seq<(Seq<char>, Option<TextStyle>)>) -> Seq<char>
    decreases f.len(),
{
    if f.len() == 0 { Seq::empty() } else { joined_texts(f.drop_last()) + f.last().0 }
}

proof fn lemma_cut_joined(text: Seq<char>, c: Seq<(int, Option<TextStyle>)>, k: int)
    requires
        crate::styling::keys_sorted_within(c, text.len() as int),
        c.len() > 0,
        0 <= k <= c.len(),
    ensures
        joined_texts(crate::styling::cut_at(text, c).take(k)) == text.subrange(
            c[0].0,
            if k < c.len() { c[k].0 } else { text.len() as int },
        ),
    decreases k,
{
    let f = crate::styling::cut_at(text, c);
    if k == 0 {
        assert(f.take(0) =~= Seq::<(Seq<char>, Option<TextStyle>)>::empty());
        assert(text.subrange(c[0].0, c[0].0) =~= Seq::<char>::empty());
    } else {
        lemma_cut_joined(text, c, k - 1);
        assert(f.take(k).drop_last() =~= f.take(k - 1));
        assert(f.take(k).last() == f[k - 1]);
        if k < c.len() {
            assert(c[k - 1].0 < c[k].0);
        }
        let a = c[0].0;
        let b = c[k - 1].0;
        let e = if k < c.len() { c[k].0 } else { text.len() as int };
        if k - 1 > 0 {
            assert(c[0].0 < c[k - 1].0);
        }
        assert(text.subrange(a, b) + text.subrange(b, e) =~= text.subrange(a, e));
    }
}

proof fn lemma_positions_outside_first(s: Seq<char>, ms: Seq<(usize, usize)>, k: nat)
    requires
        k >= 1,
        !crate::measure::inside_match(s, ms, 0),
    ensures
        crate::measure::positions_outside(s, ms, k).len() >= 1,
        crate::measure::positions_outside(s, ms, k)[0] == 0,
    decreases k,
{
    if k > 1 {
        lemma_positions_outside_first(s, ms, (k - 1) as nat);
        let r = crate::measure::positions_outside(s, ms, (k - 1) as nat);
        assert(crate::measure::positions_outside(s, ms, k)[0] == r[0]);
    } else {
        assert(crate::measure::positions_outside(s, ms, 0) =~= Seq::<int>::empty());
    }
}

proof fn lemma_snapped_first(
    styles: Seq<(int, Option<TextStyle>)>,
    bs: Seq<int>,
    ligatures: bool,
    last: bool,
    n: int,
    k: nat,
)
    requires
        1 <= k <= styles.len(),
        styles[0].0 == 0,
        bs.contains(0),
        forall|i: int| 0 <= i < styles.len() ==> 0 <= (#[trigger] styles[i]).0 <= n,
        forall|i: int| 0 <= i < bs.len() ==> 0 <= #[trigger] bs[i] <= n,
    ensures
        crate::styling::snapped_upto(styles, bs, ligatures, last, k).len() >= 1,
        crate::styling::snapped_upto(styles, bs, ligatures, last, k)[0].0 == 0,
    decreases k,
{
    let acc = crate::styling::snapped_upto(styles, bs, ligatures, last, (k - 1) as nat);
    let (pos, st) = styles[k - 1];
    crate::styling::lemma_count_at_most_le(bs, pos);
    crate::styling::lemma_snap_within(bs, pos, last, n);
    let target = if ligatures { crate::styling::snap(bs, pos, last) } else { Some(pos) };
    if k == 1 {
        assert(acc =~= Seq::<(int, Option<TextStyle>)>::empty());
        assert(target == Some(0int));
        crate::styling::lemma_first_key_at_least(acc, 0, 0);
    } else {
        lemma_snapped_first(styles, bs, ligatures, last, n, (k - 1) as nat);
        match target {
            Some(q) => {
                crate::styling::lemma_first_key_at_least(acc, q, 0);
                let i = crate::styling::first_key_at_least(acc, q, 0);
                if q > 0 {
                    assert(i >= 1);
                }
            },
            None => {},
        }
    }
}

impl Typography {
    /// Every style fragment of a non-empty text holds at least one character.
    pub proof fn law_fragments_nonempty(&self, s: Seq<char>)
        requires
            s.len() > 0,
        ensures
            forall|i: int| 0 <= i < self.fragments(s).len() ==> (#[trigger] self.fragments(s)[i]).0.len() > 0,
    {
        let n = s.len();
        let styles = self.style_border_seq(n);
        let bs = self.glyph_border_seq(s);
        let last = self.style_ligatures == Some(crate::typography::LigatureStyleMethod::Last);
        self.lemma_style_borders_upto_sorted(n, n);
        self.lemma_glyph_borders_range(s);
        crate::styling::lemma_snapped_sorted(styles, bs, self.use_ligatures, last, n - 1, styles.len());
        let c = crate::styling::snapped_upto(styles, bs, self.use_ligatures, last, styles.len());
        let f = crate::styling::cut_at(s, c);
        assert forall|i: int| 0 <= i < f.len() implies (#[trigger] f[i]).0.len() > 0 by {
            if i + 1 < c.len() {
                assert(c[i].0 < c[i + 1].0);
            }
        }
    }
}

impl Typography {
    /// The style fragments of a non-empty text, written one after another,
    /// give back the text, whenever the ligature matches are well formed
    /// (as the matching call states of every result).
    pub proof fn law_fragments_cover(&self, s: Seq<char>)
        requires
            s.len() > 0,
            self.uses_ligature_regex() ==> matches_well_formed(s, regex_find_of(self, s)),
        ensures
            joined_texts(self.fragments(s)) == s,
    {
        let n = s.len();
        let styles = self.style_border_seq(n);
        let bs = self.glyph_border_seq(s);
        let last = self.style_ligatures == Some(crate::typography::LigatureStyleMethod::Last);
        self.law_style_borders_sorted(n);
        self.lemma_glyph_borders_range(s);
        if self.uses_ligature_regex() {
            let ms = regex_find_of(self, s);
            assert(!crate::measure::inside_match(s, ms, 0)) by {
                if crate::measure::inside_match(s, ms, 0) {
                    let j = choose|j: int| 0 <= j < ms.len() && crate::measure::match_extent(s, #[trigger] ms[j]).0 + 1 <= 0
                        < crate::measure::match_extent(s, ms[j]).0 + crate::measure::match_extent(s, ms[j]).1;
                    let m = ms[j];
                    lemma_boundary_chars(s, m.0 as int, m.1 as int);
                }
            }
            lemma_positions_outside_first(s, ms, n);
            assert(bs[0] == 0);
        } else {
            assert(bs[0] == 0);
        }
        assert(bs.contains(0));
        assert forall|i: int| 0 <= i < bs.len() implies 0 <= #[trigger] bs[i] <= n by {}
        crate::styling::lemma_snapped_sorted(styles, bs, self.use_ligatures, last, n as int, styles.len());
        lemma_snapped_first(styles, bs, self.use_ligatures, last, n as int, styles.len());
        let c = crate::styling::snapped_upto(styles, bs, self.use_ligatures, last, styles.len());
        lemma_cut_joined(s, c, c.len() as int);
        let f = crate::styling::cut_at(s, c);
        assert(f.take(c.len() as int) =~= f);
        assert(s.subrange(0, n as int) =~= s);
    }
}

impl Typography {
    /// Truncation leaves a text that fits: cropping or folding keeps a
    /// prefix that renders within the width (or nothing), an ellipsis
    /// follows a prefix that renders within the width less the ellipsis.
    pub proof fn law_truncation_fits(&self, max_width: int, overflow: Option<crate::style::OverflowMethod>)
        ensures
            self.truncation(max_width, overflow) matches Some(t) ==> {
                let m = self.overflow_for(overflow);
                let e = self.ellipsis_text();
                let target = if max_width >= self.text_width(e) { max_width - self.text_width(e) } else { 0 };
                let kept = if m == crate::style::OverflowMethod::Ellipsis { target } else { max_width };
                let p = self.shrunk(self.text_view(), kept);
                &&& p == self.text_view().take(p.len() as int)
                &&& (p.len() == 0 || self.text_width(p) <= kept)
                &&& t == (if m == crate::style::OverflowMethod::Ellipsis { p + e } else { p })
            },
    {
        let e = self.ellipsis_text();
        let target = if max_width >= self.text_width(e) { max_width - self.text_width(e) } else { 0 };
        self.law_shrunk_fits(self.text_view(), target);
        self.law_shrunk_fits(self.text_view(), max_width);
    }
}

/// A font made by `Font::new` has the space glyph it adds: `space_width`
/// spaces on every row.
pub proof fn law_new_font_has_space(
    f: &crate::font::Font,
    name: Seq<char>,
    glyphs: Seq<GlyphEntry>,
    ligatures: Seq<GlyphEntry>,
    letter_spacing: i32,
    space_width: usize,
    baseline: Option<usize>,
    underline: Option<crate::line::LineStyleOverride>,
    underline2: Option<crate::line::LineStyleOverride>,
    overline: Option<crate::line::LineStyleOverride>,
    strike: Option<crate::line::LineStyleOverride>,
)
    requires
        keys_unique(glyphs),
        f.is_new_font(name, glyphs, ligatures, letter_spacing, space_width, baseline, underline, underline2, overline, strike),
    ensures
        f.glyph_for(" "@) == crate::font::space_glyph(space_width as nat, f.height() as nat),
        f.has_glyph(" "@),
{
    reveal_strlit(" ");
    lemma_insert_entry(glyphs, " "@, crate::font::space_glyph(space_width as nat, f.height() as nat));
}

/// Two glyphs merged overlapping by `max_overlap` do not occlude each
/// other: in every row at least as long as the overlap, every character
/// but the spaces that the overlap takes away stays, in place.
pub proof fn law_max_overlap_keeps_characters(l: Seq<Seq<char>>, r: Seq<Seq<char>>, d: int)
    requires
        0 <= d < l.len(),
        d < r.len(),
        max_overlap(l, r) <= l[d].len(),
        max_overlap(l, r) <= r[d].len(),
    ensures
        merged(l, r, -(max_overlap(l, r) as int))[d] == l[d].take(l[d].len() - trail(l[d])) + spaces(
            (trail(l[d]) + lead(r[d]) - max_overlap(l, r)) as nat,
        ) + r[d].skip(lead(r[d]) as int),
{
    let n = if l.len() <= r.len() { l.len() } else { r.len() };
    crate::layout::lemma_min_row_overlap_le(l, r, n, d);
    law_overlap_keeps_characters(l[d], r[d], max_overlap(l, r) as int);
}

/// Every row of `g` is as wide as its first.
pub open spec fn rows_even(g: Seq<Seq<char>>) -> bool {
    forall|r: int| 0 <= r < g.len() ==> (#[trigger] g[r]).len() == g[0].len()
}

proof fn lemma_lookup_found(e: Seq<GlyphEntry>, k: Seq<char>)
    requires
        lookup(e, k) is Some,
    ensures
        exists|i: int| 0 <= i < e.len() && e[i].0 == k && Some(#[trigger] e[i].1) == lookup(e, k),
    decreases e.len(),
{
    if e.last().0 == k {
        assert(e[e.len() - 1].0 == k && Some(e[e.len() - 1].1) == lookup(e, k));
    } else {
        lemma_lookup_found(e.drop_last(), k);
        let i = choose|i: int| 0 <= i < e.drop_last().len() && e.drop_last()[i].0 == k
            && Some(#[trigger] e.drop_last()[i].1) == lookup(e.drop_last(), k);
        assert(e[i] == e.drop_last()[i]);
    }
}

/// Every glyph that `Glyphs::from_lines` cuts from a sprite sheet has rows
/// of one width.
pub proof fn law_sheet_glyphs_even(keys: Seq<Seq<char>>, rows: Seq<Seq<char>>, sep: char, q: Seq<char>)
    requires
        crate::sheet::from_lines_result(keys, rows, sep) is Ok,
        lookup(crate::sheet::from_lines_result(keys, rows, sep)->Ok_0, q) is Some,
    ensures
        rows_even(lookup(crate::sheet::from_lines_result(keys, rows, sep)->Ok_0, q)->Some_0),
{
    let es = crate::sheet::from_lines_result(keys, rows, sep)->Ok_0;
    let g = lookup(es, q)->Some_0;
    if keys.len() == 1 {
        assert(!crate::sheet::widths_differ(rows));
        assert forall|r: int| 0 <= r < rows.len() implies (#[trigger] rows[r]).len() == rows[0].len() by {
            if rows[r].len() != rows[0].len() {
                assert(crate::sheet::widths_differ(rows));
            }
        }
        assert(es == seq![(keys[0], rows)]);
        assert(es.drop_last() =~= Seq::<GlyphEntry>::empty());
        assert(g == rows);
    } else {
        let pairs = crate::sheet::sheet_pairs(keys, rows, sep);
        let width = rows[0].len();
        let br = crate::sheet::sheet_breaks(rows, sep);
        assert(es == insert_all(Seq::empty(), pairs));
        lemma_insert_all(Seq::empty(), pairs);
        assert(lookup(Seq::<GlyphEntry>::empty(), q) is None);
        assert(lookup(pairs, q) == Some(g));
        lemma_lookup_found(pairs, q);
        let i = choose|i: int| 0 <= i < pairs.len() && pairs[i].0 == q && Some(#[trigger] pairs[i].1) == lookup(pairs, q);
        crate::sheet::lemma_breaks_upto(rows, sep, width);
        assert(br.len() + 1 == keys.len());
        let st = crate::sheet::glyph_start(br, i);
        let en = crate::sheet::glyph_end(br, width as int, i);
        assert(0 <= st <= en <= width) by {
            if i > 0 {
                assert(0 <= br[i - 1] < width);
                if i < br.len() {
                    assert(br[i - 1] < br[i]);
                }
            } else if br.len() > 0 {
                assert(0 <= br[0] < width);
            }
        }
        assert forall|r: int| 0 <= r < rows.len() implies (#[trigger] rows[r]).len() == width by {
            if rows[r].len() != rows[0].len() {
                assert(crate::sheet::widths_differ(rows));
            }
        }
        assert(g == crate::sheet::sheet_glyph(rows, br, width as int, i));
        assert forall|r: int| 0 <= r < g.len() implies (#[trigger] g[r]).len() == g[0].len() by {
            assert(g[r].len() == en - st);
            assert(g[0].len() == en - st);
        }
    }
}

/// Every segment's text is at most `w` characters long.
pub open spec fn segments_within(segs: Seq<(Seq<char>, Option<TextStyle>)>, w: int) -> bool {
    forall|i: int| 0 <= i < segs.len() ==> (#[trigger] segs[i]).0.len() <= w
}

proof fn lemma_segments_within_concat(a: Seq<(Seq<char>, Option<TextStyle>)>, b: Seq<(Seq<char>, Option<TextStyle>)>, w: int)
    requires
        segments_within(a, w),
        segments_within(b, w),
    ensures
        segments_within(a + b, w),
{
    assert forall|i: int| 0 <= i < (a + b).len() implies (#[trigger] (a + b)[i]).0.len() <= w by {
        if i >= a.len() {
            assert((a + b)[i] == b[i - a.len()]);
        }
    }
}

proof fn lemma_row_segments_within(
    lines: (crate::line::LineStyle, crate::line::LineStyle, crate::line::LineStyle, crate::line::LineStyle),
    row_text: Seq<char>,
    spans: Seq<crate::styling::MutableSpan>,
    row: int,
    w: int,
)
    requires
        row_text.len() <= w,
        forall|i: int| 0 <= i < spans.len() ==> (#[trigger] spans[i]).start <= spans[i].end,
    ensures
        segments_within(crate::render::row_segments(lines, row_text, spans, row), w),
{
    let segs = crate::render::row_segments(lines, row_text, spans, row);
    assert forall|i: int| 0 <= i < segs.len() implies (#[trigger] segs[i]).0.len() <= w by {
        let t = crate::render::clip_range(row_text, spans[i].start as int, spans[i].end as int);
        assert(t.len() <= row_text.len());
        match spans[i].style {
            Some(st) => {
                crate::render::lemma_decorated_keeps_len(lines, st, row, t);
            },
            None => {},
        }
    }
}

impl Typography {
    proof fn lemma_rows_segments_within(
        &self,
        rows: Seq<Seq<char>>,
        spans: Seq<Seq<crate::styling::MutableSpan>>,
        fl: int,
        k: nat,
        w: int,
    )
        requires
            k <= rows.len(),
            w >= 1,
            forall|d: int| 0 <= d < rows.len() ==> (#[trigger] rows[d]).len() <= w,
        ensures
            segments_within(self.rows_segments(rows, spans, fl, k), w),
        decreases k,
    {
        if k > 0 {
            self.lemma_rows_segments_within(rows, spans, fl, (k - 1) as nat, w);
            let cs = crate::page::closed_spans(spans[k - 1], fl);
            law_resolved_disjoint(spans[k - 1].push(crate::render::mspan(
                if spans[k - 1].len() > 0 { spans[k - 1].last().end as int } else { 0 },
                fl,
                None,
            )));
            lemma_row_segments_within(self.font_lines(), rows[k - 1], cs, k - 1, w);
            let nl: Seq<(Seq<char>, Option<TextStyle>)> = seq![crate::page::newline_segment()];
            lemma_segments_within_concat(
                self.rows_segments(rows, spans, fl, (k - 1) as nat),
                crate::render::row_segments(self.font_lines(), rows[k - 1], cs, k - 1),
                w,
            );
            lemma_segments_within_concat(
                self.rows_segments(rows, spans, fl, (k - 1) as nat) + crate::render::row_segments(
                    self.font_lines(),
                    rows[k - 1],
                    cs,
                    k - 1,
                ),
                nl,
                w,
            );
        }
    }

    proof fn lemma_lines_segments_within(&self, lines: Seq<Seq<char>>, width: int, j: crate::style::JustifyMethod, k: nat)
        requires
            width >= 1,
        ensures
            segments_within(self.lines_segments(lines, width, j, k), width),
        decreases k,
    {
        if k > 0 && k <= lines.len() {
            self.lemma_lines_segments_within(lines, width, j, (k - 1) as nat);
            let line = lines[k - 1];
            let st = self.line_layout(crate::page::line_text_for(line, j), width, j);
            let fr = Seq::new(st.0.len(), |d: int| crate::page::fitted_row(st.0[d], width, j));
            let fl: int = if fr.len() > 0 { fr[0].len() as int } else { 0 };
            assert forall|d: int| 0 <= d < fr.len() implies (#[trigger] fr[d]).len() <= width by {
                let row = st.0[d];
                let t = if row.len() <= width { row } else { row.take(width) };
                assert(t.len() <= width);
            }
            self.lemma_rows_segments_within(fr, st.1, fl, fr.len(), width);
            lemma_segments_within_concat(
                self.lines_segments(lines, width, j, (k - 1) as nat),
                self.line_segments(line, width, j),
                width,
            );
        }
    }

    /// Rendering fits the width: at a width of one cell or more, no segment
    /// holds more characters than the width.
    pub proof fn law_rendered_within_width(&self, width: int, j: crate::style::JustifyMethod)
        requires
            width >= 1,
        ensures
            segments_within(self.rendered(width, j), width),
    {
        let lines = crate::text::lines_of(self.text_view());
        self.lemma_lines_segments_within(lines, width, j, lines.len());
    }
}

impl Typography {
    proof fn lemma_chunks_from_cover(&self, s: Seq<char>, lst: int, w: int)
        requires
            0 <= lst <= s.len(),
        ensures
            self.chunks_from(s, lst, w).flatten() == s.skip(lst),
        decreases s.len() - lst,
    {
        let c = self.chunks_from(s, lst, w);
        if lst < s.len() {
            self.lemma_chunk_end_range(s, lst, lst + 1, w);
            let e = self.chunk_end(s, lst, lst + 1, w);
            self.lemma_chunks_from_cover(s, e, w);
            assert(c.first() == s.subrange(lst, e));
            assert(c.drop_first() =~= self.chunks_from(s, e, w));
            assert(s.skip(lst) =~= s.subrange(lst, e) + s.skip(e));
        } else {
            assert(c =~= Seq::<Seq<char>>::empty());
            assert(s.skip(lst) =~= Seq::<char>::empty());
        }
    }

    /// Chopping a text into chunks loses nothing: the chunks, written one
    /// after another, give back the text.
    pub proof fn law_chunks_cover(&self, s: Seq<char>, w: int)
        ensures
            self.chunks(s, w).flatten() == s,
    {
        self.lemma_chunks_from_cover(s, 0, w);
        assert(s.skip(0) =~= s);
    }
}

proof fn lemma_extra_from(w: int, ns: int, sw: int, width: int, e: int)
    requires
        e >= 0,
    ensures
        extra_from(w, ns, sw, width, e) >= e,
        sw > 0 ==> w + (ns + extra_from(w, ns, sw, width, e)) * sw >= width || extra_from(w, ns, sw, width, e) >= width,
    decreases width - e,
{
    if !(w + (ns + e) * sw >= width || e >= width || sw <= 0) {
        lemma_extra_from(w, ns, sw, width, e + 1);
    }
}

impl Typography {
    proof fn lemma_words_width_nonneg(&self, words: Seq<Seq<char>>)
        ensures
            self.words_width(words) >= 0,
        decreases words.len(),
    {
        if words.len() > 0 {
            self.lemma_words_width_nonneg(words.drop_last());
        }
    }

    /// Full justification fills the width: in a font with a space width, the
    /// words of a line of two words or more and the spaces handed out to the
    /// gaps between them together take at least `width` cells.
    pub proof fn law_justification_fills(&self, width: int, line: Seq<char>)
        requires
            split_on(trim_end(line), ' ').len() >= 2,
            self.font.space() > 0,
        ensures
            ({
                let words = split_on(trim_end(line), ' ');
                let ns = (words.len() - 1) as nat;
                let sw = self.font.space() as int;
                let e = extra_from(self.words_width(words), ns as int, sw, width, 0);
                self.words_width(words) + sum_first(gap_spaces(ns, e as nat), ns as int) * sw >= width
            }),
    {
        let words = split_on(trim_end(line), ' ');
        let ns = (words.len() - 1) as nat;
        let sw = self.font.space() as int;
        let w = self.words_width(words);
        let e = extra_from(w, ns as int, sw, width, 0);
        lemma_extra_from(w, ns as int, sw, width, 0);
        crate::justify::lemma_gap_sum(ns, e as nat);
        self.lemma_words_width_nonneg(words);
        assert((ns + e) * sw >= ns + e) by (nonlinear_arith)
            requires
                sw >= 1,
                ns + e >= 0;
    }
}

proof fn lemma_count_spaces_words(s: Seq<char>)
    ensures
        crate::justify::count_spaces(s) == split_on(s, ' ').len() - 1,
    decreases s.len(),
{
    if s.len() > 0 {
        lemma_count_spaces_words(s.drop_last());
        crate::text::lemma_split_on_total(s.drop_last(), ' ');
    }
}

proof fn lemma_text_before_joined(spans: Seq<(Seq<char>, Option<TextStyle>)>, k: int)
    requires
        0 <= k <= spans.len(),
    ensures
        crate::justify::text_before(spans, k) == joined_texts(spans.take(k)).len(),
    decreases k,
{
    if k > 0 {
        lemma_text_before_joined(spans, k - 1);
        assert(spans.take(k).drop_last() =~= spans.take(k - 1));
    } else {
        assert(spans.take(0) =~= Seq::<(Seq<char>, Option<TextStyle>)>::empty());
    }
}

impl Typography {
    proof fn lemma_justified_joined_prefix(
        &self,
        width: int,
        line: Seq<char>,
        spans: Seq<(Seq<char>, Option<TextStyle>)>,
        k: int,
    )
        requires
            width >= 0,
            0 <= k <= spans.len(),
            split_on(trim_end(line), ' ').len() > 1,
        ensures
            ({
                let l = trim_end(line);
                let words = split_on(l, ' ');
                let ns = (words.len() - 1) as nat;
                let e = extra_from(self.words_width(words), ns as int, self.font.space() as int, width, 0);
                let gaps = gap_spaces(ns, e as nat);
                let adj = crate::justify::joined(words, gaps);
                let m = crate::justify::moved(l, gaps, crate::justify::text_before(spans, k));
                let mk = if m <= adj.len() { m } else { adj.len() as int };
                &&& 0 <= mk <= adj.len()
                &&& joined_texts(self.justified(width, line, spans).take(k)) == adj.subrange(0, mk)
            }),
        decreases k,
    {
        let l = trim_end(line);
        let words = split_on(l, ' ');
        let ns = (words.len() - 1) as nat;
        let e = extra_from(self.words_width(words), ns as int, self.font.space() as int, width, 0);
        let gaps = gap_spaces(ns, e as nat);
        let adj = crate::justify::joined(words, gaps);
        crate::justify::lemma_gap_spaces(ns, e as nat);
        let jj = self.justified(width, line, spans);
        let tb = crate::justify::text_before(spans, k);
        crate::justify::lemma_text_before_nonneg(spans, k);
        crate::justify::lemma_moved_zero(l, gaps);
        crate::justify::lemma_moved_mono(l, gaps, 0, tb);
        if k == 0 {
            assert(jj.take(0) =~= Seq::<(Seq<char>, Option<TextStyle>)>::empty());
            assert(adj.subrange(0, 0) =~= Seq::<char>::empty());
        } else {
            self.lemma_justified_joined_prefix(width, line, spans, k - 1);
            let tp = crate::justify::text_before(spans, k - 1);
            crate::justify::lemma_text_before_nonneg(spans, k - 1);
            assert(tb == tp + spans[k - 1].0.len());
            crate::justify::lemma_moved_mono(l, gaps, tp, tb);
            let mp0 = crate::justify::moved(l, gaps, tp);
            let mp = if mp0 <= adj.len() { mp0 } else { adj.len() as int };
            let m0 = crate::justify::moved(l, gaps, tb);
            let mk = if m0 <= adj.len() { m0 } else { adj.len() as int };
            assert(jj[k - 1].0 == crate::justify::clipped(adj, mp0, m0));
            assert(jj[k - 1].0 == adj.subrange(mp, mk));
            assert(jj.take(k).drop_last() =~= jj.take(k - 1));
            assert(jj.take(k).last() == jj[k - 1]);
            assert(adj.subrange(0, mk) =~= adj.subrange(0, mp) + adj.subrange(mp, mk));
        }
    }

    /// Full justification only widens the gaps between words: when the
    /// fragments hold a line of two words or more, the justified fragments,
    /// written one after another, are the line's words in order, each gap
    /// holding at least its one space and the spaces handed out to it.
    pub proof fn law_justified_joins_words(&self, width: int, line: Seq<char>, spans: Seq<(Seq<char>, Option<TextStyle>)>)
        requires
            width >= 0,
            split_on(trim_end(line), ' ').len() >= 2,
            joined_texts(spans) == trim_end(line),
        ensures
            ({
                let words = split_on(trim_end(line), ' ');
                let ns = (words.len() - 1) as nat;
                let e = extra_from(self.words_width(words), ns as int, self.font.space() as int, width, 0);
                let gaps = gap_spaces(ns, e as nat);
                &&& joined_texts(self.justified(width, line, spans)) == crate::justify::joined(words, gaps)
                &&& gaps.len() == ns
                &&& forall|i: int| 0 <= i < ns ==> #[trigger] gaps[i] >= 1
            }),
    {
        let l = trim_end(line);
        let words = split_on(l, ' ');
        let ns = (words.len() - 1) as nat;
        let e = extra_from(self.words_width(words), ns as int, self.font.space() as int, width, 0);
        let gaps = gap_spaces(ns, e as nat);
        let adj = crate::justify::joined(words, gaps);
        let jj = self.justified(width, line, spans);
        crate::justify::lemma_gap_spaces(ns, e as nat);
        crate::justify::lemma_extra_from_le(self.words_width(words), ns as int, self.font.space() as int, width, 0);
        crate::justify::lemma_gap_sum(ns, e as nat);
        crate::justify::lemma_joined_len(words, gaps);
        crate::text::lemma_split_on_total(l, ' ');
        assert(crate::justify::sum_first(gaps, words.len() as int) == crate::justify::sum_first(gaps, ns as int));
        assert(adj.len() == l.len() + e);
        let n = spans.len() as int;
        self.lemma_justified_joined_prefix(width, line, spans, n);
        lemma_text_before_joined(spans, n);
        assert(spans.take(n) =~= spans);
        assert(jj.len() == n);
        assert(jj.take(n) =~= jj);
        lemma_count_spaces_words(l);
        assert(l.take(l.len() as int) =~= l);
        assert(crate::justify::moved(l, gaps, l.len() as int) == l.len() + e);
        assert(adj.subrange(0, adj.len() as int) =~= adj);
    }
}

/// Offsets that are never negative and never decrease.
pub open spec fn offsets_sorted(v: Seq<int>) -> bool {
    &&& forall|i: int| 0 <= i < v.len() ==> 0 <= #[trigger] v[i]
    &&& forall|i: int, j: int| 0 <= i <= j < v.len() ==> v[i] <= v[j]
}

/// A wrapping state whose line starts, followed by its offset, are sorted.
pub open spec fn division_state_sorted(st: (int, int, Seq<int>)) -> bool {
    offsets_sorted(st.2.push(st.0))
}

proof fn lemma_sorted_push(v: Seq<int>, x: int)
    requires
        offsets_sorted(v),
        v.len() > 0 ==> v.last() <= x,
        0 <= x,
    ensures
        offsets_sorted(v.push(x)),
{
    assert forall|i: int, j: int| 0 <= i <= j < v.push(x).len() implies v.push(x)[i] <= v.push(x)[j] by {
        if j == v.len() && i < j {
            assert(v[i] <= v[v.len() - 1]);
        }
    }
}

impl Typography {
    proof fn lemma_fold_end_at_least(&self, word: Seq<char>, remaining: int, fo: int)
        ensures
            self.fold_end(word, remaining, fo) >= fo,
        decreases word.len() - fo,
    {
        if 0 <= fo < word.len() && self.text_width(word.take(fo + 1)) <= remaining {
            self.lemma_fold_end_at_least(word, remaining, fo + 1);
        }
    }

    proof fn lemma_after_chunks_sorted(&self, st: (int, int, Seq<int>), chunks: Seq<Seq<char>>)
        requires
            division_state_sorted(st),
        ensures
            division_state_sorted(self.after_chunks(st, chunks)),
            self.after_chunks(st, chunks).0 >= st.0,
        decreases chunks.len(),
    {
        if chunks.len() > 0 {
            self.lemma_after_chunks_sorted(st, chunks.drop_last());
            let p = self.after_chunks(st, chunks.drop_last());
            let r = self.after_chunks(st, chunks);
            assert(r.2 == p.2.push(p.0));
            assert(p.2.push(p.0).last() == p.0);
            lemma_sorted_push(p.2.push(p.0), p.0 + chunks.last().len());
        }
    }

    proof fn lemma_divide_step_sorted(&self, st: (int, int, Seq<int>), word: Seq<char>, width: int, fold: bool)
        requires
            division_state_sorted(st),
        ensures
            division_state_sorted(self.divide_step(st, word, width, fold)),
    {
        let (offset, length, offsets) = st;
        let space = self.font.space() as int;
        let remaining = if width - length - space > 0 { width - length - space } else { 0 };
        let wl = self.text_width(word);
        let v = offsets.push(offset);
        assert(v.last() == offset);
        assert(v.drop_last() =~= offsets);
        assert forall|i: int| 0 <= i < offsets.len() implies offsets[i] <= offset && 0 <= #[trigger] offsets[i] by {
            assert(v[i] == offsets[i]);
            assert(v[v.len() - 1] == offset);
        }
        assert(offset >= 0) by {
            assert(v[v.len() - 1] == offset);
        }
        assert(offsets_sorted(offsets)) by {
            assert forall|i: int, j: int| 0 <= i <= j < offsets.len() implies offsets[i] <= offsets[j] by {
                assert(v[i] == offsets[i] && v[j] == offsets[j]);
            }
        }
        if wl > remaining {
            if fold && wl > width && word.len() > 0 && self.text_width(seq![word[0]]) <= remaining {
                let fo = self.fold_end(word, remaining, 1);
                self.lemma_fold_end_at_least(word, remaining, 1);
                let o1 = (if offset > 0 { offset + 1 } else { offset }) + fo;
                let l1 = (if length > 0 { length + space } else { length }) + self.text_width(word.take(fo));
                lemma_sorted_push(offsets, o1);
                self.lemma_after_chunks_sorted((o1, l1, offsets), self.chunks(word.skip(fo), width));
            } else {
                let o1 = if offset > 0 || word.len() == 0 { offset + 1 } else { offset };
                lemma_sorted_push(offsets, o1);
                lemma_sorted_push(offsets.push(o1), o1 + word.len());
            }
        } else {
            let o1 = (if offset > 0 || word.len() == 0 { offset + 1 } else { offset }) + word.len();
            lemma_sorted_push(offsets, o1);
        }
    }

    proof fn lemma_divide_upto_sorted(&self, words: Seq<Seq<char>>, n: nat, width: int, fold: bool)
        ensures
            division_state_sorted(self.divide_upto(words, n, width, fold)),
        decreases n,
    {
        if n == 0 {
            assert(Seq::<int>::empty().push(0) =~= seq![0int]);
        } else {
            self.lemma_divide_upto_sorted(words, (n - 1) as nat, width, fold);
            self.lemma_divide_step_sorted(self.divide_upto(words, (n - 1) as nat, width, fold), words[n - 1], width, fold);
        }
    }

    /// The offsets at which a text is divided into lines are never negative
    /// and never decrease.
    pub proof fn law_division_sorted(&self, s: Seq<char>, width: int, fold: bool)
        ensures
            offsets_sorted(self.division(s, width, fold)),
    {
        let words = crate::text::split_on(s, ' ');
        self.lemma_divide_upto_sorted(words, words.len(), width, fold);
    }
}

impl Typography {
    /// The glyphs of a non-empty text start with one at position 0, and
    /// without ligature substitution every position starts a glyph: the
    /// borders are `0..n`. With ligatures this holds whenever the matches
    /// are well formed (as the matching call states of every result).
    pub proof fn law_glyph_borders_start(&self, s: Seq<char>)
        requires
            self.uses_ligature_regex() ==> matches_well_formed(s, regex_find_of(self, s)),
        ensures
            s.len() > 0 ==> self.glyph_border_seq(s).len() >= 1 && self.glyph_border_seq(s)[0] == 0,
            !self.uses_ligature_regex() ==> self.glyph_border_seq(s) == Seq::new(s.len(), |i: int| i),
    {
        if s.len() > 0 && self.uses_ligature_regex() {
            let ms = regex_find_of(self, s);
            assert(!crate::measure::inside_match(s, ms, 0)) by {
                if crate::measure::inside_match(s, ms, 0) {
                    let j = choose|j: int| 0 <= j < ms.len() && crate::measure::match_extent(s, #[trigger] ms[j]).0 + 1 <= 0
                        < crate::measure::match_extent(s, ms[j]).0 + crate::measure::match_extent(s, ms[j]).1;
                    let m = ms[j];
                    lemma_boundary_chars(s, m.0 as int, m.1 as int);
                }
            }
            lemma_positions_outside_first(s, ms, s.len());
        }
    }
}

/// Merging keeps glyph rows even: when every row of `left` has `wl`
/// characters, every row of `right` has `wr`, and the spacing overlaps
/// neither glyph by more than its width, every merged row has
/// `wl + wr + spacing` characters.
pub proof fn law_merge_keeps_width(left: Seq<Seq<char>>, right: Seq<Seq<char>>, spacing: int, wl: nat, wr: nat)
    requires
        forall|i: int| 0 <= i < left.len() ==> (#[trigger] left[i]).len() == wl,
        forall|i: int| 0 <= i < right.len() ==> (#[trigger] right[i]).len() == wr,
        spacing >= -(wl as int),
        spacing >= -(wr as int),
    ensures
        merged(left, right, spacing).len() == (if left.len() <= right.len() { left.len() } else { right.len() }),
        forall|i: int| 0 <= i < merged(left, right, spacing).len() ==> (#[trigger] merged(left, right, spacing)[i]).len()
            == wl + wr + spacing,
{
    let m = merged(left, right, spacing);
    assert forall|i: int| 0 <= i < m.len() implies (#[trigger] m[i]).len() == wl + wr + spacing by {
        assert(left[i].len() == wl);
        assert(right[i].len() == wr);
    }
}

impl crate::font::Font {
    /// A key the font does not hold gives the placeholder glyph.
    pub proof fn law_missing_key_placeholder(&self, key: Seq<char>)
        ensures
            !self.has_glyph(key) ==> self.glyph_for(key) == self.placeholder_view(),
            self.has_glyph(key) ==> self.glyph_for(key) == (if key.len() == 1 {
                lookup(self.glyph_entries(), key)->0
            } else {
                lookup(self.ligature_entries(), key)->0
            }),
    {
    }
}

/// Converting a typography to styled text and back gives its text, base
/// style and spans again: `t` is a typography whose text is clean (as
/// `new`, `from_text`, `from_markup` and `set_plain` leave it, and
/// truncation keeps it), `x` is the styled text `to_text` gives for it, and
/// `u` the typography `from_text` builds from `x`.
pub proof fn law_text_round_trip(t: Typography, x: crate::typography::StyledText, u: Typography)
    requires
        t.text_clean(),
        x.plain@ == t.text_view(),
        x.style == Some(t.base_style()),
        x.spans@ == t.span_view(),
        u.text_view() == strip_controls(x.plain@),
        u.base_style() == x.style.unwrap_or(null_style()),
        u.span_view() == x.spans@,
    ensures
        u.text_view() == t.text_view(),
        u.base_style() == t.base_style(),
        u.span_view() == t.span_view(),
{
    law_strip_controls_keeps_clean(t.text_view());
}

impl Typography {
    proof fn lemma_after_chunks_offset(&self, st: (int, int, Seq<int>), chunks: Seq<Seq<char>>)
        ensures
            self.after_chunks(st, chunks).0 == st.0 + crate::text::total_len(chunks),
        decreases chunks.len(),
    {
        if chunks.len() > 0 {
            self.lemma_after_chunks_offset(st, chunks.drop_last());
        }
    }

    /// One more word moves the offset past it, and past the space before it
    /// when the offset is not at the start or the word is empty.
    proof fn lemma_divide_step_offset(&self, st: (int, int, Seq<int>), word: Seq<char>, width: int, fold: bool)
        ensures
            self.divide_step(st, word, width, fold).0 == st.0 + (if st.0 > 0 || word.len() == 0 { 1int } else { 0 })
                + word.len(),
    {
        let space = self.font.space() as int;
        let remaining = if width - st.1 - space > 0 { width - st.1 - space } else { 0 };
        let wl = self.text_width(word);
        if wl > remaining && fold && wl > width && word.len() > 0 && self.text_width(seq![word[0]]) <= remaining {
            let fo = self.fold_end(word, remaining, 1);
            self.lemma_fold_end_at_least(word, remaining, 1);
            self.lemma_fold_end_at_most(word, remaining, 1);
            let o1 = (if st.0 > 0 { st.0 + 1 } else { st.0 }) + fo;
            let l1 = (if st.1 > 0 { st.1 + space } else { st.1 }) + self.text_width(word.take(fo));
            self.lemma_after_chunks_offset((o1, l1, st.2), self.chunks(word.skip(fo), width));
            self.lemma_chunks_total(word.skip(fo), 0, width);
        }
    }

    proof fn lemma_fold_end_at_most(&self, word: Seq<char>, remaining: int, fo: int)
        requires
            0 <= fo <= word.len(),
        ensures
            self.fold_end(word, remaining, fo) <= word.len(),
        decreases word.len() - fo,
    {
        if 0 <= fo < word.len() && self.text_width(word.take(fo + 1)) <= remaining {
            self.lemma_fold_end_at_most(word, remaining, fo + 1);
        }
    }

    proof fn lemma_divide_upto_offset(&self, words: Seq<Seq<char>>, k: nat, width: int, fold: bool)
        requires
            1 <= k <= words.len(),
            words[0].len() > 0,
        ensures
            self.divide_upto(words, k, width, fold).0 == crate::text::total_len(words.take(k as int)) + k - 1,
            self.divide_upto(words, k, width, fold).0 > 0,
        decreases k,
    {
        if k == 1 {
            assert(self.divide_upto(words, 0, width, fold).0 == 0);
            self.lemma_divide_step_offset(self.divide_upto(words, 0, width, fold), words[0], width, fold);
            assert(words.take(1).drop_last() =~= Seq::<Seq<char>>::empty());
            assert(words.take(1).last() == words[0]);
            assert(crate::text::total_len(Seq::<Seq<char>>::empty()) == 0);
        } else {
            self.lemma_divide_upto_offset(words, (k - 1) as nat, width, fold);
            self.lemma_divide_step_offset(self.divide_upto(words, (k - 1) as nat, width, fold), words[k - 1], width, fold);
            assert(words.take(k as int).drop_last() =~= words.take(k - 1));
            assert(words.take(k as int).last() == words[k - 1]);
            crate::text::lemma_total_len_prefix(words, k - 1);
        }
    }

    /// A non-empty text that does not start with a space is divided up to
    /// its end: the last offset is the text's length.
    pub proof fn law_division_ends_at_length(&self, s: Seq<char>, width: int, fold: bool)
        requires
            s.len() > 0,
            s[0] != ' ',
        ensures
            self.division(s, width, fold).len() >= 1,
            self.division(s, width, fold).last() == s.len(),
    {
        let words = split_on(s, ' ');
        crate::text::lemma_split_on_total(s, ' ');
        lemma_split_on_first(s, ' ');
        self.lemma_divide_upto_offset(words, words.len(), width, fold);
        assert(words.take(words.len() as int) =~= words);
    }
}

/// The first piece of a split starts with the text's first character when
/// that is not the separator.
proof fn lemma_split_on_first(s: Seq<char>, c: char)
    requires
        s.len() > 0,
        s[0] != c,
    ensures
        split_on(s, c).len() >= 1,
        split_on(s, c)[0].len() > 0,
    decreases s.len(),
{
    crate::text::lemma_split_on_total(s, c);
    if s.len() > 1 {
        lemma_split_on_first(s.drop_last(), c);
        crate::text::lemma_split_on_total(s.drop_last(), c);
        let w = split_on(s.drop_last(), c);
        if s.last() != c {
            if w.len() > 1 {
                assert(split_on(s, c)[0] == w[0]);
            } else {
                assert(split_on(s, c)[0] == w.last().push(s.last()));
            }
        } else {
            assert(split_on(s, c)[0] == w[0]);
        }
    } else {
        assert(s.drop_last().len() == 0);
        assert(split_on(s.drop_last(), c) =~= seq![Seq::<char>::empty()]);
    }
}

/// Distinct character boundaries lie at distinct character positions, in
/// the same order.
proof fn lemma_boundary_strict(s: Seq<char>, b0: int, b1: int)
    requires
        is_boundary(s, b0),
        is_boundary(s, b1),
        b0 < b1,
    ensures
        char_at_byte(s, b0) < char_at_byte(s, b1),
        byte_offset(s, char_at_byte(s, b0)) == b0,
        byte_offset(s, char_at_byte(s, b1)) == b1,
{
    lemma_boundary_chars(s, b0, b1);
}

/// A boundary is at most the byte length of the text.
proof fn lemma_boundary_le_len(s: Seq<char>, b: int)
    requires
        is_boundary(s, b),
    ensures
        b <= byte_len(s),
        b < byte_len(s) ==> char_at_byte(s, b) < s.len(),
{
    let k = char_at_byte(s, b);
    if k < s.len() {
        lemma_byte_offset_increasing(s, k, s.len() as int);
    }
}

/// No match is empty.
pub open spec fn matches_nonempty(ms: Seq<(usize, usize)>) -> bool {
    forall|i: int| 0 <= i < ms.len() ==> (#[trigger] ms[i]).0 < ms[i].1
}

/// The positions of a list of pieces increase strictly.
pub open spec fn positions_increase(p: Seq<(int, Seq<char>)>) -> bool {
    forall|i: int, j: int| 0 <= i < j < p.len() ==> p[i].0 < p[j].0
}

proof fn lemma_pieces_upto_increase(s: Seq<char>, ms: Seq<(usize, usize)>, n: nat)
    requires
        matches_well_formed(s, ms),
        matches_nonempty(ms),
        n <= ms.len(),
    ensures
        is_boundary(s, pieces_upto(s, ms, n).1),
        n > 0 ==> pieces_upto(s, ms, n).1 == ms[n - 1].1,
        forall|i: int| 0 <= i < pieces_upto(s, ms, n).0.len() ==> 0 <= (#[trigger] pieces_upto(s, ms, n).0[i]).0
            < char_at_byte(s, pieces_upto(s, ms, n).1),
        positions_increase(pieces_upto(s, ms, n).0),
    decreases n,
{
    if n == 0 {
        assert(byte_offset(s, 0) == 0);
        assert(is_boundary(s, 0));
    } else {
        lemma_pieces_upto_increase(s, ms, (n - 1) as nat);
        let (p, lb) = pieces_upto(s, ms, (n - 1) as nat);
        let m = ms[n - 1];
        if n - 1 > 0 {
            assert(ms[n - 2].1 <= ms[n - 1].0);
        }
        assert(lb <= m.0);
        assert(is_boundary(s, m.0 as int));
        assert(is_boundary(s, m.1 as int));
        lemma_boundary_le_len(s, m.1 as int);
        lemma_boundary_strict(s, m.0 as int, m.1 as int);
        lemma_boundary_chars(s, lb, m.0 as int);
        let c0 = char_at_byte(s, lb);
        let cm = char_at_byte(s, m.0 as int);
        let from = char_index_or(s, lb, 0);
        assert(lb < byte_len(s));
        assert(from == c0);
        let singles = single_pieces(s, from, cm);
        let lig = (char_index_or(s, m.0 as int, 0), s.subrange(cm, char_at_byte(s, m.1 as int)));
        assert(lig.0 == cm);
        let q = p + singles + seq![lig];
        assert(pieces_upto(s, ms, n).0 == q);
        assert forall|i: int| 0 <= i < q.len() implies 0 <= (#[trigger] q[i]).0 < char_at_byte(s, m.1 as int) by {
            if i < p.len() {
                assert(q[i] == p[i]);
            } else if i < p.len() + singles.len() {
                assert(q[i] == singles[i - p.len()]);
            } else {
                assert(q[i] == lig);
            }
        }
        assert forall|i: int, j: int| 0 <= i < j < q.len() implies q[i].0 < q[j].0 by {
            let pl = p.len() as int;
            let sl = singles.len() as int;
            if j < pl {
                assert(q[i] == p[i] && q[j] == p[j]);
            } else if j < pl + sl {
                assert(q[j] == singles[j - pl]);
                if i < pl {
                    assert(q[i] == p[i]);
                } else {
                    assert(q[i] == singles[i - pl]);
                }
            } else {
                assert(q[j] == lig);
                if i < pl {
                    assert(q[i] == p[i]);
                } else if i < pl + sl {
                    assert(q[i] == singles[i - pl]);
                }
            }
        }
    }
}

/// With well-formed matches none of which is empty, the pieces come at
/// strictly increasing positions of the text.
pub proof fn law_pieces_with_matches_increase(s: Seq<char>, ms: Seq<(usize, usize)>)
    requires
        matches_well_formed(s, ms),
        matches_nonempty(ms),
    ensures
        positions_increase(pieces_with_matches(s, ms)),
        forall|i: int| 0 <= i < pieces_with_matches(s, ms).len() ==> 0 <= (#[trigger] pieces_with_matches(s, ms)[i]).0 < s.len(),
{
    lemma_pieces_upto_increase(s, ms, ms.len());
    let (p, lb) = pieces_upto(s, ms, ms.len());
    lemma_boundary_le_len(s, lb);
    lemma_boundary_chars(s, lb, byte_len(s) as int);
    assert(is_boundary(s, byte_len(s) as int));
    lemma_char_at_byte(s, s.len() as int);
    let start = char_index_or(s, lb, s.len() as int);
    let singles = single_pieces(s, start, s.len() as int);
    let q = p + singles;
    assert(start >= char_at_byte(s, lb));
    assert forall|i: int| 0 <= i < q.len() implies 0 <= (#[trigger] q[i]).0 < s.len() by {
        if i < p.len() {
            assert(q[i] == p[i]);
        } else {
            assert(q[i] == singles[i - p.len()]);
        }
    }
    assert forall|i: int, j: int| 0 <= i < j < q.len() implies q[i].0 < q[j].0 by {
        if j < p.len() {
            assert(q[i] == p[i] && q[j] == p[j]);
        } else {
            assert(q[j] == singles[j - p.len()]);
            if i < p.len() {
                assert(q[i] == p[i]);
            } else {
                assert(q[i] == singles[i - p.len()]);
            }
        }
    }
}

impl Typography {
    /// The glyph pieces of a text come at strictly increasing positions of
    /// it, whenever the ligature matches are well formed and none is empty
    /// (no ligature key is empty).
    pub proof fn law_glyph_pieces_increase(&self, s: Seq<char>)
        requires
            self.uses_ligature_regex() ==> matches_well_formed(s, regex_find_of(self, s))
                && matches_nonempty(regex_find_of(self, s)),
        ensures
            positions_increase(self.glyph_pieces(s)),
            forall|i: int| 0 <= i < self.glyph_pieces(s).len() ==> 0 <= (#[trigger] self.glyph_pieces(s)[i]).0 < s.len(),
    {
        if self.uses_ligature_regex() {
            law_pieces_with_matches_increase(s, regex_find_of(self, s));
        }
    }
}

/// The positions of a list of pieces.
pub open spec fn piece_positions(p: Seq<(int, Seq<char>)>) -> Seq<int> {
    Seq::new(p.len(), |i: int| p[i].0)
}

/// A position between the end of match `k - 1` and the start of match `k`
/// lies inside no match.
proof fn lemma_not_inside(s: Seq<char>, ms: Seq<(usize, usize)>, x: int, k: int)
    requires
        matches_well_formed(s, ms),
        matches_nonempty(ms),
        0 <= k <= ms.len(),
        k > 0 ==> char_at_byte(s, ms[k - 1].1 as int) <= x,
        k < ms.len() ==> x <= char_at_byte(s, ms[k].0 as int),
    ensures
        !crate::measure::inside_match(s, ms, x),
{
    if crate::measure::inside_match(s, ms, x) {
        let j = choose|j: int| 0 <= j < ms.len() && crate::measure::match_extent(s, #[trigger] ms[j]).0 + 1 <= x
            < crate::measure::match_extent(s, ms[j]).0 + crate::measure::match_extent(s, ms[j]).1;
        let mj = ms[j];
        lemma_boundary_le_len(s, mj.1 as int);
        lemma_boundary_strict(s, mj.0 as int, mj.1 as int);
        assert(crate::measure::match_extent(s, mj).0 == char_at_byte(s, mj.0 as int));
        if j < k {
            let e = ms[k - 1].1 as int;
            if j < k - 1 {
                assert(mj.1 <= ms[k - 1].0);
                assert(ms[k - 1].0 < ms[k - 1].1);
            }
            lemma_boundary_chars(s, mj.1 as int, e);
        } else {
            let b = ms[k].0 as int;
            if j > k {
                assert(ms[k].0 < mj.0);
            }
            lemma_boundary_chars(s, b, mj.0 as int);
        }
    }
}

/// Positions `a..b`, none inside a match, extend the positions outside.
proof fn lemma_outside_extend_out(s: Seq<char>, ms: Seq<(usize, usize)>, a: nat, b: nat)
    requires
        a <= b,
        forall|x: int| a <= x < b ==> !crate::measure::inside_match(s, ms, x),
    ensures
        crate::measure::positions_outside(s, ms, b) == crate::measure::positions_outside(s, ms, a)
            + Seq::new((b - a) as nat, |i: int| a + i),
    decreases b - a,
{
    if b > a {
        lemma_outside_extend_out(s, ms, a, (b - 1) as nat);
        assert(!crate::measure::inside_match(s, ms, b - 1));
        assert(Seq::new((b - 1 - a) as nat, |i: int| a + i).push(b - 1) =~= Seq::new((b - a) as nat, |i: int| a + i));
    } else {
        assert(Seq::new(0nat, |i: int| a + i) =~= Seq::<int>::empty());
    }
}

/// Positions `a..b`, all inside matches, add nothing to the positions outside.
proof fn lemma_outside_extend_in(s: Seq<char>, ms: Seq<(usize, usize)>, a: nat, b: nat)
    requires
        a <= b,
        forall|x: int| a <= x < b ==> crate::measure::inside_match(s, ms, x),
    ensures
        crate::measure::positions_outside(s, ms, b) == crate::measure::positions_outside(s, ms, a),
    decreases b - a,
{
    if b > a {
        lemma_outside_extend_in(s, ms, a, (b - 1) as nat);
        assert(crate::measure::inside_match(s, ms, b - 1));
    }
}

proof fn lemma_pieces_upto_positions(s: Seq<char>, ms: Seq<(usize, usize)>, n: nat)
    requires
        matches_well_formed(s, ms),
        matches_nonempty(ms),
        n <= ms.len(),
    ensures
        0 <= char_at_byte(s, pieces_upto(s, ms, n).1),
        piece_positions(pieces_upto(s, ms, n).0)
            == crate::measure::positions_outside(s, ms, char_at_byte(s, pieces_upto(s, ms, n).1) as nat),
    decreases n,
{
    lemma_pieces_upto_increase(s, ms, n);
    if n == 0 {
        lemma_char_at_byte(s, 0);
        assert(byte_offset(s, 0) == 0);
        assert(piece_positions(Seq::<(int, Seq<char>)>::empty()) =~= Seq::<int>::empty());
    } else {
        lemma_pieces_upto_positions(s, ms, (n - 1) as nat);
        lemma_pieces_upto_increase(s, ms, (n - 1) as nat);
        let (p, lb) = pieces_upto(s, ms, (n - 1) as nat);
        let m = ms[n - 1];
        if n - 1 > 0 {
            assert(ms[n - 2].1 <= ms[n - 1].0);
        }
        assert(is_boundary(s, m.0 as int));
        assert(is_boundary(s, m.1 as int));
        lemma_boundary_le_len(s, m.1 as int);
        lemma_boundary_strict(s, m.0 as int, m.1 as int);
        lemma_boundary_chars(s, lb, m.0 as int);
        let c0 = char_at_byte(s, lb);
        let cm = char_at_byte(s, m.0 as int);
        let c1 = char_at_byte(s, m.1 as int);
        let singles = single_pieces(s, c0, cm);
        let lig = (cm, s.subrange(cm, c1));
        assert(pieces_upto(s, ms, n).0 == p + singles + seq![lig]);
        assert forall|x: int| c0 <= x < cm + 1 implies !crate::measure::inside_match(s, ms, x) by {
            if n - 1 > 0 {
                assert(lb == ms[n - 2].1);
            }
            lemma_not_inside(s, ms, x, n - 1);
        }
        assert forall|x: int| cm + 1 <= x < c1 implies crate::measure::inside_match(s, ms, x) by {
            assert(crate::measure::match_extent(s, ms[n - 1]).0 == cm);
        }
        lemma_outside_extend_out(s, ms, c0 as nat, (cm + 1) as nat);
        lemma_outside_extend_in(s, ms, (cm + 1) as nat, c1 as nat);
        assert(piece_positions(p + singles + seq![lig]) =~= piece_positions(p) + Seq::new((cm + 1 - c0) as nat, |i: int| c0 + i));
    }
}

/// With well-formed matches none of which is empty, the glyph borders are
/// exactly the positions of the glyph pieces.
pub proof fn law_pieces_positions_are_borders(s: Seq<char>, ms: Seq<(usize, usize)>)
    requires
        matches_well_formed(s, ms),
        matches_nonempty(ms),
    ensures
        piece_positions(pieces_with_matches(s, ms)) == crate::measure::positions_outside(s, ms, s.len()),
{
    lemma_pieces_upto_positions(s, ms, ms.len());
    lemma_pieces_upto_increase(s, ms, ms.len());
    let (p, lb) = pieces_upto(s, ms, ms.len());
    lemma_boundary_le_len(s, lb);
    assert(is_boundary(s, byte_len(s) as int));
    lemma_char_at_byte(s, s.len() as int);
    lemma_boundary_chars(s, lb, byte_len(s) as int);
    let c0 = char_at_byte(s, lb);
    let start = char_index_or(s, lb, s.len() as int);
    assert(start == c0);
    let singles = single_pieces(s, start, s.len() as int);
    assert forall|x: int| c0 <= x < s.len() implies !crate::measure::inside_match(s, ms, x) by {
        lemma_not_inside(s, ms, x, ms.len() as int);
    }
    lemma_outside_extend_out(s, ms, c0 as nat, s.len());
    assert(piece_positions(p + singles) =~= piece_positions(p) + Seq::new((s.len() - c0) as nat, |i: int| c0 + i));
}

impl Typography {
    /// The glyph borders of a text are the positions its glyph pieces start
    /// at, whenever the ligature matches are well formed and none is empty.
    pub proof fn law_glyph_borders_are_piece_positions(&self, s: Seq<char>)
        requires
            self.uses_ligature_regex() ==> matches_well_formed(s, regex_find_of(self, s))
                && matches_nonempty(regex_find_of(self, s)),
        ensures
            self.glyph_border_seq(s) == piece_positions(self.glyph_pieces(s)),
    {
        if self.uses_ligature_regex() {
            law_pieces_positions_are_borders(s, regex_find_of(self, s));
        } else {
            assert(self.glyph_border_seq(s) =~= piece_positions(self.glyph_pieces(s)));
        }
    }
}

/// The positions of the pieces with a non-empty key, in order.
pub open spec fn glyph_starts(p: Seq<(int, Seq<char>)>) -> Seq<int>
    decreases p.len(),
{
    if p.len() == 0 {
        Seq::empty()
    } else {
        let r = glyph_starts(p.drop_last());
        if p.last().1.len() > 0 { r.push(p.last().0) } else { r }
    }
}

proof fn lemma_glyph_starts_concat(a: Seq<(int, Seq<char>)>, b: Seq<(int, Seq<char>)>)
    ensures
        glyph_starts(a + b) == glyph_starts(a) + glyph_starts(b),
    decreases b.len(),
{
    if b.len() == 0 {
        assert(a + b =~= a);
        assert(glyph_starts(a) + glyph_starts(b) =~= glyph_starts(a));
    } else {
        lemma_glyph_starts_concat(a, b.drop_last());
        assert((a + b).drop_last() =~= a + b.drop_last());
        assert((a + b).last() == b.last());
        if b.last().1.len() > 0 {
            assert(glyph_starts(a) + glyph_starts(b.drop_last()).push(b.last().0)
                =~= (glyph_starts(a) + glyph_starts(b.drop_last())).push(b.last().0));
        }
    }
}

proof fn lemma_glyph_starts_singles(s: Seq<char>, from: int, to: int)
    requires
        0 <= from <= to <= s.len(),
    ensures
        glyph_starts(single_pieces(s, from, to)) == Seq::new((to - from) as nat, |i: int| from + i),
    decreases to - from,
{
    if to > from {
        lemma_glyph_starts_singles(s, from, to - 1);
        assert(single_pieces(s, from, to).drop_last() =~= single_pieces(s, from, to - 1));
        assert(Seq::new((to - 1 - from) as nat, |i: int| from + i).push(to - 1) =~= Seq::new((to - from) as nat, |i: int| from + i));
    } else {
        assert(single_pieces(s, from, to) =~= Seq::<(int, Seq<char>)>::empty());
        assert(Seq::new(0nat, |i: int| from + i) =~= Seq::<int>::empty());
    }
}

/// Where the pieces up to match `n` end: at the end of that match, a boundary.
proof fn lemma_pieces_upto_end(s: Seq<char>, ms: Seq<(usize, usize)>, n: nat)
    requires
        matches_well_formed(s, ms),
        n <= ms.len(),
    ensures
        is_boundary(s, pieces_upto(s, ms, n).1),
        n > 0 ==> pieces_upto(s, ms, n).1 == ms[n - 1].1,
    decreases n,
{
    if n == 0 {
        assert(byte_offset(s, 0) == 0);
    } else {
        lemma_pieces_upto_end(s, ms, (n - 1) as nat);
        assert(is_boundary(s, ms[n - 1].1 as int));
    }
}

/// A position between the end of match `k - 1` and the start of match `k`
/// lies inside no match (empty matches included).
proof fn lemma_not_inside_any(s: Seq<char>, ms: Seq<(usize, usize)>, x: int, k: int)
    requires
        matches_well_formed(s, ms),
        0 <= k <= ms.len(),
        k > 0 ==> char_at_byte(s, ms[k - 1].1 as int) <= x,
        k < ms.len() ==> x <= char_at_byte(s, ms[k].0 as int),
    ensures
        !crate::measure::inside_match(s, ms, x),
{
    if crate::measure::inside_match(s, ms, x) {
        let j = choose|j: int| 0 <= j < ms.len() && crate::measure::match_extent(s, #[trigger] ms[j]).0 + 1 <= x
            < crate::measure::match_extent(s, ms[j]).0 + crate::measure::match_extent(s, ms[j]).1;
        let mj = ms[j];
        if mj.0 == mj.1 {
            assert(crate::measure::match_extent(s, mj).1 == 0);
        } else {
            lemma_boundary_le_len(s, mj.1 as int);
            lemma_boundary_strict(s, mj.0 as int, mj.1 as int);
            assert(crate::measure::match_extent(s, mj).0 == char_at_byte(s, mj.0 as int));
            if j < k {
                let e = ms[k - 1].1 as int;
                if j < k - 1 {
                    assert(mj.1 <= ms[k - 1].0);
                    assert(ms[k - 1].0 <= ms[k - 1].1);
                }
                lemma_boundary_chars(s, mj.1 as int, e);
            } else {
                let b = ms[k].0 as int;
                if j > k {
                    assert(ms[k].0 < mj.0);
                }
                lemma_boundary_chars(s, b, mj.0 as int);
            }
        }
    }
}

proof fn lemma_pieces_upto_starts(s: Seq<char>, ms: Seq<(usize, usize)>, n: nat)
    requires
        matches_well_formed(s, ms),
        n <= ms.len(),
    ensures
        0 <= char_at_byte(s, pieces_upto(s, ms, n).1),
        glyph_starts(pieces_upto(s, ms, n).0)
            == crate::measure::positions_outside(s, ms, char_at_byte(s, pieces_upto(s, ms, n).1) as nat),
    decreases n,
{
    lemma_pieces_upto_end(s, ms, n);
    if n == 0 {
        lemma_char_at_byte(s, 0);
        assert(byte_offset(s, 0) == 0);
        assert(glyph_starts(Seq::<(int, Seq<char>)>::empty()) =~= Seq::<int>::empty());
    } else {
        lemma_pieces_upto_starts(s, ms, (n - 1) as nat);
        lemma_pieces_upto_end(s, ms, (n - 1) as nat);
        let (p, lb) = pieces_upto(s, ms, (n - 1) as nat);
        let m = ms[n - 1];
        if n - 1 > 0 {
            assert(ms[n - 2].1 <= ms[n - 1].0);
        }
        assert(is_boundary(s, m.0 as int));
        assert(is_boundary(s, m.1 as int));
        lemma_boundary_le_len(s, m.1 as int);
        lemma_boundary_chars(s, m.0 as int, m.1 as int);
        lemma_boundary_chars(s, lb, m.0 as int);
        let c0 = char_at_byte(s, lb);
        let cm = char_at_byte(s, m.0 as int);
        let c1 = char_at_byte(s, m.1 as int);
        assert forall|x: int| c0 <= x < cm implies !crate::measure::inside_match(s, ms, x) by {
            lemma_not_inside_any(s, ms, x, n - 1);
        }
        lemma_outside_extend_out(s, ms, c0 as nat, cm as nat);
        if lb < byte_len(s) {
            let singles = single_pieces(s, c0, cm);
            lemma_glyph_starts_singles(s, c0, cm);
            if m.0 < m.1 {
                lemma_boundary_strict(s, m.0 as int, m.1 as int);
                let lig = (cm, s.subrange(cm, c1));
                assert(pieces_upto(s, ms, n).0 == p + singles + seq![lig]);
                assert(!crate::measure::inside_match(s, ms, cm)) by {
                    lemma_not_inside_any(s, ms, cm, n - 1);
                }
                assert forall|x: int| cm + 1 <= x < c1 implies crate::measure::inside_match(s, ms, x) by {
                    assert(crate::measure::match_extent(s, ms[n - 1]).0 == cm);
                }
                lemma_outside_extend_out(s, ms, cm as nat, (cm + 1) as nat);
                lemma_outside_extend_in(s, ms, (cm + 1) as nat, c1 as nat);
                lemma_glyph_starts_concat(p + singles, seq![lig]);
                lemma_glyph_starts_concat(p, singles);
                assert(seq![lig].drop_last() =~= Seq::<(int, Seq<char>)>::empty());
                assert(glyph_starts(Seq::<(int, Seq<char>)>::empty()) =~= Seq::<int>::empty());
                assert(seq![lig].last() == lig);
                assert(glyph_starts(seq![lig]) =~= seq![cm]);
                assert(Seq::new((cm - c0) as nat, |i: int| c0 + i) + seq![cm] =~= Seq::new((cm + 1 - c0) as nat, |i: int| c0 + i));
                assert(crate::measure::positions_outside(s, ms, (cm + 1) as nat) == crate::measure::positions_outside(s, ms, c0 as nat)
                    + Seq::new((cm + 1 - c0) as nat, |i: int| c0 + i)) by {
                    assert(Seq::new(1nat, |i: int| cm + i) =~= seq![cm]);
                }
            } else {
                let lig = (char_index_or(s, m.0 as int, 0), s.subrange(cm, c1));
                assert(c1 == cm);
                assert(lig.1.len() == 0);
                assert(pieces_upto(s, ms, n).0 == p + singles + seq![lig]);
                lemma_glyph_starts_concat(p + singles, seq![lig]);
                lemma_glyph_starts_concat(p, singles);
                assert(seq![lig].drop_last() =~= Seq::<(int, Seq<char>)>::empty());
                assert(glyph_starts(Seq::<(int, Seq<char>)>::empty()) =~= Seq::<int>::empty());
                assert(seq![lig].last() == lig);
                assert(glyph_starts(seq![lig]) =~= Seq::<int>::empty());
                assert(glyph_starts(p + singles) + Seq::<int>::empty() =~= glyph_starts(p + singles));
            }
        } else {
            assert(lb == byte_len(s));
            assert(m.0 as int == lb && m.1 as int == lb);
            let lig = (char_index_or(s, m.0 as int, 0), s.subrange(cm, c1));
            assert(lig.1.len() == 0);
            assert(pieces_upto(s, ms, n).0 == p + Seq::<(int, Seq<char>)>::empty() + seq![lig]);
            assert(p + Seq::<(int, Seq<char>)>::empty() =~= p);
            lemma_glyph_starts_concat(p, seq![lig]);
            assert(seq![lig].drop_last() =~= Seq::<(int, Seq<char>)>::empty());
                assert(glyph_starts(Seq::<(int, Seq<char>)>::empty()) =~= Seq::<int>::empty());
                assert(seq![lig].last() == lig);
            assert(glyph_starts(seq![lig]) =~= Seq::<int>::empty());
            assert(glyph_starts(p) + Seq::<int>::empty() =~= glyph_starts(p));
        }
    }
}

/// With well-formed matches, empty ones included, the glyph borders are
/// exactly the positions of the glyph pieces with a non-empty key.
pub proof fn law_glyph_starts_are_borders(s: Seq<char>, ms: Seq<(usize, usize)>)
    requires
        matches_well_formed(s, ms),
    ensures
        glyph_starts(pieces_with_matches(s, ms)) == crate::measure::positions_outside(s, ms, s.len()),
{
    lemma_pieces_upto_starts(s, ms, ms.len());
    lemma_pieces_upto_end(s, ms, ms.len());
    let (p, lb) = pieces_upto(s, ms, ms.len());
    lemma_boundary_le_len(s, lb);
    assert(is_boundary(s, byte_len(s) as int));
    lemma_char_at_byte(s, s.len() as int);
    lemma_boundary_chars(s, lb, byte_len(s) as int);
    let c0 = char_at_byte(s, lb);
    let start = char_index_or(s, lb, s.len() as int);
    assert(start == c0);
    let singles = single_pieces(s, start, s.len() as int);
    assert forall|x: int| c0 <= x < s.len() implies !crate::measure::inside_match(s, ms, x) by {
        lemma_not_inside_any(s, ms, x, ms.len() as int);
    }
    lemma_outside_extend_out(s, ms, c0 as nat, s.len());
    lemma_glyph_starts_concat(p, singles);
    lemma_glyph_starts_singles(s, c0, s.len() as int);
}

impl Typography {
    /// The glyph borders of a text are the positions where its glyph pieces
    /// with a non-empty key start, whenever the ligature matches are well
    /// formed (as the matching call states of every result).
    pub proof fn law_glyph_borders_are_glyph_starts(&self, s: Seq<char>)
        requires
            self.uses_ligature_regex() ==> matches_well_formed(s, regex_find_of(self, s)),
        ensures
            self.glyph_border_seq(s) == glyph_starts(self.glyph_pieces(s)),
    {
        if self.uses_ligature_regex() {
            law_glyph_starts_are_borders(s, regex_find_of(self, s));
        } else {
            lemma_glyph_starts_singles(s, 0, s.len() as int);
            assert(single_pieces(s, 0, s.len() as int) =~= pieces_by_char(s));
            assert(self.glyph_border_seq(s) =~= Seq::new(s.len(), |i: int| 0 + i));
        }
    }
}

/// Offsets that are never negative and strictly increase.
pub open spec fn offsets_increase(v: Seq<int>) -> bool {
    &&& forall|i: int| 0 <= i < v.len() ==> 0 <= #[trigger] v[i]
    &&& forall|i: int, j: int| 0 <= i < j < v.len() ==> v[i] < v[j]
}

proof fn lemma_increase_push(v: Seq<int>, x: int)
    requires
        offsets_increase(v),
        v.len() > 0 ==> v.last() < x,
        0 <= x,
    ensures
        offsets_increase(v.push(x)),
{
    assert forall|i: int, j: int| 0 <= i < j < v.push(x).len() implies v.push(x)[i] < v.push(x)[j] by {
        if j == v.len() {
            if i < v.len() - 1 {
                assert(v[i] < v[v.len() - 1]);
            }
        } else {
            assert(v.push(x)[i] == v[i] && v.push(x)[j] == v[j]);
        }
    }
}

/// `v` increases and every element is below `x`: `v` followed by `x` increases.
proof fn lemma_increase_below(v: Seq<int>, x: int)
    requires
        offsets_increase(v.push(x)),
    ensures
        offsets_increase(v),
        forall|i: int| 0 <= i < v.len() ==> #[trigger] v[i] < x,
        0 <= x,
{
    let w = v.push(x);
    assert(w[v.len() as int] == x);
    assert forall|i: int| 0 <= i < v.len() implies #[trigger] v[i] < x by {
        assert(w[i] == v[i]);
    }
    assert forall|i: int, j: int| 0 <= i < j < v.len() implies v[i] < v[j] by {
        assert(w[i] == v[i] && w[j] == v[j]);
    }
    assert forall|i: int| 0 <= i < v.len() implies 0 <= #[trigger] v[i] by {
        assert(w[i] == v[i]);
    }
}

impl Typography {
    proof fn lemma_chunks_nonempty(&self, s: Seq<char>, lst: int, w: int)
        requires
            0 <= lst <= s.len(),
        ensures
            forall|i: int| 0 <= i < self.chunks_from(s, lst, w).len() ==> (#[trigger] self.chunks_from(s, lst, w)[i]).len() > 0,
        decreases s.len() - lst,
    {
        if lst < s.len() {
            self.lemma_chunk_end_range(s, lst, lst + 1, w);
            let e = self.chunk_end(s, lst, lst + 1, w);
            self.lemma_chunks_nonempty(s, e, w);
            let c = self.chunks_from(s, lst, w);
            let rest = self.chunks_from(s, e, w);
            assert forall|i: int| 0 <= i < c.len() implies (#[trigger] c[i]).len() > 0 by {
                if i > 0 {
                    assert(c[i] == rest[i - 1]);
                }
            }
        }
    }

    proof fn lemma_after_chunks_increase(&self, st: (int, int, Seq<int>), chunks: Seq<Seq<char>>)
        requires
            offsets_increase(st.2.push(st.0)),
            forall|i: int| 0 <= i < chunks.len() ==> (#[trigger] chunks[i]).len() > 0,
        ensures
            offsets_increase(self.after_chunks(st, chunks).2.push(self.after_chunks(st, chunks).0)),
            self.after_chunks(st, chunks).0 >= st.0,
        decreases chunks.len(),
    {
        if chunks.len() > 0 {
            assert forall|i: int| 0 <= i < chunks.drop_last().len() implies (#[trigger] chunks.drop_last()[i]).len() > 0 by {
                assert(chunks.drop_last()[i] == chunks[i]);
            }
            self.lemma_after_chunks_increase(st, chunks.drop_last());
            let p = self.after_chunks(st, chunks.drop_last());
            assert(chunks.last().len() > 0);
            assert(p.2.push(p.0).last() == p.0);
            lemma_increase_below(p.2, p.0);
            lemma_increase_push(p.2.push(p.0), p.0 + chunks.last().len());
        }
    }

    proof fn lemma_divide_step_increase(&self, st: (int, int, Seq<int>), word: Seq<char>, width: int, fold: bool)
        requires
            offsets_increase(st.2.push(st.0)),
        ensures
            offsets_increase(self.divide_step(st, word, width, fold).2.push(self.divide_step(st, word, width, fold).0)),
    {
        let (offset, length, offsets) = st;
        let space = self.font.space() as int;
        let remaining = if width - length - space > 0 { width - length - space } else { 0 };
        let wl = self.text_width(word);
        lemma_increase_below(offsets, offset);
        if wl > remaining {
            assert(word.len() > 0);
            if fold && wl > width && word.len() > 0 && self.text_width(seq![word[0]]) <= remaining {
                let fo = self.fold_end(word, remaining, 1);
                self.lemma_fold_end_at_least(word, remaining, 1);
                self.lemma_fold_end_at_most(word, remaining, 1);
                let o1 = (if offset > 0 { offset + 1 } else { offset }) + fo;
                let l1 = (if length > 0 { length + space } else { length }) + self.text_width(word.take(fo));
                lemma_increase_push(offsets, o1);
                self.lemma_chunks_nonempty(word.skip(fo), 0, width);
                self.lemma_after_chunks_increase((o1, l1, offsets), self.chunks(word.skip(fo), width));
            } else {
                let o1 = if offset > 0 || word.len() == 0 { offset + 1 } else { offset };
                lemma_increase_push(offsets, o1);
                lemma_increase_push(offsets.push(o1), o1 + word.len());
            }
        } else {
            let o1 = (if offset > 0 || word.len() == 0 { offset + 1 } else { offset }) + word.len();
            lemma_increase_push(offsets, o1);
        }
    }

    proof fn lemma_divide_upto_increase(&self, words: Seq<Seq<char>>, n: nat, width: int, fold: bool)
        ensures
            offsets_increase(self.divide_upto(words, n, width, fold).2.push(self.divide_upto(words, n, width, fold).0)),
        decreases n,
    {
        if n == 0 {
            assert(Seq::<int>::empty().push(0) =~= seq![0int]);
        } else {
            self.lemma_divide_upto_increase(words, (n - 1) as nat, width, fold);
            self.lemma_divide_step_increase(self.divide_upto(words, (n - 1) as nat, width, fold), words[n - 1], width, fold);
        }
    }

    /// The offsets at which a text is divided into lines are never negative
    /// and strictly increase.
    pub proof fn law_division_increases(&self, s: Seq<char>, width: int, fold: bool)
        ensures
            offsets_increase(self.division(s, width, fold)),
    {
        let words = crate::text::split_on(s, ' ');
        self.lemma_divide_upto_increase(words, words.len(), width, fold);
    }
}

/// Combining styles left to right lets a later style win: the combination
/// of `ss` followed by `x` takes every attribute that `x` sets from `x`,
/// and every other attribute from the combination of `ss`. With no styles
/// nothing is set.
pub proof fn law_later_style_wins(ss: Seq<TextStyle>, x: TextStyle)
    ensures
        crate::styling::combine_seq(Seq::empty()) == null_style(),
        ({
            let r = crate::styling::combine_seq(ss.push(x));
            let b = crate::styling::combine_seq(ss);
            &&& r.color == (if x.color is Some { x.color } else { b.color })
            &&& r.bgcolor == (if x.bgcolor is Some { x.bgcolor } else { b.bgcolor })
            &&& r.bold == (if x.bold is Some { x.bold } else { b.bold })
            &&& r.dim == (if x.dim is Some { x.dim } else { b.dim })
            &&& r.italic == (if x.italic is Some { x.italic } else { b.italic })
            &&& r.underline == (if x.underline is Some { x.underline } else { b.underline })
            &&& r.blink == (if x.blink is Some { x.blink } else { b.blink })
            &&& r.blink2 == (if x.blink2 is Some { x.blink2 } else { b.blink2 })
            &&& r.reverse == (if x.reverse is Some { x.reverse } else { b.reverse })
            &&& r.conceal == (if x.conceal is Some { x.conceal } else { b.conceal })
            &&& r.strike == (if x.strike is Some { x.strike } else { b.strike })
            &&& r.underline2 == (if x.underline2 is Some { x.underline2 } else { b.underline2 })
            &&& r.frame == (if x.frame is Some { x.frame } else { b.frame })
            &&& r.encircle == (if x.encircle is Some { x.encircle } else { b.encircle })
            &&& r.overline == (if x.overline is Some { x.overline } else { b.overline })
        }),
{
    assert(ss.push(x).drop_last() =~= ss);
}

impl Typography {
    /// A text is never measured narrower than nothing.
    pub proof fn lemma_text_width_nonneg(&self, s: Seq<char>)
        ensures
            self.text_width(s) >= 0,
    {
    }

    /// The widest of a list of keys is at least the width of each of them,
    /// and is the width of one of them when there is any (0 for none).
    pub proof fn law_widest_is_max(&self, keys: Seq<Seq<char>>)
        ensures
            forall|i: int| 0 <= i < keys.len() ==> self.widest(keys) >= self.text_width(#[trigger] keys[i]),
            keys.len() == 0 ==> self.widest(keys) == 0,
            keys.len() > 0 ==> exists|i: int| 0 <= i < keys.len() && self.widest(keys) == self.text_width(#[trigger] keys[i]),
        decreases keys.len(),
    {
        if keys.len() > 0 {
            let d = keys.drop_last();
            self.law_widest_is_max(d);
            self.lemma_text_width_nonneg(keys.last());
            assert forall|i: int| 0 <= i < keys.len() implies self.widest(keys) >= self.text_width(#[trigger] keys[i]) by {
                if i < keys.len() - 1 {
                    assert(keys[i] == d[i]);
                }
            }
            if d.len() > 0 {
                let j = choose|j: int| 0 <= j < d.len() && self.widest(d) == self.text_width(#[trigger] d[j]);
                assert(keys[j] == d[j]);
                if self.widest(keys) == self.widest(d) {
                    assert(self.widest(keys) == self.text_width(keys[j]));
                } else {
                    assert(self.widest(keys) == self.text_width(keys[keys.len() - 1]));
                }
            } else {
                assert(self.widest(keys) == self.text_width(keys[keys.len() - 1]));
            }
        }
    }

    /// The minimum width of a text is at least the width of each of its
    /// characters and of each of its glyph keys.
    pub proof fn law_measure_minimum(&self, s: Seq<char>)
        ensures
            forall|i: int| 0 <= i < s.len() ==> self.widest(self.measure_keys(s)) >= self.text_width(seq![#[trigger] s[i]]),
            forall|i: int| 0 <= i < self.glyph_pieces(s).len()
                ==> self.widest(self.measure_keys(s)) >= self.text_width(#[trigger] self.glyph_pieces(s)[i].1),
    {
        let keys = self.measure_keys(s);
        self.law_widest_is_max(keys);
        assert forall|i: int| 0 <= i < s.len() implies self.widest(keys) >= self.text_width(seq![#[trigger] s[i]]) by {
            assert(keys[i] == seq![s[i]]);
        }
        assert forall|i: int| 0 <= i < self.glyph_pieces(s).len()
            implies self.widest(keys) >= self.text_width(#[trigger] self.glyph_pieces(s)[i].1) by {
            assert(keys[s.len() + i] == self.glyph_pieces(s)[i].1);
        }
    }
}

proof fn lemma_first_shorter_split(sorted: Seq<Seq<char>>, n: nat, i: int)
    requires
        0 <= i <= sorted.len(),
    ensures
        i <= crate::ligature::first_shorter(sorted, n, i) <= sorted.len(),
        forall|j: int| i <= j < crate::ligature::first_shorter(sorted, n, i) ==> byte_len(#[trigger] sorted[j]) >= n,
        crate::ligature::first_shorter(sorted, n, i) < sorted.len()
            ==> byte_len(sorted[crate::ligature::first_shorter(sorted, n, i)]) < n,
    decreases sorted.len() - i,
{
    if i < sorted.len() && byte_len(sorted[i]) >= n {
        lemma_first_shorter_split(sorted, n, i + 1);
    }
}

/// Keys whose byte lengths never increase.
pub open spec fn longest_first(ks: Seq<Seq<char>>) -> bool {
    forall|i: int, j: int| 0 <= i < j < ks.len() ==> byte_len(#[trigger] ks[i]) >= byte_len(#[trigger] ks[j])
}

/// The keys a ligature pattern is built from come longest first, and are
/// the font's keys, each as often as it is given: so a longer ligature is
/// always tried before a shorter one it starts with.
pub proof fn law_ligatures_longest_first(keys: Seq<Seq<char>>)
    ensures
        longest_first(crate::ligature::sort_by_len(keys)),
        crate::ligature::sort_by_len(keys).to_multiset() == keys.to_multiset(),
        crate::ligature::ligature_pattern(keys) == crate::ligature::join_bar(crate::ligature::sort_by_len(keys)),
    decreases keys.len(),
{
    broadcast use vstd::seq_lib::group_to_multiset_ensures;
    if keys.len() == 0 {
        assert(Seq::<Seq<char>>::empty().to_multiset() =~= keys.to_multiset());
    } else {
        let d = keys.drop_last();
        let k = keys.last();
        law_ligatures_longest_first(d);
        let sorted = crate::ligature::sort_by_len(d);
        let n = byte_len(k);
        let p = crate::ligature::first_shorter(sorted, n, 0);
        lemma_first_shorter_split(sorted, n, 0);
        let r = sorted.take(p) + seq![k] + sorted.skip(p);
        assert(crate::ligature::sort_by_len(keys) == r);
        assert forall|i: int, j: int| 0 <= i < j < r.len() implies byte_len(#[trigger] r[i]) >= byte_len(#[trigger] r[j]) by {
            if j < p {
                assert(r[i] == sorted[i] && r[j] == sorted[j]);
            } else if j == p {
                assert(r[j] == k);
                assert(r[i] == sorted[i]);
            } else {
                assert(r[j] == sorted[j - 1]);
                if i < p {
                    assert(r[i] == sorted[i]);
                } else if i == p {
                    assert(r[i] == k);
                    if j - 1 > p {
                        assert(byte_len(sorted[p]) >= byte_len(sorted[j - 1]));
                    }
                } else {
                    assert(r[i] == sorted[i - 1]);
                }
            }
        }
        vstd::seq_lib::lemma_multiset_commutative(sorted.take(p) + seq![k], sorted.skip(p));
        vstd::seq_lib::lemma_multiset_commutative(sorted.take(p), seq![k]);
        vstd::seq_lib::lemma_multiset_commutative(sorted.take(p), sorted.skip(p));
        assert(sorted.take(p) + sorted.skip(p) =~= sorted);
        assert(seq![k] =~= Seq::<Seq<char>>::empty().push(k));
        assert(d.push(k) =~= keys);
        assert(r.to_multiset() =~= keys.to_multiset());
    }
}

/// The line style `ls`, for the decoration `attr`, is drawn as a line of
/// type `ty` on row `row` of a piece styled `st`: the style switches the
/// decoration on, the line belongs to this row and has that type.
pub open spec fn line_drawn(ls: crate::line::LineStyle, attr: Seq<char>, st: TextStyle, row: int, ty: crate::line::LineType) -> bool {
    ls.index == row && crate::styling::decoration_on(st, attr) && ls.line == ty
}

/// Some of the font's four line styles draws a line of type `ty` on row `row`.
pub open spec fn any_line_drawn(
    lines: (crate::line::LineStyle, crate::line::LineStyle, crate::line::LineStyle, crate::line::LineStyle),
    st: TextStyle,
    row: int,
    ty: crate::line::LineType,
) -> bool {
    ||| line_drawn(lines.0, "underline"@, st, row, ty)
    ||| line_drawn(lines.1, "underline2"@, st, row, ty)
    ||| line_drawn(lines.2, "overline"@, st, row, ty)
    ||| line_drawn(lines.3, "strike"@, st, row, ty)
}

/// Decorations are drawn on their own rows only. A piece of row `row` keeps
/// its style's colours and other attributes, while each of the four line
/// decorations is switched on exactly when one of the font's line styles
/// draws a line of that type on this row for a style that asks for it, and
/// is switched off everywhere else, whatever the piece's style says. Its
/// characters stay as they are unless a custom line is drawn on this row.
pub proof fn law_decorations_on_their_rows(
    lines: (crate::line::LineStyle, crate::line::LineStyle, crate::line::LineStyle, crate::line::LineStyle),
    st: TextStyle,
    row: int,
    text: Seq<char>,
)
    ensures
        ({
            let r = crate::render::decorated(lines, st, row, text).1;
            &&& r.color == st.color
            &&& r.bgcolor == st.bgcolor
            &&& r.bold == st.bold
            &&& r.dim == st.dim
            &&& r.italic == st.italic
            &&& r.blink == st.blink
            &&& r.blink2 == st.blink2
            &&& r.reverse == st.reverse
            &&& r.conceal == st.conceal
            &&& r.frame == st.frame
            &&& r.encircle == st.encircle
            &&& r.underline == Some(any_line_drawn(lines, st, row, crate::line::LineType::Underline))
            &&& r.underline2 == Some(any_line_drawn(lines, st, row, crate::line::LineType::Underline2))
            &&& r.overline == Some(any_line_drawn(lines, st, row, crate::line::LineType::Overline))
            &&& r.strike == Some(any_line_drawn(lines, st, row, crate::line::LineType::Strike))
        }),
        !any_line_drawn(lines, st, row, crate::line::LineType::Custom) ==> crate::render::decorated(lines, st, row, text).0 == text,
{
    reveal_strlit("underline");
    reveal_strlit("underline2");
    reveal_strlit("overline");
    reveal_strlit("strike");
    assert("underline"@.len() == 9 && "underline2"@.len() == 10 && "overline"@.len() == 8 && "strike"@.len() == 6);
    assert("underline"@ != "underline2"@ && "underline"@ != "overline"@ && "underline"@ != "strike"@);
    assert("underline2"@ != "overline"@ && "underline2"@ != "strike"@ && "overline"@ != "strike"@);
    let a0 = (text, crate::render::line_reset());
    let a1 = crate::render::decoration_step(a0, lines.0, "underline"@, st, row);
    let a2 = crate::render::decoration_step(a1, lines.1, "underline2"@, st, row);
    let a3 = crate::render::decoration_step(a2, lines.2, "overline"@, st, row);
    let a4 = crate::render::decoration_step(a3, lines.3, "strike"@, st, row);
    lemma_decoration_step_fields(a0, lines.0, "underline"@, st, row);
    lemma_decoration_step_fields(a1, lines.1, "underline2"@, st, row);
    lemma_decoration_step_fields(a2, lines.2, "overline"@, st, row);
    lemma_decoration_step_fields(a3, lines.3, "strike"@, st, row);
}

/// One decoration step switches on the decoration of the line type it
/// draws and leaves every other attribute, and the text unless it draws a
/// custom line, as it was.
proof fn lemma_decoration_step_fields(
    acc: (Seq<char>, TextStyle),
    ls: crate::line::LineStyle,
    attr: Seq<char>,
    st: TextStyle,
    row: int,
)
    ensures
        ({
            let r = crate::render::decoration_step(acc, ls, attr, st, row).1;
            let on = ls.index == row && crate::styling::decoration_on(st, attr);
            &&& r.color == acc.1.color && r.bgcolor == acc.1.bgcolor && r.bold == acc.1.bold && r.dim == acc.1.dim
            &&& r.italic == acc.1.italic && r.blink == acc.1.blink && r.blink2 == acc.1.blink2
            &&& r.reverse == acc.1.reverse && r.conceal == acc.1.conceal && r.frame == acc.1.frame
            &&& r.encircle == acc.1.encircle
            &&& r.underline == (if on && ls.line == crate::line::LineType::Underline { Some(true) } else { acc.1.underline })
            &&& r.underline2 == (if on && ls.line == crate::line::LineType::Underline2 { Some(true) } else { acc.1.underline2 })
            &&& r.overline == (if on && ls.line == crate::line::LineType::Overline { Some(true) } else { acc.1.overline })
            &&& r.strike == (if on && ls.line == crate::line::LineType::Strike { Some(true) } else { acc.1.strike })
            &&& !(on && ls.line == crate::line::LineType::Custom) ==> crate::render::decoration_step(acc, ls, attr, st, row).0 == acc.0
        }),
{
}

impl Typography {
    proof fn lemma_after_chunks_count(&self, st: (int, int, Seq<int>), chunks: Seq<Seq<char>>)
        ensures
            self.after_chunks(st, chunks).2.len() == st.2.len() + chunks.len(),
        decreases chunks.len(),
    {
        if chunks.len() > 0 {
            self.lemma_after_chunks_count(st, chunks.drop_last());
        }
    }

    proof fn lemma_fold_end_full(&self, word: Seq<char>, remaining: int, fo: int)
        requires
            1 <= fo <= word.len(),
            self.fold_end(word, remaining, fo) == word.len(),
            fo < word.len(),
        ensures
            self.text_width(word) <= remaining,
        decreases word.len() - fo,
    {
        if self.text_width(word.take(fo + 1)) <= remaining {
            if fo + 1 < word.len() {
                self.lemma_fold_end_full(word, remaining, fo + 1);
            } else {
                assert(word.take(fo + 1) =~= word);
            }
        }
    }

    /// A word placed without a line break before it: the line gets longer by
    /// the word's width, and by a space when the line already holds
    /// something (or the word is empty).
    proof fn lemma_divide_step_unbroken(&self, st: (int, int, Seq<int>), word: Seq<char>, width: int, fold: bool)
        ensures
            self.divide_step(st, word, width, fold).2.len() >= st.2.len(),
            self.divide_step(st, word, width, fold).2.len() == st.2.len() ==> self.divide_step(st, word, width, fold).1
                == (if st.1 > 0 || word.len() == 0 { st.1 + self.font.space() } else { st.1 }) + self.text_width(word),
            self.divide_step(st, word, width, fold).2.len() == st.2.len() ==> self.text_width(word) <= (if width - st.1
                - self.font.space() > 0 { width - st.1 - self.font.space() } else { 0 }),
    {
        let (offset, length, offsets) = st;
        let space = self.font.space() as int;
        let remaining = if width - length - space > 0 { width - length - space } else { 0 };
        let wl = self.text_width(word);
        if wl > remaining {
            if fold && wl > width && word.len() > 0 && self.text_width(seq![word[0]]) <= remaining {
                let fo = self.fold_end(word, remaining, 1);
                self.lemma_fold_end_at_least(word, remaining, 1);
                self.lemma_fold_end_at_most(word, remaining, 1);
                if fo == word.len() {
                    if word.len() == 1 {
                        assert(word =~= seq![word[0]]);
                    } else {
                        self.lemma_fold_end_full(word, remaining, 1);
                    }
                }
                assert(fo < word.len());
                let rest = word.skip(fo);
                let o1 = (if offset > 0 { offset + 1 } else { offset }) + fo;
                let l1 = (if length > 0 { length + space } else { length }) + self.text_width(word.take(fo));
                self.lemma_chunk_end_range(rest, 0, 1, width);
                assert(self.chunks(rest, width).len() >= 1);
                self.lemma_after_chunks_count((o1, l1, offsets), self.chunks(rest, width));
            }
        }
    }

    proof fn lemma_divide_upto_unbroken(&self, words: Seq<Seq<char>>, k: nat, width: int, fold: bool)
        requires
            1 <= k <= words.len(),
            words[0].len() > 0,
            self.text_width(words[0]) > 0,
            self.divide_upto(words, k, width, fold).2.len() == 0,
        ensures
            self.divide_upto(words, k, width, fold).1 == self.words_width(words.take(k as int)) + (k - 1) * self.font.space(),
            self.divide_upto(words, k, width, fold).1 > 0,
        decreases k,
    {
        let prev = self.divide_upto(words, (k - 1) as nat, width, fold);
        self.lemma_divide_step_unbroken(prev, words[k - 1], width, fold);
        self.lemma_text_width_nonneg(words[k - 1]);
        assert(words.take(k as int).drop_last() =~= words.take(k - 1));
        assert(words.take(k as int).last() == words[k - 1]);
        assert(self.words_width(words.take(k as int)) == self.words_width(words.take(k - 1)) + self.text_width(words[k - 1]));
        if k == 1 {
            assert(words.take(0) =~= Seq::<Seq<char>>::empty());
            assert(self.words_width(words.take(0)) == 0);
            assert(prev == (0int, 0int, Seq::<int>::empty()));
        } else {
            assert(prev.2.len() == 0);
            self.lemma_divide_upto_unbroken(words, (k - 1) as nat, width, fold);
            assert((k - 2) * self.font.space() + self.font.space() == (k - 1) * self.font.space()) by (nonlinear_arith);
        }
    }

    /// While no line break has been made, the running length of the line is
    /// the width of its words together with a space between each two: the
    /// division measures every word that fits, so a line is broken as soon
    /// as the next word would make it wider than the width. (The first word
    /// is taken to be a word of some width.)
    pub proof fn law_division_counts_words(&self, words: Seq<Seq<char>>, k: nat, width: int, fold: bool)
        requires
            1 <= k <= words.len(),
            words[0].len() > 0,
            self.text_width(words[0]) > 0,
            self.divide_upto(words, k, width, fold).2.len() == 0,
        ensures
            self.divide_upto(words, k, width, fold).1 == self.words_width(words.take(k as int)) + (k - 1) * self.font.space(),
    {
        self.lemma_divide_upto_unbroken(words, k, width, fold);
    }

    /// A word of some width goes on a line that already holds something only
    /// when the line with the space and the word stays within the width.
    pub proof fn law_division_breaks_before_overflow(&self, st: (int, int, Seq<int>), word: Seq<char>, width: int, fold: bool)
        requires
            st.1 > 0,
            self.text_width(word) > 0,
            self.divide_step(st, word, width, fold).2.len() == st.2.len(),
        ensures
            self.divide_step(st, word, width, fold).1 == st.1 + self.font.space() + self.text_width(word),
            st.1 + self.font.space() + self.text_width(word) <= width,
    {
        self.lemma_divide_step_unbroken(st, word, width, fold);
    }
}

impl Typography {
    /// A span overrides the base style where it is open: for a text with
    /// one span, the style in force at a position the span covers is the
    /// base style with every attribute the span sets taken from the span;
    /// where it is not open, it is the base style alone (none when the base
    /// style is null).
    pub proof fn law_span_over_base(&self, p: int)
        requires
            self.span_view().len() == 1,
        ensures
            ({
                let sp = self.span_view()[0];
                crate::styling::span_open_at(sp, p) && sp.style != null_style()
                    ==> crate::styling::combine_opt(self.styles_at(p)) == Some(crate::style::combined(
                        (if self.style == null_style() { null_style() } else { crate::style::combined(null_style(), self.style) }),
                        sp.style,
                    ))
            }),
            ({
                let sp = self.span_view()[0];
                !(crate::styling::span_open_at(sp, p) && sp.style != null_style())
                    ==> crate::styling::combine_opt(self.styles_at(p)) == (if self.style == null_style() {
                        None
                    } else {
                        Some(crate::style::combined(null_style(), self.style))
                    })
            }),
    {
        let sv = self.span_view();
        let sp = sv[0];
        assert(sv.drop_last() =~= Seq::<Span>::empty());
        let e = Seq::<Span>::empty();
        assert(crate::styling::sort_by_start(e) == e);
        assert(crate::styling::first_starting_after(e, sp.start, 0) == 0);
        assert(e.take(0) + seq![sp] + e.skip(0) =~= seq![sp]);
        assert(crate::styling::sort_by_start(sv) == seq![sp]);
        assert(seq![sp].drop_last() =~= e);
        assert(seq![sp].last() == sp);
        assert(crate::styling::open_styles(e, p) == Seq::<TextStyle>::empty());
        let opens = crate::styling::open_styles(seq![sp], p);
        assert(crate::styling::combine_seq(Seq::<TextStyle>::empty()) == null_style());
        let base: Seq<TextStyle> = if self.style == null_style() { Seq::empty() } else { seq![self.style] };
        assert(seq![self.style].drop_last() =~= Seq::<TextStyle>::empty());
        if crate::styling::span_open_at(sp, p) && sp.style != null_style() {
            assert(opens == Seq::<TextStyle>::empty().push(sp.style));
            assert(base + opens =~= base.push(sp.style));
            assert((base.push(sp.style)).drop_last() =~= base);
            assert((base.push(sp.style)).last() == sp.style);
            assert(seq![self.style].last() == self.style);
            assert(crate::styling::combine_seq(base) == (if self.style == null_style() { null_style() } else {
                crate::style::combined(null_style(), self.style) }));
            assert(crate::styling::combine_seq(base.push(sp.style)) == crate::style::combined(crate::styling::combine_seq(base), sp.style));
            assert(self.styles_at(p) == base + opens);
        } else {
            assert(opens == Seq::<TextStyle>::empty());
            assert(base + opens =~= base);
        }
    }
}

impl Typography {
    proof fn lemma_divide_line_length(&self, words: Seq<Seq<char>>, k: nat, width: int)
        requires
            1 <= k <= words.len(),
            forall|i: int| 0 <= i < words.len() ==> self.text_width(#[trigger] words[i]) > 0,
        ensures
            exists|b: int| 0 <= b < k && self.divide_upto(words, k, width, false).1
                == #[trigger] self.words_width(words.subrange(b, k as int)) + (k - b - 1) * self.font.space(),
            self.divide_upto(words, k, width, false).1 > 0,
        decreases k,
    {
        let prev = self.divide_upto(words, (k - 1) as nat, width, false);
        let w = words[k - 1];
        let tw = self.text_width(w);
        assert(tw > 0);
        assert(w.len() > 0);
        let space = self.font.space() as int;
        let remaining = if width - prev.1 - space > 0 { width - prev.1 - space } else { 0 };
        let cur = self.divide_upto(words, k, width, false);
        assert(words.subrange(k - 1, k as int).drop_last() =~= Seq::<Seq<char>>::empty());
        assert(words.subrange(k - 1, k as int).last() == w);
        assert(self.words_width(Seq::<Seq<char>>::empty()) == 0);
        assert(self.words_width(words.subrange(k - 1, k as int)) == tw);
        if k == 1 {
            assert(prev == (0int, 0int, Seq::<int>::empty()));
            assert(cur.1 == tw);
            assert(cur.1 == self.words_width(words.subrange(0, 1)) + (1 - 0 - 1) * space);
        } else {
            self.lemma_divide_line_length(words, (k - 1) as nat, width);
            let b = choose|b: int| 0 <= b < k - 1 && prev.1
                == #[trigger] self.words_width(words.subrange(b, k - 1)) + (k - 1 - b - 1) * space;
            if tw > remaining {
                assert(cur.1 == tw);
                assert(cur.1 == self.words_width(words.subrange(k - 1, k as int)) + (k - (k - 1) - 1) * space);
            } else {
                assert(cur.1 == prev.1 + space + tw);
                assert(words.subrange(b, k as int).drop_last() =~= words.subrange(b, k - 1));
                assert(words.subrange(b, k as int).last() == w);
                assert((k - 1 - b - 1) * space + space == (k - b - 1) * space) by (nonlinear_arith);
                assert(cur.1 == self.words_width(words.subrange(b, k as int)) + (k - b - 1) * space);
            }
        }
    }

    /// Without folding, and for words that each have some width, the running
    /// length of the division is always the width of the line being built:
    /// the words since the last line break, with a space between each two.
    /// A word that does not fit starts a new line of its own width.
    pub proof fn law_division_line_length(&self, words: Seq<Seq<char>>, k: nat, width: int)
        requires
            1 <= k <= words.len(),
            forall|i: int| 0 <= i < words.len() ==> self.text_width(#[trigger] words[i]) > 0,
        ensures
            exists|b: int| 0 <= b < k && self.divide_upto(words, k, width, false).1
                == #[trigger] self.words_width(words.subrange(b, k as int)) + (k - b - 1) * self.font.space(),
    {
        self.lemma_divide_line_length(words, k, width);
    }
}

} // verus!
