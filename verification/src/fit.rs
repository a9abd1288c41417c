use vstd::prelude::*;

use crate::chars::{concat, str_chars, string_from_chars};
use crate::ligature::one_char_string;
use crate::text::{
    lemma_split_on_total, lemma_total_len_elem, lemma_total_len_nonneg, lemma_total_len_prefix, split_chars_on, split_on,
    total_len,
};
use crate::style::{JustifyMethod, OverflowMethod, or_else};
use crate::typography::{Typography, strip_controls};

verus! {

broadcast use vstd::string::group_string_axioms;

impl Typography {
    /// The longest prefix of `s` that renders within `w` cells, found by
    /// dropping characters from the end (the empty text at the least).
    pub open spec fn shrunk(&self, s: Seq<char>, w: int) -> Seq<char>
        decreases s.len(),
    {
        if s.len() == 0 || self.text_width(s) <= w {
            s
        } else {
            self.shrunk(s.drop_last(), w)
        }
    }

    /// The overflow method in effect: the one given, else the typography's,
    /// else folding.
    pub open spec fn overflow_for(&self, overflow: Option<OverflowMethod>) -> OverflowMethod {
        match or_else(overflow, self.overflow) {
            Some(m) => m,
            None => OverflowMethod::Fold,
        }
    }

    /// The ellipsis: `…` where the font has that glyph, else three dots.
    pub open spec fn ellipsis_text(&self) -> Seq<char> {
        if self.font.has_glyph("…"@) { "…"@ } else { "..."@ }
    }

    /// With overflow method `m`, the ellipsis can be measured when it is used.
    pub open spec fn ellipsis_measurable(&self, m: OverflowMethod) -> bool {
        m == OverflowMethod::Ellipsis ==> self.measurable(self.ellipsis_text().len() as int)
    }

    /// Whether the ellipsis is `ellipsis_measurable` with overflow method `m`.
    pub fn check_ellipsis(&self, m: OverflowMethod) -> (r: bool)
        ensures
            r == self.ellipsis_measurable(m),
    {
        if m != OverflowMethod::Ellipsis {
            return true;
        }
        proof {
            reveal_strlit("…");
            reveal_strlit("...");
        }
        let ellipsis = if self.font.contains("…") { "…" } else { "..." };
        self.is_measurable(str_chars(ellipsis).len())
    }

    /// The text that truncation to `max_width` cells sets, or `None` when it
    /// leaves the typography as it is: with overflow ignored, or when the
    /// text fits. With an ellipsis, the text shrinks to leave room for it
    /// and it is appended; otherwise the text shrinks to the width.
    pub open spec fn truncation(&self, max_width: int, overflow: Option<OverflowMethod>) -> Option<Seq<char>> {
        let m = self.overflow_for(overflow);
        if m == OverflowMethod::Ignore || self.text_width(self.text_view()) <= max_width {
            None
        } else if m == OverflowMethod::Ellipsis {
            let e = self.ellipsis_text();
            let ew = self.text_width(e);
            let target = if max_width >= ew { max_width - ew } else { 0 };
            Some(self.shrunk(self.text_view(), target) + e)
        } else {
            Some(self.shrunk(self.text_view(), max_width))
        }
    }

    pub proof fn lemma_shrunk_prefix(&self, s: Seq<char>, w: int)
        ensures
            self.shrunk(s, w).len() <= s.len(),
            self.shrunk(s, w) == s.take(self.shrunk(s, w).len() as int),
        decreases s.len(),
    {
        if !(s.len() == 0 || self.text_width(s) <= w) {
            self.lemma_shrunk_prefix(s.drop_last(), w);
            let r = self.shrunk(s.drop_last(), w);
            assert(s.drop_last().take(r.len() as int) =~= s.take(r.len() as int));
        } else {
            assert(s.take(s.len() as int) =~= s);
        }
    }

    /// Drop characters from the end of `text` until it renders within
    /// `max_width` cells.
    pub fn shrink_to_width(&self, text: &str, max_width: usize) -> (r: String)
        requires
            self.measurable(text@.len() as int),
        ensures
            r@ == self.shrunk(text@, max_width as int),
    {
        let v = str_chars(text);
        let mut n: usize = v.len();
        let mut t = string_from_chars(v.as_slice());
        assert(v@.take(n as int) =~= v@);
        while n > 0 && self.rendered_width(t.as_str()) > max_width
            invariant
                self.measurable(text@.len() as int),
                v@ == text@,
                n <= v@.len(),
                t@ == v@.take(n as int),
                t@.len() == n,
                self.measurable(n as int),
                self.shrunk(text@, max_width as int) == self.shrunk(t@, max_width as int),
            decreases n,
        {
            assert(v@.take(n as int).drop_last() =~= v@.take(n - 1));
            n = n - 1;
            t = string_from_chars(&v.as_slice()[0..n]);
            assert(v@.subrange(0, n as int) =~= v@.take(n as int));
            proof {
                self.lemma_measurable_le(text@.len() as int, n as int);
            }
        }
        t
    }

    /// Truncate the text in-place to fit within `max_width` rendered cells.
    pub fn truncate(&mut self, max_width: usize, overflow: Option<OverflowMethod>)
        requires
            old(self).measurable(old(self).text_view().len() as int),
            old(self).ellipsis_measurable(old(self).overflow_for(overflow)),
        ensures
            old(self).text_clean() ==> final(self).text_clean(),
            match old(self).truncation(max_width as int, overflow) {
                None => *final(self) == *old(self),
                Some(t) => {
                    &&& final(self).text_view() == strip_controls(t)
                    &&& final(self).span_view() == old(self).spans_for_plain(t)
                    &&& final(self).same_settings(old(self))
                },
            },
    {
        let effective = match overflow {
            Some(m) => m,
            None => match self.overflow {
                Some(m) => m,
                None => OverflowMethod::Fold,
            },
        };
        let length = self.rendered_width(self.plain());
        if effective == OverflowMethod::Ignore || length <= max_width {
            return;
        }
        if effective == OverflowMethod::Ellipsis {
            proof {
                reveal_strlit("…");
                reveal_strlit("...");
            }
            let ellipsis = if self.font.contains("…") { "…" } else { "..." };
            let ellipsis_width = self.rendered_width(ellipsis);
            let target = if max_width >= ellipsis_width { max_width - ellipsis_width } else { 0 };
            let truncated = self.shrink_to_width(self.plain(), target);
            let t = concat(truncated.as_str(), ellipsis);
            self.set_plain(t.as_str());
        } else {
            let truncated = self.shrink_to_width(self.plain(), max_width);
            self.set_plain(truncated.as_str());
        }
    }

    /// The end of the chunk of `s` that starts at `lst`, looking from `curr`
    /// on: the chunk grows one character at a time while it still renders
    /// within `w` cells, up to the end of `s`.
    pub open spec fn chunk_end(&self, s: Seq<char>, lst: int, curr: int, w: int) -> int
        decreases s.len() - curr,
    {
        if curr >= s.len() || curr < 0 {
            curr
        } else if self.text_width(s.subrange(lst, curr + 1)) > w {
            curr
        } else {
            self.chunk_end(s, lst, curr + 1, w)
        }
    }

    /// The chunks of `s` from `lst` on: each grows from its start, one
    /// character at a time, while it renders within `w` cells, and holds one
    /// character at the least.
    pub open spec fn chunks_from(&self, s: Seq<char>, lst: int, w: int) -> Seq<Seq<char>>
        decreases s.len() - lst,
    {
        if lst < 0 || lst >= s.len() {
            Seq::empty()
        } else {
            let e = self.chunk_end(s, lst, lst + 1, w);
            if !(lst < e <= s.len()) {
                Seq::empty()
            } else {
                seq![s.subrange(lst, e)] + self.chunks_from(s, e, w)
            }
        }
    }

    /// The chunks `s` is chopped into for `w` cells.
    pub open spec fn chunks(&self, s: Seq<char>, w: int) -> Seq<Seq<char>> {
        self.chunks_from(s, 0, w)
    }

    pub proof fn lemma_chunk_end_range(&self, s: Seq<char>, lst: int, curr: int, w: int)
        requires
            0 <= curr <= s.len(),
        ensures
            curr <= self.chunk_end(s, lst, curr, w) <= s.len(),
            self.chunk_end(s, lst, curr, w) > curr ==> self.text_width(s.subrange(lst, self.chunk_end(s, lst, curr, w))) <= w,
        decreases s.len() - curr,
    {
        if curr < s.len() && self.text_width(s.subrange(lst, curr + 1)) <= w {
            self.lemma_chunk_end_range(s, lst, curr + 1, w);
        }
    }

    /// Every chunk renders within `w` cells or is a single character.
    proof fn lemma_chunks_fit(&self, s: Seq<char>, lst: int, w: int)
        requires
            0 <= lst <= s.len(),
        ensures
            forall|i: int| 0 <= i < self.chunks_from(s, lst, w).len() ==>
                (#[trigger] self.chunks_from(s, lst, w)[i]).len() == 1
                || self.text_width(self.chunks_from(s, lst, w)[i]) <= w,
        decreases s.len() - lst,
    {
        if lst < s.len() {
            self.lemma_chunk_end_range(s, lst, lst + 1, w);
            let e = self.chunk_end(s, lst, lst + 1, w);
            self.lemma_chunks_fit(s, e, w);
            let c = self.chunks_from(s, lst, w);
            let rest = self.chunks_from(s, e, w);
            assert forall|i: int| 0 <= i < c.len() implies (#[trigger] c[i]).len() == 1 || self.text_width(c[i]) <= w by {
                if i > 0 {
                    assert(c[i] == rest[i - 1]);
                }
            }
        }
    }

    /// Split `text` into chunks that each fit within `width` rendered cells
    /// (a single character wider than that makes a chunk of its own).
    pub fn chop_cells(&self, text: &str, width: usize) -> (r: Vec<String>)
        requires
            self.measurable(text@.len() as int),
        ensures
            r.deep_view() == self.chunks(text@, width as int),
            forall|i: int| 0 <= i < r@.len() ==> (#[trigger] r@[i])@.len() == 1
                || self.text_width(r@[i]@) <= width,
    {
        let v = str_chars(text);
        let ghost s = text@;
        let ghost w = width as int;
        let mut result: Vec<String> = Vec::new();
        let n = v.len();
        let mut lst: usize = 0;
        assert(result.deep_view() + self.chunks_from(s, 0, w) =~= self.chunks(s, w));
        while lst < n
            invariant
                self.measurable(n as int),
                v@ == s,
                n == s.len(),
                w == width,
                lst <= n,
                result.deep_view() + self.chunks_from(s, lst as int, w) == self.chunks(s, w),
            decreases n - lst,
        {
            proof {
                self.lemma_chunk_end_range(s, lst as int, lst + 1, w);
            }
            let mut curr: usize = lst + 1;
            let mut done = false;
            while curr < n && !done
                invariant
                    self.measurable(n as int),
                    v@ == s,
                    n == s.len(),
                    w == width,
                    lst < curr <= n,
                    self.chunk_end(s, lst as int, lst + 1, w) == self.chunk_end(s, lst as int, curr as int, w),
                    done ==> curr < n && self.text_width(s.subrange(lst as int, curr + 1)) > w,
                decreases n - curr, (if done { 0int } else { 1int }),
            {
                let part = string_from_chars(&v.as_slice()[lst..curr + 1]);
                assert(part@ == s.subrange(lst as int, curr + 1));
                proof {
                    self.lemma_measurable_le(n as int, part@.len() as int);
                }
                if self.rendered_width(part.as_str()) > width {
                    done = true;
                } else {
                    curr = curr + 1;
                }
            }
            let part = string_from_chars(&v.as_slice()[lst..curr]);
            let ghost before = result.deep_view();
            result.push(part);
            proof {
                assert(result.deep_view() =~= before.push(s.subrange(lst as int, curr as int)));
                assert(self.chunks_from(s, lst as int, w) == seq![s.subrange(lst as int, curr as int)]
                    + self.chunks_from(s, curr as int, w));
            }
            lst = curr;
            assert(result.deep_view() + self.chunks_from(s, lst as int, w) =~= self.chunks(s, w));
        }
        assert(self.chunks_from(s, lst as int, w) =~= Seq::<Seq<char>>::empty());
        assert(result.deep_view() =~= self.chunks(s, w));
        proof {
            self.lemma_chunks_fit(s, 0, w);
            assert forall|i: int| 0 <= i < result@.len() implies (#[trigger] result@[i])@.len() == 1
                || self.text_width(result@[i]@) <= width by {
                assert(result@[i]@ == result.deep_view()[i]);
            }
        }
        result
    }

    /// The chunks hold the characters of `s` from `lst` on.
    pub(crate) proof fn lemma_chunks_total(&self, s: Seq<char>, lst: int, w: int)
        requires
            0 <= lst <= s.len(),
        ensures
            total_len(self.chunks_from(s, lst, w)) == s.len() - lst,
        decreases s.len() - lst,
    {
        let c = self.chunks_from(s, lst, w);
        if lst < s.len() {
            self.lemma_chunk_end_range(s, lst, lst + 1, w);
            let e = self.chunk_end(s, lst, lst + 1, w);
            self.lemma_chunks_total(s, e, w);
            let rest = self.chunks_from(s, e, w);
            lemma_total_len_concat(seq![s.subrange(lst, e)], rest);
            let one: Seq<Seq<char>> = seq![s.subrange(lst, e)];
            assert(one.drop_last() =~= Seq::<Seq<char>>::empty());
            assert(total_len(one) == total_len(one.drop_last()) + one.last().len());
        } else {
            assert(c =~= Seq::<Seq<char>>::empty());
        }
    }

    /// Where folding cuts a word: from `fo` on, the longest prefix that
    /// renders within `remaining` cells, one character at the least.
    pub open spec fn fold_end(&self, word: Seq<char>, remaining: int, fo: int) -> int
        decreases word.len() - fo,
    {
        if 0 <= fo < word.len() && self.text_width(word.take(fo + 1)) <= remaining {
            self.fold_end(word, remaining, fo + 1)
        } else {
            fo
        }
    }

    /// The wrapping state `(offset, length, offsets)` after the chunks of a
    /// folded word: each chunk starts a new line at the current offset.
    pub open spec fn after_chunks(&self, st: (int, int, Seq<int>), chunks: Seq<Seq<char>>) -> (int, int, Seq<int>)
        decreases chunks.len(),
    {
        if chunks.len() == 0 {
            st
        } else {
            let p = self.after_chunks(st, chunks.drop_last());
            (p.0 + chunks.last().len(), self.text_width(chunks.last()), p.2.push(p.0))
        }
    }

    /// The wrapping state after one more word: `offset` is the character
    /// offset reached, `length` the width of the current line, `offsets`
    /// the line starts found so far.
    pub open spec fn divide_step(&self, st: (int, int, Seq<int>), word: Seq<char>, width: int, fold: bool) -> (int, int, Seq<int>) {
        let (offset, length, offsets) = st;
        let space = self.font.space() as int;
        let remaining = if width - length - space > 0 { width - length - space } else { 0 };
        let wl = self.text_width(word);
        if wl > remaining {
            if fold && wl > width && word.len() > 0 && self.text_width(seq![word[0]]) <= remaining {
                let fo = self.fold_end(word, remaining, 1);
                let o1 = (if offset > 0 { offset + 1 } else { offset }) + fo;
                let l1 = (if length > 0 { length + space } else { length }) + self.text_width(word.take(fo));
                self.after_chunks((o1, l1, offsets), self.chunks(word.skip(fo), width))
            } else {
                let o1 = if offset > 0 || word.len() == 0 { offset + 1 } else { offset };
                (o1 + word.len(), wl, offsets.push(o1))
            }
        } else {
            let l1 = (if length > 0 || word.len() == 0 { length + space } else { length }) + wl;
            let o1 = (if offset > 0 || word.len() == 0 { offset + 1 } else { offset }) + word.len();
            (o1, l1, offsets)
        }
    }

    /// The wrapping state after the first `n` words.
    pub open spec fn divide_upto(&self, words: Seq<Seq<char>>, n: nat, width: int, fold: bool) -> (int, int, Seq<int>)
        decreases n,
    {
        if n == 0 {
            (0, 0, Seq::empty())
        } else {
            self.divide_step(self.divide_upto(words, (n - 1) as nat, width, fold), words[n - 1], width, fold)
        }
    }

    /// The character offsets at which `s` is divided into lines of `width`
    /// cells: the line starts found word by word, then the end offset.
    pub open spec fn division(&self, s: Seq<char>, width: int, fold: bool) -> Seq<int> {
        let words = split_on(s, ' ');
        let st = self.divide_upto(words, words.len(), width, fold);
        st.2.push(st.0)
    }

    /// Break `text` into character-offset segments for word-wrapping at
    /// `width` cells, folding words wider than a line when `fold` is set.
    #[verifier::rlimit(40)]
    pub fn divide_offsets(&self, text: &str, width: usize, fold: bool) -> (r: Vec<usize>)
        requires
            self.measurable(text@.len() as int),
            text@.len() < usize::MAX,
            width <= i32::MAX,
        ensures
            offsets_view(r@) == self.division(text@, width as int, fold),
    {
        let v = str_chars(text);
        let words = split_chars_on(v.as_slice(), ' ');
        let ghost ws = split_on(text@, ' ');
        let ghost wd = width as int;
        proof {
            lemma_split_on_total(text@, ' ');
            lemma_total_len_nonneg(ws);
        }
        let space = self.font.space_width();
        let ghost big = (2 * text@.len() + 1) * self.step();
        proof {
            self.font.lemma_glyph_for_widest(" "@);
            self.lemma_step_nonneg();
        }
        let mut offsets: Vec<usize> = Vec::new();
        let mut offset: usize = 0;
        let mut length: u64 = 0;
        let mut i: usize = 0;
        assert(offsets_view(offsets@) =~= Seq::<int>::empty());
        assert(ws.take(0) =~= Seq::<Seq<char>>::empty());
        while i < words.len()
            invariant
                self.measurable(text@.len() as int),
                text@.len() < usize::MAX,
                big == (2 * text@.len() + 1) * self.step(),
                big <= i32::MAX,
                0 <= self.step(),
                v@ == text@,
                width <= i32::MAX,
                wd == width,
                space == self.font.space(),
                space <= self.step(),
                words@.len() == ws.len(),
                forall|k: int| 0 <= k < words@.len() ==> #[trigger] words@[k]@ == ws[k],
                total_len(ws) + ws.len() - 1 == text@.len(),
                i <= ws.len(),
                (offset as int, length as int, offsets_view(offsets@)) == self.divide_upto(ws, i as nat, wd, fold),
                offset <= total_len(ws.take(i as int)) + i,
                length <= width + i * self.step() + big,
            decreases ws.len() - i,
        {
            proof {
                lemma_total_len_prefix(ws, i as int);
                lemma_total_len_prefix(ws, i + 1);
                assert(ws.take(i + 1).drop_last() =~= ws.take(i as int));
                assert(ws.take(i + 1).last() == ws[i as int]);
                assert(total_len(ws.take(i + 1)) == total_len(ws.take(i as int)) + ws[i as int].len());
                assert(ws.len() <= text@.len() + 1) by {
                    lemma_total_len_nonneg(ws);
                }
                assert((i + 1) * self.step() <= big) by (nonlinear_arith)
                    requires i + 1 <= text@.len() + 1, 0 <= self.step(), big == (2 * text@.len() + 1) * self.step();
                assert(i * self.step() + self.step() == (i + 1) * self.step()) by (nonlinear_arith);
                self.lemma_measurable_le(text@.len() as int, ws[i as int].len() as int);
            }
            let ghost st = self.divide_upto(ws, i as nat, wd, fold);
            let ghost word = ws[i as int];
            let wv = &words[i];
            let wlen = wv.len();
            let wstr = string_from_chars(wv.as_slice());
            let rem_i: i64 = width as i64 - length as i64 - space as i64;
            let remaining: usize = if rem_i > 0 { rem_i as usize } else { 0 };
            let wl = self.rendered_width(wstr.as_str());
            proof {
                self.lemma_measurable_step(text@.len() as int, 2 * wlen + 1);
                if wlen > 0 {
                    self.lemma_measurable_le(text@.len() as int, 1);
                }
            }
            let ghost o_before = offset as int;
            if wl > remaining {
                let folds = fold && wl > width && wlen > 0 && self.rendered_width(one_char_string(wv[0]).as_str()) <= remaining;
                if folds {
                    proof {
                        assert(seq![wv@[0]] == seq![word[0]]);
                        assert(word.take(1) =~= seq![word[0]]);
                    }
                    let mut fo: usize = 1;
                    let mut stop = false;
                    while fo < wlen && !stop
                        invariant
                            self.measurable(word.len() as int),
                            wv@ == word,
                            wlen == word.len(),
                            1 <= fo <= wlen,
                            self.text_width(word.take(fo as int)) <= remaining,
                            self.fold_end(word, remaining as int, 1) == self.fold_end(word, remaining as int, fo as int),
                            stop ==> fo < wlen && self.text_width(word.take(fo + 1)) > remaining,
                        decreases wlen - fo, (if stop { 0int } else { 1int }),
                    {
                        let part = string_from_chars(&wv.as_slice()[0..fo + 1]);
                        assert(part@ == word.take(fo + 1));
                        proof {
                            self.lemma_measurable_le(word.len() as int, fo + 1);
                        }
                        if self.rendered_width(part.as_str()) > remaining {
                            stop = true;
                        } else {
                            fo = fo + 1;
                        }
                    }
                    let part = string_from_chars(&wv.as_slice()[0..fo]);
                    assert(part@ == word.take(fo as int));
                    proof {
                        self.lemma_measurable_le(word.len() as int, fo as int);
                    }
                    let part_length = self.rendered_width(part.as_str());
                    if offset > 0 {
                        offset = offset + 1;
                    }
                    offset = offset + fo;
                    if length > 0 {
                        length = length + space as u64;
                    }
                    length = length + part_length as u64;
                    let rest = string_from_chars(&wv.as_slice()[fo..wlen]);
                    assert(rest@ == word.skip(fo as int));
                    proof {
                        self.lemma_measurable_le(text@.len() as int, rest@.len() as int);
                    }
                    let chops = self.chop_cells(rest.as_str(), width);
                    let ghost cs = self.chunks(word.skip(fo as int), wd);
                    let ghost st1 = (offset as int, length as int, offsets_view(offsets@));
                    proof {
                        self.lemma_chunks_total(word.skip(fo as int), 0, wd);
                        lemma_total_len_nonneg(cs);
                        assert(self.after_chunks(st1, cs.take(0)) == st1) by {
                            assert(cs.take(0) =~= Seq::<Seq<char>>::empty());
                        }
                    }
                    let mut k: usize = 0;
                    while k < chops.len()
                        invariant
                            self.measurable(text@.len() as int),
                            text@.len() < usize::MAX,
                            big == (2 * text@.len() + 1) * self.step(),
                            chops.deep_view() == cs,
                            total_len(cs) == word.len() - fo,
                            k <= cs.len(),
                            word.len() <= text@.len(),
                            (offset as int, length as int, offsets_view(offsets@)) == self.after_chunks(st1, cs.take(k as int)),
                            offset == st1.0 + total_len(cs.take(k as int)),
                            st1.0 + word.len() - fo <= text@.len() + 1,
                            length <= st1.1 || length <= big,
                        decreases cs.len() - k,
                    {
                        proof {
                            lemma_total_len_elem(cs, k as int);
                            lemma_total_len_prefix(cs, k + 1);
                            assert(cs.take(k + 1).drop_last() =~= cs.take(k as int));
                            assert(cs.take(k + 1).last() == cs[k as int]);
                            assert(chops@[k as int]@ == cs[k as int]);
                        }
                        let ghost before = offsets@;
                        offsets.push(offset);
                        let clen = str_chars(chops[k].as_str()).len();
                        offset = offset + clen;
                        proof {
                            lemma_total_len_elem(cs, k as int);
                            self.lemma_measurable_le(text@.len() as int, clen as int);
                            self.lemma_measurable_step(text@.len() as int, 2 * clen + 1);
                        }
                        let cw = self.rendered_width(chops[k].as_str());
                        length = cw as u64;
                        proof {
                            assert(offsets_view(offsets@) =~= offsets_view(before).push(offsets@.last() as int));
                        }
                        k = k + 1;
                    }
                    assert(cs.take(k as int) =~= cs);
                } else {
                    length = wl as u64;
                    if offset > 0 || wlen == 0 {
                        offset = offset + 1;
                    }
                    let ghost before = offsets@;
                    offsets.push(offset);
                    assert(offsets_view(offsets@) =~= offsets_view(before).push(offset as int));
                    offset = offset + wlen;
                }
            } else {
                if length > 0 || wlen == 0 {
                    length = length + space as u64;
                }
                length = length + wl as u64;
                if offset > 0 || wlen == 0 {
                    offset = offset + 1;
                }
                offset = offset + wlen;
            }
            i = i + 1;
        }
        let ghost before = offsets@;
        offsets.push(offset);
        assert(offsets_view(offsets@) =~= offsets_view(before).push(offset as int));
        offsets
    }

    /// `divide_offsets`, or `None` when the text is not `measurable`, has
    /// `usize::MAX` characters, or the width is more than `i32::MAX`.
    pub fn try_divide_offsets(&self, text: &str, width: usize, fold: bool) -> (r: Option<Vec<usize>>)
        ensures
            r is Some <==> self.measurable(text@.len() as int) && text@.len() < usize::MAX && width <= i32::MAX,
            r matches Some(v) ==> offsets_view(v@) == self.division(text@, width as int, fold),
    {
        let n = str_chars(text).len();
        if self.is_measurable(n) && n < usize::MAX && width <= 2147483647 {
            Some(self.divide_offsets(text, width, fold))
        } else {
            None
        }
    }

    /// `truncate`, unless the text, or the ellipsis when one is used, is not
    /// `measurable`; then nothing changes and the result is `false`.
    pub fn try_truncate(&mut self, max_width: usize, overflow: Option<OverflowMethod>) -> (r: bool)
        ensures
            r <==> old(self).measurable(old(self).text_view().len() as int)
                && old(self).ellipsis_measurable(old(self).overflow_for(overflow)),
            !r ==> *final(self) == *old(self),
            old(self).text_clean() ==> final(self).text_clean(),
            r ==> match old(self).truncation(max_width as int, overflow) {
                None => *final(self) == *old(self),
                Some(t) => {
                    &&& final(self).text_view() == strip_controls(t)
                    &&& final(self).span_view() == old(self).spans_for_plain(t)
                    &&& final(self).same_settings(old(self))
                },
            },
    {
        let effective = match overflow {
            Some(m) => m,
            None => match self.overflow {
                Some(m) => m,
                None => OverflowMethod::Fold,
            },
        };
        if self.is_measurable(str_chars(self.plain()).len()) && self.check_ellipsis(effective) {
            self.truncate(max_width, overflow);
            true
        } else {
            false
        }
    }
}

/// How `wrap` treats a typography: the overflow method in effect, whether
/// lines are left unbroken, and the tab width.
#[derive(Debug, Clone, Copy, PartialEq, Eq, Structural)]
pub struct WrapSettings {
    pub overflow: OverflowMethod,
    pub no_wrap: bool,
    pub tab_size: usize,
}

/// How rendering treats a typography: the justification, the overflow
/// handed to `wrap`, the tab width and the no-wrap setting.
#[derive(Debug, Clone, Copy, PartialEq, Eq, Structural)]
pub struct RenderSettings {
    pub justify: JustifyMethod,
    pub overflow: Option<OverflowMethod>,
    pub tab_size: usize,
    pub no_wrap: Option<bool>,
}

impl Typography {
    /// The settings of a wrap: the overflow given, else the typography's,
    /// else folding; lines stay whole where either no-wrap flag is set or
    /// overflow is ignored; the tab width given, else the typography's,
    /// else eight.
    pub open spec fn wrap_settings_of(
        &self,
        overflow: Option<OverflowMethod>,
        tab_size: Option<usize>,
        no_wrap: Option<bool>,
    ) -> WrapSettings {
        let m = self.overflow_for(overflow);
        WrapSettings {
            overflow: m,
            no_wrap: no_wrap == Some(true) || self.no_wrap == Some(true) || m == OverflowMethod::Ignore,
            tab_size: match or_else(tab_size, self.tab_size) {
                Some(n) => n,
                None => 8,
            },
        }
    }

    /// The settings `wrap` works with.
    pub fn wrap_settings(
        &self,
        overflow: Option<OverflowMethod>,
        tab_size: Option<usize>,
        no_wrap: Option<bool>,
    ) -> (r: WrapSettings)
        ensures
            r == self.wrap_settings_of(overflow, tab_size, no_wrap),
    {
        let m = match overflow {
            Some(m) => m,
            None => match self.overflow {
                Some(m) => m,
                None => OverflowMethod::Fold,
            },
        };
        let flag_given = match no_wrap {
            Some(b) => b,
            None => false,
        };
        let flag_own = match self.no_wrap {
            Some(b) => b,
            None => false,
        };
        let tabs = match tab_size {
            Some(n) => n,
            None => match self.tab_size {
                Some(n) => n,
                None => 8,
            },
        };
        WrapSettings { overflow: m, no_wrap: flag_given || flag_own || m == OverflowMethod::Ignore, tab_size: tabs }
    }

    /// The settings of rendering under console options: the options'
    /// justification, else the typography's, else the default; the options'
    /// overflow, else the typography's; the typography's tab width, else the
    /// options'; and the typography's no-wrap flag, set also where the
    /// options ask for no wrapping (unset where the typography leaves it
    /// unset).
    pub open spec fn render_settings_of(
        &self,
        justify: Option<JustifyMethod>,
        overflow: Option<OverflowMethod>,
        tab_size: usize,
        no_wrap: bool,
    ) -> RenderSettings {
        RenderSettings {
            justify: match or_else(justify, self.justify) {
                Some(j) => j,
                None => JustifyMethod::Default,
            },
            overflow: or_else(overflow, self.overflow),
            tab_size: match self.tab_size {
                Some(n) => n,
                None => tab_size,
            },
            no_wrap: match self.no_wrap {
                Some(v) => Some(v || no_wrap),
                None => None,
            },
        }
    }

    /// The settings rendering works with, from the console options'
    /// justification, overflow, tab width and no-wrap flag.
    pub fn render_settings(
        &self,
        justify: Option<JustifyMethod>,
        overflow: Option<OverflowMethod>,
        tab_size: usize,
        no_wrap: bool,
    ) -> (r: RenderSettings)
        ensures
            r == self.render_settings_of(justify, overflow, tab_size, no_wrap),
    {
        let j = match justify {
            Some(j) => j,
            None => match self.justify {
                Some(j) => j,
                None => JustifyMethod::Default,
            },
        };
        let o = match overflow {
            Some(m) => Some(m),
            None => self.overflow,
        };
        let tabs = match self.tab_size {
            Some(n) => n,
            None => tab_size,
        };
        let flag = match self.no_wrap {
            Some(v) => Some(v || no_wrap),
            None => None,
        };
        RenderSettings { justify: j, overflow: o, tab_size: tabs, no_wrap: flag }
    }
}

/// Offsets as integers.
pub open spec fn offsets_view(v: Seq<usize>) -> Seq<int> {
    Seq::new(v.len(), |i: int| v[i] as int)
}

pub proof fn lemma_total_len_concat(a: Seq<Seq<char>>, b: Seq<Seq<char>>)
    ensures
        total_len(a + b) == total_len(a) + total_len(b),
    decreases b.len(),
{
    if b.len() == 0 {
        assert(a + b =~= a);
    } else {
        lemma_total_len_concat(a, b.drop_last());
        assert((a + b).drop_last() =~= a + b.drop_last());
    }
}

} // verus!
