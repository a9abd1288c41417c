use vstd::prelude::*;

use crate::chars::{str_chars, string_from_chars};

verus! {

/// Number of bytes in the UTF-8 encoding of `c`.
pub open spec fn utf8_len(c: char) -> nat {
    let u = c as u32;
    if u < 0x80 { 1 } else if u < 0x800 { 2 } else if u < 0x10000 { 3 } else { 4 }
}

/// Byte offset of character `i` of `s` in its UTF-8 encoding.
pub open spec fn byte_offset(s: Seq<char>, i: int) -> nat
    decreases i,
{
    if i <= 0 || s.len() == 0 {
        0
    } else if i > s.len() {
        byte_offset(s, s.len() as int)
    } else {
        byte_offset(s, i - 1) + utf8_len(s[i - 1])
    }
}

/// Byte length of the UTF-8 encoding of `s`.
pub open spec fn byte_len(s: Seq<char>) -> nat {
    byte_offset(s, s.len() as int)
}

/// `b` is the byte offset of some character position of `s` (its end included).
pub open spec fn is_boundary(s: Seq<char>, b: int) -> bool {
    exists|k: int| 0 <= k <= s.len() && byte_offset(s, k) == b
}

/// The character position whose byte offset is `b`.
pub open spec fn char_at_byte(s: Seq<char>, b: int) -> int {
    choose|k: int| 0 <= k <= s.len() && byte_offset(s, k) == b
}

pub proof fn lemma_byte_offset_increasing(s: Seq<char>, i: int, j: int)
    requires
        0 <= i < j <= s.len(),
    ensures
        byte_offset(s, i) < byte_offset(s, j),
    decreases j - i,
{
    if j - 1 > i {
        lemma_byte_offset_increasing(s, i, j - 1);
    }
}

/// The position of a boundary is unique.
pub proof fn lemma_char_at_byte(s: Seq<char>, k: int)
    requires
        0 <= k <= s.len(),
    ensures
        char_at_byte(s, byte_offset(s, k) as int) == k,
{
    let b = byte_offset(s, k) as int;
    let c = char_at_byte(s, b);
    assert(0 <= c <= s.len() && byte_offset(s, c) == b);
    if c < k {
        lemma_byte_offset_increasing(s, c, k);
    }
    if c > k {
        lemma_byte_offset_increasing(s, k, c);
    }
}

/// Number of UTF-8 bytes of a character.
pub fn char_utf8_len(c: char) -> (r: usize)
    ensures
        r == utf8_len(c),
{
    let u = c as u32;
    if u < 0x80 { 1 } else if u < 0x800 { 2 } else if u < 0x10000 { 3 } else { 4 }
}

/// Byte offsets of every character position of `v`, its end included.
pub fn byte_offsets(v: &[char]) -> (r: Vec<usize>)
    requires
        byte_len(v@) <= usize::MAX,
    ensures
        r@.len() == v@.len() + 1,
        forall|k: int| 0 <= k <= v@.len() ==> #[trigger] r@[k] == byte_offset(v@, k),
{
    let mut r: Vec<usize> = Vec::new();
    r.push(0);
    let mut off: usize = 0;
    let mut i: usize = 0;
    while i < v.len()
        invariant
            byte_len(v@) <= usize::MAX,
            i <= v@.len(),
            r@.len() == i + 1,
            off == byte_offset(v@, i as int),
            forall|k: int| 0 <= k <= i ==> #[trigger] r@[k] == byte_offset(v@, k),
        decreases v@.len() - i,
    {
        proof {
            if i + 1 < v@.len() {
                lemma_byte_offset_increasing(v@, i + 1, v@.len() as int);
            }
        }
        off = off + char_utf8_len(v[i]);
        r.push(off);
        i = i + 1;
    }
    r
}

/// The keys sorted by byte length, longest first, keeping the order of
/// keys of equal length: `k` goes before the first key shorter than it.
pub open spec fn insert_by_len(sorted: Seq<Seq<char>>, k: Seq<char>) -> Seq<Seq<char>> {
    let p = first_shorter(sorted, byte_len(k), 0);
    sorted.take(p) + seq![k] + sorted.skip(p)
}

/// The first index from `i` on of a key with fewer than `n` bytes, or the length.
pub open spec fn first_shorter(sorted: Seq<Seq<char>>, n: nat, i: int) -> int
    decreases sorted.len() - i,
{
    if i >= sorted.len() || i < 0 {
        sorted.len() as int
    } else if byte_len(sorted[i]) < n {
        i
    } else {
        first_shorter(sorted, n, i + 1)
    }
}

/// Keys stably sorted by byte length, longest first.
pub open spec fn sort_by_len(keys: Seq<Seq<char>>) -> Seq<Seq<char>>
    decreases keys.len(),
{
    if keys.len() == 0 {
        Seq::empty()
    } else {
        insert_by_len(sort_by_len(keys.drop_last()), keys.last())
    }
}

/// Keys joined with `|`.
pub open spec fn join_bar(ks: Seq<Seq<char>>) -> Seq<char>
    decreases ks.len(),
{
    if ks.len() == 0 {
        Seq::empty()
    } else if ks.len() == 1 {
        ks[0]
    } else {
        join_bar(ks.drop_last()) + seq!['|'] + ks.last()
    }
}

/// The alternation pattern of a set of ligature keys, longest keys first.
pub open spec fn ligature_pattern(keys: Seq<Seq<char>>) -> Seq<char> {
    join_bar(sort_by_len(keys))
}

proof fn lemma_first_shorter_range(sorted: Seq<Seq<char>>, n: nat, i: int)
    requires
        0 <= i <= sorted.len(),
    ensures
        i <= first_shorter(sorted, n, i) <= sorted.len(),
    decreases sorted.len() - i,
{
    if i < sorted.len() && byte_len(sorted[i]) >= n {
        lemma_first_shorter_range(sorted, n, i + 1);
    }
}

proof fn lemma_encode_scalar_len(c: char)
    ensures
        vstd::utf8::encode_scalar(c as u32).len() == utf8_len(c),
{
}

proof fn lemma_encode_utf8_concat_len(a: Seq<char>, b: Seq<char>)
    ensures
        vstd::utf8::encode_utf8(a + b).len() == vstd::utf8::encode_utf8(a).len() + vstd::utf8::encode_utf8(b).len(),
    decreases a.len(),
{
    if a.len() == 0 {
        assert(a + b =~= b);
    } else {
        assert((a + b).drop_first() =~= a.drop_first() + b);
        lemma_encode_utf8_concat_len(a.drop_first(), b);
    }
}

proof fn lemma_encode_utf8_prefix_len(s: Seq<char>, k: int)
    requires
        0 <= k <= s.len(),
    ensures
        vstd::utf8::encode_utf8(s.take(k)).len() == byte_offset(s, k),
    decreases k,
{
    if k == 0 {
        assert(s.take(0) =~= Seq::<char>::empty());
    } else {
        lemma_encode_utf8_prefix_len(s, k - 1);
        let c = s[k - 1];
        assert(s.take(k) =~= s.take(k - 1) + seq![c]);
        lemma_encode_utf8_concat_len(s.take(k - 1), seq![c]);
        assert(seq![c].drop_first() =~= Seq::<char>::empty());
        assert(vstd::utf8::encode_utf8(Seq::<char>::empty()).len() == 0);
        assert(vstd::utf8::encode_utf8(seq![c]).len() == vstd::utf8::encode_scalar(c as u32).len());
        lemma_encode_scalar_len(c);
        assert(byte_offset(s, k) == byte_offset(s, k - 1) + utf8_len(c));
    }
}

/// The UTF-8 encoding of `s` is `byte_len(s)` bytes long.
pub proof fn lemma_encode_utf8_len(s: Seq<char>)
    ensures
        vstd::utf8::encode_utf8(s).len() == byte_len(s),
{
    lemma_encode_utf8_prefix_len(s, s.len() as int);
    assert(s.take(s.len() as int) =~= s);
}

/// Length in bytes of the UTF-8 encoding of a string.
pub(crate) fn str_byte_len(s: &str) -> (r: usize)
    ensures
        r == byte_len(s@),
{
    let b = s.as_bytes();
    proof {
        lemma_encode_utf8_len(s@);
    }
    b.len()
}

/// The ligature pattern for `keys`.
pub fn build_pattern(keys: &Vec<String>) -> (r: String)
    ensures
        r@ == ligature_pattern(keys.deep_view()),
{
    let ghost kv = keys.deep_view();
    // insertion sort, stable, longest first
    let mut sorted: Vec<String> = Vec::new();
    let mut lens: Vec<usize> = Vec::new();
    let mut i: usize = 0;
    while i < keys.len()
        invariant
            kv == keys.deep_view(),
            i <= kv.len(),
            sorted.deep_view() == sort_by_len(kv.take(i as int)),
            lens@.len() == sorted@.len(),
            forall|q: int| 0 <= q < lens@.len() ==> #[trigger] lens@[q] == byte_len(sorted@[q]@),
        decreases kv.len() - i,
    {
        let ghost sv = sorted.deep_view();
        let n = str_byte_len(keys[i].as_str());
        let mut p: usize = 0;
        while p < sorted.len() && lens[p] >= n
            invariant
                sv == sorted.deep_view(),
                lens@.len() == sorted@.len(),
                forall|q: int| 0 <= q < lens@.len() ==> #[trigger] lens@[q] == byte_len(sorted@[q]@),
                p <= sorted@.len(),
                first_shorter(sv, n as nat, 0) == first_shorter(sv, n as nat, p as int),
            decreases sorted@.len() - p,
        {
            assert(sv[p as int] == sorted@[p as int]@);
            p = p + 1;
        }
        proof {
            if p < sorted@.len() {
                assert(sv[p as int] == sorted@[p as int]@);
            }
            assert(first_shorter(sv, n as nat, 0) == p as int);
            assert(kv.take(i + 1).drop_last() =~= kv.take(i as int));
            assert(kv.take(i + 1).last() == keys@[i as int]@);
        }
        let ghost old_sorted = sorted@;
        let ghost old_lens = lens@;
        sorted.insert(p, keys[i].clone());
        lens.insert(p, n);
        proof {
            assert(sorted.deep_view() =~= sv.take(p as int) + seq![keys@[i as int]@] + sv.skip(p as int)) by {
                assert forall|q: int| 0 <= q < sorted@.len() implies #[trigger] sorted.deep_view()[q] == (sv.take(p as int) + seq![keys@[i as int]@] + sv.skip(p as int))[q] by {
                    if q < p {
                        assert(sorted@[q] == old_sorted[q]);
                    } else if q > p {
                        assert(sorted@[q] == old_sorted[q - 1]);
                    }
                }
            }
            assert forall|q: int| 0 <= q < lens@.len() implies #[trigger] lens@[q] == byte_len(sorted@[q]@) by {
                if q < p {
                    assert(sorted@[q] == old_sorted[q]);
                    assert(lens@[q] == old_lens[q]);
                } else if q > p {
                    assert(sorted@[q] == old_sorted[q - 1]);
                    assert(lens@[q] == old_lens[q - 1]);
                }
            }
        }
        i = i + 1;
    }
    assert(kv.take(i as int) =~= kv);
    // join with '|'
    let ghost sv = sorted.deep_view();
    let mut out: Vec<char> = Vec::new();
    let mut j: usize = 0;
    while j < sorted.len()
        invariant
            sv == sorted.deep_view(),
            j <= sv.len(),
            out@ == join_bar(sv.take(j as int)),
        decreases sv.len() - j,
    {
        let w = str_chars(sorted[j].as_str());
        let ghost before = out@;
        if j > 0 {
            out.push('|');
        }
        let ghost mid = out@;
        let mut k: usize = 0;
        while k < w.len()
            invariant
                k <= w@.len(),
                out@ == mid + w@.take(k as int),
            decreases w@.len() - k,
        {
            out.push(w[k]);
            k = k + 1;
            assert(out@ =~= mid + w@.take(k as int));
        }
        assert(w@.take(k as int) =~= w@);
        assert(w@ == sv[j as int]);
        j = j + 1;
        assert(sv.take(j as int).drop_last() =~= sv.take(j - 1));
        assert(out@ =~= join_bar(sv.take(j as int)));
    }
    assert(sv.take(j as int) =~= sv);
    string_from_chars(out.as_slice())
}

} // verus!

verus! {

/// Whether `regex::Regex::new` accepts `pattern`.
pub uninterp spec fn regex_valid(pattern: Seq<char>) -> bool;

/// The byte ranges of the successive matches that `regex::Regex::find_iter`
/// reports for `pattern` in `text`.
pub uninterp spec fn regex_find(pattern: Seq<char>, text: Seq<char>) -> Seq<(usize, usize)>;

/// Byte ranges that lie on character boundaries of `s`, in order and not overlapping.
pub open spec fn matches_well_formed(s: Seq<char>, ms: Seq<(usize, usize)>) -> bool {
    &&& forall|i: int| 0 <= i < ms.len() ==> (#[trigger] ms[i]).0 <= ms[i].1
    &&& forall|i: int| 0 <= i < ms.len() ==> is_boundary(s, (#[trigger] ms[i]).0 as int)
    &&& forall|i: int| 0 <= i < ms.len() ==> is_boundary(s, (#[trigger] ms[i]).1 as int)
    &&& forall|i: int, j: int| 0 <= i < j < ms.len() ==> ms[i].1 <= ms[j].0
    &&& forall|i: int, j: int| 0 <= i < j < ms.len() ==> ms[i].0 < ms[j].0
}

/// Whether a pattern compiles as a regular expression.
///
/// Trusted wrapper of `regex::Regex::new`; whether it succeeds is named by
/// `regex_valid`, a function of the pattern alone.
#[verifier::external_body]
pub(crate) fn regex_compiles(pattern: &str) -> (r: bool)
    ensures
        r == regex_valid(pattern@),
{
    regex::Regex::new(pattern).is_ok()
}

/// The byte ranges of the matches of `pattern` in `text`.
///
/// Trusted wrapper of `regex::Regex::find_iter` on the compiled pattern.
/// The ranges are named by `regex_find`; as the crate documents, they are
/// successive non-overlapping matches, no two starting at the same place,
/// whose offsets are valid UTF-8 boundaries of `text`.
#[verifier::external_body]
pub(crate) fn regex_find_all(pattern: &str, text: &str) -> (r: Vec<(usize, usize)>)
    requires
        regex_valid(pattern@),
    ensures
        r@ == regex_find(pattern@, text@),
        matches_well_formed(text@, r@),
{
    let re = regex::Regex::new(pattern).unwrap();
    let mut v = Vec::new();
    for m in re.find_iter(text) {
        v.push((m.start(), m.end()));
    }
    v
}

/// The position of the character starting at byte `b`; `default` when `b`
/// is not the start of a character.
pub open spec fn char_index_or(s: Seq<char>, b: int, default: int) -> int {
    if b < byte_len(s) { char_at_byte(s, b) } else { default }
}

/// Single-character pieces for the characters `from..to`.
pub open spec fn single_pieces(s: Seq<char>, from: int, to: int) -> Seq<(int, Seq<char>)> {
    Seq::new(if from <= to { (to - from) as nat } else { 0 }, |i: int| (from + i, seq![s[from + i]]))
}

/// Pieces for the text up to the end of match `n`, and the byte offset
/// where that match ends.
pub open spec fn pieces_upto(s: Seq<char>, ms: Seq<(usize, usize)>, n: nat) -> (Seq<(int, Seq<char>)>, int)
    decreases n,
{
    if n == 0 {
        (Seq::empty(), 0)
    } else {
        let (p, lb) = pieces_upto(s, ms, (n - 1) as nat);
        let m = ms[n - 1];
        let from = char_index_or(s, lb, 0);
        let singles = if lb < byte_len(s) { single_pieces(s, from, char_at_byte(s, m.0 as int)) } else { Seq::empty() };
        let lig = (char_index_or(s, m.0 as int, 0), s.subrange(char_at_byte(s, m.0 as int), char_at_byte(s, m.1 as int)));
        (p + singles + seq![lig], m.1 as int)
    }
}

/// The glyph pieces of `s` given the matches `ms`: matched text becomes one
/// piece at the position of its first character, every other character a
/// piece of its own.
pub open spec fn pieces_with_matches(s: Seq<char>, ms: Seq<(usize, usize)>) -> Seq<(int, Seq<char>)> {
    let (p, lb) = pieces_upto(s, ms, ms.len());
    p + single_pieces(s, char_index_or(s, lb, s.len() as int), s.len() as int)
}

/// One piece per character, at its character position.
pub open spec fn pieces_by_char(s: Seq<char>) -> Seq<(int, Seq<char>)> {
    Seq::new(s.len(), |i: int| (i, seq![s[i]]))
}

/// Every key of the pieces is a single character or no longer than `s`.
pub open spec fn keys_fit(s: Seq<char>, p: Seq<(int, Seq<char>)>) -> bool {
    forall|q: int| 0 <= q < p.len() ==> (#[trigger] p[q]).1.len() <= s.len() || p[q].1.len() == 1
}

/// The characters between two boundaries lie in `s`.
pub proof fn lemma_boundary_chars(s: Seq<char>, b0: int, b1: int)
    requires
        is_boundary(s, b0),
        is_boundary(s, b1),
        b0 <= b1,
    ensures
        0 <= char_at_byte(s, b0) <= char_at_byte(s, b1) <= s.len(),
{
    let c0 = char_at_byte(s, b0);
    let c1 = char_at_byte(s, b1);
    if c1 < c0 {
        lemma_byte_offset_increasing(s, c1, c0);
    }
}

pub proof fn lemma_pieces_upto_keys(s: Seq<char>, ms: Seq<(usize, usize)>, n: nat)
    requires
        matches_well_formed(s, ms),
        n <= ms.len(),
    ensures
        keys_fit(s, pieces_upto(s, ms, n).0),
    decreases n,
{
    if n > 0 {
        lemma_pieces_upto_keys(s, ms, (n - 1) as nat);
        let (p, lb) = pieces_upto(s, ms, (n - 1) as nat);
        let m = ms[n - 1];
        lemma_boundary_chars(s, m.0 as int, m.1 as int);
        let from = char_index_or(s, lb, 0);
        let singles = if lb < byte_len(s) { single_pieces(s, from, char_at_byte(s, m.0 as int)) } else { Seq::empty() };
        let lig = (char_index_or(s, m.0 as int, 0), s.subrange(char_at_byte(s, m.0 as int), char_at_byte(s, m.1 as int)));
        let r = p + singles + seq![lig];
        assert forall|q: int| 0 <= q < r.len() implies (#[trigger] r[q]).1.len() <= s.len() || r[q].1.len() == 1 by {
            if q < p.len() {
                assert(r[q] == p[q]);
            } else if q < p.len() + singles.len() {
                assert(r[q] == singles[q - p.len()]);
            }
        }
    }
}

/// The pieces of `s` given well-formed matches have keys that fit.
pub proof fn lemma_pieces_with_matches_keys(s: Seq<char>, ms: Seq<(usize, usize)>)
    requires
        matches_well_formed(s, ms),
    ensures
        keys_fit(s, pieces_with_matches(s, ms)),
{
    lemma_pieces_upto_keys(s, ms, ms.len());
    let (p, lb) = pieces_upto(s, ms, ms.len());
    let t = single_pieces(s, char_index_or(s, lb, s.len() as int), s.len() as int);
    let r = p + t;
    assert forall|q: int| 0 <= q < r.len() implies (#[trigger] r[q]).1.len() <= s.len() || r[q].1.len() == 1 by {
        if q < p.len() {
            assert(r[q] == p[q]);
        } else {
            assert(r[q] == t[q - p.len()]);
        }
    }
}

/// The plain view of pieces.
pub open spec fn pieces_view(v: Seq<(usize, String)>) -> Seq<(int, Seq<char>)> {
    Seq::new(v.len(), |i: int| (v[i].0 as int, v[i].1@))
}

/// The position of boundary `b` among the byte offsets `offs`.
pub(crate) fn index_of_byte(offs: &Vec<usize>, b: usize, Ghost(s): Ghost<Seq<char>>) -> (r: usize)
    requires
        offs@.len() == s.len() + 1,
        forall|k: int| 0 <= k <= s.len() ==> #[trigger] offs@[k] == byte_offset(s, k),
        is_boundary(s, b as int),
    ensures
        r == char_at_byte(s, b as int),
        r <= s.len(),
{
    let ghost k0 = char_at_byte(s, b as int);
    proof {
        lemma_char_at_byte(s, k0);
    }
    let mut i: usize = 0;
    while i < offs.len() && offs[i] != b
        invariant
            offs@.len() == s.len() + 1,
            forall|k: int| 0 <= k <= s.len() ==> #[trigger] offs@[k] == byte_offset(s, k),
            0 <= k0 <= s.len(),
            byte_offset(s, k0) == b,
            i <= k0,
        decreases offs@.len() - i,
    {
        i = i + 1;
    }
    proof {
        if i != k0 {
            assert(offs@[i as int] == b);
            lemma_char_at_byte(s, i as int);
        }
    }
    i
}

pub(crate) fn one_char_string(c: char) -> (r: String)
    ensures
        r@ == seq![c],
{
    let mut v: Vec<char> = Vec::new();
    v.push(c);
    assert(v@ =~= seq![c]);
    string_from_chars(v.as_slice())
}

/// One piece per character, at its character position.
pub fn char_pieces(v: &[char]) -> (r: Vec<(usize, String)>)
    ensures
        pieces_view(r@) == pieces_by_char(v@),
{
    let mut r: Vec<(usize, String)> = Vec::new();
    let mut i: usize = 0;
    while i < v.len()
        invariant
            i <= v@.len(),
            r@.len() == i,
            pieces_view(r@) == pieces_by_char(v@).take(i as int),
        decreases v@.len() - i,
    {
        let ghost before = r@;
        r.push((i, one_char_string(v[i])));
        i = i + 1;
        assert forall|q: int| 0 <= q < i - 1 implies pieces_view(r@)[q] == pieces_view(before)[q] by {
            assert(r@[q] == before[q]);
        }
        assert(pieces_view(r@) =~= pieces_by_char(v@).take(i as int));
    }
    assert(pieces_by_char(v@).take(i as int) =~= pieces_by_char(v@));
    r
}

/// Appends the single-character pieces for the characters `from..to`.
fn push_singles(v: &[char], from: usize, to: usize, out: &mut Vec<(usize, String)>)
    requires
        from <= to <= v@.len(),
    ensures
        pieces_view(final(out)@) == pieces_view(old(out)@) + single_pieces(v@, from as int, to as int),
{
    let ghost base = pieces_view(out@);
    let mut j: usize = from;
    assert(pieces_view(out@) =~= base + single_pieces(v@, from as int, j as int));
    while j < to
        invariant
            from <= j <= to,
            to <= v@.len(),
            out@.len() == base.len() + j - from,
            pieces_view(out@) == base + single_pieces(v@, from as int, j as int),
        decreases to - j,
    {
        let ghost before = out@;
        out.push((j, one_char_string(v[j])));
        j = j + 1;
        assert forall|q: int| 0 <= q < before.len() implies pieces_view(out@)[q] == pieces_view(before)[q] by {
            assert(out@[q] == before[q]);
        }
        let ghost sp = single_pieces(v@, from as int, j as int);
        let ghost spo = single_pieces(v@, from as int, j - 1);
        assert(sp.last() == (j - 1, seq![v@[j - 1]]));
        assert(pieces_view(out@).last() == (j - 1, seq![v@[j - 1]]));
        assert forall|q: int| 0 <= q < spo.len() implies sp[q] == spo[q] by {}
        assert(pieces_view(before) == base + spo);
        assert forall|q: int| 0 <= q < out@.len() implies #[trigger] pieces_view(out@)[q] == (base + sp)[q] by {
            if q < before.len() {
                assert(pieces_view(out@)[q] == pieces_view(before)[q]);
                assert(pieces_view(before)[q] == (base + spo)[q]);
                if q >= base.len() {
                    assert((base + spo)[q] == spo[q - base.len()]);
                    assert((base + sp)[q] == sp[q - base.len()]);
                }
            }
        }
        assert(pieces_view(out@) =~= base + sp);
    }
}

/// The glyph pieces of `v` given well-formed matches.
pub fn pieces_from_matches(v: &[char], ms: &Vec<(usize, usize)>) -> (r: Vec<(usize, String)>)
    requires
        byte_len(v@) <= usize::MAX,
        matches_well_formed(v@, ms@),
    ensures
        pieces_view(r@) == pieces_with_matches(v@, ms@),
        r@.len() <= 2 * v@.len() + 1,
{
    let ghost s = v@;
    let offs = byte_offsets(v);
    let total = offs[v.len()];
    let mut r: Vec<(usize, String)> = Vec::new();
    let mut last_byte: usize = 0;
    let mut i: usize = 0;
    proof {
        assert(byte_offset(s, 0) == 0);
    }
    while i < ms.len()
        invariant
            s == v@,
            byte_len(s) <= usize::MAX,
            matches_well_formed(s, ms@),
            offs@.len() == s.len() + 1,
            forall|k: int| 0 <= k <= s.len() ==> #[trigger] offs@[k] == byte_offset(s, k),
            total == byte_len(s),
            i <= ms@.len(),
            pieces_upto(s, ms@, i as nat) == (pieces_view(r@), last_byte as int),
            is_boundary(s, last_byte as int),
            i < ms@.len() ==> last_byte <= ms@[i as int].0,
            0 <= char_at_byte(s, last_byte as int) <= s.len(),
            r@.len() <= char_at_byte(s, last_byte as int) + i,
            i <= char_at_byte(s, last_byte as int) + 1,
            i > 0 && i < ms@.len() ==> ms@[i - 1].0 < ms@[i as int].0,
            i > 0 ==> char_at_byte(s, ms@[i - 1].0 as int) <= char_at_byte(s, last_byte as int),
            i > 0 ==> i - 1 <= char_at_byte(s, ms@[i - 1].0 as int),
        decreases ms@.len() - i,
    {
        let (ms0, me0) = ms[i];
        let from = index_of_byte(&offs, last_byte, Ghost(s));
        let mstart = index_of_byte(&offs, ms0, Ghost(s));
        let mend = index_of_byte(&offs, me0, Ghost(s));
        proof {
            let k0 = char_at_byte(s, last_byte as int);
            let k1 = char_at_byte(s, ms0 as int);
            let k2 = char_at_byte(s, me0 as int);
            if k1 < k0 {
                lemma_byte_offset_increasing(s, k1, k0);
            }
            if k2 < k1 {
                lemma_byte_offset_increasing(s, k2, k1);
            }
            if i > 0 {
                let kp = char_at_byte(s, ms@[i - 1].0 as int);
                if k1 <= kp {
                    if k1 < kp {
                        lemma_byte_offset_increasing(s, k1, kp);
                    }
                }
            }
        }
        if last_byte < total {
            push_singles(v, from, mstart, &mut r);
        }
        let lig_start = if ms0 < total { mstart } else { 0 };
        let key = string_from_chars(&v[mstart..mend]);
        r.push((lig_start, key));
        proof {
            assert(v@.subrange(mstart as int, mend as int) == s.subrange(mstart as int, mend as int));
        }
        last_byte = me0;
        i = i + 1;
        assert(pieces_view(r@) =~= pieces_upto(s, ms@, i as nat).0);
    }
    let from = index_of_byte(&offs, last_byte, Ghost(s));
    proof {
        if last_byte >= total {
            lemma_char_at_byte(s, s.len() as int);
            if from < s.len() {
                lemma_byte_offset_increasing(s, from as int, s.len() as int);
            }
        }
    }
    let rest_start = if last_byte < total { from } else { v.len() };
    let ghost before_len = r@.len();
    push_singles(v, rest_start, v.len(), &mut r);
    assert(pieces_view(r@).len() == r@.len());
    r
}

} // verus!
