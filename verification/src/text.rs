use vstd::prelude::*;

use crate::chars::{str_chars, string_from_chars};

verus! {

/// Characters with the Unicode `White_Space` property.
pub open spec fn is_ws(c: char) -> bool {
    let u = c as u32;
    (0x09 <= u <= 0x0D) || u == 0x20 || u == 0x85 || u == 0xA0 || u == 0x1680
        || (0x2000 <= u <= 0x200A) || u == 0x2028 || u == 0x2029 || u == 0x202F
        || u == 0x205F || u == 0x3000
}

/// Whether `c` is a white-space character.
pub fn is_whitespace(c: char) -> (r: bool)
    ensures
        r == is_ws(c),
{
    let u = c as u32;
    (0x09 <= u && u <= 0x0D) || u == 0x20 || u == 0x85 || u == 0xA0 || u == 0x1680
        || (0x2000 <= u && u <= 0x200A) || u == 0x2028 || u == 0x2029 || u == 0x202F
        || u == 0x205F || u == 0x3000
}

/// `s` without trailing white space.
pub open spec fn trim_end(s: Seq<char>) -> Seq<char>
    decreases s.len(),
{
    if s.len() > 0 && is_ws(s.last()) { trim_end(s.drop_last()) } else { s }
}

/// `s` without leading white space.
pub open spec fn trim_start(s: Seq<char>) -> Seq<char>
    decreases s.len(),
{
    if s.len() > 0 && is_ws(s.first()) { trim_start(s.drop_first()) } else { s }
}

/// `s` without leading or trailing white space.
pub open spec fn trim(s: Seq<char>) -> Seq<char> {
    trim_start(trim_end(s))
}

/// Characters without trailing white space.
pub fn trim_end_chars(v: &[char]) -> (r: Vec<char>)
    ensures
        r@ == trim_end(v@),
{
    let mut n: usize = v.len();
    assert(v@.take(n as int) =~= v@);
    while n > 0 && is_whitespace(v[n - 1])
        invariant
            n <= v@.len(),
            trim_end(v@) == trim_end(v@.take(n as int)),
        decreases n,
    {
        assert(v@.take(n as int).drop_last() =~= v@.take(n - 1));
        n = n - 1;
    }
    let r = slice_to_vec(v, 0, n);
    r
}

/// Characters without leading white space.
pub fn trim_start_chars(v: &[char]) -> (r: Vec<char>)
    ensures
        r@ == trim_start(v@),
{
    let mut n: usize = 0;
    assert(v@.skip(0) =~= v@);
    while n < v.len() && is_whitespace(v[n])
        invariant
            n <= v@.len(),
            trim_start(v@) == trim_start(v@.skip(n as int)),
        decreases v@.len() - n,
    {
        assert(v@.skip(n as int).drop_first() =~= v@.skip(n + 1));
        n = n + 1;
    }
    let r = slice_to_vec(v, n, v.len());
    r
}

/// Characters without leading or trailing white space.
pub fn trim_chars(v: &[char]) -> (r: Vec<char>)
    ensures
        r@ == trim(v@),
{
    let e = trim_end_chars(v);
    trim_start_chars(e.as_slice())
}

/// A copy of `v[from..to]`.
pub fn slice_to_vec(v: &[char], from: usize, to: usize) -> (r: Vec<char>)
    requires
        from <= to <= v@.len(),
    ensures
        r@ == v@.subrange(from as int, to as int),
{
    let mut r: Vec<char> = Vec::new();
    let mut i: usize = from;
    while i < to
        invariant
            from <= i <= to,
            to <= v@.len(),
            r@ == v@.subrange(from as int, i as int),
        decreases to - i,
    {
        r.push(v[i]);
        i = i + 1;
        assert(r@ =~= v@.subrange(from as int, i as int));
    }
    r
}

/// `l` without one trailing carriage return.
pub open spec fn strip_cr(l: Seq<char>) -> Seq<char> {
    if l.len() > 0 && l.last() == '\r' { l.drop_last() } else { l }
}

/// Index of the first `c` in `s` at or after `from`, if any.
pub open spec fn find_from(s: Seq<char>, c: char, from: int) -> Option<int>
    decreases s.len() - from,
{
    if from >= s.len() || from < 0 {
        None
    } else if s[from] == c {
        Some(from)
    } else {
        find_from(s, c, from + 1)
    }
}

/// The lines of `s`: split at line feeds, a line that a line feed ends
/// losing one carriage return right before it; a final line feed ends the
/// last line rather than starting an empty one.
pub open spec fn lines_of(s: Seq<char>) -> Seq<Seq<char>>
    decreases s.len(),
{
    if s.len() == 0 {
        Seq::empty()
    } else {
        match find_from(s, '\n', 0) {
            None => seq![s],
            Some(i) => {
                if 0 <= i < s.len() {
                    seq![strip_cr(s.take(i))] + lines_of(s.skip(i + 1))
                } else {
                    Seq::empty()
                }
            }
        }
    }
}

pub proof fn lemma_find_from(s: Seq<char>, c: char, from: int)
    requires
        0 <= from,
    ensures
        match find_from(s, c, from) {
            Some(i) => from <= i < s.len() && s[i] == c && forall|j: int| from <= j < i ==> s[j] != c,
            None => forall|j: int| from <= j < s.len() ==> s[j] != c,
        },
    decreases s.len() - from,
{
    if from < s.len() && s[from] != c {
        lemma_find_from(s, c, from + 1);
    }
}

/// The lines of a character sequence.
pub fn split_lines(v: &[char]) -> (r: Vec<Vec<char>>)
    ensures
        r@.len() == lines_of(v@).len(),
        forall|i: int| 0 <= i < r@.len() ==> #[trigger] r@[i]@ == lines_of(v@)[i],
{
    let mut r: Vec<Vec<char>> = Vec::new();
    let mut start: usize = 0;
    let ghost done: Seq<Seq<char>> = Seq::empty();
    proof {
        assert(v@.skip(0) =~= v@);
    }
    while start < v.len()
        invariant
            start <= v@.len(),
            r@.len() == done.len(),
            forall|i: int| 0 <= i < r@.len() ==> #[trigger] r@[i]@ == done[i],
            lines_of(v@) == done + lines_of(v@.skip(start as int)),
        decreases v@.len() - start,
    {
        let ghost rest = v@.skip(start as int);
        let mut end: usize = start;
        while end < v.len() && v[end] != '\n'
            invariant
                start <= end <= v@.len(),
                forall|j: int| start <= j < end ==> v@[j] != '\n',
            decreases v@.len() - end,
        {
            end = end + 1;
        }
        proof {
            lemma_find_from(rest, '\n', 0);
        }
        let mut line = slice_to_vec(v, start, end);
        if end < v.len() && line.len() > 0 && line[line.len() - 1] == '\r' {
            line.pop();
        }
        proof {
            if end < v@.len() {
                assert(rest[end - start] == '\n');
                assert(forall|j: int| 0 <= j < end - start ==> rest[j] == v@[start + j]);
                assert(find_from(rest, '\n', 0) == Some(end - start as int)) by {
                    match find_from(rest, '\n', 0) {
                        Some(i) => {
                            if i < end - start {
                                assert(rest[i] == v@[start + i]);
                            }
                            if i > end - start {
                                assert(rest[end - start] != '\n');
                            }
                        }
                        None => {
                            assert(rest[end - start] != '\n');
                        }
                    }
                }
                assert(rest.take(end - start) =~= v@.subrange(start as int, end as int));
                assert(rest.skip(end - start + 1) =~= v@.skip(end + 1));
            } else {
                assert(find_from(rest, '\n', 0) is None) by {
                    match find_from(rest, '\n', 0) {
                        Some(i) => {
                            assert(rest[i] == v@[start + i]);
                        }
                        None => {}
                    }
                }
                assert(rest =~= v@.subrange(start as int, end as int));
            }
        }
        r.push(line);
        proof {
            if end < v@.len() {
                done = done.push(strip_cr(v@.subrange(start as int, end as int)));
            } else {
                done = done.push(v@.subrange(start as int, end as int));
            }
        }
        if end < v.len() {
            start = end + 1;
        } else {
            start = end;
            assert(v@.skip(start as int) =~= Seq::<char>::empty());
        }
        assert(lines_of(v@) == done + lines_of(v@.skip(start as int)));
    }
    assert(v@.skip(start as int) =~= Seq::<char>::empty());
    assert(done + lines_of(v@.skip(start as int)) =~= done);
    r
}

/// Unicode lower-case mapping of a string, as `str::to_lowercase` computes it.
pub uninterp spec fn lowercase(s: Seq<char>) -> Seq<char>;

/// Lower-cases a string.
///
/// Trusted wrapper of `str::to_lowercase`; its result is named by `lowercase`,
/// a function of the characters of `s` alone (the mapping does not depend
/// on any locale).
#[verifier::external_body]
pub(crate) fn to_lowercase(s: &str) -> (r: String)
    ensures
        r@ == lowercase(s@),
{
    s.to_lowercase()
}

/// Lower-cases a character sequence.
pub fn lowercase_chars(v: &[char]) -> (r: Vec<char>)
    ensures
        r@ == lowercase(v@),
{
    let s = string_from_chars(v);
    let l = to_lowercase(s.as_str());
    str_chars(l.as_str())
}

} // verus!

verus! {

/// Whether `c` is an ASCII decimal digit.
pub open spec fn is_digit(c: char) -> bool {
    48 <= c as u32 <= 57
}

/// Value of a sequence of decimal digits.
pub open spec fn digits_value(d: Seq<char>) -> nat
    decreases d.len(),
{
    if d.len() == 0 {
        0
    } else {
        digits_value(d.drop_last()) * 10 + (d.last() as u32 - 48) as nat
    }
}

/// All characters are decimal digits and there is at least one.
pub open spec fn all_digits(d: Seq<char>) -> bool {
    d.len() > 0 && forall|i: int| 0 <= i < d.len() ==> is_digit(#[trigger] d[i])
}

/// `s` without one leading `+`.
pub open spec fn unsigned_digits(s: Seq<char>) -> Seq<char> {
    if s.len() > 0 && s[0] == '+' { s.drop_first() } else { s }
}

/// The `usize` that `s` denotes, as integer parsing reads it: an optional
/// `+`, then one or more decimal digits, with a value that fits.
pub open spec fn parsed_usize(s: Seq<char>) -> Option<usize> {
    let d = unsigned_digits(s);
    if all_digits(d) && digits_value(d) <= usize::MAX { Some(digits_value(d) as usize) } else { None }
}

/// The `i32` that `s` denotes: an optional sign, then one or more decimal
/// digits, with a value that fits.
pub open spec fn parsed_i32(s: Seq<char>) -> Option<i32> {
    if s.len() > 0 && s[0] == '-' {
        let d = s.drop_first();
        if all_digits(d) && digits_value(d) <= 0x8000_0000 { Some((-(digits_value(d) as int)) as i32) } else { None }
    } else {
        let d = unsigned_digits(s);
        if all_digits(d) && digits_value(d) <= i32::MAX { Some(digits_value(d) as i32) } else { None }
    }
}

/// Value of `d` if it is a non-empty run of digits worth at most `limit`.
fn digits_up_to(d: &[char], limit: u64) -> (r: Option<u64>)
    requires
        limit >= 9,
    ensures
        r == (if all_digits(d@) && digits_value(d@) <= limit { Some(digits_value(d@) as u64) } else { None::<u64> }),
{
    if d.len() == 0 {
        return None;
    }
    let mut v: u64 = 0;
    let mut i: usize = 0;
    while i < d.len()
        invariant
            0 < d@.len(),
            limit >= 9,
            i <= d@.len(),
            forall|j: int| 0 <= j < i ==> is_digit(#[trigger] d@[j]),
            v == digits_value(d@.take(i as int)),
            v <= limit,
        decreases d@.len() - i,
    {
        let u = d[i] as u32;
        if !(48 <= u && u <= 57) {
            assert(!is_digit(d@[i as int]));
            return None;
        }
        let dv = (u - 48) as u64;
        assert(d@.take(i + 1).drop_last() =~= d@.take(i as int));
        if v > (limit - dv) / 10 {
            proof {
                lemma_digits_grow(d@, (i + 1) as nat);
            }
            return None;
        }
        v = v * 10 + dv;
        i = i + 1;
    }
    assert(d@.take(i as int) =~= d@);
    Some(v)
}

/// Digits after a prefix only make the value larger.
proof fn lemma_digits_grow(d: Seq<char>, n: nat)
    requires
        n <= d.len(),
    ensures
        digits_value(d) >= digits_value(d.take(n as int)),
    decreases d.len(),
{
    if n < d.len() {
        lemma_digits_grow(d.drop_last(), n);
        assert(d.drop_last().take(n as int) =~= d.take(n as int));
    } else {
        assert(d.take(n as int) =~= d);
    }
}

/// Parses a `usize` the way integer parsing reads decimal text.
pub fn parse_usize(v: &[char]) -> (r: Option<usize>)
    ensures
        r == parsed_usize(v@),
{
    let d = if v.len() > 0 && v[0] == '+' { slice_to_vec(v, 1, v.len()) } else { slice_to_vec(v, 0, v.len()) };
    assert(d@ =~= unsigned_digits(v@));
    match digits_up_to(d.as_slice(), usize::MAX as u64) {
        Some(x) => Some(x as usize),
        None => None,
    }
}

/// Parses an `i32` the way integer parsing reads decimal text.
pub fn parse_i32(v: &[char]) -> (r: Option<i32>)
    ensures
        r == parsed_i32(v@),
{
    if v.len() > 0 && v[0] == '-' {
        let d = slice_to_vec(v, 1, v.len());
        assert(d@ =~= v@.drop_first());
        match digits_up_to(d.as_slice(), 0x8000_0000) {
            Some(x) => Some((0 - (x as i64)) as i32),
            None => None,
        }
    } else {
        let d = if v.len() > 0 && v[0] == '+' { slice_to_vec(v, 1, v.len()) } else { slice_to_vec(v, 0, v.len()) };
        assert(d@ =~= unsigned_digits(v@));
        match digits_up_to(d.as_slice(), 0x7fff_ffff) {
            Some(x) => Some(x as i32),
            None => None,
        }
    }
}

/// `s` split at every `c`, empty pieces included: one more piece than
/// there are `c` in `s`.
pub open spec fn split_on(s: Seq<char>, c: char) -> Seq<Seq<char>>
    decreases s.len(),
{
    if s.len() == 0 {
        seq![Seq::empty()]
    } else {
        let w = split_on(s.drop_last(), c);
        if s.last() == c {
            w.push(Seq::empty())
        } else {
            w.update(w.len() - 1, w.last().push(s.last()))
        }
    }
}

/// Total number of characters of the pieces.
pub open spec fn total_len(p: Seq<Seq<char>>) -> int
    decreases p.len(),
{
    if p.len() == 0 { 0 } else { total_len(p.drop_last()) + p.last().len() }
}

pub proof fn lemma_total_len_prefix(p: Seq<Seq<char>>, i: int)
    requires
        0 <= i <= p.len(),
    ensures
        0 <= total_len(p.take(i)) <= total_len(p),
    decreases p.len() - i,
{
    if i < p.len() {
        lemma_total_len_prefix(p, i + 1);
        assert(p.take(i + 1).drop_last() =~= p.take(i));
    } else {
        assert(p.take(i) =~= p);
    }
    lemma_total_len_nonneg(p.take(i));
}

pub proof fn lemma_total_len_nonneg(p: Seq<Seq<char>>)
    ensures
        total_len(p) >= 0,
    decreases p.len(),
{
    if p.len() > 0 {
        lemma_total_len_nonneg(p.drop_last());
    }
}

/// The pieces of a split hold every character but the separators.
pub proof fn lemma_split_on_total(s: Seq<char>, c: char)
    ensures
        split_on(s, c).len() >= 1,
        total_len(split_on(s, c)) + split_on(s, c).len() - 1 == s.len(),
    decreases s.len(),
{
    if s.len() == 0 {
        let e: Seq<Seq<char>> = seq![Seq::empty()];
        assert(e.drop_last() =~= Seq::<Seq<char>>::empty());
        assert(total_len(e.drop_last()) == 0);
        assert(e.last().len() == 0);
        assert(total_len(e) == total_len(e.drop_last()) + e.last().len());
    } else {
        let w = split_on(s.drop_last(), c);
        lemma_split_on_total(s.drop_last(), c);
        if s.last() == c {
            assert(w.push(Seq::empty()).drop_last() =~= w);
            assert(total_len(w.push(Seq::empty())) == total_len(w));
        } else {
            let u = w.update(w.len() - 1, w.last().push(s.last()));
            assert(u.drop_last() =~= w.drop_last());
            assert(u.last() == w.last().push(s.last()));
            assert(total_len(u) == total_len(u.drop_last()) + u.last().len());
            assert(total_len(w) == total_len(w.drop_last()) + w.last().len());
        }
    }
}

/// A character sequence split at every `c`.
pub fn split_chars_on(v: &[char], c: char) -> (r: Vec<Vec<char>>)
    ensures
        r@.len() == split_on(v@, c).len(),
        forall|i: int| 0 <= i < r@.len() ==> #[trigger] r@[i]@ == split_on(v@, c)[i],
{
    let mut r: Vec<Vec<char>> = Vec::new();
    r.push(Vec::new());
    let mut i: usize = 0;
    assert(v@.take(0) =~= Seq::<char>::empty());
    while i < v.len()
        invariant
            i <= v@.len(),
            r@.len() == split_on(v@.take(i as int), c).len(),
            r@.len() >= 1,
            forall|k: int| 0 <= k < r@.len() ==> #[trigger] r@[k]@ == split_on(v@.take(i as int), c)[k],
        decreases v@.len() - i,
    {
        let ghost pre = v@.take(i as int);
        assert(v@.take(i + 1).drop_last() =~= pre);
        assert(v@.take(i + 1).last() == v@[i as int]);
        let ghost old_r = r@;
        if v[i] == c {
            r.push(Vec::new());
            proof {
                assert forall|k: int| 0 <= k < r@.len() implies #[trigger] r@[k]@ == split_on(v@.take(i + 1), c)[k] by {
                    if k < old_r.len() {
                        assert(r@[k] == old_r[k]);
                    }
                }
            }
        } else {
            let last = r.len() - 1;
            let mut w = r.pop().unwrap();
            w.push(v[i]);
            r.push(w);
            proof {
                assert forall|k: int| 0 <= k < r@.len() implies #[trigger] r@[k]@ == split_on(v@.take(i + 1), c)[k] by {
                    if k < last {
                        assert(r@[k] == old_r[k]);
                    }
                }
            }
        }
        i = i + 1;
    }
    assert(v@.take(i as int) =~= v@);
    r
}

/// No piece is longer than all pieces together.
pub proof fn lemma_total_len_elem(p: Seq<Seq<char>>, q: int)
    requires
        0 <= q < p.len(),
    ensures
        p[q].len() <= total_len(p),
    decreases p.len(),
{
    lemma_total_len_nonneg(p.drop_last());
    if q < p.len() - 1 {
        lemma_total_len_elem(p.drop_last(), q);
        assert(p.drop_last()[q] == p[q]);
    }
}

/// Trimming never lengthens.
pub proof fn lemma_trim_end_len(s: Seq<char>)
    ensures
        trim_end(s).len() <= s.len(),
    decreases s.len(),
{
    if s.len() > 0 && is_ws(s.last()) {
        lemma_trim_end_len(s.drop_last());
    }
}

/// No line is longer than the text.
pub proof fn lemma_lines_of_len(s: Seq<char>)
    ensures
        forall|i: int| 0 <= i < lines_of(s).len() ==> (#[trigger] lines_of(s)[i]).len() <= s.len(),
    decreases s.len(),
{
    if s.len() > 0 {
        lemma_find_from(s, '\n', 0);
        match find_from(s, '\n', 0) {
            None => {},
            Some(i) => {
                if 0 <= i < s.len() {
                    lemma_lines_of_len(s.skip(i + 1));
                    let first: Seq<Seq<char>> = seq![strip_cr(s.take(i))];
                    let rest = lines_of(s.skip(i + 1));
                    assert forall|k: int| 0 <= k < lines_of(s).len() implies (#[trigger] lines_of(s)[k]).len() <= s.len() by {
                        if k > 0 {
                            assert(lines_of(s)[k] == rest[k - 1]);
                        }
                    }
                }
            },
        }
    }
}

} // verus!
