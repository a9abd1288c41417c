use vstd::prelude::*;

use crate::chars::{str_chars, string_from_chars};
use crate::glyph::{Glyph, Glyphs};

verus! {

/// Number of trailing space characters of `s`.
pub open spec fn trail(s: Seq<char>) -> nat
    decreases s.len(),
{
    if s.len() == 0 {
        0
    } else if s.last() == ' ' {
        1 + trail(s.drop_last())
    } else {
        0
    }
}

/// Number of leading space characters of `s`.
pub open spec fn lead(s: Seq<char>) -> nat
    decreases s.len(),
{
    if s.len() == 0 {
        0
    } else if s.first() == ' ' {
        1 + lead(s.drop_first())
    } else {
        0
    }
}

pub proof fn lemma_trail_le(s: Seq<char>)
    ensures
        trail(s) <= s.len(),
    decreases s.len(),
{
    if s.len() > 0 {
        lemma_trail_le(s.drop_last());
    }
}

pub proof fn lemma_lead_le(s: Seq<char>)
    ensures
        lead(s) <= s.len(),
    decreases s.len(),
{
    if s.len() > 0 {
        lemma_lead_le(s.drop_first());
    }
}

/// How far row `i` of `left` and row `i` of `right` can overlap.
pub open spec fn row_overlap(left: Seq<Seq<char>>, right: Seq<Seq<char>>, i: int) -> nat {
    trail(left[i]) + lead(right[i])
}

/// The least row overlap over rows `0..n` (requires `n >= 1`).
pub open spec fn min_row_overlap(left: Seq<Seq<char>>, right: Seq<Seq<char>>, n: nat) -> nat
    decreases n,
{
    if n <= 1 {
        row_overlap(left, right, 0)
    } else {
        let m = min_row_overlap(left, right, (n - 1) as nat);
        let c = row_overlap(left, right, n - 1);
        if c < m { c } else { m }
    }
}

/// Maximum cells two glyphs can overlap without occluding each other: the
/// least, over the rows both have, of the trailing spaces of the left row
/// plus the leading spaces of the right row; 0 when either has no rows.
pub open spec fn max_overlap(left: Seq<Seq<char>>, right: Seq<Seq<char>>) -> nat {
    let n = if left.len() <= right.len() { left.len() } else { right.len() };
    if n == 0 { 0 } else { min_row_overlap(left, right, n) }
}

/// The least row overlap is at most that of the first row.
pub proof fn lemma_min_row_overlap_le_first(left: Seq<Seq<char>>, right: Seq<Seq<char>>, n: nat)
    ensures
        min_row_overlap(left, right, n) <= row_overlap(left, right, 0),
    decreases n,
{
    if n > 1 {
        lemma_min_row_overlap_le_first(left, right, (n - 1) as nat);
    }
}

/// Two glyphs overlap by no more than the lengths of their first rows together.
pub proof fn lemma_max_overlap_le_first_rows(left: Seq<Seq<char>>, right: Seq<Seq<char>>)
    ensures
        left.len() > 0 && right.len() > 0 ==> max_overlap(left, right) <= left[0].len() + right[0].len(),
        left.len() == 0 || right.len() == 0 ==> max_overlap(left, right) == 0,
{
    if left.len() > 0 && right.len() > 0 {
        let n = if left.len() <= right.len() { left.len() } else { right.len() };
        lemma_min_row_overlap_le_first(left, right, n);
        lemma_trail_le(left[0]);
        lemma_lead_le(right[0]);
    }
}

/// The least row overlap is at most that of any row counted.
pub proof fn lemma_min_row_overlap_le(left: Seq<Seq<char>>, right: Seq<Seq<char>>, n: nat, d: int)
    requires
        0 <= d < n,
    ensures
        min_row_overlap(left, right, n) <= row_overlap(left, right, d),
    decreases n,
{
    if n > 1 && d < n - 1 {
        lemma_min_row_overlap_le(left, right, (n - 1) as nat, d);
    }
}

/// Two glyphs overlap by no more than the lengths of any pair of their rows.
pub proof fn lemma_max_overlap_le_rows(left: Seq<Seq<char>>, right: Seq<Seq<char>>, d: int)
    requires
        0 <= d < left.len(),
        d < right.len(),
    ensures
        max_overlap(left, right) <= left[d].len() + right[d].len(),
{
    let n = if left.len() <= right.len() { left.len() } else { right.len() };
    lemma_min_row_overlap_le(left, right, n, d);
    lemma_trail_le(left[d]);
    lemma_lead_le(right[d]);
}

/// A merged row is no longer than both rows and the spacing together, or
/// than the overlap itself.
pub proof fn lemma_merged_line_len(left: Seq<char>, right: Seq<char>, spacing: int)
    ensures
        merged_line(left, right, spacing).len() <= left.len() + right.len() + (if spacing >= 0 { spacing } else { 0 })
            || merged_line(left, right, spacing).len() == -spacing,
        merged_line(left, right, spacing).len() >= right.len(),
{
}

/// Number of trailing spaces of an exec character sequence.
fn trail_of(v: &Vec<char>) -> (r: usize)
    ensures
        r == trail(v@),
{
    let mut n: usize = 0;
    assert(v@.take(v@.len() as int) =~= v@);
    while n < v.len() && v[v.len() - 1 - n] == ' '
        invariant
            n <= v@.len(),
            trail(v@) == n + trail(v@.take(v@.len() - n)),
        decreases v@.len() - n,
    {
        let ghost m = v@.len() - n;
        assert(v@.take(m).drop_last() =~= v@.take(m - 1));
        n = n + 1;
    }
    if n < v.len() {
        assert(v@.take(v@.len() - n).last() == v@[v@.len() - 1 - n]);
    } else {
        assert(v@.take(0) =~= Seq::<char>::empty());
    }
    n
}

/// Number of leading spaces of an exec character sequence.
fn lead_of(v: &Vec<char>) -> (r: usize)
    ensures
        r == lead(v@),
{
    let mut n: usize = 0;
    assert(v@.skip(0) =~= v@);
    while n < v.len() && v[n] == ' '
        invariant
            n <= v@.len(),
            lead(v@) == n + lead(v@.skip(n as int)),
        decreases v@.len() - n,
    {
        assert(v@.skip(n as int).drop_first() =~= v@.skip(n + 1));
        n = n + 1;
    }
    if n == v.len() {
        assert(v@.skip(n as int) =~= Seq::<char>::empty());
    }
    n
}

/// Character `i` of `s`, or a space where `s` has none.
pub open spec fn char_or_space(s: Seq<char>, i: int) -> char {
    if 0 <= i < s.len() { s[i] } else { ' ' }
}

/// `n` space characters.
pub open spec fn spaces(n: nat) -> Seq<char> {
    Seq::new(n, |_i: int| ' ')
}

/// Overlaid cell: the right character wins unless it is a space.
pub open spec fn overlay_char(l: char, r: char) -> char {
    if r == ' ' { l } else { r }
}

/// Two glyph rows joined with `spacing`.
///
/// A non-negative spacing puts that many spaces between them. A negative
/// spacing overlaps the last `-spacing` cells of `left` (spaces where `left`
/// is too short) with the first `-spacing` cells of `right`, the right
/// character winning unless it is a space.
pub open spec fn merged_line(left: Seq<char>, right: Seq<char>, spacing: int) -> Seq<char> {
    if spacing >= 0 {
        left + spaces(spacing as nat) + right
    } else {
        let o = -spacing;
        let s = if o <= left.len() { left.len() - o } else { 0 };
        let k = if o <= right.len() { o } else { right.len() as int };
        left.take(s) + Seq::new(o as nat, |i: int| overlay_char(char_or_space(left, s + i), char_or_space(right, i)))
            + right.skip(k)
    }
}

/// Two glyphs joined row by row, over the rows both have.
pub open spec fn merged(left: Seq<Seq<char>>, right: Seq<Seq<char>>, spacing: int) -> Seq<Seq<char>> {
    let n = if left.len() <= right.len() { left.len() } else { right.len() };
    Seq::new(n, |i: int| merged_line(left[i], right[i], spacing))
}

/// Foreground boundary of row `i`: where the right fragment's color starts,
/// as a non-positive offset from the end of the left row.
pub open spec fn fg_boundary_at(left: Seq<Seq<char>>, right: Seq<Seq<char>>, spacing: int, i: int) -> int {
    let a = if spacing + lead(right[i]) <= 0 { spacing + lead(right[i]) } else { 0 };
    let b = if spacing >= -(trail(left[i]) as int) { spacing } else { -(trail(left[i]) as int) };
    if a <= b { a } else { b }
}

/// The character `d` cells before the end of a left row.
pub open spec fn left_cell(row: Seq<char>, d: int) -> char {
    if d + 1 <= row.len() { row[row.len() - d - 1] } else { ' ' }
}

/// The vote of one row on the background boundary at distance `d`:
/// +1 if only the left cell is drawn, -1 if only the right one is.
pub open spec fn bg_vote(left: Seq<Seq<char>>, right: Seq<Seq<char>>, a: int, d: int, row: int) -> int {
    let l = left_cell(left[row], d);
    let r = char_or_space(right[row], a - d - 1);
    (if l != ' ' { 1int } else { 0int }) - (if r != ' ' { 1int } else { 0int })
}

/// Sum of the votes of rows `0..n`.
pub open spec fn bg_votes(left: Seq<Seq<char>>, right: Seq<Seq<char>>, a: int, d: int, n: nat) -> int
    decreases n,
{
    if n == 0 { 0 } else { bg_votes(left, right, a, d, (n - 1) as nat) + bg_vote(left, right, a, d, n - 1) }
}

/// The first distance from `d` on at which the left glyph wins the vote,
/// or `a` if it never does.
pub open spec fn bg_shift(left: Seq<Seq<char>>, right: Seq<Seq<char>>, a: int, d: int) -> int
    decreases a - d,
{
    if d >= a {
        a
    } else if bg_votes(left, right, a, d, left.len()) > 0 {
        d
    } else {
        bg_shift(left, right, a, d + 1)
    }
}

/// The background boundary offset shared by all rows.
pub open spec fn bg_offset(left: Seq<Seq<char>>, right: Seq<Seq<char>>, spacing: int) -> int {
    let a = if spacing >= 0 { spacing } else { -spacing };
    -bg_shift(left, right, a, 0)
}

pub proof fn lemma_bg_shift_range(left: Seq<Seq<char>>, right: Seq<Seq<char>>, a: int, d: int)
    requires
        0 <= d <= a,
    ensures
        d <= bg_shift(left, right, a, d) <= a,
    decreases a - d,
{
    if d < a && bg_votes(left, right, a, d, left.len()) <= 0 {
        lemma_bg_shift_range(left, right, a, d + 1);
    }
}

pub proof fn lemma_bg_votes_bound(left: Seq<Seq<char>>, right: Seq<Seq<char>>, a: int, d: int, n: nat)
    ensures
        -(n as int) <= bg_votes(left, right, a, d, n) <= n,
    decreases n,
{
    if n > 0 {
        lemma_bg_votes_bound(left, right, a, d, (n - 1) as nat);
    }
}

impl Glyphs {
    /// Number of trailing space characters in `line`.
    pub fn line_trail(line: &str) -> (r: usize)
        ensures
            r == trail(line@),
    {
        let v = str_chars(line);
        trail_of(&v)
    }

    /// Number of leading space characters in `line`.
    pub fn line_lead(line: &str) -> (r: usize)
        ensures
            r == lead(line@),
    {
        let v = str_chars(line);
        lead_of(&v)
    }

    /// Maximum cells two glyphs can overlap without occluding each other.
    ///
    /// Returns the minimum across all rows of (trailing spaces in left + leading spaces in right).
    pub fn max_overlap(left: &Glyph, right: &Glyph) -> (r: usize)
        requires
            forall|i: int| 0 <= i < left@.len() && 0 <= i < right@.len()
                ==> left@[i]@.len() + right@[i]@.len() <= usize::MAX,
        ensures
            r == max_overlap(left.deep_view(), right.deep_view()),
    {
        let ghost l = left.deep_view();
        let ghost rr = right.deep_view();
        let n = if left.len() <= right.len() { left.len() } else { right.len() };
        if n == 0 {
            return 0;
        }
        let mut best: usize = 0;
        let mut i: usize = 0;
        while i < n
            invariant
                n <= left@.len(),
                n <= right@.len(),
                l == left.deep_view(),
                rr == right.deep_view(),
                i <= n,
                forall|k: int| 0 <= k < left@.len() && 0 <= k < right@.len()
                    ==> left@[k]@.len() + right@[k]@.len() <= usize::MAX,
                i >= 1 ==> best == min_row_overlap(l, rr, i as nat),
            decreases n - i,
        {
            let lv = str_chars(left[i].as_str());
            let rv = str_chars(right[i].as_str());
            let t = trail_of(&lv);
            let d = lead_of(&rv);
            proof {
                lemma_trail_le(lv@);
                lemma_lead_le(rv@);
            }
            let c = t + d;
            if i == 0 || c < best {
                best = c;
            }
            i = i + 1;
        }
        best
    }

    /// Merge two glyph rows with the given spacing.
    ///
    /// Positive spacing adds space characters between them.
    /// Negative spacing overlaps them: right's non-space characters overwrite left's.
    pub fn merge_line(left: &str, right: &str, spacing: i32) -> (r: String)
        requires
            spacing > i32::MIN,
        ensures
            r@ == merged_line(left@, right@, spacing as int),
    {
        let lv = str_chars(left);
        let rv = str_chars(right);
        let v = merge_chars(&lv, &rv, spacing);
        string_from_chars(v.as_slice())
    }

    /// Merge two glyphs row-by-row with the given spacing.
    pub fn merge(left: &Glyph, right: &Glyph, spacing: i32) -> (r: Glyph)
        requires
            spacing > i32::MIN,
        ensures
            r.deep_view() == merged(left.deep_view(), right.deep_view(), spacing as int),
    {
        let n = if left.len() <= right.len() { left.len() } else { right.len() };
        let mut r: Glyph = Vec::new();
        let mut i: usize = 0;
        while i < n
            invariant
                n <= left@.len(),
                n <= right@.len(),
                n == if left@.len() <= right@.len() { left@.len() } else { right@.len() },
                spacing > i32::MIN,
                i <= n,
                r@.len() == i,
                forall|j: int| 0 <= j < i ==> #[trigger] r@[j]@ == merged_line(left@[j]@, right@[j]@, spacing as int),
            decreases n - i,
        {
            r.push(Self::merge_line(left[i].as_str(), right[i].as_str(), spacing));
            i = i + 1;
        }
        assert(r.deep_view() =~= merged(left.deep_view(), right.deep_view(), spacing as int));
        r
    }

    /// Per-row signed offset from the end of `left` where the right fragment's
    /// foreground color should start.
    ///
    /// Returns a list of non-positive offsets (0 = at the end of left, negative = overlap).
    pub fn boundary(left: &Glyph, right: &Glyph, spacing: i32) -> (r: Vec<i32>)
        requires
            right@.len() >= left@.len(),
            forall|i: int| 0 <= i < left@.len() ==> trail(#[trigger] left@[i]@) <= i32::MAX,
            forall|i: int| 0 <= i < left@.len() ==> lead(#[trigger] right@[i]@) <= i32::MAX,
            forall|i: int| 0 <= i < left@.len() ==> spacing + lead(#[trigger] right@[i]@) <= i32::MAX,
        ensures
            r@.len() == left@.len(),
            forall|i: int| 0 <= i < r@.len() ==> #[trigger] r@[i] == fg_boundary_at(left.deep_view(), right.deep_view(), spacing as int, i),
    {
        let mut r: Vec<i32> = Vec::new();
        let mut i: usize = 0;
        while i < left.len()
            invariant
                right@.len() >= left@.len(),
                forall|k: int| 0 <= k < left@.len() ==> trail(#[trigger] left@[k]@) <= i32::MAX,
                forall|k: int| 0 <= k < left@.len() ==> spacing + lead(#[trigger] right@[k]@) <= i32::MAX,
                forall|k: int| 0 <= k < left@.len() ==> lead(#[trigger] right@[k]@) <= i32::MAX,
                i <= left@.len(),
                r@.len() == i,
                forall|j: int| 0 <= j < i ==> #[trigger] r@[j] == fg_boundary_at(left.deep_view(), right.deep_view(), spacing as int, j),
            decreases left@.len() - i,
        {
            let lead = Self::line_lead(right[i].as_str()) as i32;
            let trail = Self::line_trail(left[i].as_str()) as i32;
            assert(left.deep_view()[i as int] == left@[i as int]@);
            assert(right.deep_view()[i as int] == right@[i as int]@);
            let a = if spacing + lead <= 0 { spacing + lead } else { 0 };
            let b = if spacing >= -trail { spacing } else { -trail };
            r.push(if a <= b { a } else { b });
            i = i + 1;
        }
        r
    }

    /// Per-row signed offset from the end of `left` where the background color
    /// transitions from left to right.
    ///
    /// Uses a majority-vote across all rows to decide where the BG boundary falls.
    pub fn bg_boundary(left: &Glyph, right: &Glyph, spacing: i32) -> (r: Vec<i32>)
        requires
            right@.len() >= left@.len() || spacing == 0,
            spacing > i32::MIN,
            left@.len() <= i32::MAX,
        ensures
            r@.len() == left@.len(),
            forall|i: int| 0 <= i < r@.len() ==> #[trigger] r@[i] == bg_offset(left.deep_view(), right.deep_view(), spacing as int),
    {
        let ghost l = left.deep_view();
        let ghost rr = right.deep_view();
        let h = left.len();
        if spacing == 0 {
            assert(bg_shift(l, rr, 0, 0) == 0);
            let mut z: Vec<i32> = Vec::new();
            while z.len() < h
                invariant
                    h == left@.len(),
                    z@.len() <= h,
                    forall|i: int| 0 <= i < z@.len() ==> #[trigger] z@[i] == 0,
                decreases h - z@.len(),
            {
                z.push(0);
            }
            return z;
        }
        let a: u32 = if spacing >= 0 { spacing as u32 } else { (-spacing) as u32 };
        let mut rows_l: Vec<Vec<char>> = Vec::new();
        let mut rows_r: Vec<Vec<char>> = Vec::new();
        let mut i: usize = 0;
        while i < h
            invariant
                h == left@.len(),
                right@.len() >= left@.len(),
                l == left.deep_view(),
                rr == right.deep_view(),
                i <= h,
                rows_l@.len() == i,
                rows_r@.len() == i,
                forall|j: int| 0 <= j < i ==> #[trigger] rows_l@[j]@ == l[j],
                forall|j: int| 0 <= j < i ==> #[trigger] rows_r@[j]@ == rr[j],
            decreases h - i,
        {
            rows_l.push(str_chars(left[i].as_str()));
            rows_r.push(str_chars(right[i].as_str()));
            i = i + 1;
        }
        let mut shift: u32 = 0;
        let mut found = false;
        while shift < a && !found
            invariant
                h == l.len(),
                h <= i32::MAX,
                rr.len() >= h,
                rows_l@.len() == h,
                rows_r@.len() == h,
                forall|j: int| 0 <= j < h ==> #[trigger] rows_l@[j]@ == l[j],
                forall|j: int| 0 <= j < h ==> #[trigger] rows_r@[j]@ == rr[j],
                shift <= a,
                found ==> shift < a && bg_shift(l, rr, a as int, 0) == shift,
                !found ==> bg_shift(l, rr, a as int, 0) == bg_shift(l, rr, a as int, shift as int),
            decreases (a - shift) as int * 2 + (if found { 0int } else { 1int }),
        {
            let votes = bg_votes_at(&rows_l, &rows_r, a, shift, Ghost(l), Ghost(rr));
            if votes > 0 {
                found = true;
            } else {
                shift = shift + 1;
            }
        }
        proof {
            lemma_bg_shift_range(l, rr, a as int, 0);
            if !found {
                assert(shift == a);
            }
        }
        let off: i32 = -(shift as i32);
        let mut r: Vec<i32> = Vec::new();
        let mut j: usize = 0;
        while j < h
            invariant
                j <= h,
                r@.len() == j,
                forall|k: int| 0 <= k < j ==> #[trigger] r@[k] == off,
            decreases h - j,
        {
            r.push(off);
            j = j + 1;
        }
        r
    }
}

/// The vote sum at distance `d` over all rows.
fn bg_votes_at(
    rows_l: &Vec<Vec<char>>,
    rows_r: &Vec<Vec<char>>,
    a: u32,
    d: u32,
    Ghost(l): Ghost<Seq<Seq<char>>>,
    Ghost(rr): Ghost<Seq<Seq<char>>>,
) -> (r: i64)
    requires
        d < a,
        rows_l@.len() == l.len(),
        rows_r@.len() == l.len(),
        rr.len() >= l.len(),
        l.len() <= i32::MAX,
        forall|j: int| 0 <= j < l.len() ==> #[trigger] rows_l@[j]@ == l[j],
        forall|j: int| 0 <= j < l.len() ==> #[trigger] rows_r@[j]@ == rr[j],
    ensures
        r == bg_votes(l, rr, a as int, d as int, l.len()),
{
    let mut sum: i64 = 0;
    let mut row: usize = 0;
    while row < rows_l.len()
        invariant
            d < a,
            rows_l@.len() == l.len(),
            rows_r@.len() == l.len(),
            rr.len() >= l.len(),
            l.len() <= i32::MAX,
            forall|j: int| 0 <= j < l.len() ==> #[trigger] rows_l@[j]@ == l[j],
            forall|j: int| 0 <= j < l.len() ==> #[trigger] rows_r@[j]@ == rr[j],
            row <= l.len(),
            sum == bg_votes(l, rr, a as int, d as int, row as nat),
        decreases l.len() - row,
    {
        proof {
            lemma_bg_votes_bound(l, rr, a as int, d as int, row as nat);
        }
        let lrow = &rows_l[row];
        let rrow = &rows_r[row];
        let du = d as usize;
        let lc = if du < lrow.len() { lrow[lrow.len() - du - 1] } else { ' ' };
        let ri = (a - d - 1) as usize;
        let rc = if ri < rrow.len() { rrow[ri] } else { ' ' };
        let ls: i64 = if lc != ' ' { 1 } else { 0 };
        let rs: i64 = if rc != ' ' { 1 } else { 0 };
        sum = sum + ls - rs;
        row = row + 1;
    }
    sum
}

/// Characters of two rows joined with `spacing`.
fn merge_chars(lv: &Vec<char>, rv: &Vec<char>, spacing: i32) -> (r: Vec<char>)
    requires
        spacing > i32::MIN,
    ensures
        r@ == merged_line(lv@, rv@, spacing as int),
{
    let mut res: Vec<char> = Vec::new();
    if spacing >= 0 {
        let mut i: usize = 0;
        while i < lv.len()
            invariant
                i <= lv@.len(),
                res@ == lv@.take(i as int),
            decreases lv@.len() - i,
        {
            res.push(lv[i]);
            i = i + 1;
            assert(res@ =~= lv@.take(i as int));
        }
        let n = spacing as u32;
        let mut k: u32 = 0;
        while k < n
            invariant
                k <= n,
                res@ == lv@ + spaces(k as nat),
            decreases n - k,
        {
            res.push(' ');
            k = k + 1;
            assert(res@ =~= lv@ + spaces(k as nat));
        }
        let mut j: usize = 0;
        while j < rv.len()
            invariant
                j <= rv@.len(),
                res@ == lv@ + spaces(n as nat) + rv@.take(j as int),
            decreases rv@.len() - j,
        {
            res.push(rv[j]);
            j = j + 1;
            assert(res@ =~= lv@ + spaces(n as nat) + rv@.take(j as int));
        }
        assert(rv@.take(rv@.len() as int) =~= rv@);
        assert(lv@.take(lv@.len() as int) =~= lv@);
        res
    } else {
        let o = (-spacing) as u32 as usize;
        let ll = lv.len();
        let s = if o <= ll { ll - o } else { 0 };
        let k = if o <= rv.len() { o } else { rv.len() };
        let ghost mid = Seq::new(o as nat, |i: int| overlay_char(char_or_space(lv@, s + i), char_or_space(rv@, i)));
        let mut i: usize = 0;
        while i < s
            invariant
                s <= lv@.len(),
                i <= s,
                res@ == lv@.take(i as int),
            decreases s - i,
        {
            res.push(lv[i]);
            i = i + 1;
            assert(res@ =~= lv@.take(i as int));
        }
        let mut m: usize = 0;
        while m < o
            invariant
                s <= lv@.len(),
                ll == lv@.len(),
                o <= u32::MAX,
                o > lv@.len() ==> s == 0,
                o <= lv@.len() ==> s == lv@.len() - o,
                mid == Seq::new(o as nat, |i: int| overlay_char(char_or_space(lv@, s + i), char_or_space(rv@, i))),
                m <= o,
                res@ == lv@.take(s as int) + mid.take(m as int),
            decreases o - m,
        {
            let lc = if s + m < ll { lv[s + m] } else { ' ' };
            let rc = if m < rv.len() { rv[m] } else { ' ' };
            res.push(if rc == ' ' { lc } else { rc });
            m = m + 1;
            assert(res@ =~= lv@.take(s as int) + mid.take(m as int));
        }
        let mut j: usize = k;
        while j < rv.len()
            invariant
                k <= j <= rv@.len(),
                res@ == lv@.take(s as int) + mid + rv@.subrange(k as int, j as int),
            decreases rv@.len() - j,
        {
            res.push(rv[j]);
            j = j + 1;
            assert(res@ =~= lv@.take(s as int) + mid + rv@.subrange(k as int, j as int));
        }
        assert(mid.take(o as int) =~= mid);
        assert(rv@.subrange(k as int, rv@.len() as int) =~= rv@.skip(k as int));
        res
    }
}

} // verus!
