use vstd::prelude::*;

use crate::chars::{concat, str_chars, string_from_chars, string_of, u128_to_decimal, decimal};
use crate::glyph::{Glyph, GlyphEntry, Glyphs, insert_all, lemma_insert_all, keys_unique};

verus! {

/// Row `row` holds `sep` at column `c`.
pub open spec fn sep_at(row: Seq<char>, c: int, sep: char) -> bool {
    0 <= c < row.len() && row[c] == sep
}

/// Column `c` is a separator column: every row has `sep` there.
pub open spec fn is_break(rows: Seq<Seq<char>>, sep: char, c: int) -> bool {
    forall|r: int| 0 <= r < rows.len() ==> #[trigger] sep_at(rows[r], c, sep)
}

/// The separator columns among columns `0..n`, in increasing order.
pub open spec fn breaks_upto(rows: Seq<Seq<char>>, sep: char, n: nat) -> Seq<int>
    decreases n,
{
    if n == 0 {
        Seq::empty()
    } else {
        let b = breaks_upto(rows, sep, (n - 1) as nat);
        if is_break(rows, sep, n - 1) { b.push(n - 1) } else { b }
    }
}

/// The separator columns of a sprite sheet, measured on its first row.
pub open spec fn sheet_breaks(rows: Seq<Seq<char>>, sep: char) -> Seq<int> {
    breaks_upto(rows, sep, rows[0].len())
}

/// First column of glyph `i`.
pub open spec fn glyph_start(br: Seq<int>, i: int) -> int {
    if i == 0 { 0 } else { br[i - 1] + 1 }
}

/// Column just past glyph `i`.
pub open spec fn glyph_end(br: Seq<int>, width: int, i: int) -> int {
    if i < br.len() { br[i] } else { width }
}

/// The rows of glyph `i` of the sheet.
pub open spec fn sheet_glyph(rows: Seq<Seq<char>>, br: Seq<int>, width: int, i: int) -> Seq<Seq<char>> {
    Seq::new(rows.len(), |r: int| rows[r].subrange(glyph_start(br, i), glyph_end(br, width, i)))
}

/// Each key paired with its glyph of the sheet, in order.
pub open spec fn sheet_pairs(keys: Seq<Seq<char>>, rows: Seq<Seq<char>>, sep: char) -> Seq<GlyphEntry> {
    let br = sheet_breaks(rows, sep);
    Seq::new(keys.len(), |i: int| (keys[i], sheet_glyph(rows, br, rows[0].len() as int, i)))
}

/// Message for a sheet whose glyph count differs from its key count.
pub open spec fn count_mismatch_message(glyphs: nat, chars: nat) -> Seq<char> {
    "Number of glyphs ("@ + decimal(glyphs) + ") does not match number of chars ("@ + decimal(chars)
        + ")."@
}

/// The outcome of cutting a sheet into glyphs, for keys, rows and separator.
pub open spec fn char_map_result(keys: Seq<Seq<char>>, rows: Seq<Seq<char>>, sep: char) -> Result<Seq<GlyphEntry>, Seq<char>> {
    let n = sheet_breaks(rows, sep).len() + 1;
    if n != keys.len() {
        Err(count_mismatch_message(n, keys.len()))
    } else {
        Ok(insert_all(Seq::empty(), sheet_pairs(keys, rows, sep)))
    }
}

/// Some row's length differs from the first row's.
pub open spec fn widths_differ(rows: Seq<Seq<char>>) -> bool {
    exists|r: int| 0 <= r < rows.len() && (#[trigger] rows[r]).len() != rows[0].len()
}

/// The outcome of `Glyphs::from_lines`.
pub open spec fn from_lines_result(keys: Seq<Seq<char>>, rows: Seq<Seq<char>>, sep: char) -> Result<Seq<GlyphEntry>, Seq<char>> {
    if keys.len() == 0 {
        Ok(Seq::empty())
    } else if rows.len() == 0 {
        Err("No glyph rows provided"@)
    } else if widths_differ(rows) {
        Err("Line length mismatch."@)
    } else if keys.len() == 1 {
        Ok(seq![(keys[0], rows)])
    } else {
        char_map_result(keys, rows, sep)
    }
}

pub proof fn lemma_breaks_upto(rows: Seq<Seq<char>>, sep: char, n: nat)
    ensures
        forall|i: int| 0 <= i < breaks_upto(rows, sep, n).len() ==> 0 <= #[trigger] breaks_upto(rows, sep, n)[i] < n,
        forall|i: int, j: int| 0 <= i < j < breaks_upto(rows, sep, n).len() ==> breaks_upto(rows, sep, n)[i] < breaks_upto(rows, sep, n)[j],
        breaks_upto(rows, sep, n).len() <= n,
    decreases n,
{
    if n > 0 {
        let p = breaks_upto(rows, sep, (n - 1) as nat);
        lemma_breaks_upto(rows, sep, (n - 1) as nat);
        let b = breaks_upto(rows, sep, n);
        if is_break(rows, sep, n - 1) {
            assert(b == p.push(n - 1));
            assert forall|i: int| 0 <= i < b.len() implies 0 <= #[trigger] b[i] < n by {
                if i < p.len() {
                    assert(b[i] == p[i]);
                }
            }
            assert forall|i: int, j: int| 0 <= i < j < b.len() implies b[i] < b[j] by {
                assert(b[i] == p[i]);
                if j < p.len() {
                    assert(b[j] == p[j]);
                }
            }
        } else {
            assert(b == p);
        }
    }
}

/// The glyphs of a sheet, kept in the library's own map.
fn sheet_map(Ghost(keys): Ghost<Seq<Seq<char>>>, rows: &Vec<Vec<char>>, br: &Vec<usize>, width: usize, chars: &[&str]) -> (g: Glyphs)
    requires
        rows@.len() > 0,
        width == rows@[0]@.len(),
        keys == chars.deep_view(),
        br@.len() + 1 == keys.len(),
        forall|r: int| 0 <= r < rows@.len() ==> rows@[r]@.len() >= width,
        forall|i: int| 0 <= i < br@.len() ==> br@[i] < width,
        forall|i: int, j: int| 0 <= i < j < br@.len() ==> br@[i] < br@[j],
    ensures
        g.entries() == insert_all(Seq::empty(), Seq::new(keys.len(), |i: int| (keys[i],
            sheet_glyph(Seq::new(rows@.len(), |r: int| rows@[r]@), Seq::new(br@.len(), |k: int| br@[k] as int), width as int, i)))),
{
    let ghost rv = Seq::new(rows@.len(), |r: int| rows@[r]@);
    let ghost bv = Seq::new(br@.len(), |k: int| br@[k] as int);
    let ghost pairs = Seq::new(keys.len(), |i: int| (keys[i], sheet_glyph(rv, bv, width as int, i)));
    let mut g = Glyphs::new();
    let mut i: usize = 0;
    while i < chars.len()
        invariant
            rows@.len() > 0,
            width == rows@[0]@.len(),
            keys == chars.deep_view(),
            br@.len() + 1 == keys.len(),
            forall|r: int| 0 <= r < rows@.len() ==> rows@[r]@.len() >= width,
            forall|q: int| 0 <= q < br@.len() ==> br@[q] < width,
            forall|q: int, j: int| 0 <= q < j < br@.len() ==> br@[q] < br@[j],
            rv == Seq::new(rows@.len(), |r: int| rows@[r]@),
            bv == Seq::new(br@.len(), |k: int| br@[k] as int),
            pairs == Seq::new(keys.len(), |i: int| (keys[i], sheet_glyph(rv, bv, width as int, i))),
            i <= chars@.len(),
            g.entries() == insert_all(Seq::empty(), pairs.take(i as int)),
        decreases chars@.len() - i,
    {
        let start: usize = if i == 0 { 0 } else { br[i - 1] + 1 };
        let end: usize = if i < br.len() { br[i] } else { width };
        assert(start <= end) by {
            if i > 0 && i < br@.len() {
                assert(br@[i - 1] < br@[i as int]);
            }
        }
        let mut glyph: Glyph = Vec::new();
        let mut r: usize = 0;
        while r < rows.len()
            invariant
                start <= end <= width,
                forall|q: int| 0 <= q < rows@.len() ==> rows@[q]@.len() >= width,
                r <= rows@.len(),
                glyph@.len() == r,
                forall|q: int| 0 <= q < r ==> #[trigger] glyph@[q]@ == rows@[q]@.subrange(start as int, end as int),
            decreases rows@.len() - r,
        {
            let row = &rows[r];
            let piece = string_from_chars(&row.as_slice()[start..end]);
            proof {
                assert(row@.subrange(start as int, end as int) == rows@[r as int]@.subrange(start as int, end as int));
            }
            glyph.push(piece);
            r = r + 1;
        }
        assert(glyph.deep_view() =~= sheet_glyph(rv, bv, width as int, i as int));
        let key = string_of(chars[i]);
        g.insert(key, glyph);
        i = i + 1;
        assert(pairs.take(i as int).drop_last() =~= pairs.take(i - 1));
    }
    assert(pairs.take(i as int) =~= pairs);
    g
}

impl Glyphs {
    /// Parse the sprite-sheet into a map from key to glyph.
    ///
    /// Separator columns (columns where every row holds the separator,
    /// a space by default) delimit the glyphs; there must be exactly one
    /// glyph per key.
    pub fn get_char_map(chars: &[&str], rows: &[&str], separator: Option<char>) -> (r: Result<Glyphs, String>)
        requires
            rows@.len() > 0,
            sheet_breaks(rows.deep_view(), separator.unwrap_or(' ')).len() + 1 == chars@.len()
                ==> forall|i: int| 0 <= i < rows@.len() ==> (#[trigger] rows@[i])@.len() >= rows@[0]@.len(),
        ensures
            match (r, char_map_result(chars.deep_view(), rows.deep_view(), separator.unwrap_or(' '))) {
                (Ok(g), Ok(e)) => g.entries() == e,
                (Err(m), Err(e)) => m@ == e,
                _ => false,
            },
    {
        let sep = match separator {
            Some(c) => c,
            None => ' ',
        };
        let ghost rs = rows.deep_view();
        let mut row_chars: Vec<Vec<char>> = Vec::new();
        let mut i: usize = 0;
        while i < rows.len()
            invariant
                rs == rows.deep_view(),
                i <= rows@.len(),
                row_chars@.len() == i,
                forall|j: int| 0 <= j < i ==> #[trigger] row_chars@[j]@ == rs[j],
            decreases rows@.len() - i,
        {
            row_chars.push(str_chars(rows[i]));
            i = i + 1;
        }
        assert(Seq::new(row_chars@.len(), |r: int| row_chars@[r]@) =~= rs);
        let width = row_chars[0].len();
        let mut breaks: Vec<usize> = Vec::new();
        let mut col: usize = 0;
        while col < width
            invariant
                rs == rows.deep_view(),
                row_chars@.len() == rs.len(),
                rs.len() > 0,
                forall|j: int| 0 <= j < rs.len() ==> #[trigger] row_chars@[j]@ == rs[j],
                width == rs[0].len(),
                col <= width,
                Seq::new(breaks@.len(), |k: int| breaks@[k] as int) == breaks_upto(rs, sep, col as nat),
            decreases width - col,
        {
            let mut all = true;
            let mut r: usize = 0;
            while r < row_chars.len()
                invariant
                    row_chars@.len() == rs.len(),
                    forall|j: int| 0 <= j < rs.len() ==> #[trigger] row_chars@[j]@ == rs[j],
                    r <= rs.len(),
                    all == (forall|q: int| 0 <= q < r ==> #[trigger] sep_at(rs[q], col as int, sep)),
                decreases rs.len() - r,
            {
                let row = &row_chars[r];
                assert(row@ == rs[r as int]);
                let ghost prev = all;
                if !(col < row.len() && row[col] == sep) {
                    all = false;
                }
                r = r + 1;
                assert(all == (forall|q: int| 0 <= q < r ==> #[trigger] sep_at(rs[q], col as int, sep))) by {
                    if !all && prev {
                        assert(!sep_at(rs[r - 1], col as int, sep));
                    }
                }
            }
            let ghost before = breaks@;
            if all {
                breaks.push(col);
            }
            assert(all == is_break(rs, sep, col as int));
            col = col + 1;
            assert(Seq::new(breaks@.len(), |k: int| breaks@[k] as int) =~= breaks_upto(rs, sep, col as nat));
        }
        let ghost bv = Seq::new(breaks@.len(), |k: int| breaks@[k] as int);
        assert(bv == sheet_breaks(rs, sep));
        proof {
            lemma_breaks_upto(rs, sep, width as nat);
            assert forall|q: int| 0 <= q < breaks@.len() implies breaks@[q] < width by {
                assert(bv[q] == breaks@[q] as int);
            }
            assert forall|q: int, j: int| 0 <= q < j < breaks@.len() implies breaks@[q] < breaks@[j] by {
                assert(bv[q] == breaks@[q] as int);
                assert(bv[j] == breaks@[j] as int);
            }
        }
        if chars.len() == 0 || breaks.len() != chars.len() - 1 {
            let count: u128 = breaks.len() as u128 + 1;
            let mut msg = string_of("Number of glyphs (");
            msg = concat(msg.as_str(), u128_to_decimal(count).as_str());
            msg = concat(msg.as_str(), ") does not match number of chars (");
            msg = concat(msg.as_str(), u128_to_decimal(chars.len() as u128).as_str());
            msg = concat(msg.as_str(), ").");
            return Err(msg);
        }
        let g = sheet_map(Ghost(chars.deep_view()), &row_chars, &breaks, width, chars);
        assert(Seq::new(chars.deep_view().len(), |i: int| (chars.deep_view()[i],
            sheet_glyph(Seq::new(row_chars@.len(), |r: int| row_chars@[r]@), bv, width as int, i)))
            =~= sheet_pairs(chars.deep_view(), rs, sep));
        Ok(g)
    }

    /// Create a `Glyphs` instance from a sprite-sheet style layout.
    ///
    /// `chars` is a slice of glyph keys (single chars or ligature strings).
    /// `rows` are the packed glyph rows (all the same length), with separator
    /// columns (all-separator-char columns) delimiting individual glyphs.
    ///
    /// Returns `Err` if the row lengths differ or the glyph count doesn't match `chars`.
    pub fn from_lines(chars: &[&str], rows: &[&str], separator: Option<char>) -> (r: Result<Self, String>)
        ensures
            match (r, from_lines_result(chars.deep_view(), rows.deep_view(), separator.unwrap_or(' '))) {
                (Ok(g), Ok(e)) => g.entries() == e,
                (Err(m), Err(e)) => m@ == e,
                _ => false,
            },
    {
        let ghost rs = rows.deep_view();
        if chars.len() == 0 {
            return Ok(Glyphs::new());
        }
        if rows.len() == 0 {
            return Err(string_of("No glyph rows provided"));
        }
        let width = str_chars(rows[0]).len();
        let mut i: usize = 0;
        while i < rows.len()
            invariant
                rs == rows.deep_view(),
                rs.len() > 0,
                chars@.len() > 0,
                width == rs[0].len(),
                i <= rs.len(),
                forall|j: int| 0 <= j < i ==> (#[trigger] rs[j]).len() == width,
            decreases rs.len() - i,
        {
            if str_chars(rows[i]).len() != width {
                assert(rs[i as int].len() != rs[0].len());
                assert(widths_differ(rs));
                return Err(string_of("Line length mismatch."));
            }
            i = i + 1;
        }
        assert(!widths_differ(rs));
        assert forall|j: int| 0 <= j < rows@.len() implies (#[trigger] rows@[j])@.len() >= rows@[0]@.len() by {
            assert(rs[j] == rows@[j]@);
            assert(rs[0] == rows@[0]@);
        }
        if chars.len() == 1 {
            let mut glyph: Glyph = Vec::new();
            let mut k: usize = 0;
            while k < rows.len()
                invariant
                    rs == rows.deep_view(),
                    k <= rs.len(),
                    glyph@.len() == k,
                    forall|j: int| 0 <= j < k ==> #[trigger] glyph@[j]@ == rs[j],
                decreases rs.len() - k,
            {
                glyph.push(string_of(rows[k]));
                k = k + 1;
            }
            assert(glyph.deep_view() =~= rs);
            let mut g = Glyphs::new();
            g.insert(string_of(chars[0]), glyph);
            assert(g.entries() =~= seq![(chars.deep_view()[0], rs)]);
            return Ok(g);
        }
        Self::get_char_map(chars, rows, separator)
    }
}

} // verus!
