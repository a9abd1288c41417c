use vstd::prelude::*;

use crate::chars::{chars_eq, concat, str_chars, str_eq, string_from_chars};
use crate::font::{Font, FontError};
use crate::glyph::{Glyph, GlyphEntry, Glyphs, insert_all};
use crate::ini::{Ini, IniEntry, ini_entries, ini_get, ini_has_section, ini_sections, parse_ini};
use crate::layout::spaces;
use crate::line::{LineStyle, LineStyleOverride, LineType, line_type_named};
use crate::sheet::from_lines_result;
use crate::text::{is_ws, lines_of, parse_i32, parse_usize, parsed_i32, parsed_usize, split_lines, trim, trim_chars};

verus! {

/// `l` without its first two characters (the box bar and the space after it).
pub open spec fn drop2(l: Seq<char>) -> Seq<char> {
    if l.len() >= 2 { l.skip(2) } else { Seq::empty() }
}

/// The non-blank lines, each without its first two characters.
pub open spec fn content_rows(ls: Seq<Seq<char>>) -> Seq<Seq<char>>
    decreases ls.len(),
{
    if ls.len() == 0 {
        Seq::empty()
    } else {
        let r = content_rows(ls.drop_last());
        if trim(ls.last()).len() > 0 { r.push(drop2(ls.last())) } else { r }
    }
}

/// The length of the longest row (0 for none).
pub open spec fn max_len(rows: Seq<Seq<char>>) -> nat
    decreases rows.len(),
{
    if rows.len() == 0 {
        0
    } else {
        let m = max_len(rows.drop_last());
        if rows.last().len() > m { rows.last().len() } else { m }
    }
}

/// Rows right-padded with spaces to the length of the longest.
pub open spec fn padded(rows: Seq<Seq<char>>) -> Seq<Seq<char>> {
    Seq::new(rows.len(), |i: int| rows[i] + spaces((max_len(rows) - rows[i].len()) as nat))
}

/// The glyph rows of a multi-line glyph value.
pub open spec fn glyph_rows(text: Seq<char>) -> Seq<Seq<char>> {
    padded(content_rows(lines_of(text)))
}

pub proof fn lemma_max_len(rows: Seq<Seq<char>>)
    ensures
        forall|i: int| 0 <= i < rows.len() ==> (#[trigger] rows[i]).len() <= max_len(rows),
    decreases rows.len(),
{
    if rows.len() > 0 {
        lemma_max_len(rows.drop_last());
        assert forall|i: int| 0 <= i < rows.len() implies (#[trigger] rows[i]).len() <= max_len(rows) by {
            if i < rows.len() - 1 {
                assert(rows.drop_last()[i] == rows[i]);
            }
        }
    }
}

/// Split a multi-line glyph value into glyph rows.
///
/// Each non-blank line loses its first two characters (`│` and a space);
/// the rows are right-padded to equal length.
pub fn split_glyph_text(text: &str) -> (r: Vec<String>)
    ensures
        r.deep_view() == glyph_rows(text@),
{
    let v = str_chars(text);
    glyph_rows_of(v.as_slice())
}

/// The glyph rows of a multi-line glyph value, as characters.
fn glyph_rows_of(text: &[char]) -> (r: Vec<String>)
    ensures
        r.deep_view() == glyph_rows(text@),
{
    let lines = split_lines(text);
    let ghost ls = lines_of(text@);
    let mut rows: Vec<Vec<char>> = Vec::new();
    let mut i: usize = 0;
    while i < lines.len()
        invariant
            ls == lines_of(text@),
            lines@.len() == ls.len(),
            forall|j: int| 0 <= j < lines@.len() ==> #[trigger] lines@[j]@ == ls[j],
            i <= ls.len(),
            Seq::new(rows@.len(), |k: int| rows@[k]@) == content_rows(ls.take(i as int)),
        decreases ls.len() - i,
    {
        let line = &lines[i];
        let t = trim_chars(line.as_slice());
        assert(ls.take(i + 1).drop_last() =~= ls.take(i as int));
        assert(ls.take(i + 1).last() == ls[i as int]);
        let ghost before = rows@;
        if t.len() > 0 {
            let d = if line.len() >= 2 { crate::text::slice_to_vec(line.as_slice(), 2, line.len()) } else { Vec::new() };
            assert(d@ =~= drop2(line@));
            rows.push(d);
            assert(Seq::new(rows@.len(), |k: int| rows@[k]@) =~= Seq::new(before.len(), |k: int| before[k]@).push(d@));
        }
        i = i + 1;
    }
    assert(ls.take(i as int) =~= ls);
    let ghost cr = content_rows(ls);
    proof {
        lemma_max_len(cr);
    }
    let mut m: usize = 0;
    let mut k: usize = 0;
    while k < rows.len()
        invariant
            cr == Seq::new(rows@.len(), |q: int| rows@[q]@),
            k <= rows@.len(),
            m == max_len(cr.take(k as int)),
        decreases rows@.len() - k,
    {
        assert(cr.take(k + 1).drop_last() =~= cr.take(k as int));
        assert(cr.take(k + 1).last() == rows@[k as int]@);
        if rows[k].len() > m {
            m = rows[k].len();
        }
        k = k + 1;
    }
    assert(cr.take(k as int) =~= cr);
    let mut r: Vec<String> = Vec::new();
    let mut q: usize = 0;
    while q < rows.len()
        invariant
            cr == Seq::new(rows@.len(), |q: int| rows@[q]@),
            forall|j: int| 0 <= j < cr.len() ==> (#[trigger] cr[j]).len() <= max_len(cr),
            m == max_len(cr),
            q <= rows@.len(),
            r@.len() == q,
            forall|j: int| 0 <= j < q ==> #[trigger] r@[j]@ == padded(cr)[j],
        decreases rows@.len() - q,
    {
        let mut row = rows[q].clone();
        assert(row@ == cr[q as int]);
        let ghost base = row@;
        let pad = m - row.len();
        let mut p: usize = 0;
        while p < pad
            invariant
                p <= pad,
                row@ == base + spaces(p as nat),
            decreases pad - p,
        {
            row.push(' ');
            p = p + 1;
            assert(row@ =~= base + spaces(p as nat));
        }
        r.push(string_from_chars(row.as_slice()));
        q = q + 1;
    }
    assert(r.deep_view() =~= padded(cr));
    r
}

/// The characters of a named character set: the ASCII letters, digits,
/// hex and octal digits, punctuation, white space and printable characters.
pub open spec fn module_chars(name: Seq<char>) -> Option<Seq<char>> {
    if name == "ascii_lowercase"@ {
        Some("abcdefghijklmnopqrstuvwxyz"@)
    } else if name == "ascii_uppercase"@ {
        Some("ABCDEFGHIJKLMNOPQRSTUVWXYZ"@)
    } else if name == "ascii_letters"@ {
        Some("abcdefghijklmnopqrstuvwxyzABCDEFGHIJKLMNOPQRSTUVWXYZ"@)
    } else if name == "digits"@ {
        Some("0123456789"@)
    } else if name == "hexdigits"@ {
        Some("0123456789abcdefABCDEF"@)
    } else if name == "octdigits"@ {
        Some("01234567"@)
    } else if name == "punctuation"@ {
        Some("!\"#$%&'()*+,-./:;<=>?@[\\]^_`{|}~"@)
    } else if name == "whitespace"@ {
        Some(" \t\n\r\x0b\x0c"@)
    } else if name == "printable"@ {
        Some("0123456789abcdefghijklmnopqrstuvwxyzABCDEFGHIJKLMNOPQRSTUVWXYZ!\"#$%&'()*+,-./:;<=>?@[\\]^_`{|}~ \t\n\r\x0b\x0c"@)
    } else {
        None
    }
}

/// The character set named `name`, if it is one of the named sets.
pub fn string_module_chars(name: &[char]) -> (r: Option<&'static str>)
    ensures
        match r {
            Some(s) => module_chars(name@) == Some(s@),
            None => module_chars(name@) is None,
        },
{
    let n = string_from_chars(name);
    let n = n.as_str();
    if str_eq(n, "ascii_lowercase") {
        Some("abcdefghijklmnopqrstuvwxyz")
    } else if str_eq(n, "ascii_uppercase") {
        Some("ABCDEFGHIJKLMNOPQRSTUVWXYZ")
    } else if str_eq(n, "ascii_letters") {
        Some("abcdefghijklmnopqrstuvwxyzABCDEFGHIJKLMNOPQRSTUVWXYZ")
    } else if str_eq(n, "digits") {
        Some("0123456789")
    } else if str_eq(n, "hexdigits") {
        Some("0123456789abcdefABCDEF")
    } else if str_eq(n, "octdigits") {
        Some("01234567")
    } else if str_eq(n, "punctuation") {
        Some("!\"#$%&'()*+,-./:;<=>?@[\\]^_`{|}~")
    } else if str_eq(n, "whitespace") {
        Some(" \t\n\r\x0b\x0c")
    } else if str_eq(n, "printable") {
        Some("0123456789abcdefghijklmnopqrstuvwxyzABCDEFGHIJKLMNOPQRSTUVWXYZ!\"#$%&'()*+,-./:;<=>?@[\\]^_`{|}~ \t\n\r\x0b\x0c")
    } else {
        None
    }
}

/// Each character of `s` as a key of its own.
pub open spec fn char_keys(s: Seq<char>) -> Seq<Seq<char>> {
    Seq::new(s.len(), |i: int| seq![s[i]])
}

/// Split a string into one string per character.
pub fn ascii_to_char_slices(s: &str) -> (r: Vec<String>)
    ensures
        r.deep_view() == char_keys(s@),
{
    let v = str_chars(s);
    chars_to_keys(&v)
}

fn chars_to_keys(v: &Vec<char>) -> (r: Vec<String>)
    ensures
        r.deep_view() == char_keys(v@),
{
    let mut r: Vec<String> = Vec::new();
    let mut i: usize = 0;
    while i < v.len()
        invariant
            i <= v@.len(),
            r@.len() == i,
            forall|j: int| 0 <= j < i ==> #[trigger] r@[j]@ == seq![v@[j]],
        decreases v@.len() - i,
    {
        let mut one: Vec<char> = Vec::new();
        one.push(v[i]);
        let s = string_from_chars(one.as_slice());
        assert(one@ =~= seq![v@[i as int]]);
        r.push(s);
        i = i + 1;
    }
    assert(r.deep_view() =~= char_keys(v@));
    r
}

/// `s` without its space characters.
pub open spec fn remove_spaces(s: Seq<char>) -> Seq<char>
    decreases s.len(),
{
    if s.len() == 0 {
        Seq::empty()
    } else {
        let r = remove_spaces(s.drop_last());
        if s.last() == ' ' { r } else { r.push(s.last()) }
    }
}

fn remove_spaces_chars(v: &Vec<char>) -> (r: Vec<char>)
    ensures
        r@ == remove_spaces(v@),
{
    let mut r: Vec<char> = Vec::new();
    let mut i: usize = 0;
    while i < v.len()
        invariant
            i <= v@.len(),
            r@ == remove_spaces(v@.take(i as int)),
        decreases v@.len() - i,
    {
        assert(v@.take(i + 1).drop_last() =~= v@.take(i as int));
        if v[i] != ' ' {
            r.push(v[i]);
        }
        i = i + 1;
    }
    assert(v@.take(i as int) =~= v@);
    r
}

/// The white-space separated words of `s`.
pub open spec fn words(s: Seq<char>) -> Seq<Seq<char>>
    decreases s.len(),
{
    if s.len() == 0 {
        Seq::empty()
    } else {
        let w = words(s.drop_last());
        let c = s.last();
        if is_ws(c) {
            w
        } else if s.len() >= 2 && !is_ws(s[s.len() - 2]) {
            w.update(w.len() - 1, w.last().push(c))
        } else {
            w.push(seq![c])
        }
    }
}

proof fn lemma_words_nonempty(s: Seq<char>)
    requires
        s.len() > 0,
        !is_ws(s.last()),
    ensures
        words(s).len() > 0,
    decreases s.len(),
{
    if s.len() >= 2 && !is_ws(s[s.len() - 2]) {
        assert(s.drop_last().last() == s[s.len() - 2]);
        lemma_words_nonempty(s.drop_last());
    }
}

fn split_words(v: &Vec<char>) -> (r: Vec<String>)
    ensures
        r.deep_view() == words(v@),
{
    let mut ws: Vec<Vec<char>> = Vec::new();
    let mut i: usize = 0;
    while i < v.len()
        invariant
            i <= v@.len(),
            Seq::new(ws@.len(), |k: int| ws@[k]@) == words(v@.take(i as int)),
        decreases v@.len() - i,
    {
        let ghost pre = v@.take(i as int);
        assert(v@.take(i + 1).drop_last() =~= pre);
        assert(v@.take(i + 1).last() == v@[i as int]);
        let c = v[i];
        let ghost before = Seq::new(ws@.len(), |k: int| ws@[k]@);
        if crate::text::is_whitespace(c) {
        } else if i >= 1 && !crate::text::is_whitespace(v[i - 1]) {
            proof {
                assert(pre.last() == v@[i - 1]);
                lemma_words_nonempty(pre);
                assert(v@.take(i + 1)[i - 1] == v@[i - 1]);
            }
            let last = ws.len() - 1;
            let mut w = ws[last].clone();
            w.push(c);
            ws.set(last, w);
            assert(Seq::new(ws@.len(), |k: int| ws@[k]@) =~= before.update(before.len() - 1, before.last().push(c)));
        } else {
            let mut nw: Vec<char> = Vec::new();
            nw.push(c);
            assert(nw@ =~= seq![c]);
            ws.push(nw);
            assert(Seq::new(ws@.len(), |k: int| ws@[k]@) =~= before.push(seq![c]));
        }
        i = i + 1;
    }
    assert(v@.take(i as int) =~= v@);
    let mut r: Vec<String> = Vec::new();
    let mut k: usize = 0;
    while k < ws.len()
        invariant
            k <= ws@.len(),
            r@.len() == k,
            forall|j: int| 0 <= j < k ==> #[trigger] r@[j]@ == ws@[j]@,
        decreases ws@.len() - k,
    {
        r.push(string_from_chars(ws[k].as_slice()));
        k = k + 1;
    }
    assert(r.deep_view() =~= Seq::new(ws@.len(), |k: int| ws@[k]@));
    r
}

/// Borrowed views of owned strings.
fn as_strs(v: &Vec<String>) -> (r: Vec<&str>)
    ensures
        r.deep_view() == v.deep_view(),
{
    let mut r: Vec<&str> = Vec::new();
    let mut i: usize = 0;
    while i < v.len()
        invariant
            i <= v@.len(),
            r@.len() == i,
            forall|j: int| 0 <= j < i ==> #[trigger] r@[j]@ == v@[j]@,
        decreases v@.len() - i,
    {
        r.push(v[i].as_str());
        i = i + 1;
    }
    assert(r.deep_view() =~= v.deep_view());
    r
}

} // verus!

verus! {

/// The first character of a value, if any.
pub open spec fn first_char(s: Seq<char>) -> Option<char> {
    if s.len() > 0 { Some(s[0]) } else { None }
}

/// The line style override that a line style section describes.
///
/// With a `line` setting, an `index` and a known line type are both needed
/// (and a custom line takes its character from `char`); without one, the
/// section overrides the index alone.
pub open spec fn section_override(e: Seq<IniEntry>, sec: Seq<char>) -> Option<LineStyleOverride> {
    let line_str = match ini_get(e, sec, "line"@) {
        Some(v) => trim(v),
        None => Seq::empty(),
    };
    let index = match ini_get(e, sec, "index"@) {
        Some(v) => parsed_usize(trim(v)),
        None => None,
    };
    if line_str.len() > 0 {
        match index {
            None => None,
            Some(i) => match line_type_named(line_str) {
                None => None,
                Some(lt) => Some(LineStyleOverride::Style(LineStyle {
                    index: i,
                    line: lt,
                    char: if lt == LineType::Custom {
                        match ini_get(e, sec, "char"@) {
                            Some(c) => first_char(trim(c)),
                            None => None,
                        }
                    } else {
                        None
                    },
                })),
            },
        }
    } else {
        match index {
            Some(i) => Some(LineStyleOverride::Index(i)),
            None => None,
        }
    }
}

/// The override for the line style `name`: its section when that yields
/// one, else a plain index given under that name in the header.
pub open spec fn toff_override(e: Seq<IniEntry>, name: Seq<char>) -> Option<LineStyleOverride> {
    let from_section = if ini_has_section(e, name) { section_override(e, name) } else { None };
    if from_section is Some {
        from_section
    } else {
        match ini_get(e, "header"@, name) {
            Some(v) => match parsed_usize(trim(v)) {
                Some(i) => Some(LineStyleOverride::Index(i)),
                None => None,
            },
            None => None,
        }
    }
}

/// Sections that hold no character glyphs.
pub open spec fn skipped_section(name: Seq<char>) -> bool {
    name == "header"@ || name == "underline"@ || name == "underline2"@ || name == "overline"@
        || name == "strike"@ || name == "ligatures"@
}

/// The glyph entries that one section contributes (none when it is skipped,
/// has no glyphs, or its sheet does not cut into one glyph per key).
pub open spec fn section_pairs(e: Seq<IniEntry>, name: Seq<char>) -> Seq<GlyphEntry> {
    if skipped_section(name) {
        Seq::empty()
    } else {
        match ini_get(e, name, "glyphs"@) {
            None => Seq::empty(),
            Some(text) => {
                let rows = glyph_rows(text);
                if rows.len() == 0 {
                    Seq::empty()
                } else {
                    let keys = match module_chars(name) {
                        Some(cs) => Some(char_keys(cs)),
                        None => match ini_get(e, name, "chars"@) {
                            Some(cv) => Some(char_keys(remove_spaces(cv))),
                            None => None,
                        },
                    };
                    match keys {
                        None => Seq::empty(),
                        Some(k) => match from_lines_result(k, rows, ' ') {
                            Ok(g) => g,
                            Err(_) => Seq::empty(),
                        },
                    }
                }
            },
        }
    }
}

/// Glyph entries gathered from the first `n` sections, later sections
/// overriding earlier ones.
pub open spec fn toff_glyphs_upto(e: Seq<IniEntry>, secs: Seq<Seq<char>>, n: nat) -> Seq<GlyphEntry>
    decreases n,
{
    if n == 0 {
        Seq::empty()
    } else {
        insert_all(toff_glyphs_upto(e, secs, (n - 1) as nat), section_pairs(e, secs[n - 1]))
    }
}

/// The character glyphs of a font text.
pub open spec fn toff_glyphs(e: Seq<IniEntry>) -> Seq<GlyphEntry> {
    toff_glyphs_upto(e, ini_sections(e), ini_sections(e).len())
}

/// The ligature glyphs of a font text.
pub open spec fn toff_ligatures(e: Seq<IniEntry>) -> Seq<GlyphEntry> {
    match (ini_get(e, "ligatures"@, "sequences"@), ini_get(e, "ligatures"@, "glyphs"@)) {
        (Some(sq), Some(t)) => {
            let rows = glyph_rows(t);
            if rows.len() == 0 {
                Seq::empty()
            } else {
                match from_lines_result(words(sq), rows, ' ') {
                    Ok(g) => insert_all(Seq::empty(), g),
                    Err(_) => Seq::empty(),
                }
            }
        },
        _ => Seq::empty(),
    }
}

/// Why a section's sheet does not cut into one glyph per key, when a
/// section that holds glyphs and keys fails to.
pub open spec fn section_error(e: Seq<IniEntry>, name: Seq<char>) -> Option<Seq<char>> {
    if skipped_section(name) {
        None
    } else {
        match ini_get(e, name, "glyphs"@) {
            None => None,
            Some(text) => {
                let rows = glyph_rows(text);
                if rows.len() == 0 {
                    None
                } else {
                    let keys = match module_chars(name) {
                        Some(cs) => Some(char_keys(cs)),
                        None => match ini_get(e, name, "chars"@) {
                            Some(cv) => Some(char_keys(remove_spaces(cv))),
                            None => None,
                        },
                    };
                    match keys {
                        None => None,
                        Some(k) => match from_lines_result(k, rows, ' ') {
                            Ok(_) => None,
                            Err(m) => Some(m),
                        },
                    }
                }
            },
        }
    }
}

/// The warnings of the first `n` sections: one for each section left out
/// because its sheet does not cut into its keys.
pub open spec fn section_warnings_upto(e: Seq<IniEntry>, secs: Seq<Seq<char>>, n: nat) -> Seq<Seq<char>>
    decreases n,
{
    if n == 0 {
        Seq::empty()
    } else {
        section_warnings_upto(e, secs, (n - 1) as nat) + match section_error(e, secs[n - 1]) {
            Some(m) => seq!["failed to parse section '"@ + secs[n - 1] + "': "@ + m],
            None => Seq::empty(),
        }
    }
}

/// Why the ligature sheet does not cut into its sequences, if it fails to.
pub open spec fn ligature_error(e: Seq<IniEntry>) -> Option<Seq<char>> {
    match (ini_get(e, "ligatures"@, "sequences"@), ini_get(e, "ligatures"@, "glyphs"@)) {
        (Some(sq), Some(t)) => {
            let rows = glyph_rows(t);
            if rows.len() == 0 {
                None
            } else {
                match from_lines_result(words(sq), rows, ' ') {
                    Ok(_) => None,
                    Err(m) => Some(m),
                }
            }
        },
        _ => None,
    }
}

/// The warnings of a font text: its glyph sections left out, in order,
/// then its ligatures when they are left out.
pub open spec fn toff_warnings_of(e: Seq<IniEntry>) -> Seq<Seq<char>> {
    section_warnings_upto(e, ini_sections(e), ini_sections(e).len()) + match ligature_error(e) {
        Some(m) => seq!["failed to parse ligatures: "@ + m],
        None => Seq::empty(),
    }
}

/// The font name in the header, `Unknown` when absent.
pub open spec fn toff_name(e: Seq<IniEntry>) -> Seq<char> {
    match ini_get(e, "header"@, "name"@) {
        Some(v) => v,
        None => "Unknown"@,
    }
}

/// A header setting read as a `usize`.
pub open spec fn header_usize(e: Seq<IniEntry>, key: Seq<char>) -> Option<usize> {
    match ini_get(e, "header"@, key) {
        Some(v) => parsed_usize(trim(v)),
        None => None,
    }
}

/// A header setting read as an `i32`.
pub open spec fn header_i32(e: Seq<IniEntry>, key: Seq<char>) -> Option<i32> {
    match ini_get(e, "header"@, key) {
        Some(v) => parsed_i32(trim(v)),
        None => None,
    }
}

/// The font described by the settings of a font text.
pub open spec fn is_toff_font(f: &Font, e: Seq<IniEntry>) -> bool {
    f.is_new_font(
        toff_name(e),
        toff_glyphs(e),
        toff_ligatures(e),
        header_i32(e, "letter_spacing"@).unwrap_or(0),
        header_usize(e, "space_width"@).unwrap_or(1),
        header_usize(e, "baseline"@),
        toff_override(e, "underline"@),
        toff_override(e, "underline2"@),
        toff_override(e, "overline"@),
        toff_override(e, "strike"@),
    )
}

} // verus!

verus! {

/// Reads a line style section.
fn parse_line_style_section(ini: &Ini, sec: &[char]) -> (r: Option<LineStyleOverride>)
    ensures
        r == section_override(ini.view_entries(), sec@),
{
    let line_key = str_chars("line");
    let index_key = str_chars("index");
    let char_key = str_chars("char");
    let line_str: Vec<char> = match ini.get(sec, line_key.as_slice()) {
        Some(v) => trim_chars(v.as_slice()),
        None => Vec::new(),
    };
    let index: Option<usize> = match ini.get(sec, index_key.as_slice()) {
        Some(v) => {
            let t = trim_chars(v.as_slice());
            parse_usize(t.as_slice())
        },
        None => None,
    };
    if line_str.len() > 0 {
        match index {
            None => None,
            Some(i) => {
                let name = string_from_chars(line_str.as_slice());
                match LineType::from_str(name.as_str()) {
                    None => None,
                    Some(lt) => {
                        let c = if lt == LineType::Custom {
                            match ini.get(sec, char_key.as_slice()) {
                                Some(v) => {
                                    let t = trim_chars(v.as_slice());
                                    if t.len() > 0 { Some(t[0]) } else { None }
                                },
                                None => None,
                            }
                        } else {
                            None
                        };
                        Some(LineStyleOverride::Style(LineStyle::new(i, lt, c)))
                    },
                }
            },
        }
    } else {
        match index {
            Some(i) => Some(LineStyleOverride::Index(i)),
            None => None,
        }
    }
}

/// The override for the line style `name`.
fn line_style_override(ini: &Ini, name: &str) -> (r: Option<LineStyleOverride>)
    ensures
        r == toff_override(ini.view_entries(), name@),
{
    let sec = str_chars(name);
    let from_section = if ini.has_section(sec.as_slice()) { parse_line_style_section(ini, sec.as_slice()) } else { None };
    if from_section.is_some() {
        return from_section;
    }
    let header = str_chars("header");
    match ini.get(header.as_slice(), sec.as_slice()) {
        Some(v) => {
            let t = trim_chars(v.as_slice());
            match parse_usize(t.as_slice()) {
                Some(i) => Some(LineStyleOverride::Index(i)),
                None => None,
            }
        },
        None => None,
    }
}

/// Whether a section holds no character glyphs.
fn is_skipped(name: &[char]) -> (r: bool)
    ensures
        r == skipped_section(name@),
{
    let n = string_from_chars(name);
    let n = n.as_str();
    str_eq(n, "header") || str_eq(n, "underline") || str_eq(n, "underline2") || str_eq(n, "overline")
        || str_eq(n, "strike") || str_eq(n, "ligatures")
}

/// The glyphs that one section contributes, if any.
fn section_glyphs(ini: &Ini, name: &[char]) -> (r: Option<Glyphs>)
    ensures
        match r {
            Some(g) => g.entries() == section_pairs(ini.view_entries(), name@),
            None => section_pairs(ini.view_entries(), name@).len() == 0,
        },
{
    if is_skipped(name) {
        return None;
    }
    let glyphs_key = str_chars("glyphs");
    let text = match ini.get(name, glyphs_key.as_slice()) {
        Some(t) => t,
        None => return None,
    };
    let rows = glyph_rows_of(text.as_slice());
    if rows.len() == 0 {
        return None;
    }
    let rows_ref = as_strs(&rows);
    let keys: Vec<String> = match string_module_chars(name) {
        Some(cs) => ascii_to_char_slices(cs),
        None => {
            let chars_key = str_chars("chars");
            match ini.get(name, chars_key.as_slice()) {
                Some(cv) => {
                    let kept = remove_spaces_chars(cv);
                    chars_to_keys(&kept)
                },
                None => return None,
            }
        },
    };
    let keys_ref = as_strs(&keys);
    match Glyphs::from_lines(keys_ref.as_slice(), rows_ref.as_slice(), None) {
        Ok(g) => Some(g),
        Err(_) => None,
    }
}

/// The ligature glyphs of a font text.
fn ligature_glyphs(ini: &Ini) -> (r: Glyphs)
    ensures
        r.entries() == toff_ligatures(ini.view_entries()),
{
    let sec = str_chars("ligatures");
    let sq_key = str_chars("sequences");
    let gl_key = str_chars("glyphs");
    let mut ligatures = Glyphs::new();
    match (ini.get(sec.as_slice(), sq_key.as_slice()), ini.get(sec.as_slice(), gl_key.as_slice())) {
        (Some(sq), Some(t)) => {
            let rows = glyph_rows_of(t.as_slice());
            if rows.len() > 0 {
                let seqs = split_words(sq);
                let seqs_ref = as_strs(&seqs);
                let rows_ref = as_strs(&rows);
                match Glyphs::from_lines(seqs_ref.as_slice(), rows_ref.as_slice(), None) {
                    Ok(g) => ligatures.extend(g),
                    Err(_) => {},
                }
            }
        },
        _ => {},
    }
    ligatures
}

/// A header setting read as a `usize`.
pub(crate) fn header_usize_of(ini: &Ini, key: &str) -> (r: Option<usize>)
    ensures
        r == header_usize(ini.view_entries(), key@),
{
    let header = str_chars("header");
    let k = str_chars(key);
    match ini.get(header.as_slice(), k.as_slice()) {
        Some(v) => {
            let t = trim_chars(v.as_slice());
            parse_usize(t.as_slice())
        },
        None => None,
    }
}

impl Font {
    /// The baseline a font source's header sets, if it sets one that reads
    /// as a number; `parse_toff` takes sources whose baseline is not the
    /// largest `usize`.
    pub fn toff_baseline(src: &str) -> (r: Option<usize>)
        ensures
            r == header_usize(ini_entries(src@), "baseline"@),
    {
        let chars = str_chars(src);
        let ini = parse_ini(chars.as_slice());
        header_usize_of(&ini, "baseline")
    }

    /// Parse a `.toff` font description from a string source.
    ///
    /// The text is read as INI settings: a `[header]` section (required)
    /// with the name, baseline, letter spacing and space width; optional
    /// `[underline]`, `[underline2]`, `[overline]` and `[strike]` sections
    /// (or plain indices under those names in the header); glyph sections
    /// whose `glyphs` sheet is cut into one glyph per character (the
    /// characters of the named set when the section is named after one,
    /// else those listed in `chars`); and a `[ligatures]` section
    /// pairing `sequences` with a sheet. Sections that do not cut into one
    /// glyph per key are left out.
    pub fn parse_toff(src: &str) -> (r: Result<Font, FontError>)
        requires
            header_usize(ini_entries(src@), "baseline"@) != Some(usize::MAX),
        ensures
            match r {
                Ok(f) => ini_has_section(ini_entries(src@), "header"@) && is_toff_font(&f, ini_entries(src@)),
                Err(e) => e is MissingHeader && !ini_has_section(ini_entries(src@), "header"@),
            },
    {
        let chars = str_chars(src);
        let ini = parse_ini(chars.as_slice());
        let ghost e = ini.view_entries();
        let header = str_chars("header");
        if !ini.has_section(header.as_slice()) {
            return Err(FontError::MissingHeader);
        }
        let name_key = str_chars("name");
        let name = match ini.get(header.as_slice(), name_key.as_slice()) {
            Some(v) => string_from_chars(v.as_slice()),
            None => crate::chars::string_of("Unknown"),
        };
        let baseline = header_usize_of(&ini, "baseline");
        let ls_key = str_chars("letter_spacing");
        let letter_spacing: i32 = match ini.get(header.as_slice(), ls_key.as_slice()) {
            Some(v) => {
                let t = trim_chars(v.as_slice());
                match parse_i32(t.as_slice()) {
                    Some(x) => x,
                    None => 0,
                }
            },
            None => 0,
        };
        let space_width: usize = match header_usize_of(&ini, "space_width") {
            Some(x) => x,
            None => 1,
        };
        let underline_override = line_style_override(&ini, "underline");
        let underline2_override = line_style_override(&ini, "underline2");
        let overline_override = line_style_override(&ini, "overline");
        let strike_override = line_style_override(&ini, "strike");

        let sections = ini.sections();
        let ghost secs = ini_sections(e);
        let mut glyphs = Glyphs::new();
        let mut i: usize = 0;
        while i < sections.len()
            invariant
                e == ini.view_entries(),
                secs == ini_sections(e),
                sections@.len() == secs.len(),
                forall|j: int| 0 <= j < sections@.len() ==> #[trigger] sections@[j]@ == secs[j],
                i <= secs.len(),
                glyphs.entries() == toff_glyphs_upto(e, secs, i as nat),
            decreases secs.len() - i,
        {
            match section_glyphs(&ini, sections[i].as_slice()) {
                Some(g) => glyphs.extend(g),
                None => {},
            }
            i = i + 1;
        }
        let ligatures = ligature_glyphs(&ini);
        let f = Font::new(
            name,
            glyphs,
            ligatures,
            letter_spacing,
            space_width,
            baseline,
            underline_override,
            underline2_override,
            overline_override,
            strike_override,
        );
        Ok(f)
    }
}

/// Why one section is left out, if it is.
fn section_error_of(ini: &Ini, name: &[char]) -> (r: Option<String>)
    ensures
        match r {
            Some(m) => section_error(ini.view_entries(), name@) == Some(m@),
            None => section_error(ini.view_entries(), name@) is None,
        },
{
    if is_skipped(name) {
        return None;
    }
    let glyphs_key = str_chars("glyphs");
    let text = match ini.get(name, glyphs_key.as_slice()) {
        Some(t) => t,
        None => return None,
    };
    let rows = glyph_rows_of(text.as_slice());
    if rows.len() == 0 {
        return None;
    }
    let rows_ref = as_strs(&rows);
    let keys: Vec<String> = match string_module_chars(name) {
        Some(cs) => ascii_to_char_slices(cs),
        None => {
            let chars_key = str_chars("chars");
            match ini.get(name, chars_key.as_slice()) {
                Some(cv) => {
                    let kept = remove_spaces_chars(cv);
                    chars_to_keys(&kept)
                },
                None => return None,
            }
        },
    };
    let keys_ref = as_strs(&keys);
    match Glyphs::from_lines(keys_ref.as_slice(), rows_ref.as_slice(), None) {
        Ok(_) => None,
        Err(m) => Some(m),
    }
}

/// Why the ligatures are left out, if they are.
fn ligature_error_of(ini: &Ini) -> (r: Option<String>)
    ensures
        match r {
            Some(m) => ligature_error(ini.view_entries()) == Some(m@),
            None => ligature_error(ini.view_entries()) is None,
        },
{
    let sec = str_chars("ligatures");
    let sq_key = str_chars("sequences");
    let gl_key = str_chars("glyphs");
    match (ini.get(sec.as_slice(), sq_key.as_slice()), ini.get(sec.as_slice(), gl_key.as_slice())) {
        (Some(sq), Some(t)) => {
            let rows = glyph_rows_of(t.as_slice());
            if rows.len() == 0 {
                return None;
            }
            let seqs = split_words(sq);
            let seqs_ref = as_strs(&seqs);
            let rows_ref = as_strs(&rows);
            match Glyphs::from_lines(seqs_ref.as_slice(), rows_ref.as_slice(), None) {
                Ok(_) => None,
                Err(m) => Some(m),
            }
        },
        _ => None,
    }
}

impl Font {
    /// The warnings that reading a font text gives: each glyph section its
    /// sheet does not cut into one glyph per key ("failed to parse section
    /// '<name>': <why>"), then the ligatures when they do not ("failed to
    /// parse ligatures: <why>"). `parse_toff` leaves those glyphs out.
    pub fn toff_warnings(src: &str) -> (r: Vec<String>)
        ensures
            r.deep_view() == toff_warnings_of(ini_entries(src@)),
    {
        let chars = str_chars(src);
        let ini = parse_ini(chars.as_slice());
        let ghost e = ini.view_entries();
        let sections = ini.sections();
        let ghost secs = ini_sections(e);
        let mut out: Vec<String> = Vec::new();
        let mut i: usize = 0;
        while i < sections.len()
            invariant
                e == ini.view_entries(),
                secs == ini_sections(e),
                sections@.len() == secs.len(),
                forall|j: int| 0 <= j < sections@.len() ==> #[trigger] sections@[j]@ == secs[j],
                i <= secs.len(),
                out.deep_view() == section_warnings_upto(e, secs, i as nat),
            decreases secs.len() - i,
        {
            let ghost before = out.deep_view();
            match section_error_of(&ini, sections[i].as_slice()) {
                Some(m) => {
                    let name = string_from_chars(sections[i].as_slice());
                    let a = concat("failed to parse section '", name.as_str());
                    let b = concat(a.as_str(), "': ");
                    let w = concat(b.as_str(), m.as_str());
                    out.push(w);
                    assert(out.deep_view() =~= before.push(w@));
                },
                None => {
                    assert(out.deep_view() =~= before + Seq::<Seq<char>>::empty());
                },
            }
            i = i + 1;
        }
        let ghost before = out.deep_view();
        match ligature_error_of(&ini) {
            Some(m) => {
                let w = concat("failed to parse ligatures: ", m.as_str());
                out.push(w);
                assert(out.deep_view() =~= before.push(w@));
            },
            None => {
                assert(out.deep_view() =~= before + Seq::<Seq<char>>::empty());
            },
        }
        out
    }
}

} // verus!
