use vstd::prelude::*;

use crate::chars::{str_chars, str_eq, string_of};
use crate::font::Font;
use crate::ini::{ini_entries, ini_has_section, parse_ini};
use crate::toff::{header_usize, header_usize_of, is_toff_font};

verus! {
/// A condensed sans-serif font, three rows high.
pub const CONDENSED_SANS: &'static str = "[header]\nname: Condensed Sans\nletter_spacing: 1\nspace_width: 2\n\n[ascii_uppercase]\nglyphs:\n    │ ╭─╮ ┬─╮ ╭─╴ ┬─╮ ┬─╴ ┬─╴ ╭─╴ ╷ ╷ ┬   ╷ ╷╭╴ ╷   ╭┬╮ ╭╮╷ ╭─╮ ┬─╮ ╭─╮ ┬─╮ ╭─╴ ╶┬╴ ╷ ╷ ╷ ╷ ╷╷╷ ╮ ╭ ╮ ╭ ╶─╮\n    │ ├─┤ ├─┤ │   │ │ ├─  ├─  │╶╮ ├─┤ │   │ ├┤  │   │││ │││ │ │ ├─╯ │ │ ├┬╯ ╰─╮  │  │ │ │ │ │││  ┼  ╰┬╯ ╭─╯\n    │ ╵ ╵ ┴─╯ ╰─╴ ┴─╯ ┴─╴ ╵   ╰─╯ ╵ ╵ ┴ ╰─╯ ╵╰╴ ┴─╴ ╵╵╵ ╵╰╯ ╰─╯ ╵   ╰┼╯ ╵╰╴ ╶─╯  ╵  ╰─╯ ╰┬╯ ╰┴╯ ╯ ╰  ╵  ╰─╴\n\n[ascii_lowercase]\nglyphs:\n    │ ╭─╮ ┬─╮ ╭─╴ ┬─╮ ┬─╴ ┬─╴ ╭─╴ ╷ ╷ ┬   ╷ ╷╭╴ ╷   ╭┬╮ ╭╮╷ ╭─╮ ┬─╮ ╭─╮ ┬─╮ ╭─╴ ╶┬╴ ╷ ╷ ╷ ╷ ╷╷╷ ╮ ╭ ╮ ╭ ╶─╮\n    │ ├─┤ ├─┤ │   │ │ ├─  ├─  │╶╮ ├─┤ │   │ ├┤  │   │││ │││ │ │ ├─╯ │ │ ├┬╯ ╰─╮  │  │ │ │ │ │││  ┼  ╰┬╯ ╭─╯\n    │ ╵ ╵ ┴─╯ ╰─╴ ┴─╯ ┴─╴ ╵   ╰─╯ ╵ ╵ ┴ ╰─╯ ╵╰╴ ┴─╴ ╵╵╵ ╵╰╯ ╰─╯ ╵   ╰┼╯ ╵╰╴ ╶─╯  ╵  ╰─╯ ╰┬╯ ╰┴╯ ╯ ╰  ╵  ╰─╴\n\n[digits]\nglyphs:\n    │ ╭─╮ ╶┐ ╶─╮ ╶─╮ ╷ ╷ ┌─╴ ╭─╴ ╶─┐ ╭─╮ ╭─╮\n    │ │ │  │ ╭─╯  ─┤ ╰─┤ ╰─╮ ├─╮   │ ├─┤ ╰─┤\n    │ ╰─╯ ╶┴ ╰─╴ ╶─╯   ╵ ╶─╯ ╰─╯   ╵ ╰─╯ ╶─╯\n\n[marks]\nchars: . , ! ? ' -\nglyphs:\n    │     │ ╶─╮ ╵   \n    │     ╵  ╭╯   ╶╴\n    │ ╻ ╯ ╻  ╻      \n";
/// A condensed semi-bold font, three rows high, with an `fi` ligature.
pub const CONDENSED_SEMI: &'static str = "[header]\nname: Condensed Semi\nletter_spacing: 0\nspace_width: 2\n\n[ascii_uppercase]\nglyphs:\n    │ ╭─╮ ┬─╮ ╭─╴ ┬─╮ ┬─╴ ┬─╴ ╭─╴ ╷ ╷ ┬   ╷ ╷╭╴ ╷   ╭┬╮ ╭╮╷ ╭─╮ ┬─╮ ╭─╮ ┬─╮ ╭─╴ ╶┬╴ ╷ ╷ ╷ ╷ ╷╷╷ ╮ ╭ ╮ ╭ ╶─╮\n    │ ├─┤ ├─┤ │   │ │ ├─  ├─  │╶╮ ├─┤ │   │ ├┤  │   │││ │││ │ │ ├─╯ │ │ ├┬╯ ╰─╮  │  │ │ │ │ │││  ┼  ╰┬╯ ╭─╯\n    │ ╵ ╵ ┴─╯ ╰─╴ ┴─╯ ┴─╴ ╵   ╰─╯ ╵ ╵ ┴ ╰─╯ ╵╰╴ ┴─╴ ╵╵╵ ╵╰╯ ╰─╯ ╵   ╰┼╯ ╵╰╴ ╶─╯  ╵  ╰─╯ ╰┬╯ ╰┴╯ ╯ ╰  ╵  ╰─╴\n\n[ascii_lowercase]\nglyphs:\n    │ ╭─╮ ┬─╮ ╭─╴ ┬─╮ ┬─╴ ┬─╴ ╭─╴ ╷ ╷ ┬   ╷ ╷╭╴ ╷   ╭┬╮ ╭╮╷ ╭─╮ ┬─╮ ╭─╮ ┬─╮ ╭─╴ ╶┬╴ ╷ ╷ ╷ ╷ ╷╷╷ ╮ ╭ ╮ ╭ ╶─╮\n    │ ├─┤ ├─┤ │   │ │ ├─  ├─  │╶╮ ├─┤ │   │ ├┤  │   │││ │││ │ │ ├─╯ │ │ ├┬╯ ╰─╮  │  │ │ │ │ │││  ┼  ╰┬╯ ╭─╯\n    │ ╵ ╵ ┴─╯ ╰─╴ ┴─╯ ┴─╴ ╵   ╰─╯ ╵ ╵ ┴ ╰─╯ ╵╰╴ ┴─╴ ╵╵╵ ╵╰╯ ╰─╯ ╵   ╰┼╯ ╵╰╴ ╶─╯  ╵  ╰─╯ ╰┬╯ ╰┴╯ ╯ ╰  ╵  ╰─╴\n\n[digits]\nglyphs:\n    │ ╭─╮ ╶┐ ╶─╮ ╶─╮ ╷ ╷ ┌─╴ ╭─╴ ╶─┐ ╭─╮ ╭─╮\n    │ │ │  │ ╭─╯  ─┤ ╰─┤ ╰─╮ ├─╮   │ ├─┤ ╰─┤\n    │ ╰─╯ ╶┴ ╰─╴ ╶─╯   ╵ ╶─╯ ╰─╯   ╵ ╰─╯ ╶─╯\n\n[marks]\nchars: . , ! ? ' -\nglyphs:\n    │     │ ╶─╮ ╵   \n    │     ╵  ╭╯   ╶╴\n    │ ╻ ╯ ╻  ╻      \n\n[ligatures]\nsequences: fi\nglyphs:\n    │ ╭─┬\n    │ ├─│\n    │ ╵ ┴\n";
/// A condensed serif font, three rows high, underlined on its last row.
pub const CONDENSED_SERIF: &'static str = "[header]\nname: Condensed Serif\nletter_spacing: 0\nspace_width: 2\n\n[ascii_uppercase]\nglyphs:\n    │ ╭─╮ ┬─╮ ╭─╴ ┬─╮ ┬─╴ ┬─╴ ╭─╴ ╷ ╷ ┬   ╷ ╷╭╴ ╷   ╭┬╮ ╭╮╷ ╭─╮ ┬─╮ ╭─╮ ┬─╮ ╭─╴ ╶┬╴ ╷ ╷ ╷ ╷ ╷╷╷ ╮ ╭ ╮ ╭ ╶─╮\n    │ ├─┤ ├─┤ │   │ │ ├─  ├─  │╶╮ ├─┤ │   │ ├┤  │   │││ │││ │ │ ├─╯ │ │ ├┬╯ ╰─╮  │  │ │ │ │ │││  ┼  ╰┬╯ ╭─╯\n    │ ╵ ╵ ┴─╯ ╰─╴ ┴─╯ ┴─╴ ╵   ╰─╯ ╵ ╵ ┴ ╰─╯ ╵╰╴ ┴─╴ ╵╵╵ ╵╰╯ ╰─╯ ╵   ╰┼╯ ╵╰╴ ╶─╯  ╵  ╰─╯ ╰┬╯ ╰┴╯ ╯ ╰  ╵  ╰─╴\n\n[ascii_lowercase]\nglyphs:\n    │ ╭─╮ ┬─╮ ╭─╴ ┬─╮ ┬─╴ ┬─╴ ╭─╴ ╷ ╷ ┬   ╷ ╷╭╴ ╷   ╭┬╮ ╭╮╷ ╭─╮ ┬─╮ ╭─╮ ┬─╮ ╭─╴ ╶┬╴ ╷ ╷ ╷ ╷ ╷╷╷ ╮ ╭ ╮ ╭ ╶─╮\n    │ ├─┤ ├─┤ │   │ │ ├─  ├─  │╶╮ ├─┤ │   │ ├┤  │   │││ │││ │ │ ├─╯ │ │ ├┬╯ ╰─╮  │  │ │ │ │ │││  ┼  ╰┬╯ ╭─╯\n    │ ╵ ╵ ┴─╯ ╰─╴ ┴─╯ ┴─╴ ╵   ╰─╯ ╵ ╵ ┴ ╰─╯ ╵╰╴ ┴─╴ ╵╵╵ ╵╰╯ ╰─╯ ╵   ╰┼╯ ╵╰╴ ╶─╯  ╵  ╰─╯ ╰┬╯ ╰┴╯ ╯ ╰  ╵  ╰─╴\n\n[digits]\nglyphs:\n    │ ╭─╮ ╶┐ ╶─╮ ╶─╮ ╷ ╷ ┌─╴ ╭─╴ ╶─┐ ╭─╮ ╭─╮\n    │ │ │  │ ╭─╯  ─┤ ╰─┤ ╰─╮ ├─╮   │ ├─┤ ╰─┤\n    │ ╰─╯ ╶┴ ╰─╴ ╶─╯   ╵ ╶─╯ ╰─╯   ╵ ╰─╯ ╶─╯\n\n[marks]\nchars: . , ! ? ' -\nglyphs:\n    │     │ ╶─╮ ╵   \n    │     ╵  ╭╯   ╶╴\n    │ ╻ ╯ ╻  ╻      \n\n[underline]\nindex: 2\n";
/// An extended condensed sans-serif font, three rows high.
pub const EXTENDED_CONDENSED_SANS: &'static str = "[header]\nname: Extended Condensed Sans\nletter_spacing: 1\nspace_width: 1\n\n[ascii_uppercase]\nglyphs:\n    │ ╭─╮ ┬─╮ ╭─╴ ┬─╮ ┬─╴ ┬─╴ ╭─╴ ╷ ╷ ┬   ╷ ╷╭╴ ╷   ╭┬╮ ╭╮╷ ╭─╮ ┬─╮ ╭─╮ ┬─╮ ╭─╴ ╶┬╴ ╷ ╷ ╷ ╷ ╷╷╷ ╮ ╭ ╮ ╭ ╶─╮\n    │ ├─┤ ├─┤ │   │ │ ├─  ├─  │╶╮ ├─┤ │   │ ├┤  │   │││ │││ │ │ ├─╯ │ │ ├┬╯ ╰─╮  │  │ │ │ │ │││  ┼  ╰┬╯ ╭─╯\n    │ ╵ ╵ ┴─╯ ╰─╴ ┴─╯ ┴─╴ ╵   ╰─╯ ╵ ╵ ┴ ╰─╯ ╵╰╴ ┴─╴ ╵╵╵ ╵╰╯ ╰─╯ ╵   ╰┼╯ ╵╰╴ ╶─╯  ╵  ╰─╯ ╰┬╯ ╰┴╯ ╯ ╰  ╵  ╰─╴\n\n[ascii_lowercase]\nglyphs:\n    │ ╭─╮ ┬─╮ ╭─╴ ┬─╮ ┬─╴ ┬─╴ ╭─╴ ╷ ╷ ┬   ╷ ╷╭╴ ╷   ╭┬╮ ╭╮╷ ╭─╮ ┬─╮ ╭─╮ ┬─╮ ╭─╴ ╶┬╴ ╷ ╷ ╷ ╷ ╷╷╷ ╮ ╭ ╮ ╭ ╶─╮\n    │ ├─┤ ├─┤ │   │ │ ├─  ├─  │╶╮ ├─┤ │   │ ├┤  │   │││ │││ │ │ ├─╯ │ │ ├┬╯ ╰─╮  │  │ │ │ │ │││  ┼  ╰┬╯ ╭─╯\n    │ ╵ ╵ ┴─╯ ╰─╴ ┴─╯ ┴─╴ ╵   ╰─╯ ╵ ╵ ┴ ╰─╯ ╵╰╴ ┴─╴ ╵╵╵ ╵╰╯ ╰─╯ ╵   ╰┼╯ ╵╰╴ ╶─╯  ╵  ╰─╯ ╰┬╯ ╰┴╯ ╯ ╰  ╵  ╰─╴\n\n[digits]\nglyphs:\n    │ ╭─╮ ╶┐ ╶─╮ ╶─╮ ╷ ╷ ┌─╴ ╭─╴ ╶─┐ ╭─╮ ╭─╮\n    │ │ │  │ ╭─╯  ─┤ ╰─┤ ╰─╮ ├─╮   │ ├─┤ ╰─┤\n    │ ╰─╯ ╶┴ ╰─╴ ╶─╯   ╵ ╶─╯ ╰─╯   ╵ ╰─╯ ╶─╯\n\n[marks]\nchars: . , ! ? ' -\nglyphs:\n    │     │ ╶─╮ ╵   \n    │     ╵  ╭╯   ╶╴\n    │ ╻ ╯ ╻  ╻      \n";
/// An extended sans-serif font, three rows high, with an `fi` ligature.
pub const EXTENDED_SANS: &'static str = "[header]\nname: Extended Sans\nletter_spacing: 1\nspace_width: 3\n\n[ascii_uppercase]\nglyphs:\n    │ ╭─╮ ┬─╮ ╭─╴ ┬─╮ ┬─╴ ┬─╴ ╭─╴ ╷ ╷ ┬   ╷ ╷╭╴ ╷   ╭┬╮ ╭╮╷ ╭─╮ ┬─╮ ╭─╮ ┬─╮ ╭─╴ ╶┬╴ ╷ ╷ ╷ ╷ ╷╷╷ ╮ ╭ ╮ ╭ ╶─╮\n    │ ├─┤ ├─┤ │   │ │ ├─  ├─  │╶╮ ├─┤ │   │ ├┤  │   │││ │││ │ │ ├─╯ │ │ ├┬╯ ╰─╮  │  │ │ │ │ │││  ┼  ╰┬╯ ╭─╯\n    │ ╵ ╵ ┴─╯ ╰─╴ ┴─╯ ┴─╴ ╵   ╰─╯ ╵ ╵ ┴ ╰─╯ ╵╰╴ ┴─╴ ╵╵╵ ╵╰╯ ╰─╯ ╵   ╰┼╯ ╵╰╴ ╶─╯  ╵  ╰─╯ ╰┬╯ ╰┴╯ ╯ ╰  ╵  ╰─╴\n\n[ascii_lowercase]\nglyphs:\n    │ ╭─╮ ┬─╮ ╭─╴ ┬─╮ ┬─╴ ┬─╴ ╭─╴ ╷ ╷ ┬   ╷ ╷╭╴ ╷   ╭┬╮ ╭╮╷ ╭─╮ ┬─╮ ╭─╮ ┬─╮ ╭─╴ ╶┬╴ ╷ ╷ ╷ ╷ ╷╷╷ ╮ ╭ ╮ ╭ ╶─╮\n    │ ├─┤ ├─┤ │   │ │ ├─  ├─  │╶╮ ├─┤ │   │ ├┤  │   │││ │││ │ │ ├─╯ │ │ ├┬╯ ╰─╮  │  │ │ │ │ │││  ┼  ╰┬╯ ╭─╯\n    │ ╵ ╵ ┴─╯ ╰─╴ ┴─╯ ┴─╴ ╵   ╰─╯ ╵ ╵ ┴ ╰─╯ ╵╰╴ ┴─╴ ╵╵╵ ╵╰╯ ╰─╯ ╵   ╰┼╯ ╵╰╴ ╶─╯  ╵  ╰─╯ ╰┬╯ ╰┴╯ ╯ ╰  ╵  ╰─╴\n\n[digits]\nglyphs:\n    │ ╭─╮ ╶┐ ╶─╮ ╶─╮ ╷ ╷ ┌─╴ ╭─╴ ╶─┐ ╭─╮ ╭─╮\n    │ │ │  │ ╭─╯  ─┤ ╰─┤ ╰─╮ ├─╮   │ ├─┤ ╰─┤\n    │ ╰─╯ ╶┴ ╰─╴ ╶─╯   ╵ ╶─╯ ╰─╯   ╵ ╰─╯ ╶─╯\n\n[marks]\nchars: . , ! ? ' -\nglyphs:\n    │     │ ╶─╮ ╵   \n    │     ╵  ╭╯   ╶╴\n    │ ╻ ╯ ╻  ╻      \n\n[underline]\nindex: 2\n\n[ligatures]\nsequences: fi\nglyphs:\n    │ ╭─┬\n    │ ├─│\n    │ ╵ ┴\n";
/// The source of the built-in font called `name`, if there is one.
pub open spec fn builtin_source(name: Seq<char>) -> Option<Seq<char>> {
    if name == "condensedsans"@ {
        Some(CONDENSED_SANS@)
    } else if name == "condensedsemi"@ {
        Some(CONDENSED_SEMI@)
    } else if name == "condensedserif"@ {
        Some(CONDENSED_SERIF@)
    } else if name == "extended.condensedsans"@ {
        Some(EXTENDED_CONDENSED_SANS@)
    } else if name == "extended.sans"@ {
        Some(EXTENDED_SANS@)
    } else {
        None
    }
}

/// A font source that parses: it has a header, and its baseline is not the
/// largest `usize`.
pub open spec fn loads(src: Seq<char>) -> bool {
    ini_has_section(ini_entries(src), "header"@) && header_usize(ini_entries(src), "baseline"@) != Some(usize::MAX)
}

/// The names of the built-in fonts, sorted.
pub open spec fn builtin_name_list() -> Seq<Seq<char>> {
    seq!["condensedsans"@, "condensedsemi"@, "condensedserif"@, "extended.condensedsans"@, "extended.sans"@]
}

/// The first `k` built-in names whose fonts load.
pub open spec fn loaded_names(k: nat) -> Seq<Seq<char>>
    decreases k,
{
    if k == 0 || k > builtin_name_list().len() {
        Seq::empty()
    } else {
        let r = loaded_names((k - 1) as nat);
        let n = builtin_name_list()[k - 1];
        match builtin_source(n) {
            Some(src) => if loads(src) { r.push(n) } else { r },
            None => r,
        }
    }
}

/// Parse a font source, `None` when it does not load.
fn load_font(src: &str) -> (r: Option<Font>)
    ensures
        r is Some <==> loads(src@),
        r matches Some(f) ==> is_toff_font(&f, ini_entries(src@)),
{
    let chars = str_chars(src);
    let ini = parse_ini(chars.as_slice());
    if header_usize_of(&ini, "baseline") == Some(usize::MAX) {
        return None;
    }
    match Font::parse_toff(src) {
        Ok(f) => Some(f),
        Err(_) => None,
    }
}

impl Font {
    /// Get a built-in font by name, or `None` if the name is not found.
    ///
    /// Built-in font names: `"condensedsans"`, `"condensedsemi"` (the
    /// default), `"condensedserif"`, `"extended.condensedsans"` and
    /// `"extended.sans"`.
    pub fn builtin(name: &str) -> (r: Option<Font>)
        ensures
            match builtin_source(name@) {
                None => r is None,
                Some(src) => {
                    &&& (r is Some <==> loads(src))
                    &&& (r matches Some(f) ==> is_toff_font(&f, ini_entries(src)))
                },
            },
    {
        if str_eq(name, "condensedsans") {
            load_font(CONDENSED_SANS)
        } else if str_eq(name, "condensedsemi") {
            load_font(CONDENSED_SEMI)
        } else if str_eq(name, "condensedserif") {
            load_font(CONDENSED_SERIF)
        } else if str_eq(name, "extended.condensedsans") {
            load_font(EXTENDED_CONDENSED_SANS)
        } else if str_eq(name, "extended.sans") {
            load_font(EXTENDED_SANS)
        } else {
            None
        }
    }

    /// List all available built-in font names, sorted.
    pub fn builtin_names() -> (r: Vec<String>)
        ensures
            r.deep_view() == loaded_names(builtin_name_list().len()),
    {
        let mut r: Vec<String> = Vec::new();
        proof {
            reveal_strlit("condensedsans");
            reveal_strlit("condensedsemi");
            reveal_strlit("condensedserif");
            reveal_strlit("extended.condensedsans");
            reveal_strlit("extended.sans");
            assert(loaded_names(0) =~= Seq::<Seq<char>>::empty());
            assert("condensedsemi"@[10] != "condensedsans"@[10]);
            assert("condensedserif"@.len() != "condensedsans"@.len());
            assert("condensedserif"@.len() != "condensedsemi"@.len());
            assert("extended.condensedsans"@.len() != "condensedsans"@.len());
            assert("extended.condensedsans"@.len() != "condensedsemi"@.len());
            assert("extended.condensedsans"@.len() != "condensedserif"@.len());
            assert("extended.sans"@[0] != "condensedsans"@[0]);
            assert("extended.sans"@[0] != "condensedsemi"@[0]);
            assert("extended.sans"@.len() != "condensedserif"@.len());
            assert("extended.sans"@.len() != "extended.condensedsans"@.len());
        }
        let ghost before = r.deep_view();
        let ok0 = load_font(CONDENSED_SANS).is_some();
        if ok0 {
            r.push(string_of("condensedsans"));
        }
        proof {
            assert(builtin_name_list()[0] == "condensedsans"@);
            assert(builtin_source("condensedsans"@) == Some(CONDENSED_SANS@));
            assert(loaded_names(1) == (if loads(CONDENSED_SANS@) { loaded_names(0).push("condensedsans"@) } else { loaded_names(0) }));
            assert(r.deep_view() =~= loaded_names(1));
        }
        let ghost before = r.deep_view();
        let ok1 = load_font(CONDENSED_SEMI).is_some();
        if ok1 {
            r.push(string_of("condensedsemi"));
        }
        proof {
            assert(builtin_name_list()[1] == "condensedsemi"@);
            assert(builtin_source("condensedsemi"@) == Some(CONDENSED_SEMI@));
            assert(loaded_names(2) == (if loads(CONDENSED_SEMI@) { loaded_names(1).push("condensedsemi"@) } else { loaded_names(1) }));
            assert(r.deep_view() =~= loaded_names(2));
        }
        let ghost before = r.deep_view();
        let ok2 = load_font(CONDENSED_SERIF).is_some();
        if ok2 {
            r.push(string_of("condensedserif"));
        }
        proof {
            assert(builtin_name_list()[2] == "condensedserif"@);
            assert(builtin_source("condensedserif"@) == Some(CONDENSED_SERIF@));
            assert(loaded_names(3) == (if loads(CONDENSED_SERIF@) { loaded_names(2).push("condensedserif"@) } else { loaded_names(2) }));
            assert(r.deep_view() =~= loaded_names(3));
        }
        let ghost before = r.deep_view();
        let ok3 = load_font(EXTENDED_CONDENSED_SANS).is_some();
        if ok3 {
            r.push(string_of("extended.condensedsans"));
        }
        proof {
            assert(builtin_name_list()[3] == "extended.condensedsans"@);
            assert(builtin_source("extended.condensedsans"@) == Some(EXTENDED_CONDENSED_SANS@));
            assert(loaded_names(4) == (if loads(EXTENDED_CONDENSED_SANS@) { loaded_names(3).push("extended.condensedsans"@) } else { loaded_names(3) }));
            assert(r.deep_view() =~= loaded_names(4));
        }
        let ghost before = r.deep_view();
        let ok4 = load_font(EXTENDED_SANS).is_some();
        if ok4 {
            r.push(string_of("extended.sans"));
        }
        proof {
            assert(builtin_name_list()[4] == "extended.sans"@);
            assert(builtin_source("extended.sans"@) == Some(EXTENDED_SANS@));
            assert(loaded_names(5) == (if loads(EXTENDED_SANS@) { loaded_names(4).push("extended.sans"@) } else { loaded_names(4) }));
            assert(r.deep_view() =~= loaded_names(5));
        }
        r
    }
}

} // verus!
