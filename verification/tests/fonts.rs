use rich_typography_rs::font::{Font, FontError};
use rich_typography_rs::glyph::Glyphs;
use rich_typography_rs::line::{LineStyle, LineStyleOverride, LineType};

fn g(rows: &[&str]) -> Vec<String> {
    rows.iter().map(|r| r.to_string()).collect()
}

#[test]
fn new_font_defaults() {
    let f = Font::new("t".to_string(), Glyphs::new(), Glyphs::new(), 0, 2, None, None, None, None, None);
    assert_eq!(f.name(), "t");
    assert_eq!(f.line_height(), 5);
    assert_eq!(f.baseline(), 3);
    assert_eq!(f.space_width(), 2);
    assert_eq!(f.get(" "), &g(&["  ", "  ", "  ", "  ", "  "]));
    assert_eq!(f.get("q"), &g(&["┌─┐", "│ │", "│ │", "│ │", "└─┘"]));
    assert_eq!(f.underline().index, 3);
    assert_eq!(f.underline2().index, 4);
    assert_eq!(f.overline().index, 0);
    assert_eq!(f.strike().index, 2);
    assert_eq!(f.strike().line, LineType::Strike);
    assert!(f.contains(" "));
    assert!(!f.contains("q"));
}

#[test]
fn new_font_takes_height_from_first_glyph_and_overrides() {
    let mut glyphs = Glyphs::new();
    glyphs.insert("a".to_string(), g(&["a", "a"]));
    let mut ligs = Glyphs::new();
    ligs.insert("ab".to_string(), g(&["x", "x"]));
    let f = Font::new(
        "t".to_string(),
        glyphs,
        ligs,
        1,
        1,
        Some(1),
        Some(LineStyleOverride::Index(0)),
        None,
        Some(LineStyleOverride::Style(LineStyle::new(0, LineType::Custom, Some('~')))),
        None,
    );
    assert_eq!(f.line_height(), 2);
    assert_eq!(f.baseline(), 1);
    assert_eq!(f.underline().index, 0);
    assert_eq!(f.underline2().index, 2);
    assert_eq!(f.overline().line, LineType::Custom);
    assert_eq!(f.overline().char, Some('~'));
    assert_eq!(f.ligature_keys(), vec!["ab".to_string()]);
    assert_eq!(f.get("ab"), &g(&["x", "x"]));
    assert_eq!(f.get("zz"), &g(&["┌─┐", "└─┘"]));
    assert_eq!(f.letter_spacing(), 1);
}

#[test]
fn make_space_and_placeholder() {
    assert_eq!(Font::make_space(3, 2), g(&["   ", "   "]));
    assert_eq!(Font::make_placeholder(1), g(&["┌─┐"]));
    assert_eq!(Font::make_placeholder(0), g(&[]));
}

#[test]
fn line_type_names() {
    assert_eq!(LineType::from_str("underline2"), Some(LineType::Underline2));
    assert_eq!(LineType::from_str("custom"), Some(LineType::Custom));
    assert_eq!(LineType::from_str("bogus"), None);
}

#[test]
fn line_style_overrides() {
    let base = LineStyle::new(1, LineType::Underline, None);
    assert_eq!(base.with_override(None), base);
    assert_eq!(base.with_override(Some(LineStyleOverride::Index(4))), LineStyle::new(4, LineType::Underline, None));
    assert_eq!(
        base.with_override(Some(LineStyleOverride::Style(LineStyle::new(0, LineType::Strike, Some('x'))))),
        LineStyle::new(1, LineType::Strike, Some('x'))
    );
    assert_eq!(LineStyleOverride::from(3usize), LineStyleOverride::Index(3));
}

#[test]
fn parse_toff_requires_header() {
    match Font::parse_toff("[glyphs]\nchars: a\n") {
        Err(FontError::MissingHeader) => {}
        _ => panic!("expected a missing header"),
    }
}

#[test]
fn parse_toff_reads_sections() {
    let src = "[header]\nname: Tiny\nletter_spacing: -1\nspace_width: 3\nunderline: 0\n\n[Letters]\nchars: a b\nglyphs:\n    │ x y\n    │ x y\n\n[ligatures]\nsequences: ab\nglyphs:\n    │ zz\n    │ zz\n";
    let f = Font::parse_toff(src).ok().unwrap();
    assert_eq!(f.name(), "Tiny");
    assert_eq!(f.letter_spacing(), -1);
    assert_eq!(f.space_width(), 3);
    assert_eq!(f.line_height(), 2);
    assert_eq!(f.baseline(), 0);
    assert_eq!(f.underline().index, 0);
    assert_eq!(f.get("a"), &g(&["x", "x"]));
    assert_eq!(f.get("b"), &g(&["y", "y"]));
    assert_eq!(f.get("ab"), &g(&["zz", "zz"]));
    assert_eq!(f.get(" "), &g(&["   ", "   "]));
}

#[test]
fn parse_toff_defaults_without_values() {
    let f = Font::parse_toff("[header]\nbaseline: 1\n").ok().unwrap();
    assert_eq!(f.name(), "Unknown");
    assert_eq!(f.letter_spacing(), 0);
    assert_eq!(f.space_width(), 1);
    assert_eq!(f.line_height(), 5);
    assert_eq!(f.baseline(), 1);
}

#[test]
fn parse_toff_empty_header_section_is_missing() {
    assert!(matches!(Font::parse_toff("[header]\n"), Err(FontError::MissingHeader)));
}

#[test]
fn builtin_font_names_sorted() {
    assert_eq!(
        Font::builtin_names(),
        vec![
            "condensedsans".to_string(),
            "condensedsemi".to_string(),
            "condensedserif".to_string(),
            "extended.condensedsans".to_string(),
            "extended.sans".to_string(),
        ]
    );
    assert!(Font::builtin("nope").is_none());
}

#[test]
fn builtin_font_contents() {
    let f = Font::builtin("condensedsemi").unwrap();
    assert_eq!(f.name(), "Condensed Semi");
    assert_eq!(f.line_height(), 3);
    assert_eq!(f.ligature_keys(), vec!["fi".to_string()]);
    assert_eq!(f.get("A"), &g(&["╭─╮", "├─┤", "╵ ╵"]));
    assert_eq!(f.get("a"), &g(&["╭─╮", "├─┤", "╵ ╵"]));
    assert_eq!(f.get("7"), &g(&["╶─┐", "  │", "  ╵"]));
    assert_eq!(f.get("?"), &g(&["╶─╮", " ╭╯", " ╻ "]));
    assert!(f.has_complete_rows());
    assert_eq!(f.widest_row(), 3);
    let serif = Font::builtin("condensedserif").unwrap();
    assert_eq!(serif.underline().index, 2);
}

#[test]
fn font_error_messages() {
    assert_eq!(FontError::NotFound("a.toff".to_string()).message(), "Font file not found: a.toff");
    assert_eq!(FontError::MissingHeader.message(), "Font file missing [header] section");
    assert_eq!(FontError::ParseError("bad".to_string()).message(), "Parse error: bad");
    let io = FontError::from(std::io::Error::new(std::io::ErrorKind::Other, "boom"));
    assert!(matches!(io, FontError::Io(_)));
    assert_eq!(io.message(), "IO error: boom");
}

#[test]
fn into_arc_keeps_the_font() {
    let f = Font::new("t".to_string(), Glyphs::new(), Glyphs::new(), 1, 2, None, None, None, None, None);
    let a = f.into_arc();
    assert_eq!(a.name(), "t");
    assert_eq!(a.letter_spacing(), 1);
    assert_eq!(a.space_width(), 2);
}

#[test]
fn toff_warnings_name_sections_left_out() {
    let src = "[header]\nname: t\n\n[digits]\nglyphs:\n    │ a b\n\n[marks]\nchars: . ,\nglyphs:\n    │ x y\n\n[ligatures]\nsequences: ab cd\nglyphs:\n    │ x\n";
    let w = Font::toff_warnings(src);
    assert_eq!(
        w,
        vec![
            "failed to parse section 'digits': Number of glyphs (2) does not match number of chars (10).".to_string(),
            "failed to parse ligatures: Number of glyphs (1) does not match number of chars (2).".to_string(),
        ]
    );
    let f = Font::parse_toff(src).unwrap();
    assert!(!f.contains("0"));
    assert!(f.contains("."));
}

#[test]
fn glyph_text_keeps_bare_carriage_return_at_end() {
    let rows = rich_typography_rs::toff::split_glyph_text("xyab\r");
    assert_eq!(rows, vec!["ab\r".to_string()]);
    let rows = rich_typography_rs::toff::split_glyph_text("xyab\r\nxycd");
    assert_eq!(rows, vec!["ab".to_string(), "cd".to_string()]);
}
