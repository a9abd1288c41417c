use std::sync::Arc;

use rich_typography_rs::font::Font;
use rich_typography_rs::glyph::Glyphs;
use rich_typography_rs::style::{Color, JustifyMethod, OverflowMethod, Span, TextStyle};
use rich_typography_rs::typography::{LigatureStyleMethod, StyledText, Typography};

fn semi_font() -> Arc<Font> {
    Arc::new(Font::builtin("condensedsemi").expect("condensedsemi not found").clone())
}

fn semi(text: &str) -> Typography {
    Typography::new(text, TextStyle::default(), semi_font(), 0, true, true, None)
}

#[test]
fn test_builtin_fonts_load() {
    for name in &["condensedsemi", "condensedsans", "condensedserif", "extended.condensedsans", "extended.sans"] {
        assert!(Font::builtin(name).is_some(), "font {name} missing");
    }
}

#[test]
fn test_rendered_width_nonempty() {
    let font = semi_font();
    let t = Typography::new("Hi", TextStyle::default(), font, 0, true, true, None);
    assert!(t.rendered_width("H") > 0);
    assert!(t.rendered_width("Hi") >= t.rendered_width("H"));
}

#[test]
fn test_split_glyphs_ligature() {
    let font = semi_font();
    let t = Typography::new("fi", TextStyle::default(), font, 0, true, true, None);
    let glyphs = t.split_glyphs("fi");
    assert!(!glyphs.is_empty());
    for (_, key) in &glyphs {
        assert!(!key.is_empty());
    }
}

#[test]
fn test_measure() {
    let font = semi_font();
    let t = Typography::new("AB", TextStyle::default(), font, 0, true, true, None);
    let (minimum, maximum) = t.measure_widths();
    assert!(minimum > 0);
    assert!(maximum >= minimum);
}

#[test]
fn new_strips_control_codes() {
    let t = semi("a\x07b\rc");
    assert_eq!(t.plain(), "abc");
    assert!(t.spans.is_empty());
}

#[test]
fn rendered_width_exact_values() {
    let t = semi("");
    assert_eq!(t.rendered_width(""), 0);
    assert_eq!(t.rendered_width("H"), 3);
    assert_eq!(t.rendered_width("HI"), 4);
    assert_eq!(t.rendered_width("LT"), 5);
    assert_eq!(t.rendered_width("fi"), 3);
    assert_eq!(t.rendered_width("ABCD"), 12);
    assert_eq!(t.try_rendered_width("LT"), Some(5));
}

#[test]
fn kerning_off_keeps_spacing() {
    let t = Typography::new("", TextStyle::default(), semi_font(), 0, false, true, None);
    assert_eq!(t.rendered_width("LT"), 6);
    assert_eq!(t.letter_adjust("L", "T"), 0);
    let wide = Typography::new("", TextStyle::default(), semi_font(), 2, false, true, None);
    assert_eq!(wide.rendered_width("LT"), 8);
}

#[test]
fn letter_adjust_values() {
    let t = semi("");
    assert_eq!(t.letter_adjust("L", "T"), -1);
    assert_eq!(t.letter_adjust(" ", "T"), 0);
    assert_eq!(t.letter_adjust("H", "I"), 0);
}

#[test]
fn split_glyphs_with_and_without_ligatures() {
    let t = semi("");
    assert_eq!(t.split_glyphs("fig"), vec![(0, "fi".to_string()), (2, "g".to_string())]);
    let plain = Typography::new("", TextStyle::default(), semi_font(), 0, true, false, None);
    assert_eq!(
        plain.split_glyphs("fig"),
        vec![(0, "f".to_string()), (1, "i".to_string()), (2, "g".to_string())]
    );
    assert_eq!(
        plain.split_glyphs("é a"),
        vec![(0, "é".to_string()), (1, " ".to_string()), (2, "a".to_string())]
    );
    assert_eq!(t.split_glyphs("éfi"), vec![(0, "é".to_string()), (1, "fi".to_string())]);
}

#[test]
fn should_overlap_rules() {
    let t = semi("");
    assert!(t.should_overlap("a", "b"));
    assert!(!t.should_overlap("a'", "b"));
    assert!(!t.should_overlap("", "b"));
    assert!(!t.should_overlap("a", "\""));
    let nk = Typography::new("", TextStyle::default(), semi_font(), 0, false, true, None);
    assert!(!nk.should_overlap("a", "b"));
}

#[test]
fn glyph_borders_skip_inside_ligatures() {
    let t = semi("");
    assert_eq!(t.glyph_borders("fig"), vec![0, 2]);
    let plain = Typography::new("", TextStyle::default(), semi_font(), 0, true, false, None);
    assert_eq!(plain.glyph_borders("fig"), vec![0, 1, 2]);
}

#[test]
fn divide_offsets_breaks_words() {
    let t = semi("");
    assert_eq!(t.divide_offsets("AB CD", 7, true), vec![0, 3, 5]);
    assert_eq!(t.divide_offsets("AB CD", 20, true), vec![5]);
    assert_eq!(t.divide_offsets("ABCDEFGH", 7, true), vec![1, 3, 5, 7, 8]);
    assert_eq!(t.divide_offsets("ABCDEFGH", 7, false), vec![0, 8]);
    assert_eq!(t.try_divide_offsets("AB CD", 20, true), Some(vec![5]));
}

#[test]
fn chop_cells_cuts_chunks() {
    let t = semi("");
    assert_eq!(t.chop_cells("ABC", 4), vec!["A".to_string(), "B".to_string(), "C".to_string()]);
    assert_eq!(t.chop_cells("ABCD", 7), vec!["AB".to_string(), "CD".to_string()]);
    assert_eq!(t.chop_cells("ABCDE", 9), vec!["ABC".to_string(), "DE".to_string()]);
    assert_eq!(t.chop_cells("", 4), Vec::<String>::new());
    assert_eq!(t.chop_cells("A", 1), vec!["A".to_string()]);
}

#[test]
fn shrink_and_truncate() {
    let t = semi("ABCD");
    assert_eq!(t.shrink_to_width("ABCD", 7), "AB");
    assert_eq!(t.shrink_to_width("ABCD", 0), "");
    let mut crop = semi("ABCD");
    crop.truncate(7, Some(OverflowMethod::Crop));
    assert_eq!(crop.plain(), "AB");
    let mut dots = semi("ABCD");
    dots.truncate(7, Some(OverflowMethod::Ellipsis));
    assert_eq!(dots.plain(), "A...");
    let mut kept = semi("ABCD");
    kept.truncate(7, Some(OverflowMethod::Ignore));
    assert_eq!(kept.plain(), "ABCD");
    let mut fits = semi("AB");
    assert!(fits.try_truncate(7, None));
    assert_eq!(fits.plain(), "AB");
}

#[test]
fn set_plain_clips_spans() {
    let mut t = semi("abcdef");
    let bold = TextStyle::new().with_bold(true);
    t.spans = vec![Span { start: 1, end: 5, style: bold }, Span { start: 4, end: 6, style: bold }];
    t.set_plain("abc");
    assert_eq!(t.plain(), "abc");
    assert_eq!(t.spans, vec![Span { start: 1, end: 3, style: bold }]);
}

#[test]
fn from_text_and_to_text() {
    let bold = TextStyle::new().with_bold(true);
    let st = StyledText {
        plain: "a\x08b".to_string(),
        style: None,
        spans: vec![Span { start: 0, end: 1, style: bold }],
    };
    let t = Typography::from_text(&st, semi_font(), 1, true, false, Some(LigatureStyleMethod::Last));
    assert_eq!(t.plain(), "ab");
    assert_eq!(t.style, TextStyle::new());
    assert_eq!(t.adjust_spacing, 1);
    let back = t.to_text();
    assert_eq!(back.plain, "ab");
    assert_eq!(back.style, Some(TextStyle::new()));
    assert_eq!(back.spans, vec![Span { start: 0, end: 1, style: bold }]);
    let c = t.copy();
    assert_eq!(c.plain(), "ab");
    assert_eq!(c.style_ligatures, Some(LigatureStyleMethod::Last));
}

#[test]
fn markup_settings_combine_style() {
    let red = TextStyle::new().with_color(Color::Standard(1));
    let t = semi("x").with_markup_settings(red, Some(JustifyMethod::Center), Some(OverflowMethod::Crop));
    assert_eq!(t.style, red);
    assert_eq!(t.justify, Some(JustifyMethod::Center));
    let u = semi("x").with_markup_settings(TextStyle::new(), None, None);
    assert_eq!(u.style, TextStyle::new());
}

#[test]
fn style_borders_and_fragments() {
    let mut t = semi("abcd");
    let bold = TextStyle::new().with_bold(true);
    t.spans = vec![Span { start: 1, end: 3, style: bold }];
    assert_eq!(t.style_borders(4), vec![(0, None), (1, Some(bold)), (3, None)]);
    assert_eq!(t.style_borders(0), vec![(0, None)]);
    assert_eq!(
        t.style_fragments("abcd"),
        vec![("a".to_string(), None), ("bc".to_string(), Some(bold)), ("d".to_string(), None)]
    );
}

#[test]
fn style_fragments_snap_to_ligature_starts() {
    let bold = TextStyle::new().with_bold(true);
    let mut first = semi("fig");
    first.spans = vec![Span { start: 1, end: 3, style: bold }];
    assert_eq!(first.style_fragments("fig"), vec![("fi".to_string(), None), ("g".to_string(), Some(bold))]);
    let mut last = Typography::new("fig", TextStyle::default(), semi_font(), 0, true, true, Some(LigatureStyleMethod::Last));
    last.spans = vec![Span { start: 1, end: 3, style: bold }];
    assert_eq!(last.style_fragments("fig"), vec![("fig".to_string(), Some(bold))]);
}

#[test]
fn justify_full_spreads_spaces() {
    let t = semi("A B");
    assert_eq!(t.justify_full(10, "A B", vec![("A B".to_string(), None)]), vec![("A  B".to_string(), None)]);
    assert_eq!(t.justify_full(10, "AB", vec![("AB".to_string(), None)]), vec![("AB".to_string(), None)]);
}

#[test]
fn render_line_segments() {
    let t = semi("A");
    let segs = t.render_line(10, JustifyMethod::Default);
    let got: Vec<(String, Option<TextStyle>)> = segs.into_iter().map(|s| (s.text, s.style)).collect();
    let want: Vec<(String, Option<TextStyle>)> = vec![
        ("╭─╮".to_string(), None),
        ("".to_string(), None),
        ("\n".to_string(), None),
        ("├─┤".to_string(), None),
        ("".to_string(), None),
        ("\n".to_string(), None),
        ("╵ ╵".to_string(), None),
        ("".to_string(), None),
        ("\n".to_string(), None),
    ];
    assert_eq!(got, want);
}

#[test]
fn render_line_pads_and_indents() {
    let t = semi("A");
    let segs = t.render_line(5, JustifyMethod::Right);
    let texts: Vec<String> = segs.into_iter().map(|s| s.text).collect();
    assert_eq!(texts[0], "  ");
    assert_eq!(texts[1], "╭─╮");
    assert_eq!(texts[2], "");
    assert_eq!(texts[3], "\n");
    assert!(t.try_render_line(5, JustifyMethod::Right).is_some());
}

#[test]
fn invalid_ligature_pattern_is_refused() {
    let mut ligs = Glyphs::new();
    ligs.insert("((".to_string(), vec!["x".to_string()]);
    let mut glyphs = Glyphs::new();
    glyphs.insert("a".to_string(), vec!["a".to_string()]);
    let font = Arc::new(Font::new("bad".to_string(), glyphs, ligs, 0, 1, None, None, None, None, None));
    let t = Typography::new("a((", TextStyle::default(), font, 0, true, true, None);
    assert!(t.try_split_glyphs("a((").is_none());
    assert!(t.try_rendered_width("a((").is_none());
    assert!(t.try_render_line(10, JustifyMethod::Default).is_none());
    assert!(!t.is_measurable(3));
    assert!(!t.is_renderable(3, 10));
}

#[test]
fn test_wrap_respects_width() {
    let font = semi_font();
    let t = Typography::new("Hello World", TextStyle::default(), font, 0, true, true, None);
    let lines = t.wrap(5, None, None, None);
    assert!(lines.len() >= 2, "expected at least 2 lines, got {}", lines.len());
}

#[test]
fn wrap_breaks_lines_and_words() {
    let t = semi("AB CD\nE");
    let lines = t.wrap(7, None, None, None);
    let texts: Vec<&str> = lines.iter().map(|l| l.plain()).collect();
    assert_eq!(texts, vec!["AB", "CD", "E"]);
    for l in &lines {
        assert!(l.rendered_width(l.plain()) <= 7);
        assert!(l.overflow.is_none());
    }
    let whole = t.wrap(30, None, None, Some(true));
    let texts: Vec<&str> = whole.iter().map(|l| l.plain()).collect();
    assert_eq!(texts, vec!["AB CD", "E"]);
    let cut = t.wrap(7, None, None, Some(true));
    assert_eq!(cut.iter().map(|l| l.plain()).collect::<Vec<_>>(), vec!["AB", "E"]);
    let cropped = semi("ABCDEF").wrap(7, Some(OverflowMethod::Crop), None, None);
    assert_eq!(cropped.iter().map(|l| l.plain()).collect::<Vec<_>>(), vec!["AB"]);
    assert!(semi("x").try_wrap(7, None, None, None).is_some());
}

#[test]
fn from_markup_reads_styles() {
    let t = Typography::from_markup(
        "[bold]Hi[/bold] there",
        TextStyle::new(),
        semi_font(),
        0,
        true,
        true,
        None,
        Some(JustifyMethod::Center),
        None,
    )
    .unwrap();
    assert_eq!(t.plain(), "Hi there");
    assert_eq!(t.justify, Some(JustifyMethod::Center));
    assert_eq!(t.spans.len(), 1);
    assert_eq!((t.spans[0].start, t.spans[0].end), (0, 2));
    assert_eq!(t.spans[0].style.bold, Some(true));
    let bad = Typography::from_markup("[/]x", TextStyle::new(), semi_font(), 0, true, true, None, None, None);
    assert!(bad.is_err());
}

#[test]
fn wrap_keeps_each_line_spans() {
    let mk = |m: &str| {
        Typography::from_markup(m, TextStyle::new(), semi_font(), 0, true, true, None, None, None).unwrap()
    };
    let t = mk("[bold]AB[/bold] CD");
    let lines = t.wrap(7, None, None, None);
    assert_eq!(lines.iter().map(|l| l.plain()).collect::<Vec<_>>(), vec!["AB", "CD"]);
    assert_eq!(lines[0].spans.len(), 1);
    assert_eq!((lines[0].spans[0].start, lines[0].spans[0].end), (0, 2));
    assert_eq!(lines[0].spans[0].style.bold, Some(true));
    assert!(lines[1].spans.is_empty());
    let whole = t.wrap(30, None, None, None);
    assert_eq!(whole.len(), 1);
    assert_eq!(whole[0].spans, t.spans);
    let cropped = mk("[bold]ABCDEF[/bold]").wrap(7, Some(OverflowMethod::Crop), None, None);
    assert_eq!(cropped[0].plain(), "AB");
    assert_eq!(cropped[0].spans.len(), 1);
    assert_eq!((cropped[0].spans[0].start, cropped[0].spans[0].end), (0, 2));
}
