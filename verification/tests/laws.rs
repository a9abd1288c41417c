use std::sync::Arc;

use rich_typography_rs::fit::{RenderSettings, WrapSettings};
use rich_typography_rs::font::Font;
use rich_typography_rs::glyph::Glyphs;
use rich_typography_rs::style::{Color, JustifyMethod, OverflowMethod, Span, TextStyle};
use rich_typography_rs::styling::MutableSpan;
use rich_typography_rs::typography::Typography;

fn g(rows: &[&str]) -> Vec<String> {
    rows.iter().map(|r| r.to_string()).collect()
}

fn semi(text: &str) -> Typography {
    let font = Arc::new(Font::builtin("condensedsemi").expect("condensedsemi not found"));
    Typography::new(text, TextStyle::default(), font, 0, true, true, None)
}

#[test]
fn lookup_gives_back_what_was_inserted() {
    let mut m = Glyphs::new();
    m.insert("a".to_string(), g(&["1"]));
    m.insert("b".to_string(), g(&["2"]));
    m.insert("a".to_string(), g(&["3"]));
    assert_eq!(m.get("a"), Some(&g(&["3"])));
    assert_eq!(m.get("b"), Some(&g(&["2"])));
    assert_eq!(m.get("c"), None);
}

#[test]
fn extend_takes_the_other_maps_glyphs() {
    let mut m = Glyphs::new();
    m.insert("a".to_string(), g(&["1"]));
    m.insert("b".to_string(), g(&["2"]));
    let mut other = Glyphs::new();
    other.insert("b".to_string(), g(&["9"]));
    other.insert("c".to_string(), g(&["8"]));
    m.extend(other);
    assert_eq!(m.get("a"), Some(&g(&["1"])));
    assert_eq!(m.get("b"), Some(&g(&["9"])));
    assert_eq!(m.get("c"), Some(&g(&["8"])));
}

#[test]
fn boundaries_never_positive() {
    let left = g(&["ab  ", "a", ""]);
    let right = g(&["  cd", "bcd", "x"]);
    for spacing in [-3, -1, 0, 2] {
        for b in Glyphs::boundary(&left, &right, spacing) {
            assert!(b <= 0);
        }
        for b in Glyphs::bg_boundary(&left, &right, spacing) {
            assert!(b <= 0);
        }
    }
}

#[test]
fn null_style_is_neutral_and_combining_associates() {
    let a = TextStyle::new().with_bold(true).with_color(Color::Standard(1));
    let b = TextStyle::new().with_bold(false).with_underline(true);
    let c = TextStyle::new().with_color(Color::Rgb { r: 1, g: 2, b: 3 }).with_strike(true);
    assert_eq!(TextStyle::new().combine(&a), a);
    assert_eq!(a.combine(&TextStyle::new()), a);
    assert_eq!(a.combine(&b).combine(&c), a.combine(&b.combine(&c)));
    assert_eq!(a.combine(&b).bold, Some(false));
}

#[test]
fn overlapping_within_the_spaces_keeps_other_characters() {
    assert_eq!(Glyphs::merge_line("ab  ", " cd", -3), "abcd");
    assert_eq!(Glyphs::merge_line("x ", "y", -1), "xy");
}

#[test]
fn glyph_keys_give_back_the_text() {
    let t = semi("");
    for text in ["fig", "office fi", "é fi a", ""] {
        let joined: String = t.split_glyphs(text).into_iter().map(|(_, k)| k).collect();
        assert_eq!(joined, text);
    }
}

#[test]
fn stripping_control_codes_twice_changes_nothing() {
    let once = semi("a\x07b\x0bc\rd\x1b");
    assert_eq!(once.plain(), "abcd\x1b");
    let twice = semi(once.plain());
    assert_eq!(twice.plain(), once.plain());
}

#[test]
fn resolved_spans_follow_one_another() {
    let a = TextStyle::new().with_bold(true);
    let b = TextStyle::new().with_underline(true);
    let spans = vec![
        MutableSpan::new(0, 4, Some(a)),
        MutableSpan::new(5, 2, None),
        MutableSpan::new(2, 6, Some(b)),
        MutableSpan::new(3, 3, None),
    ];
    let r = MutableSpan::resolve(spans);
    let got: Vec<(usize, usize, Option<TextStyle>)> = r.iter().map(|s| (s.start, s.end, s.style)).collect();
    assert_eq!(got, vec![(0, 2, Some(a)), (2, 3, Some(b)), (3, 3, None)]);
    for s in &r {
        assert!(s.start <= s.end);
    }
    for w in r.windows(2) {
        assert!(w[0].end <= w[1].start);
    }
}

#[test]
fn style_fragments_give_back_the_text() {
    let mut t = semi("office fig");
    let bold = TextStyle::new().with_bold(true);
    t.spans = vec![Span { start: 1, end: 4, style: bold }, Span { start: 8, end: 10, style: bold }];
    let joined: String = t.style_fragments("office fig").into_iter().map(|(s, _)| s).collect();
    assert_eq!(joined, "office fig");
    let borders = t.style_borders(10);
    assert_eq!(borders[0].0, 0);
    for w in borders.windows(2) {
        assert!(w[0].0 < w[1].0);
    }
}

#[test]
fn truncated_text_fits() {
    for width in [0usize, 3, 5, 8, 11] {
        for overflow in [OverflowMethod::Crop, OverflowMethod::Fold] {
            let mut t = semi("ABCDEF");
            t.truncate(width, Some(overflow));
            assert!(t.rendered_width(t.plain()) <= width || t.plain().is_empty());
        }
    }
}

#[test]
fn clipped_spans_stay_inside_the_text() {
    let mut t = semi("abcdefgh");
    let bold = TextStyle::new().with_bold(true);
    t.spans = vec![Span { start: 0, end: 8, style: bold }, Span { start: 6, end: 7, style: bold }];
    t.set_plain("abcd");
    for s in &t.spans {
        assert!(s.start < 4 && s.end <= 4);
    }
}

#[test]
fn every_builtin_name_loads() {
    for name in Font::builtin_names() {
        assert!(Font::builtin(&name).is_some());
    }
}

#[test]
fn new_font_has_its_space() {
    let mut glyphs = Glyphs::new();
    glyphs.insert("a".to_string(), g(&["a", "a", "a"]));
    let f = Font::new("t".to_string(), glyphs, Glyphs::new(), 0, 3, None, None, None, None, None);
    assert_eq!(f.get(" "), &g(&["   ", "   ", "   "]));
}

#[test]
fn wrap_settings_fall_back_in_order() {
    let mut t = semi("x");
    assert_eq!(
        t.wrap_settings(None, None, None),
        WrapSettings { overflow: OverflowMethod::Fold, no_wrap: false, tab_size: 8 }
    );
    t.overflow = Some(OverflowMethod::Ignore);
    t.tab_size = Some(4);
    assert_eq!(
        t.wrap_settings(None, None, None),
        WrapSettings { overflow: OverflowMethod::Ignore, no_wrap: true, tab_size: 4 }
    );
    assert_eq!(
        t.wrap_settings(Some(OverflowMethod::Crop), Some(2), Some(false)),
        WrapSettings { overflow: OverflowMethod::Crop, no_wrap: false, tab_size: 2 }
    );
    t.no_wrap = Some(true);
    assert!(t.wrap_settings(Some(OverflowMethod::Crop), None, Some(false)).no_wrap);
}

#[test]
fn render_settings_fall_back_in_order() {
    let mut t = semi("x");
    assert_eq!(
        t.render_settings(None, None, 8, true),
        RenderSettings { justify: JustifyMethod::Default, overflow: None, tab_size: 8, no_wrap: None }
    );
    t.justify = Some(JustifyMethod::Center);
    t.overflow = Some(OverflowMethod::Crop);
    t.tab_size = Some(3);
    t.no_wrap = Some(false);
    assert_eq!(
        t.render_settings(None, None, 8, true),
        RenderSettings {
            justify: JustifyMethod::Center,
            overflow: Some(OverflowMethod::Crop),
            tab_size: 3,
            no_wrap: Some(true),
        }
    );
    assert_eq!(
        t.render_settings(Some(JustifyMethod::Right), Some(OverflowMethod::Ellipsis), 8, false),
        RenderSettings {
            justify: JustifyMethod::Right,
            overflow: Some(OverflowMethod::Ellipsis),
            tab_size: 3,
            no_wrap: Some(false),
        }
    );
}

#[test]
fn style_builders_set_one_attribute() {
    let s = TextStyle::new().with_bgcolor(Color::EightBit(7));
    assert_eq!(s.bgcolor, Some(Color::EightBit(7)));
    assert_eq!(s.color, None);
    assert!(!s.is_null());
    assert!(TextStyle::new().is_null());
}

#[test]
fn division_offsets_never_decrease() {
    let t = semi("");
    for text in ["AB CD", " A  B", "ABCDEFGH IJ", "", "A B C D E"] {
        for width in [0usize, 3, 5, 9] {
            for fold in [true, false] {
                let offs = t.divide_offsets(text, width, fold);
                for w in offs.windows(2) {
                    assert!(w[0] <= w[1]);
                }
            }
        }
    }
}

#[test]
fn sheet_glyphs_have_even_rows() {
    let m = Glyphs::from_lines(&["a", "b"], &["x  yyy", "xx y y"], None).unwrap();
    for key in ["a", "b"] {
        let g = m.get(key).unwrap();
        let w = g[0].chars().count();
        assert!(g.iter().all(|row| row.chars().count() == w));
    }
    assert_eq!(m.get("a"), Some(&g(&["x ", "xx"])));
    assert_eq!(m.get("b"), Some(&g(&["yyy", "y y"])));
}

#[test]
fn merging_at_the_most_overlap_occludes_nothing() {
    let l = g(&["ab  ", "a   "]);
    let r = g(&["  cd", " xyz"]);
    let o = Glyphs::max_overlap(&l, &r);
    assert_eq!(o, 4);
    assert_eq!(Glyphs::merge(&l, &r, -(o as i32)), g(&["abcd", "axyz"]));
}

#[test]
fn rendered_segments_fit_the_width() {
    let mut t = semi("ABCDEF fi\nxy");
    let bold = TextStyle::new().with_bold(true).with_underline(true);
    t.spans = vec![Span { start: 2, end: 8, style: bold }];
    for width in [1usize, 4, 7, 30] {
        for j in [JustifyMethod::Default, JustifyMethod::Left, JustifyMethod::Center, JustifyMethod::Right] {
            for seg in t.render_line(width, j) {
                assert!(seg.text.chars().count() <= width);
            }
        }
    }
}

#[test]
fn chopped_chunks_give_back_the_text_and_fit() {
    let t = semi("");
    for text in ["ABCDEFG", "fifi ab", "A", ""] {
        for width in [0usize, 3, 6, 10] {
            let chunks = t.chop_cells(text, width);
            assert_eq!(chunks.concat(), text);
            for c in &chunks {
                assert!(c.chars().count() == 1 || t.rendered_width(c) <= width);
            }
        }
    }
}

#[test]
fn full_justification_fills_the_width() {
    let t = semi("");
    let sw = 2;
    for width in [8usize, 10, 15, 21] {
        let out = t.justify_full(width, "AB C D", vec![("AB C D".to_string(), None)]);
        let joined: String = out.into_iter().map(|(s, _)| s).collect();
        let words_width: usize = joined.split(' ').filter(|w| !w.is_empty()).map(|w| t.rendered_width(w)).sum();
        let spaces = joined.chars().filter(|c| *c == ' ').count();
        assert!(words_width + spaces * sw >= width);
        assert_eq!(joined.split(' ').filter(|w| !w.is_empty()).collect::<Vec<_>>(), vec!["AB", "C", "D"]);
    }
}

#[test]
fn justification_keeps_the_words_of_every_fragment() {
    let t = semi("");
    let bold = TextStyle::new().with_bold(true);
    let out = t.justify_full(14, "A BC D", vec![("A B".to_string(), None), ("C D".to_string(), Some(bold))]);
    let joined: String = out.iter().map(|(s, _)| s.clone()).collect();
    assert_eq!(joined.split(' ').filter(|w| !w.is_empty()).collect::<Vec<_>>(), vec!["A", "BC", "D"]);
    assert!(joined.starts_with("A "));
    assert_eq!(out[1].1, Some(bold));
}

#[test]
fn justified_rows_fill_the_width() {
    let mut t = semi("AB fi\nC");
    let bold = TextStyle::new().with_bold(true).with_bgcolor(Color::Standard(4));
    t.spans = vec![Span { start: 1, end: 4, style: bold }];
    for width in [2usize, 9, 20] {
        for j in [JustifyMethod::Left, JustifyMethod::Center, JustifyMethod::Right, JustifyMethod::Full] {
            let segs = t.render_line(width, j);
            let mut row = 0usize;
            let mut rows = 0usize;
            for seg in segs {
                if seg.text == "\n" && seg.style.is_none() {
                    assert_eq!(row, width);
                    row = 0;
                    rows += 1;
                } else {
                    row += seg.text.chars().count();
                }
            }
            assert_eq!(rows, 6);
        }
    }
}

#[test]
fn text_round_trip_keeps_clean_text() {
    let mut t = semi("a\x07bc");
    let bold = TextStyle::new().with_bold(true);
    t.spans = vec![Span { start: 0, end: 2, style: bold }];
    let font = Arc::new(Font::builtin("condensedsans").unwrap());
    let back = Typography::from_text(&t.to_text(), font, 2, false, true, None);
    assert_eq!(back.plain(), t.plain());
    assert_eq!(back.spans, t.spans);
    assert_eq!(back.adjust_spacing, 2);
    assert!(!back.use_kerning);
    assert!(back.justify.is_none() && back.overflow.is_none());
}

#[test]
fn glyph_borders_increase_within_the_text() {
    let t = semi("");
    for text in ["fig fi", "abc", "fifi"] {
        let b = t.glyph_borders(text);
        assert_eq!(b[0], 0);
        for w in b.windows(2) {
            assert!(w[0] < w[1]);
        }
        assert!(*b.last().unwrap() < text.chars().count());
    }
}

#[test]
fn division_ends_at_the_text_length() {
    let t = semi("");
    for text in ["AB CD", "A  B", "ABCDEFGH IJ", "A B C D E", "AB "] {
        for width in [0usize, 3, 5, 9] {
            for fold in [true, false] {
                let offs = t.divide_offsets(text, width, fold);
                assert_eq!(*offs.last().unwrap(), text.chars().count());
            }
        }
    }
    // a leading space counts as a break before the first word
    assert_eq!(*t.divide_offsets(" A", 9, false).last().unwrap(), 3);
}

#[test]
fn merging_keeps_rows_even() {
    let l = g(&["ab", "cd", "ef"]);
    let r = g(&["xyz", "uvw"]);
    for spacing in [-2i32, -1, 0, 3] {
        let m = Glyphs::merge(&l, &r, spacing);
        assert_eq!(m.len(), 2);
        for row in &m {
            assert_eq!(row.chars().count() as i32, 2 + 3 + spacing);
        }
    }
}

#[test]
fn missing_key_gives_the_placeholder() {
    let f = Font::builtin("condensedsemi").expect("condensedsemi not found");
    assert!(!f.contains("zz"));
    let p = Font::make_placeholder(f.line_height());
    assert_eq!(f.get("zz"), &p);
    assert!(f.contains("fi"));
    assert_ne!(f.get("fi"), &p);
}

#[test]
fn glyph_borders_start_at_zero() {
    let t = semi("");
    assert_eq!(t.glyph_borders("abc"), vec![0, 1, 2]);
    assert_eq!(t.glyph_borders("fix")[0], 0);
    assert_eq!(t.glyph_borders(""), Vec::<usize>::new());
}

#[test]
fn style_borders_stay_before_the_end() {
    let t = semi("");
    let b = t.style_borders(0);
    assert_eq!(b.len(), 1);
    assert_eq!(b[0].0, 0);
}

#[test]
fn glyph_pieces_come_in_order() {
    let t = semi("");
    for text in ["fix", "fifi", "a fi b", "", "ffi"] {
        let p = t.split_glyphs(text);
        for w in p.windows(2) {
            assert!(w[0].0 < w[1].0);
        }
        for (i, _) in &p {
            assert!(*i < text.chars().count());
        }
    }
    assert_eq!(
        t.split_glyphs("fix"),
        vec![(0, "fi".to_string()), (2, "x".to_string())]
    );
}

#[test]
fn glyph_borders_are_where_pieces_start() {
    let t = semi("");
    for text in ["fix", "fifi", "a fi b", "", "ffi", "abc"] {
        let starts: Vec<usize> = t.split_glyphs(text).iter().map(|(i, _)| *i).collect();
        assert_eq!(t.glyph_borders(text), starts);
    }
}

#[test]
fn measurable_and_renderable_follow_the_i32_range() {
    let t = semi("AB");
    assert!(t.is_measurable(5));
    assert!(t.is_measurable(0));
    assert!(t.is_renderable(5, 80));
    assert!(!t.is_renderable(0, usize::MAX));
    assert!(!t.is_measurable(usize::MAX));
    assert_eq!(t.try_render_line(usize::MAX, JustifyMethod::Left).is_none(), true);
    assert_eq!(t.try_rendered_width("AB"), Some(t.rendered_width("AB")));
}

#[test]
fn glyph_borders_are_where_nonempty_pieces_start() {
    let mut ligs = Glyphs::new();
    ligs.insert("fi".to_string(), g(&["x"]));
    ligs.insert("".to_string(), g(&["y"]));
    let mut glyphs = Glyphs::new();
    glyphs.insert("a".to_string(), g(&["a"]));
    let font = Arc::new(Font::new("empty-key".to_string(), glyphs, ligs, 0, 1, None, None, None, None, None));
    let t = Typography::new("", TextStyle::default(), font, 0, true, true, None);
    for text in ["fix", "afia", "", "ab"] {
        let starts: Vec<usize> = t
            .split_glyphs(text)
            .iter()
            .filter(|(_, k)| !k.is_empty())
            .map(|(i, _)| *i)
            .collect();
        assert_eq!(t.glyph_borders(text), starts);
    }
}

#[test]
fn division_offsets_strictly_increase() {
    let t = semi("");
    for text in ["AB CD", " A  B", "ABCDEFGH IJ", "", "A B C D E", "AB  "] {
        for width in [0usize, 3, 5, 9] {
            for fold in [true, false] {
                let offs = t.divide_offsets(text, width, fold);
                for w in offs.windows(2) {
                    assert!(w[0] < w[1]);
                }
            }
        }
    }
}
