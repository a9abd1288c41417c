use rich_typography_rs::glyph::Glyphs;

fn g(rows: &[&str]) -> Vec<String> {
    rows.iter().map(|r| r.to_string()).collect()
}

#[test]
fn merge_line_positive_spacing_inserts_spaces() {
    assert_eq!(Glyphs::merge_line("ab", "cd", 2), "ab  cd");
    assert_eq!(Glyphs::merge_line("ab", "cd", 0), "abcd");
}

#[test]
fn merge_line_negative_spacing_overlaps() {
    assert_eq!(Glyphs::merge_line("ab ", " cd", -1), "ab cd");
    assert_eq!(Glyphs::merge_line("ab", "cd", -1), "acd");
    assert_eq!(Glyphs::merge_line("", "", -2), "  ");
}

#[test]
fn merge_glyphs_row_by_row() {
    let m = Glyphs::merge(&g(&["a ", "b "]), &g(&[" x", "yy"]), -1);
    assert_eq!(m, g(&["a x", "byy"]));
    let n = Glyphs::merge(&g(&["a", "b", "c"]), &g(&["x"]), 1);
    assert_eq!(n, g(&["a x"]));
}

#[test]
fn trail_and_lead_count_spaces() {
    assert_eq!(Glyphs::line_trail("a  "), 2);
    assert_eq!(Glyphs::line_lead("  a "), 2);
    assert_eq!(Glyphs::line_trail(""), 0);
}

#[test]
fn max_overlap_takes_least_row() {
    assert_eq!(Glyphs::max_overlap(&g(&["ab  ", "cd "]), &g(&["  x", " yy"])), 2);
    assert_eq!(Glyphs::max_overlap(&g(&[]), &g(&["x"])), 0);
}

#[test]
fn boundary_per_row() {
    assert_eq!(Glyphs::boundary(&g(&["ab "]), &g(&[" c"]), -1), vec![-1]);
    assert_eq!(Glyphs::boundary(&g(&["ab"]), &g(&["cd"]), 2), vec![0]);
}

#[test]
fn bg_boundary_votes() {
    assert_eq!(Glyphs::bg_boundary(&g(&["ab"]), &g(&["cd"]), -2), vec![-2]);
    assert_eq!(Glyphs::bg_boundary(&g(&["ab"]), &g(&["  "]), -2), vec![0]);
}

#[test]
fn from_lines_cuts_sheet() {
    let m = Glyphs::from_lines(&["a", "b"], &["x y", "x y"], None).unwrap();
    assert_eq!(m.get("a"), Some(&g(&["x", "x"])));
    assert_eq!(m.get("b"), Some(&g(&["y", "y"])));
    assert_eq!(m.keys(), vec!["a".to_string(), "b".to_string()]);
}

#[test]
fn from_lines_single_key_takes_whole_sheet() {
    let m = Glyphs::from_lines(&["ab"], &["x y"], None).unwrap();
    assert_eq!(m.get("ab"), Some(&g(&["x y"])));
}

#[test]
fn from_lines_errors() {
    assert_eq!(
        Glyphs::from_lines(&["a", "b", "c"], &["x y"], None).unwrap_err(),
        "Number of glyphs (2) does not match number of chars (3)."
    );
    assert_eq!(Glyphs::from_lines(&["a", "b"], &["xy", "x"], None).unwrap_err(), "Line length mismatch.");
    assert_eq!(Glyphs::from_lines(&["a"], &[], None).unwrap_err(), "No glyph rows provided");
    assert!(Glyphs::from_lines(&[], &["x"], None).unwrap().is_empty());
}

#[test]
fn get_char_map_with_separator() {
    let m = Glyphs::get_char_map(&["a", "b"], &["x|y", "x|y"], Some('|')).unwrap();
    assert_eq!(m.get("b"), Some(&g(&["y", "y"])));
}

#[test]
fn insert_replaces_and_extend_right_wins() {
    let mut m = Glyphs::new();
    assert!(m.is_empty());
    m.insert("a".to_string(), g(&["1"]));
    m.insert("a".to_string(), g(&["2"]));
    assert_eq!(m.get("a"), Some(&g(&["2"])));
    assert_eq!(m.keys().len(), 1);
    let mut o = Glyphs::new();
    o.insert("a".to_string(), g(&["3", "3"]));
    o.insert("b".to_string(), g(&["4"]));
    m.extend(o);
    assert_eq!(m.get("a"), Some(&g(&["3", "3"])));
    assert!(m.contains_key("b"));
    assert!(!m.contains_key("c"));
    assert_eq!(m.line_height(), 2);
}
