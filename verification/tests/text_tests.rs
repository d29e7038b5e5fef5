use dxf_parser::pairs::{parse_pairs, Pair};
use dxf_parser::text::{
    attribute_label, collect_text_chunks_ordered, first_non_empty_text, mtext_content, normalize_text,
    text_label,
};

fn pairs(dxf: &str) -> Vec<Pair> {
    parse_pairs(dxf).expect("pairs")
}

#[test]
fn normalize_replaces_markers_and_braces() {
    assert_eq!(normalize_text("LINE1\\\\PLINE2"), "LINE1 LINE2");
    assert_eq!(normalize_text("a\\\\pb\\\\~c"), "a b c");
    assert_eq!(normalize_text("  {Bold} text  "), "Bold text");
    assert_eq!(normalize_text("{}"), "");
    assert_eq!(normalize_text("\\P"), "\\P");
}

#[test]
fn normalize_takes_matches_from_the_left() {
    // `\\\\PP`: the first `\\P` starts at the second backslash.
    assert_eq!(normalize_text("x\\\\\\PP"), "x\\ P");
}

#[test]
fn first_text_follows_code_order() {
    let ps = pairs("1\n  \n3\nSECOND\n1\nFIRST\n");
    assert_eq!(first_non_empty_text(&ps, &[1, 3]), Some("FIRST".to_string()));
    assert_eq!(first_non_empty_text(&ps, &[3, 1]), Some("SECOND".to_string()));
    assert_eq!(first_non_empty_text(&ps, &[7]), None);
}

#[test]
fn chunks_keep_pair_order() {
    let ps = pairs("304\nLINE1\n304\nLINE2\n302\nEXTRA\n40\n2.0\n1\n{}\n");
    assert_eq!(
        collect_text_chunks_ordered(&ps, &[304, 302, 303, 1]),
        Some("LINE1 LINE2 EXTRA".to_string())
    );
    assert_eq!(collect_text_chunks_ordered(&ps, &[1]), None);
}

#[test]
fn mtext_runs_chunks_together() {
    let ps = pairs("40\n2.5\n3\nLINE1\\\\P\n1\nLINE2\n");
    let raw = mtext_content(&ps).expect("content");
    assert_eq!(raw, "LINE1\\\\PLINE2");
    assert_eq!(normalize_text(&raw), "LINE1 LINE2");
    assert_eq!(mtext_content(&pairs("40\n2.5\n")), None);
}

#[test]
fn attribute_prefers_value_over_tag() {
    assert_eq!(attribute_label(&pairs("1\nVAL1\n2\nTAG_A\n")), Some("VAL1".to_string()));
    assert_eq!(attribute_label(&pairs("2\nTAG_A\n")), Some("TAG_A".to_string()));
    assert_eq!(attribute_label(&pairs("1\n{}\n2\nTAG_A\n")), None);
}

#[test]
fn label_is_none_for_blank_text() {
    assert_eq!(text_label("  "), None);
    assert_eq!(text_label(" HELLO "), Some("HELLO".to_string()));
}

#[test]
fn normalizing_twice_changes_nothing_without_braces() {
    for raw in ["  a\\\\PPb  ", "\\\\P\\\\p\\\\~", "x\\\\\\Py", " plain text "] {
        let once = normalize_text(raw);
        assert_eq!(normalize_text(&once), once);
    }
    // A brace can hide a marker.
    let once = normalize_text("\\{\\P");
    assert_eq!(once, "\\\\P");
    assert_eq!(normalize_text(&once), "");
}
