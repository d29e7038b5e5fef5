use dxf_parser::pairs::{parse_pairs, Pair};
use dxf_parser::plans::{dimension_text, find_block, plan_dimension, plan_insert};
use dxf_parser::scan::{scan_blocks, BlockRecord};

fn pairs(dxf: &str) -> Vec<Pair> {
    parse_pairs(dxf).expect("pairs")
}

fn blocks() -> Vec<BlockRecord> {
    let ps = pairs("0\nSECTION\n2\nBLOCKS\n0\nBLOCK\n2\nB1\n0\nENDBLK\n0\nBLOCK\n2\nB2\n0\nENDBLK\n0\nBLOCK\n2\nB1\n0\nENDBLK\n0\nENDSEC\n");
    scan_blocks(&ps)
}

#[test]
fn later_block_definition_wins() {
    let bs = blocks();
    assert_eq!(find_block(&bs, "B1"), Some(2));
    assert_eq!(find_block(&bs, "B2"), Some(1));
    assert_eq!(find_block(&bs, "b1"), None);
}

#[test]
fn insert_without_name() {
    let (plan, note) = plan_insert(&pairs("10\n0\n20\n0\n"), &blocks());
    assert!(plan.is_none());
    assert_eq!(note, Some("INSERT is missing block name (code 2).".to_string()));
}

#[test]
fn insert_unknown_block() {
    let (plan, note) = plan_insert(&pairs("2\nMISSING\n10\n0\n20\n0\n"), &blocks());
    assert!(plan.is_none());
    assert_eq!(note, Some("Unknown block reference in INSERT: MISSING".to_string()));
}

#[test]
fn insert_single_cell() {
    let (plan, note) = plan_insert(&pairs("2\nB2\n70\n0\n71\nx\n"), &blocks());
    let plan = plan.expect("plan");
    assert_eq!((plan.block, plan.rows, plan.cols), (1, 1, 1));
    assert_eq!(note, None);
}

#[test]
fn insert_array_note() {
    let (plan, note) = plan_insert(&pairs("2\nB1\n70\n3\n71\n2\n"), &blocks());
    let plan = plan.expect("plan");
    assert_eq!((plan.block, plan.rows, plan.cols), (2, 2, 3));
    assert_eq!(note, Some("INSERT array expanded for block B1: 2 row(s) x 3 column(s).".to_string()));
}

#[test]
fn dimension_with_filled_block() {
    let bs = blocks();
    let (block, note) = plan_dimension(&pairs("2\nB2\n2\nB1\n"), &bs, &[false, true, false]);
    assert_eq!(block, Some(1));
    assert_eq!(note, None);
}

#[test]
fn dimension_with_empty_block() {
    let bs = blocks();
    let (block, note) = plan_dimension(&pairs("2\nB1\n"), &bs, &[true, true, false]);
    assert_eq!(block, None);
    assert_eq!(
        note,
        Some("DIMENSION block B1 did not contain renderable entities; using fallback geometry.".to_string())
    );
}

#[test]
fn dimension_unknown_or_unnamed() {
    let bs = blocks();
    let (block, note) = plan_dimension(&pairs("2\nMISSING\n13\n0\n"), &bs, &[true, true, true]);
    assert_eq!(block, None);
    assert_eq!(
        note,
        Some("Unknown block reference in DIMENSION: MISSING; using fallback geometry.".to_string())
    );
    let (block, note) = plan_dimension(&pairs("2\n\n13\n0\n"), &bs, &[true, true, true]);
    assert_eq!((block, note), (None, None));
}

#[test]
fn dimension_label_text() {
    assert_eq!(dimension_text(&pairs("1\n<>\n")), None);
    assert_eq!(dimension_text(&pairs("13\n0\n")), None);
    assert_eq!(dimension_text(&pairs("1\n{12 mm}\n1\nlater\n")), Some("12 mm".to_string()));
}
