use dxf_parser::pairs::parse_pairs;
use dxf_parser::report::{assemble_warnings, block_report, text_less_exec, Outcome};
use dxf_parser::scan::{scan_blocks, scan_entities};

fn drew(n: usize) -> Outcome {
    Outcome { produced: Some(n), partial: false, note: None }
}

fn failed() -> Outcome {
    Outcome { produced: None, partial: false, note: None }
}

#[test]
fn empty_section_gives_the_notice() {
    let ps = parse_pairs("0\nSECTION\n2\nENTITIES\n0\nENDSEC\n0\nEOF\n").expect("pairs");
    let records = scan_entities(&ps);
    let warnings = assemble_warnings(&records, &[], Vec::new());
    assert_eq!(warnings, vec!["No renderable entities were found in ENTITIES section.".to_string()]);
}

#[test]
fn clean_drawing_has_no_warnings() {
    let ps = parse_pairs("0\nSECTION\n2\nENTITIES\n0\nLINE\n0\nTEXT\n0\nENDSEC\n").expect("pairs");
    let records = scan_entities(&ps);
    let warnings = assemble_warnings(&records, &[drew(1), drew(1)], Vec::new());
    assert!(warnings.is_empty());
}

#[test]
fn malformed_polyline_is_reported() {
    let ps = parse_pairs("0\nSECTION\n2\nENTITIES\n0\nPOLYLINE\n70\n1\n0\nVERTEX\n10\n0\n20\n0\n0\nENDSEC\n0\nEOF\n")
        .expect("pairs");
    let records = scan_entities(&ps);
    assert_eq!(records.len(), 1);
    let warnings = assemble_warnings(&records, &[failed()], Vec::new());
    assert_eq!(
        warnings,
        vec![
            "Skipped malformed POLYLINE entity.".to_string(),
            "No renderable entities were found in ENTITIES section.".to_string(),
        ]
    );
}

#[test]
fn unsupported_types_are_tallied_in_order() {
    let ps = parse_pairs("0\nSECTION\n2\nENTITIES\n0\nVIEWPORT\n0\nLINE\n0\nBODY\n0\nVIEWPORT\n0\nMLEADER\n0\nENDSEC\n")
        .expect("pairs");
    let records = scan_entities(&ps);
    let outcomes = [failed(), drew(1), failed(), failed(), failed()];
    let warnings = assemble_warnings(&records, &outcomes, vec!["block note".to_string()]);
    assert_eq!(
        warnings,
        vec![
            "Skipped malformed MULTILEADER entity.".to_string(),
            "Unsupported entity type BODY encountered 1 time(s).".to_string(),
            "Unsupported entity type VIEWPORT encountered 2 time(s).".to_string(),
            "block note".to_string(),
        ]
    );
}

#[test]
fn hatch_and_insert_warnings() {
    let ps = parse_pairs("0\nSECTION\n2\nENTITIES\n0\nHATCH\n0\nINSERT\n0\nHATCH\n0\nENDSEC\n").expect("pairs");
    let records = scan_entities(&ps);
    let outcomes = [
        Outcome { produced: Some(1), partial: true, note: None },
        Outcome {
            produced: None,
            partial: false,
            note: Some("Unknown block reference in INSERT: MISSING".to_string()),
        },
        Outcome { produced: None, partial: true, note: None },
    ];
    let warnings = assemble_warnings(&records, &outcomes, Vec::new());
    assert_eq!(
        warnings,
        vec![
            "HATCH entity contains unsupported boundary edges; rendered partial boundary.".to_string(),
            "Unknown block reference in INSERT: MISSING".to_string(),
            "Skipped malformed INSERT entity.".to_string(),
            "Skipped malformed HATCH entity.".to_string(),
        ]
    );
}

#[test]
fn block_warnings_and_filled_blocks() {
    let ps = parse_pairs("0\nSECTION\n2\nBLOCKS\n0\nBLOCK\n2\nB1\n0\nHATCH\n0\nINSERT\n0\nENDBLK\n0\nBLOCK\n8\n0\n0\nLINE\n0\nENDBLK\n0\nBLOCK\n2\nB3\n0\nLINE\n0\nDIMENSION\n0\nENDBLK\n0\nENDSEC\n")
        .expect("pairs");
    let blocks = scan_blocks(&ps);
    assert_eq!(blocks.len(), 3);
    let outcomes = vec![
        vec![Outcome { produced: Some(1), partial: true, note: None }, failed()],
        vec![drew(1)],
        vec![failed(), drew(3)],
    ];
    let (warnings, filled) = block_report(&blocks, &outcomes);
    assert_eq!(
        warnings,
        vec![
            "BLOCK B1 contains partial HATCH boundary rendering.".to_string(),
            "Nested INSERT in BLOCK B1 is not expanded.".to_string(),
            "Encountered BLOCK without a valid name.".to_string(),
        ]
    );
    assert_eq!(filled, vec![true, true, false]);
}

#[test]
fn text_order_is_string_order() {
    let cases = [("A", "B"), ("AB", "A"), ("", "A"), ("Z", "a"), ("SAME", "SAME"), ("é", "z")];
    for (a, b) in cases {
        let ac: Vec<char> = a.chars().collect();
        let bc: Vec<char> = b.chars().collect();
        assert_eq!(text_less_exec(&ac, &bc), a < b, "{a} {b}");
    }
}
