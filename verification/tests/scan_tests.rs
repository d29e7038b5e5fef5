use dxf_parser::pairs::{parse_pairs, Pair};
use dxf_parser::scan::{entity_type, read_drawing, scan_blocks, scan_entities, scan_polyline, EntityType};

fn pairs(dxf: &str) -> Vec<Pair> {
    parse_pairs(dxf).expect("pairs")
}

fn records(ps: &[Pair]) -> Vec<(String, usize, usize)> {
    scan_entities(ps).into_iter().map(|r| (r.kind, r.start, r.end)).collect()
}

#[test]
fn entities_of_a_simple_line() {
    let ps = pairs("0\nSECTION\n2\nENTITIES\n0\nLINE\n8\n0\n10\n0\n20\n0\n11\n20\n21\n10\n0\nENDSEC\n0\nEOF\n");
    assert_eq!(records(&ps), vec![("LINE".to_string(), 2, 8)]);
}

#[test]
fn empty_entities_section_has_no_records() {
    let ps = pairs("0\nSECTION\n2\nENTITIES\n0\nENDSEC\n0\nEOF\n");
    assert!(records(&ps).is_empty());
}

#[test]
fn markers_are_upper_cased_and_sections_matched_in_any_case() {
    let ps = pairs("0\nsection\n2\nentities\n0\nline\n0\nCircle\n0\nendsec\n0\nLINE\n");
    assert_eq!(
        records(&ps),
        vec![("LINE".to_string(), 2, 3), ("CIRCLE".to_string(), 3, 4)]
    );
}

#[test]
fn polyline_record_takes_its_vertices() {
    let ps = pairs("0\nSECTION\n2\nENTITIES\n0\nPOLYLINE\n8\nCENTER\n70\n1\n0\nVERTEX\n10\n0\n20\n0\n30\n0\n0\nVERTEX\n10\n10\n20\n0\n30\n0\n0\nVERTEX\n10\n10\n20\n5\n30\n0\n0\nSEQEND\n0\nENDSEC\n0\nEOF\n");
    assert_eq!(records(&ps), vec![("POLYLINE".to_string(), 2, 18)]);
    let scan = scan_polyline(&ps, 2);
    assert_eq!(scan.layer, Some("CENTER".to_string()));
    assert_eq!(scan.flags, 1);
    assert!(scan.closed);
    assert!(scan.complete);
    assert_eq!(scan.next, 18);
    let spans: Vec<(usize, usize, bool)> = scan.vertices.iter().map(|v| (v.start, v.end, v.face)).collect();
    assert_eq!(spans, vec![(6, 9, false), (10, 13, false), (14, 17, false)]);
}

#[test]
fn polyline_without_seqend_is_incomplete() {
    let ps = pairs("0\nSECTION\n2\nENTITIES\n0\nPOLYLINE\n70\n1\n0\nVERTEX\n10\n0\n20\n0\n0\nENDSEC\n0\nEOF\n");
    let scan = scan_polyline(&ps, 2);
    assert!(!scan.complete);
    assert_eq!(scan.vertices.len(), 1);
    assert_eq!(scan.next, 7);
    assert_eq!(records(&ps), vec![("POLYLINE".to_string(), 2, 7)]);
}

#[test]
fn polyface_face_records_are_marked() {
    let ps = pairs("0\nSECTION\n2\nENTITIES\n0\nPOLYLINE\n70\n64\n0\nVERTEX\n70\n64\n10\n0\n20\n0\n30\n0\n0\nVERTEX\n70\n64\n10\n10\n20\n0\n30\n0\n0\nVERTEX\n70\n128\n71\n1\n72\n2\n0\nSEQEND\n0\nENDSEC\n0\nEOF\n");
    let scan = scan_polyline(&ps, 2);
    let faces: Vec<bool> = scan.vertices.iter().map(|v| v.face).collect();
    assert_eq!(faces, vec![false, false, true]);
    assert!(!scan.closed);
    assert_eq!(scan.flags, 64);
}

#[test]
fn closed_flag_bit_32() {
    let ps = pairs("0\nPOLYLINE\n70\n32\n0\nSEQEND\n");
    let scan = scan_polyline(&ps, 0);
    assert!(scan.closed);
    assert!(scan.complete);
    assert_eq!(scan.next, 3);
}

#[test]
fn unsupported_markers_are_records_too() {
    let ps = pairs("0\nSECTION\n2\nENTITIES\n0\nVIEWPORT\n8\nV\n0\nSEQEND\n0\nENDSEC\n");
    assert_eq!(
        records(&ps),
        vec![("VIEWPORT".to_string(), 2, 4), ("SEQEND".to_string(), 4, 5)]
    );
}

#[test]
fn blocks_of_a_blocks_section() {
    let ps = pairs("0\nSECTION\n2\nBLOCKS\n0\nBLOCK\n8\n0\n2\nB1\n10\n0\n20\n0\n30\n0\n0\nLINE\n8\n0\n10\n0\n20\n0\n11\n5\n21\n0\n0\nENDBLK\n0\nBLOCK\n10\n1\n0\nINSERT\n2\nB1\n0\nENDBLK\n0\nENDSEC\n0\nSECTION\n2\nENTITIES\n0\nINSERT\n2\nB1\n0\nENDSEC\n0\nEOF\n");
    let blocks = scan_blocks(&ps);
    assert_eq!(blocks.len(), 2);
    assert_eq!(blocks[0].name, Some("B1".to_string()));
    assert_eq!((blocks[0].header_start, blocks[0].header_end), (3, 8));
    let kinds: Vec<(String, usize, usize)> =
        blocks[0].records.iter().map(|r| (r.kind.clone(), r.start, r.end)).collect();
    assert_eq!(kinds, vec![("LINE".to_string(), 8, 14)]);
    assert_eq!(blocks[1].name, None);
    assert_eq!(blocks[1].records.len(), 1);
    assert_eq!(blocks[1].records[0].kind, "INSERT");
    assert_eq!(records(&ps), vec![("INSERT".to_string(), 23, 25)]);
}

#[test]
fn entity_types_by_marker() {
    assert_eq!(entity_type("TRACE"), EntityType::Solid);
    assert_eq!(entity_type("MLEADER"), EntityType::MultiLeader);
    assert_eq!(entity_type("ATTRIB"), EntityType::Attribute);
    assert_eq!(entity_type("3DFACE"), EntityType::Face3d);
    assert_eq!(entity_type("line"), EntityType::Other);
    assert_eq!(entity_type("SEQEND"), EntityType::Other);
}

#[test]
fn read_drawing_gives_pairs_blocks_and_records() {
    let dxf = "0\nSECTION\n2\nBLOCKS\n0\nBLOCK\n2\nB1\n0\nLINE\n0\nENDBLK\n0\nENDSEC\n0\nSECTION\n2\nENTITIES\n0\nINSERT\n2\nB1\n0\nBOGUS\n0\nENDSEC\n0\nEOF\n";
    let drawing = read_drawing(dxf).expect("drawing");
    assert_eq!(drawing.pairs.len(), 14);
    assert_eq!(drawing.blocks.len(), 1);
    assert_eq!(drawing.blocks[0].name, Some("B1".to_string()));
    let kinds: Vec<String> = drawing.records.iter().map(|r| r.kind.clone()).collect();
    assert_eq!(kinds, vec!["INSERT".to_string(), "BOGUS".to_string()]);
}

#[test]
fn read_drawing_fails_only_as_the_pairs_do() {
    let bad = "x\nLINE\n";
    assert_eq!(read_drawing(bad).err(), parse_pairs(bad).err());
    assert!(read_drawing(bad).is_err());
    let odd = "0\nSECTION\n2\n";
    assert_eq!(read_drawing(odd).err(), parse_pairs(odd).err());
    assert!(read_drawing("0\nUNKNOWN\n0\nEOF\n").is_ok());
}
