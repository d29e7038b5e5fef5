use dxf_parser::fields::{
    choose_boundary, close_outline, collect_point_sequence, edge_ccw, last_number_in, line_edge_points, line_points,
    lwpolyline_points, number_for_code, parse_hatch_polyline_path, point_for_codes, point_from_last,
    solid_outline, spline_outline, split_runs, hatch_partial, is_polyline_path, label_anchor,
    number_among, pick_boundary, read_polyline,
};
use dxf_parser::pairs::{parse_pairs, Pair};

fn read(dxf: &str) -> (Vec<Pair>, Vec<Option<f64>>) {
    let ps = parse_pairs(dxf).expect("pairs");
    let nums = ps.iter().map(|p| p.value.parse::<f64>().ok()).collect();
    (ps, nums)
}

#[test]
fn first_and_last_numbers() {
    let (ps, nums) = read("10\n1\n10\n2\n20\nx\n");
    assert_eq!(number_for_code(&ps, &nums, 10), Some(1.0));
    assert_eq!(number_for_code(&ps, &nums, 20), None);
    assert_eq!(number_for_code(&ps, &nums, 30), None);
    assert_eq!(last_number_in(&ps, &nums, 0, ps.len(), 10, None), Some(2.0));
    assert_eq!(last_number_in(&ps, &nums, 0, ps.len(), 30, Some(7.0)), Some(7.0));
    assert_eq!(last_number_in(&ps, &nums, 0, ps.len(), 20, Some(7.0)), None);
}

#[test]
fn points_from_first_and_last_pairs() {
    let (ps, nums) = read("10\n1\n20\n2\n10\n3\n20\n4\n30\nbad\n");
    assert_eq!(point_for_codes(&ps, &nums, 10, 20, 30, 0.0), Some((1.0, 2.0, 0.0)));
    assert_eq!(point_from_last(&ps, &nums, 10, 20, 30, 0.0), Some((3.0, 4.0, 0.0)));
    assert_eq!(point_for_codes(&ps, &nums, 11, 21, 31, 0.0), None);
}

#[test]
fn line_end_points() {
    let (ps, nums) = read("8\n0\n10\n0\n20\n0\n11\n20\n21\n10\n");
    assert_eq!(line_points(&ps, &nums, 0.0), Some(((0.0, 0.0, 0.0), (20.0, 10.0, 0.0))));
    let (ps, nums) = read("10\n0\n20\n0\n11\n20\n");
    assert_eq!(line_points(&ps, &nums, 0.0), None);
}

#[test]
fn spline_fit_points_win() {
    let (ps, nums) = read("8\nCURVE\n70\n0\n11\n0\n21\n0\n31\n0\n11\n5\n21\n10\n31\n0\n11\n10\n21\n0\n31\n0\n");
    assert_eq!(
        collect_point_sequence(&ps, &nums, 11, 21, 31, 0.0),
        vec![(0.0, 0.0, 0.0), (5.0, 10.0, 0.0), (10.0, 0.0, 0.0)]
    );
    assert_eq!(spline_outline(&ps, &nums, 0.0).expect("outline").len(), 3);
}

#[test]
fn spline_control_points_and_closing() {
    let (ps, nums) = read("70\n1\n10\n0\n20\n0\n10\n10\n20\n5\n10\n20\n20\n0\n");
    let outline = spline_outline(&ps, &nums, 0.0).expect("outline");
    assert_eq!(outline.len(), 4);
    assert_eq!(outline[3], outline[0]);
}

#[test]
fn point_sequence_lookahead() {
    let (ps, nums) = read("10\n1\n30\n9\n20\n2\n10\nx\n20\n5\n10\n3\n20\nbad\n10\n4\n20\n6\n30\nq\n");
    assert_eq!(
        collect_point_sequence(&ps, &nums, 10, 20, 30, 0.0),
        vec![(1.0, 2.0, 9.0), (4.0, 6.0, 0.0)]
    );
}

#[test]
fn lwpolyline_vertices_and_flags() {
    let (ps, nums) = read("8\nL\n38\n2\n10\n0\n20\n0\n10\n1\n20\n0\n10\n1\n20\n1\n70\n1\n");
    let (points, closed) = lwpolyline_points(&ps, &nums, 0.0);
    assert_eq!(points, vec![(0.0, 0.0, 2.0), (1.0, 0.0, 2.0), (1.0, 1.0, 2.0)]);
    assert!(closed);
    let outline = close_outline(points, closed).expect("outline");
    assert_eq!(outline.len(), 4);
    assert_eq!(outline[0], outline[3]);
}

#[test]
fn lwpolyline_y_without_x_is_dropped() {
    let (ps, nums) = read("20\n5\n10\n1\n20\n2\n20\n3\n");
    let (points, closed) = lwpolyline_points(&ps, &nums, 0.0);
    assert_eq!(points, vec![(1.0, 2.0, 0.0)]);
    assert!(!closed);
}

#[test]
fn outline_needs_two_points() {
    assert_eq!(close_outline(vec![1], true), None);
    assert_eq!(close_outline(vec![1, 2], true), Some(vec![1, 2]));
    assert_eq!(close_outline(vec![1, 2, 3], true), Some(vec![1, 2, 3, 1]));
    assert_eq!(close_outline(vec![1, 2, 3], false), Some(vec![1, 2, 3]));
}

#[test]
fn solid_corner_order() {
    let (ps, nums) = read("10\n0\n20\n0\n11\n4\n21\n0\n12\n4\n22\n2\n13\n0\n23\n2\n");
    let outline = solid_outline(&ps, &nums, 0.0).expect("outline");
    assert_eq!(
        outline,
        vec![(0.0, 0.0, 0.0), (4.0, 0.0, 0.0), (0.0, 2.0, 0.0), (4.0, 2.0, 0.0), (0.0, 0.0, 0.0)]
    );
    let (ps, nums) = read("10\n0\n20\n0\n11\n4\n21\n0\n12\n4\n22\n2\n");
    assert_eq!(solid_outline(&ps, &nums, 0.0), None);
}

#[test]
fn hatch_paths_and_polyline_boundary() {
    let (ps, nums) = read("8\nFILL\n10\n0\n20\n0\n30\n0\n70\n1\n71\n0\n91\n1\n92\n3\n72\n0\n73\n1\n93\n4\n10\n0\n20\n0\n10\n10\n20\n0\n10\n10\n20\n5\n10\n0\n20\n5\n97\n0\n75\n0\n76\n1\n98\n0\n");
    let paths = split_runs(&ps, 92);
    assert_eq!(paths.len(), 1);
    assert_eq!(paths[0].flag, 3);
    let segment = &ps[paths[0].start..paths[0].end];
    let segment_nums = &nums[paths[0].start..paths[0].end];
    let outline = parse_hatch_polyline_path(segment, segment_nums, 0.0).expect("outline");
    assert_eq!(outline.len(), 5);
    assert_eq!(outline[4], (0.0, 0.0, 0.0));
}

#[test]
fn hatch_edges_split_by_type() {
    let (ps, _) = read("93\n4\n72\n1\n10\n0\n72\n2\n10\n0\n72\nx\n75\n0\n");
    let edges: Vec<(i32, usize, usize)> = split_runs(&ps, 72).iter().map(|r| (r.flag, r.start, r.end)).collect();
    assert_eq!(edges, vec![(1, 2, 3), (2, 4, 5), (0, 6, 7)]);
}

#[test]
fn hatch_line_edge_points() {
    let (ps, nums) = read("10\n0\n20\n0\n11\n8\n21\n0\n");
    assert_eq!(line_edge_points(&ps, &nums, 0.0), Some(((0.0, 0.0, 0.0), (8.0, 0.0, 0.0))));
}

#[test]
fn boundary_choice_keeps_first_longest() {
    assert_eq!(choose_boundary(&[Some(3), None, Some(5), Some(5), Some(1)]), Some(2));
    assert_eq!(choose_boundary(&[Some(1), None]), None);
    assert_eq!(choose_boundary(&[]), None);
}

#[test]
fn edge_direction() {
    let (ps, _) = read("73\n0\n73\n1\n");
    assert!(!edge_ccw(&ps));
    let (ps, _) = read("73\nx\n73\n0\n");
    assert!(edge_ccw(&ps));
    let (ps, _) = read("10\n0\n");
    assert!(edge_ccw(&ps));
}

#[test]
fn hatch_path_kinds_and_partial_flag() {
    assert!(is_polyline_path(2));
    assert!(is_polyline_path(7));
    assert!(!is_polyline_path(1));
    assert!(!is_polyline_path(0));
    let (ps, _) = read("92\n2\n93\n0\n92\n1\n93\n0\n");
    let paths = split_runs(&ps, 92);
    assert_eq!(paths.len(), 2);
    // The polyline path's entry is not read; the edge path's is.
    assert!(!hatch_partial(&paths, &[true, false]));
    assert!(hatch_partial(&paths, &[false, true]));
    assert!(!hatch_partial(&[], &[]));
}

#[test]
fn boundary_kept_is_first_of_longest() {
    let kept = pick_boundary(vec![Some(vec![1, 2]), None, Some(vec![3, 4, 5]), Some(vec![6, 7, 8]), Some(vec![9])]);
    assert_eq!(kept, Some(vec![3, 4, 5]));
    let none: Option<Vec<i32>> = pick_boundary(vec![Some(vec![1]), None, Some(vec![])]);
    assert_eq!(none, None);
    let empty: Option<Vec<i32>> = pick_boundary(Vec::new());
    assert_eq!(empty, None);
}

#[test]
fn polyline_outline_skips_faces_and_closes() {
    let dxf = "0\nPOLYLINE\n8\nL1\n70\n65\n0\nVERTEX\n10\n0\n20\n0\n0\nVERTEX\n10\n4\n20\n0\n0\nVERTEX\n10\n4\n20\n3\n0\nVERTEX\n70\n128\n71\n1\n0\nSEQEND\n0\nEOF\n";
    let (ps, nums) = read(dxf);
    let (scan, outline) = read_polyline(&ps, &nums, 0, 0.0);
    assert_eq!(scan.layer, Some("L1".to_string()));
    assert_eq!(scan.next, 16);
    assert_eq!(
        outline,
        Some(vec![(0.0, 0.0, 0.0), (4.0, 0.0, 0.0), (4.0, 3.0, 0.0), (0.0, 0.0, 0.0)])
    );
    let open = "0\nPOLYLINE\n0\nVERTEX\n10\n0\n20\n0\n0\nVERTEX\n10\n1\n20\n1\n0\nLINE\n";
    let (ps, nums) = read(open);
    assert_eq!(read_polyline(&ps, &nums, 0, 0.0).1, None);
}

#[test]
fn text_height_chain_and_label_anchor() {
    let (ps, nums) = read("40\n3\n45\n7\n");
    assert_eq!(number_among(&ps, &nums, &[41, 40, 45], 2.5), 3.0);
    assert_eq!(number_among(&ps, &nums, &[41, 45], 2.5), 7.0);
    assert_eq!(number_among(&ps, &nums, &[140], 2.5), 2.5);
    let (ps, nums) = read("11\n5\n21\n6\n");
    let verts = vec![(1.0, 1.0, 0.0), (2.0, 2.0, 0.0)];
    assert_eq!(label_anchor(&ps, &nums, &verts, None, 0.0), Some((5.0, 6.0, 0.0)));
    let (ps, nums) = read("8\nL\n");
    assert_eq!(label_anchor(&ps, &nums, &verts, None, 0.0), Some((2.0, 2.0, 0.0)));
    assert_eq!(label_anchor(&ps, &nums, &[], Some((0.0, 0.0, 0.0)), 0.0), Some((0.0, 0.0, 0.0)));
    assert_eq!(label_anchor::<f64>(&ps, &nums, &[], None, 0.0), None);
}
