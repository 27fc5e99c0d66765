use mst::{
    decode_edges, decode_points, encode_edges, encode_points, minimum_spanning_tree,
    parse_edge_line, parse_point_line, plot_dimensions, Edge, ErrorKind, Vertex,
};

#[test]
fn encode_points_as_lines() {
    let pts = vec![Vertex::new(0, -12), Vertex::new(345, 7)];
    let text = encode_points(&pts, b"\t");
    assert_eq!(text, b"0\t-12\n345\t7\n".to_vec());
}

#[test]
fn encode_edges_as_lines() {
    let edges = vec![Edge::new(1, 2, 3, 4).unwrap(), Edge::new(-1, 0, 0, -1).unwrap()];
    let text = encode_edges(&edges, b",");
    assert_eq!(text, b"1,2,3,4\n-1,0,0,-1\n".to_vec());
}

#[test]
fn points_round_trip() {
    let pts = vec![
        Vertex::new(0, 0),
        Vertex::new(i32::MIN, i32::MAX),
        Vertex::new(-7, 42),
        Vertex::new(123456, -98765),
    ];
    for sep in [&b"\t"[..], &b","[..], &b" :: "[..], &b"1a"[..], &b"-x-"[..]] {
        let text = encode_points(&pts, sep);
        assert_eq!(decode_points(&text, sep), pts);
    }
}

#[test]
fn edges_round_trip() {
    let pts: Vec<Vertex> = (0..12).map(|i| Vertex::new(i * 7 % 11 - 5, i * i % 13)).collect();
    let edges = minimum_spanning_tree(&pts).unwrap();
    let text = encode_edges(&edges, b"\t");
    assert_eq!(decode_edges(&text, b"\t").unwrap(), edges);
}

#[test]
fn decode_skips_comments_and_short_lines() {
    let text = b"# x y\n1,2\n\n7\n3,4\r\nab\n5,6";
    let pts = decode_points(text, b",");
    assert_eq!(pts, vec![Vertex::new(1, 2), Vertex::new(3, 4), Vertex::new(5, 6)]);
}

#[test]
fn decode_reads_bad_numbers_as_zero() {
    let text = b"x1,+8\n-5,2,9\n12,\n 3,4";
    let pts = decode_points(text, b",");
    assert_eq!(
        pts,
        vec![Vertex::new(0, 8), Vertex::new(-5, 2), Vertex::new(12, 0), Vertex::new(0, 4)]
    );
}

#[test]
fn decode_numbers_out_of_range_are_zero() {
    let text = b"2147483648,-2147483648\n99999999999999999999,-2147483649\n";
    let pts = decode_points(text, b",");
    assert_eq!(pts, vec![Vertex::new(0, i32::MIN), Vertex::new(0, 0)]);
}

#[test]
fn decode_lines_without_separator_are_skipped() {
    assert_eq!(parse_point_line(b"12 34", b","), None);
    assert_eq!(parse_point_line(b"12,34", b","), Some(Vertex::new(12, 34)));
    assert_eq!(parse_point_line(b"#2,34", b","), None);
    assert_eq!(parse_edge_line(b"1,2,3", b","), None);
    assert_eq!(parse_edge_line(b"1,2,3,4,5", b","), Some((1, 2, 3, 4)));
}

#[test]
fn decode_edges_rejects_coincident_endpoints() {
    let r = decode_edges(b"1\t2\t3\t4\n5\t5\t5\t5\n", b"\t");
    assert_eq!(r.unwrap_err().kind, ErrorKind::DegenerateEdge);
    let ok = decode_edges(b"1\t2\t1\t4\n", b"\t").unwrap();
    assert_eq!(ok, vec![Edge::new(1, 2, 1, 4).unwrap()]);
}

#[test]
fn plot_area_is_a_centred_square() {
    let edges = vec![Edge::new(0, 0, 30, 10).unwrap(), Edge::new(30, 10, 20, 40).unwrap()];
    // x spans 0..30, y spans 0..40; with margin 10: 50 by 60, so 60.
    assert_eq!(plot_dimensions(&edges, 10), Some((60, 60, -15, -10)));
    assert_eq!(plot_dimensions(&Vec::new(), 10), None);
}

#[test]
fn plot_area_rounds_halves_toward_zero() {
    let edges = vec![Edge::new(-3, -3, -2, -2).unwrap()];
    // centre (-5 / 2) = -2, size 1 + 2 = 3, half 1.
    assert_eq!(plot_dimensions(&edges, 1), Some((3, 3, -3, -3)));
}

#[test]
fn plot_area_too_large_is_none() {
    let edges = vec![Edge::new(i32::MIN, 0, i32::MAX, 0).unwrap()];
    assert_eq!(plot_dimensions(&edges, 10), None);
}

#[test]
fn edges_round_trip_with_digit_separator() {
    let edges = vec![Edge::new(11, -1, 1, 111).unwrap(), Edge::new(-10, 0, 0, 1).unwrap()];
    let text = encode_edges(&edges, b"1a");
    assert_eq!(text, b"111a-11a11a111\n-101a01a01a1\n".to_vec());
    assert_eq!(decode_edges(&text, b"1a").unwrap(), edges);
}
