use rust_obj_parser::data::{ParseError, VertexData};
use rust_obj_parser::parser::{parse_obj_threaded, reference_parse};
use rust_obj_parser::run;
use rust_obj_parser::scalar::Scalar;

fn sc(neg: bool, mantissa: u64, frac: u32) -> Scalar {
    Scalar { neg, mantissa, frac }
}

fn flatten(groups: &[VertexData]) -> VertexData {
    let mut out = VertexData {
        position: Vec::new(),
        texcoord: Vec::new(),
        normal: Vec::new(),
    };
    for g in groups {
        out.position.extend(g.position.iter().copied());
        out.texcoord.extend(g.texcoord.iter().copied());
        out.normal.extend(g.normal.iter().copied());
    }
    out
}

#[test]
fn single_group_triangle() {
    let doc = b"v 0 0 0\nv 1 0 0\nv 0 1 0\nf 1 2 3\n";
    let groups = parse_obj_threaded(doc, 1).unwrap();
    assert_eq!(groups.len(), 1);
    let g = &groups[0];
    let z = sc(false, 0, 0);
    let one = sc(false, 1, 0);
    assert_eq!(g.position, vec![z, z, z, one, z, z, z, one, z]);
    assert_eq!(g.position.len(), 9);
    assert!(g.texcoord.is_empty());
    assert!(g.normal.is_empty());
}

#[test]
fn single_group_triangle_any_worker_count() {
    let doc = b"v 0 0 0\nv 1 0 0\nv 0 1 0\nf 1 2 3\n";
    let expected = parse_obj_threaded(doc, 1).unwrap();
    for n in 2..8 {
        assert_eq!(parse_obj_threaded(doc, n).unwrap(), expected);
    }
}

#[test]
fn two_group_markers_match_sequential_parse() {
    let doc = b"v 0 0 0\nv 1 0 0\nv 0 1 0\nf 1 2 3\ng a\nf 1 2 3\ng b\nf 3 2 1\n";
    let reference = reference_parse(doc).unwrap();
    for n in 1..6 {
        let groups = parse_obj_threaded(doc, n).unwrap();
        assert_eq!(groups.len(), 3);
        assert_eq!(flatten(&groups), reference);
    }
}

#[test]
fn out_of_range_index_is_an_error_not_a_panic() {
    let doc = b"v 0 0 0\nv 1 0 0\nv 0 1 0\nf 1 2 99\n";
    for n in 1..6 {
        let err = parse_obj_threaded(doc, n).unwrap_err();
        assert_eq!(err, ParseError::IndexOutOfRange(24, 32));
    }
}

#[test]
fn pentagon_expands_to_three_fan_triangles() {
    let doc = b"v 0 0 0\nv 1 0 0\nv 1 1 0\nv 0 1 0\nv 2 2 0\nf 1 2 3 4 5\n";
    let groups = parse_obj_threaded(doc, 1).unwrap();
    assert_eq!(groups.len(), 1);
    let g = &groups[0];
    // 3 triangles sharing corner 1: 9 corners, 27 floats.
    assert_eq!(g.position.len(), 27);
    let v = |k: usize| {
        let doc_vertices = [
            [sc(false, 0, 0), sc(false, 0, 0), sc(false, 0, 0)],
            [sc(false, 1, 0), sc(false, 0, 0), sc(false, 0, 0)],
            [sc(false, 1, 0), sc(false, 1, 0), sc(false, 0, 0)],
            [sc(false, 0, 0), sc(false, 1, 0), sc(false, 0, 0)],
            [sc(false, 2, 0), sc(false, 2, 0), sc(false, 0, 0)],
        ];
        doc_vertices[k]
    };
    let mut expected: Vec<Scalar> = Vec::new();
    for tri in [[0, 1, 2], [0, 2, 3], [0, 3, 4]] {
        for corner in tri {
            expected.extend(v(corner));
        }
    }
    assert_eq!(g.position, expected);
}

#[test]
fn group_split_across_worker_boundary_is_stitched() {
    // With 3 workers the phase-0 byte boundary falls between the two `f`
    // lines of group `m`; the stitch step must reassemble them into one
    // group with no duplicate or missing corners.
    let doc = b"v 0 0 0\nv 1 0 0\nv 0 1 0\ng m\nf 1 2 3\nf 3 2 1\n";
    let expected = parse_obj_threaded(doc, 1).unwrap();
    assert_eq!(expected.len(), 2);
    assert!(expected[0].position.is_empty());
    assert_eq!(expected[1].position.len(), 18);
    for n in 2..6 {
        assert_eq!(parse_obj_threaded(doc, n).unwrap(), expected);
    }
}

#[test]
fn flattened_groups_equal_reference_stream() {
    let doc = b"# sample\nv 0 0 0\nv 1 0 0\nv 0 1 0\nvt 0.5 0.5\nvn 0 0 1\n\
g one\nf 1/1/1 2/1/1 3/1/1\ng two\nf 3 2 1\nf 1 2 3\n";
    let reference = reference_parse(doc).unwrap();
    for n in 1..7 {
        let groups = parse_obj_threaded(doc, n).unwrap();
        assert_eq!(flatten(&groups), reference);
    }
}

#[test]
fn texcoord_and_normal_indices_resolve() {
    let doc = b"v 0 0 0\nvt 0.5 0.25\nvn 0 0 1\nf 1/1/1 1/1/1 1/1/1\n";
    let groups = parse_obj_threaded(doc, 1).unwrap();
    assert_eq!(groups.len(), 1);
    let g = &groups[0];
    assert_eq!(g.position.len(), 9);
    let u = sc(false, 5, 1);
    let w = sc(false, 25, 2);
    assert_eq!(g.texcoord, vec![u, w, u, w, u, w]);
    assert_eq!(g.normal.len(), 9);
    assert_eq!(g.normal[2], sc(false, 1, 0));
}

#[test]
fn missing_texcoord_slot_is_legal() {
    let doc = b"v 0 0 0\nvn 0 0 1\nf 1//1 1//1 1//1\n";
    let groups = parse_obj_threaded(doc, 1).unwrap();
    let g = &groups[0];
    assert_eq!(g.position.len(), 9);
    assert!(g.texcoord.is_empty());
    assert_eq!(g.normal.len(), 9);
}

#[test]
fn malformed_number_is_reported_with_its_line() {
    let doc = b"v 0 x 0\nf 1 1 1\n";
    let err = parse_obj_threaded(doc, 2).unwrap_err();
    assert_eq!(err, ParseError::MalformedNumber(0, 7));
}

#[test]
fn short_vertex_line_is_missing_token() {
    let doc = b"v 1 2\nf 1 1 1\n";
    let err = parse_obj_threaded(doc, 1).unwrap_err();
    assert_eq!(err, ParseError::MissingToken(0, 5));
}

#[test]
fn face_with_two_corners_is_missing_token() {
    let doc = b"v 0 0 0\nf 1 1\n";
    let err = parse_obj_threaded(doc, 1).unwrap_err();
    assert_eq!(err, ParseError::MissingToken(8, 13));
}

#[test]
fn zero_index_is_out_of_range() {
    let doc = b"v 0 0 0\nf 0 1 1\n";
    let err = parse_obj_threaded(doc, 1).unwrap_err();
    assert_eq!(err, ParseError::IndexOutOfRange(8, 15));
}

#[test]
fn enormous_index_is_out_of_range() {
    let doc = b"v 0 0 0\nf 99999999999999999999999999 1 1\n";
    let err = parse_obj_threaded(doc, 1).unwrap_err();
    assert_eq!(err, ParseError::IndexOutOfRange(8, 40));
}

#[test]
fn malformed_corner_is_reported() {
    let doc = b"v 0 0 0\nf 1/x 1 1\n";
    let err = parse_obj_threaded(doc, 1).unwrap_err();
    assert_eq!(err, ParseError::MalformedNumber(8, 17));
}

#[test]
fn attribute_errors_beat_index_errors() {
    // The faulty `v` line comes after the faulty `f` line in the document,
    // but attributes are materialized before any face is assembled.
    let doc = b"f 1 2 99\nv 0 q 0\n";
    let err = parse_obj_threaded(doc, 2).unwrap_err();
    assert_eq!(err, ParseError::MalformedNumber(9, 16));
}

#[test]
fn empty_document_is_one_empty_group() {
    let groups = parse_obj_threaded(b"", 4).unwrap();
    assert_eq!(groups.len(), 1);
    assert!(groups[0].position.is_empty());
}

#[test]
fn trailing_group_marker_keeps_an_empty_group() {
    let doc = b"v 0 0 0\nf 1 1 1\ng tail\n";
    let groups = parse_obj_threaded(doc, 1).unwrap();
    assert_eq!(groups.len(), 2);
    assert_eq!(groups[0].position.len(), 9);
    assert!(groups[1].position.is_empty());
}

#[test]
fn unknown_keywords_are_skipped_not_fatal() {
    let doc = b"mtllib x.mtl\nusemtl wood\ns 1\nv 0 0 0\nf 1 1 1\n";
    let groups = parse_obj_threaded(doc, 3).unwrap();
    assert_eq!(groups.len(), 1);
    assert_eq!(groups[0].position.len(), 9);
}

#[test]
fn negative_and_fractional_literals_keep_their_digits() {
    let doc = b"v -1.5 2.25 3\nf 1 1 1\n";
    let groups = parse_obj_threaded(doc, 1).unwrap();
    let g = &groups[0];
    assert_eq!(g.position[0], sc(true, 15, 1));
    assert_eq!(g.position[1], sc(false, 225, 2));
    assert_eq!(g.position[2], sc(false, 3, 0));
}

#[test]
fn run_uses_the_default_worker_count() {
    let doc = b"v 0 0 0\nv 1 0 0\nv 0 1 0\nf 1 2 3\n";
    assert_eq!(run(doc).unwrap(), parse_obj_threaded(doc, 1).unwrap());
}

#[test]
fn windows_line_endings_are_tolerated() {
    let doc = b"v 0 0 0\r\nv 1 0 0\r\nv 0 1 0\r\nf 1 2 3\r\n";
    let groups = parse_obj_threaded(doc, 2).unwrap();
    assert_eq!(groups.len(), 1);
    assert_eq!(groups[0].position.len(), 9);
}
