use rust_obj_parser::assemble::{Face, Index};
use rust_obj_parser::chunk::{chunk_bounds, classify_range, Classified};
use rust_obj_parser::parser::extract_vertices_and_indices;
use rust_obj_parser::rebalance::{extend_fit, rebalance};
use rust_obj_parser::scan::collect_tokens;
use rust_obj_parser::Config;

const SAMPLE: &[u8] = b"# a comment\nv 0 0 0\nv 1 0 0\nvt 0.5 0.5\nvn 0 0 1\n\
usemtl wood\ng one\nf 1/1/1 2/1/1 2/1/1\nf 2 1 2\ng two\nf 1 2 1\n";

fn classify_whole(doc: &[u8]) -> Classified {
    classify_range(doc, 0, doc.len())
}

#[test]
fn chunk_bounds_cover_the_document_in_order() {
    for n in 1..8 {
        let bounds = chunk_bounds(SAMPLE, n);
        assert_eq!(bounds.len(), n + 1);
        assert_eq!(bounds[0], 0);
        assert_eq!(bounds[n], SAMPLE.len());
        for id in 0..n {
            assert!(bounds[id] <= bounds[id + 1]);
            // every boundary is a line start
            let b = bounds[id];
            assert!(b == 0 || b == SAMPLE.len() || SAMPLE[b - 1] == b'\n');
        }
    }
}

#[test]
fn chunked_classification_reconstructs_the_sequential_one() {
    let whole = classify_whole(SAMPLE);
    for n in 1..8 {
        let bounds = chunk_bounds(SAMPLE, n);
        let mut position = Vec::new();
        let mut texcoord = Vec::new();
        let mut normal = Vec::new();
        let mut index = Vec::new();
        let mut unknown = Vec::new();
        for id in 0..n {
            let c = classify_range(SAMPLE, bounds[id], bounds[id + 1]);
            position.extend(c.position);
            texcoord.extend(c.texcoord);
            normal.extend(c.normal);
            index.extend(c.index);
            unknown.extend(c.unknown);
        }
        assert_eq!(position, whole.position);
        assert_eq!(texcoord, whole.texcoord);
        assert_eq!(normal, whole.normal);
        assert_eq!(index, whole.index);
        assert_eq!(unknown, whole.unknown);
    }
}

#[test]
fn classification_skips_blanks_and_comments() {
    let c = classify_whole(b"# note\n\n   \nv 1 2 3\nvt 0 0\nvn 1 0 0\nf 1 1 1\ng x\nfoo bar\n");
    assert_eq!(c.position, vec![(12, 19)]);
    assert_eq!(c.texcoord, vec![(20, 26)]);
    assert_eq!(c.normal, vec![(27, 35)]);
    assert_eq!(c.index, vec![(36, 43), (44, 47)]);
    assert_eq!(c.unknown, vec![(48, 55)]);
}

#[test]
fn rebalance_cuts_by_item_count_in_order() {
    // 7 spans over lists of very different sizes, rebalanced for 4 workers:
    // 7 == 1 * 4 + 3, so three buckets hold 2 items and one holds 1.
    let spans: Vec<(usize, usize)> = (0..7).map(|k| (k, k + 1)).collect();
    let lists = vec![spans[0..5].to_vec(), vec![], spans[5..7].to_vec()];
    let buckets = rebalance(&lists, 4);
    assert_eq!(buckets.len(), 4);
    let sizes: Vec<usize> = buckets.iter().map(|b| b.len()).collect();
    assert_eq!(sizes, vec![2, 2, 2, 1]);
    let rejoined: Vec<(usize, usize)> = buckets.concat();
    assert_eq!(rejoined, spans);
}

#[test]
fn rebalance_spread_is_at_most_one_for_any_total() {
    for total in 0..26 {
        for n in 1..7 {
            let spans: Vec<(usize, usize)> = (0..total).map(|k| (k, k + 1)).collect();
            let buckets = rebalance(&vec![spans.clone()], n);
            assert_eq!(buckets.len(), n);
            let sizes: Vec<usize> = buckets.iter().map(|b| b.len()).collect();
            let max = sizes.iter().max().unwrap();
            let min = sizes.iter().min().unwrap();
            assert!(max - min <= 1, "total {} over {}: {:?}", total, n, sizes);
            assert_eq!(buckets.concat(), spans);
        }
    }
}

#[test]
fn rebalance_exact_cuts() {
    let cut = |total: usize, n: usize| -> Vec<usize> {
        let spans: Vec<(usize, usize)> = (0..total).map(|k| (k, k + 1)).collect();
        rebalance(&vec![spans], n).iter().map(|b| b.len()).collect()
    };
    assert_eq!(cut(11, 4), vec![3, 3, 3, 2]);
    assert_eq!(cut(12, 4), vec![3, 3, 3, 3]);
    assert_eq!(cut(10, 4), vec![3, 3, 2, 2]);
    assert_eq!(cut(8, 4), vec![2, 2, 2, 2]);
    assert_eq!(cut(2, 4), vec![1, 1, 0, 0]);
}

#[test]
fn extend_fit_spills_at_capacity() {
    let mut data: Vec<Vec<(usize, usize)>> = vec![Vec::new()];
    let extend: Vec<(usize, usize)> = (0..5).map(|k| (k, k + 1)).collect();
    extend_fit(&mut data, &extend, 2);
    assert_eq!(data.len(), 3);
    assert_eq!(data[0].len(), 2);
    assert_eq!(data[1].len(), 2);
    assert_eq!(data[2].len(), 1);
}

#[test]
fn extend_fit_accepts_an_overfull_last_bucket() {
    // A last bucket already past the capacity is simply closed.
    let mut data: Vec<Vec<(usize, usize)>> = vec![(0..3).map(|k| (k, k + 1)).collect()];
    let extend: Vec<(usize, usize)> = vec![(7, 8), (8, 9)];
    extend_fit(&mut data, &extend, 2);
    assert_eq!(data.len(), 2);
    assert_eq!(data[0].len(), 3);
    assert_eq!(data[1], vec![(7, 8), (8, 9)]);
}

#[test]
fn extract_keeps_unknown_lines_for_reporting() {
    let r = extract_vertices_and_indices(SAMPLE, 2);
    assert_eq!(r.unknown, vec![(48, 59)]);
    assert_eq!(r.position.len(), 2);
    assert_eq!(r.index.len(), 2);
    let faces: usize = r.index.iter().map(|b| b.len()).sum();
    assert_eq!(faces, 5); // 3 f lines and 2 g lines
}

#[test]
fn tokens_split_on_blanks() {
    let doc = b"  f  1/2/3\t 4 ";
    let toks = collect_tokens(doc, 0, doc.len());
    assert_eq!(toks, vec![(2, 3), (5, 10), (12, 13)]);
}

#[test]
fn index_parses_corner_shapes() {
    let full = Index::new(b"12/34/56", 0, 8).unwrap();
    assert_eq!(full.position, Some(12));
    assert_eq!(full.texcoord, Some(34));
    assert_eq!(full.normal, Some(56));

    let pos_only = Index::new(b"7", 0, 1).unwrap();
    assert_eq!(pos_only.position, Some(7));
    assert_eq!(pos_only.texcoord, None);
    assert_eq!(pos_only.normal, None);

    let no_tex = Index::new(b"1//9", 0, 4).unwrap();
    assert_eq!(no_tex.position, Some(1));
    assert_eq!(no_tex.texcoord, None);
    assert_eq!(no_tex.normal, Some(9));

    assert!(Index::new(b"", 0, 0).is_none());
    assert!(Index::new(b"/1", 0, 2).is_none());
    assert!(Index::new(b"1/2/3/4", 0, 7).is_none());
    assert!(Index::new(b"1a", 0, 2).is_none());
}

#[test]
fn face_collects_its_corners() {
    let line = b"f 1/1/1 2/2/2 3/3/3 4/4/4";
    let face = Face::new(line, 0, line.len()).unwrap();
    assert_eq!(face.indices.len(), 4);
    assert_eq!(face.indices[2].position, Some(3));
    assert!(Face::new(b"f 1 2 x", 0, 7).is_none());
}

#[test]
fn config_wants_a_filename() {
    assert!(Config::new(vec!["prog".to_string()]).is_err());
    let cfg = Config::new(vec!["prog".to_string(), "model.obj".to_string()]).unwrap();
    assert_eq!(cfg.filename().as_str(), "model.obj");
}
