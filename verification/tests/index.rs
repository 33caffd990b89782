use packed_features::bbox::BoundingBox;
use packed_features::error::Error;
use packed_features::index::{
    get_node, put_node, scan, tier_starts_for, Node, SpatialIndex, BRANCHING,
};

fn bbox(min_x: f64, min_y: f64, max_x: f64, max_y: f64) -> BoundingBox {
    BoundingBox {
        min_x: min_x.to_bits(),
        min_y: min_y.to_bits(),
        max_x: max_x.to_bits(),
        max_y: max_y.to_bits(),
    }
}

fn grid(n: usize) -> Vec<Node> {
    (0..n)
        .map(|i| {
            let x = ((i * 7) % 23) as f64;
            let y = ((i * 13) % 31) as f64 - 15.0;
            Node { bbox: bbox(x, y, x + 1.5, y + 0.5), offset: (i as u64) * 100 }
        })
        .collect()
}

fn queries() -> Vec<BoundingBox> {
    vec![
        bbox(0.0, 0.0, 1.0, 1.0),
        bbox(-100.0, -100.0, 100.0, 100.0),
        bbox(5.0, -3.0, 9.0, 4.0),
        bbox(22.0, 14.0, 30.0, 20.0),
        bbox(50.0, 50.0, 60.0, 60.0),
        bbox(3.25, -20.0, 3.3, 20.0),
        bbox(-1.0, 2.5, 40.0, 2.5),
    ]
}

fn tiers_of(n: usize) -> Vec<usize> {
    tier_starts_for(n).unwrap()
}

#[test]
fn tier_starts() {
    assert_eq!(tiers_of(0), vec![0]);
    assert_eq!(tiers_of(1), vec![0, 1, 2]);
    assert_eq!(tiers_of(2), vec![0, 2, 3]);
    assert_eq!(tiers_of(16), vec![0, 16, 17]);
    assert_eq!(tiers_of(17), vec![0, 17, 19, 20]);
    assert_eq!(tiers_of(256), vec![0, 256, 272, 273]);
    assert_eq!(tiers_of(257), vec![0, 257, 274, 276, 277]);
    assert_eq!(tiers_of(300), vec![0, 300, 319, 321, 322]);
}

#[test]
fn tier_starts_that_do_not_fit() {
    assert_eq!(tier_starts_for(usize::MAX), None);
}

#[test]
fn index_without_leaves_has_no_node() {
    let idx = SpatialIndex::build(Vec::new());
    assert_eq!(idx.len(), 0);
    assert_eq!(idx.nodes().len(), 0);
    assert_eq!(idx.query(&bbox(0.0, 0.0, 1.0, 1.0)), Vec::<usize>::new());
}

#[test]
fn index_over_one_leaf_has_a_root_above_it() {
    let leaf = Node { bbox: bbox(1.0, 2.0, 3.0, 4.0), offset: 77 };
    let idx = SpatialIndex::build(vec![leaf]);
    assert_eq!(idx.len(), 1);
    assert_eq!(idx.nodes(), &vec![leaf, Node { bbox: bbox(1.0, 2.0, 3.0, 4.0), offset: 0 }]);
    assert_eq!(idx.leaf(0), leaf);
    assert_eq!(idx.query(&bbox(0.0, 0.0, 1.0, 2.0)), vec![0]);
    assert_eq!(idx.query(&bbox(0.0, 0.0, 0.5, 0.5)), Vec::<usize>::new());
}

#[test]
fn node_counts() {
    for (n, total) in [(1usize, 2usize), (2, 3), (16, 17), (17, 20), (32, 35), (300, 322)] {
        let idx = SpatialIndex::build(grid(n));
        assert_eq!(idx.len(), n);
        assert_eq!(idx.nodes().len(), total);
    }
}

#[test]
fn leaves_keep_their_order() {
    let leaves = grid(40);
    let idx = SpatialIndex::build(leaves.clone());
    assert_eq!(&idx.nodes()[..40], &leaves[..]);
    for i in 0..40 {
        assert_eq!(idx.leaf(i), leaves[i]);
    }
}

#[test]
fn parents_point_at_their_first_child_and_cover_their_children() {
    let n = 300;
    let idx = SpatialIndex::build(grid(n));
    let nodes = idx.nodes();
    let t = tiers_of(n);
    for k in 1..t.len() - 1 {
        for p in 0..(t[k + 1] - t[k]) {
            let parent = nodes[t[k] + p];
            let first = t[k - 1] + 16 * p;
            let last = std::cmp::min(first + 16, t[k]);
            assert_eq!(parent.offset, first as u64);
            let mut cover = nodes[first].bbox;
            for c in first + 1..last {
                cover = cover.union(nodes[c].bbox);
            }
            assert_eq!(parent.bbox, cover);
        }
    }
}

#[test]
fn exact_tree_over_seventeen_leaves() {
    let leaves: Vec<Node> = (0..17)
        .map(|i| Node { bbox: bbox(i as f64, 0.0, i as f64 + 1.0, 1.0), offset: i as u64 })
        .collect();
    let idx = SpatialIndex::build(leaves);
    let nodes = idx.nodes();
    assert_eq!(nodes.len(), 20);
    assert_eq!(nodes[17], Node { bbox: bbox(0.0, 0.0, 16.0, 1.0), offset: 0 });
    assert_eq!(nodes[18], Node { bbox: bbox(16.0, 0.0, 17.0, 1.0), offset: 16 });
    assert_eq!(nodes[19], Node { bbox: bbox(0.0, 0.0, 17.0, 1.0), offset: 17 });
}

#[test]
fn every_leaf_lies_within_every_node_above_it() {
    let n = 300;
    let idx = SpatialIndex::build(grid(n));
    let nodes = idx.nodes();
    let t = tiers_of(n);
    for i in 0..n {
        let mut place = i;
        for k in 1..t.len() - 1 {
            place /= 16;
            assert!(nodes[t[k] + place].bbox.contains(nodes[i].bbox));
        }
        assert_eq!(place, 0);
    }
}

#[test]
fn search_finds_what_a_scan_finds() {
    for n in [1usize, 5, 16, 17, 33, 256, 257, 300, 1000] {
        let leaves = grid(n);
        let idx = SpatialIndex::build(leaves.clone());
        for q in queries() {
            let by_scan = scan(&leaves, &q);
            assert_eq!(idx.query(&q), by_scan);
            let expected: Vec<usize> =
                (0..n).filter(|i| leaves[*i].bbox.intersects(q)).collect();
            assert_eq!(by_scan, expected);
        }
    }
}

#[test]
fn search_results_rise() {
    let idx = SpatialIndex::build(grid(300));
    let hits = idx.query(&bbox(-100.0, -100.0, 100.0, 100.0));
    assert_eq!(hits, (0..300).collect::<Vec<usize>>());
}

#[test]
fn scan_of_nothing() {
    assert_eq!(scan(&Vec::new(), &bbox(0.0, 0.0, 1.0, 1.0)), Vec::<usize>::new());
}

#[test]
fn node_exact_bytes() {
    let nd = Node { bbox: bbox(1.0, 2.0, 3.0, 4.0), offset: 0x0102 };
    let mut out: Vec<u8> = Vec::new();
    put_node(&mut out, &nd);
    let mut expected: Vec<u8> = Vec::new();
    for v in [1.0f64, 2.0, 3.0, 4.0] {
        expected.extend_from_slice(&v.to_le_bytes());
    }
    expected.extend_from_slice(&[2, 1, 0, 0, 0, 0, 0, 0]);
    assert_eq!(out, expected);
    assert_eq!(out.len(), 40);
    assert_eq!(get_node(&out, 0, 40), Ok((nd, 40)));
    assert_eq!(get_node(&out, 0, 39), Err(Error::TruncatedStream));
}

#[test]
fn index_block_round_trip() {
    for n in [0usize, 1, 17, 300] {
        let idx = SpatialIndex::build(grid(n));
        let mut out: Vec<u8> = vec![0xcc];
        idx.encode_into(&mut out);
        let total = idx.nodes().len();
        let count_len = if total < 128 { 1 } else { 2 };
        assert_eq!(out.len(), 1 + count_len + 40 * total);
        let (back, next) = SpatialIndex::decode_at(&out, 1, out.len(), n as u64).unwrap();
        assert_eq!(next, out.len());
        assert_eq!(back.nodes(), idx.nodes());
        assert_eq!(back.len(), n);
        for q in queries() {
            assert_eq!(back.query(&q), idx.query(&q));
        }
    }
}

#[test]
fn index_block_starts_with_the_node_count() {
    let idx = SpatialIndex::build(grid(17));
    let mut out: Vec<u8> = Vec::new();
    idx.encode_into(&mut out);
    assert_eq!(out[0], 20);
}

#[test]
fn index_block_for_another_feature_count_is_malformed() {
    let idx = SpatialIndex::build(grid(17));
    let mut out: Vec<u8> = Vec::new();
    idx.encode_into(&mut out);
    assert!(matches!(SpatialIndex::decode_at(&out, 0, out.len(), 16), Err(Error::FormatError)));
    assert!(matches!(SpatialIndex::decode_at(&out, 0, out.len(), 18), Err(Error::FormatError)));
    assert!(matches!(
        SpatialIndex::decode_at(&out, 0, out.len(), u64::MAX),
        Err(Error::FormatError)
    ));
}

#[test]
fn index_block_cut_short_is_truncated() {
    let idx = SpatialIndex::build(grid(17));
    let mut out: Vec<u8> = Vec::new();
    idx.encode_into(&mut out);
    assert!(matches!(
        SpatialIndex::decode_at(&out, 0, out.len() - 1, 17),
        Err(Error::TruncatedStream)
    ));
    assert!(matches!(SpatialIndex::decode_at(&out, 0, 0, 17), Err(Error::TruncatedStream)));
}

#[test]
fn search_of_a_damaged_index_is_safe() {
    let idx = SpatialIndex::build(grid(40));
    let mut out: Vec<u8> = Vec::new();
    idx.encode_into(&mut out);
    let root_at = 1 + 40 * 43;
    for b in out[root_at..root_at + 32].iter_mut() {
        *b = 0;
    }
    let (damaged, _) = SpatialIndex::decode_at(&out, 0, out.len(), 40).unwrap();
    let hits = damaged.query(&bbox(5.0, -3.0, 9.0, 4.0));
    assert_eq!(hits, Vec::<usize>::new());
    let at_origin = damaged.query(&bbox(0.0, 0.0, 0.0, 0.0));
    assert_eq!(at_origin, scan(&grid(40), &bbox(0.0, 0.0, 0.0, 0.0)));
}

#[test]
fn a_node_has_sixteen_children_at_most() {
    assert_eq!(BRANCHING, 16);
    assert_eq!(tiers_of(BRANCHING), vec![0, 16, 17]);
    assert_eq!(tiers_of(BRANCHING + 1), vec![0, 17, 19, 20]);
}

#[test]
fn same_leaves_same_index() {
    assert_eq!(SpatialIndex::build(grid(300)).nodes(), SpatialIndex::build(grid(300)).nodes());
}
