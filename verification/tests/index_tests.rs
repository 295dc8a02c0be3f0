use hnsw::index::Index;
use hnsw::metric::{distance_key, float_lt, Cosine, DotProduct, Euclidean};

/// The bit pattern of the squared distance between `a` and `b`, as a metric reports it.
fn sq(a: i64, b: i64) -> u32 {
    (((a - b) * (a - b)) as f32).to_bits()
}

/// Builds an index over points on a line, inserting them in order with the given levels.
fn build(points: &[i64], levels: &[usize], m: usize, ef: usize) -> Index {
    let mut index = Index::new(m, ef, 1);
    for i in 0..points.len() {
        let pts = &points[..=i];
        let dist = |a: usize, b: usize| sq(pts[a], pts[b]);
        index.insert_vec(&dist, levels[i]);
    }
    index
}

fn check_laws(index: &Index) {
    let n = index.len();
    for x in 0..n {
        let layers = index.layer_count(x);
        assert!(layers >= 1);
        if n >= 2 && index.m() >= 1 {
            assert!(!index.neighbors(x, 0).is_empty());
        }
        assert!(layers <= index.max_height() as usize + 1);
        for l in 0..layers {
            let list = index.neighbors(x, l);
            let cap = if l == 0 { 2 * index.m() } else { index.m() };
            assert!(list.len() <= cap);
            for (a, &t) in list.iter().enumerate() {
                assert!(t < n);
                assert!(t != x);
                assert!(index.layer_count(t) > l);
                for &u in &list[a + 1..] {
                    assert_ne!(t, u);
                }
            }
        }
    }
    if let Some(s) = index.start_point() {
        assert_eq!(index.layer_count(s), index.max_height() as usize + 1);
    }
}

#[test]
fn new_index_is_empty() {
    let index = Index::new(4, 16, 3);
    assert_eq!(index.len(), 0);
    assert_eq!(index.start_point(), None);
    assert_eq!(index.max_height(), 0);
    assert_eq!(index.m(), 4);
    assert_eq!(index.ef_construction(), 16);
    assert_eq!(index.dim(), 3);
}

#[test]
fn search_on_empty_index_returns_nothing() {
    let index = Index::new(4, 16, 1);
    let q = |_a: usize| 0.0f32.to_bits();
    assert!(index.search(&q, 10, 5).is_empty());
}

#[test]
fn first_insert_becomes_entry_point() {
    let index = build(&[5], &[2], 4, 16);
    assert_eq!(index.len(), 1);
    assert_eq!(index.start_point(), Some(0));
    assert_eq!(index.max_height(), 2);
    assert_eq!(index.layer_count(0), 3);
    for l in 0..3 {
        assert!(index.neighbors(0, l).is_empty());
    }
}

#[test]
fn insert_links_new_node_both_ways() {
    let index = build(&[0, 10, 20], &[0, 0, 0], 2, 10);
    assert_eq!(index.neighbors(0, 0), vec![1]);
    assert_eq!(index.neighbors(1, 0), vec![0, 2]);
    assert_eq!(index.neighbors(2, 0), vec![1]);
    check_laws(&index);
}

#[test]
fn higher_level_moves_entry_point() {
    let index = build(&[0, 10, 20], &[0, 1, 0], 2, 10);
    assert_eq!(index.start_point(), Some(1));
    assert_eq!(index.max_height(), 1);
    assert_eq!(index.layer_count(1), 2);
    assert!(index.neighbors(1, 1).is_empty());
    check_laws(&index);
}

#[test]
fn lower_level_keeps_entry_point() {
    let index = build(&[0, 10, 20], &[2, 0, 1], 2, 10);
    assert_eq!(index.start_point(), Some(0));
    assert_eq!(index.max_height(), 2);
    assert_eq!(index.neighbors(2, 1), vec![0]);
    assert_eq!(index.neighbors(0, 1), vec![2]);
    assert!(index.neighbors(0, 2).is_empty());
    check_laws(&index);
}

#[test]
fn search_returns_nearest_first() {
    let index = build(&[0, 10, 20], &[0, 0, 0], 2, 10);
    let q = |a: usize| sq([0, 10, 20][a], 19);
    assert_eq!(index.search(&q, 10, 2), vec![2, 1]);
    assert_eq!(index.search(&q, 10, 5), vec![2, 1, 0]);
    assert_eq!(index.search(&q, 10, 0), Vec::<usize>::new());
}

#[test]
fn search_layer_keeps_ef_best() {
    let index = build(&[0, 10, 20], &[0, 0, 0], 2, 10);
    let q = |a: usize| sq([0, 10, 20][a], 19);
    assert_eq!(index.search_layer(&q, 0, 0, 1), vec![2]);
    assert_eq!(index.search_layer(&q, 0, 0, 2), vec![2, 1]);
    assert_eq!(index.search_layer(&q, 0, 0, 0), vec![2]);
}

#[test]
fn select_neighbors_skips_shadowed_candidates() {
    let index = build(&[0, 10, 20, 30], &[0, 0, 0, 0], 2, 10);
    let pts = [0i64, 10, 20, 30];
    let dist = |a: usize, b: usize| sq(pts[a], pts[b]);
    // 20 is kept; 30 is nearer to 20 than to 0, so it is shadowed; 10 is kept.
    assert_eq!(index.select_neighbors(&dist, 0, &vec![2, 3, 1], 3), vec![2, 1]);
    // at most m are kept
    assert_eq!(index.select_neighbors(&dist, 0, &vec![1, 2, 3], 1), vec![1]);
    assert_eq!(index.select_neighbors(&dist, 0, &vec![1, 2, 3], 0), Vec::<usize>::new());
}

#[test]
fn full_lists_are_pruned() {
    // m = 1: the bottom layer keeps at most two neighbours per node.
    let index = build(&[0, 1, 2, 3], &[0, 0, 0, 0], 1, 10);
    check_laws(&index);
    for x in 0..4 {
        assert!(index.neighbors(x, 0).len() <= 2);
    }
}

#[test]
fn many_inserts_keep_the_graph_sound() {
    let mut points = Vec::new();
    let mut levels = Vec::new();
    let mut seed: u64 = 12345;
    for _ in 0..60 {
        seed = seed.wrapping_mul(6364136223846793005).wrapping_add(1442695040888963407);
        points.push(((seed >> 33) % 1000) as i64);
        let r = (seed >> 20) % 16;
        levels.push(if r == 0 { 2 } else if r < 4 { 1 } else { 0 });
    }
    let index = build(&points, &levels, 3, 8);
    assert_eq!(index.len(), 60);
    check_laws(&index);
    let q = |a: usize| sq(points[a], 500);
    let res = index.search(&q, 16, 5);
    assert!(!res.is_empty() && res.len() <= 5);
    for w in res.windows(2) {
        let (a, b) = (f32::from_bits(q(w[0])), f32::from_bits(q(w[1])));
        assert!(a < b || (a == b && w[0] < w[1]));
    }
}

#[test]
fn distance_key_orders_as_total_order() {
    assert_eq!(distance_key(0), 0x8000_0000);
    assert_eq!(distance_key(0x8000_0000), 0x7fff_ffff);
    let values = [f32::NEG_INFINITY, -2.5, -1.0, -0.0, 0.0, 1.0e-30, 1.0, 2.5, f32::INFINITY];
    for w in values.windows(2) {
        assert!(distance_key(w[0].to_bits()) < distance_key(w[1].to_bits()));
        assert_eq!(w[0].total_cmp(&w[1]), std::cmp::Ordering::Less);
    }
}

#[test]
fn metrics_say_whether_they_normalise() {
    assert!(!Euclidean.needs_normalize());
    assert!(Cosine.needs_normalize());
    assert!(!DotProduct.needs_normalize());
}

#[test]
fn pruning_can_leave_a_node_without_incoming_edges() {
    let index = build(&[15, 20, 12, 6, 3, 15], &[0, 0, 0, 0, 0, 0], 1, 4);
    let expected: [Vec<usize>; 6] = [vec![5, 2], vec![0], vec![0, 3], vec![2, 4], vec![3], vec![0]];
    for x in 0..6 {
        assert_eq!(index.neighbors(x, 0), expected[x]);
    }
    // no list names node 1
    assert!((0..6).all(|x| !index.neighbors(x, 0).contains(&1)));
    check_laws(&index);
}

#[test]
fn layered_build_and_search() {
    let points = [50i64, 10, 80, 33, 61, 5, 47, 90, 28];
    let index = build(&points, &[0, 1, 0, 2, 0, 1, 0, 0, 1], 2, 3);
    assert_eq!(index.start_point(), Some(3));
    assert_eq!(index.max_height(), 2);
    assert_eq!(index.neighbors(1, 0), vec![0, 3, 5, 8]);
    assert_eq!(index.neighbors(1, 1), vec![5, 8]);
    assert_eq!(index.neighbors(3, 0), vec![0, 1, 6, 8]);
    assert_eq!(index.neighbors(3, 1), vec![1, 8]);
    assert!(index.neighbors(3, 2).is_empty());
    assert_eq!(index.neighbors(8, 1), vec![3, 1]);
    assert_eq!(index.neighbors(2, 0), vec![0, 4, 7]);
    check_laws(&index);
    let q = |a: usize| sq(points[a], 40);
    assert_eq!(index.search(&q, 4, 3), vec![3, 6, 0]);
}

#[test]
fn select_neighbors_compares_as_ieee_less_than() {
    let index = build(&[0, 10, 20], &[0, 0, 0], 2, 10);
    // node 2 is NaN away from the base: nothing is nearer to it than NaN, so it is kept
    let nan = |a: usize, b: usize| -> u32 {
        match (a.min(b), a.max(b)) {
            (0, 1) => 1.0f32.to_bits(),
            (0, 2) => f32::NAN.to_bits(),
            _ => 0.5f32.to_bits(),
        }
    };
    assert_eq!(index.select_neighbors(&nan, 0, &vec![1, 2], 2), vec![1, 2]);
    // -0.0 is not below 0.0
    let zeros = |a: usize, b: usize| -> u32 {
        match (a.min(b), a.max(b)) {
            (0, 1) => 1.0f32.to_bits(),
            (0, 2) => 0.0f32.to_bits(),
            _ => (-0.0f32).to_bits(),
        }
    };
    assert_eq!(index.select_neighbors(&zeros, 0, &vec![1, 2], 2), vec![1, 2]);
    // a strictly nearer survivor drops the candidate
    let near = |a: usize, b: usize| -> u32 {
        match (a.min(b), a.max(b)) {
            (0, 1) => 1.0f32.to_bits(),
            (0, 2) => 3.0f32.to_bits(),
            _ => 2.0f32.to_bits(),
        }
    };
    assert_eq!(index.select_neighbors(&near, 0, &vec![1, 2], 2), vec![1]);
}

#[test]
fn float_lt_is_ieee_less_than() {
    let values = [f32::NEG_INFINITY, -2.5, -0.0, 0.0, 1.0, f32::INFINITY, f32::NAN, -f32::NAN];
    for &a in &values {
        for &b in &values {
            assert_eq!(float_lt(a.to_bits(), b.to_bits()), a < b);
        }
    }
}

#[test]
fn search_layer_with_wide_breadth_returns_every_reachable_node() {
    let points = [0, 10, 20, 30, 40];
    let index = build(&points, &[0, 0, 0, 0, 0], 2, 10);
    let q = |a: usize| sq(points[a], 23);
    assert_eq!(index.search_layer(&q, 0, 0, 10), vec![2, 3, 1, 4, 0]);
    assert_eq!(index.search(&q, 10, 10), vec![2, 3, 1, 4, 0]);
}

#[test]
fn search_with_larger_k_extends_smaller_k() {
    let points = [3, 41, 17, 8, 29, 55, 12, 36];
    let index = build(&points, &[1, 0, 2, 0, 1, 0, 0, 1], 2, 6);
    let q = |a: usize| sq(points[a], 20);
    let long = index.search(&q, 6, 5);
    for k in 0..=5 {
        let short = index.search(&q, 6, k);
        assert_eq!(short, long[..k.min(long.len())].to_vec());
    }
}

#[test]
fn search_gives_the_same_answer_twice() {
    let points = [3, 41, 17, 8, 29, 55, 12, 36];
    let index = build(&points, &[1, 0, 2, 0, 1, 0, 0, 1], 2, 6);
    let q = |a: usize| sq(points[a], 33);
    assert_eq!(index.search(&q, 4, 3), index.search(&q, 4, 3));
    assert_eq!(index.len(), points.len());
}

#[test]
fn every_node_keeps_a_bottom_neighbour() {
    let points = [15, 20, 12, 6, 3, 15];
    let index = build(&points, &[0, 0, 0, 0, 0, 0], 1, 4);
    for x in 0..points.len() {
        assert!(!index.neighbors(x, 0).is_empty());
    }
    check_laws(&index);
}
