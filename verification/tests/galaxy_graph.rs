use mazalot::galaxy::{
    add_edge, anchor_regions, degrees, farthest_from, nearest_anchor, nearest_candidates, outermost,
    spanning_tree, spread_anchors, FAR,
};

/// Squared distances, as f32 bit patterns, between points on a line.
fn line_dist(xs: &[f32]) -> Vec<u32> {
    let n = xs.len();
    let mut d = vec![0u32; n * n];
    for a in 0..n {
        for b in 0..n {
            d[a * n + b] = ((xs[a] - xs[b]) * (xs[a] - xs[b])).to_bits();
        }
    }
    d
}

fn connected(n: usize, edges: &[(u32, u32)]) -> bool {
    let mut parent: Vec<usize> = (0..n).collect();
    fn find(p: &mut Vec<usize>, x: usize) -> usize {
        let mut x = x;
        while p[x] != x {
            x = p[x];
        }
        x
    }
    for &(a, b) in edges {
        let (ra, rb) = (find(&mut parent, a as usize), find(&mut parent, b as usize));
        parent[ra] = rb;
    }
    let root = find(&mut parent, 0);
    (0..n).all(|i| find(&mut parent, i) == root)
}

#[test]
fn spanning_tree_links_neighbours_on_a_line() {
    let xs = [0.0f32, 5.0, 1.0, 10.0, 4.0];
    let (edges, adj) = spanning_tree(5, &line_dist(&xs));
    assert_eq!(edges.len(), 4);
    // Prim from system 0 on a line: 0-2, 2-4, 4-1, 1-3, normalized.
    assert_eq!(edges, vec![(0, 2), (2, 4), (1, 4), (1, 3)]);
    assert!(connected(5, &edges));
    for &(a, b) in &edges {
        assert!(adj[a as usize * 5 + b as usize]);
    }
    assert_eq!(adj.iter().filter(|&&m| m).count(), 4);
}

#[test]
fn graph_is_connected_on_a_grid() {
    let n = 36;
    let mut d = vec![0u32; n * n];
    for a in 0..n {
        for b in 0..n {
            let (ax, ay) = ((a % 6) as f32, (a / 6) as f32 * 1.5);
            let (bx, by) = ((b % 6) as f32, (b / 6) as f32 * 1.5);
            d[a * n + b] = ((ax - bx) * (ax - bx) + (ay - by) * (ay - by)).to_bits();
        }
    }
    let (edges, _) = spanning_tree(n, &d);
    assert_eq!(edges.len(), n - 1);
    assert!(connected(n, &edges), "grid galaxy not fully connected");
}

#[test]
fn lanes_are_normalized_and_unique() {
    let xs: Vec<f32> = (0..40).map(|i| ((i * 37) % 41) as f32).collect();
    let (mut edges, mut adj) = spanning_tree(40, &line_dist(&xs));
    // Extra lanes in both orientations, repeats and self-lanes are folded in.
    for (a, b) in [(3, 9), (9, 3), (3, 9), (7, 7), (39, 0), (0, 39)] {
        add_edge(&mut edges, &mut adj, 40, a, b);
    }
    let mut seen = std::collections::HashSet::new();
    for &(a, b) in &edges {
        assert!(a < b, "edge not normalized");
        assert!(seen.insert((a, b)), "duplicate edge");
    }
}

#[test]
fn add_edge_keeps_the_list_and_table_in_step() {
    let n = 4;
    let mut edges = Vec::new();
    let mut adj = vec![false; n * n];
    add_edge(&mut edges, &mut adj, n, 2, 1);
    assert_eq!(edges, vec![(1, 2)]);
    assert!(adj[1 * n + 2] && !adj[2 * n + 1]);
    add_edge(&mut edges, &mut adj, n, 1, 2);
    add_edge(&mut edges, &mut adj, n, 3, 3);
    assert_eq!(edges, vec![(1, 2)]);
    add_edge(&mut edges, &mut adj, n, 0, 3);
    assert_eq!(edges, vec![(1, 2), (0, 3)]);
}

#[test]
fn tiny_galaxies() {
    let (edges, adj) = spanning_tree(1, &vec![0]);
    assert!(edges.is_empty());
    assert_eq!(adj, vec![false]);
    let (edges, adj) = spanning_tree(0, &vec![]);
    assert!(edges.is_empty() && adj.is_empty());
    let (edges, _) = spanning_tree(2, &line_dist(&[0.0, 3.0]));
    assert_eq!(edges, vec![(0, 1)]);
}

#[test]
fn degrees_count_lane_ends() {
    let edges = vec![(0, 1), (0, 2), (0, 3), (2, 3)];
    assert_eq!(degrees(5, &edges), vec![3, 1, 2, 2, 0]);
    assert_eq!(degrees(0, &vec![]), Vec::<u16>::new());
}

#[test]
fn degrees_saturate() {
    let edges = vec![(0u32, 1u32); 70_000];
    let d = degrees(2, &edges);
    assert_eq!(d, vec![u16::MAX, u16::MAX]);
}

#[test]
fn outermost_takes_the_first_largest() {
    assert_eq!(outermost(&vec![]), 0);
    assert_eq!(outermost(&vec![5, 9, 2, 9]), 1);
    assert_eq!(outermost(&vec![0, 0, 0]), 0);
    assert_eq!(outermost(&vec![1.0f32.to_bits(), 2.5f32.to_bits(), 0.5f32.to_bits()]), 1);
}

#[test]
fn farthest_point_spreads_anchors() {
    let xs = [0.0f32, 1.0, 2.0, 8.0, 9.0, 10.0];
    let d = line_dist(&xs);
    assert_eq!(farthest_from(6, &d, &vec![0]), 5);
    assert_eq!(farthest_from(6, &d, &vec![0, 5]), 2);
    assert_eq!(farthest_from(0, &vec![], &vec![]), 0);
    // Squared radii from the disc centre at x = 5.
    let r: Vec<u32> = xs.iter().map(|x| ((x - 5.0) * (x - 5.0)).to_bits()).collect();
    assert_eq!(spread_anchors(6, &r, &d, 3), vec![0, 5, 2]);
    assert_eq!(spread_anchors(6, &r, &d, 0), vec![0]);
}

#[test]
fn nearest_anchor_prefers_the_earliest_on_ties() {
    let xs = [0.0f32, 1.0, 2.0, 8.0, 9.0, 10.0];
    let d = line_dist(&xs);
    let anchors = vec![0, 5];
    assert_eq!(nearest_anchor(6, &d, 1, &anchors), 0);
    assert_eq!(nearest_anchor(6, &d, 4, &anchors), 1);
    let tie = line_dist(&[0.0, 1.0, 2.0]);
    assert_eq!(nearest_anchor(3, &tie, 1, &vec![2, 0]), 0);
    assert_eq!(nearest_anchor(3, &tie, 1, &vec![]), 0);
    assert!(d.iter().all(|&x| x < FAR));
}

#[test]
fn regions_follow_the_radial_order() {
    // Innermost anchor gets region 0; ties keep anchor order.
    assert_eq!(anchor_regions(&vec![30, 10, 20, 10]), vec![3, 0, 2, 1]);
    // Past the eighth the regions wrap.
    let r: Vec<u32> = (0..10).rev().collect();
    assert_eq!(anchor_regions(&r), vec![1, 0, 7, 6, 5, 4, 3, 2, 1, 0]);
    assert_eq!(anchor_regions(&vec![]), Vec::<u8>::new());
}

#[test]
fn up_to_eight_anchors_get_distinct_regions() {
    let r = vec![7u32, 7, 3, 9, 0, 7, 1, 2];
    let regions = anchor_regions(&r);
    let mut seen = std::collections::HashSet::new();
    for g in regions {
        assert!(seen.insert(g));
    }
}

#[test]
fn ties_go_to_the_lowest_system_and_the_earliest_joined_end() {
    // Systems 1 and 2 are equally far from system 0: the lower number joins first.
    let (edges, _) = spanning_tree(3, &line_dist(&[0.0, 1.0, -1.0]));
    assert_eq!(edges, vec![(0, 1), (0, 2)]);
    // System 2 is as far from 0 as from 1: it hangs off 0, joined earlier.
    let d = vec![0, 1, 5, 1, 0, 5, 5, 5, 0];
    let (edges, _) = spanning_tree(3, &d);
    assert_eq!(edges, vec![(0, 1), (0, 2)]);
}

#[test]
fn nearest_candidates_come_first() {
    let xs = [0.0f32, 9.0, 1.0, 4.0, 2.0, 7.0, 3.0];
    let d = line_dist(&xs);
    let c = nearest_candidates(7, &d, 0, 3);
    assert_eq!(c.len(), 6);
    let mut first: Vec<usize> = c[..3].iter().map(|&(_, b)| b).collect();
    first.sort();
    assert_eq!(first, vec![2, 4, 6]);
    for &(bits, b) in &c {
        assert_eq!(bits, d[b]);
        assert_ne!(b, 0);
    }
    let mut all: Vec<usize> = c.iter().map(|&(_, b)| b).collect();
    all.sort();
    assert_eq!(all, vec![1, 2, 3, 4, 5, 6]);
    // More neighbours asked for than exist: every other system, still a permutation.
    assert_eq!(nearest_candidates(2, &line_dist(&[0.0, 1.0]), 1, 5), vec![(1.0f32.to_bits(), 0)]);
}
