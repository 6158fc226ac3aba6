//! The hyperlane graph of a galaxy map.
//!
//! Star systems are wired together by a minimum spanning tree over their
//! pairwise distances — which guarantees the whole galaxy is traversable — plus
//! a seeded fraction of short extra lanes for loops and alternate routes. Lanes
//! are undirected and stored normalized (`a < b`), each at most once, with a
//! dense membership table beside the list.
//!
//! Distances come in as the bit patterns of the generator's `f32` squared
//! distances. For finite non-negative floats the bit pattern orders exactly as
//! the float does, so every comparison below decides what the float comparison
//! decides.

use vstd::prelude::*;
use crate::kinds::region_count_total;

verus! {

/// The bit pattern of `f32::MAX`: the "not yet reached" distance.
pub const FAR: u32 = 0x7f7f_ffff;

/// Slot of lane `(a, b)` in the membership table of an `n`-node graph.
pub open spec fn slot(n: int, a: int, b: int) -> int {
    a * n + b
}

/// Whether the membership table marks lane `(a, b)`.
pub open spec fn marked(adj: Seq<bool>, n: int, a: int, b: int) -> bool {
    adj[slot(n, a, b)]
}

/// A well-formed lane set over `n` nodes: every lane is normalized (`a < b`)
/// and in range, no lane occurs twice, and the membership table marks exactly
/// the lanes in the list.
pub open spec fn lanes_ok(edges: Seq<(u32, u32)>, adj: Seq<bool>, n: int) -> bool {
    &&& adj.len() == n * n
    &&& forall|k: int| 0 <= k < edges.len() ==> #[trigger] edges[k].0 < edges[k].1 && edges[k].1 < n
    &&& forall|i: int, j: int| 0 <= i < j < edges.len() ==> #[trigger] edges[i] != #[trigger] edges[j]
    &&& forall|a: int, b: int|
        0 <= a < b < n ==> (#[trigger] marked(adj, n, a, b) <==> edges.contains((a as u32, b as u32)))
}

/// A lane joins `a` and `b` (either way round).
pub open spec fn linked(edges: Seq<(u32, u32)>, a: int, b: int) -> bool {
    exists|k: int|
        0 <= k < edges.len() && ((edges[k].0 == a && edges[k].1 == b) || (edges[k].0 == b
            && edges[k].1 == a))
}

/// `p` is a route from `from` to `to`: consecutive stops are joined by lanes.
pub open spec fn is_route(edges: Seq<(u32, u32)>, p: Seq<int>, from: int, to: int) -> bool {
    &&& p.len() >= 1
    &&& p[0] == from
    &&& p.last() == to
    &&& forall|i: int| 0 <= i < p.len() - 1 ==> #[trigger] linked(edges, p[i], p[i + 1])
}

/// Some route of lanes leads from `from` to `to`.
pub open spec fn reachable(edges: Seq<(u32, u32)>, from: int, to: int) -> bool {
    exists|p: Seq<int>| #[trigger] is_route(edges, p, from, to)
}

/// The number of lane endpoints at node `v` among `edges`.
pub open spec fn endpoint_count(edges: Seq<(u32, u32)>, v: int) -> int
    decreases edges.len(),
{
    if edges.len() == 0 {
        0
    } else {
        endpoint_count(edges.drop_last(), v) + (if edges.last().0 == v { 1int } else { 0 }) + (
        if edges.last().1 == v { 1int } else { 0 })
    }
}

proof fn lemma_slot_bounds(n: int, a: int, b: int)
    requires
        0 <= a < n,
        0 <= b < n,
    ensures
        0 <= slot(n, a, b) < n * n,
{
    assert(0 <= a * n + b < n * n) by (nonlinear_arith)
        requires
            0 <= a < n,
            0 <= b < n,
    ;
}

proof fn lemma_slot_injective(n: int, a: int, b: int, c: int, d: int)
    requires
        0 <= a < n,
        0 <= b < n,
        0 <= c < n,
        0 <= d < n,
        slot(n, a, b) == slot(n, c, d),
    ensures
        a == c,
        b == d,
{
    assert(a == c) by (nonlinear_arith)
        requires
            0 <= b < n,
            0 <= d < n,
            a * n + b == c * n + d,
            0 <= a,
            0 <= c,
    ;
}

/// Adding a lane never breaks a route.
proof fn lemma_route_survives_push(edges: Seq<(u32, u32)>, e: (u32, u32), p: Seq<int>, from: int, to: int)
    requires
        is_route(edges, p, from, to),
    ensures
        is_route(edges.push(e), p, from, to),
{
    assert forall|i: int| 0 <= i < p.len() - 1 implies #[trigger] linked(edges.push(e), p[i], p[i + 1]) by {
        assert(linked(edges, p[i], p[i + 1]));
        let k = choose|k: int|
            0 <= k < edges.len() && ((edges[k].0 == p[i] && edges[k].1 == p[i + 1]) || (edges[k].0
                == p[i + 1] && edges[k].1 == p[i]));
        assert(edges.push(e)[k] == edges[k]);
    }
}

/// Add the undirected lane between `a` and `b`, normalized to `(lo, hi)`,
/// unless it is a self-lane or already present.
pub fn add_edge(edges: &mut Vec<(u32, u32)>, adj: &mut Vec<bool>, n: usize, a: usize, b: usize)
    requires
        lanes_ok(old(edges)@, old(adj)@, n as int),
        a < n,
        b < n,
        n <= u32::MAX,
    ensures
        lanes_ok(final(edges)@, final(adj)@, n as int),
        ({
            let (lo, hi) = if a < b { (a as u32, b as u32) } else { (b as u32, a as u32) };
            final(edges)@ == if a == b || old(edges)@.contains((lo, hi)) {
                old(edges)@
            } else {
                old(edges)@.push((lo, hi))
            }
        }),
{
    if a == b {
        return;
    }
    let (lo, hi) = if a < b { (a, b) } else { (b, a) };
    proof {
        lemma_slot_bounds(n as int, lo as int, hi as int);
    }
    let len = adj.len();
    assert(lo * n + hi < len);
    if !adj[lo * n + hi] {
        let ghost old_edges = edges@;
        let ghost old_adj = adj@;
        adj.set(lo * n + hi, true);
        edges.push((lo as u32, hi as u32));
        assert(!old_edges.contains((lo as u32, hi as u32))) by {
            assert(marked(old_adj, n as int, lo as int, hi as int) == false);
        }
        assert forall|x: int, y: int| 0 <= x < y < n implies (#[trigger] marked(adj@, n as int, x, y)
            <==> edges@.contains((x as u32, y as u32))) by {
            lemma_slot_bounds(n as int, x, y);
            if slot(n as int, x, y) == slot(n as int, lo as int, hi as int) {
                lemma_slot_injective(n as int, x, y, lo as int, hi as int);
                assert(edges@[edges@.len() - 1] == (lo as u32, hi as u32));
            } else {
                assert(marked(adj@, n as int, x, y) == marked(old_adj, n as int, x, y));
                if edges@.contains((x as u32, y as u32)) {
                    let k = choose|k: int| 0 <= k < edges@.len() && edges@[k] == (x as u32, y as u32);
                    if k < old_edges.len() {
                        assert(old_edges[k] == edges@[k]);
                    } else {
                        assert((x as u32, y as u32) == (lo as u32, hi as u32));
                    }
                }
                if old_edges.contains((x as u32, y as u32)) {
                    let k = choose|k: int| 0 <= k < old_edges.len() && old_edges[k] == (x as u32, y as u32);
                    assert(edges@[k] == old_edges[k]);
                }
            }
        }
        assert forall|i: int, j: int| 0 <= i < j < edges@.len() implies #[trigger] edges@[i]
            != #[trigger] edges@[j] by {
            if j == edges@.len() - 1 {
                assert(old_edges[i] == edges@[i]);
            } else {
                assert(old_edges[i] == edges@[i] && old_edges[j] == edges@[j]);
            }
        }
        assert forall|k: int| 0 <= k < edges@.len() implies #[trigger] edges@[k].0 < edges@[k].1
            && edges@[k].1 < n by {
            if k < old_edges.len() {
                assert(old_edges[k] == edges@[k]);
            }
        }
    } else {
        assert(edges@.contains((lo as u32, hi as u32))) by {
            assert(marked(adj@, n as int, lo as int, hi as int));
        }
    }
}

/// The lane joining `a` and `b`, stored low end first.
pub open spec fn lane_of(a: int, b: int) -> (u32, u32) {
    if a < b {
        (a as u32, b as u32)
    } else {
        (b as u32, a as u32)
    }
}

/// Lane `k` is the greedy step of Prim's algorithm: it joins system
/// `order[k + 1]` to one `order[j]` of the `k + 1` systems joined before it,
/// and no lane from those `k + 1` systems (rank `<= k`) to any other system
/// is shorter. Ties go first to the lowest-numbered system: every outside
/// system numbered below `order[k + 1]` is strictly farther; and then to the
/// earliest-joined end: every system joined before `order[j]` is strictly
/// farther from `order[k + 1]`. `rank[v]` is the position of `v` in `order`.
pub open spec fn lane_is_greedy(dist: Seq<u32>, n: int, edges: Seq<(u32, u32)>, order: Seq<int>, rank: Seq<int>, k: int) -> bool {
    exists|j: int|
        #![trigger order[j]]
        0 <= j <= k && edges[k] == lane_of(order[j], order[k + 1]) && (forall|a: int, b: int|
            0 <= a < n && 0 <= b < n && rank[a] <= k < rank[b] ==> dist[slot(n, order[j], order[k + 1])]
                <= #[trigger] dist[slot(n, a, b)] && (b < order[k + 1] ==> dist[slot(
                n,
                order[j],
                order[k + 1],
            )] < dist[slot(n, a, b)])) && (forall|i: int|
            0 <= i < j ==> dist[slot(n, order[j], order[k + 1])] < #[trigger] dist[slot(
                n,
                order[i],
                order[k + 1],
            )])
}

/// The lanes grew as Prim's algorithm grows them from system 0: `order` lists
/// all `n` systems in the order they were joined (`rank` is its inverse), and
/// every lane is the greedy step of its turn — a shortest lane across the cut
/// between the systems joined so far and the rest, which is what makes the
/// tree a minimum spanning tree.
pub open spec fn grown_by_prim(dist: Seq<u32>, n: int, edges: Seq<(u32, u32)>, order: Seq<int>, rank: Seq<int>) -> bool {
    &&& order.len() == n
    &&& rank.len() == n
    &&& order[0] == 0
    &&& forall|i: int| 0 <= i < n ==> 0 <= #[trigger] order[i] < n && rank[order[i]] == i
    &&& forall|v: int| 0 <= v < n ==> 0 <= #[trigger] rank[v] < n && order[rank[v]] == v
    &&& forall|k: int| 0 <= k < n - 1 ==> #[trigger] lane_is_greedy(dist, n, edges, order, rank, k)
}

/// Joining `u` (the cheapest fringe system) by its best lane is this step's
/// greedy lane.
proof fn lemma_new_lane_is_greedy(
    dist: Seq<u32>,
    n: int,
    old_edges: Seq<(u32, u32)>,
    e: (u32, u32),
    old_order: Seq<int>,
    old_rank: Seq<int>,
    old_tree: Set<int>,
    old_in: Seq<bool>,
    mind: Seq<u32>,
    parent: Seq<usize>,
    u: int,
    t: int,
)
    requires
        1 <= t < n,
        0 <= u < n,
        old_edges.len() == t - 1,
        old_order.len() == t,
        old_rank.len() == n,
        old_in.len() == n,
        mind.len() == n,
        parent.len() == n,
        !old_in[u],
        forall|v: int| 0 <= v < n ==> (#[trigger] old_in[v] <==> old_tree.contains(v)),
        forall|i: int| 0 <= i < t ==> 0 <= #[trigger] old_order[i] < n && old_rank[old_order[i]] == i,
        forall|v: int|
            0 <= v < n ==> (#[trigger] old_tree.contains(v) ==> 0 <= old_rank[v] < t && old_order[old_rank[v]] == v),
        forall|v: int| 0 <= v < n && !old_tree.contains(v) ==> #[trigger] old_rank[v] == n,
        forall|v: int|
            0 <= v < n && !(#[trigger] old_in[v]) ==> parent[v] < n && old_in[parent[v] as int] && dist[slot(
                n,
                parent[v] as int,
                v,
            )] == mind[v],
        forall|a: int, v: int|
            0 <= v < n && !old_in[v] && #[trigger] old_tree.contains(a) ==> mind[v] <= #[trigger] dist[slot(n, a, v)],
        forall|w: int| 0 <= w < n && !(#[trigger] old_in[w]) ==> mind[w] >= mind[u],
        forall|w: int| 0 <= w < u && !(#[trigger] old_in[w]) ==> mind[w] > mind[u],
        forall|a: int|
            #[trigger] old_tree.contains(a) && old_rank[a] < old_rank[parent[u] as int] ==> mind[u]
                < dist[slot(n, a, u)],
        e == lane_of(parent[u] as int, u),
    ensures
        lane_is_greedy(dist, n, old_edges.push(e), old_order.push(u), old_rank.update(u, t), t - 1),
{
    let p = parent[u] as int;
    let order = old_order.push(u);
    let rank = old_rank.update(u, t);
    let edges = old_edges.push(e);
    let j = old_rank[p];
    assert(old_tree.contains(p));
    assert(0 <= j < t && old_order[j] == p);
    assert(order[j] == p && order[t] == u);
    assert(edges[t - 1] == lane_of(order[j], order[t]));
    assert forall|a: int, b: int|
        0 <= a < n && 0 <= b < n && rank[a] <= t - 1 < rank[b] implies dist[slot(n, order[j], order[t])]
        <= #[trigger] dist[slot(n, a, b)] && (b < order[t] ==> dist[slot(n, order[j], order[t])] < dist[slot(
        n,
        a,
        b,
    )]) by {
        assert(a != u);
        assert(old_rank[a] <= t - 1);
        assert(old_tree.contains(a)) by {
            if !old_tree.contains(a) {
                assert(old_rank[a] == n);
            }
        }
        if b == u {
            assert(mind[u] <= dist[slot(n, a, u)]);
        } else {
            assert(old_rank[b] > t - 1);
            assert(!old_tree.contains(b));
            assert(!old_in[b]);
            assert(mind[b] <= dist[slot(n, a, b)]);
            assert(mind[b] >= mind[u]);
            if b < u {
                assert(mind[b] > mind[u]);
            }
        }
    }
    assert forall|i: int| 0 <= i < j implies dist[slot(n, order[j], order[t])] < #[trigger] dist[slot(
        n,
        order[i],
        order[t],
    )] by {
        let a = old_order[i];
        assert(order[i] == a);
        assert(old_rank[a] == i);
        assert(0 <= a < n);
        assert(old_tree.contains(a)) by {
            if !old_tree.contains(a) {
                assert(old_rank[a] == n);
            }
        }
    }
}

/// An earlier lane stays the greedy step of its turn when a later system and
/// lane are appended.
proof fn lemma_lane_stays_greedy(
    dist: Seq<u32>,
    n: int,
    old_edges: Seq<(u32, u32)>,
    e: (u32, u32),
    old_order: Seq<int>,
    old_rank: Seq<int>,
    u: int,
    t: int,
    k: int,
)
    requires
        0 <= k < old_edges.len(),
        old_edges.len() <= t - 1,
        old_order.len() == t,
        old_rank.len() == n,
        0 <= u < n,
        old_rank[u] == n,
        t <= n,
        lane_is_greedy(dist, n, old_edges, old_order, old_rank, k),
    ensures
        lane_is_greedy(dist, n, old_edges.push(e), old_order.push(u), old_rank.update(u, t), k),
{
    let order = old_order.push(u);
    let rank = old_rank.update(u, t);
    let edges = old_edges.push(e);
    let j = choose|j: int|
        #![trigger old_order[j]]
        0 <= j <= k && old_edges[k] == lane_of(old_order[j], old_order[k + 1]) && (forall|a: int, b: int|
            0 <= a < n && 0 <= b < n && old_rank[a] <= k < old_rank[b] ==> dist[slot(n, old_order[j], old_order[k + 1])]
                <= #[trigger] dist[slot(n, a, b)] && (b < old_order[k + 1] ==> dist[slot(
                n,
                old_order[j],
                old_order[k + 1],
            )] < dist[slot(n, a, b)])) && (forall|i: int|
            0 <= i < j ==> dist[slot(n, old_order[j], old_order[k + 1])] < #[trigger] dist[slot(
                n,
                old_order[i],
                old_order[k + 1],
            )]);
    assert(order[j] == old_order[j] && order[k + 1] == old_order[k + 1]);
    assert(edges[k] == old_edges[k]);
    assert forall|a: int, b: int|
        0 <= a < n && 0 <= b < n && rank[a] <= k < rank[b] implies dist[slot(n, order[j], order[k + 1])]
        <= #[trigger] dist[slot(n, a, b)] && (b < order[k + 1] ==> dist[slot(
        n,
        order[j],
        order[k + 1],
    )] < dist[slot(n, a, b)]) by {
        assert(old_rank[a] <= k < old_rank[b]);
    }
    assert forall|i: int| 0 <= i < j implies dist[slot(n, order[j], order[k + 1])] < #[trigger] dist[slot(
        n,
        order[i],
        order[k + 1],
    )] by {
        assert(order[i] == old_order[i]);
    }
}

/// Connect all `n` systems with the minimum spanning tree of their pairwise
/// distances (Prim's algorithm, grown from system 0). `dist[u * n + v]` is the
/// bit pattern of the squared distance from `u` to `v`; every one must be a
/// finite float below `f32::MAX`, as squared distances on a galaxy disc are.
///
/// Returns the lane list and its membership table. The lanes form a tree: with
/// `n ≥ 1` systems there are exactly `n − 1` of them and every system can be
/// reached from system 0. They are the tree Prim's algorithm grows: in the order
/// the systems are joined, each lane is a shortest lane from the systems joined
/// so far to the rest.
pub fn spanning_tree(n: usize, dist: &Vec<u32>) -> (r: (Vec<(u32, u32)>, Vec<bool>))
    requires
        n <= u32::MAX,
        n * n <= usize::MAX,
        dist@.len() == n * n,
        forall|i: int| 0 <= i < n * n ==> #[trigger] dist@[i] < FAR,
    ensures
        lanes_ok(r.0@, r.1@, n as int),
        n >= 1 ==> r.0@.len() == n - 1,
        forall|v: int| 0 <= v < n ==> reachable(r.0@, 0, v),
        n >= 1 ==> exists|order: Seq<int>, rank: Seq<int>| grown_by_prim(dist@, n as int, r.0@, order, rank),
{
    let mut adj: Vec<bool> = vec![false; n * n];
    let mut edges: Vec<(u32, u32)> = Vec::new();
    assert forall|a: int, b: int| 0 <= a < b < n implies (#[trigger] marked(adj@, n as int, a, b)
        <==> edges@.contains((a as u32, b as u32))) by {
        lemma_slot_bounds(n as int, a, b);
    }
    if n > 1 {
        let grown = prim(n, dist, &mut edges, &mut adj);
        assert(grown_by_prim(dist@, n as int, edges@, grown@.0, grown@.1));
        assert(exists|o: Seq<int>, k: Seq<int>| grown_by_prim(dist@, n as int, edges@, o, k));
    } else {
        assert forall|v: int| 0 <= v < n implies reachable(edges@, 0, v) by {
            let p = seq![0int];
            assert(is_route(edges@, p, 0, v));
        }
        if n == 1 {
            let ghost order = seq![0int];
            let ghost rank = seq![0int];
            assert(grown_by_prim(dist@, 1, edges@, order, rank));
            assert(exists|o: Seq<int>, k: Seq<int>| grown_by_prim(dist@, n as int, edges@, o, k));
        }
    }
    (edges, adj)
}

/// Grow the tree (the body of [`spanning_tree`] for `n > 1`).
fn prim(n: usize, dist: &Vec<u32>, edges: &mut Vec<(u32, u32)>, adj: &mut Vec<bool>) -> (order: Ghost<(Seq<int>, Seq<int>)>)
    requires
        1 < n <= u32::MAX,
        n * n <= usize::MAX,
        dist@.len() == n * n,
        forall|i: int| 0 <= i < n * n ==> #[trigger] dist@[i] < FAR,
        old(edges)@.len() == 0,
        lanes_ok(old(edges)@, old(adj)@, n as int),
    ensures
        lanes_ok(final(edges)@, final(adj)@, n as int),
        final(edges)@.len() == n - 1,
        forall|v: int| 0 <= v < n ==> reachable(final(edges)@, 0, v),
        grown_by_prim(dist@, n as int, final(edges)@, order@.0, order@.1),
{
    let ghost ni: int = n as int;
    let mut in_tree = vec![false; n];
    let mut mind = vec![FAR; n];
    let mut parent = vec![usize::MAX; n];
    mind.set(0, 0);
    let ghost mut tree: Set<int> = Set::empty();
    let ghost mut routes: Map<int, Seq<int>> = Map::empty();
    let ghost mut order: Seq<int> = Seq::empty();
    let ghost mut rank: Seq<int> = Seq::new(n as nat, |v: int| ni);
    let mut t: usize = 0;
    while t < n
        invariant
            t <= n,
            ni == n,
            1 < n <= u32::MAX,
            n * n <= usize::MAX,
            dist@.len() == n * n,
            forall|i: int| 0 <= i < n * n ==> #[trigger] dist@[i] < FAR,
            in_tree@.len() == n,
            mind@.len() == n,
            parent@.len() == n,
            tree.finite(),
            tree.len() == t,
            forall|v: int| #[trigger] tree.contains(v) ==> 0 <= v < n,
            forall|v: int| 0 <= v < n ==> (#[trigger] in_tree@[v] <==> tree.contains(v)),
            lanes_ok(edges@, adj@, ni),
            t >= 1 ==> edges@.len() == t - 1,
            t == 0 ==> edges@.len() == 0,
            forall|k: int|
                0 <= k < edges@.len() ==> tree.contains(#[trigger] edges@[k].0 as int) && tree.contains(
                    edges@[k].1 as int,
                ),
            t == 0 ==> mind@[0] == 0,
            t == 0 ==> forall|v: int| 0 < v < n ==> #[trigger] mind@[v] == FAR,
            t == 0 ==> forall|v: int| 0 <= v < n ==> #[trigger] parent@[v] == usize::MAX,
            t >= 1 ==> forall|v: int|
                0 <= v < n && !(#[trigger] in_tree@[v]) ==> mind@[v] < FAR && parent@[v] < n
                    && in_tree@[parent@[v] as int] && dist@[slot(ni, parent@[v] as int, v)] == mind@[v],
            t >= 1 ==> forall|a: int, v: int|
                0 <= v < n && !in_tree@[v] && #[trigger] tree.contains(a) ==> mind@[v] <= #[trigger] dist@[slot(ni, a, v)]
                    && (rank[a] < rank[parent@[v] as int] ==> mind@[v] < dist@[slot(ni, a, v)]),
            t >= 1 ==> tree.contains(0),
            t == 0 ==> tree == Set::<int>::empty(),
            forall|v: int| #[trigger]
                tree.contains(v) ==> routes.contains_key(v) && is_route(edges@, routes[v], 0, v),
            order.len() == t,
            rank.len() == n,
            t >= 1 ==> order[0] == 0,
            forall|i: int| 0 <= i < t ==> 0 <= #[trigger] order[i] < n && rank[order[i]] == i,
            forall|v: int|
                0 <= v < n ==> (#[trigger] tree.contains(v) ==> 0 <= rank[v] < t && order[rank[v]] == v),
            forall|v: int| 0 <= v < n && !tree.contains(v) ==> #[trigger] rank[v] == n,
            forall|k: int| 0 <= k < edges@.len() ==> #[trigger] lane_is_greedy(dist@, ni, edges@, order, rank, k),
        decreases n - t,
    {
        // A system outside the tree exists while it is not full.
        proof {
            if !(exists|v: int| 0 <= v < n && !tree.contains(v)) {
                vstd::set_lib::lemma_int_range(0, ni);
                assert(vstd::set_lib::set_int_range(0, ni).subset_of(tree));
                vstd::set_lib::lemma_len_subset(vstd::set_lib::set_int_range(0, ni), tree);
            }
        }
        let ghost free: int = choose|v: int| 0 <= v < n && !tree.contains(v);
        proof {
            if t == 0 {
                assert(!tree.contains(0));
                assert(!in_tree@[0]);
            }
            assert(!in_tree@[free]);
        }
        // Cheapest fringe system not yet in the tree.
        let mut u = usize::MAX;
        let mut best = FAR;
        let mut v: usize = 0;
        while v < n
            invariant
                v <= n,
                in_tree@.len() == n,
                mind@.len() == n,
                u == usize::MAX ==> best == FAR,
                u != usize::MAX ==> u < v && !in_tree@[u as int] && mind@[u as int] == best && best
                    < FAR,
                forall|w: int| 0 <= w < v && !(#[trigger] in_tree@[w]) ==> mind@[w] >= best,
                u != usize::MAX ==> forall|w: int| 0 <= w < u && !(#[trigger] in_tree@[w]) ==> mind@[w] > best,
            decreases n - v,
        {
            if !in_tree[v] && mind[v] < best {
                best = mind[v];
                u = v;
            }
            v += 1;
        }
        proof {
            if t == 0 {
                assert(mind@[0] >= best);
                assert(u != usize::MAX);
                assert(u == 0) by {
                    if u != 0 {
                        assert(mind@[u as int] == FAR);
                    }
                }
            } else {
                assert(mind@[free] < FAR);
                assert(u != usize::MAX);
            }
        }
        let ghost old_tree = tree;
        let ghost old_in = in_tree@;
        let ghost old_order = order;
        let ghost old_rank = rank;
        in_tree.set(u, true);
        proof {
            tree = tree.insert(u as int);
            order = order.push(u as int);
            rank = rank.update(u as int, t as int);
            assert forall|i: int| 0 <= i < t + 1 implies 0 <= #[trigger] order[i] < n && rank[order[i]]
                == i by {
                if i < t {
                    assert(order[i] == old_order[i]);
                    assert(old_tree.contains(old_order[i]));
                }
            }
        }
        let p = parent[u];
        if p != usize::MAX {
            let ghost old_edges = edges@;
            proof {
                assert(old_in[p as int]);
                assert(old_tree.contains(p as int));
                let (lo, hi) = if u < p { (u as u32, p as u32) } else { (p as u32, u as u32) };
                if old_edges.contains((lo, hi)) {
                    let k = choose|k: int| 0 <= k < old_edges.len() && old_edges[k] == (lo, hi);
                    assert(old_tree.contains(old_edges[k].0 as int));
                    assert(old_tree.contains(old_edges[k].1 as int));
                }
            }
            add_edge(edges, adj, n, u, p);
            proof {
                let (lo, hi) = if u < p { (u as u32, p as u32) } else { (p as u32, u as u32) };
                let e = (lo, hi);
                assert(edges@ == old_edges.push(e));
                assert forall|w: int| #[trigger] old_tree.contains(w) implies routes.contains_key(w)
                    && is_route(edges@, routes[w], 0, w) by {
                    lemma_route_survives_push(old_edges, e, routes[w], 0, w);
                }
                let pr = routes[p as int];
                lemma_route_survives_push(old_edges, e, pr, 0, p as int);
                let nr = pr.push(u as int);
                assert(linked(edges@, p as int, u as int)) by {
                    assert(edges@[edges@.len() - 1] == e);
                }
                assert forall|i: int| 0 <= i < nr.len() - 1 implies #[trigger] linked(edges@, nr[i], nr[i + 1]) by {
                    if i < pr.len() - 1 {
                        assert(nr[i] == pr[i] && nr[i + 1] == pr[i + 1]);
                    }
                }
                assert(is_route(edges@, nr, 0, u as int));
                routes = routes.insert(u as int, nr);
                assert(tree.contains(u as int) && tree.contains(p as int));
                assert forall|k: int| 0 <= k < edges@.len() implies tree.contains(#[trigger] edges@[k].0 as int)
                    && tree.contains(edges@[k].1 as int) by {
                    if k < old_edges.len() {
                        assert(edges@[k] == old_edges[k]);
                        assert(old_tree.contains(old_edges[k].0 as int));
                        assert(old_tree.contains(old_edges[k].1 as int));
                    } else {
                        assert(edges@[k] == e);
                    }
                }
                // The new lane is the greedy lane of this step.
                lemma_new_lane_is_greedy(
                    dist@, ni, old_edges, e, old_order, old_rank, old_tree, old_in, mind@, parent@, u as int, t as int,
                );
                // Earlier lanes keep their witnesses.
                assert forall|k: int| 0 <= k < edges@.len() implies #[trigger] lane_is_greedy(
                    dist@,
                    ni,
                    edges@,
                    order,
                    rank,
                    k,
                ) by {
                    if k < old_edges.len() {
                        lemma_lane_stays_greedy(dist@, ni, old_edges, e, old_order, old_rank, u as int, t as int, k);
                    }
                }
            }
        } else {
            proof {
                assert(t == 0);
                let r0 = seq![0int];
                assert(is_route(edges@, r0, 0, 0));
                routes = routes.insert(0, r0);
            }
        }
        // Relax every outside system's distance to the tree through `u`.
        let ghost mind0 = mind@;
        let ghost parent0 = parent@;
        let mut v: usize = 0;
        while v < n
            invariant
                v <= n,
                ni == n,
                1 < n <= u32::MAX,
                n * n <= usize::MAX,
                u < n,
                in_tree@[u as int],
                dist@.len() == n * n,
                forall|i: int| 0 <= i < n * n ==> #[trigger] dist@[i] < FAR,
                in_tree@.len() == n,
                mind@.len() == n,
                parent@.len() == n,
                mind0.len() == n,
                parent0.len() == n,
                tree == old_tree.insert(u as int),
                forall|w: int| 0 <= w < n ==> (#[trigger] in_tree@[w] <==> tree.contains(w)),
                forall|w: int|
                    0 <= w < v && !(#[trigger] in_tree@[w]) ==> mind@[w] < FAR && parent@[w] < n
                        && in_tree@[parent@[w] as int] && dist@[slot(ni, parent@[w] as int, w)] == mind@[w],
                forall|a: int, w: int|
                    0 <= w < v && !in_tree@[w] && #[trigger] tree.contains(a) ==> mind@[w] <= #[trigger] dist@[slot(
                        ni,
                        a,
                        w,
                    )] && (rank[a] < rank[parent@[w] as int] ==> mind@[w] < dist@[slot(ni, a, w)]),
                rank.len() == n,
                rank[u as int] == t,
                forall|a: int| #[trigger] old_tree.contains(a) ==> rank[a] < t,
                forall|w: int| v <= w < n ==> #[trigger] mind@[w] == mind0[w],
                forall|w: int| v <= w < n ==> #[trigger] parent@[w] == parent0[w],
                t >= 1 ==> forall|w: int|
                    0 <= w < n && !(#[trigger] in_tree@[w]) ==> mind0[w] < FAR && parent0[w] < n
                        && in_tree@[parent0[w] as int] && dist@[slot(ni, parent0[w] as int, w)] == mind0[w],
                t >= 1 ==> forall|a: int, w: int|
                    0 <= w < n && !in_tree@[w] && #[trigger] old_tree.contains(a) ==> mind0[w] <= #[trigger] dist@[slot(
                        ni,
                        a,
                        w,
                    )] && (rank[a] < rank[parent0[w] as int] ==> mind0[w] < dist@[slot(ni, a, w)]),
                t == 0 ==> u == 0,
                t == 0 ==> old_tree == Set::<int>::empty(),
                t == 0 ==> forall|w: int| 0 < w < n ==> #[trigger] mind0[w] == FAR,
            decreases n - v,
        {
            if !in_tree[v] {
                proof {
                    lemma_slot_bounds(ni, u as int, v as int);
                }
                let d = dist[u * n + v];
                if d < mind[v] {
                    mind.set(v, d);
                    parent.set(v, u);
                } else {
                    proof {
                        if t == 0 {
                            assert(v != 0);
                            assert(mind0[v as int] == FAR);
                        }
                    }
                }
                proof {
                    assert forall|a: int| #[trigger] tree.contains(a) implies mind@[v as int] <= dist@[slot(
                        ni,
                        a,
                        v as int,
                    )] && (rank[a] < rank[parent@[v as int] as int] ==> mind@[v as int] < dist@[slot(
                        ni,
                        a,
                        v as int,
                    )]) by {
                        if a != u {
                            assert(old_tree.contains(a));
                            if t == 0 {
                                assert(!Set::<int>::empty().contains(a));
                            }
                            assert(rank[a] < t);
                        }
                    }
                }
            }
            v += 1;
        }
        proof {
            assert forall|i: int| 0 <= i < n * n implies #[trigger] dist@[i] < FAR by {}
        }
        t += 1;
    }
    proof {
        vstd::set_lib::lemma_int_range(0, ni);
        assert(tree.subset_of(vstd::set_lib::set_int_range(0, ni)));
        vstd::set_lib::lemma_subset_equality(tree, vstd::set_lib::set_int_range(0, ni));
        assert forall|v: int| 0 <= v < n implies reachable(edges@, 0, v) by {
            assert(tree.contains(v));
            assert(is_route(edges@, routes[v], 0, v));
        }
        assert forall|v: int| 0 <= v < n implies 0 <= #[trigger] rank[v] < n && order[rank[v]] == v by {
            assert(tree.contains(v));
        }
    }
    Ghost((order, rank))
}

/// The lane count at each system — its hub-ness — with each count saturating
/// at `u16::MAX`.
pub fn degrees(n: usize, edges: &Vec<(u32, u32)>) -> (r: Vec<u16>)
    requires
        forall|k: int| 0 <= k < edges@.len() ==> #[trigger] edges@[k].0 < n && edges@[k].1 < n,
    ensures
        r@.len() == n,
        forall|v: int|
            0 <= v < n ==> #[trigger] r@[v] as int == if endpoint_count(edges@, v) < u16::MAX {
                endpoint_count(edges@, v)
            } else {
                u16::MAX as int
            },
{
    let mut degree = vec![0u16; n];
    let mut k: usize = 0;
    while k < edges.len()
        invariant
            k <= edges@.len(),
            degree@.len() == n,
            forall|j: int| 0 <= j < edges@.len() ==> #[trigger] edges@[j].0 < n && edges@[j].1 < n,
            forall|v: int|
                0 <= v < n ==> #[trigger] degree@[v] as int == if endpoint_count(edges@.take(k as int), v)
                    < u16::MAX {
                    endpoint_count(edges@.take(k as int), v)
                } else {
                    u16::MAX as int
                },
        decreases edges@.len() - k,
    {
        let (a, b) = edges[k];
        let ghost before = degree@;
        let da = degree[a as usize];
        degree.set(a as usize, da.saturating_add(1));
        let db = degree[b as usize];
        degree.set(b as usize, db.saturating_add(1));
        assert(edges@.take(k as int + 1).drop_last() =~= edges@.take(k as int));
        assert(edges@.take(k as int + 1).last() == edges@[k as int]);
        k += 1;
    }
    assert(edges@.take(edges@.len() as int) =~= edges@);
    degree
}


/// The other systems as seen from system `a`: `(distance bits, system)` for
/// every `b != a`, in system order.
pub open spec fn others(dist: Seq<u32>, n: int, a: int) -> Seq<(u32, usize)> {
    Seq::new(
        (n - 1) as nat,
        |k: int|
            {
                let b = if k < a { k } else { k + 1 };
                (dist[slot(n, a, b)], b as usize)
            },
    )
}

/// Reorders `cand` so that the entry at `i` lands where a sort by distance
/// would put it, through `slice::select_nth_unstable_by_key` keyed on the
/// distance bits.
///
/// Trusted, from std's documentation: the slice is permuted, nothing before
/// `i` is farther and nothing after it nearer. Where equal distances end up is
/// left unsaid, as the documentation leaves it.
#[verifier::external_body]
fn select_nearest(cand: &mut Vec<(u32, usize)>, i: usize)
    requires
        i < old(cand)@.len(),
    ensures
        final(cand)@.len() == old(cand)@.len(),
        final(cand)@.to_multiset() == old(cand)@.to_multiset(),
        forall|x: int| 0 <= x < i ==> #[trigger] final(cand)@[x].0 <= final(cand)@[i as int].0,
        forall|y: int| i < y < final(cand)@.len() ==> #[trigger] final(cand)@[y].0 >= final(cand)@[i as int].0,
{
    cand.select_nth_unstable_by_key(i, |c| c.0);
}

/// The candidates for system `a`'s extra short lanes: every other system with
/// its distance bits, reordered so that the first `min(knn, n - 1)` of them
/// are the nearest — none of those is farther than any system after them.
pub fn nearest_candidates(n: usize, dist: &Vec<u32>, a: usize, knn: usize) -> (c: Vec<(u32, usize)>)
    requires
        2 <= n,
        a < n,
        n * n <= usize::MAX,
        dist@.len() == n * n,
    ensures
        c@.len() == n - 1,
        c@.to_multiset() == others(dist@, n as int, a as int).to_multiset(),
        forall|x: int, y: int|
            0 <= x < y < n - 1 && x < knn && knn <= y ==> #[trigger] c@[x].0 <= #[trigger] c@[y].0,
{
    let mut cand: Vec<(u32, usize)> = Vec::new();
    let mut b: usize = 0;
    while b < n
        invariant
            b <= n,
            a < n,
            n * n <= usize::MAX,
            dist@.len() == n * n,
            cand@.len() == if b <= a { b as int } else { b - 1 },
            forall|k: int|
                0 <= k < cand@.len() ==> #[trigger] cand@[k] == others(dist@, n as int, a as int)[k],
        decreases n - b,
    {
        if b != a {
            proof {
                lemma_slot_bounds(n as int, a as int, b as int);
            }
            cand.push((dist[a * n + b], b));
        }
        b += 1;
    }
    assert(cand@ =~= others(dist@, n as int, a as int));
    let m = if knn < cand.len() { knn } else { cand.len() };
    let i = if m > 0 { m - 1 } else { 0 };
    let ghost before = cand@;
    select_nearest(&mut cand, i);
    proof {
        assert forall|x: int, y: int|
            0 <= x < y < n - 1 && x < knn && knn <= y implies #[trigger] cand@[x].0 <= #[trigger] cand@[y].0 by {
            assert(x <= i && i < y);
            if x < i {
                assert(cand@[x].0 <= cand@[i as int].0);
            }
            assert(cand@[y].0 >= cand@[i as int].0);
        }
    }
    cand
}

// ---------------------------------------------------------------------------
// Faction regions: farthest-point anchors, nearest-anchor assignment, and the
// radial order that names the regions.
// ---------------------------------------------------------------------------

/// `k` is the first index holding the largest value of `r`.
pub open spec fn is_first_max(r: Seq<u32>, k: int) -> bool {
    &&& 0 <= k < r.len()
    &&& forall|j: int| 0 <= j < r.len() ==> #[trigger] r[j] <= r[k]
    &&& forall|j: int| 0 <= j < k ==> #[trigger] r[j] < r[k]
}

/// The system farthest from the galactic centre — the first anchor. `r[i]` is
/// the bit pattern of system `i`'s squared radius; ties go to the lowest index.
/// An empty galaxy yields 0.
pub fn outermost(r: &Vec<u32>) -> (k: usize)
    ensures
        r@.len() == 0 ==> k == 0,
        r@.len() > 0 ==> is_first_max(r@, k as int),
{
    if r.len() == 0 {
        return 0;
    }
    let mut best: usize = 0;
    let mut i: usize = 1;
    while i < r.len()
        invariant
            1 <= i <= r@.len(),
            is_first_max(r@.take(i as int), best as int),
        decreases r@.len() - i,
    {
        if r[i] > r[best] {
            best = i;
        }
        i += 1;
        assert forall|j: int| 0 <= j < i implies #[trigger] r@.take(i as int)[j] <= r@.take(
            i as int,
        )[best as int] by {
            if j < i - 1 {
                assert(r@.take(i as int)[j] == r@.take(i - 1)[j]);
            }
        }
        assert forall|j: int| 0 <= j < best implies #[trigger] r@.take(i as int)[j] < r@.take(
            i as int,
        )[best as int] by {
            if j < i - 1 {
                assert(r@.take(i as int)[j] == r@.take(i - 1)[j]);
            }
        }
    }
    assert(r@.take(r@.len() as int) =~= r@);
    best
}

/// The squared distance from system `i` to its nearest anchor (as float bits),
/// or `FAR` with no anchors.
pub open spec fn min_to(dist: Seq<u32>, n: int, i: int, anchors: Seq<usize>) -> u32
    decreases anchors.len(),
{
    if anchors.len() == 0 {
        FAR
    } else {
        let m = min_to(dist, n, i, anchors.drop_last());
        let d = dist[slot(n, i, anchors.last() as int)];
        if d < m {
            d
        } else {
            m
        }
    }
}

/// `k` is the first system whose distance to the nearest anchor is largest.
pub open spec fn is_farthest(dist: Seq<u32>, n: int, anchors: Seq<usize>, k: int) -> bool {
    &&& 0 <= k < n
    &&& forall|j: int| 0 <= j < n ==> #[trigger] min_to(dist, n, j, anchors) <= min_to(dist, n, k, anchors)
    &&& forall|j: int| 0 <= j < k ==> #[trigger] min_to(dist, n, j, anchors) < min_to(dist, n, k, anchors)
}

/// Distance from system `i` to its nearest anchor.
fn nearest_distance(n: usize, dist: &Vec<u32>, i: usize, anchors: &Vec<usize>) -> (m: u32)
    requires
        n * n <= usize::MAX,
        dist@.len() == n * n,
        i < n,
        forall|j: int| 0 <= j < anchors@.len() ==> #[trigger] anchors@[j] < n,
    ensures
        m == min_to(dist@, n as int, i as int, anchors@),
{
    let mut md = FAR;
    let mut t: usize = 0;
    while t < anchors.len()
        invariant
            t <= anchors@.len(),
            n * n <= usize::MAX,
            dist@.len() == n * n,
            i < n,
            forall|j: int| 0 <= j < anchors@.len() ==> #[trigger] anchors@[j] < n,
            md == min_to(dist@, n as int, i as int, anchors@.take(t as int)),
        decreases anchors@.len() - t,
    {
        let a = anchors[t];
        proof {
            lemma_slot_bounds(n as int, i as int, a as int);
        }
        let d = dist[i * n + a];
        if d < md {
            md = d;
        }
        assert(anchors@.take(t + 1).drop_last() =~= anchors@.take(t as int));
        t += 1;
    }
    assert(anchors@.take(anchors@.len() as int) =~= anchors@);
    md
}

/// The system farthest (in distance to its nearest anchor) from the current
/// anchors — the next anchor of farthest-point sampling. Ties go to the lowest
/// index; an empty galaxy yields 0.
pub fn farthest_from(n: usize, dist: &Vec<u32>, anchors: &Vec<usize>) -> (k: usize)
    requires
        n * n <= usize::MAX,
        dist@.len() == n * n,
        forall|j: int| 0 <= j < anchors@.len() ==> #[trigger] anchors@[j] < n,
    ensures
        n == 0 ==> k == 0,
        n > 0 ==> is_farthest(dist@, n as int, anchors@, k as int),
{
    if n == 0 {
        return 0;
    }
    let mut best: usize = 0;
    let mut best_min = nearest_distance(n, dist, 0, anchors);
    let mut i: usize = 1;
    while i < n
        invariant
            1 <= i <= n,
            n * n <= usize::MAX,
            dist@.len() == n * n,
            forall|j: int| 0 <= j < anchors@.len() ==> #[trigger] anchors@[j] < n,
            best < i,
            best_min == min_to(dist@, n as int, best as int, anchors@),
            forall|j: int| 0 <= j < i ==> #[trigger] min_to(dist@, n as int, j, anchors@) <= best_min,
            forall|j: int| 0 <= j < best ==> #[trigger] min_to(dist@, n as int, j, anchors@) < best_min,
        decreases n - i,
    {
        let md = nearest_distance(n, dist, i, anchors);
        if md > best_min {
            best_min = md;
            best = i;
        }
        i += 1;
    }
    best
}

/// `anchors` is the outcome of farthest-point sampling: the first is the
/// outermost system, and each later one is the farthest from those before it.
pub open spec fn spread_ok(r: Seq<u32>, dist: Seq<u32>, n: int, anchors: Seq<usize>) -> bool {
    &&& anchors.len() >= 1
    &&& is_first_max(r, anchors[0] as int)
    &&& forall|k: int|
        1 <= k < anchors.len() ==> is_farthest(dist, n, anchors.take(k), #[trigger] anchors[k] as int)
}

/// Place `count` region anchors (at least one) by farthest-point sampling:
/// the outermost system first, then repeatedly the system farthest from every
/// anchor so far, which spreads them around the disc.
pub fn spread_anchors(n: usize, r: &Vec<u32>, dist: &Vec<u32>, count: usize) -> (anchors: Vec<usize>)
    requires
        n >= 1,
        r@.len() == n,
        n * n <= usize::MAX,
        dist@.len() == n * n,
    ensures
        anchors@.len() == if count >= 1 { count as int } else { 1 },
        spread_ok(r@, dist@, n as int, anchors@),
        forall|j: int| 0 <= j < anchors@.len() ==> #[trigger] anchors@[j] < n,
{
    let mut anchors: Vec<usize> = Vec::new();
    let first = outermost(r);
    anchors.push(first);
    while anchors.len() < count
        invariant
            n >= 1,
            r@.len() == n,
            n * n <= usize::MAX,
            dist@.len() == n * n,
            1 <= anchors@.len(),
            count >= 1 ==> anchors@.len() <= count,
            count == 0 ==> anchors@.len() == 1,
            spread_ok(r@, dist@, n as int, anchors@),
            forall|j: int| 0 <= j < anchors@.len() ==> #[trigger] anchors@[j] < n,
        decreases count - anchors@.len(),
    {
        let k = farthest_from(n, dist, &anchors);
        let ghost before = anchors@;
        anchors.push(k);
        assert forall|j: int| 1 <= j < anchors@.len() implies is_farthest(
            dist@,
            n as int,
            anchors@.take(j),
            #[trigger] anchors@[j] as int,
        ) by {
            if j < before.len() {
                assert(anchors@.take(j) =~= before.take(j));
                assert(anchors@[j] == before[j]);
            } else {
                assert(anchors@.take(j) =~= before);
            }
        }
    }
    anchors
}

/// `w` is the first anchor nearest to system `i`.
pub open spec fn is_nearest(dist: Seq<u32>, n: int, i: int, anchors: Seq<usize>, w: int) -> bool {
    &&& 0 <= w < anchors.len()
    &&& forall|j: int|
        0 <= j < anchors.len() ==> dist[slot(n, i, anchors[w] as int)] <= #[trigger] dist[slot(
            n,
            i,
            anchors[j] as int,
        )]
    &&& forall|j: int|
        0 <= j < w ==> dist[slot(n, i, anchors[w] as int)] < #[trigger] dist[slot(
            n,
            i,
            anchors[j] as int,
        )]
}

/// Which anchor's region system `i` falls in: its nearest anchor, ties to the
/// earliest. With no anchors, 0.
pub fn nearest_anchor(n: usize, dist: &Vec<u32>, i: usize, anchors: &Vec<usize>) -> (w: usize)
    requires
        n * n <= usize::MAX,
        dist@.len() == n * n,
        i < n,
        forall|j: int| 0 <= j < anchors@.len() ==> #[trigger] anchors@[j] < n,
    ensures
        anchors@.len() == 0 ==> w == 0,
        anchors@.len() > 0 ==> is_nearest(dist@, n as int, i as int, anchors@, w as int),
{
    if anchors.len() == 0 {
        return 0;
    }
    proof {
        lemma_slot_bounds(n as int, i as int, anchors@[0] as int);
    }
    let mut which: usize = 0;
    let mut bd = dist[i * n + anchors[0]];
    let mut t: usize = 1;
    while t < anchors.len()
        invariant
            1 <= t <= anchors@.len(),
            n * n <= usize::MAX,
            dist@.len() == n * n,
            i < n,
            forall|j: int| 0 <= j < anchors@.len() ==> #[trigger] anchors@[j] < n,
            which < t,
            bd == dist@[slot(n as int, i as int, anchors@[which as int] as int)],
            forall|j: int|
                0 <= j < t ==> bd <= #[trigger] dist@[slot(n as int, i as int, anchors@[j] as int)],
            forall|j: int|
                0 <= j < which ==> bd < #[trigger] dist@[slot(n as int, i as int, anchors@[j] as int)],
        decreases anchors@.len() - t,
    {
        let a = anchors[t];
        proof {
            lemma_slot_bounds(n as int, i as int, a as int);
        }
        let d = dist[i * n + a];
        if d < bd {
            bd = d;
            which = t;
        }
        t += 1;
    }
    which
}

/// Anchor `j` sorts before anchor `i` by radius (a stable sort: equal radii
/// keep their anchor order).
pub open spec fn sorts_before(r: Seq<u32>, j: int, i: int) -> bool {
    r[j] < r[i] || (r[j] == r[i] && j < i)
}

/// How many of the first `m` anchors sort before anchor `i`.
pub open spec fn count_before(r: Seq<u32>, i: int, m: int) -> nat
    decreases m,
{
    if m <= 0 {
        0
    } else {
        count_before(r, i, m - 1) + if sorts_before(r, m - 1, i) { 1nat } else { 0nat }
    }
}

/// Anchor `i`'s position when the anchors are sorted by radius.
pub open spec fn radial_rank(r: Seq<u32>, i: int) -> nat {
    count_before(r, i, r.len() as int)
}

/// The region of each anchor: anchors ranked by radius (innermost first, a
/// stable order), the rank wrapping over the region table, so the innermost
/// anchor's territory is region 0, the developed core. `r[i]` is the bit
/// pattern of anchor `i`'s squared radius.
pub fn anchor_regions(r: &Vec<u32>) -> (regions: Vec<u8>)
    ensures
        regions@.len() == r@.len(),
        forall|i: int| 0 <= i < r@.len() ==> #[trigger] regions@[i] as int == radial_rank(r@, i) % 8,
{
    let k = r.len();
    let mut regions: Vec<u8> = Vec::new();
    let mut i: usize = 0;
    while i < k
        invariant
            k == r@.len(),
            i <= k,
            regions@.len() == i,
            forall|x: int| 0 <= x < i ==> #[trigger] regions@[x] as int == radial_rank(r@, x) % 8,
        decreases k - i,
    {
        let mut rank: usize = 0;
        let mut j: usize = 0;
        while j < k
            invariant
                k == r@.len(),
                i < k,
                j <= k,
                rank == count_before(r@, i as int, j as int),
                rank <= j,
            decreases k - j,
        {
            if r[j] < r[i] || (r[j] == r[i] && j < i) {
                rank += 1;
            }
            j += 1;
        }
        let region = (rank % region_count_total()) as u8;
        regions.push(region);
        i += 1;
    }
    regions
}

proof fn lemma_count_before_bound(r: Seq<u32>, i: int, m: int)
    requires
        0 <= i < r.len(),
        i < m <= r.len(),
    ensures
        count_before(r, i, m) <= m - 1,
    decreases m,
{
    if m - 1 > i {
        lemma_count_before_bound(r, i, m - 1);
    } else {
        lemma_count_before_le(r, i, m - 1);
    }
}

proof fn lemma_count_before_le(r: Seq<u32>, i: int, m: int)
    requires
        m >= 0,
    ensures
        count_before(r, i, m) <= m,
    decreases m,
{
    if m > 0 {
        lemma_count_before_le(r, i, m - 1);
    }
}

/// If `i` sorts before `j`, everything before `i` is before `j` as well, and
/// `i` itself is counted for `j` once the prefix covers it.
proof fn lemma_count_before_mono(r: Seq<u32>, i: int, j: int, m: int)
    requires
        0 <= i < r.len(),
        0 <= j < r.len(),
        sorts_before(r, i, j),
        0 <= m <= r.len(),
    ensures
        count_before(r, i, m) + (if i < m { 1int } else { 0 }) <= count_before(r, j, m),
    decreases m,
{
    if m > 0 {
        lemma_count_before_mono(r, i, j, m - 1);
    }
}

/// Radial ranks are distinct, so the first eight anchors always land in eight
/// different regions: with at most as many anchors as regions, no two anchors
/// share a region.
pub proof fn lemma_regions_distinct(r: Seq<u32>, i: int, j: int)
    requires
        r.len() <= 8,
        0 <= i < r.len(),
        0 <= j < r.len(),
        i != j,
    ensures
        radial_rank(r, i) % 8 != radial_rank(r, j) % 8,
{
    lemma_count_before_bound(r, i, r.len() as int);
    lemma_count_before_bound(r, j, r.len() as int);
    if sorts_before(r, i, j) {
        lemma_count_before_mono(r, i, j, r.len() as int);
    } else {
        lemma_count_before_mono(r, j, i, r.len() as int);
    }
}

} // verus!
