//! Tracing the edges of a skeleton graph as pixel walks.
//!
//! Node pixels are the skeleton pixels that do not have exactly two skeleton
//! neighbours, plus one anchor on every cycle that has none; adjacent node pixels
//! form clusters, the vertices of the graph. Every other skeleton pixel has exactly
//! two neighbours, so from a node pixel a centerline can be followed one way only,
//! until it reaches a node pixel again: that walk is an edge. Every link between a
//! cluster and a skeleton pixel outside it is walked by some edge.

use vstd::prelude::*;
use std::collections::BTreeSet;

use crate::refusals::LineArtRefusal;
use crate::stroke_graph::{
    add_cycle_anchors, adjacent, component, cycle_anchor, index_set, lemma_adjacent_symmetric,
    lemma_component_member, lemma_components_meet, lemma_neighbors_are_adjacent_set_pixels,
    lemma_no_dup_bounded, link, neighbor_list, neighbors, node_clusters, offset_target,
    strictly_increasing,
};

verus! {

broadcast use vstd::std_specs::btree::group_btree_axioms;

/// The pair of pixels with the smaller index first: the identity of a link.
pub open spec fn link_of(a: usize, b: usize) -> (usize, usize) {
    if a <= b {
        (a, b)
    } else {
        (b, a)
    }
}

/// A walk through skeleton pixels of the grid, each step between adjacent pixels.
pub open spec fn is_pixel_walk(s: Seq<bool>, w: int, h: int, p: Seq<usize>) -> bool {
    &&& forall|k: int| 0 <= k < p.len() ==> #[trigger] p[k] < s.len() && s[p[k] as int]
    &&& forall|k: int|
        0 <= k < p.len() - 1 ==> adjacent(w, h, #[trigger] p[k] as int, p[k + 1] as int)
}

/// The link that step `k` of a walk crosses.
pub open spec fn step_link(p: Seq<usize>, k: int) -> (usize, usize) {
    link_of(p[k], p[k + 1])
}

/// Some step of the walk crosses link `l`.
pub open spec fn crosses(p: Seq<usize>, l: (usize, usize)) -> bool {
    exists|k: int| 0 <= k < p.len() - 1 && #[trigger] step_link(p, k) == l
}

/// Targets of the block around `a` grow with the offset.
proof fn lemma_offset_order(w: int, h: int, a: int, o1: int, o2: int)
    requires
        w > 0,
        h > 0,
        0 <= a < w * h,
        0 <= o1 < o2 < 9,
        offset_target(w, h, a, o1) >= 0,
        offset_target(w, h, a, o2) >= 0,
    ensures
        offset_target(w, h, a, o1) < offset_target(w, h, a, o2),
{
    let x = a % w;
    let y = a / w;
    let nx1 = x + o1 % 3 - 1;
    let ny1 = y + o1 / 3 - 1;
    let nx2 = x + o2 % 3 - 1;
    let ny2 = y + o2 / 3 - 1;
    assert(offset_target(w, h, a, o1) == ny1 * w + nx1);
    assert(offset_target(w, h, a, o2) == ny2 * w + nx2);
    if o1 / 3 == o2 / 3 {
        assert(o1 % 3 < o2 % 3);
    } else {
        assert(o1 / 3 < o2 / 3);
        assert(ny1 * w + nx1 < ny2 * w + nx2) by (nonlinear_arith)
            requires
                ny1 + 1 <= ny2,
                0 <= nx1 < w,
                0 <= nx2 < w,
        ;
    }
}

/// The neighbour list of an in-grid pixel is strictly increasing, and below every
/// later in-grid target of the block.
proof fn lemma_neighbor_list_sorted(p: Seq<bool>, w: int, h: int, a: int, k: int)
    requires
        w > 0,
        h > 0,
        0 <= a < w * h,
        0 <= k <= 9,
    ensures
        forall|i: int, j: int|
            0 <= i < j < neighbor_list(p, w, h, a, k).len() ==> neighbor_list(p, w, h, a, k)[i]
                < neighbor_list(p, w, h, a, k)[j],
        forall|i: int, o: int|
            #![trigger neighbor_list(p, w, h, a, k)[i], offset_target(w, h, a, o)]
            0 <= i < neighbor_list(p, w, h, a, k).len() && k <= o < 9 && offset_target(w, h, a, o)
                >= 0 ==> neighbor_list(p, w, h, a, k)[i] < offset_target(w, h, a, o),
    decreases k,
{
    if k > 0 {
        lemma_neighbor_list_sorted(p, w, h, a, k - 1);
        let prev = neighbor_list(p, w, h, a, k - 1);
        let t = offset_target(w, h, a, k - 1);
        assert forall|o: int| k <= o < 9 && offset_target(w, h, a, o) >= 0 && t >= 0 implies t
            < #[trigger] offset_target(w, h, a, o) by {
            lemma_offset_order(w, h, a, k - 1, o);
        }
    }
}

/// Links are totally ordered as the visited set needs.
proof fn lemma_links_ordered()
    ensures
        vstd::laws_cmp::obeys_cmp::<(usize, usize)>(),
{
    broadcast use vstd::laws_cmp::group_laws_cmp;

}

/// Follow the centerline from node pixel `start` through its neighbour `first`,
/// always onwards through the one neighbour the walk did not come from, until it
/// reaches a pixel of some cluster. Every link crossed is recorded in `visited`.
/// Returns that cluster and the pixels walked, both ends included.
fn walk_edge(
    skeleton: &Vec<bool>,
    width: usize,
    height: usize,
    owner: &Vec<Option<usize>>,
    start: usize,
    first: usize,
    visited: &mut BTreeSet<(usize, usize)>,
) -> (r: (usize, Vec<usize>))
    requires
        width > 0,
        height > 0,
        skeleton@.len() == width * height,
        owner@.len() == skeleton@.len(),
        start < skeleton@.len(),
        skeleton@[start as int],
        owner@[start as int] is Some,
        first < skeleton@.len(),
        skeleton@[first as int],
        adjacent(width as int, height as int, start as int, first as int),
        forall|i: int|
            0 <= i < skeleton@.len() && skeleton@[i] && owner@[i] is None ==> neighbor_list(
                skeleton@,
                width as int,
                height as int,
                i,
                9,
            ).len() == 2,
    ensures
        r.1@.len() >= 2,
        r.1@[0] == start,
        r.1@[1] == first,
        owner@[r.1@[r.1@.len() - 1] as int] == Some(r.0),
        forall|k: int| 0 < k < r.1@.len() - 1 ==> owner@[#[trigger] r.1@[k] as int] is None,
        is_pixel_walk(skeleton@, width as int, height as int, r.1@),
        forall|l: (usize, usize)| #[trigger]
            final(visited)@.contains(l) ==> old(visited)@.contains(l) || crosses(r.1@, l),
        forall|l: (usize, usize)| #[trigger]
            old(visited)@.contains(l) ==> final(visited)@.contains(l),
        final(visited)@.contains(link_of(start, first)),
        forall|k: int| 0 <= k < r.1@.len() - 2 ==> #[trigger] r.1@[k + 2] != r.1@[k],
        forall|i: int, j: int| 1 <= i < j < r.1@.len() ==> r.1@[i] != r.1@[j],
        forall|j: int, b: int|
            1 <= j < r.1@.len() - 1 && #[trigger] adjacent(width as int, height as int, r.1@[j] as int, b)
                && 0 <= b < skeleton@.len() && skeleton@[b] ==> b == r.1@[j - 1] || b == r.1@[j + 1],
        forall|k: int| 0 <= k < r.1@.len() - 1 ==> final(visited)@.contains(#[trigger] step_link(r.1@, k)),
{
    proof {
        lemma_links_ordered();
    }
    let ghost s = skeleton@;
    let ghost w = width as int;
    let ghost h = height as int;
    let ghost n = skeleton@.len() as int;
    let ghost visited0 = visited@;
    let mut path: Vec<usize> = Vec::new();
    path.push(start);
    path.push(first);
    visited.insert(link(start, first));
    proof {
        assert(step_link(path@, 0) == link_of(start, first));
    }
    let mut previous = start;
    let mut current = first;
    loop
        invariant
            s == skeleton@,
            w == width,
            h == height,
            n == s.len(),
            width > 0,
            height > 0,
            n == width * height,
            owner@.len() == n,
            owner@[start as int] is Some,
            forall|i: int|
                0 <= i < n && s[i] && owner@[i] is None ==> neighbor_list(s, w, h, i, 9).len()
                    == 2,
            path@.len() >= 2,
            path@[0] == start,
            path@[1] == first,
            previous == path@[path@.len() - 2],
            current == path@[path@.len() - 1],
            is_pixel_walk(s, w, h, path@),
            forall|k: int| 0 < k < path@.len() - 1 ==> owner@[#[trigger] path@[k] as int] is None,
            forall|i: int, j: int| 1 <= i < j < path@.len() ==> path@[i] != path@[j],
            forall|k: int| 0 <= k < path@.len() - 2 ==> #[trigger] path@[k + 2] != path@[k],
            forall|k: int| 0 <= k < path@.len() - 1 ==> visited@.contains(#[trigger] step_link(path@, k)),
            forall|j: int, b: int|
                1 <= j < path@.len() - 1 && #[trigger] adjacent(w, h, path@[j] as int, b) && 0
                    <= b < n && s[b] ==> b == path@[j - 1] || b == path@[j + 1],
            visited0 == old(visited)@,
            visited@.contains(link_of(start, first)),
            forall|l: (usize, usize)| #[trigger]
                visited@.contains(l) ==> visited0.contains(l) || crosses(path@, l),
            forall|l: (usize, usize)| #[trigger] visited0.contains(l) ==> visited@.contains(l),
            path@.len() <= n + 1,
        decreases n + 1 - path@.len(),
    {
        match owner[current] {
            Some(c) => {
                return (c, path);
            },
            None => {},
        }
        let nb = neighbors(current, skeleton, width, height);
        let ghost nl = neighbor_list(s, w, h, current as int, 9);
        proof {
            assert(nb@.map_values(|v: usize| v as int) == nl);
            assert(nl.len() == 2);
            assert(nb@.len() == 2);
            assert(nb@[0] as int == nl[0] && nb@[1] as int == nl[1]);
            lemma_neighbor_list_sorted(s, w, h, current as int, 9);
            lemma_adjacent_symmetric(w, h, previous as int, current as int);
            assert(adjacent(w, h, path@[path@.len() - 2] as int, path@[path@.len() - 1] as int));
            lemma_neighbors_are_adjacent_set_pixels(s, w, h, current as int, previous as int);
            assert(nl.contains(previous as int));
        }
        let next = if nb[0] != previous {
            nb[0]
        } else {
            nb[1]
        };
        proof {
            assert(nl.contains(next as int)) by {
                if nb[0] != previous {
                    assert(nl[0] == next as int);
                } else {
                    assert(nl[1] == next as int);
                }
            }
            lemma_neighbors_are_adjacent_set_pixels(s, w, h, current as int, next as int);
            assert(next != previous) by {
                if nb[0] == previous {
                    assert(nl[0] < nl[1]);
                }
            }
            // Every skeleton neighbour of `current` is `previous` or `next`.
            assert forall|b: int| adjacent(w, h, current as int, b) && 0 <= b < n && s[b] implies b
                == previous || b == next by {
                lemma_neighbors_are_adjacent_set_pixels(s, w, h, current as int, b);
                let i = choose|i: int| 0 <= i < nl.len() && nl[i] == b;
                let ip = choose|i: int| 0 <= i < nl.len() && nl[i] == previous as int;
                assert(i == 0 || i == 1);
                assert(ip == 0 || ip == 1);
                if nb[0] != previous {
                    assert(ip == 1);
                } else {
                    assert(ip == 0);
                }
            }
            // The walk never comes back to a pixel it has passed.
            let len = path@.len() as int;
            assert forall|j: int| 1 <= j < len implies path@[j] != next by {
                if path@[j] == next {
                    if j == len - 1 {
                        assert(!adjacent(w, h, current as int, current as int));
                    } else if j == len - 2 {
                        assert(next == previous);
                    } else {
                        lemma_adjacent_symmetric(w, h, current as int, next as int);
                        assert(adjacent(w, h, path@[j] as int, current as int));
                        assert(current == path@[j - 1] || current == path@[j + 1]);
                        if j - 1 == 0 {
                            assert(owner@[current as int] is None);
                        }
                    }
                }
            }
        }
        let ghost old_path = path@;
        let ghost old_visited = visited@;
        visited.insert(link(current, next));
        path.push(next);
        proof {
            let len = old_path.len() as int;
            assert(path@ =~= old_path.push(next));
            assert(step_link(path@, len - 1) == link_of(current, next));
            assert forall|k: int| 0 <= k < len - 1 implies #[trigger] step_link(path@, k)
                == step_link(old_path, k) by {
                assert(path@[k] == old_path[k] && path@[k + 1] == old_path[k + 1]);
            }
            assert forall|l: (usize, usize)| #[trigger] visited@.contains(l) implies visited0.contains(
                l,
            ) || crosses(path@, l) by {
                if l == link_of(current, next) {
                    assert(step_link(path@, len - 1) == l);
                } else {
                    assert(old_visited.contains(l));
                    if crosses(old_path, l) {
                        let k = choose|k: int| 0 <= k < old_path.len() - 1 && #[trigger] step_link(
                            old_path,
                            k,
                        ) == l;
                        assert(step_link(path@, k) == l);
                    }
                }
            }
            assert forall|k: int| 0 <= k < path@.len() - 2 implies #[trigger] path@[k + 2] != path@[k] by {
                if k < len - 2 {
                    assert(path@[k + 2] == old_path[k + 2] && path@[k] == old_path[k]);
                } else {
                    assert(path@[k + 2] == next && path@[k] == previous);
                }
            }
            assert forall|k: int| 0 <= k < path@.len() - 1 implies visited@.contains(
                #[trigger] step_link(path@, k),
            ) by {
                if k < len - 1 {
                    assert(step_link(path@, k) == step_link(old_path, k));
                    assert(old_visited.contains(step_link(old_path, k)));
                }
            }
            assert forall|k: int| 0 < k < path@.len() - 1 implies owner@[#[trigger] path@[k] as int]
                is None by {
                if k < len - 1 {
                    assert(path@[k] == old_path[k]);
                } else {
                    assert(path@[k] == current);
                }
            }
            assert forall|i: int, j: int| 1 <= i < j < path@.len() implies path@[i] != path@[j] by {
                if j < len {
                    assert(path@[i] == old_path[i] && path@[j] == old_path[j]);
                } else {
                    assert(path@[i] == old_path[i]);
                }
            }
            assert forall|j: int, b: int|
                1 <= j < path@.len() - 1 && #[trigger] adjacent(w, h, path@[j] as int, b) && 0 <= b
                    < n && s[b] implies b == path@[j - 1] || b == path@[j + 1] by {
                if j < len - 1 {
                    assert(path@[j] == old_path[j] && path@[j - 1] == old_path[j - 1]
                        && path@[j + 1] == old_path[j + 1]);
                } else {
                    assert(path@[j] == current && path@[j - 1] == previous && path@[j + 1] == next);
                }
            }
            assert(is_pixel_walk(s, w, h, path@)) by {
                assert forall|k: int| 0 <= k < path@.len() implies #[trigger] path@[k] < s.len()
                    && s[path@[k] as int] by {
                    if k < len {
                        assert(path@[k] == old_path[k]);
                    }
                }
                assert forall|k: int| 0 <= k < path@.len() - 1 implies adjacent(
                    w,
                    h,
                    #[trigger] path@[k] as int,
                    path@[k + 1] as int,
                ) by {
                    if k < len - 1 {
                        assert(path@[k] == old_path[k] && path@[k + 1] == old_path[k + 1]);
                    }
                }
            }
            let tail = path@.subrange(1, path@.len() as int);
            assert forall|i: int, j: int| 0 <= i < tail.len() && 0 <= j < tail.len() && i != j implies tail[i]
                != tail[j] by {
                if i < j {
                    assert(path@[i + 1] != path@[j + 1]);
                } else {
                    assert(path@[j + 1] != path@[i + 1]);
                }
            }
            assert forall|k: int| 0 <= k < tail.len() implies tail[k] < n by {
                assert(tail[k] == path@[k + 1]);
            }
            lemma_no_dup_bounded(tail, n);
        }
        previous = current;
        current = next;
    }
}

/// The most edges, or vertices, a skeleton graph may have.
pub const MAX_GRAPH_ITEMS: usize = 4096;

/// The skeleton pixels that do not have exactly two skeleton neighbours.
pub open spec fn plain_nodes(s: Seq<bool>, w: int, h: int) -> Seq<bool> {
    Seq::new(s.len(), |i: int| s[i] && neighbor_list(s, w, h, i, 9).len() != 2)
}

/// The node pixels: the plain ones, and the anchor of every cycle that has none.
pub open spec fn node_flags(s: Seq<bool>, w: int, h: int) -> Seq<bool> {
    Seq::new(
        s.len(),
        |i: int| plain_nodes(s, w, h)[i] || cycle_anchor(s, plain_nodes(s, w, h), w, h, i),
    )
}

/// One edge of the skeleton graph: the cluster it leaves, the cluster it reaches,
/// and the pixels walked, both node pixels included.
#[derive(Debug, Clone, PartialEq, Eq)]
pub struct PixelEdge {
    pub start: usize,
    pub end: usize,
    pub pixels: Vec<usize>,
}

/// The skeleton graph as pixels: node clusters and the edges walked between them,
/// in walking order. `over_budget` is set when more than `MAX_GRAPH_ITEMS` edges
/// were found; the walk stops at the first edge beyond the budget.
#[derive(Debug, Clone, PartialEq, Eq)]
pub struct PixelGraph {
    pub clusters: Vec<Vec<usize>>,
    pub edges: Vec<PixelEdge>,
    pub over_budget: bool,
}

/// Pixel `i` belongs to cluster `c`.
pub open spec fn in_cluster(clusters: Seq<Vec<usize>>, c: int, i: int) -> bool {
    0 <= c < clusters.len() && index_set(clusters[c]@).contains(i)
}

/// An edge leaves its start cluster at its first step, reaches its end cluster at
/// its last pixel, passes no other node pixel, and walks the skeleton.
pub open spec fn edge_well_formed(
    s: Seq<bool>,
    w: int,
    h: int,
    clusters: Seq<Vec<usize>>,
    e: PixelEdge,
) -> bool {
    let p = e.pixels@;
    &&& p.len() >= 2
    &&& in_cluster(clusters, e.start as int, p[0] as int)
    &&& in_cluster(clusters, e.end as int, p[p.len() - 1] as int)
    &&& !in_cluster(clusters, e.start as int, p[1] as int)
    &&& forall|k: int, d: int|
        #![trigger p[k], in_cluster(clusters, d, p[k] as int)]
        0 < k < p.len() - 1 ==> !in_cluster(clusters, d, p[k] as int)
    &&& is_pixel_walk(s, w, h, p)
    &&& forall|k: int| 0 <= k < p.len() - 2 ==> #[trigger] p[k + 2] != p[k]
    &&& forall|i: int, j: int| 1 <= i < j < p.len() ==> p[i] != p[j]
    &&& forall|j: int, b: int|
        1 <= j < p.len() - 1 && #[trigger] adjacent(w, h, p[j] as int, b) && 0 <= b < s.len()
            && s[b] ==> b == p[j - 1] || b == p[j + 1]
}

/// No skeleton link is crossed by two steps of the edges, whether of one edge or
/// of two.
pub open spec fn links_once(edges: Seq<PixelEdge>) -> bool {
    forall|e1: int, k1: int, e2: int, k2: int|
        #![trigger step_link(edges[e1].pixels@, k1), step_link(edges[e2].pixels@, k2)]
        0 <= e1 < edges.len() && 0 <= e2 < edges.len() && 0 <= k1 < edges[e1].pixels@.len() - 1
            && 0 <= k2 < edges[e2].pixels@.len() - 1 && (e1 != e2 || k1 != k2) ==> step_link(
            edges[e1].pixels@,
            k1,
        ) != step_link(edges[e2].pixels@, k2)
}

/// Position `(c1, a1, b1)` comes before `(c2, a2, b2)` in the tracing scan: by
/// cluster, then by start pixel, then by the first pixel of the walk.
pub open spec fn scan_before(c1: int, a1: int, b1: int, c2: int, a2: int, b2: int) -> bool {
    ||| c1 < c2
    ||| c1 == c2 && a1 < a2
    ||| c1 == c2 && a1 == a2 && b1 < b2
}

/// Edge `e` starts before position `(c, a, b)` of the scan.
pub open spec fn edge_before(e: PixelEdge, c: int, a: int, b: int) -> bool {
    scan_before(e.start as int, e.pixels@[0] as int, e.pixels@[1] as int, c, a, b)
}

/// The edges come in scan order: cluster ascending, then start pixel ascending,
/// then first pixel ascending.
pub open spec fn scan_ordered(edges: Seq<PixelEdge>) -> bool {
    forall|i: int, j: int|
        0 <= i < j < edges.len() ==> edge_before(
            #[trigger] edges[i],
            (#[trigger] edges[j]).start as int,
            edges[j].pixels@[0] as int,
            edges[j].pixels@[1] as int,
        )
}

/// Every edge starts before position `(c, a, b)` of the scan.
pub open spec fn all_before(edges: Seq<PixelEdge>, c: int, a: int, b: int) -> bool {
    forall|e: int| 0 <= e < edges.len() ==> edge_before(#[trigger] edges[e], c, a, b)
}

/// Some edge that starts before position `(c, a, b)` crosses link `l`.
pub open spec fn crossed_before(edges: Seq<PixelEdge>, c: int, a: int, b: int, l: (usize, usize)) -> bool {
    exists|e: int|
        0 <= e < edges.len() && edge_before(edges[e], c, a, b) && #[trigger] crosses(
            edges[e].pixels@,
            l,
        )
}

/// The scan owes an edge from pixel `a` of cluster `c` through `b`: `b` is a
/// skeleton neighbour of `a` outside the cluster, and no edge earlier in the scan
/// crossed their link.
pub open spec fn owes_edge(
    s: Seq<bool>,
    w: int,
    h: int,
    clusters: Seq<Vec<usize>>,
    edges: Seq<PixelEdge>,
    c: int,
    a: int,
    b: int,
) -> bool {
    &&& adjacent(w, h, a, b)
    &&& 0 <= b < s.len()
    &&& s[b]
    &&& !in_cluster(clusters, c, b)
    &&& !crossed_before(edges, c, a, b, link_of(a as usize, b as usize))
}

/// Some edge starts at pixel `a` of cluster `c` and walks through `b` first.
pub open spec fn has_edge_from(edges: Seq<PixelEdge>, c: int, a: int, b: int) -> bool {
    exists|e: int|
        0 <= e < edges.len() && (#[trigger] edges[e]).start == c && edges[e].pixels@[0] == a
            && edges[e].pixels@[1] == b
}

/// Every edge the scan owes before position `(c, a, b)` was traced.
pub open spec fn scan_complete_before(
    s: Seq<bool>,
    w: int,
    h: int,
    clusters: Seq<Vec<usize>>,
    edges: Seq<PixelEdge>,
    c: int,
    a: int,
    b: int,
) -> bool {
    forall|c2: int, t2: int, b2: int|
        0 <= c2 < clusters.len() && 0 <= t2 < clusters[c2]@.len() && scan_before(
            c2,
            clusters[c2]@[t2] as int,
            b2,
            c,
            a,
            b,
        ) && #[trigger] owes_edge(s, w, h, clusters, edges, c2, clusters[c2]@[t2] as int, b2)
            ==> has_edge_from(edges, c2, clusters[c2]@[t2] as int, b2)
}

/// The scan has reached position `(c, a, b)`: every edge starts before it, and every
/// edge owed before it was traced.
pub open spec fn scan_at(
    s: Seq<bool>,
    w: int,
    h: int,
    clusters: Seq<Vec<usize>>,
    edges: Seq<PixelEdge>,
    c: int,
    a: int,
    b: int,
) -> bool {
    all_before(edges, c, a, b) && scan_complete_before(s, w, h, clusters, edges, c, a, b)
}

/// Owed edges stay traced when one more edge is added.
proof fn lemma_complete_push(
    s: Seq<bool>,
    w: int,
    h: int,
    clusters: Seq<Vec<usize>>,
    edges: Seq<PixelEdge>,
    x: PixelEdge,
    c: int,
    a: int,
    b: int,
)
    requires
        scan_complete_before(s, w, h, clusters, edges, c, a, b),
    ensures
        scan_complete_before(s, w, h, clusters, edges.push(x), c, a, b),
{
    let all = edges.push(x);
    assert forall|c2: int, t2: int, b2: int|
        0 <= c2 < clusters.len() && 0 <= t2 < clusters[c2]@.len() && scan_before(
            c2,
            clusters[c2]@[t2] as int,
            b2,
            c,
            a,
            b,
        ) && #[trigger] owes_edge(s, w, h, clusters, all, c2, clusters[c2]@[t2] as int, b2)
        implies has_edge_from(all, c2, clusters[c2]@[t2] as int, b2) by {
        let a2 = clusters[c2]@[t2] as int;
        let l = link_of(a2 as usize, b2 as usize);
        if crossed_before(edges, c2, a2, b2, l) {
            let e = choose|e: int|
                0 <= e < edges.len() && edge_before(edges[e], c2, a2, b2) && #[trigger] crosses(
                    edges[e].pixels@,
                    l,
                );
            assert(all[e] == edges[e]);
            assert(crossed_before(all, c2, a2, b2, l));
        }
        assert(owes_edge(s, w, h, clusters, edges, c2, a2, b2));
        let e = choose|e: int|
            0 <= e < edges.len() && (#[trigger] edges[e]).start == c2 && edges[e].pixels@[0] == a2
                && edges[e].pixels@[1] == b2;
        assert(all[e] == edges[e]);
    }
}

/// Moving the scan on from `(c, a, b_old)` to `(c, a, b_new)` within one pixel,
/// when every edge owed in between was traced.
proof fn lemma_scan_advance(
    s: Seq<bool>,
    w: int,
    h: int,
    clusters: Seq<Vec<usize>>,
    edges: Seq<PixelEdge>,
    c: int,
    a: int,
    b_old: int,
    b_new: int,
)
    requires
        scan_complete_before(s, w, h, clusters, edges, c, a, b_old),
        b_old <= b_new,
        forall|b2: int|
            b_old <= b2 < b_new && #[trigger] owes_edge(s, w, h, clusters, edges, c, a, b2)
                ==> has_edge_from(edges, c, a, b2),
    ensures
        scan_complete_before(s, w, h, clusters, edges, c, a, b_new),
{
    assert forall|c2: int, t2: int, b2: int|
        0 <= c2 < clusters.len() && 0 <= t2 < clusters[c2]@.len() && scan_before(
            c2,
            clusters[c2]@[t2] as int,
            b2,
            c,
            a,
            b_new,
        ) && #[trigger] owes_edge(s, w, h, clusters, edges, c2, clusters[c2]@[t2] as int, b2)
        implies has_edge_from(edges, c2, clusters[c2]@[t2] as int, b2) by {
        if !scan_before(c2, clusters[c2]@[t2] as int, b2, c, a, b_old) {
            assert(c2 == c && clusters[c2]@[t2] as int == a);
            assert(owes_edge(s, w, h, clusters, edges, c, a, b2));
        }
    }
}

/// One step of the scan at pixel `a` of cluster `c`, through its `u`-th skeleton
/// neighbour `b`: either no edge is owed there and nothing is added, or the edge
/// starting there is added. Either way the edges stay in scan order and the scan
/// moves on to the next neighbour.
proof fn lemma_scan_step(
    s: Seq<bool>,
    w: int,
    h: int,
    clusters: Seq<Vec<usize>>,
    pre: Seq<PixelEdge>,
    post: Seq<PixelEdge>,
    c: int,
    a: int,
    u: int,
)
    requires
        w > 0,
        h > 0,
        s.len() == w * h,
        0 <= a < s.len(),
        0 <= u < neighbor_list(s, w, h, a, 9).len(),
        forall|i: int, j: int|
            0 <= i < j < neighbor_list(s, w, h, a, 9).len() ==> neighbor_list(s, w, h, a, 9)[i]
                < neighbor_list(s, w, h, a, 9)[j],
        forall|k: int|
            0 <= k < neighbor_list(s, w, h, a, 9).len() ==> 0 <= #[trigger] neighbor_list(
                s,
                w,
                h,
                a,
                9,
            )[k] < s.len(),
        scan_ordered(pre),
        scan_at(s, w, h, clusters, pre, c, a, neighbor_list(s, w, h, a, 9)[u]),
        ({
            let b = neighbor_list(s, w, h, a, 9)[u];
            ||| post == pre && !owes_edge(s, w, h, clusters, pre, c, a, b)
            ||| exists|x: PixelEdge|
                post == pre.push(x) && x.start == c && x.pixels@.len() >= 2 && x.pixels@[0] == a
                    && x.pixels@[1] == b
        }),
    ensures
        scan_ordered(post),
        scan_at(
            s,
            w,
            h,
            clusters,
            post,
            c,
            a,
            if u + 1 < neighbor_list(s, w, h, a, 9).len() {
                neighbor_list(s, w, h, a, 9)[u + 1]
            } else {
                s.len() as int
            },
        ),
{
    let nl = neighbor_list(s, w, h, a, 9);
    let b = nl[u];
    let bd = if u + 1 < nl.len() {
        nl[u + 1]
    } else {
        s.len() as int
    };
    assert(b < bd);
    if post != pre {
        let x = choose|x: PixelEdge|
            post == pre.push(x) && x.start == c && x.pixels@.len() >= 2 && x.pixels@[0] == a
                && x.pixels@[1] == b;
        assert forall|i: int, j: int| 0 <= i < j < post.len() implies edge_before(
            #[trigger] post[i],
            (#[trigger] post[j]).start as int,
            post[j].pixels@[0] as int,
            post[j].pixels@[1] as int,
        ) by {
            assert(post[i] == pre[i]);
            if j < pre.len() {
                assert(post[j] == pre[j]);
            } else {
                assert(post[j] == x);
                assert(edge_before(pre[i], c, a, b));
            }
        }
        lemma_complete_push(s, w, h, clusters, pre, x, c, a, b);
        assert(has_edge_from(post, c, a, b)) by {
            assert(post[pre.len() as int] == x);
        }
    }
    assert forall|e: int| 0 <= e < post.len() implies edge_before(#[trigger] post[e], c, a, bd) by {
        if e < pre.len() {
            assert(post[e] == pre[e]);
            assert(edge_before(pre[e], c, a, b));
        }
    }
    assert forall|b2: int|
        b <= b2 < bd && #[trigger] owes_edge(s, w, h, clusters, post, c, a, b2) implies has_edge_from(
        post,
        c,
        a,
        b2,
    ) by {
        lemma_neighbors_are_adjacent_set_pixels(s, w, h, a, b2);
        let v = choose|v: int| 0 <= v < nl.len() && nl[v] == b2;
        if v < u {
            assert(nl[v] < nl[u]);
        } else if v > u {
            if v > u + 1 {
                assert(nl[u + 1] < nl[v]);
            }
        }
        assert(b2 == b);
        if post == pre {
            assert(!owes_edge(s, w, h, clusters, pre, c, a, b));
        }
    }
    lemma_scan_advance(s, w, h, clusters, post, c, a, b, bd);
}

/// From the end of one pixel of a cluster to the start of the next pixel.
proof fn lemma_scan_next_pixel(
    s: Seq<bool>,
    w: int,
    h: int,
    clusters: Seq<Vec<usize>>,
    edges: Seq<PixelEdge>,
    c: int,
    t: int,
)
    requires
        0 <= c < clusters.len(),
        0 <= t < clusters[c]@.len() - 1,
        strictly_increasing(clusters[c]@),
        scan_at(s, w, h, clusters, edges, c, clusters[c]@[t] as int, s.len() as int),
    ensures
        scan_at(s, w, h, clusters, edges, c, clusters[c]@[t + 1] as int, 0),
{
    let a = clusters[c]@[t] as int;
    let a1 = clusters[c]@[t + 1] as int;
    assert(a < a1);
    assert forall|e: int| 0 <= e < edges.len() implies edge_before(#[trigger] edges[e], c, a1, 0) by {
        assert(edge_before(edges[e], c, a, s.len() as int));
    }
    assert forall|c2: int, t2: int, b2: int|
        0 <= c2 < clusters.len() && 0 <= t2 < clusters[c2]@.len() && scan_before(
            c2,
            clusters[c2]@[t2] as int,
            b2,
            c,
            a1,
            0,
        ) && #[trigger] owes_edge(s, w, h, clusters, edges, c2, clusters[c2]@[t2] as int, b2)
        implies has_edge_from(edges, c2, clusters[c2]@[t2] as int, b2) by {
        if c2 == c {
            if t2 > t {
                assert(clusters[c]@[t + 1] <= clusters[c]@[t2]) by {
                    if t2 > t + 1 {
                        assert(clusters[c]@[t + 1] < clusters[c]@[t2]);
                    }
                }
            } else if t2 < t {
                assert(clusters[c]@[t2] < clusters[c]@[t]);
            }
        }
    }
}

/// From the end of the last pixel of a cluster to the start of the next cluster,
/// or past the last cluster.
proof fn lemma_scan_next_cluster(
    s: Seq<bool>,
    w: int,
    h: int,
    clusters: Seq<Vec<usize>>,
    edges: Seq<PixelEdge>,
    c: int,
)
    requires
        0 <= c < clusters.len(),
        clusters[c]@.len() >= 1,
        forall|d: int|
            0 <= d < clusters.len() ==> strictly_increasing(#[trigger] clusters[d]@) && clusters[d]@.len()
                >= 1,
        scan_at(
            s,
            w,
            h,
            clusters,
            edges,
            c,
            clusters[c]@[clusters[c]@.len() - 1] as int,
            s.len() as int,
        ),
    ensures
        c + 1 < clusters.len() ==> scan_at(s, w, h, clusters, edges, c + 1, clusters[c + 1]@[0] as int, 0),
        c + 1 == clusters.len() ==> scan_at(s, w, h, clusters, edges, c + 1, 0, 0),
{
    let last = clusters[c]@.len() - 1;
    let a = clusters[c]@[last] as int;
    let a1 = if c + 1 < clusters.len() {
        clusters[c + 1]@[0] as int
    } else {
        0
    };
    assert forall|e: int| 0 <= e < edges.len() implies edge_before(#[trigger] edges[e], c + 1, a1, 0) by {
        assert(edge_before(edges[e], c, a, s.len() as int));
    }
    assert forall|c2: int, t2: int, b2: int|
        0 <= c2 < clusters.len() && 0 <= t2 < clusters[c2]@.len() && scan_before(
            c2,
            clusters[c2]@[t2] as int,
            b2,
            c + 1,
            a1,
            0,
        ) && #[trigger] owes_edge(s, w, h, clusters, edges, c2, clusters[c2]@[t2] as int, b2)
        implies has_edge_from(edges, c2, clusters[c2]@[t2] as int, b2) by {
        assert(strictly_increasing(clusters[c2]@));
        if c2 == c && t2 < last {
            assert(clusters[c]@[t2] < clusters[c]@[last]);
        }
        if c2 == c + 1 && t2 > 0 {
            assert(clusters[c2]@[0] < clusters[c2]@[t2]);
        }
    }
}

/// Two steps of one well-formed edge never cross the same link.
proof fn lemma_edge_links_distinct(
    s: Seq<bool>,
    w: int,
    h: int,
    clusters: Seq<Vec<usize>>,
    e: PixelEdge,
    k1: int,
    k2: int,
)
    requires
        edge_well_formed(s, w, h, clusters, e),
        0 <= k1 < k2 < e.pixels@.len() - 1,
    ensures
        step_link(e.pixels@, k1) != step_link(e.pixels@, k2),
{
    let p = e.pixels@;
    if step_link(p, k1) == step_link(p, k2) {
        if p[k1] == p[k2] {
            assert(p[k1 + 1] == p[k2 + 1]);
        } else {
            assert(p[k1] == p[k2 + 1] && p[k1 + 1] == p[k2]);
            if k1 == 0 && k2 == 1 {
                assert(p[0int + 2] != p[0int]);
            }
        }
    }
}

/// A walk whose first link no edge crosses, and which stays outside the clusters
/// between its ends, crosses no link that an edge crosses: where an edge met the
/// walk inside, the edge would have to come in along the walk's previous link.
proof fn lemma_fresh_walk(
    s: Seq<bool>,
    w: int,
    h: int,
    clusters: Seq<Vec<usize>>,
    edges: Seq<PixelEdge>,
    x: PixelEdge,
    k: int,
)
    requires
        w > 0,
        h > 0,
        s.len() == w * h,
        edges_well_formed(s, w, h, clusters, edges),
        edge_well_formed(s, w, h, clusters, x),
        !traversed(edges, step_link(x.pixels@, 0)),
        0 <= k < x.pixels@.len() - 1,
    ensures
        !traversed(edges, step_link(x.pixels@, k)),
    decreases k,
{
    let p = x.pixels@;
    if k > 0 {
        lemma_fresh_walk(s, w, h, clusters, edges, x, k - 1);
        if traversed(edges, step_link(p, k)) {
            let f = choose|f: int| 0 <= f < edges.len() && #[trigger] crosses(
                edges[f].pixels@,
                step_link(p, k),
            );
            let q = edges[f].pixels@;
            assert(edge_well_formed(s, w, h, clusters, edges[f]));
            let j = choose|j: int| 0 <= j < q.len() - 1 && #[trigger] step_link(q, j) == step_link(
                p,
                k,
            );
            // The walk's pixel `p[k]` lies inside the walk, so in no cluster.
            let d0 = edges[f].start as int;
            let d1 = edges[f].end as int;
            assert(!in_cluster(clusters, d0, p[k] as int));
            assert(!in_cluster(clusters, d1, p[k] as int));
            let (m, m2) = if q[j] == p[k] {
                (j, j + 1)
            } else {
                (j + 1, j)
            };
            assert(q[m] == p[k] && q[m2] == p[k + 1]);
            assert(m != 0);
            assert(m != q.len() - 1);
            // The walk came into `p[k]` from `p[k - 1]`, a skeleton neighbour.
            assert(adjacent(w, h, p[k - 1] as int, p[k] as int));
            lemma_adjacent_symmetric(w, h, p[k - 1] as int, p[k] as int);
            assert(adjacent(w, h, q[m] as int, p[k - 1] as int));
            assert(p[k - 1] < s.len() && s[p[k - 1] as int]);
            assert((k - 1) + 2 == k + 1);
            assert(p[(k - 1) + 2] != p[k - 1]);
            if p[k - 1] == q[m - 1] {
                assert(step_link(q, m - 1) == step_link(p, k - 1));
                assert(crosses(q, step_link(p, k - 1)));
            } else {
                assert(p[k - 1] == q[m + 1]);
                assert(step_link(q, m) == step_link(p, k - 1));
                assert(crosses(q, step_link(p, k - 1)));
            }
            assert(traversed(edges, step_link(p, k - 1)));
        }
    }
}

/// Some edge crosses link `l`.
pub open spec fn traversed(edges: Seq<PixelEdge>, l: (usize, usize)) -> bool {
    exists|e: int| 0 <= e < edges.len() && #[trigger] crosses(edges[e].pixels@, l)
}

/// Every link from pixel `t` of cluster `c` to a skeleton pixel outside the cluster
/// is crossed by some edge.
pub open spec fn pixel_covered(
    s: Seq<bool>,
    w: int,
    h: int,
    clusters: Seq<Vec<usize>>,
    edges: Seq<PixelEdge>,
    c: int,
    t: int,
) -> bool {
    let a = clusters[c]@[t];
    forall|b: int|
        #[trigger] adjacent(w, h, a as int, b) && 0 <= b < s.len() && s[b] && !in_cluster(
            clusters,
            c,
            b,
        ) ==> traversed(edges, link_of(a, b as usize))
}

/// The clusters are the connected components of the node pixels, each sorted
/// ascending and listed in ascending order of their smallest pixel; they cover
/// every node pixel and no two share a pixel.
pub open spec fn clusters_of(nodes: Seq<bool>, w: int, h: int, clusters: Seq<Vec<usize>>) -> bool {
    &&& forall|c: int|
        0 <= c < clusters.len() ==> {
            &&& (#[trigger] clusters[c])@.len() >= 1
            &&& strictly_increasing(clusters[c]@)
            &&& index_set(clusters[c]@) == component(nodes, w, h, clusters[c]@[0] as int)
        }
    &&& forall|c: int, d: int| 0 <= c < d < clusters.len() ==> clusters[c]@[0] < clusters[d]@[0]
    &&& forall|i: int|
        0 <= i < nodes.len() && nodes[i] ==> exists|c: int| #[trigger] in_cluster(clusters, c, i)
    &&& forall|c: int, d: int, i: int|
        #![trigger in_cluster(clusters, c, i), in_cluster(clusters, d, i)]
        in_cluster(clusters, c, i) && in_cluster(clusters, d, i) ==> c == d
}

/// What the tracing loops rely on: which cluster owns each pixel, and that every
/// skeleton pixel outside the clusters has exactly two skeleton neighbours.
pub open spec fn owner_facts(
    s: Seq<bool>,
    w: int,
    h: int,
    clusters: Seq<Vec<usize>>,
    owner: Seq<Option<usize>>,
) -> bool {
    &&& w > 0
    &&& h > 0
    &&& s.len() == w * h
    &&& owner.len() == s.len()
    &&& forall|i: int|
        0 <= i < s.len() && #[trigger] owner[i] is Some ==> in_cluster(
            clusters,
            owner[i].unwrap() as int,
            i,
        )
    &&& forall|d: int, i: int|
        #[trigger] in_cluster(clusters, d, i) ==> 0 <= i < s.len() && owner[i] == Some(d as usize)
    &&& forall|i: int|
        0 <= i < s.len() && s[i] && #[trigger] owner[i] is None ==> neighbor_list(
            s,
            w,
            h,
            i,
            9,
        ).len() == 2
    &&& forall|c: int, t: int|
        0 <= c < clusters.len() && 0 <= t < clusters[c]@.len() ==> #[trigger] clusters[c]@[t]
            < s.len() && s[clusters[c]@[t] as int]
}

/// Every edge is well formed.
pub open spec fn edges_well_formed(
    s: Seq<bool>,
    w: int,
    h: int,
    clusters: Seq<Vec<usize>>,
    edges: Seq<PixelEdge>,
) -> bool {
    forall|e: int| 0 <= e < edges.len() ==> edge_well_formed(s, w, h, clusters, #[trigger] edges[e])
}

/// A link crossed by the edges stays crossed when one more edge is added.
proof fn lemma_traversed_push(edges: Seq<PixelEdge>, x: PixelEdge)
    ensures
        forall|l: (usize, usize)| traversed(edges, l) ==> #[trigger] traversed(edges.push(x), l),
{
    assert forall|l: (usize, usize)| traversed(edges, l) implies #[trigger] traversed(
        edges.push(x),
        l,
    ) by {
        let e = choose|e: int| 0 <= e < edges.len() && #[trigger] crosses(edges[e].pixels@, l);
        assert(edges.push(x)[e] == edges[e]);
    }
}

/// Adding a well-formed edge whose first link no earlier edge crosses keeps every
/// link crossed at most once.
proof fn lemma_add_fresh_edge(
    s: Seq<bool>,
    w: int,
    h: int,
    clusters: Seq<Vec<usize>>,
    edges: Seq<PixelEdge>,
    x: PixelEdge,
)
    requires
        w > 0,
        h > 0,
        s.len() == w * h,
        edges_well_formed(s, w, h, clusters, edges),
        links_once(edges),
        edge_well_formed(s, w, h, clusters, x),
        !traversed(edges, step_link(x.pixels@, 0)),
    ensures
        links_once(edges.push(x)),
{
    let all = edges.push(x);
    let n = edges.len() as int;
    assert forall|e1: int, k1: int, e2: int, k2: int|
        #![trigger step_link(all[e1].pixels@, k1), step_link(all[e2].pixels@, k2)]
        0 <= e1 < all.len() && 0 <= e2 < all.len() && 0 <= k1 < all[e1].pixels@.len() - 1 && 0
            <= k2 < all[e2].pixels@.len() - 1 && (e1 != e2 || k1 != k2) implies step_link(
        all[e1].pixels@,
        k1,
    ) != step_link(all[e2].pixels@, k2) by {
        if e1 < n && e2 < n {
            assert(all[e1] == edges[e1] && all[e2] == edges[e2]);
        } else if e1 == n && e2 == n {
            if k1 < k2 {
                lemma_edge_links_distinct(s, w, h, clusters, x, k1, k2);
            } else {
                lemma_edge_links_distinct(s, w, h, clusters, x, k2, k1);
            }
        } else if e1 == n {
            lemma_fresh_walk(s, w, h, clusters, edges, x, k1);
            assert(all[e2] == edges[e2]);
            if step_link(all[e1].pixels@, k1) == step_link(all[e2].pixels@, k2) {
                assert(crosses(edges[e2].pixels@, step_link(x.pixels@, k1)));
            }
        } else {
            lemma_fresh_walk(s, w, h, clusters, edges, x, k2);
            assert(all[e1] == edges[e1]);
            if step_link(all[e1].pixels@, k1) == step_link(all[e2].pixels@, k2) {
                assert(crosses(edges[e1].pixels@, step_link(x.pixels@, k2)));
            }
        }
    }
}

/// Walk every edge that leaves pixel `t` of cluster `c` and has not been walked yet.
/// Returns whether the edge budget was exceeded, which stops the walk at once.
fn trace_from_pixel(
    skeleton: &Vec<bool>,
    width: usize,
    height: usize,
    clusters: &Vec<Vec<usize>>,
    owner: &Vec<Option<usize>>,
    c: usize,
    t: usize,
    edges: &mut Vec<PixelEdge>,
    visited: &mut BTreeSet<(usize, usize)>,
) -> (over: bool)
    requires
        owner_facts(skeleton@, width as int, height as int, clusters@, owner@),
        c < clusters@.len(),
        t < clusters@[c as int]@.len(),
        edges_well_formed(skeleton@, width as int, height as int, clusters@, old(edges)@),
        old(edges)@.len() <= MAX_GRAPH_ITEMS,
        links_once(old(edges)@),
        forall|l: (usize, usize)| #[trigger]
            old(visited)@.contains(l) <==> traversed(old(edges)@, l),
        scan_ordered(old(edges)@),
        scan_at(
            skeleton@,
            width as int,
            height as int,
            clusters@,
            old(edges)@,
            c as int,
            clusters@[c as int]@[t as int] as int,
            0,
        ),
    ensures
        links_once(final(edges)@),
        scan_ordered(final(edges)@),
        !over ==> scan_at(
            skeleton@,
            width as int,
            height as int,
            clusters@,
            final(edges)@,
            c as int,
            clusters@[c as int]@[t as int] as int,
            skeleton@.len() as int,
        ),
        edges_well_formed(skeleton@, width as int, height as int, clusters@, final(edges)@),
        old(edges)@.len() <= final(edges)@.len(),
        forall|e: int| 0 <= e < old(edges)@.len() ==> #[trigger] final(edges)@[e] == old(edges)@[e],
        over <==> final(edges)@.len() > MAX_GRAPH_ITEMS,
        final(edges)@.len() <= MAX_GRAPH_ITEMS + 1,
        forall|l: (usize, usize)| #[trigger]
            final(visited)@.contains(l) <==> traversed(final(edges)@, l),
        forall|l: (usize, usize)| traversed(old(edges)@, l) ==> #[trigger] traversed(
            final(edges)@,
            l,
        ),
        !over ==> pixel_covered(
            skeleton@,
            width as int,
            height as int,
            clusters@,
            final(edges)@,
            c as int,
            t as int,
        ),
{
    proof {
        lemma_links_ordered();
    }
    let ghost s = skeleton@;
    let ghost w = width as int;
    let ghost h = height as int;
    let ghost edges0 = edges@;
    let a = clusters[c][t];
    let nb = neighbors(a, skeleton, width, height);
    let ghost nl = neighbor_list(s, w, h, a as int, 9);
    proof {
        assert(nb@.map_values(|v: usize| v as int) == nl);
        assert(nb@.len() == nl.len());
        assert(a < s.len());
        lemma_neighbor_list_sorted(s, w, h, a as int, 9);
        assert forall|k: int| 0 <= k < nl.len() implies 0 <= #[trigger] nl[k] < s.len() by {
            assert(nl.contains(nl[k]));
            lemma_neighbors_are_adjacent_set_pixels(s, w, h, a as int, nl[k]);
        }
        let bd0 = if 0 < nb@.len() {
            nb@[0] as int
        } else {
            s.len() as int
        };
        assert forall|b2: int|
            0 <= b2 < bd0 && #[trigger] owes_edge(s, w, h, clusters@, edges@, c as int, a as int, b2)
                implies has_edge_from(edges@, c as int, a as int, b2) by {
            lemma_neighbors_are_adjacent_set_pixels(s, w, h, a as int, b2);
            let v = choose|v: int| 0 <= v < nl.len() && nl[v] == b2;
            if v > 0 {
                assert(nl[0] < nl[v]);
            }
            assert(nl[0] == nb@[0] as int);
        }
        lemma_scan_advance(s, w, h, clusters@, edges@, c as int, a as int, 0, bd0);
    }
    let mut u: usize = 0;
    while u < nb.len()
        invariant
            s == skeleton@,
            w == width,
            h == height,
            owner_facts(s, w, h, clusters@, owner@),
            c < clusters@.len(),
            t < clusters@[c as int]@.len(),
            a == clusters@[c as int]@[t as int],
            nb@.map_values(|v: usize| v as int) == nl,
            nl == neighbor_list(s, w, h, a as int, 9),
            u <= nb@.len(),
            edges_well_formed(s, w, h, clusters@, edges@),
            edges0 == old(edges)@,
            edges0.len() <= edges@.len(),
            forall|e: int| 0 <= e < edges0.len() ==> #[trigger] edges@[e] == edges0[e],
            edges@.len() <= MAX_GRAPH_ITEMS,
            links_once(edges@),
            forall|l: (usize, usize)| #[trigger] visited@.contains(l) <==> traversed(edges@, l),
            forall|l: (usize, usize)| traversed(edges0, l) ==> #[trigger] traversed(edges@, l),
            scan_ordered(edges@),
            a < s.len(),
            forall|i: int, j: int| 0 <= i < j < nl.len() ==> nl[i] < nl[j],
            forall|k: int| 0 <= k < nl.len() ==> 0 <= #[trigger] nl[k] < s.len(),
            scan_at(
                s,
                w,
                h,
                clusters@,
                edges@,
                c as int,
                a as int,
                if u < nb@.len() {
                    nb@[u as int] as int
                } else {
                    s.len() as int
                },
            ),
            forall|v: int|
                0 <= v < u ==> in_cluster(clusters@, c as int, #[trigger] nb@[v] as int)
                    || traversed(edges@, link_of(a, nb@[v])),
        decreases nb@.len() - u,
    {
        let b = nb[u];
        let ghost edges_at = edges@;
        proof {
            assert(nl[u as int] == b as int);
            assert(nl.contains(b as int));
            lemma_neighbors_are_adjacent_set_pixels(s, w, h, a as int, b as int);
        }
        let own_here = match owner[b] {
            Some(x) => x == c,
            None => false,
        };
        let skip = own_here || visited.contains(&link(a, b));
        if !skip {
            let ghost edges_before = edges@;
            proof {
                assert(in_cluster(clusters@, c as int, a as int)) by {
                    assert(clusters@[c as int]@[t as int] as int == a as int);
                }
                assert(!in_cluster(clusters@, c as int, b as int)) by {
                    if in_cluster(clusters@, c as int, b as int) {
                        assert(owner@[b as int] == Some(c));
                    }
                }
            }
            let ghost visited_before = visited@;
            proof {
                assert(!traversed(edges_before, link_of(a, b)));
            }
            let (end, pixels) = walk_edge(skeleton, width, height, owner, a, b, visited);
            let ghost p = pixels@;
            let edge = PixelEdge { start: c, end, pixels };
            proof {
                assert(in_cluster(clusters@, end as int, p[p.len() - 1] as int));
                assert forall|k: int, d: int|
                    #![trigger p[k], in_cluster(clusters@, d, p[k] as int)]
                    0 < k < p.len() - 1 implies !in_cluster(clusters@, d, p[k] as int) by {
                    if in_cluster(clusters@, d, p[k] as int) {
                        assert(owner@[p[k] as int] is Some);
                    }
                }
                assert(edge_well_formed(s, w, h, clusters@, edge));
                assert(step_link(edge.pixels@, 0) == link_of(a, b));
                lemma_add_fresh_edge(s, w, h, clusters@, edges_before, edge);
            }
            edges.push(edge);
            proof {
                lemma_traversed_push(edges_before, edge);
                assert(edges@ == edges_before.push(edge));
                assert(edges@[edges@.len() - 1] == edge);
                assert(crosses(edge.pixels@, link_of(a, b))) by {
                    assert(step_link(edge.pixels@, 0) == link_of(a, b));
                }
                assert(traversed(edges@, link_of(a, b)));
                assert forall|l: (usize, usize)| #[trigger] visited@.contains(l) <==> traversed(
                    edges@,
                    l,
                ) by {
                    if crosses(edge.pixels@, l) {
                        assert(edges@[edges@.len() - 1] == edge);
                        let k = choose|k: int| 0 <= k < p.len() - 1 && #[trigger] step_link(p, k) == l;
                        assert(visited@.contains(step_link(p, k)));
                    }
                    if traversed(edges@, l) {
                        let f = choose|f: int| 0 <= f < edges@.len() && #[trigger] crosses(
                            edges@[f].pixels@,
                            l,
                        );
                        if f < edges_before.len() {
                            assert(edges@[f] == edges_before[f]);
                            assert(traversed(edges_before, l));
                            assert(visited_before.contains(l));
                        } else {
                            assert(crosses(p, l));
                        }
                    }
                    if visited@.contains(l) && !crosses(p, l) {
                        assert(visited_before.contains(l));
                    }
                }
                assert forall|e: int| 0 <= e < edges@.len() implies edge_well_formed(
                    s,
                    w,
                    h,
                    clusters@,
                    #[trigger] edges@[e],
                ) by {
                    if e < edges_before.len() {
                        assert(edges@[e] == edges_before[e]);
                    }
                }
                assert(edge.pixels@[0] == a && edge.pixels@[1] == b);
                lemma_scan_step(s, w, h, clusters@, edges_at, edges@, c as int, a as int, u as int);
            }
            if edges.len() > MAX_GRAPH_ITEMS {
                return true;
            }
        } else {
            proof {
                if !own_here {
                    assert(visited@.contains(link_of(a, b)));
                    let f = choose|f: int| 0 <= f < edges@.len() && #[trigger] crosses(
                        edges@[f].pixels@,
                        link_of(a, b),
                    );
                    assert(edge_before(edges@[f], c as int, a as int, b as int));
                    assert(crossed_before(edges@, c as int, a as int, b as int, link_of(a, b)));
                } else {
                    assert(owner@[b as int] == Some(c));
                    assert(in_cluster(clusters@, c as int, b as int));
                }
                assert(!owes_edge(s, w, h, clusters@, edges@, c as int, a as int, b as int));
                lemma_scan_step(s, w, h, clusters@, edges_at, edges@, c as int, a as int, u as int);
            }
        }
        u = u + 1;
    }
    proof {
        let a = clusters@[c as int]@[t as int];
        assert forall|b: int|
            #[trigger] adjacent(w, h, a as int, b) && 0 <= b < s.len() && s[b] && !in_cluster(
                clusters@,
                c as int,
                b,
            ) implies traversed(edges@, link_of(a, b as usize)) by {
            lemma_neighbors_are_adjacent_set_pixels(s, w, h, a as int, b);
            let v = choose|v: int| 0 <= v < nl.len() && nl[v] == b;
            assert(nb@[v] as int == b);
        }
    }
    false
}

/// Coverage survives adding edges that keep every crossed link crossed.
proof fn lemma_covered_grows(
    s: Seq<bool>,
    w: int,
    h: int,
    clusters: Seq<Vec<usize>>,
    e0: Seq<PixelEdge>,
    e1: Seq<PixelEdge>,
    c: int,
    t: int,
)
    requires
        pixel_covered(s, w, h, clusters, e0, c, t),
        forall|l: (usize, usize)| traversed(e0, l) ==> #[trigger] traversed(e1, l),
    ensures
        pixel_covered(s, w, h, clusters, e1, c, t),
{
    let a = clusters[c]@[t];
    assert forall|b: int|
        #[trigger] adjacent(w, h, a as int, b) && 0 <= b < s.len() && s[b] && !in_cluster(
            clusters,
            c,
            b,
        ) implies traversed(e1, link_of(a, b as usize)) by {
        assert(traversed(e0, link_of(a, b as usize)));
    }
}

/// The first pixel of a strictly increasing list is its smallest.
proof fn lemma_first_is_least(v: Seq<usize>, x: int)
    requires
        strictly_increasing(v),
        index_set(v).contains(x),
    ensures
        v[0] as int <= x,
{
    let k = choose|k: int| 0 <= k < v.len() && v[k] as int == x;
    if k > 0 {
        assert(v[0] < v[k]);
    }
}

/// The skeleton graph of a one-pixel skeleton, as pixel walks.
///
/// Node pixels are the skeleton pixels without exactly two skeleton neighbours,
/// plus one anchor on each cycle without any; adjacent node pixels form the
/// clusters. From every pixel of every cluster, in order, every skeleton neighbour
/// outside the cluster whose link has not been walked yet starts an edge, followed
/// until it reaches a cluster; the edges come in that order: cluster ascending,
/// start pixel ascending, first pixel ascending. No link is crossed by two steps,
/// of one edge or of two, and no walk steps straight back to the pixel it came
/// from. Refused as an isolated dot when there is no node pixel at all, an empty
/// grid included.
pub fn trace_pixel_graph(skeleton: &Vec<bool>, width: usize, height: usize) -> (r: Result<
    PixelGraph,
    LineArtRefusal,
>)
    requires
        skeleton@.len() == width * height,
    ensures
        r is Err <==> forall|i: int|
            0 <= i < skeleton@.len() ==> !node_flags(skeleton@, width as int, height as int)[i],
        r is Err ==> r == Err::<PixelGraph, LineArtRefusal>(LineArtRefusal::IsolatedDot),
        r matches Ok(g) ==> {
            &&& clusters_of(
                node_flags(skeleton@, width as int, height as int),
                width as int,
                height as int,
                g.clusters@,
            )
            &&& g.clusters@.len() >= 1
            &&& edges_well_formed(skeleton@, width as int, height as int, g.clusters@, g.edges@)
            &&& links_once(g.edges@)
            &&& scan_ordered(g.edges@)
            &&& !g.over_budget ==> scan_complete_before(
                skeleton@,
                width as int,
                height as int,
                g.clusters@,
                g.edges@,
                g.clusters@.len() as int,
                0,
                0,
            )
            &&& g.edges@.len() <= MAX_GRAPH_ITEMS + 1
            &&& (g.over_budget <==> g.edges@.len() > MAX_GRAPH_ITEMS)
            &&& !g.over_budget ==> forall|c: int, t: int|
                0 <= c < g.clusters@.len() && 0 <= t < g.clusters@[c]@.len() ==> pixel_covered(
                    skeleton@,
                    width as int,
                    height as int,
                    g.clusters@,
                    g.edges@,
                    c,
                    t,
                )
        },
{
    if width == 0 {
        return Err(LineArtRefusal::IsolatedDot);
    }
    let ghost s = skeleton@;
    let ghost w = width as int;
    let ghost h = height as int;
    let n = skeleton.len();
    let ghost plain = plain_nodes(s, w, h);
    let mut nodes: Vec<bool> = Vec::new();
    let mut i: usize = 0;
    while i < n
        invariant
            s == skeleton@,
            w == width,
            h == height,
            width > 0,
            n == s.len(),
            n == width * height,
            plain == plain_nodes(s, w, h),
            i <= n,
            nodes@ == plain.take(i as int),
        decreases n - i,
    {
        let nb = neighbors(i, skeleton, width, height);
        proof {
            assert(nb@.map_values(|v: usize| v as int) == neighbor_list(s, w, h, i as int, 9));
            assert(nb@.len() == neighbor_list(s, w, h, i as int, 9).len());
        }
        nodes.push(skeleton[i] && nb.len() != 2);
        proof {
            assert(nodes@ =~= plain.take(i + 1));
        }
        i = i + 1;
    }
    proof {
        assert(nodes@ =~= plain);
    }
    add_cycle_anchors(skeleton, width, height, &mut nodes);
    let ghost nf = node_flags(s, w, h);
    proof {
        assert(nodes@ =~= nf);
    }
    let clusters = node_clusters(&nodes, width, height);
    if clusters.len() == 0 {
        proof {
            assert forall|i: int| 0 <= i < n implies !nf[i] by {
                if nf[i] {
                    assert(nodes@[i]);
                    let c = choose|c: int| 0 <= c < clusters@.len() && index_set(
                        #[trigger] clusters@[c]@,
                    ).contains(i);
                }
            }
        }
        return Err(LineArtRefusal::IsolatedDot);
    }
    let ghost cl = clusters@;
    proof {
        // There is a node pixel: the first pixel of the first cluster.
        let f = cl[0]@[0] as int;
        assert(index_set(cl[0]@).contains(f)) by {
            assert(cl[0]@[0] as int == f);
        }
        lemma_component_member(nf, w, h, f, f);
        assert(nf[f]);
        assert(f < nf.len());
        assert(n > 0);
        assert(height > 0) by {
            if height == 0 {
                assert(width * height == 0) by (nonlinear_arith)
                    requires
                        height == 0,
                ;
            }
        }
        // No two clusters share a pixel.
        assert forall|c: int, d: int, x: int|
            #![trigger in_cluster(cl, c, x), in_cluster(cl, d, x)]
            in_cluster(cl, c, x) && in_cluster(cl, d, x) implies c == d by {
            let fc = cl[c]@[0] as int;
            let fd = cl[d]@[0] as int;
            lemma_components_meet(nf, w, h, fc, fd, x);
            lemma_components_meet(nf, w, h, fd, fc, x);
            lemma_first_is_least(cl[c]@, fd);
            lemma_first_is_least(cl[d]@, fc);
            if c < d {
                assert(cl[c]@[0] < cl[d]@[0]);
            } else if d < c {
                assert(cl[d]@[0] < cl[c]@[0]);
            }
        }
        assert forall|i: int| 0 <= i < nf.len() && nf[i] implies exists|c: int|
            #[trigger] in_cluster(cl, c, i) by {
            let c = choose|c: int| 0 <= c < cl.len() && index_set(#[trigger] cl[c]@).contains(i);
            assert(in_cluster(cl, c, i));
        }
        assert(clusters_of(nf, w, h, cl));
        // Every cluster pixel is a skeleton pixel of the grid.
        assert forall|c: int, t: int|
            0 <= c < cl.len() && 0 <= t < cl[c]@.len() implies #[trigger] cl[c]@[t] < s.len()
                && s[cl[c]@[t] as int] by {
            let x = cl[c]@[t] as int;
            assert(index_set(cl[c]@).contains(x));
            lemma_component_member(nf, w, h, cl[c]@[0] as int, x);
        }
    }
    let mut owner: Vec<Option<usize>> = Vec::new();
    while owner.len() < n
        invariant
            owner@.len() <= n,
            forall|i: int| 0 <= i < owner@.len() ==> owner@[i] is None,
        decreases n - owner.len(),
    {
        owner.push(None);
    }
    let mut c: usize = 0;
    while c < clusters.len()
        invariant
            cl == clusters@,
            s == skeleton@,
            n == s.len(),
            owner@.len() == n,
            c <= cl.len(),
            forall|c2: int, t: int|
                0 <= c2 < cl.len() && 0 <= t < cl[c2]@.len() ==> #[trigger] cl[c2]@[t] < s.len()
                    && s[cl[c2]@[t] as int],
            forall|c2: int, d: int, x: int|
                #![trigger in_cluster(cl, c2, x), in_cluster(cl, d, x)]
                in_cluster(cl, c2, x) && in_cluster(cl, d, x) ==> c2 == d,
            forall|i: int|
                0 <= i < n && #[trigger] owner@[i] is Some ==> owner@[i].unwrap() < c && in_cluster(
                    cl,
                    owner@[i].unwrap() as int,
                    i,
                ),
            forall|d: int, i: int|
                0 <= d < c && #[trigger] in_cluster(cl, d, i) ==> owner@[i] == Some(d as usize),
        decreases cl.len() - c,
    {
        let mut t: usize = 0;
        while t < clusters[c].len()
            invariant
                cl == clusters@,
                s == skeleton@,
                n == s.len(),
                owner@.len() == n,
                c < cl.len(),
                t <= cl[c as int]@.len(),
                forall|c2: int, tt: int|
                    0 <= c2 < cl.len() && 0 <= tt < cl[c2]@.len() ==> #[trigger] cl[c2]@[tt]
                        < s.len() && s[cl[c2]@[tt] as int],
                forall|c2: int, d: int, x: int|
                    #![trigger in_cluster(cl, c2, x), in_cluster(cl, d, x)]
                    in_cluster(cl, c2, x) && in_cluster(cl, d, x) ==> c2 == d,
                forall|i: int|
                    0 <= i < n && #[trigger] owner@[i] is Some ==> owner@[i].unwrap() <= c
                        && in_cluster(cl, owner@[i].unwrap() as int, i),
                forall|d: int, i: int|
                    0 <= d < c && #[trigger] in_cluster(cl, d, i) ==> owner@[i] == Some(d as usize),
                forall|tt: int| 0 <= tt < t ==> owner@[#[trigger] cl[c as int]@[tt] as int] == Some(c),
            decreases cl[c as int]@.len() - t,
        {
            let px = clusters[c][t];
            proof {
                assert(px == cl[c as int]@[t as int]);
                assert(in_cluster(cl, c as int, px as int)) by {
                    assert(cl[c as int]@[t as int] as int == px as int);
                }
            }
            owner.set(px, Some(c));
            proof {
                assert forall|d: int, i: int|
                    0 <= d < c && #[trigger] in_cluster(cl, d, i) implies owner@[i] == Some(
                        d as usize,
                    ) by {
                    if i == px as int {
                        assert(in_cluster(cl, c as int, i));
                    }
                }
                assert forall|tt: int| 0 <= tt < t + 1 implies owner@[#[trigger] cl[
                    c as int
                ]@[tt] as int] == Some(c) by {
                    if tt < t && cl[c as int]@[tt] != px {
                    }
                }
            }
            t = t + 1;
        }
        proof {
            assert forall|d: int, i: int|
                0 <= d < c + 1 && #[trigger] in_cluster(cl, d, i) implies owner@[i] == Some(
                    d as usize,
                ) by {
                if d == c as int {
                    let k = choose|k: int| 0 <= k < cl[d]@.len() && cl[d]@[k] as int == i;
                    assert(owner@[cl[c as int]@[k] as int] == Some(c));
                }
            }
        }
        c = c + 1;
    }
    proof {
        assert forall|i: int| 0 <= i < s.len() && s[i] && #[trigger] owner@[i] is None implies neighbor_list(
            s,
            w,
            h,
            i,
            9,
        ).len() == 2 by {
            if nf[i] {
                let c = choose|c: int| #[trigger] in_cluster(cl, c, i);
                assert(owner@[i] == Some(c as usize));
            }
            assert(!plain[i]);
        }
        assert forall|d: int, i: int| #[trigger] in_cluster(cl, d, i) implies 0 <= i < s.len()
            && owner@[i] == Some(d as usize) by {
            let k = choose|k: int| 0 <= k < cl[d]@.len() && cl[d]@[k] as int == i;
            assert(cl[d]@[k] < s.len());
        }
        assert(owner_facts(s, w, h, cl, owner@));
    }
    let mut edges: Vec<PixelEdge> = Vec::new();
    let mut visited: BTreeSet<(usize, usize)> = BTreeSet::new();
    proof {
        lemma_links_ordered();
        assert forall|l: (usize, usize)| #[trigger] visited@.contains(l) <==> traversed(edges@, l) by {
            if traversed(edges@, l) {
                let f = choose|f: int| 0 <= f < edges@.len() && #[trigger] crosses(edges@[f].pixels@, l);
            }
        }
        assert(strictly_increasing(cl[0]@));
        assert forall|c2: int, t2: int, b2: int|
            0 <= c2 < cl.len() && 0 <= t2 < cl[c2]@.len() && scan_before(
                c2,
                cl[c2]@[t2] as int,
                b2,
                0,
                cl[0]@[0] as int,
                0,
            ) && #[trigger] owes_edge(s, w, h, cl, edges@, c2, cl[c2]@[t2] as int, b2)
            implies has_edge_from(edges@, c2, cl[c2]@[t2] as int, b2) by {
            if t2 > 0 {
                assert(cl[0]@[0] < cl[0]@[t2]);
            }
        }
        assert(scan_at(s, w, h, cl, edges@, 0, cl[0]@[0] as int, 0));
    }
    let mut c: usize = 0;
    while c < clusters.len()
        invariant
            cl == clusters@,
            s == skeleton@,
            w == width,
            h == height,
            clusters_of(nf, w, h, cl),
            owner_facts(s, w, h, cl, owner@),
            nf == node_flags(s, w, h),
            cl.len() >= 1,
            (cl[0]@[0] as int) < nf.len(),
            nf[cl[0]@[0] as int],
            c <= cl.len(),
            edges_well_formed(s, w, h, cl, edges@),
            edges@.len() <= MAX_GRAPH_ITEMS,
            links_once(edges@),
            scan_ordered(edges@),
            c < cl.len() ==> scan_at(s, w, h, cl, edges@, c as int, cl[c as int]@[0] as int, 0),
            c == cl.len() ==> scan_at(s, w, h, cl, edges@, c as int, 0, 0),
            forall|l: (usize, usize)| #[trigger] visited@.contains(l) <==> traversed(edges@, l),
            forall|c2: int, t: int|
                0 <= c2 < c && 0 <= t < cl[c2]@.len() ==> #[trigger] pixel_covered(
                    s,
                    w,
                    h,
                    cl,
                    edges@,
                    c2,
                    t,
                ),
        decreases cl.len() - c,
    {
        let mut t: usize = 0;
        while t < clusters[c].len()
            invariant
                cl == clusters@,
                s == skeleton@,
                w == width,
                h == height,
                clusters_of(nf, w, h, cl),
                owner_facts(s, w, h, cl, owner@),
                nf == node_flags(s, w, h),
                cl.len() >= 1,
                (cl[0]@[0] as int) < nf.len(),
                nf[cl[0]@[0] as int],
                c < cl.len(),
                t <= cl[c as int]@.len(),
                edges_well_formed(s, w, h, cl, edges@),
                edges@.len() <= MAX_GRAPH_ITEMS,
                links_once(edges@),
                scan_ordered(edges@),
                t < cl[c as int]@.len() ==> scan_at(
                    s,
                    w,
                    h,
                    cl,
                    edges@,
                    c as int,
                    cl[c as int]@[t as int] as int,
                    0,
                ),
                t == cl[c as int]@.len() ==> scan_at(
                    s,
                    w,
                    h,
                    cl,
                    edges@,
                    c as int,
                    cl[c as int]@[t - 1] as int,
                    s.len() as int,
                ),
                forall|l: (usize, usize)| #[trigger] visited@.contains(l) <==> traversed(edges@, l),
                forall|c2: int, tt: int|
                    (0 <= c2 < c && 0 <= tt < cl[c2]@.len()) || (c2 == c && 0 <= tt < t)
                        ==> #[trigger] pixel_covered(s, w, h, cl, edges@, c2, tt),
            decreases cl[c as int]@.len() - t,
        {
            let ghost before = edges@;
            let over = trace_from_pixel(
                skeleton,
                width,
                height,
                &clusters,
                &owner,
                c,
                t,
                &mut edges,
                &mut visited,
            );
            if over {
                return Ok(PixelGraph { clusters, edges, over_budget: true });
            }
            proof {
                assert forall|c2: int, tt: int|
                    (0 <= c2 < c && 0 <= tt < cl[c2]@.len()) || (c2 == c && 0 <= tt < t + 1)
                        implies #[trigger] pixel_covered(s, w, h, cl, edges@, c2, tt) by {
                    if !(c2 == c && tt == t) {
                        lemma_covered_grows(s, w, h, cl, before, edges@, c2, tt);
                    }
                }
                if t + 1 < cl[c as int]@.len() {
                    lemma_scan_next_pixel(s, w, h, cl, edges@, c as int, t as int);
                }
            }
            t = t + 1;
        }
        proof {
            assert(cl[c as int]@.len() >= 1);
            assert forall|d: int|
                0 <= d < cl.len() implies strictly_increasing(#[trigger] cl[d]@) && cl[d]@.len()
                >= 1 by {
                assert(cl[d]@.len() >= 1);
            }
            lemma_scan_next_cluster(s, w, h, cl, edges@, c as int);
        }
        c = c + 1;
    }
    Ok(PixelGraph { clusters, edges, over_budget: false })
}

/// The check that ends tracing: a graph with no edge, or with more vertices than
/// the budget, is refused as an isolated dot.
pub fn check_inventory(g: &PixelGraph) -> (r: Result<(), LineArtRefusal>)
    ensures
        r is Err <==> (g.edges@.len() == 0 || g.clusters@.len() > MAX_GRAPH_ITEMS),
        r is Err ==> r == Err::<(), LineArtRefusal>(LineArtRefusal::IsolatedDot),
{
    if g.edges.len() == 0 || g.clusters.len() > MAX_GRAPH_ITEMS {
        Err(LineArtRefusal::IsolatedDot)
    } else {
        Ok(())
    }
}

} // verus!
