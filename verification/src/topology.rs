//! The integer side of the stroke topology: splitting traced edges at their bends
//! into pieces between vertices, and the degree of every vertex.
//!
//! A traced edge is named here by its two end vertices and the number of points of
//! its simplified polyline. Every interior point becomes a new vertex, numbered
//! after the vertices already there in the order met, and the edge becomes the
//! pieces between consecutive vertices along it.

use vstd::prelude::*;

use crate::centerline::MAX_GRAPH_ITEMS;
use crate::refusals::LineArtRefusal;

verus! {

/// The interior points of a polyline of `np` points.
pub open spec fn interior_count(np: int) -> int {
    if np > 2 {
        np - 2
    } else {
        0
    }
}

/// The pieces a polyline of `np` points is split into.
pub open spec fn piece_count(np: int) -> int {
    if np > 2 {
        np - 1
    } else {
        1
    }
}

/// Interior points over all the edges.
pub open spec fn interior_total(edges: Seq<(usize, usize, usize)>) -> int
    decreases edges.len(),
{
    if edges.len() == 0 {
        0
    } else {
        interior_total(edges.drop_last()) + interior_count(edges.last().2 as int)
    }
}

/// Pieces over all the edges.
pub open spec fn piece_total(edges: Seq<(usize, usize, usize)>) -> int
    decreases edges.len(),
{
    if edges.len() == 0 {
        0
    } else {
        piece_total(edges.drop_last()) + piece_count(edges.last().2 as int)
    }
}

/// Where each new vertex comes from: the edge and the index of the point on it.
pub open spec fn bend_sources(edges: Seq<(usize, usize, usize)>) -> Seq<(usize, usize)>
    decreases edges.len(),
{
    if edges.len() == 0 {
        Seq::empty()
    } else {
        let k = edges.len() - 1;
        bend_sources(edges.drop_last()) + Seq::new(
            interior_count(edges.last().2 as int) as nat,
            |i: int| (k as usize, (i + 1) as usize),
        )
    }
}

/// The vertex at point `i` of edge `e`, whose interior points are numbered from `base`.
pub open spec fn point_vertex(e: (usize, usize, usize), base: int, i: int) -> usize {
    if i == 0 {
        e.0
    } else if i == e.2 - 1 {
        e.1
    } else {
        (base + i - 1) as usize
    }
}

/// The pieces of edge `e`, number `k`: the edge itself when it has no interior
/// point, else one piece between each two consecutive points.
pub open spec fn pieces_of(e: (usize, usize, usize), k: int, base: int) -> Seq<(usize, usize, usize)> {
    if e.2 <= 2 {
        seq![(e.0, e.1, k as usize)]
    } else {
        Seq::new(
            (e.2 - 1) as nat,
            |i: int| (point_vertex(e, base, i), point_vertex(e, base, i + 1), k as usize),
        )
    }
}

/// The pieces of all the edges, in order, with `n` vertices there at first: each
/// piece as its two vertices and the edge it came from.
pub open spec fn bend_pieces(edges: Seq<(usize, usize, usize)>, n: int) -> Seq<(usize, usize, usize)>
    decreases edges.len(),
{
    if edges.len() == 0 {
        Seq::empty()
    } else {
        let prev = edges.drop_last();
        bend_pieces(prev, n) + pieces_of(edges.last(), edges.len() - 1, n + interior_total(prev))
    }
}

/// Splitting is refused when the new vertices would take the vertex count past the
/// budget, or when the pieces up to some edge with a bend are more than the budget.
pub open spec fn split_refused(n: int, edges: Seq<(usize, usize, usize)>) -> bool {
    ||| interior_total(edges) >= 1 && n + interior_total(edges) > MAX_GRAPH_ITEMS
    ||| exists|k: int|
        0 <= k < edges.len() && edges[k].2 > 2 && #[trigger] piece_total(edges.take(k + 1))
            > MAX_GRAPH_ITEMS
}

/// How the traced edges split: the source of every new vertex and every piece.
#[derive(Debug, Clone, PartialEq, Eq)]
pub struct BendPlan {
    pub new_points: Vec<(usize, usize)>,
    pub pieces: Vec<(usize, usize, usize)>,
}

proof fn lemma_interior_monotone(edges: Seq<(usize, usize, usize)>, k: int)
    requires
        0 <= k <= edges.len(),
    ensures
        interior_total(edges.take(k)) <= interior_total(edges),
        interior_total(edges.take(k)) >= 0,
    decreases edges.len() - k,
{
    if k < edges.len() {
        lemma_interior_monotone(edges, k + 1);
        assert(edges.take(k + 1).drop_last() =~= edges.take(k));
    } else {
        assert(edges.take(k) =~= edges);
    }
    lemma_interior_nonneg(edges.take(k));
}

proof fn lemma_interior_nonneg(edges: Seq<(usize, usize, usize)>)
    ensures
        interior_total(edges) >= 0,
    decreases edges.len(),
{
    if edges.len() > 0 {
        lemma_interior_nonneg(edges.drop_last());
    }
}

/// Split every traced edge at the interior points of its polyline. `edges` lists
/// each edge as its start vertex, end vertex and number of points; `vertex_count`
/// vertices are there at first. Refused with the graph budget when the vertices or
/// the pieces grow past it.
pub fn split_plan(vertex_count: usize, edges: &Vec<(usize, usize, usize)>) -> (r: Result<
    BendPlan,
    LineArtRefusal,
>)
    ensures
        r is Err <==> split_refused(vertex_count as int, edges@),
        r is Err ==> r == Err::<BendPlan, LineArtRefusal>(LineArtRefusal::GraphBudget),
        r matches Ok(plan) ==> {
            &&& plan.new_points@ == bend_sources(edges@)
            &&& plan.pieces@ == bend_pieces(edges@, vertex_count as int)
        },
{
    let ghost n = vertex_count as int;
    let mut sources: Vec<(usize, usize)> = Vec::new();
    let mut pieces: Vec<(usize, usize, usize)> = Vec::new();
    let mut count: usize = vertex_count;
    let mut k: usize = 0;
    while k < edges.len()
        invariant
            n == vertex_count,
            k <= edges@.len(),
            sources@ == bend_sources(edges@.take(k as int)),
            pieces@ == bend_pieces(edges@.take(k as int), n),
            pieces@.len() == piece_total(edges@.take(k as int)),
            count == n + interior_total(edges@.take(k as int)),
            interior_total(edges@.take(k as int)) >= 1 ==> count <= MAX_GRAPH_ITEMS,
            forall|k2: int|
                0 <= k2 < k && edges@[k2].2 > 2 ==> #[trigger] piece_total(edges@.take(k2 + 1))
                    <= MAX_GRAPH_ITEMS,
        decreases edges@.len() - k,
    {
        let ghost prefix = edges@.take(k as int);
        let ghost next = edges@.take(k + 1);
        proof {
            assert(next.drop_last() =~= prefix);
            assert(next.last() == edges@[k as int]);
            lemma_interior_nonneg(prefix);
        }
        let (s, t, np) = edges[k];
        if np <= 2 {
            pieces.push((s, t, k));
            proof {
                assert(pieces_of(edges@[k as int], k as int, n + interior_total(prefix)) =~= seq![
                    (s, t, k),
                ]);
                assert(bend_sources(next) =~= bend_sources(prefix));
                assert(pieces@ =~= bend_pieces(next, n));
            }
        } else {
            let ghost e = edges@[k as int];
            let base = count;
            let ghost new_sources = Seq::new((np - 2) as nat, |i: int| (k, (i + 1) as usize));
            let ghost sources0 = sources@;
            let mut i: usize = 1;
            while i + 1 < np
                invariant
                    n == vertex_count,
                    k < edges@.len(),
                    prefix == edges@.take(k as int),
                    next == edges@.take(k + 1),
                    next.drop_last() == prefix,
                    next.last() == e,
                    e == (s, t, np),
                    np > 2,
                    1 <= i <= np - 1,
                    count == base + (i - 1),
                    base == n + interior_total(prefix),
                    interior_total(prefix) >= 0,
                    base <= MAX_GRAPH_ITEMS || i == 1,
                    i > 1 ==> count <= MAX_GRAPH_ITEMS,
                    new_sources == Seq::new((np - 2) as nat, |j: int| (k, (j + 1) as usize)),
                    sources@ == sources0 + new_sources.take(i - 1),
                decreases np - i,
            {
                if count >= MAX_GRAPH_ITEMS {
                    proof {
                        lemma_interior_monotone(edges@, k + 1);
                        assert(interior_total(next) == interior_total(prefix) + (np - 2));
                    }
                    return Err(LineArtRefusal::GraphBudget);
                }
                sources.push((k, i));
                proof {
                    assert(new_sources.take(i as int) =~= new_sources.take(i - 1).push((k, i)));
                }
                count = count + 1;
                i = i + 1;
            }
            proof {
                assert(new_sources.take(i - 1) =~= new_sources);
                assert(sources@ =~= bend_sources(next));
            }
            let ghost pieces0 = pieces@;
            let ghost whole = pieces_of(e, k as int, base as int);
            let mut j: usize = 0;
            while j + 1 < np
                invariant
                    n == vertex_count,
                    k < edges@.len(),
                    e == edges@[k as int],
                    e == (s, t, np),
                    prefix == edges@.take(k as int),
                    next == edges@.take(k + 1),
                    next.drop_last() == prefix,
                    next.last() == e,
                    np > 2,
                    j <= np - 1,
                    count == base + (np - 2),
                    count <= MAX_GRAPH_ITEMS,
                    whole == pieces_of(e, k as int, base as int),
                    pieces@ == pieces0 + whole.take(j as int),
                    pieces0.len() == piece_total(prefix),
                    j > 0 ==> pieces0.len() + j <= MAX_GRAPH_ITEMS,
                decreases np - j,
            {
                let a = if j == 0 {
                    s
                } else {
                    base + j - 1
                };
                let b = if j + 1 == np - 1 {
                    t
                } else {
                    base + j
                };
                pieces.push((a, b, k));
                proof {
                    assert(whole[j as int] == (a, b, k));
                    assert(whole.take(j + 1) =~= whole.take(j as int).push((a, b, k)));
                }
                if pieces.len() > MAX_GRAPH_ITEMS {
                    proof {
                        assert(piece_total(next) == piece_total(prefix) + (np - 1));
                        assert(piece_total(edges@.take(k + 1)) > MAX_GRAPH_ITEMS);
                    }
                    return Err(LineArtRefusal::GraphBudget);
                }
                j = j + 1;
            }
            proof {
                assert(whole.take(j as int) =~= whole);
                assert(pieces@ =~= bend_pieces(next, n));
                assert(piece_total(next) == piece_total(prefix) + (np - 1));
            }
        }
        k = k + 1;
    }
    proof {
        assert(edges@.take(k as int) =~= edges@);
        if split_refused(n, edges@) {
            if interior_total(edges@) >= 1 && n + interior_total(edges@) > MAX_GRAPH_ITEMS {
            } else {
                let k2 = choose|k2: int|
                    0 <= k2 < edges@.len() && edges@[k2].2 > 2 && #[trigger] piece_total(
                        edges@.take(k2 + 1),
                    ) > MAX_GRAPH_ITEMS;
            }
        }
    }
    Ok(BendPlan { new_points: sources, pieces })
}

/// The degree of vertex `v` over the first `m` pieces: one for every piece end at
/// `v`, so two for a piece from `v` back to `v`.
pub open spec fn degree_upto(pieces: Seq<(usize, usize, usize)>, v: int, m: int) -> int
    decreases m,
{
    if m <= 0 {
        0
    } else {
        degree_upto(pieces, v, m - 1) + (if pieces[m - 1].0 == v {
            1int
        } else {
            0int
        }) + (if pieces[m - 1].1 == v {
            1int
        } else {
            0int
        })
    }
}

/// The degree of every vertex over the pieces.
pub fn vertex_degrees(vertex_count: usize, pieces: &Vec<(usize, usize, usize)>) -> (d: Vec<usize>)
    requires
        forall|q: int|
            0 <= q < pieces@.len() ==> #[trigger] pieces@[q].0 < vertex_count && pieces@[q].1
                < vertex_count,
        pieces@.len() <= usize::MAX / 2,
    ensures
        d@.len() == vertex_count,
        forall|v: int| 0 <= v < vertex_count ==> #[trigger] d@[v] == degree_upto(pieces@, v, pieces@.len() as int),
{
    let mut d: Vec<usize> = Vec::new();
    while d.len() < vertex_count
        invariant
            d@.len() <= vertex_count,
            forall|v: int| 0 <= v < d@.len() ==> d@[v] == 0,
        decreases vertex_count - d@.len(),
    {
        d.push(0);
    }
    let mut m: usize = 0;
    while m < pieces.len()
        invariant
            m <= pieces@.len(),
            pieces@.len() <= usize::MAX / 2,
            d@.len() == vertex_count,
            forall|q: int|
                0 <= q < pieces@.len() ==> #[trigger] pieces@[q].0 < vertex_count && pieces@[q].1
                    < vertex_count,
            forall|v: int| 0 <= v < vertex_count ==> #[trigger] d@[v] == degree_upto(pieces@, v, m as int),
            forall|v: int| 0 <= v < vertex_count ==> #[trigger] d@[v] <= 2 * m,
        decreases pieces@.len() - m,
    {
        let (a, b, _) = pieces[m];
        proof {
            assert(pieces@[m as int].0 < vertex_count);
        }
        if a == b {
            let x = d[a] + 2;
            d.set(a, x);
        } else {
            let x = d[a] + 1;
            d.set(a, x);
            let y = d[b] + 1;
            d.set(b, y);
        }
        m = m + 1;
    }
    d
}

/// The check after splitting: a vertex that no piece reaches is refused as an
/// unconnected node cluster.
pub fn check_connected(degrees: &Vec<usize>) -> (r: Result<(), LineArtRefusal>)
    ensures
        r is Ok <==> forall|v: int| 0 <= v < degrees@.len() ==> #[trigger] degrees@[v] != 0,
        r matches Err(e) ==> e matches LineArtRefusal::Graph { detail } && detail@
            == "unconnected skeleton node cluster"@,
{
    let mut v: usize = 0;
    while v < degrees.len()
        invariant
            v <= degrees@.len(),
            forall|u: int| 0 <= u < v ==> #[trigger] degrees@[u] != 0,
        decreases degrees@.len() - v,
    {
        if degrees[v] == 0 {
            return Err(LineArtRefusal::Graph { detail: "unconnected skeleton node cluster".to_owned() });
        }
        v = v + 1;
    }
    Ok(())
}

} // verus!
