//! The combinatorial half of marching squares on the pixel-centre lattice.
//!
//! A cell is the square between four adjacent pixel centres. Which corners lie
//! at or above the extraction level decides, by the standard table, which cell
//! edges the level set crosses and how they pair up. The two diagonal
//! configurations are the ambiguous saddles: they are resolved by one rule (the
//! cell mean, supplied per cell as `joined`) and counted. Segments are then
//! linked into chains by lattice-edge identity alone.

use vstd::prelude::*;
use vstd::arithmetic::div_mod::{lemma_fundamental_div_mod, lemma_fundamental_div_mod_converse};

use crate::boundary::{
    h_count, lemma_edge_identities, spec_h_edge, spec_on_border, spec_v_edge, ChainStatus, Lattice,
};
use crate::linking::{simple_segments, touching, touching_upto};
use crate::counting::count_below;

verus! {

/// The marching-squares case of a cell from its corners: bit 0 the top-left,
/// bit 1 the top-right, bit 2 the bottom-right, bit 3 the bottom-left.
pub open spec fn cell_case(a00: bool, a10: bool, a11: bool, a01: bool) -> int {
    (if a00 { 1int } else { 0int }) + (if a10 { 2int } else { 0int }) + (if a11 { 4int } else {
        0int
    }) + (if a01 { 8int } else { 0int })
}

/// Whether a case is one of the two diagonal saddles.
pub open spec fn is_saddle(case: int) -> bool {
    case == 5 || case == 10
}

/// The segments a cell of the given case contributes, each joining two of its edges.
pub open spec fn cell_pairs(
    case: int,
    top: int,
    bottom: int,
    left: int,
    right: int,
    joined: bool,
) -> Seq<(int, int)> {
    if case == 1 || case == 14 {
        seq![(left, top)]
    } else if case == 2 || case == 13 {
        seq![(top, right)]
    } else if case == 3 || case == 12 {
        seq![(left, right)]
    } else if case == 4 || case == 11 {
        seq![(right, bottom)]
    } else if case == 6 || case == 9 {
        seq![(top, bottom)]
    } else if case == 7 || case == 8 {
        seq![(left, bottom)]
    } else if is_saddle(case) {
        if (case == 5) == joined {
            seq![(left, top), (right, bottom)]
        } else {
            seq![(left, bottom), (top, right)]
        }
    } else {
        Seq::empty()
    }
}

/// The case of cell `(i, j)` of a `w`-wide grid of corner flags.
pub open spec fn case_at(above: Seq<bool>, w: int, i: int, j: int) -> int {
    cell_case(
        above[j * w + i],
        above[j * w + i + 1],
        above[(j + 1) * w + i + 1],
        above[(j + 1) * w + i],
    )
}

/// The segments of cell number `c` in row-major cell order.
pub open spec fn cell_segments_at(
    above: Seq<bool>,
    joined: Seq<bool>,
    w: int,
    h: int,
    c: int,
) -> Seq<(int, int)> {
    let i = c % (w - 1);
    let j = c / (w - 1);
    cell_pairs(
        case_at(above, w, i, j),
        spec_h_edge(w, i, j),
        spec_h_edge(w, i, j + 1),
        spec_v_edge(w, h, i, j),
        spec_v_edge(w, h, i + 1, j),
        joined[c],
    )
}

/// The segments of the first `c` cells, in row-major cell order.
pub open spec fn segments_upto(
    above: Seq<bool>,
    joined: Seq<bool>,
    w: int,
    h: int,
    c: int,
) -> Seq<(int, int)>
    decreases c,
{
    if c <= 0 {
        Seq::empty()
    } else {
        segments_upto(above, joined, w, h, c - 1) + cell_segments_at(above, joined, w, h, c - 1)
    }
}

/// Number of saddle cells among the first `c` cells.
pub open spec fn saddles_upto(above: Seq<bool>, w: int, c: int) -> int
    decreases c,
{
    if c <= 0 {
        0
    } else {
        saddles_upto(above, w, c - 1) + if is_saddle(
            case_at(above, w, (c - 1) % (w - 1), (c - 1) / (w - 1)),
        ) {
            1int
        } else {
            0int
        }
    }
}

/// The two corners of cell `(i, j)` on one diagonal are at or above the level and
/// the two on the other diagonal are not: the level set is ambiguous there.
pub open spec fn diagonal_cell(above: Seq<bool>, w: int, i: int, j: int) -> bool {
    let top_left = above[j * w + i];
    let top_right = above[j * w + i + 1];
    let bottom_right = above[(j + 1) * w + i + 1];
    let bottom_left = above[(j + 1) * w + i];
    ||| top_left && bottom_right && !top_right && !bottom_left
    ||| top_right && bottom_left && !top_left && !bottom_right
}

/// The saddle count over the first `c` cells is the number of those cells whose
/// corners are above the level on one diagonal only.
pub proof fn lemma_saddles_are_diagonal_cells(above: Seq<bool>, w: int, c: int)
    ensures
        saddles_upto(above, w, c) == count_below(
            |k: int| diagonal_cell(above, w, k % (w - 1), k / (w - 1)),
            c,
        ),
    decreases c,
{
    if c > 0 {
        lemma_saddles_are_diagonal_cells(above, w, c - 1);
    }
}

/// A sequence of pairs of `u64` as pairs of integers.
pub open spec fn pairs_view(s: Seq<(u64, u64)>) -> Seq<(int, int)> {
    s.map_values(|p: (u64, u64)| (p.0 as int, p.1 as int))
}

/// Cell `(i, j)` has number `j * (w - 1) + i`.
proof fn lemma_cell_number(w: int, h: int, i: int, j: int)
    requires
        w >= 2,
        h >= 2,
        0 <= i < w - 1,
        0 <= j < h - 1,
    ensures
        (j * (w - 1) + i) % (w - 1) == i,
        (j * (w - 1) + i) / (w - 1) == j,
        0 <= j * (w - 1) + i < (w - 1) * (h - 1),
{
    lemma_fundamental_div_mod_converse(j * (w - 1) + i, w - 1, j, i);
    assert(0 <= j * (w - 1) + i < (w - 1) * (h - 1)) by (nonlinear_arith)
        requires
            w >= 2,
            0 <= i < w - 1,
            0 <= j < h - 1,
    ;
}

/// How many segment ends among `s` are `e`.
pub open spec fn ends_at(s: Seq<(int, int)>, e: int) -> int
    decreases s.len(),
{
    if s.len() == 0 {
        0
    } else {
        ends_at(s.drop_last(), e) + (if s.last().0 == e {
            1int
        } else {
            0int
        }) + (if s.last().1 == e {
            1int
        } else {
            0int
        })
    }
}

/// The two cells a lattice edge can lie on: for a horizontal edge the cell below
/// and the cell above it, for a vertical edge the cell right and the cell left of it.
pub open spec fn edge_cells(w: int, h: int, e: int) -> (int, int) {
    if e < h_count(w, h) {
        let i = e % (w - 1);
        let j = e / (w - 1);
        (j * (w - 1) + i, (j - 1) * (w - 1) + i)
    } else {
        let i = (e - h_count(w, h)) % w;
        let j = (e - h_count(w, h)) / w;
        (j * (w - 1) + i, j * (w - 1) + i - 1)
    }
}

proof fn lemma_ends_concat(a: Seq<(int, int)>, b: Seq<(int, int)>, e: int)
    ensures
        ends_at(a + b, e) == ends_at(a, e) + ends_at(b, e),
    decreases b.len(),
{
    if b.len() > 0 {
        lemma_ends_concat(a, b.drop_last(), e);
        assert((a + b).drop_last() =~= a + b.drop_last());
        assert((a + b).last() == b.last());
    } else {
        assert(a + b =~= a);
    }
}

/// A cell's segments join distinct edges, touch each edge at most once, and touch
/// only edges of the cell, which has one of the two numbers `edge_cells` gives.
proof fn lemma_cell_ends(above: Seq<bool>, joined: Seq<bool>, w: int, h: int, c: int, e: int)
    requires
        w >= 2,
        h >= 2,
        w * h <= usize::MAX,
        0 <= c < (w - 1) * (h - 1),
    ensures
        forall|t: int|
            0 <= t < cell_segments_at(above, joined, w, h, c).len() ==> (#[trigger] cell_segments_at(
                above,
                joined,
                w,
                h,
                c,
            )[t]).0 != cell_segments_at(above, joined, w, h, c)[t].1,
        ends_at(cell_segments_at(above, joined, w, h, c), e) <= 1,
        ends_at(cell_segments_at(above, joined, w, h, c), e) >= 1 ==> c == edge_cells(w, h, e).0
            || c == edge_cells(w, h, e).1,
{
    let i = c % (w - 1);
    let j = c / (w - 1);
    lemma_fundamental_div_mod(c, w - 1);
    assert(0 <= j < h - 1) by (nonlinear_arith)
        requires
            c == (w - 1) * j + i,
            0 <= i < w - 1,
            0 <= c < (w - 1) * (h - 1),
            w >= 2,
    ;
    let top = spec_h_edge(w, i, j);
    let bottom = spec_h_edge(w, i, j + 1);
    let left = spec_v_edge(w, h, i, j);
    let right = spec_v_edge(w, h, i + 1, j);
    lemma_edge_identities(w, h, i, j, i, j + 1);
    lemma_edge_identities(w, h, i, j + 1, i, j);
    lemma_edge_identities(w, h, i, j, i + 1, j);
    lemma_edge_identities(w, h, i + 1, j, i, j);
    assert(top != bottom && left != right && top < left && top < right && bottom < left && bottom
        < right);
    let cell = cell_segments_at(above, joined, w, h, c);
    assert(cell == cell_pairs(case_at(above, w, i, j), top, bottom, left, right, joined[c]));
    reveal_with_fuel(ends_at, 3);
    if cell.len() == 2 {
        assert(cell.drop_last().drop_last() =~= Seq::<(int, int)>::empty());
    } else if cell.len() == 1 {
        assert(cell.drop_last() =~= Seq::<(int, int)>::empty());
    }
    if ends_at(cell, e) >= 1 {
        assert(e == top || e == bottom || e == left || e == right);
        let hc = h_count(w, h);
        assert(hc == (w - 1) * h);
        assert(0 <= j * w + i) by (nonlinear_arith)
            requires
                0 <= j,
                0 <= i,
                w >= 2,
        ;
        assert(j * (w - 1) + i == c) by (nonlinear_arith)
            requires
                c == (w - 1) * j + i,
        ;
        if e == top {
            lemma_fundamental_div_mod_converse(e, w - 1, j, i);
        } else if e == bottom {
            lemma_fundamental_div_mod_converse(e, w - 1, j + 1, i);
            assert(j * (w - 1) + i == ((j + 1) - 1) * (w - 1) + i);
        } else if e == left {
            lemma_fundamental_div_mod_converse(e - hc, w, j, i);
        } else {
            lemma_fundamental_div_mod_converse(e - hc, w, j, i + 1);
        }
    }
}

/// Over the first `k` cells, an edge is touched at most once by each of the two
/// cells it can lie on, and by no other cell; and no segment joins an edge to itself.
proof fn lemma_ends_upto(above: Seq<bool>, joined: Seq<bool>, w: int, h: int, k: int, e: int)
    requires
        w >= 2,
        h >= 2,
        w * h <= usize::MAX,
        0 <= k <= (w - 1) * (h - 1),
    ensures
        ends_at(segments_upto(above, joined, w, h, k), e) <= (if 0 <= edge_cells(w, h, e).0 < k {
            1int
        } else {
            0int
        }) + (if 0 <= edge_cells(w, h, e).1 < k {
            1int
        } else {
            0int
        }),
        forall|t: int|
            0 <= t < segments_upto(above, joined, w, h, k).len() ==> (#[trigger] segments_upto(
                above,
                joined,
                w,
                h,
                k,
            )[t]).0 != segments_upto(above, joined, w, h, k)[t].1,
    decreases k,
{
    if k > 0 {
        lemma_ends_upto(above, joined, w, h, k - 1, e);
        lemma_cell_ends(above, joined, w, h, k - 1, e);
        let prev = segments_upto(above, joined, w, h, k - 1);
        let cell = cell_segments_at(above, joined, w, h, k - 1);
        lemma_ends_concat(prev, cell, e);
        assert(edge_cells(w, h, e).0 != edge_cells(w, h, e).1) by (nonlinear_arith)
            requires
                w >= 2,
        ;
        let all = segments_upto(above, joined, w, h, k);
        assert forall|t: int| 0 <= t < all.len() implies (#[trigger] all[t]).0 != all[t].1 by {
            if t < prev.len() {
                assert(all[t] == prev[t]);
            } else {
                assert(all[t] == cell[t - prev.len()]);
            }
        }
    }
}

proof fn lemma_touching_len(segs: Seq<(u64, u64)>, e: u64, m: int)
    requires
        0 <= m <= segs.len(),
    ensures
        touching_upto(segs, e, m).len() == ends_at(pairs_view(segs).take(m), e as int),
    decreases m,
{
    if m > 0 {
        lemma_touching_len(segs, e, m - 1);
        let pv = pairs_view(segs);
        assert(pv.take(m).drop_last() =~= pv.take(m - 1));
        assert(pv.take(m).last() == (segs[m - 1].0 as int, segs[m - 1].1 as int));
    }
}

/// Marching squares never joins an edge to itself and touches each lattice edge at
/// most twice: an edge lies on at most two cells, and the segments of one cell
/// touch each of its edges at most once.
pub proof fn lemma_marching_segments_simple(
    above: Seq<bool>,
    joined: Seq<bool>,
    w: int,
    h: int,
    segs: Seq<(u64, u64)>,
)
    requires
        w >= 2,
        h >= 2,
        w * h <= usize::MAX,
        segs.len() <= usize::MAX,
        pairs_view(segs) == segments_upto(above, joined, w, h, (w - 1) * (h - 1)),
    ensures
        simple_segments(segs),
{
    let n = (w - 1) * (h - 1);
    assert(0 <= n) by (nonlinear_arith)
        requires
            n == (w - 1) * (h - 1),
            w >= 2,
            h >= 2,
    ;
    lemma_ends_upto(above, joined, w, h, n, 0);
    assert forall|k: int| 0 <= k < segs.len() implies #[trigger] segs[k].0 != segs[k].1 by {
        assert(pairs_view(segs)[k] == (segs[k].0 as int, segs[k].1 as int));
        assert(segments_upto(above, joined, w, h, n)[k].0 != segments_upto(
            above,
            joined,
            w,
            h,
            n,
        )[k].1);
    }
    assert forall|v: u64| #[trigger] touching(segs, v).len() <= 2 by {
        lemma_touching_len(segs, v, segs.len() as int);
        assert(pairs_view(segs).take(segs.len() as int) =~= pairs_view(segs));
        lemma_ends_upto(above, joined, w, h, n, v as int);
    }
}

/// Every segment of the level set at the extraction level, cell by cell in
/// row-major order, and the number of saddle cells. `above` flags the pixel
/// centres at or above the level; `joined` flags, per cell, whether the cell mean
/// is at or above it (read only for saddle cells).
pub fn marching_segments(above: &Vec<bool>, joined: &Vec<bool>, w: usize, h: usize) -> (r: (
    Vec<(u64, u64)>,
    u64,
))
    requires
        w < 2 || h < 2 || (above@.len() == w * h && joined@.len() == (w - 1) * (h - 1) && 2 * w
            * h <= usize::MAX),
    ensures
        w < 2 || h < 2 ==> r.0@.len() == 0 && r.1 == 0,
        w >= 2 && h >= 2 ==> pairs_view(r.0@) == segments_upto(
            above@,
            joined@,
            w as int,
            h as int,
            (w - 1) * (h - 1),
        ) && r.1 == saddles_upto(above@, w as int, (w - 1) * (h - 1)),
        w >= 2 && h >= 2 ==> simple_segments(r.0@),
        w >= 2 && h >= 2 ==> r.1 == count_below(
            |k: int| diagonal_cell(above@, w as int, k % (w - 1), k / (w - 1)),
            (w - 1) * (h - 1),
        ),
{
    let mut segments: Vec<(u64, u64)> = Vec::new();
    let mut saddles: u64 = 0;
    if w < 2 || h < 2 {
        return (segments, 0);
    }
    let lat = Lattice { w, h };
    let ghost a = above@;
    let ghost jn = joined@;
    let ghost wi = w as int;
    let ghost hi = h as int;
    proof {
        assert(w * h <= usize::MAX) by (nonlinear_arith)
            requires
                2 * w * h <= usize::MAX,
                w >= 2,
                h >= 2,
        ;
        assert((w - 1) * (h - 1) <= w * h) by (nonlinear_arith)
            requires
                w >= 2,
                h >= 2,
        ;
    }
    let mut j: usize = 0;
    while j < h - 1
        invariant
            a == above@,
            jn == joined@,
            wi == w,
            hi == h,
            lat.w == w,
            lat.h == h,
            w >= 2,
            h >= 2,
            a.len() == w * h,
            jn.len() == (w - 1) * (h - 1),
            2 * w * h <= usize::MAX,
            w * h <= usize::MAX,
            (w - 1) * (h - 1) <= w * h,
            j <= h - 1,
            pairs_view(segments@) == segments_upto(a, jn, wi, hi, j * (w - 1)),
            saddles == saddles_upto(a, wi, j * (w - 1)),
            saddles <= j * (w - 1),
        decreases h - 1 - j,
    {
        let mut i: usize = 0;
        while i < w - 1
            invariant
                a == above@,
                jn == joined@,
                wi == w,
                hi == h,
                lat.w == w,
                lat.h == h,
                w >= 2,
                h >= 2,
                a.len() == w * h,
                jn.len() == (w - 1) * (h - 1),
                2 * w * h <= usize::MAX,
                w * h <= usize::MAX,
                (w - 1) * (h - 1) <= w * h,
                j < h - 1,
                i <= w - 1,
                pairs_view(segments@) == segments_upto(a, jn, wi, hi, j * (w - 1) + i),
                saddles == saddles_upto(a, wi, j * (w - 1) + i),
                saddles <= j * (w - 1) + i,
            decreases w - 1 - i,
        {
            let ghost c = j * (w - 1) + i;
            proof {
                lemma_cell_number(wi, hi, i as int, j as int);
                lemma_corner_indices(wi, hi, i as int, j as int);
                lemma_edge_ids_fit(wi, hi, i as int, j as int);
            }
            let a00 = above[j * w + i];
            let a10 = above[j * w + i + 1];
            let a11 = above[(j + 1) * w + i + 1];
            let a01 = above[(j + 1) * w + i];
            let idx: u8 = (if a00 { 1u8 } else { 0u8 }) + (if a10 { 2u8 } else { 0u8 }) + (if a11 {
                4u8
            } else {
                0u8
            }) + (if a01 { 8u8 } else { 0u8 });
            assert(idx == case_at(a, wi, i as int, j as int));
            let ghost before = segments@;
            if idx != 0 && idx != 15 {
                let top = lat.h_edge(i, j);
                let bottom = lat.h_edge(i, j + 1);
                let left = lat.v_edge(i, j);
                let right = lat.v_edge(i + 1, j);
                let jflag = joined[j * (w - 1) + i];
                if idx == 1 || idx == 14 {
                    segments.push((left, top));
                } else if idx == 2 || idx == 13 {
                    segments.push((top, right));
                } else if idx == 3 || idx == 12 {
                    segments.push((left, right));
                } else if idx == 4 || idx == 11 {
                    segments.push((right, bottom));
                } else if idx == 6 || idx == 9 {
                    segments.push((top, bottom));
                } else if idx == 7 || idx == 8 {
                    segments.push((left, bottom));
                } else {
                    saddles = saddles + 1;
                    if (idx == 5) == jflag {
                        segments.push((left, top));
                        segments.push((right, bottom));
                    } else {
                        segments.push((left, bottom));
                        segments.push((top, right));
                    }
                }
                proof {
                    assert(pairs_view(segments@) =~= pairs_view(before) + cell_segments_at(
                        a,
                        jn,
                        wi,
                        hi,
                        c,
                    ));
                }
            } else {
                proof {
                    assert(cell_segments_at(a, jn, wi, hi, c) =~= Seq::<(int, int)>::empty());
                    assert(pairs_view(segments@) =~= pairs_view(before) + cell_segments_at(
                        a,
                        jn,
                        wi,
                        hi,
                        c,
                    ));
                }
            }
            assert(segments_upto(a, jn, wi, hi, c + 1) == segments_upto(a, jn, wi, hi, c)
                + cell_segments_at(a, jn, wi, hi, c));
            i = i + 1;
        }
        assert(j * (w - 1) + (w - 1) == (j + 1) * (w - 1)) by (nonlinear_arith);
        j = j + 1;
    }
    assert((h - 1) * (w - 1) == (w - 1) * (h - 1)) by (nonlinear_arith);
    proof {
        assert(segments@.len() == segments.len());
        lemma_marching_segments_simple(a, jn, wi, hi, segments@);
        lemma_saddles_are_diagonal_cells(a, wi, (w - 1) * (h - 1));
    }
    (segments, saddles)
}

/// Whether a chain is open, has at least two vertices, and has an end off the
/// border of the `w` by `h` lattice: such a chain neither closes nor runs out of
/// the image, and the topology it belongs to is invalid.
pub open spec fn is_stray(w: int, h: int, path: Seq<u64>, closed: bool) -> bool {
    &&& !closed
    &&& path.len() >= 2
    &&& (!spec_on_border(w, h, path[0] as int) || !spec_on_border(
        w,
        h,
        path[path.len() - 1] as int,
    ))
}

/// The first chain that is open and has an end off the border, if any.
pub fn first_stray_chain(lat: &Lattice, chains: &Vec<(Vec<u64>, bool)>) -> (r: Option<usize>)
    requires
        lat.w >= 1,
        h_count(lat.w as int, lat.h as int) <= usize::MAX,
    ensures
        match r {
            Some(c) => c < chains@.len() && is_stray(
                lat.w as int,
                lat.h as int,
                chains@[c as int].0@,
                chains@[c as int].1,
            ) && forall|d: int|
                0 <= d < c ==> !is_stray(
                    lat.w as int,
                    lat.h as int,
                    #[trigger] chains@[d].0@,
                    chains@[d].1,
                ),
            None => forall|d: int|
                0 <= d < chains@.len() ==> !is_stray(
                    lat.w as int,
                    lat.h as int,
                    #[trigger] chains@[d].0@,
                    chains@[d].1,
                ),
        },
{
    let mut c: usize = 0;
    while c < chains.len()
        invariant
            lat.w >= 1,
            h_count(lat.w as int, lat.h as int) <= usize::MAX,
            c <= chains@.len(),
            forall|d: int|
                0 <= d < c ==> !is_stray(
                    lat.w as int,
                    lat.h as int,
                    #[trigger] chains@[d].0@,
                    chains@[d].1,
                ),
        decreases chains.len() - c,
    {
        let path = &chains[c].0;
        let closed = chains[c].1;
        if !closed && path.len() >= 2 {
            let first_ok = lat.on_border(path[0]);
            let last_ok = lat.on_border(path[path.len() - 1]);
            if !first_ok || !last_ok {
                return Some(c);
            }
        }
        c = c + 1;
    }
    None
}

/// How a boundary extraction reports its saddle cells.
pub fn chain_status(saddles: u64) -> (r: ChainStatus)
    ensures
        saddles == 0 ==> r == ChainStatus::WellFormed,
        saddles > 0 ==> r == (ChainStatus::Ambiguous { saddle_cells: saddles }),
{
    if saddles == 0 {
        ChainStatus::WellFormed
    } else {
        ChainStatus::Ambiguous { saddle_cells: saddles }
    }
}

/// The corners of an in-grid cell are in-grid pixels.
proof fn lemma_corner_indices(w: int, h: int, i: int, j: int)
    requires
        w >= 2,
        h >= 2,
        0 <= i < w - 1,
        0 <= j < h - 1,
    ensures
        0 <= j * w + i,
        (j + 1) * w + i + 1 < w * h,
        (j + 1) * w == j * w + w,
        j * w + i + 1 < w * h,
{
    assert(0 <= j * w + i) by (nonlinear_arith)
        requires
            0 <= j,
            0 <= i,
            w >= 2,
    ;
    assert((j + 1) * w + i + 1 < w * h) by (nonlinear_arith)
        requires
            0 <= i < w - 1,
            0 <= j < h - 1,
            w >= 2,
    ;
    assert((j + 1) * w == j * w + w) by (nonlinear_arith);
}

/// The edge identities of an in-grid cell fit a `usize`.
proof fn lemma_edge_ids_fit(w: int, h: int, i: int, j: int)
    requires
        w >= 2,
        h >= 2,
        0 <= i < w - 1,
        0 <= j < h - 1,
        2 * w * h <= usize::MAX,
    ensures
        0 <= spec_h_edge(w, i, j),
        spec_h_edge(w, i, j + 1) <= usize::MAX,
        spec_v_edge(w, h, i + 1, j) <= usize::MAX,
        spec_h_edge(w, i, j) <= spec_h_edge(w, i, j + 1),
        0 <= spec_v_edge(w, h, i, j) <= spec_v_edge(w, h, i + 1, j),
{
    assert(0 <= spec_h_edge(w, i, j) <= spec_h_edge(w, i, j + 1) < w * h) by (nonlinear_arith)
        requires
            0 <= i < w - 1,
            0 <= j < h - 1,
            w >= 2,
    ;
    assert(0 <= h_count(w, h) < w * h) by (nonlinear_arith)
        requires
            w >= 2,
            h >= 2,
    ;
    assert(0 <= j * w + i + 1 < w * h) by (nonlinear_arith)
        requires
            0 <= i < w - 1,
            0 <= j < h - 1,
            w >= 2,
    ;
    assert(2 * w * h == w * h + w * h) by (nonlinear_arith);
}

} // verus!
