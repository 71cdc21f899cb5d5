//! Discrete topology of a one-pixel skeleton: 8-neighbourhoods, connected
//! components, cycle anchors and node clusters.
//!
//! Pixels are row-major indices of a `width` by `height` grid. Two distinct pixels
//! are adjacent when their columns and their rows each differ by at most one.

use vstd::prelude::*;
use vstd::arithmetic::div_mod::{lemma_fundamental_div_mod, lemma_fundamental_div_mod_converse};
use vstd::set_lib::{lemma_int_range, lemma_len_subset, set_int_range};
use std::collections::VecDeque;

verus! {

broadcast use vstd::set::group_set_axioms;

/// Two distinct in-grid pixels whose columns and rows each differ by at most one.
pub open spec fn adjacent(w: int, h: int, a: int, b: int) -> bool {
    &&& 0 <= a < w * h
    &&& 0 <= b < w * h
    &&& a != b
    &&& -1 <= b % w - a % w <= 1
    &&& -1 <= b / w - a / w <= 1
}

/// The pixel at offset `o` of the 3x3 block centred on `a` (row-major from the top
/// left, `4` being `a` itself), or `-1` when it is `a` or outside the grid.
pub open spec fn offset_target(w: int, h: int, a: int, o: int) -> int {
    let nx = a % w + o % 3 - 1;
    let ny = a / w + o / 3 - 1;
    if o != 4 && 0 <= nx < w && 0 <= ny < h {
        ny * w + nx
    } else {
        -1
    }
}

/// The set pixels among the first `k` offsets of the block around `a`, in offset order.
pub open spec fn neighbor_list(p: Seq<bool>, w: int, h: int, a: int, k: int) -> Seq<int>
    decreases k,
{
    if k <= 0 {
        Seq::empty()
    } else {
        let prev = neighbor_list(p, w, h, a, k - 1);
        let t = offset_target(w, h, a, k - 1);
        if t >= 0 && p[t] {
            prev.push(t)
        } else {
            prev
        }
    }
}

/// A walk through set pixels, each step between adjacent pixels.
pub open spec fn is_walk(p: Seq<bool>, w: int, h: int, path: Seq<int>) -> bool {
    &&& path.len() >= 1
    &&& forall|k: int| 0 <= k < path.len() ==> 0 <= #[trigger] path[k] < p.len() && p[path[k]]
    &&& forall|k: int| 0 <= k < path.len() - 1 ==> #[trigger] adjacent(w, h, path[k], path[k + 1])
}

/// `b` is reached from `a` by a walk through set pixels.
pub open spec fn connected(p: Seq<bool>, w: int, h: int, a: int, b: int) -> bool {
    exists|path: Seq<int>| #[trigger] is_walk(p, w, h, path) && path[0] == a && path.last() == b
}

/// The connected component of `a`: every set pixel reached from it.
pub open spec fn component(p: Seq<bool>, w: int, h: int, a: int) -> Set<int> {
    Set::new(|b: int| connected(p, w, h, a, b))
}

/// No set pixel adjacent to a member of `s` lies outside `s`.
pub open spec fn closed(p: Seq<bool>, w: int, h: int, s: Set<int>) -> bool {
    forall|a: int, b: int|
        #![trigger s.contains(a), adjacent(w, h, a, b)]
        s.contains(a) && adjacent(w, h, a, b) && 0 <= b < p.len() && p[b] ==> s.contains(b)
}

/// The set of indices marked in a flag sequence.
pub open spec fn marked(flags: Seq<bool>) -> Set<int> {
    Set::new(|i: int| 0 <= i < flags.len() && flags[i])
}

/// A sequence of indices as a set of integers.
pub open spec fn index_set(s: Seq<usize>) -> Set<int> {
    Set::new(|i: int| exists|k: int| 0 <= k < s.len() && s[k] as int == i)
}

/// Strictly increasing.
pub open spec fn strictly_increasing(s: Seq<usize>) -> bool {
    forall|i: int, j: int| 0 <= i < j < s.len() ==> s[i] < s[j]
}

/// Adjacency is symmetric.
pub(crate) proof fn lemma_adjacent_symmetric(w: int, h: int, a: int, b: int)
    ensures
        adjacent(w, h, a, b) == adjacent(w, h, b, a),
{
}

/// The neighbour list holds exactly the set offset targets seen so far.
pub(crate) proof fn lemma_neighbor_list_contains(p: Seq<bool>, w: int, h: int, a: int, k: int, b: int)
    requires
        0 <= k <= 9,
    ensures
        neighbor_list(p, w, h, a, k).contains(b) <==> exists|o: int|
            0 <= o < k && #[trigger] offset_target(w, h, a, o) == b && b >= 0 && p[b],
    decreases k,
{
    if k > 0 {
        lemma_neighbor_list_contains(p, w, h, a, k - 1, b);
        let prev = neighbor_list(p, w, h, a, k - 1);
        let t = offset_target(w, h, a, k - 1);
        if t >= 0 && p[t] {
            assert(prev.push(t).contains(b) <==> (prev.contains(b) || b == t)) by {
                if prev.push(t).contains(b) {
                    let i = choose|i: int| 0 <= i < prev.push(t).len() && prev.push(t)[i] == b;
                    if i < prev.len() {
                        assert(prev[i] == b);
                    }
                }
                if prev.contains(b) {
                    let i = choose|i: int| 0 <= i < prev.len() && prev[i] == b;
                    assert(prev.push(t)[i] == b);
                }
                if b == t {
                    assert(prev.push(t)[prev.len() as int] == b);
                }
            }
        }
    }
}

/// Offset targets of an in-grid pixel are its adjacent pixels, and every adjacent
/// pixel is an offset target.
proof fn lemma_offsets_are_adjacency(w: int, h: int, a: int, b: int)
    requires
        w > 0,
        h > 0,
        0 <= a < w * h,
    ensures
        (exists|o: int| 0 <= o < 9 && #[trigger] offset_target(w, h, a, o) == b && b >= 0)
            <==> adjacent(w, h, a, b),
{
    let x = a % w;
    let y = a / w;
    lemma_fundamental_div_mod(a, w);
    lemma_row_in_grid(w, h, a);
    if exists|o: int| 0 <= o < 9 && #[trigger] offset_target(w, h, a, o) == b && b >= 0 {
        let o = choose|o: int| 0 <= o < 9 && #[trigger] offset_target(w, h, a, o) == b && b >= 0;
        let nx = x + o % 3 - 1;
        let ny = y + o / 3 - 1;
        lemma_grid(w, h, nx, ny);
        lemma_fundamental_div_mod_converse(b, w, ny, nx);
        if b == a {
            assert(nx == x && ny == y);
            assert(o == 4);
        }
    }
    if adjacent(w, h, a, b) {
        lemma_fundamental_div_mod(b, w);
        let dx = b % w - x;
        let dy = b / w - y;
        let o = (dy + 1) * 3 + (dx + 1);
        assert(o % 3 == dx + 1 && o / 3 == dy + 1);
        lemma_grid(w, h, b % w, b / w);
        assert(b / w * w + b % w == b) by (nonlinear_arith)
            requires
                b == w * (b / w) + b % w,
        ;
        if o == 4 {
            assert(b == a) by (nonlinear_arith)
                requires
                    b == w * (b / w) + b % w,
                    a == w * (a / w) + a % w,
                    b / w == a / w,
                    b % w == a % w,
            ;
        }
        assert(offset_target(w, h, a, o) == b);
    }
}

/// The row of an in-grid index is in the grid.
pub(crate) proof fn lemma_row_in_grid(w: int, h: int, a: int)
    requires
        w > 0,
        0 <= a < w * h,
    ensures
        0 <= a / w < h,
        0 <= a % w < w,
        a == w * (a / w) + a % w,
{
    lemma_fundamental_div_mod(a, w);
    let y = a / w;
    if y >= h {
        assert(w * y >= w * h) by (nonlinear_arith)
            requires
                y >= h,
                w > 0,
        ;
    }
    if y < 0 {
        assert(w * y <= -w) by (nonlinear_arith)
            requires
                y < 0,
                w > 0,
        ;
    }
}

/// In-grid coordinates give an in-grid index.
proof fn lemma_grid(w: int, h: int, x: int, y: int)
    requires
        0 <= x < w,
        0 <= y < h,
    ensures
        0 <= y * w + x < w * h,
        (y * w + x) / w == y,
        (y * w + x) % w == x,
{
    assert(0 <= y * w + x < w * h) by (nonlinear_arith)
        requires
            0 <= x < w,
            0 <= y < h,
    ;
    lemma_fundamental_div_mod_converse(y * w + x, w, y, x);
}

/// The neighbour list of an in-grid pixel is exactly its set adjacent pixels.
pub proof fn lemma_neighbors_are_adjacent_set_pixels(p: Seq<bool>, w: int, h: int, a: int, b: int)
    requires
        w > 0,
        h > 0,
        0 <= a < w * h,
        p.len() == w * h,
    ensures
        neighbor_list(p, w, h, a, 9).contains(b) <==> (adjacent(w, h, a, b) && p[b]),
{
    lemma_neighbor_list_contains(p, w, h, a, 9, b);
    lemma_offsets_are_adjacency(w, h, a, b);
}

/// The set pixels of the 8-neighbourhood of `index`, in row-major order of the
/// 3x3 block around it.
pub fn neighbors(index: usize, pixels: &Vec<bool>, width: usize, height: usize) -> (out: Vec<usize>)
    requires
        width > 0,
        index < width * height,
        width * height <= pixels@.len(),
    ensures
        out@.map_values(|v: usize| v as int) == neighbor_list(
            pixels@,
            width as int,
            height as int,
            index as int,
            9,
        ),
{
    let n = pixels.len();
    let x = index % width;
    let y = index / width;
    proof {
        lemma_fundamental_div_mod(index as int, width as int);
        assert(y < height) by {
            if y >= height {
                assert(width * y >= width * height) by (nonlinear_arith)
                    requires
                        y >= height,
                        width > 0,
                ;
            }
        }
    }
    let mut out: Vec<usize> = Vec::with_capacity(8);
    let mut o: usize = 0;
    while o < 9
        invariant
            o <= 9,
            x == index as int % width as int,
            y == index as int / width as int,
            x < width,
            y < height,
            n == pixels@.len(),
            width * height <= n,
            out@.map_values(|v: usize| v as int) == neighbor_list(
                pixels@,
                width as int,
                height as int,
                index as int,
                o as int,
            ),
        decreases 9 - o,
    {
        let dy = o / 3;
        let dx = o % 3;
        let x_ok = if dx == 0 {
            x >= 1
        } else if dx == 1 {
            true
        } else {
            x + 1 < width
        };
        let y_ok = if dy == 0 {
            y >= 1
        } else if dy == 1 {
            true
        } else {
            y + 1 < height
        };
        let ghost prev = out@.map_values(|v: usize| v as int);
        if o != 4 && x_ok && y_ok {
            let nx = if dx == 0 {
                x - 1
            } else if dx == 1 {
                x
            } else {
                x + 1
            };
            let ny = if dy == 0 {
                y - 1
            } else if dy == 1 {
                y
            } else {
                y + 1
            };
            proof {
                lemma_grid(width as int, height as int, nx as int, ny as int);
                assert(offset_target(width as int, height as int, index as int, o as int) == ny
                    * width + nx);
            }
            let next = ny * width + nx;
            if pixels[next] {
                out.push(next);
                assert(out@.map_values(|v: usize| v as int) =~= prev.push(next as int));
            }
        } else {
            assert(offset_target(width as int, height as int, index as int, o as int) == -1);
        }
        o = o + 1;
    }
    out
}

/// The pair with the smaller index first.
pub fn link(a: usize, b: usize) -> (r: (usize, usize))
    ensures
        r == (if a <= b { (a, b) } else { (b, a) }),
{
    if a <= b {
        (a, b)
    } else {
        (b, a)
    }
}


/// A walk to `a` extends by one step to a set pixel adjacent to `a`.
proof fn lemma_walk_extend(p: Seq<bool>, w: int, h: int, s: int, a: int, b: int)
    requires
        connected(p, w, h, s, a),
        adjacent(w, h, a, b),
        0 <= b < p.len(),
        p[b],
    ensures
        connected(p, w, h, s, b),
{
    let path = choose|path: Seq<int>| #[trigger] is_walk(p, w, h, path) && path[0] == s && path.last() == a;
    let q = path.push(b);
    assert(q[q.len() - 2] == a);
    assert(is_walk(p, w, h, q));
    assert(q[0] == s && q.last() == b);
}

/// A set pixel is connected to itself.
proof fn lemma_connected_refl(p: Seq<bool>, w: int, h: int, a: int)
    requires
        0 <= a < p.len(),
        p[a],
    ensures
        connected(p, w, h, a, a),
{
    let q = seq![a];
    assert(is_walk(p, w, h, q));
}

/// Connection is symmetric: a walk read backwards is a walk.
proof fn lemma_connected_symmetric(p: Seq<bool>, w: int, h: int, a: int, b: int)
    requires
        connected(p, w, h, a, b),
    ensures
        connected(p, w, h, b, a),
{
    let path = choose|path: Seq<int>| #[trigger] is_walk(p, w, h, path) && path[0] == a && path.last() == b;
    let r = path.reverse();
    assert forall|k: int| 0 <= k < r.len() - 1 implies #[trigger] adjacent(w, h, r[k], r[k + 1]) by {
        let m = path.len() - 2 - k;
        assert(adjacent(w, h, path[m], path[m + 1]));
        lemma_adjacent_symmetric(w, h, path[m], path[m + 1]);
    }
    assert(is_walk(p, w, h, r));
    assert(r[0] == b && r.last() == a);
}

/// A closed set that holds `a` holds every pixel connected to `a`.
proof fn lemma_closed_holds_connected(p: Seq<bool>, w: int, h: int, s: Set<int>, a: int, b: int)
    requires
        closed(p, w, h, s),
        s.contains(a),
        connected(p, w, h, a, b),
    ensures
        s.contains(b),
{
    let path = choose|path: Seq<int>| #[trigger] is_walk(p, w, h, path) && path[0] == a && path.last() == b;
    lemma_closed_prefix(p, w, h, s, path, path.len() - 1);
}

/// Every pixel of a walk that starts in a closed set lies in it.
proof fn lemma_closed_prefix(p: Seq<bool>, w: int, h: int, s: Set<int>, path: Seq<int>, k: int)
    requires
        closed(p, w, h, s),
        is_walk(p, w, h, path),
        s.contains(path[0]),
        0 <= k < path.len(),
    ensures
        s.contains(path[k]),
    decreases k,
{
    if k > 0 {
        lemma_closed_prefix(p, w, h, s, path, k - 1);
        assert(adjacent(w, h, path[k - 1], path[k - 1 + 1]));
        assert(0 <= path[k] < p.len() && p[path[k]]);
    }
}

/// The component of a pixel is closed.
proof fn lemma_component_closed(p: Seq<bool>, w: int, h: int, a: int)
    ensures
        closed(p, w, h, component(p, w, h, a)),
{
    assert forall|x: int, y: int|
        #![trigger component(p, w, h, a).contains(x), adjacent(w, h, x, y)]
        component(p, w, h, a).contains(x) && adjacent(w, h, x, y) && 0 <= y < p.len() && p[y]
            implies component(p, w, h, a).contains(y) by {
        lemma_walk_extend(p, w, h, a, x, y);
    }
}

/// Two components that share a pixel hold each other's seed.
pub(crate) proof fn lemma_components_meet(p: Seq<bool>, w: int, h: int, a: int, b: int, x: int)
    requires
        component(p, w, h, a).contains(x),
        component(p, w, h, b).contains(x),
    ensures
        component(p, w, h, a).contains(b),
{
    lemma_connected_symmetric(p, w, h, b, x);
    lemma_component_closed(p, w, h, a);
    lemma_closed_holds_connected(p, w, h, component(p, w, h, a), x, b);
}

/// A member of a component is a set pixel of the grid.
pub(crate) proof fn lemma_component_member(p: Seq<bool>, w: int, h: int, a: int, x: int)
    requires
        component(p, w, h, a).contains(x),
    ensures
        0 <= x < p.len(),
        p[x],
        0 <= a < p.len(),
        p[a],
{
    let path = choose|path: Seq<int>| #[trigger] is_walk(p, w, h, path) && path[0] == a && path.last() == x;
    assert(0 <= path[path.len() - 1] < p.len() && p[path[path.len() - 1]]);
    assert(0 <= path[0] < p.len() && p[path[0]]);
}

/// Adding one index at the end of a list adds it to the list's set.
pub(crate) proof fn lemma_index_set_push(s: Seq<usize>, x: usize)
    ensures
        index_set(s.push(x)) == index_set(s).insert(x as int),
{
    let t = s.push(x);
    assert forall|i: int| #[trigger] index_set(t).contains(i) == index_set(s).insert(x as int).contains(i) by {
        if index_set(t).contains(i) {
            let k = choose|k: int| 0 <= k < t.len() && t[k] as int == i;
            if k < s.len() {
                assert(s[k] as int == i);
            }
        }
        if index_set(s).contains(i) {
            let k = choose|k: int| 0 <= k < s.len() && s[k] as int == i;
            assert(t[k] as int == i);
        }
        if i == x as int {
            assert(t[s.len() as int] as int == i);
        }
    }
    assert(index_set(t) =~= index_set(s).insert(x as int));
}

/// A list without repetition has as many distinct indices as entries.
proof fn lemma_index_set_len(s: Seq<usize>)
    requires
        s.no_duplicates(),
    ensures
        index_set(s).finite(),
        index_set(s).len() == s.len(),
    decreases s.len(),
{
    if s.len() == 0 {
        assert(index_set(s) =~= Set::<int>::empty());
    } else {
        let r = s.drop_last();
        assert(r.no_duplicates());
        lemma_index_set_len(r);
        assert(s =~= r.push(s.last()));
        lemma_index_set_push(r, s.last());
        assert(!index_set(r).contains(s.last() as int)) by {
            if index_set(r).contains(s.last() as int) {
                let k = choose|k: int| 0 <= k < r.len() && r[k] as int == s.last() as int;
                assert(s[k] == s[s.len() - 1]);
            }
        }
    }
}

/// A list without repetition of indices below `n` has at most `n` entries.
pub(crate) proof fn lemma_no_dup_bounded(s: Seq<usize>, n: int)
    requires
        s.no_duplicates(),
        0 <= n,
        forall|k: int| 0 <= k < s.len() ==> s[k] < n,
    ensures
        s.len() <= n,
{
    lemma_index_set_len(s);
    lemma_int_range(0, n);
    assert(index_set(s).subset_of(set_int_range(0, n)));
    lemma_len_subset(index_set(s), set_int_range(0, n));
}

/// The connected component of `seed`, by breadth-first search over the set pixels
/// not yet marked in `seen`; every pixel of the component is marked.
fn bfs_component(
    pixels: &Vec<bool>,
    width: usize,
    height: usize,
    seed: usize,
    seen: &mut Vec<bool>,
) -> (comp: Vec<usize>)
    requires
        width > 0,
        pixels@.len() == width * height,
        old(seen)@.len() == pixels@.len(),
        seed < pixels@.len(),
        pixels@[seed as int],
        !old(seen)@[seed as int],
        closed(pixels@, width as int, height as int, marked(old(seen)@)),
    ensures
        final(seen)@.len() == old(seen)@.len(),
        comp@.no_duplicates(),
        comp@.len() >= 1,
        comp@[0] == seed,
        index_set(comp@) == component(pixels@, width as int, height as int, seed as int),
        marked(final(seen)@) == marked(old(seen)@).union(
            component(pixels@, width as int, height as int, seed as int),
        ),
        marked(old(seen)@).disjoint(component(pixels@, width as int, height as int, seed as int)),
{
    let ghost p = pixels@;
    let ghost w = width as int;
    let ghost h = height as int;
    let ghost old_seen = seen@;
    let n = pixels.len();
    let mut queue: VecDeque<usize> = VecDeque::new();
    queue.push_back(seed);
    seen.set(seed, true);
    let mut comp: Vec<usize> = Vec::new();
    proof {
        lemma_connected_refl(p, w, h, seed as int);
        assert(comp@ + queue@ =~= seq![seed]);
        assert forall|i: int| 0 <= i < n implies #[trigger] seen@[i] == (old_seen[i] || index_set(
            comp@ + queue@,
        ).contains(i)) by {
            if i == seed as int {
                assert((comp@ + queue@)[0] == seed);
            }
            if index_set(comp@ + queue@).contains(i) {
                let k = choose|k: int| 0 <= k < (comp@ + queue@).len() && (comp@ + queue@)[k] as int == i;
                assert(k == 0);
            }
        }
    }
    while queue.len() > 0
        invariant
            p == pixels@,
            w == width,
            h == height,
            width > 0,
            n == p.len(),
            p.len() == w * h,
            seen@.len() == n,
            old_seen.len() == n,
            closed(p, w, h, marked(old_seen)),
            (comp@ + queue@).no_duplicates(),
            (comp@ + queue@).len() >= 1,
            (comp@ + queue@)[0] == seed,
            forall|k: int|
                0 <= k < (comp@ + queue@).len() ==> #[trigger] (comp@ + queue@)[k] < n
                    && connected(p, w, h, seed as int, (comp@ + queue@)[k] as int) && !old_seen[(
                comp@ + queue@)[k] as int],
            forall|i: int|
                0 <= i < n ==> #[trigger] seen@[i] == (old_seen[i] || index_set(
                    comp@ + queue@,
                ).contains(i)),
            forall|k: int, b: int|
                0 <= k < comp@.len() && #[trigger] adjacent(w, h, comp@[k] as int, b) && p[b]
                    ==> seen@[b],
        decreases n - comp@.len(),
    {
        let ghost all = comp@ + queue@;
        proof {
            lemma_no_dup_bounded(all, n as int);
        }
        let pixel = queue.pop_front().unwrap();
        comp.push(pixel);
        assert(comp@ + queue@ =~= all);
        proof {
            assert(all[comp@.len() - 1] == pixel);
            assert(pixel < n && connected(p, w, h, seed as int, pixel as int));
            lemma_row_in_grid(w, h, pixel as int);
        }
        let nbrs = neighbors(pixel, pixels, width, height);
        let ghost nl = neighbor_list(p, w, h, pixel as int, 9);
        assert(nbrs@.len() == nl.len());
        let mut j: usize = 0;
        while j < nbrs.len()
            invariant
                p == pixels@,
                w == width,
                h == height,
                width > 0,
                n == p.len(),
                p.len() == w * h,
                seen@.len() == n,
                old_seen.len() == n,
                pixel < n,
                connected(p, w, h, seed as int, pixel as int),
                nbrs@.map_values(|v: usize| v as int) == nl,
                nl == neighbor_list(p, w, h, pixel as int, 9),
                j <= nbrs@.len(),
                comp@.len() >= 1,
                comp@[comp@.len() - 1] == pixel,
                closed(p, w, h, marked(old_seen)),
                (comp@ + queue@).no_duplicates(),
                (comp@ + queue@).len() >= 1,
                (comp@ + queue@)[0] == seed,
                forall|k: int|
                    0 <= k < (comp@ + queue@).len() ==> #[trigger] (comp@ + queue@)[k] < n
                        && connected(p, w, h, seed as int, (comp@ + queue@)[k] as int)
                        && !old_seen[(comp@ + queue@)[k] as int],
                forall|i: int|
                    0 <= i < n ==> #[trigger] seen@[i] == (old_seen[i] || index_set(
                        comp@ + queue@,
                    ).contains(i)),
                forall|k: int, b: int|
                    0 <= k < comp@.len() - 1 && #[trigger] adjacent(w, h, comp@[k] as int, b) && p[b]
                        ==> seen@[b],
                forall|jj: int| 0 <= jj < j ==> seen@[#[trigger] nbrs@[jj] as int],
            decreases nbrs@.len() - j,
        {
            let next = nbrs[j];
            proof {
                assert(nl[j as int] == next as int);
                assert(nl.contains(next as int));
                lemma_neighbors_are_adjacent_set_pixels(p, w, h, pixel as int, next as int);
                assert(next < n);
            }
            let ghost seen_before = seen@;
            if !seen[next] {
                let ghost before = comp@ + queue@;
                seen.set(next, true);
                queue.push_back(next);
                proof {
                    assert(comp@ + queue@ =~= before.push(next));
                    lemma_index_set_push(before, next);
                    lemma_walk_extend(p, w, h, seed as int, pixel as int, next as int);
                    assert(!index_set(before).contains(next as int));
                    assert((comp@ + queue@).no_duplicates()) by {
                        assert forall|a: int, b: int|
                            0 <= a < (comp@ + queue@).len() && 0 <= b < (comp@ + queue@).len() && a
                                != b implies (comp@ + queue@)[a] != (comp@ + queue@)[b] by {
                            if a == before.len() as int && b < before.len() {
                                if before[b] == next {
                                    assert(index_set(before).contains(next as int));
                                }
                            }
                            if b == before.len() as int && a < before.len() {
                                if before[a] == next {
                                    assert(index_set(before).contains(next as int));
                                }
                            }
                        }
                    }
                    assert forall|i: int| 0 <= i < n implies #[trigger] seen@[i] == (old_seen[i]
                        || index_set(comp@ + queue@).contains(i)) by {
                        if i != next as int {
                            assert(seen@[i] == (old_seen[i] || index_set(before).contains(i)));
                        }
                    }
                    assert(!old_seen[next as int]);
                    assert forall|k: int|
                        0 <= k < (comp@ + queue@).len() implies #[trigger] (comp@ + queue@)[k] < n
                            && connected(p, w, h, seed as int, (comp@ + queue@)[k] as int)
                            && !old_seen[(comp@ + queue@)[k] as int] by {
                        if k < before.len() {
                            assert((comp@ + queue@)[k] == before[k]);
                        }
                    }
                }
            }
            proof {
                assert(seen@[next as int]);
                assert(forall|i: int| 0 <= i < n && seen_before[i] ==> seen@[i]);
                assert forall|jj: int| 0 <= jj < j + 1 implies seen@[#[trigger] nbrs@[jj] as int] by {
                    if jj < j {
                        assert(nl[jj] == nbrs@[jj] as int);
                        assert(nl.contains(nbrs@[jj] as int));
                        lemma_neighbors_are_adjacent_set_pixels(p, w, h, pixel as int, nbrs@[jj] as int);
                        assert(seen_before[nbrs@[jj] as int]);
                    }
                }
            }
            j = j + 1;
        }
        proof {
            assert forall|k: int, b: int|
                0 <= k < comp@.len() && #[trigger] adjacent(w, h, comp@[k] as int, b) && p[b]
                    implies seen@[b] by {
                if k == comp@.len() - 1 {
                    lemma_neighbors_are_adjacent_set_pixels(p, w, h, pixel as int, b);
                    assert(nl.contains(b));
                    let jj = choose|jj: int| 0 <= jj < nl.len() && nl[jj] == b;
                    assert(nbrs@[jj] as int == b);
                }
            }
        }
    }
    proof {
        let comp_set = index_set(comp@);
        let cset = component(p, w, h, seed as int);
        assert(comp@ + queue@ =~= comp@);
        // Every member of the list is in the component.
        assert forall|i: int| comp_set.contains(i) implies cset.contains(i) by {
            let k = choose|k: int| 0 <= k < comp@.len() && comp@[k] as int == i;
            assert((comp@ + queue@)[k] == comp@[k]);
        }
        // The list is closed, so it holds the whole component.
        assert(closed(p, w, h, comp_set)) by {
            assert forall|a: int, b: int|
                #![trigger comp_set.contains(a), adjacent(w, h, a, b)]
                comp_set.contains(a) && adjacent(w, h, a, b) && 0 <= b < p.len() && p[b]
                    implies comp_set.contains(b) by {
                let k = choose|k: int| 0 <= k < comp@.len() && comp@[k] as int == a;
                assert(seen@[b]);
                if old_seen[b] {
                    lemma_adjacent_symmetric(w, h, a, b);
                    assert(marked(old_seen).contains(b));
                    assert(marked(old_seen).contains(a));
                    assert((comp@ + queue@)[k] == comp@[k]);
                }
            }
        }
        assert(comp_set.contains(seed as int)) by {
            assert(comp@[0] == seed);
        }
        assert forall|i: int| cset.contains(i) implies comp_set.contains(i) by {
            lemma_closed_holds_connected(p, w, h, comp_set, seed as int, i);
        }
        assert(comp_set =~= cset);
        assert forall|i: int| marked(old_seen).contains(i) implies !cset.contains(i) by {
            if cset.contains(i) {
                let k = choose|k: int| 0 <= k < comp@.len() && comp@[k] as int == i;
                assert((comp@ + queue@)[k] == comp@[k]);
            }
        }
        assert(marked(seen@) =~= marked(old_seen).union(cset)) by {
            assert forall|i: int| #[trigger] marked(seen@).contains(i) == marked(old_seen).union(cset).contains(i) by {
                if 0 <= i < n {
                    assert(seen@[i] == (old_seen[i] || comp_set.contains(i)));
                } else if cset.contains(i) {
                    let path = choose|path: Seq<int>| #[trigger] is_walk(p, w, h, path) && path[0] == seed as int && path.last() == i;
                    assert(0 <= path[path.len() - 1] < p.len());
                }
            }
        }
    }
    comp
}


/// Inserting an index anywhere in a list adds it to the list's set.
proof fn lemma_index_set_insert(s: Seq<usize>, pos: int, x: usize)
    requires
        0 <= pos <= s.len(),
    ensures
        index_set(s.insert(pos, x)) == index_set(s).insert(x as int),
{
    let t = s.insert(pos, x);
    assert forall|i: int| #[trigger] index_set(t).contains(i) == index_set(s).insert(x as int).contains(i) by {
        if index_set(t).contains(i) {
            let k = choose|k: int| 0 <= k < t.len() && t[k] as int == i;
            if k < pos {
                assert(s[k] as int == i);
            } else if k > pos {
                assert(s[k - 1] as int == i);
            }
        }
        if index_set(s).contains(i) {
            let k = choose|k: int| 0 <= k < s.len() && s[k] as int == i;
            if k < pos {
                assert(t[k] as int == i);
            } else {
                assert(t[k + 1] as int == i);
            }
        }
        if i == x as int {
            assert(t[pos] as int == i);
        }
    }
    assert(index_set(t) =~= index_set(s).insert(x as int));
}

/// The same indices in ascending order.
fn sort_distinct(v: &Vec<usize>) -> (r: Vec<usize>)
    requires
        v@.no_duplicates(),
    ensures
        strictly_increasing(r@),
        index_set(r@) == index_set(v@),
        r@.len() == v@.len(),
{
    let mut r: Vec<usize> = Vec::new();
    let mut t: usize = 0;
    while t < v.len()
        invariant
            t <= v@.len(),
            v@.no_duplicates(),
            strictly_increasing(r@),
            index_set(r@) == index_set(v@.take(t as int)),
            r@.len() == t,
        decreases v@.len() - t,
    {
        let x = v[t];
        proof {
            assert(!index_set(r@).contains(x as int)) by {
                if index_set(v@.take(t as int)).contains(x as int) {
                    let k = choose|k: int| 0 <= k < t && v@.take(t as int)[k] as int == x as int;
                    assert(v@[k] == v@[t as int]);
                }
            }
        }
        let mut pos: usize = 0;
        while pos < r.len() && r[pos] < x
            invariant
                pos <= r@.len(),
                forall|k: int| 0 <= k < pos ==> r@[k] < x,
            decreases r@.len() - pos,
        {
            pos = pos + 1;
        }
        let ghost before = r@;
        r.insert(pos, x);
        proof {
            assert forall|k: int| pos <= k < before.len() implies before[k] > x by {
                if before[k] == x {
                    assert(index_set(before).contains(x as int));
                }
                assert(before[pos as int] >= x);
                if k > pos {
                    assert(before[pos as int] < before[k]);
                }
                if k == pos && before[k] == x {
                    assert(index_set(before).contains(x as int));
                }
            }
            assert(strictly_increasing(r@)) by {
                assert forall|i: int, j: int| 0 <= i < j < r@.len() implies r@[i] < r@[j] by {
                    if i < pos && j < pos {
                        assert(r@[i] == before[i] && r@[j] == before[j]);
                    } else if i < pos && j == pos {
                    } else if i < pos {
                        assert(r@[j] == before[j - 1]);
                    } else if i == pos {
                        assert(r@[j] == before[j - 1]);
                    } else {
                        assert(r@[i] == before[i - 1] && r@[j] == before[j - 1]);
                    }
                }
            }
            lemma_index_set_insert(before, pos as int, x);
            assert(v@.take(t + 1) =~= v@.take(t as int).push(x));
            lemma_index_set_push(v@.take(t as int), x);
        }
        t = t + 1;
    }
    assert(v@.take(t as int) =~= v@);
    r
}

/// The pixel of a component that a cycle without any node pixel is anchored at:
/// its smallest index, when the component has more than one pixel.
pub open spec fn cycle_anchor(s: Seq<bool>, nodes: Seq<bool>, w: int, h: int, i: int) -> bool {
    let c = component(s, w, h, i);
    &&& 0 <= i < s.len()
    &&& s[i]
    &&& forall|j: int| #[trigger] c.contains(j) ==> !nodes[j] && i <= j
    &&& exists|j: int| #[trigger] c.contains(j) && j != i
}

/// Every member of a component whose smallest member is `m` lies at or after `m`.
proof fn lemma_component_members_after(
    s: Seq<bool>,
    w: int,
    h: int,
    seen: Seq<bool>,
    seed: int,
)
    requires
        closed(s, w, h, marked(seen)),
        seen.len() == s.len(),
        0 <= seed < s.len(),
        s[seed],
        !seen[seed],
        forall|i: int| 0 <= i < seed && s[i] ==> seen[i],
    ensures
        forall|j: int| #[trigger] component(s, w, h, seed).contains(j) ==> seed <= j && !seen[j],
        component(s, w, h, seed).contains(seed),
{
    lemma_connected_refl(s, w, h, seed);
    assert forall|j: int| #[trigger] component(s, w, h, seed).contains(j) implies seed <= j && !seen[j] by {
        let path = choose|path: Seq<int>| #[trigger] is_walk(s, w, h, path) && path[0] == seed && path.last() == j;
        assert(0 <= path[path.len() - 1] < s.len() && s[path[path.len() - 1]]);
        if seen[j] {
            lemma_connected_symmetric(s, w, h, seed, j);
            assert(marked(seen).contains(j));
            lemma_closed_holds_connected(s, w, h, marked(seen), j, seed);
        }
    }
}

/// Marks, for every connected component of the skeleton that has more than one
/// pixel and holds no node pixel (a closed loop), its smallest pixel as a node.
pub fn add_cycle_anchors(
    skeleton: &Vec<bool>,
    width: usize,
    height: usize,
    node_pixels: &mut Vec<bool>,
)
    requires
        skeleton@.len() == width * height,
        old(node_pixels)@.len() == skeleton@.len(),
    ensures
        final(node_pixels)@.len() == old(node_pixels)@.len(),
        forall|i: int|
            0 <= i < skeleton@.len() ==> #[trigger] final(node_pixels)@[i] == (old(node_pixels)@[i]
                || cycle_anchor(skeleton@, old(node_pixels)@, width as int, height as int, i)),
{
    if width == 0 {
        return;
    }
    let ghost s = skeleton@;
    let ghost nodes0 = node_pixels@;
    let ghost w = width as int;
    let ghost h = height as int;
    let n = skeleton.len();
    let mut seen: Vec<bool> = vec![false; n];
    proof {
        assert(marked(seen@) =~= Set::<int>::empty());
    }
    let mut seed: usize = 0;
    while seed < n
        invariant
            s == skeleton@,
            w == width,
            h == height,
            width > 0,
            n == s.len(),
            s.len() == w * h,
            nodes0.len() == n,
            nodes0 == old(node_pixels)@,
            node_pixels@.len() == n,
            seen@.len() == n,
            seed <= n,
            closed(s, w, h, marked(seen@)),
            forall|i: int| 0 <= i < seed && s[i] ==> seen@[i],
            forall|i: int| 0 <= i < n && seen@[i] ==> s[i] && component(s, w, h, i).contains(i),
            forall|i: int|
                0 <= i < n && seen@[i] && i >= seed ==> exists|m: int|
                    0 <= m < seed && #[trigger] component(s, w, h, m).contains(i),
            forall|i: int|
                0 <= i < n ==> #[trigger] node_pixels@[i] == (nodes0[i] || (i < seed
                    && cycle_anchor(s, nodes0, w, h, i))),
        decreases n - seed,
    {
        if !skeleton[seed] || seen[seed] {
            proof {
                assert(!cycle_anchor(s, nodes0, w, h, seed as int)) by {
                    if cycle_anchor(s, nodes0, w, h, seed as int) {
                        let m = choose|m: int| 0 <= m < seed && #[trigger] component(s, w, h, m).contains(seed as int);
                        lemma_connected_symmetric(s, w, h, m, seed as int);
                        assert(component(s, w, h, seed as int).contains(m));
                    }
                }
            }
            seed = seed + 1;
            continue;
        }
        let ghost seen_before = seen@;
        proof {
            lemma_component_members_after(s, w, h, seen_before, seed as int);
        }
        let component_list = bfs_component(skeleton, width, height, seed, &mut seen);
        let ghost cset = component(s, w, h, seed as int);
        proof {
            assert forall|q: int| 0 <= q < component_list@.len() implies #[trigger] component_list@[q] < n by {
                assert(index_set(component_list@).contains(component_list@[q] as int));
                assert(cset.contains(component_list@[q] as int));
                let j = component_list@[q] as int;
                let path = choose|path: Seq<int>| #[trigger] is_walk(s, w, h, path) && path[0] == seed && path.last() == j;
                assert(0 <= path[path.len() - 1] < s.len());
            }
        }
        let mut has_node = false;
        let mut k: usize = 0;
        while k < component_list.len()
            invariant
                k <= component_list@.len(),
                index_set(component_list@) == cset,
                node_pixels@.len() == n,
                forall|q: int| 0 <= q < component_list@.len() ==> #[trigger] component_list@[q] < n,
                has_node == exists|q: int| 0 <= q < k && #[trigger] node_pixels@[component_list@[q] as int],
            decreases component_list@.len() - k,
        {
            proof {
                assert(index_set(component_list@).contains(component_list@[k as int] as int));
            }
            if node_pixels[component_list[k]] {
                has_node = true;
            }
            k = k + 1;
        }
        let ghost anchor = cycle_anchor(s, nodes0, w, h, seed as int);
        proof {
            assert forall|j: int| #[trigger] cset.contains(j) implies node_pixels@[j] == nodes0[j] by {
                assert(seed <= j);
                let path = choose|path: Seq<int>| #[trigger] is_walk(s, w, h, path) && path[0] == seed && path.last() == j;
                assert(0 <= path[path.len() - 1] < s.len());
            }
            assert(has_node == exists|j: int| #[trigger] cset.contains(j) && nodes0[j]) by {
                if has_node {
                    let q = choose|q: int| 0 <= q < k && #[trigger] node_pixels@[component_list@[q] as int];
                    assert(index_set(component_list@).contains(component_list@[q] as int));
                }
                if exists|j: int| #[trigger] cset.contains(j) && nodes0[j] {
                    let j = choose|j: int| #[trigger] cset.contains(j) && nodes0[j];
                    let q = choose|q: int| 0 <= q < component_list@.len() && component_list@[q] as int == j;
                    assert(node_pixels@[component_list@[q] as int]);
                }
            }
            assert((component_list@.len() != 1) == exists|j: int| #[trigger] cset.contains(j) && j != seed) by {
                lemma_index_set_len(component_list@);
                if component_list@.len() != 1 {
                    assert(component_list@[1] != component_list@[0]);
                    assert(index_set(component_list@).contains(component_list@[1] as int));
                }
                if exists|j: int| #[trigger] cset.contains(j) && j != seed {
                    let j = choose|j: int| #[trigger] cset.contains(j) && j != seed;
                    let q = choose|q: int| 0 <= q < component_list@.len() && component_list@[q] as int == j;
                    assert(q != 0);
                }
            }
            assert(anchor == (!has_node && component_list@.len() != 1));
        }
        if !has_node && component_list.len() != 1 {
            let mut min = component_list[0];
            let mut q: usize = 1;
            while q < component_list.len()
                invariant
                    1 <= q <= component_list@.len(),
                    index_set(component_list@) == cset,
                    min == seed,
                    component_list@[0] == seed,
                    forall|j: int| #[trigger] cset.contains(j) ==> seed <= j,
                decreases component_list@.len() - q,
            {
                proof {
                    assert(index_set(component_list@).contains(component_list@[q as int] as int));
                }
                if component_list[q] < min {
                    min = component_list[q];
                }
                q = q + 1;
            }
            node_pixels.set(min, true);
        }
        proof {
            assert forall|i: int|
                0 <= i < n && seen@[i] && i >= seed + 1 implies exists|m: int|
                    0 <= m < seed + 1 && #[trigger] component(s, w, h, m).contains(i) by {
                if !seen_before[i] {
                    assert(marked(seen@).contains(i));
                    assert(cset.contains(i));
                    assert(component(s, w, h, seed as int).contains(i));
                }
            }
            assert forall|i: int| 0 <= i < n && seen@[i] implies s[i] && component(s, w, h, i).contains(i) by {
                if !seen_before[i] {
                    assert(marked(seen@).contains(i));
                    assert(cset.contains(i));
                    let path = choose|path: Seq<int>| #[trigger] is_walk(s, w, h, path) && path[0] == seed && path.last() == i;
                    assert(0 <= path[path.len() - 1] < s.len() && s[path[path.len() - 1]]);
                    lemma_connected_refl(s, w, h, i);
                }
            }
            lemma_component_closed(s, w, h, seed as int);
            assert forall|i: int| 0 <= i < seed + 1 && s[i] implies seen@[i] by {
                if i == seed {
                    assert(cset.contains(seed as int));
                    assert(marked(seen@).contains(i));
                } else {
                    assert(marked(seen_before).contains(i));
                    assert(marked(seen@).contains(i));
                }
            }
            assert(closed(s, w, h, marked(seen@))) by {
                assert forall|a: int, b: int|
                    #![trigger marked(seen@).contains(a), adjacent(w, h, a, b)]
                    marked(seen@).contains(a) && adjacent(w, h, a, b) && 0 <= b < s.len() && s[b]
                        implies marked(seen@).contains(b) by {
                    if marked(seen_before).contains(a) {
                        assert(marked(seen_before).contains(b));
                    } else {
                        assert(cset.contains(a));
                        assert(cset.contains(b));
                    }
                }
            }
        }
        seed = seed + 1;
    }
}

/// The connected components of the marked node pixels: each sorted ascending, in
/// ascending order of their smallest pixel, covering every marked pixel.
pub fn node_clusters(node_pixels: &Vec<bool>, width: usize, height: usize) -> (out: Vec<Vec<usize>>)
    requires
        node_pixels@.len() == width * height,
    ensures
        forall|c: int|
            0 <= c < out@.len() ==> {
                &&& (#[trigger] out@[c])@.len() >= 1
                &&& strictly_increasing(out@[c]@)
                &&& index_set(out@[c]@) == component(
                    node_pixels@,
                    width as int,
                    height as int,
                    out@[c]@[0] as int,
                )
            },
        forall|c: int, d: int| 0 <= c < d < out@.len() ==> out@[c]@[0] < out@[d]@[0],
        forall|i: int|
            0 <= i < node_pixels@.len() && node_pixels@[i] ==> exists|c: int|
                0 <= c < out@.len() && index_set(#[trigger] out@[c]@).contains(i),
{
    if width == 0 {
        return Vec::new();
    }
    let ghost s = node_pixels@;
    let ghost w = width as int;
    let ghost h = height as int;
    let n = node_pixels.len();
    let mut seen: Vec<bool> = vec![false; n];
    proof {
        assert(marked(seen@) =~= Set::<int>::empty());
    }
    let mut output: Vec<Vec<usize>> = Vec::new();
    let mut seed: usize = 0;
    while seed < n
        invariant
            s == node_pixels@,
            w == width,
            h == height,
            width > 0,
            n == s.len(),
            s.len() == w * h,
            seen@.len() == n,
            seed <= n,
            closed(s, w, h, marked(seen@)),
            forall|i: int| 0 <= i < seed && s[i] ==> seen@[i],
            forall|i: int|
                0 <= i < n && seen@[i] ==> exists|c: int|
                    0 <= c < output@.len() && index_set(#[trigger] output@[c]@).contains(i),
            forall|c: int|
                0 <= c < output@.len() ==> {
                    &&& (#[trigger] output@[c])@.len() >= 1
                    &&& strictly_increasing(output@[c]@)
                    &&& index_set(output@[c]@) == component(s, w, h, output@[c]@[0] as int)
                    &&& output@[c]@[0] < seed
                    &&& forall|i: int| #[trigger] index_set(output@[c]@).contains(i) ==> 0 <= i < n && seen@[i]
                },
            forall|c: int, d: int| 0 <= c < d < output@.len() ==> output@[c]@[0] < output@[d]@[0],
        decreases n - seed,
    {
        if !node_pixels[seed] || seen[seed] {
            seed = seed + 1;
            continue;
        }
        let ghost seen_before = seen@;
        proof {
            lemma_component_members_after(s, w, h, seen_before, seed as int);
        }
        let cluster = bfs_component(node_pixels, width, height, seed, &mut seen);
        let ghost cset = component(s, w, h, seed as int);
        let sorted = sort_distinct(&cluster);
        proof {
            assert(index_set(sorted@).contains(seed as int));
            let k = choose|k: int| 0 <= k < sorted@.len() && sorted@[k] as int == seed as int;
            assert(index_set(sorted@).contains(sorted@[0] as int));
            assert(seed <= sorted@[0]);
            if k > 0 {
                assert(sorted@[0] < sorted@[k]);
            }
            assert(sorted@[0] == seed);
        }
        let ghost out_before = output@;
        output.push(sorted);
        proof {
            lemma_component_closed(s, w, h, seed as int);
            assert forall|i: int| 0 <= i < seed + 1 && s[i] implies seen@[i] by {
                if i == seed {
                    assert(cset.contains(seed as int));
                    assert(marked(seen@).contains(i));
                } else {
                    assert(marked(seen_before).contains(i));
                    assert(marked(seen@).contains(i));
                }
            }
            assert(output@[output@.len() - 1]@ == sorted@);
            assert forall|c: int|
                0 <= c < output@.len() implies {
                    &&& (#[trigger] output@[c])@.len() >= 1
                    &&& strictly_increasing(output@[c]@)
                    &&& index_set(output@[c]@) == component(s, w, h, output@[c]@[0] as int)
                    &&& output@[c]@[0] < seed + 1
                    &&& forall|i: int| #[trigger] index_set(output@[c]@).contains(i) ==> 0 <= i < n && seen@[i]
                } by {
                if c < out_before.len() {
                    assert(output@[c] == out_before[c]);
                    assert forall|i: int| #[trigger] index_set(output@[c]@).contains(i) implies 0 <= i < n && seen@[i] by {
                        assert(index_set(out_before[c]@).contains(i));
                        assert(seen_before[i]);
                        assert(marked(seen_before).contains(i));
                        assert(marked(seen@).contains(i));
                    }
                } else {
                    assert forall|i: int| #[trigger] index_set(output@[c]@).contains(i) implies 0 <= i < n && seen@[i] by {
                        assert(cset.contains(i));
                        let path = choose|path: Seq<int>| #[trigger] is_walk(s, w, h, path) && path[0] == seed && path.last() == i;
                        assert(0 <= path[path.len() - 1] < s.len());
                        assert(marked(seen@).contains(i));
                    }
                }
            }
            assert forall|i: int|
                0 <= i < n && seen@[i] implies exists|c: int|
                    0 <= c < output@.len() && index_set(#[trigger] output@[c]@).contains(i) by {
                if seen_before[i] {
                    let c = choose|c: int| 0 <= c < out_before.len() && index_set(#[trigger] out_before[c]@).contains(i);
                    assert(output@[c] == out_before[c]);
                } else {
                    assert(marked(seen@).contains(i));
                    assert(cset.contains(i));
                    assert(index_set(output@[out_before.len() as int]@).contains(i));
                }
            }
            assert(closed(s, w, h, marked(seen@))) by {
                assert forall|a: int, b: int|
                    #![trigger marked(seen@).contains(a), adjacent(w, h, a, b)]
                    marked(seen@).contains(a) && adjacent(w, h, a, b) && 0 <= b < s.len() && s[b]
                        implies marked(seen@).contains(b) by {
                    if marked(seen_before).contains(a) {
                        assert(marked(seen_before).contains(b));
                    } else {
                        assert(cset.contains(a));
                        assert(cset.contains(b));
                    }
                }
            }
        }
        seed = seed + 1;
    }
    output
}

} // verus!
