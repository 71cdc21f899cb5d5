//! Zhang–Suen thinning of a foreground mask to a one-pixel centerline.
//!
//! Each pass runs two sub-iterations. A sub-iteration computes, on the mask as
//! it stands, every interior foreground pixel that may be peeled, and only then
//! clears them all. Pixels on the outer ring of the grid are never examined.

use vstd::prelude::*;
use vstd::arithmetic::div_mod::{lemma_fundamental_div_mod, lemma_fundamental_div_mod_converse};

verus! {

/// Column offset of the `k`-th neighbour, clockwise from north.
pub open spec fn ring_dx(k: int) -> int {
    if k == 1 || k == 2 || k == 3 {
        1
    } else if k == 5 || k == 6 || k == 7 {
        -1
    } else {
        0
    }
}

/// Row offset of the `k`-th neighbour, clockwise from north.
pub open spec fn ring_dy(k: int) -> int {
    if k == 7 || k == 0 || k == 1 {
        -1
    } else if k == 3 || k == 4 || k == 5 {
        1
    } else {
        0
    }
}

/// The eight neighbours of `(x, y)`, clockwise from north.
pub open spec fn ring(p: Seq<bool>, w: int, x: int, y: int) -> Seq<bool> {
    Seq::new(8, |k: int| p[(y + ring_dy(k)) * w + (x + ring_dx(k))])
}

/// How many of the first `k` entries of a ring are set.
pub open spec fn ring_count(r: Seq<bool>, k: int) -> int
    decreases k,
{
    if k <= 0 {
        0
    } else {
        ring_count(r, k - 1) + if r[k - 1] {
            1int
        } else {
            0int
        }
    }
}

/// How many of the first `k` positions of a ring step from unset to set, cyclically.
pub open spec fn ring_transitions(r: Seq<bool>, k: int) -> int
    decreases k,
{
    if k <= 0 {
        0
    } else {
        ring_transitions(r, k - 1) + if !r[k - 1] && r[k % 8] {
            1int
        } else {
            0int
        }
    }
}

/// The ring turned by one place: position `k` takes the entry at `k + 1`.
pub open spec fn rotate_ring(r: Seq<bool>) -> Seq<bool> {
    Seq::new(8, |k: int| r[(k + 1) % 8])
}

/// Where a ring starts does not matter to the peeling test: the number of set
/// neighbours and the number of unset-to-set steps around the ring are the same
/// for the ring turned by one place, hence turned by any number of places.
pub proof fn lemma_ring_tests_turn_with_the_ring(r: Seq<bool>)
    requires
        r.len() == 8,
    ensures
        ring_count(rotate_ring(r), 8) == ring_count(r, 8),
        ring_transitions(rotate_ring(r), 8) == ring_transitions(r, 8),
{
    let q = rotate_ring(r);
    assert(q[0] == r[1] && q[1] == r[2] && q[2] == r[3] && q[3] == r[4]);
    assert(q[4] == r[5] && q[5] == r[6] && q[6] == r[7] && q[7] == r[0]);
    reveal_with_fuel(ring_count, 9);
    reveal_with_fuel(ring_transitions, 9);
}

/// A ring whose set neighbours form one run, neither empty nor the whole ring,
/// steps from unset to set exactly once; a ring all unset or all set never does.
pub proof fn lemma_one_run_one_step(len: int)
    requires
        0 <= len <= 8,
    ensures
        ring_transitions(Seq::new(8, |k: int| k < len), 8) == (if 1 <= len <= 7 {
            1int
        } else {
            0int
        }),
{
    reveal_with_fuel(ring_transitions, 9);
    let r = Seq::new(8, |k: int| k < len);
    assert(r[0] == (0 < len) && r[1] == (1 < len) && r[2] == (2 < len) && r[3] == (3 < len));
    assert(r[4] == (4 < len) && r[5] == (5 < len) && r[6] == (6 < len) && r[7] == (7 < len));
}

/// The directional condition of a sub-iteration.
pub open spec fn triples_clear(r: Seq<bool>, first: bool) -> bool {
    if first {
        !r[2] || !r[4] || (!r[0] && !r[6])
    } else {
        !r[0] || !r[6] || (!r[2] && !r[4])
    }
}

/// Whether `(x, y)` lies strictly inside the grid.
pub open spec fn interior(w: int, h: int, x: int, y: int) -> bool {
    1 <= x < w - 1 && 1 <= y < h - 1
}

/// The Zhang–Suen rule at `(x, y)`: an interior foreground pixel with two to six
/// foreground neighbours, exactly one unset-to-set step around its ring, and the
/// directional condition of this sub-iteration.
pub open spec fn removable_at(p: Seq<bool>, w: int, h: int, x: int, y: int, first: bool) -> bool {
    let r = ring(p, w, x, y);
    &&& interior(w, h, x, y)
    &&& p[y * w + x]
    &&& 2 <= ring_count(r, 8) <= 6
    &&& ring_transitions(r, 8) == 1
    &&& triples_clear(r, first)
}

/// The rule at a row-major index.
pub open spec fn removable_index(p: Seq<bool>, w: int, h: int, i: int, first: bool) -> bool {
    removable_at(p, w, h, i % w, i / w, first)
}

/// One sub-iteration: every pixel the rule admits on `p` is cleared.
pub open spec fn zs_step(p: Seq<bool>, w: int, h: int, first: bool) -> Seq<bool> {
    Seq::new(p.len(), |i: int| p[i] && !removable_index(p, w, h, i, first))
}

/// One pass: the first sub-iteration, then the second on its result.
pub open spec fn zs_pass(p: Seq<bool>, w: int, h: int) -> Seq<bool> {
    zs_step(zs_step(p, w, h, true), w, h, false)
}

/// `n` passes.
pub open spec fn zs_iterate(p: Seq<bool>, w: int, h: int, n: nat) -> Seq<bool>
    decreases n,
{
    if n == 0 {
        p
    } else {
        zs_pass(zs_iterate(p, w, h, (n - 1) as nat), w, h)
    }
}

/// The pass budget: the pixel count (saturating), and at least one.
pub open spec fn pass_limit(w: int, h: int) -> nat {
    let prod = w * h;
    let sat = if prod > usize::MAX { usize::MAX as int } else { prod };
    if sat < 1 {
        1
    } else {
        sat as nat
    }
}

/// The thinned mask: unchanged when the grid is narrower than three pixels either
/// way, otherwise the result of the pass budget's worth of passes (passes after a
/// pass that removes nothing change nothing).
pub open spec fn zs_thin(p: Seq<bool>, w: int, h: int) -> Seq<bool> {
    if w < 3 || h < 3 {
        p
    } else {
        zs_iterate(p, w, h, pass_limit(w, h))
    }
}

/// Grid coordinates map into the grid's index range.
proof fn lemma_grid_index(w: int, h: int, x: int, y: int)
    requires
        0 <= x < w,
        0 <= y < h,
    ensures
        0 <= y * w + x < w * h,
        (y * w + x) / w == y,
        (y * w + x) % w == x,
{
    assert(0 <= y * w + x < w * h) by (nonlinear_arith)
        requires
            0 <= x < w,
            0 <= y < h,
    ;
    lemma_fundamental_div_mod_converse(y * w + x, w, y, x);
}

/// A row-major index is its row times the width plus its column.
proof fn lemma_index_of(i: int, w: int, x: int, y: int)
    requires
        w > 0,
        i >= 0,
        i / w == y,
        i % w == x,
    ensures
        i == y * w + x,
{
    lemma_fundamental_div_mod(i, w);
    assert(w * (i / w) == (i / w) * w) by (nonlinear_arith);
}

/// A sub-iteration only clears pixels, and only interior ones.
proof fn lemma_step_only_clears(p: Seq<bool>, w: int, h: int, first: bool)
    ensures
        zs_step(p, w, h, first).len() == p.len(),
        forall|i: int|
            0 <= i < p.len() ==> (#[trigger] zs_step(p, w, h, first)[i] ==> p[i]),
        forall|i: int|
            0 <= i < p.len() && !interior(w, h, i % w, i / w) ==> #[trigger] zs_step(
                p,
                w,
                h,
                first,
            )[i] == p[i],
{
}

/// Passes only clear interior pixels.
proof fn lemma_iterate_only_clears(p: Seq<bool>, w: int, h: int, n: nat)
    ensures
        zs_iterate(p, w, h, n).len() == p.len(),
        forall|i: int| 0 <= i < p.len() ==> (#[trigger] zs_iterate(p, w, h, n)[i] ==> p[i]),
        forall|i: int|
            0 <= i < p.len() && !interior(w, h, i % w, i / w) ==> #[trigger] zs_iterate(
                p,
                w,
                h,
                n,
            )[i] == p[i],
    decreases n,
{
    if n > 0 {
        let q = zs_iterate(p, w, h, (n - 1) as nat);
        lemma_iterate_only_clears(p, w, h, (n - 1) as nat);
        lemma_step_only_clears(q, w, h, true);
        lemma_step_only_clears(zs_step(q, w, h, true), w, h, false);
    }
}

/// Thinning never adds a pixel, never touches the outer ring of the grid, and keeps
/// the mask's length.
pub proof fn lemma_thin_only_clears_interior(p: Seq<bool>, w: int, h: int)
    ensures
        zs_thin(p, w, h).len() == p.len(),
        forall|i: int| 0 <= i < p.len() ==> (#[trigger] zs_thin(p, w, h)[i] ==> p[i]),
        forall|i: int|
            0 <= i < p.len() && !interior(w, h, i % w, i / w) ==> #[trigger] zs_thin(p, w, h)[i]
                == p[i],
{
    if !(w < 3 || h < 3) {
        lemma_iterate_only_clears(p, w, h, pass_limit(w, h));
    }
}

/// Once a pass changes nothing, no further pass changes anything.
proof fn lemma_fixpoint_stays(p: Seq<bool>, w: int, h: int, a: nat, b: nat)
    requires
        a <= b,
        zs_pass(zs_iterate(p, w, h, a), w, h) == zs_iterate(p, w, h, a),
    ensures
        zs_iterate(p, w, h, b) == zs_iterate(p, w, h, a),
    decreases b - a,
{
    if a < b {
        lemma_fixpoint_stays(p, w, h, a, (b - 1) as nat);
    }
}

/// The eight neighbours of an interior pixel, clockwise from north.
fn neighbors(pixels: &Vec<bool>, width: usize, height: usize, x: usize, y: usize) -> (r: [bool; 8])
    requires
        1 <= x < width - 1,
        1 <= y < height - 1,
        width * height <= pixels@.len(),
    ensures
        r@ == ring(pixels@, width as int, x as int, y as int),
{
    let n = pixels.len();
    let ym = y - 1;
    let yp = y + 1;
    let xm = x - 1;
    let xp = x + 1;
    proof {
        lemma_grid_index(width as int, height as int, x as int, ym as int);
        lemma_grid_index(width as int, height as int, xp as int, ym as int);
        lemma_grid_index(width as int, height as int, xp as int, y as int);
        lemma_grid_index(width as int, height as int, xp as int, yp as int);
        lemma_grid_index(width as int, height as int, x as int, yp as int);
        lemma_grid_index(width as int, height as int, xm as int, yp as int);
        lemma_grid_index(width as int, height as int, xm as int, y as int);
        lemma_grid_index(width as int, height as int, xm as int, ym as int);
    }
    let r = [
        pixels[ym * width + x],
        pixels[ym * width + xp],
        pixels[y * width + xp],
        pixels[yp * width + xp],
        pixels[yp * width + x],
        pixels[yp * width + xm],
        pixels[y * width + xm],
        pixels[ym * width + xm],
    ];
    assert(r@ =~= ring(pixels@, width as int, x as int, y as int));
    r
}

/// Every pixel the rule of this sub-iteration admits, and nothing else.
fn removable(pixels: &Vec<bool>, width: usize, height: usize, first: bool) -> (remove: Vec<usize>)
    requires
        width >= 3,
        height >= 3,
        width * height <= pixels@.len(),
    ensures
        forall|j: int| 0 <= j < remove@.len() ==> #[trigger] remove@[j] < pixels@.len(),
        forall|j: int|
            0 <= j < remove@.len() ==> #[trigger] removable_index(
                pixels@,
                width as int,
                height as int,
                remove@[j] as int,
                first,
            ),
        forall|i: int|
            0 <= i < pixels@.len() && removable_index(pixels@, width as int, height as int, i, first)
                ==> #[trigger] remove@.contains(i as usize),
{
    let n = pixels.len();
    let ghost p = pixels@;
    let ghost w = width as int;
    let ghost h = height as int;
    let mut remove: Vec<usize> = Vec::new();
    let mut y: usize = 1;
    while y < height - 1
        invariant
            p == pixels@,
            p.len() == n,
            w == width,
            h == height,
            width >= 3,
            height >= 3,
            width * height <= p.len(),
            1 <= y <= height - 1,
            forall|j: int| 0 <= j < remove@.len() ==> #[trigger] remove@[j] < p.len(),
            forall|j: int|
                0 <= j < remove@.len() ==> #[trigger] removable_index(p, w, h, remove@[j] as int, first),
            forall|i: int|
                0 <= i < p.len() && removable_index(p, w, h, i, first) && i / w < y
                    ==> #[trigger] remove@.contains(i as usize),
        decreases height - 1 - y,
    {
        let mut x: usize = 1;
        while x < width - 1
            invariant
                p == pixels@,
                p.len() == n,
                w == width,
                h == height,
                width >= 3,
                height >= 3,
                width * height <= p.len(),
                1 <= y < height - 1,
                1 <= x <= width - 1,
                forall|j: int| 0 <= j < remove@.len() ==> #[trigger] remove@[j] < p.len(),
                forall|j: int|
                    0 <= j < remove@.len() ==> #[trigger] removable_index(p, w, h, remove@[j] as int, first),
                forall|i: int|
                    0 <= i < p.len() && removable_index(p, w, h, i, first) && (i / w < y || (i / w
                        == y && i % w < x)) ==> #[trigger] remove@.contains(i as usize),
            decreases width - 1 - x,
        {
            proof {
                lemma_grid_index(w, h, x as int, y as int);
            }
            let index = y * width + x;
            if pixels[index] {
                let r = neighbors(pixels, width, height, x, y);
                let mut count: usize = 0;
                let mut transitions: usize = 0;
                let mut k: usize = 0;
                while k < 8
                    invariant
                        k <= 8,
                        r@.len() == 8,
                        count as int == ring_count(r@, k as int),
                        transitions as int == ring_transitions(r@, k as int),
                        count <= k,
                        transitions <= k,
                    decreases 8 - k,
                {
                    if r[k] {
                        count = count + 1;
                    }
                    if !r[k] && r[(k + 1) % 8] {
                        transitions = transitions + 1;
                    }
                    k = k + 1;
                }
                let triples = if first {
                    !r[2] || !r[4] || (!r[0] && !r[6])
                } else {
                    !r[0] || !r[6] || (!r[2] && !r[4])
                };
                if 2 <= count && count <= 6 && transitions == 1 && triples {
                    let ghost before = remove@;
                    remove.push(index);
                    proof {
                        assert(remove@[before.len() as int] == index);
                        assert forall|i: int|
                            0 <= i < p.len() && removable_index(p, w, h, i, first) && (i / w < y
                                || (i / w == y && i % w < x + 1)) implies #[trigger] remove@.contains(
                            i as usize,
                        ) by {
                            if i / w == y && i % w == x {
                                lemma_index_of(i, w, x as int, y as int);
                                assert(i == index);
                            } else {
                                assert(before.contains(i as usize));
                                let j = choose|j: int| 0 <= j < before.len() && before[j] == i as usize;
                                assert(remove@[j] == i as usize);
                            }
                        }
                    }
                } else {
                    proof {
                        assert forall|i: int|
                            0 <= i < p.len() && removable_index(p, w, h, i, first) && (i / w < y
                                || (i / w == y && i % w < x + 1)) implies #[trigger] remove@.contains(
                            i as usize,
                        ) by {
                            if i / w == y && i % w == x {
                                lemma_index_of(i, w, x as int, y as int);
                                assert(i == index);
                                assert(removable_at(p, w, h, x as int, y as int, first));
                                assert(false);
                            }
                        }
                    }
                }
            } else {
                proof {
                    assert forall|i: int|
                        0 <= i < p.len() && removable_index(p, w, h, i, first) && (i / w < y || (i
                            / w == y && i % w < x + 1)) implies #[trigger] remove@.contains(
                        i as usize,
                    ) by {
                        if i / w == y && i % w == x {
                            lemma_index_of(i, w, x as int, y as int);
                            assert(i == index);
                        }
                    }
                }
            }
            x = x + 1;
        }
        proof {
            assert forall|i: int|
                0 <= i < p.len() && removable_index(p, w, h, i, first) && i / w < y + 1
                    implies #[trigger] remove@.contains(i as usize) by {
                if i / w == y {
                    assert(i % w < w - 1);
                }
            }
        }
        y = y + 1;
    }
    proof {
        assert forall|i: int|
            0 <= i < p.len() && removable_index(p, w, h, i, first) implies #[trigger] remove@.contains(
            i as usize,
        ) by {
            assert(i / w < h - 1);
        }
    }
    remove
}

/// Clears every listed pixel.
fn clear_all(pixels: &mut Vec<bool>, list: &Vec<usize>)
    requires
        forall|j: int| 0 <= j < list@.len() ==> list@[j] < old(pixels)@.len(),
    ensures
        final(pixels)@.len() == old(pixels)@.len(),
        forall|i: int|
            0 <= i < old(pixels)@.len() ==> #[trigger] final(pixels)@[i] == (old(pixels)@[i]
                && !list@.contains(i as usize)),
{
    let ghost start = pixels@;
    let n = pixels.len();
    let mut t: usize = 0;
    while t < list.len()
        invariant
            t <= list@.len(),
            pixels@.len() == start.len(),
            start.len() == n,
            forall|j: int| 0 <= j < list@.len() ==> list@[j] < start.len(),
            forall|i: int|
                0 <= i < start.len() ==> #[trigger] pixels@[i] == (start[i] && !list@.take(
                    t as int,
                ).contains(i as usize)),
        decreases list@.len() - t,
    {
        let index = list[t];
        pixels.set(index, false);
        proof {
            assert forall|i: int| 0 <= i < start.len() implies #[trigger] pixels@[i] == (start[i]
                && !list@.take(t + 1).contains(i as usize)) by {
                let s0 = list@.take(t as int);
                let s1 = list@.take(t + 1);
                assert(s1 =~= s0.push(index));
                if s0.contains(i as usize) {
                    let j = choose|j: int| 0 <= j < s0.len() && s0[j] == i as usize;
                    assert(s1[j] == i as usize);
                }
                if s1.contains(i as usize) && i as usize != index {
                    let j = choose|j: int| 0 <= j < s1.len() && s1[j] == i as usize;
                    assert(j < t);
                    assert(s0[j] == i as usize);
                }
                if i as usize == index {
                    assert(s1[t as int] == index);
                }
            }
        }
        t = t + 1;
    }
    assert(list@.take(t as int) =~= list@);
}

/// One sub-iteration on the mask, in place; reports whether any pixel was cleared.
fn sub_iteration(pixels: &mut Vec<bool>, width: usize, height: usize, first: bool) -> (changed: bool)
    requires
        width >= 3,
        height >= 3,
        width * height <= old(pixels)@.len(),
    ensures
        final(pixels)@ == zs_step(old(pixels)@, width as int, height as int, first),
        !changed ==> final(pixels)@ == old(pixels)@,
{
    let list = removable(pixels, width, height, first);
    let n = pixels.len();
    let ghost before = pixels@;
    clear_all(pixels, &list);
    proof {
        assert forall|i: int| 0 <= i < before.len() implies #[trigger] pixels@[i] == zs_step(
            before,
            width as int,
            height as int,
            first,
        )[i] by {
            if list@.contains(i as usize) {
                let j = choose|j: int| 0 <= j < list@.len() && list@[j] == i as usize;
                assert(removable_index(before, width as int, height as int, list@[j] as int, first));
                assert(list@[j] as int == i);
            } else if removable_index(before, width as int, height as int, i, first) {
                assert(list@.contains(i as usize));
            }
        }
        assert(pixels@ =~= zs_step(before, width as int, height as int, first));
        if list@.len() == 0 {
            assert forall|i: int| 0 <= i < before.len() implies #[trigger] pixels@[i] == before[i] by {
                if removable_index(before, width as int, height as int, i, first) {
                    assert(list@.contains(i as usize));
                }
            }
            assert(pixels@ =~= before);
        }
    }
    list.len() > 0
}

/// Zhang–Suen thinning of a `width` by `height` row-major mask.
pub fn thin(source: &[bool], width: usize, height: usize) -> (r: Vec<bool>)
    requires
        width >= 3 && height >= 3 ==> width * height <= source@.len(),
    ensures
        r@ == zs_thin(source@, width as int, height as int),
{
    let mut pixels = vstd::slice::slice_to_vec(source);
    if width < 3 || height < 3 {
        return pixels;
    }
    let limit0: usize = match width.checked_mul(height) {
        Some(v) => v,
        None => usize::MAX,
    };
    let iteration_limit: usize = if limit0 < 1 {
        1
    } else {
        limit0
    };
    let ghost src = source@;
    let ghost w = width as int;
    let ghost h = height as int;
    assert(iteration_limit == pass_limit(w, h));
    let mut it: usize = 0;
    while it < iteration_limit
        invariant
            w == width,
            h == height,
            width >= 3,
            height >= 3,
            width * height <= src.len(),
            it <= iteration_limit,
            src == source@,
            iteration_limit == pass_limit(w, h),
            pixels@ == zs_iterate(src, w, h, it as nat),
        decreases iteration_limit - it,
    {
        proof {
            lemma_iterate_only_clears(src, w, h, it as nat);
            lemma_step_only_clears(pixels@, w, h, true);
        }
        let ghost before = pixels@;
        let first = sub_iteration(&mut pixels, width, height, true);
        let second = sub_iteration(&mut pixels, width, height, false);
        assert(pixels@ == zs_iterate(src, w, h, (it + 1) as nat));
        if !first && !second {
            proof {
                assert(pixels@ == before);
                lemma_fixpoint_stays(src, w, h, it as nat, pass_limit(w, h));
                assert(zs_iterate(src, w, h, pass_limit(w, h)) == pixels@);
                assert(zs_thin(src, w, h) == pixels@);
            }
            return pixels;
        }
        it = it + 1;
    }
    pixels
}

} // verus!
