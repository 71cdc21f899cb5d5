//! The integer side of the multicolour lane: which configurations are refused, how
//! many neighbouring label pairs disagree, the canonical digest of a labelled
//! palette hypothesis, and the 4-connected regions of one label.

use vstd::prelude::*;
use vstd::arithmetic::div_mod::{lemma_fundamental_div_mod, lemma_fundamental_div_mod_converse};
use std::collections::{BTreeSet, VecDeque};
use vstd::bytes::{spec_u16_to_le_bytes, spec_u32_to_le_bytes, u16_to_le_bytes, u32_to_le_bytes};
use vstd::string::StringSliceAdditionalSpecFns;

use crate::hashing::{hex_encode, hex_lower, sha256, sha256_digest};
use crate::refusals::MulticolorRefusal;
use crate::stroke_graph::{index_set, lemma_index_set_push, lemma_no_dup_bounded};
use crate::linking::{lemma_mark_used, unused_count};
use crate::counting::{
    count_below, count_in, lemma_count_by_list, lemma_count_in_agree, lemma_sum_agree, sum_below,
};

verus! {

/// Schema tag of a multicolour palette proposal; hashed ahead of every digest.
pub const MULTICOLOR_SCHEMA: &'static str = "vice-classic/multicolor-palette/v1";

/// The label of a pixel that gives no colour evidence.
pub const TRANSPARENT_LABEL: u16 = 65535;

/// Which refusal, if any, a multicolour configuration earns before any pixel is
/// read: a malformed range first, then a palette too large for the label space,
/// then too few supported modes. `code_bits_valid` says whether the two code-length
/// prices are finite and not negative.
pub open spec fn spec_config_refusal(
    min_faces: usize,
    max_faces: usize,
    beam_width: usize,
    code_bits_valid: bool,
    modes_found: usize,
) -> Option<MulticolorRefusal> {
    if min_faces < 3 || min_faces > max_faces || beam_width == 0 || !code_bits_valid {
        Some(MulticolorRefusal::MalformedConfig)
    } else if max_faces >= TRANSPARENT_LABEL as usize {
        Some(MulticolorRefusal::LabelSpaceExhausted)
    } else if modes_found < min_faces {
        Some(MulticolorRefusal::TooFewSupportedModes { required: min_faces, found: modes_found })
    } else {
        None
    }
}

/// The refusal a multicolour configuration earns, if any.
pub fn config_refusal(
    min_faces: usize,
    max_faces: usize,
    beam_width: usize,
    code_bits_valid: bool,
    modes_found: usize,
) -> (r: Option<MulticolorRefusal>)
    ensures
        r == spec_config_refusal(min_faces, max_faces, beam_width, code_bits_valid, modes_found),
{
    if min_faces < 3 || min_faces > max_faces || beam_width == 0 || !code_bits_valid {
        Some(MulticolorRefusal::MalformedConfig)
    } else if max_faces >= TRANSPARENT_LABEL as usize {
        Some(MulticolorRefusal::LabelSpaceExhausted)
    } else if modes_found < min_faces {
        Some(MulticolorRefusal::TooFewSupportedModes { required: min_faces, found: modes_found })
    } else {
        None
    }
}

/// Two labelled pixels disagree when both carry colour evidence and their labels
/// differ.
pub open spec fn disagrees(labels: Seq<u16>, i: int, j: int) -> bool {
    labels[i] != TRANSPARENT_LABEL && labels[j] != TRANSPARENT_LABEL && labels[i] != labels[j]
}

/// Disagreements of pixel `i` with its right and its lower neighbour.
pub open spec fn pixel_disagreements(labels: Seq<u16>, w: int, h: int, i: int) -> int {
    (if i % w + 1 < w && disagrees(labels, i, i + 1) {
        1int
    } else {
        0int
    }) + (if i / w + 1 < h && disagrees(labels, i, i + w) {
        1int
    } else {
        0int
    })
}

/// Disagreements of the first `k` pixels, in row-major order.
pub open spec fn disagreements_upto(labels: Seq<u16>, w: int, h: int, k: int) -> int
    decreases k,
{
    if k <= 0 {
        0
    } else {
        disagreements_upto(labels, w, h, k - 1) + pixel_disagreements(labels, w, h, k - 1)
    }
}

proof fn lemma_disagreements_bounded(labels: Seq<u16>, w: int, h: int, k: int)
    requires
        0 <= k,
    ensures
        0 <= disagreements_upto(labels, w, h, k) <= 2 * k,
    decreases k,
{
    if k > 0 {
        lemma_disagreements_bounded(labels, w, h, k - 1);
    }
}

/// The number of 4-neighbour pixel pairs, each counted once, whose labels disagree.
pub fn disagreeing_edges(labels: &Vec<u16>, width: usize, height: usize) -> (r: u64)
    requires
        labels@.len() == width * height,
        2 * labels@.len() <= u64::MAX,
    ensures
        r == disagreements_upto(labels@, width as int, height as int, labels@.len() as int),
        r == disagreeing_pairs(labels@, width as int, height as int),
{
    if width == 0 {
        return 0;
    }
    proof {
        lemma_disagreements_are_pairs(labels@, width as int, height as int, labels@.len() as int);
    }
    let ghost l = labels@;
    let ghost w = width as int;
    let ghost h = height as int;
    let mut count: u64 = 0;
    let n = labels.len();
    assert(l.len() == n);
    let mut y: usize = 0;
    while y < height
        invariant
            l == labels@,
            w == width,
            h == height,
            width > 0,
            l.len() == width * height,
            y <= height,
            y * width <= l.len(),
            l.len() <= usize::MAX,
            2 * l.len() <= u64::MAX,
            count == disagreements_upto(l, w, h, y * w),
        decreases height - y,
    {
        assert((y + 1) * width <= width * height) by (nonlinear_arith)
            requires
                y < height,
        ;
        let mut x: usize = 0;
        while x < width
            invariant
                l == labels@,
                w == width,
                h == height,
                width > 0,
                l.len() == width * height,
                y < height,
                x <= width,
                (y + 1) * width <= l.len(),
                l.len() <= usize::MAX,
                2 * l.len() <= u64::MAX,
                count == disagreements_upto(l, w, h, y * w + x),
            decreases width - x,
        {
            assert(y * width + x < (y + 1) * width) by (nonlinear_arith)
                requires
                    x < width,
            ;
            let i = y * width + x;
            proof {
                lemma_fundamental_div_mod_converse(i as int, w, y as int, x as int);
                lemma_disagreements_bounded(l, w, h, i as int);
                assert(i < l.len());
                assert(y + 1 < height ==> (y + 2) * width <= width * height) by (nonlinear_arith)
                    requires
                        y < height,
                ;
                assert((y + 2) * width == (y + 1) * width + width) by (nonlinear_arith);
                assert((y + 1) * width == y * width + width) by (nonlinear_arith);
            }
            let a = labels[i];
            if x + 1 < width {
                let b = labels[i + 1];
                if a != TRANSPARENT_LABEL && b != TRANSPARENT_LABEL && a != b {
                    count = count + 1;
                }
            }
            if y + 1 < height {
                let b = labels[i + width];
                if a != TRANSPARENT_LABEL && b != TRANSPARENT_LABEL && a != b {
                    count = count + 1;
                }
            }
            x = x + 1;
        }
        assert((y + 1) * width == y * width + width) by (nonlinear_arith);
        y = y + 1;
        proof {
            if y < height {
                assert((y + 1) * width <= height * width) by (nonlinear_arith)
                    requires
                        y < height,
                ;
            }
        }
    }
    assert(height * width == width * height) by (nonlinear_arith);
    count
}

/// The little-endian bytes of each label, label after label.
pub open spec fn labels_le_bytes(labels: Seq<u16>) -> Seq<u8>
    decreases labels.len(),
{
    if labels.len() == 0 {
        Seq::empty()
    } else {
        labels_le_bytes(labels.drop_last()) + spec_u16_to_le_bytes(labels.last())
    }
}

/// The three bytes of each colour key, key after key.
pub open spec fn keys_bytes(keys: Seq<[u8; 3]>) -> Seq<u8>
    decreases keys.len(),
{
    if keys.len() == 0 {
        Seq::empty()
    } else {
        keys_bytes(keys.drop_last()) + seq![keys.last()[0], keys.last()[1], keys.last()[2]]
    }
}

/// The byte string a multicolour digest hashes: the schema tag, the width and height
/// and the number of colours as little-endian `u32`s (the count read as a `u32`),
/// the 8-bit key of every colour, then every label as a little-endian `u16`.
pub open spec fn multicolor_message(
    width: u32,
    height: u32,
    keys: Seq<[u8; 3]>,
    labels: Seq<u16>,
) -> Seq<u8> {
    MULTICOLOR_SCHEMA.spec_bytes() + spec_u32_to_le_bytes(width) + spec_u32_to_le_bytes(height)
        + spec_u32_to_le_bytes(keys.len() as u32) + keys_bytes(keys) + labels_le_bytes(labels)
}

/// Appends a byte slice to a byte vector.
fn append(msg: &mut Vec<u8>, bytes: &[u8])
    ensures
        final(msg)@ == old(msg)@ + bytes@,
{
    let mut k: usize = 0;
    while k < bytes.len()
        invariant
            k <= bytes@.len(),
            msg@ == old(msg)@ + bytes@.take(k as int),
        decreases bytes@.len() - k,
    {
        msg.push(bytes[k]);
        assert(bytes@.take(k + 1) =~= bytes@.take(k as int).push(bytes@[k as int]));
        k = k + 1;
    }
    assert(bytes@.take(k as int) =~= bytes@);
}

/// The canonical digest of a palette hypothesis: lowercase hex of the SHA-256 of its
/// message, over the 8-bit keys of its colours and its label field.
pub fn canonical_digest(width: u32, height: u32, keys: &Vec<[u8; 3]>, labels: &Vec<u16>) -> (d:
    String)
    ensures
        d@ == hex_lower(sha256(multicolor_message(width, height, keys@, labels@))),
{
    let mut msg: Vec<u8> = Vec::new();
    let tag: &[u8] = MULTICOLOR_SCHEMA.as_bytes();
    append(&mut msg, tag);
    let wb = u32_to_le_bytes(width);
    append(&mut msg, wb.as_slice());
    let hb = u32_to_le_bytes(height);
    append(&mut msg, hb.as_slice());
    #[verifier::truncate]
    let count = keys.len() as u32;
    let cb = u32_to_le_bytes(count);
    append(&mut msg, cb.as_slice());
    let ghost head = msg@;
    let mut k: usize = 0;
    while k < keys.len()
        invariant
            k <= keys@.len(),
            msg@ == head + keys_bytes(keys@.take(k as int)),
        decreases keys@.len() - k,
    {
        let key = keys[k];
        msg.push(key[0]);
        msg.push(key[1]);
        msg.push(key[2]);
        proof {
            assert(keys@.take(k + 1).drop_last() =~= keys@.take(k as int));
            assert(msg@ =~= head + keys_bytes(keys@.take(k + 1)));
        }
        k = k + 1;
    }
    assert(keys@.take(k as int) =~= keys@);
    let ghost mid = msg@;
    let mut j: usize = 0;
    while j < labels.len()
        invariant
            j <= labels@.len(),
            msg@ == mid + labels_le_bytes(labels@.take(j as int)),
        decreases labels@.len() - j,
    {
        let lb = u16_to_le_bytes(labels[j]);
        append(&mut msg, lb.as_slice());
        proof {
            assert(labels@.take(j + 1).drop_last() =~= labels@.take(j as int));
            assert(msg@ =~= mid + labels_le_bytes(labels@.take(j + 1)));
        }
        j = j + 1;
    }
    assert(labels@.take(j as int) =~= labels@);
    assert(msg@ =~= multicolor_message(width, height, keys@, labels@));
    let h = sha256_digest(msg.as_slice());
    hex_encode(h.as_slice())
}

/// Two in-grid pixels that share a side: the same row and neighbouring columns, or
/// the same column and neighbouring rows.
pub open spec fn adjacent4(w: int, h: int, a: int, b: int) -> bool {
    &&& 0 <= a < w * h
    &&& 0 <= b < w * h
    &&& ((a / w == b / w && (b % w == a % w + 1 || a % w == b % w + 1)) || (a % w == b % w && (b
        / w == a / w + 1 || a / w == b / w + 1)))
}

/// The side neighbours of pixel `i`, in the order left, right, up, down.
pub open spec fn neighbors4(w: int, h: int, i: int) -> Seq<int> {
    let x = i % w;
    let y = i / w;
    let s1 = if x > 0 {
        seq![i - 1]
    } else {
        Seq::<int>::empty()
    };
    let s2 = if x + 1 < w {
        s1.push(i + 1)
    } else {
        s1
    };
    let s3 = if y > 0 {
        s2.push(i - w)
    } else {
        s2
    };
    if y + 1 < h {
        s3.push(i + w)
    } else {
        s3
    }
}

/// The pixels open to a region search: not seen yet, and carrying the label.
pub open spec fn open_pixels(labels: Seq<u16>, seen: Seq<bool>, label: u16) -> Seq<bool> {
    Seq::new(labels.len(), |i: int| !seen[i] && labels[i] == label)
}

/// A walk through open pixels, each step between side neighbours.
pub open spec fn is_walk4(p: Seq<bool>, w: int, h: int, path: Seq<int>) -> bool {
    &&& path.len() >= 1
    &&& forall|k: int| 0 <= k < path.len() ==> 0 <= #[trigger] path[k] < p.len() && p[path[k]]
    &&& forall|k: int| 0 <= k < path.len() - 1 ==> #[trigger] adjacent4(w, h, path[k], path[k + 1])
}

/// The 4-connected region of `a` among the open pixels.
pub open spec fn region(p: Seq<bool>, w: int, h: int, a: int) -> Set<int> {
    Set::new(
        |b: int|
            exists|path: Seq<int>| #[trigger] is_walk4(p, w, h, path) && path[0] == a && path.last() == b,
    )
}

/// The side neighbours of an in-grid pixel are exactly the in-grid pixels sharing a
/// side with it.
proof fn lemma_neighbors4(w: int, h: int, i: int, b: int)
    requires
        w > 0,
        0 <= i < w * h,
    ensures
        neighbors4(w, h, i).contains(b) <==> adjacent4(w, h, i, b),
{
    let x = i % w;
    let y = i / w;
    lemma_fundamental_div_mod(i, w);
    assert(0 <= y < h) by {
        if y >= h {
            assert(w * y >= w * h) by (nonlinear_arith)
                requires
                    y >= h,
                    w > 0,
            ;
        }
        if y < 0 {
            assert(w * y < 0) by (nonlinear_arith)
                requires
                    y < 0,
                    w > 0,
            ;
        }
    }
    let nb = neighbors4(w, h, i);
    assert(w * y + w <= w * h) by (nonlinear_arith)
        requires
            0 <= y < h,
            w > 0,
    ;
    assert((y - 1) * w == w * y - w) by (nonlinear_arith);
    assert((y + 1) * w == w * y + w) by (nonlinear_arith);
    if x > 0 {
        lemma_fundamental_div_mod_converse(i - 1, w, y, x - 1);
        assert(adjacent4(w, h, i, i - 1));
    }
    if x + 1 < w {
        lemma_fundamental_div_mod_converse(i + 1, w, y, x + 1);
        assert(adjacent4(w, h, i, i + 1));
    }
    if y > 0 {
        lemma_fundamental_div_mod_converse(i - w, w, y - 1, x);
        assert(adjacent4(w, h, i, i - w));
    }
    if y + 1 < h {
        lemma_fundamental_div_mod_converse(i + w, w, y + 1, x);
        assert(i + w < w * h) by (nonlinear_arith)
            requires
                i == w * y + x,
                0 <= x < w,
                y + 1 < h,
                w > 0,
        ;
        assert(adjacent4(w, h, i, i + w));
    }
    let s1 = if x > 0 { seq![i - 1] } else { Seq::<int>::empty() };
    let s2 = if x + 1 < w { s1.push(i + 1) } else { s1 };
    let s3 = if y > 0 { s2.push(i - w) } else { s2 };
    assert(s1.contains(b) ==> x > 0 && b == i - 1);
    assert(s2.contains(b) ==> s1.contains(b) || (x + 1 < w && b == i + 1)) by {
        if x + 1 < w && s2.contains(b) {
            let k = choose|k: int| 0 <= k < s2.len() && s2[k] == b;
            if k < s1.len() {
                assert(s1[k] == b);
            }
        }
    }
    assert(s3.contains(b) ==> s2.contains(b) || (y > 0 && b == i - w)) by {
        if y > 0 && s3.contains(b) {
            let k = choose|k: int| 0 <= k < s3.len() && s3[k] == b;
            if k < s2.len() {
                assert(s2[k] == b);
            }
        }
    }
    assert(nb.contains(b) ==> s3.contains(b) || (y + 1 < h && b == i + w)) by {
        if y + 1 < h && nb.contains(b) {
            let k = choose|k: int| 0 <= k < nb.len() && nb[k] == b;
            if k < s3.len() {
                assert(s3[k] == b);
            }
        }
    }
    if adjacent4(w, h, i, b) {
        lemma_fundamental_div_mod(b, w);
        let bx = b % w;
        let by = b / w;
        if by == y && bx == x + 1 {
            assert(b == i + 1) by (nonlinear_arith)
                requires
                    b == w * by + bx,
                    i == w * y + x,
                    by == y,
                    bx == x + 1,
            ;
            assert(s2[s2.len() - 1] == b);
            assert(s3.contains(b)) by {
                if y > 0 {
                    assert(s3[s2.len() - 1] == b);
                } else {
                    assert(s3[s3.len() - 1] == b);
                }
            }
            assert(nb.contains(b)) by {
                let k = choose|k: int| 0 <= k < s3.len() && s3[k] == b;
                assert(nb[k] == b);
            }
        } else if by == y && x == bx + 1 {
            assert(b == i - 1) by (nonlinear_arith)
                requires
                    b == w * by + bx,
                    i == w * y + x,
                    by == y,
                    x == bx + 1,
            ;
            assert(s1[0] == b);
            assert(nb.contains(b)) by {
                assert(s2[0] == b);
                assert(s3[0] == b);
                assert(nb[0] == b);
            }
        } else if bx == x && by == y + 1 {
            assert(b == i + w) by (nonlinear_arith)
                requires
                    b == w * by + bx,
                    i == w * y + x,
                    bx == x,
                    by == y + 1,
            ;
            assert(y + 1 < h) by (nonlinear_arith)
                requires
                    b == w * by + bx,
                    0 <= bx,
                    b < w * h,
                    by == y + 1,
                    w > 0,
            ;
            assert(nb[nb.len() - 1] == b);
        } else {
            assert(bx == x && y == by + 1);
            assert(b == i - w) by (nonlinear_arith)
                requires
                    b == w * by + bx,
                    i == w * y + x,
                    bx == x,
                    y == by + 1,
            ;
            assert(s3[s3.len() - 1] == b);
            assert(nb.contains(b)) by {
                assert(nb[s3.len() - 1] == b);
            }
        }
    }
}

/// No open pixel sharing a side with a member of `s` lies outside `s`.
pub open spec fn closed4(p: Seq<bool>, w: int, h: int, s: Set<int>) -> bool {
    forall|a: int, b: int|
        #![trigger s.contains(a), adjacent4(w, h, a, b)]
        s.contains(a) && adjacent4(w, h, a, b) && 0 <= b < p.len() && p[b] ==> s.contains(b)
}

proof fn lemma_region_refl(p: Seq<bool>, w: int, h: int, a: int)
    requires
        0 <= a < p.len(),
        p[a],
    ensures
        region(p, w, h, a).contains(a),
{
    assert(is_walk4(p, w, h, seq![a]));
}

proof fn lemma_region_extend(p: Seq<bool>, w: int, h: int, s: int, a: int, b: int)
    requires
        region(p, w, h, s).contains(a),
        adjacent4(w, h, a, b),
        0 <= b < p.len(),
        p[b],
    ensures
        region(p, w, h, s).contains(b),
{
    let path = choose|path: Seq<int>| #[trigger] is_walk4(p, w, h, path) && path[0] == s && path.last() == a;
    let q = path.push(b);
    assert(q[q.len() - 2] == a);
    assert(is_walk4(p, w, h, q));
    assert(q[0] == s && q.last() == b);
}

proof fn lemma_closed4_prefix(p: Seq<bool>, w: int, h: int, set: Set<int>, path: Seq<int>, k: int)
    requires
        closed4(p, w, h, set),
        is_walk4(p, w, h, path),
        set.contains(path[0]),
        0 <= k < path.len(),
    ensures
        set.contains(path[k]),
    decreases k,
{
    if k > 0 {
        lemma_closed4_prefix(p, w, h, set, path, k - 1);
        assert(adjacent4(w, h, path[k - 1], path[k - 1 + 1]));
        assert(0 <= path[k] < p.len() && p[path[k]]);
    }
}

/// The side neighbours of an in-grid pixel, left, right, up, down.
fn side_neighbors(i: usize, width: usize, height: usize) -> (out: Vec<usize>)
    requires
        width > 0,
        i < width * height,
        width * height <= usize::MAX,
    ensures
        out@.map_values(|v: usize| v as int) == neighbors4(width as int, height as int, i as int),
{
    let x = i % width;
    let y = i / width;
    let ghost w = width as int;
    let ghost h = height as int;
    proof {
        lemma_fundamental_div_mod(i as int, w);
        assert(y < height) by {
            if y >= height {
                assert(w * y >= w * h) by (nonlinear_arith)
                    requires
                        y >= height,
                        w > 0,
                        w == width,
                        h == height,
                ;
            }
        }
        assert(y + 1 < height ==> i + width < width * height) by (nonlinear_arith)
            requires
                i == w * y + x,
                x < width,
                w == width,
        ;
        assert(i >= width || y == 0) by (nonlinear_arith)
            requires
                i == w * y + x,
                0 <= x,
                w == width,
        ;
    }
    let mut out: Vec<usize> = Vec::new();
    if x > 0 {
        out.push(i - 1);
    }
    if x + 1 < width {
        out.push(i + 1);
    }
    if y > 0 {
        out.push(i - width);
    }
    if y + 1 < height {
        out.push(i + width);
    }
    proof {
        let nb = neighbors4(w, h, i as int);
        assert(out@.map_values(|v: usize| v as int) =~= nb);
    }
    out
}

/// Visit the pixels `nb` in turn: each one not yet seen that carries `label` is
/// marked seen and queued.
pub open spec fn enqueue(
    labels: Seq<u16>,
    label: u16,
    seen: Seq<bool>,
    queue: Seq<usize>,
    nb: Seq<int>,
) -> (Seq<bool>, Seq<usize>)
    decreases nb.len(),
{
    if nb.len() == 0 {
        (seen, queue)
    } else {
        let prev = enqueue(labels, label, seen, queue, nb.drop_last());
        let v = nb.last();
        if 0 <= v < prev.0.len() && v < labels.len() && !prev.0[v] && labels[v] == label {
            (prev.0.update(v, true), prev.1.push(v as usize))
        } else {
            prev
        }
    }
}

/// Every pixel queued is one fewer unseen pixel.
pub proof fn lemma_enqueue_count(
    labels: Seq<u16>,
    label: u16,
    seen: Seq<bool>,
    queue: Seq<usize>,
    nb: Seq<int>,
)
    ensures
        enqueue(labels, label, seen, queue, nb).0.len() == seen.len(),
        enqueue(labels, label, seen, queue, nb).1.len() >= queue.len(),
        unused_count(enqueue(labels, label, seen, queue, nb).0) + enqueue(
            labels,
            label,
            seen,
            queue,
            nb,
        ).1.len() == unused_count(seen) + queue.len(),
    decreases nb.len(),
{
    if nb.len() > 0 {
        lemma_enqueue_count(labels, label, seen, queue, nb.drop_last());
        let prev = enqueue(labels, label, seen, queue, nb.drop_last());
        let v = nb.last();
        if 0 <= v < prev.0.len() && v < labels.len() && !prev.0[v] && labels[v] == label {
            lemma_mark_used(prev.0, v);
        }
    }
}

/// Breadth-first search from the state `seen`, `queue`, `comp`: take the first
/// queued pixel, list it, and queue its side neighbours left, right, up, down that
/// are not yet seen and carry `label`; until the queue is empty. Gives the pixels
/// in the order listed.
pub open spec fn bfs_order(
    labels: Seq<u16>,
    w: int,
    h: int,
    label: u16,
    seen: Seq<bool>,
    queue: Seq<usize>,
    comp: Seq<usize>,
) -> Seq<usize>
    decreases unused_count(seen), queue.len(),
{
    if queue.len() == 0 {
        comp
    } else {
        let v = queue[0];
        let next = enqueue(labels, label, seen, queue.drop_first(), neighbors4(w, h, v as int));
        proof {
            lemma_enqueue_count(labels, label, seen, queue.drop_first(), neighbors4(w, h, v as int));
        }
        bfs_order(labels, w, h, label, next.0, next.1, comp.push(v))
    }
}

/// The 4-connected region of `start` among the pixels not yet seen that carry its
/// label, found breadth first and marked as seen; listed in the order found: `start`,
/// then the pixels in the order they were queued, each pixel queueing its side
/// neighbours left, right, up, down.
pub fn label_component(
    labels: &Vec<u16>,
    width: usize,
    height: usize,
    start: usize,
    seen: &mut Vec<bool>,
) -> (comp: Vec<usize>)
    requires
        width > 0,
        labels@.len() == width * height,
        old(seen)@.len() == labels@.len(),
        start < labels@.len(),
        !old(seen)@[start as int],
    ensures
        final(seen)@.len() == old(seen)@.len(),
        comp@.no_duplicates(),
        comp@.len() >= 1,
        comp@[0] == start,
        comp@ == bfs_order(
            labels@,
            width as int,
            height as int,
            labels@[start as int],
            old(seen)@.update(start as int, true),
            seq![start],
            Seq::empty(),
        ),
        index_set(comp@) == region(
            open_pixels(labels@, old(seen)@, labels@[start as int]),
            width as int,
            height as int,
            start as int,
        ),
        forall|i: int|
            0 <= i < labels@.len() ==> #[trigger] final(seen)@[i] == (old(seen)@[i] || index_set(
                comp@,
            ).contains(i)),
{
    let ghost w = width as int;
    let ghost h = height as int;
    let ghost old_seen = seen@;
    let label = labels[start];
    let ghost p = open_pixels(labels@, old_seen, label);
    let n = labels.len();
    let mut queue: VecDeque<usize> = VecDeque::new();
    queue.push_back(start);
    seen.set(start, true);
    let mut comp: Vec<usize> = Vec::new();
    let ghost order = bfs_order(labels@, w, h, label, seen@, queue@, comp@);
    proof {
        assert(seen@ == old_seen.update(start as int, true));
        assert(queue@ =~= seq![start]);
        assert(comp@ =~= Seq::<usize>::empty());
        lemma_region_refl(p, w, h, start as int);
        assert(comp@ + queue@ =~= seq![start]);
        assert forall|i: int| 0 <= i < n implies #[trigger] seen@[i] == (old_seen[i] || index_set(
            comp@ + queue@,
        ).contains(i)) by {
            if i == start as int {
                assert((comp@ + queue@)[0] == start);
            }
            if index_set(comp@ + queue@).contains(i) {
                let k = choose|k: int| 0 <= k < (comp@ + queue@).len() && (comp@ + queue@)[k] as int == i;
                assert(k == 0);
            }
        }
    }
    while queue.len() > 0
        invariant
            w == width,
            h == height,
            width > 0,
            n == labels@.len(),
            n == width * height,
            label == labels@[start as int],
            p == open_pixels(labels@, old_seen, label),
            old_seen == old(seen)@,
            seen@.len() == n,
            old_seen.len() == n,
            (comp@ + queue@).no_duplicates(),
            (comp@ + queue@).len() >= 1,
            (comp@ + queue@)[0] == start,
            forall|k: int|
                0 <= k < (comp@ + queue@).len() ==> #[trigger] (comp@ + queue@)[k] < n && region(
                    p,
                    w,
                    h,
                    start as int,
                ).contains((comp@ + queue@)[k] as int),
            forall|i: int|
                0 <= i < n ==> #[trigger] seen@[i] == (old_seen[i] || index_set(
                    comp@ + queue@,
                ).contains(i)),
            forall|k: int, b: int|
                0 <= k < comp@.len() && #[trigger] adjacent4(w, h, comp@[k] as int, b) && 0 <= b < n
                    && p[b] ==> seen@[b],
            order == bfs_order(labels@, w, h, label, seen@, queue@, comp@),
        decreases n - comp@.len(),
    {
        let ghost all = comp@ + queue@;
        let ghost seen_pop = seen@;
        let ghost queue_full = queue@;
        let ghost comp_pop = comp@;
        proof {
            lemma_no_dup_bounded(all, n as int);
        }
        let pixel = queue.pop_front().unwrap();
        let ghost queue_pop = queue@;
        comp.push(pixel);
        proof {
            assert(queue_full[0] == pixel);
            assert(queue_pop =~= queue_full.drop_first());
        }
        assert(comp@ + queue@ =~= all);
        proof {
            assert(all[comp@.len() - 1] == pixel);
        }
        let nbrs = side_neighbors(pixel, width, height);
        let ghost nl = neighbors4(w, h, pixel as int);
        assert(nbrs@.len() == nl.len());
        let mut j: usize = 0;
        while j < nbrs.len()
            invariant
                w == width,
                h == height,
                width > 0,
                n == labels@.len(),
                n == width * height,
                label == labels@[start as int],
                p == open_pixels(labels@, old_seen, label),
                seen@.len() == n,
                old_seen.len() == n,
                pixel < n,
                region(p, w, h, start as int).contains(pixel as int),
                nbrs@.map_values(|v: usize| v as int) == nl,
                nl == neighbors4(w, h, pixel as int),
                j <= nbrs@.len(),
                comp@.len() >= 1,
                comp@[comp@.len() - 1] == pixel,
                (comp@ + queue@).no_duplicates(),
                (comp@ + queue@).len() >= 1,
                (comp@ + queue@)[0] == start,
                forall|k: int|
                    0 <= k < (comp@ + queue@).len() ==> #[trigger] (comp@ + queue@)[k] < n
                        && region(p, w, h, start as int).contains((comp@ + queue@)[k] as int),
                forall|i: int|
                    0 <= i < n ==> #[trigger] seen@[i] == (old_seen[i] || index_set(
                        comp@ + queue@,
                    ).contains(i)),
                forall|k: int, b: int|
                    0 <= k < comp@.len() - 1 && #[trigger] adjacent4(w, h, comp@[k] as int, b) && 0
                        <= b < n && p[b] ==> seen@[b],
                forall|jj: int|
                    0 <= jj < j && p[nbrs@[jj] as int] ==> seen@[#[trigger] nbrs@[jj] as int],
                labels@.len() == n,
                seen@ == enqueue(labels@, label, seen_pop, queue_pop, nl.take(j as int)).0,
                queue@ == enqueue(labels@, label, seen_pop, queue_pop, nl.take(j as int)).1,
            decreases nbrs@.len() - j,
        {
            let ghost seen_j = seen@;
            let ghost queue_j = queue@;
            proof {
                assert(nl.take(j + 1).drop_last() =~= nl.take(j as int));
                assert(nl.take(j + 1).last() == nl[j as int]);
            }
            let next = nbrs[j];
            proof {
                assert(nl[j as int] == next as int);
                assert(nl.contains(next as int));
                lemma_neighbors4(w, h, pixel as int, next as int);
                assert(next < n);
            }
            let ghost seen_before = seen@;
            if !seen[next] && labels[next] == label {
                let ghost before = comp@ + queue@;
                seen.set(next, true);
                queue.push_back(next);
                proof {
                    assert(p[next as int]);
                    assert(comp@ + queue@ =~= before.push(next));
                    lemma_index_set_push(before, next);
                    lemma_region_extend(p, w, h, start as int, pixel as int, next as int);
                    assert(!index_set(before).contains(next as int));
                    assert((comp@ + queue@).no_duplicates()) by {
                        assert forall|a: int, b: int|
                            0 <= a < (comp@ + queue@).len() && 0 <= b < (comp@ + queue@).len() && a
                                != b implies (comp@ + queue@)[a] != (comp@ + queue@)[b] by {
                            if a == before.len() as int && b < before.len() {
                                if before[b] == next {
                                    assert(index_set(before).contains(next as int));
                                }
                            }
                            if b == before.len() as int && a < before.len() {
                                if before[a] == next {
                                    assert(index_set(before).contains(next as int));
                                }
                            }
                        }
                    }
                    assert forall|i: int| 0 <= i < n implies #[trigger] seen@[i] == (old_seen[i]
                        || index_set(comp@ + queue@).contains(i)) by {
                        if i != next as int {
                            assert(seen@[i] == (old_seen[i] || index_set(before).contains(i)));
                        }
                    }
                    assert forall|k: int|
                        0 <= k < (comp@ + queue@).len() implies #[trigger] (comp@ + queue@)[k] < n
                            && region(p, w, h, start as int).contains((comp@ + queue@)[k] as int) by {
                        if k < before.len() {
                            assert((comp@ + queue@)[k] == before[k]);
                        }
                    }
                }
            }
            proof {
                assert(p[next as int] ==> seen@[next as int]);
                assert(forall|i: int| 0 <= i < n && seen_before[i] ==> seen@[i]);
                assert forall|jj: int| 0 <= jj < j + 1 && p[nbrs@[jj] as int] implies seen@[
                    #[trigger] nbrs@[jj] as int] by {
                    if jj < j {
                        assert(nl[jj] == nbrs@[jj] as int);
                        assert(nl.contains(nbrs@[jj] as int));
                        lemma_neighbors4(w, h, pixel as int, nbrs@[jj] as int);
                        assert(seen_before[nbrs@[jj] as int]);
                    }
                }
            }
            j = j + 1;
        }
        proof {
            assert(nl.take(j as int) =~= nl);
            assert(comp@ =~= comp_pop.push(pixel));
            assert(bfs_order(labels@, w, h, label, seen_pop, queue_full, comp_pop) == bfs_order(
                labels@,
                w,
                h,
                label,
                seen@,
                queue@,
                comp@,
            ));
            assert forall|k: int, b: int|
                0 <= k < comp@.len() && #[trigger] adjacent4(w, h, comp@[k] as int, b) && 0 <= b < n
                    && p[b] implies seen@[b] by {
                if k == comp@.len() - 1 {
                    lemma_neighbors4(w, h, pixel as int, b);
                    assert(nl.contains(b));
                    let jj = choose|jj: int| 0 <= jj < nl.len() && nl[jj] == b;
                    assert(nbrs@[jj] as int == b);
                }
            }
        }
    }
    proof {
        let comp_set = index_set(comp@);
        let rset = region(p, w, h, start as int);
        assert(comp@ + queue@ =~= comp@);
        assert forall|i: int| comp_set.contains(i) implies rset.contains(i) by {
            let k = choose|k: int| 0 <= k < comp@.len() && comp@[k] as int == i;
            assert((comp@ + queue@)[k] == comp@[k]);
        }
        assert(closed4(p, w, h, comp_set)) by {
            assert forall|a: int, b: int|
                #![trigger comp_set.contains(a), adjacent4(w, h, a, b)]
                comp_set.contains(a) && adjacent4(w, h, a, b) && 0 <= b < p.len() && p[b]
                    implies comp_set.contains(b) by {
                let k = choose|k: int| 0 <= k < comp@.len() && comp@[k] as int == a;
                assert(seen@[b]);
                assert(!old_seen[b]);
            }
        }
        assert(comp_set.contains(start as int)) by {
            assert(comp@[0] == start);
        }
        assert forall|i: int| rset.contains(i) implies comp_set.contains(i) by {
            let path = choose|path: Seq<int>| #[trigger] is_walk4(p, w, h, path) && path[0] == start as int && path.last() == i;
            lemma_closed4_prefix(p, w, h, comp_set, path, path.len() - 1);
        }
        assert(comp_set =~= rset);
    }
    comp
}

/// Pixel indices are totally ordered as the member set needs.
proof fn lemma_pixels_ordered()
    ensures
        vstd::laws_cmp::obeys_cmp::<usize>(),
{
    broadcast use vstd::laws_cmp::group_laws_cmp;

}

/// A member of a region is a core pixel when it has a member on its left or right
/// and a member above or below.
pub open spec fn is_core(members: Set<int>, w: int, h: int, i: int) -> bool {
    let x = i % w;
    let y = i / w;
    &&& ((x > 0 && members.contains(i - 1)) || (x + 1 < w && members.contains(i + 1)))
    &&& ((y > 0 && members.contains(i - w)) || (y + 1 < h && members.contains(i + w)))
}

/// The core pixels among the first `k` pixels of a region, in region order.
pub open spec fn core_upto(comp: Seq<usize>, w: int, h: int, k: int) -> Seq<usize>
    decreases k,
{
    if k <= 0 {
        Seq::empty()
    } else if is_core(index_set(comp), w, h, comp[k - 1] as int) {
        core_upto(comp, w, h, k - 1).push(comp[k - 1])
    } else {
        core_upto(comp, w, h, k - 1)
    }
}

/// The core pixels of a region, in region order.
pub fn core_pixels(comp: &Vec<usize>, width: usize, height: usize) -> (r: Vec<usize>)
    requires
        width * height <= usize::MAX,
        forall|t: int| 0 <= t < comp@.len() ==> #[trigger] comp@[t] < width * height,
    ensures
        r@ == core_upto(comp@, width as int, height as int, comp@.len() as int),
        forall|t: int|
            0 <= t < r@.len() ==> index_set(comp@).contains(#[trigger] r@[t] as int) && core_by_sides(
                index_set(comp@),
                width as int,
                height as int,
                r@[t] as int,
            ),
        forall|j: int|
            0 <= j < comp@.len() && core_by_sides(
                index_set(comp@),
                width as int,
                height as int,
                #[trigger] comp@[j] as int,
            ) ==> r@.contains(comp@[j]),
{
    if width == 0 {
        assert(comp@.len() == 0) by {
            if comp@.len() > 0 {
                assert(comp@[0] < width * height);
            }
        }
        return Vec::new();
    }
    proof {
        lemma_pixels_ordered();
    }
    let ghost w = width as int;
    let ghost h = height as int;
    let mut members: BTreeSet<usize> = BTreeSet::new();
    let mut k: usize = 0;
    while k < comp.len()
        invariant
            k <= comp@.len(),
            forall|i: usize| #[trigger] members@.contains(i) <==> index_set(comp@.take(k as int)).contains(i as int),
        decreases comp@.len() - k,
    {
        let i = comp[k];
        members.insert(i);
        proof {
            assert(comp@.take(k + 1) =~= comp@.take(k as int).push(i));
            lemma_index_set_push(comp@.take(k as int), i);
        }
        k = k + 1;
    }
    assert(comp@.take(k as int) =~= comp@);
    let mut out: Vec<usize> = Vec::new();
    let mut t: usize = 0;
    while t < comp.len()
        invariant
            w == width,
            h == height,
            width > 0,
            width * height <= usize::MAX,
            forall|tt: int| 0 <= tt < comp@.len() ==> #[trigger] comp@[tt] < width * height,
            forall|i: usize| #[trigger] members@.contains(i) <==> index_set(comp@).contains(i as int),
            t <= comp@.len(),
            out@ == core_upto(comp@, w, h, t as int),
        decreases comp@.len() - t,
    {
        let i = comp[t];
        let x = i % width;
        let y = i / width;
        proof {
            lemma_fundamental_div_mod(i as int, w);
            assert(y + 1 < height ==> i + width < width * height) by (nonlinear_arith)
                requires
                    i == w * y + x,
                    x < width,
                    w == width,
            ;
            assert(y > 0 ==> i >= width) by (nonlinear_arith)
                requires
                    i == w * y + x,
                    0 <= x,
                    w == width,
            ;
        }
        let horizontal = (x > 0 && members.contains(&(i - 1))) || (x + 1 < width
            && members.contains(&(i + 1)));
        let vertical = (y > 0 && members.contains(&(i - width))) || (y + 1 < height
            && members.contains(&(i + width)));
        if horizontal && vertical {
            out.push(i);
        }
        proof {
            assert(horizontal && vertical <==> is_core(index_set(comp@), w, h, i as int));
        }
        t = t + 1;
    }
    proof {
        lemma_core_upto_members(comp@, w, h, comp@.len() as int);
        assert forall|t: int| 0 <= t < out@.len() implies index_set(comp@).contains(
            #[trigger] out@[t] as int,
        ) && core_by_sides(index_set(comp@), w, h, out@[t] as int) by {
            let j = choose|j: int| 0 <= j < comp@.len() && comp@[j] as int == out@[t] as int;
            lemma_core_by_sides(index_set(comp@), w, h, out@[t] as int);
        }
        assert forall|j: int|
            0 <= j < comp@.len() && core_by_sides(
                index_set(comp@),
                w,
                h,
                #[trigger] comp@[j] as int,
            ) implies out@.contains(comp@[j]) by {
            lemma_core_by_sides(index_set(comp@), w, h, comp@[j] as int);
        }
    }
    out
}

/// The labels a region's boundary reads from the side neighbours `nb` of one of its
/// pixels: every neighbour label other than the region's own and transparency.
pub open spec fn side_labels(labels: Seq<u16>, nb: Seq<int>, label: u16) -> Seq<u16>
    decreases nb.len(),
{
    if nb.len() == 0 {
        Seq::empty()
    } else {
        let l = labels[nb.last()];
        side_labels(labels, nb.drop_last(), label) + if l != label && l != TRANSPARENT_LABEL {
            seq![l]
        } else {
            Seq::empty()
        }
    }
}

/// Every foreign label read across the boundary of a region, pixel after pixel and
/// neighbour after neighbour.
pub open spec fn boundary_labels(
    labels: Seq<u16>,
    comp: Seq<usize>,
    w: int,
    h: int,
    label: u16,
) -> Seq<u16>
    decreases comp.len(),
{
    if comp.len() == 0 {
        Seq::empty()
    } else {
        boundary_labels(labels, comp.drop_last(), w, h, label) + side_labels(
            labels,
            neighbors4(w, h, comp.last() as int),
            label,
        )
    }
}

/// How many entries of `s` equal `x`.
pub open spec fn occurrences(s: Seq<u16>, x: u16) -> nat
    decreases s.len(),
{
    if s.len() == 0 {
        0
    } else {
        occurrences(s.drop_last(), x) + if s.last() == x {
            1nat
        } else {
            0nat
        }
    }
}

/// `r` tallies `s`: one entry per distinct value of `s`, in increasing order of
/// value, each with its number of occurrences.
pub open spec fn is_tally(r: Seq<(u16, u64)>, s: Seq<u16>) -> bool {
    &&& forall|i: int, j: int| 0 <= i < j < r.len() ==> r[i].0 < r[j].0
    &&& forall|j: int| 0 <= j < r.len() ==> #[trigger] r[j].1 == occurrences(s, r[j].0) && r[j].1 > 0
    &&& forall|x: u16| occurrences(s, x) > 0 ==> exists|j: int| 0 <= j < r.len() && #[trigger] r[j].0 == x
}

proof fn lemma_occurrences_push(s: Seq<u16>, x: u16, y: u16)
    ensures
        occurrences(s.push(x), y) == occurrences(s, y) + if x == y {
            1nat
        } else {
            0nat
        },
{
    assert(s.push(x).drop_last() =~= s);
}

proof fn lemma_occurrences_bounded(s: Seq<u16>, y: u16)
    ensures
        occurrences(s, y) <= s.len(),
    decreases s.len(),
{
    if s.len() > 0 {
        lemma_occurrences_bounded(s.drop_last(), y);
    }
}

/// Count one more occurrence of `x` in a tally.
fn tally_add(r: &mut Vec<(u16, u64)>, x: u16, Ghost(s): Ghost<Seq<u16>>)
    requires
        is_tally(old(r)@, s),
        s.len() < u64::MAX,
    ensures
        is_tally(final(r)@, s.push(x)),
{
    proof {
        assert forall|y: u16| #[trigger] occurrences(s.push(x), y) == occurrences(s, y) + if x == y {
            1nat
        } else {
            0nat
        } by {
            lemma_occurrences_push(s, x, y);
        }
        lemma_occurrences_bounded(s, x);
    }
    let ghost r0 = r@;
    let mut k: usize = 0;
    while k < r.len() && r[k].0 < x
        invariant
            r@ == r0,
            k <= r@.len(),
            forall|j: int| 0 <= j < k ==> r@[j].0 < x,
        decreases r@.len() - k,
    {
        k = k + 1;
    }
    if k < r.len() && r[k].0 == x {
        let c = r[k].1;
        r.set(k, (x, c + 1));
        proof {
            assert forall|x2: u16| occurrences(s.push(x), x2) > 0 implies exists|j: int|
                0 <= j < r@.len() && #[trigger] r@[j].0 == x2 by {
                if x2 == x {
                    assert(r@[k as int].0 == x2);
                } else {
                    let j = choose|j: int| 0 <= j < r0.len() && #[trigger] r0[j].0 == x2;
                    assert(r@[j].0 == x2);
                }
            }
        }
    } else {
        proof {
            assert(!(exists|j: int| 0 <= j < r0.len() && #[trigger] r0[j].0 == x)) by {
                if exists|j: int| 0 <= j < r0.len() && #[trigger] r0[j].0 == x {
                    let j = choose|j: int| 0 <= j < r0.len() && #[trigger] r0[j].0 == x;
                    if j < k {
                    } else if j > k {
                        assert(r0[k as int].0 < r0[j].0);
                    }
                }
            }
            assert(occurrences(s, x) == 0);
        }
        r.insert(k, (x, 1));
        proof {
            assert(r@ == r0.insert(k as int, (x, 1u64)));
            assert forall|i: int, j: int| 0 <= i < j < r@.len() implies r@[i].0 < r@[j].0 by {
                if j < k {
                    assert(r@[i] == r0[i] && r@[j] == r0[j]);
                } else if j == k {
                    assert(r@[i] == r0[i]);
                } else if i < k {
                    assert(r@[i] == r0[i] && r@[j] == r0[j - 1]);
                    if k < r0.len() {
                        assert(r0[k as int].0 >= x);
                        assert(r0[k as int].0 != x);
                        if j - 1 > k {
                            assert(r0[k as int].0 < r0[j - 1].0);
                        }
                    }
                } else if i == k {
                    assert(r@[j] == r0[j - 1]);
                    assert(r0[k as int].0 >= x && r0[k as int].0 != x);
                    if j - 1 > k {
                        assert(r0[k as int].0 < r0[j - 1].0);
                    }
                } else {
                    assert(r@[i] == r0[i - 1] && r@[j] == r0[j - 1]);
                }
            }
            assert forall|j: int| 0 <= j < r@.len() implies #[trigger] r@[j].1 == occurrences(
                s.push(x),
                r@[j].0,
            ) && r@[j].1 > 0 by {
                if j < k {
                    assert(r@[j] == r0[j]);
                } else if j > k {
                    assert(r@[j] == r0[j - 1]);
                }
            }
            assert forall|x2: u16| occurrences(s.push(x), x2) > 0 implies exists|j: int|
                0 <= j < r@.len() && #[trigger] r@[j].0 == x2 by {
                if x2 == x {
                    assert(r@[k as int].0 == x2);
                } else {
                    let j = choose|j: int| 0 <= j < r0.len() && #[trigger] r0[j].0 == x2;
                    if j < k {
                        assert(r@[j].0 == x2);
                    } else {
                        assert(r@[j + 1].0 == x2);
                    }
                }
            }
        }
    }
}

/// How often each foreign label is read across the boundary of a region: every
/// side neighbour of every region pixel whose label is neither the region's nor
/// transparency counts once, and the counts come in increasing order of label.
pub fn boundary_label_counts(
    labels: &Vec<u16>,
    comp: &Vec<usize>,
    width: usize,
    height: usize,
    label: u16,
) -> (r: Vec<(u16, u64)>)
    requires
        labels@.len() == width * height,
        forall|t: int| 0 <= t < comp@.len() ==> #[trigger] comp@[t] < labels@.len(),
        4 * comp@.len() < u64::MAX,
    ensures
        is_tally(r@, boundary_labels(labels@, comp@, width as int, height as int, label)),
        forall|j: int|
            0 <= j < r@.len() ==> foreign(#[trigger] r@[j].0, label) && r@[j].1 == boundary_pairs(
                labels@,
                comp@,
                width as int,
                height as int,
                r@[j].0,
            ),
        forall|x: u16|
            foreign(x, label) && boundary_pairs(labels@, comp@, width as int, height as int, x) > 0
                ==> exists|j: int| 0 <= j < r@.len() && #[trigger] r@[j].0 == x,
{
    if width == 0 {
        assert(comp@.len() == 0) by {
            if comp@.len() > 0 {
                assert(comp@[0] < labels@.len());
            }
        }
        return Vec::new();
    }
    let ghost w = width as int;
    let ghost h = height as int;
    let mut r: Vec<(u16, u64)> = Vec::new();
    let ghost mut read: Seq<u16> = Seq::empty();
    let n = labels.len();
    let mut t: usize = 0;
    while t < comp.len()
        invariant
            w == width,
            h == height,
            width > 0,
            n == labels@.len(),
            labels@.len() == width * height,
            forall|tt: int| 0 <= tt < comp@.len() ==> #[trigger] comp@[tt] < labels@.len(),
            4 * comp@.len() < u64::MAX,
            t <= comp@.len(),
            read == boundary_labels(labels@, comp@.take(t as int), w, h, label),
            read.len() <= 4 * t,
            is_tally(r@, read),
        decreases comp@.len() - t,
    {
        let i = comp[t];
        let nbrs = side_neighbors(i, width, height);
        let ghost nl = neighbors4(w, h, i as int);
        let ghost base = read;
        proof {
            assert(nbrs@.len() == nl.len());
            assert(nl.len() <= 4);
            assert(nl =~= nl.take(nl.len() as int));
        }
        let mut j: usize = 0;
        while j < nbrs.len()
            invariant
                w == width,
                h == height,
                width > 0,
                labels@.len() == width * height,
                i < labels@.len(),
                nbrs@.map_values(|v: usize| v as int) == nl,
                nl == neighbors4(w, h, i as int),
                nl.len() <= 4,
                j <= nbrs@.len(),
                4 * comp@.len() < u64::MAX,
                t < comp@.len(),
                base.len() <= 4 * t,
                read == base + side_labels(labels@, nl.take(j as int), label),
                read.len() <= base.len() + j,
                is_tally(r@, read),
            decreases nbrs@.len() - j,
        {
            let b = nbrs[j];
            proof {
                assert(nl[j as int] == b as int);
                assert(nl.contains(b as int));
                lemma_neighbors4(w, h, i as int, b as int);
                assert(nl.take(j + 1).drop_last() =~= nl.take(j as int));
                assert(nl.take(j + 1).last() == b as int);
            }
            let other = labels[b];
            if other != label && other != TRANSPARENT_LABEL {
                tally_add(&mut r, other, Ghost(read));
                proof {
                    read = read.push(other);
                }
            }
            proof {
                assert(read =~= base + side_labels(labels@, nl.take(j + 1), label));
            }
            j = j + 1;
        }
        proof {
            assert(nl.take(j as int) =~= nl);
            assert(comp@.take(t + 1).drop_last() =~= comp@.take(t as int));
            assert(comp@.take(t + 1).last() == i);
            assert(read == boundary_labels(labels@, comp@.take(t + 1), w, h, label));
        }
        t = t + 1;
    }
    assert(comp@.take(t as int) =~= comp@);
    proof {
        let all = boundary_labels(labels@, comp@, w, h, label);
        assert(read == all);
        assert forall|t2: int| 0 <= t2 < comp@.len() implies #[trigger] comp@[t2] < w * h by {}
        assert forall|j: int| 0 <= j < r@.len() implies foreign(#[trigger] r@[j].0, label)
            && r@[j].1 == boundary_pairs(labels@, comp@, w, h, r@[j].0) by {
            assert(is_tally(r@, all));
            assert(r@[j].1 == occurrences(all, r@[j].0) && r@[j].1 > 0);
            lemma_boundary_labels_are_side_pairs(labels@, comp@, w, h, label, r@[j].0);
        }
        assert forall|x: u16|
            foreign(x, label) && boundary_pairs(labels@, comp@, w, h, x) > 0 implies exists|j: int|
                0 <= j < r@.len() && #[trigger] r@[j].0 == x by {
            lemma_boundary_labels_are_side_pairs(labels@, comp@, w, h, label, x);
            assert(occurrences(all, x) > 0);
        }
    }
    r
}

/// The squared distance between two 8-bit colour keys, channel by channel.
pub open spec fn key_distance_sq(a: [u8; 3], b: [u8; 3]) -> int {
    (a[0] - b[0]) * (a[0] - b[0]) + (a[1] - b[1]) * (a[1] - b[1]) + (a[2] - b[2]) * (a[2] - b[2])
}

/// Label `l` names a colour of least key distance to `observed`, and the lowest such.
pub open spec fn is_nearest_label(observed: [u8; 3], colors: Seq<[u8; 3]>, l: int) -> bool {
    &&& 0 <= l < colors.len()
    &&& forall|j: int|
        0 <= j < colors.len() ==> key_distance_sq(observed, colors[l]) <= key_distance_sq(
            observed,
            #[trigger] colors[j],
        )
    &&& forall|j: int|
        0 <= j < l ==> key_distance_sq(observed, colors[l]) < key_distance_sq(
            observed,
            #[trigger] colors[j],
        )
}

/// The squared distance between two 8-bit colour keys, exactly.
pub fn encoded_distance_sq(a: [u8; 3], b: [u8; 3]) -> (d: u32)
    ensures
        d == key_distance_sq(a, b),
{
    let mut total: u32 = 0;
    let mut c: usize = 0;
    while c < 3
        invariant
            c <= 3,
            total as int == (if c > 0 {
                (a[0] - b[0]) * (a[0] - b[0])
            } else {
                0
            }) + (if c > 1 {
                (a[1] - b[1]) * (a[1] - b[1])
            } else {
                0
            }) + (if c > 2 {
                (a[2] - b[2]) * (a[2] - b[2])
            } else {
                0
            }),
            total <= 65025 * c,
        decreases 3 - c,
    {
        let x = a[c];
        let y = b[c];
        let diff: u32 = if x >= y {
            (x - y) as u32
        } else {
            (y - x) as u32
        };
        assert(diff * diff <= 65025) by (nonlinear_arith)
            requires
                diff <= 255,
        ;
        assert(diff * diff == (x - y) * (x - y)) by (nonlinear_arith)
            requires
                diff == (if x >= y {
                    x - y
                } else {
                    y - x
                }),
        ;
        total = total + diff * diff;
        c = c + 1;
    }
    total
}

/// The label of the colour nearest to `observed` by key distance, the lowest label
/// on ties.
pub fn nearest_label(observed: [u8; 3], colors: &Vec<[u8; 3]>) -> (l: u16)
    requires
        1 <= colors@.len() <= TRANSPARENT_LABEL,
    ensures
        is_nearest_label(observed, colors@, l as int),
        l < TRANSPARENT_LABEL,
{
    let mut best: usize = 0;
    let mut best_d = encoded_distance_sq(observed, colors[0]);
    let mut j: usize = 1;
    while j < colors.len()
        invariant
            1 <= j <= colors@.len(),
            colors@.len() <= TRANSPARENT_LABEL,
            best < j,
            best_d == key_distance_sq(observed, colors@[best as int]),
            forall|i: int|
                0 <= i < j ==> key_distance_sq(observed, colors@[best as int]) <= key_distance_sq(
                    observed,
                    #[trigger] colors@[i],
                ),
            forall|i: int|
                0 <= i < best ==> key_distance_sq(observed, colors@[best as int]) < key_distance_sq(
                    observed,
                    #[trigger] colors@[i],
                ),
        decreases colors@.len() - j,
    {
        let d = encoded_distance_sq(observed, colors[j]);
        if d < best_d {
            best = j;
            best_d = d;
        }
        j = j + 1;
    }
    best as u16
}

/// The first labelling of a palette hypothesis: every pixel that gives no colour
/// evidence is transparent, every other takes its nearest colour's label.
pub fn initial_labels(
    observed: &Vec<[u8; 3]>,
    evidenced: &Vec<bool>,
    colors: &Vec<[u8; 3]>,
) -> (labels: Vec<u16>)
    requires
        observed@.len() == evidenced@.len(),
        colors@.len() <= TRANSPARENT_LABEL,
        forall|i: int| 0 <= i < evidenced@.len() && #[trigger] evidenced@[i] ==> colors@.len() >= 1,
    ensures
        labels@.len() == observed@.len(),
        forall|i: int|
            0 <= i < labels@.len() && !evidenced@[i] ==> #[trigger] labels@[i] == TRANSPARENT_LABEL,
        forall|i: int|
            0 <= i < labels@.len() && evidenced@[i] ==> is_nearest_label(
                observed@[i],
                colors@,
                #[trigger] labels@[i] as int,
            ),
{
    let mut labels: Vec<u16> = Vec::new();
    let mut i: usize = 0;
    while i < observed.len()
        invariant
            observed@.len() == evidenced@.len(),
            colors@.len() <= TRANSPARENT_LABEL,
            forall|k: int| 0 <= k < evidenced@.len() && #[trigger] evidenced@[k] ==> colors@.len() >= 1,
            i <= observed@.len(),
            labels@.len() == i,
            forall|k: int|
                0 <= k < i && !evidenced@[k] ==> #[trigger] labels@[k] == TRANSPARENT_LABEL,
            forall|k: int|
                0 <= k < i && evidenced@[k] ==> is_nearest_label(
                    observed@[k],
                    colors@,
                    #[trigger] labels@[k] as int,
                ),
        decreases observed@.len() - i,
    {
        if evidenced[i] {
            let l = nearest_label(observed[i], colors);
            labels.push(l);
        } else {
            labels.push(TRANSPARENT_LABEL);
        }
        i = i + 1;
    }
    labels
}

/// The side neighbours of an in-grid pixel: left, right, up and down as they
/// exist, all in the grid, none twice.
proof fn lemma_neighbors4_shape(w: int, h: int, i: int)
    requires
        w > 0,
        0 <= i < w * h,
    ensures
        neighbors4(w, h, i).no_duplicates(),
        forall|t: int|
            0 <= t < neighbors4(w, h, i).len() ==> adjacent4(w, h, i, #[trigger] neighbors4(w, h, i)[t]),
        forall|t: int|
            0 <= t < neighbors4(w, h, i).len() ==> 0 <= #[trigger] neighbors4(w, h, i)[t] < w * h,
{
    let nb = neighbors4(w, h, i);
    lemma_fundamental_div_mod(i, w);
    let x = i % w;
    let y = i / w;
    assert(0 <= x < w);
    assert forall|t: int| 0 <= t < nb.len() implies adjacent4(w, h, i, #[trigger] nb[t]) by {
        assert(nb.contains(nb[t]));
        lemma_neighbors4(w, h, i, nb[t]);
    }
    assert forall|a: int, b: int| 0 <= a < nb.len() && 0 <= b < nb.len() && a != b implies nb[a]
        != nb[b] by {
        // Every entry is `i - 1`, `i + 1`, `i - w` or `i + w`, in that order, and
        // `i - 1 == i - w` or `i + 1 == i + w` only when `w == 1`, where the grid
        // has no left or right neighbour.
        if w == 1 {
            assert(x == 0);
        }
    }
}

/// Pixels `i < j` share a side and their labels disagree.
pub open spec fn disagreeing_pair(labels: Seq<u16>, w: int, h: int, i: int, j: int) -> bool {
    i < j && adjacent4(w, h, i, j) && disagrees(labels, i, j)
}

/// The number of unordered pairs of side-adjacent pixels whose labels are both
/// evidenced and differ.
pub open spec fn disagreeing_pairs(labels: Seq<u16>, w: int, h: int) -> int {
    sum_below(
        |i: int| count_below(|j: int| disagreeing_pair(labels, w, h, i, j), w * h),
        w * h,
    )
}

/// The pairs through pixel `i` that it opens: the pixel's disagreements with its
/// right and its lower neighbour.
proof fn lemma_pixel_pairs(labels: Seq<u16>, w: int, h: int, i: int)
    requires
        w > 0,
        0 <= i < w * h,
    ensures
        count_below(|j: int| disagreeing_pair(labels, w, h, i, j), w * h) == pixel_disagreements(
            labels,
            w,
            h,
            i,
        ),
{
    let p = |j: int| disagreeing_pair(labels, w, h, i, j);
    let nb = neighbors4(w, h, i);
    lemma_neighbors4_shape(w, h, i);
    assert forall|q: int| 0 <= q < w * h && #[trigger] p(q) implies nb.contains(q) by {
        lemma_neighbors4(w, h, i, q);
    }
    lemma_count_by_list(nb, p, w * h);
    lemma_fundamental_div_mod(i, w);
    let x = i % w;
    let y = i / w;
    assert(0 <= y < h) by {
        if y >= h {
            assert(w * y >= w * h) by (nonlinear_arith)
                requires
                    y >= h,
                    w > 0,
            ;
        }
        if y < 0 {
            assert(w * y < 0) by (nonlinear_arith)
                requires
                    y < 0,
                    w > 0,
            ;
        }
    }
    assert(w * y + w <= w * h) by (nonlinear_arith)
        requires
            0 <= y < h,
            w > 0,
    ;
    assert(w * (y + 1) == w * y + w) by (nonlinear_arith);
    assert(y * w == w * y) by (nonlinear_arith);
    assert((y + 1) * w == w * y + w) by (nonlinear_arith);
    if x + 1 < w {
        lemma_neighbors4(w, h, i, i + 1);
        lemma_fundamental_div_mod_converse(i + 1, w, y, x + 1);
        assert(adjacent4(w, h, i, i + 1));
    }
    if y + 1 < h {
        lemma_fundamental_div_mod_converse(i + w, w, y + 1, x);
        assert(i + w < w * h) by (nonlinear_arith)
            requires
                i == w * y + x,
                0 <= x < w,
                y + 1 < h,
                w > 0,
        ;
        assert(adjacent4(w, h, i, i + w));
    }
    let s1 = if x > 0 { seq![i - 1] } else { Seq::<int>::empty() };
    let s2 = if x + 1 < w { s1.push(i + 1) } else { s1 };
    let s3 = if y > 0 { s2.push(i - w) } else { s2 };
    assert(nb == if y + 1 < h { s3.push(i + w) } else { s3 });
    reveal_with_fuel(count_in, 5);
    if s3 != s2 {
        assert(s3.drop_last() =~= s2);
    }
    if s2 != s1 {
        assert(s2.drop_last() =~= s1);
    }
    if x > 0 {
        assert(s1.drop_last() =~= Seq::<int>::empty());
    }
    if y + 1 < h {
        assert(nb.drop_last() =~= s3);
    }
}

/// The disagreement count of the first `k` pixels is the number of disagreeing
/// pairs they open: over the whole grid, the number of unordered pairs of
/// side-adjacent pixels whose labels are both evidenced and differ.
pub proof fn lemma_disagreements_are_pairs(labels: Seq<u16>, w: int, h: int, k: int)
    requires
        w > 0,
        0 <= k <= w * h,
    ensures
        disagreements_upto(labels, w, h, k) == sum_below(
            |i: int| count_below(|j: int| disagreeing_pair(labels, w, h, i, j), w * h),
            k,
        ),
    decreases k,
{
    if k > 0 {
        lemma_disagreements_are_pairs(labels, w, h, k - 1);
        lemma_pixel_pairs(labels, w, h, k - 1);
    }
}

/// Pixel `i` has a member of `members` beside it in its own row, and one beside it
/// in its own column.
pub open spec fn core_by_sides(members: Set<int>, w: int, h: int, i: int) -> bool {
    &&& exists|m: int| #[trigger] members.contains(m) && adjacent4(w, h, i, m) && m / w == i / w
    &&& exists|m: int| #[trigger] members.contains(m) && adjacent4(w, h, i, m) && m % w == i % w
}

/// The core test by index is the core test by rows and columns: a region pixel is
/// core exactly when a region member sits beside it in its row and one beside it in
/// its column.
pub proof fn lemma_core_by_sides(members: Set<int>, w: int, h: int, i: int)
    requires
        w > 0,
        0 <= i < w * h,
    ensures
        is_core(members, w, h, i) <==> core_by_sides(members, w, h, i),
{
    lemma_fundamental_div_mod(i, w);
    let x = i % w;
    let y = i / w;
    assert(0 <= y < h) by {
        if y >= h {
            assert(w * y >= w * h) by (nonlinear_arith)
                requires
                    y >= h,
                    w > 0,
            ;
        }
        if y < 0 {
            assert(w * y < 0) by (nonlinear_arith)
                requires
                    y < 0,
                    w > 0,
            ;
        }
    }
    assert(w * y + w <= w * h) by (nonlinear_arith)
        requires
            0 <= y < h,
            w > 0,
    ;
    assert(w * (y + 1) == w * y + w) by (nonlinear_arith);
    assert(w * (y - 1) == w * y - w) by (nonlinear_arith);
    assert(y * w == w * y) by (nonlinear_arith);
    assert((y + 1) * w == w * y + w) by (nonlinear_arith);
    assert((y - 1) * w == w * y - w) by (nonlinear_arith);
    if x > 0 {
        lemma_fundamental_div_mod_converse(i - 1, w, y, x - 1);
    }
    if x + 1 < w {
        lemma_fundamental_div_mod_converse(i + 1, w, y, x + 1);
    }
    if y > 0 {
        lemma_fundamental_div_mod_converse(i - w, w, y - 1, x);
    }
    if y + 1 < h {
        lemma_fundamental_div_mod_converse(i + w, w, y + 1, x);
    }
    if core_by_sides(members, w, h, i) {
        let m1 = choose|m: int| #[trigger] members.contains(m) && adjacent4(w, h, i, m) && m / w == i / w;
        let m2 = choose|m: int| #[trigger] members.contains(m) && adjacent4(w, h, i, m) && m % w == i % w;
        lemma_fundamental_div_mod(m1, w);
        lemma_fundamental_div_mod(m2, w);
        if m1 % w == x + 1 {
            assert(m1 == i + 1);
        } else {
            assert(m1 == i - 1);
        }
        if m2 / w == y + 1 {
            assert(m2 == i + w) by (nonlinear_arith)
                requires
                    m2 == w * (m2 / w) + m2 % w,
                    m2 / w == y + 1,
                    m2 % w == x,
                    i == w * y + x,
            ;
            assert(y + 1 < h) by (nonlinear_arith)
                requires
                    m2 == w * (y + 1) + x,
                    m2 < w * h,
                    0 <= x,
                    w > 0,
            ;
        } else {
            assert(m2 / w == y - 1);
            assert(m2 == i - w) by (nonlinear_arith)
                requires
                    m2 == w * (m2 / w) + m2 % w,
                    m2 / w == y - 1,
                    m2 % w == x,
                    i == w * y + x,
            ;
            assert(y > 0) by {
                if y == 0 {
                    assert(m2 / w == -1);
                    assert(m2 >= 0);
                    assert(m2 < 0) by (nonlinear_arith)
                        requires
                            m2 == w * (m2 / w) + m2 % w,
                            m2 / w == -1,
                            m2 % w < w,
                    ;
                }
            }
        }
    }
    if is_core(members, w, h, i) {
        if x > 0 && members.contains(i - 1) {
            assert(adjacent4(w, h, i, i - 1));
        } else {
            assert(adjacent4(w, h, i, i + 1));
        }
        if y > 0 && members.contains(i - w) {
            assert(adjacent4(w, h, i, i - w));
        } else {
            assert(i + w < w * h) by (nonlinear_arith)
                requires
                    i == w * y + x,
                    0 <= x < w,
                    y + 1 < h,
                    w > 0,
            ;
            assert(adjacent4(w, h, i, i + w));
        }
    }
}

/// Every pixel `core_upto` lists is a member of the region that passes the core
/// test, and every member among the first `k` that passes it is listed.
proof fn lemma_core_upto_members(comp: Seq<usize>, w: int, h: int, k: int)
    requires
        0 <= k <= comp.len(),
    ensures
        forall|t: int|
            0 <= t < core_upto(comp, w, h, k).len() ==> index_set(comp).contains(
                #[trigger] core_upto(comp, w, h, k)[t] as int,
            ) && is_core(index_set(comp), w, h, core_upto(comp, w, h, k)[t] as int),
        forall|j: int|
            0 <= j < k && is_core(index_set(comp), w, h, #[trigger] comp[j] as int) ==> core_upto(
                comp,
                w,
                h,
                k,
            ).contains(comp[j]),
    decreases k,
{
    if k > 0 {
        lemma_core_upto_members(comp, w, h, k - 1);
        let prev = core_upto(comp, w, h, k - 1);
        let cur = core_upto(comp, w, h, k);
        assert(index_set(comp).contains(comp[k - 1] as int));
        assert forall|t: int| 0 <= t < cur.len() implies index_set(comp).contains(
            #[trigger] cur[t] as int,
        ) && is_core(index_set(comp), w, h, cur[t] as int) by {
            if t < prev.len() {
                assert(cur[t] == prev[t]);
            }
        }
        assert forall|j: int|
            0 <= j < k && is_core(index_set(comp), w, h, #[trigger] comp[j] as int) implies cur.contains(
            comp[j],
        ) by {
            if j < k - 1 {
                let t = choose|t: int| 0 <= t < prev.len() && prev[t] == comp[j];
                assert(cur[t] == comp[j]);
            } else {
                assert(cur[cur.len() - 1] == comp[j]);
            }
        }
    }
}

/// Pixel `q` carries label `x`.
pub open spec fn label_is(labels: Seq<u16>, x: u16) -> spec_fn(int) -> bool {
    |q: int| labels[q] == x
}

/// Pixel `q` shares a side with pixel `p` and carries label `x`.
pub open spec fn beside_with_label(labels: Seq<u16>, w: int, h: int, p: int, x: u16) -> spec_fn(
    int,
) -> bool {
    |q: int| adjacent4(w, h, p, q) && labels[q] == x
}

/// The number of side neighbours `q` of pixel `p` that carry label `x`.
pub open spec fn sides_with_label(labels: Seq<u16>, w: int, h: int, p: int, x: u16) -> int {
    count_below(beside_with_label(labels, w, h, p, x), w * h)
}

/// The number of pairs of a region pixel `p` (counted at every position of the
/// region) and a side neighbour `q` of `p` such that `q` carries label `x`.
pub open spec fn boundary_pairs(labels: Seq<u16>, comp: Seq<usize>, w: int, h: int, x: u16) -> int
    decreases comp.len(),
{
    if comp.len() == 0 {
        0
    } else {
        boundary_pairs(labels, comp.drop_last(), w, h, x) + sides_with_label(
            labels,
            w,
            h,
            comp.last() as int,
            x,
        )
    }
}

/// A label other than the region's own and other than transparency.
pub open spec fn foreign(x: u16, label: u16) -> bool {
    x != label && x != TRANSPARENT_LABEL
}

proof fn lemma_occurrences_concat(a: Seq<u16>, b: Seq<u16>, x: u16)
    ensures
        occurrences(a + b, x) == occurrences(a, x) + occurrences(b, x),
    decreases b.len(),
{
    if b.len() > 0 {
        lemma_occurrences_concat(a, b.drop_last(), x);
        assert((a + b).drop_last() =~= a + b.drop_last());
        assert((a + b).last() == b.last());
    } else {
        assert(a + b =~= a);
    }
}

proof fn lemma_side_label_count(labels: Seq<u16>, nb: Seq<int>, label: u16, x: u16)
    ensures
        occurrences(side_labels(labels, nb, label), x) == (if foreign(x, label) {
            count_in(nb, label_is(labels, x))
        } else {
            0
        }),
    decreases nb.len(),
{
    if nb.len() > 0 {
        lemma_side_label_count(labels, nb.drop_last(), label, x);
        let l = labels[nb.last()];
        let tail = if l != label && l != TRANSPARENT_LABEL {
            seq![l]
        } else {
            Seq::<u16>::empty()
        };
        lemma_occurrences_concat(side_labels(labels, nb.drop_last(), label), tail, x);
        reveal_with_fuel(occurrences, 2);
        if tail.len() == 1 {
            assert(tail.drop_last() =~= Seq::<u16>::empty());
        }
    }
}

/// The foreign labels read around one region pixel are counted by its side
/// neighbours.
proof fn lemma_pixel_boundary(labels: Seq<u16>, w: int, h: int, p: int, label: u16, x: u16)
    requires
        w > 0,
        0 <= p < w * h,
    ensures
        occurrences(side_labels(labels, neighbors4(w, h, p), label), x) == (if foreign(x, label) {
            sides_with_label(labels, w, h, p, x)
        } else {
            0
        }),
{
    let nb = neighbors4(w, h, p);
    let pr = beside_with_label(labels, w, h, p, x);
    lemma_side_label_count(labels, nb, label, x);
    lemma_neighbors4_shape(w, h, p);
    assert forall|q: int| 0 <= q < w * h && #[trigger] pr(q) implies nb.contains(q) by {
        lemma_neighbors4(w, h, p, q);
    }
    lemma_count_by_list(nb, pr, w * h);
    assert forall|t: int| 0 <= t < nb.len() implies pr(#[trigger] nb[t]) == label_is(labels, x)(
        nb[t],
    ) by {
        assert(adjacent4(w, h, p, nb[t]));
    }
    lemma_count_in_agree(nb, pr, label_is(labels, x));
}

/// Every foreign label is read across the boundary of a region as often as there
/// are pairs of a region pixel and a side neighbour carrying it; no other label is
/// read at all.
pub proof fn lemma_boundary_labels_are_side_pairs(
    labels: Seq<u16>,
    comp: Seq<usize>,
    w: int,
    h: int,
    label: u16,
    x: u16,
)
    requires
        w > 0,
        forall|t: int| 0 <= t < comp.len() ==> #[trigger] comp[t] < w * h,
    ensures
        occurrences(boundary_labels(labels, comp, w, h, label), x) == (if foreign(x, label) {
            boundary_pairs(labels, comp, w, h, x)
        } else {
            0
        }),
    decreases comp.len(),
{
    if comp.len() > 0 {
        let rest = comp.drop_last();
        assert forall|t: int| 0 <= t < rest.len() implies #[trigger] rest[t] < w * h by {
            assert(rest[t] == comp[t]);
        }
        lemma_boundary_labels_are_side_pairs(labels, rest, w, h, label, x);
        let p = comp.last() as int;
        assert(comp[comp.len() - 1] < w * h);
        lemma_pixel_boundary(labels, w, h, p, label, x);
        lemma_occurrences_concat(
            boundary_labels(labels, rest, w, h, label),
            side_labels(labels, neighbors4(w, h, p), label),
            x,
        );
    }
}

} // verus!
