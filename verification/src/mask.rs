//! The integer side of the line-art mask: premultiplied 8-bit codes, channel
//! medians, the histogram of background distances and the foreground it splits off.

use vstd::prelude::*;

use crate::refusals::LineArtRefusal;

verus! {

/// A colour channel premultiplied by alpha, rounded to the nearest code.
pub open spec fn premul_channel(c: int, alpha: int) -> int {
    (c * alpha + 127) / 255
}

/// Premultiplies the colour channels of a straight RGBA pixel by its alpha, rounding
/// to the nearest 8-bit code; alpha is kept.
pub fn premul_codes(pixel: [u8; 4]) -> (r: [u8; 4])
    ensures
        r[0] == premul_channel(pixel[0] as int, pixel[3] as int),
        r[1] == premul_channel(pixel[1] as int, pixel[3] as int),
        r[2] == premul_channel(pixel[2] as int, pixel[3] as int),
        r[3] == pixel[3],
{
    let alpha = pixel[3] as u16;
    proof {
        lemma_premul_bounds(pixel[0] as int, alpha as int);
        lemma_premul_bounds(pixel[1] as int, alpha as int);
        lemma_premul_bounds(pixel[2] as int, alpha as int);
    }
    [
        ((pixel[0] as u16 * alpha + 127) / 255) as u8,
        ((pixel[1] as u16 * alpha + 127) / 255) as u8,
        ((pixel[2] as u16 * alpha + 127) / 255) as u8,
        pixel[3],
    ]
}

/// The products fit and the premultiplied code is a code.
proof fn lemma_premul_bounds(c: int, a: int)
    requires
        0 <= c <= 255,
        0 <= a <= 255,
    ensures
        0 <= c * a + 127 <= 65152,
        0 <= premul_channel(c, a) <= 255,
{
    assert(0 <= c * a <= 65025) by (nonlinear_arith)
        requires
            0 <= c <= 255,
            0 <= a <= 255,
    ;
}

/// Premultiplication never exceeds alpha, keeps an opaque pixel's colour, and
/// zeroes the colour of a transparent pixel.
pub proof fn lemma_premul_laws(c: int, a: int)
    requires
        0 <= c <= 255,
        0 <= a <= 255,
    ensures
        premul_channel(c, a) <= a,
        a == 255 ==> premul_channel(c, a) == c,
        a == 0 ==> premul_channel(c, a) == 0,
        c == 0 ==> premul_channel(c, a) == 0,
{
    assert(c * a <= 255 * a) by (nonlinear_arith)
        requires
            0 <= c <= 255,
            0 <= a,
    ;
    assert(c * 255 == 255 * c) by (nonlinear_arith);
    assert(c * 0 == 0) by (nonlinear_arith);
    assert(0 * a == 0) by (nonlinear_arith);
}

/// How many entries of `s` equal `v`.
pub open spec fn count_eq(s: Seq<u8>, v: int) -> nat
    decreases s.len(),
{
    if s.len() == 0 {
        0
    } else {
        count_eq(s.drop_last(), v) + if s.last() == v {
            1nat
        } else {
            0nat
        }
    }
}

/// How many entries of `s` are below `v`.
pub open spec fn count_below(s: Seq<u8>, v: int) -> nat
    decreases s.len(),
{
    if s.len() == 0 {
        0
    } else {
        count_below(s.drop_last(), v) + if s.last() < v {
            1nat
        } else {
            0nat
        }
    }
}

/// How many entries of `s` are above `t`.
pub open spec fn count_above(s: Seq<u8>, t: int) -> nat
    decreases s.len(),
{
    if s.len() == 0 {
        0
    } else {
        count_above(s.drop_last(), t) + if s.last() > t {
            1nat
        } else {
            0nat
        }
    }
}

/// `m` is the median of `s` as the middle entry of `s` sorted: entry number
/// `len / 2`, counting from zero.
pub open spec fn is_median(s: Seq<u8>, m: int) -> bool {
    count_below(s, m) <= s.len() / 2 < count_below(s, m) + count_eq(s, m)
}

/// One channel of the pixels named by `indices`, in index order.
pub open spec fn channel_values(pixels: Seq<[u8; 4]>, indices: Seq<usize>, c: int) -> Seq<u8> {
    indices.map_values(|i: usize| pixels[i as int][c])
}

proof fn lemma_counts_bounded(s: Seq<u8>, v: int)
    ensures
        count_eq(s, v) <= s.len(),
        count_below(s, v) <= s.len(),
        count_above(s, v) <= s.len(),
    decreases s.len(),
{
    if s.len() > 0 {
        lemma_counts_bounded(s.drop_last(), v);
    }
}

proof fn lemma_counts_push(s: Seq<u8>, x: u8, v: int)
    ensures
        count_eq(s.push(x), v) == count_eq(s, v) + if x == v {
            1nat
        } else {
            0nat
        },
        count_below(s.push(x), v) == count_below(s, v) + if x < v {
            1nat
        } else {
            0nat
        },
        count_above(s.push(x), v) == count_above(s, v) + if x > v {
            1nat
        } else {
            0nat
        },
{
    assert(s.push(x).drop_last() =~= s);
}

/// Counting below the next value adds the entries equal to this one.
proof fn lemma_below_step(s: Seq<u8>, v: int)
    ensures
        count_below(s, v + 1) == count_below(s, v) + count_eq(s, v),
    decreases s.len(),
{
    if s.len() > 0 {
        lemma_below_step(s.drop_last(), v);
    }
}

/// No byte is below zero.
proof fn lemma_below_zero(s: Seq<u8>)
    ensures
        count_below(s, 0) == 0,
    decreases s.len(),
{
    if s.len() > 0 {
        lemma_below_zero(s.drop_last());
    }
}

/// Every byte is below 256.
proof fn lemma_below_all(s: Seq<u8>)
    ensures
        count_below(s, 256) == s.len(),
    decreases s.len(),
{
    if s.len() > 0 {
        lemma_below_all(s.drop_last());
    }
}

/// How many times each byte value occurs.
fn histogram(values: &Vec<u8>) -> (h: Vec<u64>)
    ensures
        h@.len() == 256,
        forall|v: int| 0 <= v < 256 ==> #[trigger] h@[v] == count_eq(values@, v),
{
    let mut h: Vec<u64> = Vec::new();
    while h.len() < 256
        invariant
            h@.len() <= 256,
            forall|v: int| 0 <= v < h@.len() ==> h@[v] == 0,
        decreases 256 - h.len(),
    {
        h.push(0);
    }
    let mut k: usize = 0;
    while k < values.len()
        invariant
            k <= values@.len(),
            h@.len() == 256,
            forall|v: int| 0 <= v < 256 ==> #[trigger] h@[v] == count_eq(values@.take(k as int), v),
        decreases values.len() - k,
    {
        let x = values[k];
        proof {
            assert(values@.take(k + 1) =~= values@.take(k as int).push(x));
            assert forall|v: int| 0 <= v < 256 implies count_eq(values@.take(k + 1), v)
                == count_eq(values@.take(k as int), v) + if x == v {
                1nat
            } else {
                0nat
            } by {
                lemma_counts_push(values@.take(k as int), x, v);
            }
            lemma_counts_bounded(values@.take(k as int), x as int);
        }
        let c = h[x as usize];
        h.set(x as usize, c + 1);
        k = k + 1;
    }
    assert(values@.take(k as int) =~= values@);
    h
}

/// The histogram of per-pixel background distances, or `NoContrast` when every
/// distance is zero.
pub fn contrast_histogram(distances: &Vec<u8>) -> (r: Result<Vec<u64>, LineArtRefusal>)
    ensures
        r is Ok <==> count_eq(distances@, 0) < distances@.len(),
        r is Err ==> r == Err::<Vec<u64>, LineArtRefusal>(LineArtRefusal::NoContrast),
        r matches Ok(h) ==> h@.len() == 256 && forall|v: int|
            0 <= v < 256 ==> #[trigger] h@[v] == count_eq(distances@, v),
{
    let h = histogram(distances);
    proof {
        lemma_counts_bounded(distances@, 0);
    }
    if h[0] as usize == distances.len() {
        Err(LineArtRefusal::NoContrast)
    } else {
        Ok(h)
    }
}

/// The foreground: the pixels whose background distance is above the threshold.
/// Refused when that is no pixel or every pixel.
pub fn foreground_mask(distances: &Vec<u8>, threshold: u8) -> (r: Result<
    Vec<bool>,
    LineArtRefusal,
>)
    ensures
        r is Ok <==> 0 < count_above(distances@, threshold as int) < distances@.len(),
        r is Err ==> r == Err::<Vec<bool>, LineArtRefusal>(LineArtRefusal::DegenerateForeground),
        r matches Ok(m) ==> m@.len() == distances@.len() && forall|i: int|
            0 <= i < m@.len() ==> #[trigger] m@[i] == (distances@[i] > threshold),
{
    let mut mask: Vec<bool> = Vec::new();
    let mut count: usize = 0;
    while mask.len() < distances.len()
        invariant
            mask@.len() <= distances@.len(),
            count == count_above(distances@.take(mask@.len() as int), threshold as int),
            forall|i: int| 0 <= i < mask@.len() ==> #[trigger] mask@[i] == (distances@[i]
                > threshold),
        decreases distances.len() - mask.len(),
    {
        let k = mask.len();
        let x = distances[k];
        proof {
            assert(distances@.take(k + 1) =~= distances@.take(k as int).push(x));
            lemma_counts_push(distances@.take(k as int), x, threshold as int);
            lemma_counts_bounded(distances@.take(k as int), threshold as int);
        }
        mask.push(x > threshold);
        if x > threshold {
            count = count + 1;
        }
    }
    assert(distances@.take(mask@.len() as int) =~= distances@);
    assert(count == count_above(distances@, threshold as int));
    proof {
        lemma_counts_bounded(distances@, threshold as int);
    }
    if count == 0 || count == distances.len() {
        Err(LineArtRefusal::DegenerateForeground)
    } else {
        Ok(mask)
    }
}

/// The median byte of a non-empty list.
fn median_byte(values: &Vec<u8>) -> (m: u8)
    requires
        values@.len() > 0,
    ensures
        is_median(values@, m as int),
{
    let h = histogram(values);
    let half = values.len() / 2;
    proof {
        lemma_below_zero(values@);
    }
    let mut cum: usize = 0;
    let mut v: usize = 0;
    while v < 256
        invariant
            h@.len() == 256,
            forall|x: int| 0 <= x < 256 ==> #[trigger] h@[x] == count_eq(values@, x),
            half == values@.len() / 2,
            values@.len() > 0,
            v <= 256,
            cum == count_below(values@, v as int),
            cum <= half,
        decreases 256 - v,
    {
        proof {
            lemma_below_step(values@, v as int);
            lemma_counts_bounded(values@, v as int);
            assert(h@[v as int] == count_eq(values@, v as int));
            assert(values@.len() == values.len());
            assert(h@[v as int] <= usize::MAX);
        }
        let c = h[v] as usize;
        if c > half - cum {
            return v as u8;
        }
        cum = cum + c;
        v = v + 1;
    }
    proof {
        lemma_below_all(values@);
    }
    0
}

/// The per-channel median of the pixels named by `indices`.
pub fn channel_medians(pixels: &Vec<[u8; 4]>, indices: &Vec<usize>) -> (r: [u8; 4])
    requires
        indices@.len() > 0,
        forall|j: int| 0 <= j < indices@.len() ==> #[trigger] indices@[j] < pixels@.len(),
    ensures
        forall|c: int| 0 <= c < 4 ==> is_median(channel_values(pixels@, indices@, c), r[c] as int),
{
    let mut out: [u8; 4] = [0, 0, 0, 0];
    let mut c: usize = 0;
    while c < 4
        invariant
            indices@.len() > 0,
            forall|j: int| 0 <= j < indices@.len() ==> #[trigger] indices@[j] < pixels@.len(),
            c <= 4,
            forall|d: int| 0 <= d < c ==> is_median(
                channel_values(pixels@, indices@, d),
                #[trigger] out[d] as int,
            ),
        decreases 4 - c,
    {
        let mut values: Vec<u8> = Vec::new();
        let mut j: usize = 0;
        while j < indices.len()
            invariant
                c < 4,
                j <= indices@.len(),
                forall|t: int| 0 <= t < indices@.len() ==> #[trigger] indices@[t] < pixels@.len(),
                values@ == channel_values(pixels@, indices@.take(j as int), c as int),
            decreases indices.len() - j,
        {
            let p = pixels[indices[j]];
            values.push(p[c]);
            proof {
                assert(channel_values(pixels@, indices@.take(j + 1), c as int) =~= channel_values(
                    pixels@,
                    indices@.take(j as int),
                    c as int,
                ).push(p[c as int]));
            }
            j = j + 1;
        }
        assert(indices@.take(j as int) =~= indices@);
        let m = median_byte(&values);
        out.set(c, m);
        c = c + 1;
    }
    out
}

} // verus!
