//! The integer checks of a forced boundary fit: one span family more than there
//! are breakpoints, and the breakpoints strictly increasing strictly inside the
//! chain's sample range. The spans then run between consecutive bounds.

use vstd::prelude::*;

verus! {

/// Why a forced fit's shape was refused before any fitting.
#[derive(Debug, Clone, PartialEq, Eq)]
pub enum ForcedShapeRefusal {
    /// The family list is not one longer than the breakpoint list.
    ShapeMismatch { families: usize, breakpoints: usize },
    /// A breakpoint does not lie strictly after the previous one and strictly
    /// before the last sample.
    BreakpointOutOfRange { breakpoint: usize, previous: usize, last_sample: usize },
}

/// The bound before breakpoint `i`: the previous breakpoint, or the first sample.
pub open spec fn previous_bound(bps: Seq<usize>, i: int) -> usize {
    if i == 0 {
        0
    } else {
        bps[i - 1]
    }
}

/// Breakpoint `i` lies strictly after the bound before it and strictly before the
/// last sample.
pub open spec fn breakpoint_fits(bps: Seq<usize>, i: int, last: usize) -> bool {
    previous_bound(bps, i) < bps[i] < last
}

/// Breakpoint `i` is the first one that does not fit.
pub open spec fn first_misfit(bps: Seq<usize>, i: int, last: usize) -> bool {
    &&& 0 <= i < bps.len()
    &&& !breakpoint_fits(bps, i, last)
    &&& forall|j: int| 0 <= j < i ==> #[trigger] breakpoint_fits(bps, j, last)
}

/// Check the shape of a forced fit over a chain whose last sample is `last`, and
/// give the span bounds: the first sample, the breakpoints, the last sample.
/// Refused first on the lengths, then at the first breakpoint out of range.
pub fn forced_bounds(families: usize, breakpoints: &Vec<usize>, last: usize) -> (r: Result<
    Vec<usize>,
    ForcedShapeRefusal,
>)
    ensures
        families != breakpoints@.len() + 1 ==> r == Err::<Vec<usize>, ForcedShapeRefusal>(
            ForcedShapeRefusal::ShapeMismatch { families, breakpoints: breakpoints@.len() as usize },
        ),
        r is Ok <==> families == breakpoints@.len() + 1 && forall|i: int|
            0 <= i < breakpoints@.len() ==> #[trigger] breakpoint_fits(breakpoints@, i, last),
        r matches Err(ForcedShapeRefusal::BreakpointOutOfRange { breakpoint, previous, last_sample })
            ==> exists|i: int|
            #[trigger] first_misfit(breakpoints@, i, last) && breakpoint == breakpoints@[i]
                && previous == previous_bound(breakpoints@, i) && last_sample == last,
        r matches Ok(bounds) ==> bounds@ == seq![0usize] + breakpoints@ + seq![last],
{
    if families == 0 || families - 1 != breakpoints.len() {
        return Err(ForcedShapeRefusal::ShapeMismatch { families, breakpoints: breakpoints.len() });
    }
    let mut previous: usize = 0;
    let mut i: usize = 0;
    while i < breakpoints.len()
        invariant
            families == breakpoints@.len() + 1,
            i <= breakpoints@.len(),
            previous == previous_bound(breakpoints@, i as int),
            forall|j: int| 0 <= j < i ==> #[trigger] breakpoint_fits(breakpoints@, j, last),
        decreases breakpoints@.len() - i,
    {
        let breakpoint = breakpoints[i];
        if breakpoint <= previous || breakpoint >= last {
            proof {
                assert(first_misfit(breakpoints@, i as int, last));
            }
            return Err(ForcedShapeRefusal::BreakpointOutOfRange { breakpoint, previous, last_sample: last });
        }
        previous = breakpoint;
        i = i + 1;
    }
    let mut bounds: Vec<usize> = Vec::new();
    bounds.push(0);
    let mut k: usize = 0;
    while k < breakpoints.len()
        invariant
            families == breakpoints@.len() + 1,
            forall|j: int| 0 <= j < breakpoints@.len() ==> #[trigger] breakpoint_fits(breakpoints@, j, last),
            k <= breakpoints@.len(),
            bounds@ == seq![0usize] + breakpoints@.take(k as int),
        decreases breakpoints@.len() - k,
    {
        bounds.push(breakpoints[k]);
        assert(breakpoints@.take(k + 1) =~= breakpoints@.take(k as int).push(breakpoints@[k as int]));
        k = k + 1;
    }
    bounds.push(last);
    assert(breakpoints@.take(k as int) =~= breakpoints@);
    assert(bounds@ =~= seq![0usize] + breakpoints@ + seq![last]);
    Ok(bounds)
}

} // verus!
