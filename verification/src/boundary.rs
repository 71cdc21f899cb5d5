//! Identities of contour vertices on the pixel-centre lattice, and the status of an
//! extracted boundary.
//!
//! A contour vertex lives on an edge of the lattice whose nodes are pixel centres,
//! and is identified by that edge: horizontal edges are numbered first, row by row,
//! then vertical edges, row by row. Two cells that share an edge therefore produce
//! the same vertex identity exactly, with no distance tolerance in the linking.

use vstd::prelude::*;
use vstd::arithmetic::div_mod::lemma_fundamental_div_mod_converse;

verus! {

/// Whether the extracted chains needed a saddle resolution.
#[derive(Debug, Clone, PartialEq, Eq)]
pub enum ChainStatus {
    WellFormed,
    /// At least one 2x2 cell had a diagonal configuration; resolved by the cell mean
    /// and reported with the count.
    Ambiguous { saddle_cells: u64 },
}

/// The lattice of pixel centres of a `w` by `h` image.
#[derive(Debug, Clone, Copy, PartialEq, Eq, Structural)]
pub struct Lattice {
    pub w: usize,
    pub h: usize,
}

/// Number of horizontal edges of the lattice.
pub open spec fn h_count(w: int, h: int) -> int {
    (w - 1) * h
}

/// Identity of the horizontal edge from node `(i, j)` to `(i + 1, j)`.
pub open spec fn spec_h_edge(w: int, i: int, j: int) -> int {
    j * (w - 1) + i
}

/// Identity of the vertical edge from node `(i, j)` to `(i, j + 1)`.
pub open spec fn spec_v_edge(w: int, h: int, i: int, j: int) -> int {
    h_count(w, h) + j * w + i
}

/// Whether edge `e` lies on the outer ring of the lattice: a horizontal edge in the
/// first or last row, or a vertical edge in the first or last column (the offset of a
/// vertical edge is read as a `usize`).
pub open spec fn spec_on_border(w: int, h: int, e: int) -> bool {
    if e < h_count(w, h) {
        let j = e / (w - 1);
        j == 0 || j == h - 1
    } else {
        let i = ((e - h_count(w, h)) as usize as int) % w;
        i == 0 || i == w - 1
    }
}

impl Lattice {
    /// Identity of the horizontal edge from node `(i, j)` to `(i + 1, j)`.
    pub fn h_edge(&self, i: usize, j: usize) -> (e: u64)
        requires
            self.w >= 1,
            spec_h_edge(self.w as int, i as int, j as int) <= usize::MAX,
        ensures
            e == spec_h_edge(self.w as int, i as int, j as int),
    {
        proof {
            assert(j * (self.w - 1) <= spec_h_edge(self.w as int, i as int, j as int));
        }
        (j * (self.w - 1) + i) as u64
    }

    /// Identity of the vertical edge from node `(i, j)` to `(i, j + 1)`.
    pub fn v_edge(&self, i: usize, j: usize) -> (e: u64)
        requires
            self.w >= 1,
            spec_v_edge(self.w as int, self.h as int, i as int, j as int) <= usize::MAX,
        ensures
            e == spec_v_edge(self.w as int, self.h as int, i as int, j as int),
    {
        proof {
            assert(0 <= (self.w - 1) * self.h) by (nonlinear_arith)
                requires
                    self.w >= 1,
            ;
            assert(0 <= j * self.w) by (nonlinear_arith);
        }
        (((self.w - 1) * self.h) + j * self.w + i) as u64
    }

    /// True when this edge lies on the outer ring of the lattice, which is where an
    /// open chain is allowed to end.
    pub fn on_border(&self, e: u64) -> (r: bool)
        requires
            self.w >= 1,
            h_count(self.w as int, self.h as int) <= usize::MAX,
        ensures
            r == spec_on_border(self.w as int, self.h as int, e as int),
    {
        proof {
            assert(0 <= (self.w - 1) * self.h) by (nonlinear_arith)
                requires
                    self.w >= 1,
            ;
        }
        let hcount = ((self.w - 1) * self.h) as u64;
        if e < hcount {
            proof {
                if self.w == 1 || self.h == 0 {
                    assert((self.w - 1) * self.h == 0) by (nonlinear_arith)
                        requires
                            self.w == 1 || self.h == 0,
                    ;
                }
            }
            let j = (e as usize) / (self.w - 1);
            j == 0 || j == self.h - 1
        } else {
            let k = (e - hcount) as usize;
            let i = k % self.w;
            i == 0 || i == self.w - 1
        }
    }
}

/// Horizontal and vertical edges get distinct identities, and each family numbers
/// its edges one-to-one; a horizontal edge is on the border exactly in the first and
/// last row, a vertical edge exactly in the first and last column.
pub proof fn lemma_edge_identities(w: int, h: int, i: int, j: int, i2: int, j2: int)
    requires
        w >= 2,
        h >= 2,
        w * h <= usize::MAX,
    ensures
        0 <= i < w - 1 && 0 <= j < h ==> 0 <= spec_h_edge(w, i, j) < h_count(w, h),
        0 <= i < w && 0 <= j < h - 1 ==> h_count(w, h) <= spec_v_edge(w, h, i, j),
        0 <= i < w - 1 && 0 <= j < h && 0 <= i2 < w - 1 && 0 <= j2 < h && spec_h_edge(w, i, j)
            == spec_h_edge(w, i2, j2) ==> i == i2 && j == j2,
        0 <= i < w && 0 <= j < h - 1 && 0 <= i2 < w && 0 <= j2 < h - 1 && spec_v_edge(w, h, i, j)
            == spec_v_edge(w, h, i2, j2) ==> i == i2 && j == j2,
        0 <= i < w - 1 && 0 <= j < h ==> (spec_on_border(w, h, spec_h_edge(w, i, j)) <==> (j == 0
            || j == h - 1)),
        0 <= i < w && 0 <= j < h - 1 ==> (spec_on_border(w, h, spec_v_edge(w, h, i, j)) <==> (i
            == 0 || i == w - 1)),
{
    if 0 <= i < w - 1 && 0 <= j < h {
        assert(0 <= spec_h_edge(w, i, j) < h_count(w, h)) by (nonlinear_arith)
            requires
                w >= 2,
                0 <= i < w - 1,
                0 <= j < h,
        ;
        lemma_fundamental_div_mod_converse(spec_h_edge(w, i, j), w - 1, j, i);
    }
    if 0 <= i < w && 0 <= j < h - 1 {
        assert(0 <= j * w + i < w * h) by (nonlinear_arith)
            requires
                0 <= j < h - 1,
                0 <= i < w,
                w >= 2,
        ;
        lemma_fundamental_div_mod_converse(j * w + i, w, j, i);
    }
    if 0 <= i < w - 1 && 0 <= j < h && 0 <= i2 < w - 1 && 0 <= j2 < h && spec_h_edge(w, i, j)
        == spec_h_edge(w, i2, j2) {
        lemma_fundamental_div_mod_converse(spec_h_edge(w, i, j), w - 1, j, i);
        lemma_fundamental_div_mod_converse(spec_h_edge(w, i2, j2), w - 1, j2, i2);
    }
    if 0 <= i < w && 0 <= j < h - 1 && 0 <= i2 < w && 0 <= j2 < h - 1 && spec_v_edge(w, h, i, j)
        == spec_v_edge(w, h, i2, j2) {
        lemma_fundamental_div_mod_converse(j * w + i, w, j, i);
        lemma_fundamental_div_mod_converse(j2 * w + i2, w, j2, i2);
    }
}

} // verus!
