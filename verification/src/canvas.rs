//! Canvas sizing and the boolean output mask.
//!
//! The rasterization core needs only the size of the output surface; pixel
//! storage formats and color buffers are the caller's concern.  The core's
//! own artifact is `Mask`: a row-major grid of interior/exterior decisions.

use vstd::prelude::*;

verus! {

/// Width and height of a pixel grid — the only contract the rasterizer
/// needs in order to size its output.
#[derive(Debug, Clone, Copy, PartialEq)]
pub struct CanvasSpec {
    pub width: usize,
    pub height: usize,
}

impl CanvasSpec {
    pub fn new(width: usize, height: usize) -> (r: Self)
        ensures
            r.width == width,
            r.height == height,
    {
        Self { width, height }
    }
}

/// A boolean grid of shape height x width, stored row-major: cell `(r, c)`
/// is bit `r * width + c`.
#[derive(Debug, Clone, PartialEq)]
pub struct Mask {
    pub bits: Vec<bool>,
    pub width: usize,
    pub height: usize,
}

/// `0 <= r * w + c < h * w` for a cell inside the grid.
proof fn lemma_grid_index(r: int, c: int, w: int, h: int)
    requires
        0 <= r < h,
        0 <= c < w,
    ensures
        0 <= r * w + c < h * w,
{
    assert(0 <= r * w + c < h * w) by (nonlinear_arith)
        requires
            0 <= r < h,
            0 <= c < w,
    ;
}

/// Distinct cells have distinct row-major indices.
proof fn lemma_grid_index_injective(r1: int, c1: int, r2: int, c2: int, w: int)
    requires
        0 <= r1,
        0 <= r2,
        0 <= c1 < w,
        0 <= c2 < w,
        r1 * w + c1 == r2 * w + c2,
    ensures
        r1 == r2,
        c1 == c2,
{
    assert(r1 == r2 && c1 == c2) by (nonlinear_arith)
        requires
            0 <= r1,
            0 <= r2,
            0 <= c1 < w,
            0 <= c2 < w,
            r1 * w + c1 == r2 * w + c2,
    ;
}

impl Mask {
    /// The storage really is a height x width grid.
    pub open spec fn wf(self) -> bool {
        self.bits@.len() == self.height * self.width
    }

    /// The interior/exterior decision stored for pixel row `r`, column `c`.
    pub open spec fn cell(self, r: int, c: int) -> bool {
        self.bits@[r * self.width + c]
    }

    /// An all-false (all exterior) mask of the given size.
    pub fn new_false(spec: &CanvasSpec) -> (m: Mask)
        requires
            spec.height * spec.width <= usize::MAX,
        ensures
            m.wf(),
            m.width == spec.width,
            m.height == spec.height,
            forall|r: int, c: int|
                0 <= r < spec.height && 0 <= c < spec.width ==> !m.cell(r, c),
    {
        let total: usize = spec.height * spec.width;
        let mut bits: Vec<bool> = Vec::new();
        for i in 0..total
            invariant
                bits@.len() == i,
                forall|j: int| 0 <= j < i ==> !bits@[j],
        {
            bits.push(false);
        }
        let m = Mask { bits, width: spec.width, height: spec.height };
        proof {
            assert forall|r: int, c: int|
                0 <= r < spec.height && 0 <= c < spec.width implies !m.cell(r, c) by {
                lemma_grid_index(r, c, spec.width as int, spec.height as int);
                assert(m.height * m.width == spec.height * spec.width);
            }
        }
        m
    }

    pub fn at(&self, r: usize, c: usize) -> (v: bool)
        requires
            self.wf(),
            r < self.height,
            c < self.width,
        ensures
            v == self.cell(r as int, c as int),
    {
        let n = self.bits.len();
        proof {
            lemma_grid_index(r as int, c as int, self.width as int, self.height as int);
        }
        self.bits[r * self.width + c]
    }

    /// Stores `v` at pixel `(r, c)`, leaving every other cell unchanged.
    pub fn set(&mut self, r: usize, c: usize, v: bool)
        requires
            old(self).wf(),
            r < old(self).height,
            c < old(self).width,
        ensures
            final(self).wf(),
            final(self).width == old(self).width,
            final(self).height == old(self).height,
            final(self).cell(r as int, c as int) == v,
            forall|r2: int, c2: int|
                0 <= r2 < old(self).height && 0 <= c2 < old(self).width && !(r2 == r as int && c2
                    == c as int) ==> final(self).cell(r2, c2) == old(self).cell(r2, c2),
    {
        let n = self.bits.len();
        proof {
            lemma_grid_index(r as int, c as int, self.width as int, self.height as int);
        }
        let idx: usize = r * self.width + c;
        self.bits.set(idx, v);
        proof {
            assert forall|r2: int, c2: int|
                0 <= r2 < old(self).height && 0 <= c2 < old(self).width && !(r2 == r as int && c2
                    == c as int) implies self.cell(r2, c2) == old(self).cell(r2, c2) by {
                lemma_grid_index(r2, c2, old(self).width as int, old(self).height as int);
                if r2 * old(self).width + c2 == r as int * old(self).width + c as int {
                    lemma_grid_index_injective(
                        r2,
                        c2,
                        r as int,
                        c as int,
                        old(self).width as int,
                    );
                }
            }
        }
    }
}

} // verus!
