//! Filling a polygon into a color surface.
//!
//! The verified part computes, per scan row, the half-open column ranges
//! `[low, high)` that lie inside the polygon; applying paint to a pixel
//! buffer is left to the caller, which walks these spans.

use vstd::prelude::*;

use crate::algorithms::scan_line::interior_at;
use crate::algorithms::scan_line::mask_matches;
use crate::algorithms::scan_line::poly_ok;
use crate::algorithms::scan_line::polygon_interior;
pub use crate::algorithms::scan_line::FillRule;
use crate::algorithms::scan_line::RASTER_SIZE_LIMIT;
use crate::canvas::CanvasSpec;
use crate::canvas::Mask;
use crate::geometry::point::Point;
use crate::geometry::polygon::Polygon;
use crate::nums::Rat;

verus! {

/// The ranges are a sound span decomposition of one scan row: each is a
/// nonempty half-open column interval inside the canvas, they appear left
/// to right without overlap, and together they cover exactly the interior
/// columns of the row.
pub open spec fn row_spans_match(
    s: Seq<(usize, usize)>,
    vs: Seq<Point<Rat>>,
    rule: FillRule,
    row: int,
    width: int,
) -> bool {
    (forall|k: int| 0 <= k < s.len() ==> (#[trigger] s[k]).0 < s[k].1 <= width) && (forall|
        k1: int,
        k2: int,
    |
        0 <= k1 < k2 < s.len() ==> (#[trigger] s[k1]).1 <= (#[trigger] s[k2]).0) && (forall|c: int|
        0 <= c < width ==> ((exists|k: int|
            0 <= k < s.len() && ((#[trigger] s[k]).0 <= c < s[k].1)) <==> interior_at(
            vs,
            rule,
            row,
            c,
        )))
}

/// Extracts the maximal runs of true cells from one mask row.
fn mask_row_spans(mask: &Mask, r: usize) -> (spans: Vec<(usize, usize)>)
    requires
        mask.wf(),
        r < mask.height,
    ensures
        forall|k: int| 0 <= k < spans@.len() ==> (#[trigger] spans@[k]).0 < spans@[k].1
            <= mask.width,
        forall|k1: int, k2: int|
            0 <= k1 < k2 < spans@.len() ==> (#[trigger] spans@[k1]).1 <= (#[trigger] spans@[k2]).0,
        forall|c: int|
            0 <= c < mask.width ==> ((exists|k: int|
                0 <= k < spans@.len() && ((#[trigger] spans@[k]).0 <= c < spans@[k].1)) <==> mask
                .cell(r as int, c)),
{
    let width = mask.width;
    let mut spans: Vec<(usize, usize)> = Vec::new();
    let mut start: usize = 0;
    let mut in_run: bool = false;
    for c in 0..width
        invariant
            mask.wf(),
            r < mask.height,
            width == mask.width,
            in_run ==> start < c,
            in_run ==> forall|c2: int| start <= c2 < c ==> mask.cell(r as int, c2),
            forall|k: int|
                0 <= k < spans@.len() ==> (#[trigger] spans@[k]).0 < spans@[k].1 <= (if in_run {
                    start as int
                } else {
                    c as int
                }),
            forall|k1: int, k2: int|
                0 <= k1 < k2 < spans@.len() ==> (#[trigger] spans@[k1]).1 <= (
                #[trigger] spans@[k2]).0,
            forall|c2: int|
                0 <= c2 < (if in_run {
                    start as int
                } else {
                    c as int
                }) ==> ((exists|k: int|
                    0 <= k < spans@.len() && ((#[trigger] spans@[k]).0 <= c2 < spans@[k].1)) <==> mask
                    .cell(r as int, c2)),
    {
        let v = mask.at(r, c);
        if v && !in_run {
            in_run = true;
            start = c;
        } else if !v && in_run {
            let ghost spans0 = spans@;
            spans.push((start, c));
            in_run = false;
            proof {
                assert forall|c2: int|
                    0 <= c2 < c + 1 implies ((exists|k: int|
                        0 <= k < spans@.len() && ((#[trigger] spans@[k]).0 <= c2 < spans@[k].1))
                    <==> mask.cell(r as int, c2)) by {
                    if c2 < start {
                        if exists|k: int|
                            0 <= k < spans0.len() && ((#[trigger] spans0[k]).0 <= c2 < spans0[k].1) {
                            let w = choose|k: int|
                                0 <= k < spans0.len() && ((#[trigger] spans0[k]).0 <= c2
                                    < spans0[k].1);
                            assert(spans@[w].0 <= c2 < spans@[w].1);
                        }
                        if mask.cell(r as int, c2) {
                            let w = choose|k: int|
                                0 <= k < spans0.len() && ((#[trigger] spans0[k]).0 <= c2
                                    < spans0[k].1);
                            assert(spans@[w].0 <= c2 < spans@[w].1);
                        }
                        if exists|k: int|
                            0 <= k < spans@.len() && ((#[trigger] spans@[k]).0 <= c2 < spans@[k].1) {
                            let w = choose|k: int|
                                0 <= k < spans@.len() && ((#[trigger] spans@[k]).0 <= c2
                                    < spans@[k].1);
                            if w < spans0.len() {
                                assert(spans0[w].0 <= c2 < spans0[w].1);
                            }
                        }
                    } else {
                        // columns of the run just closed, and the closing column
                        assert(spans@[spans@.len() - 1] == (start, c));
                        if c2 < c {
                            assert(mask.cell(r as int, c2));
                            assert(spans@[spans@.len() - 1].0 <= c2 < spans@[spans@.len() - 1].1);
                        } else {
                            if exists|k: int|
                                0 <= k < spans@.len() && ((#[trigger] spans@[k]).0 <= c2
                                    < spans@[k].1) {
                                let w = choose|k: int|
                                    0 <= k < spans@.len() && ((#[trigger] spans@[k]).0 <= c2
                                        < spans@[k].1);
                                assert(spans@[w].1 <= c);
                            }
                        }
                    }
                }
            }
        }
    }
    if in_run {
        let ghost spans0 = spans@;
        spans.push((start, width));
        proof {
            assert forall|c2: int|
                0 <= c2 < width implies ((exists|k: int|
                    0 <= k < spans@.len() && ((#[trigger] spans@[k]).0 <= c2 < spans@[k].1)) <==> mask
                    .cell(r as int, c2)) by {
                if c2 < start {
                    if exists|k: int|
                        0 <= k < spans0.len() && ((#[trigger] spans0[k]).0 <= c2 < spans0[k].1) {
                        let w = choose|k: int|
                            0 <= k < spans0.len() && ((#[trigger] spans0[k]).0 <= c2 < spans0[k].1);
                        assert(spans@[w].0 <= c2 < spans@[w].1);
                    }
                    if mask.cell(r as int, c2) {
                        let w = choose|k: int|
                            0 <= k < spans0.len() && ((#[trigger] spans0[k]).0 <= c2 < spans0[k].1);
                        assert(spans@[w].0 <= c2 < spans@[w].1);
                    }
                    if exists|k: int|
                        0 <= k < spans@.len() && ((#[trigger] spans@[k]).0 <= c2 < spans@[k].1) {
                        let w = choose|k: int|
                            0 <= k < spans@.len() && ((#[trigger] spans@[k]).0 <= c2 < spans@[k].1);
                        if w < spans0.len() {
                            assert(spans0[w].0 <= c2 < spans0[w].1);
                        }
                    }
                } else {
                    assert(mask.cell(r as int, c2));
                    assert(spans@[spans@.len() - 1].0 <= c2 < spans@[spans@.len() - 1].1);
                }
            }
        }
    }
    spans
}

/// Computes, for every scan row of the canvas, the half-open interior
/// column ranges of the polygon under the fill rule.  A caller that
/// paints pixels fills columns `[low, high)` of each listed row.
pub fn interior_spans(poly: Polygon<Rat>, spec: CanvasSpec, rule: FillRule) -> (spans: Vec<
    Vec<(usize, usize)>,
>)
    requires
        poly_ok(poly.vertices@),
        spec.width <= RASTER_SIZE_LIMIT,
        spec.height <= RASTER_SIZE_LIMIT,
        spec.height * spec.width <= usize::MAX,
    ensures
        spans@.len() == spec.height,
        forall|r: int|
            0 <= r < spec.height ==> row_spans_match(
                (#[trigger] spans@[r])@,
                poly.vertices@,
                rule,
                r,
                spec.width as int,
            ),
{
    let ghost vs = poly.vertices@;
    let mask = polygon_interior(poly, spec, rule);
    let mut spans: Vec<Vec<(usize, usize)>> = Vec::new();
    let height = spec.height;
    for r in 0..height
        invariant
            mask.wf(),
            mask.width == spec.width,
            mask.height == spec.height,
            height == spec.height,
            mask_matches(mask, vs, spec, rule),
            spans@.len() == r,
            forall|r2: int|
                0 <= r2 < r ==> row_spans_match(
                    (#[trigger] spans@[r2])@,
                    vs,
                    rule,
                    r2,
                    spec.width as int,
                ),
    {
        let row = mask_row_spans(&mask, r);
        let ghost rowg = row@;
        spans.push(row);
        proof {
            assert forall|c: int|
                0 <= c < spec.width implies ((exists|k: int|
                    0 <= k < rowg.len() && ((#[trigger] rowg[k]).0 <= c < rowg[k].1)) <==> interior_at(
                    vs,
                    rule,
                    r as int,
                    c,
                )) by {
                assert(mask.cell(r as int, c) == interior_at(vs, rule, r as int, c));
            }
            assert(spans@[r as int]@ == rowg);
        }
    }
    spans
}

} // verus!
