//! The scan-line rasterization engine.
//!
//! A polygon's edges are gathered into an edge table keyed by the first
//! scan row each edge covers (the NET); the sweep then walks rows top to
//! bottom maintaining the set of currently active edges (the AET):
//! advance each active edge's x intercept, merge the edges starting at
//! this row, retire the edges whose last row has passed, and evaluate the
//! fill rule along the row.
//!
//! The specification is the mathematical winding count: pixel `(row, col)`
//! is interior when the selected rule's predicate holds of the signed
//! number of polygon edges whose intercept with scan line `row` lies at or
//! to the left of `col`.  An intercept at exactly an integer column
//! belongs to the pixel at that column, consistent with half-open span
//! semantics.  Edges lying outside the canvas rows are clipped: they
//! contribute exactly where their true intercepts fall within the canvas.
//!
//! Horizontal edges, and edges whose two endpoints round to the same scan
//! row, are excluded by construction: they cannot produce a row crossing.

use vstd::prelude::*;

use crate::canvas::CanvasSpec;
use crate::canvas::Mask;
use crate::geometry::line::Line;
use crate::geometry::point::Point;
use crate::geometry::polygon::Polygon;
use crate::nums::floor_div_i64;
use crate::nums::ceil_div_i64;
use crate::nums::lemma_mul_bound;
use crate::nums::rat_eqv_exec;
use crate::nums::rat_lt_exec;
use crate::nums::rat_add;
use crate::nums::rat_div;
use crate::nums::rat_le;
use crate::nums::rat_lt;
use crate::nums::rat_mul;
use crate::nums::rat_of_int;
use crate::nums::rat_sub;
use crate::nums::rat_ceil;
use crate::nums::rat_floor;
use crate::nums::Rat;

verus! {

/// Coordinate magnitude accepted by the rasterizer: numerators and
/// denominators of vertex coordinates stay within this bound, so the
/// sweep's intercept arithmetic stays within `i128`.
pub const RASTER_COORD_LIMIT: i64 = 4096;

/// Largest canvas width or height the rasterizer accepts.
pub const RASTER_SIZE_LIMIT: usize = 65536;

/// Largest vertex count the rasterizer accepts.
pub const RASTER_VERTEX_LIMIT: usize = 1048576;

/// Bound on the common denominator of an edge's intercept fraction.
pub const ICEPT_DEN_BOUND: i128 = 0x200_0000_0000_0000_0000;

/// Bound on the per-row numerator increment of an edge's intercept.
pub const ICEPT_STEP_BOUND: i128 = 0x200_0000_0000_0000_0000;

/// Bound on an edge's intercept numerator at any canvas row.
pub const ICEPT_NUM_BOUND: i128 = 0x10_0000_0000_0000_0000_0000_0000;

/// Which of the two standard polygon-fill semantics to apply.
#[derive(Debug, Clone, Copy)]
pub enum FillRule {
    NonZero,
    EvenOdd,
}

/// The rule's interior predicate on a winding total.
pub open spec fn rule_holds(rule: FillRule, w: int) -> bool {
    match rule {
        FillRule::NonZero => w != 0,
        FillRule::EvenOdd => w % 2 != 0,
    }
}

impl FillRule {
    /// Tests the rule's predicate on a running winding total.
    pub fn check(&self, n: i32) -> (r: bool)
        ensures
            r == rule_holds(*self, n as int),
    {
        match self {
            Self::NonZero => n != 0,
            Self::EvenOdd => n % 2 != 0,
        }
    }
}

/// Edge `i` of the closed polygon: from vertex `i` to its cyclic successor.
pub open spec fn poly_edge(vs: Seq<Point<Rat>>, i: int) -> Line<Rat> {
    Line { start: vs[i], end: vs[(i + 1) % (vs.len() as int)] }
}

/// The edge contributes scan-row crossings at all: it is not horizontal,
/// and its endpoints do not round to the same scan row.
pub open spec fn edge_enters(e: Line<Rat>) -> bool {
    !e.horizontal() && rat_ceil(e.lo().y@) != rat_ceil(e.hi().y@)
}

/// First scan row at which the edge is active, clipped to the canvas top.
pub open spec fn edge_merge_row(e: Line<Rat>) -> int {
    if rat_ceil(e.lo().y@) < 0 {
        0
    } else {
        rat_ceil(e.lo().y@)
    }
}

/// The edge crosses scan line `row`: rows run from the ceiling of the
/// lower endpoint's y through the floor of the upper endpoint's y,
/// inclusive.
pub open spec fn edge_active(e: Line<Rat>, row: int) -> bool {
    edge_enters(e) && rat_ceil(e.lo().y@) <= row <= rat_floor(e.hi().y@)
}

/// The edge belongs in the edge table for a canvas of the given height.
pub open spec fn edge_in_net(e: Line<Rat>, height: int) -> bool {
    edge_enters(e) && rat_floor(e.hi().y@) >= 0 && edge_merge_row(e) < height
}

/// Run per unit rise, oriented from the lower endpoint to the upper one,
/// so the denominator is positive for a non-horizontal edge.
pub open spec fn edge_slope(e: Line<Rat>) -> (int, int) {
    rat_div(rat_sub(e.hi().x@, e.lo().x@), rat_sub(e.hi().y@, e.lo().y@))
}

/// The x coordinate at which the edge crosses scan line `row`.
pub open spec fn edge_icept(e: Line<Rat>, row: int) -> (int, int) {
    rat_add(e.lo().x@, rat_mul(edge_slope(e), rat_sub(rat_of_int(row), e.lo().y@)))
}

/// The change of the intercept numerator from one row to the next; the
/// denominator does not change.
pub open spec fn icept_step(e: Line<Rat>) -> int {
    edge_slope(e).0 * e.lo().y@.1 * e.lo().x@.1
}

/// The edge's winding contribution under the rule: under non-zero winding
/// an upward edge counts +1 and a downward one -1; under even-odd every
/// crossing counts alike.
pub open spec fn edge_contrib(e: Line<Rat>, rule: FillRule) -> int {
    match rule {
        FillRule::NonZero => if e.upward() {
            1
        } else {
            -1
        },
        FillRule::EvenOdd => 1,
    }
}

/// The edge crosses scan line `row` at or to the left of column `col`.
pub open spec fn crossing_counted(e: Line<Rat>, row: int, col: int) -> bool {
    edge_active(e, row) && rat_le(edge_icept(e, row), rat_of_int(col))
}

/// Winding total at `(row, col)` over the first `k` polygon edges.
pub open spec fn winding_prefix(
    vs: Seq<Point<Rat>>,
    rule: FillRule,
    row: int,
    col: int,
    k: int,
) -> int
    decreases k,
{
    if k <= 0 {
        0
    } else {
        winding_prefix(vs, rule, row, col, k - 1) + if crossing_counted(
            poly_edge(vs, k - 1),
            row,
            col,
        ) {
            edge_contrib(poly_edge(vs, k - 1), rule)
        } else {
            0
        }
    }
}

/// Winding total at `(row, col)` over all edges of the polygon.
pub open spec fn winding(vs: Seq<Point<Rat>>, rule: FillRule, row: int, col: int) -> int {
    winding_prefix(vs, rule, row, col, vs.len() as int)
}

/// Pixel `(row, col)` lies inside the polygon under the rule.
pub open spec fn interior_at(vs: Seq<Point<Rat>>, rule: FillRule, row: int, col: int) -> bool {
    rule_holds(rule, winding(vs, rule, row, col))
}

/// Vertices the rasterizer accepts: valid rationals within the coordinate
/// limit, and not too many of them.
pub open spec fn poly_ok(vs: Seq<Point<Rat>>) -> bool {
    vs.len() <= RASTER_VERTEX_LIMIT && forall|i: int|
        0 <= i < vs.len() ==> (#[trigger] vs[i]).wf() && vs[i].bounded(RASTER_COORD_LIMIT as int)
}

/// The mask is exactly the rasterization of the polygon on this canvas.
pub open spec fn mask_matches(
    m: Mask,
    vs: Seq<Point<Rat>>,
    spec: CanvasSpec,
    rule: FillRule,
) -> bool {
    m.wf() && m.width == spec.width && m.height == spec.height && forall|r: int, c: int|
        0 <= r < spec.height && 0 <= c < spec.width ==> m.cell(r, c) == interior_at(vs, rule, r, c)
}

/// One edge of the active edge table, the working state of the sweep.
///
/// `x_num / den` is the intercept of the edge with the current scan line
/// and `delta_num / den` the per-row increment; `y_max` is the last row at
/// which the edge stays active, and `up` records the edge's original
/// orientation for the non-zero rule.  `src` remembers, for the proof
/// only, which polygon edge the entry models.
#[derive(Clone, Copy)]
pub struct ScanlineEdge {
    pub y_max: usize,
    pub x_num: i128,
    pub delta_num: i128,
    pub den: i128,
    pub up: bool,
    pub src: Ghost<int>,
}

/// The entry's fields agree with the model of edge `e` at scan line `row`.
pub open spec fn entry_matches(se: ScanlineEdge, e: Line<Rat>, row: int) -> bool {
    edge_enters(e) && se.y_max as int == rat_floor(e.hi().y@) && se.up == e.upward() && se.den
        == edge_icept(e, row).1 && se.x_num == edge_icept(e, row).0 && se.delta_num == icept_step(e)
}

/// The lower endpoint is never above the upper one.
proof fn lemma_lo_le_hi(e: Line<Rat>)
    ensures
        rat_le(e.lo().y@, e.hi().y@),
{
}

/// An integer bound on a rational from above: `u <= k` exactly when the
/// ceiling of `u` is at most `k`.
proof fn lemma_ceil_le(u: (int, int), k: int)
    requires
        u.1 >= 1,
        u.0 <= k * u.1,
    ensures
        rat_ceil(u) <= k,
{
    let q = u.0 / u.1;
    let r = u.0 % u.1;
    vstd::arithmetic::div_mod::lemma_fundamental_div_mod(u.0, u.1);
    vstd::arithmetic::div_mod::lemma_mod_bound(u.0, u.1);
    if r == 0 {
        assert(q <= k) by (nonlinear_arith)
            requires
                u.0 == u.1 * q + r,
                r == 0,
                u.0 <= k * u.1,
                u.1 >= 1,
        ;
    } else {
        assert(q + 1 <= k) by (nonlinear_arith)
            requires
                u.0 == u.1 * q + r,
                0 < r < u.1,
                u.0 <= k * u.1,
                u.1 >= 1,
        ;
    }
}

/// A rational never exceeds its ceiling.
proof fn lemma_le_ceil(u: (int, int))
    requires
        u.1 >= 1,
    ensures
        u.0 <= rat_ceil(u) * u.1,
{
    let q = u.0 / u.1;
    let r = u.0 % u.1;
    vstd::arithmetic::div_mod::lemma_fundamental_div_mod(u.0, u.1);
    vstd::arithmetic::div_mod::lemma_mod_bound(u.0, u.1);
    if r == 0 {
        assert(u.0 <= q * u.1) by (nonlinear_arith)
            requires
                u.0 == u.1 * q + r,
                r == 0,
        ;
    } else {
        assert(u.0 <= (q + 1) * u.1) by (nonlinear_arith)
            requires
                u.0 == u.1 * q + r,
                0 < r < u.1,
        ;
    }
}

/// Ceiling is monotone over rationals with positive denominators.
proof fn lemma_ceil_mono(u: (int, int), v: (int, int))
    requires
        u.1 >= 1,
        v.1 >= 1,
        rat_le(u, v),
    ensures
        rat_ceil(u) <= rat_ceil(v),
{
    let k = rat_ceil(v);
    lemma_le_ceil(v);
    assert(u.0 <= k * u.1) by (nonlinear_arith)
        requires
            u.0 * v.1 <= v.0 * u.1,
            v.0 <= k * v.1,
            u.1 >= 1,
            v.1 >= 1,
    ;
    lemma_ceil_le(u, k);
}

/// An entering edge stays active from its merge row through `y_max`: the
/// clipped start row never exceeds the floor of the upper endpoint's y.
proof fn lemma_merge_row_le_y_max(e: Line<Rat>)
    requires
        e.wf(),
        edge_enters(e),
        rat_floor(e.hi().y@) >= 0,
    ensures
        edge_merge_row(e) <= rat_floor(e.hi().y@),
        0 <= edge_merge_row(e),
{
    lemma_lo_le_hi(e);
    lemma_ceil_mono(e.lo().y@, e.hi().y@);
}

impl ScanlineEdge {
    /// Builds the sweep entry for a polygon edge, with its intercept
    /// aligned to the first canvas row the edge covers.
    fn from_line(line: &Line<Rat>, row0: usize, src: Ghost<int>) -> (se: ScanlineEdge)
        requires
            line.wf(),
            line.bounded(RASTER_COORD_LIMIT as int),
            edge_enters(*line),
            rat_floor(line.hi().y@) >= 0,
            row0 as int == edge_merge_row(*line),
            row0 <= 131072,
        ensures
            entry_matches(se, *line, row0 as int),
            se.src == src,
            0 <= se.y_max <= RASTER_COORD_LIMIT,
    {
        let e = *line;
        let lo = line.y_min_point();
        let hi = line.y_max_point();
        let a = lo.x.num as i128;
        let b = lo.x.den as i128;
        let c = lo.y.num as i128;
        let d = lo.y.den as i128;
        let p = hi.x.num as i128;
        let q = hi.x.den as i128;
        let s = hi.y.num as i128;
        let t = hi.y.den as i128;
        proof {
            lemma_merge_row_le_y_max(e);
            let el = 4096int;
            lemma_mul_bound(p as int, b as int, el, el);
            lemma_mul_bound(a as int, q as int, el, el);
            lemma_mul_bound(s as int, d as int, el, el);
            lemma_mul_bound(c as int, t as int, el, el);
            lemma_mul_bound(q as int, b as int, el, el);
            lemma_mul_bound(t as int, d as int, el, el);
        }
        let sxn: i128 = p * b - a * q;
        let syn: i128 = s * d - c * t;
        let sxd: i128 = q * b;
        let syd: i128 = t * d;
        proof {
            let el = 4096int;
            lemma_mul_bound(sxn as int, syd as int, 2 * el * el, el * el);
            lemma_mul_bound(sxd as int, syn as int, el * el, 2 * el * el);
        }
        let s0: i128 = sxn * syd;
        let s1: i128 = sxd * syn;
        proof {
            let el = 4096int;
            lemma_mul_bound(s1 as int, d as int, 2 * el * el * el * el, el);
            lemma_mul_bound(s0 as int, d as int, 2 * el * el * el * el, el);
            lemma_mul_bound(b as int, s1 as int * d as int, el, 2 * el * el * el * el * el);
            lemma_mul_bound(s0 as int * d as int, b as int, 2 * el * el * el * el * el, el);
            lemma_mul_bound(row0 as int, d as int, 131072, el);
            lemma_mul_bound(
                s0 as int,
                row0 as int * d as int - c as int,
                2 * el * el * el * el,
                131072 * el + el,
            );
            lemma_mul_bound(
                s0 as int * (row0 as int * d as int - c as int),
                b as int,
                2 * el * el * el * el * (131072 * el + el),
                el,
            );
            lemma_mul_bound(a as int, s1 as int * d as int, el, 2 * el * el * el * el * el);
            assert(el * (2 * el * el * el * el * el) + (2 * el * el * el * el * (131072 * el + el))
                * el <= ICEPT_NUM_BOUND) by (nonlinear_arith)
                requires
                    el == 4096,
            ;
        }
        let den: i128 = b * (s1 * d);
        let step: i128 = (s0 * d) * b;
        let row_i: i128 = row0 as i128;
        let x_num: i128 = a * (s1 * d) + (s0 * (row_i * d - c)) * b;
        let y_max_i: i64 = floor_div_i64(hi.y.num, hi.y.den);
        let up = rat_lt_exec(&line.start.y, &line.end.y);
        proof {
            assert(edge_slope(e) == ((p as int * b as int - a as int * q as int) * (t as int
                * d as int), (q as int * b as int) * (s as int * d as int - c as int * t as int)));
            assert(edge_icept(e, row0 as int) == (a as int * (s1 as int * (1 * d as int)) + (
            s0 as int * (row0 as int * d as int - c as int * 1)) * b as int, b as int * (s1 as int
                * (1 * d as int))));
            assert(icept_step(e) == (s0 as int * d as int) * b as int);
        }
        ScanlineEdge {
            y_max: y_max_i as usize,
            x_num,
            delta_num: step,
            den,
            up,
            src,
        }
    }
}

/// One row of the edge table is sound: every entry models a distinct
/// polygon edge with index below `upto` that starts exactly at `row`, and
/// entries appear in increasing edge order.
pub open spec fn net_row_ok(
    entries: Seq<ScanlineEdge>,
    vs: Seq<Point<Rat>>,
    row: int,
    upto: int,
    height: int,
) -> bool {
    (forall|k: int|
        0 <= k < entries.len() ==> {
            let i = (#[trigger] entries[k]).src@;
            &&& 0 <= i < upto
            &&& edge_in_net(poly_edge(vs, i), height)
            &&& edge_merge_row(poly_edge(vs, i)) == row
            &&& entry_matches(entries[k], poly_edge(vs, i), row)
            &&& 0 <= entries[k].y_max <= RASTER_COORD_LIMIT
        }) && (forall|k1: int, k2: int|
        0 <= k1 < k2 < entries.len() ==> (#[trigger] entries[k1]).src@ < (#[trigger] entries[k2]).src@)
}

/// The whole edge table is sound and complete for the first `upto` edges:
/// every table entry is a real starting edge of its row, and every edge
/// that belongs in the table appears in its starting row.
pub open spec fn net_ok(
    net: Seq<Vec<ScanlineEdge>>,
    vs: Seq<Point<Rat>>,
    upto: int,
    height: int,
) -> bool {
    net.len() == height && (forall|row: int|
        0 <= row < height ==> net_row_ok(#[trigger] net[row]@, vs, row, upto, height)) && (forall|
        i: int,
    |
        0 <= i < upto && edge_in_net(#[trigger] poly_edge(vs, i), height) ==> exists|k: int|
            0 <= k < net[edge_merge_row(poly_edge(vs, i))]@.len() && (#[trigger] net[edge_merge_row(
                poly_edge(vs, i),
            )]@[k]).src@ == i)
}

/// Builds the edge table: for each canvas row, the edges whose first
/// covered row is that row, in traversal order.  Horizontal edges, edges
/// whose endpoints round to the same row, and edges wholly outside the
/// canvas rows never enter the table.
fn net_from_polygon(poly: &Polygon<Rat>, height: usize) -> (net: Vec<Vec<ScanlineEdge>>)
    requires
        poly_ok(poly.vertices@),
        height <= RASTER_SIZE_LIMIT,
    ensures
        net_ok(net@, poly.vertices@, poly.vertices@.len() as int, height as int),
{
    let ghost vs = poly.vertices@;
    let n = poly.vertices.len();
    let mut net: Vec<Vec<ScanlineEdge>> = Vec::new();
    for row in 0..height
        invariant
            net@.len() == row,
            forall|j: int| 0 <= j < row ==> (#[trigger] net@[j])@.len() == 0,
    {
        net.push(Vec::new());
    }
    let edges = poly.edges();
    for i in 0..n
        invariant
            n == vs.len(),
            poly_ok(vs),
            vs == poly.vertices@,
            height <= RASTER_SIZE_LIMIT,
            edges@.len() == n,
            forall|j: int|
                0 <= j < n ==> #[trigger] edges@[j] == (Line {
                    start: vs[j],
                    end: vs[(j + 1) % (n as int)],
                }),
            net_ok(net@, vs, i as int, height as int),
    {
        proof {
            vstd::arithmetic::div_mod::lemma_mod_bound(i + 1, n as int);
            assert(edges@[i as int] == poly_edge(vs, i as int));
        }
        let line = edges[i];
        let ghost e = poly_edge(vs, i as int);
        if rat_eqv_exec(&line.start.y, &line.end.y) {
            // horizontal: contributes no crossing
            proof {
                assert(!edge_in_net(e, height as int));
            }
        } else {
            let lo = line.y_min_point();
            let hi = line.y_max_point();
            let cl = ceil_div_i64(lo.y.num, lo.y.den);
            let ch = ceil_div_i64(hi.y.num, hi.y.den);
            let fl = floor_div_i64(hi.y.num, hi.y.den);
            let merge: i64 = if cl < 0 {
                0
            } else {
                cl
            };
            if cl == ch {
                // both endpoints round to the same scan row
                proof {
                    assert(!edge_in_net(e, height as int));
                }
            } else if fl < 0 {
                // wholly above the canvas
                proof {
                    assert(!edge_in_net(e, height as int));
                }
            } else if merge as usize >= height {
                // wholly below the canvas
                proof {
                    assert(merge as int == edge_merge_row(e));
                    assert(!edge_in_net(e, height as int));
                }
            } else {
                let mr: usize = merge as usize;
                proof {
                    assert(mr as int == edge_merge_row(e));
                }
                let se = ScanlineEdge::from_line(&line, mr, Ghost(i as int));
                let ghost old_net = net@;
                net[mr].push(se);
                proof {
                    assert forall|row: int|
                        0 <= row < height implies net_row_ok(
                        #[trigger] net@[row]@,
                        vs,
                        row,
                        i + 1,
                        height as int,
                    ) by {
                        if row != mr {
                            assert(net@[row] == old_net[row]);
                        }
                    }
                    assert forall|ii: int|
                        0 <= ii < i + 1 && edge_in_net(
                            #[trigger] poly_edge(vs, ii),
                            height as int,
                        ) implies exists|k: int|
                        0 <= k < net@[edge_merge_row(poly_edge(vs, ii))]@.len()
                            && (#[trigger] net@[edge_merge_row(poly_edge(vs, ii))]@[k]).src@
                            == ii by {
                        let m2 = edge_merge_row(poly_edge(vs, ii));
                        if ii == i {
                            assert(net@[m2]@[net@[m2]@.len() - 1].src@ == ii);
                        } else {
                            let k0 = choose|k: int|
                                0 <= k < old_net[m2]@.len() && (#[trigger] old_net[m2]@[k]).src@
                                    == ii;
                            assert(net@[m2]@[k0].src@ == ii);
                        }
                    }
                }
            }
        }
    }
    net
}

/// The winding contribution at `(row, col)` of the polygon edge an AET
/// entry models.
pub open spec fn entry_count(
    se: ScanlineEdge,
    vs: Seq<Point<Rat>>,
    rule: FillRule,
    row: int,
    col: int,
) -> int {
    if crossing_counted(poly_edge(vs, se.src@), row, col) {
        edge_contrib(poly_edge(vs, se.src@), rule)
    } else {
        0
    }
}

/// Sum of the winding contributions of a sequence of AET entries.
pub open spec fn aet_sum(
    s: Seq<ScanlineEdge>,
    vs: Seq<Point<Rat>>,
    rule: FillRule,
    row: int,
    col: int,
) -> int
    decreases s.len(),
{
    if s.len() == 0 {
        0
    } else {
        aet_sum(s.drop_last(), vs, rule, row, col) + entry_count(s.last(), vs, rule, row, col)
    }
}

/// Removing one entry removes exactly its contribution from the sum.
proof fn lemma_aet_sum_remove(
    s: Seq<ScanlineEdge>,
    vs: Seq<Point<Rat>>,
    rule: FillRule,
    row: int,
    col: int,
    j: int,
)
    requires
        0 <= j < s.len(),
    ensures
        aet_sum(s, vs, rule, row, col) == aet_sum(s.remove(j), vs, rule, row, col) + entry_count(
            s[j],
            vs,
            rule,
            row,
            col,
        ),
    decreases s.len(),
{
    s.remove_ensures(j);
    if j == s.len() - 1 {
        assert(s.remove(j) =~= s.drop_last());
    } else {
        let t = s.drop_last();
        lemma_aet_sum_remove(t, vs, rule, row, col, j);
        t.remove_ensures(j);
        assert(s.remove(j).drop_last() =~= t.remove(j));
        assert(s.remove(j).last() == s.last());
        assert(t[j] == s[j]);
    }
}

/// A sound, duplicate-free, complete set of AET entries for the edges
/// below `k` sums to the winding prefix over those edges.
proof fn lemma_aet_sum_winding(
    s: Seq<ScanlineEdge>,
    vs: Seq<Point<Rat>>,
    rule: FillRule,
    row: int,
    col: int,
    k: int,
)
    requires
        0 <= k <= vs.len(),
        forall|j: int| 0 <= j < s.len() ==> 0 <= (#[trigger] s[j]).src@ < k,
        forall|j: int|
            0 <= j < s.len() ==> edge_active(poly_edge(vs, (#[trigger] s[j]).src@), row),
        forall|j1: int, j2: int|
            0 <= j1 < j2 < s.len() ==> (#[trigger] s[j1]).src@ != (#[trigger] s[j2]).src@,
        forall|i: int|
            0 <= i < k && edge_active(#[trigger] poly_edge(vs, i), row) ==> exists|j: int|
                0 <= j < s.len() && (#[trigger] s[j]).src@ == i,
    ensures
        aet_sum(s, vs, rule, row, col) == winding_prefix(vs, rule, row, col, k),
    decreases k,
{
    if k == 0 {
        if s.len() > 0 {
            assert(0 <= s[0].src@ < 0);
        }
        assert(s.len() == 0);
    } else {
        let e = poly_edge(vs, k - 1);
        if edge_active(e, row) {
            let j = choose|j: int| 0 <= j < s.len() && (#[trigger] s[j]).src@ == k - 1;
            let s2 = s.remove(j);
            s.remove_ensures(j);
            lemma_aet_sum_remove(s, vs, rule, row, col, j);
            assert forall|i: int|
                0 <= i < k - 1 && edge_active(#[trigger] poly_edge(vs, i), row) implies exists|
                j2: int,
            | 0 <= j2 < s2.len() && (#[trigger] s2[j2]).src@ == i by {
                let j1 = choose|j1: int| 0 <= j1 < s.len() && (#[trigger] s[j1]).src@ == i;
                if j1 < j {
                    assert(s2[j1].src@ == i);
                } else {
                    assert(j1 != j);
                    assert(s2[j1 - 1].src@ == i);
                }
            }
            lemma_aet_sum_winding(s2, vs, rule, row, col, k - 1);
        } else {
            assert(forall|j: int| 0 <= j < s.len() ==> (#[trigger] s[j]).src@ != k - 1);
            lemma_aet_sum_winding(s, vs, rule, row, col, k - 1);
        }
    }
}

/// A polygon edge of a valid polygon is made of valid, bounded points.
proof fn lemma_poly_edge_ok(vs: Seq<Point<Rat>>, i: int)
    requires
        poly_ok(vs),
        0 <= i < vs.len(),
    ensures
        poly_edge(vs, i).wf(),
        poly_edge(vs, i).bounded(RASTER_COORD_LIMIT as int),
{
    vstd::arithmetic::div_mod::lemma_mod_bound(i + 1, vs.len() as int);
}

/// Inside the canvas rows, being active is the same as having entered the
/// edge table and being between one's merge row and one's last row.
proof fn lemma_active_iff_window(e: Line<Rat>, row: int, height: int)
    requires
        0 <= row < height,
    ensures
        edge_active(e, row) <==> (edge_in_net(e, height) && edge_merge_row(e) <= row && rat_floor(
            e.hi().y@,
        ) >= row),
{
}

/// The entries of the active edge table between sweep phases: every
/// entry models a distinct table edge with its intercept aligned to row
/// `mat`, its merge row at most `mb`, and its last row at least `fb`.
pub open spec fn aet_phase(
    s: Seq<ScanlineEdge>,
    vs: Seq<Point<Rat>>,
    mat: int,
    mb: int,
    fb: int,
    height: int,
) -> bool {
    (forall|j: int|
        0 <= j < s.len() ==> {
            let i = (#[trigger] s[j]).src@;
            &&& 0 <= i < vs.len()
            &&& edge_in_net(poly_edge(vs, i), height)
            &&& edge_merge_row(poly_edge(vs, i)) <= mb
            &&& rat_floor(poly_edge(vs, i).hi().y@) >= fb
            &&& entry_matches(s[j], poly_edge(vs, i), mat)
        }) && (forall|j1: int, j2: int|
        0 <= j1 < j2 < s.len() ==> (#[trigger] s[j1]).src@ != (#[trigger] s[j2]).src@)
}

/// Every table edge whose merge row is at most `mb` and whose last row is
/// at least `fb` has an entry in the sequence.
pub open spec fn aet_covers(
    s: Seq<ScanlineEdge>,
    vs: Seq<Point<Rat>>,
    mb: int,
    fb: int,
    height: int,
) -> bool {
    forall|i: int|
        0 <= i < vs.len() && edge_in_net(#[trigger] poly_edge(vs, i), height) && edge_merge_row(
            poly_edge(vs, i),
        ) <= mb && rat_floor(poly_edge(vs, i).hi().y@) >= fb ==> exists|j: int|
            0 <= j < s.len() && (#[trigger] s[j]).src@ == i
}

/// The active edge table at the end of a sweep iteration: exactly the
/// edges whose window covers `row`, each once, aligned to `row`.
pub open spec fn aet_ok(s: Seq<ScanlineEdge>, vs: Seq<Point<Rat>>, row: int, height: int) -> bool {
    aet_phase(s, vs, row, row, row, height) && aet_covers(s, vs, row, row, height)
}

/// Advances every active edge's intercept by one row's worth of
/// horizontal movement, from row `row - 1` to row `row`.
fn advance_aet(
    aet: &mut Vec<ScanlineEdge>,
    Ghost(vs): Ghost<Seq<Point<Rat>>>,
    Ghost(height): Ghost<int>,
    row: usize,
)
    requires
        poly_ok(vs),
        row <= RASTER_SIZE_LIMIT,
        aet_phase(old(aet)@, vs, row as int - 1, row as int - 1, row as int - 1, height),
        aet_covers(old(aet)@, vs, row as int - 1, row as int - 1, height),
    ensures
        aet_phase(final(aet)@, vs, row as int, row as int - 1, row as int - 1, height),
        aet_covers(final(aet)@, vs, row as int - 1, row as int - 1, height),
{
    let ghost aet0 = aet@;
    let alen = aet.len();
    for j in 0..alen
        invariant
            poly_ok(vs),
            row <= RASTER_SIZE_LIMIT,
            alen == aet@.len(),
            aet0.len() == aet@.len(),
            forall|j2: int| 0 <= j2 < alen ==> (#[trigger] aet@[j2]).src == aet0[j2].src,
            forall|j2: int|
                0 <= j2 < alen ==> {
                    let i = (#[trigger] aet@[j2]).src@;
                    &&& 0 <= i < vs.len()
                    &&& edge_in_net(poly_edge(vs, i), height)
                    &&& edge_merge_row(poly_edge(vs, i)) <= row as int - 1
                    &&& rat_floor(poly_edge(vs, i).hi().y@) >= row as int - 1
                    &&& entry_matches(
                        aet@[j2],
                        poly_edge(vs, i),
                        if j2 < j {
                            row as int
                        } else {
                            row as int - 1
                        },
                    )
                },
            forall|j1: int, j2: int|
                0 <= j1 < j2 < alen ==> (#[trigger] aet@[j1]).src@ != (#[trigger] aet@[j2]).src@,
    {
        let ghost i = aet@[j as int].src@;
        let ghost e = poly_edge(vs, i);
        proof {
            lemma_poly_edge_ok(vs, i);
            lemma_icept_bounds(e, row as int - 1);
            lemma_icept_bounds(e, row as int);
            lemma_icept_linear(e, row as int - 1);
        }
        let mut se = aet[j];
        se.x_num = se.x_num + se.delta_num;
        aet.set(j, se);
    }
    proof {
        assert forall|i: int|
            0 <= i < vs.len() && edge_in_net(#[trigger] poly_edge(vs, i), height)
                && edge_merge_row(poly_edge(vs, i)) <= row as int - 1 && rat_floor(
                poly_edge(vs, i).hi().y@,
            ) >= row as int - 1 implies exists|j: int|
                0 <= j < aet@.len() && (#[trigger] aet@[j]).src@ == i by {
            let w = choose|j: int| 0 <= j < aet0.len() && (#[trigger] aet0[j]).src@ == i;
            assert(aet@[w].src@ == i);
        }
    }
}

/// Appends the edges that start at this row to the active edge table.
fn merge_aet(
    aet: &mut Vec<ScanlineEdge>,
    new_edges: &Vec<ScanlineEdge>,
    Ghost(vs): Ghost<Seq<Point<Rat>>>,
    Ghost(height): Ghost<int>,
    row: usize,
)
    requires
        poly_ok(vs),
        (row as int) < height,
        aet_phase(old(aet)@, vs, row as int, row as int - 1, row as int - 1, height),
        aet_covers(old(aet)@, vs, row as int - 1, row as int - 1, height),
        net_row_ok(new_edges@, vs, row as int, vs.len() as int, height),
        forall|i: int|
            0 <= i < vs.len() && edge_in_net(#[trigger] poly_edge(vs, i), height) && edge_merge_row(
                poly_edge(vs, i),
            ) == row as int ==> exists|k: int|
                0 <= k < new_edges@.len() && (#[trigger] new_edges@[k]).src@ == i,
    ensures
        aet_phase(final(aet)@, vs, row as int, row as int, row as int - 1, height),
        aet_covers(final(aet)@, vs, row as int, row as int, height),
{
    let ghost aet0 = aet@;
    let nlen = new_edges.len();
    for k in 0..nlen
        invariant
            nlen == new_edges@.len(),
            aet@ == aet0 + new_edges@.subrange(0, k as int),
    {
        aet.push(new_edges[k]);
        proof {
            assert(new_edges@.subrange(0, k as int).push(new_edges@[k as int]) =~= new_edges@
                .subrange(0, k + 1));
        }
    }
    proof {
        assert(aet@ == aet0 + new_edges@) by {
            assert(new_edges@.subrange(0, nlen as int) =~= new_edges@);
        }
        let b = aet0.len() as int;
        // each new entry keeps its window through this row
        assert forall|j2: int| b <= j2 < aet@.len() implies {
            let i = (#[trigger] aet@[j2]).src@;
            &&& 0 <= i < vs.len()
            &&& edge_in_net(poly_edge(vs, i), height)
            &&& edge_merge_row(poly_edge(vs, i)) == row as int
            &&& rat_floor(poly_edge(vs, i).hi().y@) >= row as int
            &&& entry_matches(aet@[j2], poly_edge(vs, i), row as int)
        } by {
            assert(aet@[j2] == new_edges@[j2 - b]);
            let i = aet@[j2].src@;
            lemma_poly_edge_ok(vs, i);
            lemma_merge_row_le_y_max(poly_edge(vs, i));
        }
        assert forall|j1: int, j2: int|
            0 <= j1 < j2 < aet@.len() implies (#[trigger] aet@[j1]).src@ != (
        #[trigger] aet@[j2]).src@ by {
            if j1 < b && j2 >= b {
                // an already-active edge started on an earlier row than a
                // newly merged one
                assert(aet@[j1] == aet0[j1]);
                assert(aet@[j2] == new_edges@[j2 - b]);
                assert(edge_merge_row(poly_edge(vs, aet@[j1].src@)) <= row as int - 1);
                assert(edge_merge_row(poly_edge(vs, aet@[j2].src@)) == row as int);
            } else if j1 >= b {
                assert(aet@[j1] == new_edges@[j1 - b]);
                assert(aet@[j2] == new_edges@[j2 - b]);
            } else {
                assert(aet@[j1] == aet0[j1]);
                assert(aet@[j2] == aet0[j2]);
            }
        }
        assert forall|i: int|
            0 <= i < vs.len() && edge_in_net(#[trigger] poly_edge(vs, i), height)
                && edge_merge_row(poly_edge(vs, i)) <= row as int && rat_floor(
                poly_edge(vs, i).hi().y@,
            ) >= row as int implies exists|j: int|
                0 <= j < aet@.len() && (#[trigger] aet@[j]).src@ == i by {
            if edge_merge_row(poly_edge(vs, i)) <= row as int - 1 {
                let w = choose|j: int| 0 <= j < aet0.len() && (#[trigger] aet0[j]).src@ == i;
                assert(aet@[w].src@ == i);
            } else {
                let w = choose|k: int|
                    0 <= k < new_edges@.len() && (#[trigger] new_edges@[k]).src@ == i;
                assert(aet@[b + w].src@ == i);
            }
        }
    }
}

/// Removes the edges whose last active row lies above this row.
fn retire_aet(
    aet: &mut Vec<ScanlineEdge>,
    Ghost(vs): Ghost<Seq<Point<Rat>>>,
    Ghost(height): Ghost<int>,
    row: usize,
)
    requires
        poly_ok(vs),
        (row as int) < height,
        aet_phase(old(aet)@, vs, row as int, row as int, row as int - 1, height),
        aet_covers(old(aet)@, vs, row as int, row as int, height),
    ensures
        aet_ok(final(aet)@, vs, row as int, height),
{
    let ghost merged = aet@;
    let mut kept: Vec<ScanlineEdge> = Vec::new();
    let ghost mut picks: Seq<int> = Seq::empty();
    let mlen = aet.len();
    for j in 0..mlen
        invariant
            mlen == merged.len(),
            aet@ == merged,
            aet_phase(merged, vs, row as int, row as int, row as int - 1, height),
            picks.len() == kept@.len(),
            forall|j2: int|
                0 <= j2 < picks.len() ==> 0 <= #[trigger] picks[j2] < j && kept@[j2]
                    == merged[picks[j2]] && merged[picks[j2]].y_max >= row,
            forall|j2: int, j3: int| 0 <= j2 < j3 < picks.len() ==> picks[j2] < picks[j3],
            forall|j3: int|
                0 <= j3 < j && (#[trigger] merged[j3]).y_max >= row ==> exists|j2: int|
                    0 <= j2 < picks.len() && #[trigger] picks[j2] == j3,
    {
        let se = aet[j];
        if se.y_max >= row {
            kept.push(se);
            proof {
                let picks0 = picks;
                picks = picks.push(j as int);
                assert forall|j3: int|
                    0 <= j3 < j + 1 && (#[trigger] merged[j3]).y_max >= row implies exists|j2: int|
                        0 <= j2 < picks.len() && #[trigger] picks[j2] == j3 by {
                    if j3 < j {
                        let w = choose|j2: int|
                            0 <= j2 < picks0.len() && #[trigger] picks0[j2] == j3;
                        assert(picks[w] == picks0[w]);
                    } else {
                        assert(picks[picks.len() - 1] == j3);
                    }
                }
            }
        }
    }
    *aet = kept;
    proof {
        assert forall|j2: int| 0 <= j2 < aet@.len() implies {
            let i = (#[trigger] aet@[j2]).src@;
            &&& 0 <= i < vs.len()
            &&& edge_in_net(poly_edge(vs, i), height)
            &&& edge_merge_row(poly_edge(vs, i)) <= row as int
            &&& rat_floor(poly_edge(vs, i).hi().y@) >= row as int
            &&& entry_matches(aet@[j2], poly_edge(vs, i), row as int)
        } by {
            assert(aet@[j2] == merged[picks[j2]]);
        }
        assert forall|j1: int, j2: int|
            0 <= j1 < j2 < aet@.len() implies (#[trigger] aet@[j1]).src@ != (
        #[trigger] aet@[j2]).src@ by {
            assert(aet@[j1] == merged[picks[j1]]);
            assert(aet@[j2] == merged[picks[j2]]);
            assert(picks[j1] < picks[j2]);
        }
        assert forall|i: int|
            0 <= i < vs.len() && edge_in_net(#[trigger] poly_edge(vs, i), height)
                && edge_merge_row(poly_edge(vs, i)) <= row as int && rat_floor(
                poly_edge(vs, i).hi().y@,
            ) >= row as int implies exists|j: int|
                0 <= j < aet@.len() && (#[trigger] aet@[j]).src@ == i by {
            let j3 = choose|j3: int| 0 <= j3 < merged.len() && (#[trigger] merged[j3]).src@ == i;
            assert(merged[j3].y_max as int == rat_floor(poly_edge(vs, i).hi().y@));
            let w = choose|j2: int| 0 <= j2 < picks.len() && #[trigger] picks[j2] == j3;
            assert(aet@[w].src@ == i);
        }
    }
}

/// The winding total of the active edges' crossings at or left of column
/// `col` on this row.
fn row_winding(
    aet: &Vec<ScanlineEdge>,
    Ghost(vs): Ghost<Seq<Point<Rat>>>,
    Ghost(height): Ghost<int>,
    rule: FillRule,
    row: usize,
    col: usize,
) -> (track: i128)
    requires
        poly_ok(vs),
        (row as int) < height,
        height <= RASTER_SIZE_LIMIT,
        col < RASTER_SIZE_LIMIT,
        aet_ok(aet@, vs, row as int, height),
    ensures
        track == winding(vs, rule, row as int, col as int),
{
    let klen = aet.len();
    let mut track: i128 = 0;
    for j in 0..klen
        invariant
            poly_ok(vs),
            (row as int) < height,
            height <= RASTER_SIZE_LIMIT,
            col < RASTER_SIZE_LIMIT,
            klen == aet@.len(),
            aet_ok(aet@, vs, row as int, height),
            -(j as int) <= track as int <= j as int,
            track as int == aet_sum(aet@.subrange(0, j as int), vs, rule, row as int, col as int),
    {
        let ghost i = aet@[j as int].src@;
        let ghost e = poly_edge(vs, i);
        proof {
            lemma_poly_edge_ok(vs, i);
            lemma_icept_bounds(e, row as int);
            lemma_mul_bound(col as int, aet@[j as int].den as int, 65536, ICEPT_DEN_BOUND as int);
            lemma_active_iff_window(e, row as int, height);
            assert(aet@.subrange(0, j + 1).drop_last() =~= aet@.subrange(0, j as int));
            assert(aet@.subrange(0, j + 1).last() == aet@[j as int]);
        }
        let se = aet[j];
        let ghost pre = track as int;
        if se.x_num <= (col as i128) * se.den {
            match rule {
                FillRule::NonZero => {
                    if se.up {
                        track = track + 1;
                    } else {
                        track = track - 1;
                    }
                },
                FillRule::EvenOdd => {
                    track = track + 1;
                },
            }
        }
        proof {
            assert((se.x_num as int <= col as int * se.den as int) == rat_le(
                edge_icept(e, row as int),
                rat_of_int(col as int),
            )) by (nonlinear_arith)
                requires
                    se.x_num as int == edge_icept(e, row as int).0,
                    se.den as int == edge_icept(e, row as int).1,
            ;
            assert(track as int == pre + entry_count(aet@[j as int], vs, rule, row as int, col as int));
        }
    }
    proof {
        assert(aet@.subrange(0, klen as int) =~= aet@);
        assert forall|j: int|
            0 <= j < aet@.len() implies edge_active(
            poly_edge(vs, (#[trigger] aet@[j]).src@),
            row as int,
        ) by {
            lemma_active_iff_window(poly_edge(vs, aet@[j].src@), row as int, height);
        }
        assert forall|i: int|
            0 <= i < vs.len() && edge_active(#[trigger] poly_edge(vs, i), row as int) implies exists|
        j: int| 0 <= j < aet@.len() && (#[trigger] aet@[j]).src@ == i by {
            lemma_active_iff_window(poly_edge(vs, i), row as int, height);
        }
        lemma_aet_sum_winding(aet@, vs, rule, row as int, col as int, vs.len() as int);
    }
    track
}

/// Rasterizes the polygon into a fresh boolean mask of the canvas's shape
/// under the chosen fill rule.
///
/// The contract is exact: a pixel is marked interior exactly when the
/// rule's predicate holds of the winding total of the polygon's edge
/// crossings at or left of that pixel on its scan line.  A degenerate
/// canvas yields an empty mask; vertices outside the canvas are handled
/// by clipping, and a rasterization is a pure function of its inputs.
pub fn polygon_interior(poly: Polygon<Rat>, spec: CanvasSpec, rule: FillRule) -> (m: Mask)
    requires
        poly_ok(poly.vertices@),
        spec.width <= RASTER_SIZE_LIMIT,
        spec.height <= RASTER_SIZE_LIMIT,
        spec.height * spec.width <= usize::MAX,
    ensures
        mask_matches(m, poly.vertices@, spec, rule),
{
    let ghost vs = poly.vertices@;
    let n = poly.vertices.len();
    let mut mask = Mask::new_false(&spec);
    let height = spec.height;
    let width = spec.width;
    let net = net_from_polygon(&poly, height);
    let mut aet: Vec<ScanlineEdge> = Vec::new();
    for row in 0..height
        invariant
            n == vs.len(),
            poly_ok(vs),
            vs == poly.vertices@,
            width == spec.width,
            height == spec.height,
            height <= RASTER_SIZE_LIMIT,
            width <= RASTER_SIZE_LIMIT,
            net_ok(net@, vs, n as int, height as int),
            mask.wf(),
            mask.width == width,
            mask.height == height,
            forall|r: int, c: int|
                0 <= r < row && 0 <= c < width ==> mask.cell(r, c) == interior_at(vs, rule, r, c),
            forall|r: int, c: int|
                row <= r < height && 0 <= c < width ==> !mask.cell(r, c),
            aet_phase(aet@, vs, row as int - 1, row as int - 1, row as int - 1, height as int),
            aet_covers(aet@, vs, row as int - 1, row as int - 1, height as int),
    {
        advance_aet(&mut aet, Ghost(vs), Ghost(height as int), row);
        let new_edges = &net[row];
        proof {
            // the edge table row lists every edge that starts here
            assert forall|i: int|
                0 <= i < vs.len() && edge_in_net(#[trigger] poly_edge(vs, i), height as int)
                    && edge_merge_row(poly_edge(vs, i)) == row as int implies exists|k: int|
                    0 <= k < new_edges@.len() && (#[trigger] new_edges@[k]).src@ == i by {
                let w = choose|k: int|
                    0 <= k < net@[edge_merge_row(poly_edge(vs, i))]@.len()
                        && (#[trigger] net@[edge_merge_row(poly_edge(vs, i))]@[k]).src@ == i;
            }
        }
        merge_aet(&mut aet, new_edges, Ghost(vs), Ghost(height as int), row);
        retire_aet(&mut aet, Ghost(vs), Ghost(height as int), row);
        // An empty table means the whole row is exterior and the mask's
        // cells are already false; otherwise evaluate the rule per column.
        if aet.len() > 0 {
            for c in 0..width
                invariant
                    n == vs.len(),
                    poly_ok(vs),
                    row < height,
                    width == spec.width,
                    height == spec.height,
                    height <= RASTER_SIZE_LIMIT,
                    width <= RASTER_SIZE_LIMIT,
                    aet_ok(aet@, vs, row as int, height as int),
                    mask.wf(),
                    mask.width == width,
                    mask.height == height,
                    forall|r: int, c2: int|
                        0 <= r < row && 0 <= c2 < width ==> mask.cell(r, c2) == interior_at(
                            vs,
                            rule,
                            r,
                            c2,
                        ),
                    forall|c2: int|
                        0 <= c2 < c ==> mask.cell(row as int, c2) == interior_at(
                            vs,
                            rule,
                            row as int,
                            c2,
                        ),
                    forall|r: int, c2: int|
                        row < r < height && 0 <= c2 < width ==> !mask.cell(r, c2),
                    forall|c2: int| c <= c2 < width ==> !mask.cell(row as int, c2),
            {
                let track = row_winding(&aet, Ghost(vs), Ghost(height as int), rule, row, c);
                let inside = match rule {
                    FillRule::NonZero => track != 0,
                    FillRule::EvenOdd => track % 2 != 0,
                };
                mask.set(row, c, inside);
            }
        } else {
            proof {
                assert forall|c: int|
                    0 <= c < width implies !interior_at(vs, rule, row as int, c) by {
                    assert forall|i: int|
                        0 <= i < n && edge_active(#[trigger] poly_edge(vs, i), row as int) implies exists|
                    j: int| 0 <= j < aet@.len() && (#[trigger] aet@[j]).src@ == i by {
                        lemma_active_iff_window(poly_edge(vs, i), row as int, height as int);
                    }
                    lemma_aet_sum_winding(aet@, vs, rule, row as int, c, n as int);
                }
            }
        }
    }
    mask
}

/// A product of two positive integers is positive.
proof fn lemma_pos_mul(a: int, b: int)
    requires
        a >= 1,
        b >= 1,
    ensures
        a * b >= 1,
{
    assert(a * b >= 1) by (nonlinear_arith)
        requires
            a >= 1,
            b >= 1,
    ;
}

/// Advancing one row adds `icept_step` to the intercept numerator and
/// keeps the denominator.
proof fn lemma_icept_linear(e: Line<Rat>, row: int)
    ensures
        edge_icept(e, row + 1).1 == edge_icept(e, row).1,
        edge_icept(e, row + 1).0 == edge_icept(e, row).0 + icept_step(e),
{
    let a = e.lo().x@.0;
    let b = e.lo().x@.1;
    let c = e.lo().y@.0;
    let d = e.lo().y@.1;
    let s0 = edge_slope(e).0;
    let s1 = edge_slope(e).1;
    assert(edge_icept(e, row) == (a * (s1 * (1 * d)) + (s0 * (row * d - c * 1)) * b, b * (s1 * (1
        * d))));
    assert(edge_icept(e, row + 1) == (a * (s1 * (1 * d)) + (s0 * ((row + 1) * d - c * 1)) * b, b * (
    s1 * (1 * d))));
    assert((s0 * ((row + 1) * d - c * 1)) * b == (s0 * (row * d - c * 1)) * b + (s0 * d) * b)
        by (nonlinear_arith);
}

/// Sizes of an edge's intercept fraction at any canvas row: the common
/// denominator is positive and bounded, and the numerator and per-row
/// step are bounded, so the sweep's `i128` arithmetic cannot overflow.
proof fn lemma_icept_bounds(e: Line<Rat>, row: int)
    requires
        e.wf(),
        e.bounded(RASTER_COORD_LIMIT as int),
        !e.horizontal(),
        0 <= row <= 131072,
    ensures
        1 <= edge_icept(e, row).1 <= ICEPT_DEN_BOUND,
        -ICEPT_NUM_BOUND <= edge_icept(e, row).0 <= ICEPT_NUM_BOUND,
        -ICEPT_STEP_BOUND <= icept_step(e) <= ICEPT_STEP_BOUND,
{
    let el = 4096int;
    let a = e.lo().x@.0;
    let b = e.lo().x@.1;
    let c = e.lo().y@.0;
    let d = e.lo().y@.1;
    let p = e.hi().x@.0;
    let q = e.hi().x@.1;
    let s = e.hi().y@.0;
    let t = e.hi().y@.1;
    let sxn = p * b - a * q;
    let sxd = q * b;
    let syn = s * d - c * t;
    let syd = t * d;
    assert(edge_slope(e) == (sxn * syd, sxd * syn));
    let s0 = sxn * syd;
    let s1 = sxd * syn;
    lemma_mul_bound(p, b, el, el);
    lemma_mul_bound(a, q, el, el);
    lemma_mul_bound(s, d, el, el);
    lemma_mul_bound(c, t, el, el);
    lemma_mul_bound(q, b, el, el);
    lemma_mul_bound(t, d, el, el);
    lemma_pos_mul(q, b);
    lemma_pos_mul(t, d);
    // A non-horizontal edge rises strictly from its lower endpoint.
    lemma_lo_le_hi(e);
    assert(syn >= 1);
    lemma_mul_bound(sxn, syd, 2 * el * el, el * el);
    lemma_mul_bound(sxd, syn, el * el, 2 * el * el);
    lemma_pos_mul(sxd, syn);
    // The denominator b * (s1 * (1 * d)).
    lemma_pos_mul(s1, d);
    lemma_mul_bound(s1, d, 2 * el * el * el * el, el);
    lemma_pos_mul(b, s1 * (1 * d));
    lemma_mul_bound(b, s1 * (1 * d), el, 2 * el * el * el * el * el);
    // The step (s0 * d) * b.
    lemma_mul_bound(s0, d, 2 * el * el * el * el, el);
    lemma_mul_bound(s0 * d, b, 2 * el * el * el * el * el, el);
    // The numerator a * (s1 * (1 * d)) + (s0 * (row * d - c * 1)) * b.
    lemma_mul_bound(a, s1 * (1 * d), el, 2 * el * el * el * el * el);
    lemma_mul_bound(row, d, 131072, el);
    lemma_mul_bound(s0, row * d - c * 1, 2 * el * el * el * el, 131072 * el + el);
    lemma_mul_bound(
        s0 * (row * d - c * 1),
        b,
        2 * el * el * el * el * (131072 * el + el),
        el,
    );
    assert(edge_icept(e, row) == (a * (s1 * (1 * d)) + (s0 * (row * d - c * 1)) * b, b * (s1 * (1
        * d))));
    assert(el * (2 * el * el * el * el * el) + (2 * el * el * el * el * (131072 * el + el)) * el
        <= ICEPT_NUM_BOUND) by (nonlinear_arith)
        requires
            el == 4096,
    ;
}

/// The four corners of an axis-aligned rectangle, in counterclockwise
/// order starting at the lower-left corner.
pub open spec fn rect_vertices(x0: Rat, y0: Rat, x1: Rat, y1: Rat) -> Seq<Point<Rat>> {
    seq![
        Point { x: x0, y: y0 },
        Point { x: x1, y: y0 },
        Point { x: x1, y: y1 },
        Point { x: x0, y: y1 },
    ]
}

/// Rasterization is deterministic: two masks that each match the same
/// polygon, canvas size and fill rule agree on every pixel, so
/// rasterizing the same polygon twice into independent canvases of the
/// same size yields identical masks.
pub proof fn lemma_rasterization_deterministic(
    m1: Mask,
    m2: Mask,
    vs: Seq<Point<Rat>>,
    spec: CanvasSpec,
    rule: FillRule,
)
    requires
        mask_matches(m1, vs, spec, rule),
        mask_matches(m2, vs, spec, rule),
    ensures
        m1.width == m2.width,
        m1.height == m2.height,
        forall|r: int, c: int|
            0 <= r < spec.height && 0 <= c < spec.width ==> m1.cell(r, c) == m2.cell(r, c),
{
}

/// A degenerate canvas of zero width or zero height yields a mask with
/// no cells at all — an all-false mask — whatever the polygon and rule.
pub proof fn lemma_degenerate_canvas(
    m: Mask,
    vs: Seq<Point<Rat>>,
    spec: CanvasSpec,
    rule: FillRule,
)
    requires
        mask_matches(m, vs, spec, rule),
        spec.width == 0 || spec.height == 0,
    ensures
        m.bits@.len() == 0,
        forall|idx: int| 0 <= idx < m.bits@.len() ==> !m.bits@[idx],
{
    assert(m.height as int * m.width as int == 0) by (nonlinear_arith)
        requires
            m.width == 0 || m.height == 0,
    ;
}

/// A horizontal edge never enters the edge table: it is active on no
/// scan row and counts toward no pixel's winding total.
pub proof fn lemma_horizontal_edge_inert(e: Line<Rat>, row: int, col: int)
    requires
        e.horizontal(),
    ensures
        !edge_active(e, row),
        !crossing_counted(e, row, col),
{
}

/// An integer strictly below a rational is at most its floor.
proof fn lemma_int_lt_floor(k: int, u: (int, int))
    requires
        u.1 >= 1,
        rat_lt(rat_of_int(k), u),
    ensures
        k <= rat_floor(u),
{
    let q = u.0 / u.1;
    let r = u.0 % u.1;
    vstd::arithmetic::div_mod::lemma_fundamental_div_mod(u.0, u.1);
    vstd::arithmetic::div_mod::lemma_mod_bound(u.0, u.1);
    assert(k <= q) by (nonlinear_arith)
        requires
            u.0 == u.1 * q + r,
            0 <= r < u.1,
            k * u.1 < u.0,
            u.1 >= 1,
    ;
}

/// An integer strictly below a rational is strictly below its ceiling.
proof fn lemma_int_lt_ceil(k: int, u: (int, int))
    requires
        u.1 >= 1,
        rat_lt(rat_of_int(k), u),
    ensures
        k < rat_ceil(u),
{
    lemma_le_ceil(u);
    assert(k < rat_ceil(u)) by (nonlinear_arith)
        requires
            k * u.1 < u.0,
            u.0 <= rat_ceil(u) * u.1,
            u.1 >= 1,
    ;
}

/// A vertical edge crosses every scan line at its own x coordinate: the
/// crossing lies at or left of a column exactly when the edge's x does.
proof fn lemma_vertical_icept(e: Line<Rat>, row: int, col: int)
    requires
        e.wf(),
        !e.horizontal(),
        e.lo().x == e.hi().x,
    ensures
        rat_le(edge_icept(e, row), rat_of_int(col)) == rat_le(e.lo().x@, rat_of_int(col)),
{
    let a = e.lo().x@.0;
    let b = e.lo().x@.1;
    let c = e.lo().y@.0;
    let d = e.lo().y@.1;
    let t = e.hi().y@.1;
    let syn = e.hi().y@.0 * d - c * t;
    lemma_lo_le_hi(e);
    assert(syn >= 1);
    let s0 = (a * b - a * b) * (t * d);
    let s1 = (b * b) * syn;
    assert(edge_slope(e) == (s0, s1));
    let w0 = row * d - c * 1;
    let m1 = s1 * (1 * d);
    assert(edge_icept(e, row) == (a * m1 + (s0 * w0) * b, b * m1));
    assert(s0 * w0 == 0) by (nonlinear_arith)
        requires
            s0 == (a * b - a * b) * (t * d),
    ;
    assert(m1 >= 1) by (nonlinear_arith)
        requires
            m1 == ((b * b) * syn) * (1 * d),
            b >= 1,
            d >= 1,
            syn >= 1,
    ;
    assert(((a * m1 + 0 * b) * 1 <= col * (b * m1)) == (a * 1 <= col * b)) by (nonlinear_arith)
        requires
            m1 >= 1,
    ;
}

/// The provable core of interior coverage for convex shapes: in an
/// axis-aligned rectangle, every pixel whose scan sample lies strictly
/// between the bottom and top sides and on or right of the left side but
/// strictly left of the right side is marked interior under both fill
/// rules.
pub proof fn lemma_rect_interior_both_rules(
    x0: Rat,
    y0: Rat,
    x1: Rat,
    y1: Rat,
    row: int,
    col: int,
)
    requires
        x0.wf(),
        y0.wf(),
        x1.wf(),
        y1.wf(),
        rat_lt(y0@, rat_of_int(row)),
        rat_lt(rat_of_int(row), y1@),
        rat_le(x0@, rat_of_int(col)),
        rat_lt(rat_of_int(col), x1@),
    ensures
        interior_at(rect_vertices(x0, y0, x1, y1), FillRule::NonZero, row, col),
        interior_at(rect_vertices(x0, y0, x1, y1), FillRule::EvenOdd, row, col),
{
    let vs = rect_vertices(x0, y0, x1, y1);
    assert(vs.len() == 4);
    assert(vs[0] == (Point { x: x0, y: y0 }));
    assert(vs[1] == (Point { x: x1, y: y0 }));
    assert(vs[2] == (Point { x: x1, y: y1 }));
    assert(vs[3] == (Point { x: x0, y: y1 }));
    // y0 < row < y1 as cross products
    assert(rat_lt(y0@, y1@)) by (nonlinear_arith)
        requires
            y0@.0 * 1 < row * y0@.1,
            row * y1@.1 < y1@.0 * 1,
            y0@.1 >= 1,
            y1@.1 >= 1,
    ;
    // the two horizontal sides contribute nothing
    let e0 = poly_edge(vs, 0);
    let e2 = poly_edge(vs, 2);
    assert(e0 == (Line { start: vs[0], end: vs[1] }));
    assert(e2 == (Line { start: vs[2], end: vs[3] }));
    lemma_horizontal_edge_inert(e0, row, col);
    lemma_horizontal_edge_inert(e2, row, col);
    // the right side crosses at x1, strictly right of the column
    let e1 = poly_edge(vs, 1);
    assert(e1 == (Line { start: vs[1], end: vs[2] }));
    assert(e1.lo() == vs[1] && e1.hi() == vs[2]);
    lemma_vertical_icept(e1, row, col);
    assert(!rat_le(x1@, rat_of_int(col)));
    assert(!crossing_counted(e1, row, col));
    // the left side runs downward and crosses at x0, at or left of the column
    let e3 = poly_edge(vs, 3);
    assert(e3 == (Line { start: vs[3], end: vs[0] }));
    assert(!rat_le(e3.start.y@, e3.end.y@));
    assert(e3.lo() == vs[0] && e3.hi() == vs[3]);
    assert(!e3.horizontal());
    lemma_vertical_icept(e3, row, col);
    assert(rat_le(edge_icept(e3, row), rat_of_int(col)));
    // the left side is active at this row
    assert(y0@.0 <= row * y0@.1);
    lemma_ceil_le(y0@, row);
    lemma_int_lt_ceil(row, y1@);
    lemma_int_lt_floor(row, y1@);
    assert(edge_active(e3, row));
    assert(crossing_counted(e3, row, col));
    assert(!e3.upward());
    // total the four contributions
    assert(winding_prefix(vs, FillRule::NonZero, row, col, 0) == 0);
    assert(winding_prefix(vs, FillRule::NonZero, row, col, 1) == 0);
    assert(winding_prefix(vs, FillRule::NonZero, row, col, 2) == 0);
    assert(winding_prefix(vs, FillRule::NonZero, row, col, 3) == 0);
    assert(winding_prefix(vs, FillRule::NonZero, row, col, 4) == -1);
    assert(winding_prefix(vs, FillRule::EvenOdd, row, col, 0) == 0);
    assert(winding_prefix(vs, FillRule::EvenOdd, row, col, 1) == 0);
    assert(winding_prefix(vs, FillRule::EvenOdd, row, col, 2) == 0);
    assert(winding_prefix(vs, FillRule::EvenOdd, row, col, 3) == 0);
    assert(winding_prefix(vs, FillRule::EvenOdd, row, col, 4) == 1);
}

} // verus!
