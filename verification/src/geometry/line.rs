//! A polygon edge: an ordered pair of points, not necessarily monotonic in y.

use vstd::prelude::*;

use crate::geometry::point::Point;
use crate::nums::lemma_mul_bound;
use crate::nums::rat_bounded;
use crate::nums::rat_div;
use crate::nums::rat_eqv;
use crate::nums::rat_le;
use crate::nums::rat_le_exec;
use crate::nums::rat_lt;
use crate::nums::rat_sub;
use crate::nums::Rat;

verus! {

/// Coordinate magnitude accepted by `Line::inv_slope`: products of four
/// such coordinates fit comfortably in an `i64`.
pub const COORD_LIMIT: i64 = 32768;

#[derive(Debug, PartialEq, Clone, Copy)]
pub struct Line<T> {
    pub start: Point<T>,
    pub end: Point<T>,
}

impl<T> Line<T> {
    pub fn new(start: Point<T>, end: Point<T>) -> (r: Self)
        ensures
            r.start == start,
            r.end == end,
    {
        Line { start, end }
    }
}

impl Point<Rat> {
    pub open spec fn wf(self) -> bool {
        self.x.wf() && self.y.wf()
    }

    pub open spec fn bounded(self, b: int) -> bool {
        rat_bounded(self.x@, b) && rat_bounded(self.y@, b)
    }
}

impl Line<Rat> {
    pub open spec fn wf(self) -> bool {
        self.start.wf() && self.end.wf()
    }

    pub open spec fn bounded(self, b: int) -> bool {
        self.start.bounded(b) && self.end.bounded(b)
    }

    /// The edge runs parallel to a scan row.
    pub open spec fn horizontal(self) -> bool {
        rat_eqv(self.start.y@, self.end.y@)
    }

    /// The edge's original orientation proceeds from lower to higher y.
    pub open spec fn upward(self) -> bool {
        rat_lt(self.start.y@, self.end.y@)
    }

    /// The endpoint with the smaller y (the start on a tie).
    pub open spec fn lo(self) -> Point<Rat> {
        if rat_le(self.start.y@, self.end.y@) {
            self.start
        } else {
            self.end
        }
    }

    /// The endpoint with the larger y (the start on a tie).
    pub open spec fn hi(self) -> Point<Rat> {
        if rat_le(self.end.y@, self.start.y@) {
            self.start
        } else {
            self.end
        }
    }

    /// Run per unit rise, `(end.x - start.x) / (end.y - start.y)`, or
    /// `None` for a horizontal edge.  The result is normalized to a
    /// positive denominator.
    pub fn inv_slope(&self) -> (r: Option<Rat>)
        requires
            self.wf(),
            self.bounded(COORD_LIMIT as int),
        ensures
            match r {
                None => self.horizontal(),
                Some(m) => !self.horizontal() && m.wf() && rat_eqv(
                    m@,
                    rat_div(
                        rat_sub(self.end.x@, self.start.x@),
                        rat_sub(self.end.y@, self.start.y@),
                    ),
                ),
            },
    {
        let b: i64 = COORD_LIMIT;
        proof {
            lemma_mul_bound(self.end.y.num as int, self.start.y.den as int, b as int, b as int);
            lemma_mul_bound(self.start.y.num as int, self.end.y.den as int, b as int, b as int);
        }
        let syn: i64 = self.end.y.num * self.start.y.den - self.start.y.num * self.end.y.den;
        if syn == 0 {
            None
        } else {
            proof {
                lemma_mul_bound(self.end.x.num as int, self.start.x.den as int, b as int, b as int);
                lemma_mul_bound(self.start.x.num as int, self.end.x.den as int, b as int, b as int);
                lemma_mul_bound(self.end.x.den as int, self.start.x.den as int, b as int, b as int);
                lemma_mul_bound(self.end.y.den as int, self.start.y.den as int, b as int, b as int);
            }
            let sxn: i64 = self.end.x.num * self.start.x.den - self.start.x.num * self.end.x.den;
            let sxd: i64 = self.end.x.den * self.start.x.den;
            let syd: i64 = self.end.y.den * self.start.y.den;
            proof {
                lemma_mul_bound(sxn as int, syd as int, 2 * (b as int) * (b as int), (b as int) * (b as int));
                lemma_mul_bound(sxd as int, syn as int, (b as int) * (b as int), 2 * (b as int) * (b as int));
            }
            let mn: i64 = sxn * syd;
            let md: i64 = sxd * syn;
            proof {
                assert(sxd as int >= 1 && syd as int >= 1) by (nonlinear_arith)
                    requires
                        sxd as int == self.end.x.den as int * self.start.x.den as int,
                        syd as int == self.end.y.den as int * self.start.y.den as int,
                        self.end.x.den as int >= 1,
                        self.start.x.den as int >= 1,
                        self.end.y.den as int >= 1,
                        self.start.y.den as int >= 1,
                ;
                assert(md != 0) by (nonlinear_arith)
                    requires
                        sxd as int >= 1,
                        syn as int != 0,
                        md as int == sxd as int * syn as int,
                ;
                assert((-(mn as int)) * (md as int) == (mn as int) * (-(md as int))) by (nonlinear_arith);
            }
            if md < 0 {
                Some(Rat { num: -mn, den: -md })
            } else {
                Some(Rat { num: mn, den: md })
            }
        }
    }

    pub fn y_min_point(&self) -> (r: Point<Rat>)
        ensures
            r == self.lo(),
    {
        if rat_le_exec(&self.start.y, &self.end.y) {
            self.start
        } else {
            self.end
        }
    }

    pub fn y_max_point(&self) -> (r: Point<Rat>)
        ensures
            r == self.hi(),
    {
        if rat_le_exec(&self.end.y, &self.start.y) {
            self.start
        } else {
            self.end
        }
    }
}

} // verus!
