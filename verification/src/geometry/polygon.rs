//! An ordered sequence of vertices, implicitly closed by an edge from the
//! last vertex back to the first.

use vstd::prelude::*;

use crate::geometry::line::Line;
use crate::geometry::point::Point;

verus! {

#[derive(Debug, PartialEq, Clone)]
pub struct Polygon<T: Copy> {
    pub vertices: Vec<Point<T>>,
}

impl<T: Copy> Polygon<T> {
    pub fn new() -> (r: Self)
        ensures
            r.vertices@.len() == 0,
    {
        Polygon { vertices: Vec::new() }
    }

    /// Builds a polygon from a flat coordinate list `x0, y0, x1, y1, ...`;
    /// an odd-length list is rejected.
    pub fn from_vec(v: Vec<T>) -> (r: Option<Self>)
        ensures
            match r {
                None => v@.len() % 2 == 1,
                Some(p) => v@.len() % 2 == 0 && p.vertices@.len() == v@.len() / 2 && forall|i: int|
                    0 <= i < p.vertices@.len() ==> p.vertices@[i] == (Point {
                        x: v@[2 * i],
                        y: v@[2 * i + 1],
                    }),
            },
    {
        if v.len() % 2 != 0 {
            return None;
        }
        let mut poly = Self::new();
        let n = v.len() / 2;
        for i in 0..n
            invariant
                v@.len() == 2 * n,
                2 * n <= usize::MAX,
                poly.vertices@.len() == i,
                forall|j: int|
                    0 <= j < i ==> poly.vertices@[j] == (Point { x: v@[2 * j], y: v@[2 * j + 1] }),
        {
            poly.add_point(Point { x: v[2 * i], y: v[2 * i + 1] });
        }
        Some(poly)
    }

    pub fn add_point(&mut self, point: Point<T>)
        ensures
            final(self).vertices@ == old(self).vertices@.push(point),
    {
        self.vertices.push(point);
    }

    /// The polygon's edges as a cyclic sequence: one line from each vertex
    /// to its successor, the last vertex closing back to the first.
    pub fn edges(&self) -> (r: Vec<Line<T>>)
        ensures
            r@.len() == self.vertices@.len(),
            forall|i: int|
                0 <= i < r@.len() ==> r@[i] == (Line {
                    start: self.vertices@[i],
                    end: self.vertices@[(i + 1) % (self.vertices@.len() as int)],
                }),
    {
        let n = self.vertices.len();
        let mut r: Vec<Line<T>> = Vec::new();
        for i in 0..n
            invariant
                n == self.vertices@.len(),
                r@.len() == i,
                forall|j: int|
                    0 <= j < i ==> r@[j] == (Line {
                        start: self.vertices@[j],
                        end: self.vertices@[(j + 1) % (n as int)],
                    }),
        {
            let next = if i + 1 == n {
                0
            } else {
                i + 1
            };
            proof {
                if i + 1 < n {
                    vstd::arithmetic::div_mod::lemma_small_mod((i + 1) as nat, n as nat);
                } else {
                    vstd::arithmetic::div_mod::lemma_mod_self_0(n as int);
                }
            }
            r.push(Line { start: self.vertices[i], end: self.vertices[next] });
        }
        r
    }
}

} // verus!
