use vstd::prelude::*;

verus! {

/// A point of the integer plane.
#[derive(Clone, Copy, Debug)]
pub struct Point {
    pub x: i32,
    pub y: i32,
}

impl Default for Point {
    /// The origin.
    fn default() -> (p: Self)
        ensures
            p.x == 0 && p.y == 0,
    {
        Point { x: 0, y: 0 }
    }
}

/// A path through the points of `points`, in order.
#[derive(Clone, Debug)]
pub struct Polyline {
    pub points: Vec<Point>,
}

impl Polyline {
    /// A polyline of the single point `point`.
    pub fn new(point: Point) -> (l: Polyline)
        ensures
            l.points@ == seq![point],
    {
        Polyline { points: vec![point] }
    }

    /// A polyline through `vec`, in order.
    pub fn from_vec(vec: Vec<Point>) -> (l: Polyline)
        ensures
            l.points@ == vec@,
    {
        Polyline { points: vec }
    }

    /// The number of points.
    pub fn len(&self) -> (n: usize)
        ensures
            n == self.points@.len(),
    {
        self.points.len()
    }
}

} // verus!
