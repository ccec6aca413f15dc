//! Toroidal wrapping of positions: the play area repeats with the given
//! period in each axis, and a position that drifts past half a period
//! is folded back by one whole period.

use vstd::prelude::*;

use crate::point::Point;

verus! {

/// The periods of a toroidal play area.
#[derive(Clone, Copy, Debug)]
pub struct ToricGeometry {
    pub x: i64,
    pub y: i64,
}

impl ToricGeometry {
    /// Periods are positive and small enough that wrapping keeps
    /// coordinates representable.
    pub open spec fn wf(self) -> bool {
        0 < self.x <= crate::point::MAX_COORD && 0 < self.y <= crate::point::MAX_COORD
    }

    /// Folds `point` back by one period along each axis on which it has
    /// passed half a period.
    pub fn wrap(&self, point: &mut Point)
        requires
            self.wf(),
            old(point).wf(),
        ensures
            final(point).x == if old(point).x < -(self.x / 2) {
                old(point).x + self.x
            } else if old(point).x > self.x / 2 {
                old(point).x - self.x
            } else {
                old(point).x as int
            },
            final(point).y == if old(point).y < -(self.y / 2) {
                old(point).y + self.y
            } else if old(point).y > self.y / 2 {
                old(point).y - self.y
            } else {
                old(point).y as int
            },
    {
        if point.x < -(self.x / 2) {
            point.x = point.x + self.x;
        } else if point.x > self.x / 2 {
            point.x = point.x - self.x;
        }
        if point.y < -(self.y / 2) {
            point.y = point.y + self.y;
        } else if point.y > self.y / 2 {
            point.y = point.y - self.y;
        }
    }
}

} // verus!
