//! Direction of a horizontal or token-wise cursor movement.

use vstd::prelude::*;

verus! {

#[derive(Copy, Clone, PartialEq, Eq, Structural)]
pub enum Direction {
    Right,
    Left,
}

impl Direction {
    /// Signed column step taken by a probe moving in this direction.
    pub fn step(self) -> (r: isize)
        ensures
            self is Right ==> r == 1isize,
            self is Left ==> r == -1isize,
    {
        match self {
            Direction::Right => 1,
            Direction::Left => -1,
        }
    }
}

} // verus!
