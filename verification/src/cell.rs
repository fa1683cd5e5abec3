//! A single grid cell: one boolean alive/dead state.

use vstd::prelude::*;

verus! {

/// A single living (or dead) entity in the grid. Two cells with the
/// same `alive` value are interchangeable: a cell has no identity.
#[derive(Clone, Copy, Debug, PartialEq, Eq, Structural)]
pub struct Cell {
    pub alive: bool,
}

impl Cell {
    /// A fresh cell starts dead.
    pub fn new() -> (r: Cell)
        ensures
            !r.alive,
    {
        Cell { alive: false }
    }

    /// Set the cell's alive state to an arbitrary boolean.
    pub fn set_state(&mut self, state: bool)
        ensures
            final(self).alive == state,
    {
        self.alive = state;
    }

    /// Mark the cell alive.
    pub fn spawn(&mut self)
        ensures
            final(self).alive,
    {
        self.alive = true;
    }

    /// Mark the cell dead.
    pub fn kill(&mut self)
        ensures
            !final(self).alive,
    {
        self.alive = false;
    }

    /// An independent copy with the same state.
    pub fn copy(self) -> (r: Cell)
        ensures
            r == self,
    {
        Cell { alive: self.alive }
    }
}

} // verus!
