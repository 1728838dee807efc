//! Move validation: a position in the maze, updated only by moves that
//! pass first the grid boundary check and then the mask check.

use vstd::prelude::*;
use crate::grid::Direction;
use crate::maze::{has_bit, Maze};

verus! {

/// Whether a move from cell `p` toward `d` is accepted: the step stays
/// on the grid and the cell's mask has the passage toward `d` open.
pub open spec fn move_accepted(m: Maze, p: int, d: Direction) -> bool {
    m.grid.can_step(p, d) && has_bit(m.masks@[p], d)
}

/// The player's state: the current cell index, starting at the top-left
/// cell and solved on reaching the bottom-right one.
pub struct Navigator {
    pub pos: usize,
}

impl Navigator {
    pub open spec fn wf(self, m: Maze) -> bool {
        self.pos < m.grid.area()
    }

    /// Play starts at cell 0, the top-left corner.
    pub fn new(m: &Maze) -> (r: Navigator)
        requires
            m.wf(),
        ensures
            r.pos == 0,
            r.wf(*m),
    {
        proof {
            assert(m.grid.width * m.grid.height >= 1) by (nonlinear_arith)
                requires
                    m.grid.width >= 1,
                    m.grid.height >= 1,
            ;
        }
        Navigator { pos: 0 }
    }

    pub fn position(&self) -> (r: usize)
        ensures
            r == self.pos,
    {
        self.pos
    }

    /// Tries to move one cell toward `d`. A move off the grid or through
    /// a wall is silently rejected: the position is unchanged and `false`
    /// comes back. An accepted move steps by the direction's index delta.
    pub fn attempt_move(&mut self, m: &Maze, d: Direction) -> (moved: bool)
        requires
            m.wf(),
            old(self).wf(*m),
        ensures
            final(self).wf(*m),
            moved == move_accepted(*m, old(self).pos as int, d),
            moved ==> final(self).pos == m.grid.step(old(self).pos as int, d),
            !moved ==> final(self).pos == old(self).pos,
    {
        if m.grid.can_step_exec(self.pos, d) && m.is_open(self.pos, d) {
            self.pos = m.grid.step_to(self.pos, d);
            true
        } else {
            false
        }
    }

    /// The solved condition: the position is the bottom-right cell.
    pub fn is_solved(&self, m: &Maze) -> (r: bool)
        requires
            m.wf(),
            self.wf(*m),
        ensures
            r == (self.pos == m.grid.area() - 1),
    {
        proof {
            assert(m.grid.width * m.grid.height >= 1) by (nonlinear_arith)
                requires
                    m.grid.width >= 1,
                    m.grid.height >= 1,
            ;
        }
        self.pos == m.grid.area_exec() - 1
    }
}

} // verus!
