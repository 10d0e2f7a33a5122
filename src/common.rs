//! Cell states, lattice points, viewports and the Wireworld rule.

use vstd::prelude::*;

verus! {

/// The state of one lattice cell. `Empty` stands for a cell that is not stored.
#[derive(Clone, Copy, Debug, PartialEq, Eq, Structural)]
pub enum CellState {
    Alive,
    Dead,
    Empty,
    Wire,
}

/// A lattice point; `x` grows rightward and `y` downward.
#[derive(Clone, Copy, Debug, PartialEq, Eq, Hash, Structural)]
pub struct Point {
    pub x: i32,
    pub y: i32,
}

/// A rectangle of tiles `x <= X < x + w`, `y <= Y < y + h`.
#[derive(Clone, Copy, Debug, PartialEq, Eq, Structural)]
pub struct Viewport {
    pub x: i32,
    pub y: i32,
    pub w: i32,
    pub h: i32,
}

pub open spec fn abs(v: int) -> int {
    if v < 0 {
        -v
    } else {
        v
    }
}

/// The king-move (Chebyshev) distance of two points.
pub open spec fn chebyshev(p: Point, q: Point) -> int {
    let dx = abs(p.x - q.x);
    let dy = abs(p.y - q.y);
    if dx < dy {
        dy
    } else {
        dx
    }
}

/// `q` is one of the eight king-neighbors of `p`.
pub open spec fn adjacent(p: Point, q: Point) -> bool {
    chebyshev(p, q) == 1
}

/// The Wireworld rule: the next state of a cell in state `s` that has
/// `alive` neighbors in state `Alive`.
pub open spec fn next_state(s: CellState, alive: int) -> CellState {
    match s {
        CellState::Alive => CellState::Dead,
        CellState::Dead => CellState::Wire,
        CellState::Empty => CellState::Empty,
        CellState::Wire => if alive == 1 || alive == 2 {
            CellState::Alive
        } else {
            CellState::Wire
        },
    }
}

/// `v` is the value of an `i32`.
pub open spec fn in_i32(v: int) -> bool {
    i32::MIN <= v <= i32::MAX
}

} // verus!
