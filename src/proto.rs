//! The messages between a client and the server.

use vstd::prelude::*;
use crate::common::CellState;

verus! {

/// A message from the server to a client.
#[derive(Clone, Debug, PartialEq)]
#[allow(inconsistent_fields)]
pub enum FromServer {
    /// The whole viewport: `tiles[row][col]` is the cell at `(x + col, y + row)`.
    FullRefresh { x: i32, y: i32, tiles: Vec<Vec<CellState>> },
    /// The perimeter of the viewport, in perimeter-walk order.
    PartialRefresh { tiles: Vec<CellState> },
}

/// A message from a client to the server.
#[derive(Clone, Copy, Debug, PartialEq, Eq, Structural)]
pub enum FromClient {
    ModifyCell { x: i32, y: i32, cell: CellState },
    SetView { x: i32, y: i32, w: i32, h: i32 },
    StartStream,
}

} // verus!
