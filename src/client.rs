//! The client's side of the stream: a buffer of the tiles of its viewport,
//! patched between full refreshes by evolving the interior locally and taking
//! the perimeter from the server; and the conversions between canvas pixels
//! and tiles.

use vstd::prelude::*;
use crate::common::{in_i32, next_state, CellState, Viewport};
use crate::world::{
    alive_at, alive_neighbors, perimeter_cells, perimeter_points, rows_of, slice_cells,
    stepped,
};
use crate::common::Point;
use crate::proto::FromServer;

verus! {

/// A tile buffer: `tiles[row][col]` is the tile at `(x + col, y + row)`.
#[derive(Clone, Debug)]
pub struct World {
    pub x: i32,
    pub y: i32,
    pub tiles: Vec<Vec<CellState>>,
}

/// What a drag on the canvas has done so far.
#[derive(Clone, Copy, Debug, PartialEq, Eq, Structural)]
pub enum MousedownState {
    Still { start_x: i32, start_y: i32 },
    Drag { prev_x: i32, prev_y: i32 },
}

/// The tile at row `r`, column `c` of a buffer, if there is one.
pub open spec fn buffer_cell(b: Seq<Seq<CellState>>, c: int, r: int) -> Option<CellState> {
    if 0 <= r < b.len() && 0 <= c < b[r].len() {
        Some(b[r][c])
    } else {
        None
    }
}

/// Every row of `b` has `w` tiles, and there are `h` rows.
pub open spec fn is_rect(b: Seq<Seq<CellState>>, w: int, h: int) -> bool {
    b.len() == h && forall|r: int| 0 <= r < h ==> (#[trigger] b[r]).len() == w
}

/// `(r, c)` lies on the outer ring of a `w` by `h` buffer.
pub open spec fn on_ring(r: int, c: int, w: int, h: int) -> bool {
    r == 0 || r == h - 1 || c == 0 || c == w - 1
}

/// The position of the ring tile `(r, c)` in the perimeter walk of the buffer.
pub open spec fn ring_index(r: int, c: int, w: int, h: int) -> int {
    if c == 0 {
        r
    } else if r == h - 1 {
        h + c - 1
    } else if c == w - 1 {
        h + w - 1 + (h - 2 - r)
    } else {
        h + w - 1 + h - 1 + (w - 2 - c)
    }
}

pub open spec fn alive_in(b: Seq<Seq<CellState>>, r: int, c: int) -> int {
    if b[r][c] == CellState::Alive {
        1
    } else {
        0
    }
}

/// How many of the eight neighbors of the interior tile `(r, c)` are `Alive`.
pub open spec fn buffer_alive_neighbors(b: Seq<Seq<CellState>>, r: int, c: int) -> int {
    alive_in(b, r - 1, c - 1) + alive_in(b, r - 1, c) + alive_in(b, r - 1, c + 1) + alive_in(
        b,
        r,
        c - 1,
    ) + alive_in(b, r, c + 1) + alive_in(b, r + 1, c - 1) + alive_in(b, r + 1, c) + alive_in(
        b,
        r + 1,
        c + 1,
    )
}

/// The buffer one tick later: the interior evolved by the Wireworld rule, the
/// ring taken from `ring` in perimeter-walk order.
pub open spec fn buffer_step(b: Seq<Seq<CellState>>, ring: Seq<CellState>, w: int, h: int) -> Seq<
    Seq<CellState>,
> {
    Seq::new(
        h as nat,
        |r: int|
            Seq::new(
                w as nat,
                |c: int|
                    if on_ring(r, c, w, h) {
                        ring[ring_index(r, c, w, h)]
                    } else {
                        next_state(b[r][c], buffer_alive_neighbors(b, r, c))
                    },
            ),
    )
}

/// The ring positions follow the perimeter walk: the `k`-th point of the
/// walk of a `w` by `h` rectangle is a ring tile whose position is `k`.
pub proof fn lemma_ring_order(w: int, h: int, k: int)
    requires
        w >= 2,
        h >= 2,
        0 <= k < 2 * w + 2 * h - 4,
    ensures
        ({
            let p = perimeter_points(0, 0, w, h)[k];
            &&& 0 <= p.0 < w
            &&& 0 <= p.1 < h
            &&& on_ring(p.1, p.0, w, h)
            &&& ring_index(p.1, p.0, w, h) == k
        }),
{
}

/// Every ring tile of a `w` by `h` rectangle has a position in the walk, and
/// the walk passes it there.
pub proof fn lemma_ring_covered(w: int, h: int, r: int, c: int)
    requires
        w >= 2,
        h >= 2,
        0 <= r < h,
        0 <= c < w,
        on_ring(r, c, w, h),
    ensures
        0 <= ring_index(r, c, w, h) < 2 * w + 2 * h - 4,
        perimeter_points(0, 0, w, h)[ring_index(r, c, w, h)] == (c, r),
{
}

/// A buffer that holds the full refresh of a `w` by `h` viewport at `(x, y)`,
/// stepped with the perimeter of the next version, holds the full refresh of
/// that next version.
pub proof fn lemma_buffer_tracks_world(m: Map<Point, CellState>, x: int, y: int, w: int, h: int)
    requires
        w >= 2,
        h >= 2,
    ensures
        buffer_step(slice_cells(m, x, y, w, h), perimeter_cells(stepped(m), x, y, w, h), w, h)
            == slice_cells(stepped(m), x, y, w, h),
{
    let b = slice_cells(m, x, y, w, h);
    let ring = perimeter_cells(stepped(m), x, y, w, h);
    let lhs = buffer_step(b, ring, w, h);
    let rhs = slice_cells(stepped(m), x, y, w, h);
    assert forall|r: int, c: int| 0 <= r < h && 0 <= c < w implies lhs[r][c] == rhs[r][c] by {
        if on_ring(r, c, w, h) {
            lemma_ring_covered(w, h, r, c);
            let k = ring_index(r, c, w, h);
            assert(perimeter_points(x, y, w, h)[k] == (x + c, y + r));
        } else {
            let gx = x + c;
            let gy = y + r;
            assert(alive_in(b, r - 1, c - 1) == alive_at(m, gx - 1, gy - 1));
            assert(alive_in(b, r - 1, c) == alive_at(m, gx, gy - 1));
            assert(alive_in(b, r - 1, c + 1) == alive_at(m, gx + 1, gy - 1));
            assert(alive_in(b, r, c - 1) == alive_at(m, gx - 1, gy));
            assert(alive_in(b, r, c + 1) == alive_at(m, gx + 1, gy));
            assert(alive_in(b, r + 1, c - 1) == alive_at(m, gx - 1, gy + 1));
            assert(alive_in(b, r + 1, c) == alive_at(m, gx, gy + 1));
            assert(alive_in(b, r + 1, c + 1) == alive_at(m, gx + 1, gy + 1));
            if in_i32(gx) && in_i32(gy) {
                let q = Point { x: gx as i32, y: gy as i32 };
                assert(buffer_alive_neighbors(b, r, c) == alive_neighbors(m, q));
            }
        }
    }
    assert forall|r: int| 0 <= r < h implies lhs[r] =~= rhs[r] by {}
    assert(lhs =~= rhs);
}

fn alive_exec(t: CellState) -> (r: usize)
    ensures
        r == if t == CellState::Alive {
            1int
        } else {
            0int
        },
{
    if t == CellState::Alive {
        1
    } else {
        0
    }
}

fn ring_tile(data: &Vec<CellState>, r: usize, c: usize, w: usize, h: usize) -> (t: CellState)
    requires
        w >= 2,
        h >= 2,
        r < h,
        c < w,
        on_ring(r as int, c as int, w as int, h as int),
        data@.len() == 2 * w + 2 * h - 4,
    ensures
        t == data@[ring_index(r as int, c as int, w as int, h as int)],
{
    assert(data.len() <= usize::MAX);
    if c == 0 {
        data[r]
    } else if r == h - 1 {
        data[h + c - 1]
    } else if c == w - 1 {
        data[h + w - 1 + (h - 2 - r)]
    } else {
        data[h + w - 1 + h - 1 + (w - 2 - c)]
    }
}

fn interior_tile(tiles: &Vec<Vec<CellState>>, r: usize, c: usize, w: usize, h: usize) -> (t:
    CellState)
    requires
        is_rect(rows_of(*tiles), w as int, h as int),
        1 <= r < h - 1,
        1 <= c < w - 1,
    ensures
        t == next_state(
            rows_of(*tiles)[r as int][c as int],
            buffer_alive_neighbors(rows_of(*tiles), r as int, c as int),
        ),
{
    let ghost b = rows_of(*tiles);
    assert(b[r - 1].len() == w && b[r as int].len() == w && b[r + 1].len() == w);
    let up = &tiles[r - 1];
    let mid = &tiles[r];
    let down = &tiles[r + 1];
    assert(up@ == b[r - 1] && mid@ == b[r as int] && down@ == b[r + 1]);
    let n = alive_exec(up[c - 1]) + alive_exec(up[c]) + alive_exec(up[c + 1]) + alive_exec(
        mid[c - 1],
    ) + alive_exec(mid[c + 1]) + alive_exec(down[c - 1]) + alive_exec(down[c]) + alive_exec(
        down[c + 1],
    );
    match mid[c] {
        CellState::Alive => CellState::Dead,
        CellState::Dead => CellState::Wire,
        CellState::Empty => CellState::Empty,
        CellState::Wire => if n == 1 || n == 2 {
            CellState::Alive
        } else {
            CellState::Wire
        },
    }
}

impl World {
    /// The tile at `(x, y)`, if the buffer covers it.
    pub fn get_cell(&self, x: i32, y: i32) -> (r: Option<CellState>)
        ensures
            r == buffer_cell(rows_of(self.tiles), x - self.x, y - self.y),
    {
        let iy: i64 = y as i64 - self.y as i64;
        let ix: i64 = x as i64 - self.x as i64;
        if iy >= 0 && (iy as u64) < (self.tiles.len() as u64) {
            let row = &self.tiles[iy as usize];
            if ix >= 0 && (ix as u64) < (row.len() as u64) {
                return Some(row[ix as usize]);
            }
        }
        None
    }

    /// Sets the tile at `(x, y)` when the buffer covers it; `None` when not.
    pub fn set_cell(&mut self, x: i32, y: i32, val: CellState) -> (r: Option<()>)
        ensures
            final(self).x == old(self).x,
            final(self).y == old(self).y,
            r is Some == buffer_cell(rows_of(old(self).tiles), x - old(self).x, y - old(self).y) is Some,
            rows_of(final(self).tiles) == if r is Some {
                rows_of(old(self).tiles).update(
                    y - old(self).y,
                    rows_of(old(self).tiles)[y - old(self).y].update(x - old(self).x, val),
                )
            } else {
                rows_of(old(self).tiles)
            },
    {
        let iy: i64 = y as i64 - self.y as i64;
        let ix: i64 = x as i64 - self.x as i64;
        if iy >= 0 && (iy as u64) < (self.tiles.len() as u64) {
            let iy = iy as usize;
            if ix >= 0 && (ix as u64) < (self.tiles[iy].len() as u64) {
                let ix = ix as usize;
                self.tiles[iy][ix] = val;
                assert(rows_of(self.tiles) =~= rows_of(old(self).tiles).update(
                    y - old(self).y,
                    rows_of(old(self).tiles)[y - old(self).y].update(x - old(self).x, val),
                ));
                return Some(());
            }
        }
        None
    }

    /// Advances the buffer one tick: the interior by the Wireworld rule, read
    /// from the buffer before the tick; the ring from `data`, given in
    /// perimeter-walk order.
    pub fn step(&mut self, data: Vec<CellState>)
        requires
            old(self).tiles@.len() >= 2,
            is_rect(rows_of(old(self).tiles), old(self).tiles@[0]@.len() as int, old(self).tiles@.len() as int),
            old(self).tiles@[0]@.len() >= 2,
            data@.len() == 2 * old(self).tiles@[0]@.len() + 2 * old(self).tiles@.len() - 4,
        ensures
            final(self).x == old(self).x,
            final(self).y == old(self).y,
            rows_of(final(self).tiles) == buffer_step(
                rows_of(old(self).tiles),
                data@,
                old(self).tiles@[0]@.len() as int,
                old(self).tiles@.len() as int,
            ),
    {
        let ghost b = rows_of(self.tiles);
        let h = self.tiles.len();
        let w = self.tiles[0].len();
        let ghost target = buffer_step(b, data@, w as int, h as int);
        let dl = data.len();
        let mut next: Vec<Vec<CellState>> = Vec::new();
        let mut r: usize = 0;
        while r < h
            invariant
                b == rows_of(self.tiles),
                h == self.tiles@.len(),
                h >= 2 && w >= 2,
                is_rect(b, w as int, h as int),
                data@.len() == 2 * w + 2 * h - 4,
                dl == data@.len(),
                target == buffer_step(b, data@, w as int, h as int),
                r <= h,
                next@.len() == r,
                forall|r2: int| 0 <= r2 < r ==> (#[trigger] next@[r2])@ == target[r2],
            decreases h - r,
        {
            let mut row: Vec<CellState> = Vec::new();
            let mut c: usize = 0;
            while c < w
                invariant
                    b == rows_of(self.tiles),
                    h == self.tiles@.len(),
                    h >= 2 && w >= 2,
                    is_rect(b, w as int, h as int),
                    data@.len() == 2 * w + 2 * h - 4,
                    dl == data@.len(),
                    target == buffer_step(b, data@, w as int, h as int),
                    r < h,
                    c <= w,
                    row@.len() == c,
                    forall|c2: int| 0 <= c2 < c ==> #[trigger] row@[c2] == target[r as int][c2],
                decreases w - c,
            {
                let t = if c == 0 || r == h - 1 || c == w - 1 || r == 0 {
                    ring_tile(&data, r, c, w, h)
                } else {
                    interior_tile(&self.tiles, r, c, w, h)
                };
                row.push(t);
                c += 1;
            }
            next.push(row);
            r += 1;
        }
        self.tiles = next;
        assert(rows_of(self.tiles) =~= target);
    }

    /// Every row has as many tiles as the first, and there are at least two
    /// rows of at least two tiles.
    fn patchable(&self) -> (r: bool)
        ensures
            r == (self.tiles@.len() >= 2 && self.tiles@[0]@.len() >= 2 && is_rect(
                rows_of(self.tiles),
                self.tiles@[0]@.len() as int,
                self.tiles@.len() as int,
            )),
    {
        if self.tiles.len() < 2 || self.tiles[0].len() < 2 {
            return false;
        }
        let w = self.tiles[0].len();
        let mut r: usize = 0;
        while r < self.tiles.len()
            invariant
                r <= self.tiles@.len(),
                w == self.tiles@[0]@.len(),
                forall|r2: int| 0 <= r2 < r ==> (#[trigger] rows_of(self.tiles)[r2]).len() == w,
            decreases self.tiles@.len() - r,
        {
            if self.tiles[r].len() != w {
                assert(rows_of(self.tiles)[r as int].len() != w);
                return false;
            }
            r += 1;
        }
        true
    }

    /// Takes in a server message: a full refresh replaces the buffer; a
    /// perimeter refresh steps it when its length fits the buffer, and is
    /// refused (`false`, buffer unchanged) otherwise.
    pub fn apply_refresh(&mut self, msg: FromServer) -> (applied: bool)
        ensures
            match msg {
                FromServer::FullRefresh { x, y, tiles } => applied && final(self).x == x
                    && final(self).y == y && rows_of(final(self).tiles) == rows_of(tiles),
                FromServer::PartialRefresh { tiles } => {
                    let h = old(self).tiles@.len() as int;
                    let w = if h > 0 {
                        old(self).tiles@[0]@.len() as int
                    } else {
                        0
                    };
                    let fits = h >= 2 && w >= 2 && is_rect(rows_of(old(self).tiles), w, h)
                        && tiles@.len() == 2 * w + 2 * h - 4;
                    &&& applied == fits
                    &&& final(self).x == old(self).x
                    &&& final(self).y == old(self).y
                    &&& rows_of(final(self).tiles) == if fits {
                        buffer_step(rows_of(old(self).tiles), tiles@, w, h)
                    } else {
                        rows_of(old(self).tiles)
                    }
                },
            },
    {
        match msg {
            FromServer::FullRefresh { x, y, tiles } => {
                self.x = x;
                self.y = y;
                self.tiles = tiles;
                true
            },
            FromServer::PartialRefresh { tiles } => {
                if !self.patchable() {
                    return false;
                }
                let h = self.tiles.len();
                let w = self.tiles[0].len();
                if tiles.len() as u128 != 2 * (w as u128) + 2 * (h as u128) - 4 {
                    return false;
                }
                self.step(tiles);
                true
            },
        }
    }
}

/// The tile under the canvas pixel `(x, y)`, the canvas showing `viewport`
/// (in pixels) with tiles `zoom` pixels wide.
pub fn pixel_to_tile(viewport: Viewport, zoom: i32, x: i32, y: i32) -> (r: (i32, i32))
    requires
        zoom > 0,
        in_i32(x + viewport.x),
        in_i32(y + viewport.y),
    ensures
        r.0 == (x + viewport.x) / (zoom as int),
        r.1 == (y + viewport.y) / (zoom as int),
{
    let a: i64 = x as i64 + viewport.x as i64;
    let b: i64 = y as i64 + viewport.y as i64;
    let z: i64 = zoom as i64;
    assert(i32::MIN <= a / z <= i32::MAX && i32::MIN <= b / z <= i32::MAX) by (nonlinear_arith)
        requires
            z >= 1,
            i32::MIN <= a <= i32::MAX,
            i32::MIN <= b <= i32::MAX,
    ;
    let tx = a.checked_div_euclid(z).unwrap();
    let ty = b.checked_div_euclid(z).unwrap();
    (tx as i32, ty as i32)
}

/// The canvas pixel of the top-left corner of the tile `(x, y)`.
pub fn tile_to_pixel(viewport: Viewport, zoom: i32, x: i32, y: i32) -> (r: (i32, i32))
    requires
        in_i32(x * zoom - viewport.x),
        in_i32(y * zoom - viewport.y),
    ensures
        r.0 == x * zoom - viewport.x,
        r.1 == y * zoom - viewport.y,
{
    assert(-0x4000_0000_0000_0000 <= (x as int) * (zoom as int) <= 0x4000_0000_0000_0000
        && -0x4000_0000_0000_0000 <= (y as int) * (zoom as int) <= 0x4000_0000_0000_0000)
        by (nonlinear_arith)
        requires
            i32::MIN <= x <= i32::MAX,
            i32::MIN <= y <= i32::MAX,
            i32::MIN <= zoom <= i32::MAX,
    ;
    let px: i64 = x as i64 * zoom as i64 - viewport.x as i64;
    let py: i64 = y as i64 * zoom as i64 - viewport.y as i64;
    (px as i32, py as i32)
}

} // verus!
