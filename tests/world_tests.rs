use wire_universe::common::{CellState, Point};
use wire_universe::world::{sample_world, CellModification, World};

fn p(x: i32, y: i32) -> Point {
    Point { x, y }
}

#[test]
fn electron_step() {
    let mut w = sample_world();
    w.step();
    assert_eq!(w.get_tile(p(1, 0)), CellState::Dead);
    assert_eq!(w.get_tile(p(0, 1)), CellState::Wire);
    // (2, 1) touches the head at (1, 0) diagonally; (1, 2) lies two rows
    // below it, touches no head, and stays wire.
    assert_eq!(w.get_tile(p(2, 1)), CellState::Alive);
    assert_eq!(w.get_tile(p(1, 2)), CellState::Wire);
    assert_eq!(w.get_tile(p(1, 1)), CellState::Empty);
    w.step();
    assert_eq!(w.get_tile(p(1, 0)), CellState::Wire);
    assert_eq!(w.get_tile(p(2, 1)), CellState::Dead);
    assert_eq!(w.get_tile(p(1, 2)), CellState::Alive);
}

#[test]
fn lone_wire_stays_wire() {
    let mut w = World::new();
    w.set_tile(p(0, 0), CellState::Wire);
    w.step();
    assert_eq!(w.get_tile(p(0, 0)), CellState::Wire);
    for _ in 0..99 {
        w.step();
    }
    assert_eq!(w.get_tile(p(0, 0)), CellState::Wire);
    assert_eq!(w.copy_slice(-1, -1, 3, 3), vec![
        vec![CellState::Empty, CellState::Empty, CellState::Empty],
        vec![CellState::Empty, CellState::Wire, CellState::Empty],
        vec![CellState::Empty, CellState::Empty, CellState::Empty],
    ]);
}

#[test]
fn set_empty_then_get_is_empty() {
    let mut w = World::new();
    w.set_tile(p(3, 4), CellState::Alive);
    assert_eq!(w.get_tile(p(3, 4)), CellState::Alive);
    w.set_tile(p(3, 4), CellState::Empty);
    assert_eq!(w.get_tile(p(3, 4)), CellState::Empty);
    w.set_tile(p(3, 4), CellState::Empty);
    assert_eq!(w.get_tile(p(3, 4)), CellState::Empty);
}

#[test]
fn set_overwrites_state() {
    let mut w = World::new();
    w.set_tile(p(0, 0), CellState::Wire);
    w.set_tile(p(0, 0), CellState::Dead);
    assert_eq!(w.get_tile(p(0, 0)), CellState::Dead);
}

#[test]
fn removals_keep_the_rest() {
    // A 5x5 block of wire, then remove every other cell in a checkerboard.
    let mut w = World::new();
    for y in 0..5 {
        for x in 0..5 {
            w.set_tile(p(x, y), CellState::Wire);
        }
    }
    for y in 0..5 {
        for x in 0..5 {
            if (x + y) % 2 == 0 {
                w.set_tile(p(x, y), CellState::Empty);
            }
        }
    }
    for y in 0..5 {
        for x in 0..5 {
            let expected = if (x + y) % 2 == 0 { CellState::Empty } else { CellState::Wire };
            assert_eq!(w.get_tile(p(x, y)), expected);
        }
    }
    // The remaining graph still counts neighbors right: a head at (1, 0)
    // touches the wires at (0, 1) and (2, 1), which have one head each.
    w.set_tile(p(1, 0), CellState::Alive);
    w.step();
    assert_eq!(w.get_tile(p(1, 0)), CellState::Dead);
    assert_eq!(w.get_tile(p(0, 1)), CellState::Alive);
    assert_eq!(w.get_tile(p(2, 1)), CellState::Alive);
    assert_eq!(w.get_tile(p(1, 2)), CellState::Wire);
}

#[test]
fn remove_then_add_back_relinks() {
    let mut w = World::new();
    w.set_tile(p(0, 0), CellState::Alive);
    w.set_tile(p(1, 0), CellState::Wire);
    w.set_tile(p(5, 5), CellState::Wire);
    w.set_tile(p(0, 0), CellState::Empty);
    w.set_tile(p(0, 0), CellState::Alive);
    w.step();
    assert_eq!(w.get_tile(p(1, 0)), CellState::Alive);
    assert_eq!(w.get_tile(p(5, 5)), CellState::Wire);
    assert_eq!(w.get_tile(p(0, 0)), CellState::Dead);
}

#[test]
fn wire_with_three_heads_stays_wire() {
    let mut w = World::new();
    w.set_tile(p(1, 1), CellState::Wire);
    w.set_tile(p(0, 0), CellState::Alive);
    w.set_tile(p(1, 0), CellState::Alive);
    w.set_tile(p(2, 0), CellState::Alive);
    w.step();
    assert_eq!(w.get_tile(p(1, 1)), CellState::Wire);
}

#[test]
fn wire_with_two_heads_fires() {
    let mut w = World::new();
    w.set_tile(p(1, 1), CellState::Wire);
    w.set_tile(p(0, 2), CellState::Alive);
    w.set_tile(p(2, 0), CellState::Alive);
    w.step();
    assert_eq!(w.get_tile(p(1, 1)), CellState::Alive);
    assert_eq!(w.get_tile(p(0, 2)), CellState::Dead);
    w.step();
    assert_eq!(w.get_tile(p(1, 1)), CellState::Dead);
    assert_eq!(w.get_tile(p(0, 2)), CellState::Wire);
    w.step();
    assert_eq!(w.get_tile(p(1, 1)), CellState::Wire);
}

#[test]
fn step_reads_the_prior_state() {
    // A line of wire with a head at one end: the head moves one cell a tick.
    let mut w = World::new();
    for x in 0..5 {
        w.set_tile(p(x, 0), CellState::Wire);
    }
    w.set_tile(p(0, 0), CellState::Alive);
    w.step();
    assert_eq!(w.copy_slice(0, 0, 5, 1), vec![vec![
        CellState::Dead,
        CellState::Alive,
        CellState::Wire,
        CellState::Wire,
        CellState::Wire,
    ]]);
    w.step();
    assert_eq!(w.copy_slice(0, 0, 5, 1), vec![vec![
        CellState::Wire,
        CellState::Dead,
        CellState::Alive,
        CellState::Wire,
        CellState::Wire,
    ]]);
}

#[test]
fn copy_slice_is_row_major() {
    let mut w = World::new();
    w.set_tile(p(10, 20), CellState::Alive);
    w.set_tile(p(12, 20), CellState::Dead);
    w.set_tile(p(10, 21), CellState::Wire);
    let s = w.copy_slice(10, 20, 3, 2);
    assert_eq!(s.len(), 2);
    assert_eq!(s[0], vec![CellState::Alive, CellState::Empty, CellState::Dead]);
    assert_eq!(s[1], vec![CellState::Wire, CellState::Empty, CellState::Empty]);
}

#[test]
fn copy_slice_of_nothing() {
    let w = sample_world();
    assert_eq!(w.copy_slice(0, 0, 0, 0), Vec::<Vec<CellState>>::new());
    assert_eq!(w.copy_slice(0, 0, 3, 0), Vec::<Vec<CellState>>::new());
    assert_eq!(w.copy_slice(0, 0, 0, 2), vec![Vec::<CellState>::new(), Vec::new()]);
    assert_eq!(w.copy_slice(0, 0, -4, -1), Vec::<Vec<CellState>>::new());
}

#[test]
fn copy_slice_past_the_lattice_edge() {
    let mut w = World::new();
    w.set_tile(p(i32::MAX, i32::MAX), CellState::Wire);
    let s = w.copy_slice(i32::MAX - 1, i32::MAX, 3, 1);
    assert_eq!(s, vec![vec![CellState::Empty, CellState::Wire, CellState::Empty]]);
}

#[test]
fn corner_cells_of_the_lattice() {
    let mut w = World::new();
    w.set_tile(p(i32::MIN, i32::MIN), CellState::Alive);
    w.set_tile(p(i32::MIN + 1, i32::MIN + 1), CellState::Wire);
    w.set_tile(p(i32::MAX, i32::MAX), CellState::Wire);
    w.step();
    assert_eq!(w.get_tile(p(i32::MIN, i32::MIN)), CellState::Dead);
    assert_eq!(w.get_tile(p(i32::MIN + 1, i32::MIN + 1)), CellState::Alive);
    assert_eq!(w.get_tile(p(i32::MAX, i32::MAX)), CellState::Wire);
}

fn numbered_world() -> World {
    // Marks a 4x4 block so that perimeter order can be read back.
    let mut w = World::new();
    let cells = [CellState::Alive, CellState::Dead, CellState::Wire];
    let mut k = 0;
    for y in 0..4 {
        for x in 0..4 {
            w.set_tile(p(x, y), cells[k % 3]);
            k += 1;
        }
    }
    w
}

#[test]
fn copy_perimeter_order() {
    let w = numbered_world();
    let slice = w.copy_slice(0, 0, 4, 4);
    let ring = w.copy_perimeter(0, 0, 4, 4);
    assert_eq!(ring.len(), 2 * 4 + 2 * 4 - 4);
    let coords = [
        (0, 0), (0, 1), (0, 2), (0, 3),
        (1, 3), (2, 3), (3, 3),
        (3, 2), (3, 1), (3, 0),
        (2, 0), (1, 0),
    ];
    for (k, &(x, y)) in coords.iter().enumerate() {
        assert_eq!(ring[k], slice[y][x], "perimeter position {}", k);
    }
}

#[test]
fn copy_perimeter_lengths() {
    let w = World::new();
    assert_eq!(w.copy_perimeter(0, 0, 2, 2).len(), 4);
    assert_eq!(w.copy_perimeter(5, -5, 8, 8).len(), 28);
    assert_eq!(w.copy_perimeter(0, 0, 30, 3).len(), 62);
    assert_eq!(w.copy_perimeter(i32::MAX, i32::MIN, 2, 3).len(), 6);
}

#[test]
fn tick_applies_edits_publishes_then_steps() {
    let mut w = World::new();
    let edits = vec![
        CellModification { x: 0, y: 0, cell: CellState::Wire },
        CellModification { x: 1, y: 0, cell: CellState::Wire },
        CellModification { x: 0, y: 0, cell: CellState::Alive },
        CellModification { x: 7, y: 7, cell: CellState::Wire },
        CellModification { x: 7, y: 7, cell: CellState::Empty },
    ];
    let published = w.tick(&edits);
    assert_eq!(published.get_tile(p(0, 0)), CellState::Alive);
    assert_eq!(published.get_tile(p(1, 0)), CellState::Wire);
    assert_eq!(published.get_tile(p(7, 7)), CellState::Empty);
    assert_eq!(w.get_tile(p(0, 0)), CellState::Dead);
    assert_eq!(w.get_tile(p(1, 0)), CellState::Alive);
}

#[test]
fn snapshot_is_independent() {
    let mut w = sample_world();
    let s = w.snapshot();
    w.step();
    assert_eq!(s.get_tile(p(1, 0)), CellState::Alive);
    assert_eq!(w.get_tile(p(1, 0)), CellState::Dead);
    assert_eq!(s.copy_slice(0, 0, 3, 3), sample_world().copy_slice(0, 0, 3, 3));
}
