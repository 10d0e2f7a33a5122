use wire_universe::client::{pixel_to_tile, tile_to_pixel, World as TileBuffer};
use wire_universe::common::{CellState, Point, Viewport};
use wire_universe::proto::FromServer;
use wire_universe::world::World;

use CellState::{Alive, Dead, Empty, Wire};

#[test]
fn get_and_set_cell() {
    let mut b = TileBuffer { x: 10, y: -5, tiles: vec![vec![Empty; 3]; 2] };
    assert_eq!(b.get_cell(10, -5), Some(Empty));
    assert_eq!(b.get_cell(13, -5), None);
    assert_eq!(b.get_cell(10, -3), None);
    assert_eq!(b.set_cell(12, -4, Wire), Some(()));
    assert_eq!(b.get_cell(12, -4), Some(Wire));
    assert_eq!(b.set_cell(9, -4, Wire), None);
    assert_eq!(b.tiles, vec![vec![Empty, Empty, Empty], vec![Empty, Empty, Wire]]);
}

#[test]
fn far_coordinates_are_outside() {
    let b = TileBuffer { x: i32::MAX, y: i32::MIN, tiles: vec![vec![Dead]] };
    assert_eq!(b.get_cell(i32::MIN, i32::MAX), None);
    assert_eq!(b.get_cell(i32::MAX, i32::MIN), Some(Dead));
}

#[test]
fn step_evolves_interior_and_takes_ring() {
    let mut b = TileBuffer {
        x: 0,
        y: 0,
        tiles: vec![
            vec![Empty, Alive, Empty, Empty],
            vec![Empty, Wire, Wire, Empty],
            vec![Empty, Dead, Alive, Empty],
            vec![Empty, Empty, Empty, Empty],
        ],
    };
    let ring: Vec<CellState> = (0..12).map(|k| if k % 2 == 0 { Wire } else { Dead }).collect();
    b.step(ring);
    assert_eq!(b.tiles, vec![
        vec![Wire, Dead, Wire, Dead],
        vec![Dead, Alive, Alive, Wire],
        vec![Wire, Wire, Dead, Dead],
        vec![Dead, Wire, Dead, Wire],
    ]);
}

#[test]
fn buffer_follows_the_server() {
    // A client holding a full refresh, patched with the perimeter of the next
    // version, holds the next full refresh.
    let mut world = World::new();
    for x in 0..8 {
        world.set_tile(Point { x, y: 2 }, Wire);
    }
    world.set_tile(Point { x: 0, y: 2 }, Alive);
    world.set_tile(Point { x: 4, y: 1 }, Wire);
    world.set_tile(Point { x: 4, y: 3 }, Alive);
    let mut buffer = TileBuffer { x: 1, y: 0, tiles: world.copy_slice(1, 0, 5, 5) };
    for _ in 0..6 {
        world.step();
        buffer.step(world.copy_perimeter(1, 0, 5, 5));
        assert_eq!(buffer.tiles, world.copy_slice(1, 0, 5, 5));
    }
}

#[test]
fn pixel_and_tile_conversions() {
    let vp = Viewport { x: 30, y: -50, w: 800, h: 600 };
    assert_eq!(pixel_to_tile(vp, 20, 0, 0), (1, -3));
    assert_eq!(pixel_to_tile(vp, 20, -31, 49), (-1, -1));
    assert_eq!(tile_to_pixel(vp, 20, 1, -3), (-10, -10));
    assert_eq!(tile_to_pixel(vp, 20, 0, 0), (-30, 50));
}

#[test]
fn apply_full_then_partial_refresh() {
    let mut b = TileBuffer { x: 0, y: 0, tiles: vec![] };
    let full = FromServer::FullRefresh { x: 3, y: 4, tiles: vec![vec![Wire; 3]; 3] };
    assert!(b.apply_refresh(full));
    assert_eq!((b.x, b.y), (3, 4));
    assert_eq!(b.tiles, vec![vec![Wire; 3]; 3]);
    assert!(b.apply_refresh(FromServer::PartialRefresh { tiles: vec![Dead; 8] }));
    assert_eq!(b.tiles, vec![
        vec![Dead, Dead, Dead],
        vec![Dead, Wire, Dead],
        vec![Dead, Dead, Dead],
    ]);
}

#[test]
fn partial_refresh_that_does_not_fit_is_refused() {
    let mut b = TileBuffer { x: 0, y: 0, tiles: vec![vec![Wire; 3]; 3] };
    assert!(!b.apply_refresh(FromServer::PartialRefresh { tiles: vec![Dead; 7] }));
    assert_eq!(b.tiles, vec![vec![Wire; 3]; 3]);
    let mut ragged = TileBuffer { x: 0, y: 0, tiles: vec![vec![Wire; 3], vec![Wire; 2]] };
    assert!(!ragged.apply_refresh(FromServer::PartialRefresh { tiles: vec![Dead; 6] }));
    let mut empty = TileBuffer { x: 0, y: 0, tiles: vec![] };
    assert!(!empty.apply_refresh(FromServer::PartialRefresh { tiles: vec![] }));
}
