use wire_universe::common::{CellState, Point, Viewport};
use wire_universe::proto::{FromClient, FromServer};
use wire_universe::session::{Reply, Session};
use wire_universe::world::{sample_world, CellModification, World};

fn empty_rows(w: usize, h: usize) -> Vec<Vec<CellState>> {
    vec![vec![CellState::Empty; w]; h]
}

fn streaming_session(world: &World) -> Session {
    let mut s = Session::new();
    s.on_client(FromClient::SetView { x: 0, y: 0, w: 4, h: 4 }, world);
    s.on_client(FromClient::StartStream, world);
    s
}

#[test]
fn new_session_defaults() {
    let s = Session::new();
    assert_eq!(s.view, Viewport { x: 0, y: 0, w: 30, h: 30 });
    assert!(!s.sending);
    assert!(!s.synced);
}

#[test]
fn start_stream_sends_snapshot() {
    let world = World::new();
    let mut s = Session::new();
    assert_eq!(s.on_client(FromClient::SetView { x: 0, y: 0, w: 4, h: 4 }, &world), Reply::Nothing);
    assert!(!s.sending);
    let r = s.on_client(FromClient::StartStream, &world);
    assert_eq!(r, Reply::Send(FromServer::FullRefresh { x: 0, y: 0, tiles: empty_rows(4, 4) }));
    assert!(s.sending);
    assert!(s.synced);
}

#[test]
fn start_stream_snapshot_of_a_world() {
    let world = sample_world();
    let mut s = Session::new();
    s.on_client(FromClient::SetView { x: 0, y: 0, w: 4, h: 4 }, &world);
    match s.on_client(FromClient::StartStream, &world) {
        Reply::Send(FromServer::FullRefresh { x, y, tiles }) => {
            assert_eq!((x, y), (0, 0));
            assert_eq!(tiles, world.copy_slice(0, 0, 4, 4));
            assert_eq!(tiles[0][1], CellState::Alive);
            assert_eq!(tiles[1][0], CellState::Dead);
        }
        other => panic!("expected a full refresh, got {:?}", other),
    }
}

#[test]
fn next_tick_is_perimeter_delta() {
    let world = World::new();
    let mut s = streaming_session(&world);
    match s.on_world(&world) {
        Some(FromServer::PartialRefresh { tiles }) => {
            assert_eq!(tiles.len(), 12);
            assert_eq!(tiles, world.copy_perimeter(0, 0, 4, 4));
        }
        other => panic!("expected a partial refresh, got {:?}", other),
    }
}

#[test]
fn perimeter_delta_follows_walk_order() {
    let mut world = World::new();
    world.set_tile(Point { x: 0, y: 3 }, CellState::Alive);
    world.set_tile(Point { x: 3, y: 0 }, CellState::Dead);
    world.set_tile(Point { x: 1, y: 0 }, CellState::Wire);
    let mut s = streaming_session(&world);
    let tiles = match s.on_world(&world) {
        Some(FromServer::PartialRefresh { tiles }) => tiles,
        other => panic!("expected a partial refresh, got {:?}", other),
    };
    let mut expected = vec![CellState::Empty; 12];
    expected[3] = CellState::Alive; // (0, 3): last of the left column
    expected[9] = CellState::Dead; // (3, 0): top of the right column
    expected[11] = CellState::Wire; // (1, 0): end of the top row
    assert_eq!(tiles, expected);
}

#[test]
fn view_change_resyncs() {
    let world = World::new();
    let mut s = streaming_session(&world);
    s.on_world(&world);
    assert_eq!(s.on_client(FromClient::SetView { x: 10, y: 10, w: 8, h: 8 }, &world), Reply::Nothing);
    assert!(!s.synced);
    match s.on_world(&world) {
        Some(FromServer::FullRefresh { x, y, tiles }) => {
            assert_eq!((x, y), (10, 10));
            assert_eq!(tiles, empty_rows(8, 8));
        }
        other => panic!("expected a full refresh, got {:?}", other),
    }
    match s.on_world(&world) {
        Some(FromServer::PartialRefresh { tiles }) => assert_eq!(tiles.len(), 28),
        other => panic!("expected a partial refresh, got {:?}", other),
    }
}

#[test]
fn lag_resyncs() {
    let world = World::new();
    let mut s = streaming_session(&world);
    s.on_world(&world);
    s.on_lagged();
    assert!(!s.synced);
    assert!(s.sending);
    match s.on_world(&world) {
        Some(FromServer::FullRefresh { x, y, tiles }) => {
            assert_eq!((x, y), (0, 0));
            assert_eq!(tiles, empty_rows(4, 4));
        }
        other => panic!("expected a full refresh, got {:?}", other),
    }
    assert!(matches!(s.on_world(&world), Some(FromServer::PartialRefresh { .. })));
}

#[test]
fn silent_before_start_stream() {
    let world = sample_world();
    let mut s = Session::new();
    assert_eq!(s.on_world(&world), None);
    s.on_lagged();
    assert_eq!(s.on_world(&world), None);
    assert!(!s.sending);
}

#[test]
fn modify_cell_is_enqueued() {
    let world = World::new();
    let mut s = Session::new();
    let before = s;
    let r = s.on_client(FromClient::ModifyCell { x: 1, y: 5, cell: CellState::Alive }, &world);
    assert_eq!(r, Reply::Enqueue(CellModification { x: 1, y: 5, cell: CellState::Alive }));
    assert_eq!(s, before);
}
