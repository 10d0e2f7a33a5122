use wire_universe::common::{CellState, Point};
use wire_universe::wi::WiError;
use wire_universe::world::World;

fn p(x: i32, y: i32) -> Point {
    Point { x, y }
}

#[test]
fn loads_marked_cells() {
    let w = World::from_wi_str("3 2\n#~@\n.x#\n").unwrap();
    assert_eq!(w.copy_slice(0, 0, 3, 2), vec![
        vec![CellState::Wire, CellState::Dead, CellState::Alive],
        vec![CellState::Empty, CellState::Empty, CellState::Wire],
    ]);
    assert_eq!(w.get_tile(p(-1, 0)), CellState::Empty);
}

#[test]
fn reads_only_the_declared_rectangle() {
    let w = World::from_wi_str("2 1\n##@@\n####\n").unwrap();
    assert_eq!(w.copy_slice(0, 0, 4, 2), vec![
        vec![CellState::Wire, CellState::Wire, CellState::Empty, CellState::Empty],
        vec![CellState::Empty; 4],
    ]);
}

#[test]
fn crlf_lines_and_plus_sign() {
    let w = World::from_wi_str("  +2\t2 \r\n#@\r\n~#").unwrap();
    assert_eq!(w.copy_slice(0, 0, 2, 2), vec![
        vec![CellState::Wire, CellState::Alive],
        vec![CellState::Dead, CellState::Wire],
    ]);
}

#[test]
fn written_back_cells_match_the_file() {
    let text = "4 3\n#~@.\n.##.\n@  ~\n";
    let w = World::from_wi_str(text).unwrap();
    let rows: Vec<&str> = text.lines().skip(1).collect();
    for y in 0..3 {
        let mut line = String::new();
        for x in 0..4 {
            line.push(match w.get_tile(p(x, y)) {
                CellState::Wire => '#',
                CellState::Dead => '~',
                CellState::Alive => '@',
                CellState::Empty => '.',
            });
        }
        let original: String = rows[y as usize]
            .chars()
            .map(|c| if c == '#' || c == '~' || c == '@' { c } else { '.' })
            .collect();
        assert_eq!(line, original);
    }
}

#[test]
fn missing_header() {
    assert_eq!(World::from_wi_str("").err(), Some(WiError::MissingHeader));
}

#[test]
fn bad_header() {
    assert_eq!(World::from_wi_str("3\n###\n").err(), Some(WiError::BadHeader));
    assert_eq!(World::from_wi_str("3 1 1\n###\n").err(), Some(WiError::BadHeader));
    assert_eq!(World::from_wi_str("\n###\n").err(), Some(WiError::BadHeader));
}

#[test]
fn bad_number() {
    assert_eq!(World::from_wi_str("a 1\n#\n").err(), Some(WiError::BadNumber));
    assert_eq!(World::from_wi_str("1 -1\n#\n").err(), Some(WiError::BadNumber));
    assert_eq!(World::from_wi_str("0 1\n#\n").err(), Some(WiError::BadNumber));
    assert_eq!(World::from_wi_str("+ 1\n#\n").err(), Some(WiError::BadNumber));
    assert_eq!(World::from_wi_str("1 99999999999999999999999\n#\n").err(), Some(WiError::BadNumber));
}

#[test]
fn too_large() {
    assert_eq!(World::from_wi_str("2147483649 1\n#\n").err(), Some(WiError::TooLarge));
}

#[test]
fn short_or_missing_rows() {
    assert_eq!(World::from_wi_str("3 2\n###\n##\n").err(), Some(WiError::Dimensions));
    assert_eq!(World::from_wi_str("3 2\n###\n").err(), Some(WiError::Dimensions));
    assert_eq!(World::from_wi_str("2 1\n#\u{e9}\n").ok().map(|w| w.get_tile(p(0, 0))), Some(CellState::Wire));
}
