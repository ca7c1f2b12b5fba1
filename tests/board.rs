use peg_astar::chinakers::{Cell, Field, Move, MoveDirection, Position};

fn pos(x: i8, y: i8) -> Position {
    Position { x, y }
}

fn empty_board() -> Field {
    let mut f = Field::new();
    for x in 0..7 {
        for y in 0..7 {
            let _ = f.set_cell(pos(x, y), Cell::Empty);
        }
    }
    f
}

#[test]
fn start_board_layout() {
    let f = Field::new();
    assert_eq!(f.get_cell(pos(3, 3)), Some(Cell::Empty));
    assert_eq!(f.get_cell(pos(3, 0)), Some(Cell::Piece));
    assert_eq!(f.get_cell(pos(0, 0)), None);
    assert_eq!(f.get_cell(pos(6, 6)), None);
    assert_eq!(f.get_cell(pos(7, 3)), None);
    assert_eq!(f.get_cell(pos(-1, 3)), None);
    assert_eq!(f.count_pieces(), 32);
    assert!(!f.is_solved());
}

#[test]
fn valid_positions() {
    assert!(Field::is_valid_position(pos(2, 0)));
    assert!(Field::is_valid_position(pos(0, 2)));
    assert!(!Field::is_valid_position(pos(1, 1)));
    assert!(!Field::is_valid_position(pos(5, 5)));
    assert!(!Field::is_valid_position(pos(3, 7)));
}

#[test]
fn set_cell_off_board_is_refused() {
    let mut f = Field::new();
    assert_eq!(f.set_cell(pos(0, 0), Cell::Piece), Err(()));
    assert_eq!(f, Field::new());
    assert_eq!(f.set_cell(pos(3, 3), Cell::Piece), Ok(()));
    assert_eq!(f.get_cell(pos(3, 3)), Some(Cell::Piece));
}

#[test]
fn jump_positions() {
    let m = Move { position: pos(3, 1), direction: MoveDirection::Down };
    assert_eq!(m.victim_position(), pos(3, 2));
    assert_eq!(m.landing_position(), pos(3, 3));
    let m = Move { position: pos(5, 3), direction: MoveDirection::Left };
    assert_eq!(m.victim_position(), pos(4, 3));
    assert_eq!(m.landing_position(), pos(3, 3));
    let m = Move { position: pos(3, 5), direction: MoveDirection::Up };
    assert_eq!(m.landing_position(), pos(3, 3));
    let m = Move { position: pos(1, 3), direction: MoveDirection::Right };
    assert_eq!(m.victim_position(), pos(2, 3));
    let m = Move { position: pos(126, -127), direction: MoveDirection::Right };
    assert_eq!(m.victim_position(), pos(127, -127));
    let m = Move { position: pos(126, -127), direction: MoveDirection::Up };
    assert_eq!(m.victim_position(), pos(126, -128));
}

#[test]
fn direction_order() {
    assert_eq!(
        MoveDirection::iter(),
        vec![MoveDirection::Up, MoveDirection::Down, MoveDirection::Left, MoveDirection::Right]
    );
}

#[test]
fn start_board_moves() {
    let f = Field::new();
    let moves = f.available_moves();
    let got: Vec<(Position, MoveDirection)> = moves.iter().map(|m| (m.position, m.direction)).collect();
    assert_eq!(
        got,
        vec![
            (pos(1, 3), MoveDirection::Right),
            (pos(3, 1), MoveDirection::Down),
            (pos(3, 5), MoveDirection::Up),
            (pos(5, 3), MoveDirection::Left),
        ]
    );
}

#[test]
fn make_move_legal_and_illegal() {
    let mut f = Field::new();
    let bad = Move { position: pos(3, 0), direction: MoveDirection::Down };
    assert_eq!(f.make_move(bad), Err(()));
    assert_eq!(f, Field::new());
    let good = Move { position: pos(3, 1), direction: MoveDirection::Down };
    assert!(f.is_valid_move(good));
    assert_eq!(f.make_move(good), Ok(()));
    assert_eq!(f.get_cell(pos(3, 1)), Some(Cell::Empty));
    assert_eq!(f.get_cell(pos(3, 2)), Some(Cell::Empty));
    assert_eq!(f.get_cell(pos(3, 3)), Some(Cell::Piece));
    assert_eq!(f.count_pieces(), 31);
    assert!(!f.is_valid_move(good));
}

#[test]
fn pieces_in_scan_order() {
    let mut f = empty_board();
    let _ = f.set_cell(pos(4, 2), Cell::Piece);
    let _ = f.set_cell(pos(2, 5), Cell::Piece);
    let _ = f.set_cell(pos(2, 3), Cell::Piece);
    assert_eq!(f.get_pieces(), vec![pos(2, 3), pos(2, 5), pos(4, 2)]);
    assert_eq!(f.count_pieces(), 3);
}

#[test]
fn manhattan_sums() {
    assert_eq!(Field::new().manhattan_distance_sum(), 88);
    assert_eq!(empty_board().manhattan_distance_sum(), 0);
    let mut f = empty_board();
    let _ = f.set_cell(pos(3, 0), Cell::Piece);
    let _ = f.set_cell(pos(6, 4), Cell::Piece);
    assert_eq!(f.manhattan_distance_sum(), 7);
}

#[test]
fn heuristic_values() {
    let f = Field::new();
    assert_eq!(f.eval_heuristic(), 115);
    let m = Move { position: pos(3, 1), direction: MoveDirection::Down };
    assert_eq!(f.eval_heuristic_for_move(m), 112);
    let bad = Move { position: pos(3, 0), direction: MoveDirection::Down };
    assert_eq!(f.eval_heuristic_for_move(bad), 115);
    assert_eq!(empty_board().eval_heuristic(), 0);
}

#[test]
fn heuristic_never_negative() {
    let mut f = empty_board();
    for &(x, y) in &[(2, 2), (3, 2), (2, 3), (3, 3)] {
        let _ = f.set_cell(pos(x, y), Cell::Piece);
    }
    assert_eq!(f.count_pieces(), 4);
    assert_eq!(f.manhattan_distance_sum(), 4);
    assert_eq!(f.available_moves().len(), 8);
    assert_eq!(f.eval_heuristic(), 0);
}

#[test]
fn solved_boards() {
    let mut f = empty_board();
    assert!(f.is_solved());
    let _ = f.set_cell(pos(3, 3), Cell::Piece);
    assert!(f.is_solved());
    let _ = f.set_cell(pos(3, 4), Cell::Piece);
    assert!(!f.is_solved());
}
