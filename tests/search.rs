use peg_astar::astar::{AStar, OpenEntry, OpenSet};
use peg_astar::chinakers::{Cell, Field, Position};

fn board(pieces: &[(i8, i8)]) -> Field {
    let mut f = Field::new();
    for x in 0..7 {
        for y in 0..7 {
            let _ = f.set_cell(Position { x, y }, Cell::Empty);
        }
    }
    for &(x, y) in pieces {
        assert_eq!(f.set_cell(Position { x, y }, Cell::Piece), Ok(()));
    }
    f
}

#[test]
fn root_node() {
    let start = Field::new();
    let a = AStar::new(&start);
    assert_eq!(a.node_count(), 1);
    assert_eq!(a.open_count(), 1);
    let root = a.get(0).unwrap();
    assert_eq!(root.id, 0);
    assert_eq!(root.parent_id, 0);
    assert_eq!(root.g, 0);
    assert_eq!(root.h, 115);
    assert_eq!(root.f, 115);
    assert_eq!(root.field, start);
    assert!(a.get(1).is_none());
}

#[test]
fn one_jump_to_goal() {
    let start = board(&[(3, 0), (3, 1)]);
    let mut a = AStar::new(&start);
    assert!(a.step().is_none());
    assert_eq!(a.node_count(), 2);
    let child = a.get(1).unwrap();
    assert_eq!(child.g, 1);
    assert_eq!(child.parent_id, 0);
    assert_eq!(child.f, child.g as i128 + child.h as i128);
    let goal = board(&[(3, 2)]);
    assert_eq!(child.field, goal);
    match a.step() {
        Some(Ok(sol)) => assert_eq!(sol.states, vec![start, goal]),
        _ => panic!("expected a solution"),
    }
}

#[test]
fn already_solved() {
    let start = board(&[(4, 4)]);
    let mut a = AStar::new(&start);
    match a.step() {
        Some(Ok(sol)) => assert_eq!(sol.states, vec![start]),
        _ => panic!("expected a solution"),
    }
    assert_eq!(a.node_count(), 1);
}

#[test]
fn no_moves_exhausts() {
    let start = board(&[(3, 0), (3, 6)]);
    assert!(start.available_moves().is_empty());
    let mut a = AStar::new(&start);
    assert!(a.step().is_none());
    assert_eq!(a.node_count(), 1);
    assert_eq!(a.open_count(), 0);
    assert!(matches!(a.step(), Some(Err(()))));
    assert!(matches!(a.step(), Some(Err(()))));
}

#[test]
fn repeated_board_is_kept_twice() {
    let start = board(&[(3, 0), (3, 1), (0, 3), (1, 3)]);
    let mut a = AStar::new(&start);
    let mut steps = 0;
    loop {
        match a.step() {
            None => {}
            Some(Err(())) => break,
            Some(Ok(_)) => panic!("no solution exists"),
        }
        steps += 1;
        assert!(steps < 100);
    }
    assert_eq!(a.node_count(), 5);
    let target = board(&[(3, 2), (2, 3)]);
    let same: Vec<usize> = (0..a.node_count()).filter(|&i| a.get(i).unwrap().field == target).collect();
    assert_eq!(same.len(), 2);
    assert_ne!(a.get(same[0]).unwrap().parent_id, a.get(same[1]).unwrap().parent_id);
}

#[test]
fn arena_costs_hold() {
    let mut a = AStar::new(&Field::new());
    for _ in 0..20 {
        assert!(a.step().is_none());
    }
    for i in 1..a.node_count() {
        let n = a.get(i).unwrap();
        let p = a.get(n.parent_id).unwrap();
        assert_eq!(n.id, i);
        assert!(n.parent_id < i);
        assert_eq!(n.f, n.g as i128 + n.h as i128);
        assert_eq!(n.g, p.g + 1);
        assert_eq!(n.h, n.field.eval_heuristic());
    }
}

#[test]
fn solution_path_is_legal_and_shortest() {
    let start = board(&[(3, 0), (3, 1), (3, 3)]);
    let mut a = AStar::new(&start);
    let sol = loop {
        match a.step() {
            None => {}
            Some(Ok(sol)) => break sol,
            Some(Err(())) => panic!("a solution exists"),
        }
    };
    assert_eq!(sol.states[0], start);
    assert!(sol.states.last().unwrap().is_solved());
    assert_eq!(sol.states.len(), 3);
    for w in sol.states.windows(2) {
        let ok = w[0].available_moves().iter().any(|&m| {
            let mut f = w[0];
            f.make_move(m) == Ok(()) && f == w[1]
        });
        assert!(ok);
    }
}

#[test]
fn open_set_pops_least_first() {
    let mut o = OpenSet::new();
    assert_eq!(o.pop_min(), None);
    o.insert(OpenEntry { f: 5, id: 0 });
    o.insert(OpenEntry { f: 2, id: 1 });
    o.insert(OpenEntry { f: 7, id: 2 });
    o.insert(OpenEntry { f: 2, id: 3 });
    assert_eq!(o.len(), 4);
    assert_eq!(o.pop_min(), Some(OpenEntry { f: 2, id: 1 }));
    assert_eq!(o.pop_min(), Some(OpenEntry { f: 2, id: 3 }));
    assert_eq!(o.pop_min(), Some(OpenEntry { f: 5, id: 0 }));
    assert_eq!(o.pop_min(), Some(OpenEntry { f: 7, id: 2 }));
    assert_eq!(o.pop_min(), None);
    assert_eq!(o.len(), 0);
}
