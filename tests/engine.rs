use city_core::board::{Board, Cell};
use city_core::city::{move_fits_board, City};
use city_core::game::{Game, Winner};
use city_core::geometry::{Coordinate, Direction};
use city_core::moves::{EvaluatedMove, Move};
use city_core::reach::reachable_from;
use city_core::search::{order_for, sort_by_score, tied_moves};

const DIRS: [Direction; 4] = [Direction::Up, Direction::Down, Direction::Left, Direction::Right];

fn mv(x: i32, y: i32, d: Direction) -> Move {
    Move::new(Coordinate::new(x, y), d)
}

fn snapshot(g: &Game) -> (Coordinate, Coordinate, Vec<Cell>, Vec<Cell>, bool) {
    (
        g.blue_position,
        g.green_position,
        g.horizontal_walls.cells.clone(),
        g.vertical_walls.cells.clone(),
        g.blue_turn,
    )
}

#[test]
fn initial_position_and_moves_on_five_by_five() {
    let mut g = Game::new(5, 5);
    assert_eq!(g.blue_position, Coordinate::new(0, 0));
    assert_eq!(g.green_position, Coordinate::new(4, 4));
    assert!(g.blue_turn);
    let moves = g.possible_moves();
    for (x, y) in [(0, 0), (1, 0), (0, 1)] {
        for d in DIRS {
            let c = Coordinate::new(x, y).move_to(d);
            let expected = c.inside(5, 5);
            assert_eq!(moves.contains(&mv(x, y, d)), expected, "{x} {y} {d:?}");
        }
    }
    // nothing beyond three steps, nothing off the board
    assert!(!moves.iter().any(|m| m.destination.x + m.destination.y > 3));
    assert!(moves.iter().all(|m| move_fits_board(5, 5, *m)));
}

#[test]
fn adjacent_pawns_do_not_end_the_game() {
    let mut g = Game::new(3, 3);
    assert!(g.make_move(mv(1, 2, Direction::Up), true, true));
    assert_eq!(g.blue_position, Coordinate::new(1, 2));
    assert!(!g.game_over());
}

#[test]
fn walled_corner_ends_the_game_with_areas_covering_the_board() {
    let mut g = Game::new(3, 3);
    assert!(g.make_move(mv(0, 0, Direction::Right), true, true));
    assert!(!g.game_over());
    assert!(g.make_move(mv(2, 2, Direction::Up), true, true));
    assert!(g.make_move(mv(0, 0, Direction::Down), true, true));
    assert!(g.game_over());
    let (winner, score) = g.game_result();
    assert_eq!(score.blue, 1);
    assert_eq!(score.green, 8);
    assert_eq!(score.blue + score.green, 9);
    assert_eq!(winner, Winner::Green);
    assert_eq!(g.evaluate(), -100);
}

#[test]
fn evaluate_on_partitioned_board_is_a_verdict() {
    // blue walls off the middle row from green's side
    let mut g = Game::new(3, 3);
    assert!(g.make_move(mv(0, 1, Direction::Down), true, true));
    assert!(g.make_move(mv(2, 2, Direction::Left), true, true));
    assert!(g.make_move(mv(1, 1, Direction::Down), true, true));
    assert!(g.make_move(mv(2, 2, Direction::Up), true, true));
    assert!(g.game_over());
    let (_, score) = g.game_result();
    // the two cells left of green's are cut off from both pawns
    assert_eq!((score.blue, score.green), (6, 1));
    assert_eq!(g.evaluate(), 100);
    let mut nodes = 0u64;
    assert_eq!(g.minimax_evaluate(2, i32::MIN, i32::MAX, &mut nodes, 0), 100);
    assert_eq!(nodes, 1);
}

#[test]
fn territory_difference_swaps_sign_with_the_pawns() {
    let mut g = Game::new(5, 5);
    assert_eq!(g.territory_difference(), 0);
    assert!(g.make_move(mv(2, 1, Direction::Down), true, true));
    let d = g.territory_difference();
    assert_eq!(d, 7);
    let b = g.blue_position;
    g.blue_position = g.green_position;
    g.green_position = b;
    assert_eq!(g.territory_difference(), -d);
}

#[test]
fn wide_board_is_not_partitioned_at_the_start() {
    let mut g = Game::new(10, 1);
    assert!(!g.game_over());
    let (winner, score) = g.game_result();
    assert_eq!((score.blue, score.green), (10, 10));
    assert_eq!(winner, Winner::Draw);
}

#[test]
fn evaluate_away_from_the_end_is_the_territory() {
    let mut g = Game::new(5, 5);
    assert!(g.make_move(mv(2, 1, Direction::Down), true, true));
    assert_eq!(g.evaluate(), 7);
}

#[test]
fn cursor_there_and_back_gives_the_same_state() {
    let mut g = Game::new(4, 4);
    assert!(g.make_move(mv(1, 0, Direction::Down), true, true));
    assert!(g.make_move(mv(3, 2, Direction::Left), true, true));
    assert!(g.make_move(mv(1, 1, Direction::Right), true, true));
    assert!(g.make_move(mv(2, 3, Direction::Up), true, true));
    for n in 0..=4usize {
        for m in 0..=4usize {
            g.set_current_move_index(n);
            let first = snapshot(&g);
            assert_eq!(g.current_move_index, n);
            g.set_current_move_index(m);
            g.set_current_move_index(n);
            assert!(snapshot(&g) == first);
            assert_eq!(g.history.len(), 4);
        }
    }
    g.set_current_move_index(2);
    assert_eq!(g.blue_position, Coordinate::new(1, 0));
    assert_eq!(g.green_position, Coordinate::new(3, 2));
    assert!(g.blue_turn);
    assert!(!g.is_showing_latest());
}

#[test]
fn make_then_undo_restores_everything() {
    let mut g = Game::new(4, 4);
    assert!(g.make_move(mv(1, 0, Direction::Down), true, true));
    assert!(g.make_move(mv(3, 2, Direction::Left), true, true));
    let moves = g.possible_moves();
    assert!(!moves.is_empty());
    for m in moves {
        let before = snapshot(&g);
        let len = g.history.len();
        assert!(g.make_move(m, false, true));
        assert_eq!(g.history.len(), len + 1);
        g.undo_move();
        assert!(snapshot(&g) == before);
        assert_eq!(g.history.len(), len);
        assert_eq!(g.current_move_index, len);
    }
}

#[test]
fn undo_to_the_start() {
    let mut g = Game::new(4, 4);
    assert!(g.make_move(mv(1, 0, Direction::Down), true, true));
    g.undo_move();
    assert_eq!(g.blue_position, Coordinate::new(0, 0));
    assert!(g.blue_turn);
    assert!(g.horizontal_walls.cells.iter().all(|c| *c == Cell::Empty));
    assert_eq!(g.current_move_index, 0);
}

#[test]
fn illegal_checked_move_changes_nothing() {
    let mut g = Game::new(5, 5);
    let before = snapshot(&g);
    // four steps away
    assert!(!g.make_move(mv(2, 2, Direction::Up), true, true));
    // wall on the edge of the board
    assert!(!g.make_move(mv(0, 0, Direction::Up), true, true));
    assert!(snapshot(&g) == before);
    assert!(g.history.is_empty());
    // the same move unchecked is played
    assert!(g.make_move(mv(2, 2, Direction::Up), false, true));
    assert_eq!(g.blue_position, Coordinate::new(2, 2));
    assert_eq!(*g.horizontal_walls.get(Coordinate::new(2, 1)), Cell::Blue);
}

#[test]
fn recording_while_viewing_history_does_not_move_pawns() {
    let mut g = Game::new(4, 4);
    assert!(g.make_move(mv(1, 0, Direction::Down), true, true));
    g.set_current_move_index(0);
    let before = snapshot(&g);
    assert!(g.make_move(mv(3, 2, Direction::Left), false, true));
    assert!(snapshot(&g) == before);
    assert_eq!(g.history.len(), 2);
    assert_eq!(g.current_move_index, 0);
}

#[test]
fn wall_placement_follows_the_slot_convention() {
    let mut g = Game::new(4, 4);
    assert!(g.make_move(mv(1, 1, Direction::Up), false, false));
    assert_eq!(*g.horizontal_walls.get(Coordinate::new(1, 0)), Cell::Blue);
    assert!(g.make_move(mv(2, 2, Direction::Left), false, false));
    assert_eq!(*g.vertical_walls.get(Coordinate::new(1, 2)), Cell::Green);
    assert!(g.make_move(mv(1, 1, Direction::Right), false, false));
    assert_eq!(*g.vertical_walls.get(Coordinate::new(1, 1)), Cell::Blue);
    assert!(g.make_move(mv(2, 2, Direction::Down), false, false));
    assert_eq!(*g.horizontal_walls.get(Coordinate::new(2, 2)), Cell::Green);
    assert!(g.history.is_empty());
}

#[test]
fn notation_round_trip() {
    for x in 0..26 {
        for y in 0..9 {
            for d in DIRS {
                let m = mv(x, y, d);
                let s = m.to_notation();
                assert_eq!(s.len(), 3);
                let back = Move::from_notation(&s).unwrap();
                assert_eq!(back, m);
                assert_eq!(back.to_notation(), s);
            }
        }
    }
    assert_eq!(mv(0, 0, Direction::Up).to_notation(), "a1U");
    assert_eq!(mv(4, 2, Direction::Right).to_notation(), "e3R");
    assert_eq!(Move::from_notation("c2L"), Ok(mv(2, 1, Direction::Left)));
    assert_eq!(Move::from_notation("b4Dxyz"), Ok(mv(1, 3, Direction::Down)));
}

#[test]
fn malformed_notation_is_an_error() {
    assert_eq!(Move::from_notation(""), Err("Invalid Notation"));
    assert_eq!(Move::from_notation("a1"), Err("Invalid Notation"));
    assert_eq!(Move::from_notation("a1X"), Err("Invalid Notation"));
    assert_eq!(Move::from_notation("exit"), Err("Invalid Notation"));
}

#[test]
fn flat_form_of_a_move() {
    assert_eq!(mv(3, 4, Direction::Left).to_flat(), ((3, 4), 2));
    assert_eq!(mv(0, 1, Direction::Up).to_flat(), ((0, 1), 0));
}

#[test]
fn bounded_search_stays_within_its_steps() {
    let hw = Board::new(4, 3, Cell::Empty);
    let mut vw = Board::new(3, 4, Cell::Empty);
    vw.set(Coordinate::new(0, 0), Cell::Blue);
    let mut reach = Board::new(4, 4, false);
    let start = Coordinate::new(0, 0);
    let other = Coordinate::new(0, 1);
    reachable_from(4, 4, &hw, &vw, start, other, 3, false, &mut reach);
    // right is walled and down is the other pawn: only the start
    assert_eq!(reach.total(), 1);
    reachable_from(4, 4, &hw, &vw, start, other, 3, true, &mut reach);
    for y in 0..4 {
        for x in 0..4 {
            // the wall right of the start costs a detour of two steps
            let near = if y == 0 { x <= 1 } else { x + y <= 3 };
            assert_eq!(*reach.get(Coordinate::new(x, y)), near, "{x} {y}");
        }
    }
    reachable_from(4, 4, &hw, &vw, start, other, 16, true, &mut reach);
    assert_eq!(reach.total(), 16);
}

#[test]
fn board_storage() {
    let mut b = Board::new(3, 2, false);
    assert_eq!(b.total(), 0);
    b.set(Coordinate::new(2, 1), true);
    b.set(Coordinate::new(0, 1), true);
    assert_eq!(b.total(), 2);
    assert!(*b.get(Coordinate::new(2, 1)));
    assert!(!*b.get(Coordinate::new(1, 1)));
    b.clear();
    assert_eq!(b.total(), 0);
    let mut c = Board::new(2, 2, Cell::Empty);
    c.set(Coordinate::new(1, 0), Cell::Green);
    assert_eq!(c.to_bool(), vec![vec![false, true], vec![false, false]]);
    assert_eq!(c.to_rows()[0][1], Cell::Green);
    c.clear();
    assert!(c.to_bool().iter().flatten().all(|v| !v));
    let mut d = Board::new(2, 2, 5i32);
    d.clear();
    assert_eq!(*d.get(Coordinate::new(1, 1)), -1);
}

#[test]
fn geometry_basics() {
    let c = Coordinate::new(2, 3);
    assert_eq!(c.move_to(Direction::Up), Coordinate::new(2, 2));
    assert_eq!(c.move_to(Direction::Down), Coordinate::new(2, 4));
    assert_eq!(c.move_to(Direction::Left), Coordinate::new(1, 3));
    assert_eq!(c.move_to(Direction::Right), Coordinate::new(3, 3));
    assert!(c.inside(3, 4));
    assert!(!c.inside(2, 4));
    assert!(!Coordinate::new(-1, 0).inside(3, 3));
    assert_eq!(c.to_tuple(), (2, 3));
    assert_eq!(Direction::Left.relative_position(), Coordinate::new(-1, 0));
    assert!(Cell::Empty.is_empty());
    assert!(!Cell::Blue.is_empty());
}

#[test]
fn sorting_orders_scores() {
    let m = mv(0, 0, Direction::Down);
    let n = mv(1, 0, Direction::Down);
    let mut v = vec![
        EvaluatedMove::new(m, 3),
        EvaluatedMove::new(n, -1),
        EvaluatedMove::new(n, 3),
        EvaluatedMove::new(m, 0),
    ];
    sort_by_score(&mut v);
    let evs: Vec<i32> = v.iter().map(|e| e.ev).collect();
    assert_eq!(evs, vec![-1, 0, 3, 3]);
    assert_eq!(v[2].mv, m);
    let d = order_for(v.clone(), true);
    let evs: Vec<i32> = d.iter().map(|e| e.ev).collect();
    assert_eq!(evs, vec![3, 3, 0, -1]);
    assert_eq!(d[0].mv, n);
}

#[test]
fn search_returns_a_legal_move() {
    let mut g = Game::new(3, 3);
    let before = snapshot(&g);
    let legal = g.possible_moves();
    let best = g.iterative_deepening_minimax(1).unwrap();
    assert!(legal.contains(&best.mv));
    assert!(snapshot(&g) == before);
    assert!(g.history.is_empty());
    let mut nodes = 0u64;
    let scored = g.minimax_evaluate_moves(1, &mut nodes);
    assert_eq!(scored.len(), legal.len());
    assert!(scored.windows(2).all(|w| w[0].ev >= w[1].ev));
    assert!(nodes >= scored.len() as u64);
    let sorted = g.evaluation_sorted_moves(3);
    assert_eq!(sorted.len(), 3);
    assert!(snapshot(&g) == before);
}

#[test]
fn city_history_navigation() {
    let mut c = City::new(4, 4);
    assert!(c.make_move(mv(1, 0, Direction::Down), true));
    assert!(c.make_move(mv(3, 2, Direction::Left), true));
    assert!(!c.make_move(mv(9, 9, Direction::Left), false));
    assert_eq!(c.get_history().len(), 2);
    assert!(c.is_showing_latest());
    c.previous_move();
    assert_eq!(c.get_current_move_index(), 1);
    assert_eq!(c.get_green_position(), Coordinate::new(3, 3));
    assert!(!c.blue_turn());
    c.first_move();
    assert_eq!(c.get_blue_position(), Coordinate::new(0, 0));
    c.previous_move();
    assert_eq!(c.get_current_move_index(), 0);
    c.next_move();
    assert_eq!(c.get_current_move_index(), 1);
    c.jump_to_move(7);
    assert_eq!(c.get_current_move_index(), 1);
    c.last_move();
    assert_eq!(c.get_current_move_index(), 2);
    c.next_move();
    assert_eq!(c.get_current_move_index(), 2);
    assert_eq!(c.get_horizontal_wall()[0][1], Cell::Blue);
    assert_eq!(c.get_vertical_wall()[2][2], Cell::Green);
    assert!(!c.game_over());
    let r = c.game_result();
    assert_eq!(r.winner, Winner::Draw);
    assert_eq!((r.score.blue, r.score.green), (16, 16));
    assert!(!c.possible_moves().is_empty());
    c.undo_move();
    assert_eq!(c.get_history().len(), 1);
    assert_eq!(c.get_green_position(), Coordinate::new(3, 3));
}

#[test]
fn sealed_pawn_has_no_move_and_search_says_so() {
    let mut g = Game::new(3, 3);
    assert!(g.make_move(mv(0, 0, Direction::Right), true, true));
    assert!(g.make_move(mv(2, 2, Direction::Up), true, true));
    assert!(g.make_move(mv(0, 0, Direction::Down), true, true));
    assert!(g.make_move(mv(2, 2, Direction::Left), true, true));
    assert!(g.blue_turn);
    assert!(g.possible_moves().is_empty());
    assert!(g.iterative_deepening_minimax(1).is_none());
    assert_eq!(g.history.len(), 4);
}

#[test]
fn opening_move_list_is_row_major_without_repeats() {
    let mut g = Game::new(5, 5);
    let moves = g.possible_moves();
    assert_eq!(moves.len(), 32);
    assert_eq!(moves[0], mv(0, 0, Direction::Down));
    assert_eq!(moves[1], mv(0, 0, Direction::Right));
    assert_eq!(moves[2], mv(1, 0, Direction::Down));
    let key = |m: &Move| {
        let r = DIRS.iter().position(|d| *d == m.place_wall).unwrap() as i32;
        (m.destination.y, m.destination.x, r)
    };
    assert!(moves.windows(2).all(|w| key(&w[0]) < key(&w[1])));
}

#[test]
fn checked_move_is_refused_while_viewing_history() {
    let mut g = Game::new(4, 4);
    assert!(g.make_move(mv(1, 0, Direction::Down), true, true));
    g.set_current_move_index(0);
    let before = snapshot(&g);
    // not a legal move in the position shown
    assert!(!g.make_move(mv(3, 3, Direction::Up), true, true));
    assert!(snapshot(&g) == before);
    assert_eq!(g.history.len(), 1);
    // a legal move is recorded, the view stays where it was
    assert!(g.make_move(mv(0, 1, Direction::Right), true, true));
    assert!(snapshot(&g) == before);
    assert_eq!(g.history.len(), 2);
    assert_eq!(g.current_move_index, 0);
}

#[test]
fn sorted_moves_follow_one_ply_scores() {
    let mut g = Game::new(4, 4);
    let all = g.evaluation_sorted_moves(0);
    assert_eq!(all.len(), g.possible_moves().len());
    let mut scores = Vec::new();
    for m in &all {
        assert!(g.make_move(*m, false, true));
        scores.push(g.evaluate());
        g.undo_move();
    }
    assert!(scores.windows(2).all(|w| w[0] >= w[1]));
    let top = g.evaluation_sorted_moves(5);
    assert_eq!(top.len(), 5);
    assert!(scores[4] >= scores[5]);
}

#[test]
fn ties_are_collected_in_order() {
    let a = mv(0, 0, Direction::Down);
    let b = mv(1, 0, Direction::Down);
    let c = mv(2, 0, Direction::Down);
    let scored = vec![EvaluatedMove::new(a, 4), EvaluatedMove::new(b, 1), EvaluatedMove::new(c, 4)];
    assert_eq!(tied_moves(&scored, 4), vec![a, c]);
    assert!(tied_moves(&scored, 7).is_empty());
}

#[test]
fn city_unchecked_move_on_the_board_is_played() {
    let mut c = City::new(3, 3);
    assert!(c.make_move(mv(2, 1, Direction::Up), false));
    assert_eq!(c.get_blue_position(), Coordinate::new(2, 1));
}
