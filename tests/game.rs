use gomind::board::GameState;
use gomind::MoveError;
use gomind::protocol::parse_move;
use gomind::turn::{EndReason, Outcome, Reply};
use gomind::{Move, TileState, BOARD_SIZE, NUM_CELLS};

fn at(x: usize, y: usize) -> usize {
    x * BOARD_SIZE + y
}

fn board_with(stones: &[((usize, usize), TileState)]) -> GameState {
    let mut g = GameState::new();
    for &(p, t) in stones {
        g.set_tile(p, t);
    }
    g
}

fn occupied(g: &GameState) -> usize {
    g.board.iter().filter(|t| **t != TileState::Empty).count()
}

#[test]
fn new_board_is_empty_and_not_full() {
    let g = GameState::new();
    assert_eq!(g.board.len(), NUM_CELLS);
    assert!(g.board.iter().all(|t| *t == TileState::Empty));
    assert!(!g.is_full());
}

#[test]
fn full_board_is_full() {
    let mut g = GameState::new();
    for x in 0..BOARD_SIZE {
        for y in 0..BOARD_SIZE {
            g.set_tile((x, y), TileState::Black);
        }
    }
    assert!(g.is_full());
    g.set_tile((18, 18), TileState::Empty);
    assert!(!g.is_full());
}

#[test]
fn get_and_set_tile() {
    let mut g = GameState::new();
    g.set_tile((2, 7), TileState::White);
    assert_eq!(g.get_tile((2, 7)), TileState::White);
    assert_eq!(g.get_tile((7, 2)), TileState::Empty);
    assert_eq!(g.board[at(2, 7)], TileState::White);
}

#[test]
fn neighbors_in_fixed_order() {
    assert_eq!(GameState::neighbors((0, 0)), vec![(1, 0), (0, 1)]);
    assert_eq!(GameState::neighbors((0, 5)), vec![(1, 5), (0, 4), (0, 6)]);
    assert_eq!(GameState::neighbors((5, 5)), vec![(4, 5), (6, 5), (5, 4), (5, 6)]);
    assert_eq!(GameState::neighbors((18, 18)), vec![(17, 18), (18, 17)]);
}

#[test]
fn liberties_of_single_stone() {
    let g = board_with(&[((5, 5), TileState::White)]);
    assert_eq!(g.get_liberties()[at(5, 5)], 4);
    let g = board_with(&[((0, 0), TileState::White)]);
    assert_eq!(g.get_liberties()[at(0, 0)], 2);
    let g = board_with(&[((0, 5), TileState::White)]);
    assert_eq!(g.get_liberties()[at(0, 5)], 3);
}

#[test]
fn shared_liberty_counted_once() {
    // Two stones in a row share no liberty; an L shape shares the corner.
    let g = board_with(&[((5, 5), TileState::White), ((5, 6), TileState::White)]);
    let l = g.get_liberties();
    assert_eq!(l[at(5, 5)], 6);
    assert_eq!(l[at(5, 6)], 6);
    let g = board_with(&[
        ((5, 5), TileState::Black),
        ((5, 6), TileState::Black),
        ((6, 5), TileState::Black),
    ]);
    let l = g.get_liberties();
    assert_eq!(l[at(5, 5)], 7);
    assert_eq!(l[at(6, 5)], 7);
}

#[test]
fn empty_cells_report_zero() {
    let g = board_with(&[((5, 5), TileState::White)]);
    assert_eq!(g.get_liberties()[at(5, 6)], 0);
}

#[test]
fn groups_partition_stones() {
    let g = board_with(&[
        ((1, 1), TileState::White),
        ((1, 2), TileState::White),
        ((2, 2), TileState::White),
        ((3, 3), TileState::White),
        ((1, 3), TileState::Black),
    ]);
    let (a, libs_a) = g.explore_group((1, 1));
    let (b, libs_b) = g.explore_group((2, 2));
    let (c, _) = g.explore_group((3, 3));
    let (d, _) = g.explore_group((1, 3));
    assert_eq!(a, b);
    assert_eq!(libs_a, libs_b);
    let members: Vec<usize> = (0..NUM_CELLS).filter(|i| a[*i]).collect();
    assert_eq!(members, vec![at(1, 1), at(1, 2), at(2, 2)]);
    for i in 0..NUM_CELLS {
        let count = [a[i], c[i], d[i]].iter().filter(|m| **m).count();
        let stone = g.board[i] != TileState::Empty;
        assert_eq!(count, if stone { 1 } else { 0 });
    }
}

#[test]
fn ring_is_captured_when_last_liberty_filled() {
    let ring = [(4, 5), (6, 5), (5, 4), (5, 6)];
    let outside = [(3, 5), (4, 4), (4, 6), (7, 5), (6, 4), (6, 6), (5, 3), (5, 7)];
    let mut g = GameState::new();
    for p in ring {
        g.set_tile(p, TileState::White);
    }
    for p in outside {
        g.set_tile(p, TileState::Black);
    }
    for p in ring {
        assert_eq!(g.get_liberties()[at(p.0, p.1)], 1);
    }
    let mut filled = g.board.clone();
    filled[at(5, 5)] = TileState::Black;
    let probe = GameState { board: filled };
    for p in ring {
        assert_eq!(probe.get_liberties()[at(p.0, p.1)], 0);
    }
    assert_eq!(g.apply_move((5, 5), TileState::Black), Ok(()));
    for p in ring {
        assert_eq!(g.get_tile(p), TileState::Empty);
    }
    for p in outside {
        assert_eq!(g.get_tile(p), TileState::Black);
    }
}

#[test]
fn stone_with_empty_neighbor_is_not_captured() {
    let mut g = board_with(&[
        ((5, 5), TileState::White),
        ((4, 5), TileState::Black),
        ((6, 5), TileState::Black),
        ((5, 4), TileState::Black),
    ]);
    g.handle_captures();
    assert_eq!(g.get_tile((5, 5)), TileState::White);
    let mut corner = board_with(&[((0, 0), TileState::White), ((1, 0), TileState::Black)]);
    corner.handle_captures();
    assert_eq!(corner.get_tile((0, 0)), TileState::White);
}

#[test]
fn capture_pass_is_idempotent() {
    let mut g = board_with(&[
        ((0, 0), TileState::White),
        ((1, 0), TileState::Black),
        ((0, 1), TileState::Black),
        ((9, 9), TileState::White),
    ]);
    g.handle_captures();
    assert_eq!(g.get_tile((0, 0)), TileState::Empty);
    let once = g.board.clone();
    g.handle_captures();
    assert_eq!(g.board, once);
}

#[test]
fn scan_order_does_not_change_counts() {
    let stones = [
        ((2, 2), TileState::White),
        ((2, 3), TileState::White),
        ((3, 3), TileState::Black),
        ((4, 3), TileState::Black),
        ((0, 0), TileState::Black),
    ];
    let forward = board_with(&stones);
    let mut reversed = stones.to_vec();
    reversed.reverse();
    let backward = board_with(&reversed);
    assert_eq!(forward.get_liberties(), backward.get_liberties());
    let l = forward.get_liberties();
    assert_eq!(l[at(2, 2)], l[at(2, 3)]);
    assert_eq!(l[at(3, 3)], l[at(4, 3)]);
    for (p, _) in stones {
        let (_, count) = forward.explore_group(p);
        assert_eq!(count, l[at(p.0, p.1)]);
    }
}

#[test]
fn simultaneous_capture_uses_counts_before_removal() {
    // A black stone filling the last liberty of a white stone in the corner
    // is itself without liberties: both go in the same pass.
    let mut g = board_with(&[
        ((0, 0), TileState::White),
        ((0, 2), TileState::White),
        ((1, 1), TileState::White),
    ]);
    assert_eq!(g.apply_move((0, 1), TileState::Black), Ok(()));
    assert_eq!(g.get_tile((0, 1)), TileState::Empty);
    assert_eq!(g.get_tile((0, 0)), TileState::White);
}

#[test]
fn apply_move_errors() {
    let mut g = board_with(&[((3, 3), TileState::White)]);
    let before = g.board.clone();
    assert_eq!(g.apply_move((19, 0), TileState::Black), Err(MoveError::OutOfBounds));
    assert_eq!(g.apply_move((0, 25), TileState::Black), Err(MoveError::OutOfBounds));
    assert_eq!(g.apply_move((3, 3), TileState::Black), Err(MoveError::OccupiedTile));
    assert_eq!(g.board, before);
    assert_eq!(g.apply_move((3, 4), TileState::Black), Ok(()));
    assert_eq!(g.get_tile((3, 4)), TileState::Black);
}

#[test]
fn parse_moves() {
    assert!(matches!(parse_move("3,4"), Some(Move::Stone((3, 4)))));
    assert!(matches!(parse_move("18,0"), Some(Move::Stone((18, 0)))));
    assert!(matches!(parse_move("25,100"), Some(Move::Stone((25, 100)))));
    assert!(matches!(parse_move("pass"), Some(Move::Pass)));
    assert!(parse_move("").is_none());
    assert!(parse_move("3").is_none());
    assert!(parse_move("3,").is_none());
    assert!(parse_move(",4").is_none());
    assert!(parse_move("a,b").is_none());
    assert!(parse_move("3,4,5").is_none());
    assert!(parse_move(" 3,4").is_none());
    assert!(parse_move("Pass").is_none());
    assert!(parse_move("99999999999999999999999,1").is_none());
}

#[test]
fn render_board() {
    let g = GameState::new();
    let empty_line = format!("{}\n", ".".repeat(BOARD_SIZE));
    assert_eq!(g.to_string(), empty_line.repeat(BOARD_SIZE));
    let g = board_with(&[((3, 1), TileState::White), ((0, 2), TileState::Black)]);
    let text = g.to_string();
    let lines: Vec<&str> = text.lines().collect();
    assert_eq!(lines.len(), BOARD_SIZE);
    assert_eq!(lines[1], "...W...............");
    assert_eq!(lines[2], "B..................");
    assert_eq!(text.len(), BOARD_SIZE * (BOARD_SIZE + 1));
}

#[test]
fn empty_positions_in_scan_order() {
    let mut g = GameState::new();
    for x in 0..BOARD_SIZE {
        for y in 0..BOARD_SIZE {
            g.board[at(x, y)] = TileState::White;
        }
    }
    g.board[at(7, 2)] = TileState::Empty;
    g.board[at(1, 9)] = TileState::Empty;
    assert_eq!(g.empty_positions(), vec![(1, 9), (7, 2)]);
}

#[test]
fn opponent_picks_the_only_empty_cell() {
    let mut g = GameState::new();
    for x in 0..BOARD_SIZE {
        for y in 0..BOARD_SIZE {
            g.board[at(x, y)] = TileState::White;
        }
    }
    g.board[at(11, 4)] = TileState::Empty;
    for _ in 0..20 {
        assert_eq!(g.make_move(), Some((11, 4)));
    }
    g.board[at(11, 4)] = TileState::Black;
    assert_eq!(g.make_move(), None);
}

#[test]
fn opponent_move_is_on_an_empty_cell() {
    let g = board_with(&[((0, 0), TileState::White), ((5, 5), TileState::Black)]);
    for _ in 0..50 {
        let p = g.make_move().unwrap();
        assert!(p.0 < BOARD_SIZE && p.1 < BOARD_SIZE);
        assert_eq!(g.get_tile(p), TileState::Empty);
    }
}

#[test]
fn end_to_end_two_stones() {
    let mut g = GameState::new();
    assert_eq!(g.human_turn(Move::Stone((3, 3))), Outcome::Continue);
    assert_eq!(g.opponent_turn((3, 4)), Outcome::Continue);
    assert_eq!(occupied(&g), 2);
    assert_eq!(g.get_tile((3, 3)), TileState::White);
    assert_eq!(g.get_tile((3, 4)), TileState::Black);
}

#[test]
fn human_turn_outcomes() {
    let mut g = board_with(&[((3, 3), TileState::Black)]);
    assert_eq!(g.human_turn(Move::Pass), Outcome::Continue);
    assert_eq!(occupied(&g), 1);
    assert_eq!(
        g.human_turn(Move::Stone((3, 3))),
        Outcome::Finished(EndReason::IllegalMove)
    );
    assert_eq!(
        g.human_turn(Move::Stone((19, 3))),
        Outcome::Finished(EndReason::IllegalMove)
    );
    assert_eq!(g.get_tile((3, 3)), TileState::Black);
    let mut full = GameState::new();
    for i in 0..NUM_CELLS {
        full.board[i] = TileState::White;
    }
    assert_eq!(full.human_turn(Move::Pass), Outcome::Finished(EndReason::BoardFull));
}

#[test]
fn filling_the_board_captures_everything() {
    // On a full board no group has a liberty, so the last stone empties it.
    let mut g = GameState::new();
    for i in 0..NUM_CELLS - 1 {
        g.board[i] = TileState::White;
    }
    assert_eq!(g.human_turn(Move::Stone((18, 18))), Outcome::Continue);
    assert_eq!(occupied(&g), 0);
}

#[test]
fn message_handling() {
    let mut g = GameState::new();
    match g.handle_message("not a move") {
        Reply::Board(text) => assert_eq!(text, GameState::new().to_string()),
        Reply::Close(_) => panic!("malformed message must not end the game"),
    }
    match g.handle_message("3,3") {
        Reply::Board(text) => {
            assert_eq!(text.chars().filter(|c| *c == 'W').count(), 1);
            assert_eq!(text.chars().filter(|c| *c == 'B').count(), 1);
            assert_eq!(text.lines().nth(3).unwrap().chars().nth(3), Some('W'));
        }
        Reply::Close(_) => panic!("legal move must not end the game"),
    }
    assert_eq!(g.get_tile((3, 3)), TileState::White);
    assert_eq!(occupied(&g), 2);
    assert!(matches!(g.handle_message("3,3"), Reply::Close(EndReason::IllegalMove)));
    assert!(matches!(g.handle_message("30,3"), Reply::Close(EndReason::IllegalMove)));
}

#[test]
fn checked_get_and_set() {
    let mut g = GameState::new();
    assert_eq!(g.set((4, 9), TileState::Black), Ok(()));
    assert_eq!(g.get((4, 9)), Ok(TileState::Black));
    assert_eq!(g.get((19, 9)), Err(MoveError::OutOfBounds));
    assert_eq!(g.get((4, 19)), Err(MoveError::OutOfBounds));
    let before = g.board.clone();
    assert_eq!(g.set((0, 30), TileState::White), Err(MoveError::OutOfBounds));
    assert_eq!(g.board, before);
}
