use turn_games::game::{Game, GameOutcome};
use turn_games::gomoku::{Gomoku, Move, BOARD_SIZE, WIN_LEN};
use turn_games::tic_tac_toe::TicTacToe;

fn mv(x: i32, y: i32) -> Move {
    Move { x, y }
}

/// Plays the given moves in order, alternating seats starting from seat 0,
/// asserting each is accepted.
fn play(g: &mut Gomoku, moves: &[(i32, i32)]) {
    for (i, (x, y)) in moves.iter().enumerate() {
        let seat = i % 2;
        assert!(g.waiting_on(seat), "seat {} should be to move", seat);
        assert!(g.make_move(seat, &mv(*x, *y)), "move {:?} should be legal", (x, y));
    }
}

fn scores_as_f64(g: &Gomoku) -> Option<Vec<f64>> {
    g.scores().map(|halves| halves.iter().map(|h| *h as f64 / 2.0).collect())
}

#[test]
fn test_new_game_initial_state() {
    assert!(Gomoku::check_num_players(2));
    assert!(!Gomoku::check_num_players(0));
    assert!(!Gomoku::check_num_players(1));
    assert!(!Gomoku::check_num_players(3));
    let g = Gomoku::new_with_players(2);
    assert!(!g.finished());
    assert!(g.waiting_on(0));
    assert!(!g.waiting_on(1));
    assert!(!g.full());
    assert!(!g.check_win(0));
    assert!(!g.check_win(1));
    assert!(matches!(g.outcome(), GameOutcome::Undecided));
    assert!(g.scores().is_none());
}

#[test]
fn test_row_win_for_seat_0() {
    // Seat 0 fills row 3, columns 2..=7; seat 1 answers elsewhere.
    let mut g = Gomoku::new_with_players(2);
    play(
        &mut g,
        &[
            (3, 2), (10, 0),
            (3, 3), (10, 1),
            (3, 4), (10, 2),
            (3, 5), (10, 3),
            (3, 6), (10, 4),
            (3, 7),
        ],
    );
    assert!(g.check_row(0, 3));
    assert!(g.check_win(0));
    assert!(!g.check_win(1));
    assert!(g.finished());
    assert!(matches!(g.outcome(), GameOutcome::Win(0)));
    assert_eq!(scores_as_f64(&g), Some(vec![1.0, 0.0]));
    // Once finished, the game waits on nobody.
    assert!(!g.waiting_on(0));
    assert!(!g.waiting_on(1));
}

#[test]
fn test_col_win_for_seat_1() {
    let mut g = Gomoku::new_with_players(2);
    play(
        &mut g,
        &[
            (0, 0), (5, 7),
            (0, 1), (6, 7),
            (0, 2), (7, 7),
            (0, 3), (8, 7),
            (0, 4), (9, 7),
            (18, 18), (10, 7),
        ],
    );
    assert!(g.check_col(1, 7));
    assert!(g.check_win(1));
    assert!(!g.check_win(0));
    assert!(matches!(g.outcome(), GameOutcome::Win(1)));
    assert_eq!(scores_as_f64(&g), Some(vec![0.0, 1.0]));
}

#[test]
fn test_main_diagonal_win() {
    let mut g = Gomoku::new_with_players(2);
    play(
        &mut g,
        &[
            (2, 2), (0, 10),
            (3, 3), (1, 10),
            (4, 4), (2, 10),
            (5, 5), (3, 10),
            (6, 6), (4, 10),
            (7, 7),
        ],
    );
    assert!(g.check_diags(0));
    assert!(g.check_win(0));
    assert!(matches!(g.outcome(), GameOutcome::Win(0)));
}

#[test]
fn test_anti_diagonal_win_near_edge() {
    // Seat 0's run hugs the top-left corner: (0,5) down-left to (5,0).
    let mut g = Gomoku::new_with_players(2);
    play(
        &mut g,
        &[
            (0, 5), (17, 0),
            (1, 4), (17, 1),
            (2, 3), (17, 2),
            (3, 2), (17, 3),
            (4, 1), (17, 4),
            (5, 0),
        ],
    );
    assert!(g.check_diags(0));
    assert!(g.check_win(0));
    assert!(matches!(g.outcome(), GameOutcome::Win(0)));
}

#[test]
fn test_row_win_at_right_edge() {
    let mut g = Gomoku::new_with_players(2);
    play(
        &mut g,
        &[
            (0, 13), (9, 0),
            (0, 14), (9, 1),
            (0, 15), (9, 2),
            (0, 16), (9, 3),
            (0, 17), (9, 4),
            (0, 18),
        ],
    );
    assert!(g.check_row(0, 0));
    assert!(g.check_win(0));
}

#[test]
fn test_five_in_a_row_is_not_enough() {
    let mut g = Gomoku::new_with_players(2);
    play(
        &mut g,
        &[
            (3, 2), (10, 0),
            (3, 3), (10, 1),
            (3, 4), (10, 2),
            (3, 5), (10, 3),
            (3, 6), (10, 4),
        ],
    );
    assert!(!g.check_win(0));
    assert!(!g.check_win(1));
    assert!(!g.finished());
    assert!(matches!(g.outcome(), GameOutcome::Undecided));
    assert!(g.scores().is_none());
}

#[test]
fn test_make_move_rejections_leave_state_unchanged() {
    let mut g = Gomoku::new_with_players(2);
    assert!(g.make_move(0, &mv(5, 5)));
    let before = g;

    // Out of turn: seat 0 just moved, it is seat 1's turn.
    assert!(!g.make_move(0, &mv(6, 6)));
    assert_eq!(g, before);

    // Out of bounds.
    assert!(!g.make_move(1, &mv(BOARD_SIZE as i32, 0)));
    assert_eq!(g, before);
    assert!(!g.make_move(1, &mv(0, BOARD_SIZE as i32)));
    assert_eq!(g, before);
    assert!(!g.make_move(1, &mv(-1, 3)));
    assert_eq!(g, before);
    assert!(!g.make_move(1, &mv(3, -1)));
    assert_eq!(g, before);

    // Occupied cell.
    assert!(!g.make_move(1, &mv(5, 5)));
    assert_eq!(g, before);

    // A seat that does not exist.
    assert!(!g.make_move(7, &mv(1, 1)));
    assert_eq!(g, before);
}

#[test]
fn test_state_round_trip() {
    let mut g = Gomoku::new_with_players(2);
    play(&mut g, &[(5, 5), (6, 6), (5, 6)]);
    for seat in 0..2 {
        let blob = g.state(seat);
        assert_eq!(blob.len(), BOARD_SIZE * BOARD_SIZE + 1);
        let back = Gomoku::from_state(&blob, 2).expect("round trip must parse");
        assert_eq!(back, g);
        assert_eq!(back.finished(), g.finished());
        assert_eq!(back.waiting_on(0), g.waiting_on(0));
        assert_eq!(back.waiting_on(1), g.waiting_on(1));
        assert_eq!(back.outcome(), g.outcome());
    }
}

#[test]
fn test_from_state_rejects_malformed_blobs() {
    let g = Gomoku::new_with_players(2);
    let blob = g.state(0);
    // Wrong player count.
    assert!(Gomoku::from_state(&blob, 3).is_none());
    // Truncated.
    assert!(Gomoku::from_state(&blob[..blob.len() - 1], 2).is_none());
    // Bad turn character.
    let bad_turn = format!("x{}", &blob[1..]);
    assert!(Gomoku::from_state(&bad_turn, 2).is_none());
    // Bad cell character.
    let bad_cell = format!("{}z{}", &blob[..5], &blob[6..]);
    assert!(Gomoku::from_state(&bad_cell, 2).is_none());
}

#[test]
fn test_full_board_without_run_is_a_tie() {
    // Tilted stripes of width four: along every row, column and diagonal the
    // marker changes at least every four cells, so nobody has a run of six.
    let mut blob = String::new();
    blob.push('0');
    for x in 0..BOARD_SIZE as i32 {
        for y in 0..BOARD_SIZE as i32 {
            if (2 * x + y) % 8 < 4 {
                blob.push('0');
            } else {
                blob.push('1');
            }
        }
    }
    let g = Gomoku::from_state(&blob, 2).expect("full board must parse");
    assert!(g.full());
    assert!(!g.check_win(0));
    assert!(!g.check_win(1));
    assert!(g.finished());
    assert!(matches!(g.outcome(), GameOutcome::Tie));
    assert_eq!(scores_as_f64(&g), Some(vec![0.5, 0.5]));
    assert!(WIN_LEN > 4);
}

#[test]
fn test_tic_tac_toe_skeleton() {
    assert!(TicTacToe::check_num_players(2));
    assert!(!TicTacToe::check_num_players(3));
    let t = TicTacToe::new_with_players(2);
    // The skeleton's `full` reports whether every cell is still unmarked.
    assert!(t.full());
    // The placeholder win check holds for any real seat and no other.
    assert!(t.check_win(0));
    assert!(t.check_win(1));
    assert!(!t.check_win(2));
    assert!(!t.check_win(99));
}
