use turn_games::game::{Game, GameOutcome};
use turn_games::game_manage::{build_game_resp, AppState, GameId, GameInstance, IndexResp, NeededResp};
use turn_games::gomoku::{Gomoku, Move};
use turn_games::shared::{Error, ErrorResp, IdResp, PlayerId, SuccessResp};

fn mv(x: i32, y: i32) -> Move {
    Move { x, y }
}

fn p(id: i32) -> PlayerId {
    PlayerId::new(id)
}

/// Creates a room owned by player 1, joins players 1 and 2, and starts it.
fn started_game(app: &mut AppState<Gomoku>) -> GameId {
    let gid = app.new_game("A", p(1)).expect("create");
    app.join_game(gid, p(1)).expect("join 1");
    app.join_game(gid, p(2)).expect("join 2");
    app.start_game(gid, p(1)).expect("start");
    gid
}

/// Plays seat 0 to a row win: alternating legal moves, eleven in all.
fn play_to_win(app: &mut AppState<Gomoku>, gid: GameId) {
    let moves = [
        (3, 2), (10, 0),
        (3, 3), (10, 1),
        (3, 4), (10, 2),
        (3, 5), (10, 3),
        (3, 6), (10, 4),
        (3, 7),
    ];
    for (i, (x, y)) in moves.iter().enumerate() {
        let player = if i % 2 == 0 { p(1) } else { p(2) };
        app.move_game(gid, player, &mv(*x, *y)).expect("legal move");
    }
}

fn instances_equal(a: &GameInstance<Gomoku>, b: &GameInstance<Gomoku>) -> bool {
    a.id == b.id && a.owner == b.owner && a.name == b.name && a.players == b.players
        && a.game == b.game
}

#[test]
fn test_create_join_start_move_scenario() {
    let mut app: AppState<Gomoku> = AppState::new();
    let gid = app.new_game("A", p(1)).expect("create");

    let fresh = app.get_game(gid).expect("get fresh");
    assert_eq!(fresh.players.len(), 0);
    assert!(fresh.game.is_none());
    assert_eq!(fresh.name, "A");
    assert_eq!(fresh.owner.id(), 1);

    app.join_game(gid, p(1)).expect("join 1");
    app.join_game(gid, p(2)).expect("join 2");
    assert!(Gomoku::check_num_players(2));
    app.start_game(gid, p(1)).expect("start by owner");

    // Player 1 (seat 0) moves to (5,5): accepted, turn becomes seat 1.
    app.move_game(gid, p(1), &mv(5, 5)).expect("first move");
    let g = app.get_game(gid).expect("get started").game.expect("state present");
    assert!(!g.waiting_on(0));
    assert!(g.waiting_on(1));

    // Player 1 moves again: out of turn.
    assert_eq!(app.move_game(gid, p(1), &mv(6, 6)), Err(Error::WrongTurn));

    // Player 2 moves onto the occupied cell: invalid move.
    assert_eq!(app.move_game(gid, p(2), &mv(5, 5)), Err(Error::InvalidMove));

    // The two rejected moves did not touch the board: the state still shows
    // exactly one marker and still waits on seat 1.
    let g2 = app.get_game(gid).expect("get").game.expect("state present");
    assert_eq!(g2, g);
}

#[test]
fn test_get_is_idempotent() {
    let mut app: AppState<Gomoku> = AppState::new();
    let gid = app.new_game("room", p(4)).expect("create");
    app.join_game(gid, p(4)).expect("join");

    let a = app.get_game(gid).expect("first get");
    let b = app.get_game(gid).expect("second get");
    assert!(instances_equal(&a, &b));

    // The same holds once the game is started and even finished.
    app.join_game(gid, p(5)).expect("join 5");
    app.start_game(gid, p(4)).expect("start");
    let c = app.get_game(gid).expect("get started");
    let d = app.get_game(gid).expect("get started again");
    assert!(instances_equal(&c, &d));
}

#[test]
fn test_lifecycle_monotonic_after_start() {
    let mut app: AppState<Gomoku> = AppState::new();
    let gid = started_game(&mut app);

    assert_eq!(app.join_game(gid, p(3)), Err(Error::GameAlreadyStarted));
    assert_eq!(app.join_game(gid, p(1)), Err(Error::GameAlreadyStarted));
    assert_eq!(app.leave_game(gid, p(2)), Err(Error::GameAlreadyStarted));
    assert_eq!(app.start_game(gid, p(1)), Err(Error::GameAlreadyStarted));

    // None of the failed calls touched the room.
    let room = app.get_game(gid).expect("get");
    let ids: Vec<i32> = room.players.iter().map(|q| q.id()).collect();
    assert_eq!(ids, vec![1, 2]);
    assert_eq!(room.name, "A");
    assert!(room.game.is_some());

    // Still started after further operations, including a finished game.
    play_to_win(&mut app, gid);
    assert_eq!(app.join_game(gid, p(3)), Err(Error::GameAlreadyStarted));
    assert_eq!(app.leave_game(gid, p(2)), Err(Error::GameAlreadyStarted));
    assert_eq!(app.start_game(gid, p(1)), Err(Error::GameAlreadyStarted));
}

#[test]
fn test_finished_game_survives_eviction() {
    let mut app: AppState<Gomoku> = AppState::new();
    let gid = started_game(&mut app);
    play_to_win(&mut app, gid);

    // The finishing move evicted the game from the cache; the store still
    // has it, so lookups keep working and agree.
    let a = app.get_game(gid).expect("get finished game");
    let g = a.game.clone().expect("state present");
    assert!(g.finished());
    assert_eq!(g.outcome(), GameOutcome::Win(0));

    let b = app.get_game(gid).expect("get finished game again");
    assert!(instances_equal(&a, &b));

    // Nobody is waited on any more.
    assert_eq!(app.move_needed(gid, p(1)), Ok(false));
    assert_eq!(app.move_needed(gid, p(2)), Ok(false));
    assert_eq!(app.move_game(gid, p(2), &mv(0, 0)), Err(Error::WrongTurn));
}

#[test]
fn test_error_conditions() {
    let mut app: AppState<Gomoku> = AppState::new();
    assert_eq!(
        app.get_game(GameId::new(99)).err(),
        Some(Error::InvalidGameId)
    );
    assert_eq!(app.join_game(GameId::new(99), p(1)), Err(Error::InvalidGameId));

    let gid = app.new_game("errs", p(1)).expect("create");
    app.join_game(gid, p(1)).expect("join 1");

    assert_eq!(app.join_game(gid, p(1)), Err(Error::AlreadyInGame));
    assert_eq!(app.leave_game(gid, p(9)), Err(Error::NotJoinedGame));
    assert_eq!(app.start_game(gid, p(2)), Err(Error::NotGameOwner));
    assert_eq!(app.start_game(gid, p(1)), Err(Error::InvalidNumPlayers));
    assert_eq!(app.move_game(gid, p(1), &mv(0, 0)), Err(Error::GameNotStarted));

    // The failed calls left the room as it was: one player, not started.
    let room = app.get_game(gid).expect("get");
    let ids: Vec<i32> = room.players.iter().map(|q| q.id()).collect();
    assert_eq!(ids, vec![1]);
    assert!(room.game.is_none());
    assert_eq!(room.owner.id(), 1);

    app.join_game(gid, p(2)).expect("join 2");
    app.start_game(gid, p(1)).expect("start");
    assert_eq!(app.move_game(gid, p(7), &mv(0, 0)), Err(Error::NotJoinedGame));
    assert_eq!(app.move_game(gid, p(2), &mv(0, 0)), Err(Error::WrongTurn));
}

#[test]
fn test_leave_before_start() {
    let mut app: AppState<Gomoku> = AppState::new();
    let gid = app.new_game("leavers", p(1)).expect("create");
    app.join_game(gid, p(1)).expect("join 1");
    app.join_game(gid, p(2)).expect("join 2");
    app.join_game(gid, p(3)).expect("join 3");
    app.leave_game(gid, p(2)).expect("leave 2");

    let inst = app.get_game(gid).expect("get");
    let ids: Vec<i32> = inst.players.iter().map(|q| q.id()).collect();
    assert_eq!(ids, vec![1, 3]);

    // With two players left, the game can start.
    app.start_game(gid, p(1)).expect("start");
}

#[test]
fn test_list_games_descending() {
    let mut app: AppState<Gomoku> = AppState::new();
    let a = app.new_game("a", p(1)).expect("create a");
    let b = app.new_game("b", p(1)).expect("create b");
    let c = app.new_game("c", p(2)).expect("create c");
    let resp = IndexResp { games: app.list_games() };
    assert_eq!(resp.games, vec![c.id(), b.id(), a.id()]);
}

#[test]
fn test_move_needed() {
    let mut app: AppState<Gomoku> = AppState::new();
    let gid = app.new_game("needed", p(1)).expect("create");
    app.join_game(gid, p(1)).expect("join 1");
    // Not started yet: no move needed from anyone.
    assert_eq!(app.move_needed(gid, p(1)), Ok(false));

    app.join_game(gid, p(2)).expect("join 2");
    app.start_game(gid, p(1)).expect("start");
    assert_eq!(app.move_needed(gid, p(1)), Ok(true));
    let resp = NeededResp { needed: app.move_needed(gid, p(1)).unwrap() };
    assert!(resp.needed);
    assert_eq!(app.move_needed(gid, p(2)), Ok(false));
    assert_eq!(app.move_needed(gid, p(9)), Err(Error::NotJoinedGame));

    app.move_game(gid, p(1), &mv(0, 0)).expect("move");
    assert_eq!(app.move_needed(gid, p(1)), Ok(false));
    assert_eq!(app.move_needed(gid, p(2)), Ok(true));

    assert_eq!(app.move_needed(GameId::new(42), p(1)), Err(Error::InvalidGameId));
}

#[test]
fn test_game_resp_fields() {
    let mut app: AppState<Gomoku> = AppState::new();
    let gid = started_game(&mut app);
    let inst = app.get_game(gid).expect("get");
    let names = vec!["Alice".to_string(), "Bob".to_string()];

    let resp = build_game_resp(&inst, &names, p(1));
    assert_eq!(resp.name, "A");
    assert_eq!(resp.owner_id, 1);
    assert!(resp.started);
    assert!(resp.active);
    assert_eq!(resp.player_ids, vec![1, 2]);
    assert_eq!(resp.players, names);
    assert_eq!(resp.waiting_on, vec![true, false]);
    assert_eq!(resp.outcome, "No Outcome Yet");
    let blob = resp.state.expect("state present");
    assert_eq!(Gomoku::from_state(&blob, 2).unwrap(), inst.game.unwrap());

    play_to_win(&mut app, gid);
    let done = app.get_game(gid).expect("get finished");
    let resp2 = build_game_resp(&done, &names, p(2));
    assert!(!resp2.active);
    assert!(resp2.started);
    assert_eq!(resp2.waiting_on.len(), 0);
    assert_eq!(resp2.outcome, "Alice Wins!");
}

#[test]
fn test_unstarted_game_resp() {
    let mut app: AppState<Gomoku> = AppState::new();
    let gid = app.new_game("empty", p(6)).expect("create");
    let inst = app.get_game(gid).expect("get");
    let names: Vec<String> = vec![];
    let resp = build_game_resp(&inst, &names, p(6));
    assert!(!resp.started);
    assert!(!resp.active);
    assert!(resp.state.is_none());
    assert_eq!(resp.outcome, "No Outcome Yet");
    assert_eq!(resp.waiting_on.len(), 0);
}

#[test]
fn test_error_resp_messages() {
    let r = ErrorResp::from_error(&Error::InvalidGameId);
    assert_eq!(r.error, "invalid game id");
    assert!(!r.success);
    assert_eq!(
        ErrorResp::from_error(&Error::GameAlreadyStarted).error,
        "game is already started"
    );
    assert_eq!(ErrorResp::from_error(&Error::WrongTurn).error, "player played out of turn");
    assert_eq!(ErrorResp::from_error(&Error::InvalidMove).error, "invalid move");
    assert_eq!(
        ErrorResp::from_error(&Error::SerializeError).error,
        "data serialization error"
    );
    assert_eq!(ErrorResp::from_error(&Error::StoreError).error, "store error");
    assert_eq!(
        ErrorResp::from_error(&Error::AlreadyInGame).error,
        "player has already joined the game"
    );
    assert_eq!(
        ErrorResp::from_error(&Error::NotJoinedGame).error,
        "player has not joined the game"
    );
    assert_eq!(
        ErrorResp::from_error(&Error::NotGameOwner).error,
        "player is not the owner of game"
    );
    assert_eq!(
        ErrorResp::from_error(&Error::InvalidNumPlayers).error,
        "invalid number of players to start game"
    );
    assert_eq!(
        ErrorResp::from_error(&Error::GameNotStarted).error,
        "game has not started yet"
    );
}

#[test]
fn test_identity_rendering() {
    let gid = GameId::new(17);
    assert_eq!(gid.id(), 17);
    assert_eq!(gid.to_string(), "17");
    let resp = IdResp { id: gid.to_string() };
    assert_eq!(resp.id, "17");

    let player = PlayerId::new(-3);
    assert_eq!(player.id(), -3);
    assert_eq!(player.to_string(), "-3");
    assert_eq!(PlayerId::new(7).next().id(), 8);

    let ok = SuccessResp { success: true };
    assert!(ok.success);
}
