use turn_games::game_manage::{AppState, GameId, GameInstance};
use turn_games::gomoku::Gomoku;
use turn_games::models::{DbGame, InsertDbGame, NewDbGame};
use turn_games::shared::{Error, PlayerId};
use turn_games::store::GameStore;

fn new_rec(title: &str, owner: i32) -> NewDbGame {
    NewDbGame {
        title: title.to_string(),
        state: None,
        owner_id: owner,
        players: String::new(),
        active: 1,
    }
}

#[test]
fn test_store_insert_assigns_increasing_ids() {
    let mut store = GameStore::new();
    assert_eq!(store.insert(new_rec("a", 1)), Ok(1));
    assert_eq!(store.insert(new_rec("b", 1)), Ok(2));
    assert_eq!(store.insert(new_rec("c", 2)), Ok(3));
    assert_eq!(store.list_ids_descending(), vec![3, 2, 1]);
}

#[test]
fn test_store_find_and_update() {
    let mut store = GameStore::new();
    let id = store.insert(new_rec("room", 7)).unwrap();
    let rec = store.find_by_id(id).expect("stored record");
    assert_eq!(rec.id, id);
    assert_eq!(rec.title, "room");
    assert_eq!(rec.owner_id, 7);
    assert_eq!(rec.state, None);
    assert!(store.find_by_id(id + 1).is_none());

    let found = store.update(InsertDbGame {
        id,
        title: "room".to_string(),
        state: Some("blob".to_string()),
        owner_id: 7,
        players: "7".to_string(),
        active: 0,
    });
    assert!(found);
    let rec2 = store.find_by_id(id).expect("still stored");
    assert_eq!(rec2.state.as_deref(), Some("blob"));
    assert_eq!(rec2.players, "7");
    assert_eq!(rec2.active, 0);

    // Updating a missing identifier writes nothing and says so.
    let missing = store.update(InsertDbGame {
        id: 99,
        title: String::new(),
        state: None,
        owner_id: 0,
        players: String::new(),
        active: 0,
    });
    assert!(!missing);
    assert!(store.find_by_id(99).is_none());
}

#[test]
fn test_db_game_duplicate_is_equal() {
    let rec = DbGame {
        id: 3,
        title: "t".to_string(),
        state: Some("s".to_string()),
        owner_id: 4,
        players: "4,5".to_string(),
        active: 1,
    };
    let copy = rec.duplicate();
    assert_eq!(copy.id, rec.id);
    assert_eq!(copy.title, rec.title);
    assert_eq!(copy.state, rec.state);
    assert_eq!(copy.owner_id, rec.owner_id);
    assert_eq!(copy.players, rec.players);
    assert_eq!(copy.active, rec.active);
}

#[test]
fn test_from_record_rejects_corrupt_blobs() {
    let base = DbGame {
        id: 1,
        title: "t".to_string(),
        state: None,
        owner_id: 2,
        players: "junk".to_string(),
        active: 1,
    };
    assert!(matches!(
        GameInstance::<Gomoku>::from_record(&base),
        Err(Error::SerializeError)
    ));

    // Duplicate players are data corruption too.
    let dup = DbGame { players: "5,5".to_string(), ..dup_base() };
    assert!(matches!(
        GameInstance::<Gomoku>::from_record(&dup),
        Err(Error::SerializeError)
    ));

    // A malformed state blob is rejected.
    let bad_state = DbGame {
        players: "1,2".to_string(),
        state: Some("not a board".to_string()),
        ..dup_base()
    };
    assert!(matches!(
        GameInstance::<Gomoku>::from_record(&bad_state),
        Err(Error::SerializeError)
    ));

    // A sound record is accepted.
    let good = DbGame { players: "1,2".to_string(), ..dup_base() };
    let inst = GameInstance::<Gomoku>::from_record(&good).expect("sound record");
    assert_eq!(inst.players.len(), 2);
    assert!(inst.game.is_none());
}

fn dup_base() -> DbGame {
    DbGame {
        id: 1,
        title: "t".to_string(),
        state: None,
        owner_id: 2,
        players: String::new(),
        active: 1,
    }
}

#[test]
fn test_save_on_missing_record_leaves_cache_untouched() {
    let mut app: AppState<Gomoku> = AppState::new();
    let gid = app.new_game("real", PlayerId::new(1)).expect("create");

    // Saving a room the store never heard of fails with the store's error
    // and must not touch the cache or the store.
    let ghostly = GameInstance::<Gomoku> {
        game: None,
        players: Vec::new(),
        name: "ghost".to_string(),
        owner: PlayerId::new(1),
        id: GameId::new(999),
    };
    assert_eq!(app.save_game(ghostly), Err(Error::StoreError));
    assert_eq!(app.get_game(GameId::new(999)).err(), Some(Error::InvalidGameId));
    assert_eq!(app.list_games(), vec![gid.id()]);

    // The real room is unaffected.
    let real = app.get_game(gid).expect("still there");
    assert_eq!(real.name, "real");
}
