//! Record types of the keyed record store that mirrors a game room.

use vstd::prelude::*;

verus! {

/// A stored game record: room metadata, the serialized player list, the
/// serialized variant state (absent until the game starts), and a flag that
/// is set while the game is still worth caching.
#[derive(Debug)]
pub struct DbGame {
    pub id: i32,
    pub title: String,
    pub state: Option<String>,
    pub owner_id: i32,
    pub players: String,
    pub active: i32,
}

/// The fields written by a full replace of an existing record.
#[derive(Debug)]
pub struct InsertDbGame {
    pub id: i32,
    pub title: String,
    pub state: Option<String>,
    pub owner_id: i32,
    pub players: String,
    pub active: i32,
}

/// The fields of a new record; the store assigns the identifier.
#[derive(Debug)]
pub struct NewDbGame {
    pub title: String,
    pub state: Option<String>,
    pub owner_id: i32,
    pub players: String,
    pub active: i32,
}

impl DbGame {
    /// An independent copy of this record.
    pub fn duplicate(&self) -> (r: DbGame)
        ensures
            r == *self,
    {
        DbGame {
            id: self.id,
            title: self.title.clone(),
            state: match &self.state {
                Some(s) => Some(s.clone()),
                None => None,
            },
            owner_id: self.owner_id,
            players: self.players.clone(),
            active: self.active,
        }
    }
}

/// The record that a full replace by `r` leaves behind under identifier
/// `r.id`.
pub open spec fn db_of_insert(r: InsertDbGame) -> DbGame {
    DbGame {
        id: r.id,
        title: r.title,
        state: r.state,
        owner_id: r.owner_id,
        players: r.players,
        active: r.active,
    }
}

/// The record that inserting `r` creates once the store assigns `id`.
pub open spec fn db_of_new(r: NewDbGame, id: i32) -> DbGame {
    DbGame {
        id: id,
        title: r.title,
        state: r.state,
        owner_id: r.owner_id,
        players: r.players,
        active: r.active,
    }
}

} // verus!
