//! Identities, the error taxonomy, and the uniform response values that the
//! service hands upward to the request layer.

use crate::codec::{enc_i32, encode_i32};
use vstd::prelude::*;

verus! {

/// Identity of a participant; equality-comparable, assigned elsewhere.
#[derive(PartialEq, Eq, Copy, Clone, Hash, Default, Debug, Structural)]
pub struct PlayerId(i32);

impl PlayerId {
    /// The raw identifier.
    pub closed spec fn spec_id(self) -> i32 {
        self.0
    }

    /// Wraps a raw identifier.
    pub fn new(id: i32) -> (r: PlayerId)
        ensures
            r.spec_id() == id,
    {
        PlayerId(id)
    }

    /// The raw identifier.
    pub fn id(&self) -> (r: i32)
        ensures
            r == self.spec_id(),
    {
        self.0
    }

    /// The following identity.
    pub fn next(&self) -> (r: PlayerId)
        requires
            self.spec_id() < i32::MAX,
        ensures
            r.spec_id() == self.spec_id() + 1,
    {
        PlayerId(self.0 + 1)
    }

    /// Decimal rendering of the identifier.
    pub fn to_string(&self) -> (r: String)
        ensures
            r@ == enc_i32(self.spec_id() as int),
    {
        encode_i32(self.0)
    }
}

/// Two identities with the same raw identifier are the same identity.
pub proof fn lemma_player_id_injective(a: PlayerId, b: PlayerId)
    requires
        a.spec_id() == b.spec_id(),
    ensures
        a == b,
{
}

/// Everything that can go wrong in a service operation.  None of these
/// crashes the process; each is recovered at the service boundary into an
/// [`ErrorResp`].
#[derive(PartialEq, Eq, Copy, Clone, Debug, Structural)]
pub enum Error {
    /// The store has no record for the requested game.
    InvalidGameId,
    /// The backing store refused a write.
    StoreError,
    /// A stored blob is malformed; surfaced, never silently recovered.
    SerializeError,
    /// The game has already been started.
    GameAlreadyStarted,
    /// The player has already joined the game.
    AlreadyInGame,
    /// The game cannot start with the current number of players.
    InvalidNumPlayers,
    /// Only the owner may start a game.
    NotGameOwner,
    /// The player has not joined the game.
    NotJoinedGame,
    /// The game has not been started yet.
    GameNotStarted,
    /// The player played out of turn.
    WrongTurn,
    /// The move is out of bounds or targets an occupied cell.
    InvalidMove,
}

/// The uniform failure value exposed to the request layer.
#[derive(Debug)]
pub struct ErrorResp {
    pub error: String,
    pub success: bool,
}

/// The human-readable message for each error kind.
pub open spec fn error_message(e: Error) -> Seq<char> {
    match e {
        Error::InvalidGameId => "invalid game id"@,
        Error::StoreError => "store error"@,
        Error::SerializeError => "data serialization error"@,
        Error::GameAlreadyStarted => "game is already started"@,
        Error::AlreadyInGame => "player has already joined the game"@,
        Error::InvalidNumPlayers => "invalid number of players to start game"@,
        Error::NotGameOwner => "player is not the owner of game"@,
        Error::NotJoinedGame => "player has not joined the game"@,
        Error::GameNotStarted => "game has not started yet"@,
        Error::WrongTurn => "player played out of turn"@,
        Error::InvalidMove => "invalid move"@,
    }
}

impl ErrorResp {
    /// Recovers an error into the uniform failure value: its message and a
    /// `success: false` marker.
    pub fn from_error(e: &Error) -> (r: ErrorResp)
        ensures
            r.error@ == error_message(*e),
            !r.success,
    {
        let msg: String = match e {
            Error::InvalidGameId => "invalid game id".to_owned(),
            Error::StoreError => "store error".to_owned(),
            Error::SerializeError => "data serialization error".to_owned(),
            Error::GameAlreadyStarted => "game is already started".to_owned(),
            Error::AlreadyInGame => "player has already joined the game".to_owned(),
            Error::InvalidNumPlayers => "invalid number of players to start game".to_owned(),
            Error::NotGameOwner => "player is not the owner of game".to_owned(),
            Error::NotJoinedGame => "player has not joined the game".to_owned(),
            Error::GameNotStarted => "game has not started yet".to_owned(),
            Error::WrongTurn => "player played out of turn".to_owned(),
            Error::InvalidMove => "invalid move".to_owned(),
        };
        ErrorResp { error: msg, success: false }
    }
}

/// Response carrying a freshly assigned identifier.
#[derive(Debug)]
pub struct IdResp {
    pub id: String,
}

/// Response acknowledging a successful operation.
#[derive(Debug)]
pub struct SuccessResp {
    pub success: bool,
}

} // verus!
