//! The abstract contract that every game variant implements.
//!
//! A variant is a turn-based game with a fixed seat count, a serializable
//! state, and an eventually decidable outcome.  Each operation carries a
//! contract over the variant's mathematical model, and each variant proves a
//! handful of laws (a fresh game waits on seat 0, state encoding round-trips,
//! decoding is unambiguous) that the cache manager's proofs build on.

use vstd::prelude::*;

verus! {

/// Seat index of a participant: the 0-based position of the player within a
/// game room's ordered player list.
pub type GamePlayer = usize;

/// Outcome of a game, recomputed from the current state on every read.
#[derive(Debug, PartialEq)]
pub enum GameOutcome {
    /// The given seat has won.
    Win(GamePlayer),
    /// The game ended and no seat won.
    Tie,
    /// A variant-specific outcome message.
    Other(String),
    /// No outcome can be decided yet.
    Undecided,
}

/// A turn-based game variant.
///
/// The `spec` functions form the model; the `proof` functions are laws every
/// variant must establish; the `fn` items are the executable operations, each
/// tied exactly to the model.
pub trait Game: Sized {
    /// A move a seat can submit.
    type Move;

    /// A per-seat score value.
    type Score;

    /// Well-formedness of a state.
    spec fn wf(&self) -> bool;

    /// Number of seats this state was created for.
    spec fn num_seats(&self) -> int;

    /// Whether a game of this variant can start with `n` players.
    spec fn spec_players_ok(n: int) -> bool;

    /// Whether this state is the canonical initial state for `n` players.
    spec fn is_initial(&self, n: int) -> bool;

    /// The serialized form of this state.
    spec fn encoded(&self) -> Seq<char>;

    /// Whether `blob` deserializes to `g` for a game of `players` players.
    spec fn decodes_to(blob: Seq<char>, players: int, g: &Self) -> bool;

    /// Whether an outcome is decidable.
    spec fn spec_finished(&self) -> bool;

    /// Whether the game waits on a move by `seat`.
    spec fn spec_waiting_on(&self, seat: int) -> bool;

    /// Whether `seat` may currently play `mv`.
    spec fn move_allowed(&self, seat: int, mv: &Self::Move) -> bool;

    /// Whether `next` is the state after `seat` plays `mv`.
    spec fn move_result(&self, seat: int, mv: &Self::Move, next: &Self) -> bool;

    /// The scores, one per seat, once an outcome is decided.
    spec fn spec_scores(&self) -> Option<Seq<Self::Score>>;

    /// The outcome of this state.
    spec fn spec_outcome(&self) -> GameOutcome;

    /// A game never starts without at least one seat.
    proof fn lemma_players_ok(n: int)
        requires
            Self::spec_players_ok(n),
        ensures
            n >= 1,
    ;

    /// A fresh game is well formed, unfinished, and waits on seat 0.
    proof fn lemma_initial(g: &Self, n: int)
        requires
            Self::spec_players_ok(n),
            g.is_initial(n),
        ensures
            g.wf(),
            g.num_seats() == n,
            !g.spec_finished(),
            g.spec_waiting_on(0),
    ;

    /// Serializing a state and reading it back yields the same state.
    proof fn lemma_round_trip(&self)
        requires
            self.wf(),
        ensures
            Self::decodes_to(self.encoded(), self.num_seats(), self),
    ;

    /// A deserialized state is well formed, sized for its player count (at
    /// least one seat), and re-serializes to the blob it came from.
    proof fn lemma_decoded_wf(blob: Seq<char>, players: int, g: &Self)
        requires
            Self::decodes_to(blob, players, g),
        ensures
            g.wf(),
            g.num_seats() == players,
            players >= 1,
            g.encoded() == blob,
    ;

    /// A blob deserializes to at most one state.
    proof fn lemma_decodes_unique(blob: Seq<char>, players: int, a: &Self, b: &Self)
        requires
            Self::decodes_to(blob, players, a),
            Self::decodes_to(blob, players, b),
        ensures
            a == b,
    ;

    /// An accepted move preserves well-formedness and the seat count.
    proof fn lemma_move(&self, seat: int, mv: &Self::Move, next: &Self)
        requires
            self.wf(),
            self.move_allowed(seat, mv),
            self.move_result(seat, mv, next),
        ensures
            next.wf(),
            next.num_seats() == self.num_seats(),
    ;

    /// A winner named by the outcome is one of the seats.
    proof fn lemma_outcome_win_seat(&self)
        requires
            self.wf(),
        ensures
            self.spec_outcome() matches GameOutcome::Win(p) ==> 0 <= p < self.num_seats(),
    ;

    /// Whether a game of this variant can start with `players` players.
    fn check_num_players(players: usize) -> (r: bool)
        ensures
            r == Self::spec_players_ok(players as int),
    ;

    /// The canonical initial state for `players` players.
    fn new_with_players(players: usize) -> (g: Self)
        requires
            Self::spec_players_ok(players as int),
        ensures
            g.is_initial(players as int),
    ;

    /// Reconstructs a state from its serialized form, or reports that the
    /// blob is malformed.
    fn from_state(state: &str, players: usize) -> (r: Option<Self>)
        ensures
            match r {
                Some(g) => Self::decodes_to(state@, players as int, &g),
                None => forall|g: Self| !Self::decodes_to(state@, players as int, &g),
            },
    ;

    /// The serialized state snapshot, tailored to the requesting seat.
    fn state(&self, for_seat: GamePlayer) -> (r: String)
        requires
            self.wf(),
            for_seat < self.num_seats(),
        ensures
            r@ == self.encoded(),
    ;

    /// Whether an outcome is decidable.
    fn finished(&self) -> (r: bool)
        requires
            self.wf(),
        ensures
            r == self.spec_finished(),
    ;

    /// Whether the game waits on a move by `seat`.
    fn waiting_on(&self, seat: GamePlayer) -> (r: bool)
        requires
            self.wf(),
            seat < self.num_seats(),
        ensures
            r == self.spec_waiting_on(seat as int),
    ;

    /// Makes a move for `seat` if it is legal and returns whether it was;
    /// a wrong-turn, out-of-bounds, or otherwise illegal move (including one
    /// by a seat that does not exist) leaves the state untouched.
    fn make_move(&mut self, seat: GamePlayer, mv: &Self::Move) -> (ok: bool)
        requires
            old(self).wf(),
        ensures
            ok == old(self).move_allowed(seat as int, mv),
            ok ==> old(self).move_result(seat as int, mv, final(self)),
            !ok ==> *final(self) == *old(self),
    ;

    /// The score for each seat, or nothing while the outcome is undecided.
    fn scores(&self) -> (r: Option<Vec<Self::Score>>)
        requires
            self.wf(),
        ensures
            (match (r, self.spec_scores()) {
                (Some(v), Some(s)) => v@ == s,
                (None, None) => true,
                _ => false,
            }),
    ;

    /// The outcome of the game so far.
    fn outcome(&self) -> (r: GameOutcome)
        requires
            self.wf(),
        ensures
            r == self.spec_outcome(),
    ;

    /// An independent copy of this state.
    fn clone_game(&self) -> (r: Self)
        ensures
            r == *self,
    ;
}

} // verus!
