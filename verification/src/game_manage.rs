//! Game rooms, the write-through cache of in-progress games, and the service
//! operations a request layer calls.
//!
//! Every operation goes through [`AppState`]: it owns the cache (a map from
//! game identity to a full [`GameInstance`] clone) and the keyed record
//! store.  Reads clone an instance out, writes go to the store first and only
//! then update or evict the cache entry, and the well-formedness invariant
//! [`AppState::wf`] states that a cached instance is always exactly what its
//! stored record deserializes to: cache and store never diverge.

use crate::codec::{dec_ids, enc_i32, enc_ids, encode_i32, encode_ids};
use crate::game::{Game, GameOutcome, GamePlayer};
use crate::models::{db_of_insert, db_of_new, DbGame, InsertDbGame, NewDbGame};
use crate::shared::{lemma_player_id_injective, Error, PlayerId};
use crate::store::GameStore;
use std::collections::HashMap;
use vstd::prelude::*;

verus! {

broadcast use vstd::std_specs::hash::group_hash_axioms;

/// Identity of a game, assigned by the record store on creation.
#[derive(PartialEq, Eq, Copy, Clone, Hash, Default, Debug, Structural)]
pub struct GameId(i32);

impl GameId {
    /// The raw identifier.
    pub closed spec fn spec_id(self) -> i32 {
        self.0
    }

    /// Wraps a raw identifier.
    pub fn new(id: i32) -> (r: GameId)
        ensures
            r.spec_id() == id,
    {
        GameId(id)
    }

    /// The raw identifier.
    pub fn id(&self) -> (r: i32)
        ensures
            r == self.spec_id(),
    {
        self.0
    }

    /// Decimal rendering of the identifier.
    pub fn to_string(&self) -> (r: String)
        ensures
            r@ == enc_i32(self.spec_id() as int),
    {
        encode_i32(self.0)
    }
}

/// Two game identities with the same raw identifier are the same identity.
pub proof fn lemma_game_id_injective(a: GameId, b: GameId)
    requires
        a.spec_id() == b.spec_id(),
    ensures
        a == b,
{
}

/// A game room: metadata plus the variant's live state once started.
pub struct GameInstance<G: Game> {
    /// The variant state; absent until the game is started, present ever
    /// after.
    pub game: Option<G>,
    /// Players currently in the room, in seat order, without duplicates.
    pub players: Vec<PlayerId>,
    /// Display name of the room.
    pub name: String,
    /// The player who created the room and may start the game.
    pub owner: PlayerId,
    /// Identity of the room.
    pub id: GameId,
}

impl<G: Game> GameInstance<G> {
    /// The players' raw identifiers, in seat order.
    pub open spec fn player_ids(self) -> Seq<i32> {
        self.players@.map_values(|p: PlayerId| p.spec_id())
    }

    /// No duplicate players, and a started game's state is well formed and
    /// sized for the seats at the table.
    pub open spec fn wf(self) -> bool {
        &&& forall|i: int, j: int|
            0 <= i < j < self.players@.len() ==> self.players@[i] != self.players@[j]
        &&& match self.game {
            Some(g) => g.wf() && g.num_seats() == self.players@.len() && self.players@.len() >= 1,
            None => true,
        }
    }

    /// Whether the game has been started.
    pub open spec fn spec_started(self) -> bool {
        self.game is Some
    }

    /// Whether the game has started and reached an outcome.
    pub open spec fn spec_finished(self) -> bool {
        match self.game {
            Some(g) => g.spec_finished(),
            None => false,
        }
    }

    /// Whether the game has started and its outcome is still open.
    pub open spec fn spec_active(self) -> bool {
        self.spec_started() && !self.spec_finished()
    }

    /// Equality of room content; two instances that agree here behave the
    /// same in every operation.
    pub open spec fn eqv(self, other: GameInstance<G>) -> bool {
        &&& self.id == other.id
        &&& self.owner == other.owner
        &&& self.name@ == other.name@
        &&& self.players@ == other.players@
        &&& self.game == other.game
    }

    /// Whether this instance is what `rec` deserializes to.
    pub open spec fn loads_from(self, rec: DbGame) -> bool {
        &&& self.id.spec_id() == rec.id
        &&& self.name@ == rec.title@
        &&& self.owner.spec_id() == rec.owner_id
        &&& dec_ids(rec.players@) == Some(self.player_ids())
        &&& match (rec.state, self.game) {
            (Some(blob), Some(g)) => G::decodes_to(blob@, self.players@.len() as int, &g),
            (None, None) => true,
            _ => false,
        }
    }

    /// Whether `rec` is the record that saving this instance writes.
    pub open spec fn saves_to(self, rec: DbGame) -> bool {
        &&& rec.id == self.id.spec_id()
        &&& rec.title@ == self.name@
        &&& rec.owner_id == self.owner.spec_id()
        &&& rec.players@ == enc_ids(self.player_ids())
        &&& match (self.game, rec.state) {
            (Some(g), Some(blob)) => blob@ == g.encoded(),
            (None, None) => true,
            _ => false,
        }
        &&& rec.active == (if self.spec_active() {
            1int
        } else {
            0int
        })
    }

    /// Room content decides every model predicate.
    pub proof fn lemma_eqv_props(self, other: GameInstance<G>)
        requires
            self.eqv(other),
        ensures
            other.eqv(self),
            self.wf() == other.wf(),
            self.spec_started() == other.spec_started(),
            self.spec_finished() == other.spec_finished(),
            self.spec_active() == other.spec_active(),
            self.player_ids() == other.player_ids(),
            forall|rec: DbGame| self.loads_from(rec) == #[trigger] other.loads_from(rec),
            forall|rec: DbGame| self.saves_to(rec) == #[trigger] other.saves_to(rec),
    {
    }

    /// The record a save writes deserializes right back to the instance.
    pub proof fn lemma_saved_loads(self, rec: DbGame)
        requires
            self.wf(),
            self.saves_to(rec),
        ensures
            self.loads_from(rec),
    {
        crate::codec::lemma_dec_ids_enc_ids(self.player_ids());
        match self.game {
            Some(g) => {
                g.lemma_round_trip();
            },
            None => {},
        }
    }

    /// A record deserializes to at most one room content.
    pub proof fn lemma_loads_unique(self, other: GameInstance<G>, rec: DbGame)
        requires
            self.loads_from(rec),
            other.loads_from(rec),
        ensures
            self.eqv(other),
    {
        lemma_game_id_injective(self.id, other.id);
        lemma_player_id_injective(self.owner, other.owner);
        lemma_player_seq_injective(self.players@, other.players@);
        match (rec.state, self.game, other.game) {
            (Some(blob), Some(g), Some(h)) => {
                G::lemma_decodes_unique(blob@, self.players@.len() as int, &g, &h);
            },
            _ => {},
        }
    }

    /// Whether the game has been started.
    pub fn started(&self) -> (r: bool)
        ensures
            r == self.spec_started(),
    {
        match &self.game {
            None => false,
            Some(_) => true,
        }
    }

    /// Whether the game has started and its outcome is still open.
    pub fn active(&self) -> (r: bool)
        requires
            self.wf(),
        ensures
            r == self.spec_active(),
    {
        match &self.game {
            None => false,
            Some(g) => !g.finished(),
        }
    }

    /// Whether the game has started and reached an outcome.
    pub fn finished(&self) -> (r: bool)
        requires
            self.wf(),
        ensures
            r == self.spec_finished(),
    {
        match &self.game {
            None => false,
            Some(g) => g.finished(),
        }
    }

    /// The seat index of `player`, or [`Error::NotJoinedGame`].
    pub fn get_player_index(&self, player: PlayerId) -> (r: Result<GamePlayer, Error>)
        ensures
            match r {
                Ok(i) => {
                    &&& i < self.players@.len()
                    &&& self.players@[i as int] == player
                    &&& forall|j: int| 0 <= j < i ==> self.players@[j] != player
                },
                Err(e) => e == Error::NotJoinedGame && !self.players@.contains(player),
            },
    {
        let mut i: usize = 0;
        while i < self.players.len()
            invariant
                i <= self.players@.len(),
                forall|j: int| 0 <= j < i ==> self.players@[j] != player,
            decreases self.players@.len() - i,
        {
            if self.players[i] == player {
                return Ok(i);
            }
            i = i + 1;
        }
        proof {
            assert forall|j: int| 0 <= j < self.players@.len()
                implies self.players@[j] != player by {}
            if self.players@.contains(player) {
                let j = choose|j: int| 0 <= j < self.players@.len() && self.players@[j] == player;
                assert(self.players@[j] != player);
            }
        }
        Err(Error::NotJoinedGame)
    }

    /// An independent copy of the room.
    pub fn snapshot(&self) -> (r: Self)
        ensures
            r.eqv(*self),
    {
        let game = match &self.game {
            Some(g) => Some(g.clone_game()),
            None => None,
        };
        let mut players: Vec<PlayerId> = Vec::new();
        let mut i: usize = 0;
        while i < self.players.len()
            invariant
                i <= self.players@.len(),
                players@ == self.players@.take(i as int),
            decreases self.players@.len() - i,
        {
            players.push(self.players[i]);
            proof {
                assert(players@ =~= self.players@.take(i + 1));
            }
            i = i + 1;
        }
        proof {
            assert(players@ =~= self.players@);
        }
        GameInstance {
            game,
            players,
            name: self.name.clone(),
            owner: self.owner,
            id: self.id,
        }
    }

    /// Deserializes a stored record into a room, or reports the blob
    /// malformed: exactly the records some well-formed room serializes to are
    /// accepted.
    pub fn from_record(rec: &DbGame) -> (r: Result<GameInstance<G>, Error>)
        ensures
            match r {
                Ok(inst) => inst.wf() && inst.loads_from(*rec),
                Err(e) => {
                    &&& e == Error::SerializeError
                    &&& forall|inst: GameInstance<G>|
                        !(inst.wf() && #[trigger] inst.loads_from(*rec))
                },
            },
    {
        let ids = match crate::codec::decode_ids(rec.players.as_str()) {
            Some(v) => v,
            None => {
                return Err(Error::SerializeError);
            },
        };
        let mut players: Vec<PlayerId> = Vec::new();
        let mut i: usize = 0;
        while i < ids.len()
            invariant
                dec_ids(rec.players@) == Some(ids@),
                i <= ids@.len(),
                players@.len() == i,
                forall|j: int| 0 <= j < i
                    ==> (#[trigger] players@[j]).spec_id() == ids@[j],
                forall|a: int, b: int| 0 <= a < b < i ==> players@[a] != players@[b],
            decreases ids@.len() - i,
        {
            let p = PlayerId::new(ids[i]);
            if contains_player(&players, p) {
                proof {
                    let a = choose|a: int| 0 <= a < players@.len() && players@[a] == p;
                    assert forall|inst: GameInstance<G>|
                        !(inst.wf() && #[trigger] inst.loads_from(*rec)) by {
                        if inst.wf() && inst.loads_from(*rec) {
                            assert(inst.player_ids() == ids@);
                            assert(inst.players@[a].spec_id() == ids@[a]);
                            assert(inst.players@[i as int].spec_id() == ids@[i as int]);
                            lemma_player_id_injective(
                                inst.players@[a],
                                inst.players@[i as int],
                            );
                        }
                    }
                }
                return Err(Error::SerializeError);
            }
            players.push(p);
            i = i + 1;
        }
        proof {
            assert(players@.map_values(|p: PlayerId| p.spec_id()) =~= ids@);
        }
        let game: Option<G> = match &rec.state {
            Some(blob) => match G::from_state(blob.as_str(), players.len()) {
                Some(g) => {
                    proof {
                        G::lemma_decoded_wf(blob@, players@.len() as int, &g);
                    }
                    Some(g)
                },
                None => {
                    proof {
                        assert forall|inst: GameInstance<G>|
                            !(inst.wf() && #[trigger] inst.loads_from(*rec)) by {
                            if inst.wf() && inst.loads_from(*rec) {
                                assert(inst.player_ids() == ids@);
                                assert(inst.players@.len() == ids@.len());
                            }
                        }
                    }
                    return Err(Error::SerializeError);
                },
            },
            None => None,
        };
        let inst = GameInstance {
            game,
            players,
            name: rec.title.clone(),
            owner: PlayerId::new(rec.owner_id),
            id: GameId::new(rec.id),
        };
        Ok(inst)
    }

    /// Serializes the room into the fields of a full record replace.
    pub fn to_insert_record(&self) -> (r: InsertDbGame)
        requires
            self.wf(),
        ensures
            self.saves_to(db_of_insert(r)),
            r.id == self.id.spec_id(),
    {
        let state: Option<String> = match &self.game {
            Some(g) => Some(g.state(0)),
            None => None,
        };
        let mut raw_ids: Vec<i32> = Vec::new();
        let mut i: usize = 0;
        while i < self.players.len()
            invariant
                i <= self.players@.len(),
                raw_ids@.len() == i,
                forall|j: int| 0 <= j < i
                    ==> #[trigger] raw_ids@[j] == self.players@[j].spec_id(),
            decreases self.players@.len() - i,
        {
            raw_ids.push(self.players[i].id());
            i = i + 1;
        }
        proof {
            assert(raw_ids@ =~= self.player_ids());
        }
        let players_blob = encode_ids(&raw_ids);
        InsertDbGame {
            id: self.id.id(),
            title: self.name.clone(),
            state,
            owner_id: self.owner.id(),
            players: players_blob,
            active: if self.active() {
                1
            } else {
                0
            },
        }
    }
}

/// Whether `v` lists `p`.
fn contains_player(v: &Vec<PlayerId>, p: PlayerId) -> (r: bool)
    ensures
        r == v@.contains(p),
{
    let mut i: usize = 0;
    while i < v.len()
        invariant
            i <= v@.len(),
            forall|j: int| 0 <= j < i ==> v@[j] != p,
        decreases v@.len() - i,
    {
        if v[i] == p {
            return true;
        }
        i = i + 1;
    }
    proof {
        if v@.contains(p) {
            let j = choose|j: int| 0 <= j < v@.len() && v@[j] == p;
            assert(v@[j] != p);
        }
    }
    false
}

/// Player sequences with the same raw identifiers are the same sequence.
pub proof fn lemma_player_seq_injective(a: Seq<PlayerId>, b: Seq<PlayerId>)
    requires
        a.map_values(|p: PlayerId| p.spec_id()) == b.map_values(|p: PlayerId| p.spec_id()),
    ensures
        a == b,
{
    assert(a.map_values(|p: PlayerId| p.spec_id()).len() == a.len());
    assert(b.map_values(|p: PlayerId| p.spec_id()).len() == b.len());
    assert forall|i: int| 0 <= i < a.len() implies a[i] == b[i] by {
        assert(a.map_values(|p: PlayerId| p.spec_id())[i] == a[i].spec_id());
        assert(b.map_values(|p: PlayerId| p.spec_id())[i] == b[i].spec_id());
        lemma_player_id_injective(a[i], b[i]);
    }
    assert(a =~= b);
}

/// Listing a player and listing their raw identifier are the same thing.
pub proof fn lemma_contains_player_id(s: Seq<PlayerId>, p: PlayerId)
    ensures
        s.contains(p) == s.map_values(|q: PlayerId| q.spec_id()).contains(p.spec_id()),
{
    let ids = s.map_values(|q: PlayerId| q.spec_id());
    if s.contains(p) {
        let i = choose|i: int| 0 <= i < s.len() && s[i] == p;
        assert(ids[i] == p.spec_id());
    }
    if ids.contains(p.spec_id()) {
        let i = choose|i: int| 0 <= i < ids.len() && ids[i] == p.spec_id();
        assert(s[i].spec_id() == p.spec_id());
        lemma_player_id_injective(s[i], p);
        assert(s[i] == p);
    }
}


/// Index of the first occurrence of `v`, or the length if there is none.
pub open spec fn first_index_of(s: Seq<i32>, v: i32) -> int
    decreases s.len(),
{
    if s.len() == 0 {
        0
    } else if s[0] == v {
        0
    } else {
        1 + first_index_of(s.skip(1), v)
    }
}

/// `first_index_of` is characterized by "no match before, match (or end) at".
pub proof fn lemma_first_index_char(s: Seq<i32>, v: i32, i: int)
    requires
        0 <= i <= s.len(),
        forall|j: int| 0 <= j < i ==> s[j] != v,
        i < s.len() ==> s[i] == v,
    ensures
        first_index_of(s, v) == i,
    decreases i,
{
    if i == 0 {
        if s.len() > 0 {
            assert(s[0] == v);
        }
    } else {
        assert(s[0] != v);
        assert(forall|j: int| 0 <= j < i - 1 ==> s.skip(1)[j] == s[j + 1]);
        if i < s.len() {
            assert(s.skip(1)[i - 1] == s[i]);
        }
        lemma_first_index_char(s.skip(1), v, i - 1);
    }
}

/// The in-memory cache of games: one entry per game worth caching.
pub struct GameManager<G: Game> {
    active_games: HashMap<i32, GameInstance<G>>,
}

impl<G: Game> GameManager<G> {
    /// The cached instances, keyed by raw game identifier.
    pub closed spec fn cache(self) -> Map<i32, GameInstance<G>> {
        self.active_games@
    }
}

impl<G: Game> Default for GameManager<G> {
    /// An empty cache.
    fn default() -> (r: GameManager<G>)
        ensures
            r.cache() == Map::<i32, GameInstance<G>>::empty(),
    {
        GameManager { active_games: HashMap::new() }
    }
}


/// The engine: the cache and the record store, with every operation verified
/// against the divergence-freedom invariant [`AppState::wf`].
///
/// Operations take `&mut self`, so two calls can never interleave their
/// read-modify-write on the same engine: a caller that shares the engine
/// across threads wraps it in a lock and holds the write side for the span
/// of one call, which is exactly the serialization point the cache design
/// asks for.
pub struct AppState<G: Game> {
    manager: GameManager<G>,
    store: GameStore,
}

impl<G: Game> AppState<G> {
    /// The cached rooms, keyed by raw game identifier.
    pub closed spec fn cache(self) -> Map<i32, GameInstance<G>> {
        self.manager.cache()
    }

    /// The record store.
    pub closed spec fn spec_store(self) -> GameStore {
        self.store
    }

    /// Whether the cache holds `id`.
    pub open spec fn cached(self, id: i32) -> bool {
        self.cache().contains_key(id)
    }

    /// The cached room for `id`.
    pub open spec fn cache_at(self, id: i32) -> GameInstance<G> {
        self.cache()[id]
    }

    /// Whether the store holds a record for `id`.
    pub open spec fn has_rec(self, id: i32) -> bool {
        self.spec_store().spec_contains(id as int)
    }

    /// The stored record for `id`.
    pub open spec fn rec_at(self, id: i32) -> DbGame {
        self.spec_store().spec_get(id as int)
    }

    /// Some well-formed room deserializes from `rec`.
    pub open spec fn rec_ok(rec: DbGame) -> bool {
        exists|inst: GameInstance<G>| inst.wf() && #[trigger] inst.loads_from(rec)
    }

    /// Cache and store never diverge: a cached room is well formed, sits
    /// under its own identifier, and is precisely what its stored record
    /// deserializes to.
    pub open spec fn wf(self) -> bool {
        &&& self.spec_store().wf()
        &&& forall|k: i32| #[trigger] self.cache().contains_key(k) ==> {
            &&& self.cache()[k].wf()
            &&& self.cache()[k].id.spec_id() == k
            &&& self.spec_store().spec_contains(k as int)
            &&& self.cache()[k].loads_from(self.spec_store().spec_get(k as int))
        }
    }

    /// Whether `inst` is (a copy of) what a lookup of `id` yields.
    pub open spec fn yields(self, id: i32, inst: GameInstance<G>) -> bool {
        if self.cached(id) {
            inst.eqv(self.cache_at(id))
        } else {
            self.has_rec(id) && inst.wf() && inst.loads_from(self.rec_at(id))
        }
    }

    /// The failure a lookup of `id` reports, if any.
    pub open spec fn get_err(self, id: i32) -> Option<Error> {
        if self.cached(id) {
            None
        } else if !self.has_rec(id) {
            Some(Error::InvalidGameId)
        } else if !Self::rec_ok(self.rec_at(id)) {
            Some(Error::SerializeError)
        } else {
            None
        }
    }

    /// Whether the game under `id` has been started, read from wherever the
    /// room currently lives.
    pub open spec fn started_at(self, id: i32) -> bool {
        if self.cached(id) {
            self.cache_at(id).spec_started()
        } else {
            self.has_rec(id) && self.rec_at(id).state is Some
        }
    }

    /// The players of the room under `id`, by raw identifier.
    pub open spec fn view_players(self, id: i32) -> Seq<i32> {
        if self.cached(id) {
            self.cache_at(id).player_ids()
        } else {
            dec_ids(self.rec_at(id).players@).unwrap()
        }
    }

    /// The owner of the room under `id`.
    pub open spec fn view_owner(self, id: i32) -> i32 {
        if self.cached(id) {
            self.cache_at(id).owner.spec_id()
        } else {
            self.rec_at(id).owner_id
        }
    }

    /// The display name of the room under `id`.
    pub open spec fn view_name(self, id: i32) -> Seq<char> {
        if self.cached(id) {
            self.cache_at(id).name@
        } else {
            self.rec_at(id).title@
        }
    }

    /// The caches agree on every identifier but `id`.
    pub open spec fn cache_same_except(self, post: AppState<G>, id: i32) -> bool {
        forall|k: i32| k != id ==> (#[trigger] post.cache().contains_key(k)
            == self.cache().contains_key(k)
            && (self.cache().contains_key(k) ==> post.cache()[k] == self.cache()[k]))
    }

    /// The stores hold the same identifiers, and agree on every record but
    /// the one under `id`.
    pub open spec fn store_same_except(self, post: AppState<G>, id: i32) -> bool {
        &&& forall|k: int| #[trigger] post.spec_store().spec_contains(k)
            == self.spec_store().spec_contains(k)
        &&& forall|k: int| self.spec_store().spec_contains(k) && k != id
            ==> #[trigger] post.spec_store().spec_get(k) == self.spec_store().spec_get(k)
    }

    /// A yielded room carries exactly the data the engine views for its
    /// identifier.
    pub proof fn lemma_yields_views(self, id: i32, inst: GameInstance<G>)
        requires
            self.wf(),
            self.yields(id, inst),
        ensures
            inst.wf(),
            inst.id.spec_id() == id,
            inst.spec_started() == self.started_at(id),
            inst.player_ids() == self.view_players(id),
            inst.owner.spec_id() == self.view_owner(id),
            inst.name@ == self.view_name(id),
    {
        if self.cached(id) {
            let c = self.cache_at(id);
            inst.lemma_eqv_props(c);
        } else {
            let rec = self.rec_at(id);
            assert(dec_ids(rec.players@) == Some(inst.player_ids()));
        }
    }

    /// A lookup of one identifier yields at most one room content.
    pub proof fn lemma_yields_unique(self, id: i32, a: GameInstance<G>, b: GameInstance<G>)
        requires
            self.yields(id, a),
            self.yields(id, b),
        ensures
            a.eqv(b),
    {
        if self.cached(id) {
            let c = self.cache_at(id);
            a.lemma_eqv_props(c);
            b.lemma_eqv_props(c);
        } else {
            a.lemma_loads_unique(b, self.rec_at(id));
        }
    }

    /// When the rooms an identifier yields are unchanged, every view of the
    /// room under that identifier is unchanged too.
    pub proof fn lemma_views_preserved(self, post: AppState<G>, id: i32)
        requires
            self.wf(),
            post.wf(),
            self.get_err(id) is None,
            forall|x: GameInstance<G>|
                #![trigger self.yields(id, x)]
                #![trigger post.yields(id, x)]
                post.yields(id, x) == self.yields(id, x),
        ensures
            post.started_at(id) == self.started_at(id),
            post.view_players(id) == self.view_players(id),
            post.view_owner(id) == self.view_owner(id),
            post.view_name(id) == self.view_name(id),
            self.started_at(id) ==> post.view_game(id) == self.view_game(id),
    {
        let w: GameInstance<G> = if self.cached(id) {
            self.cache_at(id)
        } else {
            choose|w: GameInstance<G>| w.wf() && #[trigger] w.loads_from(self.rec_at(id))
        };
        assert(self.yields(id, w)) by {
            if self.cached(id) {
                assert(w.eqv(w));
            }
        }
        assert(post.yields(id, w));
        self.lemma_yields_views(id, w);
        post.lemma_yields_views(id, w);
        if self.started_at(id) {
            self.lemma_yields_game(id, w);
            post.lemma_yields_game(id, w);
        }
    }

    /// An empty engine: nothing cached, nothing stored.
    pub fn new() -> (s: AppState<G>)
        ensures
            s.wf(),
            s.cache() == Map::<i32, GameInstance<G>>::empty(),
            s.spec_store().recs().len() == 0,
            forall|id: i32| !(#[trigger] s.has_rec(id)) && !(#[trigger] s.cached(id)),
    {
        let s = AppState { manager: GameManager::default(), store: GameStore::new() };
        proof {
            assert forall|id: i32| !(#[trigger] s.has_rec(id)) && !(#[trigger] s.cached(id)) by {
                if s.spec_store().spec_contains(id as int) {
                    let i = choose|i: int|
                        0 <= i < s.spec_store().recs().len()
                            && #[trigger] s.spec_store().recs()[i].id == id;
                }
            }
        }
        s
    }

    /// Gets the game with the given identity: served from the cache on a hit,
    /// loaded from the store on a miss.  A loaded game not yet finished is
    /// cached; a cached game found finished is written back and evicted, so a
    /// second lookup yields the same room from the store.
    pub fn get_game(&mut self, game_id: GameId) -> (r: Result<GameInstance<G>, Error>)
        requires
            old(self).wf(),
        ensures
            final(self).wf(),
            match r {
                Ok(inst) => old(self).get_err(game_id.spec_id()) is None && old(self).yields(
                    game_id.spec_id(),
                    inst,
                ) && inst.wf(),
                Err(e) => old(self).get_err(game_id.spec_id()) == Some(e),
            },
            forall|inst: GameInstance<G>|
                #![trigger old(self).yields(game_id.spec_id(), inst)]
                #![trigger final(self).yields(game_id.spec_id(), inst)]
                final(self).yields(game_id.spec_id(), inst) == old(self).yields(
                    game_id.spec_id(),
                    inst,
                ),
            final(self).get_err(game_id.spec_id()) == old(self).get_err(game_id.spec_id()),
            old(self).cache_same_except(*final(self), game_id.spec_id()),
            old(self).store_same_except(*final(self), game_id.spec_id()),
            forall|k: i32| old(self).started_at(k) ==> #[trigger] final(self).started_at(k),
            final(self).started_at(game_id.spec_id()) == old(self).started_at(game_id.spec_id()),
            old(self).get_err(game_id.spec_id()) is None ==> {
                &&& final(self).view_players(game_id.spec_id()) == old(self).view_players(
                    game_id.spec_id(),
                )
                &&& final(self).view_owner(game_id.spec_id()) == old(self).view_owner(
                    game_id.spec_id(),
                )
                &&& final(self).view_name(game_id.spec_id()) == old(self).view_name(
                    game_id.spec_id(),
                )
                &&& (old(self).started_at(game_id.spec_id()) ==> final(self).view_game(
                    game_id.spec_id(),
                ) == old(self).view_game(game_id.spec_id()))
            },
            // residency: after the call the room is cached iff it is not
            // finished (a finished hit was just evicted, a finished load was
            // never inserted)
            (r matches Ok(inst) ==> final(self).cached(game_id.spec_id())
                == !inst.spec_finished()),
            // a record whose active flag is already cleared keeps it cleared
            old(self).has_rec(game_id.spec_id()) && old(self).rec_at(game_id.spec_id()).active
                == 0 ==> final(self).has_rec(game_id.spec_id()) && final(self).rec_at(
                game_id.spec_id(),
            ).active == 0,
    {
        let id = game_id.id();
        let ghost pre = *self;
        let cached_inst: Option<GameInstance<G>> = match self.manager.active_games.get(&id) {
            Some(entry) => Some(entry.snapshot()),
            None => None,
        };
        match cached_inst {
            Some(inst) => {
                proof {
                    assert(pre.cached(id));
                    assert(inst.eqv(pre.cache_at(id)));
                    inst.lemma_eqv_props(pre.cache_at(id));
                }
                if inst.finished() {
                    let rec_fields = inst.to_insert_record();
                    let ghost newrec = db_of_insert(rec_fields);
                    let ghost prestore = self.store;
                    let found = self.store.update(rec_fields);
                    proof {
                        assert(found);
                        prestore.lemma_update_effect(self.store, newrec);
                        inst.lemma_saved_loads(newrec);
                    }
                    self.manager.active_games.remove(&id);
                    proof {
                        let c = pre.cache_at(id);
                        c.lemma_eqv_props(inst);
                        assert(self.cache() == pre.cache().remove(id));
                        assert(final(self).wf()) by {
                            assert forall|k: i32| #[trigger] self.cache().contains_key(k)
                                implies {
                                &&& self.cache()[k].wf()
                                &&& self.cache()[k].id.spec_id() == k
                                &&& self.spec_store().spec_contains(k as int)
                                &&& self.cache()[k].loads_from(self.spec_store().spec_get(k as int))
                            } by {
                                assert(pre.cache().contains_key(k));
                                assert(k != id);
                                assert(self.cache()[k] == pre.cache()[k]);
                                assert(self.spec_store().spec_get(k as int)
                                    == pre.spec_store().spec_get(k as int));
                            }
                        }
                        assert(Self::rec_ok(self.rec_at(id))) by {
                            assert(inst.wf() && inst.loads_from(self.rec_at(id)));
                        }
                        assert forall|x: GameInstance<G>|
                            #![trigger pre.yields(id, x)]
                            #![trigger self.yields(id, x)]
                            self.yields(id, x) == pre.yields(id, x) by {
                            if self.yields(id, x) {
                                x.lemma_loads_unique(inst, self.rec_at(id));
                                x.lemma_eqv_props(inst);
                            }
                            if pre.yields(id, x) {
                                x.lemma_eqv_props(c);
                                assert(x.loads_from(self.rec_at(id))) by {
                                    inst.lemma_eqv_props(x);
                                }
                                assert(x.wf());
                            }
                        }
                        assert forall|k: i32| pre.started_at(k)
                            implies #[trigger] self.started_at(k) by {
                            if k == id {
                                assert(self.rec_at(id).state is Some == inst.spec_started());
                            }
                        }
                        assert(self.started_at(id) == pre.started_at(id));
                        assert(self.view_players(id) == pre.view_players(id)) by {
                            assert(dec_ids(self.rec_at(id).players@) == Some(inst.player_ids()));
                        }
                        pre.lemma_views_preserved(*self, id);
                        assert(!self.cached(id));
                        assert(self.rec_at(id).active == 0);
                    }
                    Ok(inst)
                } else {
                    proof {
                        assert(*self == pre);
                    }
                    Ok(inst)
                }
            },
            None => {
                proof {
                    assert(!pre.cached(id));
                }
                let rec = match self.store.find_by_id(id) {
                    Some(rec) => rec,
                    None => {
                        return Err(Error::InvalidGameId);
                    },
                };
                proof {
                    pre.spec_store().lemma_get_id(id as int);
                }
                match GameInstance::<G>::from_record(&rec) {
                    Ok(inst) => {
                        proof {
                            assert(inst.id.spec_id() == id);
                            assert(Self::rec_ok(rec)) by {
                                assert(inst.wf() && inst.loads_from(rec));
                            }
                        }
                        if !inst.finished() {
                            let copy = inst.snapshot();
                            proof {
                                copy.lemma_eqv_props(inst);
                            }
                            self.manager.active_games.insert(id, copy);
                            proof {
                                assert(self.cache() == pre.cache().insert(id, copy));
                                assert(final(self).wf()) by {
                                    assert forall|k: i32| #[trigger] self.cache().contains_key(k)
                                        implies {
                                        &&& self.cache()[k].wf()
                                        &&& self.cache()[k].id.spec_id() == k
                                        &&& self.spec_store().spec_contains(k as int)
                                        &&& self.cache()[k].loads_from(
                                            self.spec_store().spec_get(k as int),
                                        )
                                    } by {
                                        if k != id {
                                            assert(pre.cache().contains_key(k));
                                            assert(self.cache()[k] == pre.cache()[k]);
                                        } else {
                                            assert(self.cache()[k] == copy);
                                        }
                                    }
                                }
                                assert forall|x: GameInstance<G>|
                                    #![trigger pre.yields(id, x)]
                                    #![trigger self.yields(id, x)]
                                    self.yields(id, x) == pre.yields(id, x) by {
                                    if self.yields(id, x) {
                                        x.lemma_eqv_props(copy);
                                        assert(x.loads_from(rec)) by {
                                            copy.lemma_eqv_props(x);
                                        }
                                        assert(x.wf());
                                    }
                                    if pre.yields(id, x) {
                                        x.lemma_loads_unique(copy, rec);
                                    }
                                }
                                assert forall|k: i32| pre.started_at(k)
                                    implies #[trigger] self.started_at(k) by {
                                    if k == id {
                                        assert(copy.spec_started() == (rec.state is Some));
                                    }
                                }
                                assert(self.started_at(id) == pre.started_at(id));
                                assert(self.view_players(id) == pre.view_players(id)) by {
                                    assert(dec_ids(rec.players@) == Some(copy.player_ids()));
                                }
                                pre.lemma_views_preserved(*self, id);
                                assert(self.cached(id));
                                assert(copy.spec_finished() == inst.spec_finished());
                            }
                            Ok(inst)
                        } else {
                            proof {
                                assert(*self == pre);
                            }
                            Ok(inst)
                        }
                    },
                    Err(e) => {
                        proof {
                            if Self::rec_ok(rec) {
                                let w = choose|w: GameInstance<G>|
                                    w.wf() && #[trigger] w.loads_from(rec);
                                assert(!(w.wf() && w.loads_from(rec)));
                            }
                        }
                        Err(e)
                    },
                }
            },
        }
    }

    /// Saves a game: the store is written first (durability before cache
    /// update), then the cache entry is replaced while the game may still be
    /// read again, or evicted once it is finished.  A store failure leaves
    /// the cache untouched, so cache and store cannot diverge on a partial
    /// failure.
    pub fn save_game(&mut self, game: GameInstance<G>) -> (r: Result<(), Error>)
        requires
            old(self).wf(),
            game.wf(),
            old(self).started_at(game.id.spec_id()) ==> game.spec_started(),
        ensures
            final(self).wf(),
            match r {
                Ok(_) => {
                    &&& old(self).has_rec(game.id.spec_id())
                    &&& final(self).has_rec(game.id.spec_id())
                    &&& game.saves_to(final(self).rec_at(game.id.spec_id()))
                    &&& final(self).cached(game.id.spec_id()) == !game.spec_finished()
                    &&& (!game.spec_finished() ==> final(self).cache_at(game.id.spec_id())
                        == game)
                    &&& forall|x: GameInstance<G>|
                        #[trigger] final(self).yields(game.id.spec_id(), x) == x.eqv(game)
                    &&& final(self).get_err(game.id.spec_id()) is None
                    &&& final(self).started_at(game.id.spec_id()) == game.spec_started()
                },
                Err(e) => {
                    &&& e == Error::StoreError
                    &&& !old(self).has_rec(game.id.spec_id())
                    &&& *final(self) == *old(self)
                },
            },
            old(self).cache_same_except(*final(self), game.id.spec_id()),
            old(self).store_same_except(*final(self), game.id.spec_id()),
            forall|k: i32| old(self).started_at(k) ==> #[trigger] final(self).started_at(k),
    {
        let ghost pre = *self;
        let id = game.id.id();
        let rec_fields = game.to_insert_record();
        let ghost newrec = db_of_insert(rec_fields);
        let ghost prestore = self.store;
        let found = self.store.update(rec_fields);
        if !found {
            proof {
                if pre.cached(id) {
                    assert(pre.spec_store().spec_contains(id as int));
                }
            }
            return Err(Error::StoreError);
        }
        proof {
            prestore.lemma_update_effect(self.store, newrec);
            game.lemma_saved_loads(newrec);
        }
        let still_open = !game.finished();
        let ghost g = game;
        if still_open {
            self.manager.active_games.insert(id, game);
        } else {
            self.manager.active_games.remove(&id);
        }
        proof {
            assert(final(self).wf()) by {
                assert forall|k: i32| #[trigger] self.cache().contains_key(k) implies {
                    &&& self.cache()[k].wf()
                    &&& self.cache()[k].id.spec_id() == k
                    &&& self.spec_store().spec_contains(k as int)
                    &&& self.cache()[k].loads_from(self.spec_store().spec_get(k as int))
                } by {
                    if k != id {
                        assert(pre.cache().contains_key(k));
                        assert(self.cache()[k] == pre.cache()[k]);
                        assert(self.spec_store().spec_get(k as int)
                            == pre.spec_store().spec_get(k as int));
                    } else {
                        assert(self.cache()[k] == g);
                    }
                }
            }
            assert(Self::rec_ok(self.rec_at(id))) by {
                assert(g.wf() && g.loads_from(self.rec_at(id)));
            }
            assert forall|x: GameInstance<G>|
                #[trigger] self.yields(id, x) == x.eqv(g) by {
                if self.cached(id) {
                    if self.yields(id, x) {
                    }
                    if x.eqv(g) {
                    }
                } else {
                    if self.yields(id, x) {
                        x.lemma_loads_unique(g, self.rec_at(id));
                    }
                    if x.eqv(g) {
                        g.lemma_eqv_props(x);
                        assert(x.wf());
                        assert(x.loads_from(self.rec_at(id)));
                    }
                }
            }
            assert forall|k: i32| pre.started_at(k) implies #[trigger] self.started_at(k) by {
                if k == id {
                    assert(self.rec_at(id).state is Some == g.spec_started());
                }
            }
        }
        Ok(())
    }

    /// Creates a new game room: a fresh record is stored (the store assigns
    /// the identity) and the unstarted room is cached.
    pub fn new_game(&mut self, name: &str, owner: PlayerId) -> (r: Result<GameId, Error>)
        requires
            old(self).wf(),
        ensures
            final(self).wf(),
            match r {
                Ok(gid) => {
                    &&& gid.spec_id() as int == old(self).spec_store().next_id()
                    &&& !old(self).has_rec(gid.spec_id())
                    &&& !old(self).cached(gid.spec_id())
                    &&& final(self).has_rec(gid.spec_id())
                    &&& final(self).cached(gid.spec_id())
                    &&& final(self).rec_at(gid.spec_id()).active == 1
                    &&& final(self).get_err(gid.spec_id()) is None
                    &&& !final(self).started_at(gid.spec_id())
                    &&& final(self).view_players(gid.spec_id()) == Seq::<i32>::empty()
                    &&& final(self).view_owner(gid.spec_id()) == owner.spec_id()
                    &&& final(self).view_name(gid.spec_id()) == name@
                    &&& old(self).cache_same_except(*final(self), gid.spec_id())
                    &&& forall|k: int| k != gid.spec_id()
                        ==> #[trigger] final(self).spec_store().spec_contains(k)
                            == old(self).spec_store().spec_contains(k)
                    &&& forall|k: int| old(self).spec_store().spec_contains(k)
                        ==> #[trigger] final(self).spec_store().spec_get(k)
                            == old(self).spec_store().spec_get(k)
                },
                Err(e) => {
                    &&& e == Error::StoreError
                    &&& old(self).spec_store().next_id() > i32::MAX
                    &&& *final(self) == *old(self)
                },
            },
            forall|k: i32| old(self).started_at(k) ==> #[trigger] final(self).started_at(k),
    {
        let ghost pre = *self;
        let empty_ids: Vec<i32> = Vec::new();
        let players_blob = encode_ids(&empty_ids);
        let new_rec = NewDbGame {
            title: name.to_owned(),
            state: None,
            owner_id: owner.id(),
            players: players_blob,
            active: 1,
        };
        let ghost pushed = db_of_new(new_rec, (pre.spec_store().next_id()) as i32);
        let ghost prestore = self.store;
        let raw_id = match self.store.insert(new_rec) {
            Ok(raw_id) => raw_id,
            Err(e) => {
                return Err(e);
            },
        };
        let gid = GameId::new(raw_id);
        proof {
            prestore.lemma_push_effect(self.store, pushed);
        }
        let inst = GameInstance::<G> {
            game: None,
            players: Vec::new(),
            name: name.to_owned(),
            owner,
            id: gid,
        };
        proof {
            assert(inst.wf());
            assert(inst.player_ids() =~= Seq::<i32>::empty());
            crate::codec::lemma_dec_ids_enc_ids(Seq::<i32>::empty());
            assert(enc_ids(Seq::<i32>::empty()) =~= Seq::<char>::empty());
            assert(inst.loads_from(pushed));
        }
        self.manager.active_games.insert(raw_id, inst);
        proof {
            let ghost g = GameInstance::<G> {
                game: None,
                players: inst.players,
                name: inst.name,
                owner,
                id: gid,
            };
            assert(self.cache()[raw_id].loads_from(self.rec_at(raw_id)));
            assert(final(self).wf()) by {
                assert forall|k: i32| #[trigger] self.cache().contains_key(k) implies {
                    &&& self.cache()[k].wf()
                    &&& self.cache()[k].id.spec_id() == k
                    &&& self.spec_store().spec_contains(k as int)
                    &&& self.cache()[k].loads_from(self.spec_store().spec_get(k as int))
                } by {
                    if k != raw_id {
                        assert(pre.cache().contains_key(k));
                        assert(self.cache()[k] == pre.cache()[k]);
                        assert(self.spec_store().spec_get(k as int)
                            == pre.spec_store().spec_get(k as int));
                    }
                }
            }
            assert(!pre.cached(raw_id)) by {
                if pre.cache().contains_key(raw_id) {
                    assert(pre.spec_store().spec_contains(raw_id as int));
                }
            }
            assert forall|k: i32| pre.started_at(k) implies #[trigger] self.started_at(k) by {
                if k == raw_id {
                    assert(pre.has_rec(k) ==> false);
                }
            }
        }
        Ok(gid)
    }

    /// The variant state of the started room under `id`.
    pub open spec fn view_game(self, id: i32) -> G {
        if self.cached(id) {
            self.cache_at(id).game.unwrap()
        } else {
            choose|g: G|
                G::decodes_to(
                    self.rec_at(id).state.unwrap()@,
                    self.view_players(id).len() as int,
                    &g,
                )
        }
    }

    /// A yielded started room carries exactly the viewed variant state.
    pub proof fn lemma_yields_game(self, id: i32, inst: GameInstance<G>)
        requires
            self.wf(),
            self.yields(id, inst),
            inst.spec_started(),
        ensures
            inst.game == Some(self.view_game(id)),
    {
        self.lemma_yields_views(id, inst);
        if self.cached(id) {
            inst.lemma_eqv_props(self.cache_at(id));
        } else {
            let rec = self.rec_at(id);
            let blob = rec.state.unwrap();
            let g = inst.game.unwrap();
            assert(G::decodes_to(blob@, inst.players@.len() as int, &g));
            assert(self.view_players(id).len() == inst.players@.len());
            let h = self.view_game(id);
            assert(G::decodes_to(blob@, self.view_players(id).len() as int, &h));
            G::lemma_decodes_unique(blob@, inst.players@.len() as int, &g, &h);
        }
    }

    /// The result a `join_game` call returns, as a function of the engine
    /// state it starts from.
    pub open spec fn join_outcome(self, id: i32, player: PlayerId) -> Result<(), Error> {
        match self.get_err(id) {
            Some(e) => Err(e),
            None => if self.started_at(id) {
                Err(Error::GameAlreadyStarted)
            } else if self.view_players(id).contains(player.spec_id()) {
                Err(Error::AlreadyInGame)
            } else {
                Ok(())
            },
        }
    }

    /// Adds a player to the given game room and saves it; joining is only
    /// legal before the game starts and only once per player.
    pub fn join_game(&mut self, game_id: GameId, player_id: PlayerId) -> (r: Result<(), Error>)
        requires
            old(self).wf(),
        ensures
            final(self).wf(),
            r == old(self).join_outcome(game_id.spec_id(), player_id),
            old(self).cache_same_except(*final(self), game_id.spec_id()),
            old(self).store_same_except(*final(self), game_id.spec_id()),
            forall|k: i32| old(self).started_at(k) ==> #[trigger] final(self).started_at(k),
            final(self).started_at(game_id.spec_id()) == old(self).started_at(game_id.spec_id()),
            r is Err ==> {
                &&& final(self).get_err(game_id.spec_id()) == old(self).get_err(
                    game_id.spec_id(),
                )
                &&& forall|x: GameInstance<G>|
                    #![trigger old(self).yields(game_id.spec_id(), x)]
                    #![trigger final(self).yields(game_id.spec_id(), x)]
                    final(self).yields(game_id.spec_id(), x) == old(self).yields(
                        game_id.spec_id(),
                        x,
                    )
                &&& (old(self).get_err(game_id.spec_id()) is None ==> {
                    &&& final(self).view_players(game_id.spec_id()) == old(self).view_players(
                        game_id.spec_id(),
                    )
                    &&& final(self).view_owner(game_id.spec_id()) == old(self).view_owner(
                        game_id.spec_id(),
                    )
                    &&& final(self).view_name(game_id.spec_id()) == old(self).view_name(
                        game_id.spec_id(),
                    )
                    &&& (old(self).started_at(game_id.spec_id()) ==> final(self).view_game(
                        game_id.spec_id(),
                    ) == old(self).view_game(game_id.spec_id()))
                })
            },
            r is Ok ==> {
                &&& final(self).get_err(game_id.spec_id()) is None
                &&& final(self).view_players(game_id.spec_id()) == old(self).view_players(
                    game_id.spec_id(),
                ).push(player_id.spec_id())
                &&& final(self).view_owner(game_id.spec_id()) == old(self).view_owner(
                    game_id.spec_id(),
                )
                &&& final(self).view_name(game_id.spec_id()) == old(self).view_name(
                    game_id.spec_id(),
                )
            },
    {
        let ghost pre = *self;
        let ghost id = game_id.spec_id();
        let mut game = match self.get_game(game_id) {
            Ok(g) => g,
            Err(e) => {
                return Err(e);
            },
        };
        let ghost mid = *self;
        proof {
            pre.lemma_yields_views(id, game);
        }
        if game.started() {
            return Err(Error::GameAlreadyStarted);
        }
        if contains_player(&game.players, player_id) {
            proof {
                lemma_contains_player_id(game.players@, player_id);
            }
            return Err(Error::AlreadyInGame);
        }
        proof {
            lemma_contains_player_id(game.players@, player_id);
        }
        let ghost players0 = game.players@;
        game.players.push(player_id);
        proof {
            assert(game.wf()) by {
                assert forall|i: int, j: int| 0 <= i < j < game.players@.len()
                    implies game.players@[i] != game.players@[j] by {
                    if j == game.players@.len() - 1 {
                        assert(game.players@[i] == players0[i]);
                        assert(players0.contains(players0[i]));
                    }
                }
            }
            assert(game.player_ids() =~= pre.view_players(id).push(player_id.spec_id()));
            assert(mid.started_at(id) ==> game.spec_started());
        }
        let ghost saved = game;
        match self.save_game(game) {
            Ok(_) => {
                proof {
                    assert(final(self).view_players(id) == saved.player_ids());
                    assert(final(self).started_at(id) == pre.started_at(id));
                }
                Ok(())
            },
            Err(e) => {
                proof {
                    assert(mid.has_rec(id)) by {
                        if pre.cached(id) {
                            assert(pre.has_rec(id));
                        }
                    }
                    assert(false);
                }
                Err(e)
            },
        }
    }

    /// The result a `leave_game` call returns, as a function of the engine
    /// state it starts from.
    pub open spec fn leave_outcome(self, id: i32, player: PlayerId) -> Result<(), Error> {
        match self.get_err(id) {
            Some(e) => Err(e),
            None => if !self.view_players(id).contains(player.spec_id()) {
                Err(Error::NotJoinedGame)
            } else if self.started_at(id) {
                Err(Error::GameAlreadyStarted)
            } else {
                Ok(())
            },
        }
    }

    /// Removes a player from the given game room and saves it; leaving is
    /// only legal before the game starts.
    pub fn leave_game(&mut self, game_id: GameId, player_id: PlayerId) -> (r: Result<(), Error>)
        requires
            old(self).wf(),
        ensures
            final(self).wf(),
            r == old(self).leave_outcome(game_id.spec_id(), player_id),
            old(self).cache_same_except(*final(self), game_id.spec_id()),
            old(self).store_same_except(*final(self), game_id.spec_id()),
            forall|k: i32| old(self).started_at(k) ==> #[trigger] final(self).started_at(k),
            final(self).started_at(game_id.spec_id()) == old(self).started_at(game_id.spec_id()),
            r is Err ==> {
                &&& final(self).get_err(game_id.spec_id()) == old(self).get_err(
                    game_id.spec_id(),
                )
                &&& forall|x: GameInstance<G>|
                    #![trigger old(self).yields(game_id.spec_id(), x)]
                    #![trigger final(self).yields(game_id.spec_id(), x)]
                    final(self).yields(game_id.spec_id(), x) == old(self).yields(
                        game_id.spec_id(),
                        x,
                    )
                &&& (old(self).get_err(game_id.spec_id()) is None ==> {
                    &&& final(self).view_players(game_id.spec_id()) == old(self).view_players(
                        game_id.spec_id(),
                    )
                    &&& final(self).view_owner(game_id.spec_id()) == old(self).view_owner(
                        game_id.spec_id(),
                    )
                    &&& final(self).view_name(game_id.spec_id()) == old(self).view_name(
                        game_id.spec_id(),
                    )
                    &&& (old(self).started_at(game_id.spec_id()) ==> final(self).view_game(
                        game_id.spec_id(),
                    ) == old(self).view_game(game_id.spec_id()))
                })
            },
            r is Ok ==> {
                &&& final(self).get_err(game_id.spec_id()) is None
                &&& final(self).view_players(game_id.spec_id()) == old(self).view_players(
                    game_id.spec_id(),
                ).remove(
                    first_index_of(
                        old(self).view_players(game_id.spec_id()),
                        player_id.spec_id(),
                    ),
                )
                &&& final(self).view_owner(game_id.spec_id()) == old(self).view_owner(
                    game_id.spec_id(),
                )
                &&& final(self).view_name(game_id.spec_id()) == old(self).view_name(
                    game_id.spec_id(),
                )
            },
    {
        let ghost pre = *self;
        let ghost id = game_id.spec_id();
        let mut game = match self.get_game(game_id) {
            Ok(g) => g,
            Err(e) => {
                return Err(e);
            },
        };
        let ghost mid = *self;
        proof {
            pre.lemma_yields_views(id, game);
            lemma_contains_player_id(game.players@, player_id);
        }
        let pos = match game.get_player_index(player_id) {
            Ok(pos) => pos,
            Err(e) => {
                return Err(e);
            },
        };
        if game.started() {
            return Err(Error::GameAlreadyStarted);
        }
        let ghost players0 = game.players@;
        proof {
            assert forall|j: int| 0 <= j < pos
                implies pre.view_players(id)[j] != player_id.spec_id() by {
                if players0[j].spec_id() == player_id.spec_id() {
                    lemma_player_id_injective(players0[j], player_id);
                }
            }
            lemma_first_index_char(pre.view_players(id), player_id.spec_id(), pos as int);
        }
        game.players.remove(pos);
        proof {
            assert(game.wf()) by {
                assert forall|i: int, j: int| 0 <= i < j < game.players@.len()
                    implies game.players@[i] != game.players@[j] by {
                    assert(game.players@[i] == (if i < pos {
                        players0[i]
                    } else {
                        players0[i + 1]
                    }));
                    assert(game.players@[j] == (if j < pos {
                        players0[j]
                    } else {
                        players0[j + 1]
                    }));
                }
            }
            assert(game.player_ids() =~= pre.view_players(id).remove(pos as int));
            assert(mid.started_at(id) ==> game.spec_started());
        }
        let ghost saved = game;
        match self.save_game(game) {
            Ok(_) => {
                proof {
                    assert(final(self).view_players(id) == saved.player_ids());
                    assert(final(self).started_at(id) == pre.started_at(id));
                }
                Ok(())
            },
            Err(e) => {
                proof {
                    assert(mid.has_rec(id)) by {
                        if pre.cached(id) {
                            assert(pre.has_rec(id));
                        }
                    }
                    assert(false);
                }
                Err(e)
            },
        }
    }

    /// The result a `start_game` call returns, as a function of the engine
    /// state it starts from.
    pub open spec fn start_outcome(self, id: i32, requester: PlayerId) -> Result<(), Error> {
        match self.get_err(id) {
            Some(e) => Err(e),
            None => if self.view_owner(id) != requester.spec_id() {
                Err(Error::NotGameOwner)
            } else if self.started_at(id) {
                Err(Error::GameAlreadyStarted)
            } else if !G::spec_players_ok(self.view_players(id).len() as int) {
                Err(Error::InvalidNumPlayers)
            } else {
                Ok(())
            },
        }
    }

    /// Starts the game: only the owner may, only once, and only with a
    /// player count the variant accepts; the room then receives the
    /// variant's initial state and is saved.
    pub fn start_game(&mut self, game_id: GameId, player_id: PlayerId) -> (r: Result<(), Error>)
        requires
            old(self).wf(),
        ensures
            final(self).wf(),
            r == old(self).start_outcome(game_id.spec_id(), player_id),
            old(self).cache_same_except(*final(self), game_id.spec_id()),
            old(self).store_same_except(*final(self), game_id.spec_id()),
            forall|k: i32| old(self).started_at(k) ==> #[trigger] final(self).started_at(k),
            r is Err ==> {
                &&& final(self).get_err(game_id.spec_id()) == old(self).get_err(
                    game_id.spec_id(),
                )
                &&& forall|x: GameInstance<G>|
                    #![trigger old(self).yields(game_id.spec_id(), x)]
                    #![trigger final(self).yields(game_id.spec_id(), x)]
                    final(self).yields(game_id.spec_id(), x) == old(self).yields(
                        game_id.spec_id(),
                        x,
                    )
                &&& (old(self).get_err(game_id.spec_id()) is None ==> {
                    &&& final(self).view_players(game_id.spec_id()) == old(self).view_players(
                        game_id.spec_id(),
                    )
                    &&& final(self).view_owner(game_id.spec_id()) == old(self).view_owner(
                        game_id.spec_id(),
                    )
                    &&& final(self).view_name(game_id.spec_id()) == old(self).view_name(
                        game_id.spec_id(),
                    )
                    &&& (old(self).started_at(game_id.spec_id()) ==> final(self).view_game(
                        game_id.spec_id(),
                    ) == old(self).view_game(game_id.spec_id()))
                })
            },
            r is Ok ==> {
                &&& final(self).get_err(game_id.spec_id()) is None
                &&& final(self).started_at(game_id.spec_id())
                &&& final(self).rec_at(game_id.spec_id()).active == 1
                &&& final(self).view_players(game_id.spec_id()) == old(self).view_players(
                    game_id.spec_id(),
                )
                &&& final(self).view_owner(game_id.spec_id()) == old(self).view_owner(
                    game_id.spec_id(),
                )
                &&& final(self).view_name(game_id.spec_id()) == old(self).view_name(
                    game_id.spec_id(),
                )
                &&& final(self).view_game(game_id.spec_id()).is_initial(
                    old(self).view_players(game_id.spec_id()).len() as int,
                )
                &&& !final(self).view_game(game_id.spec_id()).spec_finished()
                &&& final(self).view_game(game_id.spec_id()).spec_waiting_on(0)
            },
            r !== Ok(()) ==> final(self).started_at(game_id.spec_id()) == old(self).started_at(
                game_id.spec_id(),
            ),
    {
        let ghost pre = *self;
        let ghost id = game_id.spec_id();
        let mut game = match self.get_game(game_id) {
            Ok(g) => g,
            Err(e) => {
                return Err(e);
            },
        };
        let ghost mid = *self;
        proof {
            pre.lemma_yields_views(id, game);
        }
        if !(game.owner == player_id) {
            proof {
                if pre.view_owner(id) == player_id.spec_id() {
                    lemma_player_id_injective(game.owner, player_id);
                }
            }
            return Err(Error::NotGameOwner);
        }
        if game.started() {
            return Err(Error::GameAlreadyStarted);
        }
        let num_players = game.players.len();
        if G::check_num_players(num_players) {
            let fresh = G::new_with_players(num_players);
            proof {
                G::lemma_initial(&fresh, num_players as int);
                G::lemma_players_ok(num_players as int);
            }
            game.game = Some(fresh);
            proof {
                assert(game.wf());
                assert(mid.started_at(id) ==> game.spec_started());
            }
            let ghost saved = game;
            match self.save_game(game) {
                Ok(_) => {
                    proof {
                        assert(final(self).cached(id));
                        assert(final(self).view_game(id) == fresh);
                        assert(final(self).view_players(id) == saved.player_ids());
                    }
                    Ok(())
                },
                Err(e) => {
                    proof {
                        assert(mid.has_rec(id)) by {
                            if pre.cached(id) {
                                assert(pre.has_rec(id));
                            }
                        }
                        assert(false);
                    }
                    Err(e)
                },
            }
        } else {
            Err(Error::InvalidNumPlayers)
        }
    }

    /// The result a `move_game` call returns, as a function of the engine
    /// state it starts from.
    pub open spec fn move_outcome(self, id: i32, requester: PlayerId, mv: G::Move) -> Result<
        (),
        Error,
    > {
        match self.get_err(id) {
            Some(e) => Err(e),
            None => if !self.started_at(id) {
                Err(Error::GameNotStarted)
            } else if !self.view_players(id).contains(requester.spec_id()) {
                Err(Error::NotJoinedGame)
            } else {
                let seat = first_index_of(self.view_players(id), requester.spec_id());
                if !self.view_game(id).spec_waiting_on(seat) {
                    Err(Error::WrongTurn)
                } else if !self.view_game(id).move_allowed(seat, &mv) {
                    Err(Error::InvalidMove)
                } else {
                    Ok(())
                }
            },
        }
    }

    /// Makes a move for the requesting player: the game must be started, the
    /// requester seated, the game waiting on that seat, and the move legal;
    /// the advanced state is then saved, and a game that just finished is
    /// evicted from the cache while its record stays in the store with its
    /// active flag cleared.
    pub fn move_game(&mut self, game_id: GameId, player_id: PlayerId, mv: &G::Move) -> (r:
        Result<(), Error>)
        requires
            old(self).wf(),
        ensures
            final(self).wf(),
            r == old(self).move_outcome(game_id.spec_id(), player_id, *mv),
            old(self).cache_same_except(*final(self), game_id.spec_id()),
            old(self).store_same_except(*final(self), game_id.spec_id()),
            forall|k: i32| old(self).started_at(k) ==> #[trigger] final(self).started_at(k),
            final(self).started_at(game_id.spec_id()) == old(self).started_at(game_id.spec_id()),
            r is Err ==> {
                &&& final(self).get_err(game_id.spec_id()) == old(self).get_err(
                    game_id.spec_id(),
                )
                &&& forall|x: GameInstance<G>|
                    #![trigger old(self).yields(game_id.spec_id(), x)]
                    #![trigger final(self).yields(game_id.spec_id(), x)]
                    final(self).yields(game_id.spec_id(), x) == old(self).yields(
                        game_id.spec_id(),
                        x,
                    )
                &&& (old(self).get_err(game_id.spec_id()) is None ==> {
                    &&& final(self).view_players(game_id.spec_id()) == old(self).view_players(
                        game_id.spec_id(),
                    )
                    &&& final(self).view_owner(game_id.spec_id()) == old(self).view_owner(
                        game_id.spec_id(),
                    )
                    &&& final(self).view_name(game_id.spec_id()) == old(self).view_name(
                        game_id.spec_id(),
                    )
                    &&& (old(self).started_at(game_id.spec_id()) ==> final(self).view_game(
                        game_id.spec_id(),
                    ) == old(self).view_game(game_id.spec_id()))
                })
            },
            r is Ok ==> {
                &&& final(self).has_rec(game_id.spec_id())
                &&& final(self).get_err(game_id.spec_id()) is None
                &&& final(self).view_players(game_id.spec_id()) == old(self).view_players(
                    game_id.spec_id(),
                )
                &&& final(self).view_owner(game_id.spec_id()) == old(self).view_owner(
                    game_id.spec_id(),
                )
                &&& final(self).view_name(game_id.spec_id()) == old(self).view_name(
                    game_id.spec_id(),
                )
                &&& old(self).view_game(game_id.spec_id()).move_result(
                    first_index_of(
                        old(self).view_players(game_id.spec_id()),
                        player_id.spec_id(),
                    ),
                    mv,
                    &final(self).view_game(game_id.spec_id()),
                )
                &&& final(self).cached(game_id.spec_id()) == !final(self).view_game(
                    game_id.spec_id(),
                ).spec_finished()
                &&& (final(self).view_game(game_id.spec_id()).spec_finished()
                    ==> final(self).rec_at(game_id.spec_id()).active == 0)
            },
    {
        let ghost pre = *self;
        let ghost id = game_id.spec_id();
        let game = match self.get_game(game_id) {
            Ok(g) => g,
            Err(e) => {
                return Err(e);
            },
        };
        let ghost mid = *self;
        proof {
            pre.lemma_yields_views(id, game);
            lemma_contains_player_id(game.players@, player_id);
        }
        if !game.started() {
            return Err(Error::GameNotStarted);
        }
        proof {
            pre.lemma_yields_game(id, game);
        }
        let seat = match game.get_player_index(player_id) {
            Ok(seat) => seat,
            Err(e) => {
                return Err(e);
            },
        };
        let ghost players0 = game.players@;
        proof {
            assert forall|j: int| 0 <= j < seat
                implies pre.view_players(id)[j] != player_id.spec_id() by {
                if players0[j].spec_id() == player_id.spec_id() {
                    lemma_player_id_injective(players0[j], player_id);
                }
            }
            lemma_first_index_char(pre.view_players(id), player_id.spec_id(), seat as int);
        }
        let GameInstance { game: gopt, players, name, owner, id: gid } = game;
        let mut gi = match gopt {
            Some(gi) => gi,
            None => {
                proof {
                    assert(false);
                }
                return Err(Error::GameNotStarted);
            },
        };
        let ghost gi0 = gi;
        if !gi.waiting_on(seat) {
            return Err(Error::WrongTurn);
        }
        let ok = gi.make_move(seat, mv);
        if !ok {
            return Err(Error::InvalidMove);
        }
        proof {
            gi0.lemma_move(seat as int, mv, &gi);
        }
        let game2 = GameInstance { game: Some(gi), players, name, owner, id: gid };
        proof {
            assert(game2.wf());
            assert(game2.player_ids() == pre.view_players(id));
            assert(mid.started_at(id) ==> game2.spec_started());
        }
        let ghost saved = game2;
        match self.save_game(game2) {
            Ok(_) => {
                proof {
                    let gsaved = saved.game.unwrap();
                    assert(self.yields(id, saved)) by {
                        assert(saved.eqv(saved));
                    }
                    self.lemma_yields_views(id, saved);
                    assert(self.view_game(id) == gsaved) by {
                        if self.cached(id) {
                            assert(self.cache_at(id) == saved);
                        } else {
                            assert(saved.loads_from(self.rec_at(id))) by {
                                saved.lemma_saved_loads(self.rec_at(id));
                            }
                            let rec = self.rec_at(id);
                            let blob = rec.state.unwrap();
                            assert(G::decodes_to(blob@, saved.players@.len() as int, &gsaved));
                            assert(self.view_players(id) == saved.player_ids());
                            let h = self.view_game(id);
                            assert(G::decodes_to(
                                blob@,
                                self.view_players(id).len() as int,
                                &h,
                            ));
                            G::lemma_decodes_unique(blob@, saved.players@.len() as int, &gsaved, &h);
                        }
                    }
                    assert(self.view_players(id) == saved.player_ids());
                    assert(self.started_at(id));
                    assert(saved.spec_finished() == gsaved.spec_finished());
                    if self.view_game(id).spec_finished() {
                        assert(!saved.spec_active());
                        assert(saved.saves_to(self.rec_at(id)));
                    }
                }
                Ok(())
            },
            Err(e) => {
                proof {
                    assert(mid.has_rec(id)) by {
                        if pre.cached(id) {
                            assert(pre.has_rec(id));
                        }
                    }
                    assert(false);
                }
                Err(e)
            },
        }
    }

    /// All known game identities, most recent first, read from the store,
    /// which is authoritative for the full historical set.
    pub fn list_games(&self) -> (r: Vec<i32>)
        requires
            self.wf(),
        ensures
            r@.len() == self.spec_store().recs().len(),
            forall|i: int| 0 <= i < r@.len() ==> #[trigger] r@[i] == self.spec_store().recs()[
                self.spec_store().recs().len() - 1 - i
            ].id,
    {
        self.store.list_ids_descending()
    }

    /// The failure a record lookup of `id` reports, if any.
    pub open spec fn rec_err(self, id: i32) -> Option<Error> {
        if !self.has_rec(id) {
            Some(Error::InvalidGameId)
        } else if !Self::rec_ok(self.rec_at(id)) {
            Some(Error::SerializeError)
        } else {
            None
        }
    }

    /// The result a `move_needed` call returns, as a function of the stored
    /// record alone.
    pub open spec fn needed_outcome(self, id: i32, player: PlayerId) -> Result<bool, Error> {
        match self.rec_err(id) {
            Some(e) => Err(e),
            None => {
                let rec = self.rec_at(id);
                let pids = dec_ids(rec.players@).unwrap();
                match rec.state {
                    None => Ok(false),
                    Some(blob) => {
                        let g = choose|g: G| G::decodes_to(blob@, pids.len() as int, &g);
                        if g.spec_finished() {
                            Ok(false)
                        } else if !pids.contains(player.spec_id()) {
                            Err(Error::NotJoinedGame)
                        } else {
                            Ok(g.spec_waiting_on(first_index_of(pids, player.spec_id())))
                        }
                    },
                }
            },
        }
    }

    /// Whether the given player's move is currently needed in the given
    /// game, read directly from the store (the cache is left untouched).
    pub fn move_needed(&self, game_id: GameId, player_id: PlayerId) -> (r: Result<bool, Error>)
        requires
            self.wf(),
        ensures
            r == self.needed_outcome(game_id.spec_id(), player_id),
    {
        let id = game_id.id();
        let rec = match self.store.find_by_id(id) {
            Some(rec) => rec,
            None => {
                return Err(Error::InvalidGameId);
            },
        };
        let inst = match GameInstance::<G>::from_record(&rec) {
            Ok(inst) => inst,
            Err(e) => {
                proof {
                    if Self::rec_ok(rec) {
                        let w = choose|w: GameInstance<G>| w.wf() && #[trigger] w.loads_from(rec);
                        assert(!(w.wf() && w.loads_from(rec)));
                    }
                }
                return Err(e);
            },
        };
        proof {
            assert(Self::rec_ok(rec)) by {
                assert(inst.wf() && inst.loads_from(rec));
            }
            if rec.state is Some {
                let blob = rec.state.unwrap();
                let pids = dec_ids(rec.players@).unwrap();
                let g = inst.game.unwrap();
                assert(G::decodes_to(blob@, inst.players@.len() as int, &g));
                assert(pids == inst.player_ids());
                assert(exists|h: G| G::decodes_to(blob@, pids.len() as int, &h)) by {
                    assert(G::decodes_to(blob@, pids.len() as int, &g));
                }
                let h = choose|h: G| G::decodes_to(blob@, pids.len() as int, &h);
                G::lemma_decodes_unique(blob@, pids.len() as int, &g, &h);
            }
            lemma_contains_player_id(inst.players@, player_id);
        }
        if !inst.active() {
            return Ok(false);
        }
        let seat = match inst.get_player_index(player_id) {
            Ok(seat) => seat,
            Err(e) => {
                return Err(e);
            },
        };
        proof {
            assert forall|j: int| 0 <= j < seat
                implies inst.player_ids()[j] != player_id.spec_id() by {
                if inst.players@[j].spec_id() == player_id.spec_id() {
                    lemma_player_id_injective(inst.players@[j], player_id);
                }
            }
            lemma_first_index_char(inst.player_ids(), player_id.spec_id(), seat as int);
        }
        match &inst.game {
            Some(g) => Ok(g.waiting_on(seat)),
            None => {
                proof {
                    assert(false);
                }
                Ok(false)
            },
        }
    }
}

/// Response naming whether a move is needed.
#[derive(Debug)]
pub struct NeededResp {
    pub needed: bool,
}

/// Response listing all known game identities.
#[derive(Debug)]
pub struct IndexResp {
    pub games: Vec<i32>,
}

/// The full game description returned to a querying client.
#[derive(Debug)]
pub struct GameResp {
    pub name: String,
    pub owner_id: i32,
    pub state: Option<String>,
    pub players: Vec<String>,
    pub player_ids: Vec<i32>,
    pub active: bool,
    pub started: bool,
    pub waiting_on: Vec<bool>,
    pub outcome: String,
}

/// The outcome line shown to clients, over the players' display names.
pub open spec fn outcome_text(o: GameOutcome, names: Seq<Seq<char>>) -> Seq<char> {
    match o {
        GameOutcome::Win(p) => names[p as int] + " Wins!"@,
        GameOutcome::Tie => "Game Tied!"@,
        GameOutcome::Other(m) => m@,
        GameOutcome::Undecided => "No Outcome Yet"@,
    }
}

/// Builds the response for a game query.  Display names come in by seat;
/// the state snapshot is tailored to the viewing player's seat, and a viewer
/// not seated in the game sees seat 0's view.
pub fn build_game_resp<G: Game>(
    inst: &GameInstance<G>,
    names: &Vec<String>,
    viewer: PlayerId,
) -> (r: GameResp)
    requires
        inst.wf(),
        names@.len() == inst.players@.len(),
    ensures
        r.name@ == inst.name@,
        r.owner_id == inst.owner.spec_id(),
        r.started == inst.spec_started(),
        r.active == inst.spec_active(),
        (match (r.state, inst.game) {
            (Some(blob), Some(g)) => blob@ == g.encoded(),
            (None, None) => true,
            _ => false,
        }),
        r.player_ids@ == inst.player_ids(),
        r.players@ == names@,
        r.waiting_on@.len() == (if inst.spec_active() {
            inst.players@.len() as int
        } else {
            0
        }),
        forall|i: int| 0 <= i < r.waiting_on@.len()
            ==> #[trigger] r.waiting_on@[i] == inst.game.unwrap().spec_waiting_on(i),
        (match inst.game {
            Some(g) => r.outcome@ == outcome_text(
                g.spec_outcome(),
                names@.map_values(|n: String| n@),
            ),
            None => r.outcome@ == "No Outcome Yet"@,
        }),
{
    let mut player_ids: Vec<i32> = Vec::new();
    let mut i: usize = 0;
    while i < inst.players.len()
        invariant
            i <= inst.players@.len(),
            player_ids@.len() == i,
            forall|j: int| 0 <= j < i
                ==> #[trigger] player_ids@[j] == inst.players@[j].spec_id(),
        decreases inst.players@.len() - i,
    {
        player_ids.push(inst.players[i].id());
        i = i + 1;
    }
    proof {
        assert(player_ids@ =~= inst.player_ids());
    }
    let viewer_seat: GamePlayer = match inst.get_player_index(viewer) {
        Ok(seat) => seat,
        Err(_) => 0,
    };
    let state: Option<String> = match &inst.game {
        Some(g) => Some(g.state(viewer_seat)),
        None => None,
    };
    let mut players: Vec<String> = Vec::new();
    let mut i2: usize = 0;
    while i2 < names.len()
        invariant
            i2 <= names@.len(),
            players@.len() == i2,
            forall|j: int| 0 <= j < i2 ==> #[trigger] players@[j] == names@[j],
        decreases names@.len() - i2,
    {
        players.push(names[i2].clone());
        i2 = i2 + 1;
    }
    proof {
        assert(players@ =~= names@);
    }
    let active = inst.active();
    let started = inst.started();
    let mut waiting_on: Vec<bool> = Vec::new();
    if active {
        let mut i3: usize = 0;
        while i3 < inst.players.len()
            invariant
                inst.wf(),
                inst.spec_started(),
                i3 <= inst.players@.len(),
                waiting_on@.len() == i3,
                forall|j: int| 0 <= j < i3
                    ==> #[trigger] waiting_on@[j] == inst.game.unwrap().spec_waiting_on(j),
            decreases inst.players@.len() - i3,
        {
            let w = match &inst.game {
                Some(g) => g.waiting_on(i3),
                None => false,
            };
            waiting_on.push(w);
            i3 = i3 + 1;
        }
    }
    let outcome: String = match &inst.game {
        Some(g) => {
            match g.outcome() {
                GameOutcome::Win(p) => {
                    proof {
                        g.lemma_outcome_win_seat();
                    }
                    let line = names[p].clone().concat(" Wins!");
                    proof {
                        assert(names@.map_values(|n: String| n@)[p as int] == names@[p as int]@);
                    }
                    line
                },
                GameOutcome::Tie => "Game Tied!".to_owned(),
                GameOutcome::Other(m) => m,
                GameOutcome::Undecided => "No Outcome Yet".to_owned(),
            }
        },
        None => "No Outcome Yet".to_owned(),
    };
    GameResp {
        name: inst.name.clone(),
        owner_id: inst.owner.id(),
        state,
        players,
        player_ids,
        active,
        started,
        waiting_on,
        outcome,
    }
}

/// Idempotence of lookups: a state yields at most one room content per
/// identity, so two consecutive `get_game` calls on an unchanged identity
/// return equal rooms — the first call's contract says it preserves what the
/// identity yields, and this law says a yield is unambiguous.
pub proof fn lemma_get_idempotent<G: Game>(
    s0: AppState<G>,
    s1: AppState<G>,
    id: i32,
    a: GameInstance<G>,
    b: GameInstance<G>,
)
    requires
        s0.yields(id, a),
        forall|x: GameInstance<G>|
            #![trigger s0.yields(id, x)]
            #![trigger s1.yields(id, x)]
            s1.yields(id, x) == s0.yields(id, x),
        s1.yields(id, b),
    ensures
        a.eqv(b),
{
    s0.lemma_yields_unique(id, a, b);
}

/// Lifecycle monotonicity: on a started game, `join_game` always fails with
/// `GameAlreadyStarted`, and so do `leave_game` for a seated player and
/// `start_game` for the owner.  (A non-participant leaving is reported
/// `NotJoinedGame` first, and a non-owner starting `NotGameOwner` first.)
/// Every operation's contract separately keeps `started_at` monotone, so a
/// started game stays started.
pub proof fn lemma_lifecycle_monotonic<G: Game>(s: AppState<G>, id: i32, p: PlayerId)
    requires
        s.wf(),
        s.get_err(id) is None,
        s.started_at(id),
    ensures
        s.join_outcome(id, p) == Err::<(), Error>(Error::GameAlreadyStarted),
        s.view_players(id).contains(p.spec_id()) ==> s.leave_outcome(id, p) == Err::<(), Error>(
            Error::GameAlreadyStarted,
        ),
        s.view_owner(id) == p.spec_id() ==> s.start_outcome(id, p) == Err::<(), Error>(
            Error::GameAlreadyStarted,
        ),
{
}

} // verus!
