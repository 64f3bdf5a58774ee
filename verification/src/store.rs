//! An in-memory keyed record store for game records.
//!
//! This is the durable side of the write-through cache: records are keyed by
//! an `i32` identifier that the store assigns in increasing order, and every
//! operation carries an exact contract over the record sequence.

use crate::models::{db_of_insert, db_of_new, DbGame, InsertDbGame, NewDbGame};
use crate::shared::Error;
use vstd::prelude::*;

verus! {

/// A keyed record store holding game records in identifier order.
pub struct GameStore {
    records: Vec<DbGame>,
}

impl GameStore {
    /// The stored records, in insertion (= identifier) order.
    pub closed spec fn recs(self) -> Seq<DbGame> {
        self.records@
    }

    /// Identifiers are strictly increasing along the record sequence.
    pub open spec fn wf(self) -> bool {
        forall|i: int, j: int|
            0 <= i < j < self.recs().len() ==> #[trigger] self.recs()[i].id < #[trigger] self.recs()[j].id
    }

    /// Whether a record with identifier `id` is stored.
    pub open spec fn spec_contains(self, id: int) -> bool {
        exists|i: int| 0 <= i < self.recs().len() && #[trigger] self.recs()[i].id == id
    }

    /// Index of the record with identifier `id`.
    pub open spec fn index_of(self, id: int) -> int {
        choose|i: int| 0 <= i < self.recs().len() && #[trigger] self.recs()[i].id == id
    }

    /// The record with identifier `id`.
    pub open spec fn spec_get(self, id: int) -> DbGame {
        self.recs()[self.index_of(id)]
    }

    /// The identifier the next insertion will be assigned.
    pub open spec fn next_id(self) -> int {
        if self.recs().len() == 0 {
            1
        } else {
            self.recs().last().id + 1
        }
    }

    /// An empty store.
    pub fn new() -> (s: GameStore)
        ensures
            s.wf(),
            s.recs().len() == 0,
    {
        GameStore { records: Vec::new() }
    }

    /// Looks a record up by identifier and returns a copy of it.
    pub fn find_by_id(&self, id: i32) -> (r: Option<DbGame>)
        requires
            self.wf(),
        ensures
            match r {
                Some(rec) => self.spec_contains(id as int) && rec == self.spec_get(id as int),
                None => !self.spec_contains(id as int),
            },
    {
        let mut i: usize = 0;
        while i < self.records.len()
            invariant
                self.wf(),
                i <= self.recs().len(),
                forall|j: int| 0 <= j < i ==> #[trigger] self.recs()[j].id != id,
            decreases self.recs().len() - i,
        {
            if self.records[i].id == id {
                proof {
                    self.lemma_index_unique(id as int, i as int);
                }
                return Some(self.records[i].duplicate());
            }
            i = i + 1;
        }
        None
    }

    /// Fully replaces the record with identifier `rec.id`, if one is stored,
    /// and reports whether one was.
    pub fn update(&mut self, rec: InsertDbGame) -> (found: bool)
        requires
            old(self).wf(),
        ensures
            final(self).wf(),
            found == old(self).spec_contains(rec.id as int),
            !found ==> *final(self) == *old(self),
            found ==> final(self).recs() == old(self).recs().update(
                old(self).index_of(rec.id as int),
                db_of_insert(rec),
            ),
    {
        let id = rec.id;
        let mut i: usize = 0;
        while i < self.records.len()
            invariant
                *self == *old(self),
                id == rec.id,
                self.wf(),
                i <= self.recs().len(),
                forall|j: int| 0 <= j < i ==> #[trigger] self.recs()[j].id != id,
            decreases self.recs().len() - i,
        {
            if self.records[i].id == id {
                proof {
                    self.lemma_index_unique(id as int, i as int);
                }
                let replacement = DbGame {
                    id: rec.id,
                    title: rec.title,
                    state: rec.state,
                    owner_id: rec.owner_id,
                    players: rec.players,
                    active: rec.active,
                };
                self.records[i] = replacement;
                proof {
                    assert(self.recs() =~= old(self).recs().update(
                        old(self).index_of(id as int),
                        db_of_insert(rec),
                    ));
                    assert forall|a: int, b: int| 0 <= a < b < self.recs().len()
                        implies #[trigger] self.recs()[a].id < #[trigger] self.recs()[b].id by {
                        assert(self.recs()[a].id == old(self).recs()[a].id);
                        assert(self.recs()[b].id == old(self).recs()[b].id);
                    }
                }
                return true;
            }
            i = i + 1;
        }
        false
    }

    /// Appends a new record under a fresh identifier and returns the
    /// identifier, or fails with [`Error::StoreError`] once the identifier
    /// space is exhausted.
    pub fn insert(&mut self, rec: NewDbGame) -> (r: Result<i32, Error>)
        requires
            old(self).wf(),
        ensures
            final(self).wf(),
            match r {
                Ok(id) => {
                    &&& id as int == old(self).next_id()
                    &&& old(self).next_id() <= i32::MAX
                    &&& final(self).recs() == old(self).recs().push(db_of_new(rec, id))
                },
                Err(e) => {
                    &&& e == Error::StoreError
                    &&& old(self).next_id() > i32::MAX
                    &&& *final(self) == *old(self)
                },
            },
    {
        let id: i32 = if self.records.len() == 0 {
            1
        } else {
            let last = self.records[self.records.len() - 1].id;
            if last == i32::MAX {
                return Err(Error::StoreError);
            }
            last + 1
        };
        proof {
            assert forall|i: int| 0 <= i < self.recs().len()
                implies #[trigger] self.recs()[i].id < id by {
                if i < self.recs().len() - 1 {
                    assert(self.recs()[i].id < self.recs()[self.recs().len() - 1].id);
                }
            }
        }
        self.records.push(DbGame {
            id: id,
            title: rec.title,
            state: rec.state,
            owner_id: rec.owner_id,
            players: rec.players,
            active: rec.active,
        });
        Ok(id)
    }

    /// All stored identifiers, most recent first.
    pub fn list_ids_descending(&self) -> (r: Vec<i32>)
        requires
            self.wf(),
        ensures
            r@.len() == self.recs().len(),
            forall|i: int| 0 <= i < r@.len()
                ==> #[trigger] r@[i] == self.recs()[self.recs().len() - 1 - i].id,
    {
        let mut out: Vec<i32> = Vec::new();
        let mut i: usize = self.records.len();
        while i > 0
            invariant
                self.wf(),
                i <= self.recs().len(),
                out@.len() == self.recs().len() - i,
                forall|k: int| 0 <= k < out@.len()
                    ==> #[trigger] out@[k] == self.recs()[self.recs().len() - 1 - k].id,
            decreases i,
        {
            i = i - 1;
            out.push(self.records[i].id);
        }
        out
    }


    /// Replacing a record in place preserves which identifiers are stored and
    /// every other record.
    pub proof fn lemma_update_effect(self, post: GameStore, rec: DbGame)
        requires
            self.wf(),
            self.spec_contains(rec.id as int),
            post.recs() == self.recs().update(self.index_of(rec.id as int), rec),
        ensures
            post.wf(),
            forall|id: int| #[trigger] post.spec_contains(id) == self.spec_contains(id),
            forall|id: int| self.spec_contains(id) && id != rec.id
                ==> #[trigger] post.spec_get(id) == self.spec_get(id),
            post.spec_contains(rec.id as int),
            post.spec_get(rec.id as int) == rec,
    {
        let idx = self.index_of(rec.id as int);
        self.lemma_get_id(rec.id as int);
        assert(forall|k: int| 0 <= k < post.recs().len()
            ==> #[trigger] post.recs()[k].id == self.recs()[k].id);
        assert forall|id: int| #[trigger] post.spec_contains(id) == self.spec_contains(id) by {
            if post.spec_contains(id) {
                let i = choose|i: int|
                    0 <= i < post.recs().len() && #[trigger] post.recs()[i].id == id;
                assert(self.recs()[i].id == id);
            }
            if self.spec_contains(id) {
                let i = choose|i: int|
                    0 <= i < self.recs().len() && #[trigger] self.recs()[i].id == id;
                assert(post.recs()[i].id == id);
            }
        }
        assert(post.wf());
        assert forall|id: int| self.spec_contains(id) && id != rec.id
            implies #[trigger] post.spec_get(id) == self.spec_get(id) by {
            let i = self.index_of(id);
            self.lemma_get_id(id);
            assert(self.recs()[i].id == id);
            assert(i != idx);
            assert(post.recs()[i] == self.recs()[i]);
            post.lemma_index_unique(id, i);
        }
        post.lemma_index_unique(rec.id as int, idx);
    }

    /// Appending a record under the next identifier preserves every stored
    /// record and adds the new one under a fresh identifier.
    pub proof fn lemma_push_effect(self, post: GameStore, rec: DbGame)
        requires
            self.wf(),
            post.recs() == self.recs().push(rec),
            rec.id as int == self.next_id(),
        ensures
            post.wf(),
            !self.spec_contains(rec.id as int),
            forall|id: int| id != rec.id
                ==> #[trigger] post.spec_contains(id) == self.spec_contains(id),
            forall|id: int| self.spec_contains(id)
                ==> #[trigger] post.spec_get(id) == self.spec_get(id),
            post.spec_contains(rec.id as int),
            post.spec_get(rec.id as int) == rec,
    {
        let n = self.recs().len() as int;
        assert forall|i: int| 0 <= i < n implies #[trigger] self.recs()[i].id < rec.id by {
            if i < n - 1 {
                assert(self.recs()[i].id < self.recs()[n - 1].id);
            }
        }
        assert(forall|k: int| 0 <= k < n ==> #[trigger] post.recs()[k] == self.recs()[k]);
        assert(post.recs()[n] == rec);
        assert(post.wf());
        if self.spec_contains(rec.id as int) {
            let i = choose|i: int|
                0 <= i < self.recs().len() && #[trigger] self.recs()[i].id == rec.id;
            assert(self.recs()[i].id < rec.id);
        }
        assert forall|id: int| id != rec.id
            implies #[trigger] post.spec_contains(id) == self.spec_contains(id) by {
            if post.spec_contains(id) {
                let i = choose|i: int|
                    0 <= i < post.recs().len() && #[trigger] post.recs()[i].id == id;
                assert(i < n);
                assert(self.recs()[i].id == id);
            }
            if self.spec_contains(id) {
                let i = choose|i: int|
                    0 <= i < self.recs().len() && #[trigger] self.recs()[i].id == id;
                assert(post.recs()[i].id == id);
            }
        }
        assert forall|id: int| self.spec_contains(id)
            implies #[trigger] post.spec_get(id) == self.spec_get(id) by {
            let i = self.index_of(id);
            self.lemma_get_id(id);
            assert(post.recs()[i].id == id);
            post.lemma_index_unique(id, i);
        }
        post.lemma_index_unique(rec.id as int, n);
    }

    /// Identifiers are unique, so a matching index is the looked-up index.
    pub proof fn lemma_index_unique(self, id: int, i: int)
        requires
            self.wf(),
            0 <= i < self.recs().len(),
            self.recs()[i].id == id,
        ensures
            self.spec_contains(id),
            self.index_of(id) == i,
            self.spec_get(id) == self.recs()[i],
    {
        assert(self.spec_contains(id));
        let j = self.index_of(id);
        if j < i {
            assert(self.recs()[j].id < self.recs()[i].id);
        } else if j > i {
            assert(self.recs()[i].id < self.recs()[j].id);
        }
    }

    /// A stored record carries the identifier it is stored under.
    pub proof fn lemma_get_id(self, id: int)
        requires
            self.wf(),
            self.spec_contains(id),
        ensures
            0 <= self.index_of(id) < self.recs().len(),
            self.spec_get(id).id == id,
    {
    }
}

} // verus!
