use crate::error::StoreError;
use crate::registry::{has_key, id_of, keys_distinct, register_spec};
use vstd::prelude::*;

verus! {

/// Outcome of a finished game.
#[derive(Clone, Copy, Debug, PartialEq, Eq, Structural)]
pub enum GameResult {
    WhiteWin,
    BlackWin,
    Draw,
}

/// A game record as submitted for insertion. The foreign keys are
/// identities already resolved through the reference tables. The fields
/// other than `result` form the game's natural identity: resubmitting a
/// record that matches an existing game on all of them is a no-op.
pub struct NewGame {
    pub white_id: u64,
    pub black_id: u64,
    pub event_id: u64,
    pub site_id: u64,
    pub date: String,
    pub round: u32,
    pub result: GameResult,
}

/// The natural-identity key of a game record.
pub open spec fn game_key(g: NewGame) -> (u64, u64, u64, u64, Seq<char>, u32) {
    (g.white_id, g.black_id, g.event_id, g.site_id, g.date@, g.round)
}

/// A stored game row: the assigned identity and the record it was created
/// from. Rows are created once per imported game and never mutated.
pub struct GameRow {
    pub id: u64,
    pub game: NewGame,
}

/// The game table, unique on the natural-identity key.
pub struct GameTable {
    pub rows: Vec<GameRow>,
}

impl GameTable {
    /// The plain view of the table: (identity, natural key) per row.
    pub open spec fn entries(self) -> Seq<(u64, (u64, u64, u64, u64, Seq<char>, u32))> {
        self.rows@.map_values(|r: GameRow| (r.id, game_key(r.game)))
    }

    /// Table invariant: natural keys are unique and identities are
    /// assigned densely from one.
    pub open spec fn wf(self) -> bool {
        &&& keys_distinct(self.entries())
        &&& forall|i: int|
            0 <= i < self.rows@.len() ==> (#[trigger] self.rows@[i]).id == i + 1
    }

    pub fn new() -> (t: GameTable)
        ensures
            t.wf(),
            t.entries() == Seq::<(u64, (u64, u64, u64, u64, Seq<char>, u32))>::empty(),
    {
        let t = GameTable { rows: Vec::new() };
        proof {
            assert(t.entries() =~= Seq::<(u64, (u64, u64, u64, u64, Seq<char>, u32))>::empty());
        }
        t
    }

    fn find_game(rows: &Vec<GameRow>, game: &NewGame) -> (r: Option<usize>)
        ensures
            match r {
                Some(j) => j < rows@.len() && game_key(rows@[j as int].game) == game_key(*game),
                None => forall|m: int|
                    0 <= m < rows@.len() ==> game_key(rows@[m].game) != game_key(*game),
            },
    {
        let mut j: usize = 0;
        while j < rows.len()
            invariant
                j <= rows@.len(),
                forall|m: int| 0 <= m < j ==> game_key(rows@[m].game) != game_key(*game),
            decreases rows@.len() - j,
        {
            let g = &rows[j].game;
            if g.white_id == game.white_id && g.black_id == game.black_id && g.event_id
                == game.event_id && g.site_id == game.site_id && g.date == game.date && g.round
                == game.round {
                return Some(j);
            }
            j += 1;
        }
        None
    }

    /// Conflict-ignoring insert with read-back: resubmitting a game whose
    /// natural identity already exists is a no-op that still resolves to
    /// the pre-existing row's identity. Fails — leaving the table
    /// unchanged — only when the store can assign no further identity.
    pub fn create_game(&mut self, game: NewGame) -> (r: Result<u64, StoreError>)
        requires
            old(self).wf(),
        ensures
            final(self).wf(),
            match r {
                Ok(id) => (final(self).entries(), id) == register_spec(
                    old(self).entries(),
                    game_key(game),
                ),
                Err(e) => {
                    &&& *final(self) == *old(self)
                    &&& e == StoreError::StoreFailure
                },
            },
            r is Ok <==> (has_key(old(self).entries(), game_key(game)) || old(self).rows@.len()
                < u64::MAX),
    {
        let ghost t0 = self.entries();
        let ghost k = game_key(game);
        match Self::find_game(&self.rows, &game) {
            Some(j) => {
                let id = self.rows[j].id;
                proof {
                    assert(t0[j as int].1 == k);
                    assert(has_key(t0, k));
                    let i = choose|i: int| 0 <= i < t0.len() && t0[i].1 == k;
                    assert(i == j as int);
                    assert(id_of(t0, k) == id);
                }
                Ok(id)
            },
            None => {
                proof {
                    assert(!has_key(t0, k)) by {
                        assert(forall|m: int|
                            0 <= m < t0.len() ==> t0[m].1 == game_key(self.rows@[m].game));
                    }
                }
                if self.rows.len() as u64 == u64::MAX {
                    return Err(StoreError::StoreFailure);
                }
                let id = self.rows.len() as u64 + 1;
                self.rows.push(GameRow { id, game });
                proof {
                    assert(self.entries() =~= t0.push((id, k)));
                }
                Ok(id)
            },
        }
    }
}

} // verus!
