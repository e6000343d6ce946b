use crate::error::StoreError;
use crate::games::{game_key, GameTable, NewGame};
use crate::openings::{merge_fits, merge_spec, Counts, Opening, OpeningTable};
use crate::registrar::RefTable;
use crate::registry::{has_key, register_spec};
use vstd::prelude::*;

verus! {

/// The whole store: three reference tables, the game table and the
/// opening book. Every operation acquires the store for one logical call
/// and works on exactly the tables its contract names.
pub struct Store {
    pub players: RefTable,
    pub events: RefTable,
    pub sites: RefTable,
    pub games: GameTable,
    pub openings: OpeningTable,
}

impl Store {
    pub open spec fn wf(self) -> bool {
        &&& self.players.wf()
        &&& self.events.wf()
        &&& self.sites.wf()
        &&& self.games.wf()
        &&& self.openings.wf()
    }

    pub fn new() -> (s: Store)
        ensures
            s.wf(),
            s.players.entries() == Seq::<(u64, Seq<char>)>::empty(),
            s.events.entries() == Seq::<(u64, Seq<char>)>::empty(),
            s.sites.entries() == Seq::<(u64, Seq<char>)>::empty(),
            s.games.entries() == Seq::<(u64, (u64, u64, u64, u64, Seq<char>, u32))>::empty(),
            s.openings.stats() == Map::<(u64, Seq<u8>), Counts>::empty(),
    {
        Store {
            players: RefTable::new(),
            events: RefTable::new(),
            sites: RefTable::new(),
            games: GameTable::new(),
            openings: OpeningTable::new(),
        }
    }

    /// Resolves a player name to its canonical row's identity, creating
    /// the row on first reference. Touches no other table.
    pub fn create_player(&mut self, name: &String) -> (r: Result<u64, StoreError>)
        requires
            old(self).wf(),
            name@.len() > 0,
        ensures
            final(self).wf(),
            match r {
                Ok(id) => (final(self).players.entries(), id) == register_spec(
                    old(self).players.entries(),
                    name@,
                ),
                Err(e) => {
                    &&& *final(self) == *old(self)
                    &&& e == StoreError::StoreFailure
                },
            },
            r is Ok <==> (has_key(old(self).players.entries(), name@)
                || old(self).players.rows@.len() < u64::MAX),
            final(self).events == old(self).events,
            final(self).sites == old(self).sites,
            final(self).games == old(self).games,
            final(self).openings == old(self).openings,
    {
        self.players.get_or_create(name)
    }

    /// Resolves an event name to its canonical row's identity, creating
    /// the row on first reference. Touches no other table.
    pub fn create_event(&mut self, name: &String) -> (r: Result<u64, StoreError>)
        requires
            old(self).wf(),
            name@.len() > 0,
        ensures
            final(self).wf(),
            match r {
                Ok(id) => (final(self).events.entries(), id) == register_spec(
                    old(self).events.entries(),
                    name@,
                ),
                Err(e) => {
                    &&& *final(self) == *old(self)
                    &&& e == StoreError::StoreFailure
                },
            },
            r is Ok <==> (has_key(old(self).events.entries(), name@)
                || old(self).events.rows@.len() < u64::MAX),
            final(self).players == old(self).players,
            final(self).sites == old(self).sites,
            final(self).games == old(self).games,
            final(self).openings == old(self).openings,
    {
        self.events.get_or_create(name)
    }

    /// Resolves a site name to its canonical row's identity, creating the
    /// row on first reference. Touches no other table.
    pub fn create_site(&mut self, name: &String) -> (r: Result<u64, StoreError>)
        requires
            old(self).wf(),
            name@.len() > 0,
        ensures
            final(self).wf(),
            match r {
                Ok(id) => (final(self).sites.entries(), id) == register_spec(
                    old(self).sites.entries(),
                    name@,
                ),
                Err(e) => {
                    &&& *final(self) == *old(self)
                    &&& e == StoreError::StoreFailure
                },
            },
            r is Ok <==> (has_key(old(self).sites.entries(), name@)
                || old(self).sites.rows@.len() < u64::MAX),
            final(self).players == old(self).players,
            final(self).events == old(self).events,
            final(self).games == old(self).games,
            final(self).openings == old(self).openings,
    {
        self.sites.get_or_create(name)
    }

    /// Inserts a game record, ignoring the insert when a game with the
    /// same natural identity exists, and returns the identity of the
    /// canonical row either way. Touches no other table.
    pub fn create_game(&mut self, game: NewGame) -> (r: Result<u64, StoreError>)
        requires
            old(self).wf(),
        ensures
            final(self).wf(),
            match r {
                Ok(id) => (final(self).games.entries(), id) == register_spec(
                    old(self).games.entries(),
                    game_key(game),
                ),
                Err(e) => {
                    &&& *final(self) == *old(self)
                    &&& e == StoreError::StoreFailure
                },
            },
            r is Ok <==> (has_key(old(self).games.entries(), game_key(game))
                || old(self).games.rows@.len() < u64::MAX),
            final(self).players == old(self).players,
            final(self).events == old(self).events,
            final(self).sites == old(self).sites,
            final(self).openings == old(self).openings,
    {
        self.games.create_game(game)
    }

    /// Merges a batch of opening observations as one all-or-nothing
    /// operation; see `OpeningTable::add_opening`. Touches no table but
    /// the opening book, and on failure not even that.
    pub fn add_opening(&mut self, openings: Vec<Opening>) -> (r: Result<(), StoreError>)
        requires
            old(self).wf(),
            openings@.len() > 0,
        ensures
            final(self).wf(),
            match r {
                Ok(()) => {
                    &&& final(self).openings.stats() == merge_spec(
                        old(self).openings.stats(),
                        openings@,
                    )
                    &&& merge_fits(old(self).openings.stats(), openings@)
                },
                Err(e) => {
                    &&& *final(self) == *old(self)
                    &&& e == StoreError::StoreFailure
                    &&& !merge_fits(old(self).openings.stats(), openings@)
                },
            },
            final(self).players == old(self).players,
            final(self).events == old(self).events,
            final(self).sites == old(self).sites,
            final(self).games == old(self).games,
    {
        self.openings.add_opening(openings)
    }

    /// The counters stored for an opening key, `None` while no
    /// observation has created its row.
    pub fn opening_counts(&self, hash: u64, mov: &Vec<u8>) -> (r: Option<(u64, u64, u64)>)
        requires
            self.wf(),
        ensures
            match r {
                Some(c) => self.openings.stats().dom().contains((hash, mov@))
                    && self.openings.stats()[(hash, mov@)] == (Counts {
                    white: c.0 as int,
                    black: c.1 as int,
                    draw: c.2 as int,
                }),
                None => !self.openings.stats().dom().contains((hash, mov@)),
            },
    {
        self.openings.opening_counts(hash, mov)
    }
}

} // verus!
