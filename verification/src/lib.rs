//! A small persistence core for recorded chess games.
//!
//! The crate models the write path of a game store: get-or-create
//! registration of reference rows (players, events, sites), idempotent
//! game insertion, and an opening book of per-(position, move) outcome
//! counters that is grown by atomic batch merges.

pub mod error;
pub mod games;
pub mod hexcode;
pub mod openings;
pub mod registrar;
pub mod registry;
pub mod store;
