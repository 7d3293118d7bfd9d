//! A multi-tenant matchmaking library.
//!
//! Game clients join named queues; a pluggable matcher groups their entries
//! into balanced teams, a game locator resolves a server for each match, and
//! the result is delivered exactly once to every participating client.

pub mod clock;
pub mod counting;
pub mod elo;
pub mod entry;
pub mod flexible;
pub mod game;
pub mod gamefinder;
pub mod handles;
pub mod matchmaker;
pub mod partitions;
pub mod queue;
pub mod tracker;
pub mod unrated;
