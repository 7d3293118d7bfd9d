//! The value objects that wait in a queue: parties of players.
//!
//! Identifiers are carried as their 128-bit values; the transport converts
//! them from and to its own identifier type at the boundary.  Of an entry's
//! free-form metadata the matching logic reads one key, the integer rating,
//! which is therefore carried as a plain optional field.

use vstd::prelude::*;
use crate::clock::now_seconds;

verus! {

/// Identifier of one admission to a queue.
#[derive(Clone, Copy, Debug, PartialEq, Eq, Structural)]
pub struct EntryId(pub u128);

/// One admission to a queue: a party of players treated atomically, with the
/// instant it was admitted and its optional integer rating.
#[derive(Clone, Debug)]
pub struct Entry {
    pub id: EntryId,
    pub players: Vec<u128>,
    /// Seconds since the Unix epoch at admission; never mutated afterwards.
    pub time_queued: u64,
    /// The rating read from the admission metadata, when one was given.
    pub elo: Option<i64>,
}

impl Entry {
    /// A fresh entry stamped with the current wall-clock time.
    pub fn new(id: u128, players: Vec<u128>, elo: Option<i64>) -> (r: Entry)
        ensures
            r.id == (EntryId(id)),
            r.players == players,
            r.elo == elo,
    {
        let time_queued = now_seconds();
        Entry { id: EntryId(id), players, time_queued, elo }
    }

    /// An entry with every field given, the admission instant included.
    pub fn queued_at(id: u128, players: Vec<u128>, elo: Option<i64>, time_queued: u64) -> (r:
        Entry)
        ensures
            r == (Entry { id: EntryId(id), players, elo, time_queued }),
    {
        Entry { id: EntryId(id), players, time_queued, elo }
    }
}

/// Relies on uuid::Uuid::new_v4 and Uuid::as_u128: a freshly generated random
/// identifier, returned as its 128-bit value.  Nothing is assumed of the
/// value: distinct calls may in principle collide.
#[verifier::external_body]
fn random_id() -> u128 {
    uuid::Uuid::new_v4().as_u128()
}

/// One admission as the earliest queue draft carried it: an identifier drawn
/// at random on creation and the party it stands for.
#[derive(Clone, Debug)]
pub struct QueueEntry {
    pub id: u128,
    pub players: Vec<u128>,
}

impl QueueEntry {
    /// A fresh admission under a randomly drawn identifier.
    pub fn new(players: Vec<u128>) -> (r: QueueEntry)
        ensures
            r.players == players,
    {
        QueueEntry { id: random_id(), players }
    }

    /// The identifier of this admission.
    pub fn get_id(&self) -> (r: &u128)
        ensures
            r == self.id,
    {
        &self.id
    }
}

impl PartialEq for QueueEntry {
    /// Two admissions are the same admission when their identifiers agree.
    fn eq(&self, other: &Self) -> (r: bool) {
        self.id == other.id
    }
}

impl vstd::std_specs::cmp::PartialEqSpecImpl for QueueEntry {
    open spec fn obeys_eq_spec() -> bool {
        true
    }

    open spec fn eq_spec(&self, other: &Self) -> bool {
        self.id == other.id
    }
}

/// One admission as the flexible-matcher draft carried it: an identifier
/// chosen by the caller and the party it stands for.
#[derive(Clone, Debug)]
pub struct FlexibleQueueEntry {
    pub id: u128,
    pub players: Vec<u128>,
}

impl FlexibleQueueEntry {
    /// An admission under a caller-chosen identifier.
    pub fn new(id: u128, players: Vec<u128>) -> (r: FlexibleQueueEntry)
        ensures
            r == (FlexibleQueueEntry { id, players }),
    {
        FlexibleQueueEntry { id, players }
    }

    /// The identifier of this admission.
    pub fn id(&self) -> (r: u128)
        ensures
            r == self.id,
    {
        self.id
    }

    /// The players of this admission's party.
    pub fn players(&self) -> (r: &Vec<u128>)
        ensures
            r == self.players,
    {
        &self.players
    }
}

} // verus!
