//! The outcome type shared by every matching algorithm, and the tagged
//! matcher that a queue owns: one of the two built-in algorithms, with its
//! configuration carried separately for persistence.

use vstd::prelude::*;
use vstd::pervasive::unreached;
use crate::elo::{elo_config_valid, EloMatchmaker, EloSettings};
use crate::entry::{Entry, EntryId};
use crate::flexible::{
    config_valid, index_of_id, spec_has_entry, FlexibleMatchMaker, FlexibleSettings,
};

verus! {

/// The outcome of one matching attempt.
#[derive(Debug)]
pub enum MatchmakerResult {
    /// Teams were formed: each inner list holds the entry ids of one team.
    Matched(Vec<Vec<EntryId>>),
    /// No match can be formed right now; the queue retries on its next tick.
    Skip(String),
    /// The matcher failed; when an entry id is given, only that entry is
    /// affected, otherwise the whole queue is.
    Error(String, Option<EntryId>),
}

impl MatchmakerResult {
    /// Whether teams were formed.
    pub fn is_matched(&self) -> (r: bool)
        ensures
            r == (self is Matched),
    {
        matches!(self, MatchmakerResult::Matched(_))
    }

    /// Whether the attempt was passed over without effect.
    pub fn is_skip(&self) -> (r: bool)
        ensures
            r == (self is Skip),
    {
        matches!(self, MatchmakerResult::Skip(_))
    }

    /// Whether the attempt failed.
    pub fn is_err(&self) -> (r: bool)
        ensures
            r == (self is Error),
    {
        matches!(self, MatchmakerResult::Error(_, _))
    }

    /// The reason of a skipped attempt.
    pub fn unwrap_skip(&self) -> (r: String)
        requires
            self is Skip,
        ensures
            r@ == self->Skip_0@,
    {
        if let MatchmakerResult::Skip(msg) = self {
            msg.clone()
        } else {
            unreached()
        }
    }

    /// The reason of a failed attempt.
    pub fn unwarp_err(&self) -> (r: String)
        requires
            self is Error,
        ensures
            r@ == self->Error_0@,
    {
        if let MatchmakerResult::Error(err, _) = self {
            err.clone()
        } else {
            unreached()
        }
    }
}

/// The persisted configuration of a matcher, tagged by algorithm so that the
/// wire format can carry the type name and the settings separately.
#[derive(Clone, Copy, Debug, PartialEq, Eq, Structural)]
pub enum MatcherSettings {
    Flexible(FlexibleSettings),
    Elo(EloSettings),
}

/// A matcher: one of the two built-in algorithms.
pub enum Matcher {
    Flexible(FlexibleMatchMaker),
    Elo(EloMatchmaker),
}

/// Whether a type name and a settings value together describe a matcher that
/// can be built: the name must match the settings' algorithm and the
/// settings must be valid.
pub open spec fn settings_ok(name: Seq<char>, settings: MatcherSettings) -> bool {
    match settings {
        MatcherSettings::Flexible(s) => name == "flexible"@ && config_valid(s),
        MatcherSettings::Elo(s) => name == "elo"@ && elo_config_valid(s),
    }
}

impl Matcher {
    /// Well-formedness of the underlying matcher.
    pub open spec fn wf(self) -> bool {
        match self {
            Matcher::Flexible(m) => m.wf(),
            Matcher::Elo(m) => m.wf(),
        }
    }

    /// The waiting entries, in admission order.
    pub open spec fn entries_of(self) -> Seq<Entry> {
        match self {
            Matcher::Flexible(m) => m.entries@,
            Matcher::Elo(m) => m.entries@,
        }
    }

    /// The matcher's configuration.
    pub open spec fn settings_of(self) -> MatcherSettings {
        match self {
            Matcher::Flexible(m) => MatcherSettings::Flexible(m.config()),
            Matcher::Elo(m) => MatcherSettings::Elo(m.config()),
        }
    }

    /// The matcher's constant type name.
    pub open spec fn type_name_of(self) -> Seq<char> {
        match self {
            Matcher::Flexible(m) => "flexible"@,
            Matcher::Elo(m) => "elo"@,
        }
    }

    /// Whether this matcher admits `entry` right now: the entry's shape fits
    /// the algorithm and its id is new.
    pub open spec fn spec_add_ok(self, entry: Entry) -> bool {
        match self {
            Matcher::Flexible(m) => m.accepts_size(entry.players@.len() as int)
                && !spec_has_entry(m.entries@, entry.id),
            Matcher::Elo(m) => entry.players@.len() == m.team_size && entry.elo is Some
                && !spec_has_entry(m.entries@, entry.id),
        }
    }

    /// What one attempt at instant `now` must return, by algorithm.
    pub open spec fn attempt_outcome(self, now: u64, r: MatchmakerResult) -> bool {
        match self {
            Matcher::Flexible(m) => {
                let sr = crate::flexible::search_at(
                    crate::partitions::addends_view(m.addends),
                    m.avail_counts(),
                    0,
                    m.number_of_teams as int,
                );
                match sr {
                    None => r matches MatchmakerResult::Skip(msg) && msg@
                        == "Not enough players to form a match"@,
                    Some(asg) => r matches MatchmakerResult::Matched(ts)
                        && crate::flexible::teams_view(ts@) == crate::flexible::picked_teams(
                        m,
                        asg,
                    ),
                }
            },
            Matcher::Elo(m) => m.attempt_outcome(now, r),
        }
    }

    /// The constant name of the algorithm.
    pub fn get_type_name(&self) -> (r: String)
        ensures
            r@ == self.type_name_of(),
    {
        match self {
            Matcher::Flexible(m) => m.get_type_name(),
            Matcher::Elo(m) => m.get_type_name(),
        }
    }

    /// The configuration, ready to be persisted.
    pub fn serialize(&self) -> (r: MatcherSettings)
        ensures
            r == self.settings_of(),
    {
        match self {
            Matcher::Flexible(m) => MatcherSettings::Flexible(m.serialize()),
            Matcher::Elo(m) => MatcherSettings::Elo(m.serialize()),
        }
    }

    /// Admits an entry, by delegation to the algorithm's own checks.
    pub fn add_entry(&mut self, entry: Entry) -> (r: Result<(), String>)
        requires
            old(self).wf(),
        ensures
            final(self).wf(),
            final(self).settings_of() == old(self).settings_of(),
            r is Ok <==> old(self).spec_add_ok(entry),
            r is Ok ==> final(self).entries_of() == old(self).entries_of().push(entry),
            r is Err ==> *final(self) == *old(self),
    {
        match self {
            Matcher::Flexible(m) => m.add_entry(entry),
            Matcher::Elo(m) => m.add_entry(entry),
        }
    }

    /// Withdraws the entry carrying `entry_id` and returns it; absent ids
    /// are reported as an error.
    pub fn remove_entry(&mut self, entry_id: &EntryId) -> (r: Result<Entry, String>)
        requires
            old(self).wf(),
        ensures
            final(self).wf(),
            final(self).settings_of() == old(self).settings_of(),
            (if spec_has_entry(old(self).entries_of(), *entry_id) {
                let i = index_of_id(old(self).entries_of(), *entry_id);
                &&& (r matches Ok(e) && e == old(self).entries_of()[i])
                &&& final(self).entries_of() == old(self).entries_of().remove(i)
            } else {
                &&& r is Err
                &&& final(self).entries_of() == old(self).entries_of()
            }),
    {
        match self {
            Matcher::Flexible(m) => m.remove_entry(entry_id),
            Matcher::Elo(m) => m.remove_entry(entry_id),
        }
    }

    /// Drains every entry, returning them in admission order.
    pub fn remove_all(&mut self) -> (r: Vec<Entry>)
        requires
            old(self).wf(),
        ensures
            final(self).wf(),
            final(self).settings_of() == old(self).settings_of(),
            r@ == old(self).entries_of(),
            final(self).entries_of().len() == 0,
    {
        match self {
            Matcher::Flexible(m) => m.remove_all(),
            Matcher::Elo(m) => m.remove_all(),
        }
    }

    /// The waiting entries, in admission order.
    pub fn get_entries(&self) -> (r: &Vec<Entry>)
        ensures
            r@ == self.entries_of(),
    {
        match self {
            Matcher::Flexible(m) => m.get_entries(),
            Matcher::Elo(m) => m.get_entries(),
        }
    }

    /// The waiting entry carrying `entry_id`, if any.
    pub fn get_entry(&self, entry_id: &EntryId) -> (r: Option<&Entry>)
        requires
            self.wf(),
        ensures
            match r {
                Some(e) => spec_has_entry(self.entries_of(), *entry_id) && *e == self.entries_of()[
                    index_of_id(self.entries_of(), *entry_id)],
                None => !spec_has_entry(self.entries_of(), *entry_id),
            },
    {
        match self {
            Matcher::Flexible(m) => m.get_entry(entry_id),
            Matcher::Elo(m) => m.get_entry(entry_id),
        }
    }

    /// One matching attempt at instant `now`.
    pub fn matchmake_at(&self, now: u64) -> (r: MatchmakerResult)
        requires
            self.wf(),
        ensures
            self.attempt_outcome(now, r),
    {
        match self {
            Matcher::Flexible(m) => m.matchmake(),
            Matcher::Elo(m) => m.matchmake_at(now),
        }
    }

    /// One matching attempt at the current wall-clock instant.
    pub fn matchmake(&self) -> (r: MatchmakerResult)
        requires
            self.wf(),
        ensures
            exists|now: u64| self.attempt_outcome(now, r),
    {
        let now = crate::clock::now_seconds();
        let r = self.matchmake_at(now);
        proof {
            assert(self.attempt_outcome(now, r));
        }
        r
    }
}

/// Builds the matcher a type name and a settings value describe: the name
/// must be a known algorithm, match the settings, and the settings must be
/// valid.  The entry pool starts empty.
pub fn deserialize(name: &String, settings: MatcherSettings) -> (r: Result<Matcher, String>)
    ensures
        r is Ok <==> settings_ok(name@, settings),
        r matches Ok(m) ==> m.wf() && m.settings_of() == settings && m.entries_of().len() == 0,
{
    match settings {
        MatcherSettings::Flexible(s) => {
            let expected = "flexible".to_owned();
            if !(*name == expected) {
                return Err("Unknown matchmaker type".to_owned());
            }
            match FlexibleMatchMaker::deserialize(s) {
                Ok(m) => Ok(Matcher::Flexible(m)),
                Err(e) => Err(e),
            }
        },
        MatcherSettings::Elo(s) => {
            let expected = "elo".to_owned();
            if !(*name == expected) {
                return Err("Unknown matchmaker type".to_owned());
            }
            match EloMatchmaker::deserialize(s) {
                Ok(m) => Ok(Matcher::Elo(m)),
                Err(e) => Err(e),
            }
        },
    }
}

} // verus!
