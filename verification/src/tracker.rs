//! The process-wide registry of queues: it routes joins, gates admission
//! during graceful drain, drives per-queue ticks, and persists queue
//! configurations.  It also guards the per-queue law that a player waits in
//! at most one entry of a queue at a time.

use vstd::prelude::*;
use crate::entry::{Entry, EntryId};
use crate::flexible::spec_has_entry;
use crate::game::Game;
use crate::handles::{Delivery, ResultReceiver};
use crate::matchmaker::{deserialize, settings_ok, Matcher, MatcherSettings, MatchmakerResult};
use crate::queue::{spec_queue_has_player, teams_contain, Queue};

verus! {

/// No player appears in two different waiting entries of one queue.
pub open spec fn players_disjoint(es: Seq<Entry>) -> bool {
    forall|i: int, j: int, a: int, b: int|
        0 <= i < es.len() && 0 <= j < es.len() && i != j && 0 <= a < es[i].players@.len() && 0
            <= b < es[j].players@.len() ==> #[trigger] es[i].players@[a] != #[trigger] es[
            j].players@[b]
}

/// A well-formed matcher holds no two entries under one id.
proof fn lemma_matcher_ids_unique(m: Matcher)
    requires
        m.wf(),
    ensures
        forall|i: int, j: int|
            0 <= i < j < m.entries_of().len() ==> (#[trigger] m.entries_of()[i]).id != (
            #[trigger] m.entries_of()[j]).id,
{
    match m {
        Matcher::Flexible(f) => {},
        Matcher::Elo(e) => {},
    }
}

/// Player disjointness survives any reshuffling that keeps only existing
/// entries and keeps ids unique.
proof fn lemma_disjoint_preserved(es_old: Seq<Entry>, es_new: Seq<Entry>)
    requires
        players_disjoint(es_old),
        forall|k: int| 0 <= k < es_new.len() ==> es_old.contains(#[trigger] es_new[k]),
        forall|i: int, j: int|
            0 <= i < j < es_new.len() ==> (#[trigger] es_new[i]).id != (#[trigger] es_new[j]).id,
    ensures
        players_disjoint(es_new),
{
    assert forall|i: int, j: int, a: int, b: int|
        0 <= i < es_new.len() && 0 <= j < es_new.len() && i != j && 0 <= a < es_new[
        i].players@.len() && 0 <= b < es_new[j].players@.len() implies #[trigger] es_new[
    i].players@[a] != #[trigger] es_new[j].players@[b] by {
        assert(es_old.contains(es_new[i]));
        assert(es_old.contains(es_new[j]));
        let wi = choose|w: int| 0 <= w < es_old.len() && es_old[w] == es_new[i];
        let wj = choose|w: int| 0 <= w < es_old.len() && es_old[w] == es_new[j];
        assert(es_new[i].id != es_new[j].id);
        assert(wi != wj);
        assert(es_old[wi].players@[a] != es_old[wj].players@[b]);
    }
}

/// A newly admitted party whose players are all new keeps the queue's
/// players disjoint.
proof fn lemma_disjoint_push(es: Seq<Entry>, e: Entry)
    requires
        players_disjoint(es),
        forall|a: int|
            0 <= a < e.players@.len() ==> !spec_queue_has_player(es, #[trigger] e.players@[a]),
    ensures
        players_disjoint(es.push(e)),
{
    let es1 = es.push(e);
    assert forall|i: int, j: int, a: int, b: int|
        0 <= i < es1.len() && 0 <= j < es1.len() && i != j && 0 <= a < es1[i].players@.len() && 0
            <= b < es1[j].players@.len() implies #[trigger] es1[i].players@[a] != #[trigger] es1[
    j].players@[b] by {
        if i < es.len() && j < es.len() {
            assert(es1[i] == es[i] && es1[j] == es[j]);
        } else if i < es.len() {
            assert(es1[i] == es[i] && es1[j] == e);
            if es1[i].players@[a] == es1[j].players@[b] {
                assert(es[i].players@.contains(e.players@[b]));
                assert(spec_queue_has_player(es, e.players@[b]));
            }
        } else {
            assert(es1[i] == e && es1[j] == es[j]);
            if es1[i].players@[a] == es1[j].players@[b] {
                assert(es[j].players@.contains(e.players@[a]));
                assert(spec_queue_has_player(es, e.players@[a]));
            }
        }
    }
}

/// The single-wait law: in a well-formed tracker a player appears in at
/// most one waiting entry of any one queue.  Every tracker operation keeps
/// the tracker well formed, so this holds at all times.
pub proof fn lemma_player_waits_once(t: QueueTracker, qi: int)
    requires
        t.wf(),
        0 <= qi < t.queues@.len(),
    ensures
        players_disjoint(t.queues@[qi].1.entries_of()),
{
}

/// One queue configuration as it is persisted: the queue name, the
/// matcher's type name, and its settings.  Entries are transient and are
/// never persisted.
pub struct PersistedQueue {
    pub name: String,
    pub matcher: String,
    pub settings: MatcherSettings,
}

/// The position of the first queue named `name`, if any.
fn find_queue_index(qs: &Vec<(String, Queue)>, name: &String) -> (r: Option<usize>)
    ensures
        match r {
            Some(p) => p < qs@.len() && qs@[p as int].0@ == name@ && (forall|l: int|
                0 <= l < p ==> (#[trigger] qs@[l]).0@ != name@),
            None => forall|l: int| 0 <= l < qs@.len() ==> (#[trigger] qs@[l]).0@ != name@,
        },
{
    let mut j: usize = 0;
    while j < qs.len()
        invariant
            j <= qs@.len(),
            forall|l: int| 0 <= l < j ==> (#[trigger] qs@[l]).0@ != name@,
        decreases qs@.len() - j,
    {
        if qs[j].0 == *name {
            return Some(j);
        }
        j = j + 1;
    }
    None
}

/// The registry of queues and the drain flag.
pub struct QueueTracker {
    pub queues: Vec<(String, Queue)>,
    pub locked: bool,
}

impl QueueTracker {
    /// Well-formedness: every queue is well formed, no player waits twice
    /// within one queue, and queue names are unique.
    pub open spec fn wf(self) -> bool {
        &&& forall|i: int| 0 <= i < self.queues@.len() ==> (#[trigger] self.queues@[i]).1.wf()
        &&& forall|i: int|
            0 <= i < self.queues@.len() ==> players_disjoint(
                (#[trigger] self.queues@[i]).1.entries_of(),
            )
        &&& forall|i: int, j: int|
            0 <= i < j < self.queues@.len() ==> (#[trigger] self.queues@[i]).0@ != (
            #[trigger] self.queues@[j]).0@
    }

    /// Some queue carries this name.
    pub open spec fn has_queue(self, name: Seq<char>) -> bool {
        exists|i: int| 0 <= i < self.queues@.len() && (#[trigger] self.queues@[i]).0@ == name
    }

    /// The position of the queue carrying `name`.
    pub open spec fn queue_index(self, name: Seq<char>) -> int {
        choose|i: int| 0 <= i < self.queues@.len() && (#[trigger] self.queues@[i]).0@ == name
    }

    /// An empty, unlocked tracker.
    pub fn new() -> (r: QueueTracker)
        ensures
            r.wf(),
            !r.locked,
            r.queues@.len() == 0,
    {
        QueueTracker { queues: Vec::new(), locked: false }
    }

    /// Starts the graceful drain: new joins are refused from here on, while
    /// queued clients keep being serviced by ongoing ticks.
    pub fn lock(&mut self)
        requires
            old(self).wf(),
        ensures
            final(self).wf(),
            final(self).locked,
            final(self).queues@ == old(self).queues@,
    {
        self.locked = true;
    }

    /// Creates a queue under a fresh name, building its matcher from the
    /// type name and settings.  Collisions, unknown types and invalid
    /// settings are refused without a state change.
    pub fn create(&mut self, name: String, matchmaker_id: String, settings: MatcherSettings)
        -> (r: Result<(), String>)
        requires
            old(self).wf(),
        ensures
            final(self).wf(),
            final(self).locked == old(self).locked,
            r is Ok <==> (!old(self).has_queue(name@) && settings_ok(matchmaker_id@, settings)),
            r is Ok ==> {
                &&& final(self).queues@.len() == old(self).queues@.len() + 1
                &&& final(self).queues@[old(self).queues@.len() as int].0@ == name@
                &&& final(self).queues@[old(
                    self,
                ).queues@.len() as int].1.matcher.settings_of() == settings
                &&& final(self).queues@[old(
                    self,
                ).queues@.len() as int].1.entries_of().len() == 0
                &&& forall|i: int|
                    0 <= i < old(self).queues@.len() ==> final(self).queues@[i] == old(
                        self,
                    ).queues@[i]
            },
            r is Err ==> final(self).queues@ == old(self).queues@,
    {
        match find_queue_index(&self.queues, &name) {
            Some(_) => {
                return Err("Queue already exists".to_owned());
            },
            None => {},
        }
        let matcher = match deserialize(&matchmaker_id, settings) {
            Ok(m) => m,
            Err(e) => {
                return Err(e);
            },
        };
        let ghost n0 = self.queues@.len() as int;
        let qname = name.clone();
        let q = Queue::new(qname, matcher);
        self.queues.push((name, q));
        proof {
            let qs1 = self.queues@;
            assert forall|i: int, j: int| 0 <= i < j < qs1.len() implies (
            #[trigger] qs1[i]).0@ != (#[trigger] qs1[j]).0@ by {
                if j < n0 {
                    assert(qs1[i] == old(self).queues@[i] && qs1[j] == old(self).queues@[j]);
                } else {
                    assert(qs1[i] == old(self).queues@[i]);
                }
            }
        }
        Ok(())
    }

    /// A join: refused while the tracker is locked, for unknown queues, for
    /// a player already waiting in that queue, and for entries the matcher
    /// rejects; otherwise the entry is admitted and the caller receives the
    /// one-shot handle its result will arrive on.
    pub fn join(&mut self, queue_id: &String, entry: Entry) -> (r: Result<ResultReceiver, String>)
        requires
            old(self).wf(),
        ensures
            final(self).wf(),
            final(self).locked == old(self).locked,
            (if old(self).locked {
                r is Err && final(self).queues@ == old(self).queues@
            } else if !old(self).has_queue(queue_id@) {
                r is Err && final(self).queues@ == old(self).queues@
            } else {
                let qi = old(self).queue_index(queue_id@);
                let q0 = old(self).queues@[qi].1;
                if exists|a: int|
                    0 <= a < entry.players@.len() && spec_queue_has_player(
                        q0.entries_of(),
                        #[trigger] entry.players@[a],
                    ) {
                    r is Err && final(self).queues@ == old(self).queues@
                } else if !q0.matcher.spec_add_ok(entry) {
                    r is Err && final(self).queues@ == old(self).queues@
                } else {
                    &&& r is Ok
                    &&& final(self).queues@.len() == old(self).queues@.len()
                    &&& final(self).queues@[qi].0 == old(self).queues@[qi].0
                    &&& final(self).queues@[qi].1.entries_of() == q0.entries_of().push(entry)
                    &&& forall|i: int|
                        0 <= i < old(self).queues@.len() && i != qi ==> final(self).queues@[i]
                            == old(self).queues@[i]
                }
            }),
    {
        if self.locked {
            return Err("QueueTracker is locked, no new entries can be added".to_owned());
        }
        let qi = match find_queue_index(&self.queues, queue_id) {
            None => {
                return Err("Queue not found".to_owned());
            },
            Some(qi) => qi,
        };
        proof {
            assert(self.queues@[qi as int].0@ == queue_id@);
            assert(old(self).queue_index(queue_id@) == qi as int) by {
                let w = old(self).queue_index(queue_id@);
                assert(0 <= w < self.queues@.len() && self.queues@[w].0@ == queue_id@);
            }
        }
        let ghost qs0 = self.queues@;
        let mut pair = self.queues.remove(qi);
        let mut a: usize = 0;
        let mut conflict = false;
        while a < entry.players.len()
            invariant
                a <= entry.players@.len(),
                pair == qs0[qi as int],
                conflict == exists|a2: int|
                    0 <= a2 < a && spec_queue_has_player(
                        pair.1.entries_of(),
                        #[trigger] entry.players@[a2],
                    ),
            decreases entry.players@.len() - a,
        {
            if pair.1.has_player(&entry.players[a]) {
                conflict = true;
            }
            a = a + 1;
        }
        if conflict {
            self.queues.insert(qi, pair);
            proof {
                assert(self.queues@ =~= qs0);
            }
            return Err("Player is already in this queue".to_owned());
        }
        let ghost q0 = pair.1;
        let res = pair.1.add_entry(entry);
        let ghost q1 = pair.1;
        self.queues.insert(qi, pair);
        proof {
            match res {
                Result::<ResultReceiver, String>::Err(_) => {
                    assert(q1 == q0);
                    assert(self.queues@ =~= qs0);
                },
                Result::<ResultReceiver, String>::Ok(_) => {
                    assert(self.queues@ =~= qs0.update(qi as int, (qs0[qi as int].0, q1)));
                    lemma_disjoint_push(q0.entries_of(), entry);
                },
            }
            assert forall|i: int, j: int| 0 <= i < j < self.queues@.len() implies (
            #[trigger] self.queues@[i]).0@ != (#[trigger] self.queues@[j]).0@ by {
                assert(self.queues@[i].0 == qs0[i].0 && self.queues@[j].0 == qs0[j].0);
            }
        }
        res
    }

    /// The registered queues, in creation order.
    pub fn get_queues(&self) -> (r: &Vec<(String, Queue)>)
        ensures
            r == self.queues,
    {
        &self.queues
    }

    /// The queue carrying `name`, if any.
    pub fn get_queue(&self, name: &String) -> (r: Option<&Queue>)
        requires
            self.wf(),
        ensures
            match r {
                Some(q) => self.has_queue(name@) && *q == self.queues@[self.queue_index(name@)].1,
                None => !self.has_queue(name@),
            },
    {
        match find_queue_index(&self.queues, name) {
            Some(p) => {
                proof {
                    let w = self.queue_index(name@);
                    assert(self.queues@[p as int].0@ == name@);
                    assert(0 <= w < self.queues@.len() && self.queues@[w].0@ == name@);
                    assert(forall|l: int| 0 <= l < p ==> (#[trigger] self.queues@[l]).0@ != name@);
                    if w != p as int {
                        assert(self.queues@[w].0@ == self.queues@[p as int].0@);
                    }
                }
                Some(&self.queues[p].1)
            },
            None => None,
        }
    }

    /// Whether every queue has drained: no entry waits anywhere.
    pub fn all_queues_empty(&self) -> (r: bool)
        ensures
            r == forall|i: int|
                0 <= i < self.queues@.len() ==> (#[trigger] self.queues@[i]).1.entries_of().len()
                    == 0,
    {
        let mut i: usize = 0;
        while i < self.queues.len()
            invariant
                i <= self.queues@.len(),
                forall|l: int|
                    0 <= l < i ==> (#[trigger] self.queues@[l]).1.entries_of().len() == 0,
            decreases self.queues@.len() - i,
        {
            if self.queues[i].1.entries().len() > 0 {
                return false;
            }
            i = i + 1;
        }
        true
    }

    /// One matching attempt for the named queue at instant `now`; nothing is
    /// changed.  The caller locates a game for a `Matched` outcome and then
    /// commits it.
    pub fn tick_attempt(&self, queue_id: &String, now: u64) -> (r: Option<MatchmakerResult>)
        requires
            self.wf(),
        ensures
            r is Some <==> self.has_queue(queue_id@),
            r matches Some(res) ==> self.queues@[self.queue_index(
                queue_id@,
            )].1.matcher.attempt_outcome(now, res),
    {
        match find_queue_index(&self.queues, queue_id) {
            None => None,
            Some(qi) => {
                proof {
                    assert(self.queues@[qi as int].0@ == queue_id@);
                    let w = self.queue_index(queue_id@);
                    assert(0 <= w < self.queues@.len() && self.queues@[w].0@ == queue_id@);
                    if w != qi as int {
                        assert(self.queues@[w].0@ == self.queues@[qi as int].0@);
                    }
                }
                Some(self.queues[qi].1.tick_at(now))
            },
        }
    }

    /// Commits a match on the named queue: every matched id leaves the
    /// matcher and its handle is fulfilled with the located game, or with
    /// the locator's error.
    pub fn commit_match(
        &mut self,
        queue_id: &String,
        teams: &Vec<Vec<EntryId>>,
        game: Result<Game, String>,
    ) -> (r: bool)
        requires
            old(self).wf(),
        ensures
            final(self).wf(),
            final(self).locked == old(self).locked,
            r == old(self).has_queue(queue_id@),
            !r ==> final(self).queues@ == old(self).queues@,
            r ==> {
                let qi = old(self).queue_index(queue_id@);
                &&& final(self).queues@.len() == old(self).queues@.len()
                &&& forall|i: int|
                    0 <= i < old(self).queues@.len() && i != qi ==> final(self).queues@[i] == old(
                        self,
                    ).queues@[i]
                &&& final(self).queues@[qi].0 == old(self).queues@[qi].0
                &&& forall|id: EntryId|
                    #[trigger] teams_contain(teams@, id) ==> !spec_has_entry(
                        final(self).queues@[qi].1.entries_of(),
                        id,
                    )
            },
    {
        let qi = match find_queue_index(&self.queues, queue_id) {
            None => {
                return false;
            },
            Some(qi) => qi,
        };
        proof {
            assert(self.queues@[qi as int].0@ == queue_id@);
            assert(old(self).queue_index(queue_id@) == qi as int) by {
                let w = old(self).queue_index(queue_id@);
                assert(0 <= w < self.queues@.len() && self.queues@[w].0@ == queue_id@);
            }
        }
        let ghost qs0 = self.queues@;
        let mut pair = self.queues.remove(qi);
        let ghost q0 = pair.1;
        pair.1.commit_match(teams, game);
        let ghost q1 = pair.1;
        self.queues.insert(qi, pair);
        proof {
            assert(self.queues@ =~= qs0.update(qi as int, (qs0[qi as int].0, q1)));
            lemma_matcher_ids_unique(q1.matcher);
            lemma_disjoint_preserved(q0.entries_of(), q1.entries_of());
            assert forall|i: int, j: int| 0 <= i < j < self.queues@.len() implies (
            #[trigger] self.queues@[i]).0@ != (#[trigger] self.queues@[j]).0@ by {
                assert(self.queues@[i].0 == qs0[i].0 && self.queues@[j].0 == qs0[j].0);
            }
        }
        true
    }

    /// Ejects one entry silently — the disconnect path: its handle is
    /// dropped without a value.  Returns whether the queue exists.
    pub fn leave(&mut self, queue_id: &String, entry_id: &EntryId) -> (r: bool)
        requires
            old(self).wf(),
        ensures
            final(self).wf(),
            final(self).locked == old(self).locked,
            r == old(self).has_queue(queue_id@),
            !r ==> final(self).queues@ == old(self).queues@,
            r ==> {
                let qi = old(self).queue_index(queue_id@);
                &&& final(self).queues@.len() == old(self).queues@.len()
                &&& forall|i: int|
                    0 <= i < old(self).queues@.len() && i != qi ==> final(self).queues@[i] == old(
                        self,
                    ).queues@[i]
                &&& final(self).queues@[qi].0 == old(self).queues@[qi].0
                &&& !spec_has_entry(final(self).queues@[qi].1.entries_of(), *entry_id)
            },
    {
        let qi = match find_queue_index(&self.queues, queue_id) {
            None => {
                return false;
            },
            Some(qi) => qi,
        };
        proof {
            assert(self.queues@[qi as int].0@ == queue_id@);
            assert(old(self).queue_index(queue_id@) == qi as int) by {
                let w = old(self).queue_index(queue_id@);
                assert(0 <= w < self.queues@.len() && self.queues@[w].0@ == queue_id@);
            }
        }
        let ghost qs0 = self.queues@;
        let mut pair = self.queues.remove(qi);
        let ghost q0 = pair.1;
        let _removed = pair.1.remove_entry(entry_id);
        let ghost q1 = pair.1;
        self.queues.insert(qi, pair);
        proof {
            assert(self.queues@ =~= qs0.update(qi as int, (qs0[qi as int].0, q1)));
            lemma_matcher_ids_unique(q1.matcher);
            lemma_disjoint_preserved(q0.entries_of(), q1.entries_of());
            assert forall|i: int, j: int| 0 <= i < j < self.queues@.len() implies (
            #[trigger] self.queues@[i]).0@ != (#[trigger] self.queues@[j]).0@ by {
                assert(self.queues@[i].0 == qs0[i].0 && self.queues@[j].0 == qs0[j].0);
            }
        }
        true
    }

    /// Applies a matcher failure to the named queue: with an affected id,
    /// only that entry is ejected with the error; otherwise the whole queue
    /// is drained, delivering the error to every waiting client.
    pub fn apply_fail(
        &mut self,
        queue_id: &String,
        err: &String,
        affected: Option<EntryId>,
    ) -> (r: bool)
        requires
            old(self).wf(),
        ensures
            final(self).wf(),
            final(self).locked == old(self).locked,
            r == old(self).has_queue(queue_id@),
            !r ==> final(self).queues@ == old(self).queues@,
            r ==> {
                let qi = old(self).queue_index(queue_id@);
                &&& final(self).queues@.len() == old(self).queues@.len()
                &&& forall|i: int|
                    0 <= i < old(self).queues@.len() && i != qi ==> final(self).queues@[i] == old(
                        self,
                    ).queues@[i]
                &&& (match affected {
                    Some(id) => !spec_has_entry(final(self).queues@[qi].1.entries_of(), id),
                    None => final(self).queues@[qi].1.entries_of().len() == 0,
                })
            },
    {
        let qi = match find_queue_index(&self.queues, queue_id) {
            None => {
                return false;
            },
            Some(qi) => qi,
        };
        proof {
            assert(self.queues@[qi as int].0@ == queue_id@);
            assert(old(self).queue_index(queue_id@) == qi as int) by {
                let w = old(self).queue_index(queue_id@);
                assert(0 <= w < self.queues@.len() && self.queues@[w].0@ == queue_id@);
            }
        }
        let ghost qs0 = self.queues@;
        let mut pair = self.queues.remove(qi);
        let ghost q0 = pair.1;
        match affected {
            Some(id) => {
                let e: Delivery = Err(err.clone());
                pair.1.leave(&id, e);
            },
            None => {
                pair.1.remove_all(err);
            },
        }
        let ghost q1 = pair.1;
        self.queues.insert(qi, pair);
        proof {
            assert(self.queues@ =~= qs0.update(qi as int, (qs0[qi as int].0, q1)));
            lemma_matcher_ids_unique(q1.matcher);
            if affected is Some {
                lemma_disjoint_preserved(q0.entries_of(), q1.entries_of());
            }
            assert forall|i: int, j: int| 0 <= i < j < self.queues@.len() implies (
            #[trigger] self.queues@[i]).0@ != (#[trigger] self.queues@[j]).0@ by {
                assert(self.queues@[i].0 == qs0[i].0 && self.queues@[j].0 == qs0[j].0);
            }
        }
        true
    }

    /// The configurations to persist: one element per queue, in order, each
    /// carrying the queue name, the matcher's type name and its settings.
    pub fn to_persist(&self) -> (r: Vec<PersistedQueue>)
        requires
            self.wf(),
        ensures
            r@.len() == self.queues@.len(),
            forall|i: int|
                0 <= i < r@.len() ==> (#[trigger] r@[i]).name@ == self.queues@[i].0@ && r@[
                i].matcher@ == self.queues@[i].1.matcher.type_name_of() && r@[i].settings
                    == self.queues@[i].1.matcher.settings_of(),
    {
        let mut out: Vec<PersistedQueue> = Vec::new();
        let mut i: usize = 0;
        while i < self.queues.len()
            invariant
                i <= self.queues@.len(),
                out@.len() == i,
                forall|l: int|
                    0 <= l < i ==> (#[trigger] out@[l]).name@ == self.queues@[l].0@ && out@[
                    l].matcher@ == self.queues@[l].1.matcher.type_name_of() && out@[l].settings
                        == self.queues@[l].1.matcher.settings_of(),
            decreases self.queues@.len() - i,
        {
            let name = self.queues[i].0.clone();
            let matcher = self.queues[i].1.matchmaker().get_type_name();
            let settings = self.queues[i].1.matchmaker().serialize();
            out.push(PersistedQueue { name, matcher, settings });
            i = i + 1;
        }
        out
    }

    /// Rebuilds a tracker from persisted configurations.  Items whose type
    /// name or settings cannot be rebuilt, and items whose name collides
    /// with an earlier one, are skipped; when every item is valid and the
    /// names are unique — as `to_persist` guarantees of its own output —
    /// the reloaded tracker carries exactly the persisted queue names and
    /// matcher configurations, each with an empty pool.
    pub fn from_persist(items: &Vec<PersistedQueue>) -> (r: QueueTracker)
        ensures
            r.wf(),
            !r.locked,
            ((forall|i: int|
                0 <= i < items@.len() ==> settings_ok(
                    (#[trigger] items@[i]).matcher@,
                    items@[i].settings,
                )) && (forall|i: int, j: int|
                0 <= i < j < items@.len() ==> (#[trigger] items@[i]).name@ != (
                #[trigger] items@[j]).name@)) ==> {
                &&& r.queues@.len() == items@.len()
                &&& forall|i: int|
                    0 <= i < items@.len() ==> (#[trigger] r.queues@[i]).0@ == items@[i].name@
                        && r.queues@[i].1.matcher.settings_of() == items@[i].settings
                        && r.queues@[i].1.entries_of().len() == 0
            },
    {
        let ghost ok = (forall|i: int|
            0 <= i < items@.len() ==> settings_ok(
                (#[trigger] items@[i]).matcher@,
                items@[i].settings,
            )) && (forall|i: int, j: int|
            0 <= i < j < items@.len() ==> (#[trigger] items@[i]).name@ != (
            #[trigger] items@[j]).name@);
        let mut t = QueueTracker::new();
        let mut i: usize = 0;
        while i < items.len()
            invariant
                i <= items@.len(),
                t.wf(),
                !t.locked,
                ok == ((forall|i2: int|
                    0 <= i2 < items@.len() ==> settings_ok(
                        (#[trigger] items@[i2]).matcher@,
                        items@[i2].settings,
                    )) && (forall|i2: int, j2: int|
                    0 <= i2 < j2 < items@.len() ==> (#[trigger] items@[i2]).name@ != (
                    #[trigger] items@[j2]).name@)),
                ok ==> t.queues@.len() == i && (forall|l: int|
                    0 <= l < i ==> (#[trigger] t.queues@[l]).0@ == items@[l].name@ && t.queues@[
                    l].1.matcher.settings_of() == items@[l].settings && t.queues@[
                    l].1.entries_of().len() == 0),
            decreases items@.len() - i,
        {
            let it = &items[i];
            match find_queue_index(&t.queues, &it.name) {
                Some(_) => {
                    proof {
                        if ok {
                            assert(false);
                        }
                    }
                },
                None => {
                    match deserialize(&it.matcher, it.settings) {
                        Ok(m) => {
                            let ghost n0 = t.queues@.len() as int;
                            let ghost qs0 = t.queues@;
                            let qname = it.name.clone();
                            let q = Queue::new(qname, m);
                            t.queues.push((it.name.clone(), q));
                            proof {
                                assert forall|a: int, b: int|
                                    0 <= a < b < t.queues@.len() implies (
                                #[trigger] t.queues@[a]).0@ != (#[trigger] t.queues@[b]).0@ by {
                                    if b < n0 {
                                        assert(t.queues@[a] == qs0[a] && t.queues@[b] == qs0[b]);
                                    } else {
                                        assert(t.queues@[a] == qs0[a]);
                                    }
                                }
                            }
                        },
                        Err(_) => {
                            proof {
                                if ok {
                                    assert(settings_ok(items@[i as int].matcher@, items@[
                                    i as int].settings));
                                    assert(false);
                                }
                            }
                        },
                    }
                },
            }
            i = i + 1;
        }
        t
    }
}

/// The persist-and-reload law: what `to_persist` writes always meets the
/// reload conditions — every persisted queue is valid and the names are
/// unique — so, by `from_persist`'s contract, reloading reproduces exactly
/// the same queue names and matcher configurations.
pub proof fn lemma_persist_round_trip(t: QueueTracker, items: Vec<PersistedQueue>)
    requires
        t.wf(),
        items@.len() == t.queues@.len(),
        forall|i: int|
            0 <= i < items@.len() ==> (#[trigger] items@[i]).name@ == t.queues@[i].0@ && items@[
            i].matcher@ == t.queues@[i].1.matcher.type_name_of() && items@[i].settings
                == t.queues@[i].1.matcher.settings_of(),
    ensures
        forall|i: int|
            0 <= i < items@.len() ==> settings_ok(
                (#[trigger] items@[i]).matcher@,
                items@[i].settings,
            ),
        forall|i: int, j: int|
            0 <= i < j < items@.len() ==> (#[trigger] items@[i]).name@ != (
            #[trigger] items@[j]).name@,
{
    assert forall|i: int| 0 <= i < items@.len() implies settings_ok(
        (#[trigger] items@[i]).matcher@,
        items@[i].settings,
    ) by {
        let m = t.queues@[i].1.matcher;
        assert(t.queues@[i].1.wf());
        match m {
            Matcher::Flexible(f) => {
                assert(f.wf());
            },
            Matcher::Elo(e) => {
                assert(e.wf());
            },
        }
    }
}

} // verus!
