//! One named queue: a matcher bound to the one-shot result handles of its
//! waiting clients.  The matcher's pool and the handle map are kept in step:
//! an id has a pending handle exactly while its entry waits in the matcher.

use vstd::prelude::*;
use crate::entry::{Entry, EntryId};
use crate::flexible::{index_of_id, spec_has_entry};
use crate::game::Game;
use crate::handles::{
    recv_ready, result_channel, send_result, Delivery, ResultReceiver, ResultSender,
};
use crate::matchmaker::{Matcher, MatchmakerResult};

verus! {

/// What every matched client receives: the full teams and the located game.
#[derive(Clone, Debug)]
pub struct QueueResult {
    pub teams: Vec<Vec<Entry>>,
    pub game: Game,
}

impl QueueResult {
    /// A result with every field given.
    pub fn new(teams: Vec<Vec<Entry>>, game: Game) -> (r: QueueResult)
        ensures
            r.teams == teams,
            r.game == game,
    {
        QueueResult { teams, game }
    }
}

/// Some pending handle is keyed by `id`.
pub open spec fn has_pending(ps: Seq<(EntryId, ResultSender)>, id: EntryId) -> bool {
    exists|j: int| 0 <= j < ps.len() && (#[trigger] ps[j]).0 == id
}

/// Some player of some entry of `es` is `p`.
pub open spec fn spec_queue_has_player(es: Seq<Entry>, p: u128) -> bool {
    exists|i: int| 0 <= i < es.len() && (#[trigger] es[i]).players@.contains(p)
}

/// Some team of `ts` lists the id.
pub open spec fn teams_contain(ts: Seq<Vec<EntryId>>, id: EntryId) -> bool {
    exists|t: int, l: int|
        0 <= t < ts.len() && 0 <= l < ts[t]@.len() && #[trigger] ts[t]@[l] == id
}

/// Removing one entry leaves every other id's membership unchanged.
proof fn lemma_has_entry_remove(es: Seq<Entry>, i: int, id2: EntryId)
    requires
        0 <= i < es.len(),
        es[i].id != id2,
    ensures
        spec_has_entry(es.remove(i), id2) == spec_has_entry(es, id2),
{
    if spec_has_entry(es, id2) {
        let w = choose|w: int| 0 <= w < es.len() && es[w].id == id2;
        if w < i {
            assert(es.remove(i)[w] == es[w]);
        } else {
            assert(es.remove(i)[w - 1] == es[w]);
        }
    }
    if spec_has_entry(es.remove(i), id2) {
        let w = choose|w: int| 0 <= w < es.remove(i).len() && es.remove(i)[w].id == id2;
        if w < i {
            assert(es.remove(i)[w] == es[w]);
        } else {
            assert(es.remove(i)[w] == es[w + 1]);
        }
    }
}

/// The sync law: in a well-formed queue an id has a pending result handle
/// exactly while its entry waits in the matcher.  Every queue operation
/// keeps the queue well formed, so this holds at all times.
pub proof fn lemma_pending_matches_entries(q: Queue)
    requires
        q.wf(),
    ensures
        forall|id: EntryId|
            #[trigger] has_pending(q.pending@, id) <==> spec_has_entry(q.entries_of(), id),
{
    assert forall|id: EntryId|
        #[trigger] has_pending(q.pending@, id) <==> spec_has_entry(q.entries_of(), id) by {
        if has_pending(q.pending@, id) {
            let j = choose|j: int| 0 <= j < q.pending@.len() && (#[trigger] q.pending@[j]).0 == id;
            assert(spec_has_entry(q.matcher.entries_of(), q.pending@[j].0));
        }
        if spec_has_entry(q.entries_of(), id) {
            let i = choose|i: int|
                0 <= i < q.matcher.entries_of().len() && q.matcher.entries_of()[i].id == id;
            assert(has_pending(q.pending@, q.matcher.entries_of()[i].id));
        }
    }
}

/// One named queue.
pub struct Queue {
    pub id: String,
    pub matcher: Matcher,
    pub pending: Vec<(EntryId, ResultSender)>,
}

impl Queue {
    /// Well-formedness: a well-formed matcher, and pending handles in
    /// one-to-one correspondence with the matcher's entries — an id has a
    /// handle exactly while its entry waits.
    pub open spec fn wf(self) -> bool {
        &&& self.matcher.wf()
        &&& forall|i: int, j: int|
            0 <= i < j < self.pending@.len() ==> (#[trigger] self.pending@[i]).0 != (
            #[trigger] self.pending@[j]).0
        &&& forall|j: int|
            0 <= j < self.pending@.len() ==> spec_has_entry(
                self.matcher.entries_of(),
                (#[trigger] self.pending@[j]).0,
            )
        &&& forall|i: int|
            0 <= i < self.matcher.entries_of().len() ==> has_pending(
                self.pending@,
                (#[trigger] self.matcher.entries_of()[i]).id,
            )
    }

    /// The waiting entries, in admission order.
    pub open spec fn entries_of(self) -> Seq<Entry> {
        self.matcher.entries_of()
    }

    /// A queue around a fresh matcher, with no one waiting.
    pub fn new(id: String, matcher: Matcher) -> (r: Queue)
        requires
            matcher.wf(),
            matcher.entries_of().len() == 0,
        ensures
            r.wf(),
            r.id == id,
            r.matcher == matcher,
            r.pending@.len() == 0,
    {
        Queue { id, matcher, pending: Vec::new() }
    }

    /// Admits an entry, by delegation to the matcher, and allocates the
    /// single-shot result handle its client will await.
    pub fn add_entry(&mut self, entry: Entry) -> (r: Result<ResultReceiver, String>)
        requires
            old(self).wf(),
        ensures
            final(self).wf(),
            final(self).id == old(self).id,
            final(self).matcher.settings_of() == old(self).matcher.settings_of(),
            r is Ok <==> old(self).matcher.spec_add_ok(entry),
            r is Ok ==> final(self).entries_of() == old(self).entries_of().push(entry)
                && has_pending(final(self).pending@, entry.id),
            r is Err ==> *final(self) == *old(self),
    {
        let eid = entry.id;
        match self.matcher.add_entry(entry) {
            Err(m) => Err(m),
            Ok(_) => {
                let pair = result_channel();
                let tx = pair.0;
                let rx = pair.1;
                self.pending.push((eid, tx));
                proof {
                    let ps0 = old(self).pending@;
                    let ps1 = self.pending@;
                    let es0 = old(self).entries_of();
                    let es1 = self.entries_of();
                    assert(es1 == es0.push(self.entries_of()[es0.len() as int]));
                    assert forall|i: int, j: int| 0 <= i < j < ps1.len() implies (
                    #[trigger] ps1[i]).0 != (#[trigger] ps1[j]).0 by {
                        if j < ps0.len() {
                            assert(ps1[i] == ps0[i] && ps1[j] == ps0[j]);
                        } else {
                            assert(ps1[i] == ps0[i]);
                            assert(spec_has_entry(es0, ps0[i].0));
                        }
                    }
                    assert forall|j: int| 0 <= j < ps1.len() implies spec_has_entry(
                        es1,
                        (#[trigger] ps1[j]).0,
                    ) by {
                        if j < ps0.len() {
                            assert(ps1[j] == ps0[j]);
                            let w = choose|w: int| 0 <= w < es0.len() && es0[w].id == ps0[j].0;
                            assert(es1[w] == es0[w]);
                        } else {
                            assert(es1[es0.len() as int].id == eid);
                        }
                    }
                    assert forall|i: int| 0 <= i < es1.len() implies has_pending(
                        ps1,
                        (#[trigger] es1[i]).id,
                    ) by {
                        if i < es0.len() {
                            assert(es1[i] == es0[i]);
                            let w = choose|w: int| 0 <= w < ps0.len() && ps0[w].0 == es0[i].id;
                            assert(ps1[w] == ps0[w]);
                        } else {
                            assert(ps1[ps0.len() as int].0 == eid);
                        }
                    }
                }
                Ok(rx)
            },
        }
    }

    /// One matching attempt at instant `now`; the queue is not changed.
    pub fn tick_at(&self, now: u64) -> (r: MatchmakerResult)
        requires
            self.wf(),
        ensures
            self.matcher.attempt_outcome(now, r),
    {
        self.matcher.matchmake_at(now)
    }

    /// One matching attempt at the current wall-clock instant.
    pub fn tick(&self) -> (r: MatchmakerResult)
        requires
            self.wf(),
        ensures
            exists|now: u64| self.matcher.attempt_outcome(now, r),
    {
        self.matcher.matchmake()
    }

    /// The matcher this queue runs.
    pub fn matchmaker(&self) -> (r: &Matcher)
        ensures
            r == self.matcher,
    {
        &self.matcher
    }

    /// The waiting entries, in admission order.
    pub fn entries(&self) -> (r: &Vec<Entry>)
        ensures
            r@ == self.entries_of(),
    {
        self.matcher.get_entries()
    }

    /// Whether some waiting party already lists this player.
    pub fn has_player(&self, player_id: &u128) -> (r: bool)
        ensures
            r == spec_queue_has_player(self.entries_of(), *player_id),
    {
        let entries = self.matcher.get_entries();
        let mut i: usize = 0;
        while i < entries.len()
            invariant
                i <= entries@.len(),
                entries@ == self.entries_of(),
                forall|l: int|
                    0 <= l < i ==> !(#[trigger] entries@[l]).players@.contains(*player_id),
            decreases entries@.len() - i,
        {
            let players = &entries[i].players;
            let mut k: usize = 0;
            while k < players.len()
                invariant
                    k <= players@.len(),
                    players@ == entries@[i as int].players@,
                    i < entries@.len(),
                    entries@ == self.entries_of(),
                    forall|l: int| 0 <= l < k ==> players@[l] != player_id,
                decreases players@.len() - k,
            {
                if players[k] == *player_id {
                    proof {
                        assert(players@[k as int] == *player_id);
                        assert(entries@[i as int].players@.contains(*player_id));
                        assert(spec_queue_has_player(self.entries_of(), *player_id));
                    }
                    return true;
                }
                k = k + 1;
            }
            proof {
                assert(!entries@[i as int].players@.contains(*player_id));
            }
            i = i + 1;
        }
        false
    }

    /// Detaches one id from the queue: the entry leaves the matcher and the
    /// handle leaves the pending map; both are returned to the caller, who
    /// decides whether and what to deliver.
    fn detach(&mut self, entry_id: &EntryId) -> (r: (Option<Entry>, Option<ResultSender>))
        requires
            old(self).wf(),
        ensures
            final(self).wf(),
            final(self).id == old(self).id,
            final(self).matcher.settings_of() == old(self).matcher.settings_of(),
            !spec_has_entry(final(self).entries_of(), *entry_id),
            !has_pending(final(self).pending@, *entry_id),
            forall|id2: EntryId|
                #[trigger] spec_has_entry(final(self).entries_of(), id2) ==> spec_has_entry(
                    old(self).entries_of(),
                    id2,
                ),
            forall|id2: EntryId|
                #[trigger] spec_has_entry(old(self).entries_of(), id2) && id2 != *entry_id
                    ==> spec_has_entry(final(self).entries_of(), id2),
            forall|id2: EntryId|
                #[trigger] has_pending(final(self).pending@, id2) ==> has_pending(
                    old(self).pending@,
                    id2,
                ),
            forall|k: int|
                0 <= k < final(self).entries_of().len() ==> old(self).entries_of().contains(
                    #[trigger] final(self).entries_of()[k],
                ),
            (if spec_has_entry(old(self).entries_of(), *entry_id) {
                let i = index_of_id(old(self).entries_of(), *entry_id);
                r.0 == Some(old(self).entries_of()[i]) && final(self).entries_of() == old(
                    self,
                ).entries_of().remove(i)
            } else {
                r.0 is None && final(self).entries_of() == old(self).entries_of()
            }),
            r.1 is Some <==> has_pending(old(self).pending@, *entry_id),
    {
        let ghost es0 = self.entries_of();
        let removed = match self.matcher.remove_entry(entry_id) {
            Ok(e) => Some(e),
            Err(_) => None,
        };
        proof {
            if spec_has_entry(es0, *entry_id) {
                let i = index_of_id(es0, *entry_id);
                assert forall|id2: EntryId|
                    #[trigger] spec_has_entry(self.entries_of(), id2) implies spec_has_entry(
                    es0,
                    id2,
                ) by {
                    if id2 != es0[i].id {
                        lemma_has_entry_remove(es0, i, id2);
                    } else {
                        assert(es0[i].id == id2);
                    }
                }
                assert forall|id2: EntryId|
                    #[trigger] spec_has_entry(es0, id2) && id2 != *entry_id implies spec_has_entry(
                    self.entries_of(),
                    id2,
                ) by {
                    lemma_has_entry_remove(es0, i, id2);
                }
                assert(!spec_has_entry(self.entries_of(), *entry_id)) by {
                    if spec_has_entry(self.entries_of(), *entry_id) {
                        let w = choose|w: int|
                            0 <= w < self.entries_of().len() && self.entries_of()[w].id
                                == *entry_id;
                        if w < i {
                            assert(self.entries_of()[w] == es0[w]);
                        } else {
                            assert(self.entries_of()[w] == es0[w + 1]);
                        }
                    }
                }
            }
        }
        proof {
            assert forall|k: int| 0 <= k < self.entries_of().len() implies es0.contains(
                #[trigger] self.entries_of()[k],
            ) by {
                if spec_has_entry(es0, *entry_id) {
                    let i = index_of_id(es0, *entry_id);
                    if k < i {
                        assert(self.entries_of()[k] == es0[k]);
                    } else {
                        assert(self.entries_of()[k] == es0[k + 1]);
                    }
                } else {
                    assert(self.entries_of()[k] == es0[k]);
                }
            }
        }
        let mut p: usize = 0;
        let mut found = false;
        while p < self.pending.len() && !found
            invariant
                p <= self.pending@.len(),
                !found ==> forall|l: int|
                    0 <= l < p ==> (#[trigger] self.pending@[l]).0 != entry_id,
                found ==> 0 < p <= self.pending@.len() && self.pending@[p as int - 1].0
                    == entry_id,
                self.pending@ == old(self).pending@,
            decreases self.pending@.len() - p,
        {
            if self.pending[p].0 == *entry_id {
                found = true;
            }
            p = p + 1;
        }
        let handle = if found {
            let pair = self.pending.remove(p - 1);
            Some(pair.1)
        } else {
            None
        };
        proof {
            let ps0 = old(self).pending@;
            let ps1 = self.pending@;
            if found {
                let pi = p as int - 1;
                assert(ps1 == ps0.remove(pi));
                assert forall|i2: int, j2: int| 0 <= i2 < j2 < ps1.len() implies (
                #[trigger] ps1[i2]).0 != (#[trigger] ps1[j2]).0 by {
                    let a: int = if i2 < pi {
                        i2
                    } else {
                        i2 + 1
                    };
                    let b: int = if j2 < pi {
                        j2
                    } else {
                        j2 + 1
                    };
                    assert(ps1[i2] == ps0[a] && ps1[j2] == ps0[b]);
                }
                assert(!has_pending(ps1, *entry_id)) by {
                    if has_pending(ps1, *entry_id) {
                        let w = choose|w: int| 0 <= w < ps1.len() && (#[trigger] ps1[w]).0
                            == *entry_id;
                        if w < pi {
                            assert(ps1[w] == ps0[w]);
                        } else {
                            assert(ps1[w] == ps0[w + 1]);
                        }
                    }
                }
                assert forall|id2: EntryId| #[trigger] has_pending(ps1, id2) implies has_pending(
                    ps0,
                    id2,
                ) by {
                    let w = choose|w: int| 0 <= w < ps1.len() && (#[trigger] ps1[w]).0 == id2;
                    if w < pi {
                        assert(ps1[w] == ps0[w]);
                    } else {
                        assert(ps1[w] == ps0[w + 1]);
                    }
                }
                assert forall|j2: int| 0 <= j2 < ps1.len() implies spec_has_entry(
                    self.entries_of(),
                    (#[trigger] ps1[j2]).0,
                ) by {
                    let a: int = if j2 < pi {
                        j2
                    } else {
                        j2 + 1
                    };
                    assert(ps1[j2] == ps0[a]);
                    assert(spec_has_entry(es0, ps0[a].0));
                    assert(ps0[a].0 != *entry_id);
                }
                assert forall|i2: int| 0 <= i2 < self.entries_of().len() implies has_pending(
                    ps1,
                    (#[trigger] self.entries_of()[i2]).id,
                ) by {
                    let eid2 = self.entries_of()[i2].id;
                    assert(spec_has_entry(self.entries_of(), eid2));
                    assert(eid2 != *entry_id);
                    assert(spec_has_entry(es0, eid2));
                    assert(has_pending(ps0, eid2));
                    let w = choose|w: int| 0 <= w < ps0.len() && (#[trigger] ps0[w]).0 == eid2;
                    if w < pi {
                        assert(ps1[w] == ps0[w]);
                    } else {
                        assert(w != pi);
                        assert(ps1[w - 1] == ps0[w]);
                    }
                }
            } else {
                assert(ps1 == ps0);
                assert(!has_pending(ps0, *entry_id));
                // the id had no handle, so by the old invariant it had no
                // entry either, and the matcher removal cannot have found it
                if spec_has_entry(es0, *entry_id) {
                    assert(has_pending(ps0, *entry_id));
                }
                assert forall|i2: int| 0 <= i2 < self.entries_of().len() implies has_pending(
                    ps1,
                    (#[trigger] self.entries_of()[i2]).id,
                ) by {
                    assert(spec_has_entry(es0, self.entries_of()[i2].id));
                }
            }
        }
        (removed, handle)
    }

    /// Silent cancellation: the entry leaves the matcher and its handle is
    /// dropped without delivering a value.  Absent ids are a no-op.
    pub fn remove_entry(&mut self, entry_id: &EntryId) -> (r: Option<Entry>)
        requires
            old(self).wf(),
        ensures
            final(self).wf(),
            final(self).id == old(self).id,
            final(self).matcher.settings_of() == old(self).matcher.settings_of(),
            !spec_has_entry(final(self).entries_of(), *entry_id),
            !has_pending(final(self).pending@, *entry_id),
            forall|k: int|
                0 <= k < final(self).entries_of().len() ==> old(self).entries_of().contains(
                    #[trigger] final(self).entries_of()[k],
                ),
            (if spec_has_entry(old(self).entries_of(), *entry_id) {
                let i = index_of_id(old(self).entries_of(), *entry_id);
                r == Some(old(self).entries_of()[i]) && final(self).entries_of() == old(
                    self,
                ).entries_of().remove(i)
            } else {
                r is None && final(self).entries_of() == old(self).entries_of()
            }),
    {
        let pair = self.detach(entry_id);
        pair.0
    }

    /// Withdraws the entry and, when a handle is still pending, fulfils it
    /// exactly once with `result`.
    pub fn leave(&mut self, entry_id: &EntryId, result: Delivery)
        requires
            old(self).wf(),
        ensures
            final(self).wf(),
            final(self).id == old(self).id,
            final(self).matcher.settings_of() == old(self).matcher.settings_of(),
            !spec_has_entry(final(self).entries_of(), *entry_id),
            !has_pending(final(self).pending@, *entry_id),
            forall|k: int|
                0 <= k < final(self).entries_of().len() ==> old(self).entries_of().contains(
                    #[trigger] final(self).entries_of()[k],
                ),
            (if spec_has_entry(old(self).entries_of(), *entry_id) {
                let i = index_of_id(old(self).entries_of(), *entry_id);
                final(self).entries_of() == old(self).entries_of().remove(i)
            } else {
                final(self).entries_of() == old(self).entries_of()
            }),
    {
        let pair = self.detach(entry_id);
        match pair.1 {
            Some(tx) => send_result(tx, result),
            None => {},
        }
    }

    /// Drains the queue: every entry leaves the matcher and every pending
    /// handle is fulfilled with `reason` as an error.
    pub fn remove_all(&mut self, reason: &String)
        requires
            old(self).wf(),
        ensures
            final(self).wf(),
            final(self).id == old(self).id,
            final(self).matcher.settings_of() == old(self).matcher.settings_of(),
            final(self).entries_of().len() == 0,
            final(self).pending@.len() == 0,
    {
        let _drained = self.matcher.remove_all();
        while self.pending.len() > 0
            invariant
                self.matcher.wf(),
                self.matcher.entries_of().len() == 0,
                self.matcher.settings_of() == old(self).matcher.settings_of(),
                self.id == old(self).id,
            decreases self.pending@.len(),
        {
            match self.pending.pop() {
                Some(pair) => send_result(pair.1, Err(reason.clone())),
                None => {},
            }
        }
    }

    /// Commits a match: every entry id listed in `teams` leaves the matcher
    /// and its handle is fulfilled — each with the same located game when
    /// the locator succeeded, or each with the locator's error.  Afterwards
    /// no committed id remains in the matcher or in the pending map, and
    /// every id outside the match still waits.
    pub fn commit_match(&mut self, teams: &Vec<Vec<EntryId>>, game: Result<Game, String>)
        requires
            old(self).wf(),
        ensures
            final(self).wf(),
            final(self).id == old(self).id,
            final(self).matcher.settings_of() == old(self).matcher.settings_of(),
            forall|id: EntryId|
                #[trigger] teams_contain(teams@, id) ==> !spec_has_entry(
                    final(self).entries_of(),
                    id,
                ) && !has_pending(final(self).pending@, id),
            forall|id: EntryId|
                #[trigger] spec_has_entry(final(self).entries_of(), id) ==> spec_has_entry(
                    old(self).entries_of(),
                    id,
                ),
            forall|id: EntryId|
                #[trigger] spec_has_entry(old(self).entries_of(), id) && !teams_contain(
                    teams@,
                    id,
                ) ==> spec_has_entry(final(self).entries_of(), id),
            forall|k: int|
                0 <= k < final(self).entries_of().len() ==> old(self).entries_of().contains(
                    #[trigger] final(self).entries_of()[k],
                ),
    {
        let mut senders: Vec<ResultSender> = Vec::new();
        let mut teams_entries: Vec<Vec<Entry>> = Vec::new();
        let mut t: usize = 0;
        while t < teams.len()
            invariant
                old(self).wf(),
                self.wf(),
                t <= teams@.len(),
                self.id == old(self).id,
                self.matcher.settings_of() == old(self).matcher.settings_of(),
                forall|id: EntryId|
                    #[trigger] teams_contain(teams@.take(t as int), id) ==> !spec_has_entry(
                        self.entries_of(),
                        id,
                    ) && !has_pending(self.pending@, id),
                forall|id: EntryId|
                    #[trigger] spec_has_entry(self.entries_of(), id) ==> spec_has_entry(
                        old(self).entries_of(),
                        id,
                    ),
                forall|id: EntryId|
                    #[trigger] spec_has_entry(old(self).entries_of(), id) && !teams_contain(
                        teams@.take(t as int),
                        id,
                    ) ==> spec_has_entry(self.entries_of(), id),
                forall|k: int|
                    0 <= k < self.entries_of().len() ==> old(self).entries_of().contains(
                        #[trigger] self.entries_of()[k],
                    ),
            decreases teams@.len() - t,
        {
            let team = &teams[t];
            let mut team_entries: Vec<Entry> = Vec::new();
            let mut l: usize = 0;
            while l < team.len()
                invariant
                    old(self).wf(),
                    self.wf(),
                    t < teams@.len(),
                    l <= team@.len(),
                    team@ == teams@[t as int]@,
                    self.id == old(self).id,
                    self.matcher.settings_of() == old(self).matcher.settings_of(),
                    forall|id: EntryId|
                        #[trigger] teams_contain(teams@.take(t as int), id) ==> !spec_has_entry(
                            self.entries_of(),
                            id,
                        ) && !has_pending(self.pending@, id),
                    forall|v: int|
                        0 <= v < l ==> !spec_has_entry(
                            self.entries_of(),
                            #[trigger] teams@[t as int]@[v],
                        ) && !has_pending(self.pending@, teams@[t as int]@[v]),
                    forall|id: EntryId|
                        #[trigger] spec_has_entry(self.entries_of(), id) ==> spec_has_entry(
                            old(self).entries_of(),
                            id,
                        ),
                    forall|id: EntryId|
                        #[trigger] spec_has_entry(old(self).entries_of(), id) && !teams_contain(
                            teams@.take(t as int),
                            id,
                        ) && (forall|v: int| 0 <= v < l ==> #[trigger] teams@[t as int]@[v] != id)
                            ==> spec_has_entry(self.entries_of(), id),
                    forall|k: int|
                        0 <= k < self.entries_of().len() ==> old(self).entries_of().contains(
                            #[trigger] self.entries_of()[k],
                        ),
                decreases team@.len() - l,
            {
                let ghost pre_self = *self;
                let eid = team[l];
                let pair = self.detach(&eid);
                match pair.0 {
                    Some(e) => team_entries.push(e),
                    None => {},
                }
                match pair.1 {
                    Some(tx) => senders.push(tx),
                    None => {},
                }
                proof {
                    assert(teams@[t as int]@[l as int] == eid);
                    assert forall|id: EntryId|
                        #[trigger] teams_contain(teams@.take(t as int), id) implies
                        !spec_has_entry(self.entries_of(), id) && !has_pending(
                        self.pending@,
                        id,
                    ) by {
                        assert(!spec_has_entry(pre_self.entries_of(), id));
                        assert(!has_pending(pre_self.pending@, id));
                        if spec_has_entry(self.entries_of(), id) {
                            assert(spec_has_entry(pre_self.entries_of(), id));
                        }
                        if has_pending(self.pending@, id) {
                            assert(has_pending(pre_self.pending@, id));
                        }
                    }
                    assert forall|v: int| 0 <= v < l as int + 1 implies !spec_has_entry(
                        self.entries_of(),
                        #[trigger] teams@[t as int]@[v],
                    ) && !has_pending(self.pending@, teams@[t as int]@[v]) by {
                        let id = teams@[t as int]@[v];
                        if v < l as int {
                            assert(!spec_has_entry(pre_self.entries_of(), id));
                            assert(!has_pending(pre_self.pending@, id));
                            if spec_has_entry(self.entries_of(), id) {
                                assert(spec_has_entry(pre_self.entries_of(), id));
                            }
                            if has_pending(self.pending@, id) {
                                assert(has_pending(pre_self.pending@, id));
                            }
                        }
                    }
                    assert forall|k: int| 0 <= k < self.entries_of().len() implies old(
                        self,
                    ).entries_of().contains(#[trigger] self.entries_of()[k]) by {
                        assert(pre_self.entries_of().contains(self.entries_of()[k]));
                        let w = choose|w: int|
                            0 <= w < pre_self.entries_of().len() && pre_self.entries_of()[w]
                                == self.entries_of()[k];
                        assert(old(self).entries_of().contains(pre_self.entries_of()[w]));
                    }
                    assert forall|id: EntryId|
                        #[trigger] spec_has_entry(old(self).entries_of(), id) && !teams_contain(
                            teams@.take(t as int),
                            id,
                        ) && (forall|v: int|
                            0 <= v < l as int + 1 ==> #[trigger] teams@[t as int]@[v] != id)
                        implies spec_has_entry(self.entries_of(), id) by {
                        assert(teams@[t as int]@[l as int] != id);
                        assert(id != eid);
                        assert(forall|v: int|
                            0 <= v < l as int ==> #[trigger] teams@[t as int]@[v] != id);
                        assert(spec_has_entry(pre_self.entries_of(), id));
                    }
                }
                l = l + 1;
            }
            teams_entries.push(team_entries);
            proof {
                assert forall|id: EntryId|
                    #[trigger] teams_contain(teams@.take(t as int + 1), id) implies
                    !spec_has_entry(self.entries_of(), id) && !has_pending(
                    self.pending@,
                    id,
                ) by {
                    let (w, v) = choose|w: int, v: int|
                        0 <= w < teams@.take(t as int + 1).len() && 0 <= v < teams@.take(
                            t as int + 1,
                        )[w]@.len() && #[trigger] teams@.take(t as int + 1)[w]@[v] == id;
                    if w < t as int {
                        assert(teams@.take(t as int)[w]@[v] == id);
                        assert(teams_contain(teams@.take(t as int), id));
                    } else {
                        assert(teams@[t as int]@[v] == id);
                    }
                }
                assert forall|id: EntryId|
                    #[trigger] spec_has_entry(old(self).entries_of(), id) && !teams_contain(
                        teams@.take(t as int + 1),
                        id,
                    ) implies spec_has_entry(self.entries_of(), id) by {
                    assert(!teams_contain(teams@.take(t as int), id)) by {
                        if teams_contain(teams@.take(t as int), id) {
                            let (w, v) = choose|w: int, v: int|
                                0 <= w < teams@.take(t as int).len() && 0 <= v < teams@.take(
                                    t as int,
                                )[w]@.len() && #[trigger] teams@.take(t as int)[w]@[v] == id;
                            assert(teams@.take(t as int + 1)[w]@[v] == id);
                            assert(teams_contain(teams@.take(t as int + 1), id));
                        }
                    }
                    assert forall|v: int|
                        0 <= v < team@.len() implies #[trigger] teams@[t as int]@[v] != id by {
                        if teams@[t as int]@[v] == id {
                            assert(teams@.take(t as int + 1)[t as int]@[v] == id);
                            assert(teams_contain(teams@.take(t as int + 1), id));
                        }
                    }
                }
            }
            t = t + 1;
        }
        proof {
            assert(teams@.take(teams@.len() as int) =~= teams@);
        }
        deliver_all(senders, &teams_entries, &game);
    }
}

/// Fulfils each collected handle, all with one and the same payload: the
/// matched teams with the located game, or the locator's error.
fn deliver_all(senders: Vec<ResultSender>, teams_entries: &Vec<Vec<Entry>>, game: &Result<
    Game,
    String,
>) {
    let mut rest = senders;
    loop
        decreases rest@.len(),
    {
        match rest.pop() {
            Some(tx) => {
                match game {
                    Ok(g) => send_result(
                        tx,
                        Ok(QueueResult::new(teams_entries.clone(), g.clone())),
                    ),
                    Err(m) => send_result(tx, Err(m.clone())),
                }
            },
            None => {
                break ;
            },
        }
    }
}

/// Polls a result handle without waiting: the value already delivered, if
/// any.  Nothing can be promised of the outcome — it depends on what the
/// queue has done meanwhile.
pub fn try_take_result(receiver: &mut ResultReceiver) -> Option<Delivery> {
    recv_ready(receiver)
}

} // verus!
