//! The rating-based matcher: pairs the two waiting entries whose ratings are
//! closest, within a window that widens with waiting time.

use vstd::prelude::*;
use crate::clock::now_seconds;
use crate::entry::{Entry, EntryId};
use crate::flexible::teams_view;
use crate::matchmaker::MatchmakerResult;

verus! {

/// The persisted configuration of a rating matcher.  Entries are transient
/// and are not part of it.  The scaling factor is the number of rating
/// points the acceptable window grows per second queued.
#[derive(Clone, Copy, Debug, PartialEq, Eq, Structural)]
pub struct EloSettings {
    pub scaling_factor: u64,
    pub team_size: i64,
    pub max_skill_diff: i64,
}

/// A configuration is valid when the team size is positive and the rating
/// cap is non-negative.
pub open spec fn elo_config_valid(s: EloSettings) -> bool {
    &&& 1 <= s.team_size
    &&& 0 <= s.max_skill_diff
}

/// The matcher: its configuration, the waiting entries in admission order,
/// and an index of entry ids keyed by rating in ascending rating order.
pub struct EloMatchmaker {
    pub scaling_factor: u64,
    pub team_size: i64,
    pub max_skill_diff: i64,
    pub entries: Vec<Entry>,
    pub elo_index: Vec<(i64, Vec<EntryId>)>,
}

/// The rating an entry was admitted with.
pub open spec fn rating_of(e: Entry) -> int {
    e.elo->0 as int
}

/// The absolute difference of two ratings.
pub open spec fn abs_diff(a: int, b: int) -> int {
    if a >= b {
        a - b
    } else {
        b - a
    }
}

/// The ids of the entries of `es` admitted with rating `r`, in admission
/// order.
pub open spec fn elo_ids(es: Seq<Entry>, r: int) -> Seq<EntryId>
    decreases es.len(),
{
    if es.len() == 0 {
        Seq::empty()
    } else {
        (if es[0].elo is Some && rating_of(es[0]) == r {
            seq![es[0].id]
        } else {
            Seq::empty()
        }) + elo_ids(es.drop_first(), r)
    }
}

/// The id list stored in the first index bucket keyed `r`, or empty.
pub open spec fn rating_ids(ix: Seq<(i64, Vec<EntryId>)>, r: int) -> Seq<EntryId>
    decreases ix.len(),
{
    if ix.len() == 0 {
        Seq::empty()
    } else if ix[0].0 == r {
        ix[0].1@
    } else {
        rating_ids(ix.drop_first(), r)
    }
}

/// Whether some index bucket is keyed `r`.
pub open spec fn rating_has(ix: Seq<(i64, Vec<EntryId>)>, r: int) -> bool
    decreases ix.len(),
{
    if ix.len() == 0 {
        false
    } else {
        ix[0].0 == r || rating_has(ix.drop_first(), r)
    }
}

/// The first id of `ids` other than `me`, if any.
pub open spec fn first_other(ids: Seq<EntryId>, me: EntryId) -> Option<EntryId>
    decreases ids.len(),
{
    if ids.len() == 0 {
        None
    } else if ids[0] != me {
        Some(ids[0])
    } else {
        first_other(ids.drop_first(), me)
    }
}

/// One step of the candidate scan: bucket `b` displaces the best candidate
/// found so far when its rating lies in the window, respects the cap, is
/// strictly closer, and holds an id other than `me`.
pub open spec fn scan_step(
    b: (i64, Vec<EntryId>),
    me: EntryId,
    r: int,
    delta: int,
    maxd: int,
    best: Option<(int, EntryId)>,
) -> Option<(int, EntryId)> {
    let d = abs_diff(b.0 as int, r);
    let improves = (match best {
        Option::None => true,
        Option::Some(q) => d < q.0,
    });
    if d <= delta && d <= maxd && improves {
        match first_other(b.1@, me) {
            Some(id) => Some((d, id)),
            None => best,
        }
    } else {
        best
    }
}

/// The candidate scan over the rating index, in ascending rating order,
/// carrying the best candidate found so far.
pub open spec fn scan_index(
    ix: Seq<(i64, Vec<EntryId>)>,
    me: EntryId,
    r: int,
    delta: int,
    maxd: int,
    best: Option<(int, EntryId)>,
) -> Option<(int, EntryId)>
    decreases ix.len(),
{
    if ix.len() == 0 {
        best
    } else {
        scan_index(ix.drop_first(), me, r, delta, maxd, scan_step(ix[0], me, r, delta, maxd, best))
    }
}

impl EloMatchmaker {
    /// The matcher's configuration.
    pub open spec fn config(self) -> EloSettings {
        EloSettings {
            scaling_factor: self.scaling_factor,
            team_size: self.team_size,
            max_skill_diff: self.max_skill_diff,
        }
    }

    /// How far, at instant `now`, entry `e`'s window has grown.
    pub open spec fn window_of(self, e: Entry, now: u64) -> int {
        if now >= e.time_queued {
            (now - e.time_queued) * self.scaling_factor
        } else {
            0
        }
    }

    /// The best opponent for entry `e` at instant `now`, with its rating
    /// distance.
    pub open spec fn candidate_for(self, e: Entry, now: u64) -> Option<(int, EntryId)> {
        scan_index(
            self.elo_index@,
            e.id,
            rating_of(e),
            self.window_of(e, now),
            self.max_skill_diff as int,
            None,
        )
    }

    /// The attempt outcome from seed position `t` on: the first waiting
    /// entry with a candidate is paired with it.
    pub open spec fn attempt_from(self, now: u64, t: int) -> Option<(EntryId, EntryId)>
        decreases self.entries@.len() - t,
    {
        if t < 0 || t >= self.entries@.len() {
            None
        } else {
            match self.candidate_for(self.entries@[t], now) {
                Some(p) => Some((self.entries@[t].id, p.1)),
                None => self.attempt_from(now, t + 1),
            }
        }
    }

    /// What one attempt at instant `now` must return: the first pair found,
    /// as two teams of one entry each, or a skip when no seed has a
    /// candidate.
    pub open spec fn attempt_outcome(self, now: u64, r: MatchmakerResult) -> bool {
        match self.attempt_from(now, 0) {
            None => r matches MatchmakerResult::Skip(m) && m@ == "No teams found"@,
            Some(pair) => r matches MatchmakerResult::Matched(ts) && teams_view(ts@) == seq![
                seq![pair.0],
                seq![pair.1],
            ],
        }
    }

    /// Well-formedness: a valid configuration, unique entry ids, every entry
    /// of the configured team size and rated, and a rating index in strictly
    /// ascending key order that mirrors the entries exactly.
    pub open spec fn wf(self) -> bool {
        &&& elo_config_valid(self.config())
        &&& forall|i: int, j: int|
            0 <= i < j < self.entries@.len() ==> (#[trigger] self.entries@[i]).id != (
            #[trigger] self.entries@[j]).id
        &&& forall|i: int|
            0 <= i < self.entries@.len() ==> (#[trigger] self.entries@[i]).players@.len()
                == self.team_size
        &&& forall|i: int| 0 <= i < self.entries@.len() ==> (#[trigger] self.entries@[i]).elo is Some
        &&& forall|i: int, j: int|
            0 <= i < j < self.elo_index@.len() ==> (#[trigger] self.elo_index@[i]).0 < (
            #[trigger] self.elo_index@[j]).0
        &&& forall|i: int|
            0 <= i < self.elo_index@.len() ==> (#[trigger] self.elo_index@[i]).1@ == elo_ids(
                self.entries@,
                self.elo_index@[i].0 as int,
            )
        &&& forall|i: int|
            0 <= i < self.entries@.len() ==> rating_has(
                self.elo_index@,
                rating_of(#[trigger] self.entries@[i]),
            )
    }
}

pub proof fn lemma_elo_ids_concat(a: Seq<Entry>, b: Seq<Entry>, r: int)
    ensures
        elo_ids(a + b, r) == elo_ids(a, r) + elo_ids(b, r),
    decreases a.len(),
{
    if a.len() == 0 {
        assert(a + b =~= b);
        assert(elo_ids(a, r) + elo_ids(b, r) =~= elo_ids(b, r));
    } else {
        assert((a + b).drop_first() =~= a.drop_first() + b);
        assert((a + b)[0] == a[0]);
        lemma_elo_ids_concat(a.drop_first(), b, r);
        assert((if a[0].elo is Some && rating_of(a[0]) == r {
            seq![a[0].id]
        } else {
            Seq::<EntryId>::empty()
        }) + (elo_ids(a.drop_first(), r) + elo_ids(b, r)) =~= elo_ids(a, r) + elo_ids(b, r));
    }
}

/// Cutting an entry list at position `i` splits its rating index
/// accordingly.
pub proof fn lemma_elo_ids_split(es: Seq<Entry>, i: int, r: int)
    requires
        0 <= i < es.len(),
    ensures
        elo_ids(es, r) == elo_ids(es.take(i), r) + (if es[i].elo is Some && rating_of(es[i])
            == r {
            seq![es[i].id]
        } else {
            Seq::<EntryId>::empty()
        }) + elo_ids(es.skip(i + 1), r),
        elo_ids(es.remove(i), r) == elo_ids(es.take(i), r) + elo_ids(es.skip(i + 1), r),
{
    assert(es =~= (es.take(i) + seq![es[i]]) + es.skip(i + 1));
    lemma_elo_ids_concat(es.take(i) + seq![es[i]], es.skip(i + 1), r);
    lemma_elo_ids_concat(es.take(i), seq![es[i]], r);
    assert(seq![es[i]].drop_first() =~= Seq::<Entry>::empty());
    assert(elo_ids(Seq::<Entry>::empty(), r) =~= Seq::<EntryId>::empty());
    assert(elo_ids(seq![es[i]], r) =~= (if es[i].elo is Some && rating_of(es[i]) == r {
        seq![es[i].id]
    } else {
        Seq::<EntryId>::empty()
    }));
    assert(es.remove(i) =~= es.take(i) + es.skip(i + 1));
    lemma_elo_ids_concat(es.take(i), es.skip(i + 1), r);
}

pub proof fn lemma_elo_ids_push(es: Seq<Entry>, e: Entry, r: int)
    ensures
        elo_ids(es.push(e), r) == elo_ids(es, r) + (if e.elo is Some && rating_of(e) == r {
            seq![e.id]
        } else {
            Seq::<EntryId>::empty()
        }),
{
    assert(es.push(e) =~= es + seq![e]);
    lemma_elo_ids_concat(es, seq![e], r);
    assert(seq![e].drop_first() =~= Seq::<Entry>::empty());
    assert(elo_ids(Seq::<Entry>::empty(), r) =~= Seq::<EntryId>::empty());
    assert(elo_ids(seq![e], r) =~= (if e.elo is Some && rating_of(e) == r {
        seq![e.id]
    } else {
        Seq::<EntryId>::empty()
    }));
}

/// Every id the rating index lists belongs to an entry of that rating.
pub proof fn lemma_elo_ids_member(es: Seq<Entry>, r: int, l: int)
    requires
        0 <= l < elo_ids(es, r).len(),
    ensures
        exists|i: int|
            0 <= i < es.len() && (#[trigger] es[i]).id == elo_ids(es, r)[l] && es[i].elo is Some
                && rating_of(es[i]) == r,
    decreases es.len(),
{
    if es.len() > 0 {
        let head = (if es[0].elo is Some && rating_of(es[0]) == r {
            seq![es[0].id]
        } else {
            Seq::<EntryId>::empty()
        });
        if l < head.len() {
            assert(es[0].id == elo_ids(es, r)[l]);
        } else {
            lemma_elo_ids_member(es.drop_first(), r, l - head.len());
            let i = choose|i: int|
                0 <= i < es.drop_first().len() && (#[trigger] es.drop_first()[i]).id == elo_ids(
                    es.drop_first(),
                    r,
                )[l - head.len()] && es.drop_first()[i].elo is Some && rating_of(
                    es.drop_first()[i],
                ) == r;
            assert(es[i + 1] == es.drop_first()[i]);
        }
    }
}

/// If the index keys before position `j` all differ from `r`, the lookup is
/// decided by the buckets from `j` on.
pub proof fn lemma_rating_ids_skip(ix: Seq<(i64, Vec<EntryId>)>, r: int, j: int)
    requires
        0 <= j <= ix.len(),
        forall|l: int| 0 <= l < j ==> (#[trigger] ix[l]).0 != r,
    ensures
        rating_ids(ix, r) == rating_ids(ix.skip(j), r),
        rating_has(ix, r) == rating_has(ix.skip(j), r),
    decreases j,
{
    if j > 0 {
        assert(ix.skip(1) =~= ix.drop_first());
        assert(forall|l: int|
            0 <= l < j - 1 ==> (#[trigger] ix.drop_first()[l]).0 == ix[l + 1].0);
        lemma_rating_ids_skip(ix.drop_first(), r, j - 1);
        assert(ix.drop_first().skip(j - 1) =~= ix.skip(j));
    } else {
        assert(ix.skip(0) =~= ix);
    }
}

/// A rating key is present exactly when some bucket carries it.
pub proof fn lemma_rating_has_index(ix: Seq<(i64, Vec<EntryId>)>, r: int)
    ensures
        rating_has(ix, r) <==> exists|i: int| 0 <= i < ix.len() && (#[trigger] ix[i]).0 == r,
    decreases ix.len(),
{
    if ix.len() > 0 {
        lemma_rating_has_index(ix.drop_first(), r);
        if ix[0].0 == r {
        } else if rating_has(ix.drop_first(), r) {
            let i = choose|i: int|
                0 <= i < ix.drop_first().len() && (#[trigger] ix.drop_first()[i]).0 == r;
            assert(ix[i + 1].0 == r);
        } else {
            assert(forall|i: int|
                0 < i < ix.len() ==> (#[trigger] ix[i]).0 == ix.drop_first()[i - 1].0);
        }
    }
}

/// Replacing the id list of one index bucket moves only that bucket's
/// lookup.
pub proof fn lemma_rating_update(
    ix: Seq<(i64, Vec<EntryId>)>,
    b: int,
    nb: (i64, Vec<EntryId>),
    r: int,
)
    requires
        forall|i: int, j: int|
            0 <= i < j < ix.len() ==> (#[trigger] ix[i]).0 != (#[trigger] ix[j]).0,
        0 <= b < ix.len(),
        nb.0 == ix[b].0,
    ensures
        rating_has(ix.update(b, nb), r) == rating_has(ix, r),
        r == nb.0 as int ==> rating_ids(ix.update(b, nb), r) == nb.1@,
        r != nb.0 as int ==> rating_ids(ix.update(b, nb), r) == rating_ids(ix, r),
    decreases b,
{
    let nv = ix.update(b, nb);
    if b == 0 {
        assert(nv.drop_first() =~= ix.drop_first());
    } else {
        assert(nv[0] == ix[0]);
        assert(ix[0].0 != ix[b].0);
        assert(forall|i: int, j: int|
            0 <= i < j < ix.drop_first().len() ==> (#[trigger] ix.drop_first()[i]).0 != (
            #[trigger] ix.drop_first()[j]).0) by {
            assert(forall|i: int|
                0 <= i < ix.drop_first().len() ==> ix.drop_first()[i] == ix[i + 1]);
        }
        assert(nv.drop_first() =~= ix.drop_first().update(b - 1, nb));
        assert(ix.drop_first()[b - 1] == ix[b]);
        lemma_rating_update(ix.drop_first(), b - 1, nb, r);
    }
}

/// Inserting a bucket under a fresh rating changes only that rating's
/// lookup.
pub proof fn lemma_rating_insert(
    ix: Seq<(i64, Vec<EntryId>)>,
    p: int,
    nb: (i64, Vec<EntryId>),
    r: int,
)
    requires
        0 <= p <= ix.len(),
        !rating_has(ix, nb.0 as int),
    ensures
        rating_has(ix.insert(p, nb), r) == (rating_has(ix, r) || r == nb.0 as int),
        r == nb.0 as int ==> rating_ids(ix.insert(p, nb), r) == nb.1@,
        r != nb.0 as int ==> rating_ids(ix.insert(p, nb), r) == rating_ids(ix, r),
    decreases p,
{
    let nv = ix.insert(p, nb);
    if p == 0 {
        assert(nv.drop_first() =~= ix);
        assert(nv[0] == nb);
    } else {
        assert(nv[0] == ix[0]);
        assert(nv.drop_first() =~= ix.drop_first().insert(p - 1, nb));
        lemma_rating_insert(ix.drop_first(), p - 1, nb, r);
    }
}

/// A found opponent is a listed id other than the seeker.
pub proof fn lemma_first_other_member(ids: Seq<EntryId>, me: EntryId)
    requires
        first_other(ids, me) is Some,
    ensures
        ids.contains(first_other(ids, me)->0),
        first_other(ids, me)->0 != me,
    decreases ids.len(),
{
    if ids.len() > 0 && ids[0] == me {
        lemma_first_other_member(ids.drop_first(), me);
        let w = choose|w: int|
            0 <= w < ids.drop_first().len() && ids.drop_first()[w] == first_other(ids, me)->0;
        assert(ids[w + 1] == first_other(ids, me)->0);
    }
}

/// Whatever the scan returns, unless it inherited the running best, it is an
/// id from some index bucket, other than the seeker, whose rating distance
/// respects both the window and the cap.
pub proof fn lemma_scan_member(
    ix: Seq<(i64, Vec<EntryId>)>,
    me: EntryId,
    r: int,
    delta: int,
    maxd: int,
    best: Option<(int, EntryId)>,
)
    requires
        scan_index(ix, me, r, delta, maxd, best) is Some,
    ensures
        ({
            let p = scan_index(ix, me, r, delta, maxd, best)->0;
            (best == Some(p)) || (p.0 <= maxd && p.0 <= delta && 0 <= p.0 && p.1 != me
                && exists|i: int|
                0 <= i < ix.len() && abs_diff((#[trigger] ix[i]).0 as int, r) == p.0 && ix[
                i].1@.contains(p.1))
        }),
    decreases ix.len(),
{
    if ix.len() > 0 {
        let p = scan_index(ix, me, r, delta, maxd, best)->0;
        let best2 = scan_step(ix[0], me, r, delta, maxd, best);
        lemma_scan_member(ix.drop_first(), me, r, delta, maxd, best2);
        if best2 == Some(p) && best != Some(p) {
            lemma_first_other_member(ix[0].1@, me);
            assert(abs_diff(ix[0].0 as int, r) == p.0 && ix[0].1@.contains(p.1));
        } else if best2 != Some(p) {
            let i = choose|i: int|
                0 <= i < ix.drop_first().len() && abs_diff(
                    (#[trigger] ix.drop_first()[i]).0 as int,
                    r,
                ) == p.0 && ix.drop_first()[i].1@.contains(p.1);
            assert(ix[i + 1] == ix.drop_first()[i]);
        }
    }
}

/// The first id of `ids` other than `me`, if any.
fn first_other_in(ids: &Vec<EntryId>, me: &EntryId) -> (r: Option<EntryId>)
    ensures
        r == first_other(ids@, *me),
{
    let mut l: usize = 0;
    proof {
        assert(ids@.skip(0) =~= ids@);
    }
    while l < ids.len()
        invariant
            l <= ids@.len(),
            first_other(ids@, *me) == first_other(ids@.skip(l as int), *me),
        decreases ids@.len() - l,
    {
        if ids[l] != *me {
            proof {
                assert(ids@.skip(l as int)[0] == ids@[l as int]);
            }
            return Some(ids[l]);
        }
        proof {
            assert(ids@.skip(l as int).drop_first() =~= ids@.skip(l as int + 1));
        }
        l = l + 1;
    }
    proof {
        assert(ids@.skip(ids@.len() as int) =~= Seq::<EntryId>::empty());
    }
    None
}

impl EloMatchmaker {
    /// Builds a matcher with an empty pool.  Construction succeeds exactly
    /// on valid configurations.
    pub fn new(scaling_factor: u64, team_size: i64, max_skill_diff: i64) -> (r: Result<
        EloMatchmaker,
        String,
    >)
        ensures
            ({
                let cfg = EloSettings { scaling_factor, team_size, max_skill_diff };
                match r {
                    Ok(m) => {
                        &&& elo_config_valid(cfg)
                        &&& m.wf()
                        &&& m.config() == cfg
                        &&& m.entries@.len() == 0
                        &&& m.elo_index@.len() == 0
                    },
                    Err(_) => !elo_config_valid(cfg),
                }
            }),
    {
        if team_size < 1 {
            return Err("teamSize must be a positive integer".to_owned());
        }
        if max_skill_diff < 0 {
            return Err("maxSkillDiff must not be negative".to_owned());
        }
        Ok(
            EloMatchmaker {
                scaling_factor,
                team_size,
                max_skill_diff,
                entries: Vec::new(),
                elo_index: Vec::new(),
            },
        )
    }

    /// The constant name of this algorithm.
    pub fn get_type_name(&self) -> (r: String)
        ensures
            r@ == "elo"@,
    {
        "elo".to_owned()
    }

    /// The configuration, ready to be persisted.  Entries are not part of
    /// it.
    pub fn serialize(&self) -> (r: EloSettings)
        ensures
            r == self.config(),
    {
        EloSettings {
            scaling_factor: self.scaling_factor,
            team_size: self.team_size,
            max_skill_diff: self.max_skill_diff,
        }
    }

    /// Rebuilds a matcher from a persisted configuration; the entry pool
    /// starts empty.  Succeeds exactly on valid configurations.
    pub fn deserialize(value: EloSettings) -> (r: Result<EloMatchmaker, String>)
        ensures
            match r {
                Ok(m) => {
                    &&& elo_config_valid(value)
                    &&& m.wf()
                    &&& m.config() == value
                    &&& m.entries@.len() == 0
                    &&& m.elo_index@.len() == 0
                },
                Err(_) => !elo_config_valid(value),
            },
    {
        EloMatchmaker::new(value.scaling_factor, value.team_size, value.max_skill_diff)
    }

    /// Admits an entry: its party must have exactly the configured team
    /// size and carry a rating, and its id must be new.  The entry is
    /// appended to the pool and its id filed under its rating.
    pub fn add_entry(&mut self, entry: Entry) -> (r: Result<(), String>)
        requires
            old(self).wf(),
        ensures
            final(self).wf(),
            final(self).config() == old(self).config(),
            ({
                if entry.players@.len() != old(self).team_size as int {
                    &&& r is Err
                    &&& *final(self) == *old(self)
                } else if !(entry.elo is Some) {
                    &&& r is Err
                    &&& *final(self) == *old(self)
                } else if crate::flexible::spec_has_entry(old(self).entries@, entry.id) {
                    &&& r is Err
                    &&& *final(self) == *old(self)
                } else {
                    &&& r is Ok
                    &&& final(self).entries@ == old(self).entries@.push(entry)
                }
            }),
    {
        if entry.players.len() as u64 != self.team_size as u64 {
            return Err("Entry has wrong team size".to_owned());
        }
        let elo_v = match entry.elo {
            Some(v) => v,
            None => {
                return Err("Entry has no elo".to_owned());
            },
        };
        let mut j: usize = 0;
        let mut dup = false;
        while j < self.entries.len()
            invariant
                j <= self.entries@.len(),
                dup == exists|l: int|
                    0 <= l < j && (#[trigger] self.entries@[l]).id == entry.id,
            decreases self.entries@.len() - j,
        {
            if self.entries[j].id == entry.id {
                dup = true;
            }
            j = j + 1;
        }
        if dup {
            return Err("Entry already exists with that id".to_owned());
        }
        let ghost es0 = self.entries@;
        let ghost ix0 = self.elo_index@;
        let ghost eid = entry.id;
        let ghost rr = elo_v as int;
        // find the insertion point in the ascending rating index
        let mut p: usize = 0;
        while p < self.elo_index.len() && self.elo_index[p].0 < elo_v
            invariant
                p <= self.elo_index@.len(),
                ix0 == self.elo_index@,
                forall|l: int| 0 <= l < p ==> (#[trigger] ix0[l]).0 < elo_v,
            decreases self.elo_index@.len() - p,
        {
            p = p + 1;
        }
        if p < self.elo_index.len() && self.elo_index[p].0 == elo_v {
            let mut bucket = self.elo_index.remove(p);
            bucket.1.push(entry.id);
            self.elo_index.insert(p, bucket);
            proof {
                assert(self.elo_index@ =~= ix0.update(
                    p as int,
                    (elo_v, self.elo_index@[p as int].1),
                ));
            }
        } else {
            proof {
                assert(forall|l: int| p <= l < ix0.len() ==> (#[trigger] ix0[l]).0 > elo_v) by {
                    assert(forall|l: int|
                        p < l < ix0.len() ==> ix0[p as int].0 < (#[trigger] ix0[l]).0);
                }
                lemma_rating_has_index(ix0, rr);
            }
            let fresh: Vec<EntryId> = vec![entry.id];
            self.elo_index.insert(p, (elo_v, fresh));
        }
        self.entries.push(entry);
        proof {
            let es1 = self.entries@;
            let ix1 = self.elo_index@;
            assert(es1 == es0.push(entry));
            assert forall|i: int, j2: int| 0 <= i < j2 < es1.len() implies (
            #[trigger] es1[i]).id != (#[trigger] es1[j2]).id by {
                if j2 < es0.len() {
                    assert(es1[i] == es0[i] && es1[j2] == es0[j2]);
                } else {
                    assert(es1[i] == es0[i] && es1[j2] == entry);
                    assert(!(exists|l: int|
                        0 <= l < es0.len() && (#[trigger] es0[l]).id == entry.id));
                }
            }
            if p < ix0.len() && ix0[p as int].0 == elo_v {
                // an existing rating bucket was extended in place
                assert forall|i: int, j2: int| 0 <= i < j2 < ix1.len() implies (
                #[trigger] ix1[i]).0 < (#[trigger] ix1[j2]).0 by {
                    assert(ix1[i].0 == ix0[i].0 && ix1[j2].0 == ix0[j2].0);
                }
                assert forall|i: int| 0 <= i < ix1.len() implies (#[trigger] ix1[i]).1@
                    == elo_ids(es1, ix1[i].0 as int) by {
                    lemma_elo_ids_push(es0, entry, ix1[i].0 as int);
                    if i == p as int {
                        assert(ix1[i].1@ == ix0[i].1@.push(eid));
                    } else {
                        assert(ix1[i] == ix0[i]);
                        assert(ix0[i].0 != elo_v) by {
                            if i < p as int {
                                assert(ix0[i].0 < elo_v);
                            } else {
                                assert(ix0[p as int].0 < ix0[i].0);
                            }
                        }
                    }
                }
                assert forall|i: int| 0 <= i < es1.len() implies rating_has(
                    ix1,
                    rating_of(#[trigger] es1[i]),
                ) by {
                    lemma_rating_has_index(ix0, rating_of(es1[i]));
                    lemma_rating_has_index(ix1, rating_of(es1[i]));
                    if i < es0.len() {
                        let w = choose|w: int|
                            0 <= w < ix0.len() && (#[trigger] ix0[w]).0 == rating_of(es0[i]);
                        assert(ix1[w].0 == ix0[w].0);
                    } else {
                        assert(ix1[p as int].0 == elo_v);
                    }
                }
            } else {
                // a fresh bucket was inserted, keeping ratings ascending
                assert(ix1 =~= ix0.insert(p as int, (elo_v, ix1[p as int].1)));
                assert(ix1[p as int].1@ =~= seq![eid]);
                assert(!rating_has(ix0, rr));
                assert forall|i: int, j2: int| 0 <= i < j2 < ix1.len() implies (
                #[trigger] ix1[i]).0 < (#[trigger] ix1[j2]).0 by {
                    let i0: int = if i < p as int {
                        i
                    } else {
                        i - 1
                    };
                    let j0: int = if j2 < p as int {
                        j2
                    } else {
                        j2 - 1
                    };
                    if i != p as int && j2 != p as int {
                        assert(ix1[i].0 == ix0[i0].0 && ix1[j2].0 == ix0[j0].0);
                    } else if i == p as int {
                        assert(ix1[j2].0 == ix0[j0].0);
                        assert(ix0[j0].0 > elo_v) by {
                            if j0 > p as int {
                                assert(ix0[p as int].0 < ix0[j0].0);
                            }
                        }
                    } else {
                        assert(ix1[i].0 == ix0[i0].0);
                        assert(ix0[i0].0 < elo_v);
                    }
                }
                assert(elo_ids(es0, rr).len() == 0) by {
                    if elo_ids(es0, rr).len() > 0 {
                        lemma_elo_ids_member(es0, rr, 0);
                        let w = choose|w: int|
                            0 <= w < es0.len() && (#[trigger] es0[w]).id == elo_ids(es0, rr)[0]
                                && es0[w].elo is Some && rating_of(es0[w]) == rr;
                        assert(rating_has(ix0, rating_of(es0[w])));
                        assert(false);
                    }
                }
                assert forall|i: int| 0 <= i < ix1.len() implies (#[trigger] ix1[i]).1@
                    == elo_ids(es1, ix1[i].0 as int) by {
                    lemma_elo_ids_push(es0, entry, ix1[i].0 as int);
                    lemma_rating_insert(ix0, p as int, (elo_v, ix1[p as int].1), ix1[i].0 as int);
                    if i == p as int {
                        assert(elo_ids(es1, rr) =~= seq![eid]);
                    } else {
                        let i0: int = if i < p as int {
                            i
                        } else {
                            i - 1
                        };
                        assert(ix1[i] == ix0[i0]);
                        assert(ix0[i0].0 != elo_v) by {
                            lemma_rating_has_index(ix0, rr);
                        }
                    }
                }
                assert forall|i: int| 0 <= i < es1.len() implies rating_has(
                    ix1,
                    rating_of(#[trigger] es1[i]),
                ) by {
                    lemma_rating_has_index(ix0, rating_of(es1[i]));
                    lemma_rating_has_index(ix1, rating_of(es1[i]));
                    if i < es0.len() {
                        let w = choose|w: int|
                            0 <= w < ix0.len() && (#[trigger] ix0[w]).0 == rating_of(es0[i]);
                        let w1: int = if w < p as int {
                            w
                        } else {
                            w + 1
                        };
                        assert(ix1[w1].0 == ix0[w].0);
                    } else {
                        assert(ix1[p as int].0 == elo_v);
                    }
                }
            }
        }
        Ok(())
    }

    /// Withdraws the entry carrying `entry_id`, cleaning the rating index,
    /// and returns it; absent ids are reported as an error.
    pub fn remove_entry(&mut self, entry_id: &EntryId) -> (r: Result<Entry, String>)
        requires
            old(self).wf(),
        ensures
            final(self).wf(),
            final(self).config() == old(self).config(),
            (if crate::flexible::spec_has_entry(old(self).entries@, *entry_id) {
                let i = crate::flexible::index_of_id(old(self).entries@, *entry_id);
                &&& (r matches Ok(e) && e == old(self).entries@[i])
                &&& final(self).entries@ == old(self).entries@.remove(i)
            } else {
                &&& r is Err
                &&& final(self).entries@ == old(self).entries@
                &&& final(self).elo_index@ == old(self).elo_index@
            }),
    {
        let mut idx: usize = 0;
        let mut found = false;
        while idx < self.entries.len() && !found
            invariant
                idx <= self.entries@.len(),
                !found ==> forall|l: int|
                    0 <= l < idx ==> (#[trigger] self.entries@[l]).id != entry_id,
                found ==> 0 < idx <= self.entries@.len() && self.entries@[idx as int - 1].id
                    == entry_id,
            decreases self.entries@.len() - idx,
    {
            if self.entries[idx].id == *entry_id {
                found = true;
            }
            idx = idx + 1;
        }
        if !found {
            return Err("Entry not found".to_owned());
        }
        let idx = idx - 1;
        let ghost es0 = self.entries@;
        let ghost ix0 = self.elo_index@;
        proof {
            assert(es0[idx as int].id == *entry_id);
            assert(crate::flexible::index_of_id(es0, *entry_id) == idx as int) by {
                let w = crate::flexible::index_of_id(es0, *entry_id);
                assert(es0[w].id == *entry_id);
            }
        }
        let e = self.entries.remove(idx);
        let elo_v = match e.elo {
            Some(v) => v,
            None => {
                proof {
                    assert(false);
                }
                vstd::pervasive::unreached()
            },
        };
        let ghost eid = e.id;
        let ghost rr = elo_v as int;
        let mut b: usize = 0;
        while b < self.elo_index.len() && self.elo_index[b].0 != elo_v
            invariant
                b <= self.elo_index@.len(),
                ix0 == self.elo_index@,
                forall|l: int| 0 <= l < b ==> (#[trigger] ix0[l]).0 != elo_v,
            decreases self.elo_index@.len() - b,
    {
            b = b + 1;
        }
        if b >= self.elo_index.len() {
            proof {
                lemma_rating_has_index(ix0, rr);
                assert(rating_has(ix0, rating_of(es0[idx as int])));
                assert(false);
            }
            return vstd::pervasive::unreached();
        }
        let mut bucket = self.elo_index.remove(b);
        let ghost hole = elo_ids(es0.take(idx as int), rr);
        let ghost tail_ids = elo_ids(es0.skip(idx as int + 1), rr);
        proof {
            lemma_rating_ids_skip(ix0, rr, b as int);
            assert(ix0.skip(b as int)[0] == ix0[b as int]);
            assert(bucket.1@ == elo_ids(es0, rr));
            lemma_elo_ids_split(es0, idx as int, rr);
            assert(bucket.1@ == hole + seq![eid] + tail_ids);
            assert forall|l: int| 0 <= l < hole.len() implies hole[l] != eid by {
                lemma_elo_ids_member(es0.take(idx as int), rr, l);
                let w = choose|w: int|
                    0 <= w < es0.take(idx as int).len() && (#[trigger] es0.take(idx as int)[
                    w]).id == hole[l] && es0.take(idx as int)[w].elo is Some && rating_of(
                        es0.take(idx as int)[w],
                    ) == rr;
                assert(es0[w] == es0.take(idx as int)[w]);
            }
            assert(bucket.1@[hole.len() as int] == eid);
        }
        let mut q: usize = 0;
        while q < bucket.1.len() && bucket.1[q] != *entry_id
            invariant
                q <= bucket.1@.len(),
                bucket.1@ == hole + seq![eid] + tail_ids,
                eid == *entry_id,
                forall|l: int| 0 <= l < q ==> bucket.1@[l] != eid,
            decreases bucket.1@.len() - q,
    {
            q = q + 1;
        }
        proof {
            assert(q as int == hole.len());
        }
        bucket.1.remove(q);
        self.elo_index.insert(b, bucket);
        proof {
            let es1 = self.entries@;
            let ix1 = self.elo_index@;
            assert(es1 == es0.remove(idx as int));
            assert(bucket.1@ =~= hole + tail_ids);
            assert(ix1 =~= ix0.update(b as int, (ix0[b as int].0, bucket.1)));
            assert forall|i: int, j: int| 0 <= i < j < es1.len() implies (
            #[trigger] es1[i]).id != (#[trigger] es1[j]).id by {
                let i0: int = if i < idx as int {
                    i
                } else {
                    i + 1
                };
                let j0: int = if j < idx as int {
                    j
                } else {
                    j + 1
                };
                assert(es1[i] == es0[i0] && es1[j] == es0[j0]);
            }
            assert forall|i: int| 0 <= i < es1.len() implies (#[trigger] es1[i]).players@.len()
                == self.team_size && (#[trigger] es1[i]).elo is Some by {
                let i0: int = if i < idx as int {
                    i
                } else {
                    i + 1
                };
                assert(es1[i] == es0[i0]);
            }
            assert forall|i: int, j: int| 0 <= i < j < ix1.len() implies (
            #[trigger] ix1[i]).0 < (#[trigger] ix1[j]).0 by {
                assert(ix1[i].0 == ix0[i].0 && ix1[j].0 == ix0[j].0);
            }
            assert forall|i: int| 0 <= i < ix1.len() implies (#[trigger] ix1[i]).1@ == elo_ids(
                es1,
                ix1[i].0 as int,
            ) by {
                lemma_elo_ids_split(es0, idx as int, ix1[i].0 as int);
                if i == b as int {
                    assert(ix1[i].1@ == hole + tail_ids);
                } else {
                    assert(ix1[i] == ix0[i]);
                    assert(ix0[i].0 != elo_v);
                }
            }
            assert forall|i: int| 0 <= i < es1.len() implies rating_has(
                ix1,
                rating_of(#[trigger] es1[i]),
            ) by {
                let i0: int = if i < idx as int {
                    i
                } else {
                    i + 1
                };
                assert(es1[i] == es0[i0]);
                lemma_rating_has_index(ix0, rating_of(es0[i0]));
                lemma_rating_has_index(ix1, rating_of(es0[i0]));
                let w = choose|w: int|
                    0 <= w < ix0.len() && (#[trigger] ix0[w]).0 == rating_of(es0[i0]);
                assert(ix1[w].0 == ix0[w].0);
            }
        }
        Ok(e)
    }

    /// Drains every entry, returning them in admission order; the rating
    /// index is cleared with them.
    pub fn remove_all(&mut self) -> (r: Vec<Entry>)
        requires
            old(self).wf(),
        ensures
            final(self).wf(),
            final(self).config() == old(self).config(),
            r@ == old(self).entries@,
            final(self).entries@.len() == 0,
            final(self).elo_index@.len() == 0,
    {
        let mut drained: Vec<Entry> = Vec::new();
        while self.entries.len() > 0
            invariant
                drained@ + self.entries@ == old(self).entries@,
                self.scaling_factor == old(self).scaling_factor,
                self.team_size == old(self).team_size,
                self.max_skill_diff == old(self).max_skill_diff,
                old(self).wf(),
            decreases self.entries@.len(),
    {
            let e = self.entries.remove(0);
            drained.push(e);
            proof {
                assert(drained@ + self.entries@ =~= old(self).entries@);
            }
        }
        self.elo_index = Vec::new();
        proof {
            assert(drained@ =~= old(self).entries@);
        }
        drained
    }

    /// The waiting entries, in admission order.
    pub fn get_entries(&self) -> (r: &Vec<Entry>)
        ensures
            r == self.entries,
    {
        &self.entries
    }

    /// One matching attempt at instant `now`.  It never fails: the first
    /// waiting entry with an opponent in its window is paired with the
    /// closest such opponent, or the attempt is skipped.  This only reads;
    /// the entries of a match are removed once the queue commits it.
    pub fn matchmake_at(&self, now: u64) -> (r: MatchmakerResult)
        requires
            self.wf(),
        ensures
            self.attempt_outcome(now, r),
    {
        let n = self.entries.len();
        let mut t: usize = 0;
        while t < n
            invariant
                self.wf(),
                n == self.entries@.len(),
                t <= n,
                self.attempt_from(now, 0) == self.attempt_from(now, t as int),
            decreases n - t,
        {
            let ghost seed = self.entries@[t as int];
            let me = self.entries[t].id;
            let tq = self.entries[t].time_queued;
            let elo_v = match self.entries[t].elo {
                Some(v) => v,
                None => {
                    proof {
                        assert(false);
                    }
                    vstd::pervasive::unreached()
                },
            };
            let waited: u64 = if now >= tq {
                now - tq
            } else {
                0
            };
            proof {
                assert((waited as int) * (self.scaling_factor as int) <= u128::MAX) by (nonlinear_arith)
                    requires
                        waited <= u64::MAX,
                        self.scaling_factor <= u64::MAX,
                ;
            }
            let delta: u128 = (waited as u128) * (self.scaling_factor as u128);
            proof {
                assert(delta as int == self.window_of(seed, now));
            }
            let ghost gdelta = delta as int;
            let ghost gmaxd = self.max_skill_diff as int;
            let ghost grating = rating_of(seed);
            let ghost ix = self.elo_index@;
            let mut best: Option<(i128, EntryId)> = None;
            let ghost mut gbest: Option<(int, EntryId)> = None;
            let mut bi: usize = 0;
            proof {
                assert(ix.skip(0) =~= ix);
            }
            while bi < self.elo_index.len()
                invariant
                    self.wf(),
                    ix == self.elo_index@,
                    bi <= ix.len(),
                    gdelta == delta as int,
                    gmaxd == self.max_skill_diff as int,
                    grating == elo_v as int,
                    gbest == (match best {
                        Option::<(i128, EntryId)>::None => Option::<(int, EntryId)>::None,
                        Option::<(i128, EntryId)>::Some(q) => Option::<(int, EntryId)>::Some(
                            (q.0 as int, q.1),
                        ),
                    }),
                    (match best {
                        Option::<(i128, EntryId)>::None => true,
                        Option::<(i128, EntryId)>::Some(q) => q.0 >= 0,
                    }),
                    scan_index(ix, me, grating, gdelta, gmaxd, Option::None) == scan_index(
                        ix.skip(bi as int),
                        me,
                        grating,
                        gdelta,
                        gmaxd,
                        gbest,
                    ),
                decreases ix.len() - bi,
            {
                let rk = self.elo_index[bi].0;
                let ddl: i128 = rk as i128 - elo_v as i128;
                let d: i128 = if ddl < 0 {
                    -ddl
                } else {
                    ddl
                };
                proof {
                    assert(d as int == abs_diff(rk as int, grating));
                }
                let within = d as u128 <= delta && d <= self.max_skill_diff as i128;
                let improves = match best {
                    None => true,
                    Some(q) => d < q.0,
                };
                let ghost prev = gbest;
                if within && improves {
                    match first_other_in(&self.elo_index[bi].1, &me) {
                        Some(id) => {
                            best = Some((d, id));
                            proof {
                                gbest = Some((d as int, id));
                            }
                        },
                        None => {},
                    }
                }
                proof {
                    assert(gbest == scan_step(ix[bi as int], me, grating, gdelta, gmaxd, prev));
                    assert(ix.skip(bi as int).drop_first() =~= ix.skip(bi as int + 1));
                    assert(ix.skip(bi as int)[0] == ix[bi as int]);
                }
                bi = bi + 1;
            }
            proof {
                assert(ix.skip(ix.len() as int) =~= Seq::<(i64, Vec<EntryId>)>::empty());
                assert(self.candidate_for(seed, now) == gbest);
            }
            match best {
                Some(pair) => {
                    let mut team1: Vec<EntryId> = Vec::new();
                    team1.push(me);
                    let mut team2: Vec<EntryId> = Vec::new();
                    team2.push(pair.1);
                    let mut ts: Vec<Vec<EntryId>> = Vec::new();
                    ts.push(team1);
                    ts.push(team2);
                    proof {
                        assert(self.attempt_from(now, t as int) == Some((me, pair.1)));
                        assert(teams_view(ts@) =~~= seq![seq![me], seq![pair.1]]);
                    }
                    return MatchmakerResult::Matched(ts);
                },
                None => {},
            }
            t = t + 1;
        }
        MatchmakerResult::Skip("No teams found".to_owned())
    }

    /// One matching attempt at the current wall-clock instant.
    pub fn matchmake(&self) -> (r: MatchmakerResult)
        requires
            self.wf(),
        ensures
            exists|now: u64| self.attempt_outcome(now, r),
    {
        let now = now_seconds();
        let r = self.matchmake_at(now);
        proof {
            assert(self.attempt_outcome(now, r));
        }
        r
    }
}

/// The zero-window law: with no window growth and a zero rating cap, only
/// exact ties are ever paired — the two matched entries are distinct waiting
/// entries admitted with the same rating.
pub proof fn lemma_zero_window_exact_ties(m: EloMatchmaker, now: u64, t: int)
    requires
        m.wf(),
        m.scaling_factor == 0,
        m.max_skill_diff == 0,
        0 <= t,
        m.attempt_from(now, t) is Some,
    ensures
        ({
            let p = m.attempt_from(now, t)->0;
            exists|i: int, j: int|
                t <= i < m.entries@.len() && 0 <= j < m.entries@.len() && i != j && (
                #[trigger] m.entries@[i]).id == p.0 && (#[trigger] m.entries@[j]).id == p.1
                    && rating_of(m.entries@[i]) == rating_of(m.entries@[j])
        }),
    decreases m.entries@.len() - t,
{
    let seed = m.entries@[t];
    match m.candidate_for(seed, now) {
        Some(q) => {
            let p = m.attempt_from(now, t)->0;
            lemma_scan_member(
                m.elo_index@,
                seed.id,
                rating_of(seed),
                m.window_of(seed, now),
                m.max_skill_diff as int,
                None,
            );
            let w = choose|w: int|
                0 <= w < m.elo_index@.len() && abs_diff(
                    (#[trigger] m.elo_index@[w]).0 as int,
                    rating_of(seed),
                ) == q.0 && m.elo_index@[w].1@.contains(q.1);
            assert(q.0 == 0);
            assert(m.elo_index@[w].0 as int == rating_of(seed));
            assert(m.elo_index@[w].1@ == elo_ids(m.entries@, m.elo_index@[w].0 as int));
            let l = choose|l: int|
                0 <= l < m.elo_index@[w].1@.len() && m.elo_index@[w].1@[l] == q.1;
            lemma_elo_ids_member(m.entries@, m.elo_index@[w].0 as int, l);
            let j = choose|j: int|
                0 <= j < m.entries@.len() && (#[trigger] m.entries@[j]).id == elo_ids(
                    m.entries@,
                    m.elo_index@[w].0 as int,
                )[l] && m.entries@[j].elo is Some && rating_of(m.entries@[j]) == m.elo_index@[
                w].0 as int;
            assert(m.entries@[j].id == q.1 && q.1 != seed.id);
            assert(j != t);
            assert(m.entries@[t].id == p.0 && m.entries@[j].id == p.1 && rating_of(
                m.entries@[t],
            ) == rating_of(m.entries@[j]));
        },
        None => {
            lemma_zero_window_exact_ties(m, now, t + 1);
            let p = m.attempt_from(now, t)->0;
            let (i, j) = choose|i: int, j: int|
                t + 1 <= i < m.entries@.len() && 0 <= j < m.entries@.len() && i != j && (
                #[trigger] m.entries@[i]).id == p.0 && (#[trigger] m.entries@[j]).id == p.1
                    && rating_of(m.entries@[i]) == rating_of(m.entries@[j]);
        },
    }
}

/// The round-trip law for this matcher: one rebuilt from another matcher's
/// serialized configuration admits exactly the same entries — the same team
/// size and the same demand for a rating — and, with its pool still empty,
/// its matching attempt is skipped at every instant, just as a fresh matcher
/// of that configuration would skip.
pub proof fn lemma_elo_serialize_round_trip(m: EloMatchmaker, d: EloMatchmaker, now: u64)
    requires
        m.wf(),
        d.wf(),
        d.config() == m.config(),
        d.entries@.len() == 0,
    ensures
        d.team_size == m.team_size,
        d.max_skill_diff == m.max_skill_diff,
        d.scaling_factor == m.scaling_factor,
        d.attempt_from(now, 0) is None,
{
}

impl EloMatchmaker {
    /// The waiting entry carrying `entry_id`, if any.
    pub fn get_entry(&self, entry_id: &EntryId) -> (r: Option<&Entry>)
        requires
            self.wf(),
        ensures
            match r {
                Some(e) => crate::flexible::spec_has_entry(self.entries@, *entry_id) && *e
                    == self.entries@[crate::flexible::index_of_id(self.entries@, *entry_id)],
                None => !crate::flexible::spec_has_entry(self.entries@, *entry_id),
            },
    {
        let mut j: usize = 0;
        while j < self.entries.len()
            invariant
                self.wf(),
                j <= self.entries@.len(),
                forall|l: int| 0 <= l < j ==> (#[trigger] self.entries@[l]).id != entry_id,
            decreases self.entries@.len() - j,
        {
            if self.entries[j].id == *entry_id {
                proof {
                    let w = crate::flexible::index_of_id(self.entries@, *entry_id);
                    assert(self.entries@[w].id == *entry_id);
                    assert(w == j as int);
                }
                return Some(&self.entries[j]);
            }
            j = j + 1;
        }
        None
    }
}

} // verus!
