//! The partition-based matcher: packs waiting parties into a fixed number of
//! teams of a fixed size, never splitting a party across teams.

use vstd::prelude::*;
use crate::counting::{
    bump_counter, count_in, count_occ, counts_nonneg, counts_view, has_key, keys_unique, lemma_count_in_absent,
    lemma_count_in_at, lemma_count_in_nonneg, lemma_has_key_index, lemma_count_in_skip, lemma_mult_in_all_concat,
    lemma_mult_in_all_nonneg, lemma_mult_in_all_push, lemma_mult_in_concat, lemma_mult_in_nonneg,
    lemma_mult_in_push, lemma_mult_in_zero, lookup_count, mult_in, mult_in_all,
};
use crate::entry::{Entry, EntryId};
use crate::matchmaker::MatchmakerResult;
use crate::partitions::{
    addends_view, find_unique_addends, is_partition_from, lemma_partitions_from_sound,
    partition_list, row_view, sum_of,
};

verus! {

/// The persisted configuration of a flexible matcher.  Entries are transient
/// and are not part of it.
#[derive(Clone, Copy, Debug, PartialEq, Eq, Structural)]
pub struct FlexibleSettings {
    pub team_size: i32,
    pub min_entry_size: i32,
    pub max_entry_size: i32,
    pub number_of_teams: i32,
}

/// A configuration is valid when every bound is positive and the party-size
/// bounds fit inside one team.
pub open spec fn config_valid(s: FlexibleSettings) -> bool {
    &&& 1 <= s.team_size
    &&& 1 <= s.number_of_teams
    &&& 1 <= s.min_entry_size
    &&& s.min_entry_size <= s.max_entry_size
    &&& s.max_entry_size <= s.team_size
}

/// The matcher: its configuration, the precomputed compositions of one team,
/// the waiting entries in admission order, and an index of entry ids grouped
/// by party size in admission order.
pub struct FlexibleMatchMaker {
    pub number_of_teams: i32,
    pub team_size: i32,
    pub max_entry_size: i32,
    pub min_entry_size: i32,
    pub addends: Vec<Vec<i32>>,
    pub entries: Vec<Entry>,
    pub entries_by_size: Vec<(i32, Vec<EntryId>)>,
}

/// The ids of the entries of `es` whose party has exactly `s` players, in
/// admission order.
pub open spec fn ids_of_size(es: Seq<Entry>, s: int) -> Seq<EntryId>
    decreases es.len(),
{
    if es.len() == 0 {
        Seq::empty()
    } else {
        (if es[0].players@.len() == s {
            seq![es[0].id]
        } else {
            Seq::empty()
        }) + ids_of_size(es.drop_first(), s)
    }
}

/// The id list stored in the first bucket keyed `s`, or empty.
pub open spec fn bucket_ids(bs: Seq<(i32, Vec<EntryId>)>, s: int) -> Seq<EntryId>
    decreases bs.len(),
{
    if bs.len() == 0 {
        Seq::empty()
    } else if bs[0].0 == s {
        bs[0].1@
    } else {
        bucket_ids(bs.drop_first(), s)
    }
}

/// Whether some bucket is keyed `s`.
pub open spec fn bucket_has(bs: Seq<(i32, Vec<EntryId>)>, s: int) -> bool
    decreases bs.len(),
{
    if bs.len() == 0 {
        false
    } else {
        bs[0].0 == s || bucket_has(bs.drop_first(), s)
    }
}

/// The per-size counters the search runs on: each bucket's key with the
/// number of ids it holds.
pub open spec fn counts_of_buckets(bs: Seq<(i32, Vec<EntryId>)>) -> Seq<(int, int)> {
    bs.map_values(|b: (i32, Vec<EntryId>)| (b.0 as int, b.1@.len() as int))
}

/// Some entry of `es` carries the id.
pub open spec fn spec_has_entry(es: Seq<Entry>, id: EntryId) -> bool {
    exists|i: int| 0 <= i < es.len() && es[i].id == id
}

/// The position of the entry carrying `id`.
pub open spec fn index_of_id(es: Seq<Entry>, id: EntryId) -> int {
    choose|i: int| 0 <= i < es.len() && es[i].id == id
}

/// A team composition is feasible when, size by size, it asks for no more
/// parties than the counters have left.
pub open spec fn comp_feasible(c: Seq<int>, av: Seq<(int, int)>) -> bool {
    forall|s: int| #[trigger] mult_in(c, s) <= count_in(av, s)
}

/// The counters after one team of composition `c` has been taken.
pub open spec fn use_comp(av: Seq<(int, int)>, c: Seq<int>) -> Seq<(int, int)> {
    Seq::new(av.len(), |i: int| (av[i].0, av[i].1 - mult_in(c, av[i].0)))
}

/// The depth-first search for an assignment of `k` team compositions, taken
/// from `comps` in order and with repetition, that the counters can satisfy.
/// The first assignment in depth-first order wins.
pub open spec fn search_at(comps: Seq<Seq<int>>, av: Seq<(int, int)>, i: int, k: int) -> Option<
    Seq<Seq<int>>,
>
    decreases k, comps.len() - i,
{
    if k <= 0 {
        Some(Seq::empty())
    } else if i < 0 || i >= comps.len() {
        None
    } else if comp_feasible(comps[i], av) {
        match search_at(comps, use_comp(av, comps[i]), 0, k - 1) {
            Some(rest) => Some(seq![comps[i]] + rest),
            None => search_at(comps, av, i + 1, k),
        }
    } else {
        search_at(comps, av, i + 1, k)
    }
}

impl FlexibleMatchMaker {
    /// The matcher's configuration.
    pub open spec fn config(self) -> FlexibleSettings {
        FlexibleSettings {
            team_size: self.team_size,
            min_entry_size: self.min_entry_size,
            max_entry_size: self.max_entry_size,
            number_of_teams: self.number_of_teams,
        }
    }

    /// Party sizes this matcher admits.
    pub open spec fn accepts_size(self, n: int) -> bool {
        self.min_entry_size <= n <= self.max_entry_size
    }

    /// The counters the matching search starts from.
    pub open spec fn avail_counts(self) -> Seq<(int, int)> {
        counts_of_buckets(self.entries_by_size@)
    }

    /// Well-formedness: a valid configuration, the composition table of the
    /// team size, unique entry ids, party sizes within bounds, and a size
    /// index that mirrors the entries exactly.
    pub open spec fn wf(self) -> bool {
        &&& config_valid(self.config())
        &&& addends_view(self.addends) == partition_list(self.team_size as int)
        &&& forall|i: int, j: int|
            0 <= i < j < self.entries@.len() ==> (#[trigger] self.entries@[i]).id != (
            #[trigger] self.entries@[j]).id
        &&& forall|i: int|
            0 <= i < self.entries@.len() ==> self.accepts_size(
                (#[trigger] self.entries@[i]).players@.len() as int,
            )
        &&& forall|i: int, j: int|
            0 <= i < j < self.entries_by_size@.len() ==> (#[trigger] self.entries_by_size@[i]).0
                != (#[trigger] self.entries_by_size@[j]).0
        &&& forall|i: int|
            0 <= i < self.entries_by_size@.len() ==> (#[trigger] self.entries_by_size@[i]).1@
                == ids_of_size(self.entries@, self.entries_by_size@[i].0 as int)
        &&& forall|i: int|
            0 <= i < self.entries@.len() ==> bucket_has(
                self.entries_by_size@,
                (#[trigger] self.entries@[i]).players@.len() as int,
            )
    }
}

pub proof fn lemma_ids_of_size_concat(a: Seq<Entry>, b: Seq<Entry>, s: int)
    ensures
        ids_of_size(a + b, s) == ids_of_size(a, s) + ids_of_size(b, s),
    decreases a.len(),
{
    if a.len() == 0 {
        assert(a + b =~= b);
        assert(ids_of_size(a, s) + ids_of_size(b, s) =~= ids_of_size(b, s));
    } else {
        assert((a + b).drop_first() =~= a.drop_first() + b);
        assert((a + b)[0] == a[0]);
        lemma_ids_of_size_concat(a.drop_first(), b, s);
        assert((if a[0].players@.len() == s {
            seq![a[0].id]
        } else {
            Seq::<EntryId>::empty()
        }) + (ids_of_size(a.drop_first(), s) + ids_of_size(b, s)) =~= ids_of_size(a, s)
            + ids_of_size(b, s));
    }
}

pub proof fn lemma_ids_of_size_push(es: Seq<Entry>, e: Entry, s: int)
    ensures
        ids_of_size(es.push(e), s) == ids_of_size(es, s) + (if e.players@.len() == s {
            seq![e.id]
        } else {
            Seq::<EntryId>::empty()
        }),
{
    assert(es.push(e) =~= es + seq![e]);
    lemma_ids_of_size_concat(es, seq![e], s);
    assert(seq![e].drop_first() =~= Seq::<Entry>::empty());
    assert(ids_of_size(Seq::<Entry>::empty(), s) =~= Seq::<EntryId>::empty());
    assert(ids_of_size(seq![e], s) =~= (if e.players@.len() == s {
        seq![e.id]
    } else {
        Seq::<EntryId>::empty()
    }));
}

/// Every id the size index lists belongs to an entry of that size.
pub proof fn lemma_ids_of_size_member(es: Seq<Entry>, s: int, l: int)
    requires
        0 <= l < ids_of_size(es, s).len(),
    ensures
        exists|i: int|
            0 <= i < es.len() && (#[trigger] es[i]).id == ids_of_size(es, s)[l]
                && es[i].players@.len() == s,
    decreases es.len(),
{
    if es.len() > 0 {
        let head = (if es[0].players@.len() == s {
            seq![es[0].id]
        } else {
            Seq::<EntryId>::empty()
        });
        if l < head.len() {
            assert(es[0].id == ids_of_size(es, s)[l] && es[0].players@.len() == s);
        } else {
            lemma_ids_of_size_member(es.drop_first(), s, l - head.len());
            let i = choose|i: int|
                0 <= i < es.drop_first().len() && (#[trigger] es.drop_first()[i]).id
                    == ids_of_size(es.drop_first(), s)[l - head.len()] && es.drop_first()[
                    i].players@.len() == s;
            assert(es[i + 1] == es.drop_first()[i]);
        }
    }
}

/// If the bucket keys before position `j` all differ from `s`, the bucket
/// lookup is decided by the buckets from `j` on.
pub proof fn lemma_bucket_ids_skip(bs: Seq<(i32, Vec<EntryId>)>, s: int, j: int)
    requires
        0 <= j <= bs.len(),
        forall|l: int| 0 <= l < j ==> (#[trigger] bs[l]).0 != s,
    ensures
        bucket_ids(bs, s) == bucket_ids(bs.skip(j), s),
        bucket_has(bs, s) == bucket_has(bs.skip(j), s),
    decreases j,
{
    if j > 0 {
        assert(bs.skip(1) =~= bs.drop_first());
        assert(forall|l: int|
            0 <= l < j - 1 ==> (#[trigger] bs.drop_first()[l]).0 == bs[l + 1].0);
        lemma_bucket_ids_skip(bs.drop_first(), s, j - 1);
        assert(bs.drop_first().skip(j - 1) =~= bs.skip(j));
    } else {
        assert(bs.skip(0) =~= bs);
    }
}

/// The search counters agree with the size index: each key counts the ids of
/// its bucket.
pub proof fn lemma_counts_of_buckets(bs: Seq<(i32, Vec<EntryId>)>, s: int)
    ensures
        count_in(counts_of_buckets(bs), s) == bucket_ids(bs, s).len(),
        has_key(counts_of_buckets(bs), s) == bucket_has(bs, s),
        counts_nonneg(counts_of_buckets(bs)),
    decreases bs.len(),
{
    if bs.len() == 0 {
    } else {
        assert(counts_of_buckets(bs).drop_first() =~= counts_of_buckets(bs.drop_first()));
        lemma_counts_of_buckets(bs.drop_first(), s);
    }
}

/// A successful search returns exactly `k` compositions, each drawn from the
/// table, whose combined demand stays within the counters.
pub proof fn lemma_search_fits(comps: Seq<Seq<int>>, av: Seq<(int, int)>, i: int, k: int)
    requires
        0 <= i,
        0 <= k,
        keys_unique(av),
        counts_nonneg(av),
        search_at(comps, av, i, k) is Some,
    ensures
        ({
            let a = search_at(comps, av, i, k)->Some_0;
            &&& a.len() == k
            &&& forall|t: int| 0 <= t < a.len() ==> comps.contains(#[trigger] a[t])
            &&& forall|s: int| #[trigger] mult_in_all(a, s) <= count_in(av, s)
        }),
    decreases k, comps.len() - i,
{
    let a = search_at(comps, av, i, k)->Some_0;
    if k <= 0 {
        assert forall|s: int| #[trigger] mult_in_all(a, s) <= count_in(av, s) by {
            assert(mult_in_all(a, s) == 0);
            lemma_count_in_nonneg(av, s);
        }
    } else if i >= comps.len() {
    } else if comp_feasible(comps[i], av) {
        match search_at(comps, use_comp(av, comps[i]), 0, k - 1) {
            Some(rest) => {
                lemma_use_comp_wf(av, comps[i]);
                lemma_search_fits(comps, use_comp(av, comps[i]), 0, k - 1);
                assert(a == seq![comps[i]] + rest);
                assert(a[0] == comps[i]);
                assert(comps.contains(comps[i]));
                assert forall|t: int| 0 <= t < a.len() implies comps.contains(
                    #[trigger] a[t],
                ) by {
                    if t > 0 {
                        assert(a[t] == rest[t - 1]);
                    }
                }
                assert forall|s: int| #[trigger] mult_in_all(a, s) <= count_in(av, s) by {
                    assert(a.drop_first() =~= rest);
                    assert(mult_in_all(a, s) == mult_in(comps[i], s) + mult_in_all(rest, s));
                    assert(mult_in_all(rest, s) <= count_in(use_comp(av, comps[i]), s));
                    lemma_count_use_comp(av, comps[i], s);
                    lemma_mult_in_nonneg(comps[i], s);
                    lemma_mult_in_all_nonneg(rest, s);
                    if !has_key(av, s) {
                        lemma_count_in_absent(av, s);
                    }
                }
            },
            None => {
                lemma_search_fits(comps, av, i + 1, k);
            },
        }
    } else {
        lemma_search_fits(comps, av, i + 1, k);
    }
}

/// Feasibly taking a composition keeps the counters well formed: the keys
/// stay unique and no counter goes negative.
pub proof fn lemma_use_comp_wf(av: Seq<(int, int)>, c: Seq<int>)
    requires
        keys_unique(av),
        counts_nonneg(av),
        comp_feasible(c, av),
    ensures
        keys_unique(use_comp(av, c)),
        counts_nonneg(use_comp(av, c)),
{
    let next = use_comp(av, c);
    assert forall|i: int| 0 <= i < next.len() implies (#[trigger] next[i]).1 >= 0 by {
        lemma_count_in_at(av, i);
        assert(mult_in(c, av[i].0) <= count_in(av, av[i].0));
    }
    assert forall|i: int, j: int| 0 <= i < j < next.len() implies (#[trigger] next[i]).0 != (
    #[trigger] next[j]).0 by {
        assert(av[i].0 != av[j].0);
    }
}

/// Taking a composition lowers each counter by the composition's demand for
/// its key and leaves absent keys absent.
pub proof fn lemma_count_use_comp(av: Seq<(int, int)>, c: Seq<int>, s: int)
    ensures
        has_key(use_comp(av, c), s) == has_key(av, s),
        has_key(av, s) ==> count_in(use_comp(av, c), s) == count_in(av, s) - mult_in(c, s),
        !has_key(av, s) ==> count_in(use_comp(av, c), s) == 0,
    decreases av.len(),
{
    if av.len() > 0 {
        assert(use_comp(av, c).drop_first() =~= use_comp(av.drop_first(), c));
        lemma_count_use_comp(av.drop_first(), c, s);
    }
}

/// The rows of a composition table, viewed one at a time.
pub proof fn lemma_row_view_at(v: &Vec<Vec<i32>>, i: int)
    requires
        0 <= i < v@.len(),
    ensures
        addends_view(*v)[i] == row_view(v@[i]@),
{
    assert(v@[i].deep_view() =~= v@[i]@);
}

/// An owned copy of a row of party sizes.
fn copy_row(src: &Vec<i32>) -> (r: Vec<i32>)
    ensures
        r@ == src@,
{
    let mut out: Vec<i32> = Vec::new();
    let mut j: usize = 0;
    while j < src.len()
        invariant
            j <= src.len(),
            out@ == src@.take(j as int),
        decreases src.len() - j,
    {
        out.push(src[j]);
        proof {
            assert(src@.take(j as int + 1) =~= src@.take(j as int).push(src@[j as int]));
        }
        j = j + 1;
    }
    proof {
        assert(src@.take(src@.len() as int) =~= src@);
    }
    out
}

/// Whether the composition `c` is satisfiable by the counters `av` now.
fn feasible_now(c: &Vec<i32>, av: &Vec<(i32, usize)>) -> (r: bool)
    ensures
        r == comp_feasible(row_view(c@), counts_view(av@)),
{
    let ghost cv = row_view(c@);
    let ghost avv = counts_view(av@);
    let mut j: usize = 0;
    while j < c.len()
        invariant
            j <= c.len(),
            cv == row_view(c@),
            avv == counts_view(av@),
            cv.len() == c.len(),
            forall|l: int| 0 <= l < j ==> mult_in(cv, #[trigger] cv[l]) <= count_in(avv, cv[l]),
        decreases c.len() - j,
    {
        let needed = count_occ(c, c[j]);
        let have = lookup_count(av, c[j]);
        if needed > have {
            proof {
                assert(mult_in(cv, cv[j as int]) > count_in(avv, cv[j as int]));
            }
            return false;
        }
        j = j + 1;
    }
    proof {
        assert forall|s: int| #[trigger] mult_in(cv, s) <= count_in(avv, s) by {
            if exists|l: int| 0 <= l < cv.len() && cv[l] == s {
                let l = choose|l: int| 0 <= l < cv.len() && cv[l] == s;
                assert(mult_in(cv, cv[l]) <= count_in(avv, cv[l]));
            } else {
                assert(forall|l: int| 0 <= l < cv.len() ==> cv[l] != s);
                lemma_mult_in_zero(cv, s);
                assert(counts_nonneg(avv));
                lemma_count_in_nonneg(avv, s);
            }
        }
    }
    true
}

/// The counters left after one team of composition `c` is taken.
fn consume(av: &Vec<(i32, usize)>, c: &Vec<i32>) -> (r: Vec<(i32, usize)>)
    requires
        keys_unique(counts_view(av@)),
        comp_feasible(row_view(c@), counts_view(av@)),
    ensures
        counts_view(r@) == use_comp(counts_view(av@), row_view(c@)),
{
    let ghost avv = counts_view(av@);
    let ghost cv = row_view(c@);
    let mut out: Vec<(i32, usize)> = Vec::new();
    let mut j: usize = 0;
    while j < av.len()
        invariant
            j <= av.len(),
            avv == counts_view(av@),
            cv == row_view(c@),
            avv.len() == av.len(),
            keys_unique(avv),
            comp_feasible(cv, avv),
            out@.len() == j,
            counts_view(out@) == use_comp(avv, cv).take(j as int),
        decreases av.len() - j,
    {
        let key = av[j].0;
        let m = count_occ(c, key);
        proof {
            lemma_count_in_at(avv, j as int);
            assert(mult_in(cv, key as int) <= count_in(avv, key as int));
            lemma_mult_in_nonneg(cv, key as int);
        }
        let newc = av[j].1 - m;
        out.push((key, newc));
        proof {
            assert(avv[j as int] == (av@[j as int].0 as int, av@[j as int].1 as int));
            assert(newc as int == avv[j as int].1 - mult_in(cv, avv[j as int].0));
            assert(out@.len() == j + 1);
            assert(out@[j as int] == (key, newc));
            assert(counts_view(out@)[j as int] == (key as int, newc as int));
            assert(counts_view(out@) =~= use_comp(avv, cv).take(j as int + 1));
        }
        j = j + 1;
    }
    proof {
        assert(use_comp(avv, cv).take(av@.len() as int) =~= use_comp(avv, cv));
    }
    out
}

/// The depth-first assignment search, mirroring `search_at` exactly.
fn search_teams(comps: &Vec<Vec<i32>>, av: &Vec<(i32, usize)>, i: usize, k: usize) -> (r: Option<
    Vec<Vec<i32>>,
>)
    requires
        keys_unique(counts_view(av@)),
        i <= comps@.len(),
    ensures
        ({
            let sr = search_at(addends_view(*comps), counts_view(av@), i as int, k as int);
            match r {
                None => sr is None,
                Some(v) => sr == Some(addends_view(v)),
            }
        }),
    decreases k, comps@.len() - i,
{
    let ghost comps_spec = addends_view(*comps);
    let ghost avv = counts_view(av@);
    if k == 0 {
        let out: Vec<Vec<i32>> = Vec::new();
        proof {
            assert(addends_view(out) =~= Seq::<Seq<int>>::empty());
        }
        return Some(out);
    }
    if i >= comps.len() {
        return None;
    }
    proof {
        lemma_row_view_at(comps, i as int);
    }
    if feasible_now(&comps[i], av) {
        let next = consume(av, &comps[i]);
        proof {
            assert(keys_unique(counts_view(next@))) by {
                let nv = counts_view(next@);
                assert forall|a: int, b: int| 0 <= a < b < nv.len() implies (
                #[trigger] nv[a]).0 != (#[trigger] nv[b]).0 by {
                    assert(nv[a].0 == avv[a].0 && nv[b].0 == avv[b].0);
                }
            }
        }
        match search_teams(comps, &next, 0, k - 1) {
            Some(rest) => {
                let mut v = rest;
                let head = copy_row(&comps[i]);
                v.insert(0, head);
                proof {
                    assert(addends_view(v) =~~= seq![comps_spec[i as int]] + search_at(
                        comps_spec,
                        counts_view(next@),
                        0,
                        k as int - 1,
                    )->Some_0);
                }
                Some(v)
            },
            None => search_teams(comps, av, i + 1, k),
        }
    } else {
        search_teams(comps, av, i + 1, k)
    }
}

/// A list of teams of entry ids, seen mathematically.
pub open spec fn teams_view(ts: Seq<Vec<EntryId>>) -> Seq<Seq<EntryId>> {
    ts.map_values(|t: Vec<EntryId>| t@)
}

/// The running counter used when slot `j` of team `t` is filled: how many
/// parties of that slot's size earlier slots have already taken.
pub open spec fn picked_index(asg: Seq<Seq<int>>, t: int, j: int) -> int {
    mult_in_all(asg.take(t), asg[t][j]) + mult_in(asg[t].take(j), asg[t][j])
}

/// Team `t` of an assignment, materialized: each slot takes the next waiting
/// id of its size from the size index.
pub open spec fn picked_team(m: FlexibleMatchMaker, asg: Seq<Seq<int>>, t: int) -> Seq<EntryId> {
    Seq::new(
        asg[t].len(),
        |j: int| bucket_ids(m.entries_by_size@, asg[t][j])[picked_index(asg, t, j)],
    )
}

/// All teams of an assignment, materialized.
pub open spec fn picked_teams(m: FlexibleMatchMaker, asg: Seq<Seq<int>>) -> Seq<Seq<EntryId>> {
    Seq::new(asg.len(), |t: int| picked_team(m, asg, t))
}

/// No two buckets share a key.
pub open spec fn bucket_keys_unique(bs: Seq<(i32, Vec<EntryId>)>) -> bool {
    forall|i: int, j: int| 0 <= i < j < bs.len() ==> (#[trigger] bs[i]).0 != (#[trigger] bs[j]).0
}

/// A bucket key is present exactly when some bucket carries it.
pub proof fn lemma_bucket_has_index(bs: Seq<(i32, Vec<EntryId>)>, s: int)
    ensures
        bucket_has(bs, s) <==> exists|i: int| 0 <= i < bs.len() && (#[trigger] bs[i]).0 == s,
    decreases bs.len(),
{
    if bs.len() > 0 {
        lemma_bucket_has_index(bs.drop_first(), s);
        if bs[0].0 == s {
        } else if bucket_has(bs.drop_first(), s) {
            let i = choose|i: int|
                0 <= i < bs.drop_first().len() && (#[trigger] bs.drop_first()[i]).0 == s;
            assert(bs[i + 1].0 == s);
        } else {
            assert(forall|i: int|
                0 < i < bs.len() ==> (#[trigger] bs[i]).0 == bs.drop_first()[i - 1].0);
        }
    }
}

/// Replacing the id list of one bucket moves only that bucket's lookup.
pub proof fn lemma_bucket_update(bs: Seq<(i32, Vec<EntryId>)>, b: int, nb: (i32, Vec<EntryId>), s: int)
    requires
        bucket_keys_unique(bs),
        0 <= b < bs.len(),
        nb.0 == bs[b].0,
    ensures
        bucket_has(bs.update(b, nb), s) == bucket_has(bs, s),
        s == nb.0 as int ==> bucket_ids(bs.update(b, nb), s) == nb.1@,
        s != nb.0 as int ==> bucket_ids(bs.update(b, nb), s) == bucket_ids(bs, s),
    decreases b,
{
    let nv = bs.update(b, nb);
    if b == 0 {
        assert(nv.drop_first() =~= bs.drop_first());
    } else {
        assert(nv[0] == bs[0]);
        assert(bs[0].0 != bs[b].0);
        assert(bucket_keys_unique(bs.drop_first())) by {
            assert(forall|i: int|
                0 <= i < bs.drop_first().len() ==> bs.drop_first()[i] == bs[i + 1]);
        }
        assert(nv.drop_first() =~= bs.drop_first().update(b - 1, nb));
        assert(bs.drop_first()[b - 1] == bs[b]);
        lemma_bucket_update(bs.drop_first(), b - 1, nb, s);
    }
}

/// Appending a bucket under a fresh key changes only that key's lookup.
pub proof fn lemma_bucket_push_new(bs: Seq<(i32, Vec<EntryId>)>, nb: (i32, Vec<EntryId>), s: int)
    requires
        !bucket_has(bs, nb.0 as int),
    ensures
        bucket_has(bs.push(nb), s) == (bucket_has(bs, s) || s == nb.0 as int),
        s == nb.0 as int ==> bucket_ids(bs.push(nb), s) == nb.1@,
        s != nb.0 as int ==> bucket_ids(bs.push(nb), s) == bucket_ids(bs, s),
    decreases bs.len(),
{
    if bs.len() == 0 {
        assert(bs.push(nb).drop_first() =~= Seq::<(i32, Vec<EntryId>)>::empty());
        assert(bs.push(nb)[0] == nb);
        assert(!bucket_has(Seq::<(i32, Vec<EntryId>)>::empty(), s));
        assert(bucket_ids(Seq::<(i32, Vec<EntryId>)>::empty(), s) == Seq::<EntryId>::empty());
    } else {
        assert(bs.push(nb).drop_first() =~= bs.drop_first().push(nb));
        assert(bs.push(nb)[0] == bs[0]);
        lemma_bucket_push_new(bs.drop_first(), nb, s);
    }
}

/// Cutting an entry list at position `i` splits its size index accordingly.
pub proof fn lemma_ids_of_size_split(es: Seq<Entry>, i: int, s: int)
    requires
        0 <= i < es.len(),
    ensures
        ids_of_size(es, s) == ids_of_size(es.take(i), s) + (if es[i].players@.len() == s {
            seq![es[i].id]
        } else {
            Seq::<EntryId>::empty()
        }) + ids_of_size(es.skip(i + 1), s),
        ids_of_size(es.remove(i), s) == ids_of_size(es.take(i), s) + ids_of_size(
            es.skip(i + 1),
            s,
        ),
{
    assert(es =~= (es.take(i) + seq![es[i]]) + es.skip(i + 1));
    lemma_ids_of_size_concat(es.take(i) + seq![es[i]], es.skip(i + 1), s);
    lemma_ids_of_size_concat(es.take(i), seq![es[i]], s);
    assert(seq![es[i]].drop_first() =~= Seq::<Entry>::empty());
    assert(ids_of_size(Seq::<Entry>::empty(), s) =~= Seq::<EntryId>::empty());
    assert(ids_of_size(seq![es[i]], s) =~= (if es[i].players@.len() == s {
        seq![es[i].id]
    } else {
        Seq::<EntryId>::empty()
    }));
    assert(es.remove(i) =~= es.take(i) + es.skip(i + 1));
    lemma_ids_of_size_concat(es.take(i), es.skip(i + 1), s);
}

/// A counter list with the count under `s` raised by one: pairs carrying `s`
/// are bumped in place, a missing key is appended at one.
pub open spec fn bump_key(av: Seq<(int, int)>, s: int) -> Seq<(int, int)> {
    if has_key(av, s) {
        av.map_values(
            |p: (int, int)|
                if p.0 == s {
                    (p.0, p.1 + 1)
                } else {
                    p
                },
        )
    } else {
        av.push((s, 1))
    }
}

/// The per-size counters of a list of party sizes, keys in first-occurrence
/// order.
pub open spec fn counts_of(sizes: Seq<int>) -> Seq<(int, int)>
    decreases sizes.len(),
{
    if sizes.len() == 0 {
        Seq::empty()
    } else {
        bump_key(counts_of(sizes.drop_last()), sizes.last())
    }
}

/// Raises the counter under `s` by one, mirroring `bump_key` exactly.
fn bump_size(av: &mut Vec<(i32, usize)>, s: i32)
    requires
        keys_unique(counts_view(old(av)@)),
        count_in(counts_view(old(av)@), s as int) < usize::MAX as int,
    ensures
        keys_unique(counts_view(final(av)@)),
        counts_view(final(av)@) == bump_key(counts_view(old(av)@), s as int),
        final(av)@.len() <= old(av)@.len() + 1,
{
    let ghost avv = counts_view(av@);
    let mut j: usize = 0;
    while j < av.len()
        invariant
            j <= av.len(),
            avv == counts_view(av@),
            avv == counts_view(old(av)@),
            avv.len() == av@.len(),
            keys_unique(avv),
            count_in(avv, s as int) < usize::MAX as int,
            forall|l: int| 0 <= l < j ==> (#[trigger] avv[l]).0 != s as int,
        decreases av@.len() - j,
    {
        if av[j].0 == s {
            proof {
                lemma_count_in_skip(avv, s as int, j as int);
                assert(avv.skip(j as int)[0] == avv[j as int]);
                assert(count_in(avv, s as int) == avv[j as int].1);
                lemma_has_key_index(avv, s as int);
            }
            let c = av[j].1;
            av.set(j, (s, c + 1));
            proof {
                let nv = counts_view(av@);
                assert(nv =~= bump_key(avv, s as int)) by {
                    assert forall|l: int| 0 <= l < nv.len() implies nv[l] == bump_key(
                        avv,
                        s as int,
                    )[l] by {
                        if l != j as int {
                            assert(avv[l].0 != s as int);
                        }
                    }
                }
                assert forall|a: int, b: int| 0 <= a < b < nv.len() implies (
                #[trigger] nv[a]).0 != (#[trigger] nv[b]).0 by {
                    assert(nv[a].0 == avv[a].0 && nv[b].0 == avv[b].0);
                }
            }
            return ;
        }
        j = j + 1;
    }
    proof {
        lemma_count_in_skip(avv, s as int, avv.len() as int);
        assert(avv.skip(avv.len() as int) =~= Seq::<(int, int)>::empty());
        assert(!has_key(avv, s as int));
        lemma_has_key_index(avv, s as int);
    }
    av.push((s, 1));
    proof {
        let nv = counts_view(av@);
        assert(nv =~= bump_key(avv, s as int));
        assert forall|a: int, b: int| 0 <= a < b < nv.len() implies (#[trigger] nv[a]).0 != (
        #[trigger] nv[b]).0 by {
            if b < avv.len() {
                assert(nv[a].0 == avv[a].0 && nv[b].0 == avv[b].0);
            } else {
                assert(nv[a].0 == avv[a].0 && nv[b].0 == s as int);
            }
        }
    }
}


/// With no parties waiting, no non-empty composition is ever feasible, so
/// the search finds nothing.
pub proof fn lemma_search_no_entries(comps: Seq<Seq<int>>, i: int, k: int)
    requires
        0 <= i,
        1 <= k,
        forall|t: int| 0 <= t < comps.len() ==> (#[trigger] comps[t]).len() > 0,
    ensures
        search_at(comps, Seq::<(int, int)>::empty(), i, k) is None,
    decreases
            (if i <= comps.len() {
                comps.len() - i
            } else {
                0
            }),
{
    let av = Seq::<(int, int)>::empty();
    if i >= comps.len() {
    } else {
        let c = comps[i];
        assert(!comp_feasible(c, av)) by {
            assert(mult_in(c, c[0]) >= 1) by {
                lemma_mult_in_nonneg(c.drop_first(), c[0]);
            }
            assert(count_in(av, c[0]) == 0);
        }
        lemma_search_no_entries(comps, i + 1, k);
    }
}

/// The round-trip law: a matcher rebuilt from another matcher's serialized
/// configuration admits exactly the same party sizes, and, with its pool
/// still empty, its matching attempt is skipped, just as a fresh matcher of
/// that configuration would skip.
pub proof fn lemma_serialize_round_trip(m: FlexibleMatchMaker, d: FlexibleMatchMaker)
    requires
        m.wf(),
        d.wf(),
        d.config() == m.config(),
        d.entries_by_size@.len() == 0,
    ensures
        forall|n: int| d.accepts_size(n) <==> m.accepts_size(n),
        search_at(
            addends_view(d.addends),
            d.avail_counts(),
            0,
            d.number_of_teams as int,
        ) is None,
{
    assert(d.avail_counts() =~= Seq::<(int, int)>::empty());
    let comps = addends_view(d.addends);
    lemma_partitions_from_sound(1, d.team_size as int);
    assert forall|t: int| 0 <= t < comps.len() implies (#[trigger] comps[t]).len() > 0 by {
        assert(is_partition_from(comps[t], 1, d.team_size as int));
        if comps[t].len() == 0 {
            assert(sum_of(comps[t]) == 0);
        }
    }
    lemma_search_no_entries(comps, 0, d.number_of_teams as int);
}

/// The position of the first entry carrying `id`, if any.
fn find_entry_index(es: &Vec<Entry>, id: &EntryId) -> (r: Option<usize>)
    ensures
        match r {
            Some(p) => p < es@.len() && es@[p as int].id == id && (forall|l: int|
                0 <= l < p ==> (#[trigger] es@[l]).id != id),
            None => forall|l: int| 0 <= l < es@.len() ==> (#[trigger] es@[l]).id != id,
        },
{
    let mut j: usize = 0;
    while j < es.len()
        invariant
            j <= es.len(),
            forall|l: int| 0 <= l < j ==> (#[trigger] es@[l]).id != id,
        decreases es.len() - j,
    {
        if es[j].id == *id {
            return Some(j);
        }
        j = j + 1;
    }
    None
}

/// The position of the first bucket keyed `key`, if any.
fn find_bucket_index(bs: &Vec<(i32, Vec<EntryId>)>, key: i32) -> (r: Option<usize>)
    ensures
        match r {
            Some(p) => p < bs@.len() && bs@[p as int].0 == key && (forall|l: int|
                0 <= l < p ==> (#[trigger] bs@[l]).0 != key),
            None => forall|l: int| 0 <= l < bs@.len() ==> (#[trigger] bs@[l]).0 != key,
        },
{
    let mut j: usize = 0;
    while j < bs.len()
        invariant
            j <= bs.len(),
            forall|l: int| 0 <= l < j ==> (#[trigger] bs@[l]).0 != key,
        decreases bs.len() - j,
    {
        if bs[j].0 == key {
            return Some(j);
        }
        j = j + 1;
    }
    None
}

/// The position of the first occurrence of `id`, if any.
fn find_id_position(ids: &Vec<EntryId>, id: &EntryId) -> (r: Option<usize>)
    ensures
        match r {
            Some(p) => p < ids@.len() && ids@[p as int] == id && (forall|l: int|
                0 <= l < p ==> ids@[l] != id),
            None => forall|l: int| 0 <= l < ids@.len() ==> ids@[l] != id,
        },
{
    let mut j: usize = 0;
    while j < ids.len()
        invariant
            j <= ids.len(),
            forall|l: int| 0 <= l < j ==> ids@[l] != id,
        decreases ids.len() - j,
    {
        if ids[j] == *id {
            return Some(j);
        }
        j = j + 1;
    }
    None
}

impl FlexibleMatchMaker {
    /// Builds a matcher, enumerating the compositions of one team up front.
    /// Construction succeeds exactly on valid configurations.
    pub fn new(team_size: i32, min_entry_size: i32, max_entry_size: i32, number_of_teams: i32)
        -> (r: Result<FlexibleMatchMaker, String>)
        ensures
            ({
                let cfg = FlexibleSettings { team_size, min_entry_size, max_entry_size,
                    number_of_teams };
                match r {
                    Ok(m) => {
                        &&& config_valid(cfg)
                        &&& m.wf()
                        &&& m.config() == cfg
                        &&& m.entries@.len() == 0
                        &&& m.entries_by_size@.len() == 0
                    },
                    Err(_) => !config_valid(cfg),
                }
            }),
    {
        let addends = match find_unique_addends(team_size) {
            Ok(a) => a,
            Err(m) => {
                return Err(m);
            },
        };
        if number_of_teams < 1 {
            return Err("numberOfTeams must be a positive integer".to_owned());
        }
        if min_entry_size < 1 {
            return Err("minEntrySize must be a positive integer".to_owned());
        }
        if min_entry_size > max_entry_size {
            return Err("minEntrySize must not exceed maxEntrySize".to_owned());
        }
        if max_entry_size > team_size {
            return Err("maxEntrySize must not exceed teamSize".to_owned());
        }
        Ok(
            FlexibleMatchMaker {
                number_of_teams,
                team_size,
                max_entry_size,
                min_entry_size,
                addends,
                entries: Vec::new(),
                entries_by_size: Vec::new(),
            },
        )
    }

    /// The constant name of this algorithm.
    pub fn get_type_name(&self) -> (r: String)
        ensures
            r@ == "flexible"@,
    {
        "flexible".to_owned()
    }

    /// The configuration, ready to be persisted.  Entries are not part of it.
    pub fn serialize(&self) -> (r: FlexibleSettings)
        ensures
            r == self.config(),
    {
        FlexibleSettings {
            team_size: self.team_size,
            min_entry_size: self.min_entry_size,
            max_entry_size: self.max_entry_size,
            number_of_teams: self.number_of_teams,
        }
    }

    /// Rebuilds a matcher from a persisted configuration; the entry pool
    /// starts empty.  Succeeds exactly on valid configurations.
    pub fn deserialize(value: FlexibleSettings) -> (r: Result<FlexibleMatchMaker, String>)
        ensures
            match r {
                Ok(m) => {
                    &&& config_valid(value)
                    &&& m.wf()
                    &&& m.config() == value
                    &&& m.entries@.len() == 0
                    &&& m.entries_by_size@.len() == 0
                },
                Err(_) => !config_valid(value),
            },
    {
        FlexibleMatchMaker::new(
            value.team_size,
            value.min_entry_size,
            value.max_entry_size,
            value.number_of_teams,
        )
    }

    /// Admits an entry: its party size must lie within the configured bounds
    /// and its id must be new.  The entry is appended to the pool and its id
    /// to the size index.
    pub fn add_entry(&mut self, entry: Entry) -> (r: Result<(), String>)
        requires
            old(self).wf(),
        ensures
            final(self).wf(),
            final(self).config() == old(self).config(),
            ({
                let n = entry.players@.len() as int;
                if !old(self).accepts_size(n) {
                    &&& r is Err
                    &&& *final(self) == *old(self)
                } else if spec_has_entry(old(self).entries@, entry.id) {
                    &&& r is Err
                    &&& *final(self) == *old(self)
                } else {
                    &&& r is Ok
                    &&& final(self).entries@ == old(self).entries@.push(entry)
                }
            }),
    {
        let n = entry.players.len();
        if n < self.min_entry_size as usize || n > self.max_entry_size as usize {
            return Err("Entry party size is outside the allowed bounds".to_owned());
        }
        if let Some(_) = find_entry_index(&self.entries, &entry.id) {
            return Err("Entry already exists with that id".to_owned());
        }
        let ghost es0 = self.entries@;
        let ghost bs0 = self.entries_by_size@;
        let key = n as i32;
        let ghost eid = entry.id;
        let ghost esize = entry.players@.len() as int;
        match find_bucket_index(&self.entries_by_size, key) {
            Some(b) => {
                let mut bucket = self.entries_by_size.remove(b);
                bucket.1.push(entry.id);
                self.entries_by_size.insert(b, bucket);
                proof {
                    assert(self.entries_by_size@ =~= bs0.update(
                        b as int,
                        (key, self.entries_by_size@[b as int].1),
                    ));
                    assert(self.entries_by_size@[b as int].0 == key);
                    lemma_bucket_has_index(self.entries_by_size@, key as int);
                }
            },
            None => {
                let fresh: Vec<EntryId> = vec![entry.id];
                self.entries_by_size.push((key, fresh));
                proof {
                    lemma_bucket_has_index(bs0, key as int);
                    assert(self.entries_by_size@[bs0.len() as int].0 == key);
                    lemma_bucket_has_index(self.entries_by_size@, key as int);
                }
            },
        }
        self.entries.push(entry);
        proof {
            let es1 = self.entries@;
            let bs1 = self.entries_by_size@;
            assert(es1 == es0.push(entry));
            assert forall|i: int, j: int| 0 <= i < j < es1.len() implies (
            #[trigger] es1[i]).id != (#[trigger] es1[j]).id by {
                if j < es0.len() {
                    assert(es1[i] == es0[i] && es1[j] == es0[j]);
                } else {
                    assert(es1[i] == es0[i] && es1[j] == entry);
                }
            }
            assert forall|i: int| 0 <= i < bs1.len() implies (#[trigger] bs1[i]).1@
                == ids_of_size(es1, bs1[i].0 as int) by {
                lemma_ids_of_size_push(es0, entry, bs1[i].0 as int);
                if bs1[i].0 == key {
                    if i < bs0.len() && bs0[i].0 == key {
                        // the existing bucket was extended in place
                        assert(bs1[i].1@ == bs0[i].1@.push(eid));
                    } else {
                        // a fresh bucket was appended for a new size
                        assert(bs1[i].1@ == seq![eid]);
                        assert(!bucket_has(bs0, key as int));
                        lemma_bucket_has_index(bs0, key as int);
                        assert(ids_of_size(es0, key as int).len() == 0) by {
                            if ids_of_size(es0, key as int).len() > 0 {
                                lemma_ids_of_size_member(es0, key as int, 0);
                                let w = choose|w: int|
                                    0 <= w < es0.len() && (#[trigger] es0[w]).id == ids_of_size(
                                        es0,
                                        key as int,
                                    )[0] && es0[w].players@.len() == key as int;
                                assert(bucket_has(bs0, es0[w].players@.len() as int));
                                assert(false);
                            }
                        }
                        assert(ids_of_size(es1, key as int) =~= seq![eid]);
                    }
                } else {
                    assert(bs1[i] == bs0[i]);
                }
            }
            assert forall|i: int| 0 <= i < es1.len() implies bucket_has(
                bs1,
                (#[trigger] es1[i]).players@.len() as int,
            ) by {
                lemma_bucket_has_index(bs0, es1[i].players@.len() as int);
                lemma_bucket_has_index(bs1, es1[i].players@.len() as int);
                if i < es0.len() {
                    let w = choose|w: int|
                        0 <= w < bs0.len() && (#[trigger] bs0[w]).0 == es0[i].players@.len() as int;
                    assert(bs1[w].0 == bs0[w].0);
                } else {
                    assert(bucket_has(bs1, key as int));
                }
            }
        }
        Ok(())
    }

    /// Withdraws the entry carrying `entry_id`, cleaning the size index, and
    /// returns it; absent ids are reported as an error.
    pub fn remove_entry(&mut self, entry_id: &EntryId) -> (r: Result<Entry, String>)
        requires
            old(self).wf(),
        ensures
            final(self).wf(),
            final(self).config() == old(self).config(),
            (if spec_has_entry(old(self).entries@, *entry_id) {
                let i = index_of_id(old(self).entries@, *entry_id);
                &&& (r matches Ok(e) && e == old(self).entries@[i])
                &&& final(self).entries@ == old(self).entries@.remove(i)
            } else {
                &&& r is Err
                &&& final(self).entries@ == old(self).entries@
                &&& final(self).entries_by_size@ == old(self).entries_by_size@
            }),
    {
        let idx = match find_entry_index(&self.entries, entry_id) {
            None => {
                return Err("Entry not found".to_owned());
            },
            Some(i) => i,
        };
        let ghost es0 = self.entries@;
        let ghost bs0 = self.entries_by_size@;
        proof {
            assert(es0[idx as int].id == *entry_id);
            assert(index_of_id(es0, *entry_id) == idx as int);
        }
        let e = self.entries.remove(idx);
        let key = e.players.len() as i32;
        let ghost eid = e.id;
        let ghost skey = key as int;
        let b = match find_bucket_index(&self.entries_by_size, key) {
            None => {
                proof {
                    lemma_bucket_has_index(bs0, skey);
                    assert(false);
                }
                vstd::pervasive::unreached()
            },
            Some(b) => b,
        };
        let mut bucket = self.entries_by_size.remove(b);
        let ghost hole = ids_of_size(es0.take(idx as int), skey);
        let ghost tail_ids = ids_of_size(es0.skip(idx as int + 1), skey);
        proof {
            lemma_bucket_ids_skip(bs0, skey, b as int);
            assert(bs0.skip(b as int)[0] == bs0[b as int]);
            assert(bucket.1@ == ids_of_size(es0, skey));
            lemma_ids_of_size_split(es0, idx as int, skey);
            assert(bucket.1@ == hole + seq![eid] + tail_ids);
            assert forall|l: int| 0 <= l < hole.len() implies hole[l] != eid by {
                lemma_ids_of_size_member(es0.take(idx as int), skey, l);
                let w = choose|w: int|
                    0 <= w < es0.take(idx as int).len() && (#[trigger] es0.take(idx as int)[
                    w]).id == hole[l] && es0.take(idx as int)[w].players@.len() == skey;
                assert(es0[w] == es0.take(idx as int)[w]);
            }
            assert(bucket.1@[hole.len() as int] == eid);
        }
        let p = match find_id_position(&bucket.1, entry_id) {
            None => {
                proof {
                    assert(false);
                }
                vstd::pervasive::unreached()
            },
            Some(p) => p,
        };
        proof {
            assert(p as int == hole.len());
        }
        bucket.1.remove(p);
        self.entries_by_size.insert(b, bucket);
        proof {
            let es1 = self.entries@;
            let bs1 = self.entries_by_size@;
            assert(es1 == es0.remove(idx as int));
            assert(bucket.1@ =~= hole + tail_ids);
            assert(bs1 =~= bs0.update(b as int, (bs0[b as int].0, bucket.1)));
            assert forall|i: int, j: int| 0 <= i < j < es1.len() implies (
            #[trigger] es1[i]).id != (#[trigger] es1[j]).id by {
                let i0: int = if i < idx as int {
                    i
                } else {
                    i + 1
                };
                let j0: int = if j < idx as int {
                    j
                } else {
                    j + 1
                };
                assert(es1[i] == es0[i0] && es1[j] == es0[j0]);
            }
            assert forall|i: int| 0 <= i < es1.len() implies old(self).accepts_size(
                (#[trigger] es1[i]).players@.len() as int,
            ) by {
                let i0: int = if i < idx as int {
                    i
                } else {
                    i + 1
                };
                assert(es1[i] == es0[i0]);
            }
            assert forall|i: int, j: int| 0 <= i < j < bs1.len() implies (
            #[trigger] bs1[i]).0 != (#[trigger] bs1[j]).0 by {
                assert(bs1[i].0 == bs0[i].0 && bs1[j].0 == bs0[j].0);
            }
            assert forall|i: int| 0 <= i < bs1.len() implies (#[trigger] bs1[i]).1@
                == ids_of_size(es1, bs1[i].0 as int) by {
                lemma_ids_of_size_split(es0, idx as int, bs1[i].0 as int);
                if i == b as int {
                    assert(bs1[i].1@ == hole + tail_ids);
                } else {
                    assert(bs1[i] == bs0[i]);
                    assert(bs0[i].0 != key);
                }
            }
            assert forall|i: int| 0 <= i < es1.len() implies bucket_has(
                bs1,
                (#[trigger] es1[i]).players@.len() as int,
            ) by {
                let i0: int = if i < idx as int {
                    i
                } else {
                    i + 1
                };
                assert(es1[i] == es0[i0]);
                lemma_bucket_has_index(bs0, es0[i0].players@.len() as int);
                lemma_bucket_has_index(bs1, es0[i0].players@.len() as int);
                let w = choose|w: int|
                    0 <= w < bs0.len() && (#[trigger] bs0[w]).0 == es0[i0].players@.len() as int;
                assert(bs1[w].0 == bs0[w].0);
            }
        }
        Ok(e)
    }

    /// Drains every entry, returning them in admission order; the size index
    /// is cleared with them.
    pub fn remove_all(&mut self) -> (r: Vec<Entry>)
        requires
            old(self).wf(),
        ensures
            final(self).wf(),
            final(self).config() == old(self).config(),
            r@ == old(self).entries@,
            final(self).entries@.len() == 0,
            final(self).entries_by_size@.len() == 0,
    {
        let mut drained: Vec<Entry> = Vec::new();
        while self.entries.len() > 0
            invariant
                drained@ + self.entries@ == old(self).entries@,
                self.number_of_teams == old(self).number_of_teams,
                self.team_size == old(self).team_size,
                self.max_entry_size == old(self).max_entry_size,
                self.min_entry_size == old(self).min_entry_size,
                self.addends == old(self).addends,
                old(self).wf(),
            decreases self.entries@.len(),
    {
            let e = self.entries.remove(0);
            drained.push(e);
            proof {
                assert(drained@ + self.entries@ =~= old(self).entries@);
            }
        }
        self.entries_by_size = Vec::new();
        proof {
            assert(drained@ =~= old(self).entries@);
        }
        drained
    }

    /// One matching attempt.  It never fails: either the first assignment of
    /// team compositions in depth-first order is materialized into teams, or
    /// the attempt is skipped.  This only reads; the entries of a match are
    /// removed once the queue commits it.
    pub fn matchmake(&self) -> (r: MatchmakerResult)
        requires
            self.wf(),
        ensures
            ({
                let sr = search_at(
                    addends_view(self.addends),
                    self.avail_counts(),
                    0,
                    self.number_of_teams as int,
                );
                match sr {
                    None => (r matches MatchmakerResult::Skip(m) && m@
                        == "Not enough players to form a match"@),
                    Some(asg) => (r matches MatchmakerResult::Matched(ts) && teams_view(ts@)
                        == picked_teams(*self, asg)),
                }
            }),
    {
        let ghost comps_spec = addends_view(self.addends);
        let ghost av0 = self.avail_counts();
        let mut avail: Vec<(i32, usize)> = Vec::new();
        let mut bi: usize = 0;
        proof {
            assert(counts_view(avail@) =~= av0.take(0));
        }
        while bi < self.entries_by_size.len()
            invariant
                self.wf(),
                av0 == self.avail_counts(),
                bi <= self.entries_by_size@.len(),
                avail@.len() == bi,
                counts_view(avail@) == av0.take(bi as int),
            decreases self.entries_by_size@.len() - bi,
        {
            avail.push((self.entries_by_size[bi].0, self.entries_by_size[bi].1.len()));
            proof {
                assert(counts_view(avail@) =~= av0.take(bi as int + 1));
            }
            bi = bi + 1;
        }
        proof {
            assert(av0.take(self.entries_by_size@.len() as int) =~= av0);
            assert(keys_unique(av0)) by {
                assert forall|a: int, b: int| 0 <= a < b < av0.len() implies (
                #[trigger] av0[a]).0 != (#[trigger] av0[b]).0 by {
                    assert(av0[a].0 == self.entries_by_size@[a].0 as int);
                    assert(av0[b].0 == self.entries_by_size@[b].0 as int);
                }
            }
        }
        let k = self.number_of_teams as usize;
        let asg = match search_teams(&self.addends, &avail, 0, k) {
            None => {
                return MatchmakerResult::Skip("Not enough players to form a match".to_owned());
            },
            Some(a) => a,
        };
        let ghost asgv = addends_view(asg);
        proof {
            assert(counts_nonneg(av0)) by {
                assert forall|a: int| 0 <= a < av0.len() implies (#[trigger] av0[a]).1 >= 0 by {
                    assert(av0[a].1 == self.entries_by_size@[a].1@.len() as int);
                }
            }
            lemma_search_fits(comps_spec, av0, 0, k as int);
        }
        let mut tracker: Vec<(i32, usize)> = Vec::new();
        let mut result_teams: Vec<Vec<EntryId>> = Vec::new();
        let mut t: usize = 0;
        proof {
            assert(asgv.take(0) =~= Seq::<Seq<int>>::empty());
        }
        while t < asg.len()
            invariant
                self.wf(),
                asgv == addends_view(asg),
                asgv.len() == asg@.len(),
                t <= asg@.len(),
                av0 == self.avail_counts(),
                forall|s: int| #[trigger] mult_in_all(asgv, s) <= count_in(av0, s),
                result_teams@.len() == t,
                forall|tt: int|
                    0 <= tt < t ==> (#[trigger] result_teams@[tt])@ == picked_team(
                        *self,
                        asgv,
                        tt,
                    ),
                keys_unique(counts_view(tracker@)),
                forall|s: int|
                    #[trigger] count_in(counts_view(tracker@), s) == mult_in_all(
                        asgv.take(t as int),
                        s,
                    ),
            decreases asg@.len() - t,
        {
            let comp = &asg[t];
            let ghost cv = asgv[t as int];
            proof {
                lemma_row_view_at(&asg, t as int);
                assert(cv == row_view(comp@));
                assert(cv.take(0) =~= Seq::<int>::empty());
                assert(mult_in(Seq::<int>::empty(), 0) == 0);
            }
            let mut team: Vec<EntryId> = Vec::new();
            let mut j: usize = 0;
            while j < comp.len()
                invariant
                    self.wf(),
                    asgv == addends_view(asg),
                    asgv.len() == asg@.len(),
                    t < asg@.len(),
                    av0 == self.avail_counts(),
                    cv == asgv[t as int],
                    cv == row_view(comp@),
                    cv.len() == comp@.len(),
                    j <= comp@.len(),
                    forall|s: int| #[trigger] mult_in_all(asgv, s) <= count_in(av0, s),
                    team@.len() == j,
                    forall|jj: int|
                        0 <= jj < j ==> team@[jj] == picked_team(*self, asgv, t as int)[jj],
                    keys_unique(counts_view(tracker@)),
                    forall|s: int|
                        #[trigger] count_in(counts_view(tracker@), s) == mult_in_all(
                            asgv.take(t as int),
                            s,
                        ) + mult_in(cv.take(j as int), s),
                decreases comp@.len() - j,
            {
                let s_val = comp[j];
                let ghost ss = s_val as int;
                let ghost bs = self.entries_by_size@;
                let idx = lookup_count(&tracker, s_val);
                proof {
                    assert(cv[j as int] == ss);
                    lemma_counts_of_buckets(bs, ss);
                    // the whole assignment never asks for more parties of one
                    // size than are waiting
                    assert(asgv =~= asgv.take(t as int).push(cv) + asgv.skip(t as int + 1));
                    lemma_mult_in_all_concat(
                        asgv.take(t as int).push(cv),
                        asgv.skip(t as int + 1),
                        ss,
                    );
                    lemma_mult_in_all_push(asgv.take(t as int), cv, ss);
                    lemma_mult_in_all_nonneg(asgv.skip(t as int + 1), ss);
                    // and this slot itself still has a party left
                    assert(cv =~= cv.take(j as int).push(cv[j as int]) + cv.skip(j as int + 1));
                    lemma_mult_in_concat(
                        cv.take(j as int).push(cv[j as int]),
                        cv.skip(j as int + 1),
                        ss,
                    );
                    lemma_mult_in_push(cv.take(j as int), cv[j as int], ss);
                    lemma_mult_in_nonneg(cv.skip(j as int + 1), ss);
                    assert(idx as int == picked_index(asgv, t as int, j as int));
                    assert(idx < bucket_ids(bs, ss).len());
                }
                let b = match find_bucket_index(&self.entries_by_size, s_val) {
                    None => {
                        proof {
                            lemma_bucket_ids_skip(bs, ss, bs.len() as int);
                            assert(bs.skip(bs.len() as int)
                                =~= Seq::<(i32, Vec<EntryId>)>::empty());
                            assert(false);
                        }
                        vstd::pervasive::unreached()
                    },
                    Some(b) => b,
                };
                proof {
                    lemma_bucket_ids_skip(bs, ss, b as int);
                    assert(bs.skip(b as int)[0] == bs[b as int]);
                    assert(bucket_ids(bs, ss) == bs[b as int].1@);
                }
                let blen = self.entries_by_size[b].1.len();
                proof {
                    assert(idx < blen);
                }
                let id = self.entries_by_size[b].1[idx];
                team.push(id);
                bump_counter(&mut tracker, s_val);
                proof {
                    assert(team@[j as int] == picked_team(*self, asgv, t as int)[j as int]);
                    assert(cv.take(j as int + 1) =~= cv.take(j as int).push(cv[j as int]));
                    assert forall|s: int|
                        #[trigger] count_in(counts_view(tracker@), s) == mult_in_all(
                            asgv.take(t as int),
                            s,
                        ) + mult_in(cv.take(j as int + 1), s) by {
                        lemma_mult_in_push(cv.take(j as int), cv[j as int], s);
                    }
                }
                j = j + 1;
            }
            proof {
                assert(cv.take(comp@.len() as int) =~= cv);
                assert(team@ =~= picked_team(*self, asgv, t as int));
                assert(asgv.take(t as int + 1) =~= asgv.take(t as int).push(cv));
            }
            result_teams.push(team);
            proof {
                assert forall|s: int|
                    #[trigger] count_in(counts_view(tracker@), s) == mult_in_all(
                        asgv.take(t as int + 1),
                        s,
                    ) by {
                    lemma_mult_in_all_push(asgv.take(t as int), cv, s);
                }
            }
            t = t + 1;
        }
        proof {
            assert(teams_view(result_teams@) =~~= picked_teams(*self, asgv));
        }
        MatchmakerResult::Matched(result_teams)
    }

    /// Packs the given party sizes into `num_teams` teams of `team_size` players
    /// each, returning the first workable list of team compositions in
    /// depth-first order, or nothing when the sizes cannot be packed.
    pub fn build_teams(teams: &[i32], team_size: i32, num_teams: usize) -> (r: Option<Vec<Vec<i32>>>)
        ensures
            team_size <= 0 ==> r is None,
            team_size > 0 ==> ({
                let sr = search_at(
                    partition_list(team_size as int),
                    counts_of(row_view(teams@)),
                    0,
                    num_teams as int,
                );
                match r {
                    None => sr is None,
                    Some(v) => sr == Some(addends_view(v)),
                }
            }),
    {
        let addends = match find_unique_addends(team_size) {
            Ok(a) => a,
            Err(_) => {
                return None;
            },
        };
        let ghost sizes = row_view(teams@);
        let mut counter: Vec<(i32, usize)> = Vec::new();
        let mut j: usize = 0;
        proof {
            assert(counts_view(counter@) =~= counts_of(sizes.take(0)));
        }
        while j < teams.len()
            invariant
                j <= teams@.len(),
                sizes == row_view(teams@),
                sizes.len() == teams@.len(),
                counter@.len() <= j,
                keys_unique(counts_view(counter@)),
                counts_view(counter@) == counts_of(sizes.take(j as int)),
                forall|l: int|
                    0 <= l < counter@.len() ==> (#[trigger] counts_view(counter@)[l]).1 <= j,
            decreases teams@.len() - j,
        {
            let ghost pre = counts_view(counter@);
            proof {
                lemma_has_key_index(pre, teams@[j as int] as int);
                if has_key(pre, teams@[j as int] as int) {
                    let w = choose|w: int|
                        0 <= w < pre.len() && (#[trigger] pre[w]).0 == teams@[j as int] as int;
                    lemma_count_in_at(pre, w);
                } else {
                    lemma_count_in_absent(pre, teams@[j as int] as int);
                }
            }
            bump_size(&mut counter, teams[j]);
            proof {
                assert(sizes.take(j as int + 1).drop_last() =~= sizes.take(j as int));
                assert(sizes.take(j as int + 1).last() == sizes[j as int]);
                let nv = counts_view(counter@);
                assert(nv == bump_key(pre, sizes[j as int]));
                assert forall|l: int| 0 <= l < nv.len() implies (#[trigger] nv[l]).1 <= j + 1 by {
                    if has_key(pre, sizes[j as int]) {
                        assert(nv[l] == (if pre[l].0 == sizes[j as int] {
                            (pre[l].0, pre[l].1 + 1)
                        } else {
                            pre[l]
                        }));
                    } else {
                        if l < pre.len() {
                            assert(nv[l] == pre[l]);
                        }
                    }
                }
            }
            j = j + 1;
        }
        proof {
            assert(sizes.take(teams@.len() as int) =~= sizes);
        }
        search_teams(&addends, &counter, 0, num_teams)
    }

    /// The waiting entries, in admission order.
    pub fn get_entries(&self) -> (r: &Vec<Entry>)
        ensures
            r == self.entries,
    {
        &self.entries
    }

    /// The waiting entry carrying `entry_id`, if any.
    pub fn get_entry(&self, entry_id: &EntryId) -> (r: Option<&Entry>)
        requires
            self.wf(),
        ensures
            match r {
                Some(e) => spec_has_entry(self.entries@, *entry_id) && *e == self.entries@[
                    index_of_id(self.entries@, *entry_id)],
                None => !spec_has_entry(self.entries@, *entry_id),
            },
    {
        match find_entry_index(&self.entries, entry_id) {
            Some(p) => {
                proof {
                    let w = index_of_id(self.entries@, *entry_id);
                    assert(self.entries@[w].id == *entry_id);
                    assert(w == p as int);
                }
                Some(&self.entries[p])
            },
            None => None,
        }
    }
}

} // verus!
