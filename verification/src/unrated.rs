//! The earliest drafts of the partition matcher: team-size addends kept as
//! per-size counters in ascending order, and an assembly that always takes
//! the first addend — the all-singles composition — so teams are drawn from
//! single-player parties in reverse admission order.

use vstd::prelude::*;
use crate::entry::QueueEntry;

verus! {

/// All partitions of `n` into non-decreasing addends at least `min`, ordered
/// with smaller leading addends first.
pub open spec fn parts_asc(min: int, n: int) -> Seq<Seq<int>>
    decreases n, n - min,
{
    if min <= 0 || n < 0 {
        Seq::empty()
    } else if n == 0 {
        seq![Seq::empty()]
    } else if min > n {
        Seq::empty()
    } else if min == n {
        seq![seq![n]]
    } else {
        parts_asc(min, n - min).map_values(|p: Seq<int>| seq![min] + p) + parts_asc(min + 1, n)
    }
}

/// The length of the leading run of equal values.
pub open spec fn run_len(p: Seq<int>) -> int
    decreases p.len(),
{
    if p.len() == 0 {
        0
    } else if p.len() == 1 {
        1
    } else if p[1] != p[0] {
        1
    } else {
        1 + run_len(p.drop_first())
    }
}

/// A non-empty sequence has a leading run of at least one value.
pub proof fn lemma_run_len_bounds(p: Seq<int>)
    ensures
        p.len() == 0 ==> run_len(p) == 0,
        p.len() > 0 ==> 1 <= run_len(p) <= p.len(),
        forall|l: int| 0 <= l < run_len(p) ==> #[trigger] p[l] == p[0],
    decreases p.len(),
{
    if p.len() > 1 && p[1] == p[0] {
        lemma_run_len_bounds(p.drop_first());
        assert forall|l: int| 0 <= l < run_len(p) implies #[trigger] p[l] == p[0] by {
            if l > 0 {
                assert(p.drop_first()[l - 1] == p[l]);
            }
        }
    }
}

/// The run-length counters of a non-decreasing sequence: each value with the
/// number of its repetitions, in order of first occurrence.
pub open spec fn rle(p: Seq<int>) -> Seq<(int, int)>
    decreases p.len(),
{
    if p.len() == 0 {
        Seq::empty()
    } else {
        let k = (if 1 <= run_len(p) <= p.len() {
            run_len(p)
        } else {
            1int
        });
        seq![(p[0], k)] + rle(p.skip(k))
    }
}

/// What the addend table of a team size holds: every ascending-ordered
/// partition of the size, each as its per-size counters.
pub open spec fn spec_find(n: int) -> Seq<Seq<(int, int)>> {
    parts_asc(1, n).map_values(|p: Seq<int>| rle(p))
}

/// A sequence of `n` ones.
pub open spec fn ones_seq(n: int) -> Seq<int> {
    Seq::new(n as nat, |i: int| 1int)
}

/// The first listed partition of a positive `n` is the all-singles one, so
/// the first addend counter asks for `n` parties of one player.
pub proof fn lemma_first_addend(n: int)
    requires
        1 <= n,
    ensures
        parts_asc(1, n).len() > 0,
        parts_asc(1, n)[0] == ones_seq(n),
        spec_find(n).len() > 0,
        spec_find(n)[0] == seq![(1int, n)],
{
    lemma_parts_asc_first(n);
    lemma_rle_ones(n);
}

proof fn lemma_parts_asc_first(n: int)
    requires
        1 <= n,
    ensures
        parts_asc(1, n).len() > 0,
        parts_asc(1, n)[0] == ones_seq(n),
    decreases n,
{
    if n == 1 {
        assert(parts_asc(1, 1) == seq![seq![1int]]);
        assert(seq![1int] =~= ones_seq(1));
    } else {
        lemma_parts_asc_first(n - 1);
        let mapped = parts_asc(1, n - 1).map_values(|p: Seq<int>| seq![1int] + p);
        assert(parts_asc(1, n)[0] == mapped[0]);
        assert(mapped[0] == seq![1int] + parts_asc(1, n - 1)[0]);
        assert(seq![1int] + ones_seq(n - 1) =~= ones_seq(n));
    }
}

proof fn lemma_rle_ones(n: int)
    requires
        1 <= n,
    ensures
        run_len(ones_seq(n)) == n,
        rle(ones_seq(n)) == seq![(1int, n)],
    decreases n,
{
    let p = ones_seq(n);
    if n == 1 {
        assert(run_len(p) == 1);
    } else {
        lemma_rle_ones(n - 1);
        assert(p.drop_first() =~= ones_seq(n - 1));
        assert(run_len(p) == 1 + run_len(ones_seq(n - 1)));
    }
    lemma_run_len_bounds(p);
    assert(p.skip(n) =~= Seq::<int>::empty());
    assert(rle(Seq::<int>::empty()) =~= Seq::<(int, int)>::empty());
    assert(rle(p) =~= seq![(p[0], n)]);
}

/// A table of counters, seen mathematically.
pub open spec fn counters_view(cs: Seq<Vec<(u64, u64)>>) -> Seq<Seq<(int, int)>> {
    cs.map_values(|c: Vec<(u64, u64)>| c@.map_values(|p: (u64, u64)| (p.0 as int, p.1 as int)))
}

/// The ids of the single-player parties of `q`, in admission order.
pub open spec fn singles_ids(q: Seq<QueueEntry>) -> Seq<u128>
    decreases q.len(),
{
    if q.len() == 0 {
        Seq::empty()
    } else {
        (if q[0].players@.len() == 1 {
            seq![q[0].id]
        } else {
            Seq::empty()
        }) + singles_ids(q.drop_first())
    }
}

proof fn lemma_singles_push(q: Seq<QueueEntry>, e: QueueEntry)
    ensures
        singles_ids(q.push(e)) == singles_ids(q) + (if e.players@.len() == 1 {
            seq![e.id]
        } else {
            Seq::<u128>::empty()
        }),
    decreases q.len(),
{
    if q.len() == 0 {
        assert(q.push(e).drop_first() =~= Seq::<QueueEntry>::empty());
        assert(q.push(e)[0] == e);
        assert(singles_ids(Seq::<QueueEntry>::empty()) =~= Seq::<u128>::empty());
        assert(singles_ids(q.push(e)) =~= (if e.players@.len() == 1 {
            seq![e.id]
        } else {
            Seq::<u128>::empty()
        }));
        assert(singles_ids(q) =~= Seq::<u128>::empty());
    } else {
        assert(q.push(e).drop_first() =~= q.drop_first().push(e));
        assert(q.push(e)[0] == q[0]);
        lemma_singles_push(q.drop_first(), e);
        assert(singles_ids(q.push(e)) =~= singles_ids(q) + (if e.players@.len() == 1 {
            seq![e.id]
        } else {
            Seq::<u128>::empty()
        }));
    }
}

/// Teams of player-party ids, seen mathematically.
pub open spec fn uteams_view(ts: Seq<Vec<u128>>) -> Seq<Seq<u128>> {
    ts.map_values(|t: Vec<u128>| t@)
}

/// The length of the id list of the first bucket keyed `sz`, or zero.
pub open spec fn qbucket_len(bs: Seq<(u64, Vec<QueueEntry>)>, sz: int) -> int
    decreases bs.len(),
{
    if bs.len() == 0 {
        0
    } else if bs[0].0 == sz {
        bs[0].1@.len() as int
    } else {
        qbucket_len(bs.drop_first(), sz)
    }
}

proof fn lemma_qbucket_len_skip(bs: Seq<(u64, Vec<QueueEntry>)>, sz: int, j: int)
    requires
        0 <= j <= bs.len(),
        forall|l: int| 0 <= l < j ==> (#[trigger] bs[l]).0 != sz,
    ensures
        qbucket_len(bs, sz) == qbucket_len(bs.skip(j), sz),
    decreases j,
{
    if j > 0 {
        assert(bs.skip(1) =~= bs.drop_first());
        assert(forall|l: int|
            0 <= l < j - 1 ==> (#[trigger] bs.drop_first()[l]).0 == bs[l + 1].0);
        lemma_qbucket_len_skip(bs.drop_first(), sz, j - 1);
        assert(bs.drop_first().skip(j - 1) =~= bs.skip(j));
    } else {
        assert(bs.skip(0) =~= bs);
    }
}

/// A row of sizes, seen mathematically.
pub open spec fn urow_view(v: Seq<u64>) -> Seq<int> {
    v.map_values(|x: u64| x as int)
}

/// A table of size rows, seen mathematically.
pub open spec fn urows_view(v: Vec<Vec<u64>>) -> Seq<Seq<int>> {
    v.deep_view().map_values(|row: Seq<u64>| urow_view(row))
}

/// A counter row, seen mathematically.
pub open spec fn pairs_view(s: Seq<(u64, u64)>) -> Seq<(int, int)> {
    s.map_values(|p: (u64, u64)| (p.0 as int, p.1 as int))
}

proof fn lemma_urow_at(v: &Vec<Vec<u64>>, i: int)
    requires
        0 <= i < v@.len(),
    ensures
        urows_view(*v)[i] == urow_view(v@[i]@),
{
    assert(v@[i].deep_view() =~= v@[i]@);
}

/// Appends to `out` every partition counted by `parts_asc(min, n)`, each one
/// preceded by the addends already in `prefix`.
fn emit_asc(min: u64, n: u64, prefix: &Vec<u64>, out: &mut Vec<Vec<u64>>)
    requires
        1 <= min,
        1 <= n,
    ensures
        urows_view(*final(out)) == urows_view(*old(out)) + parts_asc(
            min as int,
            n as int,
        ).map_values(|p: Seq<int>| urow_view(prefix@) + p),
    decreases n, n - min,
{
    let ghost pre = urow_view(prefix@);
    if min > n {
        proof {
            assert(urows_view(*out) =~= urows_view(*old(out)) + parts_asc(
                min as int,
                n as int,
            ).map_values(|p: Seq<int>| pre + p));
        }
        return ;
    }
    if min == n {
        let mut done = prefix.clone();
        done.push(n);
        out.push(done);
        proof {
            assert(urow_view(done@) =~= pre + seq![n as int]);
            assert(urows_view(*out) =~~= urows_view(*old(out)) + parts_asc(
                min as int,
                n as int,
            ).map_values(|p: Seq<int>| pre + p));
        }
    } else {
        let mut next = prefix.clone();
        next.push(min);
        emit_asc(min, n - min, &next, out);
        emit_asc(min + 1, n, prefix, out);
        proof {
            let head = parts_asc(min as int, n as int - min as int);
            let rest = parts_asc(min as int + 1, n as int);
            assert(urow_view(next@) =~= pre + seq![min as int]);
            assert(head.map_values(|p: Seq<int>| urow_view(next@) + p) =~~= head.map_values(
                |p: Seq<int>| seq![min as int] + p,
            ).map_values(|p: Seq<int>| pre + p)) by {
                assert forall|i: int| 0 <= i < head.len() implies (pre + seq![min as int])
                    + head[i] =~= pre + (seq![min as int] + head[i]) by {}
            }
            assert((head.map_values(|p: Seq<int>| seq![min as int] + p) + rest).map_values(
                |p: Seq<int>| pre + p,
            ) =~~= head.map_values(|p: Seq<int>| seq![min as int] + p).map_values(
                |p: Seq<int>| pre + p,
            ) + rest.map_values(|p: Seq<int>| pre + p));
            assert(urows_view(*out) =~~= urows_view(*old(out)) + parts_asc(
                min as int,
                n as int,
            ).map_values(|p: Seq<int>| pre + p));
        }
    }
}

/// The leading run of `q` is exactly `k` long when its first `k` values are
/// equal and the value after them, if any, differs.
proof fn lemma_run_len_is(q: Seq<int>, k: int)
    requires
        1 <= k <= q.len(),
        forall|l: int| 0 <= l < k ==> #[trigger] q[l] == q[0],
        k < q.len() ==> q[k] != q[0],
    ensures
        run_len(q) == k,
    decreases k,
{
    if k == 1 {
        if q.len() > 1 {
            assert(q[1] != q[0]);
        }
    } else {
        assert(q[1] == q[0]);
        let d = q.drop_first();
        assert(forall|l: int| 0 <= l < k - 1 ==> #[trigger] d[l] == q[l + 1]);
        assert(d[0] == q[1]);
        if k - 1 < d.len() {
            assert(d[k - 1] == q[k]);
        }
        lemma_run_len_is(d, k - 1);
    }
}

/// The run-length counters of one row of sizes.
fn exec_rle(row: &Vec<u64>) -> (r: Vec<(u64, u64)>)
    ensures
        pairs_view(r@) == rle(urow_view(row@)),
{
    let ghost rv = urow_view(row@);
    let mut out: Vec<(u64, u64)> = Vec::new();
    let mut j: usize = 0;
    proof {
        assert(rv.skip(0) =~= rv);
        assert(pairs_view(out@) =~= Seq::<(int, int)>::empty());
    }
    while j < row.len()
        invariant
            j <= row@.len(),
            rv == urow_view(row@),
            rv.len() == row@.len(),
            rle(rv) == pairs_view(out@) + rle(rv.skip(j as int)),
        decreases row@.len() - j,
    {
        let v = row[j];
        let mut k: usize = 1;
        while k < row.len() - j && row[j + k] == v
            invariant
                j < row@.len(),
                1 <= k,
                j + k <= row@.len(),
                v == row@[j as int],
                rv == urow_view(row@),
                rv.len() == row@.len(),
                forall|l: int| 0 <= l < k ==> #[trigger] rv[j as int + l] == v as int,
            decreases row@.len() - j - k,
        {
            k = k + 1;
        }
        let ghost tail = rv.skip(j as int);
        proof {
            assert forall|l: int| 0 <= l < k implies #[trigger] tail[l] == v as int by {
                assert(tail[l] == rv[j as int + l]);
            }
            assert(tail[0] == v as int);
            if (k as int) < tail.len() {
                assert(tail[k as int] == rv[j as int + k as int]);
                assert(rv[j as int + k as int] != v as int);
            }
            lemma_run_len_is(tail, k as int);
            assert(tail.skip(k as int) =~= rv.skip(j as int + k as int));
            assert(rle(tail) == seq![(v as int, k as int)] + rle(rv.skip(j as int + k as int)));
        }
        let ghost out_pre = out@;
        out.push((v, k as u64));
        proof {
            assert(pairs_view(out@) =~= pairs_view(out_pre).push((v as int, k as int)));
            assert(pairs_view(out@) + rle(rv.skip(j as int + k as int)) =~= rle(rv));
        }
        j = j + k;
    }
    proof {
        assert(rv.skip(rv.len() as int) =~= Seq::<int>::empty());
        assert(rle(Seq::<int>::empty()) =~= Seq::<(int, int)>::empty());
        assert(pairs_view(out@) =~= rle(rv));
    }
    out
}

/// The addend table of a team size: every ascending-ordered partition of the
/// size, each as its per-size counters.
pub fn find(x: u64) -> (r: Vec<Vec<(u64, u64)>>)
    ensures
        counters_view(r@) == spec_find(x as int),
{
    if x == 0 {
        let empty_counter: Vec<(u64, u64)> = Vec::new();
        let mut out: Vec<Vec<(u64, u64)>> = Vec::new();
        out.push(empty_counter);
        proof {
            assert(parts_asc(1, 0) == seq![Seq::<int>::empty()]);
            assert(rle(Seq::<int>::empty()) =~= Seq::<(int, int)>::empty());
            assert(counters_view(out@) =~~= spec_find(0));
        }
        return out;
    }
    let pfx: Vec<u64> = Vec::new();
    let mut rows: Vec<Vec<u64>> = Vec::new();
    emit_asc(1, x, &pfx, &mut rows);
    proof {
        let listed = parts_asc(1, x as int);
        assert(listed.map_values(|p: Seq<int>| urow_view(pfx@) + p) =~~= listed) by {
            assert forall|i: int| 0 <= i < listed.len() implies urow_view(pfx@) + listed[i]
                =~= listed[i] by {}
        }
        assert(urows_view(rows) =~~= listed);
    }
    let mut out: Vec<Vec<(u64, u64)>> = Vec::new();
    let mut i: usize = 0;
    while i < rows.len()
        invariant
            i <= rows@.len(),
            urows_view(rows) == parts_asc(1, x as int),
            urows_view(rows).len() == rows@.len(),
            out@.len() == i,
            forall|l: int|
                0 <= l < i ==> counters_view(out@)[l] == rle(#[trigger] urows_view(rows)[l]),
        decreases rows@.len() - i,
    {
        let counters = exec_rle(&rows[i]);
        proof {
            lemma_urow_at(&rows, i as int);
        }
        out.push(counters);
        i = i + 1;
    }
    proof {
        assert(counters_view(out@) =~~= spec_find(x as int));
    }
    out
}

/// Whether the first addend counter of the table is satisfiable by the
/// waiting parties, grouped by size.  Only the first addend is ever tried:
/// when it cannot be satisfied, no team is built this round.
pub fn find_valid_addend<'a>(
    addends: &'a Vec<Vec<(u64, u64)>>,
    queue_by_size: &Vec<(u64, Vec<QueueEntry>)>,
) -> (r: Option<&'a Vec<(u64, u64)>>)
    ensures
        match r {
            Some(a) => addends@.len() > 0 && a == &addends@[0] && (forall|l: int|
                0 <= l < addends@[0]@.len() ==> (#[trigger] addends@[0]@[l]).1 <= qbucket_len(
                    queue_by_size@,
                    addends@[0]@[l].0 as int,
                )),
            None => addends@.len() == 0 || exists|l: int|
                0 <= l < addends@[0]@.len() && (#[trigger] addends@[0]@[l]).1 > qbucket_len(
                    queue_by_size@,
                    addends@[0]@[l].0 as int,
                ),
        },
{
    if addends.len() == 0 {
        return None;
    }
    let first = &addends[0];
    let mut l: usize = 0;
    while l < first.len()
        invariant
            l <= first@.len(),
            first@ == addends@[0]@,
            addends@.len() > 0,
            forall|l2: int|
                0 <= l2 < l ==> (#[trigger] addends@[0]@[l2]).1 <= qbucket_len(
                    queue_by_size@,
                    addends@[0]@[l2].0 as int,
                ),
        decreases first@.len() - l,
    {
        let sz = first[l].0;
        let needed = first[l].1;
        let mut have: u64 = 0;
        let mut j: usize = 0;
        let mut found = false;
        while j < queue_by_size.len() && !found
            invariant
                j <= queue_by_size@.len(),
                !found ==> have == 0 && (forall|w: int|
                    0 <= w < j ==> (#[trigger] queue_by_size@[w]).0 != sz),
                found ==> 0 < j <= queue_by_size@.len() && queue_by_size@[j as int - 1].0 == sz
                    && have == queue_by_size@[j as int - 1].1@.len() && (forall|w: int|
                    0 <= w < j - 1 ==> (#[trigger] queue_by_size@[w]).0 != sz),
            decreases queue_by_size@.len() - j,
        {
            if queue_by_size[j].0 == sz {
                found = true;
                have = queue_by_size[j].1.len() as u64;
            }
            j = j + 1;
        }
        proof {
            if found {
                lemma_qbucket_len_skip(queue_by_size@, sz as int, j as int - 1);
                assert(queue_by_size@.skip(j as int - 1)[0] == queue_by_size@[j as int - 1]);
            } else {
                lemma_qbucket_len_skip(queue_by_size@, sz as int, queue_by_size@.len() as int);
                assert(queue_by_size@.skip(queue_by_size@.len() as int) =~= Seq::<(
                    u64,
                    Vec<QueueEntry>,
                )>::empty());
            }
            assert(have as int == qbucket_len(queue_by_size@, sz as int));
        }
        if needed > have {
            return None;
        }
        l = l + 1;
    }
    Some(first)
}

/// Collects the ids of the single-player parties, in admission order.
fn collect_singles(in_queue: &[QueueEntry]) -> (r: Vec<u128>)
    ensures
        r@ == singles_ids(in_queue@),
{
    let mut ones: Vec<u128> = Vec::new();
    let mut j: usize = 0;
    proof {
        assert(singles_ids(in_queue@.take(0)) =~= Seq::<u128>::empty());
    }
    while j < in_queue.len()
        invariant
            j <= in_queue@.len(),
            ones@ == singles_ids(in_queue@.take(j as int)),
        decreases in_queue@.len() - j,
    {
        proof {
            assert(in_queue@.take(j as int + 1) =~= in_queue@.take(j as int).push(
                in_queue@[j as int],
            ));
            lemma_singles_push(in_queue@.take(j as int), in_queue@[j as int]);
        }
        if in_queue[j].players.len() == 1 {
            ones.push(in_queue[j].id);
        }
        j = j + 1;
    }
    proof {
        assert(in_queue@.take(in_queue@.len() as int) =~= in_queue@);
    }
    ones
}

/// What team `t` of an assembly holds: `ts` single-player ids, drawn from
/// the end of the singles list, one round after another.
pub open spec fn drafted_team(ones: Seq<u128>, ts: int, t: int) -> Seq<u128> {
    Seq::new(ts as nat, |i: int| ones[ones.len() - t * ts - 1 - i])
}

/// Assembles `k` teams of `ts` single-player parties each, drawing from the
/// end of the singles list; fails when too few single-player parties wait.
fn assemble_singles(in_queue: &[QueueEntry], k: u64, ts: u64) -> (r: Option<Vec<Vec<u128>>>)
    ensures
        ({
            let ones = singles_ids(in_queue@);
            let ki = k as int;
            let tsi = ts as int;
            if ones.len() >= ki * tsi {
                r matches Some(v) && uteams_view(v@) == Seq::new(
                    ki as nat,
                    |t: int| drafted_team(ones, tsi, t),
                )
            } else {
                r is None
            }
        }),
{
    let mut ones = collect_singles(in_queue);
    let ghost ones0 = ones@;
    let ghost len0 = ones0.len() as int;
    let ghost tsi = ts as int;
    let mut teams: Vec<Vec<u128>> = Vec::new();
    let mut t: u64 = 0;
    while t < k
        invariant
            t <= k,
            ones0 == singles_ids(in_queue@),
            len0 == ones0.len(),
            tsi == ts as int,
            t as int * tsi <= len0,
            ones@ == ones0.take(len0 - t as int * tsi),
            teams@.len() == t,
            forall|tt: int|
                0 <= tt < t ==> (#[trigger] teams@[tt])@ == drafted_team(ones0, tsi, tt),
        decreases k - t,
    {
        if (ones.len() as u64) < ts {
            proof {
                assert(len0 - t as int * tsi < tsi);
                assert(len0 < (t as int + 1) * tsi) by (nonlinear_arith)
                    requires
                        len0 - t as int * tsi < tsi,
                ;
                assert((t as int + 1) * tsi <= k as int * tsi) by (nonlinear_arith)
                    requires
                        t as int + 1 <= k as int,
                        tsi >= 0,
                ;
            }
            return None;
        }
        let mut team: Vec<u128> = Vec::new();
        let mut i: u64 = 0;
        while i < ts
            invariant
                i <= ts,
                tsi == ts as int,
                ones0 == singles_ids(in_queue@),
                len0 == ones0.len(),
                t as int * tsi + tsi <= len0,
                ones@ == ones0.take(len0 - t as int * tsi - i as int),
                team@.len() == i,
                forall|ii: int|
                    0 <= ii < i ==> team@[ii] == ones0[len0 - t as int * tsi - 1 - ii],
            decreases ts - i,
        {
            let ghost m = len0 - t as int * tsi - i as int;
            proof {
                assert(m >= 1);
                assert(ones@.len() == m);
            }
            let id = match ones.pop() {
                Some(x) => x,
                None => {
                    proof {
                        assert(false);
                    }
                    vstd::pervasive::unreached()
                },
            };
            proof {
                assert(id == ones0.take(m)[m - 1]);
                assert(ones@ =~= ones0.take(m - 1));
            }
            team.push(id);
            i = i + 1;
        }
        proof {
            assert(team@ =~= drafted_team(ones0, tsi, t as int));
            assert((t as int + 1) * tsi == t as int * tsi + tsi) by (nonlinear_arith);
        }
        teams.push(team);
        t = t + 1;
    }
    proof {
        assert(k as int * tsi <= len0);
        assert(uteams_view(teams@) =~~= Seq::new(
            k as nat,
            |t2: int| drafted_team(ones0, tsi, t2),
        ));
    }
    Some(teams)
}

/// The first draft of the partition matchmaker: a team size, a number of
/// teams, and the addend table of the team size.
pub struct Unrated {
    pub team_size: u64,
    pub number_of_teams: u64,
    pub addends: Vec<Vec<(u64, u64)>>,
}

impl Unrated {
    /// Well-formedness: the addend table is the one of the team size.
    pub open spec fn wf(self) -> bool {
        counters_view(self.addends@) == spec_find(self.team_size as int)
    }

    /// A matcher with its addend table enumerated up front.
    pub fn new(team_size: u64, number_of_teams: u64) -> (r: Box<Unrated>)
        ensures
            r.team_size == team_size,
            r.number_of_teams == number_of_teams,
            r.wf(),
    {
        Box::new(Unrated { team_size, number_of_teams, addends: find(team_size) })
    }

    /// The constant name of this algorithm.
    pub fn namespace(&self) -> (r: &str)
        ensures
            r@ == "unrated"@,
    {
        "unrated"
    }

    /// One matching attempt over the waiting parties.  The first addend of
    /// the table is the all-singles composition, so every team is drawn
    /// from single-player parties, newest first; with too few of them the
    /// attempt fails.
    pub fn matchmake(&self, in_queue: &[QueueEntry]) -> (r: Result<Vec<Vec<u128>>, String>)
        requires
            self.wf(),
        ensures
            ({
                let ones = singles_ids(in_queue@);
                let k = self.number_of_teams as int;
                let ts = self.team_size as int;
                if ones.len() >= k * ts {
                    r matches Ok(v) && uteams_view(v@) == Seq::new(
                        k as nat,
                        |t: int| drafted_team(ones, ts, t),
                    )
                } else {
                    (r matches Err(m) && m@
                        == "Unable to build the required amount of teams (1)."@)
                }
            }),
    {
        proof {
            // the first addend of a positive team size asks for team_size
            // single-player parties, so assembly draws singles only
            if self.team_size >= 1 {
                lemma_first_addend(self.team_size as int);
            }
        }
        match assemble_singles(in_queue, self.number_of_teams, self.team_size) {
            Some(v) => Ok(v),
            None => Err("Unable to build the required amount of teams (1).".to_owned()),
        }
    }

    /// Whether a party fits under the team size.
    pub fn validate_entry(&self, queue_entry: &QueueEntry) -> (r: Result<bool, String>)
        ensures
            queue_entry.players@.len() <= self.team_size ==> (r matches Ok(b) && b),
            queue_entry.players@.len() > self.team_size ==> r is Err,
    {
        if queue_entry.players.len() as u64 <= self.team_size {
            Ok(true)
        } else {
            Err("Team size cannot exceed the configured limit".to_owned())
        }
    }
}

/// A sibling draft of the same matchmaker, kept under its own name.
pub struct UnratedMatchmaker {
    pub team_size: u64,
    pub number_of_teams: u64,
    pub addends: Vec<Vec<(u64, u64)>>,
}

impl UnratedMatchmaker {
    /// Well-formedness: the addend table is the one of the team size.
    pub open spec fn wf(self) -> bool {
        counters_view(self.addends@) == spec_find(self.team_size as int)
    }

    /// A matcher with its addend table enumerated up front.
    pub fn new(team_size: u64, number_of_teams: u64) -> (r: Box<UnratedMatchmaker>)
        ensures
            r.team_size == team_size,
            r.number_of_teams == number_of_teams,
            r.wf(),
    {
        Box::new(UnratedMatchmaker { team_size, number_of_teams, addends: find(team_size) })
    }

    /// The constant name of this algorithm.
    pub fn namespace(&self) -> (r: &str)
        ensures
            r@ == "unrated"@,
    {
        "unrated"
    }

    /// Whether the first addend of the given table is satisfiable now.
    pub fn find_valid_addend<'a>(
        &self,
        addends: &'a Vec<Vec<(u64, u64)>>,
        queue_by_size: &Vec<(u64, Vec<QueueEntry>)>,
    ) -> (r: Option<&'a Vec<(u64, u64)>>)
        ensures
            match r {
                Some(a) => addends@.len() > 0 && a == &addends@[0] && (forall|l: int|
                    0 <= l < addends@[0]@.len() ==> (#[trigger] addends@[0]@[l]).1 <= qbucket_len(
                        queue_by_size@,
                        addends@[0]@[l].0 as int,
                    )),
                None => addends@.len() == 0 || exists|l: int|
                    0 <= l < addends@[0]@.len() && (#[trigger] addends@[0]@[l]).1 > qbucket_len(
                        queue_by_size@,
                        addends@[0]@[l].0 as int,
                    ),
            },
    {
        crate::unrated::find_valid_addend(addends, queue_by_size)
    }

    /// One matching attempt over the waiting parties, as in `Unrated`.
    pub fn matchmake(&self, in_queue: &[QueueEntry]) -> (r: Result<Vec<Vec<u128>>, String>)
        requires
            self.wf(),
        ensures
            ({
                let ones = singles_ids(in_queue@);
                let k = self.number_of_teams as int;
                let ts = self.team_size as int;
                if ones.len() >= k * ts {
                    r matches Ok(v) && uteams_view(v@) == Seq::new(
                        k as nat,
                        |t: int| drafted_team(ones, ts, t),
                    )
                } else {
                    (r matches Err(m) && m@ == "Unable to build the required amount of teams."@)
                }
            }),
    {
        proof {
            // the first addend of a positive team size asks for team_size
            // single-player parties, so assembly draws singles only
            if self.team_size >= 1 {
                lemma_first_addend(self.team_size as int);
            }
        }
        match assemble_singles(in_queue, self.number_of_teams, self.team_size) {
            Some(v) => Ok(v),
            None => Err("Unable to build the required amount of teams.".to_owned()),
        }
    }

    /// Whether a party fits under the team size.
    pub fn validate_entry(&self, queue_entry: &QueueEntry) -> (r: Result<bool, String>)
        ensures
            queue_entry.players@.len() <= self.team_size ==> (r matches Ok(b) && b),
            queue_entry.players@.len() > self.team_size ==> r is Err,
    {
        if queue_entry.players.len() as u64 <= self.team_size {
            Ok(true)
        } else {
            Err("Team size cannot exceed the configured limit".to_owned())
        }
    }
}

} // verus!
