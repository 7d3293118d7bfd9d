//! Multiplicity counting over sequences and association lists of counters.
//!
//! The matchers track how many waiting parties of each size exist, how many
//! of them a team composition consumes, and how many have already been picked
//! while teams are materialized.  All three are counters keyed by party size,
//! held as association lists with unique keys.

use vstd::prelude::*;

verus! {

/// The number of occurrences of `s` in `c`.
pub open spec fn mult_in(c: Seq<int>, s: int) -> int
    decreases c.len(),
{
    if c.len() == 0 {
        0
    } else {
        (if c[0] == s {
            1int
        } else {
            0int
        }) + mult_in(c.drop_first(), s)
    }
}

/// The number of occurrences of `s` over all rows of `cs`.
pub open spec fn mult_in_all(cs: Seq<Seq<int>>, s: int) -> int
    decreases cs.len(),
{
    if cs.len() == 0 {
        0
    } else {
        mult_in(cs[0], s) + mult_in_all(cs.drop_first(), s)
    }
}

/// The counter stored under key `s`, or zero when no pair carries that key.
pub open spec fn count_in(av: Seq<(int, int)>, s: int) -> int
    decreases av.len(),
{
    if av.len() == 0 {
        0
    } else if av[0].0 == s {
        av[0].1
    } else {
        count_in(av.drop_first(), s)
    }
}

/// Whether some pair of `av` carries the key `s`.
pub open spec fn has_key(av: Seq<(int, int)>, s: int) -> bool
    decreases av.len(),
{
    if av.len() == 0 {
        false
    } else {
        av[0].0 == s || has_key(av.drop_first(), s)
    }
}

/// No two pairs of `av` carry the same key.
pub open spec fn keys_unique(av: Seq<(int, int)>) -> bool {
    forall|i: int, j: int| 0 <= i < j < av.len() ==> (#[trigger] av[i]).0 != (#[trigger] av[j]).0
}

/// Every counter of `av` is non-negative.
pub open spec fn counts_nonneg(av: Seq<(int, int)>) -> bool {
    forall|i: int| 0 <= i < av.len() ==> (#[trigger] av[i]).1 >= 0
}

/// A machine-word association list, seen as a mathematical one.
pub open spec fn counts_view(av: Seq<(i32, usize)>) -> Seq<(int, int)> {
    av.map_values(|p: (i32, usize)| (p.0 as int, p.1 as int))
}

pub proof fn lemma_mult_in_nonneg(c: Seq<int>, s: int)
    ensures
        mult_in(c, s) >= 0,
        mult_in(c, s) <= c.len(),
    decreases c.len(),
{
    if c.len() > 0 {
        lemma_mult_in_nonneg(c.drop_first(), s);
    }
}

pub proof fn lemma_mult_in_concat(a: Seq<int>, b: Seq<int>, s: int)
    ensures
        mult_in(a + b, s) == mult_in(a, s) + mult_in(b, s),
    decreases a.len(),
{
    if a.len() == 0 {
        assert(a + b =~= b);
    } else {
        assert((a + b).drop_first() =~= a.drop_first() + b);
        lemma_mult_in_concat(a.drop_first(), b, s);
    }
}

pub proof fn lemma_mult_in_push(c: Seq<int>, x: int, s: int)
    ensures
        mult_in(c.push(x), s) == mult_in(c, s) + (if x == s {
            1int
        } else {
            0int
        }),
{
    assert(c.push(x) =~= c + seq![x]);
    lemma_mult_in_concat(c, seq![x], s);
    assert(seq![x].drop_first() =~= Seq::<int>::empty());
    assert(mult_in(Seq::<int>::empty(), s) == 0);
    assert(mult_in(seq![x], s) == (if x == s {
        1int
    } else {
        0int
    }));
}

/// A value that occurs nowhere in `c` has multiplicity zero.
pub proof fn lemma_mult_in_zero(c: Seq<int>, s: int)
    requires
        forall|j: int| 0 <= j < c.len() ==> c[j] != s,
    ensures
        mult_in(c, s) == 0,
    decreases c.len(),
{
    if c.len() > 0 {
        assert(forall|j: int|
            0 <= j < c.drop_first().len() ==> c.drop_first()[j] == c[j + 1]);
        lemma_mult_in_zero(c.drop_first(), s);
    }
}

pub proof fn lemma_mult_in_all_nonneg(cs: Seq<Seq<int>>, s: int)
    ensures
        mult_in_all(cs, s) >= 0,
    decreases cs.len(),
{
    if cs.len() > 0 {
        lemma_mult_in_nonneg(cs[0], s);
        lemma_mult_in_all_nonneg(cs.drop_first(), s);
    }
}

pub proof fn lemma_mult_in_all_concat(a: Seq<Seq<int>>, b: Seq<Seq<int>>, s: int)
    ensures
        mult_in_all(a + b, s) == mult_in_all(a, s) + mult_in_all(b, s),
    decreases a.len(),
{
    if a.len() == 0 {
        assert(a + b =~= b);
    } else {
        assert((a + b).drop_first() =~= a.drop_first() + b);
        assert((a + b)[0] == a[0]);
        lemma_mult_in_all_concat(a.drop_first(), b, s);
    }
}

pub proof fn lemma_mult_in_all_push(cs: Seq<Seq<int>>, c: Seq<int>, s: int)
    ensures
        mult_in_all(cs.push(c), s) == mult_in_all(cs, s) + mult_in(c, s),
{
    assert(cs.push(c) =~= cs + seq![c]);
    lemma_mult_in_all_concat(cs, seq![c], s);
    assert(seq![c].drop_first() =~= Seq::<Seq<int>>::empty());
    assert(mult_in_all(Seq::<Seq<int>>::empty(), s) == 0);
    assert(mult_in_all(seq![c], s) == mult_in(c, s));
}

/// If the keys before position `j` all differ from `s`, the lookup is decided
/// by the pairs from `j` on.
pub proof fn lemma_count_in_skip(av: Seq<(int, int)>, s: int, j: int)
    requires
        0 <= j <= av.len(),
        forall|l: int| 0 <= l < j ==> (#[trigger] av[l]).0 != s,
    ensures
        count_in(av, s) == count_in(av.skip(j), s),
        has_key(av, s) == has_key(av.skip(j), s),
    decreases j,
{
    if j > 0 {
        assert(av.skip(1) =~= av.drop_first());
        assert(forall|l: int|
            0 <= l < j - 1 ==> (#[trigger] av.drop_first()[l]).0 == av[l + 1].0);
        lemma_count_in_skip(av.drop_first(), s, j - 1);
        assert(av.drop_first().skip(j - 1) =~= av.skip(j));
    } else {
        assert(av.skip(0) =~= av);
    }
}

/// With unique keys, the pair at position `j` decides the lookup of its key.
pub proof fn lemma_count_in_at(av: Seq<(int, int)>, j: int)
    requires
        keys_unique(av),
        0 <= j < av.len(),
    ensures
        count_in(av, av[j].0) == av[j].1,
        has_key(av, av[j].0),
{
    lemma_count_in_skip(av, av[j].0, j);
    assert(av.skip(j)[0] == av[j]);
}

/// A key that no pair carries looks up to zero.
pub proof fn lemma_count_in_absent(av: Seq<(int, int)>, s: int)
    requires
        !has_key(av, s),
    ensures
        count_in(av, s) == 0,
    decreases av.len(),
{
    if av.len() > 0 {
        lemma_count_in_absent(av.drop_first(), s);
    }
}

pub proof fn lemma_count_in_nonneg(av: Seq<(int, int)>, s: int)
    requires
        counts_nonneg(av),
    ensures
        count_in(av, s) >= 0,
    decreases av.len(),
{
    if av.len() > 0 {
        assert(counts_nonneg(av.drop_first())) by {
            assert(forall|i: int|
                0 <= i < av.drop_first().len() ==> av.drop_first()[i] == av[i + 1]);
        }
        lemma_count_in_nonneg(av.drop_first(), s);
    }
}

/// A key is present exactly when some pair carries it.
pub proof fn lemma_has_key_index(av: Seq<(int, int)>, s: int)
    ensures
        has_key(av, s) <==> exists|i: int| 0 <= i < av.len() && (#[trigger] av[i]).0 == s,
    decreases av.len(),
{
    if av.len() > 0 {
        lemma_has_key_index(av.drop_first(), s);
        if av[0].0 == s {
        } else if has_key(av.drop_first(), s) {
            let i = choose|i: int|
                0 <= i < av.drop_first().len() && (#[trigger] av.drop_first()[i]).0 == s;
            assert(av[i + 1].0 == s);
        } else {
            assert(forall|i: int|
                0 < i < av.len() ==> (#[trigger] av[i]).0 == av.drop_first()[i - 1].0);
        }
    }
}

/// Updating the counter at position `p` moves only its own key's count.
pub proof fn lemma_counter_update(av: Seq<(int, int)>, p: int, v: int, s: int)
    requires
        keys_unique(av),
        0 <= p < av.len(),
    ensures
        count_in(av.update(p, (av[p].0, v)), s) == (if s == av[p].0 {
            v
        } else {
            count_in(av, s)
        }),
        has_key(av.update(p, (av[p].0, v)), s) == has_key(av, s),
    decreases p,
{
    let nv = av.update(p, (av[p].0, v));
    if p == 0 {
        assert(nv.drop_first() =~= av.drop_first());
    } else {
        assert(nv[0] == av[0]);
        assert(av[0].0 != av[p].0);
        assert(keys_unique(av.drop_first())) by {
            assert(forall|i: int|
                0 <= i < av.drop_first().len() ==> av.drop_first()[i] == av[i + 1]);
        }
        assert(nv.drop_first() =~= av.drop_first().update(p - 1, (av.drop_first()[p - 1].0, v)));
        lemma_counter_update(av.drop_first(), p - 1, v, s);
    }
}

/// Appending a pair under a fresh key changes only that key's count.
pub proof fn lemma_counter_push_new(av: Seq<(int, int)>, key: int, v: int, s: int)
    requires
        !has_key(av, key),
    ensures
        count_in(av.push((key, v)), s) == (if s == key {
            v
        } else {
            count_in(av, s)
        }),
        has_key(av.push((key, v)), s) == (has_key(av, s) || s == key),
    decreases av.len(),
{
    if av.len() == 0 {
        assert(av.push((key, v)).drop_first() =~= Seq::<(int, int)>::empty());
        assert(count_in(Seq::<(int, int)>::empty(), s) == 0);
        assert(!has_key(Seq::<(int, int)>::empty(), s));
        assert(av.push((key, v))[0] == (key, v));
        assert(count_in(av.push((key, v)), s) == (if s == key {
            v
        } else {
            0int
        }));
    } else {
        assert(av.push((key, v)).drop_first() =~= av.drop_first().push((key, v)));
        assert(av.push((key, v))[0] == av[0]);
        lemma_counter_push_new(av.drop_first(), key, v, s);
    }
}

/// Counts the occurrences of `v` in `c`.
pub fn count_occ(c: &Vec<i32>, v: i32) -> (r: usize)
    ensures
        r as int == mult_in(crate::partitions::row_view(c@), v as int),
{
    let ghost cv = crate::partitions::row_view(c@);
    let mut cnt: usize = 0;
    let mut j: usize = 0;
    proof {
        assert(cv.take(0) =~= Seq::<int>::empty());
    }
    while j < c.len()
        invariant
            0 <= j <= c.len(),
            cnt <= j,
            cv.len() == c.len(),
            cv == crate::partitions::row_view(c@),
            cnt as int == mult_in(cv.take(j as int), v as int),
        decreases c.len() - j,
    {
        proof {
            assert(cv.take(j as int + 1) =~= cv.take(j as int).push(cv[j as int]));
            lemma_mult_in_push(cv.take(j as int), cv[j as int], v as int);
        }
        if c[j] == v {
            cnt = cnt + 1;
        }
        j = j + 1;
    }
    proof {
        assert(cv.take(c.len() as int) =~= cv);
    }
    cnt
}

/// Looks the key `s` up in a counter list; absent keys count zero.
pub fn lookup_count(av: &Vec<(i32, usize)>, s: i32) -> (r: usize)
    ensures
        r as int == count_in(counts_view(av@), s as int),
{
    let ghost avv = counts_view(av@);
    let mut j: usize = 0;
    while j < av.len()
        invariant
            0 <= j <= av.len(),
            avv == counts_view(av@),
            avv.len() == av.len(),
            forall|l: int| 0 <= l < j ==> (#[trigger] avv[l]).0 != s as int,
        decreases av.len() - j,
    {
        if av[j].0 == s {
            proof {
                lemma_count_in_skip(avv, s as int, j as int);
                assert(avv.skip(j as int)[0] == avv[j as int]);
            }
            return av[j].1;
        }
        j = j + 1;
    }
    proof {
        lemma_count_in_skip(avv, s as int, av.len() as int);
        assert(avv.skip(av.len() as int) =~= Seq::<(int, int)>::empty());
    }
    0
}

/// Raises the counter under `s` by one, creating it at one when absent.
pub fn bump_counter(tr: &mut Vec<(i32, usize)>, s: i32)
    requires
        keys_unique(counts_view(old(tr)@)),
        count_in(counts_view(old(tr)@), s as int) < usize::MAX as int,
    ensures
        keys_unique(counts_view(final(tr)@)),
        forall|t: int|
            #[trigger] count_in(counts_view(final(tr)@), t) == count_in(
                counts_view(old(tr)@),
                t,
            ) + (if t == s as int {
                1int
            } else {
                0int
            }),
{
    let ghost avv = counts_view(tr@);
    let mut j: usize = 0;
    while j < tr.len()
        invariant
            j <= tr.len(),
            avv == counts_view(tr@),
            avv == counts_view(old(tr)@),
            avv.len() == tr@.len(),
            keys_unique(avv),
            count_in(avv, s as int) < usize::MAX as int,
            forall|l: int| 0 <= l < j ==> (#[trigger] avv[l]).0 != s as int,
        decreases tr.len() - j,
    {
        if tr[j].0 == s {
            proof {
                lemma_count_in_skip(avv, s as int, j as int);
                assert(avv.skip(j as int)[0] == avv[j as int]);
                assert(count_in(avv, s as int) == avv[j as int].1);
            }
            let c = tr[j].1;
            tr.set(j, (s, c + 1));
            proof {
                let nv = counts_view(tr@);
                assert(nv =~= avv.update(j as int, (avv[j as int].0, c as int + 1)));
                assert forall|t: int|
                    #[trigger] count_in(nv, t) == count_in(avv, t) + (if t == s as int {
                        1int
                    } else {
                        0int
                    }) by {
                    lemma_counter_update(avv, j as int, c as int + 1, t);
                }
                assert forall|a: int, b: int| 0 <= a < b < nv.len() implies (
                #[trigger] nv[a]).0 != (#[trigger] nv[b]).0 by {
                    assert(nv[a].0 == avv[a].0 && nv[b].0 == avv[b].0);
                }
            }
            return ;
        }
        j = j + 1;
    }
    proof {
        lemma_count_in_skip(avv, s as int, avv.len() as int);
        assert(avv.skip(avv.len() as int) =~= Seq::<(int, int)>::empty());
        assert(!has_key(avv, s as int));
        lemma_count_in_absent(avv, s as int);
    }
    tr.push((s, 1));
    proof {
        let nv = counts_view(tr@);
        assert(nv =~= avv.push((s as int, 1int)));
        assert forall|t: int|
            #[trigger] count_in(nv, t) == count_in(avv, t) + (if t == s as int {
                1int
            } else {
                0int
            }) by {
            lemma_counter_push_new(avv, s as int, 1, t);
        }
        lemma_has_key_index(avv, s as int);
        assert forall|a: int, b: int| 0 <= a < b < nv.len() implies (#[trigger] nv[a]).0 != (
        #[trigger] nv[b]).0 by {
            if b < avv.len() {
                assert(nv[a].0 == avv[a].0 && nv[b].0 == avv[b].0);
            } else {
                assert(nv[a].0 == avv[a].0 && nv[b].0 == s as int);
            }
        }
    }
}

} // verus!
