//! Enumeration of the unordered partitions of a positive integer.
//!
//! A team of `n` players can be assembled from parties whose sizes form a
//! partition of `n`.  The enumeration order is significant: partitions with a
//! larger leading addend come first, which biases team composition toward
//! fewer, larger parties.

use vstd::prelude::*;

verus! {

/// The sum of a sequence of integers.
pub open spec fn sum_of(s: Seq<int>) -> int
    decreases s.len(),
{
    if s.len() == 0 {
        0
    } else {
        s[0] + sum_of(s.drop_first())
    }
}

/// Every element of `s` is at least `lo`.
pub open spec fn all_at_least(s: Seq<int>, lo: int) -> bool {
    forall|i: int| 0 <= i < s.len() ==> s[i] >= lo
}

/// The elements of `s` never decrease from left to right.
pub open spec fn non_decreasing(s: Seq<int>) -> bool {
    forall|i: int, j: int| 0 <= i <= j < s.len() ==> s[i] <= s[j]
}

/// `p` is a partition of `n` whose addends are all at least `min`:
/// it sums to `n`, is non-decreasing, and each addend is `min` or more.
pub open spec fn is_partition_from(p: Seq<int>, min: int, n: int) -> bool {
    sum_of(p) == n && all_at_least(p, min) && non_decreasing(p)
}

/// All partitions of `n` into non-decreasing addends that are at least `min`,
/// ordered so that partitions with a larger leading addend come first.
pub open spec fn partitions_from(min: int, n: int) -> Seq<Seq<int>>
    decreases n, n - min,
{
    if min <= 0 || n < 0 {
        Seq::empty()
    } else if n == 0 {
        seq![Seq::empty()]
    } else if min > n {
        Seq::empty()
    } else if min == n {
        seq![seq![n]]
    } else {
        partitions_from(min + 1, n) + partitions_from(min, n - min).map_values(
            |p: Seq<int>| seq![min] + p,
        )
    }
}

/// The full partition list of `n`: every partition of `n` into positive
/// non-decreasing addends, in the order this library produces them.
pub open spec fn partition_list(n: int) -> Seq<Seq<int>> {
    partitions_from(1, n)
}

/// A row of machine integers, seen as a mathematical sequence.
pub open spec fn row_view(v: Seq<i32>) -> Seq<int> {
    v.map_values(|x: i32| x as int)
}

/// A table of machine integers, seen as a sequence of mathematical sequences.
pub open spec fn addends_view(v: Vec<Vec<i32>>) -> Seq<Seq<int>> {
    v.deep_view().map_values(|row: Seq<i32>| row_view(row))
}

proof fn lemma_sum_cons(head: int, tail: Seq<int>)
    ensures
        sum_of(seq![head] + tail) == head + sum_of(tail),
{
    let s = seq![head] + tail;
    assert(s.drop_first() =~= tail);
}

/// A sequence of positive addends sums to at least its length.
proof fn lemma_sum_lower_bound(s: Seq<int>)
    requires
        all_at_least(s, 1),
    ensures
        sum_of(s) >= s.len(),
    decreases s.len(),
{
    if s.len() > 0 {
        assert(all_at_least(s.drop_first(), 1)) by {
            assert(forall|i: int|
                0 <= i < s.drop_first().len() ==> s.drop_first()[i] == s[i + 1]);
        }
        lemma_sum_lower_bound(s.drop_first());
    }
}

/// Soundness of the enumeration: everything listed in `partitions_from(min, n)`
/// is a partition of `n` with addends at least `min`.
pub proof fn lemma_partitions_from_sound(min: int, n: int)
    requires
        1 <= min,
        0 <= n,
    ensures
        forall|i: int|
            0 <= i < partitions_from(min, n).len() ==> is_partition_from(
                #[trigger] partitions_from(min, n)[i],
                min,
                n,
            ),
    decreases n, n - min,
{
    if n == 0 {
        assert(sum_of(Seq::<int>::empty()) == 0);
    } else if min > n {
    } else if min == n {
        let p = seq![n];
        assert(p.drop_first() =~= Seq::<int>::empty());
        assert(sum_of(Seq::<int>::empty()) == 0);
        assert(sum_of(p) == n);
    } else {
        lemma_partitions_from_sound(min + 1, n);
        lemma_partitions_from_sound(min, n - min);
        let first = partitions_from(min + 1, n);
        let rest = partitions_from(min, n - min);
        let whole = partitions_from(min, n);
        assert forall|i: int| 0 <= i < whole.len() implies is_partition_from(
            #[trigger] whole[i],
            min,
            n,
        ) by {
            if i < first.len() {
                assert(whole[i] == first[i]);
                assert(is_partition_from(first[i], min + 1, n));
            } else {
                let q = rest[i - first.len()];
                assert(whole[i] == seq![min] + q);
                assert(is_partition_from(q, min, n - min));
                lemma_sum_cons(min, q);
                let p = seq![min] + q;
                assert(all_at_least(p, min)) by {
                    assert(forall|j: int| 1 <= j < p.len() ==> p[j] == q[j - 1]);
                }
                assert(non_decreasing(p)) by {
                    assert(forall|j: int| 1 <= j < p.len() ==> p[j] == q[j - 1]);
                }
            }
        }
    }
}

/// Completeness of the enumeration: every partition of `n` whose addends are
/// at least `min` appears in `partitions_from(min, n)`.
pub proof fn lemma_partitions_from_complete(min: int, n: int, p: Seq<int>)
    requires
        1 <= min,
        0 <= n,
        is_partition_from(p, min, n),
    ensures
        partitions_from(min, n).contains(p),
    decreases n, n - min,
{
    let listed = partitions_from(min, n);
    if p.len() == 0 {
        assert(n == 0);
        assert(listed[0] == Seq::<int>::empty());
        assert(p =~= Seq::<int>::empty());
        assert(listed.contains(p));
    } else {
        let head = p[0];
        let tail = p.drop_first();
        assert(p =~= seq![head] + tail);
        lemma_sum_cons(head, tail);
        assert(all_at_least(tail, head)) by {
            assert(forall|i: int| 0 <= i < tail.len() ==> tail[i] == p[i + 1]);
        }
        assert(non_decreasing(tail)) by {
            assert(forall|i: int| 0 <= i < tail.len() ==> tail[i] == p[i + 1]);
        }
        lemma_sum_lower_bound(tail);
        assert(head <= n);
        assert(n >= 1);
        if head == min {
            if min == n {
                assert(sum_of(tail) == 0);
                lemma_sum_lower_bound(tail);
                assert(tail.len() == 0);
                assert(p =~= seq![n]);
                assert(listed[0] == seq![n]);
                assert(listed.contains(p));
            } else {
                lemma_partitions_from_complete(min, n - min, tail);
                let rest = partitions_from(min, n - min);
                let j = choose|j: int| 0 <= j < rest.len() && rest[j] == tail;
                let mapped = rest.map_values(|q: Seq<int>| seq![min] + q);
                assert(mapped[j] == seq![min] + tail);
                let first = partitions_from(min + 1, n);
                assert(listed[first.len() + j] == mapped[j]);
                assert(listed.contains(p));
            }
        } else {
            assert(head > min);
            assert(all_at_least(p, min + 1)) by {
                assert(forall|i: int| 0 <= i < p.len() ==> #[trigger] p[i] >= p[0]);
            }
            assert(min < n);
            lemma_partitions_from_complete(min + 1, n, p);
            let first = partitions_from(min + 1, n);
            let j = choose|j: int| 0 <= j < first.len() && first[j] == p;
            assert(listed[j] == first[j]);
            assert(listed.contains(p));
        }
    }
}

/// The partition list of a positive `n` is exactly the set of partitions of
/// `n` into positive non-decreasing addends: everything listed is such a
/// partition, and every such partition is listed.
pub proof fn lemma_partition_enumeration(n: int)
    requires
        1 <= n,
    ensures
        forall|i: int|
            0 <= i < partition_list(n).len() ==> is_partition_from(
                #[trigger] partition_list(n)[i],
                1,
                n,
            ),
        forall|p: Seq<int>| is_partition_from(p, 1, n) ==> partition_list(n).contains(p),
{
    lemma_partitions_from_sound(1, n);
    assert forall|p: Seq<int>| is_partition_from(p, 1, n) implies partition_list(n).contains(
        p,
    ) by {
        lemma_partitions_from_complete(1, n, p);
    }
}

/// Appends to `out` every partition counted by `partitions_from(min, n)`,
/// each one preceded by the addends already in `prefix`.
fn emit_partitions(min: i32, n: i32, prefix: &Vec<i32>, out: &mut Vec<Vec<i32>>)
    requires
        1 <= min,
        1 <= n,
    ensures
        addends_view(*final(out)) == addends_view(*old(out)) + partitions_from(
            min as int,
            n as int,
        ).map_values(|p: Seq<int>| row_view(prefix@) + p),
    decreases n, n - min,
{
    let ghost pre = row_view(prefix@);
    if min > n {
        proof {
            assert(addends_view(*out) =~= addends_view(*old(out)) + partitions_from(
                min as int,
                n as int,
            ).map_values(|p: Seq<int>| pre + p));
        }
        return ;
    }
    if min == n {
        let mut done = prefix.clone();
        done.push(n);
        out.push(done);
        proof {
            assert(row_view(done@) =~= pre + seq![n as int]);
            assert(addends_view(*out) =~~= addends_view(*old(out)) + partitions_from(
                min as int,
                n as int,
            ).map_values(|p: Seq<int>| pre + p));
        }
    } else {
        emit_partitions(min + 1, n, prefix, out);
        let ghost mid = *out;
        let mut next = prefix.clone();
        next.push(min);
        emit_partitions(min, n - min, &next, out);
        proof {
            let head = partitions_from(min as int + 1, n as int);
            let rest = partitions_from(min as int, n as int - min as int);
            assert(row_view(next@) =~= pre + seq![min as int]);
            assert(rest.map_values(|p: Seq<int>| row_view(next@) + p) =~~= rest.map_values(
                |p: Seq<int>| seq![min as int] + p,
            ).map_values(|p: Seq<int>| pre + p)) by {
                assert forall|i: int| 0 <= i < rest.len() implies (pre + seq![min as int])
                    + rest[i] =~= pre + (seq![min as int] + rest[i]) by {}
            }
            assert((head + rest.map_values(|p: Seq<int>| seq![min as int] + p)).map_values(
                |p: Seq<int>| pre + p,
            ) =~~= head.map_values(|p: Seq<int>| pre + p) + rest.map_values(
                |p: Seq<int>| seq![min as int] + p,
            ).map_values(|p: Seq<int>| pre + p));
            assert(addends_view(*out) =~~= addends_view(*old(out)) + partitions_from(
                min as int,
                n as int,
            ).map_values(|p: Seq<int>| pre + p));
        }
    }
}

/// Lists every way to write `target` as a sum of positive addends in
/// non-decreasing order, larger leading addends first.  A non-positive
/// `target` is rejected with a validation error.
pub fn find_unique_addends(target: i32) -> (r: Result<Vec<Vec<i32>>, String>)
    ensures
        target <= 0 ==> (r matches Err(m) && m@ == "Target must be a positive integer"@),
        target > 0 ==> (r matches Ok(v) && addends_view(v) == partition_list(target as int)),
{
    if target <= 0 {
        return Err("Target must be a positive integer".to_owned());
    }
    let empty_prefix: Vec<i32> = Vec::new();
    let mut out: Vec<Vec<i32>> = Vec::new();
    emit_partitions(1, target, &empty_prefix, &mut out);
    proof {
        let listed = partition_list(target as int);
        assert(listed.map_values(|p: Seq<int>| row_view(empty_prefix@) + p) =~~= listed) by {
            assert forall|i: int| 0 <= i < listed.len() implies row_view(empty_prefix@)
                + listed[i] =~= listed[i] by {}
        }
        assert(addends_view(out) =~~= listed);
    }
    Ok(out)
}

} // verus!
