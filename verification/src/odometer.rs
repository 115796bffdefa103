//! Counting through every choice of one item from each of several lists: a
//! row of indices of which the first ticks and carries into the next.

use vstd::prelude::*;

verus! {

/// The number of ways to choose one item from each list, by the lists' sizes.
pub open spec fn combinations(sizes: Seq<int>) -> int
    decreases sizes.len(),
{
    if sizes.len() == 0 {
        1
    } else {
        sizes[0] * combinations(sizes.skip(1))
    }
}

/// Each index is within its list.
pub open spec fn in_range(idxs: Seq<int>, sizes: Seq<int>) -> bool {
    &&& idxs.len() == sizes.len()
    &&& forall|i: int| 0 <= i < idxs.len() ==> 0 <= #[trigger] idxs[i] < sizes[i]
}

/// How many ticks lead from all zeros to `idxs`: the first index counts ones,
/// the second counts rounds of the first, and so on.
pub open spec fn ticks(idxs: Seq<int>, sizes: Seq<int>) -> int
    decreases idxs.len(),
{
    if idxs.len() == 0 {
        0
    } else {
        idxs[0] + sizes[0] * ticks(idxs.skip(1), sizes.skip(1))
    }
}

/// The indices after `k` ticks.
pub open spec fn indices_at(sizes: Seq<int>, k: int) -> Seq<int>
    decreases sizes.len(),
{
    if sizes.len() == 0 {
        Seq::empty()
    } else {
        seq![k % sizes[0]] + indices_at(sizes.skip(1), k / sizes[0])
    }
}

/// Lists that all hold something can be chosen from in at least one way.
pub proof fn lemma_combinations_positive(sizes: Seq<int>)
    requires
        forall|i: int| 0 <= i < sizes.len() ==> sizes[i] > 0,
    ensures
        combinations(sizes) > 0,
    decreases sizes.len(),
{
    if sizes.len() > 0 {
        lemma_combinations_positive(sizes.skip(1));
        assert(sizes[0] * combinations(sizes.skip(1)) > 0) by (nonlinear_arith)
            requires
                sizes[0] > 0,
                combinations(sizes.skip(1)) > 0,
        ;
    }
}

/// Indices in range are reached after fewer ticks than there are
/// combinations, and after that many ticks the indices are these: every
/// choice is met, and no two numbers of ticks meet the same one.
pub proof fn lemma_ticks_roundtrip(idxs: Seq<int>, sizes: Seq<int>)
    requires
        in_range(idxs, sizes),
    ensures
        0 <= ticks(idxs, sizes) < combinations(sizes),
        indices_at(sizes, ticks(idxs, sizes)) == idxs,
    decreases idxs.len(),
{
    if idxs.len() == 0 {
        assert(indices_at(sizes, 0) =~= idxs);
    } else {
        let rest = idxs.skip(1);
        let rest_sizes = sizes.skip(1);
        assert(in_range(rest, rest_sizes)) by {
            assert forall|i: int| 0 <= i < rest.len() implies 0 <= #[trigger] rest[i]
                < rest_sizes[i] by {
                assert(0 <= idxs[i + 1] < sizes[i + 1]);
            }
        }
        lemma_ticks_roundtrip(rest, rest_sizes);
        let v = ticks(rest, rest_sizes);
        let c = combinations(rest_sizes);
        let s = sizes[0];
        let d = idxs[0];
        assert(0 <= d < s);
        assert(0 <= d + s * v < s * c) by (nonlinear_arith)
            requires
                0 <= d < s,
                0 <= v < c,
        ;
        vstd::arithmetic::div_mod::lemma_fundamental_div_mod_converse(d + s * v, s, v, d);
        assert(indices_at(sizes, ticks(idxs, sizes)) =~= idxs);
    }
}

/// The indices after `k` ticks are in range, and `k` ticks lead to them.
pub proof fn lemma_indices_at(sizes: Seq<int>, k: int)
    requires
        forall|i: int| 0 <= i < sizes.len() ==> sizes[i] > 0,
        0 <= k < combinations(sizes),
    ensures
        in_range(indices_at(sizes, k), sizes),
        ticks(indices_at(sizes, k), sizes) == k,
    decreases sizes.len(),
{
    if sizes.len() > 0 {
        let s = sizes[0];
        let rest_sizes = sizes.skip(1);
        let c = combinations(rest_sizes);
        vstd::arithmetic::div_mod::lemma_fundamental_div_mod(k, s);
        vstd::arithmetic::div_mod::lemma_mod_bound(k, s);
        assert(0 <= k / s < c) by (nonlinear_arith)
            requires
                0 <= k < s * c,
                s > 0,
        ;
        lemma_indices_at(rest_sizes, k / s);
        let idxs = indices_at(sizes, k);
        assert(idxs.skip(1) =~= indices_at(rest_sizes, k / s));
        assert(idxs[0] == k % s);
        assert forall|i: int| 0 <= i < idxs.len() implies 0 <= #[trigger] idxs[i] < sizes[i] by {
            if i > 0 {
                assert(idxs[i] == idxs.skip(1)[i - 1]);
                assert(sizes[i] == rest_sizes[i - 1]);
            }
        }
    }
}

/// The state of the indices while a tick carries: below `at` they have gone
/// from their last value to zero, at `at` one was added, above nothing has
/// changed yet.
pub open spec fn carried(before: Seq<int>, now: Seq<int>, sizes: Seq<int>, at: int) -> bool {
    &&& now.len() == before.len()
    &&& 0 <= at < now.len()
    &&& forall|j: int| #![trigger now[j]] 0 <= j < at ==> now[j] == 0 && before[j] == sizes[j] - 1
    &&& now[at] == before[at] + 1
    &&& forall|j: int| #![trigger now[j]] at < j < now.len() ==> now[j] == before[j]
}

/// While a tick carries, the indices stand for one tick more than before.
pub proof fn lemma_carried_ticks(before: Seq<int>, now: Seq<int>, sizes: Seq<int>, at: int)
    requires
        before.len() == sizes.len(),
        carried(before, now, sizes, at),
    ensures
        ticks(now, sizes) == ticks(before, sizes) + 1,
    decreases at,
{
    if at == 0 {
        assert(now.skip(1) =~= before.skip(1));
    } else {
        assert(now[0] == 0 && before[0] == sizes[0] - 1);
        assert(carried(before.skip(1), now.skip(1), sizes.skip(1), at - 1)) by {
            assert forall|j: int| 0 <= j < at - 1 implies #[trigger] now.skip(1)[j] == 0
                && before.skip(1)[j] == sizes.skip(1)[j] - 1 by {
                assert(now[j + 1] == 0 && before[j + 1] == sizes[j + 1] - 1);
            }
            assert forall|j: int| at - 1 < j < now.skip(1).len() implies #[trigger] now.skip(
                1,
            )[j] == before.skip(1)[j] by {
                assert(now[j + 1] == before[j + 1]);
            }
        }
        lemma_carried_ticks(before.skip(1), now.skip(1), sizes.skip(1), at - 1);
        let v = ticks(before.skip(1), sizes.skip(1));
        let s = sizes[0];
        assert(s * (v + 1) == (s - 1) + s * v + 1) by (nonlinear_arith);
    }
}

/// One step of a carry: an index that has run past its last value stood at
/// its last value before the tick. Put back to zero, with one added to the
/// next index, the carry stands one place further; where there is no next
/// index, the tick was the last one.
pub proof fn lemma_carry(before: Seq<int>, now: Seq<int>, sizes: Seq<int>, at: int)
    requires
        in_range(before, sizes),
        carried(before, now, sizes, at),
        now[at] >= sizes[at],
    ensures
        before[at] == sizes[at] - 1,
        at + 1 < now.len() ==> carried(
            before,
            now.update(at, 0).update(at + 1, now[at + 1] + 1),
            sizes,
            at + 1,
        ),
        at + 1 < now.len() ==> 0 <= now[at + 1] < sizes[at + 1],
        at + 1 == now.len() ==> ticks(before, sizes) == combinations(sizes) - 1,
{
    assert(0 <= before[at] < sizes[at]);
    assert(forall|j: int| 0 <= j < at ==> now[j] == 0 && before[j] == sizes[j] - 1);
    if at + 1 < now.len() {
        let next = now.update(at, 0).update(at + 1, now[at + 1] + 1);
        assert(now[at + 1] == before[at + 1]);
        assert(0 <= before[at + 1] < sizes[at + 1]);
        assert forall|j: int| #![trigger next[j]] 0 <= j < at + 1 implies next[j] == 0
            && before[j] == sizes[j] - 1 by {
            if j < at {
                assert(now[j] == 0 && before[j] == sizes[j] - 1);
            }
        }
        assert forall|j: int| #![trigger next[j]] at + 1 < j < next.len() implies next[j]
            == before[j] by {
            assert(now[j] == before[j]);
        }
    } else {
        assert forall|j: int| 0 <= j < before.len() implies #[trigger] before[j] == sizes[j]
            - 1 by {
            if j < at {
                assert(now[j] == 0 && before[j] == sizes[j] - 1);
            }
        }
        lemma_last_ticks(before, sizes);
    }
}

/// When a carry has come to rest, the indices are in range again and stand
/// for one tick more than before.
pub proof fn lemma_carry_done(before: Seq<int>, now: Seq<int>, sizes: Seq<int>, at: int)
    requires
        in_range(before, sizes),
        carried(before, now, sizes, at),
        now[at] < sizes[at],
    ensures
        in_range(now, sizes),
        ticks(now, sizes) == ticks(before, sizes) + 1,
{
    lemma_carried_ticks(before, now, sizes, at);
    assert forall|j: int| 0 <= j < now.len() implies 0 <= #[trigger] now[j] < sizes[j] by {
        assert(0 <= before[j] < sizes[j]);
        if j < at {
            assert(now[j] == 0 && before[j] == sizes[j] - 1);
        } else if j > at {
            assert(now[j] == before[j]);
        }
    }
}

/// Indices that all stand at their last value are one tick from the end.
pub proof fn lemma_last_ticks(idxs: Seq<int>, sizes: Seq<int>)
    requires
        idxs.len() == sizes.len(),
        forall|j: int| 0 <= j < idxs.len() ==> #[trigger] idxs[j] == sizes[j] - 1,
    ensures
        ticks(idxs, sizes) == combinations(sizes) - 1,
    decreases idxs.len(),
{
    if idxs.len() > 0 {
        assert forall|j: int| 0 <= j < idxs.skip(1).len() implies #[trigger] idxs.skip(1)[j]
            == sizes.skip(1)[j] - 1 by {
            assert(idxs[j + 1] == sizes[j + 1] - 1);
        }
        lemma_last_ticks(idxs.skip(1), sizes.skip(1));
        let c = combinations(sizes.skip(1));
        let s = sizes[0];
        assert((s - 1) + s * (c - 1) == s * c - 1) by (nonlinear_arith);
    }
}

} // verus!
