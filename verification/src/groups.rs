//! Anagram reduction: the words of a dictionary that have no letter twice,
//! grouped by their charset.

use vstd::prelude::*;
use crate::adaptors::{
    first_occurrences, group_by_charset, sorted_by_charset, unique_words, with_mask,
};
use crate::anagram::AnagramMap;
use crate::bits::{bit64_at, lemma64_and_single_bit, lemma64_or_single_bit, lemma64_zero_has_no_bit};
use crate::charset::{word_bits, word_in_alphabet, LowerAsciiCharset};
use crate::graph::{fx_insert, fx_new, MaskMap};

verus! {

/// The mask of the charset of a word.
pub open spec fn mask_of<const L: usize>(w: [u8; L]) -> u32 {
    word_bits(w@)
}

/// The words that have no symbol twice, each once, in the order in which the
/// list has them first.
pub open spec fn usable<const L: usize>(words: Seq<[u8; L]>) -> Seq<[u8; L]> {
    first_occurrences(words.filter(|w: [u8; L]| w@.no_duplicates()))
}

/// The views of a list of groups.
pub open spec fn group_views<const L: usize>(groups: Seq<Vec<[u8; L]>>) -> Seq<Seq<[u8; L]>> {
    groups.map_values(|g: Vec<[u8; L]>| g@)
}

/// Whether one of the groups has the mask `mask`.
pub open spec fn has_group<const L: usize>(groups: Seq<Seq<[u8; L]>>, mask: u32) -> bool {
    exists|i: int| 0 <= i < groups.len() && mask_of(#[trigger] groups[i][0]) == mask
}

/// `groups` are the words `pool` by charset: no group is empty or holds a
/// word twice; the words of a group are those of `pool` with the charset of
/// the group's first word, in the order of `pool`; the masks of the groups
/// ascend; and every word of `pool` has a group.
pub open spec fn groups_partition<const L: usize>(
    groups: Seq<Seq<[u8; L]>>,
    pool: Seq<[u8; L]>,
) -> bool {
    &&& forall|i: int| 0 <= i < groups.len() ==> (#[trigger] groups[i]).len() > 0
    &&& forall|i: int| 0 <= i < groups.len() ==> (#[trigger] groups[i]).no_duplicates()
    &&& forall|i: int|
        0 <= i < groups.len() ==> #[trigger] groups[i] == with_mask(pool, mask_of(groups[i][0]))
    &&& forall|i: int, j: int|
        0 <= i < j < groups.len() ==> mask_of(#[trigger] groups[i][0]) < mask_of(
            #[trigger] groups[j][0],
        )
    &&& forall|k: int| 0 <= k < pool.len() ==> has_group(groups, mask_of(#[trigger] pool[k]))
}

/// `groups` are the anagram groups of the dictionary `words`: its usable
/// words by charset, each in one group and once, the first word met with a
/// charset at the head of its group.
pub open spec fn is_grouping<const L: usize>(groups: Seq<Seq<[u8; L]>>, words: Seq<[u8; L]>) -> bool {
    groups_partition(groups, usable(words))
}

/// A list without its repetitions holds what the list holds, and nothing
/// twice.
pub proof fn lemma_first_occurrences<T>(list: Seq<T>)
    ensures
        first_occurrences(list).no_duplicates(),
        forall|x: T|
            #![trigger first_occurrences(list).contains(x)]
            #![trigger list.contains(x)]
            first_occurrences(list).contains(x) <==> list.contains(x),
    decreases list.len(),
{
    if list.len() > 0 {
        let init = list.drop_last();
        let last = list.last();
        let known = first_occurrences(init);
        lemma_first_occurrences(init);
        let now = first_occurrences(list);
        assert forall|x: T|
            #![trigger now.contains(x)]
            #![trigger list.contains(x)]
            now.contains(x) <==> list.contains(x) by {
            if now.contains(x) {
                let i = choose|i: int| 0 <= i < now.len() && now[i] == x;
                if i < known.len() {
                    assert(known[i] == x);
                    assert(known.contains(x));
                    let j = choose|j: int| 0 <= j < init.len() && init[j] == x;
                    assert(list[j] == x);
                } else {
                    assert(list[list.len() - 1] == x);
                }
            }
            if list.contains(x) {
                let j = choose|j: int| 0 <= j < list.len() && list[j] == x;
                if j < init.len() {
                    assert(init[j] == x);
                    assert(known.contains(x));
                    let i = choose|i: int| 0 <= i < known.len() && known[i] == x;
                    assert(now[i] == x);
                } else if init.contains(last) {
                    assert(known.contains(x));
                } else {
                    assert(now[now.len() - 1] == x);
                }
            }
        }
        if !init.contains(last) {
            assert forall|i: int, j: int|
                0 <= i < now.len() && 0 <= j < now.len() && i != j implies now[i] != now[j] by {
                if i < known.len() && j < known.len() {
                    assert(known[i] != known[j]);
                } else if i < known.len() {
                    assert(known.contains(known[i]));
                } else {
                    assert(known.contains(known[j]));
                }
            }
        }
    }
}

/// A usable word is a word of the dictionary in which no symbol occurs
/// twice, and the usable words hold none twice.
pub proof fn lemma_usable_members<const L: usize>(words: Seq<[u8; L]>, w: [u8; L])
    ensures
        usable(words).contains(w) <==> words.contains(w) && w@.no_duplicates(),
        usable(words).no_duplicates(),
{
    let pred = |w: [u8; L]| w@.no_duplicates();
    let distinct = words.filter(pred);
    lemma_first_occurrences(distinct);
    if distinct.contains(w) {
        words.lemma_filter_contains_rev(pred, w);
        let i = choose|i: int| 0 <= i < distinct.len() && distinct[i] == w;
        words.lemma_filter_pred(pred, i);
    }
    if words.contains(w) && w@.no_duplicates() {
        let i = choose|i: int| 0 <= i < words.len() && words[i] == w;
        words.lemma_filter_contains(pred, i);
    }
}

/// What is left of a list without repetitions after a filter has none either.
pub proof fn lemma_filter_no_duplicates<T>(list: Seq<T>, pred: spec_fn(T) -> bool)
    requires
        list.no_duplicates(),
    ensures
        list.filter(pred).no_duplicates(),
    decreases list.len(),
{
    reveal(Seq::filter);
    if list.len() > 0 {
        let init = list.drop_last();
        let last = list.last();
        let kept = init.filter(pred);
        lemma_filter_no_duplicates(init, pred);
        if pred(last) {
            let now = kept.push(last);
            assert forall|i: int, j: int|
                0 <= i < now.len() && 0 <= j < now.len() && i != j implies now[i] != now[j] by {
                if i < kept.len() && j < kept.len() {
                    assert(kept[i] != kept[j]);
                } else {
                    let other = if i < kept.len() {
                        i
                    } else {
                        j
                    };
                    assert(kept.contains(kept[other]));
                    init.lemma_filter_contains_rev(pred, kept[other]);
                    let at = choose|at: int| 0 <= at < init.len() && init[at] == kept[other];
                    assert(list[at] != list[list.len() - 1]);
                }
            }
        }
    }
}

/// Whether `w` is the word at place `j` of group `i`.
pub open spec fn holds_at<const L: usize>(
    groups: Seq<Seq<[u8; L]>>,
    i: int,
    j: int,
    w: [u8; L],
) -> bool {
    0 <= i < groups.len() && 0 <= j < groups[i].len() && groups[i][j] == w
}

/// The groups hold the usable words of the dictionary and nothing else, and
/// each of them in one place only: a word of the dictionary without a
/// repeated symbol is in a group, however often the dictionary lists it; no
/// word is at two places; and what is in a group is such a word.
pub open spec fn each_usable_word_once<const L: usize>(
    groups: Seq<Seq<[u8; L]>>,
    words: Seq<[u8; L]>,
) -> bool {
    &&& forall|w: [u8; L]|
        #![trigger words.contains(w)]
        words.contains(w) && w@.no_duplicates() ==> exists|i: int, j: int|
            holds_at(groups, i, j, w)
    &&& forall|i: int, j: int, k: int, l: int, w: [u8; L]|
        #![trigger holds_at(groups, i, j, w), holds_at(groups, k, l, w)]
        holds_at(groups, i, j, w) && holds_at(groups, k, l, w) ==> i == k && j == l
    &&& forall|i: int, j: int|
        0 <= i < groups.len() && 0 <= j < groups[i].len() ==> words.contains(
            #[trigger] groups[i][j],
        ) && groups[i][j]@.no_duplicates()
}

/// Anagram groups hold each usable word of the dictionary once.
pub proof fn lemma_each_usable_word_once<const L: usize>(
    groups: Seq<Seq<[u8; L]>>,
    words: Seq<[u8; L]>,
)
    requires
        is_grouping(groups, words),
    ensures
        each_usable_word_once(groups, words),
{
    assert forall|w: [u8; L]|
        #![trigger words.contains(w)]
        words.contains(w) && w@.no_duplicates() implies exists|i: int, j: int|
        holds_at(groups, i, j, w) by {
        lemma_usable_members(words, w);
        lemma_usable_word_once(groups, words, w);
    }
    assert forall|i: int, j: int, k: int, l: int, w: [u8; L]|
        #![trigger holds_at(groups, i, j, w), holds_at(groups, k, l, w)]
        holds_at(groups, i, j, w) && holds_at(groups, k, l, w) implies i == k && j == l by {
        lemma_groups_hold_usable_words(groups, words, i, j);
        lemma_usable_members(words, w);
        lemma_usable_word_once(groups, words, w);
    }
    assert forall|i: int, j: int|
        0 <= i < groups.len() && 0 <= j < groups[i].len() implies words.contains(
        #[trigger] groups[i][j],
    ) && groups[i][j]@.no_duplicates() by {
        lemma_groups_hold_usable_words(groups, words, i, j);
    }
}

/// Each usable word of the dictionary is in one group, and there once.
pub proof fn lemma_usable_word_once<const L: usize>(
    groups: Seq<Seq<[u8; L]>>,
    words: Seq<[u8; L]>,
    w: [u8; L],
)
    requires
        is_grouping(groups, words),
        usable(words).contains(w),
    ensures
        exists|i: int, j: int| holds_at(groups, i, j, w),
        forall|i: int, j: int, k: int, l: int|
            holds_at(groups, i, j, w) && holds_at(groups, k, l, w) ==> i == k && j == l,
{
    let pool = usable(words);
    let at = choose|at: int| 0 <= at < pool.len() && pool[at] == w;
    assert(has_group(groups, mask_of(pool[at])));
    let i = choose|i: int| 0 <= i < groups.len() && mask_of(#[trigger] groups[i][0]) == mask_of(w);
    pool.lemma_filter_contains(|v: [u8; L]| word_bits(v@) == mask_of(w), at);
    assert(groups[i] == with_mask(pool, mask_of(groups[i][0])));
    let j = choose|j: int| 0 <= j < groups[i].len() && groups[i][j] == w;
    assert(holds_at(groups, i, j, w));
    assert forall|i: int, j: int, k: int, l: int|
        holds_at(groups, i, j, w) && holds_at(groups, k, l, w) implies i == k && j == l by {
        lemma_groups_hold_usable_words(groups, words, i, j);
        lemma_groups_hold_usable_words(groups, words, k, l);
        if i < k {
            assert(mask_of(groups[i][0]) < mask_of(groups[k][0]));
        }
        if k < i {
            assert(mask_of(groups[k][0]) < mask_of(groups[i][0]));
        }
        assert(groups[i].no_duplicates());
    }
}

/// Only usable words are in the anagram groups: a word in which a symbol
/// occurs twice is in no group, and so has no part in the graph.
pub proof fn lemma_groups_hold_usable_words<const L: usize>(
    groups: Seq<Seq<[u8; L]>>,
    words: Seq<[u8; L]>,
    i: int,
    j: int,
)
    requires
        is_grouping(groups, words),
        0 <= i < groups.len(),
        0 <= j < groups[i].len(),
    ensures
        words.contains(groups[i][j]),
        groups[i][j]@.no_duplicates(),
        mask_of(groups[i][j]) == mask_of(groups[i][0]),
{
    let w = groups[i][j];
    let mask = mask_of(groups[i][0]);
    let pred = |w: [u8; L]| word_bits(w@) == mask;
    assert(groups[i] == with_mask(usable(words), mask));
    assert(with_mask(usable(words), mask).contains(w));
    usable(words).lemma_filter_contains_rev(pred, w);
    usable(words).lemma_filter_pred(pred, j);
    lemma_usable_members(words, w);
}

/// Whether no symbol occurs twice in `w`.
pub fn distinct_letters<const L: usize>(w: [u8; L]) -> (r: bool)
    requires
        forall|i: int| 0 <= i < L ==> w@[i] < 64,
    ensures
        r == w@.no_duplicates(),
{
    let mut h: u64 = 0;
    let mut i: usize = 0;
    proof {
        assert forall|s: u64| s < 64 implies !#[trigger] bit64_at(0, s) by {
            lemma64_zero_has_no_bit(s);
        }
    }
    while i < L
        invariant
            i <= L,
            w@.len() == L,
            forall|i: int| 0 <= i < L ==> w@[i] < 64,
            forall|s: u64|
                s < 64 ==> (#[trigger] bit64_at(h, s) <==> exists|j: int|
                    0 <= j < i && w@[j] as u64 == s),
            forall|j: int, k: int| 0 <= j < k < i ==> w@[j] != w@[k],
        decreases L - i,
    {
        let b = w[i];
        let x = 1u64 << b;
        proof {
            lemma64_and_single_bit(h, b as u64);
        }
        if x & h != 0 {
            proof {
                assert(bit64_at(h, b as u64));
                let j = choose|j: int| 0 <= j < i && w@[j] as u64 == b as u64;
                assert(w@[j] == w@[i as int]);
            }
            return false;
        }
        let ghost before = h;
        h = h | x;
        proof {
            assert forall|s: u64| s < 64 implies (#[trigger] bit64_at(h, s) <==> exists|j: int|
                0 <= j < i + 1 && w@[j] as u64 == s) by {
                lemma64_or_single_bit(before, b as u64, s);
                if s == b as u64 {
                    assert(w@[i as int] as u64 == s);
                }
                if bit64_at(before, s) {
                    let j = choose|j: int| 0 <= j < i && w@[j] as u64 == s;
                    assert(0 <= j < i + 1 && w@[j] as u64 == s);
                }
            }
            assert forall|j: int, k: int| 0 <= j < k < i + 1 implies w@[j] != w@[k] by {
                if k == i && w@[j] == w@[k] {
                    assert(w@[j] as u64 == b as u64);
                    assert(bit64_at(before, b as u64));
                }
            }
        }
        i += 1;
    }
    true
}

/// A filter that every item passes changes nothing.
pub proof fn lemma_filter_all<T>(s: Seq<T>, pred: spec_fn(T) -> bool)
    requires
        forall|i: int| 0 <= i < s.len() ==> pred(#[trigger] s[i]),
    ensures
        s.filter(pred) == s,
    decreases s.len(),
{
    reveal(Seq::filter);
    if s.len() > 0 {
        lemma_filter_all(s.drop_last(), pred);
        assert(s.drop_last().push(s.last()) =~= s);
    }
}

/// A filter that no item passes leaves nothing.
pub proof fn lemma_filter_none<T>(s: Seq<T>, pred: spec_fn(T) -> bool)
    requires
        forall|i: int| 0 <= i < s.len() ==> !pred(#[trigger] s[i]),
    ensures
        s.filter(pred) == Seq::<T>::empty(),
    decreases s.len(),
{
    reveal(Seq::filter);
    if s.len() > 0 {
        lemma_filter_none(s.drop_last(), pred);
    }
}

/// An item of a flattened list is an item of one of the lists.
pub proof fn lemma_flatten_member<T>(lists: Seq<Seq<T>>, k: int) -> (at: (int, int))
    requires
        0 <= k < lists.flatten().len(),
    ensures
        0 <= at.0 < lists.len(),
        0 <= at.1 < lists[at.0].len(),
        lists[at.0][at.1] == lists.flatten()[k],
    decreases lists.len(),
{
    if k < lists.first().len() {
        (0, k)
    } else {
        let at = lemma_flatten_member(lists.drop_first(), k - lists.first().len());
        (at.0 + 1, at.1)
    }
}

/// Runs of equal mask, cut from a list in which the masks ascend.
pub open spec fn runs_of<const L: usize>(runs: Seq<Seq<[u8; L]>>, sorted: Seq<[u8; L]>) -> bool {
    &&& runs.flatten() == sorted
    &&& forall|i: int| 0 <= i < runs.len() ==> (#[trigger] runs[i]).len() > 0
    &&& forall|i: int, j: int|
        0 <= i < runs.len() && 0 <= j < runs[i].len() ==> mask_of(#[trigger] runs[i][j])
            == mask_of(runs[i][0])
    &&& forall|i: int|
        0 <= i < runs.len() - 1 ==> mask_of((#[trigger] runs[i])[0]) != mask_of(runs[i + 1][0])
    &&& forall|i: int, j: int|
        0 <= i < j < sorted.len() ==> mask_of(#[trigger] sorted[i]) <= mask_of(
            #[trigger] sorted[j],
        )
}

/// What is left of a list of runs without the first run is a list of runs.
proof fn lemma_runs_rest<const L: usize>(runs: Seq<Seq<[u8; L]>>, sorted: Seq<[u8; L]>)
    requires
        runs_of(runs, sorted),
        runs.len() > 0,
    ensures
        runs_of(runs.drop_first(), runs.drop_first().flatten()),
        sorted == runs[0] + runs.drop_first().flatten(),
{
    let rest = runs.drop_first();
    let tail = rest.flatten();
    let skip = runs[0].len() as int;
    assert forall|i: int| 0 <= i < rest.len() implies (#[trigger] rest[i]).len() > 0 by {
        assert(rest[i] == runs[i + 1]);
    }
    assert forall|i: int, j: int| 0 <= i < rest.len() && 0 <= j < rest[i].len() implies mask_of(
        #[trigger] rest[i][j],
    ) == mask_of(rest[i][0]) by {
        assert(rest[i][j] == runs[i + 1][j]);
    }
    assert forall|i: int| 0 <= i < rest.len() - 1 implies mask_of((#[trigger] rest[i])[0])
        != mask_of(rest[i + 1][0]) by {
        assert(rest[i] == runs[i + 1]);
        assert(rest[i + 1] == runs[i + 2]);
    }
    assert forall|i: int, j: int| 0 <= i < j < tail.len() implies mask_of(#[trigger] tail[i])
        <= mask_of(#[trigger] tail[j]) by {
        assert(tail[i] == sorted[skip + i]);
        assert(tail[j] == sorted[skip + j]);
    }
}

/// The masks of runs ascend from run to run.
proof fn lemma_runs_ascend<const L: usize>(
    runs: Seq<Seq<[u8; L]>>,
    sorted: Seq<[u8; L]>,
    i: int,
    j: int,
)
    requires
        runs_of(runs, sorted),
        0 <= i < j < runs.len(),
    ensures
        mask_of(runs[i][0]) < mask_of(runs[j][0]),
    decreases runs.len(),
{
    let rest = runs.drop_first();
    let tail = rest.flatten();
    lemma_runs_rest(runs, sorted);
    let skip = runs[0].len() as int;
    if i == 0 {
        assert(rest[0] == runs[1]);
        assert(tail == rest[0] + rest.drop_first().flatten());
        assert(sorted[skip - 1] == runs[0][skip - 1]);
        assert(sorted[skip] == tail[0]);
        assert(tail[0] == runs[1][0]);
        assert(mask_of(sorted[skip - 1]) <= mask_of(sorted[skip]));
        assert(mask_of(runs[0][skip - 1]) == mask_of(runs[0][0]));
        assert(mask_of(runs[0][0]) != mask_of(runs[1][0]));
        if j > 1 {
            lemma_runs_ascend(rest, tail, 0, j - 1);
            assert(rest[j - 1] == runs[j]);
        }
    } else {
        lemma_runs_ascend(rest, tail, i - 1, j - 1);
        assert(rest[i - 1] == runs[i]);
        assert(rest[j - 1] == runs[j]);
    }
}

/// A run holds all the words of its mask.
proof fn lemma_run_is_filter<const L: usize>(
    runs: Seq<Seq<[u8; L]>>,
    sorted: Seq<[u8; L]>,
    i: int,
)
    requires
        runs_of(runs, sorted),
        0 <= i < runs.len(),
    ensures
        runs[i] == with_mask(sorted, mask_of(runs[i][0])),
    decreases runs.len(),
{
    let rest = runs.drop_first();
    let tail = rest.flatten();
    let mask = mask_of(runs[i][0]);
    let pred = |w: [u8; L]| word_bits(w@) == mask;
    lemma_runs_rest(runs, sorted);
    Seq::filter_distributes_over_add(runs[0], tail, pred);
    if i == 0 {
        assert forall|k: int| 0 <= k < runs[0].len() implies pred(#[trigger] runs[0][k]) by {
            assert(mask_of(runs[0][k]) == mask_of(runs[0][0]));
        }
        lemma_filter_all(runs[0], pred);
        assert forall|k: int| 0 <= k < tail.len() implies !pred(#[trigger] tail[k]) by {
            let at = lemma_flatten_member(rest, k);
            assert(rest[at.0] == runs[at.0 + 1]);
            assert(mask_of(runs[at.0 + 1][at.1]) == mask_of(runs[at.0 + 1][0]));
            lemma_runs_ascend(runs, sorted, 0, at.0 + 1);
        }
        lemma_filter_none(tail, pred);
        assert(runs[0] + Seq::<[u8; L]>::empty() =~= runs[0]);
    } else {
        assert forall|k: int| 0 <= k < runs[0].len() implies !pred(#[trigger] runs[0][k]) by {
            assert(mask_of(runs[0][k]) == mask_of(runs[0][0]));
            lemma_runs_ascend(runs, sorted, 0, i);
        }
        lemma_filter_none(runs[0], pred);
        assert(rest[i - 1] == runs[i]);
        lemma_run_is_filter(rest, tail, i - 1);
        assert(Seq::<[u8; L]>::empty() + with_mask(tail, mask) =~= with_mask(tail, mask));
    }
}

/// The runs of a list that was sorted by mask without reordering words of one
/// mask are the groups of the list before it was sorted.
pub proof fn lemma_runs_are_groups<const L: usize>(
    runs: Seq<Seq<[u8; L]>>,
    sorted: Seq<[u8; L]>,
    pool: Seq<[u8; L]>,
)
    requires
        runs_of(runs, sorted),
        forall|mask: u32| #[trigger] with_mask(sorted, mask) == with_mask(pool, mask),
        pool.no_duplicates(),
    ensures
        groups_partition(runs, pool),
{
    assert forall|i: int| 0 <= i < runs.len() implies #[trigger] runs[i] == with_mask(
        pool,
        mask_of(runs[i][0]),
    ) && runs[i].no_duplicates() by {
        lemma_run_is_filter(runs, sorted, i);
        assert(with_mask(sorted, mask_of(runs[i][0])) == with_mask(pool, mask_of(runs[i][0])));
        lemma_filter_no_duplicates(pool, |w: [u8; L]| word_bits(w@) == mask_of(runs[i][0]));
    }
    assert forall|i: int, j: int| 0 <= i < j < runs.len() implies mask_of(#[trigger] runs[i][0])
        < mask_of(#[trigger] runs[j][0]) by {
        lemma_runs_ascend(runs, sorted, i, j);
    }
    assert forall|k: int| 0 <= k < pool.len() implies has_group(
        runs,
        mask_of(#[trigger] pool[k]),
    ) by {
        let w = pool[k];
        let mask = mask_of(w);
        let pred = |w: [u8; L]| word_bits(w@) == mask;
        pool.lemma_filter_contains(pred, k);
        assert(with_mask(sorted, mask) == with_mask(pool, mask));
        sorted.lemma_filter_contains_rev(pred, w);
        let at_sorted = choose|at: int| 0 <= at < sorted.len() && sorted[at] == w;
        let at = lemma_flatten_member(runs, at_sorted);
        assert(mask_of(runs[at.0][at.1]) == mask_of(runs[at.0][0]));
    }
}

/// The anagram groups of a dictionary: its words without a repeated symbol,
/// each once, grouped by charset. The groups come in ascending order of their
/// masks, and the words of a group in the order in which the dictionary has
/// them first.
pub fn anagram_groups<const L: usize>(words: Vec<[u8; L]>) -> (groups: Vec<Vec<[u8; L]>>)
    requires
        forall|i: int| 0 <= i < words@.len() ==> word_in_alphabet(#[trigger] words@[i]@),
    ensures
        is_grouping(group_views(groups@), words@),
        each_usable_word_once(group_views(groups@), words@),
{
    let ghost distinct = |w: [u8; L]| w@.no_duplicates();
    let mut pool: Vec<[u8; L]> = Vec::new();
    let mut i: usize = 0;
    proof {
        reveal(Seq::filter);
        assert(words@.take(0) =~= Seq::empty());
    }
    while i < words.len()
        invariant
            i <= words@.len(),
            distinct == |w: [u8; L]| w@.no_duplicates(),
            forall|i: int| 0 <= i < words@.len() ==> word_in_alphabet(#[trigger] words@[i]@),
            pool@ == words@.take(i as int).filter(distinct),
            forall|k: int| 0 <= k < pool@.len() ==> word_in_alphabet(#[trigger] pool@[k]@),
        decreases words@.len() - i,
    {
        let w = words[i];
        proof {
            reveal(Seq::filter);
            assert(words@.take(i + 1).drop_last() =~= words@.take(i as int));
            assert(word_in_alphabet(words@[i as int]@));
        }
        if distinct_letters(w) {
            pool.push(w);
        }
        i += 1;
    }
    assert(words@.take(words@.len() as int) =~= words@);
    let ghost distinct_view = pool@;
    let pool = unique_words(pool);
    let ghost pool_view = pool@;
    proof {
        lemma_first_occurrences(distinct_view);
        assert forall|k: int| 0 <= k < pool_view.len() implies word_in_alphabet(
            #[trigger] pool_view[k]@,
        ) by {
            assert(pool_view.contains(pool_view[k]));
            let at = choose|at: int|
                0 <= at < distinct_view.len() && distinct_view[at] == pool_view[k];
            assert(word_in_alphabet(distinct_view[at]@));
        }
    }
    let sorted = sorted_by_charset(pool);
    proof {
        assert forall|k: int| 0 <= k < sorted@.len() implies word_in_alphabet(
            #[trigger] sorted@[k]@,
        ) by {
            let w = sorted@[k];
            let mask = mask_of(w);
            let pred = |w: [u8; L]| word_bits(w@) == mask;
            sorted@.lemma_filter_contains(pred, k);
            assert(with_mask(sorted@, mask) == with_mask(pool_view, mask));
            pool_view.lemma_filter_contains_rev(pred, w);
            let at = choose|at: int| 0 <= at < pool_view.len() && pool_view[at] == w;
            assert(word_in_alphabet(pool_view[at]@));
        }
    }
    let ghost sorted_view = sorted@;
    let groups = group_by_charset(sorted);
    proof {
        let runs = group_views(groups@);
        assert(runs =~= groups@.map_values(|g: Vec<[u8; L]>| g@));
        assert forall|i: int| 0 <= i < runs.len() implies (#[trigger] runs[i]).len() > 0 by {
            assert(groups@[i]@.len() > 0);
        }
        assert forall|i: int, j: int| 0 <= i < runs.len() && 0 <= j < runs[i].len() implies mask_of(
            #[trigger] runs[i][j],
        ) == mask_of(runs[i][0]) by {
            assert(word_bits(groups@[i]@[j]@) == word_bits(groups@[i]@[0]@));
        }
        assert forall|i: int| 0 <= i < runs.len() - 1 implies mask_of((#[trigger] runs[i])[0])
            != mask_of(runs[i + 1][0]) by {
            assert(word_bits(groups@[i]@[0]@) != word_bits(groups@[i + 1]@[0]@));
        }
        assert(runs_of(runs, sorted_view));
        lemma_runs_are_groups(runs, sorted_view, pool_view);
        lemma_each_usable_word_once(runs, words@);
    }
    groups
}

/// The map of a list of groups, built one group after the other: each under
/// the mask of its first word.
pub open spec fn anagram_map_spec<const L: usize>(groups: Seq<Seq<[u8; L]>>) -> Map<
    u32,
    Seq<[u8; L]>,
>
    decreases groups.len(),
{
    if groups.len() == 0 {
        Map::empty()
    } else {
        anagram_map_spec(groups.drop_last()).insert(mask_of(groups.last()[0]), groups.last())
    }
}

/// The map from the mask of a charset to the group of the words that have it.
pub fn anagram_map<const L: usize>(anagram_groups: &[Vec<[u8; L]>]) -> (map: AnagramMap<L>)
    requires
        forall|i: int|
            0 <= i < anagram_groups@.len() ==> (#[trigger] anagram_groups@[i])@.len() > 0
                && word_in_alphabet(anagram_groups@[i]@[0]@),
    ensures
        map@ == anagram_map_spec(group_views(anagram_groups@)),
        map.wf(),
{
    let mut out: MaskMap<Vec<[u8; L]>> = fx_new();
    let ghost view_of = |g: Vec<[u8; L]>| g@;
    let mut i: usize = 0;
    assert(group_views(anagram_groups@).take(0) =~= Seq::empty());
    assert(out@.map_values(view_of) =~= anagram_map_spec(group_views(anagram_groups@).take(0)));
    while i < anagram_groups.len()
        invariant
            i <= anagram_groups@.len(),
            view_of == |g: Vec<[u8; L]>| g@,
            forall|i: int|
                0 <= i < anagram_groups@.len() ==> (#[trigger] anagram_groups@[i])@.len() > 0
                    && word_in_alphabet(anagram_groups@[i]@[0]@),
            out@.map_values(view_of) == anagram_map_spec(
                group_views(anagram_groups@).take(i as int),
            ),
            forall|mask: u32| out@.contains_key(mask) ==> (#[trigger] out@[mask])@.len() > 0,
        decreases anagram_groups@.len() - i,
    {
        let group = &anagram_groups[i];
        assert(group@.len() > 0 && word_in_alphabet(group@[0]@));
        let key = LowerAsciiCharset::from_word(group[0]).bits_value();
        let members = vstd::slice::slice_to_vec(group.as_slice());
        let ghost before = out@;
        fx_insert(&mut out, key, members);
        proof {
            let views = group_views(anagram_groups@);
            assert(views.take(i + 1).drop_last() =~= views.take(i as int));
            assert(views.take(i + 1).last() == group@);
            assert(out@.map_values(view_of) =~= before.map_values(view_of).insert(key, group@));
        }
        i += 1;
    }
    assert(group_views(anagram_groups@).take(anagram_groups@.len() as int) =~= group_views(
        anagram_groups@,
    ));
    let ghost table = out@;
    let map = AnagramMap::from_table(out);
    proof {
        assert(map@ == table.map_values(view_of));
        assert forall|mask: u32| map@.contains_key(mask) implies (#[trigger] map@[mask]).len()
            > 0 by {
            assert(table.contains_key(mask));
            assert(table[mask]@.len() > 0);
        }
    }
    map
}

} // verus!
