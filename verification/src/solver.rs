//! The whole search: from a dictionary to the sorted list of its sentences.

use vstd::prelude::*;
use vstd::relations::sorted_by;
use crate::adaptors::{sentence_views, sorted_sentences, string_views, with_mask};
use crate::meaning::lemma_solve_sound;
use crate::once::lemma_solve_once;
use crate::anagram::{expand_anagrams, expansions, groups_of, AnagramMap};
use crate::charset::{word_bits, word_in_alphabet, LowerAsciiCharset};
use crate::graph::{charsets_of, closed_graph, graph_of_charsets, graph_spec, is_rep, word_charsets};
use crate::groups::{
    anagram_groups, anagram_map, anagram_map_spec, group_views, groups_partition, has_group,
    is_grouping, lemma_filter_no_duplicates, lemma_first_occurrences, lemma_usable_members,
    mask_of, usable,
};
use crate::order::{
    lemma_map_multiset, lemma_sentence_order_total, lemma_sorted_lists_equal, sentence_order,
};
use crate::search::{
    all_rows, charset_views, find_all, is_solution, lemma_roots_solutions_sound, roots_solutions,
};
use crate::sentence::{line_spec, showable, CharsetSentence, Sentence};

verus! {

/// The first word of each group.
pub open spec fn first_words<const L: usize>(groups: Seq<Seq<[u8; L]>>) -> Seq<[u8; L]> {
    groups.map_values(|g: Seq<[u8; L]>| g[0])
}

/// The sentences that the solutions `sols` stand for, solution by solution.
pub open spec fn all_expansions<const L: usize>(
    map: Map<u32, Seq<[u8; L]>>,
    sols: Seq<Seq<LowerAsciiCharset>>,
) -> Seq<Seq<[u8; L]>>
    decreases sols.len(),
{
    if sols.len() == 0 {
        Seq::empty()
    } else {
        all_expansions(map, sols.drop_last()) + expansions(groups_of(map, sols.last()))
    }
}

/// The sentences of `n` words over the anagram groups `groups`, in the order
/// in which the search meets them: the solutions on the charsets of the
/// representatives, each expanded into its sentences.
pub open spec fn found_spec<const L: usize>(groups: Seq<Seq<[u8; L]>>, n: nat) -> Seq<
    Seq<[u8; L]>,
> {
    let reps = charsets_of(first_words(groups));
    all_expansions(anagram_map_spec(groups), roots_solutions(graph_spec(reps), reps, n))
}

/// The anagram groups of a dictionary.
pub open spec fn anagram_groups_spec<const L: usize>(words: Seq<[u8; L]>) -> Seq<Seq<[u8; L]>> {
    choose|groups: Seq<Seq<[u8; L]>>| is_grouping(groups, words)
}

/// The sentences of `n` words of a dictionary, in ascending order.
pub open spec fn solve_spec<const L: usize>(words: Seq<[u8; L]>, n: nat) -> Seq<Seq<[u8; L]>> {
    found_spec(anagram_groups_spec(words), n).sort_by(sentence_order::<L>())
}

/// Two ascending lists of masks that hold the same masks are the same list.
pub proof fn lemma_ascending_unique(a: Seq<u32>, b: Seq<u32>)
    requires
        forall|i: int, j: int| 0 <= i < j < a.len() ==> a[i] < a[j],
        forall|i: int, j: int| 0 <= i < j < b.len() ==> b[i] < b[j],
        forall|i: int| 0 <= i < a.len() ==> b.contains(#[trigger] a[i]),
        forall|i: int| 0 <= i < b.len() ==> a.contains(#[trigger] b[i]),
    ensures
        a == b,
    decreases a.len(),
{
    if a.len() == 0 {
        if b.len() > 0 {
            assert(a.contains(b[0]));
        }
        assert(a =~= b);
    } else {
        assert(b.contains(a[a.len() - 1]));
        let la = a.last();
        let lb = b.last();
        assert(a.contains(b[b.len() - 1]));
        let ia = choose|i: int| 0 <= i < a.len() && a[i] == lb;
        let ib = choose|i: int| 0 <= i < b.len() && b[i] == la;
        assert(la == lb) by {
            if ia < a.len() - 1 {
                assert(a[ia] < a[a.len() - 1]);
            }
            if ib < b.len() - 1 {
                assert(b[ib] < b[b.len() - 1]);
            }
        }
        let a0 = a.drop_last();
        let b0 = b.drop_last();
        assert forall|i: int| 0 <= i < a0.len() implies b0.contains(#[trigger] a0[i]) by {
            assert(b.contains(a[i]));
            let j = choose|j: int| 0 <= j < b.len() && b[j] == a[i];
            assert(a[i] < a[a.len() - 1]);
            assert(b0[j] == a0[i]);
        }
        assert forall|i: int| 0 <= i < b0.len() implies a0.contains(#[trigger] b0[i]) by {
            assert(a.contains(b[i]));
            let j = choose|j: int| 0 <= j < a.len() && a[j] == b[i];
            assert(b[i] < b[b.len() - 1]);
            assert(a0[j] == b0[i]);
        }
        lemma_ascending_unique(a0, b0);
        assert(a =~= a0.push(la));
        assert(b =~= b0.push(lb));
    }
}

/// The masks of the first words of a list of groups.
pub open spec fn group_masks<const L: usize>(groups: Seq<Seq<[u8; L]>>) -> Seq<u32> {
    groups.map_values(|g: Seq<[u8; L]>| mask_of(g[0]))
}

/// The mask of every group is the mask of a word of the pool.
proof fn lemma_group_mask_in_pool<const L: usize>(
    groups: Seq<Seq<[u8; L]>>,
    pool: Seq<[u8; L]>,
    i: int,
) -> (k: int)
    requires
        groups_partition(groups, pool),
        0 <= i < groups.len(),
    ensures
        0 <= k < pool.len(),
        mask_of(pool[k]) == mask_of(groups[i][0]),
{
    let mask = mask_of(groups[i][0]);
    let pred = |w: [u8; L]| word_bits(w@) == mask;
    assert(groups[i] == with_mask(pool, mask));
    assert(groups[i].len() > 0);
    assert(with_mask(pool, mask).contains(groups[i][0]));
    pool.lemma_filter_contains_rev(pred, groups[i][0]);
    choose|k: int| 0 <= k < pool.len() && pool[k] == groups[i][0]
}

/// A pool of words has one list of groups only.
pub proof fn lemma_groups_unique<const L: usize>(
    a: Seq<Seq<[u8; L]>>,
    b: Seq<Seq<[u8; L]>>,
    pool: Seq<[u8; L]>,
)
    requires
        groups_partition(a, pool),
        groups_partition(b, pool),
    ensures
        a == b,
{
    let ma = group_masks(a);
    let mb = group_masks(b);
    assert forall|i: int| 0 <= i < ma.len() implies mb.contains(#[trigger] ma[i]) by {
        let k = lemma_group_mask_in_pool(a, pool, i);
        assert(has_group(b, mask_of(pool[k])));
        let j = choose|j: int| 0 <= j < b.len() && mask_of(#[trigger] b[j][0]) == mask_of(pool[k]);
        assert(mb[j] == ma[i]);
    }
    assert forall|i: int| 0 <= i < mb.len() implies ma.contains(#[trigger] mb[i]) by {
        let k = lemma_group_mask_in_pool(b, pool, i);
        assert(has_group(a, mask_of(pool[k])));
        let j = choose|j: int| 0 <= j < a.len() && mask_of(#[trigger] a[j][0]) == mask_of(pool[k]);
        assert(ma[j] == mb[i]);
    }
    assert forall|i: int, j: int| 0 <= i < j < ma.len() implies ma[i] < ma[j] by {
        assert(mask_of(a[i][0]) < mask_of(a[j][0]));
    }
    assert forall|i: int, j: int| 0 <= i < j < mb.len() implies mb[i] < mb[j] by {
        assert(mask_of(b[i][0]) < mask_of(b[j][0]));
    }
    lemma_ascending_unique(ma, mb);
    assert forall|i: int| 0 <= i < a.len() implies a[i] == b[i] by {
        assert(ma[i] == mb[i]);
        assert(a[i] == with_mask(pool, mask_of(a[i][0])));
        assert(b[i] == with_mask(pool, mask_of(b[i][0])));
    }
    assert(a.len() == ma.len() && b.len() == mb.len());
    assert(a =~= b);
}

/// The order of masks.
pub open spec fn mask_order() -> spec_fn(u32, u32) -> bool {
    |a: u32, b: u32| a <= b
}

/// Whether `mask` is the mask of a word of the pool.
pub open spec fn mask_in_pool<const L: usize>(pool: Seq<[u8; L]>, mask: u32) -> bool {
    exists|k: int| 0 <= k < pool.len() && mask_of(#[trigger] pool[k]) == mask
}

/// The masks of a pool of words can be listed in ascending order, each once.
pub proof fn lemma_masks_listed<const L: usize>(pool: Seq<[u8; L]>) -> (masks: Seq<u32>)
    ensures
        forall|u: int, v: int| 0 <= u < v < masks.len() ==> masks[u] < masks[v],
        forall|k: int| 0 <= k < pool.len() ==> masks.contains(mask_of(#[trigger] pool[k])),
        forall|i: int| 0 <= i < masks.len() ==> mask_in_pool(pool, #[trigger] masks[i]),
    decreases pool.len(),
{
    if pool.len() == 0 {
        Seq::empty()
    } else {
        let init = pool.drop_last();
        let known = lemma_masks_listed(init);
        let mask = mask_of(pool.last());
        assert forall|k: int| 0 <= k < init.len() implies known.contains(
            mask_of(#[trigger] pool[k]),
        ) by {
            assert(init[k] == pool[k]);
        }
        assert forall|i: int| 0 <= i < known.len() implies mask_in_pool(
            pool,
            #[trigger] known[i],
        ) by {
            assert(mask_in_pool(init, known[i]));
            let k = choose|k: int| 0 <= k < init.len() && mask_of(#[trigger] init[k]) == known[i];
            assert(mask_of(pool[k]) == known[i]);
        }
        if known.contains(mask) {
            known
        } else {
            let more = known.push(mask);
            let masks = more.sort_by(mask_order());
            assert(vstd::relations::total_ordering(mask_order()));
            more.lemma_sort_by_ensures(mask_order());
            more.to_multiset_ensures();
            masks.to_multiset_ensures();
            assert(more.no_duplicates());
            more.lemma_multiset_has_no_duplicates();
            masks.lemma_multiset_has_no_duplicates_conv();
            assert forall|u: int, v: int| 0 <= u < v < masks.len() implies masks[u]
                < masks[v] by {
                assert(mask_order()(masks[u], masks[v]));
                assert(masks[u] != masks[v]);
            }
            assert forall|k: int| 0 <= k < pool.len() implies masks.contains(
                mask_of(#[trigger] pool[k]),
            ) by {
                let m = mask_of(pool[k]);
                if k < init.len() {
                    let at = choose|at: int| 0 <= at < known.len() && known[at] == m;
                    assert(more[at] == m);
                } else {
                    assert(more[known.len() as int] == m);
                }
                assert(more.contains(m));
                assert(more.to_multiset().count(m) > 0);
                assert(masks.to_multiset().count(m) > 0);
            }
            assert forall|i: int| 0 <= i < masks.len() implies mask_in_pool(
                pool,
                #[trigger] masks[i],
            ) by {
                assert(masks.contains(masks[i]));
                assert(masks.to_multiset().count(masks[i]) > 0);
                assert(more.to_multiset().count(masks[i]) > 0);
                assert(more.contains(masks[i]));
                let at = choose|at: int| 0 <= at < more.len() && more[at] == masks[i];
                if at < known.len() {
                    assert(mask_in_pool(pool, known[at]));
                } else {
                    assert(mask_of(pool[pool.len() - 1]) == masks[i]);
                }
            }
            masks
        }
    }
}

/// The words of a pool by mask, for the masks of the pool in ascending order,
/// are the groups of the pool.
pub proof fn lemma_groups_by_mask<const L: usize>(
    groups: Seq<Seq<[u8; L]>>,
    pool: Seq<[u8; L]>,
    masks: Seq<u32>,
)
    requires
        groups.len() == masks.len(),
        forall|i: int| 0 <= i < groups.len() ==> #[trigger] groups[i] == with_mask(pool, masks[i]),
        forall|u: int, v: int| 0 <= u < v < masks.len() ==> masks[u] < masks[v],
        forall|k: int| 0 <= k < pool.len() ==> masks.contains(mask_of(#[trigger] pool[k])),
        forall|i: int| 0 <= i < masks.len() ==> mask_in_pool(pool, #[trigger] masks[i]),
        pool.no_duplicates(),
    ensures
        groups_partition(groups, pool),
{
    assert forall|i: int| 0 <= i < groups.len() implies (#[trigger] groups[i]).no_duplicates() by {
        lemma_filter_no_duplicates(pool, |w: [u8; L]| word_bits(w@) == masks[i]);
    }
    assert forall|i: int| 0 <= i < groups.len() implies (#[trigger] groups[i]).len() > 0
        && mask_of(groups[i][0]) == masks[i] by {
        let pred = |w: [u8; L]| word_bits(w@) == masks[i];
        assert(mask_in_pool(pool, masks[i]));
        let k = choose|k: int| 0 <= k < pool.len() && mask_of(#[trigger] pool[k]) == masks[i];
        pool.lemma_filter_contains(pred, k);
        pool.lemma_filter_pred(pred, 0);
    }
    assert forall|i: int, j: int| 0 <= i < j < groups.len() implies mask_of(
        #[trigger] groups[i][0],
    ) < mask_of(#[trigger] groups[j][0]) by {
        assert(groups[i].len() > 0 && groups[j].len() > 0);
        assert(masks[i] < masks[j]);
    }
    assert forall|k: int| 0 <= k < pool.len() implies has_group(
        groups,
        mask_of(#[trigger] pool[k]),
    ) by {
        assert(masks.contains(mask_of(pool[k])));
        let i = choose|i: int| 0 <= i < masks.len() && masks[i] == mask_of(pool[k]);
        assert(groups[i].len() > 0);
        assert(mask_of(groups[i][0]) == mask_of(pool[k]));
    }
    assert forall|i: int| 0 <= i < groups.len() implies #[trigger] groups[i] == with_mask(
        pool,
        mask_of(groups[i][0]),
    ) by {
        assert(groups[i].len() > 0 && mask_of(groups[i][0]) == masks[i]);
    }
}

/// Every pool of words that holds none twice has a list of groups.
pub proof fn lemma_groups_exist<const L: usize>(pool: Seq<[u8; L]>) -> (groups: Seq<Seq<[u8; L]>>)
    requires
        pool.no_duplicates(),
    ensures
        groups_partition(groups, pool),
{
    let masks = lemma_masks_listed(pool);
    let groups = masks.map_values(|m: u32| with_mask(pool, m));
    lemma_groups_by_mask(groups, pool, masks);
    groups
}

/// The anagram groups of a dictionary are a grouping of it, and the only one.
pub proof fn lemma_anagram_groups_spec<const L: usize>(words: Seq<[u8; L]>)
    ensures
        is_grouping(anagram_groups_spec(words), words),
{
    lemma_first_occurrences(words.filter(|w: [u8; L]| w@.no_duplicates()));
    let groups = lemma_groups_exist(usable(words));
    assert(is_grouping(groups, words));
}

/// The groups that `anagram_groups` returns are the anagram groups of the
/// dictionary.
pub proof fn lemma_grouping_is_spec<const L: usize>(groups: Seq<Seq<[u8; L]>>, words: Seq<[u8; L]>)
    requires
        is_grouping(groups, words),
    ensures
        groups == anagram_groups_spec(words),
{
    lemma_groups_unique(groups, anagram_groups_spec(words), usable(words));
}

/// Every group of a list has its mask as a key of the list's map.
pub proof fn lemma_anagram_map_keys<const L: usize>(groups: Seq<Seq<[u8; L]>>, i: int)
    requires
        0 <= i < groups.len(),
    ensures
        anagram_map_spec(groups).contains_key(mask_of(groups[i][0])),
    decreases groups.len(),
{
    if i < groups.len() - 1 {
        lemma_anagram_map_keys(groups.drop_last(), i);
        assert(groups.drop_last()[i] == groups[i]);
    }
}

/// The first word of each group.
pub fn representatives<const L: usize>(groups: &Vec<Vec<[u8; L]>>) -> (reps: Vec<[u8; L]>)
    requires
        forall|i: int| 0 <= i < groups@.len() ==> (#[trigger] groups@[i])@.len() > 0,
    ensures
        reps@ == first_words(group_views(groups@)),
{
    let mut reps: Vec<[u8; L]> = Vec::new();
    let mut i: usize = 0;
    while i < groups.len()
        invariant
            i <= groups@.len(),
            forall|i: int| 0 <= i < groups@.len() ==> (#[trigger] groups@[i])@.len() > 0,
            reps@.len() == i,
            forall|j: int| 0 <= j < i ==> #[trigger] reps@[j] == groups@[j]@[0],
        decreases groups@.len() - i,
    {
        assert(groups@[i as int]@.len() > 0);
        reps.push(groups[i][0]);
        i += 1;
    }
    assert(reps@ =~= first_words(group_views(groups@)));
    reps
}

/// Whether every charset of every solution has a group in the map.
pub open spec fn expandable<const L: usize>(
    map: Map<u32, Seq<[u8; L]>>,
    sols: Seq<Seq<LowerAsciiCharset>>,
) -> bool {
    forall|j: int, t: int|
        0 <= j < sols.len() && 0 <= t < sols[j].len() ==> map.contains_key(
            #[trigger] sols[j][t].bits(),
        )
}

/// The sentences that the solutions `sols` stand for, solution by solution.
pub fn expand_all<const L: usize, const N: usize>(
    anagram_map: &AnagramMap<L>,
    sols: &Vec<CharsetSentence<N>>,
) -> (out: Vec<Sentence<L, N>>)
    requires
        N >= 1,
        anagram_map.wf(),
        forall|j: int| 0 <= j < sols@.len() ==> (#[trigger] sols@[j]).wf() && sols@[j]@.len() == N,
        expandable(anagram_map@, charset_views(sols@)),
    ensures
        sentence_views(out@) == all_expansions(anagram_map@, charset_views(sols@)),
        forall|j: int| 0 <= j < out@.len() ==> (#[trigger] out@[j]).wf(),
{
    let mut out: Vec<Sentence<L, N>> = Vec::new();
    let mut i: usize = 0;
    assert(charset_views(sols@).take(0) =~= Seq::empty());
    assert(sentence_views(out@) =~= Seq::empty());
    while i < sols.len()
        invariant
            i <= sols@.len(),
            N >= 1,
            anagram_map.wf(),
            forall|j: int|
                0 <= j < sols@.len() ==> (#[trigger] sols@[j]).wf() && sols@[j]@.len() == N,
            expandable(anagram_map@, charset_views(sols@)),
            sentence_views(out@) == all_expansions(
                anagram_map@,
                charset_views(sols@).take(i as int),
            ),
            forall|j: int| 0 <= j < out@.len() ==> (#[trigger] out@[j]).wf(),
        decreases sols@.len() - i,
    {
        let sol = sols[i];
        let ghost before = out@;
        proof {
            assert(sols@[i as int].wf());
            assert forall|t: int| 0 <= t < N implies anagram_map@.contains_key(
                #[trigger] sol@[t].bits(),
            ) by {
                assert(charset_views(sols@)[i as int][t] == sol@[t]);
            }
        }
        expand_anagrams(&mut out, anagram_map, sol);
        proof {
            let mid = before.len() as int;
            let views = charset_views(sols@);
            assert(views.take(i + 1).drop_last() =~= views.take(i as int));
            assert(views.take(i + 1).last() == sol@);
            assert(out@ =~= out@.take(mid) + out@.skip(mid));
            assert(sentence_views(out@) =~= sentence_views(before) + sentence_views(
                out@.skip(mid),
            ));
            assert forall|j: int| 0 <= j < out@.len() implies (#[trigger] out@[j]).wf() by {
                if j < mid {
                    assert(out@[j] == out@.take(mid)[j]);
                }
            }
        }
        i += 1;
    }
    assert(charset_views(sols@).take(sols@.len() as int) =~= charset_views(sols@));
    out
}

/// The sentences in ascending order: by their first words, then by their
/// second, and so on.
pub fn sort_sentences<const L: usize, const N: usize>(sentences: Vec<Sentence<L, N>>) -> (out: Vec<
    Sentence<L, N>,
>)
    requires
        forall|i: int| 0 <= i < sentences@.len() ==> (#[trigger] sentences@[i]).wf(),
    ensures
        sentence_views(out@) == sentence_views(sentences@).sort_by(sentence_order::<L>()),
        out@.to_multiset() == sentences@.to_multiset(),
        forall|j: int| 0 <= j < out@.len() ==> (#[trigger] out@[j]).wf(),
{
    let ghost unsorted = sentences@;
    let ghost found = sentence_views(unsorted);
    let out = sorted_sentences(sentences);
    proof {
        lemma_map_multiset(out@, unsorted, |s: Sentence<L, N>| s@);
        lemma_sentence_order_total::<L>();
        found.lemma_sort_by_ensures(sentence_order::<L>());
        lemma_sorted_lists_equal(
            sentence_views(out@),
            found.sort_by(sentence_order::<L>()),
            sentence_order::<L>(),
        );
        out@.to_multiset_ensures();
        unsorted.to_multiset_ensures();
        assert forall|j: int| 0 <= j < out@.len() implies (#[trigger] out@[j]).wf() by {
            assert(out@.contains(out@[j]));
            assert(unsorted.to_multiset().count(out@[j]) > 0);
            assert(unsorted.contains(out@[j]));
        }
    }
    out
}

/// Every sentence of `N` words of the dictionary `words` in which no symbol
/// occurs twice, each once, in ascending order: the words of a sentence
/// ascend, and so do the sentences.
pub fn solve<const L: usize, const N: usize>(words: Vec<[u8; L]>, wide: bool) -> (out: Vec<
    Sentence<L, N>,
>)
    requires
        2 <= N <= u8::MAX,
        forall|i: int| 0 <= i < words@.len() ==> word_in_alphabet(#[trigger] words@[i]@),
    ensures
        sentence_views(out@) == solve_spec(words@, N as nat),
        sentence_views(out@).no_duplicates(),
        forall|j: int| 0 <= j < out@.len() ==> (#[trigger] out@[j]).wf(),
        usable(words@).len() == 0 ==> out@.len() == 0,
{
    let ghost dictionary = words@;
    let groups = anagram_groups(words);
    let ghost views = group_views(groups@);
    proof {
        lemma_grouping_is_spec(views, dictionary);
        assert forall|i: int| 0 <= i < groups@.len() implies (#[trigger] groups@[i])@.len() > 0
            && word_in_alphabet(groups@[i]@[0]@) by {
            assert(views[i].len() > 0);
            let k = lemma_group_mask_in_pool(views, usable(dictionary), i);
            let w = views[i][0];
            assert(views[i] == with_mask(usable(dictionary), mask_of(w)));
            assert(views[i].contains(w));
            usable(dictionary).lemma_filter_contains_rev(
                |v: [u8; L]| word_bits(v@) == mask_of(w),
                w,
            );
            lemma_usable_members(dictionary, w);
            let at = choose|at: int| 0 <= at < dictionary.len() && dictionary[at] == w;
            assert(word_in_alphabet(dictionary[at]@));
        }
    }
    let anagram_map = anagram_map(groups.as_slice());
    let rep_words = representatives(&groups);
    assert forall|i: int| 0 <= i < rep_words@.len() implies word_in_alphabet(
        #[trigger] rep_words@[i]@,
    ) by {
        assert(rep_words@[i] == groups@[i]@[0]);
    }
    let reps = word_charsets(&rep_words);
    let graph = graph_of_charsets(&reps);
    proof {
        assert forall|i: int| 0 <= i < reps@.len() implies graph@.contains_key(
            #[trigger] reps@[i].bits(),
        ) by {
            assert(is_rep(reps@, reps@.len() as int, reps@[i].bits()));
        }
    }
    let sols = find_all::<N>(&graph, &reps, wide);
    proof {
        let found = charset_views(sols@);
        assert forall|j: int, t: int|
            0 <= j < found.len() && 0 <= t < found[j].len() implies anagram_map@.contains_key(
            #[trigger] found[j][t].bits(),
        ) by {
            lemma_roots_solutions_sound(graph@, reps@, N as nat, j);
            let mask = found[j][t].bits();
            assert(graph@.contains_key(mask));
            let i = choose|i: int|
                0 <= i < reps@.len() && i < reps@.len() && #[trigger] reps@[i].bits() == mask;
            LowerAsciiCharset::lemma_of_bits(word_bits(rep_words@[i]@));
            assert(reps@[i] == LowerAsciiCharset::of_word(rep_words@[i]@));
            assert(rep_words@[i] == views[i][0]);
            lemma_anagram_map_keys(views, i);
        }
    }
    let expanded = expand_all(&anagram_map, &sols);
    let ghost found = sentence_views(expanded@);
    assert(found == found_spec(views, N as nat));
    let out = sort_sentences(expanded);
    proof {
        lemma_solve_once(dictionary, N as nat);
        if usable(dictionary).len() == 0 {
            lemma_no_usable_no_solutions(dictionary, N as nat);
        }
    }
    out
}

/// The lines of the sentences of `n` words of a dictionary, in the order of
/// the sentences.
pub open spec fn lines_spec<const L: usize>(words: Seq<[u8; L]>, n: nat) -> Seq<Seq<char>> {
    solve_spec(words, n).map_values(|s: Seq<[u8; L]>| line_spec(s))
}

/// The sentences of `N` words of the dictionary `words`, each as a line of
/// letters, in the ascending order of the sentences. The lines are a function
/// of the dictionary: two runs give the same lines, character by character.
pub fn solve_lines<const L: usize, const N: usize>(words: Vec<[u8; L]>, wide: bool) -> (lines: Vec<
    String,
>)
    requires
        2 <= N <= u8::MAX,
        forall|i: int| 0 <= i < words@.len() ==> showable(#[trigger] words@[i]@),
    ensures
        string_views(lines@) == lines_spec(words@, N as nat),
{
    let ghost dictionary = words@;
    let sentences = solve::<L, N>(words, wide);
    let mut lines: Vec<String> = Vec::new();
    let mut i: usize = 0;
    while i < sentences.len()
        invariant
            i <= sentences@.len(),
            N >= 2,
            forall|i: int| 0 <= i < dictionary.len() ==> showable(#[trigger] dictionary[i]@),
            sentence_views(sentences@) == solve_spec(dictionary, N as nat),
            forall|j: int| 0 <= j < sentences@.len() ==> (#[trigger] sentences@[j]).wf(),
            lines@.len() == i,
            forall|j: int| 0 <= j < i ==> (#[trigger] lines@[j])@ == line_spec(sentences@[j]@),
        decreases sentences@.len() - i,
    {
        let sentence = &sentences[i];
        proof {
            assert(sentence_views(sentences@)[i as int] == sentence@);
            lemma_solve_sound(dictionary, N as nat, i as int);
            assert forall|t: int| 0 <= t < sentence@.len() implies showable(
                #[trigger] sentence@[t]@,
            ) by {
                lemma_usable_members(dictionary, sentence@[t]);
                let at = choose|at: int| 0 <= at < dictionary.len() && dictionary[at] == sentence@[t];
                assert(showable(dictionary[at]@));
            }
        }
        lines.push(sentence.as_string());
        i += 1;
    }
    assert(string_views(lines@) =~= lines_spec(dictionary, N as nat)) by {
        assert forall|j: int| 0 <= j < lines@.len() implies string_views(lines@)[j] == lines_spec(
            dictionary,
            N as nat,
        )[j] by {
            assert(sentence_views(sentences@)[j] == sentences@[j]@);
        }
    }
    lines
}

/// The order in which sentences are found does not show in the sorted list:
/// two lists that hold the same sentences, each as often in the one as in the
/// other, are the same list once sorted.
pub proof fn lemma_sorted_whatever_the_order<const L: usize>(
    first: Seq<Seq<[u8; L]>>,
    second: Seq<Seq<[u8; L]>>,
)
    requires
        first.to_multiset() == second.to_multiset(),
    ensures
        first.sort_by(sentence_order::<L>()) == second.sort_by(sentence_order::<L>()),
{
    lemma_sentence_order_total::<L>();
    first.lemma_sort_by_ensures(sentence_order::<L>());
    second.lemma_sort_by_ensures(sentence_order::<L>());
    lemma_sorted_lists_equal(
        first.sort_by(sentence_order::<L>()),
        second.sort_by(sentence_order::<L>()),
        sentence_order::<L>(),
    );
}

/// Two runs on one dictionary give the same list: what `solve` returns is a
/// function of the dictionary and the number of words, whichever path the
/// kernel takes.
pub proof fn lemma_solve_deterministic<const L: usize>(
    words: Seq<[u8; L]>,
    n: nat,
    first: Seq<Seq<[u8; L]>>,
    second: Seq<Seq<[u8; L]>>,
)
    requires
        first == solve_spec(words, n),
        second == solve_spec(words, n),
    ensures
        first == second,
{
}

/// A dictionary without a usable word has no sentences.
pub proof fn lemma_no_usable_no_solutions<const L: usize>(words: Seq<[u8; L]>, n: nat)
    requires
        usable(words).len() == 0,
    ensures
        solve_spec(words, n) == Seq::<Seq<[u8; L]>>::empty(),
{
    let groups = anagram_groups_spec(words);
    lemma_anagram_groups_spec(words);
    if groups.len() > 0 {
        let k = lemma_group_mask_in_pool(groups, usable(words), 0);
    }
    assert(groups.len() == 0);
    let reps = charsets_of(first_words(groups));
    assert(reps.len() == 0);
    let found = found_spec(groups, n);
    assert(found =~= Seq::<Seq<[u8; L]>>::empty());
    lemma_sentence_order_total::<L>();
    found.lemma_sort_by_ensures(sentence_order::<L>());
    found.to_multiset_ensures();
    found.sort_by(sentence_order::<L>()).to_multiset_ensures();
    assert(found.sort_by(sentence_order::<L>()) =~= Seq::<Seq<[u8; L]>>::empty());
}

} // verus!
