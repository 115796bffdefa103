//! What the list that `solve` returns holds: each of its sentences is made of
//! usable words of the dictionary, no two of which share a symbol.

use vstd::prelude::*;
use vstd::relations::sorted_by;
use crate::adaptors::with_mask;
use crate::anagram::{choice, expansions, groups_of, sizes_of, sort_words};
use crate::bits::{
    lemma_and_commutes, lemma_and_self, lemma_and_zero, lemma_bit_set_nonzero, lemma_disjoint_from_or,
    lemma_disjoint_or, lemma_or_single_bit,
};
use crate::charset::{word_bits, word_in_alphabet, LowerAsciiCharset};
use crate::graph::{charsets_of, graph_spec, lemma_graph_spec_closed};
use crate::groups::{
    anagram_map_spec, groups_partition, has_group, lemma_usable_members, mask_of, usable,
};
use crate::odometer::{
    in_range, indices_at, lemma_combinations_positive, lemma_indices_at, lemma_ticks_roundtrip,
    ticks,
};
use crate::order::{
    lemma_map_multiset, lemma_sentence_order_total, lemma_sorted_lists_equal,
    lemma_word_order_total, sentence_order, word_order,
};
use crate::search::{
    all_rows, is_solution, lemma_contains_add, lemma_roots_solutions_complete,
    lemma_roots_solutions_sound, roots_solutions, union_of,
};
use crate::sentence::union_bits;
use crate::solver::{
    all_expansions, anagram_groups_spec, first_words, found_spec, lemma_anagram_groups_spec,
    mask_order, solve_spec,
};

verus! {

/// `s` is a sentence of `n` words over the dictionary `words`: each of its
/// words is a word of the dictionary without a repeated symbol, no two of its
/// words share a symbol, and its words ascend.
pub open spec fn is_sentence<const L: usize>(words: Seq<[u8; L]>, s: Seq<[u8; L]>, n: nat) -> bool {
    &&& s.len() == n
    &&& forall|i: int| 0 <= i < n ==> usable(words).contains(#[trigger] s[i])
    &&& forall|i: int, j: int|
        0 <= i < j < n ==> mask_of(#[trigger] s[i]) & mask_of(#[trigger] s[j]) == 0
    &&& sorted_by(s, word_order::<L>())
}

/// Every choice of one word from each group is among the expansions, after
/// as many ticks as the indices of the choice stand for.
pub proof fn lemma_expansions_exhaustive<const L: usize>(groups: Seq<Seq<[u8; L]>>, idxs: Seq<int>)
    requires
        in_range(idxs, sizes_of(groups)),
    ensures
        0 <= ticks(idxs, sizes_of(groups)) < expansions(groups).len(),
        expansions(groups)[ticks(idxs, sizes_of(groups))] == sort_words(choice(groups, idxs)),
{
    lemma_ticks_roundtrip(idxs, sizes_of(groups));
}

/// Every expansion is the sorted choice of one word from each group, and no
/// other expansion comes from the same indices.
pub proof fn lemma_expansions_are_choices<const L: usize>(groups: Seq<Seq<[u8; L]>>, k: int)
    requires
        forall|i: int| 0 <= i < groups.len() ==> (#[trigger] groups[i]).len() > 0,
        0 <= k < expansions(groups).len(),
    ensures
        in_range(indices_at(sizes_of(groups), k), sizes_of(groups)),
        expansions(groups)[k] == sort_words(choice(groups, indices_at(sizes_of(groups), k))),
        forall|j: int|
            0 <= j < expansions(groups).len() && j != k ==> indices_at(sizes_of(groups), j)
                != indices_at(sizes_of(groups), k),
{
    let sizes = sizes_of(groups);
    assert forall|i: int| 0 <= i < sizes.len() implies sizes[i] > 0 by {
        assert(groups[i].len() > 0);
    }
    lemma_combinations_positive(sizes);
    lemma_indices_at(sizes, k);
    assert forall|j: int| 0 <= j < expansions(groups).len() && j != k implies indices_at(sizes, j)
        != indices_at(sizes, k) by {
        lemma_indices_at(sizes, j);
    }
}

/// A sentence among the expansions of a list of solutions is among the
/// expansions of one of them.
pub proof fn lemma_all_expansions_member<const L: usize>(
    map: Map<u32, Seq<[u8; L]>>,
    sols: Seq<Seq<LowerAsciiCharset>>,
    s: Seq<[u8; L]>,
) -> (j: int)
    requires
        all_expansions(map, sols).contains(s),
    ensures
        0 <= j < sols.len(),
        expansions(groups_of(map, sols[j])).contains(s),
    decreases sols.len(),
{
    let before = all_expansions(map, sols.drop_last());
    let part = expansions(groups_of(map, sols.last()));
    let at = choose|at: int| 0 <= at < (before + part).len() && (before + part)[at] == s;
    if at < before.len() {
        assert(before[at] == s);
        lemma_all_expansions_member(map, sols.drop_last(), s)
    } else {
        assert(part[at - before.len()] == s);
        sols.len() - 1
    }
}

/// The map of groups with different masks gives each group under its mask.
pub proof fn lemma_anagram_map_lookup<const L: usize>(groups: Seq<Seq<[u8; L]>>, i: int)
    requires
        0 <= i < groups.len(),
        forall|a: int, b: int|
            0 <= a < b < groups.len() ==> mask_of(#[trigger] groups[a][0]) != mask_of(
                #[trigger] groups[b][0],
            ),
    ensures
        anagram_map_spec(groups)[mask_of(groups[i][0])] == groups[i],
    decreases groups.len(),
{
    if i < groups.len() - 1 {
        let init = groups.drop_last();
        assert(init[i] == groups[i]);
        assert(mask_of(groups[i][0]) != mask_of(groups[groups.len() - 1][0]));
        assert forall|a: int, b: int| 0 <= a < b < init.len() implies mask_of(
            #[trigger] init[a][0],
        ) != mask_of(#[trigger] init[b][0]) by {
            assert(init[a] == groups[a] && init[b] == groups[b]);
        }
        lemma_anagram_map_lookup(init, i);
    }
}

/// What shares no symbol with the union of a list of charsets shares none
/// with any of them.
pub proof fn lemma_disjoint_from_each(d: u32, list: Seq<LowerAsciiCharset>, u: int)
    requires
        0 <= u < list.len(),
        d & union_bits(list) == 0,
    ensures
        d & list[u].bits() == 0,
    decreases list.len(),
{
    lemma_disjoint_from_or(d, union_bits(list.drop_last()), list.last().bits());
    if u < list.len() - 1 {
        lemma_disjoint_from_each(d, list.drop_last(), u);
    }
}

/// No two charsets of a solution share a symbol, and their masks ascend.
pub proof fn lemma_solution_pairwise(
    graph: Map<u32, Seq<LowerAsciiCharset>>,
    sol: Seq<LowerAsciiCharset>,
    n: nat,
    u: int,
    v: int,
)
    requires
        is_solution(graph, sol, n),
        0 <= u < v < n,
    ensures
        sol[v].bits() & sol[u].bits() == 0,
        sol[u].bits() & sol[v].bits() == 0,
        sol[u].bits() < sol[v].bits(),
    decreases v - u,
{
    LowerAsciiCharset::lemma_of_bits(union_bits(sol.take(v)));
    assert(!sol[v].intersects(union_of(sol.take(v))));
    lemma_disjoint_from_each(sol[v].bits(), sol.take(v), u);
    lemma_and_commutes(sol[v].bits(), sol[u].bits());
    if u + 1 < v {
        lemma_solution_pairwise(graph, sol, n, u, v - 1);
    }
    assert(sol[v].bits() > sol[v - 1].bits());
}

/// Every sentence that `solve` returns is a sentence over the dictionary: its
/// words are usable words of the dictionary, no two of them share a symbol,
/// and they ascend.
pub proof fn lemma_solve_sound<const L: usize>(words: Seq<[u8; L]>, n: nat, k: int)
    requires
        n >= 2,
        0 <= k < solve_spec(words, n).len(),
    ensures
        is_sentence(words, solve_spec(words, n)[k], n),
{
    lemma_anagram_groups_spec(words);
    let groups = anagram_groups_spec(words);
    let pool = usable(words);
    let s = solve_spec(words, n)[k];
    let found = found_spec(groups, n);
    let reps = charsets_of(first_words(groups));
    let graph = graph_spec(reps);
    let map = anagram_map_spec(groups);
    let sols = roots_solutions(graph, reps, n);

    lemma_sentence_order_total::<L>();
    found.lemma_sort_by_ensures(sentence_order::<L>());
    assert(found.sort_by(sentence_order::<L>()).contains(s));
    assert(found.contains(s));
    let j = lemma_all_expansions_member(map, sols, s);
    let sol = sols[j];
    lemma_graph_spec_closed(reps);
    assert(all_rows(graph, reps)) by {
        assert forall|i: int| 0 <= i < reps.len() implies graph.contains_key(
            #[trigger] reps[i].bits(),
        ) by {
            assert(crate::graph::is_rep(reps, reps.len() as int, reps[i].bits()));
        }
    }
    lemma_roots_solutions_sound(graph, reps, n, j);
    let row = groups_of(map, sol);

    // each charset of the solution has the group of the pool's words with its mask
    assert forall|t: int| 0 <= t < n implies (#[trigger] row[t]).len() > 0 && row[t] == with_mask(
        pool,
        sol[t].bits(),
    ) by {
        assert(graph.contains_key(sol[t].bits()));
        let i = choose|i: int|
            0 <= i < reps.len() && i < reps.len() && #[trigger] reps[i].bits() == sol[t].bits();
        LowerAsciiCharset::lemma_of_bits(word_bits(groups[i][0]@));
        assert(reps[i] == LowerAsciiCharset::of_word(first_words(groups)[i]@));
        assert(mask_of(groups[i][0]) == sol[t].bits());
        assert forall|a: int, b: int| 0 <= a < b < groups.len() implies mask_of(
            #[trigger] groups[a][0],
        ) != mask_of(#[trigger] groups[b][0]) by {
            assert(mask_of(groups[a][0]) < mask_of(groups[b][0]));
        }
        lemma_anagram_map_lookup(groups, i);
        assert(groups[i].len() > 0);
        assert(groups[i] == with_mask(pool, mask_of(groups[i][0])));
    }
    let at = choose|at: int| 0 <= at < expansions(row).len() && expansions(row)[at] == s;
    lemma_expansions_are_choices(row, at);
    let idxs = indices_at(sizes_of(row), at);
    let chosen = choice(row, idxs);
    assert(s == sort_words(chosen));

    // the chosen words are of the pool, each with the mask of its charset
    assert forall|t: int| 0 <= t < n implies pool.contains(#[trigger] chosen[t]) && mask_of(
        chosen[t],
    ) == sol[t].bits() by {
        let pred = |w: [u8; L]| word_bits(w@) == sol[t].bits();
        assert(0 <= idxs[t] < sizes_of(row)[t]);
        assert(row[t] == with_mask(pool, sol[t].bits()));
        assert(row[t].contains(chosen[t])) by {
            assert(row[t][idxs[t]] == chosen[t]);
        }
        pool.lemma_filter_contains_rev(pred, chosen[t]);
        pool.lemma_filter_pred(pred, idxs[t]);
    }
    assert(chosen.no_duplicates()) by {
        assert forall|u: int, v: int|
            0 <= u < chosen.len() && 0 <= v < chosen.len() && u != v implies chosen[u]
            != chosen[v] by {
            if u < v {
                lemma_solution_pairwise(graph, sol, n, u, v);
            } else {
                lemma_solution_pairwise(graph, sol, n, v, u);
            }
            assert(mask_of(chosen[u]) != mask_of(chosen[v]));
        }
    }
    lemma_word_order_total::<L>();
    chosen.lemma_sort_by_ensures(word_order::<L>());
    chosen.to_multiset_ensures();
    s.to_multiset_ensures();
    chosen.lemma_multiset_has_no_duplicates();
    s.lemma_multiset_has_no_duplicates_conv();
    assert forall|i: int| 0 <= i < n implies pool.contains(#[trigger] s[i]) by {
        assert(s.contains(s[i]));
        assert(chosen.contains(s[i]));
    }
    assert forall|i: int, j: int| 0 <= i < j < n implies mask_of(#[trigger] s[i]) & mask_of(
        #[trigger] s[j],
    ) == 0 by {
        assert(s.contains(s[i]) && s.contains(s[j]));
        assert(chosen.contains(s[i]) && chosen.contains(s[j]));
        let u = choose|u: int| 0 <= u < chosen.len() && chosen[u] == s[i];
        let v = choose|v: int| 0 <= v < chosen.len() && chosen[v] == s[j];
        assert(s[i] != s[j]);
        if u < v {
            lemma_solution_pairwise(graph, sol, n, u, v);
        } else {
            lemma_solution_pairwise(graph, sol, n, v, u);
        }
    }
}

/// What shares no symbol with any charset of a list shares none with their
/// union.
pub proof fn lemma_disjoint_from_union(d: u32, list: Seq<LowerAsciiCharset>)
    requires
        forall|u: int| 0 <= u < list.len() ==> d & (#[trigger] list[u]).bits() == 0,
    ensures
        d & union_bits(list) == 0,
    decreases list.len(),
{
    if list.len() == 0 {
        lemma_and_zero(d);
    } else {
        assert forall|u: int| 0 <= u < list.drop_last().len() implies d & (
        #[trigger] list.drop_last()[u]).bits() == 0 by {
            assert(list.drop_last()[u] == list[u]);
        }
        lemma_disjoint_from_union(d, list.drop_last());
        assert(d & list[list.len() - 1].bits() == 0);
        lemma_disjoint_or(d, union_bits(list.drop_last()), list.last().bits());
    }
}

/// A word with a symbol has a symbol in its charset.
pub proof fn lemma_word_mask_nonzero(w: Seq<u8>)
    requires
        w.len() >= 1,
        word_in_alphabet(w),
    ensures
        word_bits(w) != 0,
{
    let b = w.last() as u32;
    lemma_or_single_bit(word_bits(w.drop_last()), b, b);
    lemma_bit_set_nonzero(word_bits(w), b);
}

/// The masks of the words of a sentence.
pub open spec fn masks_of<const L: usize>(s: Seq<[u8; L]>) -> Seq<u32> {
    s.map_values(|w: [u8; L]| mask_of(w))
}

/// The word of `s` that has the mask `mask`.
pub open spec fn word_with_mask<const L: usize>(s: Seq<[u8; L]>, mask: u32) -> [u8; L] {
    choose|w: [u8; L]| s.contains(w) && mask_of(w) == mask
}

/// A sentence among the expansions of one of a list of solutions is among
/// the expansions of the list.
pub proof fn lemma_all_expansions_contains<const L: usize>(
    map: Map<u32, Seq<[u8; L]>>,
    sols: Seq<Seq<LowerAsciiCharset>>,
    j: int,
    s: Seq<[u8; L]>,
)
    requires
        0 <= j < sols.len(),
        expansions(groups_of(map, sols[j])).contains(s),
    ensures
        all_expansions(map, sols).contains(s),
    decreases sols.len(),
{
    let before = all_expansions(map, sols.drop_last());
    let part = expansions(groups_of(map, sols.last()));
    if j < sols.len() - 1 {
        assert(sols.drop_last()[j] == sols[j]);
        lemma_all_expansions_contains(map, sols.drop_last(), j, s);
    }
    lemma_contains_add(before, part, s);
}

/// The masks of words that share no symbol, put in ascending order: they
/// ascend strictly, and they are the masks of the words.
pub proof fn lemma_masks_ascending<const L: usize>(s: Seq<[u8; L]>)
    requires
        L >= 1,
        forall|i: int| 0 <= i < s.len() ==> word_in_alphabet(#[trigger] s[i]@),
        forall|i: int, j: int|
            0 <= i < j < s.len() ==> mask_of(#[trigger] s[i]) & mask_of(#[trigger] s[j]) == 0,
    ensures
        masks_of(s).no_duplicates(),
        masks_of(s).sort_by(mask_order()).len() == s.len(),
        masks_of(s).sort_by(mask_order()).to_multiset() == masks_of(s).to_multiset(),
        forall|u: int, v: int|
            0 <= u < v < s.len() ==> (#[trigger] masks_of(s).sort_by(mask_order())[u]) < (
            #[trigger] masks_of(s).sort_by(mask_order())[v]),
{
    let masks = masks_of(s);
    let sorted = masks.sort_by(mask_order());
    assert forall|i: int, j: int| 0 <= i < j < s.len() implies masks[i] != masks[j] by {
        assert(mask_of(s[i]) & mask_of(s[j]) == 0);
        lemma_word_mask_nonzero(s[i]@);
        lemma_and_self(mask_of(s[i]));
    }
    assert(vstd::relations::total_ordering(mask_order()));
    masks.lemma_sort_by_ensures(mask_order());
    masks.to_multiset_ensures();
    sorted.to_multiset_ensures();
    masks.lemma_multiset_has_no_duplicates();
    sorted.lemma_multiset_has_no_duplicates_conv();
    assert forall|u: int, v: int| 0 <= u < v < s.len() implies (#[trigger] sorted[u]) < (
    #[trigger] sorted[v]) by {
        assert(mask_order()(sorted[u], sorted[v]));
        assert(sorted[u] != sorted[v]);
    }
}

/// The words of a sentence in the order of a rearrangement of their masks:
/// the same words, each with its mask, and still no two share a symbol.
pub proof fn lemma_words_by_mask<const L: usize>(s: Seq<[u8; L]>, order: Seq<u32>)
    requires
        masks_of(s).no_duplicates(),
        order.to_multiset() == masks_of(s).to_multiset(),
        forall|i: int, j: int|
            0 <= i < j < s.len() ==> mask_of(#[trigger] s[i]) & mask_of(#[trigger] s[j]) == 0,
    ensures
        order.map_values(|m: u32| word_with_mask(s, m)).to_multiset() == s.to_multiset(),
        forall|t: int|
            0 <= t < order.len() ==> s.contains(#[trigger] word_with_mask(s, order[t]))
                && mask_of(word_with_mask(s, order[t])) == order[t],
        forall|u: int, v: int|
            0 <= u < v < order.len() ==> (#[trigger] order[v]) & (#[trigger] order[u]) == 0,
{
    let masks = masks_of(s);
    let pick = |m: u32| word_with_mask(s, m);
    masks.to_multiset_ensures();
    order.to_multiset_ensures();
    assert forall|t: int| 0 <= t < order.len() implies s.contains(
        #[trigger] word_with_mask(s, order[t]),
    ) && mask_of(word_with_mask(s, order[t])) == order[t] by {
        assert(order.contains(order[t]));
        assert(order.to_multiset().count(order[t]) > 0);
        assert(masks.to_multiset().count(order[t]) > 0);
        assert(masks.contains(order[t]));
        let i = choose|i: int| 0 <= i < masks.len() && masks[i] == order[t];
        assert(s.contains(s[i]) && mask_of(s[i]) == order[t]);
    }
    assert(masks.map_values(pick) =~= s) by {
        assert forall|i: int| 0 <= i < s.len() implies pick(masks[i]) == s[i] by {
            assert(s.contains(s[i]) && mask_of(s[i]) == masks[i]);
            let w = pick(masks[i]);
            assert(s.contains(w) && mask_of(w) == masks[i]);
            let j = choose|j: int| 0 <= j < s.len() && s[j] == w;
            assert(masks[j] == masks[i]);
        }
    }
    lemma_map_multiset(order, masks, pick);
    masks.lemma_multiset_has_no_duplicates();
    order.lemma_multiset_has_no_duplicates_conv();
    assert forall|u: int, v: int| 0 <= u < v < order.len() implies (#[trigger] order[v]) & (
    #[trigger] order[u]) == 0 by {
        assert(order[u] != order[v]);
        let wu = word_with_mask(s, order[u]);
        let wv = word_with_mask(s, order[v]);
        assert(s.contains(wu) && s.contains(wv));
        let a = choose|a: int| 0 <= a < s.len() && s[a] == wu;
        let b = choose|b: int| 0 <= b < s.len() && s[b] == wv;
        if a < b {
            assert(mask_of(s[a]) & mask_of(s[b]) == 0);
        } else {
            assert(mask_of(s[b]) & mask_of(s[a]) == 0);
        }
        lemma_and_commutes(order[u], order[v]);
    }
}

/// Masks with rows in the graph that ascend and share no bit are a solution.
pub proof fn lemma_masks_are_solution(
    graph: Map<u32, Seq<LowerAsciiCharset>>,
    masks: Seq<u32>,
    n: nat,
)
    requires
        masks.len() == n,
        forall|t: int| 0 <= t < n ==> graph.contains_key(#[trigger] masks[t]),
        forall|u: int, v: int| 0 <= u < v < n ==> (#[trigger] masks[u]) < (#[trigger] masks[v]),
        forall|u: int, v: int|
            0 <= u < v < n ==> (#[trigger] masks[v]) & (#[trigger] masks[u]) == 0,
    ensures
        is_solution(graph, masks.map_values(|m: u32| LowerAsciiCharset::of_bits(m)), n),
{
    let sol = masks.map_values(|m: u32| LowerAsciiCharset::of_bits(m));
    assert forall|t: int| 0 <= t < n implies #[trigger] sol[t].bits() == masks[t] by {
        LowerAsciiCharset::lemma_of_bits(masks[t]);
    }
    assert forall|t: int| 0 < t < n implies !(#[trigger] sol[t]).intersects(
        union_of(sol.take(t)),
    ) by {
        let before = sol.take(t);
        assert forall|u: int| 0 <= u < before.len() implies sol[t].bits() & (
        #[trigger] before[u]).bits() == 0 by {
            assert(before[u] == sol[u]);
            assert(masks[t] & masks[u] == 0);
        }
        lemma_disjoint_from_union(sol[t].bits(), before);
        LowerAsciiCharset::lemma_of_bits(union_bits(before));
    }
    assert forall|t: int| 0 < t < n implies #[trigger] sol[t].bits() > sol[t - 1].bits() by {
        assert(masks[t - 1] < masks[t]);
    }
}

/// The group of a representative's mask in the map of the groups: the words
/// of the pool that have the mask.
pub proof fn lemma_group_of_rep<const L: usize>(
    groups: Seq<Seq<[u8; L]>>,
    pool: Seq<[u8; L]>,
    mask: u32,
)
    requires
        groups_partition(groups, pool),
        graph_spec(charsets_of(first_words(groups))).contains_key(mask),
    ensures
        anagram_map_spec(groups)[mask] == with_mask(pool, mask),
        with_mask(pool, mask).len() > 0,
{
    let reps = charsets_of(first_words(groups));
    let i = choose|i: int|
        0 <= i < reps.len() && i < reps.len() && #[trigger] reps[i].bits() == mask;
    LowerAsciiCharset::lemma_of_bits(word_bits(groups[i][0]@));
    assert(reps[i] == LowerAsciiCharset::of_word(first_words(groups)[i]@));
    assert(mask_of(groups[i][0]) == mask);
    assert forall|a: int, b: int| 0 <= a < b < groups.len() implies mask_of(
        #[trigger] groups[a][0],
    ) != mask_of(#[trigger] groups[b][0]) by {
        assert(mask_of(groups[a][0]) < mask_of(groups[b][0]));
    }
    lemma_anagram_map_lookup(groups, i);
    assert(groups[i].len() > 0);
    assert(groups[i] == with_mask(pool, mask_of(groups[i][0])));
}

/// The mask of a word of the pool has a row in the graph of the groups.
pub proof fn lemma_pool_word_has_row<const L: usize>(
    groups: Seq<Seq<[u8; L]>>,
    pool: Seq<[u8; L]>,
    w: [u8; L],
)
    requires
        groups_partition(groups, pool),
        pool.contains(w),
    ensures
        graph_spec(charsets_of(first_words(groups))).contains_key(mask_of(w)),
{
    let reps = charsets_of(first_words(groups));
    let k = choose|k: int| 0 <= k < pool.len() && pool[k] == w;
    assert(has_group(groups, mask_of(pool[k])));
    let i = choose|i: int|
        0 <= i < groups.len() && mask_of(#[trigger] groups[i][0]) == mask_of(pool[k]);
    LowerAsciiCharset::lemma_of_bits(word_bits(groups[i][0]@));
    assert(reps[i] == LowerAsciiCharset::of_word(first_words(groups)[i]@));
    assert(crate::graph::is_rep(reps, reps.len() as int, mask_of(w)));
}

/// A sentence whose words can be chosen from the groups of a solution, one
/// from each, is among the expansions of the solution.
pub proof fn lemma_choice_is_expanded<const L: usize>(
    row: Seq<Seq<[u8; L]>>,
    chosen: Seq<[u8; L]>,
    s: Seq<[u8; L]>,
)
    requires
        chosen.len() == row.len(),
        forall|t: int| 0 <= t < row.len() ==> (#[trigger] row[t]).contains(chosen[t]),
        chosen.to_multiset() == s.to_multiset(),
        sorted_by(s, word_order::<L>()),
    ensures
        expansions(row).contains(s),
{
    let idxs = Seq::new(row.len(), |t: int| row[t].index_of(chosen[t]));
    assert(in_range(idxs, sizes_of(row))) by {
        assert forall|t: int| 0 <= t < idxs.len() implies 0 <= #[trigger] idxs[t] < sizes_of(
            row,
        )[t] by {
            assert(row[t].contains(chosen[t]));
        }
    }
    assert(choice(row, idxs) =~= chosen) by {
        assert forall|t: int| 0 <= t < row.len() implies choice(row, idxs)[t] == chosen[t] by {
            assert(row[t].contains(chosen[t]));
        }
    }
    lemma_expansions_exhaustive(row, idxs);
    lemma_word_order_total::<L>();
    chosen.lemma_sort_by_ensures(word_order::<L>());
    lemma_sorted_lists_equal(s, sort_words(chosen), word_order::<L>());
    assert(expansions(row)[ticks(idxs, sizes_of(row))] == s);
}

/// Every sentence over the dictionary is in the list that `solve` returns.
pub proof fn lemma_solve_complete<const L: usize>(words: Seq<[u8; L]>, n: nat, s: Seq<[u8; L]>)
    requires
        L >= 1,
        n >= 2,
        forall|i: int| 0 <= i < words.len() ==> word_in_alphabet(#[trigger] words[i]@),
        is_sentence(words, s, n),
    ensures
        solve_spec(words, n).contains(s),
{
    lemma_anagram_groups_spec(words);
    let groups = anagram_groups_spec(words);
    let pool = usable(words);
    let found = found_spec(groups, n);
    let reps = charsets_of(first_words(groups));
    let graph = graph_spec(reps);
    let map = anagram_map_spec(groups);
    let sols = roots_solutions(graph, reps, n);
    let order = masks_of(s).sort_by(mask_order());
    let sol = order.map_values(|m: u32| LowerAsciiCharset::of_bits(m));
    let chosen = order.map_values(|m: u32| word_with_mask(s, m));

    assert forall|i: int| 0 <= i < n implies word_in_alphabet(#[trigger] s[i]@) by {
        assert(pool.contains(s[i]));
        lemma_usable_members(words, s[i]);
        let at = choose|at: int| 0 <= at < words.len() && words[at] == s[i];
        assert(word_in_alphabet(words[at]@));
    }
    lemma_masks_ascending(s);
    lemma_words_by_mask(s, order);
    assert forall|t: int| 0 <= t < n implies graph.contains_key(#[trigger] order[t]) by {
        let w = word_with_mask(s, order[t]);
        assert(s.contains(w));
        let i = choose|i: int| 0 <= i < s.len() && s[i] == w;
        assert(pool.contains(s[i]));
        lemma_pool_word_has_row(groups, pool, w);
    }
    lemma_masks_are_solution(graph, order, n);
    lemma_roots_solutions_complete(reps, n, sol);
    let j = choose|j: int| 0 <= j < sols.len() && sols[j] == sol;

    let row = groups_of(map, sol);
    assert forall|t: int| 0 <= t < row.len() implies (#[trigger] row[t]).contains(chosen[t]) by {
        LowerAsciiCharset::lemma_of_bits(order[t]);
        assert(graph.contains_key(order[t]));
        lemma_group_of_rep(groups, pool, order[t]);
        let w = word_with_mask(s, order[t]);
        assert(s.contains(w));
        let i = choose|i: int| 0 <= i < s.len() && s[i] == w;
        assert(pool.contains(s[i]));
        let k = choose|k: int| 0 <= k < pool.len() && pool[k] == w;
        pool.lemma_filter_contains(|v: [u8; L]| word_bits(v@) == order[t], k);
    }
    lemma_choice_is_expanded(row, chosen, s);
    lemma_all_expansions_contains(map, sols, j, s);

    lemma_sentence_order_total::<L>();
    found.lemma_sort_by_ensures(sentence_order::<L>());
    found.to_multiset_ensures();
    found.sort_by(sentence_order::<L>()).to_multiset_ensures();
    assert(found.to_multiset().count(s) > 0);
    assert(found.sort_by(sentence_order::<L>()).to_multiset().count(s) > 0);
}

} // verus!
