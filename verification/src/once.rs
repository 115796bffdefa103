//! No sentence twice: the search finds each solution once, the expansion
//! makes each sentence of a solution once, and so the list that `solve`
//! returns holds each sentence once.

use vstd::prelude::*;
use crate::adaptors::with_mask;
use crate::anagram::{choice, expansions, groups_of, sizes_of, sort_words};
use crate::charset::{word_bits, LowerAsciiCharset};
use crate::graph::{
    ascending, charsets_of, closed_graph, graph_spec, is_rep, lemma_ascending,
    lemma_graph_spec_closed,
};
use crate::groups::{
    anagram_map_spec, lemma_filter_no_duplicates, lemma_first_occurrences, mask_of, usable,
};
use crate::meaning::{
    lemma_all_expansions_member, lemma_expansions_are_choices, lemma_group_of_rep,
    lemma_solution_pairwise, masks_of,
};
use crate::odometer::indices_at;
use crate::order::{
    lemma_map_multiset, lemma_sentence_order_total, lemma_sorted_lists_equal,
    lemma_word_order_total, sentence_order, word_order,
};
use crate::search::{
    all_rows, extend_spec, is_solution, lemma_roots_solutions_sound, root_solutions,
    roots_solutions, search_spec, union_of,
};
use crate::filter_vec::{filter_spec, keeps};
use crate::solver::{
    all_expansions, anagram_groups_spec, first_words, found_spec, lemma_anagram_groups_spec,
    mask_order, solve_spec,
};

verus! {

/// No row of the graph holds a charset twice.
pub open spec fn rows_without_repeats(graph: Map<u32, Seq<LowerAsciiCharset>>) -> bool {
    forall|mask: u32| graph.contains_key(mask) ==> (#[trigger] graph[mask]).no_duplicates()
}

/// Two lists without repetitions that share no item, put together, are a
/// list without repetitions.
pub proof fn lemma_add_no_duplicates<T>(a: Seq<T>, b: Seq<T>)
    requires
        a.no_duplicates(),
        b.no_duplicates(),
        forall|i: int, j: int| 0 <= i < a.len() && 0 <= j < b.len() ==> a[i] != b[j],
    ensures
        (a + b).no_duplicates(),
{
    let both = a + b;
    assert forall|i: int, j: int|
        0 <= i < both.len() && 0 <= j < both.len() && i != j implies both[i] != both[j] by {
        if i < a.len() && j < a.len() {
            assert(a[i] != a[j]);
        } else if i >= a.len() && j >= a.len() {
            assert(b[i - a.len()] != b[j - a.len()]);
        } else if i < a.len() {
            assert(a[i] != b[j - a.len()]);
        } else {
            assert(a[j] != b[i - a.len()]);
        }
    }
}

/// What the search finds below a node is full, begins with the sentence of
/// the node, and goes on with a candidate that the kernel keeps.
pub proof fn lemma_search_shape(
    graph: Map<u32, Seq<LowerAsciiCharset>>,
    cur: Seq<LowerAsciiCharset>,
    last_added: LowerAsciiCharset,
    nbs: Seq<LowerAsciiCharset>,
    n: nat,
    k: int,
)
    requires
        cur.len() < n,
        0 <= k < search_spec(graph, cur, last_added, nbs, n).len(),
    ensures
        search_spec(graph, cur, last_added, nbs, n)[k].len() == n,
        search_spec(graph, cur, last_added, nbs, n)[k].take(cur.len() as int) == cur,
        filter_spec(nbs, union_of(cur), last_added).contains(
            search_spec(graph, cur, last_added, nbs, n)[k][cur.len() as int],
        ),
    decreases n - cur.len(), 1int, 0int,
{
    lemma_extend_shape(graph, cur, filter_spec(nbs, union_of(cur), last_added), n, k);
}

/// What the search finds by extending a sentence is full, begins with the
/// sentence, and goes on with one of the candidates.
pub proof fn lemma_extend_shape(
    graph: Map<u32, Seq<LowerAsciiCharset>>,
    cur: Seq<LowerAsciiCharset>,
    cands: Seq<LowerAsciiCharset>,
    n: nat,
    k: int,
)
    requires
        cur.len() < n,
        0 <= k < extend_spec(graph, cur, cands, n).len(),
    ensures
        extend_spec(graph, cur, cands, n)[k].len() == n,
        extend_spec(graph, cur, cands, n)[k].take(cur.len() as int) == cur,
        cands.contains(extend_spec(graph, cur, cands, n)[k][cur.len() as int]),
        k >= extend_spec(graph, cur, cands.drop_last(), n).len() ==> extend_spec(
            graph,
            cur,
            cands,
            n,
        )[k][cur.len() as int] == cands.last(),
        k < extend_spec(graph, cur, cands.drop_last(), n).len() ==> cands.drop_last().contains(
            extend_spec(graph, cur, cands, n)[k][cur.len() as int],
        ),
    decreases n - cur.len(), 0int, cands.len(),
{
    let c = cands.last();
    let before = extend_spec(graph, cur, cands.drop_last(), n);
    let sol = extend_spec(graph, cur, cands, n)[k];
    let at = cur.len() as int;
    if k < before.len() {
        lemma_extend_shape(graph, cur, cands.drop_last(), n, k);
        assert(sol == before[k]);
        let i = choose|i: int| 0 <= i < cands.drop_last().len() && cands.drop_last()[i] == sol[at];
        assert(cands[i] == sol[at]);
    } else {
        let next = cur.push(c);
        if cur.len() + 1 >= n {
            assert(sol == next);
        } else {
            lemma_search_shape(graph, next, c, graph[c.bits()], n, k - before.len());
            assert(sol.take(at + 1) == next);
            assert(sol[at] == sol.take(at + 1)[at]);
            assert(sol.take(at) =~= sol.take(at + 1).take(at));
        }
        assert(sol.take(at) =~= cur);
        assert(cands[cands.len() - 1] == sol[at]);
    }
}

/// Below a node the search finds no sentence twice.
pub proof fn lemma_search_once(
    graph: Map<u32, Seq<LowerAsciiCharset>>,
    cur: Seq<LowerAsciiCharset>,
    last_added: LowerAsciiCharset,
    nbs: Seq<LowerAsciiCharset>,
    n: nat,
)
    requires
        closed_graph(graph),
        rows_without_repeats(graph),
        all_rows(graph, nbs),
        nbs.no_duplicates(),
        cur.len() < n,
    ensures
        search_spec(graph, cur, last_added, nbs, n).no_duplicates(),
    decreases n - cur.len(), 1int, 0int,
{
    let pred = |c: LowerAsciiCharset| keeps(c, union_of(cur), last_added);
    let cands = filter_spec(nbs, union_of(cur), last_added);
    lemma_filter_no_duplicates(nbs, pred);
    assert forall|i: int| 0 <= i < cands.len() implies graph.contains_key(
        #[trigger] cands[i].bits(),
    ) by {
        assert(cands.contains(cands[i]));
        nbs.lemma_filter_contains_rev(pred, cands[i]);
        let at = choose|at: int| 0 <= at < nbs.len() && nbs[at] == cands[i];
        assert(graph.contains_key(nbs[at].bits()));
    }
    lemma_extend_once(graph, cur, cands, n);
}

/// By extending a sentence with candidates of which none comes twice, the
/// search finds no sentence twice.
pub proof fn lemma_extend_once(
    graph: Map<u32, Seq<LowerAsciiCharset>>,
    cur: Seq<LowerAsciiCharset>,
    cands: Seq<LowerAsciiCharset>,
    n: nat,
)
    requires
        closed_graph(graph),
        rows_without_repeats(graph),
        all_rows(graph, cands),
        cands.no_duplicates(),
        cur.len() < n,
    ensures
        extend_spec(graph, cur, cands, n).no_duplicates(),
    decreases n - cur.len(), 0int, cands.len(),
{
    if cands.len() > 0 {
        let c = cands.last();
        let init = cands.drop_last();
        let before = extend_spec(graph, cur, init, n);
        let next = cur.push(c);
        let part = if cur.len() + 1 >= n {
            seq![next]
        } else {
            search_spec(graph, next, c, graph[c.bits()], n)
        };
        let at = cur.len() as int;
        assert forall|i: int| 0 <= i < init.len() implies graph.contains_key(
            #[trigger] init[i].bits(),
        ) by {
            assert(init[i] == cands[i]);
        }
        lemma_extend_once(graph, cur, init, n);
        assert(graph.contains_key(cands[cands.len() - 1].bits()));
        if cur.len() + 1 < n {
            let row = graph[c.bits()];
            assert forall|i: int| 0 <= i < row.len() implies graph.contains_key(
                #[trigger] row[i].bits(),
            ) by {
                assert(graph.contains_key(graph[c.bits()][i].bits()));
            }
            lemma_search_once(graph, next, c, row, n);
        }
        assert forall|i: int, j: int| 0 <= i < before.len() && 0 <= j < part.len() implies before[i]
            != part[j] by {
            lemma_extend_shape(graph, cur, init, n, i);
            lemma_extend_shape(graph, cur, cands, n, before.len() + j);
            assert(extend_spec(graph, cur, cands, n)[before.len() + j] == part[j]);
            assert(init.contains(before[i][at]));
            let u = choose|u: int| 0 <= u < init.len() && init[u] == before[i][at];
            assert(cands[u] != cands[cands.len() - 1]);
        }
        lemma_add_no_duplicates(before, part);
    }
}

/// From one root the search finds no sentence twice, and every sentence that
/// it finds begins with the root.
pub proof fn lemma_root_once(graph: Map<u32, Seq<LowerAsciiCharset>>, root: LowerAsciiCharset, n: nat)
    requires
        closed_graph(graph),
        rows_without_repeats(graph),
        graph.contains_key(root.bits()),
        n >= 2,
    ensures
        root_solutions(graph, root, n).no_duplicates(),
        forall|k: int|
            0 <= k < root_solutions(graph, root, n).len() ==> (#[trigger] root_solutions(
                graph,
                root,
                n,
            )[k])[0] == root,
{
    let row = graph[root.bits()];
    assert forall|i: int| 0 <= i < row.len() implies graph.contains_key(#[trigger] row[i].bits()) by {
        assert(graph.contains_key(graph[root.bits()][i].bits()));
    }
    lemma_search_once(graph, seq![root], root, row, n);
    assert forall|k: int| 0 <= k < root_solutions(graph, root, n).len() implies (
    #[trigger] root_solutions(graph, root, n)[k])[0] == root by {
        lemma_search_shape(graph, seq![root], root, row, n, k);
        let sol = root_solutions(graph, root, n)[k];
        assert(sol.take(1)[0] == sol[0]);
    }
}

/// What the search finds from a list of roots begins with one of the roots.
pub proof fn lemma_roots_heads(
    graph: Map<u32, Seq<LowerAsciiCharset>>,
    roots: Seq<LowerAsciiCharset>,
    n: nat,
    k: int,
)
    requires
        closed_graph(graph),
        rows_without_repeats(graph),
        all_rows(graph, roots),
        n >= 2,
        0 <= k < roots_solutions(graph, roots, n).len(),
    ensures
        roots.contains(roots_solutions(graph, roots, n)[k][0]),
    decreases roots.len(),
{
    let before = roots_solutions(graph, roots.drop_last(), n);
    if k < before.len() {
        assert forall|i: int| 0 <= i < roots.drop_last().len() implies graph.contains_key(
            #[trigger] roots.drop_last()[i].bits(),
        ) by {
            assert(roots.drop_last()[i] == roots[i]);
        }
        lemma_roots_heads(graph, roots.drop_last(), n, k);
        let head = before[k][0];
        let i = choose|i: int| 0 <= i < roots.drop_last().len() && roots.drop_last()[i] == head;
        assert(roots[i] == head);
    } else {
        assert(graph.contains_key(roots[roots.len() - 1].bits()));
        lemma_root_once(graph, roots.last(), n);
        assert(root_solutions(graph, roots.last(), n)[k - before.len()][0] == roots.last());
        assert(roots[roots.len() - 1] == roots.last());
    }
}

/// From roots of which none comes twice the search finds no sentence twice.
pub proof fn lemma_roots_once(
    graph: Map<u32, Seq<LowerAsciiCharset>>,
    roots: Seq<LowerAsciiCharset>,
    n: nat,
)
    requires
        closed_graph(graph),
        rows_without_repeats(graph),
        all_rows(graph, roots),
        roots.no_duplicates(),
        n >= 2,
    ensures
        roots_solutions(graph, roots, n).no_duplicates(),
    decreases roots.len(),
{
    if roots.len() > 0 {
        let init = roots.drop_last();
        let before = roots_solutions(graph, init, n);
        let part = root_solutions(graph, roots.last(), n);
        assert forall|i: int| 0 <= i < init.len() implies graph.contains_key(
            #[trigger] init[i].bits(),
        ) by {
            assert(init[i] == roots[i]);
        }
        lemma_roots_once(graph, init, n);
        assert(graph.contains_key(roots[roots.len() - 1].bits()));
        lemma_root_once(graph, roots.last(), n);
        assert forall|i: int, j: int| 0 <= i < before.len() && 0 <= j < part.len() implies before[i]
            != part[j] by {
            lemma_roots_heads(graph, init, n, i);
            assert(part[j][0] == roots.last());
            let u = choose|u: int| 0 <= u < init.len() && init[u] == before[i][0];
            assert(roots[u] != roots[roots.len() - 1]);
        }
        lemma_add_no_duplicates(before, part);
    }
}

/// The graph of representatives of which none comes twice has no charset
/// twice in a row.
pub proof fn lemma_graph_rows_once(reps: Seq<LowerAsciiCharset>)
    requires
        reps.no_duplicates(),
    ensures
        rows_without_repeats(graph_spec(reps)),
{
    lemma_ascending(reps);
    reps.lemma_multiset_has_no_duplicates();
    ascending(reps).lemma_multiset_has_no_duplicates_conv();
    let graph = graph_spec(reps);
    assert forall|mask: u32| graph.contains_key(mask) implies (#[trigger] graph[mask]).no_duplicates() by {
        lemma_filter_no_duplicates(ascending(reps), |d: LowerAsciiCharset| mask & d.bits() == 0);
    }
}

/// The groups `row` are groups by the masks `masks`: one group for each mask,
/// none empty or with a word twice, all its words with the mask.
pub open spec fn groups_by<const L: usize>(row: Seq<Seq<[u8; L]>>, masks: Seq<u32>) -> bool {
    &&& row.len() == masks.len()
    &&& forall|t: int| 0 <= t < row.len() ==> (#[trigger] row[t]).len() > 0
    &&& forall|t: int| 0 <= t < row.len() ==> (#[trigger] row[t]).no_duplicates()
    &&& forall|t: int, j: int|
        0 <= t < row.len() && 0 <= j < row[t].len() ==> mask_of(#[trigger] row[t][j]) == masks[t]
}

/// Two choices of words, one for each of a list of different masks, that
/// hold the same words are the same choice.
pub proof fn lemma_choice_by_masks<const L: usize>(a: Seq<[u8; L]>, b: Seq<[u8; L]>, masks: Seq<u32>)
    requires
        masks.no_duplicates(),
        masks_of(a) == masks,
        masks_of(b) == masks,
        a.to_multiset() == b.to_multiset(),
    ensures
        a == b,
{
    a.to_multiset_ensures();
    b.to_multiset_ensures();
    assert(a.len() == masks.len() && b.len() == masks.len());
    assert forall|t: int| 0 <= t < a.len() implies a[t] == b[t] by {
        assert(a.contains(a[t]));
        assert(a.to_multiset().count(a[t]) > 0);
        assert(b.to_multiset().count(a[t]) > 0);
        assert(b.contains(a[t]));
        let u = choose|u: int| 0 <= u < b.len() && b[u] == a[t];
        assert(masks_of(b)[u] == mask_of(b[u]));
        assert(masks_of(a)[t] == mask_of(a[t]));
        assert(masks[u] == masks[t]);
    }
    assert(a =~= b);
}

/// The sentences of one solution: none comes twice, and the masks of the
/// words of each are the masks of the solution.
pub proof fn lemma_expansions_once<const L: usize>(row: Seq<Seq<[u8; L]>>, masks: Seq<u32>)
    requires
        groups_by(row, masks),
        masks.no_duplicates(),
    ensures
        expansions(row).no_duplicates(),
        forall|k: int|
            0 <= k < expansions(row).len() ==> masks_of(#[trigger] expansions(row)[k]).to_multiset()
                == masks.to_multiset(),
{
    let all = expansions(row);
    lemma_word_order_total::<L>();
    assert forall|k: int| 0 <= k < all.len() implies masks_of(#[trigger] all[k]).to_multiset()
        == masks.to_multiset() by {
        lemma_chosen(row, masks, k);
    }
    assert forall|i: int, j: int| 0 <= i < all.len() && 0 <= j < all.len() && i != j implies all[i]
        != all[j] by {
        lemma_chosen(row, masks, i);
        lemma_chosen(row, masks, j);
        lemma_expansions_are_choices(row, i);
        let a = choice(row, indices_at(sizes_of(row), i));
        let b = choice(row, indices_at(sizes_of(row), j));
        let ia = indices_at(sizes_of(row), i);
        let ib = indices_at(sizes_of(row), j);
        if all[i] == all[j] {
            a.lemma_sort_by_ensures(word_order::<L>());
            b.lemma_sort_by_ensures(word_order::<L>());
            lemma_choice_by_masks(a, b, masks);
            assert forall|t: int| 0 <= t < ia.len() implies ia[t] == ib[t] by {
                assert(a[t] == b[t]);
                assert(row[t][ia[t]] == row[t][ib[t]]);
                assert(0 <= ia[t] < sizes_of(row)[t] && 0 <= ib[t] < sizes_of(row)[t]);
            }
            assert(ia =~= ib);
        }
    }
}

/// The choice behind the `k`-th sentence of a solution has the masks of the
/// solution, and so has the sentence.
proof fn lemma_chosen<const L: usize>(row: Seq<Seq<[u8; L]>>, masks: Seq<u32>, k: int)
    requires
        groups_by(row, masks),
        0 <= k < expansions(row).len(),
    ensures
        indices_at(sizes_of(row), k).len() == row.len(),
        forall|t: int|
            0 <= t < row.len() ==> 0 <= #[trigger] indices_at(sizes_of(row), k)[t] < sizes_of(
                row,
            )[t],
        masks_of(choice(row, indices_at(sizes_of(row), k))) == masks,
        expansions(row)[k] == sort_words(choice(row, indices_at(sizes_of(row), k))),
        masks_of(expansions(row)[k]).to_multiset() == masks.to_multiset(),
{
    lemma_expansions_are_choices(row, k);
    let idxs = indices_at(sizes_of(row), k);
    let chosen = choice(row, idxs);
    assert(masks_of(chosen) =~= masks) by {
        assert forall|t: int| 0 <= t < row.len() implies masks_of(chosen)[t] == masks[t] by {
            assert(0 <= idxs[t] < sizes_of(row)[t]);
            assert(mask_of(row[t][idxs[t]]) == masks[t]);
        }
    }
    lemma_word_order_total::<L>();
    chosen.lemma_sort_by_ensures(word_order::<L>());
    lemma_map_multiset(sort_words(chosen), chosen, |w: [u8; L]| mask_of(w));
}

/// Whether every solution of a list has groups by its masks in the map, and
/// masks that ascend.
pub open spec fn solutions_with_groups<const L: usize>(
    map: Map<u32, Seq<[u8; L]>>,
    sols: Seq<Seq<LowerAsciiCharset>>,
) -> bool {
    forall|j: int|
        0 <= j < sols.len() ==> groups_by(groups_of(map, #[trigger] sols[j]), bits_of(sols[j]))
            && ascends(bits_of(sols[j]))
}

/// The masks of a list of charsets.
pub open spec fn bits_of(sol: Seq<LowerAsciiCharset>) -> Seq<u32> {
    sol.map_values(|c: LowerAsciiCharset| c.bits())
}

/// The masks ascend.
pub open spec fn ascends(masks: Seq<u32>) -> bool {
    forall|u: int, v: int| 0 <= u < v < masks.len() ==> masks[u] < masks[v]
}

/// Charsets with the same masks, one by one, are the same charsets.
pub proof fn lemma_by_bits_of(a: Seq<LowerAsciiCharset>, b: Seq<LowerAsciiCharset>)
    requires
        bits_of(a) == bits_of(b),
    ensures
        a == b,
{
    assert(a.len() == bits_of(a).len() && b.len() == bits_of(b).len());
    assert forall|t: int| 0 <= t < a.len() implies a[t] == b[t] by {
        assert(bits_of(a)[t] == a[t].bits());
        assert(bits_of(b)[t] == b[t].bits());
        LowerAsciiCharset::lemma_by_bits(a[t], b[t]);
    }
    assert(a =~= b);
}

/// The sentences of a list of different solutions: none comes twice.
pub proof fn lemma_all_expansions_once<const L: usize>(
    map: Map<u32, Seq<[u8; L]>>,
    sols: Seq<Seq<LowerAsciiCharset>>,
)
    requires
        sols.no_duplicates(),
        solutions_with_groups(map, sols),
    ensures
        all_expansions(map, sols).no_duplicates(),
    decreases sols.len(),
{
    if sols.len() > 0 {
        let init = sols.drop_last();
        let last = sols.last();
        let before = all_expansions(map, init);
        let part = expansions(groups_of(map, last));
        assert forall|j: int| 0 <= j < init.len() implies groups_by(
            groups_of(map, #[trigger] init[j]),
            bits_of(init[j]),
        ) && ascends(bits_of(init[j])) by {
            assert(init[j] == sols[j]);
        }
        lemma_all_expansions_once(map, init);
        assert(sols[sols.len() - 1] == last);
        assert(bits_of(last).no_duplicates());
        lemma_expansions_once(groups_of(map, last), bits_of(last));
        assert forall|i: int, k: int| 0 <= i < before.len() && 0 <= k < part.len() implies before[i]
            != part[k] by {
            if before[i] == part[k] {
                let s = part[k];
                assert(before.contains(s));
                let j = lemma_all_expansions_member(map, init, s);
                let other = init[j];
                assert(other == sols[j]);
                assert(bits_of(other).no_duplicates());
                lemma_expansions_once(groups_of(map, other), bits_of(other));
                let at = choose|at: int|
                    0 <= at < expansions(groups_of(map, other)).len() && expansions(
                        groups_of(map, other),
                    )[at] == s;
                assert(bits_of(other).to_multiset() == bits_of(last).to_multiset());
                assert(vstd::relations::total_ordering(mask_order()));
                assert(vstd::relations::sorted_by(bits_of(other), mask_order()));
                assert(vstd::relations::sorted_by(bits_of(last), mask_order()));
                lemma_sorted_lists_equal(bits_of(other), bits_of(last), mask_order());
                lemma_by_bits_of(other, last);
                assert(sols[j] == sols[sols.len() - 1]);
            }
        }
        lemma_add_no_duplicates(before, part);
    }
}

/// The list that `solve` returns holds no sentence twice.
pub proof fn lemma_solve_once<const L: usize>(words: Seq<[u8; L]>, n: nat)
    requires
        n >= 2,
    ensures
        solve_spec(words, n).no_duplicates(),
{
    lemma_anagram_groups_spec(words);
    let groups = anagram_groups_spec(words);
    let pool = usable(words);
    let found = found_spec(groups, n);
    let reps = charsets_of(first_words(groups));
    let graph = graph_spec(reps);
    let map = anagram_map_spec(groups);
    let sols = roots_solutions(graph, reps, n);

    assert forall|i: int| 0 <= i < reps.len() implies #[trigger] reps[i].bits() == mask_of(
        groups[i][0],
    ) by {
        LowerAsciiCharset::lemma_of_bits(word_bits(groups[i][0]@));
        assert(reps[i] == LowerAsciiCharset::of_word(first_words(groups)[i]@));
    }
    assert(reps.no_duplicates()) by {
        assert forall|i: int, j: int|
            0 <= i < reps.len() && 0 <= j < reps.len() && i != j implies reps[i] != reps[j] by {
            if i < j {
                assert(mask_of(groups[i][0]) < mask_of(groups[j][0]));
            } else {
                assert(mask_of(groups[j][0]) < mask_of(groups[i][0]));
            }
            assert(reps[i].bits() != reps[j].bits());
        }
    }
    lemma_graph_spec_closed(reps);
    lemma_graph_rows_once(reps);
    assert(all_rows(graph, reps)) by {
        assert forall|i: int| 0 <= i < reps.len() implies graph.contains_key(
            #[trigger] reps[i].bits(),
        ) by {
            assert(is_rep(reps, reps.len() as int, reps[i].bits()));
        }
    }
    lemma_roots_once(graph, reps, n);
    lemma_first_occurrences(words.filter(|w: [u8; L]| w@.no_duplicates()));
    assert forall|j: int| 0 <= j < sols.len() implies groups_by(
        groups_of(map, #[trigger] sols[j]),
        bits_of(sols[j]),
    ) && ascends(bits_of(sols[j])) by {
        let sol = sols[j];
        let row = groups_of(map, sol);
        lemma_roots_solutions_sound(graph, reps, n, j);
        assert forall|t: int| 0 <= t < row.len() implies (#[trigger] row[t]).len() > 0
            && row[t].no_duplicates() && row[t] == with_mask(pool, sol[t].bits()) by {
            assert(graph.contains_key(sol[t].bits()));
            lemma_group_of_rep(groups, pool, sol[t].bits());
            lemma_filter_no_duplicates(pool, |w: [u8; L]| word_bits(w@) == sol[t].bits());
        }
        assert forall|t: int, i: int| 0 <= t < row.len() && 0 <= i < row[t].len() implies mask_of(
            #[trigger] row[t][i],
        ) == bits_of(sol)[t] by {
            assert(row[t] == with_mask(pool, sol[t].bits()));
            pool.lemma_filter_pred(|w: [u8; L]| word_bits(w@) == sol[t].bits(), i);
        }
        assert forall|u: int, v: int| 0 <= u < v < bits_of(sol).len() implies bits_of(sol)[u]
            < bits_of(sol)[v] by {
            lemma_solution_pairwise(graph, sol, n, u, v);
        }
    }
    lemma_all_expansions_once(map, sols);
    lemma_sentence_order_total::<L>();
    found.lemma_sort_by_ensures(sentence_order::<L>());
    found.lemma_multiset_has_no_duplicates();
    found.sort_by(sentence_order::<L>()).lemma_multiset_has_no_duplicates_conv();
}

} // verus!
