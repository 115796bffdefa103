//! The backtracking search: a sentence of charsets is extended by each
//! candidate that the kernel keeps, and the candidates of the next level are
//! the neighbors of the charset just added.

use vstd::prelude::*;
use crate::charset::LowerAsciiCharset;
use crate::bits::lemma_disjoint_from_or;
use crate::filter_vec::{filter_spec, filter_vec, keeps, lemma_filter_members};
use crate::graph::{ascending, closed_graph, graph_spec, lemma_ascending, WordGraph};
use crate::sentence::{union_bits, CharsetSentence};

verus! {

/// The views of a list of sentences of charsets.
pub open spec fn charset_views<const N: usize>(sols: Seq<CharsetSentence<N>>) -> Seq<
    Seq<LowerAsciiCharset>,
> {
    sols.map_values(|s: CharsetSentence<N>| s@)
}

/// The union of the charsets of a sentence.
pub open spec fn union_of(cur: Seq<LowerAsciiCharset>) -> LowerAsciiCharset {
    LowerAsciiCharset::of_bits(union_bits(cur))
}

/// The solutions below one node of the search: the sentence `cur`, the charset
/// `last_added` that was added last, and the list `nbs` to take candidates
/// from. The kernel picks the candidates, and each of them extends `cur`.
pub open spec fn search_spec(
    graph: Map<u32, Seq<LowerAsciiCharset>>,
    cur: Seq<LowerAsciiCharset>,
    last_added: LowerAsciiCharset,
    nbs: Seq<LowerAsciiCharset>,
    n: nat,
) -> Seq<Seq<LowerAsciiCharset>>
    decreases n - cur.len(), 1int, 0int,
{
    extend_spec(graph, cur, filter_spec(nbs, union_of(cur), last_added), n)
}

/// The solutions that extend `cur` by one of the candidates `cands`, in the
/// order of the candidates. A candidate that fills the sentence gives one
/// solution; any other gives those of the node below, whose candidates come
/// from the candidate's own row of the graph.
pub open spec fn extend_spec(
    graph: Map<u32, Seq<LowerAsciiCharset>>,
    cur: Seq<LowerAsciiCharset>,
    cands: Seq<LowerAsciiCharset>,
    n: nat,
) -> Seq<Seq<LowerAsciiCharset>>
    decreases n - cur.len(), 0int, cands.len(),
{
    if cands.len() == 0 {
        Seq::empty()
    } else {
        let c = cands.last();
        extend_spec(graph, cur, cands.drop_last(), n) + if cur.len() + 1 >= n {
            seq![cur.push(c)]
        } else {
            search_spec(graph, cur.push(c), c, graph[c.bits()], n)
        }
    }
}

/// Every charset of `s` has a row in the graph.
pub open spec fn all_rows(graph: Map<u32, Seq<LowerAsciiCharset>>, s: Seq<LowerAsciiCharset>) -> bool {
    forall|i: int| 0 <= i < s.len() ==> graph.contains_key(#[trigger] s[i].bits())
}

/// `sol` is a full sentence that extends `cur` as the search does: it has `n`
/// charsets and begins with `cur`; each charset after `cur` has a row in the
/// graph, shares no symbol with the charsets before it, and has a greater
/// mask than the one before it, the first of them than `last_added`.
pub open spec fn extends(
    graph: Map<u32, Seq<LowerAsciiCharset>>,
    cur: Seq<LowerAsciiCharset>,
    last_added: LowerAsciiCharset,
    sol: Seq<LowerAsciiCharset>,
    n: nat,
) -> bool {
    &&& sol.len() == n
    &&& cur.len() < n
    &&& sol.take(cur.len() as int) == cur
    &&& sol[cur.len() as int].bits() > last_added.bits()
    &&& forall|t: int|
        cur.len() <= t < n ==> {
            &&& graph.contains_key(#[trigger] sol[t].bits())
            &&& !sol[t].intersects(union_of(sol.take(t)))
        }
    &&& forall|t: int| cur.len() < t < n ==> #[trigger] sol[t].bits() > sol[t - 1].bits()
}

/// What the search finds below a node extends the sentence of the node.
pub proof fn lemma_search_sound(
    graph: Map<u32, Seq<LowerAsciiCharset>>,
    cur: Seq<LowerAsciiCharset>,
    last_added: LowerAsciiCharset,
    nbs: Seq<LowerAsciiCharset>,
    n: nat,
    k: int,
)
    requires
        closed_graph(graph),
        all_rows(graph, nbs),
        cur.len() < n,
        0 <= k < search_spec(graph, cur, last_added, nbs, n).len(),
    ensures
        extends(graph, cur, last_added, search_spec(graph, cur, last_added, nbs, n)[k], n),
    decreases n - cur.len(), 1int, 0int,
{
    let pred = |c: LowerAsciiCharset| keeps(c, union_of(cur), last_added);
    let cands = filter_spec(nbs, union_of(cur), last_added);
    assert forall|i: int| 0 <= i < cands.len() implies graph.contains_key(
        #[trigger] cands[i].bits(),
    ) && keeps(cands[i], union_of(cur), last_added) by {
        nbs.lemma_filter_pred(pred, i);
        assert(cands.contains(cands[i]));
        nbs.lemma_filter_contains_rev(pred, cands[i]);
        let at = choose|at: int| 0 <= at < nbs.len() && nbs[at] == cands[i];
        assert(graph.contains_key(nbs[at].bits()));
    }
    lemma_extend_sound(graph, cur, last_added, cands, n, k);
}

/// What the search finds by extending a sentence with one of its candidates
/// extends the sentence.
pub proof fn lemma_extend_sound(
    graph: Map<u32, Seq<LowerAsciiCharset>>,
    cur: Seq<LowerAsciiCharset>,
    last_added: LowerAsciiCharset,
    cands: Seq<LowerAsciiCharset>,
    n: nat,
    k: int,
)
    requires
        closed_graph(graph),
        cur.len() < n,
        forall|i: int|
            0 <= i < cands.len() ==> graph.contains_key(#[trigger] cands[i].bits()) && keeps(
                cands[i],
                union_of(cur),
                last_added,
            ),
        0 <= k < extend_spec(graph, cur, cands, n).len(),
    ensures
        extends(graph, cur, last_added, extend_spec(graph, cur, cands, n)[k], n),
    decreases n - cur.len(), 0int, cands.len(),
{
    let c = cands.last();
    let before = extend_spec(graph, cur, cands.drop_last(), n);
    if k < before.len() {
        assert forall|i: int| 0 <= i < cands.drop_last().len() implies graph.contains_key(
            #[trigger] cands.drop_last()[i].bits(),
        ) && keeps(cands.drop_last()[i], union_of(cur), last_added) by {
            assert(cands.drop_last()[i] == cands[i]);
        }
        lemma_extend_sound(graph, cur, last_added, cands.drop_last(), n, k);
    } else {
        let next = cur.push(c);
        assert(graph.contains_key(cands[cands.len() - 1].bits()));
        assert(next.take(cur.len() as int) =~= cur);
        if cur.len() + 1 >= n {
            let sol = extend_spec(graph, cur, cands, n)[k];
            assert(sol == next);
            assert(sol.take(cur.len() as int) =~= cur);
        } else {
            let row = graph[c.bits()];
            assert forall|i: int| 0 <= i < row.len() implies graph.contains_key(
                #[trigger] row[i].bits(),
            ) by {
                assert(graph.contains_key(graph[c.bits()][i].bits()));
            }
            let sol = search_spec(graph, next, c, row, n)[k - before.len()];
            lemma_search_sound(graph, next, c, row, n, k - before.len());
            assert(extend_spec(graph, cur, cands, n)[k] == sol);
            assert(sol.take(cur.len() as int) =~= sol.take(next.len() as int).take(
                cur.len() as int,
            ));
            assert(sol[cur.len() as int] == next[cur.len() as int]);
            assert(sol.take(cur.len() as int) == cur);
            assert forall|t: int| cur.len() < t < n implies #[trigger] sol[t].bits() > sol[t
                - 1].bits() by {
                if t == cur.len() + 1 {
                    assert(sol[t - 1] == c);
                }
            }
        }
    }
}

/// The solutions that begin with `root`: the search below the sentence of
/// `root` alone, with the row of `root` to take candidates from.
pub open spec fn root_solutions(
    graph: Map<u32, Seq<LowerAsciiCharset>>,
    root: LowerAsciiCharset,
    n: nat,
) -> Seq<Seq<LowerAsciiCharset>> {
    search_spec(graph, seq![root], root, graph[root.bits()], n)
}

/// The solutions that begin with one of `roots`, root by root.
pub open spec fn roots_solutions(
    graph: Map<u32, Seq<LowerAsciiCharset>>,
    roots: Seq<LowerAsciiCharset>,
    n: nat,
) -> Seq<Seq<LowerAsciiCharset>>
    decreases roots.len(),
{
    if roots.len() == 0 {
        Seq::empty()
    } else {
        roots_solutions(graph, roots.drop_last(), n) + root_solutions(graph, roots.last(), n)
    }
}

/// A solution is a sentence of `n` charsets with rows in the graph, of which
/// each shares no symbol with those before it and has a greater mask than the
/// one before it.
pub open spec fn is_solution(
    graph: Map<u32, Seq<LowerAsciiCharset>>,
    sol: Seq<LowerAsciiCharset>,
    n: nat,
) -> bool {
    &&& sol.len() == n
    &&& all_rows(graph, sol)
    &&& forall|t: int| 0 < t < n ==> !(#[trigger] sol[t]).intersects(union_of(sol.take(t)))
    &&& forall|t: int| 0 < t < n ==> #[trigger] sol[t].bits() > sol[t - 1].bits()
}

/// What the search finds from a root is a solution that begins with the root.
pub proof fn lemma_root_solutions_sound(
    graph: Map<u32, Seq<LowerAsciiCharset>>,
    root: LowerAsciiCharset,
    n: nat,
    k: int,
)
    requires
        closed_graph(graph),
        graph.contains_key(root.bits()),
        n >= 2,
        0 <= k < root_solutions(graph, root, n).len(),
    ensures
        is_solution(graph, root_solutions(graph, root, n)[k], n),
        root_solutions(graph, root, n)[k][0] == root,
{
    let row = graph[root.bits()];
    assert forall|i: int| 0 <= i < row.len() implies graph.contains_key(#[trigger] row[i].bits()) by {
        assert(graph.contains_key(graph[root.bits()][i].bits()));
    }
    lemma_search_sound(graph, seq![root], root, row, n, k);
    let sol = root_solutions(graph, root, n)[k];
    assert(sol.take(1)[0] == sol[0]);
    assert forall|t: int| 0 < t < n implies #[trigger] sol[t].bits() > sol[t - 1].bits() by {
        if t == 1 {
            assert(sol[0] == root);
        }
    }
}

/// What the search finds from a list of roots are solutions.
pub proof fn lemma_roots_solutions_sound(
    graph: Map<u32, Seq<LowerAsciiCharset>>,
    roots: Seq<LowerAsciiCharset>,
    n: nat,
    k: int,
)
    requires
        closed_graph(graph),
        all_rows(graph, roots),
        n >= 2,
        0 <= k < roots_solutions(graph, roots, n).len(),
    ensures
        is_solution(graph, roots_solutions(graph, roots, n)[k], n),
    decreases roots.len(),
{
    let before = roots_solutions(graph, roots.drop_last(), n);
    if k < before.len() {
        assert forall|i: int| 0 <= i < roots.drop_last().len() implies graph.contains_key(
            #[trigger] roots.drop_last()[i].bits(),
        ) by {
            assert(roots.drop_last()[i] == roots[i]);
        }
        lemma_roots_solutions_sound(graph, roots.drop_last(), n, k);
    } else {
        assert(graph.contains_key(roots[roots.len() - 1].bits()));
        lemma_root_solutions_sound(graph, roots.last(), n, k - before.len());
    }
}

/// An item of one of two lists is an item of the two put together.
pub proof fn lemma_contains_add<T>(a: Seq<T>, b: Seq<T>, x: T)
    requires
        a.contains(x) || b.contains(x),
    ensures
        (a + b).contains(x),
{
    if a.contains(x) {
        let i = choose|i: int| 0 <= i < a.len() && a[i] == x;
        assert((a + b)[i] == x);
    } else {
        let i = choose|i: int| 0 <= i < b.len() && b[i] == x;
        assert((a + b)[a.len() + i] == x);
    }
}

/// What one candidate leads to is among what all the candidates lead to.
pub proof fn lemma_extend_contains(
    graph: Map<u32, Seq<LowerAsciiCharset>>,
    cur: Seq<LowerAsciiCharset>,
    cands: Seq<LowerAsciiCharset>,
    n: nat,
    at: int,
    sol: Seq<LowerAsciiCharset>,
)
    requires
        0 <= at < cands.len(),
        if cur.len() + 1 >= n {
            sol == cur.push(cands[at])
        } else {
            search_spec(graph, cur.push(cands[at]), cands[at], graph[cands[at].bits()], n).contains(
                sol,
            )
        },
    ensures
        extend_spec(graph, cur, cands, n).contains(sol),
    decreases cands.len(),
{
    let before = extend_spec(graph, cur, cands.drop_last(), n);
    let c = cands.last();
    let part = if cur.len() + 1 >= n {
        seq![cur.push(c)]
    } else {
        search_spec(graph, cur.push(c), c, graph[c.bits()], n)
    };
    if at == cands.len() - 1 {
        if cur.len() + 1 >= n {
            assert(part[0] == sol);
        }
        lemma_contains_add(before, part, sol);
    } else {
        assert(cands.drop_last()[at] == cands[at]);
        lemma_extend_contains(graph, cur, cands.drop_last(), n, at, sol);
        lemma_contains_add(before, part, sol);
    }
}

/// A charset with a row in the graph of `reps` is one of `reps`.
pub proof fn lemma_row_owner_is_rep(reps: Seq<LowerAsciiCharset>, c: LowerAsciiCharset)
    requires
        graph_spec(reps).contains_key(c.bits()),
    ensures
        reps.contains(c),
{
    let i = choose|i: int|
        0 <= i < reps.len() && i < reps.len() && #[trigger] reps[i].bits() == c.bits();
    LowerAsciiCharset::lemma_by_bits(reps[i], c);
}

/// In a sentence of which each charset shares no symbol with those before
/// it, a charset is in the row of the one before it.
proof fn lemma_next_in_row(reps: Seq<LowerAsciiCharset>, sol: Seq<LowerAsciiCharset>, t: int)
    requires
        0 < t < sol.len(),
        graph_spec(reps).contains_key(sol[t].bits()),
        graph_spec(reps).contains_key(sol[t - 1].bits()),
        !sol[t].intersects(union_of(sol.take(t))),
    ensures
        graph_spec(reps)[sol[t - 1].bits()].contains(sol[t]),
{
    let c = sol[t - 1];
    let d = sol[t];
    let before = sol.take(t);
    LowerAsciiCharset::lemma_of_bits(union_bits(before));
    assert(before.last() == c);
    lemma_disjoint_from_or(d.bits(), union_bits(before.drop_last()), c.bits());
    lemma_row_owner_is_rep(reps, d);
    lemma_ascending(reps);
    assert(ascending(reps).contains(d));
    let i = choose|i: int| 0 <= i < ascending(reps).len() && ascending(reps)[i] == d;
    ascending(reps).lemma_filter_contains(|d: LowerAsciiCharset| c.bits() & d.bits() == 0, i);
}

/// The search below a node finds every sentence that extends the node's
/// sentence, if the candidates hold the charset that comes first.
pub proof fn lemma_search_complete(
    reps: Seq<LowerAsciiCharset>,
    cur: Seq<LowerAsciiCharset>,
    last_added: LowerAsciiCharset,
    nbs: Seq<LowerAsciiCharset>,
    n: nat,
    sol: Seq<LowerAsciiCharset>,
)
    requires
        extends(graph_spec(reps), cur, last_added, sol, n),
        nbs.contains(sol[cur.len() as int]),
        cur.len() > 0 ==> graph_spec(reps).contains_key(cur.last().bits()),
    ensures
        search_spec(graph_spec(reps), cur, last_added, nbs, n).contains(sol),
    decreases n - cur.len(),
{
    let graph = graph_spec(reps);
    let at_cur = cur.len() as int;
    let c = sol[at_cur];
    let cands = filter_spec(nbs, union_of(cur), last_added);
    assert(graph.contains_key(sol[at_cur].bits()));
    assert(keeps(c, union_of(cur), last_added));
    lemma_filter_members(nbs, union_of(cur), last_added, c);
    let at = choose|at: int| 0 <= at < cands.len() && cands[at] == c;
    let next = cur.push(c);
    assert(sol.take(at_cur + 1) =~= next) by {
        assert(sol.take(at_cur + 1).take(at_cur) =~= sol.take(at_cur));
    }
    if cur.len() + 1 >= n {
        assert(sol =~= sol.take(at_cur + 1));
    } else {
        let row = graph[c.bits()];
        assert(graph.contains_key(sol[at_cur + 1].bits()));
        lemma_next_in_row(reps, sol, at_cur + 1);
        assert(extends(graph, next, c, sol, n));
        lemma_search_complete(reps, next, c, row, n, sol);
    }
    lemma_extend_contains(graph, cur, cands, n, at, sol);
}

/// What the search finds from one of the roots is among what it finds from
/// all of them.
pub proof fn lemma_roots_contains(
    graph: Map<u32, Seq<LowerAsciiCharset>>,
    roots: Seq<LowerAsciiCharset>,
    n: nat,
    at: int,
    sol: Seq<LowerAsciiCharset>,
)
    requires
        0 <= at < roots.len(),
        root_solutions(graph, roots[at], n).contains(sol),
    ensures
        roots_solutions(graph, roots, n).contains(sol),
    decreases roots.len(),
{
    let before = roots_solutions(graph, roots.drop_last(), n);
    let part = root_solutions(graph, roots.last(), n);
    if at < roots.len() - 1 {
        assert(roots.drop_last()[at] == roots[at]);
        lemma_roots_contains(graph, roots.drop_last(), n, at, sol);
    }
    lemma_contains_add(before, part, sol);
}

/// The search over the graph of `reps`, from each of `reps`, finds every
/// solution.
pub proof fn lemma_roots_solutions_complete(
    reps: Seq<LowerAsciiCharset>,
    n: nat,
    sol: Seq<LowerAsciiCharset>,
)
    requires
        n >= 2,
        is_solution(graph_spec(reps), sol, n),
    ensures
        roots_solutions(graph_spec(reps), reps, n).contains(sol),
{
    let graph = graph_spec(reps);
    let root = sol[0];
    assert(graph.contains_key(sol[0].bits()));
    assert(graph.contains_key(sol[1].bits()));
    lemma_row_owner_is_rep(reps, root);
    let at = choose|at: int| 0 <= at < reps.len() && reps[at] == root;
    let cur = seq![root];
    assert(sol.take(1) =~= cur);
    lemma_next_in_row(reps, sol, 1);
    assert(extends(graph, cur, root, sol, n)) by {
        assert(sol[1].bits() > sol[0].bits());
    }
    lemma_search_complete(reps, cur, root, graph[root.bits()], n, sol);
    lemma_roots_contains(graph, reps, n, at, sol);
}

/// Every candidate of `nbs` that the kernel keeps for the sentence `cur` and
/// the floor `last_added` has a row in the graph.
pub open spec fn kept_have_rows(
    graph: Map<u32, Seq<LowerAsciiCharset>>,
    cur: Seq<LowerAsciiCharset>,
    last_added: LowerAsciiCharset,
    nbs: Seq<LowerAsciiCharset>,
) -> bool {
    forall|i: int|
        0 <= i < nbs.len() && keeps(#[trigger] nbs[i], union_of(cur), last_added)
            ==> graph.contains_key(nbs[i].bits())
}

/// Appends to `sols` every full sentence that extends `cur_sol` by charsets
/// from `nbs` and, below that, from the rows of the charsets added: each
/// charset added shares no symbol with the sentence before it and comes after
/// the one added last. Where the kernel keeps no candidate, `sols` is left as
/// it was. A row is read only for a candidate that is kept and does not fill
/// the sentence.
pub fn find_sols<const N: usize>(
    sols: &mut Vec<CharsetSentence<N>>,
    graph: &WordGraph,
    cur_sol: CharsetSentence<N>,
    last_added: LowerAsciiCharset,
    nbs: &[LowerAsciiCharset],
    wide: bool,
)
    requires
        graph.wf(),
        cur_sol.wf(),
        cur_sol@.len() < N,
        cur_sol@.len() + 1 < N ==> kept_have_rows(graph@, cur_sol@, last_added, nbs@),
    ensures
        final(sols)@.len() >= old(sols)@.len(),
        final(sols)@.take(old(sols)@.len() as int) == old(sols)@,
        charset_views(final(sols)@.skip(old(sols)@.len() as int)) == search_spec(
            graph@,
            cur_sol@,
            last_added,
            nbs@,
            N as nat,
        ),
        filter_spec(nbs@, union_of(cur_sol@), last_added).len() == 0 ==> *final(sols) == *old(
            sols,
        ),
        forall|j: int|
            old(sols)@.len() <= j < final(sols)@.len() ==> (#[trigger] final(sols)@[j]).wf()
                && final(sols)@[j]@.len() == N,
    decreases N - cur_sol@.len(),
{
    let ghost start = old(sols)@.len() as int;
    let exclusion = cur_sol.charset();
    proof {
        LowerAsciiCharset::lemma_of_bits(union_bits(cur_sol@));
        LowerAsciiCharset::lemma_by_bits(exclusion, union_of(cur_sol@));
    }
    let cands = filter_vec(nbs, exclusion, last_added, wide);
    if cands.is_empty() {
        proof {
            assert(sols@.skip(start) =~= Seq::empty());
            assert(charset_views(sols@.skip(start)) =~= Seq::empty());
            assert(sols@.take(start) =~= sols@);
        }
        return ;
    }
    assert(cands@.len() > 0);
    let full = cur_sol.len() + 1 >= N;
    let mut i: usize = 0;
    proof {
        assert(sols@.skip(start) =~= Seq::empty());
        assert(charset_views(sols@.skip(start)) =~= Seq::empty());
        assert(sols@.take(start) =~= sols@);
        assert(cands@.take(0) =~= Seq::empty());
    }
    while i < cands.len()
        invariant
            i <= cands@.len(),
            graph.wf(),
            cur_sol.wf(),
            cur_sol@.len() < N,
            full == (cur_sol@.len() + 1 >= N),
            cands@ == filter_spec(nbs@, union_of(cur_sol@), last_added),
            cands@.len() > 0,
            cur_sol@.len() + 1 < N ==> kept_have_rows(graph@, cur_sol@, last_added, nbs@),
            start == old(sols)@.len(),
            sols@.len() >= start,
            sols@.take(start) == old(sols)@,
            charset_views(sols@.skip(start)) == extend_spec(
                graph@,
                cur_sol@,
                cands@.take(i as int),
                N as nat,
            ),
            forall|j: int|
                start <= j < sols@.len() ==> (#[trigger] sols@[j]).wf() && sols@[j]@.len() == N,
        decreases cands@.len() - i,
    {
        let c = cands[i];
        let mut sol = cur_sol;
        sol.add(c);
        let ghost before = sols@;
        proof {
            assert(cands@.take(i + 1).drop_last() =~= cands@.take(i as int));
            assert(cands@.take(i + 1).last() == c);
            assert(cands@.contains(c));
            lemma_filter_members(nbs@, union_of(cur_sol@), last_added, c);
            let at = choose|at: int| 0 <= at < nbs@.len() && nbs@[at] == c;
            assert(keeps(nbs@[at], union_of(cur_sol@), last_added));
            assert(!full ==> graph@.contains_key(c.bits()));
        }
        if full {
            sols.push(sol);
            proof {
                assert(sols@.take(start) =~= before.take(start));
                assert(sols@.skip(start) =~= before.skip(start).push(sol));
                assert(charset_views(sols@.skip(start)) =~= charset_views(before.skip(start))
                    + seq![cur_sol@.push(c)]);
            }
        } else {
            match graph.neighbors(c) {
                Some(row) => {
                    proof {
                        assert forall|j: int| 0 <= j < row@.len() implies graph@.contains_key(
                            #[trigger] row@[j].bits(),
                        ) by {
                            assert(graph@[c.bits()][j] == row@[j]);
                        }
                        assert(kept_have_rows(graph@, sol@, c, row@));
                    }
                    find_sols(sols, graph, sol, c, row.as_slice(), wide);
                    proof {
                        let mid = before.len() as int;
                        assert(sols@.take(start) =~= sols@.take(mid).take(start));
                        assert(sols@.skip(start) =~= before.skip(start) + sols@.skip(mid));
                        assert(charset_views(sols@.skip(start)) =~= charset_views(
                            before.skip(start),
                        ) + charset_views(sols@.skip(mid)));
                        assert forall|j: int| start <= j < sols@.len() implies (
                        #[trigger] sols@[j]).wf() && sols@[j]@.len() == N by {
                            if j < mid {
                                assert(sols@[j] == sols@.take(mid)[j]);
                            }
                        }
                    }
                },
                None => {},
            }
        }
        i += 1;
    }
    assert(cands@.take(cands@.len() as int) =~= cands@);
}

/// Appends to `sols` the solutions that begin with `root`.
pub fn search_from<const N: usize>(
    sols: &mut Vec<CharsetSentence<N>>,
    graph: &WordGraph,
    root: LowerAsciiCharset,
    wide: bool,
)
    requires
        2 <= N <= u8::MAX,
        graph.wf(),
        graph@.contains_key(root.bits()),
    ensures
        final(sols)@.len() >= old(sols)@.len(),
        final(sols)@.take(old(sols)@.len() as int) == old(sols)@,
        charset_views(final(sols)@.skip(old(sols)@.len() as int)) == root_solutions(
            graph@,
            root,
            N as nat,
        ),
        forall|j: int|
            old(sols)@.len() <= j < final(sols)@.len() ==> (#[trigger] final(sols)@[j]).wf()
                && final(sols)@[j]@.len() == N,
{
    let mut init = CharsetSentence::<N>::new();
    init.add(root);
    assert(init@ =~= seq![root]);
    match graph.neighbors(root) {
        Some(row) => {
            proof {
                assert forall|j: int| 0 <= j < row@.len() implies graph@.contains_key(
                    #[trigger] row@[j].bits(),
                ) by {
                    assert(graph@[root.bits()][j] == row@[j]);
                }
                assert(kept_have_rows(graph@, init@, root, row@));
            }
            find_sols(sols, graph, init, root, row.as_slice(), wide);
        },
        None => {},
    }
}

/// The solutions that begin with one of `roots`, root by root.
pub fn find_all<const N: usize>(graph: &WordGraph, roots: &Vec<LowerAsciiCharset>, wide: bool) -> (sols:
    Vec<CharsetSentence<N>>)
    requires
        2 <= N <= u8::MAX,
        graph.wf(),
        all_rows(graph@, roots@),
    ensures
        charset_views(sols@) == roots_solutions(graph@, roots@, N as nat),
        forall|j: int| 0 <= j < sols@.len() ==> (#[trigger] sols@[j]).wf() && sols@[j]@.len() == N,
{
    let mut sols: Vec<CharsetSentence<N>> = Vec::new();
    let mut i: usize = 0;
    assert(roots@.take(0) =~= Seq::empty());
    assert(charset_views(sols@) =~= Seq::empty());
    while i < roots.len()
        invariant
            i <= roots@.len(),
            2 <= N <= u8::MAX,
            graph.wf(),
            all_rows(graph@, roots@),
            charset_views(sols@) == roots_solutions(graph@, roots@.take(i as int), N as nat),
            forall|j: int|
                0 <= j < sols@.len() ==> (#[trigger] sols@[j]).wf() && sols@[j]@.len() == N,
        decreases roots@.len() - i,
    {
        let ghost before = sols@;
        assert(graph@.contains_key(roots@[i as int].bits()));
        search_from(&mut sols, graph, roots[i], wide);
        proof {
            let mid = before.len() as int;
            assert(roots@.take(i + 1).drop_last() =~= roots@.take(i as int));
            assert(roots@.take(i + 1).last() == roots@[i as int]);
            assert(sols@ =~= sols@.take(mid) + sols@.skip(mid));
            assert(charset_views(sols@) =~= charset_views(before) + charset_views(
                sols@.skip(mid),
            ));
            assert forall|j: int| 0 <= j < sols@.len() implies (#[trigger] sols@[j]).wf()
                && sols@[j]@.len() == N by {
                if j < mid {
                    assert(sols@[j] == sols@.take(mid)[j]);
                }
            }
        }
        i += 1;
    }
    assert(roots@.take(roots@.len() as int) =~= roots@);
    sols
}

} // verus!
