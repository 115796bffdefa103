//! Anagrams: the words of a dictionary grouped by their charset, and the
//! expansion of a solution found on charsets into every sentence of words.

use vstd::prelude::*;
use vstd::relations::sorted_by;
use crate::adaptors::{sentence_views, sorted_words};
use crate::charset::LowerAsciiCharset;
use crate::graph::{fx_get, MaskMap};
use crate::odometer::{
    carried, combinations, in_range, indices_at, lemma_carry, lemma_carry_done,
    lemma_combinations_positive, lemma_ticks_roundtrip, ticks,
};
use crate::order::{lemma_sorted_lists_equal, lemma_word_order_total, word_order};
use crate::sentence::{CharsetSentence, Sentence};

verus! {

/// For the mask of a charset, the words of the dictionary that have it.
pub struct AnagramMap<const L: usize> {
    groups: MaskMap<Vec<[u8; L]>>,
}

impl<const L: usize> View for AnagramMap<L> {
    type V = Map<u32, Seq<[u8; L]>>;

    closed spec fn view(&self) -> Map<u32, Seq<[u8; L]>> {
        self.groups@.map_values(|g: Vec<[u8; L]>| g@)
    }
}

impl<const L: usize> AnagramMap<L> {
    /// No group is empty.
    pub open spec fn wf(&self) -> bool {
        forall|mask: u32| self@.contains_key(mask) ==> (#[trigger] self@[mask]).len() > 0
    }

    /// The map that holds the groups of `table`.
    pub(crate) fn from_table(table: MaskMap<Vec<[u8; L]>>) -> (map: Self)
        ensures
            map@ == table@.map_values(|g: Vec<[u8; L]>| g@),
    {
        AnagramMap { groups: table }
    }

    /// The words whose charset is `c`, if there are any.
    pub fn group(&self, c: LowerAsciiCharset) -> (r: Option<&Vec<[u8; L]>>)
        ensures
            match r {
                Some(g) => self@.contains_key(c.bits()) && g@ == self@[c.bits()],
                None => !self@.contains_key(c.bits()),
            },
    {
        fx_get(&self.groups, c.bits_value())
    }
}

/// The sizes of a row of groups.
pub open spec fn sizes_of<const L: usize>(groups: Seq<Seq<[u8; L]>>) -> Seq<int> {
    groups.map_values(|g: Seq<[u8; L]>| g.len() as int)
}

/// One word from each group: from group `i` the word at `idxs[i]`.
pub open spec fn choice<const L: usize>(groups: Seq<Seq<[u8; L]>>, idxs: Seq<int>) -> Seq<
    [u8; L],
> {
    Seq::new(groups.len(), |i: int| groups[i][idxs[i]])
}

/// The words of a sentence in ascending order.
pub open spec fn sort_words<const L: usize>(words: Seq<[u8; L]>) -> Seq<[u8; L]> {
    words.sort_by(word_order::<L>())
}

/// The `k`-th sentence made of one word from each group: the index into the
/// first group moves fastest.
pub open spec fn expansion<const L: usize>(groups: Seq<Seq<[u8; L]>>, k: int) -> Seq<[u8; L]> {
    sort_words(choice(groups, indices_at(sizes_of(groups), k)))
}

/// Every sentence made of one word from each group, each with its words in
/// ascending order.
pub open spec fn expansions<const L: usize>(groups: Seq<Seq<[u8; L]>>) -> Seq<Seq<[u8; L]>> {
    Seq::new(combinations(sizes_of(groups)) as nat, |k: int| expansion(groups, k))
}

/// The groups of the charsets of a solution, in its order.
pub open spec fn groups_of<const L: usize>(
    map: Map<u32, Seq<[u8; L]>>,
    sol: Seq<LowerAsciiCharset>,
) -> Seq<Seq<[u8; L]>> {
    Seq::new(sol.len(), |i: int| map[sol[i].bits()])
}

/// The indices of the odometer as integers.
pub open spec fn as_ints(idxs: Seq<usize>) -> Seq<int> {
    idxs.map_values(|x: usize| x as int)
}

/// A list of words put in order by a sort is the sorted list of those words.
pub proof fn lemma_sorted_is_sort_words<const L: usize>(words: Seq<[u8; L]>, out: Seq<[u8; L]>)
    requires
        out.to_multiset() == words.to_multiset(),
        sorted_by(out, word_order::<L>()),
    ensures
        out == sort_words(words),
        out.len() == words.len(),
{
    lemma_word_order_total::<L>();
    words.lemma_sort_by_ensures(word_order::<L>());
    lemma_sorted_lists_equal(out, sort_words(words), word_order::<L>());
    out.to_multiset_ensures();
    words.to_multiset_ensures();
}

/// Appends to `sols` every sentence of words that the solution `sol` stands
/// for: one word from the group of each of its charsets, in every
/// combination, each sentence with its words in ascending order.
#[verifier::loop_isolation(false)]
pub fn expand_anagrams<const L: usize, const N: usize>(
    sols: &mut Vec<Sentence<L, N>>,
    anagram_map: &AnagramMap<L>,
    sol: CharsetSentence<N>,
)
    requires
        N >= 1,
        sol.wf(),
        sol@.len() == N,
        anagram_map.wf(),
        forall|i: int| 0 <= i < N ==> anagram_map@.contains_key(#[trigger] sol@[i].bits()),
    ensures
        final(sols)@.len() >= old(sols)@.len(),
        final(sols)@.take(old(sols)@.len() as int) == old(sols)@,
        sentence_views(final(sols)@.skip(old(sols)@.len() as int)) == expansions(
            groups_of(anagram_map@, sol@),
        ),
        forall|j: int| old(sols)@.len() <= j < final(sols)@.len() ==> (#[trigger] final(sols)@[j]).wf(),
{
    proof {
        sol.lemma_wf();
    }
    let ghost groups = groups_of(anagram_map@, sol@);
    let ghost sizes = sizes_of(groups);
    let ghost start = old(sols)@.len() as int;
    let n = sol.len();
    let mut a_idxs: Vec<usize> = vec![0; n];
    let mut agrams: Vec<&Vec<[u8; L]>> = Vec::new();
    let mut g: usize = 0;
    while g < n
        invariant
            g <= n,
            agrams@.len() == g,
            forall|i: int| 0 <= i < g ==> (#[trigger] agrams@[i])@ == groups[i],
        decreases n - g,
    {
        let c = sol.word(g);
        assert(anagram_map@.contains_key(sol@[g as int].bits()));
        let group = anagram_map.group(c).unwrap();
        agrams.push(group);
        g += 1;
    }
    let ghost mut k: int = 0;
    proof {
        assert forall|i: int| 0 <= i < sizes.len() implies sizes[i] > 0 by {
            assert(anagram_map@.contains_key(sol@[i].bits()));
        }
        lemma_combinations_positive(sizes);
        lemma_ticks_zero(as_ints(a_idxs@), sizes);
        assert(sols@.skip(start) =~= Seq::empty());
        assert(sentence_views(sols@.skip(start)) =~= Seq::empty());
    }
    loop
        invariant
            n == N,
            sizes == sizes_of(groups),
            groups.len() == N,
            a_idxs@.len() == N,
            agrams@.len() == N,
            forall|i: int| 0 <= i < N ==> (#[trigger] agrams@[i])@ == groups[i],
            in_range(as_ints(a_idxs@), sizes),
            ticks(as_ints(a_idxs@), sizes) == k,
            0 <= k < combinations(sizes),
            sols@.len() == start + k,
            sols@.take(start) == old(sols)@,
            forall|j: int| 0 <= j < k ==> (#[trigger] sols@[start + j]).wf(),
            forall|j: int| 0 <= j < k ==> (#[trigger] sols@[start + j])@ == expansion(groups, j),
        decreases combinations(sizes) - k,
    {
        let ghost before = as_ints(a_idxs@);
        let mut tuple: Vec<[u8; L]> = Vec::new();
        let mut t: usize = 0;
        while t < n
            invariant
                t <= n,
                tuple@.len() == t,
                a_idxs@.len() == N,
                as_ints(a_idxs@) == before,
                forall|i: int| 0 <= i < t ==> #[trigger] tuple@[i] == groups[i][before[i]],
            decreases n - t,
        {
            assert(0 <= before[t as int] < sizes[t as int]);
            assert(agrams@[t as int]@ == groups[t as int]);
            tuple.push(agrams[t][a_idxs[t]]);
            t += 1;
        }
        let ghost chosen = tuple@;
        let sorted = sorted_words(tuple);
        proof {
            lemma_ticks_roundtrip(before, sizes);
            assert(chosen =~= choice(groups, before));
            lemma_sorted_is_sort_words(chosen, sorted@);
        }
        let sentence: Sentence<L, N> = Sentence::from_words(&sorted);
        let ghost pushed_to = sols@;
        sols.push(sentence);
        proof {
            assert(sols@.take(start) =~= pushed_to.take(start));
            assert forall|j: int| 0 <= j <= k implies (#[trigger] sols@[start + j]).wf()
                && sols@[start + j]@ == expansion(groups, j) by {
                if j < k {
                    assert(sols@[start + j] == pushed_to[start + j]);
                }
            }
        }

        let mut i: usize = 0;
        assert(before[0] == a_idxs@[0] && sizes[0] == agrams@[0].len());
        a_idxs[0] += 1;
        assert(carried(before, as_ints(a_idxs@), sizes, 0));
        while a_idxs[i] >= agrams[i].len()
            invariant
                i < N,
                a_idxs@.len() == N,
                carried(before, as_ints(a_idxs@), sizes, i as int),
            decreases N - i,
        {
            let ghost head = as_ints(a_idxs@);
            proof {
                assert(head[i as int] == a_idxs@[i as int] && sizes[i as int] == agrams@[i as int].len());
                lemma_carry(before, head, sizes, i as int);
            }
            a_idxs[i] = 0;
            i += 1;
            if i >= a_idxs.len() {
                proof {
                    lemma_expanded(sols@, start, groups);
                    assert forall|j: int| start <= j < sols@.len() implies (#[trigger] sols@[j]).wf() by {
                        assert(sols@[start + (j - start)].wf());
                    }
                }
                return ;
            }
            assert(head[i as int] == a_idxs@[i as int] && sizes[i as int] == agrams@[i as int].len());
            a_idxs[i] += 1;
            assert(as_ints(a_idxs@) =~= head.update(i - 1, 0).update(i as int, head[i as int] + 1));
        }
        proof {
            assert(as_ints(a_idxs@)[i as int] == a_idxs@[i as int] && sizes[i as int] == agrams@[i as int].len());
            lemma_carry_done(before, as_ints(a_idxs@), sizes, i as int);
            lemma_ticks_roundtrip(as_ints(a_idxs@), sizes);
            k = k + 1;
        }
    }
}

/// Indices that are all zero have not ticked.
pub proof fn lemma_ticks_zero(idxs: Seq<int>, sizes: Seq<int>)
    requires
        idxs.len() == sizes.len(),
        forall|j: int| 0 <= j < idxs.len() ==> idxs[j] == 0,
    ensures
        ticks(idxs, sizes) == 0,
    decreases idxs.len(),
{
    if idxs.len() > 0 {
        lemma_ticks_zero(idxs.skip(1), sizes.skip(1));
        assert(sizes[0] * 0 == 0);
    }
}

/// A list whose items from `start` on are the expansions, one by one, holds
/// the list of expansions from `start` on.
proof fn lemma_expanded<const L: usize, const N: usize>(
    sols: Seq<Sentence<L, N>>,
    start: int,
    groups: Seq<Seq<[u8; L]>>,
)
    requires
        0 <= start,
        0 <= combinations(sizes_of(groups)),
        sols.len() == start + combinations(sizes_of(groups)),
        forall|j: int|
            0 <= j < combinations(sizes_of(groups)) ==> (#[trigger] sols[start + j])@ == expansion(
                groups,
                j,
            ),
    ensures
        sentence_views(sols.skip(start)) == expansions(groups),
{
    let views = sentence_views(sols.skip(start));
    assert forall|j: int| 0 <= j < views.len() implies views[j] == expansions(groups)[j] by {
        assert(sols.skip(start)[j] == sols[start + j]);
    }
    assert(views =~= expansions(groups));
}

} // verus!
