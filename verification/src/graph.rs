//! The compatibility graph: for each representative charset, the
//! representatives that share no symbol with it, in the order of the list of
//! representatives.

use vstd::prelude::*;
use vstd::relations::{sorted_by, total_ordering};
use rustc_hash::FxHashMap;
use crate::adaptors::sorted_masks;
use crate::order::{lemma_filter_sorted, lemma_map_multiset, lemma_sorted_lists_equal};
use crate::charset::{word_in_alphabet, LowerAsciiCharset};

verus! {

/// The hasher of `rustc_hash`, declared so that maps built on it can be named.
#[verifier::external_type_specification]
#[verifier::external_body]
pub struct ExFxHasher(rustc_hash::FxHasher);

/// The hasher builder of `std` that `rustc_hash::FxHashMap` is made with.
#[verifier::external_type_specification]
#[verifier::external_body]
#[verifier::reject_recursive_types(H)]
pub struct ExBuildHasherDefault<H>(core::hash::BuildHasherDefault<H>);

/// A hash map of `rustc_hash`, keyed by the mask of a charset.
pub type MaskMap<V> = FxHashMap<u32, V>;

/// `FxHashMap::default`: a map that holds nothing.
#[verifier::external_body]
pub(crate) fn fx_new<V>() -> (m: MaskMap<V>)
    ensures
        (m@ == Map::<u32, V>::empty()),
{
    FxHashMap::default()
}

/// `HashMap::insert` on an `FxHashMap`: afterwards `k` maps to `v`, and every
/// other key to what it mapped to before.
#[verifier::external_body]
pub(crate) fn fx_insert<V>(m: &mut MaskMap<V>, k: u32, v: V)
    ensures
        final(m)@ == old(m)@.insert(k, v),
{
    m.insert(k, v);
}

/// `HashMap::get` on an `FxHashMap`: the value that `k` maps to, if any.
#[verifier::external_body]
pub(crate) fn fx_get<V>(m: &MaskMap<V>, k: u32) -> (r: Option<&V>)
    ensures
        r == if m@.contains_key(k) {
            Some(&m@[k])
        } else {
            None
        },
{
    m.get(&k)
}

/// The order of charsets: that of their masks, which is the order that the
/// floor of the kernel goes by.
pub open spec fn charset_order() -> spec_fn(LowerAsciiCharset, LowerAsciiCharset) -> bool {
    |a: LowerAsciiCharset, b: LowerAsciiCharset| a.bits() <= b.bits()
}

/// The charsets of a list in ascending order.
pub open spec fn ascending(list: Seq<LowerAsciiCharset>) -> Seq<LowerAsciiCharset> {
    list.sort_by(charset_order())
}

/// The charsets of a list that share no symbol with the mask `mask`, in the
/// order of the list.
pub open spec fn disjoint_spec(list: Seq<LowerAsciiCharset>, mask: u32) -> Seq<
    LowerAsciiCharset,
> {
    list.filter(|d: LowerAsciiCharset| mask & d.bits() == 0)
}

/// The row of the mask `mask` among `reps`: the charsets of `reps` that share
/// no symbol with it, in ascending order.
pub open spec fn row_spec(reps: Seq<LowerAsciiCharset>, mask: u32) -> Seq<LowerAsciiCharset> {
    disjoint_spec(ascending(reps), mask)
}

/// The rows of a graph ascend.
pub open spec fn ascending_rows(graph: Map<u32, Seq<LowerAsciiCharset>>) -> bool {
    forall|mask: u32, i: int, j: int|
        graph.contains_key(mask) && 0 <= i < j < graph[mask].len() ==> (
        #[trigger] graph[mask][i]).bits() <= (#[trigger] graph[mask][j]).bits()
}

pub proof fn lemma_charset_order_total()
    ensures
        total_ordering(charset_order()),
{
    let leq = charset_order();
    assert forall|a: LowerAsciiCharset, b: LowerAsciiCharset| #[trigger]
        leq(a, b) && #[trigger] leq(b, a) implies a == b by {
        LowerAsciiCharset::lemma_by_bits(a, b);
    }
}

/// A list in ascending order holds what the list holds, as often, and its
/// masks ascend.
pub proof fn lemma_ascending(list: Seq<LowerAsciiCharset>)
    ensures
        sorted_by(ascending(list), charset_order()),
        ascending(list).to_multiset() == list.to_multiset(),
        ascending(list).len() == list.len(),
        forall|c: LowerAsciiCharset|
            #![trigger ascending(list).contains(c)]
            #![trigger list.contains(c)]
            ascending(list).contains(c) <==> list.contains(c),
        forall|i: int, j: int|
            0 <= i < j < list.len() ==> (#[trigger] ascending(list)[i]).bits() <= (
            #[trigger] ascending(list)[j]).bits(),
{
    lemma_charset_order_total();
    list.lemma_sort_by_ensures(charset_order());
    list.to_multiset_ensures();
    ascending(list).to_multiset_ensures();
    assert forall|c: LowerAsciiCharset|
        #![trigger ascending(list).contains(c)]
        #![trigger list.contains(c)]
        ascending(list).contains(c) <==> list.contains(c) by {
        assert(ascending(list).contains(c) <==> ascending(list).to_multiset().count(c) > 0);
        assert(list.contains(c) <==> list.to_multiset().count(c) > 0);
    }
    assert forall|i: int, j: int| 0 <= i < j < list.len() implies (#[trigger] ascending(
        list,
    )[i]).bits() <= (#[trigger] ascending(list)[j]).bits() by {
        assert(charset_order()(ascending(list)[i], ascending(list)[j]));
    }
}

/// The masks of a row ascend.
pub proof fn lemma_row_ascends(reps: Seq<LowerAsciiCharset>, mask: u32, i: int, j: int)
    requires
        0 <= i < j < row_spec(reps, mask).len(),
    ensures
        row_spec(reps, mask)[i].bits() <= row_spec(reps, mask)[j].bits(),
{
    lemma_ascending(reps);
    lemma_filter_sorted(
        ascending(reps),
        |d: LowerAsciiCharset| mask & d.bits() == 0,
        charset_order(),
    );
    assert(charset_order()(row_spec(reps, mask)[i], row_spec(reps, mask)[j]));
}

/// The rows of the graph of a list of representatives ascend.
pub proof fn lemma_graph_spec_ascends(reps: Seq<LowerAsciiCharset>)
    ensures
        ascending_rows(graph_spec(reps)),
{
    let graph = graph_spec(reps);
    assert forall|mask: u32, i: int, j: int|
        graph.contains_key(mask) && 0 <= i < j < graph[mask].len() implies (
    #[trigger] graph[mask][i]).bits() <= (#[trigger] graph[mask][j]).bits() by {
        lemma_row_ascends(reps, mask, i, j);
    }
}

/// Whether `mask` is the mask of one of the first `n` of `reps`.
pub open spec fn is_rep(reps: Seq<LowerAsciiCharset>, n: int, mask: u32) -> bool {
    exists|i: int| 0 <= i < n && i < reps.len() && #[trigger] reps[i].bits() == mask
}

/// The graph of the first `n` of `reps`: each of them mapped to its row
/// among all of `reps`.
pub open spec fn graph_prefix(reps: Seq<LowerAsciiCharset>, n: int) -> Map<
    u32,
    Seq<LowerAsciiCharset>,
> {
    Map::new(|mask: u32| is_rep(reps, n, mask), |mask: u32| row_spec(reps, mask))
}

/// The graph of `reps`.
pub open spec fn graph_spec(reps: Seq<LowerAsciiCharset>) -> Map<u32, Seq<LowerAsciiCharset>> {
    graph_prefix(reps, reps.len() as int)
}

/// Every neighbor in a graph has a row of its own.
pub open spec fn closed_graph(graph: Map<u32, Seq<LowerAsciiCharset>>) -> bool {
    forall|mask: u32, j: int|
        graph.contains_key(mask) && 0 <= j < graph[mask].len() ==> graph.contains_key(
            (#[trigger] graph[mask][j]).bits(),
        )
}

/// The graph of a list of representatives is closed: a neighbor is a
/// representative.
pub proof fn lemma_graph_spec_closed(reps: Seq<LowerAsciiCharset>)
    ensures
        closed_graph(graph_spec(reps)),
{
    let graph = graph_spec(reps);
    assert forall|mask: u32, j: int|
        graph.contains_key(mask) && 0 <= j < graph[mask].len() implies graph.contains_key(
        (#[trigger] graph[mask][j]).bits(),
    ) by {
        let row = row_spec(reps, mask);
        let d = row[j];
        assert(row.contains(d));
        ascending(reps).lemma_filter_contains_rev(|d: LowerAsciiCharset| mask & d.bits() == 0, d);
        lemma_ascending(reps);
        assert(reps.contains(d));
        let i = choose|i: int| 0 <= i < reps.len() && reps[i] == d;
        assert(reps[i].bits() == d.bits());
        assert(is_rep(reps, reps.len() as int, d.bits()));
    }
}

/// For each representative charset, the representatives that share no symbol
/// with it.
pub struct WordGraph {
    rows: MaskMap<Vec<LowerAsciiCharset>>,
}

impl View for WordGraph {
    type V = Map<u32, Seq<LowerAsciiCharset>>;

    /// The rows, by the mask of the charset that they belong to.
    closed spec fn view(&self) -> Map<u32, Seq<LowerAsciiCharset>> {
        self.rows@.map_values(|v: Vec<LowerAsciiCharset>| v@)
    }
}

impl WordGraph {
    /// Every neighbor has a row of its own.
    pub open spec fn wf(&self) -> bool {
        closed_graph(self@)
    }

    /// The row of `c`, if it has one.
    pub fn neighbors(&self, c: LowerAsciiCharset) -> (r: Option<&Vec<LowerAsciiCharset>>)
        ensures
            match r {
                Some(v) => self@.contains_key(c.bits()) && v@ == self@[c.bits()],
                None => !self@.contains_key(c.bits()),
            },
    {
        fx_get(&self.rows, c.bits_value())
    }

    /// Whether `c` has a row.
    pub fn contains(&self, c: LowerAsciiCharset) -> (r: bool)
        ensures
            r == self@.contains_key(c.bits()),
    {
        self.neighbors(c).is_some()
    }
}

/// The masks of a list of charsets.
pub open spec fn masks_of_charsets(list: Seq<LowerAsciiCharset>) -> Seq<u32> {
    list.map_values(|c: LowerAsciiCharset| c.bits())
}

/// The charsets of `reps` in ascending order of their masks.
pub fn sort_charsets(reps: &[LowerAsciiCharset]) -> (out: Vec<LowerAsciiCharset>)
    ensures
        out@ == ascending(reps@),
{
    let ghost make = |m: u32| LowerAsciiCharset::of_bits(m);
    let mut masks: Vec<u32> = Vec::new();
    let mut i: usize = 0;
    while i < reps.len()
        invariant
            i <= reps@.len(),
            masks@ == masks_of_charsets(reps@.take(i as int)),
        decreases reps@.len() - i,
    {
        masks.push(reps[i].bits_value());
        assert(masks_of_charsets(reps@.take(i + 1)) =~= masks_of_charsets(
            reps@.take(i as int),
        ).push(reps@[i as int].bits()));
        i += 1;
    }
    assert(reps@.take(reps@.len() as int) =~= reps@);
    let ghost unsorted = masks@;
    let sorted = sorted_masks(masks);
    let mut out: Vec<LowerAsciiCharset> = Vec::new();
    let mut k: usize = 0;
    while k < sorted.len()
        invariant
            k <= sorted@.len(),
            make == |m: u32| LowerAsciiCharset::of_bits(m),
            out@ == sorted@.take(k as int).map_values(make),
        decreases sorted@.len() - k,
    {
        out.push(LowerAsciiCharset::from_bits(sorted[k]));
        assert(sorted@.take(k + 1).map_values(make) =~= sorted@.take(k as int).map_values(
            make,
        ).push(make(sorted@[k as int])));
        k += 1;
    }
    proof {
        assert(sorted@.take(sorted@.len() as int) =~= sorted@);
        assert(unsorted.map_values(make) =~= reps@) by {
            assert forall|i: int| 0 <= i < reps@.len() implies make(unsorted[i]) == reps@[i] by {
                LowerAsciiCharset::lemma_of_bits(unsorted[i]);
                LowerAsciiCharset::lemma_by_bits(make(unsorted[i]), reps@[i]);
            }
        }
        lemma_map_multiset(sorted@, unsorted, make);
        assert forall|i: int, j: int| 0 <= i < j < out@.len() implies #[trigger] charset_order()(
            out@[i],
            out@[j],
        ) by {
            LowerAsciiCharset::lemma_of_bits(sorted@[i]);
            LowerAsciiCharset::lemma_of_bits(sorted@[j]);
        }
        lemma_ascending(reps@);
        lemma_charset_order_total();
        lemma_sorted_lists_equal(out@, ascending(reps@), charset_order());
    }
    out
}

/// The row of `c` among `reps`: the charsets of `reps` that share no symbol
/// with it, in ascending order of their masks, whatever the order of `reps`.
pub fn graph_row(reps: &[LowerAsciiCharset], c: LowerAsciiCharset) -> (row: Vec<
    LowerAsciiCharset,
>)
    ensures
        row@ == row_spec(reps@, c.bits()),
        forall|i: int, j: int| 0 <= i < j < row@.len() ==> row@[i].bits() <= row@[j].bits(),
{
    let sorted = sort_charsets(reps);
    let row = disjoint_from(sorted.as_slice(), c);
    proof {
        assert forall|i: int, j: int| 0 <= i < j < row@.len() implies row@[i].bits()
            <= row@[j].bits() by {
            lemma_row_ascends(reps@, c.bits(), i, j);
        }
    }
    row
}

/// The charsets of `list` that share no symbol with `c`, in the order of
/// `list`.
pub fn disjoint_from(list: &[LowerAsciiCharset], c: LowerAsciiCharset) -> (row: Vec<
    LowerAsciiCharset,
>)
    ensures
        row@ == disjoint_spec(list@, c.bits()),
{
    let ghost keep = |d: LowerAsciiCharset| c.bits() & d.bits() == 0;
    let mut row: Vec<LowerAsciiCharset> = Vec::new();
    let mut i: usize = 0;
    proof {
        reveal(Seq::filter);
        assert(list@.take(0) =~= Seq::empty());
    }
    while i < list.len()
        invariant
            i <= list@.len(),
            keep == |d: LowerAsciiCharset| c.bits() & d.bits() == 0,
            row@ == list@.take(i as int).filter(keep),
        decreases list@.len() - i,
    {
        let d = list[i];
        proof {
            reveal(Seq::filter);
            assert(list@.take(i + 1).drop_last() =~= list@.take(i as int));
        }
        if !c.intersects(d) {
            row.push(d);
        }
        i += 1;
    }
    assert(list@.take(list@.len() as int) =~= list@);
    row
}

/// The charsets of a list of words.
pub open spec fn charsets_of<const L: usize>(words: Seq<[u8; L]>) -> Seq<LowerAsciiCharset> {
    words.map_values(|w: [u8; L]| LowerAsciiCharset::of_word(w@))
}

/// The charsets of `words`, in their order.
pub fn word_charsets<const L: usize>(words: &Vec<[u8; L]>) -> (reps: Vec<LowerAsciiCharset>)
    requires
        forall|i: int| 0 <= i < words@.len() ==> word_in_alphabet(#[trigger] words@[i]@),
    ensures
        reps@ == charsets_of(words@),
{
    let mut reps: Vec<LowerAsciiCharset> = Vec::new();
    let mut i: usize = 0;
    while i < words.len()
        invariant
            i <= words@.len(),
            forall|i: int| 0 <= i < words@.len() ==> word_in_alphabet(#[trigger] words@[i]@),
            reps@ == charsets_of(words@.take(i as int)),
        decreases words@.len() - i,
    {
        reps.push(LowerAsciiCharset::from_word(words[i]));
        assert(charsets_of(words@.take(i + 1)) =~= charsets_of(words@.take(i as int)).push(
            LowerAsciiCharset::of_word(words@[i as int]@),
        ));
        i += 1;
    }
    assert(words@.take(words@.len() as int) =~= words@);
    reps
}

/// The graph of the representative words `words`: a row for the charset of
/// each, made of the charsets of all of them in ascending order of their
/// masks, whatever the order of `words`.
pub fn build_graph<const L: usize>(words: &Vec<[u8; L]>) -> (graph: WordGraph)
    requires
        forall|i: int| 0 <= i < words@.len() ==> word_in_alphabet(#[trigger] words@[i]@),
    ensures
        graph@ == graph_spec(charsets_of(words@)),
        graph.wf(),
        ascending_rows(graph@),
        forall|mask: u32, i: int, j: int|
            graph@.contains_key(mask) && 0 <= i < j < graph@[mask].len() ==> graph@[mask][i].bits()
                <= graph@[mask][j].bits(),
{
    let reps = word_charsets(words);
    graph_of_charsets(&reps)
}

/// The graph of the representative charsets `reps`: a row for each, made of
/// all of them in ascending order of their masks, whatever the order of
/// `reps`.
pub fn graph_of_charsets(reps: &Vec<LowerAsciiCharset>) -> (graph: WordGraph)
    ensures
        graph@ == graph_spec(reps@),
        graph.wf(),
        ascending_rows(graph@),
        forall|mask: u32, i: int, j: int|
            graph@.contains_key(mask) && 0 <= i < j < graph@[mask].len() ==> graph@[mask][i].bits()
                <= graph@[mask][j].bits(),
{
    let sorted = sort_charsets(reps.as_slice());
    let mut rows: MaskMap<Vec<LowerAsciiCharset>> = fx_new();
    let mut i: usize = 0;
    let ghost view_of = |v: Vec<LowerAsciiCharset>| v@;
    assert(rows@.map_values(view_of) =~= graph_prefix(reps@, 0));
    while i < reps.len()
        invariant
            i <= reps@.len(),
            view_of == |v: Vec<LowerAsciiCharset>| v@,
            sorted@ == ascending(reps@),
            rows@.map_values(view_of) == graph_prefix(reps@, i as int),
        decreases reps@.len() - i,
    {
        let c = reps[i];
        let row = disjoint_from(sorted.as_slice(), c);
        let ghost before = rows@;
        fx_insert(&mut rows, c.bits_value(), row);
        proof {
            let now = rows@.map_values(view_of);
            let target = graph_prefix(reps@, i + 1);
            assert forall|mask: u32| now.contains_key(mask) == target.contains_key(mask) by {
                if is_rep(reps@, i + 1, mask) {
                    let j = choose|j: int|
                        0 <= j < i + 1 && j < reps@.len() && #[trigger] reps@[j].bits() == mask;
                    if j < i {
                        assert(is_rep(reps@, i as int, mask));
                    }
                }
                if before.map_values(view_of).contains_key(mask) {
                    assert(is_rep(reps@, i as int, mask));
                    let j = choose|j: int|
                        0 <= j < i && j < reps@.len() && #[trigger] reps@[j].bits() == mask;
                    assert(is_rep(reps@, i + 1, mask));
                }
                if mask == c.bits() {
                    assert(reps@[i as int].bits() == mask);
                    assert(is_rep(reps@, i + 1, mask));
                }
            }
            assert forall|mask: u32| now.contains_key(mask) implies now[mask] == target[mask] by {
                if mask != c.bits() {
                    assert(before.map_values(view_of)[mask] == row_spec(reps@, mask));
                }
            }
            assert(now =~= target);
        }
        i += 1;
    }
    proof {
        lemma_graph_spec_closed(reps@);
        lemma_graph_spec_ascends(reps@);
    }
    WordGraph { rows }
}

} // verus!
