//! The calls into `itertools`. Verus does not read that crate: what each
//! function here states of its result is taken from the crate's source and
//! documentation, and is not proved.

use vstd::prelude::*;
use vstd::relations::sorted_by;
use itertools::Itertools;
use crate::charset::{word_bits, word_in_alphabet, LowerAsciiCharset};
use crate::order::{sentence_order, word_order};
use crate::sentence::{joined, Sentence};

verus! {

/// The views of a list of sentences.
pub open spec fn sentence_views<const L: usize, const N: usize>(
    sentences: Seq<Sentence<L, N>>,
) -> Seq<Seq<[u8; L]>> {
    sentences.map_values(|s: Sentence<L, N>| s@)
}

/// The words of a list with a given charset mask, in the order of the list.
pub open spec fn with_mask<const L: usize>(words: Seq<[u8; L]>, mask: u32) -> Seq<[u8; L]> {
    words.filter(|w: [u8; L]| word_bits(w@) == mask)
}

/// The items of a list without their repetitions: each where it occurs first.
pub open spec fn first_occurrences<T>(list: Seq<T>) -> Seq<T>
    decreases list.len(),
{
    if list.len() == 0 {
        Seq::empty()
    } else if list.drop_last().contains(list.last()) {
        first_occurrences(list.drop_last())
    } else {
        first_occurrences(list.drop_last()).push(list.last())
    }
}

/// The mask of the charset of a word: the key by which anagrams are grouped.
pub fn word_key<const L: usize>(w: &[u8; L]) -> (key: u32)
    requires
        word_in_alphabet(w@),
    ensures
        key == word_bits(w@),
{
    LowerAsciiCharset::from_word(*w).bits_value()
}

/// The views of a list of strings.
pub open spec fn string_views(parts: Seq<String>) -> Seq<Seq<char>> {
    parts.map_values(|p: String| p@)
}

/// `Itertools::join` on strings: the first string, then for each further one
/// the separator and the string; the empty string where there is none.
#[verifier::external_body]
pub(crate) fn join_strings(parts: &Vec<String>, sep: &str) -> (s: String)
    ensures
        s@ == joined(string_views(parts@), sep@),
{
    parts.iter().join(sep)
}

/// `Itertools::unique` on words. It hands on an item unless an equal one has
/// come before: the result holds each word of the input once, where the input
/// has it first.
#[verifier::external_body]
pub(crate) fn unique_words<const L: usize>(words: Vec<[u8; L]>) -> (out: Vec<[u8; L]>)
    ensures
        out@ == first_occurrences(words@),
{
    words.into_iter().unique().collect()
}

/// `Itertools::sorted` on masks. It sorts with `slice::sort`, by the order of
/// the integers: the result holds the same masks, each as often as before, in
/// ascending order.
#[verifier::external_body]
pub(crate) fn sorted_masks(masks: Vec<u32>) -> (out: Vec<u32>)
    ensures
        out@.to_multiset() == masks@.to_multiset(),
        forall|i: int, j: int| 0 <= i < j < out@.len() ==> out@[i] <= out@[j],
{
    masks.into_iter().sorted().collect()
}

/// `Itertools::sorted` on words. It sorts with `slice::sort`, by the order
/// that `std` gives arrays of bytes: the result holds the same words, each as
/// often as before, in ascending lexicographic order.
#[verifier::external_body]
pub(crate) fn sorted_words<const L: usize>(words: Vec<[u8; L]>) -> (out: Vec<[u8; L]>)
    ensures
        out@.to_multiset() == words@.to_multiset(),
        sorted_by(out@, word_order::<L>()),
{
    words.into_iter().sorted().collect()
}

/// `Itertools::sorted` on sentences, each handed over as its array of words
/// and its count. `std` orders these by the array first, an empty slot before
/// a word and words lexicographically, which on well-formed sentences is the
/// lexicographic order of their words: the result holds the same sentences,
/// each as often as before, in that order.
#[verifier::external_body]
pub(crate) fn sorted_sentences<const L: usize, const N: usize>(
    sentences: Vec<Sentence<L, N>>,
) -> (out: Vec<Sentence<L, N>>)
    requires
        forall|i: int| 0 <= i < sentences@.len() ==> (#[trigger] sentences@[i]).wf(),
    ensures
        out@.to_multiset() == sentences@.to_multiset(),
        sorted_by(sentence_views(out@), sentence_order::<L>()),
{
    sentences.into_iter().map(|s| (s.words, s.len)).sorted().map(
        |(words, len)| Sentence { words, len },
    ).collect()
}

/// `Itertools::sorted_by_key` on words, keyed by the mask of their charset. It
/// sorts with `slice::sort_by_key`, which is stable: the masks ascend, and the
/// words of one mask are those of the input, in the order of the input.
#[verifier::external_body]
pub(crate) fn sorted_by_charset<const L: usize>(words: Vec<[u8; L]>) -> (out: Vec<[u8; L]>)
    requires
        forall|i: int| 0 <= i < words@.len() ==> word_in_alphabet(#[trigger] words@[i]@),
    ensures
        forall|i: int, j: int|
            0 <= i < j < out@.len() ==> word_bits(#[trigger] out@[i]@) <= word_bits(
                #[trigger] out@[j]@,
            ),
        forall|mask: u32| #[trigger] with_mask(out@, mask) == with_mask(words@, mask),
{
    words.into_iter().sorted_by_key(|w| word_key(w)).collect()
}

/// `Itertools::group_by` on words, keyed by the mask of their charset, each
/// group collected. It cuts the list into its runs of equal key: the groups,
/// one after the other, are the input; none is empty; the words of a group
/// have one mask; and two groups that follow each other have different masks.
#[verifier::external_body]
pub(crate) fn group_by_charset<const L: usize>(words: Vec<[u8; L]>) -> (groups: Vec<Vec<[u8; L]>>)
    requires
        forall|i: int| 0 <= i < words@.len() ==> word_in_alphabet(#[trigger] words@[i]@),
    ensures
        groups@.map_values(|g: Vec<[u8; L]>| g@).flatten() == words@,
        forall|i: int| 0 <= i < groups@.len() ==> (#[trigger] groups@[i])@.len() > 0,
        forall|i: int, j: int|
            0 <= i < groups@.len() && 0 <= j < groups@[i]@.len() ==> word_bits(
                #[trigger] groups@[i]@[j]@,
            ) == word_bits(groups@[i]@[0]@),
        forall|i: int|
            0 <= i < groups@.len() - 1 ==> word_bits((#[trigger] groups@[i])@[0]@) != word_bits(
                groups@[i + 1]@[0]@,
            ),
{
    words.into_iter().group_by(|w| word_key(w)).into_iter().map(|(_, group)| group.collect()).collect()
}

} // verus!
