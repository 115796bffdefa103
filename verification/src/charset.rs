//! The set of letters of a word, as a bitmask over at most 32 symbols.

use vstd::prelude::*;
use crate::bits::{
    bit_at, lemma_and_bit, lemma_and_commutes, lemma_and_self, lemma_bit_set_nonzero,
    lemma_nonzero_has_bit, lemma_or_bit, lemma_or_single_bit, lemma_zero_has_no_bit, single_bit,
};

verus! {

/// How many symbols a charset tells apart: one bit of the mask each.
pub const MAX_SYMBOLS: u8 = 32;

/// The symbols of `w` all have a bit in the mask.
pub open spec fn word_in_alphabet(w: Seq<u8>) -> bool {
    forall|i: int| 0 <= i < w.len() ==> w[i] < MAX_SYMBOLS
}

/// The mask of the symbols of `w`: bit `w[i]` set for each position `i`.
pub open spec fn word_bits(w: Seq<u8>) -> u32
    decreases w.len(),
{
    if w.len() == 0 {
        0
    } else {
        word_bits(w.drop_last()) | single_bit(w.last() as u32)
    }
}

/// The symbols that occur in `w`.
pub open spec fn word_symbols(w: Seq<u8>) -> Set<int> {
    Set::new(|s: int| exists|i: int| 0 <= i < w.len() && w[i] as int == s)
}

/// A set of symbols, one bit each. The integer value of the mask orders
/// charsets.
#[derive(Clone, Copy, PartialEq, Eq, Structural, PartialOrd, Ord, Hash, Debug)]
pub struct LowerAsciiCharset(u32);

impl View for LowerAsciiCharset {
    type V = Set<int>;

    /// The symbols in the set.
    open spec fn view(&self) -> Set<int> {
        Set::new(|s: int| self.has(s))
    }
}

impl LowerAsciiCharset {
    /// The mask that represents the set.
    pub closed spec fn bits(self) -> u32 {
        self.0
    }

    /// The charset that `bits` represents.
    pub closed spec fn of_bits(bits: u32) -> Self {
        LowerAsciiCharset(bits)
    }

    /// The charset of the word `w`.
    pub open spec fn of_word(w: Seq<u8>) -> Self {
        Self::of_bits(word_bits(w))
    }

    /// A charset and its mask determine each other.
    pub proof fn lemma_of_bits(bits: u32)
        ensures
            Self::of_bits(bits).bits() == bits,
    {
    }

    /// Charsets with the same mask are the same charset.
    pub proof fn lemma_by_bits(a: Self, b: Self)
        requires
            a.bits() == b.bits(),
        ensures
            a == b,
    {
    }

    /// Whether symbol `s` is in the set.
    pub open spec fn has(self, s: int) -> bool {
        0 <= s < 32 && bit_at(self.bits(), s as u32)
    }

    /// Two charsets intersect when their masks share a bit.
    pub open spec fn spec_intersects(&self, other: Self) -> bool {
        self.bits() & other.bits() != 0
    }

    /// How many of the symbols below `k` are in the set.
    pub open spec fn count_below(self, k: nat) -> nat
        decreases k,
    {
        if k == 0 {
            0
        } else {
            self.count_below((k - 1) as nat) + if self.has(k - 1) {
                1nat
            } else {
                0nat
            }
        }
    }

    /// The charset that the mask `bits` represents.
    pub fn from_bits(bits: u32) -> (c: Self)
        ensures
            c.bits() == bits,
            c == Self::of_bits(bits),
    {
        LowerAsciiCharset(bits)
    }

    /// The mask that represents the set.
    pub fn bits_value(&self) -> (b: u32)
        ensures
            b == self.bits(),
    {
        self.0
    }

    /// The charset of a word: the symbols that occur in it. A symbol needs a
    /// bit of its own in the mask, so each must be below 32.
    pub fn from_word<const L: usize>(w: [u8; L]) -> (c: Self)
        requires
            word_in_alphabet(w@),
        ensures
            c == Self::of_word(w@),
            c.bits() == word_bits(w@),
            c@ == word_symbols(w@),
    {
        let mut chars: u32 = 0;
        let mut i: usize = 0;
        while i < L
            invariant
                i <= L,
                w@.len() == L,
                word_in_alphabet(w@),
                chars == word_bits(w@.take(i as int)),
            decreases L - i,
        {
            let b: u8 = w[i];
            assert(w@.take(i + 1).drop_last() =~= w@.take(i as int));
            chars = chars | (1u32 << b);
            i += 1;
        }
        assert(w@.take(L as int) =~= w@);
        proof {
            lemma_of_word_symbols(w@);
        }
        LowerAsciiCharset(chars)
    }

    /// Whether the two charsets share a symbol.
    #[verifier::when_used_as_spec(spec_intersects)]
    pub fn intersects(&self, other: Self) -> (r: bool)
        ensures
            r == self.spec_intersects(other),
            r == !self@.disjoint(other@),
    {
        proof {
            lemma_intersects_common_symbol(*self, other);
        }
        self.0 & other.0 != 0
    }

    /// Adds the symbols of `other`.
    pub fn union(&mut self, other: Self)
        ensures
            final(self).bits() == old(self).bits() | other.bits(),
            final(self)@ == old(self)@.union(other@),
    {
        self.0 = self.0 | other.0;
        proof {
            assert forall|s: int| #[trigger]
                self@.contains(s) == old(self)@.union(other@).contains(s) by {
                if 0 <= s < 32 {
                    lemma_or_bit(old(self).0, other.0, s as u32);
                }
            }
            assert(self@ =~= old(self)@.union(other@));
        }
    }

    /// The number of symbols in the set.
    pub fn popcount(&self) -> (n: u32)
        ensures
            n == self@.len(),
            n <= 32,
    {
        let mut n: u32 = 0;
        let mut s: u32 = 0;
        while s < 32
            invariant
                s <= 32,
                n == self.count_below(s as nat),
                n <= s,
            decreases 32 - s,
        {
            if (self.0 >> s) & 1 == 1 {
                n += 1;
            }
            s += 1;
        }
        proof {
            lemma_count_below_is_len(*self, 32);
            assert(self@ =~= self@.filter(|x: int| x < 32));
        }
        n
    }
}

impl Default for LowerAsciiCharset {
    /// The empty charset.
    fn default() -> (c: Self)
        ensures
            c.bits() == 0,
            c@ == Set::<int>::empty(),
    {
        let c = LowerAsciiCharset(0);
        proof {
            assert forall|s: int| !c@.contains(s) by {
                if 0 <= s < 32 {
                    lemma_zero_has_no_bit(s as u32);
                }
            }
            assert(c@ =~= Set::<int>::empty());
        }
        c
    }
}

/// Whether two charsets intersect does not depend on which of them is asked.
pub proof fn lemma_intersects_symmetric(a: LowerAsciiCharset, b: LowerAsciiCharset)
    ensures
        a.intersects(b) == b.intersects(a),
{
    lemma_and_commutes(a.bits(), b.bits());
}

/// A charset intersects itself unless it is empty.
pub proof fn lemma_intersects_self(a: LowerAsciiCharset)
    ensures
        a.intersects(a) == (a.bits() != 0),
        a.intersects(a) == (a@ != Set::<int>::empty()),
{
    lemma_and_self(a.bits());
    if a.bits() != 0 {
        let s = lemma_nonzero_has_bit(a.bits());
        assert(a@.contains(s as int));
    } else {
        assert forall|s: int| !a@.contains(s) by {
            if 0 <= s < 32 {
                lemma_zero_has_no_bit(s as u32);
            }
        }
        assert(a@ =~= Set::<int>::empty());
    }
}

/// Two charsets intersect exactly when some symbol is in both.
pub proof fn lemma_intersects_common_symbol(a: LowerAsciiCharset, b: LowerAsciiCharset)
    ensures
        a.intersects(b) == !a@.disjoint(b@),
{
    if a.intersects(b) {
        let s = lemma_nonzero_has_bit(a.bits() & b.bits());
        lemma_and_bit(a.bits(), b.bits(), s);
        assert(a@.contains(s as int) && b@.contains(s as int));
    } else {
        assert forall|s: int| !(a@.contains(s) && b@.contains(s)) by {
            if a@.contains(s) && b@.contains(s) {
                lemma_and_bit(a.bits(), b.bits(), s as u32);
                lemma_bit_set_nonzero(a.bits() & b.bits(), s as u32);
            }
        }
    }
}

/// A bit of `word_bits(w)` is set exactly when its symbol occurs in `w`.
pub proof fn lemma_word_bits_symbols(w: Seq<u8>)
    requires
        word_in_alphabet(w),
    ensures
        forall|s: u32|
            s < 32 ==> (#[trigger] bit_at(word_bits(w), s) <==> word_symbols(w).contains(
                s as int,
            )),
        forall|s: int| word_symbols(w).contains(s) ==> 0 <= s < 32,
    decreases w.len(),
{
    if w.len() == 0 {
        assert forall|s: u32| s < 32 implies !#[trigger] bit_at(0u32, s) by {
            lemma_zero_has_no_bit(s);
        }
    } else {
        let init = w.drop_last();
        lemma_word_bits_symbols(init);
        assert forall|s: u32| s < 32 implies (#[trigger] bit_at(word_bits(w), s)
            <==> word_symbols(w).contains(s as int)) by {
            lemma_or_single_bit(word_bits(init), w.last() as u32, s);
            if word_symbols(init).contains(s as int) {
                let i = choose|i: int| 0 <= i < init.len() && init[i] as int == s as int;
                assert(w[i] as int == s as int);
            }
            if s == w.last() as u32 {
                assert(w[w.len() - 1] as int == s as int);
            }
            if word_symbols(w).contains(s as int) {
                let i = choose|i: int| 0 <= i < w.len() && w[i] as int == s as int;
                if i < init.len() {
                    assert(init[i] as int == s as int);
                }
            }
        }
    }
}

/// The charset of a word holds the symbols of the word.
pub proof fn lemma_of_word_symbols(w: Seq<u8>)
    requires
        word_in_alphabet(w),
    ensures
        LowerAsciiCharset::of_word(w)@ == word_symbols(w),
        LowerAsciiCharset::of_word(w)@.finite(),
{
    let c = LowerAsciiCharset::of_word(w);
    lemma_word_bits_symbols(w);
    assert forall|s: int| c@.contains(s) == word_symbols(w).contains(s) by {
        if 0 <= s < 32 {
            assert(bit_at(word_bits(w), s as u32) <==> word_symbols(w).contains(s as u32 as int));
        }
    }
    assert(c@ =~= word_symbols(w));
    lemma_count_below_is_len(c, 32);
    assert(c@ =~= c@.filter(|x: int| x < 32));
}

/// The charset of a word has as many symbols as the word has positions
/// exactly when no symbol occurs twice in the word.
pub proof fn lemma_popcount_distinct(w: Seq<u8>)
    requires
        word_in_alphabet(w),
    ensures
        (LowerAsciiCharset::of_word(w)@.len() == w.len()) <==> w.no_duplicates(),
{
    lemma_of_word_symbols(w);
    let ints = w.map_values(|b: u8| b as int);
    assert(word_symbols(w) =~= ints.to_set()) by {
        assert forall|s: int| word_symbols(w).contains(s) == ints.to_set().contains(s) by {
            if word_symbols(w).contains(s) {
                let i = choose|i: int| 0 <= i < w.len() && w[i] as int == s;
                assert(ints[i] == s);
            }
            if ints.to_set().contains(s) {
                let i = choose|i: int| 0 <= i < ints.len() && ints[i] == s;
                assert(w[i] as int == s);
            }
        }
    }
    if w.no_duplicates() {
        assert(ints.no_duplicates()) by {
            assert forall|i: int, j: int|
                0 <= i < ints.len() && 0 <= j < ints.len() && i != j implies ints[i]
                != ints[j] by {
                assert(w[i] != w[j]);
            }
        }
        ints.unique_seq_to_set();
    }
    if ints.to_set().len() == ints.len() {
        ints.lemma_no_dup_set_cardinality();
        assert forall|i: int, j: int|
            0 <= i < w.len() && 0 <= j < w.len() && i != j implies w[i] != w[j] by {
            assert(ints[i] != ints[j]);
        }
    }
}

/// The symbols below `k` that a charset holds are `count_below(k)` many.
pub proof fn lemma_count_below_is_len(c: LowerAsciiCharset, k: nat)
    ensures
        c@.filter(|x: int| x < k).finite(),
        c@.filter(|x: int| x < k).len() == c.count_below(k),
    decreases k,
{
    let below = c@.filter(|x: int| x < k);
    if k == 0 {
        assert(below =~= Set::<int>::empty());
    } else {
        let prev = c@.filter(|x: int| x < (k - 1) as nat);
        lemma_count_below_is_len(c, (k - 1) as nat);
        if c.has(k - 1) {
            assert(below =~= prev.insert(k - 1));
        } else {
            assert(below =~= prev);
        }
    }
}

} // verus!
