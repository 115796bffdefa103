//! Sentences: up to `N` words in a fixed array with a count, as words of `L`
//! symbols ([`Sentence`]) or as their charsets with the union of them
//! ([`CharsetSentence`]).

use vstd::prelude::*;
use crate::adaptors::{join_strings, string_views};
use crate::charset::LowerAsciiCharset;

verus! {

/// The byte of `'a'`, which stands for symbol 0 when a word is shown.
pub const FIRST_LETTER: u8 = 97;

/// The character that shows symbol `b`.
pub open spec fn letter(b: u8) -> char {
    (b + FIRST_LETTER) as u8 as char
}

/// Every symbol of `w` is shown as one ASCII character.
pub open spec fn showable(w: Seq<u8>) -> bool {
    forall|i: int| 0 <= i < w.len() ==> w[i] + FIRST_LETTER < 128
}

/// The characters that show the word `w`.
pub open spec fn show_spec(w: Seq<u8>) -> Seq<char> {
    w.map_values(|b: u8| letter(b))
}

/// `parts` one after the other, with `sep` between each two.
pub open spec fn joined(parts: Seq<Seq<char>>, sep: Seq<char>) -> Seq<char>
    decreases parts.len(),
{
    if parts.len() == 0 {
        Seq::empty()
    } else if parts.len() == 1 {
        parts[0]
    } else {
        joined(parts.drop_last(), sep) + sep + parts.last()
    }
}

/// Parts of one length `l`, joined: the length of the whole.
pub proof fn lemma_joined_len(parts: Seq<Seq<char>>, sep: Seq<char>, l: int)
    requires
        parts.len() >= 1,
        forall|i: int| 0 <= i < parts.len() ==> (#[trigger] parts[i]).len() == l,
    ensures
        joined(parts, sep).len() == parts.len() * l + (parts.len() - 1) * sep.len(),
    decreases parts.len(),
{
    let n = parts.len() as int;
    let s = sep.len() as int;
    if n == 1 {
        assert(1 * l + 0 * s == l) by (nonlinear_arith);
    } else {
        let init = parts.drop_last();
        assert forall|i: int| 0 <= i < init.len() implies (#[trigger] init[i]).len() == l by {
            assert(init[i] == parts[i]);
        }
        lemma_joined_len(init, sep, l);
        assert(parts[n - 1].len() == l);
        assert((n - 1) * l + (n - 2) * s + s + l == n * l + (n - 1) * s) by (nonlinear_arith);
    }
}

/// Parts of one length `l`, joined: where the characters of a part stand.
pub proof fn lemma_joined_index(parts: Seq<Seq<char>>, sep: Seq<char>, l: int, t: int, p: int)
    requires
        forall|i: int| 0 <= i < parts.len() ==> (#[trigger] parts[i]).len() == l,
        0 <= t < parts.len(),
        0 <= p < l,
    ensures
        0 <= t * (l + sep.len()) + p < joined(parts, sep).len(),
        joined(parts, sep)[t * (l + sep.len()) + p] == parts[t][p],
    decreases parts.len(),
{
    let n = parts.len() as int;
    let s = sep.len() as int;
    lemma_joined_len(parts, sep, l);
    assert(0 <= t * (l + s)) by (nonlinear_arith)
        requires
            0 <= t,
            0 <= l,
            0 <= s,
    ;
    if n == 1 {
        assert(0 * (l + s) == 0) by (nonlinear_arith);
    } else {
        let init = parts.drop_last();
        assert forall|i: int| 0 <= i < init.len() implies (#[trigger] init[i]).len() == l by {
            assert(init[i] == parts[i]);
        }
        lemma_joined_len(init, sep, l);
        let front = joined(init, sep);
        assert(front.len() + s == (n - 1) * (l + s)) by (nonlinear_arith)
            requires
                front.len() == (n - 1) * l + (n - 2) * s,
        ;
        if t < n - 1 {
            lemma_joined_index(init, sep, l, t, p);
            assert(init[t] == parts[t]);
        } else {
            assert(parts[n - 1].len() == l);
            assert(joined(parts, sep)[front.len() + s + p] == parts[n - 1][p]);
        }
    }
}

/// Two words that are shown alike are the same word.
pub proof fn lemma_show_tells_apart(a: Seq<u8>, b: Seq<u8>)
    requires
        showable(a),
        showable(b),
        show_spec(a) == show_spec(b),
    ensures
        a == b,
{
    assert(a.len() == show_spec(a).len() && b.len() == show_spec(b).len());
    assert forall|i: int| 0 <= i < a.len() implies a[i] == b[i] by {
        assert(show_spec(a)[i] == letter(a[i]));
        assert(show_spec(b)[i] == letter(b[i]));
    }
    assert(a =~= b);
}

/// The words of a sentence in letters.
pub open spec fn shown_words<const L: usize>(words: Seq<[u8; L]>) -> Seq<Seq<char>> {
    words.map_values(|w: [u8; L]| show_spec(w@))
}

/// A sentence in letters: its words, separated by one space.
pub open spec fn line_spec<const L: usize>(words: Seq<[u8; L]>) -> Seq<char> {
    joined(shown_words(words), seq![' '])
}

/// How long the line of a sentence is: the letters of its words and one
/// space between each two.
pub proof fn lemma_line_len<const L: usize>(words: Seq<[u8; L]>)
    ensures
        words.len() == 0 ==> line_spec(words).len() == 0,
        words.len() >= 1 ==> line_spec(words).len() == words.len() * L + (words.len() - 1),
{
    if words.len() >= 1 {
        assert forall|i: int| 0 <= i < shown_words(words).len() implies (#[trigger] shown_words(
            words,
        )[i]).len() == L by {
            assert(words[i]@.len() == L);
        }
        lemma_joined_len(shown_words(words), seq![' '], L as int);
        assert((words.len() - 1) * 1 == words.len() - 1) by (nonlinear_arith);
    }
}

/// Two sentences that give the same line are the same sentence: the line
/// tells of every word, so sorted lists of sentences that differ give lists
/// of lines that differ.
pub proof fn lemma_lines_tell_apart<const L: usize>(a: Seq<[u8; L]>, b: Seq<[u8; L]>)
    requires
        L >= 1,
        forall|i: int| 0 <= i < a.len() ==> showable(#[trigger] a[i]@),
        forall|i: int| 0 <= i < b.len() ==> showable(#[trigger] b[i]@),
        line_spec(a) == line_spec(b),
    ensures
        a == b,
{
    lemma_line_len(a);
    lemma_line_len(b);
    let na = a.len() as int;
    let nb = b.len() as int;
    let l = L as int;
    assert(na == nb) by (nonlinear_arith)
        requires
            l >= 1,
            na >= 0,
            nb >= 0,
            na == 0 ==> line_spec(a).len() == 0,
            nb == 0 ==> line_spec(b).len() == 0,
            na >= 1 ==> line_spec(a).len() == na * l + (na - 1),
            nb >= 1 ==> line_spec(b).len() == nb * l + (nb - 1),
            line_spec(a).len() == line_spec(b).len(),
    ;
    assert forall|t: int| 0 <= t < na implies a[t] == b[t] by {
        let sa = shown_words(a);
        let sb = shown_words(b);
        assert forall|i: int| 0 <= i < sa.len() implies (#[trigger] sa[i]).len() == L by {
            assert(a[i]@.len() == L);
        }
        assert forall|i: int| 0 <= i < sb.len() implies (#[trigger] sb[i]).len() == L by {
            assert(b[i]@.len() == L);
        }
        assert(sa[t].len() == L && sb[t].len() == L);
        assert forall|p: int| 0 <= p < L implies sa[t][p] == sb[t][p] by {
            lemma_joined_index(sa, seq![' '], l, t, p);
            lemma_joined_index(sb, seq![' '], l, t, p);
        }
        assert(sa[t] =~= sb[t]);
        lemma_show_tells_apart(a[t]@, b[t]@);
        assert(a[t] =~= b[t]);
    }
    assert(a =~= b);
}

/// The characters of a list of bytes, one for one.
pub open spec fn ascii_chars(bytes: Seq<u8>) -> Seq<char> {
    bytes.map_values(|b: u8| b as char)
}

/// `String::from_utf8_lossy` on ASCII bytes, made an owned string. It keeps
/// valid UTF-8 as it is, and each ASCII byte is one character of valid UTF-8:
/// the string has the characters of the bytes, one for one.
#[verifier::external_body]
pub(crate) fn ascii_to_string(bytes: &[u8]) -> (s: String)
    requires
        forall|i: int| 0 <= i < bytes@.len() ==> bytes@[i] < 128,
    ensures
        s@ == ascii_chars(bytes@),
{
    String::from_utf8_lossy(bytes).into_owned()
}

/// The word `w` in letters: symbol 0 as `a`, symbol 1 as `b`, and so on.
pub fn show<const L: usize>(w: [u8; L]) -> (s: String)
    requires
        showable(w@),
    ensures
        s@ == show_spec(w@),
{
    let mut bytes = w;
    let mut i: usize = 0;
    while i < L
        invariant
            i <= L,
            showable(w@),
            bytes@.len() == L,
            w@.len() == L,
            forall|j: int| 0 <= j < i ==> bytes@[j] == w@[j] + FIRST_LETTER,
            forall|j: int| i <= j < L ==> bytes@[j] == w@[j],
        decreases L - i,
    {
        bytes[i] = bytes[i] + FIRST_LETTER;
        i += 1;
    }
    let s = ascii_to_string(bytes.as_slice());
    assert(s@ =~= show_spec(w@));
    s
}

/// Up to `N` words of `L` symbols each.
#[derive(Clone, Copy, PartialEq, Eq, PartialOrd, Ord, Hash, Debug)]
pub struct Sentence<const L: usize, const N: usize> {
    pub(crate) words: [Option<[u8; L]>; N],
    pub(crate) len: u8,
}

impl<const L: usize, const N: usize> View for Sentence<L, N> {
    type V = Seq<[u8; L]>;

    /// The words added so far, in the order in which they were added.
    closed spec fn view(&self) -> Seq<[u8; L]> {
        Seq::new(self.len as nat, |i: int| self.words@[i].unwrap())
    }
}

impl<const L: usize, const N: usize> Sentence<L, N> {
    /// The first `len` slots hold the words, the others none.
    pub closed spec fn wf(self) -> bool {
        &&& N <= u8::MAX
        &&& self.len <= N
        &&& forall|i: int| 0 <= i < self.len ==> self.words@[i] is Some
        &&& forall|i: int| self.len <= i < N ==> self.words@[i] is None
    }

    /// A well-formed sentence holds at most `N` words, and `N` fits the count.
    pub proof fn lemma_wf(self)
        requires
            self.wf(),
        ensures
            self@.len() <= N,
            N <= u8::MAX,
    {
    }

    /// Well-formed sentences with the same words are the same sentence.
    pub proof fn lemma_by_view(self, other: Self)
        requires
            self.wf(),
            other.wf(),
            self@ == other@,
        ensures
            self == other,
    {
        assert(self@.len() == self.len as nat);
        assert(other@.len() == other.len as nat);
        assert forall|i: int| 0 <= i < N implies self.words@[i] == other.words@[i] by {
            if i < self.len {
                assert(self@[i] == other@[i]);
                assert(self.words@[i] is Some && other.words@[i] is Some);
            }
        }
        assert(self.words =~= other.words);
    }

    /// The sentence without words. The count is a byte, so `N` is at most 255.
    pub fn new() -> (s: Self)
        requires
            N <= u8::MAX,
        ensures
            s.wf(),
            s@ == Seq::<[u8; L]>::empty(),
    {
        let s = Sentence { len: 0, words: [None; N] };
        assert(s@ =~= Seq::<[u8; L]>::empty());
        s
    }

    /// Adds `w` behind the words that are there.
    pub fn add(&mut self, w: [u8; L])
        requires
            old(self).wf(),
            old(self)@.len() < N,
        ensures
            final(self).wf(),
            final(self)@ == old(self)@.push(w),
    {
        self.words[self.len as usize] = Some(w);
        self.len += 1;
        assert(self@ =~= old(self)@.push(w));
    }

    /// The sentence of `words`, in their order.
    pub fn from_words(words: &Vec<[u8; L]>) -> (s: Self)
        requires
            N <= u8::MAX,
            words@.len() <= N,
        ensures
            s.wf(),
            s@ == words@,
    {
        let mut out = Self::new();
        let mut i: usize = 0;
        while i < words.len()
            invariant
                i <= words@.len(),
                words@.len() <= N,
                out.wf(),
                out@ == words@.take(i as int),
            decreases words@.len() - i,
        {
            out.add(words[i]);
            assert(words@.take(i + 1) =~= words@.take(i as int).push(words@[i as int]));
            i += 1;
        }
        assert(words@.take(words@.len() as int) =~= words@);
        out
    }

    /// The sentence in letters, its words separated by one space.
    pub fn as_string(&self) -> (s: String)
        requires
            self.wf(),
            forall|i: int| 0 <= i < self@.len() ==> showable(#[trigger] self@[i]@),
        ensures
            s@ == line_spec(self@),
            self@.len() >= 1 ==> s@.len() == self@.len() * L + (self@.len() - 1),
    {
        proof {
            lemma_line_len(self@);
        }
        let mut parts: Vec<String> = Vec::new();
        let mut i: usize = 0;
        while i < self.len as usize
            invariant
                i <= self.len,
                self.wf(),
                forall|i: int| 0 <= i < self@.len() ==> showable(#[trigger] self@[i]@),
                parts@.len() == i,
                forall|j: int| 0 <= j < i ==> (#[trigger] parts@[j])@ == show_spec(self@[j]@),
            decreases self.len - i,
        {
            match self.words[i] {
                Some(w) => {
                    assert(self@[i as int] == w);
                    parts.push(show(w));
                },
                None => {},
            }
            i += 1;
        }
        let sep = " ";
        proof {
            reveal_strlit(" ");
            assert(sep@ =~= seq![' ']);
            assert(string_views(parts@) =~= self@.map_values(|w: [u8; L]| show_spec(w@)));
        }
        join_strings(&parts, sep)
    }

    /// How many words the sentence holds.
    pub fn len(&self) -> (n: usize)
        requires
            self.wf(),
        ensures
            n == self@.len(),
    {
        self.len as usize
    }

    /// The word at position `i`.
    pub fn word(&self, i: usize) -> (w: [u8; L])
        requires
            self.wf(),
            i < self@.len(),
        ensures
            w == self@[i as int],
    {
        match self.words[i] {
            Some(w) => w,
            None => [0; L],
        }
    }
}

/// Up to `N` charsets, with the union of them.
#[derive(Clone, Copy, PartialEq, Eq, PartialOrd, Ord, Hash, Debug)]
pub struct CharsetSentence<const N: usize> {
    words: [LowerAsciiCharset; N],
    len: u8,
    charset: LowerAsciiCharset,
}

/// The mask of all the symbols of `words`.
pub open spec fn union_bits(words: Seq<LowerAsciiCharset>) -> u32
    decreases words.len(),
{
    if words.len() == 0 {
        0
    } else {
        union_bits(words.drop_last()) | words.last().bits()
    }
}

impl<const N: usize> View for CharsetSentence<N> {
    type V = Seq<LowerAsciiCharset>;

    /// The charsets added so far, in the order in which they were added.
    closed spec fn view(&self) -> Seq<LowerAsciiCharset> {
        self.words@.take(self.len as int)
    }
}

impl<const N: usize> CharsetSentence<N> {
    /// The count is within the array, and the aggregate charset is the union
    /// of the charsets counted.
    pub closed spec fn wf(self) -> bool {
        &&& N <= u8::MAX
        &&& self.len <= N
        &&& self.charset.bits() == union_bits(self@)
    }

    /// The union of the charsets in the sentence.
    pub closed spec fn aggregate(self) -> LowerAsciiCharset {
        self.charset
    }

    pub proof fn lemma_wf(self)
        requires
            self.wf(),
        ensures
            self@.len() <= N,
            N <= u8::MAX,
            self.aggregate().bits() == union_bits(self@),
    {
    }

    /// The sentence without words. The count is a byte, so `N` is at most 255.
    pub fn new() -> (s: Self)
        requires
            N <= u8::MAX,
        ensures
            s.wf(),
            s@ == Seq::<LowerAsciiCharset>::empty(),
    {
        let s = CharsetSentence {
            len: 0,
            words: [LowerAsciiCharset::default(); N],
            charset: LowerAsciiCharset::default(),
        };
        assert(s@ =~= Seq::<LowerAsciiCharset>::empty());
        s
    }

    /// Adds `c` behind the charsets that are there, and to the aggregate.
    pub fn add(&mut self, c: LowerAsciiCharset)
        requires
            old(self).wf(),
            old(self)@.len() < N,
        ensures
            final(self).wf(),
            final(self)@ == old(self)@.push(c),
            final(self).aggregate().bits() == old(self).aggregate().bits() | c.bits(),
    {
        self.words[self.len as usize] = c;
        self.len += 1;
        self.charset.union(c);
        assert(self@ =~= old(self)@.push(c));
        assert(self@.drop_last() =~= old(self)@);
    }

    /// How many charsets the sentence holds.
    pub fn len(&self) -> (n: usize)
        requires
            self.wf(),
        ensures
            n == self@.len(),
    {
        self.len as usize
    }

    /// The charset at position `i`.
    pub fn word(&self, i: usize) -> (c: LowerAsciiCharset)
        requires
            self.wf(),
            i < self@.len(),
        ensures
            c == self@[i as int],
    {
        self.words[i]
    }

    /// The union of the charsets in the sentence.
    pub fn charset(&self) -> (c: LowerAsciiCharset)
        requires
            self.wf(),
        ensures
            c == self.aggregate(),
            c.bits() == union_bits(self@),
    {
        self.charset
    }
}

} // verus!
