//! The order of words and of sentences: lexicographic, as `std` orders arrays
//! and slices, with the proofs that it is a total order.

use vstd::prelude::*;
use vstd::relations::{sorted_by, strict_total_ordering, total_ordering};

verus! {

/// Lexicographic order of sequences over a strict order `lt` of the items: the
/// first position at which the two differ decides, and a prefix comes first.
pub open spec fn lex_le<T>(a: Seq<T>, b: Seq<T>, lt: spec_fn(T, T) -> bool) -> bool
    decreases a.len(),
{
    if a.len() == 0 {
        true
    } else if b.len() == 0 {
        false
    } else if lt(a[0], b[0]) {
        true
    } else if lt(b[0], a[0]) {
        false
    } else {
        lex_le(a.skip(1), b.skip(1), lt)
    }
}

pub proof fn lemma_lex_reflexive<T>(a: Seq<T>, lt: spec_fn(T, T) -> bool)
    requires
        strict_total_ordering(lt),
    ensures
        lex_le(a, a, lt),
    decreases a.len(),
{
    if a.len() > 0 {
        lemma_lex_reflexive(a.skip(1), lt);
    }
}

pub proof fn lemma_lex_antisymmetric<T>(a: Seq<T>, b: Seq<T>, lt: spec_fn(T, T) -> bool)
    requires
        strict_total_ordering(lt),
        lex_le(a, b, lt),
        lex_le(b, a, lt),
    ensures
        a == b,
    decreases a.len(),
{
    if a.len() == 0 || b.len() == 0 {
        assert(a =~= b);
    } else {
        if lt(a[0], b[0]) && lt(b[0], a[0]) {
            assert(a[0] == b[0]);
        }
        assert(a[0] == b[0]);
        lemma_lex_antisymmetric(a.skip(1), b.skip(1), lt);
        assert(a =~= seq![a[0]] + a.skip(1));
        assert(b =~= seq![b[0]] + b.skip(1));
    }
}

pub proof fn lemma_lex_transitive<T>(a: Seq<T>, b: Seq<T>, c: Seq<T>, lt: spec_fn(T, T) -> bool)
    requires
        strict_total_ordering(lt),
        lex_le(a, b, lt),
        lex_le(b, c, lt),
    ensures
        lex_le(a, c, lt),
    decreases a.len(),
{
    if a.len() > 0 {
        assert(b.len() > 0);
        assert(c.len() > 0);
        if lt(a[0], b[0]) {
            if lt(b[0], c[0]) {
                assert(lt(a[0], c[0]));
            } else {
                assert(b[0] == c[0]);
            }
        } else {
            assert(a[0] == b[0]);
            if lt(b[0], c[0]) {
            } else {
                assert(b[0] == c[0]);
                lemma_lex_transitive(a.skip(1), b.skip(1), c.skip(1), lt);
            }
        }
    }
}

pub proof fn lemma_lex_connected<T>(a: Seq<T>, b: Seq<T>, lt: spec_fn(T, T) -> bool)
    requires
        strict_total_ordering(lt),
    ensures
        lex_le(a, b, lt) || lex_le(b, a, lt),
    decreases a.len(),
{
    if a.len() > 0 && b.len() > 0 {
        lemma_lex_connected(a.skip(1), b.skip(1), lt);
    }
}

/// Lexicographic order over a strict total order is a total order.
pub proof fn lemma_lex_total_ordering<T>(lt: spec_fn(T, T) -> bool)
    requires
        strict_total_ordering(lt),
    ensures
        total_ordering(|a: Seq<T>, b: Seq<T>| lex_le(a, b, lt)),
{
    let leq = |a: Seq<T>, b: Seq<T>| lex_le(a, b, lt);
    assert forall|a: Seq<T>| #[trigger] leq(a, a) by {
        lemma_lex_reflexive(a, lt);
    }
    assert forall|a: Seq<T>, b: Seq<T>| #[trigger] leq(a, b) && #[trigger] leq(b, a) implies a
        == b by {
        lemma_lex_antisymmetric(a, b, lt);
    }
    assert forall|a: Seq<T>, b: Seq<T>, c: Seq<T>| #[trigger]
        leq(a, b) && #[trigger] leq(b, c) implies leq(a, c) by {
        lemma_lex_transitive(a, b, c, lt);
    }
    assert forall|a: Seq<T>, b: Seq<T>| #[trigger] leq(a, b) || #[trigger] leq(b, a) by {
        lemma_lex_connected(a, b, lt);
    }
}

/// The order of symbols.
pub open spec fn byte_lt() -> spec_fn(u8, u8) -> bool {
    |x: u8, y: u8| x < y
}

pub proof fn lemma_byte_lt_strict_total()
    ensures
        strict_total_ordering(byte_lt()),
{
}

/// Whether word `a` comes before word `b` or is `b`.
pub open spec fn word_le<const L: usize>(a: [u8; L], b: [u8; L]) -> bool {
    lex_le(a@, b@, byte_lt())
}

/// Whether word `a` comes before word `b`.
pub open spec fn word_lt<const L: usize>(a: [u8; L], b: [u8; L]) -> bool {
    word_le(a, b) && a != b
}

/// The order of words, as a relation.
pub open spec fn word_order<const L: usize>() -> spec_fn([u8; L], [u8; L]) -> bool {
    |a: [u8; L], b: [u8; L]| word_le(a, b)
}

/// The strict order of words, as a relation.
pub open spec fn word_strict_order<const L: usize>() -> spec_fn([u8; L], [u8; L]) -> bool {
    |a: [u8; L], b: [u8; L]| word_lt(a, b)
}

/// Two words with the same symbols are the same word.
pub proof fn lemma_word_by_symbols<const L: usize>(a: [u8; L], b: [u8; L])
    requires
        a@ == b@,
    ensures
        a == b,
{
    assert(a =~= b);
}

pub proof fn lemma_word_order_total<const L: usize>()
    ensures
        total_ordering(word_order::<L>()),
        strict_total_ordering(word_strict_order::<L>()),
{
    let lt = byte_lt();
    let leq = word_order::<L>();
    let strict = word_strict_order::<L>();
    lemma_byte_lt_strict_total();
    assert forall|a: [u8; L]| #[trigger] leq(a, a) by {
        lemma_lex_reflexive(a@, lt);
    }
    assert forall|a: [u8; L], b: [u8; L]| #[trigger] leq(a, b) && #[trigger] leq(b, a) implies a
        == b by {
        lemma_lex_antisymmetric(a@, b@, lt);
        lemma_word_by_symbols(a, b);
    }
    assert forall|a: [u8; L], b: [u8; L], c: [u8; L]| #[trigger]
        leq(a, b) && #[trigger] leq(b, c) implies leq(a, c) by {
        lemma_lex_transitive(a@, b@, c@, lt);
    }
    assert forall|a: [u8; L], b: [u8; L]| #[trigger] leq(a, b) || #[trigger] leq(b, a) by {
        lemma_lex_connected(a@, b@, lt);
    }
    assert forall|a: [u8; L], b: [u8; L]| #[trigger] strict(a, b) && #[trigger] strict(b, a) implies a
        == b by {
        assert(leq(a, b) && leq(b, a));
    }
    assert forall|a: [u8; L], b: [u8; L], c: [u8; L]| #[trigger]
        strict(a, b) && #[trigger] strict(b, c) implies strict(a, c) by {
        assert(leq(a, b) && leq(b, c));
        assert(leq(a, c));
        if a == c {
            assert(leq(b, a));
        }
    }
    assert forall|a: [u8; L], b: [u8; L]| a != b implies #[trigger] strict(a, b) || #[trigger] strict(b, a) by {
        assert(leq(a, b) || leq(b, a));
    }
}

/// Whether sentence `a` comes before sentence `b` or is `b`: by their first
/// words, then by their second, and so on.
pub open spec fn sentence_le<const L: usize>(a: Seq<[u8; L]>, b: Seq<[u8; L]>) -> bool {
    lex_le(a, b, word_strict_order::<L>())
}

/// The order of sentences, as a relation.
pub open spec fn sentence_order<const L: usize>() -> spec_fn(Seq<[u8; L]>, Seq<[u8; L]>) -> bool {
    |a: Seq<[u8; L]>, b: Seq<[u8; L]>| sentence_le(a, b)
}

pub proof fn lemma_sentence_order_total<const L: usize>()
    ensures
        total_ordering(sentence_order::<L>()),
{
    lemma_word_order_total::<L>();
    let lt = word_strict_order::<L>();
    lemma_lex_total_ordering(lt);
    assert(sentence_order::<L>() =~= (|a: Seq<[u8; L]>, b: Seq<[u8; L]>| lex_le(a, b, lt)));
}

/// A list in ascending order is determined by what it holds: two sorted lists
/// of the same items, each as often in the one as in the other, are the same
/// list.
pub proof fn lemma_sorted_lists_equal<T>(x: Seq<T>, y: Seq<T>, leq: spec_fn(T, T) -> bool)
    requires
        total_ordering(leq),
        sorted_by(x, leq),
        sorted_by(y, leq),
        x.to_multiset() == y.to_multiset(),
    ensures
        x == y,
{
    vstd::seq_lib::lemma_sorted_unique(x, y, leq);
}

/// Lists that hold the same items, each as often in the one as in the other,
/// still do so after a function is applied to every item.
pub proof fn lemma_map_multiset<A, B>(a: Seq<A>, b: Seq<A>, f: spec_fn(A) -> B)
    requires
        a.to_multiset() == b.to_multiset(),
    ensures
        a.map_values(f).to_multiset() == b.map_values(f).to_multiset(),
    decreases a.len(),
{
    a.to_multiset_ensures();
    b.to_multiset_ensures();
    if a.len() == 0 {
        assert(b.len() == 0);
        assert(a.map_values(f) =~= b.map_values(f));
    } else {
        let x = a.last();
        assert(a.contains(x)) by {
            assert(a[a.len() - 1] == x);
        }
        assert(b.to_multiset().count(x) > 0);
        assert(b.contains(x));
        let i = choose|i: int| 0 <= i < b.len() && b[i] == x;
        let a0 = a.drop_last();
        let b0 = b.remove(i);
        assert(a0 =~= a.remove(a.len() - 1));
        assert(a0.to_multiset() =~= b0.to_multiset());
        lemma_map_multiset(a0, b0, f);
        let ma = a.map_values(f);
        let mb = b.map_values(f);
        ma.to_multiset_ensures();
        mb.to_multiset_ensures();
        assert(ma.remove(ma.len() - 1) =~= a0.map_values(f));
        assert(mb.remove(i) =~= b0.map_values(f));
        assert(ma[ma.len() - 1] == f(x));
        assert(mb[i] == f(x));
        assert(ma.to_multiset() =~= ma.remove(ma.len() - 1).to_multiset().insert(f(x))) by {
            assert(ma.to_multiset().count(f(x)) > 0) by {
                assert(ma.contains(ma[ma.len() - 1]));
            }
        }
        assert(mb.to_multiset() =~= mb.remove(i).to_multiset().insert(f(x))) by {
            assert(mb.to_multiset().count(f(x)) > 0) by {
                assert(mb.contains(mb[i]));
            }
        }
    }
}

/// What a filter leaves of a list in ascending order is in ascending order.
pub proof fn lemma_filter_sorted<T>(list: Seq<T>, pred: spec_fn(T) -> bool, leq: spec_fn(T, T) -> bool)
    requires
        sorted_by(list, leq),
    ensures
        sorted_by(list.filter(pred), leq),
    decreases list.len(),
{
    reveal(Seq::filter);
    if list.len() > 0 {
        let init = list.drop_last();
        let last = list.last();
        let kept = init.filter(pred);
        assert(sorted_by(init, leq)) by {
            assert forall|i: int, j: int| 0 <= i < j < init.len() implies #[trigger] leq(
                init[i],
                init[j],
            ) by {
                assert(leq(list[i], list[j]));
            }
        }
        lemma_filter_sorted(init, pred, leq);
        if pred(last) {
            let now = kept.push(last);
            assert forall|i: int, j: int| 0 <= i < j < now.len() implies #[trigger] leq(
                now[i],
                now[j],
            ) by {
                if j < kept.len() {
                    assert(leq(kept[i], kept[j]));
                } else {
                    assert(kept.contains(kept[i]));
                    init.lemma_filter_contains_rev(pred, kept[i]);
                    let at = choose|at: int| 0 <= at < init.len() && init[at] == kept[i];
                    assert(leq(list[at], list[list.len() - 1]));
                }
            }
        }
    }
}

} // verus!
