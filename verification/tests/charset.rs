use fivewords::charset::LowerAsciiCharset;
use fivewords::groups::distinct_letters;

fn word(s: &str) -> [u8; 5] {
    let b = s.as_bytes();
    [b[0] - b'a', b[1] - b'a', b[2] - b'a', b[3] - b'a', b[4] - b'a']
}

#[test]
fn from_word_sets_one_bit_per_letter() {
    let c = LowerAsciiCharset::from_word([0u8, 1, 2, 3, 4]);
    assert_eq!(c.bits_value(), 0b11111);
    let z = LowerAsciiCharset::from_word([25u8, 0]);
    assert_eq!(z.bits_value(), (1 << 25) | 1);
    let top = LowerAsciiCharset::from_word([31u8]);
    assert_eq!(top.bits_value(), 1 << 31);
}

#[test]
fn from_word_of_no_letters_is_empty() {
    let c = LowerAsciiCharset::from_word([0u8; 0]);
    assert_eq!(c.bits_value(), 0);
    assert_eq!(c, LowerAsciiCharset::default());
}

#[test]
fn from_word_ignores_order_and_repeats() {
    assert_eq!(
        LowerAsciiCharset::from_word(word("waltz")),
        LowerAsciiCharset::from_word(word("ztlaw"))
    );
    assert_eq!(
        LowerAsciiCharset::from_word([1u8, 1, 2]).bits_value(),
        LowerAsciiCharset::from_word([2u8, 1, 1]).bits_value()
    );
}

#[test]
fn popcount_is_word_length_iff_letters_distinct() {
    for w in ["fjord", "gucks", "nymph", "vibex", "waltz"] {
        assert_eq!(LowerAsciiCharset::from_word(word(w)).popcount(), 5);
        assert!(distinct_letters(word(w)));
    }
    for (w, n) in [("hello", 4), ("aaaaa", 1), ("abcda", 4), ("zzzzy", 2)] {
        assert_eq!(LowerAsciiCharset::from_word(word(w)).popcount(), n);
        assert!(!distinct_letters(word(w)));
    }
}

#[test]
fn popcount_of_masks() {
    assert_eq!(LowerAsciiCharset::from_bits(0).popcount(), 0);
    assert_eq!(LowerAsciiCharset::from_bits(u32::MAX).popcount(), 32);
    assert_eq!(LowerAsciiCharset::from_bits(0x8000_0001).popcount(), 2);
}

#[test]
fn intersects_is_symmetric() {
    let masks = [0u32, 1, 2, 3, 0b1010, 0b0101, 1 << 31, u32::MAX];
    for a in masks {
        for b in masks {
            let ca = LowerAsciiCharset::from_bits(a);
            let cb = LowerAsciiCharset::from_bits(b);
            assert_eq!(ca.intersects(cb), cb.intersects(ca));
            assert_eq!(ca.intersects(cb), a & b != 0);
        }
    }
}

#[test]
fn intersects_self_unless_empty() {
    for a in [0u32, 1, 6, 1 << 25, u32::MAX] {
        let c = LowerAsciiCharset::from_bits(a);
        assert_eq!(c.intersects(c), a != 0);
    }
    assert!(!LowerAsciiCharset::default().intersects(LowerAsciiCharset::default()));
}

#[test]
fn words_that_share_a_letter_intersect() {
    let fjord = LowerAsciiCharset::from_word(word("fjord"));
    let waltz = LowerAsciiCharset::from_word(word("waltz"));
    let world = LowerAsciiCharset::from_word(word("world"));
    assert!(!fjord.intersects(waltz));
    assert!(fjord.intersects(world));
    assert!(waltz.intersects(world));
}

#[test]
fn union_is_bitwise_or() {
    let mut c = LowerAsciiCharset::from_bits(0b0011);
    c.union(LowerAsciiCharset::from_bits(0b0110));
    assert_eq!(c.bits_value(), 0b0111);
    c.union(LowerAsciiCharset::default());
    assert_eq!(c.bits_value(), 0b0111);
    let mut e = LowerAsciiCharset::default();
    e.union(LowerAsciiCharset::from_word(word("nymph")));
    assert_eq!(e, LowerAsciiCharset::from_word(word("nymph")));
}

#[test]
fn charsets_order_by_mask() {
    let a = LowerAsciiCharset::from_bits(5);
    let b = LowerAsciiCharset::from_bits(6);
    assert!(a < b);
    assert!(a.bits_value() < b.bits_value());
    assert_eq!(a, LowerAsciiCharset::from_bits(5));
}

#[test]
fn distinct_letters_edge_cases() {
    assert!(distinct_letters([0u8; 0]));
    assert!(distinct_letters([7u8]));
    assert!(distinct_letters([63u8, 0, 62]));
    assert!(!distinct_letters([63u8, 0, 63]));
    assert!(!distinct_letters([3u8, 3]));
}
