use fivewords::charset::LowerAsciiCharset;
use fivewords::sentence::{show, CharsetSentence, Sentence};

#[test]
fn show_restores_letters() {
    assert_eq!(show([0u8, 1, 2, 3, 4]), "abcde");
    assert_eq!(show([25u8, 24, 0]), "zya");
    assert_eq!(show([0u8; 0]), "");
    assert_eq!(show([30u8]), "\u{7f}");
}

#[test]
fn sentence_grows_by_one_word() {
    let mut s = Sentence::<2, 3>::new();
    assert_eq!(s.len(), 0);
    assert_eq!(s.as_string(), "");
    s.add([0, 1]);
    assert_eq!(s.len(), 1);
    assert_eq!(s.word(0), [0, 1]);
    assert_eq!(s.as_string(), "ab");
    s.add([2, 3]);
    s.add([4, 5]);
    assert_eq!(s.len(), 3);
    assert_eq!(s.word(2), [4, 5]);
    assert_eq!(s.as_string(), "ab cd ef");
}

#[test]
fn sentence_from_words_keeps_order() {
    let s = Sentence::<2, 2>::from_words(&vec![[2, 3], [0, 1]]);
    assert_eq!(s.as_string(), "cd ab");
    let mut t = Sentence::<2, 2>::new();
    t.add([2, 3]);
    t.add([0, 1]);
    assert_eq!(s, t);
    let e = Sentence::<2, 2>::from_words(&Vec::new());
    assert_eq!(e, Sentence::<2, 2>::new());
}

#[test]
fn sentences_order_by_their_words() {
    let a = Sentence::<2, 2>::from_words(&vec![[0, 1], [2, 3]]);
    let b = Sentence::<2, 2>::from_words(&vec![[0, 1], [3, 2]]);
    let c = Sentence::<2, 2>::from_words(&vec![[1, 0], [2, 3]]);
    assert!(a < b);
    assert!(b < c);
    let short = Sentence::<2, 2>::from_words(&vec![[0, 1]]);
    assert!(short < a);
}

#[test]
fn charset_sentence_keeps_the_union() {
    let mut s = CharsetSentence::<5>::new();
    assert_eq!(s.len(), 0);
    assert_eq!(s.charset(), LowerAsciiCharset::default());
    s.add(LowerAsciiCharset::from_bits(0b0011));
    assert_eq!(s.charset().bits_value(), 0b0011);
    s.add(LowerAsciiCharset::from_bits(0b1100));
    s.add(LowerAsciiCharset::from_bits(0b110000));
    assert_eq!(s.len(), 3);
    assert_eq!(s.charset().bits_value(), 0b111111);
    assert_eq!(s.word(1).bits_value(), 0b1100);
}

#[test]
fn copies_of_a_sentence_do_not_share() {
    let mut a = CharsetSentence::<3>::new();
    a.add(LowerAsciiCharset::from_bits(1));
    let mut b = a;
    b.add(LowerAsciiCharset::from_bits(2));
    assert_eq!(a.len(), 1);
    assert_eq!(b.len(), 2);
    assert_eq!(a.charset().bits_value(), 1);
    assert_eq!(b.charset().bits_value(), 3);
}

#[test]
fn sentence_can_fill_its_capacity() {
    let mut s = CharsetSentence::<2>::new();
    s.add(LowerAsciiCharset::from_bits(1));
    s.add(LowerAsciiCharset::from_bits(2));
    assert_eq!(s.len(), 2);
    let mut big = Sentence::<1, 255>::new();
    for i in 0..255u32 {
        big.add([(i % 26) as u8]);
    }
    assert_eq!(big.len(), 255);
}

#[test]
fn line_has_the_letters_and_one_space_between_words() {
    let mut s = Sentence::<5, 5>::new();
    for (i, w) in ["fjord", "gucks", "nymph", "vibex", "waltz"].iter().enumerate() {
        let b = w.as_bytes();
        s.add([b[0] - b'a', b[1] - b'a', b[2] - b'a', b[3] - b'a', b[4] - b'a']);
        assert_eq!(s.as_string().len(), 6 * (i + 1) - 1);
    }
    assert_eq!(s.as_string(), "fjord gucks nymph vibex waltz");
}

#[test]
fn sentences_that_differ_give_lines_that_differ() {
    let a = Sentence::<2, 2>::from_words(&vec![[0, 1], [2, 3]]);
    let b = Sentence::<2, 2>::from_words(&vec![[0, 1], [3, 2]]);
    let c = Sentence::<2, 2>::from_words(&vec![[0, 1]]);
    assert_ne!(a.as_string(), b.as_string());
    assert_ne!(a.as_string(), c.as_string());
    assert_eq!(a.as_string(), Sentence::<2, 2>::from_words(&vec![[0, 1], [2, 3]]).as_string());
}
