use fivewords::adaptors::word_key;
use fivewords::sentence::Sentence;
use fivewords::solver::solve;

fn dictionary(len: usize, letters: u32, seed: u32) -> Vec<[u8; 2]> {
    let mut state = seed;
    let mut out = Vec::new();
    for _ in 0..len {
        state = state.wrapping_mul(1103515245).wrapping_add(12345);
        let a = ((state >> 16) % letters) as u8;
        state = state.wrapping_mul(1103515245).wrapping_add(12345);
        let b = ((state >> 16) % letters) as u8;
        out.push([a, b]);
    }
    out
}

fn mask(w: &[u8; 2]) -> u32 {
    (1 << w[0]) | (1 << w[1])
}

/// Every ascending triple of usable words that share no letter, each once
/// however often the dictionary lists a word.
fn by_hand(words: &[[u8; 2]]) -> Vec<[[u8; 2]; 3]> {
    let mut usable: Vec<[u8; 2]> = Vec::new();
    for w in words {
        if w[0] != w[1] && !usable.contains(w) {
            usable.push(*w);
        }
    }
    let mut out = Vec::new();
    for a in &usable {
        for b in &usable {
            for c in &usable {
                let disjoint =
                    mask(a) & mask(b) == 0 && mask(a) & mask(c) == 0 && mask(b) & mask(c) == 0;
                if disjoint && mask(a) < mask(b) && mask(b) < mask(c) {
                    let mut s = [*a, *b, *c];
                    s.sort();
                    out.push(s);
                }
            }
        }
    }
    out.sort();
    out
}

fn as_arrays(sentences: &[Sentence<2, 3>]) -> Vec<[[u8; 2]; 3]> {
    sentences.iter().map(|s| [s.word(0), s.word(1), s.word(2)]).collect()
}

#[test]
fn solve_finds_what_a_search_by_hand_finds() {
    for seed in 1..25u32 {
        let words = dictionary(10 + (seed as usize % 7) * 3, 7, seed);
        let expected = by_hand(&words);
        assert_eq!(as_arrays(&solve::<2, 3>(words.clone(), false)), expected);
        assert_eq!(as_arrays(&solve::<2, 3>(words, true)), expected);
    }
}

#[test]
fn solve_uses_the_lanes_on_long_rows() {
    // 26 letters give rows of well over eight neighbors
    let words = dictionary(120, 26, 77);
    let first = solve::<2, 3>(words.clone(), false);
    let second = solve::<2, 3>(words.clone(), true);
    assert_eq!(first, second);
    assert_eq!(as_arrays(&first), by_hand(&words));
    assert!(!first.is_empty());
    for pair in first.windows(2) {
        assert!(pair[0] < pair[1]);
    }
}

#[test]
fn word_key_is_the_mask_of_the_letters() {
    assert_eq!(word_key(&[0u8, 1, 2, 3, 4]), 0b11111);
    assert_eq!(word_key(&[4u8, 0]), 0b10001);
    assert_eq!(word_key(&[3u8, 3]), 0b1000);
    assert_eq!(word_key(&[0u8; 0]), 0);
}
