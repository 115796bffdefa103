use fivewords::anagram::expand_anagrams;
use fivewords::charset::LowerAsciiCharset;
use fivewords::groups::anagram_map;
use fivewords::sentence::{CharsetSentence, Sentence};
use fivewords::solver::solve;

const AB: [u8; 2] = [0, 1];
const BA: [u8; 2] = [1, 0];
const CD: [u8; 2] = [2, 3];
const DC: [u8; 2] = [3, 2];
const AC: [u8; 2] = [0, 2];

fn lines<const L: usize, const N: usize>(sentences: &[Sentence<L, N>]) -> Vec<String> {
    sentences.iter().map(|s| s.as_string()).collect()
}

#[test]
fn toy_dictionary_has_one_sentence() {
    for wide in [false, true] {
        let out = solve::<2, 2>(vec![AB, CD, AC], wide);
        assert_eq!(lines(&out), vec!["ab cd".to_string()]);
    }
}

#[test]
fn expansion_yields_every_combination_once() {
    let groups = vec![vec![AB, BA], vec![CD, DC]];
    let map = anagram_map(&groups);
    let mut sol = CharsetSentence::<2>::new();
    sol.add(LowerAsciiCharset::from_word(AB));
    sol.add(LowerAsciiCharset::from_word(CD));
    let mut sols: Vec<Sentence<2, 2>> = Vec::new();
    expand_anagrams(&mut sols, &map, sol);
    assert_eq!(
        lines(&sols),
        vec![
            "ab cd".to_string(),
            "ba cd".to_string(),
            "ab dc".to_string(),
            "ba dc".to_string(),
        ]
    );
}
