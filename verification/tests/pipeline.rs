use fivewords::anagram::expand_anagrams;
use fivewords::charset::LowerAsciiCharset;
use fivewords::graph::{
    build_graph, disjoint_from, graph_of_charsets, graph_row, sort_charsets, word_charsets,
};
use fivewords::groups::{anagram_groups, anagram_map};
use fivewords::search::{find_all, find_sols, search_from};
use fivewords::sentence::{CharsetSentence, Sentence};
use fivewords::solver::{expand_all, representatives, solve, solve_lines, sort_sentences};

fn word5(s: &str) -> [u8; 5] {
    let b = s.as_bytes();
    [b[0] - b'a', b[1] - b'a', b[2] - b'a', b[3] - b'a', b[4] - b'a']
}

fn word2(s: &str) -> [u8; 2] {
    let b = s.as_bytes();
    [b[0] - b'a', b[1] - b'a']
}

fn words2(list: &[&str]) -> Vec<[u8; 2]> {
    list.iter().map(|s| word2(s)).collect()
}

fn shown<const L: usize, const N: usize>(sentences: &[Sentence<L, N>]) -> Vec<String> {
    sentences.iter().map(|s| s.as_string()).collect()
}

fn masks(charsets: &[LowerAsciiCharset]) -> Vec<u32> {
    charsets.iter().map(|c| c.bits_value()).collect()
}

fn solution_masks<const N: usize>(sols: &[CharsetSentence<N>]) -> Vec<Vec<u32>> {
    sols.iter().map(|s| (0..s.len()).map(|i| s.word(i).bits_value()).collect()).collect()
}

#[test]
fn groups_come_by_mask_with_first_met_word_in_front() {
    // masks: dc = 12, ab = 3, ba = 3, aa is not usable, cd = 12, ac = 5
    let groups = anagram_groups(words2(&["dc", "ab", "ba", "aa", "cd", "ac"]));
    assert_eq!(
        groups,
        vec![words2(&["ab", "ba"]), words2(&["ac"]), words2(&["dc", "cd"])]
    );
}

#[test]
fn groups_hold_a_word_once() {
    let groups = anagram_groups(words2(&["ba", "ab", "ba", "cd", "ab", "ba"]));
    assert_eq!(groups, vec![words2(&["ba", "ab"]), words2(&["cd"])]);
    let twice = anagram_groups(words2(&["ab", "ab"]));
    assert_eq!(twice, vec![words2(&["ab"])]);
}

#[test]
fn a_word_listed_twice_gives_each_sentence_once() {
    let once = solve::<2, 2>(words2(&["ab", "cd", "dc"]), false);
    let twice = solve::<2, 2>(words2(&["ab", "cd", "ab", "dc", "cd", "ab"]), false);
    assert_eq!(shown(&once), vec!["ab cd", "ab dc"]);
    assert_eq!(once, twice);
}

#[test]
fn groups_of_nothing_usable() {
    assert!(anagram_groups(Vec::<[u8; 2]>::new()).is_empty());
    assert!(anagram_groups(words2(&["aa", "bb", "zz"])).is_empty());
}

#[test]
fn anagram_map_finds_a_group_by_charset() {
    let groups = vec![words2(&["ab", "ba"]), words2(&["dc", "cd"])];
    let map = anagram_map(&groups);
    let ab = LowerAsciiCharset::from_word(word2("ba"));
    let cd = LowerAsciiCharset::from_word(word2("cd"));
    let ac = LowerAsciiCharset::from_word(word2("ac"));
    assert_eq!(map.group(ab), Some(&words2(&["ab", "ba"])));
    assert_eq!(map.group(cd), Some(&words2(&["dc", "cd"])));
    assert_eq!(map.group(ac), None);
    let empty = anagram_map::<2>(&[]);
    assert_eq!(empty.group(ab), None);
}

#[test]
fn anagram_map_keeps_the_later_group_of_a_mask() {
    let groups = vec![words2(&["ab"]), words2(&["ba"])];
    let map = anagram_map(&groups);
    assert_eq!(
        map.group(LowerAsciiCharset::from_bits(3)),
        Some(&words2(&["ba"]))
    );
}

#[test]
fn representatives_are_first_words() {
    let groups = vec![words2(&["ab", "ba"]), words2(&["ac"]), words2(&["dc", "cd"])];
    assert_eq!(representatives(&groups), words2(&["ab", "ac", "dc"]));
    assert!(representatives(&Vec::<Vec<[u8; 2]>>::new()).is_empty());
}

#[test]
fn row_holds_disjoint_charsets_in_order() {
    let reps = word_charsets(&words2(&["ab", "cd", "ac", "bd", "ef"]));
    assert_eq!(masks(&reps), vec![3, 12, 5, 10, 48]);
    let ab = LowerAsciiCharset::from_bits(3);
    assert_eq!(masks(&graph_row(&reps, ab)), vec![12, 48]);
    let ac = LowerAsciiCharset::from_bits(5);
    assert_eq!(masks(&graph_row(&reps, ac)), vec![10, 48]);
    let none = LowerAsciiCharset::default();
    assert_eq!(masks(&graph_row(&reps, none)), vec![3, 5, 10, 12, 48]);
    assert!(graph_row(&[], ab).is_empty());
}

#[test]
fn rows_ascend_whatever_the_order_of_the_words() {
    let graph = build_graph(&words2(&["cd", "ab", "ef"]));
    let ef = LowerAsciiCharset::from_bits(48);
    assert_eq!(masks(graph.neighbors(ef).unwrap()), vec![3, 12]);
    let reps = word_charsets(&words2(&["ef", "cd", "ab", "gh"]));
    let by_charsets = graph_of_charsets(&reps);
    assert_eq!(
        masks(by_charsets.neighbors(LowerAsciiCharset::from_bits(3)).unwrap()),
        vec![12, 48, 192]
    );
    assert_eq!(masks(&graph_row(&reps, LowerAsciiCharset::from_bits(192))), vec![3, 12, 48]);
}

#[test]
fn sort_charsets_orders_by_mask() {
    let reps = word_charsets(&words2(&["ef", "ab", "cd", "ab"]));
    assert_eq!(masks(&sort_charsets(&reps)), vec![3, 3, 12, 48]);
    assert!(sort_charsets(&[]).is_empty());
    let top = [LowerAsciiCharset::from_bits(1 << 31), LowerAsciiCharset::from_bits(1)];
    assert_eq!(masks(&sort_charsets(&top)), vec![1, 1 << 31]);
}

#[test]
fn disjoint_from_keeps_the_order_of_its_list() {
    let list = word_charsets(&words2(&["ef", "ab", "cd", "ac"]));
    let ab = LowerAsciiCharset::from_bits(3);
    assert_eq!(masks(&disjoint_from(&list, ab)), vec![48, 12]);
}

#[test]
fn graph_has_a_row_for_each_representative() {
    let graph = build_graph(&words2(&["ab", "cd", "ac"]));
    let ab = LowerAsciiCharset::from_bits(3);
    let cd = LowerAsciiCharset::from_bits(12);
    let ac = LowerAsciiCharset::from_bits(5);
    assert_eq!(masks(graph.neighbors(ab).unwrap()), vec![12]);
    assert_eq!(masks(graph.neighbors(cd).unwrap()), vec![3]);
    assert!(graph.neighbors(ac).unwrap().is_empty());
    assert!(graph.contains(ab));
    assert!(!graph.contains(LowerAsciiCharset::from_bits(10)));
    assert!(graph.neighbors(LowerAsciiCharset::from_bits(10)).is_none());
    let empty = build_graph(&Vec::<[u8; 2]>::new());
    assert!(!empty.contains(ab));
}

#[test]
fn search_finds_each_pair_once() {
    let reps = word_charsets(&words2(&["ab", "cd", "ac", "bd"]));
    let graph = graph_of_charsets(&reps);
    for wide in [false, true] {
        let sols = find_all::<2>(&graph, &reps, wide);
        assert_eq!(solution_masks(&sols), vec![vec![3, 12], vec![5, 10]]);
    }
}

#[test]
fn search_from_a_root_extends_upwards_only() {
    let reps = word_charsets(&words2(&["ab", "cd", "ef", "ce", "df"]));
    // masks: ab 3, cd 12, ef 48, ce 20, df 40
    let graph = graph_of_charsets(&reps);
    let mut sols: Vec<CharsetSentence<3>> = Vec::new();
    search_from(&mut sols, &graph, LowerAsciiCharset::from_bits(3), false);
    assert_eq!(solution_masks(&sols), vec![vec![3, 12, 48], vec![3, 20, 40]]);
    search_from(&mut sols, &graph, LowerAsciiCharset::from_bits(12), false);
    assert_eq!(sols.len(), 2);
    search_from(&mut sols, &graph, LowerAsciiCharset::from_bits(48), true);
    assert_eq!(sols.len(), 2);
}

#[test]
fn find_sols_filters_the_candidates_it_is_given() {
    let reps = word_charsets(&words2(&["ab", "cd", "ef", "ce", "df"]));
    let graph = graph_of_charsets(&reps);
    let mut cur = CharsetSentence::<3>::new();
    cur.add(LowerAsciiCharset::from_bits(3));
    cur.add(LowerAsciiCharset::from_bits(12));
    let mut sols = Vec::new();
    find_sols(&mut sols, &graph, cur, LowerAsciiCharset::from_bits(12), &reps, false);
    assert_eq!(solution_masks(&sols), vec![vec![3, 12, 48]]);
    let mut none = Vec::new();
    find_sols(&mut none, &graph, cur, LowerAsciiCharset::from_bits(48), &reps, false);
    assert!(none.is_empty());
    find_sols(&mut none, &graph, cur, LowerAsciiCharset::from_bits(12), &[], true);
    assert!(none.is_empty());
}

#[test]
fn find_sols_leaves_the_list_alone_where_nothing_is_kept() {
    let reps = word_charsets(&words2(&["ab", "cd"]));
    let graph = graph_of_charsets(&reps);
    let mut cur = CharsetSentence::<3>::new();
    cur.add(LowerAsciiCharset::from_bits(3));
    let mut before = CharsetSentence::<3>::new();
    before.add(LowerAsciiCharset::from_bits(1));
    let mut sols = vec![before];
    // candidates without a row of their own, none of them kept
    let strangers = [
        LowerAsciiCharset::from_bits(1),
        LowerAsciiCharset::from_bits(2),
        LowerAsciiCharset::from_bits(0b111),
    ];
    find_sols(&mut sols, &graph, cur, LowerAsciiCharset::from_bits(3), &strangers, false);
    assert_eq!(sols, vec![before]);
    find_sols(&mut sols, &graph, cur, LowerAsciiCharset::from_bits(3), &[], true);
    assert_eq!(sols, vec![before]);
}

#[test]
fn find_sols_reads_no_row_at_the_last_level() {
    let graph = graph_of_charsets(&Vec::new());
    let mut cur = CharsetSentence::<2>::new();
    cur.add(LowerAsciiCharset::from_bits(3));
    let candidates = [LowerAsciiCharset::from_bits(12), LowerAsciiCharset::from_bits(5)];
    let mut sols = Vec::new();
    find_sols(&mut sols, &graph, cur, LowerAsciiCharset::from_bits(3), &candidates, false);
    assert_eq!(solution_masks(&sols), vec![vec![3, 12]]);
}

#[test]
fn sort_sentences_orders_by_words() {
    let list = vec![
        Sentence::<2, 2>::from_words(&words2(&["ba", "cd"])),
        Sentence::<2, 2>::from_words(&words2(&["ab", "dc"])),
        Sentence::<2, 2>::from_words(&words2(&["ab", "cd"])),
        Sentence::<2, 2>::from_words(&words2(&["ab", "dc"])),
    ];
    assert_eq!(shown(&sort_sentences(list)), vec!["ab cd", "ab dc", "ab dc", "ba cd"]);
    assert!(sort_sentences(Vec::<Sentence<2, 2>>::new()).is_empty());
}

#[test]
fn expansion_sorts_the_words_of_each_sentence() {
    // masks: bc = 6, ad = 9
    let groups = vec![words2(&["cb", "bc"]), words2(&["da", "ad"])];
    let map = anagram_map(&groups);
    let mut sol = CharsetSentence::<2>::new();
    sol.add(LowerAsciiCharset::from_bits(6));
    sol.add(LowerAsciiCharset::from_bits(9));
    let mut out: Vec<Sentence<2, 2>> = Vec::new();
    expand_anagrams(&mut out, &map, sol);
    assert_eq!(shown(&out), vec!["cb da", "bc da", "ad cb", "ad bc"]);
}

#[test]
fn expansion_appends_to_what_is_there() {
    let groups = vec![words2(&["ab"]), words2(&["cd"])];
    let map = anagram_map(&groups);
    let mut sol = CharsetSentence::<2>::new();
    sol.add(LowerAsciiCharset::from_bits(3));
    sol.add(LowerAsciiCharset::from_bits(12));
    let mut out = vec![Sentence::<2, 2>::from_words(&words2(&["zz", "zz"]))];
    expand_anagrams(&mut out, &map, sol);
    assert_eq!(shown(&out), vec!["zz zz", "ab cd"]);
}

#[test]
fn expansion_counts_in_mixed_radix() {
    let groups: Vec<Vec<[u8; 3]>> = vec![
        vec![[0, 1, 2], [1, 0, 2]],
        vec![[3, 4, 5], [3, 5, 4], [4, 3, 5]],
        vec![[6, 7, 8]],
    ];
    let map = anagram_map(&groups);
    let mut sol = CharsetSentence::<3>::new();
    sol.add(LowerAsciiCharset::from_bits(0b111));
    sol.add(LowerAsciiCharset::from_bits(0b111000));
    sol.add(LowerAsciiCharset::from_bits(0b111000000));
    let mut out: Vec<Sentence<3, 3>> = Vec::new();
    expand_anagrams(&mut out, &map, sol);
    assert_eq!(
        shown(&out),
        vec![
            "abc def ghi",
            "bac def ghi",
            "abc dfe ghi",
            "bac dfe ghi",
            "abc edf ghi",
            "bac edf ghi",
        ]
    );
}

#[test]
fn expand_all_goes_solution_by_solution() {
    let groups = vec![words2(&["ab", "ba"]), words2(&["ac"]), words2(&["bd"]), words2(&["cd"])];
    let map = anagram_map(&groups);
    let reps = word_charsets(&representatives(&groups));
    let graph = graph_of_charsets(&reps);
    let sols = find_all::<2>(&graph, &reps, false);
    let out: Vec<Sentence<2, 2>> = expand_all(&map, &sols);
    assert_eq!(shown(&out), vec!["ab cd", "ba cd", "ac bd"]);
    let nothing: Vec<Sentence<2, 2>> = expand_all(&map, &Vec::new());
    assert!(nothing.is_empty());
}

#[test]
fn solve_sorts_the_sentences() {
    let out = solve::<2, 2>(words2(&["dc", "ba", "cd", "ab"]), false);
    assert_eq!(shown(&out), vec!["ab cd", "ab dc", "ba cd", "ba dc"]);
}

#[test]
fn solve_never_pairs_words_that_share_a_letter() {
    let out = solve::<2, 2>(words2(&["ab", "cd", "ac"]), false);
    assert_eq!(shown(&out), vec!["ab cd"]);
    for s in &out {
        assert!(!s.as_string().contains("ac"));
    }
}

#[test]
fn solve_is_the_same_on_every_run() {
    let dictionary = words2(&["dc", "ba", "cd", "ab", "ef", "fe", "ac", "bd", "ce", "df", "aa"]);
    let first = solve::<2, 3>(dictionary.clone(), false);
    let second = solve::<2, 3>(dictionary.clone(), false);
    let lanes = solve::<2, 3>(dictionary.clone(), true);
    assert_eq!(shown(&first), shown(&second));
    assert_eq!(first, lanes);
    let mut reordered = dictionary.clone();
    reordered.reverse();
    assert_eq!(shown(&solve::<2, 3>(reordered, true)), shown(&first));
    let mut sorted = shown(&first);
    sorted.sort();
    assert_eq!(sorted, shown(&first));
    // ab cd ef in eight spellings, ac bd ef in two, ab ce df in two
    assert_eq!(first.len(), 12);
}

#[test]
fn solve_without_usable_words_finds_nothing() {
    assert!(solve::<2, 2>(Vec::new(), false).is_empty());
    assert!(solve::<2, 2>(words2(&["aa", "bb"]), true).is_empty());
    assert!(solve::<5, 5>(vec![word5("hello"), word5("geese")], false).is_empty());
}

#[test]
fn solve_with_too_few_words_finds_nothing() {
    assert!(solve::<2, 3>(words2(&["ab", "cd"]), false).is_empty());
    assert!(solve::<2, 2>(words2(&["ab"]), false).is_empty());
}

#[test]
fn solve_finds_five_words_of_five_letters() {
    let dictionary: Vec<[u8; 5]> = [
        "waltz", "hello", "vibex", "world", "nymph", "fjord", "gucks", "glent", "jumby", "prick",
        "vozhd", "waqfs", "bling", "treck", "brick",
    ]
    .iter()
    .map(|w| word5(w))
    .collect();
    for wide in [false, true] {
        let out = solve::<5, 5>(dictionary.clone(), wide);
        assert_eq!(
            shown(&out),
            vec!["fjord gucks nymph vibex waltz", "glent jumby prick vozhd waqfs"]
        );
    }
}

#[test]
fn solve_lines_gives_the_sorted_lines() {
    for wide in [false, true] {
        let lines = solve_lines::<2, 2>(words2(&["dc", "ba", "cd", "ab", "ba"]), wide);
        assert_eq!(lines, vec!["ab cd", "ab dc", "ba cd", "ba dc"]);
    }
    assert!(solve_lines::<2, 2>(words2(&["aa"]), false).is_empty());
    let dictionary = words2(&["dc", "ba", "cd", "ab", "ef", "fe", "ac", "bd", "ce", "df"]);
    assert_eq!(
        solve_lines::<2, 3>(dictionary.clone(), false),
        shown(&solve::<2, 3>(dictionary, true))
    );
}
