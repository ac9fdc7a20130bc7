use disjoint_words::{
    get_disjoint_indices, get_disjoint_indices_from, get_disjoint_indices_partial,
    get_disjoint_indices_sequential, get_words, merge_partitions, Word,
};

fn words(text: &[&str]) -> Vec<Word> {
    get_words(&text.iter().map(|line| String::from(*line)).collect())
}

fn share_a_byte(a: &Word, b: &Word) -> bool {
    a.word().iter().any(|x| b.word().iter().any(|y| x == y))
}

/// Every strictly increasing choice of `n` indices whose words are pairwise
/// disjoint, found by trying them all.
fn by_brute_force(word_list: &Vec<Word>, n: usize) -> Vec<Vec<usize>> {
    let mut found = Vec::new();
    if n == 0 {
        return found;
    }
    let mut stack: Vec<Vec<usize>> = (0..word_list.len()).map(|i| vec![i]).collect();
    while let Some(choice) = stack.pop() {
        let disjoint = choice.iter().enumerate().all(|(k, &i)| {
            choice[k + 1..].iter().all(|&j| !share_a_byte(&word_list[i], &word_list[j]))
        });
        if choice.len() == n {
            if disjoint {
                found.push(choice);
            }
            continue;
        }
        for next in choice[choice.len() - 1] + 1..word_list.len() {
            let mut longer = choice.clone();
            longer.push(next);
            stack.push(longer);
        }
    }
    found.sort();
    found
}

fn sorted(mut combinations: Vec<Vec<usize>>) -> Vec<Vec<usize>> {
    combinations.sort();
    combinations
}

/// The words over the letters `a` to `j` that take every second or every
/// third letter, and a few more.
fn small_dictionary() -> Vec<Word> {
    words(&[
        "abcde", "fghij", "acegi", "bdfhj", "abcdf", "eghij", "adgjb", "cfihe", "klmno", "pqrst",
        "uvwxy", "kmoqs", "lnprt", "zabcd", "efghi", "jklmn", "opqrs", "tuvwx", "fjord", "waltz",
        "nymph", "quick", "vexil", "gucks", "vibex",
    ])
}

#[test]
fn partial_emits_a_state_of_full_length() {
    let word_list = words(&["abcde", "fghij", "klmno"]);
    let all = vec![0, 1, 2];
    assert_eq!(
        get_disjoint_indices_partial(&word_list, 2, vec![], vec![0, 1], &all),
        vec![vec![0usize, 1]]
    );
    assert_eq!(
        get_disjoint_indices_partial(&word_list, 1, vec![], vec![2], &all),
        vec![vec![2usize]]
    );
    // A state of full length is not looked into.
    assert_eq!(
        get_disjoint_indices_partial(&word_list, 2, vec![], vec![1, 1], &vec![]),
        vec![vec![1usize, 1]]
    );
}

#[test]
fn partial_emits_the_empty_state_for_length_nought() {
    let word_list = words(&["abcde", "fghij"]);
    assert_eq!(
        get_disjoint_indices_partial(&word_list, 0, vec![], vec![], &vec![0, 1]),
        vec![Vec::<usize>::new()]
    );
}

#[test]
fn partial_keeps_what_was_found_before() {
    let word_list = words(&["abcde", "fghij", "klmno"]);
    let before = vec![vec![7usize, 8], vec![9]];
    assert_eq!(
        get_disjoint_indices_partial(&word_list, 2, before.clone(), vec![0], &vec![0, 1, 2]),
        vec![vec![7usize, 8], vec![9], vec![0, 1], vec![0, 2]]
    );
    assert_eq!(
        get_disjoint_indices_partial(&word_list, 2, before.clone(), vec![2], &vec![0, 1, 2]),
        before
    );
}

#[test]
fn partial_takes_candidates_from_the_valid_indices_only() {
    let word_list = words(&["abcde", "fghij", "klmno", "pqrst", "uvwxy"]);
    assert_eq!(
        get_disjoint_indices_partial(&word_list, 3, vec![], vec![0], &vec![1, 3, 4]),
        vec![vec![0usize, 1, 3], vec![0, 1, 4], vec![0, 3, 4]]
    );
    assert_eq!(
        get_disjoint_indices_partial(&word_list, 3, vec![], vec![1], &vec![0, 2, 4]),
        vec![vec![1usize, 2, 4]]
    );
    assert!(get_disjoint_indices_partial(&word_list, 3, vec![], vec![0], &vec![]).is_empty());
    assert!(get_disjoint_indices_partial(&word_list, 3, vec![], vec![0], &vec![4]).is_empty());
}

#[test]
fn partial_follows_the_order_of_the_valid_indices() {
    let word_list = words(&["abcde", "fghij", "klmno", "pqrst"]);
    assert_eq!(
        get_disjoint_indices_partial(&word_list, 2, vec![], vec![0], &vec![3, 1, 2]),
        vec![vec![0usize, 3], vec![0, 1], vec![0, 2]]
    );
    assert_eq!(
        get_disjoint_indices_partial(&word_list, 3, vec![], vec![0], &vec![3, 1, 2]),
        vec![vec![0usize, 1, 3], vec![0, 1, 2], vec![0, 2, 3]]
    );
}

#[test]
fn partial_tests_candidates_against_the_last_word() {
    // "abcdf" shares bytes with "abcde" but not with "ghijk".
    let word_list = words(&["abcde", "ghijk", "abcdf"]);
    assert_eq!(
        get_disjoint_indices_partial(&word_list, 3, vec![], vec![0, 1], &vec![0, 1, 2]),
        vec![vec![0usize, 1, 2]]
    );
    assert!(get_disjoint_indices_partial(&word_list, 2, vec![], vec![0], &vec![0, 2]).is_empty());
    assert!(get_disjoint_indices_from(&word_list, 3, 0).is_empty());
}

#[test]
fn partial_goes_on_past_the_full_length_and_finds_nothing() {
    let word_list = words(&["abcde", "fghij", "klmno"]);
    let before = vec![vec![5usize]];
    assert_eq!(
        get_disjoint_indices_partial(&word_list, 1, before.clone(), vec![0, 1], &vec![0, 1, 2]),
        before
    );
}

#[test]
fn from_returns_the_combinations_that_start_there() {
    let word_list = words(&["abcde", "fghij", "klmno", "abcdf", "pqrst"]);
    assert_eq!(
        get_disjoint_indices_from(&word_list, 3, 0),
        vec![vec![0usize, 1, 2], vec![0, 1, 4], vec![0, 2, 4]]
    );
    // "abcdf" shares a byte with "abcde" and with "fghij".
    assert_eq!(get_disjoint_indices_from(&word_list, 3, 1), vec![vec![1usize, 2, 4]]);
    assert_eq!(get_disjoint_indices_from(&word_list, 3, 2), vec![vec![2usize, 3, 4]]);
    assert!(get_disjoint_indices_from(&word_list, 3, 3).is_empty());
    assert!(get_disjoint_indices_from(&word_list, 3, 4).is_empty());
    assert_eq!(get_disjoint_indices_from(&word_list, 1, 3), vec![vec![3usize]]);
    assert!(get_disjoint_indices_from(&word_list, 0, 3).is_empty());
}

#[test]
fn merge_concatenates_in_order() {
    assert!(merge_partitions(vec![]).is_empty());
    assert!(merge_partitions(vec![vec![], vec![]]).is_empty());
    assert_eq!(
        merge_partitions(vec![
            vec![vec![0, 1], vec![0, 2]],
            vec![],
            vec![vec![2, 3]],
            vec![vec![3, 4], vec![3, 5], vec![3]],
        ]),
        vec![vec![0usize, 1], vec![0, 2], vec![2, 3], vec![3, 4], vec![3, 5], vec![3]]
    );
}

#[test]
fn search_of_given_lists() {
    let word_list = words(&["abcde", "fghij", "klmno", "abcdf", "pqrst"]);
    let pairs = vec![
        vec![0usize, 1],
        vec![0, 2],
        vec![0, 4],
        vec![1, 2],
        vec![1, 4],
        vec![2, 3],
        vec![2, 4],
        vec![3, 4],
    ];
    assert_eq!(get_disjoint_indices_sequential(&word_list, 2), pairs);
    assert_eq!(get_disjoint_indices(&word_list, 2), pairs);
    let fours = vec![vec![0usize, 1, 2, 4]];
    assert_eq!(get_disjoint_indices_sequential(&word_list, 4), fours);
    assert_eq!(get_disjoint_indices(&word_list, 4), fours);
    assert!(get_disjoint_indices(&word_list, 5).is_empty());
    assert!(get_disjoint_indices_sequential(&word_list, 5).is_empty());
}

#[test]
fn search_for_single_words_lists_every_word() {
    let word_list = small_dictionary();
    let singles: Vec<Vec<usize>> = (0..word_list.len()).map(|i| vec![i]).collect();
    assert_eq!(get_disjoint_indices_sequential(&word_list, 1), singles);
    assert_eq!(get_disjoint_indices(&word_list, 1), singles);
}

#[test]
fn search_for_no_words_finds_nothing() {
    let word_list = small_dictionary();
    assert!(get_disjoint_indices(&word_list, 0).is_empty());
    assert!(get_disjoint_indices_sequential(&word_list, 0).is_empty());
}

#[test]
fn search_of_an_empty_list_finds_nothing() {
    let word_list = words(&[]);
    for n in 0..4 {
        assert!(get_disjoint_indices(&word_list, n).is_empty());
        assert!(get_disjoint_indices_sequential(&word_list, n).is_empty());
    }
}

#[test]
fn search_for_more_words_than_fit_finds_nothing() {
    let word_list = small_dictionary();
    assert!(get_disjoint_indices(&word_list, 7).is_empty());
    assert!(get_disjoint_indices_sequential(&word_list, 26).is_empty());
    assert!(get_disjoint_indices(&word_list, usize::MAX).is_empty());
}

#[test]
fn search_finds_what_brute_force_finds() {
    let word_list = small_dictionary();
    assert_eq!(word_list.len(), 25);
    for n in 0..6 {
        let expected = by_brute_force(&word_list, n);
        assert_eq!(sorted(get_disjoint_indices(&word_list, n)), expected, "n = {n}");
        assert_eq!(sorted(get_disjoint_indices_sequential(&word_list, n)), expected, "n = {n}");
    }
    assert_eq!(by_brute_force(&word_list, 5).len(), get_disjoint_indices(&word_list, 5).len());
    assert!(!by_brute_force(&word_list, 5).is_empty());
}

#[test]
fn combinations_are_ascending_and_pairwise_disjoint() {
    let word_list = small_dictionary();
    for n in 1..6 {
        for combination in get_disjoint_indices(&word_list, n) {
            assert_eq!(combination.len(), n);
            for k in 1..n {
                assert!(combination[k - 1] < combination[k]);
            }
            for (k, &i) in combination.iter().enumerate() {
                assert!(i < word_list.len());
                for &j in &combination[k + 1..] {
                    assert!(word_list[i].is_disjoint_with(&word_list[j]));
                    assert!(!share_a_byte(&word_list[i], &word_list[j]));
                }
            }
        }
    }
}

#[test]
fn combinations_come_in_lexicographic_order() {
    let word_list = small_dictionary();
    for n in 1..6 {
        let found = get_disjoint_indices(&word_list, n);
        assert_eq!(sorted(found.clone()), found, "n = {n}");
        for pair in found.windows(2) {
            assert!(pair[0] < pair[1]);
        }
        let found = get_disjoint_indices_sequential(&word_list, n);
        assert_eq!(sorted(found.clone()), found, "n = {n}");
    }
    assert!(get_disjoint_indices(&word_list, 3).len() > 1);
}

#[test]
fn no_combination_is_a_permutation_of_another() {
    let word_list = small_dictionary();
    for n in 1..6 {
        let found = get_disjoint_indices(&word_list, n);
        let mut as_sets: Vec<Vec<usize>> = found.iter().map(|c| sorted_indices(c)).collect();
        as_sets.sort();
        let before = as_sets.len();
        as_sets.dedup();
        assert_eq!(as_sets.len(), before);
        assert_eq!(before, found.len());
    }
}

fn sorted_indices(combination: &Vec<usize>) -> Vec<usize> {
    let mut indices = combination.clone();
    indices.sort();
    indices
}

#[test]
fn parallel_and_sequential_search_agree() {
    let word_list = small_dictionary();
    for n in 0..7 {
        let parallel = get_disjoint_indices(&word_list, n);
        let sequential = get_disjoint_indices_sequential(&word_list, n);
        assert_eq!(parallel, sequential, "n = {n}");
        assert_eq!(sorted(parallel), sorted(sequential), "n = {n}");
    }
}

#[test]
fn sequential_search_is_the_merged_partitions() {
    let word_list = small_dictionary();
    for n in 0..5 {
        let partitions: Vec<Vec<Vec<usize>>> =
            (0..word_list.len()).map(|i| get_disjoint_indices_from(&word_list, n, i)).collect();
        for (i, partition) in partitions.iter().enumerate() {
            assert!(partition.iter().all(|c| c[0] == i));
        }
        assert_eq!(merge_partitions(partitions), get_disjoint_indices_sequential(&word_list, n));
    }
}

#[test]
fn search_of_all_halves_of_ten_letters() {
    // Every choice of five of the letters `a` to `j`: 252 words, each with
    // one disjoint partner.
    let letters = b"abcdefghij";
    let mut text: Vec<String> = Vec::new();
    for mask in 0u32..1024 {
        if mask.count_ones() == 5 {
            let word: Vec<u8> =
                (0..10).filter(|k| mask & (1 << k) != 0).map(|k| letters[k]).collect();
            text.push(String::from_utf8(word).unwrap());
        }
    }
    let word_list = get_words(&text);
    assert_eq!(word_list.len(), 252);
    let pairs = get_disjoint_indices(&word_list, 2);
    assert_eq!(pairs.len(), 126);
    assert_eq!(pairs, by_brute_force(&word_list, 2));
    assert!(get_disjoint_indices(&word_list, 3).is_empty());
    assert_eq!(get_disjoint_indices_sequential(&word_list, 2).len(), 126);
}
