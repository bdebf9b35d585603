use alien_order::graph::LetterGraph;
use alien_order::solution::{topo_sort, Solution};

fn position(s: &str, c: char) -> usize {
    s.chars().position(|x| x == c).expect("letter missing from result")
}

#[test]
fn sample_1() {
    let result = Solution::alien_order(&Solution::test_fixture_1());
    assert_eq!(result, "wertf");
}

#[test]
fn sample_2() {
    let result = Solution::alien_order(&Solution::test_fixture_2());
    assert_eq!(result, "zx");
}

#[test]
fn sample_3() {
    let result = Solution::alien_order(&Solution::test_fixture_3());
    assert_eq!(result, "");
}

#[test]
fn empty_list_yields_sentinel() {
    let words: Vec<String> = vec![];
    assert_eq!(Solution::alien_order(&words), "");
}

#[test]
fn single_word_yields_sentinel() {
    let words = vec![String::from("abc")];
    assert_eq!(Solution::alien_order(&words), "");
}

#[test]
fn equal_words_order_both_letters() {
    let words = vec![String::from("ab"), String::from("ab")];
    let result = Solution::alien_order(&words);
    let mut letters: Vec<char> = result.chars().collect();
    letters.sort();
    assert_eq!(letters, vec!['a', 'b']);
}

#[test]
fn prefix_pair_adds_no_constraint() {
    let words = vec![String::from("abc"), String::from("ab")];
    let result = Solution::alien_order(&words);
    let mut letters: Vec<char> = result.chars().collect();
    letters.sort();
    assert_eq!(letters, vec!['a', 'b', 'c']);
}

#[test]
fn constraints_respected_in_sample() {
    let result = Solution::alien_order(&Solution::test_fixture_1());
    assert!(position(&result, 't') < position(&result, 'f'));
    assert!(position(&result, 'w') < position(&result, 'e'));
    assert!(position(&result, 'e') < position(&result, 'r'));
    assert!(position(&result, 'r') < position(&result, 't'));
}

#[test]
fn completeness_counts_distinct_letters() {
    let result = Solution::alien_order(&Solution::test_fixture_1());
    assert_eq!(result.chars().count(), 5);
    let words = vec![String::from("ab"), String::from("cd")];
    let result = Solution::alien_order(&words);
    assert_eq!(result.chars().count(), 4);
    assert!(position(&result, 'a') < position(&result, 'c'));
    assert_eq!(result, "abdc");
}

#[test]
fn mixed_case_matches_lowercased() {
    let mixed = vec![
        String::from("Wrt"),
        String::from("wRF"),
        String::from("er"),
        String::from("ETT"),
        String::from("rftt"),
    ];
    let lowered = Solution::alien_order(&Solution::test_fixture_1());
    assert_eq!(Solution::alien_order(&mixed), lowered);
    assert_eq!(lowered, "wertf");
}

#[test]
fn three_letter_cycle_yields_sentinel() {
    let words = vec![
        String::from("a"),
        String::from("b"),
        String::from("c"),
        String::from("a"),
    ];
    assert_eq!(Solution::alien_order(&words), "");
}

#[test]
fn empty_words_have_no_letters_to_order() {
    let words = vec![String::from(""), String::from("")];
    assert_eq!(Solution::alien_order(&words), "");
}

#[test]
fn nonletter_input_yields_sentinel() {
    let words = vec![String::from("a1"), String::from("b")];
    assert_eq!(Solution::alien_order(&words), "");
}

#[test]
fn topo_sort_orders_linear_chain() {
    let mut g = LetterGraph::new();
    g.alive[0] = true;
    g.alive[1] = true;
    g.alive[2] = true;
    g.edges[2][1] = true;
    g.edges[1][0] = true;
    let out = topo_sort(&mut g).expect("chain has no cycle");
    assert_eq!(out, vec![2u8, 1u8, 0u8]);
}

#[test]
fn topo_sort_reports_cycle() {
    let mut g = LetterGraph::new();
    g.alive[0] = true;
    g.alive[1] = true;
    g.edges[0][1] = true;
    g.edges[1][0] = true;
    assert!(topo_sort(&mut g).is_none());
}
