use alien_order::graph::LetterGraph;
use alien_order::solution::Solution;

#[test]
fn to_char_vec_normalizes_case() {
    assert_eq!(Solution::to_char_vec(&String::from("AbC")), vec!['a', 'b', 'c']);
    assert_eq!(Solution::to_char_vec(&String::from("wrt")), vec!['w', 'r', 't']);
    assert_eq!(Solution::to_char_vec(&String::from("")), Vec::<char>::new());
}

#[test]
fn to_string_concatenates() {
    assert_eq!(Solution::to_string(&vec!['x', 'y', 'z']), "xyz");
    assert_eq!(Solution::to_string(&Vec::new()), "");
}

#[test]
fn fixtures_hold_the_sample_words() {
    assert_eq!(
        Solution::test_fixture_1(),
        vec![
            String::from("wrt"),
            String::from("wrf"),
            String::from("er"),
            String::from("ett"),
            String::from("rftt"),
        ]
    );
    assert_eq!(
        Solution::test_fixture_2(),
        vec![String::from("z"), String::from("x")]
    );
    assert_eq!(
        Solution::test_fixture_3(),
        vec![String::from("z"), String::from("x"), String::from("z")]
    );
}

#[test]
fn new_graph_is_empty() {
    let g = LetterGraph::new();
    assert!(g.alive.iter().all(|a| !a));
    assert_eq!(Solution::get_zero_degree(&g), Vec::<u8>::new());
}

#[test]
fn zero_degree_skips_constrained_letters() {
    let mut g = LetterGraph::new();
    g.alive[0] = true;
    g.alive[1] = true;
    g.alive[3] = true;
    g.edges[0][1] = true;
    assert_eq!(Solution::get_zero_degree(&g), vec![0u8, 3u8]);
}

#[test]
fn zero_degree_lists_unconstrained_letters_in_order() {
    let mut g = LetterGraph::new();
    g.alive[5] = true;
    g.alive[2] = true;
    assert_eq!(Solution::get_zero_degree(&g), vec![2u8, 5u8]);
}
