use word_cliques::clique::{cliques_from_root, find_cliques};
use word_cliques::graph::{build_graph, filter_candidates, is_candidate, neighbors_of, Word};
use word_cliques::words::{distinct_chars, str_lt};

fn strings(items: &[&str]) -> Vec<String> {
    items.iter().map(|s| s.to_string()).collect()
}

fn graph_of(items: &[&str]) -> Vec<Word> {
    build_graph(&strings(items))
}

fn node<'a>(g: &'a [Word], text: &str) -> &'a Word {
    g.iter().find(|w| w.word == text).unwrap()
}

#[test]
fn filter_keeps_only_five_distinct_letter_words() {
    let tokens = strings(&["abcde", "aabbc", "abcd", "abcdef", "fghij"]);
    let cands = filter_candidates(&tokens);
    assert_eq!(cands, strings(&["abcde", "fghij"]));
}

#[test]
fn filter_collapses_duplicates() {
    let tokens = strings(&["abcde", "fghij", "abcde", "fghij", "abcde"]);
    let cands = filter_candidates(&tokens);
    assert_eq!(cands, strings(&["abcde", "fghij"]));
}

#[test]
fn every_candidate_has_five_distinct_letters() {
    let tokens = strings(&[
        "abcde", "aabbc", "abcd", "abcdef", "fghij", "xyzzy", "", "queue", "jumpy",
    ]);
    for c in filter_candidates(&tokens) {
        assert_eq!(c.chars().count(), 5);
        assert_eq!(distinct_chars(&c).len(), 5);
    }
}

#[test]
fn is_candidate_matches_the_predicate() {
    assert!(is_candidate(&"abcde".to_string()));
    assert!(!is_candidate(&"aabbc".to_string()));
    assert!(!is_candidate(&"abcd".to_string()));
    assert!(!is_candidate(&"abcdef".to_string()));
    assert!(!is_candidate(&"".to_string()));
}

#[test]
fn neighbor_relation_is_symmetric() {
    let g = graph_of(&["abcde", "fghij", "klmno", "aefgh", "pqrst"]);
    for u in &g {
        for v in &g {
            let u_lists_v = u.neighbors.contains(&v.word);
            let v_lists_u = v.neighbors.contains(&u.word);
            assert_eq!(u_lists_v, v_lists_u);
        }
    }
}

#[test]
fn no_word_is_its_own_neighbor() {
    let g = graph_of(&["abcde", "fghij", "klmno", "aefgh"]);
    for w in &g {
        assert!(!w.neighbors.contains(&w.word));
    }
}

#[test]
fn words_sharing_a_letter_are_not_neighbors() {
    let g = graph_of(&["abcde", "aefgh"]);
    assert!(!node(&g, "abcde").neighbors.contains(&"aefgh".to_string()));
    assert!(!node(&g, "aefgh").neighbors.contains(&"abcde".to_string()));
}

#[test]
fn neighbors_of_lists_exactly_the_disjoint_candidates() {
    let cands = strings(&["abcde", "fghij", "aefgh", "klmno"]);
    let n = neighbors_of(&"abcde".to_string(), &cands);
    assert_eq!(n, strings(&["fghij", "klmno"]));
}

#[test]
fn enumeration_is_exhaustive_on_the_fixture() {
    // "tvwxy" overlaps both "pqrst" and "uvwxy", so it completes no clique.
    let g = graph_of(&["abcde", "fghij", "klmno", "pqrst", "uvwxy", "tvwxy"]);
    let cliques = find_cliques(&g);
    assert_eq!(cliques.len(), 1);
    assert_eq!(cliques[0], strings(&["abcde", "fghij", "klmno", "pqrst", "uvwxy"]));
    for c in &cliques {
        assert!(!c.contains(&"tvwxy".to_string()));
    }
}

#[test]
fn a_second_disjoint_fifth_word_doubles_the_cliques() {
    // "zyxwv" overlaps "uvwxy" but is itself disjoint from the other four
    // words, so it leads to a clique of its own.
    let g = graph_of(&["abcde", "fghij", "klmno", "pqrst", "uvwxy", "zyxwv"]);
    let mut cliques = find_cliques(&g);
    cliques.sort();
    assert_eq!(cliques.len(), 2);
    assert_eq!(cliques[0], strings(&["abcde", "fghij", "klmno", "pqrst", "uvwxy"]));
    assert_eq!(cliques[1], strings(&["abcde", "fghij", "klmno", "pqrst", "zyxwv"]));
}

#[test]
fn clique_members_use_twenty_five_distinct_letters() {
    let g = graph_of(&["abcde", "fghij", "klmno", "pqrst", "uvwxy", "zyxwv"]);
    for c in find_cliques(&g) {
        assert_eq!(c.len(), 5);
        for a in 0..5 {
            for b in (a + 1)..5 {
                let la = distinct_chars(&c[a]);
                let lb = distinct_chars(&c[b]);
                assert!(la.iter().all(|ch| !lb.contains(ch)));
            }
        }
        let mut all: Vec<char> = c.iter().flat_map(|w| w.chars()).collect();
        all.sort();
        all.dedup();
        assert_eq!(all.len(), 25);
    }
}

#[test]
fn no_two_cliques_denote_the_same_word_set() {
    let g = graph_of(&[
        "abcde", "fghij", "klmno", "pqrst", "uvwxy", "zyxwv", "vwxyz",
    ]);
    let cliques = find_cliques(&g);
    let mut as_sets: Vec<Vec<String>> = cliques
        .iter()
        .map(|c| {
            let mut s = c.clone();
            s.sort();
            s
        })
        .collect();
    let before = as_sets.len();
    as_sets.sort();
    as_sets.dedup();
    assert_eq!(as_sets.len(), before);
}

#[test]
fn each_clique_is_reported_in_increasing_order() {
    let g = graph_of(&["uvwxy", "pqrst", "klmno", "fghij", "abcde"]);
    let cliques = find_cliques(&g);
    assert_eq!(cliques.len(), 1);
    for c in &cliques {
        for k in 1..c.len() {
            assert!(c[k - 1] < c[k]);
        }
    }
}

#[test]
fn cliques_from_root_only_reports_chains_led_by_that_root() {
    let g = graph_of(&["abcde", "fghij", "klmno", "pqrst", "uvwxy"]);
    let mut found = 0;
    for i in 0..g.len() {
        let part = cliques_from_root(&g, i);
        for c in &part {
            assert_eq!(c[0], g[i].word);
        }
        found += part.len();
    }
    assert_eq!(found, 1);
}

#[test]
fn find_cliques_on_words_without_cliques_is_empty() {
    let g = graph_of(&["abcde", "aefgh", "bfgij"]);
    assert!(find_cliques(&g).is_empty());
}

#[test]
fn word_node_derives_its_letter_set() {
    let w = Word::from_str("edcba");
    assert_eq!(w.word, "edcba");
    assert_eq!(w.to_string(), "edcba");
    let mut cs = w.char_set.clone();
    cs.sort();
    assert_eq!(cs, vec!['a', 'b', 'c', 'd', 'e']);
    assert!(w.neighbors.is_empty());
}

#[test]
fn word_new_keeps_the_given_neighbors() {
    let w = Word::new("abcde".to_string(), Some(strings(&["fghij", "klmno"])));
    assert_eq!(w.neighbors, strings(&["fghij", "klmno"]));
    let w2 = Word::new("abcde".to_string(), None);
    assert!(w2.neighbors.is_empty());
}

#[test]
fn word_identity_is_its_text() {
    let a = Word::new("abcde".to_string(), Some(strings(&["fghij"])));
    let b = Word::new("abcde".to_string(), None);
    let c = Word::from_str("fghij");
    assert!(a == b);
    assert!(!(a == c));
}

#[test]
fn neighbors_render_as_a_comma_separated_list() {
    let w = Word::new("abcde".to_string(), Some(strings(&["fghij", "klmno"])));
    assert_eq!(w.neighbors_to_string(), "fghij, klmno");
    let lone = Word::new("abcde".to_string(), Some(strings(&["fghij"])));
    assert_eq!(lone.neighbors_to_string(), "fghij");
    let none = Word::from_str("abcde");
    assert_eq!(none.neighbors_to_string(), "");
}

#[test]
fn canonical_order_is_plain_lexicographic() {
    assert!(str_lt("abcde", "abcdf"));
    assert!(!str_lt("abcdf", "abcde"));
    assert!(str_lt("abc", "abcde"));
    assert!(!str_lt("abcde", "abcde"));
    assert!(str_lt("", "a"));
}
