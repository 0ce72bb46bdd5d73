use hippocratic_demographics::bk_tree::BKTree;
use hippocratic_demographics::fuzzy_matching::{
    cluster_osa, EditDistanceCalculator, LevenshteinEditDistanceCalculator, OsaEditDistanceCalculator,
};
use std::collections::{BTreeMap, BTreeSet, HashSet};

fn lev(a: &str, b: &str) -> usize {
    LevenshteinEditDistanceCalculator {}.get_edit_distance(&a.to_string(), &b.to_string())
}

fn osa(a: &str, b: &str) -> usize {
    OsaEditDistanceCalculator {}.get_edit_distance(&a.to_string(), &b.to_string())
}

fn as_map<R: Ord + Clone>(found: &[(&String, &HashSet<R>)]) -> BTreeMap<String, BTreeSet<R>> {
    let mut m = BTreeMap::new();
    for (v, recs) in found {
        let prev = m.insert((*v).clone(), recs.iter().cloned().collect::<BTreeSet<R>>());
        assert!(prev.is_none(), "value reported twice: {}", v);
    }
    m
}

fn set_of(items: &[u32]) -> BTreeSet<u32> {
    items.iter().cloned().collect()
}

#[test]
fn test_osa_algorithm_name() {
    let osa = &OsaEditDistanceCalculator {};
    assert_eq!(osa.algorithm_name(), "Optimal String Alignment");
}

#[test]
fn test_osa_get_edit_distance_1() {
    let osa = &OsaEditDistanceCalculator {};
    assert_eq!(osa.get_edit_distance(&String::from("blah"), &String::from("bleh")), 1);
}

#[test]
fn test_osa_equal_strings() {
    let osa = &OsaEditDistanceCalculator {};
    let s = String::from("The quick brown fox jumps over the lazy dog");
    assert_eq!(osa.get_edit_distance(&s, &s), 0);
}

#[test]
fn test_levenshtein_algorithm_name() {
    let levenshtein = &LevenshteinEditDistanceCalculator {};
    assert_eq!(levenshtein.algorithm_name(), "Levenshtein");
}

#[test]
fn test_levenshtein_get_edit_distance_1() {
    let levenshtein = &LevenshteinEditDistanceCalculator {};
    assert_eq!(levenshtein.get_edit_distance(&String::from("blah"), &String::from("bleh")), 1);
}

#[test]
fn test_levenshtein_equal_strings() {
    let levenshtein = &LevenshteinEditDistanceCalculator {};
    let s = String::from("The quick brown fox jumps over the lazy dog");
    assert_eq!(levenshtein.get_edit_distance(&s, &s), 0);
}

#[test]
fn distance_to_self_is_zero() {
    for s in ["", "a", "blah", "e\u{301}te\u{301}", "Jane Doe"] {
        assert_eq!(lev(s, s), 0);
        assert_eq!(osa(s, s), 0);
    }
}

#[test]
fn distance_is_symmetric() {
    let words = ["", "ab", "ba", "abc", "ca", "kitten", "sitting", "blah", "bleh", "blck"];
    for a in words {
        for b in words {
            assert_eq!(lev(a, b), lev(b, a), "levenshtein {} {}", a, b);
            assert_eq!(osa(a, b), osa(b, a), "osa {} {}", a, b);
        }
    }
}

#[test]
fn known_distances() {
    assert_eq!(lev("kitten", "sitting"), 3);
    assert_eq!(osa("kitten", "sitting"), 3);
    assert_eq!(lev("", "abc"), 3);
    assert_eq!(osa("abc", ""), 3);
    assert_eq!(lev("blah", "blck"), 2);
    assert_eq!(osa("blah", "blck"), 2);
}

#[test]
fn osa_counts_one_adjacent_swap() {
    assert_eq!(osa("ab", "ba"), 1);
    assert_eq!(lev("ab", "ba"), 2);
    assert_eq!(osa("abcdef", "abdcef"), 1);
    assert_eq!(osa("ab", "bca"), 3);
}

#[test]
fn osa_edits_a_swapped_pair_no_further() {
    assert_eq!(osa("ca", "abc"), 3);
    assert_eq!(lev("ca", "abc"), 3);
}

#[test]
fn distances_count_grapheme_clusters() {
    // "a" with a combining mark is one cluster but two characters.
    let marked = "a\u{310}b";
    assert_eq!(lev(marked, "b"), 1);
    assert_eq!(osa(marked, "b"), 1);
    assert_eq!(lev("e\u{301}", "e"), 1);
    assert_eq!(lev("\u{1F1F7}\u{1F1FA}", "\u{1F1F8}\u{1F1F9}"), 1);
    assert_eq!(osa("xy\u{1F1F7}\u{1F1FA}", "x\u{1F1F7}\u{1F1FA}y"), 1);
}

fn scenario_tree() -> BKTree<u32, LevenshteinEditDistanceCalculator> {
    let mut tree = BKTree::new("blah".to_string(), 1, LevenshteinEditDistanceCalculator {}, 1);
    assert!(tree.insert("bleh".to_string(), 2));
    assert!(tree.insert("blck".to_string(), 3));
    tree
}

#[test]
fn scenario_threshold_one_and_two() {
    let tree = scenario_tree();
    let query = "blah".to_string();
    let near = as_map(&tree.search(&query, 1));
    let mut expected = BTreeMap::new();
    expected.insert("blah".to_string(), set_of(&[1]));
    expected.insert("bleh".to_string(), set_of(&[2]));
    assert_eq!(near, expected);
    let all = as_map(&tree.search(&query, 2));
    expected.insert("blck".to_string(), set_of(&[3]));
    assert_eq!(all, expected);
}

#[test]
fn search_at_zero_returns_only_the_value() {
    let mut tree = scenario_tree();
    assert!(tree.insert("blah".to_string(), 4));
    for (query, records) in [("blah", vec![1, 4]), ("bleh", vec![2]), ("blck", vec![3])] {
        let found = as_map(&tree.search(&query.to_string(), 0));
        let mut expected = BTreeMap::new();
        expected.insert(query.to_string(), set_of(&records));
        assert_eq!(found, expected);
    }
    assert!(tree.search(&"blxh".to_string(), 0).is_empty());
}

#[test]
fn inserted_record_is_found_by_its_value() {
    let mut tree = BKTree::new("anchor".to_string(), 0u32, OsaEditDistanceCalculator {}, 2);
    let values = ["anchor", "ancher", "bunker", "ankor", "", "a", "zzzz"];
    for (i, v) in values.iter().enumerate() {
        tree.insert(v.to_string(), 10 + i as u32);
        let found = as_map(&tree.search(&v.to_string(), 0));
        assert!(found[*v].contains(&(10 + i as u32)));
    }
}

#[test]
fn inserting_twice_changes_nothing() {
    let mut tree = scenario_tree();
    assert!(tree.insert("bluh".to_string(), 7));
    let once = as_map(&tree.search(&"bluh".to_string(), 4));
    assert!(!tree.insert("bluh".to_string(), 7));
    let twice = as_map(&tree.search(&"bluh".to_string(), 4));
    assert_eq!(once, twice);
    assert_eq!(twice["bluh"], set_of(&[7]));
    assert!(!tree.insert("blah".to_string(), 1));
}

#[test]
fn equidistant_values_are_kept_apart() {
    let mut tree = BKTree::new("cat".to_string(), 1u32, LevenshteinEditDistanceCalculator {}, 0);
    assert!(tree.insert("bat".to_string(), 2));
    assert!(tree.insert("hat".to_string(), 3));
    assert!(tree.insert("mat".to_string(), 4));
    let found = as_map(&tree.search(&"cat".to_string(), 1));
    assert_eq!(found.len(), 4);
    assert_eq!(found["hat"], set_of(&[3]));
    assert_eq!(found["mat"], set_of(&[4]));
}

#[test]
fn default_threshold_is_kept() {
    let mut tree = BKTree::new("x".to_string(), 1u32, OsaEditDistanceCalculator {}, 3);
    tree.insert("y".to_string(), 2);
    assert_eq!(tree.max_distance_to_consider(), 3);
}

fn next(seed: &mut u64) -> u64 {
    *seed = seed.wrapping_mul(6364136223846793005).wrapping_add(1442695040888963407);
    *seed >> 33
}

fn random_word(seed: &mut u64) -> String {
    let alphabet = ['a', 'b', 'c', 'd', '\u{e9}'];
    let len = next(seed) % 7;
    (0..len).map(|_| alphabet[(next(seed) % 5) as usize]).collect()
}

#[test]
fn search_matches_a_linear_scan() {
    let mut seed = 17u64;
    for _ in 0..30 {
        let first = random_word(&mut seed);
        let mut tree = BKTree::new(first.clone(), 0u32, LevenshteinEditDistanceCalculator {}, 1);
        let mut stored: BTreeMap<String, BTreeSet<u32>> = BTreeMap::new();
        stored.entry(first).or_default().insert(0);
        for r in 1..40u32 {
            let w = random_word(&mut seed);
            tree.insert(w.clone(), r);
            stored.entry(w).or_default().insert(r);
        }
        for _ in 0..10 {
            let q = random_word(&mut seed);
            let t = (next(&mut seed) % 4) as usize;
            let found = as_map(&tree.search(&q, t));
            let scan: BTreeMap<String, BTreeSet<u32>> = stored
                .iter()
                .filter(|(v, _)| lev(v, &q) <= t)
                .map(|(v, r)| (v.clone(), r.clone()))
                .collect();
            assert_eq!(found, scan, "query {:?} threshold {}", q, t);
        }
    }
}

#[test]
fn osa_search_reports_only_values_within_threshold() {
    let mut seed = 5u64;
    let mut tree = BKTree::new("abc".to_string(), 0u32, OsaEditDistanceCalculator {}, 1);
    for r in 1..60u32 {
        tree.insert(random_word(&mut seed), r);
    }
    for _ in 0..20 {
        let q = random_word(&mut seed);
        for (v, _) in tree.search(&q, 2) {
            assert!(osa(v, &q) <= 2);
        }
    }
}

fn words(items: &[&str]) -> Vec<String> {
    items.iter().map(|s| s.to_string()).collect()
}

#[test]
fn cluster_osa_compares_whole_clusters() {
    assert_eq!(cluster_osa(&words(&["ab", "c"]), &words(&["c", "ab"])), 1);
    assert_eq!(cluster_osa(&words(&["ab", "c"]), &words(&["a", "b", "c"])), 2);
    assert_eq!(cluster_osa(&words(&[]), &words(&["x", "y"])), 2);
    assert_eq!(cluster_osa(&words(&["k", "i", "t"]), &words(&["k", "i", "t"])), 0);
}

#[test]
fn osa_search_can_skip_a_match_across_a_swap() {
    // OSA breaks the triangle inequality: "ca" is 1 from "ac", "ac" is 1
    // from "abc", yet "ca" is 3 from "abc", so the subtree holding "ca" lies
    // outside the window of a search for "ac" within 1.
    assert_eq!(osa("ca", "ac"), 1);
    assert_eq!(osa("abc", "ac"), 1);
    assert_eq!(osa("abc", "ca"), 3);
    let mut tree = BKTree::new("abc".to_string(), 1u32, OsaEditDistanceCalculator {}, 1);
    tree.insert("ca".to_string(), 2);
    let found = as_map(&tree.search(&"ac".to_string(), 1));
    let mut expected = BTreeMap::new();
    expected.insert("abc".to_string(), set_of(&[1]));
    assert_eq!(found, expected);
}
