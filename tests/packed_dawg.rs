use packed_dawg::{common_prefix, prep_word, PackedDawg, PackedDawgBuilder};

fn symbols(s: &str) -> Vec<char> {
    s.chars().collect()
}

fn dictionary() -> Vec<&'static str> {
    vec!["apple", "banana", "cherry"]
}

fn sorted(mut r: Vec<(String, u32)>) -> Vec<(String, u32)> {
    r.sort();
    r
}

#[test]
fn has_word() {
    let words = dictionary();
    let dawg = PackedDawg::from_words(&words);
    for word in words {
        assert!(dawg.has_word(word));
    }
}

#[test]
fn lookup() {
    let words = dictionary();
    let dawg = PackedDawg::from_words(&words);
    for word in words {
        for i in 0..word.chars().count() {
            assert!(dawg.lookup(&word[0..i]).is_some());
        }
    }
}

#[test]
fn search() {
    let words = dictionary();
    let dawg = PackedDawg::from_words(&words);

    let search_results = dawg.search("cherry", 0);
    assert!(search_results.len() == 1);

    let search_results = dawg.search("appl", 1);
    assert!(search_results.len() == 1);

    let search_results = dawg.search("app", 2);
    assert!(search_results.len() == 1);

    let mut search_results = dawg.search("a", 6);
    search_results.sort_by(|(_, a_dist), (_, b_dist)| a_dist.cmp(b_dist));
    assert_eq!(
        vec![
            (String::from("apple"), 4),
            (String::from("banana"), 5),
            (String::from("cherry"), 6),
        ],
        search_results
    );
}

#[test]
fn literal_scenario_entries() {
    let dawg = PackedDawg::from_words(&dictionary());
    assert_eq!(dawg.search("cherry", 0), vec![(String::from("cherry"), 0)]);
    assert_eq!(dawg.search("appl", 1), vec![(String::from("apple"), 1)]);
    assert_eq!(dawg.search("app", 2), vec![(String::from("apple"), 2)]);
}

#[test]
fn exact_search_matches_membership() {
    let dawg = PackedDawg::from_words(&dictionary());
    for w in dictionary() {
        assert_eq!(dawg.search(w, 0), vec![(String::from(w), 0)]);
    }
    assert!(dawg.search("appl", 0).is_empty());
    assert!(dawg.search("bananas", 0).is_empty());
    assert!(dawg.search("", 0).is_empty());
}

#[test]
fn widening_cost_keeps_results() {
    let dawg = PackedDawg::from_words(&dictionary());
    for query in ["a", "banan", "chery", "xyz", ""] {
        for n in 0..8u32 {
            let small = dawg.search(query, n);
            let large = dawg.search(query, n + 1);
            for entry in &small {
                assert!(entry.1 <= n);
                assert!(large.contains(entry));
            }
            for entry in &large {
                assert!(entry.1 <= n + 1);
            }
        }
    }
}

#[test]
fn proper_prefix_is_not_a_word() {
    let dawg = PackedDawg::from_words(&dictionary());
    assert!(!dawg.has_word("app"));
    assert!(dawg.lookup("app").is_some());
    assert!(!dawg.has_word("b"));
    assert!(dawg.lookup("b").is_some());
    assert!(dawg.lookup("cherries").is_none());
    assert!(!dawg.has_word("zebra"));
}

#[test]
fn queries_are_normalized() {
    let dawg = PackedDawg::from_words(&vec!["  Apple ", "BANANA"]);
    assert!(dawg.has_word("apple"));
    assert!(dawg.has_word(" APPLE\t"));
    assert!(dawg.has_word("banana"));
    assert_eq!(dawg.search("ApPlE", 0), vec![(String::from("apple"), 0)]);
}

#[test]
fn prefix_words_are_kept() {
    let dawg = PackedDawg::from_words(&vec!["app", "apple", "applesauce"]);
    assert!(dawg.has_word("app"));
    assert!(dawg.has_word("apple"));
    assert!(dawg.has_word("applesauce"));
    assert!(!dawg.has_word("appl"));
    assert_eq!(
        sorted(dawg.search("apple", 5)),
        vec![
            (String::from("app"), 2),
            (String::from("apple"), 0),
            (String::from("applesauce"), 5),
        ]
    );
}

#[test]
fn shared_suffixes_still_answer_exactly() {
    let dawg = PackedDawg::from_words(&vec!["catalog", "dialog"]);
    assert!(dawg.has_word("catalog"));
    assert!(dawg.has_word("dialog"));
    assert!(!dawg.has_word("calog"));
    assert!(!dawg.has_word("dialo"));
    assert!(!dawg.has_word("diatalog"));
    assert!(dawg.lookup("catalo").is_some());
    assert_eq!(
        sorted(dawg.search("dialog", 3)),
        vec![(String::from("catalog"), 3), (String::from("dialog"), 0)]
    );
    assert_eq!(dawg.search("dialog", 2), vec![(String::from("dialog"), 0)]);
    assert_eq!(
        sorted(dawg.search("log", 4)),
        vec![(String::from("catalog"), 4), (String::from("dialog"), 3)]
    );
}

#[test]
fn common_suffix_is_shared() {
    let words = vec!["catalog", "dialog"];
    let dawg = PackedDawg::from_words(&words);
    let mut reached: Vec<usize> = Vec::new();
    for word in &words {
        for i in 0..=word.len() {
            let node = dawg.lookup(&word[0..i]).unwrap();
            if !reached.contains(&node) {
                reached.push(node);
            }
        }
    }
    assert!(reached.len() < 7 + 6 + 1);
    assert_eq!(reached.len(), 9);
    assert_eq!(dawg.lookup("catalog"), dawg.lookup("dialog"));
    assert_eq!(dawg.lookup("cat"), dawg.lookup("di"));
}

#[test]
fn out_of_order_and_repeated_words_are_ignored() {
    let dawg = PackedDawg::from_words(&vec!["banana", "apple", "banana", "cherry"]);
    assert!(dawg.has_word("banana"));
    assert!(!dawg.has_word("apple"));
    assert!(dawg.has_word("cherry"));
}

#[test]
fn empty_word_and_empty_list() {
    let dawg = PackedDawg::from_words(&vec![]);
    assert!(!dawg.has_word(""));
    assert_eq!(dawg.lookup(""), Some(0));
    assert!(dawg.search("abc", 10).is_empty());

    let dawg = PackedDawg::from_words(&vec!["", "a"]);
    assert!(dawg.has_word(""));
    assert!(dawg.has_word("a"));
    assert_eq!(
        sorted(dawg.search("", 1)),
        vec![(String::from(""), 0), (String::from("a"), 1)]
    );
}

#[test]
fn builder_by_hand() {
    let mut builder = PackedDawgBuilder::new();
    builder.insert_word(vec!['c', 'a', 't']);
    builder.insert_word(vec!['c', 'a', 't', 's']);
    builder.insert_word(vec!['d', 'o', 'g']);
    let dawg = builder.finish();
    assert!(dawg.has_word("cat"));
    assert!(dawg.has_word("cats"));
    assert!(dawg.has_word("dog"));
    assert!(!dawg.has_word("ca"));
    assert_eq!(sorted(dawg.search("cot", 1)), vec![(String::from("cat"), 1)]);
}

#[test]
fn common_prefix_lengths() {
    let a: Vec<char> = "apple".chars().collect();
    let b: Vec<char> = "apply".chars().collect();
    let c: Vec<char> = "app".chars().collect();
    let d: Vec<char> = "banana".chars().collect();
    assert_eq!(common_prefix(&a, &b), 4);
    assert_eq!(common_prefix(&a, &c), 3);
    assert_eq!(common_prefix(&c, &a), 3);
    assert_eq!(common_prefix(&a, &d), 0);
    assert_eq!(common_prefix(&a, &a), 5);
    assert_eq!(common_prefix(&vec![], &a), 0);
}

#[test]
fn prep_word_trims_and_folds() {
    assert_eq!(prep_word("  HeLLo \n"), vec!['h', 'e', 'l', 'l', 'o']);
    assert_eq!(prep_word("abc"), vec!['a', 'b', 'c']);
    assert_eq!(prep_word("   "), Vec::<char>::new());
}

#[test]
fn symbol_level_queries() {
    let dawg = PackedDawg::from_words(&dictionary());
    assert!(dawg.has_symbols(&symbols("banana")));
    assert!(!dawg.has_symbols(&symbols("Banana")));
    assert!(!dawg.has_symbols(&symbols("banan")));
    assert_eq!(dawg.lookup_symbols(&symbols("")), Some(0));
    assert!(dawg.lookup_symbols(&symbols("ban")).is_some());
    assert!(dawg.lookup_symbols(&symbols("ban")) != Some(0));
    assert!(dawg.lookup_symbols(&symbols("bx")).is_none());
    assert_eq!(
        dawg.search_symbols(&symbols("cherri"), 1),
        vec![(String::from("cherry"), 1)]
    );
    assert!(dawg.search_symbols(&symbols("CHERRY"), 0).is_empty());
}

#[test]
fn absent_words_have_no_node() {
    let dawg = PackedDawg::from_words(&dictionary());
    assert_eq!(dawg.lookup(""), Some(0));
    assert_eq!(dawg.lookup("   "), Some(0));
    assert_eq!(dawg.lookup("grape"), None);
    assert_eq!(dawg.lookup("applex"), None);
    assert_eq!(dawg.lookup("bananas"), None);
}

#[test]
fn merged_suffix_nodes_are_shared_across_words() {
    let dawg = PackedDawg::from_words(&vec!["bat", "cat", "hat"]);
    assert_eq!(dawg.lookup("b"), dawg.lookup("c"));
    assert_eq!(dawg.lookup("c"), dawg.lookup("h"));
    assert_eq!(dawg.lookup("bat"), dawg.lookup("hat"));
    assert!(dawg.has_word("hat"));
    assert!(!dawg.has_word("ha"));
}
