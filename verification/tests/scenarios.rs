use mytrie::Trie;

fn sorted(mut items: Vec<String>) -> Vec<String> {
    items.sort();
    items
}

#[test]
fn greetings_scenario() {
    let mut trie = Trie::new();
    trie.insert("Hallo");
    trie.insert("Hallöchen");
    trie.insert("Tschüs");
    assert!(trie.contains_prefix("Hall"));
    assert!(!trie.contains_prefix("ABC"));
    assert_eq!(
        sorted(trie.iter_content("Hall").collect()),
        vec!["Hallo", "Hallöchen"]
    );
    assert_eq!(trie.remove("Hallöchen"), Some(()));
    assert_eq!(
        sorted(trie.iter_content("").collect()),
        vec!["Hallo", "Tschüs"]
    );
}

#[test]
fn one_string_is_prefix_of_another() {
    let mut trie = Trie::new();
    trie.insert("Hallo");
    trie.insert("Hallo Welt");
    assert!(trie.contains("Hallo"));
    assert_eq!(
        sorted(trie.iter_content("Hallo").collect()),
        vec!["Hallo", "Hallo Welt"]
    );
    assert_eq!(
        sorted(trie.iter_suffixes("Hallo").collect()),
        vec!["", " Welt"]
    );
}

#[test]
fn round_trip_gives_back_what_went_in() {
    let strings = ["", "a", "ab", "abc", "b", "ba", "日本語", "日本"];
    let trie = Trie::from(&strings);
    let mut expected: Vec<String> = strings.iter().map(|s| s.to_string()).collect();
    expected.sort();
    assert_eq!(sorted(trie.iter_content("").collect()), expected);
}

#[test]
fn inserting_twice_stores_once() {
    let trie = Trie::from(&["a", "a", "b", "a"]);
    assert_eq!(sorted(trie.iter_content("").collect()), vec!["a", "b"]);
}

#[test]
fn empty_input_gives_empty_trie() {
    let nothing: [&str; 0] = [];
    let trie = Trie::from(&nothing);
    assert!(trie.is_empty());
    assert_eq!(trie.iter_content("").collect(), Vec::<String>::new());
    assert_eq!(trie.iter_suffixes("").collect(), Vec::<String>::new());
}

#[test]
fn new_and_default_are_empty() {
    assert!(Trie::new().is_empty());
    assert!(Trie::default().is_empty());
    assert!(!Trie::new().contains(""));
}

#[test]
fn empty_string_can_be_stored() {
    let mut trie = Trie::default();
    assert!(trie.is_empty());
    trie.insert("");
    assert!(!trie.is_empty());
    assert!(trie.contains(""));
    assert_eq!(trie.iter_content("").collect(), vec![String::new()]);
    assert_eq!(trie.remove(""), Some(()));
    assert!(trie.is_empty());
}

#[test]
fn prefix_query_gives_the_matching_subset() {
    let trie = Trie::from(&["Hallo", "Hallöchen", "Tschüs", "Hallo Welt"]);
    assert_eq!(
        sorted(trie.iter_content("Hallo").collect()),
        vec!["Hallo", "Hallo Welt"]
    );
    assert_eq!(sorted(trie.iter_content("T").collect()), vec!["Tschüs"]);
    assert_eq!(
        sorted(trie.iter_content("Tschüs").collect()),
        vec!["Tschüs"]
    );
    assert_eq!(
        trie.iter_content("Tschüss").collect(),
        Vec::<String>::new()
    );
    assert_eq!(trie.iter_content("x").collect(), Vec::<String>::new());
}

#[test]
fn content_with_prefix_is_iter_content() {
    let trie = Trie::from(&["Hallo", "Hallöchen"]);
    assert_eq!(
        sorted(trie.content_with_prefix("Hall").collect()),
        vec!["Hallo", "Hallöchen"]
    );
}

#[test]
fn suffixes_come_without_the_prefix() {
    let trie = Trie::from(&["Hallo", "Hallöchen"]);
    assert_eq!(
        sorted(trie.iter_suffixes("Hall").collect()),
        vec!["o", "öchen"]
    );
    assert_eq!(trie.iter_suffixes("Hallo").collect(), vec![String::new()]);
    assert_eq!(trie.iter_suffixes("Ha!").collect(), Vec::<String>::new());
}

#[test]
fn contains_prefix_examples() {
    let trie = Trie::from(&["Hallo", "Hallöchen", "Tschüs", "Hallo Welt"]);
    assert!(trie.contains_prefix("Hall"));
    assert!(trie.contains_prefix("Hallo"));
    assert!(!trie.contains_prefix("ABC"));
    assert!(trie.contains_prefix(""));
}

#[test]
fn empty_prefix_is_always_there() {
    assert!(Trie::new().contains_prefix(""));
    let mut trie = Trie::from(&["a"]);
    assert!(trie.contains_prefix(""));
    trie.remove("a");
    assert!(trie.contains_prefix(""));
}

#[test]
fn contains_tells_strings_from_prefixes() {
    let trie = Trie::from(&["Hallo"]);
    assert!(!trie.contains("Hall"));
    assert!(trie.contains("Hallo"));
    assert!(!trie.contains("Hallo!"));
    assert!(!trie.contains(""));
}

#[test]
fn remove_takes_one_string_away() {
    let mut trie = Trie::from(&["Hallo", "Hallöchen", "Tschüs"]);
    assert_eq!(trie.remove("Hallo"), Some(()));
    assert!(!trie.contains("Hallo"));
    assert_eq!(
        sorted(trie.iter_content("").collect()),
        vec!["Hallöchen", "Tschüs"]
    );
}

#[test]
fn remove_of_a_missing_string_is_none_and_changes_nothing() {
    let mut trie = Trie::from(&["Hallo", "Tschüs"]);
    assert_eq!(trie.remove("Hall"), None);
    assert_eq!(trie.remove("Hallo!"), None);
    assert_eq!(trie.remove(""), None);
    assert_eq!(trie.remove("ABC"), None);
    assert_eq!(
        sorted(trie.iter_content("").collect()),
        vec!["Hallo", "Tschüs"]
    );
    assert_eq!(Trie::new().remove("x"), None);
}

#[test]
fn remove_twice_fails_the_second_time() {
    let mut trie = Trie::from(&["Hallo"]);
    assert_eq!(trie.remove("Hallo"), Some(()));
    assert_eq!(trie.remove("Hallo"), None);
}

#[test]
fn remove_prunes_the_nodes_nobody_needs() {
    let mut trie = Trie::from(&["Hallo", "Hallöchen"]);
    assert_eq!(trie.remove("Hallöchen"), Some(()));
    assert!(trie.contains_prefix("Hallo"));
    assert!(!trie.contains_prefix("Hallö"));
    assert!(!trie.contains_prefix("Hallöchen"));
    assert_eq!(trie.remove("Hallo"), Some(()));
    assert!(!trie.contains_prefix("H"));
    assert!(trie.is_empty());
}

#[test]
fn remove_of_the_shorter_string_keeps_the_longer() {
    let mut trie = Trie::from(&["Hallo", "Hallo Welt"]);
    assert_eq!(trie.remove("Hallo"), Some(()));
    assert!(!trie.contains("Hallo"));
    assert!(trie.contains("Hallo Welt"));
    assert!(trie.contains_prefix("Hallo"));
    assert_eq!(trie.iter_content("").collect(), vec!["Hallo Welt"]);
}

#[test]
fn remove_all_leaves_an_empty_trie() {
    let strings = ["b", "ab", "abc", "", "a"];
    let mut trie = Trie::from(&strings);
    for s in strings {
        assert!(!trie.is_empty());
        assert_eq!(trie.remove(s), Some(()));
    }
    assert!(trie.is_empty());
}

#[test]
fn remove_suffixes_hands_over_the_rest_of_the_strings() {
    let mut trie = Trie::from(&["Hallo", "Hallöchen", "Tschüs"]);
    let removed: Trie = trie.remove_suffixes("Hal").unwrap();
    assert_eq!(
        sorted(removed.iter_content("").collect()),
        vec!["lo", "löchen"]
    );
    assert_eq!(trie.iter_content("").collect(), vec!["Tschüs"]);
    assert!(!trie.contains("Hallo"));
    assert!(!trie.contains_prefix("H"));
    assert!(removed.contains("lo"));
}

#[test]
fn remove_suffixes_of_a_stored_string_hands_over_the_empty_string() {
    let mut trie = Trie::from(&["Hallo", "Hallo Welt", "Ha"]);
    let removed = trie.remove_suffixes("Hallo").unwrap();
    assert_eq!(sorted(removed.iter_content("").collect()), vec!["", " Welt"]);
    assert_eq!(trie.iter_content("").collect(), vec!["Ha"]);
}

#[test]
fn remove_suffixes_of_a_missing_prefix_is_none() {
    let mut trie = Trie::from(&["Hallo", "Tschüs"]);
    assert!(trie.remove_suffixes("ABC").is_none());
    assert!(trie.remove_suffixes("Hallo!").is_none());
    assert_eq!(
        sorted(trie.iter_content("").collect()),
        vec!["Hallo", "Tschüs"]
    );
}

#[test]
fn remove_suffixes_of_the_empty_prefix_hands_over_everything() {
    let mut trie = Trie::from(&["a", "b"]);
    let removed = trie.remove_suffixes("").unwrap();
    assert_eq!(sorted(removed.iter_content("").collect()), vec!["a", "b"]);
    assert_eq!(trie.iter_content("").collect().len(), 0);
    assert!(trie.is_empty());
    assert!(trie.contains_prefix(""));
}

#[test]
fn remove_suffixes_of_the_empty_prefix_on_an_empty_trie() {
    let mut trie = Trie::new();
    let removed = trie.remove_suffixes("").unwrap();
    assert!(removed.is_empty());
    assert!(trie.is_empty());
}

#[test]
fn a_trie_can_be_filled_again_after_all_was_handed_over() {
    let mut trie = Trie::from(&["Hallo"]);
    let removed = trie.remove_suffixes("").unwrap();
    trie.insert("Tschüs");
    assert_eq!(trie.iter_content("").collect(), vec!["Tschüs"]);
    assert_eq!(removed.iter_content("").collect(), vec!["Hallo"]);
}

#[test]
fn remove_suffixes_prunes_the_nodes_nobody_needs() {
    let mut trie = Trie::from(&["Hallo"]);
    let removed = trie.remove_suffixes("Hal");
    assert!(removed.is_some());
    assert!(trie.is_empty());
    assert!(!trie.contains_prefix("H"));
    assert_eq!(removed.unwrap().iter_content("").collect(), vec!["lo"]);
}

#[test]
fn remove_suffixes_of_a_whole_string_leaves_no_leaf_behind() {
    let mut trie = Trie::from(&["ab"]);
    let removed = trie.remove_suffixes("ab").unwrap();
    assert_eq!(removed.iter_content("").collect(), vec![String::new()]);
    assert_eq!(trie.iter_content("").collect(), Vec::<String>::new());
    assert!(!trie.contains_prefix("a"));
    assert!(!trie.contains_prefix("ab"));
    assert!(trie.is_empty());
}

#[test]
fn remove_suffixes_keeps_the_nodes_that_others_need() {
    let mut trie = Trie::from(&["Hallo", "Hallöchen", "Ha"]);
    let removed = trie.remove_suffixes("Hall").unwrap();
    assert_eq!(sorted(removed.iter_content("").collect()), vec!["o", "öchen"]);
    assert_eq!(trie.iter_content("").collect(), vec!["Ha"]);
    assert!(trie.contains_prefix("Ha"));
    assert!(!trie.contains_prefix("Hal"));
    assert!(!trie.is_empty());
}

#[test]
fn is_empty_looks_at_the_root() {
    let mut trie = Trie::default();
    assert!(trie.is_empty());
    trie.insert("x");
    assert!(!trie.is_empty());
    trie.remove("y");
    assert!(!trie.is_empty());
    trie.remove("x");
    assert!(trie.is_empty());
}

#[test]
fn stop_symbol_never_comes_out() {
    let trie = Trie::from(&["Hallo", "Hallöchen", "Tschüs", ""]);
    for content in trie.iter_content("").collect() {
        assert!(!content.contains('\u{0}'));
    }
    for suffix in trie.iter_suffixes("Hall").collect() {
        assert!(!suffix.contains('\u{0}'));
    }
    let mut trie = trie;
    let removed = trie.remove_suffixes("Hall").unwrap();
    for content in removed.iter_content("").collect() {
        assert!(!content.contains('\u{0}'));
    }
}

#[test]
fn prefix_with_stop_symbol_finds_the_end_of_a_string() {
    let trie = Trie::from(&["ab"]);
    assert!(trie.contains_prefix("ab\u{0}"));
    assert!(!trie.contains_prefix("a\u{0}"));
    assert_eq!(trie.iter_content("ab\u{0}").collect(), Vec::<String>::new());
}

#[test]
fn string_with_stop_symbol_stores_its_front_too() {
    let mut trie = Trie::new();
    trie.insert("a\u{0}b");
    assert!(trie.contains("a\u{0}b"));
    assert!(trie.contains("a"));
    assert_eq!(
        sorted(trie.iter_content("").collect()),
        vec!["a", "a\u{0}b"]
    );
    assert_eq!(trie.remove("a"), Some(()));
    assert!(trie.contains("a"));
}

#[test]
fn enumeration_is_pulled_one_by_one() {
    let trie = Trie::from(&["a", "b", "c"]);
    let mut iter = trie.iter_content("");
    let first = iter.next().unwrap();
    let second = iter.next().unwrap();
    let third = iter.next().unwrap();
    assert_eq!(iter.next(), None);
    assert_eq!(iter.next(), None);
    assert_eq!(sorted(vec![first, second, third]), vec!["a", "b", "c"]);
}

#[test]
fn suffixes_are_pulled_one_by_one() {
    let trie = Trie::from(&["xa", "xb", "y"]);
    let mut iter = trie.iter_suffixes("x");
    let first = iter.next().unwrap();
    let rest = iter.collect();
    assert_eq!(rest.len(), 1);
    assert_ne!(first, rest[0]);
    assert_eq!(sorted(vec![first, rest[0].clone()]), vec!["a", "b"]);
}

#[test]
fn enumeration_of_a_missing_prefix_is_empty_from_the_start() {
    let trie = Trie::from(&["a"]);
    let mut suffixes = trie.iter_suffixes("b");
    assert_eq!(suffixes.next(), None);
    let mut contents = trie.iter_content("b");
    assert_eq!(contents.next(), None);
}

#[test]
fn enumeration_can_be_started_again() {
    let trie = Trie::from(&["a", "b"]);
    let mut first = trie.iter_content("");
    assert!(first.next().is_some());
    assert_eq!(sorted(trie.iter_content("").collect()), vec!["a", "b"]);
    assert!(first.next().is_some());
    assert_eq!(first.next(), None);
}

#[test]
fn chars_beyond_ascii_are_one_edge_each() {
    let trie = Trie::from(&["ö", "öl", "\u{10FFFF}z", "e\u{301}"]);
    assert!(trie.contains_prefix("ö"));
    assert!(trie.contains_prefix("e"));
    assert!(trie.contains_prefix("\u{10FFFF}"));
    assert!(!trie.contains_prefix("\u{301}"));
    assert!(!trie.contains("e"));
    assert_eq!(sorted(trie.iter_suffixes("ö").collect()), vec!["", "l"]);
    assert_eq!(trie.iter_suffixes("e").collect(), vec!["\u{301}"]);
    assert_eq!(trie.iter_content("\u{10FFFF}").collect(), vec!["\u{10FFFF}z"]);
}

#[test]
fn from_iter_is_from() {
    let trie = Trie::from_iter(&["aaa", "aab", "aac"]);
    assert_eq!(
        sorted(trie.iter_content("aa").collect()),
        vec!["aaa", "aab", "aac"]
    );
}
