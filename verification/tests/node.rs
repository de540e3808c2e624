use mytrie::TrieNode;

fn chars(text: &str) -> Vec<char> {
    text.chars().collect()
}

fn sorted_paths(node: &TrieNode) -> Vec<String> {
    let mut paths = node.iter_content().collect();
    paths.sort();
    paths
}

#[test]
fn new_node_is_a_leaf() {
    let node = TrieNode::new();
    assert!(node.is_leaf());
    assert_eq!(sorted_paths(&node), vec![String::new()]);
}

#[test]
fn default_node_is_a_leaf() {
    let node = TrieNode::default();
    assert!(node.is_leaf());
    assert!(node.get_node(&[]).is_some());
    assert!(node.get_node(&['a']).is_none());
}

#[test]
fn node_insert_makes_one_node_per_char() {
    let mut node = TrieNode::new();
    node.insert(&chars("abc"));
    assert!(!node.is_leaf());
    assert_eq!(sorted_paths(&node), vec!["", "a", "ab", "abc"]);
}

#[test]
fn node_insert_empty_path_changes_nothing() {
    let mut node = TrieNode::new();
    node.insert(&[]);
    assert!(node.is_leaf());
    node.insert(&chars("x"));
    node.insert(&[]);
    assert_eq!(sorted_paths(&node), vec!["", "x"]);
}

#[test]
fn node_insert_twice_is_insert_once() {
    let mut node = TrieNode::new();
    node.insert(&chars("abc"));
    node.insert(&chars("abc"));
    assert_eq!(sorted_paths(&node), vec!["", "a", "ab", "abc"]);
}

#[test]
fn node_insert_shares_prefixes() {
    let mut node = TrieNode::new();
    node.insert(&chars("abc"));
    node.insert(&chars("abd"));
    node.insert(&chars("x"));
    assert_eq!(sorted_paths(&node), vec!["", "a", "ab", "abc", "abd", "x"]);
}

#[test]
fn node_insert_keeps_a_shorter_path_without_mark() {
    let mut node = TrieNode::new();
    node.insert(&chars("ab"));
    node.insert(&chars("a"));
    assert_eq!(sorted_paths(&node), vec!["", "a", "ab"]);
}

#[test]
fn get_node_follows_the_path() {
    let mut node = TrieNode::new();
    node.insert(&chars("abc"));
    node.insert(&chars("abd"));
    let at_ab = node.get_node(&chars("ab")).unwrap();
    assert_eq!(sorted_paths(at_ab), vec!["", "c", "d"]);
    let at_abc = node.get_node(&chars("abc")).unwrap();
    assert!(at_abc.is_leaf());
    assert!(node.get_node(&chars("abx")).is_none());
    assert!(node.get_node(&chars("abcd")).is_none());
    assert!(node.get_node(&chars("b")).is_none());
}

#[test]
fn get_node_with_empty_path_is_the_node() {
    let mut node = TrieNode::new();
    node.insert(&chars("ab"));
    let same = node.get_node(&[]).unwrap();
    assert_eq!(sorted_paths(same), vec!["", "a", "ab"]);
}

#[test]
fn node_remove_prunes_the_chain() {
    let mut node = TrieNode::new();
    node.insert(&chars("abc"));
    assert_eq!(node.remove(&chars("abc")), Some(()));
    assert!(node.is_leaf());
}

#[test]
fn node_remove_keeps_what_others_need() {
    let mut node = TrieNode::new();
    node.insert(&chars("abc"));
    node.insert(&chars("abd"));
    node.insert(&chars("x"));
    assert_eq!(node.remove(&chars("abc")), Some(()));
    assert_eq!(sorted_paths(&node), vec!["", "a", "ab", "abd", "x"]);
}

#[test]
fn node_remove_of_an_inner_path_succeeds_and_keeps_it() {
    let mut node = TrieNode::new();
    node.insert(&chars("abc"));
    assert_eq!(node.remove(&chars("ab")), Some(()));
    assert_eq!(sorted_paths(&node), vec!["", "a", "ab", "abc"]);
}

#[test]
fn node_remove_of_a_missing_path_changes_nothing() {
    let mut node = TrieNode::new();
    node.insert(&chars("abc"));
    assert_eq!(node.remove(&chars("abd")), None);
    assert_eq!(node.remove(&chars("abcd")), None);
    assert_eq!(node.remove(&chars("x")), None);
    assert_eq!(sorted_paths(&node), vec!["", "a", "ab", "abc"]);
}

#[test]
fn node_remove_of_the_empty_path_succeeds() {
    let mut node = TrieNode::new();
    assert_eq!(node.remove(&[]), Some(()));
    node.insert(&chars("a"));
    assert_eq!(node.remove(&[]), Some(()));
    assert_eq!(sorted_paths(&node), vec!["", "a"]);
}

#[test]
fn node_remove_suffixes_hands_over_the_subtree() {
    let mut node = TrieNode::new();
    node.insert(&chars("abc"));
    node.insert(&chars("abd"));
    node.insert(&chars("x"));
    let cut = node.remove_suffixes(&chars("ab")).unwrap();
    assert_eq!(sorted_paths(&cut), vec!["", "c", "d"]);
    assert_eq!(sorted_paths(&node), vec!["", "x"]);
}

#[test]
fn node_remove_suffixes_prunes_the_chain() {
    let mut node = TrieNode::new();
    node.insert(&chars("abc"));
    let cut = node.remove_suffixes(&chars("abc")).unwrap();
    assert!(cut.is_leaf());
    assert!(node.is_leaf());
}

#[test]
fn node_remove_suffixes_keeps_what_others_need() {
    let mut node = TrieNode::new();
    node.insert(&chars("abc"));
    node.insert(&chars("ad"));
    let cut = node.remove_suffixes(&chars("abc")).unwrap();
    assert!(cut.is_leaf());
    assert_eq!(sorted_paths(&node), vec!["", "a", "ad"]);
}

#[test]
fn node_remove_suffixes_of_a_child_of_the_root() {
    let mut node = TrieNode::new();
    node.insert(&chars("ab"));
    node.insert(&chars("x"));
    let cut = node.remove_suffixes(&chars("a")).unwrap();
    assert_eq!(sorted_paths(&cut), vec!["", "b"]);
    assert_eq!(sorted_paths(&node), vec!["", "x"]);
    let cut = node.remove_suffixes(&chars("x")).unwrap();
    assert!(cut.is_leaf());
    assert!(node.is_leaf());
}

#[test]
fn node_remove_suffixes_of_a_missing_prefix_changes_nothing() {
    let mut node = TrieNode::new();
    node.insert(&chars("abc"));
    assert!(node.remove_suffixes(&chars("abx")).is_none());
    assert!(node.remove_suffixes(&chars("b")).is_none());
    assert_eq!(sorted_paths(&node), vec!["", "a", "ab", "abc"]);
}

#[test]
fn node_remove_suffixes_of_the_empty_prefix_hands_over_everything() {
    let mut node = TrieNode::new();
    node.insert(&chars("abc"));
    node.insert(&chars("x"));
    let cut = node.remove_suffixes(&[]).unwrap();
    assert_eq!(sorted_paths(&cut), vec!["", "a", "ab", "abc", "x"]);
    assert!(node.is_leaf());
}

#[test]
fn node_remove_suffixes_of_the_empty_prefix_on_a_leaf() {
    let mut node = TrieNode::new();
    let cut = node.remove_suffixes(&[]).unwrap();
    assert!(cut.is_leaf());
    assert!(node.is_leaf());
}

#[test]
fn child_iter_hands_out_each_path_once() {
    let mut node = TrieNode::new();
    node.insert(&chars("ab"));
    node.insert(&chars("ac"));
    let mut iter = node.iter_content();
    let mut seen = Vec::new();
    while let Some(path) = iter.next() {
        assert!(!seen.contains(&path));
        seen.push(path);
    }
    assert_eq!(iter.next(), None);
    seen.sort();
    assert_eq!(seen, vec!["", "a", "ab", "ac"]);
}

#[test]
fn child_iter_starts_with_the_node_itself() {
    let mut node = TrieNode::new();
    node.insert(&chars("ab"));
    let mut iter = node.iter_content();
    assert_eq!(iter.next(), Some(String::new()));
}

#[test]
fn child_iter_can_be_started_again() {
    let mut node = TrieNode::new();
    node.insert(&chars("ab"));
    let mut first = node.iter_content();
    assert!(first.next().is_some());
    assert_eq!(sorted_paths(&node), vec!["", "a", "ab"]);
    assert_eq!(sorted_paths(&node), vec!["", "a", "ab"]);
}

#[test]
fn node_paths_hold_chars_beyond_ascii() {
    let mut node = TrieNode::new();
    node.insert(&chars("ö\u{10FFFF}\u{D7FF}\u{E000}"));
    assert_eq!(
        sorted_paths(&node),
        vec![
            "",
            "ö",
            "ö\u{10FFFF}",
            "ö\u{10FFFF}\u{D7FF}",
            "ö\u{10FFFF}\u{D7FF}\u{E000}"
        ]
    );
    assert!(node.get_node(&chars("ö\u{10FFFF}")).is_some());
    assert!(node.get_node(&chars("o")).is_none());
}

#[test]
fn get_suffixes_of_a_leaf_is_the_empty_path() {
    let node = TrieNode::new();
    assert_eq!(node.get_suffixes().collect(), vec![String::new()]);
}

#[test]
fn get_suffixes_gives_the_paths_to_the_leaves() {
    let mut node = TrieNode::new();
    node.insert(&chars("abc"));
    node.insert(&chars("abd"));
    node.insert(&chars("x"));
    let mut suffixes = node.get_suffixes().collect();
    suffixes.sort();
    assert_eq!(suffixes, vec!["abc", "abd", "x"]);
}

#[test]
fn get_suffixes_passes_over_a_path_that_goes_on() {
    let mut node = TrieNode::new();
    node.insert(&chars("a"));
    node.insert(&chars("ab"));
    assert_eq!(node.get_suffixes().collect(), vec!["ab"]);
}

#[test]
fn get_suffixes_are_pulled_one_by_one() {
    let mut node = TrieNode::new();
    node.insert(&chars("ab"));
    node.insert(&chars("cd"));
    let mut iter = node.get_suffixes();
    let first = iter.next().unwrap();
    let second = iter.next().unwrap();
    assert_eq!(iter.next(), None);
    assert_eq!(iter.next(), None);
    let mut both = vec![first, second];
    both.sort();
    assert_eq!(both, vec!["ab", "cd"]);
}

#[test]
fn next_node_hands_out_the_node_with_its_path() {
    let mut node = TrieNode::new();
    node.insert(&chars("ab"));
    let mut iter = node.iter_content();
    let (root, path) = iter.next_node().unwrap();
    assert_eq!(path, "");
    assert!(!root.is_leaf());
    let (at_a, path) = iter.next_node().unwrap();
    assert_eq!(path, "a");
    assert_eq!(sorted_paths(at_a), vec!["", "b"]);
    let (at_ab, path) = iter.next_node().unwrap();
    assert_eq!(path, "ab");
    assert!(at_ab.is_leaf());
    assert!(iter.next_node().is_none());
}

#[test]
fn a_node_comes_before_the_nodes_below_it() {
    let mut node = TrieNode::new();
    node.insert(&chars("abc"));
    node.insert(&chars("abd"));
    node.insert(&chars("xy"));
    let order = node.iter_content().collect();
    for (i, path) in order.iter().enumerate() {
        for later in &order[i + 1..] {
            assert!(!path.starts_with(later.as_str()));
        }
    }
}
