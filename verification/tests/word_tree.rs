use portal::util::word_tree::WordTreeNode;

#[test]
fn test() {
    let mut node = WordTreeNode::default();
    node.insert(vec!["com", "example", "api"]);
    assert!(!node.contains(&["com"]));
    assert!(!node.contains(&["com", "example"]));
    assert!(node.contains(&["com", "example", "api"]));
    assert!(node.contains(&["com", "example", "api", "prefix"]));
}

#[test]
fn empty_tree_contains_nothing() {
    let node = WordTreeNode::default();
    let none: [&str; 0] = [];
    assert!(!node.contains(&none));
    assert!(!node.contains(&["com"]));
    assert!(!node.contains(&["com", "example"]));
}

#[test]
fn inserting_no_words_stores_nothing() {
    let mut node = WordTreeNode::default();
    node.insert(Vec::new());
    let none: [&str; 0] = [];
    assert!(!node.contains(&none));
    assert!(!node.contains(&["com"]));
}

#[test]
fn the_empty_sequence_is_never_contained() {
    let mut node = WordTreeNode::default();
    node.insert(vec!["com"]);
    let none: [&str; 0] = [];
    assert!(!node.contains(&none));
    assert!(node.contains(&["com"]));
}

#[test]
fn a_shorter_entry_covers_what_is_below_it() {
    let mut node = WordTreeNode::default();
    node.insert(vec!["com", "example", "api"]);
    node.insert(vec!["com"]);
    assert!(node.contains(&["com"]));
    assert!(node.contains(&["com", "example"]));
    assert!(node.contains(&["com", "other"]));
    assert!(node.contains(&["com", "example", "api", "prefix"]));
    assert!(!node.contains(&["org"]));
}

#[test]
fn inserting_below_an_entry_changes_nothing() {
    let mut node = WordTreeNode::default();
    node.insert(vec!["com", "example"]);
    node.insert(vec!["com", "example", "api"]);
    assert!(!node.contains(&["com"]));
    assert!(node.contains(&["com", "example"]));
    assert!(node.contains(&["com", "example", "web"]));
}

#[test]
fn siblings_are_kept_apart() {
    let mut node = WordTreeNode::default();
    node.insert(vec!["com", "example", "api"]);
    node.insert(vec!["com", "example", "web"]);
    node.insert(vec!["org", "example"]);
    assert!(node.contains(&["com", "example", "api"]));
    assert!(node.contains(&["com", "example", "web", "v1"]));
    assert!(!node.contains(&["com", "example", "mail"]));
    assert!(!node.contains(&["com", "example"]));
    assert!(node.contains(&["org", "example", "api"]));
    assert!(!node.contains(&["org"]));
    assert!(!node.contains(&["example"]));
}

#[test]
fn inserting_twice_is_inserting_once() {
    let mut node = WordTreeNode::default();
    node.insert(vec!["a", "b"]);
    node.insert(vec!["a", "b"]);
    assert!(node.contains(&["a", "b"]));
    assert!(!node.contains(&["a"]));
    assert!(!node.contains(&["b"]));
}

#[test]
fn words_are_compared_whole() {
    let mut node = WordTreeNode::default();
    node.insert(vec!["com", "example"]);
    assert!(!node.contains(&["com", "exampl"]));
    assert!(!node.contains(&["com", "examples"]));
    assert!(!node.contains(&["co", "example"]));
    assert!(!node.contains(&["", "example"]));
}
