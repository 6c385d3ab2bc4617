//! The rule trie built by hand: transitions, lookups, and the collected
//! rule paths.

use thomson::Edge;
use thomson::Key;
use thomson::Node;
use thomson::Rules;

fn sample_rules() -> Rules {
    let mut root = Node::link(Edge::Restarted);
    root.insert(Edge::Restarted, Key::field("editor"));
    root.insert(Edge::Restarted, Key::field("window"));

    let mut editor = Node::link(Edge::Restarted);
    editor.insert(Edge::Connected, Key::field("font"));
    editor.insert(Edge::Connected, Key::field("size"));
    editor.insert(Edge::Restarted, Key::field("restarted"));
    root.put_child(Key::field("editor"), editor);

    Rules::from_root(root)
}

#[test]
fn test_rules_set() {
    let rules = sample_rules();
    let paths = rules.paths();
    let mut built: Vec<Vec<String>> = Vec::new();
    for path in paths {
        let b = path.build();
        println!("{:?}", b);
        built.push(b);
    }
    assert_eq!(
        built,
        vec![
            vec!["editor.font".to_string()],
            vec!["editor.size".to_string()],
            vec!["editor".to_string(), "restarted".to_string()],
            vec!["window".to_string()],
        ],
    );
}

#[test]
fn rule_test_rules_set() {
    let rules = sample_rules();
    let paths = rules.paths();
    let mut built: Vec<Vec<String>> = Vec::new();
    for path in paths {
        let b = path.build();
        println!("{:?}", b);
        built.push(b);
    }
    assert_eq!(
        built,
        vec![
            vec!["editor.font".to_string()],
            vec!["editor.size".to_string()],
            vec!["editor".to_string(), "restarted".to_string()],
            vec!["window".to_string()],
        ],
    );
}

#[test]
fn node_lookup_and_replace() {
    let mut node = Node::link(Edge::Restarted);
    assert!(node.is_leaf());
    assert!(node.insert(Edge::Connected, Key::field("a")).is_none());
    assert!(!node.is_leaf());
    assert!(node.contains_key(&Key::field("a")));
    assert!(!node.contains_key(&Key::field("b")));
    assert!(node.get(&Key::field("a")).unwrap().is_leaf());
    // a second insert under the same key displaces the first node
    let displaced = node.insert(Edge::Restarted, Key::field("a"));
    assert!(displaced.is_some());
    assert!(node.get(&Key::pseudo_index()).is_none());
}

#[test]
fn empty_rules_have_one_empty_path() {
    // a bare root is itself a leaf, terminating the empty rule
    let rules = Rules::new();
    let paths = rules.paths();
    assert_eq!(paths.len(), 1);
    assert!(paths[0].is_empty());
    assert_eq!(paths[0].build(), Vec::<String>::new());
}

#[test]
fn keys_compare_structurally() {
    assert_eq!(Key::field("a"), Key::field("a"));
    assert_ne!(Key::field("a"), Key::field("b"));
    assert_eq!(Key::pseudo_index(), Key::index(0, 0));
    assert_ne!(Key::index(0, 1), Key::index(0, 0));
    assert_ne!(Key::field("0"), Key::index(0, 0));
}
