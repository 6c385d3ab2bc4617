//! Path construction, backtracking, resolution, and the text helpers.

use thomson::Edge;
use thomson::Key;
use thomson::Path;
use thomson::text::decimal_string;
use thomson::text::split_dots;

#[test]
fn push_adhere_and_resolve() {
    let mut p = Path::empty();
    assert!(p.is_empty());
    p.push(Key::field("a"));
    p.adhere(Key::field("b"));
    p.push(Key::field("c"));
    assert_eq!(p.len(), 2);
    assert_eq!(p.keys(), vec![Key::field("a.b"), Key::field("c")]);
    assert_eq!(p.build(), vec!["a.b".to_string(), "c".to_string()]);
    assert_eq!(
        p.units(),
        vec![Key::field("a"), Key::field("b"), Key::field("c")],
    );
}

#[test]
fn link_dispatches_on_the_edge() {
    let mut p = Path::empty();
    p.link(Edge::Restarted, Key::field("a"));
    p.link(Edge::Connected, Key::field("b"));
    p.link(Edge::Restarted, Key::field("c"));
    assert_eq!(p.build(), vec!["a.b".to_string(), "c".to_string()]);
    // adhering into an empty path opens a unit
    let mut q = Path::empty();
    q.link(Edge::Connected, Key::field("x"));
    assert_eq!(q.build(), vec!["x".to_string()]);
}

#[test]
fn pop_backtracks_key_by_key() {
    let mut p = Path::empty();
    p.push(Key::field("a"));
    p.adhere(Key::field("b"));
    assert_eq!(p.pop(), Some(Key::field("b")));
    assert_eq!(p.len(), 1);
    assert_eq!(p.pop(), Some(Key::field("a")));
    assert!(p.is_empty());
    assert_eq!(p.pop(), None);
}

#[test]
fn flattern_resolves_pending_grouping() {
    let mut p = Path::empty();
    p.push(Key::field("a"));
    p.adhere(Key::field("b"));
    p.flattern();
    assert_eq!(p.len(), 1);
    assert_eq!(p.keys(), vec![Key::field("a.b")]);
    // a later adherence lands on the fused key's unit
    p.adhere(Key::field("c"));
    assert_eq!(p.keys(), vec![Key::field("a.b.c")]);
}

#[test]
fn index_keys_pass_through_resolution() {
    let mut p = Path::empty();
    p.push(Key::field("items"));
    p.push(Key::index(1, 2));
    assert_eq!(p.keys(), vec![Key::field("items"), Key::index(1, 2)]);
    assert_eq!(p.build(), vec!["items".to_string(), "1".to_string()]);
}

#[test]
fn split_head_detaches_the_tail() {
    let mut p = Path::from(vec![
        vec![Key::field("a")],
        vec![Key::field("b")],
        vec![Key::field("c")],
    ]);
    let rest = p.split_head().unwrap();
    assert_eq!(p.build(), vec!["a".to_string()]);
    assert_eq!(rest.build(), vec!["b".to_string(), "c".to_string()]);
    let mut e = Path::empty();
    assert!(e.split_head().is_none());
}

#[test]
fn clear_empties_the_path() {
    let mut p = Path::from(vec![vec![Key::field("a")]]);
    assert_eq!(p.len(), 1);
    p.clear();
    assert!(p.is_empty());
}

#[test]
fn decimal_renders_positions() {
    assert_eq!(decimal_string(0), "0".to_string());
    assert_eq!(decimal_string(7), "7".to_string());
    assert_eq!(decimal_string(10), "10".to_string());
    assert_eq!(decimal_string(4096), "4096".to_string());
}

#[test]
fn split_follows_the_separator() {
    assert_eq!(split_dots("a.b.c"), vec!["a".to_string(), "b".to_string(), "c".to_string()]);
    assert_eq!(split_dots("abc"), vec!["abc".to_string()]);
    assert_eq!(split_dots(""), vec!["".to_string()]);
    assert_eq!(split_dots("a."), vec!["a".to_string(), "".to_string()]);
    assert_eq!(split_dots(".a"), vec!["".to_string(), "a".to_string()]);
}

#[test]
fn context_keeps_its_parts() {
    let ctx = thomson::Context::new("conf", "settings.toml", "settings.json", true, false);
    assert_eq!(ctx.path, "conf".to_string());
    assert_eq!(ctx.toml_path, "settings.toml".to_string());
    assert_eq!(ctx.json_path, "settings.json".to_string());
    assert!(ctx.debugging);
    assert!(!ctx.listen);
}
