//! The whole pipeline on concrete documents: identity, grouping,
//! fallback, the array wildcard, conflict rejection, and compaction.

use thomson::Conflict;
use thomson::Json;
use thomson::Key;
use thomson::Number;
use thomson::Path;
use thomson::Rules;
use thomson::Toml;
use thomson::collect_rules;
use thomson::map_by_rules;
use thomson::toml_to_json_value;
use thomson::transform_by_rules;

fn tbl(entries: Vec<(&str, Toml)>) -> Toml {
    let mut out: Vec<(String, Toml)> = Vec::new();
    for (k, v) in entries {
        out.push((k.to_string(), v));
    }
    Toml::Table(out)
}

fn obj(entries: Vec<(&str, Json)>) -> Json {
    let mut out: Vec<(String, Json)> = Vec::new();
    for (k, v) in entries {
        out.push((k.to_string(), v));
    }
    Json::Object(out)
}

fn num(i: i64) -> Json {
    Json::Number(Number::Int(i))
}

#[test]
fn identity_rules_copy_the_document() {
    let source = tbl(vec![
        ("t", tbl(vec![("x", Toml::Integer(1))])),
        ("arr", Toml::Array(vec![Toml::Integer(1), Toml::Integer(2)])),
        ("s", Toml::String("hi".to_string())),
        ("b", Toml::Boolean(true)),
        ("f", Toml::FloatBits(0x3FF0000000000000)),
        ("d", Toml::Datetime("1979-05-27T07:32:00Z".to_string())),
    ]);
    let rules = collect_rules(&obj(vec![]));
    let got = transform_by_rules(&source, &rules).unwrap();
    let want = obj(vec![
        ("t", obj(vec![("x", num(1))])),
        ("arr", Json::Array(vec![num(1), num(2)])),
        ("s", Json::String("hi".to_string())),
        ("b", Json::Bool(true)),
        ("f", Json::Number(Number::FloatBits(0x3FF0000000000000))),
        ("d", Json::String("1979-05-27T07:32:00Z".to_string())),
    ]);
    assert_eq!(got, want);
}

#[test]
fn grouping_fuses_dotted_rule_keys() {
    let rules = collect_rules(&obj(vec![("a.b.c", num(1))]));
    let source = tbl(vec![("a", tbl(vec![("b", tbl(vec![("c", Toml::Integer(5))]))]))]);
    let got = transform_by_rules(&source, &rules).unwrap();
    assert_eq!(got, obj(vec![("a.b.c", num(5))]));
}

#[test]
fn partial_match_keeps_grouped_prefix() {
    let rules = collect_rules(&obj(vec![("a.b", num(1))]));
    let source = tbl(vec![(
        "a",
        tbl(vec![("b", tbl(vec![("x", Toml::Integer(1)), ("y", Toml::Integer(2))]))]),
    )]);
    let got = transform_by_rules(&source, &rules).unwrap();
    assert_eq!(got, obj(vec![("a.b", obj(vec![("x", num(1)), ("y", num(2))]))]));
}

#[test]
fn array_wildcard_governs_every_element() {
    let rules = collect_rules(&obj(vec![(
        "items",
        Json::Array(vec![obj(vec![("v.w", num(1))])]),
    )]));
    let source = tbl(vec![(
        "items",
        Toml::Array(vec![
            tbl(vec![("v", tbl(vec![("w", Toml::Integer(1))]))]),
            tbl(vec![("v", tbl(vec![("w", Toml::Integer(2))]))]),
        ]),
    )]);
    let got = transform_by_rules(&source, &rules).unwrap();
    assert_eq!(
        got,
        obj(vec![(
            "items",
            Json::Array(vec![obj(vec![("v.w", num(1))]), obj(vec![("v.w", num(2))])]),
        )]),
    );
}

#[test]
fn conflicting_scalars_are_rejected() {
    let rules = collect_rules(&obj(vec![("a.b", num(1))]));
    let source = tbl(vec![
        ("a", tbl(vec![("b", Toml::Integer(1))])),
        ("a.b", Toml::Integer(2)),
    ]);
    let got = transform_by_rules(&source, &rules);
    assert_eq!(got, Err(Conflict::ValueClash));
}

#[test]
fn equal_documents_compile_to_equal_automata() {
    let doc = obj(vec![
        ("a.b", num(1)),
        ("a.c", num(2)),
        ("items", Json::Array(vec![obj(vec![("v.w", num(1))])])),
    ]);
    let first = collect_rules(&doc);
    let second = collect_rules(&doc);
    let built_first: Vec<Vec<String>> = first.paths().into_iter().map(|p| p.build()).collect();
    let built_second: Vec<Vec<String>> = second.paths().into_iter().map(|p| p.build()).collect();
    assert_eq!(built_first, built_second);
    // shared prefixes are compacted, never duplicated
    assert_eq!(
        built_first,
        vec![
            vec!["a.b".to_string()],
            vec!["a.c".to_string()],
            vec!["items".to_string(), "0".to_string(), "v.w".to_string()],
        ],
    );
}

#[test]
fn matcher_collects_one_entry_per_leaf() {
    let rules = collect_rules(&obj(vec![("a.b", num(1))]));
    let source = tbl(vec![(
        "a",
        tbl(vec![("b", tbl(vec![("x", Toml::Integer(1)), ("y", Toml::Integer(2))]))]),
    )]);
    let entries = map_by_rules(&source, &rules);
    assert_eq!(entries.len(), 2);
    let keys0: Vec<Key> = entries[0].0.keys();
    assert_eq!(keys0, vec![Key::field("a.b"), Key::field("x")]);
    assert_eq!(entries[0].1, Toml::Integer(1));
    let keys1: Vec<Key> = entries[1].0.keys();
    assert_eq!(keys1, vec![Key::field("a.b"), Key::field("y")]);
    assert_eq!(entries[1].1, Toml::Integer(2));
}

#[test]
fn index_beyond_declared_bound_is_rejected() {
    let mut p = Path::empty();
    p.push(Key::index(0, 0));
    let entries = vec![(p, Toml::Integer(1))];
    assert_eq!(toml_to_json_value(&entries), Err(Conflict::IndexOutOfBounds));
}

#[test]
fn mismatched_array_lengths_are_rejected() {
    let mut p1 = Path::empty();
    p1.push(Key::index(0, 2));
    let mut p2 = Path::empty();
    p2.push(Key::index(1, 3));
    let entries = vec![(p1, Toml::Integer(1)), (p2, Toml::Integer(2))];
    assert_eq!(toml_to_json_value(&entries), Err(Conflict::LengthMismatch));
}

#[test]
fn key_against_scalar_is_rejected() {
    let mut p1 = Path::empty();
    p1.push(Key::field("a"));
    let mut p2 = Path::empty();
    p2.push(Key::field("a"));
    p2.push(Key::field("b"));
    let entries = vec![(p1, Toml::Integer(1)), (p2, Toml::Integer(2))];
    assert_eq!(toml_to_json_value(&entries), Err(Conflict::KindMismatch));
}

#[test]
fn two_leaves_fill_one_array_element() {
    // two independent leaves populate the same element of one array
    let mut p1 = Path::empty();
    p1.push(Key::index(0, 1));
    p1.push(Key::field("x"));
    let mut p2 = Path::empty();
    p2.push(Key::index(0, 1));
    p2.push(Key::field("y"));
    let entries = vec![(p1, Toml::Integer(1)), (p2, Toml::Integer(2))];
    let got = toml_to_json_value(&entries).unwrap();
    assert_eq!(got, Json::Array(vec![obj(vec![("x", num(1)), ("y", num(2))])]));
}

#[test]
fn empty_containers_vanish_under_identity_rules() {
    // an empty table has no leaves, so nothing reaches the output
    let source = tbl(vec![("t", tbl(vec![])), ("x", Toml::Integer(1))]);
    let rules = collect_rules(&obj(vec![]));
    let got = transform_by_rules(&source, &rules).unwrap();
    assert_eq!(got, obj(vec![("x", num(1))]));
}

#[test]
fn fallback_resynchronizes_deeper_keys() {
    // an array without a wildcard falls off the automaton, but a deeper
    // key can still meet the pending transition of the current node and
    // fuse onto the pushed index unit
    let rules = collect_rules(&obj(vec![("a.b", num(1))]));
    let source = tbl(vec![(
        "a",
        Toml::Array(vec![tbl(vec![("b", Toml::Integer(5))])]),
    )]);
    let got = transform_by_rules(&source, &rules).unwrap();
    assert_eq!(got, obj(vec![("a", obj(vec![("0.b", num(5))]))]));
}

#[test]
fn duplicate_source_keys_collide() {
    // two table entries under one key resolve to one output location
    let source = Toml::Table(vec![
        ("a".to_string(), Toml::Integer(1)),
        ("a".to_string(), Toml::Integer(2)),
    ]);
    let rules = collect_rules(&obj(vec![]));
    assert_eq!(transform_by_rules(&source, &rules), Err(Conflict::ValueClash));
}

#[test]
fn empty_paths_are_skipped() {
    let entries = vec![(Path::empty(), Toml::Integer(1))];
    assert_eq!(toml_to_json_value(&entries), Ok(Json::Null));
}
