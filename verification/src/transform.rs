//! The matcher and the assembler: walking a source document in lock-step
//! with the rule automaton, and building the output value from the
//! collected leaves.

use vstd::prelude::*;
use crate::assoc::assoc_get;
use crate::assoc::assoc_set;
use crate::assoc::lemma_assoc_get_at;
use crate::assoc::lemma_assoc_get_none;
use crate::assoc::lemma_assoc_set_at;
use crate::assoc::lemma_assoc_set_none;
use crate::path::Path;
use crate::path::SpecPath;
use crate::path::spec_flattened;
use crate::path::spec_keys_view;
use crate::path::spec_linked;
use crate::path::spec_resolved;
use crate::rule::Key;
use crate::rule::Node;
use crate::rule::Rules;
use crate::rule::SpecKey;
use crate::rule::SpecNode;
use crate::value::Json;
use crate::value::Number;
use crate::value::SpecJson;
use crate::value::SpecNumber;
use crate::value::SpecToml;
use crate::value::Toml;
use crate::value::spec_json_view;
use crate::value::spec_obj_view;
use crate::value::spec_toml_view;

verus! {

broadcast use vstd::std_specs::vec::group_vec_axioms, vstd::seq::group_seq_axioms;

/// A structural conflict found while assembling the output: the transform
/// aborts rather than resolve it silently.
#[derive(Clone, Copy, Debug, PartialEq, Eq, Structural)]
pub enum Conflict {
    /// Two leaves resolved to the same output location with values that
    /// cannot be merged.
    ValueClash,
    /// An index key at or beyond its declared bound.
    IndexOutOfBounds,
    /// An index key whose declared bound differs from the array it met.
    LengthMismatch,
    /// A field key against an array, an index key against an object, or
    /// any key against a scalar.
    KindMismatch,
}

/// The fixed scalar mapping from a source value to an output value:
/// strings, integers, floats and booleans map to their output kinds,
/// datetimes become strings, arrays and tables map elementwise.
pub open spec fn spec_json_of(t: SpecToml) -> SpecJson
    decreases t,
{
    match t {
        SpecToml::String(s) => SpecJson::String(s),
        SpecToml::Integer(i) => SpecJson::Number(SpecNumber::Int(i)),
        SpecToml::FloatBits(b) => SpecJson::Number(SpecNumber::FloatBits(b)),
        SpecToml::Boolean(b) => SpecJson::Bool(b),
        SpecToml::Datetime(s) => SpecJson::String(s),
        SpecToml::Array(vs) => SpecJson::Array(
            Seq::new(
                vs.len(),
                // the out-of-range branch is never taken; it serves the
                // termination check only
                |i: int| if 0 <= i < vs.len() { spec_json_of(vs[i]) } else { SpecJson::Null },
            ),
        ),
        SpecToml::Table(es) => SpecJson::Object(
            Seq::new(
                es.len(),
                |i: int|
                    if 0 <= i < es.len() {
                        (es[i].0, spec_json_of(es[i].1))
                    } else {
                        (Seq::empty(), SpecJson::Null)
                    },
            ),
        ),
    }
}

/// Applies the fixed scalar mapping to a source value, without rules.
pub fn transform(value: &Toml) -> (r: Json)
    ensures
        r@ == spec_json_of(value@),
    decreases value,
{
    match value {
        Toml::String(s) => Json::String(s.clone()),
        Toml::Integer(i) => Json::Number(Number::Int(*i)),
        Toml::FloatBits(b) => Json::Number(Number::FloatBits(*b)),
        Toml::Boolean(b) => Json::Bool(*b),
        Toml::Datetime(s) => Json::String(s.clone()),
        Toml::Array(vs) => {
            let n = vs.len();
            let mut out: Vec<Json> = Vec::new();
            let mut i: usize = 0;
            while i < n
                invariant
                    i <= n,
                    n == vs@.len(),
                    out@.len() == i,
                    forall|j: int| 0 <= j < i ==> #[trigger] spec_json_view(&out@[j])
                        == spec_json_of(spec_toml_view(&vs@[j])),
                decreases n - i,
            {
                out.push(transform(&vs[i]));
                i = i + 1;
            }
            let r = Json::Array(out);
            proof {
                let vv = value@;
                let jj = spec_json_of(vv);
                let ts2 = vv->Array_0;
                let bs2 = jj->Array_0;
                let a2 = r@->Array_0;
                assert(vv is Array && ts2.len() == n);
                assert(jj is Array && bs2.len() == n);
                assert(r@ is Array && a2.len() == n);
                assert forall|j: int| 0 <= j < n implies a2[j] == bs2[j] by {
                    assert(ts2[j] == spec_toml_view(&vs@[j]));
                    assert(bs2[j] == spec_json_of(ts2[j]));
                    assert(a2[j] == spec_json_view(&out@[j]));
                    assert(spec_json_view(&out@[j]) == spec_json_of(spec_toml_view(&vs@[j])));
                }
                assert(a2 =~= bs2);
                assert(r@ =~= jj);
            }
            r
        },
        Toml::Table(es) => {
            let n = es.len();
            let mut out: Vec<(String, Json)> = Vec::new();
            let mut i: usize = 0;
            while i < n
                invariant
                    i <= n,
                    n == es@.len(),
                    out@.len() == i,
                    forall|j: int| 0 <= j < i ==> #[trigger] out@[j].0@ == es@[j].0@
                        && spec_json_view(&out@[j].1) == spec_json_of(spec_toml_view(&es@[j].1)),
                decreases n - i,
            {
                out.push((es[i].0.clone(), transform(&es[i].1)));
                i = i + 1;
            }
            let r = Json::Object(out);
            proof {
                assert(r@ matches SpecJson::Object(a) && spec_json_of(value@) matches
                    SpecJson::Object(b) && a =~= b);
                assert(r@ =~= spec_json_of(value@));
            }
            r
        },
    }
}

/// The models of a sequence of collected (path, leaf value) entries.
pub open spec fn spec_entries_view(s: Seq<(Path, Toml)>) -> Seq<(SpecPath, SpecToml)> {
    Seq::new(s.len(), |i: int| (s[i].0@, s[i].1@))
}

/// The (path, leaf value) entries that matching `v` at automaton node `n`
/// under path `p` collects, in traversal order.  A table or array value
/// descends key by key: a key with a transition links onto the path and
/// follows it; a key without one resolves the path's pending grouping,
/// opens a fresh unit, and descends at the same node.  A scalar value
/// records one entry.
pub open spec fn spec_match(v: SpecToml, n: SpecNode, p: SpecPath) -> Seq<(SpecPath, SpecToml)>
    decreases v, 0int,
{
    match v {
        SpecToml::Table(es) => spec_match_table(es, 0, n, p),
        SpecToml::Array(es) => spec_match_array(es, 0, es.len(), n, p),
        _ => seq![(p, v)],
    }
}

/// The entries that the table entries of `es` from position `j` on collect.
pub open spec fn spec_match_table(
    es: Seq<(Seq<char>, SpecToml)>,
    j: int,
    n: SpecNode,
    p: SpecPath,
) -> Seq<(SpecPath, SpecToml)>
    decreases es, es.len() - j + 1,
{
    if j < 0 || j >= es.len() {
        Seq::empty()
    } else {
        let k = SpecKey::Field(es[j].0);
        let head = match assoc_get(n.nexts, k) {
            Some(child) => spec_match(es[j].1, child, spec_linked(p, child.edge, k)),
            None => spec_match(es[j].1, n, spec_flattened(p).push(seq![k])),
        };
        head + spec_match_table(es, j + 1, n, p)
    }
}

/// The entries that the array elements of `es` from position `j` on
/// collect, in an array of length `total`.
pub open spec fn spec_match_array(
    es: Seq<SpecToml>,
    j: int,
    total: nat,
    n: SpecNode,
    p: SpecPath,
) -> Seq<(SpecPath, SpecToml)>
    decreases es, es.len() - j + 1,
{
    if j < 0 || j >= es.len() {
        Seq::empty()
    } else {
        let k = SpecKey::Index { of: j as nat, total };
        let head = match assoc_get(n.nexts, SpecKey::Index { of: 0, total: 0 }) {
            Some(child) => spec_match(es[j], child, spec_linked(p, child.edge, k)),
            None => spec_match(es[j], n, spec_flattened(p).push(seq![k])),
        };
        head + spec_match_array(es, j + 1, total, n, p)
    }
}

/// Collects under `out` the (path, leaf value) entries of `v`, matched at
/// automaton node `node` under `path`.
fn match_rule_dfs(v: &Toml, node: &Node, path: &Path, out: &mut Vec<(Path, Toml)>)
    ensures
        spec_entries_view(final(out)@) == spec_entries_view(old(out)@) + spec_match(
            v@,
            node@,
            path@,
        ),
    decreases v,
{
    let ghost pre = out@;
    match v {
        Toml::Table(es) => {
            let ghost tes = v@->Table_0;
            let n = es.len();
            let mut i: usize = 0;
            while i < n
                invariant
                    i <= n,
                    n == es@.len(),
                    tes == spec_toml_view(v)->Table_0,
                    spec_toml_view(v) is Table,
                    tes.len() == n,
                    spec_entries_view(out@) + spec_match_table(tes, i as int, node@, path@)
                        =~= spec_entries_view(pre) + spec_match(v@, node@, path@),
                decreases n - i,
            {
                proof {
                    assert(tes[i as int] == (es@[i as int].0@, spec_toml_view(&es@[i as int].1)));
                }
                let key = Key::field(es[i].0.as_str());
                let ghost mid = out@;
                match node.get(&key) {
                    Some(child) => {
                        let mut p2 = path.deep_clone();
                        p2.link(child.edge(), key);
                        match_rule_dfs(&es[i].1, child, &p2, out);
                    },
                    None => {
                        let mut p2 = path.deep_clone();
                        p2.flattern();
                        p2.push(key);
                        match_rule_dfs(&es[i].1, node, &p2, out);
                    },
                }
                proof {
                    assert(spec_match_table(tes, i as int, node@, path@) == spec_match(
                        tes[i as int].1,
                        match assoc_get(node@.nexts, SpecKey::Field(tes[i as int].0)) {
                            Some(child) => child,
                            None => node@,
                        },
                        match assoc_get(node@.nexts, SpecKey::Field(tes[i as int].0)) {
                            Some(child) => spec_linked(
                                path@,
                                child.edge,
                                SpecKey::Field(tes[i as int].0),
                            ),
                            None => spec_flattened(path@).push(
                                seq![SpecKey::Field(tes[i as int].0)],
                            ),
                        },
                    ) + spec_match_table(tes, i as int + 1, node@, path@));
                    assert(spec_entries_view(out@) =~= spec_entries_view(mid) + spec_match(
                        tes[i as int].1,
                        match assoc_get(node@.nexts, SpecKey::Field(tes[i as int].0)) {
                            Some(child) => child,
                            None => node@,
                        },
                        match assoc_get(node@.nexts, SpecKey::Field(tes[i as int].0)) {
                            Some(child) => spec_linked(
                                path@,
                                child.edge,
                                SpecKey::Field(tes[i as int].0),
                            ),
                            None => spec_flattened(path@).push(
                                seq![SpecKey::Field(tes[i as int].0)],
                            ),
                        },
                    ));
                    assert(spec_entries_view(out@) + spec_match_table(
                        tes,
                        i as int + 1,
                        node@,
                        path@,
                    ) =~= spec_entries_view(pre) + spec_match(v@, node@, path@));
                }
                i = i + 1;
            }
            proof {
                assert(spec_match_table(tes, n as int, node@, path@) =~= Seq::<(
                    SpecPath,
                    SpecToml,
                )>::empty());
                assert(spec_entries_view(final(out)@) =~= spec_entries_view(pre) + spec_match(
                    v@,
                    node@,
                    path@,
                ));
            }
        },
        Toml::Array(es) => {
            let ghost aes = v@->Array_0;
            let n = es.len();
            let mut i: usize = 0;
            while i < n
                invariant
                    i <= n,
                    n == es@.len(),
                    aes == spec_toml_view(v)->Array_0,
                    spec_toml_view(v) is Array,
                    aes.len() == n,
                    spec_entries_view(out@) + spec_match_array(
                        aes,
                        i as int,
                        n as nat,
                        node@,
                        path@,
                    ) =~= spec_entries_view(pre) + spec_match(v@, node@, path@),
                decreases n - i,
            {
                proof {
                    assert(aes[i as int] == spec_toml_view(&es@[i as int]));
                }
                let key = Key::index(i, n);
                let ghost mid = out@;
                match node.get(&Key::pseudo_index()) {
                    Some(child) => {
                        let mut p2 = path.deep_clone();
                        p2.link(child.edge(), key);
                        match_rule_dfs(&es[i], child, &p2, out);
                    },
                    None => {
                        let mut p2 = path.deep_clone();
                        p2.flattern();
                        p2.push(key);
                        match_rule_dfs(&es[i], node, &p2, out);
                    },
                }
                proof {
                    let k = SpecKey::Index { of: i as nat, total: n as nat };
                    assert(spec_match_array(aes, i as int, n as nat, node@, path@) == spec_match(
                        aes[i as int],
                        match assoc_get(node@.nexts, SpecKey::Index { of: 0, total: 0 }) {
                            Some(child) => child,
                            None => node@,
                        },
                        match assoc_get(node@.nexts, SpecKey::Index { of: 0, total: 0 }) {
                            Some(child) => spec_linked(path@, child.edge, k),
                            None => spec_flattened(path@).push(seq![k]),
                        },
                    ) + spec_match_array(aes, i as int + 1, n as nat, node@, path@));
                    assert(spec_entries_view(out@) =~= spec_entries_view(mid) + spec_match(
                        aes[i as int],
                        match assoc_get(node@.nexts, SpecKey::Index { of: 0, total: 0 }) {
                            Some(child) => child,
                            None => node@,
                        },
                        match assoc_get(node@.nexts, SpecKey::Index { of: 0, total: 0 }) {
                            Some(child) => spec_linked(path@, child.edge, k),
                            None => spec_flattened(path@).push(seq![k]),
                        },
                    ));
                    assert(spec_entries_view(out@) + spec_match_array(
                        aes,
                        i as int + 1,
                        n as nat,
                        node@,
                        path@,
                    ) =~= spec_entries_view(pre) + spec_match(v@, node@, path@));
                }
                i = i + 1;
            }
            proof {
                assert(spec_match_array(aes, n as int, n as nat, node@, path@) =~= Seq::<(
                    SpecPath,
                    SpecToml,
                )>::empty());
                assert(spec_entries_view(final(out)@) =~= spec_entries_view(pre) + spec_match(
                    v@,
                    node@,
                    path@,
                ));
            }
        },
        _ => {
            out.push((path.deep_clone(), v.deep_clone()));
            proof {
                assert(spec_match(v@, node@, path@) =~= seq![(path@, v@)]);
                assert(spec_entries_view(final(out)@) =~= spec_entries_view(pre) + spec_match(
                    v@,
                    node@,
                    path@,
                ));
            }
        },
    }
}

/// Matches `toml_value` against the compiled rules: every leaf of the
/// source document yields one (path, leaf value) entry, in traversal
/// order.
pub fn map_by_rules(toml_value: &Toml, rules: &Rules) -> (r: Vec<(Path, Toml)>)
    ensures
        spec_entries_view(r@) == spec_match(toml_value@, rules@, Seq::empty()),
{
    let mut out: Vec<(Path, Toml)> = Vec::new();
    let path = Path::empty();
    proof {
        assert(spec_entries_view(out@) =~= Seq::<(SpecPath, SpecToml)>::empty());
    }
    match_rule_dfs(toml_value, rules.root(), &path, &mut out);
    proof {
        assert(spec_entries_view(out@) =~= spec_match(toml_value@, rules@, Seq::empty()));
    }
    out
}

/// Merging `b` into `a`: anything replaces `Null`, two objects merge
/// field by field, and every other combination is a conflict.
pub open spec fn spec_merge(a: SpecJson, b: SpecJson) -> Result<SpecJson, Conflict>
    decreases b, 1int,
{
    if a is Null {
        Ok(b)
    } else {
        match b {
            SpecJson::Object(bes) => match a {
                SpecJson::Object(aes) => match spec_merge_obj(aes, bes, 0) {
                    Ok(es) => Ok(SpecJson::Object(es)),
                    Err(e) => Err(e),
                },
                _ => Err(Conflict::KindMismatch),
            },
            _ => Err(Conflict::ValueClash),
        }
    }
}

/// Merging the entries of `bes` from position `j` on into the entries
/// `aes`: an absent key is appended, a present one merges recursively.
pub open spec fn spec_merge_obj(
    aes: Seq<(Seq<char>, SpecJson)>,
    bes: Seq<(Seq<char>, SpecJson)>,
    j: int,
) -> Result<Seq<(Seq<char>, SpecJson)>, Conflict>
    decreases bes, bes.len() - j + 1,
{
    if j < 0 || j >= bes.len() {
        Ok(aes)
    } else {
        match assoc_get(aes, bes[j].0) {
            None => spec_merge_obj(aes.push((bes[j].0, bes[j].1)), bes, j + 1),
            Some(av) => match spec_merge(av, bes[j].1) {
                Ok(m) => spec_merge_obj(assoc_set(aes, bes[j].0, m), bes, j + 1),
                Err(e) => Err(e),
            },
        }
    }
}

/// Writing `v` under `keys[i..]` into `cur`, materializing the containers
/// along the way: a `Null` becomes a one-field object or a `Null`-filled
/// array of the index's declared length, an existing container is entered
/// at the key, and at the end of the keys `v` merges with what is there.
pub open spec fn spec_put(cur: SpecJson, keys: Seq<SpecKey>, i: int, v: SpecJson) -> Result<
    SpecJson,
    Conflict,
>
    decreases keys.len() - i,
{
    if i >= keys.len() {
        spec_merge(cur, v)
    } else {
        match keys[i] {
            SpecKey::Field(name) => match cur {
                SpecJson::Null => match spec_put(SpecJson::Null, keys, i + 1, v) {
                    Ok(c) => Ok(SpecJson::Object(seq![(name, c)])),
                    Err(e) => Err(e),
                },
                SpecJson::Object(es) => match assoc_get(es, name) {
                    Some(oldv) => match spec_put(oldv, keys, i + 1, v) {
                        Ok(c) => Ok(SpecJson::Object(assoc_set(es, name, c))),
                        Err(e) => Err(e),
                    },
                    None => match spec_put(SpecJson::Null, keys, i + 1, v) {
                        Ok(c) => Ok(SpecJson::Object(es.push((name, c)))),
                        Err(e) => Err(e),
                    },
                },
                _ => Err(Conflict::KindMismatch),
            },
            SpecKey::Index { of, total } => match cur {
                SpecJson::Null => if of < total {
                    match spec_put(SpecJson::Null, keys, i + 1, v) {
                        Ok(c) => Ok(
                            SpecJson::Array(
                                Seq::new(total, |x: int| SpecJson::Null).update(of as int, c),
                            ),
                        ),
                        Err(e) => Err(e),
                    }
                } else {
                    Err(Conflict::IndexOutOfBounds)
                },
                SpecJson::Array(es) => if es.len() != total {
                    Err(Conflict::LengthMismatch)
                } else if of >= total {
                    Err(Conflict::IndexOutOfBounds)
                } else {
                    match spec_put(es[of as int], keys, i + 1, v) {
                        Ok(c) => Ok(SpecJson::Array(es.update(of as int, c))),
                        Err(e) => Err(e),
                    }
                },
                _ => Err(Conflict::KindMismatch),
            },
        }
    }
}

/// Assembling the entries from position `j` on into `acc`: each entry's
/// path is resolved to its output keys and its value, under the fixed
/// scalar mapping, is written there.  Entries with empty paths are
/// skipped.
pub open spec fn spec_assemble_from(
    entries: Seq<(SpecPath, SpecToml)>,
    j: int,
    acc: SpecJson,
) -> Result<SpecJson, Conflict>
    decreases entries.len() - j,
{
    if j < 0 || j >= entries.len() {
        Ok(acc)
    } else {
        let keys = spec_resolved(entries[j].0);
        if keys.len() == 0 {
            spec_assemble_from(entries, j + 1, acc)
        } else {
            match spec_put(acc, keys, 0, spec_json_of(entries[j].1)) {
                Ok(acc2) => spec_assemble_from(entries, j + 1, acc2),
                Err(e) => Err(e),
            }
        }
    }
}

/// Assembling a collected entry set into one output value, starting from
/// `Null`.
pub open spec fn spec_assemble(entries: Seq<(SpecPath, SpecToml)>) -> Result<SpecJson, Conflict> {
    spec_assemble_from(entries, 0, SpecJson::Null)
}

/// The whole transform: the entries that matching `d` against `rules`
/// collects, assembled into one output value.
pub open spec fn spec_transform(d: SpecToml, rules: SpecNode) -> Result<SpecJson, Conflict> {
    spec_assemble(spec_match(d, rules, Seq::empty()))
}

/// Whether the runtime outcome `r` is the model outcome `s`.
pub open spec fn spec_json_outcome(r: Result<Json, Conflict>, s: Result<SpecJson, Conflict>) -> bool {
    match r {
        Ok(j) => s == Ok::<SpecJson, Conflict>(j@),
        Err(e) => s == Err::<SpecJson, Conflict>(e),
    }
}

/// The position of the first entry named `name`, if any.
fn obj_find(es: &Vec<(String, Json)>, name: &String) -> (r: Option<usize>)
    ensures
        match r {
            Some(i) => i < es@.len() && es@[i as int].0@ == name@ && (forall|j: int|
                0 <= j < i ==> es@[j].0@ != name@),
            None => forall|j: int| 0 <= j < es@.len() ==> es@[j].0@ != name@,
        },
{
    let n = es.len();
    let mut i: usize = 0;
    while i < n
        invariant
            i <= n,
            n == es@.len(),
            forall|j: int| 0 <= j < i ==> es@[j].0@ != name@,
        decreases n - i,
    {
        if es[i].0 == *name {
            return Some(i);
        }
        i = i + 1;
    }
    None
}

/// An owned copy of a sequence of object entries.
fn clone_entries(es: &Vec<(String, Json)>) -> (r: Vec<(String, Json)>)
    ensures
        spec_obj_view(r@) == spec_obj_view(es@),
{
    let n = es.len();
    let mut out: Vec<(String, Json)> = Vec::new();
    let mut i: usize = 0;
    while i < n
        invariant
            i <= n,
            n == es@.len(),
            out@.len() == i,
            forall|j: int| 0 <= j < i ==> #[trigger] out@[j].0@ == es@[j].0@ && spec_json_view(
                &out@[j].1,
            ) == spec_json_view(&es@[j].1),
        decreases n - i,
    {
        out.push((es[i].0.clone(), es[i].1.deep_clone()));
        i = i + 1;
    }
    proof {
        assert(spec_obj_view(out@) =~= spec_obj_view(es@));
    }
    out
}

/// Merges `b` into `a`, yielding a fresh value: anything replaces `Null`,
/// two objects merge field by field, and every other combination is a
/// conflict.
fn merge_values(a: &Json, b: &Json) -> (r: Result<Json, Conflict>)
    ensures
        spec_json_outcome(r, spec_merge(a@, b@)),
    decreases b,
{
    match a {
        Json::Null => Ok(b.deep_clone()),
        _ => match b {
            Json::Object(bes) => match a {
                Json::Object(aes) => {
                    let ghost aseq = a@->Object_0;
                    let ghost bseq = b@->Object_0;
                    let mut acc = clone_entries(aes);
                    let n = bes.len();
                    let mut j: usize = 0;
                    proof {
                        assert(aseq =~= spec_obj_view(aes@));
                        assert(bseq.len() == n);
                    }
                    while j < n
                        invariant
                            j <= n,
                            n == bes@.len(),
                            a@ is Object,
                            b@ is Object,
                            aseq == a@->Object_0,
                            bseq == b@->Object_0,
                            bseq.len() == n,
                            spec_merge_obj(spec_obj_view(acc@), bseq, j as int) == spec_merge_obj(
                                aseq,
                                bseq,
                                0,
                            ),
                        decreases n - j,
                    {
                        proof {
                            assert(bseq[j as int] == (
                                bes@[j as int].0@,
                                spec_json_view(&bes@[j as int].1),
                            ));
                        }
                        let ghost before = acc@;
                        let name = &bes[j].0;
                        match obj_find(&acc, name) {
                            None => {
                                proof {
                                    lemma_assoc_get_none(spec_obj_view(acc@), name@);
                                }
                                acc.push((name.clone(), bes[j].1.deep_clone()));
                                proof {
                                    assert(spec_obj_view(acc@) =~= spec_obj_view(before).push((
                                        name@,
                                        spec_json_view(&bes@[j as int].1),
                                    )));
                                }
                            },
                            Some(idx) => {
                                proof {
                                    lemma_assoc_get_at(spec_obj_view(before), name@, idx as int);
                                }
                                let pair = acc.remove(idx);
                                match merge_values(&pair.1, &bes[j].1) {
                                    Ok(m) => {
                                        proof {
                                            lemma_assoc_set_at(
                                                spec_obj_view(before),
                                                name@,
                                                spec_json_view(&m),
                                                idx as int,
                                            );
                                        }
                                        acc.insert(idx, (pair.0, m));
                                        proof {
                                            assert(spec_obj_view(acc@) =~= spec_obj_view(
                                                before,
                                            ).update(idx as int, (name@, spec_obj_view(acc@)[idx as int].1)));
                                        }
                                    },
                                    Err(e) => {
                                        proof {
                                            assert(spec_merge_obj(spec_obj_view(before), bseq, j as int)
                                                == Err::<Seq<(Seq<char>, SpecJson)>, Conflict>(e));
                                        }
                                        return Err(e);
                                    },
                                }
                            },
                        }
                        j = j + 1;
                    }
                    let ghost accv = spec_obj_view(acc@);
                    let r = Json::Object(acc);
                    proof {
                        assert(spec_merge_obj(accv, bseq, n as int) == Ok::<
                            Seq<(Seq<char>, SpecJson)>,
                            Conflict,
                        >(accv));
                        assert(r@ matches SpecJson::Object(o) && o =~= accv);
                        assert(spec_merge(a@, b@) == Ok::<SpecJson, Conflict>(SpecJson::Object(accv)));
                        assert(r@ =~= SpecJson::Object(accv));
                    }
                    Ok(r)
                },
                _ => Err(Conflict::KindMismatch),
            },
            _ => Err(Conflict::ValueClash),
        },
    }
}

/// Writes `v` under `keys[i..]` into `cur`, materializing containers
/// along the way and merging at the last key.
fn put_value(cur: Json, keys: &Vec<Key>, i: usize, v: Json) -> (r: Result<Json, Conflict>)
    ensures
        spec_json_outcome(r, spec_put(cur@, spec_keys_view(keys@), i as int, v@)),
    decreases keys@.len() - i,
{
    let ghost kv = spec_keys_view(keys@);
    if i >= keys.len() {
        return merge_values(&cur, &v);
    }
    proof {
        assert(kv[i as int] == keys@[i as int]@);
    }
    match &keys[i] {
        Key::Field(name) => match cur {
            Json::Null => match put_value(Json::Null, keys, i + 1, v) {
                Ok(c) => {
                    let ghost cv = c@;
                    let r = Json::Object(vec![(name.clone(), c)]);
                    proof {
                        assert(r@ matches SpecJson::Object(o) && o =~= seq![(name@, cv)]);
                    }
                    Ok(r)
                },
                Err(e) => Err(e),
            },
            Json::Object(mut es) => {
                let ghost eseq = spec_obj_view(es@);
                proof {
                    assert(cur@ matches SpecJson::Object(o) && o =~= eseq);
                }
                match obj_find(&es, name) {
                    Some(idx) => {
                        proof {
                            lemma_assoc_get_at(eseq, name@, idx as int);
                        }
                        let pair = es.remove(idx);
                        match put_value(pair.1, keys, i + 1, v) {
                            Ok(c) => {
                                proof {
                                    lemma_assoc_set_at(eseq, name@, spec_json_view(&c), idx as int);
                                }
                                es.insert(idx, (pair.0, c));
                                let ghost accv = spec_obj_view(es@);
                                let r = Json::Object(es);
                                proof {
                                    assert(accv =~= assoc_set(
                                        eseq,
                                        name@,
                                        accv[idx as int].1,
                                    ));
                                    assert(r@ matches SpecJson::Object(o) && o =~= accv);
                                }
                                Ok(r)
                            },
                            Err(e) => Err(e),
                        }
                    },
                    None => {
                        proof {
                            lemma_assoc_get_none(eseq, name@);
                        }
                        match put_value(Json::Null, keys, i + 1, v) {
                            Ok(c) => {
                                let ghost cv = c@;
                                es.push((name.clone(), c));
                                let ghost accv = spec_obj_view(es@);
                                let r = Json::Object(es);
                                proof {
                                    assert(accv =~= eseq.push((name@, cv)));
                                    assert(r@ matches SpecJson::Object(o) && o =~= accv);
                                }
                                Ok(r)
                            },
                            Err(e) => Err(e),
                        }
                    },
                }
            },
            _ => Err(Conflict::KindMismatch),
        },
        Key::Index { of, total } => match cur {
            Json::Null => {
                if *of < *total {
                    match put_value(Json::Null, keys, i + 1, v) {
                        Ok(c) => {
                            let ghost cv = c@;
                            let total_n = *total;
                            let mut arr: Vec<Json> = Vec::new();
                            let mut x: usize = 0;
                            while x < total_n
                                invariant
                                    x <= total_n,
                                    arr@.len() == x,
                                    forall|y: int| 0 <= y < x ==> #[trigger] spec_json_view(
                                        &arr@[y],
                                    ) == SpecJson::Null,
                                decreases total_n - x,
                            {
                                arr.push(Json::Null);
                                x = x + 1;
                            }
                            let ghost nulls = arr@;
                            arr.set(*of, c);
                            let ghost av = arr@;
                            let r = Json::Array(arr);
                            proof {
                                let target = Seq::new(*total as nat, |y: int| SpecJson::Null)
                                    .update(*of as int, cv);
                                let o = r@->Array_0;
                                assert(r@ is Array && o.len() == total_n);
                                assert forall|y: int| 0 <= y < total_n implies o[y] == target[y] by {
                                    assert(o[y] == spec_json_view(&av[y]));
                                    if y == *of as int {
                                        assert(av[y] == c);
                                    } else {
                                        assert(av[y] == nulls[y]);
                                        assert(spec_json_view(&nulls[y]) == SpecJson::Null);
                                    }
                                }
                                assert(o =~= target);
                            }
                            Ok(r)
                        },
                        Err(e) => Err(e),
                    }
                } else {
                    Err(Conflict::IndexOutOfBounds)
                }
            },
            Json::Array(mut es) => {
                if es.len() != *total {
                    proof {
                        assert(cur@ matches SpecJson::Array(o) && o.len() == es@.len());
                    }
                    Err(Conflict::LengthMismatch)
                } else if *of >= *total {
                    Err(Conflict::IndexOutOfBounds)
                } else {
                    let ghost eseq = cur@->Array_0;
                    proof {
                        assert(eseq.len() == es@.len());
                        assert(eseq[*of as int] == spec_json_view(&es@[*of as int]));
                    }
                    let slot = es.remove(*of);
                    match put_value(slot, keys, i + 1, v) {
                        Ok(c) => {
                            es.insert(*of, c);
                            let ghost accv = es@;
                            let r = Json::Array(es);
                            proof {
                                assert(r@ matches SpecJson::Array(o) && o =~= eseq.update(
                                    *of as int,
                                    spec_json_view(&accv[*of as int]),
                                ));
                            }
                            Ok(r)
                        },
                        Err(e) => Err(e),
                    }
                }
            },
            _ => Err(Conflict::KindMismatch),
        },
    }
}

/// Assembles the collected entries into one output value, starting from
/// `Null`: each entry's path is resolved to its output keys and its
/// value, under the fixed scalar mapping, is written there.  Entries with
/// empty paths are skipped; a structural conflict aborts the transform.
pub fn toml_to_json_value(entries: &Vec<(Path, Toml)>) -> (r: Result<Json, Conflict>)
    ensures
        spec_json_outcome(r, spec_assemble(spec_entries_view(entries@))),
{
    let ghost eseq = spec_entries_view(entries@);
    let n = entries.len();
    let mut acc = Json::Null;
    let mut j: usize = 0;
    while j < n
        invariant
            j <= n,
            n == entries@.len(),
            eseq == spec_entries_view(entries@),
            spec_assemble_from(eseq, j as int, acc@) == spec_assemble(eseq),
        decreases n - j,
    {
        proof {
            assert(eseq[j as int] == (entries@[j as int].0@, entries@[j as int].1@));
        }
        let keys = entries[j].0.keys();
        proof {
            assert(spec_keys_view(keys@) == spec_resolved(eseq[j as int].0));
        }
        if keys.len() > 0 {
            let jv = transform(&entries[j].1);
            match put_value(acc, &keys, 0, jv) {
                Ok(a2) => {
                    acc = a2;
                },
                Err(e) => {
                    return Err(e);
                },
            }
        }
        j = j + 1;
    }
    Ok(acc)
}

/// Transforms a source document by the compiled rules: matches it against
/// the automaton and assembles the collected leaves into one output
/// value.  A structural conflict aborts the transform.
pub fn transform_by_rules(toml_value: &Toml, rules: &Rules) -> (r: Result<Json, Conflict>)
    ensures
        spec_json_outcome(r, spec_transform(toml_value@, rules@)),
{
    let entries = map_by_rules(toml_value, rules);
    toml_to_json_value(&entries)
}

} // verus!
