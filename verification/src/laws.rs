//! The laws the library states of itself, proved once and for all:
//! determinism of the transform and of rule compilation, rejection of
//! conflicting leaves, idempotence of compilation, and the structural
//! copy that the empty rule set performs.

use vstd::prelude::*;
use crate::assoc::assoc_get;
use crate::assoc::assoc_set;
use crate::assoc::lemma_assoc_get_at;
use crate::assoc::lemma_assoc_get_first;
use crate::assoc::lemma_assoc_get_push;
use crate::assoc::lemma_assoc_get_push_other;
use crate::assoc::lemma_assoc_get_set;
use crate::assoc::lemma_assoc_get_set_other;
use crate::assoc::lemma_assoc_set_push;
use crate::assoc::lemma_assoc_set_same;
use crate::assoc::lemma_assoc_set_set;
use crate::collect::spec_collect;
use crate::collect::spec_collect_arr;
use crate::collect::spec_collect_obj;
use crate::collect::spec_insert_rule;
use crate::path::SpecPath;
use crate::path::spec_flattened;
use crate::path::spec_linked;
use crate::path::spec_resolved;
use crate::path::spec_resolved_unit;
use crate::rule::Edge;
use crate::rule::SpecKey;
use crate::rule::SpecNode;
use crate::text::spec_split_dots;
use crate::transform::Conflict;
use crate::transform::spec_assemble;
use crate::transform::spec_assemble_from;
use crate::transform::spec_json_of;
use crate::transform::spec_match;
use crate::transform::spec_match_array;
use crate::transform::spec_match_table;
use crate::transform::spec_merge;
use crate::transform::spec_merge_obj;
use crate::transform::spec_put;
use crate::transform::spec_transform;
use crate::value::SpecJson;
use crate::value::SpecToml;

verus! {

broadcast use vstd::std_specs::vec::group_vec_axioms, vstd::seq::group_seq_axioms;

/// Law: the transform is a function of the models alone — two source
/// documents with the same model, matched against two rule automata with
/// the same model, yield the same outcome.
pub proof fn lemma_transform_deterministic(d1: SpecToml, r1: SpecNode, d2: SpecToml, r2: SpecNode)
    requires
        d1 == d2,
        r1 == r2,
    ensures
        spec_transform(d1, r1) == spec_transform(d2, r2),
{
}

/// Writing a second value along the same keys over a successfully
/// written first one fails, when the first value is neither `Null` nor
/// an object and the second is not an object.
proof fn lemma_put_twice_fails(acc: SpecJson, keys: Seq<SpecKey>, i: int, v1: SpecJson, v2: SpecJson)
    requires
        0 <= i <= keys.len(),
        !(v1 is Null),
        !(v1 is Object),
        !(v2 is Object),
        spec_put(acc, keys, i, v1) is Ok,
    ensures
        spec_put(spec_put(acc, keys, i, v1)->Ok_0, keys, i, v2) is Err,
    decreases keys.len() - i,
{
    if i == keys.len() {
        assert(acc is Null);
    } else {
        match keys[i] {
            SpecKey::Field(name) => match acc {
                SpecJson::Null => {
                    let c1 = spec_put(SpecJson::Null, keys, i + 1, v1)->Ok_0;
                    lemma_put_twice_fails(SpecJson::Null, keys, i + 1, v1, v2);
                    let first = spec_put(acc, keys, i, v1)->Ok_0;
                    assert(first == SpecJson::Object(seq![(name, c1)]));
                    assert(assoc_get(seq![(name, c1)], name) == Some(c1));
                },
                SpecJson::Object(es) => match assoc_get(es, name) {
                    Some(oldv) => {
                        let c1 = spec_put(oldv, keys, i + 1, v1)->Ok_0;
                        lemma_put_twice_fails(oldv, keys, i + 1, v1, v2);
                        lemma_assoc_get_set(es, name, c1);
                    },
                    None => {
                        let c1 = spec_put(SpecJson::Null, keys, i + 1, v1)->Ok_0;
                        lemma_put_twice_fails(SpecJson::Null, keys, i + 1, v1, v2);
                        lemma_assoc_get_push(es, name, c1);
                    },
                },
                _ => {},
            },
            SpecKey::Index { of, total } => match acc {
                SpecJson::Null => {
                    if of < total {
                        let c1 = spec_put(SpecJson::Null, keys, i + 1, v1)->Ok_0;
                        lemma_put_twice_fails(SpecJson::Null, keys, i + 1, v1, v2);
                        let arr = Seq::new(total, |x: int| SpecJson::Null).update(of as int, c1);
                        assert(arr.len() == total);
                        assert(arr[of as int] == c1);
                    }
                },
                SpecJson::Array(es) => {
                    if es.len() == total && of < total {
                        lemma_put_twice_fails(es[of as int], keys, i + 1, v1, v2);
                        assert(es.update(of as int, spec_put(es[of as int], keys, i + 1, v1)->Ok_0)[of as int]
                            == spec_put(es[of as int], keys, i + 1, v1)->Ok_0);
                    }
                },
                _ => {},
            },
        }
    }
}

/// Law: two leaves that resolve to the same nonempty output path and
/// carry scalar values cannot both be written — assembling them fails
/// rather than silently keeping either one.
pub proof fn lemma_conflicting_leaves_rejected(p1: SpecPath, t1: SpecToml, p2: SpecPath, t2: SpecToml)
    requires
        spec_resolved(p1) == spec_resolved(p2),
        spec_resolved(p1).len() > 0,
        !(t1 is Table),
        !(t1 is Array),
        !(t2 is Table),
        !(t2 is Array),
    ensures
        spec_assemble(seq![(p1, t1), (p2, t2)]) is Err,
{
    let entries = seq![(p1, t1), (p2, t2)];
    let keys = spec_resolved(p1);
    let v1 = spec_json_of(t1);
    let v2 = spec_json_of(t2);
    assert(!(v1 is Null) && !(v1 is Object));
    assert(!(v2 is Object));
    assert(entries[0] == (p1, t1));
    assert(entries[1] == (p2, t2));
    match spec_put(SpecJson::Null, keys, 0, v1) {
        Ok(acc1) => {
            lemma_put_twice_fails(SpecJson::Null, keys, 0, v1, v2);
            assert(spec_put(acc1, keys, 0, v2) is Err);
            assert(spec_assemble_from(entries, 1, acc1) is Err);
        },
        Err(e) => {},
    }
}

/// The leaves of a source value: one entry per scalar, each under the
/// raw key path that reaches it, in document order.
pub open spec fn spec_leaves(v: SpecToml) -> Seq<(Seq<SpecKey>, SpecToml)>
    decreases v, 0int,
{
    match v {
        SpecToml::Table(es) => spec_leaves_table(es, 0),
        SpecToml::Array(es) => spec_leaves_array(es, 0, es.len()),
        _ => seq![(Seq::empty(), v)],
    }
}

/// The leaves of the table entries of `es` from position `j` on.
pub open spec fn spec_leaves_table(es: Seq<(Seq<char>, SpecToml)>, j: int) -> Seq<
    (Seq<SpecKey>, SpecToml),
>
    decreases es, es.len() - j + 1,
{
    if j < 0 || j >= es.len() {
        Seq::empty()
    } else {
        spec_prefixed(SpecKey::Field(es[j].0), spec_leaves(es[j].1)) + spec_leaves_table(es, j + 1)
    }
}

/// The leaves of the array elements of `es` from position `j` on, in an
/// array of length `total`.
pub open spec fn spec_leaves_array(es: Seq<SpecToml>, j: int, total: nat) -> Seq<
    (Seq<SpecKey>, SpecToml),
>
    decreases es, es.len() - j + 1,
{
    if j < 0 || j >= es.len() {
        Seq::empty()
    } else {
        spec_prefixed(SpecKey::Index { of: j as nat, total }, spec_leaves(es[j]))
            + spec_leaves_array(es, j + 1, total)
    }
}

/// Each entry of `entries` with `k` prepended to its key path.
pub open spec fn spec_prefixed(
    k: SpecKey,
    entries: Seq<(Seq<SpecKey>, SpecToml)>,
) -> Seq<(Seq<SpecKey>, SpecToml)> {
    Seq::new(entries.len(), |i: int| (seq![k] + entries[i].0, entries[i].1))
}

/// A path whose units all hold exactly one key: no grouping is pending.
pub open spec fn spec_path_flat(p: SpecPath) -> bool {
    forall|i: int| 0 <= i < p.len() ==> p[i].len() == 1
}

/// The key path as a path of single-key units.
pub open spec fn spec_as_units(ks: Seq<SpecKey>) -> SpecPath {
    Seq::new(ks.len(), |i: int| seq![ks[i]])
}

/// Resolving a flat path keeps its keys unchanged.
proof fn lemma_flat_resolved(p: SpecPath)
    requires
        spec_path_flat(p),
    ensures
        spec_flattened(p) == p,
        spec_resolved(p) == Seq::new(p.len(), |i: int| p[i][0]),
{
    assert forall|i: int| 0 <= i < p.len() implies spec_flattened(p)[i] == p[i] by {
        assert(p[i].len() == 1);
        assert(spec_resolved_unit(p[i]) == p[i][0]);
        assert(seq![p[i][0]] =~= p[i]);
    }
    assert(spec_flattened(p) =~= p);
    assert forall|i: int| 0 <= i < p.len() implies spec_resolved(p)[i] == p[i][0] by {
        assert(p[i].len() == 1);
    }
    assert(spec_resolved(p) =~= Seq::new(p.len(), |i: int| p[i][0]));
}

/// Matching under a node without transitions collects exactly the leaves
/// of the value, each under `p` extended by its own raw keys.
proof fn lemma_match_leaf_node(v: SpecToml, n: SpecNode, p: SpecPath)
    requires
        n.nexts.len() == 0,
        spec_path_flat(p),
    ensures
        spec_match(v, n, p) == Seq::new(
            spec_leaves(v).len(),
            |i: int| (p + spec_as_units(spec_leaves(v)[i].0), spec_leaves(v)[i].1),
        ),
    decreases v, 0int,
{
    lemma_flat_resolved(p);
    match v {
        SpecToml::Table(es) => {
            lemma_match_leaf_node_table(es, 0, n, p);
        },
        SpecToml::Array(es) => {
            lemma_match_leaf_node_array(es, 0, es.len(), n, p);
        },
        _ => {
            assert(spec_as_units(Seq::<SpecKey>::empty()) =~= Seq::<Seq<SpecKey>>::empty());
            assert(p + spec_as_units(Seq::<SpecKey>::empty()) =~= p);
            assert(spec_match(v, n, p) =~= Seq::new(
                spec_leaves(v).len(),
                |i: int| (p + spec_as_units(spec_leaves(v)[i].0), spec_leaves(v)[i].1),
            ));
        },
    }
}

/// The table case of `lemma_match_leaf_node`.
proof fn lemma_match_leaf_node_table(
    es: Seq<(Seq<char>, SpecToml)>,
    j: int,
    n: SpecNode,
    p: SpecPath,
)
    requires
        n.nexts.len() == 0,
        spec_path_flat(p),
    ensures
        spec_match_table(es, j, n, p) == Seq::new(
            spec_leaves_table(es, j).len(),
            |i: int| (p + spec_as_units(spec_leaves_table(es, j)[i].0), spec_leaves_table(
                es,
                j,
            )[i].1),
        ),
    decreases es, es.len() - j + 1,
{
    lemma_flat_resolved(p);
    if j < 0 || j >= es.len() {
        assert(spec_match_table(es, j, n, p) =~= Seq::new(
            spec_leaves_table(es, j).len(),
            |i: int| (p + spec_as_units(spec_leaves_table(es, j)[i].0), spec_leaves_table(
                es,
                j,
            )[i].1),
        ));
    } else {
        let k = SpecKey::Field(es[j].0);
        let p2 = spec_flattened(p).push(seq![k]);
        assert(p2 == p.push(seq![k]));
        assert(spec_path_flat(p2));
        lemma_match_leaf_node(es[j].1, n, p2);
        lemma_match_leaf_node_table(es, j + 1, n, p);
        let sub = spec_leaves(es[j].1);
        let rest = spec_leaves_table(es, j + 1);
        let whole = spec_leaves_table(es, j);
        assert(whole == spec_prefixed(k, sub) + rest);
        assert forall|i: int| 0 <= i < whole.len() implies (
            p + spec_as_units(whole[i].0),
            whole[i].1,
        ) == (spec_match_table(es, j, n, p))[i] by {
            if i < sub.len() {
                assert(whole[i] == (seq![k] + sub[i].0, sub[i].1));
                assert(spec_as_units(seq![k] + sub[i].0) =~= seq![seq![k]] + spec_as_units(
                    sub[i].0,
                ));
                assert(p + (seq![seq![k]] + spec_as_units(sub[i].0)) =~= p2 + spec_as_units(
                    sub[i].0,
                ));
                assert((spec_match_table(es, j, n, p))[i] == (spec_match(es[j].1, n, p2))[i]);
            } else {
                assert(whole[i] == rest[i - sub.len()]);
                assert((spec_match_table(es, j, n, p))[i] == (spec_match_table(es, j + 1, n, p))[
                    i - sub.len()]);
            }
        }
        assert(spec_match_table(es, j, n, p) =~= Seq::new(
            whole.len(),
            |i: int| (p + spec_as_units(whole[i].0), whole[i].1),
        ));
    }
}

/// The array case of `lemma_match_leaf_node`.
proof fn lemma_match_leaf_node_array(es: Seq<SpecToml>, j: int, total: nat, n: SpecNode, p: SpecPath)
    requires
        n.nexts.len() == 0,
        spec_path_flat(p),
    ensures
        spec_match_array(es, j, total, n, p) == Seq::new(
            spec_leaves_array(es, j, total).len(),
            |i: int| (p + spec_as_units(spec_leaves_array(es, j, total)[i].0), spec_leaves_array(
                es,
                j,
                total,
            )[i].1),
        ),
    decreases es, es.len() - j + 1,
{
    lemma_flat_resolved(p);
    if j < 0 || j >= es.len() {
        assert(spec_match_array(es, j, total, n, p) =~= Seq::new(
            spec_leaves_array(es, j, total).len(),
            |i: int| (p + spec_as_units(spec_leaves_array(es, j, total)[i].0), spec_leaves_array(
                es,
                j,
                total,
            )[i].1),
        ));
    } else {
        let k = SpecKey::Index { of: j as nat, total };
        let p2 = spec_flattened(p).push(seq![k]);
        assert(p2 == p.push(seq![k]));
        assert(spec_path_flat(p2));
        lemma_match_leaf_node(es[j], n, p2);
        lemma_match_leaf_node_array(es, j + 1, total, n, p);
        let sub = spec_leaves(es[j]);
        let rest = spec_leaves_array(es, j + 1, total);
        let whole = spec_leaves_array(es, j, total);
        assert(whole == spec_prefixed(k, sub) + rest);
        assert forall|i: int| 0 <= i < whole.len() implies (
            p + spec_as_units(whole[i].0),
            whole[i].1,
        ) == (spec_match_array(es, j, total, n, p))[i] by {
            if i < sub.len() {
                assert(whole[i] == (seq![k] + sub[i].0, sub[i].1));
                assert(spec_as_units(seq![k] + sub[i].0) =~= seq![seq![k]] + spec_as_units(
                    sub[i].0,
                ));
                assert(p + (seq![seq![k]] + spec_as_units(sub[i].0)) =~= p2 + spec_as_units(
                    sub[i].0,
                ));
                assert((spec_match_array(es, j, total, n, p))[i] == (spec_match(es[j], n, p2))[i]);
            } else {
                assert(whole[i] == rest[i - sub.len()]);
                assert((spec_match_array(es, j, total, n, p))[i] == (spec_match_array(
                    es,
                    j + 1,
                    total,
                    n,
                    p,
                ))[i - sub.len()]);
            }
        }
        assert(spec_match_array(es, j, total, n, p) =~= Seq::new(
            whole.len(),
            |i: int| (p + spec_as_units(whole[i].0), whole[i].1),
        ));
    }
}

/// Law: under the empty rule set the matcher performs no grouping — it
/// collects exactly the leaves of the source document, in document
/// order, each under the raw key path that reaches it.
pub proof fn lemma_identity_rules_collect_leaves(d: SpecToml)
    ensures
        spec_match(d, SpecNode::leaf(Edge::Restarted), Seq::empty()) == Seq::new(
            spec_leaves(d).len(),
            |i: int| (spec_as_units(spec_leaves(d)[i].0), spec_leaves(d)[i].1),
        ),
{
    let p = Seq::<Seq<SpecKey>>::empty();
    lemma_match_leaf_node(d, SpecNode::leaf(Edge::Restarted), p);
    assert forall|i: int| 0 <= i < spec_leaves(d).len() implies p + spec_as_units(
        spec_leaves(d)[i].0,
    ) == spec_as_units(spec_leaves(d)[i].0) by {
        assert(p + spec_as_units(spec_leaves(d)[i].0) =~= spec_as_units(spec_leaves(d)[i].0));
    }
    assert(Seq::new(
        spec_leaves(d).len(),
        |i: int| (p + spec_as_units(spec_leaves(d)[i].0), spec_leaves(d)[i].1),
    ) =~= Seq::new(
        spec_leaves(d).len(),
        |i: int| (spec_as_units(spec_leaves(d)[i].0), spec_leaves(d)[i].1),
    ));
}

/// A well-formed source document: every table is nonempty with unique
/// keys, every array is nonempty.
pub open spec fn spec_doc_wf(v: SpecToml) -> bool
    decreases v,
{
    match v {
        SpecToml::Table(es) => es.len() > 0 && (forall|a: int, b: int|
            0 <= a < b < es.len() ==> es[a].0 != es[b].0) && (forall|a: int|
            0 <= a < es.len() ==> spec_doc_wf(#[trigger] es[a].1)),
        SpecToml::Array(es) => es.len() > 0 && (forall|a: int|
            0 <= a < es.len() ==> spec_doc_wf(#[trigger] es[a])),
        _ => true,
    }
}

/// Writing each of `w[j..]` in turn: entry `m` writes value `w[m].1`
/// under the keys `ks` extended by `w[m].0`, entering at position `i`.
pub open spec fn spec_fold_writes(
    acc: SpecJson,
    ks: Seq<SpecKey>,
    i: int,
    w: Seq<(SpecKey, SpecJson)>,
    j: int,
) -> Result<SpecJson, Conflict>
    decreases w.len() - j,
{
    if j < 0 || j >= w.len() {
        Ok(acc)
    } else {
        match spec_put(acc, ks.push(w[j].0), i, w[j].1) {
            Ok(a2) => spec_fold_writes(a2, ks, i, w, j + 1),
            Err(e) => Err(e),
        }
    }
}

/// One write per field of an object.
pub open spec fn spec_field_writes(es: Seq<(Seq<char>, SpecJson)>) -> Seq<(SpecKey, SpecJson)> {
    Seq::new(es.len(), |m: int| (SpecKey::Field(es[m].0), es[m].1))
}

/// One write per element of an array of length `total`.
pub open spec fn spec_elem_writes(es: Seq<SpecJson>, total: nat) -> Seq<(SpecKey, SpecJson)> {
    Seq::new(es.len(), |m: int| (SpecKey::Index { of: m as nat, total }, es[m]))
}

/// Writing each leaf of `entries[j..]` in turn under `ks` extended by the
/// leaf's own keys, entering at position `i`.
pub open spec fn spec_fold_leaves(
    acc: SpecJson,
    ks: Seq<SpecKey>,
    entries: Seq<(Seq<SpecKey>, SpecToml)>,
    j: int,
) -> Result<SpecJson, Conflict>
    decreases entries.len() - j,
{
    if j < 0 || j >= entries.len() {
        Ok(acc)
    } else {
        match spec_put(acc, ks + entries[j].0, 0, spec_json_of(entries[j].1)) {
            Ok(a2) => spec_fold_leaves(a2, ks, entries, j + 1),
            Err(e) => Err(e),
        }
    }
}

/// Resolving a path of single-key units yields the keys themselves.
proof fn lemma_resolved_as_units(ks: Seq<SpecKey>)
    ensures
        spec_resolved(spec_as_units(ks)) == ks,
{
    assert forall|i: int| 0 <= i < ks.len() implies spec_resolved(spec_as_units(ks))[i]
        == ks[i] by {
        assert(spec_as_units(ks)[i] == seq![ks[i]]);
        assert(seq![ks[i]].len() == 1);
    }
    assert(spec_resolved(spec_as_units(ks)) =~= ks);
}

/// Every leaf of a well-formed table or array sits under at least one
/// key.
proof fn lemma_leaves_nonempty(v: SpecToml)
    requires
        v is Table || v is Array,
    ensures
        forall|i: int| 0 <= i < spec_leaves(v).len() ==> #[trigger] spec_leaves(v)[i].0.len() > 0,
{
    match v {
        SpecToml::Table(es) => {
            lemma_leaves_nonempty_table(es, 0);
            assert(spec_leaves(v) == spec_leaves_table(es, 0));
            assert forall|i: int| 0 <= i < spec_leaves(v).len() implies #[trigger] spec_leaves(
                v,
            )[i].0.len() > 0 by {
                assert(spec_leaves(v)[i] == spec_leaves_table(es, 0)[i]);
            }
        },
        SpecToml::Array(es) => {
            lemma_leaves_nonempty_array(es, 0, es.len());
            assert(spec_leaves(v) == spec_leaves_array(es, 0, es.len()));
            assert forall|i: int| 0 <= i < spec_leaves(v).len() implies #[trigger] spec_leaves(
                v,
            )[i].0.len() > 0 by {
                assert(spec_leaves(v)[i] == spec_leaves_array(es, 0, es.len())[i]);
            }
        },
        _ => {},
    }
}

/// The table case of `lemma_leaves_nonempty`.
proof fn lemma_leaves_nonempty_table(es: Seq<(Seq<char>, SpecToml)>, j: int)
    ensures
        forall|i: int| 0 <= i < spec_leaves_table(es, j).len() ==> #[trigger] spec_leaves_table(
            es,
            j,
        )[i].0.len() > 0,
    decreases es.len() - j,
{
    if j < 0 || j >= es.len() {
    } else {
        lemma_leaves_nonempty_table(es, j + 1);
        let pre = spec_prefixed(SpecKey::Field(es[j].0), spec_leaves(es[j].1));
        assert forall|i: int| 0 <= i < spec_leaves_table(es, j).len() implies #[trigger]
            spec_leaves_table(es, j)[i].0.len() > 0 by {
            if i < pre.len() {
                assert(spec_leaves_table(es, j)[i] == pre[i]);
            } else {
                assert(spec_leaves_table(es, j)[i] == spec_leaves_table(es, j + 1)[i - pre.len()]);
            }
        }
    }
}

/// The array case of `lemma_leaves_nonempty`.
proof fn lemma_leaves_nonempty_array(es: Seq<SpecToml>, j: int, total: nat)
    ensures
        forall|i: int| 0 <= i < spec_leaves_array(es, j, total).len() ==> #[trigger]
            spec_leaves_array(es, j, total)[i].0.len() > 0,
    decreases es.len() - j,
{
    if j < 0 || j >= es.len() {
    } else {
        lemma_leaves_nonempty_array(es, j + 1, total);
        let pre = spec_prefixed(SpecKey::Index { of: j as nat, total }, spec_leaves(es[j]));
        assert forall|i: int| 0 <= i < spec_leaves_array(es, j, total).len() implies #[trigger]
            spec_leaves_array(es, j, total)[i].0.len() > 0 by {
            if i < pre.len() {
                assert(spec_leaves_array(es, j, total)[i] == pre[i]);
            } else {
                assert(spec_leaves_array(es, j, total)[i] == spec_leaves_array(es, j + 1, total)[
                    i - pre.len()]);
            }
        }
    }
}

/// Folding the leaves of `L2` after those of `L1` folds their
/// concatenation.
proof fn lemma_fold_leaves_shift(
    acc: SpecJson,
    ks: Seq<SpecKey>,
    l1: Seq<(Seq<SpecKey>, SpecToml)>,
    l2: Seq<(Seq<SpecKey>, SpecToml)>,
    m: int,
)
    requires
        0 <= m,
    ensures
        spec_fold_leaves(acc, ks, l1 + l2, l1.len() + m) == spec_fold_leaves(acc, ks, l2, m),
    decreases l2.len() - m,
{
    if m >= l2.len() {
    } else {
        assert((l1 + l2)[l1.len() + m] == l2[m]);
        match spec_put(acc, ks + l2[m].0, 0, spec_json_of(l2[m].1)) {
            Ok(a2) => {
                lemma_fold_leaves_shift(a2, ks, l1, l2, m + 1);
            },
            Err(e) => {},
        }
    }
}

/// Folding a concatenation of leaf groups folds the groups in turn.
proof fn lemma_fold_leaves_concat(
    acc: SpecJson,
    ks: Seq<SpecKey>,
    l1: Seq<(Seq<SpecKey>, SpecToml)>,
    l2: Seq<(Seq<SpecKey>, SpecToml)>,
    j: int,
)
    requires
        0 <= j <= l1.len(),
    ensures
        spec_fold_leaves(acc, ks, l1 + l2, j) == (match spec_fold_leaves(acc, ks, l1, j) {
            Ok(a) => spec_fold_leaves(a, ks, l2, 0),
            Err(e) => Err(e),
        }),
    decreases l1.len() - j,
{
    if j == l1.len() {
        lemma_fold_leaves_shift(acc, ks, l1, l2, 0);
    } else {
        assert((l1 + l2)[j] == l1[j]);
        match spec_put(acc, ks + l1[j].0, 0, spec_json_of(l1[j].1)) {
            Ok(a2) => {
                lemma_fold_leaves_concat(a2, ks, l1, l2, j + 1);
            },
            Err(e) => {},
        }
    }
}

/// Folding leaves each prefixed by `k` is folding them one key deeper.
proof fn lemma_fold_leaves_prefix(
    acc: SpecJson,
    ks: Seq<SpecKey>,
    k: SpecKey,
    l: Seq<(Seq<SpecKey>, SpecToml)>,
    j: int,
)
    requires
        0 <= j,
    ensures
        spec_fold_leaves(acc, ks, spec_prefixed(k, l), j) == spec_fold_leaves(
            acc,
            ks.push(k),
            l,
            j,
        ),
    decreases l.len() - j,
{
    if j >= l.len() {
    } else {
        assert(spec_prefixed(k, l)[j] == (seq![k] + l[j].0, l[j].1));
        assert(ks + (seq![k] + l[j].0) =~= ks.push(k) + l[j].0);
        match spec_put(acc, ks.push(k) + l[j].0, 0, spec_json_of(l[j].1)) {
            Ok(a2) => {
                lemma_fold_leaves_prefix(a2, ks, k, l, j + 1);
            },
            Err(e) => {},
        }
    }
}

/// Writing through a `Null` along a field key equals writing through a
/// one-field object holding `Null` under that field.
proof fn lemma_put_null_as_obj(name: Seq<char>, ks: Seq<SpecKey>, i: int, x: SpecJson)
    requires
        0 <= i < ks.len(),
        ks[i] == SpecKey::Field(name),
    ensures
        spec_put(SpecJson::Null, ks, i, x) == spec_put(
            SpecJson::Object(seq![(name, SpecJson::Null)]),
            ks,
            i,
            x,
        ),
{
    assert(seq![(name, SpecJson::Null)][0] == (name, SpecJson::Null));
    assert(assoc_get(seq![(name, SpecJson::Null)], name) == Some(SpecJson::Null));
    match spec_put(SpecJson::Null, ks, i + 1, x) {
        Ok(c) => {
            assert(assoc_set(seq![(name, SpecJson::Null)], name, c) =~= seq![(name, c)]);
        },
        Err(e) => {},
    }
}

/// Writing through an object that lacks a field equals writing through
/// the object with `Null` appended under that field.
proof fn lemma_put_absent_as_pushed(
    es: Seq<(Seq<char>, SpecJson)>,
    name: Seq<char>,
    ks: Seq<SpecKey>,
    i: int,
    x: SpecJson,
)
    requires
        0 <= i < ks.len(),
        ks[i] == SpecKey::Field(name),
        assoc_get(es, name) is None,
    ensures
        spec_put(SpecJson::Object(es), ks, i, x) == spec_put(
            SpecJson::Object(es.push((name, SpecJson::Null))),
            ks,
            i,
            x,
        ),
{
    lemma_assoc_get_push(es, name, SpecJson::Null);
    match spec_put(SpecJson::Null, ks, i + 1, x) {
        Ok(c) => {
            lemma_assoc_set_push(es, name, SpecJson::Null, c);
        },
        Err(e) => {},
    }
}

/// Writing through a `Null` along an in-bounds index key equals writing
/// through a `Null`-filled array of the declared length.
proof fn lemma_put_null_as_array(of: nat, total: nat, ks: Seq<SpecKey>, i: int, x: SpecJson)
    requires
        0 <= i < ks.len(),
        ks[i] == (SpecKey::Index { of, total }),
        of < total,
    ensures
        spec_put(SpecJson::Null, ks, i, x) == spec_put(
            SpecJson::Array(Seq::new(total, |y: int| SpecJson::Null)),
            ks,
            i,
            x,
        ),
{
    let nulls = Seq::new(total, |y: int| SpecJson::Null);
    assert(nulls.len() == total);
    assert(nulls[of as int] == SpecJson::Null);
}

/// A run of writes into an object that walks one fixed field: the object
/// wraps the same run applied to the child under that field.
proof fn lemma_wrap_obj(
    es: Seq<(Seq<char>, SpecJson)>,
    name: Seq<char>,
    child0: SpecJson,
    ks: Seq<SpecKey>,
    i: int,
    w: Seq<(SpecKey, SpecJson)>,
    j: int,
)
    requires
        0 <= i < ks.len(),
        ks[i] == SpecKey::Field(name),
        assoc_get(es, name) == Some(child0),
    ensures
        spec_fold_writes(SpecJson::Object(es), ks, i, w, j) == (match spec_fold_writes(
            child0,
            ks,
            i + 1,
            w,
            j,
        ) {
            Ok(c2) => Ok(SpecJson::Object(assoc_set(es, name, c2))),
            Err(e) => Err(e),
        }),
    decreases w.len() - j,
{
    lemma_assoc_set_same(es, name, child0);
    if j < 0 || j >= w.len() {
    } else {
        let kseq = ks.push(w[j].0);
        assert(kseq[i] == ks[i]);
        match spec_put(child0, kseq, i + 1, w[j].1) {
            Ok(c2) => {
                assert(spec_put(SpecJson::Object(es), kseq, i, w[j].1) == Ok::<
                    SpecJson,
                    Conflict,
                >(SpecJson::Object(assoc_set(es, name, c2))));
                lemma_assoc_get_set(es, name, c2);
                lemma_wrap_obj(assoc_set(es, name, c2), name, c2, ks, i, w, j + 1);
                match spec_fold_writes(c2, ks, i + 1, w, j + 1) {
                    Ok(c3) => {
                        lemma_assoc_set_set(es, name, c2, c3);
                    },
                    Err(e) => {},
                }
            },
            Err(e) => {
                assert(spec_put(SpecJson::Object(es), kseq, i, w[j].1) == Err::<
                    SpecJson,
                    Conflict,
                >(e));
            },
        }
    }
}

/// A run of writes into an array that walks one fixed position: the
/// array wraps the same run applied to the element at that position.
proof fn lemma_wrap_arr(
    es: Seq<SpecJson>,
    of: nat,
    total: nat,
    ks: Seq<SpecKey>,
    i: int,
    w: Seq<(SpecKey, SpecJson)>,
    j: int,
)
    requires
        0 <= i < ks.len(),
        ks[i] == (SpecKey::Index { of, total }),
        es.len() == total,
        of < total,
    ensures
        spec_fold_writes(SpecJson::Array(es), ks, i, w, j) == (match spec_fold_writes(
            es[of as int],
            ks,
            i + 1,
            w,
            j,
        ) {
            Ok(c2) => Ok(SpecJson::Array(es.update(of as int, c2))),
            Err(e) => Err(e),
        }),
    decreases w.len() - j,
{
    assert(es.update(of as int, es[of as int]) =~= es);
    if j < 0 || j >= w.len() {
    } else {
        let kseq = ks.push(w[j].0);
        assert(kseq[i] == ks[i]);
        match spec_put(es[of as int], kseq, i + 1, w[j].1) {
            Ok(c2) => {
                assert(spec_put(SpecJson::Array(es), kseq, i, w[j].1) == Ok::<
                    SpecJson,
                    Conflict,
                >(SpecJson::Array(es.update(of as int, c2))));
                let es2 = es.update(of as int, c2);
                assert(es2[of as int] == c2);
                lemma_wrap_arr(es2, of, total, ks, i, w, j + 1);
                match spec_fold_writes(c2, ks, i + 1, w, j + 1) {
                    Ok(c3) => {
                        assert(es2.update(of as int, c3) =~= es.update(of as int, c3));
                    },
                    Err(e) => {},
                }
            },
            Err(e) => {
                assert(spec_put(SpecJson::Array(es), kseq, i, w[j].1) == Err::<SpecJson, Conflict>(
                    e,
                ));
            },
        }
    }
}

/// At the end of the walk, a run of field writes into an object is the
/// object merge, field by field.
proof fn lemma_base_obj(
    aes: Seq<(Seq<char>, SpecJson)>,
    o: Seq<(Seq<char>, SpecJson)>,
    ks: Seq<SpecKey>,
    i: int,
    j: int,
)
    requires
        i == ks.len(),
        0 <= j,
    ensures
        spec_fold_writes(SpecJson::Object(aes), ks, i, spec_field_writes(o), j) == (
        match spec_merge_obj(aes, o, j) {
            Ok(es2) => Ok(SpecJson::Object(es2)),
            Err(e) => Err(e),
        }),
    decreases o.len() - j,
{
    let w = spec_field_writes(o);
    if j >= o.len() {
    } else {
        assert(w[j] == (SpecKey::Field(o[j].0), o[j].1));
        let kseq = ks.push(SpecKey::Field(o[j].0));
        assert(kseq[i] == SpecKey::Field(o[j].0));
        match assoc_get(aes, o[j].0) {
            Some(old) => {
                assert(spec_put(old, kseq, i + 1, o[j].1) == spec_merge(old, o[j].1));
                match spec_merge(old, o[j].1) {
                    Ok(m) => {
                        assert(spec_put(SpecJson::Object(aes), kseq, i, o[j].1) == Ok::<
                            SpecJson,
                            Conflict,
                        >(SpecJson::Object(assoc_set(aes, o[j].0, m))));
                        lemma_base_obj(assoc_set(aes, o[j].0, m), o, ks, i, j + 1);
                    },
                    Err(e) => {
                        assert(spec_put(SpecJson::Object(aes), kseq, i, o[j].1) == Err::<
                            SpecJson,
                            Conflict,
                        >(e));
                    },
                }
            },
            None => {
                assert(spec_put(SpecJson::Null, kseq, i + 1, o[j].1) == Ok::<SpecJson, Conflict>(
                    o[j].1,
                ));
                assert(spec_put(SpecJson::Object(aes), kseq, i, o[j].1) == Ok::<SpecJson, Conflict>(
                    SpecJson::Object(aes.push((o[j].0, o[j].1))),
                ));
                assert(aes.push((o[j].0, o[j].1)) =~= aes.push(o[j]));
                lemma_base_obj(aes.push(o[j]), o, ks, i, j + 1);
            },
        }
    }
}

/// Merging entries whose keys are all absent and mutually distinct
/// appends them in order.
proof fn lemma_merge_obj_disjoint(
    aes: Seq<(Seq<char>, SpecJson)>,
    o: Seq<(Seq<char>, SpecJson)>,
    j: int,
)
    requires
        0 <= j <= o.len(),
        forall|m: int| j <= m < o.len() ==> assoc_get(aes, #[trigger] o[m].0) is None,
        forall|a: int, b: int| j <= a < b < o.len() ==> o[a].0 != o[b].0,
    ensures
        spec_merge_obj(aes, o, j) == Ok::<Seq<(Seq<char>, SpecJson)>, Conflict>(aes + o.skip(j)),
    decreases o.len() - j,
{
    if j == o.len() {
        assert(aes + o.skip(j) =~= aes);
    } else {
        let aes2 = aes.push((o[j].0, o[j].1));
        assert(aes2 =~= aes.push(o[j]));
        assert forall|m: int| j + 1 <= m < o.len() implies assoc_get(
            aes2,
            #[trigger] o[m].0,
        ) is None by {
            lemma_assoc_get_push_other(aes, o[j].0, o[j].1, o[m].0);
        }
        lemma_merge_obj_disjoint(aes2, o, j + 1);
        assert(aes2 + o.skip(j + 1) =~= aes + o.skip(j));
    }
}

/// At the end of the walk, element writes fill a partially written
/// array position by position.
proof fn lemma_base_arr(
    partial: Seq<SpecJson>,
    a: Seq<SpecJson>,
    ks: Seq<SpecKey>,
    i: int,
    j: int,
)
    requires
        i == ks.len(),
        0 <= j <= a.len(),
        partial.len() == a.len(),
        forall|m: int| 0 <= m < j ==> partial[m] == a[m],
        forall|m: int| j <= m < a.len() ==> #[trigger] partial[m] is Null,
    ensures
        spec_fold_writes(SpecJson::Array(partial), ks, i, spec_elem_writes(a, a.len()), j) == Ok::<
            SpecJson,
            Conflict,
        >(SpecJson::Array(a)),
    decreases a.len() - j,
{
    let w = spec_elem_writes(a, a.len());
    if j == a.len() {
        assert(partial =~= a);
    } else {
        assert(w[j] == (SpecKey::Index { of: j as nat, total: a.len() }, a[j]));
        let kseq = ks.push(SpecKey::Index { of: j as nat, total: a.len() });
        assert(kseq[i] == (SpecKey::Index { of: j as nat, total: a.len() }));
        assert(partial[j] is Null);
        assert(spec_put(partial[j], kseq, i + 1, a[j]) == Ok::<SpecJson, Conflict>(a[j]));
        assert(spec_put(SpecJson::Array(partial), kseq, i, a[j]) == Ok::<SpecJson, Conflict>(
            SpecJson::Array(partial.update(j, a[j])),
        ));
        lemma_base_arr(partial.update(j, a[j]), a, ks, i, j + 1);
    }
}

/// Writing an object field by field equals writing it whole: when
/// writing `Object(o)` under `keys[i..]` succeeds, the run of single
/// field writes reaches the same value.
proof fn lemma_obj_writes_split(
    acc: SpecJson,
    ks: Seq<SpecKey>,
    i: int,
    o: Seq<(Seq<char>, SpecJson)>,
)
    requires
        0 <= i <= ks.len(),
        o.len() > 0,
        forall|a: int, b: int| 0 <= a < b < o.len() ==> o[a].0 != o[b].0,
        spec_put(acc, ks, i, SpecJson::Object(o)) is Ok,
    ensures
        spec_fold_writes(acc, ks, i, spec_field_writes(o), 0) == spec_put(
            acc,
            ks,
            i,
            SpecJson::Object(o),
        ),
    decreases ks.len() - i,
{
    let w = spec_field_writes(o);
    let whole = spec_put(acc, ks, i, SpecJson::Object(o));
    if i == ks.len() {
        assert(whole == spec_merge(acc, SpecJson::Object(o)));
        match acc {
            SpecJson::Null => {
                assert(whole == Ok::<SpecJson, Conflict>(SpecJson::Object(o)));
                assert(w[0] == (SpecKey::Field(o[0].0), o[0].1));
                let kseq0 = ks.push(SpecKey::Field(o[0].0));
                assert(kseq0[i] == SpecKey::Field(o[0].0));
                assert(spec_put(SpecJson::Null, kseq0, i + 1, o[0].1) == Ok::<SpecJson, Conflict>(
                    o[0].1,
                ));
                let p0 = seq![(o[0].0, o[0].1)];
                assert(spec_put(SpecJson::Null, kseq0, i, o[0].1) == Ok::<SpecJson, Conflict>(
                    SpecJson::Object(p0),
                ));
                assert(spec_fold_writes(acc, ks, i, w, 0) == spec_fold_writes(
                    SpecJson::Object(p0),
                    ks,
                    i,
                    w,
                    1,
                ));
                lemma_base_obj(p0, o, ks, i, 1);
                assert forall|m: int| 1 <= m < o.len() implies assoc_get(
                    p0,
                    #[trigger] o[m].0,
                ) is None by {
                    assert(p0[0].0 == o[0].0);
                    assert(o[0].0 != o[m].0);
                    assert(p0.drop_first() =~= Seq::<(Seq<char>, SpecJson)>::empty());
                    assert(assoc_get(Seq::<(Seq<char>, SpecJson)>::empty(), o[m].0) is None);
                    assert(assoc_get(p0, o[m].0) == assoc_get(p0.drop_first(), o[m].0));
                }
                lemma_merge_obj_disjoint(p0, o, 1);
                assert(p0 + o.skip(1) =~= o);
            },
            SpecJson::Object(aes) => {
                assert(whole == (match spec_merge_obj(aes, o, 0) {
                    Ok(es2) => Ok::<SpecJson, Conflict>(SpecJson::Object(es2)),
                    Err(e) => Err(e),
                }));
                lemma_base_obj(aes, o, ks, i, 0);
            },
            _ => {},
        }
    } else {
        match ks[i] {
            SpecKey::Field(name) => {
                match acc {
                    SpecJson::Null => {
                        let c = spec_put(SpecJson::Null, ks, i + 1, SpecJson::Object(o));
                        assert(c is Ok);
                        lemma_obj_writes_split(SpecJson::Null, ks, i + 1, o);
                        let es0 = seq![(name, SpecJson::Null)];
                        let kseq0 = ks.push(w[0].0);
                        assert(kseq0[i] == ks[i]);
                        lemma_put_null_as_obj(name, kseq0, i, w[0].1);
                        assert(spec_fold_writes(acc, ks, i, w, 0) == spec_fold_writes(
                            SpecJson::Object(es0),
                            ks,
                            i,
                            w,
                            0,
                        ));
                        assert(es0[0] == (name, SpecJson::Null));
                        assert(assoc_get(es0, name) == Some(SpecJson::Null));
                        lemma_wrap_obj(es0, name, SpecJson::Null, ks, i, w, 0);
                        assert(assoc_set(es0, name, c->Ok_0) =~= seq![(name, c->Ok_0)]);
                    },
                    SpecJson::Object(es) => {
                        match assoc_get(es, name) {
                            Some(old) => {
                                assert(spec_put(old, ks, i + 1, SpecJson::Object(o)) is Ok);
                                lemma_obj_writes_split(old, ks, i + 1, o);
                                lemma_wrap_obj(es, name, old, ks, i, w, 0);
                            },
                            None => {
                                let c = spec_put(SpecJson::Null, ks, i + 1, SpecJson::Object(o));
                                assert(c is Ok);
                                lemma_obj_writes_split(SpecJson::Null, ks, i + 1, o);
                                let es2 = es.push((name, SpecJson::Null));
                                let kseq0 = ks.push(w[0].0);
                                assert(kseq0[i] == ks[i]);
                                lemma_put_absent_as_pushed(es, name, kseq0, i, w[0].1);
                                assert(spec_fold_writes(acc, ks, i, w, 0) == spec_fold_writes(
                                    SpecJson::Object(es2),
                                    ks,
                                    i,
                                    w,
                                    0,
                                ));
                                lemma_assoc_get_push(es, name, SpecJson::Null);
                                lemma_wrap_obj(es2, name, SpecJson::Null, ks, i, w, 0);
                                lemma_assoc_set_push(es, name, SpecJson::Null, c->Ok_0);
                            },
                        }
                    },
                    _ => {},
                }
            },
            SpecKey::Index { of, total } => {
                match acc {
                    SpecJson::Null => {
                        assert(of < total);
                        let c = spec_put(SpecJson::Null, ks, i + 1, SpecJson::Object(o));
                        assert(c is Ok);
                        lemma_obj_writes_split(SpecJson::Null, ks, i + 1, o);
                        let nulls = Seq::new(total, |y: int| SpecJson::Null);
                        let kseq0 = ks.push(w[0].0);
                        assert(kseq0[i] == ks[i]);
                        lemma_put_null_as_array(of, total, kseq0, i, w[0].1);
                        assert(spec_fold_writes(acc, ks, i, w, 0) == spec_fold_writes(
                            SpecJson::Array(nulls),
                            ks,
                            i,
                            w,
                            0,
                        ));
                        assert(nulls.len() == total);
                        assert(nulls[of as int] == SpecJson::Null);
                        lemma_wrap_arr(nulls, of, total, ks, i, w, 0);
                    },
                    SpecJson::Array(es) => {
                        assert(es.len() == total && of < total);
                        assert(spec_put(es[of as int], ks, i + 1, SpecJson::Object(o)) is Ok);
                        lemma_obj_writes_split(es[of as int], ks, i + 1, o);
                        lemma_wrap_arr(es, of, total, ks, i, w, 0);
                    },
                    _ => {},
                }
            },
        }
    }
}

/// Writing an array element by element equals writing it whole: when
/// writing `Array(a)` under `keys[i..]` succeeds, the run of single
/// element writes reaches the same value.
proof fn lemma_arr_writes_split(acc: SpecJson, ks: Seq<SpecKey>, i: int, a: Seq<SpecJson>)
    requires
        0 <= i <= ks.len(),
        a.len() > 0,
        spec_put(acc, ks, i, SpecJson::Array(a)) is Ok,
    ensures
        spec_fold_writes(acc, ks, i, spec_elem_writes(a, a.len()), 0) == spec_put(
            acc,
            ks,
            i,
            SpecJson::Array(a),
        ),
    decreases ks.len() - i,
{
    let w = spec_elem_writes(a, a.len());
    let whole = spec_put(acc, ks, i, SpecJson::Array(a));
    if i == ks.len() {
        assert(whole == spec_merge(acc, SpecJson::Array(a)));
        match acc {
            SpecJson::Null => {
                assert(whole == Ok::<SpecJson, Conflict>(SpecJson::Array(a)));
                assert(w[0] == (SpecKey::Index { of: 0, total: a.len() }, a[0]));
                let kseq0 = ks.push(SpecKey::Index { of: 0, total: a.len() });
                assert(kseq0[i] == (SpecKey::Index { of: 0, total: a.len() }));
                assert(spec_put(SpecJson::Null, kseq0, i + 1, a[0]) == Ok::<SpecJson, Conflict>(
                    a[0],
                ));
                let nulls = Seq::new(a.len(), |y: int| SpecJson::Null);
                let p0 = nulls.update(0, a[0]);
                assert(spec_put(SpecJson::Null, kseq0, i, a[0]) == Ok::<SpecJson, Conflict>(
                    SpecJson::Array(p0),
                ));
                assert(spec_fold_writes(acc, ks, i, w, 0) == spec_fold_writes(
                    SpecJson::Array(p0),
                    ks,
                    i,
                    w,
                    1,
                ));
                lemma_base_arr(p0, a, ks, i, 1);
            },
            _ => {},
        }
    } else {
        match ks[i] {
            SpecKey::Field(name) => {
                match acc {
                    SpecJson::Null => {
                        let c = spec_put(SpecJson::Null, ks, i + 1, SpecJson::Array(a));
                        assert(c is Ok);
                        lemma_arr_writes_split(SpecJson::Null, ks, i + 1, a);
                        let es0 = seq![(name, SpecJson::Null)];
                        let kseq0 = ks.push(w[0].0);
                        assert(kseq0[i] == ks[i]);
                        lemma_put_null_as_obj(name, kseq0, i, w[0].1);
                        assert(spec_fold_writes(acc, ks, i, w, 0) == spec_fold_writes(
                            SpecJson::Object(es0),
                            ks,
                            i,
                            w,
                            0,
                        ));
                        assert(es0[0] == (name, SpecJson::Null));
                        assert(assoc_get(es0, name) == Some(SpecJson::Null));
                        lemma_wrap_obj(es0, name, SpecJson::Null, ks, i, w, 0);
                        assert(assoc_set(es0, name, c->Ok_0) =~= seq![(name, c->Ok_0)]);
                    },
                    SpecJson::Object(es) => {
                        match assoc_get(es, name) {
                            Some(old) => {
                                assert(spec_put(old, ks, i + 1, SpecJson::Array(a)) is Ok);
                                lemma_arr_writes_split(old, ks, i + 1, a);
                                lemma_wrap_obj(es, name, old, ks, i, w, 0);
                            },
                            None => {
                                let c = spec_put(SpecJson::Null, ks, i + 1, SpecJson::Array(a));
                                assert(c is Ok);
                                lemma_arr_writes_split(SpecJson::Null, ks, i + 1, a);
                                let es2 = es.push((name, SpecJson::Null));
                                let kseq0 = ks.push(w[0].0);
                                assert(kseq0[i] == ks[i]);
                                lemma_put_absent_as_pushed(es, name, kseq0, i, w[0].1);
                                assert(spec_fold_writes(acc, ks, i, w, 0) == spec_fold_writes(
                                    SpecJson::Object(es2),
                                    ks,
                                    i,
                                    w,
                                    0,
                                ));
                                lemma_assoc_get_push(es, name, SpecJson::Null);
                                lemma_wrap_obj(es2, name, SpecJson::Null, ks, i, w, 0);
                                lemma_assoc_set_push(es, name, SpecJson::Null, c->Ok_0);
                            },
                        }
                    },
                    _ => {},
                }
            },
            SpecKey::Index { of, total } => {
                match acc {
                    SpecJson::Null => {
                        assert(of < total);
                        let c = spec_put(SpecJson::Null, ks, i + 1, SpecJson::Array(a));
                        assert(c is Ok);
                        lemma_arr_writes_split(SpecJson::Null, ks, i + 1, a);
                        let nulls = Seq::new(total, |y: int| SpecJson::Null);
                        let kseq0 = ks.push(w[0].0);
                        assert(kseq0[i] == ks[i]);
                        lemma_put_null_as_array(of, total, kseq0, i, w[0].1);
                        assert(spec_fold_writes(acc, ks, i, w, 0) == spec_fold_writes(
                            SpecJson::Array(nulls),
                            ks,
                            i,
                            w,
                            0,
                        ));
                        assert(nulls.len() == total);
                        assert(nulls[of as int] == SpecJson::Null);
                        lemma_wrap_arr(nulls, of, total, ks, i, w, 0);
                    },
                    SpecJson::Array(es) => {
                        assert(es.len() == total && of < total);
                        assert(spec_put(es[of as int], ks, i + 1, SpecJson::Array(a)) is Ok);
                        lemma_arr_writes_split(es[of as int], ks, i + 1, a);
                        lemma_wrap_arr(es, of, total, ks, i, w, 0);
                    },
                    _ => {},
                }
            },
        }
    }
}

/// One write per entry of a table: the field name, and the entry's value
/// under the fixed scalar mapping.
pub open spec fn spec_table_writes(es: Seq<(Seq<char>, SpecToml)>) -> Seq<(SpecKey, SpecJson)> {
    Seq::new(es.len(), |m: int| (SpecKey::Field(es[m].0), spec_json_of(es[m].1)))
}

/// One write per element of an array: its position key, and the element
/// under the fixed scalar mapping.
pub open spec fn spec_array_writes(es: Seq<SpecToml>) -> Seq<(SpecKey, SpecJson)> {
    Seq::new(
        es.len(),
        |m: int| (SpecKey::Index { of: m as nat, total: es.len() }, spec_json_of(es[m])),
    )
}

/// Writing a well-formed value leaf by leaf equals writing it whole
/// under the fixed scalar mapping.
proof fn lemma_leaves_put(v: SpecToml, ks: Seq<SpecKey>, acc: SpecJson)
    requires
        spec_doc_wf(v),
        spec_put(acc, ks, 0, spec_json_of(v)) is Ok,
    ensures
        spec_fold_leaves(acc, ks, spec_leaves(v), 0) == spec_put(acc, ks, 0, spec_json_of(v)),
    decreases v, 0int,
{
    match v {
        SpecToml::Table(es) => {
            let o = spec_json_of(v)->Object_0;
            assert(spec_json_of(v) == SpecJson::Object(o));
            assert(o.len() == es.len());
            assert forall|m: int| 0 <= m < es.len() implies o[m] == (
                es[m].0,
                spec_json_of(es[m].1),
            ) by {}
            assert forall|a: int, b: int| 0 <= a < b < o.len() implies o[a].0 != o[b].0 by {
                assert(o[a].0 == es[a].0);
                assert(o[b].0 == es[b].0);
            }
            assert(0 <= 0 <= ks.len());
            lemma_obj_writes_split(acc, ks, 0, o);
            assert(spec_field_writes(o) =~= spec_table_writes(es));
            assert(spec_leaves(v) == spec_leaves_table(es, 0));
            lemma_leaves_table_fold(es, 0, ks, acc);
        },
        SpecToml::Array(es) => {
            let a = spec_json_of(v)->Array_0;
            assert(spec_json_of(v) == SpecJson::Array(a));
            assert(a.len() == es.len());
            assert forall|m: int| 0 <= m < es.len() implies a[m] == spec_json_of(es[m]) by {}
            assert(0 <= 0 <= ks.len());
            lemma_arr_writes_split(acc, ks, 0, a);
            assert(spec_elem_writes(a, a.len()) =~= spec_array_writes(es));
            assert(spec_leaves(v) == spec_leaves_array(es, 0, es.len()));
            lemma_leaves_array_fold(es, 0, ks, acc);
        },
        _ => {
            assert(spec_leaves(v) == seq![(Seq::<SpecKey>::empty(), v)]);
            assert(ks + Seq::<SpecKey>::empty() =~= ks);
            assert(spec_leaves(v)[0] == (Seq::<SpecKey>::empty(), v));
            match spec_put(acc, ks, 0, spec_json_of(v)) {
                Ok(a2) => {
                    assert(spec_fold_leaves(acc, ks, spec_leaves(v), 0) == spec_fold_leaves(
                        a2,
                        ks,
                        spec_leaves(v),
                        1,
                    ));
                },
                Err(e) => {},
            }
        },
    }
}

/// Folding the leaves of the table entries of `es` from position `j` on
/// performs the single field writes from position `j` on.
proof fn lemma_leaves_table_fold(
    es: Seq<(Seq<char>, SpecToml)>,
    j: int,
    ks: Seq<SpecKey>,
    acc: SpecJson,
)
    requires
        0 <= j,
        forall|m: int| 0 <= m < es.len() ==> spec_doc_wf(#[trigger] es[m].1),
        spec_fold_writes(acc, ks, 0, spec_table_writes(es), j) is Ok,
    ensures
        spec_fold_leaves(acc, ks, spec_leaves_table(es, j), 0) == spec_fold_writes(
            acc,
            ks,
            0,
            spec_table_writes(es),
            j,
        ),
    decreases es, es.len() - j + 1,
{
    let w = spec_table_writes(es);
    if j >= es.len() {
        assert(spec_leaves_table(es, j) =~= Seq::<(Seq<SpecKey>, SpecToml)>::empty());
    } else {
        let k = SpecKey::Field(es[j].0);
        assert(w[j] == (k, spec_json_of(es[j].1)));
        let stepput = spec_put(acc, ks.push(k), 0, spec_json_of(es[j].1));
        assert(stepput is Ok);
        lemma_leaves_put(es[j].1, ks.push(k), acc);
        assert(spec_leaves_table(es, j) == spec_prefixed(k, spec_leaves(es[j].1))
            + spec_leaves_table(es, j + 1));
        lemma_fold_leaves_concat(
            acc,
            ks,
            spec_prefixed(k, spec_leaves(es[j].1)),
            spec_leaves_table(es, j + 1),
            0,
        );
        lemma_fold_leaves_prefix(acc, ks, k, spec_leaves(es[j].1), 0);
        match stepput {
            Ok(a2) => {
                lemma_leaves_table_fold(es, j + 1, ks, a2);
            },
            Err(e) => {},
        }
    }
}

/// Folding the leaves of the array elements of `es` from position `j` on
/// performs the single element writes from position `j` on.
proof fn lemma_leaves_array_fold(es: Seq<SpecToml>, j: int, ks: Seq<SpecKey>, acc: SpecJson)
    requires
        0 <= j,
        forall|m: int| 0 <= m < es.len() ==> spec_doc_wf(#[trigger] es[m]),
        spec_fold_writes(acc, ks, 0, spec_array_writes(es), j) is Ok,
    ensures
        spec_fold_leaves(acc, ks, spec_leaves_array(es, j, es.len()), 0) == spec_fold_writes(
            acc,
            ks,
            0,
            spec_array_writes(es),
            j,
        ),
    decreases es, es.len() - j + 1,
{
    let w = spec_array_writes(es);
    if j >= es.len() {
        assert(spec_leaves_array(es, j, es.len()) =~= Seq::<(Seq<SpecKey>, SpecToml)>::empty());
    } else {
        let k = SpecKey::Index { of: j as nat, total: es.len() };
        assert(w[j] == (k, spec_json_of(es[j])));
        let stepput = spec_put(acc, ks.push(k), 0, spec_json_of(es[j]));
        assert(stepput is Ok);
        lemma_leaves_put(es[j], ks.push(k), acc);
        assert(spec_leaves_array(es, j, es.len()) == spec_prefixed(k, spec_leaves(es[j]))
            + spec_leaves_array(es, j + 1, es.len()));
        lemma_fold_leaves_concat(
            acc,
            ks,
            spec_prefixed(k, spec_leaves(es[j])),
            spec_leaves_array(es, j + 1, es.len()),
            0,
        );
        lemma_fold_leaves_prefix(acc, ks, k, spec_leaves(es[j]), 0);
        match stepput {
            Ok(a2) => {
                lemma_leaves_array_fold(es, j + 1, ks, a2);
            },
            Err(e) => {},
        }
    }
}

/// Assembling entries whose paths are single-key units writes their
/// leaves in turn.
proof fn lemma_assemble_as_fold(
    entries: Seq<(SpecPath, SpecToml)>,
    l: Seq<(Seq<SpecKey>, SpecToml)>,
    j: int,
    acc: SpecJson,
)
    requires
        0 <= j,
        entries.len() == l.len(),
        forall|m: int| 0 <= m < l.len() ==> #[trigger] entries[m] == (
            spec_as_units(l[m].0),
            l[m].1,
        ),
        forall|m: int| 0 <= m < l.len() ==> #[trigger] l[m].0.len() > 0,
    ensures
        spec_assemble_from(entries, j, acc) == spec_fold_leaves(acc, Seq::empty(), l, j),
    decreases l.len() - j,
{
    if j >= l.len() {
    } else {
        lemma_resolved_as_units(l[j].0);
        assert(spec_resolved(entries[j].0) == l[j].0);
        assert(Seq::<SpecKey>::empty() + l[j].0 =~= l[j].0);
        match spec_put(acc, l[j].0, 0, spec_json_of(l[j].1)) {
            Ok(a2) => {
                lemma_assemble_as_fold(entries, l, j + 1, a2);
            },
            Err(e) => {},
        }
    }
}

/// Law: the identity rule set copies the structure — transforming a
/// well-formed table document under the empty rule set yields exactly
/// the document under the fixed scalar mapping, with no key grouping.
pub proof fn lemma_identity_transform(d: SpecToml)
    requires
        d is Table,
        spec_doc_wf(d),
    ensures
        spec_transform(d, SpecNode::leaf(Edge::Restarted)) == Ok::<SpecJson, Conflict>(
            spec_json_of(d),
        ),
{
    lemma_identity_rules_collect_leaves(d);
    let l = spec_leaves(d);
    let entries = Seq::new(l.len(), |i: int| (spec_as_units(l[i].0), l[i].1));
    assert(spec_match(d, SpecNode::leaf(Edge::Restarted), Seq::empty()) == entries);
    lemma_leaves_nonempty(d);
    assert(spec_put(SpecJson::Null, Seq::empty(), 0, spec_json_of(d)) == spec_merge(
        SpecJson::Null,
        spec_json_of(d),
    ));
    assert(spec_put(SpecJson::Null, Seq::empty(), 0, spec_json_of(d)) == Ok::<SpecJson, Conflict>(
        spec_json_of(d),
    ));
    lemma_leaves_put(d, Seq::empty(), SpecJson::Null);
    lemma_assemble_as_fold(entries, l, 0, SpecJson::Null);
}

/// Law: rule compilation is a function of the rule document's model
/// alone — compiling the same rule document twice yields structurally
/// equal automata.
pub proof fn lemma_collect_deterministic(r1: SpecJson, r2: SpecJson)
    requires
        r1 == r2,
    ensures
        spec_collect(r1, SpecNode::leaf(Edge::Restarted)) == spec_collect(
            r2,
            SpecNode::leaf(Edge::Restarted),
        ),
{
}

/// Law: inserting an identical key path twice reuses the existing node
/// chain — for a rule that ends in a scalar, the second insertion leaves
/// the automaton unchanged, so repeated prefixes never duplicate
/// branches.
pub proof fn lemma_insert_rule_idempotent(
    node: SpecNode,
    segs: Seq<Seq<char>>,
    d: int,
    sub: SpecJson,
)
    requires
        !(sub is Object),
        !(sub is Array),
    ensures
        spec_insert_rule(spec_insert_rule(node, segs, d, sub), segs, d, sub) == spec_insert_rule(
            node,
            segs,
            d,
            sub,
        ),
    decreases (if d >= segs.len() { 1int } else { segs.len() - d + 1 }),
{
    if d < 0 || d >= segs.len() {
        assert(spec_insert_rule(node, segs, d, sub) == spec_collect(sub, node));
        assert(spec_collect(sub, node) == node);
    } else {
        let key = SpecKey::Field(segs[d]);
        let child = match assoc_get(node.nexts, key) {
            Some(c) => c,
            None => SpecNode::leaf(
                if d == 0 {
                    Edge::Restarted
                } else {
                    Edge::Connected
                },
            ),
        };
        let x = spec_insert_rule(child, segs, d + 1, sub);
        let n1 = spec_insert_rule(node, segs, d, sub);
        lemma_assoc_get_set(node.nexts, key, x);
        assert(assoc_get(n1.nexts, key) == Some(x));
        lemma_insert_rule_idempotent(child, segs, d + 1, sub);
        lemma_assoc_set_set(node.nexts, key, x, spec_insert_rule(x, segs, d + 1, sub));
        assert(spec_insert_rule(n1, segs, d, sub) =~= n1);
    }
}

/// `n2` extends `n1`: every transition of `n1` (at its first occurrence)
/// exists in `n2`, leading to an extension of the corresponding child.
pub open spec fn spec_node_le(n1: SpecNode, n2: SpecNode) -> bool
    decreases n1,
{
    forall|m: int|
        0 <= m < n1.nexts.len() && (forall|g: int| 0 <= g < m ==> n1.nexts[g].0 != n1.nexts[m].0)
            ==> (match assoc_get(n2.nexts, (#[trigger] n1.nexts[m]).0) {
            Some(c2) => spec_node_le(n1.nexts[m].1, c2),
            None => false,
        })
}

/// Extension is reflexive.
proof fn lemma_node_le_refl(n: SpecNode)
    ensures
        spec_node_le(n, n),
    decreases n,
{
    assert forall|m: int|
        0 <= m < n.nexts.len() && (forall|g: int|
            0 <= g < m ==> n.nexts[g].0 != n.nexts[m].0) implies (match assoc_get(
        n.nexts,
        (#[trigger] n.nexts[m]).0,
    ) {
        Some(c2) => spec_node_le(n.nexts[m].1, c2),
        None => false,
    }) by {
        lemma_assoc_get_at(n.nexts, n.nexts[m].0, m);
        lemma_node_le_refl(n.nexts[m].1);
    }
}

/// Extension is transitive.
proof fn lemma_node_le_trans(a: SpecNode, b: SpecNode, c: SpecNode)
    requires
        spec_node_le(a, b),
        spec_node_le(b, c),
    ensures
        spec_node_le(a, c),
    decreases a,
{
    assert forall|m: int|
        0 <= m < a.nexts.len() && (forall|g: int|
            0 <= g < m ==> a.nexts[g].0 != a.nexts[m].0) implies (match assoc_get(
        c.nexts,
        (#[trigger] a.nexts[m]).0,
    ) {
        Some(c2) => spec_node_le(a.nexts[m].1, c2),
        None => false,
    }) by {
        let k = a.nexts[m].0;
        let cb = assoc_get(b.nexts, k)->Some_0;
        assert(assoc_get(b.nexts, k) == Some(cb) && spec_node_le(a.nexts[m].1, cb));
        lemma_assoc_get_first(b.nexts, k, cb);
        let mb = choose|mb: int|
            0 <= mb < b.nexts.len() && b.nexts[mb] == (k, cb) && (forall|g: int|
                0 <= g < mb ==> b.nexts[g].0 != k);
        assert(b.nexts[mb].0 == k && b.nexts[mb].1 == cb);
        assert(match assoc_get(c.nexts, b.nexts[mb].0) {
            Some(c2) => spec_node_le(b.nexts[mb].1, c2),
            None => false,
        });
        let cc = assoc_get(c.nexts, k)->Some_0;
        lemma_node_le_trans(a.nexts[m].1, cb, cc);
    }
}

/// A lookup in an extension finds an extension of what the smaller node
/// holds.
proof fn lemma_node_le_lookup(n1: SpecNode, n2: SpecNode, k: SpecKey, c1: SpecNode)
    requires
        spec_node_le(n1, n2),
        assoc_get(n1.nexts, k) == Some(c1),
    ensures
        assoc_get(n2.nexts, k) matches Some(c2) && spec_node_le(c1, c2),
{
    lemma_assoc_get_first(n1.nexts, k, c1);
    let m = choose|m: int|
        0 <= m < n1.nexts.len() && n1.nexts[m] == (k, c1) && (forall|g: int|
            0 <= g < m ==> n1.nexts[g].0 != k);
    assert(n1.nexts[m].0 == k && n1.nexts[m].1 == c1);
    assert(match assoc_get(n2.nexts, n1.nexts[m].0) {
        Some(c2) => spec_node_le(n1.nexts[m].1, c2),
        None => false,
    });
}

/// Replacing one child with an extension of what stood there, or adding
/// a fresh child, extends the node.
proof fn lemma_node_le_set(n: SpecNode, k: SpecKey, c2: SpecNode)
    requires
        match assoc_get(n.nexts, k) {
            Some(c1) => spec_node_le(c1, c2),
            None => true,
        },
    ensures
        spec_node_le(n, SpecNode { edge: n.edge, nexts: assoc_set(n.nexts, k, c2) }),
{
    let n2 = SpecNode { edge: n.edge, nexts: assoc_set(n.nexts, k, c2) };
    lemma_assoc_get_set(n.nexts, k, c2);
    assert forall|m: int|
        0 <= m < n.nexts.len() && (forall|g: int|
            0 <= g < m ==> n.nexts[g].0 != n.nexts[m].0) implies (match assoc_get(
        n2.nexts,
        (#[trigger] n.nexts[m]).0,
    ) {
        Some(cc) => spec_node_le(n.nexts[m].1, cc),
        None => false,
    }) by {
        let km = n.nexts[m].0;
        lemma_assoc_get_at(n.nexts, km, m);
        if km == k {
            assert(assoc_get(n.nexts, k) == Some(n.nexts[m].1));
            assert(assoc_get(n2.nexts, km) == Some(c2));
        } else {
            lemma_assoc_get_set_other(n.nexts, k, c2, km);
            lemma_node_le_refl(n.nexts[m].1);
        }
    }
}

/// Compiling a rule value into a node only extends it.
proof fn lemma_collect_grows(v: SpecJson, node: SpecNode)
    ensures
        spec_node_le(node, spec_collect(v, node)),
    decreases v, 0int,
{
    match v {
        SpecJson::Object(es) => {
            lemma_collect_obj_grows(es, 0, node);
        },
        SpecJson::Array(vs) => {
            lemma_collect_arr_grows(vs, 0, node);
        },
        _ => {
            lemma_node_le_refl(node);
        },
    }
}

/// The object case of `lemma_collect_grows`.
proof fn lemma_collect_obj_grows(es: Seq<(Seq<char>, SpecJson)>, j: int, node: SpecNode)
    ensures
        spec_node_le(node, spec_collect_obj(es, j, node)),
    decreases es, es.len() - j + 1,
{
    if j < 0 || j >= es.len() {
        lemma_node_le_refl(node);
    } else {
        let n1 = spec_insert_rule(node, spec_split_dots(es[j].0), 0, es[j].1);
        lemma_insert_rule_grows(node, spec_split_dots(es[j].0), 0, es[j].1);
        lemma_collect_obj_grows(es, j + 1, n1);
        lemma_node_le_trans(node, n1, spec_collect_obj(es, j + 1, n1));
    }
}

/// The array case of `lemma_collect_grows`.
proof fn lemma_collect_arr_grows(vs: Seq<SpecJson>, j: int, node: SpecNode)
    ensures
        spec_node_le(node, spec_collect_arr(vs, j, node)),
    decreases vs, vs.len() - j + 1,
{
    if j < 0 || j >= vs.len() {
        lemma_node_le_refl(node);
    } else {
        let pseudo = SpecKey::Index { of: 0, total: 0 };
        let child = match assoc_get(node.nexts, pseudo) {
            Some(c) => c,
            None => SpecNode::leaf(Edge::Restarted),
        };
        let child2 = spec_collect(vs[j], child);
        lemma_collect_grows(vs[j], child);
        let n1 = SpecNode { edge: node.edge, nexts: assoc_set(node.nexts, pseudo, child2) };
        lemma_node_le_set(node, pseudo, child2);
        lemma_collect_arr_grows(vs, j + 1, n1);
        lemma_node_le_trans(node, n1, spec_collect_arr(vs, j + 1, n1));
    }
}

/// Inserting a rule path into a node only extends it.
proof fn lemma_insert_rule_grows(node: SpecNode, segs: Seq<Seq<char>>, d: int, sub: SpecJson)
    ensures
        spec_node_le(node, spec_insert_rule(node, segs, d, sub)),
    decreases sub, (if d >= segs.len() { 1int } else { segs.len() - d + 1 }),
{
    if d < 0 || d >= segs.len() {
        lemma_collect_grows(sub, node);
    } else {
        let key = SpecKey::Field(segs[d]);
        let edge = if d == 0 {
            Edge::Restarted
        } else {
            Edge::Connected
        };
        let child = match assoc_get(node.nexts, key) {
            Some(c) => c,
            None => SpecNode::leaf(edge),
        };
        lemma_insert_rule_grows(child, segs, d + 1, sub);
        lemma_node_le_set(node, key, spec_insert_rule(child, segs, d + 1, sub));
    }
}

/// `node` already holds everything that compiling `v` would insert.
pub open spec fn spec_absorbed(v: SpecJson, node: SpecNode) -> bool
    decreases v, 0int,
{
    match v {
        SpecJson::Object(es) => spec_absorbed_obj(es, 0, node),
        SpecJson::Array(vs) => spec_absorbed_arr(vs, 0, node),
        _ => true,
    }
}

/// `node` absorbs the object entries of `es` from position `j` on.
pub open spec fn spec_absorbed_obj(es: Seq<(Seq<char>, SpecJson)>, j: int, node: SpecNode) -> bool
    decreases es, es.len() - j + 1,
{
    if j < 0 || j >= es.len() {
        true
    } else {
        spec_absorbed_path(node, spec_split_dots(es[j].0), 0, es[j].1) && spec_absorbed_obj(
            es,
            j + 1,
            node,
        )
    }
}

/// The chain for `segs[d..]` exists under `node` and its end absorbs
/// `sub`.
pub open spec fn spec_absorbed_path(
    node: SpecNode,
    segs: Seq<Seq<char>>,
    d: int,
    sub: SpecJson,
) -> bool
    decreases sub, (if d >= segs.len() { 1int } else { segs.len() - d + 1 }),
{
    if d < 0 || d >= segs.len() {
        spec_absorbed(sub, node)
    } else {
        match assoc_get(node.nexts, SpecKey::Field(segs[d])) {
            Some(child) => spec_absorbed_path(child, segs, d + 1, sub),
            None => false,
        }
    }
}

/// `node` has a pseudo-index child absorbing the array elements of `vs`
/// from position `j` on.
pub open spec fn spec_absorbed_arr(vs: Seq<SpecJson>, j: int, node: SpecNode) -> bool
    decreases vs, vs.len() - j + 1,
{
    if j < 0 || j >= vs.len() {
        true
    } else {
        match assoc_get(node.nexts, SpecKey::Index { of: 0, total: 0 }) {
            Some(child) => spec_absorbed(vs[j], child) && spec_absorbed_arr(vs, j + 1, node),
            None => false,
        }
    }
}

/// Absorption carries over to any extension.
proof fn lemma_absorbed_mono(v: SpecJson, n1: SpecNode, n2: SpecNode)
    requires
        spec_absorbed(v, n1),
        spec_node_le(n1, n2),
    ensures
        spec_absorbed(v, n2),
    decreases v, 0int,
{
    match v {
        SpecJson::Object(es) => {
            lemma_absorbed_obj_mono(es, 0, n1, n2);
        },
        SpecJson::Array(vs) => {
            lemma_absorbed_arr_mono(vs, 0, n1, n2);
        },
        _ => {},
    }
}

/// The object case of `lemma_absorbed_mono`.
proof fn lemma_absorbed_obj_mono(es: Seq<(Seq<char>, SpecJson)>, j: int, n1: SpecNode, n2: SpecNode)
    requires
        spec_absorbed_obj(es, j, n1),
        spec_node_le(n1, n2),
    ensures
        spec_absorbed_obj(es, j, n2),
    decreases es, es.len() - j + 1,
{
    if j < 0 || j >= es.len() {
    } else {
        lemma_absorbed_path_mono(n1, n2, spec_split_dots(es[j].0), 0, es[j].1);
        lemma_absorbed_obj_mono(es, j + 1, n1, n2);
    }
}

/// The chain case of `lemma_absorbed_mono`.
proof fn lemma_absorbed_path_mono(
    n1: SpecNode,
    n2: SpecNode,
    segs: Seq<Seq<char>>,
    d: int,
    sub: SpecJson,
)
    requires
        spec_absorbed_path(n1, segs, d, sub),
        spec_node_le(n1, n2),
    ensures
        spec_absorbed_path(n2, segs, d, sub),
    decreases sub, (if d >= segs.len() { 1int } else { segs.len() - d + 1 }),
{
    if d < 0 || d >= segs.len() {
        lemma_absorbed_mono(sub, n1, n2);
    } else {
        let k = SpecKey::Field(segs[d]);
        let c1 = assoc_get(n1.nexts, k)->Some_0;
        lemma_node_le_lookup(n1, n2, k, c1);
        let c2 = assoc_get(n2.nexts, k)->Some_0;
        lemma_absorbed_path_mono(c1, c2, segs, d + 1, sub);
    }
}

/// The array case of `lemma_absorbed_mono`.
proof fn lemma_absorbed_arr_mono(vs: Seq<SpecJson>, j: int, n1: SpecNode, n2: SpecNode)
    requires
        spec_absorbed_arr(vs, j, n1),
        spec_node_le(n1, n2),
    ensures
        spec_absorbed_arr(vs, j, n2),
    decreases vs, vs.len() - j + 1,
{
    if j < 0 || j >= vs.len() {
    } else {
        let pseudo = SpecKey::Index { of: 0, total: 0 };
        let c1 = assoc_get(n1.nexts, pseudo)->Some_0;
        lemma_node_le_lookup(n1, n2, pseudo, c1);
        let c2 = assoc_get(n2.nexts, pseudo)->Some_0;
        lemma_absorbed_mono(vs[j], c1, c2);
        lemma_absorbed_arr_mono(vs, j + 1, n1, n2);
    }
}

/// After compiling a rule value into a node, the node absorbs it.
proof fn lemma_collect_absorbs(v: SpecJson, node: SpecNode)
    ensures
        spec_absorbed(v, spec_collect(v, node)),
    decreases v, 0int,
{
    match v {
        SpecJson::Object(es) => {
            lemma_collect_obj_absorbs(es, 0, node);
        },
        SpecJson::Array(vs) => {
            lemma_collect_arr_absorbs(vs, 0, node);
        },
        _ => {},
    }
}

/// The object case of `lemma_collect_absorbs`.
proof fn lemma_collect_obj_absorbs(es: Seq<(Seq<char>, SpecJson)>, j: int, node: SpecNode)
    ensures
        spec_absorbed_obj(es, j, spec_collect_obj(es, j, node)),
    decreases es, es.len() - j + 1,
{
    if j < 0 || j >= es.len() {
    } else {
        let segs = spec_split_dots(es[j].0);
        let n1 = spec_insert_rule(node, segs, 0, es[j].1);
        let fin = spec_collect_obj(es, j + 1, n1);
        lemma_insert_absorbs_path(node, segs, 0, es[j].1);
        lemma_collect_obj_grows(es, j + 1, n1);
        lemma_absorbed_path_mono(n1, fin, segs, 0, es[j].1);
        lemma_collect_obj_absorbs(es, j + 1, n1);
    }
}

/// The chain case of `lemma_collect_absorbs`.
proof fn lemma_insert_absorbs_path(node: SpecNode, segs: Seq<Seq<char>>, d: int, sub: SpecJson)
    ensures
        spec_absorbed_path(spec_insert_rule(node, segs, d, sub), segs, d, sub),
    decreases sub, (if d >= segs.len() { 1int } else { segs.len() - d + 1 }),
{
    if d < 0 || d >= segs.len() {
        lemma_collect_absorbs(sub, node);
    } else {
        let key = SpecKey::Field(segs[d]);
        let edge = if d == 0 {
            Edge::Restarted
        } else {
            Edge::Connected
        };
        let child = match assoc_get(node.nexts, key) {
            Some(c) => c,
            None => SpecNode::leaf(edge),
        };
        let child2 = spec_insert_rule(child, segs, d + 1, sub);
        lemma_insert_absorbs_path(child, segs, d + 1, sub);
        lemma_assoc_get_set(node.nexts, key, child2);
    }
}

/// The array case of `lemma_collect_absorbs`.
proof fn lemma_collect_arr_absorbs(vs: Seq<SpecJson>, j: int, node: SpecNode)
    ensures
        spec_absorbed_arr(vs, j, spec_collect_arr(vs, j, node)),
    decreases vs, vs.len() - j + 1,
{
    if j < 0 || j >= vs.len() {
    } else {
        let pseudo = SpecKey::Index { of: 0, total: 0 };
        let child = match assoc_get(node.nexts, pseudo) {
            Some(c) => c,
            None => SpecNode::leaf(Edge::Restarted),
        };
        let child2 = spec_collect(vs[j], child);
        let n1 = SpecNode { edge: node.edge, nexts: assoc_set(node.nexts, pseudo, child2) };
        let fin = spec_collect_arr(vs, j + 1, n1);
        lemma_collect_absorbs(vs[j], child);
        lemma_assoc_get_set(node.nexts, pseudo, child2);
        lemma_collect_arr_grows(vs, j + 1, n1);
        lemma_node_le_lookup(n1, fin, pseudo, child2);
        let cf = assoc_get(fin.nexts, pseudo)->Some_0;
        lemma_absorbed_mono(vs[j], child2, cf);
        lemma_collect_arr_absorbs(vs, j + 1, n1);
    }
}

/// Compiling a rule value a node already absorbs leaves it unchanged.
proof fn lemma_absorbed_collect_id(v: SpecJson, node: SpecNode)
    requires
        spec_absorbed(v, node),
    ensures
        spec_collect(v, node) == node,
    decreases v, 0int,
{
    match v {
        SpecJson::Object(es) => {
            lemma_absorbed_obj_collect_id(es, 0, node);
        },
        SpecJson::Array(vs) => {
            lemma_absorbed_arr_collect_id(vs, 0, node);
        },
        _ => {},
    }
}

/// The object case of `lemma_absorbed_collect_id`.
proof fn lemma_absorbed_obj_collect_id(es: Seq<(Seq<char>, SpecJson)>, j: int, node: SpecNode)
    requires
        spec_absorbed_obj(es, j, node),
    ensures
        spec_collect_obj(es, j, node) == node,
    decreases es, es.len() - j + 1,
{
    if j < 0 || j >= es.len() {
    } else {
        lemma_absorbed_path_insert_id(node, spec_split_dots(es[j].0), 0, es[j].1);
        lemma_absorbed_obj_collect_id(es, j + 1, node);
    }
}

/// The chain case of `lemma_absorbed_collect_id`.
proof fn lemma_absorbed_path_insert_id(
    node: SpecNode,
    segs: Seq<Seq<char>>,
    d: int,
    sub: SpecJson,
)
    requires
        spec_absorbed_path(node, segs, d, sub),
    ensures
        spec_insert_rule(node, segs, d, sub) == node,
    decreases sub, (if d >= segs.len() { 1int } else { segs.len() - d + 1 }),
{
    if d < 0 || d >= segs.len() {
        lemma_absorbed_collect_id(sub, node);
    } else {
        let key = SpecKey::Field(segs[d]);
        let child = assoc_get(node.nexts, key)->Some_0;
        lemma_absorbed_path_insert_id(child, segs, d + 1, sub);
        lemma_assoc_set_same(node.nexts, key, child);
        assert(spec_insert_rule(node, segs, d, sub) =~= node);
    }
}

/// The array case of `lemma_absorbed_collect_id`.
proof fn lemma_absorbed_arr_collect_id(vs: Seq<SpecJson>, j: int, node: SpecNode)
    requires
        spec_absorbed_arr(vs, j, node),
    ensures
        spec_collect_arr(vs, j, node) == node,
    decreases vs, vs.len() - j + 1,
{
    if j < 0 || j >= vs.len() {
    } else {
        let pseudo = SpecKey::Index { of: 0, total: 0 };
        let child = assoc_get(node.nexts, pseudo)->Some_0;
        lemma_absorbed_collect_id(vs[j], child);
        lemma_assoc_set_same(node.nexts, pseudo, child);
        let n1 = SpecNode {
            edge: node.edge,
            nexts: assoc_set(node.nexts, pseudo, spec_collect(vs[j], child)),
        };
        assert(n1 =~= node);
        lemma_absorbed_arr_collect_id(vs, j + 1, node);
    }
}

/// Law: compiling a rule document a second time onto its own automaton
/// changes nothing — every path the document describes is already
/// there, so no branch is ever duplicated.
pub proof fn lemma_collect_idempotent(r: SpecJson, node: SpecNode)
    ensures
        spec_collect(r, spec_collect(r, node)) == spec_collect(r, node),
{
    lemma_collect_absorbs(r, node);
    lemma_absorbed_collect_id(r, spec_collect(r, node));
}

} // verus!
