//! The rule compiler: walks a rule document and inserts compacted paths
//! into the automaton.
//!
//! An object key is split on `'.'`; the first piece attaches by a
//! `Restarted` edge, every later piece by a `Connected` edge, so that the
//! pieces are re-fused into one output key at resolution.  A nested object
//! compiles under the node its split key reaches.  An array compiles all
//! its elements under one pseudo-index child.  A scalar ends the rule.
//! Inserting a path that already exists reuses the node chain.

use vstd::prelude::*;
use crate::assoc::assoc_get;
use crate::assoc::assoc_set;
use crate::rule::Edge;
use crate::rule::Key;
use crate::rule::Node;
use crate::rule::Rules;
use crate::rule::SpecKey;
use crate::rule::SpecNode;
use crate::text::spec_split_dots;
use crate::text::split_dots;
use crate::value::Json;
use crate::value::SpecJson;

verus! {

broadcast use vstd::std_specs::vec::group_vec_axioms, vstd::seq::group_seq_axioms;

/// The automaton that compiling rule value `v` into `node` yields.
pub open spec fn spec_collect(v: SpecJson, node: SpecNode) -> SpecNode
    decreases v, 0int,
{
    match v {
        SpecJson::Object(es) => spec_collect_obj(es, 0, node),
        SpecJson::Array(vs) => spec_collect_arr(vs, 0, node),
        _ => node,
    }
}

/// Compiling the object entries of `es` from position `j` on into `node`,
/// in order.
pub open spec fn spec_collect_obj(
    es: Seq<(Seq<char>, SpecJson)>,
    j: int,
    node: SpecNode,
) -> SpecNode
    decreases es, es.len() - j + 1,
{
    if j < 0 || j >= es.len() {
        node
    } else {
        spec_collect_obj(
            es,
            j + 1,
            spec_insert_rule(node, spec_split_dots(es[j].0), 0, es[j].1),
        )
    }
}

/// Compiling the array elements of `vs` from position `j` on into `node`:
/// every element compiles under the same pseudo-index child.
pub open spec fn spec_collect_arr(vs: Seq<SpecJson>, j: int, node: SpecNode) -> SpecNode
    decreases vs, vs.len() - j + 1,
{
    if j < 0 || j >= vs.len() {
        node
    } else {
        let pseudo = SpecKey::Index { of: 0, total: 0 };
        let child = match assoc_get(node.nexts, pseudo) {
            Some(c) => c,
            None => SpecNode::leaf(Edge::Restarted),
        };
        spec_collect_arr(
            vs,
            j + 1,
            SpecNode { edge: node.edge, nexts: assoc_set(node.nexts, pseudo, spec_collect(vs[j], child)) },
        )
    }
}

/// Inserting the split key pieces `segs[d..]` under `node`, then
/// compiling the rule value `sub` at the reached node.  An existing
/// transition is reused with its edge unchanged; a fresh one carries
/// `Restarted` for the first piece and `Connected` for the rest.
pub open spec fn spec_insert_rule(
    node: SpecNode,
    segs: Seq<Seq<char>>,
    d: int,
    sub: SpecJson,
) -> SpecNode
    decreases sub, (if d >= segs.len() { 1int } else { segs.len() - d + 1 }),
{
    if d < 0 || d >= segs.len() {
        spec_collect(sub, node)
    } else {
        let key = SpecKey::Field(segs[d]);
        let edge = if d == 0 {
            Edge::Restarted
        } else {
            Edge::Connected
        };
        let child = match assoc_get(node.nexts, key) {
            Some(c) => c,
            None => SpecNode::leaf(edge),
        };
        SpecNode {
            edge: node.edge,
            nexts: assoc_set(node.nexts, key, spec_insert_rule(child, segs, d + 1, sub)),
        }
    }
}

/// Compiles rule value `v` into `node`.
fn collect_dfs(v: &Json, node: Node) -> (r: Node)
    ensures
        r@ == spec_collect(v@, node@),
    decreases v, 0int,
{
    match v {
        Json::Object(es) => {
            let ghost eseq = v@->Object_0;
            let ghost init = node@;
            let n = es.len();
            let mut node = node;
            let mut j: usize = 0;
            proof {
                assert(eseq.len() == n);
            }
            while j < n
                invariant
                    j <= n,
                    n == es@.len(),
                    eseq.len() == n,
                    spec_collect_obj(eseq, j as int, node@) == spec_collect_obj(eseq, 0, init),
                decreases n - j,
            {
                proof {
                    assert(eseq[j as int] == (es@[j as int].0@, es@[j as int].1@));
                }
                let ghost before = node@;
                let segs = split_dots(es[j].0.as_str());
                node = insert_rule(node, &segs, 0, &es[j].1);
                proof {
                    assert(node@ == spec_insert_rule(
                        before,
                        spec_split_dots(eseq[j as int].0),
                        0,
                        eseq[j as int].1,
                    ));
                }
                j = j + 1;
            }
            node
        },
        Json::Array(vs) => {
            let ghost aseq = v@->Array_0;
            let ghost init = node@;
            let n = vs.len();
            let mut node = node;
            let mut j: usize = 0;
            proof {
                assert(aseq.len() == n);
            }
            while j < n
                invariant
                    j <= n,
                    n == vs@.len(),
                    aseq.len() == n,
                    spec_collect_arr(aseq, j as int, node@) == spec_collect_arr(aseq, 0, init),
                decreases n - j,
            {
                proof {
                    assert(aseq[j as int] == vs@[j as int]@);
                }
                let ghost before = node@;
                let pseudo = Key::pseudo_index();
                let existing = match node.get(&pseudo) {
                    Some(c) => Some(c.deep_clone()),
                    None => None,
                };
                let child = match existing {
                    Some(c) => c,
                    None => Node::link(Edge::Restarted),
                };
                let child2 = collect_dfs(&vs[j], child);
                node.put_child(Key::pseudo_index(), child2);
                proof {
                    assert(node@ =~= (SpecNode {
                        edge: before.edge,
                        nexts: assoc_set(
                            before.nexts,
                            SpecKey::Index { of: 0, total: 0 },
                            spec_collect(
                                aseq[j as int],
                                match assoc_get(before.nexts, SpecKey::Index { of: 0, total: 0 }) {
                                    Some(c) => c,
                                    None => SpecNode::leaf(Edge::Restarted),
                                },
                            ),
                        ),
                    }));
                }
                j = j + 1;
            }
            node
        },
        _ => node,
    }
}

/// Inserts the split key pieces `segs[d..]` under `node`, then compiles
/// the rule value `sub` at the reached node.
fn insert_rule(node: Node, segs: &Vec<String>, d: usize, sub: &Json) -> (r: Node)
    ensures
        r@ == spec_insert_rule(node@, segs.deep_view(), d as int, sub@),
    decreases sub, (if d >= segs@.len() { 1int } else { segs@.len() - d + 1 }),
{
    if d >= segs.len() {
        return collect_dfs(sub, node);
    }
    proof {
        assert(segs.deep_view()[d as int] == segs@[d as int]@);
    }
    let key = Key::field(segs[d].as_str());
    let edge = if d == 0 {
        Edge::Restarted
    } else {
        Edge::Connected
    };
    let existing = match node.get(&key) {
        Some(c) => Some(c.deep_clone()),
        None => None,
    };
    let child = match existing {
        Some(c) => c,
        None => Node::link(edge),
    };
    let child2 = insert_rule(child, segs, d + 1, sub);
    let ghost before = node@;
    let ghost c2 = child2@;
    let ghost kv = key@;
    let mut node = node;
    node.put_child(key, child2);
    proof {
        assert(node@ =~= (SpecNode { edge: before.edge, nexts: assoc_set(before.nexts, kv, c2) }));
    }
    node
}

/// Compiles a rule document into its automaton: the returned rule set's
/// trie is the rule value compiled into a bare `Restarted` root.
pub fn collect_rules(json_value: &Json) -> (r: Rules)
    ensures
        r@ == spec_collect(json_value@, SpecNode::leaf(Edge::Restarted)),
{
    let root = collect_dfs(json_value, Node::link(Edge::Restarted));
    Rules::from_root(root)
}

} // verus!
