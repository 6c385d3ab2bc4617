//! The key/edge vocabulary and the rule automaton.
//!
//! A [`Key`] names one step into a document: a field, or an array position
//! together with the array's length.  `Index { of: 0, total: 0 }` is the
//! reserved pseudo-index, the wildcard that a rule uses to govern every
//! element of a matching source array.  An [`Edge`] says how a key attaches
//! to the unit before it on an output path.  [`Node`]s form the trie that a
//! compiled rule document becomes; [`Rules`] owns its root.

use vstd::prelude::*;
use vstd::string::StringExecFns;
use crate::assoc::assoc_get;
use crate::assoc::assoc_set;
use crate::assoc::lemma_assoc_get_at;
use crate::assoc::lemma_assoc_get_none;
use crate::assoc::lemma_assoc_set_at;
use crate::assoc::lemma_assoc_set_none;
use crate::path::Path;
use crate::path::SpecPath;
use crate::path::spec_linked;
use crate::path::spec_paths_view;
use crate::text::decimal_string;
use crate::text::spec_decimal;

verus! {

broadcast use vstd::std_specs::vec::group_vec_axioms, vstd::seq::group_seq_axioms;

/// How a key attaches to the output path: `Connected` fuses it onto the
/// previous unit, `Restarted` begins a new unit.
#[derive(Clone, Copy, Debug, PartialEq, Eq, Structural)]
pub enum Edge {
    Connected,
    Restarted,
}

impl Default for Edge {
    /// The root edge and the fallback edge are both `Restarted`.
    fn default() -> (r: Self)
        ensures
            r == Edge::Restarted,
    {
        Edge::Restarted
    }
}

/// One step into a document: a named field, or an array position `of` in
/// an array of length `total`.
#[derive(Debug, PartialEq, Eq)]
pub enum Key {
    Field(String),
    Index { of: usize, total: usize },
}

/// Mathematical model of a [`Key`].
#[verifier::ext_equal]
pub enum SpecKey {
    Field(Seq<char>),
    Index { of: nat, total: nat },
}

impl View for Key {
    type V = SpecKey;

    open spec fn view(&self) -> SpecKey {
        match self {
            Key::Field(s) => SpecKey::Field(s@),
            Key::Index { of, total } => SpecKey::Index { of: *of as nat, total: *total as nat },
        }
    }
}

/// The text a key contributes to a fused unit name: a field's own name, or
/// the decimal rendering of an array position.
pub open spec fn spec_key_text(k: SpecKey) -> Seq<char> {
    match k {
        SpecKey::Field(s) => s,
        SpecKey::Index { of, .. } => spec_decimal(of),
    }
}

impl Key {
    /// A field key named `name`.
    pub fn field(name: &str) -> (k: Key)
        ensures
            k@ == SpecKey::Field(name@),
    {
        Key::Field(name.to_owned())
    }

    /// The key of position `of` in an array of length `total`.
    pub fn index(of: usize, total: usize) -> (k: Key)
        ensures
            k@ == (SpecKey::Index { of: of as nat, total: total as nat }),
    {
        Key::Index { of, total }
    }

    /// The wildcard key matching any concrete array position.
    pub fn pseudo_index() -> (k: Key)
        ensures
            k@ == (SpecKey::Index { of: 0, total: 0 }),
    {
        Key::index(0, 0)
    }

    /// Structural equality of two keys.
    pub fn eq_key(&self, other: &Key) -> (r: bool)
        ensures
            r == (self@ == other@),
    {
        match (self, other) {
            (Key::Field(a), Key::Field(b)) => *a == *b,
            (Key::Index { of: a, total: b }, Key::Index { of: c, total: d }) => *a == *c && *b
                == *d,
            _ => false,
        }
    }

    /// An owned copy of this key.
    pub fn deep_clone(&self) -> (r: Key)
        ensures
            r@ == self@,
    {
        match self {
            Key::Field(s) => Key::Field(s.clone()),
            Key::Index { of, total } => Key::Index { of: *of, total: *total },
        }
    }

    /// The text this key contributes to a fused unit name.
    pub fn text(&self) -> (r: String)
        ensures
            r@ == spec_key_text(self@),
    {
        match self {
            Key::Field(s) => s.clone(),
            Key::Index { of, .. } => decimal_string(*of),
        }
    }
}

/// A node of the rule automaton: the edge it was reached by, and its
/// outgoing transitions, keyed uniquely.
#[derive(Debug)]
pub struct Node {
    /// How this node's key attaches to the path when the node is entered.
    pub edge: Edge,
    nexts: Vec<(Key, Node)>,
}

/// Mathematical model of a [`Node`].
#[verifier::ext_equal]
pub struct SpecNode {
    pub edge: Edge,
    pub nexts: Seq<(SpecKey, SpecNode)>,
}

impl SpecNode {
    /// A node without transitions.
    pub open spec fn leaf(edge: Edge) -> SpecNode {
        SpecNode { edge, nexts: Seq::empty() }
    }
}

/// The model of `n`: its edge, and its transitions' models in order.
pub closed spec fn spec_node_view(n: &Node) -> SpecNode
    decreases n,
{
    SpecNode {
        edge: n.edge,
        nexts: Seq::new(
            n.nexts@.len(),
            // the out-of-range branch is never taken; it serves the
            // termination check only
            |i: int|
                if 0 <= i < n.nexts@.len() {
                    (n.nexts@[i].0@, spec_node_view(&n.nexts@[i].1))
                } else {
                    (SpecKey::Index { of: 0, total: 0 }, SpecNode::leaf(Edge::Restarted))
                },
        ),
    }
}

impl View for Node {
    type V = SpecNode;

    closed spec fn view(&self) -> SpecNode {
        spec_node_view(self)
    }
}

impl Node {
    /// A fresh leaf node reached by `edge`.
    pub fn link(edge: Edge) -> (r: Node)
        ensures
            r@ == SpecNode::leaf(edge),
    {
        let r = Node { edge, nexts: Vec::new() };
        proof {
            assert(r@.nexts =~= Seq::<(SpecKey, SpecNode)>::empty());
            assert(r@ =~= SpecNode::leaf(edge));
        }
        r
    }

    /// How this node's key attaches to the path when the node is entered.
    pub fn edge(&self) -> (r: Edge)
        ensures
            r == self@.edge,
    {
        self.edge
    }

    /// Whether this node ends a rule: no outgoing transitions.
    pub fn is_leaf(&self) -> (r: bool)
        ensures
            r == (self@.nexts.len() == 0),
    {
        self.nexts.len() == 0
    }

    /// The transition for `key`, if any.
    pub fn get(&self, key: &Key) -> (r: Option<&Node>)
        ensures
            match r {
                Some(n) => assoc_get(self@.nexts, key@) == Some(n@),
                None => assoc_get(self@.nexts, key@) is None,
            },
    {
        let n = self.nexts.len();
        let mut i: usize = 0;
        while i < n
            invariant
                i <= n,
                n == self.nexts@.len(),
                forall|j: int| 0 <= j < i ==> self@.nexts[j].0 != key@,
            decreases n - i,
        {
            if self.nexts[i].0.eq_key(key) {
                proof {
                    lemma_assoc_get_at(self@.nexts, key@, i as int);
                }
                return Some(&self.nexts[i].1);
            }
            i = i + 1;
        }
        proof {
            lemma_assoc_get_none(self@.nexts, key@);
        }
        None
    }

    /// Whether this node has a transition for `key`.
    pub fn contains_key(&self, key: &Key) -> (r: bool)
        ensures
            r == (assoc_get(self@.nexts, key@) is Some),
    {
        self.get(key).is_some()
    }

    /// Hangs `child` under `key`, replacing in place the transition that
    /// carried `key` before, if any, and returning its node.
    pub fn put_child(&mut self, key: Key, child: Node) -> (r: Option<Node>)
        ensures
            final(self)@.edge == old(self)@.edge,
            final(self)@.nexts == assoc_set(old(self)@.nexts, key@, child@),
            match r {
                Some(n) => assoc_get(old(self)@.nexts, key@) == Some(n@),
                None => assoc_get(old(self)@.nexts, key@) is None,
            },
    {
        let n = self.nexts.len();
        let mut i: usize = 0;
        while i < n
            invariant
                i <= n,
                *self == *old(self),
                n == self.nexts@.len(),
                forall|j: int| 0 <= j < i ==> self@.nexts[j].0 != key@,
            decreases n - i,
        {
            if self.nexts[i].0.eq_key(&key) {
                proof {
                    lemma_assoc_get_at(self@.nexts, key@, i as int);
                    lemma_assoc_set_at(self@.nexts, key@, child@, i as int);
                }
                let ghost before = self@.nexts;
                let ghost k = key@;
                let ghost c = child@;
                let old_pair = self.nexts.remove(i);
                self.nexts.insert(i, (key, child));
                proof {
                    assert(self@.nexts =~= before.update(i as int, (k, c)));
                }
                return Some(old_pair.1);
            }
            i = i + 1;
        }
        proof {
            lemma_assoc_get_none(self@.nexts, key@);
            lemma_assoc_set_none(self@.nexts, key@, child@);
        }
        let ghost before = self@.nexts;
        let ghost k = key@;
        let ghost c = child@;
        self.nexts.push((key, child));
        proof {
            assert(self@.nexts =~= before.push((k, c)));
        }
        None
    }

    /// Opens a fresh transition: hangs a new leaf reached by `edge` under
    /// `key`, returning the replaced node, if any.
    pub fn insert(&mut self, edge: Edge, key: Key) -> (r: Option<Node>)
        ensures
            final(self)@.edge == old(self)@.edge,
            final(self)@.nexts == assoc_set(old(self)@.nexts, key@, SpecNode::leaf(edge)),
            match r {
                Some(n) => assoc_get(old(self)@.nexts, key@) == Some(n@),
                None => assoc_get(old(self)@.nexts, key@) is None,
            },
    {
        self.put_child(key, Node::link(edge))
    }

    /// An owned copy of this node and everything under it.
    pub fn deep_clone(&self) -> (r: Node)
        ensures
            r@ == self@,
        decreases self,
    {
        let n = self.nexts.len();
        let mut nexts: Vec<(Key, Node)> = Vec::new();
        let mut i: usize = 0;
        while i < n
            invariant
                i <= n,
                n == self.nexts@.len(),
                nexts@.len() == i,
                forall|j: int| 0 <= j < i ==> #[trigger] nexts@[j].0@ == self@.nexts[j].0
                    && nexts@[j].1@ == self@.nexts[j].1,
            decreases n - i,
        {
            let key = self.nexts[i].0.deep_clone();
            let child = self.nexts[i].1.deep_clone();
            nexts.push((key, child));
            i = i + 1;
        }
        let r = Node { edge: self.edge, nexts };
        proof {
            assert(r@.nexts =~= self@.nexts);
        }
        r
    }
}

/// The paths that terminate at the leaves under `n`, each reached from
/// `p` by linking the keys along the way.
pub open spec fn spec_rule_paths(n: SpecNode, p: SpecPath) -> Seq<SpecPath>
    decreases n, 0int,
{
    if n.nexts.len() == 0 {
        seq![p]
    } else {
        spec_rule_paths_from(n.nexts, 0, p)
    }
}

/// The rule paths of the transitions of `children` from position `j` on.
pub open spec fn spec_rule_paths_from(
    children: Seq<(SpecKey, SpecNode)>,
    j: int,
    p: SpecPath,
) -> Seq<SpecPath>
    decreases children, children.len() - j + 1,
{
    if j < 0 || j >= children.len() {
        Seq::empty()
    } else {
        spec_rule_paths(children[j].1, spec_linked(p, children[j].1.edge, children[j].0))
            + spec_rule_paths_from(children, j + 1, p)
    }
}

/// Collects, under `out`, one path per leaf under `node`, each reached
/// from `path`.
fn collect_paths(node: &Node, path: &Path, out: &mut Vec<Path>)
    ensures
        spec_paths_view(final(out)@) == spec_paths_view(old(out)@) + spec_rule_paths(
            node@,
            path@,
        ),
    decreases node,
{
    if node.is_leaf() {
        out.push(path.deep_clone());
        proof {
            assert(spec_paths_view(out@) =~= spec_paths_view(old(out)@) + spec_rule_paths(
                node@,
                path@,
            ));
        }
        return;
    }
    let n = node.nexts.len();
    let mut i: usize = 0;
    while i < n
        invariant
            i <= n,
            n == node.nexts@.len(),
            spec_paths_view(out@) + spec_rule_paths_from(node@.nexts, i as int, path@)
                =~= spec_paths_view(old(out)@) + spec_rule_paths(node@, path@),
        decreases n - i,
    {
        let child_key = node.nexts[i].0.deep_clone();
        let child = &node.nexts[i].1;
        let mut p2 = path.deep_clone();
        p2.link(child.edge, child_key);
        let ghost mid = out@;
        collect_paths(child, &p2, out);
        proof {
            assert(spec_rule_paths_from(node@.nexts, i as int, path@) == spec_rule_paths(
                node@.nexts[i as int].1,
                spec_linked(path@, node@.nexts[i as int].1.edge, node@.nexts[i as int].0),
            ) + spec_rule_paths_from(node@.nexts, i as int + 1, path@));
            assert(spec_paths_view(out@) =~= spec_paths_view(mid) + spec_rule_paths(
                child@,
                p2@,
            ));
            assert(spec_paths_view(out@) + spec_rule_paths_from(node@.nexts, i as int + 1, path@)
                =~= spec_paths_view(old(out)@) + spec_rule_paths(node@, path@));
        }
        i = i + 1;
    }
}

/// A compiled rule set: the root of the automaton.
#[derive(Debug)]
pub struct Rules {
    root: Node,
}

impl View for Rules {
    type V = SpecNode;

    closed spec fn view(&self) -> SpecNode {
        self.root@
    }
}

impl Default for Rules {
    /// An empty rule set: a bare root.
    fn default() -> (r: Self)
        ensures
            r@ == SpecNode::leaf(Edge::Restarted),
    {
        Rules { root: Node::link(Edge::Restarted) }
    }
}

impl Rules {
    /// An empty rule set: a bare root.
    pub fn new() -> (r: Self)
        ensures
            r@ == SpecNode::leaf(Edge::Restarted),
    {
        Rules::default()
    }

    /// The rule set whose automaton is `root`.
    pub fn from_root(root: Node) -> (r: Self)
        ensures
            r@ == root@,
    {
        Rules { root }
    }

    /// The automaton root.
    pub fn root(&self) -> (r: &Node)
        ensures
            r@ == self@,
    {
        &self.root
    }

    /// One path per compiled rule: the paths that terminate at the leaves
    /// of the automaton.
    pub fn paths(&self) -> (r: Vec<Path>)
        ensures
            spec_paths_view(r@) == spec_rule_paths(self@, Seq::empty()),
    {
        let mut out: Vec<Path> = Vec::new();
        let path = Path::empty();
        collect_paths(&self.root, &path, &mut out);
        proof {
            assert(spec_paths_view(Seq::<Path>::empty()) =~= Seq::<SpecPath>::empty());
            assert(spec_paths_view(out@) =~= spec_rule_paths(self@, Seq::empty()));
        }
        out
    }
}

} // verus!
