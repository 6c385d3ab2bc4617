//! Output paths: ordered sequences of units.
//!
//! A unit is a run of keys fused by `Connected` edges; it is rendered as a
//! single dot-joined output key.  Paths are built up and torn down during
//! traversal and resolved to plain key lists when a leaf is recorded.
//! A well-formed path has no empty unit.

use vstd::prelude::*;
use vstd::string::StringExecFns;
use crate::rule::Edge;
use crate::rule::Key;
use crate::rule::SpecKey;
use crate::rule::spec_key_text;

verus! {

broadcast use vstd::std_specs::vec::group_vec_axioms, vstd::seq::group_seq_axioms;

/// The model of a path: its units' key models, in order.
pub type SpecPath = Seq<Seq<SpecKey>>;

/// The models of a sequence of keys.
pub open spec fn spec_keys_view(s: Seq<Key>) -> Seq<SpecKey> {
    Seq::new(s.len(), |j: int| s[j]@)
}

/// A path is well formed when no unit is empty.
pub open spec fn spec_path_wf(p: SpecPath) -> bool {
    forall|i: int| 0 <= i < p.len() ==> p[i].len() > 0
}

/// `k` appended into the last unit of `p`, opening a unit if none exists.
pub open spec fn spec_adhered(p: SpecPath, k: SpecKey) -> SpecPath {
    if p.len() == 0 {
        p.push(seq![k])
    } else {
        p.update(p.len() - 1, p.last().push(k))
    }
}

/// `k` attached to `p` along `edge`: fused into the last unit by
/// `Connected`, opening a fresh unit by `Restarted`.
pub open spec fn spec_linked(p: SpecPath, edge: Edge, k: SpecKey) -> SpecPath {
    match edge {
        Edge::Connected => spec_adhered(p, k),
        Edge::Restarted => p.push(seq![k]),
    }
}

/// The dot-joined text of a unit's keys.
pub open spec fn spec_unit_text(unit: Seq<SpecKey>) -> Seq<char>
    decreases unit.len(),
{
    if unit.len() == 0 {
        Seq::empty()
    } else if unit.len() == 1 {
        spec_key_text(unit[0])
    } else {
        spec_unit_text(unit.drop_last()) + seq!['.'] + spec_key_text(unit.last())
    }
}

/// The single output key a unit resolves to: a unit of one key keeps it
/// unchanged, a longer unit becomes one field named by its joined texts.
pub open spec fn spec_resolved_unit(unit: Seq<SpecKey>) -> SpecKey {
    if unit.len() == 1 {
        unit[0]
    } else {
        SpecKey::Field(spec_unit_text(unit))
    }
}

/// Each unit of `p` resolved to its single output key.
pub open spec fn spec_resolved(p: SpecPath) -> Seq<SpecKey> {
    Seq::new(p.len(), |i: int| spec_resolved_unit(p[i]))
}

/// `p` with every unit already resolved: one key per unit, pending
/// `Connected` grouping discarded.
pub open spec fn spec_flattened(p: SpecPath) -> SpecPath {
    Seq::new(p.len(), |i: int| seq![spec_resolved_unit(p[i])])
}

/// All keys of all units of `p`, in order.
pub open spec fn spec_all_keys(p: SpecPath) -> Seq<SpecKey>
    decreases p.len(),
{
    if p.len() == 0 {
        Seq::empty()
    } else {
        spec_all_keys(p.drop_last()) + p.last()
    }
}

/// The models of a sequence of paths.
pub open spec fn spec_paths_view(s: Seq<Path>) -> Seq<SpecPath> {
    Seq::new(s.len(), |i: int| s[i]@)
}

/// An output path under construction: an ordered sequence of units, each a
/// run of keys fused by `Connected` edges.
#[derive(Debug)]
pub struct Path {
    units: Vec<Vec<Key>>,
}

impl View for Path {
    type V = SpecPath;

    closed spec fn view(&self) -> SpecPath {
        Seq::new(self.units@.len(), |i: int| spec_keys_view(self.units@[i]@))
    }
}

impl Default for Path {
    /// The empty path.
    fn default() -> (r: Self)
        ensures
            r@ == Seq::<Seq<SpecKey>>::empty(),
            spec_path_wf(r@),
    {
        let r = Path { units: Vec::new() };
        proof {
            assert(r@ =~= Seq::<Seq<SpecKey>>::empty());
        }
        r
    }
}

/// The dot-joined text of a unit.
fn unit_text(unit: &Vec<Key>) -> (r: String)
    ensures
        r@ == spec_unit_text(spec_keys_view(unit@)),
{
    let ghost u = spec_keys_view(unit@);
    let n = unit.len();
    if n == 0 {
        let r = String::new();
        proof {
            assert(u.len() == 0);
        }
        return r;
    }
    let mut s = unit[0].text();
    let mut j: usize = 1;
    proof {
        assert(u.take(1).len() == 1);
        assert(u.take(1)[0] == u[0]);
    }
    while j < n
        invariant
            1 <= j <= n,
            n == unit@.len(),
            u == spec_keys_view(unit@),
            s@ == spec_unit_text(u.take(j as int)),
        decreases n - j,
    {
        s.append(".");
        s.append(unit[j].text().as_str());
        proof {
            reveal_strlit(".");
            let t = u.take(j as int + 1);
            assert(t.drop_last() =~= u.take(j as int));
            assert(t.last() == u[j as int]);
            assert(s@ == spec_unit_text(t));
        }
        j = j + 1;
    }
    proof {
        assert(u.take(n as int) =~= u);
    }
    s
}

/// The single output key a unit resolves to.
fn resolved_unit(unit: &Vec<Key>) -> (r: Key)
    ensures
        r@ == spec_resolved_unit(spec_keys_view(unit@)),
{
    if unit.len() == 1 {
        unit[0].deep_clone()
    } else {
        Key::Field(unit_text(unit))
    }
}

impl Path {
    /// The empty path.
    pub fn empty() -> (r: Self)
        ensures
            r@ == Seq::<Seq<SpecKey>>::empty(),
            spec_path_wf(r@),
    {
        Path::default()
    }

    /// The path made of the given units, which must all be nonempty.
    pub fn from(units: Vec<Vec<Key>>) -> (r: Self)
        requires
            forall|i: int| 0 <= i < units@.len() ==> units@[i]@.len() > 0,
        ensures
            r@.len() == units@.len(),
            forall|i: int| 0 <= i < units@.len() ==> r@[i] == spec_keys_view(
                #[trigger] units@[i]@,
            ),
            spec_path_wf(r@),
    {
        Path { units }
    }

    /// The number of units.
    pub fn len(&self) -> (r: usize)
        ensures
            r == self@.len(),
    {
        self.units.len()
    }

    /// Whether the path has no unit.
    pub fn is_empty(&self) -> (r: bool)
        ensures
            r == (self@.len() == 0),
    {
        self.units.len() == 0
    }

    /// Removes every unit.
    pub fn clear(&mut self)
        ensures
            final(self)@ == Seq::<Seq<SpecKey>>::empty(),
    {
        self.units.clear();
        proof {
            assert(self@ =~= Seq::<Seq<SpecKey>>::empty());
        }
    }

    /// An owned copy of this path.
    pub fn deep_clone(&self) -> (r: Path)
        ensures
            r@ == self@,
    {
        let n = self.units.len();
        let mut units: Vec<Vec<Key>> = Vec::new();
        let mut i: usize = 0;
        while i < n
            invariant
                i <= n,
                n == self.units@.len(),
                units@.len() == i,
                forall|j: int| 0 <= j < i ==> spec_keys_view(#[trigger] units@[j]@) == self@[j],
            decreases n - i,
        {
            let unit = &self.units[i];
            let m = unit.len();
            let mut copy: Vec<Key> = Vec::new();
            let mut j: usize = 0;
            while j < m
                invariant
                    j <= m,
                    m == unit@.len(),
                    copy@.len() == j,
                    forall|l: int| 0 <= l < j ==> copy@[l]@ == #[trigger] unit@[l]@,
                decreases m - j,
            {
                copy.push(unit[j].deep_clone());
                j = j + 1;
            }
            proof {
                assert(spec_keys_view(copy@) =~= spec_keys_view(unit@));
            }
            units.push(copy);
            i = i + 1;
        }
        let r = Path { units };
        proof {
            assert(r@ =~= self@);
        }
        r
    }

    /// Detaches everything after the first unit: the path keeps its head
    /// unit, the rest is returned.  An empty path yields nothing.
    pub fn split_head(&mut self) -> (r: Option<Path>)
        ensures
            old(self)@.len() == 0 ==> final(self)@ == old(self)@ && r is None,
            old(self)@.len() > 0 ==> final(self)@ == old(self)@.take(1) && (r matches Some(rest)
                && rest@ == old(self)@.skip(1)),
    {
        if self.units.len() == 0 {
            return None;
        }
        let rest_units = self.units.split_off(1);
        let rest = Path { units: rest_units };
        proof {
            assert(final(self)@ =~~= old(self)@.take(1));
            assert(rest@ =~~= old(self)@.skip(1));
        }
        Some(rest)
    }

    /// Opens a new unit holding `k`.
    pub fn push(&mut self, k: Key)
        ensures
            final(self)@ == old(self)@.push(seq![k@]),
            spec_path_wf(old(self)@) ==> spec_path_wf(final(self)@),
    {
        let ghost kv = k@;
        self.units.push(vec![k]);
        proof {
            assert(spec_keys_view(final(self).units@.last()@) =~= seq![kv]);
            assert(final(self)@ =~= old(self)@.push(seq![kv]));
        }
    }

    /// Fuses `k` into the last unit, opening one if none exists.
    pub fn adhere(&mut self, k: Key)
        ensures
            final(self)@ == spec_adhered(old(self)@, k@),
            spec_path_wf(old(self)@) ==> spec_path_wf(final(self)@),
    {
        let ghost kv = k@;
        if self.units.len() == 0 {
            self.push(k);
            proof {
                assert(final(self)@ =~= spec_adhered(old(self)@, kv));
            }
        } else {
            let mut last = self.units.pop().unwrap();
            last.push(k);
            self.units.push(last);
            proof {
                assert(final(self)@ =~~= spec_adhered(old(self)@, kv));
            }
        }
    }

    /// Attaches `k` along `edge`: `Connected` fuses, `Restarted` opens.
    pub fn link(&mut self, edge: Edge, k: Key)
        ensures
            final(self)@ == spec_linked(old(self)@, edge, k@),
            spec_path_wf(old(self)@) ==> spec_path_wf(final(self)@),
    {
        match edge {
            Edge::Connected => self.adhere(k),
            Edge::Restarted => self.push(k),
        }
    }

    /// Removes the most recently added key, dropping the last unit when it
    /// empties.  Yields the removed key.
    pub fn pop(&mut self) -> (r: Option<Key>)
        requires
            spec_path_wf(old(self)@),
        ensures
            spec_path_wf(final(self)@),
            old(self)@.len() == 0 ==> final(self)@ == old(self)@ && r is None,
            old(self)@.len() > 0 && old(self)@.last().len() == 1 ==> final(self)@ == old(
                self,
            )@.drop_last() && (r matches Some(k) && k@ == old(self)@.last()[0]),
            old(self)@.len() > 0 && old(self)@.last().len() > 1 ==> final(self)@ == old(
                self,
            )@.update(old(self)@.len() - 1, old(self)@.last().drop_last()) && (r matches Some(k)
                && k@ == old(self)@.last().last()),
    {
        if self.units.len() == 0 {
            return None;
        }
        proof {
            assert(old(self)@.last() == spec_keys_view(old(self).units@.last()@));
            assert(old(self)@.last().len() > 0);
        }
        let mut last = self.units.pop().unwrap();
        let k = last.pop().unwrap();
        if last.len() > 0 {
            self.units.push(last);
            proof {
                assert(old(self)@.last().drop_last() =~= spec_keys_view(last@));
                assert(final(self)@ =~~= old(self)@.update(
                    old(self)@.len() - 1,
                    old(self)@.last().drop_last(),
                ));
            }
        } else {
            proof {
                assert(final(self)@ =~~= old(self)@.drop_last());
            }
        }
        Some(k)
    }

    /// Resolves every unit in place: one key per unit, pending `Connected`
    /// grouping discarded.
    pub fn flattern(&mut self)
        ensures
            final(self)@ == spec_flattened(old(self)@),
            spec_path_wf(final(self)@),
    {
        let n = self.units.len();
        let mut units: Vec<Vec<Key>> = Vec::new();
        let mut i: usize = 0;
        while i < n
            invariant
                i <= n,
                n == self.units@.len(),
                self.units@ == old(self).units@,
                units@.len() == i,
                forall|j: int| 0 <= j < i ==> spec_keys_view(#[trigger] units@[j]@) == seq![
                    spec_resolved_unit(self@[j]),
                ],
            decreases n - i,
        {
            let k = resolved_unit(&self.units[i]);
            units.push(vec![k]);
            i = i + 1;
        }
        self.units = units;
        proof {
            assert(final(self)@ =~= spec_flattened(old(self)@));
        }
    }

    /// The output keys this path resolves to, one per unit: a unit of one
    /// key keeps it unchanged, a longer unit becomes one dot-joined field.
    pub fn keys(&self) -> (r: Vec<Key>)
        ensures
            spec_keys_view(r@) == spec_resolved(self@),
    {
        let n = self.units.len();
        let mut out: Vec<Key> = Vec::new();
        let mut i: usize = 0;
        while i < n
            invariant
                i <= n,
                n == self.units@.len(),
                out@.len() == i,
                forall|j: int| 0 <= j < i ==> out@[j]@ == spec_resolved_unit(#[trigger] self@[j]),
            decreases n - i,
        {
            out.push(resolved_unit(&self.units[i]));
            i = i + 1;
        }
        proof {
            assert(spec_keys_view(out@) =~= spec_resolved(self@));
        }
        out
    }

    /// The dot-joined text of each unit, in order.
    pub fn build(&self) -> (r: Vec<String>)
        ensures
            r.deep_view() == Seq::new(self@.len(), |i: int| spec_unit_text(self@[i])),
    {
        let n = self.units.len();
        let mut out: Vec<String> = Vec::new();
        let mut i: usize = 0;
        while i < n
            invariant
                i <= n,
                n == self.units@.len(),
                out@.len() == i,
                forall|j: int| 0 <= j < i ==> out@[j]@ == spec_unit_text(#[trigger] self@[j]),
            decreases n - i,
        {
            out.push(unit_text(&self.units[i]));
            i = i + 1;
        }
        proof {
            assert(out.deep_view() =~= Seq::new(self@.len(), |i: int| spec_unit_text(self@[i])));
        }
        out
    }

    /// All keys of all units, in order.
    pub fn units(&self) -> (r: Vec<Key>)
        ensures
            spec_keys_view(r@) == spec_all_keys(self@),
    {
        let n = self.units.len();
        let mut out: Vec<Key> = Vec::new();
        let mut i: usize = 0;
        while i < n
            invariant
                i <= n,
                n == self.units@.len(),
                spec_keys_view(out@) =~= spec_all_keys(self@.take(i as int)),
            decreases n - i,
        {
            let unit = &self.units[i];
            let m = unit.len();
            let mut j: usize = 0;
            while j < m
                invariant
                    j <= m,
                    m == unit@.len(),
                    unit@ == self.units@[i as int]@,
                    i < n,
                    n == self.units@.len(),
                    spec_keys_view(out@) =~= spec_all_keys(self@.take(i as int))
                        + spec_keys_view(unit@).take(j as int),
                decreases m - j,
            {
                let ghost prev = out@;
                out.push(unit[j].deep_clone());
                proof {
                    assert(spec_keys_view(out@) =~= spec_keys_view(prev).push(
                        unit@[j as int]@,
                    ));
                    assert(spec_keys_view(unit@).take(j as int + 1) =~= spec_keys_view(
                        unit@,
                    ).take(j as int).push(unit@[j as int]@));
                    assert(spec_keys_view(out@) =~= spec_all_keys(self@.take(i as int))
                        + spec_keys_view(unit@).take(j as int + 1));
                }
                j = j + 1;
            }
            proof {
                let t = self@.take(i as int + 1);
                assert(t.drop_last() =~= self@.take(i as int));
                assert(t.last() == self@[i as int]);
                assert(spec_keys_view(unit@).take(m as int) =~= spec_keys_view(unit@));
                assert(spec_keys_view(unit@) =~= self@[i as int]);
                assert(spec_keys_view(out@) =~= spec_all_keys(t));
            }
            i = i + 1;
        }
        proof {
            assert(self@.take(n as int) =~= self@);
        }
        out
    }
}

} // verus!
