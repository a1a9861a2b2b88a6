//! A finite map keyed by unit handles, stored densely by handle index.

use vstd::prelude::*;
use crate::handles::{NodeHandle, SubgraphHandle, UnitHandle};

verus! {

/// A map from units (nodes and subgraphs) to values. Each kind of unit has a
/// table indexed by the handle's index; a missing or `None` slot means that
/// the unit has no entry.
#[derive(Debug)]
pub struct UnitMap<V> {
    pub(crate) nodes: Vec<Option<V>>,
    pub(crate) subgraphs: Vec<Option<V>>,
}

pub open spec fn slot<V>(table: Seq<Option<V>>, i: nat) -> Option<V> {
    if i < table.len() {
        table[i as int]
    } else {
        None
    }
}

impl<V> UnitMap<V> {
    /// The entry of `u`, if any.
    pub open(crate) spec fn lookup(&self, u: UnitHandle) -> Option<V> {
        match u {
            UnitHandle::Node(n) => slot(self.nodes@, n.index()),
            UnitHandle::Subgraph(s) => slot(self.subgraphs@, s.index()),
        }
    }
}

impl<V> View for UnitMap<V> {
    type V = Map<UnitHandle, V>;

    open(crate) spec fn view(&self) -> Map<UnitHandle, V> {
        Map::new(|u: UnitHandle| self.lookup(u) is Some, |u: UnitHandle| self.lookup(u)->Some_0)
    }
}

/// Sets slot `i` of `table` to `v`, growing the table with empty slots first
/// where it is too short.
fn set_slot<V: Copy>(table: &mut Vec<Option<V>>, i: usize, v: V)
    ensures
        forall|j: nat| #[trigger] slot(final(table)@, j) == if j == i { Some(v) } else { slot(old(table)@, j) },
{
    while table.len() <= i
        invariant
            forall|j: nat| #[trigger] slot(table@, j) == slot(old(table)@, j),
        decreases i + 1 - table.len(),
    {
        let ghost pre = table@;
        table.push(None);
        proof {
            assert forall|j: nat| #[trigger] slot(table@, j) == slot(old(table)@, j) by {
                assert(slot(pre, j) == slot(old(table)@, j));
                if j < pre.len() {
                    assert(table@[j as int] == pre[j as int]);
                }
            }
        }
    }
    let ghost pre = table@;
    table.set(i, Some(v));
    proof {
        assert forall|j: nat| #[trigger] slot(table@, j) == if j == i { Some(v) } else { slot(old(table)@, j) } by {
            assert(slot(pre, j) == slot(old(table)@, j));
        }
    }
}

fn copy_table<V: Copy>(table: &Vec<Option<V>>) -> (r: Vec<Option<V>>)
    ensures
        r@ == table@,
{
    let mut r: Vec<Option<V>> = Vec::new();
    let mut i: usize = 0;
    while i < table.len()
        invariant
            i <= table.len(),
            r@ == table@.take(i as int),
        decreases table.len() - i,
    {
        r.push(table[i]);
        i = i + 1;
        proof { assert(r@ =~= table@.take(i as int)); }
    }
    proof { assert(table@.take(i as int) =~= table@); }
    r
}

impl<V: Copy> UnitMap<V> {
    pub fn new() -> (r: Self)
        ensures
            r@ == Map::<UnitHandle, V>::empty(),
    {
        let r = UnitMap { nodes: Vec::new(), subgraphs: Vec::new() };
        proof { assert(r@ =~= Map::<UnitHandle, V>::empty()); }
        r
    }

    pub fn get(&self, u: UnitHandle) -> (r: Option<V>)
        ensures
            r == self.lookup(u),
            r is Some <==> self@.contains_key(u),
            r is Some ==> r->Some_0 == self@[u],
    {
        match u {
            UnitHandle::Node(n) => {
                if n.idx < self.nodes.len() {
                    self.nodes[n.idx]
                } else {
                    None
                }
            },
            UnitHandle::Subgraph(s) => {
                if s.idx < self.subgraphs.len() {
                    self.subgraphs[s.idx]
                } else {
                    None
                }
            },
        }
    }

    pub fn contains(&self, u: UnitHandle) -> (r: bool)
        ensures
            r == self@.contains_key(u),
    {
        self.get(u).is_some()
    }

    pub fn insert(&mut self, u: UnitHandle, v: V)
        ensures
            forall|w: UnitHandle| #[trigger] final(self).lookup(w) == if w == u { Some(v) } else { old(self).lookup(w) },
            final(self)@ == old(self)@.insert(u, v),
    {
        match u {
            UnitHandle::Node(n) => {
                set_slot(&mut self.nodes, n.idx, v);
            },
            UnitHandle::Subgraph(s) => {
                set_slot(&mut self.subgraphs, s.idx, v);
            },
        }
        proof {
            assert forall|w: UnitHandle| #[trigger] self.lookup(w) == if w == u { Some(v) } else { old(self).lookup(w) } by {
                match w {
                    UnitHandle::Node(m) => { assert(slot(self.nodes@, m.index()) == slot(self.nodes@, m.index())); },
                    UnitHandle::Subgraph(t) => { assert(slot(self.subgraphs@, t.index()) == slot(self.subgraphs@, t.index())); },
                }
            }
            assert(self@ =~= old(self)@.insert(u, v));
        }
    }

    pub fn clear(&mut self)
        ensures
            final(self)@ == Map::<UnitHandle, V>::empty(),
    {
        self.nodes.clear();
        self.subgraphs.clear();
        proof { assert(self@ =~= Map::<UnitHandle, V>::empty()); }
    }

    /// An independent copy of the map.
    pub fn duplicate(&self) -> (r: Self)
        ensures
            r@ == self@,
            forall|w: UnitHandle| #[trigger] r.lookup(w) == self.lookup(w),
    {
        let r = UnitMap { nodes: copy_table(&self.nodes), subgraphs: copy_table(&self.subgraphs) };
        proof { assert(r@ =~= self@); }
        r
    }
}

} // verus!
