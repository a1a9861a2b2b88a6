//! Crossings between the edges that join the units of one row, when some of
//! the units are subgraphs: every node standing for a unit is joined to the
//! nodes standing for the units further right, and two such edges cross when
//! their levels and their positions interleave.

use vstd::prelude::*;
use crate::handles::{NodeHandle, SubgraphHandle, UnitHandle};
use crate::dag::{DAG, unit_to_node};
use crate::rank::copy_row;

verus! {

/// An edge between units of a row: the node on the left, the node on the
/// right, their positions in the row, and their levels.
pub type RowEdge = (NodeHandle, NodeHandle, usize, usize, usize, usize);

/// What the count reads of a node: the node, its level, its predecessors
/// and its successors.
pub type NodeInfo = (NodeHandle, usize, Seq<NodeHandle>, Seq<NodeHandle>);

/// The node units of `row`, in order.
pub open spec fn node_units(row: Seq<UnitHandle>) -> Seq<UnitHandle>
    decreases row.len(),
{
    if row.len() == 0 {
        Seq::empty()
    } else {
        node_units(row.drop_last()) + if row.last() is Node { seq![row.last()] } else { Seq::empty() }
    }
}

/// The node units of `rows`, row after row.
pub open spec fn flat_node_units(rows: Seq<Seq<UnitHandle>>) -> Seq<UnitHandle>
    decreases rows.len(),
{
    if rows.len() == 0 {
        Seq::empty()
    } else {
        flat_node_units(rows.drop_last()) + node_units(rows.last())
    }
}

impl DAG {
    /// The level of `u` in the rank of the subgraph it belongs to.
    pub open(crate) spec fn level_of(&self, u: UnitHandle) -> usize {
        self.rank_of(self.parent_of(u)).level_map()[u]
    }

    /// `u` has a level in the rank of the subgraph it belongs to, which is a
    /// subgraph of the dag.
    pub open(crate) spec fn has_level(&self, u: UnitHandle) -> bool {
        &&& self.unit_valid(u)
        &&& self.subgraph_valid(self.parent_of(u))
        &&& self.rank_of(self.parent_of(u)).level_map().contains_key(u)
    }

    /// The nodes that stand for `u`, with their levels: `u` itself when it
    /// is a node, else the nodes in the rank of the subgraph.
    pub open(crate) spec fn unit_nodes(&self, u: UnitHandle) -> Seq<(NodeHandle, usize)> {
        match u {
            UnitHandle::Node(n) => seq![(n, self.level_of(u))],
            UnitHandle::Subgraph(t) => flat_node_units(self.rank_of(t).rows()).map_values(
                |x: UnitHandle| (unit_to_node(x), self.level_of(x)),
            ),
        }
    }

    /// The nodes of `ns` with their levels, predecessors and successors.
    pub open(crate) spec fn with_edges(&self, ns: Seq<(NodeHandle, usize)>) -> Seq<NodeInfo> {
        ns.map_values(|p: (NodeHandle, usize)| (p.0, p.1, self.preds(p.0), self.succs(p.0)))
    }

    /// What the count reads of the nodes standing for `u`.
    pub open(crate) spec fn unit_info(&self, u: UnitHandle) -> Seq<NodeInfo> {
        self.with_edges(self.unit_nodes(u))
    }

    /// What the count reads of each unit of `row`.
    pub open(crate) spec fn row_info(&self, row: Seq<UnitHandle>) -> Seq<Seq<NodeInfo>> {
        row.map_values(|u: UnitHandle| self.unit_info(u))
    }

    /// The count can be taken on unit `u`: it is valid and has a level when
    /// it is a node; when it is a subgraph, the units in its rank are valid
    /// and have levels.
    pub open(crate) spec fn unit_ready(&self, u: UnitHandle) -> bool {
        &&& self.unit_valid(u)
        &&& (u is Node ==> self.has_level(u))
        &&& (u is Subgraph ==> forall|k: int, l: int|
            0 <= k < self.rank_of(u->Subgraph_0).rows().len() && 0 <= l < self.rank_of(u->Subgraph_0).rows()[k].len() ==>
                self.has_level(#[trigger] self.rank_of(u->Subgraph_0).rows()[k][l]))
    }

    /// The count can be taken on every unit of `row`.
    pub open(crate) spec fn inter_ready(&self, row: Seq<UnitHandle>) -> bool {
        forall|i: int| 0 <= i < row.len() ==> #[trigger] self.unit_ready(row[i])
    }
}

/// The edges from node `n` (level `ln`, at position `i`) to those of `ms`
/// (at position `j`) that are `p`.
pub open spec fn matches_of(p: NodeHandle, ms: Seq<(NodeHandle, usize)>, n: NodeHandle, ln: usize, i: usize, j: usize) -> Seq<RowEdge>
    decreases ms.len(),
{
    if ms.len() == 0 {
        Seq::empty()
    } else {
        let m = ms.last();
        matches_of(p, ms.drop_last(), n, ln, i, j) + if m.0 == p { seq![(n, m.0, i, j, ln, m.1)] } else { Seq::empty() }
    }
}

/// The edges from node `n` to those of `ms` that are in `ps`, taken in the
/// order of `ps`.
pub open spec fn list_edges(ps: Seq<NodeHandle>, ms: Seq<(NodeHandle, usize)>, n: NodeHandle, ln: usize, i: usize, j: usize) -> Seq<RowEdge>
    decreases ps.len(),
{
    if ps.len() == 0 {
        Seq::empty()
    } else {
        list_edges(ps.drop_last(), ms, n, ln, i, j) + matches_of(ps.last(), ms, n, ln, i, j)
    }
}

/// The nodes and levels of `infos`.
pub open spec fn info_nodes(infos: Seq<NodeInfo>) -> Seq<(NodeHandle, usize)> {
    infos.map_values(|x: NodeInfo| (x.0, x.1))
}

/// The edges between the nodes of `ns` (at position `i`) and those of `ms`
/// (at position `j`): for each node on the left, its predecessors first,
/// then its successors.
pub open spec fn block_edges(ns: Seq<NodeInfo>, ms: Seq<NodeInfo>, i: usize, j: usize) -> Seq<RowEdge>
    decreases ns.len(),
{
    if ns.len() == 0 {
        Seq::empty()
    } else {
        let x = ns.last();
        block_edges(ns.drop_last(), ms, i, j)
            + list_edges(x.2, info_nodes(ms), x.0, x.1, i, j)
            + list_edges(x.3, info_nodes(ms), x.0, x.1, i, j)
    }
}

/// The edges between the unit at position `i` and those at positions
/// `i + 1 .. j`.
pub open spec fn edges_from(infos: Seq<Seq<NodeInfo>>, i: int, j: int) -> Seq<RowEdge>
    decreases j - i,
{
    if j <= i + 1 {
        Seq::empty()
    } else {
        edges_from(infos, i, j - 1) + block_edges(infos[i], infos[j - 1], i as usize, (j - 1) as usize)
    }
}

/// The edges between the units at positions `0 .. i` and those further
/// right.
pub open spec fn edges_upto(infos: Seq<Seq<NodeInfo>>, i: int) -> Seq<RowEdge>
    decreases i,
{
    if i <= 0 {
        Seq::empty()
    } else {
        edges_upto(infos, i - 1) + edges_from(infos, i - 1, infos.len() as int)
    }
}

/// All the edges between units of a row, given what is read of each unit.
pub open spec fn row_edges(infos: Seq<Seq<NodeInfo>>) -> Seq<RowEdge> {
    edges_upto(infos, infos.len() as int)
}

/// `v` lies strictly between `x` and `y`.
pub open spec fn strictly_between(v: usize, x: usize, y: usize) -> bool {
    (x < v && v < y) || (y < v && v < x)
}

/// Two edges join the same two positions.
pub open spec fn same_places(a: RowEdge, b: RowEdge) -> bool {
    a.2 == b.2 && a.3 == b.3
}

/// The levels of one edge enclose an end level of the other.
pub open spec fn levels_cross(a: RowEdge, b: RowEdge) -> bool {
    strictly_between(a.4, b.4, b.5) || strictly_between(a.5, b.4, b.5)
        || strictly_between(b.4, a.4, a.5) || strictly_between(b.5, a.4, a.5)
}

/// The positions of one edge enclose an end position of the other.
pub open spec fn places_cross(a: RowEdge, b: RowEdge) -> bool {
    strictly_between(a.2, b.2, b.3) || strictly_between(a.3, b.2, b.3)
        || strictly_between(b.2, a.2, a.3) || strictly_between(b.3, a.2, a.3)
}

/// Two edges between different pairs of positions whose levels and
/// positions interleave.
pub open spec fn edges_cross(a: RowEdge, b: RowEdge) -> bool {
    !same_places(a, b) && levels_cross(a, b) && places_cross(a, b)
}

/// The number of edges of `es` that cross `e`.
pub open spec fn cross_with(es: Seq<RowEdge>, e: RowEdge) -> nat
    decreases es.len(),
{
    if es.len() == 0 {
        0
    } else {
        cross_with(es.drop_last(), e) + if edges_cross(es.last(), e) { 1nat } else { 0nat }
    }
}

/// The number of pairs of edges of `es` that cross.
pub open spec fn crossing_pairs(es: Seq<RowEdge>) -> nat
    decreases es.len(),
{
    if es.len() == 0 {
        0
    } else {
        crossing_pairs(es.drop_last()) + cross_with(es.drop_last(), es.last())
    }
}

impl DAG {
    /// The number of pairs of edges between units of `row` that cross.
    pub open(crate) spec fn inter_crossings(&self, row: Seq<UnitHandle>) -> nat {
        crossing_pairs(row_edges(self.row_info(row)))
    }
}

pub proof fn lemma_cross_with_bound(es: Seq<RowEdge>, e: RowEdge)
    ensures
        cross_with(es, e) <= es.len(),
    decreases es.len(),
{
    if es.len() > 0 {
        lemma_cross_with_bound(es.drop_last(), e);
    }
}

pub proof fn lemma_crossing_pairs_bound(es: Seq<RowEdge>)
    ensures
        crossing_pairs(es) <= es.len() * es.len(),
    decreases es.len(),
{
    if es.len() > 0 {
        lemma_crossing_pairs_bound(es.drop_last());
        lemma_cross_with_bound(es.drop_last(), es.last());
        let n = es.len() as int;
        assert((n - 1) * (n - 1) + (n - 1) <= n * n) by (nonlinear_arith)
            requires n >= 1;
    }
}

pub proof fn lemma_info_nodes(dag: &DAG, ns: Seq<(NodeHandle, usize)>)
    ensures
        info_nodes(dag.with_edges(ns)) == ns,
{
    assert(info_nodes(dag.with_edges(ns)) =~= ns);
}

/// Appends to `edges` the edges from node `n` to the nodes of `ms` that are
/// in `ps`.
fn push_list_edges(
    edges: &mut Vec<RowEdge>,
    ps: &Vec<NodeHandle>,
    ms: &Vec<(NodeHandle, usize)>,
    n: NodeHandle,
    ln: usize,
    i: usize,
    j: usize,
)
    ensures
        final(edges)@ == old(edges)@ + list_edges(ps@, ms@, n, ln, i, j),
{
    let ghost base = edges@;
    let mut t: usize = 0;
    while t < ps.len()
        invariant
            t <= ps@.len(),
            edges@ == base + list_edges(ps@.take(t as int), ms@, n, ln, i, j),
        decreases ps@.len() - t,
    {
        let p = ps[t];
        let ghost mid = edges@;
        let mut q: usize = 0;
        proof {
            assert(ps@.take(t as int + 1).drop_last() =~= ps@.take(t as int));
            assert(ms@.take(0) =~= Seq::<(NodeHandle, usize)>::empty());
        }
        while q < ms.len()
            invariant
                q <= ms@.len(),
                t < ps@.len(),
                p == ps@[t as int],
                mid == base + list_edges(ps@.take(t as int), ms@, n, ln, i, j),
                edges@ == mid + matches_of(p, ms@.take(q as int), n, ln, i, j),
            decreases ms@.len() - q,
        {
            let m = ms[q];
            proof {
                assert(ms@.take(q as int + 1).drop_last() =~= ms@.take(q as int));
            }
            if m.0 == p {
                edges.push((n, m.0, i, j, ln, m.1));
            }
            proof {
                assert(edges@ =~= mid + matches_of(p, ms@.take(q as int + 1), n, ln, i, j));
            }
            q = q + 1;
        }
        proof {
            assert(ms@.take(ms@.len() as int) =~= ms@);
            assert(edges@ =~= base + list_edges(ps@.take(t as int + 1), ms@, n, ln, i, j));
        }
        t = t + 1;
    }
    proof {
        assert(ps@.take(ps@.len() as int) =~= ps@);
    }
}

/// Appends to `edges` the edges between the nodes of `ns` (at position `i`)
/// and those of `ms` (at position `j`).
fn push_block_edges(
    dag: &DAG,
    edges: &mut Vec<RowEdge>,
    ns: &Vec<(NodeHandle, usize)>,
    ms: &Vec<(NodeHandle, usize)>,
    i: usize,
    j: usize,
)
    requires
        forall|k: int| 0 <= k < ns@.len() ==> dag.node_valid(#[trigger] ns@[k].0),
    ensures
        final(edges)@ == old(edges)@ + block_edges(dag.with_edges(ns@), dag.with_edges(ms@), i, j),
{
    let ghost base = edges@;
    let ghost msi = dag.with_edges(ms@);
    proof {
        lemma_info_nodes(dag, ms@);
    }
    let mut k: usize = 0;
    while k < ns.len()
        invariant
            k <= ns@.len(),
            forall|k: int| 0 <= k < ns@.len() ==> dag.node_valid(#[trigger] ns@[k].0),
            msi == dag.with_edges(ms@),
            info_nodes(msi) == ms@,
            edges@ == base + block_edges(dag.with_edges(ns@).take(k as int), msi, i, j),
        decreases ns@.len() - k,
    {
        let (n, ln) = ns[k];
        proof {
            assert(dag.node_valid(ns@[k as int].0));
            let t = dag.with_edges(ns@).take(k as int + 1);
            assert(t.drop_last() =~= dag.with_edges(ns@).take(k as int));
            assert(t.last() == (n, ln, dag.preds(n), dag.succs(n)));
        }
        let preds = dag.predecessors(n);
        push_list_edges(edges, preds, ms, n, ln, i, j);
        let succs = dag.successors(n);
        push_list_edges(edges, succs, ms, n, ln, i, j);
        proof {
            assert(edges@ =~= base + block_edges(dag.with_edges(ns@).take(k as int + 1), msi, i, j));
        }
        k = k + 1;
    }
    proof {
        assert(dag.with_edges(ns@).take(ns@.len() as int) =~= dag.with_edges(ns@));
    }
}

/// The nodes standing for `u`, with their levels.
fn unit_nodes_exec(dag: &DAG, u: UnitHandle) -> (r: Vec<(NodeHandle, usize)>)
    requires
        dag.unit_ready(u),
    ensures
        r@ == dag.unit_nodes(u),
        forall|k: int| 0 <= k < r@.len() ==> dag.node_valid(#[trigger] r@[k].0),
{
    match u {
        UnitHandle::Node(n) => {
            let l = dag.level_subgraph(u);
            let r = vec![(n, l)];
            proof {
                assert(r@ =~= seq![(n, l)]);
            }
            r
        },
        UnitHandle::Subgraph(t) => {
            let ghost rows = dag.rank_of(t).rows();
            let ghost f = |x: UnitHandle| (unit_to_node(x), dag.level_of(x));
            let mut r: Vec<(NodeHandle, usize)> = Vec::new();
            let h = dag.num_levels_subgraph(t);
            let mut k: usize = 0;
            proof {
                assert(rows.take(0) =~= Seq::<Seq<UnitHandle>>::empty());
                assert(r@ =~= flat_node_units(rows.take(0)).map_values(f));
            }
            while k < h
                invariant
                    dag.unit_ready(u),
                    u == UnitHandle::Subgraph(t),
                    dag.subgraph_valid(t),
                    rows == dag.rank_of(t).rows(),
                    h == rows.len(),
                    f == (|x: UnitHandle| (unit_to_node(x), dag.level_of(x))),
                    k <= h,
                    r@ == flat_node_units(rows.take(k as int)).map_values(f),
                    forall|q: int| 0 <= q < r@.len() ==> dag.node_valid(#[trigger] r@[q].0),
                decreases h - k,
            {
                let row = dag.row_subgraph(t, k);
                let ghost before = r@;
                let mut l: usize = 0;
                proof {
                    assert(row@.take(0) =~= Seq::<UnitHandle>::empty());
                    assert(r@ =~= before + node_units(row@.take(0)).map_values(f));
                }
                while l < row.len()
                    invariant
                        dag.unit_ready(u),
                        u == UnitHandle::Subgraph(t),
                        dag.subgraph_valid(t),
                        rows == dag.rank_of(t).rows(),
                        k < rows.len(),
                        row@ == rows[k as int],
                        f == (|x: UnitHandle| (unit_to_node(x), dag.level_of(x))),
                        l <= row@.len(),
                        r@ == before + node_units(row@.take(l as int)).map_values(f),
                        forall|q: int| 0 <= q < r@.len() ==> dag.node_valid(#[trigger] r@[q].0),
                    decreases row@.len() - l,
                {
                    let x = row[l];
                    proof {
                        assert(row@.take(l as int + 1).drop_last() =~= row@.take(l as int));
                        assert(rows[k as int][l as int] == x);
                        assert(dag.has_level(x));
                    }
                    if let UnitHandle::Node(m) = x {
                        let lv = dag.level_subgraph(x);
                        r.push((m, lv));
                        proof {
                            assert(node_units(row@.take(l as int + 1)) == node_units(row@.take(l as int)) + seq![x]);
                            assert(node_units(row@.take(l as int + 1)).map_values(f)
                                =~= node_units(row@.take(l as int)).map_values(f).push(f(x)));
                            assert(r@ =~= before + node_units(row@.take(l as int + 1)).map_values(f));
                        }
                    } else {
                        proof {
                            assert(node_units(row@.take(l as int + 1)) =~= node_units(row@.take(l as int)));
                        }
                    }
                    l = l + 1;
                }
                proof {
                    assert(row@.take(row@.len() as int) =~= row@);
                    let t2 = rows.take(k as int + 1);
                    assert(t2.drop_last() =~= rows.take(k as int));
                    assert(t2.last() == row@);
                    assert(flat_node_units(t2).map_values(f)
                        =~= flat_node_units(rows.take(k as int)).map_values(f) + node_units(row@).map_values(f));
                }
                k = k + 1;
            }
            proof {
                assert(rows.take(h as int) =~= rows);
            }
            r
        },
    }
}

/// All the edges between units of `row`.
fn collect_row_edges(dag: &DAG, row: &Vec<UnitHandle>) -> (r: Vec<RowEdge>)
    requires
        dag.inter_ready(row@),
    ensures
        r@ == row_edges(dag.row_info(row@)),
{
    let ghost infos = dag.row_info(row@);
    let n = row.len();
    let mut nodes: Vec<Vec<(NodeHandle, usize)>> = Vec::new();
    let mut i: usize = 0;
    while i < n
        invariant
            n == row@.len(),
            dag.inter_ready(row@),
            i <= n,
            nodes@.len() == i,
            forall|k: int| 0 <= k < i ==> (#[trigger] nodes@[k])@ == dag.unit_nodes(row@[k]),
            forall|k: int, q: int| 0 <= k < i && 0 <= q < nodes@[k]@.len() ==> dag.node_valid(#[trigger] nodes@[k]@[q].0),
        decreases n - i,
    {
        proof {
            assert(dag.unit_ready(row@[i as int]));
        }
        let un = unit_nodes_exec(dag, row[i]);
        nodes.push(un);
        i = i + 1;
    }
    let mut edges: Vec<RowEdge> = Vec::new();
    let mut i: usize = 0;
    proof {
        assert(edges@ =~= edges_upto(infos, 0));
    }
    while i < n
        invariant
            n == row@.len(),
            infos == dag.row_info(row@),
            infos.len() == n,
            nodes@.len() == n,
            forall|k: int| 0 <= k < n ==> (#[trigger] nodes@[k])@ == dag.unit_nodes(row@[k]),
            forall|k: int, q: int| 0 <= k < n && 0 <= q < nodes@[k]@.len() ==> dag.node_valid(#[trigger] nodes@[k]@[q].0),
            i <= n,
            edges@ == edges_upto(infos, i as int),
        decreases n - i,
    {
        let ghost base = edges@;
        let mut j: usize = i + 1;
        proof {
            assert(edges_from(infos, i as int, j as int) =~= Seq::<RowEdge>::empty());
        }
        while j < n
            invariant
                n == row@.len(),
                infos == dag.row_info(row@),
                infos.len() == n,
                nodes@.len() == n,
                forall|k: int| 0 <= k < n ==> (#[trigger] nodes@[k])@ == dag.unit_nodes(row@[k]),
                forall|k: int, q: int| 0 <= k < n && 0 <= q < nodes@[k]@.len() ==> dag.node_valid(#[trigger] nodes@[k]@[q].0),
                i < n,
                i + 1 <= j <= n,
                base == edges_upto(infos, i as int),
                edges@ == base + edges_from(infos, i as int, j as int),
            decreases n - j,
        {
            proof {
                assert(infos[i as int] == dag.with_edges(nodes@[i as int]@));
                assert(infos[j as int] == dag.with_edges(nodes@[j as int]@));
                assert forall|q: int| 0 <= q < nodes@[i as int]@.len() implies dag.node_valid(#[trigger] nodes@[i as int]@[q].0) by {}
            }
            push_block_edges(dag, &mut edges, &nodes[i], &nodes[j], i, j);
            proof {
                assert(edges@ =~= base + edges_from(infos, i as int, j as int + 1));
            }
            j = j + 1;
        }
        proof {
            assert(edges@ =~= edges_upto(infos, i as int + 1));
        }
        i = i + 1;
    }
    edges
}

/// Whether the edges `a` and `b` cross.
fn edges_cross_exec(a: RowEdge, b: RowEdge) -> (r: bool)
    ensures
        r == edges_cross(a, b),
{
    let between = |v: usize, x: usize, y: usize| -> (r: bool)
        ensures r == strictly_between(v, x, y),
        { (x < v && v < y) || (y < v && v < x) };
    let same = a.2 == b.2 && a.3 == b.3;
    let lv = between(a.4, b.4, b.5) || between(a.5, b.4, b.5) || between(b.4, a.4, a.5) || between(b.5, a.4, a.5);
    let pl = between(a.2, b.2, b.3) || between(a.3, b.2, b.3) || between(b.2, a.2, a.3) || between(b.3, a.2, a.3);
    !same && lv && pl
}

/// The number of pairs of edges of `es` that cross.
fn count_crossing_pairs(es: &Vec<RowEdge>) -> (r: u128)
    ensures
        r == crossing_pairs(es@),
{
    let len = es.len();
    proof {
        let n = es@.len() as int;
        assert(n <= 0xffff_ffff_ffff_ffff) by {
            assert(len <= usize::MAX);
        }
        assert(n * n <= u128::MAX) by (nonlinear_arith)
            requires 0 <= n <= 0xffff_ffff_ffff_ffff;
    }
    let mut cnt: u128 = 0;
    let mut y: usize = 0;
    proof {
        assert(es@.take(0) =~= Seq::<RowEdge>::empty());
    }
    while y < es.len()
        invariant
            es@.len() * es@.len() <= u128::MAX,
            y <= es@.len(),
            cnt == crossing_pairs(es@.take(y as int)),
        decreases es@.len() - y,
    {
        let e = es[y];
        let ghost pre = es@.take(y as int);
        let mut x: usize = 0;
        proof {
            lemma_crossing_pairs_bound(pre);
            lemma_cross_with_bound(pre, e);
            let t = es@.take(y as int + 1);
            assert(t.drop_last() =~= pre);
            assert(t.last() == e);
            lemma_crossing_pairs_bound(t);
            let n = es@.len() as int;
            let m = y as int + 1;
            assert(m * m <= n * n) by (nonlinear_arith) requires 0 <= m <= n;
            assert(pre.take(0) =~= Seq::<RowEdge>::empty());
        }
        while x < y
            invariant
                y < es@.len(),
                pre == es@.take(y as int),
                e == es@[y as int],
                crossing_pairs(pre) + cross_with(pre, e) <= u128::MAX,
                x <= y,
                cnt == crossing_pairs(pre) + cross_with(pre.take(x as int), e),
            decreases y - x,
        {
            let c = edges_cross_exec(es[x], e);
            proof {
                assert(pre.take(x as int + 1).drop_last() =~= pre.take(x as int));
                assert(pre.take(x as int + 1).last() == es@[x as int]);
                lemma_cross_with_prefix(pre, e, x as int + 1);
            }
            if c {
                cnt = cnt + 1;
            }
            x = x + 1;
        }
        proof {
            assert(pre.take(y as int) =~= pre);
            let t = es@.take(y as int + 1);
            assert(t.drop_last() =~= pre);
        }
        y = y + 1;
    }
    proof {
        assert(es@.take(es@.len() as int) =~= es@);
    }
    cnt
}

pub proof fn lemma_cross_with_prefix(es: Seq<RowEdge>, e: RowEdge, k: int)
    requires
        0 <= k <= es.len(),
    ensures
        cross_with(es.take(k), e) <= cross_with(es, e),
    decreases es.len(),
{
    if k < es.len() {
        assert(es.drop_last().take(k) =~= es.take(k));
        lemma_cross_with_prefix(es.drop_last(), e, k);
    } else {
        assert(es.take(k) =~= es);
    }
}

/// The number of pairs of edges between units of `row` that cross.
fn inter_crossings_exec(dag: &DAG, row: &Vec<UnitHandle>) -> (r: u128)
    requires
        dag.inter_ready(row@),
    ensures
        r == dag.inter_crossings(row@),
        r <= i128::MAX,
{
    let es = collect_row_edges(dag, row);
    let len = es.len();
    proof {
        assert(es@.len() <= 0xffff_ffff_ffff_ffff) by {
            assert(len <= usize::MAX);
        }
        lemma_crossing_pairs_half(es@);
        let n = es@.len() as int;
        let c = crossing_pairs(es@) as int;
        assert(c <= i128::MAX) by (nonlinear_arith)
            requires 0 <= n <= 0xffff_ffff_ffff_ffff, 2 * c <= n * (n - 1) || n == 0, c >= 0, n == 0 ==> c == 0;
    }
    count_crossing_pairs(&es)
}

/// At most half of the ordered pairs of edges cross.
pub proof fn lemma_crossing_pairs_half(es: Seq<RowEdge>)
    ensures
        2 * crossing_pairs(es) <= es.len() * (es.len() - 1) || es.len() == 0,
        es.len() == 0 ==> crossing_pairs(es) == 0,
    decreases es.len(),
{
    if es.len() > 0 {
        lemma_crossing_pairs_half(es.drop_last());
        lemma_cross_with_bound(es.drop_last(), es.last());
        let n = es.len() as int;
        let c = crossing_pairs(es.drop_last()) as int;
        let w = cross_with(es.drop_last(), es.last()) as int;
        assert(2 * (c + w) <= n * (n - 1)) by (nonlinear_arith)
            requires n >= 1, w <= n - 1, w >= 0, c >= 0, (2 * c <= (n - 1) * (n - 2) || n - 1 == 0), n - 1 == 0 ==> c == 0;
    }
}

/// The change in the number of crossing pairs of edges between units of
/// `row` when the units at `a_idx` and `b_idx` are exchanged. The count
/// after the exchange is taken on the row with the two units exchanged,
/// which is the count on the edges of `row` with the two positions
/// relabelled.
pub(crate) fn optimize_intersubgraph(dag: &DAG, a_idx: usize, b_idx: usize, row: &Vec<UnitHandle>) -> (r: i128)
    requires
        a_idx < row@.len(),
        b_idx < row@.len(),
        dag.inter_ready(row@),
    ensures
        r == dag.inter_crossings(exchange(row@, a_idx as int, b_idx as int)) - dag.inter_crossings(row@),
{
    let cross_old = inter_crossings_exec(dag, row);
    let mut swapped = copy_row(row);
    let a = swapped[a_idx];
    let b = swapped[b_idx];
    swapped[a_idx] = b;
    swapped[b_idx] = a;
    proof {
        assert(swapped@ =~= exchange(row@, a_idx as int, b_idx as int));
        lemma_exchange_multiset(row@, a_idx as int, b_idx as int);
        dag.lemma_inter_ready_perm(swapped@, row@);
    }
    let cross_new = inter_crossings_exec(dag, &swapped);
    (cross_new as i128) - (cross_old as i128)
}

/// `row` with the elements at `x` and `y` exchanged.
pub open spec fn exchange(row: Seq<UnitHandle>, x: int, y: int) -> Seq<UnitHandle> {
    row.update(x, row[y]).update(y, row[x])
}

pub proof fn lemma_exchange_multiset(row: Seq<UnitHandle>, x: int, y: int)
    requires
        0 <= x < row.len(),
        0 <= y < row.len(),
    ensures
        exchange(row, x, y).len() == row.len(),
        exchange(row, x, y).to_multiset() == row.to_multiset(),
{
    let a = row.update(x, row[y]);
    vstd::seq_lib::to_multiset_update(row, x, row[y]);
    vstd::seq_lib::to_multiset_update(a, y, row[x]);
    if x != y {
        assert(a[y] == row[y]);
    }
    row.to_multiset_ensures();
    assert(exchange(row, x, y).to_multiset() =~= row.to_multiset());
}

impl DAG {
    /// Rearranging a row keeps it ready for the count.
    pub proof fn lemma_inter_ready_perm(&self, a: Seq<UnitHandle>, b: Seq<UnitHandle>)
        requires
            a.to_multiset() == b.to_multiset(),
            self.inter_ready(b),
        ensures
            self.inter_ready(a),
    {
        a.to_multiset_ensures();
        b.to_multiset_ensures();
        assert forall|i: int| 0 <= i < a.len() implies #[trigger] self.unit_ready(a[i]) by {
            assert(a.contains(a[i]));
            assert(a.to_multiset().count(a[i]) > 0);
            assert(b.contains(a[i]));
            let j = choose|j: int| 0 <= j < b.len() && b[j] == a[i];
            assert(self.unit_ready(b[j]));
        }
    }
}

pub proof fn lemma_node_units_in(row: Seq<UnitHandle>, q: int)
    requires
        0 <= q < node_units(row).len(),
    ensures
        exists|l: int| 0 <= l < row.len() && row[l] == #[trigger] node_units(row)[q],
    decreases row.len(),
{
    let d = row.drop_last();
    if q < node_units(d).len() {
        lemma_node_units_in(d, q);
        let l = choose|l: int| 0 <= l < d.len() && d[l] == node_units(d)[q];
        assert(row[l] == node_units(row)[q]);
    } else {
        assert(row[row.len() - 1] == node_units(row)[q]);
    }
}

pub proof fn lemma_flat_node_units_in(rows: Seq<Seq<UnitHandle>>, q: int)
    requires
        0 <= q < flat_node_units(rows).len(),
    ensures
        exists|k: int, l: int| 0 <= k < rows.len() && 0 <= l < rows[k].len() && rows[k][l] == #[trigger] flat_node_units(rows)[q],
    decreases rows.len(),
{
    let d = rows.drop_last();
    if q < flat_node_units(d).len() {
        lemma_flat_node_units_in(d, q);
        let (k, l) = choose|k: int, l: int| 0 <= k < d.len() && 0 <= l < d[k].len() && d[k][l] == flat_node_units(d)[q];
        assert(rows[k][l] == flat_node_units(rows)[q]);
    } else {
        let q2 = q - flat_node_units(d).len();
        lemma_node_units_in(rows.last(), q2);
        let l = choose|l: int| 0 <= l < rows.last().len() && rows.last()[l] == node_units(rows.last())[q2];
        assert(rows[rows.len() - 1][l] == flat_node_units(rows)[q]);
    }
}

impl DAG {
    /// With the rows of subgraph `s` rearranged, a unit that has a level
    /// keeps it.
    pub proof fn lemma_level_same(&self, o: &DAG, s: SubgraphHandle, x: UnitHandle)
        requires
            o.wf(),
            self.rows_rearranged(o, s),
            o.has_level(x),
        ensures
            self.has_level(x),
            self.level_of(x) == o.level_of(x),
    {
        self.lemma_same_except_rank_wf(o, s);
        let p = o.parent_of(x);
        assert(self.parent_of(x) == p);
        if p != s {
            assert(self.subgraphs@[p.index() as int].ranks == self.rank_of(p));
            assert(o.rank_of(p).level_map() == self.rank_of(p).level_map());
        }
    }

    /// With the rows of subgraph `s` rearranged, what the count reads of a
    /// unit other than `s` does not change.
    pub proof fn lemma_unit_info_same(&self, o: &DAG, s: SubgraphHandle, u: UnitHandle)
        requires
            o.wf(),
            self.rows_rearranged(o, s),
            o.unit_ready(u),
            u != UnitHandle::Subgraph(s),
        ensures
            self.unit_ready(u),
            self.unit_info(u) == o.unit_info(u),
    {
        self.lemma_same_except_rank_wf(o, s);
        match u {
            UnitHandle::Node(n) => {
                self.lemma_level_same(o, s, u);
                assert(self.preds(n) == o.preds(n));
                assert(self.succs(n) == o.succs(n));
                assert(self.unit_info(u) =~= o.unit_info(u));
            },
            UnitHandle::Subgraph(t) => {
                assert(self.rank_of(t).rows() == o.rank_of(t).rows());
                let rows = o.rank_of(t).rows();
                assert forall|k: int, l: int| 0 <= k < rows.len() && 0 <= l < rows[k].len() implies
                    self.has_level(#[trigger] self.rank_of(t).rows()[k][l]) by {
                    assert(o.has_level(rows[k][l]));
                    self.lemma_level_same(o, s, rows[k][l]);
                }
                let fl = flat_node_units(rows);
                assert forall|q: int| 0 <= q < fl.len() implies
                    (#[trigger] self.unit_nodes(u)[q]) == o.unit_nodes(u)[q] by {
                    lemma_flat_node_units_in(rows, q);
                    let (k, l) = choose|k: int, l: int| 0 <= k < rows.len() && 0 <= l < rows[k].len() && rows[k][l] == fl[q];
                    assert(o.has_level(rows[k][l]));
                    self.lemma_level_same(o, s, fl[q]);
                }
                assert(self.unit_nodes(u) =~= o.unit_nodes(u));
                assert forall|q: int| 0 <= q < self.unit_nodes(u).len() implies
                    (#[trigger] self.unit_info(u)[q]) == o.unit_info(u)[q] by {
                    let nd = self.unit_nodes(u)[q].0;
                    assert(self.preds(nd) == o.preds(nd));
                    assert(self.succs(nd) == o.succs(nd));
                }
                assert(self.unit_info(u) =~= o.unit_info(u));
            },
        }
    }

    /// With the rows of subgraph `s` rearranged, the count on a row that
    /// does not hold `s` does not change, and the row stays ready for it.
    pub proof fn lemma_inter_same(&self, o: &DAG, s: SubgraphHandle, row: Seq<UnitHandle>)
        requires
            o.wf(),
            self.rows_rearranged(o, s),
            o.inter_ready(row),
            !row.contains(UnitHandle::Subgraph(s)),
        ensures
            self.inter_ready(row),
            self.row_info(row) == o.row_info(row),
            self.inter_crossings(row) == o.inter_crossings(row),
    {
        assert forall|i: int| 0 <= i < row.len() implies #[trigger] self.unit_ready(row[i]) && self.unit_info(row[i]) == o.unit_info(row[i]) by {
            assert(o.unit_ready(row[i]));
            self.lemma_unit_info_same(o, s, row[i]);
        }
        assert forall|i: int| 0 <= i < row.len() implies #[trigger] self.row_info(row)[i] == o.row_info(row)[i] by {
            assert(self.unit_ready(row[i]));
        }
        assert(self.row_info(row) =~= o.row_info(row));
    }
}

impl DAG {
    /// A pass over a row exchanges the neighbours at `k` and `k + 1` of `r`
    /// when that lowers the number of crossing pairs of edges.
    pub open(crate) spec fn inter_swaps_at(&self, r: Seq<UnitHandle>, k: int) -> bool {
        self.inter_crossings(exchange(r, k, k + 1)) < self.inter_crossings(r)
    }

    /// `row` after the first `i` steps of such a pass.
    pub open(crate) spec fn inter_pass_row(&self, row: Seq<UnitHandle>, i: nat) -> Seq<UnitHandle>
        decreases i,
    {
        if i == 0 {
            row
        } else {
            let r = self.inter_pass_row(row, (i - 1) as nat);
            if self.inter_swaps_at(r, i - 1) { exchange(r, i - 1, i as int) } else { r }
        }
    }

    /// Whether one of the first `i` steps of such a pass exchanged two units.
    pub open(crate) spec fn inter_pass_changed(&self, row: Seq<UnitHandle>, i: nat) -> bool
        decreases i,
    {
        if i == 0 {
            false
        } else {
            self.inter_pass_changed(row, (i - 1) as nat) || self.inter_swaps_at(self.inter_pass_row(row, (i - 1) as nat), i - 1)
        }
    }

    /// Whether a pass over `row` would exchange two units.
    pub open(crate) spec fn inter_would_change(&self, row: Seq<UnitHandle>) -> bool {
        row.len() >= 2 && self.inter_pass_changed(row, (row.len() - 1) as nat)
    }

    /// A pass keeps the units of the row and never adds crossing pairs; it
    /// removes some when it exchanges two units.
    pub proof fn lemma_inter_pass_row(&self, row: Seq<UnitHandle>, i: nat)
        requires
            i < row.len(),
        ensures
            self.inter_pass_row(row, i).len() == row.len(),
            self.inter_pass_row(row, i).to_multiset() == row.to_multiset(),
            self.inter_crossings(self.inter_pass_row(row, i)) <= self.inter_crossings(row),
            self.inter_pass_changed(row, i) ==> self.inter_crossings(self.inter_pass_row(row, i)) < self.inter_crossings(row),
            !self.inter_pass_changed(row, i) ==> self.inter_pass_row(row, i) == row,
        decreases i,
    {
        if i > 0 {
            self.lemma_inter_pass_row(row, (i - 1) as nat);
            let r = self.inter_pass_row(row, (i - 1) as nat);
            lemma_exchange_multiset(r, i - 1, i as int);
        }
    }

    /// The rows of subgraph `s` can be reordered by inter-subgraph passes.
    pub open(crate) spec fn can_swap_inter(&self, s: SubgraphHandle) -> bool {
        &&& self.wf()
        &&& self.subgraph_valid(s)
        &&& forall|i: int| 0 <= i < self.rank_of(s).rows().len() ==> {
            &&& self.inter_ready(#[trigger] self.rank_of(s).rows()[i])
            &&& !self.rank_of(s).rows()[i].contains(UnitHandle::Subgraph(s))
        }
    }

    /// The crossing pairs of each row of `rows`, summed.
    pub open(crate) spec fn inter_measure(&self, rows: Seq<Seq<UnitHandle>>) -> nat
        decreases rows.len(),
    {
        if rows.len() == 0 {
            0
        } else {
            self.inter_measure(rows.drop_last()) + self.inter_crossings(rows.last())
        }
    }

    pub proof fn lemma_inter_measure_update(&self, rows: Seq<Seq<UnitHandle>>, i: int, x: Seq<UnitHandle>)
        requires
            0 <= i < rows.len(),
        ensures
            self.inter_measure(rows.update(i, x)) + self.inter_crossings(rows[i]) == self.inter_measure(rows) + self.inter_crossings(x),
        decreases rows.len(),
    {
        let u = rows.update(i, x);
        if i < rows.len() - 1 {
            assert(u.drop_last() =~= rows.drop_last().update(i, x));
            self.lemma_inter_measure_update(rows.drop_last(), i, x);
        } else {
            assert(u.drop_last() =~= rows.drop_last());
        }
    }

    /// Rearranging the rows of `s` keeps them ready for inter-subgraph
    /// passes.
    pub proof fn lemma_inter_keeps(&self, o: &DAG, s: SubgraphHandle)
        requires
            o.can_swap_inter(s),
            self.rows_rearranged(o, s),
        ensures
            self.can_swap_inter(s),
            forall|i: int| 0 <= i < self.rank_of(s).rows().len() ==> {
                &&& o.inter_ready(#[trigger] self.rank_of(s).rows()[i])
                &&& !self.rank_of(s).rows()[i].contains(UnitHandle::Subgraph(s))
                &&& self.inter_crossings(self.rank_of(s).rows()[i]) == o.inter_crossings(self.rank_of(s).rows()[i])
            },
    {
        self.lemma_same_except_rank_wf(o, s);
        assert forall|i: int| 0 <= i < self.rank_of(s).rows().len() implies {
            &&& o.inter_ready(#[trigger] self.rank_of(s).rows()[i])
            &&& !self.rank_of(s).rows()[i].contains(UnitHandle::Subgraph(s))
            &&& self.inter_crossings(self.rank_of(s).rows()[i]) == o.inter_crossings(self.rank_of(s).rows()[i])
            &&& self.inter_ready(self.rank_of(s).rows()[i])
        } by {
            let x = self.rank_of(s).rows()[i];
            let y = o.rank_of(s).rows()[i];
            assert(o.inter_ready(y) && !y.contains(UnitHandle::Subgraph(s)));
            o.lemma_inter_ready_perm(x, y);
            x.to_multiset_ensures();
            y.to_multiset_ensures();
            if x.contains(UnitHandle::Subgraph(s)) {
                assert(x.to_multiset().count(UnitHandle::Subgraph(s)) > 0);
                assert(y.contains(UnitHandle::Subgraph(s)));
            }
            self.lemma_inter_same(o, s, x);
        }
    }
}

/// Whether the count can be taken on unit `u`.
pub fn unit_ready_exec(dag: &DAG, u: UnitHandle) -> (r: bool)
    ensures
        r == dag.unit_ready(u),
{
    match u {
        UnitHandle::Node(_) => has_level_check(dag, u),
        UnitHandle::Subgraph(t) => {
            if t.idx >= dag.subgraphs.len() {
                return false;
            }
            let h = dag.num_levels_subgraph(t);
            let mut k: usize = 0;
            while k < h
                invariant
                    dag.subgraph_valid(t),
                    u == UnitHandle::Subgraph(t),
                    h == dag.rank_of(t).rows().len(),
                    k <= h,
                    forall|a: int, b: int| 0 <= a < k && 0 <= b < dag.rank_of(t).rows()[a].len() ==>
                        dag.has_level(#[trigger] dag.rank_of(t).rows()[a][b]),
                decreases h - k,
            {
                let row = dag.row_subgraph(t, k);
                let mut l: usize = 0;
                while l < row.len()
                    invariant
                        dag.subgraph_valid(t),
                        u == UnitHandle::Subgraph(t),
                        h == dag.rank_of(t).rows().len(),
                        k < h,
                        row@ == dag.rank_of(t).rows()[k as int],
                        l <= row@.len(),
                        forall|a: int, b: int| 0 <= a < k && 0 <= b < dag.rank_of(t).rows()[a].len() ==>
                            dag.has_level(#[trigger] dag.rank_of(t).rows()[a][b]),
                        forall|b: int| 0 <= b < l ==> dag.has_level(#[trigger] dag.rank_of(t).rows()[k as int][b]),
                    decreases row@.len() - l,
                {
                    if !has_level_check(dag, row[l]) {
                        proof {
                            assert(dag.rank_of(t).rows()[k as int][l as int] == row@[l as int]);
                            assert(!dag.has_level(dag.rank_of(u->Subgraph_0).rows()[k as int][l as int]));
                        }
                        return false;
                    }
                    l = l + 1;
                }
                k = k + 1;
            }
            true
        },
    }
}

/// Whether `u` has a level in the rank of its subgraph.
pub fn has_level_check(dag: &DAG, u: UnitHandle) -> (r: bool)
    ensures
        r == dag.has_level(u),
{
    let valid = match u {
        UnitHandle::Node(n) => n.idx < dag.nodes.len(),
        UnitHandle::Subgraph(t) => t.idx < dag.subgraphs.len(),
    };
    if !valid {
        return false;
    }
    let p = dag.subgraph_from_unit_handle(u);
    if p.idx >= dag.subgraphs.len() {
        return false;
    }
    dag.subgraphs[p.idx].ranks.levels.contains(u)
}

} // verus!
