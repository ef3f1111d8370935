//! The control-flow graph: vertices, edges, overlap resolution.

use vstd::prelude::*;

use itertools::Itertools;

use crate::base::{first_instr_pos, has_instr_at, lemma_first_instr_pos, Addressable, Block,
    ForeignInfo, Instr};
use crate::storage::{dset, edge_add, edge_dests, has_key, lemma_dset_push, lemma_map_of_dom,
    map_of, push_missing, retarget_map, retarget_set, EdgeMap, VertMap};
use crate::trace::{trailing_foreign, Bb, TraceStmt};

verus! {

/// A graph vertex payload: either a basic block or a foreign marker.
#[derive(Debug)]
pub enum NodeBase<B, F> {
    Block(B),
    Foreign(F),
}

pub type Node = NodeBase<Block, ForeignInfo>;

/// A vertex of the graph under construction.
#[derive(Debug)]
pub struct VisitingNode {
    pub node: Node,
}

/// The mathematical content of a vertex: the instruction sequence of a
/// block, or the foreign marker itself.
pub ghost enum NodeModel {
    Block(Seq<Instr>),
    Foreign(ForeignInfo),
}

impl View for VisitingNode {
    type V = NodeModel;

    open spec fn view(&self) -> NodeModel {
        match self.node {
            NodeBase::Block(b) => NodeModel::Block(b.instrs@),
            NodeBase::Foreign(f) => NodeModel::Foreign(f),
        }
    }
}

impl VisitingNode {
    pub fn from_node(n: Node) -> (r: VisitingNode)
        ensures
            r.node == n,
    {
        VisitingNode { node: n }
    }
}

impl Addressable for VisitingNode {
    open spec fn spec_addr(&self) -> Option<usize> {
        match self.node {
            NodeBase::Block(b) => b.spec_addr(),
            NodeBase::Foreign(f) => f.spec_addr(),
        }
    }

    fn addr(&self) -> (r: Option<usize>) {
        match &self.node {
            NodeBase::Block(b) => b.addr(),
            NodeBase::Foreign(f) => f.addr(),
        }
    }
}

/// The mathematical content of the whole graph.
#[verifier::ext_equal]
pub ghost struct CfgModel {
    pub verts: Map<usize, NodeModel>,
    pub edges: Map<usize, Set<usize>>,
}

/// The graph: vertices keyed and ordered by address, edges as a map
/// from source address to the set of destination addresses.
#[derive(Debug)]
pub struct Cfg {
    pub verts: VertMap,
    pub edges: EdgeMap,
}

impl View for Cfg {
    type V = CfgModel;

    open spec fn view(&self) -> CfgModel {
        CfgModel { verts: self.verts@, edges: self.edges@ }
    }
}

impl NodeModel {
    /// The instruction sequence of a block vertex (empty for a foreign
    /// marker).
    pub open spec fn block_instrs(self) -> Seq<Instr> {
        match self {
            NodeModel::Block(s) => s,
            NodeModel::Foreign(_) => Seq::empty(),
        }
    }
}

/// Every vertex is keyed by its own address: a block by the address of
/// its first instruction, a foreign marker by its target address.
pub open spec fn vert_keys_ok(verts: Map<usize, NodeModel>) -> bool {
    forall|k: usize|
        #[trigger] verts.dom().contains(k) ==> match verts[k] {
            NodeModel::Block(instrs) => instrs.len() > 0 && instrs[0].addr == k,
            NodeModel::Foreign(f) => f.foreign_addr == k,
        }
}

/// `p` is the greatest address of `dom` strictly below `a`.
pub open spec fn is_pred(dom: Set<usize>, a: usize, p: usize) -> bool {
    dom.contains(p) && p < a && (forall|q: usize| dom.contains(q) && q < a ==> q <= p)
}

pub open spec fn has_pred(dom: Set<usize>, a: usize) -> bool {
    exists|p: usize| is_pred(dom, a, p)
}

pub open spec fn pred_of(dom: Set<usize>, a: usize) -> usize {
    choose|p: usize| is_pred(dom, a, p)
}

/// Whether the edge `x -> y` is recorded in `e`.
pub open spec fn has_edge(e: Map<usize, Set<usize>>, x: usize, y: usize) -> bool {
    e.dom().contains(x) && e[x].contains(y)
}

/// Whether a split at `a` would find work: the vertex owning `a` (the
/// one with the greatest address strictly below it) is a basic block
/// with an instruction exactly at `a`.
pub open spec fn splits_block(m: CfgModel, a: usize) -> bool {
    has_pred(m.verts.dom(), a) && match m.verts[pred_of(m.verts.dom(), a)] {
        NodeModel::Block(instrs) => has_instr_at(instrs, a),
        NodeModel::Foreign(_) => false,
    }
}

/// Why a split failed: no vertex owns the address, or the owner is a
/// foreign marker, which is atomic.
#[derive(Debug)]
pub enum SplitError {
    NotFound,
    Unsplittable,
}

/// Whether a split at `a` succeeds: some vertex owns `a` and it is a
/// basic block (a foreign marker is unsplittable, a missing owner is an
/// error).
pub open spec fn split_ok(m: CfgModel, a: usize) -> bool {
    has_pred(m.verts.dom(), a) && m.verts[pred_of(m.verts.dom(), a)] is Block
}

/// The graph after a split at `a`.  When `a` is no exact instruction
/// boundary inside the owning block, nothing changes.  Otherwise the
/// owner `p` keeps the instructions before `a` and all incoming edges,
/// a new vertex at `a` takes the rest of the instructions and `p`'s
/// outgoing edges, and a fallthrough edge `p -> a` is added.
pub open spec fn split_model(m: CfgModel, a: usize) -> CfgModel {
    if splits_block(m, a) {
        let p = pred_of(m.verts.dom(), a);
        let instrs = m.verts[p].block_instrs();
        let i = first_instr_pos(instrs, a);
        CfgModel {
            verts: m.verts.insert(p, NodeModel::Block(instrs.take(i))).insert(
                a,
                NodeModel::Block(instrs.skip(i)),
            ),
            edges: m.edges.insert(p, Set::empty().insert(a)).insert(
                a,
                edge_dests(m.edges, a).union(edge_dests(m.edges, p)),
            ),
        }
    } else {
        m
    }
}

/// A split at an address that is no exact instruction boundary inside
/// an existing vertex leaves vertices and edges unchanged.
pub proof fn lemma_split_noop(m: CfgModel, a: usize)
    requires
        !splits_block(m, a),
    ensures
        split_model(m, a) == m,
{
}

/// On a successful split of the vertex `p` owning `a`: the two parts
/// carry exactly `p`'s original instructions; every edge into `p` from
/// elsewhere stays; every outgoing edge of `p` moves to the new vertex
/// at `a`; and the fallthrough edge `p -> a` is the only edge leaving
/// `p`.
pub proof fn lemma_split_rewiring(m: CfgModel, a: usize)
    requires
        splits_block(m, a),
    ensures
        ({
            let p = pred_of(m.verts.dom(), a);
            let orig = m.verts[p].block_instrs();
            let m2 = split_model(m, a);
            &&& m2.verts.dom().contains(p)
            &&& m2.verts.dom().contains(a)
            &&& m2.verts[p] is Block
            &&& m2.verts[a] is Block
            &&& m2.verts[p].block_instrs() + m2.verts[a].block_instrs() == orig
            &&& m2.verts[p].block_instrs().len() + m2.verts[a].block_instrs().len()
                == orig.len()
            &&& forall|x: usize, y: usize|
                x != p && has_edge(m.edges, x, y) ==> has_edge(m2.edges, x, y)
            &&& forall|y: usize| has_edge(m.edges, p, y) ==> has_edge(m2.edges, a, y)
            &&& has_edge(m2.edges, p, a)
            &&& forall|y: usize| y != a ==> !has_edge(m2.edges, p, y)
        }),
{
    let p = pred_of(m.verts.dom(), a);
    let orig = m.verts[p].block_instrs();
    let i = first_instr_pos(orig, a);
    let m2 = split_model(m, a);
    lemma_first_instr_pos(orig, a);
    assert(p != a);
    assert(orig.take(i) + orig.skip(i) =~= orig);
    assert forall|x: usize, y: usize|
        x != p && has_edge(m.edges, x, y) implies has_edge(m2.edges, x, y) by {
        if x == a {
            assert(m2.edges[a].contains(y));
        }
    }
    assert forall|y: usize| has_edge(m.edges, p, y) implies has_edge(m2.edges, a, y) by {
        assert(edge_dests(m.edges, p).contains(y));
    }
    assert(m2.edges[p].contains(a));
}


/// A successful split adds exactly one vertex when the split address
/// was not yet a vertex of its own, and none when it was.
pub proof fn lemma_split_vertex_count(m: CfgModel, a: usize)
    requires
        splits_block(m, a),
        m.verts.dom().finite(),
    ensures
        !m.verts.dom().contains(a) ==> split_model(m, a).verts.dom().len() == m.verts.dom().len()
            + 1,
        m.verts.dom().contains(a) ==> split_model(m, a).verts.dom().len()
            == m.verts.dom().len(),
{
    let p = pred_of(m.verts.dom(), a);
    assert(is_pred(m.verts.dom(), a, p));
    let m2 = split_model(m, a);
    assert(m2.verts.dom() =~= m.verts.dom().insert(a));
    vstd::set::axiom_set_insert_len(m.verts.dom(), a);
}

/// Every edge endpoint refers to a live vertex.
pub open spec fn edges_closed(m: CfgModel) -> bool {
    forall|x: usize, y: usize|
        #[trigger] has_edge(m.edges, x, y) ==> m.verts.dom().contains(x)
            && m.verts.dom().contains(y)
}

/// A split keeps every edge endpoint on a live vertex: the only new
/// endpoints are the two halves, and both are vertices afterwards.
pub proof fn lemma_split_keeps_edges_closed(m: CfgModel, a: usize)
    requires
        edges_closed(m),
    ensures
        edges_closed(split_model(m, a)),
{
    if splits_block(m, a) {
        let p = pred_of(m.verts.dom(), a);
        let m2 = split_model(m, a);
        assert forall|x: usize, y: usize| #[trigger] has_edge(m2.edges, x, y)
            implies m2.verts.dom().contains(x) && m2.verts.dom().contains(y) by {
            if x == p {
                assert(y == a);
            } else if x == a {
                if edge_dests(m.edges, a).contains(y) {
                    assert(has_edge(m.edges, a, y));
                } else {
                    assert(edge_dests(m.edges, p).contains(y));
                    assert(has_edge(m.edges, p, y));
                }
            } else {
                assert(has_edge(m.edges, x, y));
            }
        }
    }
}

pub proof fn lemma_fold_split_keeps_edges_closed(m: CfgModel, ds: Seq<usize>)
    requires
        edges_closed(m),
    ensures
        edges_closed(fold_split(m, ds)),
    decreases ds.len(),
{
    if ds.len() > 0 {
        lemma_split_keeps_edges_closed(m, ds[0]);
        lemma_fold_split_keeps_edges_closed(split_model(m, ds[0]), ds.drop_first());
    }
}

/// Both endpoints of every edge of the initial graph are vertex
/// addresses: the edges only ever join temporally adjacent vertices.
pub proof fn lemma_initial_model_edges_closed(bbs: Seq<Bb>)
    ensures
        edges_closed(initial_model(bbs)),
{
    let addrs = addrs_of(bbs);
    let verts = map_of(nodes_of(bbs));
    lemma_map_of_dom(nodes_of(bbs));
    lemma_edges_of_endpoints(addrs);
    assert forall|x: usize, y: usize| #[trigger] has_edge(edges_of(addrs), x, y)
        implies verts.dom().contains(x) && verts.dom().contains(y) by {
        let i = choose|i: int| 0 <= i < addrs.len() && addrs[i] == x;
        assert(nodes_of(bbs)[i].0 == x);
        assert(has_key(nodes_of(bbs), x));
        let j = choose|j: int| 0 <= j < addrs.len() && addrs[j] == y;
        assert(nodes_of(bbs)[j].0 == y);
        assert(has_key(nodes_of(bbs), y));
    }
}

/// Every endpoint of the temporal-adjacency edges occurs in the
/// address list.
pub proof fn lemma_edges_of_endpoints(addrs: Seq<usize>)
    ensures
        forall|x: usize, y: usize|
            #[trigger] has_edge(edges_of(addrs), x, y) ==> addrs.contains(x)
                && addrs.contains(y),
    decreases addrs.len(),
{
    if addrs.len() >= 2 {
        let d = addrs.drop_last();
        lemma_edges_of_endpoints(d);
        let e0 = edges_of(d);
        let sx = addrs[addrs.len() - 2];
        let sy = addrs[addrs.len() - 1];
        assert forall|x: usize, y: usize| #[trigger] has_edge(edges_of(addrs), x, y)
            implies addrs.contains(x) && addrs.contains(y) by {
            assert(edges_of(addrs) == edge_add(e0, sx, sy));
            if x == sx {
                assert(addrs[addrs.len() - 2] == x);
                if y == sy {
                    assert(addrs[addrs.len() - 1] == y);
                } else {
                    assert(edge_dests(e0, sx).contains(y));
                    assert(has_edge(e0, sx, y));
                    assert(d.contains(y));
                    let j = choose|j: int| 0 <= j < d.len() && d[j] == y;
                    assert(addrs[j] == y);
                }
            } else {
                assert(has_edge(e0, x, y));
                assert(d.contains(x) && d.contains(y));
                let i = choose|i: int| 0 <= i < d.len() && d[i] == x;
                assert(addrs[i] == x);
                let j = choose|j: int| 0 <= j < d.len() && d[j] == y;
                assert(addrs[j] == y);
            }
        }
    }
}

/// Merging a source vertex into a live target keeps every edge
/// endpoint on a live vertex.
pub proof fn lemma_merge_keeps_edges_closed(m: CfgModel, f: usize, t: usize)
    requires
        edges_closed(m),
        m.verts.dom().contains(t),
        f != t,
    ensures
        edges_closed(merge_model(m, seq![(f, t)])),
{
    let pairs = seq![(f, t)];
    assert(pairs.drop_last() =~= Seq::<(usize, usize)>::empty());
    assert(pairs.last() == (f, t));
    assert(merge_phase1(m, Seq::<(usize, usize)>::empty()) == m);
    let m1 = merge_phase1(m, pairs);
    assert(merge_phase2(m1, Seq::<(usize, usize)>::empty()) == m1);
    let m2 = merge_model(m, pairs);
    assert(m2.verts == m.verts.remove(f));
    assert(m2.edges == retarget_map(m1.edges, f, t));
    assert forall|x: usize, y: usize| #[trigger] has_edge(m2.edges, x, y)
        implies m2.verts.dom().contains(x) && m2.verts.dom().contains(y) by {
        assert(m1.edges.dom().contains(x));
        assert(m2.edges[x] == retarget_set(m1.edges[x], f, t));
        assert(x != f);
        let z: usize = if m1.edges[x].contains(f) {
            f
        } else {
            y
        };
        assert(m1.edges[x].contains(z)) by {
            if !m1.edges[x].contains(f) {
                assert(m2.edges[x] == m1.edges[x]);
            }
        }
        if m.edges.dom().contains(f) && x == t {
            assert(m1.edges[x] == m.edges[f]);
            assert(has_edge(m.edges, f, z));
            assert(m2.verts.dom().contains(x));
            if y != t {
                assert(m1.edges[x].contains(y) && y != f);
                assert(has_edge(m.edges, f, y));
                assert(m2.verts.dom().contains(y));
            }
        } else {
            assert(m1.edges[x] == m.edges[x]);
            assert(has_edge(m.edges, x, z));
            assert(m2.verts.dom().contains(x));
            if y != t {
                assert(m1.edges[x].contains(y) && y != f);
                assert(has_edge(m.edges, x, y));
                assert(m2.verts.dom().contains(y));
            }
        }
        if y == t {
            assert(m2.verts.dom().contains(y));
        }
    }
}

impl Cfg {
    /// Structural soundness: both containers are well formed and every
    /// vertex is keyed by its own address.
    pub open spec fn wf(&self) -> bool {
        &&& self.verts.wf()
        &&& self.edges.wf()
        &&& vert_keys_ok(self.verts@)
    }

    /// Insert a block vertex, keyed by the address of its first
    /// instruction.
    fn insert_block(&mut self, block: Block)
        requires
            old(self).verts.wf(),
            block.instrs@.len() > 0,
        ensures
            final(self).verts.wf(),
            final(self).verts@ == old(self).verts@.insert(
                block.instrs@[0].addr,
                NodeModel::Block(block.instrs@),
            ),
            final(self).edges == old(self).edges,
    {
        let addr = block.addr().unwrap();
        self.verts.insert(addr, VisitingNode::from_node(NodeBase::Block(block)));
    }

    /// Split the vertex owning `addr` (the one with the greatest
    /// address strictly below it) at `addr`.  Fails when no vertex
    /// owns the address or the owner is a foreign marker; succeeds as
    /// a no-op when the owner holds no instruction exactly at `addr`.
    pub fn split(&mut self, addr: usize) -> (r: Result<(), SplitError>)
        requires
            old(self).wf(),
        ensures
            final(self).wf(),
            final(self)@ == split_model(old(self)@, addr),
            r is Ok <==> split_ok(old(self)@, addr),
            r == Err::<(), SplitError>(SplitError::NotFound) <==> !has_pred(
                old(self)@.verts.dom(),
                addr,
            ),
    {
        let ghost m = old(self)@;
        let ghost dom = m.verts.dom();
        let t = match self.verts.pred_below(addr) {
            None => {
                proof {
                    if has_pred(dom, addr) {
                        let p = choose|p: usize| is_pred(dom, addr, p);
                    }
                }
                return Err(SplitError::NotFound);
            },
            Some(t) => t,
        };
        proof {
            assert(is_pred(dom, addr, t));
            assert(has_pred(dom, addr));
            let t2 = pred_of(dom, addr);
            assert(is_pred(dom, addr, t2));
            assert(t2 <= t && t <= t2);
        }
        let prev = self.verts.remove(t).unwrap();
        let prev = match prev.node {
            NodeBase::Block(bb) => bb,
            NodeBase::Foreign(f) => {
                self.verts.insert(t, VisitingNode::from_node(NodeBase::Foreign(f)));
                proof {
                    assert(final(self).verts@ =~= m.verts);
                    assert(final(self)@ =~= m);
                }
                return Err(SplitError::Unsplittable);
            },
        };
        proof {
            assert(m.verts[t] == NodeModel::Block(prev.instrs@));
            assert(prev.instrs@.len() > 0 && prev.instrs@[0].addr == t);
            lemma_first_instr_pos(prev.instrs@, addr);
        }
        match prev.split(addr) {
            Ok((block1, block2)) => {
                let ghost i = first_instr_pos(m.verts[t].block_instrs(), addr);
                proof {
                    assert(i >= 1) by {
                        assert(prev.instrs@[0].addr == t && t != addr);
                    }
                    assert(block1.instrs@[0] == prev.instrs@[0]);
                }
                let b1 = block1.addr().unwrap();
                let b2 = block2.addr().unwrap();
                proof {
                    assert(b1 == t);
                    assert(b2 == addr);
                }
                self.insert_block(block1);
                self.insert_block(block2);

                let set = self.edges.take_src(b1);
                let mut fall: Vec<usize> = Vec::new();
                fall.push(b2);
                proof {
                    assert(fall@ =~= Seq::<usize>::empty().push(b2));
                    lemma_dset_push(Seq::<usize>::empty(), b2);
                    assert(dset(Seq::<usize>::empty()) =~= Set::<usize>::empty());
                }
                self.edges.set_src(b1, fall);

                let mut combined = self.edges.take_src(b2);
                push_missing(&mut combined, &set);
                self.edges.set_src(b2, combined);
                proof {
                    assert(splits_block(m, addr));
                    assert(final(self).verts@ =~= split_model(m, addr).verts);
                    assert(edge_dests(m.edges.remove(b1).insert(b1, Set::empty().insert(b2)), b2)
                        =~= edge_dests(m.edges, b2));
                    assert(final(self).edges@ =~= split_model(m, addr).edges);
                    assert(final(self)@ =~= split_model(m, addr));
                    assert(vert_keys_ok(final(self).verts@)) by {
                        assert forall|k: usize| #[trigger] final(self).verts@.dom().contains(k)
                            implies match final(self).verts@[k] {
                            NodeModel::Block(instrs) => instrs.len() > 0 && instrs[0].addr == k,
                            NodeModel::Foreign(f) => f.foreign_addr == k,
                        } by {
                            if k == b2 {
                                assert(final(self).verts@[k] == NodeModel::Block(
                                    prev.instrs@.skip(i),
                                ));
                            } else if k == b1 {
                                assert(final(self).verts@[k] == NodeModel::Block(
                                    prev.instrs@.take(i),
                                ));
                                assert(prev.instrs@.take(i)[0].addr == b1);
                            } else {
                                assert(m.verts.dom().contains(k));
                            }
                        }
                    }
                }
                Ok(())
            },
            Err(b) => {
                self.insert_block(b);
                proof {
                    assert(final(self).verts@ =~= m.verts);
                    assert(final(self)@ =~= m);
                    assert(!splits_block(m, addr));
                }
                Ok(())
            },
        }
    }
}

/// Whether the vertex at `x` was discovered inside the instruction
/// range of its immediate predecessor: the overlap that a back-edge
/// leaves behind and a split resolves.
pub open spec fn is_overlap(m: CfgModel, x: usize) -> bool {
    m.verts.dom().contains(x) && splits_block(m, x)
}

/// `ds` lists exactly the overlapping addresses of `m`, in increasing
/// order.
pub open spec fn overlap_seq(m: CfgModel, ds: Seq<usize>) -> bool {
    &&& forall|i: int, j: int| 0 <= i < j < ds.len() ==> ds[i] < ds[j]
    &&& forall|x: usize| ds.contains(x) <==> is_overlap(m, x)
}

/// The graph after splitting at each address of `ds` in turn.
pub open spec fn fold_split(m: CfgModel, ds: Seq<usize>) -> CfgModel
    decreases ds.len(),
{
    if ds.len() == 0 {
        m
    } else {
        fold_split(split_model(m, ds[0]), ds.drop_first())
    }
}

pub proof fn lemma_fold_split_push(m: CfgModel, ds: Seq<usize>, x: usize)
    ensures
        fold_split(m, ds.push(x)) == split_model(fold_split(m, ds), x),
    decreases ds.len(),
{
    if ds.len() == 0 {
        assert(ds.push(x)[0] == x);
        assert(ds.push(x).drop_first() =~= Seq::<usize>::empty());
        assert(fold_split(split_model(m, x), Seq::<usize>::empty()) == split_model(m, x));
        assert(fold_split(m, Seq::<usize>::empty()) == m);
        assert(fold_split(m, ds.push(x)) == fold_split(
            split_model(m, x),
            Seq::<usize>::empty(),
        ));
    } else {
        assert(ds.push(x)[0] == ds[0]);
        assert(ds.push(x).drop_first() =~= ds.drop_first().push(x));
        lemma_fold_split_push(split_model(m, ds[0]), ds.drop_first(), x);
        assert(fold_split(m, ds.push(x)) == fold_split(
            split_model(m, ds[0]),
            ds.drop_first().push(x),
        ));
        assert(fold_split(m, ds) == fold_split(split_model(m, ds[0]), ds.drop_first()));
    }
}

/// The vertex entries contributed by one segmented block: the block
/// itself, then the foreign marker its last statement carries, if any.
pub open spec fn node_entries_of(b: Bb) -> Seq<(usize, NodeModel)> {
    let blk = (bb_addr(b), bb_node(b));
    match trailing_foreign(b.stmts@) {
        Some(f) => seq![blk, (f.foreign_addr, NodeModel::Foreign(f))],
        None => seq![blk],
    }
}

/// The address of a segmented block: that of its first statement.
pub open spec fn bb_addr(b: Bb) -> usize {
    b.stmts@[0].addr
}

/// The vertex a segmented block becomes.
pub open spec fn bb_node(b: Bb) -> NodeModel {
    NodeModel::Block(b.stmts@.map_values(|t: TraceStmt| t.as_instr()))
}

/// All vertex entries of the segmented trace, in trace order.
pub open spec fn nodes_of(bbs: Seq<Bb>) -> Seq<(usize, NodeModel)>
    decreases bbs.len(),
{
    if bbs.len() == 0 {
        Seq::empty()
    } else {
        nodes_of(bbs.drop_last()) + node_entries_of(bbs.last())
    }
}

/// The vertex addresses in trace order.
pub open spec fn addrs_of(bbs: Seq<Bb>) -> Seq<usize> {
    nodes_of(bbs).map_values(|p: (usize, NodeModel)| p.0)
}

/// The edge map recording one edge per temporally adjacent pair of
/// vertices.
pub open spec fn edges_of(addrs: Seq<usize>) -> Map<usize, Set<usize>>
    decreases addrs.len(),
{
    if addrs.len() < 2 {
        Map::empty()
    } else {
        edge_add(
            edges_of(addrs.drop_last()),
            addrs[addrs.len() - 2],
            addrs[addrs.len() - 1],
        )
    }
}

/// The graph before overlap resolution: vertices keyed by address
/// (a reappearing address keeps its latest vertex) and edges between
/// temporal neighbours.
pub open spec fn initial_model(bbs: Seq<Bb>) -> CfgModel {
    CfgModel {
        verts: map_of(nodes_of(bbs)),
        edges: edges_of(addrs_of(bbs)),
    }
}

/// Relies on itertools' `tuple_windows`: the consecutive pairs of the
/// input, in order.
#[verifier::external_body]
fn adjacent_pairs(v: &Vec<usize>) -> (r: Vec<(usize, usize)>)
    ensures
        r@.len() == (if v@.len() < 2 { 0int } else { v@.len() - 1 }),
        forall|i: int| 0 <= i < r@.len() ==> r@[i] == (v@[i], v@[i + 1]),
{
    v.iter().cloned().tuple_windows().collect()
}

/// The graph after the first merge phase: each listed source vertex is
/// removed and its outgoing edge set, if any, is stored at its target,
/// replacing what the target had.
pub open spec fn merge_phase1(m: CfgModel, pairs: Seq<(usize, usize)>) -> CfgModel
    decreases pairs.len(),
{
    if pairs.len() == 0 {
        m
    } else {
        let m1 = merge_phase1(m, pairs.drop_last());
        let f = pairs.last().0;
        let t = pairs.last().1;
        CfgModel {
            verts: m1.verts.remove(f),
            edges: if m1.edges.dom().contains(f) {
                m1.edges.remove(f).insert(t, m1.edges[f])
            } else {
                m1.edges
            },
        }
    }
}

/// The graph after the second merge phase: every edge destination
/// equal to a listed source is rewritten to its target, pair by pair.
pub open spec fn merge_phase2(m: CfgModel, pairs: Seq<(usize, usize)>) -> CfgModel
    decreases pairs.len(),
{
    if pairs.len() == 0 {
        m
    } else {
        let m1 = merge_phase2(m, pairs.drop_last());
        CfgModel { verts: m1.verts, edges: retarget_map(m1.edges, pairs.last().0, pairs.last().1) }
    }
}

/// The graph after merging each pair's source vertex into its target.
pub open spec fn merge_model(m: CfgModel, pairs: Seq<(usize, usize)>) -> CfgModel {
    merge_phase2(merge_phase1(m, pairs), pairs)
}

/// After merging `f` into `t`, the source vertex is gone -- and only
/// it: no vertex is created -- and no edge source or destination
/// refers to `f` any more.
pub proof fn lemma_merge_removes_source(m: CfgModel, f: usize, t: usize)
    requires
        f != t,
    ensures
        ({
            let m2 = merge_model(m, seq![(f, t)]);
            &&& m2.verts == m.verts.remove(f)
            &&& !m2.verts.dom().contains(f)
            &&& !m2.edges.dom().contains(f)
            &&& forall|s: usize|
                #[trigger] m2.edges.dom().contains(s) ==> !m2.edges[s].contains(f)
        }),
{
    let pairs = seq![(f, t)];
    assert(pairs.drop_last() =~= Seq::<(usize, usize)>::empty());
    assert(pairs.last() == (f, t));
    let m1 = merge_phase1(m, pairs);
    let m2 = merge_model(m, pairs);
    assert(merge_phase1(m, Seq::<(usize, usize)>::empty()) == m);
    assert(merge_phase2(m1, Seq::<(usize, usize)>::empty()) == m1);
    assert(m1.verts == m.verts.remove(f));
    assert(m2.edges == retarget_map(m1.edges, f, t));
    assert(!m1.edges.dom().contains(f));
    assert(!m2.edges.dom().contains(f));
    assert forall|s: usize| #[trigger] m2.edges.dom().contains(s)
        implies !m2.edges[s].contains(f) by {
        assert(m2.edges[s] == retarget_set(m1.edges[s], f, t));
    }
}

impl Cfg {
    /// The addresses whose vertices were discovered inside the range
    /// of their immediate predecessor, in increasing order.
    fn find_dups(&self) -> (r: Vec<usize>)
        requires
            self.wf(),
        ensures
            forall|i: int, j: int| 0 <= i < j < r@.len() ==> r@[i] < r@[j],
            forall|x: usize| r@.contains(x) <==> is_overlap(self@, x),
    {
        proof {
            self.verts.lemma_keys();
        }
        let ghost ks = self.verts.key_seq();
        let ghost dom = self.verts@.dom();
        let n = self.verts.len();
        let mut out: Vec<usize> = Vec::new();
        if n == 0 {
            proof {
                assert forall|x: usize| !is_overlap(self@, x) by {
                    if dom.contains(x) {
                        assert(ks.contains(x));
                        let j = choose|j: int| 0 <= j < ks.len() && ks[j] == x;
                    }
                }
            }
            return out;
        }
        let mut i: usize = 1;
        proof {
            assert forall|x: usize|
                !(is_overlap(self@, x) && ks.take(1).contains(x)) by {
                if is_overlap(self@, x) && ks.take(1).contains(x) {
                    let t0 = ks.take(1);
                    let li = choose|li: int| 0 <= li < t0.len() && t0[li] == x;
                    assert(x == ks[0]);
                    let pp = choose|pp: usize| is_pred(dom, x, pp);
                    assert(dom.contains(pp));
                    assert(ks.contains(pp));
                    let j = choose|j: int| 0 <= j < ks.len() && ks[j] == pp;
                    if j > 0 {
                        assert(ks[0] < ks[j]);
                    }
                }
            }
        }
        while i < n
            invariant
                self.wf(),
                ks == self.verts.key_seq(),
                dom == self.verts@.dom(),
                n as nat == ks.len(),
                1 <= i <= n,
                forall|i0: int, j0: int| 0 <= i0 < j0 < ks.len() ==> ks[i0] < ks[j0],
                forall|i0: int| 0 <= i0 < ks.len() ==> dom.contains(#[trigger] ks[i0]),
                forall|k: usize| dom.contains(k) ==> ks.contains(k),
                forall|a: int, b: int| 0 <= a < b < out@.len() ==> out@[a] < out@[b],
                forall|j: int|
                    0 <= j < out@.len() ==> exists|idx: int|
                        1 <= idx < i && ks[idx] == #[trigger] out@[j],
                forall|x: usize|
                    out@.contains(x) <==> (is_overlap(self@, x) && ks.take(i as int).contains(
                        x,
                    )),
            decreases n - i,
        {
            let x = self.verts.key_at(i);
            let pn = self.verts.node_at(i - 1);
            let ghost p = ks[i - 1];
            proof {
                assert(is_pred(dom, x, p)) by {
                    assert(dom.contains(p));
                    assert(p < x);
                    assert forall|q: usize| dom.contains(q) && q < x implies q <= p by {
                        assert(ks.contains(q));
                        let j = choose|j: int| 0 <= j < ks.len() && ks[j] == q;
                        if j > i - 1 {
                            if j > i {
                                assert(ks[i as int] < ks[j]);
                            }
                        } else if j < i - 1 {
                            assert(ks[j] < ks[i - 1]);
                        }
                    }
                }
                assert(has_pred(dom, x));
                let p2 = pred_of(dom, x);
                assert(is_pred(dom, x, p2));
                assert(p2 <= p && p <= p2);
                assert(pn@ == self@.verts[p]);
            }
            let hit = match &pn.node {
                NodeBase::Block(b) => b.contains_addr(x),
                NodeBase::Foreign(_) => false,
            };
            proof {
                assert(dom.contains(x));
                assert(hit == is_overlap(self@, x));
                assert(ks.take(i + 1) =~= ks.take(i as int).push(x));
            }
            if hit {
                proof {
                    assert forall|j: int| 0 <= j < out@.len() implies out@[j] < x by {
                        let idx = choose|idx: int| 1 <= idx < i && ks[idx] == out@[j];
                        assert(ks[idx] < ks[i as int]);
                    }
                }
                let ghost out0 = out@;
                out.push(x);
                proof {
                    assert(out@ == out0.push(x));
                    assert forall|j: int|
                        0 <= j < out@.len() implies exists|idx: int|
                            1 <= idx < i + 1 && ks[idx] == #[trigger] out@[j] by {
                        if j < out@.len() - 1 {
                            assert(out@[j] == out0[j]);
                            let idx = choose|idx: int| 1 <= idx < i && ks[idx] == out0[j];
                            assert(1 <= idx < i + 1 && ks[idx] == out@[j]);
                        } else {
                            assert(out@[j] == x);
                            assert(ks[i as int] == out@[j]);
                        }
                    }
                    assert forall|y: usize|
                        out@.contains(y) <==> (is_overlap(self@, y) && ks.take(i + 1).contains(
                            y,
                        )) by {
                        if out@.contains(y) {
                            let j = choose|j: int| 0 <= j < out@.len() && out@[j] == y;
                            if j < out@.len() - 1 {
                                assert(out0[j] == y);
                                assert(out0.contains(y));
                                assert(ks.take(i as int).contains(y));
                                let tk0 = ks.take(i as int);
                                let l = choose|l: int| 0 <= l < tk0.len() && tk0[l] == y;
                                assert(ks.take(i + 1)[l] == y);
                            } else {
                                assert(y == x);
                                assert(ks.take(i + 1)[i as int] == x);
                            }
                        }
                        if is_overlap(self@, y) && ks.take(i + 1).contains(y) {
                            let tk1 = ks.take(i + 1);
                            let l = choose|l: int| 0 <= l < tk1.len() && tk1[l] == y;
                            if l < i {
                                assert(ks.take(i as int)[l] == y);
                                assert(ks.take(i as int).contains(y));
                                assert(out0.contains(y));
                                let j = choose|j: int| 0 <= j < out0.len() && out0[j] == y;
                                assert(out@[j] == y);
                            } else {
                                assert(y == x);
                                assert(out@[out@.len() - 1] == x);
                            }
                        }
                    }
                }
            } else {
                proof {
                    assert forall|y: usize|
                        out@.contains(y) <==> (is_overlap(self@, y) && ks.take(i + 1).contains(
                            y,
                        )) by {
                        if out@.contains(y) {
                            assert(ks.take(i as int).contains(y));
                            let tk0 = ks.take(i as int);
                            let l = choose|l: int| 0 <= l < tk0.len() && tk0[l] == y;
                            assert(ks.take(i + 1)[l] == y);
                        }
                        if is_overlap(self@, y) && ks.take(i + 1).contains(y) {
                            let tk1 = ks.take(i + 1);
                            let l = choose|l: int| 0 <= l < tk1.len() && tk1[l] == y;
                            if l < i {
                                assert(ks.take(i as int)[l] == y);
                                assert(ks.take(i as int).contains(y));
                            } else {
                                assert(y == x);
                            }
                        }
                    }
                }
            }
            i += 1;
        }
        proof {
            assert(ks.take(n as int) =~= ks);
            assert forall|x: usize| out@.contains(x) <==> is_overlap(self@, x) by {
                if is_overlap(self@, x) {
                    assert(ks.contains(x));
                }
            }
        }
        out
    }

    /// Build the graph from the segmented trace: one vertex per block
    /// (and per trailing foreign marker), one edge per temporally
    /// adjacent pair of vertices, and a split for every block start
    /// later found inside an existing block's range.
    ///
    /// The overlap scan runs once, over the vertex set as first built.
    /// In the rare trace where a split's right half again covers the
    /// address of a later vertex, that residual overlap is left in
    /// place rather than scanned for anew; the contract below states
    /// the single pass exactly.
    pub fn from_blocks(v: Vec<Bb>) -> (r: Cfg)
        requires
            forall|i: int| 0 <= i < v@.len() ==> (#[trigger] v@[i]).stmts@.len() > 0,
        ensures
            r.wf(),
            edges_closed(r@),
            exists|ds: Seq<usize>|
                overlap_seq(initial_model(v@), ds) && r@ == fold_split(initial_model(v@), ds),
    {
        let ghost bbs = v@;
        let mut verts = VertMap::new();
        let mut addrs: Vec<usize> = Vec::new();
        let mut rest = v;
        let ghost mut c: int = 0;
        proof {
            assert(bbs.take(0) =~= Seq::<Bb>::empty());
            assert(nodes_of(bbs.take(0)) =~= Seq::<(usize, NodeModel)>::empty());
            assert(addrs_of(bbs.take(0)) =~= Seq::<usize>::empty());
        }
        while rest.len() > 0
            invariant
                0 <= c <= bbs.len(),
                rest@ == bbs.skip(c),
                forall|i: int| 0 <= i < bbs.len() ==> (#[trigger] bbs[i]).stmts@.len() > 0,
                verts.wf(),
                vert_keys_ok(verts@),
                verts@ == map_of(nodes_of(bbs.take(c))),
                addrs@ == addrs_of(bbs.take(c)),
            decreases rest@.len(),
        {
            let bb = rest.remove(0);
            proof {
                assert(bb == bbs[c]);
                assert(rest@ =~= bbs.skip(c + 1));
            }
            let ghost stmts = bb.stmts@;
            let (block, fo) = bb.separate();
            let a = block.instrs[0].addr;
            proof {
                assert(block.instrs@[0] == stmts[0].as_instr());
                assert(a == bb_addr(bbs[c]));
                assert(NodeModel::Block(block.instrs@) == bb_node(bbs[c]));
            }
            let ghost verts0 = verts@;
            let ghost addrs0 = addrs@;
            verts.insert(a, VisitingNode::from_node(NodeBase::Block(block)));
            addrs.push(a);
            match fo {
                Some(f) => {
                    let fa = f.foreign_addr;
                    let ghost fg = f;
                    verts.insert(fa, VisitingNode::from_node(NodeBase::Foreign(f)));
                    addrs.push(fa);
                    proof {
                        let blk = (a, bb_node(bbs[c]));
                        let fe = (fa, NodeModel::Foreign(fg));
                        assert(node_entries_of(bbs[c]) =~= seq![blk, fe]);
                        let ns = nodes_of(bbs.take(c));
                        let n1 = nodes_of(bbs.take(c + 1));
                        assert(bbs.take(c + 1).drop_last() =~= bbs.take(c));
                        assert(bbs.take(c + 1).last() == bbs[c]);
                        assert(n1 == ns + node_entries_of(bbs[c]));
                        let mid = ns + seq![blk];
                        assert(mid.drop_last() =~= ns);
                        assert(mid.last() == blk);
                        assert(map_of(mid) == map_of(
                            ns,
                        ).insert(blk.0, blk.1));
                        assert(n1.drop_last() =~= mid);
                        assert(n1.last() == fe);
                        assert(map_of(n1) == map_of(
                            mid,
                        ).insert(fe.0, fe.1));
                        assert(verts@ =~= map_of(n1));
                        assert(addrs@ =~= addrs_of(bbs.take(c + 1)));
                        assert(vert_keys_ok(verts@)) by {
                            assert forall|k: usize| #[trigger] verts@.dom().contains(k)
                                implies match verts@[k] {
                                NodeModel::Block(instrs) => instrs.len() > 0 && instrs[0].addr
                                    == k,
                                NodeModel::Foreign(f2) => f2.foreign_addr == k,
                            } by {
                                if k != fa && k != a {
                                    assert(verts0.dom().contains(k));
                                }
                            }
                        }
                    }
                },
                None => {
                    proof {
                        let blk = (a, bb_node(bbs[c]));
                        assert(node_entries_of(bbs[c]) =~= seq![blk]);
                        let ns = nodes_of(bbs.take(c));
                        let n1 = nodes_of(bbs.take(c + 1));
                        assert(bbs.take(c + 1).drop_last() =~= bbs.take(c));
                        assert(bbs.take(c + 1).last() == bbs[c]);
                        assert(n1 == ns + node_entries_of(bbs[c]));
                        assert(n1.drop_last() =~= ns);
                        assert(n1.last() == blk);
                        assert(map_of(n1) == map_of(
                            ns,
                        ).insert(blk.0, blk.1));
                        assert(verts@ =~= map_of(n1));
                        assert(addrs@ =~= addrs_of(bbs.take(c + 1)));
                        assert(vert_keys_ok(verts@)) by {
                            assert forall|k: usize| #[trigger] verts@.dom().contains(k)
                                implies match verts@[k] {
                                NodeModel::Block(instrs) => instrs.len() > 0 && instrs[0].addr
                                    == k,
                                NodeModel::Foreign(f2) => f2.foreign_addr == k,
                            } by {
                                if k != a {
                                    assert(verts0.dom().contains(k));
                                }
                            }
                        }
                    }
                },
            }
            proof {
                c = c + 1;
            }
        }
        proof {
            assert(bbs.take(c) =~= bbs);
        }
        let pairs = adjacent_pairs(&addrs);
        let mut edges = EdgeMap::new();
        let np = pairs.len();
        let mut j: usize = 0;
        proof {
            if addrs@.len() >= 2 {
                assert(edges@ =~= edges_of(addrs@.take(1)));
            }
        }
        while j < np
            invariant
                np as nat == pairs@.len(),
                0 <= j <= np,
                addrs@.len() >= 2 ==> np as nat == addrs@.len() - 1,
                addrs@.len() < 2 ==> np == 0,
                forall|l: int| 0 <= l < pairs@.len() ==> pairs@[l] == (addrs@[l], addrs@[l + 1]),
                edges.wf(),
                addrs@.len() >= 2 ==> edges@ == edges_of(addrs@.take(j + 1)),
                addrs@.len() < 2 ==> edges@ == Map::<usize, Set<usize>>::empty(),
            decreases np - j,
        {
            let pr = pairs[j];
            edges.add_edge(pr.0, pr.1);
            proof {
                assert(addrs@.take(j + 2).drop_last() =~= addrs@.take(j + 1));
                assert(addrs@.take(j + 2)[j as int] == addrs@[j as int]);
                assert(addrs@.take(j + 2)[j + 1] == addrs@[j + 1]);
            }
            j += 1;
        }
        proof {
            if addrs@.len() >= 2 {
                assert(addrs@.take(np + 1) =~= addrs@);
            }
            assert(edges@ == edges_of(addrs@));
        }
        let mut cfg = Cfg { verts, edges };
        proof {
            assert(cfg@ =~= initial_model(bbs));
        }
        let ghost init = cfg@;
        let dups = cfg.find_dups();
        let ghost ds = dups@;
        let nd = dups.len();
        let mut k: usize = 0;
        proof {
            assert(ds.take(0) =~= Seq::<usize>::empty());
        }
        while k < nd
            invariant
                nd as nat == ds.len(),
                0 <= k <= nd,
                ds == dups@,
                cfg.wf(),
                cfg@ == fold_split(init, ds.take(k as int)),
            decreases nd - k,
        {
            let a = dups[k];
            let _ = cfg.split(a);
            proof {
                assert(ds.take(k + 1) =~= ds.take(k as int).push(a));
                lemma_fold_split_push(init, ds.take(k as int), a);
            }
            k += 1;
        }
        proof {
            assert(ds.take(nd as int) =~= ds);
            assert(overlap_seq(init, ds));
            assert(cfg@ == fold_split(initial_model(v@), ds));
            lemma_initial_model_edges_closed(bbs);
            lemma_fold_split_keeps_edges_closed(init, ds);
        }
        cfg
    }

    /// All edges as (source, destination) pairs, one pair per
    /// destination and no pair twice: the read interface the exporter
    /// walks.
    pub fn edge_pairs(&self) -> (r: Vec<(usize, usize)>)
        requires
            self.wf(),
        ensures
            forall|x: usize, y: usize| r@.contains((x, y)) <==> has_edge(self@.edges, x, y),
            forall|a: int, b: int| 0 <= a < b < r@.len() ==> r@[a] != r@[b],
    {
        proof {
            self.edges.lemma_srcs();
        }
        let ghost ss = self.edges.src_seq();
        let n = self.edges.len();
        let mut out: Vec<(usize, usize)> = Vec::new();
        let mut i: usize = 0;
        while i < n
            invariant
                self.wf(),
                ss == self.edges.src_seq(),
                n as nat == ss.len(),
                0 <= i <= n,
                forall|l1: int, l2: int| 0 <= l1 < l2 < ss.len() ==> ss[l1] != ss[l2],
                forall|l: int|
                    0 <= l < ss.len() ==> self@.edges.dom().contains(#[trigger] ss[l]),
                forall|k2: usize| self@.edges.dom().contains(k2) ==> ss.contains(k2),
                forall|x: usize, y: usize|
                    #[trigger] out@.contains((x, y)) <==> exists|l: int|
                        0 <= l < i && #[trigger] ss[l] == x && self@.edges[x].contains(y),
                forall|a: int, b: int| 0 <= a < b < out@.len() ==> out@[a] != out@[b],
            decreases n - i,
        {
            let src = self.edges.src_at(i);
            let ds = self.edges.dests_at(i);
            let m = ds.len();
            let mut k: usize = 0;
            while k < m
                invariant
                    self.wf(),
                    ss == self.edges.src_seq(),
                    n as nat == ss.len(),
                    0 <= i < n,
                    m == ds@.len(),
                    0 <= k <= m,
                    src == ss[i as int],
                    dset(ds@) == self@.edges[src],
                    forall|a1: int, b1: int| 0 <= a1 < b1 < ds@.len() ==> ds@[a1] != ds@[b1],
                    forall|l1: int, l2: int| 0 <= l1 < l2 < ss.len() ==> ss[l1] != ss[l2],
                    forall|l: int|
                        0 <= l < ss.len() ==> self@.edges.dom().contains(#[trigger] ss[l]),
                    forall|k2: usize| self@.edges.dom().contains(k2) ==> ss.contains(k2),
                    forall|x: usize, y: usize|
                        #[trigger] out@.contains((x, y)) <==> (exists|l: int|
                            0 <= l < i && #[trigger] ss[l] == x && self@.edges[x].contains(y))
                            || (x == src && ds@.take(k as int).contains(y)),
                    forall|a: int, b: int| 0 <= a < b < out@.len() ==> out@[a] != out@[b],
                decreases m - k,
            {
                let d = ds[k];
                let ghost out0 = out@;
                out.push((src, d));
                proof {
                    assert(out@ == out0.push((src, d)));
                    assert(ds@.take(k + 1) =~= ds@.take(k as int).push(d));
                    assert forall|x: usize, y: usize| #[trigger] out@.contains((x, y))
                        implies (exists|l: int|
                        0 <= l < i && #[trigger] ss[l] == x && self@.edges[x].contains(y)) || (x
                        == src && ds@.take(k + 1).contains(y)) by {
                        let j = choose|j: int| 0 <= j < out@.len() && out@[j] == (x, y);
                        if j < out@.len() - 1 {
                            assert(out0[j] == (x, y));
                            assert(out0.contains((x, y)));
                            if !(exists|l: int|
                                0 <= l < i && #[trigger] ss[l] == x
                                    && self@.edges[x].contains(y)) {
                                assert(ds@.take(k as int).contains(y));
                                let tk0 = ds@.take(k as int);
                                let l2 = choose|l2: int| 0 <= l2 < tk0.len() && tk0[l2] == y;
                                assert(ds@.take(k + 1)[l2] == y);
                            }
                        } else {
                            assert(x == src && y == d);
                            assert(ds@.take(k + 1)[k as int] == d);
                        }
                    }
                    assert forall|x: usize, y: usize|
                        (exists|l: int|
                            0 <= l < i && #[trigger] ss[l] == x && self@.edges[x].contains(y))
                            || (x == src && ds@.take(k + 1).contains(y))
                        implies #[trigger] out@.contains((x, y)) by {
                        if x == src && ds@.take(k + 1).contains(y) {
                            let tk1 = ds@.take(k + 1);
                            let l2 = choose|l2: int| 0 <= l2 < tk1.len() && tk1[l2] == y;
                            if l2 < k {
                                assert(ds@.take(k as int)[l2] == y);
                                assert(ds@.take(k as int).contains(y));
                                assert(out0.contains((x, y)));
                                let j = choose|j: int|
                                    0 <= j < out0.len() && out0[j] == (x, y);
                                assert(out@[j] == (x, y));
                            } else {
                                assert(y == d);
                                assert(out@[out@.len() - 1] == (x, y));
                            }
                        } else {
                            assert(out0.contains((x, y)));
                            let j = choose|j: int| 0 <= j < out0.len() && out0[j] == (x, y);
                            assert(out@[j] == (x, y));
                        }
                    }
                    assert forall|a: int, b: int|
                        0 <= a < b < out@.len() implies out@[a] != out@[b] by {
                        if b == out@.len() - 1 {
                            assert(out0[a] == out@[a]);
                            assert(out0.contains(out@[a]));
                            let xa = out@[a].0;
                            let ya = out@[a].1;
                            assert(out0.contains((xa, ya)));
                            if xa == src {
                                assert(ds@.take(k as int).contains(ya)) by {
                                    if exists|l: int|
                                        0 <= l < i && #[trigger] ss[l] == xa
                                            && self@.edges[xa].contains(ya) {
                                        let l = choose|l: int|
                                            0 <= l < i && #[trigger] ss[l] == xa
                                                && self@.edges[xa].contains(ya);
                                        assert(ss[l] == ss[i as int]);
                                        assert(false);
                                    }
                                }
                                let tk0 = ds@.take(k as int);
                                let l2 = choose|l2: int| 0 <= l2 < tk0.len() && tk0[l2] == ya;
                                assert(ds@[l2] == ya);
                                assert(ds@[k as int] == d);
                                assert(ya != d);
                            }
                        }
                    }
                }
                k += 1;
            }
            proof {
                assert(ds@.take(m as int) =~= ds@);
                assert forall|x: usize, y: usize| #[trigger] out@.contains((x, y))
                    implies exists|l: int|
                    0 <= l < i + 1 && #[trigger] ss[l] == x && self@.edges[x].contains(y) by {
                    if exists|l: int|
                        0 <= l < i && #[trigger] ss[l] == x && self@.edges[x].contains(y) {
                        let l = choose|l: int|
                            0 <= l < i && #[trigger] ss[l] == x && self@.edges[x].contains(y);
                        assert(0 <= l < i + 1 && ss[l] == x && self@.edges[x].contains(y));
                    } else {
                        assert(x == src && ds@.contains(y));
                        assert(dset(ds@).contains(y));
                        assert(ss[i as int] == x && self@.edges[x].contains(y));
                    }
                }
                assert forall|x: usize, y: usize|
                    (exists|l: int|
                        0 <= l < i + 1 && #[trigger] ss[l] == x && self@.edges[x].contains(y))
                    implies #[trigger] out@.contains((x, y)) by {
                    let l = choose|l: int|
                        0 <= l < i + 1 && #[trigger] ss[l] == x && self@.edges[x].contains(y);
                    if l == i {
                        assert(x == src);
                        assert(dset(ds@).contains(y));
                        assert(ds@.contains(y));
                        let l2 = choose|l2: int| 0 <= l2 < ds@.len() && ds@[l2] == y;
                        assert(ds@.take(m as int)[l2] == y);
                        assert(ds@.take(m as int).contains(y));
                    }
                }
            }
            i += 1;
        }
        proof {
            assert forall|x: usize, y: usize| #[trigger] out@.contains((x, y))
                implies has_edge(self@.edges, x, y) by {
                let l = choose|l: int|
                    0 <= l < n && #[trigger] ss[l] == x && self@.edges[x].contains(y);
                assert(self@.edges.dom().contains(ss[l]));
            }
            assert forall|x: usize, y: usize| has_edge(self@.edges, x, y)
                implies #[trigger] out@.contains((x, y)) by {
                assert(ss.contains(x));
                let l = choose|l: int| 0 <= l < ss.len() && ss[l] == x;
                assert(0 <= l < n && ss[l] == x && self@.edges[x].contains(y));
            }
        }
        out
    }

    /// Merge each pair's source vertex into its target: the source is
    /// removed, its outgoing edge set replaces the target's, and every
    /// edge destination naming a source is redirected to its target.
    ///
    /// That the target exists as a vertex is the caller's (unchecked)
    /// obligation.  A source absent from `vertices` removes nothing,
    /// but its edge destinations are still redirected.
    pub fn merge(&mut self, mapping: Vec<(usize, usize)>)
        requires
            old(self).wf(),
        ensures
            final(self).wf(),
            final(self)@ == merge_model(old(self)@, mapping@),
    {
        let ghost m0 = old(self)@;
        let n = mapping.len();
        let mut k: usize = 0;
        proof {
            assert(mapping@.take(0) =~= Seq::<(usize, usize)>::empty());
        }
        while k < n
            invariant
                n as nat == mapping@.len(),
                0 <= k <= n,
                self.wf(),
                self@ == merge_phase1(m0, mapping@.take(k as int)),
            decreases n - k,
        {
            let pr = mapping[k];
            let f = pr.0;
            let t = pr.1;
            let ghost before = self@;
            let _ = self.verts.remove(f);
            if self.edges.contains_src(f) {
                let ds = self.edges.take_src(f);
                self.edges.set_src(t, ds);
            }
            proof {
                assert(mapping@.take(k + 1).drop_last() =~= mapping@.take(k as int));
                assert(mapping@.take(k + 1).last() == mapping@[k as int]);
                assert(self@ =~= merge_phase1(m0, mapping@.take(k + 1)));
                assert(vert_keys_ok(self.verts@)) by {
                    assert forall|q: usize| #[trigger] self.verts@.dom().contains(q)
                        implies match self.verts@[q] {
                        NodeModel::Block(instrs) => instrs.len() > 0 && instrs[0].addr == q,
                        NodeModel::Foreign(f2) => f2.foreign_addr == q,
                    } by {
                        assert(before.verts.dom().contains(q));
                    }
                }
            }
            k += 1;
        }
        proof {
            assert(mapping@.take(n as int) =~= mapping@);
        }
        let ghost mid = self@;
        let mut k2: usize = 0;
        proof {
            assert(mapping@.take(0) =~= Seq::<(usize, usize)>::empty());
        }
        while k2 < n
            invariant
                n as nat == mapping@.len(),
                0 <= k2 <= n,
                self.wf(),
                self@ == merge_phase2(mid, mapping@.take(k2 as int)),
            decreases n - k2,
        {
            let pr = mapping[k2];
            let ghost before = self@;
            self.edges.retarget(pr.0, pr.1);
            proof {
                assert(mapping@.take(k2 + 1).drop_last() =~= mapping@.take(k2 as int));
                assert(mapping@.take(k2 + 1).last() == mapping@[k2 as int]);
                assert(self@ =~= merge_phase2(mid, mapping@.take(k2 + 1)));
            }
            k2 += 1;
        }
        proof {
            assert(mapping@.take(n as int) =~= mapping@);
            assert(self@ =~= merge_model(m0, mapping@));
        }
    }
}

} // verus!
