//! The derived control-flow graph.
//!
//! [`Function::gen_cfg`] builds, on demand, an explicit directed graph whose
//! nodes are blocks and branching operations (operations that carry at least
//! one outgoing control transfer, or end their block), and whose edges are
//! either *flow* edges — from a block's entry to its first branching
//! operation and between consecutive branching operations — or *call* edges,
//! labelled with the transfer, from a branching operation to the block it
//! targets. Construction is two-pass: all nodes first, then the call edges,
//! because a transfer may target a block not yet visited in layout order.
//! The graph is an auxiliary view held in a petgraph graph; the layout stays
//! the system of record for ordering.

use vstd::prelude::*;

use petgraph::graph::Graph;

use crate::fun::{Ebb, EbbCall, Function, Op};

verus! {

/// A node of the derived graph: a block or a branching operation.
#[derive(Clone, Copy, PartialEq, Eq, Structural, Debug)]
pub enum CfgNode {
    Ebb(Ebb),
    Op(Op),
}

/// An edge of the derived graph: sequential flow inside one block, or a
/// control transfer to its target block.
#[derive(Clone, Copy, PartialEq, Eq, Structural, Debug)]
pub enum CfgEdge {
    Flow,
    Call(EbbCall),
}

#[verifier::external_type_specification]
#[verifier::external_body]
#[verifier::reject_recursive_types(N)]
#[verifier::reject_recursive_types(E)]
#[verifier::reject_recursive_types(Ty)]
#[verifier::reject_recursive_types(Ix)]
pub struct ExGraph<N, E, Ty, Ix>(Graph<N, E, Ty, Ix>);

#[verifier::external_type_specification]
#[verifier::external_body]
pub struct ExDirected(petgraph::Directed);

/// A node weight as a plain value: `true` for a block node with the block's
/// handle, `false` for an operation node with the operation's handle.
pub open spec fn node_code(n: CfgNode) -> (bool, u32) {
    match n {
        CfgNode::Ebb(e) => (true, e.0),
        CfgNode::Op(o) => (false, o.0),
    }
}

/// An edge weight as a plain value: `None` for flow, the transfer's handle
/// for a call.
pub open spec fn edge_code(c: CfgEdge) -> Option<u32> {
    match c {
        CfgEdge::Flow => None,
        CfgEdge::Call(call) => Some(call.0),
    }
}

/// The node weights a graph holds, coded as plain values, in insertion
/// order.
pub uninterp spec fn graph_nodes(g: Graph<CfgNode, CfgEdge, petgraph::Directed, usize>) -> Seq<
    (bool, u32),
>;

/// The edges a graph holds — source node index, target node index, coded
/// weight — in insertion order.
pub uninterp spec fn graph_edges(g: Graph<CfgNode, CfgEdge, petgraph::Directed, usize>) -> Seq<
    (usize, usize, Option<u32>),
>;

/// Relies on petgraph's `Graph::with_capacity`: the new graph has no nodes
/// and no edges.
#[verifier::external_body]
fn graph_new() -> (g: Graph<CfgNode, CfgEdge, petgraph::Directed, usize>)
    ensures
        graph_nodes(g) =~= Seq::<(bool, u32)>::empty(),
        graph_edges(g) =~= Seq::<(usize, usize, Option<u32>)>::empty(),
{
    Graph::with_capacity(0, 0)
}

/// Relies on petgraph's `Graph::add_node`: it appends one node with the
/// given weight and returns its index, the old node count. With `usize`
/// indices it cannot reach its index limit.
#[verifier::external_body]
fn graph_add_node(g: &mut Graph<CfgNode, CfgEdge, petgraph::Directed, usize>, w: CfgNode) -> (r:
    usize)
    ensures
        graph_nodes(*final(g)) =~= graph_nodes(*old(g)).push(node_code(w)),
        graph_edges(*final(g)) == graph_edges(*old(g)),
        r == graph_nodes(*old(g)).len(),
{
    g.add_node(w).index()
}

/// Relies on petgraph's `Graph::add_edge`: it appends one edge from node
/// `a` to node `b` with the given weight; both nodes must exist, or it
/// panics. With `usize` indices it cannot reach its index limit.
#[verifier::external_body]
fn graph_add_edge(
    g: &mut Graph<CfgNode, CfgEdge, petgraph::Directed, usize>,
    a: usize,
    b: usize,
    w: CfgEdge,
)
    requires
        a < graph_nodes(*old(g)).len(),
        b < graph_nodes(*old(g)).len(),
    ensures
        graph_nodes(*final(g)) == graph_nodes(*old(g)),
        graph_edges(*final(g)) =~= graph_edges(*old(g)).push((a, b, edge_code(w))),
{
    g.add_edge(
        petgraph::graph::NodeIndex::new(a),
        petgraph::graph::NodeIndex::new(b),
        w,
    );
}

/// A small association map from a 32-bit handle to a node index, viewed as a
/// `Map`. Later insertions shadow earlier ones.
pub struct IndexMap {
    entries: Vec<(u32, usize)>,
}

impl IndexMap {
    /// The entries folded into a map, later entries winning.
    pub closed spec fn map_of(s: Seq<(u32, usize)>) -> Map<u32, usize>
        decreases s.len(),
    {
        if s.len() == 0 {
            Map::empty()
        } else {
            Self::map_of(s.drop_last()).insert(s.last().0, s.last().1)
        }
    }

    pub closed spec fn view(&self) -> Map<u32, usize> {
        Self::map_of(self.entries@)
    }

    proof fn lemma_map_of_no_match(s: Seq<(u32, usize)>, k: u32)
        requires
            forall|j: int| 0 <= j < s.len() ==> (#[trigger] s[j]).0 != k,
        ensures
            !Self::map_of(s).contains_key(k),
        decreases s.len(),
    {
        if s.len() > 0 {
            assert(s.last() == s[s.len() - 1]);
            Self::lemma_map_of_no_match(s.drop_last(), k);
        }
    }

    proof fn lemma_map_of_last_match(s: Seq<(u32, usize)>, i: int, k: u32)
        requires
            0 <= i < s.len(),
            s[i].0 == k,
            forall|j: int| i < j < s.len() ==> (#[trigger] s[j]).0 != k,
        ensures
            Self::map_of(s).contains_key(k),
            Self::map_of(s)[k] == s[i].1,
        decreases s.len(),
    {
        if i == s.len() - 1 {
            assert(s.last() == s[i]);
        } else {
            assert(s.last() == s[s.len() - 1]);
            Self::lemma_map_of_last_match(s.drop_last(), i, k);
        }
    }

    pub fn new() -> (r: Self)
        ensures
            r@ == Map::<u32, usize>::empty(),
    {
        IndexMap { entries: Vec::new() }
    }

    /// Look the handle up; `None` when it has no node.
    pub fn get(&self, k: u32) -> (r: Option<usize>)
        ensures
            r == if self@.contains_key(k) {
                Some(self@[k])
            } else {
                None::<usize>
            },
    {
        let mut i: usize = self.entries.len();
        while i > 0
            invariant
                i <= self.entries@.len(),
                forall|j: int| i <= j < self.entries@.len() ==> (#[trigger] self.entries@[j]).0 != k,
            decreases i,
        {
            i = i - 1;
            if self.entries[i].0 == k {
                proof {
                    Self::lemma_map_of_last_match(self.entries@, i as int, k);
                }
                return Some(self.entries[i].1);
            }
        }
        proof {
            Self::lemma_map_of_no_match(self.entries@, k);
        }
        None
    }

    /// Record the node index of a handle.
    pub fn insert(&mut self, k: u32, v: usize)
        ensures
            final(self)@ == old(self)@.insert(k, v),
    {
        self.entries.push((k, v));
        proof {
            assert(self.entries@.drop_last() =~= old(self).entries@);
        }
    }
}

/// The derived control-flow graph of one function: the graph itself plus the
/// node index of every block and of every branching operation.
pub struct FunctionCfg {
    pub graph: Graph<CfgNode, CfgEdge, petgraph::Directed, usize>,
    pub ebbs: IndexMap,
    pub ops: IndexMap,
}

/// Does operation `o` get a node of its own: does it carry an outgoing
/// transfer or end its block?
pub open spec fn is_cfg_op(f: Function, o: Op) -> bool {
    f.op_branches_s(o).len() > 0 || f.op_kind_s(o).is_block_terminator_s()
}

/// The operation nodes of a block whose operations are `os`, in order.
pub open spec fn block_op_nodes(f: Function, os: Seq<Op>) -> Seq<(bool, u32)>
    decreases os.len(),
{
    if os.len() == 0 {
        Seq::empty()
    } else {
        let rest = block_op_nodes(f, os.drop_last());
        if is_cfg_op(f, os.last()) {
            rest.push((false, os.last().0))
        } else {
            rest
        }
    }
}

/// All nodes created for the blocks `s`, in creation order: per block its
/// own node, then its operation nodes.
pub open spec fn nodes_upto(f: Function, s: Seq<Ebb>) -> Seq<(bool, u32)>
    decreases s.len(),
{
    if s.len() == 0 {
        Seq::empty()
    } else {
        nodes_upto(f, s.drop_last()) + seq![(true, s.last().0)] + block_op_nodes(
            f,
            f.ops_of(s.last()),
        )
    }
}

/// Every node of the graph [`Function::gen_cfg`] derives, in creation order.
pub open spec fn cfg_nodes_of(f: Function) -> Seq<(bool, u32)> {
    nodes_upto(f, f.ebb_seq_s())
}

/// The flow edges of one block whose node sits at index `base` and which has
/// `n` operation nodes: a chain from the block node through each operation
/// node in turn.
pub open spec fn block_flow(base: int, n: int) -> Seq<(usize, usize, Option<u32>)> {
    Seq::new(
        n as nat,
        |k: int| ((base + k) as usize, (base + 1 + k) as usize, None::<u32>),
    )
}

/// All flow edges created for the blocks `s`, in creation order.
pub open spec fn flow_upto(f: Function, s: Seq<Ebb>) -> Seq<(usize, usize, Option<u32>)>
    decreases s.len(),
{
    if s.len() == 0 {
        Seq::empty()
    } else {
        flow_upto(f, s.drop_last()) + block_flow(
            nodes_upto(f, s.drop_last()).len() as int,
            block_op_nodes(f, f.ops_of(s.last())).len() as int,
        )
    }
}

/// The layout position of block `e`.
pub open spec fn ebb_pos(s: Seq<Ebb>, e: Ebb) -> int {
    choose|i: int| 0 <= i < s.len() && s[i] == e
}

/// The node index of block `e`'s own node.
pub open spec fn block_node_idx(f: Function, e: Ebb) -> int {
    nodes_upto(f, f.ebb_seq_s().take(ebb_pos(f.ebb_seq_s(), e))).len() as int
}

/// The node index of the operation at position `j` of block `e`, when it is
/// a branching operation.
pub open spec fn op_node_idx(f: Function, e: Ebb, j: int) -> int {
    block_node_idx(f, e) + 1 + block_op_nodes(f, f.ops_of(e).take(j)).len()
}

/// The call edges one branching operation at node index `idx` contributes:
/// one per transfer, in order, to the target block's node.
pub open spec fn op_call_edges(f: Function, o: Op, idx: int) -> Seq<(usize, usize, Option<u32>)> {
    Seq::new(
        f.op_branches_s(o).len(),
        |b: int|
            (
                idx as usize,
                block_node_idx(f, f.call_target_s(f.op_branches_s(o)[b])) as usize,
                Some(f.op_branches_s(o)[b].0),
            ),
    )
}

/// The call edges of the operations `os` of the block whose node sits at
/// `base`, in creation order.
pub open spec fn call_edges_ops(f: Function, os: Seq<Op>, base: int) -> Seq<
    (usize, usize, Option<u32>),
>
    decreases os.len(),
{
    if os.len() == 0 {
        Seq::empty()
    } else {
        call_edges_ops(f, os.drop_last(), base) + (if is_cfg_op(f, os.last()) {
            op_call_edges(
                f,
                os.last(),
                base + 1 + block_op_nodes(f, os.drop_last()).len(),
            )
        } else {
            Seq::empty()
        })
    }
}

/// All call edges created for the blocks `s`, in creation order.
pub open spec fn call_edges_upto(f: Function, s: Seq<Ebb>) -> Seq<(usize, usize, Option<u32>)>
    decreases s.len(),
{
    if s.len() == 0 {
        Seq::empty()
    } else {
        call_edges_upto(f, s.drop_last()) + call_edges_ops(
            f,
            f.ops_of(s.last()),
            nodes_upto(f, s.drop_last()).len() as int,
        )
    }
}

/// Every edge of the graph [`Function::gen_cfg`] derives: all flow edges
/// first, then all call edges, each in creation order.
pub open spec fn cfg_edges_of(f: Function) -> Seq<(usize, usize, Option<u32>)> {
    flow_upto(f, f.ebb_seq_s()) + call_edges_upto(f, f.ebb_seq_s())
}

/// Every transfer of every linked operation targets a linked block.
pub open spec fn cfg_targets_ok(f: Function) -> bool {
    forall|e: Ebb, j: int, b: int|
        f.ebb_in_layout(e) && 0 <= j < f.ops_of(e).len() && 0 <= b < f.op_branches_s(
            f.ops_of(e)[j],
        ).len() ==> f.ebb_in_layout(
            f.call_target_s(#[trigger] f.op_branches_s(f.ops_of(e)[j])[b]),
        )
}

/// Relies on petgraph's `Graph::node_count`: the number of nodes.
#[verifier::external_body]
fn graph_node_count(g: &Graph<CfgNode, CfgEdge, petgraph::Directed, usize>) -> (r: usize)
    ensures
        r == graph_nodes(*g).len(),
{
    g.node_count()
}

/// A prefix of the blocks contributes at most as many nodes as all of them.
proof fn lemma_nodes_prefix_le(f: Function, s: Seq<Ebb>, p: int)
    requires
        0 <= p <= s.len(),
    ensures
        nodes_upto(f, s.take(p)).len() <= nodes_upto(f, s).len(),
    decreases s.len(),
{
    if p < s.len() {
        assert(s.take(p) =~= s.drop_last().take(p));
        lemma_nodes_prefix_le(f, s.drop_last(), p);
    } else {
        assert(s.take(p) =~= s);
    }
}

/// A prefix of a block's operations contributes at most as many nodes as
/// all of them.
proof fn lemma_bon_prefix_le(f: Function, os: Seq<Op>, j: int)
    requires
        0 <= j <= os.len(),
    ensures
        block_op_nodes(f, os.take(j)).len() <= block_op_nodes(f, os).len(),
    decreases os.len(),
{
    if j < os.len() {
        assert(os.take(j) =~= os.drop_last().take(j));
        lemma_bon_prefix_le(f, os.drop_last(), j);
    } else {
        assert(os.take(j) =~= os);
    }
}

impl Function {
    /// Add one call edge per control transfer of every linked operation,
    /// after all nodes exist.
    #[verifier::rlimit(100)]
    fn add_call_edges(
        &self,
        graph: &mut Graph<CfgNode, CfgEdge, petgraph::Directed, usize>,
        blocks_map: &IndexMap,
        total: usize,
    )
        requires
            self.inv(),
            cfg_targets_ok(*self),
            total == cfg_nodes_of(*self).len(),
            graph_nodes(*old(graph)) =~= cfg_nodes_of(*self),
            forall|i: int|
                0 <= i < self.ebb_seq_s().len() ==> blocks_map@.contains_key(
                    (#[trigger] self.ebb_seq_s()[i]).0,
                ) && blocks_map@[self.ebb_seq_s()[i].0] == block_node_idx(
                    *self,
                    self.ebb_seq_s()[i],
                ),
        ensures
            graph_nodes(*final(graph)) =~= cfg_nodes_of(*self),
            graph_edges(*final(graph)) =~= graph_edges(*old(graph)) + call_edges_upto(
                *self,
                self.ebb_seq_s(),
            ),
    {
        let ghost s = self.ebb_seq_s();
        let ghost full_flow = graph_edges(*old(graph));
        let ghost nodes0 = graph_nodes(*old(graph));
        proof {
            assert(nodes0.len() == total);
        }
        let mut eit2 = self.iter_ebb();
        proof {
            assert(s.take(0) =~= Seq::<Ebb>::empty());
        }
        loop
            invariant
                self.inv(),
                cfg_targets_ok(*self),
                eit2.wf(self),
                0 <= eit2.pos@ <= s.len(),
                s == self.ebb_seq_s(),
                nodes0 == graph_nodes(*old(graph)),
                nodes0.len() == total,
                total == cfg_nodes_of(*self).len(),
                graph_nodes(*graph) == nodes0,
                graph_edges(*graph) =~= full_flow + call_edges_upto(*self, s.take(eit2.pos@)),
                forall|i: int|
                    0 <= i < s.len() ==> blocks_map@.contains_key((#[trigger] s[i]).0)
                        && blocks_map@[s[i].0] == block_node_idx(*self, s[i]),
            ensures
                graph_nodes(*graph) == nodes0,
                graph_edges(*graph) =~= full_flow + call_edges_upto(*self, s),
            decreases s.len() - eit2.pos@,
        {
            let ghost bi = eit2.pos@;
            let e: Ebb;
            match eit2.next(self) {
                None => {
                    proof {
                        assert(s.take(bi) =~= s);
                    }
                    break ;
                },
                Some(e0) => {
                    e = e0;
                },
            }
            proof {
                assert(s[bi] == e);
                assert(self.ebb_in_layout(e)) by {
                    assert(self.ebb_seq_s()[bi] == e);
                }
                assert(ebb_pos(s, e) == bi) by {
                    let i0 = ebb_pos(s, e);
                    assert(0 <= i0 < s.len() && s[i0] == e);
                    self.lemma_ebb_unique(i0, bi);
                }
            }
            let base: usize;
            match blocks_map.get(e.0) {
                Some(b0) => {
                    base = b0;
                },
                None => {
                    proof {
                        assert(false);
                    }
                    base = 0;
                },
            }
            proof {
                assert(base == block_node_idx(*self, e));
                assert(base == nodes_upto(*self, s.take(bi)).len());
            }
            let mut kcount: usize = 0;
            let ghost os = self.ops_of(e);
            proof {
                assert(os.take(0) =~= Seq::<Op>::empty());
            }
            let mut oit = self.iter_op(e);
            loop
                invariant
                    self.inv(),
                    cfg_targets_ok(*self),
                    oit.wf(self),
                    oit.ebb == e,
                    0 <= oit.pos@ <= os.len(),
                    os == self.ops_of(e),
                    e == s[bi],
                    0 <= bi < s.len(),
                    s == self.ebb_seq_s(),
                    self.ebb_in_layout(e),
                    ebb_pos(s, e) == bi,
                    total == cfg_nodes_of(*self).len(),
                    nodes0 == graph_nodes(*old(graph)),
                    nodes0.len() == total,
                    base == nodes_upto(*self, s.take(bi)).len(),
                    block_node_idx(*self, e) == base,
                    kcount == block_op_nodes(*self, os.take(oit.pos@)).len(),
                    graph_nodes(*graph) == nodes0,
                    graph_edges(*graph) =~= full_flow + call_edges_upto(*self, s.take(bi))
                        + call_edges_ops(*self, os.take(oit.pos@), base as int),
                    forall|i: int|
                        0 <= i < s.len() ==> blocks_map@.contains_key((#[trigger] s[i]).0)
                            && blocks_map@[s[i].0] == block_node_idx(*self, s[i]),
                ensures
                    graph_nodes(*graph) == nodes0,
                    graph_edges(*graph) =~= full_flow + call_edges_upto(*self, s.take(bi))
                        + call_edges_ops(*self, os, base as int),
                decreases os.len() - oit.pos@,
            {
                let ghost oj = oit.pos@;
                let o: Op;
                match oit.next(self) {
                    None => {
                        proof {
                            assert(os.take(oj) =~= os);
                        }
                        break ;
                    },
                    Some(o0) => {
                        o = o0;
                    },
                }
                proof {
                    assert(os[oj] == o);
                    self.lemma_op_in_arena(e, o);
                    assert(os.take(oj + 1).drop_last() =~= os.take(oj));
                    assert(os.take(oj + 1).last() == o);
                }
                let nb: usize = self.op_branches(o).len();
                let kind = self.op_kind(o);
                if nb > 0 || kind.is_block_terminator() {
                    proof {
                        assert(is_cfg_op(*self, o));
                        // this operation's node index is in range
                        assert(block_op_nodes(*self, os.take(oj + 1)) =~= block_op_nodes(
                            *self,
                            os.take(oj),
                        ).push((false, o.0)));
                        lemma_bon_prefix_le(*self, os, oj + 1);
                        lemma_nodes_prefix_le(*self, s, bi + 1);
                        assert(nodes_upto(*self, s.take(bi + 1)).len() == base + 1
                            + block_op_nodes(*self, os).len()) by {
                            assert(s.take(bi + 1).drop_last() =~= s.take(bi));
                            assert(s.take(bi + 1).last() == e);
                        }
                        assert(base + 1 + kcount < total);
                    }
                    let a: usize = base + 1 + kcount;
                    kcount = kcount + 1;
                    let ghost idx = a as int;
                    proof {
                        assert(idx == op_node_idx(*self, e, oj));
                        assert(op_call_edges(*self, o, idx).take(0) =~= Seq::<
                            (usize, usize, Option<u32>),
                        >::empty());
                    }
                    let ghost pre_edges = graph_edges(*graph);
                    let mut k: usize = 0;
                    while k < nb
                        invariant
                            self.inv(),
                            cfg_targets_ok(*self),
                            k <= nb,
                            o.0 < self.num_ops(),
                            self.op_in_ebb(e, o),
                            self.ebb_in_layout(e),
                            0 <= oj < os.len(),
                            os[oj] == o,
                            os == self.ops_of(e),
                            e == s[bi],
                            0 <= bi < s.len(),
                            s == self.ebb_seq_s(),
                            nb == self.op_branches_s(o).len(),
                            total == cfg_nodes_of(*self).len(),
                            nodes0 == graph_nodes(*old(graph)),
                            nodes0.len() == total,
                            idx < total,
                            a as int == idx,
                            graph_nodes(*graph) == nodes0,
                            graph_edges(*graph) =~= pre_edges + op_call_edges(
                                *self,
                                o,
                                idx,
                            ).take(k as int),
                            forall|i: int|
                                0 <= i < s.len() ==> blocks_map@.contains_key((#[trigger] s[i]).0)
                                    && blocks_map@[s[i].0] == block_node_idx(*self, s[i]),
                        decreases nb - k,
                    {
                        let c = self.op_branches(o)[k];
                        proof {
                            self.lemma_op_branch_valid(o, k as int);
                        }
                        let t = self.ebb_call_target(c);
                        proof {
                            let j2 = choose|j2: int|
                                0 <= j2 < self.ops_of(e).len() && self.ops_of(e)[j2] == o;
                            assert(self.ebb_in_layout(
                                self.call_target_s(self.op_branches_s(self.ops_of(e)[j2])[
                                    k as int]),
                            ));
                            assert(self.ebb_in_layout(t));
                            assert(s.contains(t));
                        }
                        let tb: usize;
                        match blocks_map.get(t.0) {
                            Some(b0) => {
                                tb = b0;
                            },
                            None => {
                                proof {
                                    let ti = choose|ti: int|
                                        0 <= ti < s.len() && #[trigger] s[ti] == t;
                                    assert(blocks_map@.contains_key(s[ti].0));
                                    assert(false);
                                }
                                tb = 0;
                            },
                        }
                        proof {
                            let ti = choose|ti: int| 0 <= ti < s.len() && #[trigger] s[ti] == t;
                            assert(blocks_map@[s[ti].0] == block_node_idx(*self, s[ti]));
                            assert(tb == block_node_idx(*self, t));
                            assert(ebb_pos(s, t) == ti) by {
                                let i0 = ebb_pos(s, t);
                                assert(0 <= i0 < s.len() && s[i0] == t);
                                self.lemma_ebb_unique(i0, ti);
                            }
                            // target node index is in range
                            lemma_nodes_prefix_le(*self, s, ti + 1);
                            assert(nodes_upto(*self, s.take(ti + 1)).len() >= tb + 1) by {
                                assert(s.take(ti + 1).drop_last() =~= s.take(ti));
                                assert(s.take(ti + 1).last() == t);
                            }
                            assert(tb < total);
                        }
                        proof {
                            assert(self.op_branches_s(o)[k as int] == c);
                        }
                        graph_add_edge(graph, a, tb, CfgEdge::Call(c));
                        proof {
                            assert(self.call_target_s(self.op_branches_s(o)[k as int]) == t);
                            assert(op_call_edges(*self, o, idx)[k as int] == (
                                a,
                                tb,
                                Some(c.0),
                            ));
                            assert(op_call_edges(*self, o, idx).take(k as int + 1)
                                =~= op_call_edges(*self, o, idx).take(k as int).push(
                                (a, tb, Some(c.0)),
                            ));
                        }
                        k = k + 1;
                    }
                    proof {
                        assert(op_call_edges(*self, o, idx).take(nb as int) =~= op_call_edges(
                            *self,
                            o,
                            idx,
                        ));
                        assert(call_edges_ops(*self, os.take(oj + 1), base as int)
                            =~= call_edges_ops(*self, os.take(oj), base as int) + op_call_edges(
                            *self,
                            o,
                            idx,
                        ));
                        assert(block_op_nodes(*self, os.take(oj + 1)) =~= block_op_nodes(
                            *self,
                            os.take(oj),
                        ).push((false, o.0)));
                    }
                } else {
                    proof {
                        assert(!is_cfg_op(*self, o));
                        assert(call_edges_ops(*self, os.take(oj + 1), base as int)
                            =~= call_edges_ops(*self, os.take(oj), base as int));
                        assert(block_op_nodes(*self, os.take(oj + 1)) =~= block_op_nodes(
                            *self,
                            os.take(oj),
                        ));
                    }
                }
            }
            proof {
                assert(s.take(bi + 1).drop_last() =~= s.take(bi));
                assert(s.take(bi + 1).last() == e);
                assert(call_edges_upto(*self, s.take(bi + 1)) =~= call_edges_upto(
                    *self,
                    s.take(bi),
                ) + call_edges_ops(*self, os, base as int));
            }
        }
    }

    /// Derive the explicit control-flow graph: one node per block, one node
    /// per branching operation, flow edges chaining each block's branching
    /// operations to its entry, and one call edge per control transfer from
    /// its source operation's node to its target block's node. Nodes are
    /// created in a full first pass, edges to blocks in a second, because a
    /// transfer may target a block not yet visited in layout order.
    #[verifier::rlimit(100)]
    pub fn gen_cfg(&self) -> (r: FunctionCfg)
        requires
            self.inv(),
            cfg_targets_ok(*self),
        ensures
            graph_nodes(r.graph) =~= cfg_nodes_of(*self),
            graph_edges(r.graph) =~= cfg_edges_of(*self),
            forall|e: Ebb|
                #[trigger] self.ebb_in_layout(e) ==> r.ebbs@.contains_key(e.0) && r.ebbs@[e.0]
                    == block_node_idx(*self, e),
            forall|e: Ebb, j: int|
                self.ebb_in_layout(e) && 0 <= j < self.ops_of(e).len() && is_cfg_op(
                    *self,
                    #[trigger] self.ops_of(e)[j],
                ) ==> r.ops@.contains_key(self.ops_of(e)[j].0) && r.ops@[self.ops_of(e)[j].0]
                    == op_node_idx(*self, e, j),
    {
        let mut graph = graph_new();
        let mut blocks = IndexMap::new();
        let mut opmap = IndexMap::new();
        let ghost s = self.ebb_seq_s();
        // first pass: create every node and the flow edges
        let mut eit = self.iter_ebb();
        proof {
            assert(s.take(0) =~= Seq::<Ebb>::empty());
        }
        loop
            invariant
                self.inv(),
                eit.wf(self),
                0 <= eit.pos@ <= s.len(),
                s == self.ebb_seq_s(),
                graph_nodes(graph) =~= nodes_upto(*self, s.take(eit.pos@)),
                graph_edges(graph) =~= flow_upto(*self, s.take(eit.pos@)),
                forall|i: int|
                    0 <= i < eit.pos@ ==> blocks@.contains_key((#[trigger] s[i]).0)
                        && blocks@[s[i].0] == block_node_idx(*self, s[i]),
                forall|i: int, j: int|
                    0 <= i < eit.pos@ && 0 <= j < self.ops_of(s[i]).len() && is_cfg_op(
                        *self,
                        #[trigger] self.ops_of(s[i])[j],
                    ) ==> opmap@.contains_key(self.ops_of(s[i])[j].0) && opmap@[self.ops_of(
                        s[i],
                    )[j].0] == op_node_idx(*self, s[i], j),
            ensures
                graph_nodes(graph) =~= nodes_upto(*self, s),
                graph_edges(graph) =~= flow_upto(*self, s),
                forall|i: int|
                    0 <= i < s.len() ==> blocks@.contains_key((#[trigger] s[i]).0)
                        && blocks@[s[i].0] == block_node_idx(*self, s[i]),
                forall|i: int, j: int|
                    0 <= i < s.len() && 0 <= j < self.ops_of(s[i]).len() && is_cfg_op(
                        *self,
                        #[trigger] self.ops_of(s[i])[j],
                    ) ==> opmap@.contains_key(self.ops_of(s[i])[j].0) && opmap@[self.ops_of(
                        s[i],
                    )[j].0] == op_node_idx(*self, s[i], j),
            decreases s.len() - eit.pos@,
        {
            let ghost bi = eit.pos@;
            let e: Ebb;
            match eit.next(self) {
                None => {
                    proof {
                        assert(s.take(bi) =~= s);
                    }
                    break ;
                },
                Some(e0) => {
                    e = e0;
                },
            }
            proof {
                assert(s[bi] == e);
                assert(self.ebb_in_layout(e)) by {
                    assert(self.ebb_seq_s()[bi] == e);
                }
                assert(ebb_pos(s, e) == bi) by {
                    let i0 = ebb_pos(s, e);
                    assert(0 <= i0 < s.len() && s[i0] == e);
                    self.lemma_ebb_unique(i0, bi);
                }
            }
            let idx = graph_add_node(&mut graph, CfgNode::Ebb(e));
            blocks.insert(e.0, idx);
            let ghost base = nodes_upto(*self, s.take(bi)).len() as int;
            proof {
                assert(idx == base);
                assert(block_node_idx(*self, e) == base);
                assert forall|i: int| 0 <= i < bi implies (#[trigger] s[i]).0 != e.0 by {
                    if s[i].0 == e.0 {
                        assert(s[i] == e);
                        self.lemma_ebb_unique(i, bi);
                    }
                }
                assert(empty_block_prefix(*self, e));
            }
            let mut prev = idx;
            let ghost os = self.ops_of(e);
            let mut oit = self.iter_op(e);
            loop
                invariant
                    self.inv(),
                    oit.wf(self),
                    oit.ebb == e,
                    0 <= oit.pos@ <= os.len(),
                    os == self.ops_of(e),
                    e == s[bi],
                    0 <= bi < s.len(),
                    s == self.ebb_seq_s(),
                    self.ebb_in_layout(e),
                    ebb_pos(s, e) == bi,
                    base == nodes_upto(*self, s.take(bi)).len(),
                    block_node_idx(*self, e) == base,
                    graph_nodes(graph) =~= nodes_upto(*self, s.take(bi)) + seq![(true, e.0)]
                        + block_op_nodes(*self, os.take(oit.pos@)),
                    graph_edges(graph) =~= flow_upto(*self, s.take(bi)) + block_flow(
                        base,
                        block_op_nodes(*self, os.take(oit.pos@)).len() as int,
                    ),
                    prev == base + block_op_nodes(*self, os.take(oit.pos@)).len(),
                    forall|i: int|
                        0 <= i <= bi ==> blocks@.contains_key((#[trigger] s[i]).0)
                            && blocks@[s[i].0] == block_node_idx(*self, s[i]),
                    forall|i: int, j: int|
                        0 <= i < bi && 0 <= j < self.ops_of(s[i]).len() && is_cfg_op(
                            *self,
                            #[trigger] self.ops_of(s[i])[j],
                        ) ==> opmap@.contains_key(self.ops_of(s[i])[j].0) && opmap@[self.ops_of(
                            s[i],
                        )[j].0] == op_node_idx(*self, s[i], j),
                    forall|j: int|
                        0 <= j < oit.pos@ && is_cfg_op(*self, #[trigger] os[j])
                            ==> opmap@.contains_key(os[j].0) && opmap@[os[j].0] == op_node_idx(
                            *self,
                            e,
                            j,
                        ),
                ensures
                    graph_nodes(graph) =~= nodes_upto(*self, s.take(bi)) + seq![(true, e.0)]
                        + block_op_nodes(*self, os),
                    graph_edges(graph) =~= flow_upto(*self, s.take(bi)) + block_flow(
                        base,
                        block_op_nodes(*self, os).len() as int,
                    ),
                    forall|i: int|
                        0 <= i <= bi ==> blocks@.contains_key((#[trigger] s[i]).0)
                            && blocks@[s[i].0] == block_node_idx(*self, s[i]),
                    forall|i: int, j: int|
                        0 <= i < bi && 0 <= j < self.ops_of(s[i]).len() && is_cfg_op(
                            *self,
                            #[trigger] self.ops_of(s[i])[j],
                        ) ==> opmap@.contains_key(self.ops_of(s[i])[j].0) && opmap@[self.ops_of(
                            s[i],
                        )[j].0] == op_node_idx(*self, s[i], j),
                    forall|j: int|
                        0 <= j < os.len() && is_cfg_op(*self, #[trigger] os[j])
                            ==> opmap@.contains_key(os[j].0) && opmap@[os[j].0] == op_node_idx(
                            *self,
                            e,
                            j,
                        ),
                decreases os.len() - oit.pos@,
            {
                let ghost oj = oit.pos@;
                let o: Op;
                match oit.next(self) {
                    None => {
                        proof {
                            assert(os.take(oj) =~= os);
                        }
                        break ;
                    },
                    Some(o0) => {
                        o = o0;
                    },
                }
                proof {
                    assert(os[oj] == o);
                    self.lemma_op_in_arena(e, o);
                    assert(os.take(oj + 1).drop_last() =~= os.take(oj));
                    assert(os.take(oj + 1).last() == o);
                }
                let nb: usize = self.op_branches(o).len();
                let kind = self.op_kind(o);
                if nb > 0 || kind.is_block_terminator() {
                    proof {
                        assert(is_cfg_op(*self, o));
                    }
                    let onode = graph_add_node(&mut graph, CfgNode::Op(o));
                    proof {
                        assert(onode == base + 1 + block_op_nodes(*self, os.take(oj)).len());
                        assert(op_node_idx(*self, e, oj) == onode);
                    }
                    opmap.insert(o.0, onode);
                    graph_add_edge(&mut graph, prev, onode, CfgEdge::Flow);
                    prev = onode;
                    proof {
                        assert(block_op_nodes(*self, os.take(oj + 1)) =~= block_op_nodes(
                            *self,
                            os.take(oj),
                        ).push((false, o.0)));
                        let k = block_op_nodes(*self, os.take(oj)).len() as int;
                        assert(block_flow(base, k + 1) =~= block_flow(base, k).push(
                            ((base + k) as usize, (base + 1 + k) as usize, None::<u32>),
                        ));
                        // key freshness: no earlier node carries this handle
                        assert forall|i: int, j: int|
                            0 <= i < bi && 0 <= j < self.ops_of(s[i]).len() && is_cfg_op(
                                *self,
                                #[trigger] self.ops_of(s[i])[j],
                            ) implies self.ops_of(s[i])[j].0 != o.0 by {
                            if self.ops_of(s[i])[j].0 == o.0 {
                                assert(self.ops_of(s[i])[j] == o);
                                assert(self.ebb_in_layout(s[i])) by {
                                    assert(self.ebb_seq_s()[i] == s[i]);
                                }
                                assert(self.ops_of(s[i]).contains(o));
                                self.lemma_op_unique(s[i], e, o);
                                self.lemma_ebb_unique(i, bi);
                            }
                        }
                        assert forall|j: int| 0 <= j < oj && is_cfg_op(*self, #[trigger] os[j])
                            implies os[j].0 != o.0 by {
                            if os[j].0 == o.0 {
                                assert(os[j] == o);
                                self.lemma_op_pos_unique(e, j, oj);
                            }
                        }
                    }
                } else {
                    proof {
                        assert(!is_cfg_op(*self, o));
                        assert(block_op_nodes(*self, os.take(oj + 1)) =~= block_op_nodes(
                            *self,
                            os.take(oj),
                        ));
                    }
                }
            }
            proof {
                assert(s.take(bi + 1).drop_last() =~= s.take(bi));
                assert(s.take(bi + 1).last() == e);
                assert(nodes_upto(*self, s.take(bi + 1)) =~= nodes_upto(*self, s.take(bi)) + seq![
                    (true, e.0)] + block_op_nodes(*self, os));
                assert(flow_upto(*self, s.take(bi + 1)) =~= flow_upto(*self, s.take(bi))
                    + block_flow(base, block_op_nodes(*self, os).len() as int));
            }
        }
        let total = graph_node_count(&graph);
        proof {
            assert(total == cfg_nodes_of(*self).len());
        }
        // second pass: one call edge per transfer, now that every block node
        // exists
        self.add_call_edges(&mut graph, &blocks, total);
        proof {
            assert(graph_edges(graph) =~= cfg_edges_of(*self));
        }
        let r = FunctionCfg { graph, ebbs: blocks, ops: opmap };
        proof {
            assert forall|e: Ebb| #[trigger] self.ebb_in_layout(e) implies r.ebbs@.contains_key(
                e.0,
            ) && r.ebbs@[e.0] == block_node_idx(*self, e) by {
                let i = choose|i: int| 0 <= i < s.len() && #[trigger] s[i] == e;
                assert(r.ebbs@.contains_key(s[i].0));
            }
            assert forall|e: Ebb, j: int|
                self.ebb_in_layout(e) && 0 <= j < self.ops_of(e).len() && is_cfg_op(
                    *self,
                    #[trigger] self.ops_of(e)[j],
                ) implies r.ops@.contains_key(self.ops_of(e)[j].0) && r.ops@[self.ops_of(e)[j].0]
                == op_node_idx(*self, e, j) by {
                let i = choose|i: int| 0 <= i < s.len() && #[trigger] s[i] == e;
                assert(self.ops_of(s[i])[j] == self.ops_of(e)[j]);
            }
        }
        r
    }
}

/// Taking no operations of a block yields no operation nodes.
pub open spec fn empty_block_prefix(f: Function, e: Ebb) -> bool {
    block_op_nodes(f, f.ops_of(e).take(0)) =~= Seq::<(bool, u32)>::empty()
}

} // verus!
