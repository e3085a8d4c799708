use eir::cfg::{CfgEdge, CfgNode};
use eir::fun::{Function, OpKind};
use eir::{Atom, FunctionIdent};
use petgraph::graph::{EdgeIndex, NodeIndex};

fn ident() -> FunctionIdent {
    FunctionIdent { module: Atom(1), name: Atom(2), arity: 0, lambda: None }
}

#[test]
fn single_jump_shape() {
    let mut f = Function::new(ident());
    let b0 = f.ebb_push();
    let b1 = f.ebb_push();
    let call = f.ebb_call_create(b1, vec![]);
    let jump = f.op_push(b0, OpKind::Jump, vec![], vec![], vec![call]);
    let cfg = f.gen_cfg();
    // nodes: block 0, its one branching operation, and block 1
    assert_eq!(cfg.graph.node_count(), 3);
    assert_eq!(
        cfg.graph.node_weight(NodeIndex::new(0)),
        Some(&CfgNode::Ebb(b0))
    );
    assert_eq!(
        cfg.graph.node_weight(NodeIndex::new(1)),
        Some(&CfgNode::Op(jump))
    );
    assert_eq!(
        cfg.graph.node_weight(NodeIndex::new(2)),
        Some(&CfgNode::Ebb(b1))
    );
    // exactly one flow edge into the branching operation, and one call edge,
    // labeled with that transfer, to the target block's node
    assert_eq!(cfg.graph.edge_count(), 2);
    assert_eq!(cfg.graph.edge_weight(EdgeIndex::new(0)), Some(&CfgEdge::Flow));
    assert_eq!(
        cfg.graph.edge_endpoints(EdgeIndex::new(0)),
        Some((NodeIndex::new(0), NodeIndex::new(1)))
    );
    let call_edges: Vec<EdgeIndex<usize>> = (0..cfg.graph.edge_count())
        .map(EdgeIndex::new)
        .filter(|ix| matches!(cfg.graph.edge_weight(*ix), Some(CfgEdge::Call(_))))
        .collect();
    assert_eq!(call_edges.len(), 1);
    assert_eq!(cfg.graph.edge_weight(call_edges[0]), Some(&CfgEdge::Call(call)));
    assert_eq!(
        cfg.graph.edge_endpoints(call_edges[0]),
        Some((NodeIndex::new(1), NodeIndex::new(2)))
    );
    // the index maps point at the right nodes
    assert_eq!(cfg.ebbs.get(b0.0), Some(0));
    assert_eq!(cfg.ops.get(jump.0), Some(1));
    assert_eq!(cfg.ebbs.get(b1.0), Some(2));
}

#[test]
fn fall_through_block_has_only_terminator_node() {
    let mut f = Function::new(ident());
    let b0 = f.ebb_push();
    let x = f.new_variable();
    let y = f.new_variable();
    // a non-branching operation gets no node of its own
    let _mv = f.op_push(b0, OpKind::Move, vec![x], vec![y], vec![]);
    let _ret = f.op_push(b0, OpKind::Return, vec![], vec![], vec![]);
    let cfg = f.gen_cfg();
    assert_eq!(cfg.graph.node_count(), 2);
    assert_eq!(cfg.graph.edge_count(), 1);
    assert_eq!(cfg.graph.edge_weight(EdgeIndex::new(0)), Some(&CfgEdge::Flow));
}
