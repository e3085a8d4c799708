use eir::fun::{ConstantTerm, Function, Op, OpKind};
use eir::propagate::propagate_atomics;
use eir::{Atom, FunctionIdent};

fn ident() -> FunctionIdent {
    FunctionIdent { module: Atom(1), name: Atom(2), arity: 0, lambda: None }
}

fn ops_in(f: &Function, e: eir::fun::Ebb) -> Vec<Op> {
    let mut out = Vec::new();
    let mut it = f.iter_op(e);
    while let Some(o) = it.next(f) {
        out.push(o);
    }
    out
}

#[test]
fn move_chain_propagates_constant() {
    let mut f = Function::new(ident());
    let e = f.ebb_push();
    let c5 = f.new_constant(ConstantTerm::Integer(5));
    let a = f.new_variable();
    let b = f.new_variable();
    let c = f.new_variable();
    let d = f.new_variable();
    let _m1 = f.op_push(e, OpKind::Move, vec![c5], vec![a], vec![]);
    let _m2 = f.op_push(e, OpKind::Move, vec![a], vec![b], vec![]);
    let _m3 = f.op_push(e, OpKind::Move, vec![b], vec![c], vec![]);
    let user = f.op_push(e, OpKind::PrimOp(Atom(9)), vec![a, b, c], vec![d], vec![]);
    let ret = f.op_push(e, OpKind::Return, vec![d], vec![], vec![]);
    propagate_atomics(&mut f);
    // all three moves are deleted, every read of a, b, c now reads CONST 5
    assert_eq!(ops_in(&f, e), vec![user, ret]);
    assert_eq!(f.op_reads(user).as_slice(), &[c5, c5, c5]);
    assert_eq!(f.op_reads(ret).as_slice(), &[d]);
}

#[test]
fn cross_edge_read_is_preserved() {
    let mut f = Function::new(ident());
    let e = f.ebb_push();
    let e2 = f.ebb_push();
    let c5 = f.new_constant(ConstantTerm::Integer(5));
    let a = f.new_variable();
    let b = f.new_variable();
    let c = f.new_variable();
    let d = f.new_variable();
    let m1 = f.op_push(e, OpKind::Move, vec![c5], vec![a], vec![]);
    let m2 = f.op_push(e, OpKind::Move, vec![a], vec![b], vec![]);
    let _m3 = f.op_push(e, OpKind::Move, vec![b], vec![c], vec![]);
    let user = f.op_push(e, OpKind::PrimOp(Atom(9)), vec![a, b, c], vec![d], vec![]);
    let call = f.ebb_call_create(e2, vec![b]);
    let jump = f.op_push(e, OpKind::Jump, vec![], vec![], vec![call]);
    propagate_atomics(&mut f);
    // the move defining b is read across the edge, so it must survive;
    // the argument position still reads b
    assert_eq!(ops_in(&f, e), vec![m2, user, jump]);
    assert_eq!(f.ebb_call_args(call).as_slice(), &[b]);
    // the surviving move's own read of a is rewritten to the constant,
    // and reads of the deleted c go to b, the surviving definition
    assert!(!ops_in(&f, e).contains(&m1));
    assert_eq!(f.op_reads(m2).as_slice(), &[c5]);
    assert_eq!(f.op_reads(user).as_slice(), &[c5, b, b]);
}

#[test]
fn unpack_value_list_arity_policy() {
    let mut f = Function::new(ident());
    let e = f.ebb_push();
    let c5 = f.new_constant(ConstantTerm::Integer(5));
    let x = f.new_variable();
    let w = f.new_variable();
    let w1 = f.new_variable();
    let w2 = f.new_variable();
    let d = f.new_variable();
    // zero writes: deleted outright
    let _u0 = f.op_push(e, OpKind::UnpackValueList, vec![x], vec![], vec![]);
    // one write with a constant source: deleted, constant propagated
    let _u1 = f.op_push(e, OpKind::UnpackValueList, vec![c5], vec![w], vec![]);
    // two writes: left untouched
    let u2 = f.op_push(e, OpKind::UnpackValueList, vec![x], vec![w1, w2], vec![]);
    let user = f.op_push(e, OpKind::PrimOp(Atom(9)), vec![w, w1, w2], vec![d], vec![]);
    let ret = f.op_push(e, OpKind::Return, vec![d], vec![], vec![]);
    propagate_atomics(&mut f);
    assert_eq!(ops_in(&f, e), vec![u2, user, ret]);
    assert_eq!(f.op_reads(u2).as_slice(), &[x]);
    assert_eq!(f.op_writes(u2).as_slice(), &[w1, w2]);
    assert_eq!(f.op_reads(user).as_slice(), &[c5, w1, w2]);
}

#[test]
fn pass_is_noop_without_trivial_definitions() {
    let mut f = Function::new(ident());
    let e = f.ebb_push();
    let x = f.new_variable();
    let d = f.new_variable();
    let user = f.op_push(e, OpKind::PrimOp(Atom(9)), vec![x], vec![d], vec![]);
    let ret = f.op_push(e, OpKind::Return, vec![d], vec![], vec![]);
    propagate_atomics(&mut f);
    assert_eq!(ops_in(&f, e), vec![user, ret]);
    assert_eq!(f.op_reads(user).as_slice(), &[x]);
    assert_eq!(f.op_reads(ret).as_slice(), &[d]);
}
