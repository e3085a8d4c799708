use eir::env::ModuleEnvs;
use eir::fun::{ConstantTerm, Function, OpKind, ValueSet, ValueType, WriteToken};
use eir::{Atom, FunctionIdent};

#[test]
fn it_works() {
}

fn ident() -> FunctionIdent {
    FunctionIdent { module: Atom(1), name: Atom(2), arity: 1, lambda: None }
}

#[test]
fn build_and_read_back() {
    let mut f = Function::new(ident());
    assert_eq!(f.ident().arity, 1);
    assert!(f.ebb_entry().is_none());

    let e0 = f.ebb_push();
    let e1 = f.ebb_push();
    assert_eq!(f.ebb_entry(), Some(e0));

    let v = f.new_variable();
    let c = f.new_constant(ConstantTerm::Integer(7));
    assert!(!f.value_is_constant(v));
    assert!(f.value_is_constant(c));
    assert_eq!(*f.value(v), ValueType::Variable);
    assert_eq!(*f.value_constant(c), ConstantTerm::Integer(7));
    assert_eq!(f.iter_constants().len(), 1);
    assert_eq!(f.iter_constants()[0], c);

    let call = f.ebb_call_create(e1, vec![v]);
    assert!(f.ebb_call_source(call).is_none());
    assert_eq!(f.ebb_call_target(call), e1);
    assert_eq!(f.ebb_call_args(call).as_slice(), &[v]);

    let w = f.new_variable();
    let op0 = f.op_push(e0, OpKind::Move, vec![c], vec![w], vec![]);
    let op1 = f.op_push(e0, OpKind::Jump, vec![], vec![], vec![call]);
    assert_eq!(f.ebb_call_source(call), Some(op1));
    assert_eq!(f.op_kind(op0), OpKind::Move);
    assert_eq!(f.op_reads(op0).as_slice(), &[c]);
    assert_eq!(f.op_writes(op0).as_slice(), &[w]);
    assert_eq!(f.op_branches(op1).as_slice(), &[call]);
    assert_eq!(f.ebb_first_op(e0), Some(op0));
    assert_eq!(f.op_after(op0), Some(op1));
    assert_eq!(f.op_before(op1), Some(op0));
    assert_eq!(f.op_ebb(op0), Some(e0));

    // forward and backward iteration in layout order
    let mut it = f.iter_ebb();
    assert_eq!(it.next(&f), Some(e0));
    assert_eq!(it.next(&f), Some(e1));
    assert_eq!(it.next(&f), None);
    let mut oit = f.iter_op(e0);
    assert_eq!(oit.next(&f), Some(op0));
    assert_eq!(oit.next(&f), Some(op1));
    assert_eq!(oit.next(&f), None);
    let mut rit = f.iter_op_rev(e0);
    assert_eq!(rit.next(&f), Some(op1));
    assert_eq!(rit.next(&f), Some(op0));
    assert_eq!(rit.next(&f), None);
    let mut rfit = f.iter_op_rev_from(op0);
    assert_eq!(rfit.next(&f), Some(op0));
    assert_eq!(rfit.next(&f), None);

    // used values: one full scan
    let mut set = ValueSet::new();
    f.used_values(&mut set);
    assert!(set.contains(c));
    assert!(set.contains(w));
    assert!(set.contains(v));

    // removal only unlinks
    let mut tokens: Vec<WriteToken> = Vec::new();
    f.op_remove_take_writes(op0, &mut tokens);
    assert_eq!(tokens, vec![WriteToken(w)]);
    assert_eq!(f.ebb_first_op(e0), Some(op1));
    assert_eq!(f.op_before(op1), None);

    f.ebb_remove(e1);
    let mut it2 = f.iter_ebb();
    assert_eq!(it2.next(&f), Some(e0));
    assert_eq!(it2.next(&f), None);

    // retargeting a transfer
    let e2 = f.ebb_push();
    f.ebb_call_set_target(call, e2);
    assert_eq!(f.ebb_call_target(call), e2);
}

#[test]
fn module_envs_record() {
    let mut envs = ModuleEnvs::new();
    let h = envs.add();
    assert_eq!(h.0, 0);
    envs.env_set_captures_num(h, 3);
    envs.env_add_meta_bind(h, ident());
    let data = envs.env_data(h);
    assert_eq!(data.captures_num, Some(3));
    assert_eq!(data.meta_binds.len(), 1);
    assert_eq!(envs.len(), 1);
}
