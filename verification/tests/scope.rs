use eir::env::ClosureEnv;
use eir::scope::{
    Capture, FatalError, MetaBind, SSAPair, SSAVariable, ScopeDefinition, ScopeMap, ScopeTracker,
    VerboseLambdaEnv,
};
use eir::{Atom, FunctionIdent};

fn var(n: u32) -> ScopeDefinition {
    ScopeDefinition::Variable(Atom(n))
}

#[test]
fn shadowing_resolves_inner_then_outer_again() {
    let mut t = ScopeTracker::new();
    let outer = t.new_ssa();
    let inner = t.new_ssa();
    let mut m0 = ScopeMap::new();
    m0.insert(var(1), outer);
    t.push_scope(m0);
    let mut m1 = ScopeMap::new();
    m1.insert(var(1), inner);
    t.push_scope(m1);
    assert_eq!(t.get(&var(1)), Some(inner));
    assert_eq!(t.pop_scope(), Ok(()));
    assert_eq!(t.get(&var(1)), Some(outer));
}

#[test]
fn mismatched_pop_is_fatal() {
    let mut t = ScopeTracker::new();
    t.push_scope(ScopeMap::new());
    assert!(matches!(t.pop_tracking(), Err(FatalError::MismatchedPop)));
    assert_eq!(t.pop_scope(), Ok(()));

    let mut t2 = ScopeTracker::new();
    t2.push_tracking();
    assert_eq!(t2.pop_scope(), Err(FatalError::MismatchedPop));
    assert!(t2.pop_tracking().is_ok());

    let mut t3 = ScopeTracker::new();
    assert_eq!(t3.pop_scope(), Err(FatalError::EmptyScopeStack));
    assert!(matches!(t3.pop_tracking(), Err(FatalError::EmptyScopeStack)));
}

#[test]
fn capture_is_idempotent() {
    let mut t = ScopeTracker::new();
    let outer = t.new_ssa();
    let mut m = ScopeMap::new();
    m.insert(var(1), outer);
    t.push_scope(m);
    t.push_tracking();
    let first = t.get(&var(1)).unwrap();
    let second = t.get(&var(1)).unwrap();
    assert_eq!(first, second);
    assert_ne!(first, outer);
    let captures = t.pop_tracking().unwrap();
    assert_eq!(captures.len(), 1);
    assert_eq!(captures.get(&var(1)), Some(SSAPair { outer, inner: first }));
}

#[test]
fn capture_outer_never_changes() {
    let mut t = ScopeTracker::new();
    let vx = t.new_ssa();
    let vy = t.new_ssa();
    let mut m = ScopeMap::new();
    m.insert(var(1), vx);
    m.insert(var(2), vy);
    t.push_scope(m);
    t.push_tracking();
    let ix = t.get(&var(1)).unwrap();
    let _iy = t.get(&var(2)).unwrap();
    let ix2 = t.get(&var(1)).unwrap();
    assert_eq!(ix, ix2);
    let captures = t.pop_tracking().unwrap();
    assert_eq!(captures.get(&var(1)), Some(SSAPair { outer: vx, inner: ix }));
}

#[test]
fn nested_tracking_renames_through_both_frames() {
    let mut t = ScopeTracker::new();
    let outer = t.new_ssa();
    let mut m = ScopeMap::new();
    m.insert(var(1), outer);
    t.push_scope(m);
    t.push_tracking();
    t.push_tracking();
    let innermost = t.get(&var(1)).unwrap();
    let inner_map = t.pop_tracking().unwrap();
    let outer_map = t.pop_tracking().unwrap();
    let outer_entry = outer_map.get(&var(1)).unwrap();
    let inner_entry = inner_map.get(&var(1)).unwrap();
    assert_eq!(outer_entry.outer, outer);
    assert_eq!(inner_entry.outer, outer_entry.inner);
    assert_eq!(inner_entry.inner, innermost);
}

#[test]
fn unbound_name_resolves_to_none() {
    let mut t = ScopeTracker::new();
    t.push_tracking();
    assert_eq!(t.get(&var(9)), None);
    // a failed resolution records nothing
    let captures = t.pop_tracking().unwrap();
    assert_eq!(captures.len(), 0);
}

#[test]
fn lambda_env_registration_and_finish() {
    let mut t = ScopeTracker::new();
    let env = t.gen_env_idx();
    assert_eq!(env, ClosureEnv(0));
    let fun_ident = FunctionIdent { module: Atom(1), name: Atom(3), arity: 0, lambda: None };
    let ve = VerboseLambdaEnv {
        env,
        captures: vec![Capture {
            name: var(1),
            outer: SSAVariable(0),
            inner: SSAVariable(1),
        }],
        meta_binds: vec![MetaBind { fun: fun_ident, fun_var: SSAVariable(2), self_ref: None }],
    };
    assert!(t.add_lambda_env(env, ve).is_ok());
    assert!(t.get_lambda_env(env).is_some());
    assert!(t.get_lambda_env(ClosureEnv(7)).is_none());
    let dup = VerboseLambdaEnv { env, captures: vec![], meta_binds: vec![] };
    assert_eq!(
        t.add_lambda_env(env, dup).unwrap_err(),
        FatalError::DuplicateEnvRegistration
    );
    let envs = t.finish();
    let data = envs.env_data(env);
    assert_eq!(data.captures_num, Some(1));
    assert_eq!(data.meta_binds, vec![fun_ident]);
}

#[test]
fn generator_counts_up() {
    let mut t = ScopeTracker::new();
    let a = t.new_ssa();
    let b = t.new_ssa();
    assert_eq!(a, SSAVariable(0));
    assert_eq!(b, SSAVariable(1));
    let g = t.clone_ssa_generator();
    let mut g2 = g;
    assert_eq!(g2.next(), SSAVariable(2));
}
