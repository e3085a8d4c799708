//! Middle tier of an ahead-of-time compiler for a dynamic functional
//! language: an arena-indexed, control-flow-graph-based SSA intermediate
//! representation (functions built from blocks, operations, values and
//! inter-block control transfers), the scope tracker that turns nested
//! lexical scopes into SSA variables and closure-capture lists, a derived
//! control-flow graph, and a local copy/constant propagation pass.
//!
//! Entities are referenced only by small integer handles into arenas owned
//! by one [`fun::Function`]; ordering of blocks and operations lives in a
//! separate intrusive [`fun::Layout`] of previous/next links, so structural
//! mutation is cheap and never invalidates other handles.

use vstd::prelude::*;

pub mod cfg;
pub mod env;
pub mod fun;
pub mod propagate;
pub mod scope;

verus! {

/// An interned source-level name: a handle into the symbol table kept by the
/// surrounding compiler driver.
#[derive(Clone, Copy, PartialEq, Eq, Structural, Debug, Hash)]
pub struct Atom(pub u32);

/// The environment handle and per-environment lambda number that
/// disambiguate a closure from the named function it was lifted out of.
#[derive(Clone, Copy, PartialEq, Eq, Structural, Debug, Hash)]
pub struct LambdaId {
    pub env: crate::env::ClosureEnv,
    pub num: usize,
}

/// Identity of a function: module, name and arity, plus, for a closure, the
/// [`LambdaId`] that tells it apart from other lambdas of the same name.
#[derive(Clone, Copy, PartialEq, Eq, Structural, Debug, Hash)]
pub struct FunctionIdent {
    pub module: Atom,
    pub name: Atom,
    pub arity: usize,
    pub lambda: Option<LambdaId>,
}

/// A compiled module: its name, the finalized closure-environment table and
/// the functions it holds, each under its identity.
pub struct Module {
    pub name: Atom,
    pub envs: crate::env::ModuleEnvs,
    pub functions: Vec<(FunctionIdent, crate::fun::Function)>,
}

} // verus!
