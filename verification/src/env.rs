//! Module-wide closure-environment table.
//!
//! Each closure compiled in a module owns one environment, addressed by a
//! [`ClosureEnv`] handle. While a closure body is being compiled the scope
//! tracker accumulates its capture list; at the end the table records, per
//! environment, the number of captured variables and the list of meta binds
//! (identities of functions bound for recursive self-reference). The
//! native-code backend reads the finished table to size environment
//! allocations and wire recursive calls.

use vstd::prelude::*;

use crate::FunctionIdent;

verus! {

/// Handle of one closure environment in a [`ModuleEnvs`] table.
#[derive(Clone, Copy, PartialEq, Eq, Structural, Debug, Hash)]
pub struct ClosureEnv(pub u32);

/// What the module-wide table records for one closure environment.
#[derive(Debug)]
pub struct EnvData {
    /// How many variables the closure captures; `None` until finalized.
    pub captures_num: Option<usize>,
    /// Identities of functions bound inside the environment for recursive
    /// self-reference, in registration order.
    pub meta_binds: Vec<FunctionIdent>,
}

/// The mathematical content of one environment record.
#[verifier::ext_equal]
pub struct EnvDataView {
    pub captures_num: Option<usize>,
    pub meta_binds: Seq<FunctionIdent>,
}

impl EnvData {
    pub open spec fn view(&self) -> EnvDataView {
        EnvDataView { captures_num: self.captures_num, meta_binds: self.meta_binds@ }
    }
}

/// The module-wide closure-environment table: one [`EnvData`] per allocated
/// [`ClosureEnv`] handle.
pub struct ModuleEnvs {
    envs: Vec<EnvData>,
}

impl ModuleEnvs {
    /// The sequence of environment records, indexed by handle.
    pub closed spec fn view(&self) -> Seq<EnvDataView> {
        self.envs@.map(|i: int, e: EnvData| e@)
    }

    /// Is `env` a handle this table has allocated?
    pub open spec fn has_env(&self, env: ClosureEnv) -> bool {
        env.0 < self@.len()
    }

    pub fn new() -> (r: Self)
        ensures
            r@ =~= Seq::<EnvDataView>::empty(),
    {
        ModuleEnvs { envs: Vec::new() }
    }

    /// Allocate a fresh environment handle with no captures recorded yet.
    pub fn add(&mut self) -> (r: ClosureEnv)
        requires
            old(self)@.len() < u32::MAX,
        ensures
            r.0 == old(self)@.len(),
            final(self)@ =~= old(self)@.push(
                EnvDataView { captures_num: None, meta_binds: Seq::empty() },
            ),
    {
        let idx: u32 = self.envs.len() as u32;
        self.envs.push(EnvData { captures_num: None, meta_binds: Vec::new() });
        ClosureEnv(idx)
    }

    /// Record the final capture count of `env`.
    pub fn env_set_captures_num(&mut self, env: ClosureEnv, num: usize)
        requires
            old(self).has_env(env),
        ensures
            final(self)@ =~= old(self)@.update(
                env.0 as int,
                EnvDataView {
                    captures_num: Some(num),
                    meta_binds: old(self)@[env.0 as int].meta_binds,
                },
            ),
    {
        let data = &mut self.envs[env.0 as usize];
        data.captures_num = Some(num);
    }

    /// Append one meta bind to `env`.
    pub fn env_add_meta_bind(&mut self, env: ClosureEnv, ident: FunctionIdent)
        requires
            old(self).has_env(env),
        ensures
            final(self)@ =~= old(self)@.update(
                env.0 as int,
                EnvDataView {
                    captures_num: old(self)@[env.0 as int].captures_num,
                    meta_binds: old(self)@[env.0 as int].meta_binds.push(ident),
                },
            ),
    {
        let data = &mut self.envs[env.0 as usize];
        data.meta_binds.push(ident);
    }

    /// How many environments are allocated.
    pub fn len(&self) -> (r: usize)
        ensures
            r == self@.len(),
    {
        self.envs.len()
    }

    /// Read the record of `env`.
    pub fn env_data(&self, env: ClosureEnv) -> (r: &EnvData)
        requires
            self.has_env(env),
        ensures
            r@ == self@[env.0 as int],
    {
        &self.envs[env.0 as usize]
    }
}

} // verus!
