//! The arena-indexed IR store.
//!
//! A [`Function`] owns arenas of operations, basic blocks ("Ebbs"), values,
//! inter-block control transfers ("EbbCalls") and function references, all
//! addressed by small integer handles. The order of blocks, and of the
//! operations inside each block, lives in a separate intrusive [`Layout`] of
//! previous/next links over those handles, so insertion and removal are O(1)
//! and never invalidate handles held elsewhere.
//!
//! The layout carries its own mathematical model: the sequence of linked
//! blocks ([`Function::ebb_seq_s`]) and, per block, the sequence of linked
//! operations ([`Function::ops_of`]). The well-formedness invariant
//! [`Function::inv`] ties every previous/next link to a position in those
//! sequences; every mutator preserves it and every accessor relies on it.

use vstd::prelude::*;

use crate::Atom;
use crate::FunctionIdent;

verus! {

/// Basic block in a function.
#[derive(Clone, Copy, PartialEq, Eq, Structural, Debug, Hash, PartialOrd, Ord)]
pub struct Ebb(pub u32);

/// Operation in a block.
#[derive(Clone, Copy, PartialEq, Eq, Structural, Debug, Hash, PartialOrd, Ord)]
pub struct Op(pub u32);

/// Either an SSA variable or a reference to a constant.
#[derive(Clone, Copy, PartialEq, Eq, Structural, Debug, Hash, PartialOrd, Ord)]
pub struct Value(pub u32);

/// One control transfer from an operation to a block.
#[derive(Clone, Copy, PartialEq, Eq, Structural, Debug, Hash, PartialOrd, Ord)]
pub struct EbbCall(pub u32);

/// Reference to another function.
#[derive(Clone, Copy, PartialEq, Eq, Structural, Debug, Hash, PartialOrd, Ord)]
pub struct FunRef(pub u32);

/// An inert record that a deleted operation used to define this value; it
/// grants no access to the removed structure.
#[derive(Clone, Copy, PartialEq, Eq, Structural, Debug)]
pub struct WriteToken(pub Value);

/// A compile-time constant.
#[derive(Clone, Copy, PartialEq, Eq, Structural, Debug, Hash)]
pub enum ConstantTerm {
    Integer(i64),
    Atomic(Atom),
    Nil,
}

/// The operator of one IR operation.
#[derive(Clone, Copy, PartialEq, Eq, Structural, Debug)]
pub enum OpKind {
    /// A plain move of its single read into its single write.
    Move,
    /// Unpack a value list into zero or more writes.
    UnpackValueList,
    /// Call another function; carries the control transfers taken on return
    /// and on exception, so it ends its block.
    Call(FunRef),
    /// Unconditional transfer to another block; ends its block.
    Jump,
    /// Return from the function; ends its block.
    Return,
    /// A primitive operation, named by an interned symbol.
    PrimOp(Atom),
}

impl OpKind {
    /// Does an operation of this kind always end its block?
    pub open spec fn is_block_terminator_s(&self) -> bool {
        match self {
            OpKind::Call(_) => true,
            OpKind::Jump => true,
            OpKind::Return => true,
            _ => false,
        }
    }

    pub fn is_block_terminator(&self) -> (r: bool)
        ensures
            r == self.is_block_terminator_s(),
    {
        match self {
            OpKind::Call(_) => true,
            OpKind::Jump => true,
            OpKind::Return => true,
            _ => false,
        }
    }
}

/// Classification of a value; fixed at creation.
#[derive(PartialEq, Eq, Structural, Debug, Clone, Copy)]
pub enum ValueType {
    Variable,
    Constant(ConstantTerm),
}

/// Arena record of one operation.
pub struct OpData {
    kind: OpKind,
    reads: Vec<Value>,
    writes: Vec<Value>,
    ebb_calls: Vec<EbbCall>,
}

/// Arena record of one block.
pub struct EbbData {
    arguments: Vec<Value>,
    finished: bool,
}

/// Arena record of one control transfer: the operation it leaves (absent
/// only until the transfer is attached), the block it enters, and the values
/// passed positionally to that block's formal arguments.
pub struct EbbCallData {
    source: Option<Op>,
    target: Ebb,
    values: Vec<Value>,
}

/// Intrusive ordering links of one block.
#[derive(Clone, Copy, PartialEq, Eq, Structural, Debug)]
pub struct EbbNode {
    prev: Option<Ebb>,
    next: Option<Ebb>,
    first_op: Option<Op>,
    last_op: Option<Op>,
}

/// Intrusive ordering links of one operation.
#[derive(Clone, Copy, PartialEq, Eq, Structural, Debug)]
pub struct OpNode {
    ebb: Option<Ebb>,
    prev: Option<Op>,
    next: Option<Op>,
}

/// The ordering layer: previous/next links over block and operation handles,
/// separate from the arenas that own their data, together with the sequences
/// those links spell out.
pub struct Layout {
    ebbs: Vec<EbbNode>,
    ops: Vec<OpNode>,
    first_ebb: Option<Ebb>,
    last_ebb: Option<Ebb>,
    ebb_seq: Ghost<Seq<Ebb>>,
    op_seqs: Ghost<Map<Ebb, Seq<Op>>>,
}

/// The element before position `i`, if any.
pub open spec fn link_prev<T>(s: Seq<T>, i: int) -> Option<T> {
    if i == 0 {
        None
    } else {
        Some(s[i - 1])
    }
}

/// The element after position `i`, if any.
pub open spec fn link_next<T>(s: Seq<T>, i: int) -> Option<T> {
    if i == s.len() - 1 {
        None
    } else {
        Some(s[i + 1])
    }
}

impl Layout {
    /// The links of the operation at position `j` of block `e`'s sequence
    /// agree with that sequence.
    spec fn op_node_ok(&self, e: Ebb, j: int) -> bool {
        let os = self.op_seqs@[e];
        let o = os[j];
        &&& o.0 < self.ops@.len()
        &&& self.ops@[o.0 as int].ebb == Some(e)
        &&& self.ops@[o.0 as int].prev == link_prev(os, j)
        &&& self.ops@[o.0 as int].next == link_next(os, j)
    }

    /// Block `e`'s first/last-operation links and every operation link agree
    /// with its operation sequence.
    spec fn op_chain_ok(&self, e: Ebb) -> bool {
        let os = self.op_seqs@[e];
        &&& if os.len() == 0 {
            self.ebbs@[e.0 as int].first_op is None && self.ebbs@[e.0 as int].last_op is None
        } else {
            self.ebbs@[e.0 as int].first_op == Some(os[0]) && self.ebbs@[e.0 as int].last_op
                == Some(os[os.len() - 1])
        }
        &&& forall|j: int| 0 <= j < os.len() ==> #[trigger] self.op_node_ok(e, j)
    }

    /// The links of the block at position `i` of the block sequence agree
    /// with that sequence, and its operation chain is well formed.
    spec fn ebb_node_ok(&self, i: int) -> bool {
        let s = self.ebb_seq@;
        let e = s[i];
        &&& e.0 < self.ebbs@.len()
        &&& self.ebbs@[e.0 as int].prev == link_prev(s, i)
        &&& self.ebbs@[e.0 as int].next == link_next(s, i)
        &&& self.op_seqs@.contains_key(e)
        &&& self.op_chain_ok(e)
    }

    /// The operation at block position `i`, operation position `j`.
    spec fn op_at(&self, i: int, j: int) -> Op {
        self.op_seqs@[self.ebb_seq@[i]][j]
    }

    /// No operation is linked at two positions.
    spec fn ops_distinct(&self) -> bool {
        forall|i1: int, j1: int, i2: int, j2: int|
            0 <= i1 < self.ebb_seq@.len() && 0 <= j1 < self.op_seqs@[self.ebb_seq@[i1]].len() && 0
                <= i2 < self.ebb_seq@.len() && 0 <= j2 < self.op_seqs@[self.ebb_seq@[i2]].len() && (
            i1 != i2 || j1 != j2) ==> #[trigger] self.op_at(i1, j1) != #[trigger] self.op_at(
                i2,
                j2,
            )
    }

    /// The whole ordering layer is well formed.
    spec fn wf(&self) -> bool {
        let s = self.ebb_seq@;
        &&& s.no_duplicates()
        &&& if s.len() == 0 {
            self.first_ebb is None && self.last_ebb is None
        } else {
            self.first_ebb == Some(s[0]) && self.last_ebb == Some(s[s.len() - 1])
        }
        &&& forall|i: int| 0 <= i < s.len() ==> #[trigger] self.ebb_node_ok(i)
        &&& self.ops_distinct()
    }

    fn new() -> (r: Self)
        ensures
            r.ebb_seq@ =~= Seq::<Ebb>::empty(),
            r.op_seqs@ =~= Map::<Ebb, Seq<Op>>::empty(),
            r.ebbs@.len() == 0,
            r.ops@.len() == 0,
            r.wf(),
    {
        Layout {
            ebbs: Vec::new(),
            ops: Vec::new(),
            first_ebb: None,
            last_ebb: None,
            ebb_seq: Ghost(Seq::empty()),
            op_seqs: Ghost(Map::empty()),
        }
    }
}

/// The position of `o` in `s` (meaningful when `s` holds `o`).
pub open spec fn pos_of(s: Seq<Op>, o: Op) -> int {
    choose|j: int| 0 <= j < s.len() && s[j] == o
}

/// A forward cursor over a function's blocks. It borrows nothing: each step
/// takes the function it was made from.
pub struct EbbIter {
    pub cursor: Option<Ebb>,
    pub pos: Ghost<int>,
}

impl EbbIter {
    /// The cursor stands at position `pos` of `f`'s block sequence.
    pub open spec fn wf(&self, f: &Function) -> bool {
        &&& 0 <= self.pos@ <= f.ebb_seq_s().len()
        &&& self.cursor == if self.pos@ < f.ebb_seq_s().len() {
            Some(f.ebb_seq_s()[self.pos@])
        } else {
            None::<Ebb>
        }
    }

    /// The block under the cursor, advancing past it; `None` at the end.
    pub fn next(&mut self, f: &Function) -> (r: Option<Ebb>)
        requires
            f.inv(),
            old(self).wf(f),
        ensures
            final(self).wf(f),
            old(self).pos@ < f.ebb_seq_s().len() ==> r == Some(f.ebb_seq_s()[old(self).pos@])
                && final(self).pos@ == old(self).pos@ + 1,
            old(self).pos@ == f.ebb_seq_s().len() ==> r is None && final(self).pos@ == old(self).pos@,
    {
        match self.cursor {
            None => None,
            Some(e) => {
                proof {
                    assert(f.layout.ebb_node_ok(self.pos@));
                }
                self.cursor = f.layout.ebbs[e.0 as usize].next;
                self.pos = Ghost(self.pos@ + 1);
                Some(e)
            },
        }
    }
}

/// A forward cursor over one block's operations.
pub struct OpIter {
    pub ebb: Ebb,
    pub cursor: Option<Op>,
    pub pos: Ghost<int>,
}

impl OpIter {
    /// The cursor stands at position `pos` of its block's operations.
    pub open spec fn wf(&self, f: &Function) -> bool {
        &&& f.ebb_in_layout(self.ebb)
        &&& 0 <= self.pos@ <= f.ops_of(self.ebb).len()
        &&& self.cursor == if self.pos@ < f.ops_of(self.ebb).len() {
            Some(f.ops_of(self.ebb)[self.pos@])
        } else {
            None::<Op>
        }
    }

    /// The operation under the cursor, advancing past it; `None` at the end.
    pub fn next(&mut self, f: &Function) -> (r: Option<Op>)
        requires
            f.inv(),
            old(self).wf(f),
        ensures
            final(self).wf(f),
            final(self).ebb == old(self).ebb,
            old(self).pos@ < f.ops_of(old(self).ebb).len() ==> r == Some(
                f.ops_of(old(self).ebb)[old(self).pos@],
            ) && final(self).pos@ == old(self).pos@ + 1,
            old(self).pos@ == f.ops_of(old(self).ebb).len() ==> r is None && final(self).pos@
                == old(self).pos@,
    {
        match self.cursor {
            None => None,
            Some(o) => {
                proof {
                    let i = choose|i: int|
                        0 <= i < f.ebb_seq_s().len() && f.ebb_seq_s()[i] == self.ebb;
                    assert(f.layout.ebb_node_ok(i));
                    assert(f.layout.op_node_ok(self.ebb, self.pos@));
                }
                self.cursor = f.layout.ops[o.0 as usize].next;
                self.pos = Ghost(self.pos@ + 1);
                Some(o)
            },
        }
    }
}

/// A backward cursor over one block's operations.
pub struct RevOpIter {
    pub ebb: Ebb,
    pub cursor: Option<Op>,
    pub pos: Ghost<int>,
}

impl RevOpIter {
    /// The cursor stands at position `pos`, counting down; `-1` is the end.
    pub open spec fn wf(&self, f: &Function) -> bool {
        &&& f.ebb_in_layout(self.ebb)
        &&& -1 <= self.pos@ < f.ops_of(self.ebb).len()
        &&& self.cursor == if self.pos@ >= 0 {
            Some(f.ops_of(self.ebb)[self.pos@])
        } else {
            None::<Op>
        }
    }

    /// The operation under the cursor, stepping backward; `None` at the
    /// block's start.
    pub fn next(&mut self, f: &Function) -> (r: Option<Op>)
        requires
            f.inv(),
            old(self).wf(f),
        ensures
            final(self).wf(f),
            final(self).ebb == old(self).ebb,
            old(self).pos@ >= 0 ==> r == Some(f.ops_of(old(self).ebb)[old(self).pos@]) && final(self).pos@ == old(self).pos@ - 1,
            old(self).pos@ < 0 ==> r is None && final(self).pos@ == old(self).pos@,
    {
        match self.cursor {
            None => None,
            Some(o) => {
                proof {
                    let i = choose|i: int|
                        0 <= i < f.ebb_seq_s().len() && f.ebb_seq_s()[i] == self.ebb;
                    assert(f.layout.ebb_node_ok(i));
                    assert(f.layout.op_node_ok(self.ebb, self.pos@));
                }
                self.cursor = f.layout.ops[o.0 as usize].prev;
                self.pos = Ghost(self.pos@ - 1);
                Some(o)
            },
        }
    }
}


/// One function under construction or finished: all arenas plus the layout.
/// Everything is reached through handle-based accessors, so the invariant is
/// enforced at this boundary.
pub struct Function {
    ident: FunctionIdent,
    layout: Layout,
    ops: Vec<OpData>,
    ebbs: Vec<EbbData>,
    values: Vec<ValueType>,
    ebb_calls: Vec<EbbCallData>,
    fun_refs: Vec<FunctionIdent>,
    constant_values: Vec<Value>,
}

/// Is every value of `s` a handle below `n`?
pub open spec fn vals_below(s: Seq<Value>, n: nat) -> bool {
    forall|k: int| 0 <= k < s.len() ==> (#[trigger] s[k]).0 < n
}

impl Function {
    /// The identity this function was created under.
    pub closed spec fn ident_s(&self) -> FunctionIdent {
        self.ident
    }

    /// The linked blocks, in layout order.
    pub closed spec fn ebb_seq_s(&self) -> Seq<Ebb> {
        self.layout.ebb_seq@
    }

    /// The linked operations of block `e`, in layout order.
    pub closed spec fn ops_of(&self, e: Ebb) -> Seq<Op> {
        self.layout.op_seqs@[e]
    }

    /// Is `e` currently linked into the layout?
    pub open spec fn ebb_in_layout(&self, e: Ebb) -> bool {
        self.ebb_seq_s().contains(e)
    }

    /// Is `o` currently linked into block `e`?
    pub open spec fn op_in_ebb(&self, e: Ebb, o: Op) -> bool {
        self.ebb_in_layout(e) && self.ops_of(e).contains(o)
    }

    /// Is `o` currently linked into some block?
    pub open spec fn op_in_layout(&self, o: Op) -> bool {
        exists|e: Ebb| self.op_in_ebb(e, o)
    }

    /// How many blocks the arena holds (linked or not).
    pub closed spec fn num_ebbs(&self) -> nat {
        self.ebbs@.len()
    }

    /// How many operations the arena holds (linked or not).
    pub closed spec fn num_ops(&self) -> nat {
        self.ops@.len()
    }

    /// How many values exist.
    pub closed spec fn num_values(&self) -> nat {
        self.values@.len()
    }

    /// How many control transfers exist.
    pub closed spec fn num_ebb_calls(&self) -> nat {
        self.ebb_calls@.len()
    }

    /// How many function references exist.
    pub closed spec fn num_fun_refs(&self) -> nat {
        self.fun_refs@.len()
    }

    /// The operator of operation `o`.
    pub closed spec fn op_kind_s(&self, o: Op) -> OpKind {
        self.ops@[o.0 as int].kind
    }

    /// The ordered read operands of operation `o`.
    pub closed spec fn op_reads_s(&self, o: Op) -> Seq<Value> {
        self.ops@[o.0 as int].reads@
    }

    /// The ordered write operands of operation `o`.
    pub closed spec fn op_writes_s(&self, o: Op) -> Seq<Value> {
        self.ops@[o.0 as int].writes@
    }

    /// The ordered outgoing control transfers of operation `o`.
    pub closed spec fn op_branches_s(&self, o: Op) -> Seq<EbbCall> {
        self.ops@[o.0 as int].ebb_calls@
    }

    /// The block the layout links operation `o` into, if any.
    pub closed spec fn op_ebb_s(&self, o: Op) -> Option<Ebb> {
        self.layout.ops@[o.0 as int].ebb
    }

    /// The formal arguments of block `e`.
    pub closed spec fn ebb_args_s(&self, e: Ebb) -> Seq<Value> {
        self.ebbs@[e.0 as int].arguments@
    }

    /// Has block `e` received its terminator?
    pub closed spec fn ebb_finished_s(&self, e: Ebb) -> bool {
        self.ebbs@[e.0 as int].finished
    }

    /// The operation transfer `c` leaves, if attached.
    pub closed spec fn call_source_s(&self, c: EbbCall) -> Option<Op> {
        self.ebb_calls@[c.0 as int].source
    }

    /// The block transfer `c` enters.
    pub closed spec fn call_target_s(&self, c: EbbCall) -> Ebb {
        self.ebb_calls@[c.0 as int].target
    }

    /// The values transfer `c` passes to its target's formal arguments.
    pub closed spec fn call_args_s(&self, c: EbbCall) -> Seq<Value> {
        self.ebb_calls@[c.0 as int].values@
    }

    /// The classification of value `v`.
    pub closed spec fn value_s(&self, v: Value) -> ValueType {
        self.values@[v.0 as int]
    }

    /// Does `v` denote a constant?
    pub open spec fn is_const_s(&self, v: Value) -> bool {
        self.value_s(v) is Constant
    }

    /// The identity behind function reference `f`.
    pub closed spec fn fun_ref_s(&self, f: FunRef) -> FunctionIdent {
        self.fun_refs@[f.0 as int]
    }

    /// The values flagged constant, in creation order.
    pub closed spec fn constants_s(&self) -> Seq<Value> {
        self.constant_values@
    }

    /// All operand and transfer handles of operation record `i` are valid.
    spec fn op_data_ok(&self, i: int) -> bool {
        let d = self.ops@[i];
        &&& vals_below(d.reads@, self.values@.len())
        &&& vals_below(d.writes@, self.values@.len())
        &&& forall|k: int|
            0 <= k < d.ebb_calls@.len() ==> (#[trigger] d.ebb_calls@[k]).0
                < self.ebb_calls@.len()
        &&& (d.kind matches OpKind::Call(f) ==> f.0 < self.fun_refs@.len())
    }

    /// All argument handles of block record `i` are valid.
    spec fn ebb_data_ok(&self, i: int) -> bool {
        vals_below(self.ebbs@[i].arguments@, self.values@.len())
    }

    /// All handles of transfer record `i` are valid.
    spec fn call_data_ok(&self, i: int) -> bool {
        let d = self.ebb_calls@[i];
        &&& d.target.0 < self.ebbs@.len()
        &&& vals_below(d.values@, self.values@.len())
        &&& (d.source matches Some(o) ==> o.0 < self.ops@.len())
    }

    /// The constant list holds exactly the values classified constant.
    spec fn constants_ok(&self) -> bool {
        &&& self.constant_values@.no_duplicates()
        &&& forall|i: int|
            0 <= i < self.constant_values@.len() ==> (#[trigger] self.constant_values@[i]).0
                < self.values@.len() && self.values@[self.constant_values@[i].0 as int] is Constant
        &&& forall|v: int|
            0 <= v < self.values@.len() && self.values@[v] is Constant
                ==> #[trigger] self.constant_values@.contains(Value(v as u32))
    }

    /// The well-formedness invariant: the layout agrees with its model, the
    /// layout and the arenas agree in size, every stored handle points into
    /// its arena, and every handle fits in its 32-bit representation.
    pub closed spec fn inv(&self) -> bool {
        &&& self.layout.wf()
        &&& self.layout.ebbs@.len() == self.ebbs@.len()
        &&& self.layout.ops@.len() == self.ops@.len()
        &&& self.ebbs@.len() <= u32::MAX
        &&& self.ops@.len() <= u32::MAX
        &&& self.values@.len() <= u32::MAX
        &&& self.ebb_calls@.len() <= u32::MAX
        &&& self.fun_refs@.len() <= u32::MAX
        &&& forall|i: int| 0 <= i < self.ops@.len() ==> #[trigger] self.op_data_ok(i)
        &&& forall|i: int| 0 <= i < self.ebbs@.len() ==> #[trigger] self.ebb_data_ok(i)
        &&& forall|i: int| 0 <= i < self.ebb_calls@.len() ==> #[trigger] self.call_data_ok(i)
        &&& self.constants_ok()
    }

    /// Every linked block handle indexes the block arena.
    pub proof fn lemma_ebb_in_arena(&self, e: Ebb)
        requires
            self.inv(),
            self.ebb_in_layout(e),
        ensures
            e.0 < self.num_ebbs(),
    {
        let i = choose|i: int| 0 <= i < self.ebb_seq_s().len() && self.ebb_seq_s()[i] == e;
        assert(self.layout.ebb_node_ok(i));
    }

    /// Every operation linked into block `e` indexes the operation arena,
    /// and its layout record names `e` as its home.
    pub proof fn lemma_op_in_arena(&self, e: Ebb, o: Op)
        requires
            self.inv(),
            self.op_in_ebb(e, o),
        ensures
            o.0 < self.num_ops(),
            self.op_ebb_s(o) == Some(e),
    {
        let i = choose|i: int| 0 <= i < self.ebb_seq_s().len() && self.ebb_seq_s()[i] == e;
        assert(self.layout.ebb_node_ok(i));
        let j = choose|j: int| 0 <= j < self.ops_of(e).len() && self.ops_of(e)[j] == o;
        assert(self.layout.op_node_ok(e, j));
    }

    /// An operation is linked into at most one block.
    pub proof fn lemma_op_unique(&self, e1: Ebb, e2: Ebb, o: Op)
        requires
            self.inv(),
            self.op_in_ebb(e1, o),
            self.op_in_ebb(e2, o),
        ensures
            e1 == e2,
    {
        let i1 = choose|i: int| 0 <= i < self.ebb_seq_s().len() && self.ebb_seq_s()[i] == e1;
        let i2 = choose|i: int| 0 <= i < self.ebb_seq_s().len() && self.ebb_seq_s()[i] == e2;
        let j1 = choose|j: int| 0 <= j < self.ops_of(e1).len() && self.ops_of(e1)[j] == o;
        let j2 = choose|j: int| 0 <= j < self.ops_of(e2).len() && self.ops_of(e2)[j] == o;
        if e1 != e2 {
            assert(i1 != i2) by {
                assert(self.ebb_seq_s()[i1] != self.ebb_seq_s()[i2]);
            }
            assert(self.layout.op_at(i1, j1) != self.layout.op_at(i2, j2));
        }
    }

    /// Every control transfer attached to an operation is a valid handle.
    pub proof fn lemma_op_branch_valid(&self, o: Op, b: int)
        requires
            self.inv(),
            o.0 < self.num_ops(),
            0 <= b < self.op_branches_s(o).len(),
        ensures
            self.op_branches_s(o)[b].0 < self.num_ebb_calls(),
    {
        assert(self.op_data_ok(o.0 as int));
    }

    /// A block appears at most once in the layout order.
    pub proof fn lemma_ebb_unique(&self, i: int, j: int)
        requires
            self.inv(),
            0 <= i < self.ebb_seq_s().len(),
            0 <= j < self.ebb_seq_s().len(),
            self.ebb_seq_s()[i] == self.ebb_seq_s()[j],
        ensures
            i == j,
    {
    }

    /// Every read operand of a valid operation is a valid value handle.
    pub proof fn lemma_op_read_valid(&self, o: Op, k: int)
        requires
            self.inv(),
            o.0 < self.num_ops(),
            0 <= k < self.op_reads_s(o).len(),
        ensures
            self.op_reads_s(o)[k].0 < self.num_values(),
    {
        assert(self.op_data_ok(o.0 as int));
    }

    /// The operation arena never outgrows its 32-bit handles.
    pub proof fn lemma_num_ops_bound(&self)
        requires
            self.inv(),
        ensures
            self.num_ops() <= u32::MAX,
    {
    }

    /// An operation appears at most once in a block's operation order.
    pub proof fn lemma_op_pos_unique(&self, e: Ebb, j1: int, j2: int)
        requires
            self.inv(),
            self.ebb_in_layout(e),
            0 <= j1 < self.ops_of(e).len(),
            0 <= j2 < self.ops_of(e).len(),
            self.ops_of(e)[j1] == self.ops_of(e)[j2],
        ensures
            j1 == j2,
    {
        let i = choose|i: int| 0 <= i < self.ebb_seq_s().len() && self.ebb_seq_s()[i] == e;
        if j1 != j2 {
            assert(self.layout.op_at(i, j1) != self.layout.op_at(i, j2));
        }
    }

    /// How many operations the arena holds.
    pub fn op_count(&self) -> (r: usize)
        ensures
            r == self.num_ops(),
    {
        self.ops.len()
    }

    pub fn new(ident: FunctionIdent) -> (r: Self)
        ensures
            r.inv(),
            r.ident_s() == ident,
            r.ebb_seq_s() =~= Seq::<Ebb>::empty(),
            r.num_ebbs() == 0,
            r.num_ops() == 0,
            r.num_values() == 0,
            r.num_ebb_calls() == 0,
            r.num_fun_refs() == 0,
            r.constants_s() =~= Seq::<Value>::empty(),
    {
        Function {
            ident,
            layout: Layout::new(),
            ops: Vec::new(),
            ebbs: Vec::new(),
            values: Vec::new(),
            ebb_calls: Vec::new(),
            fun_refs: Vec::new(),
            constant_values: Vec::new(),
        }
    }

    /// Create a fresh SSA variable.
    pub fn new_variable(&mut self) -> (r: Value)
        requires
            old(self).inv(),
            old(self).num_values() < u32::MAX,
        ensures
            final(self).inv(),
            r.0 == old(self).num_values(),
            final(self).num_values() == old(self).num_values() + 1,
            final(self).value_s(r) == ValueType::Variable,
            forall|v: Value|
                v.0 < old(self).num_values() ==> final(self).value_s(v) == old(self).value_s(v),
            final(self).unchanged_but_values(*old(self)),
    {
        let idx: u32 = self.values.len() as u32;
        self.values.push(ValueType::Variable);
        proof {
            self.lemma_values_grew(*old(self));
        }
        Value(idx)
    }

    /// Create a fresh value denoting constant `c`.
    pub fn new_constant(&mut self, c: ConstantTerm) -> (r: Value)
        requires
            old(self).inv(),
            old(self).num_values() < u32::MAX,
        ensures
            final(self).inv(),
            r.0 == old(self).num_values(),
            final(self).num_values() == old(self).num_values() + 1,
            final(self).value_s(r) == ValueType::Constant(c),
            final(self).is_const_s(r),
            forall|v: Value|
                v.0 < old(self).num_values() ==> final(self).value_s(v) == old(self).value_s(v),
            final(self).constants_s() =~= old(self).constants_s().push(r),
            final(self).unchanged_layout_and_data(*old(self)),
    {
        let idx: u32 = self.values.len() as u32;
        let v = Value(idx);
        self.values.push(ValueType::Constant(c));
        self.constant_values.push(v);
        proof {
            self.lemma_values_grew(*old(self));
            assert forall|w: int|
                0 <= w < self.values@.len() && self.values@[w] is Constant
                implies #[trigger] self.constant_values@.contains(Value(w as u32)) by {
                if w < old(self).values@.len() {
                    assert(old(self).constant_values@.contains(Value(w as u32)));
                    let i = choose|i: int|
                        0 <= i < old(self).constant_values@.len() && old(self).constant_values@[i] == Value(w as u32);
                    assert(self.constant_values@[i] == Value(w as u32));
                } else {
                    assert(self.constant_values@.last() == v);
                }
            }
            assert forall|i: int| 0 <= i < old(self).constant_values@.len()
                implies old(self).constant_values@[i] != v by {
                assert(old(self).constant_values@[i].0 < old(self).values@.len());
            }
        }
        v
    }

    /// Record a reference to another function.
    pub fn new_fun_ref(&mut self, ident: FunctionIdent) -> (r: FunRef)
        requires
            old(self).inv(),
            old(self).num_fun_refs() < u32::MAX,
        ensures
            final(self).inv(),
            r.0 == old(self).num_fun_refs(),
            final(self).num_fun_refs() == old(self).num_fun_refs() + 1,
            final(self).fun_ref_s(r) == ident,
            forall|f: FunRef|
                f.0 < old(self).num_fun_refs() ==> final(self).fun_ref_s(f) == old(self).fun_ref_s(f),
            final(self).unchanged_but_fun_refs(*old(self)),
    {
        let idx: u32 = self.fun_refs.len() as u32;
        self.fun_refs.push(ident);
        proof {
            assert forall|i: int| 0 <= i < self.ops@.len() implies #[trigger] self.op_data_ok(
                i,
            ) by {
                assert(old(self).op_data_ok(i));
            }
            assert forall|i: int| 0 <= i < self.ebbs@.len() implies #[trigger] self.ebb_data_ok(
                i,
            ) by {
                assert(old(self).ebb_data_ok(i));
            }
            assert forall|i: int|
                0 <= i < self.ebb_calls@.len() implies #[trigger] self.call_data_ok(i) by {
                assert(old(self).call_data_ok(i));
            }
        }
        FunRef(idx)
    }

    /// Everything but the value arena and the constant list is as in `o`.
    pub open spec fn unchanged_layout_and_data(&self, o: Self) -> bool {
        &&& self.ident_s() == o.ident_s()
        &&& self.ebb_seq_s() == o.ebb_seq_s()
        &&& forall|e: Ebb| #[trigger] self.ops_of(e) == o.ops_of(e)
        &&& forall|x: Op| #[trigger] self.op_ebb_s(x) == o.op_ebb_s(x)
        &&& self.num_ebbs() == o.num_ebbs()
        &&& self.num_ops() == o.num_ops()
        &&& self.num_ebb_calls() == o.num_ebb_calls()
        &&& self.num_fun_refs() == o.num_fun_refs()
        &&& forall|x: Op|
            x.0 < o.num_ops() ==> #[trigger] self.op_kind_s(x) == o.op_kind_s(x)
                && self.op_reads_s(x) == o.op_reads_s(x) && self.op_writes_s(x) == o.op_writes_s(x)
                && self.op_branches_s(x) == o.op_branches_s(x)
        &&& forall|e: Ebb|
            e.0 < o.num_ebbs() ==> #[trigger] self.ebb_args_s(e) == o.ebb_args_s(e)
                && self.ebb_finished_s(e) == o.ebb_finished_s(e)
        &&& forall|c: EbbCall|
            c.0 < o.num_ebb_calls() ==> #[trigger] self.call_source_s(c) == o.call_source_s(c)
                && self.call_target_s(c) == o.call_target_s(c) && self.call_args_s(c)
                == o.call_args_s(c)
        &&& forall|f: FunRef| f.0 < o.num_fun_refs() ==> #[trigger] self.fun_ref_s(f) == o.fun_ref_s(f)
    }

    /// Everything but the value arena is as in `o`.
    pub open spec fn unchanged_but_values(&self, o: Self) -> bool {
        &&& self.unchanged_layout_and_data(o)
        &&& self.constants_s() == o.constants_s()
    }

    /// Everything but the function-reference arena is as in `o`.
    pub open spec fn unchanged_but_fun_refs(&self, o: Self) -> bool {
        &&& self.ident_s() == o.ident_s()
        &&& self.ebb_seq_s() == o.ebb_seq_s()
        &&& forall|e: Ebb| #[trigger] self.ops_of(e) == o.ops_of(e)
        &&& forall|x: Op| #[trigger] self.op_ebb_s(x) == o.op_ebb_s(x)
        &&& self.num_ebbs() == o.num_ebbs()
        &&& self.num_ops() == o.num_ops()
        &&& self.num_ebb_calls() == o.num_ebb_calls()
        &&& self.num_values() == o.num_values()
        &&& forall|v: Value| v.0 < o.num_values() ==> #[trigger] self.value_s(v) == o.value_s(v)
        &&& self.constants_s() == o.constants_s()
        &&& forall|x: Op|
            x.0 < o.num_ops() ==> #[trigger] self.op_kind_s(x) == o.op_kind_s(x)
                && self.op_reads_s(x) == o.op_reads_s(x) && self.op_writes_s(x) == o.op_writes_s(x)
                && self.op_branches_s(x) == o.op_branches_s(x)
        &&& forall|e: Ebb|
            e.0 < o.num_ebbs() ==> #[trigger] self.ebb_args_s(e) == o.ebb_args_s(e)
                && self.ebb_finished_s(e) == o.ebb_finished_s(e)
        &&& forall|c: EbbCall|
            c.0 < o.num_ebb_calls() ==> #[trigger] self.call_source_s(c) == o.call_source_s(c)
                && self.call_target_s(c) == o.call_target_s(c) && self.call_args_s(c)
                == o.call_args_s(c)
    }

    /// Growing the value arena preserves the invariant: every stored handle
    /// stays in range.
    proof fn lemma_values_grew(&self, o: Self)
        requires
            o.inv(),
            self.layout == o.layout,
            self.ops@ == o.ops@,
            self.ebbs@ == o.ebbs@,
            self.ebb_calls@ == o.ebb_calls@,
            self.fun_refs@ == o.fun_refs@,
            self.values@.len() >= o.values@.len(),
            self.values@.len() <= u32::MAX,
            forall|v: int| 0 <= v < o.values@.len() ==> self.values@[v] == o.values@[v],
        ensures
            self.layout.wf(),
            forall|i: int| 0 <= i < self.ops@.len() ==> #[trigger] self.op_data_ok(i),
            forall|i: int| 0 <= i < self.ebbs@.len() ==> #[trigger] self.ebb_data_ok(i),
            forall|i: int| 0 <= i < self.ebb_calls@.len() ==> #[trigger] self.call_data_ok(i),
    {
        assert forall|i: int| 0 <= i < self.ops@.len() implies #[trigger] self.op_data_ok(i) by {
            assert(o.op_data_ok(i));
        }
        assert forall|i: int| 0 <= i < self.ebbs@.len() implies #[trigger] self.ebb_data_ok(i) by {
            assert(o.ebb_data_ok(i));
        }
        assert forall|i: int| 0 <= i < self.ebb_calls@.len() implies #[trigger] self.call_data_ok(
            i,
        ) by {
            assert(o.call_data_ok(i));
        }
    }


    /// The identity, values, constants, transfers and function references
    /// are as in `o`.
    pub open spec fn unchanged_values_calls_refs(&self, o: Self) -> bool {
        &&& self.ident_s() == o.ident_s()
        &&& self.num_values() == o.num_values()
        &&& forall|v: Value| v.0 < o.num_values() ==> #[trigger] self.value_s(v) == o.value_s(v)
        &&& self.constants_s() == o.constants_s()
        &&& self.num_ebb_calls() == o.num_ebb_calls()
        &&& forall|c: EbbCall|
            c.0 < o.num_ebb_calls() ==> #[trigger] self.call_source_s(c) == o.call_source_s(c)
                && self.call_target_s(c) == o.call_target_s(c) && self.call_args_s(c)
                == o.call_args_s(c)
        &&& self.num_fun_refs() == o.num_fun_refs()
        &&& forall|f: FunRef| f.0 < o.num_fun_refs() ==> #[trigger] self.fun_ref_s(f) == o.fun_ref_s(f)
    }

    /// The records of operations already in `o` are as in `o`.
    pub open spec fn unchanged_op_data(&self, o: Self) -> bool {
        forall|x: Op|
            x.0 < o.num_ops() ==> #[trigger] self.op_kind_s(x) == o.op_kind_s(x)
                && self.op_reads_s(x) == o.op_reads_s(x) && self.op_writes_s(x) == o.op_writes_s(x)
                && self.op_branches_s(x) == o.op_branches_s(x)
    }

    /// The records of blocks already in `o` are as in `o`.
    pub open spec fn unchanged_ebb_data(&self, o: Self) -> bool {
        forall|e: Ebb|
            e.0 < o.num_ebbs() ==> #[trigger] self.ebb_args_s(e) == o.ebb_args_s(e)
                && self.ebb_finished_s(e) == o.ebb_finished_s(e)
    }

    /// Append a fresh, empty, unfinished block at the end of the layout.
    pub fn ebb_push(&mut self) -> (e: Ebb)
        requires
            old(self).inv(),
            old(self).num_ebbs() < u32::MAX,
        ensures
            final(self).inv(),
            e.0 == old(self).num_ebbs(),
            !old(self).ebb_in_layout(e),
            final(self).num_ebbs() == old(self).num_ebbs() + 1,
            final(self).ebb_seq_s() =~= old(self).ebb_seq_s().push(e),
            final(self).ops_of(e) =~= Seq::<Op>::empty(),
            forall|e2: Ebb| e2 != e ==> #[trigger] final(self).ops_of(e2) == old(self).ops_of(e2),
            final(self).ebb_args_s(e) =~= Seq::<Value>::empty(),
            !final(self).ebb_finished_s(e),
            final(self).num_ops() == old(self).num_ops(),
            forall|x: Op| x.0 < old(self).num_ops() ==> #[trigger] final(self).op_ebb_s(x) == old(self).op_ebb_s(x),
            final(self).unchanged_op_data(*old(self)),
            final(self).unchanged_ebb_data(*old(self)),
            final(self).unchanged_values_calls_refs(*old(self)),
    {
        proof {
            if old(self).ebb_seq_s().len() > 0 {
                assert(self.layout.ebb_node_ok(old(self).ebb_seq_s().len() - 1));
            }
        }
        let idx: u32 = self.ebbs.len() as u32;
        let e = Ebb(idx);
        self.ebbs.push(EbbData { arguments: Vec::new(), finished: false });
        let node = EbbNode {
            prev: self.layout.last_ebb,
            next: None,
            first_op: None,
            last_op: None,
        };
        self.layout.ebbs.push(node);
        match self.layout.last_ebb {
            Some(last) => {
                let d = &mut self.layout.ebbs[last.0 as usize];
                d.next = Some(e);
            },
            None => {
                self.layout.first_ebb = Some(e);
            },
        }
        self.layout.last_ebb = Some(e);
        self.layout.ebb_seq = Ghost(self.layout.ebb_seq@.push(e));
        self.layout.op_seqs = Ghost(self.layout.op_seqs@.insert(e, Seq::empty()));
        proof {
            let s = old(self).layout.ebb_seq@;
            let s2 = self.layout.ebb_seq@;
            assert forall|i: int| 0 <= i < s.len() implies s[i] != e by {
                assert(old(self).layout.ebb_node_ok(i));
            }
            assert(s2.no_duplicates());
            assert forall|i: int| 0 <= i < s2.len() implies #[trigger] self.layout.ebb_node_ok(
                i,
            ) by {
                if i < s.len() {
                    assert(old(self).layout.ebb_node_ok(i));
                    let e2 = s[i];
                    if i == s.len() - 1 {
                        assert(self.layout.ebbs@[e2.0 as int].next == Some(e));
                    } else {
                        assert(s[i + 1] != e);
                    }
                    assert(self.layout.op_seqs@[e2] == old(self).layout.op_seqs@[e2]);
                    assert(old(self).layout.op_chain_ok(e2));
                    assert forall|j: int|
                        0 <= j < self.layout.op_seqs@[e2].len()
                        implies #[trigger] self.layout.op_node_ok(e2, j) by {
                        assert(old(self).layout.op_node_ok(e2, j));
                    }
                    assert(self.layout.op_chain_ok(e2));
                } else {
                    assert(s2[i] == e);
                    assert(self.layout.op_seqs@[e] =~= Seq::<Op>::empty());
                    assert(self.layout.op_chain_ok(e));
                }
            }
            assert forall|i1: int, j1: int, i2: int, j2: int|
                0 <= i1 < s2.len() && 0 <= j1 < self.layout.op_seqs@[s2[i1]].len() && 0 <= i2
                    < s2.len() && 0 <= j2 < self.layout.op_seqs@[s2[i2]].len() && (i1 != i2 || j1
                    != j2) implies #[trigger] self.layout.op_at(i1, j1) != #[trigger] self.layout.op_at(
                i2,
                j2,
            ) by {
                if i1 < s.len() && i2 < s.len() {
                    assert(old(self).layout.op_at(i1, j1) != old(self).layout.op_at(i2, j2));
                }
            }
            assert(self.layout.wf());
            assert forall|i: int| 0 <= i < self.ops@.len() implies #[trigger] self.op_data_ok(
                i,
            ) by {
                assert(old(self).op_data_ok(i));
            }
            assert forall|i: int| 0 <= i < self.ebbs@.len() implies #[trigger] self.ebb_data_ok(
                i,
            ) by {
                if i < old(self).ebbs@.len() {
                    assert(old(self).ebb_data_ok(i));
                }
            }
            assert forall|i: int|
                0 <= i < self.ebb_calls@.len() implies #[trigger] self.call_data_ok(i) by {
                assert(old(self).call_data_ok(i));
            }
            assert forall|e2: Ebb| e2 != e implies #[trigger] self.ops_of(e2) == old(self).ops_of(
                e2,
            ) by {}
        }
        e
    }

    /// Create a control transfer to `target`, passing `values`; it carries
    /// no source operation until it is attached by [`Self::op_push`].
    pub fn ebb_call_create(&mut self, target: Ebb, values: Vec<Value>) -> (c: EbbCall)
        requires
            old(self).inv(),
            target.0 < old(self).num_ebbs(),
            vals_below(values@, old(self).num_values()),
            old(self).num_ebb_calls() < u32::MAX,
        ensures
            final(self).inv(),
            c.0 == old(self).num_ebb_calls(),
            final(self).num_ebb_calls() == old(self).num_ebb_calls() + 1,
            final(self).call_target_s(c) == target,
            final(self).call_args_s(c) == values@,
            final(self).call_source_s(c) is None,
            forall|c2: EbbCall|
                c2.0 < old(self).num_ebb_calls() ==> #[trigger] final(self).call_source_s(c2)
                    == old(self).call_source_s(c2) && final(self).call_target_s(c2) == old(self).call_target_s(c2) && final(self).call_args_s(c2) == old(self).call_args_s(c2),
            final(self).ebb_seq_s() == old(self).ebb_seq_s(),
            forall|e2: Ebb| #[trigger] final(self).ops_of(e2) == old(self).ops_of(e2),
            forall|x: Op| #[trigger] final(self).op_ebb_s(x) == old(self).op_ebb_s(x),
            final(self).num_ebbs() == old(self).num_ebbs(),
            final(self).num_ops() == old(self).num_ops(),
            final(self).num_values() == old(self).num_values(),
            final(self).num_fun_refs() == old(self).num_fun_refs(),
            forall|v: Value| v.0 < old(self).num_values() ==> #[trigger] final(self).value_s(v)
                == old(self).value_s(v),
            final(self).constants_s() == old(self).constants_s(),
            final(self).ident_s() == old(self).ident_s(),
            final(self).unchanged_op_data(*old(self)),
            final(self).unchanged_ebb_data(*old(self)),
            forall|f: FunRef| f.0 < old(self).num_fun_refs() ==> #[trigger] final(self).fun_ref_s(
                f,
            ) == old(self).fun_ref_s(f),
    {
        let idx: u32 = self.ebb_calls.len() as u32;
        self.ebb_calls.push(EbbCallData { source: None, target, values });
        proof {
            assert forall|i: int| 0 <= i < self.ops@.len() implies #[trigger] self.op_data_ok(
                i,
            ) by {
                assert(old(self).op_data_ok(i));
            }
            assert forall|i: int| 0 <= i < self.ebbs@.len() implies #[trigger] self.ebb_data_ok(
                i,
            ) by {
                assert(old(self).ebb_data_ok(i));
            }
            assert forall|i: int|
                0 <= i < self.ebb_calls@.len() implies #[trigger] self.call_data_ok(i) by {
                if i < old(self).ebb_calls@.len() {
                    assert(old(self).call_data_ok(i));
                }
            }
        }
        EbbCall(idx)
    }

    /// Append one operation at the end of block `e`, attaching `branches` as
    /// its outgoing control transfers (their source becomes this operation).
    /// The block must not have received its terminator yet; it is marked
    /// finished exactly when `kind` is a block terminator.
    pub fn op_push(
        &mut self,
        e: Ebb,
        kind: OpKind,
        reads: Vec<Value>,
        writes: Vec<Value>,
        branches: Vec<EbbCall>,
    ) -> (o: Op)
        requires
            old(self).inv(),
            old(self).ebb_in_layout(e),
            !old(self).ebb_finished_s(e),
            old(self).num_ops() < u32::MAX,
            vals_below(reads@, old(self).num_values()),
            vals_below(writes@, old(self).num_values()),
            forall|k: int|
                0 <= k < branches@.len() ==> (#[trigger] branches@[k]).0 < old(self).num_ebb_calls(),
            kind matches OpKind::Call(f) ==> f.0 < old(self).num_fun_refs(),
        ensures
            final(self).inv(),
            o.0 == old(self).num_ops(),
            final(self).num_ops() == old(self).num_ops() + 1,
            final(self).ebb_seq_s() == old(self).ebb_seq_s(),
            final(self).ops_of(e) =~= old(self).ops_of(e).push(o),
            forall|e2: Ebb| e2 != e ==> #[trigger] final(self).ops_of(e2) == old(self).ops_of(e2),
            final(self).op_ebb_s(o) == Some(e),
            forall|x: Op| x.0 < old(self).num_ops() ==> #[trigger] final(self).op_ebb_s(x) == old(self).op_ebb_s(x),
            final(self).op_kind_s(o) == kind,
            final(self).op_reads_s(o) == reads@,
            final(self).op_writes_s(o) == writes@,
            final(self).op_branches_s(o) == branches@,
            final(self).unchanged_op_data(*old(self)),
            final(self).num_ebbs() == old(self).num_ebbs(),
            forall|e2: Ebb| e2.0 < old(self).num_ebbs() ==> #[trigger] final(self).ebb_args_s(e2)
                == old(self).ebb_args_s(e2),
            final(self).ebb_finished_s(e) == kind.is_block_terminator_s(),
            forall|e2: Ebb|
                e2.0 < old(self).num_ebbs() && e2 != e ==> #[trigger] final(self).ebb_finished_s(
                    e2,
                ) == old(self).ebb_finished_s(e2),
            final(self).num_values() == old(self).num_values(),
            forall|v: Value| v.0 < old(self).num_values() ==> #[trigger] final(self).value_s(v)
                == old(self).value_s(v),
            final(self).constants_s() == old(self).constants_s(),
            final(self).ident_s() == old(self).ident_s(),
            final(self).num_fun_refs() == old(self).num_fun_refs(),
            forall|f: FunRef| f.0 < old(self).num_fun_refs() ==> #[trigger] final(self).fun_ref_s(
                f,
            ) == old(self).fun_ref_s(f),
            final(self).num_ebb_calls() == old(self).num_ebb_calls(),
            forall|k: int|
                0 <= k < branches@.len() ==> #[trigger] final(self).call_source_s(branches@[k])
                    == Some(o),
            forall|c: EbbCall|
                c.0 < old(self).num_ebb_calls() ==> #[trigger] final(self).call_target_s(c) == old(self).call_target_s(c) && final(self).call_args_s(c) == old(self).call_args_s(c),
            forall|c: EbbCall|
                c.0 < old(self).num_ebb_calls() && !branches@.contains(c)
                    ==> #[trigger] final(self).call_source_s(c) == old(self).call_source_s(c),
    {
        let ghost ie = choose|i: int|
            0 <= i < old(self).ebb_seq_s().len() && old(self).ebb_seq_s()[i] == e;
        proof {
            assert(old(self).layout.ebb_node_ok(ie));
        }
        let idx: u32 = self.ops.len() as u32;
        let o = Op(idx);
        // attach: every transfer in the list now leaves this operation
        let mut bi: usize = 0;
        while bi < branches.len()
            invariant
                self.ebb_calls@.len() == old(self).ebb_calls@.len(),
                forall|k: int|
                    0 <= k < branches@.len() ==> (#[trigger] branches@[k]).0
                        < self.ebb_calls@.len(),
                forall|ci: int|
                    0 <= ci < self.ebb_calls@.len() ==> (#[trigger] self.ebb_calls@[ci]).target
                        == old(self).ebb_calls@[ci].target && self.ebb_calls@[ci].values == old(self).ebb_calls@[ci].values,
                forall|k: int|
                    0 <= k < bi ==> (#[trigger] self.ebb_calls@[branches@[k].0 as int]).source
                        == Some(o),
                forall|ci: int|
                    0 <= ci < self.ebb_calls@.len() && !branches@.contains(EbbCall(ci as u32))
                        ==> (#[trigger] self.ebb_calls@[ci]).source == old(self).ebb_calls@[ci].source,
                forall|ci: int|
                    0 <= ci < self.ebb_calls@.len() ==> (#[trigger] self.ebb_calls@[ci]).source
                        == old(self).ebb_calls@[ci].source || self.ebb_calls@[ci].source == Some(
                        o,
                    ),
                self.layout == old(self).layout,
                self.ops@ == old(self).ops@,
                self.ebbs@ == old(self).ebbs@,
                self.values@ == old(self).values@,
                self.fun_refs@ == old(self).fun_refs@,
                self.constant_values@ == old(self).constant_values@,
                self.ident == old(self).ident,
            decreases branches@.len() - bi,
        {
            let c = branches[bi];
            let d = &mut self.ebb_calls[c.0 as usize];
            d.source = Some(o);
            proof {
                assert(branches@.contains(EbbCall(c.0)));
            }
            bi = bi + 1;
        }
        // arena records
        self.ops.push(OpData { kind, reads, writes, ebb_calls: branches });
        let fin = kind.is_block_terminator();
        let bd = &mut self.ebbs[e.0 as usize];
        bd.finished = fin;
        // layout links
        let enode = self.layout.ebbs[e.0 as usize];
        self.layout.ops.push(OpNode { ebb: Some(e), prev: enode.last_op, next: None });
        match enode.last_op {
            Some(lo) => {
                proof {
                    let os = old(self).layout.op_seqs@[e];
                    assert(old(self).layout.op_node_ok(e, os.len() - 1));
                }
                let d = &mut self.layout.ops[lo.0 as usize];
                d.next = Some(o);
            },
            None => {
            },
        }
        self.layout.ebbs[e.0 as usize] = EbbNode {
            first_op: if enode.first_op.is_none() {
                Some(o)
            } else {
                enode.first_op
            },
            last_op: Some(o),
            prev: enode.prev,
            next: enode.next,
        };
        self.layout.op_seqs = Ghost(
            self.layout.op_seqs@.insert(e, self.layout.op_seqs@[e].push(o)),
        );
        proof {
            let s = old(self).layout.ebb_seq@;
            let os = old(self).layout.op_seqs@[e];
            let os2 = self.layout.op_seqs@[e];
            assert(os2 =~= os.push(o));
            // every operation already linked anywhere has a smaller handle
            assert forall|i: int, j: int|
                0 <= i < s.len() && 0 <= j < old(self).layout.op_seqs@[s[i]].len()
                implies (#[trigger] old(self).layout.op_at(i, j)).0 < old(self).ops@.len() by {
                assert(old(self).layout.ebb_node_ok(i));
                assert(old(self).layout.op_node_ok(s[i], j));
            }
            assert forall|i: int| 0 <= i < s.len() implies #[trigger] self.layout.ebb_node_ok(
                i,
            ) by {
                assert(old(self).layout.ebb_node_ok(i));
                let e2 = s[i];
                if e2 == e {
                    assert(i == ie) by {
                        if i != ie {
                            assert(s.no_duplicates());
                        }
                    }
                    assert(self.layout.ebbs@[e.0 as int].first_op == Some(os2[0]));
                    assert(self.layout.ebbs@[e.0 as int].last_op == Some(os2[os2.len() - 1]));
                    assert forall|j: int|
                        0 <= j < os2.len() implies #[trigger] self.layout.op_node_ok(e, j) by {
                        if j < os.len() {
                            assert(old(self).layout.op_node_ok(e, j));
                            if j == os.len() - 1 {
                                assert(self.layout.ops@[os2[j].0 as int].next == Some(o));
                            } else {
                                assert(old(self).layout.op_at(ie, j) != old(self).layout.op_at(
                                    ie,
                                    os.len() - 1,
                                ));
                            }
                        } else {
                            assert(os2[j] == o);
                        }
                    }
                    assert(self.layout.op_chain_ok(e));
                } else {
                    assert(self.layout.op_seqs@[e2] == old(self).layout.op_seqs@[e2]);
                    assert forall|j: int|
                        0 <= j < self.layout.op_seqs@[e2].len()
                        implies #[trigger] self.layout.op_node_ok(e2, j) by {
                        assert(old(self).layout.op_node_ok(e2, j));
                        let j2 = choose|j2: int|
                            0 <= j2 < s.len() && s[j2] == e2;
                        assert(old(self).layout.ebb_node_ok(ie));
                        if old(self).layout.op_seqs@[e].len() > 0 {
                            assert(old(self).layout.op_at(j2, j) != old(self).layout.op_at(
                                ie,
                                os.len() - 1,
                            ));
                        }
                    }
                    assert(self.layout.op_chain_ok(e2));
                }
            }
            assert forall|i1: int, j1: int, i2: int, j2: int|
                0 <= i1 < s.len() && 0 <= j1 < self.layout.op_seqs@[s[i1]].len() && 0 <= i2
                    < s.len() && 0 <= j2 < self.layout.op_seqs@[s[i2]].len() && (i1 != i2 || j1
                    != j2) implies #[trigger] self.layout.op_at(i1, j1) != #[trigger] self.layout.op_at(
                i2,
                j2,
            ) by {
                let new1 = i1 == ie && j1 == os.len();
                let new2 = i2 == ie && j2 == os.len();
                if new1 && !new2 {
                    assert(old(self).layout.op_at(i2, j2).0 < old(self).ops@.len());
                    assert(self.layout.op_at(i2, j2) == old(self).layout.op_at(i2, j2));
                } else if !new1 && new2 {
                    assert(old(self).layout.op_at(i1, j1).0 < old(self).ops@.len());
                    assert(self.layout.op_at(i1, j1) == old(self).layout.op_at(i1, j1));
                } else if !new1 && !new2 {
                    assert(old(self).layout.op_at(i1, j1) != old(self).layout.op_at(i2, j2));
                    assert(self.layout.op_at(i1, j1) == old(self).layout.op_at(i1, j1));
                    assert(self.layout.op_at(i2, j2) == old(self).layout.op_at(i2, j2));
                }
            }
            assert(self.layout.wf());
            assert forall|i: int| 0 <= i < self.ops@.len() implies #[trigger] self.op_data_ok(
                i,
            ) by {
                if i < old(self).ops@.len() {
                    assert(old(self).op_data_ok(i));
                }
            }
            assert forall|i: int| 0 <= i < self.ebbs@.len() implies #[trigger] self.ebb_data_ok(
                i,
            ) by {
                assert(old(self).ebb_data_ok(i));
            }
            assert forall|i: int|
                0 <= i < self.ebb_calls@.len() implies #[trigger] self.call_data_ok(i) by {
                assert(old(self).call_data_ok(i));
            }
            assert forall|e2: Ebb| e2 != e implies #[trigger] self.ops_of(e2) == old(self).ops_of(
                e2,
            ) by {}
        }
        o
    }

    /// The identity this function compiles.
    pub fn ident(&self) -> (r: &FunctionIdent)
        ensures
            *r == self.ident_s(),
    {
        &self.ident
    }

    /// The entry block: the first block of the layout, or `None` while the
    /// function has no blocks yet.
    pub fn ebb_entry(&self) -> (r: Option<Ebb>)
        requires
            self.inv(),
        ensures
            r == if self.ebb_seq_s().len() > 0 {
                Some(self.ebb_seq_s()[0])
            } else {
                None::<Ebb>
            },
    {
        self.layout.first_ebb
    }

    /// The formal arguments of block `e`.
    pub fn ebb_args(&self, e: Ebb) -> (r: &Vec<Value>)
        requires
            self.inv(),
            e.0 < self.num_ebbs(),
        ensures
            r@ == self.ebb_args_s(e),
    {
        &self.ebbs[e.0 as usize].arguments
    }

    /// The first operation of block `e`, or `None` while it is empty.
    pub fn ebb_first_op(&self, e: Ebb) -> (r: Option<Op>)
        requires
            self.inv(),
            self.ebb_in_layout(e),
        ensures
            r == if self.ops_of(e).len() > 0 {
                Some(self.ops_of(e)[0])
            } else {
                None::<Op>
            },
    {
        proof {
            let i = choose|i: int| 0 <= i < self.ebb_seq_s().len() && self.ebb_seq_s()[i] == e;
            assert(self.layout.ebb_node_ok(i));
        }
        self.layout.ebbs[e.0 as usize].first_op
    }

    /// The operation transfer `c` leaves, or `None` while it is unattached.
    pub fn ebb_call_source(&self, c: EbbCall) -> (r: Option<Op>)
        requires
            self.inv(),
            c.0 < self.num_ebb_calls(),
        ensures
            r == self.call_source_s(c),
    {
        self.ebb_calls[c.0 as usize].source
    }

    /// The block transfer `c` enters.
    pub fn ebb_call_target(&self, c: EbbCall) -> (r: Ebb)
        requires
            self.inv(),
            c.0 < self.num_ebb_calls(),
        ensures
            r == self.call_target_s(c),
    {
        self.ebb_calls[c.0 as usize].target
    }

    /// The values transfer `c` passes to its target's formal arguments.
    pub fn ebb_call_args(&self, c: EbbCall) -> (r: &Vec<Value>)
        requires
            self.inv(),
            c.0 < self.num_ebb_calls(),
        ensures
            r@ == self.call_args_s(c),
    {
        &self.ebb_calls[c.0 as usize].values
    }

    /// Redirect transfer `c` to enter block `ebb` instead.
    pub fn ebb_call_set_target(&mut self, c: EbbCall, ebb: Ebb)
        requires
            old(self).inv(),
            c.0 < old(self).num_ebb_calls(),
            ebb.0 < old(self).num_ebbs(),
        ensures
            final(self).inv(),
            final(self).call_target_s(c) == ebb,
            final(self).call_source_s(c) == old(self).call_source_s(c),
            final(self).call_args_s(c) == old(self).call_args_s(c),
            forall|c2: EbbCall|
                c2.0 < old(self).num_ebb_calls() && c2 != c ==> #[trigger] final(self).call_target_s(c2) == old(self).call_target_s(c2) && final(self).call_source_s(c2)
                    == old(self).call_source_s(c2) && final(self).call_args_s(c2) == old(self).call_args_s(c2),
            final(self).num_ebb_calls() == old(self).num_ebb_calls(),
            final(self).ebb_seq_s() == old(self).ebb_seq_s(),
            forall|e2: Ebb| #[trigger] final(self).ops_of(e2) == old(self).ops_of(e2),
            forall|x: Op| #[trigger] final(self).op_ebb_s(x) == old(self).op_ebb_s(x),
            final(self).num_ebbs() == old(self).num_ebbs(),
            final(self).num_ops() == old(self).num_ops(),
            final(self).num_values() == old(self).num_values(),
            forall|v: Value| v.0 < old(self).num_values() ==> #[trigger] final(self).value_s(v)
                == old(self).value_s(v),
            final(self).constants_s() == old(self).constants_s(),
            final(self).ident_s() == old(self).ident_s(),
            final(self).num_fun_refs() == old(self).num_fun_refs(),
            forall|f: FunRef| f.0 < old(self).num_fun_refs() ==> #[trigger] final(self).fun_ref_s(
                f,
            ) == old(self).fun_ref_s(f),
            final(self).unchanged_op_data(*old(self)),
            final(self).unchanged_ebb_data(*old(self)),
    {
        let d = &mut self.ebb_calls[c.0 as usize];
        d.target = ebb;
        proof {
            assert forall|i: int| 0 <= i < self.ops@.len() implies #[trigger] self.op_data_ok(
                i,
            ) by {
                assert(old(self).op_data_ok(i));
            }
            assert forall|i: int| 0 <= i < self.ebbs@.len() implies #[trigger] self.ebb_data_ok(
                i,
            ) by {
                assert(old(self).ebb_data_ok(i));
            }
            assert forall|i: int|
                0 <= i < self.ebb_calls@.len() implies #[trigger] self.call_data_ok(i) by {
                assert(old(self).call_data_ok(i));
            }
        }
    }

    /// The operator of operation `o`.
    pub fn op_kind(&self, o: Op) -> (r: OpKind)
        requires
            self.inv(),
            o.0 < self.num_ops(),
        ensures
            r == self.op_kind_s(o),
    {
        self.ops[o.0 as usize].kind
    }

    /// The ordered write operands of operation `o`.
    pub fn op_writes(&self, o: Op) -> (r: &Vec<Value>)
        requires
            self.inv(),
            o.0 < self.num_ops(),
        ensures
            r@ == self.op_writes_s(o),
    {
        &self.ops[o.0 as usize].writes
    }

    /// The ordered read operands of operation `o`.
    pub fn op_reads(&self, o: Op) -> (r: &Vec<Value>)
        requires
            self.inv(),
            o.0 < self.num_ops(),
        ensures
            r@ == self.op_reads_s(o),
    {
        &self.ops[o.0 as usize].reads
    }

    /// The ordered outgoing control transfers of operation `o`.
    pub fn op_branches(&self, o: Op) -> (r: &Vec<EbbCall>)
        requires
            self.inv(),
            o.0 < self.num_ops(),
        ensures
            r@ == self.op_branches_s(o),
    {
        &self.ops[o.0 as usize].ebb_calls
    }

    /// The block the layout links `o` into, or `None` for a detached handle.
    pub fn op_ebb(&self, o: Op) -> (r: Option<Ebb>)
        requires
            self.inv(),
            o.0 < self.num_ops(),
        ensures
            r == self.op_ebb_s(o),
            forall|e: Ebb| self.op_in_ebb(e, o) ==> r == Some(e),
    {
        proof {
            assert forall|e: Ebb| self.op_in_ebb(e, o) implies self.op_ebb_s(o) == Some(e) by {
                self.lemma_op_in_arena(e, o);
            }
        }
        self.layout.ops[o.0 as usize].ebb
    }

    /// The operation after `o` in its block, or `None` at the block's end.
    pub fn op_after(&self, o: Op) -> (r: Option<Op>)
        requires
            self.inv(),
            o.0 < self.num_ops(),
        ensures
            forall|e: Ebb, j: int|
                self.ebb_in_layout(e) && 0 <= j < self.ops_of(e).len()
                    && (#[trigger] self.ops_of(e)[j]) == o ==> r == link_next(self.ops_of(e), j),
    {
        proof {
            assert forall|e: Ebb, j: int|
                self.ebb_in_layout(e) && 0 <= j < self.ops_of(e).len() && self.ops_of(e)[j] == o
                implies self.layout.ops@[o.0 as int].next == link_next(self.ops_of(e), j) by {
                let i = choose|i: int|
                    0 <= i < self.ebb_seq_s().len() && self.ebb_seq_s()[i] == e;
                assert(self.layout.ebb_node_ok(i));
                assert(self.layout.op_node_ok(e, j));
            }
        }
        self.layout.ops[o.0 as usize].next
    }

    /// The operation before `o` in its block, or `None` at the block's start.
    pub fn op_before(&self, o: Op) -> (r: Option<Op>)
        requires
            self.inv(),
            o.0 < self.num_ops(),
        ensures
            forall|e: Ebb, j: int|
                self.ebb_in_layout(e) && 0 <= j < self.ops_of(e).len()
                    && (#[trigger] self.ops_of(e)[j]) == o ==> r == link_prev(self.ops_of(e), j),
    {
        proof {
            assert forall|e: Ebb, j: int|
                self.ebb_in_layout(e) && 0 <= j < self.ops_of(e).len() && self.ops_of(e)[j] == o
                implies self.layout.ops@[o.0 as int].prev == link_prev(self.ops_of(e), j) by {
                let i = choose|i: int|
                    0 <= i < self.ebb_seq_s().len() && self.ebb_seq_s()[i] == e;
                assert(self.layout.ebb_node_ok(i));
                assert(self.layout.op_node_ok(e, j));
            }
        }
        self.layout.ops[o.0 as usize].prev
    }

    /// The classification of value `v`.
    pub fn value(&self, v: Value) -> (r: &ValueType)
        requires
            self.inv(),
            v.0 < self.num_values(),
        ensures
            *r == self.value_s(v),
    {
        &self.values[v.0 as usize]
    }

    /// Does `v` denote a constant? O(1): the classification is read off the
    /// value arena.
    pub fn value_is_constant(&self, v: Value) -> (r: bool)
        requires
            self.inv(),
            v.0 < self.num_values(),
        ensures
            r == self.is_const_s(v),
    {
        match &self.values[v.0 as usize] {
            ValueType::Constant(_) => true,
            ValueType::Variable => false,
        }
    }

    /// The constant a constant value denotes.
    pub fn value_constant(&self, v: Value) -> (r: &ConstantTerm)
        requires
            self.inv(),
            v.0 < self.num_values(),
            self.is_const_s(v),
        ensures
            self.value_s(v) == ValueType::Constant(*r),
    {
        match &self.values[v.0 as usize] {
            ValueType::Constant(c) => c,
            ValueType::Variable => {
                proof {
                    assert(false);
                }
                &ConstantTerm::Nil
            },
        }
    }

    /// The values flagged constant, in creation order.
    pub fn iter_constants(&self) -> (r: &Vec<Value>)
        ensures
            r@ == self.constants_s(),
    {
        &self.constant_values
    }

    /// The identity behind function reference `f`.
    pub fn fun_ref_ident(&self, f: FunRef) -> (r: &FunctionIdent)
        requires
            self.inv(),
            f.0 < self.num_fun_refs(),
        ensures
            *r == self.fun_ref_s(f),
    {
        &self.fun_refs[f.0 as usize]
    }

    /// Unlink operation `o` from the layout. The arena record stays behind,
    /// stale: the handle must not be dereferenced afterwards.
    pub fn op_remove(&mut self, o: Op)
        requires
            old(self).inv(),
            old(self).op_in_layout(o),
        ensures
            final(self).inv(),
            final(self).ebb_seq_s() == old(self).ebb_seq_s(),
            forall|e2: Ebb, j2: int|
                old(self).ebb_in_layout(e2) && 0 <= j2 < old(self).ops_of(e2).len() && (
                #[trigger] old(self).ops_of(e2)[j2]) == o ==> final(self).ops_of(e2) =~= old(self).ops_of(e2).remove(j2),
            forall|e2: Ebb|
                !old(self).ops_of(e2).contains(o) ==> #[trigger] final(self).ops_of(e2) == old(self).ops_of(e2),
            forall|e2: Ebb|
                !old(self).ebb_in_layout(e2) ==> #[trigger] final(self).ops_of(e2) == old(self).ops_of(e2),
            !final(self).op_in_layout(o),
            final(self).num_ebbs() == old(self).num_ebbs(),
            final(self).num_ops() == old(self).num_ops(),
            final(self).unchanged_op_data(*old(self)),
            final(self).unchanged_ebb_data(*old(self)),
            final(self).unchanged_values_calls_refs(*old(self)),
    {
        let ghost home = choose|e: Ebb| old(self).op_in_ebb(e, o);
        let ghost s = old(self).layout.ebb_seq@;
        let ghost os = old(self).layout.op_seqs@[home];
        let ghost ie = choose|i: int| 0 <= i < s.len() && s[i] == home;
        let ghost j = choose|j: int| 0 <= j < os.len() && os[j] == o;
        proof {
            assert(old(self).layout.ebb_node_ok(ie));
            assert(old(self).layout.op_node_ok(home, j));
            if j > 0 {
                assert(old(self).layout.op_node_ok(home, j - 1));
            }
            if j < os.len() - 1 {
                assert(old(self).layout.op_node_ok(home, j + 1));
            }
        }
        let node = self.layout.ops[o.0 as usize];
        let e: Ebb;
        match node.ebb {
            Some(e0) => {
                e = e0;
            },
            None => {
                proof {
                    assert(false);
                }
                e = Ebb(0);
            },
        }
        proof {
            assert(e == home);
        }
        match node.prev {
            Some(p) => {
                let d = &mut self.layout.ops[p.0 as usize];
                d.next = node.next;
            },
            None => {
                let d = &mut self.layout.ebbs[e.0 as usize];
                d.first_op = node.next;
            },
        }
        match node.next {
            Some(nx) => {
                let d = &mut self.layout.ops[nx.0 as usize];
                d.prev = node.prev;
            },
            None => {
                let d = &mut self.layout.ebbs[e.0 as usize];
                d.last_op = node.prev;
            },
        }
        self.layout.op_seqs = Ghost(self.layout.op_seqs@.insert(home, os.remove(j)));
        proof {
            let os2 = self.layout.op_seqs@[home];
            // within-block uniqueness of o, and handle distinctness facts
            assert forall|j2: int| 0 <= j2 < os.len() && j2 != j implies os[j2] != o by {
                assert(old(self).layout.op_at(ie, j2) != old(self).layout.op_at(ie, j));
            }
            assert forall|i: int, j2: int|
                0 <= i < s.len() && 0 <= j2 < old(self).layout.op_seqs@[s[i]].len()
                implies (#[trigger] old(self).layout.op_at(i, j2)).0 < old(self).ops@.len() by {
                assert(old(self).layout.ebb_node_ok(i));
                assert(old(self).layout.op_node_ok(s[i], j2));
            }
            assert forall|i: int| 0 <= i < s.len() implies #[trigger] self.layout.ebb_node_ok(
                i,
            ) by {
                assert(old(self).layout.ebb_node_ok(i));
                let e2 = s[i];
                if e2 == home {
                    assert(i == ie) by {
                        if i != ie {
                            assert(s.no_duplicates());
                        }
                    }
                    // first/last links of the home block
                    if j == 0 {
                        if os.len() == 1 {
                            assert(self.layout.ebbs@[e2.0 as int].first_op is None);
                            assert(self.layout.ebbs@[e2.0 as int].last_op is None);
                        } else {
                            assert(self.layout.ebbs@[e2.0 as int].first_op == Some(os2[0]));
                        }
                    }
                    assert(self.layout.op_chain_ok(e2)) by {
                        assert forall|j2: int|
                            0 <= j2 < os2.len() implies #[trigger] self.layout.op_node_ok(
                            e2,
                            j2,
                        ) by {
                            let oldpos = if j2 < j {
                                j2
                            } else {
                                j2 + 1
                            };
                            assert(os2[j2] == os[oldpos]);
                            assert(old(self).layout.op_node_ok(e2, oldpos));
                            // the only mutated op nodes are the neighbours of o
                            if oldpos != j - 1 && oldpos != j + 1 {
                                assert(old(self).layout.op_at(ie, oldpos) != old(self).layout.op_at(ie, j));
                                if j > 0 {
                                    assert(old(self).layout.op_at(ie, oldpos) != old(self).layout.op_at(ie, j - 1));
                                }
                                if j < os.len() - 1 {
                                    assert(old(self).layout.op_at(ie, oldpos) != old(self).layout.op_at(ie, j + 1));
                                }
                                assert(self.layout.ops@[os2[j2].0 as int] == old(self).layout.ops@[os2[j2].0 as int]);
                                assert(link_prev(os2, j2) == link_prev(os, oldpos));
                                assert(link_next(os2, j2) == link_next(os, oldpos));
                            } else if oldpos == j - 1 {
                                // its next now skips o
                                if j - 1 > 0 {
                                    assert(old(self).layout.op_at(ie, j - 1) != old(self).layout.op_at(ie, j));
                                }
                                assert(link_next(os2, j2) == (if j2 == os2.len() - 1 {
                                    None
                                } else {
                                    Some(os2[j2 + 1])
                                }));
                            } else {
                                // oldpos == j + 1: its prev now skips o
                                assert(link_prev(os2, j2) == (if j2 == 0 {
                                    None
                                } else {
                                    Some(os2[j2 - 1])
                                }));
                            }
                        }
                    }
                } else {
                    // a different block: none of its nodes were touched
                    assert(self.layout.op_seqs@[e2] == old(self).layout.op_seqs@[e2]);
                    let os_e2 = self.layout.op_seqs@[e2];
                    assert forall|j2: int|
                        0 <= j2 < os_e2.len() implies #[trigger] self.layout.op_node_ok(
                        e2,
                        j2,
                    ) by {
                        assert(old(self).layout.op_node_ok(e2, j2));
                        assert(old(self).layout.op_at(i, j2) != old(self).layout.op_at(ie, j));
                        if j > 0 {
                            assert(old(self).layout.op_at(i, j2) != old(self).layout.op_at(
                                ie,
                                j - 1,
                            ));
                        }
                        if j < os.len() - 1 {
                            assert(old(self).layout.op_at(i, j2) != old(self).layout.op_at(
                                ie,
                                j + 1,
                            ));
                        }
                        assert(self.layout.ops@[os_e2[j2].0 as int] == old(self).layout.ops@[os_e2[j2].0 as int]);
                    }
                    assert(self.layout.op_chain_ok(e2));
                }
            }
            assert forall|i1: int, j1: int, i2: int, j2: int|
                0 <= i1 < s.len() && 0 <= j1 < self.layout.op_seqs@[s[i1]].len() && 0 <= i2
                    < s.len() && 0 <= j2 < self.layout.op_seqs@[s[i2]].len() && (i1 != i2 || j1
                    != j2) implies #[trigger] self.layout.op_at(i1, j1) != #[trigger] self.layout.op_at(
                i2,
                j2,
            ) by {
                let o1 = if i1 == ie && j1 >= j {
                    j1 + 1
                } else {
                    j1
                };
                let o2 = if i2 == ie && j2 >= j {
                    j2 + 1
                } else {
                    j2
                };
                assert(self.layout.op_at(i1, j1) == old(self).layout.op_at(i1, o1));
                assert(self.layout.op_at(i2, j2) == old(self).layout.op_at(i2, o2));
                assert(old(self).layout.op_at(i1, o1) != old(self).layout.op_at(i2, o2));
            }
            assert(self.layout.wf());
            assert forall|i: int| 0 <= i < self.ops@.len() implies #[trigger] self.op_data_ok(
                i,
            ) by {
                assert(old(self).op_data_ok(i));
            }
            assert forall|i: int| 0 <= i < self.ebbs@.len() implies #[trigger] self.ebb_data_ok(
                i,
            ) by {
                assert(old(self).ebb_data_ok(i));
            }
            assert forall|i: int|
                0 <= i < self.ebb_calls@.len() implies #[trigger] self.call_data_ok(i) by {
                assert(old(self).call_data_ok(i));
            }
            // o is now linked nowhere
            assert forall|e2: Ebb| !self.op_in_ebb(e2, o) by {
                if self.op_in_ebb(e2, o) {
                    let j2 = choose|j2: int|
                        0 <= j2 < self.ops_of(e2).len() && self.ops_of(e2)[j2] == o;
                    if e2 == home {
                        let oldpos = if j2 < j {
                            j2
                        } else {
                            j2 + 1
                        };
                        assert(os[oldpos] == o);
                    } else {
                        assert(old(self).ops_of(e2).contains(o));
                        let i2 = choose|i2: int| 0 <= i2 < s.len() && s[i2] == e2;
                        assert(old(self).layout.op_at(i2, j2) != old(self).layout.op_at(ie, j));
                    }
                }
            }
            // blocks that did not contain o are untouched
            assert forall|e2: Ebb|
                !old(self).ops_of(e2).contains(o) implies #[trigger] self.ops_of(e2) == old(self).ops_of(e2) by {
                assert(os[j] == o);
            }
            assert forall|e2: Ebb, j2: int|
                old(self).ebb_in_layout(e2) && 0 <= j2 < old(self).ops_of(e2).len() && (
                #[trigger] old(self).ops_of(e2)[j2]) == o implies self.ops_of(e2) =~= old(self).ops_of(e2).remove(j2) by {
                let i2 = choose|i2: int| 0 <= i2 < s.len() && s[i2] == e2;
                if e2 != home {
                    assert(old(self).layout.op_at(i2, j2) != old(self).layout.op_at(ie, j));
                } else {
                    assert(j2 == j) by {
                        if j2 != j {
                            assert(old(self).layout.op_at(ie, j2) != old(self).layout.op_at(
                                ie,
                                j,
                            ));
                        }
                    }
                }
            }
        }
    }

    /// Copy out the write handles of `o` as inert tokens, then unlink it, so
    /// the caller can still report which SSA variables the deleted
    /// definition used to produce.
    pub fn op_remove_take_writes(&mut self, o: Op, writes: &mut Vec<WriteToken>)
        requires
            old(self).inv(),
            old(self).op_in_layout(o),
        ensures
            final(self).inv(),
            final(writes)@ =~= old(self).op_writes_s(o).map_values(|v: Value| WriteToken(v)),
            final(self).ebb_seq_s() == old(self).ebb_seq_s(),
            forall|e2: Ebb, j2: int|
                old(self).ebb_in_layout(e2) && 0 <= j2 < old(self).ops_of(e2).len() && (
                #[trigger] old(self).ops_of(e2)[j2]) == o ==> final(self).ops_of(e2) =~= old(self).ops_of(e2).remove(j2),
            forall|e2: Ebb|
                !old(self).ops_of(e2).contains(o) ==> #[trigger] final(self).ops_of(e2) == old(self).ops_of(e2),
            !final(self).op_in_layout(o),
            final(self).num_ebbs() == old(self).num_ebbs(),
            final(self).num_ops() == old(self).num_ops(),
            final(self).unchanged_op_data(*old(self)),
            final(self).unchanged_ebb_data(*old(self)),
            final(self).unchanged_values_calls_refs(*old(self)),
    {
        proof {
            let home = choose|e: Ebb| old(self).op_in_ebb(e, o);
            old(self).lemma_op_in_arena(home, o);
        }
        writes.clear();
        let n: usize = self.ops[o.0 as usize].writes.len();
        let mut i: usize = 0;
        while i < n
            invariant
                i <= n,
                self == old(self),
                o.0 < self.num_ops(),
                n == self.op_writes_s(o).len(),
                writes@ =~= self.op_writes_s(o).take(i as int).map_values(
                    |v: Value| WriteToken(v),
                ),
            decreases n - i,
        {
            let w = self.ops[o.0 as usize].writes[i];
            writes.push(WriteToken(w));
            proof {
                assert(self.op_writes_s(o).take(i as int + 1).drop_last() =~= self.op_writes_s(
                    o,
                ).take(i as int));
                assert(writes@.drop_last() =~= self.op_writes_s(o).take(i as int).map_values(
                    |v: Value| WriteToken(v),
                ));
            }
            i = i + 1;
        }
        proof {
            assert(self.op_writes_s(o).take(n as int) =~= self.op_writes_s(o));
        }
        self.op_remove(o);
    }

    /// Unlink block `e` from the layout. Its operations and its arena record
    /// stay behind, stale: the handle must not be dereferenced afterwards.
    pub fn ebb_remove(&mut self, e: Ebb)
        requires
            old(self).inv(),
            old(self).ebb_in_layout(e),
        ensures
            final(self).inv(),
            forall|i: int|
                0 <= i < old(self).ebb_seq_s().len() && (#[trigger] old(self).ebb_seq_s()[i]) == e
                    ==> final(self).ebb_seq_s() =~= old(self).ebb_seq_s().remove(i),
            !final(self).ebb_in_layout(e),
            forall|e2: Ebb| #[trigger] final(self).ops_of(e2) == old(self).ops_of(e2),
            forall|x: Op| #[trigger] final(self).op_ebb_s(x) == old(self).op_ebb_s(x),
            final(self).num_ebbs() == old(self).num_ebbs(),
            final(self).num_ops() == old(self).num_ops(),
            final(self).unchanged_op_data(*old(self)),
            final(self).unchanged_ebb_data(*old(self)),
            final(self).unchanged_values_calls_refs(*old(self)),
    {
        let ghost s = old(self).layout.ebb_seq@;
        let ghost i = choose|i: int| 0 <= i < s.len() && s[i] == e;
        proof {
            assert(old(self).layout.ebb_node_ok(i));
            if i > 0 {
                assert(old(self).layout.ebb_node_ok(i - 1));
            }
            if i < s.len() - 1 {
                assert(old(self).layout.ebb_node_ok(i + 1));
            }
        }
        let node = self.layout.ebbs[e.0 as usize];
        match node.prev {
            Some(p) => {
                let d = &mut self.layout.ebbs[p.0 as usize];
                d.next = node.next;
            },
            None => {
                self.layout.first_ebb = node.next;
            },
        }
        match node.next {
            Some(nx) => {
                let d = &mut self.layout.ebbs[nx.0 as usize];
                d.prev = node.prev;
            },
            None => {
                self.layout.last_ebb = node.prev;
            },
        }
        self.layout.ebb_seq = Ghost(s.remove(i));
        proof {
            let s2 = self.layout.ebb_seq@;
            assert forall|i2: int| 0 <= i2 < s.len() && i2 != i implies s[i2] != e by {
                assert(s.no_duplicates());
            }
            assert(s2.no_duplicates()) by {
                assert forall|a: int, b: int| 0 <= a < b < s2.len() implies s2[a] != s2[b] by {
                    let oa = if a < i {
                        a
                    } else {
                        a + 1
                    };
                    let ob = if b < i {
                        b
                    } else {
                        b + 1
                    };
                    assert(s2[a] == s[oa]);
                    assert(s2[b] == s[ob]);
                }
            }
            assert forall|i2: int| 0 <= i2 < s2.len() implies #[trigger] self.layout.ebb_node_ok(
                i2,
            ) by {
                let oldpos = if i2 < i {
                    i2
                } else {
                    i2 + 1
                };
                assert(s2[i2] == s[oldpos]);
                assert(old(self).layout.ebb_node_ok(oldpos));
                let e2 = s[oldpos];
                if oldpos != i - 1 && oldpos != i + 1 {
                    assert(e2 != s[i]);
                    if i > 0 {
                        assert(e2 != s[i - 1] ==> self.layout.ebbs@[e2.0 as int] == old(self).layout.ebbs@[e2.0 as int]);
                        assert(oldpos != i - 1);
                        assert(e2 != s[i - 1]);
                    }
                    if i < s.len() - 1 {
                        assert(e2 != s[i + 1]);
                    }
                    assert(self.layout.ebbs@[e2.0 as int] == old(self).layout.ebbs@[e2.0 as int]);
                    assert(link_prev(s2, i2) == link_prev(s, oldpos));
                    assert(link_next(s2, i2) == link_next(s, oldpos));
                } else if oldpos == i - 1 {
                    if i - 1 > 0 {
                        assert(s[i - 1] != s[i]);
                    }
                    assert(link_next(s2, i2) == (if i2 == s2.len() - 1 {
                        None
                    } else {
                        Some(s2[i2 + 1])
                    }));
                } else {
                    assert(link_prev(s2, i2) == (if i2 == 0 {
                        None
                    } else {
                        Some(s2[i2 - 1])
                    }));
                }
                assert(self.layout.op_seqs@[e2] == old(self).layout.op_seqs@[e2]);
                assert forall|j2: int|
                    0 <= j2 < self.layout.op_seqs@[e2].len()
                    implies #[trigger] self.layout.op_node_ok(e2, j2) by {
                    assert(old(self).layout.op_node_ok(e2, j2));
                }
                assert(self.layout.op_chain_ok(e2)) by {
                    assert(old(self).layout.op_chain_ok(e2));
                    assert(self.layout.ebbs@[e2.0 as int].first_op == old(self).layout.ebbs@[e2.0 as int].first_op);
                    assert(self.layout.ebbs@[e2.0 as int].last_op == old(self).layout.ebbs@[e2.0 as int].last_op);
                }
            }
            assert forall|i1: int, j1: int, i2: int, j2: int|
                0 <= i1 < s2.len() && 0 <= j1 < self.layout.op_seqs@[s2[i1]].len() && 0 <= i2
                    < s2.len() && 0 <= j2 < self.layout.op_seqs@[s2[i2]].len() && (i1 != i2 || j1
                    != j2) implies #[trigger] self.layout.op_at(i1, j1) != #[trigger] self.layout.op_at(
                i2,
                j2,
            ) by {
                let o1 = if i1 < i {
                    i1
                } else {
                    i1 + 1
                };
                let o2 = if i2 < i {
                    i2
                } else {
                    i2 + 1
                };
                assert(self.layout.op_at(i1, j1) == old(self).layout.op_at(o1, j1));
                assert(self.layout.op_at(i2, j2) == old(self).layout.op_at(o2, j2));
                assert(old(self).layout.op_at(o1, j1) != old(self).layout.op_at(o2, j2));
            }
            assert(self.layout.wf());
            assert forall|i2: int| 0 <= i2 < self.ops@.len() implies #[trigger] self.op_data_ok(
                i2,
            ) by {
                assert(old(self).op_data_ok(i2));
            }
            assert forall|i2: int| 0 <= i2 < self.ebbs@.len() implies #[trigger] self.ebb_data_ok(
                i2,
            ) by {
                assert(old(self).ebb_data_ok(i2));
            }
            assert forall|i2: int|
                0 <= i2 < self.ebb_calls@.len() implies #[trigger] self.call_data_ok(i2) by {
                assert(old(self).call_data_ok(i2));
            }
            assert(!self.ebb_in_layout(e)) by {
                if self.ebb_in_layout(e) {
                    let i2 = choose|i2: int| 0 <= i2 < s2.len() && s2[i2] == e;
                    let oldpos = if i2 < i {
                        i2
                    } else {
                        i2 + 1
                    };
                    assert(s[oldpos] == e);
                }
            }
        }
    }

    /// Replace the read operand at position `i` of operation `o` with `v`.
    pub fn op_set_read(&mut self, o: Op, i: usize, v: Value)
        requires
            old(self).inv(),
            o.0 < old(self).num_ops(),
            i < old(self).op_reads_s(o).len(),
            v.0 < old(self).num_values(),
        ensures
            final(self).inv(),
            final(self).op_reads_s(o) =~= old(self).op_reads_s(o).update(i as int, v),
            final(self).op_kind_s(o) == old(self).op_kind_s(o),
            final(self).op_writes_s(o) == old(self).op_writes_s(o),
            final(self).op_branches_s(o) == old(self).op_branches_s(o),
            forall|x: Op|
                x.0 < old(self).num_ops() && x != o ==> #[trigger] final(self).op_kind_s(x) == old(self).op_kind_s(x) && final(self).op_reads_s(x) == old(self).op_reads_s(x) && final(self).op_writes_s(x) == old(self).op_writes_s(x) && final(self).op_branches_s(x)
                    == old(self).op_branches_s(x),
            final(self).ebb_seq_s() == old(self).ebb_seq_s(),
            forall|e2: Ebb| #[trigger] final(self).ops_of(e2) == old(self).ops_of(e2),
            forall|x: Op| #[trigger] final(self).op_ebb_s(x) == old(self).op_ebb_s(x),
            final(self).num_ebbs() == old(self).num_ebbs(),
            final(self).num_ops() == old(self).num_ops(),
            final(self).unchanged_ebb_data(*old(self)),
            final(self).unchanged_values_calls_refs(*old(self)),
    {
        let d = &mut self.ops[o.0 as usize];
        let rs = &mut d.reads;
        rs[i] = v;
        proof {
            assert forall|i2: int| 0 <= i2 < self.ops@.len() implies #[trigger] self.op_data_ok(
                i2,
            ) by {
                assert(old(self).op_data_ok(i2));
                if i2 == o.0 as int {
                    assert forall|k: int|
                        0 <= k < self.ops@[i2].reads@.len()
                        implies (#[trigger] self.ops@[i2].reads@[k]).0 < self.values@.len() by {
                        if k != i as int {
                            assert(self.ops@[i2].reads@[k] == old(self).ops@[i2].reads@[k]);
                        }
                    }
                }
            }
            assert forall|i2: int| 0 <= i2 < self.ebbs@.len() implies #[trigger] self.ebb_data_ok(
                i2,
            ) by {
                assert(old(self).ebb_data_ok(i2));
            }
            assert forall|i2: int|
                0 <= i2 < self.ebb_calls@.len() implies #[trigger] self.call_data_ok(i2) by {
                assert(old(self).call_data_ok(i2));
            }
        }
    }

    /// Is `v` read, written, or passed along a transfer by operation `o`?
    pub open spec fn used_in_op(&self, o: Op, v: Value) -> bool {
        ||| self.op_reads_s(o).contains(v)
        ||| self.op_writes_s(o).contains(v)
        ||| exists|b: int|
            0 <= b < self.op_branches_s(o).len() && self.call_args_s(
                #[trigger] self.op_branches_s(o)[b],
            ).contains(v)
    }

    /// Is `v` referenced anywhere in block `e`: as a formal argument or by
    /// one of its operations?
    pub open spec fn used_in_ebb(&self, e: Ebb, v: Value) -> bool {
        ||| self.ebb_args_s(e).contains(v)
        ||| exists|j: int|
            0 <= j < self.ops_of(e).len() && self.used_in_op(#[trigger] self.ops_of(e)[j], v)
    }

    /// Is `v` referenced anywhere in the function?
    pub open spec fn value_used(&self, v: Value) -> bool {
        exists|i: int|
            0 <= i < self.ebb_seq_s().len() && self.used_in_ebb(#[trigger] self.ebb_seq_s()[i], v)
    }

    /// Recompute into `set` the set of every value referenced anywhere in
    /// the function — block arguments, operand reads and writes, and
    /// transfer arguments — by one forward scan: a liveness upper bound for
    /// passes that need no full dataflow analysis.
    pub fn used_values(&self, set: &mut ValueSet)
        requires
            self.inv(),
        ensures
            forall|v: Value| #[trigger] final(set)@.contains(v) <==> self.value_used(v),
    {
        set.clear();
        let ghost s = self.ebb_seq_s();
        let mut cursor: Option<Ebb> = self.ebb_entry();
        let ghost bi: int = 0;
        loop
            invariant
                self.inv(),
                0 <= bi <= s.len(),
                s == self.ebb_seq_s(),
                cursor == (if bi < s.len() {
                    Some(s[bi])
                } else {
                    None::<Ebb>
                }),
                forall|v: Value| #[trigger]
                    set@.contains(v) <==> exists|i: int|
                        0 <= i < bi && self.used_in_ebb(#[trigger] s[i], v),
            ensures
                forall|v: Value| #[trigger]
                    set@.contains(v) <==> exists|i: int|
                        0 <= i < s.len() && self.used_in_ebb(#[trigger] s[i], v),
            decreases s.len() - bi,
        {
            let e: Ebb;
            match cursor {
                None => {
                    break ;
                },
                Some(e0) => {
                    e = e0;
                },
            }
            proof {
                assert(self.layout.ebb_node_ok(bi));
            }
            let ghost base: Set<Value> = set@;
            let args = self.ebb_args(e);
            let na: usize = args.len();
            let mut k: usize = 0;
            while k < na
                invariant
                    self.inv(),
                    k <= na,
                    e.0 < self.num_ebbs(),
                    na == self.ebb_args_s(e).len(),
                    args@ == self.ebb_args_s(e),
                    forall|v: Value| #[trigger]
                        set@.contains(v) <==> base.contains(v) || self.ebb_args_s(e).take(
                            k as int,
                        ).contains(v),
                decreases na - k,
            {
                let ghost sb = set@;
                let x = args[k];
                set.insert(x);
                proof {
                    assert(set@ == sb.insert(x));
                    lemma_take_one_more(self.ebb_args_s(e), k as int);
                    assert(x == self.ebb_args_s(e)[k as int]);
                    assert forall|v: Value| #[trigger] set@.contains(v) implies base.contains(v)
                        || self.ebb_args_s(e).take(k as int + 1).contains(v) by {
                        assert(sb.contains(v) || v == x);
                    }
                    assert forall|v: Value| base.contains(v) || self.ebb_args_s(e).take(
                        k as int + 1,
                    ).contains(v) implies #[trigger] set@.contains(v) by {
                        assert(self.ebb_args_s(e).take(k as int + 1).contains(v) ==> (
                        self.ebb_args_s(e).take(k as int).contains(v) || self.ebb_args_s(e)[
                            k as int] == v));
                    }
                }
                k = k + 1;
            }
            proof {
                assert(self.ebb_args_s(e).take(na as int) =~= self.ebb_args_s(e));
            }
            // walk the block's operations
            let ghost os = self.ops_of(e);
            let mut ocur: Option<Op> = self.ebb_first_op(e);
            let ghost oj: int = 0;
            loop
                invariant
                    self.inv(),
                    self.ebb_in_layout(e),
                    0 <= oj <= os.len(),
                    os == self.ops_of(e),
                    ocur == (if oj < os.len() {
                        Some(os[oj])
                    } else {
                        None::<Op>
                    }),
                    forall|v: Value| #[trigger]
                        set@.contains(v) <==> base.contains(v) || self.ebb_args_s(e).contains(v)
                            || exists|j: int|
                            0 <= j < oj && self.used_in_op(#[trigger] os[j], v),
                ensures
                    forall|v: Value| #[trigger]
                        set@.contains(v) <==> base.contains(v) || self.used_in_ebb(e, v),
                decreases os.len() - oj,
            {
                let o: Op;
                match ocur {
                    None => {
                        break ;
                    },
                    Some(o0) => {
                        o = o0;
                    },
                }
                proof {
                    let ie = choose|i: int|
                        0 <= i < self.ebb_seq_s().len() && self.ebb_seq_s()[i] == e;
                    assert(self.layout.ebb_node_ok(ie));
                    assert(self.layout.op_node_ok(e, oj));
                }
                let ghost opbase: Set<Value> = set@;
                let reads = self.op_reads(o);
                let nr: usize = reads.len();
                let mut k2: usize = 0;
                while k2 < nr
                    invariant
                        self.inv(),
                        k2 <= nr,
                        o.0 < self.num_ops(),
                        nr == self.op_reads_s(o).len(),
                        reads@ == self.op_reads_s(o),
                        forall|v: Value| #[trigger]
                            set@.contains(v) <==> opbase.contains(v) || self.op_reads_s(o).take(
                                k2 as int,
                            ).contains(v),
                    decreases nr - k2,
                {
                    let ghost sb = set@;
                    let x = reads[k2];
                    set.insert(x);
                    proof {
                        assert(set@ == sb.insert(x));
                        lemma_take_one_more(self.op_reads_s(o), k2 as int);
                        assert(x == self.op_reads_s(o)[k2 as int]);
                        assert forall|v: Value| #[trigger] set@.contains(v) implies
                            opbase.contains(v) || self.op_reads_s(o).take(k2 as int + 1).contains(
                            v,
                        ) by {
                            assert(sb.contains(v) || v == x);
                        }
                        assert forall|v: Value| opbase.contains(v) || self.op_reads_s(o).take(
                            k2 as int + 1,
                        ).contains(v) implies #[trigger] set@.contains(v) by {
                            assert(self.op_reads_s(o).take(k2 as int + 1).contains(v) ==> (
                            self.op_reads_s(o).take(k2 as int).contains(v) || self.op_reads_s(o)[
                                k2 as int] == v));
                        }
                    }
                    k2 = k2 + 1;
                }
                proof {
                    assert(self.op_reads_s(o).take(nr as int) =~= self.op_reads_s(o));
                }
                let writes = self.op_writes(o);
                let nw: usize = writes.len();
                let mut k3: usize = 0;
                while k3 < nw
                    invariant
                        self.inv(),
                        k3 <= nw,
                        o.0 < self.num_ops(),
                        nw == self.op_writes_s(o).len(),
                        writes@ == self.op_writes_s(o),
                        forall|v: Value| #[trigger]
                            set@.contains(v) <==> opbase.contains(v) || self.op_reads_s(
                                o,
                            ).contains(v) || self.op_writes_s(o).take(k3 as int).contains(v),
                    decreases nw - k3,
                {
                    let ghost sb = set@;
                    let x = writes[k3];
                    set.insert(x);
                    proof {
                        assert(set@ == sb.insert(x));
                        lemma_take_one_more(self.op_writes_s(o), k3 as int);
                        assert(x == self.op_writes_s(o)[k3 as int]);
                        assert forall|v: Value| #[trigger] set@.contains(v) implies
                            opbase.contains(v) || self.op_reads_s(o).contains(v)
                            || self.op_writes_s(o).take(k3 as int + 1).contains(v) by {
                            assert(sb.contains(v) || v == x);
                        }
                        assert forall|v: Value| opbase.contains(v) || self.op_reads_s(o).contains(
                            v,
                        ) || self.op_writes_s(o).take(k3 as int + 1).contains(v)
                            implies #[trigger] set@.contains(v) by {
                            assert(self.op_writes_s(o).take(k3 as int + 1).contains(v) ==> (
                            self.op_writes_s(o).take(k3 as int).contains(v) || self.op_writes_s(o)[
                                k3 as int] == v));
                        }
                    }
                    k3 = k3 + 1;
                }
                proof {
                    assert(self.op_writes_s(o).take(nw as int) =~= self.op_writes_s(o));
                }
                let nb: usize = self.op_branches(o).len();
                proof {
                    assert(self.op_data_ok(o.0 as int));
                }
                let mut k4: usize = 0;
                while k4 < nb
                    invariant
                        self.inv(),
                        k4 <= nb,
                        o.0 < self.num_ops(),
                        nb == self.op_branches_s(o).len(),
                        forall|k: int|
                            0 <= k < nb ==> (#[trigger] self.op_branches_s(o)[k]).0
                                < self.num_ebb_calls(),
                        forall|v: Value| #[trigger]
                            set@.contains(v) <==> opbase.contains(v) || self.op_reads_s(
                                o,
                            ).contains(v) || self.op_writes_s(o).contains(v) || exists|b: int|
                                0 <= b < k4 && self.call_args_s(
                                    #[trigger] self.op_branches_s(o)[b],
                                ).contains(v),
                    decreases nb - k4,
                {
                    let c = self.op_branches(o)[k4];
                    proof {
                        assert(c.0 < self.num_ebb_calls());
                    }
                    let ghost brbase: Set<Value> = set@;
                    let cargs = self.ebb_call_args(c);
                    let nc: usize = cargs.len();
                    let mut k5: usize = 0;
                    while k5 < nc
                        invariant
                            self.inv(),
                            k5 <= nc,
                            c.0 < self.num_ebb_calls(),
                            nc == self.call_args_s(c).len(),
                            cargs@ == self.call_args_s(c),
                            forall|v: Value| #[trigger]
                                set@.contains(v) <==> brbase.contains(v) || self.call_args_s(
                                    c,
                                ).take(k5 as int).contains(v),
                        decreases nc - k5,
                    {
                        let ghost sb = set@;
                        let x = cargs[k5];
                        set.insert(x);
                        proof {
                            assert(set@ == sb.insert(x));
                            lemma_take_one_more(self.call_args_s(c), k5 as int);
                            assert(x == self.call_args_s(c)[k5 as int]);
                            assert forall|v: Value| #[trigger] set@.contains(v) implies
                                brbase.contains(v) || self.call_args_s(c).take(
                                k5 as int + 1,
                            ).contains(v) by {
                                assert(sb.contains(v) || v == x);
                            }
                            assert forall|v: Value| brbase.contains(v) || self.call_args_s(c).take(
                                k5 as int + 1,
                            ).contains(v) implies #[trigger] set@.contains(v) by {
                                assert(self.call_args_s(c).take(k5 as int + 1).contains(v) ==> (
                                self.call_args_s(c).take(k5 as int).contains(v)
                                    || self.call_args_s(c)[k5 as int] == v));
                            }
                        }
                        k5 = k5 + 1;
                    }
                    proof {
                        assert(self.call_args_s(c).take(nc as int) =~= self.call_args_s(c));
                        assert(self.op_branches_s(o)[k4 as int] == c);
                    }
                    k4 = k4 + 1;
                }
                proof {
                    assert forall|v: Value| #[trigger] set@.contains(v) implies opbase.contains(v)
                        || self.used_in_op(o, v) by {}
                    assert forall|v: Value| opbase.contains(v) || self.used_in_op(o, v)
                        implies #[trigger] set@.contains(v) by {}
                    assert(os[oj] == o);
                }
                ocur = self.op_after(o);
                proof {
                    oj = oj + 1;
                }
            }
            cursor = match self.layout.ebbs[e.0 as usize].next {
                Some(n) => Some(n),
                None => None,
            };
            proof {
                bi = bi + 1;
            }
        }
    }

    /// A restartable forward cursor over the function's blocks, in layout
    /// order.
    pub fn iter_ebb(&self) -> (r: EbbIter)
        requires
            self.inv(),
        ensures
            r.wf(self),
            r.pos@ == 0,
    {
        let ghost z: int = 0;
        let it = EbbIter { cursor: self.layout.first_ebb, pos: Ghost(z) };
        it
    }

    /// A forward cursor over the operations of block `e`, in layout order.
    pub fn iter_op(&self, e: Ebb) -> (it: OpIter)
        requires
            self.inv(),
            self.ebb_in_layout(e),
        ensures
            it.wf(self),
            it.ebb == e,
            it.pos@ == 0,
    {
        proof {
            let i = choose|i: int| 0 <= i < self.ebb_seq_s().len() && self.ebb_seq_s()[i] == e;
            assert(self.layout.ebb_node_ok(i));
        }
        let it = OpIter { ebb: e, cursor: self.layout.ebbs[e.0 as usize].first_op, pos: Ghost(0) };
        it
    }

    /// A backward cursor over the operations of block `e`, from its last
    /// operation.
    pub fn iter_op_rev(&self, e: Ebb) -> (it: RevOpIter)
        requires
            self.inv(),
            self.ebb_in_layout(e),
        ensures
            it.wf(self),
            it.ebb == e,
            it.pos@ == self.ops_of(e).len() - 1,
    {
        proof {
            let i = choose|i: int| 0 <= i < self.ebb_seq_s().len() && self.ebb_seq_s()[i] == e;
            assert(self.layout.ebb_node_ok(i));
        }
        let it = RevOpIter {
            ebb: e,
            cursor: self.layout.ebbs[e.0 as usize].last_op,
            pos: Ghost(self.ops_of(e).len() - 1),
        };
        it
    }

    /// A backward cursor starting at `o` itself, which must be linked into a
    /// block.
    pub fn iter_op_rev_from(&self, o: Op) -> (it: RevOpIter)
        requires
            self.inv(),
            self.op_in_layout(o),
        ensures
            it.wf(self),
            self.op_in_ebb(it.ebb, o),
            it.pos@ == pos_of(self.ops_of(it.ebb), o),
            0 <= it.pos@ < self.ops_of(it.ebb).len(),
            self.ops_of(it.ebb)[it.pos@] == o,
    {
        let ghost home = choose|e: Ebb| self.op_in_ebb(e, o);
        proof {
            self.lemma_op_in_arena(home, o);
        }
        let e: Ebb;
        match self.layout.ops[o.0 as usize].ebb {
            Some(e0) => {
                e = e0;
            },
            None => {
                proof {
                    assert(false);
                }
                e = Ebb(0);
            },
        }
        proof {
            let j = pos_of(self.ops_of(home), o);
            assert(self.ops_of(home).contains(o));
            assert(0 <= j < self.ops_of(home).len() && self.ops_of(home)[j] == o);
        }
        let it = RevOpIter { ebb: e, cursor: Some(o), pos: Ghost(pos_of(self.ops_of(e), o)) };
        it
    }

}


/// A set of values, held as a duplicate-free vector.
pub struct ValueSet {
    items: Vec<Value>,
}

impl ValueSet {
    pub closed spec fn view(&self) -> Set<Value> {
        self.items@.to_set()
    }

    pub fn new() -> (r: Self)
        ensures
            r@ =~= Set::<Value>::empty(),
    {
        ValueSet { items: Vec::new() }
    }

    /// Empty the set.
    pub fn clear(&mut self)
        ensures
            final(self)@ =~= Set::<Value>::empty(),
    {
        self.items.clear();
    }

    /// Is `v` in the set?
    pub fn contains(&self, v: Value) -> (r: bool)
        ensures
            r == self@.contains(v),
    {
        let n: usize = self.items.len();
        let mut i: usize = 0;
        while i < n
            invariant
                i <= n,
                n == self.items@.len(),
                forall|k: int| 0 <= k < i ==> self.items@[k] != v,
            decreases n - i,
        {
            if self.items[i] == v {
                return true;
            }
            i = i + 1;
        }
        false
    }

    /// Add `v` to the set.
    pub fn insert(&mut self, v: Value)
        ensures
            final(self)@ =~= old(self)@.insert(v),
    {
        if !self.contains(v) {
            self.items.push(v);
            proof {
                assert forall|x: Value| final(self)@.contains(x) implies old(self)@.insert(
                    v,
                ).contains(x) by {
                    let k = choose|k: int|
                        0 <= k < self.items@.len() && self.items@[k] == x;
                    if k < self.items@.len() - 1 {
                        assert(old(self).items@[k] == x);
                    }
                }
                assert forall|x: Value| old(self)@.insert(v).contains(x)
                    implies final(self)@.contains(x) by {
                    if x == v {
                        assert(self.items@.last() == v);
                    } else {
                        let k = choose|k: int|
                            0 <= k < old(self).items@.len() && old(self).items@[k] == x;
                        assert(self.items@[k] == x);
                    }
                }
            }
        }
    }

}

/// One more element of a prefix: what `take(k + 1)` holds beyond `take(k)`.
pub proof fn lemma_take_one_more<T>(s: Seq<T>, k: int)
    requires
        0 <= k < s.len(),
    ensures
        forall|v: T| s.take(k + 1).contains(v) <==> (s.take(k).contains(v) || s[k] == v),
{
    assert forall|v: T| s.take(k + 1).contains(v) implies (s.take(k).contains(v) || s[k]
        == v) by {
        let i = choose|i: int| 0 <= i < k + 1 && #[trigger] s.take(k + 1)[i] == v;
        if i < k {
            assert(s.take(k)[i] == v);
        }
    }
    assert forall|v: T| (s.take(k).contains(v) || s[k] == v) implies s.take(k + 1).contains(
        v,
    ) by {
        if s.take(k).contains(v) {
            let i = choose|i: int| 0 <= i < k && #[trigger] s.take(k)[i] == v;
            assert(s.take(k + 1)[i] == v);
        } else {
            assert(s.take(k + 1)[k] == v);
        }
    }

}

} // verus!
