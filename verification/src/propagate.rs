//! Copy/constant propagation: the reference instance of the local-rewrite
//! pattern every IR cleanup pass follows.
//!
//! The pass works in three phases over one function. First it records every
//! value read in any control-transfer argument list ("cross-edge reads"):
//! such values merge across an edge and must stay materialized. Second, one
//! forward scan deletes every trivial definition — a plain move whose single
//! write is not read across an edge, and an `UnpackValueList` with zero
//! writes, or with one write under the same condition — and records each
//! deleted write's single source in an alias map. Third, a second forward
//! scan rewrites every remaining read by chasing the alias map to its
//! ultimate source: a surviving variable or a constant. Transfer argument
//! lists themselves are left untouched.
//!
//! The whole pass is specified exactly: the surviving operations of each
//! block are [`keep_ops`] of the old ones, and every surviving read equals
//! [`rewritten`] of the old read.

use vstd::prelude::*;

use crate::fun::{Ebb, EbbCall, Function, Op, OpKind, Value, ValueSet};

verus! {

/// Does operation `o` pass `v` along one of its control transfers?
pub open spec fn op_branch_reads(f: Function, o: Op, v: Value) -> bool {
    exists|b: int|
        0 <= b < f.op_branches_s(o).len() && f.call_args_s(
            #[trigger] f.op_branches_s(o)[b],
        ).contains(v)
}

/// Does any operation of block `e` pass `v` along a control transfer?
pub open spec fn ebb_branch_reads(f: Function, e: Ebb, v: Value) -> bool {
    exists|j: int|
        0 <= j < f.ops_of(e).len() && op_branch_reads(f, #[trigger] f.ops_of(e)[j], v)
}

/// Is `v` read across some control-transfer edge of `f` — that is, does any
/// transfer in the whole function pass it to a block argument?
pub open spec fn cross_edge_read(f: Function, v: Value) -> bool {
    exists|i: int|
        0 <= i < f.ebb_seq_s().len() && ebb_branch_reads(f, #[trigger] f.ebb_seq_s()[i], v)
}

/// Is `o` a trivial definition the pass deletes: a move (or one-write value
/// unpack) whose single write is not read across an edge, or a zero-write
/// value unpack?
pub open spec fn is_trivial(f: Function, o: Op) -> bool {
    ||| (f.op_kind_s(o) == OpKind::UnpackValueList && f.op_writes_s(o).len() == 0)
    ||| ((f.op_kind_s(o) == OpKind::Move || f.op_kind_s(o) == OpKind::UnpackValueList)
        && f.op_writes_s(o).len() == 1 && f.op_reads_s(o).len() == 1 && !cross_edge_read(
        f,
        f.op_writes_s(o)[0],
    ))
}

/// The operations of `os` that survive the pass, in order.
pub open spec fn keep_ops(f: Function, os: Seq<Op>) -> Seq<Op>
    decreases os.len(),
{
    if os.len() == 0 {
        Seq::empty()
    } else {
        let rest = keep_ops(f, os.drop_last());
        if is_trivial(f, os.last()) {
            rest
        } else {
            rest.push(os.last())
        }
    }
}

/// One scan step of the alias map: a deleted one-write definition records
/// its write as an alias of its single read (a constant or a variable).
pub open spec fn alias_step(f: Function, o: Op, m: Map<Value, Value>) -> Map<Value, Value> {
    if is_trivial(f, o) && f.op_writes_s(o).len() == 1 {
        m.insert(f.op_writes_s(o)[0], f.op_reads_s(o)[0])
    } else {
        m
    }
}

/// The alias map after scanning the operations `os` in order, starting from
/// `m0`.
pub open spec fn alias_in_ops(f: Function, os: Seq<Op>, m0: Map<Value, Value>) -> Map<
    Value,
    Value,
>
    decreases os.len(),
{
    if os.len() == 0 {
        m0
    } else {
        alias_in_ops(f, os.drop_first(), alias_step(f, os[0], m0))
    }
}

/// The alias map after scanning the blocks `s` in layout order.
pub open spec fn alias_in_ebbs(f: Function, s: Seq<Ebb>, m0: Map<Value, Value>) -> Map<
    Value,
    Value,
>
    decreases s.len(),
{
    if s.len() == 0 {
        m0
    } else {
        alias_in_ebbs(f, s.drop_first(), alias_in_ops(f, f.ops_of(s[0]), m0))
    }
}

/// All aliases the deletion scan of `f` records, in scan order.
pub open spec fn alias_map(f: Function) -> Map<Value, Value> {
    alias_in_ebbs(f, f.ebb_seq_s(), Map::empty())
}

/// Follow the alias map from `v` for at most `fuel` steps. Aliases form
/// chains ending in a surviving variable or a constant; chains are acyclic
/// under the single-static-assignment invariant, so any fuel of at least the
/// chain length reaches the ultimate source.
pub open spec fn chase(m: Map<Value, Value>, v: Value, fuel: nat) -> Value
    decreases fuel,
{
    if fuel == 0 {
        v
    } else if m.contains_key(v) {
        chase(m, m[v], (fuel - 1) as nat)
    } else {
        v
    }
}

/// The fuel the pass uses: more than one step per operation of the function,
/// enough for any acyclic chain.
pub open spec fn rewrite_fuel(f: Function) -> nat {
    f.num_ops() + 1
}

/// What a read of `v` becomes: the ultimate source of its alias chain — the
/// recorded constant if the chain ends in one, the resolved alias variable
/// otherwise, and `v` itself if it was never deleted.
pub open spec fn rewritten(f: Function, v: Value) -> Value {
    chase(alias_map(f), v, rewrite_fuel(f))
}

/// A small association map from [`Value`] to [`Value`], viewed as a `Map`.
/// Later insertions shadow earlier ones.
pub struct ValueMap {
    entries: Vec<(Value, Value)>,
}

impl ValueMap {
    /// The entries folded into a map, later entries winning.
    pub closed spec fn map_of(s: Seq<(Value, Value)>) -> Map<Value, Value>
        decreases s.len(),
    {
        if s.len() == 0 {
            Map::empty()
        } else {
            Self::map_of(s.drop_last()).insert(s.last().0, s.last().1)
        }
    }

    pub closed spec fn view(&self) -> Map<Value, Value> {
        Self::map_of(self.entries@)
    }

    proof fn lemma_map_of_no_match(s: Seq<(Value, Value)>, k: Value)
        requires
            forall|j: int| 0 <= j < s.len() ==> (#[trigger] s[j]).0 != k,
        ensures
            !Self::map_of(s).contains_key(k),
        decreases s.len(),
    {
        if s.len() > 0 {
            assert(s.last() == s[s.len() - 1]);
            Self::lemma_map_of_no_match(s.drop_last(), k);
        }
    }

    proof fn lemma_map_of_last_match(s: Seq<(Value, Value)>, i: int, k: Value)
        requires
            0 <= i < s.len(),
            s[i].0 == k,
            forall|j: int| i < j < s.len() ==> (#[trigger] s[j]).0 != k,
        ensures
            Self::map_of(s).contains_key(k),
            Self::map_of(s)[k] == s[i].1,
        decreases s.len(),
    {
        if i == s.len() - 1 {
            assert(s.last() == s[i]);
        } else {
            assert(s.last() == s[s.len() - 1]);
            Self::lemma_map_of_last_match(s.drop_last(), i, k);
        }
    }

    pub fn new() -> (r: Self)
        ensures
            r@ == Map::<Value, Value>::empty(),
    {
        ValueMap { entries: Vec::new() }
    }

    /// Look `k` up; `None` when it has no alias.
    pub fn get(&self, k: Value) -> (r: Option<Value>)
        ensures
            r == if self@.contains_key(k) {
                Some(self@[k])
            } else {
                None::<Value>
            },
    {
        let mut i: usize = self.entries.len();
        while i > 0
            invariant
                i <= self.entries@.len(),
                forall|j: int| i <= j < self.entries@.len() ==> (#[trigger] self.entries@[j]).0 != k,
            decreases i,
        {
            i = i - 1;
            if self.entries[i].0 == k {
                proof {
                    Self::lemma_map_of_last_match(self.entries@, i as int, k);
                }
                return Some(self.entries[i].1);
            }
        }
        proof {
            Self::lemma_map_of_no_match(self.entries@, k);
        }
        None
    }

    /// Record `k` as an alias of `v`.
    pub fn insert(&mut self, k: Value, v: Value)
        ensures
            final(self)@ == old(self)@.insert(k, v),
    {
        self.entries.push((k, v));
        proof {
            assert(self.entries@.drop_last() =~= old(self).entries@);
        }
    }
}

/// Follow the alias map from `v` for at most `fuel` steps.
fn chase_value(m: &ValueMap, v: Value, fuel: u64) -> (r: Value)
    ensures
        r == chase(m@, v, fuel as nat),
{
    let ghost target = chase(m@, v, fuel as nat);
    let mut cur = v;
    let mut left = fuel;
    loop
        invariant
            left <= fuel,
            chase(m@, cur, left as nat) == target,
        ensures
            cur == target,
        decreases left,
    {
        if left == 0 {
            break ;
        }
        match m.get(cur) {
            Some(nxt) => {
                cur = nxt;
                left = left - 1;
            },
            None => {
                break ;
            },
        }
    }
    cur
}

/// Record in `set` every value passed along any control transfer of `fun`.
fn collect_cross_edge_reads(fun: &Function, set: &mut ValueSet)
    requires
        fun.inv(),
    ensures
        forall|v: Value| #[trigger] final(set)@.contains(v) <==> cross_edge_read(*fun, v),
{
    set.clear();
    let ghost s = fun.ebb_seq_s();
    let mut eit = fun.iter_ebb();
    loop
        invariant
            fun.inv(),
            eit.wf(fun),
            0 <= eit.pos@ <= s.len(),
            s == fun.ebb_seq_s(),
            forall|v: Value| #[trigger]
                set@.contains(v) <==> exists|i: int|
                    0 <= i < eit.pos@ && ebb_branch_reads(*fun, #[trigger] s[i], v),
        ensures
            forall|v: Value| #[trigger] set@.contains(v) <==> cross_edge_read(*fun, v),
        decreases s.len() - eit.pos@,
    {
        let ghost bi = eit.pos@;
        let e: Ebb;
        match eit.next(fun) {
            None => {
                break ;
            },
            Some(e0) => {
                e = e0;
            },
        }
        proof {
            assert(fun.ebb_seq_s().contains(e)) by {
                assert(fun.ebb_seq_s()[bi] == e);
            }
        }
        let ghost base: Set<Value> = set@;
        let ghost os = fun.ops_of(e);
        let mut it = fun.iter_op(e);
        loop
            invariant
                fun.inv(),
                fun.ebb_in_layout(e),
                it.wf(fun),
                it.ebb == e,
                0 <= it.pos@ <= os.len(),
                os == fun.ops_of(e),
                forall|v: Value| #[trigger]
                    set@.contains(v) <==> base.contains(v) || exists|j: int|
                        0 <= j < it.pos@ && op_branch_reads(*fun, #[trigger] os[j], v),
            ensures
                forall|v: Value| #[trigger]
                    set@.contains(v) <==> base.contains(v) || ebb_branch_reads(*fun, e, v),
            decreases os.len() - it.pos@,
        {
            let ghost oj = it.pos@;
            let o: Op;
            match it.next(fun) {
                None => {
                    break ;
                },
                Some(o0) => {
                    o = o0;
                },
            }
            proof {
                fun.lemma_op_in_arena(e, o);
            }
            let ghost opbase: Set<Value> = set@;
            let nb: usize = fun.op_branches(o).len();
            proof {
                assert(fun.op_in_ebb(e, o));
            }
            let mut k4: usize = 0;
            while k4 < nb
                invariant
                    fun.inv(),
                    k4 <= nb,
                    o.0 < fun.num_ops(),
                    fun.op_in_ebb(e, o),
                    nb == fun.op_branches_s(o).len(),
                    forall|v: Value| #[trigger]
                        set@.contains(v) <==> opbase.contains(v) || exists|b: int|
                            0 <= b < k4 && fun.call_args_s(
                                #[trigger] fun.op_branches_s(o)[b],
                            ).contains(v),
                decreases nb - k4,
            {
                let c: EbbCall = fun.op_branches(o)[k4];
                proof {
                    let ghost home = choose|e2: Ebb| fun.op_in_ebb(e2, o);
                    fun.lemma_op_in_arena(home, o);
                    fun.lemma_op_branch_valid(o, k4 as int);
                }
                let ghost brbase: Set<Value> = set@;
                let cargs = fun.ebb_call_args(c);
                let nc: usize = cargs.len();
                let mut k5: usize = 0;
                while k5 < nc
                    invariant
                        fun.inv(),
                        k5 <= nc,
                        c.0 < fun.num_ebb_calls(),
                        nc == fun.call_args_s(c).len(),
                        cargs@ == fun.call_args_s(c),
                        forall|v: Value| #[trigger]
                            set@.contains(v) <==> brbase.contains(v) || fun.call_args_s(c).take(
                                k5 as int,
                            ).contains(v),
                    decreases nc - k5,
                {
                    let ghost sb = set@;
                    let x = cargs[k5];
                    set.insert(x);
                    proof {
                        assert(set@ == sb.insert(x));
                        crate::fun::lemma_take_one_more(fun.call_args_s(c), k5 as int);
                        assert(x == fun.call_args_s(c)[k5 as int]);
                        assert forall|v: Value| #[trigger] set@.contains(v) implies
                            brbase.contains(v) || fun.call_args_s(c).take(k5 as int + 1).contains(
                            v,
                        ) by {
                            assert(sb.contains(v) || v == x);
                        }
                        assert forall|v: Value| brbase.contains(v) || fun.call_args_s(c).take(
                            k5 as int + 1,
                        ).contains(v) implies #[trigger] set@.contains(v) by {
                            assert(fun.call_args_s(c).take(k5 as int + 1).contains(v) ==> (
                            fun.call_args_s(c).take(k5 as int).contains(v) || fun.call_args_s(c)[
                                k5 as int] == v));
                        }
                    }
                    k5 = k5 + 1;
                }
                proof {
                    assert(fun.call_args_s(c).take(nc as int) =~= fun.call_args_s(c));
                    assert(fun.op_branches_s(o)[k4 as int] == c);
                }
                k4 = k4 + 1;
            }
            proof {
                assert(os[oj] == o);
            }
        }
        proof {
            assert(s[bi] == e);
        }
    }
}

/// Delete every trivial definition of `fun`, in scan order, recording each
/// deleted write's source in `alias`; every other operation stays, in order.
fn scan_and_delete(fun: &mut Function, phis: &ValueSet, alias: &mut ValueMap)
    requires
        old(fun).inv(),
        old(alias)@ == Map::<Value, Value>::empty(),
        forall|v: Value| #[trigger] phis@.contains(v) <==> cross_edge_read(*old(fun), v),
    ensures
        final(fun).inv(),
        final(fun).ebb_seq_s() == old(fun).ebb_seq_s(),
        forall|e: Ebb|
            old(fun).ebb_in_layout(e) ==> final(fun).ops_of(e) =~= keep_ops(
                *old(fun),
                old(fun).ops_of(e),
            ),
        forall|e: Ebb|
            !old(fun).ebb_in_layout(e) ==> #[trigger] final(fun).ops_of(e) == old(fun).ops_of(e),
        final(alias)@ == alias_map(*old(fun)),
        forall|k: Value| #[trigger] final(alias)@.contains_key(k) ==> final(alias)@[k].0 < old(
            fun,
        ).num_values(),
        final(fun).num_ebbs() == old(fun).num_ebbs(),
        final(fun).num_ops() == old(fun).num_ops(),
        final(fun).unchanged_op_data(*old(fun)),
        final(fun).unchanged_ebb_data(*old(fun)),
        final(fun).unchanged_values_calls_refs(*old(fun)),
{
    let ghost f0 = *old(fun);
    let ghost s = f0.ebb_seq_s();
    let mut eit = fun.iter_ebb();
    proof {
        assert(s.skip(0) =~= s);
    }
    loop
        invariant
            fun.inv(),
            eit.wf(fun),
            0 <= eit.pos@ <= s.len(),
            fun.ebb_seq_s() == s,
            s == f0.ebb_seq_s(),
            f0.inv(),
            f0 == *old(fun),
            forall|v: Value| #[trigger] phis@.contains(v) <==> cross_edge_read(f0, v),
            forall|i: int|
                0 <= i < eit.pos@ ==> fun.ops_of(#[trigger] s[i]) =~= keep_ops(
                    f0,
                    f0.ops_of(s[i]),
                ),
            forall|i: int|
                eit.pos@ <= i < s.len() ==> fun.ops_of(#[trigger] s[i]) == f0.ops_of(s[i]),
            forall|e2: Ebb| !f0.ebb_in_layout(e2) ==> #[trigger] fun.ops_of(e2) == f0.ops_of(e2),
            alias_in_ebbs(f0, s.skip(eit.pos@), alias@) == alias_map(f0),
            forall|k: Value| #[trigger] alias@.contains_key(k) ==> alias@[k].0 < f0.num_values(),
            fun.num_ebbs() == f0.num_ebbs(),
            fun.num_ops() == f0.num_ops(),
            fun.unchanged_op_data(f0),
            fun.unchanged_ebb_data(f0),
            fun.unchanged_values_calls_refs(f0),
        ensures
            fun.inv(),
            fun.ebb_seq_s() == s,
            forall|i: int|
                0 <= i < s.len() ==> fun.ops_of(#[trigger] s[i]) =~= keep_ops(
                    f0,
                    f0.ops_of(s[i]),
                ),
            forall|e2: Ebb| !f0.ebb_in_layout(e2) ==> #[trigger] fun.ops_of(e2) == f0.ops_of(e2),
            alias@ == alias_map(f0),
            forall|k: Value| #[trigger] alias@.contains_key(k) ==> alias@[k].0 < f0.num_values(),
            fun.num_ebbs() == f0.num_ebbs(),
            fun.num_ops() == f0.num_ops(),
            fun.unchanged_op_data(f0),
            fun.unchanged_ebb_data(f0),
            fun.unchanged_values_calls_refs(f0),
        decreases s.len() - eit.pos@,
    {
        let ghost bi = eit.pos@;
        let e: Ebb;
        match eit.next(fun) {
            None => {
                proof {
                    assert(s.skip(eit.pos@) =~= Seq::<Ebb>::empty());
                }
                break ;
            },
            Some(e0) => {
                e = e0;
            },
        }
        proof {
            assert(s[bi] == e);
            assert(fun.ebb_in_layout(e)) by {
                assert(fun.ebb_seq_s()[bi] == e);
            }
            assert(f0.ebb_in_layout(e)) by {
                assert(f0.ebb_seq_s()[bi] == e);
            }
        }
        let ghost os0 = f0.ops_of(e);
        proof {
            assert(s.skip(bi)[0] == s[bi]);
            assert(s.skip(bi).drop_first() =~= s.skip(bi + 1));
            assert(os0.skip(0) =~= os0);
        }
        let mut ocur: Option<Op> = fun.ebb_first_op(e);
        let ghost oj: int = 0;
        loop
            invariant
                fun.inv(),
                fun.ebb_seq_s() == s,
                fun.ebb_in_layout(e),
                f0.ebb_in_layout(e),
                e == s[bi],
                0 <= bi < s.len(),
                0 <= oj <= os0.len(),
                os0 == f0.ops_of(e),
                s == f0.ebb_seq_s(),
                f0.inv(),
                f0 == *old(fun),
                forall|v: Value| #[trigger] phis@.contains(v) <==> cross_edge_read(f0, v),
                fun.ops_of(e) =~= keep_ops(f0, os0.take(oj)) + os0.skip(oj),
                ocur == (if oj < os0.len() {
                    Some(os0[oj])
                } else {
                    None::<Op>
                }),
                forall|i: int|
                    0 <= i < bi ==> fun.ops_of(#[trigger] s[i]) =~= keep_ops(
                        f0,
                        f0.ops_of(s[i]),
                    ),
                forall|i: int| bi < i < s.len() ==> fun.ops_of(#[trigger] s[i]) == f0.ops_of(s[i]),
                forall|e2: Ebb|
                    !f0.ebb_in_layout(e2) ==> #[trigger] fun.ops_of(e2) == f0.ops_of(e2),
                alias_in_ebbs(f0, s.skip(bi + 1), alias_in_ops(f0, os0.skip(oj), alias@))
                    == alias_map(f0),
                forall|k: Value| #[trigger] alias@.contains_key(k) ==> alias@[k].0
                    < f0.num_values(),
                fun.num_ebbs() == f0.num_ebbs(),
                fun.num_ops() == f0.num_ops(),
                fun.unchanged_op_data(f0),
                fun.unchanged_ebb_data(f0),
                fun.unchanged_values_calls_refs(f0),
            ensures
                fun.inv(),
                fun.ebb_seq_s() == s,
                fun.ops_of(e) =~= keep_ops(f0, os0),
                forall|i: int|
                    0 <= i < bi ==> fun.ops_of(#[trigger] s[i]) =~= keep_ops(
                        f0,
                        f0.ops_of(s[i]),
                    ),
                forall|i: int| bi < i < s.len() ==> fun.ops_of(#[trigger] s[i]) == f0.ops_of(s[i]),
                forall|e2: Ebb|
                    !f0.ebb_in_layout(e2) ==> #[trigger] fun.ops_of(e2) == f0.ops_of(e2),
                alias_in_ebbs(f0, s.skip(bi + 1), alias@) == alias_map(f0),
                forall|k: Value| #[trigger] alias@.contains_key(k) ==> alias@[k].0
                    < f0.num_values(),
                fun.num_ebbs() == f0.num_ebbs(),
                fun.num_ops() == f0.num_ops(),
                fun.unchanged_op_data(f0),
                fun.unchanged_ebb_data(f0),
                fun.unchanged_values_calls_refs(f0),
            decreases os0.len() - oj,
        {
            let o: Op;
            match ocur {
                None => {
                    proof {
                        assert(os0.take(oj) =~= os0);
                        assert(os0.skip(oj) =~= Seq::<Op>::empty());
                        assert(fun.ops_of(e) =~= keep_ops(f0, os0) + Seq::<Op>::empty());
                        assert(keep_ops(f0, os0) + Seq::<Op>::empty() =~= keep_ops(f0, os0));
                        assert(alias_in_ops(f0, os0.skip(oj), alias@) == alias@);
                    }
                    break ;
                },
                Some(o0) => {
                    o = o0;
                },
            }
            let ghost kl = keep_ops(f0, os0.take(oj)).len() as int;
            proof {
                f0.lemma_op_in_arena(e, o);
                assert(fun.ops_of(e)[kl] == o) by {
                    assert(os0.skip(oj)[0] == os0[oj]);
                }
                assert(fun.op_in_ebb(e, o)) by {
                    assert(fun.ops_of(e)[kl] == o);
                }
            }
            ocur = fun.op_after(o);
            proof {
                assert(ocur == crate::fun::link_next(fun.ops_of(e), kl));
                if oj < os0.len() - 1 {
                    assert(fun.ops_of(e)[kl + 1] == os0.skip(oj)[1]);
                    assert(os0.skip(oj)[1] == os0[oj + 1]);
                } else {
                    assert(kl == fun.ops_of(e).len() - 1);
                }
            }
            let kind = fun.op_kind(o);
            let nw: usize = fun.op_writes(o).len();
            let nr: usize = fun.op_reads(o).len();
            let mut trivial = false;
            if kind == OpKind::UnpackValueList && nw == 0 {
                trivial = true;
            } else if (kind == OpKind::Move || kind == OpKind::UnpackValueList) && nw == 1 && nr
                == 1 {
                let w0 = fun.op_writes(o)[0];
                if !phis.contains(w0) {
                    trivial = true;
                }
            }
            proof {
                assert(fun.op_kind_s(o) == f0.op_kind_s(o));
                assert(fun.op_writes_s(o) == f0.op_writes_s(o));
                assert(fun.op_reads_s(o) == f0.op_reads_s(o));
                assert(trivial == is_trivial(f0, o));
            }
            let ghost a_old = alias@;
            if trivial {
                if nw == 1 {
                    let w0 = fun.op_writes(o)[0];
                    let r0 = fun.op_reads(o)[0];
                    proof {
                        fun.lemma_op_read_valid(o, 0);
                    }
                    alias.insert(w0, r0);
                    proof {
                        assert(alias@ == alias_step(f0, o, a_old)) by {
                            assert(w0 == f0.op_writes_s(o)[0]);
                            assert(r0 == f0.op_reads_s(o)[0]);
                        }
                        assert forall|k: Value| #[trigger] alias@.contains_key(k)
                            implies alias@[k].0 < f0.num_values() by {
                            if k != w0 {
                                assert(a_old.contains_key(k));
                            } else {
                                assert(alias@[k] == r0);
                            }
                        }
                    }
                } else {
                    proof {
                        assert(alias_step(f0, o, a_old) == a_old);
                    }
                }
                proof {
                    assert(os0.skip(oj)[0] == os0[oj]);
                    assert(os0.skip(oj).drop_first() =~= os0.skip(oj + 1));
                    assert(alias_in_ops(f0, os0.skip(oj), a_old) == alias_in_ops(
                        f0,
                        os0.skip(oj + 1),
                        alias@,
                    ));
                }
                let ghost pre = *fun;
                fun.op_remove(o);
                proof {
                    lemma_unchanged_ebb_trans(f0, pre, *fun);
                    lemma_unchanged_vcr_trans(f0, pre, *fun);
                    lemma_unchanged_opdata_trans(f0, pre, *fun);
                    // this block: the trivial operation leaves, the rest stays
                    assert(pre.ops_of(e)[kl] == o);
                    assert(fun.ops_of(e) =~= pre.ops_of(e).remove(kl));
                    assert(keep_ops(f0, os0.take(oj + 1)) =~= keep_ops(f0, os0.take(oj))) by {
                        assert(os0.take(oj + 1).drop_last() =~= os0.take(oj));
                        assert(os0.take(oj + 1).last() == os0[oj]);
                    }
                    assert(fun.ops_of(e) =~= keep_ops(f0, os0.take(oj + 1)) + os0.skip(oj + 1))
                        by {
                        assert(pre.ops_of(e).remove(kl) =~= keep_ops(f0, os0.take(oj)) + os0.skip(
                            oj + 1,
                        ));
                    }
                    // other blocks never held this operation
                    assert forall|i: int| 0 <= i < s.len() && i != bi implies fun.ops_of(
                        #[trigger] s[i],
                    ) == pre.ops_of(s[i]) by {
                        if pre.ops_of(s[i]).contains(o) {
                            assert(pre.ebb_in_layout(s[i])) by {
                                assert(pre.ebb_seq_s()[i] == s[i]);
                            }
                            pre.lemma_op_unique(s[i], e, o);
                            pre.lemma_ebb_unique(i, bi);
                        }
                    }
                    assert forall|e2: Ebb| !f0.ebb_in_layout(e2) implies #[trigger] fun.ops_of(e2)
                        == f0.ops_of(e2) by {
                        assert(!pre.ebb_in_layout(e2));
                        assert(fun.ops_of(e2) == pre.ops_of(e2));
                    }
                }
            } else {
                proof {
                    assert(keep_ops(f0, os0.take(oj + 1)) =~= keep_ops(f0, os0.take(oj)).push(o))
                        by {
                        assert(os0.take(oj + 1).drop_last() =~= os0.take(oj));
                        assert(os0.take(oj + 1).last() == os0[oj]);
                    }
                    assert(fun.ops_of(e) =~= keep_ops(f0, os0.take(oj + 1)) + os0.skip(oj + 1))
                        by {
                        assert(os0.skip(oj)[0] == os0[oj]);
                        assert(os0.skip(oj) =~= seq![os0[oj]] + os0.skip(oj + 1));
                    }
                    assert(alias_step(f0, o, a_old) == a_old);
                    assert(os0.skip(oj).drop_first() =~= os0.skip(oj + 1));
                    assert(alias_in_ops(f0, os0.skip(oj), a_old) == alias_in_ops(
                        f0,
                        os0.skip(oj + 1),
                        alias@,
                    ));
                }
            }
            proof {
                assert(os0.skip(oj).drop_first() =~= os0.skip(oj + 1));
                oj = oj + 1;
            }
        }
        proof {
            assert(s.skip(bi).drop_first() =~= s.skip(bi + 1));
            assert(eit.wf(fun));
        }
    }
}

/// Operation `o` of `f1` carries `f0`'s record with every read chased
/// through `m`.
pub open spec fn op_rewritten(
    f0: Function,
    f1: Function,
    o: Op,
    m: Map<Value, Value>,
    fuel: nat,
) -> bool {
    &&& f1.op_kind_s(o) == f0.op_kind_s(o)
    &&& f1.op_writes_s(o) == f0.op_writes_s(o)
    &&& f1.op_branches_s(o) == f0.op_branches_s(o)
    &&& f1.op_reads_s(o) == f0.op_reads_s(o).map_values(|v: Value| chase(m, v, fuel))
}

/// Operation `o` carries the same record in `f0` and `f1`.
pub open spec fn op_untouched(f0: Function, f1: Function, o: Op) -> bool {
    &&& f1.op_kind_s(o) == f0.op_kind_s(o)
    &&& f1.op_writes_s(o) == f0.op_writes_s(o)
    &&& f1.op_branches_s(o) == f0.op_branches_s(o)
    &&& f1.op_reads_s(o) == f0.op_reads_s(o)
}

/// Is `x` linked into one of the first `pos` blocks of `s`?
pub open spec fn in_block_prefix(f0: Function, s: Seq<Ebb>, pos: int, x: Op) -> bool {
    exists|i: int| 0 <= i < pos && f0.ops_of(#[trigger] s[i]).contains(x)
}

/// Chasing a map whose range is valid stays valid.
proof fn lemma_chase_valid(m: Map<Value, Value>, v: Value, fuel: nat, n: nat)
    requires
        v.0 < n,
        forall|k: Value| #[trigger] m.contains_key(k) ==> m[k].0 < n,
    ensures
        chase(m, v, fuel).0 < n,
    decreases fuel,
{
    if fuel > 0 && m.contains_key(v) {
        lemma_chase_valid(m, m[v], (fuel - 1) as nat, n);
    }
}

/// Block data unchanged is transitive.
proof fn lemma_unchanged_ebb_trans(f0: Function, f1: Function, f2: Function)
    requires
        f1.unchanged_ebb_data(f0),
        f2.unchanged_ebb_data(f1),
        f1.num_ebbs() == f0.num_ebbs(),
    ensures
        f2.unchanged_ebb_data(f0),
{
    assert forall|e: Ebb| e.0 < f0.num_ebbs() implies #[trigger] f2.ebb_args_s(e)
        == f0.ebb_args_s(e) && f2.ebb_finished_s(e) == f0.ebb_finished_s(e) by {
        assert(f1.ebb_args_s(e) == f0.ebb_args_s(e));
        assert(f2.ebb_args_s(e) == f1.ebb_args_s(e));
        assert(f1.ebb_finished_s(e) == f0.ebb_finished_s(e));
        assert(f2.ebb_finished_s(e) == f1.ebb_finished_s(e));
    }
    assert(forall|e: Ebb|
        e.0 < f0.num_ebbs() ==> #[trigger] f2.ebb_args_s(e) == f0.ebb_args_s(e)
            && f2.ebb_finished_s(e) == f0.ebb_finished_s(e));
}

/// Values, constants, transfers and function references unchanged is
/// transitive.
proof fn lemma_unchanged_vcr_trans(f0: Function, f1: Function, f2: Function)
    requires
        f1.unchanged_values_calls_refs(f0),
        f2.unchanged_values_calls_refs(f1),
    ensures
        f2.unchanged_values_calls_refs(f0),
{
    assert forall|v: Value| v.0 < f0.num_values() implies #[trigger] f2.value_s(v) == f0.value_s(
        v,
    ) by {
        assert(f1.value_s(v) == f0.value_s(v));
    }
    assert forall|c: EbbCall| c.0 < f0.num_ebb_calls() implies #[trigger] f2.call_source_s(c)
        == f0.call_source_s(c) && f2.call_target_s(c) == f0.call_target_s(c) && f2.call_args_s(c)
        == f0.call_args_s(c) by {
        assert(f1.call_source_s(c) == f0.call_source_s(c));
        assert(f1.call_target_s(c) == f0.call_target_s(c));
        assert(f1.call_args_s(c) == f0.call_args_s(c));
    }
    assert forall|f: crate::fun::FunRef| f.0 < f0.num_fun_refs()
        implies #[trigger] f2.fun_ref_s(f) == f0.fun_ref_s(f) by {
        assert(f1.fun_ref_s(f) == f0.fun_ref_s(f));
    }
}

/// Operation records unchanged is transitive.
proof fn lemma_unchanged_opdata_trans(f0: Function, f1: Function, f2: Function)
    requires
        f1.unchanged_op_data(f0),
        f2.unchanged_op_data(f1),
        f1.num_ops() == f0.num_ops(),
    ensures
        f2.unchanged_op_data(f0),
{
    assert forall|x: Op| x.0 < f0.num_ops() implies #[trigger] f2.op_kind_s(x) == f0.op_kind_s(x)
        && f2.op_reads_s(x) == f0.op_reads_s(x) && f2.op_writes_s(x) == f0.op_writes_s(x)
        && f2.op_branches_s(x) == f0.op_branches_s(x) by {
        assert(f1.op_kind_s(x) == f0.op_kind_s(x));
        assert(f1.op_reads_s(x) == f0.op_reads_s(x));
        assert(f1.op_writes_s(x) == f0.op_writes_s(x));
        assert(f1.op_branches_s(x) == f0.op_branches_s(x));
    }
}

/// Rewrite every read operand of every linked operation of `fun` by chasing
/// `alias` for at most `fuel` steps. The layout, all other operand lists and
/// all other data stay as they were.
fn rewrite_reads(fun: &mut Function, alias: &ValueMap, fuel: u64)
    requires
        old(fun).inv(),
        forall|k: Value| #[trigger] alias@.contains_key(k) ==> alias@[k].0 < old(
            fun,
        ).num_values(),
    ensures
        final(fun).inv(),
        final(fun).ebb_seq_s() == old(fun).ebb_seq_s(),
        forall|e: Ebb| #[trigger] final(fun).ops_of(e) == old(fun).ops_of(e),
        final(fun).num_ebbs() == old(fun).num_ebbs(),
        final(fun).num_ops() == old(fun).num_ops(),
        final(fun).unchanged_ebb_data(*old(fun)),
        final(fun).unchanged_values_calls_refs(*old(fun)),
        forall|e: Ebb, j: int|
            old(fun).ebb_in_layout(e) && 0 <= j < old(fun).ops_of(e).len() ==> op_rewritten(
                *old(fun),
                *final(fun),
                #[trigger] old(fun).ops_of(e)[j],
                alias@,
                fuel as nat,
            ),
        forall|x: Op|
            x.0 < old(fun).num_ops() && !old(fun).op_in_layout(x) ==> op_untouched(
                *old(fun),
                *final(fun),
                x,
            ),
{
    let ghost f0 = *old(fun);
    let ghost s = f0.ebb_seq_s();
    let ghost m = alias@;
    let mut eit = fun.iter_ebb();
    loop
        invariant
            fun.inv(),
            eit.wf(fun),
            0 <= eit.pos@ <= s.len(),
            fun.ebb_seq_s() == s,
            s == f0.ebb_seq_s(),
            f0.inv(),
            f0 == *old(fun),
            m == alias@,
            forall|k: Value| #[trigger] m.contains_key(k) ==> m[k].0 < f0.num_values(),
            forall|e: Ebb| #[trigger] fun.ops_of(e) == f0.ops_of(e),
            fun.num_ebbs() == f0.num_ebbs(),
            fun.num_ops() == f0.num_ops(),
            fun.num_values() == f0.num_values(),
            fun.unchanged_ebb_data(f0),
            fun.unchanged_values_calls_refs(f0),
            forall|e: Ebb, j: int|
                0 <= j < f0.ops_of(e).len() && in_block_prefix(f0, s, eit.pos@, f0.ops_of(e)[j])
                    && f0.ebb_in_layout(e) ==> op_rewritten(
                    f0,
                    *fun,
                    #[trigger] f0.ops_of(e)[j],
                    m,
                    fuel as nat,
                ),
            forall|x: Op|
                x.0 < f0.num_ops() && !in_block_prefix(f0, s, eit.pos@, x) ==> op_untouched(
                    f0,
                    *fun,
                    x,
                ),
        ensures
            fun.inv(),
            fun.ebb_seq_s() == s,
            forall|e: Ebb| #[trigger] fun.ops_of(e) == f0.ops_of(e),
            fun.num_ebbs() == f0.num_ebbs(),
            fun.num_ops() == f0.num_ops(),
            fun.unchanged_ebb_data(f0),
            fun.unchanged_values_calls_refs(f0),
            forall|e: Ebb, j: int|
                0 <= j < f0.ops_of(e).len() && in_block_prefix(f0, s, s.len() as int, f0.ops_of(
                    e,
                )[j]) && f0.ebb_in_layout(e) ==> op_rewritten(
                    f0,
                    *fun,
                    #[trigger] f0.ops_of(e)[j],
                    m,
                    fuel as nat,
                ),
            forall|x: Op|
                x.0 < f0.num_ops() && !in_block_prefix(f0, s, s.len() as int, x) ==> op_untouched(
                    f0,
                    *fun,
                    x,
                ),
        decreases s.len() - eit.pos@,
    {
        let ghost bi = eit.pos@;
        let e: Ebb;
        match eit.next(fun) {
            None => {
                break ;
            },
            Some(e0) => {
                e = e0;
            },
        }
        proof {
            assert(s[bi] == e);
            assert(fun.ebb_in_layout(e)) by {
                assert(fun.ebb_seq_s()[bi] == e);
            }
            assert(f0.ebb_in_layout(e)) by {
                assert(f0.ebb_seq_s()[bi] == e);
            }
        }
        let ghost os0 = f0.ops_of(e);
        let mut oit = fun.iter_op(e);
        loop
            invariant
                fun.inv(),
                oit.wf(fun),
                oit.ebb == e,
                0 <= oit.pos@ <= os0.len(),
                fun.ebb_seq_s() == s,
                fun.ebb_in_layout(e),
                f0.ebb_in_layout(e),
                e == s[bi],
                0 <= bi < s.len(),
                os0 == f0.ops_of(e),
                s == f0.ebb_seq_s(),
                f0.inv(),
                f0 == *old(fun),
                m == alias@,
                forall|k: Value| #[trigger] m.contains_key(k) ==> m[k].0 < f0.num_values(),
                forall|e2: Ebb| #[trigger] fun.ops_of(e2) == f0.ops_of(e2),
                fun.num_ebbs() == f0.num_ebbs(),
                fun.num_ops() == f0.num_ops(),
                fun.num_values() == f0.num_values(),
                fun.unchanged_ebb_data(f0),
                fun.unchanged_values_calls_refs(f0),
                forall|e2: Ebb, j: int|
                    0 <= j < f0.ops_of(e2).len() && in_block_prefix(
                        f0,
                        s,
                        bi,
                        f0.ops_of(e2)[j],
                    ) && f0.ebb_in_layout(e2) ==> op_rewritten(
                        f0,
                        *fun,
                        #[trigger] f0.ops_of(e2)[j],
                        m,
                        fuel as nat,
                    ),
                forall|j: int|
                    0 <= j < oit.pos@ ==> op_rewritten(
                        f0,
                        *fun,
                        #[trigger] os0[j],
                        m,
                        fuel as nat,
                    ),
                forall|x: Op|
                    x.0 < f0.num_ops() && !in_block_prefix(f0, s, bi, x) && !os0.take(
                        oit.pos@,
                    ).contains(x) ==> op_untouched(f0, *fun, x),
            ensures
                fun.inv(),
                fun.ebb_seq_s() == s,
                forall|e2: Ebb| #[trigger] fun.ops_of(e2) == f0.ops_of(e2),
                fun.num_ebbs() == f0.num_ebbs(),
                fun.num_ops() == f0.num_ops(),
                fun.num_values() == f0.num_values(),
                fun.unchanged_ebb_data(f0),
                fun.unchanged_values_calls_refs(f0),
                forall|e2: Ebb, j: int|
                    0 <= j < f0.ops_of(e2).len() && in_block_prefix(
                        f0,
                        s,
                        bi,
                        f0.ops_of(e2)[j],
                    ) && f0.ebb_in_layout(e2) ==> op_rewritten(
                        f0,
                        *fun,
                        #[trigger] f0.ops_of(e2)[j],
                        m,
                        fuel as nat,
                    ),
                forall|j: int|
                    0 <= j < os0.len() ==> op_rewritten(
                        f0,
                        *fun,
                        #[trigger] os0[j],
                        m,
                        fuel as nat,
                    ),
                forall|x: Op|
                    x.0 < f0.num_ops() && !in_block_prefix(f0, s, bi, x) && !os0.contains(x)
                        ==> op_untouched(f0, *fun, x),
            decreases os0.len() - oit.pos@,
        {
            let ghost oj = oit.pos@;
            let o: Op;
            match oit.next(fun) {
                None => {
                    proof {
                        assert(os0.take(oit.pos@) =~= os0);
                    }
                    break ;
                },
                Some(o0) => {
                    o = o0;
                },
            }
            proof {
                assert(os0[oj] == o);
                fun.lemma_op_in_arena(e, o);
                assert(op_untouched(f0, *fun, o)) by {
                    assert(!os0.take(oj).contains(o)) by {
                        if os0.take(oj).contains(o) {
                            let j2 = choose|j2: int|
                                0 <= j2 < oj && #[trigger] os0.take(oj)[j2] == o;
                            fun.lemma_op_pos_unique(e, j2, oj);
                            assert(false);
                        }
                    }
                    assert(!in_block_prefix(f0, s, bi, o)) by {
                        if in_block_prefix(f0, s, bi, o) {
                            let i2 = choose|i2: int|
                                0 <= i2 < bi && f0.ops_of(#[trigger] s[i2]).contains(o);
                            fun.lemma_op_unique(s[i2], e, o);
                            fun.lemma_ebb_unique(i2, bi);
                        }
                    }
                }
            }
            let ghost fmid = *fun;
            let nr: usize = fun.op_reads(o).len();
            let mut ri: usize = 0;
            while ri < nr
                invariant
                    fun.inv(),
                    ri <= nr,
                    o.0 < fun.num_ops(),
                    o == os0[oj],
                    0 <= oj < os0.len(),
                    os0 == f0.ops_of(e),
                    f0.inv(),
                    f0 == *old(fun),
                    m == alias@,
                    forall|k: Value| #[trigger] m.contains_key(k) ==> m[k].0 < f0.num_values(),
                    nr == f0.op_reads_s(o).len(),
                    fun.op_reads_s(o).len() == nr,
                    fun.num_values() == f0.num_values(),
                    forall|k: int|
                        0 <= k < ri ==> #[trigger] fun.op_reads_s(o)[k] == chase(
                            m,
                            f0.op_reads_s(o)[k],
                            fuel as nat,
                        ),
                    forall|k: int| ri <= k < nr ==> #[trigger] fun.op_reads_s(o)[k]
                        == f0.op_reads_s(o)[k],
                    fun.op_kind_s(o) == f0.op_kind_s(o),
                    fun.op_writes_s(o) == f0.op_writes_s(o),
                    fun.op_branches_s(o) == f0.op_branches_s(o),
                    forall|x: Op| x.0 < f0.num_ops() && x != o ==> #[trigger] op_untouched(
                        fmid,
                        *fun,
                        x,
                    ),
                    fun.ebb_seq_s() == s,
                    forall|e2: Ebb| #[trigger] fun.ops_of(e2) == f0.ops_of(e2),
                    fun.num_ebbs() == f0.num_ebbs(),
                    fun.num_ops() == f0.num_ops(),
                    fun.unchanged_ebb_data(f0),
                    fun.unchanged_values_calls_refs(f0),
                decreases nr - ri,
            {
                let ghost fprev = *fun;
                let v = fun.op_reads(o)[ri];
                proof {
                    fun.lemma_op_read_valid(o, ri as int);
                    lemma_chase_valid(m, v, fuel as nat, f0.num_values());
                }
                let newv = chase_value(alias, v, fuel);
                fun.op_set_read(o, ri, newv);
                proof {
                    assert forall|x: Op|
                        x.0 < f0.num_ops() && x != o implies #[trigger] op_untouched(
                        fmid,
                        *fun,
                        x,
                    ) by {
                        assert(op_untouched(fmid, fprev, x));
                    }
                    lemma_unchanged_ebb_trans(f0, fprev, *fun);
                    lemma_unchanged_vcr_trans(f0, fprev, *fun);
                }
                ri = ri + 1;
            }
            proof {
                lemma_unchanged_ebb_trans(f0, fmid, *fun);
                lemma_unchanged_vcr_trans(f0, fmid, *fun);
                assert(fun.op_reads_s(o) =~= f0.op_reads_s(o).map_values(
                    |v: Value| chase(m, v, fuel as nat),
                ));
                assert(op_rewritten(f0, *fun, o, m, fuel as nat));
                // carry the facts about every other operation across the rewrite
                assert forall|e2: Ebb, j: int|
                    0 <= j < f0.ops_of(e2).len() && in_block_prefix(
                        f0,
                        s,
                        bi,
                        f0.ops_of(e2)[j],
                    ) && f0.ebb_in_layout(e2) implies op_rewritten(
                    f0,
                    *fun,
                    #[trigger] f0.ops_of(e2)[j],
                    m,
                    fuel as nat,
                ) by {
                    let x = f0.ops_of(e2)[j];
                    if x != o {
                        assert(f0.ops_of(e2).contains(x));
                        f0.lemma_op_in_arena(e2, x);
                        assert(op_rewritten(f0, fmid, x, m, fuel as nat));
                        assert(op_untouched(fmid, *fun, x));
                    }
                }
                assert forall|j: int|
                    0 <= j < oj + 1 implies op_rewritten(
                    f0,
                    *fun,
                    #[trigger] os0[j],
                    m,
                    fuel as nat,
                ) by {
                    if os0[j] != o {
                        assert(os0.contains(os0[j]));
                        f0.lemma_op_in_arena(e, os0[j]);
                        assert(op_rewritten(f0, fmid, os0[j], m, fuel as nat));
                        assert(op_untouched(fmid, *fun, os0[j]));
                    }
                }
                assert forall|x: Op|
                    x.0 < f0.num_ops() && !in_block_prefix(f0, s, bi, x) && !os0.take(
                        oj + 1,
                    ).contains(x) implies op_untouched(f0, *fun, x) by {
                    assert(!os0.take(oj + 1).contains(x));
                    assert(os0.take(oj + 1)[oj] == os0[oj]);
                    assert(x != o);
                    assert(!os0.take(oj).contains(x)) by {
                        if os0.take(oj).contains(x) {
                            let j2 = choose|j2: int|
                                0 <= j2 < oj && #[trigger] os0.take(oj)[j2] == x;
                            assert(os0.take(oj + 1)[j2] == x);
                        }
                    }
                    assert(op_untouched(f0, fmid, x));
                    assert(op_untouched(fmid, *fun, x));
                }
                assert(oit.wf(fun));
            }
        }
    }
    proof {
        assert forall|e: Ebb, j: int|
            f0.ebb_in_layout(e) && 0 <= j < f0.ops_of(e).len() implies op_rewritten(
            f0,
            *fun,
            #[trigger] f0.ops_of(e)[j],
            m,
            fuel as nat,
        ) by {
            let i = choose|i: int| 0 <= i < s.len() && #[trigger] s[i] == e;
            assert(f0.ops_of(s[i]).contains(f0.ops_of(e)[j]));
            assert(in_block_prefix(f0, s, s.len() as int, f0.ops_of(e)[j]));
        }
        assert forall|x: Op|
            x.0 < f0.num_ops() && !f0.op_in_layout(x) implies op_untouched(f0, *fun, x) by {
            if in_block_prefix(f0, s, s.len() as int, x) {
                let i = choose|i: int| 0 <= i < s.len() && f0.ops_of(#[trigger] s[i]).contains(x);
                assert(f0.ebb_in_layout(s[i])) by {
                    assert(f0.ebb_seq_s()[i] == s[i]);
                }
                assert(f0.op_in_ebb(s[i], x));
            }
        }
    }
}

/// The element at a kept position was an operation of the scanned sequence.
proof fn lemma_keep_ops_sub(f: Function, os: Seq<Op>, j: int)
    requires
        0 <= j < keep_ops(f, os).len(),
    ensures
        os.contains(keep_ops(f, os)[j]),
    decreases os.len(),
{
    if os.len() > 0 {
        if is_trivial(f, os.last()) {
            lemma_keep_ops_sub(f, os.drop_last(), j);
            let x = keep_ops(f, os)[j];
            let i = choose|i: int| 0 <= i < os.drop_last().len() && os.drop_last()[i] == x;
            assert(os[i] == x);
        } else {
            if j < keep_ops(f, os).len() - 1 {
                lemma_keep_ops_sub(f, os.drop_last(), j);
                let x = keep_ops(f, os)[j];
                let i = choose|i: int|
                    0 <= i < os.drop_last().len() && os.drop_last()[i] == x;
                assert(os[i] == x);
            } else {
                assert(os[os.len() - 1] == keep_ops(f, os)[j]);
            }
        }
    }
}

/// A surviving operation after the pass: its operator, writes and transfers
/// are as before, and every read is [`rewritten`].
pub open spec fn surviving_rewritten(f0: Function, f1: Function, o: Op) -> bool {
    &&& f1.op_kind_s(o) == f0.op_kind_s(o)
    &&& f1.op_writes_s(o) == f0.op_writes_s(o)
    &&& f1.op_branches_s(o) == f0.op_branches_s(o)
    &&& f1.op_reads_s(o) == f0.op_reads_s(o).map_values(|v: Value| rewritten(f0, v))
}

/// Copy/constant propagation over one function: delete every trivial
/// definition ([`is_trivial`]) and rewrite every remaining read to its
/// ultimate source ([`rewritten`]). Block order, block arguments, transfer
/// argument lists, values and constants are untouched; each block keeps
/// exactly its non-trivial operations, in order, and a function with no
/// trivial definitions and an empty alias map comes out unchanged.
pub fn propagate_atomics(fun: &mut Function)
    requires
        old(fun).inv(),
    ensures
        final(fun).inv(),
        final(fun).ebb_seq_s() == old(fun).ebb_seq_s(),
        final(fun).num_ebbs() == old(fun).num_ebbs(),
        final(fun).num_ops() == old(fun).num_ops(),
        final(fun).unchanged_ebb_data(*old(fun)),
        final(fun).unchanged_values_calls_refs(*old(fun)),
        forall|e: Ebb|
            old(fun).ebb_in_layout(e) ==> final(fun).ops_of(e) =~= keep_ops(
                *old(fun),
                old(fun).ops_of(e),
            ),
        forall|e: Ebb|
            !old(fun).ebb_in_layout(e) ==> #[trigger] final(fun).ops_of(e) == old(fun).ops_of(e),
        forall|e: Ebb, j: int|
            old(fun).ebb_in_layout(e) && 0 <= j < keep_ops(*old(fun), old(fun).ops_of(e)).len()
                ==> surviving_rewritten(
                *old(fun),
                *final(fun),
                #[trigger] keep_ops(*old(fun), old(fun).ops_of(e))[j],
            ),
{
    let ghost f0 = *old(fun);
    let mut phis = ValueSet::new();
    collect_cross_edge_reads(fun, &mut phis);
    let mut alias = ValueMap::new();
    scan_and_delete(fun, &phis, &mut alias);
    let ghost f1 = *fun;
    proof {
        fun.lemma_num_ops_bound();
    }
    let fuel: u64 = (fun.op_count() as u64) + 1;
    rewrite_reads(fun, &alias, fuel);
    proof {
        lemma_unchanged_ebb_trans(f0, f1, *fun);
        lemma_unchanged_vcr_trans(f0, f1, *fun);
        assert forall|e: Ebb| f0.ebb_in_layout(e) implies fun.ops_of(e) =~= keep_ops(
            f0,
            f0.ops_of(e),
        ) by {
            assert(fun.ops_of(e) == f1.ops_of(e));
            let i = choose|i: int|
                0 <= i < f0.ebb_seq_s().len() && #[trigger] f0.ebb_seq_s()[i] == e;
            assert(f1.ops_of(f0.ebb_seq_s()[i]) =~= keep_ops(f0, f0.ops_of(f0.ebb_seq_s()[i])));
        }
        assert forall|e: Ebb| !f0.ebb_in_layout(e) implies #[trigger] fun.ops_of(e) == f0.ops_of(
            e,
        ) by {
            assert(fun.ops_of(e) == f1.ops_of(e));
        }
        assert forall|e: Ebb, j: int|
            f0.ebb_in_layout(e) && 0 <= j < keep_ops(f0, f0.ops_of(e)).len()
            implies surviving_rewritten(
            f0,
            *fun,
            #[trigger] keep_ops(f0, f0.ops_of(e))[j],
        ) by {
            let o = keep_ops(f0, f0.ops_of(e))[j];
            lemma_keep_ops_sub(f0, f0.ops_of(e), j);
            f0.lemma_op_in_arena(e, o);
            assert(f1.ebb_in_layout(e)) by {
                let i = choose|i: int|
                    0 <= i < f0.ebb_seq_s().len() && #[trigger] f0.ebb_seq_s()[i] == e;
                assert(f1.ebb_seq_s()[i] == e);
            }
            assert(f1.ops_of(e) =~= keep_ops(f0, f0.ops_of(e))) by {
                let i = choose|i: int|
                    0 <= i < f0.ebb_seq_s().len() && #[trigger] f0.ebb_seq_s()[i] == e;
                assert(f1.ops_of(f0.ebb_seq_s()[i]) =~= keep_ops(
                    f0,
                    f0.ops_of(f0.ebb_seq_s()[i]),
                ));
            }
            assert(f1.ops_of(e)[j] == o);
            assert(op_rewritten(f1, *fun, o, alias@, fuel as nat));
            assert(f1.op_kind_s(o) == f0.op_kind_s(o));
            assert(f1.op_writes_s(o) == f0.op_writes_s(o));
            assert(f1.op_branches_s(o) == f0.op_branches_s(o));
            assert(f1.op_reads_s(o) == f0.op_reads_s(o));
            assert(alias@ == alias_map(f0));
            assert(fuel as nat == rewrite_fuel(f0)) by {
                assert(f1.num_ops() == f0.num_ops());
            }
            assert(fun.op_reads_s(o) =~= f0.op_reads_s(o).map_values(
                |v: Value| rewritten(f0, v),
            )) by {
                let a = fun.op_reads_s(o);
                let b = f0.op_reads_s(o).map_values(|v: Value| rewritten(f0, v));
                let c = f1.op_reads_s(o).map_values(|v: Value| chase(alias@, v, fuel as nat));
                assert(a == c);
                assert forall|k: int| 0 <= k < b.len() implies a[k] == b[k] by {
                    assert(c[k] == chase(alias@, f1.op_reads_s(o)[k], fuel as nat));
                    assert(b[k] == rewritten(f0, f0.op_reads_s(o)[k]));
                }
            }
        }
    }
}

} // verus!
