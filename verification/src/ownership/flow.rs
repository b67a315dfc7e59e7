//! What the walk over statements does, as relations between the pass
//! state before and after a statement: exact for straight-line statements
//! (see [`sv_stmt`]); for `if` and loops exact up to the order in which
//! the joins visit the entry bindings and the gated frees visit the owners
//! (both unordered tables), which a run fixes and the relation leaves
//! open.
use vstd::prelude::*;
use crate::tir::{Tir, TirRef, TirTag, Extra, IfStmtView, opt_stmts};
use crate::types::{InternPool, StringId};
use crate::vecmap::{entries_map, keys_unique};
use crate::diag::DiagView;
use crate::ownership::lattice::{
    Ownership, Owner, OwnerState, Tables, join_states, loop_override, loop_pending, union_first,
    spec_states_differ, moved_in, owner_seq_sorted, names_sorted,
};
use crate::ownership::sidecar::{BranchId, FreePoint, FunctionSidecar, IfBranchIds, arm_ids};
use crate::ownership::gated::{arm_count, consecutive_from, arm_key, frees_for_keys};
use crate::ownership::semantics::{sv_stmt, sv_expr};

verus! {

/// The walk's view of the pass state: lattice tables, diagnostics, free
/// schedule, reassignment frees, `if` arm ids.
pub type WalkState = (Tables, Seq<DiagView>, Seq<FreePoint>, Map<TirRef, TirRef>, Map<TirRef, IfBranchIds>);

/// The walk's view of a lattice, diagnostics and sidecar.
pub open spec fn walk_state(own: Ownership, d: Seq<DiagView>, sc: FunctionSidecar) -> WalkState {
    (own.tables(), d, sc.free_schedule@, sc.free_on_reassign@, sc.if_branches@)
}

/// `a` with its lattice tables replaced by `t`.
pub open spec fn with_tables(a: WalkState, t: Tables) -> WalkState {
    (t, a.1, a.2, a.3, a.4)
}

/// The tables `t` with the per-arm tables (states, bindings, pending
/// stores) rewound to those of `snap`.
pub open spec fn rewound(t: Tables, snap: Tables) -> Tables {
    Tables { states: snap.states, current_owner: snap.current_owner, pending: snap.pending, ..t }
}

/// The last statement of `s`, if any.
pub open spec fn last_of(s: Seq<TirRef>) -> Option<TirRef> {
    if s.len() == 0 {
        None
    } else {
        Some(s.last())
    }
}

/// How a walk went through nested statements: the states between the
/// statements of a block and how each statement went; for an `if`, what
/// it handed its scheduler and join, and how each arm's block went.
pub enum WalkTree {
    Leaf,
    Block(Seq<WalkState>, Seq<WalkTree>),
    If(IfWitness, Seq<WalkTree>),
    /// A loop body: the order of the entry bindings, the end of the first
    /// pass, the end of the second one, and how each pass went.
    Loop(Seq<(StringId, Owner)>, WalkState, WalkState, Seq<WalkTree>),
}

/// Statement `r` takes the walk from `a` to `b`, going as `t` says.
pub open spec fn stmt_rel(tir: Tir, pool: InternPool, a: WalkState, b: WalkState, r: TirRef, t: WalkTree) -> bool
    decreases r.0, 4nat, 0int,
{
    match sv_stmt(tir, pool, a.0, a.1, a.3, r) {
        Some(x) => b == (x.0, x.1, a.2, x.2, a.4),
        None => match tir.spec_inst(r).tag {
            TirTag::IfStmt => match t {
                WalkTree::If(w, arms) => if_witness(tir, pool, a, b, r, w, arms),
                _ => false,
            },
            TirTag::WhileLoop => match tir.spec_extra(r) {
                Extra::WhileLoop(v) => {
                    let c = sv_expr(tir, pool, a.0, a.1, v.cond);
                    loop_rel(tir, pool, (c.0, c.1, a.2, a.3, a.4), b, r, v.body@, t)
                },
                _ => false,
            },
            TirTag::ForRange => match tir.spec_extra(r) {
                Extra::ForRange(v) => {
                    let c = sv_expr(tir, pool, a.0, a.1, v.start);
                    let e = sv_expr(tir, pool, c.0, c.1, v.end);
                    loop_rel(tir, pool, (e.0, e.1, a.2, a.3, a.4), b, r, v.body@, t)
                },
                _ => false,
            },
            _ => false,
        },
    }
}

/// The tables after a loop back-edge: the post-body tables `after` with
/// the entry tables `snap` merged in (any-moved-wins over the states,
/// binding-aware over the entry bindings in `order`, first-wins over the
/// bindings, pending stores still pending after the body).
pub open spec fn loop_merge(snap: Tables, after: Tables, order: Seq<(StringId, Owner)>) -> Tables {
    Tables {
        states: loop_override(join_states(snap.states, after.states), order, snap.states, after.states, after.current_owner),
        current_owner: union_first(snap.current_owner, after.current_owner),
        pending: loop_pending(snap.pending, after.pending),
        ..after
    }
}

/// A loop body `body` under `parent`, from `a` to `b`: walked once with
/// its diagnostics and sidecar output set aside; when some owner changed
/// moved-ness across the back-edge, that output is dropped and the body is
/// walked again, diagnosing, from the entry merged with the first pass
/// (and the entry's sidecar), then merged with the entry again; otherwise
/// the first pass's diagnostics and sidecar output are added to the
/// entry's and its end is merged with the entry. `order` is the order of
/// the entry bindings.
pub open spec fn loop_rel(
    tir: Tir,
    pool: InternPool,
    a: WalkState,
    b: WalkState,
    parent: TirRef,
    body: Seq<TirRef>,
    t: WalkTree,
) -> bool
    decreases parent.0, 3nat, 0int,
{
    match t {
        WalkTree::Loop(order, p1, p2, passes) => {
            let t0 = a.0;
            &&& names_sorted(order)
            &&& entries_map(order) == t0.current_owner
            &&& passes.len() == 2
            &&& block_rel(tir, pool, (t0, Seq::empty(), Seq::empty(), Map::empty(), Map::empty()), p1, parent, body, passes[0])
            &&& if spec_states_differ(t0.states, p1.0.states) {
                &&& block_rel(tir, pool, (loop_merge(t0, p1.0, order), a.1, a.2, a.3, a.4), p2, parent, body, passes[1])
                &&& b == (loop_merge(t0, p2.0, order), p2.1, p2.2, p2.3, p2.4)
            } else {
                b == (
                    loop_merge(t0, p1.0, order),
                    a.1 + p1.1,
                    a.2 + p1.2,
                    a.3.union_prefer_right(p1.3),
                    a.4.union_prefer_right(p1.4),
                )
            }
        },
        _ => false,
    }
}

/// The first `k` statements of `stmts` (nested under `parent`) take the
/// walk along `tr`.
pub open spec fn block_steps(
    tir: Tir,
    pool: InternPool,
    tr: Seq<WalkState>,
    subs: Seq<WalkTree>,
    parent: TirRef,
    stmts: Seq<TirRef>,
    k: int,
) -> bool
    decreases parent.0, 0nat, k,
{
    if k <= 0 {
        true
    } else {
        block_steps(tir, pool, tr, subs, parent, stmts, k - 1) && stmts[k - 1].0 < parent.0 && stmt_rel(
            tir,
            pool,
            tr[k - 1],
            tr[k],
            stmts[k - 1],
            subs[k - 1],
        )
    }
}

/// The statements `stmts` (nested under `parent`) take the walk from `a`
/// to `b`, one after the other, going as `t` says.
pub open spec fn block_rel(
    tir: Tir,
    pool: InternPool,
    a: WalkState,
    b: WalkState,
    parent: TirRef,
    stmts: Seq<TirRef>,
    t: WalkTree,
) -> bool
    decreases parent.0, 0nat, stmts.len() + 1,
{
    match t {
        WalkTree::Block(tr, subs) => {
            &&& tr.len() == stmts.len() + 1
            &&& subs.len() == stmts.len()
            &&& tr[0] == a
            &&& tr.last() == b
            &&& block_steps(tir, pool, tr, subs, parent, stmts, stmts.len() as int)
        },
        _ => false,
    }
}

/// One arm of an `if` under `parent`: rewind to the snapshot `snap`, walk
/// the arm's condition if any, then its statements.
pub open spec fn arm_step(
    tir: Tir,
    pool: InternPool,
    a: WalkState,
    b: WalkState,
    snap: Tables,
    cond: Option<TirRef>,
    parent: TirRef,
    stmts: Seq<TirRef>,
    t: WalkTree,
) -> bool
    decreases parent.0, 0nat, stmts.len() + 2,
{
    let rw = rewound(a.0, snap);
    let start = match cond {
        Some(c) => {
            let e = sv_expr(tir, pool, rw, a.1, c);
            (e.0, e.1, a.2, a.3, a.4)
        },
        None => with_tables(a, rw),
    };
    block_rel(tir, pool, start, b, parent, stmts, t)
}

/// Condition and statements of arm `j` of `if` view `v` (then, elifs,
/// else).
pub open spec fn arm_cond(v: IfStmtView, j: int) -> Option<TirRef> {
    if 1 <= j <= v.elif_branches@.len() {
        Some(v.elif_branches@[j - 1].cond)
    } else {
        None
    }
}

pub open spec fn arm_stmts(v: IfStmtView, j: int) -> Seq<TirRef> {
    if j == 0 {
        v.then_stmts@
    } else if j <= v.elif_branches@.len() {
        v.elif_branches@[j - 1].body@
    } else {
        opt_stmts(v.else_stmts)
    }
}

/// The first `k` arms of `if` `r` take the walk along `trace`.
pub open spec fn arms_rel(
    tir: Tir,
    pool: InternPool,
    trace: Seq<WalkState>,
    arms: Seq<WalkTree>,
    snap: Tables,
    v: IfStmtView,
    r: TirRef,
    k: int,
) -> bool
    decreases r.0, 1nat, k,
{
    if k <= 0 {
        true
    } else {
        arms_rel(tir, pool, trace, arms, snap, v, r, k - 1) && arm_step(
            tir,
            pool,
            trace[k - 1],
            trace[k],
            snap,
            arm_cond(v, k - 1),
            r,
            arm_stmts(v, k - 1),
            arms[k - 1],
        )
    }
}

/// What the `if` hands its scheduler and join: arm ids, the walk through
/// the arms, the arm end states (and the fall-through state when there is
/// no `else`), the state the join starts from, the order of the gated
/// owners, the arms' last statements, the arm ids in arm order.
pub type IfWitness = (
    IfBranchIds,
    Seq<WalkState>,
    Seq<Ownership>,
    Ownership,
    Seq<Owner>,
    Seq<Option<TirRef>>,
    Seq<BranchId>,
);

/// `if` `r`: walk the condition; hand out consecutive fresh ids for the
/// arms; walk each arm from the post-condition lattice; schedule the frees
/// gated on the arms that keep an owner another arm moves; join the arm
/// states (with the fall-through state when there is no `else`).
pub open spec fn if_witness(
    tir: Tir,
    pool: InternPool,
    a: WalkState,
    b: WalkState,
    r: TirRef,
    w: IfWitness,
    arms: Seq<WalkTree>,
) -> bool
    decreases r.0, 2nat, 0int,
{
    match tir.spec_extra(r) {
        Extra::IfStmt(v) => {
            let (ids, trace, res, m, keys, lasts, idseq) = w;
            let c = sv_expr(tir, pool, a.0, a.1, v.cond);
            let n_elif = v.elif_branches@.len();
            let has_else = v.else_stmts is Some;
            let n = arm_count(n_elif, has_else) as int;
            let base = c.0.next_branch_id;
            let t1 = Tables { next_branch_id: (base + n) as u32, ..c.0 };
            let last = trace.last();
            let fall = rewound(last.0, t1);
            let mg = m.spec_merged(m.current_owner.seq(), res);
            &&& ids.elif_branches@.len() == n_elif
            &&& (ids.else_branch is Some) == has_else
            &&& arm_ids(ids).len() == n
            &&& consecutive_from(arm_ids(ids), base as int)
            &&& trace.len() == n + 1
            &&& trace[0] == (t1, c.1, a.2, a.3, a.4.insert(r, ids))
            &&& arms.len() == n
            &&& arms_rel(tir, pool, trace, arms, t1, v, r, n)
            &&& res.len() == (if has_else {
                n
            } else {
                n + 1
            })
            &&& forall|k: int| #![trigger res[k]] 0 <= k < n ==> res[k].wf() && res[k].tables() == trace[k + 1].0
            &&& !has_else ==> res[n].wf() && res[n].tables() == fall
            &&& lasts.len() == n
            &&& forall|k: int| #![trigger lasts[k]] 0 <= k < n ==> lasts[k] == last_of(arm_stmts(v, k))
            &&& idseq.len() == n
            &&& forall|k: int| #![trigger idseq[k]] 0 <= k < n ==> idseq[k].0 == arm_ids(ids)[k]
            &&& keys.no_duplicates()
            &&& owner_seq_sorted(keys)
            &&& forall|o: Owner| #[trigger] keys.contains(o) <==> arm_key(res, n, o)
            &&& m.wf()
            &&& names_sorted(m.current_owner.seq())
            &&& m.tables() == fall
            &&& b == (
                Tables {
                    states: mg.0,
                    current_owner: mg.1,
                    origin: mg.2,
                    temps: mg.3,
                    reads: mg.4,
                    pending: mg.5,
                    next_branch_id: mg.6,
                    inout: fall.inout,
                },
                last.1,
                last.2 + frees_for_keys(tir, res, idseq, lasts, keys),
                last.3,
                last.4,
            )
        },
        _ => false,
    }
}

/// Extending a block trace keeps the steps already taken.
pub proof fn lemma_block_steps_ext(
    tir: Tir,
    pool: InternPool,
    tr0: Seq<WalkState>,
    subs0: Seq<WalkTree>,
    tr1: Seq<WalkState>,
    subs1: Seq<WalkTree>,
    parent: TirRef,
    stmts: Seq<TirRef>,
    k: int,
)
    requires
        block_steps(tir, pool, tr0, subs0, parent, stmts, k),
        0 <= k,
        k < tr0.len(),
        k < tr1.len(),
        k <= subs0.len(),
        k <= subs1.len(),
        forall|j: int| 0 <= j <= k ==> tr1[j] == tr0[j],
        forall|j: int| 0 <= j < k ==> subs1[j] == subs0[j],
    ensures
        block_steps(tir, pool, tr1, subs1, parent, stmts, k),
    decreases k,
{
    if k > 0 {
        lemma_block_steps_ext(tir, pool, tr0, subs0, tr1, subs1, parent, stmts, k - 1);
        assert(tr1[k - 1] == tr0[k - 1] && tr1[k] == tr0[k] && subs1[k - 1] == subs0[k - 1]);
    }
}

/// Extending an arm trace keeps the arms already walked.
pub proof fn lemma_arms_rel_ext(
    tir: Tir,
    pool: InternPool,
    t0: Seq<WalkState>,
    a0: Seq<WalkTree>,
    t1: Seq<WalkState>,
    a1: Seq<WalkTree>,
    snap: Tables,
    v: IfStmtView,
    r: TirRef,
    k: int,
)
    requires
        arms_rel(tir, pool, t0, a0, snap, v, r, k),
        0 <= k,
        k < t0.len(),
        k < t1.len(),
        k <= a0.len(),
        k <= a1.len(),
        forall|j: int| 0 <= j <= k ==> t1[j] == t0[j],
        forall|j: int| 0 <= j < k ==> a1[j] == a0[j],
    ensures
        arms_rel(tir, pool, t1, a1, snap, v, r, k),
    decreases k,
{
    if k > 0 {
        lemma_arms_rel_ext(tir, pool, t0, a0, t1, a1, snap, v, r, k - 1);
        assert(t1[k - 1] == t0[k - 1] && t1[k] == t0[k] && a1[k - 1] == a0[k - 1]);
    }
}

/// The binding-aware override only writes the entry owners of the
/// bindings it visits.
proof fn lemma_loop_override_other(
    states: Map<Owner, OwnerState>,
    pre: Seq<(StringId, Owner)>,
    snap_states: Map<Owner, OwnerState>,
    after_states: Map<Owner, OwnerState>,
    after_co: Map<StringId, Owner>,
    k: Owner,
)
    requires
        forall|i: int| 0 <= i < pre.len() ==> (#[trigger] pre[i]).1 != k,
    ensures
        loop_override(states, pre, snap_states, after_states, after_co).contains_key(k) == states.contains_key(k),
        states.contains_key(k) ==> loop_override(states, pre, snap_states, after_states, after_co)[k] == states[k],
    decreases pre.len(),
{
    if pre.len() > 0 {
        assert forall|i: int| 0 <= i < pre.drop_last().len() implies (#[trigger] pre.drop_last()[i]).1 != k by {
            assert(pre.drop_last()[i] == pre[i]);
        }
        lemma_loop_override_other(states, pre.drop_last(), snap_states, after_states, after_co, k);
        assert(pre.last() == pre[pre.len() - 1]);
    }
}

/// Moves survive the loop back-edge: an owner moved at the end of the
/// body is still moved after the merge with the entry state, unless it is
/// the entry owner of a binding (whose merged state follows the value the
/// binding holds at the end of the body).
pub proof fn lemma_loop_merge_keeps_moves(snap: Tables, after: Tables, order: Seq<(StringId, Owner)>, k: Owner)
    requires
        moved_in(after.states, k),
        forall|i: int| 0 <= i < order.len() ==> (#[trigger] order[i]).1 != k,
    ensures
        moved_in(loop_merge(snap, after, order).states, k),
{
    let j = join_states(snap.states, after.states);
    assert(moved_in(j, k));
    lemma_loop_override_other(j, order, snap.states, after.states, after.current_owner, k);
}

} // verus!
