//! Forward walk over statements: declarations and assignments consume
//! their value and rebind the name, returns consume their operand, `if`
//! arms are walked from a common snapshot and joined, and loop bodies run
//! to a two-pass fixed point.
use vstd::prelude::*;
use crate::types::{InternPool, StringId};
use crate::tir::{Tir, TirRef, TirTag, TirData, Extra, ElifArm, IfStmtView, opt_stmts, refs_below, payload_below, spec_param_ref, PARAM_BASE};
use crate::diag::{DiagSink, DiagView};
use crate::vecmap::VecMap;
use crate::ownership::lattice::{
    Ownership, Owner, OwnerState, PendingStore, merge_non_monotone, states_differ_snapshot,
    max_branch_id, join_states, sort_by_name, names_sorted,
};
use crate::ownership::owners::{
    own_ok, names_ok, states_ok, co_ok, pending_ok, needs_tracking, consume_underlying,
    consume_for_assignment, consumed_binding_name, rebind_to_init, register_pending_dead_store,
    BorrowedAction, lemma_param_pos,
};
use crate::ownership::sidecar::{BranchId, FreePoint, FunctionSidecar, IfBranchIds, arm_ids, lemma_record_fresh_ids, lemma_fresh_insert, fresh_ids, lemma_fresh_ids_trans, lemma_union_ids_ok,
    gated_ok, entries_kept, lemma_gated_ok_mono, lemma_gated_ok_concat, recorded};
use crate::ownership::gated::{lemma_frees_for_keys_gated, alloc_branch_ids, arm_count, consecutive_from, schedule_gated_frees, arm_key, frees_for_keys};
use crate::ownership::visit::{visit_expr, diag_prefix, visit_post, lemma_underlying_ok, lemma_var_name};
use crate::ownership::semantics::{sv_var_decl, sv_assign, sv_return, sv_expr};
use crate::ownership::flow::{
    WalkState, WalkTree, walk_state, block_rel, block_steps, stmt_rel, if_witness, arm_step,
    arms_rel, rewound, arm_cond, arm_stmts, last_of, IfWitness, lemma_block_steps_ext,
    lemma_arms_rel_ext, loop_rel, loop_merge,
};
use crate::ownership::lattice::Tables;
use crate::ownership::walk::{reach, lemma_reach_below};
use crate::ownership::frees::{reach_seq, lemma_if_reach, lemma_loop_reach};
use crate::ownership::owners::lemma_consumed_tables;
use crate::ownership::preserve::{
    all_own_ok, lemma_merged_ok, lemma_join_states_ok, lemma_loop_override_ok, lemma_pre_ok_of,
};

verus! {

// ---------- Branch-id budget ----------

/// Upper bound on the branch ids that walking statement `r` allocates:
/// an `if` takes one id per arm; a loop body may be walked twice.
pub open spec fn need_stmt(tir: Tir, r: TirRef) -> nat
    decreases r.0, 2nat, 0nat,
{
    match tir.spec_inst(r).tag {
        TirTag::IfStmt => match tir.spec_extra(r) {
            Extra::IfStmt(v) => 2 + v.elif_branches@.len() + need_list(tir, r, v.then_stmts@)
                + need_arms(tir, r, v.elif_branches@) + need_list(
                tir,
                r,
                opt_stmts(v.else_stmts),
            ),
            _ => 0,
        },
        TirTag::WhileLoop => match tir.spec_extra(r) {
            Extra::WhileLoop(v) => 2 * need_list(tir, r, v.body@),
            _ => 0,
        },
        TirTag::ForRange => match tir.spec_extra(r) {
            Extra::ForRange(v) => 2 * need_list(tir, r, v.body@),
            _ => 0,
        },
        _ => 0,
    }
}

pub open spec fn need_list(tir: Tir, parent: TirRef, s: Seq<TirRef>) -> nat
    decreases parent.0, 0nat, s.len(),
{
    if s.len() == 0 {
        0
    } else {
        need_list(tir, parent, s.drop_last()) + if s.last().0 < parent.0 {
            need_stmt(tir, s.last())
        } else {
            0
        }
    }
}

pub open spec fn need_arms(tir: Tir, parent: TirRef, arms: Seq<ElifArm>) -> nat
    decreases parent.0, 1nat, arms.len(),
{
    if arms.len() == 0 {
        0
    } else {
        need_arms(tir, parent, arms.drop_last()) + need_list(tir, parent, arms.last().body@)
    }
}

/// Virtual parent of a function's top-level statements.
pub open spec fn root_ref() -> TirRef {
    TirRef(PARAM_BASE)
}

// ---------- Sidecar consistency ----------

/// A free target is an instruction or a parameter of `tir`.
pub open spec fn target_ok(tir: Tir, t: TirRef) -> bool {
    tir.valid_ref(t) || exists|i: int| 0 <= i < tir.params@.len() && t == spec_param_ref(i)
}

pub open spec fn fp_ok(tir: Tir, fp: FreePoint) -> bool {
    tir.valid_ref(fp.after) && target_ok(tir, fp.target)
}

/// The sidecar only refers to instructions and parameters of `tir`.
pub open spec fn sc_ok(tir: Tir, sc: FunctionSidecar) -> bool {
    &&& sc.wf()
    &&& forall|i: int| 0 <= i < sc.free_schedule@.len() ==> fp_ok(tir, #[trigger] sc.free_schedule@[i])
    &&& forall|k: TirRef| #[trigger] sc.free_on_reassign@.contains_key(k) ==> tir.valid_ref(k) && target_ok(tir, sc.free_on_reassign@[k])
}

pub open spec fn fs_prefix(a: Seq<FreePoint>, b: Seq<FreePoint>) -> bool {
    a.len() <= b.len() && forall|i: int| 0 <= i < a.len() ==> #[trigger] b[i] == a[i]
}

/// Precondition of a statement walk with branch-id budget `budget`.
pub open spec fn stmt_pre(tir: Tir, pool: InternPool, own: Ownership, sc: FunctionSidecar, budget: nat) -> bool {
    &&& tir.wf()
    &&& names_ok(tir, pool)
    &&& own_ok(own, tir)
    &&& sc_ok(tir, sc)
    &&& sc.branch_ids_ok(own.next_branch_id)
    &&& own.next_branch_id + budget <= u32::MAX
}

/// What a statement walk keeps.
pub open spec fn stmt_post(
    tir: Tir,
    own0: Ownership,
    own1: Ownership,
    sc0: FunctionSidecar,
    sc1: FunctionSidecar,
    d0: Seq<DiagView>,
    d1: Seq<DiagView>,
    budget: nat,
    bound: int,
) -> bool {
    &&& own_ok(own1, tir)
    &&& diag_prefix(d0, d1)
    &&& sc_ok(tir, sc1)
    &&& sc1.name == sc0.name
    &&& fs_prefix(sc0.free_schedule@, sc1.free_schedule@)
    &&& own0.next_branch_id <= own1.next_branch_id
    &&& own1.next_branch_id <= own0.next_branch_id + budget
    &&& own1.inout_str_params@ == own0.inout_str_params@
    &&& sc1.branch_ids_ok(own1.next_branch_id)
    &&& if_frame(sc0.if_branches@, sc1.if_branches@, bound)
    &&& fresh_ids(sc0.if_branches@, sc1.if_branches@, own0.next_branch_id)
}

// ---------- Tree shape ----------

/// `a` and `b` reach no common instruction.
pub open spec fn reach_disjoint(tir: Tir, a: TirRef, b: TirRef) -> bool {
    forall|x: TirRef| #[trigger] reach(tir, a).contains(x) ==> !reach(tir, b).contains(x)
}

/// Distinct statements of `s` reach disjoint parts of the IR.
pub open spec fn list_disjoint(tir: Tir, s: Seq<TirRef>) -> bool {
    forall|i: int, j: int| 0 <= i < s.len() && 0 <= j < s.len() && i != j ==> reach_disjoint(tir, #[trigger] s[i], #[trigger] s[j])
}

/// Distinct statements of the arms of `v` reach disjoint parts of the IR.
pub open spec fn arms_disjoint(tir: Tir, v: IfStmtView) -> bool {
    forall|a: int, i: int, b: int, j: int|
        0 <= a <= v.elif_branches@.len() + 1 && 0 <= b <= v.elif_branches@.len() + 1 && 0 <= i < arm_stmts(v, a).len() && 0
            <= j < arm_stmts(v, b).len() && (a != b || i != j) ==> reach_disjoint(tir, #[trigger] arm_stmts(v, a)[i], #[trigger] arm_stmts(v, b)[j])
}

/// The IR is a tree as far as the walk can tell: the statements of the
/// function body, of a loop body, and of all the arms of an `if` reach
/// pairwise disjoint parts of it, so no statement is walked from two places.
pub open spec fn tree_shaped(tir: Tir) -> bool {
    &&& list_disjoint(tir, tir.body@)
    &&& forall|r: TirRef|
        #![trigger tir.spec_extra(r)]
        tir.valid_ref(r) && tir.spec_inst(r).data is Extra ==> match tir.spec_extra(r) {
            Extra::IfStmt(v) => arms_disjoint(tir, v),
            Extra::WhileLoop(v) => list_disjoint(tir, v.body@),
            Extra::ForRange(v) => list_disjoint(tir, v.body@),
            _ => true,
        }
}

/// No key of `m` lies in `s`.
pub open spec fn keys_outside(m: Map<TirRef, IfBranchIds>, s: Set<TirRef>) -> bool {
    forall|k: TirRef| #[trigger] m.contains_key(k) ==> !s.contains(k)
}

/// `m1` keeps the entries of `m0` and adds keys only from `s`.
pub open spec fn keys_within(m0: Map<TirRef, IfBranchIds>, m1: Map<TirRef, IfBranchIds>, s: Set<TirRef>) -> bool {
    &&& entries_kept(m0, m1)
    &&& forall|k: TirRef| #[trigger] m1.contains_key(k) ==> m0.contains_key(k) || s.contains(k)
}

/// Before walking the part `s` of a tree-shaped IR: no `if` of `s` is
/// recorded yet, and every gated free is recorded.
pub open spec fn tree_pre(tir: Tir, sc: FunctionSidecar, s: Set<TirRef>) -> bool {
    tree_shaped(tir) ==> keys_outside(sc.if_branches@, s) && gated_ok(sc.free_schedule@, sc.if_branches@)
}

/// After walking the part `s` of a tree-shaped IR: earlier entries are
/// kept, new ones belong to `s`, and every gated free is recorded.
pub open spec fn tree_post(tir: Tir, sc0: FunctionSidecar, sc1: FunctionSidecar, s: Set<TirRef>) -> bool {
    tree_shaped(tir) ==> keys_within(sc0.if_branches@, sc1.if_branches@, s) && gated_ok(sc1.free_schedule@, sc1.if_branches@)
}

/// No key of `m` lies in the part of the IR that any of `stmts[lo..]` reaches.
pub open spec fn keys_clear_from(tir: Tir, m: Map<TirRef, IfBranchIds>, stmts: Seq<TirRef>, lo: int) -> bool {
    forall|k: TirRef, j: int|
        #![trigger m.contains_key(k), stmts[j]]
        m.contains_key(k) && lo <= j < stmts.len() ==> !reach(tir, stmts[j]).contains(k)
}

proof fn lemma_keys_clear_start(tir: Tir, m: Map<TirRef, IfBranchIds>, stmts: Seq<TirRef>)
    requires
        keys_outside(m, reach_seq(tir, stmts)),
    ensures
        keys_clear_from(tir, m, stmts, 0),
{
    assert forall|k: TirRef, j: int| #[trigger] m.contains_key(k) && 0 <= j < stmts.len() implies !reach(tir, #[trigger] stmts[j]).contains(k) by {
        if reach(tir, stmts[j]).contains(k) {
            assert(reach_seq(tir, stmts).contains(k));
        }
    }
}

proof fn lemma_keys_within_trans(
    m0: Map<TirRef, IfBranchIds>,
    m1: Map<TirRef, IfBranchIds>,
    m2: Map<TirRef, IfBranchIds>,
    a: Set<TirRef>,
    b: Set<TirRef>,
    c: Set<TirRef>,
)
    requires
        keys_within(m0, m1, a),
        keys_within(m1, m2, b),
        a.subset_of(c),
        b.subset_of(c),
    ensures
        keys_within(m0, m2, c),
{
    assert forall|k: TirRef| #[trigger] m0.contains_key(k) implies m2.contains_key(k) && m2[k] == m0[k] by {
        assert(m1.contains_key(k));
    }
    assert forall|k: TirRef| #[trigger] m2.contains_key(k) implies m0.contains_key(k) || c.contains(k) by {
        if m1.contains_key(k) {
        }
    }
}

/// One statement of a block walked: its new keys join the walked part.
proof fn lemma_block_step_keys(
    tir: Tir,
    stmts: Seq<TirRef>,
    i: int,
    m0: Map<TirRef, IfBranchIds>,
    m: Map<TirRef, IfBranchIds>,
    m1: Map<TirRef, IfBranchIds>,
)
    requires
        0 <= i < stmts.len(),
        list_disjoint(tir, stmts),
        keys_within(m0, m, reach_seq(tir, stmts.take(i))),
        keys_within(m, m1, reach(tir, stmts[i])),
        keys_clear_from(tir, m, stmts, i),
    ensures
        keys_within(m0, m1, reach_seq(tir, stmts.take(i + 1))),
        keys_clear_from(tir, m1, stmts, i + 1),
{
    let t0 = stmts.take(i);
    let t1 = stmts.take(i + 1);
    assert(t1[i] == stmts[i]);
    assert forall|x: TirRef| reach_seq(tir, t0).contains(x) implies #[trigger] reach_seq(tir, t1).contains(x) by {
        let jj = choose|jj: int| 0 <= jj < t0.len() && #[trigger] reach(tir, t0[jj]).contains(x);
        assert(t1[jj] == t0[jj]);
    }
    assert forall|x: TirRef| reach(tir, stmts[i]).contains(x) implies #[trigger] reach_seq(tir, t1).contains(x) by {
        assert(reach(tir, t1[i]).contains(x));
    }
    lemma_keys_within_trans(m0, m, m1, reach_seq(tir, t0), reach(tir, stmts[i]), reach_seq(tir, t1));
    assert forall|k: TirRef, j: int| #[trigger] m1.contains_key(k) && i + 1 <= j < stmts.len() implies !reach(tir, #[trigger] stmts[j]).contains(k) by {
        if !m.contains_key(k) {
            assert(reach(tir, stmts[i]).contains(k));
            assert(reach_disjoint(tir, stmts[i], stmts[j]));
        } else {
            assert(m.contains_key(k) && i <= j < stmts.len());
        }
    }
}

/// Instructions reached by the statements of the first `n` arms of `v`.
pub open spec fn arms_reach(tir: Tir, v: IfStmtView, n: int) -> Set<TirRef> {
    Set::new(
        |x: TirRef|
            exists|a: int, i: int|
                0 <= a < n && 0 <= i < arm_stmts(v, a).len() && #[trigger] reach(tir, arm_stmts(v, a)[i]).contains(x),
    )
}

/// The `if` keys before arm `a` of `if` `r`: the entry keys, `r` itself,
/// and keys of the arms walked so far.
pub open spec fn arm_keys_ok(
    tir: Tir,
    v: IfStmtView,
    r: TirRef,
    m0: Map<TirRef, IfBranchIds>,
    m: Map<TirRef, IfBranchIds>,
    a: int,
) -> bool {
    &&& entries_kept(m0, m)
    &&& forall|k: TirRef| #[trigger] m.contains_key(k) ==> m0.contains_key(k) || k == r || arms_reach(tir, v, a).contains(k)
}

/// The statements of every arm of `if` `r` reach only inside `r`, and
/// never `r` itself.
proof fn lemma_arm_inside(tir: Tir, v: IfStmtView, r: TirRef, a: int, x: TirRef)
    requires
        tir.wf(),
        tir.valid_ref(r),
        tir.spec_inst(r).tag == TirTag::IfStmt,
        tir.spec_extra(r) == Extra::IfStmt(v),
        0 <= a <= v.elif_branches@.len() + 1,
        reach_seq(tir, arm_stmts(v, a)).contains(x),
    ensures
        reach(tir, r).contains(x),
        x != r,
{
    lemma_if_reach(tir, r, v);
    tir.lemma_payload_below(r);
    let s = arm_stmts(v, a);
    let i = choose|i: int| 0 <= i < s.len() && #[trigger] reach(tir, s[i]).contains(x);
    lemma_reach_below(tir, s[i], x);
    if a == 0 {
        assert(s[i].0 < r.0);
    } else if a <= v.elif_branches@.len() {
        assert(v.elif_branches@[a - 1].cond.0 < r.0 && refs_below(v.elif_branches@[a - 1].body@, r.0 as int));
        assert(s[i].0 < r.0);
        assert(reach_seq(tir, v.elif_branches@[a - 1].body@).subset_of(reach(tir, r)));
    } else {
        assert(s[i].0 < r.0);
    }
}

/// Before arm `a`, no recorded `if` lies in the part the arm reaches.
proof fn lemma_arm_keys_pre(
    tir: Tir,
    v: IfStmtView,
    r: TirRef,
    m0: Map<TirRef, IfBranchIds>,
    m: Map<TirRef, IfBranchIds>,
    a: int,
)
    requires
        tir.wf(),
        tir.valid_ref(r),
        tir.spec_inst(r).tag == TirTag::IfStmt,
        tir.spec_extra(r) == Extra::IfStmt(v),
        arms_disjoint(tir, v),
        0 <= a <= v.elif_branches@.len() + 1,
        keys_outside(m0, reach(tir, r)),
        arm_keys_ok(tir, v, r, m0, m, a),
    ensures
        keys_outside(m, reach_seq(tir, arm_stmts(v, a))),
{
    assert forall|k: TirRef| #[trigger] m.contains_key(k) implies !reach_seq(tir, arm_stmts(v, a)).contains(k) by {
        if reach_seq(tir, arm_stmts(v, a)).contains(k) {
            lemma_arm_inside(tir, v, r, a, k);
            if !m0.contains_key(k) && k != r {
                let (a2, i2) = choose|a2: int, i2: int|
                    0 <= a2 < a && 0 <= i2 < arm_stmts(v, a2).len() && #[trigger] reach(tir, arm_stmts(v, a2)[i2]).contains(k);
                let i = choose|i: int| 0 <= i < arm_stmts(v, a).len() && #[trigger] reach(tir, arm_stmts(v, a)[i]).contains(k);
                assert(reach_disjoint(tir, arm_stmts(v, a2)[i2], arm_stmts(v, a)[i]));
            }
        }
    }
}

proof fn lemma_arm_list_disjoint(tir: Tir, v: IfStmtView, a: int)
    requires
        arms_disjoint(tir, v),
        0 <= a <= v.elif_branches@.len() + 1,
    ensures
        list_disjoint(tir, arm_stmts(v, a)),
{
    assert forall|i: int, j: int| 0 <= i < arm_stmts(v, a).len() && 0 <= j < arm_stmts(v, a).len() && i != j implies reach_disjoint(tir, #[trigger] arm_stmts(v, a)[i], #[trigger] arm_stmts(v, a)[j]) by {
    }
}

/// Consecutive arm ids from `base`: `then` gets `base`, the `k`-th elif
/// `base + 1 + k`, and `else` the id after the last elif.
proof fn lemma_arm_id_fields(b: IfBranchIds, base: int, n_elif: int, has_else: bool)
    requires
        b.elif_branches@.len() == n_elif,
        (b.else_branch is Some) == has_else,
        consecutive_from(arm_ids(b), base),
    ensures
        b.then_branch.0 == base,
        forall|k: int| 0 <= k < n_elif ==> (#[trigger] b.elif_branches@[k]).0 == base + 1 + k,
        b.else_branch matches Some(e) ==> e.0 == base + 1 + n_elif,
{
    assert(arm_ids(b)[0] == b.then_branch.0);
    assert forall|k: int| 0 <= k < n_elif implies (#[trigger] b.elif_branches@[k]).0 == base + 1 + k by {
        assert(arm_ids(b)[1 + k] == b.elif_branches@[k].0);
    }
    if let Some(e) = b.else_branch {
        assert(arm_ids(b)[1 + n_elif] == e.0);
    }
}

/// After arm `a`, its keys join the walked arms.
proof fn lemma_arm_keys_post(
    tir: Tir,
    v: IfStmtView,
    r: TirRef,
    m0: Map<TirRef, IfBranchIds>,
    m: Map<TirRef, IfBranchIds>,
    m1: Map<TirRef, IfBranchIds>,
    a: int,
)
    requires
        arm_keys_ok(tir, v, r, m0, m, a),
        keys_within(m, m1, reach_seq(tir, arm_stmts(v, a))),
        0 <= a,
    ensures
        arm_keys_ok(tir, v, r, m0, m1, a + 1),
{
    assert forall|k: TirRef| #[trigger] m1.contains_key(k) implies m0.contains_key(k) || k == r || arms_reach(tir, v, a + 1).contains(k) by {
        if m.contains_key(k) {
            if !m0.contains_key(k) && k != r {
                let (a2, i2) = choose|a2: int, i2: int|
                    0 <= a2 < a && 0 <= i2 < arm_stmts(v, a2).len() && #[trigger] reach(tir, arm_stmts(v, a2)[i2]).contains(k);
                assert(0 <= a2 < a + 1);
            }
        } else {
            let i = choose|i: int| 0 <= i < arm_stmts(v, a).len() && #[trigger] reach(tir, arm_stmts(v, a)[i]).contains(k);
            assert(0 <= a < a + 1);
        }
    }
    assert forall|k: TirRef| #[trigger] m0.contains_key(k) implies m1.contains_key(k) && m1[k] == m0[k] by {
        assert(m.contains_key(k));
    }
}

/// All arms walked: the `if`'s keys lie inside it.
proof fn lemma_arm_keys_end(
    tir: Tir,
    v: IfStmtView,
    r: TirRef,
    m0: Map<TirRef, IfBranchIds>,
    m: Map<TirRef, IfBranchIds>,
    n: int,
)
    requires
        tir.wf(),
        tir.valid_ref(r),
        tir.spec_inst(r).tag == TirTag::IfStmt,
        tir.spec_extra(r) == Extra::IfStmt(v),
        0 <= n <= v.elif_branches@.len() + 2,
        arm_keys_ok(tir, v, r, m0, m, n),
    ensures
        keys_within(m0, m, reach(tir, r)),
{
    lemma_if_reach(tir, r, v);
    assert forall|k: TirRef| #[trigger] m.contains_key(k) implies m0.contains_key(k) || reach(tir, r).contains(k) by {
        if !m0.contains_key(k) && k != r {
            let (a2, i2) = choose|a2: int, i2: int|
                0 <= a2 < n && 0 <= i2 < arm_stmts(v, a2).len() && #[trigger] reach(tir, arm_stmts(v, a2)[i2]).contains(k);
            assert(reach_seq(tir, arm_stmts(v, a2)).contains(k));
            lemma_arm_inside(tir, v, r, a2, k);
        }
    }
}

/// Entries of `if` statements at or above `bound` are left alone.
pub open spec fn if_frame(m0: Map<TirRef, IfBranchIds>, m1: Map<TirRef, IfBranchIds>, bound: int) -> bool {
    forall|k: TirRef|
        #![trigger m0.contains_key(k)]
        #![trigger m1.contains_key(k)]
        k.0 >= bound ==> (m1.contains_key(k) == m0.contains_key(k) && (m0.contains_key(k) ==> m1[k]
            == m0[k]))
}

pub proof fn lemma_branch_ids_mono(sc: FunctionSidecar, a: u32, b: u32)
    requires
        sc.branch_ids_ok(a),
        a <= b,
    ensures
        sc.branch_ids_ok(b),
{
}

/// Walk a statement list.
pub fn analyze_block(
    tir: &Tir,
    pool: &InternPool,
    own: &mut Ownership,
    sink: &mut DiagSink,
    sc: &mut FunctionSidecar,
    stmts: &Vec<TirRef>,
    parent: TirRef,
)
    requires
        tree_pre(*tir, *old(sc), reach_seq(*tir, stmts@)),
        tree_shaped(*tir) ==> list_disjoint(*tir, stmts@),
        stmt_pre(*tir, *pool, *old(own), *old(sc), need_list(*tir, parent, stmts@)),
        refs_below(stmts@, parent.0 as int),
        forall|j: int| 0 <= j < stmts@.len() ==> tir.valid_ref(#[trigger] stmts@[j]),
    ensures
        tree_post(*tir, *old(sc), *final(sc), reach_seq(*tir, stmts@)),
        stmt_post(*tir, *old(own), *final(own), *old(sc), *final(sc), old(sink).items(), final(sink).items(), need_list(*tir, parent, stmts@), parent.0 as int),
        exists|t: WalkTree|
            #[trigger] block_rel(
                *tir,
                *pool,
                walk_state(*old(own), old(sink).items(), *old(sc)),
                walk_state(*final(own), final(sink).items(), *final(sc)),
                parent,
                stmts@,
                t,
            ),
    decreases parent.0, 0nat,
{
    let ghost own0 = *old(own);
    let ghost sc0 = *old(sc);
    let ghost d0 = old(sink).items();
    let ghost total = need_list(*tir, parent, stmts@);
    let ghost a0 = walk_state(*own, sink.items(), *sc);
    let ghost mut tr: Seq<WalkState> = seq![a0];
    let ghost mut subs: Seq<WalkTree> = Seq::empty();
    let mut i: usize = 0;
    assert(stmts@.take(0) =~= Seq::<TirRef>::empty());
    proof {
        if tree_shaped(*tir) {
            lemma_keys_clear_start(*tir, sc0.if_branches@, stmts@);
            assert(keys_within(sc0.if_branches@, sc.if_branches@, reach_seq(*tir, stmts@.take(0))));
        }
    }
    while i < stmts.len()
        invariant
            tr.len() == i + 1,
            subs.len() == i,
            tr[0] == a0,
            tr.last() == walk_state(*own, sink.items(), *sc),
            block_steps(*tir, *pool, tr, subs, parent, stmts@, i as int),
            i <= stmts@.len(),
            refs_below(stmts@, parent.0 as int),
            forall|j: int| 0 <= j < stmts@.len() ==> tir.valid_ref(#[trigger] stmts@[j]),
            total == need_list(*tir, parent, stmts@),
            stmt_pre(*tir, *pool, own0, sc0, total),
            stmt_post(*tir, own0, *own, sc0, *sc, d0, sink.items(), need_list(*tir, parent, stmts@.take(i as int)), parent.0 as int),
            stmt_pre(*tir, *pool, *own, *sc, (total - need_list(*tir, parent, stmts@.take(i as int))) as nat),
            need_list(*tir, parent, stmts@.take(i as int)) <= total,
            tree_shaped(*tir) ==> list_disjoint(*tir, stmts@),
            tree_shaped(*tir) ==> keys_within(sc0.if_branches@, sc.if_branches@, reach_seq(*tir, stmts@.take(i as int))),
            tree_shaped(*tir) ==> keys_clear_from(*tir, sc.if_branches@, stmts@, i as int),
            tree_shaped(*tir) ==> gated_ok(sc.free_schedule@, sc.if_branches@),
        decreases stmts@.len() - i,
    {
        let s = stmts[i];
        proof {
            let t = stmts@.take(i + 1);
            assert(t.drop_last() =~= stmts@.take(i as int));
            assert(t.last() == s);
            assert(s.0 < parent.0);
            lemma_need_list_prefix(*tir, parent, stmts@, i as int + 1);
        }
        let ghost m = walk_state(*own, sink.items(), *sc);
        proof {
            if tree_shaped(*tir) {
                assert forall|k: TirRef| #[trigger] sc.if_branches@.contains_key(k) implies !reach(*tir, s).contains(k) by {
                    assert(sc.if_branches@.contains_key(k) && i <= i < stmts@.len() && stmts@[i as int] == s);
                }
            }
        }
        analyze_stmt(tir, pool, own, sink, sc, s);
        proof {
            if tree_shaped(*tir) {
                lemma_block_step_keys(*tir, stmts@, i as int, sc0.if_branches@, m.4, sc.if_branches@);
            }
            let st = choose|t: WalkTree| #[trigger] stmt_rel(*tir, *pool, m, walk_state(*own, sink.items(), *sc), s, t);
            let tr1 = tr.push(walk_state(*own, sink.items(), *sc));
            let subs1 = subs.push(st);
            lemma_block_steps_ext(*tir, *pool, tr, subs, tr1, subs1, parent, stmts@, i as int);
            assert(tr1[i as int] == m);
            assert(stmts@[i as int] == s);
            assert(block_steps(*tir, *pool, tr1, subs1, parent, stmts@, i + 1));
            tr = tr1;
            subs = subs1;
        }
        i = i + 1;
    }
    assert(stmts@.take(stmts@.len() as int) =~= stmts@);
    assert(block_rel(*tir, *pool, a0, walk_state(*own, sink.items(), *sc), parent, stmts@, WalkTree::Block(tr, subs)));
}

proof fn lemma_need_list_prefix(tir: Tir, parent: TirRef, s: Seq<TirRef>, k: int)
    requires
        0 <= k <= s.len(),
    ensures
        need_list(tir, parent, s.take(k)) <= need_list(tir, parent, s),
    decreases s.len() - k,
{
    if k < s.len() {
        lemma_need_list_prefix(tir, parent, s, k + 1);
        assert(s.take(k + 1).drop_last() =~= s.take(k));
    } else {
        assert(s.take(k) =~= s);
    }
}

/// Walk one statement.
pub fn analyze_stmt(
    tir: &Tir,
    pool: &InternPool,
    own: &mut Ownership,
    sink: &mut DiagSink,
    sc: &mut FunctionSidecar,
    stmt: TirRef,
)
    requires
        tree_pre(*tir, *old(sc), reach(*tir, stmt)),
        stmt_pre(*tir, *pool, *old(own), *old(sc), need_stmt(*tir, stmt)),
        tir.valid_ref(stmt),
    ensures
        tree_post(*tir, *old(sc), *final(sc), reach(*tir, stmt)),
        stmt_post(*tir, *old(own), *final(own), *old(sc), *final(sc), old(sink).items(), final(sink).items(), need_stmt(*tir, stmt), stmt.0 + 1),
        exists|t: WalkTree|
            #[trigger] stmt_rel(
                *tir,
                *pool,
                walk_state(*old(own), old(sink).items(), *old(sc)),
                walk_state(*final(own), final(sink).items(), *final(sc)),
                stmt,
                t,
            ),
    decreases stmt.0, 3nat,
{
    let inst = *tir.inst(stmt);
    let ghost a = walk_state(*own, sink.items(), *sc);
    proof {
        tir.lemma_inline_below(stmt);
    }
    match inst.tag {
        TirTag::VarDecl => analyze_var_decl(tir, pool, own, sink, stmt),
        TirTag::Assign => analyze_assign(tir, pool, own, sink, sc, stmt),
        TirTag::Return => analyze_return(tir, pool, own, sink, stmt),
        TirTag::ReturnVoid => {},
        TirTag::IfStmt => analyze_if_stmt(tir, pool, own, sink, sc, stmt),
        TirTag::WhileLoop => analyze_while_loop(tir, pool, own, sink, sc, stmt),
        TirTag::ForRange => analyze_for_range(tir, pool, own, sink, sc, stmt),
        TirTag::Break | TirTag::Continue => {},
        // Sema rejects compound assignment on move types; nothing to track.
        TirTag::CompoundAssign => {},
        TirTag::ExprStmt => {
            match inst.data {
                TirData::UnOp(o) => visit_expr(tir, pool, own, sink, o),
                _ => {},
            }
        },
        _ => visit_expr(tir, pool, own, sink, stmt),
    }
    proof {
        let b = walk_state(*own, sink.items(), *sc);
        if inst.tag == TirTag::IfStmt {
            let (w, arms) = choose|w: IfWitness, arms: Seq<WalkTree>| #[trigger] if_witness(*tir, *pool, a, b, stmt, w, arms);
            assert(stmt_rel(*tir, *pool, a, b, stmt, WalkTree::If(w, arms)));
        } else if inst.tag == TirTag::WhileLoop || inst.tag == TirTag::ForRange {
            let t = choose|t: WalkTree| #[trigger] stmt_rel(*tir, *pool, a, b, stmt, t);
            assert(stmt_rel(*tir, *pool, a, b, stmt, t));
        } else {
            assert(stmt_rel(*tir, *pool, a, b, stmt, WalkTree::Leaf));
        }
    }
}

/// A move-typed declaration consumes its initializer and binds a fresh
/// owner, pending a read.
fn analyze_var_decl(tir: &Tir, pool: &InternPool, own: &mut Ownership, sink: &mut DiagSink, r: TirRef)
    requires
        tir.wf(),
        names_ok(*tir, *pool),
        own_ok(*old(own), *tir),
        tir.valid_ref(r),
        tir.spec_inst(r).tag == TirTag::VarDecl,
    ensures
        visit_post(*tir, *old(own), *final(own), old(sink).items(), final(sink).items()),
        (final(own).tables(), final(sink).items()) == sv_var_decl(*tir, *pool, old(own).tables(), old(sink).items(), r),
{
    let view = tir.var_decl_view(r);
    let init = view.initializer;
    proof {
        tir.lemma_payload_below(r);
        tir.lemma_inline_below(r);
    }
    let init_ty = tir.inst(init).ty;
    visit_expr(tir, pool, own, sink, init);
    if needs_tracking(init_ty, pool) {
        let span = tir.span(r);
        let consumed_name = consumed_binding_name(tir, init);
        proof {
            lemma_var_name(*tir, *pool, init);
            lemma_underlying_ok(*own, *tir, init);
        }
        let ghost before = *own;
        let ghost before_d = sink.items();
        consume_for_assignment(tir, pool, own, sink, init, span, consumed_name);
        proof {
            lemma_consumed_tables(*tir, *pool, before, *own, before_d, sink.items(), init, span, consumed_name, BorrowedAction::MoveOutOfParam);
        }
        rebind_to_init(own, view.name, init);
        register_pending_dead_store(own, init, view.name, span, r);
    } else {
        own.current_owner.insert(view.name, Owner::Inst(init));
    }
}

/// Reassignment: like a declaration, and a valid old value (or the old
/// value of an `inout str` parameter) is dropped by the reassignment.
fn analyze_assign(
    tir: &Tir,
    pool: &InternPool,
    own: &mut Ownership,
    sink: &mut DiagSink,
    sc: &mut FunctionSidecar,
    r: TirRef,
)
    requires
        tir.wf(),
        names_ok(*tir, *pool),
        own_ok(*old(own), *tir),
        sc_ok(*tir, *old(sc)),
        tir.valid_ref(r),
        tir.spec_inst(r).tag == TirTag::Assign,
    ensures
        final(sc).name == old(sc).name,
        visit_post(*tir, *old(own), *final(own), old(sink).items(), final(sink).items()),
        sc_ok(*tir, *final(sc)),
        final(sc).free_schedule@ == old(sc).free_schedule@,
        final(sc).if_branches@ == old(sc).if_branches@,
        (final(own).tables(), final(sink).items(), final(sc).free_on_reassign@) == sv_assign(
            *tir,
            *pool,
            old(own).tables(),
            old(sink).items(),
            old(sc).free_on_reassign@,
            r,
        ),
{
    let view = tir.assign_view(r);
    proof {
        tir.lemma_payload_below(r);
        tir.lemma_inline_below(r);
    }
    let value_ty = tir.inst(view.value).ty;
    visit_expr(tir, pool, own, sink, view.value);
    if needs_tracking(value_ty, pool) {
        match own.current_owner.get(&view.name) {
            Some(old_owner) => {
                let old_owner = *old_owner;
                let old_droppable = match own.states.get(&old_owner) {
                    Some(OwnerState::Valid) => true,
                    Some(OwnerState::Borrowed) => own.inout_str_params.contains_key(&view.name),
                    _ => false,
                };
                if old_droppable {
                    let t = old_owner.tirref(tir);
                    proof {
                        if let Owner::Param(n) = old_owner {
                            lemma_param_pos(*tir, n);
                        }
                    }
                    sc.free_on_reassign.insert(r, t);
                    own.pending_dead_store.remove(&old_owner);
                }
            },
            None => {},
        }
        let span = tir.span(r);
        let consumed_name = consumed_binding_name(tir, view.value);
        proof {
            lemma_var_name(*tir, *pool, view.value);
            lemma_underlying_ok(*own, *tir, view.value);
        }
        let ghost before = *own;
        let ghost before_d = sink.items();
        consume_for_assignment(tir, pool, own, sink, view.value, span, consumed_name);
        proof {
            lemma_consumed_tables(*tir, *pool, before, *own, before_d, sink.items(), view.value, span, consumed_name, BorrowedAction::MoveOutOfParam);
        }
        rebind_to_init(own, view.name, view.value);
        register_pending_dead_store(own, view.value, view.name, span, r);
    }
}

/// A move-typed return consumes its operand; a borrowed one is E0022.
fn analyze_return(tir: &Tir, pool: &InternPool, own: &mut Ownership, sink: &mut DiagSink, r: TirRef)
    requires
        tir.wf(),
        names_ok(*tir, *pool),
        own_ok(*old(own), *tir),
        tir.valid_ref(r),
        tir.spec_inst(r).tag == TirTag::Return,
    ensures
        visit_post(*tir, *old(own), *final(own), old(sink).items(), final(sink).items()),
        (final(own).tables(), final(sink).items()) == sv_return(*tir, *pool, old(own).tables(), old(sink).items(), r),
{
    let inst = *tir.inst(r);
    proof {
        tir.lemma_inline_below(r);
    }
    let operand = match inst.data {
        TirData::UnOp(o) => o,
        _ => {
            proof {
                assert(false);
            }
            r
        },
    };
    let ty = tir.inst(operand).ty;
    visit_expr(tir, pool, own, sink, operand);
    if !needs_tracking(ty, pool) {
        return;
    }
    let span = tir.span(r);
    let consumed_name = consumed_binding_name(tir, operand);
    proof {
        lemma_var_name(*tir, *pool, operand);
        lemma_underlying_ok(*own, *tir, operand);
    }
    let ghost before = *own;
    let ghost before_d = sink.items();
    consume_underlying(tir, pool, own, sink, operand, span, consumed_name, BorrowedAction::ReturnBorrowed);
    proof {
        lemma_consumed_tables(*tir, *pool, before, *own, before_d, sink.items(), operand, span, consumed_name, BorrowedAction::ReturnBorrowed);
    }
}

/// The `if` payload of instruction `r`.
pub open spec fn if_view_of(tir: Tir, r: TirRef) -> IfStmtView {
    match tir.spec_extra(r) {
        Extra::IfStmt(v) => v,
        _ => arbitrary(),
    }
}

proof fn lemma_need_arms_prefix(tir: Tir, parent: TirRef, s: Seq<ElifArm>, k: int)
    requires
        0 <= k <= s.len(),
    ensures
        need_arms(tir, parent, s.take(k)) <= need_arms(tir, parent, s),
    decreases s.len() - k,
{
    if k < s.len() {
        lemma_need_arms_prefix(tir, parent, s, k + 1);
        assert(s.take(k + 1).drop_last() =~= s.take(k));
    } else {
        assert(s.take(k) =~= s);
    }
}

/// No branch state has handed out more ids than `x`.
proof fn lemma_max_branch_id_le(bs: Seq<Ownership>, x: u32)
    requires
        forall|i: int| 0 <= i < bs.len() ==> (#[trigger] bs[i]).next_branch_id <= x,
    ensures
        max_branch_id(bs) <= x,
    decreases bs.len(),
{
    if bs.len() > 0 {
        assert forall|i: int| 0 <= i < bs.drop_last().len() implies (#[trigger] bs.drop_last()[i]).next_branch_id <= x by {
            assert(bs.drop_last()[i] == bs[i]);
        }
        lemma_max_branch_id_le(bs.drop_last(), x);
        assert(bs[bs.len() - 1].next_branch_id <= x);
    }
}

fn last_stmt(v: &Vec<TirRef>) -> (r: Option<TirRef>)
    ensures
        r == (if v@.len() == 0 {
            None
        } else {
            Some(v@.last())
        }),
{
    if v.len() == 0 {
        None
    } else {
        Some(v[v.len() - 1])
    }
}

/// A saved copy of the fields an arm or a loop body rewinds.
pub open spec fn snap_ok(
    tir: Tir,
    st: VecMap<Owner, OwnerState>,
    co: VecMap<StringId, Owner>,
    pd: VecMap<Owner, PendingStore>,
) -> bool {
    &&& st.wf()
    &&& states_ok(tir, st@)
    &&& co.wf()
    &&& co_ok(tir, co@)
    &&& pd.wf()
    &&& pending_ok(tir, pd@)
}

/// Walk one arm of an `if` from the pre-`if` snapshot: rewind, visit the
/// arm's condition if any, walk its statements; returns the arm's end
/// state.
fn walk_arm(
    tir: &Tir,
    pool: &InternPool,
    own: &mut Ownership,
    sink: &mut DiagSink,
    sc: &mut FunctionSidecar,
    snap_states: &VecMap<Owner, OwnerState>,
    snap_co: &VecMap<StringId, Owner>,
    snap_pending: &VecMap<Owner, PendingStore>,
    cond: Option<TirRef>,
    stmts: &Vec<TirRef>,
    parent: TirRef,
    Ghost(snap): Ghost<Tables>,
) -> (res: Ownership)
    requires
        tree_pre(*tir, *old(sc), reach_seq(*tir, stmts@)),
        tree_shaped(*tir) ==> list_disjoint(*tir, stmts@),
        stmt_pre(*tir, *pool, *old(own), *old(sc), need_list(*tir, parent, stmts@)),
        refs_below(stmts@, parent.0 as int),
        forall|j: int| 0 <= j < stmts@.len() ==> tir.valid_ref(#[trigger] stmts@[j]),
        cond matches Some(c) ==> tir.valid_ref(c),
        snap_ok(*tir, *snap_states, *snap_co, *snap_pending),
        snap.states == snap_states@,
        snap.current_owner == snap_co@,
        snap.pending == snap_pending@,
    ensures
        tree_post(*tir, *old(sc), *final(sc), reach_seq(*tir, stmts@)),
        stmt_post(*tir, *old(own), *final(own), *old(sc), *final(sc), old(sink).items(), final(sink).items(), need_list(*tir, parent, stmts@), parent.0 as int),
        own_ok(res, *tir),
        res.next_branch_id == final(own).next_branch_id,
        res.wf(),
        res.tables() == final(own).tables(),
        exists|t: WalkTree|
            #[trigger] arm_step(
                *tir,
                *pool,
                walk_state(*old(own), old(sink).items(), *old(sc)),
                walk_state(*final(own), final(sink).items(), *final(sc)),
                snap,
                cond,
                parent,
                stmts@,
                t,
            ),
    decreases parent.0, 1nat,
{
    let ghost a = walk_state(*own, sink.items(), *sc);
    own.states = snap_states.copy();
    own.current_owner = snap_co.copy();
    own.pending_dead_store = snap_pending.copy();
    assert(own.tables() == rewound(a.0, snap));
    match cond {
        Some(c) => visit_expr(tir, pool, own, sink, c),
        None => {},
    }
    let ghost start = walk_state(*own, sink.items(), *sc);
    analyze_block(tir, pool, own, sink, sc, stmts, parent);
    proof {
        let t = choose|t: WalkTree| #[trigger] block_rel(*tir, *pool, start, walk_state(*own, sink.items(), *sc), parent, stmts@, t);
        assert(arm_step(*tir, *pool, a, walk_state(*own, sink.items(), *sc), snap, cond, parent, stmts@, t));
    }
    own.copy()
}

/// `if`: fresh branch ids for the arms, each arm walked from the
/// pre-`if` state, frees gated on the arms that keep an owner another arm
/// moves, and the arms joined (an absent `else` joins the pre-`if`
/// state).
pub fn analyze_if_stmt(
    tir: &Tir,
    pool: &InternPool,
    own: &mut Ownership,
    sink: &mut DiagSink,
    sc: &mut FunctionSidecar,
    r: TirRef,
)
    requires
        tree_pre(*tir, *old(sc), reach(*tir, r)),
        stmt_pre(*tir, *pool, *old(own), *old(sc), need_stmt(*tir, r)),
        tir.valid_ref(r),
        tir.spec_inst(r).tag == TirTag::IfStmt,
    ensures
        tree_post(*tir, *old(sc), *final(sc), reach(*tir, r)),
        stmt_post(*tir, *old(own), *final(own), *old(sc), *final(sc), old(sink).items(), final(sink).items(), need_stmt(*tir, r), r.0 + 1),
        final(sc).if_branches@.contains_key(r),
        arm_ids(final(sc).if_branches@[r]).len() == arm_count(
            if_view_of(*tir, r).elif_branches@.len(),
            if_view_of(*tir, r).else_stmts is Some,
        ),
        consecutive_from(arm_ids(final(sc).if_branches@[r]), old(own).next_branch_id as int),
        final(sc).if_branches@[r].then_branch.0 == old(own).next_branch_id,
        final(sc).if_branches@[r].elif_branches@.len() == if_view_of(*tir, r).elif_branches@.len(),
        forall|k: int|
            0 <= k < if_view_of(*tir, r).elif_branches@.len() ==> (#[trigger] final(sc).if_branches@[r].elif_branches@[k]).0
                == old(own).next_branch_id + 1 + k,
        (final(sc).if_branches@[r].else_branch is Some) == (if_view_of(*tir, r).else_stmts is Some),
        final(sc).if_branches@[r].else_branch matches Some(e) ==> e.0 == old(own).next_branch_id + 1
            + if_view_of(*tir, r).elif_branches@.len(),
        final(own).next_branch_id >= old(own).next_branch_id + arm_count(
            if_view_of(*tir, r).elif_branches@.len(),
            if_view_of(*tir, r).else_stmts is Some,
        ),
        exists|w: IfWitness, arms: Seq<WalkTree>|
            #[trigger] if_witness(
                *tir,
                *pool,
                walk_state(*old(own), old(sink).items(), *old(sc)),
                walk_state(*final(own), final(sink).items(), *final(sc)),
                r,
                w,
                arms,
            ),
    decreases r.0, 2nat,
{
    let view = tir.if_stmt_view(r);
    proof {
        tir.lemma_payload_below(r);
    }
    let ghost own0 = *old(own);
    let ghost sc0 = *old(sc);
    let ghost d0 = old(sink).items();
    let ghost a = walk_state(*own, sink.items(), *sc);
    let ghost total = need_stmt(*tir, r);
    let ghost nt = need_list(*tir, r, view.then_stmts@);
    let ghost na = need_arms(*tir, r, view.elif_branches@);
    let ghost ne = need_list(*tir, r, opt_stmts(view.else_stmts));
    assert(total == 2 + view.elif_branches@.len() + nt + na + ne);
    visit_expr(tir, pool, own, sink, view.cond);
    let ghost c = sv_expr(*tir, *pool, a.0, a.1, view.cond);
    let base = own.next_branch_id;
    let n_elif = view.elif_branches.len();
    let has_else = view.else_stmts.is_some();
    let (ids, nxt) = alloc_branch_ids(base, n_elif, has_else);
    let ghost b = ids;
    let ghost n_arms = arm_count(n_elif as nat, has_else);
    // The arm ids in arm order, for the scheduler.
    let mut arm_id_list: Vec<BranchId> = Vec::new();
    arm_id_list.push(ids.then_branch);
    let mut i: usize = 0;
    while i < n_elif
        invariant
            sc.name == old(sc).name,
            i <= n_elif,
            ids == b,
            b.elif_branches@.len() == n_elif,
            arm_id_list@.len() == 1 + i,
            forall|k: int| #![trigger arm_id_list@[k]] 0 <= k < 1 + i ==> arm_id_list@[k].0 == arm_ids(b)[k],
        decreases n_elif - i,
    {
        proof {
            assert(arm_ids(b)[i + 1] == b.elif_branches@[i as int].0);
        }
        arm_id_list.push(ids.elif_branches[i]);
        i = i + 1;
    }
    let else_id = ids.else_branch;
    proof {
        assert forall|k: int| 0 <= k < arm_ids(b).len() implies base <= #[trigger] arm_ids(b)[k] < nxt by {
        }
        lemma_record_fresh_ids(sc.if_branches@, r, b, base, nxt);
        lemma_fresh_insert(sc.if_branches@, r, b, base);
    }
    sc.if_branches.insert(r, ids);
    own.next_branch_id = nxt;
    proof {
        if tree_shaped(*tir) {
            lemma_if_reach(*tir, r, *view);
            assert(!sc0.if_branches@.contains_key(r));
            assert(arm_keys_ok(*tir, *view, r, sc0.if_branches@, sc.if_branches@, 0));
            lemma_gated_ok_mono(sc0.free_schedule@, sc0.if_branches@, sc.if_branches@);
            assert(tir.spec_inst(r).data is Extra) by {
                tir.lemma_inline_below(r);
            }
            assert(arms_disjoint(*tir, *view));
        }
    }
    let ghost t1 = own.tables();
    assert(t1 == (Tables { next_branch_id: (base + n_arms) as u32, ..c.0 }));

    let snap_states = own.states.copy();
    let snap_co = sort_by_name(&own.current_owner);
    let snap_pending = own.pending_dead_store.copy();
    proof {
        assert(sc.branch_ids_ok(own.next_branch_id));
        assert forall|j: int| 0 <= j < view.then_stmts@.len() implies tir.valid_ref(#[trigger] view.then_stmts@[j]) by {
            assert(view.then_stmts@[j].0 < r.0);
        }
    }
    let ghost mut trace: Seq<WalkState> = seq![walk_state(*own, sink.items(), *sc)];
    assert(trace[0] == (t1, c.1, a.2, a.3, a.4.insert(r, b)));
    let mut results: Vec<Ownership> = Vec::new();
    let mut lasts: Vec<Option<TirRef>> = Vec::new();
    let ghost sc_b = *sc;
    assert(sc_b.if_branches@ == sc0.if_branches@.insert(r, b));
    let ghost pre_arm = walk_state(*own, sink.items(), *sc);
    let ghost nb0 = own.next_branch_id;
    proof {
        if tree_shaped(*tir) {
            lemma_arm_keys_pre(*tir, *view, r, sc0.if_branches@, sc.if_branches@, 0);
            lemma_arm_list_disjoint(*tir, *view, 0);
        }
    }
    let then_state = walk_arm(tir, pool, own, sink, sc, &snap_states, &snap_co, &snap_pending, None, &view.then_stmts, r, Ghost(t1));
    let ghost mut arms: Seq<WalkTree> = Seq::empty();
    results.push(then_state);
    lasts.push(last_stmt(&view.then_stmts));
    proof {
        assert forall|k: TirRef| #![trigger sc.if_branches@.contains_key(k)] k.0 >= r.0 + 1 implies (sc.if_branches@.contains_key(k) == sc0.if_branches@.contains_key(k) && (sc0.if_branches@.contains_key(k) ==> sc.if_branches@[k] == sc0.if_branches@[k])) by {
            assert(sc_b.if_branches@.contains_key(k) == sc0.if_branches@.contains_key(k));
        }
        assert(sc_b.if_branches@.contains_key(r));
        lemma_fresh_ids_trans(sc0.if_branches@, sc_b.if_branches@, sc.if_branches@, own0.next_branch_id, nb0);
        if tree_shaped(*tir) {
            lemma_arm_keys_post(*tir, *view, r, sc0.if_branches@, sc_b.if_branches@, sc.if_branches@, 0);
        }
        assert(results@[0] == then_state);
        assert(view.elif_branches@.take(0) =~= Seq::<ElifArm>::empty());
        let tr = trace.push(walk_state(*own, sink.items(), *sc));
        let at = choose|t: WalkTree| #[trigger] arm_step(*tir, *pool, pre_arm, walk_state(*own, sink.items(), *sc), t1, None, r, view.then_stmts@, t);
        let ar = arms.push(at);
        assert(arm_cond(*view, 0) == None::<TirRef>);
        assert(arm_stmts(*view, 0) == view.then_stmts@);
        assert(arms_rel(*tir, *pool, tr, ar, t1, *view, r, 0));
        assert(tr[0] == trace[0]);
        assert(arms_rel(*tir, *pool, tr, ar, t1, *view, r, 1));
        trace = tr;
        arms = ar;
    }
    let mut i: usize = 0;
    while i < n_elif
        invariant
            sc.name == old(sc).name,
            i <= n_elif,
            n_elif == view.elif_branches@.len(),
            tir.wf(),
            names_ok(*tir, *pool),
            tir.valid_ref(r),
            tir.spec_extra(r) == Extra::IfStmt(*view),
            payload_below(Extra::IfStmt(*view), r.0 as int),
            own0.next_branch_id + total <= u32::MAX,
            total == 2 + n_elif + nt + na + ne,
            na == need_arms(*tir, r, view.elif_branches@),
            own_ok(*own, *tir),
            own.inout_str_params@ == own0.inout_str_params@,
            own0.next_branch_id <= base,
            base == own0.next_branch_id,
            base + n_arms <= own.next_branch_id,
            n_arms <= 2 + n_elif,
            own.next_branch_id <= base + 2 + n_elif + nt + need_arms(*tir, r, view.elif_branches@.take(i as int)),
            sc_ok(*tir, *sc),
            fs_prefix(sc0.free_schedule@, sc.free_schedule@),
            sc.branch_ids_ok(own.next_branch_id),
            if_frame(sc0.if_branches@, sc.if_branches@, r.0 + 1),
            fresh_ids(sc0.if_branches@, sc.if_branches@, own0.next_branch_id),
            tir.spec_inst(r).tag == TirTag::IfStmt,
            tree_shaped(*tir) ==> arms_disjoint(*tir, *view) && keys_outside(sc0.if_branches@, reach(*tir, r))
                && arm_keys_ok(*tir, *view, r, sc0.if_branches@, sc.if_branches@, i + 1) && gated_ok(sc.free_schedule@, sc.if_branches@),
            sc.if_branches@.contains_key(r),
            sc.if_branches@[r] == b,
            diag_prefix(d0, sink.items()),
            snap_ok(*tir, snap_states, snap_co, snap_pending),
            snap_states@ == t1.states,
            snap_co@ == t1.current_owner,
            snap_pending@ == t1.pending,
            results@.len() == 1 + i,
            lasts@.len() == 1 + i,
            all_own_ok(results@, *tir),
            forall|j: int| 0 <= j < results@.len() ==> (#[trigger] results@[j]).next_branch_id <= own.next_branch_id,
            forall|j: int| 0 <= j < lasts@.len() && (#[trigger] lasts@[j]) is Some ==> tir.valid_ref(lasts@[j]->Some_0),
            trace.len() == i + 2,
            trace[0] == (t1, c.1, a.2, a.3, a.4.insert(r, b)),
            trace.last() == walk_state(*own, sink.items(), *sc),
            arms.len() == i + 1,
            arms_rel(*tir, *pool, trace, arms, t1, *view, r, i + 1),
            forall|k: int| #![trigger results@[k]] 0 <= k < i + 1 ==> results@[k].wf() && results@[k].tables() == trace[k + 1].0,
            forall|k: int| #![trigger lasts@[k]] 0 <= k < i + 1 ==> lasts@[k] == last_of(arm_stmts(*view, k)),
        decreases n_elif - i,
    {
        let arm = &view.elif_branches[i];
        proof {
            assert(arm.cond.0 < r.0 && refs_below(arm.body@, r.0 as int));
            assert forall|j: int| 0 <= j < arm.body@.len() implies tir.valid_ref(#[trigger] arm.body@[j]) by {
                assert(arm.body@[j].0 < r.0);
            }
            let t = view.elif_branches@.take(i + 1);
            assert(t.drop_last() =~= view.elif_branches@.take(i as int));
            assert(t.last() == *arm);
            lemma_need_arms_prefix(*tir, r, view.elif_branches@, i + 1);
        }
        let ghost own_b = *own;
        let ghost sc_b = *sc;
        let ghost d_b = sink.items();
        let ghost pre_arm = walk_state(*own, sink.items(), *sc);
        proof {
            assert(arm_stmts(*view, i + 1) == arm.body@);
            if tree_shaped(*tir) {
                lemma_arm_keys_pre(*tir, *view, r, sc0.if_branches@, sc.if_branches@, i + 1);
                lemma_arm_list_disjoint(*tir, *view, i + 1);
            }
        }
        let st = walk_arm(tir, pool, own, sink, sc, &snap_states, &snap_co, &snap_pending, Some(arm.cond), &arm.body, r, Ghost(t1));
        let ghost results_b = results@;
        let ghost lasts_b = lasts@;
        results.push(st);
        lasts.push(last_stmt(&arm.body));
        proof {
            assert forall|j: int| 0 <= j < results@.len() implies own_ok(#[trigger] results@[j], *tir) by {
                if j < results_b.len() {
                    assert(results@[j] == results_b[j]);
                }
            }
            assert forall|j: int| 0 <= j < results@.len() implies (#[trigger] results@[j]).next_branch_id <= own.next_branch_id by {
                if j < results_b.len() {
                    assert(results@[j] == results_b[j]);
                }
            }
            assert forall|k: TirRef| #![trigger sc.if_branches@.contains_key(k)] k.0 >= r.0 + 1 implies (sc.if_branches@.contains_key(k) == sc0.if_branches@.contains_key(k) && (sc0.if_branches@.contains_key(k) ==> sc.if_branches@[k] == sc0.if_branches@[k])) by {
                assert(sc_b.if_branches@.contains_key(k) == sc0.if_branches@.contains_key(k));
            }
            assert(sc_b.if_branches@.contains_key(r));
            lemma_fresh_ids_trans(sc0.if_branches@, sc_b.if_branches@, sc.if_branches@, own0.next_branch_id, own_b.next_branch_id);
            if tree_shaped(*tir) {
                assert(arm_stmts(*view, i + 1) == arm.body@);
                lemma_arm_keys_post(*tir, *view, r, sc0.if_branches@, sc_b.if_branches@, sc.if_branches@, i + 1);
            }
            let tr = trace.push(walk_state(*own, sink.items(), *sc));
            let at = choose|t: WalkTree| #[trigger] arm_step(*tir, *pool, pre_arm, walk_state(*own, sink.items(), *sc), t1, Some(arm.cond), r, arm.body@, t);
            let ar = arms.push(at);
            assert(arm_cond(*view, i + 1) == Some(arm.cond));
            assert(arm_stmts(*view, i + 1) == arm.body@);
            assert forall|k: int| 0 <= k <= i + 1 implies tr[k] == trace[k] by {}
            assert forall|k: int| 0 <= k < i + 1 implies ar[k] == arms[k] by {}
            lemma_arms_rel_ext(*tir, *pool, trace, arms, tr, ar, t1, *view, r, i + 1);
            assert(tr[i + 1] == pre_arm);
            assert(arms_rel(*tir, *pool, tr, ar, t1, *view, r, i + 2));
            arms = ar;
            assert forall|k: int| #![trigger results@[k]] 0 <= k < i + 2 implies results@[k].wf() && results@[k].tables() == tr[k + 1].0 by {
                if k < i + 1 {
                    assert(results@[k] == results_b[k]);
                }
            }
            assert forall|k: int| #![trigger lasts@[k]] 0 <= k < i + 2 implies lasts@[k] == last_of(arm_stmts(*view, k)) by {
                if k < i + 1 {
                    assert(lasts@[k] == lasts_b[k]);
                }
            }
            trace = tr;
        }
        i = i + 1;
    }
    assert(view.elif_branches@.take(n_elif as int) =~= view.elif_branches@);
    match &view.else_stmts {
        Some(es) => {
            proof {
                assert(opt_stmts(view.else_stmts) == es@);
                assert forall|j: int| 0 <= j < es@.len() implies tir.valid_ref(#[trigger] es@[j]) by {
                    assert(es@[j].0 < r.0);
                }
            }
            let ghost sc_b = *sc;
            let ghost nb = own.next_branch_id;
            let ghost results_b = results@;
            let ghost lasts_b = lasts@;
            let ghost pre_arm = walk_state(*own, sink.items(), *sc);
            proof {
                assert(arm_stmts(*view, n_elif + 1) == es@);
                if tree_shaped(*tir) {
                    lemma_arm_keys_pre(*tir, *view, r, sc0.if_branches@, sc.if_branches@, n_elif + 1);
                    lemma_arm_list_disjoint(*tir, *view, n_elif + 1);
                }
            }
            let st = walk_arm(tir, pool, own, sink, sc, &snap_states, &snap_co, &snap_pending, None, es, r, Ghost(t1));
            results.push(st);
            lasts.push(last_stmt(es));
            match else_id {
                Some(e) => arm_id_list.push(e),
                None => {},
            }
            proof {
                assert forall|j: int| 0 <= j < results@.len() implies own_ok(#[trigger] results@[j], *tir) by {
                    if j < results_b.len() {
                        assert(results@[j] == results_b[j]);
                    }
                }
                assert forall|j: int| 0 <= j < results@.len() implies (#[trigger] results@[j]).next_branch_id <= own.next_branch_id by {
                    if j < results_b.len() {
                        assert(results@[j] == results_b[j]);
                    }
                }
                assert forall|k: TirRef| #![trigger sc.if_branches@.contains_key(k)] k.0 >= r.0 + 1 implies (sc.if_branches@.contains_key(k) == sc0.if_branches@.contains_key(k) && (sc0.if_branches@.contains_key(k) ==> sc.if_branches@[k] == sc0.if_branches@[k])) by {
                    assert(sc_b.if_branches@.contains_key(k) == sc0.if_branches@.contains_key(k));
                }
                assert(sc_b.if_branches@.contains_key(r));
                lemma_fresh_ids_trans(sc0.if_branches@, sc_b.if_branches@, sc.if_branches@, own0.next_branch_id, nb);
                if tree_shaped(*tir) {
                    assert(arm_stmts(*view, n_elif + 1) == es@);
                    lemma_arm_keys_post(*tir, *view, r, sc0.if_branches@, sc_b.if_branches@, sc.if_branches@, n_elif + 1);
                }
                let k1 = n_elif + 1;
                let tr = trace.push(walk_state(*own, sink.items(), *sc));
                let at = choose|t: WalkTree| #[trigger] arm_step(*tir, *pool, pre_arm, walk_state(*own, sink.items(), *sc), t1, None, r, es@, t);
                let ar = arms.push(at);
                assert(arm_cond(*view, k1 as int) == None::<TirRef>);
                assert(arm_stmts(*view, k1 as int) == es@);
                assert forall|k: int| 0 <= k <= k1 implies tr[k] == trace[k] by {}
                assert forall|k: int| 0 <= k < k1 implies ar[k] == arms[k] by {}
                lemma_arms_rel_ext(*tir, *pool, trace, arms, tr, ar, t1, *view, r, k1 as int);
                assert(tr[k1 as int] == pre_arm);
                assert(arms_rel(*tir, *pool, tr, ar, t1, *view, r, k1 + 1));
                arms = ar;
                assert forall|k: int| #![trigger results@[k]] 0 <= k < k1 + 1 implies results@[k].wf() && results@[k].tables() == tr[k + 1].0 by {
                    if k < k1 {
                        assert(results@[k] == results_b[k]);
                    }
                }
                assert forall|k: int| #![trigger lasts@[k]] 0 <= k < k1 + 1 implies lasts@[k] == last_of(arm_stmts(*view, k)) by {
                    if k < k1 {
                        assert(lasts@[k] == lasts_b[k]);
                    }
                }
                assert(arm_ids(b)[k1 as int] == b.else_branch->Some_0.0);
                trace = tr;
            }
        },
        None => {
            let mut fall = own.copy();
            fall.states = snap_states.copy();
            fall.current_owner = snap_co.copy();
            fall.pending_dead_store = snap_pending.copy();
            let ghost results_b = results@;
            results.push(fall);
            proof {
                assert forall|j: int| 0 <= j < results@.len() implies own_ok(#[trigger] results@[j], *tir) by {
                    if j < results_b.len() {
                        assert(results@[j] == results_b[j]);
                    }
                }
                assert forall|j: int| 0 <= j < results@.len() implies (#[trigger] results@[j]).next_branch_id <= own.next_branch_id by {
                    if j < results_b.len() {
                        assert(results@[j] == results_b[j]);
                    }
                }
                assert forall|k: int| #![trigger results@[k]] 0 <= k < n_elif + 1 implies results@[k].wf() && results@[k].tables() == trace[k + 1].0 by {
                    assert(results@[k] == results_b[k]);
                }
            }
        },
    }
    assert(arm_id_list@.len() == lasts@.len());
    let ghost last = trace.last();
    let ghost res = results@;
    let ghost fs_before = sc.free_schedule@;
    let ghost sc_s = *sc;
    let keys = schedule_gated_frees(tir, pool, sc, &results, &arm_id_list, &lasts);
    proof {
        if tree_shaped(*tir) {
            let m = sc.if_branches@;
            let added = frees_for_keys(*tir, results@, arm_id_list@, lasts@, keys@);
            lemma_frees_for_keys_gated(*tir, results@, arm_id_list@, lasts@, keys@);
            assert(gated_ok(added, m)) by {
                assert forall|j: int| 0 <= j < added.len() && (#[trigger] added[j]).branch is Some implies recorded(m, added[j].branch->Some_0.0) by {
                    let x = choose|x: int| 0 <= x < arm_id_list@.len() && (#[trigger] added[j]).branch == Some(arm_id_list@[x]);
                    assert(arm_id_list@[x].0 == arm_ids(b)[x]);
                    assert(m.contains_key(r) && m[r] == b);
                    assert(m.contains_key(r) && 0 <= x < arm_ids(m[r]).len() && arm_ids(m[r])[x] == added[j].branch->Some_0.0);
                }
            }
            lemma_gated_ok_concat(fs_before, added, m);
            lemma_arm_keys_end(*tir, *view, r, sc0.if_branches@, m, lasts@.len() as int);
        }
    }
    own.states = snap_states;
    own.current_owner = snap_co;
    own.pending_dead_store = snap_pending;
    let ghost m = *own;
    proof {
        lemma_merged_ok(*tir, *own, results@);
        lemma_max_branch_id_le(results@, own.next_branch_id);
    }
    own.merge_branches(&results);
    proof {
        lemma_arm_id_fields(b, base as int, n_elif as int, has_else);
        let w: IfWitness = (b, trace, res, m, keys@, lasts@, arm_id_list@);
        assert(m.tables() == rewound(last.0, t1));
        if !has_else {
            assert(res[n_arms as int].tables() == rewound(last.0, t1));
        }
        let bb = walk_state(*own, sink.items(), *sc);
        let n = n_arms as int;
        assert(b.elif_branches@.len() == n_elif);
        assert((b.else_branch is Some) == has_else);
        assert(arm_ids(b).len() == n);
        assert(consecutive_from(arm_ids(b), base as int));
        assert(trace.len() == n + 1);
        assert(trace[0] == (t1, c.1, a.2, a.3, a.4.insert(r, b)));
        assert(arms.len() == n);
        assert(arms_rel(*tir, *pool, trace, arms, t1, *view, r, n));
        assert(res.len() == (if has_else { n } else { n + 1 }));
        assert(forall|k: int| #![trigger res[k]] 0 <= k < n ==> res[k].wf() && res[k].tables() == trace[k + 1].0);
        assert(lasts@.len() == n);
        assert(forall|k: int| #![trigger lasts@[k]] 0 <= k < n ==> lasts@[k] == last_of(arm_stmts(*view, k)));
        assert(arm_id_list@.len() == n);
        assert(forall|k: int| #![trigger arm_id_list@[k]] 0 <= k < n ==> arm_id_list@[k].0 == arm_ids(b)[k]);
        assert(keys@.no_duplicates());
        assert(forall|o: Owner| #[trigger] keys@.contains(o) <==> arm_key(res, n, o));
        assert(m.wf());
        assert(bb.2 == last.2 + frees_for_keys(*tir, res, arm_id_list@, lasts@, keys@));
        assert(bb.1 == last.1);
        assert(bb.3 == last.3);
        assert(bb.4 == last.4);
        let fall = rewound(last.0, t1);
        assert(m.tables() == fall);
        assert(!has_else ==> res[n].wf() && res[n].tables() == fall);
        let mg = m.spec_merged(m.current_owner.seq(), res);
        assert(bb.0 == (Tables {
                    states: mg.0,
                    current_owner: mg.1,
                    origin: mg.2,
                    temps: mg.3,
                    reads: mg.4,
                    pending: mg.5,
                    next_branch_id: mg.6,
                    inout: fall.inout,
                }));
        assert(c == sv_expr(*tir, *pool, a.0, a.1, view.cond));
        assert(base == c.0.next_branch_id);
        assert(if_witness(*tir, *pool, a, walk_state(*own, sink.items(), *sc), r, w, arms));
    }
}

/// A loop body, run to the two-pass fixed point: walked once into a
/// scratch sink; if some owner changed moved-ness across the back-edge
/// the body is walked again, diagnosing, from the entry state joined with
/// the first pass; otherwise the first pass's diagnostics stand. Either
/// way the result is joined with the entry state.
fn analyze_loop_body(
    tir: &Tir,
    pool: &InternPool,
    own: &mut Ownership,
    sink: &mut DiagSink,
    sc: &mut FunctionSidecar,
    body: &Vec<TirRef>,
    parent: TirRef,
)
    requires
        tree_pre(*tir, *old(sc), reach_seq(*tir, body@)),
        tree_shaped(*tir) ==> list_disjoint(*tir, body@),
        stmt_pre(*tir, *pool, *old(own), *old(sc), 2 * need_list(*tir, parent, body@)),
        refs_below(body@, parent.0 as int),
        forall|j: int| 0 <= j < body@.len() ==> tir.valid_ref(#[trigger] body@[j]),
    ensures
        tree_post(*tir, *old(sc), *final(sc), reach_seq(*tir, body@)),
        stmt_post(*tir, *old(own), *final(own), *old(sc), *final(sc), old(sink).items(), final(sink).items(), 2 * need_list(*tir, parent, body@), parent.0 as int),
        exists|t: WalkTree|
            #[trigger] loop_rel(
                *tir,
                *pool,
                walk_state(*old(own), old(sink).items(), *old(sc)),
                walk_state(*final(own), final(sink).items(), *final(sc)),
                parent,
                body@,
                t,
            ),
    decreases parent.0, 1nat,
{
    let ghost own0 = *old(own);
    let ghost sc0 = *old(sc);
    let ghost d0 = old(sink).items();
    let ghost a = walk_state(*own, sink.items(), *sc);
    let ghost n = need_list(*tir, parent, body@);
    let snap_states = own.states.copy();
    let snap_co = sort_by_name(&own.current_owner);
    let snap_pending = own.pending_dead_store.copy();
    let ghost order = snap_co.seq();
    proof {
        lemma_pre_ok_of(*tir, *own, snap_co);
        snap_co.lemma_view();
    }
    let mut scratch = DiagSink::new();
    let mut scratch_sc = FunctionSidecar::new(sc.name);
    let ghost start1 = walk_state(*own, scratch.items(), scratch_sc);
    assert(start1 == (a.0, Seq::<DiagView>::empty(), Seq::<FreePoint>::empty(), Map::<TirRef, TirRef>::empty(), Map::<TirRef, IfBranchIds>::empty()));
    proof {
        assert(keys_outside(scratch_sc.if_branches@, reach_seq(*tir, body@)));
        assert(gated_ok(scratch_sc.free_schedule@, scratch_sc.if_branches@));
    }
    analyze_block(tir, pool, own, &mut scratch, &mut scratch_sc, body, parent);
    let ghost p1 = walk_state(*own, scratch.items(), scratch_sc);
    let ghost tr1 = choose|t: WalkTree| #[trigger] block_rel(*tir, *pool, start1, p1, parent, body@, t);
    let after_states = own.states.copy();
    let after_co = own.current_owner.copy();
    let after_pending = own.pending_dead_store.copy();
    if states_differ_snapshot(&snap_states, &after_states) {
        merge_non_monotone(own, &snap_states, &after_states, &snap_co, &after_co, &snap_pending, &after_pending);
        proof {
            lemma_join_states_ok(*tir, snap_states@, after_states@);
            lemma_loop_override_ok(*tir, join_states(snap_states@, after_states@), snap_co.seq(), snap_states@, after_states@, after_co@);
            lemma_branch_ids_mono(sc0, own0.next_branch_id, own.next_branch_id);
        }
        let ghost own_m = *own;
        let ghost start2 = walk_state(*own, sink.items(), *sc);
        assert(start2 == (loop_merge(a.0, p1.0, order), a.1, a.2, a.3, a.4));
        analyze_block(tir, pool, own, sink, sc, body, parent);
        let ghost p2 = walk_state(*own, sink.items(), *sc);
        let ghost tr2 = choose|t: WalkTree| #[trigger] block_rel(*tir, *pool, start2, p2, parent, body@, t);
        let states2 = own.states.copy();
        let co2 = own.current_owner.copy();
        let pending2 = own.pending_dead_store.copy();
        merge_non_monotone(own, &snap_states, &states2, &snap_co, &co2, &snap_pending, &pending2);
        proof {
            lemma_join_states_ok(*tir, snap_states@, states2@);
            lemma_loop_override_ok(*tir, join_states(snap_states@, states2@), snap_co.seq(), snap_states@, states2@, co2@);
            lemma_fresh_ids_trans(sc0.if_branches@, sc0.if_branches@, sc.if_branches@, own0.next_branch_id, own_m.next_branch_id);
            let t = WalkTree::Loop(order, p1, p2, seq![tr1, tr2]);
            assert(walk_state(*own, sink.items(), *sc) == (loop_merge(a.0, p2.0, order), p2.1, p2.2, p2.3, p2.4));
            assert(loop_rel(*tir, *pool, a, walk_state(*own, sink.items(), *sc), parent, body@, t));
        }
    } else {
        let ghost scratch_items = scratch.items();
        let ghost first = scratch_sc;
        proof {
            assert(first.if_branches@ == p1.4);
            lemma_union_ids_ok(sc0.if_branches@, first.if_branches@, own0.next_branch_id, own.next_branch_id);
            lemma_branch_ids_mono(sc0, own0.next_branch_id, own.next_branch_id);
        }
        sink.absorb(scratch);
        sc.absorb(scratch_sc);
        merge_non_monotone(own, &snap_states, &after_states, &snap_co, &after_co, &snap_pending, &after_pending);
        proof {
            lemma_join_states_ok(*tir, snap_states@, after_states@);
            lemma_loop_override_ok(*tir, join_states(snap_states@, after_states@), snap_co.seq(), snap_states@, after_states@, after_co@);
            assert forall|i: int| 0 <= i < sc.free_schedule@.len() implies fp_ok(*tir, #[trigger] sc.free_schedule@[i]) by {
                if i < sc0.free_schedule@.len() {
                    assert(sc.free_schedule@[i] == sc0.free_schedule@[i]);
                } else {
                    assert(sc.free_schedule@[i] == first.free_schedule@[i - sc0.free_schedule@.len()]);
                }
            }
            assert forall|k: TirRef| #[trigger] sc.free_on_reassign@.contains_key(k) implies tir.valid_ref(k) && target_ok(*tir, sc.free_on_reassign@[k]) by {
                if first.free_on_reassign@.contains_key(k) {
                    assert(sc.free_on_reassign@[k] == first.free_on_reassign@[k]);
                } else {
                    assert(sc.free_on_reassign@[k] == sc0.free_on_reassign@[k]);
                }
            }
            assert forall|k: TirRef| #![trigger sc.if_branches@.contains_key(k)] k.0 >= parent.0 implies (sc.if_branches@.contains_key(k) == sc0.if_branches@.contains_key(k) && (sc0.if_branches@.contains_key(k) ==> sc.if_branches@[k] == sc0.if_branches@[k])) by {
                assert(!first.if_branches@.contains_key(k));
            }
            if tree_shaped(*tir) {
                let m0 = sc0.if_branches@;
                let m1 = first.if_branches@;
                let u = sc.if_branches@;
                assert(u == m0.union_prefer_right(m1));
                assert forall|k: TirRef| #[trigger] m0.contains_key(k) implies u.contains_key(k) && u[k] == m0[k] by {
                    assert(!m1.contains_key(k));
                }
                assert(entries_kept(m1, u));
                lemma_gated_ok_mono(sc0.free_schedule@, m0, u);
                lemma_gated_ok_mono(first.free_schedule@, m1, u);
                lemma_gated_ok_concat(sc0.free_schedule@, first.free_schedule@, u);
                assert(keys_within(m0, u, reach_seq(*tir, body@)));
            }
            let t = WalkTree::Loop(order, p1, p1, seq![tr1, tr1]);
            assert(walk_state(*own, sink.items(), *sc) == (
                loop_merge(a.0, p1.0, order),
                a.1 + p1.1,
                a.2 + p1.2,
                a.3.union_prefer_right(p1.3),
                a.4.union_prefer_right(p1.4),
            ));
            assert(loop_rel(*tir, *pool, a, walk_state(*own, sink.items(), *sc), parent, body@, t));
        }
    }
}

/// `while`: the condition, then the body to its fixed point.
pub fn analyze_while_loop(
    tir: &Tir,
    pool: &InternPool,
    own: &mut Ownership,
    sink: &mut DiagSink,
    sc: &mut FunctionSidecar,
    r: TirRef,
)
    requires
        tree_pre(*tir, *old(sc), reach(*tir, r)),
        stmt_pre(*tir, *pool, *old(own), *old(sc), need_stmt(*tir, r)),
        tir.valid_ref(r),
        tir.spec_inst(r).tag == TirTag::WhileLoop,
    ensures
        tree_post(*tir, *old(sc), *final(sc), reach(*tir, r)),
        stmt_post(*tir, *old(own), *final(own), *old(sc), *final(sc), old(sink).items(), final(sink).items(), need_stmt(*tir, r), r.0 + 1),
        exists|t: WalkTree|
            #[trigger] stmt_rel(
                *tir,
                *pool,
                walk_state(*old(own), old(sink).items(), *old(sc)),
                walk_state(*final(own), final(sink).items(), *final(sc)),
                r,
                t,
            ),
    decreases r.0, 2nat,
{
    let view = tir.while_loop_view(r);
    proof {
        tir.lemma_payload_below(r);
        assert forall|j: int| 0 <= j < view.body@.len() implies tir.valid_ref(#[trigger] view.body@[j]) by {
            assert(view.body@[j].0 < r.0);
        }
    }
    let ghost a = walk_state(*own, sink.items(), *sc);
    visit_expr(tir, pool, own, sink, view.cond);
    let ghost c = walk_state(*own, sink.items(), *sc);
    let ghost sc0 = *sc;
    proof {
        if tree_shaped(*tir) {
            assert(tir.spec_inst(r).data is Extra) by {
                tir.lemma_inline_below(r);
            }
            lemma_loop_reach(*tir, r, view.body@);
            assert(list_disjoint(*tir, view.body@));
        }
    }
    analyze_loop_body(tir, pool, own, sink, sc, &view.body, r);
    proof {
        if tree_shaped(*tir) {
            lemma_keys_within_trans(sc0.if_branches@, sc0.if_branches@, sc.if_branches@, reach(*tir, r), reach_seq(*tir, view.body@), reach(*tir, r));
        }
        let b = walk_state(*own, sink.items(), *sc);
        let t = choose|t: WalkTree| #[trigger] loop_rel(*tir, *pool, c, b, r, view.body@, t);
        assert(stmt_rel(*tir, *pool, a, b, r, t));
    }
}

/// `for i in range(start, end)`: the bounds (plain `int`s), then the body
/// to its fixed point; the induction variable is `Copy` and never
/// tracked.
pub fn analyze_for_range(
    tir: &Tir,
    pool: &InternPool,
    own: &mut Ownership,
    sink: &mut DiagSink,
    sc: &mut FunctionSidecar,
    r: TirRef,
)
    requires
        tree_pre(*tir, *old(sc), reach(*tir, r)),
        stmt_pre(*tir, *pool, *old(own), *old(sc), need_stmt(*tir, r)),
        tir.valid_ref(r),
        tir.spec_inst(r).tag == TirTag::ForRange,
    ensures
        tree_post(*tir, *old(sc), *final(sc), reach(*tir, r)),
        stmt_post(*tir, *old(own), *final(own), *old(sc), *final(sc), old(sink).items(), final(sink).items(), need_stmt(*tir, r), r.0 + 1),
        exists|t: WalkTree|
            #[trigger] stmt_rel(
                *tir,
                *pool,
                walk_state(*old(own), old(sink).items(), *old(sc)),
                walk_state(*final(own), final(sink).items(), *final(sc)),
                r,
                t,
            ),
    decreases r.0, 2nat,
{
    let view = tir.for_range_view(r);
    proof {
        tir.lemma_payload_below(r);
        assert forall|j: int| 0 <= j < view.body@.len() implies tir.valid_ref(#[trigger] view.body@[j]) by {
            assert(view.body@[j].0 < r.0);
        }
    }
    let ghost a = walk_state(*own, sink.items(), *sc);
    visit_expr(tir, pool, own, sink, view.start);
    visit_expr(tir, pool, own, sink, view.end);
    let ghost c = walk_state(*own, sink.items(), *sc);
    let ghost sc0 = *sc;
    proof {
        if tree_shaped(*tir) {
            assert(tir.spec_inst(r).data is Extra) by {
                tir.lemma_inline_below(r);
            }
            lemma_loop_reach(*tir, r, view.body@);
            assert(list_disjoint(*tir, view.body@));
        }
    }
    analyze_loop_body(tir, pool, own, sink, sc, &view.body, r);
    proof {
        if tree_shaped(*tir) {
            lemma_keys_within_trans(sc0.if_branches@, sc0.if_branches@, sc.if_branches@, reach(*tir, r), reach_seq(*tir, view.body@), reach(*tir, r));
        }
        let b = walk_state(*own, sink.items(), *sc);
        let t = choose|t: WalkTree| #[trigger] loop_rel(*tir, *pool, c, b, r, view.body@, t);
        assert(stmt_rel(*tir, *pool, a, b, r, t));
    }
}

} // verus!
