//! Shape of the IR as the post-walk analyses see it: the direct edges of
//! an instruction, and the set of instructions reachable from one.
use vstd::prelude::*;
use crate::tir::{Tir, TirRef, TirData, TirTag, Edge, ChildKind, ElifArm, Extra, body_edges, operand_edges, elif_edges, opt_stmts};
use crate::vecmap::VecMap;
use crate::ownership::lattice::Unit;

verus! {

pub type RefSet = VecMap<TirRef, Unit>;

fn push_edges(v: &mut Vec<Edge>, stmts: &Vec<TirRef>, kind: ChildKind)
    ensures
        final(v)@ == old(v)@ + stmts@.map_values(|s: TirRef| (s, kind)),
{
    let ghost base = v@;
    let mut i: usize = 0;
    while i < stmts.len()
        invariant
            i <= stmts@.len(),
            v@ == base + stmts@.take(i as int).map_values(|s: TirRef| (s, kind)),
        decreases stmts@.len() - i,
    {
        v.push((stmts[i], kind));
        assert(stmts@.take(i + 1).map_values(|s: TirRef| (s, kind)) =~= stmts@.take(i as int).map_values(
            |s: TirRef| (s, kind),
        ).push((stmts@[i as int], kind)));
        i = i + 1;
    }
    assert(stmts@.take(stmts@.len() as int) =~= stmts@);
}

proof fn lemma_body_edges(s: Seq<TirRef>)
    ensures
        s.map_values(|x: TirRef| (x, ChildKind::BodyStmt)) == body_edges(s),
        s.map_values(|x: TirRef| (x, ChildKind::Operand)) == operand_edges(s),
{
    assert(s.map_values(|x: TirRef| (x, ChildKind::BodyStmt)) =~= body_edges(s));
    assert(s.map_values(|x: TirRef| (x, ChildKind::Operand)) =~= operand_edges(s));
}

/// Every direct operand and body-statement edge of `r`, in forward source
/// order. Shallow: callers drive any recursion.
pub fn walk_operands(tir: &Tir, r: TirRef) -> (v: Vec<Edge>)
    requires
        tir.wf(),
        tir.valid_ref(r),
    ensures
        v@ == tir.children(r),
{
    let inst = *tir.inst(r);
    let mut v: Vec<Edge> = Vec::new();
    match inst.data {
        TirData::UnOp(o) => {
            v.push((o, ChildKind::Operand));
            assert(v@ =~= tir.children(r));
        },
        TirData::BinOp { lhs, rhs } => {
            v.push((lhs, ChildKind::Operand));
            v.push((rhs, ChildKind::Operand));
            assert(v@ =~= tir.children(r));
        },
        TirData::Extra(_) => {
            assert(tir.inst_wf(r.0 as int));
            match inst.tag {
                TirTag::Call => {
                    let view = tir.call_view(r);
                    push_edges(&mut v, &view.args, ChildKind::Operand);
                    proof {
                        lemma_body_edges(view.args@);
                    }
                    assert(v@ =~= tir.children(r));
                },
                TirTag::VarDecl => {
                    let view = tir.var_decl_view(r);
                    v.push((view.initializer, ChildKind::Operand));
                    assert(v@ =~= tir.children(r));
                },
                TirTag::Assign => {
                    let view = tir.assign_view(r);
                    v.push((view.value, ChildKind::Operand));
                    assert(v@ =~= tir.children(r));
                },
                TirTag::CompoundAssign => {
                    let view = tir.compound_assign_view(r);
                    v.push((view.value, ChildKind::Operand));
                    assert(v@ =~= tir.children(r));
                },
                TirTag::IfStmt => {
                    let view = tir.if_stmt_view(r);
                    v.push((view.cond, ChildKind::Operand));
                    push_edges(&mut v, &view.then_stmts, ChildKind::BodyStmt);
                    proof {
                        lemma_body_edges(view.then_stmts@);
                    }
                    let ghost base = v@;
                    let mut i: usize = 0;
                    assert(view.elif_branches@.take(0) =~= Seq::<ElifArm>::empty());
                    assert(v@ =~= base + elif_edges(view.elif_branches@.take(0)));
                    while i < view.elif_branches.len()
                        invariant
                            i <= view.elif_branches@.len(),
                            v@ == base + elif_edges(view.elif_branches@.take(i as int)),
                        decreases view.elif_branches@.len() - i,
                    {
                        let arm = &view.elif_branches[i];
                        let ghost before = v@;
                        v.push((arm.cond, ChildKind::Operand));
                        push_edges(&mut v, &arm.body, ChildKind::BodyStmt);
                        proof {
                            lemma_body_edges(arm.body@);
                            let t = view.elif_branches@.take(i + 1);
                            assert(t.drop_last() =~= view.elif_branches@.take(i as int));
                            assert(t.last() == *arm);
                            assert(v@ =~= base + elif_edges(t));
                        }
                        i = i + 1;
                    }
                    assert(view.elif_branches@.take(view.elif_branches@.len() as int)
                        =~= view.elif_branches@);
                    match &view.else_stmts {
                        Some(e) => {
                            push_edges(&mut v, e, ChildKind::BodyStmt);
                            proof {
                                lemma_body_edges(e@);
                            }
                        },
                        None => {
                            assert(body_edges(opt_stmts(view.else_stmts)) =~= Seq::<Edge>::empty());
                        },
                    }
                    assert(v@ =~= tir.children(r));
                },
                TirTag::WhileLoop => {
                    let view = tir.while_loop_view(r);
                    v.push((view.cond, ChildKind::Operand));
                    push_edges(&mut v, &view.body, ChildKind::BodyStmt);
                    proof {
                        lemma_body_edges(view.body@);
                    }
                    assert(v@ =~= tir.children(r));
                },
                TirTag::ForRange => {
                    let view = tir.for_range_view(r);
                    v.push((view.start, ChildKind::Operand));
                    v.push((view.end, ChildKind::Operand));
                    push_edges(&mut v, &view.body, ChildKind::BodyStmt);
                    proof {
                        lemma_body_edges(view.body@);
                    }
                    assert(v@ =~= tir.children(r));
                },
                _ => {
                    assert(false);
                },
            }
        },
        _ => {
            assert(v@ =~= tir.children(r));
        },
    }
    v
}

// ---------- Reachability ----------

/// Instructions reachable from `r` through operand and body edges,
/// including `r`.
pub open spec fn reach(tir: Tir, r: TirRef) -> Set<TirRef>
    decreases r.0, 1nat, 0nat,
{
    set![r].union(reach_list(tir, r, tir.children(r).len()))
}

/// Instructions reachable from the first `n` children of `parent`.
pub open spec fn reach_list(tir: Tir, parent: TirRef, n: nat) -> Set<TirRef>
    decreases parent.0, 0nat, n,
{
    if n == 0 || n > tir.children(parent).len() {
        Set::empty()
    } else {
        let c = tir.children(parent)[n - 1].0;
        reach_list(tir, parent, (n - 1) as nat).union(
            if c.0 < parent.0 {
                reach(tir, c)
            } else {
                Set::empty()
            },
        )
    }
}

pub proof fn lemma_reach_list_mem(tir: Tir, parent: TirRef, n: nat, x: TirRef)
    requires
        n <= tir.children(parent).len(),
    ensures
        reach_list(tir, parent, n).contains(x) <==> exists|j: int|
            0 <= j < n && tir.children(parent)[j].0.0 < parent.0 && #[trigger] reach(
                tir,
                tir.children(parent)[j].0,
            ).contains(x),
    decreases n,
{
    if n > 0 {
        lemma_reach_list_mem(tir, parent, (n - 1) as nat, x);
        let c = tir.children(parent)[n - 1].0;
        if reach_list(tir, parent, n).contains(x) {
            if !reach_list(tir, parent, (n - 1) as nat).contains(x) {
                assert(0 <= n - 1 < n && tir.children(parent)[n - 1].0.0 < parent.0 && reach(
                    tir,
                    tir.children(parent)[n - 1].0,
                ).contains(x));
            }
        }
    }
}

/// Everything reachable from `r` sits at or below `r`.
pub proof fn lemma_reach_below(tir: Tir, r: TirRef, x: TirRef)
    requires
        reach(tir, r).contains(x),
    ensures
        x.0 <= r.0,
    decreases r.0,
{
    if x != r {
        lemma_reach_list_mem(tir, r, tir.children(r).len(), x);
        let j = choose|j: int|
            0 <= j < tir.children(r).len() && tir.children(r)[j].0.0 < r.0 && #[trigger] reach(
                tir,
                tir.children(r)[j].0,
            ).contains(x);
        lemma_reach_below(tir, tir.children(r)[j].0, x);
    }
}

/// Reachability is transitive.
pub proof fn lemma_reach_trans(tir: Tir, r: TirRef, x: TirRef, y: TirRef)
    requires
        reach(tir, r).contains(x),
        reach(tir, x).contains(y),
    ensures
        reach(tir, r).contains(y),
    decreases r.0,
{
    if x != r {
        lemma_reach_list_mem(tir, r, tir.children(r).len(), x);
        let j = choose|j: int|
            0 <= j < tir.children(r).len() && tir.children(r)[j].0.0 < r.0 && #[trigger] reach(
                tir,
                tir.children(r)[j].0,
            ).contains(x);
        let c = tir.children(r)[j].0;
        lemma_reach_trans(tir, c, x, y);
        lemma_reach_list_mem(tir, r, tir.children(r).len(), y);
    }
}

/// Every element of `s` at or below `bound` has its reachable set in `s`.
pub open spec fn closed_upto(tir: Tir, s: Set<TirRef>, bound: int) -> bool {
    forall|x: TirRef| #[trigger] s.contains(x) && x.0 <= bound ==> reach(tir, x).subset_of(s)
}

/// Add every instruction reachable from `r` to `set`.
pub fn collect_refs_recursive(tir: &Tir, r: TirRef, set: &mut RefSet)
    requires
        tir.wf(),
        tir.valid_ref(r),
        old(set).wf(),
        closed_upto(*tir, old(set)@.dom(), r.0 as int),
    ensures
        final(set).wf(),
        final(set)@.dom() == old(set)@.dom().union(reach(*tir, r)),
    decreases r.0,
{
    if set.contains_key(&r) {
        assert(reach(*tir, r).subset_of(set@.dom()));
        assert(set@.dom() =~= old(set)@.dom().union(reach(*tir, r)));
        return;
    }
    set.insert(r, ());
    let edges = walk_operands(tir, r);
    let mut i: usize = 0;
    assert(reach_list(*tir, r, 0) =~= Set::<TirRef>::empty());
    while i < edges.len()
        invariant
            tir.wf(),
            tir.valid_ref(r),
            edges@ == tir.children(r),
            i <= edges@.len(),
            set.wf(),
            set@.dom() == old(set)@.dom().insert(r).union(reach_list(*tir, r, i as nat)),
            closed_upto(*tir, old(set)@.dom(), r.0 as int),
        decreases edges@.len() - i,
    {
        let c = edges[i].0;
        proof {
            tir.lemma_child_lt(r, i as int);
            assert forall|x: TirRef| #[trigger] set@.dom().contains(x) && x.0 <= c.0 implies reach(
                *tir,
                x,
            ).subset_of(set@.dom()) by {
                if old(set)@.dom().contains(x) {
                } else {
                    assert(x != r);
                    lemma_reach_list_mem(*tir, r, i as nat, x);
                    let j = choose|j: int|
                        0 <= j < i && tir.children(r)[j].0.0 < r.0 && #[trigger] reach(
                            *tir,
                            tir.children(r)[j].0,
                        ).contains(x);
                    assert forall|y: TirRef| #[trigger] reach(*tir, x).contains(y) implies set@.dom().contains(y) by {
                        lemma_reach_trans(*tir, tir.children(r)[j].0, x, y);
                        lemma_reach_list_mem(*tir, r, i as nat, y);
                    }
                }
            }
        }
        collect_refs_recursive(tir, c, set);
        proof {
            assert(reach_list(*tir, r, (i + 1) as nat) == reach_list(*tir, r, i as nat).union(
                reach(*tir, c),
            ));
        }
        assert(set@.dom() =~= old(set)@.dom().insert(r).union(reach_list(*tir, r, (i + 1) as nat)));
        i = i + 1;
    }
    assert(set@.dom() =~= old(set)@.dom().union(reach(*tir, r)));
}

/// Body statements of a `while` / `for` instruction; `None` for any
/// other instruction.
pub fn loop_body(tir: &Tir, loop_inst: TirRef) -> (r: Option<Vec<TirRef>>)
    requires
        tir.wf(),
        tir.valid_ref(loop_inst),
    ensures
        match r {
            Some(v) => spec_loop_body(*tir, loop_inst) == Some(v@),
            None => spec_loop_body(*tir, loop_inst) is None,
        },
{
    match tir.inst(loop_inst).tag {
        TirTag::WhileLoop => Some(clone_refs(&tir.while_loop_view(loop_inst).body)),
        TirTag::ForRange => Some(clone_refs(&tir.for_range_view(loop_inst).body)),
        _ => None,
    }
}

pub open spec fn spec_loop_body(tir: Tir, loop_inst: TirRef) -> Option<Seq<TirRef>> {
    match tir.spec_extra(loop_inst) {
        Extra::WhileLoop(v) => if tir.spec_inst(loop_inst).tag == TirTag::WhileLoop {
            Some(v.body@)
        } else {
            None
        },
        Extra::ForRange(v) => if tir.spec_inst(loop_inst).tag == TirTag::ForRange {
            Some(v.body@)
        } else {
            None
        },
        _ => None,
    }
}

/// An element-for-element copy of a reference list.
pub fn clone_refs(v: &Vec<TirRef>) -> (r: Vec<TirRef>)
    ensures
        r@ == v@,
{
    let mut out: Vec<TirRef> = Vec::new();
    let mut i: usize = 0;
    while i < v.len()
        invariant
            i <= v@.len(),
            out@ == v@.take(i as int),
        decreases v@.len() - i,
    {
        out.push(v[i]);
        assert(out@ =~= v@.take(i + 1));
        i = i + 1;
    }
    assert(out@ =~= v@);
    out
}

} // verus!
