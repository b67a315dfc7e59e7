//! Post-walk analyses over the IR: which producers are bound to a name,
//! the consumer of every operand, the last read of every owner, and the
//! frees a `break` / `continue` needs on its way out of a loop.
use vstd::prelude::*;
use crate::types::InternPool;
use crate::tir::{Tir, TirRef, TirTag, TirData, Extra, ElifArm, IfStmtView, ChildKind, opt_stmts, refs_below, body_edges, elif_edges};
use crate::vecmap::VecMap;
use crate::ownership::lattice::{Ownership, Owner, OwnerState};
use crate::ownership::owners::{own_ok, needs_tracking, spec_needs_tracking};
use crate::ownership::sidecar::{FreePoint, FunctionSidecar, ungated_ext};
use crate::ownership::stmt::{sc_ok, fp_ok, fs_prefix};
use crate::ownership::walk::{
    RefSet, walk_operands, reach, closed_upto, collect_refs_recursive, loop_body, spec_loop_body,
    lemma_reach_trans, lemma_reach_list_mem, lemma_reach_below,
};

verus! {

// ---------- Named producers ----------

/// Producers bound to a name anywhere in statement `r`: the initializer
/// of every declaration and the value of every assignment, nested `if`
/// arms and loop bodies included.
pub open spec fn named_inits(tir: Tir, r: TirRef) -> Set<TirRef>
    decreases r.0, 2nat, 0nat,
{
    match tir.spec_inst(r).tag {
        TirTag::VarDecl => match tir.spec_extra(r) {
            Extra::VarDecl(v) => set![v.initializer],
            _ => Set::empty(),
        },
        TirTag::Assign => match tir.spec_extra(r) {
            Extra::Assign(v) => set![v.value],
            _ => Set::empty(),
        },
        TirTag::IfStmt => match tir.spec_extra(r) {
            Extra::IfStmt(v) => named_list(tir, r, v.then_stmts@).union(
                named_arms(tir, r, v.elif_branches@),
            ).union(named_list(tir, r, opt_stmts(v.else_stmts))),
            _ => Set::empty(),
        },
        TirTag::WhileLoop => match tir.spec_extra(r) {
            Extra::WhileLoop(v) => named_list(tir, r, v.body@),
            _ => Set::empty(),
        },
        TirTag::ForRange => match tir.spec_extra(r) {
            Extra::ForRange(v) => named_list(tir, r, v.body@),
            _ => Set::empty(),
        },
        _ => Set::empty(),
    }
}

pub open spec fn named_list(tir: Tir, parent: TirRef, s: Seq<TirRef>) -> Set<TirRef>
    decreases parent.0, 0nat, s.len(),
{
    if s.len() == 0 {
        Set::empty()
    } else {
        named_list(tir, parent, s.drop_last()).union(
            if s.last().0 < parent.0 {
                named_inits(tir, s.last())
            } else {
                Set::empty()
            },
        )
    }
}

pub open spec fn named_arms(tir: Tir, parent: TirRef, arms: Seq<ElifArm>) -> Set<TirRef>
    decreases parent.0, 1nat, arms.len(),
{
    if arms.len() == 0 {
        Set::empty()
    } else {
        named_arms(tir, parent, arms.drop_last()).union(named_list(tir, parent, arms.last().body@))
    }
}

fn collect_named_list(tir: &Tir, stmts: &Vec<TirRef>, parent: TirRef, set: &mut RefSet)
    requires
        tir.wf(),
        refs_below(stmts@, parent.0 as int),
        forall|j: int| 0 <= j < stmts@.len() ==> tir.valid_ref(#[trigger] stmts@[j]),
        old(set).wf(),
    ensures
        final(set).wf(),
        final(set)@.dom() == old(set)@.dom().union(named_list(*tir, parent, stmts@)),
    decreases parent.0, 1nat,
{
    let mut i: usize = 0;
    assert(stmts@.take(0) =~= Seq::<TirRef>::empty());
    assert(set@.dom() =~= old(set)@.dom().union(named_list(*tir, parent, stmts@.take(0))));
    while i < stmts.len()
        invariant
            i <= stmts@.len(),
            tir.wf(),
            refs_below(stmts@, parent.0 as int),
            forall|j: int| 0 <= j < stmts@.len() ==> tir.valid_ref(#[trigger] stmts@[j]),
            set.wf(),
            set@.dom() == old(set)@.dom().union(named_list(*tir, parent, stmts@.take(i as int))),
        decreases stmts@.len() - i,
    {
        let s = stmts[i];
        proof {
            let t = stmts@.take(i + 1);
            assert(t.drop_last() =~= stmts@.take(i as int));
            assert(t.last() == s);
            assert(s.0 < parent.0);
        }
        collect_named_inits_rec(tir, s, set);
        assert(set@.dom() =~= old(set)@.dom().union(named_list(*tir, parent, stmts@.take(i + 1))));
        i = i + 1;
    }
    assert(stmts@.take(stmts@.len() as int) =~= stmts@);
}

/// Add the named producers of statement `r` to `set`.
fn collect_named_inits_rec(tir: &Tir, r: TirRef, set: &mut RefSet)
    requires
        tir.wf(),
        tir.valid_ref(r),
        old(set).wf(),
    ensures
        final(set).wf(),
        final(set)@.dom() == old(set)@.dom().union(named_inits(*tir, r)),
    decreases r.0, 2nat,
{
    let tag = tir.inst(r).tag;
    match tag {
        TirTag::VarDecl => {
            let v = tir.var_decl_view(r);
            set.insert(v.initializer, ());
            assert(set@.dom() =~= old(set)@.dom().union(named_inits(*tir, r)));
        },
        TirTag::Assign => {
            let v = tir.assign_view(r);
            set.insert(v.value, ());
            assert(set@.dom() =~= old(set)@.dom().union(named_inits(*tir, r)));
        },
        TirTag::IfStmt => {
            let v = tir.if_stmt_view(r);
            proof {
                tir.lemma_payload_below(r);
                assert forall|j: int| 0 <= j < v.then_stmts@.len() implies tir.valid_ref(#[trigger] v.then_stmts@[j]) by {
                    assert(v.then_stmts@[j].0 < r.0);
                }
            }
            collect_named_list(tir, &v.then_stmts, r, set);
            let ghost after_then = set@.dom();
            let mut i: usize = 0;
            assert(v.elif_branches@.take(0) =~= Seq::<ElifArm>::empty());
            assert(set@.dom() =~= after_then.union(named_arms(*tir, r, v.elif_branches@.take(0))));
            while i < v.elif_branches.len()
                invariant
                    i <= v.elif_branches@.len(),
                    tir.wf(),
                    tir.valid_ref(r),
                    tir.spec_extra(r) == Extra::IfStmt(*v),
                    crate::tir::payload_below(Extra::IfStmt(*v), r.0 as int),
                    set.wf(),
                    set@.dom() == after_then.union(named_arms(*tir, r, v.elif_branches@.take(i as int))),
                decreases v.elif_branches@.len() - i,
            {
                let arm = &v.elif_branches[i];
                proof {
                    assert(refs_below(arm.body@, r.0 as int));
                    assert forall|j: int| 0 <= j < arm.body@.len() implies tir.valid_ref(#[trigger] arm.body@[j]) by {
                        assert(arm.body@[j].0 < r.0);
                    }
                    let t = v.elif_branches@.take(i + 1);
                    assert(t.drop_last() =~= v.elif_branches@.take(i as int));
                    assert(t.last() == *arm);
                }
                collect_named_list(tir, &arm.body, r, set);
                assert(set@.dom() =~= after_then.union(named_arms(*tir, r, v.elif_branches@.take(i + 1))));
                i = i + 1;
            }
            assert(v.elif_branches@.take(v.elif_branches@.len() as int) =~= v.elif_branches@);
            let ghost after_elifs = set@.dom();
            match &v.else_stmts {
                Some(es) => {
                    proof {
                        assert(opt_stmts(v.else_stmts) == es@);
                        assert forall|j: int| 0 <= j < es@.len() implies tir.valid_ref(#[trigger] es@[j]) by {
                            assert(es@[j].0 < r.0);
                        }
                    }
                    collect_named_list(tir, es, r, set);
                },
                None => {
                    assert(opt_stmts(v.else_stmts) =~= Seq::<TirRef>::empty());
                    assert(named_list(*tir, r, opt_stmts(v.else_stmts)) =~= Set::<TirRef>::empty());
                },
            }
            assert(set@.dom() =~= old(set)@.dom().union(named_inits(*tir, r)));
        },
        TirTag::WhileLoop => {
            let v = tir.while_loop_view(r);
            proof {
                tir.lemma_payload_below(r);
                assert forall|j: int| 0 <= j < v.body@.len() implies tir.valid_ref(#[trigger] v.body@[j]) by {
                    assert(v.body@[j].0 < r.0);
                }
            }
            collect_named_list(tir, &v.body, r, set);
        },
        TirTag::ForRange => {
            let v = tir.for_range_view(r);
            proof {
                tir.lemma_payload_below(r);
                assert forall|j: int| 0 <= j < v.body@.len() implies tir.valid_ref(#[trigger] v.body@[j]) by {
                    assert(v.body@[j].0 < r.0);
                }
            }
            collect_named_list(tir, &v.body, r, set);
        },
        _ => {
            assert(set@.dom() =~= old(set)@.dom().union(named_inits(*tir, r)));
        },
    }
}

/// The named producers of a function body (statements below `parent`).
pub fn collect_named_inits(tir: &Tir, stmts: &Vec<TirRef>, parent: TirRef) -> (set: RefSet)
    requires
        tir.wf(),
        refs_below(stmts@, parent.0 as int),
        forall|j: int| 0 <= j < stmts@.len() ==> tir.valid_ref(#[trigger] stmts@[j]),
    ensures
        set.wf(),
        set@.dom() == named_list(*tir, parent, stmts@),
{
    let mut set: RefSet = VecMap::new();
    collect_named_list(tir, stmts, parent, &mut set);
    assert(set@.dom() =~= named_list(*tir, parent, stmts@));
    set
}

// ---------- Consumers ----------

/// `m` after recording the operand edges under `r`, first consumer wins:
/// the children of `r` in order, each operand child not yet recorded
/// getting `r`, each child then walked in turn.
pub open spec fn consumers(tir: Tir, m: Map<TirRef, TirRef>, r: TirRef) -> Map<TirRef, TirRef>
    decreases r.0, 1nat, 0nat,
{
    consumers_upto(tir, m, r, tir.children(r).len())
}

pub open spec fn consumers_upto(tir: Tir, m: Map<TirRef, TirRef>, r: TirRef, n: nat) -> Map<
    TirRef,
    TirRef,
>
    decreases r.0, 0nat, n,
{
    if n == 0 || n > tir.children(r).len() {
        m
    } else {
        let m1 = consumers_upto(tir, m, r, (n - 1) as nat);
        let e = tir.children(r)[n - 1];
        let m2 = if e.1 == ChildKind::Operand && !m1.contains_key(e.0) {
            m1.insert(e.0, r)
        } else {
            m1
        };
        if e.0.0 < r.0 {
            consumers(tir, m2, e.0)
        } else {
            m2
        }
    }
}

/// Record the consumer of every operand under `r`.
pub fn find_consumers(tir: &Tir, r: TirRef, consumer_of: &mut VecMap<TirRef, TirRef>)
    requires
        tir.wf(),
        tir.valid_ref(r),
        old(consumer_of).wf(),
    ensures
        final(consumer_of).wf(),
        final(consumer_of)@ == consumers(*tir, old(consumer_of)@, r),
    decreases r.0,
{
    let edges = walk_operands(tir, r);
    let mut i: usize = 0;
    while i < edges.len()
        invariant
            tir.wf(),
            tir.valid_ref(r),
            edges@ == tir.children(r),
            i <= edges@.len(),
            consumer_of.wf(),
            consumer_of@ == consumers_upto(*tir, old(consumer_of)@, r, i as nat),
        decreases edges@.len() - i,
    {
        let (c, kind) = edges[i];
        proof {
            tir.lemma_child_lt(r, i as int);
        }
        let is_operand = match kind {
            ChildKind::Operand => true,
            ChildKind::BodyStmt => false,
        };
        if is_operand && !consumer_of.contains_key(&c) {
            consumer_of.insert(c, r);
        }
        find_consumers(tir, c, consumer_of);
        i = i + 1;
    }
}

// ---------- Last uses ----------

/// The owner instruction a tracked read `r` resolves to, if `r` is a read
/// of a move-typed binding recorded against an instruction owner.
pub open spec fn read_owner(tir: Tir, reads: Map<TirRef, Owner>, r: TirRef) -> Option<Owner> {
    let inst = tir.spec_inst(r);
    if inst.tag == TirTag::Var && inst.data is Var && spec_needs_tracking(inst.ty) && reads.contains_key(r) {
        Some(reads[r])
    } else {
        None
    }
}

/// `m` after a forward walk of `r`: every tracked read overwrites its
/// owner's entry, so the last read in source order wins.
pub open spec fn last_uses(tir: Tir, reads: Map<TirRef, Owner>, m: Map<Owner, TirRef>, r: TirRef) -> Map<
    Owner,
    TirRef,
>
    decreases r.0, 1nat, 0nat,
{
    let m1 = match read_owner(tir, reads, r) {
        Some(o) => m.insert(o, r),
        None => m,
    };
    last_uses_upto(tir, reads, m1, r, tir.children(r).len())
}

pub open spec fn last_uses_upto(
    tir: Tir,
    reads: Map<TirRef, Owner>,
    m: Map<Owner, TirRef>,
    r: TirRef,
    n: nat,
) -> Map<Owner, TirRef>
    decreases r.0, 0nat, n,
{
    if n == 0 || n > tir.children(r).len() {
        m
    } else {
        let m1 = last_uses_upto(tir, reads, m, r, (n - 1) as nat);
        let c = tir.children(r)[n - 1].0;
        if c.0 < r.0 {
            last_uses(tir, reads, m1, c)
        } else {
            m1
        }
    }
}

/// The tracked reads under `r`, each with the owner it reads, in walk
/// order: `r` itself first when it is one, then the reads under each of
/// its children in turn.
pub open spec fn reads_under(tir: Tir, reads: Map<TirRef, Owner>, r: TirRef) -> Seq<(Owner, TirRef)>
    decreases r.0, 1nat, 0nat,
{
    let own = match read_owner(tir, reads, r) {
        Some(o) => seq![(o, r)],
        None => Seq::empty(),
    };
    own + reads_under_upto(tir, reads, r, tir.children(r).len())
}

/// The tracked reads under the first `n` children of `r`, in walk order.
pub open spec fn reads_under_upto(tir: Tir, reads: Map<TirRef, Owner>, r: TirRef, n: nat) -> Seq<
    (Owner, TirRef),
>
    decreases r.0, 0nat, n,
{
    if n == 0 || n > tir.children(r).len() {
        Seq::empty()
    } else {
        let c = tir.children(r)[n - 1].0;
        reads_under_upto(tir, reads, r, (n - 1) as nat) + if c.0 < r.0 {
            reads_under(tir, reads, c)
        } else {
            Seq::empty()
        }
    }
}

/// `m` with the entries of `l` written into it in order.
pub open spec fn overwrite_all(m: Map<Owner, TirRef>, l: Seq<(Owner, TirRef)>) -> Map<Owner, TirRef>
    decreases l.len(),
{
    if l.len() == 0 {
        m
    } else {
        overwrite_all(m, l.drop_last()).insert(l.last().0, l.last().1)
    }
}

/// Some entry of `l` reads owner `o`.
pub open spec fn is_read_in(l: Seq<(Owner, TirRef)>, o: Owner) -> bool {
    exists|j: int| 0 <= j < l.len() && (#[trigger] l[j]).0 == o
}

/// `l[j]` reads owner `o` and no later entry of `l` does.
pub open spec fn is_last_read_of(l: Seq<(Owner, TirRef)>, o: Owner, j: int) -> bool {
    &&& 0 <= j < l.len()
    &&& l[j].0 == o
    &&& forall|k: int| j < k < l.len() ==> (#[trigger] l[k]).0 != o
}

pub proof fn lemma_overwrite_all_append(m: Map<Owner, TirRef>, a: Seq<(Owner, TirRef)>, b: Seq<(Owner, TirRef)>)
    ensures
        overwrite_all(m, a + b) == overwrite_all(overwrite_all(m, a), b),
    decreases b.len(),
{
    if b.len() == 0 {
        assert(a + b =~= a);
    } else {
        lemma_overwrite_all_append(m, a, b.drop_last());
        assert((a + b).drop_last() =~= a + b.drop_last());
        assert((a + b).last() == b.last());
    }
}

/// Writing the entries of `l` in order leaves, for each owner read in
/// `l`, the last read of it; every other owner keeps its entry of `m`.
pub proof fn lemma_overwrite_all_last(m: Map<Owner, TirRef>, l: Seq<(Owner, TirRef)>, o: Owner)
    ensures
        is_read_in(l, o) ==> overwrite_all(m, l).contains_key(o) && exists|j: int|
            is_last_read_of(l, o, j) && #[trigger] l[j].1 == overwrite_all(m, l)[o],
        !is_read_in(l, o) ==> (overwrite_all(m, l).contains_key(o) <==> m.contains_key(o)) && (
        m.contains_key(o) ==> overwrite_all(m, l)[o] == m[o]),
    decreases l.len(),
{
    if l.len() > 0 {
        let p = l.drop_last();
        lemma_overwrite_all_last(m, p, o);
        let last = l.len() - 1;
        if l.last().0 == o {
            assert(is_last_read_of(l, o, last));
            assert(l[last].1 == overwrite_all(m, l)[o]);
        } else if is_read_in(l, o) {
            let j0 = choose|j: int| 0 <= j < l.len() && (#[trigger] l[j]).0 == o;
            assert(j0 != last);
            assert(p[j0] == l[j0]);
            assert(is_read_in(p, o));
            let j = choose|j: int| is_last_read_of(p, o, j) && #[trigger] p[j].1 == overwrite_all(m, p)[o];
            assert(p[j] == l[j]);
            assert forall|k: int| j < k < l.len() implies (#[trigger] l[k]).0 != o by {
                if k < last {
                    assert(p[k] == l[k]);
                }
            }
            assert(is_last_read_of(l, o, j));
        } else {
            assert forall|j: int| 0 <= j < p.len() implies (#[trigger] p[j]).0 != o by {
                assert(p[j] == l[j]);
            }
        }
    }
}

/// The walk that records last uses writes the reads under `r` in walk
/// order.
pub proof fn lemma_last_uses_writes_reads(tir: Tir, reads: Map<TirRef, Owner>, m: Map<Owner, TirRef>, r: TirRef)
    ensures
        last_uses(tir, reads, m, r) == overwrite_all(m, reads_under(tir, reads, r)),
    decreases r.0, 1nat, 0nat,
{
    let own = match read_owner(tir, reads, r) {
        Some(o) => seq![(o, r)],
        None => Seq::<(Owner, TirRef)>::empty(),
    };
    let m1 = match read_owner(tir, reads, r) {
        Some(o) => m.insert(o, r),
        None => m,
    };
    assert(overwrite_all(m, own) == m1) by {
        match read_owner(tir, reads, r) {
            Some(o) => {
                assert(own.drop_last() =~= Seq::<(Owner, TirRef)>::empty());
                assert(overwrite_all(m, own.drop_last()) == m);
                assert(own.last() == (o, r));
            },
            None => {},
        }
    }
    let n = tir.children(r).len();
    lemma_last_uses_upto_writes_reads(tir, reads, m1, r, n);
    lemma_overwrite_all_append(m, own, reads_under_upto(tir, reads, r, n));
}

pub proof fn lemma_last_uses_upto_writes_reads(
    tir: Tir,
    reads: Map<TirRef, Owner>,
    m: Map<Owner, TirRef>,
    r: TirRef,
    n: nat,
)
    ensures
        last_uses_upto(tir, reads, m, r, n) == overwrite_all(m, reads_under_upto(tir, reads, r, n)),
    decreases r.0, 0nat, n,
{
    if n == 0 || n > tir.children(r).len() {
    } else {
        let prev = reads_under_upto(tir, reads, r, (n - 1) as nat);
        lemma_last_uses_upto_writes_reads(tir, reads, m, r, (n - 1) as nat);
        let m1 = last_uses_upto(tir, reads, m, r, (n - 1) as nat);
        let c = tir.children(r)[n - 1].0;
        if c.0 < r.0 {
            lemma_last_uses_writes_reads(tir, reads, m1, c);
            lemma_overwrite_all_append(m, prev, reads_under(tir, reads, c));
        } else {
            assert(prev + Seq::<(Owner, TirRef)>::empty() =~= prev);
        }
    }
}

/// The last use recorded for an owner is its last tracked read: for every
/// owner that some tracked read under `r` reads, the entry is such a read
/// and no read of that owner comes after it in walk order; an owner that
/// no read under `r` reads keeps the entry it had.
pub proof fn lemma_last_use_is_last_read(
    tir: Tir,
    reads: Map<TirRef, Owner>,
    m: Map<Owner, TirRef>,
    r: TirRef,
    o: Owner,
)
    ensures
        ({
            let l = reads_under(tir, reads, r);
            let res = last_uses(tir, reads, m, r);
            &&& is_read_in(l, o) ==> res.contains_key(o) && exists|j: int|
                is_last_read_of(l, o, j) && #[trigger] l[j].1 == res[o]
            &&& !is_read_in(l, o) ==> (res.contains_key(o) <==> m.contains_key(o)) && (
            m.contains_key(o) ==> res[o] == m[o])
        }),
{
    lemma_last_uses_writes_reads(tir, reads, m, r);
    lemma_overwrite_all_last(m, reads_under(tir, reads, r), o);
}

/// Record, for every owner, its last tracked read under `r`.
pub fn collect_last_uses(
    tir: &Tir,
    pool: &InternPool,
    own: &Ownership,
    r: TirRef,
    last_use: &mut VecMap<Owner, TirRef>,
)
    requires
        tir.wf(),
        tir.valid_ref(r),
        own.wf(),
        old(last_use).wf(),
    ensures
        final(last_use).wf(),
        final(last_use)@ == last_uses(*tir, own.owner_at_read@, old(last_use)@, r),
    decreases r.0,
{
    let inst = *tir.inst(r);
    let is_read = match (inst.tag, inst.data) {
        (TirTag::Var, TirData::Var(_)) => true,
        _ => false,
    };
    if is_read && needs_tracking(inst.ty, pool) {
        match own.owner_at_read.get(&r) {
            Some(owner) => {
                last_use.insert(*owner, r);
            },
            None => {},
        }
    }
    let ghost m1 = last_use@;
    assert(m1 == match read_owner(*tir, own.owner_at_read@, r) {
        Some(o) => old(last_use)@.insert(o, r),
        None => old(last_use)@,
    });
    let edges = walk_operands(tir, r);
    let mut i: usize = 0;
    while i < edges.len()
        invariant
            tir.wf(),
            tir.valid_ref(r),
            own.wf(),
            edges@ == tir.children(r),
            i <= edges@.len(),
            last_use.wf(),
            last_use@ == last_uses_upto(*tir, own.owner_at_read@, m1, r, i as nat),
        decreases edges@.len() - i,
    {
        let c = edges[i].0;
        proof {
            tir.lemma_child_lt(r, i as int);
        }
        collect_last_uses(tir, pool, own, c, last_use);
        i = i + 1;
    }
}

// ---------- Reachable sets ----------

/// Everything reachable from the statements of `s`.
pub open spec fn reach_seq(tir: Tir, s: Seq<TirRef>) -> Set<TirRef> {
    Set::new(|x: TirRef| exists|j: int| 0 <= j < s.len() && #[trigger] reach(tir, s[j]).contains(x))
}

/// A reachable set stays closed when another reachable set joins it.
pub proof fn lemma_closed_union(tir: Tir, s: Set<TirRef>, r: TirRef, b: int)
    requires
        closed_upto(tir, s, b),
    ensures
        closed_upto(tir, s.union(reach(tir, r)), b),
{
    let u = s.union(reach(tir, r));
    assert forall|x: TirRef| #[trigger] u.contains(x) && x.0 <= b implies reach(tir, x).subset_of(u) by {
        if !s.contains(x) {
            assert forall|y: TirRef| #[trigger] reach(tir, x).contains(y) implies u.contains(y) by {
                lemma_reach_trans(tir, r, x, y);
            }
        }
    }
}

/// Add everything reachable from the statements `stmts` to `set`.
pub fn collect_reach_list(tir: &Tir, stmts: &Vec<TirRef>, set: &mut RefSet)
    requires
        tir.wf(),
        forall|j: int| 0 <= j < stmts@.len() ==> tir.valid_ref(#[trigger] stmts@[j]),
        old(set).wf(),
        closed_upto(*tir, old(set)@.dom(), u32::MAX as int),
    ensures
        final(set).wf(),
        final(set)@.dom() == old(set)@.dom().union(reach_seq(*tir, stmts@)),
        closed_upto(*tir, final(set)@.dom(), u32::MAX as int),
{
    let mut i: usize = 0;
    assert(set@.dom() =~= old(set)@.dom().union(reach_seq(*tir, stmts@.take(0))));
    while i < stmts.len()
        invariant
            i <= stmts@.len(),
            tir.wf(),
            forall|j: int| 0 <= j < stmts@.len() ==> tir.valid_ref(#[trigger] stmts@[j]),
            set.wf(),
            set@.dom() == old(set)@.dom().union(reach_seq(*tir, stmts@.take(i as int))),
            closed_upto(*tir, set@.dom(), u32::MAX as int),
        decreases stmts@.len() - i,
    {
        let s = stmts[i];
        proof {
            lemma_closed_union(*tir, set@.dom(), s, u32::MAX as int);
        }
        collect_refs_recursive(tir, s, set);
        proof {
            let a = reach_seq(*tir, stmts@.take(i as int));
            let b = reach_seq(*tir, stmts@.take(i + 1));
            assert forall|x: TirRef| b.contains(x) <==> (a.contains(x) || #[trigger] reach(*tir, s).contains(x)) by {
                if b.contains(x) {
                    let j = choose|j: int| 0 <= j < i + 1 && #[trigger] reach(*tir, stmts@.take(i + 1)[j]).contains(x);
                    if j < i {
                        assert(stmts@.take(i as int)[j] == stmts@.take(i + 1)[j]);
                    }
                }
                if a.contains(x) {
                    let j = choose|j: int| 0 <= j < i && #[trigger] reach(*tir, stmts@.take(i as int)[j]).contains(x);
                    assert(stmts@.take(i as int)[j] == stmts@.take(i + 1)[j]);
                }
                if reach(*tir, s).contains(x) {
                    assert(stmts@.take(i + 1)[i as int] == s);
                }
            }
            assert(set@.dom() =~= old(set)@.dom().union(b));
        }
        i = i + 1;
    }
    assert(stmts@.take(stmts@.len() as int) =~= stmts@);
}

// ---------- Frees on `break` / `continue` ----------

/// A free that a jump adds: anchored on the jump itself, ungated, for an
/// instruction owner that is `Valid` at function exit.
pub open spec fn jump_free_ok(tir: Tir, own: Ownership, fp: FreePoint) -> bool {
    &&& fp.branch is None
    &&& tir.valid_ref(fp.after)
    &&& (tir.spec_inst(fp.after).tag == TirTag::Break || tir.spec_inst(fp.after).tag == TirTag::Continue)
    &&& fp.span == tir.spec_inst(fp.after).span
    &&& own.states@.contains_key(Owner::Inst(fp.target))
    &&& own.states@[Owner::Inst(fp.target)] == OwnerState::Valid
}

/// The frees added after position `n` of the schedule are jump frees.
pub open spec fn added_jump_frees(tir: Tir, own: Ownership, fs: Seq<FreePoint>, n: int) -> bool {
    forall|i: int| n <= i < fs.len() ==> jump_free_ok(tir, own, #[trigger] fs[i])
}

/// The jump path from statement `i` of `body` (nested under `parent`) on,
/// added to `s`: a statement before the one holding the jump counts in
/// full; the jump itself counts; an `if` holding it contributes through
/// [`jp_if`]; a loop holding it contributes nothing more; any other
/// statement holding it counts in full. Also whether the jump was found.
pub open spec fn jp_list(tir: Tir, body: Seq<TirRef>, target: TirRef, s: Set<TirRef>, parent: TirRef, i: int) -> (bool, Set<TirRef>)
    decreases parent.0, 2nat, body.len() - i,
{
    if i < 0 || i >= body.len() {
        (false, s)
    } else {
        let stmt = body[i];
        if stmt == target {
            (true, s.insert(target))
        } else if reach(tir, stmt).contains(target) {
            match tir.spec_inst(stmt).tag {
                TirTag::IfStmt => match tir.spec_extra(stmt) {
                    Extra::IfStmt(v) => if stmt.0 < parent.0 {
                        jp_if(tir, stmt, v, target, s)
                    } else {
                        (true, s)
                    },
                    _ => (true, s),
                },
                TirTag::WhileLoop | TirTag::ForRange => (true, s),
                _ => (true, s.union(reach(tir, stmt))),
            }
        } else {
            jp_list(tir, body, target, s.union(reach(tir, stmt)), parent, i + 1)
        }
    }
}

/// The jump path through `if` `stmt` (view `v`) holding the jump: the
/// `if` and its condition, then the path into the first arm holding the
/// jump, after the conditions of the `elif`s tried before it.
pub open spec fn jp_if(tir: Tir, stmt: TirRef, v: IfStmtView, target: TirRef, s: Set<TirRef>) -> (bool, Set<TirRef>)
    decreases stmt.0, 4nat, 0int,
{
    let s1 = s.insert(stmt).union(reach(tir, v.cond));
    if reach_seq(tir, v.then_stmts@).contains(target) {
        (true, jp_list(tir, v.then_stmts@, target, s1, stmt, 0).1)
    } else {
        jp_elifs(tir, stmt, v, target, s1, 0)
    }
}

/// The jump path from `elif` arm `k` of `if` `stmt` on (then the `else`).
pub open spec fn jp_elifs(tir: Tir, stmt: TirRef, v: IfStmtView, target: TirRef, s: Set<TirRef>, k: int) -> (bool, Set<TirRef>)
    decreases stmt.0, 3nat, v.elif_branches@.len() - k,
{
    if k < 0 || k >= v.elif_branches@.len() {
        match v.else_stmts {
            Some(es) => jp_list(tir, es@, target, s, stmt, 0),
            None => (true, s),
        }
    } else {
        let arm = v.elif_branches@[k];
        let s2 = s.union(reach(tir, arm.cond));
        if reach_seq(tir, arm.body@).contains(target) {
            (true, jp_list(tir, arm.body@, target, s2, stmt, 0).1)
        } else {
            jp_elifs(tir, stmt, v, target, s2, k + 1)
        }
    }
}

/// The instructions evaluated on the way from the start of `body` to the
/// jump `target`: every statement before the one holding the jump in
/// full, and for an `if` holding it, its condition, the conditions of the
/// `elif`s tried before the arm holding it, and that arm's path. Returns
/// whether the jump was found.
fn collect_jump_path(tir: &Tir, body: &Vec<TirRef>, target: TirRef, set: &mut RefSet, parent: TirRef) -> (found: bool)
    requires
        tir.wf(),
        refs_below(body@, parent.0 as int),
        forall|j: int| 0 <= j < body@.len() ==> tir.valid_ref(#[trigger] body@[j]),
        old(set).wf(),
        closed_upto(*tir, old(set)@.dom(), parent.0 - 1),
    ensures
        final(set).wf(),
        old(set)@.dom().subset_of(final(set)@.dom()),
        final(set)@.dom().subset_of(old(set)@.dom().union(reach_seq(*tir, body@))),
        (found, final(set)@.dom()) == jp_list(*tir, body@, target, old(set)@.dom(), parent, 0),
    decreases parent.0,
{
    let ghost s0 = set@.dom();
    let mut i: usize = 0;
    while i < body.len()
        invariant
            jp_list(*tir, body@, target, s0, parent, 0) == jp_list(*tir, body@, target, set@.dom(), parent, i as int),
            i <= body@.len(),
            tir.wf(),
            refs_below(body@, parent.0 as int),
            forall|j: int| 0 <= j < body@.len() ==> tir.valid_ref(#[trigger] body@[j]),
            set.wf(),
            closed_upto(*tir, set@.dom(), parent.0 - 1),
            s0 == old(set)@.dom(),
            s0.subset_of(set@.dom()),
            set@.dom().subset_of(s0.union(reach_seq(*tir, body@))),
        decreases body@.len() - i,
    {
        let stmt = body[i];
        proof {
            assert(stmt.0 < parent.0);
            assert(reach(*tir, body@[i as int]).contains(stmt));
        }
        if stmt == target {
            let ghost before = set@.dom();
            set.insert(target, ());
            proof {
                assert(reach_seq(*tir, body@).contains(stmt));
                assert(set@.dom() =~= before.insert(target));
                assert forall|x: TirRef| #[trigger] set@.dom().contains(x) implies s0.union(reach_seq(*tir, body@)).contains(x) by {
                    if x != target {
                        assert(before.contains(x));
                    }
                }
            }
            assert(set@.dom() =~= before.insert(target));
            return true;
        }
        let mut sub: RefSet = VecMap::new();
        collect_refs_recursive(tir, stmt, &mut sub);
        assert(sub@.dom().contains(target) == reach(*tir, stmt).contains(target));
        if sub.contains_key(&target) {
            let tag = tir.inst(stmt).tag;
            match tag {
                TirTag::IfStmt => {
                    let view = tir.if_stmt_view(stmt);
                    proof {
                        tir.lemma_payload_below(stmt);
                    }
                    let found = collect_jump_path_if(tir, body, i, view, target, set, parent);
                    return found;
                },
                TirTag::WhileLoop | TirTag::ForRange => {
                    return true;
                },
                _ => {
                    proof {
                        lemma_closed_union(*tir, set@.dom(), stmt, parent.0 - 1);
                    }
                    collect_refs_recursive(tir, stmt, set);
                    proof {
                        assert forall|x: TirRef| #[trigger] set@.dom().contains(x) implies s0.union(reach_seq(*tir, body@)).contains(x) by {
                            if reach(*tir, stmt).contains(x) {
                                assert(reach(*tir, body@[i as int]).contains(x));
                            }
                        }
                    }
                    return true;
                },
            }
        }
        proof {
            lemma_closed_union(*tir, set@.dom(), stmt, parent.0 - 1);
        }
        collect_refs_recursive(tir, stmt, set);
        proof {
            assert forall|x: TirRef| #[trigger] set@.dom().contains(x) implies s0.union(reach_seq(*tir, body@)).contains(x) by {
                if reach(*tir, stmt).contains(x) {
                    assert(reach(*tir, body@[i as int]).contains(x));
                }
            }
        }
        i = i + 1;
    }
    false
}

/// The `if` statement `body[i]` holds the jump: it and its condition are
/// on the path, then the path into the arm that holds the jump.
fn collect_jump_path_if(
    tir: &Tir,
    body: &Vec<TirRef>,
    i: usize,
    view: &crate::tir::IfStmtView,
    target: TirRef,
    set: &mut RefSet,
    parent: TirRef,
) -> (found: bool)
    requires
        tir.wf(),
        i < body@.len(),
        refs_below(body@, parent.0 as int),
        forall|j: int| 0 <= j < body@.len() ==> tir.valid_ref(#[trigger] body@[j]),
        tir.spec_inst(body@[i as int]).tag == TirTag::IfStmt,
        tir.spec_extra(body@[i as int]) == Extra::IfStmt(*view),
        crate::tir::payload_below(Extra::IfStmt(*view), body@[i as int].0 as int),
        old(set).wf(),
        closed_upto(*tir, old(set)@.dom(), parent.0 - 1),
    ensures
        final(set).wf(),
        old(set)@.dom().subset_of(final(set)@.dom()),
        final(set)@.dom().subset_of(old(set)@.dom().union(reach_seq(*tir, body@))),
        (found, final(set)@.dom()) == jp_if(*tir, body@[i as int], *view, target, old(set)@.dom()),
    decreases parent.0, 0nat,
{
    let stmt = body[i];
    let ghost s0 = set@.dom();
    let ghost rs = reach(*tir, stmt);
    proof {
        assert(stmt.0 < parent.0);
        lemma_if_reach(*tir, stmt, *view);
    }
    set.insert(stmt, ());
    proof {
        lemma_closed_union(*tir, set@.dom(), view.cond, stmt.0 - 1);
    }
    collect_refs_recursive(tir, view.cond, set);
    let mut then_sub: RefSet = VecMap::new();
    proof {
        assert forall|j: int| 0 <= j < view.then_stmts@.len() implies tir.valid_ref(#[trigger] view.then_stmts@[j]) by {
            assert(view.then_stmts@[j].0 < stmt.0);
        }
    }
    collect_reach_list(tir, &view.then_stmts, &mut then_sub);
    let ghost s1 = set@.dom();
    assert(s1 =~= s0.insert(stmt).union(reach(*tir, view.cond)));
    assert(then_sub@.dom() =~= reach_seq(*tir, view.then_stmts@));
    if then_sub.contains_key(&target) {
        let _ = collect_jump_path(tir, &view.then_stmts, target, set, stmt);
        proof {
            lemma_if_path_bound(*tir, body@, i as int, s0, set@.dom(), rs);
        }
        return true;
    }
    let mut k: usize = 0;
    while k < view.elif_branches.len()
        invariant
            k <= view.elif_branches@.len(),
            tir.wf(),
            stmt.0 < parent.0,
            tir.valid_ref(stmt),
            crate::tir::payload_below(Extra::IfStmt(*view), stmt.0 as int),
            forall|x: TirRef| #[trigger] rs.contains(x) ==> x.0 <= stmt.0,
            forall|a: int| 0 <= a < view.elif_branches@.len() ==> reach(*tir, (#[trigger] view.elif_branches@[a]).cond).subset_of(rs)
                && reach_seq(*tir, view.elif_branches@[a].body@).subset_of(rs),
            set.wf(),
            closed_upto(*tir, set@.dom(), stmt.0 - 1),
            s0.subset_of(set@.dom()),
            set@.dom().subset_of(s0.union(rs)),
            i < body@.len(),
            s0 == old(set)@.dom(),
            stmt == body@[i as int],
            rs == reach(*tir, body@[i as int]),
            jp_if(*tir, stmt, *view, target, s0) == jp_elifs(*tir, stmt, *view, target, set@.dom(), k as int),
        decreases view.elif_branches@.len() - k,
    {
        let arm = &view.elif_branches[k];
        proof {
            assert(reach(*tir, arm.cond).subset_of(rs));
            lemma_closed_union(*tir, set@.dom(), arm.cond, stmt.0 - 1);
        }
        collect_refs_recursive(tir, arm.cond, set);
        let mut elif_sub: RefSet = VecMap::new();
        proof {
            assert(refs_below(arm.body@, stmt.0 as int));
            assert forall|j: int| 0 <= j < arm.body@.len() implies tir.valid_ref(#[trigger] arm.body@[j]) by {
                assert(arm.body@[j].0 < stmt.0);
            }
        }
        collect_reach_list(tir, &arm.body, &mut elif_sub);
        assert(elif_sub@.dom() =~= reach_seq(*tir, arm.body@));
        if elif_sub.contains_key(&target) {
            let ghost before = set@.dom();
            let _ = collect_jump_path(tir, &arm.body, target, set, stmt);
            proof {
                assert(s0.subset_of(set@.dom()));
                assert(set@.dom().subset_of(s0.union(rs)));
                lemma_if_path_bound(*tir, body@, i as int, s0, set@.dom(), rs);
            }
            return true;
        }
        k = k + 1;
    }
    match &view.else_stmts {
        Some(es) => {
            proof {
                assert(opt_stmts(view.else_stmts) == es@);
                assert forall|j: int| 0 <= j < es@.len() implies tir.valid_ref(#[trigger] es@[j]) by {
                    assert(es@[j].0 < stmt.0);
                }
            }
            let r = collect_jump_path(tir, es, target, set, stmt);
            proof {
                lemma_if_path_bound(*tir, body@, i as int, s0, set@.dom(), rs);
            }
            r
        },
        None => {
            proof {
                lemma_if_path_bound(*tir, body@, i as int, s0, set@.dom(), rs);
            }
            true
        },
    }
}

proof fn lemma_contains_concat<A>(s1: Seq<A>, s2: Seq<A>, x: A)
    ensures
        s1.contains(x) ==> (s1 + s2).contains(x),
        s2.contains(x) ==> (s1 + s2).contains(x),
{
    if s1.contains(x) {
        let i = choose|i: int| 0 <= i < s1.len() && s1[i] == x;
        assert((s1 + s2)[i] == x);
    }
    if s2.contains(x) {
        let i = choose|i: int| 0 <= i < s2.len() && s2[i] == x;
        assert((s1 + s2)[s1.len() + i] == x);
    }
}

proof fn lemma_body_edges_contains(s: Seq<TirRef>, j: int)
    requires
        0 <= j < s.len(),
    ensures
        body_edges(s).contains((s[j], ChildKind::BodyStmt)),
{
    assert(body_edges(s)[j] == (s[j], ChildKind::BodyStmt));
}

proof fn lemma_elif_edges_contains(arms: Seq<ElifArm>, a: int)
    requires
        0 <= a < arms.len(),
    ensures
        elif_edges(arms).contains((arms[a].cond, ChildKind::Operand)),
        forall|j: int| 0 <= j < arms[a].body@.len() ==> elif_edges(arms).contains((#[trigger] arms[a].body@[j], ChildKind::BodyStmt)),
    decreases arms.len(),
{
    let init = elif_edges(arms.drop_last());
    let tail = seq![(arms.last().cond, ChildKind::Operand)] + body_edges(arms.last().body@);
    assert(elif_edges(arms) == init + tail);
    if a == arms.len() - 1 {
        assert(tail[0] == (arms[a].cond, ChildKind::Operand));
        lemma_contains_concat(init, tail, (arms[a].cond, ChildKind::Operand));
        assert forall|j: int| 0 <= j < arms[a].body@.len() implies elif_edges(arms).contains((#[trigger] arms[a].body@[j], ChildKind::BodyStmt)) by {
            lemma_body_edges_contains(arms[a].body@, j);
            lemma_contains_concat(seq![(arms.last().cond, ChildKind::Operand)], body_edges(arms.last().body@), (arms[a].body@[j], ChildKind::BodyStmt));
            lemma_contains_concat(init, tail, (arms[a].body@[j], ChildKind::BodyStmt));
        }
    } else {
        lemma_elif_edges_contains(arms.drop_last(), a);
        assert(arms.drop_last()[a] == arms[a]);
        lemma_contains_concat(init, tail, (arms[a].cond, ChildKind::Operand));
        assert forall|j: int| 0 <= j < arms[a].body@.len() implies elif_edges(arms).contains((#[trigger] arms[a].body@[j], ChildKind::BodyStmt)) by {
            assert(init.contains((arms.drop_last()[a].body@[j], ChildKind::BodyStmt)));
            lemma_contains_concat(init, tail, (arms[a].body@[j], ChildKind::BodyStmt));
        }
    }
}

/// What a child reaches, its parent reaches.
proof fn lemma_child_reach(tir: Tir, r: TirRef, e: (TirRef, ChildKind))
    requires
        tir.wf(),
        tir.valid_ref(r),
        tir.children(r).contains(e),
    ensures
        reach(tir, e.0).subset_of(reach(tir, r)),
{
    let j = choose|j: int| 0 <= j < tir.children(r).len() && tir.children(r)[j] == e;
    tir.lemma_child_lt(r, j);
    assert forall|x: TirRef| #[trigger] reach(tir, e.0).contains(x) implies reach(tir, r).contains(x) by {
        lemma_reach_list_mem(tir, r, tir.children(r).len(), x);
        assert(reach(tir, tir.children(r)[j].0).contains(x));
    }
}

pub proof fn lemma_list_reach(tir: Tir, r: TirRef, s: Seq<TirRef>, edges: Seq<(TirRef, ChildKind)>)
    requires
        tir.wf(),
        tir.valid_ref(r),
        forall|j: int| 0 <= j < s.len() ==> edges.contains((#[trigger] s[j], ChildKind::BodyStmt)),
        forall|e: (TirRef, ChildKind)| #[trigger] edges.contains(e) ==> tir.children(r).contains(e),
    ensures
        reach_seq(tir, s).subset_of(reach(tir, r)),
{
    assert forall|x: TirRef| #[trigger] reach_seq(tir, s).contains(x) implies reach(tir, r).contains(x) by {
        let j = choose|j: int| 0 <= j < s.len() && #[trigger] reach(tir, s[j]).contains(x);
        assert(edges.contains((s[j], ChildKind::BodyStmt)));
        lemma_child_reach(tir, r, (s[j], ChildKind::BodyStmt));
    }
}

/// The body of a loop is reachable from it.
pub proof fn lemma_loop_reach(tir: Tir, stmt: TirRef, body: Seq<TirRef>)
    requires
        tir.wf(),
        tir.valid_ref(stmt),
        tir.spec_inst(stmt).data is Extra,
        (tir.spec_extra(stmt) matches Extra::WhileLoop(v) && v.body@ == body) || (tir.spec_extra(stmt) matches Extra::ForRange(v)
            && v.body@ == body),
    ensures
        reach_seq(tir, body).subset_of(reach(tir, stmt)),
{
    let b0 = body_edges(body);
    let a0 = tir.children(stmt).take(tir.children(stmt).len() - b0.len());
    assert(tir.children(stmt) == a0 + b0) by {
        match tir.spec_extra(stmt) {
            Extra::WhileLoop(v) => {
                assert(tir.children(stmt) == seq![(v.cond, ChildKind::Operand)] + b0);
            },
            Extra::ForRange(v) => {
                assert(tir.children(stmt) == seq![(v.start, ChildKind::Operand), (v.end, ChildKind::Operand)] + b0);
            },
            _ => {},
        }
        assert(tir.children(stmt) =~= a0 + b0);
    }
    assert forall|e: (TirRef, ChildKind)| #[trigger] b0.contains(e) implies tir.children(stmt).contains(e) by {
        lemma_contains_concat(a0, b0, e);
    }
    assert forall|j: int| 0 <= j < body.len() implies b0.contains((#[trigger] body[j], ChildKind::BodyStmt)) by {
        lemma_body_edges_contains(body, j);
    }
    lemma_list_reach(tir, stmt, body, b0);
}

/// Everything under an `if` is reachable from it and sits at or below it.
pub proof fn lemma_if_reach(tir: Tir, stmt: TirRef, view: crate::tir::IfStmtView)
    requires
        tir.wf(),
        tir.valid_ref(stmt),
        tir.spec_inst(stmt).tag == TirTag::IfStmt,
        tir.spec_extra(stmt) == Extra::IfStmt(view),
    ensures
        reach(tir, stmt).contains(stmt),
        forall|x: TirRef| #[trigger] reach(tir, stmt).contains(x) ==> x.0 <= stmt.0,
        reach(tir, view.cond).subset_of(reach(tir, stmt)),
        reach_seq(tir, view.then_stmts@).subset_of(reach(tir, stmt)),
        forall|a: int| 0 <= a < view.elif_branches@.len() ==> reach(tir, (#[trigger] view.elif_branches@[a]).cond).subset_of(reach(tir, stmt))
            && reach_seq(tir, view.elif_branches@[a].body@).subset_of(reach(tir, stmt)),
        reach_seq(tir, opt_stmts(view.else_stmts)).subset_of(reach(tir, stmt)),
{
    tir.lemma_inline_below(stmt);
    let a0 = seq![(view.cond, ChildKind::Operand)];
    let b0 = body_edges(view.then_stmts@);
    let c0 = elif_edges(view.elif_branches@);
    let d0 = body_edges(opt_stmts(view.else_stmts));
    assert(tir.children(stmt) == a0 + b0 + c0 + d0);
    assert forall|x: TirRef| #[trigger] reach(tir, stmt).contains(x) implies x.0 <= stmt.0 by {
        lemma_reach_below(tir, stmt, x);
    }
    // Every part of the `if` is among its children.
    assert forall|e: (TirRef, ChildKind)| #[trigger] a0.contains(e) implies tir.children(stmt).contains(e) by {
        lemma_contains_concat(a0, b0, e);
        lemma_contains_concat(a0 + b0, c0, e);
        lemma_contains_concat(a0 + b0 + c0, d0, e);
    }
    assert forall|e: (TirRef, ChildKind)| #[trigger] b0.contains(e) implies tir.children(stmt).contains(e) by {
        lemma_contains_concat(a0, b0, e);
        lemma_contains_concat(a0 + b0, c0, e);
        lemma_contains_concat(a0 + b0 + c0, d0, e);
    }
    assert forall|e: (TirRef, ChildKind)| #[trigger] c0.contains(e) implies tir.children(stmt).contains(e) by {
        lemma_contains_concat(a0 + b0, c0, e);
        lemma_contains_concat(a0 + b0 + c0, d0, e);
    }
    assert forall|e: (TirRef, ChildKind)| #[trigger] d0.contains(e) implies tir.children(stmt).contains(e) by {
        lemma_contains_concat(a0 + b0 + c0, d0, e);
    }
    assert(a0[0] == (view.cond, ChildKind::Operand));
    assert(a0.contains((view.cond, ChildKind::Operand)));
    lemma_child_reach(tir, stmt, (view.cond, ChildKind::Operand));
    assert forall|j: int| 0 <= j < view.then_stmts@.len() implies b0.contains((#[trigger] view.then_stmts@[j], ChildKind::BodyStmt)) by {
        lemma_body_edges_contains(view.then_stmts@, j);
    }
    lemma_list_reach(tir, stmt, view.then_stmts@, b0);
    assert forall|j: int| 0 <= j < opt_stmts(view.else_stmts).len() implies d0.contains((#[trigger] opt_stmts(view.else_stmts)[j], ChildKind::BodyStmt)) by {
        lemma_body_edges_contains(opt_stmts(view.else_stmts), j);
    }
    lemma_list_reach(tir, stmt, opt_stmts(view.else_stmts), d0);
    assert forall|a: int| 0 <= a < view.elif_branches@.len() implies reach(tir, (#[trigger] view.elif_branches@[a]).cond).subset_of(reach(tir, stmt))
        && reach_seq(tir, view.elif_branches@[a].body@).subset_of(reach(tir, stmt)) by {
        lemma_elif_edges_contains(view.elif_branches@, a);
        lemma_child_reach(tir, stmt, (view.elif_branches@[a].cond, ChildKind::Operand));
        lemma_list_reach(tir, stmt, view.elif_branches@[a].body@, c0);
    }
}

proof fn lemma_if_path_bound(tir: Tir, body: Seq<TirRef>, i: int, s0: Set<TirRef>, s: Set<TirRef>, rs: Set<TirRef>)
    requires
        0 <= i < body.len(),
        rs == reach(tir, body[i]),
        s.subset_of(s0.union(rs)),
    ensures
        s.subset_of(s0.union(reach_seq(tir, body))),
{
    assert forall|x: TirRef| #[trigger] s.contains(x) implies s0.union(reach_seq(tir, body)).contains(x) by {
        if rs.contains(x) {
            assert(reach(tir, body[i]).contains(x));
        }
    }
}

// ---------- Jump frees ----------

/// Targets of the scheduled frees anchored on an instruction of `anchors`.
pub open spec fn targets_where(fs: Seq<FreePoint>, anchors: Set<TirRef>) -> Set<TirRef> {
    Set::new(|t: TirRef| exists|i: int| 0 <= i < fs.len() && #[trigger] fs[i].target == t && anchors.contains(fs[i].after))
}

/// Targets of all scheduled frees.
pub open spec fn all_targets(fs: Seq<FreePoint>) -> Set<TirRef> {
    Set::new(|t: TirRef| exists|i: int| 0 <= i < fs.len() && #[trigger] fs[i].target == t)
}

/// Whether a jump must free owner `r` that is `Valid` at exit. An owner
/// allocated inside the loop is freed unless a free already fires on the
/// jump's path; a pre-loop owner only on `break`: when its last use is
/// inside the loop and no free fires on the path, or when it has no free
/// at all. On `continue` a pre-loop owner is never freed: the next
/// iteration reads it again.
pub open spec fn jump_needs_free(
    inside: Set<TirRef>,
    covers: Set<TirRef>,
    free_inside: Set<TirRef>,
    has_any: Set<TirRef>,
    is_break: bool,
    r: TirRef,
) -> bool {
    if inside.contains(r) {
        !covers.contains(r)
    } else if is_break && free_inside.contains(r) {
        !covers.contains(r)
    } else {
        is_break && !has_any.contains(r)
    }
}

/// The frees a jump adds, in the order of the lattice entries.
pub open spec fn jump_frees(
    entries: Seq<(Owner, OwnerState)>,
    jump: TirRef,
    span: crate::types::Span,
    inside: Set<TirRef>,
    covers: Set<TirRef>,
    free_inside: Set<TirRef>,
    has_any: Set<TirRef>,
    is_break: bool,
) -> Seq<FreePoint>
    decreases entries.len(),
{
    if entries.len() == 0 {
        Seq::empty()
    } else {
        let (o, st) = entries.last();
        jump_frees(entries.drop_last(), jump, span, inside, covers, free_inside, has_any, is_break) + if o is Inst
            && st == OwnerState::Valid && jump_needs_free(
            inside,
            covers,
            free_inside,
            has_any,
            is_break,
            o->Inst_0,
        ) {
            seq![FreePoint { after: jump, target: o->Inst_0, span, branch: None }]
        } else {
            Seq::empty()
        }
    }
}

proof fn lemma_targets_step(fs: Seq<FreePoint>, k: int, a: Set<TirRef>)
    requires
        0 <= k < fs.len(),
    ensures
        targets_where(fs.take(k + 1), a) == targets_where(fs.take(k), a).union(
            if a.contains(fs[k].after) {
                set![fs[k].target]
            } else {
                Set::empty()
            },
        ),
        all_targets(fs.take(k + 1)) == all_targets(fs.take(k)).insert(fs[k].target),
{
    let t1 = fs.take(k + 1);
    let t0 = fs.take(k);
    assert forall|t: TirRef| #[trigger] targets_where(t1, a).contains(t) implies targets_where(t0, a).contains(t) || (a.contains(fs[k].after) && t == fs[k].target) by {
        let i = choose|i: int| 0 <= i < t1.len() && #[trigger] t1[i].target == t && a.contains(t1[i].after);
        if i < k {
            assert(t0[i] == t1[i]);
        }
    }
    assert forall|t: TirRef| #[trigger] targets_where(t0, a).contains(t) implies targets_where(t1, a).contains(t) by {
        let i = choose|i: int| 0 <= i < t0.len() && #[trigger] t0[i].target == t && a.contains(t0[i].after);
        assert(t1[i] == t0[i]);
    }
    if a.contains(fs[k].after) {
        assert(t1[k] == fs[k]);
        assert(targets_where(t1, a).contains(fs[k].target));
    }
    assert(targets_where(t1, a) =~= targets_where(t0, a).union(
        if a.contains(fs[k].after) {
            set![fs[k].target]
        } else {
            Set::empty()
        },
    ));
    assert forall|t: TirRef| #[trigger] all_targets(t1).contains(t) implies all_targets(t0).contains(t) || t == fs[k].target by {
        let i = choose|i: int| 0 <= i < t1.len() && #[trigger] t1[i].target == t;
        if i < k {
            assert(t0[i] == t1[i]);
        }
    }
    assert forall|t: TirRef| #[trigger] all_targets(t0).contains(t) implies all_targets(t1).contains(t) by {
        let i = choose|i: int| 0 <= i < t0.len() && #[trigger] t0[i].target == t;
        assert(t1[i] == t0[i]);
    }
    assert(t1[k] == fs[k]);
    assert(all_targets(t1).contains(fs[k].target));
    assert(all_targets(t1) =~= all_targets(t0).insert(fs[k].target));
}

/// Every free a jump adds is anchored on the jump, ungated, and targets
/// an instruction owner the lattice entries list as `Valid`.
proof fn lemma_jump_frees_shape(
    es: Seq<(Owner, OwnerState)>,
    jump: TirRef,
    span: crate::types::Span,
    inside: Set<TirRef>,
    covers: Set<TirRef>,
    free_inside: Set<TirRef>,
    has_any: Set<TirRef>,
    is_break: bool,
)
    ensures
        forall|i: int| 0 <= i < jump_frees(es, jump, span, inside, covers, free_inside, has_any, is_break).len() ==> {
            let fp = #[trigger] jump_frees(es, jump, span, inside, covers, free_inside, has_any, is_break)[i];
            &&& fp.after == jump
            &&& fp.span == span
            &&& fp.branch is None
            &&& es.contains((Owner::Inst(fp.target), OwnerState::Valid))
        },
    decreases es.len(),
{
    if es.len() > 0 {
        lemma_jump_frees_shape(es.drop_last(), jump, span, inside, covers, free_inside, has_any, is_break);
        let a = jump_frees(es.drop_last(), jump, span, inside, covers, free_inside, has_any, is_break);
        let all = jump_frees(es, jump, span, inside, covers, free_inside, has_any, is_break);
        assert forall|i: int| 0 <= i < all.len() implies {
            let fp = #[trigger] all[i];
            &&& fp.after == jump
            &&& fp.span == span
            &&& fp.branch is None
            &&& es.contains((Owner::Inst(fp.target), OwnerState::Valid))
        } by {
            if i < a.len() {
                assert(all[i] == a[i]);
                let j = choose|j: int| 0 <= j < es.drop_last().len() && es.drop_last()[j] == (Owner::Inst(a[i].target), OwnerState::Valid);
                assert(es[j] == es.drop_last()[j]);
            } else {
                assert(es[es.len() - 1] == es.last());
            }
        }
    }
}

/// The schedule `fs` after the frees of `break` / `continue` `jump`
/// inside loop `l`, the exit lattice entries being `es`.
pub open spec fn lx_jump(tir: Tir, es: Seq<(Owner, OwnerState)>, fs: Seq<FreePoint>, jump: TirRef, l: TirRef) -> Seq<FreePoint> {
    match spec_loop_body(tir, l) {
        Some(body) => fs + jump_frees(
            es,
            jump,
            tir.spec_inst(jump).span,
            reach_seq(tir, body),
            targets_where(fs, jp_list(tir, body, jump, Set::empty(), l, 0).1),
            targets_where(fs, reach_seq(tir, body)),
            all_targets(fs),
            tir.spec_inst(jump).tag == TirTag::Break,
        ),
        None => fs,
    }
}

/// The schedule `fs` after the jump frees of every `break` / `continue`
/// in statement `r`, `enc` being the innermost loop around it.
pub open spec fn lx_stmt(tir: Tir, es: Seq<(Owner, OwnerState)>, fs: Seq<FreePoint>, r: TirRef, enc: Option<TirRef>) -> Seq<FreePoint>
    decreases r.0, 2nat, 0int,
{
    match tir.spec_inst(r).tag {
        TirTag::Break | TirTag::Continue => match enc {
            Some(l) => lx_jump(tir, es, fs, r, l),
            None => fs,
        },
        TirTag::WhileLoop => match tir.spec_extra(r) {
            Extra::WhileLoop(v) => lx_list(tir, es, fs, v.body@, r, Some(r), v.body@.len() as int),
            _ => fs,
        },
        TirTag::ForRange => match tir.spec_extra(r) {
            Extra::ForRange(v) => lx_list(tir, es, fs, v.body@, r, Some(r), v.body@.len() as int),
            _ => fs,
        },
        TirTag::IfStmt => match tir.spec_extra(r) {
            Extra::IfStmt(v) => {
                let f1 = lx_list(tir, es, fs, v.then_stmts@, r, enc, v.then_stmts@.len() as int);
                let f2 = lx_elifs(tir, es, f1, r, v, enc, v.elif_branches@.len() as int);
                let e = opt_stmts(v.else_stmts);
                lx_list(tir, es, f2, e, r, enc, e.len() as int)
            },
            _ => fs,
        },
        _ => fs,
    }
}

/// The jump frees of the first `k` `elif` bodies of `if` `r`.
pub open spec fn lx_elifs(
    tir: Tir,
    es: Seq<(Owner, OwnerState)>,
    fs: Seq<FreePoint>,
    r: TirRef,
    v: IfStmtView,
    enc: Option<TirRef>,
    k: int,
) -> Seq<FreePoint>
    decreases r.0, 1nat, k,
{
    if k <= 0 || k > v.elif_branches@.len() {
        fs
    } else {
        let f = lx_elifs(tir, es, fs, r, v, enc, k - 1);
        let b = v.elif_branches@[k - 1].body@;
        lx_list(tir, es, f, b, r, enc, b.len() as int)
    }
}

/// The jump frees of the first `k` statements of `stmts` (nested under
/// `parent`).
pub open spec fn lx_list(
    tir: Tir,
    es: Seq<(Owner, OwnerState)>,
    fs: Seq<FreePoint>,
    stmts: Seq<TirRef>,
    parent: TirRef,
    enc: Option<TirRef>,
    k: int,
) -> Seq<FreePoint>
    decreases parent.0, 0nat, k,
{
    if k <= 0 || k > stmts.len() {
        fs
    } else {
        let f = lx_list(tir, es, fs, stmts, parent, enc, k - 1);
        if stmts[k - 1].0 < parent.0 {
            lx_stmt(tir, es, f, stmts[k - 1], enc)
        } else {
            f
        }
    }
}

/// Frees for the `break` / `continue` `jump_inst` inside loop
/// `loop_inst`, by the rule of `jump_needs_free` over the frees scheduled
/// so far: "inside the loop" is reachability from the loop body, "on the
/// path" is the returned set of instructions evaluated before the jump.
fn schedule_break_continue_frees(
    tir: &Tir,
    own: &Ownership,
    sc: &mut FunctionSidecar,
    jump_inst: TirRef,
    loop_inst: TirRef,
) -> (on_path: Ghost<Set<TirRef>>)
    requires
        tir.wf(),
        own_ok(*own, *tir),
        sc_ok(*tir, *old(sc)),
        tir.valid_ref(jump_inst),
        tir.valid_ref(loop_inst),
        tir.spec_inst(jump_inst).tag == TirTag::Break || tir.spec_inst(jump_inst).tag == TirTag::Continue,
    ensures
        ungated_ext(old(sc).free_schedule@, final(sc).free_schedule@),
        final(sc).name == old(sc).name,
        sc_ok(*tir, *final(sc)),
        final(sc).if_branches@ == old(sc).if_branches@,
        final(sc).free_on_reassign@ == old(sc).free_on_reassign@,
        fs_prefix(old(sc).free_schedule@, final(sc).free_schedule@),
        added_jump_frees(*tir, *own, final(sc).free_schedule@, old(sc).free_schedule@.len() as int),
        final(sc).free_schedule@ == lx_jump(*tir, own.states.seq(), old(sc).free_schedule@, jump_inst, loop_inst),
        match spec_loop_body(*tir, loop_inst) {
            Some(body) => {
                &&& on_path@ == jp_list(*tir, body, jump_inst, Set::empty(), loop_inst, 0).1
                &&& on_path@.subset_of(reach_seq(*tir, body))
                &&& final(sc).free_schedule@ == old(sc).free_schedule@ + jump_frees(
                    own.states.seq(),
                    jump_inst,
                    tir.spec_inst(jump_inst).span,
                    reach_seq(*tir, body),
                    targets_where(old(sc).free_schedule@, on_path@),
                    targets_where(old(sc).free_schedule@, reach_seq(*tir, body)),
                    all_targets(old(sc).free_schedule@),
                    tir.spec_inst(jump_inst).tag == TirTag::Break,
                )
            },
            None => final(sc).free_schedule@ == old(sc).free_schedule@,
        },
{
    let body = match loop_body(tir, loop_inst) {
        Some(b) => b,
        None => {
            return Ghost(Set::empty());
        },
    };
    let ghost fs_in = sc.free_schedule@;
    proof {
        tir.lemma_payload_below(loop_inst);
        assert(refs_below(body@, loop_inst.0 as int));
        assert forall|j: int| 0 <= j < body@.len() implies tir.valid_ref(#[trigger] body@[j]) by {
            assert(body@[j].0 < loop_inst.0);
        }
    }
    let mut inside: RefSet = VecMap::new();
    collect_reach_list(tir, &body, &mut inside);
    assert(inside@.dom() =~= reach_seq(*tir, body@));
    let mut on_path: RefSet = VecMap::new();
    assert(on_path@.dom() =~= Set::<TirRef>::empty());
    let _ = collect_jump_path(tir, &body, jump_inst, &mut on_path, loop_inst);
    assert(on_path@.dom() =~= on_path@.dom());
    let ghost p = on_path@.dom();
    let ghost ins = inside@.dom();
    assert(p.subset_of(Set::<TirRef>::empty().union(reach_seq(*tir, body@))));

    let ghost fs0 = sc.free_schedule@;
    let mut has_any: RefSet = VecMap::new();
    let mut covers: RefSet = VecMap::new();
    let mut free_inside: RefSet = VecMap::new();
    let mut k: usize = 0;
    assert(all_targets(fs0.take(0)) =~= Set::<TirRef>::empty());
    assert(targets_where(fs0.take(0), p) =~= Set::<TirRef>::empty());
    assert(targets_where(fs0.take(0), ins) =~= Set::<TirRef>::empty());
    while k < sc.free_schedule.len()
        invariant
            ungated_ext(old(sc).free_schedule@, sc.free_schedule@),
            sc.name == old(sc).name,
            k <= fs0.len(),
            sc.free_schedule@ == fs0,
            on_path.wf(),
            on_path@.dom() == p,
            inside.wf(),
            inside@.dom() == ins,
            has_any.wf(),
            covers.wf(),
            free_inside.wf(),
            has_any@.dom() == all_targets(fs0.take(k as int)),
            covers@.dom() == targets_where(fs0.take(k as int), p),
            free_inside@.dom() == targets_where(fs0.take(k as int), ins),
        decreases fs0.len() - k,
    {
        let fp = sc.free_schedule[k];
        proof {
            lemma_targets_step(fs0, k as int, p);
            lemma_targets_step(fs0, k as int, ins);
        }
        has_any.insert(fp.target, ());
        if on_path.contains_key(&fp.after) {
            covers.insert(fp.target, ());
        }
        if inside.contains_key(&fp.after) {
            free_inside.insert(fp.target, ());
        }
        assert(has_any@.dom() =~= all_targets(fs0.take(k + 1)));
        assert(covers@.dom() =~= targets_where(fs0.take(k + 1), p));
        assert(free_inside@.dom() =~= targets_where(fs0.take(k + 1), ins));
        k = k + 1;
    }
    assert(fs0.take(fs0.len() as int) =~= fs0);
    let ghost cov = covers@.dom();
    let ghost fin = free_inside@.dom();
    let ghost any = has_any@.dom();

    let is_break = match tir.inst(jump_inst).tag {
        TirTag::Break => true,
        _ => false,
    };
    let span = tir.span(jump_inst);
    let ghost entries = own.states.seq();
    let mut e: usize = 0;
    assert(fs0 + jump_frees(entries.take(0), jump_inst, span, ins, cov, fin, any, is_break) =~= fs0);
    while e < own.states.len()
        invariant
            ungated_ext(old(sc).free_schedule@, sc.free_schedule@),
            sc.name == old(sc).name,
            e <= entries.len(),
            entries == own.states.seq(),
            own_ok(*own, *tir),
            tir.wf(),
            tir.valid_ref(jump_inst),
            span == tir.spec_inst(jump_inst).span,
            sc_ok(*tir, *sc),
            sc.if_branches@ == old(sc).if_branches@,
            sc.free_on_reassign@ == old(sc).free_on_reassign@,
            inside.wf(),
            inside@.dom() == ins,
            covers.wf(),
            covers@.dom() == cov,
            free_inside.wf(),
            free_inside@.dom() == fin,
            has_any.wf(),
            has_any@.dom() == any,
            sc.free_schedule@ == fs0 + jump_frees(entries.take(e as int), jump_inst, span, ins, cov, fin, any, is_break),
        decreases entries.len() - e,
    {
        let (owner, state) = own.states.entry(e);
        let owner = *owner;
        let state = *state;
        proof {
            own.states.lemma_view();
            assert(own.states@[entries[e as int].0] == entries[e as int].1);
            assert(entries.take(e + 1).drop_last() =~= entries.take(e as int));
            assert(entries.take(e + 1).last() == (owner, state));
        }
        let valid = match state {
            OwnerState::Valid => true,
            _ => false,
        };
        let ghost before = sc.free_schedule@;
        match owner {
            Owner::Inst(r) => {
                if valid {
                    let needed = if inside.contains_key(&r) {
                        !covers.contains_key(&r)
                    } else if is_break && free_inside.contains_key(&r) {
                        !covers.contains_key(&r)
                    } else {
                        is_break && !has_any.contains_key(&r)
                    };
                    if needed {
                        let fp = FreePoint { after: jump_inst, target: r, span, branch: None };
                        proof {
                            assert(own.states@.contains_key(owner));
                            assert(crate::ownership::owners::owner_ok(*tir, owner));
                            assert(fp_ok(*tir, fp));
                        }
                        sc.free_schedule.push(fp);
                    }
                }
            },
            Owner::Param(_) => {},
        }
        proof {
            assert(sc.free_schedule@ =~= fs0 + jump_frees(entries.take(e + 1), jump_inst, span, ins, cov, fin, any, is_break));
            assert forall|i: int| 0 <= i < sc.free_schedule@.len() implies fp_ok(*tir, #[trigger] sc.free_schedule@[i]) by {
                if i < before.len() {
                    assert(sc.free_schedule@[i] == before[i]);
                }
            }
        }
        e = e + 1;
    }
    assert(entries.take(entries.len() as int) =~= entries);
    proof {
        let added = jump_frees(entries, jump_inst, span, ins, cov, fin, any, is_break);
        lemma_jump_frees_shape(entries, jump_inst, span, ins, cov, fin, any, is_break);
        own.states.lemma_view();
        assert forall|i: int| fs0.len() <= i < sc.free_schedule@.len() implies jump_free_ok(*tir, *own, #[trigger] sc.free_schedule@[i]) by {
            let fp = sc.free_schedule@[i];
            assert(fp == added[i - fs0.len()]);
            let j = choose|j: int| 0 <= j < entries.len() && entries[j] == (Owner::Inst(fp.target), OwnerState::Valid);
            assert(own.states@[entries[j].0] == entries[j].1);
        }
        assert forall|i: int| 0 <= i < fs0.len() implies #[trigger] sc.free_schedule@[i] == fs0[i] by {
        }
    }
    Ghost(p)
}

/// Schedule the jump frees of every `break` / `continue` in `stmts`,
/// `enclosing_loop` being the innermost loop around them.
pub fn schedule_loop_exit_frees_in(
    tir: &Tir,
    own: &Ownership,
    sc: &mut FunctionSidecar,
    stmts: &Vec<TirRef>,
    parent: TirRef,
    enclosing_loop: Option<TirRef>,
)
    requires
        tir.wf(),
        own_ok(*own, *tir),
        sc_ok(*tir, *old(sc)),
        refs_below(stmts@, parent.0 as int),
        forall|j: int| 0 <= j < stmts@.len() ==> tir.valid_ref(#[trigger] stmts@[j]),
        enclosing_loop matches Some(l) ==> tir.valid_ref(l),
    ensures
        ungated_ext(old(sc).free_schedule@, final(sc).free_schedule@),
        final(sc).name == old(sc).name,
        sc_ok(*tir, *final(sc)),
        fs_prefix(old(sc).free_schedule@, final(sc).free_schedule@),
        added_jump_frees(*tir, *own, final(sc).free_schedule@, old(sc).free_schedule@.len() as int),
        final(sc).if_branches@ == old(sc).if_branches@,
        final(sc).free_on_reassign@ == old(sc).free_on_reassign@,
        final(sc).free_schedule@ == lx_list(
            *tir,
            own.states.seq(),
            old(sc).free_schedule@,
            stmts@,
            parent,
            enclosing_loop,
            stmts@.len() as int,
        ),
    decreases parent.0, 1nat,
{
    let ghost fs0 = sc.free_schedule@;
    let mut i: usize = 0;
    while i < stmts.len()
        invariant
            ungated_ext(old(sc).free_schedule@, sc.free_schedule@),
            sc.name == old(sc).name,
            i <= stmts@.len(),
            tir.wf(),
            own_ok(*own, *tir),
            refs_below(stmts@, parent.0 as int),
            forall|j: int| 0 <= j < stmts@.len() ==> tir.valid_ref(#[trigger] stmts@[j]),
            enclosing_loop matches Some(l) ==> tir.valid_ref(l),
            sc_ok(*tir, *sc),
            fs_prefix(fs0, sc.free_schedule@),
            added_jump_frees(*tir, *own, sc.free_schedule@, fs0.len() as int),
            fs0 == old(sc).free_schedule@,
            sc.if_branches@ == old(sc).if_branches@,
            sc.free_on_reassign@ == old(sc).free_on_reassign@,
            sc.free_schedule@ == lx_list(*tir, own.states.seq(), fs0, stmts@, parent, enclosing_loop, i as int),
        decreases stmts@.len() - i,
    {
        let r = stmts[i];
        assert(r.0 < parent.0);
        let ghost before = sc.free_schedule@;
        schedule_loop_exit_frees_stmt(tir, own, sc, r, enclosing_loop);
        assert(fs_prefix(fs0, sc.free_schedule@)) by {
            assert forall|k: int| 0 <= k < fs0.len() implies #[trigger] sc.free_schedule@[k] == fs0[k] by {
                assert(sc.free_schedule@[k] == before[k]);
            }
        }
        assert forall|k: int| fs0.len() <= k < sc.free_schedule@.len() implies jump_free_ok(*tir, *own, #[trigger] sc.free_schedule@[k]) by {
            if k < before.len() {
                assert(sc.free_schedule@[k] == before[k]);
            }
        }
        i = i + 1;
    }
}

fn schedule_loop_exit_frees_stmt(
    tir: &Tir,
    own: &Ownership,
    sc: &mut FunctionSidecar,
    r: TirRef,
    enclosing_loop: Option<TirRef>,
)
    requires
        tir.wf(),
        own_ok(*own, *tir),
        sc_ok(*tir, *old(sc)),
        tir.valid_ref(r),
        enclosing_loop matches Some(l) ==> tir.valid_ref(l),
    ensures
        ungated_ext(old(sc).free_schedule@, final(sc).free_schedule@),
        final(sc).name == old(sc).name,
        sc_ok(*tir, *final(sc)),
        fs_prefix(old(sc).free_schedule@, final(sc).free_schedule@),
        added_jump_frees(*tir, *own, final(sc).free_schedule@, old(sc).free_schedule@.len() as int),
        final(sc).if_branches@ == old(sc).if_branches@,
        final(sc).free_on_reassign@ == old(sc).free_on_reassign@,
        final(sc).free_schedule@ == lx_stmt(*tir, own.states.seq(), old(sc).free_schedule@, r, enclosing_loop),
    decreases r.0, 2nat,
{
    let tag = tir.inst(r).tag;
    match tag {
        TirTag::Break | TirTag::Continue => {
            match enclosing_loop {
                Some(loop_ref) => {
                    let _ = schedule_break_continue_frees(tir, own, sc, r, loop_ref);
                },
                None => {},
            }
        },
        TirTag::WhileLoop => {
            let view = tir.while_loop_view(r);
            proof {
                tir.lemma_payload_below(r);
                assert forall|j: int| 0 <= j < view.body@.len() implies tir.valid_ref(#[trigger] view.body@[j]) by {
                    assert(view.body@[j].0 < r.0);
                }
            }
            schedule_loop_exit_frees_in(tir, own, sc, &view.body, r, Some(r));
        },
        TirTag::ForRange => {
            let view = tir.for_range_view(r);
            proof {
                tir.lemma_payload_below(r);
                assert forall|j: int| 0 <= j < view.body@.len() implies tir.valid_ref(#[trigger] view.body@[j]) by {
                    assert(view.body@[j].0 < r.0);
                }
            }
            schedule_loop_exit_frees_in(tir, own, sc, &view.body, r, Some(r));
        },
        TirTag::IfStmt => {
            let view = tir.if_stmt_view(r);
            proof {
                tir.lemma_payload_below(r);
                assert forall|j: int| 0 <= j < view.then_stmts@.len() implies tir.valid_ref(#[trigger] view.then_stmts@[j]) by {
                    assert(view.then_stmts@[j].0 < r.0);
                }
            }
            let ghost fs0 = sc.free_schedule@;
            schedule_loop_exit_frees_in(tir, own, sc, &view.then_stmts, r, enclosing_loop);
            let ghost f1 = sc.free_schedule@;
            let mut k: usize = 0;
            while k < view.elif_branches.len()
                invariant
                    ungated_ext(old(sc).free_schedule@, sc.free_schedule@),
                    sc.name == old(sc).name,
                    sc.free_schedule@ == lx_elifs(*tir, own.states.seq(), f1, r, *view, enclosing_loop, k as int),
                    tir.spec_extra(r) == Extra::IfStmt(*view),
                    k <= view.elif_branches@.len(),
                    tir.wf(),
                    own_ok(*own, *tir),
                    tir.valid_ref(r),
                    crate::tir::payload_below(Extra::IfStmt(*view), r.0 as int),
                    enclosing_loop matches Some(l) ==> tir.valid_ref(l),
                    sc_ok(*tir, *sc),
                    fs_prefix(fs0, sc.free_schedule@),
                    added_jump_frees(*tir, *own, sc.free_schedule@, fs0.len() as int),
                    fs0 == old(sc).free_schedule@,
                    sc.if_branches@ == old(sc).if_branches@,
                    sc.free_on_reassign@ == old(sc).free_on_reassign@,
                decreases view.elif_branches@.len() - k,
            {
                let arm = &view.elif_branches[k];
                proof {
                    assert(refs_below(arm.body@, r.0 as int));
                    assert forall|j: int| 0 <= j < arm.body@.len() implies tir.valid_ref(#[trigger] arm.body@[j]) by {
                        assert(arm.body@[j].0 < r.0);
                    }
                }
                let ghost before = sc.free_schedule@;
                schedule_loop_exit_frees_in(tir, own, sc, &arm.body, r, enclosing_loop);
                assert(fs_prefix(fs0, sc.free_schedule@)) by {
                    assert forall|q: int| 0 <= q < fs0.len() implies #[trigger] sc.free_schedule@[q] == fs0[q] by {
                        assert(sc.free_schedule@[q] == before[q]);
                    }
                }
                assert forall|q: int| fs0.len() <= q < sc.free_schedule@.len() implies jump_free_ok(*tir, *own, #[trigger] sc.free_schedule@[q]) by {
                    if q < before.len() {
                        assert(sc.free_schedule@[q] == before[q]);
                    }
                }
                k = k + 1;
            }
            let ghost f2 = sc.free_schedule@;
            match &view.else_stmts {
                Some(es) => {
                    proof {
                        assert(opt_stmts(view.else_stmts) == es@);
                        assert forall|j: int| 0 <= j < es@.len() implies tir.valid_ref(#[trigger] es@[j]) by {
                            assert(es@[j].0 < r.0);
                        }
                    }
                    let ghost before = sc.free_schedule@;
                    schedule_loop_exit_frees_in(tir, own, sc, es, r, enclosing_loop);
                    assert(fs_prefix(fs0, sc.free_schedule@)) by {
                        assert forall|q: int| 0 <= q < fs0.len() implies #[trigger] sc.free_schedule@[q] == fs0[q] by {
                            assert(sc.free_schedule@[q] == before[q]);
                        }
                    }
                    assert forall|q: int| fs0.len() <= q < sc.free_schedule@.len() implies jump_free_ok(*tir, *own, #[trigger] sc.free_schedule@[q]) by {
                        if q < before.len() {
                            assert(sc.free_schedule@[q] == before[q]);
                        }
                    }
                },
                None => {},
            }
        },
        _ => {},
    }
}

/// Every free a `continue` adds targets an allocation made inside its
/// loop.
proof fn lemma_continue_frees_inside(
    es: Seq<(Owner, OwnerState)>,
    jump: TirRef,
    span: crate::types::Span,
    inside: Set<TirRef>,
    covers: Set<TirRef>,
    free_inside: Set<TirRef>,
    has_any: Set<TirRef>,
    i: int,
)
    requires
        0 <= i < jump_frees(es, jump, span, inside, covers, free_inside, has_any, false).len(),
    ensures
        inside.contains(jump_frees(es, jump, span, inside, covers, free_inside, has_any, false)[i].target),
    decreases es.len(),
{
    let a = jump_frees(es.drop_last(), jump, span, inside, covers, free_inside, has_any, false);
    if i < a.len() {
        lemma_continue_frees_inside(es.drop_last(), jump, span, inside, covers, free_inside, has_any, i);
    }
}

/// The frees the pass schedules on a `continue` all target allocations
/// made inside the loop: an owner from before the loop is never freed on
/// `continue`, since the next iteration may read it again.
pub proof fn lemma_continue_never_frees_pre_loop(
    tir: Tir,
    es: Seq<(Owner, OwnerState)>,
    fs: Seq<FreePoint>,
    jump: TirRef,
    l: TirRef,
    i: int,
)
    requires
        tir.spec_inst(jump).tag == TirTag::Continue,
        spec_loop_body(tir, l) is Some,
        fs.len() <= i < lx_jump(tir, es, fs, jump, l).len(),
    ensures
        reach_seq(tir, spec_loop_body(tir, l)->Some_0).contains(lx_jump(tir, es, fs, jump, l)[i].target),
{
    let body = spec_loop_body(tir, l)->Some_0;
    let p = jp_list(tir, body, jump, Set::empty(), l, 0).1;
    lemma_continue_frees_inside(
        es,
        jump,
        tir.spec_inst(jump).span,
        reach_seq(tir, body),
        targets_where(fs, p),
        targets_where(fs, reach_seq(tir, body)),
        all_targets(fs),
        i - fs.len(),
    );
}

/// A jump frees an owner allocated inside the loop exactly when no free
/// already fires on the jump's path.
pub proof fn lemma_inside_owner_freed_unless_covered(
    inside: Set<TirRef>,
    covers: Set<TirRef>,
    free_inside: Set<TirRef>,
    has_any: Set<TirRef>,
    is_break: bool,
    r: TirRef,
)
    requires
        inside.contains(r),
    ensures
        jump_needs_free(inside, covers, free_inside, has_any, is_break, r) == !covers.contains(r),
{
}

} // verus!
