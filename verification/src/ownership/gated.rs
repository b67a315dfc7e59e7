//! Branch ids of an `if` and the frees gated on them.
//!
//! After an `if`, an owner that one arm moves and another leaves `Valid`
//! is `Moved` in the join (any-moved-wins), so the function-exit pass will
//! not free it. The arms that kept it valid free it themselves, after
//! their last statement, gated on their branch id.
use vstd::prelude::*;
use crate::types::InternPool;
use crate::tir::{Tir, TirRef, spec_param_ref};
use crate::vecmap::{VecMap, has_key_at};
use crate::ownership::lattice::{Ownership, Owner, OwnerState, Unit, moved_in, sort_by_owner, owners_sorted, owner_seq_sorted, owner_lt};
use crate::ownership::owners::{
    owner_ok, spec_tirref, spec_owner_span, spec_owner_tracked, owner_tracked, owner_span,
    lemma_param_pos, own_ok,
};
use crate::ownership::sidecar::{BranchId, FreePoint, FunctionSidecar, IfBranchIds, arm_ids};
use crate::ownership::preserve::all_own_ok;
use crate::ownership::stmt::{sc_ok, fp_ok, target_ok};

verus! {

/// Number of arms of an `if`: then, each elif, and else when present.
pub open spec fn arm_count(n_elif: nat, has_else: bool) -> nat {
    1 + n_elif + if has_else {
        1nat
    } else {
        0nat
    }
}

/// Ids `base, base + 1, ...` in arm order.
pub open spec fn consecutive_from(s: Seq<u32>, base: int) -> bool {
    forall|i: int| 0 <= i < s.len() ==> #[trigger] s[i] == base + i
}

/// Hand out one fresh id per arm, counting up from `next`; returns the ids
/// and the next free id.
pub fn alloc_branch_ids(next: u32, n_elif: usize, has_else: bool) -> (r: (IfBranchIds, u32))
    requires
        next + n_elif + 2 <= u32::MAX,
    ensures
        r.0.elif_branches@.len() == n_elif,
        (r.0.else_branch is Some) == has_else,
        arm_ids(r.0).len() == arm_count(n_elif as nat, has_else),
        consecutive_from(arm_ids(r.0), next as int),
        r.1 == next + arm_count(n_elif as nat, has_else),
{
    let then_branch = BranchId(next);
    let mut nxt: u32 = next + 1;
    let mut elif_branches: Vec<BranchId> = Vec::new();
    let mut i: usize = 0;
    while i < n_elif
        invariant
            i <= n_elif,
            next + n_elif + 2 <= u32::MAX,
            nxt == next + 1 + i,
            elif_branches@.len() == i,
            forall|j: int| 0 <= j < i ==> (#[trigger] elif_branches@[j]).0 == next + 1 + j,
        decreases n_elif - i,
    {
        elif_branches.push(BranchId(nxt));
        nxt = nxt + 1;
        i = i + 1;
    }
    let else_branch = if has_else {
        let id = BranchId(nxt);
        nxt = nxt + 1;
        Some(id)
    } else {
        None
    };
    let b = IfBranchIds { then_branch, elif_branches, else_branch };
    proof {
        let s = arm_ids(b);
        let mid = b.elif_branches@.map_values(|x: BranchId| x.0);
        assert(mid.len() == n_elif);
        assert forall|k: int| 0 <= k < s.len() implies #[trigger] s[k] == next + k by {
            if k == 0 {
            } else if k <= n_elif {
                assert(s[k] == mid[k - 1]);
            } else {
            }
        }
    }
    (b, nxt)
}

/// Frees for owner `o` at the end of each of the first `n` arms that
/// leave it `Valid` and have a last statement, in arm order.
pub open spec fn arm_frees(
    tir: Tir,
    results: Seq<Ownership>,
    ids: Seq<BranchId>,
    lasts: Seq<Option<TirRef>>,
    o: Owner,
    n: int,
) -> Seq<FreePoint>
    decreases n,
{
    if n <= 0 {
        Seq::empty()
    } else {
        arm_frees(tir, results, ids, lasts, o, n - 1) + if results[n - 1].states@.contains_key(o)
            && results[n - 1].states@[o] == OwnerState::Valid && lasts[n - 1] is Some {
            seq![
                FreePoint {
                    after: lasts[n - 1]->Some_0,
                    target: spec_tirref(tir, o),
                    span: spec_owner_span(tir, o),
                    branch: Some(ids[n - 1]),
                },
            ]
        } else {
            Seq::empty()
        }
    }
}

/// `o` is moved at the end of one of the first `n` arms.
pub open spec fn moved_in_some_arm(results: Seq<Ownership>, o: Owner, n: int) -> bool {
    exists|a: int| 0 <= a < n && moved_in(#[trigger] results[a].states@, o)
}

/// `o` is tracked at the end of one of the first `n` arms.
pub open spec fn arm_key(results: Seq<Ownership>, n: int, o: Owner) -> bool {
    exists|a: int| 0 <= a < n && #[trigger] results[a].states@.contains_key(o)
}

/// The gated frees of owner `o`: none unless it is a move-typed owner
/// that some arm moves.
pub open spec fn gated_frees(
    tir: Tir,
    results: Seq<Ownership>,
    ids: Seq<BranchId>,
    lasts: Seq<Option<TirRef>>,
    o: Owner,
) -> Seq<FreePoint> {
    if spec_owner_tracked(tir, o) && moved_in_some_arm(results, o, lasts.len() as int) {
        arm_frees(tir, results, ids, lasts, o, lasts.len() as int)
    } else {
        Seq::empty()
    }
}

/// The gated frees of the owners `ks`, in that order.
pub open spec fn frees_for_keys(
    tir: Tir,
    results: Seq<Ownership>,
    ids: Seq<BranchId>,
    lasts: Seq<Option<TirRef>>,
    ks: Seq<Owner>,
) -> Seq<FreePoint>
    decreases ks.len(),
{
    if ks.len() == 0 {
        Seq::empty()
    } else {
        frees_for_keys(tir, results, ids, lasts, ks.drop_last()) + gated_frees(
            tir,
            results,
            ids,
            lasts,
            ks.last(),
        )
    }
}

/// Every gated free of owner `o` in the first `n` arms is gated on one
/// of the arm ids.
pub proof fn lemma_arm_frees_gated(
    tir: Tir,
    results: Seq<Ownership>,
    ids: Seq<BranchId>,
    lasts: Seq<Option<TirRef>>,
    o: Owner,
    n: int,
)
    requires
        n <= ids.len(),
    ensures
        forall|j: int| 0 <= j < arm_frees(tir, results, ids, lasts, o, n).len() ==> exists|a: int|
            0 <= a < ids.len() && (#[trigger] arm_frees(tir, results, ids, lasts, o, n)[j]).branch == Some(ids[a]),
    decreases n,
{
    if n > 0 {
        lemma_arm_frees_gated(tir, results, ids, lasts, o, n - 1);
        let f0 = arm_frees(tir, results, ids, lasts, o, n - 1);
        let f = arm_frees(tir, results, ids, lasts, o, n);
        assert forall|j: int| 0 <= j < f.len() implies exists|a: int| 0 <= a < ids.len() && (#[trigger] f[j]).branch == Some(ids[a]) by {
            if j < f0.len() {
                assert(f[j] == f0[j]);
                let a = choose|a: int| 0 <= a < ids.len() && (#[trigger] f0[j]).branch == Some(ids[a]);
                assert(0 <= a < ids.len() && f[j].branch == Some(ids[a]));
            } else {
                assert(f[j].branch == Some(ids[n - 1]));
            }
        }
    }
}

/// Every free point the scheduler pushes is gated on one of the arm ids.
pub proof fn lemma_frees_for_keys_gated(
    tir: Tir,
    results: Seq<Ownership>,
    ids: Seq<BranchId>,
    lasts: Seq<Option<TirRef>>,
    ks: Seq<Owner>,
)
    requires
        lasts.len() == ids.len(),
    ensures
        forall|j: int| 0 <= j < frees_for_keys(tir, results, ids, lasts, ks).len() ==> exists|a: int|
            0 <= a < ids.len() && (#[trigger] frees_for_keys(tir, results, ids, lasts, ks)[j]).branch == Some(ids[a]),
    decreases ks.len(),
{
    if ks.len() > 0 {
        lemma_frees_for_keys_gated(tir, results, ids, lasts, ks.drop_last());
        lemma_arm_frees_gated(tir, results, ids, lasts, ks.last(), lasts.len() as int);
        let f0 = frees_for_keys(tir, results, ids, lasts, ks.drop_last());
        let g = gated_frees(tir, results, ids, lasts, ks.last());
        let f = frees_for_keys(tir, results, ids, lasts, ks);
        assert(f == f0 + g);
        assert forall|j: int| 0 <= j < f.len() implies exists|a: int| 0 <= a < ids.len() && (#[trigger] f[j]).branch == Some(ids[a]) by {
            if j < f0.len() {
                assert(f[j] == f0[j]);
                let a = choose|a: int| 0 <= a < ids.len() && (#[trigger] f0[j]).branch == Some(ids[a]);
                assert(0 <= a < ids.len() && f[j].branch == Some(ids[a]));
            } else {
                assert(f[j] == g[j - f0.len()]);
                let af = arm_frees(tir, results, ids, lasts, ks.last(), lasts.len() as int);
                assert(g == af);
                let a = choose|a: int| 0 <= a < ids.len() && (#[trigger] af[j - f0.len()]).branch == Some(ids[a]);
                assert(0 <= a < ids.len() && f[j].branch == Some(ids[a]));
            }
        }
    }
}

/// What the arms hand to the scheduler: one state, id and last statement
/// per arm.
pub open spec fn arms_ok(
    tir: Tir,
    results: Seq<Ownership>,
    ids: Seq<BranchId>,
    lasts: Seq<Option<TirRef>>,
) -> bool {
    &&& ids.len() == lasts.len()
    &&& lasts.len() <= results.len()
    &&& all_own_ok(results, tir)
    &&& forall|j: int| 0 <= j < lasts.len() && (#[trigger] lasts[j]) is Some ==> tir.valid_ref(lasts[j]->Some_0)
}

/// Push the gated frees of owner `o`.
fn schedule_owner_frees(
    tir: &Tir,
    pool: &InternPool,
    sc: &mut FunctionSidecar,
    results: &Vec<Ownership>,
    ids: &Vec<BranchId>,
    lasts: &Vec<Option<TirRef>>,
    o: Owner,
)
    requires
        tir.wf(),
        owner_ok(*tir, o),
        sc_ok(*tir, *old(sc)),
        arms_ok(*tir, results@, ids@, lasts@),
    ensures
        final(sc).name == old(sc).name,
        sc_ok(*tir, *final(sc)),
        final(sc).free_schedule@ == old(sc).free_schedule@ + gated_frees(*tir, results@, ids@, lasts@, o),
        final(sc).if_branches@ == old(sc).if_branches@,
        final(sc).free_on_reassign@ == old(sc).free_on_reassign@,
{
    if !owner_tracked(tir, pool, o) {
        assert(old(sc).free_schedule@ + Seq::<FreePoint>::empty() =~= old(sc).free_schedule@);
        return;
    }
    let n = lasts.len();
    let mut any = false;
    let mut a: usize = 0;
    while a < n
        invariant
            sc.name == old(sc).name,
            a <= n,
            n == lasts@.len(),
            arms_ok(*tir, results@, ids@, lasts@),
            any == moved_in_some_arm(results@, o, a as int),
        decreases n - a,
    {
        assert(own_ok(results@[a as int], *tir));
        let moved_here = match results[a].states.get(&o) {
            Some(OwnerState::Moved { .. }) => true,
            _ => false,
        };
        proof {
            assert(moved_here == moved_in(results@[a as int].states@, o));
            if moved_here {
                assert(moved_in_some_arm(results@, o, a + 1));
            } else if moved_in_some_arm(results@, o, a + 1) {
                let w = choose|w: int| 0 <= w < a + 1 && moved_in(#[trigger] results@[w].states@, o);
                assert(w < a);
            }
            if any {
                let w = choose|w: int| 0 <= w < a && moved_in(#[trigger] results@[w].states@, o);
                assert(0 <= w < a + 1);
            }
        }
        any = any || moved_here;
        a = a + 1;
    }
    if !any {
        assert(old(sc).free_schedule@ + Seq::<FreePoint>::empty() =~= old(sc).free_schedule@);
        return;
    }
    let target = o.tirref(tir);
    let span = owner_span(tir, o);
    proof {
        if let Owner::Param(name) = o {
            lemma_param_pos(*tir, name);
            assert(target == spec_param_ref(crate::ownership::owners::param_pos(*tir, name)));
        }
        assert(target_ok(*tir, target));
    }
    let ghost fs0 = sc.free_schedule@;
    let mut a: usize = 0;
    assert(fs0 + arm_frees(*tir, results@, ids@, lasts@, o, 0) =~= fs0);
    while a < n
        invariant
            sc.name == old(sc).name,
            a <= n,
            n == lasts@.len(),
            tir.wf(),
            arms_ok(*tir, results@, ids@, lasts@),
            target == spec_tirref(*tir, o),
            span == spec_owner_span(*tir, o),
            target_ok(*tir, target),
            sc_ok(*tir, *sc),
            sc.free_schedule@ == fs0 + arm_frees(*tir, results@, ids@, lasts@, o, a as int),
            sc.if_branches@ == old(sc).if_branches@,
            sc.free_on_reassign@ == old(sc).free_on_reassign@,
        decreases n - a,
    {
        assert(own_ok(results@[a as int], *tir));
        let valid_here = match results[a].states.get(&o) {
            Some(OwnerState::Valid) => true,
            _ => false,
        };
        let ghost before = sc.free_schedule@;
        match lasts[a] {
            Some(after) => {
                if valid_here {
                    let fp = FreePoint { after, target, span, branch: Some(ids[a]) };
                    assert(lasts@[a as int] is Some);
                    assert(fp_ok(*tir, fp));
                    sc.free_schedule.push(fp);
                    assert(sc.free_schedule@ =~= fs0 + arm_frees(*tir, results@, ids@, lasts@, o, a + 1));
                } else {
                    assert(sc.free_schedule@ =~= fs0 + arm_frees(*tir, results@, ids@, lasts@, o, a + 1));
                }
            },
            None => {
                assert(sc.free_schedule@ =~= fs0 + arm_frees(*tir, results@, ids@, lasts@, o, a + 1));
            },
        }
        proof {
            assert forall|i: int| 0 <= i < sc.free_schedule@.len() implies fp_ok(*tir, #[trigger] sc.free_schedule@[i]) by {
                if i < before.len() {
                    assert(sc.free_schedule@[i] == before[i]);
                }
            }
        }
        a = a + 1;
    }
}

/// Push the gated frees of every owner some arm tracks, each owner once,
/// in owner order; the ghost result is that order.
pub fn schedule_gated_frees(
    tir: &Tir,
    pool: &InternPool,
    sc: &mut FunctionSidecar,
    results: &Vec<Ownership>,
    ids: &Vec<BranchId>,
    lasts: &Vec<Option<TirRef>>,
) -> (keys: Ghost<Seq<Owner>>)
    requires
        tir.wf(),
        sc_ok(*tir, *old(sc)),
        arms_ok(*tir, results@, ids@, lasts@),
    ensures
        final(sc).name == old(sc).name,
        sc_ok(*tir, *final(sc)),
        final(sc).free_schedule@ == old(sc).free_schedule@ + frees_for_keys(*tir, results@, ids@, lasts@, keys@),
        keys@.no_duplicates(),
        owner_seq_sorted(keys@),
        forall|o: Owner| #[trigger] keys@.contains(o) <==> arm_key(results@, lasts@.len() as int, o),
        final(sc).if_branches@ == old(sc).if_branches@,
        final(sc).free_on_reassign@ == old(sc).free_on_reassign@,
{
    // The owners some arm tracks.
    let mut seen: VecMap<Owner, Unit> = VecMap::new();
    let n = lasts.len();
    let mut a: usize = 0;
    while a < n
        invariant
            a <= n,
            n == lasts@.len(),
            tir.wf(),
            arms_ok(*tir, results@, ids@, lasts@),
            seen.wf(),
            forall|o: Owner| #[trigger] seen@.contains_key(o) <==> arm_key(results@, a as int, o),
            forall|o: Owner| #[trigger] seen@.contains_key(o) ==> owner_ok(*tir, o),
        decreases n - a,
    {
        assert(own_ok(results@[a as int], *tir));
        let st = &results[a].states;
        let mut e: usize = 0;
        while e < st.len()
            invariant
                e <= st.seq().len(),
                a < n,
                n == lasts@.len(),
                tir.wf(),
                *st == results@[a as int].states,
                own_ok(results@[a as int], *tir),
                arms_ok(*tir, results@, ids@, lasts@),
                seen.wf(),
                forall|o: Owner| #[trigger] seen@.contains_key(o) <==> (arm_key(results@, a as int, o) || exists|j: int| 0 <= j < e && #[trigger] st.seq()[j].0 == o),
                forall|o: Owner| #[trigger] seen@.contains_key(o) ==> owner_ok(*tir, o),
            decreases st.seq().len() - e,
        {
            let (o, _) = st.entry(e);
            let o = *o;
            proof {
                st.lemma_view();
                assert(st@[st.seq()[e as int].0] == st.seq()[e as int].1);
                assert(owner_ok(*tir, o));
            }
            seen.insert(o, ());
            proof {
                assert forall|x: Owner| #[trigger] seen@.contains_key(x) <==> (arm_key(results@, a as int, x) || exists|j: int| 0 <= j < e + 1 && #[trigger] st.seq()[j].0 == x) by {
                    if exists|j: int| 0 <= j < e + 1 && #[trigger] st.seq()[j].0 == x {
                        let j = choose|j: int| 0 <= j < e + 1 && #[trigger] st.seq()[j].0 == x;
                        if j < e {
                            assert(exists|j2: int| 0 <= j2 < e && #[trigger] st.seq()[j2].0 == x);
                        }
                    }
                    if exists|j: int| 0 <= j < e && #[trigger] st.seq()[j].0 == x {
                        let j = choose|j: int| 0 <= j < e && #[trigger] st.seq()[j].0 == x;
                        assert(0 <= j < e + 1 && st.seq()[j].0 == x);
                    }
                    if x == o {
                        assert(st.seq()[e as int].0 == x);
                    }
                }
            }
            e = e + 1;
        }
        proof {
            st.lemma_view();
            assert forall|x: Owner| #[trigger] seen@.contains_key(x) <==> arm_key(results@, a + 1, x) by {
                if arm_key(results@, a + 1, x) {
                    let w = choose|w: int| 0 <= w < a + 1 && #[trigger] results@[w].states@.contains_key(x);
                    if w == a {
                        let j = choose|j: int| has_key_at(st.seq(), x, j);
                        assert(st.seq()[j].0 == x);
                    } else {
                        assert(arm_key(results@, a as int, x));
                    }
                }
                if arm_key(results@, a as int, x) {
                    let w = choose|w: int| 0 <= w < a && #[trigger] results@[w].states@.contains_key(x);
                    assert(0 <= w < a + 1);
                }
                if exists|j: int| 0 <= j < st.seq().len() && #[trigger] st.seq()[j].0 == x {
                    let j = choose|j: int| 0 <= j < st.seq().len() && #[trigger] st.seq()[j].0 == x;
                    assert(st@[st.seq()[j].0] == st.seq()[j].1);
                    assert(results@[a as int].states@.contains_key(x));
                }
            }
        }
        a = a + 1;
    }
    // Schedule them in owner order.
    let sorted = sort_by_owner(&seen);
    proof {
        sorted.lemma_view();
    }
    let ghost ss = sorted.seq();
    assert forall|j: int| 0 <= j < ss.len() implies sorted@.contains_key(#[trigger] ss[j].0) by {
        assert(sorted@[sorted.seq()[j].0] == sorted.seq()[j].1);
    }
    let ghost fs0 = sc.free_schedule@;
    let ghost mut keys: Seq<Owner> = Seq::empty();
    let mut k: usize = 0;
    assert(fs0 + frees_for_keys(*tir, results@, ids@, lasts@, keys) =~= fs0);
    while k < sorted.len()
        invariant
            sc.name == old(sc).name,
            k <= ss.len(),
            ss == sorted.seq(),
            sorted@ == seen@,
            owners_sorted(ss),
            forall|o: Owner| #[trigger] seen@.contains_key(o) ==> owner_ok(*tir, o),
            forall|j: int| 0 <= j < ss.len() ==> sorted@.contains_key(#[trigger] ss[j].0),
            tir.wf(),
            arms_ok(*tir, results@, ids@, lasts@),
            keys.len() == k,
            forall|j: int| 0 <= j < k ==> #[trigger] keys[j] == ss[j].0,
            sc_ok(*tir, *sc),
            sc.free_schedule@ == fs0 + frees_for_keys(*tir, results@, ids@, lasts@, keys),
            sc.if_branches@ == old(sc).if_branches@,
            sc.free_on_reassign@ == old(sc).free_on_reassign@,
        decreases ss.len() - k,
    {
        let (o, _) = sorted.entry(k);
        let o = *o;
        proof {
            assert(sorted@.contains_key(ss[k as int].0));
        }
        schedule_owner_frees(tir, pool, sc, results, ids, lasts, o);
        proof {
            let kb = keys;
            keys = keys.push(o);
            assert(keys.drop_last() =~= kb);
            assert(sc.free_schedule@ =~= fs0 + frees_for_keys(*tir, results@, ids@, lasts@, keys));
        }
        k = k + 1;
    }
    proof {
        assert forall|i: int, j: int| 0 <= i < j < keys.len() implies owner_lt(#[trigger] keys[i], #[trigger] keys[j]) by {
            assert(owner_lt(ss[i].0, ss[j].0));
        }
        assert forall|i: int, j: int| 0 <= i < keys.len() && 0 <= j < keys.len() && i != j implies keys[i] != keys[j] by {
            if i < j {
                assert(owner_lt(ss[i].0, ss[j].0));
            } else {
                assert(owner_lt(ss[j].0, ss[i].0));
            }
        }
        assert forall|o: Owner| #[trigger] keys.contains(o) <==> arm_key(results@, n as int, o) by {
            if keys.contains(o) {
                let j = choose|j: int| 0 <= j < keys.len() && keys[j] == o;
                assert(sorted@.contains_key(ss[j].0));
            }
            if arm_key(results@, n as int, o) {
                assert(sorted@.contains_key(o));
                let j = choose|j: int| has_key_at(ss, o, j);
                assert(keys[j] == o);
            }
        }
    }
    Ghost(keys)
}

} // verus!
