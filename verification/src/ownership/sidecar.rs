//! What the ownership pass hands to codegen: where to free which
//! allocation, which allocation a reassignment drops, and the branch ids
//! of every `if` arm.
use vstd::prelude::*;
use crate::types::{Span, StringId};
use crate::tir::TirRef;
use crate::vecmap::VecMap;

verus! {

/// Identity of one `if` arm within a function.
#[derive(Clone, Copy, PartialEq, Eq, Structural, Debug, Hash)]
pub struct BranchId(pub u32);

/// Branch ids of the arms of one `if`: then, each elif, else.
#[derive(Debug)]
pub struct IfBranchIds {
    pub then_branch: BranchId,
    pub elif_branches: Vec<BranchId>,
    pub else_branch: Option<BranchId>,
}

/// Free the allocation produced by `target` after instruction `after`,
/// only on arm `branch` when one is given.
#[derive(Clone, Copy, PartialEq, Eq, Structural, Debug)]
pub struct FreePoint {
    pub after: TirRef,
    pub target: TirRef,
    pub span: Span,
    pub branch: Option<BranchId>,
}

/// Per-function output of the ownership pass.
#[derive(Debug)]
pub struct FunctionSidecar {
    /// Name of the function this sidecar belongs to.
    pub name: StringId,
    pub free_schedule: Vec<FreePoint>,
    /// Reassignment instruction → the allocation it drops.
    pub free_on_reassign: VecMap<TirRef, TirRef>,
    /// `if` instruction → its arms' branch ids.
    pub if_branches: VecMap<TirRef, IfBranchIds>,
}

/// Output of the ownership pass for a whole program: entry `i` belongs
/// to the `i`-th function analysed.
#[derive(Debug)]
pub struct OwnershipSidecar {
    pub functions: Vec<FunctionSidecar>,
}

/// The ids of one `if`'s arms in order: then, elifs, else.
pub open spec fn arm_ids(b: IfBranchIds) -> Seq<u32> {
    seq![b.then_branch.0] + b.elif_branches@.map_values(|x: BranchId| x.0) + match b.else_branch {
        Some(e) => seq![e.0],
        None => Seq::empty(),
    }
}

impl FunctionSidecar {
    pub fn new(name: StringId) -> (s: FunctionSidecar)
        ensures
            s.wf(),
            s.name == name,
            s.free_schedule@ == Seq::<FreePoint>::empty(),
            s.free_on_reassign@ == Map::<TirRef, TirRef>::empty(),
            s.if_branches@ == Map::<TirRef, IfBranchIds>::empty(),
    {
        FunctionSidecar {
            name,
            free_schedule: Vec::new(),
            free_on_reassign: VecMap::new(),
            if_branches: VecMap::new(),
        }
    }

    pub open spec fn wf(&self) -> bool {
        self.free_on_reassign.wf() && self.if_branches.wf()
    }

    /// Append `other`'s free points and add its reassignment and `if`
    /// entries (they win over entries of `self` with the same key).
    pub fn absorb(&mut self, other: FunctionSidecar)
        requires
            old(self).wf(),
        ensures
            final(self).wf(),
            final(self).name == old(self).name,
            final(self).free_schedule@ == old(self).free_schedule@ + other.free_schedule@,
            final(self).free_on_reassign@ == old(self).free_on_reassign@.union_prefer_right(other.free_on_reassign@),
            final(self).if_branches@ == old(self).if_branches@.union_prefer_right(other.if_branches@),
    {
        let FunctionSidecar { name: _, free_schedule, free_on_reassign, if_branches } = other;
        let mut fs = free_schedule;
        self.free_schedule.append(&mut fs);
        self.free_on_reassign.absorb(free_on_reassign);
        self.if_branches.absorb(if_branches);
    }

    /// Every branch id handed out is below `next`, and no id is used by
    /// two arms.
    pub open spec fn branch_ids_ok(&self, next: u32) -> bool {
        ids_ok(self.if_branches@, next)
    }
}

/// Every id in `m` is below `next`, and no id is used by two arms.
pub open spec fn ids_ok(m: Map<TirRef, IfBranchIds>, next: u32) -> bool {
    &&& forall|k: TirRef, i: int|
        #![trigger m[k], arm_ids(m[k])[i]]
        m.contains_key(k) && 0 <= i < arm_ids(m[k]).len() ==> arm_ids(m[k])[i] < next
    &&& forall|k1: TirRef, i: int, k2: TirRef, j: int|
        #![trigger arm_ids(m[k1])[i], arm_ids(m[k2])[j]]
        m.contains_key(k1) && m.contains_key(k2) && 0 <= i < arm_ids(m[k1]).len() && 0 <= j
            < arm_ids(m[k2]).len() && (k1 != k2 || i != j) ==> arm_ids(m[k1])[i] != arm_ids(
            m[k2],
        )[j]
}

/// Every entry of `m1` that is not an entry of `m0` has all its ids at
/// or above `base`.
pub open spec fn fresh_ids(m0: Map<TirRef, IfBranchIds>, m1: Map<TirRef, IfBranchIds>, base: u32) -> bool {
    forall|k: TirRef, i: int|
        #![trigger m1[k], arm_ids(m1[k])[i]]
        m1.contains_key(k) && !(m0.contains_key(k) && m1[k] == m0[k]) && 0 <= i < arm_ids(m1[k]).len() ==> base
            <= arm_ids(m1[k])[i]
}

/// Recording ids at or above `base` for `k` is fresh at `base`.
pub proof fn lemma_fresh_insert(m: Map<TirRef, IfBranchIds>, k: TirRef, b: IfBranchIds, base: u32)
    requires
        forall|i: int| 0 <= i < arm_ids(b).len() ==> base <= #[trigger] arm_ids(b)[i],
    ensures
        fresh_ids(m, m.insert(k, b), base),
{
}

pub proof fn lemma_fresh_ids_trans(
    m0: Map<TirRef, IfBranchIds>,
    m1: Map<TirRef, IfBranchIds>,
    m2: Map<TirRef, IfBranchIds>,
    a: u32,
    b: u32,
)
    requires
        fresh_ids(m0, m1, a),
        fresh_ids(m1, m2, b),
        a <= b,
    ensures
        fresh_ids(m0, m2, a),
{
    assert forall|k: TirRef, i: int|
        m2.contains_key(k) && !(m0.contains_key(k) && m2[k] == m0[k]) && 0 <= i < arm_ids(m2[k]).len() implies a
            <= #[trigger] arm_ids(m2[k])[i] by {
        if m1.contains_key(k) && m2[k] == m1[k] {
            assert(arm_ids(m1[k])[i] == arm_ids(m2[k])[i]);
        }
    }
}

/// Adding entries whose ids are all at or above `base` to a map whose ids
/// are below `base` keeps the ids unique.
pub proof fn lemma_union_ids_ok(m0: Map<TirRef, IfBranchIds>, m1: Map<TirRef, IfBranchIds>, base: u32, next: u32)
    requires
        ids_ok(m0, base),
        ids_ok(m1, next),
        fresh_ids(Map::empty(), m1, base),
        base <= next,
    ensures
        ids_ok(m0.union_prefer_right(m1), next),
        fresh_ids(m0, m0.union_prefer_right(m1), base),
{
    let m2 = m0.union_prefer_right(m1);
    assert forall|k: TirRef, i: int| m2.contains_key(k) && 0 <= i < arm_ids(m2[k]).len() implies #[trigger] arm_ids(m2[k])[i] < next by {
        if m1.contains_key(k) {
            assert(arm_ids(m1[k])[i] < next);
        } else {
            assert(arm_ids(m0[k])[i] < base);
        }
    }
    assert forall|k1: TirRef, i: int, k2: TirRef, j: int|
        m2.contains_key(k1) && m2.contains_key(k2) && 0 <= i < arm_ids(m2[k1]).len() && 0 <= j
            < arm_ids(m2[k2]).len() && (k1 != k2 || i != j) implies #[trigger] arm_ids(m2[k1])[i] != #[trigger] arm_ids(
            m2[k2],
        )[j] by {
        if m1.contains_key(k1) {
            assert(base <= arm_ids(m1[k1])[i]);
            if m1.contains_key(k2) {
                assert(arm_ids(m1[k1])[i] != arm_ids(m1[k2])[j]);
            } else {
                assert(arm_ids(m0[k2])[j] < base);
            }
        } else {
            assert(arm_ids(m0[k1])[i] < base);
            if m1.contains_key(k2) {
                assert(base <= arm_ids(m1[k2])[j]);
            } else {
                assert(arm_ids(m0[k1])[i] != arm_ids(m0[k2])[j]);
            }
        }
    }
    assert forall|k: TirRef, i: int|
        m2.contains_key(k) && !(m0.contains_key(k) && m2[k] == m0[k]) && 0 <= i < arm_ids(m2[k]).len() implies base
            <= #[trigger] arm_ids(m2[k])[i] by {
        assert(m1.contains_key(k));
        assert(arm_ids(m1[k])[i] == arm_ids(m2[k])[i]);
    }
}

/// `b` is the id of some arm recorded in `m`.
pub open spec fn recorded(m: Map<TirRef, IfBranchIds>, b: u32) -> bool {
    exists|k: TirRef, i: int| #[trigger] m.contains_key(k) && 0 <= i < arm_ids(m[k]).len() && #[trigger] arm_ids(m[k])[i] == b
}

/// Every branch-gated free point is gated on an arm recorded in `m`.
pub open spec fn gated_ok(fs: Seq<FreePoint>, m: Map<TirRef, IfBranchIds>) -> bool {
    forall|j: int| 0 <= j < fs.len() && (#[trigger] fs[j]).branch is Some ==> recorded(m, fs[j].branch->Some_0.0)
}

/// Every entry of `m0` is an entry of `m1`.
pub open spec fn entries_kept(m0: Map<TirRef, IfBranchIds>, m1: Map<TirRef, IfBranchIds>) -> bool {
    forall|k: TirRef| #[trigger] m0.contains_key(k) ==> m1.contains_key(k) && m1[k] == m0[k]
}

pub proof fn lemma_gated_ok_concat(a: Seq<FreePoint>, b: Seq<FreePoint>, m: Map<TirRef, IfBranchIds>)
    requires
        gated_ok(a, m),
        gated_ok(b, m),
    ensures
        gated_ok(a + b, m),
{
    assert forall|j: int| 0 <= j < (a + b).len() && (#[trigger] (a + b)[j]).branch is Some implies recorded(m, (a + b)[j].branch->Some_0.0) by {
        if j < a.len() {
            assert((a + b)[j] == a[j]);
        } else {
            assert((a + b)[j] == b[j - a.len()]);
        }
    }
}

/// `fs1` extends `fs0` with ungated free points only.
pub open spec fn ungated_ext(fs0: Seq<FreePoint>, fs1: Seq<FreePoint>) -> bool {
    &&& fs0.len() <= fs1.len()
    &&& forall|j: int| 0 <= j < fs0.len() ==> #[trigger] fs1[j] == fs0[j]
    &&& forall|j: int| fs0.len() <= j < fs1.len() ==> (#[trigger] fs1[j]).branch is None
}

pub proof fn lemma_ungated_ext_gated(fs0: Seq<FreePoint>, fs1: Seq<FreePoint>, m: Map<TirRef, IfBranchIds>)
    requires
        gated_ok(fs0, m),
        ungated_ext(fs0, fs1),
    ensures
        gated_ok(fs1, m),
{
    assert forall|j: int| 0 <= j < fs1.len() && (#[trigger] fs1[j]).branch is Some implies recorded(m, fs1[j].branch->Some_0.0) by {
        assert(j < fs0.len());
        assert(fs1[j] == fs0[j]);
    }
}

/// Keeping entries keeps every gated free recorded.
pub proof fn lemma_gated_ok_mono(fs: Seq<FreePoint>, m0: Map<TirRef, IfBranchIds>, m1: Map<TirRef, IfBranchIds>)
    requires
        gated_ok(fs, m0),
        entries_kept(m0, m1),
    ensures
        gated_ok(fs, m1),
{
    assert forall|j: int| 0 <= j < fs.len() && (#[trigger] fs[j]).branch is Some implies recorded(m1, fs[j].branch->Some_0.0) by {
        let b = fs[j].branch->Some_0.0;
        let (k, i) = choose|k: TirRef, i: int| #[trigger] m0.contains_key(k) && 0 <= i < arm_ids(m0[k]).len() && #[trigger] arm_ids(m0[k])[i] == b;
        assert(m1.contains_key(k) && arm_ids(m1[k])[i] == b);
    }
}

/// Recording fresh ids (all at or above every earlier id, below `next`,
/// pairwise distinct) for an `if` keeps the ids unique.
pub proof fn lemma_record_fresh_ids(m: Map<TirRef, IfBranchIds>, k: TirRef, b: IfBranchIds, base: u32, next: u32)
    requires
        ids_ok(m, base),
        base <= next,
        forall|i: int| 0 <= i < arm_ids(b).len() ==> base <= #[trigger] arm_ids(b)[i] < next,
        forall|i: int, j: int| 0 <= i < arm_ids(b).len() && 0 <= j < arm_ids(b).len() && i != j ==> #[trigger] arm_ids(b)[i] != #[trigger] arm_ids(b)[j],
    ensures
        ids_ok(m.insert(k, b), next),
{
    let m2 = m.insert(k, b);
    assert forall|k1: TirRef, i: int, k2: TirRef, j: int|
        m2.contains_key(k1) && m2.contains_key(k2) && 0 <= i < arm_ids(m2[k1]).len() && 0 <= j
            < arm_ids(m2[k2]).len() && (k1 != k2 || i != j) implies #[trigger] arm_ids(m2[k1])[i] != #[trigger] arm_ids(
            m2[k2],
        )[j] by {
        if k1 == k {
            if k2 != k {
                assert(arm_ids(m[k2])[j] < base);
            }
        } else if k2 == k {
            assert(arm_ids(m[k1])[i] < base);
        }
    }
    assert forall|k1: TirRef, i: int|
        m2.contains_key(k1) && 0 <= i < arm_ids(m2[k1]).len() implies #[trigger] arm_ids(m2[k1])[i] < next by {
        if k1 != k {
            assert(arm_ids(m[k1])[i] < base);
        }
    }
}

} // verus!
