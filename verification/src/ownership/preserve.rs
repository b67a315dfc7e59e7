//! The joins keep the lattice consistent with the function: every owner a
//! merged state mentions came from one of the merged states.
use vstd::prelude::*;
use crate::types::StringId;
use crate::tir::Tir;
use crate::vecmap::VecMap;
use crate::ownership::lattice::{
    Ownership, Owner, OwnerState, PendingStore, join_states, join_all, override_bindings,
    union_owner_maps, union_origins, union_temps, union_reads, merge_pending, merge_pending_pre,
    merge_pending_local, loop_override,
};
use crate::ownership::owners::{
    owner_ok, own_ok, states_ok, co_ok, origin_ok, pending_ok, temps_ok, reads_ok,
};

verus! {

pub open spec fn all_own_ok(bs: Seq<Ownership>, tir: Tir) -> bool {
    forall|i: int| 0 <= i < bs.len() ==> own_ok(#[trigger] bs[i], tir)
}

pub proof fn lemma_join_states_ok(tir: Tir, a: Map<Owner, OwnerState>, b: Map<Owner, OwnerState>)
    requires
        states_ok(tir, a),
        states_ok(tir, b),
    ensures
        states_ok(tir, join_states(a, b)),
{
}

pub proof fn lemma_join_all_ok(tir: Tir, acc: Map<Owner, OwnerState>, bs: Seq<Ownership>)
    requires
        states_ok(tir, acc),
        all_own_ok(bs, tir),
    ensures
        states_ok(tir, join_all(acc, bs)),
    decreases bs.len(),
{
    if bs.len() > 0 {
        assert(all_own_ok(bs.drop_last(), tir)) by {
            assert forall|i: int| 0 <= i < bs.drop_last().len() implies own_ok(#[trigger] bs.drop_last()[i], tir) by {
                assert(bs.drop_last()[i] == bs[i]);
            }
        }
        lemma_join_all_ok(tir, acc, bs.drop_last());
        assert(own_ok(bs[bs.len() - 1], tir));
    }
}

/// Owners of the pre-branch bindings all refer to `tir`.
pub open spec fn pre_ok(tir: Tir, pre: Seq<(StringId, Owner)>) -> bool {
    forall|j: int| 0 <= j < pre.len() ==> owner_ok(tir, (#[trigger] pre[j]).1)
}

pub proof fn lemma_override_ok(tir: Tir, st: Map<Owner, OwnerState>, pre: Seq<(StringId, Owner)>, bs: Seq<Ownership>)
    requires
        states_ok(tir, st),
        pre_ok(tir, pre),
    ensures
        states_ok(tir, override_bindings(st, pre, bs)),
    decreases pre.len(),
{
    if pre.len() > 0 {
        assert(pre_ok(tir, pre.drop_last())) by {
            assert forall|j: int| 0 <= j < pre.drop_last().len() implies owner_ok(tir, (#[trigger] pre.drop_last()[j]).1) by {
                assert(pre.drop_last()[j] == pre[j]);
            }
        }
        lemma_override_ok(tir, st, pre.drop_last(), bs);
        assert(owner_ok(tir, pre[pre.len() - 1].1));
    }
}

pub proof fn lemma_loop_override_ok(
    tir: Tir,
    st: Map<Owner, OwnerState>,
    pre: Seq<(StringId, Owner)>,
    a: Map<Owner, OwnerState>,
    b: Map<Owner, OwnerState>,
    co: Map<StringId, Owner>,
)
    requires
        states_ok(tir, st),
        pre_ok(tir, pre),
    ensures
        states_ok(tir, loop_override(st, pre, a, b, co)),
    decreases pre.len(),
{
    if pre.len() > 0 {
        assert(pre_ok(tir, pre.drop_last())) by {
            assert forall|j: int| 0 <= j < pre.drop_last().len() implies owner_ok(tir, (#[trigger] pre.drop_last()[j]).1) by {
                assert(pre.drop_last()[j] == pre[j]);
            }
        }
        lemma_loop_override_ok(tir, st, pre.drop_last(), a, b, co);
        assert(owner_ok(tir, pre[pre.len() - 1].1));
    }
}

pub proof fn lemma_drop_last_ok(tir: Tir, bs: Seq<Ownership>)
    requires
        all_own_ok(bs, tir),
        bs.len() > 0,
    ensures
        all_own_ok(bs.drop_last(), tir),
        own_ok(bs.last(), tir),
{
    assert forall|i: int| 0 <= i < bs.drop_last().len() implies own_ok(#[trigger] bs.drop_last()[i], tir) by {
        assert(bs.drop_last()[i] == bs[i]);
    }
    assert(own_ok(bs[bs.len() - 1], tir));
}

pub proof fn lemma_unions_ok(tir: Tir, own: Ownership, bs: Seq<Ownership>)
    requires
        own_ok(own, tir),
        all_own_ok(bs, tir),
    ensures
        co_ok(tir, union_owner_maps(own.current_owner@, bs)),
        origin_ok(tir, union_origins(own.origin@, bs)),
        temps_ok(tir, union_temps(own.temp_owners@, bs)),
        reads_ok(tir, union_reads(own.owner_at_read@, bs)),
        pending_ok(tir, merge_pending(own.pending_dead_store@, bs)),
    decreases bs.len(),
{
    if bs.len() > 0 {
        lemma_drop_last_ok(tir, bs);
        lemma_unions_ok(tir, own, bs.drop_last());
    }
    lemma_pending_local_ok(tir, merge_pending_pre(own.pending_dead_store@, bs), own.pending_dead_store@, bs);
}

proof fn lemma_pending_local_ok(tir: Tir, acc: Map<Owner, PendingStore>, pre: Map<Owner, PendingStore>, bs: Seq<Ownership>)
    requires
        pending_ok(tir, acc),
        all_own_ok(bs, tir),
    ensures
        pending_ok(tir, merge_pending_local(acc, pre, bs)),
    decreases bs.len(),
{
    if bs.len() > 0 {
        lemma_drop_last_ok(tir, bs);
        lemma_pending_local_ok(tir, acc, pre, bs.drop_last());
    }
}

/// The pre-branch binding owners of a consistent lattice refer to `tir`.
pub proof fn lemma_pre_ok(tir: Tir, own: Ownership)
    requires
        own_ok(own, tir),
    ensures
        pre_ok(tir, own.current_owner.seq()),
{
    own.current_owner.lemma_view();
    assert forall|j: int| 0 <= j < own.current_owner.seq().len() implies owner_ok(tir, (#[trigger] own.current_owner.seq()[j]).1) by {
        assert(own.current_owner@[own.current_owner.seq()[j].0] == own.current_owner.seq()[j].1);
    }
}

/// The same holds of any well-formed table with the lattice's bindings.
pub proof fn lemma_pre_ok_of(tir: Tir, own: Ownership, co: VecMap<StringId, Owner>)
    requires
        own_ok(own, tir),
        co.wf(),
        co@ == own.current_owner@,
    ensures
        pre_ok(tir, co.seq()),
{
    co.lemma_view();
    assert forall|j: int| 0 <= j < co.seq().len() implies owner_ok(tir, (#[trigger] co.seq()[j]).1) by {
        assert(co@[co.seq()[j].0] == co.seq()[j].1);
    }
}

/// The merge of consistent lattices is consistent.
pub proof fn lemma_merged_ok(tir: Tir, own: Ownership, bs: Seq<Ownership>)
    requires
        own_ok(own, tir),
        all_own_ok(bs, tir),
    ensures
        ({
            let m = own.spec_merged(own.current_owner.seq(), bs);
            &&& states_ok(tir, m.0)
            &&& co_ok(tir, m.1)
            &&& origin_ok(tir, m.2)
            &&& temps_ok(tir, m.3)
            &&& reads_ok(tir, m.4)
            &&& pending_ok(tir, m.5)
        }),
{
    lemma_join_all_ok(tir, own.states@, bs);
    lemma_pre_ok(tir, own);
    lemma_override_ok(tir, join_all(own.states@, bs), own.current_owner.seq(), bs);
    lemma_unions_ok(tir, own, bs);
}

} // verus!
