//! Ownership lattice: per-owner states and the join used at control-flow
//! merges.
use vstd::prelude::*;
use crate::types::{Span, StringId};
use crate::tir::TirRef;
use crate::vecmap::{VecMap, MapKey, entries_map, keys_unique, has_key_at, lemma_entries_map_dom, lemma_entries_map_value};

verus! {

/// Per-owner ownership state. Copy-typed values are `NotTracked`;
/// move-typed values start `Valid`, are `Borrowed` when the function does
/// not own the buffer, and become `Moved` once consumed.
#[derive(Clone, Copy, PartialEq, Eq, Structural, Debug)]
pub enum OwnerState {
    NotTracked,
    Valid,
    Borrowed,
    Moved { moved_at: Span },
}

/// Who owns an allocation: a parameter (by name) or the instruction that
/// produced it.
#[derive(Clone, Copy, PartialEq, Eq, Structural, Debug, Hash)]
pub enum Owner {
    Param(StringId),
    Inst(TirRef),
}

impl MapKey for Owner {
    fn key_eq(&self, other: &Self) -> (r: bool) {
        *self == *other
    }
}

impl MapKey for StringId {
    fn key_eq(&self, other: &Self) -> (r: bool) {
        *self == *other
    }
}

impl MapKey for TirRef {
    fn key_eq(&self, other: &Self) -> (r: bool) {
        *self == *other
    }
}

impl Owner {
    /// The producing instruction of an `Inst` owner; `None` for a
    /// parameter.
    pub fn inst_tirref(self) -> (r: Option<TirRef>)
        ensures
            r == spec_inst_tirref(self),
    {
        match self {
            Owner::Inst(r) => Some(r),
            Owner::Param(_) => None,
        }
    }
}

pub open spec fn spec_inst_tirref(o: Owner) -> Option<TirRef> {
    match o {
        Owner::Inst(r) => Some(r),
        Owner::Param(_) => None,
    }
}

pub open spec fn is_moved(s: OwnerState) -> bool {
    s is Moved
}

/// Entry recorded for a binding that has not been read yet: its name, the
/// span of the declaring statement, and that statement.
pub type PendingStore = (StringId, Span, TirRef);

pub type Unit = ();

/// Per-function ownership state.
///
/// `states` is the lattice; `current_owner` maps each binding name to the
/// owner of its current allocation; `origin` maps an aliasing read to the
/// owner it reads; `pending_dead_store` holds the bindings not read yet;
/// `temp_owners` the allocations made during the walk; `owner_at_read`
/// the owner live at each read; `next_branch_id` allocates `if`-arm ids;
/// `inout_str_params` names the `inout` parameters of move type.
#[derive(Debug)]
pub struct Ownership {
    pub states: VecMap<Owner, OwnerState>,
    pub current_owner: VecMap<StringId, Owner>,
    pub origin: VecMap<TirRef, Option<Owner>>,
    pub pending_dead_store: VecMap<Owner, PendingStore>,
    pub temp_owners: VecMap<Owner, Unit>,
    pub owner_at_read: VecMap<TirRef, Owner>,
    pub next_branch_id: u32,
    pub inout_str_params: VecMap<StringId, Unit>,
}

/// The tables of an [`Ownership`], as maps.
pub struct Tables {
    pub states: Map<Owner, OwnerState>,
    pub current_owner: Map<StringId, Owner>,
    pub origin: Map<TirRef, Option<Owner>>,
    pub pending: Map<Owner, PendingStore>,
    pub temps: Map<Owner, Unit>,
    pub reads: Map<TirRef, Owner>,
    pub next_branch_id: u32,
    pub inout: Map<StringId, Unit>,
}

impl Ownership {
    pub open spec fn tables(&self) -> Tables {
        Tables {
            states: self.states@,
            current_owner: self.current_owner@,
            origin: self.origin@,
            pending: self.pending_dead_store@,
            temps: self.temp_owners@,
            reads: self.owner_at_read@,
            next_branch_id: self.next_branch_id,
            inout: self.inout_str_params@,
        }
    }

    pub open spec fn wf(&self) -> bool {
        &&& self.states.wf()
        &&& self.current_owner.wf()
        &&& self.origin.wf()
        &&& self.pending_dead_store.wf()
        &&& self.temp_owners.wf()
        &&& self.owner_at_read.wf()
        &&& self.inout_str_params.wf()
    }

    pub fn new() -> (o: Ownership)
        ensures
            o.wf(),
            o.states@ == Map::<Owner, OwnerState>::empty(),
            o.current_owner@ == Map::<StringId, Owner>::empty(),
            o.origin@ == Map::<TirRef, Option<Owner>>::empty(),
            o.pending_dead_store@ == Map::<Owner, PendingStore>::empty(),
            o.temp_owners@ == Map::<Owner, Unit>::empty(),
            o.owner_at_read@ == Map::<TirRef, Owner>::empty(),
            o.next_branch_id == 0,
            o.inout_str_params@ == Map::<StringId, Unit>::empty(),
    {
        Ownership {
            states: VecMap::new(),
            current_owner: VecMap::new(),
            origin: VecMap::new(),
            pending_dead_store: VecMap::new(),
            temp_owners: VecMap::new(),
            owner_at_read: VecMap::new(),
            next_branch_id: 0,
            inout_str_params: VecMap::new(),
        }
    }

    /// A field-for-field copy.
    pub fn copy(&self) -> (o: Ownership)
        ensures
            o.states@ == self.states@ && o.states.seq() == self.states.seq(),
            o.current_owner@ == self.current_owner@ && o.current_owner.seq() == self.current_owner.seq(),
            o.origin@ == self.origin@,
            o.pending_dead_store@ == self.pending_dead_store@,
            o.temp_owners@ == self.temp_owners@,
            o.owner_at_read@ == self.owner_at_read@,
            o.next_branch_id == self.next_branch_id,
            o.inout_str_params@ == self.inout_str_params@,
            self.wf() ==> o.wf(),
    {
        Ownership {
            states: self.states.copy(),
            current_owner: self.current_owner.copy(),
            origin: self.origin.copy(),
            pending_dead_store: self.pending_dead_store.copy(),
            temp_owners: self.temp_owners.copy(),
            owner_at_read: self.owner_at_read.copy(),
            next_branch_id: self.next_branch_id,
            inout_str_params: self.inout_str_params.copy(),
        }
    }
}

// ---------- Join building blocks ----------

/// Union where the left map wins on shared keys.
pub open spec fn union_first<K, V>(a: Map<K, V>, b: Map<K, V>) -> Map<K, V> {
    Map::new(
        |k: K| a.contains_key(k) || b.contains_key(k),
        |k: K|
            if a.contains_key(k) {
                a[k]
            } else {
                b[k]
            },
    )
}

/// State join of one branch into an accumulator: a key only in the branch
/// is taken from it; a shared key takes the branch's state when that
/// state is `Moved` and the accumulator's is not; otherwise the
/// accumulator's state (first observed) stays.
pub open spec fn join_states(acc: Map<Owner, OwnerState>, b: Map<Owner, OwnerState>) -> Map<
    Owner,
    OwnerState,
> {
    Map::new(
        |k: Owner| acc.contains_key(k) || b.contains_key(k),
        |k: Owner|
            if acc.contains_key(k) {
                if !is_moved(acc[k]) && b.contains_key(k) && is_moved(b[k]) {
                    b[k]
                } else {
                    acc[k]
                }
            } else {
                b[k]
            },
    )
}

proof fn lemma_take_push<K, V>(s: Seq<(K, V)>, j: int)
    requires
        0 <= j < s.len(),
    ensures
        entries_map(s.take(j + 1)) == entries_map(s.take(j)).insert(s[j].0, s[j].1),
{
    assert(s.take(j + 1).drop_last() =~= s.take(j));
}

proof fn lemma_take_fresh<K, V>(s: Seq<(K, V)>, j: int)
    requires
        0 <= j < s.len(),
        keys_unique(s),
    ensures
        !entries_map(s.take(j)).contains_key(s[j].0),
{
    lemma_entries_map_dom(s.take(j), s[j].0);
    if entries_map(s.take(j)).contains_key(s[j].0) {
        let i = choose|i: int| has_key_at(s.take(j), s[j].0, i);
        assert(s[i].0 == s[j].0);
    }
}

/// `acc := union_first(acc, b)`.
pub fn union_into<K: MapKey, V: Copy>(acc: &mut VecMap<K, V>, b: &VecMap<K, V>)
    requires
        old(acc).wf(),
        b.wf(),
    ensures
        final(acc).wf(),
        final(acc)@ == union_first(old(acc)@, b@),
{
    let ghost a0 = acc@;
    let ghost s = b.seq();
    proof {
        b.lemma_view();
    }
    let mut j: usize = 0;
    assert(entries_map(s.take(0)) =~= Map::<K, V>::empty());
    assert(acc@ =~= union_first(a0, entries_map(s.take(0))));
    while j < b.len()
        invariant
            j <= s.len(),
            s == b.seq(),
            keys_unique(s),
            acc.wf(),
            acc@ == union_first(a0, entries_map(s.take(j as int))),
        decreases s.len() - j,
    {
        let (k, v) = b.entry(j);
        proof {
            lemma_take_push(s, j as int);
            lemma_take_fresh(s, j as int);
        }
        if !acc.contains_key(k) {
            acc.insert(*k, *v);
        }
        assert(acc@ =~= union_first(a0, entries_map(s.take(j + 1))));
        j = j + 1;
    }
    assert(s.take(s.len() as int) =~= s);
}

/// `acc := join_states(acc, b)`.
pub fn join_states_into(acc: &mut VecMap<Owner, OwnerState>, b: &VecMap<Owner, OwnerState>)
    requires
        old(acc).wf(),
        b.wf(),
    ensures
        final(acc).wf(),
        final(acc)@ == join_states(old(acc)@, b@),
{
    let ghost a0 = acc@;
    let ghost s = b.seq();
    proof {
        b.lemma_view();
    }
    let mut j: usize = 0;
    assert(entries_map(s.take(0)) =~= Map::<Owner, OwnerState>::empty());
    assert(acc@ =~= join_states(a0, entries_map(s.take(0))));
    while j < b.len()
        invariant
            j <= s.len(),
            s == b.seq(),
            keys_unique(s),
            acc.wf(),
            acc@ == join_states(a0, entries_map(s.take(j as int))),
        decreases s.len() - j,
    {
        let (k, v) = b.entry(j);
        proof {
            lemma_take_push(s, j as int);
            lemma_take_fresh(s, j as int);
        }
        match acc.get(k) {
            Some(cur) => {
                let cur = *cur;
                let cur_moved = match cur {
                    OwnerState::Moved { .. } => true,
                    _ => false,
                };
                let new_moved = match *v {
                    OwnerState::Moved { .. } => true,
                    _ => false,
                };
                if !cur_moved && new_moved {
                    acc.insert(*k, *v);
                }
            },
            None => {
                acc.insert(*k, *v);
            },
        }
        assert(acc@ =~= join_states(a0, entries_map(s.take(j + 1))));
        j = j + 1;
    }
    assert(s.take(s.len() as int) =~= s);
}

// ---------- Branch merge ----------

/// Where branch `b` left binding `name`: its current owner there, or the
/// pre-branch owner if the branch dropped the binding.
pub open spec fn end_owner(b: Ownership, name: StringId, pre: Owner) -> Owner {
    if b.current_owner@.contains_key(name) {
        b.current_owner@[name]
    } else {
        pre
    }
}

/// State of `owner` in `b`, `NotTracked` when absent.
pub open spec fn state_or_untracked(m: Map<Owner, OwnerState>, owner: Owner) -> OwnerState {
    if m.contains_key(owner) {
        m[owner]
    } else {
        OwnerState::NotTracked
    }
}

/// Any-moved-wins, otherwise first-observed-wins, over a sequence of
/// candidate states.
pub open spec fn pick_state(cands: Seq<OwnerState>) -> Option<OwnerState>
    decreases cands.len(),
{
    if cands.len() == 0 {
        None
    } else {
        match pick_state(cands.drop_last()) {
            None => Some(cands.last()),
            Some(m) => if !is_moved(m) && is_moved(cands.last()) {
                Some(cands.last())
            } else {
                Some(m)
            },
        }
    }
}

/// Per-branch end states of binding `name` (pre-branch owner `pre`).
pub open spec fn binding_states(branches: Seq<Ownership>, name: StringId, pre: Owner) -> Seq<
    OwnerState,
> {
    branches.map_values(|b: Ownership| state_or_untracked(b.states@, end_owner(b, name, pre)))
}

/// Binding-aware override: for each pre-branch binding, in order, the
/// merged end state across branches is written onto its pre-branch owner.
pub open spec fn override_bindings(
    states: Map<Owner, OwnerState>,
    pre: Seq<(StringId, Owner)>,
    branches: Seq<Ownership>,
) -> Map<Owner, OwnerState>
    decreases pre.len(),
{
    if pre.len() == 0 {
        states
    } else {
        let acc = override_bindings(states, pre.drop_last(), branches);
        let (name, owner) = pre.last();
        match pick_state(binding_states(branches, name, owner)) {
            Some(s) => acc.insert(owner, s),
            None => acc,
        }
    }
}

/// Fold of `join_states` over the branches' states.
pub open spec fn join_all(acc: Map<Owner, OwnerState>, branches: Seq<Ownership>) -> Map<
    Owner,
    OwnerState,
>
    decreases branches.len(),
{
    if branches.len() == 0 {
        acc
    } else {
        join_states(join_all(acc, branches.drop_last()), branches.last().states@)
    }
}

pub open spec fn union_owner_maps(acc: Map<StringId, Owner>, branches: Seq<Ownership>) -> Map<
    StringId,
    Owner,
>
    decreases branches.len(),
{
    if branches.len() == 0 {
        acc
    } else {
        union_first(union_owner_maps(acc, branches.drop_last()), branches.last().current_owner@)
    }
}

pub open spec fn union_origins(acc: Map<TirRef, Option<Owner>>, branches: Seq<Ownership>) -> Map<
    TirRef,
    Option<Owner>,
>
    decreases branches.len(),
{
    if branches.len() == 0 {
        acc
    } else {
        union_first(union_origins(acc, branches.drop_last()), branches.last().origin@)
    }
}

pub open spec fn union_temps(acc: Map<Owner, Unit>, branches: Seq<Ownership>) -> Map<Owner, Unit>
    decreases branches.len(),
{
    if branches.len() == 0 {
        acc
    } else {
        union_first(union_temps(acc, branches.drop_last()), branches.last().temp_owners@)
    }
}

pub open spec fn union_reads(acc: Map<TirRef, Owner>, branches: Seq<Ownership>) -> Map<
    TirRef,
    Owner,
>
    decreases branches.len(),
{
    if branches.len() == 0 {
        acc
    } else {
        union_first(union_reads(acc, branches.drop_last()), branches.last().owner_at_read@)
    }
}

/// Largest `next_branch_id` among the branches (0 for none).
pub open spec fn max_branch_id(branches: Seq<Ownership>) -> u32
    decreases branches.len(),
{
    if branches.len() == 0 {
        0
    } else {
        let m = max_branch_id(branches.drop_last());
        if branches.last().next_branch_id > m {
            branches.last().next_branch_id
        } else {
            m
        }
    }
}

/// Pending dead stores after a join: a pre-branch entry survives only if
/// every branch still holds it; an entry introduced inside a branch is
/// kept, the last branch that holds it giving its value.
pub open spec fn merge_pending(pre: Map<Owner, PendingStore>, branches: Seq<Ownership>) -> Map<
    Owner,
    PendingStore,
> {
    merge_pending_local(merge_pending_pre(pre, branches), pre, branches)
}

pub open spec fn branches_wf(branches: Seq<Ownership>) -> bool {
    forall|i: int| 0 <= i < branches.len() ==> #[trigger] branches[i].wf()
}

impl Ownership {
    /// The join of `self` with the branch states at a control-flow merge.
    pub open spec fn spec_merged(self, pre_owners: Seq<(StringId, Owner)>, branches: Seq<Ownership>) -> (
        Map<Owner, OwnerState>,
        Map<StringId, Owner>,
        Map<TirRef, Option<Owner>>,
        Map<Owner, Unit>,
        Map<TirRef, Owner>,
        Map<Owner, PendingStore>,
        u32,
    ) {
        (
            override_bindings(join_all(self.states@, branches), pre_owners, branches),
            union_owner_maps(self.current_owner@, branches),
            union_origins(self.origin@, branches),
            union_temps(self.temp_owners@, branches),
            union_reads(self.owner_at_read@, branches),
            merge_pending(self.pending_dead_store@, branches),
            if max_branch_id(branches) > self.next_branch_id {
                max_branch_id(branches)
            } else {
                self.next_branch_id
            },
        )
    }
}

fn pick_binding_state(branches: &Vec<Ownership>, name: StringId, pre: Owner) -> (r: Option<
    OwnerState,
>)
    requires
        branches_wf(branches@),
    ensures
        r == pick_state(binding_states(branches@, name, pre)),
{
    let ghost cands = binding_states(branches@, name, pre);
    let mut merged: Option<OwnerState> = None;
    let mut i: usize = 0;
    assert(cands.take(0) =~= Seq::<OwnerState>::empty());
    while i < branches.len()
        invariant
            i <= branches@.len(),
            branches_wf(branches@),
            cands == binding_states(branches@, name, pre),
            merged == pick_state(cands.take(i as int)),
        decreases branches@.len() - i,
    {
        let b = &branches[i];
        assert(b.wf());
        let owner_b = match b.current_owner.get(&name) {
            Some(o) => *o,
            None => pre,
        };
        let state_b = match b.states.get(&owner_b) {
            Some(s) => *s,
            None => OwnerState::NotTracked,
        };
        assert(cands[i as int] == state_b);
        assert(cands.take(i + 1).drop_last() =~= cands.take(i as int));
        let take = match (&merged, &state_b) {
            (None, _) => true,
            (Some(OwnerState::Moved { .. }), _) => false,
            (_, OwnerState::Moved { .. }) => true,
            _ => false,
        };
        if take {
            merged = Some(state_b);
        }
        i = i + 1;
    }
    assert(cands.take(cands.len() as int) =~= cands);
    merged
}

impl Ownership {
    /// Conservatively merge per-branch lattices into `self`:
    /// `next_branch_id` becomes the maximum; `states` join with
    /// any-moved-wins (otherwise first observed), then every pre-branch
    /// binding's merged end state is written onto its pre-branch owner;
    /// `current_owner`, `origin`, `temp_owners`, `owner_at_read` are
    /// first-wins unions; pending dead stores intersect on pre-branch keys
    /// and union on branch-local keys.
    pub fn merge_branches(&mut self, branches: &Vec<Ownership>)
        requires
            old(self).wf(),
            branches_wf(branches@),
        ensures
            final(self).wf(),
            ({
                let m = old(self).spec_merged(old(self).current_owner.seq(), branches@);
                &&& final(self).states@ == m.0
                &&& final(self).current_owner@ == m.1
                &&& final(self).origin@ == m.2
                &&& final(self).temp_owners@ == m.3
                &&& final(self).owner_at_read@ == m.4
                &&& final(self).pending_dead_store@ == m.5
                &&& final(self).next_branch_id == m.6
            }),
            final(self).inout_str_params@ == old(self).inout_str_params@,
    {
        let ghost bs = branches@;
        let ghost old_self = *self;
        // next_branch_id: max across self and branches.
        let mut maxb: u32 = 0;
        let mut i: usize = 0;
        assert(bs.take(0) =~= Seq::<Ownership>::empty());
        while i < branches.len()
            invariant
                i <= bs.len(),
                bs == branches@,
                maxb == max_branch_id(bs.take(i as int)),
            decreases bs.len() - i,
        {
            assert(bs.take(i + 1).drop_last() =~= bs.take(i as int));
            if branches[i].next_branch_id > maxb {
                maxb = branches[i].next_branch_id;
            }
            i = i + 1;
        }
        assert(bs.take(bs.len() as int) =~= bs);
        if maxb > self.next_branch_id {
            self.next_branch_id = maxb;
        }
        let ghost nb = self.next_branch_id;
        // Snapshot of the pre-branch bindings.
        let pre_branch_owners = self.current_owner.copy();
        let ghost pre_seq = pre_branch_owners.seq();

        // states: join every branch.
        let mut i: usize = 0;
        while i < branches.len()
            invariant
                i <= bs.len(),
                bs == branches@,
                branches_wf(bs),
                self.wf(),
                self.states@ == join_all(old_self.states@, bs.take(i as int)),
                self.current_owner@ == old_self.current_owner@,
                self.origin@ == old_self.origin@,
                self.temp_owners@ == old_self.temp_owners@,
                self.owner_at_read@ == old_self.owner_at_read@,
                self.pending_dead_store@ == old_self.pending_dead_store@,
                self.inout_str_params@ == old_self.inout_str_params@,
                self.next_branch_id == nb,
            decreases bs.len() - i,
        {
            assert(bs.take(i + 1).drop_last() =~= bs.take(i as int));
            assert(branches[i as int].wf());
            join_states_into(&mut self.states, &branches[i].states);
            i = i + 1;
        }
        // current_owner / origin / temp_owners / owner_at_read: first-wins unions.
        let mut i: usize = 0;
        while i < branches.len()
            invariant
                i <= bs.len(),
                bs == branches@,
                branches_wf(bs),
                self.wf(),
                self.states@ == join_all(old_self.states@, bs),
                self.current_owner@ == union_owner_maps(old_self.current_owner@, bs.take(i as int)),
                self.origin@ == union_origins(old_self.origin@, bs.take(i as int)),
                self.temp_owners@ == union_temps(old_self.temp_owners@, bs.take(i as int)),
                self.owner_at_read@ == union_reads(old_self.owner_at_read@, bs.take(i as int)),
                self.pending_dead_store@ == old_self.pending_dead_store@,
                self.inout_str_params@ == old_self.inout_str_params@,
                self.next_branch_id == nb,
            decreases bs.len() - i,
        {
            assert(bs.take(i + 1).drop_last() =~= bs.take(i as int));
            assert(branches[i as int].wf());
            union_into(&mut self.current_owner, &branches[i].current_owner);
            union_into(&mut self.origin, &branches[i].origin);
            union_into(&mut self.temp_owners, &branches[i].temp_owners);
            union_into(&mut self.owner_at_read, &branches[i].owner_at_read);
            i = i + 1;
        }
        // Binding-aware override.
        let mut j: usize = 0;
        assert(pre_seq.take(0) =~= Seq::<(StringId, Owner)>::empty());
        while j < pre_branch_owners.len()
            invariant
                j <= pre_seq.len(),
                pre_seq == pre_branch_owners.seq(),
                pre_seq == old_self.current_owner.seq(),
                bs == branches@,
                branches_wf(bs),
                self.wf(),
                self.states@ == override_bindings(join_all(old_self.states@, bs), pre_seq.take(j as int), bs),
                self.current_owner@ == union_owner_maps(old_self.current_owner@, bs),
                self.origin@ == union_origins(old_self.origin@, bs),
                self.temp_owners@ == union_temps(old_self.temp_owners@, bs),
                self.owner_at_read@ == union_reads(old_self.owner_at_read@, bs),
                self.pending_dead_store@ == old_self.pending_dead_store@,
                self.inout_str_params@ == old_self.inout_str_params@,
                self.next_branch_id == nb,
            decreases pre_seq.len() - j,
        {
            assert(pre_seq.take(j + 1).drop_last() =~= pre_seq.take(j as int));
            let (name, owner_pre) = pre_branch_owners.entry(j);
            let name = *name;
            let owner_pre = *owner_pre;
            match pick_binding_state(branches, name, owner_pre) {
                Some(state) => {
                    self.states.insert(owner_pre, state);
                },
                None => {},
            }
            j = j + 1;
        }
        assert(pre_seq.take(pre_seq.len() as int) =~= pre_seq);
        // Pending dead stores: pre-branch keys intersect, branch-local keys union.
        let ghost pre_pending = self.pending_dead_store@;
        let pre_keys = self.pending_dead_store.copy();
        let mut keep: Vec<bool> = Vec::new();
        let mut q: usize = 0;
        while q < self.pending_dead_store.len()
            invariant
                q <= self.pending_dead_store.seq().len(),
                keep@.len() == q,
                bs == branches@,
                branches_wf(bs),
                self.states@ == override_bindings(join_all(old_self.states@, bs), pre_seq, bs),
                self.current_owner@ == union_owner_maps(old_self.current_owner@, bs),
                self.origin@ == union_origins(old_self.origin@, bs),
                self.temp_owners@ == union_temps(old_self.temp_owners@, bs),
                self.owner_at_read@ == union_reads(old_self.owner_at_read@, bs),
                self.inout_str_params@ == old_self.inout_str_params@,
                self.next_branch_id == nb,
                self.states.wf() && self.current_owner.wf() && self.origin.wf() && self.temp_owners.wf() && self.owner_at_read.wf() && self.inout_str_params.wf(),
                pre_seq == old_self.current_owner.seq(),
                self.pending_dead_store.wf(),
                self.pending_dead_store@ == old_self.pending_dead_store@,
                forall|a: int| 0 <= a < q ==> #[trigger] keep@[a] == (forall|t: int| 0 <= t < bs.len() ==> (#[trigger] bs[t]).pending_dead_store@.contains_key(self.pending_dead_store.seq()[a].0)),
            decreases self.pending_dead_store.seq().len() - q,
        {
            let (k, _) = self.pending_dead_store.entry(q);
            let mut all = true;
            let mut t: usize = 0;
            while t < branches.len()
                invariant
                    t <= bs.len(),
                    bs == branches@,
                    branches_wf(bs),
                    all == (forall|u: int| 0 <= u < t ==> (#[trigger] bs[u]).pending_dead_store@.contains_key(*k)),
                decreases bs.len() - t,
            {
                assert(bs[t as int].wf());
                if !branches[t].pending_dead_store.contains_key(k) {
                    all = false;
                }
                t = t + 1;
            }
            keep.push(all);
            q = q + 1;
        }
        self.pending_dead_store.retain_positions(keep);
        proof {
            pre_keys.lemma_view();
            assert(self.pending_dead_store@ =~= merge_pending_pre(pre_pending, bs)) by {
                assert forall|k: Owner| #[trigger] self.pending_dead_store@.contains_key(k) == merge_pending_pre(pre_pending, bs).contains_key(k) by {
                    if self.pending_dead_store@.contains_key(k) {
                        let a = choose|a: int| has_key_at(pre_keys.seq(), k, a) && keep@[a];
                    }
                    if merge_pending_pre(pre_pending, bs).contains_key(k) {
                        let a = choose|a: int| has_key_at(pre_keys.seq(), k, a);
                        assert(keep@[a]);
                    }
                }
            }
        }
        let mut i: usize = 0;
        while i < branches.len()
            invariant
                i <= bs.len(),
                bs == branches@,
                branches_wf(bs),
                pre_keys.wf(),
                pre_keys@ == pre_pending,
                self.pending_dead_store.wf(),
                self.pending_dead_store@ == merge_pending_local(merge_pending_pre(pre_pending, bs), pre_pending, bs.take(i as int)),
                self.states@ == override_bindings(join_all(old_self.states@, bs), pre_seq, bs),
                self.current_owner@ == union_owner_maps(old_self.current_owner@, bs),
                self.origin@ == union_origins(old_self.origin@, bs),
                self.temp_owners@ == union_temps(old_self.temp_owners@, bs),
                self.owner_at_read@ == union_reads(old_self.owner_at_read@, bs),
                self.inout_str_params@ == old_self.inout_str_params@,
                self.next_branch_id == nb,
                self.states.wf() && self.current_owner.wf() && self.origin.wf() && self.temp_owners.wf() && self.owner_at_read.wf() && self.inout_str_params.wf(),
                pre_seq == old_self.current_owner.seq(),
            decreases bs.len() - i,
        {
            assert(bs.take(i + 1).drop_last() =~= bs.take(i as int));
            let b = &branches[i];
            assert(b.wf());
            let ghost acc0 = self.pending_dead_store@;
            let ghost s = b.pending_dead_store.seq();
            proof {
                b.pending_dead_store.lemma_view();
            }
            let mut j: usize = 0;
            assert(entries_map(s.take(0)) =~= Map::<Owner, PendingStore>::empty());
            assert(self.pending_dead_store@ =~= overlay_fresh(acc0, pre_pending, entries_map(s.take(0))));
            while j < b.pending_dead_store.len()
                invariant
                    j <= s.len(),
                    s == b.pending_dead_store.seq(),
                    keys_unique(s),
                    pre_keys.wf(),
                    pre_keys@ == pre_pending,
                    self.pending_dead_store.wf(),
                    self.pending_dead_store@ == overlay_fresh(acc0, pre_pending, entries_map(s.take(j as int))),
                self.states@ == override_bindings(join_all(old_self.states@, branches@), pre_seq, branches@),
                self.current_owner@ == union_owner_maps(old_self.current_owner@, branches@),
                self.origin@ == union_origins(old_self.origin@, branches@),
                self.temp_owners@ == union_temps(old_self.temp_owners@, branches@),
                self.owner_at_read@ == union_reads(old_self.owner_at_read@, branches@),
                self.inout_str_params@ == old_self.inout_str_params@,
                self.next_branch_id == nb,
                self.states.wf() && self.current_owner.wf() && self.origin.wf() && self.temp_owners.wf() && self.owner_at_read.wf() && self.inout_str_params.wf(),
                pre_seq == old_self.current_owner.seq(),
                decreases s.len() - j,
            {
                let (k, v) = b.pending_dead_store.entry(j);
                proof {
                    lemma_take_push(s, j as int);
                }
                if !pre_keys.contains_key(k) {
                    self.pending_dead_store.insert(*k, *v);
                }
                assert(self.pending_dead_store@ =~= overlay_fresh(acc0, pre_pending, entries_map(s.take(j + 1))));
                j = j + 1;
            }
            assert(s.take(s.len() as int) =~= s);
            i = i + 1;
        }
        assert(bs.take(bs.len() as int) =~= bs);
    }
}

/// Pre-branch pending entries that every branch still holds.
pub open spec fn merge_pending_pre(pre: Map<Owner, PendingStore>, branches: Seq<Ownership>) -> Map<
    Owner,
    PendingStore,
> {
    Map::new(
        |k: Owner|
            pre.contains_key(k) && forall|t: int|
                0 <= t < branches.len() ==> (#[trigger] branches[t]).pending_dead_store@.contains_key(k),
        |k: Owner| pre[k],
    )
}

/// `acc` overlaid with the entries of `b` whose key is not in `pre`.
pub open spec fn overlay_fresh(
    acc: Map<Owner, PendingStore>,
    pre: Map<Owner, PendingStore>,
    b: Map<Owner, PendingStore>,
) -> Map<Owner, PendingStore> {
    Map::new(
        |k: Owner| acc.contains_key(k) || (b.contains_key(k) && !pre.contains_key(k)),
        |k: Owner|
            if b.contains_key(k) && !pre.contains_key(k) {
                b[k]
            } else {
                acc[k]
            },
    )
}

pub open spec fn merge_pending_local(
    acc: Map<Owner, PendingStore>,
    pre: Map<Owner, PendingStore>,
    branches: Seq<Ownership>,
) -> Map<Owner, PendingStore>
    decreases branches.len(),
{
    if branches.len() == 0 {
        acc
    } else {
        overlay_fresh(
            merge_pending_local(acc, pre, branches.drop_last()),
            pre,
            branches.last().pending_dead_store@,
        )
    }
}

// ---------- Loop back-edge merge ----------

pub open spec fn moved_in(m: Map<Owner, OwnerState>, k: Owner) -> bool {
    m.contains_key(k) && is_moved(m[k])
}

/// Two lattices disagree on the moved-ness of some owner (a missing entry
/// counts as not moved).
pub open spec fn spec_states_differ(a: Map<Owner, OwnerState>, b: Map<Owner, OwnerState>) -> bool {
    exists|k: Owner| moved_in(a, k) != moved_in(b, k)
}

/// Compare two lattices on the moved-ness of every owner.
pub fn states_differ_snapshot(a: &VecMap<Owner, OwnerState>, b: &VecMap<Owner, OwnerState>) -> (r:
    bool)
    requires
        a.wf(),
        b.wf(),
    ensures
        r == spec_states_differ(a@, b@),
{
    proof {
        a.lemma_view();
        b.lemma_view();
    }
    let mut i: usize = 0;
    while i < a.len()
        invariant
            i <= a.seq().len(),
            a.wf(),
            b.wf(),
            forall|j: int| 0 <= j < i ==> moved_in(a@, #[trigger] a.seq()[j].0) == moved_in(b@, a.seq()[j].0),
        decreases a.seq().len() - i,
    {
        let (k, av) = a.entry(i);
        proof {
            a.lemma_view();
        }
        let a_moved = match av {
            OwnerState::Moved { .. } => true,
            _ => false,
        };
        let b_moved = match b.get(k) {
            Some(OwnerState::Moved { .. }) => true,
            _ => false,
        };
        if a_moved != b_moved {
            assert(moved_in(a@, *k) != moved_in(b@, *k));
            return true;
        }
        i = i + 1;
    }
    let mut i: usize = 0;
    while i < b.len()
        invariant
            i <= b.seq().len(),
            a.wf(),
            b.wf(),
            forall|j: int| 0 <= j < a.seq().len() ==> moved_in(a@, #[trigger] a.seq()[j].0) == moved_in(b@, a.seq()[j].0),
            forall|j: int| 0 <= j < i ==> moved_in(a@, #[trigger] b.seq()[j].0) == moved_in(b@, b.seq()[j].0),
        decreases b.seq().len() - i,
    {
        let (k, bv) = b.entry(i);
        proof {
            a.lemma_view();
            b.lemma_view();
        }
        let b_moved = match bv {
            OwnerState::Moved { .. } => true,
            _ => false,
        };
        if b_moved && !a.contains_key(k) {
            assert(b@[b.seq()[i as int].0] == b.seq()[i as int].1);
            assert(moved_in(a@, *k) != moved_in(b@, *k));
            return true;
        }
        proof {
            if a@.contains_key(*k) {
                let j = choose|j: int| has_key_at(a.seq(), *k, j);
                assert(moved_in(a@, a.seq()[j].0) == moved_in(b@, a.seq()[j].0));
            }
        }
        i = i + 1;
    }
    proof {
        a.lemma_view();
        b.lemma_view();
        if spec_states_differ(a@, b@) {
            let k = choose|k: Owner| moved_in(a@, k) != moved_in(b@, k);
            if a@.contains_key(k) {
                let j = choose|j: int| has_key_at(a.seq(), k, j);
                assert(moved_in(a@, a.seq()[j].0) == moved_in(b@, a.seq()[j].0));
            } else {
                let j = choose|j: int| has_key_at(b.seq(), k, j);
                assert(moved_in(a@, b.seq()[j].0) == moved_in(b@, b.seq()[j].0));
            }
        }
    }
    false
}

/// End-of-iteration state of binding `name` merged with its entry state.
pub open spec fn loop_binding_state(
    snap_states: Map<Owner, OwnerState>,
    after_states: Map<Owner, OwnerState>,
    after_co: Map<StringId, Owner>,
    name: StringId,
    pre: Owner,
) -> OwnerState {
    let owner_after = if after_co.contains_key(name) {
        after_co[name]
    } else {
        pre
    };
    pick_state(
        seq![state_or_untracked(snap_states, pre), state_or_untracked(after_states, owner_after)],
    ).unwrap()
}

/// Binding-aware override at a loop back-edge, over the entry bindings in
/// order.
pub open spec fn loop_override(
    states: Map<Owner, OwnerState>,
    pre: Seq<(StringId, Owner)>,
    snap_states: Map<Owner, OwnerState>,
    after_states: Map<Owner, OwnerState>,
    after_co: Map<StringId, Owner>,
) -> Map<Owner, OwnerState>
    decreases pre.len(),
{
    if pre.len() == 0 {
        states
    } else {
        let acc = loop_override(states, pre.drop_last(), snap_states, after_states, after_co);
        let (name, owner) = pre.last();
        acc.insert(owner, loop_binding_state(snap_states, after_states, after_co, name, owner))
    }
}

/// Pending entries after a back-edge merge: exactly the keys still pending
/// after the body, valued from the entry state when present there.
pub open spec fn loop_pending(snap: Map<Owner, PendingStore>, after: Map<Owner, PendingStore>) -> Map<
    Owner,
    PendingStore,
> {
    Map::new(
        |k: Owner| after.contains_key(k),
        |k: Owner|
            if snap.contains_key(k) {
                snap[k]
            } else {
                after[k]
            },
    )
}

/// Merge only the non-monotone fields (`states`, `current_owner`,
/// `pending_dead_store`) of an entry snapshot and a post-body state into
/// `own`, leaving the monotone fields intact.
pub fn merge_non_monotone(
    own: &mut Ownership,
    snap_states: &VecMap<Owner, OwnerState>,
    after_states: &VecMap<Owner, OwnerState>,
    snap_current_owner: &VecMap<StringId, Owner>,
    after_current_owner: &VecMap<StringId, Owner>,
    snap_pending_dead_store: &VecMap<Owner, PendingStore>,
    after_pending_dead_store: &VecMap<Owner, PendingStore>,
)
    requires
        old(own).wf(),
        snap_states.wf(),
        after_states.wf(),
        snap_current_owner.wf(),
        after_current_owner.wf(),
        snap_pending_dead_store.wf(),
        after_pending_dead_store.wf(),
    ensures
        final(own).wf(),
        final(own).states@ == loop_override(
            join_states(snap_states@, after_states@),
            snap_current_owner.seq(),
            snap_states@,
            after_states@,
            after_current_owner@,
        ),
        final(own).current_owner@ == union_first(snap_current_owner@, after_current_owner@),
        final(own).pending_dead_store@ == loop_pending(
            snap_pending_dead_store@,
            after_pending_dead_store@,
        ),
        final(own).origin@ == old(own).origin@,
        final(own).temp_owners@ == old(own).temp_owners@,
        final(own).owner_at_read@ == old(own).owner_at_read@,
        final(own).next_branch_id == old(own).next_branch_id,
        final(own).inout_str_params@ == old(own).inout_str_params@,
{
    let mut merged_states = snap_states.copy();
    join_states_into(&mut merged_states, after_states);
    let ghost joined = merged_states@;
    let ghost pre = snap_current_owner.seq();
    let mut j: usize = 0;
    assert(pre.take(0) =~= Seq::<(StringId, Owner)>::empty());
    while j < snap_current_owner.len()
        invariant
            j <= pre.len(),
            pre == snap_current_owner.seq(),
            snap_states.wf(),
            after_states.wf(),
            after_current_owner.wf(),
            merged_states.wf(),
            merged_states@ == loop_override(joined, pre.take(j as int), snap_states@, after_states@, after_current_owner@),
        decreases pre.len() - j,
    {
        assert(pre.take(j + 1).drop_last() =~= pre.take(j as int));
        let (name, owner_pre) = snap_current_owner.entry(j);
        let owner_after = match after_current_owner.get(name) {
            Some(o) => *o,
            None => *owner_pre,
        };
        let state_snap = match snap_states.get(owner_pre) {
            Some(s) => *s,
            None => OwnerState::NotTracked,
        };
        let state_after = match after_states.get(&owner_after) {
            Some(s) => *s,
            None => OwnerState::NotTracked,
        };
        let ghost cands = seq![state_snap, state_after];
        assert(cands.drop_last() =~= seq![state_snap]);
        assert(seq![state_snap].drop_last() =~= Seq::<OwnerState>::empty());
        let snap_moved = match state_snap {
            OwnerState::Moved { .. } => true,
            _ => false,
        };
        let after_moved = match state_after {
            OwnerState::Moved { .. } => true,
            _ => false,
        };
        let merged = if !snap_moved && after_moved {
            state_after
        } else {
            state_snap
        };
        assert(pick_state(seq![state_snap].drop_last()) == None::<OwnerState>);
        assert(pick_state(seq![state_snap]) == Some(state_snap));
        assert(pick_state(cands) == Some(merged));
        assert(pre.take(j + 1).last() == (*name, *owner_pre));
        assert(state_snap == state_or_untracked(snap_states@, *owner_pre));
        assert(state_after == state_or_untracked(after_states@, owner_after));
        assert(loop_binding_state(snap_states@, after_states@, after_current_owner@, *name, *owner_pre) == merged);
        merged_states.insert(*owner_pre, merged);
        j = j + 1;
    }
    assert(pre.take(pre.len() as int) =~= pre);

    let mut merged_current_owner = snap_current_owner.copy();
    union_into(&mut merged_current_owner, after_current_owner);

    // Pending: snapshot keys still pending after the body keep their entry
    // value; keys introduced by the body are added.
    let mut keep: Vec<bool> = Vec::new();
    let mut q: usize = 0;
    while q < snap_pending_dead_store.len()
        invariant
            q <= snap_pending_dead_store.seq().len(),
            keep@.len() == q,
            after_pending_dead_store.wf(),
            forall|a: int| 0 <= a < q ==> #[trigger] keep@[a] == after_pending_dead_store@.contains_key(snap_pending_dead_store.seq()[a].0),
        decreases snap_pending_dead_store.seq().len() - q,
    {
        let (k, _) = snap_pending_dead_store.entry(q);
        keep.push(after_pending_dead_store.contains_key(k));
        q = q + 1;
    }
    let mut merged_pending = snap_pending_dead_store.copy();
    merged_pending.retain_positions(keep);
    let ghost retained = merged_pending@;
    proof {
        snap_pending_dead_store.lemma_view();
    }
    let ghost s = after_pending_dead_store.seq();
    proof {
        after_pending_dead_store.lemma_view();
    }
    let mut j: usize = 0;
    assert(entries_map(s.take(0)) =~= Map::<Owner, PendingStore>::empty());
    assert(merged_pending@ =~= overlay_fresh(retained, snap_pending_dead_store@, entries_map(s.take(0))));
    while j < after_pending_dead_store.len()
        invariant
            j <= s.len(),
            s == after_pending_dead_store.seq(),
            keys_unique(s),
            snap_pending_dead_store.wf(),
            merged_pending.wf(),
            merged_pending@ == overlay_fresh(retained, snap_pending_dead_store@, entries_map(s.take(j as int))),
        decreases s.len() - j,
    {
        let (k, v) = after_pending_dead_store.entry(j);
        proof {
            lemma_take_push(s, j as int);
        }
        if !snap_pending_dead_store.contains_key(k) {
            merged_pending.insert(*k, *v);
        }
        assert(merged_pending@ =~= overlay_fresh(retained, snap_pending_dead_store@, entries_map(s.take(j + 1))));
        j = j + 1;
    }
    assert(s.take(s.len() as int) =~= s);
    proof {
        let lp = loop_pending(snap_pending_dead_store@, after_pending_dead_store@);
        assert forall|k: Owner| #[trigger] merged_pending@.contains_key(k) == lp.contains_key(k) by {
            if retained.contains_key(k) {
                let a = choose|a: int| has_key_at(snap_pending_dead_store.seq(), k, a) && keep@[a];
            }
            if lp.contains_key(k) && snap_pending_dead_store@.contains_key(k) {
                let a = choose|a: int| has_key_at(snap_pending_dead_store.seq(), k, a);
                assert(keep@[a]);
                assert(retained.contains_key(k));
            }
        }
        assert(merged_pending@ =~= lp);
    }

    own.states = merged_states;
    own.current_owner = merged_current_owner;
    own.pending_dead_store = merged_pending;
}

// ---------- A fixed order of owners ----------

/// The order the exit passes visit owners in: parameters first, by name
/// handle, then instruction owners, by position.
pub open spec fn owner_lt(a: Owner, b: Owner) -> bool {
    match (a, b) {
        (Owner::Param(x), Owner::Param(y)) => x.0 < y.0,
        (Owner::Param(_), Owner::Inst(_)) => true,
        (Owner::Inst(_), Owner::Param(_)) => false,
        (Owner::Inst(x), Owner::Inst(y)) => x.0 < y.0,
    }
}

/// The entries of `s` are in strictly increasing owner order.
pub open spec fn owners_sorted<V>(s: Seq<(Owner, V)>) -> bool {
    forall|i: int, j: int| 0 <= i < j < s.len() ==> owner_lt(#[trigger] s[i].0, #[trigger] s[j].0)
}

/// The owners of `s` are in strictly increasing owner order.
pub open spec fn owner_seq_sorted(s: Seq<Owner>) -> bool {
    forall|i: int, j: int| 0 <= i < j < s.len() ==> owner_lt(#[trigger] s[i], #[trigger] s[j])
}

fn owner_less(a: Owner, b: Owner) -> (r: bool)
    ensures
        r == owner_lt(a, b),
{
    match (a, b) {
        (Owner::Param(x), Owner::Param(y)) => x.0 < y.0,
        (Owner::Param(_), Owner::Inst(_)) => true,
        (Owner::Inst(_), Owner::Param(_)) => false,
        (Owner::Inst(x), Owner::Inst(y)) => x.0 < y.0,
    }
}

/// Two key-unique entry lists holding the same entries build the same map.
pub proof fn lemma_entries_map_same<K, V>(a: Seq<(K, V)>, b: Seq<(K, V)>)
    requires
        keys_unique(a),
        keys_unique(b),
        forall|x: (K, V)| a.contains(x) <==> b.contains(x),
    ensures
        entries_map(a) == entries_map(b),
{
    assert forall|k: K| #[trigger] entries_map(a).contains_key(k) <==> entries_map(b).contains_key(k) by {
        lemma_entries_map_dom(a, k);
        lemma_entries_map_dom(b, k);
        if exists|i: int| has_key_at(a, k, i) {
            let i = choose|i: int| has_key_at(a, k, i);
            assert(a.contains(a[i]));
            let j = choose|j: int| 0 <= j < b.len() && b[j] == a[i];
            assert(has_key_at(b, k, j));
        }
        if exists|j: int| has_key_at(b, k, j) {
            let j = choose|j: int| has_key_at(b, k, j);
            assert(b.contains(b[j]));
            let i = choose|i: int| 0 <= i < a.len() && a[i] == b[j];
            assert(has_key_at(a, k, i));
        }
    }
    assert forall|k: K| #[trigger] entries_map(a).contains_key(k) implies entries_map(a)[k] == entries_map(b)[k] by {
        lemma_entries_map_dom(a, k);
        let i = choose|i: int| has_key_at(a, k, i);
        lemma_entries_map_value(a, i);
        assert(a.contains(a[i]));
        let j = choose|j: int| 0 <= j < b.len() && b[j] == a[i];
        lemma_entries_map_value(b, j);
    }
    assert(entries_map(a) =~= entries_map(b));
}

/// Law: the owner order is unique. Two owner-sorted entry lists that build
/// the same map are the same list, so an order fixed by owner is a
/// function of the table alone.
pub proof fn lemma_owners_sorted_unique<V>(a: Seq<(Owner, V)>, b: Seq<(Owner, V)>)
    requires
        owners_sorted(a),
        owners_sorted(b),
        entries_map(a) == entries_map(b),
    ensures
        a == b,
    decreases a.len(),
{
    lemma_owners_sorted_keys_unique(a);
    lemma_owners_sorted_keys_unique(b);
    if a.len() == 0 || b.len() == 0 {
        if a.len() > 0 {
            lemma_entries_map_value(a, 0);
            lemma_entries_map_dom(b, a[0].0);
        }
        if b.len() > 0 {
            lemma_entries_map_value(b, 0);
            lemma_entries_map_dom(a, b[0].0);
        }
        assert(a =~= b);
    } else {
        // The last entries carry the largest owner on both sides.
        let la = a.last();
        let lb = b.last();
        lemma_entries_map_value(a, a.len() - 1);
        lemma_entries_map_value(b, b.len() - 1);
        lemma_entries_map_dom(a, lb.0);
        lemma_entries_map_dom(b, la.0);
        let i = choose|i: int| has_key_at(a, lb.0, i);
        let j = choose|j: int| has_key_at(b, la.0, j);
        if i < a.len() - 1 {
            assert(owner_lt(a[i].0, a[a.len() - 1].0));
            if j < b.len() - 1 {
                assert(owner_lt(b[j].0, b[b.len() - 1].0));
                lemma_owner_lt_asym(la.0, lb.0);
            }
        }
        if j < b.len() - 1 {
            assert(owner_lt(b[j].0, b[b.len() - 1].0));
        }
        assert(la.0 == lb.0) by {
            if la.0 != lb.0 {
                if i < a.len() - 1 && j < b.len() - 1 {
                    lemma_owner_lt_asym(la.0, lb.0);
                } else if i == a.len() - 1 {
                    assert(a[i].0 == la.0);
                } else {
                    assert(b[j].0 == lb.0);
                }
            }
        }
        assert(la.1 == lb.1);
        let da = a.drop_last();
        let db = b.drop_last();
        assert(owners_sorted(da));
        assert(owners_sorted(db));
        lemma_owners_sorted_keys_unique(da);
        lemma_owners_sorted_keys_unique(db);
        assert(entries_map(a) == entries_map(da).insert(la.0, la.1));
        assert(entries_map(b) == entries_map(db).insert(lb.0, lb.1));
        assert(!entries_map(da).contains_key(la.0)) by {
            lemma_entries_map_dom(da, la.0);
            if exists|q: int| has_key_at(da, la.0, q) {
                let q = choose|q: int| has_key_at(da, la.0, q);
                assert(a[q].0 == a[a.len() - 1].0);
            }
        }
        assert(!entries_map(db).contains_key(lb.0)) by {
            lemma_entries_map_dom(db, lb.0);
            if exists|q: int| has_key_at(db, lb.0, q) {
                let q = choose|q: int| has_key_at(db, lb.0, q);
                assert(b[q].0 == b[b.len() - 1].0);
            }
        }
        assert(entries_map(da) == entries_map(a).remove(la.0));
        assert(entries_map(db) == entries_map(b).remove(lb.0));
        lemma_owners_sorted_unique(da, db);
        assert(a =~= da.push(la));
        assert(b =~= db.push(lb));
    }
}

proof fn lemma_owner_lt_asym(a: Owner, b: Owner)
    ensures
        !(owner_lt(a, b) && owner_lt(b, a)),
        a != b ==> owner_lt(a, b) || owner_lt(b, a),
        !owner_lt(a, a),
{
}

proof fn lemma_owner_lt_trans(a: Owner, b: Owner, c: Owner)
    requires
        owner_lt(a, b),
        owner_lt(b, c),
    ensures
        owner_lt(a, c),
{
}

proof fn lemma_owners_sorted_keys_unique<V>(s: Seq<(Owner, V)>)
    requires
        owners_sorted(s),
    ensures
        keys_unique(s),
{
    assert forall|i: int, j: int| 0 <= i < s.len() && 0 <= j < s.len() && i != j implies #[trigger] s[i].0 != #[trigger] s[j].0 by {
        if i < j {
            lemma_owner_lt_asym(s[i].0, s[j].0);
        } else {
            lemma_owner_lt_asym(s[j].0, s[i].0);
        }
    }
}

/// The table `m` with its entries rearranged in owner order.
pub fn sort_by_owner<V: Copy>(m: &VecMap<Owner, V>) -> (r: VecMap<Owner, V>)
    requires
        m.wf(),
    ensures
        r.wf(),
        r@ == m@,
        owners_sorted(r.seq()),
{
    proof {
        m.lemma_view();
    }
    let ghost src = m.seq();
    let mut out: Vec<(Owner, V)> = Vec::new();
    let mut i: usize = 0;
    while i < m.len()
        invariant
            i <= src.len(),
            src == m.seq(),
            keys_unique(src),
            owners_sorted(out@),
            forall|x: (Owner, V)| out@.contains(x) <==> src.take(i as int).contains(x),
        decreases src.len() - i,
    {
        let (k, v) = m.entry(i);
        let e = (*k, *v);
        assert(e == src[i as int]);
        // Position: the first entry not below `e`.
        let mut p: usize = 0;
        while p < out.len() && owner_less(out[p].0, e.0)
            invariant
                p <= out@.len(),
                forall|q: int| 0 <= q < p ==> owner_lt((#[trigger] out@[q]).0, e.0),
            decreases out@.len() - p,
        {
            p = p + 1;
        }
        proof {
            // `e`'s owner is new to `out`.
            assert forall|q: int| 0 <= q < out@.len() implies (#[trigger] out@[q]).0 != e.0 by {
                assert(out@.contains(out@[q]));
                assert(src.take(i as int).contains(out@[q]));
                let t = choose|t: int| 0 <= t < i && src.take(i as int)[t] == out@[q];
                assert(src[t] == out@[q]);
            }
            if p < out@.len() {
                assert(!owner_lt(out@[p as int].0, e.0));
                lemma_owner_lt_asym(out@[p as int].0, e.0);
            }
        }
        let ghost before = out@;
        out.insert(p, e);
        proof {
            assert(out@ == before.insert(p as int, e));
            assert forall|a: int, b: int| 0 <= a < b < out@.len() implies owner_lt(#[trigger] out@[a].0, #[trigger] out@[b].0) by {
                if b < p {
                    assert(out@[a] == before[a] && out@[b] == before[b]);
                } else if b == p {
                    assert(out@[a] == before[a]);
                } else if a < p {
                    assert(out@[a] == before[a] && out@[b] == before[b - 1]);
                    if b - 1 > p {
                        lemma_owner_lt_trans(e.0, before[p as int].0, before[b - 1].0);
                    }
                    lemma_owner_lt_trans(before[a].0, e.0, before[b - 1].0);
                } else if a == p {
                    assert(out@[b] == before[b - 1]);
                    if b - 1 > p {
                        lemma_owner_lt_trans(e.0, before[p as int].0, before[b - 1].0);
                    }
                } else {
                    assert(out@[a] == before[a - 1] && out@[b] == before[b - 1]);
                }
            }
            let s0 = src.take(i as int);
            let s1 = src.take(i + 1);
            assert(s1 == s0.push(e));
            assert forall|x: (Owner, V)| out@.contains(x) <==> s1.contains(x) by {
                if out@.contains(x) {
                    let q = choose|q: int| 0 <= q < out@.len() && out@[q] == x;
                    if q < p {
                        assert(before[q] == x);
                        assert(before.contains(x));
                    } else if q > p {
                        assert(before[q - 1] == x);
                        assert(before.contains(x));
                    }
                    if x != e {
                        assert(s0.contains(x));
                        let t = choose|t: int| 0 <= t < s0.len() && s0[t] == x;
                        assert(s1[t] == x);
                    } else {
                        assert(s1[i as int] == e);
                    }
                }
                if s1.contains(x) {
                    let t = choose|t: int| 0 <= t < s1.len() && s1[t] == x;
                    if t < i {
                        assert(s0[t] == x);
                        assert(s0.contains(x));
                        assert(before.contains(x));
                        let q = choose|q: int| 0 <= q < before.len() && before[q] == x;
                        if q < p {
                            assert(out@[q] == x);
                        } else {
                            assert(out@[q + 1] == x);
                        }
                    } else {
                        assert(out@[p as int] == e);
                    }
                }
            }
        }
        i = i + 1;
    }
    proof {
        assert(src.take(src.len() as int) =~= src);
        lemma_owners_sorted_keys_unique(out@);
        lemma_entries_map_same(out@, src);
    }
    // Build the map in that order.
    let mut r: VecMap<Owner, V> = VecMap::new();
    let mut j: usize = 0;
    while j < out.len()
        invariant
            j <= out@.len(),
            owners_sorted(out@),
            keys_unique(out@),
            r.wf(),
            r.seq() == out@.take(j as int),
        decreases out@.len() - j,
    {
        let e = out[j];
        proof {
            r.lemma_view();
            if r@.contains_key(e.0) {
                let q = choose|q: int| has_key_at(r.seq(), e.0, q);
                assert(out@[q].0 == out@[j as int].0);
            }
        }
        r.insert(e.0, e.1);
        assert(r.seq() =~= out@.take(j + 1));
        j = j + 1;
    }
    proof {
        assert(out@.take(out@.len() as int) =~= out@);
        r.lemma_view();
    }
    r
}

/// Names in increasing handle order.
pub open spec fn name_lt(a: StringId, b: StringId) -> bool {
    a.0 < b.0
}

/// The entries of `s` are in strictly increasing name order.
pub open spec fn names_sorted<V>(s: Seq<(StringId, V)>) -> bool {
    forall|i: int, j: int| 0 <= i < j < s.len() ==> name_lt(#[trigger] s[i].0, #[trigger] s[j].0)
}

fn name_less(a: StringId, b: StringId) -> (r: bool)
    ensures
        r == name_lt(a, b),
{
    a.0 < b.0
}

proof fn lemma_name_lt_asym(a: StringId, b: StringId)
    ensures
        !(name_lt(a, b) && name_lt(b, a)),
        a != b ==> name_lt(a, b) || name_lt(b, a),
        !name_lt(a, a),
{
}

proof fn lemma_name_lt_trans(a: StringId, b: StringId, c: StringId)
    requires
        name_lt(a, b),
        name_lt(b, c),
    ensures
        name_lt(a, c),
{
}

proof fn lemma_names_sorted_keys_unique<V>(s: Seq<(StringId, V)>)
    requires
        names_sorted(s),
    ensures
        keys_unique(s),
{
    assert forall|i: int, j: int| 0 <= i < s.len() && 0 <= j < s.len() && i != j implies #[trigger] s[i].0 != #[trigger] s[j].0 by {
        if i < j {
            lemma_name_lt_asym(s[i].0, s[j].0);
        } else {
            lemma_name_lt_asym(s[j].0, s[i].0);
        }
    }
}

/// Law: the name order is unique. Two name-sorted entry lists that build
/// the same map are the same list.
pub proof fn lemma_names_sorted_unique<V>(a: Seq<(StringId, V)>, b: Seq<(StringId, V)>)
    requires
        names_sorted(a),
        names_sorted(b),
        entries_map(a) == entries_map(b),
    ensures
        a == b,
    decreases a.len(),
{
    lemma_names_sorted_keys_unique(a);
    lemma_names_sorted_keys_unique(b);
    if a.len() == 0 || b.len() == 0 {
        if a.len() > 0 {
            lemma_entries_map_value(a, 0);
            lemma_entries_map_dom(b, a[0].0);
        }
        if b.len() > 0 {
            lemma_entries_map_value(b, 0);
            lemma_entries_map_dom(a, b[0].0);
        }
        assert(a =~= b);
    } else {
        // The last entries carry the largest owner on both sides.
        let la = a.last();
        let lb = b.last();
        lemma_entries_map_value(a, a.len() - 1);
        lemma_entries_map_value(b, b.len() - 1);
        lemma_entries_map_dom(a, lb.0);
        lemma_entries_map_dom(b, la.0);
        let i = choose|i: int| has_key_at(a, lb.0, i);
        let j = choose|j: int| has_key_at(b, la.0, j);
        if i < a.len() - 1 {
            assert(name_lt(a[i].0, a[a.len() - 1].0));
            if j < b.len() - 1 {
                assert(name_lt(b[j].0, b[b.len() - 1].0));
                lemma_name_lt_asym(la.0, lb.0);
            }
        }
        if j < b.len() - 1 {
            assert(name_lt(b[j].0, b[b.len() - 1].0));
        }
        assert(la.0 == lb.0) by {
            if la.0 != lb.0 {
                if i < a.len() - 1 && j < b.len() - 1 {
                    lemma_name_lt_asym(la.0, lb.0);
                } else if i == a.len() - 1 {
                    assert(a[i].0 == la.0);
                } else {
                    assert(b[j].0 == lb.0);
                }
            }
        }
        assert(la.1 == lb.1);
        let da = a.drop_last();
        let db = b.drop_last();
        assert(names_sorted(da));
        assert(names_sorted(db));
        lemma_names_sorted_keys_unique(da);
        lemma_names_sorted_keys_unique(db);
        assert(entries_map(a) == entries_map(da).insert(la.0, la.1));
        assert(entries_map(b) == entries_map(db).insert(lb.0, lb.1));
        assert(!entries_map(da).contains_key(la.0)) by {
            lemma_entries_map_dom(da, la.0);
            if exists|q: int| has_key_at(da, la.0, q) {
                let q = choose|q: int| has_key_at(da, la.0, q);
                assert(a[q].0 == a[a.len() - 1].0);
            }
        }
        assert(!entries_map(db).contains_key(lb.0)) by {
            lemma_entries_map_dom(db, lb.0);
            if exists|q: int| has_key_at(db, lb.0, q) {
                let q = choose|q: int| has_key_at(db, lb.0, q);
                assert(b[q].0 == b[b.len() - 1].0);
            }
        }
        assert(entries_map(da) == entries_map(a).remove(la.0));
        assert(entries_map(db) == entries_map(b).remove(lb.0));
        lemma_names_sorted_unique(da, db);
        assert(a =~= da.push(la));
        assert(b =~= db.push(lb));
    }
}

/// The table `m` with its entries rearranged in name order.
pub fn sort_by_name<V: Copy>(m: &VecMap<StringId, V>) -> (r: VecMap<StringId, V>)
    requires
        m.wf(),
    ensures
        r.wf(),
        r@ == m@,
        names_sorted(r.seq()),
{
    proof {
        m.lemma_view();
    }
    let ghost src = m.seq();
    let mut out: Vec<(StringId, V)> = Vec::new();
    let mut i: usize = 0;
    while i < m.len()
        invariant
            i <= src.len(),
            src == m.seq(),
            keys_unique(src),
            names_sorted(out@),
            forall|x: (StringId, V)| out@.contains(x) <==> src.take(i as int).contains(x),
        decreases src.len() - i,
    {
        let (k, v) = m.entry(i);
        let e = (*k, *v);
        assert(e == src[i as int]);
        // Position: the first entry not below `e`.
        let mut p: usize = 0;
        while p < out.len() && name_less(out[p].0, e.0)
            invariant
                p <= out@.len(),
                forall|q: int| 0 <= q < p ==> name_lt((#[trigger] out@[q]).0, e.0),
            decreases out@.len() - p,
        {
            p = p + 1;
        }
        proof {
            // `e`'s owner is new to `out`.
            assert forall|q: int| 0 <= q < out@.len() implies (#[trigger] out@[q]).0 != e.0 by {
                assert(out@.contains(out@[q]));
                assert(src.take(i as int).contains(out@[q]));
                let t = choose|t: int| 0 <= t < i && src.take(i as int)[t] == out@[q];
                assert(src[t] == out@[q]);
            }
            if p < out@.len() {
                assert(!name_lt(out@[p as int].0, e.0));
                lemma_name_lt_asym(out@[p as int].0, e.0);
            }
        }
        let ghost before = out@;
        out.insert(p, e);
        proof {
            assert(out@ == before.insert(p as int, e));
            assert forall|a: int, b: int| 0 <= a < b < out@.len() implies name_lt(#[trigger] out@[a].0, #[trigger] out@[b].0) by {
                if b < p {
                    assert(out@[a] == before[a] && out@[b] == before[b]);
                } else if b == p {
                    assert(out@[a] == before[a]);
                } else if a < p {
                    assert(out@[a] == before[a] && out@[b] == before[b - 1]);
                    if b - 1 > p {
                        lemma_name_lt_trans(e.0, before[p as int].0, before[b - 1].0);
                    }
                    lemma_name_lt_trans(before[a].0, e.0, before[b - 1].0);
                } else if a == p {
                    assert(out@[b] == before[b - 1]);
                    if b - 1 > p {
                        lemma_name_lt_trans(e.0, before[p as int].0, before[b - 1].0);
                    }
                } else {
                    assert(out@[a] == before[a - 1] && out@[b] == before[b - 1]);
                }
            }
            let s0 = src.take(i as int);
            let s1 = src.take(i + 1);
            assert(s1 == s0.push(e));
            assert forall|x: (StringId, V)| out@.contains(x) <==> s1.contains(x) by {
                if out@.contains(x) {
                    let q = choose|q: int| 0 <= q < out@.len() && out@[q] == x;
                    if q < p {
                        assert(before[q] == x);
                        assert(before.contains(x));
                    } else if q > p {
                        assert(before[q - 1] == x);
                        assert(before.contains(x));
                    }
                    if x != e {
                        assert(s0.contains(x));
                        let t = choose|t: int| 0 <= t < s0.len() && s0[t] == x;
                        assert(s1[t] == x);
                    } else {
                        assert(s1[i as int] == e);
                    }
                }
                if s1.contains(x) {
                    let t = choose|t: int| 0 <= t < s1.len() && s1[t] == x;
                    if t < i {
                        assert(s0[t] == x);
                        assert(s0.contains(x));
                        assert(before.contains(x));
                        let q = choose|q: int| 0 <= q < before.len() && before[q] == x;
                        if q < p {
                            assert(out@[q] == x);
                        } else {
                            assert(out@[q + 1] == x);
                        }
                    } else {
                        assert(out@[p as int] == e);
                    }
                }
            }
        }
        i = i + 1;
    }
    proof {
        assert(src.take(src.len() as int) =~= src);
        lemma_names_sorted_keys_unique(out@);
        lemma_entries_map_same(out@, src);
    }
    // Build the map in that order.
    let mut r: VecMap<StringId, V> = VecMap::new();
    let mut j: usize = 0;
    while j < out.len()
        invariant
            j <= out@.len(),
            names_sorted(out@),
            keys_unique(out@),
            r.wf(),
            r.seq() == out@.take(j as int),
        decreases out@.len() - j,
    {
        let e = out[j];
        proof {
            r.lemma_view();
            if r@.contains_key(e.0) {
                let q = choose|q: int| has_key_at(r.seq(), e.0, q);
                assert(out@[q].0 == out@[j as int].0);
            }
        }
        r.insert(e.0, e.1);
        assert(r.seq() =~= out@.take(j + 1));
        j = j + 1;
    }
    proof {
        assert(out@.take(out@.len() as int) =~= out@);
        r.lemma_view();
    }
    r
}

// ---------- Laws of the join ----------

/// Any-moved-wins: a state that is `Moved` in some branch is `Moved` after
/// joining all branches.
pub proof fn lemma_join_all_moved_wins(acc: Map<Owner, OwnerState>, branches: Seq<Ownership>, k: Owner, i: int)
    requires
        0 <= i < branches.len(),
        moved_in(branches[i].states@, k),
    ensures
        moved_in(join_all(acc, branches), k),
    decreases branches.len(),
{
    if i < branches.len() - 1 {
        lemma_join_all_moved_wins(acc, branches.drop_last(), k, i);
        assert(branches.drop_last()[i] == branches[i]);
    }
}

/// Joining keeps every owner the accumulator had moved.
pub proof fn lemma_join_all_keeps_moved(acc: Map<Owner, OwnerState>, branches: Seq<Ownership>, k: Owner)
    requires
        moved_in(acc, k),
    ensures
        moved_in(join_all(acc, branches), k),
    decreases branches.len(),
{
    if branches.len() > 0 {
        lemma_join_all_keeps_moved(acc, branches.drop_last(), k);
    }
}

/// Any-moved-wins for a binding: if some candidate state is `Moved`, the
/// picked state is `Moved`.
pub proof fn lemma_pick_state_moved_wins(cands: Seq<OwnerState>, i: int)
    requires
        0 <= i < cands.len(),
        is_moved(cands[i]),
    ensures
        pick_state(cands) matches Some(s) && is_moved(s),
    decreases cands.len(),
{
    if i < cands.len() - 1 {
        lemma_pick_state_moved_wins(cands.drop_last(), i);
    }
}

/// The join of the branches' states tracks exactly the owners the
/// accumulator or some branch tracks, and has an owner moved exactly when
/// the accumulator or some branch has it moved.
pub proof fn lemma_join_all_char(acc: Map<Owner, OwnerState>, branches: Seq<Ownership>, k: Owner)
    ensures
        join_all(acc, branches).contains_key(k) <==> acc.contains_key(k) || exists|i: int|
            0 <= i < branches.len() && #[trigger] branches[i].states@.contains_key(k),
        moved_in(join_all(acc, branches), k) <==> moved_in(acc, k) || exists|i: int|
            0 <= i < branches.len() && moved_in(#[trigger] branches[i].states@, k),
    decreases branches.len(),
{
    if branches.len() > 0 {
        let d = branches.drop_last();
        lemma_join_all_char(acc, d, k);
        let l = branches.len() - 1;
        if exists|i: int| 0 <= i < d.len() && #[trigger] d[i].states@.contains_key(k) {
            let i = choose|i: int| 0 <= i < d.len() && #[trigger] d[i].states@.contains_key(k);
            assert(branches[i] == d[i]);
        }
        if exists|i: int| 0 <= i < branches.len() && #[trigger] branches[i].states@.contains_key(k) {
            let i = choose|i: int| 0 <= i < branches.len() && #[trigger] branches[i].states@.contains_key(k);
            if i < l {
                assert(d[i] == branches[i]);
            }
        }
        if exists|i: int| 0 <= i < d.len() && moved_in(#[trigger] d[i].states@, k) {
            let i = choose|i: int| 0 <= i < d.len() && moved_in(#[trigger] d[i].states@, k);
            assert(branches[i] == d[i]);
        }
        if exists|i: int| 0 <= i < branches.len() && moved_in(#[trigger] branches[i].states@, k) {
            let i = choose|i: int| 0 <= i < branches.len() && moved_in(#[trigger] branches[i].states@, k);
            if i < l {
                assert(d[i] == branches[i]);
            }
        }
    }
}

/// The picked state exists for a non-empty candidate list; it is `Moved`
/// exactly when some candidate is, and otherwise it is the first candidate.
pub proof fn lemma_pick_state_char(cands: Seq<OwnerState>)
    requires
        cands.len() > 0,
    ensures
        pick_state(cands) is Some,
        is_moved(pick_state(cands)->Some_0) <==> exists|i: int| 0 <= i < cands.len() && is_moved(#[trigger] cands[i]),
        !(exists|i: int| 0 <= i < cands.len() && is_moved(#[trigger] cands[i])) ==> pick_state(cands)->Some_0 == cands[0],
    decreases cands.len(),
{
    let d = cands.drop_last();
    let l = cands.len() - 1;
    let last = cands[l];
    if d.len() > 0 {
        lemma_pick_state_char(d);
        let pd = pick_state(d)->Some_0;
        let p = pick_state(cands)->Some_0;
        assert(p == (if !is_moved(pd) && is_moved(last) { last } else { pd }));
        let any_d = exists|i: int| 0 <= i < d.len() && is_moved(#[trigger] d[i]);
        let any = exists|i: int| 0 <= i < cands.len() && is_moved(#[trigger] cands[i]);
        if any_d {
            let i = choose|i: int| 0 <= i < d.len() && is_moved(#[trigger] d[i]);
            assert(cands[i] == d[i]);
            assert(any);
        }
        if is_moved(last) {
            assert(is_moved(cands[l]));
            assert(any);
        }
        if any {
            let i = choose|i: int| 0 <= i < cands.len() && is_moved(#[trigger] cands[i]);
            if i < d.len() {
                assert(d[i] == cands[i]);
                assert(any_d);
            } else {
                assert(i == l);
            }
            assert(is_moved(p));
        }
        assert(d[0] == cands[0]);
    } else {
        assert(pick_state(d) is None);
        assert(pick_state(cands) == Some(last));
        assert(l == 0);
        if exists|i: int| 0 <= i < cands.len() && is_moved(#[trigger] cands[i]) {
            let i = choose|i: int| 0 <= i < cands.len() && is_moved(#[trigger] cands[i]);
            assert(i == 0);
        }
        if is_moved(last) {
            assert(is_moved(cands[0]));
        }
    }
}

/// The binding override leaves owners that bind no pre-branch name alone.
pub proof fn lemma_override_other(st: Map<Owner, OwnerState>, pre: Seq<(StringId, Owner)>, branches: Seq<Ownership>, k: Owner)
    requires
        forall|j: int| 0 <= j < pre.len() ==> (#[trigger] pre[j]).1 != k,
    ensures
        override_bindings(st, pre, branches).contains_key(k) == st.contains_key(k),
        st.contains_key(k) ==> override_bindings(st, pre, branches)[k] == st[k],
    decreases pre.len(),
{
    if pre.len() > 0 {
        assert forall|j: int| 0 <= j < pre.drop_last().len() implies (#[trigger] pre.drop_last()[j]).1 != k by {
            assert(pre.drop_last()[j] == pre[j]);
        }
        lemma_override_other(st, pre.drop_last(), branches, k);
        assert(pre[pre.len() - 1].1 != k);
    }
}

/// The binding override sets the pre-branch owner `pre[j].1` of a name
/// (bound by no later entry) to the state picked across the branches.
pub proof fn lemma_override_binding(st: Map<Owner, OwnerState>, pre: Seq<(StringId, Owner)>, branches: Seq<Ownership>, j: int)
    requires
        0 <= j < pre.len(),
        branches.len() > 0,
        forall|j2: int| j < j2 < pre.len() ==> (#[trigger] pre[j2]).1 != pre[j].1,
    ensures
        override_bindings(st, pre, branches).contains_key(pre[j].1),
        override_bindings(st, pre, branches)[pre[j].1] == pick_state(binding_states(branches, pre[j].0, pre[j].1))->Some_0,
    decreases pre.len(),
{
    let (name, owner) = pre[j];
    let cands = binding_states(branches, name, owner);
    assert(cands.len() == branches.len());
    lemma_pick_state_char(cands);
    if j < pre.len() - 1 {
        let d = pre.drop_last();
        assert(d[j] == pre[j]);
        assert forall|j2: int| j < j2 < d.len() implies (#[trigger] d[j2]).1 != d[j].1 by {
            assert(d[j2] == pre[j2]);
        }
        lemma_override_binding(st, d, branches, j);
        let last = pre.last();
        assert(last.1 != owner);
        let c2 = binding_states(branches, last.0, last.1);
        assert(c2.len() == branches.len());
        lemma_pick_state_char(c2);
    }
}

/// Law of the branch merge on the lattice states. An owner that binds no
/// pre-branch name is tracked after the merge exactly when it was tracked
/// before or in some branch, and moved exactly when it was moved before or
/// in some branch. A pre-branch binding `(name, owner)` (not rebound by a
/// later pre-branch entry) gets, on `owner`, the state `name` ended with in
/// the branches: moved exactly when some branch ended with it moved, and
/// otherwise the first branch's state.
pub proof fn lemma_merged_states(own: Ownership, pre: Seq<(StringId, Owner)>, branches: Seq<Ownership>, k: Owner)
    requires
        branches.len() > 0,
    ensures
        (forall|j: int| 0 <= j < pre.len() ==> (#[trigger] pre[j]).1 != k) ==> {
            let m = own.spec_merged(pre, branches).0;
            &&& m.contains_key(k) <==> own.states@.contains_key(k) || exists|i: int|
                0 <= i < branches.len() && #[trigger] branches[i].states@.contains_key(k)
            &&& moved_in(m, k) <==> moved_in(own.states@, k) || exists|i: int|
                0 <= i < branches.len() && moved_in(#[trigger] branches[i].states@, k)
        },
        forall|j: int|
            #![trigger pre[j]]
            0 <= j < pre.len() && pre[j].1 == k && (forall|j2: int| j < j2 < pre.len() ==> (#[trigger] pre[j2]).1 != k) ==> {
                let m = own.spec_merged(pre, branches).0;
                let cands = binding_states(branches, pre[j].0, k);
                &&& m.contains_key(k)
                &&& is_moved(m[k]) <==> exists|i: int| 0 <= i < branches.len() && is_moved(#[trigger] cands[i])
                &&& !(exists|i: int| 0 <= i < branches.len() && is_moved(#[trigger] cands[i])) ==> m[k] == cands[0]
            },
{
    let joined = join_all(own.states@, branches);
    lemma_join_all_char(own.states@, branches, k);
    if forall|j: int| 0 <= j < pre.len() ==> (#[trigger] pre[j]).1 != k {
        lemma_override_other(joined, pre, branches, k);
    }
    assert forall|j: int|
        #![trigger pre[j]]
        0 <= j < pre.len() && pre[j].1 == k && (forall|j2: int| j < j2 < pre.len() ==> (#[trigger] pre[j2]).1 != k) implies {
            let m = own.spec_merged(pre, branches).0;
            let cands = binding_states(branches, pre[j].0, k);
            &&& m.contains_key(k)
            &&& is_moved(m[k]) <==> exists|i: int| 0 <= i < branches.len() && is_moved(#[trigger] cands[i])
            &&& !(exists|i: int| 0 <= i < branches.len() && is_moved(#[trigger] cands[i])) ==> m[k] == cands[0]
        } by {
        lemma_override_binding(joined, pre, branches, j);
        lemma_pick_state_char(binding_states(branches, pre[j].0, k));
    }
}

/// Fold of `union_first` over a list of maps.
pub open spec fn union_all<K, V>(acc: Map<K, V>, ms: Seq<Map<K, V>>) -> Map<K, V>
    decreases ms.len(),
{
    if ms.len() == 0 {
        acc
    } else {
        union_first(union_all(acc, ms.drop_last()), ms.last())
    }
}

/// A key is in the fold exactly when the accumulator or one of the maps
/// has it; the accumulator's value wins, and otherwise the first map that
/// has the key gives its value.
pub proof fn lemma_union_all_char<K, V>(acc: Map<K, V>, ms: Seq<Map<K, V>>, k: K)
    ensures
        union_all(acc, ms).contains_key(k) <==> acc.contains_key(k) || exists|i: int|
            0 <= i < ms.len() && #[trigger] ms[i].contains_key(k),
        acc.contains_key(k) ==> union_all(acc, ms)[k] == acc[k],
        forall|i: int|
            0 <= i < ms.len() && #[trigger] ms[i].contains_key(k) && !acc.contains_key(k) && (forall|i2: int|
                0 <= i2 < i ==> !(#[trigger] ms[i2]).contains_key(k)) ==> union_all(acc, ms)[k] == ms[i][k],
    decreases ms.len(),
{
    if ms.len() > 0 {
        let d = ms.drop_last();
        lemma_union_all_char(acc, d, k);
        if exists|i: int| 0 <= i < d.len() && #[trigger] d[i].contains_key(k) {
            let i = choose|i: int| 0 <= i < d.len() && #[trigger] d[i].contains_key(k);
            assert(ms[i] == d[i]);
        }
        if exists|i: int| 0 <= i < ms.len() && #[trigger] ms[i].contains_key(k) {
            let i = choose|i: int| 0 <= i < ms.len() && #[trigger] ms[i].contains_key(k);
            if i < d.len() {
                assert(d[i] == ms[i]);
            }
        }
        assert forall|i: int|
            0 <= i < ms.len() && #[trigger] ms[i].contains_key(k) && !acc.contains_key(k) && (forall|i2: int|
                0 <= i2 < i ==> !(#[trigger] ms[i2]).contains_key(k)) implies union_all(acc, ms)[k] == ms[i][k] by {
            if i < d.len() {
                assert(d[i] == ms[i]);
                assert forall|i2: int| 0 <= i2 < i implies !(#[trigger] d[i2]).contains_key(k) by {
                    assert(d[i2] == ms[i2]);
                    assert(!ms[i2].contains_key(k));
                }
            } else {
                assert forall|i2: int| 0 <= i2 < d.len() implies !(#[trigger] d[i2]).contains_key(k) by {
                    assert(d[i2] == ms[i2]);
                    assert(!ms[i2].contains_key(k));
                }
            }
        }
    }
}

proof fn lemma_union_owner_maps_all(acc: Map<StringId, Owner>, bs: Seq<Ownership>)
    ensures
        union_owner_maps(acc, bs) == union_all(acc, bs.map_values(|b: Ownership| b.current_owner@)),
    decreases bs.len(),
{
    if bs.len() > 0 {
        lemma_union_owner_maps_all(acc, bs.drop_last());
        assert(bs.drop_last().map_values(|b: Ownership| b.current_owner@) =~= bs.map_values(|b: Ownership| b.current_owner@).drop_last());
    }
}

proof fn lemma_union_origins_all(acc: Map<TirRef, Option<Owner>>, bs: Seq<Ownership>)
    ensures
        union_origins(acc, bs) == union_all(acc, bs.map_values(|b: Ownership| b.origin@)),
    decreases bs.len(),
{
    if bs.len() > 0 {
        lemma_union_origins_all(acc, bs.drop_last());
        assert(bs.drop_last().map_values(|b: Ownership| b.origin@) =~= bs.map_values(|b: Ownership| b.origin@).drop_last());
    }
}

proof fn lemma_union_temps_all(acc: Map<Owner, Unit>, bs: Seq<Ownership>)
    ensures
        union_temps(acc, bs) == union_all(acc, bs.map_values(|b: Ownership| b.temp_owners@)),
    decreases bs.len(),
{
    if bs.len() > 0 {
        lemma_union_temps_all(acc, bs.drop_last());
        assert(bs.drop_last().map_values(|b: Ownership| b.temp_owners@) =~= bs.map_values(|b: Ownership| b.temp_owners@).drop_last());
    }
}

proof fn lemma_union_reads_all(acc: Map<TirRef, Owner>, bs: Seq<Ownership>)
    ensures
        union_reads(acc, bs) == union_all(acc, bs.map_values(|b: Ownership| b.owner_at_read@)),
    decreases bs.len(),
{
    if bs.len() > 0 {
        lemma_union_reads_all(acc, bs.drop_last());
        assert(bs.drop_last().map_values(|b: Ownership| b.owner_at_read@) =~= bs.map_values(|b: Ownership| b.owner_at_read@).drop_last());
    }
}

/// Pending dead stores after a join: a pre-branch entry stays exactly when
/// every branch still has it; a key new to the branches is kept exactly
/// when some branch has it.
pub proof fn lemma_merge_pending_keys(pre: Map<Owner, PendingStore>, bs: Seq<Ownership>, k: Owner)
    ensures
        pre.contains_key(k) ==> (merge_pending(pre, bs).contains_key(k) <==> forall|t: int|
            0 <= t < bs.len() ==> (#[trigger] bs[t]).pending_dead_store@.contains_key(k)),
        !pre.contains_key(k) ==> (merge_pending(pre, bs).contains_key(k) <==> exists|t: int|
            0 <= t < bs.len() && (#[trigger] bs[t]).pending_dead_store@.contains_key(k)),
{
    lemma_merge_pending_local_keys(merge_pending_pre(pre, bs), pre, bs, k);
}

proof fn lemma_merge_pending_local_keys(acc: Map<Owner, PendingStore>, pre: Map<Owner, PendingStore>, bs: Seq<Ownership>, k: Owner)
    ensures
        merge_pending_local(acc, pre, bs).contains_key(k) <==> acc.contains_key(k) || (!pre.contains_key(k)
            && exists|t: int| 0 <= t < bs.len() && (#[trigger] bs[t]).pending_dead_store@.contains_key(k)),
    decreases bs.len(),
{
    if bs.len() > 0 {
        let d = bs.drop_last();
        lemma_merge_pending_local_keys(acc, pre, d, k);
        if exists|t: int| 0 <= t < d.len() && (#[trigger] d[t]).pending_dead_store@.contains_key(k) {
            let t = choose|t: int| 0 <= t < d.len() && (#[trigger] d[t]).pending_dead_store@.contains_key(k);
            assert(bs[t] == d[t]);
        }
        if exists|t: int| 0 <= t < bs.len() && (#[trigger] bs[t]).pending_dead_store@.contains_key(k) {
            let t = choose|t: int| 0 <= t < bs.len() && (#[trigger] bs[t]).pending_dead_store@.contains_key(k);
            if t < d.len() {
                assert(d[t] == bs[t]);
            }
        }
    }
}

/// Law of the branch merge on the other tables: temporaries, bindings,
/// origins and per-read owners keep every entry they had and take a new
/// key from the first branch that has it (temporaries thus become the
/// union over the branches), and pending dead stores follow
/// [`lemma_merge_pending_keys`].
pub proof fn lemma_merged_tables(own: Ownership, pre: Seq<(StringId, Owner)>, bs: Seq<Ownership>)
    ensures
        own.spec_merged(pre, bs).1 == union_all(own.current_owner@, bs.map_values(|b: Ownership| b.current_owner@)),
        own.spec_merged(pre, bs).2 == union_all(own.origin@, bs.map_values(|b: Ownership| b.origin@)),
        own.spec_merged(pre, bs).3 == union_all(own.temp_owners@, bs.map_values(|b: Ownership| b.temp_owners@)),
        own.spec_merged(pre, bs).4 == union_all(own.owner_at_read@, bs.map_values(|b: Ownership| b.owner_at_read@)),
        own.spec_merged(pre, bs).5 == merge_pending(own.pending_dead_store@, bs),
{
    lemma_union_owner_maps_all(own.current_owner@, bs);
    lemma_union_origins_all(own.origin@, bs);
    lemma_union_temps_all(own.temp_owners@, bs);
    lemma_union_reads_all(own.owner_at_read@, bs);
}

/// The branch-id allocator never goes backwards at a merge.
pub proof fn lemma_merge_branch_id_monotone(own: Ownership, pre: Seq<(StringId, Owner)>, branches: Seq<Ownership>, i: int)
    requires
        0 <= i < branches.len(),
    ensures
        own.spec_merged(pre, branches).6 >= own.next_branch_id,
        own.spec_merged(pre, branches).6 >= branches[i].next_branch_id,
    decreases branches.len(),
{
    lemma_max_branch_id(branches, i);
}

proof fn lemma_max_branch_id(branches: Seq<Ownership>, i: int)
    requires
        0 <= i < branches.len(),
    ensures
        max_branch_id(branches) >= branches[i].next_branch_id,
    decreases branches.len(),
{
    if i < branches.len() - 1 {
        lemma_max_branch_id(branches.drop_last(), i);
    }
}

} // verus!
