//! Owner resolution and the consume transition shared by every consume
//! site, with the diagnostics they emit.
use vstd::prelude::*;
use crate::types::{InternPool, Span, StringId, TypeId, TypeKind, spec_kind};
use crate::tir::{Tir, TirRef, TirData, TirParam, Extra, spec_param_ref};
use crate::diag::{Diag, DiagCode, DiagSink, DiagView, Severity};
use crate::ownership::lattice::{Ownership, Owner, OwnerState, PendingStore, Tables, Unit, state_or_untracked};

verus! {

// ---------- Context ----------

pub open spec fn has_param(tir: Tir, n: StringId) -> bool {
    exists|i: int| 0 <= i < tir.params@.len() && (#[trigger] tir.params@[i]).name == n
}

/// An owner refers to a parameter or an instruction of `tir`.
pub open spec fn owner_ok(tir: Tir, o: Owner) -> bool {
    match o {
        Owner::Param(n) => has_param(tir, n),
        Owner::Inst(r) => tir.valid_ref(r),
    }
}

pub open spec fn states_ok(tir: Tir, m: Map<Owner, OwnerState>) -> bool {
    forall|k: Owner| #[trigger] m.contains_key(k) ==> owner_ok(tir, k)
}

pub open spec fn co_ok(tir: Tir, m: Map<StringId, Owner>) -> bool {
    forall|n: StringId| #[trigger] m.contains_key(n) ==> owner_ok(tir, m[n])
}

pub open spec fn origin_ok(tir: Tir, m: Map<TirRef, Option<Owner>>) -> bool {
    forall|r: TirRef| #[trigger] m.contains_key(r) && m[r] is Some ==> owner_ok(tir, m[r]->Some_0)
}

pub open spec fn pending_ok(tir: Tir, m: Map<Owner, PendingStore>) -> bool {
    forall|k: Owner| #[trigger] m.contains_key(k) ==> k is Inst && owner_ok(tir, k) && tir.valid_ref(m[k].2)
        && decl_names(tir, m[k].2, m[k].0)
}

/// Instruction `d` declares or assigns binding `n`.
pub open spec fn decl_names(tir: Tir, d: TirRef, n: StringId) -> bool {
    &&& tir.spec_inst(d).data is Extra
    &&& match tir.spec_extra(d) {
        Extra::VarDecl(v) => v.name == n,
        Extra::Assign(v) => v.name == n,
        _ => false,
    }
}

/// The name a declaration binds is interned.
pub proof fn lemma_decl_name_interned(tir: Tir, pool: InternPool, d: TirRef, n: StringId)
    requires
        tir.wf(),
        names_ok(tir, pool),
        tir.valid_ref(d),
        decl_names(tir, d, n),
    ensures
        pool.contains_id(n),
{
    assert(tir.inst_wf(d.0 as int));
    if let TirData::Extra(k) = tir.spec_inst(d).data {
        assert(extra_names_ok(tir.extra@[k as int], pool));
    }
}

pub open spec fn temps_ok(tir: Tir, m: Map<Owner, Unit>) -> bool {
    forall|k: Owner| #[trigger] m.contains_key(k) ==> k is Inst && owner_ok(tir, k)
}

pub open spec fn reads_ok(tir: Tir, m: Map<TirRef, Owner>) -> bool {
    forall|r: TirRef| #[trigger] m.contains_key(r) ==> owner_ok(tir, m[r])
}

/// Every owner the lattice mentions refers to `tir`; pending dead stores
/// and temporaries are instruction owners.
pub open spec fn own_ok(own: Ownership, tir: Tir) -> bool {
    &&& own.wf()
    &&& states_ok(tir, own.states@)
    &&& co_ok(tir, own.current_owner@)
    &&& origin_ok(tir, own.origin@)
    &&& pending_ok(tir, own.pending_dead_store@)
    &&& temps_ok(tir, own.temp_owners@)
    &&& reads_ok(tir, own.owner_at_read@)
}

/// Names a payload refers to.
pub open spec fn extra_names_ok(e: Extra, pool: InternPool) -> bool {
    match e {
        Extra::Call(v) => pool.contains_id(v.name),
        Extra::VarDecl(v) => pool.contains_id(v.name),
        Extra::Assign(v) => pool.contains_id(v.name),
        Extra::CompoundAssign(v) => pool.contains_id(v.name),
        Extra::IfStmt(_) => true,
        Extra::WhileLoop(_) => true,
        Extra::ForRange(v) => pool.contains_id(v.var),
    }
}

/// Every name `tir` mentions is interned in `pool`.
pub open spec fn names_ok(tir: Tir, pool: InternPool) -> bool {
    &&& forall|i: int| 0 <= i < tir.insts@.len() ==> ((#[trigger] tir.insts@[i]).data matches TirData::Var(n) ==> pool.contains_id(n))
    &&& forall|k: int| 0 <= k < tir.extra@.len() ==> extra_names_ok(#[trigger] tir.extra@[k], pool)
    &&& forall|i: int| 0 <= i < tir.params@.len() ==> pool.contains_id(#[trigger] tir.params@[i].name)
}

// ---------- Classification ----------

pub open spec fn spec_needs_tracking(ty: TypeId) -> bool {
    spec_kind(ty) == TypeKind::Str
}

/// Types whose values transfer ownership on `=`: `str`.
pub fn is_move_type(ty: TypeId, pool: &InternPool) -> (r: bool)
    ensures
        r == spec_needs_tracking(ty),
{
    pool.kind(ty) == TypeKind::Str
}

/// Whether a value of type `ty` needs a lattice slot: exactly the move
/// types.
pub fn needs_tracking(ty: TypeId, pool: &InternPool) -> (r: bool)
    ensures
        r == spec_needs_tracking(ty),
{
    is_move_type(ty, pool)
}

// ---------- Parameters ----------

/// Position of the first parameter named `n` at or after `i`.
pub open spec fn find_param(params: Seq<TirParam>, n: StringId, i: int) -> Option<int>
    decreases params.len() - i,
{
    if i < 0 || i >= params.len() {
        None
    } else if params[i].name == n {
        Some(i)
    } else {
        find_param(params, n, i + 1)
    }
}

proof fn lemma_find_param(params: Seq<TirParam>, n: StringId, i: int)
    requires
        0 <= i <= params.len(),
    ensures
        find_param(params, n, i) matches Some(p) ==> i <= p < params.len() && params[p].name == n,
        find_param(params, n, i) is None ==> forall|j: int| i <= j < params.len() ==> params[j].name != n,
    decreases params.len() - i,
{
    if i < params.len() {
        lemma_find_param(params, n, i + 1);
    }
}

pub open spec fn param_pos(tir: Tir, n: StringId) -> int {
    find_param(tir.params@, n, 0).unwrap()
}

pub proof fn lemma_param_pos(tir: Tir, n: StringId)
    requires
        has_param(tir, n),
    ensures
        find_param(tir.params@, n, 0) is Some,
        0 <= param_pos(tir, n) < tir.params@.len(),
        tir.params@[param_pos(tir, n)].name == n,
{
    lemma_find_param(tir.params@, n, 0);
    if find_param(tir.params@, n, 0) is None {
        let i = choose|i: int| 0 <= i < tir.params@.len() && (#[trigger] tir.params@[i]).name == n;
        assert(tir.params@[i].name != n);
    }
}

/// Position of parameter `n`.
pub fn param_index(tir: &Tir, n: StringId) -> (r: Option<usize>)
    ensures
        match r {
            Some(i) => find_param(tir.params@, n, 0) == Some(i as int),
            None => find_param(tir.params@, n, 0) is None,
        },
{
    let mut i: usize = 0;
    while i < tir.params.len()
        invariant
            i <= tir.params@.len(),
            find_param(tir.params@, n, 0) == find_param(tir.params@, n, i as int),
        decreases tir.params@.len() - i,
    {
        if tir.params[i].name == n {
            return Some(i);
        }
        i = i + 1;
    }
    None
}

/// The reference codegen uses for an owner: the producing instruction, or
/// the parameter's virtual reference.
pub open spec fn spec_tirref(tir: Tir, o: Owner) -> TirRef {
    match o {
        Owner::Inst(r) => r,
        Owner::Param(n) => spec_param_ref(param_pos(tir, n)),
    }
}

impl Owner {
    pub fn tirref(self, tir: &Tir) -> (r: TirRef)
        requires
            tir.wf(),
            owner_ok(*tir, self),
        ensures
            r == spec_tirref(*tir, self),
    {
        match self {
            Owner::Inst(r) => r,
            Owner::Param(name) => {
                proof {
                    lemma_param_pos(*tir, name);
                }
                let idx = param_index(tir, name).unwrap();
                TirRef::param(idx)
            },
        }
    }
}

/// Span of a parameter or instruction owner.
pub open spec fn spec_owner_span(tir: Tir, o: Owner) -> Span {
    match o {
        Owner::Inst(r) => tir.spec_inst(r).span,
        Owner::Param(n) => tir.params@[param_pos(tir, n)].span,
    }
}

pub fn owner_span(tir: &Tir, o: Owner) -> (s: Span)
    requires
        tir.wf(),
        owner_ok(*tir, o),
    ensures
        s == spec_owner_span(*tir, o),
{
    match o {
        Owner::Inst(r) => tir.span(r),
        Owner::Param(name) => {
            proof {
                lemma_param_pos(*tir, name);
            }
            let idx = param_index(tir, name).unwrap();
            tir.params[idx].span
        },
    }
}

/// Type of a parameter owner (instruction owners are always tracked).
pub open spec fn spec_owner_tracked(tir: Tir, o: Owner) -> bool {
    match o {
        Owner::Inst(_) => true,
        Owner::Param(n) => spec_needs_tracking(tir.params@[param_pos(tir, n)].ty),
    }
}

pub fn owner_tracked(tir: &Tir, pool: &InternPool, o: Owner) -> (r: bool)
    requires
        tir.wf(),
        owner_ok(*tir, o),
    ensures
        r == spec_owner_tracked(*tir, o),
{
    match o {
        Owner::Inst(_) => true,
        Owner::Param(name) => {
            proof {
                lemma_param_pos(*tir, name);
            }
            let idx = param_index(tir, name).unwrap();
            needs_tracking(tir.params[idx].ty, pool)
        },
    }
}

// ---------- Owner resolution ----------

/// The owner of the allocation that `init` denotes: the owner an
/// aliasing read recorded, or `init` itself for a fresh producer.
pub open spec fn t_underlying(t: Tables, init: TirRef) -> Owner {
    if t.origin.contains_key(init) && t.origin[init] is Some {
        t.origin[init]->Some_0
    } else {
        Owner::Inst(init)
    }
}

pub open spec fn spec_underlying(own: Ownership, init: TirRef) -> Owner {
    t_underlying(own.tables(), init)
}

pub fn underlying_owner(own: &Ownership, init: TirRef) -> (r: Owner)
    requires
        own.wf(),
    ensures
        r == spec_underlying(*own, init),
{
    match own.origin.get(&init) {
        Some(Some(owner)) => *owner,
        _ => Owner::Inst(init),
    }
}

/// Aliasing identity of an `inout` (or copy borrow) argument: a read of
/// binding `n` resolves to its current owner slot, or `Param(n)` when the
/// name has none; anything else to its underlying owner.
pub open spec fn t_inout_owner(t: Tables, tir: Tir, arg: TirRef) -> Owner {
    match tir.spec_inst(arg).data {
        TirData::Var(n) => if t.current_owner.contains_key(n) {
            t.current_owner[n]
        } else {
            Owner::Param(n)
        },
        _ => t_underlying(t, arg),
    }
}

pub open spec fn spec_inout_owner(own: Ownership, tir: Tir, arg: TirRef) -> Owner {
    t_inout_owner(own.tables(), tir, arg)
}

pub fn inout_owner(own: &Ownership, tir: &Tir, arg: TirRef) -> (r: Owner)
    requires
        own.wf(),
        tir.valid_ref(arg),
    ensures
        r == spec_inout_owner(*own, *tir, arg),
{
    match tir.inst(arg).data {
        TirData::Var(name) => match own.current_owner.get(&name) {
            Some(o) => *o,
            None => Owner::Param(name),
        },
        _ => underlying_owner(own, arg),
    }
}

/// `owner` is the value currently bound to an `inout str` parameter.
pub open spec fn t_escapes(t: Tables, owner: Owner) -> bool {
    exists|n: StringId|
        t.inout.contains_key(n) && #[trigger] t.current_owner.contains_key(n)
            && t.current_owner[n] == owner
}

pub open spec fn spec_escapes(own: Ownership, owner: Owner) -> bool {
    t_escapes(own.tables(), owner)
}

pub fn inout_escape_owner(own: &Ownership, owner: Owner) -> (r: bool)
    requires
        own.wf(),
    ensures
        r == spec_escapes(*own, owner),
{
    proof {
        own.inout_str_params.lemma_view();
    }
    let mut i: usize = 0;
    while i < own.inout_str_params.len()
        invariant
            own.wf(),
            i <= own.inout_str_params.seq().len(),
            forall|j: int| 0 <= j < i ==> !(#[trigger] own.current_owner@.contains_key(own.inout_str_params.seq()[j].0) && own.current_owner@[own.inout_str_params.seq()[j].0] == owner),
        decreases own.inout_str_params.seq().len() - i,
    {
        let (n, _) = own.inout_str_params.entry(i);
        proof {
            own.inout_str_params.lemma_view();
        }
        match own.current_owner.get(n) {
            Some(o) => {
                if *o == owner {
                    assert(own.inout_str_params@[own.inout_str_params.seq()[i as int].0]
                        == own.inout_str_params.seq()[i as int].1);
                    assert(own.inout_str_params@.contains_key(*n));
                    assert(own.tables().current_owner.contains_key(*n));
                    return true;
                }
            },
            None => {},
        }
        i = i + 1;
    }
    proof {
        own.inout_str_params.lemma_view();
        if spec_escapes(*own, owner) {
            let n = choose|n: StringId|
                own.inout_str_params@.contains_key(n) && #[trigger] own.current_owner@.contains_key(n)
                    && own.current_owner@[n] == owner;
            let j = choose|j: int| crate::vecmap::has_key_at(own.inout_str_params.seq(), n, j);
            assert(own.current_owner@.contains_key(own.inout_str_params.seq()[j].0));
        }
    }
    false
}

// ---------- Diagnostic text ----------

/// `` `name` `` for a known binding, `value` for an anonymous temporary.
pub open spec fn binding_text(pool: InternPool, name: Option<StringId>) -> Seq<char> {
    match name {
        Some(n) => "`"@ + pool.spec_str(n) + "`"@,
        None => "value"@,
    }
}

pub fn format_binding(name: Option<StringId>, pool: &InternPool) -> (s: String)
    requires
        name matches Some(n) ==> pool.contains_id(n),
    ensures
        s@ == binding_text(*pool, name),
{
    match name {
        Some(n) => {
            let mut s = String::from_str("`");
            s.append(pool.str(n));
            s.append("`");
            s
        },
        None => String::from_str("value"),
    }
}

/// The binding a direct read aliases; `None` for fresh producers.
pub open spec fn spec_consumed_name(tir: Tir, r: TirRef) -> Option<StringId> {
    match tir.spec_inst(r).data {
        TirData::Var(n) => Some(n),
        _ => None,
    }
}

pub fn consumed_binding_name(tir: &Tir, r: TirRef) -> (n: Option<StringId>)
    requires
        tir.valid_ref(r),
    ensures
        n == spec_consumed_name(*tir, r),
{
    match tir.inst(r).data {
        TirData::Var(n) => Some(n),
        _ => None,
    }
}

pub open spec fn spec_owner_name(tir: Tir, pool: InternPool, o: Owner) -> Seq<char> {
    match o {
        Owner::Param(n) => "`"@ + pool.spec_str(n) + "`"@,
        Owner::Inst(r) => binding_text(pool, spec_consumed_name(tir, r)),
    }
}

pub fn owner_name_for_diag(owner: Owner, tir: &Tir, pool: &InternPool) -> (s: String)
    requires
        names_ok(*tir, *pool),
        owner matches Owner::Param(n) ==> pool.contains_id(n),
        owner matches Owner::Inst(r) ==> tir.valid_ref(r),
    ensures
        s@ == spec_owner_name(*tir, *pool, owner),
{
    match owner {
        Owner::Param(name) => format_binding(Some(name), pool),
        Owner::Inst(r) => {
            let n = consumed_binding_name(tir, r);
            proof {
                if n is Some {
                    assert(tir.insts@[r.0 as int] == tir.spec_inst(r));
                }
            }
            format_binding(n, pool)
        },
    }
}

// ---------- Use and consume ----------

pub open spec fn uam_diag(pool: InternPool, name: Option<StringId>, span: Span, moved_at: Span) -> DiagView {
    (
        Severity::Error,
        DiagCode::UseAfterMove,
        span,
        "use of moved value "@ + binding_text(pool, name),
        seq![(Some(moved_at), "value moved here"@)],
        Some("consider using the value before the move, or pass by default (borrow) instead of `move`"@),
    )
}

/// Diagnostics of a use of `operand`: E0020 when its underlying owner is
/// `Moved`, nothing otherwise.
pub open spec fn t_use_diags(tir: Tir, pool: InternPool, t: Tables, operand: TirRef, span: Span) -> Seq<DiagView> {
    let owner = t_underlying(t, operand);
    match state_or_untracked(t.states, owner) {
        OwnerState::Moved { moved_at } => seq![uam_diag(pool, spec_consumed_name(tir, operand), span, moved_at)],
        _ => Seq::empty(),
    }
}

pub open spec fn spec_use_diags(tir: Tir, pool: InternPool, own: Ownership, operand: TirRef, span: Span) -> Seq<DiagView> {
    t_use_diags(tir, pool, own.tables(), operand, span)
}

/// Use-site use-after-move authority: emit E0020 if the operand's
/// underlying owner is `Moved`.
pub fn check_use_moved(
    tir: &Tir,
    pool: &InternPool,
    own: &Ownership,
    sink: &mut DiagSink,
    operand: TirRef,
    span: Span,
)
    requires
        own.wf(),
        tir.valid_ref(operand),
        names_ok(*tir, *pool),
    ensures
        final(sink).items() == old(sink).items() + spec_use_diags(*tir, *pool, *own, operand, span),
{
    let owner = underlying_owner(own, operand);
    match own.states.get(&owner) {
        Some(OwnerState::Moved { moved_at }) => {
            let name = consumed_binding_name(tir, operand);
            proof {
                if name is Some {
                    assert(tir.insts@[operand.0 as int] == tir.spec_inst(operand));
                }
            }
            let mut msg = String::from_str("use of moved value ");
            let b = format_binding(name, pool);
            msg.append(b.as_str());
            let d = Diag::error(span, DiagCode::UseAfterMove, msg)
                .with_note(Some(*moved_at), "value moved here")
                .with_help("consider using the value before the move, or pass by default (borrow) instead of `move`");
            sink.emit(d);
            assert(sink.items() =~= old(sink).items() + spec_use_diags(*tir, *pool, *own, operand, span));
        },
        _ => {
            assert(sink.items() =~= old(sink).items() + spec_use_diags(*tir, *pool, *own, operand, span));
        },
    }
}

/// Which diagnostic a consume of a borrowed owner gets.
#[derive(Clone, Copy, PartialEq, Eq, Structural)]
pub enum BorrowedAction {
    /// E0021: VarDecl / Assign / move-typed call argument.
    MoveOutOfParam,
    /// E0022: return.
    ReturnBorrowed,
}

pub open spec fn borrowed_diag(pool: InternPool, name: Option<StringId>, span: Span, action: BorrowedAction) -> DiagView {
    match action {
        BorrowedAction::MoveOutOfParam => (
            Severity::Error,
            DiagCode::MoveOutOfBorrowedParam,
            span,
            "cannot move out of borrowed parameter "@ + binding_text(pool, name),
            Seq::empty(),
            Some("add `move` to the parameter declaration if you need ownership"@),
        ),
        BorrowedAction::ReturnBorrowed => (
            Severity::Error,
            DiagCode::ReturnBorrowedValue,
            span,
            "cannot return borrowed value "@ + binding_text(pool, name) + " (Rule 5)"@,
            Seq::empty(),
            Some("return a locally-allocated value, or accept the parameter as `move`"@),
        ),
    }
}

/// State a consume site acts on: the underlying owner's state, with a
/// `Valid` value that escapes through an `inout str` parameter treated as
/// borrowed.
pub open spec fn t_consume_state(t: Tables, operand: TirRef) -> OwnerState {
    let u = t_underlying(t, operand);
    let s = state_or_untracked(t.states, u);
    if s is Valid && t_escapes(t, u) {
        OwnerState::Borrowed
    } else {
        s
    }
}

pub open spec fn consume_state(own: Ownership, operand: TirRef) -> OwnerState {
    t_consume_state(own.tables(), operand)
}

/// What consuming `operand` does: a valid underlying owner becomes
/// `Moved` (its pending dead store cleared); a borrowed one gets E0021 /
/// E0022; a moved one a use-after-move report; an untracked one nothing.
/// Only `states`, `pending_dead_store` and the diagnostics change.
pub open spec fn consumed(
    tir: Tir,
    pool: InternPool,
    own0: Ownership,
    own1: Ownership,
    d0: Seq<DiagView>,
    d1: Seq<DiagView>,
    operand: TirRef,
    span: Span,
    name: Option<StringId>,
    on_borrowed: BorrowedAction,
) -> bool {
    &&& own1.wf()
    &&& ({
        let u = spec_underlying(own0, operand);
        match consume_state(own0, operand) {
            OwnerState::Valid => {
                &&& own1.states@ == own0.states@.insert(u, OwnerState::Moved { moved_at: span })
                &&& own1.pending_dead_store@ == own0.pending_dead_store@.remove(u)
                &&& d1 == d0
            },
            OwnerState::Borrowed => {
                &&& own1.states@ == own0.states@
                &&& own1.pending_dead_store@ == own0.pending_dead_store@
                &&& d1 == d0.push(borrowed_diag(pool, name, span, on_borrowed))
            },
            OwnerState::Moved { .. } => {
                &&& own1.states@ == own0.states@
                &&& own1.pending_dead_store@ == own0.pending_dead_store@
                &&& d1 == d0 + spec_use_diags(tir, pool, own0, operand, span)
            },
            OwnerState::NotTracked => {
                &&& own1.states@ == own0.states@
                &&& own1.pending_dead_store@ == own0.pending_dead_store@
                &&& d1 == d0
            },
        }
    })
    &&& own1.current_owner@ == own0.current_owner@
    &&& own1.current_owner.seq() == own0.current_owner.seq()
    &&& own1.origin@ == own0.origin@
    &&& own1.temp_owners@ == own0.temp_owners@
    &&& own1.owner_at_read@ == own0.owner_at_read@
    &&& own1.next_branch_id == own0.next_branch_id
    &&& own1.inout_str_params@ == own0.inout_str_params@
}

/// What consuming `operand` does to the tables and the diagnostics (see
/// [`consumed`]).
pub open spec fn t_consume(
    tir: Tir,
    pool: InternPool,
    t: Tables,
    d: Seq<DiagView>,
    operand: TirRef,
    span: Span,
    name: Option<StringId>,
    on_borrowed: BorrowedAction,
) -> (Tables, Seq<DiagView>) {
    let u = t_underlying(t, operand);
    match t_consume_state(t, operand) {
        OwnerState::Valid => (
            Tables {
                states: t.states.insert(u, OwnerState::Moved { moved_at: span }),
                pending: t.pending.remove(u),
                ..t
            },
            d,
        ),
        OwnerState::Borrowed => (t, d.push(borrowed_diag(pool, name, span, on_borrowed))),
        OwnerState::Moved { .. } => (t, d + t_use_diags(tir, pool, t, operand, span)),
        OwnerState::NotTracked => (t, d),
    }
}

pub proof fn lemma_consumed_tables(
    tir: Tir,
    pool: InternPool,
    own0: Ownership,
    own1: Ownership,
    d0: Seq<DiagView>,
    d1: Seq<DiagView>,
    operand: TirRef,
    span: Span,
    name: Option<StringId>,
    on_borrowed: BorrowedAction,
)
    requires
        consumed(tir, pool, own0, own1, d0, d1, operand, span, name, on_borrowed),
    ensures
        (own1.tables(), d1) == t_consume(tir, pool, own0.tables(), d0, operand, span, name, on_borrowed),
{
}

/// Shared transition for every consume site: a `Valid` owner becomes
/// `Moved` (its pending dead store is cleared); a borrowed one reports
/// E0021/E0022; a moved one reports use after move; an untracked one is
/// left alone.
pub fn consume_underlying(
    tir: &Tir,
    pool: &InternPool,
    own: &mut Ownership,
    sink: &mut DiagSink,
    operand: TirRef,
    span: Span,
    name: Option<StringId>,
    on_borrowed: BorrowedAction,
)
    requires
        old(own).wf(),
        tir.valid_ref(operand),
        names_ok(*tir, *pool),
        name matches Some(n) ==> pool.contains_id(n),
    ensures
        consumed(*tir, *pool, *old(own), *final(own), old(sink).items(), final(sink).items(), operand, span, name, on_borrowed),
{
    let underlying = underlying_owner(own, operand);
    let mut state = match own.states.get(&underlying) {
        Some(s) => *s,
        None => OwnerState::NotTracked,
    };
    if state == OwnerState::Valid && inout_escape_owner(own, underlying) {
        state = OwnerState::Borrowed;
    }
    match state {
        OwnerState::Valid => {
            own.pending_dead_store.remove(&underlying);
            own.states.insert(underlying, OwnerState::Moved { moved_at: span });
        },
        OwnerState::Borrowed => {
            let b = format_binding(name, pool);
            let d = match on_borrowed {
                BorrowedAction::MoveOutOfParam => {
                    let mut msg = String::from_str("cannot move out of borrowed parameter ");
                    msg.append(b.as_str());
                    Diag::error(span, DiagCode::MoveOutOfBorrowedParam, msg).with_help(
                        "add `move` to the parameter declaration if you need ownership",
                    )
                },
                BorrowedAction::ReturnBorrowed => {
                    let mut msg = String::from_str("cannot return borrowed value ");
                    msg.append(b.as_str());
                    msg.append(" (Rule 5)");
                    Diag::error(span, DiagCode::ReturnBorrowedValue, msg).with_help(
                        "return a locally-allocated value, or accept the parameter as `move`",
                    )
                },
            };
            sink.emit(d);
            proof {
                let bd = borrowed_diag(*pool, name, span, on_borrowed);
                assert(d@.4 =~= bd.4);
                assert(d@ == bd);
            }
        },
        OwnerState::Moved { .. } => {
            check_use_moved(tir, pool, own, sink, operand, span);
        },
        OwnerState::NotTracked => {},
    }
}

/// The consumption at a declaration or assignment: a borrowed underlying
/// owner is a move out of a borrowed parameter (E0021).
pub fn consume_for_assignment(
    tir: &Tir,
    pool: &InternPool,
    own: &mut Ownership,
    sink: &mut DiagSink,
    init: TirRef,
    span: Span,
    name: Option<StringId>,
)
    requires
        old(own).wf(),
        tir.valid_ref(init),
        names_ok(*tir, *pool),
        name matches Some(n) ==> pool.contains_id(n),
    ensures
        consumed(*tir, *pool, *old(own), *final(own), old(sink).items(), final(sink).items(), init, span, name, BorrowedAction::MoveOutOfParam),
{
    consume_underlying(tir, pool, own, sink, init, span, name, BorrowedAction::MoveOutOfParam);
}

/// Reseat `name` to `init` as a fresh, independent `Valid` owner.
pub fn rebind_to_init(own: &mut Ownership, name: StringId, init: TirRef)
    requires
        old(own).wf(),
    ensures
        final(own).wf(),
        final(own).origin@ == old(own).origin@.insert(init, None),
        final(own).states@ == old(own).states@.insert(Owner::Inst(init), OwnerState::Valid),
        final(own).current_owner@ == old(own).current_owner@.insert(name, Owner::Inst(init)),
        final(own).pending_dead_store@ == old(own).pending_dead_store@,
        final(own).temp_owners@ == old(own).temp_owners@,
        final(own).owner_at_read@ == old(own).owner_at_read@,
        final(own).next_branch_id == old(own).next_branch_id,
        final(own).inout_str_params@ == old(own).inout_str_params@,
{
    own.origin.insert(init, None);
    own.states.insert(Owner::Inst(init), OwnerState::Valid);
    own.current_owner.insert(name, Owner::Inst(init));
}

/// Record a move-typed binding as not read yet.
pub fn register_pending_dead_store(
    own: &mut Ownership,
    owner: TirRef,
    name: StringId,
    span: Span,
    decl_inst: TirRef,
)
    requires
        old(own).wf(),
    ensures
        final(own).wf(),
        final(own).pending_dead_store@ == old(own).pending_dead_store@.insert(Owner::Inst(owner), (name, span, decl_inst)),
        final(own).states@ == old(own).states@,
        final(own).current_owner@ == old(own).current_owner@,
        final(own).current_owner.seq() == old(own).current_owner.seq(),
        final(own).origin@ == old(own).origin@,
        final(own).temp_owners@ == old(own).temp_owners@,
        final(own).owner_at_read@ == old(own).owner_at_read@,
        final(own).next_branch_id == old(own).next_branch_id,
        final(own).inout_str_params@ == old(own).inout_str_params@,
{
    own.pending_dead_store.insert(Owner::Inst(owner), (name, span, decl_inst));
}

} // verus!
