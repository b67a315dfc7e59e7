//! Forward walk over expressions: producers enter the lattice, reads
//! record their owner, and calls partition their arguments into borrows,
//! moves and `inout` borrows (Rule 7) before committing the moves.
use vstd::prelude::*;
use crate::types::{InternPool, Span, StringId};
use crate::tir::{Tir, TirRef, TirTag, TirData, ParamMode, Extra};
use crate::diag::{Diag, DiagCode, DiagSink, DiagView};
use crate::builtins::is_borrowed_scalar_param;
use crate::vecmap::VecMap;
use crate::ownership::lattice::{Ownership, Owner, OwnerState, Unit};
use crate::ownership::owners::{
    own_ok, owner_ok, names_ok, spec_underlying, needs_tracking, check_use_moved, underlying_owner,
    inout_owner, consumed_binding_name, owner_name_for_diag, consume_underlying, BorrowedAction,
    spec_consumed_name, format_binding,
};
use crate::ownership::semantics::{
    sv_expr, sv_operands, sv_call, sv_args, sv_part, sv_commit, rule7_diags, overlap_diags,
    rule7_help_text, pending_without, t_produce, first_use, rule7_owner_diags, last_span,
    overlap_diag, push_note, rule7_name_from, occurrences as occurrences_of,
};
use crate::ownership::lattice::Tables;
use crate::ownership::owners::lemma_consumed_tables;
use crate::vecmap::{entries_map, has_key_at};

verus! {

/// `a` is a prefix of `b`.
pub open spec fn diag_prefix(a: Seq<DiagView>, b: Seq<DiagView>) -> bool {
    a.len() <= b.len() && forall|i: int| 0 <= i < a.len() ==> #[trigger] b[i] == a[i]
}

/// An owner that a diagnostic can name: a parameter name in the pool, or
/// an instruction of `tir`.
pub open spec fn nameable(tir: Tir, pool: InternPool, o: Owner) -> bool {
    match o {
        Owner::Param(n) => pool.contains_id(n),
        Owner::Inst(r) => tir.valid_ref(r),
    }
}

pub proof fn lemma_owner_nameable(tir: Tir, pool: InternPool, o: Owner)
    requires
        names_ok(tir, pool),
        owner_ok(tir, o),
    ensures
        nameable(tir, pool, o),
{
    if let Owner::Param(n) = o {
        let i = choose|i: int| 0 <= i < tir.params@.len() && (#[trigger] tir.params@[i]).name == n;
    }
}

pub proof fn lemma_underlying_ok(own: Ownership, tir: Tir, r: TirRef)
    requires
        own_ok(own, tir),
        tir.valid_ref(r),
    ensures
        owner_ok(tir, spec_underlying(own, r)),
{
}

/// Names of `tir`'s reads are interned.
pub proof fn lemma_var_name(tir: Tir, pool: InternPool, r: TirRef)
    requires
        names_ok(tir, pool),
        tir.valid_ref(r),
    ensures
        spec_consumed_name(tir, r) matches Some(n) ==> pool.contains_id(n),
{
    assert(tir.insts@[r.0 as int] == tir.spec_inst(r));
}

/// What a walk step keeps: the lattice stays consistent with `tir`,
/// diagnostics are only appended, and the branch-id allocator and the
/// `inout` parameter set are untouched.
pub open spec fn visit_post(
    tir: Tir,
    own0: Ownership,
    own1: Ownership,
    d0: Seq<DiagView>,
    d1: Seq<DiagView>,
) -> bool {
    &&& own_ok(own1, tir)
    &&& diag_prefix(d0, d1)
    &&& own1.next_branch_id == own0.next_branch_id
    &&& own1.inout_str_params@ == own0.inout_str_params@
}

fn mode_at(modes: &Vec<ParamMode>, i: usize) -> (m: ParamMode)
    ensures
        m == (if i < modes@.len() {
            modes@[i as int]
        } else {
            ParamMode::Borrow
        }),
{
    if i < modes.len() {
        modes[i]
    } else {
        ParamMode::Borrow
    }
}

fn rule7_help() -> (s: &'static str)
    ensures
        s@ == rule7_help_text(),
{
    "a value can have one mutable borrow OR many immutable borrows in a call, never both (Rule 7)"
}

pub fn message3(a: &str, b: &str, c: &str) -> (s: String)
    ensures
        s@ == a@ + b@ + c@,
{
    let mut s = String::from_str(a);
    s.append(b);
    s.append(c);
    s
}

/// The name Rule 7 reports use for `owner`: the first argument that reads
/// a variable whose owner is `owner` (the binding the call names), else
/// the owner's own name.
fn rule7_owner_name(own: &Ownership, tir: &Tir, pool: &InternPool, args: &Vec<TirRef>, owner: Owner) -> (s: String)
    requires
        own.wf(),
        tir.wf(),
        names_ok(*tir, *pool),
        forall|j: int| 0 <= j < args@.len() ==> tir.valid_ref(#[trigger] args@[j]),
        nameable(*tir, *pool, owner),
    ensures
        s@ == rule7_name_from(*tir, *pool, own.tables(), args@, owner, 0),
{
    let mut j: usize = 0;
    while j < args.len()
        invariant
            j <= args@.len(),
            own.wf(),
            tir.wf(),
            names_ok(*tir, *pool),
            forall|k: int| 0 <= k < args@.len() ==> tir.valid_ref(#[trigger] args@[k]),
            rule7_name_from(*tir, *pool, own.tables(), args@, owner, 0) == rule7_name_from(
                *tir,
                *pool,
                own.tables(),
                args@,
                owner,
                j as int,
            ),
        decreases args@.len() - j,
    {
        let a = args[j];
        proof {
            assert(tir.valid_ref(args@[j as int]));
        }
        match tir.inst(a).data {
            TirData::Var(name) => {
                if inout_owner(own, tir, a) == owner {
                    proof {
                        assert(tir.insts@[a.0 as int] == tir.spec_inst(a));
                    }
                    return format_binding(Some(name), pool);
                }
            },
            _ => {},
        }
        j = j + 1;
    }
    proof {
        if let Owner::Inst(r) = owner {
            assert(tir.valid_ref(r));
        }
    }
    owner_name_for_diag(owner, tir, pool)
}

/// Walk expression `r`.
pub fn visit_expr(
    tir: &Tir,
    pool: &InternPool,
    own: &mut Ownership,
    sink: &mut DiagSink,
    r: TirRef,
)
    requires
        tir.wf(),
        names_ok(*tir, *pool),
        own_ok(*old(own), *tir),
        tir.valid_ref(r),
    ensures
        visit_post(*tir, *old(own), *final(own), old(sink).items(), final(sink).items()),
        (final(own).tables(), final(sink).items()) == sv_expr(*tir, *pool, old(own).tables(), old(sink).items(), r),
    decreases r.0, 1nat,
{
    let inst = *tir.inst(r);
    let ghost t0 = own.tables();
    let ghost d0 = sink.items();
    proof {
        tir.lemma_inline_below(r);
    }
    match inst.tag {
        TirTag::StrConst => {
            if needs_tracking(inst.ty, pool) {
                own.states.insert(Owner::Inst(r), OwnerState::Valid);
                own.origin.insert(r, None);
                own.temp_owners.insert(Owner::Inst(r), ());
            }
        },
        TirTag::StrConcat => {
            if needs_tracking(inst.ty, pool) {
                own.states.insert(Owner::Inst(r), OwnerState::Valid);
                own.origin.insert(r, None);
                own.temp_owners.insert(Owner::Inst(r), ());
            }
            match inst.data {
                TirData::BinOp { lhs, rhs } => {
                    visit_expr(tir, pool, own, sink, lhs);
                    visit_expr(tir, pool, own, sink, rhs);
                    if needs_tracking(tir.inst(lhs).ty, pool) {
                        check_use_moved(tir, pool, own, sink, lhs, tir.span(lhs));
                    }
                    if needs_tracking(tir.inst(rhs).ty, pool) {
                        check_use_moved(tir, pool, own, sink, rhs, tir.span(rhs));
                    }
                },
                _ => {},
            }
        },
        TirTag::Call => {
            visit_call(tir, pool, own, sink, r);
        },
        TirTag::Var => {
            let name = match inst.data {
                TirData::Var(n) => n,
                _ => {
                    proof {
                        assert(false);
                    }
                    StringId(0)
                },
            };
            match own.current_owner.get(&name) {
                Some(owner) => {
                    let owner = *owner;
                    if needs_tracking(inst.ty, pool) {
                        // Any read counts as a use: clear pending dead
                        // stores by name.
                        let mut keep: Vec<bool> = Vec::new();
                        let mut i: usize = 0;
                        while i < own.pending_dead_store.len()
                            invariant
                                i <= own.pending_dead_store.seq().len(),
                                keep@.len() == i,
                                forall|j: int| 0 <= j < i ==> #[trigger] keep@[j] == (own.pending_dead_store.seq()[j].1.0 != name),
                            decreases own.pending_dead_store.seq().len() - i,
                        {
                            let (_, v) = own.pending_dead_store.entry(i);
                            keep.push(v.0 != name);
                            i = i + 1;
                        }
                        let ghost pd0 = own.pending_dead_store.seq();
                        proof {
                            own.pending_dead_store.lemma_view();
                        }
                        let ghost keep_v = keep@;
                        own.pending_dead_store.retain_positions(keep);
                        proof {
                            let pw = pending_without(t0.pending, name);
                            assert forall|q: Owner| #[trigger] own.pending_dead_store@.contains_key(q) == pw.contains_key(q) by {
                                if own.pending_dead_store@.contains_key(q) {
                                    let j = choose|j: int| crate::vecmap::has_key_at(pd0, q, j) && keep_v[j];
                                    assert(t0.pending[pd0[j].0] == pd0[j].1);
                                }
                                if pw.contains_key(q) {
                                    let j = choose|j: int| crate::vecmap::has_key_at(pd0, q, j);
                                    assert(t0.pending[pd0[j].0] == pd0[j].1);
                                    assert(keep_v[j]);
                                }
                            }
                            assert(own.pending_dead_store@ =~= pw);
                        }
                        own.origin.insert(r, Some(owner));
                        own.owner_at_read.insert(r, owner);
                    }
                },
                None => {},
            }
        },
        _ => {
            recurse_operands(tir, pool, own, sink, r);
        },
    }
}

fn recurse_operands(
    tir: &Tir,
    pool: &InternPool,
    own: &mut Ownership,
    sink: &mut DiagSink,
    r: TirRef,
)
    requires
        tir.wf(),
        names_ok(*tir, *pool),
        own_ok(*old(own), *tir),
        tir.valid_ref(r),
    ensures
        visit_post(*tir, *old(own), *final(own), old(sink).items(), final(sink).items()),
        (final(own).tables(), final(sink).items()) == sv_operands(*tir, *pool, old(own).tables(), old(sink).items(), r),
    decreases r.0, 0nat,
{
    let inst = *tir.inst(r);
    proof {
        tir.lemma_inline_below(r);
    }
    match inst.data {
        TirData::UnOp(o) => {
            visit_expr(tir, pool, own, sink, o);
            if needs_tracking(tir.inst(o).ty, pool) {
                check_use_moved(tir, pool, own, sink, o, tir.span(o));
            }
        },
        TirData::BinOp { lhs, rhs } => {
            visit_expr(tir, pool, own, sink, lhs);
            if needs_tracking(tir.inst(lhs).ty, pool) {
                check_use_moved(tir, pool, own, sink, lhs, tir.span(lhs));
            }
            visit_expr(tir, pool, own, sink, rhs);
            if needs_tracking(tir.inst(rhs).ty, pool) {
                check_use_moved(tir, pool, own, sink, rhs, tir.span(rhs));
            }
        },
        // Structured payloads have bespoke handlers; plain values have no
        // operands.
        _ => {},
    }
}

/// Calls: materialise every argument, check use-safety, partition the
/// arguments into borrows, moves and `inout` borrows, report Rule 7
/// violations, then commit the moves.
fn visit_call(
    tir: &Tir,
    pool: &InternPool,
    own: &mut Ownership,
    sink: &mut DiagSink,
    r: TirRef,
)
    requires
        tir.wf(),
        names_ok(*tir, *pool),
        own_ok(*old(own), *tir),
        tir.valid_ref(r),
        tir.spec_inst(r).tag == TirTag::Call,
    ensures
        visit_post(*tir, *old(own), *final(own), old(sink).items(), final(sink).items()),
        (final(own).tables(), final(sink).items()) == sv_call(*tir, *pool, old(own).tables(), old(sink).items(), r),
    decreases r.0, 0nat,
{
    let inst = *tir.inst(r);
    let ghost t_in = own.tables();
    let ghost d_in = sink.items();
    // A str-returning call is a producer.
    if needs_tracking(inst.ty, pool) {
        own.states.insert(Owner::Inst(r), OwnerState::Valid);
        own.origin.insert(r, None);
        own.temp_owners.insert(Owner::Inst(r), ());
    }
    let ghost t0 = own.tables();
    assert(t0 == t_produce(*tir, t_in, r));
    let view = tir.call_view(r);
    proof {
        tir.lemma_payload_below(r);
        assert(tir.inst_wf(r.0 as int));
        assert(tir.insts@[r.0 as int] == tir.spec_inst(r));
        match tir.spec_inst(r).data {
            TirData::Extra(k) => {
                assert(crate::ownership::owners::extra_names_ok(tir.extra@[k as int], *pool));
            },
            _ => {},
        }
    }
    let ghost own0 = *old(own);
    let ghost d0 = old(sink).items();
    let n = view.args.len();

    // Phase 1: materialise every argument's owner and state.
    let mut i: usize = 0;
    while i < n
        invariant
            n == view.args@.len(),
            i <= n,
            tir.wf(),
            names_ok(*tir, *pool),
            tir.valid_ref(r),
            tir.spec_extra(r) == Extra::Call(*view),
            forall|j: int| 0 <= j < view.args@.len() ==> (#[trigger] view.args@[j]).0 < r.0,
            visit_post(*tir, own0, *own, d0, sink.items()),
            (own.tables(), sink.items()) == sv_args(*tir, *pool, t0, d_in, r, view.args@, i as int),
        decreases n - i,
    {
        visit_expr(tir, pool, own, sink, view.args[i]);
        i = i + 1;
    }
    let ghost t1 = own.tables();
    let ghost d1 = sink.items();

    // Phase 2: use-safety check and borrow / move / inout partition.
    let mut borrowed: VecMap<Owner, Unit> = VecMap::new();
    let mut moved: VecMap<Owner, Unit> = VecMap::new();
    let mut inout_uses: Vec<(Owner, Span)> = Vec::new();
    let mut i: usize = 0;
    while i < n
        invariant
            n == view.args@.len(),
            i <= n,
            tir.wf(),
            names_ok(*tir, *pool),
            pool.contains_id(view.name),
            tir.valid_ref(r),
            forall|j: int| 0 <= j < view.args@.len() ==> (#[trigger] view.args@[j]).0 < r.0,
            visit_post(*tir, own0, *own, d0, sink.items()),
            borrowed.wf(),
            moved.wf(),
            forall|o: Owner| #[trigger] borrowed@.contains_key(o) ==> nameable(*tir, *pool, o),
            forall|o: Owner| #[trigger] moved@.contains_key(o) ==> nameable(*tir, *pool, o),
            forall|j: int| 0 <= j < inout_uses@.len() ==> nameable(*tir, *pool, (#[trigger] inout_uses@[j]).0),
            own.tables() == (Tables { temps: sv_part(*tir, *pool, *view, t1, d1, i as int).0, ..t1 }),
            sink.items() == sv_part(*tir, *pool, *view, t1, d1, i as int).1,
            borrowed.seq() == sv_part(*tir, *pool, *view, t1, d1, i as int).2,
            moved@ == sv_part(*tir, *pool, *view, t1, d1, i as int).3,
            inout_uses@ == sv_part(*tir, *pool, *view, t1, d1, i as int).4,
        decreases n - i,
    {
        let arg = view.args[i];
        let ghost p = sv_part(*tir, *pool, *view, t1, d1, i as int);
        proof {
            borrowed.lemma_view();
        }
        if is_borrowed_scalar_param(view.name, pool, i) && tir.inst(arg).tag == TirTag::StrConst {
            // The message of a borrowed-scalar parameter is never heap-owned.
            own.temp_owners.remove(&Owner::Inst(arg));
        }
        let mode = mode_at(&view.modes, i);
        let arg_ty = tir.inst(arg).ty;
        if mode == ParamMode::Inout {
            let owner = inout_owner(own, tir, arg);
            proof {
                lemma_var_name(*tir, *pool, arg);
                if !(tir.spec_inst(arg).data is Var) {
                    lemma_underlying_ok(*own, *tir, arg);
                    lemma_owner_nameable(*tir, *pool, owner);
                } else if own.current_owner@.contains_key(spec_consumed_name(*tir, arg)->Some_0) {
                    lemma_owner_nameable(*tir, *pool, owner);
                }
            }
            check_use_moved(tir, pool, own, sink, arg, tir.span(arg));
            inout_uses.push((owner, tir.span(arg)));
        } else if !needs_tracking(arg_ty, pool) {
            if mode == ParamMode::Borrow && tir.inst(arg).tag == TirTag::Var {
                let owner = inout_owner(own, tir, arg);
                proof {
                    lemma_var_name(*tir, *pool, arg);
                    tir.lemma_inline_below(arg);
                    if own.current_owner@.contains_key(spec_consumed_name(*tir, arg)->Some_0) {
                        lemma_owner_nameable(*tir, *pool, owner);
                    }
                }
                let ghost b0 = borrowed.seq();
                borrowed.insert(owner, ());
                proof {
                    if entries_map(b0).contains_key(owner) {
                        let q = choose|q: int| has_key_at(b0, owner, q) && borrowed.seq() == b0.update(q, (owner, ()));
                        let unit: () = b0[q].1;
                        assert(b0[q] == (owner, unit));
                        assert(borrowed.seq() =~= b0);
                    }
                }
            }
        } else {
            let owner = underlying_owner(own, arg);
            proof {
                lemma_underlying_ok(*own, *tir, arg);
                lemma_owner_nameable(*tir, *pool, owner);
            }
            if mode == ParamMode::Borrow {
                check_use_moved(tir, pool, own, sink, arg, tir.span(arg));
                let ghost b0 = borrowed.seq();
                borrowed.insert(owner, ());
                proof {
                    if entries_map(b0).contains_key(owner) {
                        let q = choose|q: int| has_key_at(b0, owner, q) && borrowed.seq() == b0.update(q, (owner, ()));
                        let unit: () = b0[q].1;
                        assert(b0[q] == (owner, unit));
                        assert(borrowed.seq() =~= b0);
                    }
                }
            } else {
                moved.insert(owner, ());
            }
        }
        i = i + 1;
    }
    let ghost part = sv_part(*tir, *pool, *view, t1, d1, n as int);
    let ghost t2 = own.tables();
    proof {
        borrowed.lemma_view();
    }

    // Rule 7: at most one mutable borrow per owner in a call, and no
    // immutable borrow or move alongside it. Each distinct inout owner is
    // reported once.
    let mut seen: VecMap<Owner, Unit> = VecMap::new();
    let mut u: usize = 0;
    while u < inout_uses.len()
        invariant
            u <= inout_uses@.len(),
            tir.wf(),
            names_ok(*tir, *pool),
            tir.valid_ref(r),
            visit_post(*tir, own0, *own, d0, sink.items()),
            own.tables() == t2,
            borrowed.wf(),
            moved.wf(),
            seen.wf(),
            borrowed@ == entries_map(part.2),
            moved@ == part.3,
            inout_uses@ == part.4,
            forall|j: int| 0 <= j < inout_uses@.len() ==> nameable(*tir, *pool, (#[trigger] inout_uses@[j]).0),
            forall|j: int| 0 <= j < view.args@.len() ==> tir.valid_ref(#[trigger] view.args@[j]),
            forall|o: Owner| #[trigger] seen@.contains_key(o) <==> exists|v: int| 0 <= v < u && inout_uses@[v].0 == o,
            sink.items() == rule7_diags(*tir, *pool, t2, view.args@, r, part.4, part.2, part.3, part.1, u as int),
        decreases inout_uses@.len() - u,
    {
        let owner = inout_uses[u].0;
        let ghost uses = inout_uses@;
        let ghost prev = sink.items();
        if !seen.contains_key(&owner) {
            proof {
                assert forall|v: int| 0 <= v < u implies #[trigger] uses[v].0 != uses[u as int].0 by {
                    if uses[v].0 == uses[u as int].0 {
                        assert(seen@.contains_key(owner));
                    }
                }
                assert(first_use(uses, u as int));
            }
            seen.insert(owner, ());
            let name = rule7_owner_name(own, tir, pool, &view.args, owner);
            // (1) the same owner mutably borrowed more than once.
            let mut occurrences: Vec<Span> = Vec::new();
            let mut t: usize = 0;
            while t < inout_uses.len()
                invariant
                    t <= inout_uses@.len(),
                    uses == inout_uses@,
                    occurrences@ == occurrences_of(uses, owner, t as int),
                decreases inout_uses@.len() - t,
            {
                if inout_uses[t].0 == owner {
                    occurrences.push(inout_uses[t].1);
                }
                t = t + 1;
            }
            let ghost sp = tir.spec_inst(r).span;
            let ghost twice: Seq<DiagView> = Seq::empty();
            if occurrences.len() > 1 {
                let msg = message3(
                    "cannot borrow ",
                    name.as_str(),
                    " as mutable more than once in the same call",
                );
                let d = Diag::error(tir.span(r), DiagCode::MutableAliasingViolation, msg)
                    .with_note(Some(occurrences[0]), "first mutable borrow here")
                    .with_note(Some(occurrences[1]), "second mutable borrow here")
                    .with_help(rule7_help());
                proof {
                    twice = seq![d@];
                }
                sink.emit(d);
            }
            let ghost after1 = sink.items();
            let ghost shared: Seq<DiagView> = Seq::empty();
            // (2) inout together with an immutable borrow.
            if borrowed.contains_key(&owner) {
                let msg = message3(
                    "cannot borrow ",
                    name.as_str(),
                    " as immutable while it is mutably borrowed in the same call",
                );
                let d = Diag::error(tir.span(r), DiagCode::MutableAliasingViolation, msg)
                    .with_help(rule7_help());
                proof {
                    shared = seq![d@];
                }
                sink.emit(d);
            }
            let ghost after2 = sink.items();
            let ghost moving: Seq<DiagView> = Seq::empty();
            // (3) inout together with a move.
            if moved.contains_key(&owner) {
                let msg = message3(
                    "cannot move ",
                    name.as_str(),
                    " while it is mutably borrowed in the same call",
                );
                let d = Diag::error(tir.span(r), DiagCode::MutableAliasingViolation, msg)
                    .with_help("finish the mutable borrow before moving the value");
                proof {
                    moving = seq![d@];
                }
                sink.emit(d);
            }
            proof {
                let od = rule7_owner_diags(*tir, *pool, t2, view.args@, r, part.4, part.2, part.3, owner);
                assert(od == twice + shared + moving) by {
                    if occurrences@.len() > 1 {
                        assert(twice[0].4 =~= seq![(Some(occurrences@[0]), "first mutable borrow here"@), (Some(occurrences@[1]), "second mutable borrow here"@)]);
                    }
                    if borrowed@.contains_key(owner) {
                        assert(shared[0].4 =~= Seq::<(Option<Span>, Seq<char>)>::empty());
                    }
                    if moved@.contains_key(owner) {
                        assert(moving[0].4 =~= Seq::<(Option<Span>, Seq<char>)>::empty());
                    }
                }
                assert(after1 =~= prev + twice);
                assert(after2 =~= prev + twice + shared);
                assert(sink.items() =~= prev + (twice + shared + moving));
            }
        } else {
            proof {
                let v = choose|v: int| 0 <= v < u && inout_uses@[v].0 == owner;
                assert(!first_use(uses, u as int));
            }
        }
        proof {
            assert forall|o: Owner| #[trigger] seen@.contains_key(o) <==> exists|v: int| 0 <= v < u + 1 && inout_uses@[v].0 == o by {
                if exists|v: int| 0 <= v < u + 1 && inout_uses@[v].0 == o {
                    let v = choose|v: int| 0 <= v < u + 1 && inout_uses@[v].0 == o;
                    if v < u {
                        assert(exists|v2: int| 0 <= v2 < u && inout_uses@[v2].0 == o);
                    }
                }
            }
        }
        u = u + 1;
    }
    let ghost d3 = sink.items();

    // Overlap: the same owner borrowed and moved in one call.
    let mut b: usize = 0;
    while b < borrowed.len()
        invariant
            b <= borrowed.seq().len(),
            n == view.args@.len(),
            tir.wf(),
            names_ok(*tir, *pool),
            tir.valid_ref(r),
            forall|j: int| 0 <= j < view.args@.len() ==> (#[trigger] view.args@[j]).0 < r.0,
            visit_post(*tir, own0, *own, d0, sink.items()),
            own.tables() == t2,
            borrowed.wf(),
            moved.wf(),
            borrowed.seq() == part.2,
            moved@ == part.3,
            forall|o: Owner| #[trigger] borrowed@.contains_key(o) ==> nameable(*tir, *pool, o),
            sink.items() == overlap_diags(*tir, *pool, t2, *view, r, part.2, part.3, d3, b as int),
        decreases borrowed.seq().len() - b,
    {
        let (owner, _) = borrowed.entry(b);
        let owner = *owner;
        proof {
            borrowed.lemma_view();
            assert(borrowed@[borrowed.seq()[b as int].0] == borrowed.seq()[b as int].1);
        }
        if moved.contains_key(&owner) {
            let name = owner_name_for_diag(owner, tir, pool);
            let mut borrow_span: Option<Span> = None;
            let mut move_span: Option<Span> = None;
            let mut i: usize = 0;
            while i < n
                invariant
                    n == view.args@.len(),
                    i <= n,
                    tir.wf(),
                    tir.valid_ref(r),
                    forall|j: int| 0 <= j < view.args@.len() ==> (#[trigger] view.args@[j]).0 < r.0,
                    own.wf(),
                    own.tables() == t2,
                    borrow_span == last_span(*tir, t2, *view, owner, ParamMode::Borrow, i as int),
                    move_span == last_span(*tir, t2, *view, owner, ParamMode::Move, i as int),
                decreases n - i,
            {
                let arg = view.args[i];
                if needs_tracking(tir.inst(arg).ty, pool) && underlying_owner(own, arg) == owner {
                    match mode_at(&view.modes, i) {
                        ParamMode::Borrow => {
                            borrow_span = Some(tir.span(arg));
                        },
                        ParamMode::Move => {
                            move_span = Some(tir.span(arg));
                        },
                        ParamMode::Inout => {},
                    }
                }
                i = i + 1;
            }
            let msg = message3("cannot move ", name.as_str(), " while it is borrowed in the same call");
            let mut d = Diag::error(tir.span(r), DiagCode::MoveWhileBorrowedInCall, msg);
            match borrow_span {
                Some(s) => {
                    d = d.with_note(Some(s), "borrowed here");
                },
                None => {},
            }
            match move_span {
                Some(s) => {
                    d = d.with_note(Some(s), "moved here");
                },
                None => {},
            }
            d = d.with_help(
                "borrows are live for the whole call; pass by `move` on a separate statement, or borrow in both positions",
            );
            proof {
                let e: Seq<(Option<Span>, Seq<char>)> = Seq::empty();
                assert(d@.4 =~= push_note(push_note(e, borrow_span, "borrowed here"@), move_span, "moved here"@));
                assert(d@ == overlap_diag(*tir, *pool, t2, *view, r, owner));
            }
            sink.emit(d);
        }
        b = b + 1;
    }
    let ghost d4 = sink.items();

    // Phase 3: commit the moves.
    let mut i: usize = 0;
    while i < n
        invariant
            n == view.args@.len(),
            i <= n,
            tir.wf(),
            names_ok(*tir, *pool),
            tir.valid_ref(r),
            forall|j: int| 0 <= j < view.args@.len() ==> (#[trigger] view.args@[j]).0 < r.0,
            visit_post(*tir, own0, *own, d0, sink.items()),
            (own.tables(), sink.items()) == sv_commit(*tir, *pool, t2, d4, *view, r, i as int),
        decreases n - i,
    {
        let arg = view.args[i];
        let mode = mode_at(&view.modes, i);
        if mode == ParamMode::Move && needs_tracking(tir.inst(arg).ty, pool) {
            let consumed_name = consumed_binding_name(tir, arg);
            proof {
                lemma_var_name(*tir, *pool, arg);
                lemma_underlying_ok(*own, *tir, arg);
            }
            let ghost before = *own;
            let ghost before_d = sink.items();
            consume_underlying(
                tir,
                pool,
                own,
                sink,
                arg,
                tir.span(r),
                consumed_name,
                BorrowedAction::MoveOutOfParam,
            );
            proof {
                lemma_consumed_tables(*tir, *pool, before, *own, before_d, sink.items(), arg, tir.spec_inst(r).span, consumed_name, BorrowedAction::MoveOutOfParam);
            }
        }
        i = i + 1;
    }
}

} // verus!
