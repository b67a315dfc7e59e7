//! What the forward walk over an expression computes, as spec functions
//! from the lattice tables and the diagnostics emitted so far to the
//! tables and diagnostics after the walk.
use vstd::prelude::*;
use crate::types::{InternPool, Span, StringId};
use crate::tir::{Tir, TirRef, TirTag, TirData, ParamMode, Extra, CallView};
use crate::diag::{DiagCode, DiagView, Severity};
use crate::builtins::spec_is_borrowed_scalar_param;
use crate::vecmap::entries_map;
use crate::ownership::lattice::{Owner, OwnerState, PendingStore, Tables, Unit, state_or_untracked};
use crate::ownership::owners::{
    spec_needs_tracking, t_underlying, t_inout_owner, t_use_diags, t_consume, spec_consumed_name,
    spec_owner_name, spec_tirref, BorrowedAction,
};

verus! {

/// The value of instruction `r` is of a move type.
pub open spec fn tracked_at(tir: Tir, r: TirRef) -> bool {
    spec_needs_tracking(tir.spec_inst(r).ty)
}

/// A move-typed producer `r` enters the lattice as a fresh, valid,
/// temporary owner.
pub open spec fn t_produce(tir: Tir, t: Tables, r: TirRef) -> Tables {
    if tracked_at(tir, r) {
        Tables {
            states: t.states.insert(Owner::Inst(r), OwnerState::Valid),
            origin: t.origin.insert(r, None),
            temps: t.temps.insert(Owner::Inst(r), ()),
            ..t
        }
    } else {
        t
    }
}

/// Use-safety check of operand `x` at its own span.
pub open spec fn t_use(tir: Tir, pool: InternPool, t: Tables, d: Seq<DiagView>, x: TirRef) -> Seq<DiagView> {
    if tracked_at(tir, x) {
        d + t_use_diags(tir, pool, t, x, tir.spec_inst(x).span)
    } else {
        d
    }
}

/// The pending stores not recorded under binding `n`.
pub open spec fn pending_without(p: Map<Owner, PendingStore>, n: StringId) -> Map<Owner, PendingStore> {
    Map::new(|k: Owner| p.contains_key(k) && p[k].0 != n, |k: Owner| p[k])
}

/// A read of a move-typed binding with a current owner records that owner
/// as the read's origin and clears the binding's pending dead stores.
pub open spec fn t_read(tir: Tir, t: Tables, r: TirRef) -> Tables {
    match tir.spec_inst(r).data {
        TirData::Var(n) => if t.current_owner.contains_key(n) && tracked_at(tir, r) {
            let o = t.current_owner[n];
            Tables {
                pending: pending_without(t.pending, n),
                origin: t.origin.insert(r, Some(o)),
                reads: t.reads.insert(r, o),
                ..t
            }
        } else {
            t
        },
        _ => t,
    }
}

/// The walk of expression `r`.
pub open spec fn sv_expr(tir: Tir, pool: InternPool, t: Tables, d: Seq<DiagView>, r: TirRef) -> (Tables, Seq<DiagView>)
    decreases r.0, 2nat, 0int,
{
    let inst = tir.spec_inst(r);
    match inst.tag {
        TirTag::StrConst => (t_produce(tir, t, r), d),
        TirTag::StrConcat => {
            let t1 = t_produce(tir, t, r);
            match inst.data {
                TirData::BinOp { lhs, rhs } => if lhs.0 < r.0 && rhs.0 < r.0 {
                    let a = sv_expr(tir, pool, t1, d, lhs);
                    let b = sv_expr(tir, pool, a.0, a.1, rhs);
                    (b.0, t_use(tir, pool, b.0, t_use(tir, pool, b.0, b.1, lhs), rhs))
                } else {
                    (t1, d)
                },
                _ => (t1, d),
            }
        },
        TirTag::Call => sv_call(tir, pool, t, d, r),
        TirTag::Var => (t_read(tir, t, r), d),
        _ => sv_operands(tir, pool, t, d, r),
    }
}

/// The walk of the inline operands of `r`, each checked right after it is
/// walked.
pub open spec fn sv_operands(tir: Tir, pool: InternPool, t: Tables, d: Seq<DiagView>, r: TirRef) -> (Tables, Seq<DiagView>)
    decreases r.0, 1nat, 0int,
{
    match tir.spec_inst(r).data {
        TirData::UnOp(o) => if o.0 < r.0 {
            let a = sv_expr(tir, pool, t, d, o);
            (a.0, t_use(tir, pool, a.0, a.1, o))
        } else {
            (t, d)
        },
        TirData::BinOp { lhs, rhs } => if lhs.0 < r.0 && rhs.0 < r.0 {
            let a = sv_expr(tir, pool, t, d, lhs);
            let b = sv_expr(tir, pool, a.0, t_use(tir, pool, a.0, a.1, lhs), rhs);
            (b.0, t_use(tir, pool, b.0, b.1, rhs))
        } else {
            (t, d)
        },
        _ => (t, d),
    }
}

/// Operand `x`, read with tables `t`, is a move-typed value whose owner has
/// already been moved away.
pub open spec fn reads_moved(tir: Tir, t: Tables, x: TirRef) -> bool {
    tracked_at(tir, x) && state_or_untracked(t.states, t_underlying(t, x)) is Moved
}

/// The number of use-after-move errors that a read of `x` with tables `t`
/// owes: one when it reads a moved value, none otherwise.
pub open spec fn moved_read_count(tir: Tir, t: Tables, x: TirRef) -> nat {
    if reads_moved(tir, t, x) {
        1
    } else {
        0
    }
}

/// A use check adds one use-after-move error at the operand's span when the
/// operand reads a moved value, and nothing otherwise.
pub proof fn lemma_use_reports_moved_read(tir: Tir, pool: InternPool, t: Tables, d: Seq<DiagView>, x: TirRef)
    ensures
        ({
            let e = t_use(tir, pool, t, d, x);
            &&& e.len() == d.len() + moved_read_count(tir, t, x)
            &&& e.take(d.len() as int) == d
            &&& reads_moved(tir, t, x) ==> e.last().1 == DiagCode::UseAfterMove
                && e.last().2 == tir.spec_inst(x).span
        }),
{
    let e = t_use(tir, pool, t, d, x);
    assert(e.take(d.len() as int) =~= d);
}

/// In a string concatenation both operands are use-checked once they have
/// been walked: after the diagnostics of the two walks come exactly one
/// use-after-move error for each operand that reads a moved value, the
/// left operand's first, each at that operand's span, and nothing else.
pub proof fn lemma_concat_reports_each_moved_operand(
    tir: Tir,
    pool: InternPool,
    t: Tables,
    d: Seq<DiagView>,
    r: TirRef,
)
    requires
        tir.spec_inst(r).tag == TirTag::StrConcat,
        tir.spec_inst(r).data is BinOp,
        tir.spec_inst(r).data->lhs.0 < r.0,
        tir.spec_inst(r).data->rhs.0 < r.0,
    ensures
        ({
            let lhs = tir.spec_inst(r).data->lhs;
            let rhs = tir.spec_inst(r).data->rhs;
            let a = sv_expr(tir, pool, t_produce(tir, t, r), d, lhs);
            let b = sv_expr(tir, pool, a.0, a.1, rhs);
            let res = sv_expr(tir, pool, t, d, r);
            let n = b.1.len();
            &&& res.0 == b.0
            &&& res.1.take(n as int) == b.1
            &&& res.1.len() == n + moved_read_count(tir, b.0, lhs) + moved_read_count(tir, b.0, rhs)
            &&& forall|k: int| n <= k < res.1.len() ==> (#[trigger] res.1[k]).1 == DiagCode::UseAfterMove
            &&& reads_moved(tir, b.0, lhs) ==> res.1[n as int].2 == tir.spec_inst(lhs).span
            &&& reads_moved(tir, b.0, rhs) ==> res.1.last().2 == tir.spec_inst(rhs).span
        }),
{
    let lhs = tir.spec_inst(r).data->lhs;
    let rhs = tir.spec_inst(r).data->rhs;
    let a = sv_expr(tir, pool, t_produce(tir, t, r), d, lhs);
    let b = sv_expr(tir, pool, a.0, a.1, rhs);
    let n = b.1.len();
    let e1 = t_use(tir, pool, b.0, b.1, lhs);
    let e2 = t_use(tir, pool, b.0, e1, rhs);
    lemma_use_reports_moved_read(tir, pool, b.0, b.1, lhs);
    lemma_use_reports_moved_read(tir, pool, b.0, e1, rhs);
    assert(e2.take(n as int) =~= b.1) by {
        assert(e2.take(e1.len() as int) == e1);
        assert forall|k: int| 0 <= k < n implies e2[k] == b.1[k] by {
            assert(e2.take(e1.len() as int)[k] == e1[k]);
            assert(e1.take(n as int)[k] == b.1[k]);
        }
    }
    assert forall|k: int| n <= k < e2.len() implies (#[trigger] e2[k]).1 == DiagCode::UseAfterMove by {
        if k < e1.len() {
            assert(e2.take(e1.len() as int)[k] == e1[k]);
            assert(e1.last() == e1[k]);
        } else {
            assert(e2.last() == e2[k]);
        }
    }
    if reads_moved(tir, b.0, lhs) {
        assert(e2.take(e1.len() as int)[n as int] == e1[n as int]);
        assert(e1.last() == e1[n as int]);
    }
}

/// Each operand of an ordinary binary operator is use-checked right after
/// it is walked: the left one with the tables after its own walk, the
/// right one after both walks; each that reads a moved value gives exactly
/// one use-after-move error at its span, the left operand's first.
pub proof fn lemma_binary_operands_report_each_moved_operand(
    tir: Tir,
    pool: InternPool,
    t: Tables,
    d: Seq<DiagView>,
    r: TirRef,
)
    requires
        tir.spec_inst(r).tag != TirTag::StrConst,
        tir.spec_inst(r).tag != TirTag::StrConcat,
        tir.spec_inst(r).tag != TirTag::Call,
        tir.spec_inst(r).tag != TirTag::Var,
        tir.spec_inst(r).data is BinOp,
        tir.spec_inst(r).data->lhs.0 < r.0,
        tir.spec_inst(r).data->rhs.0 < r.0,
    ensures
        ({
            let lhs = tir.spec_inst(r).data->lhs;
            let rhs = tir.spec_inst(r).data->rhs;
            let a = sv_expr(tir, pool, t, d, lhs);
            let e1 = t_use(tir, pool, a.0, a.1, lhs);
            let b = sv_expr(tir, pool, a.0, e1, rhs);
            let res = sv_expr(tir, pool, t, d, r);
            &&& e1.len() == a.1.len() + moved_read_count(tir, a.0, lhs)
            &&& e1.take(a.1.len() as int) == a.1
            &&& reads_moved(tir, a.0, lhs) ==> e1.last().1 == DiagCode::UseAfterMove
                && e1.last().2 == tir.spec_inst(lhs).span
            &&& res.0 == b.0
            &&& res.1.len() == b.1.len() + moved_read_count(tir, b.0, rhs)
            &&& res.1.take(b.1.len() as int) == b.1
            &&& reads_moved(tir, b.0, rhs) ==> res.1.last().1 == DiagCode::UseAfterMove
                && res.1.last().2 == tir.spec_inst(rhs).span
        }),
{
    let lhs = tir.spec_inst(r).data->lhs;
    let rhs = tir.spec_inst(r).data->rhs;
    let a = sv_expr(tir, pool, t, d, lhs);
    let e1 = t_use(tir, pool, a.0, a.1, lhs);
    let b = sv_expr(tir, pool, a.0, e1, rhs);
    lemma_use_reports_moved_read(tir, pool, a.0, a.1, lhs);
    lemma_use_reports_moved_read(tir, pool, b.0, b.1, rhs);
    assert(sv_expr(tir, pool, t, d, r) == sv_operands(tir, pool, t, d, r));
    assert(sv_operands(tir, pool, t, d, r) == (b.0, t_use(tir, pool, b.0, b.1, rhs)));
}

/// The walk of the first `i` arguments of call `r`, in order.
pub open spec fn sv_args(
    tir: Tir,
    pool: InternPool,
    t: Tables,
    d: Seq<DiagView>,
    r: TirRef,
    args: Seq<TirRef>,
    i: int,
) -> (Tables, Seq<DiagView>)
    decreases r.0, 0nat, i,
{
    if i <= 0 {
        (t, d)
    } else {
        let a = sv_args(tir, pool, t, d, r, args, i - 1);
        if args[i - 1].0 < r.0 {
            sv_expr(tir, pool, a.0, a.1, args[i - 1])
        } else {
            a
        }
    }
}

/// Passing mode of argument `i`; missing modes borrow.
pub open spec fn mode_of(modes: Seq<ParamMode>, i: int) -> ParamMode {
    if 0 <= i < modes.len() {
        modes[i]
    } else {
        ParamMode::Borrow
    }
}

/// `s` with key `o` added last unless present.
pub open spec fn add_key(s: Seq<(Owner, Unit)>, o: Owner) -> Seq<(Owner, Unit)> {
    if entries_map(s).contains_key(o) {
        s
    } else {
        s.push((o, ()))
    }
}

/// The partition of a call's arguments: the temporaries left, the
/// diagnostics, the immutably borrowed owners in first-borrow order, the
/// moved owners, and the `inout` uses with their spans.
pub type Part = (Map<Owner, Unit>, Seq<DiagView>, Seq<(Owner, Unit)>, Map<Owner, Unit>, Seq<(Owner, Span)>);

/// Partition of the first `i` arguments, against the tables `t` left by
/// walking every argument.
pub open spec fn sv_part(tir: Tir, pool: InternPool, view: CallView, t: Tables, d: Seq<DiagView>, i: int) -> Part
    decreases i,
{
    if i <= 0 {
        (t.temps, d, Seq::empty(), Map::empty(), Seq::empty())
    } else {
        let p = sv_part(tir, pool, view, t, d, i - 1);
        let j = i - 1;
        let arg = view.args@[j];
        let temps = if spec_is_borrowed_scalar_param(pool.spec_str(view.name), j as usize)
            && tir.spec_inst(arg).tag == TirTag::StrConst {
            p.0.remove(Owner::Inst(arg))
        } else {
            p.0
        };
        let mode = mode_of(view.modes@, j);
        let span = tir.spec_inst(arg).span;
        if mode == ParamMode::Inout {
            (temps, p.1 + t_use_diags(tir, pool, t, arg, span), p.2, p.3, p.4.push((t_inout_owner(t, tir, arg), span)))
        } else if !tracked_at(tir, arg) {
            if mode == ParamMode::Borrow && tir.spec_inst(arg).tag == TirTag::Var {
                (temps, p.1, add_key(p.2, t_inout_owner(t, tir, arg)), p.3, p.4)
            } else {
                (temps, p.1, p.2, p.3, p.4)
            }
        } else {
            let o = t_underlying(t, arg);
            if mode == ParamMode::Borrow {
                (temps, p.1 + t_use_diags(tir, pool, t, arg, span), add_key(p.2, o), p.3, p.4)
            } else {
                (temps, p.1, p.2, p.3.insert(o, ()), p.4)
            }
        }
    }
}

pub open spec fn rule7_help_text() -> Seq<char> {
    "a value can have one mutable borrow OR many immutable borrows in a call, never both (Rule 7)"@
}

/// Spans of the first `k` `inout` uses of owner `o`.
pub open spec fn occurrences(uses: Seq<(Owner, Span)>, o: Owner, k: int) -> Seq<Span>
    decreases k,
{
    if k <= 0 {
        Seq::empty()
    } else {
        let s = occurrences(uses, o, k - 1);
        if uses[k - 1].0 == o {
            s.push(uses[k - 1].1)
        } else {
            s
        }
    }
}

/// Use `u` is the first `inout` use of its owner.
pub open spec fn first_use(uses: Seq<(Owner, Span)>, u: int) -> bool {
    forall|v: int| 0 <= v < u ==> #[trigger] uses[v].0 != uses[u].0
}

/// How Rule 7 reports name owner `o`: after the first of `args[j..]` that
/// reads a variable whose owner is `o`, in backticks; when none does, the
/// owner's own name.
pub open spec fn rule7_name_from(tir: Tir, pool: InternPool, t: Tables, args: Seq<TirRef>, o: Owner, j: int) -> Seq<char>
    decreases args.len() - j,
{
    if j < 0 || j >= args.len() {
        spec_owner_name(tir, pool, o)
    } else if tir.spec_inst(args[j]).data is Var && t_inout_owner(t, tir, args[j]) == o {
        "`"@ + pool.spec_str(tir.spec_inst(args[j]).data->Var_0) + "`"@
    } else {
        rule7_name_from(tir, pool, t, args, o, j + 1)
    }
}

/// Rule 7 reports for one mutably borrowed owner: borrowed mutably twice,
/// also borrowed immutably, also moved.
pub open spec fn rule7_owner_diags(
    tir: Tir,
    pool: InternPool,
    t: Tables,
    args: Seq<TirRef>,
    r: TirRef,
    uses: Seq<(Owner, Span)>,
    borrowed: Seq<(Owner, Unit)>,
    moved: Map<Owner, Unit>,
    o: Owner,
) -> Seq<DiagView> {
    let name = rule7_name_from(tir, pool, t, args, o, 0);
    let occ = occurrences(uses, o, uses.len() as int);
    let sp = tir.spec_inst(r).span;
    let twice: Seq<DiagView> = if occ.len() > 1 {
        seq![(
            Severity::Error,
            DiagCode::MutableAliasingViolation,
            sp,
            "cannot borrow "@ + name + " as mutable more than once in the same call"@,
            seq![(Some(occ[0]), "first mutable borrow here"@), (Some(occ[1]), "second mutable borrow here"@)],
            Some(rule7_help_text()),
        )]
    } else {
        Seq::empty()
    };
    let shared: Seq<DiagView> = if entries_map(borrowed).contains_key(o) {
        seq![(
            Severity::Error,
            DiagCode::MutableAliasingViolation,
            sp,
            "cannot borrow "@ + name + " as immutable while it is mutably borrowed in the same call"@,
            Seq::empty(),
            Some(rule7_help_text()),
        )]
    } else {
        Seq::empty()
    };
    let moving: Seq<DiagView> = if moved.contains_key(o) {
        seq![(
            Severity::Error,
            DiagCode::MutableAliasingViolation,
            sp,
            "cannot move "@ + name + " while it is mutably borrowed in the same call"@,
            Seq::empty(),
            Some("finish the mutable borrow before moving the value"@),
        )]
    } else {
        Seq::empty()
    };
    twice + shared + moving
}

/// Rule 7 reports of the first `u` `inout` uses, each owner reported at
/// its first use.
pub open spec fn rule7_diags(
    tir: Tir,
    pool: InternPool,
    t: Tables,
    args: Seq<TirRef>,
    r: TirRef,
    uses: Seq<(Owner, Span)>,
    borrowed: Seq<(Owner, Unit)>,
    moved: Map<Owner, Unit>,
    d: Seq<DiagView>,
    u: int,
) -> Seq<DiagView>
    decreases u,
{
    if u <= 0 {
        d
    } else {
        let prev = rule7_diags(tir, pool, t, args, r, uses, borrowed, moved, d, u - 1);
        if first_use(uses, u - 1) {
            prev + rule7_owner_diags(tir, pool, t, args, r, uses, borrowed, moved, uses[u - 1].0)
        } else {
            prev
        }
    }
}

/// Number of Rule 7 reports for the first `u` `inout` uses: for each
/// owner at its first use, one if it is mutably borrowed again, one if it
/// is also borrowed immutably, one if it is also moved.
pub open spec fn rule7_count(uses: Seq<(Owner, Span)>, borrowed: Seq<(Owner, Unit)>, moved: Map<Owner, Unit>, u: int) -> nat
    decreases u,
{
    if u <= 0 {
        0
    } else {
        let o = uses[u - 1].0;
        rule7_count(uses, borrowed, moved, u - 1) + if first_use(uses, u - 1) {
            (if occurrences(uses, o, uses.len() as int).len() > 1 {
                1nat
            } else {
                0nat
            }) + (if entries_map(borrowed).contains_key(o) {
                1nat
            } else {
                0nat
            }) + (if moved.contains_key(o) {
                1nat
            } else {
                0nat
            })
        } else {
            0nat
        }
    }
}

/// Law of E0032: the Rule 7 pass adds exactly [`rule7_count`] reports, all
/// `MutableAliasingViolation`, after the diagnostics it started from.
pub proof fn lemma_rule7_diags_count(
    tir: Tir,
    pool: InternPool,
    t: Tables,
    args: Seq<TirRef>,
    r: TirRef,
    uses: Seq<(Owner, Span)>,
    borrowed: Seq<(Owner, Unit)>,
    moved: Map<Owner, Unit>,
    d: Seq<DiagView>,
    u: int,
)
    requires
        0 <= u <= uses.len(),
    ensures
        rule7_diags(tir, pool, t, args, r, uses, borrowed, moved, d, u).len() == d.len() + rule7_count(uses, borrowed, moved, u),
        rule7_diags(tir, pool, t, args, r, uses, borrowed, moved, d, u).take(d.len() as int) == d,
        forall|j: int|
            d.len() <= j < rule7_diags(tir, pool, t, args, r, uses, borrowed, moved, d, u).len() ==> (#[trigger] rule7_diags(
                tir,
                pool,
                t,
                args,
                r,
                uses,
                borrowed,
                moved,
                d,
                u,
            )[j]).1 == DiagCode::MutableAliasingViolation,
    decreases u,
{
    if u > 0 {
        lemma_rule7_diags_count(tir, pool, t, args, r, uses, borrowed, moved, d, u - 1);
        let prev = rule7_diags(tir, pool, t, args, r, uses, borrowed, moved, d, u - 1);
        let cur = rule7_diags(tir, pool, t, args, r, uses, borrowed, moved, d, u);
        if first_use(uses, u - 1) {
            let od = rule7_owner_diags(tir, pool, t, args, r, uses, borrowed, moved, uses[u - 1].0);
            assert(cur == prev + od);
            assert(cur.take(d.len() as int) =~= prev.take(d.len() as int));
            assert forall|j: int| d.len() <= j < cur.len() implies (#[trigger] cur[j]).1 == DiagCode::MutableAliasingViolation by {
                if j < prev.len() {
                    assert(cur[j] == prev[j]);
                } else {
                    assert(cur[j] == od[j - prev.len()]);
                }
            }
        }
    } else {
        assert(d.take(d.len() as int) =~= d);
    }
}

/// Span of the last of the first `i` move-typed arguments passed with
/// `mode` whose underlying owner is `o`.
pub open spec fn last_span(tir: Tir, t: Tables, view: CallView, o: Owner, mode: ParamMode, i: int) -> Option<Span>
    decreases i,
{
    if i <= 0 {
        None
    } else {
        let arg = view.args@[i - 1];
        if tracked_at(tir, arg) && t_underlying(t, arg) == o && mode_of(view.modes@, i - 1) == mode {
            Some(tir.spec_inst(arg).span)
        } else {
            last_span(tir, t, view, o, mode, i - 1)
        }
    }
}

pub open spec fn push_note(notes: Seq<(Option<Span>, Seq<char>)>, s: Option<Span>, text: Seq<char>) -> Seq<(Option<Span>, Seq<char>)> {
    match s {
        Some(x) => notes.push((Some(x), text)),
        None => notes,
    }
}

/// E0031: owner `o` is both borrowed and moved by call `r`.
pub open spec fn overlap_diag(tir: Tir, pool: InternPool, t: Tables, view: CallView, r: TirRef, o: Owner) -> DiagView {
    let n = view.args@.len() as int;
    let b = last_span(tir, t, view, o, ParamMode::Borrow, n);
    let m = last_span(tir, t, view, o, ParamMode::Move, n);
    (
        Severity::Error,
        DiagCode::MoveWhileBorrowedInCall,
        tir.spec_inst(r).span,
        "cannot move "@ + spec_owner_name(tir, pool, o) + " while it is borrowed in the same call"@,
        push_note(push_note(Seq::empty(), b, "borrowed here"@), m, "moved here"@),
        Some("borrows are live for the whole call; pass by `move` on a separate statement, or borrow in both positions"@),
    )
}

/// E0031 reports for the first `b` borrowed owners.
pub open spec fn overlap_diags(
    tir: Tir,
    pool: InternPool,
    t: Tables,
    view: CallView,
    r: TirRef,
    borrowed: Seq<(Owner, Unit)>,
    moved: Map<Owner, Unit>,
    d: Seq<DiagView>,
    b: int,
) -> Seq<DiagView>
    decreases b,
{
    if b <= 0 {
        d
    } else {
        let prev = overlap_diags(tir, pool, t, view, r, borrowed, moved, d, b - 1);
        if moved.contains_key(borrowed[b - 1].0) {
            prev.push(overlap_diag(tir, pool, t, view, r, borrowed[b - 1].0))
        } else {
            prev
        }
    }
}

/// Number of the first `b` borrowed owners that are also moved.
pub open spec fn shared_count(borrowed: Seq<(Owner, Unit)>, moved: Map<Owner, Unit>, b: int) -> nat
    decreases b,
{
    if b <= 0 {
        0
    } else {
        shared_count(borrowed, moved, b - 1) + if moved.contains_key(borrowed[b - 1].0) {
            1nat
        } else {
            0nat
        }
    }
}

/// Law of E0031: a call adds exactly one `MoveWhileBorrowedInCall` report
/// per borrowed owner that it also moves, and nothing else.
pub proof fn lemma_overlap_diags_count(
    tir: Tir,
    pool: InternPool,
    t: Tables,
    view: CallView,
    r: TirRef,
    borrowed: Seq<(Owner, Unit)>,
    moved: Map<Owner, Unit>,
    d: Seq<DiagView>,
    b: int,
)
    requires
        0 <= b <= borrowed.len(),
    ensures
        overlap_diags(tir, pool, t, view, r, borrowed, moved, d, b).len() == d.len() + shared_count(borrowed, moved, b),
        overlap_diags(tir, pool, t, view, r, borrowed, moved, d, b).take(d.len() as int) == d,
        forall|j: int|
            d.len() <= j < overlap_diags(tir, pool, t, view, r, borrowed, moved, d, b).len() ==> (#[trigger] overlap_diags(
                tir,
                pool,
                t,
                view,
                r,
                borrowed,
                moved,
                d,
                b,
            )[j]).1 == DiagCode::MoveWhileBorrowedInCall,
    decreases b,
{
    if b > 0 {
        lemma_overlap_diags_count(tir, pool, t, view, r, borrowed, moved, d, b - 1);
        let prev = overlap_diags(tir, pool, t, view, r, borrowed, moved, d, b - 1);
        let cur = overlap_diags(tir, pool, t, view, r, borrowed, moved, d, b);
        if moved.contains_key(borrowed[b - 1].0) {
            assert(cur == prev.push(overlap_diag(tir, pool, t, view, r, borrowed[b - 1].0)));
            assert(cur.take(d.len() as int) =~= prev.take(d.len() as int));
            assert forall|j: int| d.len() <= j < cur.len() implies (#[trigger] cur[j]).1 == DiagCode::MoveWhileBorrowedInCall by {
                if j < prev.len() {
                    assert(cur[j] == prev[j]);
                }
            }
        }
    } else {
        assert(d.take(d.len() as int) =~= d);
    }
}

/// The moves of the first `i` arguments of call `r`, in order.
pub open spec fn sv_commit(
    tir: Tir,
    pool: InternPool,
    t: Tables,
    d: Seq<DiagView>,
    view: CallView,
    r: TirRef,
    i: int,
) -> (Tables, Seq<DiagView>)
    decreases i,
{
    if i <= 0 {
        (t, d)
    } else {
        let a = sv_commit(tir, pool, t, d, view, r, i - 1);
        let arg = view.args@[i - 1];
        if mode_of(view.modes@, i - 1) == ParamMode::Move && tracked_at(tir, arg) {
            t_consume(
                tir,
                pool,
                a.0,
                a.1,
                arg,
                tir.spec_inst(r).span,
                spec_consumed_name(tir, arg),
                BorrowedAction::MoveOutOfParam,
            )
        } else {
            a
        }
    }
}

/// The walk of call `r`: a move-typed result is a producer; every
/// argument is walked; the arguments are partitioned into borrows, moves
/// and `inout` borrows (checking the borrowed and `inout` ones for use
/// after move); Rule 7 and borrow/move overlaps are reported; then the
/// moves are committed.
pub open spec fn sv_call(tir: Tir, pool: InternPool, t: Tables, d: Seq<DiagView>, r: TirRef) -> (Tables, Seq<DiagView>)
    decreases r.0, 1nat, 0int,
{
    let t0 = t_produce(tir, t, r);
    match tir.spec_extra(r) {
        Extra::Call(view) => {
            let n = view.args@.len() as int;
            let a = sv_args(tir, pool, t0, d, r, view.args@, n);
            let p = sv_part(tir, pool, view, a.0, a.1, n);
            let t2 = Tables { temps: p.0, ..a.0 };
            let d3 = rule7_diags(tir, pool, t2, view.args@, r, p.4, p.2, p.3, p.1, p.4.len() as int);
            let d4 = overlap_diags(tir, pool, t2, view, r, p.2, p.3, d3, p.2.len() as int);
            sv_commit(tir, pool, t2, d4, view, r, n)
        },
        _ => (t0, d),
    }
}

// ---------- Statements ----------

/// Binding `name` is reseated to `init`, a fresh valid owner.
pub open spec fn t_rebind(t: Tables, name: StringId, init: TirRef) -> Tables {
    Tables {
        origin: t.origin.insert(init, None),
        states: t.states.insert(Owner::Inst(init), OwnerState::Valid),
        current_owner: t.current_owner.insert(name, Owner::Inst(init)),
        ..t
    }
}

/// Binding `name`, declared or assigned by `decl`, is pending a read.
pub open spec fn t_register(t: Tables, owner: TirRef, name: StringId, span: Span, decl: TirRef) -> Tables {
    Tables { pending: t.pending.insert(Owner::Inst(owner), (name, span, decl)), ..t }
}

/// Declaration `r`: walk the initializer; a move-typed one is consumed
/// (a borrowed one is E0021) and the name bound to it, pending a read; a
/// copy-typed one just binds the name.
pub open spec fn sv_var_decl(tir: Tir, pool: InternPool, t: Tables, d: Seq<DiagView>, r: TirRef) -> (Tables, Seq<DiagView>) {
    match tir.spec_extra(r) {
        Extra::VarDecl(v) => {
            let init = v.initializer;
            let a = sv_expr(tir, pool, t, d, init);
            let span = tir.spec_inst(r).span;
            if tracked_at(tir, init) {
                let c = t_consume(tir, pool, a.0, a.1, init, span, spec_consumed_name(tir, init), BorrowedAction::MoveOutOfParam);
                (t_register(t_rebind(c.0, v.name, init), init, v.name, span, r), c.1)
            } else {
                (Tables { current_owner: a.0.current_owner.insert(v.name, Owner::Inst(init)), ..a.0 }, a.1)
            }
        },
        _ => (t, d),
    }
}

/// The old value of `name` is dropped by a reassignment: it is valid, or
/// it is the borrowed buffer of an `inout str` parameter.
pub open spec fn droppable(t: Tables, name: StringId, o: Owner) -> bool {
    t.states.contains_key(o) && (t.states[o] is Valid || (t.states[o] is Borrowed && t.inout.contains_key(name)))
}

/// Reassignment `r`: like a declaration; when the value is move-typed and
/// the binding's old value is droppable, the reassignment frees it (its
/// pending store is cleared).
pub open spec fn sv_assign(
    tir: Tir,
    pool: InternPool,
    t: Tables,
    d: Seq<DiagView>,
    fr: Map<TirRef, TirRef>,
    r: TirRef,
) -> (Tables, Seq<DiagView>, Map<TirRef, TirRef>) {
    match tir.spec_extra(r) {
        Extra::Assign(v) => {
            let a = sv_expr(tir, pool, t, d, v.value);
            let span = tir.spec_inst(r).span;
            if tracked_at(tir, v.value) {
                let t1 = a.0;
                let dropped = t1.current_owner.contains_key(v.name) && droppable(t1, v.name, t1.current_owner[v.name]);
                let t2 = if dropped {
                    Tables { pending: t1.pending.remove(t1.current_owner[v.name]), ..t1 }
                } else {
                    t1
                };
                let fr2 = if dropped {
                    fr.insert(r, spec_tirref(tir, t1.current_owner[v.name]))
                } else {
                    fr
                };
                let c = t_consume(tir, pool, t2, a.1, v.value, span, spec_consumed_name(tir, v.value), BorrowedAction::MoveOutOfParam);
                (t_register(t_rebind(c.0, v.name, v.value), v.value, v.name, span, r), c.1, fr2)
            } else {
                (a.0, a.1, fr)
            }
        },
        _ => (t, d, fr),
    }
}

/// Return `r`: walk the operand; a move-typed one is consumed (a borrowed
/// one is E0022).
pub open spec fn sv_return(tir: Tir, pool: InternPool, t: Tables, d: Seq<DiagView>, r: TirRef) -> (Tables, Seq<DiagView>) {
    match tir.spec_inst(r).data {
        TirData::UnOp(o) => {
            let a = sv_expr(tir, pool, t, d, o);
            if tracked_at(tir, o) {
                t_consume(tir, pool, a.0, a.1, o, tir.spec_inst(r).span, spec_consumed_name(tir, o), BorrowedAction::ReturnBorrowed)
            } else {
                a
            }
        },
        _ => (t, d),
    }
}

/// The walk of straight-line statement `r` (tables, diagnostics,
/// reassignment frees); `None` for `if`, `while` and `for`.
pub open spec fn sv_stmt(
    tir: Tir,
    pool: InternPool,
    t: Tables,
    d: Seq<DiagView>,
    fr: Map<TirRef, TirRef>,
    r: TirRef,
) -> Option<(Tables, Seq<DiagView>, Map<TirRef, TirRef>)> {
    match tir.spec_inst(r).tag {
        TirTag::VarDecl => {
            let a = sv_var_decl(tir, pool, t, d, r);
            Some((a.0, a.1, fr))
        },
        TirTag::Assign => Some(sv_assign(tir, pool, t, d, fr, r)),
        TirTag::Return => {
            let a = sv_return(tir, pool, t, d, r);
            Some((a.0, a.1, fr))
        },
        TirTag::ReturnVoid | TirTag::Break | TirTag::Continue | TirTag::CompoundAssign => Some((t, d, fr)),
        TirTag::IfStmt | TirTag::WhileLoop | TirTag::ForRange => None,
        TirTag::ExprStmt => match tir.spec_inst(r).data {
            TirData::UnOp(o) => {
                let a = sv_expr(tir, pool, t, d, o);
                Some((a.0, a.1, fr))
            },
            _ => Some((t, d, fr)),
        },
        _ => {
            let a = sv_expr(tir, pool, t, d, r);
            Some((a.0, a.1, fr))
        },
    }
}

} // verus!
