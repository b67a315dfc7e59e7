use std::collections::HashSet;

use ryo_frontend::builtins::is_borrowed_scalar_param;
use ryo_frontend::builder::TirBuilder;
use ryo_frontend::diag::{DiagCode, DiagSink};
use ryo_frontend::ownership::lattice::Ownership;
use ryo_frontend::ownership::owners::{is_move_type, needs_tracking};
use ryo_frontend::ownership::pass::check;
use ryo_frontend::ownership::sidecar::{FunctionSidecar, OwnershipSidecar};
use ryo_frontend::tir::{ParamMode, TirData, TirParam, TirRef, TirTag};
use ryo_frontend::types::{InternPool, Span, StringId, TypeId};


/// Build an all-`Borrow` modes slice matching the length of an
/// argument list. The ownership pass reads `view.modes` directly,
/// so test/builtin call sites pass all-`Borrow` to avoid
/// accidentally moving arguments.
fn all_borrow(args: &[TirRef]) -> Vec<ParamMode> {
    vec![ParamMode::Borrow; args.len()]
}

/// Take the sidecar of the function named `name`.
fn take_named(sidecar: &mut OwnershipSidecar, name: StringId) -> Option<FunctionSidecar> {
    let pos = sidecar.functions.iter().position(|f| f.name == name)?;
    Some(sidecar.functions.remove(pos))
}

#[test]
fn ownership_copy_types_classified() {
    let pool = InternPool::new();
    assert!(pool.is_copy(pool.int_()));
    assert!(pool.is_copy(pool.float()));
    assert!(pool.is_copy(pool.bool_()));
    assert!(!pool.is_copy(pool.str_()));
}

#[test]
fn ownership_move_types_classified() {
    let pool = InternPool::new();
    assert!(is_move_type(pool.str_(), &pool));
    assert!(!is_move_type(pool.int_(), &pool));
    assert!(!is_move_type(pool.bool_(), &pool));
}

#[test]
fn ownership_needs_tracking_matches_move() {
    let pool = InternPool::new();
    assert!(needs_tracking(pool.str_(), &pool));
    assert!(!needs_tracking(pool.int_(), &pool));
}

#[test]
fn ownership_dead_store_schedules_free_after_decl() {

    let mut pool = InternPool::new();
    let str_ty = pool.str_();
    let void = pool.void();
    let main = pool.intern_str("main");
    let s_name = pool.intern_str("s");
    let hello = pool.intern_str("hello");
    let span = Span::new(0, 0);

    // fn main() -> void: s: str = "hello"   # never read
    let mut tb = TirBuilder::new(main, vec![], void, span);
    let lit = tb.str_const(hello, str_ty, span);
    let decl = tb.var_decl(s_name, false, str_ty, lit, span);
    let tir = tb.finish(&[decl]);

    let mut sink = DiagSink::new();
    let mut sidecar = check(std::slice::from_ref(&tir), &pool, &mut sink);
    let sidecar = take_named(&mut sidecar, main)
        .expect("per-function sidecar entry");

    // W0001 fires.
    let diags = sink.into_diags();
    assert!(
        diags.iter().any(|d| matches!(d.code, DiagCode::DeadStore)),
        "expected DeadStore warning"
    );

    // Free anchored after the VarDecl, target = the literal's TirRef.
    assert!(
        sidecar
            .free_schedule
            .iter()
            .any(|fp| fp.after == decl && fp.target == lit && fp.branch.is_none()),
        "expected dead-store Free anchored at decl with target=lit; got: {:?}",
        sidecar.free_schedule
    );

    // Exactly one Free for `lit` — guards against Task 3/4 ever
    // double-counting (anonymous-temp pass + dead-store pass both
    // emitting for the same owner).
    assert_eq!(
        sidecar
            .free_schedule
            .iter()
            .filter(|fp| fp.target == lit)
            .count(),
        1,
        "expected exactly one Free for lit"
    );
}

#[test]
fn ownership_ryo_panic_str_arg_excluded_via_abi_registry() {
    // Regression test for I-057/I-059. The StrConst arg of `__ryo_panic`
    // uses the borrowed-scalar ABI in codegen — codegen passes the
    // raw .rodata pointer with cap=0 and never owns the buffer. The
    // ownership pass excludes it from `temp_owners` by consulting the
    // `builtins` ABI registry (`is_borrowed_scalar_param`) rather than
    // a `pool.str(name) == "__ryo_panic"` name-match, so the
    // anonymous-temp Free pass does not schedule a Free for it.

    let mut pool = InternPool::new();
    let str_ty = pool.str_();
    let int_ty = pool.int_();
    let void = pool.void();
    let main = pool.intern_str("main");
    let panic_name = pool.intern_str("__ryo_panic");
    let msg = pool.intern_str("boom");
    let span = Span::new(0, 0);

    // fn main() -> void: __ryo_panic("boom", 4)
    let mut tb = TirBuilder::new(main, vec![], void, span);
    let str_arg = tb.str_const(msg, str_ty, span);
    let len_arg = tb.int_const(4, int_ty, span);
    let call = tb.call(
        panic_name,
        &[str_arg, len_arg],
        &all_borrow(&[str_arg, len_arg]),
        void,
        span,
    );
    let tir = tb.finish(&[call]);

    let mut sink = DiagSink::new();
    let mut sidecar_map = check(std::slice::from_ref(&tir), &pool, &mut sink);
    let sidecar = take_named(&mut sidecar_map, main)
        .expect("per-function sidecar entry");

    // No scheduled Free should target __ryo_panic's StrConst arg —
    // codegen's borrowed-scalar ABI never frees it.
    assert!(
        sidecar.free_schedule.iter().all(|fp| fp.target != str_arg),
        "expected no scheduled Free for __ryo_panic's StrConst arg, got: {:?}",
        sidecar.free_schedule
    );

    // I-059: the exclusion is driven by the ABI registry. `__ryo_panic`
    // passes param 0 (the message) via the borrowed-scalar ABI, but not
    // param 1 (the length) or any out-of-range index.
    assert!(
        is_borrowed_scalar_param(panic_name, &pool, 0),
        "__ryo_panic param 0 must be flagged borrowed-scalar by the registry"
    );
    assert!(
        !is_borrowed_scalar_param(panic_name, &pool, 1),
        "__ryo_panic param 1 must not be flagged borrowed-scalar"
    );
}

#[test]
fn ownership_inside_loop_temp_is_freed() {

    let mut pool = InternPool::new();
    let str_ty = pool.str_();
    let bool_ty = pool.bool_();
    let void = pool.void();
    let main = pool.intern_str("main");
    let print_name = pool.intern_str("print");
    let inside = pool.intern_str("inside");
    let span = Span::new(0, 0);

    // fn main() -> void:
    //     while true:
    //         print("inside")     # StrConst is the temp under test
    let mut tb = TirBuilder::new(main, vec![], void, span);
    let cond = tb.bool_const(true, bool_ty, span);
    let lit = tb.str_const(inside, str_ty, span);
    let print_call = tb.call(print_name, &[lit], &all_borrow(&[lit]), void, span);
    let wl = tb.while_loop(cond, &[print_call], void, span);
    let tir = tb.finish(&[wl]);

    let mut sink = DiagSink::new();
    let mut sidecar = check(std::slice::from_ref(&tir), &pool, &mut sink);
    let sidecar = take_named(&mut sidecar, main)
        .expect("per-function sidecar entry");

    assert!(
        sidecar.free_schedule.iter().any(|fp| fp.target == lit),
        "expected inside-loop StrConst to be scheduled for Free; got: {:?}",
        sidecar.free_schedule
    );
    assert_eq!(
        sidecar
            .free_schedule
            .iter()
            .filter(|fp| fp.target == lit)
            .count(),
        1,
        "expected exactly one Free for the inside-loop StrConst; got: {:?}",
        sidecar.free_schedule
    );
}

#[test]
fn pre_loop_owner_break_before_last_use_schedules_free_on_break() {
    // A pre-loop owner whose last-use is inside a loop must be
    // freed on a `break` path that bypasses that last-use, as we
    // are exiting the loop and will never reach the last-use again.

    let mut pool = InternPool::new();
    let str_ty = pool.str_();
    let int_ty = pool.int_();
    let bool_ty = pool.bool_();
    let void = pool.void();
    let main = pool.intern_str("main");
    let s_name = pool.intern_str("s");
    let int_to_str = pool.intern_str("int_to_str");
    let print = pool.intern_str("print");
    let span = Span::new(0, 0);

    // fn main() -> void:
    //     s: str = int_to_str(0)
    //     while true:
    //         if true:
    //             break
    //         print(s)
    let mut tb = TirBuilder::new(main, vec![], void, span);
    let zero = tb.int_const(0, int_ty, span);
    let alloc = tb.call(int_to_str, &[zero], &all_borrow(&[zero]), str_ty, span);
    let decl = tb.var_decl(s_name, false, str_ty, alloc, span);

    let cond_w = tb.bool_const(true, bool_ty, span);
    let cond_i = tb.bool_const(true, bool_ty, span);
    let brk = tb.break_stmt(void, span);
    let if_inside = tb.if_stmt(cond_i, &[brk], &[], None, void, span);
    let s_var = tb.var(s_name, str_ty, span);
    let print_call = tb.call(print, &[s_var], &all_borrow(&[s_var]), void, span);
    let print_stmt = tb.unary(TirTag::ExprStmt, void, print_call, span);
    let wl = tb.while_loop(cond_w, &[if_inside, print_stmt], void, span);
    let tir = tb.finish(&[decl, wl]);

    let mut sink = DiagSink::new();
    let mut sidecar = check(std::slice::from_ref(&tir), &pool, &mut sink);
    let sidecar = take_named(&mut sidecar, main)
        .expect("per-function sidecar entry");

    assert!(
        sidecar
            .free_schedule
            .iter()
            .any(|fp| fp.after == brk && fp.target == alloc),
        "expected pre-loop owner whose last-use is in the loop to be freed on break; got: {:?}",
        sidecar.free_schedule
    );
}

#[test]
fn ownership_pre_loop_owner_continue_before_last_use_does_not_free_on_continue() {
    // A pre-loop owner whose last-use is inside a loop must NOT be
    // freed on a `continue` path, as we will loop back and might
    // read it in the next iteration (causing use-after-free).

    let mut pool = InternPool::new();
    let str_ty = pool.str_();
    let int_ty = pool.int_();
    let bool_ty = pool.bool_();
    let void = pool.void();
    let main = pool.intern_str("main");
    let s_name = pool.intern_str("s");
    let int_to_str = pool.intern_str("int_to_str");
    let print = pool.intern_str("print");
    let span = Span::new(0, 0);

    // fn main() -> void:
    //     s: str = int_to_str(0)
    //     while true:
    //         if true:
    //             continue
    //         print(s)
    let mut tb = TirBuilder::new(main, vec![], void, span);
    let zero = tb.int_const(0, int_ty, span);
    let alloc = tb.call(int_to_str, &[zero], &all_borrow(&[zero]), str_ty, span);
    let decl = tb.var_decl(s_name, false, str_ty, alloc, span);

    let cond_w = tb.bool_const(true, bool_ty, span);
    let cond_i = tb.bool_const(true, bool_ty, span);
    let cont = tb.continue_stmt(void, span);
    let if_inside = tb.if_stmt(cond_i, &[cont], &[], None, void, span);
    let s_var = tb.var(s_name, str_ty, span);
    let print_call = tb.call(print, &[s_var], &all_borrow(&[s_var]), void, span);
    let print_stmt = tb.unary(TirTag::ExprStmt, void, print_call, span);
    let wl = tb.while_loop(cond_w, &[if_inside, print_stmt], void, span);
    let tir = tb.finish(&[decl, wl]);

    let mut sink = DiagSink::new();
    let mut sidecar = check(std::slice::from_ref(&tir), &pool, &mut sink);
    let sidecar = take_named(&mut sidecar, main)
        .expect("per-function sidecar entry");

    // The only Free for `alloc` must be anchored on `print_call`,
    // and we must NOT have any Free anchored on `cont`.
    let frees_for_alloc: Vec<_> = sidecar
        .free_schedule
        .iter()
        .filter(|fp| fp.target == alloc)
        .collect();
    assert_eq!(
        frees_for_alloc.len(),
        1,
        "expected exactly one Free for `alloc`; got: {:?}",
        sidecar.free_schedule
    );
    assert_ne!(
        frees_for_alloc[0].after, cont,
        "Free for pre-loop owner must not be anchored on continue; got: {:?}",
        frees_for_alloc[0]
    );
}

#[test]
fn ownership_continue_jump_does_not_free_pre_loop_owner_uaf_guard() {
    // Pre-loop owner read only inside the loop, with a `continue` before
    // its last use. The defensive emit must NOT fire on continue (would
    // free the buffer the next iteration reads -> UAF). break still frees.
    // Construct: s = "x"; while c: if d: continue; print(s)
    let mut pool = InternPool::new();
    let str_ty = pool.str_();
    let void = pool.void();
    let bool_ty = pool.bool_();
    let main = pool.intern_str("main");
    let s = pool.intern_str("s");
    let c = pool.intern_str("c");
    let d = pool.intern_str("d");
    let print = pool.intern_str("print");
    let span = Span::new(0, 0);
    let mut tb = TirBuilder::new(main, vec![], void, span);
    let lit = tb.str_const(pool.intern_str("x"), str_ty, span);
    let decl = tb.var_decl(s, false, str_ty, lit, span);
    let cond = tb.var(c, bool_ty, span);
    let cont = tb.continue_stmt(void, span);
    let sv = tb.var(s, str_ty, span);
    let pcall = tb.call(
        print,
        &[sv],
        &[ParamMode::Borrow],
        void,
        span,
    );
    let ifcond = tb.var(d, bool_ty, span);
    let ifstmt = tb.if_stmt(ifcond, &[cont], &[], Some(&[pcall]), void, span);
    let lp = tb.while_loop(cond, &[ifstmt], void, span);
    let tir = tb.finish(&[decl, lp]);
    let mut sink = DiagSink::new();
    let mut sc = check(std::slice::from_ref(&tir), &pool, &mut sink);
    let sc = take_named(&mut sc, main).unwrap();
    // No Free for `lit` anchored on the continue jump:
    assert!(
        !sc.free_schedule
            .iter()
            .any(|fp| fp.target == lit && fp.after == cont),
        "continue must not free the pre-loop owner (UAF); got {sc:?}"
    );
}

#[test]
fn ownership_continue_jump_does_not_free_pre_loop_owner_uaf_guard_reassigned() {
    // Construct: s = "x"; while c: if d: continue; s = "y"
    let mut pool = InternPool::new();
    let str_ty = pool.str_();
    let void = pool.void();
    let bool_ty = pool.bool_();
    let main = pool.intern_str("main");
    let s = pool.intern_str("s");
    let c = pool.intern_str("c");
    let d = pool.intern_str("d");
    let span = Span::new(0, 0);
    let mut tb = TirBuilder::new(main, vec![], void, span);
    let lit1 = tb.str_const(pool.intern_str("x"), str_ty, span);
    let decl = tb.var_decl(s, false, str_ty, lit1, span);
    let cond = tb.var(c, bool_ty, span);
    let cont = tb.continue_stmt(void, span);
    let ifcond = tb.var(d, bool_ty, span);
    let ifstmt = tb.if_stmt(ifcond, &[cont], &[], None, void, span);
    let lit2 = tb.str_const(pool.intern_str("y"), str_ty, span);
    let assign = tb.assign(s, str_ty, lit2, span);
    let lp = tb.while_loop(cond, &[ifstmt, assign], void, span);
    let tir = tb.finish(&[decl, lp]);
    let mut sink = DiagSink::new();
    let mut sc = check(std::slice::from_ref(&tir), &pool, &mut sink);
    let sc = take_named(&mut sc, main).unwrap();
    // Under the buggy compiler, `lit1` is defensively freed on `cont`:
    let freed_on_cont = sc
        .free_schedule
        .iter()
        .any(|fp| fp.target == lit1 && fp.after == cont);
    assert!(
        !freed_on_cont,
        "continue must not free the pre-loop owner (UAF); got {sc:?}"
    );
}

#[test]
fn ownership_break_before_last_use_schedules_jump_free() {
    // Regression for I-058. A `break` taken before the `print(s)`
    // last-use must trigger a Free anchored on the break instr —
    // otherwise the inside-loop allocation leaks on the break path.

    let mut pool = InternPool::new();
    let str_ty = pool.str_();
    let int_ty = pool.int_();
    let bool_ty = pool.bool_();
    let void = pool.void();
    let main = pool.intern_str("main");
    let s_name = pool.intern_str("s");
    let int_to_str = pool.intern_str("int_to_str");
    let print = pool.intern_str("print");
    let span = Span::new(0, 0);

    // fn main() -> void:
    //     while true:
    //         s: str = int_to_str(0)
    //         if true:
    //             break
    //         print(s)
    let mut tb = TirBuilder::new(main, vec![], void, span);
    let cond_w = tb.bool_const(true, bool_ty, span);
    let zero = tb.int_const(0, int_ty, span);
    let alloc = tb.call(int_to_str, &[zero], &all_borrow(&[zero]), str_ty, span);
    let decl = tb.var_decl(s_name, false, str_ty, alloc, span);
    let cond_i = tb.bool_const(true, bool_ty, span);
    let brk = tb.break_stmt(void, span);
    let if_inside = tb.if_stmt(cond_i, &[brk], &[], None, void, span);
    let s_var = tb.var(s_name, str_ty, span);
    let print_call = tb.call(print, &[s_var], &all_borrow(&[s_var]), void, span);
    let print_stmt = tb.unary(TirTag::ExprStmt, void, print_call, span);
    let wl = tb.while_loop(cond_w, &[decl, if_inside, print_stmt], void, span);
    let tir = tb.finish(&[wl]);

    let mut sink = DiagSink::new();
    let mut sidecar = check(std::slice::from_ref(&tir), &pool, &mut sink);
    let sidecar = take_named(&mut sidecar, main)
        .expect("per-function sidecar entry");

    assert!(
        sidecar
            .free_schedule
            .iter()
            .any(|fp| fp.after == brk && fp.target == alloc),
        "expected a Free for the inside-loop owner anchored on break; got: {:?}",
        sidecar.free_schedule
    );
}

#[test]
fn ownership_break_after_last_use_does_not_double_schedule() {
    // The `break_inside_loop_owner` shape: print(s) is before
    // break, so the natural last-use Free fires before the jump
    // on any path that reaches it. The break/continue scheduler
    // must NOT add a redundant Free anchored on break, or codegen
    // would double-free.

    let mut pool = InternPool::new();
    let str_ty = pool.str_();
    let int_ty = pool.int_();
    let bool_ty = pool.bool_();
    let void = pool.void();
    let main = pool.intern_str("main");
    let s_name = pool.intern_str("s");
    let int_to_str = pool.intern_str("int_to_str");
    let print = pool.intern_str("print");
    let span = Span::new(0, 0);

    // fn main() -> void:
    //     while true:
    //         s: str = int_to_str(0)
    //         print(s)
    //         if true:
    //             break
    let mut tb = TirBuilder::new(main, vec![], void, span);
    let cond_w = tb.bool_const(true, bool_ty, span);
    let zero = tb.int_const(0, int_ty, span);
    let alloc = tb.call(int_to_str, &[zero], &all_borrow(&[zero]), str_ty, span);
    let decl = tb.var_decl(s_name, false, str_ty, alloc, span);
    let s_var = tb.var(s_name, str_ty, span);
    let print_call = tb.call(print, &[s_var], &all_borrow(&[s_var]), void, span);
    let print_stmt = tb.unary(TirTag::ExprStmt, void, print_call, span);
    let cond_i = tb.bool_const(true, bool_ty, span);
    let brk = tb.break_stmt(void, span);
    let if_inside = tb.if_stmt(cond_i, &[brk], &[], None, void, span);
    let wl = tb.while_loop(cond_w, &[decl, print_stmt, if_inside], void, span);
    let tir = tb.finish(&[wl]);

    let mut sink = DiagSink::new();
    let mut sidecar = check(std::slice::from_ref(&tir), &pool, &mut sink);
    let sidecar = take_named(&mut sidecar, main)
        .expect("per-function sidecar entry");

    // Exactly one Free for `alloc`, anchored on `print_call` (the
    // last-use), not on `brk`.
    let frees_for_alloc: Vec<_> = sidecar
        .free_schedule
        .iter()
        .filter(|fp| fp.target == alloc)
        .collect();
    assert_eq!(
        frees_for_alloc.len(),
        1,
        "expected exactly one Free for `alloc`; got: {:?}",
        sidecar.free_schedule
    );
    assert_ne!(
        frees_for_alloc[0].after, brk,
        "Free for `alloc` must not be anchored on break; got: {:?}",
        frees_for_alloc[0]
    );
}

#[test]
fn ownership_break_in_else_arm_sibling_print_schedules_jump_free() {
    // Cross-branch I-058 regression. The natural last-use Free for
    // `alloc` anchors on `print(s)` inside the THEN arm; the break
    // sits in the ELSE arm. Lexical raw() ordering would put the
    // print's anchor before the break, but on the break path the
    // print never ran — so the buffer leaks unless we schedule a
    // jump-anchored Free here.

    let mut pool = InternPool::new();
    let str_ty = pool.str_();
    let int_ty = pool.int_();
    let bool_ty = pool.bool_();
    let void = pool.void();
    let main = pool.intern_str("main");
    let s_name = pool.intern_str("s");
    let int_to_str = pool.intern_str("int_to_str");
    let print = pool.intern_str("print");
    let span = Span::new(0, 0);

    // fn main() -> void:
    //     while true:
    //         s: str = int_to_str(0)
    //         if true:
    //             print(s)        # natural last-use, then-arm
    //         else:
    //             break           # cross-branch leak site
    let mut tb = TirBuilder::new(main, vec![], void, span);
    let cond_w = tb.bool_const(true, bool_ty, span);
    let zero = tb.int_const(0, int_ty, span);
    let alloc = tb.call(int_to_str, &[zero], &all_borrow(&[zero]), str_ty, span);
    let decl = tb.var_decl(s_name, false, str_ty, alloc, span);
    let cond_i = tb.bool_const(true, bool_ty, span);
    let s_var = tb.var(s_name, str_ty, span);
    let print_call = tb.call(print, &[s_var], &all_borrow(&[s_var]), void, span);
    let print_stmt = tb.unary(TirTag::ExprStmt, void, print_call, span);
    let brk = tb.break_stmt(void, span);
    let if_inside = tb.if_stmt(cond_i, &[print_stmt], &[], Some(&[brk]), void, span);
    let wl = tb.while_loop(cond_w, &[decl, if_inside], void, span);
    let tir = tb.finish(&[wl]);

    let mut sink = DiagSink::new();
    let mut sidecar = check(std::slice::from_ref(&tir), &pool, &mut sink);
    let sidecar = take_named(&mut sidecar, main)
        .expect("per-function sidecar entry");

    // Two Frees expected: one anchored on s_var (the Var read in
    // the then-arm — collect_last_uses anchors on Var reads, not
    // their wrapping Call), one anchored on brk (cross-branch
    // leak fix).
    let frees_for_alloc: Vec<_> = sidecar
        .free_schedule
        .iter()
        .filter(|fp| fp.target == alloc)
        .collect();
    assert!(
        frees_for_alloc.iter().any(|fp| fp.after == s_var),
        "expected then-arm last-use Free anchored on s_var (the Var read); got: {:?}",
        sidecar.free_schedule
    );
    assert!(
        frees_for_alloc.iter().any(|fp| fp.after == brk),
        "expected cross-branch jump-anchored Free on break; got: {:?}",
        sidecar.free_schedule
    );
}

#[test]
fn ownership_continue_before_last_use_schedules_jump_free() {
    // Symmetric I-058 regression for `continue` instead of `break`.

    let mut pool = InternPool::new();
    let str_ty = pool.str_();
    let int_ty = pool.int_();
    let bool_ty = pool.bool_();
    let void = pool.void();
    let main = pool.intern_str("main");
    let s_name = pool.intern_str("s");
    let int_to_str = pool.intern_str("int_to_str");
    let print = pool.intern_str("print");
    let span = Span::new(0, 0);

    // fn main() -> void:
    //     while true:
    //         s: str = int_to_str(0)
    //         if true:
    //             continue
    //         print(s)
    let mut tb = TirBuilder::new(main, vec![], void, span);
    let cond_w = tb.bool_const(true, bool_ty, span);
    let zero = tb.int_const(0, int_ty, span);
    let alloc = tb.call(int_to_str, &[zero], &all_borrow(&[zero]), str_ty, span);
    let decl = tb.var_decl(s_name, false, str_ty, alloc, span);
    let cond_i = tb.bool_const(true, bool_ty, span);
    let cont = tb.continue_stmt(void, span);
    let if_inside = tb.if_stmt(cond_i, &[cont], &[], None, void, span);
    let s_var = tb.var(s_name, str_ty, span);
    let print_call = tb.call(print, &[s_var], &all_borrow(&[s_var]), void, span);
    let print_stmt = tb.unary(TirTag::ExprStmt, void, print_call, span);
    let wl = tb.while_loop(cond_w, &[decl, if_inside, print_stmt], void, span);
    let tir = tb.finish(&[wl]);

    let mut sink = DiagSink::new();
    let mut sidecar = check(std::slice::from_ref(&tir), &pool, &mut sink);
    let sidecar = take_named(&mut sidecar, main)
        .expect("per-function sidecar entry");

    assert!(
        sidecar
            .free_schedule
            .iter()
            .any(|fp| fp.after == cont && fp.target == alloc),
        "expected a Free for the inside-loop owner anchored on continue; got: {:?}",
        sidecar.free_schedule
    );
}

#[test]
fn ownership_pre_loop_owner_read_only_in_loop_is_freed() {

    let mut pool = InternPool::new();
    let str_ty = pool.str_();
    let bool_ty = pool.bool_();
    let void = pool.void();
    let main = pool.intern_str("main");
    let s_name = pool.intern_str("s");
    let print_name = pool.intern_str("print");
    let hello = pool.intern_str("hello");
    let span = Span::new(0, 0);

    // fn main() -> void:
    //     s: str = "hello"
    //     while false:
    //         print(s)            # only read of `s`, inside the loop
    let mut tb = TirBuilder::new(main, vec![], void, span);
    let lit = tb.str_const(hello, str_ty, span);
    let decl = tb.var_decl(s_name, false, str_ty, lit, span);
    let cond = tb.bool_const(false, bool_ty, span);
    let s_var = tb.var(s_name, str_ty, span);
    let print_call = tb.call(print_name, &[s_var], &all_borrow(&[s_var]), void, span);
    let wl = tb.while_loop(cond, &[print_call], void, span);
    let tir = tb.finish(&[decl, wl]);

    let mut sink = DiagSink::new();
    let mut sidecar = check(std::slice::from_ref(&tir), &pool, &mut sink);
    let sidecar = take_named(&mut sidecar, main)
        .expect("per-function sidecar entry");

    let diags = sink.into_diags();
    assert!(
        !diags.iter().any(|d| matches!(d.code, DiagCode::DeadStore)),
        "did not expect DeadStore for `s` (it is read inside the loop): {:?}",
        diags
    );

    let count = sidecar
        .free_schedule
        .iter()
        .filter(|fp| fp.target == lit)
        .count();
    assert_eq!(
        count, 1,
        "expected exactly one Free for pre-loop owner read only inside loop; got {} schedule={:?}",
        count, sidecar.free_schedule
    );
}

#[test]
fn ownership_last_use_scheduled_for_unmoved_local() {

    let mut pool = InternPool::new();
    let str_ty = pool.str_();
    let void = pool.void();
    let main = pool.intern_str("main");
    let hello = pool.intern_str("hello");
    let s_name = pool.intern_str("s");
    let print_name = pool.intern_str("print");
    let span = Span::new(0, 0);

    // fn main() -> void:
    //     s: str = "hello"
    //     print(s)
    let mut b = TirBuilder::new(main, vec![], void, span);
    let lit = b.str_const(hello, str_ty, span);
    let decl = b.var_decl(s_name, false, str_ty, lit, span);
    let var_read = b.var(s_name, str_ty, span);
    let call = b.call(
        print_name,
        &[var_read],
        &all_borrow(&[var_read]),
        void,
        span,
    );
    let stmt = b.unary(TirTag::ExprStmt, void, call, span);
    let tir = b.finish(&[decl, stmt]);

    let mut sink = DiagSink::new();
    let mut sidecar = check(std::slice::from_ref(&tir), &pool, &mut sink);
    let sidecar = take_named(&mut sidecar, main)
        .expect("per-function sidecar entry");
    assert!(sink.is_empty(), "expected no diagnostics");
    assert_eq!(sidecar.free_schedule.len(), 1);
    assert_eq!(sidecar.free_schedule[0].target, lit);
    assert_eq!(sidecar.free_schedule[0].after, var_read);
    assert!(sidecar.free_schedule[0].branch.is_none());
}

#[test]
fn ownership_reassignment_records_free_on_old_owner() {

    let mut pool = InternPool::new();
    let str_ty = pool.str_();
    let void = pool.void();
    let main = pool.intern_str("main");
    let s = pool.intern_str("s");
    let hello = pool.intern_str("hello");
    let world = pool.intern_str("world");
    let print = pool.intern_str("print");
    let span = Span::new(0, 0);

    // fn main():
    //     mut s: str = "hello"
    //     s = "world"
    //     print(s)
    let mut tb = TirBuilder::new(main, vec![], void, span);
    let l1 = tb.str_const(hello, str_ty, span);
    let decl = tb.var_decl(s, /* mutable = */ true, str_ty, l1, span);
    let l2 = tb.str_const(world, str_ty, span);
    let assign = tb.assign(s, str_ty, l2, span);
    let var_read = tb.var(s, str_ty, span);
    let call = tb.call(print, &[var_read], &all_borrow(&[var_read]), void, span);
    let stmt = tb.unary(TirTag::ExprStmt, void, call, span);
    let tir = tb.finish(&[decl, assign, stmt]);

    let mut sink = DiagSink::new();
    let mut sidecar = check(std::slice::from_ref(&tir), &pool, &mut sink);
    let sidecar = take_named(&mut sidecar, main)
        .expect("per-function sidecar entry");
    assert!(sink.is_empty(), "expected no diagnostics");

    // Reassign frees l1 (old owner) keyed on the Assign inst.
    assert_eq!(
        sidecar.free_on_reassign.get(&assign),
        Some(&l1),
        "expected free_on_reassign[assign] = l1"
    );

    // Last-use frees l2 (new owner reaches function exit via print(s)).
    assert!(
        sidecar
            .free_schedule
            .iter()
            .any(|fp| fp.target == l2 && fp.after == var_read && fp.branch.is_none()),
        "expected last-use Free for l2; got: {:?}",
        sidecar.free_schedule
    );

    // No dead-store Free for l1 — it's covered by free_on_reassign.
    assert!(
        !sidecar.free_schedule.iter().any(|fp| fp.target == l1),
        "l1 must not be in free_schedule (it's in free_on_reassign): {:?}",
        sidecar.free_schedule
    );
}

#[test]
fn ownership_concat_intermediate_freed_after_consumer() {

    let mut pool = InternPool::new();
    let str_ty = pool.str_();
    let void = pool.void();
    let main = pool.intern_str("main");
    let print = pool.intern_str("print");
    let a = pool.intern_str("a");
    let b = pool.intern_str("b");
    let span = Span::new(0, 0);

    // print("a" + "b")
    let mut tb = TirBuilder::new(main, vec![], void, span);
    let la = tb.str_const(a, str_ty, span);
    let lb = tb.str_const(b, str_ty, span);
    let cat = tb.binary(TirTag::StrConcat, str_ty, la, lb, span);
    let call = tb.call(print, &[cat], &all_borrow(&[cat]), void, span);
    let stmt = tb.unary(TirTag::ExprStmt, void, call, span);
    let tir = tb.finish(&[stmt]);

    let mut sink = DiagSink::new();
    let mut sidecar = check(std::slice::from_ref(&tir), &pool, &mut sink);
    let sidecar = take_named(&mut sidecar, main)
        .expect("per-function sidecar entry");
    assert!(sink.is_empty());

    // Three Frees: la, lb, cat. Anchored after consumers (la/lb on
    // cat, cat on call). Order-independent.
    let targets: HashSet<TirRef> = sidecar.free_schedule.iter().map(|fp| fp.target).collect();
    assert!(targets.contains(&la), "expected la in free_schedule");
    assert!(targets.contains(&lb), "expected lb in free_schedule");
    assert!(targets.contains(&cat), "expected cat in free_schedule");
    assert_eq!(sidecar.free_schedule.len(), 3);
}

#[test]
fn ownership_last_use_uses_pre_rebind_owner_not_post() {

    let mut pool = InternPool::new();
    let str_ty = pool.str_();
    let void = pool.void();
    let main = pool.intern_str("main");
    let n = pool.intern_str("n");
    let alice = pool.intern_str("Alice");
    let bob = pool.intern_str("Bob");
    let print = pool.intern_str("print");
    let span = Span::new(0, 0);

    // fn main():
    //     mut n: str = "Alice"
    //     print(n)        # last-use of "Alice"
    //     n = "Bob"
    //     print(n)        # last-use of "Bob"
    let mut tb = TirBuilder::new(main, vec![], void, span);
    let alice_lit = tb.str_const(alice, str_ty, span);
    let decl = tb.var_decl(n, true, str_ty, alice_lit, span);
    let read1 = tb.var(n, str_ty, span);
    let call1 = tb.call(print, &[read1], &all_borrow(&[read1]), void, span);
    let stmt1 = tb.unary(TirTag::ExprStmt, void, call1, span);
    let bob_lit = tb.str_const(bob, str_ty, span);
    let assign = tb.assign(n, str_ty, bob_lit, span);
    let read2 = tb.var(n, str_ty, span);
    let call2 = tb.call(print, &[read2], &all_borrow(&[read2]), void, span);
    let stmt2 = tb.unary(TirTag::ExprStmt, void, call2, span);
    let tir = tb.finish(&[decl, stmt1, assign, stmt2]);

    let mut sink = DiagSink::new();
    let mut sidecar = check(std::slice::from_ref(&tir), &pool, &mut sink);
    let sidecar = take_named(&mut sidecar, main)
        .expect("per-function sidecar entry");
    assert!(sink.is_empty(), "expected no diagnostics");

    // The Free for "Alice" must come from free_on_reassign[assign],
    // NOT from last-use scheduling. Last-use should target "Bob"
    // (anchored after read2), not "Alice".
    assert_eq!(
        sidecar.free_on_reassign.get(&assign),
        Some(&alice_lit),
        "expected free_on_reassign[assign] = alice_lit"
    );
    // free_schedule must not contain a FreePoint with target=alice_lit
    // anchored at read1 (the bug's signature was wrong-target via post-rebind current_owner).
    assert!(
        !sidecar
            .free_schedule
            .iter()
            .any(|fp| fp.after == read1 && fp.target == alice_lit),
        "expected no last-use Free for Alice anchored at read1 (Alice freed via free_on_reassign): {:?}",
        sidecar.free_schedule
    );
    // Last-use Free for Bob must exist anchored at read2.
    assert!(
        sidecar
            .free_schedule
            .iter()
            .any(|fp| fp.after == read2 && fp.target == bob_lit && fp.branch.is_none()),
        "expected last-use Free for Bob anchored at read2; got: {:?}",
        sidecar.free_schedule
    );
}

#[test]
fn ownership_str_const_walk_no_panic() {

    let mut pool = InternPool::new();
    let str_ty = pool.str_();
    let void = pool.void();
    let main = pool.intern_str("main");
    let hello = pool.intern_str("hello");
    let span = Span::new(0, 0);

    // fn main() -> void: <str_const "hello"> as expr_stmt
    let mut b = TirBuilder::new(main, vec![], void, span);
    let s = b.str_const(hello, str_ty, span);
    let stmt = b.unary(TirTag::ExprStmt, void, s, span);
    let tir = b.finish(&[stmt]);

    let mut sink = DiagSink::new();
    check(std::slice::from_ref(&tir), &pool, &mut sink);
    assert!(sink.is_empty());
}

#[test]
fn ownership_branch_ids_unique_across_post_loop_if() {

    let mut pool = InternPool::new();
    let str_ty = pool.str_();
    let bool_ty = pool.bool_();
    let void = pool.void();
    let main = pool.intern_str("main");
    let print_name = pool.intern_str("print");
    let lit_a = pool.intern_str("a");
    let lit_b = pool.intern_str("b");
    let span = Span::new(0, 0);

    // fn main() -> void:
    //     while false:
    //         if true:
    //             print("a")
    //     if true:
    //         print("b")
    //
    // The post-loop `if` must not reuse BranchIds that the
    // inside-loop `if` already minted. Today this test may pass
    // vacuously because M8.1's print-of-StrConst doesn't produce
    // branch-gated Frees, so `free_schedule` may have no
    // `Some(BranchId)` entries to inspect. The strong regression
    // for Bug 4 lives in
    // `branch_ids_do_not_collide_after_loop` in
    // `tests/integration_tests.rs`.
    let mut tb = TirBuilder::new(main, vec![], void, span);

    let cond_w = tb.bool_const(false, bool_ty, span);
    let cond_i1 = tb.bool_const(true, bool_ty, span);
    let s_a = tb.str_const(lit_a, str_ty, span);
    let print_a = tb.call(print_name, &[s_a], &all_borrow(&[s_a]), void, span);
    let if_inside = tb.if_stmt(cond_i1, &[print_a], &[], None, void, span);
    let wl = tb.while_loop(cond_w, &[if_inside], void, span);

    let cond_i2 = tb.bool_const(true, bool_ty, span);
    let s_b = tb.str_const(lit_b, str_ty, span);
    let print_b = tb.call(print_name, &[s_b], &all_borrow(&[s_b]), void, span);
    let if_post = tb.if_stmt(cond_i2, &[print_b], &[], None, void, span);

    let tir = tb.finish(&[wl, if_post]);

    let mut sink = DiagSink::new();
    let mut sidecar = check(std::slice::from_ref(&tir), &pool, &mut sink);
    let sidecar = take_named(&mut sidecar, main)
        .expect("per-function sidecar entry");

    let max = sidecar
        .free_schedule
        .iter()
        .filter_map(|fp| fp.branch.map(|b| b.0))
        .max();
    if let Some(m) = max {
        assert!(
            m >= 2,
            "post-loop branch reused an inside-loop BranchId; max id = {m}, schedule = {:?}",
            sidecar.free_schedule
        );
    }
    // If no branch-gated frees were scheduled, the test passes
    // vacuously — the integration test
    // `branch_ids_do_not_collide_after_loop` is the stronger
    // guarantee.
}

#[test]
fn ownership_merge_branches_takes_max_next_branch_id() {
    // Direct regression for Bug 4 in M8.1c. merge_two clones the
    // pre-loop entry; merge_branches must monotonically advance
    // next_branch_id so that BranchIds minted inside a loop body
    // are not reused by post-loop ifs.
    let mut entry = Ownership::new();
    entry.next_branch_id = 0;

    // inside-loop minted ids 0..=4
    let mut after_body = Ownership::new();
    after_body.next_branch_id = 5;

    let branches = vec![entry.copy(), after_body];
    entry.merge_branches(&branches);

    assert_eq!(
        entry.next_branch_id, 5,
        "merge_branches must take the max of branch next_branch_id values"
    );
}

#[test]
fn ownership_merge_branches_keeps_self_when_self_is_higher() {
    // Symmetry check: max() also wins when self already has the
    // higher value (a branch that didn't allocate any BranchIds
    // shouldn't roll the allocator backward).
    let mut entry = Ownership::new();
    entry.next_branch_id = 7;

    let other = Ownership::new(); // next_branch_id = 0

    let branches = vec![other.copy(), other];
    entry.merge_branches(&branches);

    assert_eq!(
        entry.next_branch_id, 7,
        "merge_branches must not roll next_branch_id backward"
    );
}

#[test]
fn ownership_borrowed_param_resolves_under_owner_param_as_borrowed() {
    let mut pool = InternPool::new();
    let str_ty = pool.str_();
    let void = pool.void();
    let read = pool.intern_str("read"); // fn read(s: str) -> void  (borrowed param)
    let s_name = pool.intern_str("s");
    let span = Span::new(0, 0);
    let mut tb = TirBuilder::new(
        read,
        vec![TirParam {
            name: s_name,
            ty: str_ty,
            mode: ParamMode::Borrow,
            span,
        }],
        void,
        span,
    );
    let v = tb.var(s_name, str_ty, span);
    let tir = tb.finish(&[v]);
    let mut sink = DiagSink::new();
    // check() initialises the param lattice under Owner::Param(s_name) as
    // Borrowed. Assert that reading the borrowed param does NOT trip E0020
    // — the Owner::Param + Borrowed init is load-bearing for the enum migration.
    let _sc = check(std::slice::from_ref(&tir), &pool, &mut sink);
    assert!(
        sink.into_diags()
            .iter()
            .all(|d| !matches!(d.code, DiagCode::UseAfterMove)),
        "borrowed param read must not trip UAM; the Owner::Param+Borrowed init is load-bearing"
    );
}

#[test]
fn ownership_unconsumed_move_param_schedules_free_at_function_end() {
    let mut pool = InternPool::new();
    let str_ty = pool.str_();
    let void = pool.void();
    let consume = pool.intern_str("consume"); // fn consume(move s: str) -> void
    let s_name = pool.intern_str("s");
    let span = Span::new(0, 0);
    let mut tb = TirBuilder::new(
        consume,
        vec![TirParam {
            name: s_name,
            ty: str_ty,
            mode: ParamMode::Move,
            span,
        }],
        void,
        span,
    );
    // Just return, do not consume `s`.
    let ret = tb.return_void(void, span);
    let tir = tb.finish(&[ret]);
    let mut sink = DiagSink::new();
    let mut sidecar = check(std::slice::from_ref(&tir), &pool, &mut sink);
    let sc = take_named(&mut sidecar, consume).expect("sidecar");

    let virtual_ref = TirRef::param(0);
    let fp = sc
        .free_schedule
        .iter()
        .find(|fp| fp.target == virtual_ref)
        .expect("free scheduled");
    assert_eq!(fp.after, ret);
}

#[test]
fn ownership_conditional_move_param_schedules_branch_gated_free() {
    let mut pool = InternPool::new();
    let str_ty = pool.str_();
    let bool_ty = pool.bool_();
    let void = pool.void();
    let consume_cond = pool.intern_str("consume_cond");
    let s_name = pool.intern_str("s");
    let cond_name = pool.intern_str("cond");
    let take = pool.intern_str("take");
    let span = Span::new(0, 0);

    let mut tb = TirBuilder::new(
        consume_cond,
        vec![
            TirParam {
                name: s_name,
                ty: str_ty,
                mode: ParamMode::Move,
                span,
            },
            TirParam {
                name: cond_name,
                ty: bool_ty,
                mode: ParamMode::Borrow,
                span,
            },
        ],
        void,
        span,
    );

    let cond_val = tb.var(cond_name, bool_ty, span);
    let s_val_then = tb.var(s_name, str_ty, span);
    let call_then = tb.call(take, &[s_val_then], &[ParamMode::Move], void, span);

    let s_val_else = tb.var(s_name, str_ty, span);
    let call_else = tb.call(take, &[s_val_else], &[ParamMode::Borrow], void, span);

    let if_stmt = tb.if_stmt(cond_val, &[call_then], &[], Some(&[call_else]), void, span);

    let tir = tb.finish(&[if_stmt]);
    let mut sink = DiagSink::new();
    let mut sidecar = check(std::slice::from_ref(&tir), &pool, &mut sink);
    let sc = take_named(&mut sidecar, consume_cond).expect("sidecar");

    let virtual_ref = TirRef::param(0);
    // We expect a branch-gated free for the parameter in the else branch!
    let fp = sc
        .free_schedule
        .iter()
        .find(|fp| fp.target == virtual_ref && fp.branch.is_some())
        .expect("branch-gated free scheduled");
    assert_eq!(fp.after, call_else);
}

#[test]
fn ownership_rebind_then_reassign_does_not_double_free() {
    // s = "a"   (temp_a bound to s)
    // s = "b"   (reassign: free_on_reassign covers temp_a; s -> temp_b)
    // At exit, temp_a is Valid (resurrected by rebind) and NOT in
    // current_owner.values() (s moved to temp_b). Without `named_inits`
    // containing temp_a, the anon-temp pass would schedule a second
    // Free for it -> double-free. It must be classified.

    let mut pool = InternPool::new();
    let str_ty = pool.str_();
    let void = pool.void();
    let main = pool.intern_str("main");
    let s_name = pool.intern_str("s");
    let a = pool.intern_str("a");
    let b = pool.intern_str("b");
    let span = Span::new(0, 0);

    let mut tb = TirBuilder::new(main, vec![], void, span);
    let lit_a = tb.str_const(a, str_ty, span);
    let decl = tb.var_decl(s_name, true, str_ty, lit_a, span);
    let lit_b = tb.str_const(b, str_ty, span);
    let assign = tb.assign(s_name, str_ty, lit_b, span);
    let tir = tb.finish(&[decl, assign]);

    let mut sink = DiagSink::new();
    let mut sidecar = check(std::slice::from_ref(&tir), &pool, &mut sink);
    let sc = take_named(&mut sidecar, main).expect("sidecar");

    // temp_a (lit_a) is released via `free_on_reassign` (codegen lowers
    // its destructor at the Assign), so it must NOT also appear in
    // `free_schedule` — that would be a double-free. The anon-temp pass
    // skips it because it is a named init (the VarDecl initializer);
    // if that filter were missing the anon-temp pass would schedule a
    // second Free here. See I-060 and the sibling invariant in
    // `reassignment_records_free_on_old_owner`.
    let a_frees = sc
        .free_schedule
        .iter()
        .filter(|fp| fp.target == lit_a)
        .count();
    assert_eq!(
        a_frees, 0,
        "temp_a must not be in free_schedule (it's in free_on_reassign); got {sc:?}"
    );
    // Positive half: temp_a must actually be recorded in
    // free_on_reassign (mirrors `reassignment_records_free_on_old_owner`).
    // Without this the test would pass on a leak (temp_a never freed).
    assert_eq!(
        sc.free_on_reassign.get(&assign),
        Some(&lit_a),
        "temp_a must be freed once via free_on_reassign (not leaked); got {sc:?}",
    );
    // lit_b is never read, so it is a dead store and is freed exactly
    // once via the dead-store pass (anchored at the Assign).
    let b_frees = sc
        .free_schedule
        .iter()
        .filter(|fp| fp.target == lit_b)
        .count();
    assert_eq!(
        b_frees, 1,
        "temp_b freed exactly once via dead-store; got {sc:?}"
    );
    let _ = assign;
}

#[test]
fn ownership_rebind_then_read_no_double_free() {
    // s = "a"; print(s)  -> temp_a backed by s, last-use frees it once.
    let mut pool = InternPool::new();
    let str_ty = pool.str_();
    let void = pool.void();
    let main = pool.intern_str("main");
    let s = pool.intern_str("s");
    let a = pool.intern_str("a");
    let print = pool.intern_str("print");
    let span = Span::new(0, 0);
    let mut tb = TirBuilder::new(main, vec![], void, span);
    let lit = tb.str_const(a, str_ty, span);
    let decl = tb.var_decl(s, false, str_ty, lit, span);
    let v = tb.var(s, str_ty, span);
    let call = tb.call(print, &[v], &all_borrow(&[v]), void, span);
    let tir = tb.finish(&[decl, call]);
    let mut sink = DiagSink::new();
    let mut sc = check(std::slice::from_ref(&tir), &pool, &mut sink);
    let sc = take_named(&mut sc, main).unwrap();
    let lit_frees = sc
        .free_schedule
        .iter()
        .filter(|fp| fp.target == lit)
        .count();
    assert_eq!(
        lit_frees, 1,
        "backed temp freed exactly once via last-use; got {sc:?}"
    );
}

#[test]
fn ownership_rebind_in_loop_converges_no_spurious_free() {
    // s = "a"; while c: s = "a"   (rebind each iteration)
    //
    // The loop-body temp `body_lit` is a named init (the Assign's
    // value), so the anon-temp pass must SKIP it (I-060 static
    // classifier) and let the dead-store pass own its single Free.
    // The rejected dynamic `current_owner.values()` classifier would
    // NOT skip it: at the loop merge the entry-state owner (lit) wins
    // via first-write-wins, so body_lit drops out of
    // current_owner.values() and the anon-temp pass schedules a
    // spurious second Free -> double-free. Assert body_lit is
    // scheduled exactly once (static) rather than twice (dynamic).
    let mut pool = InternPool::new();
    let str_ty = pool.str_();
    let void = pool.void();
    let bool_ty = pool.bool_();
    let main = pool.intern_str("main");
    let s = pool.intern_str("s");
    let a = pool.intern_str("a");
    let c = pool.intern_str("c");
    let span = Span::new(0, 0);
    let mut tb = TirBuilder::new(main, vec![], void, span);
    let lit = tb.str_const(a, str_ty, span);
    let decl = tb.var_decl(s, true, str_ty, lit, span);
    let cond = tb.var(c, bool_ty, span);
    let body_lit = tb.str_const(a, str_ty, span);
    let body_assign = tb.assign(s, str_ty, body_lit, span);
    let lp = tb.while_loop(cond, &[body_assign], void, span);
    let tir = tb.finish(&[decl, lp]);
    let mut sink = DiagSink::new();
    let mut sc = check(std::slice::from_ref(&tir), &pool, &mut sink);
    let sc = take_named(&mut sc, main).unwrap();
    // body_lit must be scheduled exactly once (dead-store pass owns
    // it; anon-temp skips it as a named init). The dynamic
    // current_owner.values() classifier would schedule it twice
    // (anon-temp + dead-store) -> the double-free this test guards.
    let body_lit_frees = sc
        .free_schedule
        .iter()
        .filter(|fp| fp.target == body_lit)
        .count();
    assert_eq!(
        body_lit_frees, 1,
        "loop-rebound temp must be freed exactly once (static classifier skips it in anon-temp); got {sc:?}"
    );
    // lit (the decl init) is freed via free_on_reassign at the
    // loop-body Assign, so it must NOT also appear in free_schedule.
    let lit_frees = sc
        .free_schedule
        .iter()
        .filter(|fp| fp.target == lit)
        .count();
    assert_eq!(
        lit_frees, 0,
        "decl-init temp must not be in free_schedule (it's in free_on_reassign); got {sc:?}"
    );
    let _ = (body_assign, lp);
}

#[test]
fn ownership_double_consume_reports_uam_once_via_consume_authority() {
    // x = "v"; take(x); take(x)  -- the second take consumes an
    // already-moved binding. Pre-I-050 the Var arm emitted E0020;
    // post-I-050 the consume site (consume_underlying) is the authority
    // and must emit exactly once.
    let mut pool = InternPool::new();
    let str_ty = pool.str_();
    let void = pool.void();
    let main = pool.intern_str("main");
    let x = pool.intern_str("x");
    let take = pool.intern_str("take");
    let span = Span::new(0, 0);
    let mut tb = TirBuilder::new(main, vec![], void, span);
    let lit = tb.str_const(pool.intern_str("v"), str_ty, span);
    let decl = tb.var_decl(x, false, str_ty, lit, span);
    let xv1 = tb.var(x, str_ty, span);
    let take1 = tb.call(take, &[xv1], &[ParamMode::Move], void, span);
    let xv2 = tb.var(x, str_ty, span);
    let take2 = tb.call(take, &[xv2], &[ParamMode::Move], void, span);
    let tir = tb.finish(&[decl, take1, take2]);
    let mut sink = DiagSink::new();
    let _sc = check(std::slice::from_ref(&tir), &pool, &mut sink);
    let uam = sink
        .into_diags()
        .iter()
        .filter(|d| matches!(d.code, DiagCode::UseAfterMove))
        .count();
    assert_eq!(uam, 1, "double-consume reports UAM exactly once; got {uam}");
}

#[test]
fn ownership_borrow_of_moved_value_still_reports_uam() {
    // print(moved_x) — borrow of a moved value, no consume. After the
    // Var arm is demoted, the borrow-arg check_use_moved must still fire.
    let mut pool = InternPool::new();
    let str_ty = pool.str_();
    let void = pool.void();
    let main = pool.intern_str("main");
    let x = pool.intern_str("x");
    let take = pool.intern_str("take");
    let print = pool.intern_str("print");
    let span = Span::new(0, 0);
    let mut tb = TirBuilder::new(main, vec![], void, span);
    let lit = tb.str_const(pool.intern_str("v"), str_ty, span);
    let decl = tb.var_decl(x, false, str_ty, lit, span);
    let xv = tb.var(x, str_ty, span);
    let take_call = tb.call(take, &[xv], &[ParamMode::Move], void, span); // moves x
    let xv2 = tb.var(x, str_ty, span);
    let print_call = tb.call(print, &[xv2], &[ParamMode::Borrow], void, span); // borrow of moved
    let tir = tb.finish(&[decl, take_call, print_call]);
    let mut sink = DiagSink::new();
    let _sc = check(std::slice::from_ref(&tir), &pool, &mut sink);
    let diags = sink.into_diags();
    assert!(
        diags
            .iter()
            .any(|d| matches!(d.code, DiagCode::UseAfterMove)),
        "borrow of moved value must still report E0020 via borrow-arg path; got {diags:?}"
    );
}

#[test]
fn ownership_three_arm_if_with_conditional_move_and_loop_rebind() {
    let mut pool = InternPool::new();
    let str_ty = pool.str_();
    let bool_ty = pool.bool_();
    let void = pool.void();
    let main = pool.intern_str("main");
    let x = pool.intern_str("x");
    let s = pool.intern_str("s");
    let take = pool.intern_str("take");
    let print = pool.intern_str("print");
    let span = Span::new(0, 0);

    let mut tb = TirBuilder::new(main, vec![], void, span);
    let lit_v = tb.str_const(pool.intern_str("v"), str_ty, span);
    let decl_x = tb.var_decl(x, false, str_ty, lit_v, span);

    let lit_mut = tb.str_const(pool.intern_str("initial"), str_ty, span);
    let decl_mut = tb.var_decl(s, true, str_ty, lit_mut, span);

    let cond_then = tb.bool_const(true, bool_ty, span);
    let read_then = tb.var(x, str_ty, span);
    let call_then = tb.call(print, &[read_then], &[ParamMode::Borrow], void, span);

    let cond_elif = tb.bool_const(false, bool_ty, span);
    let read_elif = tb.var(x, str_ty, span);
    let call_elif = tb.call(take, &[read_elif], &[ParamMode::Move], void, span);

    let read_else = tb.var(x, str_ty, span);
    let call_else = tb.call(print, &[read_else], &[ParamMode::Borrow], void, span);

    let if_stmt = tb.if_stmt(
        cond_then,
        &[call_then],
        &[(cond_elif, vec![call_elif])],
        Some(&[call_else]),
        void,
        span,
    );

    let cond_w = tb.bool_const(false, bool_ty, span);
    let body_lit = tb.str_const(pool.intern_str("new_val"), str_ty, span);
    let body_assign = tb.assign(s, str_ty, body_lit, span);
    let wl = tb.while_loop(cond_w, &[body_assign], void, span);

    let read_post = tb.var(x, str_ty, span);
    let call_post = tb.call(print, &[read_post], &[ParamMode::Borrow], void, span);

    let tir = tb.finish(&[decl_x, decl_mut, if_stmt, wl, call_post]);

    let mut sink = DiagSink::new();
    let mut sidecar = check(std::slice::from_ref(&tir), &pool, &mut sink);
    let sidecar = take_named(&mut sidecar, main)
        .expect("per-function sidecar entry");

    // (a) Assert no next_branch_id collision in sidecar.if_branches
    let mut ids = HashSet::new();
    for k in 0..sidecar.if_branches.len() {
        let (_, ib) = sidecar.if_branches.entry(k);
        assert!(
            ids.insert(ib.then_branch.0),
            "duplicate branch id {}",
            ib.then_branch.0
        );
        for b in &ib.elif_branches {
            assert!(ids.insert(b.0), "duplicate branch id {}", b.0);
        }
        if let Some(b) = ib.else_branch {
            assert!(ids.insert(b.0), "duplicate branch id {}", b.0);
        }
    }

    // (b) Assert a post-if read of the conditionally-moved binding emits exactly one DiagCode::UseAfterMove
    let uam = sink
        .into_diags()
        .iter()
        .filter(|d| matches!(d.code, DiagCode::UseAfterMove))
        .count();
    assert_eq!(
        uam, 1,
        "post-if read of conditionally-moved binding must report UAM exactly once; got {uam}"
    );
}

#[test]
fn ownership_move_and_borrow_of_same_owner_in_one_call_e0023_both_orderings() {
    let mut pool = InternPool::new();
    let str_ty = pool.str_();
    let void = pool.void();
    let main = pool.intern_str("main");
    let x = pool.intern_str("x");
    let f = pool.intern_str("f");
    let span = Span::new(0, 0);

    fn build(
        tir: &mut TirBuilder,
        x: StringId,
        str_ty: TypeId,
        void: TypeId,
        f: StringId,
        first_move: bool,
        span: Span,
    ) -> (TirRef, TirRef, TirRef) {
        let xv1 = tir.var(x, str_ty, span);
        let xv2 = tir.var(x, str_ty, span);
        let modes = if first_move {
            vec![ParamMode::Move, ParamMode::Borrow]
        } else {
            vec![ParamMode::Borrow, ParamMode::Move]
        };
        let call = tir.call(f, &[xv1, xv2], &modes, void, span);
        (xv1, xv2, call)
    }

    // Ordering 1: Move first, then Borrow
    let mut tb1 = TirBuilder::new(main, vec![], void, span);
    let lit1 = tb1.str_const(pool.intern_str("v"), str_ty, span);
    let decl1 = tb1.var_decl(x, false, str_ty, lit1, span);
    let (_xv1, _xv2, call1) = build(&mut tb1, x, str_ty, void, f, true, span);
    let tir1 = tb1.finish(&[decl1, call1]);

    let mut sink1 = DiagSink::new();
    let _sc1 = check(std::slice::from_ref(&tir1), &pool, &mut sink1);
    let diags1 = sink1.into_diags();
    let e0023_count1 = diags1
        .iter()
        .filter(|d| matches!(d.code, DiagCode::MoveWhileBorrowedInCall))
        .count();
    assert_eq!(
        e0023_count1, 1,
        "Expected exactly one MoveWhileBorrowedInCall (E0031) in first-move ordering; got {diags1:?}"
    );

    // Ordering 2: Borrow first, then Move
    let mut tb2 = TirBuilder::new(main, vec![], void, span);
    let lit2 = tb2.str_const(pool.intern_str("v"), str_ty, span);
    let decl2 = tb2.var_decl(x, false, str_ty, lit2, span);
    let (_xv3, _xv4, call2) = build(&mut tb2, x, str_ty, void, f, false, span);
    let tir2 = tb2.finish(&[decl2, call2]);

    let mut sink2 = DiagSink::new();
    let _sc2 = check(std::slice::from_ref(&tir2), &pool, &mut sink2);
    let diags2 = sink2.into_diags();
    let e0023_count2 = diags2
        .iter()
        .filter(|d| matches!(d.code, DiagCode::MoveWhileBorrowedInCall))
        .count();
    assert_eq!(
        e0023_count2, 1,
        "Expected exactly one MoveWhileBorrowedInCall (E0031) in borrow-first ordering; got {diags2:?}"
    );
}

#[test]
fn ownership_two_borrows_of_one_owner_ok() {
    let mut pool = InternPool::new();
    let str_ty = pool.str_();
    let void = pool.void();
    let main = pool.intern_str("main");
    let x = pool.intern_str("x");
    let f = pool.intern_str("f");
    let span = Span::new(0, 0);
    let mut tb = TirBuilder::new(main, vec![], void, span);
    let lit = tb.str_const(pool.intern_str("v"), str_ty, span);
    let decl = tb.var_decl(x, false, str_ty, lit, span);
    let xv1 = tb.var(x, str_ty, span);
    let xv2 = tb.var(x, str_ty, span);
    let modes = vec![ParamMode::Borrow, ParamMode::Borrow];
    let call = tb.call(f, &[xv1, xv2], &modes, void, span);
    let tir = tb.finish(&[decl, call]);
    let mut sink = DiagSink::new();
    let _sc = check(std::slice::from_ref(&tir), &pool, &mut sink);
    let diags = sink.into_diags();
    assert!(
        !diags
            .iter()
            .any(|d| matches!(d.code, DiagCode::MoveWhileBorrowedInCall)),
        "two borrows of one owner is fine (Rule 7 many readers); got {diags:?}"
    );
}

#[test]
fn ownership_borrow_and_move_of_distinct_owners_ok() {
    let mut pool = InternPool::new();
    let str_ty = pool.str_();
    let void = pool.void();
    let main = pool.intern_str("main");
    let a = pool.intern_str("a");
    let b = pool.intern_str("b");
    let f = pool.intern_str("f");
    let span = Span::new(0, 0);
    let mut tb = TirBuilder::new(main, vec![], void, span);
    let la = tb.str_const(pool.intern_str("va"), str_ty, span);
    let lb = tb.str_const(pool.intern_str("vb"), str_ty, span);
    let da = tb.var_decl(a, false, str_ty, la, span);
    let db = tb.var_decl(b, false, str_ty, lb, span);
    let av = tb.var(a, str_ty, span);
    let bv = tb.var(b, str_ty, span);
    let modes = vec![ParamMode::Borrow, ParamMode::Move];
    let call = tb.call(f, &[av, bv], &modes, void, span);
    let tir = tb.finish(&[da, db, call]);
    let mut sink = DiagSink::new();
    let _sc = check(std::slice::from_ref(&tir), &pool, &mut sink);
    assert!(
        !sink
            .into_diags()
            .iter()
            .any(|d| matches!(d.code, DiagCode::MoveWhileBorrowedInCall)),
        "borrow + move of DISTINCT owners is fine"
    );
}

#[test]
fn ownership_single_move_arg_no_e0023() {
    let mut pool = InternPool::new();
    let str_ty = pool.str_();
    let void = pool.void();
    let main = pool.intern_str("main");
    let x = pool.intern_str("x");
    let f = pool.intern_str("f");
    let span = Span::new(0, 0);
    let mut tb = TirBuilder::new(main, vec![], void, span);
    let lit = tb.str_const(pool.intern_str("v"), str_ty, span);
    let decl = tb.var_decl(x, false, str_ty, lit, span);
    let xv = tb.var(x, str_ty, span);
    let call = tb.call(f, &[xv], &[ParamMode::Move], void, span);
    let tir = tb.finish(&[decl, call]);
    let mut sink = DiagSink::new();
    let _sc = check(std::slice::from_ref(&tir), &pool, &mut sink);
    assert!(
        !sink
            .into_diags()
            .iter()
            .any(|d| matches!(d.code, DiagCode::MoveWhileBorrowedInCall)),
        "a single move arg must not trip E0031"
    );
}

#[test]
fn ownership_copy_args_untracked_no_false_positive() {
    let mut pool = InternPool::new();
    let str_ty = pool.str_();
    let int_ty = pool.int_();
    let void = pool.void();
    let main = pool.intern_str("main");
    let n = pool.intern_str("n");
    let x = pool.intern_str("x");
    let f = pool.intern_str("f");
    let span = Span::new(0, 0);
    let mut tb = TirBuilder::new(main, vec![], void, span);
    let ic = tb.int_const(1, int_ty, span);
    let dn = tb.var_decl(n, false, int_ty, ic, span);
    let lit = tb.str_const(pool.intern_str("v"), str_ty, span);
    let dx = tb.var_decl(x, false, str_ty, lit, span);
    let nv = tb.var(n, int_ty, span);
    let xv = tb.var(x, str_ty, span);
    let modes = vec![ParamMode::Borrow, ParamMode::Move];
    let call = tb.call(f, &[nv, xv], &modes, void, span);
    let tir = tb.finish(&[dn, dx, call]);
    let mut sink = DiagSink::new();
    let _sc = check(std::slice::from_ref(&tir), &pool, &mut sink);
    assert!(
        !sink
            .into_diags()
            .iter()
            .any(|d| matches!(d.code, DiagCode::MoveWhileBorrowedInCall)),
        "untracked int arg must not trigger a false E0031"
    );
}

#[test]
fn ownership_borrow_and_move_in_sequential_statements_ok() {
    let mut pool = InternPool::new();
    let str_ty = pool.str_();
    let void = pool.void();
    let main = pool.intern_str("main");
    let x = pool.intern_str("x");
    let f = pool.intern_str("f");
    let span = Span::new(0, 0);
    let mut tb = TirBuilder::new(main, vec![], void, span);
    let lit = tb.str_const(pool.intern_str("v"), str_ty, span);
    let decl = tb.var_decl(x, false, str_ty, lit, span);
    // first statement: f(borrow x)
    let xv1 = tb.var(x, str_ty, span);
    let call1 = tb.call(f, &[xv1], &[ParamMode::Borrow], void, span);
    // second statement: f(move x)
    let xv2 = tb.var(x, str_ty, span);
    let call2 = tb.call(f, &[xv2], &[ParamMode::Move], void, span);
    let tir = tb.finish(&[decl, call1, call2]);
    let mut sink = DiagSink::new();
    let _sc = check(std::slice::from_ref(&tir), &pool, &mut sink);
    assert!(
        !sink
            .into_diags()
            .iter()
            .any(|d| matches!(d.code, DiagCode::MoveWhileBorrowedInCall)),
        "borrow and move in sequential statements must not trigger E0031"
    );
}

#[test]
fn ownership_inout_same_owner_twice_rejected() {
    // swap(&c, &c) — two mutable borrows of one int owner in the same
    // call (Rule 7 case 1). The int args never enter the lattice, so
    // this exercises the name-based inout owner resolution.
    let mut pool = InternPool::new();
    let int_ty = pool.int_();
    let void = pool.void();
    let main = pool.intern_str("main");
    let c = pool.intern_str("c");
    let swap = pool.intern_str("swap");
    let span = Span::new(0, 0);
    let mut tb = TirBuilder::new(main, vec![], void, span);
    let ic = tb.int_const(1, int_ty, span);
    let decl = tb.var_decl(c, false, int_ty, ic, span);
    let cv1 = tb.var(c, int_ty, span);
    let cv2 = tb.var(c, int_ty, span);
    let call = tb.call(
        swap,
        &[cv1, cv2],
        &[ParamMode::Inout, ParamMode::Inout],
        void,
        span,
    );
    let tir = tb.finish(&[decl, call]);
    let mut sink = DiagSink::new();
    let _sc = check(std::slice::from_ref(&tir), &pool, &mut sink);
    let diags = sink.into_diags();
    let e0032_count = diags
        .iter()
        .filter(|d| matches!(d.code, DiagCode::MutableAliasingViolation))
        .count();
    assert_eq!(
        e0032_count, 1,
        "Expected exactly one MutableAliasingViolation (E0032) for swap(&c, &c); got {diags:?}"
    );
}

#[test]
fn ownership_inout_and_borrow_same_owner_rejected() {
    // f(&c, c) — mutable borrow plus immutable borrow of one int owner
    // in the same call (Rule 7 case 2).
    let mut pool = InternPool::new();
    let int_ty = pool.int_();
    let void = pool.void();
    let main = pool.intern_str("main");
    let c = pool.intern_str("c");
    let f = pool.intern_str("f");
    let span = Span::new(0, 0);
    let mut tb = TirBuilder::new(main, vec![], void, span);
    let ic = tb.int_const(1, int_ty, span);
    let decl = tb.var_decl(c, false, int_ty, ic, span);
    let cv1 = tb.var(c, int_ty, span);
    let cv2 = tb.var(c, int_ty, span);
    let call = tb.call(
        f,
        &[cv1, cv2],
        &[ParamMode::Inout, ParamMode::Borrow],
        void,
        span,
    );
    let tir = tb.finish(&[decl, call]);
    let mut sink = DiagSink::new();
    let _sc = check(std::slice::from_ref(&tir), &pool, &mut sink);
    let diags = sink.into_diags();
    let e0032_count = diags
        .iter()
        .filter(|d| matches!(d.code, DiagCode::MutableAliasingViolation))
        .count();
    assert_eq!(
        e0032_count, 1,
        "Expected exactly one MutableAliasingViolation (E0032) for f(&c, c); got {diags:?}"
    );
}

#[test]
fn ownership_inout_and_move_same_owner_rejected() {
    // f(&x, move x) — mutable borrow plus move of one str owner in the
    // same call (Rule 7 case 3). The tracked str args exercise the
    // lattice-backed path of the overlap check.
    let mut pool = InternPool::new();
    let str_ty = pool.str_();
    let void = pool.void();
    let main = pool.intern_str("main");
    let x = pool.intern_str("x");
    let f = pool.intern_str("f");
    let span = Span::new(0, 0);
    let mut tb = TirBuilder::new(main, vec![], void, span);
    let lit = tb.str_const(pool.intern_str("v"), str_ty, span);
    let decl = tb.var_decl(x, false, str_ty, lit, span);
    let xv1 = tb.var(x, str_ty, span);
    let xv2 = tb.var(x, str_ty, span);
    let call = tb.call(
        f,
        &[xv1, xv2],
        &[ParamMode::Inout, ParamMode::Move],
        void,
        span,
    );
    let tir = tb.finish(&[decl, call]);
    let mut sink = DiagSink::new();
    let _sc = check(std::slice::from_ref(&tir), &pool, &mut sink);
    let diags = sink.into_diags();
    let e0032_count = diags
        .iter()
        .filter(|d| matches!(d.code, DiagCode::MutableAliasingViolation))
        .count();
    assert_eq!(
        e0032_count, 1,
        "Expected exactly one MutableAliasingViolation (E0032) for f(&x, move x); got {diags:?}"
    );
}

#[test]
fn ownership_inout_distinct_owners_ok() {
    // swap(&a, &b) — mutable borrows of DISTINCT int owners: no E0032.
    let mut pool = InternPool::new();
    let int_ty = pool.int_();
    let void = pool.void();
    let main = pool.intern_str("main");
    let a = pool.intern_str("a");
    let b = pool.intern_str("b");
    let swap = pool.intern_str("swap");
    let span = Span::new(0, 0);
    let mut tb = TirBuilder::new(main, vec![], void, span);
    let ia = tb.int_const(1, int_ty, span);
    let ib = tb.int_const(2, int_ty, span);
    let da = tb.var_decl(a, false, int_ty, ia, span);
    let db = tb.var_decl(b, false, int_ty, ib, span);
    let av = tb.var(a, int_ty, span);
    let bv = tb.var(b, int_ty, span);
    let call = tb.call(
        swap,
        &[av, bv],
        &[ParamMode::Inout, ParamMode::Inout],
        void,
        span,
    );
    let tir = tb.finish(&[da, db, call]);
    let mut sink = DiagSink::new();
    let _sc = check(std::slice::from_ref(&tir), &pool, &mut sink);
    let diags = sink.into_diags();
    assert!(
        !diags
            .iter()
            .any(|d| matches!(d.code, DiagCode::MutableAliasingViolation)),
        "mutable borrows of DISTINCT owners are fine (Rule 7); got {diags:?}"
    );
}

#[test]
fn ownership_two_immutable_borrows_ok() {
    // f(c, c) — two immutable borrows of one int owner: no E0032
    // (Rule 7 many readers). Guards the untracked-Borrow recording
    // against false positives.
    let mut pool = InternPool::new();
    let int_ty = pool.int_();
    let void = pool.void();
    let main = pool.intern_str("main");
    let c = pool.intern_str("c");
    let f = pool.intern_str("f");
    let span = Span::new(0, 0);
    let mut tb = TirBuilder::new(main, vec![], void, span);
    let ic = tb.int_const(1, int_ty, span);
    let decl = tb.var_decl(c, false, int_ty, ic, span);
    let cv1 = tb.var(c, int_ty, span);
    let cv2 = tb.var(c, int_ty, span);
    let call = tb.call(
        f,
        &[cv1, cv2],
        &[ParamMode::Borrow, ParamMode::Borrow],
        void,
        span,
    );
    let tir = tb.finish(&[decl, call]);
    let mut sink = DiagSink::new();
    let _sc = check(std::slice::from_ref(&tir), &pool, &mut sink);
    let diags = sink.into_diags();
    assert!(
        !diags
            .iter()
            .any(|d| matches!(d.code, DiagCode::MutableAliasingViolation)),
        "two immutable borrows of one owner are fine (Rule 7 many readers); got {diags:?}"
    );
}

#[test]
fn ownership_inout_str_param_reassign_escapes_no_dead_store_no_free() {
    // I-112 callee side: `fn set(inout s: str): s = "new"`. The
    // replacement value escapes through the write-back pointer, so the
    // pass must NOT emit W0001 or free the new value; the OLD pointee
    // (the incoming buffer) must be dropped at the reassign.
    let mut pool = InternPool::new();
    let str_ty = pool.str_();
    let void = pool.void();
    let set = pool.intern_str("set");
    let s = pool.intern_str("s");
    let span = Span::new(0, 0);
    let mut tb = TirBuilder::new(
        set,
        vec![TirParam {
            name: s,
            ty: str_ty,
            mode: ParamMode::Inout,
            span,
        }],
        void,
        span,
    );
    let lit = tb.str_const(pool.intern_str("new"), str_ty, span);
    let asg = tb.assign(s, str_ty, lit, span);
    let tir = tb.finish(&[asg]);
    let mut sink = DiagSink::new();
    let mut sidecar = check(std::slice::from_ref(&tir), &pool, &mut sink);
    let diags = sink.into_diags();
    assert!(
        !diags.iter().any(|d| matches!(d.code, DiagCode::DeadStore)),
        "inout param reassignment must not warn dead-store — the value escapes via write-back; got {diags:?}"
    );
    let sc = take_named(&mut sidecar, set).expect("sidecar");
    assert_eq!(
        sc.free_on_reassign.get(&asg),
        Some(&TirRef::param(0)),
        "reassigning an inout str param must drop the incoming buffer at the reassign; free_on_reassign = {:?}",
        sc.free_on_reassign
    );
    assert!(
        !sc.free_schedule.iter().any(|fp| fp.target == lit),
        "the reassigned value escapes to the caller — no Free may target it; schedule = {:?}",
        sc.free_schedule
    );
}

#[test]
fn ownership_inout_str_param_reassign_inside_if_escapes() {
    // I-112: `fn g(inout s: str): if c: s = "b"`. The rebind is
    // branch-divergent — the merge keeps `Param(s)` as the binding's
    // owner and can stamp it Valid — but the bound value still
    // escapes via the write-back: no W0001, no Free for the rebound
    // value or the param, while the taken arm still drops the
    // incoming buffer.
    let mut pool = InternPool::new();
    let str_ty = pool.str_();
    let bool_ty = pool.bool_();
    let void = pool.void();
    let g = pool.intern_str("g");
    let s = pool.intern_str("s");
    let span = Span::new(0, 0);
    let mut tb = TirBuilder::new(
        g,
        vec![TirParam {
            name: s,
            ty: str_ty,
            mode: ParamMode::Inout,
            span,
        }],
        void,
        span,
    );
    let cond = tb.bool_const(true, bool_ty, span);
    let lit = tb.str_const(pool.intern_str("b"), str_ty, span);
    let asg = tb.assign(s, str_ty, lit, span);
    let if_s = tb.if_stmt(cond, &[asg], &[], None, void, span);
    let tir = tb.finish(&[if_s]);
    let mut sink = DiagSink::new();
    let mut sidecar = check(std::slice::from_ref(&tir), &pool, &mut sink);
    let diags = sink.into_diags();
    assert!(
        !diags.iter().any(|d| matches!(d.code, DiagCode::DeadStore)),
        "inout param reassignment escapes — no dead-store warning, even branch-divergent; got {diags:?}"
    );
    let sc = take_named(&mut sidecar, g).expect("sidecar");
    assert!(
        sc.free_on_reassign.contains_key(&asg),
        "the taken arm must drop the incoming buffer; free_on_reassign = {:?}",
        sc.free_on_reassign
    );
    assert!(
        !sc.free_schedule.iter().any(|fp| fp.target == lit),
        "the rebound value escapes to the caller — no Free may target it; schedule = {:?}",
        sc.free_schedule
    );
    assert!(
        !sc.free_schedule
            .iter()
            .any(|fp| fp.target == TirRef::param(0)),
        "the inout param's value escapes — no callee Free for the param owner; schedule = {:?}",
        sc.free_schedule
    );
}

#[test]
fn ownership_inout_str_param_move_out_after_reassign_rejected() {
    // I-112: the value bound to an inout str param escapes via the
    // write-back, so moving it out (even after a reassign made it a
    // fresh, Valid owner) must still be an error.
    let mut pool = InternPool::new();
    let str_ty = pool.str_();
    let void = pool.void();
    let f = pool.intern_str("f");
    let g = pool.intern_str("g");
    let s = pool.intern_str("s");
    let span = Span::new(0, 0);
    let mut tb = TirBuilder::new(
        f,
        vec![TirParam {
            name: s,
            ty: str_ty,
            mode: ParamMode::Inout,
            span,
        }],
        void,
        span,
    );
    let lit = tb.str_const(pool.intern_str("new"), str_ty, span);
    let asg = tb.assign(s, str_ty, lit, span);
    let sv = tb.var(s, str_ty, span);
    let call = tb.call(g, &[sv], &[ParamMode::Move], void, span);
    let tir = tb.finish(&[asg, call]);
    let mut sink = DiagSink::new();
    let _sc = check(std::slice::from_ref(&tir), &pool, &mut sink);
    let diags = sink.into_diags();
    assert!(
        diags
            .iter()
            .any(|d| matches!(d.code, DiagCode::MoveOutOfBorrowedParam)),
        "moving out of an inout param after reassign must be E0021; got {diags:?}"
    );
}

#[test]
fn ownership_inout_str_param_return_after_reassign_rejected() {
    // I-112: returning the value currently bound to an inout str param
    // double-owns it (it also escapes via the write-back) — E0022.
    let mut pool = InternPool::new();
    let str_ty = pool.str_();
    let void = pool.void();
    let f = pool.intern_str("f");
    let s = pool.intern_str("s");
    let span = Span::new(0, 0);
    let mut tb = TirBuilder::new(
        f,
        vec![TirParam {
            name: s,
            ty: str_ty,
            mode: ParamMode::Inout,
            span,
        }],
        str_ty,
        span,
    );
    let lit = tb.str_const(pool.intern_str("new"), str_ty, span);
    let asg = tb.assign(s, str_ty, lit, span);
    let sv = tb.var(s, str_ty, span);
    let ret = tb.push_typed(TirTag::Return, TirData::UnOp(sv), str_ty, span);
    let _ = void;
    let tir = tb.finish(&[asg, ret]);
    let mut sink = DiagSink::new();
    let _sc = check(std::slice::from_ref(&tir), &pool, &mut sink);
    let diags = sink.into_diags();
    assert!(
        diags
            .iter()
            .any(|d| matches!(d.code, DiagCode::ReturnBorrowedValue)),
        "returning an inout param's bound value must be E0022; got {diags:?}"
    );
}

#[test]
fn ownership_inout_call_keeps_owner_and_frees_current_buffer() {
    // I-112 caller side: `mut s = "hi"; set(&s); print(s)`. An inout
    // call is a pure borrow of the slot: the binding KEEPS its
    // pre-call owner (no reseat, no Moved, no dead-store churn), and
    // the freshness of the freed buffer is codegen's job — it emits
    // the Free from the binding's current `StrLocals` (which hold the
    // write-back triple after the reload), never the stale pre-call
    // repr. Assert the lattice invariants: owner unchanged, exactly
    // one Free for it, no diagnostics.
    let mut pool = InternPool::new();
    let str_ty = pool.str_();
    let void = pool.void();
    let main = pool.intern_str("main");
    let s = pool.intern_str("s");
    let set = pool.intern_str("set");
    let print = pool.intern_str("print");
    let span = Span::new(0, 0);
    let mut tb = TirBuilder::new(main, vec![], void, span);
    let lit = tb.str_const(pool.intern_str("hi"), str_ty, span);
    let decl = tb.var_decl(s, false, str_ty, lit, span);
    let sv1 = tb.var(s, str_ty, span);
    let call = tb.call(set, &[sv1], &[ParamMode::Inout], void, span);
    let sv2 = tb.var(s, str_ty, span);
    let pr = tb.call(print, &[sv2], &[ParamMode::Borrow], void, span);
    let tir = tb.finish(&[decl, call, pr]);
    let mut sink = DiagSink::new();
    let mut sidecar = check(std::slice::from_ref(&tir), &pool, &mut sink);
    let diags = sink.into_diags();
    assert!(
        diags.is_empty(),
        "inout call on a str local must produce no diagnostics; got {diags:?}"
    );
    let sc = take_named(&mut sidecar, main).expect("sidecar");
    let frees: Vec<_> = sc
        .free_schedule
        .iter()
        .filter(|fp| fp.target == lit)
        .collect();
    assert_eq!(
        frees.len(),
        1,
        "exactly one Free for the binding's owner; codegen emits it from the current StrLocals; schedule = {:?}",
        sc.free_schedule
    );
}

#[test]
fn ownership_inout_call_inside_if_no_false_dead_store() {
    // I-112 follow-up: `mut s = "a"; if c: set(&s); print(s)` — the
    // reseat happens inside the if-arm; the post-if read must clear
    // the dead-store entry across the branch merge.
    let mut pool = InternPool::new();
    let str_ty = pool.str_();
    let bool_ty = pool.bool_();
    let void = pool.void();
    let main = pool.intern_str("main");
    let s = pool.intern_str("s");
    let set = pool.intern_str("set");
    let print = pool.intern_str("print");
    let span = Span::new(0, 0);
    let mut tb = TirBuilder::new(main, vec![], void, span);
    let lit = tb.str_const(pool.intern_str("a"), str_ty, span);
    let decl = tb.var_decl(s, false, str_ty, lit, span);
    let cond = tb.bool_const(true, bool_ty, span);
    let sv1 = tb.var(s, str_ty, span);
    let call = tb.call(set, &[sv1], &[ParamMode::Inout], void, span);
    let if_s = tb.if_stmt(cond, &[call], &[], None, void, span);
    let sv2 = tb.var(s, str_ty, span);
    let pr = tb.call(print, &[sv2], &[ParamMode::Borrow], void, span);
    let tir = tb.finish(&[decl, if_s, pr]);
    let mut sink = DiagSink::new();
    let _sc = check(std::slice::from_ref(&tir), &pool, &mut sink);
    let diags = sink.into_diags();
    assert!(
        !diags.iter().any(|d| matches!(d.code, DiagCode::DeadStore)),
        "s is read after the if — no dead-store warning may survive the merge; got {diags:?}"
    );
}

#[test]
fn ownership_inout_call_inside_loop_no_false_dead_store() {
    // I-112 follow-up: `mut s = ""; while i < 3: str_push(&s, "x") ...
    // print(s)` — same merge concern through the loop fixed point.
    let mut pool = InternPool::new();
    let str_ty = pool.str_();
    let bool_ty = pool.bool_();
    let void = pool.void();
    let main = pool.intern_str("main");
    let s = pool.intern_str("s");
    let set = pool.intern_str("set");
    let print = pool.intern_str("print");
    let span = Span::new(0, 0);
    let mut tb = TirBuilder::new(main, vec![], void, span);
    let lit = tb.str_const(pool.intern_str(""), str_ty, span);
    let decl = tb.var_decl(s, false, str_ty, lit, span);
    let cond = tb.bool_const(true, bool_ty, span);
    let sv1 = tb.var(s, str_ty, span);
    let call = tb.call(set, &[sv1], &[ParamMode::Inout], void, span);
    let wl = tb.while_loop(cond, &[call], void, span);
    let sv2 = tb.var(s, str_ty, span);
    let pr = tb.call(print, &[sv2], &[ParamMode::Borrow], void, span);
    let tir = tb.finish(&[decl, wl, pr]);
    let mut sink = DiagSink::new();
    let mut sidecar = check(std::slice::from_ref(&tir), &pool, &mut sink);
    let diags = sink.into_diags();
    assert!(
        !diags.iter().any(|d| matches!(d.code, DiagCode::DeadStore)),
        "s is read after the loop — no dead-store warning may survive the loop merge; got {diags:?}"
    );
    let sc = take_named(&mut sidecar, main).expect("sidecar");
    assert_eq!(
        sc.free_schedule
            .iter()
            .filter(|fp| fp.target == lit)
            .count(),
        1,
        "exactly one Free for the binding's owner after the loop; schedule = {:?}",
        sc.free_schedule
    );
}

#[test]
fn ownership_reassign_inside_if_still_frees_binding_at_last_use() {
    // Pre-existing M8.1 bug exposed by I-112: `mut s = "a"; if c:
    // s = "b"; print(s)`. The merge keeps the pre-branch owner, so the
    // reassign-target guard must not skip its last-use Free — on the
    // not-taken path the binding still owns `lit_a`. Codegen emits the
    // Free from the binding's current StrLocals (path-correct buffer).
    let mut pool = InternPool::new();
    let str_ty = pool.str_();
    let bool_ty = pool.bool_();
    let void = pool.void();
    let main = pool.intern_str("main");
    let s = pool.intern_str("s");
    let print = pool.intern_str("print");
    let span = Span::new(0, 0);
    let mut tb = TirBuilder::new(main, vec![], void, span);
    let lit_a = tb.str_const(pool.intern_str("a"), str_ty, span);
    let decl = tb.var_decl(s, false, str_ty, lit_a, span);
    let cond = tb.bool_const(true, bool_ty, span);
    let lit_b = tb.str_const(pool.intern_str("b"), str_ty, span);
    let asg = tb.assign(s, str_ty, lit_b, span);
    let if_s = tb.if_stmt(cond, &[asg], &[], None, void, span);
    let sv = tb.var(s, str_ty, span);
    let pr = tb.call(print, &[sv], &[ParamMode::Borrow], void, span);
    let tir = tb.finish(&[decl, if_s, pr]);
    let mut sink = DiagSink::new();
    let mut sidecar = check(std::slice::from_ref(&tir), &pool, &mut sink);
    let diags = sink.into_diags();
    assert!(
        !diags.iter().any(|d| matches!(d.code, DiagCode::DeadStore)),
        "s is read after the if — no dead-store warning; got {diags:?}"
    );
    let sc = take_named(&mut sidecar, main).expect("sidecar");
    assert!(
        sc.free_on_reassign.contains_key(&asg),
        "the taken arm must drop the pre-reassign buffer; free_on_reassign = {:?}",
        sc.free_on_reassign
    );
    assert_eq!(
        sc.free_schedule
            .iter()
            .filter(|fp| fp.target == lit_a)
            .count(),
        1,
        "the binding's owner must still get its last-use Free (covers the not-taken path); schedule = {:?}",
        sc.free_schedule
    );
    assert!(
        !sc.free_schedule.iter().any(|fp| fp.target == lit_b),
        "lit_b's buffer is freed through the binding's current StrLocals (same buffer as lit_a's Free on the taken path) — a second Free would double-free; schedule = {:?}",
        sc.free_schedule
    );
}
