use ryo_frontend::ast::{
    Ast, BinaryOperator, CompoundOp, ElifBranch, FunctionDef, Ident, IfNode, Literal, NodeKind, NodeRef, Param,
    TypeExpr, UnaryOperator,
};
use ryo_frontend::astgen::generate;
use ryo_frontend::diag::{Diag, DiagCode, DiagSink};
use ryo_frontend::tir::ParamMode;
use ryo_frontend::types::{InternPool, Span};
use ryo_frontend::uir::{FuncBody, InstData, InstRef, InstTag, Uir};

fn sp() -> Span {
    Span::new(0, 0)
}

/// Builds the syntax tree the parser produces for a test program.
struct Prog {
    ast: Ast,
    pool: InternPool,
}

impl Prog {
    fn new() -> Prog {
        Prog { ast: Ast::new(), pool: InternPool::new() }
    }
    fn id(&mut self, name: &str) -> Ident {
        Ident { name: self.pool.intern_str(name), span: sp() }
    }
    fn node(&mut self, kind: NodeKind) -> NodeRef {
        self.ast.push(kind, sp())
    }
    fn int_lit(&mut self, v: i64) -> NodeRef {
        self.node(NodeKind::Literal(Literal::Int(v)))
    }
    fn float(&mut self, v: f64) -> NodeRef {
        self.node(NodeKind::Literal(Literal::Float(v.to_bits())))
    }
    fn boolean(&mut self, v: bool) -> NodeRef {
        self.node(NodeKind::Literal(Literal::Bool(v)))
    }
    fn string(&mut self, s: &str) -> NodeRef {
        let id = self.pool.intern_str(s);
        self.node(NodeKind::Literal(Literal::Str(id)))
    }
    fn name(&mut self, s: &str) -> NodeRef {
        let id = self.pool.intern_str(s);
        self.node(NodeKind::Ident(id))
    }
    fn bin(&mut self, op: BinaryOperator, lhs: NodeRef, rhs: NodeRef) -> NodeRef {
        self.node(NodeKind::BinaryOp { op, lhs, rhs })
    }
    fn un(&mut self, op: UnaryOperator, operand: NodeRef) -> NodeRef {
        self.node(NodeKind::UnaryOp { op, operand })
    }
    fn call(&mut self, name: &str, args: Vec<NodeRef>) -> NodeRef {
        let id = self.pool.intern_str(name);
        self.node(NodeKind::Call { name: id, args })
    }
    fn decl(&mut self, name: &str, mutable: bool, ann: Option<(&str, bool)>, init: NodeRef) -> NodeRef {
        let name = self.id(name);
        let type_annotation = ann.map(|(t, v)| TypeExpr { name: self.pool.intern_str(t), is_view: v, span: sp() });
        self.node(NodeKind::VarDecl { name, mutable, type_annotation, initializer: init })
    }
    fn assign(&mut self, name: &str, value: NodeRef) -> NodeRef {
        let target = self.id(name);
        self.node(NodeKind::AssignOrDecl { target, value })
    }
    fn expr_stmt(&mut self, e: NodeRef) -> NodeRef {
        self.node(NodeKind::ExprStmt(e))
    }
    fn ret(&mut self, e: Option<NodeRef>) -> NodeRef {
        self.node(NodeKind::Return(e))
    }
    fn func(&mut self, name: &str, params: &[(&str, &str, bool)], ret: Option<&str>, body: Vec<NodeRef>) -> NodeRef {
        let name = self.id(name);
        let params = params
            .iter()
            .map(|(n, t, v)| Param {
                name: self.id(n),
                type_annotation: TypeExpr { name: self.pool.intern_str(t), is_view: *v, span: sp() },
                mode: ParamMode::Borrow,
                span: sp(),
            })
            .collect();
        let return_type = ret.map(|t| TypeExpr { name: self.pool.intern_str(t), is_view: false, span: sp() });
        self.node(NodeKind::FunctionDef(FunctionDef { name, params, return_type, body }))
    }
    fn top(&mut self, r: NodeRef) {
        self.ast.push_top_level(r);
    }
    /// Lower the program; `Err` with the diagnostics when any is an error.
    fn lower(mut self) -> Result<(Uir, InternPool), Vec<Diag>> {
        let mut sink = DiagSink::new();
        let uir = generate(&self.ast, &mut self.pool, &mut sink);
        if sink.has_errors() {
            Err(sink.into_diags())
        } else {
            Ok((uir, self.pool))
        }
    }
}

fn body_named<'a>(uir: &'a Uir, pool: &InternPool, name: &str) -> &'a FuncBody {
    let id = pool.find_str(name).expect("name should be interned");
    uir.func_bodies.iter().find(|f| f.name == id).unwrap_or_else(|| panic!("no function named {:?}", name))
}

fn stmt_at(uir: &Uir, body: &FuncBody, i: usize) -> InstRef {
    uir.body_stmts(body)[i]
}

/// `x = <e>` at top level.
fn top_decl(p: &mut Prog, name: &str, e: NodeRef) {
    let d = p.decl(name, false, None, e);
    p.top(d);
}

#[test]
fn lower_float_literal() {
    // x = 1.5
    let mut p = Prog::new();
    let v = p.float(1.5);
    top_decl(&mut p, "x", v);
    let (uir, pool) = p.lower().unwrap();
    let main = body_named(&uir, &pool, "main");
    let stmts = uir.body_stmts(main);
    let v = uir.var_decl_view(stmts[0]).unwrap();
    assert!(matches!(uir.inst(v.initializer).tag, InstTag::FloatLiteral));
}

#[test]
fn astgen_lowers_borrow() {
    // fn main():
    //     mut c = 0
    //     f(&c)
    let mut p = Prog::new();
    let zero = p.int_lit(0);
    let decl = p.decl("c", true, None, zero);
    let c = p.name("c");
    let b = p.node(NodeKind::Borrow(c));
    let call = p.call("f", vec![b]);
    let es = p.expr_stmt(call);
    let f = p.func("main", &[], None, vec![decl, es]);
    p.top(f);
    let (uir, pool) = p.lower().unwrap();
    let main = body_named(&uir, &pool, "main");
    let stmts = uir.body_stmts(main);
    let expr_stmt = uir.inst(stmts[1]);
    let call_ref = match expr_stmt.data {
        InstData::UnOp(o) => o,
        _ => panic!("expected ExprStmt to carry UnOp"),
    };
    let view = uir.call_view(call_ref).unwrap();
    assert_eq!(view.args.len(), 1);
    let arg = view.args[0];
    assert!(matches!(uir.inst(arg).tag, InstTag::Borrow), "call arg should lower to a Borrow inst");
    let inner = match uir.inst(arg).data {
        InstData::Borrow(i) => i,
        _ => panic!("expected Borrow data"),
    };
    assert!(matches!(uir.inst(inner).tag, InstTag::Var), "borrow operand should be a Var read");
}

#[test]
fn lower_float_type_annotation() {
    // x: float = 1.5
    let mut p = Prog::new();
    let v = p.float(1.5);
    let d = p.decl("x", false, Some(("float", false)), v);
    p.top(d);
    let (uir, pool) = p.lower().expect("`: float` annotation should resolve without diagnostics");
    let main = body_named(&uir, &pool, "main");
    let v = uir.var_decl_view(uir.body_stmts(main)[0]).unwrap();
    assert_eq!(v.ty, Some(pool.float()), "`: float` annotation must resolve to pool.float()");
}

#[test]
fn lower_ordering_and_modulo_ops() {
    // x = 1 < 2
    // y = 1 % 2
    let mut p = Prog::new();
    let (a, b) = (p.int_lit(1), p.int_lit(2));
    let lt = p.bin(BinaryOperator::Lt, a, b);
    top_decl(&mut p, "x", lt);
    let (a, b) = (p.int_lit(1), p.int_lit(2));
    let m = p.bin(BinaryOperator::Mod, a, b);
    top_decl(&mut p, "y", m);
    let (uir, pool) = p.lower().unwrap();
    let main = body_named(&uir, &pool, "main");
    let stmts = uir.body_stmts(main);
    let lt = uir.var_decl_view(stmts[0]).unwrap();
    assert!(matches!(uir.inst(lt.initializer).tag, InstTag::Lt));
    let m = uir.var_decl_view(stmts[1]).unwrap();
    assert!(matches!(uir.inst(m.initializer).tag, InstTag::Mod));
}

#[test]
fn astgen_produces_no_types() {
    // x = 2 + 3 * 4
    // y = x
    let mut p = Prog::new();
    let (two, three, four) = (p.int_lit(2), p.int_lit(3), p.int_lit(4));
    let mul = p.bin(BinaryOperator::Mul, three, four);
    let add = p.bin(BinaryOperator::Add, two, mul);
    top_decl(&mut p, "x", add);
    let x = p.name("x");
    top_decl(&mut p, "y", x);
    let (uir, _) = p.lower().unwrap();
    for inst in uir.instructions.iter().skip(1) {
        let _ = inst.tag;
    }
}

#[test]
fn structural_shape_flat_integer_variable() {
    // x = 42
    let mut p = Prog::new();
    let v = p.int_lit(42);
    top_decl(&mut p, "x", v);
    let (uir, pool) = p.lower().unwrap();
    assert_eq!(uir.func_bodies.len(), 1);
    let main = body_named(&uir, &pool, "main");
    assert_eq!(main.params.len(), 0);
    assert_eq!(main.return_type, pool.void());
    let stmts = uir.body_stmts(main);
    assert_eq!(stmts.len(), 1);
    let v = uir.var_decl_view(stmts[0]).unwrap();
    assert_eq!(pool.str(v.name), "x");
    assert!(!v.mutable);
    assert!(matches!(uir.inst(v.initializer).tag, InstTag::IntLiteral));
}

#[test]
fn structural_shape_mutable_variable() {
    // mut x = 42
    let mut p = Prog::new();
    let v = p.int_lit(42);
    let d = p.decl("x", true, None, v);
    p.top(d);
    let (uir, _) = p.lower().unwrap();
    let v = uir.var_decl_view(stmt_at(&uir, &uir.func_bodies[0], 0)).unwrap();
    assert!(v.mutable);
}

#[test]
fn structural_shape_binary_op() {
    // x = 2 + 3 * 4
    let mut p = Prog::new();
    let (two, three, four) = (p.int_lit(2), p.int_lit(3), p.int_lit(4));
    let mul = p.bin(BinaryOperator::Mul, three, four);
    let add = p.bin(BinaryOperator::Add, two, mul);
    top_decl(&mut p, "x", add);
    let (uir, _) = p.lower().unwrap();
    let v = uir.var_decl_view(stmt_at(&uir, &uir.func_bodies[0], 0)).unwrap();
    assert!(matches!(uir.inst(v.initializer).tag, InstTag::Add));
}

#[test]
fn structural_shape_negation() {
    // x = -42
    let mut p = Prog::new();
    let v = p.int_lit(42);
    let neg = p.un(UnaryOperator::Neg, v);
    top_decl(&mut p, "x", neg);
    let (uir, _) = p.lower().unwrap();
    let v = uir.var_decl_view(stmt_at(&uir, &uir.func_bodies[0], 0)).unwrap();
    assert!(matches!(uir.inst(v.initializer).tag, InstTag::Neg));
}

/// fn main():
///     print("hi")
fn main_printing_hi(p: &mut Prog) -> NodeRef {
    let hi = p.string("hi");
    let call = p.call("print", vec![hi]);
    let es = p.expr_stmt(call);
    p.func("main", &[], None, vec![es])
}

#[test]
fn explicit_main_with_top_level_error() {
    // x = 42
    //
    // fn main():
    //     print("hi")
    let mut p = Prog::new();
    let v = p.int_lit(42);
    top_decl(&mut p, "x", v);
    let f = main_printing_hi(&mut p);
    p.top(f);
    let diags = p.lower().unwrap_err();
    assert!(diags.iter().any(|d| d.code == DiagCode::TopLevelWithExplicitMain));
}

#[test]
fn explicit_main_structural() {
    let mut p = Prog::new();
    let f = main_printing_hi(&mut p);
    p.top(f);
    let (uir, pool) = p.lower().unwrap();
    assert_eq!(uir.func_bodies.len(), 1);
    let main = body_named(&uir, &pool, "main");
    assert_eq!(main.return_type, pool.void());
    let stmts = uir.body_stmts(main);
    assert_eq!(stmts.len(), 1);
    assert!(matches!(uir.inst(stmts[0]).tag, InstTag::ExprStmt));
}

#[test]
fn main_with_return_type_emits_diag() {
    // fn main() -> int:
    //     return 0
    let mut p = Prog::new();
    let z = p.int_lit(0);
    let r = p.ret(Some(z));
    let f = p.func("main", &[], Some("int"), vec![r]);
    p.top(f);
    let diags = p.lower().unwrap_err();
    assert!(diags.iter().any(|d| d.code == DiagCode::MainSignature));
}

#[test]
fn main_with_params_emits_diag() {
    // fn main(x: int):
    //     print("hi")
    let mut p = Prog::new();
    let hi = p.string("hi");
    let call = p.call("print", vec![hi]);
    let es = p.expr_stmt(call);
    let f = p.func("main", &[("x", "int", false)], None, vec![es]);
    p.top(f);
    let diags = p.lower().unwrap_err();
    assert!(diags.iter().any(|d| d.code == DiagCode::MainSignature));
}

#[test]
fn unknown_type_annotation_rejected() {
    // x: nope = 1
    let mut p = Prog::new();
    let v = p.int_lit(1);
    let d = p.decl("x", false, Some(("nope", false)), v);
    p.top(d);
    let diags = p.lower().unwrap_err();
    assert!(diags.iter().any(|d| d.code == DiagCode::UnknownType));
}

#[test]
fn helper_fn_with_top_level_lowers_both() {
    // fn helper() -> int:
    //     return 42
    //
    // x = helper()
    let mut p = Prog::new();
    let v = p.int_lit(42);
    let r = p.ret(Some(v));
    let f = p.func("helper", &[], Some("int"), vec![r]);
    p.top(f);
    let c = p.call("helper", vec![]);
    top_decl(&mut p, "x", c);
    let (uir, pool) = p.lower().unwrap();
    assert_eq!(uir.func_bodies.len(), 2);
    assert!(uir.func_bodies.iter().any(|f| pool.str(f.name) == "helper"));
    assert!(uir.func_bodies.iter().any(|f| pool.str(f.name) == "main"));
}

/// fn add(a: int, b: int) -> int:
///     return a + b
fn add_fn(p: &mut Prog) -> NodeRef {
    let (a, b) = (p.name("a"), p.name("b"));
    let sum = p.bin(BinaryOperator::Add, a, b);
    let r = p.ret(Some(sum));
    p.func("add", &[("a", "int", false), ("b", "int", false)], Some("int"), vec![r])
}

#[test]
fn two_functions_structural() {
    let mut p = Prog::new();
    let add = add_fn(&mut p);
    p.top(add);
    let main = main_printing_hi(&mut p);
    p.top(main);
    let (uir, pool) = p.lower().unwrap();
    assert_eq!(uir.func_bodies.len(), 2);
    let add = body_named(&uir, &pool, "add");
    assert_eq!(add.params.len(), 2);
    assert_eq!(pool.str(add.params[0].name), "a");
    assert_eq!(pool.str(add.params[1].name), "b");
}

#[test]
fn call_payload_round_trips_through_extra() {
    // fn add(a: int, b: int) -> int:
    //     return a + b
    //
    // x = add(1, 2)
    let mut p = Prog::new();
    let add = add_fn(&mut p);
    p.top(add);
    let (one, two) = (p.int_lit(1), p.int_lit(2));
    let c = p.call("add", vec![one, two]);
    top_decl(&mut p, "x", c);
    let (uir, pool) = p.lower().unwrap();
    let main = body_named(&uir, &pool, "main");
    let v = uir.var_decl_view(stmt_at(&uir, main, 0)).unwrap();
    assert!(matches!(uir.inst(v.initializer).tag, InstTag::Call));
    let call = uir.call_view(v.initializer).unwrap();
    assert_eq!(pool.str(call.name), "add");
    assert_eq!(call.args.len(), 2);
    for (arg, expected) in call.args.iter().zip([1i64, 2]) {
        match &uir.inst(*arg).data {
            InstData::Int(v) => assert_eq!(*v, expected),
            other => panic!("expected IntLiteral, got {:?}", other),
        }
    }
}

fn lower_bool_op(op: BinaryOperator) -> InstTag {
    // x = true <op> false
    let mut p = Prog::new();
    let (t, f) = (p.boolean(true), p.boolean(false));
    let e = p.bin(op, t, f);
    top_decl(&mut p, "x", e);
    let (uir, pool) = p.lower().unwrap();
    let main = body_named(&uir, &pool, "main");
    let v = uir.var_decl_view(uir.body_stmts(main)[0]).unwrap();
    uir.inst(v.initializer).tag
}

#[test]
fn lower_and_operator() {
    assert!(matches!(lower_bool_op(BinaryOperator::And), InstTag::And));
}

#[test]
fn lower_or_operator() {
    assert!(matches!(lower_bool_op(BinaryOperator::Or), InstTag::Or));
}

#[test]
fn lower_not_operator() {
    // x = not true
    let mut p = Prog::new();
    let t = p.boolean(true);
    let e = p.un(UnaryOperator::Not, t);
    top_decl(&mut p, "x", e);
    let (uir, pool) = p.lower().unwrap();
    let main = body_named(&uir, &pool, "main");
    let v = uir.var_decl_view(uir.body_stmts(main)[0]).unwrap();
    assert!(matches!(uir.inst(v.initializer).tag, InstTag::Not));
}

#[test]
fn lower_if_stmt() {
    // fn main():
    //     if true:
    //         x = 1
    //     else:
    //         x = 2
    let mut p = Prog::new();
    let cond = p.boolean(true);
    let one = p.int_lit(1);
    let a1 = p.assign("x", one);
    let two = p.int_lit(2);
    let a2 = p.assign("x", two);
    let ifs = p.node(NodeKind::IfStmt(IfNode { cond, then_block: vec![a1], elif_branches: vec![], else_block: Some(vec![a2]) }));
    let f = p.func("main", &[], None, vec![ifs]);
    p.top(f);
    let (uir, pool) = p.lower().unwrap();
    let main = body_named(&uir, &pool, "main");
    let stmts = uir.body_stmts(main);
    assert_eq!(stmts.len(), 1);
    assert!(matches!(uir.inst(stmts[0]).tag, InstTag::IfStmt));
    let view = uir.if_stmt_view(stmts[0]).unwrap();
    assert_eq!(view.then_stmts.len(), 1);
    assert!(view.else_stmts.is_some());
}

#[test]
fn lower_assign_or_decl() {
    // fn main():
    //     x = 42
    let mut p = Prog::new();
    let v = p.int_lit(42);
    let a = p.assign("x", v);
    let f = p.func("main", &[], None, vec![a]);
    p.top(f);
    let (uir, pool) = p.lower().unwrap();
    let main = body_named(&uir, &pool, "main");
    let stmts = uir.body_stmts(main);
    assert_eq!(stmts.len(), 1);
    assert!(matches!(uir.inst(stmts[0]).tag, InstTag::AssignOrDecl));
    let v = uir.assign_or_decl_view(stmts[0]).unwrap();
    assert_eq!(pool.str(v.name), "x");
}

/// fn main():
///     while true:
///         <jump>
fn while_with(jump: NodeKind) -> Uir {
    let mut p = Prog::new();
    let cond = p.boolean(true);
    let j = p.node(jump);
    let w = p.node(NodeKind::WhileLoop { cond, body: vec![j] });
    let f = p.func("main", &[], None, vec![w]);
    p.top(f);
    p.lower().unwrap().0
}

#[test]
fn lower_while_loop() {
    let dump = while_with(NodeKind::Break).dump();
    assert!(dump.contains("while_loop"), "got:\n{}", dump);
}

#[test]
fn lower_break() {
    let dump = while_with(NodeKind::Break).dump();
    assert!(dump.contains("break"), "got:\n{}", dump);
}

#[test]
fn lower_continue() {
    let dump = while_with(NodeKind::Continue).dump();
    assert!(dump.contains("continue"), "got:\n{}", dump);
}

#[test]
fn lower_compound_assign() {
    // fn main():
    //     mut x = 10
    //     x += 1
    let mut p = Prog::new();
    let ten = p.int_lit(10);
    let d = p.decl("x", true, None, ten);
    let one = p.int_lit(1);
    let target = p.id("x");
    let ca = p.node(NodeKind::CompoundAssign { target, op: CompoundOp::Add, value: one });
    let f = p.func("main", &[], None, vec![d, ca]);
    p.top(f);
    let (uir, pool) = p.lower().unwrap();
    let main = body_named(&uir, &pool, "main");
    let stmts = uir.body_stmts(main);
    assert_eq!(stmts.len(), 2);
    assert!(matches!(uir.inst(stmts[1]).tag, InstTag::CompoundAssign));
    let v = uir.compound_assign_view(stmts[1]).unwrap();
    assert_eq!(pool.str(v.name), "x");
    assert_eq!(v.op, CompoundOp::Add);
}

/// fn main():
///     for i in <iterator>(0, 10):
///         print(i)
fn for_over(iterator: &str) -> Result<(Uir, InternPool), Vec<Diag>> {
    let mut p = Prog::new();
    let (start, end) = (p.int_lit(0), p.int_lit(10));
    let i = p.name("i");
    let call = p.call("print", vec![i]);
    let es = p.expr_stmt(call);
    let var = p.id("i");
    let iterator = p.id(iterator);
    let fr = p.node(NodeKind::ForRange { var, iterator, start, end, body: vec![es] });
    let f = p.func("main", &[], None, vec![fr]);
    p.top(f);
    p.lower()
}

#[test]
fn lower_for_range() {
    let (uir, _) = for_over("range").unwrap();
    let dump = uir.dump();
    assert!(dump.contains("for_range"), "got:\n{}", dump);
}

#[test]
fn for_non_range_iterator_rejected() {
    let result = for_over("something");
    assert!(result.is_err(), "non-range iterator should be rejected");
}

#[test]
fn lower_slice_expression() {
    // fn main():
    //     x = s[1:2]
    let mut p = Prog::new();
    let base = p.name("s");
    let (a, b) = (p.int_lit(1), p.int_lit(2));
    let sl = p.node(NodeKind::Slice { base, start: Some(a), end: Some(b) });
    let asg = p.assign("x", sl);
    let f = p.func("main", &[], None, vec![asg]);
    p.top(f);
    let (uir, _pool) = p.lower().unwrap();
    let has_slice = uir.instructions.iter().any(|i| i.tag == InstTag::Slice);
    assert!(has_slice, "expected a Slice instruction");
}

/// fn f(text: <ty>):
///     print(<arg>)
fn f_with_param(ty: &str, is_view: bool, print_param: bool) -> Result<(Uir, InternPool), Vec<Diag>> {
    let mut p = Prog::new();
    let arg = if print_param { p.name("text") } else { p.string("") };
    let call = p.call("print", vec![arg]);
    let es = p.expr_stmt(call);
    let f = p.func("f", &[("text", ty, is_view)], None, vec![es]);
    p.top(f);
    p.lower()
}

#[test]
fn strview_param_resolves_to_view() {
    let (uir, pool) = f_with_param("strview", false, true).unwrap();
    assert_eq!(uir.func_bodies[0].params[0].ty, pool.str_view());
}

#[test]
fn legacy_amp_str_is_a_migration_error() {
    let diags = f_with_param("str", true, true).unwrap_err();
    assert!(diags.iter().any(|d| d.message.contains("`&str` was renamed to `strview`")));
}

#[test]
fn lower_view_of_non_str_rejected() {
    let diags = f_with_param("int", true, false).unwrap_err();
    assert!(diags.iter().any(|d| d.code == DiagCode::UnknownType));
}

#[test]
fn unknown_type_message_names_the_type() {
    let diags = f_with_param("nope", false, true).unwrap_err();
    assert_eq!(diags.len(), 1);
    assert_eq!(diags[0].message, "unknown type: 'nope'");
    let diags = f_with_param("int", true, true).unwrap_err();
    assert_eq!(diags[0].message, "unknown view type: '&int' (view types are named: `strview`)");
}

#[test]
fn every_primitive_annotation_resolves() {
    for (name, expect) in [("int", 2u32), ("str", 5), ("strview", 6), ("bool", 4), ("float", 3)] {
        let (uir, _) = f_with_param(name, false, true).unwrap();
        assert_eq!(uir.func_bodies[0].params[0].ty.0, expect, "{name}");
    }
}

#[test]
fn nested_function_definition_rejected_and_dropped() {
    // fn main():
    //     fn inner():
    //         return
    //     x = 1
    let mut p = Prog::new();
    let r = p.ret(None);
    let inner = p.func("inner", &[], None, vec![r]);
    let one = p.int_lit(1);
    let a = p.assign("x", one);
    let f = p.func("main", &[], None, vec![inner, a]);
    p.top(f);
    let diags = p.lower().unwrap_err();
    assert!(diags.iter().any(|d| d.code == DiagCode::NestedFunctionDef));
}

#[test]
fn parse_error_placeholders_lower_to_nothing() {
    // <unparseable line>
    // x = 1
    let mut p = Prog::new();
    let e = p.node(NodeKind::Error);
    p.top(e);
    let one = p.int_lit(1);
    top_decl(&mut p, "x", one);
    let (uir, pool) = p.lower().unwrap();
    let main = body_named(&uir, &pool, "main");
    assert_eq!(uir.body_stmts(main).len(), 1);
}

#[test]
fn elif_arms_lower_in_order() {
    // fn main():
    //     if a:
    //         x = 1
    //     elif b:
    //         x = 2
    let mut p = Prog::new();
    let a = p.name("a");
    let one = p.int_lit(1);
    let s1 = p.assign("x", one);
    let b = p.name("b");
    let two = p.int_lit(2);
    let s2 = p.assign("x", two);
    let ifs = p.node(NodeKind::IfStmt(IfNode {
        cond: a,
        then_block: vec![s1],
        elif_branches: vec![ElifBranch { cond: b, block: vec![s2] }],
        else_block: None,
    }));
    let f = p.func("main", &[], None, vec![ifs]);
    p.top(f);
    let (uir, pool) = p.lower().unwrap();
    let main = body_named(&uir, &pool, "main");
    let view = uir.if_stmt_view(uir.body_stmts(main)[0]).unwrap();
    assert_eq!(view.elif_branches.len(), 1);
    assert!(view.else_stmts.is_none());
    assert!(matches!(uir.inst(view.elif_branches[0].cond).tag, InstTag::Var));
    assert_eq!(view.elif_branches[0].body.len(), 1);
}
