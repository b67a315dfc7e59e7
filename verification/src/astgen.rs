//! AST → UIR structural translation.
//!
//! Pure structural lowering: syntactic type annotations (`int`, `bool`,
//! `str`, ...) are resolved to `TypeId`s; everything else is copied over
//! node for node. A program without `fn main()` gets an implicit `main`
//! made of its top-level statements.
use vstd::prelude::*;
use crate::types::{InternPool, Span, StringId, TypeId};
use crate::diag::{Diag, DiagCode, DiagSink, DiagView, Severity};
use crate::ast::{
    Ast, NodeRef, NodeKind, Literal, BinaryOperator, UnaryOperator, Ident, Param, FunctionDef,
    IfNode, ElifBranch, opt_block,
};
use crate::uir::{
    Uir, UirBuilder, UirInst, InstRef, InstTag, InstData, UirParam, SliceView, VarDeclView,
    AssignOrDeclView, CompoundAssignView, IfStmtView, UirElif, WhileLoopView, ForRangeView,
    FuncBody, extends, insts_extend, irefs_below, lemma_irefs_below_mono,
};

verus! {

// ---------- Operators ----------

pub open spec fn bin_tag(op: BinaryOperator) -> InstTag {
    match op {
        BinaryOperator::Add => InstTag::Add,
        BinaryOperator::Sub => InstTag::Sub,
        BinaryOperator::Mul => InstTag::Mul,
        BinaryOperator::Div => InstTag::Div,
        BinaryOperator::Eq => InstTag::Eq,
        BinaryOperator::NotEq => InstTag::NotEq,
        BinaryOperator::Lt => InstTag::Lt,
        BinaryOperator::Gt => InstTag::Gt,
        BinaryOperator::LtEq => InstTag::LtEq,
        BinaryOperator::GtEq => InstTag::GtEq,
        BinaryOperator::Mod => InstTag::Mod,
        BinaryOperator::And => InstTag::And,
        BinaryOperator::Or => InstTag::Or,
    }
}

pub open spec fn un_tag(op: UnaryOperator) -> InstTag {
    match op {
        UnaryOperator::Neg => InstTag::Neg,
        UnaryOperator::Not => InstTag::Not,
    }
}

fn binary_tag(op: BinaryOperator) -> (t: InstTag)
    ensures
        t == bin_tag(op),
{
    match op {
        BinaryOperator::Add => InstTag::Add,
        BinaryOperator::Sub => InstTag::Sub,
        BinaryOperator::Mul => InstTag::Mul,
        BinaryOperator::Div => InstTag::Div,
        BinaryOperator::Eq => InstTag::Eq,
        BinaryOperator::NotEq => InstTag::NotEq,
        BinaryOperator::Lt => InstTag::Lt,
        BinaryOperator::Gt => InstTag::Gt,
        BinaryOperator::LtEq => InstTag::LtEq,
        BinaryOperator::GtEq => InstTag::GtEq,
        BinaryOperator::Mod => InstTag::Mod,
        BinaryOperator::And => InstTag::And,
        BinaryOperator::Or => InstTag::Or,
    }
}

/// Each binary operator of the syntax tree lowers to the instruction tag of
/// the same operator: `+` to `Add`, `<=` to `LtEq`, `>=` to `GtEq`, and so
/// on for every operator; so no two operators share a tag.
pub proof fn lemma_bin_tag_keeps_operator(op: BinaryOperator, other: BinaryOperator)
    ensures
        op == BinaryOperator::Add <==> bin_tag(op) == InstTag::Add,
        op == BinaryOperator::Sub <==> bin_tag(op) == InstTag::Sub,
        op == BinaryOperator::Mul <==> bin_tag(op) == InstTag::Mul,
        op == BinaryOperator::Div <==> bin_tag(op) == InstTag::Div,
        op == BinaryOperator::Mod <==> bin_tag(op) == InstTag::Mod,
        op == BinaryOperator::Eq <==> bin_tag(op) == InstTag::Eq,
        op == BinaryOperator::NotEq <==> bin_tag(op) == InstTag::NotEq,
        op == BinaryOperator::Lt <==> bin_tag(op) == InstTag::Lt,
        op == BinaryOperator::Gt <==> bin_tag(op) == InstTag::Gt,
        op == BinaryOperator::LtEq <==> bin_tag(op) == InstTag::LtEq,
        op == BinaryOperator::GtEq <==> bin_tag(op) == InstTag::GtEq,
        op == BinaryOperator::And <==> bin_tag(op) == InstTag::And,
        op == BinaryOperator::Or <==> bin_tag(op) == InstTag::Or,
        bin_tag(op) == bin_tag(other) ==> op == other,
{
}

/// The same, read off a lowered expression: an instruction that translates
/// a binary-operator node carries the tag of that node's own operator.
pub proof fn lemma_lowered_binary_keeps_operator(ast: Ast, uir: Uir, n: NodeRef, r: InstRef)
    requires
        lowers_expr(ast, uir, n, r),
        ast.kind(n) is BinaryOp,
    ensures
        ({
            let op = ast.kind(n)->BinaryOp_op;
            let tag = uir.spec_inst(r).tag;
            &&& op == BinaryOperator::Add <==> tag == InstTag::Add
            &&& op == BinaryOperator::Sub <==> tag == InstTag::Sub
            &&& op == BinaryOperator::Mul <==> tag == InstTag::Mul
            &&& op == BinaryOperator::Div <==> tag == InstTag::Div
            &&& op == BinaryOperator::Mod <==> tag == InstTag::Mod
            &&& op == BinaryOperator::Eq <==> tag == InstTag::Eq
            &&& op == BinaryOperator::NotEq <==> tag == InstTag::NotEq
            &&& op == BinaryOperator::Lt <==> tag == InstTag::Lt
            &&& op == BinaryOperator::Gt <==> tag == InstTag::Gt
            &&& op == BinaryOperator::LtEq <==> tag == InstTag::LtEq
            &&& op == BinaryOperator::GtEq <==> tag == InstTag::GtEq
            &&& op == BinaryOperator::And <==> tag == InstTag::And
            &&& op == BinaryOperator::Or <==> tag == InstTag::Or
        }),
{
    lemma_bin_tag_keeps_operator(ast.kind(n)->BinaryOp_op, ast.kind(n)->BinaryOp_op);
}

// ---------- Expressions ----------

/// An expression subtree: literals, names, operators, calls, borrows and
/// slices all the way down.
pub open spec fn expr_shaped(ast: Ast, n: NodeRef) -> bool
    decreases n.0,
{
    ast.valid(n) && match ast.kind(n) {
        NodeKind::Literal(_) => true,
        NodeKind::Ident(_) => true,
        NodeKind::BinaryOp { lhs, rhs, .. } => lhs.0 < n.0 && rhs.0 < n.0 && expr_shaped(ast, lhs)
            && expr_shaped(ast, rhs),
        NodeKind::UnaryOp { operand, .. } => operand.0 < n.0 && expr_shaped(ast, operand),
        NodeKind::Call { args, .. } => forall|j: int|
            0 <= j < args@.len() ==> (#[trigger] args@[j]).0 < n.0 && expr_shaped(ast, args@[j]),
        NodeKind::MethodCall { receiver, args, .. } => receiver.0 < n.0 && expr_shaped(ast, receiver)
            && forall|j: int| 0 <= j < args@.len() ==> (#[trigger] args@[j]).0 < n.0 && expr_shaped(ast, args@[j]),
        NodeKind::Borrow(e) => e.0 < n.0 && expr_shaped(ast, e),
        NodeKind::Slice { base, start, end } => base.0 < n.0 && expr_shaped(ast, base) && (start matches Some(x)
            ==> x.0 < n.0 && expr_shaped(ast, x)) && (end matches Some(x) ==> x.0 < n.0 && expr_shaped(ast, x)),
        _ => false,
    }
}

/// Number of instructions lowering expression `n` appends.
pub open spec fn expr_count(ast: Ast, n: NodeRef) -> nat
    decreases n.0, 1nat, 0nat,
{
    match ast.kind(n) {
        NodeKind::BinaryOp { lhs, rhs, .. } => 1 + (if lhs.0 < n.0 {
            expr_count(ast, lhs)
        } else {
            0
        }) + (if rhs.0 < n.0 {
            expr_count(ast, rhs)
        } else {
            0
        }),
        NodeKind::UnaryOp { operand, .. } => 1 + if operand.0 < n.0 {
            expr_count(ast, operand)
        } else {
            0
        },
        NodeKind::Call { args, .. } => 1 + args_count(ast, n, args@),
        NodeKind::MethodCall { receiver, args, .. } => 1 + (if receiver.0 < n.0 {
            expr_count(ast, receiver)
        } else {
            0
        }) + args_count(ast, n, args@),
        NodeKind::Borrow(e) => 1 + if e.0 < n.0 {
            expr_count(ast, e)
        } else {
            0
        },
        NodeKind::Slice { base, start, end } => 1 + (if base.0 < n.0 {
            expr_count(ast, base)
        } else {
            0
        }) + opt_count(ast, n, start) + opt_count(ast, n, end),
        _ => 1,
    }
}

pub open spec fn opt_count(ast: Ast, parent: NodeRef, o: Option<NodeRef>) -> nat
    decreases parent.0, 0nat, 1nat,
{
    match o {
        Some(x) => if x.0 < parent.0 {
            expr_count(ast, x)
        } else {
            0
        },
        None => 0,
    }
}

pub open spec fn args_count(ast: Ast, parent: NodeRef, s: Seq<NodeRef>) -> nat
    decreases parent.0, 0nat, s.len(),
{
    if s.len() == 0 {
        0
    } else {
        args_count(ast, parent, s.drop_last()) + if s.last().0 < parent.0 {
            expr_count(ast, s.last())
        } else {
            0
        }
    }
}

/// Instruction `r` of `uir` is the translation of expression `n`: same
/// literal, name or operator, same span, and its operands translate the
/// node's children.
pub open spec fn lowers_expr(ast: Ast, uir: Uir, n: NodeRef, r: InstRef) -> bool
    decreases n.0,
{
    let inst = uir.spec_inst(r);
    &&& ast.valid(n)
    &&& uir.valid(r)
    &&& inst.span == ast.spec_span(n)
    &&& match ast.kind(n) {
        NodeKind::Literal(Literal::Int(v)) => inst.tag == InstTag::IntLiteral && inst.data == InstData::Int(v),
        NodeKind::Literal(Literal::Str(s)) => inst.tag == InstTag::StrLiteral && inst.data == InstData::Str(s),
        NodeKind::Literal(Literal::Bool(b)) => inst.tag == InstTag::BoolLiteral && inst.data == InstData::Bool(b),
        NodeKind::Literal(Literal::Float(bits)) => inst.tag == InstTag::FloatLiteral && inst.data == InstData::Float(bits),
        NodeKind::Ident(name) => inst.tag == InstTag::Var && inst.data == InstData::Var(name),
        NodeKind::BinaryOp { op, lhs, rhs } => {
            &&& inst.tag == bin_tag(op)
            &&& inst.data is BinOp
            &&& lhs.0 < n.0 && lowers_expr(ast, uir, lhs, inst.data->lhs)
            &&& rhs.0 < n.0 && lowers_expr(ast, uir, rhs, inst.data->rhs)
        },
        NodeKind::UnaryOp { op, operand } => {
            &&& inst.tag == un_tag(op)
            &&& inst.data is UnOp
            &&& operand.0 < n.0 && lowers_expr(ast, uir, operand, inst.data->UnOp_0)
        },
        NodeKind::Call { name, args } => {
            &&& inst.tag == InstTag::Call
            &&& inst.data is Call
            &&& inst.data->Call_0.name == name
            &&& inst.data->Call_0.args@.len() == args@.len()
            &&& forall|j: int| 0 <= j < args@.len() ==> (#[trigger] args@[j]).0 < n.0 && lowers_expr(ast, uir, args@[j], inst.data->Call_0.args@[j])
        },
        NodeKind::MethodCall { receiver, method, args } => {
            &&& inst.tag == InstTag::MethodCall
            &&& inst.data is MethodCall
            &&& inst.data->MethodCall_0.method == method
            &&& receiver.0 < n.0 && lowers_expr(ast, uir, receiver, inst.data->MethodCall_0.receiver)
            &&& inst.data->MethodCall_0.args@.len() == args@.len()
            &&& forall|j: int| 0 <= j < args@.len() ==> (#[trigger] args@[j]).0 < n.0 && lowers_expr(ast, uir, args@[j], inst.data->MethodCall_0.args@[j])
        },
        NodeKind::Borrow(e) => {
            &&& inst.tag == InstTag::Borrow
            &&& inst.data is Borrow
            &&& e.0 < n.0 && lowers_expr(ast, uir, e, inst.data->Borrow_0)
        },
        NodeKind::Slice { base, start, end } => {
            &&& inst.tag == InstTag::Slice
            &&& inst.data is Slice
            &&& base.0 < n.0 && lowers_expr(ast, uir, base, inst.data->Slice_0.base)
            &&& (start is Some) == (inst.data->Slice_0.start is Some)
            &&& (start matches Some(x) ==> x.0 < n.0 && lowers_expr(ast, uir, x, inst.data->Slice_0.start->Some_0))
            &&& (end is Some) == (inst.data->Slice_0.end is Some)
            &&& (end matches Some(x) ==> x.0 < n.0 && lowers_expr(ast, uir, x, inst.data->Slice_0.end->Some_0))
        },
        _ => false,
    }
}

/// A translation stays one when instructions are appended.
pub proof fn lemma_lowers_expr_extends(ast: Ast, u0: Uir, u1: Uir, n: NodeRef, r: InstRef)
    requires
        lowers_expr(ast, u0, n, r),
        insts_extend(u0, u1),
    ensures
        lowers_expr(ast, u1, n, r),
    decreases n.0,
{
    assert(u1.spec_inst(r) == u0.spec_inst(r));
    let inst = u0.spec_inst(r);
    match ast.kind(n) {
        NodeKind::BinaryOp { op, lhs, rhs } => {
            lemma_lowers_expr_extends(ast, u0, u1, lhs, inst.data->lhs);
            lemma_lowers_expr_extends(ast, u0, u1, rhs, inst.data->rhs);
        },
        NodeKind::UnaryOp { op, operand } => {
            lemma_lowers_expr_extends(ast, u0, u1, operand, inst.data->UnOp_0);
        },
        NodeKind::Call { name, args } => {
            assert forall|j: int| 0 <= j < args@.len() implies (#[trigger] args@[j]).0 < n.0 && lowers_expr(ast, u1, args@[j], inst.data->Call_0.args@[j]) by {
                lemma_lowers_expr_extends(ast, u0, u1, args@[j], inst.data->Call_0.args@[j]);
            }
        },
        NodeKind::MethodCall { receiver, method, args } => {
            lemma_lowers_expr_extends(ast, u0, u1, receiver, inst.data->MethodCall_0.receiver);
            assert forall|j: int| 0 <= j < args@.len() implies (#[trigger] args@[j]).0 < n.0 && lowers_expr(ast, u1, args@[j], inst.data->MethodCall_0.args@[j]) by {
                lemma_lowers_expr_extends(ast, u0, u1, args@[j], inst.data->MethodCall_0.args@[j]);
            }
        },
        NodeKind::Borrow(e) => {
            lemma_lowers_expr_extends(ast, u0, u1, e, inst.data->Borrow_0);
        },
        NodeKind::Slice { base, start, end } => {
            lemma_lowers_expr_extends(ast, u0, u1, base, inst.data->Slice_0.base);
            if let Some(x) = start {
                lemma_lowers_expr_extends(ast, u0, u1, x, inst.data->Slice_0.start->Some_0);
            }
            if let Some(x) = end {
                lemma_lowers_expr_extends(ast, u0, u1, x, inst.data->Slice_0.end->Some_0);
            }
        },
        _ => {},
    }
}

proof fn lemma_extends_trans(u0: Uir, u1: Uir, u2: Uir)
    requires
        extends(u0, u1),
        extends(u1, u2),
    ensures
        extends(u0, u2),
{
    assert forall|i: int| 0 <= i < u0.instructions@.len() implies #[trigger] u2.instructions@[i] == u0.instructions@[i] by {
        assert(u1.instructions@[i] == u0.instructions@[i]);
    }
}

/// Lower the arguments `args` (children of `parent`), in order.
fn gen_args(b: &mut UirBuilder, ast: &Ast, args: &Vec<NodeRef>, parent: NodeRef) -> (refs: Vec<InstRef>)
    requires
        old(b).wf(),
        ast.wf(),
        forall|j: int| 0 <= j < args@.len() ==> (#[trigger] args@[j]).0 < parent.0 && expr_shaped(*ast, args@[j]),
        old(b).spec_len() + args_count(*ast, parent, args@) < u32::MAX,
    ensures
        final(b).wf(),
        extends(old(b).spec_uir(), final(b).spec_uir()),
        final(b).spec_len() == old(b).spec_len() + args_count(*ast, parent, args@),
        refs@.len() == args@.len(),
        forall|j: int| 0 <= j < args@.len() ==> lowers_expr(*ast, final(b).spec_uir(), #[trigger] args@[j], refs@[j]),
        irefs_below(refs@, final(b).spec_len()),
    decreases parent.0, 0nat,
{
    let mut refs: Vec<InstRef> = Vec::new();
    let mut i: usize = 0;
    assert(args@.take(0) =~= Seq::<NodeRef>::empty());
    while i < args.len()
        invariant
            i <= args@.len(),
            ast.wf(),
            b.wf(),
            forall|j: int| 0 <= j < args@.len() ==> (#[trigger] args@[j]).0 < parent.0 && expr_shaped(*ast, args@[j]),
            old(b).spec_len() + args_count(*ast, parent, args@) < u32::MAX,
            extends(old(b).spec_uir(), b.spec_uir()),
            b.spec_len() == old(b).spec_len() + args_count(*ast, parent, args@.take(i as int)),
            args_count(*ast, parent, args@.take(i as int)) <= args_count(*ast, parent, args@),
            refs@.len() == i,
            forall|j: int| 0 <= j < i ==> lowers_expr(*ast, b.spec_uir(), #[trigger] args@[j], refs@[j]),
            irefs_below(refs@, b.spec_len()),
        decreases args@.len() - i,
    {
        let a = args[i];
        proof {
            let t = args@.take(i + 1);
            assert(t.drop_last() =~= args@.take(i as int));
            assert(t.last() == a);
            lemma_args_count_prefix(*ast, parent, args@, i + 1);
        }
        let ghost u0 = b.spec_uir();
        let r = gen_expr(b, ast, a);
        proof {
            assert forall|j: int| 0 <= j < i implies lowers_expr(*ast, b.spec_uir(), #[trigger] args@[j], refs@[j]) by {
                lemma_lowers_expr_extends(*ast, u0, b.spec_uir(), args@[j], refs@[j]);
            }
            lemma_extends_trans(old(b).spec_uir(), u0, b.spec_uir());
            lemma_irefs_below_mono(refs@, u0.instructions@.len() as int, b.spec_len());
        }
        refs.push(r);
        i = i + 1;
    }
    assert(args@.take(args@.len() as int) =~= args@);
    refs
}

proof fn lemma_args_count_prefix(ast: Ast, parent: NodeRef, s: Seq<NodeRef>, k: int)
    requires
        0 <= k <= s.len(),
    ensures
        args_count(ast, parent, s.take(k)) <= args_count(ast, parent, s),
    decreases s.len() - k,
{
    if k < s.len() {
        lemma_args_count_prefix(ast, parent, s, k + 1);
        assert(s.take(k + 1).drop_last() =~= s.take(k));
    } else {
        assert(s.take(k) =~= s);
    }
}

/// Lower expression `n`.
pub fn gen_expr(b: &mut UirBuilder, ast: &Ast, n: NodeRef) -> (r: InstRef)
    requires
        old(b).wf(),
        ast.wf(),
        expr_shaped(*ast, n),
        old(b).spec_len() + expr_count(*ast, n) < u32::MAX,
    ensures
        final(b).wf(),
        extends(old(b).spec_uir(), final(b).spec_uir()),
        final(b).spec_len() == old(b).spec_len() + expr_count(*ast, n),
        r.0 < final(b).spec_len(),
        lowers_expr(*ast, final(b).spec_uir(), n, r),
    decreases n.0, 1nat,
{
    let span = ast.span(n);
    let node = ast.node(n);
    proof {
        ast.lemma_below(n);
    }
    match &node.kind {
        NodeKind::Literal(lit) => {
            let (tag, data) = match lit {
                Literal::Int(v) => (InstTag::IntLiteral, InstData::Int(*v)),
                Literal::Str(s) => (InstTag::StrLiteral, InstData::Str(*s)),
                Literal::Bool(v) => (InstTag::BoolLiteral, InstData::Bool(*v)),
                Literal::Float(bits) => (InstTag::FloatLiteral, InstData::Float(*bits)),
            };
            b.push(UirInst { tag, data, span })
        },
        NodeKind::Ident(name) => b.push(UirInst { tag: InstTag::Var, data: InstData::Var(*name), span }),
        NodeKind::BinaryOp { op, lhs, rhs } => {
            let ghost u0 = b.spec_uir();
            let l = gen_expr(b, ast, *lhs);
            let ghost u1 = b.spec_uir();
            let r = gen_expr(b, ast, *rhs);
            let ghost u2 = b.spec_uir();
            let tag = binary_tag(*op);
            let res = b.push(UirInst { tag, data: InstData::BinOp { lhs: l, rhs: r }, span });
            proof {
                lemma_lowers_expr_extends(*ast, u1, b.spec_uir(), *lhs, l);
                lemma_lowers_expr_extends(*ast, u2, b.spec_uir(), *rhs, r);
                lemma_extends_trans(u0, u1, u2);
                lemma_extends_trans(u0, u2, b.spec_uir());
            }
            res
        },
        NodeKind::UnaryOp { op, operand } => {
            let ghost u0 = b.spec_uir();
            let o = gen_expr(b, ast, *operand);
            let ghost u1 = b.spec_uir();
            let tag = match op {
                UnaryOperator::Neg => InstTag::Neg,
                UnaryOperator::Not => InstTag::Not,
            };
            let res = b.push(UirInst { tag, data: InstData::UnOp(o), span });
            proof {
                lemma_lowers_expr_extends(*ast, u1, b.spec_uir(), *operand, o);
                lemma_extends_trans(u0, u1, b.spec_uir());
            }
            res
        },
        NodeKind::Call { name, args } => {
            let ghost u0 = b.spec_uir();
            let refs = gen_args(b, ast, args, n);
            let ghost u1 = b.spec_uir();
            let res = b.call(*name, refs.as_slice(), span);
            proof {
                assert forall|j: int| 0 <= j < args@.len() implies (#[trigger] args@[j]).0 < n.0 && lowers_expr(*ast, b.spec_uir(), args@[j], refs@[j]) by {
                    lemma_lowers_expr_extends(*ast, u1, b.spec_uir(), args@[j], refs@[j]);
                }
                lemma_extends_trans(u0, u1, b.spec_uir());
            }
            res
        },
        NodeKind::MethodCall { receiver, method, args } => {
            let ghost u0 = b.spec_uir();
            let rr = gen_expr(b, ast, *receiver);
            let ghost u1 = b.spec_uir();
            let refs = gen_args(b, ast, args, n);
            let ghost u2 = b.spec_uir();
            let res = b.method_call(rr, *method, refs.as_slice(), span);
            proof {
                lemma_lowers_expr_extends(*ast, u1, b.spec_uir(), *receiver, rr);
                assert forall|j: int| 0 <= j < args@.len() implies (#[trigger] args@[j]).0 < n.0 && lowers_expr(*ast, b.spec_uir(), args@[j], refs@[j]) by {
                    lemma_lowers_expr_extends(*ast, u2, b.spec_uir(), args@[j], refs@[j]);
                }
                lemma_extends_trans(u0, u1, u2);
                lemma_extends_trans(u0, u2, b.spec_uir());
            }
            res
        },
        NodeKind::Borrow(e) => {
            let ghost u0 = b.spec_uir();
            let o = gen_expr(b, ast, *e);
            let ghost u1 = b.spec_uir();
            let res = b.push(UirInst { tag: InstTag::Borrow, data: InstData::Borrow(o), span });
            proof {
                lemma_lowers_expr_extends(*ast, u1, b.spec_uir(), *e, o);
                lemma_extends_trans(u0, u1, b.spec_uir());
            }
            res
        },
        NodeKind::Slice { base, start, end } => {
            let ghost u0 = b.spec_uir();
            let br = gen_expr(b, ast, *base);
            let ghost u1 = b.spec_uir();
            let sr = match start {
                Some(x) => {
                    assert(opt_count(*ast, n, *start) == expr_count(*ast, *x));
                    Some(gen_expr(b, ast, *x))
                },
                None => {
                    assert(opt_count(*ast, n, *start) == 0);
                    None
                },
            };
            let ghost u2 = b.spec_uir();
            let er = match end {
                Some(x) => {
                    assert(opt_count(*ast, n, *end) == expr_count(*ast, *x));
                    Some(gen_expr(b, ast, *x))
                },
                None => {
                    assert(opt_count(*ast, n, *end) == 0);
                    None
                },
            };
            let ghost u3 = b.spec_uir();
            let res = b.push(UirInst { tag: InstTag::Slice, data: InstData::Slice(SliceView { base: br, start: sr, end: er }), span });
            proof {
                lemma_extends_trans(u0, u1, u2);
                lemma_extends_trans(u0, u2, u3);
                lemma_extends_trans(u0, u3, b.spec_uir());
                lemma_lowers_expr_extends(*ast, u1, b.spec_uir(), *base, br);
                if let Some(x) = start {
                    lemma_lowers_expr_extends(*ast, u2, b.spec_uir(), *x, sr->Some_0);
                }
                if let Some(x) = end {
                    lemma_lowers_expr_extends(*ast, u3, b.spec_uir(), *x, er->Some_0);
                }
            }
            res
        },
        _ => {
            proof {
                assert(false);
            }
            b.push(UirInst { tag: InstTag::Break, data: InstData::NoData, span })
        },
    }
}

// ---------- Type annotations ----------

/// Interned handles of the primitive type names.
pub struct Primitives {
    pub int_: StringId,
    pub str_: StringId,
    pub strview: StringId,
    pub bool_: StringId,
    pub float: StringId,
}

/// The handles name `int`, `str`, `strview`, `bool`, `float` in `pool`.
pub open spec fn prims_ok(p: Primitives, pool: InternPool) -> bool {
    &&& pool.contains_id(p.int_) && pool.spec_str(p.int_) == "int"@
    &&& pool.contains_id(p.str_) && pool.spec_str(p.str_) == "str"@
    &&& pool.contains_id(p.strview) && pool.spec_str(p.strview) == "strview"@
    &&& pool.contains_id(p.bool_) && pool.spec_str(p.bool_) == "bool"@
    &&& pool.contains_id(p.float) && pool.spec_str(p.float) == "float"@
}

/// `p1` only appended names to `p0`.
pub open spec fn pool_grows(p0: InternPool, p1: InternPool) -> bool {
    &&& p0@.len() <= p1@.len()
    &&& forall|i: int| 0 <= i < p0@.len() ==> #[trigger] p1@[i] == p0@[i]
}

impl Primitives {
    pub fn new(pool: &mut InternPool) -> (p: Primitives)
        requires
            old(pool).wf(),
            old(pool)@.len() + 6 < u32::MAX,
        ensures
            final(pool).wf(),
            prims_ok(p, *final(pool)),
            pool_grows(*old(pool), *final(pool)),
            final(pool)@.len() <= old(pool)@.len() + 5,
    {
        let int_ = pool.intern_str("int");
        let str_ = pool.intern_str("str");
        let strview = pool.intern_str("strview");
        let bool_ = pool.intern_str("bool");
        let float = pool.intern_str("float");
        Primitives { int_, str_, strview, bool_, float }
    }
}

/// The type an annotation denotes; unknown names and the legacy `&name`
/// syntax give the error type.
pub open spec fn resolved(pool: InternPool, name: StringId, is_view: bool) -> TypeId {
    let known = pool.contains_id(name);
    if is_view {
        TypeId(8)
    } else if known && pool.spec_str(name) == "int"@ {
        TypeId(2)
    } else if known && pool.spec_str(name) == "str"@ {
        TypeId(5)
    } else if known && pool.spec_str(name) == "strview"@ {
        TypeId(6)
    } else if known && pool.spec_str(name) == "bool"@ {
        TypeId(4)
    } else if known && pool.spec_str(name) == "float"@ {
        TypeId(3)
    } else {
        TypeId(8)
    }
}

pub open spec fn err_view(span: Span, msg: Seq<char>, code: DiagCode) -> DiagView {
    (Severity::Error, code, span, msg, Seq::<(Option<Span>, Seq<char>)>::empty(), None::<Seq<char>>)
}

/// The diagnostic of an annotation: unknown-type for an unknown name; for
/// the legacy `&name` syntax, a rename hint for `&str` and an
/// unknown-view-type error otherwise.
pub open spec fn resolve_diags(pool: InternPool, name: StringId, is_view: bool, span: Span) -> Seq<DiagView> {
    if is_view {
        if pool.spec_str(name) == "str"@ {
            seq![err_view(span, "`&str` was renamed to `strview` (final spec Q5)"@, DiagCode::UnknownType)]
        } else {
            seq![err_view(span, "unknown view type: '&"@ + pool.spec_str(name) + "' (view types are named: `strview`)"@, DiagCode::UnknownType)]
        }
    } else if resolved(pool, name, is_view) == TypeId(8) {
        seq![err_view(span, "unknown type: '"@ + pool.spec_str(name) + "'"@, DiagCode::UnknownType)]
    } else {
        Seq::empty()
    }
}

/// A handle equals a primitive's handle exactly when it names the same
/// text.
proof fn lemma_prim_eq(pool: InternPool, h: StringId, name: StringId)
    requires
        pool.wf(),
        pool.contains_id(h),
        pool.contains_id(name),
    ensures
        (name == h) <==> (pool.spec_str(name) == pool.spec_str(h)),
{
    if pool.spec_str(name) == pool.spec_str(h) && name != h {
        assert(name.0 != h.0);
        assert(pool@[name.0 as int] != pool@[h.0 as int]);
    }
}

/// Resolve a type annotation.
pub fn resolve_type(
    name: StringId,
    is_view: bool,
    span: Span,
    prims: &Primitives,
    pool: &InternPool,
    sink: &mut DiagSink,
) -> (t: TypeId)
    requires
        pool.wf(),
        prims_ok(*prims, *pool),
        pool.contains_id(name),
    ensures
        t == resolved(*pool, name, is_view),
        final(sink).items() == old(sink).items() + resolve_diags(*pool, name, is_view, span),
{
    proof {
        lemma_prim_eq(*pool, prims.int_, name);
        lemma_prim_eq(*pool, prims.str_, name);
        lemma_prim_eq(*pool, prims.strview, name);
        lemma_prim_eq(*pool, prims.bool_, name);
        lemma_prim_eq(*pool, prims.float, name);
    }
    if is_view {
        let msg = if name == prims.str_ {
            String::from_str("`&str` was renamed to `strview` (final spec Q5)")
        } else {
            crate::ownership::visit::message3("unknown view type: '&", pool.str(name), "' (view types are named: `strview`)")
        };
        sink.emit(Diag::error(span, DiagCode::UnknownType, msg));
        return pool.error_type();
    }
    if name == prims.int_ {
        pool.int_()
    } else if name == prims.str_ {
        pool.str_()
    } else if name == prims.strview {
        pool.str_view()
    } else if name == prims.bool_ {
        pool.bool_()
    } else if name == prims.float {
        pool.float()
    } else {
        let msg = crate::ownership::visit::message3("unknown type: '", pool.str(name), "'");
        sink.emit(Diag::error(span, DiagCode::UnknownType, msg));
        pool.error_type()
    }
}

// ---------- Statements ----------

/// A statement that lowering turns into one instruction (not a nested
/// function definition, not a parse-error placeholder).
pub open spec fn emits(ast: Ast, s: NodeRef) -> bool {
    !(ast.kind(s) is FunctionDef) && !(ast.kind(s) is Error)
}

/// A statement subtree: statement nodes in statement positions and
/// expression subtrees in expression positions. The body of a nested
/// function definition is not looked at.
pub open spec fn stmt_shaped(ast: Ast, s: NodeRef) -> bool
    decreases s.0, 1nat, 0nat,
{
    ast.valid(s) && match ast.kind(s) {
        NodeKind::VarDecl { initializer, .. } => initializer.0 < s.0 && expr_shaped(ast, initializer),
        NodeKind::Return(o) => o matches Some(e) ==> e.0 < s.0 && expr_shaped(ast, e),
        NodeKind::ExprStmt(e) => e.0 < s.0 && expr_shaped(ast, e),
        NodeKind::AssignOrDecl { value, .. } => value.0 < s.0 && expr_shaped(ast, value),
        NodeKind::CompoundAssign { value, .. } => value.0 < s.0 && expr_shaped(ast, value),
        NodeKind::IfStmt(v) => {
            &&& v.cond.0 < s.0 && expr_shaped(ast, v.cond)
            &&& block_shaped(ast, s, v.then_block@)
            &&& forall|j: int| 0 <= j < v.elif_branches@.len() ==> (#[trigger] v.elif_branches@[j]).cond.0 < s.0
                && expr_shaped(ast, v.elif_branches@[j].cond) && block_shaped(ast, s, v.elif_branches@[j].block@)
            &&& block_shaped(ast, s, opt_block(v.else_block))
        },
        NodeKind::WhileLoop { cond, body } => cond.0 < s.0 && expr_shaped(ast, cond) && block_shaped(ast, s, body@),
        NodeKind::ForRange { start, end, body, .. } => start.0 < s.0 && expr_shaped(ast, start) && end.0 < s.0
            && expr_shaped(ast, end) && block_shaped(ast, s, body@),
        NodeKind::Break => true,
        NodeKind::Continue => true,
        NodeKind::Error => true,
        NodeKind::FunctionDef(_) => true,
        _ => false,
    }
}

pub open spec fn block_shaped(ast: Ast, parent: NodeRef, b: Seq<NodeRef>) -> bool
    decreases parent.0, 0nat, 0nat,
{
    forall|j: int| 0 <= j < b.len() ==> (#[trigger] b[j]).0 < parent.0 && stmt_shaped(ast, b[j])
}

/// Number of instructions lowering statement `s` appends.
pub open spec fn stmt_count(ast: Ast, s: NodeRef) -> nat
    decreases s.0, 2nat, 0nat,
{
    match ast.kind(s) {
        NodeKind::VarDecl { initializer, .. } => 1 + if initializer.0 < s.0 {
            expr_count(ast, initializer)
        } else {
            0
        },
        NodeKind::Return(o) => 1 + match o {
            Some(e) => if e.0 < s.0 {
                expr_count(ast, e)
            } else {
                0
            },
            None => 0,
        },
        NodeKind::ExprStmt(e) => 1 + if e.0 < s.0 {
            expr_count(ast, e)
        } else {
            0
        },
        NodeKind::AssignOrDecl { value, .. } => 1 + if value.0 < s.0 {
            expr_count(ast, value)
        } else {
            0
        },
        NodeKind::CompoundAssign { value, .. } => 1 + if value.0 < s.0 {
            expr_count(ast, value)
        } else {
            0
        },
        NodeKind::IfStmt(v) => 1 + (if v.cond.0 < s.0 {
            expr_count(ast, v.cond)
        } else {
            0
        }) + block_count(ast, s, v.then_block@) + elif_count(ast, s, v.elif_branches@) + block_count(
            ast,
            s,
            opt_block(v.else_block),
        ),
        NodeKind::WhileLoop { cond, body } => 1 + (if cond.0 < s.0 {
            expr_count(ast, cond)
        } else {
            0
        }) + block_count(ast, s, body@),
        NodeKind::ForRange { start, end, body, .. } => 1 + (if start.0 < s.0 {
            expr_count(ast, start)
        } else {
            0
        }) + (if end.0 < s.0 {
            expr_count(ast, end)
        } else {
            0
        }) + block_count(ast, s, body@),
        NodeKind::Break => 1,
        NodeKind::Continue => 1,
        _ => 0,
    }
}

pub open spec fn block_count(ast: Ast, parent: NodeRef, b: Seq<NodeRef>) -> nat
    decreases parent.0, 0nat, b.len(),
{
    if b.len() == 0 {
        0
    } else {
        block_count(ast, parent, b.drop_last()) + if b.last().0 < parent.0 {
            stmt_count(ast, b.last())
        } else {
            0
        }
    }
}

pub open spec fn elif_count(ast: Ast, parent: NodeRef, arms: Seq<ElifBranch>) -> nat
    decreases parent.0, 1nat, arms.len(),
{
    if arms.len() == 0 {
        0
    } else {
        elif_count(ast, parent, arms.drop_last()) + (if arms.last().cond.0 < parent.0 {
            expr_count(ast, arms.last().cond)
        } else {
            0
        }) + block_count(ast, parent, arms.last().block@)
    }
}

/// Instruction `r` of `uir` is the translation of statement `s`.
pub open spec fn lowers_stmt(ast: Ast, uir: Uir, pool: InternPool, s: NodeRef, r: InstRef) -> bool
    decreases s.0, 1nat, 0nat,
{
    let inst = uir.spec_inst(r);
    &&& ast.valid(s)
    &&& uir.valid(r)
    &&& inst.span == ast.spec_span(s)
    &&& match ast.kind(s) {
        NodeKind::VarDecl { name, mutable, type_annotation, initializer } => {
            &&& inst.tag == InstTag::VarDecl
            &&& inst.data is VarDecl
            &&& inst.data->VarDecl_0.name == name.name
            &&& inst.data->VarDecl_0.mutable == mutable
            &&& inst.data->VarDecl_0.ty == match type_annotation {
                Some(a) => Some(resolved(pool, a.name, a.is_view)),
                None => None,
            }
            &&& initializer.0 < s.0 && lowers_expr(ast, uir, initializer, inst.data->VarDecl_0.initializer)
        },
        NodeKind::Return(Some(e)) => inst.tag == InstTag::Return && inst.data is UnOp && e.0 < s.0 && lowers_expr(
            ast,
            uir,
            e,
            inst.data->UnOp_0,
        ),
        NodeKind::Return(None) => inst.tag == InstTag::ReturnVoid && inst.data is NoData,
        NodeKind::ExprStmt(e) => inst.tag == InstTag::ExprStmt && inst.data is UnOp && e.0 < s.0 && lowers_expr(
            ast,
            uir,
            e,
            inst.data->UnOp_0,
        ),
        NodeKind::AssignOrDecl { target, value } => {
            &&& inst.tag == InstTag::AssignOrDecl
            &&& inst.data is AssignOrDecl
            &&& inst.data->AssignOrDecl_0.name == target.name
            &&& value.0 < s.0 && lowers_expr(ast, uir, value, inst.data->AssignOrDecl_0.value)
        },
        NodeKind::CompoundAssign { target, op, value } => {
            &&& inst.tag == InstTag::CompoundAssign
            &&& inst.data is CompoundAssign
            &&& inst.data->CompoundAssign_0.name == target.name
            &&& inst.data->CompoundAssign_0.op == op
            &&& value.0 < s.0 && lowers_expr(ast, uir, value, inst.data->CompoundAssign_0.value)
        },
        NodeKind::IfStmt(v) => {
            let w = inst.data->IfStmt_0;
            &&& inst.tag == InstTag::IfStmt
            &&& inst.data is IfStmt
            &&& v.cond.0 < s.0 && lowers_expr(ast, uir, v.cond, w.cond)
            &&& lowers_block(ast, uir, pool, s, v.then_block@, w.then_stmts@)
            &&& w.elif_branches@.len() == v.elif_branches@.len()
            &&& forall|j: int| 0 <= j < v.elif_branches@.len() ==> (#[trigger] v.elif_branches@[j]).cond.0 < s.0
                && lowers_expr(ast, uir, v.elif_branches@[j].cond, w.elif_branches@[j].cond) && lowers_block(
                ast,
                uir,
                pool,
                s,
                v.elif_branches@[j].block@,
                w.elif_branches@[j].body@,
            )
            &&& (v.else_block is Some) == (w.else_stmts is Some)
            &&& (v.else_block matches Some(eb) ==> lowers_block(ast, uir, pool, s, eb@, w.else_stmts->Some_0@))
        },
        NodeKind::WhileLoop { cond, body } => {
            &&& inst.tag == InstTag::WhileLoop
            &&& inst.data is WhileLoop
            &&& cond.0 < s.0 && lowers_expr(ast, uir, cond, inst.data->WhileLoop_0.cond)
            &&& lowers_block(ast, uir, pool, s, body@, inst.data->WhileLoop_0.body@)
        },
        NodeKind::ForRange { var, start, end, body, .. } => {
            &&& inst.tag == InstTag::ForRange
            &&& inst.data is ForRange
            &&& inst.data->ForRange_0.var == var.name
            &&& start.0 < s.0 && lowers_expr(ast, uir, start, inst.data->ForRange_0.start)
            &&& end.0 < s.0 && lowers_expr(ast, uir, end, inst.data->ForRange_0.end)
            &&& lowers_block(ast, uir, pool, s, body@, inst.data->ForRange_0.body@)
        },
        NodeKind::Break => inst.tag == InstTag::Break && inst.data is NoData,
        NodeKind::Continue => inst.tag == InstTag::Continue && inst.data is NoData,
        _ => false,
    }
}

/// `refs` are the translations of the statements of `stmts` that lower to
/// an instruction, in order.
pub open spec fn lowers_block(ast: Ast, uir: Uir, pool: InternPool, parent: NodeRef, stmts: Seq<NodeRef>, refs: Seq<InstRef>) -> bool
    decreases parent.0, 0nat, stmts.len(),
{
    if stmts.len() == 0 {
        refs.len() == 0
    } else {
        let s = stmts.last();
        if emits(ast, s) {
            &&& refs.len() > 0
            &&& s.0 < parent.0
            &&& lowers_stmt(ast, uir, pool, s, refs.last())
            &&& lowers_block(ast, uir, pool, parent, stmts.drop_last(), refs.drop_last())
        } else {
            lowers_block(ast, uir, pool, parent, stmts.drop_last(), refs)
        }
    }
}

pub proof fn lemma_lowers_stmt_extends(ast: Ast, u0: Uir, u1: Uir, pool: InternPool, s: NodeRef, r: InstRef)
    requires
        lowers_stmt(ast, u0, pool, s, r),
        insts_extend(u0, u1),
    ensures
        lowers_stmt(ast, u1, pool, s, r),
    decreases s.0, 1nat,
{
    assert(u1.spec_inst(r) == u0.spec_inst(r));
    let inst = u0.spec_inst(r);
    match ast.kind(s) {
        NodeKind::VarDecl { initializer, .. } => {
            lemma_lowers_expr_extends(ast, u0, u1, initializer, inst.data->VarDecl_0.initializer);
        },
        NodeKind::Return(Some(e)) => {
            lemma_lowers_expr_extends(ast, u0, u1, e, inst.data->UnOp_0);
        },
        NodeKind::ExprStmt(e) => {
            lemma_lowers_expr_extends(ast, u0, u1, e, inst.data->UnOp_0);
        },
        NodeKind::AssignOrDecl { value, .. } => {
            lemma_lowers_expr_extends(ast, u0, u1, value, inst.data->AssignOrDecl_0.value);
        },
        NodeKind::CompoundAssign { value, .. } => {
            lemma_lowers_expr_extends(ast, u0, u1, value, inst.data->CompoundAssign_0.value);
        },
        NodeKind::IfStmt(v) => {
            let w = inst.data->IfStmt_0;
            lemma_lowers_expr_extends(ast, u0, u1, v.cond, w.cond);
            lemma_lowers_block_extends(ast, u0, u1, pool, s, v.then_block@, w.then_stmts@);
            assert forall|j: int| 0 <= j < v.elif_branches@.len() implies (#[trigger] v.elif_branches@[j]).cond.0 < s.0
                && lowers_expr(ast, u1, v.elif_branches@[j].cond, w.elif_branches@[j].cond) && lowers_block(
                ast,
                u1,
                pool,
                s,
                v.elif_branches@[j].block@,
                w.elif_branches@[j].body@,
            ) by {
                lemma_lowers_expr_extends(ast, u0, u1, v.elif_branches@[j].cond, w.elif_branches@[j].cond);
                lemma_lowers_block_extends(ast, u0, u1, pool, s, v.elif_branches@[j].block@, w.elif_branches@[j].body@);
            }
            if let Some(eb) = v.else_block {
                lemma_lowers_block_extends(ast, u0, u1, pool, s, eb@, w.else_stmts->Some_0@);
            }
        },
        NodeKind::WhileLoop { cond, body } => {
            lemma_lowers_expr_extends(ast, u0, u1, cond, inst.data->WhileLoop_0.cond);
            lemma_lowers_block_extends(ast, u0, u1, pool, s, body@, inst.data->WhileLoop_0.body@);
        },
        NodeKind::ForRange { start, end, body, .. } => {
            lemma_lowers_expr_extends(ast, u0, u1, start, inst.data->ForRange_0.start);
            lemma_lowers_expr_extends(ast, u0, u1, end, inst.data->ForRange_0.end);
            lemma_lowers_block_extends(ast, u0, u1, pool, s, body@, inst.data->ForRange_0.body@);
        },
        _ => {},
    }
}

pub proof fn lemma_lowers_block_extends(
    ast: Ast,
    u0: Uir,
    u1: Uir,
    pool: InternPool,
    parent: NodeRef,
    stmts: Seq<NodeRef>,
    refs: Seq<InstRef>,
)
    requires
        lowers_block(ast, u0, pool, parent, stmts, refs),
        insts_extend(u0, u1),
    ensures
        lowers_block(ast, u1, pool, parent, stmts, refs),
    decreases parent.0, 0nat, stmts.len(),
{
    if stmts.len() > 0 {
        let s = stmts.last();
        if emits(ast, s) {
            lemma_lowers_stmt_extends(ast, u0, u1, pool, s, refs.last());
            lemma_lowers_block_extends(ast, u0, u1, pool, parent, stmts.drop_last(), refs.drop_last());
        } else {
            lemma_lowers_block_extends(ast, u0, u1, pool, parent, stmts.drop_last(), refs);
        }
    }
}

proof fn lemma_block_count_prefix(ast: Ast, parent: NodeRef, s: Seq<NodeRef>, k: int)
    requires
        0 <= k <= s.len(),
    ensures
        block_count(ast, parent, s.take(k)) <= block_count(ast, parent, s),
    decreases s.len() - k,
{
    if k < s.len() {
        lemma_block_count_prefix(ast, parent, s, k + 1);
        assert(s.take(k + 1).drop_last() =~= s.take(k));
    } else {
        assert(s.take(k) =~= s);
    }
}

proof fn lemma_elif_count_prefix(ast: Ast, parent: NodeRef, s: Seq<ElifBranch>, k: int)
    requires
        0 <= k <= s.len(),
    ensures
        elif_count(ast, parent, s.take(k)) <= elif_count(ast, parent, s),
    decreases s.len() - k,
{
    if k < s.len() {
        lemma_elif_count_prefix(ast, parent, s, k + 1);
        assert(s.take(k + 1).drop_last() =~= s.take(k));
    } else {
        assert(s.take(k) =~= s);
    }
}

/// Names that lowering prints or resolves are interned.
pub open spec fn node_names_ok(k: NodeKind, pool: InternPool) -> bool {
    match k {
        NodeKind::VarDecl { type_annotation, .. } => type_annotation matches Some(a) ==> pool.contains_id(a.name),
        NodeKind::ForRange { iterator, .. } => pool.contains_id(iterator.name),
        NodeKind::FunctionDef(f) => {
            &&& forall|j: int| 0 <= j < f.params@.len() ==> pool.contains_id((#[trigger] f.params@[j]).type_annotation.name)
            &&& f.return_type matches Some(t) ==> pool.contains_id(t.name)
        },
        _ => true,
    }
}

pub open spec fn ast_names_ok(ast: Ast, pool: InternPool) -> bool {
    forall|i: int| 0 <= i < ast.nodes@.len() ==> node_names_ok(#[trigger] ast.nodes@[i].kind, pool)
}

/// Diagnostic codes statement lowering may add.
pub open spec fn stmt_code(c: DiagCode) -> bool {
    c == DiagCode::UnknownType || c == DiagCode::NestedFunctionDef || c == DiagCode::ParseError
}

// ---------- Diagnostics of the lowering ----------

pub open spec fn range_msg(name: Seq<char>) -> Seq<char> {
    "only `range(...)` is supported in `for` loops in v0.1, got `"@ + name + "`"@
}

/// The diagnostics of lowering statement `s`, in order: an unknown type
/// annotation, a nested function definition, a `for` over anything but
/// `range`, and those of the nested blocks.
pub open spec fn stmt_diags(ast: Ast, pool: InternPool, s: NodeRef) -> Seq<DiagView>
    decreases s.0, 2nat, 0int,
{
    match ast.kind(s) {
        NodeKind::VarDecl { type_annotation, .. } => match type_annotation {
            Some(a) => resolve_diags(pool, a.name, a.is_view, a.span),
            None => Seq::empty(),
        },
        NodeKind::FunctionDef(_) => seq![
            err_view(ast.spec_span(s), "nested function definitions are not supported"@, DiagCode::NestedFunctionDef),
        ],
        NodeKind::IfStmt(v) => block_diags(ast, pool, s, v.then_block@) + elif_diags(ast, pool, s, v.elif_branches@)
            + block_diags(ast, pool, s, opt_block(v.else_block)),
        NodeKind::WhileLoop { body, .. } => block_diags(ast, pool, s, body@),
        NodeKind::ForRange { iterator, body, .. } => (if pool.spec_str(iterator.name) != "range"@ {
            seq![err_view(iterator.span, range_msg(pool.spec_str(iterator.name)), DiagCode::ParseError)]
        } else {
            Seq::empty()
        }) + block_diags(ast, pool, s, body@),
        _ => Seq::empty(),
    }
}

/// The diagnostics of lowering the statements `b` under `parent`.
pub open spec fn block_diags(ast: Ast, pool: InternPool, parent: NodeRef, b: Seq<NodeRef>) -> Seq<DiagView>
    decreases parent.0, 0nat, b.len() as int,
{
    if b.len() == 0 {
        Seq::empty()
    } else {
        block_diags(ast, pool, parent, b.drop_last()) + if b.last().0 < parent.0 {
            stmt_diags(ast, pool, b.last())
        } else {
            Seq::empty()
        }
    }
}

/// The diagnostics of lowering the bodies of the `elif` arms `arms`.
pub open spec fn elif_diags(ast: Ast, pool: InternPool, parent: NodeRef, arms: Seq<ElifBranch>) -> Seq<DiagView>
    decreases parent.0, 1nat, arms.len() as int,
{
    if arms.len() == 0 {
        Seq::empty()
    } else {
        elif_diags(ast, pool, parent, arms.drop_last()) + block_diags(ast, pool, parent, arms.last().block@)
    }
}

/// `d1` extends `d0` with diagnostics whose codes satisfy `ok`.
pub open spec fn appended_codes(d0: Seq<DiagView>, d1: Seq<DiagView>, ok: spec_fn(DiagCode) -> bool) -> bool {
    &&& d0.len() <= d1.len()
    &&& forall|i: int| 0 <= i < d0.len() ==> #[trigger] d1[i] == d0[i]
    &&& forall|i: int| d0.len() <= i < d1.len() ==> ok(#[trigger] d1[i].1)
}

proof fn lemma_appended_trans(d0: Seq<DiagView>, d1: Seq<DiagView>, d2: Seq<DiagView>, ok: spec_fn(DiagCode) -> bool)
    requires
        appended_codes(d0, d1, ok),
        appended_codes(d1, d2, ok),
    ensures
        appended_codes(d0, d2, ok),
{
    assert forall|i: int| 0 <= i < d0.len() implies #[trigger] d2[i] == d0[i] by {
        assert(d1[i] == d0[i]);
    }
    assert forall|i: int| d0.len() <= i < d2.len() implies ok(#[trigger] d2[i].1) by {
        if i < d1.len() {
            assert(d2[i] == d1[i]);
        }
    }
}

/// The context every statement lowering needs.
pub open spec fn lower_ctx(ast: Ast, pool: InternPool, prims: Primitives) -> bool {
    &&& ast.wf()
    &&& pool.wf()
    &&& ast_names_ok(ast, pool)
    &&& prims_ok(prims, pool)
}

/// Lower the statements `stmts` (children of `parent`), in order.
pub fn lower_block(
    b: &mut UirBuilder,
    ast: &Ast,
    stmts: &Vec<NodeRef>,
    parent: NodeRef,
    prims: &Primitives,
    pool: &InternPool,
    sink: &mut DiagSink,
) -> (out: Vec<InstRef>)
    requires
        old(b).wf(),
        lower_ctx(*ast, *pool, *prims),
        block_shaped(*ast, parent, stmts@),
        old(b).spec_len() + block_count(*ast, parent, stmts@) < u32::MAX,
    ensures
        final(b).wf(),
        extends(old(b).spec_uir(), final(b).spec_uir()),
        final(b).spec_len() == old(b).spec_len() + block_count(*ast, parent, stmts@),
        lowers_block(*ast, final(b).spec_uir(), *pool, parent, stmts@, out@),
        irefs_below(out@, final(b).spec_len()),
        appended_codes(old(sink).items(), final(sink).items(), |c: DiagCode| stmt_code(c)),
        final(sink).items() == old(sink).items() + block_diags(*ast, *pool, parent, stmts@),
    decreases parent.0, 1nat,
{
    let mut out: Vec<InstRef> = Vec::new();
    let mut i: usize = 0;
    assert(stmts@.take(0) =~= Seq::<NodeRef>::empty());
    while i < stmts.len()
        invariant
            i <= stmts@.len(),
            b.wf(),
            lower_ctx(*ast, *pool, *prims),
            block_shaped(*ast, parent, stmts@),
            old(b).spec_len() + block_count(*ast, parent, stmts@) < u32::MAX,
            extends(old(b).spec_uir(), b.spec_uir()),
            b.spec_len() == old(b).spec_len() + block_count(*ast, parent, stmts@.take(i as int)),
            block_count(*ast, parent, stmts@.take(i as int)) <= block_count(*ast, parent, stmts@),
            lowers_block(*ast, b.spec_uir(), *pool, parent, stmts@.take(i as int), out@),
            irefs_below(out@, b.spec_len()),
            appended_codes(old(sink).items(), sink.items(), |c: DiagCode| stmt_code(c)),
            sink.items() == old(sink).items() + block_diags(*ast, *pool, parent, stmts@.take(i as int)),
        decreases stmts@.len() - i,
    {
        let s = stmts[i];
        proof {
            let t = stmts@.take(i + 1);
            assert(t.drop_last() =~= stmts@.take(i as int));
            assert(t.last() == s);
            assert(s.0 < parent.0 && stmt_shaped(*ast, s));
            lemma_block_count_prefix(*ast, parent, stmts@, i + 1);
        }
        let ghost u0 = b.spec_uir();
        let ghost out0 = out@;
        let ghost d0 = sink.items();
        gen_stmt(b, ast, s, prims, pool, sink, &mut out);
        proof {
            lemma_lowers_block_extends(*ast, u0, b.spec_uir(), *pool, parent, stmts@.take(i as int), out0);
            lemma_extends_trans(old(b).spec_uir(), u0, b.spec_uir());
            lemma_appended_trans(old(sink).items(), d0, sink.items(), |c: DiagCode| stmt_code(c));
            let t = stmts@.take(i + 1);
            if emits(*ast, s) {
                assert(out@.drop_last() == out0);
            }
            assert(block_diags(*ast, *pool, parent, t) == block_diags(*ast, *pool, parent, stmts@.take(i as int)) + stmt_diags(*ast, *pool, s));
            assert(sink.items() =~= old(sink).items() + block_diags(*ast, *pool, parent, t));
        }
        i = i + 1;
    }
    assert(stmts@.take(stmts@.len() as int) =~= stmts@);
    out
}

/// Lower statement `s`, appending its instruction (if it has one) to
/// `out`.
pub fn gen_stmt(
    b: &mut UirBuilder,
    ast: &Ast,
    s: NodeRef,
    prims: &Primitives,
    pool: &InternPool,
    sink: &mut DiagSink,
    out: &mut Vec<InstRef>,
)
    requires
        old(b).wf(),
        lower_ctx(*ast, *pool, *prims),
        stmt_shaped(*ast, s),
        old(b).spec_len() + stmt_count(*ast, s) < u32::MAX,
        irefs_below(old(out)@, old(b).spec_len()),
    ensures
        final(b).wf(),
        extends(old(b).spec_uir(), final(b).spec_uir()),
        final(b).spec_len() == old(b).spec_len() + stmt_count(*ast, s),
        emits(*ast, s) ==> {
            &&& final(out)@.len() == old(out)@.len() + 1
            &&& final(out)@.drop_last() == old(out)@
            &&& lowers_stmt(*ast, final(b).spec_uir(), *pool, s, final(out)@.last())
        },
        !emits(*ast, s) ==> final(out)@ == old(out)@,
        irefs_below(final(out)@, final(b).spec_len()),
        appended_codes(old(sink).items(), final(sink).items(), |c: DiagCode| stmt_code(c)),
        final(sink).items() == old(sink).items() + stmt_diags(*ast, *pool, s),
    decreases s.0, 3nat,
{
    let span = ast.span(s);
    let node = ast.node(s);
    proof {
        ast.lemma_below(s);
        assert(node_names_ok(ast.nodes@[s.0 as int].kind, *pool));
    }
    let ghost u0 = b.spec_uir();
    let ghost d0 = sink.items();
    let ghost out0 = out@;
    let r = match &node.kind {
        NodeKind::VarDecl { name, mutable, type_annotation, initializer } => {
            let init = gen_expr(b, ast, *initializer);
            let ty = match type_annotation {
                Some(a) => Some(resolve_type(a.name, a.is_view, a.span, prims, pool, sink)),
                None => None,
            };
            assert(sink.items() =~= d0 + stmt_diags(*ast, *pool, s));
            let ghost u1 = b.spec_uir();
            let r = b.push(UirInst {
                tag: InstTag::VarDecl,
                data: InstData::VarDecl(VarDeclView { name: name.name, mutable: *mutable, ty, initializer: init }),
                span,
            });
            proof {
                lemma_lowers_expr_extends(*ast, u1, b.spec_uir(), *initializer, init);
            }
            r
        },
        NodeKind::Return(o) => match o {
            Some(e) => {
                let v = gen_expr(b, ast, *e);
                let ghost u1 = b.spec_uir();
                let r = b.push(UirInst { tag: InstTag::Return, data: InstData::UnOp(v), span });
                proof {
                    lemma_lowers_expr_extends(*ast, u1, b.spec_uir(), *e, v);
                }
                r
            },
            None => b.push(UirInst { tag: InstTag::ReturnVoid, data: InstData::NoData, span }),
        },
        NodeKind::ExprStmt(e) => {
            let v = gen_expr(b, ast, *e);
            let ghost u1 = b.spec_uir();
            let r = b.push(UirInst { tag: InstTag::ExprStmt, data: InstData::UnOp(v), span });
            proof {
                lemma_lowers_expr_extends(*ast, u1, b.spec_uir(), *e, v);
            }
            r
        },
        NodeKind::FunctionDef(_) => {
            sink.emit(Diag::error(span, DiagCode::NestedFunctionDef, String::from_str("nested function definitions are not supported")));
            assert(out@ == out0);
            assert(sink.items() =~= d0 + stmt_diags(*ast, *pool, s));
            return ;
        },
        NodeKind::AssignOrDecl { target, value } => {
            let v = gen_expr(b, ast, *value);
            let ghost u1 = b.spec_uir();
            let r = b.push(UirInst {
                tag: InstTag::AssignOrDecl,
                data: InstData::AssignOrDecl(AssignOrDeclView { name: target.name, value: v }),
                span,
            });
            proof {
                lemma_lowers_expr_extends(*ast, u1, b.spec_uir(), *value, v);
            }
            r
        },
        NodeKind::CompoundAssign { target, op, value } => {
            let v = gen_expr(b, ast, *value);
            let ghost u1 = b.spec_uir();
            let r = b.push(UirInst {
                tag: InstTag::CompoundAssign,
                data: InstData::CompoundAssign(CompoundAssignView { name: target.name, op: *op, value: v }),
                span,
            });
            proof {
                lemma_lowers_expr_extends(*ast, u1, b.spec_uir(), *value, v);
            }
            r
        },
        NodeKind::IfStmt(v) => gen_if(b, ast, s, v, span, prims, pool, sink),
        NodeKind::WhileLoop { cond, body } => {
            let c = gen_expr(b, ast, *cond);
            let ghost u1 = b.spec_uir();
            let ghost d1 = sink.items();
            let body_refs = lower_block(b, ast, body, s, prims, pool, sink);
            assert(sink.items() =~= d0 + stmt_diags(*ast, *pool, s));
            let ghost u2 = b.spec_uir();
            let r = b.push(UirInst {
                tag: InstTag::WhileLoop,
                data: InstData::WhileLoop(WhileLoopView { cond: c, body: body_refs }),
                span,
            });
            proof {
                lemma_extends_trans(u1, u2, b.spec_uir());
                lemma_lowers_expr_extends(*ast, u1, b.spec_uir(), *cond, c);
                lemma_lowers_block_extends(*ast, u2, b.spec_uir(), *pool, s, body@, body_refs@);
            }
            r
        },
        NodeKind::ForRange { var, iterator, start, end, body } => {
            if !crate::text::str_eq(pool.str(iterator.name), "range") {
                let msg = crate::ownership::visit::message3(
                    "only `range(...)` is supported in `for` loops in v0.1, got `",
                    pool.str(iterator.name),
                    "`",
                );
                sink.emit(Diag::error(iterator.span, DiagCode::ParseError, msg));
            }
            let ghost d1 = sink.items();
            assert(d1 =~= d0 + (if pool.spec_str(iterator.name) != "range"@ {
                seq![err_view(iterator.span, range_msg(pool.spec_str(iterator.name)), DiagCode::ParseError)]
            } else {
                Seq::<DiagView>::empty()
            }));
            let st = gen_expr(b, ast, *start);
            let ghost u1 = b.spec_uir();
            let en = gen_expr(b, ast, *end);
            let ghost u2 = b.spec_uir();
            let body_refs = lower_block(b, ast, body, s, prims, pool, sink);
            assert(sink.items() =~= d0 + stmt_diags(*ast, *pool, s));
            let ghost u3 = b.spec_uir();
            let r = b.push(UirInst {
                tag: InstTag::ForRange,
                data: InstData::ForRange(ForRangeView { var: var.name, start: st, end: en, body: body_refs }),
                span,
            });
            proof {
                lemma_extends_trans(u1, u2, u3);
                lemma_extends_trans(u1, u3, b.spec_uir());
                lemma_extends_trans(u2, u3, b.spec_uir());
                lemma_lowers_expr_extends(*ast, u1, b.spec_uir(), *start, st);
                lemma_lowers_expr_extends(*ast, u2, b.spec_uir(), *end, en);
                lemma_lowers_block_extends(*ast, u3, b.spec_uir(), *pool, s, body@, body_refs@);
                lemma_appended_trans(d0, d1, sink.items(), |c: DiagCode| stmt_code(c));
            }
            r
        },
        NodeKind::Break => b.push(UirInst { tag: InstTag::Break, data: InstData::NoData, span }),
        NodeKind::Continue => b.push(UirInst { tag: InstTag::Continue, data: InstData::NoData, span }),
        NodeKind::Error => {
            return ;
        },
        _ => {
            proof {
                assert(false);
            }
            return ;
        },
    };
    proof {
        lemma_irefs_below_mono(out@, u0.instructions@.len() as int, b.spec_len());
    }
    out.push(r);
}

/// Lower the `if` statement `s` with payload `v`.
fn gen_if(
    b: &mut UirBuilder,
    ast: &Ast,
    s: NodeRef,
    v: &IfNode,
    span: Span,
    prims: &Primitives,
    pool: &InternPool,
    sink: &mut DiagSink,
) -> (r: InstRef)
    requires
        old(b).wf(),
        lower_ctx(*ast, *pool, *prims),
        stmt_shaped(*ast, s),
        ast.kind(s) == NodeKind::IfStmt(*v),
        span == ast.spec_span(s),
        old(b).spec_len() + stmt_count(*ast, s) < u32::MAX,
    ensures
        final(b).wf(),
        extends(old(b).spec_uir(), final(b).spec_uir()),
        final(b).spec_len() == old(b).spec_len() + stmt_count(*ast, s),
        r.0 < final(b).spec_len(),
        lowers_stmt(*ast, final(b).spec_uir(), *pool, s, r),
        appended_codes(old(sink).items(), final(sink).items(), |c: DiagCode| stmt_code(c)),
        final(sink).items() == old(sink).items() + stmt_diags(*ast, *pool, s),
    decreases s.0, 2nat,
{
    let ghost total = stmt_count(*ast, s);
    let ghost nc = expr_count(*ast, v.cond);
    let ghost nt = block_count(*ast, s, v.then_block@);
    let ghost na = elif_count(*ast, s, v.elif_branches@);
    let ghost ne = block_count(*ast, s, opt_block(v.else_block));
    assert(total == 1 + nc + nt + na + ne);
    let ghost u_start = b.spec_uir();
    let ghost d_start = sink.items();
    let c = gen_expr(b, ast, v.cond);
    let ghost u1 = b.spec_uir();
    let then_refs = lower_block(b, ast, &v.then_block, s, prims, pool, sink);
    let ghost d_then = sink.items();
    let ghost u2 = b.spec_uir();
    proof {
        lemma_extends_trans(u_start, u1, u2);
        lemma_lowers_expr_extends(*ast, u1, u2, v.cond, c);
    }
    let mut arms: Vec<UirElif> = Vec::new();
    let mut i: usize = 0;
    assert(v.elif_branches@.take(0) =~= Seq::<ElifBranch>::empty());
    while i < v.elif_branches.len()
        invariant
            i <= v.elif_branches@.len(),
            b.wf(),
            lower_ctx(*ast, *pool, *prims),
            stmt_shaped(*ast, s),
            ast.kind(s) == NodeKind::IfStmt(*v),
            u_start.instructions@.len() + total < u32::MAX,
            total == 1 + nc + nt + na + ne,
            na == elif_count(*ast, s, v.elif_branches@),
            extends(u_start, b.spec_uir()),
            b.spec_len() == u_start.instructions@.len() + nc + nt + elif_count(*ast, s, v.elif_branches@.take(i as int)),
            elif_count(*ast, s, v.elif_branches@.take(i as int)) <= na,
            lowers_expr(*ast, b.spec_uir(), v.cond, c),
            lowers_block(*ast, b.spec_uir(), *pool, s, v.then_block@, then_refs@),
            c.0 < b.spec_len(),
            irefs_below(then_refs@, b.spec_len()),
            arms@.len() == i,
            forall|j: int| 0 <= j < i ==> lowers_expr(*ast, b.spec_uir(), (#[trigger] v.elif_branches@[j]).cond, arms@[j].cond)
                && lowers_block(*ast, b.spec_uir(), *pool, s, v.elif_branches@[j].block@, arms@[j].body@),
            forall|j: int| 0 <= j < i ==> (#[trigger] arms@[j]).cond.0 < b.spec_len() && irefs_below(arms@[j].body@, b.spec_len()),
            appended_codes(d_start, sink.items(), |c: DiagCode| stmt_code(c)),
            d_start == old(sink).items(),
            u_start == old(b).spec_uir(),
            d_then == d_start + block_diags(*ast, *pool, s, v.then_block@),
            sink.items() == d_then + elif_diags(*ast, *pool, s, v.elif_branches@.take(i as int)),
        decreases v.elif_branches@.len() - i,
    {
        let arm = &v.elif_branches[i];
        proof {
            let t = v.elif_branches@.take(i + 1);
            assert(t.drop_last() =~= v.elif_branches@.take(i as int));
            assert(t.last() == *arm);
            lemma_elif_count_prefix(*ast, s, v.elif_branches@, i + 1);
            assert(arm.cond.0 < s.0 && expr_shaped(*ast, arm.cond) && block_shaped(*ast, s, arm.block@));
        }
        let ghost ua = b.spec_uir();
        let ghost da = sink.items();
        let ec = gen_expr(b, ast, arm.cond);
        let ghost ub = b.spec_uir();
        let body = lower_block(b, ast, &arm.block, s, prims, pool, sink);
        let ghost uc = b.spec_uir();
        proof {
            lemma_extends_trans(ua, ub, uc);
            lemma_extends_trans(u_start, ua, uc);
            lemma_lowers_expr_extends(*ast, ub, uc, arm.cond, ec);
            lemma_lowers_expr_extends(*ast, ua, uc, v.cond, c);
            lemma_lowers_block_extends(*ast, ua, uc, *pool, s, v.then_block@, then_refs@);
            lemma_irefs_below_mono(then_refs@, ua.instructions@.len() as int, b.spec_len());
            assert forall|j: int| 0 <= j < i implies lowers_expr(*ast, uc, (#[trigger] v.elif_branches@[j]).cond, arms@[j].cond)
                && lowers_block(*ast, uc, *pool, s, v.elif_branches@[j].block@, arms@[j].body@) by {
                lemma_lowers_expr_extends(*ast, ua, uc, v.elif_branches@[j].cond, arms@[j].cond);
                lemma_lowers_block_extends(*ast, ua, uc, *pool, s, v.elif_branches@[j].block@, arms@[j].body@);
            }
            assert forall|j: int| 0 <= j < i implies (#[trigger] arms@[j]).cond.0 < b.spec_len() && irefs_below(arms@[j].body@, b.spec_len()) by {
                lemma_irefs_below_mono(arms@[j].body@, ua.instructions@.len() as int, b.spec_len());
            }
            lemma_appended_trans(d_start, da, sink.items(), |c: DiagCode| stmt_code(c));
            let t = v.elif_branches@.take(i + 1);
            assert(elif_diags(*ast, *pool, s, t) == elif_diags(*ast, *pool, s, v.elif_branches@.take(i as int)) + block_diags(*ast, *pool, s, arm.block@));
            assert(sink.items() =~= d_then + elif_diags(*ast, *pool, s, t));
        }
        let ghost arms0 = arms@;
        arms.push(UirElif { cond: ec, body });
        proof {
            assert forall|j: int| 0 <= j < i + 1 implies lowers_expr(*ast, uc, (#[trigger] v.elif_branches@[j]).cond, arms@[j].cond)
                && lowers_block(*ast, uc, *pool, s, v.elif_branches@[j].block@, arms@[j].body@) by {
                if j < i {
                    assert(arms@[j] == arms0[j]);
                }
            }
            assert forall|j: int| 0 <= j < i + 1 implies (#[trigger] arms@[j]).cond.0 < b.spec_len() && irefs_below(arms@[j].body@, b.spec_len()) by {
                if j < i {
                    assert(arms@[j] == arms0[j]);
                }
            }
        }
        i = i + 1;
    }
    assert(v.elif_branches@.take(v.elif_branches@.len() as int) =~= v.elif_branches@);
    let ghost u3 = b.spec_uir();
    let ghost d3 = sink.items();
    let else_refs = match &v.else_block {
        Some(eb) => {
            assert(opt_block(v.else_block) == eb@);
            Some(lower_block(b, ast, eb, s, prims, pool, sink))
        },
        None => None,
    };
    let ghost u4 = b.spec_uir();
    proof {
        if else_refs is Some {
            lemma_appended_trans(d_start, d3, sink.items(), |c: DiagCode| stmt_code(c));
        }
        assert(sink.items() =~= d_start + stmt_diags(*ast, *pool, s));
        lemma_extends_trans(u_start, u3, u4);
        lemma_irefs_below_mono(then_refs@, u3.instructions@.len() as int, u4.instructions@.len() as int);
        assert forall|j: int| 0 <= j < arms@.len() implies (#[trigger] arms@[j]).cond.0 < u4.instructions@.len() && irefs_below(arms@[j].body@, u4.instructions@.len() as int) by {
            lemma_irefs_below_mono(arms@[j].body@, u3.instructions@.len() as int, u4.instructions@.len() as int);
        }
    }
    let view = IfStmtView { cond: c, then_stmts: then_refs, elif_branches: arms, else_stmts: else_refs };
    let ghost w = view;
    let r = b.push(UirInst { tag: InstTag::IfStmt, data: InstData::IfStmt(view), span });
    proof {
        let uf = b.spec_uir();
        lemma_extends_trans(u3, u4, uf);
        lemma_extends_trans(u_start, u4, uf);
        lemma_lowers_expr_extends(*ast, u3, uf, v.cond, c);
        lemma_lowers_block_extends(*ast, u3, uf, *pool, s, v.then_block@, w.then_stmts@);
        assert forall|j: int| 0 <= j < v.elif_branches@.len() implies (#[trigger] v.elif_branches@[j]).cond.0 < s.0
            && lowers_expr(*ast, uf, v.elif_branches@[j].cond, w.elif_branches@[j].cond) && lowers_block(
            *ast,
            uf,
            *pool,
            s,
            v.elif_branches@[j].block@,
            w.elif_branches@[j].body@,
        ) by {
            lemma_lowers_expr_extends(*ast, u3, uf, v.elif_branches@[j].cond, w.elif_branches@[j].cond);
            lemma_lowers_block_extends(*ast, u3, uf, *pool, s, v.elif_branches@[j].block@, w.elif_branches@[j].body@);
        }
        if v.else_block is Some {
            lemma_lowers_block_extends(*ast, u4, uf, *pool, s, v.else_block->Some_0@, w.else_stmts->Some_0@);
        }
    }
    r
}

// ---------- Functions and programs ----------

/// A parameter as lowered: its annotation resolved.
pub open spec fn param_of(pool: InternPool, p: Param) -> UirParam {
    UirParam {
        name: p.name.name,
        ty: resolved(pool, p.type_annotation.name, p.type_annotation.is_view),
        mode: p.mode,
        span: p.span,
    }
}

pub open spec fn is_main(pool: InternPool, name: StringId) -> bool {
    pool.contains_id(name) && pool.spec_str(name) == "main"@
}

/// `fb` is the translation of the function definition at node `fr`:
/// same name, parameters with their types resolved, return type resolved
/// (`void` when absent), and body statements translated.
pub open spec fn lowers_function(ast: Ast, uir: Uir, pool: InternPool, fr: NodeRef, fb: FuncBody) -> bool {
    &&& ast.kind(fr) is FunctionDef
    &&& {
        let f = ast.kind(fr)->FunctionDef_0;
        &&& fb.name == f.name.name
        &&& fb.span == f.name.span
        &&& fb.params@.len() == f.params@.len()
        &&& forall|j: int| 0 <= j < f.params@.len() ==> #[trigger] fb.params@[j] == param_of(pool, f.params@[j])
        &&& fb.return_type == match f.return_type {
            Some(t) => resolved(pool, t.name, t.is_view),
            None => TypeId(0),
        }
        &&& lowers_block(ast, uir, pool, fr, f.body@, fb.body@)
    }
}

/// `main` declared with parameters or a return type.
pub open spec fn bad_main(ast: Ast, pool: InternPool, fr: NodeRef) -> bool {
    let f = ast.kind(fr)->FunctionDef_0;
    is_main(pool, f.name.name) && (f.params@.len() > 0 || f.return_type is Some)
}

/// Diagnostic codes function lowering may add.
pub open spec fn fn_code(c: DiagCode) -> bool {
    stmt_code(c) || c == DiagCode::MainSignature
}

/// Some diagnostic added after position `n` of `d` has code `c`.
pub open spec fn added_code(d: Seq<DiagView>, n: int, c: DiagCode) -> bool {
    exists|i: int| n <= i < d.len() && (#[trigger] d[i]).1 == c
}

/// The diagnostics of resolving the parameter annotations `ps`.
pub open spec fn param_diags(pool: InternPool, ps: Seq<Param>) -> Seq<DiagView>
    decreases ps.len(),
{
    if ps.len() == 0 {
        Seq::empty()
    } else {
        let t = ps.last().type_annotation;
        param_diags(pool, ps.drop_last()) + resolve_diags(pool, t.name, t.is_view, t.span)
    }
}

/// `fn main()` with parameters or a return type: one error for each.
pub open spec fn main_diags(pool: InternPool, f: FunctionDef) -> Seq<DiagView> {
    if is_main(pool, f.name.name) {
        (if f.params@.len() > 0 {
            seq![err_view(f.name.span, "fn main() must take no arguments"@, DiagCode::MainSignature)]
        } else {
            Seq::empty()
        }) + match f.return_type {
            Some(ret) => seq![
                err_view(
                    ret.span,
                    "fn main() must have no return type (use exit(code) for non-zero exit codes)"@,
                    DiagCode::MainSignature,
                ),
            ],
            None => Seq::empty(),
        }
    } else {
        Seq::empty()
    }
}

/// The diagnostics of lowering the function definition at `fr`: its
/// annotations, the `main` signature, then its body.
pub open spec fn fn_diags(ast: Ast, pool: InternPool, fr: NodeRef) -> Seq<DiagView> {
    match ast.kind(fr) {
        NodeKind::FunctionDef(f) => param_diags(pool, f.params@) + match f.return_type {
            Some(t) => resolve_diags(pool, t.name, t.is_view, t.span),
            None => Seq::empty(),
        } + main_diags(pool, f) + block_diags(ast, pool, fr, f.body@),
        _ => Seq::empty(),
    }
}

/// The diagnostics of lowering the function definitions `fd`, in order.
pub open spec fn defs_diags(ast: Ast, pool: InternPool, fd: Seq<NodeRef>) -> Seq<DiagView>
    decreases fd.len(),
{
    if fd.len() == 0 {
        Seq::empty()
    } else {
        defs_diags(ast, pool, fd.drop_last()) + fn_diags(ast, pool, fd.last())
    }
}

/// Lower the function definition at node `fr`.
fn gen_function_def(
    b: &mut UirBuilder,
    ast: &Ast,
    fr: NodeRef,
    prims: &Primitives,
    pool: &InternPool,
    sink: &mut DiagSink,
)
    requires
        old(b).wf(),
        lower_ctx(*ast, *pool, *prims),
        ast.valid(fr),
        ast.kind(fr) is FunctionDef,
        block_shaped(*ast, fr, ast.kind(fr)->FunctionDef_0.body@),
        old(b).spec_len() + block_count(*ast, fr, ast.kind(fr)->FunctionDef_0.body@) < u32::MAX,
    ensures
        final(b).wf(),
        insts_extend(old(b).spec_uir(), final(b).spec_uir()),
        final(b).spec_len() == old(b).spec_len() + block_count(*ast, fr, ast.kind(fr)->FunctionDef_0.body@),
        final(b).spec_uir().func_bodies@.drop_last() == old(b).spec_uir().func_bodies@,
        final(b).spec_uir().func_bodies@.len() == old(b).spec_uir().func_bodies@.len() + 1,
        lowers_function(*ast, final(b).spec_uir(), *pool, fr, final(b).spec_uir().func_bodies@.last()),
        appended_codes(old(sink).items(), final(sink).items(), |c: DiagCode| fn_code(c)),
        added_code(final(sink).items(), old(sink).items().len() as int, DiagCode::MainSignature) <==> bad_main(*ast, *pool, fr),
        final(sink).items() == old(sink).items() + fn_diags(*ast, *pool, fr),
{
    let node = ast.node(fr);
    proof {
        ast.lemma_below(fr);
        assert(node_names_ok(ast.nodes@[fr.0 as int].kind, *pool));
    }
    let f = match &node.kind {
        NodeKind::FunctionDef(f) => f,
        _ => {
            proof {
                assert(false);
            }
            return ;
        },
    };
    let ghost d0 = sink.items();
    let mut params: Vec<UirParam> = Vec::new();
    let mut j: usize = 0;
    while j < f.params.len()
        invariant
            j <= f.params@.len(),
            lower_ctx(*ast, *pool, *prims),
            forall|k: int| 0 <= k < f.params@.len() ==> pool.contains_id((#[trigger] f.params@[k]).type_annotation.name),
            params@.len() == j,
            forall|k: int| 0 <= k < j ==> #[trigger] params@[k] == param_of(*pool, f.params@[k]),
            appended_codes(d0, sink.items(), |c: DiagCode| stmt_code(c)),
            sink.items() == d0 + param_diags(*pool, f.params@.take(j as int)),
        decreases f.params@.len() - j,
    {
        let p = f.params[j];
        let ghost dp = sink.items();
        proof {
            assert(f.params@.take(j + 1).drop_last() =~= f.params@.take(j as int));
            assert(f.params@.take(j + 1).last() == p);
        }
        let ty = resolve_type(p.type_annotation.name, p.type_annotation.is_view, p.type_annotation.span, prims, pool, sink);
        assert(sink.items() =~= d0 + param_diags(*pool, f.params@.take(j + 1)));
        params.push(UirParam { name: p.name.name, ty, mode: p.mode, span: p.span });
        proof {
            assert(appended_codes(dp, sink.items(), |c: DiagCode| stmt_code(c)));
            lemma_appended_trans(d0, dp, sink.items(), |c: DiagCode| stmt_code(c));
        }
        j = j + 1;
    }
    let return_type = match f.return_type {
        Some(t) => {
            let ghost dp = sink.items();
            let ty = resolve_type(t.name, t.is_view, t.span, prims, pool, sink);
            proof {
                assert(appended_codes(dp, sink.items(), |c: DiagCode| stmt_code(c)));
                lemma_appended_trans(d0, dp, sink.items(), |c: DiagCode| stmt_code(c));
            }
            ty
        },
        None => pool.void(),
    };
    assert(f.params@.take(f.params@.len() as int) =~= f.params@);
    let ghost k0 = sink.items().len();
    let ghost d1 = sink.items();
    let main_id = pool.find_str("main");
    let name_is_main = match main_id {
        Some(id) => {
            proof {
                if pool.contains_id(f.name.name) {
                    lemma_prim_eq(*pool, id, f.name.name);
                }
            }
            f.name.name == id
        },
        None => false,
    };
    assert(name_is_main == is_main(*pool, f.name.name));
    if name_is_main {
        if f.params.len() > 0 {
            sink.emit(Diag::error(f.name.span, DiagCode::MainSignature, String::from_str("fn main() must take no arguments")));
        }
        match f.return_type {
            Some(ret) => {
                sink.emit(
                    Diag::error(
                        ret.span,
                        DiagCode::MainSignature,
                        String::from_str("fn main() must have no return type (use exit(code) for non-zero exit codes)"),
                    ),
                );
            },
            None => {},
        }
    }
    let ghost d2 = sink.items();
    assert(d2 =~= d1 + main_diags(*pool, *f));
    proof {
        assert(d2.len() > k0 <==> bad_main(*ast, *pool, fr));
        assert forall|i: int| k0 <= i < d2.len() implies (#[trigger] d2[i]).1 == DiagCode::MainSignature by {
        }
        assert forall|i: int| 0 <= i < d1.len() implies #[trigger] d2[i] == d1[i] by {
        }
    }
    let ghost u0 = b.spec_uir();
    let body = lower_block(b, ast, &f.body, fr, prims, pool, sink);
    let ghost u1 = b.spec_uir();
    b.add_function(f.name.name, params, return_type, body.as_slice(), f.name.span);
    proof {
        let d3 = sink.items();
        assert forall|i: int| 0 <= i < d0.len() implies #[trigger] d3[i] == d0[i] by {
            assert(d1[i] == d0[i]);
            assert(d2[i] == d1[i]);
        }
        assert forall|i: int| d0.len() <= i < d3.len() implies fn_code(#[trigger] d3[i].1) by {
            if i < k0 {
                assert(d1[i] == d3[i]);
            } else if i < d2.len() {
                assert(d2[i] == d3[i]);
            }
        }
        if bad_main(*ast, *pool, fr) {
            assert(d3[k0 as int] == d2[k0 as int]);
            assert(d3[k0 as int].1 == DiagCode::MainSignature);
        } else {
            assert forall|i: int| d0.len() <= i < d3.len() implies (#[trigger] d3[i]).1 != DiagCode::MainSignature by {
                if i < k0 {
                    assert(d1[i] == d3[i]);
                    assert(stmt_code(d1[i].1));
                } else if i >= d2.len() {
                    assert(stmt_code(d3[i].1));
                }
            }
        }
        lemma_lowers_block_extends(*ast, u1, b.spec_uir(), *pool, fr, f.body@, body@);
        assert(d3 =~= d0 + fn_diags(*ast, *pool, fr));
        let fb = b.spec_uir().func_bodies@.last();
        assert forall|k: int| 0 <= k < f.params@.len() implies #[trigger] fb.params@[k] == param_of(*pool, f.params@[k]) by {
        }
    }
}

/// Function definitions among `s`, in order.
pub open spec fn fn_defs(ast: Ast, s: Seq<NodeRef>) -> Seq<NodeRef>
    decreases s.len(),
{
    if s.len() == 0 {
        Seq::empty()
    } else {
        fn_defs(ast, s.drop_last()) + if ast.kind(s.last()) is FunctionDef {
            seq![s.last()]
        } else {
            Seq::empty()
        }
    }
}

/// Statements among `s` that are neither function definitions nor
/// parse-error placeholders.
pub open spec fn strays(ast: Ast, s: Seq<NodeRef>) -> Seq<NodeRef>
    decreases s.len(),
{
    if s.len() == 0 {
        Seq::empty()
    } else {
        strays(ast, s.drop_last()) + if !(ast.kind(s.last()) is FunctionDef) && !(ast.kind(s.last()) is Error) {
            seq![s.last()]
        } else {
            Seq::empty()
        }
    }
}

/// Instructions the function definitions `fds` lower to.
pub open spec fn defs_count(ast: Ast, fds: Seq<NodeRef>) -> nat
    decreases fds.len(),
{
    if fds.len() == 0 {
        0
    } else {
        defs_count(ast, fds.drop_last()) + block_count(ast, fds.last(), ast.kind(fds.last())->FunctionDef_0.body@)
    }
}

/// Parent of the top-level statements.
pub open spec fn ast_root() -> NodeRef {
    NodeRef(0xffff_ffffu32)
}

/// A program that lowering accepts: top-level function bodies and the
/// other top-level statements are statement subtrees.
pub open spec fn program_shaped(ast: Ast) -> bool {
    forall|j: int| 0 <= j < ast.top_level@.len() ==> {
        let s = #[trigger] ast.top_level@[j];
        &&& stmt_shaped(ast, s)
        &&& ast.kind(s) is FunctionDef ==> block_shaped(ast, s, ast.kind(s)->FunctionDef_0.body@)
    }
}

/// Instructions the whole program lowers to (with its implicit `main`).
pub open spec fn program_count(ast: Ast) -> nat {
    defs_count(ast, fn_defs(ast, ast.top_level@)) + block_count(ast, ast_root(), strays(ast, ast.top_level@))
}

/// Some top-level function is `main`.
pub open spec fn has_explicit_main(ast: Ast, pool: InternPool) -> bool {
    let fd = fn_defs(ast, ast.top_level@);
    exists|j: int| 0 <= j < fd.len() && is_main(pool, ast.kind(#[trigger] fd[j])->FunctionDef_0.name.name)
}

pub proof fn lemma_names_grow(ast: Ast, p0: InternPool, p1: InternPool)
    requires
        ast_names_ok(ast, p0),
        pool_grows(p0, p1),
    ensures
        ast_names_ok(ast, p1),
{
    assert forall|i: int| 0 <= i < ast.nodes@.len() implies node_names_ok(#[trigger] ast.nodes@[i].kind, p1) by {
        assert(node_names_ok(ast.nodes@[i].kind, p0));
        if let NodeKind::FunctionDef(f) = ast.nodes@[i].kind {
            assert forall|j: int| 0 <= j < f.params@.len() implies p1.contains_id((#[trigger] f.params@[j]).type_annotation.name) by {
                assert(p0.contains_id(f.params@[j].type_annotation.name));
            }
        }
    }
}

proof fn lemma_fn_defs_step(ast: Ast, s: Seq<NodeRef>, i: int)
    requires
        0 <= i < s.len(),
    ensures
        fn_defs(ast, s.take(i + 1)) == fn_defs(ast, s.take(i)) + if ast.kind(s[i]) is FunctionDef {
            seq![s[i]]
        } else {
            Seq::empty()
        },
        strays(ast, s.take(i + 1)) == strays(ast, s.take(i)) + if !(ast.kind(s[i]) is FunctionDef) && !(ast.kind(s[i]) is Error) {
            seq![s[i]]
        } else {
            Seq::empty()
        },
{
    assert(s.take(i + 1).drop_last() =~= s.take(i));
    assert(s.take(i + 1).last() == s[i]);
}

/// Every element of `fn_defs(s)` is a function definition from `s`, and
/// every element of `strays(s)` is a statement from `s`.
proof fn lemma_fn_defs_members(ast: Ast, s: Seq<NodeRef>)
    ensures
        forall|j: int| 0 <= j < fn_defs(ast, s).len() ==> ast.kind(#[trigger] fn_defs(ast, s)[j]) is FunctionDef && s.contains(fn_defs(ast, s)[j]),
        forall|j: int| 0 <= j < strays(ast, s).len() ==> s.contains(#[trigger] strays(ast, s)[j]) && !(ast.kind(strays(ast, s)[j]) is FunctionDef),
    decreases s.len(),
{
    if s.len() > 0 {
        lemma_fn_defs_members(ast, s.drop_last());
        let a = fn_defs(ast, s.drop_last());
        let b = strays(ast, s.drop_last());
        assert forall|j: int| 0 <= j < fn_defs(ast, s).len() implies ast.kind(#[trigger] fn_defs(ast, s)[j]) is FunctionDef && s.contains(fn_defs(ast, s)[j]) by {
            if j < a.len() {
                assert(fn_defs(ast, s)[j] == a[j]);
                let k = choose|k: int| 0 <= k < s.drop_last().len() && s.drop_last()[k] == a[j];
                assert(s[k] == a[j]);
            } else {
                assert(fn_defs(ast, s)[j] == s.last());
                assert(s[s.len() - 1] == s.last());
            }
        }
        assert forall|j: int| 0 <= j < strays(ast, s).len() implies s.contains(#[trigger] strays(ast, s)[j]) && !(ast.kind(strays(ast, s)[j]) is FunctionDef) by {
            if j < b.len() {
                assert(strays(ast, s)[j] == b[j]);
                let k = choose|k: int| 0 <= k < s.drop_last().len() && s.drop_last()[k] == b[j];
                assert(s[k] == b[j]);
            } else {
                assert(strays(ast, s)[j] == s.last());
                assert(s[s.len() - 1] == s.last());
            }
        }
    }
}

proof fn lemma_defs_count_prefix(ast: Ast, s: Seq<NodeRef>, k: int)
    requires
        0 <= k <= s.len(),
    ensures
        defs_count(ast, s.take(k)) <= defs_count(ast, s),
    decreases s.len() - k,
{
    if k < s.len() {
        lemma_defs_count_prefix(ast, s, k + 1);
        assert(s.take(k + 1).drop_last() =~= s.take(k));
    } else {
        assert(s.take(k) =~= s);
    }
}

pub open spec fn top_level_msg() -> Seq<char> {
    "top-level statements are not allowed when fn main() is defined"@
}

/// Lower a program to UIR, accumulating diagnostics in `sink`. Every
/// top-level function definition becomes a function, in order; without
/// `fn main()` the other top-level statements become an implicit
/// `main() -> void`. With `fn main()`, stray top-level statements are an
/// error (anchored at the first one) but the program is lowered anyway.
pub fn generate(program: &Ast, pool: &mut InternPool, sink: &mut DiagSink) -> (uir: Uir)
    requires
        old(pool).wf(),
        old(pool)@.len() + 7 < u32::MAX,
        program.wf(),
        ast_names_ok(*program, *old(pool)),
        program_shaped(*program),
        program_count(*program) < u32::MAX,
    ensures
        uir.wf(),
        final(pool).wf(),
        pool_grows(*old(pool), *final(pool)),
        ({
            let fd = fn_defs(*program, program.top_level@);
            let st = strays(*program, program.top_level@);
            let explicit = has_explicit_main(*program, *final(pool));
            let d0 = old(sink).items();
            let d1 = final(sink).items();
            &&& uir.func_bodies@.len() == fd.len() + if explicit {
                0int
            } else {
                1int
            }
            &&& forall|j: int| 0 <= j < fd.len() ==> lowers_function(*program, uir, *final(pool), #[trigger] fd[j], uir.func_bodies@[j])
            &&& !explicit ==> {
                let m = uir.func_bodies@[fd.len() as int];
                &&& is_main(*final(pool), m.name)
                &&& m.params@.len() == 0
                &&& m.return_type == TypeId(0)
                &&& m.span == Span { start: 0, end: 0 }
                &&& lowers_block(*program, uir, *final(pool), ast_root(), st, m.body@)
            }
            &&& (explicit && st.len() > 0) ==> d1[d0.len() as int] == err_view(
                program.spec_span(st[0]),
                top_level_msg(),
                DiagCode::TopLevelWithExplicitMain,
            )
            &&& added_code(d1, d0.len() as int, DiagCode::TopLevelWithExplicitMain) <==> (explicit && st.len() > 0)
            &&& added_code(d1, d0.len() as int, DiagCode::MainSignature) <==> exists|j: int|
                0 <= j < fd.len() && bad_main(*program, *final(pool), #[trigger] fd[j])
            &&& d0.len() <= d1.len()
            &&& forall|i: int| 0 <= i < d0.len() ==> #[trigger] d1[i] == d0[i]
            &&& d1 == d0 + (if explicit && st.len() > 0 {
                seq![err_view(program.spec_span(st[0]), top_level_msg(), DiagCode::TopLevelWithExplicitMain)]
            } else {
                Seq::empty()
            }) + defs_diags(*program, *final(pool), fd) + (if explicit {
                Seq::empty()
            } else {
                block_diags(*program, *final(pool), ast_root(), st)
            })
        }),
{
    let ghost pool0 = *pool;
    let ghost top = program.top_level@;
    let mut func_defs: Vec<NodeRef> = Vec::new();
    let mut top_level: Vec<NodeRef> = Vec::new();
    let main_id = pool.intern_str("main");
    let prims = Primitives::new(pool);
    let ghost pool1 = *pool;
    proof {
        assert(pool_grows(pool0, pool1)) by {
            assert forall|i: int| 0 <= i < pool0@.len() implies #[trigger] pool1@[i] == pool0@[i] by {
            }
        }
        lemma_names_grow(*program, pool0, pool1);
        lemma_fn_defs_members(*program, top);
    }
    let mut i: usize = 0;
    assert(top.take(0) =~= Seq::<NodeRef>::empty());
    while i < program.top_level.len()
        invariant
            i <= top.len(),
            top == program.top_level@,
            program.wf(),
            func_defs@ == fn_defs(*program, top.take(i as int)),
            top_level@ == strays(*program, top.take(i as int)),
        decreases top.len() - i,
    {
        let s = program.top_level[i];
        proof {
            lemma_fn_defs_step(*program, top, i as int);
        }
        match &program.node(s).kind {
            NodeKind::FunctionDef(_) => func_defs.push(s),
            NodeKind::Error => {},
            _ => top_level.push(s),
        }
        i = i + 1;
    }
    assert(top.take(top.len() as int) =~= top);
    let ghost fd = func_defs@;
    let ghost st = top_level@;

    // Is one of the definitions `main`?
    let mut has_main = false;
    let mut k: usize = 0;
    while k < func_defs.len()
        invariant
            k <= fd.len(),
            fd == func_defs@,
            fd == fn_defs(*program, top),
            top == program.top_level@,
            program.wf(),
            pool.wf(),
            is_main(*pool, main_id),
            forall|j: int| 0 <= j < fd.len() ==> program.kind(#[trigger] fd[j]) is FunctionDef && top.contains(fd[j]),
            has_main == exists|j: int| 0 <= j < k && is_main(*pool, program.kind(#[trigger] fd[j])->FunctionDef_0.name.name),
        decreases fd.len() - k,
    {
        let f = func_defs[k];
        proof {
            let w = choose|w: int| 0 <= w < top.len() && top[w] == f;
            assert(program.valid(top[w]));
        }
        match &program.node(f).kind {
            NodeKind::FunctionDef(def) => {
                proof {
                    if pool.contains_id(def.name.name) {
                        lemma_prim_eq(*pool, main_id, def.name.name);
                    }
                    if has_main {
                        let j = choose|j: int| 0 <= j < k && is_main(*pool, program.kind(#[trigger] fd[j])->FunctionDef_0.name.name);
                        assert(0 <= j < k + 1);
                    }
                    if def.name.name == main_id {
                        assert(is_main(*pool, program.kind(fd[k as int])->FunctionDef_0.name.name));
                    }
                    if exists|j: int| 0 <= j < k + 1 && is_main(*pool, program.kind(#[trigger] fd[j])->FunctionDef_0.name.name) {
                        let j = choose|j: int| 0 <= j < k + 1 && is_main(*pool, program.kind(#[trigger] fd[j])->FunctionDef_0.name.name);
                        if j < k {
                        }
                    }
                }
                if def.name.name == main_id {
                    has_main = true;
                }
            },
            _ => {
                proof {
                    assert(false);
                }
            },
        }
        k = k + 1;
    }
    assert(has_main == has_explicit_main(*program, *pool));

    let ghost d0 = sink.items();
    if has_main && top_level.len() > 0 {
        let span = program.span(top_level[0]);
        proof {
            lemma_first_stray(*program, top);
        }
        sink.emit(Diag::error(span, DiagCode::TopLevelWithExplicitMain, String::from_str("top-level statements are not allowed when fn main() is defined")));
    }
    let ghost d1 = sink.items();

    let mut b = UirBuilder::new();
    let mut k: usize = 0;
    assert(fd.take(0) =~= Seq::<NodeRef>::empty());
    while k < func_defs.len()
        invariant
            k <= fd.len(),
            fd == func_defs@,
            fd == fn_defs(*program, top),
            top == program.top_level@,
            program_shaped(*program),
            program_count(*program) < u32::MAX,
            lower_ctx(*program, *pool, prims),
            forall|j: int| 0 <= j < fd.len() ==> program.kind(#[trigger] fd[j]) is FunctionDef && top.contains(fd[j]),
            b.wf(),
            b.spec_len() == defs_count(*program, fd.take(k as int)),
            defs_count(*program, fd.take(k as int)) <= defs_count(*program, fd),
            b.spec_uir().func_bodies@.len() == k,
            forall|j: int| 0 <= j < k ==> lowers_function(*program, b.spec_uir(), *pool, #[trigger] fd[j], b.spec_uir().func_bodies@[j]),
            d1.len() <= sink.items().len(),
            forall|i: int| 0 <= i < d1.len() ==> #[trigger] sink.items()[i] == d1[i],
            forall|i: int| d1.len() <= i < sink.items().len() ==> fn_code(#[trigger] sink.items()[i].1),
            added_code(sink.items(), d1.len() as int, DiagCode::MainSignature) <==> exists|j: int|
                0 <= j < k && bad_main(*program, *pool, #[trigger] fd[j]),
            sink.items() == d1 + defs_diags(*program, *pool, fd.take(k as int)),
        decreases fd.len() - k,
    {
        let f = func_defs[k];
        proof {
            let w = choose|w: int| 0 <= w < top.len() && top[w] == f;
            assert(program.valid(top[w]));
            assert(stmt_shaped(*program, top[w]));
            lemma_defs_count_prefix(*program, fd, k + 1);
            assert(fd.take(k + 1).drop_last() =~= fd.take(k as int));
            assert(fd.take(k + 1).last() == f);
        }
        let ghost u0 = b.spec_uir();
        let ghost dk = sink.items();
        gen_function_def(&mut b, program, f, &prims, pool, sink);
        proof {
            assert(sink.items() =~= d1 + defs_diags(*program, *pool, fd.take(k + 1)));
            assert forall|j: int| 0 <= j < k + 1 implies lowers_function(*program, b.spec_uir(), *pool, #[trigger] fd[j], b.spec_uir().func_bodies@[j]) by {
                if j < k {
                    assert(b.spec_uir().func_bodies@[j] == u0.func_bodies@[j]);
                    lemma_lowers_block_extends(*program, u0, b.spec_uir(), *pool, fd[j], program.kind(fd[j])->FunctionDef_0.body@, u0.func_bodies@[j].body@);
                } else {
                    assert(b.spec_uir().func_bodies@[j] == b.spec_uir().func_bodies@.last());
                }
            }
            assert forall|i: int| 0 <= i < d1.len() implies #[trigger] sink.items()[i] == d1[i] by {
                assert(dk[i] == d1[i]);
            }
            assert forall|i: int| d1.len() <= i < sink.items().len() implies fn_code(#[trigger] sink.items()[i].1) by {
                if i < dk.len() {
                    assert(sink.items()[i] == dk[i]);
                }
            }
            let dn = sink.items();
            if added_code(dn, d1.len() as int, DiagCode::MainSignature) {
                let i = choose|i: int| d1.len() <= i < dn.len() && (#[trigger] dn[i]).1 == DiagCode::MainSignature;
                if i < dk.len() {
                    assert(dk[i] == dn[i]);
                    assert(added_code(dk, d1.len() as int, DiagCode::MainSignature));
                    let j = choose|j: int| 0 <= j < k && bad_main(*program, *pool, #[trigger] fd[j]);
                    assert(0 <= j < k + 1);
                } else {
                    assert(added_code(dn, dk.len() as int, DiagCode::MainSignature));
                    assert(bad_main(*program, *pool, fd[k as int]));
                }
            }
            if exists|j: int| 0 <= j < k + 1 && bad_main(*program, *pool, #[trigger] fd[j]) {
                let j = choose|j: int| 0 <= j < k + 1 && bad_main(*program, *pool, #[trigger] fd[j]);
                if j < k {
                    assert(added_code(dk, d1.len() as int, DiagCode::MainSignature));
                    let i = choose|i: int| d1.len() <= i < dk.len() && (#[trigger] dk[i]).1 == DiagCode::MainSignature;
                    assert(dn[i] == dk[i]);
                } else {
                    assert(added_code(dn, dk.len() as int, DiagCode::MainSignature));
                    let i = choose|i: int| dk.len() <= i < dn.len() && (#[trigger] dn[i]).1 == DiagCode::MainSignature;
                    assert(d1.len() <= i);
                }
            }
        }
        k = k + 1;
    }
    assert(fd.take(fd.len() as int) =~= fd);
    if !has_main {
        let ghost u0 = b.spec_uir();
        let ghost dk = sink.items();
        proof {
            assert forall|j: int| 0 <= j < st.len() implies (#[trigger] st[j]).0 < ast_root().0 && stmt_shaped(*program, st[j]) by {
                lemma_fn_defs_members(*program, top);
                let w = choose|w: int| 0 <= w < top.len() && top[w] == st[j];
                assert(program.valid(top[w]));
            }
        }
        let ghost added_before = added_code(dk, d1.len() as int, DiagCode::MainSignature);
        let body = lower_block(&mut b, program, &top_level, NodeRef(0xffff_ffffu32), &prims, pool, sink);
        proof {
            let dn = sink.items();
            if added_code(dn, d1.len() as int, DiagCode::MainSignature) {
                let i = choose|i: int| d1.len() <= i < dn.len() && (#[trigger] dn[i]).1 == DiagCode::MainSignature;
                if i >= dk.len() {
                    assert(stmt_code(dn[i].1));
                } else {
                    assert(dk[i] == dn[i]);
                }
            }
            if added_before {
                let i = choose|i: int| d1.len() <= i < dk.len() && (#[trigger] dk[i]).1 == DiagCode::MainSignature;
                assert(dn[i] == dk[i]);
            }
        }
        let ghost u1 = b.spec_uir();
        let void_ty = pool.void();
        b.add_function(main_id, Vec::new(), void_ty, body.as_slice(), Span::new(0, 0));
        proof {
            lemma_lowers_block_extends(*program, u1, b.spec_uir(), *pool, ast_root(), st, body@);
            assert forall|j: int| 0 <= j < fd.len() implies lowers_function(*program, b.spec_uir(), *pool, #[trigger] fd[j], b.spec_uir().func_bodies@[j]) by {
                assert(b.spec_uir().func_bodies@[j] == u0.func_bodies@[j]);
                lemma_lowers_block_extends(*program, u0, b.spec_uir(), *pool, fd[j], program.kind(fd[j])->FunctionDef_0.body@, u0.func_bodies@[j].body@);
            }
            assert(b.spec_uir().func_bodies@[fd.len() as int] == b.spec_uir().func_bodies@.last());
            assert forall|i: int| 0 <= i < d1.len() implies #[trigger] sink.items()[i] == d1[i] by {
                assert(dk[i] == d1[i]);
            }
            assert forall|i: int| d1.len() <= i < sink.items().len() implies fn_code(#[trigger] sink.items()[i].1) by {
                if i < dk.len() {
                    assert(sink.items()[i] == dk[i]);
                }
            }
        }
    }
    proof {
        let d2 = sink.items();
        assert(d2 =~= d0 + (if has_main && st.len() > 0 {
                seq![err_view(program.spec_span(st[0]), top_level_msg(), DiagCode::TopLevelWithExplicitMain)]
            } else {
                Seq::<DiagView>::empty()
            }) + defs_diags(*program, *pool, fd) + (if has_main {
                Seq::<DiagView>::empty()
            } else {
                block_diags(*program, *pool, ast_root(), st)
            }));
        assert(pool_grows(pool0, *pool));
        if has_main && st.len() > 0 {
            assert(d2[d0.len() as int] == d1[d0.len() as int]);
        } else {
            assert forall|i: int| d0.len() <= i < d2.len() implies (#[trigger] d2[i]).1 != DiagCode::TopLevelWithExplicitMain by {
                assert(fn_code(d2[i].1));
            }
        }
        assert forall|i: int| 0 <= i < d0.len() implies #[trigger] d2[i] == d0[i] by {
            assert(d1[i] == d0[i]);
        }
    }
    b.finish()
}

/// The first stray statement is the first top-level statement when there
/// is one... of the strays, it is a node of the program.
proof fn lemma_first_stray(ast: Ast, top: Seq<NodeRef>)
    requires
        ast.wf(),
        top == ast.top_level@,
        strays(ast, top).len() > 0,
    ensures
        ast.valid(strays(ast, top)[0]),
{
    lemma_fn_defs_members(ast, top);
    let w = choose|w: int| 0 <= w < top.len() && top[w] == strays(ast, top)[0];
    assert(ast.valid(top[w]));
}

} // verus!
