//! Untyped IR, the output of AST lowering.
//!
//! Instructions live in a flat table, each after its operands and nested
//! statements, like the typed IR; functions list their top-level
//! statements. No types are attached to instructions, only to
//! declarations that were annotated in the source.
use vstd::prelude::*;
use crate::types::{Span, StringId, TypeId};
use crate::tir::ParamMode;
use crate::ast::CompoundOp;

verus! {

#[derive(Clone, Copy, PartialEq, Eq, Structural, Debug, Hash)]
pub struct InstRef(pub u32);

#[derive(Clone, Copy, PartialEq, Eq, Structural, Debug)]
pub enum InstTag {
    IntLiteral,
    StrLiteral,
    BoolLiteral,
    FloatLiteral,
    Var,
    Add,
    Sub,
    Mul,
    Div,
    Mod,
    Eq,
    NotEq,
    Lt,
    Gt,
    LtEq,
    GtEq,
    And,
    Or,
    Neg,
    Not,
    Call,
    MethodCall,
    Borrow,
    Slice,
    VarDecl,
    AssignOrDecl,
    CompoundAssign,
    Return,
    ReturnVoid,
    ExprStmt,
    IfStmt,
    WhileLoop,
    ForRange,
    Break,
    Continue,
}

#[derive(Debug)]
pub struct VarDeclView {
    pub name: StringId,
    pub mutable: bool,
    /// The annotated type, when the declaration has one.
    pub ty: Option<TypeId>,
    pub initializer: InstRef,
}

#[derive(Debug)]
pub struct CallView {
    pub name: StringId,
    pub args: Vec<InstRef>,
}

#[derive(Debug)]
pub struct MethodCallView {
    pub receiver: InstRef,
    pub method: StringId,
    pub args: Vec<InstRef>,
}

#[derive(Debug)]
pub struct SliceView {
    pub base: InstRef,
    pub start: Option<InstRef>,
    pub end: Option<InstRef>,
}

#[derive(Debug)]
pub struct AssignOrDeclView {
    pub name: StringId,
    pub value: InstRef,
}

#[derive(Debug)]
pub struct CompoundAssignView {
    pub name: StringId,
    pub op: CompoundOp,
    pub value: InstRef,
}

#[derive(Debug)]
pub struct UirElif {
    pub cond: InstRef,
    pub body: Vec<InstRef>,
}

#[derive(Debug)]
pub struct IfStmtView {
    pub cond: InstRef,
    pub then_stmts: Vec<InstRef>,
    pub elif_branches: Vec<UirElif>,
    pub else_stmts: Option<Vec<InstRef>>,
}

#[derive(Debug)]
pub struct WhileLoopView {
    pub cond: InstRef,
    pub body: Vec<InstRef>,
}

#[derive(Debug)]
pub struct ForRangeView {
    pub var: StringId,
    pub start: InstRef,
    pub end: InstRef,
    pub body: Vec<InstRef>,
}

/// Payload of an instruction.
#[derive(Debug)]
#[allow(inconsistent_fields)]
pub enum InstData {
    NoData,
    Int(i64),
    Str(StringId),
    Bool(bool),
    /// Bit pattern of a float literal.
    Float(u64),
    Var(StringId),
    UnOp(InstRef),
    BinOp { lhs: InstRef, rhs: InstRef },
    Borrow(InstRef),
    Call(CallView),
    MethodCall(MethodCallView),
    Slice(SliceView),
    VarDecl(VarDeclView),
    AssignOrDecl(AssignOrDeclView),
    CompoundAssign(CompoundAssignView),
    IfStmt(IfStmtView),
    WhileLoop(WhileLoopView),
    ForRange(ForRangeView),
}

#[derive(Debug)]
pub struct UirInst {
    pub tag: InstTag,
    pub data: InstData,
    pub span: Span,
}

#[derive(Clone, Copy, PartialEq, Eq, Structural, Debug)]
pub struct UirParam {
    pub name: StringId,
    pub ty: TypeId,
    pub mode: ParamMode,
    pub span: Span,
}

/// One lowered function.
#[derive(Debug)]
pub struct FuncBody {
    pub name: StringId,
    pub params: Vec<UirParam>,
    pub return_type: TypeId,
    pub body: Vec<InstRef>,
    pub span: Span,
}

/// A lowered program.
#[derive(Debug)]
pub struct Uir {
    pub instructions: Vec<UirInst>,
    pub func_bodies: Vec<FuncBody>,
}

pub open spec fn irefs_below(s: Seq<InstRef>, i: int) -> bool {
    forall|j: int| 0 <= j < s.len() ==> (#[trigger] s[j]).0 < i
}

pub open spec fn iopt_below(o: Option<InstRef>, i: int) -> bool {
    o matches Some(r) ==> r.0 < i
}

pub open spec fn opt_stmts(o: Option<Vec<InstRef>>) -> Seq<InstRef> {
    match o {
        Some(v) => v@,
        None => Seq::empty(),
    }
}

/// Every reference a payload holds is below `i`.
pub open spec fn data_below(d: InstData, i: int) -> bool {
    match d {
        InstData::UnOp(o) => o.0 < i,
        InstData::BinOp { lhs, rhs } => lhs.0 < i && rhs.0 < i,
        InstData::Borrow(o) => o.0 < i,
        InstData::Call(v) => irefs_below(v.args@, i),
        InstData::MethodCall(v) => v.receiver.0 < i && irefs_below(v.args@, i),
        InstData::Slice(v) => v.base.0 < i && iopt_below(v.start, i) && iopt_below(v.end, i),
        InstData::VarDecl(v) => v.initializer.0 < i,
        InstData::AssignOrDecl(v) => v.value.0 < i,
        InstData::CompoundAssign(v) => v.value.0 < i,
        InstData::IfStmt(v) => {
            &&& v.cond.0 < i
            &&& irefs_below(v.then_stmts@, i)
            &&& forall|j: int| 0 <= j < v.elif_branches@.len() ==> (#[trigger] v.elif_branches@[j]).cond.0 < i && irefs_below(v.elif_branches@[j].body@, i)
            &&& irefs_below(opt_stmts(v.else_stmts), i)
        },
        InstData::WhileLoop(v) => v.cond.0 < i && irefs_below(v.body@, i),
        InstData::ForRange(v) => v.start.0 < i && v.end.0 < i && irefs_below(v.body@, i),
        _ => true,
    }
}

impl Uir {
    /// Operands and nested statements come first; function bodies name
    /// instructions of the table.
    pub open spec fn wf(&self) -> bool {
        &&& self.instructions@.len() < u32::MAX
        &&& forall|i: int| 0 <= i < self.instructions@.len() ==> data_below(#[trigger] self.instructions@[i].data, i)
        &&& forall|f: int| 0 <= f < self.func_bodies@.len() ==> irefs_below(#[trigger] self.func_bodies@[f].body@, self.instructions@.len() as int)
    }

    pub open spec fn spec_inst(&self, r: InstRef) -> UirInst {
        self.instructions@[r.0 as int]
    }

    pub open spec fn valid(&self, r: InstRef) -> bool {
        r.0 < self.instructions@.len()
    }

    pub fn inst(&self, r: InstRef) -> (i: &UirInst)
        requires
            self.valid(r),
        ensures
            *i == self.spec_inst(r),
    {
        &self.instructions[r.0 as usize]
    }

    /// The top-level statements of `f`.
    pub fn body_stmts<'a>(&self, f: &'a FuncBody) -> (s: &'a [InstRef])
        ensures
            s@ == f.body@,
    {
        f.body.as_slice()
    }

    /// The declaration payload of `r`; `None` unless `r` declares.
    pub fn var_decl_view(&self, r: InstRef) -> (v: Option<&VarDeclView>)
        requires
            self.valid(r),
        ensures
            match v {
                Some(v) => self.spec_inst(r).data == InstData::VarDecl(*v),
                None => !(self.spec_inst(r).data is VarDecl),
            },
    {
        match &self.instructions[r.0 as usize].data {
            InstData::VarDecl(v) => Some(v),
            _ => None,
        }
    }

    pub fn call_view(&self, r: InstRef) -> (v: Option<&CallView>)
        requires
            self.valid(r),
        ensures
            match v {
                Some(v) => self.spec_inst(r).data == InstData::Call(*v),
                None => !(self.spec_inst(r).data is Call),
            },
    {
        match &self.instructions[r.0 as usize].data {
            InstData::Call(v) => Some(v),
            _ => None,
        }
    }

    pub fn if_stmt_view(&self, r: InstRef) -> (v: Option<&IfStmtView>)
        requires
            self.valid(r),
        ensures
            match v {
                Some(v) => self.spec_inst(r).data == InstData::IfStmt(*v),
                None => !(self.spec_inst(r).data is IfStmt),
            },
    {
        match &self.instructions[r.0 as usize].data {
            InstData::IfStmt(v) => Some(v),
            _ => None,
        }
    }

    pub fn assign_or_decl_view(&self, r: InstRef) -> (v: Option<&AssignOrDeclView>)
        requires
            self.valid(r),
        ensures
            match v {
                Some(v) => self.spec_inst(r).data == InstData::AssignOrDecl(*v),
                None => !(self.spec_inst(r).data is AssignOrDecl),
            },
    {
        match &self.instructions[r.0 as usize].data {
            InstData::AssignOrDecl(v) => Some(v),
            _ => None,
        }
    }

    pub fn compound_assign_view(&self, r: InstRef) -> (v: Option<&CompoundAssignView>)
        requires
            self.valid(r),
        ensures
            match v {
                Some(v) => self.spec_inst(r).data == InstData::CompoundAssign(*v),
                None => !(self.spec_inst(r).data is CompoundAssign),
            },
    {
        match &self.instructions[r.0 as usize].data {
            InstData::CompoundAssign(v) => Some(v),
            _ => None,
        }
    }
}

pub proof fn lemma_irefs_below_mono(s: Seq<InstRef>, a: int, b: int)
    requires
        irefs_below(s, a),
        a <= b,
    ensures
        irefs_below(s, b),
{
}

/// `u1` only appended instructions to `u0`.
pub open spec fn insts_extend(u0: Uir, u1: Uir) -> bool {
    &&& u0.instructions@.len() <= u1.instructions@.len()
    &&& forall|i: int| 0 <= i < u0.instructions@.len() ==> #[trigger] u1.instructions@[i] == u0.instructions@[i]
}

/// `u1` only appended instructions to `u0` and kept its functions.
pub open spec fn extends(u0: Uir, u1: Uir) -> bool {
    &&& insts_extend(u0, u1)
    &&& u1.func_bodies@ == u0.func_bodies@
}

/// Builds a `Uir`, keeping it well formed.
pub struct UirBuilder {
    uir: Uir,
}

fn copy_irefs(s: &[InstRef]) -> (v: Vec<InstRef>)
    ensures
        v@ == s@,
{
    let mut v: Vec<InstRef> = Vec::new();
    let mut i: usize = 0;
    while i < s.len()
        invariant
            i <= s@.len(),
            v@ == s@.take(i as int),
        decreases s@.len() - i,
    {
        v.push(s[i]);
        assert(v@ =~= s@.take(i + 1));
        i = i + 1;
    }
    assert(v@ =~= s@);
    v
}

impl UirBuilder {
    pub closed spec fn spec_uir(&self) -> Uir {
        self.uir
    }

    pub open spec fn wf(&self) -> bool {
        self.spec_uir().wf()
    }

    pub open spec fn spec_len(&self) -> int {
        self.spec_uir().instructions@.len() as int
    }

    /// Room for one more instruction.
    pub open spec fn has_room(&self) -> bool {
        self.spec_len() + 1 < u32::MAX
    }

    pub fn new() -> (b: UirBuilder)
        ensures
            b.wf(),
            b.spec_uir().instructions@.len() == 0,
            b.spec_uir().func_bodies@.len() == 0,
    {
        UirBuilder { uir: Uir { instructions: Vec::new(), func_bodies: Vec::new() } }
    }

    pub fn len(&self) -> (n: usize)
        ensures
            n == self.spec_len(),
    {
        self.uir.instructions.len()
    }

    /// Append `inst`; its references must already be built.
    pub fn push(&mut self, inst: UirInst) -> (r: InstRef)
        requires
            old(self).wf(),
            old(self).has_room(),
            data_below(inst.data, old(self).spec_len()),
        ensures
            final(self).wf(),
            r.0 == old(self).spec_len(),
            final(self).spec_uir().instructions@ == old(self).spec_uir().instructions@.push(inst),
            final(self).spec_uir().func_bodies@ == old(self).spec_uir().func_bodies@,
            extends(old(self).spec_uir(), final(self).spec_uir()),
    {
        let n = self.uir.instructions.len();
        let ghost old_u = self.uir;
        self.uir.instructions.push(inst);
        proof {
            assert forall|i: int| 0 <= i < self.uir.instructions@.len() implies data_below(#[trigger] self.uir.instructions@[i].data, i) by {
                if i < n {
                    assert(self.uir.instructions@[i] == old_u.instructions@[i]);
                }
            }
            assert forall|f: int| 0 <= f < self.uir.func_bodies@.len() implies irefs_below(#[trigger] self.uir.func_bodies@[f].body@, self.uir.instructions@.len() as int) by {
                lemma_irefs_below_mono(old_u.func_bodies@[f].body@, old_u.instructions@.len() as int, self.uir.instructions@.len() as int);
            }
        }
        InstRef(n as u32)
    }

    /// A call instruction with copies of `args`.
    pub fn call(&mut self, name: StringId, args: &[InstRef], span: Span) -> (r: InstRef)
        requires
            old(self).wf(),
            old(self).has_room(),
            irefs_below(args@, old(self).spec_len()),
        ensures
            final(self).wf(),
            r.0 == old(self).spec_len(),
            final(self).spec_uir().instructions@.len() == old(self).spec_len() + 1,
            final(self).spec_uir().spec_inst(r).tag == InstTag::Call,
            final(self).spec_uir().spec_inst(r).span == span,
            final(self).spec_uir().spec_inst(r).data matches InstData::Call(v) && v.name == name && v.args@ == args@,
            extends(old(self).spec_uir(), final(self).spec_uir()),
    {
        let v = CallView { name, args: copy_irefs(args) };
        self.push(UirInst { tag: InstTag::Call, data: InstData::Call(v), span })
    }

    /// A method call instruction with copies of `args`.
    pub fn method_call(&mut self, receiver: InstRef, method: StringId, args: &[InstRef], span: Span) -> (r: InstRef)
        requires
            old(self).wf(),
            old(self).has_room(),
            receiver.0 < old(self).spec_len(),
            irefs_below(args@, old(self).spec_len()),
        ensures
            final(self).wf(),
            r.0 == old(self).spec_len(),
            final(self).spec_uir().instructions@.len() == old(self).spec_len() + 1,
            final(self).spec_uir().spec_inst(r).tag == InstTag::MethodCall,
            final(self).spec_uir().spec_inst(r).span == span,
            final(self).spec_uir().spec_inst(r).data matches InstData::MethodCall(v) && v.receiver == receiver && v.method == method && v.args@ == args@,
            extends(old(self).spec_uir(), final(self).spec_uir()),
    {
        let v = MethodCallView { receiver, method, args: copy_irefs(args) };
        self.push(UirInst { tag: InstTag::MethodCall, data: InstData::MethodCall(v), span })
    }

    /// Add a function whose top-level statements are `body`.
    pub fn add_function(&mut self, name: StringId, params: Vec<UirParam>, return_type: TypeId, body: &[InstRef], span: Span)
        requires
            old(self).wf(),
            irefs_below(body@, old(self).spec_len()),
        ensures
            final(self).wf(),
            final(self).spec_uir().instructions@ == old(self).spec_uir().instructions@,
            final(self).spec_uir().func_bodies@.len() == old(self).spec_uir().func_bodies@.len() + 1,
            final(self).spec_uir().func_bodies@.drop_last() == old(self).spec_uir().func_bodies@,
            ({
                let f = final(self).spec_uir().func_bodies@.last();
                &&& f.name == name
                &&& f.params@ == params@
                &&& f.return_type == return_type
                &&& f.body@ == body@
                &&& f.span == span
            }),
    {
        let ghost old_u = self.uir;
        self.uir.func_bodies.push(FuncBody { name, params, return_type, body: copy_irefs(body), span });
        proof {
            assert(self.uir.func_bodies@.drop_last() =~= old_u.func_bodies@);
            assert forall|f: int| 0 <= f < self.uir.func_bodies@.len() implies irefs_below(#[trigger] self.uir.func_bodies@[f].body@, self.uir.instructions@.len() as int) by {
                if f < old_u.func_bodies@.len() {
                    assert(self.uir.func_bodies@[f] == old_u.func_bodies@[f]);
                    assert(irefs_below(old_u.func_bodies@[f].body@, old_u.instructions@.len() as int));
                } else {
                    assert(f == old_u.func_bodies@.len());
                    assert(self.uir.func_bodies@[f].body@ == body@);
                    assert(irefs_below(body@, old_u.instructions@.len() as int));
                }
            }
        }
    }

    pub fn finish(self) -> (u: Uir)
        requires
            self.wf(),
        ensures
            u == self.spec_uir(),
            u.wf(),
    {
        self.uir
    }
}


/// The dump name of an instruction tag.
pub open spec fn tag_name(t: InstTag) -> Seq<char> {
    match t {
        InstTag::IntLiteral => "int_literal"@,
        InstTag::StrLiteral => "str_literal"@,
        InstTag::BoolLiteral => "bool_literal"@,
        InstTag::FloatLiteral => "float_literal"@,
        InstTag::Var => "var"@,
        InstTag::Add => "add"@,
        InstTag::Sub => "sub"@,
        InstTag::Mul => "mul"@,
        InstTag::Div => "div"@,
        InstTag::Mod => "mod"@,
        InstTag::Eq => "eq"@,
        InstTag::NotEq => "not_eq"@,
        InstTag::Lt => "lt"@,
        InstTag::Gt => "gt"@,
        InstTag::LtEq => "lt_eq"@,
        InstTag::GtEq => "gt_eq"@,
        InstTag::And => "and"@,
        InstTag::Or => "or"@,
        InstTag::Neg => "neg"@,
        InstTag::Not => "not"@,
        InstTag::Call => "call"@,
        InstTag::MethodCall => "method_call"@,
        InstTag::Borrow => "borrow"@,
        InstTag::Slice => "slice"@,
        InstTag::VarDecl => "var_decl"@,
        InstTag::AssignOrDecl => "assign_or_decl"@,
        InstTag::CompoundAssign => "compound_assign"@,
        InstTag::Return => "return"@,
        InstTag::ReturnVoid => "return_void"@,
        InstTag::ExprStmt => "expr_stmt"@,
        InstTag::IfStmt => "if_stmt"@,
        InstTag::WhileLoop => "while_loop"@,
        InstTag::ForRange => "for_range"@,
        InstTag::Break => "break"@,
        InstTag::Continue => "continue"@,
    }
}

pub fn tag_str(t: InstTag) -> (s: &'static str)
    ensures
        s@ == tag_name(t),
{
    match t {
        InstTag::IntLiteral => "int_literal",
        InstTag::StrLiteral => "str_literal",
        InstTag::BoolLiteral => "bool_literal",
        InstTag::FloatLiteral => "float_literal",
        InstTag::Var => "var",
        InstTag::Add => "add",
        InstTag::Sub => "sub",
        InstTag::Mul => "mul",
        InstTag::Div => "div",
        InstTag::Mod => "mod",
        InstTag::Eq => "eq",
        InstTag::NotEq => "not_eq",
        InstTag::Lt => "lt",
        InstTag::Gt => "gt",
        InstTag::LtEq => "lt_eq",
        InstTag::GtEq => "gt_eq",
        InstTag::And => "and",
        InstTag::Or => "or",
        InstTag::Neg => "neg",
        InstTag::Not => "not",
        InstTag::Call => "call",
        InstTag::MethodCall => "method_call",
        InstTag::Borrow => "borrow",
        InstTag::Slice => "slice",
        InstTag::VarDecl => "var_decl",
        InstTag::AssignOrDecl => "assign_or_decl",
        InstTag::CompoundAssign => "compound_assign",
        InstTag::Return => "return",
        InstTag::ReturnVoid => "return_void",
        InstTag::ExprStmt => "expr_stmt",
        InstTag::IfStmt => "if_stmt",
        InstTag::WhileLoop => "while_loop",
        InstTag::ForRange => "for_range",
        InstTag::Break => "break",
        InstTag::Continue => "continue",
    }
}

/// One line of the dump per instruction, `%i = tag`, in table order.
pub open spec fn dump_lines(insts: Seq<UirInst>) -> Seq<char>
    decreases insts.len(),
{
    if insts.len() == 0 {
        Seq::empty()
    } else {
        dump_lines(insts.drop_last()) + "%"@ + crate::text::decimal((insts.len() - 1) as nat) + " = "@ + tag_name(
            insts.last().tag,
        ) + "\n"@
    }
}

impl Uir {
    /// Text listing of the instruction table.
    pub fn dump(&self) -> (s: String)
        ensures
            s@ == dump_lines(self.instructions@),
    {
        let mut s = String::new();
        let mut i: usize = 0;
        assert(self.instructions@.take(0) =~= Seq::<UirInst>::empty());
        while i < self.instructions.len()
            invariant
                i <= self.instructions@.len(),
                s@ == dump_lines(self.instructions@.take(i as int)),
            decreases self.instructions@.len() - i,
        {
            let ghost t = self.instructions@.take(i + 1);
            assert(t.drop_last() =~= self.instructions@.take(i as int));
            s.append("%");
            let num = crate::text::decimal_string(i);
            s.append(num.as_str());
            s.append(" = ");
            s.append(tag_str(self.instructions[i].tag));
            s.append("\n");
            i = i + 1;
        }
        assert(self.instructions@.take(self.instructions@.len() as int) =~= self.instructions@);
        s
    }
}

} // verus!
