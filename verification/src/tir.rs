//! Typed IR of one function, as the ownership pass reads it.
//!
//! Instructions live in a flat table; a `TirRef` is an index into it.
//! Every operand and nested body statement of an instruction was built
//! before it, so it has a smaller index: the IR is a tree whose edges all
//! point backwards. Parameters have virtual references above every
//! instruction index.
use vstd::prelude::*;
use crate::types::{Span, StringId, TypeId};

verus! {

/// Virtual references of parameters start here.
pub const PARAM_BASE: u32 = 0x8000_0000u32;

#[derive(Clone, Copy, PartialEq, Eq, Structural, Debug, Hash)]
pub struct TirRef(pub u32);

impl TirRef {
    /// Virtual reference of parameter `idx`.
    pub fn param(idx: usize) -> (r: TirRef)
        requires
            idx < PARAM_BASE,
        ensures
            r == spec_param_ref(idx as int),
    {
        TirRef(PARAM_BASE + idx as u32)
    }

    pub fn raw(self) -> (r: u32)
        ensures
            r == self.0,
    {
        self.0
    }
}

pub open spec fn spec_param_ref(idx: int) -> TirRef {
    TirRef((PARAM_BASE + idx) as u32)
}

/// How an argument is passed.
#[derive(Clone, Copy, PartialEq, Eq, Structural, Debug)]
pub enum ParamMode {
    Move,
    Borrow,
    Inout,
}

#[derive(Clone, Copy, PartialEq, Eq, Structural, Debug)]
pub enum TirTag {
    IntConst,
    FloatConst,
    BoolConst,
    StrConst,
    Var,
    Add,
    Sub,
    Mul,
    Div,
    Mod,
    Eq,
    NotEq,
    Lt,
    Gt,
    LtEq,
    GtEq,
    And,
    Or,
    Neg,
    Not,
    StrConcat,
    Call,
    VarDecl,
    Assign,
    CompoundAssign,
    Return,
    ReturnVoid,
    ExprStmt,
    IfStmt,
    WhileLoop,
    ForRange,
    Break,
    Continue,
}

/// Inline payload of an instruction. `Extra(k)` points at entry `k` of
/// the function's side table of structured payloads.
#[derive(Clone, Copy, PartialEq, Eq, Structural, Debug)]
pub enum TirData {
    NoData,
    Int(i64),
    /// Bit pattern of a float literal.
    Float(u64),
    Str(StringId),
    Bool(bool),
    Var(StringId),
    UnOp(TirRef),
    BinOp { lhs: TirRef, rhs: TirRef },
    Extra(u32),
}

#[derive(Clone, Copy, PartialEq, Eq, Structural, Debug)]
pub struct Inst {
    pub tag: TirTag,
    pub ty: TypeId,
    pub span: Span,
    pub data: TirData,
}

#[derive(Clone, Copy, PartialEq, Eq, Structural, Debug)]
pub struct TirParam {
    pub name: StringId,
    pub ty: TypeId,
    pub mode: ParamMode,
    pub span: Span,
}

pub struct CallView {
    pub name: StringId,
    pub args: Vec<TirRef>,
    pub modes: Vec<ParamMode>,
}

pub struct VarDeclView {
    pub name: StringId,
    pub mutable: bool,
    pub initializer: TirRef,
}

pub struct AssignView {
    pub name: StringId,
    pub value: TirRef,
}

pub struct CompoundAssignView {
    pub name: StringId,
    pub op: TirTag,
    pub value: TirRef,
}

pub struct ElifArm {
    pub cond: TirRef,
    pub body: Vec<TirRef>,
}

pub struct IfStmtView {
    pub cond: TirRef,
    pub then_stmts: Vec<TirRef>,
    pub elif_branches: Vec<ElifArm>,
    pub else_stmts: Option<Vec<TirRef>>,
}

pub struct WhileLoopView {
    pub cond: TirRef,
    pub body: Vec<TirRef>,
}

pub struct ForRangeView {
    pub var: StringId,
    pub start: TirRef,
    pub end: TirRef,
    pub body: Vec<TirRef>,
}

/// Structured payloads.
pub enum Extra {
    Call(CallView),
    VarDecl(VarDeclView),
    Assign(AssignView),
    CompoundAssign(CompoundAssignView),
    IfStmt(IfStmtView),
    WhileLoop(WhileLoopView),
    ForRange(ForRangeView),
}

/// One lowered function.
pub struct Tir {
    pub name: StringId,
    pub params: Vec<TirParam>,
    pub ret_ty: TypeId,
    pub span: Span,
    pub insts: Vec<Inst>,
    pub extra: Vec<Extra>,
    pub body: Vec<TirRef>,
}

/// Distinguishes the two kinds of (parent, child) edges: a direct data
/// dependency (`Operand`, a consumer of the child) and a statement nested
/// in an `if` / `while` / `for` body (`BodyStmt`).
#[derive(Clone, Copy, PartialEq, Eq, Structural, Debug)]
pub enum ChildKind {
    Operand,
    BodyStmt,
}

pub type Edge = (TirRef, ChildKind);

/// Tags whose payload lives in the side table.
pub open spec fn is_extra_tag(tag: TirTag) -> bool {
    ||| tag == TirTag::Call
    ||| tag == TirTag::VarDecl
    ||| tag == TirTag::Assign
    ||| tag == TirTag::CompoundAssign
    ||| tag == TirTag::IfStmt
    ||| tag == TirTag::WhileLoop
    ||| tag == TirTag::ForRange
}

pub open spec fn extra_matches(tag: TirTag, e: Extra) -> bool {
    match e {
        Extra::Call(_) => tag == TirTag::Call,
        Extra::VarDecl(_) => tag == TirTag::VarDecl,
        Extra::Assign(_) => tag == TirTag::Assign,
        Extra::CompoundAssign(_) => tag == TirTag::CompoundAssign,
        Extra::IfStmt(_) => tag == TirTag::IfStmt,
        Extra::WhileLoop(_) => tag == TirTag::WhileLoop,
        Extra::ForRange(_) => tag == TirTag::ForRange,
    }
}

pub open spec fn body_edges(stmts: Seq<TirRef>) -> Seq<Edge> {
    stmts.map_values(|s: TirRef| (s, ChildKind::BodyStmt))
}

pub open spec fn operand_edges(ops: Seq<TirRef>) -> Seq<Edge> {
    ops.map_values(|s: TirRef| (s, ChildKind::Operand))
}

/// Edges of the `elif` arms, in order: each arm's condition, then its
/// body.
pub open spec fn elif_edges(arms: Seq<ElifArm>) -> Seq<Edge>
    decreases arms.len(),
{
    if arms.len() == 0 {
        Seq::empty()
    } else {
        elif_edges(arms.drop_last()) + (seq![(arms.last().cond, ChildKind::Operand)] + body_edges(
            arms.last().body@,
        ))
    }
}

pub open spec fn opt_stmts(o: Option<Vec<TirRef>>) -> Seq<TirRef> {
    match o {
        Some(v) => v@,
        None => Seq::empty(),
    }
}

/// Edges of an `if` statement in source order.
pub open spec fn if_edges(v: IfStmtView) -> Seq<Edge> {
    seq![(v.cond, ChildKind::Operand)] + body_edges(v.then_stmts@) + elif_edges(
        v.elif_branches@,
    ) + body_edges(opt_stmts(v.else_stmts))
}

/// Direct operand and body-statement edges of an instruction with payload
/// `e`, in forward source order.
pub open spec fn extra_edges(e: Extra) -> Seq<Edge> {
    match e {
        Extra::Call(v) => operand_edges(v.args@),
        Extra::VarDecl(v) => seq![(v.initializer, ChildKind::Operand)],
        Extra::Assign(v) => seq![(v.value, ChildKind::Operand)],
        Extra::CompoundAssign(v) => seq![(v.value, ChildKind::Operand)],
        Extra::IfStmt(v) => if_edges(v),
        Extra::WhileLoop(v) => seq![(v.cond, ChildKind::Operand)] + body_edges(v.body@),
        Extra::ForRange(v) => seq![(v.start, ChildKind::Operand), (v.end, ChildKind::Operand)]
            + body_edges(v.body@),
    }
}

/// Every reference held by payload `e` is below `i`.
pub open spec fn payload_below(e: Extra, i: int) -> bool {
    match e {
        Extra::Call(v) => forall|j: int| 0 <= j < v.args@.len() ==> (#[trigger] v.args@[j]).0 < i,
        Extra::VarDecl(v) => v.initializer.0 < i,
        Extra::Assign(v) => v.value.0 < i,
        Extra::CompoundAssign(v) => v.value.0 < i,
        Extra::IfStmt(v) => {
            &&& v.cond.0 < i
            &&& refs_below(v.then_stmts@, i)
            &&& forall|j: int| 0 <= j < v.elif_branches@.len() ==> (#[trigger] v.elif_branches@[j]).cond.0 < i && refs_below(v.elif_branches@[j].body@, i)
            &&& refs_below(opt_stmts(v.else_stmts), i)
        },
        Extra::WhileLoop(v) => v.cond.0 < i && refs_below(v.body@, i),
        Extra::ForRange(v) => v.start.0 < i && v.end.0 < i && refs_below(v.body@, i),
    }
}

pub open spec fn refs_below(s: Seq<TirRef>, i: int) -> bool {
    forall|j: int| 0 <= j < s.len() ==> (#[trigger] s[j]).0 < i
}

impl Tir {
    pub open spec fn valid_ref(&self, r: TirRef) -> bool {
        r.0 < self.insts@.len()
    }

    pub open spec fn spec_inst(&self, r: TirRef) -> Inst {
        self.insts@[r.0 as int]
    }

    pub open spec fn spec_extra(&self, r: TirRef) -> Extra {
        match self.spec_inst(r).data {
            TirData::Extra(k) => self.extra@[k as int],
            _ => arbitrary(),
        }
    }

    /// Direct children of `r`, in forward source order.
    pub open spec fn children(&self, r: TirRef) -> Seq<Edge> {
        match self.spec_inst(r).data {
            TirData::UnOp(o) => seq![(o, ChildKind::Operand)],
            TirData::BinOp { lhs, rhs } => seq![(lhs, ChildKind::Operand), (rhs, ChildKind::Operand)],
            TirData::Extra(k) => extra_edges(self.extra@[k as int]),
            _ => Seq::empty(),
        }
    }

    pub open spec fn inst_wf(&self, i: int) -> bool {
        let inst = self.insts@[i];
        &&& (inst.data is Extra) == is_extra_tag(inst.tag)
        &&& (inst.data matches TirData::Extra(k) ==> (k < self.extra@.len() && extra_matches(
            inst.tag,
            self.extra@[k as int],
        ) && payload_below(self.extra@[k as int], i)))
        &&& (inst.data matches TirData::UnOp(o) ==> o.0 < i)
        &&& (inst.data matches TirData::BinOp { lhs, rhs } ==> lhs.0 < i && rhs.0 < i)
        &&& (inst.tag == TirTag::Var ==> inst.data is Var)
        &&& (inst.tag == TirTag::Return ==> inst.data is UnOp)
        &&& (inst.tag == TirTag::ExprStmt ==> inst.data is UnOp)
        &&& forall|j: int|
            0 <= j < self.children(TirRef(i as u32)).len() ==> (#[trigger] self.children(
                TirRef(i as u32),
            )[j]).0.0 < i
    }

    /// Well-formed IR: consistent payloads, all edges pointing backwards,
    /// body statements in range.
    pub open spec fn wf(&self) -> bool {
        &&& self.insts@.len() < PARAM_BASE
        &&& self.params@.len() < PARAM_BASE
        &&& forall|i: int| 0 <= i < self.insts@.len() ==> #[trigger] self.inst_wf(i)
        &&& forall|j: int| 0 <= j < self.body@.len() ==> #[trigger] self.body@[j].0 < self.insts@.len()
    }

    pub proof fn lemma_child_lt(&self, r: TirRef, j: int)
        requires
            self.wf(),
            self.valid_ref(r),
            0 <= j < self.children(r).len(),
        ensures
            self.children(r)[j].0.0 < r.0,
    {
        assert(self.inst_wf(r.0 as int));
        assert(TirRef(r.0 as int as u32) == r);
    }

    pub proof fn lemma_payload_below(&self, r: TirRef)
        requires
            self.wf(),
            self.valid_ref(r),
            is_extra_tag(self.spec_inst(r).tag),
        ensures
            payload_below(self.spec_extra(r), r.0 as int),
            extra_matches(self.spec_inst(r).tag, self.spec_extra(r)),
    {
        assert(self.inst_wf(r.0 as int));
    }

    pub proof fn lemma_inline_below(&self, r: TirRef)
        requires
            self.wf(),
            self.valid_ref(r),
        ensures
            self.spec_inst(r).data matches TirData::UnOp(o) ==> o.0 < r.0,
            self.spec_inst(r).data matches TirData::BinOp { lhs, rhs } ==> lhs.0 < r.0 && rhs.0 < r.0,
            self.spec_inst(r).tag == TirTag::Var ==> self.spec_inst(r).data is Var,
            self.spec_inst(r).tag == TirTag::Return ==> self.spec_inst(r).data is UnOp,
            self.spec_inst(r).tag == TirTag::ExprStmt ==> self.spec_inst(r).data is UnOp,
            (self.spec_inst(r).data is Extra) == is_extra_tag(self.spec_inst(r).tag),
    {
        assert(self.inst_wf(r.0 as int));
    }

    pub fn inst(&self, r: TirRef) -> (i: &Inst)
        requires
            self.valid_ref(r),
        ensures
            *i == self.spec_inst(r),
    {
        &self.insts[r.0 as usize]
    }

    pub fn span(&self, r: TirRef) -> (s: Span)
        requires
            self.valid_ref(r),
        ensures
            s == self.spec_inst(r).span,
    {
        self.insts[r.0 as usize].span
    }

    pub fn body_stmts(&self) -> (v: Vec<TirRef>)
        ensures
            v@ == self.body@,
    {
        let mut v: Vec<TirRef> = Vec::new();
        let mut i: usize = 0;
        while i < self.body.len()
            invariant
                i <= self.body@.len(),
                v@ == self.body@.take(i as int),
            decreases self.body@.len() - i,
        {
            v.push(self.body[i]);
            assert(v@ =~= self.body@.take(i + 1));
            i = i + 1;
        }
        assert(v@ =~= self.body@);
        v
    }

    fn extra_of(&self, r: TirRef) -> (e: &Extra)
        requires
            self.wf(),
            self.valid_ref(r),
            is_extra_tag(self.spec_inst(r).tag),
        ensures
            *e == self.spec_extra(r),
            extra_matches(self.spec_inst(r).tag, *e),
    {
        assert(self.inst_wf(r.0 as int));
        match self.insts[r.0 as usize].data {
            TirData::Extra(k) => &self.extra[k as usize],
            _ => {
                proof {
                    assert(false);
                }
                &self.extra[0]
            },
        }
    }

    pub fn call_view(&self, r: TirRef) -> (v: &CallView)
        requires
            self.wf(),
            self.valid_ref(r),
            self.spec_inst(r).tag == TirTag::Call,
        ensures
            self.spec_extra(r) == Extra::Call(*v),
    {
        match self.extra_of(r) {
            Extra::Call(v) => v,
            _ => {
                proof {
                    assert(false);
                }
                vstd::pervasive::unreached()
            },
        }
    }

    pub fn var_decl_view(&self, r: TirRef) -> (v: &VarDeclView)
        requires
            self.wf(),
            self.valid_ref(r),
            self.spec_inst(r).tag == TirTag::VarDecl,
        ensures
            self.spec_extra(r) == Extra::VarDecl(*v),
    {
        match self.extra_of(r) {
            Extra::VarDecl(v) => v,
            _ => vstd::pervasive::unreached(),
        }
    }

    pub fn assign_view(&self, r: TirRef) -> (v: &AssignView)
        requires
            self.wf(),
            self.valid_ref(r),
            self.spec_inst(r).tag == TirTag::Assign,
        ensures
            self.spec_extra(r) == Extra::Assign(*v),
    {
        match self.extra_of(r) {
            Extra::Assign(v) => v,
            _ => vstd::pervasive::unreached(),
        }
    }

    pub fn compound_assign_view(&self, r: TirRef) -> (v: &CompoundAssignView)
        requires
            self.wf(),
            self.valid_ref(r),
            self.spec_inst(r).tag == TirTag::CompoundAssign,
        ensures
            self.spec_extra(r) == Extra::CompoundAssign(*v),
    {
        match self.extra_of(r) {
            Extra::CompoundAssign(v) => v,
            _ => vstd::pervasive::unreached(),
        }
    }

    pub fn if_stmt_view(&self, r: TirRef) -> (v: &IfStmtView)
        requires
            self.wf(),
            self.valid_ref(r),
            self.spec_inst(r).tag == TirTag::IfStmt,
        ensures
            self.spec_extra(r) == Extra::IfStmt(*v),
    {
        match self.extra_of(r) {
            Extra::IfStmt(v) => v,
            _ => vstd::pervasive::unreached(),
        }
    }

    pub fn while_loop_view(&self, r: TirRef) -> (v: &WhileLoopView)
        requires
            self.wf(),
            self.valid_ref(r),
            self.spec_inst(r).tag == TirTag::WhileLoop,
        ensures
            self.spec_extra(r) == Extra::WhileLoop(*v),
    {
        match self.extra_of(r) {
            Extra::WhileLoop(v) => v,
            _ => vstd::pervasive::unreached(),
        }
    }

    pub fn for_range_view(&self, r: TirRef) -> (v: &ForRangeView)
        requires
            self.wf(),
            self.valid_ref(r),
            self.spec_inst(r).tag == TirTag::ForRange,
        ensures
            self.spec_extra(r) == Extra::ForRange(*v),
    {
        match self.extra_of(r) {
            Extra::ForRange(v) => v,
            _ => vstd::pervasive::unreached(),
        }
    }
}

} // verus!
