//! Syntax tree as the parser hands it to AST lowering.
//!
//! Nodes live in a flat table; a `NodeRef` is an index into it. The
//! parser builds children before their parent, so every child reference
//! is smaller than its parent's: the tree's edges all point backwards.
use vstd::prelude::*;
use crate::types::{Span, StringId};
use crate::tir::ParamMode;

verus! {

#[derive(Clone, Copy, PartialEq, Eq, Structural, Debug, Hash)]
pub struct NodeRef(pub u32);

/// A name with the span where it is written.
#[derive(Clone, Copy, PartialEq, Eq, Structural, Debug)]
pub struct Ident {
    pub name: StringId,
    pub span: Span,
}

/// A written type: a name, or the legacy `&name` view syntax.
#[derive(Clone, Copy, PartialEq, Eq, Structural, Debug)]
pub struct TypeExpr {
    pub name: StringId,
    pub is_view: bool,
    pub span: Span,
}

#[derive(Clone, Copy, PartialEq, Eq, Structural, Debug)]
pub struct Param {
    pub name: Ident,
    pub type_annotation: TypeExpr,
    pub mode: ParamMode,
    pub span: Span,
}

#[derive(Clone, Copy, PartialEq, Eq, Structural, Debug)]
pub enum BinaryOperator {
    Add,
    Sub,
    Mul,
    Div,
    Mod,
    Eq,
    NotEq,
    Lt,
    Gt,
    LtEq,
    GtEq,
    And,
    Or,
}

#[derive(Clone, Copy, PartialEq, Eq, Structural, Debug)]
pub enum UnaryOperator {
    Neg,
    Not,
}

/// Operator of a compound assignment (`+=`, `-=`, ...).
#[derive(Clone, Copy, PartialEq, Eq, Structural, Debug)]
pub enum CompoundOp {
    Add,
    Sub,
    Mul,
    Div,
    Mod,
}

/// A literal. A float literal is kept as its IEEE-754 bit pattern.
#[derive(Clone, Copy, PartialEq, Eq, Structural, Debug)]
pub enum Literal {
    Int(i64),
    Str(StringId),
    Bool(bool),
    Float(u64),
}

#[derive(Debug)]
pub struct FunctionDef {
    pub name: Ident,
    pub params: Vec<Param>,
    pub return_type: Option<TypeExpr>,
    pub body: Vec<NodeRef>,
}

#[derive(Debug)]
pub struct ElifBranch {
    pub cond: NodeRef,
    pub block: Vec<NodeRef>,
}

#[derive(Debug)]
pub struct IfNode {
    pub cond: NodeRef,
    pub then_block: Vec<NodeRef>,
    pub elif_branches: Vec<ElifBranch>,
    pub else_block: Option<Vec<NodeRef>>,
}

/// What a node is, with its payload.
#[derive(Debug)]
#[allow(inconsistent_fields)]
pub enum NodeKind {
    FunctionDef(FunctionDef),
    VarDecl { name: Ident, mutable: bool, type_annotation: Option<TypeExpr>, initializer: NodeRef },
    Return(Option<NodeRef>),
    ExprStmt(NodeRef),
    AssignOrDecl { target: Ident, value: NodeRef },
    CompoundAssign { target: Ident, op: CompoundOp, value: NodeRef },
    IfStmt(IfNode),
    WhileLoop { cond: NodeRef, body: Vec<NodeRef> },
    ForRange { var: Ident, iterator: Ident, start: NodeRef, end: NodeRef, body: Vec<NodeRef> },
    Break,
    Continue,
    /// A statement the parser could not read; already diagnosed.
    Error,
    Literal(Literal),
    Ident(StringId),
    BinaryOp { op: BinaryOperator, lhs: NodeRef, rhs: NodeRef },
    UnaryOp { op: UnaryOperator, operand: NodeRef },
    Call { name: StringId, args: Vec<NodeRef> },
    MethodCall { receiver: NodeRef, method: StringId, args: Vec<NodeRef> },
    Borrow(NodeRef),
    Slice { base: NodeRef, start: Option<NodeRef>, end: Option<NodeRef> },
}

#[derive(Debug)]
pub struct Node {
    pub kind: NodeKind,
    pub span: Span,
}

/// A parsed program: the node table and the top-level statements.
#[derive(Debug)]
pub struct Ast {
    pub nodes: Vec<Node>,
    pub top_level: Vec<NodeRef>,
}

pub open spec fn refs_below(s: Seq<NodeRef>, i: int) -> bool {
    forall|j: int| 0 <= j < s.len() ==> (#[trigger] s[j]).0 < i
}

pub open spec fn opt_below(o: Option<NodeRef>, i: int) -> bool {
    o matches Some(r) ==> r.0 < i
}

pub open spec fn opt_block(o: Option<Vec<NodeRef>>) -> Seq<NodeRef> {
    match o {
        Some(v) => v@,
        None => Seq::empty(),
    }
}

/// Every reference a node holds is below `i`.
pub open spec fn kind_below(k: NodeKind, i: int) -> bool {
    match k {
        NodeKind::FunctionDef(f) => refs_below(f.body@, i),
        NodeKind::VarDecl { initializer, .. } => initializer.0 < i,
        NodeKind::Return(o) => opt_below(o, i),
        NodeKind::ExprStmt(e) => e.0 < i,
        NodeKind::AssignOrDecl { value, .. } => value.0 < i,
        NodeKind::CompoundAssign { value, .. } => value.0 < i,
        NodeKind::IfStmt(v) => {
            &&& v.cond.0 < i
            &&& refs_below(v.then_block@, i)
            &&& forall|j: int| 0 <= j < v.elif_branches@.len() ==> (#[trigger] v.elif_branches@[j]).cond.0 < i && refs_below(v.elif_branches@[j].block@, i)
            &&& refs_below(opt_block(v.else_block), i)
        },
        NodeKind::WhileLoop { cond, body } => cond.0 < i && refs_below(body@, i),
        NodeKind::ForRange { start, end, body, .. } => start.0 < i && end.0 < i && refs_below(body@, i),
        NodeKind::BinaryOp { lhs, rhs, .. } => lhs.0 < i && rhs.0 < i,
        NodeKind::UnaryOp { operand, .. } => operand.0 < i,
        NodeKind::Call { args, .. } => refs_below(args@, i),
        NodeKind::MethodCall { receiver, args, .. } => receiver.0 < i && refs_below(args@, i),
        NodeKind::Borrow(e) => e.0 < i,
        NodeKind::Slice { base, start, end } => base.0 < i && opt_below(start, i) && opt_below(end, i),
        _ => true,
    }
}

impl Ast {
    pub fn new() -> (a: Ast)
        ensures
            a.wf(),
            a.nodes@.len() == 0,
            a.top_level@.len() == 0,
    {
        Ast { nodes: Vec::new(), top_level: Vec::new() }
    }

    pub open spec fn valid(&self, r: NodeRef) -> bool {
        r.0 < self.nodes@.len()
    }

    pub open spec fn kind(&self, r: NodeRef) -> NodeKind {
        self.nodes@[r.0 as int].kind
    }

    pub open spec fn spec_span(&self, r: NodeRef) -> Span {
        self.nodes@[r.0 as int].span
    }

    /// Children before parents; top-level statements are nodes.
    pub open spec fn wf(&self) -> bool {
        &&& self.nodes@.len() < u32::MAX
        &&& forall|i: int| 0 <= i < self.nodes@.len() ==> kind_below(#[trigger] self.nodes@[i].kind, i)
        &&& forall|j: int| 0 <= j < self.top_level@.len() ==> self.valid(#[trigger] self.top_level@[j])
    }

    /// Append a node whose children are already in the table.
    pub fn push(&mut self, kind: NodeKind, span: Span) -> (r: NodeRef)
        requires
            old(self).wf(),
            old(self).nodes@.len() + 1 < u32::MAX,
            kind_below(kind, old(self).nodes@.len() as int),
        ensures
            final(self).wf(),
            r.0 == old(self).nodes@.len(),
            final(self).nodes@ == old(self).nodes@.push(Node { kind, span }),
            final(self).top_level@ == old(self).top_level@,
    {
        let n = self.nodes.len();
        let ghost old_nodes = self.nodes@;
        self.nodes.push(Node { kind, span });
        proof {
            assert forall|i: int| 0 <= i < self.nodes@.len() implies kind_below(#[trigger] self.nodes@[i].kind, i) by {
                if i < n {
                    assert(self.nodes@[i] == old_nodes[i]);
                }
            }
        }
        NodeRef(n as u32)
    }

    /// Append a top-level statement.
    pub fn push_top_level(&mut self, r: NodeRef)
        requires
            old(self).wf(),
            old(self).valid(r),
        ensures
            final(self).wf(),
            final(self).nodes@ == old(self).nodes@,
            final(self).top_level@ == old(self).top_level@.push(r),
    {
        self.top_level.push(r);
    }

    pub fn node(&self, r: NodeRef) -> (n: &Node)
        requires
            self.valid(r),
        ensures
            n.kind == self.kind(r),
            n.span == self.spec_span(r),
    {
        &self.nodes[r.0 as usize]
    }

    pub fn span(&self, r: NodeRef) -> (s: Span)
        requires
            self.valid(r),
        ensures
            s == self.spec_span(r),
    {
        self.nodes[r.0 as usize].span
    }

    pub proof fn lemma_below(&self, r: NodeRef)
        requires
            self.wf(),
            self.valid(r),
        ensures
            kind_below(self.kind(r), r.0 as int),
    {
        assert(kind_below(self.nodes@[r.0 as int].kind, r.0 as int));
    }
}

} // verus!
