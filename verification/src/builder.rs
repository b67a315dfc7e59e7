//! Incremental construction of a function's IR. Every instruction is
//! appended after its operands and body statements, so the IR under
//! construction is well formed at every step.
use vstd::prelude::*;
use crate::types::{Span, StringId, TypeId};
use crate::tir::{
    Tir, TirRef, TirTag, TirData, TirParam, ParamMode, Inst, Extra, CallView, VarDeclView,
    AssignView, IfStmtView, WhileLoopView, ForRangeView, ElifArm, Edge, PARAM_BASE, is_extra_tag,
    extra_matches, payload_below, refs_below, extra_edges, body_edges, elif_edges, opt_stmts,
};

verus! {

/// Builds one function's IR; `finish` hands it out.
pub struct TirBuilder {
    tir: Tir,
}

/// Every edge of `es` points below `n`.
pub open spec fn edges_below(es: Seq<Edge>, n: int) -> bool {
    forall|j: int| 0 <= j < es.len() ==> (#[trigger] es[j]).0.0 < n
}

/// `after` is `before` with one more instruction at the end: the header
/// stays, and every earlier instruction keeps its payload.
pub open spec fn appended(before: Tir, after: Tir) -> bool {
    &&& after.name == before.name
    &&& after.params@ == before.params@
    &&& after.ret_ty == before.ret_ty
    &&& after.span == before.span
    &&& after.body@ == before.body@
    &&& after.insts@.len() == before.insts@.len() + 1
    &&& after.insts@.drop_last() == before.insts@
    &&& forall|i: int| 0 <= i < before.insts@.len() ==> #[trigger] after.spec_extra(TirRef(i as u32))
        == before.spec_extra(TirRef(i as u32))
}

proof fn lemma_edges_below_concat(a: Seq<Edge>, b: Seq<Edge>, n: int)
    requires
        edges_below(a, n),
        edges_below(b, n),
    ensures
        edges_below(a + b, n),
{
    assert forall|j: int| 0 <= j < (a + b).len() implies (#[trigger] (a + b)[j]).0.0 < n by {
        if j < a.len() {
            assert((a + b)[j] == a[j]);
        } else {
            assert((a + b)[j] == b[j - a.len()]);
        }
    }
}

proof fn lemma_body_edges_below(s: Seq<TirRef>, n: int)
    requires
        refs_below(s, n),
    ensures
        edges_below(body_edges(s), n),
{
    assert forall|j: int| 0 <= j < body_edges(s).len() implies (#[trigger] body_edges(s)[j]).0.0 < n by {
        assert(body_edges(s)[j].0 == s[j]);
    }
}

proof fn lemma_elif_edges_below(arms: Seq<ElifArm>, n: int)
    requires
        forall|j: int| 0 <= j < arms.len() ==> (#[trigger] arms[j]).cond.0 < n && refs_below(arms[j].body@, n),
    ensures
        edges_below(elif_edges(arms), n),
    decreases arms.len(),
{
    if arms.len() > 0 {
        assert forall|j: int| 0 <= j < arms.drop_last().len() implies (#[trigger] arms.drop_last()[j]).cond.0 < n && refs_below(arms.drop_last()[j].body@, n) by {
            assert(arms.drop_last()[j] == arms[j]);
        }
        lemma_elif_edges_below(arms.drop_last(), n);
        let last = arms[arms.len() - 1];
        lemma_body_edges_below(last.body@, n);
        let head = seq![(last.cond, crate::tir::ChildKind::Operand)];
        assert(edges_below(head, n));
        lemma_edges_below_concat(head, body_edges(last.body@), n);
        lemma_edges_below_concat(elif_edges(arms.drop_last()), head + body_edges(last.body@), n);
    }
}

/// The edges of a payload point where its references do.
proof fn lemma_extra_edges_below(e: Extra, n: int)
    requires
        payload_below(e, n),
    ensures
        edges_below(extra_edges(e), n),
{
    match e {
        Extra::Call(v) => {
            assert forall|j: int| 0 <= j < extra_edges(e).len() implies (#[trigger] extra_edges(e)[j]).0.0 < n by {
                assert(extra_edges(e)[j].0 == v.args@[j]);
            }
        },
        Extra::IfStmt(v) => {
            let a = seq![(v.cond, crate::tir::ChildKind::Operand)];
            assert(edges_below(a, n));
            lemma_body_edges_below(v.then_stmts@, n);
            lemma_elif_edges_below(v.elif_branches@, n);
            lemma_body_edges_below(opt_stmts(v.else_stmts), n);
            lemma_edges_below_concat(a, body_edges(v.then_stmts@), n);
            lemma_edges_below_concat(a + body_edges(v.then_stmts@), elif_edges(v.elif_branches@), n);
            lemma_edges_below_concat(
                a + body_edges(v.then_stmts@) + elif_edges(v.elif_branches@),
                body_edges(opt_stmts(v.else_stmts)),
                n,
            );
        },
        Extra::WhileLoop(v) => {
            let a = seq![(v.cond, crate::tir::ChildKind::Operand)];
            assert(edges_below(a, n));
            lemma_body_edges_below(v.body@, n);
            lemma_edges_below_concat(a, body_edges(v.body@), n);
        },
        Extra::ForRange(v) => {
            let a = seq![(v.start, crate::tir::ChildKind::Operand), (v.end, crate::tir::ChildKind::Operand)];
            assert(edges_below(a, n));
            lemma_body_edges_below(v.body@, n);
            lemma_edges_below_concat(a, body_edges(v.body@), n);
        },
        _ => {},
    }
}

/// An inline payload that can stand on an instruction with tag `tag` at
/// index `n`.
pub open spec fn inline_ok(tag: TirTag, data: TirData, n: int) -> bool {
    &&& !is_extra_tag(tag)
    &&& !(data is Extra)
    &&& (data matches TirData::UnOp(o) ==> o.0 < n)
    &&& (data matches TirData::BinOp { lhs, rhs } ==> lhs.0 < n && rhs.0 < n)
    &&& (tag == TirTag::Var ==> data is Var)
    &&& (tag == TirTag::Return ==> data is UnOp)
    &&& (tag == TirTag::ExprStmt ==> data is UnOp)
}

fn copy_refs(s: &[TirRef]) -> (v: Vec<TirRef>)
    ensures
        v@ == s@,
{
    let mut v: Vec<TirRef> = Vec::new();
    let mut i: usize = 0;
    while i < s.len()
        invariant
            i <= s@.len(),
            v@ == s@.take(i as int),
        decreases s@.len() - i,
    {
        v.push(s[i]);
        assert(v@ =~= s@.take(i + 1));
        i = i + 1;
    }
    assert(v@ =~= s@);
    v
}

fn copy_modes(s: &[ParamMode]) -> (v: Vec<ParamMode>)
    ensures
        v@ == s@,
{
    let mut v: Vec<ParamMode> = Vec::new();
    let mut i: usize = 0;
    while i < s.len()
        invariant
            i <= s@.len(),
            v@ == s@.take(i as int),
        decreases s@.len() - i,
    {
        v.push(s[i]);
        assert(v@ =~= s@.take(i + 1));
        i = i + 1;
    }
    assert(v@ =~= s@);
    v
}

impl TirBuilder {
    /// The IR built so far: well formed, with no body yet.
    pub closed spec fn spec_tir(&self) -> Tir {
        self.tir
    }

    pub open spec fn wf(&self) -> bool {
        &&& self.spec_tir().wf()
        &&& self.spec_tir().body@.len() == 0
        &&& self.spec_tir().extra@.len() <= self.spec_tir().insts@.len()
    }

    /// Number of instructions built so far.
    pub open spec fn spec_len(&self) -> int {
        self.spec_tir().insts@.len() as int
    }

    /// Room for one more instruction.
    pub open spec fn has_room(&self) -> bool {
        self.spec_len() + 1 < PARAM_BASE
    }

    /// A reference to an instruction built so far.
    pub open spec fn built(&self, r: TirRef) -> bool {
        r.0 < self.spec_len()
    }

    pub fn new(name: StringId, params: Vec<TirParam>, ret_ty: TypeId, span: Span) -> (b: TirBuilder)
        requires
            params@.len() < PARAM_BASE,
        ensures
            b.wf(),
            b.spec_len() == 0,
            b.spec_tir().name == name,
            b.spec_tir().params@ == params@,
            b.spec_tir().ret_ty == ret_ty,
            b.spec_tir().span == span,
    {
        TirBuilder {
            tir: Tir { name, params, ret_ty, span, insts: Vec::new(), extra: Vec::new(), body: Vec::new() },
        }
    }

    proof fn lemma_push_keeps(old_b: Tir, new_b: Tir)
        requires
            old_b.wf(),
            new_b.insts@.len() == old_b.insts@.len() + 1,
            new_b.insts@.drop_last() == old_b.insts@,
            old_b.extra@.len() <= new_b.extra@.len(),
            forall|k: int| 0 <= k < old_b.extra@.len() ==> new_b.extra@[k] == old_b.extra@[k],
            new_b.params@ == old_b.params@,
        ensures
            forall|i: int| 0 <= i < old_b.insts@.len() ==> #[trigger] new_b.inst_wf(i),
    {
        assert forall|i: int| 0 <= i < old_b.insts@.len() implies #[trigger] new_b.inst_wf(i) by {
            assert(old_b.inst_wf(i));
            assert(new_b.insts@[i] == old_b.insts@[i]);
            assert(new_b.children(TirRef(i as u32)) == old_b.children(TirRef(i as u32)));
        }
    }

    /// Append an instruction with an inline payload.
    pub fn push_typed(&mut self, tag: TirTag, data: TirData, ty: TypeId, span: Span) -> (r: TirRef)
        requires
            old(self).wf(),
            old(self).has_room(),
            inline_ok(tag, data, old(self).spec_len()),
        ensures
            final(self).wf(),
            r.0 == old(self).spec_len(),
            final(self).spec_len() == old(self).spec_len() + 1,
            final(self).spec_tir().spec_inst(r) == (Inst { tag, ty, span, data }),
            appended(old(self).spec_tir(), final(self).spec_tir()),
    {
        let ghost old_t = self.tir;
        let n = self.tir.insts.len();
        self.tir.insts.push(Inst { tag, ty, span, data });
        proof {
            assert(self.tir.insts@.drop_last() =~= old_t.insts@);
            assert forall|i: int| 0 <= i < old_t.insts@.len() implies #[trigger] self.tir.spec_extra(TirRef(i as u32))
                == old_t.spec_extra(TirRef(i as u32)) by {
                assert(self.tir.insts@[i] == old_t.insts@[i]);
            }
            Self::lemma_push_keeps(old_t, self.tir);
            let i = n as int;
            assert(TirRef(i as u32) == TirRef(n as u32));
            assert(self.tir.inst_wf(i));
            assert forall|j: int| 0 <= j < self.tir.insts@.len() implies #[trigger] self.tir.inst_wf(j) by {
                if j < n {
                }
            }
        }
        TirRef(n as u32)
    }

    /// Append an instruction whose payload goes to the side table.
    fn push_extra(&mut self, tag: TirTag, e: Extra, ty: TypeId, span: Span) -> (r: TirRef)
        requires
            old(self).wf(),
            old(self).has_room(),
            is_extra_tag(tag),
            extra_matches(tag, e),
            payload_below(e, old(self).spec_len()),
        ensures
            final(self).wf(),
            r.0 == old(self).spec_len(),
            final(self).spec_len() == old(self).spec_len() + 1,
            final(self).spec_tir().spec_inst(r).tag == tag,
            final(self).spec_tir().spec_inst(r).ty == ty,
            final(self).spec_tir().spec_inst(r).span == span,
            final(self).spec_tir().spec_extra(r) == e,
            appended(old(self).spec_tir(), final(self).spec_tir()),
    {
        let ghost old_t = self.tir;
        let n = self.tir.insts.len();
        let k = self.tir.extra.len();
        self.tir.extra.push(e);
        self.tir.insts.push(Inst { tag, ty, span, data: TirData::Extra(k as u32) });
        proof {
            assert(self.tir.insts@.drop_last() =~= old_t.insts@);
            assert forall|i: int| 0 <= i < old_t.insts@.len() implies #[trigger] self.tir.spec_extra(TirRef(i as u32))
                == old_t.spec_extra(TirRef(i as u32)) by {
                assert(old_t.inst_wf(i));
                assert(self.tir.insts@[i] == old_t.insts@[i]);
            }
            Self::lemma_push_keeps(old_t, self.tir);
            let i = n as int;
            assert(TirRef(i as u32) == TirRef(n as u32));
            assert(self.tir.extra@[k as int] == e);
            lemma_extra_edges_below(e, i);
            assert(self.tir.children(TirRef(i as u32)) == extra_edges(e));
            assert(self.tir.inst_wf(i));
            assert forall|j: int| 0 <= j < self.tir.insts@.len() implies #[trigger] self.tir.inst_wf(j) by {
                if j < n {
                }
            }
        }
        TirRef(n as u32)
    }

    pub fn str_const(&mut self, s: StringId, ty: TypeId, span: Span) -> (r: TirRef)
        requires
            old(self).wf(),
            old(self).has_room(),
        ensures
            final(self).wf(),
            r.0 == old(self).spec_len(),
            final(self).spec_len() == old(self).spec_len() + 1,
            final(self).spec_tir().spec_inst(r) == (Inst { tag: TirTag::StrConst, ty, span, data: TirData::Str(s) }),
            appended(old(self).spec_tir(), final(self).spec_tir()),
    {
        self.push_typed(TirTag::StrConst, TirData::Str(s), ty, span)
    }

    pub fn int_const(&mut self, v: i64, ty: TypeId, span: Span) -> (r: TirRef)
        requires
            old(self).wf(),
            old(self).has_room(),
        ensures
            final(self).wf(),
            r.0 == old(self).spec_len(),
            final(self).spec_len() == old(self).spec_len() + 1,
            final(self).spec_tir().spec_inst(r) == (Inst { tag: TirTag::IntConst, ty, span, data: TirData::Int(v) }),
            appended(old(self).spec_tir(), final(self).spec_tir()),
    {
        self.push_typed(TirTag::IntConst, TirData::Int(v), ty, span)
    }

    pub fn bool_const(&mut self, v: bool, ty: TypeId, span: Span) -> (r: TirRef)
        requires
            old(self).wf(),
            old(self).has_room(),
        ensures
            final(self).wf(),
            r.0 == old(self).spec_len(),
            final(self).spec_len() == old(self).spec_len() + 1,
            final(self).spec_tir().spec_inst(r) == (Inst { tag: TirTag::BoolConst, ty, span, data: TirData::Bool(v) }),
            appended(old(self).spec_tir(), final(self).spec_tir()),
    {
        self.push_typed(TirTag::BoolConst, TirData::Bool(v), ty, span)
    }

    /// A read of binding `name`.
    pub fn var(&mut self, name: StringId, ty: TypeId, span: Span) -> (r: TirRef)
        requires
            old(self).wf(),
            old(self).has_room(),
        ensures
            final(self).wf(),
            r.0 == old(self).spec_len(),
            final(self).spec_len() == old(self).spec_len() + 1,
            final(self).spec_tir().spec_inst(r) == (Inst { tag: TirTag::Var, ty, span, data: TirData::Var(name) }),
            appended(old(self).spec_tir(), final(self).spec_tir()),
    {
        self.push_typed(TirTag::Var, TirData::Var(name), ty, span)
    }

    /// A one-operand instruction (negation, `not`, `return`, expression
    /// statement).
    pub fn unary(&mut self, tag: TirTag, ty: TypeId, operand: TirRef, span: Span) -> (r: TirRef)
        requires
            old(self).wf(),
            old(self).has_room(),
            old(self).built(operand),
            !is_extra_tag(tag),
            tag != TirTag::Var,
        ensures
            final(self).wf(),
            r.0 == old(self).spec_len(),
            final(self).spec_len() == old(self).spec_len() + 1,
            final(self).spec_tir().spec_inst(r) == (Inst { tag, ty, span, data: TirData::UnOp(operand) }),
            appended(old(self).spec_tir(), final(self).spec_tir()),
    {
        self.push_typed(tag, TirData::UnOp(operand), ty, span)
    }

    /// A two-operand instruction.
    pub fn binary(&mut self, tag: TirTag, ty: TypeId, lhs: TirRef, rhs: TirRef, span: Span) -> (r: TirRef)
        requires
            old(self).wf(),
            old(self).has_room(),
            old(self).built(lhs),
            old(self).built(rhs),
            !is_extra_tag(tag),
            tag != TirTag::Var,
            tag != TirTag::Return,
            tag != TirTag::ExprStmt,
        ensures
            final(self).wf(),
            r.0 == old(self).spec_len(),
            final(self).spec_len() == old(self).spec_len() + 1,
            final(self).spec_tir().spec_inst(r) == (Inst { tag, ty, span, data: TirData::BinOp { lhs, rhs } }),
            appended(old(self).spec_tir(), final(self).spec_tir()),
    {
        self.push_typed(tag, TirData::BinOp { lhs, rhs }, ty, span)
    }

    pub fn var_decl(&mut self, name: StringId, mutable: bool, ty: TypeId, init: TirRef, span: Span) -> (r: TirRef)
        requires
            old(self).wf(),
            old(self).has_room(),
            old(self).built(init),
        ensures
            final(self).wf(),
            r.0 == old(self).spec_len(),
            final(self).spec_len() == old(self).spec_len() + 1,
            final(self).spec_tir().spec_inst(r).tag == TirTag::VarDecl,
            final(self).spec_tir().spec_inst(r).ty == ty,
            final(self).spec_tir().spec_inst(r).span == span,
            final(self).spec_tir().spec_extra(r) == Extra::VarDecl(VarDeclView { name, mutable, initializer: init }),
            appended(old(self).spec_tir(), final(self).spec_tir()),
    {
        self.push_extra(TirTag::VarDecl, Extra::VarDecl(VarDeclView { name, mutable, initializer: init }), ty, span)
    }

    pub fn assign(&mut self, name: StringId, ty: TypeId, value: TirRef, span: Span) -> (r: TirRef)
        requires
            old(self).wf(),
            old(self).has_room(),
            old(self).built(value),
        ensures
            final(self).wf(),
            r.0 == old(self).spec_len(),
            final(self).spec_len() == old(self).spec_len() + 1,
            final(self).spec_tir().spec_inst(r).tag == TirTag::Assign,
            final(self).spec_tir().spec_inst(r).ty == ty,
            final(self).spec_tir().spec_inst(r).span == span,
            final(self).spec_tir().spec_extra(r) == Extra::Assign(AssignView { name, value }),
            appended(old(self).spec_tir(), final(self).spec_tir()),
    {
        self.push_extra(TirTag::Assign, Extra::Assign(AssignView { name, value }), ty, span)
    }

    /// A call of `name` with `args`, passed by `modes`.
    pub fn call(&mut self, name: StringId, args: &[TirRef], modes: &[ParamMode], ty: TypeId, span: Span) -> (r: TirRef)
        requires
            old(self).wf(),
            old(self).has_room(),
            forall|j: int| 0 <= j < args@.len() ==> old(self).built(#[trigger] args@[j]),
        ensures
            final(self).wf(),
            r.0 == old(self).spec_len(),
            final(self).spec_len() == old(self).spec_len() + 1,
            final(self).spec_tir().spec_inst(r).tag == TirTag::Call,
            final(self).spec_tir().spec_inst(r).ty == ty,
            final(self).spec_tir().spec_inst(r).span == span,
            final(self).spec_extra_call(r, name, args@, modes@),
            appended(old(self).spec_tir(), final(self).spec_tir()),
    {
        let v = CallView { name, args: copy_refs(args), modes: copy_modes(modes) };
        self.push_extra(TirTag::Call, Extra::Call(v), ty, span)
    }

    pub open spec fn spec_extra_call(&self, r: TirRef, name: StringId, args: Seq<TirRef>, modes: Seq<ParamMode>) -> bool {
        match self.spec_tir().spec_extra(r) {
            Extra::Call(v) => v.name == name && v.args@ == args && v.modes@ == modes,
            _ => false,
        }
    }

    /// The `if` payload at `r` holds exactly these condition, arms and bodies.
    pub open spec fn spec_extra_if(
        &self,
        r: TirRef,
        cond: TirRef,
        then_stmts: Seq<TirRef>,
        elifs: Seq<(TirRef, Vec<TirRef>)>,
        else_stmts: Option<Seq<TirRef>>,
    ) -> bool {
        match self.spec_tir().spec_extra(r) {
            Extra::IfStmt(v) => {
                &&& v.cond == cond
                &&& v.then_stmts@ == then_stmts
                &&& v.elif_branches@.len() == elifs.len()
                &&& forall|j: int| 0 <= j < elifs.len() ==> (#[trigger] v.elif_branches@[j]).cond == elifs[j].0
                    && v.elif_branches@[j].body@ == elifs[j].1@
                &&& match else_stmts {
                    Some(es) => v.else_stmts matches Some(e) && e@ == es,
                    None => v.else_stmts is None,
                }
            },
            _ => false,
        }
    }

    /// The `while` payload at `r` holds exactly this condition and body.
    pub open spec fn spec_extra_while(&self, r: TirRef, cond: TirRef, body: Seq<TirRef>) -> bool {
        match self.spec_tir().spec_extra(r) {
            Extra::WhileLoop(v) => v.cond == cond && v.body@ == body,
            _ => false,
        }
    }

    /// The `for` payload at `r` holds exactly this variable, bounds and body.
    pub open spec fn spec_extra_for(&self, r: TirRef, var: StringId, start: TirRef, end: TirRef, body: Seq<TirRef>) -> bool {
        match self.spec_tir().spec_extra(r) {
            Extra::ForRange(v) => v.var == var && v.start == start && v.end == end && v.body@ == body,
            _ => false,
        }
    }

    /// An `if` with its `elif` arms (condition, body) and optional `else`.
    pub fn if_stmt(
        &mut self,
        cond: TirRef,
        then_stmts: &[TirRef],
        elifs: &[(TirRef, Vec<TirRef>)],
        else_stmts: Option<&[TirRef]>,
        ty: TypeId,
        span: Span,
    ) -> (r: TirRef)
        requires
            old(self).wf(),
            old(self).has_room(),
            old(self).built(cond),
            forall|j: int| 0 <= j < then_stmts@.len() ==> old(self).built(#[trigger] then_stmts@[j]),
            forall|j: int| 0 <= j < elifs@.len() ==> old(self).built((#[trigger] elifs@[j]).0)
                && forall|k: int| 0 <= k < elifs@[j].1@.len() ==> old(self).built(#[trigger] elifs@[j].1@[k]),
            else_stmts matches Some(es) ==> forall|j: int| 0 <= j < es@.len() ==> old(self).built(#[trigger] es@[j]),
        ensures
            final(self).wf(),
            r.0 == old(self).spec_len(),
            final(self).spec_len() == old(self).spec_len() + 1,
            final(self).spec_tir().spec_inst(r).tag == TirTag::IfStmt,
            final(self).spec_tir().spec_inst(r).ty == ty,
            final(self).spec_tir().spec_inst(r).span == span,
            final(self).spec_extra_if(
                r,
                cond,
                then_stmts@,
                elifs@,
                (match else_stmts {
                    Some(es) => Some(es@),
                    None => None,
                }),
            ),
            appended(old(self).spec_tir(), final(self).spec_tir()),
    {
        let n = self.tir.insts.len();
        let mut arms: Vec<ElifArm> = Vec::new();
        let mut i: usize = 0;
        while i < elifs.len()
            invariant
                i <= elifs@.len(),
                n == old(self).spec_len(),
                arms@.len() == i,
                forall|j: int| 0 <= j < elifs@.len() ==> ((#[trigger] elifs@[j]).0).0 < n
                    && forall|k: int| 0 <= k < elifs@[j].1@.len() ==> (#[trigger] elifs@[j].1@[k]).0 < n,
                forall|j: int| 0 <= j < i ==> (#[trigger] arms@[j]).cond.0 < n && refs_below(arms@[j].body@, n as int),
                forall|j: int| 0 <= j < i ==> (#[trigger] arms@[j]).cond == elifs@[j].0 && arms@[j].body@ == elifs@[j].1@,
            decreases elifs@.len() - i,
        {
            let (c, body) = &elifs[i];
            let b = crate::ownership::walk::clone_refs(body);
            arms.push(ElifArm { cond: *c, body: b });
            i = i + 1;
        }
        let else_v = match else_stmts {
            Some(es) => Some(copy_refs(es)),
            None => None,
        };
        let v = IfStmtView { cond, then_stmts: copy_refs(then_stmts), elif_branches: arms, else_stmts: else_v };
        proof {
            assert(refs_below(opt_stmts(v.else_stmts), n as int));
        }
        self.push_extra(TirTag::IfStmt, Extra::IfStmt(v), ty, span)
    }

    pub fn while_loop(&mut self, cond: TirRef, body: &[TirRef], ty: TypeId, span: Span) -> (r: TirRef)
        requires
            old(self).wf(),
            old(self).has_room(),
            old(self).built(cond),
            forall|j: int| 0 <= j < body@.len() ==> old(self).built(#[trigger] body@[j]),
        ensures
            final(self).wf(),
            r.0 == old(self).spec_len(),
            final(self).spec_len() == old(self).spec_len() + 1,
            final(self).spec_tir().spec_inst(r).tag == TirTag::WhileLoop,
            final(self).spec_tir().spec_inst(r).ty == ty,
            final(self).spec_tir().spec_inst(r).span == span,
            final(self).spec_extra_while(r, cond, body@),
            appended(old(self).spec_tir(), final(self).spec_tir()),
    {
        let v = WhileLoopView { cond, body: copy_refs(body) };
        self.push_extra(TirTag::WhileLoop, Extra::WhileLoop(v), ty, span)
    }

    /// `for var in range(start, end)`.
    pub fn for_range(&mut self, var: StringId, start: TirRef, end: TirRef, body: &[TirRef], ty: TypeId, span: Span) -> (r: TirRef)
        requires
            old(self).wf(),
            old(self).has_room(),
            old(self).built(start),
            old(self).built(end),
            forall|j: int| 0 <= j < body@.len() ==> old(self).built(#[trigger] body@[j]),
        ensures
            final(self).wf(),
            r.0 == old(self).spec_len(),
            final(self).spec_len() == old(self).spec_len() + 1,
            final(self).spec_tir().spec_inst(r).tag == TirTag::ForRange,
            final(self).spec_tir().spec_inst(r).ty == ty,
            final(self).spec_tir().spec_inst(r).span == span,
            final(self).spec_extra_for(r, var, start, end, body@),
            appended(old(self).spec_tir(), final(self).spec_tir()),
    {
        let v = ForRangeView { var, start, end, body: copy_refs(body) };
        self.push_extra(TirTag::ForRange, Extra::ForRange(v), ty, span)
    }

    pub fn break_stmt(&mut self, ty: TypeId, span: Span) -> (r: TirRef)
        requires
            old(self).wf(),
            old(self).has_room(),
        ensures
            final(self).wf(),
            r.0 == old(self).spec_len(),
            final(self).spec_len() == old(self).spec_len() + 1,
            final(self).spec_tir().spec_inst(r) == (Inst { tag: TirTag::Break, ty, span, data: TirData::NoData }),
            appended(old(self).spec_tir(), final(self).spec_tir()),
    {
        self.push_typed(TirTag::Break, TirData::NoData, ty, span)
    }

    pub fn continue_stmt(&mut self, ty: TypeId, span: Span) -> (r: TirRef)
        requires
            old(self).wf(),
            old(self).has_room(),
        ensures
            final(self).wf(),
            r.0 == old(self).spec_len(),
            final(self).spec_len() == old(self).spec_len() + 1,
            final(self).spec_tir().spec_inst(r) == (Inst { tag: TirTag::Continue, ty, span, data: TirData::NoData }),
            appended(old(self).spec_tir(), final(self).spec_tir()),
    {
        self.push_typed(TirTag::Continue, TirData::NoData, ty, span)
    }

    pub fn return_void(&mut self, ty: TypeId, span: Span) -> (r: TirRef)
        requires
            old(self).wf(),
            old(self).has_room(),
        ensures
            final(self).wf(),
            r.0 == old(self).spec_len(),
            final(self).spec_len() == old(self).spec_len() + 1,
            final(self).spec_tir().spec_inst(r) == (Inst { tag: TirTag::ReturnVoid, ty, span, data: TirData::NoData }),
            appended(old(self).spec_tir(), final(self).spec_tir()),
    {
        self.push_typed(TirTag::ReturnVoid, TirData::NoData, ty, span)
    }

    /// The finished function with top-level statements `body`.
    pub fn finish(self, body: &[TirRef]) -> (t: Tir)
        requires
            self.wf(),
            forall|j: int| 0 <= j < body@.len() ==> self.built(#[trigger] body@[j]),
        ensures
            t.wf(),
            t.body@ == body@,
            t.insts@ == self.spec_tir().insts@,
            t.extra@ == self.spec_tir().extra@,
            t.params@ == self.spec_tir().params@,
            t.name == self.spec_tir().name,
            t.ret_ty == self.spec_tir().ret_ty,
            t.span == self.spec_tir().span,
    {
        let mut t = self.tir;
        t.body = copy_refs(body);
        proof {
            assert forall|i: int| 0 <= i < t.insts@.len() implies #[trigger] t.inst_wf(i) by {
                assert(self.tir.inst_wf(i));
                assert(t.children(TirRef(i as u32)) == self.tir.children(TirRef(i as u32)));
            }
        }
        t
    }
}

} // verus!
