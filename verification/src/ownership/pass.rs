//! The ownership pass over whole functions: parameter states, the forward
//! walk, then the exit passes (last-use frees, anonymous-temporary frees,
//! dead stores, jump frees).
use vstd::prelude::*;
use crate::types::{InternPool, Span, StringId};
use crate::tir::{Tir, TirRef, TirTag, TirParam, ParamMode, ChildKind, refs_below, PARAM_BASE};
use crate::diag::{Diag, DiagCode, DiagSink, DiagView, Severity};
use crate::vecmap::{VecMap, MapKey, has_key_at};
use crate::ownership::lattice::{Ownership, Owner, OwnerState, PendingStore, Tables, Unit, sort_by_owner, owners_sorted, lemma_owners_sorted_unique};
use crate::ownership::flow::{WalkState, WalkTree, walk_state, block_rel};

use crate::vecmap::{entries_map, keys_unique};
use crate::ownership::owners::{
    own_ok, owner_ok, names_ok, has_param, needs_tracking, spec_needs_tracking, spec_tirref,
    spec_owner_span, owner_span, lemma_param_pos, param_pos, lemma_decl_name_interned,
};
use crate::ownership::sidecar::{FreePoint, FunctionSidecar, OwnershipSidecar, ids_ok, ungated_ext, gated_ok, lemma_ungated_ext_gated};
use crate::ownership::stmt::{analyze_block, need_list, root_ref, sc_ok, fp_ok, stmt_pre, tree_shaped, keys_outside};
use crate::ownership::frees::{
    collect_last_uses, last_uses, last_uses_upto, read_owner, consumers_upto, collect_named_inits, named_list, find_consumers, consumers,
    schedule_loop_exit_frees_in, lx_list, reach_seq, reads_under, overwrite_all, is_read_in, is_last_read_of,
    lemma_overwrite_all_append, lemma_overwrite_all_last, lemma_last_uses_writes_reads,
};
use crate::ownership::visit::{diag_prefix, message3};
use crate::ownership::walk::{RefSet, reach, collect_refs_recursive};

verus! {

// ---------- Parameters ----------

/// Move-typed parameters are owned by the callee; borrowed and `inout`
/// ones are not (`inout` adds mutability, not ownership).
pub open spec fn param_state(mode: ParamMode) -> OwnerState {
    match mode {
        ParamMode::Move => OwnerState::Valid,
        _ => OwnerState::Borrowed,
    }
}

/// Lattice of the move-typed parameters; a later parameter of the same
/// name wins.
pub open spec fn param_states(ps: Seq<TirParam>) -> Map<Owner, OwnerState>
    decreases ps.len(),
{
    if ps.len() == 0 {
        Map::empty()
    } else {
        let m = param_states(ps.drop_last());
        let p = ps.last();
        if spec_needs_tracking(p.ty) {
            m.insert(Owner::Param(p.name), param_state(p.mode))
        } else {
            m
        }
    }
}

pub open spec fn param_owners(ps: Seq<TirParam>) -> Map<StringId, Owner>
    decreases ps.len(),
{
    if ps.len() == 0 {
        Map::empty()
    } else {
        let m = param_owners(ps.drop_last());
        let p = ps.last();
        if spec_needs_tracking(p.ty) {
            m.insert(p.name, Owner::Param(p.name))
        } else {
            m
        }
    }
}

pub open spec fn inout_params(ps: Seq<TirParam>) -> Set<StringId>
    decreases ps.len(),
{
    if ps.len() == 0 {
        Set::empty()
    } else {
        let s = inout_params(ps.drop_last());
        let p = ps.last();
        if spec_needs_tracking(p.ty) && p.mode == ParamMode::Inout {
            s.insert(p.name)
        } else {
            s
        }
    }
}

/// The lattice at function entry: only the move-typed parameters.
pub fn init_params(tir: &Tir, pool: &InternPool) -> (own: Ownership)
    requires
        tir.wf(),
    ensures
        own_ok(own, *tir),
        own.states@ == param_states(tir.params@),
        own.current_owner@ == param_owners(tir.params@),
        own.inout_str_params@.dom() == inout_params(tir.params@),
        own.origin@ == Map::<TirRef, Option<Owner>>::empty(),
        own.pending_dead_store@ == Map::<Owner, PendingStore>::empty(),
        own.temp_owners@ == Map::<Owner, Unit>::empty(),
        own.owner_at_read@ == Map::<TirRef, Owner>::empty(),
        own.next_branch_id == 0,
{
    let mut own = Ownership::new();
    let mut i: usize = 0;
    let ghost ps = tir.params@;
    assert(ps.take(0) =~= Seq::<TirParam>::empty());
    while i < tir.params.len()
        invariant
            i <= ps.len(),
            ps == tir.params@,
            tir.wf(),
            own.wf(),
            own.states@ == param_states(ps.take(i as int)),
            own.current_owner@ == param_owners(ps.take(i as int)),
            own.inout_str_params@.dom() == inout_params(ps.take(i as int)),
            own.origin@ == Map::<TirRef, Option<Owner>>::empty(),
            own.pending_dead_store@ == Map::<Owner, PendingStore>::empty(),
            own.temp_owners@ == Map::<Owner, Unit>::empty(),
            own.owner_at_read@ == Map::<TirRef, Owner>::empty(),
            own.next_branch_id == 0,
            forall|k: Owner| #[trigger] own.states@.contains_key(k) ==> owner_ok(*tir, k),
            forall|n: StringId| #[trigger] own.current_owner@.contains_key(n) ==> owner_ok(*tir, own.current_owner@[n]),
        decreases ps.len() - i,
    {
        let p = &tir.params[i];
        proof {
            assert(ps.take(i + 1).drop_last() =~= ps.take(i as int));
            assert(ps.take(i + 1).last() == ps[i as int]);
            assert(has_param(*tir, p.name));
        }
        if needs_tracking(p.ty, pool) {
            let owner = Owner::Param(p.name);
            let state = match p.mode {
                ParamMode::Move => OwnerState::Valid,
                ParamMode::Borrow | ParamMode::Inout => OwnerState::Borrowed,
            };
            own.states.insert(owner, state);
            own.current_owner.insert(p.name, owner);
            match p.mode {
                ParamMode::Inout => {
                    own.inout_str_params.insert(p.name, ());
                },
                _ => {},
            }
        }
        assert(own.inout_str_params@.dom() =~= inout_params(ps.take(i + 1)));
        i = i + 1;
    }
    assert(ps.take(ps.len() as int) =~= ps);
    own
}

// ---------- Sets derived from the final lattice ----------

/// The values of a map.
pub open spec fn values_of<K, V>(m: Map<K, V>) -> Set<V> {
    Set::new(|v: V| exists|k: K| #[trigger] m.contains_key(k) && m[k] == v)
}

/// The set of values of `m`.
fn values_set<K: MapKey, V: MapKey>(m: &VecMap<K, V>) -> (s: VecMap<V, Unit>)
    requires
        m.wf(),
    ensures
        s.wf(),
        s@.dom() == values_of(m@),
{
    let mut s: VecMap<V, Unit> = VecMap::new();
    let mut i: usize = 0;
    proof {
        m.lemma_view();
    }
    while i < m.len()
        invariant
            i <= m.seq().len(),
            m.wf(),
            s.wf(),
            forall|v: V| #[trigger] s@.contains_key(v) <==> exists|j: int| 0 <= j < i && m.seq()[j].1 == v,
        decreases m.seq().len() - i,
    {
        let (_, v) = m.entry(i);
        s.insert(*v, ());
        proof {
            assert forall|x: V| #[trigger] s@.contains_key(x) <==> exists|j: int| 0 <= j < i + 1 && m.seq()[j].1 == x by {
                if x == *v {
                    assert(m.seq()[i as int].1 == x);
                }
                if exists|j: int| 0 <= j < i + 1 && m.seq()[j].1 == x {
                    let j = choose|j: int| 0 <= j < i + 1 && m.seq()[j].1 == x;
                    if j < i {
                        assert(exists|j2: int| 0 <= j2 < i && m.seq()[j2].1 == x);
                    }
                }
            }
        }
        i = i + 1;
    }
    proof {
        m.lemma_view();
        assert forall|x: V| #[trigger] s@.dom().contains(x) <==> values_of(m@).contains(x) by {
            if s@.contains_key(x) {
                let j = choose|j: int| 0 <= j < m.seq().len() && m.seq()[j].1 == x;
                assert(m@[m.seq()[j].0] == m.seq()[j].1);
                assert(m@.contains_key(m.seq()[j].0));
            }
            if values_of(m@).contains(x) {
                let k = choose|k: K| #[trigger] m@.contains_key(k) && m@[k] == x;
                let j = choose|j: int| has_key_at(m.seq(), k, j);
                assert(m@[m.seq()[j].0] == m.seq()[j].1);
            }
        }
        assert(s@.dom() =~= values_of(m@));
    }
    s
}

/// Owners bound to an `inout str` parameter at exit: they leave through
/// the write-back pointer.
pub open spec fn escape_owners(own: Ownership) -> Set<Owner> {
    Set::new(
        |o: Owner|
            exists|n: StringId|
                #[trigger] own.inout_str_params@.contains_key(n) && own.current_owner@.contains_key(n)
                    && own.current_owner@[n] == o,
    )
}

fn escape_set(own: &Ownership) -> (s: VecMap<Owner, Unit>)
    requires
        own.wf(),
    ensures
        s.wf(),
        s@.dom() == escape_owners(*own),
{
    let mut s: VecMap<Owner, Unit> = VecMap::new();
    let ghost ks = own.inout_str_params.seq();
    proof {
        own.inout_str_params.lemma_view();
    }
    let mut i: usize = 0;
    while i < own.inout_str_params.len()
        invariant
            i <= ks.len(),
            ks == own.inout_str_params.seq(),
            own.wf(),
            s.wf(),
            forall|o: Owner| #[trigger] s@.contains_key(o) <==> exists|j: int|
                0 <= j < i && own.current_owner@.contains_key(#[trigger] ks[j].0) && own.current_owner@[ks[j].0] == o,
        decreases ks.len() - i,
    {
        let (n, _) = own.inout_str_params.entry(i);
        let ghost before = s@;
        match own.current_owner.get(n) {
            Some(o) => {
                s.insert(*o, ());
            },
            None => {},
        }
        proof {
            assert forall|o: Owner| #[trigger] s@.contains_key(o) <==> exists|j: int|
                0 <= j < i + 1 && own.current_owner@.contains_key(#[trigger] ks[j].0) && own.current_owner@[ks[j].0] == o by {
                if exists|j: int| 0 <= j < i + 1 && own.current_owner@.contains_key(#[trigger] ks[j].0) && own.current_owner@[ks[j].0] == o {
                    let j = choose|j: int| 0 <= j < i + 1 && own.current_owner@.contains_key(#[trigger] ks[j].0) && own.current_owner@[ks[j].0] == o;
                    if j < i {
                        assert(before.contains_key(o));
                    }
                }
                if before.contains_key(o) {
                    let j = choose|j: int| 0 <= j < i && own.current_owner@.contains_key(#[trigger] ks[j].0) && own.current_owner@[ks[j].0] == o;
                    assert(0 <= j < i + 1);
                }
                if own.current_owner@.contains_key(*n) && own.current_owner@[*n] == o {
                    assert(ks[i as int].0 == *n);
                }
            }
        }
        i = i + 1;
    }
    proof {
        own.inout_str_params.lemma_view();
        assert forall|o: Owner| #[trigger] s@.dom().contains(o) <==> escape_owners(*own).contains(o) by {
            if s@.contains_key(o) {
                let j = choose|j: int| 0 <= j < ks.len() && own.current_owner@.contains_key(#[trigger] ks[j].0) && own.current_owner@[ks[j].0] == o;
                assert(own.inout_str_params@[ks[j].0] == ks[j].1);
                assert(own.inout_str_params@.contains_key(ks[j].0));
            }
            if escape_owners(*own).contains(o) {
                let n = choose|n: StringId| #[trigger] own.inout_str_params@.contains_key(n) && own.current_owner@.contains_key(n) && own.current_owner@[n] == o;
                let j = choose|j: int| has_key_at(ks, n, j);
                assert(ks[j].0 == n);
            }
        }
        assert(s@.dom() =~= escape_owners(*own));
    }
    s
}

// ---------- Last-use frees ----------

/// Context of the exit passes, read off the final lattice and sidecar:
/// the allocations a reassignment already frees, the owners still bound to
/// a name, the owners leaving through an `inout str` parameter, and the
/// `inout str` parameters.
pub type ExitCtx = (Set<TirRef>, Set<Owner>, Set<Owner>, Set<StringId>);

/// Index of the top-level statement of `body`, from index `j` on, whose
/// part of the IR holds `x`.
pub open spec fn top_index_from(tir: Tir, body: Seq<TirRef>, x: TirRef, j: int) -> Option<int>
    decreases body.len() - j,
{
    if j < 0 || j >= body.len() {
        None
    } else if reach(tir, body[j]).contains(x) {
        Some(j)
    } else {
        top_index_from(tir, body, x, j + 1)
    }
}

/// Some `return` lies in the part of the IR that `s` reaches.
pub open spec fn has_return(tir: Tir, s: TirRef) -> bool {
    exists|y: TirRef|
        #[trigger] reach(tir, s).contains(y) && (tir.spec_inst(y).tag == TirTag::Return || tir.spec_inst(y).tag
            == TirTag::ReturnVoid)
}

/// `if`, `while` or `for`.
pub open spec fn is_branch_tag(t: TirTag) -> bool {
    t == TirTag::IfStmt || t == TirTag::WhileLoop || t == TirTag::ForRange
}

/// Index of the top-level statement that holds `x` when it is an `if` or
/// a loop with no `return` in it: past it a value last read at `x` is
/// dead on every path, while a free at `x` itself would run on every
/// iteration of a loop, or on one arm only.
pub open spec fn enclosing_branch(tir: Tir, body: Seq<TirRef>, x: TirRef) -> Option<int> {
    match top_index_from(tir, body, x, 0) {
        Some(j) => if is_branch_tag(tir.spec_inst(body[j]).tag) && !has_return(tir, body[j]) {
            Some(j)
        } else {
            None
        },
        None => None,
    }
}

/// Where a parameter whose last read is `x` is freed: after the enclosing
/// top-level `if` or loop (see [`enclosing_branch`]), else right after
/// the read.
pub open spec fn param_free_anchor(tir: Tir, body: Seq<TirRef>, x: TirRef) -> TirRef {
    match enclosing_branch(tir, body, x) {
        Some(j) => body[j],
        None => x,
    }
}

/// The last-use free of one exit lattice entry: a `Valid` instruction
/// owner is freed after its last read, unless a reassignment already frees
/// it (and no binding holds it any more) or it escapes; a `Valid`
/// parameter that is not `inout` is freed at [`param_free_anchor`] of its last
/// read, or after the last body statement when it is never read.
pub open spec fn exit_free(
    tir: Tir,
    ctx: ExitCtx,
    last_use: Map<Owner, TirRef>,
    body: Seq<TirRef>,
    e: (Owner, OwnerState),
) -> Seq<FreePoint> {
    let (o, st) = e;
    if st != OwnerState::Valid {
        Seq::empty()
    } else {
        match o {
            Owner::Inst(r) => if (ctx.0.contains(r) && !ctx.1.contains(o)) || ctx.2.contains(o)
                || !last_use.contains_key(o) {
                Seq::empty()
            } else {
                seq![FreePoint { after: last_use[o], target: r, span: tir.spec_inst(r).span, branch: None }]
            },
            Owner::Param(n) => if ctx.3.contains(n) || (!last_use.contains_key(o) && body.len() == 0) {
                Seq::empty()
            } else {
                seq![
                    FreePoint {
                        after: if last_use.contains_key(o) {
                            param_free_anchor(tir, body, last_use[o])
                        } else {
                            body.last()
                        },
                        target: spec_tirref(tir, o),
                        span: spec_owner_span(tir, o),
                        branch: None,
                    },
                ]
            },
        }
    }
}

pub open spec fn exit_frees(
    tir: Tir,
    ctx: ExitCtx,
    last_use: Map<Owner, TirRef>,
    body: Seq<TirRef>,
    es: Seq<(Owner, OwnerState)>,
) -> Seq<FreePoint>
    decreases es.len(),
{
    if es.len() == 0 {
        Seq::empty()
    } else {
        exit_frees(tir, ctx, last_use, body, es.drop_last()) + exit_free(tir, ctx, last_use, body, es.last())
    }
}

/// The last reads of the whole body, statement by statement.
pub open spec fn body_last_uses(tir: Tir, reads: Map<TirRef, Owner>, m: Map<Owner, TirRef>, s: Seq<TirRef>) -> Map<Owner, TirRef>
    decreases s.len(),
{
    if s.len() == 0 {
        m
    } else {
        last_uses(tir, reads, body_last_uses(tir, reads, m, s.drop_last()), s.last())
    }
}

/// The tracked reads of the whole body, statement by statement, in walk
/// order.
pub open spec fn body_reads(tir: Tir, reads: Map<TirRef, Owner>, s: Seq<TirRef>) -> Seq<(Owner, TirRef)>
    decreases s.len(),
{
    if s.len() == 0 {
        Seq::empty()
    } else {
        body_reads(tir, reads, s.drop_last()) + reads_under(tir, reads, s.last())
    }
}

proof fn lemma_body_last_uses_writes_reads(tir: Tir, reads: Map<TirRef, Owner>, m: Map<Owner, TirRef>, s: Seq<TirRef>)
    ensures
        body_last_uses(tir, reads, m, s) == overwrite_all(m, body_reads(tir, reads, s)),
    decreases s.len(),
{
    if s.len() > 0 {
        lemma_body_last_uses_writes_reads(tir, reads, m, s.drop_last());
        lemma_last_uses_writes_reads(tir, reads, body_last_uses(tir, reads, m, s.drop_last()), s.last());
        lemma_overwrite_all_append(m, body_reads(tir, reads, s.drop_last()), reads_under(tir, reads, s.last()));
    }
}

/// The last use that the function's exit frees are anchored after is the
/// owner's last tracked read in the body: for every owner that some
/// tracked read of the body reads, the entry is such a read and no read of
/// that owner comes after it in walk order; any other owner keeps the
/// entry it had.
pub proof fn lemma_body_last_use_is_last_read(
    tir: Tir,
    reads: Map<TirRef, Owner>,
    m: Map<Owner, TirRef>,
    s: Seq<TirRef>,
    o: Owner,
)
    ensures
        ({
            let l = body_reads(tir, reads, s);
            let res = body_last_uses(tir, reads, m, s);
            &&& is_read_in(l, o) ==> res.contains_key(o) && exists|j: int|
                is_last_read_of(l, o, j) && #[trigger] l[j].1 == res[o]
            &&& !is_read_in(l, o) ==> (res.contains_key(o) <==> m.contains_key(o)) && (
            m.contains_key(o) ==> res[o] == m[o])
        }),
{
    lemma_body_last_uses_writes_reads(tir, reads, m, s);
    lemma_overwrite_all_last(m, body_reads(tir, reads, s), o);
}

/// A value that an instruction produced and that is freed at function exit
/// is freed right after its last tracked read: every exit free point for
/// an instruction owner comes from one exit entry for that owner, and the
/// read it is anchored after reads that owner with no read of it after
/// that one in the body.
pub proof fn lemma_exit_free_follows_last_read(
    tir: Tir,
    ctx: ExitCtx,
    reads: Map<TirRef, Owner>,
    body: Seq<TirRef>,
    es: Seq<(Owner, OwnerState)>,
    i: int,
)
    requires
        0 <= i < exit_frees(tir, ctx, body_last_uses(tir, reads, Map::empty(), body), body, es).len(),
    ensures
        ({
            let lu = body_last_uses(tir, reads, Map::empty(), body);
            let l = body_reads(tir, reads, body);
            let fp = exit_frees(tir, ctx, lu, body, es)[i];
            exists|k: int|
                0 <= k < es.len() && exit_free(tir, ctx, lu, body, #[trigger] es[k]) == seq![fp] && (
                es[k].0 is Inst ==> fp.target == es[k].0->Inst_0 && exists|j: int|
                    is_last_read_of(l, es[k].0, j) && #[trigger] l[j].1 == fp.after)
        }),
    decreases es.len(),
{
    let lu = body_last_uses(tir, reads, Map::empty(), body);
    let l = body_reads(tir, reads, body);
    let pre = exit_frees(tir, ctx, lu, body, es.drop_last());
    let e = es.last();
    let tail = exit_free(tir, ctx, lu, body, e);
    let fp = exit_frees(tir, ctx, lu, body, es)[i];
    if i < pre.len() {
        lemma_exit_free_follows_last_read(tir, ctx, reads, body, es.drop_last(), i);
        assert(fp == pre[i]);
        let k = choose|k: int|
            0 <= k < es.drop_last().len() && exit_free(tir, ctx, lu, body, #[trigger] es.drop_last()[k])
                == seq![pre[i]] && (es.drop_last()[k].0 is Inst ==> pre[i].target == es.drop_last()[k].0->Inst_0
                && exists|j: int| is_last_read_of(l, es.drop_last()[k].0, j) && #[trigger] l[j].1 == pre[i].after);
        assert(es.drop_last()[k] == es[k]);
    } else {
        let k = es.len() - 1;
        assert(es[k] == e);
        assert(tail.len() == 1);
        assert(fp == tail[0]);
        assert(tail =~= seq![fp]);
        if e.0 is Inst {
            lemma_body_last_use_is_last_read(tir, reads, Map::empty(), body, e.0);
            assert(lu.contains_key(e.0));
        }
    }
}

/// The body's statements are valid instructions below `parent`.
pub open spec fn stmts_ok(tir: Tir, s: Seq<TirRef>, parent: TirRef) -> bool {
    &&& refs_below(s, parent.0 as int)
    &&& forall|j: int| 0 <= j < s.len() ==> tir.valid_ref(#[trigger] s[j])
}

/// The enclosing branch of `x` (see the spec `enclosing_branch`).
fn find_enclosing_branch(tir: &Tir, body: &Vec<TirRef>, x: TirRef) -> (r: Option<usize>)
    requires
        tir.wf(),
        stmts_ok(*tir, body@, root_ref()),
    ensures
        r matches Some(j) ==> j < body@.len(),
        (match r {
            Some(j) => Some(j as int),
            None => None,
        }) == enclosing_branch(*tir, body@, x),
{
    let mut j: usize = 0;
    while j < body.len()
        invariant
            j <= body@.len(),
            tir.wf(),
            stmts_ok(*tir, body@, root_ref()),
            top_index_from(*tir, body@, x, 0) == top_index_from(*tir, body@, x, j as int),
        decreases body@.len() - j,
    {
        let s = body[j];
        proof {
            assert(tir.valid_ref(body@[j as int]));
        }
        let mut set: RefSet = VecMap::new();
        proof {
            assert(set@.dom() =~= Set::<TirRef>::empty());
        }
        collect_refs_recursive(tir, s, &mut set);
        assert(set@.dom() =~= reach(*tir, s));
        if set.contains_key(&x) {
            let tag = tir.inst(s).tag;
            let branch = match tag {
                TirTag::IfStmt | TirTag::WhileLoop | TirTag::ForRange => true,
                _ => false,
            };
            if !branch {
                return None;
            }
            // Look for a `return` inside the statement.
            proof {
                set.lemma_view();
                assert forall|y: TirRef| #[trigger] reach(*tir, s).contains(y) implies tir.valid_ref(y) by {
                    crate::ownership::walk::lemma_reach_below(*tir, s, y);
                }
            }
            let mut k: usize = 0;
            let mut found = false;
            while k < set.len()
                invariant
                    k <= set.seq().len(),
                    tir.wf(),
                    set.wf(),
                    set@.dom() == reach(*tir, s),
                    keys_unique(set.seq()),
                    forall|y: TirRef| #[trigger] set@.contains_key(y) <==> exists|q: int| has_key_at(set.seq(), y, q),
                    forall|y: TirRef| #[trigger] reach(*tir, s).contains(y) ==> tir.valid_ref(y),
                    found == exists|q: int|
                        0 <= q < k && (tir.spec_inst(#[trigger] set.seq()[q].0).tag == TirTag::Return || tir.spec_inst(
                            set.seq()[q].0,
                        ).tag == TirTag::ReturnVoid),
                decreases set.seq().len() - k,
            {
                let (y, _) = set.entry(k);
                let y = *y;
                proof {
                    assert(has_key_at(set.seq(), y, k as int));
                    assert(set@.contains_key(y));
                }
                let t = tir.inst(y).tag;
                let is_ret = match t {
                    TirTag::Return | TirTag::ReturnVoid => true,
                    _ => false,
                };
                found = found || is_ret;
                k = k + 1;
            }
            proof {
                if found {
                    let q = choose|q: int|
                        0 <= q < k && (tir.spec_inst(#[trigger] set.seq()[q].0).tag == TirTag::Return || tir.spec_inst(
                            set.seq()[q].0,
                        ).tag == TirTag::ReturnVoid);
                    assert(has_key_at(set.seq(), set.seq()[q].0, q));
                    assert(set@.contains_key(set.seq()[q].0));
                    assert(reach(*tir, s).contains(set.seq()[q].0));
                } else if has_return(*tir, s) {
                    let y = choose|y: TirRef|
                        #[trigger] reach(*tir, s).contains(y) && (tir.spec_inst(y).tag == TirTag::Return || tir.spec_inst(y).tag
                            == TirTag::ReturnVoid);
                    assert(set@.contains_key(y));
                    let q = choose|q: int| has_key_at(set.seq(), y, q);
                    assert(set.seq()[q].0 == y);
                }
            }
            if found {
                return None;
            }
            return Some(j);
        }
        j = j + 1;
    }
    None
}

fn schedule_last_use_frees(
    tir: &Tir,
    pool: &InternPool,
    own: &Ownership,
    sc: &mut FunctionSidecar,
    body: &Vec<TirRef>,
    reassigned: &RefSet,
    live: &VecMap<Owner, Unit>,
    escaping: &VecMap<Owner, Unit>,
    last_use: &VecMap<Owner, TirRef>,
    Ghost(ctx): Ghost<ExitCtx>,
)
    requires
        tir.wf(),
        own_ok(*own, *tir),
        sc_ok(*tir, *old(sc)),
        stmts_ok(*tir, body@, root_ref()),
        reassigned.wf() && reassigned@.dom() == ctx.0,
        live.wf() && live@.dom() == ctx.1,
        escaping.wf() && escaping@.dom() == ctx.2,
        own.inout_str_params@.dom() == ctx.3,
        last_use.wf(),
        forall|k: Owner| #[trigger] last_use@.contains_key(k) ==> tir.valid_ref(last_use@[k]),
    ensures
        ungated_ext(old(sc).free_schedule@, final(sc).free_schedule@),
        final(sc).name == old(sc).name,
        sc_ok(*tir, *final(sc)),
        final(sc).free_schedule@ == old(sc).free_schedule@ + exit_frees(*tir, ctx, last_use@, body@, own.states.seq()),
        final(sc).if_branches@ == old(sc).if_branches@,
        final(sc).free_on_reassign@ == old(sc).free_on_reassign@,
{
    let ghost fs0 = sc.free_schedule@;
    let ghost es = own.states.seq();
    let mut i: usize = 0;
    assert(fs0 + exit_frees(*tir, ctx, last_use@, body@, es.take(0)) =~= fs0);
    while i < own.states.len()
        invariant
            ungated_ext(old(sc).free_schedule@, sc.free_schedule@),
            sc.name == old(sc).name,
            i <= es.len(),
            es == own.states.seq(),
            tir.wf(),
            own_ok(*own, *tir),
            stmts_ok(*tir, body@, root_ref()),
            reassigned.wf() && reassigned@.dom() == ctx.0,
            live.wf() && live@.dom() == ctx.1,
            escaping.wf() && escaping@.dom() == ctx.2,
            own.inout_str_params@.dom() == ctx.3,
            last_use.wf(),
            forall|k: Owner| #[trigger] last_use@.contains_key(k) ==> tir.valid_ref(last_use@[k]),
            sc_ok(*tir, *sc),
            sc.free_schedule@ == fs0 + exit_frees(*tir, ctx, last_use@, body@, es.take(i as int)),
            sc.if_branches@ == old(sc).if_branches@,
            sc.free_on_reassign@ == old(sc).free_on_reassign@,
        decreases es.len() - i,
    {
        let (owner, state) = own.states.entry(i);
        let owner = *owner;
        let state = *state;
        proof {
            own.states.lemma_view();
            assert(own.states@[es[i as int].0] == es[i as int].1);
            assert(owner_ok(*tir, owner));
            assert(es.take(i + 1).drop_last() =~= es.take(i as int));
            assert(es.take(i + 1).last() == (owner, state));
        }
        let ghost before = sc.free_schedule@;
        let valid = match state {
            OwnerState::Valid => true,
            _ => false,
        };
        if valid {
            match owner {
                Owner::Inst(r) => {
                    let stale = reassigned.contains_key(&r) && !live.contains_key(&owner);
                    if !stale && !escaping.contains_key(&owner) {
                        match last_use.get(&owner) {
                            Some(after) => {
                                let fp = FreePoint { after: *after, target: r, span: tir.span(r), branch: None };
                                assert(fp_ok(*tir, fp));
                                sc.free_schedule.push(fp);
                            },
                            None => {},
                        }
                    }
                },
                Owner::Param(name) => {
                    if !own.inout_str_params.contains_key(&name) {
                        let anchor = match last_use.get(&owner) {
                            Some(read) => match find_enclosing_branch(tir, body, *read) {
                                Some(j) => Some(body[j]),
                                None => Some(*read),
                            },
                            None => if body.len() == 0 {
                                None
                            } else {
                                Some(body[body.len() - 1])
                            },
                        };
                        match anchor {
                            Some(after) => {
                                let target = owner.tirref(tir);
                                let span = owner_span(tir, owner);
                                proof {
                                    lemma_param_pos(*tir, name);
                                    assert(target == crate::tir::spec_param_ref(param_pos(*tir, name)));
                                }
                                let fp = FreePoint { after, target, span, branch: None };
                                assert(fp_ok(*tir, fp));
                                sc.free_schedule.push(fp);
                            },
                            None => {},
                        }
                    }
                },
            }
        }
        proof {
            assert(sc.free_schedule@ =~= fs0 + exit_frees(*tir, ctx, last_use@, body@, es.take(i + 1)));
            assert forall|k: int| 0 <= k < sc.free_schedule@.len() implies fp_ok(*tir, #[trigger] sc.free_schedule@[k]) by {
                if k < before.len() {
                    assert(sc.free_schedule@[k] == before[k]);
                }
            }
        }
        i = i + 1;
    }
    assert(es.take(es.len() as int) =~= es);
}

// ---------- Anonymous temporaries ----------

/// The free of one temporary: a `Valid` instruction owner never bound to
/// a name is freed after its consumer.
pub open spec fn temp_free(
    tir: Tir,
    named: Set<TirRef>,
    states: Map<Owner, OwnerState>,
    consumer_of: Map<TirRef, TirRef>,
    o: Owner,
) -> Seq<FreePoint> {
    match o {
        Owner::Inst(t) => if !named.contains(t) && states.contains_key(o) && states[o] == OwnerState::Valid
            && consumer_of.contains_key(t) {
            seq![FreePoint { after: consumer_of[t], target: t, span: tir.spec_inst(t).span, branch: None }]
        } else {
            Seq::empty()
        },
        Owner::Param(_) => Seq::empty(),
    }
}

pub open spec fn temp_frees(
    tir: Tir,
    named: Set<TirRef>,
    states: Map<Owner, OwnerState>,
    consumer_of: Map<TirRef, TirRef>,
    es: Seq<(Owner, Unit)>,
) -> Seq<FreePoint>
    decreases es.len(),
{
    if es.len() == 0 {
        Seq::empty()
    } else {
        temp_frees(tir, named, states, consumer_of, es.drop_last()) + temp_free(
            tir,
            named,
            states,
            consumer_of,
            es.last().0,
        )
    }
}

fn schedule_temp_frees(
    tir: &Tir,
    own: &Ownership,
    sc: &mut FunctionSidecar,
    named: &RefSet,
    consumer_of: &VecMap<TirRef, TirRef>,
)
    requires
        tir.wf(),
        own_ok(*own, *tir),
        sc_ok(*tir, *old(sc)),
        named.wf(),
        consumer_of.wf(),
        forall|k: TirRef| #[trigger] consumer_of@.contains_key(k) ==> tir.valid_ref(consumer_of@[k]),
    ensures
        ungated_ext(old(sc).free_schedule@, final(sc).free_schedule@),
        final(sc).name == old(sc).name,
        sc_ok(*tir, *final(sc)),
        final(sc).free_schedule@ == old(sc).free_schedule@ + temp_frees(
            *tir,
            named@.dom(),
            own.states@,
            consumer_of@,
            own.temp_owners.seq(),
        ),
        final(sc).if_branches@ == old(sc).if_branches@,
        final(sc).free_on_reassign@ == old(sc).free_on_reassign@,
{
    let ghost fs0 = sc.free_schedule@;
    let ghost es = own.temp_owners.seq();
    let mut i: usize = 0;
    assert(fs0 + temp_frees(*tir, named@.dom(), own.states@, consumer_of@, es.take(0)) =~= fs0);
    while i < own.temp_owners.len()
        invariant
            ungated_ext(old(sc).free_schedule@, sc.free_schedule@),
            sc.name == old(sc).name,
            i <= es.len(),
            es == own.temp_owners.seq(),
            tir.wf(),
            own_ok(*own, *tir),
            named.wf(),
            consumer_of.wf(),
            forall|k: TirRef| #[trigger] consumer_of@.contains_key(k) ==> tir.valid_ref(consumer_of@[k]),
            sc_ok(*tir, *sc),
            sc.free_schedule@ == fs0 + temp_frees(*tir, named@.dom(), own.states@, consumer_of@, es.take(i as int)),
            sc.if_branches@ == old(sc).if_branches@,
            sc.free_on_reassign@ == old(sc).free_on_reassign@,
        decreases es.len() - i,
    {
        let (temp, _) = own.temp_owners.entry(i);
        let temp = *temp;
        proof {
            assert(es.take(i + 1).drop_last() =~= es.take(i as int));
            assert(es.take(i + 1).last().0 == temp);
        }
        let ghost before = sc.free_schedule@;
        match temp.inst_tirref() {
            Some(t) => {
                if !named.contains_key(&t) {
                    let valid = match own.states.get(&temp) {
                        Some(OwnerState::Valid) => true,
                        _ => false,
                    };
                    if valid {
                        match consumer_of.get(&t) {
                            Some(consumer) => {
                                proof {
                                    assert(own.states@.contains_key(temp));
                                    assert(owner_ok(*tir, temp));
                                }
                                let fp = FreePoint { after: *consumer, target: t, span: tir.span(t), branch: None };
                                assert(fp_ok(*tir, fp));
                                sc.free_schedule.push(fp);
                            },
                            None => {},
                        }
                    }
                }
            },
            None => {},
        }
        proof {
            assert(sc.free_schedule@ =~= fs0 + temp_frees(*tir, named@.dom(), own.states@, consumer_of@, es.take(i + 1)));
            assert forall|k: int| 0 <= k < sc.free_schedule@.len() implies fp_ok(*tir, #[trigger] sc.free_schedule@[k]) by {
                if k < before.len() {
                    assert(sc.free_schedule@[k] == before[k]);
                }
            }
        }
        i = i + 1;
    }
    assert(es.take(es.len() as int) =~= es);
}

// ---------- Dead stores ----------

pub open spec fn dead_store_msg(name: Seq<char>) -> Seq<char> {
    "value `"@ + name + "` is declared but never used"@
}

/// A binding never read before function exit and not escaping through an
/// `inout` parameter.
pub open spec fn is_dead_store(ctx: ExitCtx, e: (Owner, PendingStore)) -> bool {
    !ctx.3.contains(e.1.0) && !ctx.2.contains(e.0)
}

/// W0001 for each dead store, in the order of the pending entries.
pub open spec fn dead_store_diags(pool: InternPool, ctx: ExitCtx, es: Seq<(Owner, PendingStore)>) -> Seq<DiagView>
    decreases es.len(),
{
    if es.len() == 0 {
        Seq::empty()
    } else {
        let e = es.last();
        dead_store_diags(pool, ctx, es.drop_last()) + if is_dead_store(ctx, e) {
            seq![
                (
                    Severity::Warning,
                    DiagCode::DeadStore,
                    e.1.1,
                    dead_store_msg(pool.spec_str(e.1.0)),
                    Seq::<(Option<Span>, Seq<char>)>::empty(),
                    None::<Seq<char>>,
                ),
            ]
        } else {
            Seq::empty()
        }
    }
}

/// A dead store's allocation is freed after its declaration, unless a
/// reassignment already frees it.
pub open spec fn dead_store_frees(ctx: ExitCtx, es: Seq<(Owner, PendingStore)>) -> Seq<FreePoint>
    decreases es.len(),
{
    if es.len() == 0 {
        Seq::empty()
    } else {
        let e = es.last();
        dead_store_frees(ctx, es.drop_last()) + if is_dead_store(ctx, e) && e.0 is Inst
            && !ctx.0.contains(e.0->Inst_0) {
            seq![FreePoint { after: e.1.2, target: e.0->Inst_0, span: e.1.1, branch: None }]
        } else {
            Seq::empty()
        }
    }
}

fn drain_dead_stores(
    tir: &Tir,
    pool: &InternPool,
    own: &Ownership,
    sink: &mut DiagSink,
    sc: &mut FunctionSidecar,
    reassigned: &RefSet,
    escaping: &VecMap<Owner, Unit>,
    Ghost(ctx): Ghost<ExitCtx>,
)
    requires
        tir.wf(),
        names_ok(*tir, *pool),
        own_ok(*own, *tir),
        sc_ok(*tir, *old(sc)),
        reassigned.wf() && reassigned@.dom() == ctx.0,
        escaping.wf() && escaping@.dom() == ctx.2,
        own.inout_str_params@.dom() == ctx.3,
    ensures
        ungated_ext(old(sc).free_schedule@, final(sc).free_schedule@),
        final(sc).name == old(sc).name,
        final(sink).items() == old(sink).items() + dead_store_diags(*pool, ctx, own.pending_dead_store.seq()),
        sc_ok(*tir, *final(sc)),
        final(sc).free_schedule@ == old(sc).free_schedule@ + dead_store_frees(ctx, own.pending_dead_store.seq()),
        final(sc).if_branches@ == old(sc).if_branches@,
        final(sc).free_on_reassign@ == old(sc).free_on_reassign@,
{
    let ghost fs0 = sc.free_schedule@;
    let ghost d0 = sink.items();
    let ghost es = own.pending_dead_store.seq();
    let mut i: usize = 0;
    assert(fs0 + dead_store_frees(ctx, es.take(0)) =~= fs0);
    assert(d0 + dead_store_diags(*pool, ctx, es.take(0)) =~= d0);
    while i < own.pending_dead_store.len()
        invariant
            ungated_ext(old(sc).free_schedule@, sc.free_schedule@),
            sc.name == old(sc).name,
            i <= es.len(),
            es == own.pending_dead_store.seq(),
            tir.wf(),
            own_ok(*own, *tir),
            names_ok(*tir, *pool),
            reassigned.wf() && reassigned@.dom() == ctx.0,
            escaping.wf() && escaping@.dom() == ctx.2,
            own.inout_str_params@.dom() == ctx.3,
            sc_ok(*tir, *sc),
            sc.free_schedule@ == fs0 + dead_store_frees(ctx, es.take(i as int)),
            sink.items() == d0 + dead_store_diags(*pool, ctx, es.take(i as int)),
            sc.if_branches@ == old(sc).if_branches@,
            sc.free_on_reassign@ == old(sc).free_on_reassign@,
        decreases es.len() - i,
    {
        let (owner, entry) = own.pending_dead_store.entry(i);
        let owner = *owner;
        let (name, span, decl) = *entry;
        proof {
            own.pending_dead_store.lemma_view();
            assert(own.pending_dead_store@[es[i as int].0] == es[i as int].1);
            assert(own.pending_dead_store@.contains_key(owner));
            lemma_decl_name_interned(*tir, *pool, decl, name);
            assert(es.take(i + 1).drop_last() =~= es.take(i as int));
            assert(es.take(i + 1).last() == (owner, (name, span, decl)));
        }
        let ghost before = sc.free_schedule@;
        let ghost dbefore = sink.items();
        if !own.inout_str_params.contains_key(&name) && !escaping.contains_key(&owner) {
            let msg = message3("value `", pool.str(name), "` is declared but never used");
            sink.emit(Diag::warning(span, DiagCode::DeadStore, msg));
            match owner {
                Owner::Inst(t) => {
                    if !reassigned.contains_key(&t) {
                        let fp = FreePoint { after: decl, target: t, span, branch: None };
                        assert(fp_ok(*tir, fp));
                        sc.free_schedule.push(fp);
                    }
                },
                Owner::Param(_) => {},
            }
        }
        proof {
            assert(sc.free_schedule@ =~= fs0 + dead_store_frees(ctx, es.take(i + 1)));
            assert(sink.items() =~= d0 + dead_store_diags(*pool, ctx, es.take(i + 1)));
            assert forall|k: int| 0 <= k < sc.free_schedule@.len() implies fp_ok(*tir, #[trigger] sc.free_schedule@[k]) by {
                if k < before.len() {
                    assert(sc.free_schedule@[k] == before[k]);
                }
            }
        }
        i = i + 1;
    }
    assert(es.take(es.len() as int) =~= es);
}

// ---------- Whole functions ----------

/// Every value of `m` is an instruction of `tir`.
pub open spec fn vals_valid<K>(tir: Tir, m: Map<K, TirRef>) -> bool {
    forall|k: K| #[trigger] m.contains_key(k) ==> tir.valid_ref(m[k])
}

proof fn lemma_last_uses_valid(tir: Tir, reads: Map<TirRef, Owner>, m: Map<Owner, TirRef>, r: TirRef)
    requires
        tir.wf(),
        tir.valid_ref(r),
        vals_valid(tir, m),
    ensures
        vals_valid(tir, last_uses(tir, reads, m, r)),
    decreases r.0, 1nat,
{
    let m1 = match read_owner(tir, reads, r) {
        Some(o) => m.insert(o, r),
        None => m,
    };
    lemma_last_uses_upto_valid(tir, reads, m1, r, tir.children(r).len());
}

proof fn lemma_last_uses_upto_valid(tir: Tir, reads: Map<TirRef, Owner>, m: Map<Owner, TirRef>, r: TirRef, n: nat)
    requires
        tir.wf(),
        tir.valid_ref(r),
        vals_valid(tir, m),
    ensures
        vals_valid(tir, last_uses_upto(tir, reads, m, r, n)),
    decreases r.0, 0nat, n,
{
    if n == 0 || n > tir.children(r).len() {
    } else {
        lemma_last_uses_upto_valid(tir, reads, m, r, (n - 1) as nat);
        let c = tir.children(r)[n - 1].0;
        if c.0 < r.0 {
            lemma_last_uses_valid(tir, reads, last_uses_upto(tir, reads, m, r, (n - 1) as nat), c);
        }
    }
}

proof fn lemma_consumers_valid(tir: Tir, m: Map<TirRef, TirRef>, r: TirRef)
    requires
        tir.wf(),
        tir.valid_ref(r),
        vals_valid(tir, m),
    ensures
        vals_valid(tir, consumers(tir, m, r)),
    decreases r.0, 1nat,
{
    lemma_consumers_upto_valid(tir, m, r, tir.children(r).len());
}

proof fn lemma_consumers_upto_valid(tir: Tir, m: Map<TirRef, TirRef>, r: TirRef, n: nat)
    requires
        tir.wf(),
        tir.valid_ref(r),
        vals_valid(tir, m),
    ensures
        vals_valid(tir, consumers_upto(tir, m, r, n)),
    decreases r.0, 0nat, n,
{
    if n == 0 || n > tir.children(r).len() {
    } else {
        lemma_consumers_upto_valid(tir, m, r, (n - 1) as nat);
        let m1 = consumers_upto(tir, m, r, (n - 1) as nat);
        let e = tir.children(r)[n - 1];
        let m2 = if e.1 == ChildKind::Operand && !m1.contains_key(e.0) {
            m1.insert(e.0, r)
        } else {
            m1
        };
        assert(vals_valid(tir, m2));
        if e.0.0 < r.0 {
            lemma_consumers_valid(tir, m2, e.0);
        }
    }
}

/// The lattice at function entry, as tables.
pub open spec fn entry_tables(tir: Tir) -> Tables {
    Tables {
        states: param_states(tir.params@),
        current_owner: param_owners(tir.params@),
        origin: Map::empty(),
        pending: Map::empty(),
        temps: Map::empty(),
        reads: Map::empty(),
        next_branch_id: 0,
        inout: Map::new(|n: StringId| inout_params(tir.params@).contains(n), |n: StringId| ()),
    }
}

/// First consumers of every operand of the statements `s`, in order.
pub open spec fn body_consumers(tir: Tir, m: Map<TirRef, TirRef>, s: Seq<TirRef>) -> Map<TirRef, TirRef>
    decreases s.len(),
{
    if s.len() == 0 {
        m
    } else {
        consumers(tir, body_consumers(tir, m, s.drop_last()), s.last())
    }
}

/// Owners bound to an `inout str` parameter, read off the tables.
pub open spec fn t_escape_owners(t: Tables) -> Set<Owner> {
    Set::new(
        |o: Owner|
            exists|n: StringId|
                #[trigger] t.inout.contains_key(n) && t.current_owner.contains_key(n) && t.current_owner[n] == o,
    )
}

/// The exit context of a walk that ended with tables `t` and reassignment
/// frees `fr`.
pub open spec fn exit_ctx(t: Tables, fr: Map<TirRef, TirRef>) -> ExitCtx {
    (values_of(fr), values_of(t.current_owner), t_escape_owners(t), t.inout.dom())
}

/// The exit passes after a walk that ended in state `w`, the lattice,
/// temporary and pending tables taken in owner order as `es`, `et`, `ep`
/// (one list each, see `lemma_owners_sorted_unique`): the
/// diagnostics gain the W0001 of the dead stores, and the walk's free
/// schedule is followed by the last-use frees, the temporaries' frees, the
/// dead stores' frees, then the frees of every `break` / `continue`.
pub open spec fn exit_result(
    tir: Tir,
    pool: InternPool,
    w: WalkState,
    es: Seq<(Owner, OwnerState)>,
    et: Seq<(Owner, Unit)>,
    ep: Seq<(Owner, PendingStore)>,
    sc: FunctionSidecar,
    d1: Seq<DiagView>,
) -> bool {
    let t = w.0;
    let ctx = exit_ctx(t, w.3);
    let body = tir.body@;
    let frees = w.2 + exit_frees(tir, ctx, body_last_uses(tir, t.reads, Map::empty(), body), body, es) + temp_frees(
        tir,
        named_list(tir, root_ref(), body),
        t.states,
        body_consumers(tir, Map::empty(), body),
        et,
    ) + dead_store_frees(ctx, ep);
    &&& owners_sorted(es) && entries_map(es) == t.states
    &&& owners_sorted(et) && entries_map(et) == t.temps
    &&& owners_sorted(ep) && entries_map(ep) == t.pending
    &&& d1 == w.1 + dead_store_diags(pool, ctx, ep)
    &&& sc.free_on_reassign@ == w.3
    &&& sc.if_branches@ == w.4
    &&& sc.free_schedule@ == lx_list(tir, es, frees, body, root_ref(), None, body.len() as int)
}

/// Law: the exit passes are a function of the walk's end state. Two
/// sidecars and diagnostic lists that both follow from `w` by
/// [`exit_result`] agree on the free schedule, the reassignment frees,
/// the recorded `if` entries and the diagnostics.
pub proof fn lemma_exit_result_unique(
    tir: Tir,
    pool: InternPool,
    w: WalkState,
    o1: (Seq<(Owner, OwnerState)>, Seq<(Owner, Unit)>, Seq<(Owner, PendingStore)>),
    o2: (Seq<(Owner, OwnerState)>, Seq<(Owner, Unit)>, Seq<(Owner, PendingStore)>),
    sc1: FunctionSidecar,
    sc2: FunctionSidecar,
    d1: Seq<DiagView>,
    d2: Seq<DiagView>,
)
    requires
        exit_result(tir, pool, w, o1.0, o1.1, o1.2, sc1, d1),
        exit_result(tir, pool, w, o2.0, o2.1, o2.2, sc2, d2),
    ensures
        o1 == o2,
        sc1.free_schedule@ == sc2.free_schedule@,
        sc1.free_on_reassign@ == sc2.free_on_reassign@,
        sc1.if_branches@ == sc2.if_branches@,
        d1 == d2,
{
    lemma_owners_sorted_unique(o1.0, o2.0);
    lemma_owners_sorted_unique(o1.1, o2.1);
    lemma_owners_sorted_unique(o1.2, o2.2);
}

/// The pass state at function entry.
pub open spec fn entry_state(tir: Tir, d0: Seq<DiagView>) -> WalkState {
    (entry_tables(tir), d0, Seq::empty(), Map::empty(), Map::empty())
}

/// The pass over function `tir` walked its body from the entry state to
/// `w` (going as `tree` says), then ran the exit passes over the tables in
/// owner order `o`.
pub open spec fn function_witness(
    tir: Tir,
    pool: InternPool,
    d0: Seq<DiagView>,
    sc: FunctionSidecar,
    d1: Seq<DiagView>,
    w: WalkState,
    tree: WalkTree,
    o: (Seq<(Owner, OwnerState)>, Seq<(Owner, Unit)>, Seq<(Owner, PendingStore)>),
) -> bool {
    &&& block_rel(tir, pool, entry_state(tir, d0), w, root_ref(), tir.body@, tree)
    &&& exit_result(tir, pool, w, o.0, o.1, o.2, sc, d1)
}

/// What the pass over function `tir` gives, from the diagnostics `d0`:
/// sidecar `sc` and diagnostics `d1`.
pub open spec fn function_result(tir: Tir, pool: InternPool, d0: Seq<DiagView>, sc: FunctionSidecar, d1: Seq<DiagView>) -> bool {
    exists|w: WalkState, tree: WalkTree, o: (Seq<(Owner, OwnerState)>, Seq<(Owner, Unit)>, Seq<(Owner, PendingStore)>)|
        #[trigger] function_witness(tir, pool, d0, sc, d1, w, tree, o)
}

/// The ownership pass over one function: the forward walk from the
/// parameter lattice, then the frees of owners still valid at exit (after
/// their last read), of anonymous temporaries (after their consumer), of
/// dead stores (after their declaration, with W0001), and of `break` /
/// `continue` paths. The branch ids of the function's `if`s are pairwise
/// distinct.
pub fn analyze_function(tir: &Tir, pool: &InternPool, sink: &mut DiagSink) -> (sc: FunctionSidecar)
    requires
        tir.wf(),
        names_ok(*tir, *pool),
        need_list(*tir, root_ref(), tir.body@) <= u32::MAX,
    ensures
        sc.name == tir.name,
        sc_ok(*tir, sc),
        ids_ok(sc.if_branches@, u32::MAX),
        tree_shaped(*tir) ==> gated_ok(sc.free_schedule@, sc.if_branches@),
        diag_prefix(old(sink).items(), final(sink).items()),
        function_result(*tir, *pool, old(sink).items(), sc, final(sink).items()),
{
    let mut sc = FunctionSidecar::new(tir.name);
    let mut own = init_params(tir, pool);
    let body = tir.body_stmts();
    proof {
        assert(own.inout_str_params@ =~= entry_tables(*tir).inout) by {
            assert forall|n: StringId| #[trigger] own.inout_str_params@.contains_key(n) implies own.inout_str_params@[n] == () by {
                let unit: () = own.inout_str_params@[n];
            }
        }
        assert(own.tables() == entry_tables(*tir));
        assert forall|j: int| 0 <= j < body@.len() implies tir.valid_ref(#[trigger] body@[j]) by {
            assert(tir.body@[j].0 < tir.insts@.len());
        }
        assert(refs_below(body@, root_ref().0 as int));
        assert(stmt_pre(*tir, *pool, own, sc, need_list(*tir, root_ref(), body@)));
        assert(keys_outside(sc.if_branches@, reach_seq(*tir, body@)));
        assert(gated_ok(sc.free_schedule@, sc.if_branches@));
    }
    let ghost d0 = sink.items();
    let ghost a0 = walk_state(own, sink.items(), sc);
    assert(a0 == entry_state(*tir, d0));
    analyze_block(tir, pool, &mut own, sink, &mut sc, &body, TirRef(PARAM_BASE));
    let ghost d1 = sink.items();
    let ghost w = walk_state(own, sink.items(), sc);
    let ghost tree = choose|t: WalkTree| #[trigger] block_rel(*tir, *pool, a0, w, root_ref(), body@, t);
    let ghost sc_w = sc;
    proof {
        crate::ownership::stmt::lemma_branch_ids_mono(sc, own.next_branch_id, u32::MAX);
    }
    // The exit passes visit owners in owner order, whatever order the
    // walk left the tables in.
    own.states = sort_by_owner(&own.states);
    own.temp_owners = sort_by_owner(&own.temp_owners);
    own.pending_dead_store = sort_by_owner(&own.pending_dead_store);
    assert(own.tables() == w.0);

    // Last reads of every owner, in source order.
    let mut last_use: VecMap<Owner, TirRef> = VecMap::new();
    let mut i: usize = 0;
    while i < body.len()
        invariant
            i <= body@.len(),
            tir.wf(),
            own.wf(),
            forall|j: int| 0 <= j < body@.len() ==> tir.valid_ref(#[trigger] body@[j]),
            last_use.wf(),
            vals_valid(*tir, last_use@),
            last_use@ == body_last_uses(*tir, own.owner_at_read@, Map::empty(), body@.take(i as int)),
        decreases body@.len() - i,
    {
        proof {
            lemma_last_uses_valid(*tir, own.owner_at_read@, last_use@, body@[i as int]);
            assert(body@.take(i + 1).drop_last() =~= body@.take(i as int));
        }
        collect_last_uses(tir, pool, &own, body[i], &mut last_use);
        i = i + 1;
    }
    assert(body@.take(body@.len() as int) =~= body@);
    let reassigned = values_set(&sc.free_on_reassign);
    let live = values_set(&own.current_owner);
    let escaping = escape_set(&own);
    let ghost ctx: ExitCtx = (reassigned@.dom(), live@.dom(), escaping@.dom(), own.inout_str_params@.dom());
    schedule_last_use_frees(tir, pool, &own, &mut sc, &body, &reassigned, &live, &escaping, &last_use, Ghost(ctx));

    // Anonymous temporaries, freed after their consumer.
    let named = collect_named_inits(tir, &body, TirRef(PARAM_BASE));
    let mut consumer_of: VecMap<TirRef, TirRef> = VecMap::new();
    let mut i: usize = 0;
    while i < body.len()
        invariant
            i <= body@.len(),
            tir.wf(),
            forall|j: int| 0 <= j < body@.len() ==> tir.valid_ref(#[trigger] body@[j]),
            consumer_of.wf(),
            vals_valid(*tir, consumer_of@),
            consumer_of@ == body_consumers(*tir, Map::empty(), body@.take(i as int)),
        decreases body@.len() - i,
    {
        proof {
            lemma_consumers_valid(*tir, consumer_of@, body@[i as int]);
            assert(body@.take(i + 1).drop_last() =~= body@.take(i as int));
        }
        find_consumers(tir, body[i], &mut consumer_of);
        i = i + 1;
    }
    schedule_temp_frees(tir, &own, &mut sc, &named, &consumer_of);

    // Dead stores: W0001 and a free after the declaration.
    drain_dead_stores(tir, pool, &own, sink, &mut sc, &reassigned, &escaping, Ghost(ctx));

    // Jump frees last: they look at everything scheduled so far.
    let ghost fs_exit = sc.free_schedule@;
    schedule_loop_exit_frees_in(tir, &own, &mut sc, &body, TirRef(PARAM_BASE), None);
    proof {
        if tree_shaped(*tir) {
            let m = sc.if_branches@;
            assert(m == sc_w.if_branches@);
            assert(ungated_ext(sc_w.free_schedule@, sc.free_schedule@)) by {
                assert(sc.free_schedule@.len() >= sc_w.free_schedule@.len());
            }
            lemma_ungated_ext_gated(sc_w.free_schedule@, sc.free_schedule@, m);
        }
        {
            own.states.lemma_view();
            own.temp_owners.lemma_view();
            own.pending_dead_store.lemma_view();
            assert(ctx == exit_ctx(w.0, w.3)) by {
                assert(escape_owners(own) =~= t_escape_owners(w.0)) by {
                    assert forall|o: Owner| escape_owners(own).contains(o) implies t_escape_owners(w.0).contains(o) by {
                        let n = choose|n: StringId|
                            #[trigger] own.inout_str_params@.contains_key(n) && own.current_owner@.contains_key(n)
                                && own.current_owner@[n] == o;
                        assert(w.0.inout.contains_key(n));
                    }
                    assert forall|o: Owner| t_escape_owners(w.0).contains(o) implies escape_owners(own).contains(o) by {
                        let n = choose|n: StringId|
                            #[trigger] w.0.inout.contains_key(n) && w.0.current_owner.contains_key(n) && w.0.current_owner[n] == o;
                        assert(own.inout_str_params@.contains_key(n));
                    }
                }
            }
            let es = own.states.seq();
            let et = own.temp_owners.seq();
            let ep = own.pending_dead_store.seq();
            assert(exit_result(*tir, *pool, w, es, et, ep, sc, sink.items()));
            assert(function_witness(*tir, *pool, d0, sc, sink.items(), w, tree, (es, et, ep)));
        }
        assert forall|k: int| 0 <= k < d0.len() implies #[trigger] sink.items()[k] == d0[k] by {
            assert(d1[k] == d0[k]);
        }
    }
    sc
}

/// Functions that can be checked: well-formed IR whose names are interned
/// in `pool`, with few enough `if` arms for `u32` branch ids.
pub open spec fn checkable(tirs: Seq<Tir>, pool: InternPool) -> bool {
    forall|i: int|
        0 <= i < tirs.len() ==> {
            &&& (#[trigger] tirs[i]).wf()
            &&& names_ok(tirs[i], pool)
            &&& need_list(tirs[i], root_ref(), tirs[i].body@) <= u32::MAX
        }
}

/// A run of the pass over the first `k` functions of `tirs`: function `i`
/// found the diagnostics `ds[i]`, left `ds[i + 1]` and got sidecar
/// `scs[i]` (see [`function_result`]).
pub open spec fn check_trace(
    tirs: Seq<Tir>,
    pool: InternPool,
    ds: Seq<Seq<DiagView>>,
    scs: Seq<FunctionSidecar>,
    k: int,
) -> bool {
    &&& ds.len() == k + 1
    &&& scs.len() == k
    &&& forall|i: int|
        #![trigger scs[i]]
        0 <= i < k ==> function_result(tirs[i], pool, ds[i], scs[i], ds[i + 1])
}

/// Validate move safety for every function body, emitting diagnostics into
/// `sink`; returns one sidecar per function, in order, telling codegen
/// where to free which allocation. The IR itself is never changed. In a
/// tree-shaped function every branch-gated free is gated on an arm id
/// that the sidecar records for one of its `if`s.
pub fn check(tirs: &[Tir], pool: &InternPool, sink: &mut DiagSink) -> (out: OwnershipSidecar)
    requires
        checkable(tirs@, *pool),
    ensures
        out.functions@.len() == tirs@.len(),
        forall|i: int|
            #![trigger out.functions@[i]]
            0 <= i < tirs@.len() ==> out.functions@[i].name == tirs@[i].name && sc_ok(tirs@[i], out.functions@[i])
                && ids_ok(out.functions@[i].if_branches@, u32::MAX) && (tree_shaped(tirs@[i]) ==> gated_ok(
                out.functions@[i].free_schedule@,
                out.functions@[i].if_branches@,
            )),
        diag_prefix(old(sink).items(), final(sink).items()),
        exists|ds: Seq<Seq<DiagView>>|
            #[trigger] check_trace(tirs@, *pool, ds, out.functions@, tirs@.len() as int) && ds[0] == old(sink).items()
                && ds.last() == final(sink).items(),
{
    let mut out = OwnershipSidecar { functions: Vec::new() };
    let ghost d0 = sink.items();
    let ghost mut ds: Seq<Seq<DiagView>> = seq![d0];
    let mut i: usize = 0;
    while i < tirs.len()
        invariant
            check_trace(tirs@, *pool, ds, out.functions@, i as int),
            ds[0] == d0,
            ds.last() == sink.items(),
            i <= tirs@.len(),
            checkable(tirs@, *pool),
            forall|j: int|
                #![trigger out.functions@[j]]
                0 <= j < i ==> out.functions@[j].name == tirs@[j].name && sc_ok(tirs@[j], out.functions@[j])
                    && ids_ok(out.functions@[j].if_branches@, u32::MAX) && (tree_shaped(tirs@[j]) ==> gated_ok(
                    out.functions@[j].free_schedule@,
                    out.functions@[j].if_branches@,
                )),
            diag_prefix(d0, sink.items()),
        decreases tirs@.len() - i,
    {
        let tir = &tirs[i];
        assert(tirs@[i as int].wf());
        let ghost before = sink.items();
        let ghost scs0 = out.functions@;
        let fsc = analyze_function(tir, pool, sink);
        out.functions.push(fsc);
        proof {
            let ds1 = ds.push(sink.items());
            assert(ds1[i as int] == before);
            assert forall|k: int| #![trigger out.functions@[k]] 0 <= k < i + 1 implies function_result(tirs@[k], *pool, ds1[k], out.functions@[k], ds1[k + 1]) by {
                if k < i {
                    assert(out.functions@[k] == scs0[k]);
                    assert(ds1[k] == ds[k] && ds1[k + 1] == ds[k + 1]);
                }
            }
            assert forall|k: int| #![trigger out.functions@[k]] 0 <= k < i + 1 implies out.functions@[k].name == tirs@[k].name && sc_ok(tirs@[k], out.functions@[k])
                && ids_ok(out.functions@[k].if_branches@, u32::MAX) && (tree_shaped(tirs@[k]) ==> gated_ok(
                out.functions@[k].free_schedule@,
                out.functions@[k].if_branches@,
            )) by {
                if k < i {
                    assert(out.functions@[k] == scs0[k]);
                }
            }
            ds = ds1;
            assert forall|k: int| 0 <= k < d0.len() implies #[trigger] sink.items()[k] == d0[k] by {
                assert(before[k] == d0[k]);
            }
        }
        i = i + 1;
    }
    out
}

} // verus!
