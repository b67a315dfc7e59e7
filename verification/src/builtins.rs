//! Registry of the user-facing builtins and of the synthesized runtime
//! callees whose ABI the ownership pass and codegen consult.
use vstd::prelude::*;
use crate::types::{InternPool, StringId, TypeId, TypeKind, spec_kind};

verus! {

/// Which primitive type a builtin returns.
#[derive(Clone, Copy, PartialEq, Eq, Structural, Debug)]
pub enum BuiltinReturn {
    Void,
    Never,
    Str,
    Bytes,
}

/// One registry entry.
///
/// `borrowed_scalar_params` lists the parameter indices passed via the
/// borrowed-scalar ABI (raw `.rodata` pointer, cap=0, never heap-owned).
/// `view_borrow_params` lists the parameter indices passed as `strview`
/// whose root owner the call borrows for its duration.
pub struct BuiltinFunction {
    pub name: String,
    /// Tag of the return type; `return_type` resolves it against a pool.
    pub return_ty: BuiltinReturn,
    pub borrowed_scalar_params: Vec<usize>,
    pub view_borrow_params: Vec<usize>,
}

/// Abstract registry entry: name, return tag, borrowed-scalar indices,
/// view-borrow indices.
pub type BuiltinView = (Seq<char>, BuiltinReturn, Seq<usize>, Seq<usize>);

impl View for BuiltinFunction {
    type V = BuiltinView;

    open spec fn view(&self) -> BuiltinView {
        (self.name@, self.return_ty, self.borrowed_scalar_params@, self.view_borrow_params@)
    }
}

/// The user-facing builtins, in registry order.
pub open spec fn spec_builtins() -> Seq<BuiltinView> {
    seq![
        ("print"@, BuiltinReturn::Void, seq![], seq![]),
        ("assert"@, BuiltinReturn::Void, seq![], seq![]),
        ("panic"@, BuiltinReturn::Never, seq![], seq![]),
        ("int_to_str"@, BuiltinReturn::Str, seq![], seq![]),
        ("float_to_str"@, BuiltinReturn::Str, seq![], seq![]),
        ("bool_to_str"@, BuiltinReturn::Str, seq![], seq![]),
        ("str_push"@, BuiltinReturn::Void, seq![], seq![]),
        ("bytes_push"@, BuiltinReturn::Void, seq![], seq![]),
    ]
}

/// Synthesized (non-user-facing) runtime callees, in registry order.
pub open spec fn spec_abi_callees() -> Seq<BuiltinView> {
    seq![
        ("__ryo_panic"@, BuiltinReturn::Never, seq![0usize], seq![]),
        ("__ryo_str_from_view"@, BuiltinReturn::Str, seq![], seq![0usize]),
        ("__ryo_bytes_repr"@, BuiltinReturn::Str, seq![], seq![0usize]),
        ("__ryo_bytes_from_view"@, BuiltinReturn::Bytes, seq![], seq![0usize]),
        ("__ryo_bytes_to_str"@, BuiltinReturn::Str, seq![], seq![0usize]),
        ("ryo_str_to_bytes"@, BuiltinReturn::Bytes, seq![], seq![0usize]),
    ]
}

/// First entry of `table` at or after position `i` whose name is `name`.
pub open spec fn find_from(table: Seq<BuiltinView>, name: Seq<char>, i: int) -> Option<
    BuiltinView,
>
    decreases table.len() - i,
{
    if i < 0 || i >= table.len() {
        None
    } else if table[i].0 == name {
        Some(table[i])
    } else {
        find_from(table, name, i + 1)
    }
}

/// The user-facing builtin called `name`, if any.
pub open spec fn spec_lookup(name: Seq<char>) -> Option<BuiltinView> {
    find_from(spec_builtins(), name, 0)
}

/// The synthesized callee called `name`, if any.
pub open spec fn spec_abi_callee(name: Seq<char>) -> Option<BuiltinView> {
    find_from(spec_abi_callees(), name, 0)
}

/// The registry entry for callee `name`: user-facing builtins first,
/// then the synthesized callees.
pub open spec fn spec_registry_entry(name: Seq<char>) -> Option<BuiltinView> {
    match spec_lookup(name) {
        Some(e) => Some(e),
        None => spec_abi_callee(name),
    }
}

/// Whether callee `name` passes parameter `idx` via the borrowed-scalar
/// ABI.
pub open spec fn spec_is_borrowed_scalar_param(name: Seq<char>, idx: usize) -> bool {
    match spec_registry_entry(name) {
        Some(e) => e.2.contains(idx),
        None => false,
    }
}

/// The view-borrow parameter indices of callee `name`.
pub open spec fn spec_view_borrow_params(name: Seq<char>) -> Seq<usize> {
    match spec_registry_entry(name) {
        Some(e) => e.3,
        None => Seq::empty(),
    }
}

/// The type a return tag stands for.
pub open spec fn spec_return_type(r: BuiltinReturn) -> TypeId {
    match r {
        BuiltinReturn::Void => TypeId(0),
        BuiltinReturn::Never => TypeId(1),
        BuiltinReturn::Str => TypeId(5),
        BuiltinReturn::Bytes => TypeId(7),
    }
}

pub open spec fn opt_view(r: Option<BuiltinFunction>) -> Option<BuiltinView> {
    match r {
        Some(b) => Some(b@),
        None => None,
    }
}

/// Names that are not callable builtins but cannot be redefined by user code.
pub open spec fn spec_reserved_names() -> Seq<Seq<char>> {
    seq!["range"@]
}

pub open spec fn spec_is_reserved_name(name: Seq<char>) -> bool {
    spec_reserved_names().contains(name)
}

fn usize_vec(a: Option<usize>) -> (v: Vec<usize>)
    ensures
        v@ == (match a {
            Some(x) => seq![x],
            None => Seq::<usize>::empty(),
        }),
{
    let ghost xs = match a {
        Some(x) => seq![x],
        None => Seq::<usize>::empty(),
    };
    let mut v: Vec<usize> = Vec::new();
    match a {
        Some(x) => {
            v.push(x);
            assert(v@ =~= xs);
        },
        None => {
            assert(v@ =~= xs);
        },
    }
    v
}

fn entry(name: &str, return_ty: BuiltinReturn, scalar: Option<usize>, view: Option<usize>) -> (b:
    BuiltinFunction)
    ensures
        b@.0 == name@,
        b@.1 == return_ty,
        b@.2 == (match scalar {
            Some(x) => seq![x],
            None => Seq::<usize>::empty(),
        }),
        b@.3 == (match view {
            Some(x) => seq![x],
            None => Seq::<usize>::empty(),
        }),
{
    BuiltinFunction {
        name: String::from_str(name),
        return_ty,
        borrowed_scalar_params: usize_vec(scalar),
        view_borrow_params: usize_vec(view),
    }
}

/// The user-facing builtins table.
pub fn builtins() -> (t: Vec<BuiltinFunction>)
    ensures
        t@.map_values(|b: BuiltinFunction| b@) == spec_builtins(),
{
    let mut t: Vec<BuiltinFunction> = Vec::new();
    t.push(entry("print", BuiltinReturn::Void, None, None));
    t.push(entry("assert", BuiltinReturn::Void, None, None));
    t.push(entry("panic", BuiltinReturn::Never, None, None));
    t.push(entry("int_to_str", BuiltinReturn::Str, None, None));
    t.push(entry("float_to_str", BuiltinReturn::Str, None, None));
    t.push(entry("bool_to_str", BuiltinReturn::Str, None, None));
    t.push(entry("str_push", BuiltinReturn::Void, None, None));
    t.push(entry("bytes_push", BuiltinReturn::Void, None, None));
    assert(t@.map_values(|b: BuiltinFunction| b@) =~= spec_builtins());
    t
}

/// The synthesized runtime callees table.
pub fn abi_callees() -> (t: Vec<BuiltinFunction>)
    ensures
        t@.map_values(|b: BuiltinFunction| b@) == spec_abi_callees(),
{
    let mut t: Vec<BuiltinFunction> = Vec::new();
    t.push(entry("__ryo_panic", BuiltinReturn::Never, Some(0), None));
    t.push(entry("__ryo_str_from_view", BuiltinReturn::Str, None, Some(0)));
    t.push(entry("__ryo_bytes_repr", BuiltinReturn::Str, None, Some(0)));
    t.push(entry("__ryo_bytes_from_view", BuiltinReturn::Bytes, None, Some(0)));
    t.push(entry("__ryo_bytes_to_str", BuiltinReturn::Str, None, Some(0)));
    t.push(entry("ryo_str_to_bytes", BuiltinReturn::Bytes, None, Some(0)));
    assert(t@.map_values(|b: BuiltinFunction| b@) =~= spec_abi_callees());
    t
}

/// First entry of `table` named `name`, taken out of the table.
fn find_in(entries: Vec<BuiltinFunction>, name: &str) -> (r: Option<BuiltinFunction>)
    ensures
        opt_view(r) == find_from(entries@.map_values(|b: BuiltinFunction| b@), name@, 0),
{
    let ghost tv = entries@.map_values(|b: BuiltinFunction| b@);
    let mut table = entries;
    let key = String::from_str(name);
    let mut i: usize = 0;
    while i < table.len()
        invariant
            i <= table@.len(),
            table@.map_values(|b: BuiltinFunction| b@) == tv,
            tv == entries@.map_values(|b: BuiltinFunction| b@),
            key@ == name@,
            find_from(tv, name@, 0) == find_from(tv, name@, i as int),
        decreases table@.len() - i,
    {
        assert(tv[i as int] == table@[i as int]@);
        if table[i].name == key {
            assert(tv[i as int].0 == name@);
            assert(find_from(tv, name@, i as int) == Some(tv[i as int]));
            let b = table.remove(i);
            assert(b@ == tv[i as int]);
            return Some(b);
        }
        i = i + 1;
    }
    None
}

impl BuiltinFunction {
    /// The type this builtin returns.
    pub fn return_type(&self, pool: &InternPool) -> (t: TypeId)
        ensures
            t == spec_return_type(self@.1),
    {
        match self.return_ty {
            BuiltinReturn::Void => pool.void(),
            BuiltinReturn::Never => pool.never(),
            BuiltinReturn::Str => pool.str_(),
            BuiltinReturn::Bytes => pool.bytes(),
        }
    }
}

/// The user-facing builtin called `name`, if any.
pub fn lookup(name: &str) -> (r: Option<BuiltinFunction>)
    ensures
        opt_view(r) == spec_lookup(name@),
{
    find_in(builtins(), name)
}

/// The synthesized (non-user-facing) runtime callee called `name`, if any.
pub fn abi_callee(name: &str) -> (r: Option<BuiltinFunction>)
    ensures
        opt_view(r) == spec_abi_callee(name@),
{
    find_in(abi_callees(), name)
}

fn registry_entry(name: &str) -> (r: Option<BuiltinFunction>)
    ensures
        opt_view(r) == spec_registry_entry(name@),
{
    match lookup(name) {
        Some(b) => Some(b),
        None => abi_callee(name),
    }
}

/// True if callee `name_id` passes parameter `idx` via the
/// borrowed-scalar ABI. Unknown callees and out-of-range indices give
/// `false`.
pub fn is_borrowed_scalar_param(name_id: StringId, pool: &InternPool, idx: usize) -> (r: bool)
    requires
        pool.contains_id(name_id),
    ensures
        r == spec_is_borrowed_scalar_param(pool.spec_str(name_id), idx),
{
    let name = pool.str(name_id);
    match registry_entry(name) {
        Some(b) => {
            let mut i: usize = 0;
            while i < b.borrowed_scalar_params.len()
                invariant
                    i <= b.borrowed_scalar_params@.len(),
                    Some(b@) == spec_registry_entry(pool.spec_str(name_id)),
                    forall|j: int| 0 <= j < i ==> b.borrowed_scalar_params@[j] != idx,
                decreases b.borrowed_scalar_params@.len() - i,
            {
                if b.borrowed_scalar_params[i] == idx {
                    assert(b@.2[i as int] == idx);
                    return true;
                }
                i = i + 1;
            }
            false
        },
        None => false,
    }
}

/// Parameter indices of callee `name_id` passed as `strview` whose root
/// owner the call borrows for its duration; empty for unknown callees.
pub fn view_borrow_params(name_id: StringId, pool: &InternPool) -> (r: Vec<usize>)
    requires
        pool.contains_id(name_id),
    ensures
        r@ == spec_view_borrow_params(pool.spec_str(name_id)),
{
    let name = pool.str(name_id);
    match registry_entry(name) {
        Some(b) => b.view_borrow_params,
        None => Vec::new(),
    }
}

pub fn is_reserved_name(name: &str) -> (r: bool)
    ensures
        r == spec_is_reserved_name(name@),
{
    let a = String::from_str(name);
    let b = String::from_str("range");
    let r = a == b;
    proof {
        assert(spec_reserved_names()[0] == "range"@);
        if spec_is_reserved_name(name@) {
            let k = choose|k: int|
                0 <= k < spec_reserved_names().len() && spec_reserved_names()[k] == name@;
            assert(k == 0);
        }
    }
    r
}

/// No user-facing builtin uses the borrowed-scalar ABI or borrows a
/// view: both index lists are empty for every entry of the builtins
/// table.
pub proof fn lemma_user_builtins_borrow_nothing(i: int)
    requires
        0 <= i < spec_builtins().len(),
    ensures
        spec_builtins()[i].2 == Seq::<usize>::empty(),
        spec_builtins()[i].3 == Seq::<usize>::empty(),
{
}

/// Every synthesized callee passes at most parameter 0 specially: its
/// borrowed-scalar and view-borrow lists are each empty or exactly `[0]`.
pub proof fn lemma_abi_callees_use_param_zero(i: int)
    requires
        0 <= i < spec_abi_callees().len(),
    ensures
        spec_abi_callees()[i].2 == Seq::<usize>::empty() || spec_abi_callees()[i].2 == seq![
            0usize,
        ],
        spec_abi_callees()[i].3 == Seq::<usize>::empty() || spec_abi_callees()[i].3 == seq![
            0usize,
        ],
{
}

/// Whether `name` ends in `_to_str`.
pub open spec fn names_conversion_to_str(name: Seq<char>) -> bool {
    name.len() >= 7 && name.subrange(name.len() - 7, name.len() as int) == "_to_str"@
}

/// The user-facing builtins that return the owned `str` type are exactly
/// the conversions named `..._to_str`: for every name that the registry
/// knows, its return type is `str` if and only if the name ends in
/// `_to_str`.
pub proof fn lemma_to_str_builtins_return_str(name: Seq<char>)
    requires
        spec_lookup(name) is Some,
    ensures
        spec_kind(spec_return_type(spec_lookup(name)->Some_0.1)) == TypeKind::Str
            <==> names_conversion_to_str(name),
{
    reveal_strlit("print");
    reveal_strlit("assert");
    reveal_strlit("panic");
    reveal_strlit("int_to_str");
    reveal_strlit("float_to_str");
    reveal_strlit("bool_to_str");
    reveal_strlit("str_push");
    reveal_strlit("bytes_push");
    reveal_strlit("_to_str");
    reveal_with_fuel(find_from, 9);
    let t = spec_builtins();
    let b = spec_lookup(name)->Some_0;
    assert(name == b.0);
    if name == "str_push"@ {
        assert(name.subrange(1, 8)[0] == 't');
        assert("_to_str"@[0] == '_');
    }
    if name == "bytes_push"@ {
        assert(name.subrange(3, 10)[0] == 'e');
        assert("_to_str"@[0] == '_');
    }
    if name == "int_to_str"@ {
        assert(name.subrange(3, 10) =~= "_to_str"@);
    }
    if name == "float_to_str"@ {
        assert(name.subrange(5, 12) =~= "_to_str"@);
    }
    if name == "bool_to_str"@ {
        assert(name.subrange(4, 11) =~= "_to_str"@);
    }
}

/// `int_to_str`, `float_to_str` and `bool_to_str` are user-facing
/// builtins, and each returns the owned `str` type (the handle that
/// `InternPool::str_` gives).
pub proof fn lemma_conversions_to_str_are_registered()
    ensures
        spec_lookup("int_to_str"@) is Some,
        spec_lookup("float_to_str"@) is Some,
        spec_lookup("bool_to_str"@) is Some,
        spec_return_type(spec_lookup("int_to_str"@)->Some_0.1) == TypeId(5),
        spec_return_type(spec_lookup("float_to_str"@)->Some_0.1) == TypeId(5),
        spec_return_type(spec_lookup("bool_to_str"@)->Some_0.1) == TypeId(5),
{
    reveal_strlit("print");
    reveal_strlit("assert");
    reveal_strlit("panic");
    reveal_strlit("int_to_str");
    reveal_strlit("float_to_str");
    reveal_strlit("bool_to_str");
    let t = spec_builtins();
    assert(t[0].0.len() == 5 && t[1].0.len() == 6 && t[2].0.len() == 5);
    assert(t[3].0.len() == 10 && t[4].0.len() == 12 && t[5].0.len() == 11);
    assert(find_from(t, "int_to_str"@, 3) == Some(t[3]));
    assert(find_from(t, "int_to_str"@, 0) == find_from(t, "int_to_str"@, 3)) by {
        assert(find_from(t, "int_to_str"@, 2) == find_from(t, "int_to_str"@, 3));
        assert(find_from(t, "int_to_str"@, 1) == find_from(t, "int_to_str"@, 2));
    }
    assert(find_from(t, "float_to_str"@, 4) == Some(t[4]));
    assert(find_from(t, "float_to_str"@, 3) == find_from(t, "float_to_str"@, 4));
    assert(find_from(t, "float_to_str"@, 0) == find_from(t, "float_to_str"@, 3)) by {
        assert(find_from(t, "float_to_str"@, 2) == find_from(t, "float_to_str"@, 3));
        assert(find_from(t, "float_to_str"@, 1) == find_from(t, "float_to_str"@, 2));
    }
    assert(find_from(t, "bool_to_str"@, 5) == Some(t[5]));
    assert(find_from(t, "bool_to_str"@, 4) == find_from(t, "bool_to_str"@, 5));
    assert(find_from(t, "bool_to_str"@, 3) == find_from(t, "bool_to_str"@, 4));
    assert(find_from(t, "bool_to_str"@, 0) == find_from(t, "bool_to_str"@, 3)) by {
        assert(find_from(t, "bool_to_str"@, 2) == find_from(t, "bool_to_str"@, 3));
        assert(find_from(t, "bool_to_str"@, 1) == find_from(t, "bool_to_str"@, 2));
    }
}

} // verus!
