//! Interned names and primitive types shared by every front-end pass.
//!
//! `StringId` is a handle into the name table of an [`InternPool`];
//! `TypeId` is a handle to one of the primitive types the front end
//! knows about. Both are plain integers so that the passes can key their
//! tables by them.
use vstd::prelude::*;

verus! {

/// Byte range `start..end` of a piece of source text.
#[derive(Clone, Copy, PartialEq, Eq, Structural, Debug, Hash)]
pub struct Span {
    pub start: usize,
    pub end: usize,
}

impl Span {
    pub fn new(start: usize, end: usize) -> (s: Span)
        ensures
            s == (Span { start, end }),
    {
        Span { start, end }
    }
}

/// Handle of an interned name.
#[derive(Clone, Copy, PartialEq, Eq, Structural, Debug, Hash)]
pub struct StringId(pub u32);

/// Handle of a primitive type.
#[derive(Clone, Copy, PartialEq, Eq, Structural, Debug, Hash)]
pub struct TypeId(pub u32);

/// What a `TypeId` stands for.
#[derive(Clone, Copy, PartialEq, Eq, Structural, Debug)]
pub enum TypeKind {
    Void,
    Never,
    Int,
    Float,
    Bool,
    Str,
    StrView,
    Bytes,
    Error,
}

/// The kind of a type handle: the primitive types occupy the first
/// handles, in the order of [`TypeKind`]; every other handle is the
/// error type.
pub open spec fn spec_kind(ty: TypeId) -> TypeKind {
    if ty.0 == 0 {
        TypeKind::Void
    } else if ty.0 == 1 {
        TypeKind::Never
    } else if ty.0 == 2 {
        TypeKind::Int
    } else if ty.0 == 3 {
        TypeKind::Float
    } else if ty.0 == 4 {
        TypeKind::Bool
    } else if ty.0 == 5 {
        TypeKind::Str
    } else if ty.0 == 6 {
        TypeKind::StrView
    } else if ty.0 == 7 {
        TypeKind::Bytes
    } else {
        TypeKind::Error
    }
}

/// Name table. Every name appears at most once; a name's `StringId` is
/// its position in the table.
#[derive(Debug)]
pub struct InternPool {
    strings: Vec<String>,
}

impl View for InternPool {
    type V = Seq<Seq<char>>;

    closed spec fn view(&self) -> Seq<Seq<char>> {
        self.strings@.map_values(|s: String| s@)
    }
}

impl InternPool {
    /// No name is interned twice.
    pub open spec fn wf(&self) -> bool {
        &&& self@.len() < u32::MAX
        &&& forall|i: int, j: int|
            0 <= i < self@.len() && 0 <= j < self@.len() && i != j ==> #[trigger] self@[i]
                != #[trigger] self@[j]
    }

    /// True if `id` names an entry of the table.
    pub open spec fn contains_id(&self, id: StringId) -> bool {
        id.0 < self@.len()
    }

    /// The text interned under `id`.
    pub open spec fn spec_str(&self, id: StringId) -> Seq<char> {
        self@[id.0 as int]
    }

    pub fn new() -> (pool: Self)
        ensures
            pool@ == Seq::<Seq<char>>::empty(),
            pool.wf(),
    {
        let pool = InternPool { strings: Vec::new() };
        assert(pool@ =~= Seq::<Seq<char>>::empty());
        pool
    }

    /// Position of `s` in the table, if it was interned.
    pub fn find_str(&self, s: &str) -> (r: Option<StringId>)
        requires
            self.wf(),
        ensures
            match r {
                Some(id) => self.contains_id(id) && self.spec_str(id) == s@,
                None => !self@.contains(s@),
            },
    {
        let key = String::from_str(s);
        let mut i: usize = 0;
        while i < self.strings.len()
            invariant
                i <= self.strings@.len(),
                self@.len() == self.strings@.len(),
                self.wf(),
                key@ == s@,
                forall|j: int| 0 <= j < i ==> self@[j] != s@,
            decreases self.strings@.len() - i,
        {
            if self.strings[i] == key {
                return Some(StringId(i as u32));
            }
            i = i + 1;
        }
        proof {
            if self@.contains(s@) {
                let j = choose|j: int| 0 <= j < self@.len() && self@[j] == s@;
                assert(self@[j] != s@);
            }
        }
        None
    }

    /// Intern `s`, returning its handle. An already-interned name keeps
    /// its handle; a new one is appended.
    pub fn intern_str(&mut self, s: &str) -> (r: StringId)
        requires
            old(self).wf(),
            old(self)@.len() + 1 < u32::MAX,
        ensures
            final(self).wf(),
            final(self).contains_id(r),
            final(self).spec_str(r) == s@,
            old(self)@.contains(s@) ==> final(self)@ == old(self)@,
            !old(self)@.contains(s@) ==> final(self)@ == old(self)@.push(s@),
    {
        match self.find_str(s) {
            Some(id) => id,
            None => {
                let n = self.strings.len();
                let ghost before = self@;
                self.strings.push(String::from_str(s));
                assert(self@ =~= before.push(s@));
                StringId(n as u32)
            },
        }
    }

    /// The text interned under `id`.
    pub fn str(&self, id: StringId) -> (r: &str)
        requires
            self.contains_id(id),
        ensures
            r@ == self.spec_str(id),
    {
        self.strings[id.0 as usize].as_str()
    }

    /// Number of interned names.
    pub fn len(&self) -> (r: usize)
        ensures
            r == self@.len(),
    {
        self.strings.len()
    }

    pub fn void(&self) -> (t: TypeId)
        ensures
            spec_kind(t) == TypeKind::Void,
            t == TypeId(0),
    {
        TypeId(0)
    }

    pub fn never(&self) -> (t: TypeId)
        ensures
            spec_kind(t) == TypeKind::Never,
            t == TypeId(1),
    {
        TypeId(1)
    }

    pub fn int_(&self) -> (t: TypeId)
        ensures
            spec_kind(t) == TypeKind::Int,
            t == TypeId(2),
    {
        TypeId(2)
    }

    pub fn float(&self) -> (t: TypeId)
        ensures
            spec_kind(t) == TypeKind::Float,
            t == TypeId(3),
    {
        TypeId(3)
    }

    pub fn bool_(&self) -> (t: TypeId)
        ensures
            spec_kind(t) == TypeKind::Bool,
            t == TypeId(4),
    {
        TypeId(4)
    }

    pub fn str_(&self) -> (t: TypeId)
        ensures
            spec_kind(t) == TypeKind::Str,
            t == TypeId(5),
    {
        TypeId(5)
    }

    pub fn str_view(&self) -> (t: TypeId)
        ensures
            spec_kind(t) == TypeKind::StrView,
            t == TypeId(6),
    {
        TypeId(6)
    }

    pub fn bytes(&self) -> (t: TypeId)
        ensures
            spec_kind(t) == TypeKind::Bytes,
            t == TypeId(7),
    {
        TypeId(7)
    }

    pub fn error_type(&self) -> (t: TypeId)
        ensures
            spec_kind(t) == TypeKind::Error,
            t == TypeId(8),
    {
        TypeId(8)
    }

    /// The kind of `ty`.
    pub fn kind(&self, ty: TypeId) -> (k: TypeKind)
        ensures
            k == spec_kind(ty),
    {
        if ty.0 == 0 {
            TypeKind::Void
        } else if ty.0 == 1 {
            TypeKind::Never
        } else if ty.0 == 2 {
            TypeKind::Int
        } else if ty.0 == 3 {
            TypeKind::Float
        } else if ty.0 == 4 {
            TypeKind::Bool
        } else if ty.0 == 5 {
            TypeKind::Str
        } else if ty.0 == 6 {
            TypeKind::StrView
        } else if ty.0 == 7 {
            TypeKind::Bytes
        } else {
            TypeKind::Error
        }
    }

    /// Values of a copy type are duplicated on `=`; heap-owned `str` and
    /// `bytes` values are moved.
    pub fn is_copy(&self, ty: TypeId) -> (r: bool)
        ensures
            r == !(spec_kind(ty) == TypeKind::Str || spec_kind(ty) == TypeKind::Bytes),
    {
        let k = self.kind(ty);
        !(k == TypeKind::Str || k == TypeKind::Bytes)
    }
}


/// A name has one handle: two handles of a well-formed pool that denote
/// the same text are the same handle, so interning a name again gives
/// back the handle it got the first time.
pub proof fn lemma_one_handle_per_name(pool: InternPool, a: StringId, b: StringId)
    requires
        pool.wf(),
        pool.contains_id(a),
        pool.contains_id(b),
        pool.spec_str(a) == pool.spec_str(b),
    ensures
        a == b,
{
    if a.0 != b.0 {
        assert(pool@[a.0 as int] != pool@[b.0 as int]);
    }
}

} // verus!
