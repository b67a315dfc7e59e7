//! Diagnostics emitted by the front-end passes.
use vstd::prelude::*;
use crate::types::Span;

verus! {

#[derive(Clone, Copy, PartialEq, Eq, Structural, Debug)]
pub enum Severity {
    Error,
    Warning,
}

#[derive(Clone, Copy, PartialEq, Eq, Structural, Debug)]
pub enum DiagCode {
    /// E0020
    UseAfterMove,
    /// E0021
    MoveOutOfBorrowedParam,
    /// E0022
    ReturnBorrowedValue,
    /// E0031
    MoveWhileBorrowedInCall,
    /// E0032
    MutableAliasingViolation,
    /// W0001
    DeadStore,
    TopLevelWithExplicitMain,
    UnknownType,
    MainSignature,
    NestedFunctionDef,
    ParseError,
}

/// A secondary label: an optional location and its text.
#[derive(Debug)]
pub struct Note {
    pub span: Option<Span>,
    pub message: String,
}

#[derive(Debug)]
pub struct Diag {
    pub severity: Severity,
    pub code: DiagCode,
    pub span: Span,
    pub message: String,
    pub notes: Vec<Note>,
    pub help: Option<String>,
}

/// Abstract diagnostic: severity, code, primary span, message, notes,
/// help text.
pub type DiagView = (
    Severity,
    DiagCode,
    Span,
    Seq<char>,
    Seq<(Option<Span>, Seq<char>)>,
    Option<Seq<char>>,
);

pub open spec fn note_view(n: Note) -> (Option<Span>, Seq<char>) {
    (n.span, n.message@)
}

pub open spec fn opt_string_view(o: Option<String>) -> Option<Seq<char>> {
    match o {
        Some(s) => Some(s@),
        None => None,
    }
}

impl View for Diag {
    type V = DiagView;

    open spec fn view(&self) -> DiagView {
        (
            self.severity,
            self.code,
            self.span,
            self.message@,
            self.notes@.map_values(|n: Note| note_view(n)),
            opt_string_view(self.help),
        )
    }
}

impl Diag {
    pub fn error(span: Span, code: DiagCode, message: String) -> (d: Diag)
        ensures
            d@ == (Severity::Error, code, span, message@, Seq::<(Option<Span>, Seq<char>)>::empty(), None::<Seq<char>>),
    {
        let d = Diag { severity: Severity::Error, code, span, message, notes: Vec::new(), help: None };
        assert(d@.4 =~= Seq::<(Option<Span>, Seq<char>)>::empty());
        d
    }

    pub fn warning(span: Span, code: DiagCode, message: String) -> (d: Diag)
        ensures
            d@ == (Severity::Warning, code, span, message@, Seq::<(Option<Span>, Seq<char>)>::empty(), None::<Seq<char>>),
    {
        let d = Diag { severity: Severity::Warning, code, span, message, notes: Vec::new(), help: None };
        assert(d@.4 =~= Seq::<(Option<Span>, Seq<char>)>::empty());
        d
    }

    pub fn with_note(self, span: Option<Span>, message: &str) -> (d: Diag)
        ensures
            d@ == (self@.0, self@.1, self@.2, self@.3, self@.4.push((span, message@)), self@.5),
    {
        let mut d = self;
        let ghost before = d.notes@;
        d.notes.push(Note { span, message: String::from_str(message) });
        assert(d@.4 =~= self@.4.push((span, message@)));
        d
    }

    pub fn with_help(self, help: &str) -> (d: Diag)
        ensures
            d@ == (self@.0, self@.1, self@.2, self@.3, self@.4, Some(help@)),
    {
        let mut d = self;
        d.help = Some(String::from_str(help));
        d
    }
}

/// Ordered collection of emitted diagnostics.
#[derive(Debug)]
pub struct DiagSink {
    pub diags: Vec<Diag>,
}

pub open spec fn diags_view(v: Seq<Diag>) -> Seq<DiagView> {
    v.map_values(|d: Diag| d@)
}

impl DiagSink {
    pub open spec fn items(&self) -> Seq<DiagView> {
        diags_view(self.diags@)
    }

    pub fn new() -> (s: DiagSink)
        ensures
            s.items() == Seq::<DiagView>::empty(),
    {
        let s = DiagSink { diags: Vec::new() };
        assert(s.items() =~= Seq::<DiagView>::empty());
        s
    }

    pub fn emit(&mut self, d: Diag)
        ensures
            final(self).items() == old(self).items().push(d@),
    {
        self.diags.push(d);
        assert(self.items() =~= old(self).items().push(d@));
    }

    /// No diagnostic emitted yet.
    pub fn is_empty(&self) -> (r: bool)
        ensures
            r == (self.items().len() == 0),
    {
        self.diags.len() == 0
    }

    /// Append every diagnostic of `other`, in order.
    pub fn absorb(&mut self, other: DiagSink)
        ensures
            final(self).items() == old(self).items() + other.items(),
    {
        let mut other = other;
        let ghost o = other.items();
        let mut rest: Vec<Diag> = Vec::new();
        // Reverse once so that popping yields the original order.
        while other.diags.len() > 0
            invariant
                diags_view(rest@) + diags_view(other.diags@).reverse() == o.reverse(),
            decreases other.diags@.len(),
        {
            let ghost before = other.diags@;
            let d = other.diags.pop().unwrap();
            assert(before =~= other.diags@.push(d));
            assert(diags_view(before).reverse() =~= seq![d@] + diags_view(other.diags@).reverse());
            let ghost rb = rest@;
            rest.push(d);
            assert(diags_view(rest@) =~= diags_view(rb).push(d@));
            assert(diags_view(rest@) + diags_view(other.diags@).reverse() =~= diags_view(rb)
                + diags_view(before).reverse());
        }
        assert(diags_view(other.diags@).reverse() =~= Seq::<DiagView>::empty());
        assert(diags_view(rest@) =~= o.reverse());
        let ghost base = self.items();
        while rest.len() > 0
            invariant
                self.items() + diags_view(rest@).reverse() == base + o,
            decreases rest@.len(),
        {
            let ghost before = rest@;
            let d = rest.pop().unwrap();
            assert(before =~= rest@.push(d));
            assert(diags_view(before).reverse() =~= seq![d@] + diags_view(rest@).reverse());
            let ghost sb = self.items();
            self.emit(d);
            assert(self.items() + diags_view(rest@).reverse() =~= sb + diags_view(
                before,
            ).reverse());
        }
        assert(diags_view(rest@).reverse() =~= Seq::<DiagView>::empty());
        assert(o.reverse().reverse() =~= o);
        assert(self.items() =~= base + o);
    }

    pub fn has_errors(&self) -> (r: bool)
        ensures
            r == exists|i: int| 0 <= i < self.items().len() && self.items()[i].0 == Severity::Error,
    {
        let mut i: usize = 0;
        while i < self.diags.len()
            invariant
                i <= self.diags@.len(),
                forall|j: int| 0 <= j < i ==> self.items()[j].0 != Severity::Error,
            decreases self.diags@.len() - i,
        {
            if self.diags[i].severity == Severity::Error {
                assert(self.items()[i as int].0 == Severity::Error);
                return true;
            }
            i = i + 1;
        }
        false
    }

    pub fn into_diags(self) -> (v: Vec<Diag>)
        ensures
            diags_view(v@) == self.items(),
    {
        self.diags
    }
}

} // verus!
