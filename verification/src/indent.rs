//! Indentation pre-processor.
//!
//! Runs over the lexer's raw tokens. A `Newline` token carries its text:
//! the line break (`\n`, or `\r\n` for CRLF sources) followed by the next
//! line's leading whitespace. The pass validates that indentation is made
//! of tabs only and inserts `Indent` / `Dedent` markers at level
//! transitions; every input token is preserved.
use vstd::prelude::*;
use crate::types::Span;
use crate::text::{decimal, decimal_string};

verus! {

/// A raw lexer token as far as the indentation pass is concerned.
#[derive(Debug)]
pub enum RawToken {
    /// Line break plus the following line's leading whitespace.
    Newline(String),
    /// One indentation level opened.
    Indent,
    /// One indentation level closed.
    Dedent,
    /// Any other lexeme, with its text.
    Other(String),
}

pub type Spanned = (RawToken, Span);

/// Failure of the indentation pre-processor: the span of the offending
/// `Newline` token and the message.
#[derive(Debug)]
pub struct IndentError {
    pub span: Span,
    pub message: String,
}

impl RawToken {
    /// A copy of this token.
    pub fn copy(&self) -> (r: RawToken)
        ensures
            r == *self,
    {
        match self {
            RawToken::Newline(s) => RawToken::Newline(s.clone()),
            RawToken::Indent => RawToken::Indent,
            RawToken::Dedent => RawToken::Dedent,
            RawToken::Other(s) => RawToken::Other(s.clone()),
        }
    }

    pub fn is_newline(&self) -> (r: bool)
        ensures
            r == (*self is Newline),
    {
        match self {
            RawToken::Newline(_) => true,
            _ => false,
        }
    }
}

pub open spec fn spaces_msg() -> Seq<char> {
    "Indentation error: spaces are not allowed for indentation, use tabs"@
}

pub open spec fn unexpected_msg(c: char) -> Seq<char> {
    "Indentation error: unexpected character '"@ + seq![c] + "' in indentation"@
}

pub open spec fn dedent_msg(level: nat) -> Seq<char> {
    "Indentation error: dedent to level "@ + decimal(level)
        + " does not match any outer indentation level"@
}

/// Validation of the indentation characters from position `i` on: the
/// first space, or the first character that is neither space nor tab,
/// is an error.
pub open spec fn validate_from(ws: Seq<char>, i: int) -> Result<(), Seq<char>>
    decreases ws.len() - i,
{
    if i < 0 || i >= ws.len() {
        Ok(())
    } else if ws[i] == ' ' {
        Err(spaces_msg())
    } else if ws[i] != '\t' {
        Err(unexpected_msg(ws[i]))
    } else {
        validate_from(ws, i + 1)
    }
}

pub open spec fn spec_validate(ws: Seq<char>) -> Result<(), Seq<char>> {
    validate_from(ws, 0)
}

/// The text of a `Newline` token as the lexer produces it: `\n` or
/// `\r\n`, then the indentation.
pub open spec fn newline_text_wf(s: Seq<char>) -> bool {
    ||| s.len() >= 1 && s[0] == '\n'
    ||| s.len() >= 2 && s[0] == '\r' && s[1] == '\n'
}

pub open spec fn tokens_wf(tokens: Seq<Spanned>) -> bool {
    forall|i: int|
        0 <= i < tokens.len() ==> ((#[trigger] tokens[i]).0 matches RawToken::Newline(s)
            ==> newline_text_wf(s@))
}

/// The indentation that follows the line break of a `Newline` text.
pub open spec fn whitespace_of(s: Seq<char>) -> Seq<char> {
    if s.len() > 0 && s[0] == '\r' {
        s.skip(2)
    } else {
        s.skip(1)
    }
}

/// The stack with every level above `level` popped.
pub open spec fn pop_above(stack: Seq<usize>, level: int) -> Seq<usize>
    decreases stack.len(),
{
    if stack.len() > 0 && stack.last() > level {
        pop_above(stack.drop_last(), level)
    } else {
        stack
    }
}

/// `k` `Dedent` markers at `span`.
pub open spec fn dedents(k: nat, span: Span) -> Seq<Spanned> {
    Seq::new(k, |i: int| (RawToken::Dedent, span))
}

/// Indentation state: the stack of open levels and the output so far.
pub type IndentState = (Seq<usize>, Seq<Spanned>);

/// One step of the pre-processor on token `i`.
pub open spec fn spec_step(tokens: Seq<Spanned>, i: int, st: IndentState) -> Result<
    IndentState,
    (Span, Seq<char>),
> {
    let (tok, span) = tokens[i];
    let (stack, out) = st;
    match tok {
        RawToken::Newline(s) => {
            if i + 1 < tokens.len() && !(tokens[i + 1].0 is Newline) {
                let ws = whitespace_of(s@);
                match spec_validate(ws) {
                    Err(m) => Err((span, m)),
                    Ok(_) => {
                        let level = ws.len() as int;
                        let cur = stack.last() as int;
                        if level > cur {
                            Ok(
                                (
                                    stack.push(level as usize),
                                    out.push((RawToken::Indent, span)).push(tokens[i]),
                                ),
                            )
                        } else if level < cur {
                            let popped = pop_above(stack, level);
                            let out2 = out + dedents((stack.len() - popped.len()) as nat, span);
                            if popped.last() != level {
                                Err((span, dedent_msg(level as nat)))
                            } else {
                                Ok((popped, out2.push(tokens[i])))
                            }
                        } else {
                            Ok((stack, out.push(tokens[i])))
                        }
                    },
                }
            } else {
                Ok((stack, out.push(tokens[i])))
            }
        },
        _ => Ok((stack, out.push(tokens[i]))),
    }
}

/// The state after the first `n` tokens, or the first error.
pub open spec fn spec_run(tokens: Seq<Spanned>, n: nat) -> Result<IndentState, (Span, Seq<char>)>
    decreases n,
{
    if n == 0 {
        Ok((seq![0usize], Seq::empty()))
    } else {
        match spec_run(tokens, (n - 1) as nat) {
            Err(e) => Err(e),
            Ok(st) => spec_step(tokens, n - 1, st),
        }
    }
}

/// Span used for the markers emitted at end of input: the last token's
/// span, or `0..0` for empty input.
pub open spec fn eof_span(tokens: Seq<Spanned>) -> Span {
    if tokens.len() > 0 {
        tokens.last().1
    } else {
        Span { start: 0, end: 0 }
    }
}

/// The pre-processor: every token in order, with `Indent` / `Dedent`
/// markers at level transitions and one `Dedent` per level still open at
/// end of input.
pub open spec fn spec_process(tokens: Seq<Spanned>) -> Result<Seq<Spanned>, (Span, Seq<char>)> {
    match spec_run(tokens, tokens.len()) {
        Err(e) => Err(e),
        Ok((stack, out)) => Ok(out + dedents((stack.len() - 1) as nat, eof_span(tokens))),
    }
}

/// Check that `whitespace` is made of tabs only.
pub fn validate_indentation(whitespace: &str) -> (r: Result<(), String>)
    ensures
        match r {
            Ok(_) => spec_validate(whitespace@) == Ok::<(), Seq<char>>(()),
            Err(m) => spec_validate(whitespace@) == Err::<(), Seq<char>>(m@),
        },
{
    let n = whitespace.unicode_len();
    let mut i: usize = 0;
    while i < n
        invariant
            n == whitespace@.len(),
            i <= n,
            spec_validate(whitespace@) == validate_from(whitespace@, i as int),
        decreases n - i,
    {
        let ch = whitespace.get_char(i);
        if ch == ' ' {
            return Err(
                String::from_str("Indentation error: spaces are not allowed for indentation, use tabs"),
            );
        }
        if ch != '\t' {
            let mut m = String::from_str("Indentation error: unexpected character '");
            let c = whitespace.substring_char(i, i + 1);
            assert(c@ =~= seq![ch]);
            m.append(c);
            m.append("' in indentation");
            return Err(m);
        }
        i = i + 1;
    }
    Ok(())
}

pub open spec fn is_marker(t: RawToken) -> bool {
    t is Indent || t is Dedent
}

/// The tokens of `s` that are not `Indent` / `Dedent` markers, in order.
pub open spec fn strip_markers(s: Seq<Spanned>) -> Seq<Spanned>
    decreases s.len(),
{
    if s.len() == 0 {
        Seq::empty()
    } else if is_marker(s.last().0) {
        strip_markers(s.drop_last())
    } else {
        strip_markers(s.drop_last()).push(s.last())
    }
}

/// Number of `Indent` markers in `s`.
pub open spec fn count_indents(s: Seq<Spanned>) -> nat
    decreases s.len(),
{
    if s.len() == 0 {
        0
    } else if s.last().0 is Indent {
        count_indents(s.drop_last()) + 1
    } else {
        count_indents(s.drop_last())
    }
}

/// Number of `Dedent` markers in `s`.
pub open spec fn count_dedents(s: Seq<Spanned>) -> nat
    decreases s.len(),
{
    if s.len() == 0 {
        0
    } else if s.last().0 is Dedent {
        count_dedents(s.drop_last()) + 1
    } else {
        count_dedents(s.drop_last())
    }
}

pub open spec fn no_markers(tokens: Seq<Spanned>) -> bool {
    forall|i: int| 0 <= i < tokens.len() ==> !is_marker(#[trigger] tokens[i].0)
}

proof fn lemma_push_counts(a: Seq<Spanned>, x: Spanned)
    ensures
        strip_markers(a.push(x)) == (if is_marker(x.0) {
            strip_markers(a)
        } else {
            strip_markers(a).push(x)
        }),
        count_indents(a.push(x)) == count_indents(a) + (if x.0 is Indent {
            1nat
        } else {
            0nat
        }),
        count_dedents(a.push(x)) == count_dedents(a) + (if x.0 is Dedent {
            1nat
        } else {
            0nat
        }),
{
    assert(a.push(x).drop_last() =~= a);
}

proof fn lemma_dedents_counts(a: Seq<Spanned>, k: nat, span: Span)
    ensures
        strip_markers(a + dedents(k, span)) == strip_markers(a),
        count_indents(a + dedents(k, span)) == count_indents(a),
        count_dedents(a + dedents(k, span)) == count_dedents(a) + k,
    decreases k,
{
    if k == 0 {
        assert(a + dedents(k, span) =~= a);
    } else {
        let k1 = (k - 1) as nat;
        lemma_dedents_counts(a, k1, span);
        assert(a + dedents(k, span) =~= (a + dedents(k1, span)).push((RawToken::Dedent, span)));
        lemma_push_counts(a + dedents(k1, span), (RawToken::Dedent, span));
    }
}

proof fn lemma_run_invariant(tokens: Seq<Spanned>, n: nat)
    requires
        n <= tokens.len(),
        no_markers(tokens),
        spec_run(tokens, n) is Ok,
    ensures
        ({
            let (stack, out) = spec_run(tokens, n)->Ok_0;
            &&& stack.len() >= 1
            &&& stack[0] == 0
            &&& strip_markers(out) == tokens.take(n as int)
            &&& count_indents(out) == count_dedents(out) + stack.len() - 1
        }),
    decreases n,
{
    if n == 0 {
        assert(tokens.take(0) =~= Seq::<Spanned>::empty());
    } else {
        let m = (n - 1) as nat;
        lemma_run_invariant(tokens, m);
        let (stack, out) = spec_run(tokens, m)->Ok_0;
        let i = m as int;
        let t = tokens[i];
        assert(!is_marker(t.0));
        assert(tokens.take(n as int) =~= tokens.take(m as int).push(t));
        lemma_push_counts(out, t);
        match t.0 {
            RawToken::Newline(s) => {
                if i + 1 < tokens.len() && !(tokens[i + 1].0 is Newline) {
                    let ws = whitespace_of(s@);
                    if spec_validate(ws) is Ok {
                        let level = ws.len() as int;
                        let cur = stack.last() as int;
                        if level > cur {
                            let o1 = out.push((RawToken::Indent, t.1));
                            lemma_push_counts(out, (RawToken::Indent, t.1));
                            lemma_push_counts(o1, t);
                            assert(stack.push(level as usize)[0] == 0);
                        } else if level < cur {
                            lemma_pop_above_shape(stack, level);
                            let popped = pop_above(stack, level);
                            let k = (stack.len() - popped.len()) as nat;
                            lemma_dedents_counts(out, k, t.1);
                            lemma_push_counts(out + dedents(k, t.1), t);
                            assert(popped[0] == stack.take(popped.len() as int)[0]);
                        }
                    }
                }
            },
            _ => {},
        }
    }
}

/// Every prefix of `s` holds at least as many `Indent` as `Dedent` markers.
pub open spec fn prefix_balanced(s: Seq<Spanned>) -> bool {
    forall|k: int| 0 <= k <= s.len() ==> count_dedents(#[trigger] s.take(k)) <= count_indents(s.take(k))
}

proof fn lemma_prefix_push(a: Seq<Spanned>, x: Spanned)
    requires
        prefix_balanced(a),
        count_dedents(a.push(x)) <= count_indents(a.push(x)),
    ensures
        prefix_balanced(a.push(x)),
{
    let b = a.push(x);
    assert forall|k: int| 0 <= k <= b.len() implies count_dedents(#[trigger] b.take(k)) <= count_indents(b.take(k)) by {
        if k <= a.len() {
            assert(b.take(k) =~= a.take(k));
        } else {
            assert(b.take(k) =~= b);
        }
    }
}

proof fn lemma_prefix_dedents(a: Seq<Spanned>, k: nat, span: Span)
    requires
        prefix_balanced(a),
        count_dedents(a) + k <= count_indents(a),
    ensures
        prefix_balanced(a + dedents(k, span)),
    decreases k,
{
    if k == 0 {
        assert(a + dedents(k, span) =~= a);
    } else {
        let k1 = (k - 1) as nat;
        lemma_prefix_dedents(a, k1, span);
        lemma_dedents_counts(a, k, span);
        assert(a + dedents(k, span) =~= (a + dedents(k1, span)).push((RawToken::Dedent, span)));
        lemma_prefix_push(a + dedents(k1, span), (RawToken::Dedent, span));
    }
}

proof fn lemma_run_prefix(tokens: Seq<Spanned>, n: nat)
    requires
        n <= tokens.len(),
        no_markers(tokens),
        spec_run(tokens, n) is Ok,
    ensures
        prefix_balanced(spec_run(tokens, n)->Ok_0.1),
    decreases n,
{
    if n == 0 {
        let e = Seq::<Spanned>::empty();
        assert forall|k: int| 0 <= k <= e.len() implies count_dedents(#[trigger] e.take(k)) <= count_indents(e.take(k)) by {
            assert(e.take(k) =~= e);
        }
    } else {
        let m = (n - 1) as nat;
        lemma_run_prefix(tokens, m);
        lemma_run_invariant(tokens, m);
        let (stack, out) = spec_run(tokens, m)->Ok_0;
        let i = m as int;
        let t = tokens[i];
        assert(!is_marker(t.0));
        lemma_push_counts(out, t);
        match t.0 {
            RawToken::Newline(s) => {
                if i + 1 < tokens.len() && !(tokens[i + 1].0 is Newline) {
                    let ws = whitespace_of(s@);
                    let level = ws.len() as int;
                    let cur = stack.last() as int;
                    if level > cur {
                        let o1 = out.push((RawToken::Indent, t.1));
                        lemma_push_counts(out, (RawToken::Indent, t.1));
                        lemma_prefix_push(out, (RawToken::Indent, t.1));
                        lemma_push_counts(o1, t);
                        lemma_prefix_push(o1, t);
                    } else if level < cur {
                        lemma_pop_above_shape(stack, level);
                        let popped = pop_above(stack, level);
                        let k = (stack.len() - popped.len()) as nat;
                        lemma_dedents_counts(out, k, t.1);
                        lemma_prefix_dedents(out, k, t.1);
                        lemma_push_counts(out + dedents(k, t.1), t);
                        lemma_prefix_push(out + dedents(k, t.1), t);
                    } else {
                        lemma_prefix_push(out, t);
                    }
                } else {
                    lemma_prefix_push(out, t);
                }
            },
            _ => {
                lemma_prefix_push(out, t);
            },
        }
    }
}

/// Law of the pre-processor: on success it keeps every input token, in
/// order, and only adds markers (removing the `Indent` / `Dedent` markers
/// from its output gives back its input), and every `Indent` it emits is
/// matched by a later `Dedent`: the counts agree, and no prefix of the
/// output closes more levels than it opened.
pub proof fn lemma_process_preserves_tokens(tokens: Seq<Spanned>)
    requires
        no_markers(tokens),
        spec_process(tokens) is Ok,
    ensures
        strip_markers(spec_process(tokens)->Ok_0) == tokens,
        count_indents(spec_process(tokens)->Ok_0) == count_dedents(spec_process(tokens)->Ok_0),
        prefix_balanced(spec_process(tokens)->Ok_0),
{
    lemma_run_invariant(tokens, tokens.len());
    lemma_run_prefix(tokens, tokens.len());
    let (stack, out) = spec_run(tokens, tokens.len())->Ok_0;
    lemma_dedents_counts(out, (stack.len() - 1) as nat, eof_span(tokens));
    lemma_prefix_dedents(out, (stack.len() - 1) as nat, eof_span(tokens));
    assert(tokens.take(tokens.len() as int) =~= tokens);
}

proof fn lemma_pop_above_shape(stack: Seq<usize>, level: int)
    requires
        stack.len() >= 1,
        stack[0] == 0,
        level >= 0,
    ensures
        pop_above(stack, level).len() >= 1,
        pop_above(stack, level).len() <= stack.len(),
        pop_above(stack, level) == stack.take(pop_above(stack, level).len() as int),
        pop_above(stack, level).last() <= level,
    decreases stack.len(),
{
    if stack.len() > 0 && stack.last() > level {
        assert(stack.len() > 1);
        let d = stack.drop_last();
        assert(d[0] == 0);
        lemma_pop_above_shape(d, level);
        let p = pop_above(d, level);
        assert(p == d.take(p.len() as int));
        assert(d.take(p.len() as int) =~= stack.take(p.len() as int));
    } else {
        assert(stack.take(stack.len() as int) =~= stack);
    }
}

proof fn lemma_run_err_sticks(tokens: Seq<Spanned>, m: nat, n: nat)
    requires
        m <= n,
        spec_run(tokens, m) is Err,
    ensures
        spec_run(tokens, n) == spec_run(tokens, m),
    decreases n - m,
{
    if m < n {
        lemma_run_err_sticks(tokens, m, (n - 1) as nat);
    }
}

/// A step appends to the output and never looks at what is already there.
proof fn lemma_step_appends(tokens: Seq<Spanned>, j: int, stack: Seq<usize>, out: Seq<Spanned>)
    requires
        0 <= j < tokens.len(),
    ensures
        spec_step(tokens, j, (stack, out)) == (match spec_step(tokens, j, (stack, Seq::empty())) {
            Ok((s2, suf)) => Ok((s2, out + suf)),
            Err(e) => Err(e),
        }),
{
    let e: Seq<Spanned> = Seq::empty();
    let (tok, span) = tokens[j];
    match tok {
        RawToken::Newline(s) => {
            if j + 1 < tokens.len() && !(tokens[j + 1].0 is Newline) {
                let ws = whitespace_of(s@);
                match spec_validate(ws) {
                    Err(m) => {},
                    Ok(_) => {
                        let level = ws.len() as int;
                        let cur = stack.last() as int;
                        if level > cur {
                            assert(out.push((RawToken::Indent, span)).push(tokens[j]) =~= out + e.push(
                                (RawToken::Indent, span),
                            ).push(tokens[j]));
                        } else if level < cur {
                            let popped = pop_above(stack, level);
                            let ds = dedents((stack.len() - popped.len()) as nat, span);
                            assert((out + ds).push(tokens[j]) =~= out + (e + ds).push(tokens[j]));
                        } else {
                            assert(out.push(tokens[j]) =~= out + e.push(tokens[j]));
                        }
                    },
                }
            } else {
                assert(out.push(tokens[j]) =~= out + e.push(tokens[j]));
            }
        },
        _ => {
            assert(out.push(tokens[j]) =~= out + e.push(tokens[j]));
        },
    }
}

/// A step reads only its own token and whether a non-`Newline` token
/// follows it.
proof fn lemma_step_same_view(t1: Seq<Spanned>, j1: int, t2: Seq<Spanned>, j2: int, st: IndentState)
    requires
        0 <= j1 < t1.len(),
        0 <= j2 < t2.len(),
        t1[j1] == t2[j2],
        (j1 + 1 < t1.len() && !(t1[j1 + 1].0 is Newline)) == (j2 + 1 < t2.len() && !(t2[j2
            + 1].0 is Newline)),
    ensures
        spec_step(t1, j1, st) == spec_step(t2, j2, st),
{
}

/// Two runs that agree up to one token inserted into the output at `k`.
pub open spec fn runs_differ_by(
    r1: Result<IndentState, (Span, Seq<char>)>,
    r2: Result<IndentState, (Span, Seq<char>)>,
    k: int,
    x: Spanned,
) -> bool {
    match (r1, r2) {
        (Err(e1), Err(e2)) => e1 == e2,
        (Ok(s1), Ok(s2)) => s1.0 == s2.0 && 0 <= k <= s2.1.len() && s1.1 == s2.1.insert(k, x),
        _ => false,
    }
}

proof fn lemma_insert_then_append(o: Seq<Spanned>, k: int, x: Spanned, a: Seq<Spanned>)
    requires
        0 <= k <= o.len(),
    ensures
        o.insert(k, x) + a == (o + a).insert(k, x),
{
    assert(o.insert(k, x) + a =~= (o + a).insert(k, x));
}

/// Before the blank line's first `Newline`, the two inputs run alike.
proof fn lemma_run_before_blank(tokens: Seq<Spanned>, i: int, n: nat)
    requires
        0 <= i,
        i + 1 < tokens.len(),
        tokens[i].0 is Newline,
        tokens[i + 1].0 is Newline,
        n <= i,
    ensures
        spec_run(tokens, n) == spec_run(tokens.remove(i), n),
    decreases n,
{
    let t2 = tokens.remove(i);
    if n > 0 {
        lemma_run_before_blank(tokens, i, (n - 1) as nat);
        let j = n - 1;
        match spec_run(tokens, (n - 1) as nat) {
            Err(_) => {},
            Ok(st) => {
                assert(t2[j] == tokens[j]);
                if j + 1 == i {
                    assert(t2[j + 1] == tokens[i + 1]);
                } else {
                    assert(t2[j + 1] == tokens[j + 1]);
                }
                lemma_step_same_view(tokens, j, t2, j, st);
            },
        }
    }
}

/// From the blank line's first `Newline` on, the full input's run is the
/// shortened input's run with that `Newline` inserted into the output.
proof fn lemma_run_after_blank(tokens: Seq<Spanned>, i: int, n: nat, k: int)
    requires
        0 <= i,
        i + 1 < tokens.len(),
        tokens[i].0 is Newline,
        tokens[i + 1].0 is Newline,
        i <= n < tokens.len(),
        k == (match spec_run(tokens, i as nat) {
            Ok(st) => st.1.len() as int,
            Err(_) => 0,
        }),
    ensures
        runs_differ_by(spec_run(tokens, n + 1), spec_run(tokens.remove(i), n), k, tokens[i]),
    decreases n,
{
    let t2 = tokens.remove(i);
    let x = tokens[i];
    if n == i {
        lemma_run_before_blank(tokens, i, n);
        match spec_run(tokens, n) {
            Err(_) => {},
            Ok(st) => {
                assert(st.1.push(x) =~= st.1.insert(k, x));
            },
        }
    } else {
        lemma_run_after_blank(tokens, i, (n - 1) as nat, k);
        let r1 = spec_run(tokens, n);
        let r2 = spec_run(t2, (n - 1) as nat);
        match (r1, r2) {
            (Ok(s1), Ok(s2)) => {
                assert(t2[n - 1] == tokens[n as int]);
                if n + 1 < tokens.len() {
                    assert(t2[n as int] == tokens[n as int + 1]);
                }
                lemma_step_appends(tokens, n as int, s1.0, s1.1);
                lemma_step_appends(t2, n - 1, s2.0, s2.1);
                lemma_step_same_view(tokens, n as int, t2, n - 1, (s1.0, Seq::empty()));
                match spec_step(t2, n - 1, (s2.0, Seq::empty())) {
                    Err(_) => {},
                    Ok((_, suf)) => {
                        lemma_insert_then_append(s2.1, k, x, suf);
                    },
                }
            },
            _ => {},
        }
    }
}

/// A blank line adds no `Indent` or `Dedent` marker: where a `Newline` is
/// directly followed by another `Newline`, the pre-processor fails on the
/// input exactly when it fails, with the same error, on the input without
/// that first `Newline`; and when it succeeds, its output is the output
/// for the shorter input with that one token put back.
pub proof fn lemma_blank_line_adds_no_marker(tokens: Seq<Spanned>, i: int)
    requires
        0 <= i,
        i + 1 < tokens.len(),
        tokens[i].0 is Newline,
        tokens[i + 1].0 is Newline,
    ensures
        ({
            let shorter = spec_process(tokens.remove(i));
            let full = spec_process(tokens);
            &&& full is Err <==> shorter is Err
            &&& full is Err ==> full == shorter
            &&& full is Ok ==> exists|k: int|
                0 <= k <= shorter->Ok_0.len() && full->Ok_0 == shorter->Ok_0.insert(k, tokens[i])
        }),
{
    let t2 = tokens.remove(i);
    let n2 = t2.len();
    let k = match spec_run(tokens, i as nat) {
        Ok(st) => st.1.len() as int,
        Err(_) => 0,
    };
    lemma_run_after_blank(tokens, i, n2, k);
    assert(tokens.len() == n2 + 1);
    assert(eof_span(tokens) == eof_span(t2)) by {
        assert(t2.last() == tokens.last());
    }
    match (spec_run(tokens, tokens.len()), spec_run(t2, n2)) {
        (Ok(s1), Ok(s2)) => {
            let ds = dedents((s1.0.len() - 1) as nat, eof_span(tokens));
            lemma_insert_then_append(s2.1, k, tokens[i], ds);
            assert(spec_process(tokens)->Ok_0 == spec_process(t2)->Ok_0.insert(k, tokens[i]));
        },
        _ => {},
    }
}

/// Run the pre-processor over `tokens`.
pub fn process(tokens: Vec<Spanned>) -> (r: Result<Vec<Spanned>, IndentError>)
    requires
        tokens_wf(tokens@),
    ensures
        match r {
            Ok(v) => spec_process(tokens@) == Ok::<Seq<Spanned>, (Span, Seq<char>)>(v@),
            Err(e) => spec_process(tokens@) == Err::<Seq<Spanned>, (Span, Seq<char>)>(
                (e.span, e.message@),
            ),
        },
{
    let mut result: Vec<Spanned> = Vec::new();
    let mut indent_stack: Vec<usize> = Vec::new();
    indent_stack.push(0);
    let mut i: usize = 0;
    assert(indent_stack@ =~= seq![0usize]);
    assert(result@ =~= Seq::<Spanned>::empty());

    while i < tokens.len()
        invariant
            i <= tokens@.len(),
            tokens_wf(tokens@),
            spec_run(tokens@, i as nat) == Ok::<IndentState, (Span, Seq<char>)>(
                (indent_stack@, result@),
            ),
            indent_stack@.len() >= 1,
            indent_stack@[0] == 0,
        decreases tokens@.len() - i,
    {
        let span = tokens[i].1;
        let ghost st: IndentState = (indent_stack@, result@);
        assert(spec_run(tokens@, (i + 1) as nat) == spec_step(tokens@, i as int, st));
        match &tokens[i].0 {
            RawToken::Newline(s) => {
                if i + 1 < tokens.len() && !tokens[i + 1].0.is_newline() {
                    assert(newline_text_wf(s@)) by {
                        assert(tokens@[i as int].0 == RawToken::Newline(*s));
                    }
                    let len = s.unicode_len();
                    let k: usize = if s.get_char(0) == '\r' {
                        2
                    } else {
                        1
                    };
                    let whitespace = s.substring_char(k, len);
                    assert(whitespace@ =~= whitespace_of(s@));
                    match validate_indentation(whitespace) {
                        Err(message) => {
                            proof {
                                lemma_run_err_sticks(tokens@, (i + 1) as nat, tokens@.len());
                            }
                            return Err(IndentError { span, message });
                        },
                        Ok(_) => {},
                    }
                    let new_level = whitespace.unicode_len();
                    let current_level = indent_stack[indent_stack.len() - 1];
                    if new_level > current_level {
                        indent_stack.push(new_level);
                        result.push((RawToken::Indent, span));
                    } else if new_level < current_level {
                        let ghost entry_stack = indent_stack@;
                        let ghost entry_out = result@;
                        proof {
                            lemma_pop_above_shape(entry_stack, new_level as int);
                        }
                        while indent_stack[indent_stack.len() - 1] > new_level
                            invariant
                                indent_stack@.len() >= 1,
                                indent_stack@[0] == 0,
                                indent_stack@.len() <= entry_stack.len(),
                                indent_stack@ == entry_stack.take(indent_stack@.len() as int),
                                pop_above(entry_stack, new_level as int) == pop_above(
                                    indent_stack@,
                                    new_level as int,
                                ),
                                result@ == entry_out + dedents(
                                    (entry_stack.len() - indent_stack@.len()) as nat,
                                    span,
                                ),
                            decreases indent_stack@.len(),
                        {
                            let ghost before = indent_stack@;
                            indent_stack.pop();
                            assert(indent_stack@ =~= before.drop_last());
                            assert(indent_stack@ =~= entry_stack.take(indent_stack@.len() as int));
                            let ghost rbefore = result@;
                            result.push((RawToken::Dedent, span));
                            assert(result@ =~= entry_out + dedents(
                                (entry_stack.len() - indent_stack@.len()) as nat,
                                span,
                            ));
                        }
                        assert(pop_above(indent_stack@, new_level as int) == indent_stack@);
                        if indent_stack[indent_stack.len() - 1] != new_level {
                            let mut message = String::from_str(
                                "Indentation error: dedent to level ",
                            );
                            let num = decimal_string(new_level);
                            message.append(num.as_str());
                            message.append(" does not match any outer indentation level");
                            proof {
                                lemma_run_err_sticks(tokens@, (i + 1) as nat, tokens@.len());
                            }
                            return Err(IndentError { span, message });
                        }
                    }
                    result.push((RawToken::Newline(s.clone()), span));
                } else {
                    result.push((RawToken::Newline(s.clone()), span));
                }
            },
            tok => {
                result.push((tok.copy(), span));
            },
        }
        i = i + 1;
    }

    let eof_span = if tokens.len() > 0 {
        tokens[tokens.len() - 1].1
    } else {
        Span::new(0, 0)
    };
    let ghost out_at_end = result@;
    let ghost stack_len = indent_stack@.len();
    while indent_stack.len() > 1
        invariant
            indent_stack@.len() >= 1,
            indent_stack@.len() <= stack_len,
            result@ == out_at_end + dedents((stack_len - indent_stack@.len()) as nat, eof_span),
        decreases indent_stack@.len(),
    {
        indent_stack.pop();
        result.push((RawToken::Dedent, eof_span));
        assert(result@ =~= out_at_end + dedents(
            (stack_len - indent_stack@.len()) as nat,
            eof_span,
        ));
    }
    assert(tokens@.len() == i);
    Ok(result)
}

} // verus!
