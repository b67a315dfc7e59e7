use ryo_frontend::indent::{process, validate_indentation, RawToken, Spanned};
use ryo_frontend::types::Span;

/// Split `input` the way the lexer does for this pass: a line break
/// (`\n` or `\r\n`) together with the following run of spaces and tabs is
/// one `Newline` token; other blanks separate lexemes; every other run of
/// characters is one `Other` token.
fn lex_raw(input: &str) -> Vec<Spanned> {
    let bytes = input.as_bytes();
    let mut out = Vec::new();
    let mut i = 0;
    while i < bytes.len() {
        let c = bytes[i];
        if c == b'\n' || (c == b'\r' && i + 1 < bytes.len() && bytes[i + 1] == b'\n') {
            let start = i;
            i += if c == b'\r' { 2 } else { 1 };
            while i < bytes.len() && (bytes[i] == b' ' || bytes[i] == b'\t') {
                i += 1;
            }
            out.push((RawToken::Newline(input[start..i].to_string()), Span::new(start, i)));
        } else if c == b' ' || c == b'\t' || c == b'\r' {
            i += 1;
        } else {
            let start = i;
            while i < bytes.len() && !matches!(bytes[i], b' ' | b'\t' | b'\r' | b'\n') {
                i += 1;
            }
            out.push((RawToken::Other(input[start..i].to_string()), Span::new(start, i)));
        }
    }
    out
}

fn has_token(tokens: &[Spanned], predicate: impl Fn(&RawToken) -> bool) -> bool {
    tokens.iter().any(|(tok, _)| predicate(tok))
}

fn count_token(tokens: &[Spanned], predicate: impl Fn(&RawToken) -> bool) -> usize {
    tokens.iter().filter(|(tok, _)| predicate(tok)).count()
}

#[test]
fn flat_program_is_noop() {
    let raw = lex_raw("x = 42");
    let processed = process(raw).unwrap();
    assert!(!has_token(&processed, |t| matches!(t, RawToken::Indent)));
    assert!(!has_token(&processed, |t| matches!(t, RawToken::Dedent)));
    assert!(!has_token(&processed, |t| matches!(t, RawToken::Newline(_))));
}

#[test]
fn flat_multiline_no_indent() {
    let raw = lex_raw("x = 1\ny = 2");
    let processed = process(raw).unwrap();
    assert!(!has_token(&processed, |t| matches!(t, RawToken::Indent)));
    assert!(!has_token(&processed, |t| matches!(t, RawToken::Dedent)));
}

#[test]
fn single_indent_dedent() {
    let raw = lex_raw("fn foo():\n\treturn 1");
    let processed = process(raw).unwrap();
    assert_eq!(count_token(&processed, |t| matches!(t, RawToken::Indent)), 1);
    assert_eq!(count_token(&processed, |t| matches!(t, RawToken::Dedent)), 1);
}

#[test]
fn two_functions() {
    let input = "fn foo():\n\treturn 1\n\nfn bar():\n\treturn 2";
    let raw = lex_raw(input);
    let processed = process(raw).unwrap();
    assert_eq!(count_token(&processed, |t| matches!(t, RawToken::Indent)), 2);
    assert_eq!(count_token(&processed, |t| matches!(t, RawToken::Dedent)), 2);
}

#[test]
fn blank_lines_ignored() {
    let input = "fn foo():\n\n\n\treturn 1";
    let raw = lex_raw(input);
    let processed = process(raw).unwrap();
    assert_eq!(count_token(&processed, |t| matches!(t, RawToken::Indent)), 1);
}

#[test]
fn spaces_rejected() {
    let raw = lex_raw("fn foo():\n    return 1");
    let result = process(raw);
    assert!(result.is_err());
    assert!(result.unwrap_err().message.contains("spaces"));
}

#[test]
fn error_span_points_at_offending_newline() {
    let raw = lex_raw("fn foo():\n    return 1");
    let newline_span = raw
        .iter()
        .find(|(t, _)| matches!(t, RawToken::Newline(_)))
        .map(|(_, s)| *s)
        .expect("input has a newline token");
    let err = process(raw).unwrap_err();
    assert_eq!(err.span, newline_span);
}

#[test]
fn multi_level_indent() {
    let input = "fn foo():\n\tx = 1\n\t\ty = 2\n\tz = 3";
    let raw = lex_raw(input);
    let processed = process(raw).unwrap();
    assert_eq!(count_token(&processed, |t| matches!(t, RawToken::Indent)), 2);
    assert_eq!(count_token(&processed, |t| matches!(t, RawToken::Dedent)), 2);
}

#[test]
fn eof_emits_remaining_dedents() {
    let input = "fn foo():\n\tx = 1\n\t\ty = 2";
    let raw = lex_raw(input);
    let processed = process(raw).unwrap();
    assert_eq!(count_token(&processed, |t| matches!(t, RawToken::Dedent)), 2);
}

#[test]
fn newline_tokens_preserved() {
    let input = "fn foo():\n\treturn 1\n\nfn bar():\n\treturn 2";
    let raw = lex_raw(input);
    let processed = process(raw).unwrap();
    assert!(has_token(&processed, |t| matches!(t, RawToken::Newline(_))));
}

#[test]
fn crlf_indentation() {
    let input = "fn foo():\r\n\tx = 1\r\n\t\ty = 2\r\n\tz = 3\r\n";
    let raw = lex_raw(input);
    let processed = process(raw).unwrap();
    assert_eq!(count_token(&processed, |t| matches!(t, RawToken::Indent)), 2);
    assert_eq!(count_token(&processed, |t| matches!(t, RawToken::Dedent)), 2);
}

#[test]
fn validate_accepts_tabs_only() {
    assert!(validate_indentation("").is_ok());
    assert!(validate_indentation("\t\t").is_ok());
}

#[test]
fn validate_rejects_spaces_with_message() {
    assert_eq!(
        validate_indentation("\t ").unwrap_err(),
        "Indentation error: spaces are not allowed for indentation, use tabs"
    );
}

#[test]
fn validate_rejects_other_whitespace_with_message() {
    assert_eq!(
        validate_indentation("\u{b}").unwrap_err(),
        "Indentation error: unexpected character '\u{b}' in indentation"
    );
}

#[test]
fn dedent_to_unknown_level_rejected() {
    let raw = lex_raw("a\n\t\tb\n\tc");
    let second_newline = raw.iter().filter(|(t, _)| matches!(t, RawToken::Newline(_))).nth(1).map(|(_, s)| *s).unwrap();
    let err = process(raw).unwrap_err();
    assert_eq!(err.message, "Indentation error: dedent to level 1 does not match any outer indentation level");
    assert_eq!(err.span, second_newline);
}

#[test]
fn markers_are_the_only_additions() {
    let raw = lex_raw("fn foo():\n\tif x:\n\t\ty = 2\n\tz = 3\n");
    let expected: Vec<String> = raw.iter().map(|(t, _)| format!("{:?}", t)).collect();
    let processed = process(raw).unwrap();
    let kept: Vec<String> = processed
        .iter()
        .filter(|(t, _)| !matches!(t, RawToken::Indent | RawToken::Dedent))
        .map(|(t, _)| format!("{:?}", t))
        .collect();
    assert_eq!(kept, expected);
    assert_eq!(
        count_token(&processed, |t| matches!(t, RawToken::Indent)),
        count_token(&processed, |t| matches!(t, RawToken::Dedent))
    );
}

#[test]
fn eof_dedents_carry_last_token_span() {
    let raw = lex_raw("a:\n\tb");
    let last = raw.last().map(|(_, s)| *s).unwrap();
    let processed = process(raw).unwrap();
    let (tok, span) = processed.last().unwrap();
    assert!(matches!(tok, RawToken::Dedent));
    assert_eq!(*span, last);
}

#[test]
fn empty_input_is_empty_output() {
    assert!(process(Vec::new()).unwrap().is_empty());
}
