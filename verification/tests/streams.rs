use diaparser::parser::statements::{attribute, func_call, ident, statements, top_level_statement};
use diaparser::parser::{recover_err, skip_unexpected, spans_fit, token_parse};
use diaparser::recovery_err::{
    expression_recovery, non_opt, recover_from_error, resynchronize, Failed, ParseState,
    RecoveredError, ToRange, TokError, TokResult,
};
use diaparser::token::{FromStrSpan, Keyword, TokSpan, Token, Tokens};
use diaparser::Annotation;
use diaparser::{ParserError, TopLevelStatement};

fn tok(token: Token, start: usize, end: usize) -> TokSpan {
    TokSpan::from_strspan(token, start..end)
}

fn word(text: &str, start: usize, end: usize) -> TokSpan {
    tok(Token::Ident(text.to_string()), start, end)
}

fn sep(c: char, at: usize) -> TokSpan {
    tok(Token::Separator(c), at, at + 1)
}

fn sample() -> Vec<TokSpan> {
    vec![word("a", 2, 3), sep(':', 3), word("b", 5, 6), sep(';', 6), word("c", 8, 9)]
}

#[test]
fn new_stream_stands_at_offset_zero() {
    let tokens = sample();
    let stream = Tokens::new(&tokens);
    assert_eq!(stream.offset, 0);
    assert_eq!(stream.input_len(), 5);
    assert_eq!(stream.span(), 0..9);
}

#[test]
fn compare_looks_at_the_front_token_only() {
    let tokens = sample();
    let stream = Tokens::new(&tokens);
    assert!(stream.compare(&Token::Ident("a".to_string())));
    assert!(stream.compare_no_case(&Token::Ident("a".to_string())));
    assert!(!stream.compare(&Token::Ident("A".to_string())));
    assert!(!stream.compare(&Token::Separator(':')));
    let empty: Vec<TokSpan> = vec![];
    assert!(!Tokens::new(&empty).compare(&Token::Ident("a".to_string())));
}

#[test]
fn take_split_keeps_offsets() {
    let tokens = sample();
    let stream = Tokens::new(&tokens);
    let (rest, taken) = stream.take_split(2);
    assert_eq!(taken.tokens, &tokens[..2]);
    assert_eq!(taken.offset, 0);
    assert_eq!(taken.span(), 0..4);
    assert_eq!(rest.tokens, &tokens[2..]);
    assert_eq!(rest.offset, 5);
    assert_eq!(rest.span(), 5..9);
    let (end, all) = stream.take_split(5);
    assert_eq!(all.tokens, &tokens[..]);
    assert_eq!(end.input_len(), 0);
    assert_eq!(end.offset, 9);
    assert_eq!(end.span(), 9..10);
    let (same, none) = rest.take_split(0);
    assert_eq!(same.offset, 5);
    assert_eq!(none.input_len(), 0);
    assert_eq!(none.offset, 5);
    assert_eq!(none.span(), 5..6);
    let (still_end, nothing) = end.take_split(0);
    assert_eq!(still_end.offset, 9);
    assert_eq!(nothing.offset, 9);
}

#[test]
fn take_is_the_prefix_of_take_split() {
    let tokens = sample();
    let stream = Tokens::new(&tokens).take_split(1).0;
    let taken = stream.take(2);
    assert_eq!(taken.tokens, stream.take_split(2).1.tokens);
    assert_eq!(taken.offset, 3);
    assert_eq!(taken.span(), 3..6);
}

#[test]
fn slice_index_counts_what_is_missing() {
    let tokens = sample();
    let stream = Tokens::new(&tokens);
    assert_eq!(stream.slice_index(0), Ok(0));
    assert_eq!(stream.slice_index(5), Ok(5));
    assert_eq!(stream.slice_index(7), Err(2));
}

#[test]
fn consumed_span_covers_tokens_that_start_before_the_next_offset() {
    let tokens = sample();
    let stream = Tokens::new(&tokens);
    assert_eq!(stream.consumed_span(0), 0..0);
    assert_eq!(stream.consumed_span(2), 0..0);
    assert_eq!(stream.consumed_span(3), 0..3);
    assert_eq!(stream.consumed_span(5), 0..4);
    assert_eq!(stream.consumed_span(100), 0..9);
    let rest = stream.take_split(2).0;
    assert_eq!(rest.consumed_span(5), 5..5);
    assert_eq!(rest.consumed_span(8), 5..7);
}

#[test]
fn position_finds_the_first_match() {
    let tokens = sample();
    let stream = Tokens::new(&tokens);
    assert_eq!(stream.position(|t| matches!(t.token, Token::Separator(_))), Some(1));
    assert_eq!(stream.position(|t| t.span.start >= 6), Some(3));
    assert_eq!(stream.position(|t| matches!(t.token, Token::K(_))), None);
    assert_eq!(stream.take_split(5).0.position(|_| true), None);
}

#[test]
fn a_spanned_token_has_its_own_span() {
    let token = word("abc", 4, 7);
    assert_eq!(token.span(), 4..7);
    assert_eq!(token.consumed_span(4), 4..4);
    assert_eq!(token.consumed_span(5), 4..7);
    let tokens = vec![word("abc", 4, 7)];
    let stream = Tokens::new(&tokens).take_split(0).0;
    assert_eq!(stream.span(), token.span());
    assert_eq!(stream.consumed_span(4), token.consumed_span(4));
    assert_eq!(stream.consumed_span(5), token.consumed_span(5));
}

#[test]
fn tokens_as_text() {
    assert_eq!(Token::K(Keyword::Fn).to_string(), "fn");
    assert_eq!(Token::K(Keyword::If).to_string(), "if");
    assert_eq!(Token::K(Keyword::Else).to_string(), "else");
    assert_eq!(Token::K(Keyword::While).to_string(), "while");
    assert_eq!(Token::K(Keyword::For).to_string(), "for");
    assert_eq!(Token::K(Keyword::In).to_string(), "in");
    assert_eq!(Token::K(Keyword::Class).to_string(), "class");
    assert_eq!(Token::Op("=".to_string()).to_string(), "=");
    assert_eq!(Token::Ident("a_1".to_string()).to_string(), "a_1");
    assert_eq!(Token::Separator('{').to_string(), "{");
    assert_eq!(Token::Comment("// x".to_string()).to_string(), "// x");
    assert_eq!(Token::Error.to_string(), "Err");
    assert_eq!(Token::A(Annotation::SequenceEntrypoint).to_string(), "@SequenceEntrypoint");
}

#[test]
fn token_helpers() {
    assert!(Token::Error.not_comment());
    assert!(!Token::Comment(" ".to_string()).not_comment());
    assert_eq!(Token::K(Keyword::Fn).input_len(), 1);
    assert!(Token::K(Keyword::Fn).same(&Token::K(Keyword::Fn)));
    assert!(!Token::K(Keyword::Fn).same(&Token::K(Keyword::If)));
    assert!(!Token::Op("=".to_string()).same(&Token::Ident("=".to_string())));
    let spanned = word("a", 1, 2);
    assert_eq!(spanned.clone(), spanned);
    assert_eq!(spanned.fragment(), &Token::Ident("a".to_string()));
}

#[test]
fn resynchronize_stops_at_the_statement_boundary() {
    let tokens = sample();
    let stream = Tokens::new(&tokens);
    let (rest, span) = resynchronize(stream);
    assert_eq!(span, 0..3);
    assert_eq!(rest.tokens, &tokens[3..]);
    assert_eq!(rest.offset, 6);
    let (rest, span) = resynchronize(rest);
    assert_eq!(span, 6..7);
    assert_eq!(rest.input_len(), 0);
    assert_eq!(rest.offset, 9);
    let (rest, span) = resynchronize(rest);
    assert_eq!(span, 9..10);
    assert_eq!(rest.input_len(), 0);
    assert_eq!(rest.offset, 9);
}

#[test]
fn recovery_uses_the_label_pushed_last() {
    let tokens = sample();
    let stream = Tokens::new(&tokens);
    let (rest, _) = stream.take_split(2);
    let tree = TokError::Stack {
        base: Box::new(TokError::Base { location: stream }),
        contexts: vec![(stream, "inner"), (rest, "outer")],
    };
    let mut state = ParseState::new();
    let result: TokResult<(Result<(), ParserError>, std::ops::Range<usize>)> =
        recover_from_error(tree, &mut state);
    let (resumed, placeholder) = result.unwrap();
    assert_eq!(placeholder, (Err(ParserError), 5..6));
    assert_eq!(resumed.tokens, &tokens[3..]);
    assert_eq!(state.0, vec![RecoveredError(5..6, "outer".to_string())]);
}

#[test]
fn recovery_takes_the_first_branch_that_recovers() {
    let tokens = sample();
    let stream = Tokens::new(&tokens);
    let (rest, _) = stream.take_split(4);
    let tree = TokError::Alt(vec![
        TokError::Base { location: stream },
        TokError::Alt(vec![]),
        TokError::Stack {
            base: Box::new(TokError::Base { location: rest }),
            contexts: vec![(rest, "second")],
        },
        TokError::Stack {
            base: Box::new(TokError::Base { location: stream }),
            contexts: vec![(stream, "third")],
        },
    ]);
    let mut state = ParseState::new();
    let result: TokResult<(Result<(), ParserError>, std::ops::Range<usize>)> =
        recover_from_error(tree, &mut state);
    let (resumed, placeholder) = result.unwrap();
    assert_eq!(placeholder, (Err(ParserError), 8..9));
    assert_eq!(resumed.input_len(), 0);
    assert_eq!(state.0, vec![RecoveredError(8..9, "second".to_string())]);
}

#[test]
fn failure_without_label_does_not_recover() {
    let tokens = sample();
    let stream = Tokens::new(&tokens);
    let tree = TokError::Alt(vec![
        TokError::Base { location: stream },
        TokError::Alt(vec![TokError::Base { location: stream.take_split(1).0 }]),
    ]);
    let mut state = ParseState::new();
    let result: TokResult<(Result<(), ParserError>, std::ops::Range<usize>)> =
        recover_from_error(tree, &mut state);
    match result {
        Err(Failed::Error(TokError::Alt(branches))) => {
            assert_eq!(branches.len(), 2);
            match &branches[0] {
                TokError::Base { location } => assert_eq!(location.offset, 0),
                _ => panic!("a mismatch was expected"),
            }
            assert_eq!(recover_err(&branches[1]).offset, 3);
        },
        _ => panic!("the failure was expected back"),
    }
    assert_eq!(state.0, vec![]);
}

#[test]
fn expression_recovery_lets_success_through() {
    let tokens = sample();
    let stream = Tokens::new(&tokens);
    let mut state = ParseState::new();
    let ok: TokResult<(Result<u8, ParserError>, std::ops::Range<usize>)> = Ok((stream, (Ok(7), 1..2)));
    let out = expression_recovery(ok, &mut state).unwrap();
    assert_eq!(out.1, (Ok(7), 1..2));
    assert_eq!(out.0.offset, 0);
    assert_eq!(state.0, vec![]);
    let failed: TokResult<(Result<u8, ParserError>, std::ops::Range<usize>)> =
        Err(Failed::Failure(TokError::Stack {
            base: Box::new(TokError::Base { location: stream }),
            contexts: vec![(stream, "label")],
        }));
    let out = expression_recovery(failed, &mut state).unwrap();
    assert_eq!(out.1, (Err(ParserError), 0..3));
    assert_eq!(state.0, vec![RecoveredError(0..3, "label".to_string())]);
}

#[test]
fn non_opt_commits_a_failure() {
    let tokens = sample();
    let stream = Tokens::new(&tokens);
    let soft: TokResult<u8> = Err(Failed::Error(TokError::Base { location: stream }));
    assert!(matches!(non_opt(soft), Err(Failed::Failure(TokError::Base { .. }))));
    let hard: TokResult<u8> = Err(Failed::Failure(TokError::Base { location: stream }));
    assert!(matches!(non_opt(hard), Err(Failed::Failure(TokError::Base { .. }))));
    let ok: TokResult<u8> = Ok((stream, 3));
    assert!(matches!(non_opt(ok), Ok((_, 3))));
}

#[test]
fn skip_unexpected_skips_one_token() {
    let tokens = sample();
    let stream = Tokens::new(&tokens).take_split(1).0;
    let tree = TokError::Alt(vec![TokError::Base { location: stream }]);
    let mut state = ParseState::new();
    let (rest, span) = skip_unexpected(&tree, &mut state);
    assert_eq!(span, 3..4);
    assert_eq!(rest.offset, 5);
    assert_eq!(rest.input_len(), 3);
    assert_eq!(state.0, vec![RecoveredError(3..4, "Unexpected token".to_string())]);
    let end = stream.take_split(4).0;
    let (rest, span) = skip_unexpected(&TokError::Base { location: end }, &mut state);
    assert_eq!(span, 9..10);
    assert_eq!(rest.input_len(), 0);
}

#[test]
fn rules_read_from_handmade_tokens() {
    let tokens = sample();
    let stream = Tokens::new(&tokens);
    let (rest, name) = ident(stream).unwrap();
    assert_eq!(name, ("a".to_string(), 0..3));
    assert_eq!(rest.offset, 3);
    assert!(matches!(ident(rest), Err(Failed::Error(TokError::Base { .. }))));
    let (rest, attr) = attribute(stream).unwrap();
    assert_eq!(attr.0.name, ("a".to_string(), 0..3));
    assert_eq!(attr.0.ty, Some(("b".to_string(), 5..6)));
    assert_eq!(attr.1, 0..6);
    assert_eq!(rest.offset, 6);
    assert!(matches!(func_call(stream), Err(Failed::Error(TokError::Base { .. }))));
    match top_level_statement(stream) {
        Err(Failed::Error(TokError::Alt(branches))) => assert_eq!(branches.len(), 2),
        _ => panic!("both alternatives were expected to fail"),
    }
}

#[test]
fn recovery_resumes_behind_the_statement_boundary() {
    let tokens = vec![
        word("x", 0, 1),
        sep(';', 1),
        tok(Token::K(Keyword::Class), 3, 8),
        word("A", 9, 10),
        sep('{', 11),
        sep('}', 12),
    ];
    let mut state = ParseState::new();
    let (tree, span) = token_parse(tokens, &mut state);
    assert_eq!(span, 0..13);
    let list = tree.unwrap();
    assert_eq!(list.len(), 0);
    assert_eq!(
        state.0,
        vec![
            RecoveredError(0..1, "tag class".to_string()),
            RecoveredError(1..2, "tag class".to_string()),
        ]
    );
}

#[test]
fn statements_consume_the_whole_stream() {
    let tokens = vec![
        tok(Token::K(Keyword::Class), 3, 8),
        word("A", 9, 10),
        sep('{', 11),
        sep('}', 12),
        sep('}', 14),
        sep(';', 15),
        tok(Token::K(Keyword::Class), 16, 21),
        word("B", 22, 23),
        sep('{', 24),
        sep('}', 25),
    ];
    let mut state = ParseState::new();
    let (rest, (tree, span)) = statements(Tokens::new(&tokens), &mut state);
    assert_eq!(rest.input_len(), 0);
    assert_eq!(span, 0..26);
    let list = tree.unwrap();
    assert_eq!(list.len(), 1);
    match &list[0] {
        (TopLevelStatement::Class(class), span) => {
            assert_eq!(class.name.0, "A");
            assert_eq!(*span, 0..13);
        },
        _ => panic!("a class was expected"),
    }
    assert_eq!(
        state.0,
        vec![
            RecoveredError(14..15, "tag class".to_string()),
            RecoveredError(15..16, "tag class".to_string()),
        ]
    );
}

#[test]
fn no_tokens_give_the_empty_program() {
    let mut state = ParseState::new();
    state.report_error(RecoveredError(0..0, "earlier".to_string()));
    assert_eq!(token_parse(vec![], &mut state), (Ok(vec![]), 0..1));
    assert_eq!(state.0, vec![RecoveredError(0..0, "earlier".to_string())]);
}

#[test]
fn spans_fit_unless_they_reach_the_last_offset() {
    assert!(spans_fit(&sample()));
    assert!(spans_fit(&[]));
    assert!(!spans_fit(&[word("a", 0, usize::MAX)]));
    assert!(!spans_fit(&[word("a", 0, 1), word("b", usize::MAX, 3)]));
    assert!(spans_fit(&[word("a", usize::MAX - 1, usize::MAX - 1)]));
}
