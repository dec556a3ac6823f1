//! The parser: from spanned tokens to the program tree.

use vstd::prelude::*;
use vstd::string::*;
use std::ops::Range;
use crate::parser::statements::{statements, statements_rule};
use crate::recovery_err::{
    lemma_first_location, lemma_recovery_advances, recovery, Diagnostic, FailureView, ParseState,
    RecoveredError, Recovery, ToRange, TokError,
};
use crate::token::{
    lemma_suffix_of_suffix, lemma_suffix_trans, views, Spanned, Stream, TokSpan, TokSpanView,
    Tokens,
};
use crate::{spanned_views, ParserError, TopLevelStatement, TopLevelStatementView};

pub mod statements;

verus! {

/// The message of the diagnostic for a failure that carries no label.
pub open spec fn unexpected_token() -> Seq<char> {
    "Unexpected token"@
}

/// The recovery from a failure that carries no label: the token at its first
/// mismatch is reported and skipped.  At the end of the input nothing is
/// skipped, and the span is that of the empty stream.
pub open spec fn fallback(tree: FailureView) -> Recovery {
    let location = tree.first_location();
    if location.toks.len() == 0 {
        Recovery { rest: location, diagnostic: (location.span(), unexpected_token()) }
    } else {
        Recovery {
            rest: location.suffix(1),
            diagnostic: (location.prefix(1).span(), unexpected_token()),
        }
    }
}

/// The recovery from any failure: by its label where it carries one, else at its
/// first mismatch.
pub open spec fn recovered(tree: FailureView) -> Recovery {
    match recovery(tree) {
        Some(found) => found,
        None => fallback(tree),
    }
}

/// Recovery always advances, with or without a label: from a failure that arose
/// in the stream `whole`, parsing resumes in what is left of `whole`, and, where
/// `whole` holds a token, behind at least one of its tokens.
pub proof fn lemma_recovered_advances(tree: FailureView, whole: Stream)
    requires
        tree.within(whole),
        tree.rooted(),
    ensures
        recovered(tree).rest.is_suffix_of(whole),
        whole.toks.len() > 0 ==> recovered(tree).rest.is_behind(whole),
{
    lemma_recovery_advances(tree, whole);
    if recovery(tree) is None {
        let location = tree.first_location();
        lemma_first_location(tree, whole);
        if location.toks.len() > 0 {
            lemma_suffix_of_suffix(location, 1, 0);
            lemma_suffix_trans(location.suffix(1), location, whole);
        }
    }
}

/// The place of the first mismatch in a failure.
pub fn recover_err<'a>(e: &TokError<'a>) -> (location: Tokens<'a>)
    requires
        e@.rooted(),
    ensures
        location@ == e@.first_location(),
    decreases e,
{
    match e {
        TokError::Base { location } => *location,
        TokError::Stack { base, contexts: _ } => recover_err(base),
        TokError::Alt(v) => {
            assert(e@->Alt_0[0] == v@[0]@);
            recover_err(&v[0])
        },
    }
}

/// Recovers from a failure that carries no label: reports the token at its first
/// mismatch as unexpected, and returns the stream behind that token.
pub fn skip_unexpected<'a>(e: &TokError<'a>, state: &mut ParseState) -> (r: (
    Tokens<'a>,
    Range<usize>,
))
    requires
        e@.rooted(),
        e@.first_location().toks.len() == 0 ==> e@.first_location().offset < usize::MAX,
    ensures
        r.0@ == fallback(e@).rest,
        r.1 == fallback(e@).diagnostic.0,
        final(state)@ == old(state)@.push(fallback(e@).diagnostic),
{
    let location = recover_err(e);
    let (rest, span) = if location.input_len() == 0 {
        (location, location.span())
    } else {
        let (rest, first) = location.take_split(1);
        (rest, first.span())
    };
    state.report_error(RecoveredError(span.start..span.end, String::from_str("Unexpected token")));
    (rest, span)
}

/// What parsing gives: the program tree, the span it covers, and the
/// diagnostics of the parser.
pub struct Parsed {
    pub tree: Result<Seq<(TopLevelStatementView, Range<usize>)>, ParserError>,
    pub span: Range<usize>,
    pub diagnostics: Seq<Diagnostic>,
}

/// The value of a program tree.
pub open spec fn tree_view(tree: Result<Vec<Spanned<TopLevelStatement>>, ParserError>) -> Result<
    Seq<(TopLevelStatementView, Range<usize>)>,
    ParserError,
> {
    match tree {
        Ok(list) => Ok(spanned_views(list@)),
        Err(e) => Err(e),
    }
}

/// What parsing the tokens `toks` gives.
///
/// The tree is always produced: it is the list of the top-level statements that
/// could be read, with one diagnostic for each one that could not.  Without a
/// token the program is empty: the list holds no statement, nothing is
/// reported, and the span is that of the empty stream, the first character.
pub open spec fn parse_rule(toks: Seq<TokSpanView>) -> Parsed {
    let s = Stream { toks, offset: 0 };
    let program = statements_rule(s, Seq::empty(), Seq::empty());
    Parsed {
        tree: Ok(program.statements),
        span: if toks.len() == 0 {
            s.span()
        } else {
            s.consumed_span(program.rest.offset)
        },
        diagnostics: program.diagnostics,
    }
}

/// Whether the spans of `toks` leave room for one more character.
pub open spec fn in_range(toks: Seq<TokSpanView>) -> bool {
    (Stream { toks, offset: 0 }).bounded()
}

/// Whether the spans of `tokens` leave room for one more character, which is
/// what [`token_parse`] asks of its tokens.
pub fn spans_fit(tokens: &[TokSpan]) -> (b: bool)
    ensures
        b == in_range(views(tokens@)),
{
    let mut i: usize = 0;
    while i < tokens.len()
        invariant
            i <= tokens@.len(),
            forall|j: int|
                0 <= j < i ==> (#[trigger] views(tokens@)[j]).span.start < usize::MAX && views(
                    tokens@,
                )[j].span.end < usize::MAX,
        decreases tokens@.len() - i,
    {
        if tokens[i].span.start == usize::MAX || tokens[i].span.end == usize::MAX {
            assert(views(tokens@)[i as int] == tokens@[i as int]@);
            return false;
        }
        assert(views(tokens@)[i as int] == tokens@[i as int]@);
        i += 1;
    }
    true
}

/// Parsing is resilient: whatever the tokens are, the tree is produced.  Without
/// a token it is the empty program, which is no error: no statement, and no
/// diagnostic.
pub proof fn lemma_parse_resilient(toks: Seq<TokSpanView>)
    ensures
        parse_rule(toks).tree is Ok,
        toks.len() == 0 ==> parse_rule(toks).tree == Ok::<
            Seq<(TopLevelStatementView, Range<usize>)>,
            ParserError,
        >(Seq::empty()) && parse_rule(toks).diagnostics == Seq::<Diagnostic>::empty()
            && parse_rule(toks).span == (Range { start: 0usize, end: 1usize }),
{
}

/// Parses a program from a stream of tokens; see [`statements`].
pub fn parser<'a>(input: Tokens<'a>, state: &mut ParseState) -> (r: Spanned<
    Result<Vec<Spanned<TopLevelStatement>>, ParserError>,
>)
    requires
        input@.bounded(),
    ensures
        tree_view(r.0) == Ok::<Seq<(TopLevelStatementView, Range<usize>)>, ParserError>(
            statements_rule(input@, Seq::empty(), Seq::empty()).statements,
        ),
        r.1 == input@.consumed_span(
            statements_rule(input@, Seq::empty(), Seq::empty()).rest.offset,
        ),
        final(state)@ == old(state)@ + statements_rule(
            input@,
            Seq::empty(),
            Seq::empty(),
        ).diagnostics,
{
    let (_, out) = statements(input, state);
    out
}

/// Parses the tokens of a program.
///
/// The tree is always `Ok`: a construct that cannot be read costs one
/// diagnostic, reported to `state`, and is left out.  Without a token the
/// program is empty, and nothing is reported.
pub fn token_parse(tokens: Vec<TokSpan>, state: &mut ParseState) -> (r: Spanned<
    Result<Vec<Spanned<TopLevelStatement>>, ParserError>,
>)
    requires
        in_range(views(tokens@)),
    ensures
        tree_view(r.0) == parse_rule(views(tokens@)).tree,
        r.1 == parse_rule(views(tokens@)).span,
        final(state)@ == old(state)@ + parse_rule(views(tokens@)).diagnostics,
        r.0 is Ok,
        tokens@.len() == 0 ==> r.0->Ok_0@.len() == 0 && final(state)@ == old(state)@,
{
    if tokens.len() == 0 {
        let list: Vec<Spanned<TopLevelStatement>> = Vec::new();
        assert(spanned_views(list@) =~= Seq::empty());
        assert(state@ =~= old(state)@ + Seq::<Diagnostic>::empty());
        (Ok(list), 0..1)
    } else {
        parser(Tokens::new(tokens.as_slice()), state)
    }
}

} // verus!
