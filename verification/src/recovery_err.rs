//! The diagnostics sink, failure trees, and recovery from a failed rule.

use vstd::prelude::*;
use vstd::string::*;
use std::ops::Range;
use crate::token::{Spanned, Stream, TokSpan, TokSpanView, Token, TokenView, Tokens};
use crate::ParserError;

verus! {

/// The mathematical value of a diagnostic: a span and a message.
pub type Diagnostic = (Range<usize>, Seq<char>);

/// A recovered error: the span it was found at and the message to display.
#[derive(Debug, PartialEq)]
pub struct RecoveredError(pub Range<usize>, pub String);

impl View for RecoveredError {
    type V = Diagnostic;

    open spec fn view(&self) -> Diagnostic {
        (self.0, self.1@)
    }
}

/// What has a span in the source text.
pub trait ToRange {
    /// Whether the value has a span that fits the machine's offsets.
    spec fn has_span(&self) -> bool;

    /// The span of the value.
    spec fn span_of(&self) -> Range<usize>;

    /// The span of the part of the value that lies before `next_start`.
    spec fn consumed_span_of(&self, next_start: usize) -> Range<usize>;

    fn span(&self) -> (r: Range<usize>)
        requires
            self.has_span(),
        ensures
            r == self.span_of(),
    ;

    fn consumed_span(&self, next_start: usize) -> (r: Range<usize>)
        ensures
            r == self.consumed_span_of(next_start),
    ;
}

/// The diagnostics sink of one parse: an ordered list that only grows.
#[derive(Debug)]
pub struct ParseState(pub Vec<RecoveredError>);

impl View for ParseState {
    type V = Seq<Diagnostic>;

    open spec fn view(&self) -> Seq<Diagnostic> {
        self.0@.map_values(|e: RecoveredError| e@)
    }
}

impl ParseState {
    /// An empty sink.
    pub fn new() -> (s: ParseState)
        ensures
            s@ == Seq::<Diagnostic>::empty(),
    {
        let s = ParseState(Vec::new());
        assert(s@ =~= Seq::<Diagnostic>::empty());
        s
    }

    /// Appends `error` to the sink; what was reported before stays, in order.
    pub fn report_error(&mut self, error: RecoveredError)
        ensures
            final(self)@ == old(self)@.push(error@),
    {
        self.0.push(error);
        assert(self@ =~= old(self)@.push(error@));
    }
}

/// Why a rule failed, as a tree.
///
/// `Base` is a mismatch at a place in the stream.  `Stack` is a failure with the
/// labels of the rules it went through, each with the place where that rule
/// began; the label pushed last stands last.  `Alt` holds the failures of the
/// alternatives of a choice, in the order in which they were tried.
#[derive(Debug)]
pub enum TokError<'a> {
    Base { location: Tokens<'a> },
    Stack { base: Box<TokError<'a>>, contexts: Vec<(Tokens<'a>, &'static str)> },
    Alt(Vec<TokError<'a>>),
}

/// The mathematical value of a [`TokError`].
pub enum FailureView {
    Base { location: Stream },
    Stack { base: Box<FailureView>, contexts: Seq<(Stream, Seq<char>)> },
    Alt(Seq<FailureView>),
}

impl<'a> TokError<'a> {
    /// The value of the tree.
    pub open spec fn model(self) -> FailureView
        decreases self,
    {
        match self {
            TokError::Base { location } => FailureView::Base { location: location@ },
            TokError::Stack { base, contexts } => FailureView::Stack {
                base: Box::new(base.model()),
                contexts: contexts@.map_values(|c: (Tokens<'a>, &'static str)| (c.0@, c.1@)),
            },
            TokError::Alt(branches) => FailureView::Alt(
                Seq::new(
                    branches@.len(),
                    |i: int|
                        if 0 <= i < branches@.len() {
                            branches@[i].model()
                        } else {
                            FailureView::Alt(Seq::empty())
                        },
                ),
            ),
        }
    }
}

impl<'a> View for TokError<'a> {
    type V = FailureView;

    open spec fn view(&self) -> FailureView {
        self.model()
    }
}

/// A failed rule: either an alternative that did not match, which an enclosing
/// choice or repetition may step over, or a failure behind a commit point, which
/// must surface at the nearest recovery point.
#[derive(Debug)]
pub enum Failed<'a> {
    Error(TokError<'a>),
    Failure(TokError<'a>),
}

/// The mathematical value of a [`Failed`]: whether it is committed, and its tree.
pub struct Fail {
    pub hard: bool,
    pub tree: FailureView,
}

impl<'a> View for Failed<'a> {
    type V = Fail;

    open spec fn view(&self) -> Fail {
        match self {
            Failed::Error(tree) => Fail { hard: false, tree: tree@ },
            Failed::Failure(tree) => Fail { hard: true, tree: tree@ },
        }
    }
}

/// What a rule returns: what is left of the stream and the value, or the failure.
pub type TokResult<'a, O> = Result<(Tokens<'a>, O), Failed<'a>>;

/// The mathematical value of a [`TokResult`].
pub type Parse<T> = Result<(Stream, T), Fail>;

/// Whether `result` is `parse`, the value of a success taken by `value`.
pub open spec fn agrees<'a, O, T>(
    result: TokResult<'a, O>,
    parse: Parse<T>,
    value: spec_fn(O) -> T,
) -> bool {
    match result {
        Ok((rest, out)) => parse == Ok::<(Stream, T), Fail>((rest@, value(out))),
        Err(failed) => parse == Err::<(Stream, T), Fail>(failed@),
    }
}

impl FailureView {
    /// Whether every `Stack` in the tree holds at least one label.
    pub open spec fn labelled(self) -> bool
        decreases self,
    {
        match self {
            FailureView::Base { .. } => true,
            FailureView::Stack { base, contexts } => contexts.len() > 0 && base.labelled(),
            FailureView::Alt(branches) => forall|i: int|
                0 <= i < branches.len() ==> (#[trigger] branches[i]).labelled(),
        }
    }

    /// Whether every `Alt` in the tree holds at least one branch.
    pub open spec fn rooted(self) -> bool
        decreases self,
    {
        match self {
            FailureView::Base { .. } => true,
            FailureView::Stack { base, .. } => base.rooted(),
            FailureView::Alt(branches) => branches.len() > 0 && forall|i: int|
                0 <= i < branches.len() ==> (#[trigger] branches[i]).rooted(),
        }
    }

    /// Whether every place in the tree is `whole` or what is left of it behind
    /// some of its tokens.
    pub open spec fn within(self, whole: Stream) -> bool
        decreases self,
    {
        match self {
            FailureView::Base { location } => location.is_suffix_of(whole),
            FailureView::Stack { base, contexts } => base.within(whole) && forall|i: int|
                0 <= i < contexts.len() ==> (#[trigger] contexts[i]).0.is_suffix_of(whole),
            FailureView::Alt(branches) => forall|i: int|
                0 <= i < branches.len() ==> (#[trigger] branches[i]).within(whole),
        }
    }

    /// Whether every place in the tree is a bounded stream.
    pub open spec fn bounded(self) -> bool
        decreases self,
    {
        match self {
            FailureView::Base { location } => location.bounded(),
            FailureView::Stack { base, contexts } => base.bounded() && forall|i: int|
                0 <= i < contexts.len() ==> (#[trigger] contexts[i]).0.bounded(),
            FailureView::Alt(branches) => forall|i: int|
                0 <= i < branches.len() ==> (#[trigger] branches[i]).bounded(),
        }
    }

    /// The place of the first mismatch in the tree.
    pub open spec fn first_location(self) -> Stream
        recommends
            self.rooted(),
        decreases self,
    {
        match self {
            FailureView::Base { location } => location,
            FailureView::Stack { base, .. } => base.first_location(),
            FailureView::Alt(branches) => if branches.len() > 0 {
                branches[0].first_location()
            } else {
                arbitrary()
            },
        }
    }
}

/// The token at which recovery stops skipping: the statement boundary.
pub open spec fn boundary() -> TokenView {
    TokenView::Separator(';')
}

/// The number of leading tokens of `toks` that are no statement boundary.
pub open spec fn skipped(toks: Seq<TokSpanView>) -> nat
    decreases toks.len(),
{
    if toks.len() == 0 || toks[0].token == boundary() {
        0
    } else {
        1 + skipped(toks.drop_first())
    }
}

/// Where parsing resumes behind a failure at `location`, and the span to report.
///
/// At the end of the input nothing is skipped, and the span is that of the empty
/// stream.  Else the first token is skipped, and with it every token up to the
/// next statement boundary or the end of the input; the span is that of the
/// first token.
pub open spec fn resync(location: Stream) -> (Stream, Range<usize>) {
    if location.toks.len() == 0 {
        (location, location.span())
    } else {
        (location.suffix(1 + skipped(location.toks.skip(1)) as int), location.prefix(1).span())
    }
}

/// A recovery: where parsing resumes, and the diagnostic to report.
pub struct Recovery {
    pub rest: Stream,
    pub diagnostic: Diagnostic,
}

/// The recovery from a failure with the tree `tree`, if it holds a label.
///
/// A `Stack` recovers at the place of the label that was pushed last, with that
/// label as the message.  An `Alt` recovers as the first of its branches that
/// recovers.  A `Base` does not recover.
pub open spec fn recovery(tree: FailureView) -> Option<Recovery>
    decreases tree, 0nat,
{
    match tree {
        FailureView::Base { .. } => None,
        FailureView::Stack { base, contexts } => if contexts.len() > 0 {
            let (location, label) = contexts.last();
            Some(Recovery { rest: resync(location).0, diagnostic: (resync(location).1, label) })
        } else {
            None
        },
        FailureView::Alt(branches) => first_recovery(branches),
    }
}

/// The recovery of the first of `branches` that recovers.
pub open spec fn first_recovery(branches: Seq<FailureView>) -> Option<Recovery>
    decreases branches, 1nat,
{
    if branches.len() == 0 {
        None
    } else {
        match recovery(branches[0]) {
            Some(r) => Some(r),
            None => first_recovery(branches.drop_first()),
        }
    }
}

/// In a run of tokens, what is skipped ends at the first statement boundary, or
/// at the end of the run where there is none.
proof fn lemma_skipped_to(toks: Seq<TokSpanView>, n: int)
    requires
        0 <= n <= toks.len(),
        forall|i: int| 0 <= i < n ==> (#[trigger] toks[i]).token != boundary(),
        n < toks.len() ==> toks[n].token == boundary(),
    ensures
        skipped(toks) == n,
    decreases n,
{
    if n > 0 {
        let rest = toks.drop_first();
        assert forall|i: int| 0 <= i < n - 1 implies (#[trigger] rest[i]).token != boundary() by {
            assert(rest[i] == toks[i + 1]);
        }
        if n < toks.len() {
            assert(rest[n - 1] == toks[n]);
        }
        lemma_skipped_to(rest, n - 1);
    }
}

/// Brings the stream back to a statement boundary behind a failure at `input`;
/// see [`resync`].
pub fn resynchronize<'a>(input: Tokens<'a>) -> (r: (Tokens<'a>, Range<usize>))
    requires
        input@.toks.len() == 0 ==> input.offset < usize::MAX,
    ensures
        r.0@ == resync(input@).0,
        r.1 == resync(input@).1,
{
    if input.input_len() == 0 {
        (input, input.span())
    } else {
        let (behind, first) = input.take_split(1);
        let span = first.span();
        let at_boundary = |t: &TokSpan| -> (b: bool)
            ensures
                b == (t@.token == boundary()),
            { t.fragment().same(&Token::Separator(';')) };
        let skip = match behind.position(at_boundary) {
            Some(n) => n,
            None => behind.input_len(),
        };
        proof {
            assert forall|i: int| 0 <= i < skip implies (#[trigger] behind@.toks[i]).token
                != boundary() by {
                assert(behind@.toks[i] == behind.tokens@[i]@);
            }
            if skip < behind@.toks.len() {
                assert(behind@.toks[skip as int] == behind.tokens@[skip as int]@);
            }
            lemma_skipped_to(behind@.toks, skip as int);
        }
        let (rest, _) = input.take_split(1 + skip);
        (rest, span)
    }
}

/// Recovers from a failure with the tree `e`, if the tree holds a label: reports
/// one diagnostic to `state` and returns where parsing resumes, with the mark of
/// the construct that could not be parsed in place of a value.  A tree without a
/// label is handed back unchanged, as a failure that may be stepped over, and
/// nothing is reported.
pub fn recover_from_error<'a, Ex>(e: TokError<'a>, state: &mut ParseState) -> (r: TokResult<
    'a,
    Spanned<Result<Ex, ParserError>>,
>)
    requires
        e@.labelled(),
        e@.bounded(),
    ensures
        match recovery(e@) {
            Some(found) => {
                &&& r matches Ok((rest, (Err(_), span)))
                &&& rest@ == found.rest
                &&& span == found.diagnostic.0
                &&& final(state)@ == old(state)@.push(found.diagnostic)
            },
            None => {
                &&& r matches Err(Failed::Error(tree))
                &&& tree@ == e@
                &&& final(state)@ == old(state)@
            },
        },
    decreases e,
{
    match e {
        TokError::Stack { base: _, contexts } => {
            let (input, context) = contexts[contexts.len() - 1];
            let (rest, span) = resynchronize(input);
            state.report_error(RecoveredError(span.start..span.end, String::from_str(context)));
            Ok((rest, (Err(ParserError), span)))
        },
        TokError::Base { location } => Err(Failed::Error(TokError::Base { location })),
        TokError::Alt(v) => {
            let mut v2: Vec<TokError<'a>> = Vec::new();
            let ghost branches = e@->Alt_0;
            assert(branches.skip(0) =~= branches);
            for e1 in it: v
                invariant
                    it.seq() == v@,
                    e == TokError::Alt(v),
                    branches == e@->Alt_0,
                    e@.labelled(),
                    e@.bounded(),
                    first_recovery(branches) == first_recovery(branches.skip(it.index() as int)),
                    v2@.len() == it.index(),
                    forall|j: int| 0 <= j < it.index() ==> (#[trigger] v2@[j])@ == branches[j],
                    state@ == old(state)@,
            {
                let ghost i = it.index() as int;
                proof {
                    assert(branches[i] == e1@);
                    assert(branches.skip(i)[0] == branches[i]);
                    assert(branches.skip(i).drop_first() =~= branches.skip(i + 1));
                }
                match recover_from_error(e1, state) {
                    Ok(a) => {
                        return Ok(a);
                    },
                    Err(res) => match res {
                        Failed::Error(res) => v2.push(res),
                        Failed::Failure(res) => v2.push(res),
                    },
                }
            }
            let out = TokError::Alt(v2);
            assert(out@->Alt_0 =~= branches);
            Err(Failed::Error(out))
        },
    }
}

/// Makes a failure that may be stepped over into a committed one; anything else
/// stays as it is.
pub fn non_opt<'a, O>(result: TokResult<'a, O>) -> (r: TokResult<'a, O>)
    ensures
        match result {
            Ok(ok) => r == Ok::<(Tokens<'a>, O), Failed<'a>>(ok),
            Err(Failed::Error(tree)) => r == Err::<(Tokens<'a>, O), Failed<'a>>(
                Failed::Failure(tree),
            ),
            Err(Failed::Failure(tree)) => r == Err::<(Tokens<'a>, O), Failed<'a>>(
                Failed::Failure(tree),
            ),
        },
{
    match result {
        Ok(r) => Ok(r),
        Err(Failed::Error(e)) => Err(Failed::Failure(e)),
        Err(e) => Err(e),
    }
}

/// Lets a success through, and recovers from a failure as [`recover_from_error`]
/// does.
pub fn expression_recovery<'a, Ex>(
    result: TokResult<'a, Spanned<Result<Ex, ParserError>>>,
    state: &mut ParseState,
) -> (r: TokResult<'a, Spanned<Result<Ex, ParserError>>>)
    requires
        result matches Err(failed) ==> failed@.tree.labelled() && failed@.tree.bounded(),
    ensures
        result is Ok ==> r == result && final(state)@ == old(state)@,
        result matches Err(failed) ==> match recovery(failed@.tree) {
            Some(found) => {
                &&& r matches Ok((rest, (Err(_), span)))
                &&& rest@ == found.rest
                &&& span == found.diagnostic.0
                &&& final(state)@ == old(state)@.push(found.diagnostic)
            },
            None => {
                &&& r matches Err(Failed::Error(tree))
                &&& tree@ == failed@.tree
                &&& final(state)@ == old(state)@
            },
        },
{
    match result {
        Ok(r) => Ok(r),
        Err(Failed::Error(e)) => recover_from_error(e, state),
        Err(Failed::Failure(e)) => recover_from_error(e, state),
    }
}

proof fn lemma_skipped_bound(toks: Seq<TokSpanView>)
    ensures
        skipped(toks) <= toks.len(),
    decreases toks.len(),
{
    if toks.len() > 0 && toks[0].token != boundary() {
        lemma_skipped_bound(toks.drop_first());
    }
}

/// Parsing resumes in what is left of the stream, and, unless the stream is at
/// its end, behind at least one more token.
pub proof fn lemma_resync_advances(location: Stream)
    ensures
        resync(location).0.is_suffix_of(location),
        location.toks.len() > 0 ==> resync(location).0.is_behind(location),
        location.toks.len() == 0 ==> resync(location).0 == location,
{
    if location.toks.len() > 0 {
        lemma_skipped_bound(location.toks.skip(1));
        crate::token::lemma_suffix_of_suffix(
            location,
            1 + skipped(location.toks.skip(1)) as int,
            0,
        );
    }
}

/// Recovery always advances: from a failure that arose in the stream `whole`,
/// parsing resumes in what is left of `whole`, and, where `whole` holds a token,
/// behind at least one of its tokens.
pub proof fn lemma_recovery_advances(tree: FailureView, whole: Stream)
    requires
        tree.within(whole),
    ensures
        recovery(tree) matches Some(found) ==> found.rest.is_suffix_of(whole) && (whole.toks.len()
            > 0 ==> found.rest.is_behind(whole)),
    decreases tree, 0nat,
{
    match tree {
        FailureView::Base { .. } => {},
        FailureView::Stack { base, contexts } => {
            if contexts.len() > 0 {
                let location = contexts.last().0;
                assert(contexts[contexts.len() - 1].0.is_suffix_of(whole));
                lemma_resync_advances(location);
                crate::token::lemma_suffix_trans(resync(location).0, location, whole);
            }
        },
        FailureView::Alt(branches) => {
            lemma_first_recovery_advances(branches, whole);
        },
    }
}

proof fn lemma_first_recovery_advances(branches: Seq<FailureView>, whole: Stream)
    requires
        forall|i: int| 0 <= i < branches.len() ==> (#[trigger] branches[i]).within(whole),
    ensures
        first_recovery(branches) matches Some(found) ==> found.rest.is_suffix_of(whole) && (
        whole.toks.len() > 0 ==> found.rest.is_behind(whole)),
    decreases branches, 1nat,
{
    if branches.len() > 0 {
        lemma_recovery_advances(branches[0], whole);
        if recovery(branches[0]) is None {
            let rest = branches.drop_first();
            assert forall|i: int| 0 <= i < rest.len() implies (#[trigger] rest[i]).within(whole) by {
                assert(rest[i] == branches[i + 1]);
            }
            lemma_first_recovery_advances(rest, whole);
        }
    }
}

/// The first mismatch of a failure that arose in the stream `whole` lies in
/// `whole`.
pub proof fn lemma_first_location(tree: FailureView, whole: Stream)
    requires
        tree.within(whole),
        tree.rooted(),
    ensures
        tree.first_location().is_suffix_of(whole),
        tree.bounded() ==> tree.first_location().bounded(),
    decreases tree,
{
    match tree {
        FailureView::Base { .. } => {},
        FailureView::Stack { base, .. } => {
            lemma_first_location(*base, whole);
        },
        FailureView::Alt(branches) => {
            lemma_first_location(branches[0], whole);
        },
    }
}

} // verus!
