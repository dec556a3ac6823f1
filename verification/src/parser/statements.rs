//! The grammar: what each rule accepts, and the rules themselves.
//!
//! The first part states the grammar over the values of token streams.  A rule
//! takes a stream and gives either what is left of the stream together with the
//! value it read, or a failure.  A failure is either one that an enclosing choice
//! or repetition may step over, or a committed one: once the separator that
//! opens a mandatory continuation has been read, the rule can no longer fall back
//! to "nothing was written here".

use vstd::prelude::*;
use vstd::string::*;
use std::ops::Range;
use crate::parser::{lemma_recovered_advances, recovered, skip_unexpected};
use crate::recovery_err::{
    agrees, expression_recovery, lemma_first_location, recovery, Diagnostic, Fail, Failed,
    FailureView, Parse, ParseState, ToRange, TokError, TokResult,
};
use crate::token::{
    lemma_suffix_of_suffix, lemma_suffix_trans, Keyword, Spanned, Stream, Token, TokenView, Tokens,
};
use crate::{
    lemma_expr_list_view, spanned_opt_view, spanned_view, spanned_views, AnnotatedBlock,
    AnnotatedBlockView, Annotation, Assignment, AssignmentView, Attribute, AttributeView, Class,
    ClassView, Expr, ExprView, FuncCall, FuncCallView, Method, MethodView, NameView, ParserError,
    SequenceEntrypointBlock, SequenceEntrypointBlockView, TopLevelStatement,
    TopLevelStatementView,
};

verus! {

/// The failure of a rule that found something else than it expects at `s`.
pub open spec fn mismatch(s: Stream) -> Fail {
    Fail { hard: false, tree: FailureView::Base { location: s } }
}

/// The failure `f` of a rule that began at `s`, with the label of that rule.
pub open spec fn labelled_at(s: Stream, label: Seq<char>, f: Fail) -> Fail {
    Fail {
        hard: f.hard,
        tree: match f.tree {
            FailureView::Stack { base, contexts } => FailureView::Stack {
                base,
                contexts: contexts.push((s, label)),
            },
            other => FailureView::Stack { base: Box::new(other), contexts: seq![(s, label)] },
        },
    }
}

/// The failure `f` behind a commit point.
pub open spec fn committed(f: Fail) -> Fail {
    Fail { hard: true, tree: f.tree }
}

/// `identifier`: exactly one identifier token.
pub open spec fn ident_rule(s: Stream) -> Parse<NameView> {
    if s.toks.len() > 0 && s.toks[0].token is Ident {
        Ok((s.suffix(1), (s.toks[0].token->Ident_0, s.consumed_span(s.suffix(1).offset))))
    } else {
        Err(mismatch(s))
    }
}

/// `(sep identifier)?`, where the identifier is mandatory once `sep` was read.
pub open spec fn committed_name_rule(s: Stream, sep: char) -> Parse<Option<NameView>> {
    if s.front_is(TokenView::Separator(sep)) {
        match ident_rule(s.suffix(1)) {
            Ok((rest, name)) => Ok((rest, Some(name))),
            Err(f) => Err(committed(f)),
        }
    } else {
        Ok((s, None))
    }
}

/// `attribute`: `identifier (':' identifier)?`.
pub open spec fn attribute_rule(s: Stream) -> Parse<(AttributeView, Range<usize>)> {
    match ident_rule(s) {
        Err(f) => Err(f),
        Ok((r1, name)) => match committed_name_rule(r1, ':') {
            Err(f) => Err(f),
            Ok((r2, ty)) => Ok((r2, (AttributeView { name, ty }, s.consumed_span(r2.offset)))),
        },
    }
}

/// `(',' identifier)*` behind the names `acc`.  A comma that no identifier
/// follows is not read.
pub open spec fn more_names_rule(s: Stream, acc: Seq<NameView>) -> (Stream, Seq<NameView>)
    decreases s.toks.len(),
{
    if s.front_is(TokenView::Separator(',')) {
        match ident_rule(s.suffix(1)) {
            Ok((rest, name)) => more_names_rule(rest, acc.push(name)),
            Err(_) => (s, acc),
        }
    } else {
        (s, acc)
    }
}

/// `(identifier (',' identifier)*)?`.
pub open spec fn names_rule(s: Stream) -> (Stream, Seq<NameView>) {
    match ident_rule(s) {
        Ok((rest, name)) => more_names_rule(rest, seq![name]),
        Err(_) => (s, Seq::empty()),
    }
}

/// `(',' attribute)*` behind the attributes `acc`.  A comma that no attribute
/// follows is not read.
pub open spec fn more_parameters_rule(s: Stream, acc: Seq<(AttributeView, Range<usize>)>) -> Parse<
    Seq<(AttributeView, Range<usize>)>,
>
    decreases s.toks.len(),
{
    if s.front_is(TokenView::Separator(',')) {
        match attribute_rule(s.suffix(1)) {
            Ok((rest, attribute)) => {
                proof {
                    lemma_attribute(s.suffix(1));
                }
                more_parameters_rule(rest, acc.push(attribute))
            },
            Err(f) => if f.hard {
                Err(f)
            } else {
                Ok((s, acc))
            },
        }
    } else {
        Ok((s, acc))
    }
}

/// `(attribute (',' attribute)*)?`.
pub open spec fn parameters_rule(s: Stream) -> Parse<Seq<(AttributeView, Range<usize>)>> {
    match attribute_rule(s) {
        Ok((rest, attribute)) => more_parameters_rule(rest, seq![attribute]),
        Err(f) => if f.hard {
            Err(f)
        } else {
            Ok((s, Seq::empty()))
        },
    }
}

/// `func_call`: `identifier ('.' identifier)? '(' (identifier (',' identifier)*)? ')'`.
pub open spec fn func_call_rule(s: Stream) -> Parse<(FuncCallView, Range<usize>)> {
    match ident_rule(s) {
        Err(f) => Err(f),
        Ok((r1, root)) => match committed_name_rule(r1, '.') {
            Err(f) => Err(f),
            Ok((r2, access)) => if !r2.front_is(TokenView::Separator('(')) {
                Err(mismatch(r2))
            } else {
                let (r3, args) = names_rule(r2.suffix(1));
                if !r3.front_is(TokenView::Separator(')')) {
                    Err(mismatch(r3))
                } else {
                    Ok(
                        (
                            r3.suffix(1),
                            (
                                FuncCallView { root, access, args },
                                s.consumed_span(r3.suffix(1).offset),
                            ),
                        ),
                    )
                }
            },
        },
    }
}

/// `(identifier (':' identifier)? '=')?`: the target of an assignment, if one is
/// written.  Nothing is read where the `=` is missing.
pub open spec fn target_rule(s: Stream) -> Option<(Stream, (NameView, Option<NameView>))> {
    match ident_rule(s) {
        Err(_) => None,
        Ok((r1, name)) => {
            let typed = if r1.front_is(TokenView::Separator(':')) {
                match ident_rule(r1.suffix(1)) {
                    Ok((r2, ty)) => (r2, Some(ty)),
                    Err(_) => (r1, None),
                }
            } else {
                (r1, None)
            };
            if typed.0.front_is(TokenView::Op("="@)) {
                Some((typed.0.suffix(1), (name, typed.1)))
            } else {
                None
            }
        },
    }
}

/// A statement of a method body: `(identifier (':' identifier)? '=')? func_call`.
pub open spec fn body_statement_rule(s: Stream) -> Parse<(ExprView, Range<usize>)> {
    let target = target_rule(s);
    let start = match target {
        Some((rest, _)) => rest,
        None => s,
    };
    match func_call_rule(start) {
        Err(f) => Err(f),
        Ok((rest, call)) => {
            let span = s.consumed_span(rest.offset);
            match target {
                Some((_, (name, ty))) => Ok(
                    (
                        rest,
                        (
                            ExprView::Assignment(
                                Box::new(
                                    AssignmentView {
                                        ty,
                                        name,
                                        expr: (ExprView::FuncCall(call.0), call.1),
                                    },
                                ),
                            ),
                            span,
                        ),
                    ),
                ),
                None => Ok((rest, (ExprView::FuncCall(call.0), span))),
            }
        },
    }
}

/// Zero or more statements of a method body behind the statements `acc`.
pub open spec fn body_statements_rule(s: Stream, acc: Seq<(ExprView, Range<usize>)>) -> Parse<
    Seq<(ExprView, Range<usize>)>,
>
    decreases s.toks.len(),
{
    match body_statement_rule(s) {
        Ok((rest, statement)) => {
            proof {
                lemma_body_statement(s);
            }
            body_statements_rule(rest, acc.push(statement))
        },
        Err(f) => if f.hard {
            Err(f)
        } else {
            Ok((s, acc))
        },
    }
}

/// `method_body`: zero or more statements, as one list expression.
pub open spec fn method_body_rule(s: Stream) -> Parse<(ExprView, Range<usize>)> {
    match body_statements_rule(s, Seq::empty()) {
        Err(f) => Err(f),
        Ok((rest, list)) => Ok((rest, (ExprView::ExprList(list), s.consumed_span(rest.offset)))),
    }
}

/// `('{' method_body '}')?`, where body and closing brace are mandatory once the
/// opening brace was read.
pub open spec fn body_block_rule(s: Stream) -> Parse<Option<(ExprView, Range<usize>)>> {
    if s.front_is(TokenView::Separator('{')) {
        match method_body_rule(s.suffix(1)) {
            Err(f) => Err(committed(f)),
            Ok((rest, body)) => if rest.front_is(TokenView::Separator('}')) {
                Ok((rest.suffix(1), Some(body)))
            } else {
                Err(committed(mismatch(rest)))
            },
        }
    } else {
        Ok((s, None))
    }
}

/// `method`: `'fn' identifier '(' (attribute (',' attribute)*)? ')' (':' identifier)?
/// ('{' method_body '}')?`.
pub open spec fn method_rule(s: Stream) -> Parse<(MethodView, Range<usize>)> {
    if !s.front_is(TokenView::K(Keyword::Fn)) {
        Err(mismatch(s))
    } else {
        match ident_rule(s.suffix(1)) {
            Err(f) => Err(f),
            Ok((r1, name)) => if !r1.front_is(TokenView::Separator('(')) {
                Err(mismatch(r1))
            } else {
                match parameters_rule(r1.suffix(1)) {
                    Err(f) => Err(f),
                    Ok((r2, parameters)) => if !r2.front_is(TokenView::Separator(')')) {
                        Err(mismatch(r2))
                    } else {
                        match committed_name_rule(r2.suffix(1), ':') {
                            Err(f) => Err(f),
                            Ok((r3, ret_type)) => match body_block_rule(r3) {
                                Err(f) => Err(f),
                                Ok((r4, body)) => Ok(
                                    (
                                        r4,
                                        (
                                            MethodView { name, parameters, ret_type, body },
                                            s.consumed_span(r4.offset),
                                        ),
                                    ),
                                ),
                            },
                        }
                    },
                }
            },
        }
    }
}

/// `attribute*` behind the attributes `acc`.
pub open spec fn attributes_rule(s: Stream, acc: Seq<(AttributeView, Range<usize>)>) -> Parse<
    Seq<(AttributeView, Range<usize>)>,
>
    decreases s.toks.len(),
{
    match attribute_rule(s) {
        Ok((rest, attribute)) => {
            proof {
                lemma_attribute(s);
            }
            attributes_rule(rest, acc.push(attribute))
        },
        Err(f) => if f.hard {
            Err(f)
        } else {
            Ok((s, acc))
        },
    }
}

/// `method*` behind the methods `acc`.
pub open spec fn methods_rule(s: Stream, acc: Seq<(MethodView, Range<usize>)>) -> Parse<
    Seq<(MethodView, Range<usize>)>,
>
    decreases s.toks.len(),
{
    match method_rule(s) {
        Ok((rest, method)) => {
            proof {
                lemma_method(s);
            }
            methods_rule(rest, acc.push(method))
        },
        Err(f) => if f.hard {
            Err(f)
        } else {
            Ok((s, acc))
        },
    }
}

/// `class`: `'class' identifier '{' attribute* method* '}'`.  The keyword, the
/// name and the two braces each carry a label.
pub open spec fn class_rule(s: Stream) -> Parse<(ClassView, Range<usize>)> {
    if !s.front_is(TokenView::K(Keyword::Class)) {
        Err(labelled_at(s, "tag class"@, mismatch(s)))
    } else {
        let r0 = s.suffix(1);
        match ident_rule(r0) {
            Err(f) => Err(labelled_at(r0, "class name"@, f)),
            Ok((r1, name)) => if !r1.front_is(TokenView::Separator('{')) {
                Err(labelled_at(r1, "Opening brack"@, mismatch(r1)))
            } else {
                match attributes_rule(r1.suffix(1), Seq::empty()) {
                    Err(f) => Err(f),
                    Ok((r2, attributes)) => match methods_rule(r2, Seq::empty()) {
                        Err(f) => Err(f),
                        Ok((r3, methods)) => if !r3.front_is(TokenView::Separator('}')) {
                            Err(labelled_at(r3, "Closing brack"@, mismatch(r3)))
                        } else {
                            Ok(
                                (
                                    r3.suffix(1),
                                    (
                                        ClassView { name, attributes, methods },
                                        s.consumed_span(r3.suffix(1).offset),
                                    ),
                                ),
                            )
                        },
                    },
                }
            },
        }
    }
}

/// The sequence entry point: `'@SequenceEntrypoint' func_call`.  The tag carries
/// a label.
pub open spec fn annotation_entrypoint_rule(s: Stream) -> Parse<
    (SequenceEntrypointBlockView, Range<usize>),
> {
    if !s.front_is(TokenView::A(Annotation::SequenceEntrypoint)) {
        Err(labelled_at(s, "tag sequence_entrypoint"@, mismatch(s)))
    } else {
        match func_call_rule(s.suffix(1)) {
            Err(f) => Err(f),
            Ok((rest, function)) => Ok(
                (rest, (SequenceEntrypointBlockView { function }, s.consumed_span(rest.offset))),
            ),
        }
    }
}

/// `annotation_block`: the choice among the annotations, of which there is one.
pub open spec fn annotation_block_rule(s: Stream) -> Parse<(AnnotatedBlockView, Range<usize>)> {
    match annotation_entrypoint_rule(s) {
        Err(f) => Err(f),
        Ok((rest, (block, span))) => Ok((rest, (AnnotatedBlockView::SequenceEntrypoint(block), span))),
    }
}

/// `top_level_statement`: `class | annotation_block`, the class first.  A
/// committed failure of the class ends the choice; where both alternatives fail
/// without one, the failure holds both, in this order.
pub open spec fn top_level_rule(s: Stream) -> Parse<(TopLevelStatementView, Range<usize>)> {
    match class_rule(s) {
        Ok((rest, (class, span))) => Ok((rest, (TopLevelStatementView::Class(class), span))),
        Err(f1) => if f1.hard {
            Err(f1)
        } else {
            match annotation_block_rule(s) {
                Ok((rest, (block, span))) => Ok(
                    (rest, (TopLevelStatementView::AnnotatedBlock(block), span)),
                ),
                Err(f2) => if f2.hard {
                    Err(f2)
                } else {
                    Err(Fail { hard: false, tree: FailureView::Alt(seq![f1.tree, f2.tree]) })
                },
            }
        },
    }
}

/// What the top-level list has read: the statements, the diagnostics of the
/// statements that could not be read, and what is left of the stream.
pub struct Program {
    pub statements: Seq<(TopLevelStatementView, Range<usize>)>,
    pub diagnostics: Seq<Diagnostic>,
    pub rest: Stream,
}

/// `program`: top-level statements up to the end of the input, behind the
/// statements `list` and the diagnostics `reports`.
///
/// A statement that cannot be read is left out of the list: one diagnostic is
/// reported for it, and reading resumes where recovery says.
pub open spec fn statements_rule(
    s: Stream,
    list: Seq<(TopLevelStatementView, Range<usize>)>,
    reports: Seq<Diagnostic>,
) -> Program
    decreases s.toks.len(),
{
    if s.toks.len() == 0 {
        Program { statements: list, diagnostics: reports, rest: s }
    } else {
        match top_level_rule(s) {
            Ok((rest, statement)) => {
                proof {
                    lemma_top_level(s);
                }
                statements_rule(rest, list.push(statement), reports)
            },
            Err(f) => {
                proof {
                    lemma_top_level(s);
                    lemma_recovered_advances(f.tree, s);
                }
                statements_rule(recovered(f.tree).rest, list, reports.push(recovered(f.tree).diagnostic))
            },
        }
    }
}

/// What holds of every rule `parse` that reads at least one token: a success
/// leaves a stream behind that is shorter, and a failure speaks of places in the
/// stream only, and has the shape that recovery expects.
pub open spec fn advances<T>(s: Stream, parse: Parse<T>) -> bool {
    match parse {
        Ok((rest, _)) => rest.is_behind(s),
        Err(f) => f.tree.within(s) && f.tree.labelled() && f.tree.rooted(),
    }
}

/// The same for a rule that may read nothing.
pub open spec fn stays<T>(s: Stream, parse: Parse<T>) -> bool {
    match parse {
        Ok((rest, _)) => rest.is_suffix_of(s),
        Err(f) => f.tree.within(s) && f.tree.labelled() && f.tree.rooted(),
    }
}

/// A failure within what is left of a stream is within that stream.
pub proof fn lemma_within_trans(tree: FailureView, mid: Stream, whole: Stream)
    requires
        tree.within(mid),
        mid.is_suffix_of(whole),
    ensures
        tree.within(whole),
        whole.bounded() ==> tree.bounded(),
    decreases tree,
{
    match tree {
        FailureView::Base { location } => {
            lemma_suffix_trans(location, mid, whole);
        },
        FailureView::Stack { base, contexts } => {
            lemma_within_trans(*base, mid, whole);
            assert forall|i: int| 0 <= i < contexts.len() implies (#[trigger] contexts[i]).0.is_suffix_of(
                whole,
            ) && (whole.bounded() ==> contexts[i].0.bounded()) by {
                lemma_suffix_trans(contexts[i].0, mid, whole);
            }
        },
        FailureView::Alt(branches) => {
            assert forall|i: int| 0 <= i < branches.len() implies (#[trigger] branches[i]).within(whole)
                && (whole.bounded() ==> branches[i].bounded()) by {
                lemma_within_trans(branches[i], mid, whole);
            }
        },
    }
}

/// A label does not change what a failure speaks of, and gives it a shape that
/// recovers.
pub proof fn lemma_labelled_at(at: Stream, label: Seq<char>, f: Fail, whole: Stream)
    requires
        f.tree.within(whole),
        f.tree.labelled(),
        f.tree.rooted(),
        at.is_suffix_of(whole),
    ensures
        labelled_at(at, label, f).tree.within(whole),
        labelled_at(at, label, f).tree.labelled(),
        labelled_at(at, label, f).tree.rooted(),
        labelled_at(at, label, f).hard == f.hard,
        recovery(labelled_at(at, label, f).tree) is Some,
{
    let out = labelled_at(at, label, f).tree;
    match f.tree {
        FailureView::Stack { base, contexts } => {
            let pushed = contexts.push((at, label));
            assert(out == FailureView::Stack { base, contexts: pushed });
            assert forall|i: int| 0 <= i < pushed.len() implies (#[trigger] pushed[i]).0.is_suffix_of(
                whole,
            ) by {
                if i < contexts.len() {
                    assert(pushed[i] == contexts[i]);
                }
            }
        },
        other => {
            let single = seq![(at, label)];
            assert(out == FailureView::Stack { base: Box::new(other), contexts: single });
            assert forall|i: int| 0 <= i < single.len() implies (#[trigger] single[i]).0.is_suffix_of(
                whole,
            ) by {}
        },
    }
}

/// What is left behind the first token of a stream.
pub proof fn lemma_step(s: Stream)
    requires
        s.toks.len() > 0,
    ensures
        s.suffix(1).is_behind(s),
{
    lemma_suffix_of_suffix(s, 1, 0);
}

/// An identifier is one token.
pub proof fn lemma_ident(s: Stream)
    ensures
        advances(s, ident_rule(s)),
{
    if s.toks.len() > 0 {
        lemma_step(s);
    }
}

/// A separator with its mandatory identifier stays in the stream, and fails only
/// as a committed failure.
pub proof fn lemma_committed_name(s: Stream, sep: char)
    ensures
        stays(s, committed_name_rule(s, sep)),
        committed_name_rule(s, sep) matches Err(f) ==> f.hard,
{
    if s.front_is(TokenView::Separator(sep)) {
        lemma_step(s);
        lemma_ident(s.suffix(1));
        match ident_rule(s.suffix(1)) {
            Ok((rest, name)) => {
                lemma_suffix_trans(rest, s.suffix(1), s);
            },
            Err(f) => {
                lemma_within_trans(f.tree, s.suffix(1), s);
            },
        }
    }
}

/// An attribute holds at least one token.
pub proof fn lemma_attribute(s: Stream)
    ensures
        advances(s, attribute_rule(s)),
{
    lemma_ident(s);
    match ident_rule(s) {
        Err(f) => {},
        Ok((r1, name)) => {
            lemma_committed_name(r1, ':');
            match committed_name_rule(r1, ':') {
                Err(f) => {
                    lemma_within_trans(f.tree, r1, s);
                },
                Ok((r2, ty)) => {
                    lemma_suffix_trans(r2, r1, s);
                },
            }
        },
    }
}

/// The rest of a list of names stays in the stream.
pub proof fn lemma_more_names(s: Stream, acc: Seq<NameView>)
    ensures
        more_names_rule(s, acc).0.is_suffix_of(s),
    decreases s.toks.len(),
{
    if s.front_is(TokenView::Separator(',')) {
        lemma_step(s);
        lemma_ident(s.suffix(1));
        match ident_rule(s.suffix(1)) {
            Ok((rest, name)) => {
                lemma_more_names(rest, acc.push(name));
                lemma_suffix_trans(rest, s.suffix(1), s);
                lemma_suffix_trans(more_names_rule(s, acc).0, rest, s);
            },
            Err(_) => {},
        }
    }
}

/// A list of names stays in the stream.
pub proof fn lemma_names(s: Stream)
    ensures
        names_rule(s).0.is_suffix_of(s),
{
    lemma_ident(s);
    match ident_rule(s) {
        Ok((rest, name)) => {
            lemma_more_names(rest, seq![name]);
            lemma_suffix_trans(names_rule(s).0, rest, s);
        },
        Err(_) => {},
    }
}

/// The rest of a parameter list stays in the stream, and fails only as a committed
/// failure.
pub proof fn lemma_more_parameters(s: Stream, acc: Seq<(AttributeView, Range<usize>)>)
    ensures
        stays(s, more_parameters_rule(s, acc)),
        more_parameters_rule(s, acc) matches Err(f) ==> f.hard,
    decreases s.toks.len(),
{
    if s.front_is(TokenView::Separator(',')) {
        lemma_step(s);
        lemma_attribute(s.suffix(1));
        match attribute_rule(s.suffix(1)) {
            Ok((rest, attribute)) => {
                lemma_more_parameters(rest, acc.push(attribute));
                lemma_suffix_trans(rest, s.suffix(1), s);
                match more_parameters_rule(rest, acc.push(attribute)) {
                    Ok((last, _)) => {
                        lemma_suffix_trans(last, rest, s);
                    },
                    Err(f) => {
                        lemma_within_trans(f.tree, rest, s);
                    },
                }
            },
            Err(f) => {
                lemma_within_trans(f.tree, s.suffix(1), s);
            },
        }
    }
}

/// A parameter list stays in the stream, and fails only as a committed failure.
pub proof fn lemma_parameters(s: Stream)
    ensures
        stays(s, parameters_rule(s)),
        parameters_rule(s) matches Err(f) ==> f.hard,
{
    lemma_attribute(s);
    match attribute_rule(s) {
        Ok((rest, attribute)) => {
            lemma_more_parameters(rest, seq![attribute]);
            match more_parameters_rule(rest, seq![attribute]) {
                Ok((last, _)) => {
                    lemma_suffix_trans(last, rest, s);
                },
                Err(f) => {
                    lemma_within_trans(f.tree, rest, s);
                },
            }
        },
        Err(_) => {},
    }
}

/// A call holds at least one token.
pub proof fn lemma_func_call(s: Stream)
    ensures
        advances(s, func_call_rule(s)),
{
    lemma_ident(s);
    match ident_rule(s) {
        Err(_) => {},
        Ok((r1, root)) => {
            lemma_committed_name(r1, '.');
            match committed_name_rule(r1, '.') {
                Err(f) => {
                    lemma_within_trans(f.tree, r1, s);
                },
                Ok((r2, access)) => {
                    lemma_suffix_trans(r2, r1, s);
                    if r2.front_is(TokenView::Separator('(')) {
                        lemma_step(r2);
                        lemma_names(r2.suffix(1));
                        let r3 = names_rule(r2.suffix(1)).0;
                        lemma_suffix_trans(r3, r2.suffix(1), r2);
                        lemma_suffix_trans(r3, r2, s);
                        if r3.front_is(TokenView::Separator(')')) {
                            lemma_step(r3);
                            lemma_suffix_trans(r3.suffix(1), r3, s);
                        }
                    }
                },
            }
        },
    }
}

/// The target of an assignment holds at least one token.
pub proof fn lemma_target(s: Stream)
    ensures
        target_rule(s) matches Some((rest, _)) ==> rest.is_behind(s),
{
    lemma_ident(s);
    match ident_rule(s) {
        Err(_) => {},
        Ok((r1, name)) => {
            let typed = if r1.front_is(TokenView::Separator(':')) {
                match ident_rule(r1.suffix(1)) {
                    Ok((r2, ty)) => (r2, Some(ty)),
                    Err(_) => (r1, None),
                }
            } else {
                (r1, None)
            };
            if r1.front_is(TokenView::Separator(':')) && ident_rule(r1.suffix(1)) is Ok {
                lemma_step(r1);
                lemma_ident(r1.suffix(1));
                lemma_suffix_trans(typed.0, r1.suffix(1), r1);
            }
            lemma_suffix_trans(typed.0, r1, s);
            if typed.0.front_is(TokenView::Op("="@)) {
                lemma_step(typed.0);
                lemma_suffix_trans(typed.0.suffix(1), typed.0, s);
            }
        },
    }
}

/// A statement of a method body holds at least one token.
pub proof fn lemma_body_statement(s: Stream)
    ensures
        advances(s, body_statement_rule(s)),
{
    lemma_target(s);
    let start = match target_rule(s) {
        Some((rest, _)) => rest,
        None => s,
    };
    lemma_func_call(start);
    match func_call_rule(start) {
        Err(f) => {
            lemma_within_trans(f.tree, start, s);
        },
        Ok((rest, call)) => {
            lemma_suffix_trans(rest, start, s);
        },
    }
}

/// The statements of a method body stay in the stream, and fail only as a
/// committed failure.
pub proof fn lemma_body_statements(s: Stream, acc: Seq<(ExprView, Range<usize>)>)
    ensures
        stays(s, body_statements_rule(s, acc)),
        body_statements_rule(s, acc) matches Err(f) ==> f.hard,
    decreases s.toks.len(),
{
    lemma_body_statement(s);
    match body_statement_rule(s) {
        Ok((rest, statement)) => {
            lemma_body_statements(rest, acc.push(statement));
            match body_statements_rule(rest, acc.push(statement)) {
                Ok((last, _)) => {
                    lemma_suffix_trans(last, rest, s);
                },
                Err(f) => {
                    lemma_within_trans(f.tree, rest, s);
                },
            }
        },
        Err(_) => {},
    }
}

/// A body in braces stays in the stream, and fails only as a committed failure.
pub proof fn lemma_body_block(s: Stream)
    ensures
        stays(s, body_block_rule(s)),
        body_block_rule(s) matches Err(f) ==> f.hard,
{
    if s.front_is(TokenView::Separator('{')) {
        lemma_step(s);
        lemma_body_statements(s.suffix(1), Seq::empty());
        match method_body_rule(s.suffix(1)) {
            Err(f) => {
                lemma_within_trans(f.tree, s.suffix(1), s);
            },
            Ok((rest, body)) => {
                lemma_suffix_trans(rest, s.suffix(1), s);
                if rest.front_is(TokenView::Separator('}')) {
                    lemma_step(rest);
                    lemma_suffix_trans(rest.suffix(1), rest, s);
                }
            },
        }
    }
}

/// A method holds at least one token.
pub proof fn lemma_method(s: Stream)
    ensures
        advances(s, method_rule(s)),
{
    if s.front_is(TokenView::K(Keyword::Fn)) {
        lemma_step(s);
        let r0 = s.suffix(1);
        lemma_ident(r0);
        match ident_rule(r0) {
            Err(f) => {
                lemma_within_trans(f.tree, r0, s);
            },
            Ok((r1, name)) => {
                lemma_suffix_trans(r1, r0, s);
                if r1.front_is(TokenView::Separator('(')) {
                    lemma_step(r1);
                    lemma_parameters(r1.suffix(1));
                    lemma_suffix_trans(r1.suffix(1), r1, s);
                    match parameters_rule(r1.suffix(1)) {
                        Err(f) => {
                            lemma_within_trans(f.tree, r1.suffix(1), s);
                        },
                        Ok((r2, parameters)) => {
                            lemma_suffix_trans(r2, r1.suffix(1), s);
                            if r2.front_is(TokenView::Separator(')')) {
                                lemma_step(r2);
                                let r2b = r2.suffix(1);
                                lemma_suffix_trans(r2b, r2, s);
                                lemma_committed_name(r2b, ':');
                                match committed_name_rule(r2b, ':') {
                                    Err(f) => {
                                        lemma_within_trans(f.tree, r2b, s);
                                    },
                                    Ok((r3, ret_type)) => {
                                        lemma_suffix_trans(r3, r2b, s);
                                        lemma_body_block(r3);
                                        match body_block_rule(r3) {
                                            Err(f) => {
                                                lemma_within_trans(f.tree, r3, s);
                                            },
                                            Ok((r4, body)) => {
                                                lemma_suffix_trans(r4, r3, s);
                                            },
                                        }
                                    },
                                }
                            }
                        },
                    }
                }
            },
        }
    }
}

/// The attributes of a class stay in the stream, and fail only as a committed
/// failure.
pub proof fn lemma_attributes(s: Stream, acc: Seq<(AttributeView, Range<usize>)>)
    ensures
        stays(s, attributes_rule(s, acc)),
        attributes_rule(s, acc) matches Err(f) ==> f.hard,
    decreases s.toks.len(),
{
    lemma_attribute(s);
    match attribute_rule(s) {
        Ok((rest, attribute)) => {
            lemma_attributes(rest, acc.push(attribute));
            match attributes_rule(rest, acc.push(attribute)) {
                Ok((last, _)) => {
                    lemma_suffix_trans(last, rest, s);
                },
                Err(f) => {
                    lemma_within_trans(f.tree, rest, s);
                },
            }
        },
        Err(_) => {},
    }
}

/// The methods of a class stay in the stream, and fail only as a committed
/// failure.
pub proof fn lemma_methods(s: Stream, acc: Seq<(MethodView, Range<usize>)>)
    ensures
        stays(s, methods_rule(s, acc)),
        methods_rule(s, acc) matches Err(f) ==> f.hard,
    decreases s.toks.len(),
{
    lemma_method(s);
    match method_rule(s) {
        Ok((rest, method)) => {
            lemma_methods(rest, acc.push(method));
            match methods_rule(rest, acc.push(method)) {
                Ok((last, _)) => {
                    lemma_suffix_trans(last, rest, s);
                },
                Err(f) => {
                    lemma_within_trans(f.tree, rest, s);
                },
            }
        },
        Err(_) => {},
    }
}

/// A class holds at least one token, and its failure speaks of places in the
/// stream only.
pub proof fn lemma_class(s: Stream)
    ensures
        advances(s, class_rule(s)),
{
    if !s.front_is(TokenView::K(Keyword::Class)) {
        lemma_labelled_at(s, "tag class"@, mismatch(s), s);
    } else {
        lemma_step(s);
        let r0 = s.suffix(1);
        lemma_ident(r0);
        match ident_rule(r0) {
            Err(f) => {
                lemma_within_trans(f.tree, r0, s);
                lemma_labelled_at(r0, "class name"@, f, s);
            },
            Ok((r1, name)) => {
                lemma_suffix_trans(r1, r0, s);
                if !r1.front_is(TokenView::Separator('{')) {
                    lemma_labelled_at(r1, "Opening brack"@, mismatch(r1), s);
                } else {
                    lemma_step(r1);
                    let r1b = r1.suffix(1);
                    lemma_suffix_trans(r1b, r1, s);
                    lemma_attributes(r1b, Seq::empty());
                    match attributes_rule(r1b, Seq::empty()) {
                        Err(f) => {
                            lemma_within_trans(f.tree, r1b, s);
                        },
                        Ok((r2, attributes)) => {
                            lemma_suffix_trans(r2, r1b, s);
                            lemma_methods(r2, Seq::empty());
                            match methods_rule(r2, Seq::empty()) {
                                Err(f) => {
                                    lemma_within_trans(f.tree, r2, s);
                                },
                                Ok((r3, methods)) => {
                                    lemma_suffix_trans(r3, r2, s);
                                    if r3.front_is(TokenView::Separator('}')) {
                                        lemma_step(r3);
                                        lemma_suffix_trans(r3.suffix(1), r3, s);
                                    } else {
                                        lemma_labelled_at(r3, "Closing brack"@, mismatch(r3), s);
                                    }
                                },
                            }
                        },
                    }
                }
            },
        }
    }
}

/// An annotated block holds at least one token, and its failure speaks of places
/// in the stream only.
pub proof fn lemma_annotation_block(s: Stream)
    ensures
        advances(s, annotation_entrypoint_rule(s)),
        advances(s, annotation_block_rule(s)),
{
    if s.front_is(TokenView::A(Annotation::SequenceEntrypoint)) {
        lemma_step(s);
        lemma_func_call(s.suffix(1));
        match func_call_rule(s.suffix(1)) {
            Err(f) => {
                lemma_within_trans(f.tree, s.suffix(1), s);
            },
            Ok((rest, function)) => {
                lemma_suffix_trans(rest, s.suffix(1), s);
            },
        }
    } else {
        lemma_labelled_at(s, "tag sequence_entrypoint"@, mismatch(s), s);
    }
}

/// A top-level statement holds at least one token, and its failure speaks of
/// places in the stream only.
pub proof fn lemma_top_level(s: Stream)
    ensures
        advances(s, top_level_rule(s)),
{
    lemma_class(s);
    lemma_annotation_block(s);
}

/// The program rule reads the whole input, and each step of it costs a token:
/// nothing is left of the stream, the statements and diagnostics that were there
/// stay in front, in order, and what is added to them, statements and diagnostics
/// together, is at most as many as the stream has tokens.
pub proof fn lemma_program(
    s: Stream,
    list: Seq<(TopLevelStatementView, Range<usize>)>,
    reports: Seq<Diagnostic>,
)
    ensures
        statements_rule(s, list, reports).rest.toks.len() == 0,
        statements_rule(s, list, reports).rest.is_suffix_of(s),
        list.is_prefix_of(statements_rule(s, list, reports).statements),
        reports.is_prefix_of(statements_rule(s, list, reports).diagnostics),
        statements_rule(s, list, reports).statements.len() + statements_rule(
            s,
            list,
            reports,
        ).diagnostics.len() <= list.len() + reports.len() + s.toks.len(),
    decreases s.toks.len(),
{
    if s.toks.len() > 0 {
        lemma_top_level(s);
        match top_level_rule(s) {
            Ok((rest, statement)) => {
                lemma_program(rest, list.push(statement), reports);
                lemma_suffix_trans(statements_rule(s, list, reports).rest, rest, s);
                assert(list =~= list.push(statement).take(list.len() as int));
            },
            Err(f) => {
                lemma_recovered_advances(f.tree, s);
                let found = recovered(f.tree);
                lemma_program(found.rest, list, reports.push(found.diagnostic));
                lemma_suffix_trans(statements_rule(s, list, reports).rest, found.rest, s);
                assert(reports =~= reports.push(found.diagnostic).take(reports.len() as int));
            },
        }
    }
}

/// Reads the token `token`, if the stream starts with it.
fn tag<'a>(input: Tokens<'a>, token: &Token) -> (r: Option<Tokens<'a>>)
    ensures
        match r {
            Some(rest) => input@.front_is(token@) && rest@ == input@.suffix(1),
            None => !input@.front_is(token@),
        },
{
    if input.compare(token) {
        Some(input.take_split(token.input_len()).0)
    } else {
        None
    }
}

proof fn lemma_views_push<T: View>(items: Seq<Spanned<T>>, item: Spanned<T>)
    ensures
        spanned_views(items.push(item)) == spanned_views(items).push(spanned_view(item)),
        spanned_views(Seq::<Spanned<T>>::empty()) == Seq::<(T::V, Range<usize>)>::empty(),
{
    assert(spanned_views(items.push(item)) =~= spanned_views(items).push(spanned_view(item)));
    assert(spanned_views(Seq::<Spanned<T>>::empty()) =~= Seq::<(T::V, Range<usize>)>::empty());
}

/// `identifier`: reads exactly one identifier token.
pub fn ident<'a>(input: Tokens<'a>) -> (r: TokResult<'a, Spanned<String>>)
    ensures
        agrees(r, ident_rule(input@), |v: Spanned<String>| spanned_view(v)),
{
    if input.input_len() > 0 {
        match &input.tokens[0].token {
            Token::Ident(text) => {
                let (rest, _) = input.take_split(1);
                let span = input.consumed_span(rest.offset);
                return Ok((rest, (text.clone(), span)));
            },
            _ => {},
        }
    }
    Err(Failed::Error(TokError::Base { location: input }))
}

/// `(sep identifier)?`, the identifier being mandatory once `sep` was read.
fn committed_name<'a>(input: Tokens<'a>, sep: char) -> (r: TokResult<'a, Option<Spanned<String>>>)
    ensures
        agrees(
            r,
            committed_name_rule(input@, sep),
            |v: Option<Spanned<String>>| spanned_opt_view(v),
        ),
{
    match tag(input, &Token::Separator(sep)) {
        None => Ok((input, None)),
        Some(rest) => match crate::recovery_err::non_opt(ident(rest)) {
            Ok((rest, name)) => Ok((rest, Some(name))),
            Err(e) => Err(e),
        },
    }
}

/// `attribute`: `identifier (':' identifier)?`.
pub fn attribute<'a>(input: Tokens<'a>) -> (r: TokResult<'a, Spanned<Attribute>>)
    ensures
        agrees(r, attribute_rule(input@), |v: Spanned<Attribute>| spanned_view(v)),
{
    match ident(input) {
        Err(e) => Err(e),
        Ok((rest, name)) => match committed_name(rest, ':') {
            Err(e) => Err(e),
            Ok((rest, ty)) => {
                let span = input.consumed_span(rest.offset);
                Ok((rest, (Attribute { name, ty }, span)))
            },
        },
    }
}

/// `(identifier (',' identifier)*)?`.
fn names<'a>(input: Tokens<'a>) -> (r: (Tokens<'a>, Vec<Spanned<String>>))
    ensures
        (r.0@, spanned_views(r.1@)) == names_rule(input@),
{
    let mut list: Vec<Spanned<String>> = Vec::new();
    let mut cur = input;
    proof {
        lemma_views_push::<String>(list@, arbitrary());
    }
    match ident(cur) {
        Err(_) => {
            return (cur, list);
        },
        Ok((rest, name)) => {
            proof {
                lemma_views_push(list@, name);
            }
            list.push(name);
            cur = rest;
        },
    }
    loop
        invariant
            names_rule(input@) == more_names_rule(cur@, spanned_views(list@)),
        decreases cur@.toks.len(),
    {
        match tag(cur, &Token::Separator(',')) {
            None => {
                return (cur, list);
            },
            Some(after) => match ident(after) {
                Err(_) => {
                    return (cur, list);
                },
                Ok((rest, name)) => {
                    proof {
                        lemma_views_push(list@, name);
                        lemma_step(cur@);
                        lemma_ident(after@);
                    }
                    list.push(name);
                    cur = rest;
                },
            },
        }
    }
}

/// `(attribute (',' attribute)*)?`.
fn parameters<'a>(input: Tokens<'a>) -> (r: TokResult<'a, Vec<Spanned<Attribute>>>)
    ensures
        agrees(r, parameters_rule(input@), |v: Vec<Spanned<Attribute>>| spanned_views(v@)),
{
    let mut list: Vec<Spanned<Attribute>> = Vec::new();
    let mut cur = input;
    proof {
        lemma_views_push::<Attribute>(list@, arbitrary());
    }
    match attribute(cur) {
        Err(Failed::Error(_)) => {
            return Ok((cur, list));
        },
        Err(e) => {
            return Err(e);
        },
        Ok((rest, item)) => {
            proof {
                lemma_views_push(list@, item);
            }
            list.push(item);
            cur = rest;
        },
    }
    loop
        invariant
            parameters_rule(input@) == more_parameters_rule(cur@, spanned_views(list@)),
        decreases cur@.toks.len(),
    {
        match tag(cur, &Token::Separator(',')) {
            None => {
                return Ok((cur, list));
            },
            Some(after) => match attribute(after) {
                Err(Failed::Error(_)) => {
                    return Ok((cur, list));
                },
                Err(e) => {
                    return Err(e);
                },
                Ok((rest, item)) => {
                    proof {
                        lemma_views_push(list@, item);
                        lemma_step(cur@);
                        lemma_attribute(after@);
                    }
                    list.push(item);
                    cur = rest;
                },
            },
        }
    }
}

/// `func_call`: `identifier ('.' identifier)? '(' (identifier (',' identifier)*)? ')'`.
pub fn func_call<'a>(input: Tokens<'a>) -> (r: TokResult<'a, Spanned<FuncCall>>)
    ensures
        agrees(r, func_call_rule(input@), |v: Spanned<FuncCall>| spanned_view(v)),
{
    match ident(input) {
        Err(e) => Err(e),
        Ok((rest, root)) => match committed_name(rest, '.') {
            Err(e) => Err(e),
            Ok((rest, access)) => match tag(rest, &Token::Separator('(')) {
                None => Err(Failed::Error(TokError::Base { location: rest })),
                Some(inner) => {
                    let (rest, args) = names(inner);
                    match tag(rest, &Token::Separator(')')) {
                        None => Err(Failed::Error(TokError::Base { location: rest })),
                        Some(rest) => {
                            let span = input.consumed_span(rest.offset);
                            Ok((rest, (FuncCall { root, access, args }, span)))
                        },
                    }
                },
            },
        },
    }
}

/// `(identifier (':' identifier)? '=')?`: the target of an assignment.
fn target<'a>(input: Tokens<'a>) -> (r: Option<
    (Tokens<'a>, (Spanned<String>, Option<Spanned<String>>)),
>)
    ensures
        match r {
            Some((rest, (name, ty))) => target_rule(input@) == Some(
                (rest@, (spanned_view(name), spanned_opt_view(ty))),
            ),
            None => target_rule(input@) is None,
        },
{
    match ident(input) {
        Err(_) => None,
        Ok((after_name, name)) => {
            let (after_type, ty) = match tag(after_name, &Token::Separator(':')) {
                None => (after_name, None),
                Some(rest) => match ident(rest) {
                    Ok((rest, ty)) => (rest, Some(ty)),
                    Err(_) => (after_name, None),
                },
            };
            match tag(after_type, &Token::Op(String::from_str("="))) {
                None => None,
                Some(rest) => Some((rest, (name, ty))),
            }
        },
    }
}

/// A statement of a method body: `(identifier (':' identifier)? '=')? func_call`.
fn body_statement<'a>(input: Tokens<'a>) -> (r: TokResult<'a, Spanned<Expr>>)
    ensures
        agrees(r, body_statement_rule(input@), |v: Spanned<Expr>| spanned_view(v)),
{
    match target(input) {
        Some((start, (name, ty))) => match func_call(start) {
            Err(e) => Err(e),
            Ok((rest, (call, call_span))) => {
                let span = input.consumed_span(rest.offset);
                let ghost call_view = call@;
                let expr = (Expr::FuncCall(Box::new(call)), call_span);
                assert(expr.0@ == ExprView::FuncCall(call_view));
                let out = Expr::Assignment(Box::new(Assignment { ty, name, expr }));
                assert(out@ == ExprView::Assignment(
                    Box::new(
                        AssignmentView {
                            ty: spanned_opt_view(ty),
                            name: spanned_view(name),
                            expr: (ExprView::FuncCall(call_view), call_span),
                        },
                    ),
                ));
                Ok((rest, (out, span)))
            },
        },
        None => match func_call(input) {
            Err(e) => Err(e),
            Ok((rest, (call, _))) => {
                let span = input.consumed_span(rest.offset);
                Ok((rest, (Expr::FuncCall(Box::new(call)), span)))
            },
        },
    }
}

/// `method_body`: zero or more statements, as one list expression.
pub fn method_body<'a>(input: Tokens<'a>) -> (r: TokResult<'a, Spanned<Expr>>)
    ensures
        agrees(r, method_body_rule(input@), |v: Spanned<Expr>| spanned_view(v)),
{
    let mut list: Vec<Spanned<Expr>> = Vec::new();
    let mut cur = input;
    proof {
        lemma_views_push::<Expr>(list@, arbitrary());
    }
    loop
        invariant
            body_statements_rule(input@, Seq::empty()) == body_statements_rule(
                cur@,
                spanned_views(list@),
            ),
        decreases cur@.toks.len(),
    {
        match body_statement(cur) {
            Err(Failed::Error(_)) => {
                proof {
                    lemma_expr_list_view(list);
                }
                let span = input.consumed_span(cur.offset);
                return Ok((cur, (Expr::ExprList(list), span)));
            },
            Err(e) => {
                return Err(e);
            },
            Ok((rest, statement)) => {
                proof {
                    lemma_views_push(list@, statement);
                    lemma_body_statement(cur@);
                }
                list.push(statement);
                cur = rest;
            },
        }
    }
}

/// `('{' method_body '}')?`, body and closing brace being mandatory once the
/// opening brace was read.
fn body_block<'a>(input: Tokens<'a>) -> (r: TokResult<'a, Option<Spanned<Expr>>>)
    ensures
        agrees(r, body_block_rule(input@), |v: Option<Spanned<Expr>>| spanned_opt_view(v)),
{
    match tag(input, &Token::Separator('{')) {
        None => Ok((input, None)),
        Some(inner) => match crate::recovery_err::non_opt(method_body(inner)) {
            Err(e) => Err(e),
            Ok((rest, body)) => match tag(rest, &Token::Separator('}')) {
                None => Err(Failed::Failure(TokError::Base { location: rest })),
                Some(rest) => Ok((rest, Some(body))),
            },
        },
    }
}

/// `method`: `'fn' identifier '(' (attribute (',' attribute)*)? ')' (':' identifier)?
/// ('{' method_body '}')?`.
pub fn method_definition<'a>(input: Tokens<'a>) -> (r: TokResult<'a, Spanned<Method>>)
    ensures
        agrees(r, method_rule(input@), |v: Spanned<Method>| spanned_view(v)),
{
    let after_fn = match tag(input, &Token::K(Keyword::Fn)) {
        None => {
            return Err(Failed::Error(TokError::Base { location: input }));
        },
        Some(rest) => rest,
    };
    let (after_name, name) = match ident(after_fn) {
        Err(e) => {
            return Err(e);
        },
        Ok(r) => r,
    };
    let inner = match tag(after_name, &Token::Separator('(')) {
        None => {
            return Err(Failed::Error(TokError::Base { location: after_name }));
        },
        Some(rest) => rest,
    };
    let (after_list, parameters) = match parameters(inner) {
        Err(e) => {
            return Err(e);
        },
        Ok(r) => r,
    };
    let after_paren = match tag(after_list, &Token::Separator(')')) {
        None => {
            return Err(Failed::Error(TokError::Base { location: after_list }));
        },
        Some(rest) => rest,
    };
    let (after_type, ret_type) = match committed_name(after_paren, ':') {
        Err(e) => {
            return Err(e);
        },
        Ok(r) => r,
    };
    let (rest, body) = match body_block(after_type) {
        Err(e) => {
            return Err(e);
        },
        Ok(r) => r,
    };
    let span = input.consumed_span(rest.offset);
    Ok((rest, (Method { name, parameters, ret_type, body }, span)))
}

/// The failure `failed` of a rule that began at `at`, with the label of that rule.
fn with_context<'a>(at: Tokens<'a>, label: &'static str, failed: Failed<'a>) -> (r: Failed<'a>)
    ensures
        r@ == labelled_at(at@, label@, failed@),
{
    match failed {
        Failed::Error(tree) => Failed::Error(add_context(at, label, tree)),
        Failed::Failure(tree) => Failed::Failure(add_context(at, label, tree)),
    }
}

fn add_context<'a>(at: Tokens<'a>, label: &'static str, tree: TokError<'a>) -> (r: TokError<'a>)
    ensures
        r@ == labelled_at(at@, label@, Fail { hard: false, tree: tree@ }).tree,
{
    match tree {
        TokError::Stack { base, contexts } => {
            let mut contexts = contexts;
            let ghost before = contexts@;
            contexts.push((at, label));
            let out = TokError::Stack { base, contexts };
            assert(out@->Stack_contexts =~= tree@->Stack_contexts.push((at@, label@)));
            out
        },
        other => {
            let mut contexts: Vec<(Tokens<'a>, &'static str)> = Vec::new();
            contexts.push((at, label));
            let out = TokError::Stack { base: Box::new(other), contexts };
            assert(out@->Stack_contexts =~= seq![(at@, label@)]);
            out
        },
    }
}

/// `attribute*`.
fn attributes<'a>(input: Tokens<'a>) -> (r: TokResult<'a, Vec<Spanned<Attribute>>>)
    ensures
        agrees(
            r,
            attributes_rule(input@, Seq::empty()),
            |v: Vec<Spanned<Attribute>>| spanned_views(v@),
        ),
{
    let mut list: Vec<Spanned<Attribute>> = Vec::new();
    let mut cur = input;
    proof {
        lemma_views_push::<Attribute>(list@, arbitrary());
    }
    loop
        invariant
            attributes_rule(input@, Seq::empty()) == attributes_rule(cur@, spanned_views(list@)),
        decreases cur@.toks.len(),
    {
        match attribute(cur) {
            Err(Failed::Error(_)) => {
                return Ok((cur, list));
            },
            Err(e) => {
                return Err(e);
            },
            Ok((rest, item)) => {
                proof {
                    lemma_views_push(list@, item);
                    lemma_attribute(cur@);
                }
                list.push(item);
                cur = rest;
            },
        }
    }
}

/// `method*`.
fn methods<'a>(input: Tokens<'a>) -> (r: TokResult<'a, Vec<Spanned<Method>>>)
    ensures
        agrees(r, methods_rule(input@, Seq::empty()), |v: Vec<Spanned<Method>>| spanned_views(v@)),
{
    let mut list: Vec<Spanned<Method>> = Vec::new();
    let mut cur = input;
    proof {
        lemma_views_push::<Method>(list@, arbitrary());
    }
    loop
        invariant
            methods_rule(input@, Seq::empty()) == methods_rule(cur@, spanned_views(list@)),
        decreases cur@.toks.len(),
    {
        match method_definition(cur) {
            Err(Failed::Error(_)) => {
                return Ok((cur, list));
            },
            Err(e) => {
                return Err(e);
            },
            Ok((rest, item)) => {
                proof {
                    lemma_views_push(list@, item);
                    lemma_method(cur@);
                }
                list.push(item);
                cur = rest;
            },
        }
    }
}

/// `class`: `'class' identifier '{' attribute* method* '}'`.
pub fn class_definition<'a>(input: Tokens<'a>) -> (r: TokResult<'a, Spanned<Class>>)
    ensures
        agrees(r, class_rule(input@), |v: Spanned<Class>| spanned_view(v)),
{
    let after_class = match tag(input, &Token::K(Keyword::Class)) {
        None => {
            let base = Failed::Error(TokError::Base { location: input });
            return Err(with_context(input, "tag class", base));
        },
        Some(rest) => rest,
    };
    let (after_name, name) = match ident(after_class) {
        Err(e) => {
            return Err(with_context(after_class, "class name", e));
        },
        Ok(r) => r,
    };
    let inner = match tag(after_name, &Token::Separator('{')) {
        None => {
            let base = Failed::Error(TokError::Base { location: after_name });
            return Err(with_context(after_name, "Opening brack", base));
        },
        Some(rest) => rest,
    };
    let (after_attributes, attributes) = match attributes(inner) {
        Err(e) => {
            return Err(e);
        },
        Ok(r) => r,
    };
    let (after_methods, methods) = match methods(after_attributes) {
        Err(e) => {
            return Err(e);
        },
        Ok(r) => r,
    };
    let rest = match tag(after_methods, &Token::Separator('}')) {
        None => {
            let base = Failed::Error(TokError::Base { location: after_methods });
            return Err(with_context(after_methods, "Closing brack", base));
        },
        Some(rest) => rest,
    };
    let span = input.consumed_span(rest.offset);
    Ok((rest, (Class { name, attributes, methods }, span)))
}

/// The sequence entry point: `'@SequenceEntrypoint' func_call`.
pub fn annotation_entrypoint<'a>(input: Tokens<'a>) -> (r: TokResult<
    'a,
    Spanned<SequenceEntrypointBlock>,
>)
    ensures
        agrees(
            r,
            annotation_entrypoint_rule(input@),
            |v: Spanned<SequenceEntrypointBlock>| spanned_view(v),
        ),
{
    match tag(input, &Token::A(Annotation::SequenceEntrypoint)) {
        None => {
            let base = Failed::Error(TokError::Base { location: input });
            Err(with_context(input, "tag sequence_entrypoint", base))
        },
        Some(rest) => match func_call(rest) {
            Err(e) => Err(e),
            Ok((rest, function)) => {
                let span = input.consumed_span(rest.offset);
                Ok((rest, (SequenceEntrypointBlock { function }, span)))
            },
        },
    }
}

/// `annotation_block`: the choice among the annotations, of which there is one.
pub fn annotation_block<'a>(input: Tokens<'a>) -> (r: TokResult<'a, Spanned<AnnotatedBlock>>)
    ensures
        agrees(r, annotation_block_rule(input@), |v: Spanned<AnnotatedBlock>| spanned_view(v)),
{
    match annotation_entrypoint(input) {
        Err(e) => Err(e),
        Ok((rest, (block, span))) => Ok((rest, (AnnotatedBlock::SequenceEntrypoint(block), span))),
    }
}

/// `top_level_statement`: `class | annotation_block`, the class first.
pub fn top_level_statement<'a>(input: Tokens<'a>) -> (r: TokResult<'a, Spanned<TopLevelStatement>>)
    ensures
        agrees(r, top_level_rule(input@), |v: Spanned<TopLevelStatement>| spanned_view(v)),
{
    match class_definition(input) {
        Ok((rest, (class, span))) => Ok((rest, (TopLevelStatement::Class(class), span))),
        Err(Failed::Failure(e)) => Err(Failed::Failure(e)),
        Err(Failed::Error(first)) => match annotation_block(input) {
            Ok((rest, (block, span))) => Ok((rest, (TopLevelStatement::AnnotatedBlock(block), span))),
            Err(Failed::Failure(e)) => Err(Failed::Failure(e)),
            Err(Failed::Error(second)) => {
                let mut branches: Vec<TokError<'a>> = Vec::new();
                branches.push(first);
                branches.push(second);
                let out = TokError::Alt(branches);
                assert(out@->Alt_0 =~= seq![first@, second@]);
                Err(Failed::Error(out))
            },
        },
    }
}

/// `program`: reads top-level statements up to the end of the input.
///
/// A statement that cannot be read is left out of the list.  One diagnostic is
/// reported for it: the label of the failure where it carries one, and else that
/// the token at its first mismatch was not expected.  Reading resumes where
/// recovery says, which is always further on, so the list is always produced.
pub fn statements<'a>(input: Tokens<'a>, state: &mut ParseState) -> (r: (
    Tokens<'a>,
    Spanned<Result<Vec<Spanned<TopLevelStatement>>, ParserError>>,
))
    requires
        input@.bounded(),
    ensures
        r.0@ == statements_rule(input@, Seq::empty(), Seq::empty()).rest,
        r.0@.toks.len() == 0,
        r.1.0 matches Ok(list) && spanned_views(list@) == statements_rule(
            input@,
            Seq::empty(),
            Seq::empty(),
        ).statements,
        r.1.1 == input@.consumed_span(r.0.offset),
        final(state)@ == old(state)@ + statements_rule(
            input@,
            Seq::empty(),
            Seq::empty(),
        ).diagnostics,
{
    let mut list: Vec<Spanned<TopLevelStatement>> = Vec::new();
    let mut cur = input;
    let ghost mut reports: Seq<Diagnostic> = Seq::empty();
    proof {
        lemma_views_push::<TopLevelStatement>(list@, arbitrary());
        assert(state@ =~= old(state)@ + reports);
    }
    while cur.input_len() > 0
        invariant
            input@.bounded(),
            cur@.is_suffix_of(input@),
            statements_rule(input@, Seq::empty(), Seq::empty()) == statements_rule(
                cur@,
                spanned_views(list@),
                reports,
            ),
            state@ == old(state)@ + reports,
        decreases cur@.toks.len(),
    {
        proof {
            lemma_top_level(cur@);
        }
        let read = match top_level_statement(cur) {
            Ok((rest, (statement, span))) => Ok((rest, (Ok(statement), span))),
            Err(e) => {
                proof {
                    lemma_within_trans(e@.tree, cur@, input@);
                }
                Err(e)
            },
        };
        let ghost tree = read->Err_0@.tree;
        proof {
            if read is Err {
                lemma_recovered_advances(tree, cur@);
                lemma_suffix_trans(recovered(tree).rest, cur@, input@);
            }
        }
        match expression_recovery(read, state) {
            Ok((rest, (Ok(statement), span))) => {
                proof {
                    lemma_views_push(list@, (statement, span));
                    lemma_suffix_trans(rest@, cur@, input@);
                }
                list.push((statement, span));
                cur = rest;
            },
            Ok((rest, (Err(_), _))) => {
                proof {
                    let found = recovered(tree).diagnostic;
                    assert(old(state)@ + reports.push(found) =~= (old(state)@ + reports).push(found));
                    reports = reports.push(found);
                }
                cur = rest;
            },
            Err(failed) => {
                let unlabelled = match failed {
                    Failed::Error(e) => e,
                    Failed::Failure(e) => e,
                };
                proof {
                    lemma_first_location(tree, input@);
                }
                let (rest, _) = skip_unexpected(&unlabelled, state);
                proof {
                    let found = recovered(tree).diagnostic;
                    assert(old(state)@ + reports.push(found) =~= (old(state)@ + reports).push(found));
                    reports = reports.push(found);
                }
                cur = rest;
            },
        }
    }
    let span = input.consumed_span(cur.offset);
    (cur, (Ok(list), span))
}

} // verus!
