//! A resilient front end for a small class-definition language.
//!
//! Source text is turned into a sequence of spanned tokens, and the tokens into a
//! program tree together with a list of diagnostics.  A syntax error never aborts
//! the parse: the failed construct is reported, the token stream is brought back
//! to a statement boundary, and parsing goes on.

use vstd::prelude::*;
use std::ops::Range;
use crate::lexer::{lemma_tokens_ascend, lex, lexed, reported, scan};
use crate::parser::{parse_rule, token_parse, tree_view};
use crate::recovery_err::{Diagnostic, ParseState, RecoveredError};
use crate::token::Spanned;

pub mod clean_ast;
pub mod lexer;
pub mod parser;
pub mod recovery_err;
pub mod token;

verus! {

/// The mark left where a construct could not be parsed.
#[derive(Clone, Copy, Debug, PartialEq, Eq, Structural)]
pub struct ParserError;

/// The closed set of annotation tags that may open a top-level block.
#[derive(Clone, Copy, Debug, PartialEq, Eq, Hash, Structural)]
pub enum Annotation {
    SequenceEntrypoint,
}

/// A call `root(args)` or `root.access(args)`.
#[derive(Debug, PartialEq)]
pub struct FuncCall {
    pub root: Spanned<String>,
    pub access: Option<Spanned<String>>,
    pub args: Vec<Spanned<String>>,
}

/// A statement `name = call` or `name: ty = call`.
#[derive(Debug, PartialEq)]
pub struct Assignment {
    pub ty: Option<Spanned<String>>,
    pub name: Spanned<String>,
    pub expr: Spanned<Expr>,
}

/// An expression of a method body.
#[derive(Debug, PartialEq)]
pub enum Expr {
    FuncCall(Box<FuncCall>),
    Assignment(Box<Assignment>),
    ExprList(Vec<Spanned<Expr>>),
    /// Stands where an expression could not be parsed.
    Error,
}

/// A statement at the top level of a program.
#[derive(Debug, PartialEq)]
pub enum TopLevelStatement {
    Class(Class),
    AnnotatedBlock(AnnotatedBlock),
}

/// A class definition.
#[derive(Debug, PartialEq)]
pub struct Class {
    pub name: Spanned<String>,
    pub attributes: Vec<Spanned<Attribute>>,
    pub methods: Vec<Spanned<Method>>,
}

/// The block behind a sequence entry point annotation: the call that starts the program.
#[derive(Debug, PartialEq)]
pub struct SequenceEntrypointBlock {
    pub function: Spanned<FuncCall>,
}

/// An annotation together with what it annotates.
#[derive(Debug, PartialEq)]
pub enum AnnotatedBlock {
    SequenceEntrypoint(SequenceEntrypointBlock),
}

/// A method of a class.  `body` is `None` where no braces were written.
#[derive(Debug, PartialEq)]
pub struct Method {
    pub name: Spanned<String>,
    pub parameters: Vec<Spanned<Attribute>>,
    pub ret_type: Option<Spanned<String>>,
    pub body: Option<Spanned<Expr>>,
}

/// An attribute of a class, or a parameter of a method.
#[derive(Debug, PartialEq)]
pub struct Attribute {
    pub name: Spanned<String>,
    pub ty: Option<Spanned<String>>,
}

/// The value of a spanned item: the value of the item, and its span.
pub open spec fn spanned_view<T: View>(item: Spanned<T>) -> (T::V, Range<usize>) {
    (item.0@, item.1)
}

/// The value of an optional spanned item.
pub open spec fn spanned_opt_view<T: View>(item: Option<Spanned<T>>) -> Option<(T::V, Range<usize>)> {
    match item {
        Some(item) => Some(spanned_view(item)),
        None => None,
    }
}

/// The values of a sequence of spanned items, in order.
pub open spec fn spanned_views<T: View>(items: Seq<Spanned<T>>) -> Seq<(T::V, Range<usize>)> {
    items.map_values(|item: Spanned<T>| spanned_view(item))
}

/// A name in the program tree: its text and its span.
pub type NameView = (Seq<char>, Range<usize>);

/// The mathematical value of a [`FuncCall`].
pub struct FuncCallView {
    pub root: NameView,
    pub access: Option<NameView>,
    pub args: Seq<NameView>,
}

/// The mathematical value of an [`Assignment`].
pub struct AssignmentView {
    pub ty: Option<NameView>,
    pub name: NameView,
    pub expr: (ExprView, Range<usize>),
}

/// The mathematical value of an [`Expr`].
pub enum ExprView {
    FuncCall(FuncCallView),
    Assignment(Box<AssignmentView>),
    ExprList(Seq<(ExprView, Range<usize>)>),
    Error,
}

/// The mathematical value of an [`Attribute`].
pub struct AttributeView {
    pub name: NameView,
    pub ty: Option<NameView>,
}

/// The mathematical value of a [`Method`].
pub struct MethodView {
    pub name: NameView,
    pub parameters: Seq<(AttributeView, Range<usize>)>,
    pub ret_type: Option<NameView>,
    pub body: Option<(ExprView, Range<usize>)>,
}

/// The mathematical value of a [`Class`].
pub struct ClassView {
    pub name: NameView,
    pub attributes: Seq<(AttributeView, Range<usize>)>,
    pub methods: Seq<(MethodView, Range<usize>)>,
}

/// The mathematical value of a [`SequenceEntrypointBlock`].
pub struct SequenceEntrypointBlockView {
    pub function: (FuncCallView, Range<usize>),
}

/// The mathematical value of an [`AnnotatedBlock`].
pub enum AnnotatedBlockView {
    SequenceEntrypoint(SequenceEntrypointBlockView),
}

/// The mathematical value of a [`TopLevelStatement`].
pub enum TopLevelStatementView {
    Class(ClassView),
    AnnotatedBlock(AnnotatedBlockView),
}

impl View for FuncCall {
    type V = FuncCallView;

    open spec fn view(&self) -> FuncCallView {
        FuncCallView {
            root: spanned_view(self.root),
            access: spanned_opt_view(self.access),
            args: spanned_views(self.args@),
        }
    }
}

impl Expr {
    /// The value of the expression.
    pub open spec fn model(self) -> ExprView
        decreases self,
    {
        match self {
            Expr::FuncCall(call) => ExprView::FuncCall(call@),
            Expr::Assignment(assignment) => ExprView::Assignment(
                Box::new(
                    AssignmentView {
                        ty: spanned_opt_view(assignment.ty),
                        name: spanned_view(assignment.name),
                        expr: (assignment.expr.0.model(), assignment.expr.1),
                    },
                ),
            ),
            Expr::ExprList(list) => ExprView::ExprList(
                Seq::new(
                    list@.len(),
                    |i: int|
                        if 0 <= i < list@.len() {
                            (list@[i].0.model(), list@[i].1)
                        } else {
                            (ExprView::Error, Range { start: 0, end: 0 })
                        },
                ),
            ),
            Expr::Error => ExprView::Error,
        }
    }
}

/// The value of a list expression is the list of the values of its items.
pub proof fn lemma_expr_list_view(list: Vec<Spanned<Expr>>)
    ensures
        Expr::ExprList(list)@ == ExprView::ExprList(spanned_views(list@)),
{
    assert(Expr::ExprList(list)@->ExprList_0 =~= spanned_views(list@));
}

impl View for Expr {
    type V = ExprView;

    open spec fn view(&self) -> ExprView {
        self.model()
    }
}

impl View for Assignment {
    type V = AssignmentView;

    open spec fn view(&self) -> AssignmentView {
        AssignmentView {
            ty: spanned_opt_view(self.ty),
            name: spanned_view(self.name),
            expr: spanned_view(self.expr),
        }
    }
}

impl View for Attribute {
    type V = AttributeView;

    open spec fn view(&self) -> AttributeView {
        AttributeView { name: spanned_view(self.name), ty: spanned_opt_view(self.ty) }
    }
}

impl View for Method {
    type V = MethodView;

    open spec fn view(&self) -> MethodView {
        MethodView {
            name: spanned_view(self.name),
            parameters: spanned_views(self.parameters@),
            ret_type: spanned_opt_view(self.ret_type),
            body: spanned_opt_view(self.body),
        }
    }
}

impl View for Class {
    type V = ClassView;

    open spec fn view(&self) -> ClassView {
        ClassView {
            name: spanned_view(self.name),
            attributes: spanned_views(self.attributes@),
            methods: spanned_views(self.methods@),
        }
    }
}

impl View for SequenceEntrypointBlock {
    type V = SequenceEntrypointBlockView;

    open spec fn view(&self) -> SequenceEntrypointBlockView {
        SequenceEntrypointBlockView { function: spanned_view(self.function) }
    }
}

impl View for AnnotatedBlock {
    type V = AnnotatedBlockView;

    open spec fn view(&self) -> AnnotatedBlockView {
        match self {
            AnnotatedBlock::SequenceEntrypoint(block) => AnnotatedBlockView::SequenceEntrypoint(
                block@,
            ),
        }
    }
}

impl View for TopLevelStatement {
    type V = TopLevelStatementView;

    open spec fn view(&self) -> TopLevelStatementView {
        match self {
            TopLevelStatement::Class(class) => TopLevelStatementView::Class(class@),
            TopLevelStatement::AnnotatedBlock(block) => TopLevelStatementView::AnnotatedBlock(block@),
        }
    }
}

/// The values of a list of diagnostics, in order.
pub open spec fn diagnostics_view(list: Seq<RecoveredError>) -> Seq<Diagnostic> {
    list.map_values(|e: RecoveredError| e@)
}

/// Lexes and parses `input`, and returns the program tree with its span, and the
/// diagnostics: those of the lexer first, then those of the parser, each in the
/// order of the text.
///
/// The tree is always `Ok`.  It lists the top-level statements that could be
/// read; each one that could not has its diagnostic.  A text without a token is
/// the empty program, which is no error.
pub fn tokenize(input: &str) -> (r: (
    Spanned<Result<Vec<Spanned<TopLevelStatement>>, ParserError>>,
    Vec<RecoveredError>,
))
    requires
        input@.len() < usize::MAX,
    ensures
        tree_view(r.0.0) == parse_rule(lexed(input@)).tree,
        r.0.1 == parse_rule(lexed(input@)).span,
        diagnostics_view(r.1@) == reported(scan(input@)) + parse_rule(lexed(input@)).diagnostics,
        r.0.0 is Ok,
{
    let mut state = ParseState::new();
    let tokens = lex(input, &mut state);
    proof {
        lemma_tokens_ascend(input@);
        assert(state@ =~= reported(scan(input@)));
    }
    let tree = token_parse(tokens, &mut state);
    (tree, state.0)
}

} // verus!
