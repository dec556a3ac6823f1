//! The program tree without its spans, as the diagram generators take it.

use vstd::prelude::*;
use std::ops::Range;
use crate::token::Spanned;
use crate::{
    lemma_expr_list_view, spanned_views, AnnotatedBlockView, Annotation, AttributeView, ClassView,
    Expr as ParserExpr, ExprView, MethodView, NameView, TopLevelStatementView,
};
use crate::AnnotatedBlock as ParserAnnotatedBlock;
use crate::Assignment as ParserAssignment;
use crate::Attribute as ParserAttribute;
use crate::Class as ParserClass;
use crate::FuncCall as ParserFuncCall;
use crate::Method as ParserMethod;
use crate::SequenceEntrypointBlock;
use crate::TopLevelStatement as ParserTopLevelStatement;

verus! {

/// A statement of a method body.
#[derive(Debug, PartialEq)]
pub enum Statement {
    Assignment { name: String, expr: Vec<Statement> },
    FuncCall { root: String, access: Option<String>, args: Vec<String> },
}

/// A method of a class; a method without a body has no statements.
#[derive(Debug, PartialEq)]
pub struct Method {
    pub name: String,
    pub parameters: Vec<Attribute>,
    pub ret_type: Option<String>,
    pub body: Vec<Statement>,
}

/// A class.
#[derive(Debug, PartialEq)]
pub struct Class {
    pub name: String,
    pub attributes: Vec<Attribute>,
    pub methods: Vec<Method>,
}

/// An annotation with the expressions it annotates.
#[derive(Debug, PartialEq)]
pub struct AnnotatedBlock {
    pub annotation: Annotation,
    pub elements: Vec<ParserExpr>,
}

/// A statement at the top level of a program.
#[derive(Debug, PartialEq)]
pub enum TopLevelStatement {
    Class(Class),
    AnnotatedBlock(AnnotatedBlock),
}

/// An attribute of a class, or a parameter of a method.
#[derive(Debug, PartialEq)]
pub struct Attribute {
    pub name: String,
    pub ty: Option<String>,
}

/// The mathematical value of a [`Statement`].
pub enum StatementView {
    Assignment { name: Seq<char>, expr: Seq<StatementView> },
    FuncCall { root: Seq<char>, access: Option<Seq<char>>, args: Seq<Seq<char>> },
}

/// The mathematical value of an [`Attribute`].
pub struct PlainAttribute {
    pub name: Seq<char>,
    pub ty: Option<Seq<char>>,
}

/// The mathematical value of a [`Method`].
pub struct PlainMethod {
    pub name: Seq<char>,
    pub parameters: Seq<PlainAttribute>,
    pub ret_type: Option<Seq<char>>,
    pub body: Seq<StatementView>,
}

/// The mathematical value of a [`Class`].
pub struct PlainClass {
    pub name: Seq<char>,
    pub attributes: Seq<PlainAttribute>,
    pub methods: Seq<PlainMethod>,
}

/// The mathematical value of an [`AnnotatedBlock`].
pub struct PlainBlock {
    pub annotation: Annotation,
    pub elements: Seq<ExprView>,
}

/// The mathematical value of a [`TopLevelStatement`].
pub enum PlainStatement {
    Class(PlainClass),
    AnnotatedBlock(PlainBlock),
}

impl Statement {
    /// The value of the statement.
    pub open spec fn model(self) -> StatementView
        decreases self,
    {
        match self {
            Statement::Assignment { name, expr } => StatementView::Assignment {
                name: name@,
                expr: Seq::new(
                    expr@.len(),
                    |i: int|
                        if 0 <= i < expr@.len() {
                            expr@[i].model()
                        } else {
                            StatementView::Assignment { name: Seq::empty(), expr: Seq::empty() }
                        },
                ),
            },
            Statement::FuncCall { root, access, args } => StatementView::FuncCall {
                root: root@,
                access: text_opt_view(access),
                args: text_views(args@),
            },
        }
    }
}

impl View for Statement {
    type V = StatementView;

    open spec fn view(&self) -> StatementView {
        self.model()
    }
}

/// The value of an optional text.
pub open spec fn text_opt_view(text: Option<String>) -> Option<Seq<char>> {
    match text {
        Some(text) => Some(text@),
        None => None,
    }
}

/// The values of a sequence of texts.
pub open spec fn text_views(texts: Seq<String>) -> Seq<Seq<char>> {
    texts.map_values(|text: String| text@)
}

/// The values of a sequence of items.
pub open spec fn item_views<T: View>(items: Seq<T>) -> Seq<T::V> {
    items.map_values(|item: T| item@)
}

impl View for Attribute {
    type V = PlainAttribute;

    open spec fn view(&self) -> PlainAttribute {
        PlainAttribute { name: self.name@, ty: text_opt_view(self.ty) }
    }
}

impl View for Method {
    type V = PlainMethod;

    open spec fn view(&self) -> PlainMethod {
        PlainMethod {
            name: self.name@,
            parameters: item_views(self.parameters@),
            ret_type: text_opt_view(self.ret_type),
            body: item_views(self.body@),
        }
    }
}

impl View for Class {
    type V = PlainClass;

    open spec fn view(&self) -> PlainClass {
        PlainClass {
            name: self.name@,
            attributes: item_views(self.attributes@),
            methods: item_views(self.methods@),
        }
    }
}

impl View for AnnotatedBlock {
    type V = PlainBlock;

    open spec fn view(&self) -> PlainBlock {
        PlainBlock { annotation: self.annotation, elements: item_views(self.elements@) }
    }
}

impl View for TopLevelStatement {
    type V = PlainStatement;

    open spec fn view(&self) -> PlainStatement {
        match self {
            TopLevelStatement::Class(class) => PlainStatement::Class(class@),
            TopLevelStatement::AnnotatedBlock(block) => PlainStatement::AnnotatedBlock(block@),
        }
    }
}

/// A name without its span.
pub open spec fn plain_name(name: NameView) -> Seq<char> {
    name.0
}

/// An optional name without its span.
pub open spec fn plain_opt_name(name: Option<NameView>) -> Option<Seq<char>> {
    match name {
        Some(name) => Some(name.0),
        None => None,
    }
}

/// An attribute without its spans.
pub open spec fn plain_attribute(attribute: AttributeView) -> PlainAttribute {
    PlainAttribute { name: attribute.name.0, ty: plain_opt_name(attribute.ty) }
}

/// Attributes without their spans.
pub open spec fn plain_attributes(attributes: Seq<(AttributeView, Range<usize>)>) -> Seq<
    PlainAttribute,
> {
    attributes.map_values(|a: (AttributeView, Range<usize>)| plain_attribute(a.0))
}

/// The statements of an expression, in order: a call is one statement, an
/// assignment is one statement that holds the statements of what it assigns, a
/// list is the statements of its items one after the other, and the mark of an
/// expression that could not be parsed is no statement.
pub open spec fn plain_statements(expr: ExprView) -> Seq<StatementView>
    decreases expr, 0nat,
{
    match expr {
        ExprView::FuncCall(call) => seq![
            StatementView::FuncCall {
                root: call.root.0,
                access: plain_opt_name(call.access),
                args: call.args.map_values(|name: NameView| name.0),
            },
        ],
        ExprView::Assignment(assignment) => seq![
            StatementView::Assignment {
                name: assignment.name.0,
                expr: plain_statements(assignment.expr.0),
            },
        ],
        ExprView::ExprList(list) => plain_statement_list(list),
        ExprView::Error => Seq::empty(),
    }
}

/// The statements of the expressions of `list`, one after the other.
pub open spec fn plain_statement_list(list: Seq<(ExprView, Range<usize>)>) -> Seq<StatementView>
    decreases list, 1nat,
{
    if list.len() == 0 {
        Seq::empty()
    } else {
        plain_statement_list(list.drop_last()) + plain_statements(list.last().0)
    }
}

/// A method without its spans.
pub open spec fn plain_method(method: MethodView) -> PlainMethod {
    PlainMethod {
        name: method.name.0,
        parameters: plain_attributes(method.parameters),
        ret_type: plain_opt_name(method.ret_type),
        body: match method.body {
            Some(body) => plain_statements(body.0),
            None => Seq::empty(),
        },
    }
}

/// A class without its spans.
pub open spec fn plain_class(class: ClassView) -> PlainClass {
    PlainClass {
        name: class.name.0,
        attributes: plain_attributes(class.attributes),
        methods: class.methods.map_values(|m: (MethodView, Range<usize>)| plain_method(m.0)),
    }
}

/// An annotated block without its spans: the tag, and the expressions it
/// annotates.
pub open spec fn plain_block(block: AnnotatedBlockView) -> PlainBlock {
    match block {
        AnnotatedBlockView::SequenceEntrypoint(entry) => PlainBlock {
            annotation: Annotation::SequenceEntrypoint,
            elements: seq![ExprView::FuncCall(entry.function.0)],
        },
    }
}

/// A top-level statement without its spans.
pub open spec fn plain_statement(statement: TopLevelStatementView) -> PlainStatement {
    match statement {
        TopLevelStatementView::Class(class) => PlainStatement::Class(plain_class(class)),
        TopLevelStatementView::AnnotatedBlock(block) => PlainStatement::AnnotatedBlock(
            plain_block(block),
        ),
    }
}

fn plain_opt(name: Option<Spanned<String>>) -> (r: Option<String>)
    ensures
        text_opt_view(r) == plain_opt_name(crate::spanned_opt_view(name)),
{
    match name {
        Some((text, _)) => Some(text),
        None => None,
    }
}

/// Drops the spans of a top-level statement.
pub fn clean_parser_top_lvl_statement(stmnt: ParserTopLevelStatement) -> (r: TopLevelStatement)
    ensures
        r@ == plain_statement(stmnt@),
{
    match stmnt {
        ParserTopLevelStatement::Class(class) => TopLevelStatement::Class(clean_parser_class(class)),
        ParserTopLevelStatement::AnnotatedBlock(ablock) => TopLevelStatement::AnnotatedBlock(
            clean_parser_annotated_block(ablock),
        ),
    }
}

/// Drops the spans of an annotated block.
pub fn clean_parser_annotated_block(ablock: ParserAnnotatedBlock) -> (r: AnnotatedBlock)
    ensures
        r@ == plain_block(ablock@),
{
    match ablock {
        ParserAnnotatedBlock::SequenceEntrypoint(SequenceEntrypointBlock { function }) => {
            let mut elements: Vec<ParserExpr> = Vec::new();
            elements.push(ParserExpr::FuncCall(Box::new(function.0)));
            let out = AnnotatedBlock { annotation: Annotation::SequenceEntrypoint, elements };
            assert(out@.elements =~= seq![ExprView::FuncCall(function.0@)]);
            out
        },
    }
}

/// Drops the spans of a class.
pub fn clean_parser_class(class: ParserClass) -> (r: Class)
    ensures
        r@ == plain_class(class@),
{
    let ghost given = class@;
    let ParserClass { name, attributes, methods } = class;
    let attributes = clean_attributes(attributes);
    let mut out: Vec<Method> = Vec::new();
    let ghost models = spanned_views(methods@);
    for item in it: methods
        invariant
            it.seq() == methods@,
            out@.len() == it.index(),
            forall|j: int| 0 <= j < it.index() ==> (#[trigger] out@[j])@ == plain_method(methods@[j].0@),
    {
        out.push(clean_parser_method(item.0));
    }
    let r = Class { name: name.0, attributes, methods: out };
    assert(r@.methods =~= plain_class(given).methods);
    r
}

fn clean_attributes(attributes: Vec<Spanned<ParserAttribute>>) -> (r: Vec<Attribute>)
    ensures
        item_views(r@) == plain_attributes(spanned_views(attributes@)),
{
    let mut out: Vec<Attribute> = Vec::new();
    for item in it: attributes
        invariant
            it.seq() == attributes@,
            out@.len() == it.index(),
            forall|j: int|
                0 <= j < it.index() ==> (#[trigger] out@[j])@ == plain_attribute(attributes@[j].0@),
    {
        out.push(clean_parser_attribute(item.0));
    }
    assert(item_views(out@) =~= plain_attributes(spanned_views(attributes@)));
    out
}

/// Drops the spans of an attribute.
pub fn clean_parser_attribute(attribute: ParserAttribute) -> (r: Attribute)
    ensures
        r@ == plain_attribute(attribute@),
{
    let ParserAttribute { name, ty } = attribute;
    Attribute { name: name.0, ty: plain_opt(ty) }
}

/// Drops the spans of a method, and flattens its body into statements.
pub fn clean_parser_method(method: ParserMethod) -> (r: Method)
    ensures
        r@ == plain_method(method@),
{
    let ParserMethod { name, parameters, ret_type, body } = method;
    let parameters = clean_attributes(parameters);
    let ret_type = plain_opt(ret_type);
    let body = match body {
        Some((body, _)) => parserexpr_to_statement(body),
        None => {
            let none: Vec<Statement> = Vec::new();
            assert(item_views(none@) =~= Seq::<StatementView>::empty());
            none
        },
    };
    Method { name: name.0, parameters, ret_type, body }
}

proof fn lemma_statement_views(list: Vec<Statement>, name: String)
    ensures
        (Statement::Assignment { name, expr: list })@ == (StatementView::Assignment {
            name: name@,
            expr: item_views(list@),
        }),
{
    assert((Statement::Assignment { name, expr: list })@->Assignment_expr =~= item_views(list@));
}

/// The statements of an expression, in order; see [`plain_statements`].
pub fn parserexpr_to_statement(expr: ParserExpr) -> (r: Vec<Statement>)
    ensures
        item_views(r@) == plain_statements(expr@),
    decreases expr,
{
    let mut out: Vec<Statement> = Vec::new();
    match expr {
        ParserExpr::FuncCall(f) => {
            let ghost call = f@;
            let ParserFuncCall { root, access, args } = *f;
            let mut names: Vec<String> = Vec::new();
            for item in it: args
                invariant
                    it.seq() == args@,
                    names@.len() == it.index(),
                    forall|j: int| 0 <= j < it.index() ==> (#[trigger] names@[j])@ == args@[j].0@,
            {
                names.push(item.0);
            }
            let statement = Statement::FuncCall { root: root.0, access: plain_opt(access), args: names };
            assert(text_views(names@) =~= call.args.map_values(|name: NameView| name.0));
            out.push(statement);
            assert(item_views(out@) =~= plain_statements(expr@));
        },
        ParserExpr::Assignment(a) => {
            let ParserAssignment { ty: _, name, expr: inner } = *a;
            let list = parserexpr_to_statement(inner.0);
            proof {
                lemma_statement_views(list, name.0);
            }
            out.push(Statement::Assignment { name: name.0, expr: list });
            assert(item_views(out@) =~= plain_statements(expr@));
        },
        ParserExpr::ExprList(expr_list) => {
            proof {
                lemma_expr_list_view(expr_list);
                assert(item_views(out@) =~= Seq::<StatementView>::empty());
                assert(spanned_views(expr_list@).take(0) =~= Seq::empty());
            }
            let ghost list = spanned_views(expr_list@);
            for item in it: expr_list
                invariant
                    it.seq() == expr_list@,
                    list == spanned_views(expr_list@),
                    expr == ParserExpr::ExprList(expr_list),
                    item_views(out@) == plain_statement_list(list.take(it.index() as int)),
            {
                let ghost i = it.index() as int;
                let ghost before = out@;
                proof {
                    assert(item == expr_list@[i]);
                    assert(decreases_to!(expr => expr->ExprList_0));
                    assert(decreases_to!(expr_list => expr_list@));
                    assert(decreases_to!(expr_list@ => expr_list@[i]));
                    assert(decreases_to!(expr_list@[i] => expr_list@[i].0));
                }
                let mut part = parserexpr_to_statement(item.0);
                let ghost added = part@;
                out.append(&mut part);
                proof {
                    assert(list.take(i + 1).drop_last() =~= list.take(i));
                    assert(list.take(i + 1).last() == list[i]);
                    assert(item_views(out@) =~= item_views(before) + item_views(added));
                }
            }
            assert(list.take(expr_list@.len() as int) =~= list);
        },
        ParserExpr::Error => {
            assert(item_views(out@) =~= Seq::<StatementView>::empty());
        },
    }
    out
}

/// A program as the diagram generators take it: its classes, no two of them
/// with the same name, and its annotated blocks, no two of them with the same
/// annotation.
#[derive(Debug, PartialEq)]
pub struct Grouped {
    pub classes: Vec<Class>,
    pub annotated_blocks: Vec<AnnotatedBlock>,
}

/// The mathematical value of a [`Grouped`].
pub struct GroupedView {
    pub classes: Seq<PlainClass>,
    pub annotated_blocks: Seq<PlainBlock>,
}

impl View for Grouped {
    type V = GroupedView;

    open spec fn view(&self) -> GroupedView {
        GroupedView {
            classes: item_views(self.classes@),
            annotated_blocks: item_views(self.annotated_blocks@),
        }
    }
}

/// The classes of `group` with `class` entered by its name: a class of that name
/// gives way to it.
pub open spec fn with_class(group: Seq<PlainClass>, class: PlainClass) -> Seq<PlainClass> {
    group.filter(|c: PlainClass| c.name != class.name).push(class)
}

/// The blocks of `group` with `block` entered by its annotation: a block of that
/// annotation gives way to it.
pub open spec fn with_block(group: Seq<PlainBlock>, block: PlainBlock) -> Seq<PlainBlock> {
    group.filter(|b: PlainBlock| b.annotation != block.annotation).push(block)
}

/// The statements of a program entered one after the other, classes by name and
/// blocks by annotation, so that of two with the same key the later one stays.
pub open spec fn grouped(statements: Seq<PlainStatement>) -> GroupedView
    decreases statements.len(),
{
    if statements.len() == 0 {
        GroupedView { classes: Seq::empty(), annotated_blocks: Seq::empty() }
    } else {
        let before = grouped(statements.drop_last());
        match statements.last() {
            PlainStatement::Class(class) => GroupedView {
                classes: with_class(before.classes, class),
                annotated_blocks: before.annotated_blocks,
            },
            PlainStatement::AnnotatedBlock(block) => GroupedView {
                classes: before.classes,
                annotated_blocks: with_block(before.annotated_blocks, block),
            },
        }
    }
}

/// Whether no two classes of `group` have the same name.
pub open spec fn distinct_names(group: Seq<PlainClass>) -> bool {
    forall|i: int, j: int|
        0 <= i < j < group.len() ==> (#[trigger] group[i]).name != (#[trigger] group[j]).name
}

/// Whether no two blocks of `group` have the same annotation.
pub open spec fn distinct_annotations(group: Seq<PlainBlock>) -> bool {
    forall|i: int, j: int|
        0 <= i < j < group.len() ==> (#[trigger] group[i]).annotation != (
        #[trigger] group[j]).annotation
}

proof fn lemma_filter_push<A>(s: Seq<A>, x: A, p: spec_fn(A) -> bool)
    ensures
        s.push(x).filter(p) == if p(x) {
            s.filter(p).push(x)
        } else {
            s.filter(p)
        },
        Seq::<A>::empty().filter(p) == Seq::<A>::empty(),
{
    reveal(Seq::filter);
    assert(s.push(x).drop_last() =~= s);
}

/// What a filter keeps comes from the sequence, in its order: each kept item has
/// a place in the sequence, and these places ascend.
proof fn lemma_filter_places<A>(s: Seq<A>, p: spec_fn(A) -> bool) -> (places: Seq<int>)
    ensures
        places.len() == s.filter(p).len(),
        forall|i: int|
            0 <= i < places.len() ==> 0 <= #[trigger] places[i] < s.len() && s[places[i]]
                == s.filter(p)[i] && p(s[places[i]]),
        forall|i: int, j: int|
            0 <= i < j < places.len() ==> #[trigger] places[i] < #[trigger] places[j],
    decreases s.len(),
{
    reveal(Seq::filter);
    if s.len() == 0 {
        Seq::empty()
    } else {
        let before = lemma_filter_places(s.drop_last(), p);
        if p(s.last()) {
            before.push(s.len() - 1)
        } else {
            before
        }
    }
}

proof fn lemma_with_class(group: Seq<PlainClass>, class: PlainClass)
    requires
        distinct_names(group),
    ensures
        distinct_names(with_class(group, class)),
        with_class(group, class).last() == class,
        forall|i: int|
            0 <= i < group.len() && (#[trigger] group[i]).name != class.name ==> with_class(
                group,
                class,
            ).contains(group[i]),
{
    let keep = |c: PlainClass| c.name != class.name;
    let kept = group.filter(keep);
    let places = lemma_filter_places(group, keep);
    let out = with_class(group, class);
    assert forall|i: int, j: int| 0 <= i < j < out.len() implies (#[trigger] out[i]).name != (
    #[trigger] out[j]).name by {
        if j < kept.len() {
            assert(kept[i] == group[places[i]] && kept[j] == group[places[j]]);
        } else {
            assert(kept[i] == group[places[i]]);
        }
    }
    assert forall|i: int| 0 <= i < group.len() && (#[trigger] group[i]).name
        != class.name implies out.contains(group[i]) by {
        group.lemma_filter_contains(keep, i);
        let k = choose|k: int| 0 <= k < kept.len() && kept[k] == group[i];
        assert(out[k] == group[i]);
    }
}

proof fn lemma_with_block(group: Seq<PlainBlock>, block: PlainBlock)
    requires
        distinct_annotations(group),
    ensures
        distinct_annotations(with_block(group, block)),
        with_block(group, block).last() == block,
{
    let keep = |b: PlainBlock| b.annotation != block.annotation;
    let kept = group.filter(keep);
    let places = lemma_filter_places(group, keep);
    let out = with_block(group, block);
    assert forall|i: int, j: int| 0 <= i < j < out.len() implies (#[trigger] out[i]).annotation != (
    #[trigger] out[j]).annotation by {
        if j < kept.len() {
            assert(kept[i] == group[places[i]] && kept[j] == group[places[j]]);
        } else {
            assert(kept[i] == group[places[i]]);
        }
    }
}

/// In a grouped program no two classes have the same name and no two blocks the
/// same annotation.
pub proof fn lemma_grouped_distinct(statements: Seq<PlainStatement>)
    ensures
        distinct_names(grouped(statements).classes),
        distinct_annotations(grouped(statements).annotated_blocks),
    decreases statements.len(),
{
    if statements.len() > 0 {
        lemma_grouped_distinct(statements.drop_last());
        let before = grouped(statements.drop_last());
        match statements.last() {
            PlainStatement::Class(class) => {
                lemma_with_class(before.classes, class);
            },
            PlainStatement::AnnotatedBlock(block) => {
                lemma_with_block(before.annotated_blocks, block);
            },
        }
    }
}

/// Of the classes of a name the last one wins: a class behind which no class of
/// its name follows is a class of the grouped program.
pub proof fn lemma_last_class_wins(statements: Seq<PlainStatement>, at: int)
    requires
        0 <= at < statements.len(),
        statements[at] is Class,
        forall|later: int|
            at < later < statements.len() && (#[trigger] statements[later]) is Class
                ==> statements[later]->Class_0.name != statements[at]->Class_0.name,
    ensures
        grouped(statements).classes.contains(statements[at]->Class_0),
    decreases statements.len(),
{
    let class = statements[at]->Class_0;
    let before = grouped(statements.drop_last());
    lemma_grouped_distinct(statements.drop_last());
    if at == statements.len() - 1 {
        lemma_with_class(before.classes, class);
        let out = grouped(statements).classes;
        assert(out[out.len() - 1] == class);
    } else {
        assert forall|later: int|
            at < later < statements.drop_last().len() && (#[trigger] statements.drop_last()[later]) is Class
            implies statements.drop_last()[later]->Class_0.name != class.name by {
            assert(statements.drop_last()[later] == statements[later]);
        }
        assert(statements.drop_last()[at] == statements[at]);
        lemma_last_class_wins(statements.drop_last(), at);
        match statements.last() {
            PlainStatement::Class(last) => {
                lemma_with_class(before.classes, last);
                let k = choose|k: int| 0 <= k < before.classes.len() && before.classes[k] == class;
                assert(before.classes[k].name != last.name);
            },
            PlainStatement::AnnotatedBlock(_) => {},
        }
    }
}

fn insert_class(group: Vec<Class>, class: Class) -> (r: Vec<Class>)
    ensures
        item_views(r@) == with_class(item_views(group@), class@),
{
    let mut out: Vec<Class> = Vec::new();
    let ghost keep = |c: PlainClass| c.name != class@.name;
    proof {
        lemma_filter_push(Seq::empty(), class@, keep);
        assert(item_views(group@).take(0) =~= Seq::<PlainClass>::empty());
        assert(item_views(out@) =~= Seq::<PlainClass>::empty());
    }
    for old in it: group
        invariant
            it.seq() == group@,
            keep == |c: PlainClass| c.name != class@.name,
            item_views(out@) == item_views(group@).take(it.index() as int).filter(keep),
    {
        let ghost i = it.index() as int;
        let ghost before = out@;
        proof {
            lemma_filter_push(item_views(group@).take(i), old@, keep);
            assert(item_views(group@).take(i + 1) =~= item_views(group@).take(i).push(old@));
        }
        if !(old.name == class.name) {
            out.push(old);
            assert(item_views(out@) =~= item_views(before).push(old@));
        }
    }
    let ghost before = out@;
    assert(item_views(group@).take(group@.len() as int) =~= item_views(group@));
    out.push(class);
    assert(item_views(out@) =~= item_views(before).push(class@));
    out
}

fn insert_block(group: Vec<AnnotatedBlock>, block: AnnotatedBlock) -> (r: Vec<AnnotatedBlock>)
    ensures
        item_views(r@) == with_block(item_views(group@), block@),
{
    let mut out: Vec<AnnotatedBlock> = Vec::new();
    let ghost keep = |b: PlainBlock| b.annotation != block@.annotation;
    proof {
        lemma_filter_push(Seq::empty(), block@, keep);
        assert(item_views(group@).take(0) =~= Seq::<PlainBlock>::empty());
        assert(item_views(out@) =~= Seq::<PlainBlock>::empty());
    }
    for old in it: group
        invariant
            it.seq() == group@,
            keep == |b: PlainBlock| b.annotation != block@.annotation,
            item_views(out@) == item_views(group@).take(it.index() as int).filter(keep),
    {
        let ghost i = it.index() as int;
        let ghost before = out@;
        proof {
            lemma_filter_push(item_views(group@).take(i), old@, keep);
            assert(item_views(group@).take(i + 1) =~= item_views(group@).take(i).push(old@));
        }
        if !(old.annotation == block.annotation) {
            out.push(old);
            assert(item_views(out@) =~= item_views(before).push(old@));
        }
    }
    let ghost before = out@;
    assert(item_views(group@).take(group@.len() as int) =~= item_views(group@));
    out.push(block);
    assert(item_views(out@) =~= item_views(before).push(block@));
    out
}

/// Groups the statements of a program: classes by name and annotated blocks by
/// annotation.  Where two have the same key, the later one stays.
pub fn group_statements(statements: Vec<TopLevelStatement>) -> (r: Grouped)
    ensures
        r@ == grouped(item_views(statements@)),
        distinct_names(r@.classes),
        distinct_annotations(r@.annotated_blocks),
{
    let mut classes: Vec<Class> = Vec::new();
    let mut annotated_blocks: Vec<AnnotatedBlock> = Vec::new();
    let ghost all = item_views(statements@);
    proof {
        assert(all.take(0) =~= Seq::<PlainStatement>::empty());
        assert(item_views(classes@) =~= Seq::<PlainClass>::empty());
        assert(item_views(annotated_blocks@) =~= Seq::<PlainBlock>::empty());
    }
    for statement in it: statements
        invariant
            it.seq() == statements@,
            all == item_views(statements@),
            item_views(classes@) == grouped(all.take(it.index() as int)).classes,
            item_views(annotated_blocks@) == grouped(
                all.take(it.index() as int),
            ).annotated_blocks,
    {
        let ghost i = it.index() as int;
        proof {
            assert(all.take(i + 1).drop_last() =~= all.take(i));
            assert(all.take(i + 1).last() == statement@);
        }
        match statement {
            TopLevelStatement::Class(class) => {
                classes = insert_class(classes, class);
            },
            TopLevelStatement::AnnotatedBlock(block) => {
                annotated_blocks = insert_block(annotated_blocks, block);
            },
        }
    }
    proof {
        assert(all.take(statements@.len() as int) =~= all);
        lemma_grouped_distinct(all);
    }
    Grouped { classes, annotated_blocks }
}

} // verus!
