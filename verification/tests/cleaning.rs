use diaparser::clean_ast::{
    group_statements, Grouped,
    clean_parser_annotated_block, clean_parser_attribute, clean_parser_class, clean_parser_method,
    clean_parser_top_lvl_statement, parserexpr_to_statement, AnnotatedBlock, Attribute, Class,
    Method, Statement, TopLevelStatement,
};
use diaparser::tokenize;
use diaparser::{Annotation, Assignment, Expr, FuncCall, SequenceEntrypointBlock};

fn name(text: &str) -> (String, std::ops::Range<usize>) {
    (text.to_string(), 3..4)
}

fn call(root: &str, access: Option<&str>, args: &[&str]) -> FuncCall {
    FuncCall { root: name(root), access: access.map(name), args: args.iter().map(|a| name(a)).collect() }
}

fn plain_call(root: &str, access: Option<&str>, args: &[&str]) -> Statement {
    Statement::FuncCall {
        root: root.to_string(),
        access: access.map(|a| a.to_string()),
        args: args.iter().map(|a| a.to_string()).collect(),
    }
}

#[test]
fn a_call_is_one_statement() {
    let expr = Expr::FuncCall(Box::new(call("a", Some("b"), &["x", "y"])));
    assert_eq!(parserexpr_to_statement(expr), vec![plain_call("a", Some("b"), &["x", "y"])]);
}

#[test]
fn an_assignment_holds_the_statements_of_its_expression() {
    let inner = Expr::FuncCall(Box::new(call("f", None, &[])));
    let expr = Expr::Assignment(Box::new(Assignment { ty: Some(name("T")), name: name("v"), expr: (inner, 0..1) }));
    assert_eq!(
        parserexpr_to_statement(expr),
        vec![Statement::Assignment { name: "v".to_string(), expr: vec![plain_call("f", None, &[])] }]
    );
}

#[test]
fn lists_are_flattened_in_order_and_errors_vanish() {
    let nested = Expr::ExprList(vec![
        (Expr::FuncCall(Box::new(call("b", None, &[]))), 0..1),
        (Expr::Error, 1..2),
        (Expr::ExprList(vec![]), 2..3),
        (Expr::FuncCall(Box::new(call("c", None, &[]))), 3..4),
    ]);
    let expr = Expr::ExprList(vec![
        (Expr::FuncCall(Box::new(call("a", None, &[]))), 0..1),
        (nested, 1..2),
        (Expr::FuncCall(Box::new(call("d", None, &[]))), 4..5),
    ]);
    assert_eq!(
        parserexpr_to_statement(expr),
        vec![
            plain_call("a", None, &[]),
            plain_call("b", None, &[]),
            plain_call("c", None, &[]),
            plain_call("d", None, &[]),
        ]
    );
    assert_eq!(parserexpr_to_statement(Expr::Error), vec![]);
    assert_eq!(parserexpr_to_statement(Expr::ExprList(vec![])), vec![]);
}

#[test]
fn attributes_and_methods_lose_their_spans() {
    let attribute = diaparser::Attribute { name: name("x"), ty: Some(name("Int")) };
    assert_eq!(
        clean_parser_attribute(attribute),
        Attribute { name: "x".to_string(), ty: Some("Int".to_string()) }
    );
    let method = diaparser::Method {
        name: name("m"),
        parameters: vec![(diaparser::Attribute { name: name("p"), ty: None }, 0..1)],
        ret_type: None,
        body: None,
    };
    assert_eq!(
        clean_parser_method(method),
        Method {
            name: "m".to_string(),
            parameters: vec![Attribute { name: "p".to_string(), ty: None }],
            ret_type: None,
            body: vec![],
        }
    );
}

#[test]
fn an_entry_point_becomes_a_block_with_its_call() {
    let block = diaparser::AnnotatedBlock::SequenceEntrypoint(SequenceEntrypointBlock {
        function: (call("main", None, &[]), 0..6),
    });
    assert_eq!(
        clean_parser_annotated_block(block),
        AnnotatedBlock {
            annotation: Annotation::SequenceEntrypoint,
            elements: vec![Expr::FuncCall(Box::new(call("main", None, &[])))],
        }
    );
}

#[test]
fn a_parsed_program_is_cleaned() {
    let (tree, _) = tokenize("class Foo { bar: Int fn baz(a): Int { x = bar.qux(a) } } @SequenceEntrypoint Foo.baz()");
    let mut cleaned = Vec::new();
    for (statement, _) in tree.0.unwrap() {
        cleaned.push(clean_parser_top_lvl_statement(statement));
    }
    assert_eq!(cleaned.len(), 2);
    assert_eq!(
        cleaned[0],
        TopLevelStatement::Class(Class {
            name: "Foo".to_string(),
            attributes: vec![Attribute { name: "bar".to_string(), ty: Some("Int".to_string()) }],
            methods: vec![Method {
                name: "baz".to_string(),
                parameters: vec![Attribute { name: "a".to_string(), ty: None }],
                ret_type: Some("Int".to_string()),
                body: vec![Statement::Assignment {
                    name: "x".to_string(),
                    expr: vec![plain_call("bar", Some("qux"), &["a"])],
                }],
            }],
        })
    );
    match &cleaned[1] {
        TopLevelStatement::AnnotatedBlock(block) => {
            assert_eq!(block.annotation, Annotation::SequenceEntrypoint);
            assert_eq!(block.elements.len(), 1);
        },
        _ => panic!("a block was expected"),
    }
}

#[test]
fn a_class_keeps_the_order_of_its_members() {
    let class = diaparser::Class {
        name: name("C"),
        attributes: vec![
            (diaparser::Attribute { name: name("a"), ty: None }, 0..1),
            (diaparser::Attribute { name: name("b"), ty: None }, 1..2),
        ],
        methods: vec![
            (diaparser::Method { name: name("m"), parameters: vec![], ret_type: None, body: None }, 2..3),
            (
                diaparser::Method {
                    name: name("n"),
                    parameters: vec![],
                    ret_type: Some(name("R")),
                    body: Some((Expr::ExprList(vec![]), 3..4)),
                },
                3..4,
            ),
        ],
    };
    let cleaned = clean_parser_class(class);
    assert_eq!(cleaned.name, "C");
    assert_eq!(cleaned.attributes.iter().map(|a| a.name.as_str()).collect::<Vec<_>>(), vec!["a", "b"]);
    assert_eq!(cleaned.methods.iter().map(|m| m.name.as_str()).collect::<Vec<_>>(), vec!["m", "n"]);
    assert_eq!(cleaned.methods[1].ret_type, Some("R".to_string()));
}

fn class_named(name: &str, attribute: &str) -> TopLevelStatement {
    TopLevelStatement::Class(plain_class(name, attribute))
}

fn plain_class(name: &str, attribute: &str) -> Class {
    Class {
        name: name.to_string(),
        attributes: vec![Attribute { name: attribute.to_string(), ty: None }],
        methods: vec![],
    }
}

fn block_calling(root: &str) -> AnnotatedBlock {
    AnnotatedBlock {
        annotation: Annotation::SequenceEntrypoint,
        elements: vec![Expr::FuncCall(Box::new(call(root, None, &[])))],
    }
}

#[test]
fn of_two_classes_with_one_name_the_later_one_stays() {
    let grouped = group_statements(vec![
        class_named("A", "first"),
        class_named("B", "only"),
        TopLevelStatement::AnnotatedBlock(block_calling("one")),
        class_named("A", "second"),
        class_named("C", "only"),
        TopLevelStatement::AnnotatedBlock(block_calling("two")),
        class_named("A", "third"),
    ]);
    assert_eq!(
        grouped,
        Grouped {
            classes: vec![plain_class("B", "only"), plain_class("C", "only"), plain_class("A", "third")],
            annotated_blocks: vec![block_calling("two")],
        }
    );
}

#[test]
fn grouping_nothing_gives_nothing() {
    assert_eq!(group_statements(vec![]), Grouped { classes: vec![], annotated_blocks: vec![] });
}

#[test]
fn grouped_names_are_distinct() {
    let names = ["x", "y", "x", "z", "y", "x", "w"];
    let grouped = group_statements(names.iter().map(|n| class_named(n, "a")).collect());
    let kept: Vec<&str> = grouped.classes.iter().map(|c| c.name.as_str()).collect();
    assert_eq!(kept, vec!["z", "y", "x", "w"]);
}
