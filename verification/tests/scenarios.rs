use diaparser::recovery_err::RecoveredError;
use diaparser::tokenize;
use diaparser::{
    AnnotatedBlock, Assignment, Attribute, Class, Expr, FuncCall, Method,
    SequenceEntrypointBlock, TopLevelStatement,
};

fn name(text: &str, start: usize, end: usize) -> (String, std::ops::Range<usize>) {
    (text.to_string(), start..end)
}

#[test]
fn class_with_attribute_and_method() {
    let (tree, diagnostics) = tokenize("class Foo { bar: Int fn baz(): Int { bar.qux() } }");
    let call = FuncCall { root: name("bar", 37, 40), access: Some(name("qux", 41, 44)), args: vec![] };
    let body = Expr::ExprList(vec![(Expr::FuncCall(Box::new(call)), 37..46)]);
    let method = Method {
        name: name("baz", 24, 27),
        parameters: vec![],
        ret_type: Some(name("Int", 31, 34)),
        body: Some((body, 37..46)),
    };
    let attribute = Attribute { name: name("bar", 12, 15), ty: Some(name("Int", 17, 20)) };
    let class = Class {
        name: name("Foo", 6, 9),
        attributes: vec![(attribute, 12..20)],
        methods: vec![(method, 21..48)],
    };
    assert_eq!(tree, (Ok(vec![(TopLevelStatement::Class(class), 0..50)]), 0..50));
    assert_eq!(diagnostics, vec![]);
}

#[test]
fn class_without_name_is_dropped() {
    let (tree, diagnostics) = tokenize("class { }");
    assert_eq!(tree, (Ok(vec![]), 0..9));
    assert_eq!(diagnostics, vec![RecoveredError(6..7, "class name".to_string())]);
}

#[test]
fn non_ascii_character_is_one_error_token() {
    let (tree, diagnostics) = tokenize("class A { x\u{e9} }");
    assert_eq!(diagnostics.len(), 2);
    assert_eq!(diagnostics[0], RecoveredError(11..12, "Unknown (non-ASCII) character".to_string()));
    assert_eq!(diagnostics[1], RecoveredError(11..12, "Closing brack".to_string()));
    assert_eq!(tree, (Ok(vec![]), 0..14));
}

#[test]
fn sequence_entrypoint_block() {
    let (tree, diagnostics) = tokenize("@SequenceEntrypoint main()");
    let call = FuncCall { root: name("main", 20, 24), access: None, args: vec![] };
    let block = AnnotatedBlock::SequenceEntrypoint(SequenceEntrypointBlock { function: (call, 20..26) });
    assert_eq!(tree, (Ok(vec![(TopLevelStatement::AnnotatedBlock(block), 0..26)]), 0..26));
    assert_eq!(diagnostics, vec![]);
}

#[test]
fn method_parameters_with_and_without_type() {
    let (tree, diagnostics) = tokenize("class A { fn f(x: Int, y) {} }");
    assert_eq!(diagnostics, vec![]);
    let list = tree.0.unwrap();
    assert_eq!(list.len(), 1);
    match &list[0].0 {
        TopLevelStatement::Class(class) => {
            assert_eq!(class.name.0, "A");
            assert_eq!(class.attributes, vec![]);
            assert_eq!(class.methods.len(), 1);
            let method = &class.methods[0].0;
            assert_eq!(method.name.0, "f");
            assert_eq!(
                method.parameters,
                vec![
                    (Attribute { name: name("x", 15, 16), ty: Some(name("Int", 18, 21)) }, 15..21),
                    (Attribute { name: name("y", 23, 24), ty: None }, 23..24),
                ]
            );
            assert_eq!(method.ret_type, None);
            assert_eq!(method.body, Some((Expr::ExprList(vec![]), 27..27)));
        },
        _ => panic!("a class was expected"),
    }
}

#[test]
fn unclosed_class_at_end_of_input() {
    let (tree, diagnostics) = tokenize("class A { ");
    assert_eq!(tree, (Ok(vec![]), 0..9));
    assert_eq!(diagnostics, vec![RecoveredError(9..10, "Closing brack".to_string())]);
}

#[test]
fn input_without_tokens_is_the_empty_program() {
    let (tree, diagnostics) = tokenize("");
    assert_eq!(tree, (Ok(vec![]), 0..1));
    assert_eq!(diagnostics, vec![]);
    let (tree, diagnostics) = tokenize("  // nothing here\n");
    assert_eq!(tree, (Ok(vec![]), 0..1));
    assert_eq!(diagnostics, vec![]);
}

#[test]
fn method_without_body_has_none() {
    let (tree, diagnostics) = tokenize("class A { fn f() }");
    assert_eq!(diagnostics, vec![]);
    let list = tree.0.unwrap();
    match &list[0].0 {
        TopLevelStatement::Class(class) => {
            assert_eq!(class.methods[0].0.body, None);
            assert_eq!(class.methods[0].1, 10..16);
        },
        _ => panic!("a class was expected"),
    }
}

#[test]
fn assignment_statements_wrap_the_call() {
    let (tree, diagnostics) = tokenize("class A { fn f() { a = b(c, d) e: T = g.h() } }");
    assert_eq!(diagnostics, vec![]);
    let list = tree.0.unwrap();
    let method = match &list[0].0 {
        TopLevelStatement::Class(class) => &class.methods[0].0,
        _ => panic!("a class was expected"),
    };
    let first = Expr::Assignment(Box::new(Assignment {
        ty: None,
        name: name("a", 19, 20),
        expr: (
            Expr::FuncCall(Box::new(FuncCall {
                root: name("b", 23, 24),
                access: None,
                args: vec![name("c", 25, 26), name("d", 28, 29)],
            })),
            23..30,
        ),
    }));
    let second = Expr::Assignment(Box::new(Assignment {
        ty: Some(name("T", 34, 35)),
        name: name("e", 31, 32),
        expr: (
            Expr::FuncCall(Box::new(FuncCall {
                root: name("g", 38, 39),
                access: Some(name("h", 40, 41)),
                args: vec![],
            })),
            38..43,
        ),
    }));
    assert_eq!(method.body, Some((Expr::ExprList(vec![(first, 19..30), (second, 31..43)]), 19..43)));
}

#[test]
fn missing_type_after_colon_is_committed() {
    let (tree, diagnostics) = tokenize("class A { x: } class B { }");
    assert_eq!(diagnostics, vec![RecoveredError(13..14, "Unexpected token".to_string())]);
    let list = tree.0.unwrap();
    assert_eq!(list.len(), 1);
    match &list[0].0 {
        TopLevelStatement::Class(class) => assert_eq!(class.name, name("B", 21, 22)),
        _ => panic!("a class was expected"),
    }
}

#[test]
fn missing_access_after_dot_is_committed() {
    let (tree, diagnostics) = tokenize("@SequenceEntrypoint a.()");
    assert_eq!(
        diagnostics,
        vec![
            RecoveredError(22..23, "Unexpected token".to_string()),
            RecoveredError(23..24, "tag class".to_string()),
        ]
    );
    assert_eq!(tree, (Ok(vec![]), 0..24));
}

#[test]
fn unclosed_body_at_end_of_input_is_reported_once() {
    let (tree, diagnostics) = tokenize("class A { fn f() { a()");
    assert_eq!(diagnostics, vec![RecoveredError(22..23, "Unexpected token".to_string())]);
    assert_eq!(tree, (Ok(vec![]), 0..22));
}

#[test]
fn stray_identifier_reports_the_first_alternative() {
    let (tree, diagnostics) = tokenize("foo class A { }");
    assert_eq!(diagnostics, vec![RecoveredError(0..3, "tag class".to_string())]);
    assert_eq!(tree, (Ok(vec![]), 0..15));
}

#[test]
fn two_classes_and_an_entry_point() {
    let (tree, diagnostics) = tokenize("class A { } struct B { y } @SequenceEntrypoint A.run(x)");
    assert_eq!(diagnostics, vec![]);
    let list = tree.0.unwrap();
    assert_eq!(list.len(), 3);
    assert_eq!(
        list[0],
        (
            TopLevelStatement::Class(Class { name: name("A", 6, 7), attributes: vec![], methods: vec![] }),
            0..11
        )
    );
    assert_eq!(
        list[1],
        (
            TopLevelStatement::Class(Class {
                name: name("B", 19, 20),
                attributes: vec![(Attribute { name: name("y", 23, 24), ty: None }, 23..24)],
                methods: vec![],
            }),
            12..26
        )
    );
    let call = FuncCall {
        root: name("A", 47, 48),
        access: Some(name("run", 49, 52)),
        args: vec![name("x", 53, 54)],
    };
    assert_eq!(
        list[2],
        (
            TopLevelStatement::AnnotatedBlock(AnnotatedBlock::SequenceEntrypoint(
                SequenceEntrypointBlock { function: (call, 47..55) }
            )),
            27..55
        )
    );
}

#[test]
fn malformed_inputs_still_give_a_tree() {
    let pieces = [
        "class", "struct", "fn", "A", "b", "{", "}", "(", ")", ":", ".", ",", "=", ";", "@SequenceEntrypoint",
        "@", "`r w`", "// c\n", " ", "\u{e9}", "if", "#",
    ];
    let mut seed: u64 = 0x9e37_79b9_7f4a_7c15;
    for round in 0..3000 {
        let mut input = String::new();
        for _ in 0..(round % 40) {
            seed = seed.wrapping_mul(6364136223846793005).wrapping_add(1442695040888963407);
            input.push_str(pieces[(seed >> 33) as usize % pieces.len()]);
            input.push(' ');
        }
        let mut state = diaparser::recovery_err::ParseState::new();
        let tokens = diaparser::lexer::lex(&input, &mut state);
        let lexical = state.0.len();
        let (tree, diagnostics) = tokenize(&input);
        assert!(tree.0.is_ok(), "tree of {:?}", input);
        if let Ok(list) = &tree.0 {
            assert!(list.len() + diagnostics.len() - lexical <= tokens.len(), "steps of {:?}", input);
            assert_eq!(tree.1.start, 0);
        }
        assert_eq!(&diagnostics[..lexical], &state.0[..]);
        let length = input.chars().count();
        for diagnostic in &diagnostics {
            assert!(diagnostic.0.start < diagnostic.0.end);
            assert!(diagnostic.0.end <= length + 1);
        }
    }
}

#[test]
fn a_broken_class_costs_one_diagnostic_and_the_rest_of_the_input() {
    let (tree, diagnostics) = tokenize("class A { } class { } class B { }");
    let list = tree.0.unwrap();
    assert_eq!(list.len(), 1);
    assert_eq!(diagnostics, vec![RecoveredError(18..19, "class name".to_string())]);
}

#[test]
fn labels_of_the_class_rule() {
    let label = |input: &str| tokenize(input).1.into_iter().map(|d| d.1).collect::<Vec<_>>();
    assert_eq!(label("x"), vec!["tag class"]);
    assert_eq!(label("class"), vec!["class name"]);
    assert_eq!(label("class A"), vec!["Opening brack"]);
    assert_eq!(label("class A ("), vec!["Opening brack"]);
    assert_eq!(label("class A {"), vec!["Closing brack"]);
    assert_eq!(label("class A { fn"), vec!["Closing brack"]);
    assert_eq!(label("class A { fn f( }"), vec!["Closing brack"]);
    assert_eq!(label("class A { fn f() : }"), vec!["Unexpected token"]);
    assert_eq!(label("class A { fn f() { a( } }"), vec!["Unexpected token", "tag class"]);
    assert_eq!(label("@SequenceEntrypoint"), vec!["tag class"]);
    assert_eq!(label("@SequenceEntrypoint f"), vec!["tag class"]);
}
