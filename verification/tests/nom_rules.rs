use diaparser::lexer::lex;
use diaparser::recovery_err::{ParseState, RecoveredError};
use diaparser::token::{Keyword, TokSpan, Token};
use diaparser::Annotation;
use nom::branch::alt;
use nom::bytes::complete::{tag, take_until};
use nom::character::complete::{alpha1, alphanumeric1, multispace1, not_line_ending};
use nom::combinator::recognize;
use nom::multi::many0;
use nom::sequence::{delimited, pair, preceded};
use nom::IResult;

fn padding(input: &str) -> IResult<&str, &str> {
    alt((preceded(tag("//"), not_line_ending), multispace1))(input)
}

fn raw(input: &str) -> IResult<&str, &str> {
    delimited(tag("`"), recognize(take_until("`")), tag("`"))(input)
}

fn op(input: &str) -> IResult<&str, &str> {
    tag("=")(input)
}

fn ctrl(input: &str) -> IResult<&str, &str> {
    alt((tag("("), tag(")"), tag("{"), tag("}"), tag(","), tag("."), tag(":"), tag("#")))(input)
}

fn annotation(input: &str) -> IResult<&str, &str> {
    preceded(tag("@"), tag("SequenceEntrypoint"))(input)
}

fn word(input: &str) -> IResult<&str, &str> {
    recognize(pair(alt((alpha1, tag("_"))), many0(alt((alphanumeric1, tag("_"))))))(input)
}

fn word_token(text: &str) -> Token {
    match text {
        "fn" => Token::K(Keyword::Fn),
        "if" => Token::K(Keyword::If),
        "else" => Token::K(Keyword::Else),
        "while" => Token::K(Keyword::While),
        "for" => Token::K(Keyword::For),
        "in" => Token::K(Keyword::In),
        "class" => Token::K(Keyword::Class),
        "struct" => Token::K(Keyword::Class),
        s => Token::Ident(s.to_string()),
    }
}

/// One unit read with nom's combinators, in the order of the rules: what is
/// left, and the token, or `None` for a skipped region.
fn unit(input: &str) -> (&str, Option<Token>) {
    if let Ok((rest, _)) = padding(input) {
        return (rest, None);
    }
    if let Ok((rest, text)) = raw(input) {
        return (rest, Some(Token::Ident(text.to_string())));
    }
    if let Ok((rest, text)) = op(input) {
        return (rest, Some(Token::Op(text.to_string())));
    }
    if let Ok((rest, text)) = ctrl(input) {
        return (rest, Some(Token::Separator(text.chars().next().unwrap())));
    }
    if let Ok((rest, _)) = annotation(input) {
        return (rest, Some(Token::A(Annotation::SequenceEntrypoint)));
    }
    if let Ok((rest, text)) = word(input) {
        return (rest, Some(word_token(text)));
    }
    let len = input.chars().next().unwrap().len_utf8();
    (&input[len..], Some(Token::Error))
}

fn with_nom(input: &str) -> (Vec<TokSpan>, Vec<RecoveredError>) {
    let mut tokens = Vec::new();
    let mut diagnostics = Vec::new();
    let mut rest = input;
    let mut start = 0;
    while !rest.is_empty() {
        let (after, token) = unit(rest);
        let end = start + rest[..rest.len() - after.len()].chars().count();
        assert!(end > start);
        if let Some(token) = token {
            if token == Token::Error {
                diagnostics.push(RecoveredError(start..end, "Unknown (non-ASCII) character".to_string()));
            }
            tokens.push(TokSpan { token, span: start..end });
        }
        rest = after;
        start = end;
    }
    (tokens, diagnostics)
}

fn check(input: &str) {
    let mut state = ParseState::new();
    let tokens = lex(input, &mut state);
    let (expected, diagnostics) = with_nom(input);
    assert_eq!(tokens, expected, "tokens of {:?}", input);
    assert_eq!(state.0, diagnostics, "diagnostics of {:?}", input);
}

#[test]
fn rules_agree_with_nom_on_chosen_inputs() {
    let inputs = [
        "",
        " ",
        "class Foo { bar: Int fn baz(): Int { bar.qux() } }",
        "@SequenceEntrypoint main()",
        "@SequenceEntrypointmain @Sequence @ SequenceEntrypoint",
        "a//b\nc",
        "a//b\r\nc",
        "a//b\rc",
        "a//b\r",
        "//",
        "// \n",
        "/ /",
        "`a b` `` ` `x`y",
        "`\n`",
        "_ __ _1 1_ a1b2 A_Z",
        "x=y==z",
        "\t\r\n \r x",
        "struct structs fn fn1 iff inn",
        "a\u{e9}b \u{4e16}\u{754c} `\u{e9}` //\u{e9}\n\u{e9}",
        ";;$%&[]<>\"'",
        "a.b(c,d):e#f{g}h",
    ];
    for input in inputs {
        check(input);
    }
}

#[test]
fn rules_agree_with_nom_on_many_inputs() {
    let alphabet: Vec<char> =
        "ab_1 /\n\r\t`=(){},.:#@;fnicls\u{e9}SequenceEntrypoint".chars().collect();
    let mut seed: u64 = 0x2545_f491_4f6c_dd1d;
    for round in 0..4000 {
        let length = round % 24;
        let mut input = String::new();
        for _ in 0..length {
            seed = seed.wrapping_mul(6364136223846793005).wrapping_add(1442695040888963407);
            let pick = (seed >> 33) as usize % (alphabet.len() + 2);
            if pick == alphabet.len() {
                input.push_str("@SequenceEntrypoint");
            } else if pick == alphabet.len() + 1 {
                input.push_str("//");
            } else {
                input.push(alphabet[pick]);
            }
        }
        check(&input);
    }
}
