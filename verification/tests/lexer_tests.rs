use flaunt::lexer::{Lexer, Operation, Token};

fn tok(operation: Operation, value: &str) -> Token {
    Token { operation, value: value.to_string() }
}

#[test]
fn it_works() {
    let mut l = Lexer::new();

    let res = l.parse_line("//language:rust".to_string());
    assert!(res.is_ok());

    let mut got = res.unwrap();
    let mut expected = vec![
        Token {
            operation: Operation::Identifier,
            value: "language".to_string(),
        },
        Token {
            operation: Operation::Assign,
            value: ":".to_string(),
        },
        Token {
            operation: Operation::Value,
            value: "rust".to_string(),
        },
    ];

    println!("\ngot = {:?}\nexpected = {:?}\n", got, expected,);

    assert!(got.len() == expected.len());
    assert_eq!(got.pop(), expected.pop());
    assert_eq!(got.pop(), expected.pop());
    assert_eq!(got.pop(), expected.pop());
}

#[test]
fn it_works_with_spaces() {
    let mut l = Lexer::new();

    let res = l.parse_line("// language : rust".to_string());
    assert!(res.is_ok());

    let mut got = res.unwrap();
    let mut expected = vec![
        Token {
            operation: Operation::Identifier,
            value: "language".to_string(),
        },
        Token {
            operation: Operation::Assign,
            value: ":".to_string(),
        },
        Token {
            operation: Operation::Value,
            value: "rust".to_string(),
        },
    ];

    println!("\ngot = {:?}\nexpected = {:?}\n", got, expected,);

    assert!(got.len() == expected.len());
    assert_eq!(got.pop(), expected.pop());
    assert_eq!(got.pop(), expected.pop());
    assert_eq!(got.pop(), expected.pop());
}

#[test]
fn prefix_mismatch_yields_empty_twice() {
    let mut l = Lexer::new();
    let first = l.parse_line("fn main() {}".to_string()).unwrap();
    assert!(first.is_empty());
    let second = l.parse_line("fn main() {}".to_string()).unwrap();
    assert!(second.is_empty());
    // the lexer is still in its starting state: a matching line scans fine
    let third = l.parse_line("// a: 1".to_string()).unwrap();
    assert_eq!(third.len(), 3);
}

#[test]
fn single_pair() {
    let mut l = Lexer::new();
    let got = l.parse_line("// a: 1".to_string()).unwrap();
    let expected = vec![
        tok(Operation::Identifier, "a"),
        tok(Operation::Assign, ":"),
        tok(Operation::Value, "1"),
    ];
    assert_eq!(got, expected);
}

#[test]
fn two_pairs_with_spaces() {
    let mut l = Lexer::new();
    let got = l.parse_line("// a : 1 , b: two".to_string()).unwrap();
    let expected = vec![
        tok(Operation::Identifier, "a"),
        tok(Operation::Assign, ":"),
        tok(Operation::Value, "1"),
        tok(Operation::Identifier, "b"),
        tok(Operation::Assign, ":"),
        tok(Operation::Value, "two"),
    ];
    assert_eq!(got, expected);
}

#[test]
fn spacing_is_optional() {
    let mut tight = Lexer::new();
    let mut spaced = Lexer::new();
    let got_tight = tight.parse_line("// key:value".to_string()).unwrap();
    let got_spaced = spaced.parse_line("// key: value".to_string()).unwrap();
    assert_eq!(got_tight, got_spaced);
    let expected = vec![
        tok(Operation::Identifier, "key"),
        tok(Operation::Assign, ":"),
        tok(Operation::Value, "value"),
    ];
    assert_eq!(got_tight, expected);
}

#[test]
fn fresh_instance_rescans_identically() {
    let lines = ["// a: 1", "nothing here", "// b : two , c:3", "//"];
    let mut first = Lexer::new();
    let mut first_pass: Vec<Token> = Vec::new();
    for line in lines.iter() {
        first_pass.extend(first.parse_line(line.to_string()).unwrap());
    }
    let mut second = Lexer::new();
    let mut second_pass: Vec<Token> = Vec::new();
    for line in lines.iter() {
        second_pass.extend(second.parse_line(line.to_string()).unwrap());
    }
    assert_eq!(first_pass, second_pass);
}

#[test]
fn bare_prefix_yields_empty() {
    let mut l = Lexer::new();
    let got = l.parse_line("//".to_string()).unwrap();
    assert!(got.is_empty());
}

#[test]
fn value_keeps_internal_colon() {
    let mut l = Lexer::new();
    let got = l.parse_line("// note: a:b".to_string()).unwrap();
    let expected = vec![
        tok(Operation::Identifier, "note"),
        tok(Operation::Assign, ":"),
        tok(Operation::Value, "a:b"),
    ];
    assert_eq!(got, expected);
}

#[test]
fn empty_value_is_emitted() {
    let mut l = Lexer::new();
    let got = l.parse_line("// a:".to_string()).unwrap();
    let expected = vec![
        tok(Operation::Identifier, "a"),
        tok(Operation::Assign, ":"),
        tok(Operation::Value, ""),
    ];
    assert_eq!(got, expected);
}

#[test]
fn empty_identifier_is_emitted() {
    let mut l = Lexer::new();
    let got = l.parse_line("// :x".to_string()).unwrap();
    let expected = vec![
        tok(Operation::Identifier, ""),
        tok(Operation::Assign, ":"),
        tok(Operation::Value, "x"),
    ];
    assert_eq!(got, expected);
}

#[test]
fn unterminated_identifier_is_dropped() {
    let mut l = Lexer::new();
    let got = l.parse_line("// nothing to declare".to_string()).unwrap();
    assert!(got.is_empty());
}

#[test]
fn trailing_comma_adds_nothing() {
    let mut l = Lexer::new();
    let got = l.parse_line("// a: 1,".to_string()).unwrap();
    let expected = vec![
        tok(Operation::Identifier, "a"),
        tok(Operation::Assign, ":"),
        tok(Operation::Value, "1"),
    ];
    assert_eq!(got, expected);
}

#[test]
fn custom_prefix_is_honoured() {
    let mut l = Lexer::with_prefix("--".to_string());
    let got = l.parse_line("-- language: haskell".to_string()).unwrap();
    let expected = vec![
        tok(Operation::Identifier, "language"),
        tok(Operation::Assign, ":"),
        tok(Operation::Value, "haskell"),
    ];
    assert_eq!(got, expected);
    let missed = l.parse_line("// language: rust".to_string()).unwrap();
    assert!(missed.is_empty());
}

#[test]
fn parse_error_message() {
    let e = flaunt::lexer::ParseError;
    assert_eq!(e.message(), "can't parse line");
}
