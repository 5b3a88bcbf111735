use hvm_front::lexer::{lex_tokens, LexError, Lexer, Tokens};

#[test]
fn test_lex() {
    let input = b"let x = 2;#";
    let (_, result) = lex_tokens(input).unwrap();

    let expected = vec![
        Tokens::Let,
        Tokens::Identifier("x".to_owned()),
        Tokens::Assign,
        Tokens::IntegerLiteral(2),
        Tokens::SemiColon,
    ];

    assert_eq!(result, expected)
}

#[test]
fn let_statement_with_trailing_hash() {
    let input = b"let x = 2;#";
    let (rest, result) = Lexer::lex_tokens(input).unwrap();

    let expected = vec![
        Tokens::Let,
        Tokens::Identifier("x".to_owned()),
        Tokens::Assign,
        Tokens::IntegerLiteral(2),
        Tokens::SemiColon,
        Tokens::EOF,
    ];

    assert_eq!(result, expected);
    // the `#` matches no rule and is left unconsumed, reported by position
    assert_eq!(rest, 10);
}

#[test]
fn operators_need_no_surrounding_whitespace() {
    let (rest, result) = Lexer::lex_tokens(b"x+y").unwrap();

    let expected = vec![
        Tokens::Identifier("x".to_owned()),
        Tokens::Plus,
        Tokens::Identifier("y".to_owned()),
        Tokens::EOF,
    ];

    assert_eq!(result, expected);
    assert_eq!(rest, 3);
}

#[test]
fn empty_input_gives_eof_alone() {
    let (rest, result) = Lexer::lex_tokens(b"").unwrap();
    assert_eq!(result, vec![Tokens::EOF]);
    assert_eq!(rest, 0);
}

#[test]
fn whitespace_only_gives_eof_alone() {
    let input = b" \t\r\n  ";
    let (rest, result) = Lexer::lex_tokens(input).unwrap();
    assert_eq!(result, vec![Tokens::EOF]);
    assert_eq!(rest, input.len());
}

#[test]
fn let_is_always_the_keyword() {
    let (_, result) = Lexer::lex_tokens(b"let").unwrap();
    assert_eq!(result, vec![Tokens::Let, Tokens::EOF]);
}

#[test]
fn near_misses_of_let_are_identifiers() {
    let (_, result) = Lexer::lex_tokens(b"lets Let le _let").unwrap();
    let expected = vec![
        Tokens::Identifier("lets".to_owned()),
        Tokens::Identifier("Let".to_owned()),
        Tokens::Identifier("le".to_owned()),
        Tokens::Identifier("_let".to_owned()),
        Tokens::EOF,
    ];
    assert_eq!(result, expected);
}

#[test]
fn identifiers_may_hold_digits_and_underscores() {
    let (_, result) = Lexer::lex_tokens(b"_x1 a_b9c").unwrap();
    let expected = vec![
        Tokens::Identifier("_x1".to_owned()),
        Tokens::Identifier("a_b9c".to_owned()),
        Tokens::EOF,
    ];
    assert_eq!(result, expected);
}

#[test]
fn integer_values_are_exact() {
    let (_, result) = Lexer::lex_tokens(b"0 7 100 9223372036854775807").unwrap();
    let expected = vec![
        Tokens::IntegerLiteral(0),
        Tokens::IntegerLiteral(7),
        Tokens::IntegerLiteral(100),
        Tokens::IntegerLiteral(i64::MAX),
        Tokens::EOF,
    ];
    assert_eq!(result, expected);
}

#[test]
fn overlong_digit_run_is_numeric_overflow() {
    // one past the 64-bit signed maximum
    let result = Lexer::lex_tokens(b"9223372036854775808");
    assert_eq!(result, Err(LexError::NumericOverflow));

    // the classification also surfaces mid-stream
    let result = Lexer::lex_tokens(b"let x = 99999999999999999999;");
    assert_eq!(result, Err(LexError::NumericOverflow));
}

#[test]
fn punctuation_and_operator_tokens() {
    let (_, result) = Lexer::lex_tokens(b"; , . = + -").unwrap();
    let expected = vec![
        Tokens::SemiColon,
        Tokens::Comma,
        Tokens::Dot,
        Tokens::Assign,
        Tokens::Plus,
        Tokens::Minus,
        Tokens::EOF,
    ];
    assert_eq!(result, expected);
}

#[test]
fn unmatched_byte_stops_the_scan_cleanly() {
    let (rest, result) = Lexer::lex_tokens(b"x $y").unwrap();
    let expected = vec![Tokens::Identifier("x".to_owned()), Tokens::EOF];
    assert_eq!(result, expected);
    assert_eq!(rest, 2);
}

#[test]
fn tokens_spell_the_collapsed_input_back() {
    let input = b"let x9 = 42 + _y0;";
    let (rest, result) = Lexer::lex_tokens(input).unwrap();
    assert_eq!(rest, input.len());

    let mut spelled = String::new();
    for tok in &result {
        match tok {
            Tokens::Let => spelled.push_str("let"),
            Tokens::Assign => spelled.push('='),
            Tokens::Plus => spelled.push('+'),
            Tokens::Minus => spelled.push('-'),
            Tokens::SemiColon => spelled.push(';'),
            Tokens::Comma => spelled.push(','),
            Tokens::Dot => spelled.push('.'),
            Tokens::Identifier(text) => spelled.push_str(text),
            Tokens::IntegerLiteral(v) => spelled.push_str(&v.to_string()),
            Tokens::EOF => {}
            other => panic!("unexpected token {:?}", other),
        }
    }

    let collapsed: String = input
        .iter()
        .filter(|b| !b" \t\r\n".contains(b))
        .map(|&b| b as char)
        .collect();
    assert_eq!(spelled, collapsed);
}
