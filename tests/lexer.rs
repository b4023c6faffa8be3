use lisp_interpreter::lexer::{tokenize, Delim, Keyword, LexError, Lexer, Token};

#[test]
fn invalid_language() {
    assert_eq!(tokenize("(add ! 2)"), Err(LexError::UnexpectedChar('!')));
}

#[test]
fn lexer_example1() {
    assert_eq!(
        tokenize("(let x 2 (mult x (let x 3 y 4 (add x y))))").unwrap(),
        vec![
            Token::Delim(Delim::Open),
            Token::Keyword(Keyword::Let),
            Token::Ident("x"),
            Token::Literal(2),
            Token::Delim(Delim::Open),
            Token::Keyword(Keyword::Mult),
            Token::Ident("x"),
            Token::Delim(Delim::Open),
            Token::Keyword(Keyword::Let),
            Token::Ident("x"),
            Token::Literal(3),
            Token::Ident("y"),
            Token::Literal(4),
            Token::Delim(Delim::Open),
            Token::Keyword(Keyword::Add),
            Token::Ident("x"),
            Token::Ident("y"),
            Token::Delim(Delim::Close),
            Token::Delim(Delim::Close),
            Token::Delim(Delim::Close),
            Token::Delim(Delim::Close),
        ],
    );
}

#[test]
fn lexer_is_lazy_and_stops_after_an_error() {
    let mut lexer = Lexer::from("( ! x");
    assert_eq!(lexer.next(), Some(Ok(Token::Delim(Delim::Open))));
    assert_eq!(lexer.next(), Some(Err(LexError::UnexpectedChar('!'))));
    assert_eq!(lexer.next(), None);
}

#[test]
fn empty_and_blank_sources_have_no_tokens() {
    assert_eq!(tokenize(""), Ok(vec![]));
    assert_eq!(tokenize(" \t\n\r "), Ok(vec![]));
}

#[test]
fn whitespace_of_every_kind_separates_tokens() {
    assert_eq!(
        tokenize("\tadd\n1\u{3000}22 "),
        Ok(vec![Token::Keyword(Keyword::Add), Token::Literal(1), Token::Literal(22)])
    );
}

#[test]
fn words_run_over_letters_and_digits() {
    assert_eq!(
        tokenize("x1 lets letx mult2 mult"),
        Ok(vec![
            Token::Ident("x1"),
            Token::Ident("lets"),
            Token::Ident("letx"),
            Token::Ident("mult2"),
            Token::Keyword(Keyword::Mult),
        ])
    );
}

#[test]
fn non_ascii_letters_make_identifiers() {
    assert_eq!(tokenize("(été)"), Ok(vec![
        Token::Delim(Delim::Open),
        Token::Ident("été"),
        Token::Delim(Delim::Close),
    ]));
}

#[test]
fn a_digit_run_ends_at_a_letter() {
    assert_eq!(tokenize("12ab"), Ok(vec![Token::Literal(12), Token::Ident("ab")]));
}

#[test]
fn largest_literal_is_accepted() {
    assert_eq!(tokenize("2147483647"), Ok(vec![Token::Literal(2147483647)]));
    assert_eq!(tokenize("000042"), Ok(vec![Token::Literal(42)]));
}

#[test]
fn literal_out_of_range_is_a_lex_error() {
    assert_eq!(tokenize("2147483648"), Err(LexError::InvalidLiteral));
    assert_eq!(tokenize("(add 1 99999999999999999999)"), Err(LexError::InvalidLiteral));
}

#[test]
fn non_ascii_numerals_are_a_lex_error() {
    assert_eq!(tokenize("(add 1 \u{663})"), Err(LexError::InvalidLiteral));
}

#[test]
fn symbols_are_a_lex_error() {
    assert_eq!(tokenize("x + 1"), Err(LexError::UnexpectedChar('+')));
    assert_eq!(tokenize("-1"), Err(LexError::UnexpectedChar('-')));
}
