use lisp_interpreter::lexer::{tokenize, Delim, Keyword, Token};
use lisp_interpreter::parser::{parse, Assign, Expected, Expr, Op, ParseError, Parser, AST};

fn parse_source(source: &str) -> Result<AST, ParseError<'_>> {
    Parser::new(tokenize(source).unwrap()).parse()
}

fn var(name: &str) -> Box<Expr> {
    Box::new(Expr::Var(name.to_string()))
}

fn lit(n: i32) -> Box<Expr> {
    Box::new(Expr::Literal(n))
}

#[test]
fn parser_example1() {
    assert_eq!(
        parse_source("(let x 2 (mult x (let x 3 y 4 (add x y))))").unwrap(),
        Box::new(Expr::Let {
            assignments: vec![Assign {
                var: "x".to_string(),
                expr: Box::new(Expr::Literal(2))
            }],
            expr: Box::new(Expr::Math {
                op: Op::Mult,
                left: Box::new(Expr::Var("x".to_string())),
                right: Box::new(Expr::Let {
                    assignments: vec![
                        Assign {
                            var: "x".to_string(),
                            expr: Box::new(Expr::Literal(3))
                        },
                        Assign {
                            var: "y".to_string(),
                            expr: Box::new(Expr::Literal(4))
                        }
                    ],
                    expr: Box::new(Expr::Math {
                        op: Op::Add,
                        left: Box::new(Expr::Var("x".to_string())),
                        right: Box::new(Expr::Var("y".to_string()))
                    })
                })
            })
        })
    )
}

#[test]
fn a_name_before_the_closing_parenthesis_is_the_body() {
    assert_eq!(
        parse_source("(let x 3 x 2 x)").unwrap(),
        Box::new(Expr::Let {
            assignments: vec![
                Assign { var: "x".to_string(), expr: lit(3) },
                Assign { var: "x".to_string(), expr: lit(2) },
            ],
            expr: var("x"),
        })
    );
    assert_eq!(
        parse_source("(let x)").unwrap(),
        Box::new(Expr::Let { assignments: vec![], expr: var("x") })
    );
}

#[test]
fn a_let_without_bindings_takes_any_body() {
    assert_eq!(
        parse_source("(let 5)").unwrap(),
        Box::new(Expr::Let { assignments: vec![], expr: lit(5) })
    );
}

#[test]
fn atoms_parse_alone() {
    assert_eq!(parse_source("y").unwrap(), var("y"));
    assert_eq!(parse_source("7").unwrap(), lit(7));
}

#[test]
fn parsing_twice_gives_equal_trees() {
    let source = "(let x 1 y 2 x (add x y) (add x y))";
    assert_eq!(parse_source(source), parse_source(source));
}

#[test]
fn tokens_after_the_expression_are_left_unread() {
    assert_eq!(parse(tokenize("1 2").unwrap()).unwrap(), lit(1));
}

#[test]
fn running_out_of_tokens_is_a_parse_error() {
    assert_eq!(
        parse(vec![]),
        Err(ParseError { expected: Expected::Expression, found: None })
    );
    assert_eq!(
        parse_source("(add 1 2"),
        Err(ParseError { expected: Expected::CloseDelim, found: None })
    );
    assert_eq!(
        parse_source("(let x 1"),
        Err(ParseError { expected: Expected::Expression, found: None })
    );
}

#[test]
fn a_missing_keyword_is_a_parse_error() {
    assert_eq!(
        parse_source("(x 1 2)"),
        Err(ParseError { expected: Expected::Keyword, found: Some(Token::Ident("x")) })
    );
}

#[test]
fn a_misplaced_token_is_a_parse_error() {
    assert_eq!(
        parse_source(")"),
        Err(ParseError { expected: Expected::Expression, found: Some(Token::Delim(Delim::Close)) })
    );
    assert_eq!(
        parse_source("(add 1 2 3)"),
        Err(ParseError { expected: Expected::CloseDelim, found: Some(Token::Literal(3)) })
    );
    assert_eq!(
        parse_source("(mult let 2)"),
        Err(ParseError { expected: Expected::Expression, found: Some(Token::Keyword(Keyword::Let)) })
    );
}
