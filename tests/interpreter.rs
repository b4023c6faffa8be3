use lisp_interpreter::interpreter::{EvalError, Interpreter};
use lisp_interpreter::lexer::{tokenize, LexError};
use lisp_interpreter::parser::{parse, Expr, AST};
use lisp_interpreter::{run, Error};

fn ast(source: &str) -> AST {
    parse(tokenize(source).unwrap()).unwrap()
}

#[test]
fn interpreter_example1() {
    assert_eq!(
        Interpreter::new().evaluate(&ast("(let x 2 (mult x (let x 3 y 4 (add x y))))")),
        Ok(14)
    );
}

#[test]
fn example2() {
    assert_eq!(Interpreter::new().evaluate(&ast("(let x 3 x 2 x)")), Ok(2));
}

#[test]
fn example3() {
    assert_eq!(
        Interpreter::new().evaluate(&ast("(let x 1 y 2 x (add x y) (add x y))")),
        Ok(5)
    );
}

#[test]
fn run_chains_the_three_stages() {
    assert_eq!(run("(let x 2 (mult x (let x 3 y 4 (add x y))))"), Ok(14));
    assert_eq!(run("(let x 3 x 2 x)"), Ok(2));
    assert_eq!(run("(let x 1 y 2 x (add x y) (add x y))"), Ok(5));
}

#[test]
fn run_reports_the_failing_stage() {
    assert_eq!(run("(add ! 2)"), Err(Error::Lex(LexError::UnexpectedChar('!'))));
    assert!(matches!(run("(add 1)"), Err(Error::Parse(_))));
    assert_eq!(
        run("(add x 1)"),
        Err(Error::Eval(EvalError::UndefinedVariable("x".to_string())))
    );
}

#[test]
fn an_unbound_variable_is_an_eval_error() {
    assert_eq!(
        Interpreter::new().evaluate(&Expr::Var("z".to_string())),
        Err(EvalError::UndefinedVariable("z".to_string()))
    );
    assert_eq!(
        Interpreter::new().evaluate(&ast("(let x 1 (add x y))")),
        Err(EvalError::UndefinedVariable("y".to_string()))
    );
}

#[test]
fn a_binding_outlives_its_let() {
    assert_eq!(run("(add (let x 5 x) x)"), Ok(10));
    assert_eq!(run("(let x 1 (add (let x 10 x) x))"), Ok(20));
}

#[test]
fn a_binding_is_not_visible_before_it_is_made() {
    assert_eq!(
        run("(add x (let x 5 x))"),
        Err(Error::Eval(EvalError::UndefinedVariable("x".to_string())))
    );
}

#[test]
fn a_shared_interpreter_keeps_bindings_between_evaluations() {
    let mut interpreter = Interpreter::new();
    assert_eq!(interpreter.evaluate(&ast("(let k 4 k)")), Ok(4));
    assert_eq!(interpreter.evaluate(&ast("(mult k k)")), Ok(16));
    assert_eq!(
        Interpreter::new().evaluate(&ast("(mult k k)")),
        Err(EvalError::UndefinedVariable("k".to_string()))
    );
}

#[test]
fn fresh_runs_of_one_source_agree() {
    let source = "(let x 1 y 2 x (add x y) (add x y))";
    assert_eq!(run(source), run(source));
}

#[test]
fn arithmetic_wraps_on_overflow() {
    assert_eq!(run("(add 2147483647 1)"), Ok(-2147483648));
    assert_eq!(run("(mult 65536 65536)"), Ok(0));
    assert_eq!(run("(mult 3 (add 4 5))"), Ok(27));
}
