//! A small interpreter for a Lisp-like language of integer literals, `let`
//! bindings and the binary operators `add` and `mult`: a tokenizer, a
//! recursive-descent parser and a tree-walking evaluator, each with a
//! contract against a mathematical model of its stage.
pub mod interpreter;
pub mod lexer;
pub mod parser;

use vstd::prelude::*;

use crate::interpreter::{eval, EvalError, Interpreter};
use crate::lexer::{lex, tokenize, LexError, TokenView};
use crate::parser::{has_term_at, lemma_unique, occurs_at, tokens_of, ParseError, Parser, Term};

verus! {

/// The first failure of a run, by stage.
#[derive(Debug, PartialEq, Eq)]
pub enum Error<'a> {
    Lex(LexError),
    Parse(ParseError<'a>),
    Eval(EvalError),
}

/// The term spelled at the start of a token sequence, where there is one.
pub open spec fn program(ts: Seq<TokenView>) -> Term {
    choose|e: Term| occurs_at(ts, 0, tokens_of(e))
}

/// What `run` returns on the source text `s`: the first stage that fails
/// decides the error; otherwise the program's value from an empty environment.
pub open spec fn run_outcome<'a>(s: Seq<char>, r: Result<i32, Error<'a>>) -> bool {
    match lex(s) {
        Err(e) => r == Err::<i32, Error<'a>>(Error::Lex(e)),
        Ok(ts) => if !has_term_at(ts, 0) {
            r matches Err(Error::Parse(_))
        } else {
            match eval(program(ts), Map::empty()) {
                Ok((v, _)) => r == Ok::<i32, Error<'a>>(v),
                Err(x) => r matches Err(Error::Eval(EvalError::UndefinedVariable(name))) && name@ == x,
            }
        },
    }
}

/// Tokenizes, parses and evaluates `source` with a fresh environment.
pub fn run<'a>(source: &'a str) -> (r: Result<i32, Error<'a>>)
    ensures
        run_outcome(source@, r),
{
    let tokens = match tokenize(source) {
        Ok(tokens) => tokens,
        Err(e) => return Err(Error::Lex(e)),
    };
    let ghost ts = lexer::tokens_view(Ok::<Vec<lexer::Token<'a>>, LexError>(tokens))->Ok_0;
    let mut parser = Parser::new(tokens);
    let ast = match parser.parse() {
        Ok(ast) => ast,
        Err(e) => return Err(Error::Parse(e)),
    };
    proof {
        assert(parser::tokens_model(tokens@) =~= ts);
        lemma_unique(ts, 0, program(ts), (*ast)@);
    }
    let mut interpreter = Interpreter::new();
    match interpreter.evaluate(&ast) {
        Ok(v) => Ok(v),
        Err(e) => Err(Error::Eval(e)),
    }
}

/// Parsing is deterministic: the tokens of a source text spell at most one
/// program, so parsing the same source twice gives the same tree.
pub proof fn lemma_parse_deterministic(s: Seq<char>, e1: Term, e2: Term)
    requires
        lex(s) is Ok,
        occurs_at(lex(s)->Ok_0, 0, tokens_of(e1)),
        occurs_at(lex(s)->Ok_0, 0, tokens_of(e2)),
    ensures
        e1 == e2,
{
    lemma_unique(lex(s)->Ok_0, 0, e1, e2);
}

/// Each run starts from a fresh environment, so two runs of the same source
/// succeed or fail together and, when they succeed, give the same value.
pub proof fn lemma_run_repeatable<'a>(s: Seq<char>, r1: Result<i32, Error<'a>>, r2: Result<i32, Error<'a>>)
    requires
        run_outcome(s, r1),
        run_outcome(s, r2),
    ensures
        r1 is Ok <==> r2 is Ok,
        r1 is Ok ==> r1 == r2,
{
}

} // verus!
