use vstd::prelude::*;
use vstd::hash_map::StringHashMap;

use crate::parser::{assigns_view, lemma_assigns_view, Assign, Expr, Op, Term};

verus! {

broadcast use vstd::seq::axiom_seq_index_decreases;

/// Evaluation met a variable that no assignment has bound.
#[derive(Debug, PartialEq, Eq)]
pub enum EvalError {
    UndefinedVariable(String),
}

/// Operators use 32-bit two's-complement arithmetic that wraps on overflow.
pub open spec fn apply(op: Op, a: i32, b: i32) -> i32 {
    match op {
        Op::Add => a.wrapping_add(b),
        Op::Mult => a.wrapping_mul(b),
    }
}

/// The value of `e` and the environment after it, starting from `env`, or
/// the first undefined variable met. Bindings are never undone: an
/// assignment inside a `let` stays in the environment after the `let`.
pub open spec fn eval(e: Term, env: Map<Seq<char>, i32>) -> Result<(i32, Map<Seq<char>, i32>), Seq<char>>
    decreases e, 0nat,
{
    match e {
        Term::Literal(n) => Ok((n, env)),
        Term::Var(x) => if env.contains_key(x) {
            Ok((env[x], env))
        } else {
            Err(x)
        },
        Term::Math { op, left, right } => match eval(*left, env) {
            Err(x) => Err(x),
            Ok((a, env1)) => match eval(*right, env1) {
                Err(x) => Err(x),
                Ok((b, env2)) => Ok((apply(op, a, b), env2)),
            },
        },
        Term::Let { assignments, body } => match eval_bindings(
            assignments,
            assignments.len(),
            env,
        ) {
            Err(x) => Err(x),
            Ok(env1) => eval(*body, env1),
        },
    }
}

/// The environment after the first `n` bindings of `a`, in order, each
/// value evaluated in the environment the earlier ones left.
pub open spec fn eval_bindings(a: Seq<(Seq<char>, Term)>, n: nat, env: Map<Seq<char>, i32>) -> Result<
    Map<Seq<char>, i32>,
    Seq<char>,
>
    decreases a, n,
{
    if n == 0 || n > a.len() {
        Ok(env)
    } else {
        match eval_bindings(a, (n - 1) as nat, env) {
            Err(x) => Err(x),
            Ok(env1) => match eval(a[n - 1].1, env1) {
                Err(x) => Err(x),
                Ok((v, env2)) => Ok(env2.insert(a[n - 1].0, v)),
            },
        }
    }
}

/// Once a binding fails, so do all that include it.
proof fn lemma_bindings_error(a: Seq<(Seq<char>, Term)>, k: nat, n: nat, env: Map<Seq<char>, i32>)
    requires
        0 < k <= n <= a.len(),
        eval_bindings(a, k, env) is Err,
    ensures
        eval_bindings(a, n, env) == eval_bindings(a, k, env),
    decreases n - k,
{
    if k < n {
        lemma_bindings_error(a, k, (n - 1) as nat, env);
    }
}

/// What `evaluate` returns, given the model of its result.
pub open spec fn evaluated(r: Result<i32, EvalError>, expected: Result<(i32, Map<Seq<char>, i32>), Seq<char>>) -> bool {
    match expected {
        Ok((v, _)) => r == Ok::<i32, EvalError>(v),
        Err(x) => r matches Err(EvalError::UndefinedVariable(s)) && s@ == x,
    }
}

/// A tree-walking evaluator that holds one environment for a whole run.
pub struct Interpreter {
    heap: StringHashMap<i32>,
}

impl Interpreter {
    /// The current value of each bound variable.
    pub closed spec fn env(&self) -> Map<Seq<char>, i32> {
        self.heap@
    }

    pub fn new() -> (r: Interpreter)
        ensures
            r.env() == Map::<Seq<char>, i32>::empty(),
    {
        Interpreter { heap: StringHashMap::new() }
    }

    /// Evaluates `node` against the environment, which keeps every binding
    /// that the evaluation made.
    pub fn evaluate(&mut self, node: &Expr) -> (r: Result<i32, EvalError>)
        ensures
            evaluated(r, eval(node@, old(self).env())),
            eval(node@, old(self).env()) matches Ok((_, env)) ==> final(self).env() == env,
        decreases node@,
    {
        match node {
            Expr::Let { assignments, expr } => {
                let ghost a = assigns_view(assignments@, assignments@.len());
                let ghost env0 = self.env();
                assert(node@ == Term::Let { assignments: a, body: Box::new((**expr)@) });
                proof {
                    lemma_assigns_view(assignments@, assignments@.len());
                }
                let mut i: usize = 0;
                while i < assignments.len()
                    invariant
                        i <= assignments.len(),
                        node@ == (Term::Let { assignments: a, body: Box::new((**expr)@) }),
                        env0 == old(self).env(),
                        a == assigns_view(assignments@, assignments@.len()),
                        a.len() == assignments.len(),
                        forall|j: int|
                            0 <= j < assignments.len() ==> #[trigger] a[j] == (
                                assignments@[j].var@,
                                (*assignments@[j].expr)@,
                            ),
                        eval_bindings(a, i as nat, env0) == Ok::<Map<Seq<char>, i32>, Seq<char>>(
                            self.env(),
                        ),
                    decreases assignments.len() - i,
                {
                    let assignment: &Assign = &assignments[i];
                    proof {
                        assert(decreases_to!(node@ => a));
                        assert(decreases_to!(a => a[i as int]));
                    }
                    let ghost env = self.env();
                    let value = match self.evaluate(&assignment.expr) {
                        Ok(v) => v,
                        Err(err) => {
                            proof {
                                let x = eval(a[i as int].1, env)->Err_0;
                                assert(eval_bindings(a, (i + 1) as nat, env0) == Err::<Map<Seq<char>, i32>, Seq<char>>(x));
                                lemma_bindings_error(a, (i + 1) as nat, a.len(), env0);
                                assert(node@->assignments == a);
                                assert(eval(node@, env0) == Err::<(i32, Map<Seq<char>, i32>), Seq<char>>(x));
                            }
                            return Err(err);
                        },
                    };
                    self.heap.insert(assignment.var.as_str().to_owned(), value);
                    i = i + 1;
                }
                self.evaluate(expr)
            },
            Expr::Math { op, left, right } => {
                let a = match self.evaluate(left) {
                    Ok(v) => v,
                    Err(err) => return Err(err),
                };
                let b = match self.evaluate(right) {
                    Ok(v) => v,
                    Err(err) => return Err(err),
                };
                match op {
                    Op::Add => Ok(a.wrapping_add(b)),
                    Op::Mult => Ok(a.wrapping_mul(b)),
                }
            },
            Expr::Var(id) => match self.heap.get(id.as_str()) {
                Some(v) => Ok(*v),
                None => Err(EvalError::UndefinedVariable(id.as_str().to_owned())),
            },
            Expr::Literal(n) => Ok(*n),
        }
    }
}

} // verus!
