use vstd::prelude::*;

use crate::lexer::{Delim, Keyword, Token, TokenView};

verus! {

broadcast use vstd::seq::axiom_seq_index_decreases;

/// One binding of a `let`: a name and the expression whose value it gets.
#[derive(Debug, PartialEq, Eq)]
pub struct Assign {
    pub var: String,
    pub expr: Box<Expr>,
}

/// A binary arithmetic operator.
#[derive(Debug, Clone, Copy, PartialEq, Eq, Structural)]
pub enum Op {
    Add,
    Mult,
}

/// A node of the syntax tree; each node owns its children.
#[derive(Debug, PartialEq, Eq)]
pub enum Expr {
    Let { assignments: Vec<Assign>, expr: Box<Expr> },
    Math { op: Op, left: Box<Expr>, right: Box<Expr> },
    Var(String),
    Literal(i32),
}

/// The root of a syntax tree.
pub type AST = Box<Expr>;

/// The mathematical model of a syntax tree: names are their characters.
pub enum Term {
    Let { assignments: Seq<(Seq<char>, Term)>, body: Box<Term> },
    Math { op: Op, left: Box<Term>, right: Box<Term> },
    Var(Seq<char>),
    Literal(i32),
}

pub open spec fn expr_view(e: Expr) -> Term
    decreases e, 0nat,
{
    match e {
        Expr::Let { assignments, expr } => Term::Let {
            assignments: assigns_view(assignments@, assignments@.len()),
            body: Box::new(expr_view(*expr)),
        },
        Expr::Math { op, left, right } => Term::Math {
            op,
            left: Box::new(expr_view(*left)),
            right: Box::new(expr_view(*right)),
        },
        Expr::Var(x) => Term::Var(x@),
        Expr::Literal(n) => Term::Literal(n),
    }
}

/// The model of the first `n` bindings of `a`.
pub open spec fn assigns_view(a: Seq<Assign>, n: nat) -> Seq<(Seq<char>, Term)>
    decreases a, n,
{
    if n == 0 || n > a.len() {
        seq![]
    } else {
        assigns_view(a, (n - 1) as nat).push((a[n - 1].var@, expr_view(*a[n - 1].expr)))
    }
}

impl View for Expr {
    type V = Term;

    open spec fn view(&self) -> Term {
        expr_view(*self)
    }
}

pub proof fn lemma_assigns_view(a: Seq<Assign>, n: nat)
    requires
        n <= a.len(),
    ensures
        assigns_view(a, n).len() == n,
        forall|j: int|
            0 <= j < n ==> #[trigger] assigns_view(a, n)[j] == (a[j].var@, expr_view(*a[j].expr)),
    decreases n,
{
    if n > 0 {
        lemma_assigns_view(a, (n - 1) as nat);
    }
}

pub open spec fn op_keyword(op: Op) -> Keyword {
    match op {
        Op::Add => Keyword::Add,
        Op::Mult => Keyword::Mult,
    }
}

/// The tokens that spell a term.
pub open spec fn tokens_of(e: Term) -> Seq<TokenView>
    decreases e, 0nat,
{
    match e {
        Term::Let { assignments, body } => seq![
            TokenView::Delim(Delim::Open),
            TokenView::Keyword(Keyword::Let),
        ] + bindings_tokens(assignments, assignments.len()) + tokens_of(*body) + seq![
            TokenView::Delim(Delim::Close),
        ],
        Term::Math { op, left, right } => seq![
            TokenView::Delim(Delim::Open),
            TokenView::Keyword(op_keyword(op)),
        ] + tokens_of(*left) + tokens_of(*right) + seq![TokenView::Delim(Delim::Close)],
        Term::Var(x) => seq![TokenView::Ident(x)],
        Term::Literal(n) => seq![TokenView::Literal(n)],
    }
}

/// The tokens that spell the first `n` bindings of `a`, each a name and then its value.
pub open spec fn bindings_tokens(a: Seq<(Seq<char>, Term)>, n: nat) -> Seq<TokenView>
    decreases a, n,
{
    if n == 0 || n > a.len() {
        seq![]
    } else {
        bindings_tokens(a, (n - 1) as nat) + seq![TokenView::Ident(a[n - 1].0)] + tokens_of(
            a[n - 1].1,
        )
    }
}

/// What follows `( let` in the spelling of a `let` term.
pub open spec fn let_rest(a: Seq<(Seq<char>, Term)>, body: Term) -> Seq<TokenView> {
    bindings_tokens(a, a.len()) + tokens_of(body) + seq![TokenView::Delim(Delim::Close)]
}

/// `p` stands in `t` from position `i` on.
pub open spec fn occurs_at(t: Seq<TokenView>, i: int, p: Seq<TokenView>) -> bool {
    &&& 0 <= i
    &&& i + p.len() <= t.len()
    &&& forall|k: int| 0 <= k < p.len() ==> t[i + k] == #[trigger] p[k]
}

/// Some term is spelled by the tokens of `t` from position `i` on.
pub open spec fn has_term_at(t: Seq<TokenView>, i: int) -> bool {
    exists|e: Term| occurs_at(t, i, #[trigger] tokens_of(e))
}

proof fn lemma_occurs_concat(t: Seq<TokenView>, i: int, p: Seq<TokenView>, q: Seq<TokenView>)
    ensures
        occurs_at(t, i, p + q) <==> (occurs_at(t, i, p) && occurs_at(t, i + p.len(), q)),
{
    if occurs_at(t, i, p) && occurs_at(t, i + p.len(), q) {
        assert forall|k: int| 0 <= k < (p + q).len() implies t[i + k] == #[trigger] (p + q)[k] by {
            if k >= p.len() {
                assert(q[k - p.len()] == (p + q)[k]);
            }
        }
    }
    if occurs_at(t, i, p + q) {
        assert forall|k: int| 0 <= k < p.len() implies t[i + k] == #[trigger] p[k] by {
            assert((p + q)[k] == p[k]);
        }
        assert forall|k: int| 0 <= k < q.len() implies t[i + p.len() + k] == #[trigger] q[k] by {
            assert((p + q)[p.len() + k] == q[k]);
        }
    }
}

/// The first token of a term's spelling tells its kind.
proof fn lemma_first_token(e: Term)
    ensures
        tokens_of(e).len() >= 1,
        match e {
            Term::Var(x) => tokens_of(e) == seq![TokenView::Ident(x)],
            Term::Literal(n) => tokens_of(e) == seq![TokenView::Literal(n)],
            Term::Math { op, .. } => tokens_of(e).len() >= 2 && tokens_of(e)[0] == TokenView::Delim(
                Delim::Open,
            ) && tokens_of(e)[1] == TokenView::Keyword(op_keyword(op)),
            Term::Let { .. } => tokens_of(e).len() >= 2 && tokens_of(e)[0] == TokenView::Delim(
                Delim::Open,
            ) && tokens_of(e)[1] == TokenView::Keyword(Keyword::Let),
        },
{
    match e {
        Term::Let { assignments, body } => {
            let p = seq![TokenView::Delim(Delim::Open), TokenView::Keyword(Keyword::Let)];
            let rest = bindings_tokens(assignments, assignments.len()) + tokens_of(*body) + seq![
                TokenView::Delim(Delim::Close),
            ];
            assert(tokens_of(e) =~= p + rest);
            assert((p + rest)[0] == p[0]);
            assert((p + rest)[1] == p[1]);
        },
        Term::Math { op, left, right } => {
            let p = seq![TokenView::Delim(Delim::Open), TokenView::Keyword(op_keyword(op))];
            let rest = tokens_of(*left) + tokens_of(*right) + seq![TokenView::Delim(Delim::Close)];
            assert(tokens_of(e) =~= p + rest);
            assert((p + rest)[0] == p[0]);
            assert((p + rest)[1] == p[1]);
        },
        _ => {},
    }
}

/// The spelling of the first `k` bindings depends on those bindings alone.
proof fn lemma_bindings_prefix(a1: Seq<(Seq<char>, Term)>, a2: Seq<(Seq<char>, Term)>, k: nat)
    requires
        k <= a1.len(),
        k <= a2.len(),
        a1.subrange(0, k as int) == a2.subrange(0, k as int),
    ensures
        bindings_tokens(a1, k) == bindings_tokens(a2, k),
    decreases k,
{
    if k > 0 {
        assert(a1.subrange(0, k - 1) =~= a1.subrange(0, k as int).subrange(0, k - 1));
        assert(a2.subrange(0, k - 1) =~= a2.subrange(0, k as int).subrange(0, k - 1));
        assert(a1[k - 1] == a1.subrange(0, k as int)[k - 1]);
        assert(a2[k - 1] == a2.subrange(0, k as int)[k - 1]);
        lemma_bindings_prefix(a1, a2, (k - 1) as nat);
    }
}

/// Where the spelling of `n` bindings stands, the `k`-th binding's name and
/// value stand right after the spelling of the first `k`.
proof fn lemma_bindings_occurs(t: Seq<TokenView>, q: int, a: Seq<(Seq<char>, Term)>, k: nat, n: nat)
    requires
        k < n <= a.len(),
        occurs_at(t, q, bindings_tokens(a, n)),
    ensures
        occurs_at(t, q, bindings_tokens(a, k)),
        t[q + bindings_tokens(a, k).len()] == TokenView::Ident(a[k as int].0),
        occurs_at(t, q + bindings_tokens(a, k).len() + 1, tokens_of(a[k as int].1)),
    decreases n - k,
{
    let m = (n - 1) as nat;
    let x = seq![TokenView::Ident(a[m as int].0)];
    lemma_occurs_concat(t, q, bindings_tokens(a, m) + x, tokens_of(a[m as int].1));
    lemma_occurs_concat(t, q, bindings_tokens(a, m), x);
    if k < m {
        lemma_bindings_occurs(t, q, a, k, m);
    } else {
        assert(x[0] == TokenView::Ident(a[m as int].0));
    }
}

/// The parts of a `let` spelling.
proof fn lemma_let_rest_occurs(t: Seq<TokenView>, q: int, a: Seq<(Seq<char>, Term)>, b: Term)
    requires
        occurs_at(t, q, let_rest(a, b)),
    ensures
        occurs_at(t, q, bindings_tokens(a, a.len())),
        occurs_at(t, q + bindings_tokens(a, a.len()).len(), tokens_of(b)),
        t[q + bindings_tokens(a, a.len()).len() + tokens_of(b).len()] == TokenView::Delim(Delim::Close),
{
    let c = seq![TokenView::Delim(Delim::Close)];
    lemma_occurs_concat(t, q, bindings_tokens(a, a.len()) + tokens_of(b), c);
    lemma_occurs_concat(t, q, bindings_tokens(a, a.len()), tokens_of(b));
    assert(c[0] == TokenView::Delim(Delim::Close));
}

/// Two `let` spellings that agree on their first `k` bindings and both stand
/// at `q` have the same bindings.
proof fn lemma_let_unique(
    t: Seq<TokenView>,
    q: int,
    a1: Seq<(Seq<char>, Term)>,
    b1: Term,
    a2: Seq<(Seq<char>, Term)>,
    b2: Term,
    k: nat,
)
    requires
        occurs_at(t, q, let_rest(a1, b1)),
        occurs_at(t, q, let_rest(a2, b2)),
        k <= a1.len(),
        k <= a2.len(),
        a1.subrange(0, k as int) == a2.subrange(0, k as int),
    ensures
        a1 == a2,
    decreases a1, a1.len() - k,
{
    lemma_let_rest_occurs(t, q, a1, b1);
    lemma_let_rest_occurs(t, q, a2, b2);
    lemma_bindings_prefix(a1, a2, k);
    let p = q + bindings_tokens(a1, k).len();
    if k < a1.len() && k < a2.len() {
        lemma_bindings_occurs(t, q, a1, k, a1.len());
        lemma_bindings_occurs(t, q, a2, k, a2.len());
        lemma_unique(t, p + 1, a1[k as int].1, a2[k as int].1);
        assert(a1.subrange(0, k + 1 as int) =~= a2.subrange(0, k + 1 as int)) by {
            assert(a1[k as int] == a2[k as int]);
            assert forall|j: int| 0 <= j < k implies a1[j] == a2[j] by {
                assert(a1.subrange(0, k as int)[j] == a2.subrange(0, k as int)[j]);
            }
        }
        lemma_let_unique(t, q, a1, b1, a2, b2, (k + 1) as nat);
    } else if k < a1.len() {
        lemma_bindings_occurs(t, q, a1, k, a1.len());
        lemma_first_token(b2);
        lemma_first_token(a1[k as int].1);
        assert(tokens_of(b2)[0] == t[p]);
        assert(tokens_of(a1[k as int].1)[0] == t[p + 1]);
    } else if k < a2.len() {
        lemma_bindings_occurs(t, q, a2, k, a2.len());
        lemma_first_token(b1);
        lemma_first_token(a2[k as int].1);
        assert(tokens_of(b1)[0] == t[p]);
        assert(tokens_of(a2[k as int].1)[0] == t[p + 1]);
    } else {
        assert(a1 =~= a1.subrange(0, k as int));
        assert(a2 =~= a2.subrange(0, k as int));
    }
}

/// At most one term is spelled from any position of a token sequence.
pub proof fn lemma_unique(t: Seq<TokenView>, i: int, e1: Term, e2: Term)
    requires
        occurs_at(t, i, tokens_of(e1)),
        occurs_at(t, i, tokens_of(e2)),
    ensures
        e1 == e2,
    decreases e1, 0nat,
{
    lemma_first_token(e1);
    lemma_first_token(e2);
    assert(tokens_of(e1)[0] == t[i]);
    assert(tokens_of(e2)[0] == t[i]);
    match e1 {
        Term::Math { op, left, right } => {
            assert(tokens_of(e1)[1] == t[i + 1]);
            assert(tokens_of(e2)[1] == t[i + 1]);
            if let Term::Math { op: op2, left: left2, right: right2 } = e2 {
                let open = seq![TokenView::Delim(Delim::Open), TokenView::Keyword(op_keyword(op))];
                let open2 = seq![TokenView::Delim(Delim::Open), TokenView::Keyword(op_keyword(op2))];
                let c = seq![TokenView::Delim(Delim::Close)];
                lemma_occurs_concat(t, i, open + tokens_of(*left) + tokens_of(*right), c);
                lemma_occurs_concat(t, i, open + tokens_of(*left), tokens_of(*right));
                lemma_occurs_concat(t, i, open, tokens_of(*left));
                lemma_occurs_concat(t, i, open2 + tokens_of(*left2) + tokens_of(*right2), c);
                lemma_occurs_concat(t, i, open2 + tokens_of(*left2), tokens_of(*right2));
                lemma_occurs_concat(t, i, open2, tokens_of(*left2));
                lemma_unique(t, i + 2, *left, *left2);
                lemma_unique(t, i + 2 + tokens_of(*left).len(), *right, *right2);
                assert(op == op2);
            }
        },
        Term::Let { assignments, body } => {
            assert(tokens_of(e1)[1] == t[i + 1]);
            assert(tokens_of(e2)[1] == t[i + 1]);
            if let Term::Let { assignments: assignments2, body: body2 } = e2 {
                let open = seq![TokenView::Delim(Delim::Open), TokenView::Keyword(Keyword::Let)];
                assert(tokens_of(e1) =~= open + let_rest(assignments, *body));
                assert(tokens_of(e2) =~= open + let_rest(assignments2, *body2));
                lemma_occurs_concat(t, i, open, let_rest(assignments, *body));
                lemma_occurs_concat(t, i, open, let_rest(assignments2, *body2));
                assert(assignments.subrange(0, 0) =~= assignments2.subrange(0, 0));
                lemma_let_unique(t, i + 2, assignments, *body, assignments2, *body2, 0);
                lemma_let_rest_occurs(t, i + 2, assignments, *body);
                lemma_let_rest_occurs(t, i + 2, assignments2, *body2);
                lemma_unique(
                    t,
                    i + 2 + bindings_tokens(assignments, assignments.len()).len(),
                    *body,
                    *body2,
                );
            }
        },
        _ => {},
    }
}

/// The bindings `a` are spelled from `p` up to `q`, and every `let` spelled
/// from `p` begins with them.
pub open spec fn bindings_parsed(t: Seq<TokenView>, p: int, a: Seq<(Seq<char>, Term)>, q: int) -> bool {
    &&& occurs_at(t, p, bindings_tokens(a, a.len()))
    &&& q == p + bindings_tokens(a, a.len()).len()
    &&& forall|a2: Seq<(Seq<char>, Term)>, b2: Term|
        #![trigger let_rest(a2, b2)]
        occurs_at(t, p, let_rest(a2, b2)) ==> a.len() <= a2.len() && a2.subrange(0, a.len() as int) == a
}

/// What a `let` spelled from `p` that begins with the bindings `a` holds
/// right after them: another binding, or its body and the closing parenthesis.
proof fn lemma_candidate(
    t: Seq<TokenView>,
    p: int,
    a: Seq<(Seq<char>, Term)>,
    a2: Seq<(Seq<char>, Term)>,
    b2: Term,
)
    requires
        bindings_parsed(t, p, a, p + bindings_tokens(a, a.len()).len()),
        occurs_at(t, p, let_rest(a2, b2)),
    ensures
        ({
            let q = p + bindings_tokens(a, a.len()).len();
            &&& a2.len() > a.len() ==> t[q] == TokenView::Ident(a2[a.len() as int].0) && occurs_at(
                t,
                q + 1,
                tokens_of(a2[a.len() as int].1),
            )
            &&& a2.len() == a.len() ==> a2 == a && occurs_at(t, q, tokens_of(b2)) && t[q
                + tokens_of(b2).len()] == TokenView::Delim(Delim::Close)
        }),
{
    let k = a.len();
    assert(a.subrange(0, k as int) =~= a);
    lemma_bindings_prefix(a2, a, k);
    lemma_let_rest_occurs(t, p, a2, b2);
    if a2.len() > k {
        lemma_bindings_occurs(t, p, a2, k, a2.len());
    } else {
        assert(a2 =~= a2.subrange(0, k as int));
    }
}

/// How an arithmetic term's spelling stands in a token sequence.
proof fn lemma_math_occurs(t: Seq<TokenView>, i: int, e: Term)
    requires
        e is Math,
    ensures
        occurs_at(t, i, tokens_of(e)) <==> {
            let l = tokens_of(*e->left);
            let r = tokens_of(*e->right);
            &&& occurs_at(t, i, seq![TokenView::Delim(Delim::Open), TokenView::Keyword(op_keyword(e->op))])
            &&& occurs_at(t, i + 2, l)
            &&& occurs_at(t, i + 2 + l.len(), r)
            &&& occurs_at(t, i + 2 + l.len() + r.len(), seq![TokenView::Delim(Delim::Close)])
        },
        tokens_of(e).len() == 3 + tokens_of(*e->left).len() + tokens_of(*e->right).len(),
{
    let open = seq![TokenView::Delim(Delim::Open), TokenView::Keyword(op_keyword(e->op))];
    let l = tokens_of(*e->left);
    let r = tokens_of(*e->right);
    let c = seq![TokenView::Delim(Delim::Close)];
    lemma_occurs_concat(t, i, open + l + r, c);
    lemma_occurs_concat(t, i, open + l, r);
    lemma_occurs_concat(t, i, open, l);
}

/// How a `let` term's spelling stands in a token sequence.
proof fn lemma_let_occurs(t: Seq<TokenView>, i: int, e: Term)
    requires
        e is Let,
    ensures
        occurs_at(t, i, tokens_of(e)) <==> {
            &&& occurs_at(t, i, seq![TokenView::Delim(Delim::Open), TokenView::Keyword(Keyword::Let)])
            &&& occurs_at(t, i + 2, let_rest(e->assignments, *e->body))
        },
        tokens_of(e).len() == 2 + let_rest(e->assignments, *e->body).len(),
{
    let open = seq![TokenView::Delim(Delim::Open), TokenView::Keyword(Keyword::Let)];
    assert(tokens_of(e) =~= open + let_rest(e->assignments, *e->body));
    lemma_occurs_concat(t, i, open, let_rest(e->assignments, *e->body));
}

/// The kind of token or construct that parsing expected where it failed.
#[derive(Debug, Clone, Copy, PartialEq, Eq, Structural)]
pub enum Expected {
    OpenDelim,
    CloseDelim,
    Keyword,
    Identifier,
    Literal,
    Expression,
}

/// A token that does not fit the grammar where it stands; `found` is `None`
/// when the tokens ran out.
#[derive(Debug, Clone, Copy, PartialEq, Eq)]
pub struct ParseError<'a> {
    pub expected: Expected,
    pub found: Option<Token<'a>>,
}

/// The model of a token sequence.
pub open spec fn tokens_model<'a>(tokens: Seq<Token<'a>>) -> Seq<TokenView> {
    tokens.map_values(|t: Token<'a>| t@)
}

/// `e` is a `let` term whose bindings and body are spelled from `p` on, up to `end`.
pub open spec fn let_parsed(t: Seq<TokenView>, p: int, e: Term, end: int) -> bool {
    match e {
        Term::Let { assignments, body } => {
            &&& occurs_at(t, p, bindings_tokens(assignments, assignments.len()) + tokens_of(*body))
            &&& end == p + bindings_tokens(assignments, assignments.len()).len() + tokens_of(
                *body,
            ).len()
            &&& forall|a2: Seq<(Seq<char>, Term)>, b2: Term|
                #![trigger let_rest(a2, b2)]
                occurs_at(t, p, let_rest(a2, b2)) ==> a2 == assignments && b2 == *body
        },
        _ => false,
    }
}

/// Parses one expression from the start of `tokens`; tokens after it are left unread.
pub fn parse<'a>(tokens: Vec<Token<'a>>) -> (r: Result<AST, ParseError<'a>>)
    ensures
        match r {
            Ok(e) => occurs_at(tokens_model(tokens@), 0, tokens_of(e@)),
            Err(_) => !has_term_at(tokens_model(tokens@), 0),
        },
{
    let mut parser = Parser::new(tokens);
    parser.parse()
}

/// A recursive-descent parser over a sequence of tokens, with one token of lookahead.
pub struct Parser<'a> {
    tokens: Vec<Token<'a>>,
    pos: usize,
}

impl<'a> Parser<'a> {
    /// The tokens being parsed.
    pub closed spec fn input(&self) -> Seq<TokenView> {
        tokens_model(self.tokens@)
    }

    /// The position of the current token.
    pub closed spec fn position(&self) -> int {
        self.pos as int
    }

    pub closed spec fn wf(&self) -> bool {
        self.pos <= self.tokens.len()
    }

    /// The current token, `None` once all are consumed.
    pub open spec fn current(&self) -> Option<TokenView> {
        if 0 <= self.position() < self.input().len() {
            Some(self.input()[self.position()])
        } else {
            None
        }
    }

    pub fn new(tokens: Vec<Token<'a>>) -> (r: Parser<'a>)
        ensures
            r.wf(),
            r.input() == tokens_model(tokens@),
            r.position() == 0,
    {
        Parser { tokens, pos: 0 }
    }

    /// Parses one expression from the current position.
    pub fn parse(&mut self) -> (r: Result<AST, ParseError<'a>>)
        requires
            old(self).wf(),
        ensures
            final(self).wf(),
            final(self).input() == old(self).input(),
            match r {
                Ok(e) => occurs_at(old(self).input(), old(self).position(), tokens_of(e@))
                    && final(self).position() == old(self).position() + tokens_of(e@).len(),
                Err(_) => !has_term_at(old(self).input(), old(self).position()),
            },
    {
        self.expr()
    }

    fn peek(&self) -> (r: Option<Token<'a>>)
        requires
            self.wf(),
        ensures
            match r {
                Some(t) => self.current() == Some(t@),
                None => self.current() is None && self.position() == self.input().len(),
            },
    {
        if self.pos < self.tokens.len() {
            Some(self.tokens[self.pos])
        } else {
            None
        }
    }

    fn take(&mut self) -> (r: Option<Token<'a>>)
        requires
            old(self).wf(),
        ensures
            final(self).wf(),
            final(self).input() == old(self).input(),
            match r {
                Some(t) => old(self).current() == Some(t@) && final(self).position()
                    == old(self).position() + 1,
                None => old(self).current() is None && final(self).position() == old(
                    self,
                ).position(),
            },
    {
        if self.pos < self.tokens.len() {
            let t = self.tokens[self.pos];
            self.pos = self.pos + 1;
            Some(t)
        } else {
            None
        }
    }

    fn var(&mut self) -> (r: Result<String, ParseError<'a>>)
        requires
            old(self).wf(),
        ensures
            final(self).wf(),
            final(self).input() == old(self).input(),
            match old(self).current() {
                Some(TokenView::Ident(x)) => r matches Ok(s) && s@ == x && final(self).position()
                    == old(self).position() + 1,
                _ => r is Err,
            },
    {
        match self.take() {
            Some(Token::Ident(id)) => Ok(id.to_owned()),
            found => Err(ParseError { expected: Expected::Identifier, found }),
        }
    }

    fn literal(&mut self) -> (r: Result<i32, ParseError<'a>>)
        requires
            old(self).wf(),
        ensures
            final(self).wf(),
            final(self).input() == old(self).input(),
            match old(self).current() {
                Some(TokenView::Literal(n)) => r == Ok::<i32, ParseError<'a>>(n)
                    && final(self).position() == old(self).position() + 1,
                _ => r is Err,
            },
    {
        match self.take() {
            Some(Token::Literal(n)) => Ok(n),
            found => Err(ParseError { expected: Expected::Literal, found }),
        }
    }

    fn expr(&mut self) -> (r: Result<AST, ParseError<'a>>)
        requires
            old(self).wf(),
        ensures
            final(self).wf(),
            final(self).input() == old(self).input(),
            match r {
                Ok(e) => occurs_at(old(self).input(), old(self).position(), tokens_of(e@))
                    && final(self).position() == old(self).position() + tokens_of(e@).len(),
                Err(_) => !has_term_at(old(self).input(), old(self).position()),
            },
        decreases old(self).tokens@.len() - old(self).pos, 1nat,
    {
        let ghost t = self.input();
        let ghost i = self.position();
        match self.peek() {
            Some(Token::Delim(Delim::Open)) => {
                let r = self.comp_expr();
                proof {
                    if r is Err {
                        assert forall|e: Term| !occurs_at(t, i, #[trigger] tokens_of(e)) by {
                            lemma_first_token(e);
                            if occurs_at(t, i, tokens_of(e)) {
                                assert(tokens_of(e)[0] == t[i]);
                            }
                        }
                    }
                }
                r
            },
            Some(Token::Ident(_)) => match self.var() {
                Ok(x) => {
                    let e = Box::new(Expr::Var(x));
                    assert(tokens_of((*e)@) == seq![TokenView::Ident(x@)]);
                    Ok(e)
                },
                Err(err) => Err(err),
            },
            Some(Token::Literal(_)) => match self.literal() {
                Ok(n) => {
                    let e = Box::new(Expr::Literal(n));
                    assert(tokens_of((*e)@) == seq![TokenView::Literal(n)]);
                    Ok(e)
                },
                Err(err) => Err(err),
            },
            found => {
                proof {
                    assert forall|e: Term| !occurs_at(t, i, #[trigger] tokens_of(e)) by {
                        lemma_first_token(e);
                        if occurs_at(t, i, tokens_of(e)) {
                            assert(tokens_of(e)[0] == t[i]);
                        }
                    }
                }
                Err(ParseError { expected: Expected::Expression, found })
            },
        }
    }

    /// Parses a parenthesised form: a `let` or an arithmetic operation.
    fn comp_expr(&mut self) -> (r: Result<AST, ParseError<'a>>)
        requires
            old(self).wf(),
        ensures
            final(self).wf(),
            final(self).input() == old(self).input(),
            match r {
                Ok(e) => occurs_at(old(self).input(), old(self).position(), tokens_of(e@))
                    && final(self).position() == old(self).position() + tokens_of(e@).len(),
                Err(_) => forall|e: Term|
                    (e is Let || e is Math) ==> !occurs_at(
                        old(self).input(),
                        old(self).position(),
                        #[trigger] tokens_of(e),
                    ),
            },
        decreases old(self).tokens@.len() - old(self).pos, 0nat,
    {
        let ghost t = self.input();
        let ghost i = self.position();
        match self.take() {
            Some(Token::Delim(Delim::Open)) => {},
            found => {
                proof {
                    assert forall|e: Term| (e is Let || e is Math) implies !occurs_at(
                        t,
                        i,
                        #[trigger] tokens_of(e),
                    ) by {
                        lemma_first_token(e);
                        if occurs_at(t, i, tokens_of(e)) {
                            assert(tokens_of(e)[0] == t[i]);
                        }
                    }
                }
                return Err(ParseError { expected: Expected::OpenDelim, found });
            },
        }
        let keyword = match self.take() {
            Some(Token::Keyword(k)) => k,
            found => {
                proof {
                    assert forall|e: Term| (e is Let || e is Math) implies !occurs_at(
                        t,
                        i,
                        #[trigger] tokens_of(e),
                    ) by {
                        lemma_first_token(e);
                        if occurs_at(t, i, tokens_of(e)) {
                            assert(tokens_of(e)[1] == t[i + 1]);
                        }
                    }
                }
                return Err(ParseError { expected: Expected::Keyword, found });
            },
        };
        proof {
            assert(occurs_at(t, i, seq![t[i], t[i + 1]]));
        }
        let node = match keyword {
            Keyword::Let => {
                match self.letexpr() {
                    Ok(e) => e,
                    Err(err) => {
                        proof {
                            assert forall|e: Term| (e is Let || e is Math) implies !occurs_at(
                                t,
                                i,
                                #[trigger] tokens_of(e),
                            ) by {
                                lemma_first_token(e);
                                if occurs_at(t, i, tokens_of(e)) {
                                    assert(tokens_of(e)[1] == t[i + 1]);
                                    lemma_let_occurs(t, i, e);
                                }
                            }
                        }
                        return Err(err);
                    },
                }
            },
            _ => {
                let op = if let Keyword::Add = keyword {
                    Op::Add
                } else {
                    Op::Mult
                };
                let left = match self.expr() {
                    Ok(l) => l,
                    Err(err) => {
                        proof {
                            assert forall|e: Term| (e is Let || e is Math) implies !occurs_at(
                                t,
                                i,
                                #[trigger] tokens_of(e),
                            ) by {
                                lemma_first_token(e);
                                if occurs_at(t, i, tokens_of(e)) {
                                    assert(tokens_of(e)[1] == t[i + 1]);
                                    lemma_math_occurs(t, i, e);
                                }
                            }
                        }
                        return Err(err);
                    },
                };
                let right = match self.expr() {
                    Ok(r) => r,
                    Err(err) => {
                        proof {
                            assert forall|e: Term| (e is Let || e is Math) implies !occurs_at(
                                t,
                                i,
                                #[trigger] tokens_of(e),
                            ) by {
                                lemma_first_token(e);
                                if occurs_at(t, i, tokens_of(e)) {
                                    assert(tokens_of(e)[1] == t[i + 1]);
                                    lemma_math_occurs(t, i, e);
                                    lemma_unique(t, i + 2, *e->left, (*left)@);
                                }
                            }
                        }
                        return Err(err);
                    },
                };
                assert(op_keyword(op) == keyword);
                Expr::Math { op, left, right }
            },
        };
        let ghost j = self.position();
        let ghost nv = node@;
        assert(nv is Let ==> let_parsed(t, i + 2, nv, j) && t[i + 1] == TokenView::Keyword(
            Keyword::Let,
        ));
        assert(nv is Math ==> {
            let l = tokens_of(*nv->left);
            let r = tokens_of(*nv->right);
            &&& occurs_at(t, i + 2, l)
            &&& occurs_at(t, i + 2 + l.len(), r)
            &&& j == i + 2 + l.len() + r.len()
            &&& t[i + 1] == TokenView::Keyword(op_keyword(nv->op))
        });
        match self.take() {
            Some(Token::Delim(Delim::Close)) => {},
            found => {
                proof {
                    assert(j >= t.len() || t[j] != TokenView::Delim(Delim::Close));
                    assert forall|e: Term| (e is Let || e is Math) implies !occurs_at(
                        t,
                        i,
                        #[trigger] tokens_of(e),
                    ) by {
                        lemma_first_token(e);
                        if occurs_at(t, i, tokens_of(e)) {
                            assert(tokens_of(e)[1] == t[i + 1]);
                            if e is Let {
                                lemma_let_occurs(t, i, e);
                                if nv is Let {
                                    lemma_let_rest_occurs(t, i + 2, e->assignments, *e->body);
                                }
                            } else {
                                lemma_math_occurs(t, i, e);
                                if nv is Math {
                                    lemma_unique(t, i + 2, *e->left, *nv->left);
                                    lemma_unique(
                                        t,
                                        i + 2 + tokens_of(*e->left).len(),
                                        *e->right,
                                        *nv->right,
                                    );
                                    let c = seq![TokenView::Delim(Delim::Close)];
                                    assert(c[0] == t[j + 0]);
                                }
                            }
                        }
                    }
                }
                return Err(ParseError { expected: Expected::CloseDelim, found });
            },
        }
        proof {
            if node is Let {
                let ghost a = node@->assignments;
                let ghost b = *node@->body;
                lemma_occurs_concat(t, i + 2, bindings_tokens(a, a.len()) + tokens_of(b), seq![TokenView::Delim(Delim::Close)]);
                assert(occurs_at(t, j, seq![TokenView::Delim(Delim::Close)]));
                lemma_let_occurs(t, i, node@);
            } else {
                assert(occurs_at(t, j, seq![TokenView::Delim(Delim::Close)]));
                lemma_math_occurs(t, i, node@);
            }
        }
        Ok(Box::new(node))
    }

    /// Parses the bindings and the body of a `let`, after `( let`. A name
    /// followed by `)` is the body, not a binding.
    fn letexpr(&mut self) -> (r: Result<Expr, ParseError<'a>>)
        requires
            old(self).wf(),
        ensures
            final(self).wf(),
            final(self).input() == old(self).input(),
            match r {
                Ok(e) => let_parsed(old(self).input(), old(self).position(), e@, final(self).position()),
                Err(_) => forall|a2: Seq<(Seq<char>, Term)>, b2: Term|
                    !occurs_at(old(self).input(), old(self).position(), #[trigger] let_rest(a2, b2)),
            },
        decreases old(self).tokens@.len() - old(self).pos, 2nat,
    {
        let ghost t = self.input();
        let ghost p = self.position();
        let mut assignments: Vec<Assign> = Vec::new();
        proof {
            let a0 = assigns_view(assignments@, assignments@.len());
            assert(a0 =~= seq![]);
            assert(bindings_tokens(a0, 0) =~= seq![]);
            assert forall|a2: Seq<(Seq<char>, Term)>, b2: Term|
                #![trigger let_rest(a2, b2)]
                occurs_at(t, p, let_rest(a2, b2)) implies a0.len() <= a2.len()
                    && a2.subrange(0, a0.len() as int) == a0 by {
                assert(a2.subrange(0, 0) =~= a0);
            }
        }
        loop
            invariant
                self.wf(),
                self.input() == t,
                t == old(self).input(),
                p == old(self).position(),
                bindings_parsed(t, p, assigns_view(assignments@, assignments@.len()), self.position()),
            ensures
                !(self.current() matches Some(TokenView::Ident(_))),
            decreases self.tokens@.len() - self.pos,
        {
            let ghost a = assigns_view(assignments@, assignments@.len());
            let ghost q = self.position();
            proof {
                lemma_assigns_view(assignments@, assignments@.len());
            }
            match self.peek() {
                Some(Token::Ident(_)) => {},
                _ => break,
            }
            let var = match self.var() {
                Ok(x) => x,
                Err(err) => return Err(err),
            };
            let next = self.peek();
            if let Some(Token::Delim(Delim::Close)) = next {
                let ghost x = var@;
                let body = Box::new(Expr::Var(var));
                assert((*body)@ == Term::Var(x));
                let ghost bv = (*body)@;
                let e = Expr::Let { assignments, expr: body };
                assert(*e@->body == bv);
                proof {
                    assert(e@->assignments == a);
                    lemma_occurs_concat(t, p, bindings_tokens(a, a.len()), seq![TokenView::Ident(var@)]);
                    assert(tokens_of(Term::Var(var@)) == seq![TokenView::Ident(var@)]);
                    assert forall|a2: Seq<(Seq<char>, Term)>, b2: Term|
                        #![trigger let_rest(a2, b2)]
                        occurs_at(t, p, let_rest(a2, b2)) implies a2 == a && b2 == Term::Var(var@) by {
                        lemma_candidate(t, p, a, a2, b2);
                        if a2.len() > a.len() {
                            lemma_first_token(a2[a.len() as int].1);
                            assert(tokens_of(a2[a.len() as int].1)[0] == t[q + 1]);
                        } else {
                            lemma_first_token(b2);
                            assert(tokens_of(b2)[0] == t[q]);
                        }
                    }
                }
                assert(occurs_at(t, q, seq![TokenView::Ident(var@)]));
                return Ok(e);
            }
            let value = match self.expr() {
                Ok(v) => v,
                Err(err) => {
                    proof {
                        assert forall|a2: Seq<(Seq<char>, Term)>, b2: Term|
                            !occurs_at(t, p, #[trigger] let_rest(a2, b2)) by {
                            if occurs_at(t, p, let_rest(a2, b2)) {
                                lemma_candidate(t, p, a, a2, b2);
                                if a2.len() > a.len() {
                                    assert(has_term_at(t, q + 1));
                                } else {
                                    lemma_first_token(b2);
                                    assert(tokens_of(b2)[0] == t[q]);
                                }
                            }
                        }
                    }
                    return Err(err);
                },
            };
            let ghost v = (*value)@;
            let ghost x = var@;
            assignments.push(Assign { var, expr: value });
            proof {
                let a1 = assigns_view(assignments@, assignments@.len());
                lemma_assigns_view(assignments@, assignments@.len());
                assert(a1 =~= a.push((x, v)));
                assert(a1.subrange(0, a.len() as int) =~= a.subrange(0, a.len() as int));
                lemma_bindings_prefix(a1, a, a.len());
                assert(bindings_tokens(a1, a1.len()) == bindings_tokens(a, a.len()) + seq![
                    TokenView::Ident(x),
                ] + tokens_of(v));
                lemma_occurs_concat(t, p, bindings_tokens(a, a.len()), seq![TokenView::Ident(x)]);
                lemma_occurs_concat(
                    t,
                    p,
                    bindings_tokens(a, a.len()) + seq![TokenView::Ident(x)],
                    tokens_of(v),
                );
                assert forall|a2: Seq<(Seq<char>, Term)>, b2: Term|
                    #![trigger let_rest(a2, b2)]
                    occurs_at(t, p, let_rest(a2, b2)) implies a1.len() <= a2.len()
                        && a2.subrange(0, a1.len() as int) == a1 by {
                    lemma_candidate(t, p, a, a2, b2);
                    if a2.len() > a.len() {
                        lemma_unique(t, q + 1, a2[a.len() as int].1, v);
                        assert(a2.subrange(0, a1.len() as int) =~= a1) by {
                            assert forall|j: int| 0 <= j < a.len() implies a2[j] == a1[j] by {
                                assert(a2.subrange(0, a.len() as int)[j] == a[j]);
                            }
                        }
                    } else {
                        lemma_first_token(b2);
                        assert(tokens_of(b2)[0] == t[q]);
                    }
                }
            }
        }
        let ghost a = assigns_view(assignments@, assignments@.len());
        let ghost q = self.position();
        let body = match self.expr() {
            Ok(b) => b,
            Err(err) => {
                proof {
                    assert forall|a2: Seq<(Seq<char>, Term)>, b2: Term|
                        !occurs_at(t, p, #[trigger] let_rest(a2, b2)) by {
                        if occurs_at(t, p, let_rest(a2, b2)) {
                            lemma_candidate(t, p, a, a2, b2);
                            if a2.len() == a.len() {
                                assert(has_term_at(t, q));
                            }
                        }
                    }
                }
                return Err(err);
            },
        };
        let e = Expr::Let { assignments, expr: body };
        proof {
            lemma_occurs_concat(t, p, bindings_tokens(a, a.len()), tokens_of((*body)@));
            assert forall|a2: Seq<(Seq<char>, Term)>, b2: Term|
                #![trigger let_rest(a2, b2)]
                occurs_at(t, p, let_rest(a2, b2)) implies a2 == a && b2 == (*body)@ by {
                lemma_candidate(t, p, a, a2, b2);
                if a2.len() == a.len() {
                    lemma_unique(t, q, b2, (*body)@);
                }
            }
        }
        Ok(e)
    }
}

} // verus!
