use vstd::prelude::*;
use vstd::string::*;

verus! {

/// A parenthesis.
#[derive(Debug, Clone, Copy, PartialEq, Eq, Structural)]
pub enum Delim {
    Open,
    Close,
}

/// A reserved word of the language.
#[derive(Debug, Clone, Copy, PartialEq, Eq, Structural)]
pub enum Keyword {
    Let,
    Add,
    Mult,
}

/// A token; an identifier borrows its text from the source.
#[derive(Debug, Clone, Copy, PartialEq, Eq)]
pub enum Token<'a> {
    Delim(Delim),
    Keyword(Keyword),
    Ident(&'a str),
    Literal(i32),
}

/// The mathematical model of a token: an identifier is its characters.
pub enum TokenView {
    Delim(Delim),
    Keyword(Keyword),
    Ident(Seq<char>),
    Literal(i32),
}

impl<'a> View for Token<'a> {
    type V = TokenView;

    open spec fn view(&self) -> TokenView {
        match *self {
            Token::Delim(d) => TokenView::Delim(d),
            Token::Keyword(k) => TokenView::Keyword(k),
            Token::Ident(id) => TokenView::Ident(id@),
            Token::Literal(n) => TokenView::Literal(n),
        }
    }
}

/// Why tokenizing failed.
#[derive(Debug, Clone, Copy, PartialEq, Eq, Structural)]
pub enum LexError {
    /// A character that starts no token.
    UnexpectedChar(char),
    /// A run of numeric characters that is not an `i32` in decimal.
    InvalidLiteral,
}

/// What `char::is_whitespace` says of a character (Unicode `White_Space`).
pub uninterp spec fn is_whitespace_char(c: char) -> bool;

/// What `char::is_numeric` says of a character (Unicode general categories `N*`).
pub uninterp spec fn is_numeric_char(c: char) -> bool;

/// What `char::is_alphabetic` says of a character (Unicode `Alphabetic`).
pub uninterp spec fn is_alphabetic_char(c: char) -> bool;

/// Relies on `char::is_whitespace`.
#[verifier::external_body]
fn char_is_whitespace(c: char) -> (r: bool)
    ensures
        r == is_whitespace_char(c),
{
    c.is_whitespace()
}

/// Relies on `char::is_numeric`.
#[verifier::external_body]
fn char_is_numeric(c: char) -> (r: bool)
    ensures
        r == is_numeric_char(c),
{
    c.is_numeric()
}

/// Relies on `char::is_alphabetic`.
#[verifier::external_body]
fn char_is_alphabetic(c: char) -> (r: bool)
    ensures
        r == is_alphabetic_char(c),
{
    c.is_alphabetic()
}

/// Relies on `char::is_alphanumeric`, documented as `is_alphabetic() || is_numeric()`.
#[verifier::external_body]
fn char_is_alphanumeric(c: char) -> (r: bool)
    ensures
        r == (is_alphabetic_char(c) || is_numeric_char(c)),
{
    c.is_alphanumeric()
}

/// The classes of characters that make up a run.
pub enum CharClass {
    Whitespace,
    Numeric,
    Alphanumeric,
}

pub open spec fn in_class(c: char, class: CharClass) -> bool {
    match class {
        CharClass::Whitespace => is_whitespace_char(c),
        CharClass::Numeric => is_numeric_char(c),
        CharClass::Alphanumeric => is_alphabetic_char(c) || is_numeric_char(c),
    }
}

/// The end of the longest run of characters of `class` that starts at `i`.
pub open spec fn run_end(s: Seq<char>, i: int, class: CharClass) -> int
    decreases s.len() - i,
{
    if 0 <= i < s.len() && in_class(s[i], class) {
        run_end(s, i + 1, class)
    } else {
        i
    }
}

pub proof fn lemma_run_end(s: Seq<char>, i: int, class: CharClass)
    requires
        0 <= i <= s.len(),
    ensures
        i <= run_end(s, i, class) <= s.len(),
        forall|k: int| i <= k < run_end(s, i, class) ==> in_class(#[trigger] s[k], class),
        run_end(s, i, class) < s.len() ==> !in_class(s[run_end(s, i, class)], class),
    decreases s.len() - i,
{
    if i < s.len() && in_class(s[i], class) {
        lemma_run_end(s, i + 1, class);
    }
}

pub open spec fn is_digit(c: char) -> bool {
    '0' <= c <= '9'
}

/// The number that a sequence of decimal digits denotes.
pub open spec fn decimal_value(s: Seq<char>) -> int
    decreases s.len(),
{
    if s.len() == 0 {
        0
    } else {
        decimal_value(s.drop_last()) * 10 + (s.last() as int - '0' as int)
    }
}

/// The `i32` that a run of numeric characters denotes, if any.
pub open spec fn literal_value(s: Seq<char>) -> Option<i32> {
    if s.len() > 0 && (forall|k: int| 0 <= k < s.len() ==> is_digit(#[trigger] s[k]))
        && decimal_value(s) <= i32::MAX {
        Some(decimal_value(s) as i32)
    } else {
        None
    }
}

/// A word is a keyword when it spells one, else an identifier.
pub open spec fn word_token(w: Seq<char>) -> TokenView {
    if w == seq!['l', 'e', 't'] {
        TokenView::Keyword(Keyword::Let)
    } else if w == seq!['a', 'd', 'd'] {
        TokenView::Keyword(Keyword::Add)
    } else if w == seq!['m', 'u', 'l', 't'] {
        TokenView::Keyword(Keyword::Mult)
    } else {
        TokenView::Ident(w)
    }
}

/// One step of the tokenizer from position `i` of `s`: `None` at the end of
/// the input, else the token or error and the position after it. After an
/// error the position is the end, so the run stops there.
pub open spec fn next_token(s: Seq<char>, i: int) -> Option<(Result<TokenView, LexError>, int)> {
    let k = run_end(s, i, CharClass::Whitespace);
    if k >= s.len() {
        None
    } else {
        let c = s[k];
        if c == '(' {
            Some((Ok(TokenView::Delim(Delim::Open)), k + 1))
        } else if c == ')' {
            Some((Ok(TokenView::Delim(Delim::Close)), k + 1))
        } else if is_numeric_char(c) {
            let j = run_end(s, k, CharClass::Numeric);
            match literal_value(s.subrange(k, j)) {
                Some(n) => Some((Ok(TokenView::Literal(n)), j)),
                None => Some((Err(LexError::InvalidLiteral), s.len() as int)),
            }
        } else if is_alphabetic_char(c) {
            let j = run_end(s, k, CharClass::Alphanumeric);
            Some((Ok(word_token(s.subrange(k, j))), j))
        } else {
            Some((Err(LexError::UnexpectedChar(c)), s.len() as int))
        }
    }
}

pub proof fn lemma_next_token_advances(s: Seq<char>, i: int)
    requires
        0 <= i <= s.len(),
    ensures
        next_token(s, i) matches Some((_, j)) ==> i < j <= s.len(),
{
    lemma_run_end(s, i, CharClass::Whitespace);
    let k = run_end(s, i, CharClass::Whitespace);
    if k < s.len() {
        lemma_run_end(s, k, CharClass::Numeric);
        lemma_run_end(s, k, CharClass::Alphanumeric);
    }
}

/// The tokens of `s` from position `i` on, or the first error.
pub open spec fn lex_from(s: Seq<char>, i: int) -> Result<Seq<TokenView>, LexError>
    decreases s.len() - i,
    via lex_from_decreases
{
    if !(0 <= i <= s.len()) {
        Ok(seq![])
    } else {
        match next_token(s, i) {
            None => Ok(seq![]),
            Some((Err(e), _)) => Err(e),
            Some((Ok(t), j)) => match lex_from(s, j) {
                Ok(ts) => Ok(seq![t] + ts),
                Err(e) => Err(e),
            },
        }
    }
}

#[via_fn]
proof fn lex_from_decreases(s: Seq<char>, i: int) {
    if 0 <= i <= s.len() {
        lemma_next_token_advances(s, i);
    }
}

/// The tokens of a whole source text, or the first error.
pub open spec fn lex(s: Seq<char>) -> Result<Seq<TokenView>, LexError> {
    lex_from(s, 0)
}

/// The model of one step's result.
pub open spec fn step_view<'a>(r: Result<Token<'a>, LexError>) -> Result<TokenView, LexError> {
    match r {
        Ok(t) => Ok(t@),
        Err(e) => Err(e),
    }
}

proof fn lemma_decimal_value_nonneg(s: Seq<char>)
    requires
        forall|k: int| 0 <= k < s.len() ==> is_digit(#[trigger] s[k]),
    ensures
        decimal_value(s) >= 0,
    decreases s.len(),
{
    if s.len() > 0 {
        lemma_decimal_value_nonneg(s.drop_last());
    }
}

/// A prefix of a run of digits denotes no more than the whole run.
proof fn lemma_decimal_value_prefix(s: Seq<char>, j: int)
    requires
        forall|k: int| 0 <= k < s.len() ==> is_digit(#[trigger] s[k]),
        0 <= j <= s.len(),
    ensures
        decimal_value(s.subrange(0, j)) <= decimal_value(s),
    decreases s.len(),
{
    if j < s.len() {
        let t = s.drop_last();
        lemma_decimal_value_prefix(t, j);
        lemma_decimal_value_nonneg(t);
        assert(t.subrange(0, j) =~= s.subrange(0, j));
    } else {
        assert(s.subrange(0, j) =~= s);
    }
}

/// The `i32` that `text` spells in decimal digits, if it is one.
fn parse_literal(text: &str) -> (r: Option<i32>)
    ensures
        r == literal_value(text@),
{
    let n = text.unicode_len();
    if n == 0 {
        return None;
    }
    let mut acc: i32 = 0;
    let mut i: usize = 0;
    while i < n
        invariant
            n == text@.len(),
            i <= n,
            forall|k: int| 0 <= k < i ==> is_digit(#[trigger] text@[k]),
            acc as int == decimal_value(text@.subrange(0, i as int)),
            acc >= 0,
        decreases n - i,
    {
        let c = text.get_char(i);
        assert(text@.subrange(0, i + 1).drop_last() =~= text@.subrange(0, i as int));
        if !('0' <= c && c <= '9') {
            return None;
        }
        let d = (c as u32 - '0' as u32) as i32;
        if acc > (i32::MAX - d) / 10 {
            proof {
                assert(acc * 10 + d > i32::MAX) by (nonlinear_arith)
                    requires
                        acc > (i32::MAX - d) / 10,
                        0 <= d <= 9,
                ;
                assert forall|k: int| 0 <= k < i + 1 implies is_digit(
                    #[trigger] text@.subrange(0, i + 1)[k],
                ) by {}
                if forall|k: int| 0 <= k < n ==> is_digit(#[trigger] text@[k]) {
                    lemma_decimal_value_prefix(text@, i + 1);
                }
            }
            return None;
        }
        assert(acc * 10 + d <= i32::MAX) by (nonlinear_arith)
            requires
                acc <= (i32::MAX - d) / 10,
                0 <= d <= 9,
                acc >= 0,
        ;
        acc = acc * 10 + d;
        i = i + 1;
    }
    assert(text@.subrange(0, n as int) =~= text@);
    Some(acc)
}

/// Whether two texts hold the same characters.
fn same_text(a: &str, b: &str) -> (r: bool)
    ensures
        r == (a@ == b@),
{
    let n = a.unicode_len();
    if n != b.unicode_len() {
        return false;
    }
    let mut i: usize = 0;
    while i < n
        invariant
            n == a@.len(),
            n == b@.len(),
            i <= n,
            a@.subrange(0, i as int) == b@.subrange(0, i as int),
        decreases n - i,
    {
        if a.get_char(i) != b.get_char(i) {
            return false;
        }
        assert(a@.subrange(0, i + 1) =~= a@.subrange(0, i as int).push(a@[i as int]));
        assert(b@.subrange(0, i + 1) =~= b@.subrange(0, i as int).push(b@[i as int]));
        i = i + 1;
    }
    assert(a@ =~= a@.subrange(0, n as int));
    assert(b@ =~= b@.subrange(0, n as int));
    true
}

/// A lazy, single-pass tokenizer over a source text.
pub struct Lexer<'a> {
    expr: &'a str,
    pos: usize,
    len: usize,
}

impl<'a> Lexer<'a> {
    pub closed spec fn source(&self) -> Seq<char> {
        self.expr@
    }

    /// The position of the next character to read.
    pub closed spec fn position(&self) -> int {
        self.pos as int
    }

    /// A lexer at the start of `expr`.
    pub closed spec fn start(expr: &'a str) -> Lexer<'a> {
        Lexer { expr, pos: 0, len: expr@.len() as usize }
    }

    pub closed spec fn wf(&self) -> bool {
        &&& self.len as int == self.expr@.len()
        &&& self.pos <= self.len
    }

    pub fn new(expr: &'a str) -> (r: Lexer<'a>)
        ensures
            r == Lexer::start(expr),
            r.wf(),
            r.source() == expr@,
            r.position() == 0,
    {
        let len = expr.unicode_len();
        Lexer { expr, pos: 0, len }
    }

    /// Consumes the longest run of characters of `class` and returns it.
    fn take_while(&mut self, class: CharClass) -> (r: &'a str)
        requires
            old(self).wf(),
        ensures
            final(self).wf(),
            final(self).source() == old(self).source(),
            final(self).position() == run_end(old(self).source(), old(self).position(), class),
            r@ == old(self).source().subrange(old(self).position(), final(self).position()),
    {
        let start = self.pos;
        proof {
            lemma_run_end(self.expr@, start as int, class);
        }
        while self.pos < self.len
            invariant
                self.wf(),
                self.expr == old(self).expr,
                start <= self.pos,
                run_end(self.expr@, start as int, class) == run_end(self.expr@, self.pos as int, class),
            ensures
                self.wf(),
                self.expr == old(self).expr,
                run_end(self.expr@, start as int, class) == self.pos,
            decreases self.len - self.pos,
        {
            let c = self.expr.get_char(self.pos);
            let inside = match class {
                CharClass::Whitespace => char_is_whitespace(c),
                CharClass::Numeric => char_is_numeric(c),
                CharClass::Alphanumeric => char_is_alphanumeric(c),
            };
            if !inside {
                assert(run_end(self.expr@, self.pos as int, class) == self.pos as int);
                break;
            }
            self.pos = self.pos + 1;
        }
        self.expr.substring_char(start, self.pos)
    }

    fn skip_whitespace(&mut self)
        requires
            old(self).wf(),
        ensures
            final(self).wf(),
            final(self).source() == old(self).source(),
            final(self).position() == run_end(
                old(self).source(),
                old(self).position(),
                CharClass::Whitespace,
            ),
    {
        let _ = self.take_while(CharClass::Whitespace);
    }

    /// Reads the parenthesis at the current position.
    fn next_delimiter(&mut self) -> (r: Token<'a>)
        requires
            old(self).wf(),
            old(self).position() < old(self).source().len(),
            old(self).source()[old(self).position()] == '(' || old(self).source()[old(self).position()] == ')',
        ensures
            final(self).wf(),
            final(self).source() == old(self).source(),
            final(self).position() == old(self).position() + 1,
            r@ == (if old(self).source()[old(self).position()] == '(' {
                TokenView::Delim(Delim::Open)
            } else {
                TokenView::Delim(Delim::Close)
            }),
    {
        let c = self.expr.get_char(self.pos);
        self.pos = self.pos + 1;
        if c == '(' {
            Token::Delim(Delim::Open)
        } else {
            Token::Delim(Delim::Close)
        }
    }

    /// Reads the run of numeric characters at the current position as a literal.
    fn next_literal(&mut self) -> (r: Result<Token<'a>, LexError>)
        requires
            old(self).wf(),
        ensures
            final(self).wf(),
            final(self).source() == old(self).source(),
            ({
                let s = old(self).source();
                let j = run_end(s, old(self).position(), CharClass::Numeric);
                match literal_value(s.subrange(old(self).position(), j)) {
                    Some(n) => r == Ok::<Token<'a>, LexError>(Token::Literal(n))
                        && final(self).position() == j,
                    None => r == Err::<Token<'a>, LexError>(LexError::InvalidLiteral)
                        && final(self).position() == s.len(),
                }
            }),
    {
        let text = self.take_while(CharClass::Numeric);
        match parse_literal(text) {
            Some(n) => Ok(Token::Literal(n)),
            None => {
                self.pos = self.len;
                Err(LexError::InvalidLiteral)
            },
        }
    }

    /// Reads the run of alphanumeric characters at the current position as a
    /// keyword or an identifier.
    fn next_identifier(&mut self) -> (r: Token<'a>)
        requires
            old(self).wf(),
        ensures
            final(self).wf(),
            final(self).source() == old(self).source(),
            final(self).position() == run_end(
                old(self).source(),
                old(self).position(),
                CharClass::Alphanumeric,
            ),
            r@ == word_token(old(self).source().subrange(old(self).position(), final(self).position())),
    {
        let word = self.take_while(CharClass::Alphanumeric);
        proof {
            reveal_strlit("let");
            reveal_strlit("add");
            reveal_strlit("mult");
            assert("let"@ =~= seq!['l', 'e', 't']);
            assert("add"@ =~= seq!['a', 'd', 'd']);
            assert("mult"@ =~= seq!['m', 'u', 'l', 't']);
        }
        if same_text(word, "let") {
            Token::Keyword(Keyword::Let)
        } else if same_text(word, "add") {
            Token::Keyword(Keyword::Add)
        } else if same_text(word, "mult") {
            Token::Keyword(Keyword::Mult)
        } else {
            Token::Ident(word)
        }
    }

    /// The next token, `None` at the end of the input. After an error the
    /// lexer is at the end of its input.
    pub fn next(&mut self) -> (r: Option<Result<Token<'a>, LexError>>)
        requires
            old(self).wf(),
        ensures
            final(self).wf(),
            final(self).source() == old(self).source(),
            match next_token(old(self).source(), old(self).position()) {
                None => r is None && final(self).position() == old(self).source().len(),
                Some((t, j)) => r matches Some(x) && step_view(x) == t && final(self).position() == j,
            },
    {
        self.skip_whitespace();
        proof {
            lemma_run_end(self.expr@, old(self).pos as int, CharClass::Whitespace);
        }
        if self.pos >= self.len {
            return None;
        }
        let c = self.expr.get_char(self.pos);
        if c == '(' || c == ')' {
            Some(Ok(self.next_delimiter()))
        } else if char_is_numeric(c) {
            Some(self.next_literal())
        } else if char_is_alphabetic(c) {
            Some(Ok(self.next_identifier()))
        } else {
            self.pos = self.len;
            Some(Err(LexError::UnexpectedChar(c)))
        }
    }
}

impl<'a> From<&'a str> for Lexer<'a> {
    fn from(expr: &'a str) -> (r: Lexer<'a>) {
        Lexer::new(expr)
    }
}

impl<'a> vstd::std_specs::convert::FromSpecImpl<&'a str> for Lexer<'a> {
    open spec fn obeys_from_spec() -> bool {
        true
    }

    open spec fn from_spec(expr: &'a str) -> Lexer<'a> {
        Lexer::start(expr)
    }
}

/// The model of what `tokenize` returns.
pub open spec fn tokens_view<'a>(r: Result<Vec<Token<'a>>, LexError>) -> Result<Seq<TokenView>, LexError> {
    match r {
        Ok(v) => Ok(v@.map_values(|t: Token<'a>| t@)),
        Err(e) => Err(e),
    }
}

/// All the tokens of `source`, or the first error met.
pub fn tokenize<'a>(source: &'a str) -> (r: Result<Vec<Token<'a>>, LexError>)
    ensures
        tokens_view(r) == lex(source@),
{
    let mut lexer = Lexer::new(source);
    let mut tokens: Vec<Token<'a>> = Vec::new();
    loop
        invariant
            lexer.wf(),
            lexer.source() == source@,
            0 <= lexer.position() <= source@.len(),
            lex(source@) == match lex_from(source@, lexer.position()) {
                Ok(ts) => Ok(tokens@.map_values(|t: Token<'a>| t@) + ts),
                Err(e) => Err(e),
            },
        decreases source@.len() - lexer.position(),
    {
        proof {
            lemma_next_token_advances(source@, lexer.position());
        }
        let ghost before = tokens@;
        match lexer.next() {
            None => {
                assert(tokens@.map_values(|t: Token<'a>| t@) + seq![] =~= tokens@.map_values(|t: Token<'a>| t@));
                return Ok(tokens);
            },
            Some(Err(e)) => {
                return Err(e);
            },
            Some(Ok(t)) => {
                tokens.push(t);
                assert(tokens@.map_values(|t: Token<'a>| t@) =~= before.map_values(|t: Token<'a>| t@).push(t@));
                proof {
                    assert forall|ts: Seq<TokenView>| #![auto] tokens@.map_values(|t: Token<'a>| t@) + ts
                        =~= before.map_values(|t: Token<'a>| t@) + (seq![t@] + ts) by {}
                }
            },
        }
    }
}

} // verus!
