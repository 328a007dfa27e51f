use crate::token::Token;
use crate::tokenizer::{is_literal_char, is_space_char, lemma_literal_run_tokenizes, lemma_tokenize_ignores_whitespace, literal_value, spec_tokenize, tokenize, valid_literal};
use crate::value::{
    spec_add, spec_div, spec_mul, spec_neg, spec_rem, spec_sub, Value,
};
use vstd::prelude::*;

verus! {

/// Why an evaluation failed.  Errors are ordinary values: every failure
/// is terminal for one evaluation and is reported to the caller.
#[derive(Clone, Copy, Debug, PartialEq, Eq, Structural)]
pub enum EvalError {
    /// The right operand of `/` is zero.
    DivisionByZero,
    /// The right operand of `%` is zero.
    ModuloByZero,
    /// The token sequence ended where a factor was expected.
    UnexpectedEndOfInput,
    /// A factor position holds a token that cannot start a factor;
    /// carries that token.
    UnexpectedToken(Token),
    /// A parenthesized expression is not closed by `)`.
    UnmatchedParenthesis,
    /// Tokens remain after the top-level expression; carries the
    /// position of the first one.
    TrailingTokens(usize),
    /// An exact intermediate value left the `u128` representation.
    Overflow,
}

/// The outcome of one grammar rule: a value and the position just past
/// the tokens it consumed, or an error.
pub enum Parsed {
    Done(Value, int),
    Fail(EvalError),
}

/// The position at which parsing resumes after a sub-rule returned
/// position `j`, clamped into the token range `0..=n`.  A sub-rule
/// consumes at least one token, so parsing always moves past `i`; the
/// clamp keeps the grammar's recursion well-founded.
pub open spec fn resume_at(i: int, j: int, n: int) -> int {
    if i < j <= n {
        j
    } else {
        i + 1
    }
}

/// Factor := `Number` | `(` Expression `)` | `-` Factor.
pub open spec fn spec_factor(t: Seq<Token>, i: int) -> Parsed
    decreases t.len() - i, 0int,
{
    if i < 0 || i >= t.len() {
        Parsed::Fail(EvalError::UnexpectedEndOfInput)
    } else {
        match t[i] {
            Token::Number(v) => Parsed::Done(v, i + 1),
            Token::LParen => match spec_expr(t, i + 1) {
                Parsed::Done(v, j) => if 0 <= j < t.len() && t[j] == Token::RParen {
                    Parsed::Done(v, j + 1)
                } else {
                    Parsed::Fail(EvalError::UnmatchedParenthesis)
                },
                Parsed::Fail(e) => Parsed::Fail(e),
            },
            Token::Sub => match spec_factor(t, i + 1) {
                Parsed::Done(v, j) => Parsed::Done(spec_neg(v), j),
                Parsed::Fail(e) => Parsed::Fail(e),
            },
            _ => Parsed::Fail(EvalError::UnexpectedToken(t[i])),
        }
    }
}

/// The rest of a Term after its first Factor: fold `*`, `/`, `%` onto
/// the accumulated value, left to right.  The right operand of `/` and
/// `%` is checked against zero before the operation is performed.
pub open spec fn spec_term_more(t: Seq<Token>, i: int, acc: Value) -> Parsed
    decreases t.len() - i, 0int,
{
    if i < 0 || i >= t.len() {
        Parsed::Done(acc, i)
    } else if t[i] == Token::Mul {
        match spec_factor(t, i + 1) {
            Parsed::Done(v, j) => match spec_mul(acc, v) {
                Some(c) => spec_term_more(t, resume_at(i, j, t.len() as int), c),
                None => Parsed::Fail(EvalError::Overflow),
            },
            Parsed::Fail(e) => Parsed::Fail(e),
        }
    } else if t[i] == Token::Div {
        match spec_factor(t, i + 1) {
            Parsed::Done(v, j) => if v.num == 0 {
                Parsed::Fail(EvalError::DivisionByZero)
            } else {
                match spec_div(acc, v) {
                    Some(c) => spec_term_more(t, resume_at(i, j, t.len() as int), c),
                    None => Parsed::Fail(EvalError::Overflow),
                }
            },
            Parsed::Fail(e) => Parsed::Fail(e),
        }
    } else if t[i] == Token::Mod {
        match spec_factor(t, i + 1) {
            Parsed::Done(v, j) => if v.num == 0 {
                Parsed::Fail(EvalError::ModuloByZero)
            } else {
                match spec_rem(acc, v) {
                    Some(c) => spec_term_more(t, resume_at(i, j, t.len() as int), c),
                    None => Parsed::Fail(EvalError::Overflow),
                }
            },
            Parsed::Fail(e) => Parsed::Fail(e),
        }
    } else {
        Parsed::Done(acc, i)
    }
}

/// Term := Factor ( (`*` | `/` | `%`) Factor )*, left-associative.
pub open spec fn spec_term(t: Seq<Token>, i: int) -> Parsed
    decreases t.len() - i, 1int,
{
    if i < 0 || i >= t.len() {
        Parsed::Fail(EvalError::UnexpectedEndOfInput)
    } else {
        match spec_factor(t, i) {
            Parsed::Done(v, j) => spec_term_more(t, resume_at(i, j, t.len() as int), v),
            Parsed::Fail(e) => Parsed::Fail(e),
        }
    }
}

/// The rest of an Expression after its first Term: fold `+` and `-`
/// onto the accumulated value, left to right.
pub open spec fn spec_expr_more(t: Seq<Token>, i: int, acc: Value) -> Parsed
    decreases t.len() - i, 0int,
{
    if i < 0 || i >= t.len() {
        Parsed::Done(acc, i)
    } else if t[i] == Token::Add {
        match spec_term(t, i + 1) {
            Parsed::Done(v, j) => match spec_add(acc, v) {
                Some(c) => spec_expr_more(t, resume_at(i, j, t.len() as int), c),
                None => Parsed::Fail(EvalError::Overflow),
            },
            Parsed::Fail(e) => Parsed::Fail(e),
        }
    } else if t[i] == Token::Sub {
        match spec_term(t, i + 1) {
            Parsed::Done(v, j) => match spec_sub(acc, v) {
                Some(c) => spec_expr_more(t, resume_at(i, j, t.len() as int), c),
                None => Parsed::Fail(EvalError::Overflow),
            },
            Parsed::Fail(e) => Parsed::Fail(e),
        }
    } else {
        Parsed::Done(acc, i)
    }
}

/// Expression := Term ( (`+` | `-`) Term )*, left-associative.
pub open spec fn spec_expr(t: Seq<Token>, i: int) -> Parsed
    decreases t.len() - i, 2int,
{
    if i < 0 || i >= t.len() {
        Parsed::Fail(EvalError::UnexpectedEndOfInput)
    } else {
        match spec_term(t, i) {
            Parsed::Done(v, j) => spec_expr_more(t, resume_at(i, j, t.len() as int), v),
            Parsed::Fail(e) => Parsed::Fail(e),
        }
    }
}

/// The result of evaluating a token sequence from position `i`: the
/// top-level Expression, which must consume every remaining token.
pub open spec fn spec_calculate(t: Seq<Token>, i: int) -> Result<Value, EvalError> {
    match spec_expr(t, i) {
        Parsed::Done(v, j) => if j == t.len() {
            Ok(v)
        } else {
            Err(EvalError::TrailingTokens(j as usize))
        },
        Parsed::Fail(e) => Err(e),
    }
}

/// The result of evaluating a whole source text.
pub open spec fn spec_evaluate(s: Seq<char>) -> Result<Value, EvalError> {
    spec_calculate(spec_tokenize(s), 0)
}

/// A recursive-descent evaluator over an owned token sequence.  `pos` is
/// the cursor marking the next unconsumed token; it only advances, and a
/// token is passed only once the grammar rule that owns it is done.
pub struct Calculator {
    tokens: Vec<Token>,
    pos: usize,
}

impl Calculator {
    /// The owned token sequence.
    pub closed spec fn toks(self) -> Seq<Token> {
        self.tokens@
    }

    /// The cursor: the index of the next unconsumed token.
    pub closed spec fn cursor(self) -> int {
        self.pos as int
    }

    /// Well-formed: the cursor stays within the sequence and every
    /// number token carries a well-formed value.
    pub open spec fn wf(self) -> bool {
        &&& 0 <= self.cursor() <= self.toks().len()
        &&& forall|k: int| 0 <= k < self.toks().len() ==> (#[trigger] self.toks()[k]).wf()
    }

    /// Tokenize a source text.  Total: unrecognized input becomes
    /// invalid tokens, deferring all validation to evaluation.
    pub fn parse_tokens(src: String) -> (tokens: Vec<Token>)
        ensures
            tokens@ == spec_tokenize(src@),
            forall|k: int| 0 <= k < tokens@.len() ==> (#[trigger] tokens@[k]).wf(),
    {
        tokenize(src.as_str())
    }

    /// Build an evaluator for one source text, with the cursor at the
    /// start of its token sequence.
    pub fn new(src: String) -> (c: Calculator)
        ensures
            c.wf(),
            c.toks() == spec_tokenize(src@),
            c.cursor() == 0,
    {
        let tokens = Self::parse_tokens(src);
        Calculator { tokens, pos: 0 }
    }

    /// Evaluate the token sequence from the cursor on.  Fails if tokens
    /// remain once the top-level expression is parsed.
    pub fn calculate(&mut self) -> (r: Result<Value, EvalError>)
        requires
            old(self).wf(),
        ensures
            final(self).wf(),
            final(self).toks() == old(self).toks(),
            old(self).cursor() <= final(self).cursor(),
            r == spec_calculate(old(self).toks(), old(self).cursor()),
            r matches Ok(v) ==> v.wf(),
    {
        let result = match self.parse_expression() {
            Ok(v) => v,
            Err(e) => {
                return Err(e);
            },
        };
        if self.pos < self.tokens.len() {
            return Err(EvalError::TrailingTokens(self.pos));
        }
        Ok(result)
    }

    /// Expression := Term ( (`+` | `-`) Term )*.
    fn parse_expression(&mut self) -> (r: Result<Value, EvalError>)
        requires
            old(self).wf(),
        ensures
            final(self).wf(),
            final(self).toks() == old(self).toks(),
            old(self).cursor() <= final(self).cursor(),
            match r {
                Ok(v) => {
                    &&& spec_expr(final(self).toks(), old(self).cursor()) == Parsed::Done(
                        v,
                        final(self).cursor(),
                    )
                    &&& v.wf()
                    &&& old(self).cursor() < final(self).cursor()
                },
                Err(e) => spec_expr(final(self).toks(), old(self).cursor()) == Parsed::Fail(e),
            },
        decreases self.tokens@.len() - self.pos, 2int,
    {
        let first = match self.parse_term() {
            Ok(v) => v,
            Err(e) => {
                return Err(e);
            },
        };
        self.parse_expression_rest(first)
    }

    /// The rest of an Expression after its first Term.
    fn parse_expression_rest(&mut self, acc: Value) -> (r: Result<Value, EvalError>)
        requires
            old(self).wf(),
            acc.wf(),
        ensures
            final(self).wf(),
            final(self).toks() == old(self).toks(),
            old(self).cursor() <= final(self).cursor(),
            match r {
                Ok(v) => {
                    &&& spec_expr_more(final(self).toks(), old(self).cursor(), acc) == Parsed::Done(
                        v,
                        final(self).cursor(),
                    )
                    &&& v.wf()
                },
                Err(e) => spec_expr_more(final(self).toks(), old(self).cursor(), acc) == Parsed::Fail(e),
            },
        decreases self.tokens@.len() - self.pos, 0int,
    {
        if self.pos >= self.tokens.len() {
            return Ok(acc);
        }
        let t = self.tokens[self.pos];
        match t {
            Token::Add => {
                self.pos = self.pos + 1;
                match self.parse_term() {
                    Ok(v) => match acc.add(v) {
                        Some(c) => self.parse_expression_rest(c),
                        None => Err(EvalError::Overflow),
                    },
                    Err(e) => Err(e),
                }
            },
            Token::Sub => {
                self.pos = self.pos + 1;
                match self.parse_term() {
                    Ok(v) => match acc.sub(v) {
                        Some(c) => self.parse_expression_rest(c),
                        None => Err(EvalError::Overflow),
                    },
                    Err(e) => Err(e),
                }
            },
            _ => Ok(acc),
        }
    }

    /// Term := Factor ( (`*` | `/` | `%`) Factor )*.
    fn parse_term(&mut self) -> (r: Result<Value, EvalError>)
        requires
            old(self).wf(),
        ensures
            final(self).wf(),
            final(self).toks() == old(self).toks(),
            old(self).cursor() <= final(self).cursor(),
            match r {
                Ok(v) => {
                    &&& spec_term(final(self).toks(), old(self).cursor()) == Parsed::Done(
                        v,
                        final(self).cursor(),
                    )
                    &&& v.wf()
                    &&& old(self).cursor() < final(self).cursor()
                },
                Err(e) => spec_term(final(self).toks(), old(self).cursor()) == Parsed::Fail(e),
            },
        decreases self.tokens@.len() - self.pos, 1int,
    {
        let first = match self.parse_factor() {
            Ok(v) => v,
            Err(e) => {
                return Err(e);
            },
        };
        self.parse_term_rest(first)
    }

    /// The rest of a Term after its first Factor.  The right operand of
    /// `/` and `%` is checked against zero before the operation.
    fn parse_term_rest(&mut self, acc: Value) -> (r: Result<Value, EvalError>)
        requires
            old(self).wf(),
            acc.wf(),
        ensures
            final(self).wf(),
            final(self).toks() == old(self).toks(),
            old(self).cursor() <= final(self).cursor(),
            match r {
                Ok(v) => {
                    &&& spec_term_more(final(self).toks(), old(self).cursor(), acc) == Parsed::Done(
                        v,
                        final(self).cursor(),
                    )
                    &&& v.wf()
                },
                Err(e) => spec_term_more(final(self).toks(), old(self).cursor(), acc) == Parsed::Fail(e),
            },
        decreases self.tokens@.len() - self.pos, 0int,
    {
        if self.pos >= self.tokens.len() {
            return Ok(acc);
        }
        let t = self.tokens[self.pos];
        match t {
            Token::Mul => {
                self.pos = self.pos + 1;
                match self.parse_factor() {
                    Ok(v) => match acc.mul(v) {
                        Some(c) => self.parse_term_rest(c),
                        None => Err(EvalError::Overflow),
                    },
                    Err(e) => Err(e),
                }
            },
            Token::Div => {
                self.pos = self.pos + 1;
                match self.parse_factor() {
                    Ok(v) => {
                        if v.num == 0 {
                            Err(EvalError::DivisionByZero)
                        } else {
                            match acc.div(v) {
                                Some(c) => self.parse_term_rest(c),
                                None => Err(EvalError::Overflow),
                            }
                        }
                    },
                    Err(e) => Err(e),
                }
            },
            Token::Mod => {
                self.pos = self.pos + 1;
                match self.parse_factor() {
                    Ok(v) => {
                        if v.num == 0 {
                            Err(EvalError::ModuloByZero)
                        } else {
                            match acc.rem(v) {
                                Some(c) => self.parse_term_rest(c),
                                None => Err(EvalError::Overflow),
                            }
                        }
                    },
                    Err(e) => Err(e),
                }
            },
            _ => Ok(acc),
        }
    }

    /// Factor := `Number` | `(` Expression `)` | `-` Factor.
    fn parse_factor(&mut self) -> (r: Result<Value, EvalError>)
        requires
            old(self).wf(),
        ensures
            final(self).wf(),
            final(self).toks() == old(self).toks(),
            old(self).cursor() <= final(self).cursor(),
            match r {
                Ok(v) => {
                    &&& spec_factor(final(self).toks(), old(self).cursor()) == Parsed::Done(
                        v,
                        final(self).cursor(),
                    )
                    &&& v.wf()
                    &&& old(self).cursor() < final(self).cursor()
                },
                Err(e) => spec_factor(final(self).toks(), old(self).cursor()) == Parsed::Fail(e),
            },
        decreases self.tokens@.len() - self.pos, 0int,
    {
        if self.pos >= self.tokens.len() {
            return Err(EvalError::UnexpectedEndOfInput);
        }
        let t = self.tokens[self.pos];
        match t {
            Token::Number(v) => {
                self.pos = self.pos + 1;
                Ok(v)
            },
            Token::LParen => {
                self.pos = self.pos + 1;
                match self.parse_expression() {
                    Ok(v) => {
                        if self.pos < self.tokens.len() {
                            let nt = self.tokens[self.pos];
                            if matches!(nt, Token::RParen) {
                                self.pos = self.pos + 1;
                                return Ok(v);
                            }
                        }
                        Err(EvalError::UnmatchedParenthesis)
                    },
                    Err(e) => Err(e),
                }
            },
            Token::Sub => {
                self.pos = self.pos + 1;
                match self.parse_factor() {
                    Ok(v) => Ok(v.negate()),
                    Err(e) => Err(e),
                }
            },
            _ => Err(EvalError::UnexpectedToken(t)),
        }
    }
}

/// Evaluate one expression, from raw text to its exact value or an
/// error.  A pure function of the text: tokenizes, then runs the
/// recursive-descent evaluator over the whole token sequence.
pub fn evaluate(src: String) -> (r: Result<Value, EvalError>)
    ensures
        r == spec_evaluate(src@),
        r matches Ok(v) ==> v.wf(),
{
    let mut calc = Calculator::new(src);
    calc.calculate()
}

/// Evaluation is a pure function of the token sequence: texts that
/// tokenize alike evaluate alike.  With the whitespace-skipping law of
/// the tokenizer, this is why whitespace around tokens cannot change a
/// result.
pub proof fn lemma_evaluate_depends_on_tokens(s1: Seq<char>, s2: Seq<char>)
    requires
        spec_tokenize(s1) == spec_tokenize(s2),
    ensures
        spec_evaluate(s1) == spec_evaluate(s2),
{
}

/// A clean numeric literal round-trips: on its own it evaluates to
/// exactly the value its token carries.
pub proof fn lemma_literal_round_trip(s: Seq<char>)
    requires
        s.len() >= 1,
        forall|k: int| 0 <= k < s.len() ==> is_literal_char(#[trigger] s[k]),
        valid_literal(s),
    ensures
        spec_evaluate(s) == Ok::<Value, EvalError>(literal_value(s)),
{
    lemma_literal_run_tokenizes(s);
    let v = literal_value(s);
    let t = spec_tokenize(s);
    assert(t == seq![Token::Number(v)]);
    assert(t.len() == 1 && t[0] == Token::Number(v));
    assert(spec_factor(t, 0) == Parsed::Done(v, 1));
    assert(spec_term_more(t, 1, v) == Parsed::Done(v, 1));
    assert(spec_term(t, 0) == Parsed::Done(v, 1));
    assert(spec_expr_more(t, 1, v) == Parsed::Done(v, 1));
    assert(spec_expr(t, 0) == Parsed::Done(v, 1));
}

/// Standard precedence: in `a + b * c` the product binds tighter, so
/// the result is `a + (b * c)` for every choice of the three values,
/// never `(a + b) * c`.
pub proof fn lemma_precedence_add_mul(a: Value, b: Value, c: Value)
    requires
        a.wf(),
        b.wf(),
        c.wf(),
    ensures
        ({
            let t = seq![
                Token::Number(a),
                Token::Add,
                Token::Number(b),
                Token::Mul,
                Token::Number(c),
            ];
            spec_calculate(t, 0) == match spec_mul(b, c) {
                Some(bc) => match spec_add(a, bc) {
                    Some(r) => Ok::<Value, EvalError>(r),
                    None => Err::<Value, EvalError>(EvalError::Overflow),
                },
                None => Err::<Value, EvalError>(EvalError::Overflow),
            }
        }),
{
    let t = seq![Token::Number(a), Token::Add, Token::Number(b), Token::Mul, Token::Number(c)];
    assert(spec_factor(t, 0) == Parsed::Done(a, 1));
    assert(spec_term_more(t, 1, a) == Parsed::Done(a, 1));
    assert(spec_term(t, 0) == Parsed::Done(a, 1));
    assert(spec_factor(t, 2) == Parsed::Done(b, 3));
    assert(spec_factor(t, 4) == Parsed::Done(c, 5));
    match spec_mul(b, c) {
        Some(bc) => {
            assert(spec_term_more(t, 5, bc) == Parsed::Done(bc, 5));
            assert(spec_term_more(t, 3, b) == Parsed::Done(bc, 5));
            assert(spec_term(t, 2) == Parsed::Done(bc, 5));
            match spec_add(a, bc) {
                Some(r) => {
                    assert(spec_expr_more(t, 5, r) == Parsed::Done(r, 5));
                    assert(spec_expr_more(t, 1, a) == Parsed::Done(r, 5));
                },
                None => {
                    assert(spec_expr_more(t, 1, a) == Parsed::Fail(EvalError::Overflow));
                },
            }
        },
        None => {
            assert(spec_term_more(t, 3, b) == Parsed::Fail(EvalError::Overflow));
            assert(spec_term(t, 2) == Parsed::Fail(EvalError::Overflow));
            assert(spec_expr_more(t, 1, a) == Parsed::Fail(EvalError::Overflow));
        },
    }
}

/// Same-level operators are left-associative: `a - b - c` is
/// `(a - b) - c` for every choice of the three values.
pub proof fn lemma_sub_left_associative(a: Value, b: Value, c: Value)
    requires
        a.wf(),
        b.wf(),
        c.wf(),
    ensures
        ({
            let t = seq![
                Token::Number(a),
                Token::Sub,
                Token::Number(b),
                Token::Sub,
                Token::Number(c),
            ];
            spec_calculate(t, 0) == match spec_sub(a, b) {
                Some(ab) => match spec_sub(ab, c) {
                    Some(r) => Ok::<Value, EvalError>(r),
                    None => Err::<Value, EvalError>(EvalError::Overflow),
                },
                None => Err::<Value, EvalError>(EvalError::Overflow),
            }
        }),
{
    let t = seq![Token::Number(a), Token::Sub, Token::Number(b), Token::Sub, Token::Number(c)];
    assert(spec_factor(t, 0) == Parsed::Done(a, 1));
    assert(spec_term_more(t, 1, a) == Parsed::Done(a, 1));
    assert(spec_term(t, 0) == Parsed::Done(a, 1));
    assert(spec_factor(t, 2) == Parsed::Done(b, 3));
    assert(spec_term_more(t, 3, b) == Parsed::Done(b, 3));
    assert(spec_term(t, 2) == Parsed::Done(b, 3));
    assert(spec_factor(t, 4) == Parsed::Done(c, 5));
    assert(spec_term_more(t, 5, c) == Parsed::Done(c, 5));
    assert(spec_term(t, 4) == Parsed::Done(c, 5));
    match spec_sub(a, b) {
        Some(ab) => {
            match spec_sub(ab, c) {
                Some(r) => {
                    assert(spec_expr_more(t, 5, r) == Parsed::Done(r, 5));
                    assert(spec_expr_more(t, 3, ab) == Parsed::Done(r, 5));
                    assert(spec_expr_more(t, 1, a) == Parsed::Done(r, 5));
                },
                None => {
                    assert(spec_expr_more(t, 3, ab) == Parsed::Fail(EvalError::Overflow));
                    assert(spec_expr_more(t, 1, a) == Parsed::Fail(EvalError::Overflow));
                },
            }
        },
        None => {
            assert(spec_expr_more(t, 1, a) == Parsed::Fail(EvalError::Overflow));
        },
    }
}

/// Division and modulo are right-checked: whenever the right operand is
/// zero the evaluation fails with the matching error, before any
/// arithmetic is attempted.
pub proof fn lemma_zero_divisor_checked(a: Value, b: Value)
    requires
        a.wf(),
        b.wf(),
        b.num == 0,
    ensures
        spec_calculate(seq![Token::Number(a), Token::Div, Token::Number(b)], 0)
            == Err::<Value, EvalError>(EvalError::DivisionByZero),
        spec_calculate(seq![Token::Number(a), Token::Mod, Token::Number(b)], 0)
            == Err::<Value, EvalError>(EvalError::ModuloByZero),
{
    let td = seq![Token::Number(a), Token::Div, Token::Number(b)];
    assert(spec_factor(td, 0) == Parsed::Done(a, 1));
    assert(spec_factor(td, 2) == Parsed::Done(b, 3));
    assert(spec_term_more(td, 1, a) == Parsed::Fail(EvalError::DivisionByZero));
    assert(spec_term(td, 0) == Parsed::Fail(EvalError::DivisionByZero));
    let tm = seq![Token::Number(a), Token::Mod, Token::Number(b)];
    assert(spec_factor(tm, 0) == Parsed::Done(a, 1));
    assert(spec_factor(tm, 2) == Parsed::Done(b, 3));
    assert(spec_term_more(tm, 1, a) == Parsed::Fail(EvalError::ModuloByZero));
    assert(spec_term(tm, 0) == Parsed::Fail(EvalError::ModuloByZero));
}

/// Parenthesis balance: a group left open fails with the unmatched
/// error, and a stray closing parenthesis after a full expression is
/// reported as a trailing token.
pub proof fn lemma_parenthesis_balance(v: Value)
    requires
        v.wf(),
    ensures
        spec_calculate(seq![Token::LParen, Token::Number(v)], 0)
            == Err::<Value, EvalError>(EvalError::UnmatchedParenthesis),
        spec_calculate(seq![Token::Number(v), Token::RParen], 0)
            == Err::<Value, EvalError>(EvalError::TrailingTokens(1)),
{
    let t = seq![Token::LParen, Token::Number(v)];
    assert(spec_factor(t, 1) == Parsed::Done(v, 2));
    assert(spec_term_more(t, 2, v) == Parsed::Done(v, 2));
    assert(spec_term(t, 1) == Parsed::Done(v, 2));
    assert(spec_expr_more(t, 2, v) == Parsed::Done(v, 2));
    assert(spec_expr(t, 1) == Parsed::Done(v, 2));
    assert(spec_factor(t, 0) == Parsed::Fail(EvalError::UnmatchedParenthesis));
    assert(spec_term(t, 0) == Parsed::Fail(EvalError::UnmatchedParenthesis));
    assert(spec_expr(t, 0) == Parsed::Fail(EvalError::UnmatchedParenthesis));
    let u = seq![Token::Number(v), Token::RParen];
    assert(spec_factor(u, 0) == Parsed::Done(v, 1));
    assert(spec_term_more(u, 1, v) == Parsed::Done(v, 1));
    assert(spec_term(u, 0) == Parsed::Done(v, 1));
    assert(spec_expr_more(u, 1, v) == Parsed::Done(v, 1));
    assert(spec_expr(u, 0) == Parsed::Done(v, 1));
}

/// Unary minus composes: one leading minus negates a factor and two
/// cancel, for every value.
pub proof fn lemma_unary_minus_composes(v: Value)
    requires
        v.wf(),
    ensures
        spec_calculate(seq![Token::Sub, Token::Number(v)], 0)
            == Ok::<Value, EvalError>(spec_neg(v)),
        spec_calculate(seq![Token::Sub, Token::Sub, Token::Number(v)], 0)
            == Ok::<Value, EvalError>(v),
{
    crate::value::lemma_neg_involutive(v);
    let t = seq![Token::Sub, Token::Number(v)];
    assert(spec_factor(t, 1) == Parsed::Done(v, 2));
    assert(spec_factor(t, 0) == Parsed::Done(spec_neg(v), 2));
    assert(spec_term_more(t, 2, spec_neg(v)) == Parsed::Done(spec_neg(v), 2));
    assert(spec_term(t, 0) == Parsed::Done(spec_neg(v), 2));
    assert(spec_expr_more(t, 2, spec_neg(v)) == Parsed::Done(spec_neg(v), 2));
    let u = seq![Token::Sub, Token::Sub, Token::Number(v)];
    assert(spec_factor(u, 2) == Parsed::Done(v, 3));
    assert(spec_factor(u, 1) == Parsed::Done(spec_neg(v), 3));
    assert(spec_factor(u, 0) == Parsed::Done(v, 3));
    assert(spec_term_more(u, 3, v) == Parsed::Done(v, 3));
    assert(spec_term(u, 0) == Parsed::Done(v, 3));
    assert(spec_expr_more(u, 3, v) == Parsed::Done(v, 3));
}

/// Whitespace-insensitivity, end to end: inserting a stretch of
/// whitespace anywhere that does not stand between two characters of one
/// literal run leaves the result of evaluation unchanged.
pub proof fn lemma_evaluate_ignores_whitespace(s1: Seq<char>, ws: Seq<char>, s2: Seq<char>)
    requires
        forall|k: int| 0 <= k < ws.len() ==> is_space_char(#[trigger] ws[k]),
        !(s1.len() > 0 && s2.len() > 0 && is_literal_char(s1.last()) && is_literal_char(s2[0])),
    ensures
        spec_evaluate(s1 + ws + s2) == spec_evaluate(s1 + s2),
{
    lemma_tokenize_ignores_whitespace(s1, ws, s2);
}

/// A factor consumes at least one token: a successful parse moves the
/// position strictly forward and stays within the sequence.
pub proof fn lemma_factor_advances(t: Seq<Token>, i: int)
    ensures
        spec_factor(t, i) matches Parsed::Done(v, j) ==> i < j <= t.len(),
    decreases t.len() - i, 0int,
{
    if 0 <= i < t.len() {
        match t[i] {
            Token::LParen => {
                lemma_expr_advances(t, i + 1);
            },
            Token::Sub => {
                lemma_factor_advances(t, i + 1);
            },
            _ => {},
        }
    }
}

/// Folding further factors onto a term never moves the position
/// backward, and keeps it within the sequence.
pub proof fn lemma_term_more_advances(t: Seq<Token>, i: int, acc: Value)
    requires
        0 <= i <= t.len(),
    ensures
        spec_term_more(t, i, acc) matches Parsed::Done(v, j) ==> i <= j <= t.len(),
    decreases t.len() - i, 0int,
{
    if i < t.len() && (t[i] == Token::Mul || t[i] == Token::Div || t[i] == Token::Mod) {
        lemma_factor_advances(t, i + 1);
        match spec_factor(t, i + 1) {
            Parsed::Done(v, j) => {
                let next = resume_at(i, j, t.len() as int);
                if t[i] == Token::Mul {
                    match spec_mul(acc, v) {
                        Some(c) => {
                            lemma_term_more_advances(t, next, c);
                        },
                        None => {},
                    }
                } else if t[i] == Token::Div {
                    match spec_div(acc, v) {
                        Some(c) => {
                            lemma_term_more_advances(t, next, c);
                        },
                        None => {},
                    }
                } else {
                    match spec_rem(acc, v) {
                        Some(c) => {
                            lemma_term_more_advances(t, next, c);
                        },
                        None => {},
                    }
                }
            },
            Parsed::Fail(_) => {},
        }
    }
}

/// A term consumes at least one token.
pub proof fn lemma_term_advances(t: Seq<Token>, i: int)
    ensures
        spec_term(t, i) matches Parsed::Done(v, j) ==> i < j <= t.len(),
    decreases t.len() - i, 1int,
{
    if 0 <= i < t.len() {
        lemma_factor_advances(t, i);
        match spec_factor(t, i) {
            Parsed::Done(v, j) => {
                lemma_term_more_advances(t, resume_at(i, j, t.len() as int), v);
            },
            Parsed::Fail(_) => {},
        }
    }
}

/// Folding further terms onto an expression never moves the position
/// backward, and keeps it within the sequence.
pub proof fn lemma_expr_more_advances(t: Seq<Token>, i: int, acc: Value)
    requires
        0 <= i <= t.len(),
    ensures
        spec_expr_more(t, i, acc) matches Parsed::Done(v, j) ==> i <= j <= t.len(),
    decreases t.len() - i, 0int,
{
    if i < t.len() && (t[i] == Token::Add || t[i] == Token::Sub) {
        lemma_term_advances(t, i + 1);
        match spec_term(t, i + 1) {
            Parsed::Done(v, j) => {
                let next = resume_at(i, j, t.len() as int);
                if t[i] == Token::Add {
                    match spec_add(acc, v) {
                        Some(c) => {
                            lemma_expr_more_advances(t, next, c);
                        },
                        None => {},
                    }
                } else {
                    match spec_sub(acc, v) {
                        Some(c) => {
                            lemma_expr_more_advances(t, next, c);
                        },
                        None => {},
                    }
                }
            },
            Parsed::Fail(_) => {},
        }
    }
}

/// An expression consumes at least one token: the cursor only moves
/// forward through the grammar, and `resume_at` never has to clamp.
pub proof fn lemma_expr_advances(t: Seq<Token>, i: int)
    ensures
        spec_expr(t, i) matches Parsed::Done(v, j) ==> i < j <= t.len(),
    decreases t.len() - i, 2int,
{
    if 0 <= i < t.len() {
        lemma_term_advances(t, i);
        match spec_term(t, i) {
            Parsed::Done(v, j) => {
                lemma_expr_more_advances(t, resume_at(i, j, t.len() as int), v);
            },
            Parsed::Fail(_) => {},
        }
    }
}

} // verus!
