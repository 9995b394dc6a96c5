//! Operator-precedence parser.
//!
//! A [`Parser`] holds the current token and one token of lookahead over a
//! [`Lexer`], and builds an [`Expr`] by precedence climbing. What each
//! production returns, and how far it moves the parser, is stated over the
//! sequence of tokens that lie ahead, by [`expression`], [`prefix`], [`infix`]
//! and [`climb`].

use crate::eval::{eval, input_evaluates};
use crate::grammar::lemma_parsed_literals;
use crate::lexer::{
    genuine, lemma_run_end, next_pos, token_at, tokens_from, Lexer, Span, Token,
};
use crate::precedence::Precedence;
use vstd::prelude::*;

verus! {

/// A binary or unary arithmetic operator.
#[derive(Debug, Clone, Copy, PartialEq, Eq)]
pub enum OperatorKind {
    Add,
    Subtract,
    Multiply,
    Divide,
}

/// An expression tree. A number literal carries the range of input bytes that
/// spell it.
#[derive(Debug, PartialEq, Eq)]
pub enum Expr {
    NumberLiteral(Span),
    UnaryExpr { operator: OperatorKind, operand: Box<Expr> },
    BinaryExpr { left: Box<Expr>, operator: OperatorKind, right: Box<Expr> },
}

/// `span` is the range of a number literal of `e`.
pub open spec fn literal_of(e: Expr, span: Span) -> bool
    decreases e,
{
    match e {
        Expr::NumberLiteral(own) => own == span,
        Expr::UnaryExpr { operator, operand } => literal_of(*operand, span),
        Expr::BinaryExpr { left, operator, right } => literal_of(*left, span) || literal_of(
            *right,
            span,
        ),
    }
}

/// Every number literal of the tree carries a range that lies in the input
/// `s`, is not empty and spells a decimal number.
pub open spec fn literals_in(e: Expr, s: Seq<u8>) -> bool {
    forall|span: Span| #[trigger] literal_of(e, span) ==> genuine(Token::Number(span), s)
}

/// The operator that a token stands for.
pub open spec fn operator_of(token: Token) -> Option<OperatorKind> {
    match token {
        Token::Plus => Some(OperatorKind::Add),
        Token::Minus => Some(OperatorKind::Subtract),
        Token::Asterisk => Some(OperatorKind::Multiply),
        Token::Slash => Some(OperatorKind::Divide),
        _ => None,
    }
}

/// The binding power of a token in infix position.
pub open spec fn precedence_of(token: Token) -> Precedence {
    match token {
        Token::Plus | Token::Minus => Precedence::Sum,
        Token::Asterisk | Token::Slash => Precedence::Product,
        _ => Precedence::Lowest,
    }
}

/// What a production yields: the tree, if it succeeded, and the number of
/// tokens by which it moved the parser on.
pub struct Step {
    pub tree: Option<Expr>,
    pub shift: nat,
}

/// The prefix production on the tokens `ts`, the current token first: a number
/// literal, or a minus sign and its operand.
pub open spec fn prefix(ts: Seq<Token>) -> Step
    decreases ts.len(), 1nat,
{
    if ts.len() == 0 {
        Step { tree: None, shift: 0 }
    } else {
        match ts[0] {
            Token::Number(span) => Step { tree: Some(Expr::NumberLiteral(span)), shift: 0 },
            Token::Minus => {
                let operand = expression(ts.skip(1), Precedence::Prefix);
                Step {
                    tree: match operand.tree {
                        Some(e) => Some(
                            Expr::UnaryExpr {
                                operator: OperatorKind::Subtract,
                                operand: Box::new(e),
                            },
                        ),
                        None => None,
                    },
                    shift: operand.shift + 1,
                }
            },
            _ => Step { tree: None, shift: 0 },
        }
    }
}

/// The infix production on the tokens `ts`, the operator first: the operator
/// and a right operand that binds tighter than it.
pub open spec fn infix(ts: Seq<Token>, left: Expr) -> Step
    decreases ts.len(), 1nat,
{
    if ts.len() == 0 {
        Step { tree: None, shift: 0 }
    } else {
        match operator_of(ts[0]) {
            Some(operator) => {
                let operand = expression(ts.skip(1), precedence_of(ts[0]));
                Step {
                    tree: match operand.tree {
                        Some(e) => Some(
                            Expr::BinaryExpr {
                                left: Box::new(left),
                                operator,
                                right: Box::new(e),
                            },
                        ),
                        None => None,
                    },
                    shift: operand.shift + 1,
                }
            },
            None => Step { tree: None, shift: 0 },
        }
    }
}

/// Folds infix productions onto `left` for as long as the token behind
/// position `at` binds tighter than `min`.
pub open spec fn climb(ts: Seq<Token>, min: Precedence, left: Expr, at: nat) -> Step
    decreases
            (if at < ts.len() {
                ts.len() - at
            } else {
                0
            }),
            0nat,
{
    if at + 1 < ts.len() && min.level() < precedence_of(ts[at as int + 1]).level() {
        let step = infix(ts.skip(at as int + 1), left);
        match step.tree {
            Some(folded) => climb(ts, min, folded, at + 1 + step.shift),
            None => Step { tree: None, shift: at + 1 + step.shift },
        }
    } else {
        Step { tree: Some(left), shift: at }
    }
}

/// An expression whose operators all bind tighter than `min`, read from the
/// tokens `ts`, the current token first.
pub open spec fn expression(ts: Seq<Token>, min: Precedence) -> Step
    decreases ts.len(), 2nat,
{
    let first = prefix(ts);
    match first.tree {
        Some(left) => climb(ts, min, left, first.shift),
        None => first,
    }
}

/// What a parser holds, as plain values: the current token, the lookahead,
/// and the bytes and cursor of its tokenizer.
pub struct Window {
    pub current: Option<Token>,
    pub lookahead: Option<Token>,
    pub bytes: Seq<u8>,
    pub position: int,
}

impl Window {
    /// The window of a parser that starts to read `bytes` at `position`: its
    /// first two tokens are fetched.
    pub open spec fn over(bytes: Seq<u8>, position: int) -> Window {
        Window {
            current: token_at(bytes, position),
            lookahead: token_at(bytes, next_pos(bytes, position)),
            bytes,
            position: next_pos(bytes, next_pos(bytes, position)),
        }
    }

    /// The window after one advance: the lookahead becomes current, and a
    /// fresh lookahead is read.
    pub open spec fn shifted(self) -> Window {
        Window {
            current: self.lookahead,
            lookahead: token_at(self.bytes, self.position),
            bytes: self.bytes,
            position: next_pos(self.bytes, self.position),
        }
    }

    /// The window after `n` advances.
    pub open spec fn shifted_by(self, n: nat) -> Window
        decreases n,
    {
        if n == 0 {
            self
        } else {
            self.shifted().shifted_by((n - 1) as nat)
        }
    }

    /// The tokens that lie ahead, the current one first, up to the first gap.
    pub open spec fn tokens(self) -> Seq<Token> {
        match self.current {
            None => Seq::empty(),
            Some(current) => match self.lookahead {
                None => seq![current],
                Some(lookahead) => seq![current, lookahead] + tokens_from(
                    self.bytes,
                    self.position,
                ),
            },
        }
    }
}

/// A fresh window shows the tokens of its input.
pub proof fn lemma_over_tokens(bytes: Seq<u8>, position: int)
    ensures
        Window::over(bytes, position).tokens() == tokens_from(bytes, position),
{
    let w = Window::over(bytes, position);
    let second = next_pos(bytes, position);
    assert(w.tokens() =~= tokens_from(bytes, position)) by {
        reveal_with_fuel(tokens_from, 3);
        if w.current is Some {
            lemma_run_end(bytes, position);
            if w.lookahead is Some {
                lemma_run_end(bytes, second);
            }
        }
    }
}

/// An advance drops the current token from the tokens that lie ahead.
pub proof fn lemma_shifted_tokens(w: Window)
    requires
        w.current is Some,
    ensures
        w.shifted().tokens() == w.tokens().skip(1),
{
    assert(w.shifted().tokens() =~= w.tokens().skip(1));
}

/// `n` advances drop `n` tokens from the tokens that lie ahead.
pub proof fn lemma_shifted_by_tokens(w: Window, n: nat)
    requires
        n <= w.tokens().len(),
    ensures
        w.shifted_by(n).tokens() == w.tokens().skip(n as int),
    decreases n,
{
    if n == 0 {
        assert(w.tokens().skip(0) =~= w.tokens());
    } else {
        lemma_shifted_tokens(w);
        lemma_shifted_by_tokens(w.shifted(), (n - 1) as nat);
        assert(w.tokens().skip(1).skip(n - 1) =~= w.tokens().skip(n as int));
    }
}

/// Advances add up.
pub proof fn lemma_shifted_by_add(w: Window, a: nat, b: nat)
    ensures
        w.shifted_by(a).shifted_by(b) == w.shifted_by(a + b),
    decreases a,
{
    if a > 0 {
        lemma_shifted_by_add(w.shifted(), (a - 1) as nat, b);
    }
}

/// The prefix production does not move the parser past the tokens that lie
/// ahead, and where it succeeds it leaves the parser on a token.
pub proof fn lemma_prefix_bound(ts: Seq<Token>)
    ensures
        prefix(ts).shift <= ts.len(),
        prefix(ts).tree is Some ==> prefix(ts).shift < ts.len(),
    decreases ts.len(), 1nat,
{
    if ts.len() > 0 && ts[0] is Minus {
        lemma_expression_bound(ts.skip(1), Precedence::Prefix);
    }
}

/// The infix production does not move the parser past the tokens that lie
/// ahead, and where it succeeds it leaves the parser on a token.
pub proof fn lemma_infix_bound(ts: Seq<Token>, left: Expr)
    ensures
        infix(ts, left).shift <= ts.len(),
        infix(ts, left).tree is Some ==> infix(ts, left).shift < ts.len(),
    decreases ts.len(), 1nat,
{
    if ts.len() > 0 && operator_of(ts[0]) is Some {
        lemma_expression_bound(ts.skip(1), precedence_of(ts[0]));
    }
}

/// The climbing loop does not move the parser past the tokens that lie ahead,
/// and where it succeeds it leaves the parser on a token.
pub proof fn lemma_climb_bound(ts: Seq<Token>, min: Precedence, left: Expr, at: nat)
    requires
        at < ts.len(),
    ensures
        at <= climb(ts, min, left, at).shift <= ts.len(),
        climb(ts, min, left, at).tree is Some ==> climb(ts, min, left, at).shift < ts.len(),
    decreases ts.len() - at, 0nat,
{
    if at + 1 < ts.len() && min.level() < precedence_of(ts[at as int + 1]).level() {
        let rest = ts.skip(at as int + 1);
        lemma_infix_bound(rest, left);
        let step = infix(rest, left);
        if let Some(folded) = step.tree {
            lemma_climb_bound(ts, min, folded, at + 1 + step.shift);
        }
    }
}

/// An expression does not move the parser past the tokens that lie ahead, and
/// where it succeeds it leaves the parser on a token.
pub proof fn lemma_expression_bound(ts: Seq<Token>, min: Precedence)
    ensures
        expression(ts, min).shift <= ts.len(),
        expression(ts, min).tree is Some ==> expression(ts, min).shift < ts.len(),
    decreases ts.len(), 2nat,
{
    lemma_prefix_bound(ts);
    if let Some(left) = prefix(ts).tree {
        lemma_climb_bound(ts, min, left, prefix(ts).shift);
    }
}

/// The tree inside an optional box.
pub open spec fn unboxed(tree: Option<Box<Expr>>) -> Option<Expr> {
    match tree {
        Some(e) => Some(*e),
        None => None,
    }
}

/// A parser with one token of lookahead over a [`Lexer`].
#[derive(Debug)]
pub struct Parser<'a> {
    lexer: Lexer<'a>,
    curr: Option<Token>,
    peek: Option<Token>,
}

impl<'a> View for Parser<'a> {
    type V = Window;

    closed spec fn view(&self) -> Window {
        Window {
            current: self.curr,
            lookahead: self.peek,
            bytes: self.lexer.bytes(),
            position: self.lexer.position(),
        }
    }
}

impl<'a> Parser<'a> {
    /// Fetches the first two tokens from `lexer`.
    pub fn new(lexer: Lexer<'a>) -> (parser: Self)
        ensures
            parser@ == Window::over(lexer.bytes(), lexer.position()),
    {
        let mut lexer = lexer;
        let curr = lexer.token();
        let peek = lexer.token();
        Self { lexer, curr, peek }
    }

    /// Advances by one token.
    pub fn next(&mut self)
        ensures
            final(self)@ == old(self)@.shifted(),
    {
        self.curr = self.peek;
        self.peek = self.lexer.token();
    }

    /// The operator that `token` stands for, if it stands for one.
    pub fn token_operator(token: &Token) -> (operator: Option<OperatorKind>)
        ensures
            operator == operator_of(*token),
    {
        match token {
            Token::Plus => Some(OperatorKind::Add),
            Token::Minus => Some(OperatorKind::Subtract),
            Token::Asterisk => Some(OperatorKind::Multiply),
            Token::Slash => Some(OperatorKind::Divide),
            _ => None,
        }
    }

    /// The binding power of `token` in infix position.
    pub fn token_precedence(token: &Token) -> (precedence: Precedence)
        ensures
            precedence == precedence_of(*token),
    {
        match token {
            Token::Plus | Token::Minus => Precedence::Sum,
            Token::Asterisk | Token::Slash => Precedence::Product,
            _ => Precedence::Lowest,
        }
    }

    /// Parses a whole expression from the current token on.
    pub fn parse(&mut self) -> (tree: Option<Box<Expr>>)
        ensures
            unboxed(tree) == expression(old(self)@.tokens(), Precedence::Lowest).tree,
            final(self)@ == old(self)@.shifted_by(
                expression(old(self)@.tokens(), Precedence::Lowest).shift,
            ),
    {
        self.parse_expression(Precedence::Lowest)
    }

    /// Parses an expression whose operators all bind tighter than
    /// `precedence`, and stops on its last token.
    pub fn parse_expression(&mut self, precedence: Precedence) -> (tree: Option<Box<Expr>>)
        ensures
            unboxed(tree) == expression(old(self)@.tokens(), precedence).tree,
            final(self)@ == old(self)@.shifted_by(
                expression(old(self)@.tokens(), precedence).shift,
            ),
        decreases old(self)@.tokens().len(), 2nat,
    {
        let ghost start = self@;
        let ghost ts = start.tokens();
        let mut left = self.parse_prefix()?;
        let ghost mut at: nat = prefix(ts).shift;
        proof {
            lemma_prefix_bound(ts);
            lemma_shifted_by_tokens(start, at);
        }
        while self.peek.is_some() && precedence < Self::token_precedence(&self.peek.unwrap())
            invariant
                at < ts.len(),
                start == old(self)@,
                ts == start.tokens(),
                self@ == start.shifted_by(at),
                self@.tokens() == ts.skip(at as int),
                climb(ts, precedence, *left, at) == expression(ts, precedence),
            decreases ts.len() - at,
        {
            let ghost step = infix(ts.skip(at as int + 1), *left);
            proof {
                lemma_shifted_tokens(self@);
                assert(ts.skip(at as int).skip(1) =~= ts.skip(at as int + 1));
                lemma_infix_bound(ts.skip(at as int + 1), *left);
                lemma_shifted_by_add(start, at, 1);
                lemma_shifted_by_add(start, at + 1, step.shift);
                assert(start.shifted_by(at).shifted_by(1) == start.shifted_by(at).shifted()) by {
                    reveal_with_fuel(Window::shifted_by, 2);
                }
            }
            self.next();
            left = self.parse_infix(left)?;
            proof {
                at = at + 1 + step.shift;
                lemma_shifted_by_tokens(start, at);
            }
        }
        proof {
            let rest = self@.tokens();
            if self@.lookahead is Some {
                assert(rest[1] == ts[at as int + 1]);
            }
        }
        Some(left)
    }

    /// Parses a number literal, or a minus sign and its operand.
    pub fn parse_prefix(&mut self) -> (tree: Option<Box<Expr>>)
        ensures
            unboxed(tree) == prefix(old(self)@.tokens()).tree,
            final(self)@ == old(self)@.shifted_by(prefix(old(self)@.tokens()).shift),
        decreases old(self)@.tokens().len(), 1nat,
    {
        match self.curr? {
            Token::Number(n) => Some(Box::new(Expr::NumberLiteral(n))),
            Token::Minus => {
                proof {
                    lemma_shifted_tokens(self@);
                    lemma_shifted_by_add(
                        self@,
                        1,
                        expression(self@.tokens().skip(1), Precedence::Prefix).shift,
                    );
                    reveal_with_fuel(Window::shifted_by, 2);
                }
                self.next();
                let number = self.parse_expression(Precedence::Prefix)?;
                Some(
                    Box::new(
                        Expr::UnaryExpr { operator: OperatorKind::Subtract, operand: number },
                    ),
                )
            },
            _ => None,
        }
    }

    /// Parses the operator at the current token and its right operand, and
    /// joins them to `left`.
    pub fn parse_infix(&mut self, left: Box<Expr>) -> (tree: Option<Box<Expr>>)
        ensures
            unboxed(tree) == infix(old(self)@.tokens(), *left).tree,
            final(self)@ == old(self)@.shifted_by(infix(old(self)@.tokens(), *left).shift),
        decreases old(self)@.tokens().len(), 1nat,
    {
        let operator = Self::token_operator(&self.curr?)?;
        let precedence = Self::token_precedence(&self.curr?);
        proof {
            lemma_shifted_tokens(self@);
            lemma_shifted_by_add(self@, 1, expression(self@.tokens().skip(1), precedence).shift);
            reveal_with_fuel(Window::shifted_by, 2);
        }
        self.next();
        let right = self.parse_expression(precedence)?;
        Some(Box::new(Expr::BinaryExpr { left, operator, right }))
    }
}

/// The tree that the bytes `s` parse to, if they begin with an expression.
pub open spec fn parse_of(s: Seq<u8>) -> Option<Expr> {
    expression(tokens_from(s, 0), Precedence::Lowest).tree
}

/// Tokenizes and parses `input`.
pub fn parse_input(input: &[u8]) -> (tree: Option<Expr>)
    ensures
        tree == parse_of(input@),
        tree matches Some(e) ==> literals_in(e, input@),
{
    let lexer = Lexer::new(input);
    let mut parser = Parser::new(lexer);
    proof {
        lemma_over_tokens(input@, 0);
        assert(input@.len() == input.len());
        lemma_parsed_literals(input@);
    }
    match parser.parse() {
        Some(tree) => Some(*tree),
        None => None,
    }
}

/// Tokenizes, parses and evaluates `input`. The three functions do the
/// arithmetic: `number` turns the range of a number literal into a value,
/// `negate` and `apply` work on values. `number` is called on ranges of
/// `input` that spell a decimal number, and on no others.
pub fn parser_input_value<T, L, N, B>(
    input: &[u8],
    number: &L,
    negate: &N,
    apply: &B,
) -> (value: Option<T>) where L: Fn(Span) -> T, N: Fn(T) -> T, B: Fn(OperatorKind, T, T) -> T
    requires
        forall|span: Span| #[trigger]
            genuine(Token::Number(span), input@) ==> call_requires(*number, (span,)),
        forall|x: T| call_requires(*negate, (x,)),
        forall|operator: OperatorKind, a: T, b: T| call_requires(*apply, (operator, a, b)),
    ensures
        input_evaluates(input@, *number, *negate, *apply, value),
{
    let expr = parse_input(input);
    match expr {
        Some(expr) => Some(eval(&expr, number, negate, apply)),
        None => None,
    }
}

} // verus!
