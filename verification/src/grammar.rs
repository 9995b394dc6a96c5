//! What the parser's trees mean.
//!
//! A tree *spells* a sequence of tokens: its leaves and operators in reading
//! order. A tree is in *standard form* when it groups as arithmetic is read:
//! `*` and `/` bind tighter than `+` and `-`, operators of one level group to
//! the left, and a minus sign in front binds tighter than any of them. This
//! module proves that the parser returns standard trees that spell the tokens
//! it consumed, that it returns every standard tree when given its spelling,
//! and that it succeeds on every well-formed sequence of tokens.

use crate::eval::{evaluates, input_evaluates};
use crate::lexer::{
    genuine, is_decimal, is_numeric, lemma_run_end, lemma_tokens_genuine, lemma_tokens_text,
    next_pos, run_end, scan_end, text, token_at, tokens_from, Span, Token, ASTERISK, MINUS, PLUS,
    SLASH,
};
use crate::parser::{
    climb, expression, infix, lemma_expression_bound, lemma_infix_bound, lemma_prefix_bound,
    literal_of, literals_in, operator_of, parse_of, precedence_of, prefix, Expr, OperatorKind,
    Step,
};
use crate::precedence::Precedence;
use vstd::prelude::*;

verus! {

/// The token that spells an operator.
pub open spec fn token_of(operator: OperatorKind) -> Token {
    match operator {
        OperatorKind::Add => Token::Plus,
        OperatorKind::Subtract => Token::Minus,
        OperatorKind::Multiply => Token::Asterisk,
        OperatorKind::Divide => Token::Slash,
    }
}

/// Operators and the four operator tokens stand for each other, and these are
/// the tokens that bind above the lowest level.
pub proof fn lemma_operator_tokens(token: Token, operator: OperatorKind)
    ensures
        operator_of(token_of(operator)) == Some(operator),
        operator_of(token) == Some(operator) <==> token == token_of(operator),
        operator_of(token) is Some <==> precedence_of(token).level() > Precedence::Lowest.level(),
        precedence_of(token).level() < Precedence::Prefix.level(),
{
}

/// The level at which an operator binds between two operands.
pub open spec fn level_of(operator: OperatorKind) -> nat {
    precedence_of(token_of(operator)).level()
}

/// The level at which a tree binds as an operand: that of its operator where
/// it is a binary expression; a literal or a negation binds as a prefix does.
pub open spec fn root_level(e: Expr) -> nat {
    match e {
        Expr::BinaryExpr { operator, .. } => level_of(operator),
        _ => Precedence::Prefix.level(),
    }
}

/// The tokens of a tree in reading order.
pub open spec fn spelling(e: Expr) -> Seq<Token>
    decreases e,
{
    match e {
        Expr::NumberLiteral(span) => seq![Token::Number(span)],
        Expr::UnaryExpr { operator, operand } => seq![token_of(operator)] + spelling(*operand),
        Expr::BinaryExpr { left, operator, right } => spelling(*left) + seq![token_of(operator)]
            + spelling(*right),
    }
}

/// The tree groups as arithmetic is read: the only prefix operator is the
/// minus sign, and its operand is no binary expression; the left operand of a
/// binary operator binds at least as tight as the operator, and the right
/// operand strictly tighter.
pub open spec fn standard(e: Expr) -> bool
    decreases e,
{
    match e {
        Expr::NumberLiteral(_) => true,
        Expr::UnaryExpr { operator, operand } => {
            &&& operator == OperatorKind::Subtract
            &&& standard(*operand)
            &&& !(*operand is BinaryExpr)
        },
        Expr::BinaryExpr { left, operator, right } => {
            &&& standard(*left)
            &&& standard(*right)
            &&& root_level(*left) >= level_of(operator)
            &&& root_level(*right) > level_of(operator)
        },
    }
}

/// `e` may stand where operators must bind tighter than `min`.
pub open spec fn fits(e: Expr, min: Precedence) -> bool {
    e is BinaryExpr ==> root_level(e) > min.level()
}

/// The token at `at`, if there is one, binds no tighter than `level`: an
/// expression that ends in front of it cannot be extended at that level.
pub open spec fn stops(ts: Seq<Token>, at: int, level: nat) -> bool {
    0 <= at < ts.len() ==> precedence_of(ts[at]).level() <= level
}

/// A spelling is never empty.
pub proof fn lemma_spelling_len(e: Expr)
    ensures
        spelling(e).len() > 0,
    decreases e,
{
    match e {
        Expr::NumberLiteral(_) => {},
        Expr::UnaryExpr { operator, operand } => {
            lemma_spelling_len(*operand);
        },
        Expr::BinaryExpr { left, operator, right } => {
            lemma_spelling_len(*left);
            lemma_spelling_len(*right);
        },
    }
}

/// What the prefix production returns is a standard tree, no binary
/// expression, that spells the tokens consumed.
pub proof fn lemma_prefix_standard(ts: Seq<Token>)
    ensures
        prefix(ts).tree matches Some(e) ==> {
            &&& spelling(e) == ts.subrange(0, prefix(ts).shift as int + 1)
            &&& standard(e)
            &&& !(e is BinaryExpr)
        },
    decreases ts.len(), 1nat,
{
    if ts.len() > 0 {
        match ts[0] {
            Token::Number(span) => {
                assert(seq![Token::Number(span)] =~= ts.subrange(0, 1));
            },
            Token::Minus => {
                let rest = ts.skip(1);
                lemma_expression_standard(rest, Precedence::Prefix);
                lemma_expression_bound(rest, Precedence::Prefix);
                let operand = expression(rest, Precedence::Prefix);
                if let Some(e) = operand.tree {
                    assert(seq![Token::Minus] + rest.subrange(0, operand.shift as int + 1)
                        =~= ts.subrange(0, operand.shift as int + 2));
                }
            },
            _ => {},
        }
    }
}

/// What the infix production returns joins `left` to a standard right
/// operand, which binds tighter than the operator, spells the tokens consumed
/// behind the operator, and cannot be extended at the operator's level.
pub proof fn lemma_infix_standard(ts: Seq<Token>, left: Expr)
    ensures
        infix(ts, left).tree matches Some(e) ==> {
            &&& e matches Expr::BinaryExpr { left: l, operator, right }
            &&& *l == left
            &&& token_of(operator) == ts[0]
            &&& spelling(*right) == ts.subrange(1, infix(ts, left).shift as int + 1)
            &&& standard(*right)
            &&& root_level(*right) > level_of(operator)
            &&& stops(ts, infix(ts, left).shift as int + 1, level_of(operator))
        },
    decreases ts.len(), 1nat,
{
    if ts.len() > 0 && operator_of(ts[0]) is Some {
        let rest = ts.skip(1);
        let level = precedence_of(ts[0]);
        lemma_expression_standard(rest, level);
        lemma_expression_bound(rest, level);
        let operand = expression(rest, level);
        if let Some(e) = operand.tree {
            assert(rest.subrange(0, operand.shift as int + 1) =~= ts.subrange(
                1,
                operand.shift as int + 2,
            ));
            if operand.shift as int + 2 < ts.len() {
                assert(rest[operand.shift as int + 1] == ts[operand.shift as int + 2]);
            }
        }
    }
}

/// Where `left` is a standard tree that spells the tokens up to `at`, fits
/// the level `min`, and cannot be extended above its own level, the climbing
/// loop returns a standard tree that spells the tokens consumed, fits `min`,
/// and cannot be extended at that level.
pub proof fn lemma_climb_standard(ts: Seq<Token>, min: Precedence, left: Expr, at: nat)
    requires
        at < ts.len(),
        spelling(left) == ts.subrange(0, at as int + 1),
        standard(left),
        fits(left, min),
        stops(ts, at as int + 1, root_level(left)),
    ensures
        climb(ts, min, left, at).tree matches Some(e) ==> {
            &&& spelling(e) == ts.subrange(0, climb(ts, min, left, at).shift as int + 1)
            &&& standard(e)
            &&& fits(e, min)
            &&& stops(ts, climb(ts, min, left, at).shift as int + 1, min.level())
        },
    decreases ts.len() - at, 0nat,
{
    if at + 1 < ts.len() && min.level() < precedence_of(ts[at as int + 1]).level() {
        let rest = ts.skip(at as int + 1);
        let step = infix(rest, left);
        lemma_infix_standard(rest, left);
        lemma_infix_bound(rest, left);
        if let Some(folded) = step.tree {
            let next = at + 1 + step.shift;
            let end = next as int + 1;
            if let Expr::BinaryExpr { left: l, operator, right } = folded {
                assert(spelling(folded) =~= ts.subrange(0, end)) by {
                    assert(rest.subrange(1, step.shift as int + 1) =~= ts.subrange(
                        at as int + 2,
                        end,
                    ));
                    assert(rest[0] == ts[at as int + 1]);
                }
                if end < ts.len() {
                    assert(rest[step.shift as int + 1] == ts[end]);
                }
            }
            lemma_climb_standard(ts, min, folded, next);
        }
    }
}

/// What the parser returns for an expression is a standard tree that spells
/// the tokens consumed, fits the level asked for, and cannot be extended at
/// that level.
pub proof fn lemma_expression_standard(ts: Seq<Token>, min: Precedence)
    ensures
        expression(ts, min).tree matches Some(e) ==> {
            &&& spelling(e) == ts.subrange(0, expression(ts, min).shift as int + 1)
            &&& standard(e)
            &&& fits(e, min)
            &&& stops(ts, expression(ts, min).shift as int + 1, min.level())
        },
    decreases ts.len(), 2nat,
{
    lemma_prefix_standard(ts);
    lemma_prefix_bound(ts);
    if let Some(left) = prefix(ts).tree {
        lemma_climb_standard(ts, min, left, prefix(ts).shift);
    }
}

/// `ts` begins with the spelling of `e`.
pub open spec fn begins_with(ts: Seq<Token>, e: Expr) -> bool {
    spelling(e).len() <= ts.len() && ts.subrange(0, spelling(e).len() as int) == spelling(e)
}

/// On tokens that begin with the spelling of a standard tree `e`, which the
/// token behind it cannot extend above its own level, the parser reaches `e`
/// and goes on climbing from there.
proof fn lemma_reaches(ts: Seq<Token>, min: Precedence, e: Expr)
    requires
        standard(e),
        begins_with(ts, e),
        fits(e, min),
        stops(ts, spelling(e).len() as int, root_level(e)),
    ensures
        expression(ts, min) == climb(ts, min, e, (spelling(e).len() - 1) as nat),
    decreases e,
{
    lemma_spelling_len(e);
    match e {
        Expr::NumberLiteral(span) => {
            assert(ts[0] == ts.subrange(0, 1)[0]);
        },
        Expr::UnaryExpr { operator, operand } => {
            let x = *operand;
            let rest = ts.skip(1);
            lemma_spelling_len(x);
            assert(ts[0] == ts.subrange(0, spelling(e).len() as int)[0]);
            assert(rest.subrange(0, spelling(x).len() as int) =~= spelling(x)) by {
                assert(spelling(x) =~= spelling(e).skip(1));
            }
            lemma_reaches(rest, Precedence::Prefix, x);
        },
        Expr::BinaryExpr { left, operator, right } => {
            let l = *left;
            let r = *right;
            let n = spelling(l).len() as int;
            lemma_spelling_len(l);
            lemma_spelling_len(r);
            assert(ts.subrange(0, n) =~= spelling(l)) by {
                assert(spelling(l) =~= spelling(e).subrange(0, n));
            }
            assert(ts[n] == token_of(operator)) by {
                assert(ts[n] == ts.subrange(0, spelling(e).len() as int)[n]);
            }
            lemma_reaches(ts, min, l);
            let rest = ts.skip(n + 1);
            assert(rest.subrange(0, spelling(r).len() as int) =~= spelling(r)) by {
                assert(spelling(r) =~= spelling(e).skip(n + 1));
            }
            if spelling(r).len() < rest.len() {
                assert(rest[spelling(r).len() as int] == ts[spelling(e).len() as int]);
            }
            lemma_reaches(rest, precedence_of(ts[n]), r);
            assert(ts.skip(n).skip(1) =~= rest);
            assert(ts.skip(n)[0] == ts[n]);
            assert(infix(ts.skip(n), l) == (Step { tree: Some(e), shift: spelling(r).len() }));
        },
    }
}

/// Completeness: on tokens that begin with the spelling of a standard tree
/// `e`, the parser returns `e` and stops on its last token, wherever `e` fits
/// the level asked for and the token behind it cannot extend it at that level.
pub proof fn lemma_parses_back(ts: Seq<Token>, min: Precedence, e: Expr)
    requires
        standard(e),
        begins_with(ts, e),
        fits(e, min),
        stops(ts, spelling(e).len() as int, min.level()),
    ensures
        expression(ts, min) == (Step { tree: Some(e), shift: (spelling(e).len() - 1) as nat }),
{
    lemma_spelling_len(e);
    lemma_reaches(ts, min, e);
}

/// Round trip: the spelling of a standard tree parses to that tree, with no
/// token left over.
pub proof fn lemma_spelling_parses(e: Expr)
    requires
        standard(e),
    ensures
        expression(spelling(e), Precedence::Lowest) == (Step {
            tree: Some(e),
            shift: (spelling(e).len() - 1) as nat,
        }),
{
    let ts = spelling(e);
    assert(ts.subrange(0, ts.len() as int) =~= ts);
    lemma_parses_back(ts, Precedence::Lowest, e);
}

/// A sequence of tokens is spelled by at most one standard tree.
pub proof fn lemma_standard_unique(a: Expr, b: Expr)
    requires
        standard(a),
        standard(b),
        spelling(a) == spelling(b),
    ensures
        a == b,
{
    lemma_spelling_parses(a);
    lemma_spelling_parses(b);
}

/// The tokens form an expression from the first to the last: an operand,
/// then operators that are each followed by an operand. An operand is a number
/// with any count of minus signs in front of it.
pub open spec fn well_formed(ts: Seq<Token>) -> bool
    decreases ts.len(),
{
    ts.len() > 0 && match ts[0] {
        Token::Number(_) => continued(ts.skip(1)),
        Token::Minus => well_formed(ts.skip(1)),
        _ => false,
    }
}

/// The tokens go on from behind an operand to the end of an expression:
/// nothing, or an operator and a well-formed rest.
pub open spec fn continued(ts: Seq<Token>) -> bool
    decreases ts.len(),
{
    ts.len() == 0 || (operator_of(ts[0]) is Some && well_formed(ts.skip(1)))
}

/// The tokens begin with an expression: an operand, and after each operand
/// nothing, a token that is no operator, or an operator that is followed by an
/// operand in turn.
pub open spec fn begins(ts: Seq<Token>) -> bool
    decreases ts.len(),
{
    ts.len() > 0 && match ts[0] {
        Token::Number(_) => goes_on(ts.skip(1)),
        Token::Minus => begins(ts.skip(1)),
        _ => false,
    }
}

/// The tokens go on from behind an operand as an expression may: with
/// nothing, with a token that is no operator, or with an operator and the
/// beginning of an expression.
pub open spec fn goes_on(ts: Seq<Token>) -> bool
    decreases ts.len(),
{
    ts.len() == 0 || operator_of(ts[0]) is None || begins(ts.skip(1))
}

/// Well-formed tokens begin with an expression.
pub proof fn lemma_well_formed_begins(ts: Seq<Token>)
    ensures
        well_formed(ts) ==> begins(ts),
        continued(ts) ==> goes_on(ts),
    decreases ts.len(),
{
    if ts.len() > 0 {
        lemma_well_formed_begins(ts.skip(1));
    }
}

/// Well-formed tokens stay well-formed when an operator and more well-formed
/// tokens follow them, and begin an expression when anything but an operator
/// follows them.
proof fn lemma_well_formed_append(a: Seq<Token>, b: Seq<Token>)
    ensures
        well_formed(a) && continued(b) ==> well_formed(a + b),
        continued(a) && continued(b) ==> continued(a + b),
        well_formed(a) && (b.len() == 0 || operator_of(b[0]) is None) ==> begins(a + b),
        continued(a) && (b.len() == 0 || operator_of(b[0]) is None) ==> goes_on(a + b),
    decreases a.len(),
{
    if a.len() > 0 {
        lemma_well_formed_append(a.skip(1), b);
        assert((a + b).skip(1) =~= a.skip(1) + b);
        assert((a + b)[0] == a[0]);
    } else {
        assert(a + b =~= b);
    }
}

/// The spelling of a standard tree is well-formed.
pub proof fn lemma_spelling_well_formed(e: Expr)
    requires
        standard(e),
    ensures
        well_formed(spelling(e)),
    decreases e,
{
    match e {
        Expr::NumberLiteral(span) => {
            assert(spelling(e)[0] == Token::Number(span));
            assert(continued(spelling(e).skip(1)));
        },
        Expr::UnaryExpr { operator, operand } => {
            lemma_spelling_well_formed(*operand);
            assert(spelling(e)[0] == Token::Minus);
            assert(spelling(e).skip(1) =~= spelling(*operand));
        },
        Expr::BinaryExpr { left, operator, right } => {
            lemma_spelling_well_formed(*left);
            lemma_spelling_well_formed(*right);
            let tail = seq![token_of(operator)] + spelling(*right);
            assert(tail.skip(1) =~= spelling(*right));
            assert(continued(tail));
            assert(tail[0] == token_of(operator));
            lemma_well_formed_append(spelling(*left), tail);
            assert(spelling(e) =~= spelling(*left) + tail);
        },
    }
}

/// On tokens that begin with an expression the prefix production succeeds,
/// and what lies behind it goes on as an expression may; to the end, where the
/// tokens are well-formed.
proof fn lemma_prefix_total(ts: Seq<Token>)
    requires
        begins(ts),
    ensures
        prefix(ts).tree is Some,
        goes_on(ts.skip(prefix(ts).shift as int + 1)),
        well_formed(ts) ==> continued(ts.skip(prefix(ts).shift as int + 1)),
    decreases ts.len(), 1nat,
{
    if ts[0] is Minus {
        let rest = ts.skip(1);
        lemma_expression_total(rest, Precedence::Prefix);
        lemma_expression_bound(rest, Precedence::Prefix);
        assert(rest.skip(expression(rest, Precedence::Prefix).shift as int + 1) =~= ts.skip(
            prefix(ts).shift as int + 1,
        ));
    }
}

/// Behind an operand from which the tokens go on as an expression may, the
/// climbing loop succeeds, and what lies behind it goes on so too; to the
/// end, where the tokens behind the operand did.
proof fn lemma_climb_total(ts: Seq<Token>, min: Precedence, left: Expr, at: nat)
    requires
        at < ts.len(),
        goes_on(ts.skip(at as int + 1)),
    ensures
        climb(ts, min, left, at).tree is Some,
        goes_on(ts.skip(climb(ts, min, left, at).shift as int + 1)),
        continued(ts.skip(at as int + 1)) ==> continued(
            ts.skip(climb(ts, min, left, at).shift as int + 1),
        ),
    decreases ts.len() - at, 0nat,
{
    if at + 1 < ts.len() && min.level() < precedence_of(ts[at as int + 1]).level() {
        let rest = ts.skip(at as int + 1);
        let operand = rest.skip(1);
        let level = precedence_of(rest[0]);
        lemma_expression_total(operand, level);
        lemma_expression_bound(operand, level);
        let step = infix(rest, left);
        assert(operand.skip(expression(operand, level).shift as int + 1) =~= ts.skip(
            at as int + 1 + step.shift + 1,
        ));
        lemma_climb_total(ts, min, step.tree.unwrap(), at + 1 + step.shift);
    }
}

/// On tokens that begin with an expression, an expression parses at any
/// level, and what lies behind it goes on as an expression may; to the end,
/// where the tokens are well-formed.
proof fn lemma_expression_total(ts: Seq<Token>, min: Precedence)
    requires
        begins(ts),
    ensures
        expression(ts, min).tree is Some,
        goes_on(ts.skip(expression(ts, min).shift as int + 1)),
        well_formed(ts) ==> continued(ts.skip(expression(ts, min).shift as int + 1)),
    decreases ts.len(), 2nat,
{
    lemma_prefix_total(ts);
    lemma_prefix_bound(ts);
    lemma_climb_total(ts, min, prefix(ts).tree.unwrap(), prefix(ts).shift);
}

/// The parser returns a tree on exactly the tokens that begin with an
/// expression, and none on all others.
pub proof fn lemma_parses_iff_begins(ts: Seq<Token>)
    ensures
        expression(ts, Precedence::Lowest).tree is Some <==> begins(ts),
{
    let step = expression(ts, Precedence::Lowest);
    if begins(ts) {
        lemma_expression_total(ts, Precedence::Lowest);
    }
    if let Some(e) = step.tree {
        let taken = ts.subrange(0, step.shift as int + 1);
        let rest = ts.skip(step.shift as int + 1);
        lemma_expression_standard(ts, Precedence::Lowest);
        lemma_expression_bound(ts, Precedence::Lowest);
        lemma_spelling_well_formed(e);
        if rest.len() > 0 {
            lemma_operator_tokens(rest[0], OperatorKind::Add);
        }
        lemma_well_formed_append(taken, rest);
        assert(taken + rest =~= ts);
    }
}

/// Well-formed tokens parse to the one standard tree that spells them all.
pub proof fn lemma_well_formed_parses(ts: Seq<Token>)
    requires
        well_formed(ts),
    ensures
        expression(ts, Precedence::Lowest).tree matches Some(e) && standard(e) && spelling(e) == ts,
        expression(ts, Precedence::Lowest).shift + 1 == ts.len(),
{
    let step = expression(ts, Precedence::Lowest);
    lemma_well_formed_begins(ts);
    lemma_expression_total(ts, Precedence::Lowest);
    lemma_expression_standard(ts, Precedence::Lowest);
    lemma_expression_bound(ts, Precedence::Lowest);
    if step.shift + 1 < ts.len() {
        assert(ts.skip(step.shift as int + 1)[0] == ts[step.shift as int + 1]);
    }
    assert(ts.subrange(0, ts.len() as int) =~= ts);
}

/// A literal of a tree whose spelling holds genuine tokens only is genuine.
proof fn lemma_literal_of_spelling(e: Expr, s: Seq<u8>, span: Span)
    requires
        forall|i: int| 0 <= i < spelling(e).len() ==> genuine(#[trigger] spelling(e)[i], s),
        literal_of(e, span),
    ensures
        genuine(Token::Number(span), s),
    decreases e,
{
    match e {
        Expr::NumberLiteral(own) => {
            assert(spelling(e)[0] == Token::Number(span));
        },
        Expr::UnaryExpr { operator, operand } => {
            let x = spelling(*operand);
            assert forall|i: int| 0 <= i < x.len() implies genuine(#[trigger] x[i], s) by {
                assert(x[i] == spelling(e)[i + 1]);
            }
            lemma_literal_of_spelling(*operand, s, span);
        },
        Expr::BinaryExpr { left, operator, right } => {
            let l = spelling(*left);
            let r = spelling(*right);
            if literal_of(*left, span) {
                assert forall|i: int| 0 <= i < l.len() implies genuine(#[trigger] l[i], s) by {
                    assert(l[i] == spelling(e)[i]);
                }
                lemma_literal_of_spelling(*left, s, span);
            } else {
                assert forall|i: int| 0 <= i < r.len() implies genuine(#[trigger] r[i], s) by {
                    assert(r[i] == spelling(e)[l.len() + 1 + i]);
                }
                lemma_literal_of_spelling(*right, s, span);
            }
        },
    }
}

/// Every number literal of a parsed tree is a range of the input that spells
/// a decimal number.
pub proof fn lemma_parsed_literals(s: Seq<u8>)
    requires
        s.len() <= usize::MAX,
    ensures
        parse_of(s) matches Some(e) ==> literals_in(e, s),
{
    let ts = tokens_from(s, 0);
    if let Some(e) = parse_of(s) {
        lemma_tokens_genuine(s, 0);
        lemma_expression_standard(ts, Precedence::Lowest);
        lemma_expression_bound(ts, Precedence::Lowest);
        assert forall|i: int| 0 <= i < spelling(e).len() implies genuine(
            #[trigger] spelling(e)[i],
            s,
        ) by {
            assert(spelling(e)[i] == ts[i]);
        }
        assert forall|span: Span| #[trigger] literal_of(e, span) implies genuine(
            Token::Number(span),
            s,
        ) by {
            lemma_literal_of_spelling(e, s, span);
        }
    }
}

/// `c` is one of the four operator signs.
pub open spec fn is_operator(c: u8) -> bool {
    c == PLUS || c == MINUS || c == ASTERISK || c == SLASH
}

/// The bytes are a plain expression: decimal numbers with single operator
/// signs between them, and at most a minus sign in front.
pub open spec fn plain(s: Seq<u8>) -> bool {
    &&& s.len() > 0
    &&& is_numeric(s[0]) || s[0] == MINUS
    &&& forall|i: int| 0 <= i < s.len() ==> is_numeric(#[trigger] s[i]) || is_operator(s[i])
    &&& forall|i: int|
        0 <= i < s.len() && is_operator(#[trigger] s[i]) ==> i + 1 < s.len() && is_numeric(
            s[i + 1],
        )
    &&& forall|i: int|
        0 <= i < s.len() && is_numeric(#[trigger] s[i]) && (i == 0 || !is_numeric(s[i - 1]))
            ==> is_decimal(s.subrange(i, run_end(s, i)))
}

/// In a plain expression, the tokens read from the start of an operand on are
/// well-formed and reach the end of the input.
proof fn lemma_plain_tokens(s: Seq<u8>, pos: int)
    requires
        plain(s),
        0 <= pos < s.len(),
        pos == 0 || is_operator(s[pos - 1]),
    ensures
        well_formed(tokens_from(s, pos)),
        scan_end(s, pos) == s.len(),
    decreases s.len() - pos,
{
    let ts = tokens_from(s, pos);
    let next = next_pos(s, pos);
    lemma_run_end(s, pos);
    if is_numeric(s[pos]) {
        assert(token_at(s, pos) is Some);
        assert(ts.skip(1) =~= tokens_from(s, next));
        if next < s.len() {
            let rest = tokens_from(s, next);
            assert(is_operator(s[next]));
            assert(token_at(s, next) is Some);
            assert(operator_of(token_at(s, next).unwrap()) is Some);
            assert(next_pos(s, next) == next + 1);
            assert(rest.skip(1) =~= tokens_from(s, next + 1));
            lemma_plain_tokens(s, next + 1);
            assert(continued(rest));
            assert(scan_end(s, next) == s.len());
        } else {
            assert(continued(tokens_from(s, next)));
            assert(scan_end(s, next) == s.len());
        }
        assert(well_formed(ts));
    } else {
        assert(is_operator(s[pos]));
        assert(pos == 0);
        assert(token_at(s, pos) == Some(Token::Minus));
        assert(ts.skip(1) =~= tokens_from(s, 1));
        lemma_plain_tokens(s, 1);
        assert(well_formed(ts));
    }
}

/// A plain expression parses, to the one standard tree that spells its
/// tokens, and these spell the input from the first byte to the last.
pub proof fn lemma_plain_parses(s: Seq<u8>)
    requires
        plain(s),
        s.len() <= usize::MAX,
    ensures
        parse_of(s) matches Some(e) && standard(e) && spelling(e) == tokens_from(s, 0) && text(
            spelling(e),
            s,
        ) == s,
{
    lemma_plain_tokens(s, 0);
    lemma_well_formed_parses(tokens_from(s, 0));
    lemma_tokens_text(s, 0);
    assert(s.subrange(0, s.len() as int) =~= s);
}

/// The result for a plain expression is a value of the one standard tree that
/// spells the input from the first byte to the last.
pub proof fn lemma_plain_value<T, L, N, B>(
    s: Seq<u8>,
    number: L,
    negate: N,
    apply: B,
    value: Option<T>,
) where L: Fn(Span) -> T, N: Fn(T) -> T, B: Fn(OperatorKind, T, T) -> T
    requires
        plain(s),
        s.len() <= usize::MAX,
        input_evaluates(s, number, negate, apply, value),
    ensures
        value matches Some(v) && parse_of(s) matches Some(e) && standard(e) && text(
            spelling(e),
            s,
        ) == s && evaluates(e, number, negate, apply, v),
{
    lemma_plain_parses(s);
}

/// The result depends on the bytes alone: two inputs that hold the same bytes
/// parse to the same tree, or both to none.
pub proof fn lemma_same_bytes_same_tree(a: Seq<u8>, b: Seq<u8>)
    requires
        a.len() == b.len(),
        forall|i: int| 0 <= i < a.len() ==> a[i] == b[i],
    ensures
        parse_of(a) == parse_of(b),
{
    assert(a =~= b);
}

} // verus!
