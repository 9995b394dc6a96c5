//! Tree-walking evaluator.
//!
//! The library holds no arithmetic of its own: [`eval`] walks a tree once,
//! children before their parent and left before right, and combines what the
//! caller's three functions return. [`evaluates`] states which value belongs
//! to which tree.

use crate::lexer::Span;
use crate::parser::{literal_of, parse_of, Expr, OperatorKind};
use vstd::prelude::*;

verus! {

/// `value` is a value of the tree `e` under the three functions: what
/// `number` returns for a literal, what `negate` returns for a value of the
/// operand, what `apply` returns for the operator and values of the left and
/// the right operand.
pub open spec fn evaluates<T, L, N, B>(
    e: Expr,
    number: L,
    negate: N,
    apply: B,
    value: T,
) -> bool where L: Fn(Span) -> T, N: Fn(T) -> T, B: Fn(OperatorKind, T, T) -> T
    decreases e,
{
    match e {
        Expr::NumberLiteral(span) => call_ensures(number, (span,), value),
        Expr::UnaryExpr { operator, operand } => exists|x: T|
            evaluates(*operand, number, negate, apply, x) && #[trigger] call_ensures(
                negate,
                (x,),
                value,
            ),
        Expr::BinaryExpr { left, operator, right } => exists|a: T, b: T|
            evaluates(*left, number, negate, apply, a) && evaluates(
                *right,
                number,
                negate,
                apply,
                b,
            ) && #[trigger] call_ensures(apply, (operator, a, b), value),
    }
}

/// A value of a number literal is what `number` returns for its range.
pub proof fn lemma_literal_value<T, L, N, B>(
    e: Expr,
    number: L,
    negate: N,
    apply: B,
    v: T,
) where L: Fn(Span) -> T, N: Fn(T) -> T, B: Fn(OperatorKind, T, T) -> T
    requires
        e is NumberLiteral,
        evaluates(e, number, negate, apply, v),
    ensures
        call_ensures(number, (e->NumberLiteral_0,), v),
{
}

/// A value of a negation is what `negate` returns for a value of the operand.
pub proof fn lemma_unary_value<T, L, N, B>(
    e: Expr,
    number: L,
    negate: N,
    apply: B,
    v: T,
) -> (x: T) where L: Fn(Span) -> T, N: Fn(T) -> T, B: Fn(OperatorKind, T, T) -> T
    requires
        e is UnaryExpr,
        evaluates(e, number, negate, apply, v),
    ensures
        evaluates(*e->operand, number, negate, apply, x),
        call_ensures(negate, (x,), v),
{
    choose|x: T|
        evaluates(*e->operand, number, negate, apply, x) && #[trigger] call_ensures(
            negate,
            (x,),
            v,
        )
}

/// A value of a binary expression is what `apply` returns for the operator
/// and values of the two operands.
pub proof fn lemma_binary_value<T, L, N, B>(
    e: Expr,
    number: L,
    negate: N,
    apply: B,
    v: T,
) -> (ab: (T, T)) where L: Fn(Span) -> T, N: Fn(T) -> T, B: Fn(OperatorKind, T, T) -> T
    requires
        e is BinaryExpr,
        evaluates(e, number, negate, apply, v),
    ensures
        evaluates(*e->left, number, negate, apply, ab.0),
        evaluates(*e->right, number, negate, apply, ab.1),
        call_ensures(apply, (e->BinaryExpr_operator, ab.0, ab.1), v),
{
    choose|a: T, b: T|
        evaluates(*e->left, number, negate, apply, a) && evaluates(
            *e->right,
            number,
            negate,
            apply,
            b,
        ) && #[trigger] call_ensures(apply, (e->BinaryExpr_operator, a, b), v)
}

/// Each of the three functions returns one value for given arguments.
pub open spec fn single_valued<T, L, N, B>(number: L, negate: N, apply: B) -> bool where
    L: Fn(Span) -> T,
    N: Fn(T) -> T,
    B: Fn(OperatorKind, T, T) -> T,
{
    &&& forall|span: Span, v: T, w: T|
        #[trigger] call_ensures(number, (span,), v) && #[trigger] call_ensures(number, (span,), w)
            ==> v == w
    &&& forall|x: T, v: T, w: T|
        #[trigger] call_ensures(negate, (x,), v) && #[trigger] call_ensures(negate, (x,), w) ==> v
            == w
    &&& forall|operator: OperatorKind, a: T, b: T, v: T, w: T|
        #[trigger] call_ensures(apply, (operator, a, b), v) && #[trigger] call_ensures(
            apply,
            (operator, a, b),
            w,
        ) ==> v == w
}

/// Under functions that each return one value for given arguments, a tree
/// has one value.
pub proof fn lemma_one_value<T, L, N, B>(
    e: Expr,
    number: L,
    negate: N,
    apply: B,
    v: T,
    w: T,
) where L: Fn(Span) -> T, N: Fn(T) -> T, B: Fn(OperatorKind, T, T) -> T
    requires
        single_valued(number, negate, apply),
        evaluates(e, number, negate, apply, v),
        evaluates(e, number, negate, apply, w),
    ensures
        v == w,
    decreases e,
{
    match e {
        Expr::NumberLiteral(span) => {},
        Expr::UnaryExpr { operator, operand } => {
            let x = lemma_unary_value(e, number, negate, apply, v);
            let y = lemma_unary_value(e, number, negate, apply, w);
            lemma_one_value(*operand, number, negate, apply, x, y);
        },
        Expr::BinaryExpr { left, operator, right } => {
            let (a, b) = lemma_binary_value(e, number, negate, apply, v);
            let (c, d) = lemma_binary_value(e, number, negate, apply, w);
            lemma_one_value(*left, number, negate, apply, a, c);
            lemma_one_value(*right, number, negate, apply, b, d);
        },
    }
}

/// `value` is a result for the input `s` under the three functions: a value
/// of the tree that `s` parses to, or none where it does not parse.
pub open spec fn input_evaluates<T, L, N, B>(
    s: Seq<u8>,
    number: L,
    negate: N,
    apply: B,
    value: Option<T>,
) -> bool where L: Fn(Span) -> T, N: Fn(T) -> T, B: Fn(OperatorKind, T, T) -> T {
    match parse_of(s) {
        Some(e) => value matches Some(v) && evaluates(e, number, negate, apply, v),
        None => value is None,
    }
}

/// The result depends on the bytes and the three functions alone: under
/// functions that each return one value for given arguments, two inputs that
/// hold the same bytes have the same result.
pub proof fn lemma_same_bytes_same_value<T, L, N, B>(
    s: Seq<u8>,
    t: Seq<u8>,
    number: L,
    negate: N,
    apply: B,
    v: Option<T>,
    w: Option<T>,
) where L: Fn(Span) -> T, N: Fn(T) -> T, B: Fn(OperatorKind, T, T) -> T
    requires
        s.len() == t.len(),
        forall|i: int| 0 <= i < s.len() ==> s[i] == t[i],
        single_valued(number, negate, apply),
        input_evaluates(s, number, negate, apply, v),
        input_evaluates(t, number, negate, apply, w),
    ensures
        v == w,
{
    assert(s =~= t);
    if let Some(e) = parse_of(s) {
        lemma_one_value(e, number, negate, apply, v.unwrap(), w.unwrap());
    }
}

/// Folds the tree to one value: a literal by `number`, a negation by `negate`
/// of the operand's value, a binary expression by `apply` of the operator and
/// the values of the left and the right operand, in this order.
pub fn eval<T, L, N, B>(expr: &Expr, number: &L, negate: &N, apply: &B) -> (value: T) where
    L: Fn(Span) -> T,
    N: Fn(T) -> T,
    B: Fn(OperatorKind, T, T) -> T,
    requires
        forall|span: Span| #[trigger] literal_of(*expr, span) ==> call_requires(*number, (span,)),
        forall|x: T| call_requires(*negate, (x,)),
        forall|operator: OperatorKind, a: T, b: T| call_requires(*apply, (operator, a, b)),
    ensures
        evaluates(*expr, *number, *negate, *apply, value),
    decreases expr,
{
    match expr {
        Expr::NumberLiteral(n) => {
            assert(literal_of(*expr, *n));
            number(*n)
        },
        Expr::UnaryExpr { operator: _, operand } => {
            assert forall|span: Span| #[trigger] literal_of(**operand, span) implies call_requires(
                *number,
                (span,),
            ) by {
                assert(literal_of(*expr, span));
            }
            let x = eval(operand, number, negate, apply);
            negate(x)
        },
        Expr::BinaryExpr { left, operator, right } => {
            assert forall|span: Span| #[trigger] literal_of(**left, span) implies call_requires(
                *number,
                (span,),
            ) by {
                assert(literal_of(*expr, span));
            }
            assert forall|span: Span| #[trigger] literal_of(**right, span) implies call_requires(
                *number,
                (span,),
            ) by {
                assert(literal_of(*expr, span));
            }
            let left = eval(left, number, negate, apply);
            let right = eval(right, number, negate, apply);
            apply(*operator, left, right)
        },
    }
}

} // verus!
