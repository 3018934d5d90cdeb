//! Evaluating expressions: the order in which operands are evaluated, and what becomes of an
//! operand without a value. What numbers are and what operators do to them, the caller says.

use crate::expr::{BinOp, Expr, ExprView, UnaryOp};
use vstd::prelude::*;

verus! {

/// Marks an answer for an operand: a value, or that there is none.
pub open spec fn is_answer<N>(x: Option<N>) -> bool {
    true
}

/// Whether evaluating an expression can give this answer. A literal is its own value, and a column
/// has the value that the caller gives it, if any. Operands are evaluated from left to right; where
/// one has no value, nothing after it is evaluated and there is no value.
pub open spec fn evaluates<N, C, B, U>(
    expr: Expr<N>,
    column: C,
    binary: B,
    unary: U,
    r: Option<N>,
) -> bool where
    C: Fn(&String) -> Option<N>,
    B: Fn(BinOp, N, N) -> Option<N>,
    U: Fn(UnaryOp, N) -> Option<N>,

    decreases expr,
{
    match expr {
        Expr::Literal(number) => r == Some(number),
        Expr::Column(name) => call_ensures(column, (&name,), r),
        Expr::Binary(lhs, op, rhs) => exists|x: Option<N>| #[trigger]
            is_answer(x) && evaluates(*lhs, column, binary, unary, x) && match x {
                None => r is None,
                Some(x) => exists|y: Option<N>| #[trigger]
                    is_answer(y) && evaluates(*rhs, column, binary, unary, y) && match y {
                        None => r is None,
                        Some(y) => call_ensures(binary, (op, x, y), r),
                    },
            },
        Expr::Unary(op, inner) => exists|x: Option<N>| #[trigger]
            is_answer(x) && evaluates(*inner, column, binary, unary, x) && match x {
                None => r is None,
                Some(x) => call_ensures(unary, (op, x), r),
            },
    }
}

/// Evaluates an expression with the values and operators given.
pub fn eval_with<N: Copy, C, B, U>(
    expr: &Expr<N>,
    column: &C,
    binary: &B,
    unary: &U,
) -> (r: Option<N>) where
    C: Fn(&String) -> Option<N>,
    B: Fn(BinOp, N, N) -> Option<N>,
    U: Fn(UnaryOp, N) -> Option<N>,

    requires
        forall|name: &String| #[trigger] call_requires(*column, (name,)),
        forall|op: BinOp, x: N, y: N| #[trigger] call_requires(*binary, (op, x, y)),
        forall|op: UnaryOp, x: N| #[trigger] call_requires(*unary, (op, x)),
    ensures
        evaluates(*expr, *column, *binary, *unary, r),
    decreases expr,
{
    match expr {
        Expr::Literal(number) => Some(*number),
        Expr::Column(name) => column(name),
        Expr::Binary(lhs, op, rhs) => {
            let left = eval_with(lhs, column, binary, unary);
            assert(is_answer(left));
            let x = match left {
                Some(x) => x,
                None => {
                    return None;
                },
            };
            let right = eval_with(rhs, column, binary, unary);
            assert(is_answer(right));
            let y = match right {
                Some(y) => y,
                None => {
                    return None;
                },
            };
            binary(*op, x, y)
        },
        Expr::Unary(op, inner) => {
            let operand = eval_with(inner, column, binary, unary);
            assert(is_answer(operand));
            match operand {
                Some(x) => unary(*op, x),
                None => None,
            }
        },
    }
}

/// Where the caller's answers depend on nothing but what is asked, an expression has one answer.
pub proof fn law_expression_has_one_answer<N, C, B, U>(
    expr: Expr<N>,
    column: C,
    binary: B,
    unary: U,
    a: Option<N>,
    b: Option<N>,
) where
    C: Fn(&String) -> Option<N>,
    B: Fn(BinOp, N, N) -> Option<N>,
    U: Fn(UnaryOp, N) -> Option<N>,

    requires
        evaluates(expr, column, binary, unary, a),
        evaluates(expr, column, binary, unary, b),
        forall|name: &String, r: Option<N>, s: Option<N>| #[trigger]
            call_ensures(column, (name,), r) && #[trigger] call_ensures(column, (name,), s)
                ==> r == s,
        forall|op: BinOp, x: N, y: N, r: Option<N>, s: Option<N>| #[trigger]
            call_ensures(binary, (op, x, y), r) && #[trigger] call_ensures(binary, (op, x, y), s)
                ==> r == s,
        forall|op: UnaryOp, x: N, r: Option<N>, s: Option<N>| #[trigger]
            call_ensures(unary, (op, x), r) && #[trigger] call_ensures(unary, (op, x), s)
                ==> r == s,
    ensures
        a == b,
    decreases expr,
{
    match expr {
        Expr::Binary(lhs, op, rhs) => {
            let xa = choose|x: Option<N>| #[trigger]
                is_answer(x) && evaluates(*lhs, column, binary, unary, x) && match x {
                    None => a is None,
                    Some(x) => exists|y: Option<N>| #[trigger]
                        is_answer(y) && evaluates(*rhs, column, binary, unary, y)
                            && match y {
                            None => a is None,
                            Some(y) => call_ensures(binary, (op, x, y), a),
                        },
                };
            let xb = choose|x: Option<N>| #[trigger]
                is_answer(x) && evaluates(*lhs, column, binary, unary, x) && match x {
                    None => b is None,
                    Some(x) => exists|y: Option<N>| #[trigger]
                        is_answer(y) && evaluates(*rhs, column, binary, unary, y)
                            && match y {
                            None => b is None,
                            Some(y) => call_ensures(binary, (op, x, y), b),
                        },
                };
            law_expression_has_one_answer(*lhs, column, binary, unary, xa, xb);
            if xa is Some {
                let x = xa->0;
                let ya = choose|y: Option<N>| #[trigger]
                    is_answer(y) && evaluates(*rhs, column, binary, unary, y) && match y {
                        None => a is None,
                        Some(y) => call_ensures(binary, (op, x, y), a),
                    };
                let yb = choose|y: Option<N>| #[trigger]
                    is_answer(y) && evaluates(*rhs, column, binary, unary, y) && match y {
                        None => b is None,
                        Some(y) => call_ensures(binary, (op, x, y), b),
                    };
                law_expression_has_one_answer(*rhs, column, binary, unary, ya, yb);
            }
        },
        Expr::Unary(op, inner) => {
            let xa = choose|x: Option<N>| #[trigger]
                is_answer(x) && evaluates(*inner, column, binary, unary, x) && match x {
                    None => a is None,
                    Some(x) => call_ensures(unary, (op, x), a),
                };
            let xb = choose|x: Option<N>| #[trigger]
                is_answer(x) && evaluates(*inner, column, binary, unary, x) && match x {
                    None => b is None,
                    Some(x) => call_ensures(unary, (op, x), b),
                };
            law_expression_has_one_answer(*inner, column, binary, unary, xa, xb);
        },
        _ => {},
    }
}

/// Whether evaluating an expression can give this answer and no other.
pub open spec fn has_answer<N, C, B, U>(
    expr: Expr<N>,
    column: C,
    binary: B,
    unary: U,
    answer: Option<N>,
) -> bool where
    C: Fn(&String) -> Option<N>,
    B: Fn(BinOp, N, N) -> Option<N>,
    U: Fn(UnaryOp, N) -> Option<N>,

{
    forall|r: Option<N>| #[trigger]
        is_answer(r) && evaluates(expr, column, binary, unary, r) ==> r == answer
}

/// A literal has its number as its value.
pub proof fn law_literal_is_its_value<N, C, B, U>(
    number: N,
    column: C,
    binary: B,
    unary: U,
    r: Option<N>,
) where
    C: Fn(&String) -> Option<N>,
    B: Fn(BinOp, N, N) -> Option<N>,
    U: Fn(UnaryOp, N) -> Option<N>,

    requires
        evaluates(Expr::Literal(number), column, binary, unary, r),
    ensures
        r == Some(number),
{
}

/// A column has the value that the caller answers for its name, or none where the caller has none.
pub proof fn law_column_is_what_the_caller_answers<N, C, B, U>(
    name: String,
    column: C,
    binary: B,
    unary: U,
    value: Option<N>,
    r: Option<N>,
) where
    C: Fn(&String) -> Option<N>,
    B: Fn(BinOp, N, N) -> Option<N>,
    U: Fn(UnaryOp, N) -> Option<N>,

    requires
        evaluates(Expr::Column(name), column, binary, unary, r),
        forall|s: Option<N>| #[trigger] call_ensures(column, (&name,), s) ==> s == value,
    ensures
        r == value,
{
}

/// An operator in front of any operand is applied to the value of the operand. Where the operand
/// has no value there is none.
pub proof fn law_prefix_is_applied<N, C, B, U>(
    op: UnaryOp,
    operand: Expr<N>,
    column: C,
    binary: B,
    unary: U,
    value: Option<N>,
    answer: Option<N>,
    r: Option<N>,
) where
    C: Fn(&String) -> Option<N>,
    B: Fn(BinOp, N, N) -> Option<N>,
    U: Fn(UnaryOp, N) -> Option<N>,

    requires
        evaluates(Expr::Unary(op, Box::new(operand)), column, binary, unary, r),
        has_answer(operand, column, binary, unary, value),
        value matches Some(v) ==> forall|w: Option<N>| #[trigger]
            call_ensures(unary, (op, v), w) ==> w == answer,
    ensures
        r == match value {
            Some(_) => answer,
            None => None,
        },
{
    let x = choose|x: Option<N>| #[trigger]
        is_answer(x) && evaluates(operand, column, binary, unary, x) && match x {
            None => r is None,
            Some(x) => call_ensures(unary, (op, x), r),
        };
    assert(is_answer(x));
}

/// An operator between any two operands is applied to their values, the left one first. Where
/// either has no value there is none.
pub proof fn law_operator_is_applied<N, C, B, U>(
    left: Expr<N>,
    op: BinOp,
    right: Expr<N>,
    column: C,
    binary: B,
    unary: U,
    x: Option<N>,
    y: Option<N>,
    answer: Option<N>,
    r: Option<N>,
) where
    C: Fn(&String) -> Option<N>,
    B: Fn(BinOp, N, N) -> Option<N>,
    U: Fn(UnaryOp, N) -> Option<N>,

    requires
        evaluates(Expr::Binary(Box::new(left), op, Box::new(right)), column, binary, unary, r),
        has_answer(left, column, binary, unary, x),
        has_answer(right, column, binary, unary, y),
        x is Some && y is Some ==> forall|w: Option<N>| #[trigger]
            call_ensures(binary, (op, x->0, y->0), w) ==> w == answer,
    ensures
        r == if x is Some && y is Some {
            answer
        } else {
            None
        },
{
    let a = choose|a: Option<N>| #[trigger]
        is_answer(a) && evaluates(left, column, binary, unary, a) && match a {
            None => r is None,
            Some(a) => exists|b: Option<N>| #[trigger]
                is_answer(b) && evaluates(right, column, binary, unary, b) && match b {
                    None => r is None,
                    Some(b) => call_ensures(binary, (op, a, b), r),
                },
        };
    assert(is_answer(a));
    if a is Some {
        let b = choose|b: Option<N>| #[trigger]
            is_answer(b) && evaluates(right, column, binary, unary, b) && match b {
                None => r is None,
                Some(b) => call_ensures(binary, (op, a->0, b), r),
            };
        assert(is_answer(b));
    }
}

/// The value of an expression where each column has one value and each operator one answer: what
/// the operators make of the values of the literals and columns, from the inside out.
pub open spec fn value_of<N>(
    expr: ExprView<N>,
    columns: spec_fn(Seq<char>) -> Option<N>,
    operators: spec_fn(BinOp, N, N) -> Option<N>,
    prefixes: spec_fn(UnaryOp, N) -> Option<N>,
) -> Option<N>
    decreases expr,
{
    match expr {
        ExprView::Literal(number) => Some(number),
        ExprView::Column(name) => columns(name),
        ExprView::Unary(op, inner) => match value_of(*inner, columns, operators, prefixes) {
            Some(x) => prefixes(op, x),
            None => None,
        },
        ExprView::Binary(l, op, r) => match (
            value_of(*l, columns, operators, prefixes),
            value_of(*r, columns, operators, prefixes),
        ) {
            (Some(x), Some(y)) => operators(op, x, y),
            _ => None,
        },
    }
}

/// Evaluating gives the value that the columns and operators give an expression.
pub proof fn law_evaluation_gives_the_value<N, C, B, U>(
    expr: Expr<N>,
    column: C,
    binary: B,
    unary: U,
    columns: spec_fn(Seq<char>) -> Option<N>,
    operators: spec_fn(BinOp, N, N) -> Option<N>,
    prefixes: spec_fn(UnaryOp, N) -> Option<N>,
    r: Option<N>,
) where
    C: Fn(&String) -> Option<N>,
    B: Fn(BinOp, N, N) -> Option<N>,
    U: Fn(UnaryOp, N) -> Option<N>,

    requires
        evaluates(expr, column, binary, unary, r),
        forall|name: &String, s: Option<N>| #[trigger]
            call_ensures(column, (name,), s) ==> s == columns(name@),
        forall|op: BinOp, x: N, y: N, s: Option<N>| #[trigger]
            call_ensures(binary, (op, x, y), s) ==> s == operators(op, x, y),
        forall|op: UnaryOp, x: N, s: Option<N>| #[trigger]
            call_ensures(unary, (op, x), s) ==> s == prefixes(op, x),
    ensures
        r == value_of(expr@, columns, operators, prefixes),
    decreases expr,
{
    match expr {
        Expr::Literal(_) => {},
        Expr::Column(_) => {},
        Expr::Unary(op, inner) => {
            let x = value_of((*inner)@, columns, operators, prefixes);
            assert forall|s: Option<N>| #[trigger]
                is_answer(s) && evaluates(*inner, column, binary, unary, s) implies s == x by {
                law_evaluation_gives_the_value(
                    *inner,
                    column,
                    binary,
                    unary,
                    columns,
                    operators,
                    prefixes,
                    s,
                );
            }
            let answer = match x {
                Some(v) => prefixes(op, v),
                None => None,
            };
            law_prefix_is_applied(op, *inner, column, binary, unary, x, answer, r);
        },
        Expr::Binary(left, op, right) => {
            let x = value_of((*left)@, columns, operators, prefixes);
            let y = value_of((*right)@, columns, operators, prefixes);
            assert forall|s: Option<N>| #[trigger]
                is_answer(s) && evaluates(*left, column, binary, unary, s) implies s == x by {
                law_evaluation_gives_the_value(
                    *left,
                    column,
                    binary,
                    unary,
                    columns,
                    operators,
                    prefixes,
                    s,
                );
            }
            assert forall|s: Option<N>| #[trigger]
                is_answer(s) && evaluates(*right, column, binary, unary, s) implies s == y by {
                law_evaluation_gives_the_value(
                    *right,
                    column,
                    binary,
                    unary,
                    columns,
                    operators,
                    prefixes,
                    s,
                );
            }
            let answer = if x is Some && y is Some {
                operators(op, x->0, y->0)
            } else {
                None
            };
            law_operator_is_applied(
                *left,
                op,
                *right,
                column,
                binary,
                unary,
                x,
                y,
                answer,
                r,
            );
        },
    }
}

} // verus!
