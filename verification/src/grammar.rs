//! The grammar of expressions, told by the ways to write them: what is written in one of these ways
//! is read as meant, and nothing else is read.

use crate::expr::{
    is_name, is_number, lemma_level_consumes, operator, prefix_operator, read_all, read_atom,
    read_level, read_more, read_unary, BinOp, ExprView, ParseProblem, UnaryOp, COMPARISON_LEVEL,
    UNARY_LEVEL,
};
use crate::notation::{lemma_apart, lemma_number_token};
use vstd::prelude::*;

verus! {

/// A way to write an expression.
pub enum Source {
    Number(Seq<char>),
    Name(Seq<char>),
    /// In parentheses.
    Grouped(Box<Source>),
    /// With an operator in front.
    Prefixed(UnaryOp, Box<Source>),
    /// With an operator between.
    Joined(Box<Source>, BinOp, Box<Source>),
}

/// The sign of an operator between two operands.
pub open spec fn joint(op: BinOp) -> Seq<char> {
    match op {
        BinOp::Or => "or"@,
        BinOp::And => "and"@,
        BinOp::Eq => "=="@,
        BinOp::Neq => "!="@,
        BinOp::Lt => "<"@,
        BinOp::Le => "<="@,
        BinOp::Gt => ">"@,
        BinOp::Ge => ">="@,
        BinOp::Add => "+"@,
        BinOp::Sub => "-"@,
        BinOp::Mul => "*"@,
        BinOp::Div => "/"@,
    }
}

/// The sign of an operator in front of an operand.
pub open spec fn front(op: UnaryOp) -> Seq<char> {
    match op {
        UnaryOp::Neg => "-"@,
        UnaryOp::Not => "not"@,
    }
}

/// How tightly an operator binds: `or` least, then `and`, comparisons, sums and products.
pub open spec fn tightness(op: BinOp) -> int {
    match op {
        BinOp::Or => 0,
        BinOp::And => 1,
        BinOp::Eq | BinOp::Neq | BinOp::Lt | BinOp::Le | BinOp::Gt | BinOp::Ge => 2,
        BinOp::Add | BinOp::Sub => 3,
        BinOp::Mul | BinOp::Div => 4,
    }
}

/// The tokens that are written.
pub open spec fn tokens_of(source: Source) -> Seq<Seq<char>>
    decreases source,
{
    match source {
        Source::Number(text) => seq![text],
        Source::Name(name) => seq![name],
        Source::Grouped(inner) => seq!["("@] + tokens_of(*inner) + seq![")"@],
        Source::Prefixed(op, inner) => seq![front(op)] + tokens_of(*inner),
        Source::Joined(l, op, r) => tokens_of(*l) + seq![joint(op)] + tokens_of(*r),
    }
}

/// The expression that is meant. Parentheses only group.
pub open spec fn expr_of(source: Source) -> ExprView
    decreases source,
{
    match source {
        Source::Number(text) => ExprView::Literal(text),
        Source::Name(name) => ExprView::Column(name),
        Source::Grouped(inner) => expr_of(*inner),
        Source::Prefixed(op, inner) => ExprView::Unary(op, Box::new(expr_of(*inner))),
        Source::Joined(l, op, r) => ExprView::Binary(
            Box::new(expr_of(*l)),
            op,
            Box::new(expr_of(*r)),
        ),
    }
}

/// Whether no operator stands outside of parentheses.
pub open spec fn is_atom(source: Source) -> bool {
    source is Number || source is Name || source is Grouped
}

/// Whether operands are written so that each operator gets those that are meant, where operators
/// that bind less tightly than `least` are not to be: an operator has operands that bind more
/// tightly on its right, and as tightly on its left, so that any number of operators of one kind in
/// a row group to the left; comparisons do not chain; in front of an operand stands at most one
/// operator.
pub open spec fn is_written_well(source: Source, least: int) -> bool
    decreases source,
{
    match source {
        Source::Number(text) => is_number(text),
        Source::Name(name) => is_name(name) && !is_number(name) && name != "not"@,
        Source::Grouped(inner) => is_written_well(*inner, 0),
        Source::Prefixed(_, inner) => is_atom(*inner) && is_written_well(*inner, 5),
        Source::Joined(l, op, r) => {
            &&& least <= tightness(op)
            &&& is_written_well(
                *l,
                if tightness(op) == 2 {
                    3
                } else {
                    tightness(op)
                },
            )
            &&& is_written_well(*r, tightness(op) + 1)
        },
    }
}

/// Each sign is an operator of its own tightness and of no other.
proof fn lemma_joints(op: BinOp, level: int)
    requires
        0 <= level < 5,
    ensures
        operator(level, joint(op)) == if level == tightness(op) {
            Some(op)
        } else {
            None
        },
        operator(level, ")"@) is None,
        COMPARISON_LEVEL == 2,
        UNARY_LEVEL == 5,
{
    lemma_apart();
}

/// A token that is an operator is the sign of that operator.
proof fn lemma_operator_is_joint(level: int, token: Seq<char>)
    requires
        0 <= level < 5,
        operator(level, token) is Some,
    ensures
        joint(operator(level, token)->0) == token,
        tightness(operator(level, token)->0) == level,
{
}

/// What is written starts with a token that is no operator in front, unless one is written there.
proof fn lemma_first_token(source: Source, least: int)
    requires
        is_written_well(source, least),
        is_atom(source),
    ensures
        tokens_of(source).len() > 0,
        prefix_operator(tokens_of(source)[0]) is None,
{
    lemma_apart();
    match source {
        Source::Number(text) => {
            lemma_number_is_no_sign(text);
        },
        Source::Name(name) => {
            lemma_name_is_no_sign(name);
        },
        _ => {},
    }
}

/// A number is no sign.
proof fn lemma_number_is_no_sign(text: Seq<char>)
    requires
        is_number(text),
    ensures
        prefix_operator(text) is None,
        text != "("@,
{
    lemma_number_token(text);
}

/// A name is no sign but `not`.
proof fn lemma_name_is_no_sign(name: Seq<char>)
    requires
        is_name(name),
        name != "not"@,
    ensures
        prefix_operator(name) is None,
        name != "("@,
{
    lemma_apart();
}

/// There is always something written.
proof fn lemma_some_tokens(source: Source)
    ensures
        tokens_of(source).len() > 0,
    decreases source,
{
    match source {
        Source::Prefixed(_, inner) => {
            lemma_some_tokens(*inner);
        },
        Source::Joined(l, _, _) => {
            lemma_some_tokens(*l);
        },
        _ => {},
    }
}

/// Whether no operator that binds at least as tightly as `level` comes first.
pub open spec fn ends_at(level: int, rest: Seq<Seq<char>>) -> bool {
    rest.len() == 0 || forall|k: int|
        level <= k < 5 ==> (#[trigger] operator(k, rest[0])) is None
}

/// What is read, with the tokens left.
pub open spec fn reading(expr: ExprView, rest: Seq<Seq<char>>) -> Result<
    (ExprView, Seq<Seq<char>>),
    ParseProblem,
> {
    Ok((expr, rest))
}

/// What is written without operators outside of parentheses is read.
proof fn lemma_atom_is_read(source: Source, least: int, rest: Seq<Seq<char>>)
    requires
        is_written_well(source, least),
        is_atom(source),
    ensures
        read_atom(tokens_of(source) + rest) == reading(expr_of(source), rest),
    decreases source, 0int,
{
    let tokens = tokens_of(source) + rest;
    match source {
        Source::Number(text) => {
            lemma_number_is_no_sign(text);
            assert(tokens[0] == text);
            assert(tokens.skip(1) =~= rest);
        },
        Source::Name(name) => {
            lemma_name_is_no_sign(name);
            assert(tokens[0] == name);
            assert(tokens.skip(1) =~= rest);
        },
        Source::Grouped(inner) => {
            let close = seq![")"@] + rest;
            assert(ends_at(0, close)) by {
                assert forall|k: int| 0 <= k < 5 implies (#[trigger] operator(k, close[0]))
                    is None by {
                    lemma_joints(BinOp::Add, k);
                }
            }
            lemma_source_is_read(*inner, 0, close);
            assert(tokens.skip(1) =~= tokens_of(*inner) + close);
            assert(close.skip(1) =~= rest);
        },
        _ => {},
    }
}

/// An operand with at most one operator in front is read.
proof fn lemma_operand_is_read(source: Source, rest: Seq<Seq<char>>)
    requires
        is_written_well(source, 5),
    ensures
        read_level(5, tokens_of(source) + rest) == reading(expr_of(source), rest),
    decreases source, 1int,
{
    lemma_joints(BinOp::Add, 0);
    let tokens = tokens_of(source) + rest;
    assert(read_level(5, tokens) == read_unary(tokens));
    match source {
        Source::Prefixed(op, inner) => {
            lemma_apart();
            lemma_atom_is_read(*inner, 5, rest);
            assert(tokens[0] == front(op));
            assert(tokens.skip(1) =~= tokens_of(*inner) + rest);
        },
        Source::Joined(_, op, _) => {
            assert(tightness(op) < 5);
        },
        _ => {
            lemma_first_token(source, 5);
            lemma_atom_is_read(source, 5, rest);
            assert(tokens[0] == tokens_of(source)[0]);
        },
    }
}

/// What is written is read on a level, and reading goes on with what follows.
proof fn lemma_source_goes_on(source: Source, level: int, rest: Seq<Seq<char>>)
    requires
        0 <= level < 5,
        is_written_well(source, level),
        ends_at(level + 1, rest),
        !(source is Joined && level == 2 && tightness(source->Joined_1) == 2),
    ensures
        read_level(level, tokens_of(source) + rest) == read_more(level, rest, expr_of(source)),
    decreases source, 10 - level, 0int,
{
    lemma_joints(BinOp::Add, 0);
    lemma_some_tokens(source);
    let tokens = tokens_of(source) + rest;
    let above = match source {
        Source::Joined(_, op, _) => tightness(op) > level,
        _ => true,
    };
    if above {
        lemma_source_is_read(source, level + 1, rest);
        assert(rest.len() < tokens.len());
    } else {
        match source {
            Source::Joined(l, op, r) => {
                let operand = tokens_of(*r) + rest;
                let behind = seq![joint(op)] + operand;
                assert(tokens =~= tokens_of(*l) + behind);
                assert(ends_at(level + 1, behind)) by {
                    assert forall|k: int| level + 1 <= k < 5 implies (#[trigger] operator(
                        k,
                        behind[0],
                    )) is None by {
                        lemma_joints(op, k);
                    }
                }
                lemma_joints(op, level);
                lemma_source_goes_on(*l, level, behind);
                lemma_source_is_read(*r, level + 1, rest);
                assert(behind.skip(1) =~= operand);
                lemma_some_tokens(*r);
            },
            _ => {},
        }
    }
}

/// What is written is read on a level, where no operator of the level follows.
proof fn lemma_source_is_read(source: Source, level: int, rest: Seq<Seq<char>>)
    requires
        0 <= level <= 5,
        is_written_well(source, level),
        ends_at(level, rest),
    ensures
        read_level(level, tokens_of(source) + rest) == reading(expr_of(source), rest),
    decreases source, 10 - level, 1int,
{
    lemma_joints(BinOp::Add, 0);
    if level == 5 {
        lemma_operand_is_read(source, rest);
    } else if source is Joined && level == 2 && tightness(source->Joined_1) == 2 {
        lemma_comparison_is_read(source, rest);
    } else {
        lemma_source_goes_on(source, level, rest);
    }
}

/// A comparison is read, whatever comparison follows.
proof fn lemma_comparison_is_read(source: Source, rest: Seq<Seq<char>>)
    requires
        source is Joined,
        tightness(source->Joined_1) == 2,
        is_written_well(source, 2),
        ends_at(3, rest),
    ensures
        read_level(2, tokens_of(source) + rest) == reading(expr_of(source), rest),
    decreases source, 8int, 0int,
{
    match source {
        Source::Joined(l, op, r) => {
            let tokens = tokens_of(source) + rest;
            let operand = tokens_of(*r) + rest;
            let behind = seq![joint(op)] + operand;
            assert(tokens =~= tokens_of(*l) + behind);
            assert(ends_at(3, behind)) by {
                assert forall|k: int| 3 <= k < 5 implies (#[trigger] operator(k, behind[0]))
                    is None by {
                    lemma_joints(op, k);
                }
            }
            lemma_joints(op, 2);
            lemma_some_tokens(*l);
            lemma_source_is_read(*l, 3, behind);
            lemma_source_is_read(*r, 3, rest);
            assert(behind.skip(1) =~= operand);
            assert(behind.len() < tokens.len());
            assert(read_level(2, tokens) == read_more(2, behind, expr_of(*l)));
            assert(operator(2, behind[0]) == Some(op));
            assert(read_more(2, behind, expr_of(*l)) == reading(expr_of(source), rest));
        },
        _ => {},
    }
}

/// What is written well where only tight operators are to be is written well where others may be.
proof fn lemma_looser(source: Source, least: int, most: int)
    requires
        is_written_well(source, most),
        least <= most,
    ensures
        is_written_well(source, least),
{
}

/// What is read as a number, a name or an expression in parentheses was written so.
proof fn lemma_atom_has_source(tokens: Seq<Seq<char>>) -> (source: Source)
    requires
        read_atom(tokens) is Ok,
    ensures
        is_atom(source),
        is_written_well(source, 5),
        read_atom(tokens) == reading(expr_of(source), read_atom(tokens)->Ok_0.1),
        tokens == tokens_of(source) + read_atom(tokens)->Ok_0.1,
    decreases tokens.len(), 0int,
{
    let rest = read_atom(tokens)->Ok_0.1;
    if tokens[0] == "("@ {
        let behind = read_level(0, tokens.skip(1))->Ok_0.1;
        let inner = lemma_level_has_source(0, tokens.skip(1));
        let source = Source::Grouped(Box::new(inner));
        assert(behind =~= seq![")"@] + rest);
        assert(tokens =~= seq!["("@] + tokens.skip(1));
        assert(tokens =~= tokens_of(source) + rest);
        source
    } else if is_number(tokens[0]) {
        assert(tokens =~= seq![tokens[0]] + rest);
        Source::Number(tokens[0])
    } else {
        assert(tokens =~= seq![tokens[0]] + rest);
        Source::Name(tokens[0])
    }
}

/// What is read as an operand was written so.
proof fn lemma_unary_has_source(tokens: Seq<Seq<char>>) -> (source: Source)
    requires
        read_unary(tokens) is Ok,
    ensures
        is_written_well(source, 5),
        read_unary(tokens) == reading(expr_of(source), read_unary(tokens)->Ok_0.1),
        tokens == tokens_of(source) + read_unary(tokens)->Ok_0.1,
    decreases tokens.len(), 1int,
{
    if tokens.len() > 0 && prefix_operator(tokens[0]) is Some {
        let op = prefix_operator(tokens[0])->0;
        let inner = lemma_atom_has_source(tokens.skip(1));
        let source = Source::Prefixed(op, Box::new(inner));
        assert(front(op) == tokens[0]);
        assert(tokens =~= seq![tokens[0]] + tokens.skip(1));
        assert(tokens =~= tokens_of(source) + read_unary(tokens)->Ok_0.1);
        source
    } else {
        lemma_atom_has_source(tokens)
    }
}

/// What is read as an expression was written so.
proof fn lemma_level_has_source(level: int, tokens: Seq<Seq<char>>) -> (source: Source)
    requires
        0 <= level <= 5,
        read_level(level, tokens) is Ok,
    ensures
        is_written_well(source, level),
        read_level(level, tokens) == reading(expr_of(source), read_level(level, tokens)->Ok_0.1),
        tokens == tokens_of(source) + read_level(level, tokens)->Ok_0.1,
    decreases tokens.len(), 7 - level,
{
    lemma_joints(BinOp::Add, 0);
    if level == 5 {
        lemma_unary_has_source(tokens)
    } else {
        let rest = read_level(level + 1, tokens)->Ok_0.1;
        let first = lemma_level_has_source(level + 1, tokens);
        lemma_looser(first, level, level + 1);
        lemma_more_has_source(level, rest, first)
    }
}

/// What is read on behind an operand was written there.
proof fn lemma_more_has_source(level: int, tokens: Seq<Seq<char>>, left: Source) -> (source: Source)
    requires
        0 <= level < 5,
        is_written_well(left, level),
        level == 2 ==> is_written_well(left, 3),
        read_more(level, tokens, expr_of(left)) is Ok,
    ensures
        is_written_well(source, level),
        read_more(level, tokens, expr_of(left)) == reading(
            expr_of(source),
            read_more(level, tokens, expr_of(left))->Ok_0.1,
        ),
        tokens_of(left) + tokens == tokens_of(source) + read_more(
            level,
            tokens,
            expr_of(left),
        )->Ok_0.1,
    decreases tokens.len(), 0int,
{
    lemma_joints(BinOp::Add, 0);
    if tokens.len() == 0 || operator(level, tokens[0]) is None {
        left
    } else {
        let op = operator(level, tokens[0])->0;
        lemma_operator_is_joint(level, tokens[0]);
        let behind = tokens.skip(1);
        let right = lemma_level_has_source(level + 1, behind);
        lemma_level_consumes(level + 1, behind);
        let rest = read_level(level + 1, behind)->Ok_0.1;
        let both = Source::Joined(Box::new(left), op, Box::new(right));
        assert(tokens =~= seq![joint(op)] + behind);
        assert(tokens_of(left) + tokens =~= tokens_of(both) + rest);
        if level == 2 {
            both
        } else {
            lemma_more_has_source(level, rest, both)
        }
    }
}

/// A list of tokens is read as an expression exactly where it is one of the ways to write it: by
/// precedence, with operators of one kind grouped to the left, however many there are.
pub proof fn law_tokens_are_read_by_the_grammar(tokens: Seq<Seq<char>>, expr: ExprView)
    ensures
        read_all(tokens) == Ok::<ExprView, ParseProblem>(expr) <==> exists|source: Source|
            #[trigger] is_written_well(source, 0) && tokens_of(source) == tokens && expr_of(source)
                == expr,
{
    if read_all(tokens) == Ok::<ExprView, ParseProblem>(expr) {
        let source = lemma_level_has_source(0, tokens);
        assert(tokens_of(source) + Seq::<Seq<char>>::empty() =~= tokens_of(source));
        assert(tokens =~= tokens_of(source));
        assert(is_written_well(source, 0));
    }
    if exists|source: Source|
        #[trigger] is_written_well(source, 0) && tokens_of(source) == tokens && expr_of(source)
            == expr {
        let source = choose|source: Source|
            #[trigger] is_written_well(source, 0) && tokens_of(source) == tokens && expr_of(source)
                == expr;
        law_written_source_is_read(source);
    }
}

/// What is written well is read as it is meant.
pub proof fn law_written_source_is_read(source: Source)
    requires
        is_written_well(source, 0),
    ensures
        read_all(tokens_of(source)) == Ok::<ExprView, ParseProblem>(expr_of(source)),
{
    let none = Seq::<Seq<char>>::empty();
    lemma_source_is_read(source, 0, none);
    assert(tokens_of(source) + none =~= tokens_of(source));
}

/// Three operands with two operators of one kind between them, comparisons apart, are grouped to
/// the left, whatever the operands are.
pub proof fn law_operators_in_a_row_group_to_the_left(
    x: Source,
    p: BinOp,
    y: Source,
    q: BinOp,
    z: Source,
)
    requires
        tightness(p) == tightness(q),
        tightness(p) != 2,
        is_written_well(x, tightness(p)),
        is_written_well(y, tightness(p) + 1),
        is_written_well(z, tightness(p) + 1),
    ensures
        read_all(
            tokens_of(x) + seq![joint(p)] + tokens_of(y) + seq![joint(q)] + tokens_of(z),
        ) == Ok::<ExprView, ParseProblem>(
            ExprView::Binary(
                Box::new(
                    ExprView::Binary(Box::new(expr_of(x)), p, Box::new(expr_of(y))),
                ),
                q,
                Box::new(expr_of(z)),
            ),
        ),
{
    let both = Source::Joined(Box::new(x), p, Box::new(y));
    let source = Source::Joined(Box::new(both), q, Box::new(z));
    reveal_with_fuel(is_written_well, 3);
    reveal_with_fuel(tokens_of, 3);
    reveal_with_fuel(expr_of, 3);
    law_written_source_is_read(source);
    assert(tokens_of(source) =~= tokens_of(x) + seq![joint(p)] + tokens_of(y) + seq![joint(q)]
        + tokens_of(z));
}

/// Of two operators the one that binds more tightly gets the operand between them.
pub proof fn law_tighter_operator_comes_first(
    x: Source,
    p: BinOp,
    y: Source,
    q: BinOp,
    z: Source,
)
    requires
        tightness(p) < tightness(q),
        is_written_well(x, 5),
        is_written_well(y, 5),
        is_written_well(z, 5),
    ensures
        read_all(
            tokens_of(x) + seq![joint(p)] + tokens_of(y) + seq![joint(q)] + tokens_of(z),
        ) == Ok::<ExprView, ParseProblem>(
            ExprView::Binary(
                Box::new(expr_of(x)),
                p,
                Box::new(
                    ExprView::Binary(Box::new(expr_of(y)), q, Box::new(expr_of(z))),
                ),
            ),
        ),
        read_all(
            tokens_of(x) + seq![joint(q)] + tokens_of(y) + seq![joint(p)] + tokens_of(z),
        ) == Ok::<ExprView, ParseProblem>(
            ExprView::Binary(
                Box::new(
                    ExprView::Binary(Box::new(expr_of(x)), q, Box::new(expr_of(y))),
                ),
                p,
                Box::new(expr_of(z)),
            ),
        ),
{
    lemma_looser(x, tightness(p), 5);
    lemma_looser(x, tightness(q), 5);
    lemma_looser(x, 3, 5);
    lemma_looser(y, tightness(q), 5);
    lemma_looser(y, 3, 5);
    lemma_looser(y, tightness(q) + 1, 5);
    lemma_looser(z, tightness(q) + 1, 5);
    lemma_looser(z, tightness(p) + 1, 5);
    reveal_with_fuel(is_written_well, 3);
    reveal_with_fuel(tokens_of, 3);
    reveal_with_fuel(expr_of, 3);
    let late = Source::Joined(Box::new(y), q, Box::new(z));
    let first = Source::Joined(Box::new(x), p, Box::new(late));
    law_written_source_is_read(first);
    assert(tokens_of(first) =~= tokens_of(x) + seq![joint(p)] + tokens_of(y) + seq![joint(q)]
        + tokens_of(z));
    let early = Source::Joined(Box::new(x), q, Box::new(y));
    let second = Source::Joined(Box::new(early), p, Box::new(z));
    law_written_source_is_read(second);
    assert(tokens_of(second) =~= tokens_of(x) + seq![joint(q)] + tokens_of(y) + seq![joint(p)]
        + tokens_of(z));
}

/// A comparison of a comparison needs parentheses: the second sign is refused.
pub proof fn law_comparisons_do_not_chain(
    x: Source,
    p: BinOp,
    y: Source,
    q: BinOp,
    more: Seq<Seq<char>>,
)
    requires
        tightness(p) == 2,
        tightness(q) == 2,
        is_written_well(x, 3),
        is_written_well(y, 3),
    ensures
        read_all(
            tokens_of(x) + seq![joint(p)] + tokens_of(y) + seq![joint(q)] + more,
        ) == Err::<ExprView, ParseProblem>(ParseProblem::UnexpectedToken(joint(q))),
{
    let source = Source::Joined(Box::new(x), p, Box::new(y));
    let rest = seq![joint(q)] + more;
    let tokens = tokens_of(source) + rest;
    lemma_joints(q, 0);
    lemma_joints(q, 1);
    assert(ends_at(3, rest)) by {
        assert forall|k: int| 3 <= k < 5 implies (#[trigger] operator(k, rest[0])) is None by {
            lemma_joints(q, k);
        }
    }
    lemma_comparison_is_read(source, rest);
    lemma_some_tokens(source);
    let expr = expr_of(source);
    assert(read_more(1, rest, expr) == reading(expr, rest));
    assert(read_level(1, tokens) == reading(expr, rest));
    assert(read_more(0, rest, expr) == reading(expr, rest));
    assert(read_level(0, tokens) == reading(expr, rest));
    assert(tokens =~= tokens_of(x) + seq![joint(p)] + tokens_of(y) + seq![joint(q)] + more);
}

/// Behind a whole expression, what is no operator is refused.
pub proof fn law_stray_token_is_refused(source: Source, token: Seq<char>, more: Seq<Seq<char>>)
    requires
        is_written_well(source, 0),
        forall|op: BinOp| #[trigger] joint(op) != token,
    ensures
        read_all(tokens_of(source) + seq![token] + more) == Err::<ExprView, ParseProblem>(
            ParseProblem::UnexpectedToken(token),
        ),
{
    let rest = seq![token] + more;
    assert(ends_at(0, rest)) by {
        assert forall|k: int| 0 <= k < 5 implies (#[trigger] operator(k, rest[0])) is None by {
            if operator(k, token) is Some {
                lemma_operator_is_joint(k, token);
            }
        }
    }
    lemma_source_is_read(source, 0, rest);
    assert(tokens_of(source) + seq![token] + more =~= tokens_of(source) + rest);
}

/// Nothing, an operator in front of nothing, and a parenthesis that is not closed end too early.
pub proof fn law_what_is_missing_is_told(source: Source, op: UnaryOp)
    requires
        is_written_well(source, 0),
    ensures
        read_all(seq![]) == Err::<ExprView, ParseProblem>(ParseProblem::UnexpectedEnd),
        read_all(seq![front(op)]) == Err::<ExprView, ParseProblem>(ParseProblem::UnexpectedEnd),
        read_all(seq!["("@] + tokens_of(source)) == Err::<ExprView, ParseProblem>(
            ParseProblem::UnexpectedEnd,
        ),
{
    let none = Seq::<Seq<char>>::empty();
    lemma_apart();
    lemma_joints(BinOp::Add, 0);
    lemma_error_stays(none, ParseProblem::UnexpectedEnd);
    let sign = seq![front(op)];
    assert(sign.skip(1) =~= none);
    lemma_error_stays(sign, ParseProblem::UnexpectedEnd);
    let open = seq!["("@] + tokens_of(source);
    assert(open.skip(1) =~= tokens_of(source) + none);
    lemma_source_is_read(source, 0, none);
    assert(read_atom(open) is Err);
    lemma_error_stays(open, ParseProblem::UnexpectedEnd);
}

/// What goes wrong with the first operand goes wrong with the whole.
proof fn lemma_error_stays(tokens: Seq<Seq<char>>, problem: ParseProblem)
    requires
        read_unary(tokens) == Err::<(ExprView, Seq<Seq<char>>), ParseProblem>(problem),
    ensures
        read_all(tokens) == Err::<ExprView, ParseProblem>(problem),
{
    lemma_joints(BinOp::Add, 0);
    let failed = Err::<(ExprView, Seq<Seq<char>>), ParseProblem>(problem);
    assert(read_level(5, tokens) == failed);
    assert(read_level(4, tokens) == failed);
    assert(read_level(3, tokens) == failed);
    assert(read_level(2, tokens) == failed);
    assert(read_level(1, tokens) == failed);
    assert(read_level(0, tokens) == failed);
}

/// An operator behind an operand asks for another one.
pub proof fn law_missing_operand_is_told(source: Source, op: BinOp)
    requires
        is_written_well(source, 5),
    ensures
        read_all(tokens_of(source) + seq![joint(op)]) == Err::<ExprView, ParseProblem>(
            ParseProblem::UnexpectedEnd,
        ),
{
    lemma_joints(BinOp::Add, 0);
    let none = Seq::<Seq<char>>::empty();
    let rest = seq![joint(op)];
    let tokens = tokens_of(source) + rest;
    let level = tightness(op);
    let failed = Err::<(ExprView, Seq<Seq<char>>), ParseProblem>(ParseProblem::UnexpectedEnd);
    lemma_looser(source, level + 1, 5);
    assert(ends_at(level + 1, rest)) by {
        assert forall|k: int| level + 1 <= k < 5 implies (#[trigger] operator(k, rest[0]))
            is None by {
            lemma_joints(op, k);
        }
    }
    lemma_joints(op, level);
    lemma_source_is_read(source, level + 1, rest);
    lemma_some_tokens(source);
    assert(rest.skip(1) =~= none);
    lemma_nothing_fails(level + 1);
    assert(read_level(level, tokens) == read_more(level, rest, expr_of(source)));
    assert(read_level(level, tokens) == failed);
    lemma_failure_goes_up(level, tokens, ParseProblem::UnexpectedEnd);
}

/// Nothing is read as no expression of any level.
proof fn lemma_nothing_fails(level: int)
    requires
        0 <= level <= 5,
    ensures
        read_level(level, Seq::<Seq<char>>::empty()) == Err::<
            (ExprView, Seq<Seq<char>>),
            ParseProblem,
        >(ParseProblem::UnexpectedEnd),
    decreases 5 - level,
{
    lemma_joints(BinOp::Add, 0);
    let none = Seq::<Seq<char>>::empty();
    if level < 5 {
        lemma_nothing_fails(level + 1);
    } else {
        assert(read_unary(none) == read_atom(none));
    }
}

/// What goes wrong on a level goes wrong on all before it.
proof fn lemma_failure_goes_up(level: int, tokens: Seq<Seq<char>>, problem: ParseProblem)
    requires
        0 <= level <= 5,
        read_level(level, tokens) == Err::<(ExprView, Seq<Seq<char>>), ParseProblem>(problem),
    ensures
        read_all(tokens) == Err::<ExprView, ParseProblem>(problem),
    decreases level,
{
    lemma_joints(BinOp::Add, 0);
    if level > 0 {
        assert(read_level(level - 1, tokens) == Err::<(ExprView, Seq<Seq<char>>), ParseProblem>(
            problem,
        ));
        lemma_failure_goes_up(level - 1, tokens, problem);
    }
}

/// Whether no operand starts with a token: it is neither a number nor a name, and no sign that can
/// stand there.
pub open spec fn starts_nothing(token: Seq<char>) -> bool {
    &&& token != "("@
    &&& token != "-"@
    &&& token != "not"@
    &&& !is_number(token)
    &&& !is_name(token)
}

/// What goes wrong where an operand should be goes wrong on every level.
proof fn lemma_wrong_operand(level: int, tokens: Seq<Seq<char>>, problem: ParseProblem)
    requires
        0 <= level <= 5,
        read_unary(tokens) == Err::<(ExprView, Seq<Seq<char>>), ParseProblem>(problem),
    ensures
        read_level(level, tokens) == Err::<(ExprView, Seq<Seq<char>>), ParseProblem>(problem),
    decreases 5 - level,
{
    lemma_joints(BinOp::Add, 0);
    if level < 5 {
        lemma_wrong_operand(level + 1, tokens, problem);
    }
}

/// A token that no operand starts with is refused where an operand should be: at the start, behind
/// an operator in front, in parentheses, and behind an operator between. Behind an operator in
/// front another one is refused, too.
pub proof fn law_wrong_token_is_named(
    token: Seq<char>,
    more: Seq<Seq<char>>,
    prefix: UnaryOp,
    second: UnaryOp,
)
    requires
        starts_nothing(token),
    ensures
        read_all(seq![token] + more) == Err::<ExprView, ParseProblem>(
            ParseProblem::UnexpectedToken(token),
        ),
        read_all(seq![front(prefix), token] + more) == Err::<ExprView, ParseProblem>(
            ParseProblem::UnexpectedToken(token),
        ),
        read_all(seq![front(prefix), front(second)] + more) == Err::<ExprView, ParseProblem>(
            ParseProblem::UnexpectedToken(front(second)),
        ),
        read_all(seq!["("@, token] + more) == Err::<ExprView, ParseProblem>(
            ParseProblem::UnexpectedToken(token),
        ),
{
    lemma_apart();
    let bare = seq![token] + more;
    let wrong = ParseProblem::UnexpectedToken(token);
    assert(bare[0] == token);
    assert(read_atom(bare) == Err::<(ExprView, Seq<Seq<char>>), ParseProblem>(wrong));
    lemma_error_stays(bare, wrong);
    let signed = seq![front(prefix), token] + more;
    assert(signed[0] == front(prefix));
    assert(signed.skip(1) =~= bare);
    lemma_error_stays(signed, wrong);
    let twice = seq![front(prefix), front(second)] + more;
    let behind = seq![front(second)] + more;
    assert(twice[0] == front(prefix));
    assert(twice.skip(1) =~= behind);
    assert(behind[0] == front(second));
    lemma_sign_is_no_number(second);
    assert(read_atom(behind) == Err::<(ExprView, Seq<Seq<char>>), ParseProblem>(
        ParseProblem::UnexpectedToken(front(second)),
    ));
    lemma_error_stays(twice, ParseProblem::UnexpectedToken(front(second)));
    let grouped = seq!["("@, token] + more;
    assert(grouped[0] == "("@);
    assert(grouped.skip(1) =~= bare);
    lemma_wrong_operand(0, bare, wrong);
    assert(read_atom(grouped) == Err::<(ExprView, Seq<Seq<char>>), ParseProblem>(wrong));
    lemma_error_stays(grouped, wrong);
}

/// A sign in front of an operand is no number and no parenthesis.
proof fn lemma_sign_is_no_number(op: UnaryOp)
    ensures
        !is_number(front(op)),
        front(op) != "("@,
        prefix_operator(front(op)) is Some,
{
    lemma_apart();
    if is_number(front(op)) {
        lemma_number_is_no_sign(front(op));
    }
}

/// What goes wrong behind an operator goes wrong with the whole, whatever stands in front of it.
pub proof fn law_error_behind_an_operator_stays(
    source: Source,
    op: BinOp,
    rest: Seq<Seq<char>>,
    problem: ParseProblem,
)
    requires
        is_written_well(
            source,
            if tightness(op) == 2 {
                3
            } else {
                tightness(op)
            },
        ),
        read_unary(rest) == Err::<(ExprView, Seq<Seq<char>>), ParseProblem>(problem),
    ensures
        read_all(tokens_of(source) + seq![joint(op)] + rest) == Err::<ExprView, ParseProblem>(
            problem,
        ),
{
    lemma_joints(BinOp::Add, 0);
    let level = tightness(op);
    let behind = seq![joint(op)] + rest;
    let tokens = tokens_of(source) + behind;
    assert(ends_at(level + 1, behind)) by {
        assert forall|k: int| level + 1 <= k < 5 implies (#[trigger] operator(k, behind[0]))
            is None by {
            lemma_joints(op, k);
        }
    }
    lemma_joints(op, level);
    lemma_looser(
        source,
        level,
        if level == 2 {
            3
        } else {
            level
        },
    );
    lemma_source_goes_on(source, level, behind);
    assert(behind.skip(1) =~= rest);
    lemma_wrong_operand(level + 1, rest, problem);
    assert(read_level(level, tokens) == Err::<(ExprView, Seq<Seq<char>>), ParseProblem>(problem));
    lemma_failure_goes_up(level, tokens, problem);
    assert(tokens =~= tokens_of(source) + seq![joint(op)] + rest);
}

/// Where a parenthesis should close, what is neither that nor an operator is refused.
pub proof fn law_parenthesis_must_close(source: Source, token: Seq<char>, more: Seq<Seq<char>>)
    requires
        is_written_well(source, 0),
        token != ")"@,
        forall|op: BinOp| #[trigger] joint(op) != token,
    ensures
        read_all(seq!["("@] + tokens_of(source) + seq![token] + more) == Err::<
            ExprView,
            ParseProblem,
        >(ParseProblem::UnexpectedToken(token)),
{
    lemma_apart();
    let rest = seq![token] + more;
    let tokens = seq!["("@] + tokens_of(source) + seq![token] + more;
    assert(ends_at(0, rest)) by {
        assert forall|k: int| 0 <= k < 5 implies (#[trigger] operator(k, rest[0])) is None by {
            if operator(k, token) is Some {
                lemma_operator_is_joint(k, token);
            }
        }
    }
    lemma_source_is_read(source, 0, rest);
    assert(tokens[0] == "("@);
    assert(tokens.skip(1) =~= tokens_of(source) + rest);
    assert(rest[0] == token);
    assert(read_atom(tokens) == Err::<(ExprView, Seq<Seq<char>>), ParseProblem>(
        ParseProblem::UnexpectedToken(token),
    ));
    lemma_error_stays(tokens, ParseProblem::UnexpectedToken(token));
}

} // verus!
