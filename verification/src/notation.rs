//! What is written as an expression is read as the same expression.

use crate::expr::{
    expr_text, fraction_part, is_name, is_number, is_numeral, is_read_as, is_rest, is_shown_as,
    lemma_level_consumes, operator, parsed_expr, prefix_operator, read_atom, read_level, read_more,
    read_unary, reads, whole_part, writes, BinOp, ExprView, ParseProblem, UnaryOp, UNARY_LEVEL,
};
use crate::text::{first_index, is_digit, lemma_first_from};
use crate::token::{
    in_name, in_number, is_ascii_char, is_ascii_text, is_space, lemma_number_end, lowercase,
    name_end, number_end, small, starts_name, token_end, token_of, tokenized,
};
use vstd::prelude::*;

verus! {

/// Whether a name is read as itself: it is made of name characters and is in lower case.
pub open spec fn is_stable_name(name: Seq<char>) -> bool {
    &&& is_name(name)
    &&& forall|i: int| 0 < i < name.len() ==> in_name(#[trigger] name[i])
    &&& lowercase(name) == name
}

/// Whether all column names of an expression are read as themselves.
///
/// Every name in ASCII is. Beyond ASCII the lower-case form of a letter need not be made of name
/// characters.
pub open spec fn has_stable_names(expr: ExprView) -> bool
    decreases expr,
{
    match expr {
        ExprView::Literal(_) => true,
        ExprView::Column(name) => is_stable_name(name),
        ExprView::Binary(l, _, r) => has_stable_names(*l) && has_stable_names(*r),
        ExprView::Unary(_, inner) => has_stable_names(*inner),
    }
}

/// The token that a literal is read as: a word counts in lower case.
pub open spec fn literal_token(text: Seq<char>) -> Seq<char> {
    if text == "NaN"@ {
        "nan"@
    } else {
        text
    }
}

/// An expression with its literals as they are read.
pub open spec fn as_read(expr: ExprView) -> ExprView
    decreases expr,
{
    match expr {
        ExprView::Literal(text) => ExprView::Literal(literal_token(text)),
        ExprView::Column(name) => ExprView::Column(name),
        ExprView::Binary(l, op, r) => ExprView::Binary(
            Box::new(as_read(*l)),
            op,
            Box::new(as_read(*r)),
        ),
        ExprView::Unary(op, inner) => ExprView::Unary(op, Box::new(as_read(*inner))),
    }
}

/// Whether an expression has the form that the grammar gives it. The word `not` is no column.
pub open spec fn is_readable(expr: ExprView) -> bool
    decreases expr,
{
    match expr {
        ExprView::Literal(text) => is_number(text),
        ExprView::Column(name) => is_stable_name(name) && !is_number(name) && name != "not"@,
        ExprView::Binary(l, _, r) => is_readable(*l) && is_readable(*r),
        ExprView::Unary(_, inner) => is_readable(*inner),
    }
}

/// The token of a prefix operator.
pub open spec fn prefix_token(op: UnaryOp) -> Seq<char> {
    match op {
        UnaryOp::Neg => "-"@,
        UnaryOp::Not => "not"@,
    }
}

/// The tokens of an expression as it is written.
pub open spec fn written_tokens(expr: ExprView) -> Seq<Seq<char>>
    decreases expr,
{
    match expr {
        ExprView::Literal(text) => seq![text],
        ExprView::Column(name) => seq![name],
        ExprView::Binary(l, op, r) => seq!["("@] + written_tokens(*l) + seq![op.sign()]
            + written_tokens(*r) + seq![")"@],
        ExprView::Unary(op, inner) => seq!["("@, prefix_token(op)] + written_tokens(*inner)
            + seq![")"@],
    }
}

/// The level of an operator.
pub open spec fn level_of(op: BinOp) -> int {
    match op {
        BinOp::Or => 0,
        BinOp::And => 1,
        BinOp::Eq | BinOp::Neq | BinOp::Lt | BinOp::Le | BinOp::Gt | BinOp::Ge => 2,
        BinOp::Add | BinOp::Sub => 3,
        BinOp::Mul | BinOp::Div => 4,
    }
}

/// Whether a text cannot go on a name or a number: it is empty, or a space or a closing
/// parenthesis comes first.
pub open spec fn is_boundary(rest: Seq<char>) -> bool {
    rest.len() == 0 || rest[0] == ' ' || rest[0] == ')'
}

/// The characters of the words and signs of the language.
pub proof fn lemma_words()
    ensures
        "+"@ == seq!['+'],
        "-"@ == seq!['-'],
        "*"@ == seq!['*'],
        "/"@ == seq!['/'],
        "=="@ == seq!['=', '='],
        "!="@ == seq!['!', '='],
        "<"@ == seq!['<'],
        "<="@ == seq!['<', '='],
        ">"@ == seq!['>'],
        ">="@ == seq!['>', '='],
        "("@ == seq!['('],
        ")"@ == seq![')'],
        "and"@ == seq!['a', 'n', 'd'],
        "or"@ == seq!['o', 'r'],
        "not"@ == seq!['n', 'o', 't'],
        "not "@ == seq!['n', 'o', 't', ' '],
        "inf"@ == seq!['i', 'n', 'f'],
        "infinity"@ == seq!['i', 'n', 'f', 'i', 'n', 'i', 't', 'y'],
        "nan"@ == seq!['n', 'a', 'n'],
        "NaN"@ == seq!['N', 'a', 'N'],
{
    reveal_strlit("+");
    reveal_strlit("-");
    reveal_strlit("*");
    reveal_strlit("/");
    reveal_strlit("==");
    reveal_strlit("!=");
    reveal_strlit("<");
    reveal_strlit("<=");
    reveal_strlit(">");
    reveal_strlit(">=");
    reveal_strlit("(");
    reveal_strlit(")");
    reveal_strlit("and");
    reveal_strlit("or");
    reveal_strlit("not");
    reveal_strlit("not ");
    reveal_strlit("inf");
    reveal_strlit("infinity");
    reveal_strlit("nan");
    reveal_strlit("NaN");
    assert("+"@ =~= seq!['+']);
    assert("-"@ =~= seq!['-']);
    assert("*"@ =~= seq!['*']);
    assert("/"@ =~= seq!['/']);
    assert("=="@ =~= seq!['=', '=']);
    assert("!="@ =~= seq!['!', '=']);
    assert("<"@ =~= seq!['<']);
    assert("<="@ =~= seq!['<', '=']);
    assert(">"@ =~= seq!['>']);
    assert(">="@ =~= seq!['>', '=']);
    assert("("@ =~= seq!['(']);
    assert(")"@ =~= seq![')']);
    assert("and"@ =~= seq!['a', 'n', 'd']);
    assert("or"@ =~= seq!['o', 'r']);
    assert("not"@ =~= seq!['n', 'o', 't']);
    assert("not "@ =~= seq!['n', 'o', 't', ' ']);
    assert("inf"@ =~= seq!['i', 'n', 'f']);
    assert("infinity"@ =~= seq!['i', 'n', 'f', 'i', 'n', 'i', 't', 'y']);
    assert("nan"@ =~= seq!['n', 'a', 'n']);
    assert("NaN"@ =~= seq!['N', 'a', 'N']);
}

/// What tells the words and signs of the language apart.
pub proof fn lemma_apart()
    ensures
        "+"@.len() == 1 && "+"@[0] == '+',
        "-"@.len() == 1 && "-"@[0] == '-',
        "*"@.len() == 1 && "*"@[0] == '*',
        "/"@.len() == 1 && "/"@[0] == '/',
        "=="@.len() == 2 && "=="@[0] == '=',
        "!="@.len() == 2 && "!="@[0] == '!',
        "<"@.len() == 1 && "<"@[0] == '<',
        "<="@.len() == 2 && "<="@[0] == '<',
        ">"@.len() == 1 && ">"@[0] == '>',
        ">="@.len() == 2 && ">="@[0] == '>',
        "("@.len() == 1 && "("@[0] == '(',
        ")"@.len() == 1 && ")"@[0] == ')',
        "and"@.len() == 3 && "and"@[0] == 'a',
        "or"@.len() == 2 && "or"@[0] == 'o',
        "not"@.len() == 3 && "not"@[0] == 'n' && "not"@[1] == 'o',
        "inf"@.len() == 3 && "inf"@[0] == 'i',
        "infinity"@.len() == 8 && "infinity"@[0] == 'i',
        "nan"@.len() == 3 && "nan"@[0] == 'n' && "nan"@[1] == 'a',
        "NaN"@.len() == 3 && "NaN"@[0] == 'N',
{
    lemma_words();
}

/// Each sign is an operator on its own level and on no other, and a closing parenthesis on none.
proof fn lemma_operators(op: BinOp, level: int)
    requires
        0 <= level < UNARY_LEVEL,
    ensures
        operator(level, op.sign()) == if level == level_of(op) {
            Some(op)
        } else {
            None
        },
        operator(level, ")"@) is None,
        0 <= level_of(op) < UNARY_LEVEL,
{
    lemma_apart();
}

/// A name that ends where it can ends as a token.
proof fn lemma_name_ends(text: Seq<char>, i: int, k: int)
    requires
        0 <= i <= k <= text.len(),
        forall|j: int| i <= j < k ==> in_name(#[trigger] text[j]),
        k == text.len() || !in_name(text[k]),
    ensures
        name_end(text, i) == k,
    decreases k - i,
{
    if i < k {
        lemma_name_ends(text, i + 1, k);
    }
}

/// A number that ends where it can ends as a token.
proof fn lemma_number_ends(text: Seq<char>, i: int, k: int)
    requires
        0 <= i <= k <= text.len(),
        forall|j: int| i <= j < k ==> in_number(#[trigger] text[j]),
        k == text.len() || !in_number(text[k]),
    ensures
        number_end(text, i) == k,
    decreases k - i,
{
    if i < k {
        lemma_number_ends(text, i + 1, k);
    }
}

/// A word before a boundary is one token, in lower case.
proof fn lemma_word_token(word: Seq<char>, rest: Seq<char>)
    requires
        is_name(word),
        forall|i: int| 0 < i < word.len() ==> in_name(#[trigger] word[i]),
        is_boundary(rest),
    ensures
        tokenized(word + rest) == seq![lowercase(word)] + tokenized(rest),
{
    reveal(tokenized);
    let text = word + rest;
    let k = word.len() as int;
    assert(text[0] == word[0]);
    assert forall|j: int| 1 <= j < k implies in_name(#[trigger] text[j]) by {
        assert(text[j] == word[j]);
    }
    if rest.len() > 0 {
        assert(text[k] == rest[0]);
    }
    lemma_name_ends(text, 1, k);
    assert(text.take(k) =~= word);
    assert(text.skip(k) =~= rest);
}

/// A numeral before a boundary is one token.
proof fn lemma_numeral_token(numeral: Seq<char>, rest: Seq<char>)
    requires
        numeral.len() > 0,
        forall|i: int| 0 <= i < numeral.len() ==> in_number(#[trigger] numeral[i]),
        is_boundary(rest),
    ensures
        tokenized(numeral + rest) == seq![numeral] + tokenized(rest),
        token_of(numeral) == numeral,
{
    reveal(tokenized);
    let text = numeral + rest;
    let k = numeral.len() as int;
    assert(text[0] == numeral[0]);
    assert forall|j: int| 1 <= j < k implies in_number(#[trigger] text[j]) by {
        assert(text[j] == numeral[j]);
    }
    if rest.len() > 0 {
        assert(text[k] == rest[0]);
    }
    lemma_number_ends(text, 1, k);
    assert(text.take(k) =~= numeral);
    assert(text.skip(k) =~= rest);
}

/// A space between tokens is passed over.
proof fn lemma_space(rest: Seq<char>)
    ensures
        tokenized(seq![' '] + rest) == tokenized(rest),
{
    reveal(tokenized);
    assert((seq![' '] + rest).skip(1) =~= rest);
}

/// A character that is a token of its own is one, whatever follows.
proof fn lemma_single_token(c: char, rest: Seq<char>)
    requires
        c == '(' || c == ')' || c == '+' || c == '-' || c == '*' || c == '/',
    ensures
        tokenized(seq![c] + rest) == seq![seq![c]] + tokenized(rest),
{
    reveal(tokenized);
    let text = seq![c] + rest;
    assert(text.take(1) =~= seq![c]);
    assert(text.skip(1) =~= rest);
}

/// The sign of an operator before a space is one token.
proof fn lemma_sign_token(op: BinOp, rest: Seq<char>)
    requires
        rest.len() > 0,
        rest[0] == ' ',
    ensures
        tokenized(op.sign() + rest) == seq![op.sign()] + tokenized(rest),
{
    reveal(tokenized);
    let sign = op.sign();
    let text = sign + rest;
    lemma_words();
    match op {
        BinOp::And | BinOp::Or => {
            lemma_word_token(sign, rest);
            assert(lowercase(sign) =~= sign);
        },
        BinOp::Add | BinOp::Sub | BinOp::Mul | BinOp::Div => {
            lemma_single_token(sign[0], rest);
            assert(sign =~= seq![sign[0]]);
        },
        _ => {
            assert(text[0] == sign[0]);
            if sign.len() == 2 {
                assert(text[1] == sign[1]);
            } else {
                assert(text[1] == rest[0]);
            }
            assert(text.take(sign.len() as int) =~= sign);
            assert(text.skip(sign.len() as int) =~= rest);
        },
    }
}

/// A prefix operator as it is written is one token.
proof fn lemma_prefix_token(op: UnaryOp, rest: Seq<char>)
    ensures
        tokenized(op.prefix() + rest) == seq![prefix_token(op)] + tokenized(rest),
        prefix_operator(prefix_token(op)) == Some(op),
{
    lemma_words();
    match op {
        UnaryOp::Neg => {
            lemma_single_token('-', rest);
        },
        UnaryOp::Not => {
            let word = "not"@;
            let spaced = seq![' '] + rest;
            lemma_word_token(word, spaced);
            assert(lowercase(word) =~= word);
            lemma_space(rest);
            assert(op.prefix() + rest =~= word + spaced);
            lemma_apart();
        },
    }
}

/// A number is no prefix operator and no parenthesis, and it is not spelt with capitals.
pub proof fn lemma_number_token(text: Seq<char>)
    requires
        is_number(text),
    ensures
        prefix_operator(text) is None,
        text != "("@,
        literal_token(text) == text,
{
    lemma_apart();
    if is_numeral(text) {
        lemma_numeral_chars(text);
        assert(in_number(text[0]));
    }
}

/// A literal before a boundary is one token.
proof fn lemma_literal_token(text: Seq<char>, rest: Seq<char>)
    requires
        is_number(literal_token(text)),
        is_boundary(rest),
    ensures
        tokenized(text + rest) == seq![literal_token(text)] + tokenized(rest),
{
    lemma_words();
    lemma_apart();
    if is_numeral(text) {
        lemma_numeral_chars(text);
        lemma_numeral_token(text, rest);
        assert(in_number(text[0]));
    } else {
        lemma_no_numeral("nan"@);
        assert(is_ascii_text(text));
        lemma_word_token(text, rest);
        assert(lowercase(text) =~= literal_token(text));
    }
}

/// The characters of a numeral are digits and a point.
proof fn lemma_numeral_chars(text: Seq<char>)
    requires
        is_numeral(text),
    ensures
        text.len() > 0,
        forall|i: int| 0 <= i < text.len() ==> in_number(#[trigger] text[i]),
{
    lemma_first_from(text, '.', 0);
    assert forall|i: int| 0 <= i < text.len() implies in_number(#[trigger] text[i]) by {
        match first_index(text, '.') {
            None => {
                assert(is_digit(whole_part(text)[i]));
            },
            Some(k) => {
                if i < k {
                    assert(is_digit(whole_part(text)[i]));
                } else if i > k {
                    assert(is_digit(fraction_part(text)[i - k - 1]));
                }
            },
        }
    }
}

/// A word that starts with a letter is no numeral.
proof fn lemma_no_numeral(token: Seq<char>)
    requires
        token.len() > 0,
        !in_number(token[0]),
    ensures
        !is_numeral(token),
{
    lemma_first_from(token, '.', 0);
    if first_index(token, '.') is Some {
        assert(first_index(token, '.')->0 > 0);
        assert(whole_part(token)[0] == token[0]);
    } else {
        assert(whole_part(token)[0] == token[0]);
    }
}

/// The tokens of two operands, of the operator between them and of the parentheses around them.
proof fn lemma_binary_tokens(
    left: Seq<char>,
    op: BinOp,
    right: Seq<char>,
    left_tokens: Seq<Seq<char>>,
    right_tokens: Seq<Seq<char>>,
    rest: Seq<char>,
)
    requires
        ({
            let close = seq![')'] + rest;
            let behind = seq![' '] + (op.sign() + (seq![' '] + (right + close)));
            &&& tokenized(left + behind) == left_tokens + tokenized(behind)
            &&& tokenized(right + close) == right_tokens + tokenized(close)
        }),
    ensures
        tokenized(
            seq!['('] + left + seq![' '] + op.sign() + seq![' '] + right + seq![')'] + rest,
        ) == seq!["("@] + left_tokens + seq![op.sign()] + right_tokens + seq![")"@] + tokenized(
            rest,
        ),
{
    lemma_words();
    let close = seq![')'] + rest;
    let middle = op.sign() + (seq![' '] + (right + close));
    let behind = seq![' '] + middle;
    let text = seq!['('] + left + seq![' '] + op.sign() + seq![' '] + right + seq![')'] + rest;
    assert(text =~= seq!['('] + (left + behind));
    lemma_single_token('(', left + behind);
    lemma_space(middle);
    lemma_sign_token(op, seq![' '] + (right + close));
    lemma_space(right + close);
    lemma_single_token(')', rest);
    assert(tokenized(text) =~= seq!["("@] + left_tokens + seq![op.sign()] + right_tokens
        + seq![")"@] + tokenized(rest));
}

/// The tokens of an operand, of the operator before it and of the parentheses around them.
proof fn lemma_unary_tokens(
    op: UnaryOp,
    operand: Seq<char>,
    operand_tokens: Seq<Seq<char>>,
    rest: Seq<char>,
)
    requires
        tokenized(operand + (seq![')'] + rest)) == operand_tokens + tokenized(seq![')'] + rest),
    ensures
        tokenized(seq!['('] + op.prefix() + operand + seq![')'] + rest) == seq![
            "("@,
            prefix_token(op),
        ] + operand_tokens + seq![")"@] + tokenized(rest),
{
    lemma_words();
    let behind = operand + (seq![')'] + rest);
    let text = seq!['('] + op.prefix() + operand + seq![')'] + rest;
    assert(text =~= seq!['('] + (op.prefix() + behind));
    lemma_single_token('(', op.prefix() + behind);
    lemma_prefix_token(op, behind);
    lemma_single_token(')', rest);
    assert(tokenized(text) =~= seq!["("@, prefix_token(op)] + operand_tokens + seq![")"@]
        + tokenized(rest));
}

/// An expression before a boundary is written in its tokens.
proof fn lemma_written_tokens(expr: ExprView, rest: Seq<char>)
    requires
        is_readable(as_read(expr)),
        is_boundary(rest),
    ensures
        tokenized(expr_text(expr) + rest) == written_tokens(as_read(expr)) + tokenized(rest),
    decreases expr,
{
    match expr {
        ExprView::Literal(text) => {
            lemma_literal_token(text, rest);
        },
        ExprView::Column(name) => {
            lemma_word_token(name, rest);
        },
        ExprView::Binary(l, op, r) => {
            let close = seq![')'] + rest;
            let behind = seq![' '] + (op.sign() + (seq![' '] + (expr_text(*r) + close)));
            lemma_written_tokens(*l, behind);
            lemma_written_tokens(*r, close);
            lemma_binary_tokens(
                expr_text(*l),
                op,
                expr_text(*r),
                written_tokens(as_read(*l)),
                written_tokens(as_read(*r)),
                rest,
            );
        },
        ExprView::Unary(op, inner) => {
            lemma_written_tokens(*inner, seq![')'] + rest);
            lemma_unary_tokens(op, expr_text(*inner), written_tokens(as_read(*inner)), rest);
        },
    }
}

/// Whether no operator of a level from `level` on stands at the start of a list of tokens.
pub open spec fn ends_operand(level: int, rest: Seq<Seq<char>>) -> bool {
    rest.len() == 0 || forall|k: int|
        level <= k < UNARY_LEVEL ==> (#[trigger] operator(k, rest[0])) is None
}

/// Where an operand is read and no operator follows, it is read on every level.
proof fn lemma_read_levels(tokens: Seq<Seq<char>>, level: int, from: int, expr: ExprView, rest: Seq<
    Seq<char>,
>)
    requires
        0 <= level <= from <= UNARY_LEVEL,
        read_level(from, tokens) == Ok::<(ExprView, Seq<Seq<char>>), ParseProblem>((expr, rest)),
        rest.len() < tokens.len(),
        ends_operand(level, rest),
    ensures
        read_level(level, tokens) == Ok::<(ExprView, Seq<Seq<char>>), ParseProblem>((expr, rest)),
    decreases from - level,
{
    if level < from {
        if rest.len() > 0 {
            assert(operator(from - 1, rest[0]) is None);
        }
        assert(read_level(from - 1, tokens) == read_more(from - 1, rest, expr));
        lemma_read_levels(tokens, level, from - 1, expr, rest);
    }
}

/// A closing parenthesis ends an operand.
proof fn lemma_close_ends(rest: Seq<Seq<char>>)
    ensures
        ends_operand(0, seq![")"@] + rest),
{
    assert forall|k: int| 0 <= k < UNARY_LEVEL implies (#[trigger] operator(
        k,
        (seq![")"@] + rest)[0],
    )) is None by {
        lemma_operators(BinOp::Add, k);
    }
}

/// The first token of an expression is no prefix operator.
proof fn lemma_first_written(expr: ExprView)
    requires
        is_readable(expr),
    ensures
        written_tokens(expr).len() > 0,
        prefix_operator(written_tokens(expr)[0]) is None,
{
    lemma_apart();
    match expr {
        ExprView::Literal(text) => {
            lemma_number_token(text);
        },
        ExprView::Column(name) => {
            assert(starts_name(name[0]));
        },
        _ => {},
    }
}

/// What is read as an expression is read as the same in parentheses.
proof fn lemma_read_parentheses(inside: Seq<Seq<char>>, expr: ExprView, rest: Seq<Seq<char>>)
    requires
        read_level(0, inside) == Ok::<(ExprView, Seq<Seq<char>>), ParseProblem>(
            (expr, seq![")"@] + rest),
        ),
    ensures
        read_atom(seq!["("@] + inside) == Ok::<(ExprView, Seq<Seq<char>>), ParseProblem>(
            (expr, rest),
        ),
{
    assert((seq!["("@] + inside).skip(1) =~= inside);
    assert((seq![")"@] + rest).skip(1) =~= rest);
}

/// The tokens of an expression in front of others are read as the expression.
proof fn lemma_read_written(expr: ExprView, rest: Seq<Seq<char>>)
    requires
        is_readable(expr),
    ensures
        read_atom(written_tokens(expr) + rest) == Ok::<
            (ExprView, Seq<Seq<char>>),
            ParseProblem,
        >((expr, rest)),
    decreases expr, 1int,
{
    let tokens = written_tokens(expr) + rest;
    match expr {
        ExprView::Literal(text) => {
            lemma_number_token(text);
            assert(tokens[0] == text);
            assert(tokens.skip(1) =~= rest);
        },
        ExprView::Column(name) => {
            lemma_apart();
            assert(tokens[0] == name);
            assert(starts_name(name[0]));
            assert(tokens.skip(1) =~= rest);
        },
        ExprView::Binary(l, op, r) => {
            let close = seq![")"@] + rest;
            let inside = binary_tokens(*l, op, *r) + close;
            lemma_read_binary(expr, close);
            lemma_close_ends(rest);
            lemma_read_levels(inside, 0, level_of(op), expr, close);
            lemma_read_parentheses(inside, expr, rest);
            assert(tokens =~= seq!["("@] + inside);
        },
        ExprView::Unary(op, inner) => {
            let close = seq![")"@] + rest;
            let inside = seq![prefix_token(op)] + written_tokens(*inner) + close;
            lemma_read_prefixed(expr, close);
            lemma_close_ends(rest);
            lemma_read_levels(inside, 0, UNARY_LEVEL as int, expr, close);
            lemma_read_parentheses(inside, expr, rest);
            assert(tokens =~= seq!["("@] + inside);
        },
    }
}

/// The tokens of an operator with its operands, without parentheses.
spec fn binary_tokens(l: ExprView, op: BinOp, r: ExprView) -> Seq<Seq<char>> {
    written_tokens(l) + seq![op.sign()] + written_tokens(r)
}

/// An operand with an operator in front of it is read.
proof fn lemma_read_prefixed(expr: ExprView, close: Seq<Seq<char>>)
    requires
        expr is Unary,
        is_readable(expr),
    ensures
        expr matches ExprView::Unary(op, inner) && {
            let tokens = seq![prefix_token(op)] + written_tokens(*inner) + close;
            &&& close.len() < tokens.len()
            &&& read_level(UNARY_LEVEL as int, tokens) == Ok::<
                (ExprView, Seq<Seq<char>>),
                ParseProblem,
            >((expr, close))
        },
    decreases expr, 0int,
{
    match expr {
        ExprView::Unary(op, inner) => {
            let tokens = seq![prefix_token(op)] + written_tokens(*inner) + close;
            lemma_read_written(*inner, close);
            lemma_prefix_token(op, seq![]);
            assert(tokens[0] == prefix_token(op));
            assert(tokens.skip(1) =~= written_tokens(*inner) + close);
            assert(read_level(UNARY_LEVEL as int, tokens) == read_unary(tokens));
        },
        _ => {},
    }
}

/// An operand is read on every level that no operator ends.
proof fn lemma_read_operand(expr: ExprView, level: int, rest: Seq<Seq<char>>)
    requires
        is_readable(expr),
        0 <= level <= UNARY_LEVEL,
        ends_operand(level, rest),
    ensures
        read_level(level, written_tokens(expr) + rest) == Ok::<
            (ExprView, Seq<Seq<char>>),
            ParseProblem,
        >((expr, rest)),
    decreases expr, 2int,
{
    let tokens = written_tokens(expr) + rest;
    lemma_read_written(expr, rest);
    lemma_first_written(expr);
    assert(tokens[0] == written_tokens(expr)[0]);
    assert(read_level(UNARY_LEVEL as int, tokens) == read_unary(tokens));
    lemma_read_levels(tokens, level, UNARY_LEVEL as int, expr, rest);
}

/// Where the left operand has been read, the operator and the right operand are read on.
proof fn lemma_read_on(l: ExprView, op: BinOp, r: ExprView, behind: Seq<Seq<char>>, close: Seq<
    Seq<char>,
>)
    requires
        behind.len() > 0,
        behind[0] == op.sign(),
        close.len() < behind.len(),
        close.len() > 0,
        close[0] == ")"@,
        read_level(level_of(op) + 1, behind.skip(1)) == Ok::<
            (ExprView, Seq<Seq<char>>),
            ParseProblem,
        >((r, close)),
    ensures
        read_more(level_of(op), behind, l) == Ok::<(ExprView, Seq<Seq<char>>), ParseProblem>(
            (ExprView::Binary(Box::new(l), op, Box::new(r)), close),
        ),
{
    let level = level_of(op);
    let expr = ExprView::Binary(Box::new(l), op, Box::new(r));
    lemma_operators(op, level);
    assert(operator(level, close[0]) is None);
    assert(read_more(level, close, expr) == Ok::<(ExprView, Seq<Seq<char>>), ParseProblem>(
        (expr, close),
    ));
}

/// Two operands with an operator between them are read on the level of the operator.
proof fn lemma_read_binary(expr: ExprView, close: Seq<Seq<char>>)
    requires
        expr is Binary,
        is_readable(expr),
        close.len() > 0,
        close[0] == ")"@,
    ensures
        expr matches ExprView::Binary(l, op, r) && {
            let tokens = binary_tokens(*l, op, *r) + close;
            &&& close.len() < tokens.len()
            &&& 0 <= level_of(op) <= UNARY_LEVEL
            &&& read_level(level_of(op), tokens) == Ok::<
                (ExprView, Seq<Seq<char>>),
                ParseProblem,
            >((expr, close))
        },
    decreases expr, 0int,
{
    match expr {
        ExprView::Binary(l, op, r) => {
            let level = level_of(op);
            let operand = written_tokens(*r) + close;
            let behind = seq![op.sign()] + operand;
            let tokens = binary_tokens(*l, op, *r) + close;
            assert(tokens =~= written_tokens(*l) + behind);
            assert forall|k: int| level + 1 <= k < UNARY_LEVEL implies (#[trigger] operator(
                k,
                behind[0],
            )) is None by {
                lemma_operators(op, k);
            }
            assert forall|k: int| 0 <= k < UNARY_LEVEL implies (#[trigger] operator(
                k,
                close[0],
            )) is None by {
                lemma_operators(op, k);
            }
            lemma_operators(op, level);
            lemma_read_operand(*l, level + 1, behind);
            lemma_read_operand(*r, level + 1, close);
            lemma_first_written(*l);
            assert(behind.skip(1) =~= operand);
            lemma_read_on(*l, op, *r, behind, close);
        },
        _ => {},
    }
}

/// An expression of the form that the grammar gives is read back from how it is written.
pub proof fn law_readable_expression_round_trip(expr: ExprView)
    requires
        is_readable(as_read(expr)),
    ensures
        parsed_expr(expr_text(expr)) == Ok::<ExprView, ParseProblem>(as_read(expr)),
{
    lemma_written_tokens(expr, seq![]);
    assert(expr_text(expr) + seq![] =~= expr_text(expr));
    reveal(tokenized);
    let none = Seq::<Seq<char>>::empty();
    assert(tokenized(Seq::<char>::empty()) =~= none);
    assert(written_tokens(as_read(expr)) + none =~= written_tokens(as_read(expr)));
    lemma_read_operand(as_read(expr), 0, none);
}

/// An expression of the form that the grammar gives has its literals as they are read.
proof fn lemma_readable_as_read(expr: ExprView)
    requires
        is_readable(expr),
    ensures
        as_read(expr) == expr,
    decreases expr,
{
    match expr {
        ExprView::Literal(text) => {
            lemma_number_token(text);
        },
        ExprView::Column(_) => {},
        ExprView::Binary(l, _, r) => {
            lemma_readable_as_read(*l);
            lemma_readable_as_read(*r);
        },
        ExprView::Unary(_, inner) => {
            lemma_readable_as_read(*inner);
        },
    }
}

/// What is read from an expression as it was written is the expression, if each number is read
/// from how it was shown.
proof fn lemma_numbers_read_back<N, S: Fn(&N) -> String, R: Fn(&String) -> N>(
    expr: ExprView<N>,
    show: S,
    number: R,
    written: ExprView,
    again: ExprView<N>,
)
    requires
        writes(expr, show, written),
        reads(as_read(written), number, again),
        forall|n: N, text: Seq<char>, m: N| #[trigger]
            is_shown_as(n, show, text) && #[trigger] is_read_as(literal_token(text), number, m)
                ==> m == n,
    ensures
        again == expr,
    decreases written,
{
    match (written, expr, again) {
        (ExprView::Literal(text), ExprView::Literal(n), ExprView::Literal(m)) => {
            assert(is_shown_as(n, show, text));
            assert(is_read_as(literal_token(text), number, m));
        },
        (
            ExprView::Binary(l, _, r),
            ExprView::Binary(m, _, s),
            ExprView::Binary(n, _, t),
        ) => {
            lemma_numbers_read_back(*m, show, number, *l, *n);
            lemma_numbers_read_back(*s, show, number, *r, *t);
        },
        (ExprView::Unary(_, l), ExprView::Unary(_, m), ExprView::Unary(_, n)) => {
            lemma_numbers_read_back(*m, show, number, *l, *n);
        },
        _ => {},
    }
}

/// An expression is the same after it has been written and parsed, as long as what is written has
/// the form that the grammar gives and each number is read from how it was shown.
pub proof fn law_rendered_expression_is_parsed_back<N, S: Fn(&N) -> String, R: Fn(&String) -> N>(
    expr: ExprView<N>,
    show: S,
    number: R,
    written: ExprView,
    again: ExprView<N>,
)
    requires
        writes(expr, show, written),
        is_readable(as_read(written)),
        forall|n: N, text: Seq<char>, m: N| #[trigger]
            is_shown_as(n, show, text) && #[trigger] is_read_as(literal_token(text), number, m)
                ==> m == n,
    ensures
        parsed_expr(expr_text(written)) is Ok,
        reads(parsed_expr(expr_text(written))->Ok_0, number, again) ==> again == expr,
{
    law_readable_expression_round_trip(written);
    if reads(as_read(written), number, again) {
        lemma_numbers_read_back(expr, show, number, written, again);
    }
}

/// What is read as a number, a name or an expression in parentheses has the form that the grammar
/// gives it.
proof fn lemma_atom_is_readable(tokens: Seq<Seq<char>>)
    ensures
        read_atom(tokens) matches Ok((expr, _)) ==> has_stable_names(expr) ==> is_readable(expr),
    decreases tokens.len(), 0int,
{
    if tokens.len() > 0 && tokens[0] == "("@ {
        lemma_level_is_readable(0, tokens.skip(1));
    }
}

/// What is read as an operand has the form that the grammar gives it.
proof fn lemma_unary_is_readable(tokens: Seq<Seq<char>>)
    ensures
        read_unary(tokens) matches Ok((expr, _)) ==> has_stable_names(expr) ==> is_readable(expr),
    decreases tokens.len(), 1int,
{
    lemma_atom_is_readable(tokens);
    if tokens.len() > 0 && prefix_operator(tokens[0]) is Some {
        lemma_atom_is_readable(tokens.skip(1));
    }
}

/// What is read as an expression has the form that the grammar gives it.
proof fn lemma_level_is_readable(level: int, tokens: Seq<Seq<char>>)
    ensures
        read_level(level, tokens) matches Ok((expr, _)) ==> has_stable_names(expr) ==> is_readable(
            expr,
        ),
    decreases tokens.len(), 7 - level,
{
    if level == UNARY_LEVEL {
        lemma_unary_is_readable(tokens);
    } else if 0 <= level < UNARY_LEVEL {
        lemma_level_is_readable(level + 1, tokens);
        match read_level(level + 1, tokens) {
            Err(_) => {},
            Ok((expr, rest)) => {
                if rest.len() < tokens.len() {
                    lemma_more_is_readable(level, rest, expr);
                }
            },
        }
    }
}

/// What is read on behind an operand has the form that the grammar gives it, if the operand has.
proof fn lemma_more_is_readable(level: int, tokens: Seq<Seq<char>>, left: ExprView)
    requires
        has_stable_names(left) ==> is_readable(left),
    ensures
        read_more(level, tokens, left) matches Ok((expr, _)) ==> has_stable_names(expr)
            ==> is_readable(expr),
    decreases tokens.len(), 0int,
{
    if tokens.len() > 0 && 0 <= level < UNARY_LEVEL && operator(level, tokens[0]) is Some {
        lemma_level_is_readable(level + 1, tokens.skip(1));
        match read_level(level + 1, tokens.skip(1)) {
            Err(_) => {},
            Ok((right, rest)) => {
                let expr = ExprView::Binary(
                    Box::new(left),
                    operator(level, tokens[0])->0,
                    Box::new(right),
                );
                if rest.len() < tokens.len() {
                    lemma_more_is_readable(level, rest, expr);
                }
            },
        }
    }
}

/// Every expression that was parsed, with names that are read as themselves, is read back from
/// how it is written.
pub proof fn law_parsed_expression_round_trip(text: Seq<char>)
    requires
        parsed_expr(text) is Ok,
        has_stable_names(parsed_expr(text)->Ok_0),
    ensures
        parsed_expr(expr_text(parsed_expr(text)->Ok_0)) == parsed_expr(text),
{
    lemma_level_is_readable(0, tokenized(text));
    lemma_readable_as_read(parsed_expr(text)->Ok_0);
    law_readable_expression_round_trip(parsed_expr(text)->Ok_0);
}

/// An expression with its literals replaced one by one.
pub open spec fn replaced<L, M>(expr: ExprView<L>, to: spec_fn(L) -> M) -> ExprView<M>
    decreases expr,
{
    match expr {
        ExprView::Literal(literal) => ExprView::Literal(to(literal)),
        ExprView::Column(name) => ExprView::Column(name),
        ExprView::Binary(l, op, r) => ExprView::Binary(
            Box::new(replaced(*l, to)),
            op,
            Box::new(replaced(*r, to)),
        ),
        ExprView::Unary(op, inner) => ExprView::Unary(op, Box::new(replaced(*inner, to))),
    }
}

/// Where each text is read as one number only, an expression is read in one way only.
pub proof fn law_expression_is_read_in_one_way<N, F: Fn(&String) -> N>(
    written: ExprView,
    number: F,
    value: spec_fn(Seq<char>) -> N,
    expr: ExprView<N>,
)
    requires
        reads(written, number, expr),
        forall|token: &String, n: N| #[trigger]
            call_ensures(number, (token,), n) ==> n == value(token@),
    ensures
        expr == replaced(written, value),
    decreases written,
{
    match (written, expr) {
        (ExprView::Literal(text), ExprView::Literal(n)) => {
            assert(is_read_as(text, number, n));
        },
        (ExprView::Binary(l, _, r), ExprView::Binary(m, _, s)) => {
            law_expression_is_read_in_one_way(*l, number, value, *m);
            law_expression_is_read_in_one_way(*r, number, value, *s);
        },
        (ExprView::Unary(_, inner), ExprView::Unary(_, operand)) => {
            law_expression_is_read_in_one_way(*inner, number, value, *operand);
        },
        _ => {},
    }
}

/// Where each number is shown as one text only, an expression is written in one way only.
pub proof fn law_expression_is_written_in_one_way<N, F: Fn(&N) -> String>(
    expr: ExprView<N>,
    show: F,
    text: spec_fn(N) -> Seq<char>,
    written: ExprView,
)
    requires
        writes(expr, show, written),
        forall|n: &N, shown: String| #[trigger]
            call_ensures(show, (n,), shown) ==> shown@ == text(*n),
    ensures
        written == replaced(expr, text),
    decreases written,
{
    match (written, expr) {
        (ExprView::Literal(shown), ExprView::Literal(n)) => {
            assert(is_shown_as(n, show, shown));
        },
        (ExprView::Binary(l, _, r), ExprView::Binary(m, _, s)) => {
            law_expression_is_written_in_one_way(*m, show, text, *l);
            law_expression_is_written_in_one_way(*s, show, text, *r);
        },
        (ExprView::Unary(_, inner), ExprView::Unary(_, operand)) => {
            law_expression_is_written_in_one_way(*operand, show, text, *inner);
        },
        _ => {},
    }
}

/// A name in ASCII letters, digits and underscores, as tokens hold it, is read as itself.
pub proof fn law_ascii_names_are_stable(word: Seq<char>)
    requires
        is_name(word),
        is_ascii_text(word),
        forall|i: int| 0 < i < word.len() ==> in_name(#[trigger] word[i]),
    ensures
        is_stable_name(lowercase(word)),
{
    let name = lowercase(word);
    assert forall|i: int| 0 <= i < name.len() implies is_ascii_char(#[trigger] name[i]) && small(
        name[i],
    ) == name[i] by {
        assert(is_ascii_char(word[i]));
    }
    assert forall|i: int| 0 < i < name.len() implies in_name(#[trigger] name[i]) by {
        assert(in_name(word[i]));
        assert(is_ascii_char(word[i]));
    }
    assert(is_ascii_char(word[0]));
    assert(lowercase(name) =~= name);
}

/// Whether every token that can be a name is read as itself.
spec fn has_stable_tokens(tokens: Seq<Seq<char>>) -> bool {
    forall|i: int|
        0 <= i < tokens.len() && is_name(#[trigger] tokens[i]) ==> is_stable_name(tokens[i])
}

/// What is left of a list of tokens has no others.
proof fn lemma_stable_rest(rest: Seq<Seq<char>>, tokens: Seq<Seq<char>>)
    requires
        has_stable_tokens(tokens),
        rest == tokens || is_rest(rest, tokens),
    ensures
        has_stable_tokens(rest),
{
    if rest != tokens {
        let k = tokens.len() - rest.len();
        assert forall|i: int| 0 <= i < rest.len() && is_name(#[trigger] rest[i]) implies
            is_stable_name(rest[i]) by {
            assert(rest[i] == tokens[i + k]);
        }
    }
}

/// The characters of a name go on to where the name ends.
proof fn lemma_in_name(text: Seq<char>, i: int)
    requires
        0 <= i <= text.len(),
    ensures
        i <= name_end(text, i) <= text.len(),
        forall|j: int| i <= j < name_end(text, i) ==> in_name(#[trigger] text[j]),
    decreases text.len() - i,
{
    if i < text.len() && in_name(text[i]) {
        lemma_in_name(text, i + 1);
    }
}

/// In a text in ASCII the names are read as themselves.
proof fn lemma_ascii_tokens(text: Seq<char>)
    requires
        is_ascii_text(text),
    ensures
        has_stable_tokens(tokenized(text)),
    decreases text.len(),
{
    reveal(tokenized);
    if text.len() > 0 {
        lemma_in_name(text, 1);
        lemma_number_end(text, 1);
        let end = if is_space(text[0]) {
            1
        } else {
            token_end(text)
        };
        let rest = text.skip(end);
        assert(is_ascii_text(rest)) by {
            assert forall|i: int| 0 <= i < rest.len() implies is_ascii_char(#[trigger] rest[i]) by {
                assert(rest[i] == text[i + end]);
            }
        }
        lemma_ascii_tokens(rest);
        if !is_space(text[0]) {
            let part = text.take(end);
            let token = token_of(part);
            if starts_name(part[0]) {
                assert(is_ascii_text(part)) by {
                    assert forall|i: int| 0 <= i < part.len() implies is_ascii_char(
                        #[trigger] part[i],
                    ) by {
                        assert(part[i] == text[i]);
                    }
                }
                assert forall|i: int| 0 < i < part.len() implies in_name(#[trigger] part[i]) by {
                    assert(part[i] == text[i]);
                }
                law_ascii_names_are_stable(part);
            }
            let all = tokenized(text);
            assert(all =~= seq![token] + tokenized(rest));
            assert forall|i: int| 0 <= i < all.len() && is_name(#[trigger] all[i]) implies
                is_stable_name(all[i]) by {
                if i > 0 {
                    assert(all[i] == tokenized(rest)[i - 1]);
                }
            }
        }
    }
}

/// The names in what is read as a number, a name or an expression in parentheses are tokens.
proof fn lemma_atom_names(tokens: Seq<Seq<char>>)
    requires
        has_stable_tokens(tokens),
    ensures
        read_atom(tokens) matches Ok((expr, _)) ==> has_stable_names(expr),
    decreases tokens.len(), 0int,
{
    if tokens.len() > 0 && tokens[0] == "("@ {
        lemma_stable_rest(tokens.skip(1), tokens);
        lemma_level_names(0, tokens.skip(1));
    }
}

/// The names in what is read as an operand are tokens.
proof fn lemma_unary_names(tokens: Seq<Seq<char>>)
    requires
        has_stable_tokens(tokens),
    ensures
        read_unary(tokens) matches Ok((expr, _)) ==> has_stable_names(expr),
    decreases tokens.len(), 1int,
{
    lemma_atom_names(tokens);
    if tokens.len() > 0 {
        lemma_stable_rest(tokens.skip(1), tokens);
        lemma_atom_names(tokens.skip(1));
    }
}

/// The names in what is read as an expression are tokens.
proof fn lemma_level_names(level: int, tokens: Seq<Seq<char>>)
    requires
        has_stable_tokens(tokens),
    ensures
        read_level(level, tokens) matches Ok((expr, _)) ==> has_stable_names(expr),
    decreases tokens.len(), 7 - level,
{
    if level == UNARY_LEVEL {
        lemma_unary_names(tokens);
    } else if 0 <= level < UNARY_LEVEL {
        lemma_level_names(level + 1, tokens);
        lemma_level_consumes(level + 1, tokens);
        match read_level(level + 1, tokens) {
            Err(_) => {},
            Ok((expr, rest)) => {
                lemma_stable_rest(rest, tokens);
                lemma_more_names(level, rest, expr);
            },
        }
    }
}

/// The names in what is read on behind an operand are tokens, or stand in the operand.
proof fn lemma_more_names(level: int, tokens: Seq<Seq<char>>, left: ExprView)
    requires
        has_stable_tokens(tokens),
        has_stable_names(left),
    ensures
        read_more(level, tokens, left) matches Ok((expr, _)) ==> has_stable_names(expr),
    decreases tokens.len(), 0int,
{
    if tokens.len() > 0 && 0 <= level < UNARY_LEVEL && operator(level, tokens[0]) is Some {
        let behind = tokens.skip(1);
        lemma_stable_rest(behind, tokens);
        lemma_level_names(level + 1, behind);
        lemma_level_consumes(level + 1, behind);
        match read_level(level + 1, behind) {
            Err(_) => {},
            Ok((right, rest)) => {
                let expr = ExprView::Binary(
                    Box::new(left),
                    operator(level, tokens[0])->0,
                    Box::new(right),
                );
                lemma_stable_rest(rest, behind);
                if rest.len() < tokens.len() {
                    lemma_more_names(level, rest, expr);
                }
            },
        }
    }
}

/// Every name in an expression that is parsed from a text in ASCII is read as itself.
pub proof fn law_ascii_text_has_stable_names(text: Seq<char>)
    requires
        is_ascii_text(text),
        parsed_expr(text) is Ok,
    ensures
        has_stable_names(parsed_expr(text)->Ok_0),
{
    lemma_ascii_tokens(text);
    lemma_level_names(0, tokenized(text));
}

/// An expression with other numbers in it has the form that the grammar gives it, too.
proof fn lemma_readable_with_other_numbers<N, S: Fn(&N) -> String, R: Fn(&String) -> N>(
    parsed: ExprView,
    number: R,
    expr: ExprView<N>,
    show: S,
    written: ExprView,
)
    requires
        is_readable(parsed),
        reads(parsed, number, expr),
        writes(expr, show, written),
        forall|token: Seq<char>, n: N, text: Seq<char>|
            is_number(token) && #[trigger] is_read_as(token, number, n) && #[trigger] is_shown_as(
                n,
                show,
                text,
            ) ==> is_number(literal_token(text)),
    ensures
        is_readable(as_read(written)),
    decreases parsed,
{
    match (parsed, expr, written) {
        (ExprView::Literal(token), ExprView::Literal(n), ExprView::Literal(text)) => {
            assert(is_read_as(token, number, n));
            assert(is_shown_as(n, show, text));
        },
        (ExprView::Binary(l, _, r), ExprView::Binary(m, _, s), ExprView::Binary(n, _, t)) => {
            lemma_readable_with_other_numbers(*l, number, *m, show, *n);
            lemma_readable_with_other_numbers(*r, number, *s, show, *t);
        },
        (ExprView::Unary(_, l), ExprView::Unary(_, m), ExprView::Unary(_, n)) => {
            lemma_readable_with_other_numbers(*l, number, *m, show, *n);
        },
        _ => {},
    }
}

/// Numbers that were read are read back from how they are shown.
proof fn lemma_read_numbers_read_back<N, S: Fn(&N) -> String, R: Fn(&String) -> N>(
    parsed: ExprView,
    number: R,
    expr: ExprView<N>,
    show: S,
    written: ExprView,
    again: ExprView<N>,
)
    requires
        is_readable(parsed),
        reads(parsed, number, expr),
        writes(expr, show, written),
        reads(as_read(written), number, again),
        forall|token: Seq<char>, n: N, text: Seq<char>, m: N|
            is_number(token) && #[trigger] is_read_as(token, number, n) && #[trigger] is_shown_as(
                n,
                show,
                text,
            ) && #[trigger] is_read_as(literal_token(text), number, m) ==> m == n,
    ensures
        again == expr,
    decreases parsed,
{
    match (parsed, expr, written, again) {
        (
            ExprView::Literal(token),
            ExprView::Literal(n),
            ExprView::Literal(text),
            ExprView::Literal(m),
        ) => {
            assert(is_read_as(token, number, n));
            assert(is_shown_as(n, show, text));
            assert(is_read_as(literal_token(text), number, m));
        },
        (
            ExprView::Binary(l, _, r),
            ExprView::Binary(m, _, s),
            ExprView::Binary(n, _, t),
            ExprView::Binary(o, _, u),
        ) => {
            lemma_read_numbers_read_back(*l, number, *m, show, *n, *o);
            lemma_read_numbers_read_back(*r, number, *s, show, *t, *u);
        },
        (
            ExprView::Unary(_, l),
            ExprView::Unary(_, m),
            ExprView::Unary(_, n),
            ExprView::Unary(_, o),
        ) => {
            lemma_read_numbers_read_back(*l, number, *m, show, *n, *o);
        },
        _ => {},
    }
}

/// An expression that was parsed from a text in ASCII is the same after it has been written and
/// parsed again, as long as each number that was read is shown as a number and is read back from
/// that.
pub proof fn law_ascii_expression_round_trip<N, S: Fn(&N) -> String, R: Fn(&String) -> N>(
    source: Seq<char>,
    number: R,
    expr: ExprView<N>,
    show: S,
    written: ExprView,
    again: ExprView<N>,
)
    requires
        is_ascii_text(source),
        parsed_expr(source) is Ok,
        reads(parsed_expr(source)->Ok_0, number, expr),
        writes(expr, show, written),
        forall|token: Seq<char>, n: N, text: Seq<char>|
            is_number(token) && #[trigger] is_read_as(token, number, n) && #[trigger] is_shown_as(
                n,
                show,
                text,
            ) ==> is_number(literal_token(text)),
        forall|token: Seq<char>, n: N, text: Seq<char>, m: N|
            is_number(token) && #[trigger] is_read_as(token, number, n) && #[trigger] is_shown_as(
                n,
                show,
                text,
            ) && #[trigger] is_read_as(literal_token(text), number, m) ==> m == n,
    ensures
        parsed_expr(expr_text(written)) is Ok,
        reads(parsed_expr(expr_text(written))->Ok_0, number, again) ==> again == expr,
{
    let parsed = parsed_expr(source)->Ok_0;
    law_ascii_text_has_stable_names(source);
    lemma_level_is_readable(0, tokenized(source));
    lemma_readable_with_other_numbers(parsed, number, expr, show, written);
    law_readable_expression_round_trip(written);
    if reads(as_read(written), number, again) {
        lemma_read_numbers_read_back(parsed, number, expr, show, written, again);
    }
}

} // verus!
