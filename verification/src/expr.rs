//! A small expression language: its grammar, and how expressions are written.
//!
//! ```text
//! expr     → or_expr
//! or_expr  → and_expr ("or" and_expr)*
//! and_expr → rel_expr ("and" rel_expr)*
//! rel_expr → add_expr (("==" | "!=" | "<" | "<=" | ">" | ">=") add_expr)?
//! add_expr → mul_expr (("+" | "-") mul_expr)*
//! mul_expr → unary (("*" | "/") unary)*
//! unary    → ("-" | "not")? atom
//! atom     → NUMBER | IDENT | "(" expr ")"
//! ```

use crate::text::{all_digits, chars_of, find_char, first_index, is_digit, same_chars, text_of};
use crate::token::{can_start_name, starts_name, token_texts, tokenize, tokenized};
use vstd::prelude::*;
use vstd::string::*;

verus! {

/// An expression over numbers of the type `N`. What a number is, how it is read and how it is
/// written, the caller says.
#[derive(Debug, PartialEq)]
pub enum Expr<N> {
    Literal(N),
    Column(String),
    Binary(Box<Expr<N>>, BinOp, Box<Expr<N>>),
    Unary(UnaryOp, Box<Expr<N>>),
}

#[derive(Debug, Clone, Copy, PartialEq, Eq, Structural)]
pub enum BinOp {
    Add,
    Sub,
    Mul,
    Div,
    Eq,
    Neq,
    Lt,
    Le,
    Gt,
    Ge,
    And,
    Or,
}

#[derive(Debug, Clone, Copy, PartialEq, Eq, Structural)]
pub enum UnaryOp {
    Neg,
    Not,
}

/// Why a text is not an expression.
#[derive(Debug, Clone, PartialEq)]
pub enum ParseError {
    UnexpectedEnd,
    UnexpectedToken(String),
    ExpectedExpression,
}

/// What an expression says. In an expression as it is written, a literal is the text of a number.
pub enum ExprView<L = Seq<char>> {
    Literal(L),
    Column(Seq<char>),
    Binary(Box<ExprView<L>>, BinOp, Box<ExprView<L>>),
    Unary(UnaryOp, Box<ExprView<L>>),
}

impl<N> Expr<N> {
    /// What the expression says.
    pub open spec fn meaning(self) -> ExprView<N>
        decreases self,
    {
        match self {
            Expr::Literal(number) => ExprView::Literal(number),
            Expr::Column(name) => ExprView::Column(name@),
            Expr::Binary(l, op, r) => ExprView::Binary(
                Box::new((*l).meaning()),
                op,
                Box::new((*r).meaning()),
            ),
            Expr::Unary(op, inner) => ExprView::Unary(op, Box::new((*inner).meaning())),
        }
    }
}

impl<N> View for Expr<N> {
    type V = ExprView<N>;

    open spec fn view(&self) -> ExprView<N> {
        self.meaning()
    }
}

impl<N: Copy> Expr<N> {
    /// A copy of the expression.
    fn copied(&self) -> (out: Expr<N>)
        ensures
            out@ == self@,
        decreases self,
    {
        match self {
            Expr::Literal(number) => Expr::Literal(*number),
            Expr::Column(name) => Expr::Column(name.clone()),
            Expr::Binary(l, op, r) => Expr::Binary(
                Box::new(l.copied()),
                *op,
                Box::new(r.copied()),
            ),
            Expr::Unary(op, inner) => Expr::Unary(*op, Box::new(inner.copied())),
        }
    }
}

impl<N: Copy> Clone for Expr<N> {
    fn clone(&self) -> (out: Expr<N>)
        ensures
            out@ == self@,
    {
        self.copied()
    }
}

/// Whether a text can be read as a number.
pub open spec fn is_read_as<N, F: Fn(&String) -> N>(text: Seq<char>, number: F, n: N) -> bool {
    exists|token: String| token@ == text && #[trigger] call_ensures(number, (&token,), n)
}

/// Whether a number can be shown as a text.
pub open spec fn is_shown_as<N, F: Fn(&N) -> String>(n: N, show: F, text: Seq<char>) -> bool {
    exists|shown: String| shown@ == text && #[trigger] call_ensures(show, (&n,), shown)
}

/// Whether an expression is what is read from another as it is written: each literal is a number
/// that its text can be read as.
pub open spec fn reads<N, F: Fn(&String) -> N>(
    written: ExprView,
    number: F,
    expr: ExprView<N>,
) -> bool
    decreases written,
{
    match (written, expr) {
        (ExprView::Literal(text), ExprView::Literal(n)) => is_read_as(text, number, n),
        (ExprView::Column(name), ExprView::Column(other)) => other == name,
        (ExprView::Binary(l, op, r), ExprView::Binary(m, other, s)) => {
            &&& other == op
            &&& reads(*l, number, *m)
            &&& reads(*r, number, *s)
        },
        (ExprView::Unary(op, inner), ExprView::Unary(other, operand)) => {
            &&& other == op
            &&& reads(*inner, number, *operand)
        },
        _ => false,
    }
}

/// Whether an expression can be written as another: each literal is a text that its number can be
/// shown as.
pub open spec fn writes<N, F: Fn(&N) -> String>(
    expr: ExprView<N>,
    show: F,
    written: ExprView,
) -> bool
    decreases written,
{
    match (written, expr) {
        (ExprView::Literal(text), ExprView::Literal(n)) => is_shown_as(n, show, text),
        (ExprView::Column(name), ExprView::Column(other)) => other == name,
        (ExprView::Binary(l, op, r), ExprView::Binary(m, other, s)) => {
            &&& other == op
            &&& writes(*m, show, *l)
            &&& writes(*s, show, *r)
        },
        (ExprView::Unary(op, inner), ExprView::Unary(other, operand)) => {
            &&& other == op
            &&& writes(*operand, show, *inner)
        },
        _ => false,
    }
}

/// What is wrong with a text that is not an expression.
pub enum ParseProblem {
    UnexpectedEnd,
    UnexpectedToken(Seq<char>),
    ExpectedExpression,
}

impl View for ParseError {
    type V = ParseProblem;

    open spec fn view(&self) -> ParseProblem {
        match self {
            ParseError::UnexpectedEnd => ParseProblem::UnexpectedEnd,
            ParseError::UnexpectedToken(token) => ParseProblem::UnexpectedToken(token@),
            ParseError::ExpectedExpression => ParseProblem::ExpectedExpression,
        }
    }
}

impl ParseError {
    /// The text of [`ParseError::message`].
    pub open spec fn text(self) -> Seq<char> {
        match self {
            ParseError::UnexpectedEnd => "unexpected end of expression"@,
            ParseError::UnexpectedToken(token) => "unexpected token: "@ + token@,
            ParseError::ExpectedExpression => "expected an expression"@,
        }
    }

    /// What went wrong, in words.
    pub fn message(&self) -> (out: String)
        ensures
            out@ == self.text(),
    {
        match self {
            ParseError::UnexpectedEnd => "unexpected end of expression".to_owned(),
            ParseError::UnexpectedToken(token) => {
                let mut out = "unexpected token: ".to_owned();
                out.append(token.as_str());
                out
            },
            ParseError::ExpectedExpression => "expected an expression".to_owned(),
        }
    }
}

impl BinOp {
    /// The sign of an operator.
    pub open spec fn sign(self) -> Seq<char> {
        match self {
            BinOp::Add => "+"@,
            BinOp::Sub => "-"@,
            BinOp::Mul => "*"@,
            BinOp::Div => "/"@,
            BinOp::Eq => "=="@,
            BinOp::Neq => "!="@,
            BinOp::Lt => "<"@,
            BinOp::Le => "<="@,
            BinOp::Gt => ">"@,
            BinOp::Ge => ">="@,
            BinOp::And => "and"@,
            BinOp::Or => "or"@,
        }
    }

    /// The sign of this operator.
    pub fn as_str(&self) -> (sign: &'static str)
        ensures
            sign@ == self.sign(),
    {
        match self {
            BinOp::Add => "+",
            BinOp::Sub => "-",
            BinOp::Mul => "*",
            BinOp::Div => "/",
            BinOp::Eq => "==",
            BinOp::Neq => "!=",
            BinOp::Lt => "<",
            BinOp::Le => "<=",
            BinOp::Gt => ">",
            BinOp::Ge => ">=",
            BinOp::And => "and",
            BinOp::Or => "or",
        }
    }
}

impl UnaryOp {
    /// What is written before the operand.
    pub open spec fn prefix(self) -> Seq<char> {
        match self {
            UnaryOp::Neg => "-"@,
            UnaryOp::Not => "not "@,
        }
    }

    /// What is written before the operand.
    pub fn as_str(&self) -> (prefix: &'static str)
        ensures
            prefix@ == self.prefix(),
    {
        match self {
            UnaryOp::Neg => "-",
            UnaryOp::Not => "not ",
        }
    }
}

/// How an expression is written: operators with their operands in parentheses.
pub open spec fn expr_text(expr: ExprView) -> Seq<char>
    decreases expr,
{
    match expr {
        ExprView::Literal(text) => text,
        ExprView::Column(name) => name,
        ExprView::Binary(l, op, r) => seq!['('] + expr_text(*l) + seq![' '] + op.sign() + seq![' ']
            + expr_text(*r) + seq![')'],
        ExprView::Unary(op, inner) => seq!['('] + op.prefix() + expr_text(*inner) + seq![')'],
    }
}

impl<N> Expr<N> {
    /// Appends the expression as it is written, and tells how that is.
    fn write_to<F: Fn(&N) -> String>(&self, show: &F, out: &mut String) -> (written: Ghost<
        ExprView,
    >)
        requires
            forall|n: &N| #[trigger] call_requires(*show, (n,)),
        ensures
            writes(self@, *show, written@),
            final(out)@ == old(out)@ + expr_text(written@),
        decreases self,
    {
        match self {
            Expr::Literal(number) => {
                let shown = show(number);
                assert(is_shown_as(*number, *show, shown@));
                out.append(shown.as_str());
                Ghost(ExprView::Literal(shown@))
            },
            Expr::Column(name) => {
                out.append(name.as_str());
                Ghost(ExprView::Column(name@))
            },
            Expr::Binary(l, op, r) => {
                out.push('(');
                let left = l.write_to(show, out);
                out.push(' ');
                out.append(op.as_str());
                out.push(' ');
                let right = r.write_to(show, out);
                out.push(')');
                let ghost written = ExprView::Binary(Box::new(left@), *op, Box::new(right@));
                proof {
                    assert(out@ =~= old(out)@ + expr_text(written));
                }
                Ghost(written)
            },
            Expr::Unary(op, inner) => {
                out.push('(');
                out.append(op.as_str());
                let operand = inner.write_to(show, out);
                out.push(')');
                let ghost written = ExprView::Unary(*op, Box::new(operand@));
                proof {
                    assert(out@ =~= old(out)@ + expr_text(written));
                }
                Ghost(written)
            },
        }
    }

    /// The expression as it is written, with numbers as `show` shows them.
    pub fn render<F: Fn(&N) -> String>(&self, show: &F) -> (out: String)
        requires
            forall|n: &N| #[trigger] call_requires(*show, (n,)),
        ensures
            exists|written: ExprView| #[trigger]
                writes(self@, *show, written) && out@ == expr_text(written),
    {
        let mut out = String::new();
        let written = self.write_to(show, &mut out);
        proof {
            assert(out@ =~= expr_text(written@));
        }
        out
    }
}

/// What stands before the decimal point of a numeral.
pub open spec fn whole_part(numeral: Seq<char>) -> Seq<char> {
    match first_index(numeral, '.') {
        Some(i) => numeral.take(i),
        None => numeral,
    }
}

/// What stands after the decimal point of a numeral.
pub open spec fn fraction_part(numeral: Seq<char>) -> Seq<char> {
    match first_index(numeral, '.') {
        Some(i) => numeral.skip(i + 1),
        None => seq![],
    }
}

/// Whether a text is a numeral: digits with at most one point among them, at least one digit.
pub open spec fn is_numeral(token: Seq<char>) -> bool {
    &&& all_digits(whole_part(token))
    &&& all_digits(fraction_part(token))
    &&& whole_part(token).len() + fraction_part(token).len() > 0
}

/// Whether a token is a number: a numeral, or one of the words for what no numeral can say.
pub open spec fn is_number(token: Seq<char>) -> bool {
    is_numeral(token) || token == "inf"@ || token == "infinity"@ || token == "nan"@
}

/// Whether a token can be the name of a column.
pub open spec fn is_name(token: Seq<char>) -> bool {
    token.len() > 0 && starts_name(token[0])
}

/// The operator that a token stands for on one level of the grammar. Level 0 binds loosest.
pub open spec fn operator(level: int, token: Seq<char>) -> Option<BinOp> {
    if level == 0 {
        if token == "or"@ {
            Some(BinOp::Or)
        } else {
            None
        }
    } else if level == 1 {
        if token == "and"@ {
            Some(BinOp::And)
        } else {
            None
        }
    } else if level == 2 {
        if token == "=="@ {
            Some(BinOp::Eq)
        } else if token == "!="@ {
            Some(BinOp::Neq)
        } else if token == "<"@ {
            Some(BinOp::Lt)
        } else if token == "<="@ {
            Some(BinOp::Le)
        } else if token == ">"@ {
            Some(BinOp::Gt)
        } else if token == ">="@ {
            Some(BinOp::Ge)
        } else {
            None
        }
    } else if level == 3 {
        if token == "+"@ {
            Some(BinOp::Add)
        } else if token == "-"@ {
            Some(BinOp::Sub)
        } else {
            None
        }
    } else {
        if token == "*"@ {
            Some(BinOp::Mul)
        } else if token == "/"@ {
            Some(BinOp::Div)
        } else {
            None
        }
    }
}

/// The level on which comparisons stand: there an operator is not followed by another.
pub const COMPARISON_LEVEL: u8 = 2;

/// The level below all operators with two operands.
pub const UNARY_LEVEL: u8 = 5;

/// The operator that a token in front of an operand stands for.
pub open spec fn prefix_operator(token: Seq<char>) -> Option<UnaryOp> {
    if token == "-"@ {
        Some(UnaryOp::Neg)
    } else if token == "not"@ {
        Some(UnaryOp::Not)
    } else {
        None
    }
}

/// What reading an expression from the start of a list of tokens gives: the expression and the
/// tokens left, or what is wrong.
pub type Reading = Result<(ExprView, Seq<Seq<char>>), ParseProblem>;

/// Reads an expression of one level of the grammar.
pub open spec fn read_level(level: int, tokens: Seq<Seq<char>>) -> Reading
    decreases tokens.len(), 7 - level,
{
    if level == UNARY_LEVEL {
        read_unary(tokens)
    } else if !(0 <= level < UNARY_LEVEL) {
        Err(ParseProblem::ExpectedExpression)
    } else {
        match read_level(level + 1, tokens) {
            Err(e) => Err(e),
            Ok((expr, rest)) => if rest.len() < tokens.len() {
                read_more(level, rest, expr)
            } else {
                Err(ParseProblem::ExpectedExpression)
            },
        }
    }
}

/// Reads on behind an operand: operators of the level with their right operands, grouped to the
/// left.
pub open spec fn read_more(level: int, tokens: Seq<Seq<char>>, left: ExprView) -> Reading
    decreases tokens.len(), 0int,
{
    if tokens.len() == 0 || operator(level, tokens[0]) is None || !(0 <= level < UNARY_LEVEL) {
        Ok((left, tokens))
    } else {
        match read_level(level + 1, tokens.skip(1)) {
            Err(e) => Err(e),
            Ok((right, rest)) => {
                let expr = ExprView::Binary(
                    Box::new(left),
                    operator(level, tokens[0])->0,
                    Box::new(right),
                );
                if level == COMPARISON_LEVEL || rest.len() >= tokens.len() {
                    Ok((expr, rest))
                } else {
                    read_more(level, rest, expr)
                }
            },
        }
    }
}

/// Reads an operand with at most one operator in front of it.
pub open spec fn read_unary(tokens: Seq<Seq<char>>) -> Reading
    decreases tokens.len(), 1int,
{
    if tokens.len() > 0 && prefix_operator(tokens[0]) is Some {
        match read_atom(tokens.skip(1)) {
            Err(e) => Err(e),
            Ok((inner, rest)) => Ok(
                (ExprView::Unary(prefix_operator(tokens[0])->0, Box::new(inner)), rest),
            ),
        }
    } else {
        read_atom(tokens)
    }
}

/// Reads a number, a name or an expression in parentheses.
pub open spec fn read_atom(tokens: Seq<Seq<char>>) -> Reading
    decreases tokens.len(), 0int,
{
    if tokens.len() == 0 {
        Err(ParseProblem::UnexpectedEnd)
    } else if tokens[0] == "("@ {
        match read_level(0, tokens.skip(1)) {
            Err(e) => Err(e),
            Ok((expr, rest)) => if rest.len() == 0 {
                Err(ParseProblem::UnexpectedEnd)
            } else if rest[0] != ")"@ {
                Err(ParseProblem::UnexpectedToken(rest[0]))
            } else {
                Ok((expr, rest.skip(1)))
            },
        }
    } else if is_number(tokens[0]) {
        Ok((ExprView::Literal(tokens[0]), tokens.skip(1)))
    } else if is_name(tokens[0]) && prefix_operator(tokens[0]) is None {
        Ok((ExprView::Column(tokens[0]), tokens.skip(1)))
    } else {
        Err(ParseProblem::UnexpectedToken(tokens[0]))
    }
}

/// The expression that a list of tokens is, all of it, or what is wrong with it.
pub open spec fn read_all(tokens: Seq<Seq<char>>) -> Result<ExprView, ParseProblem> {
    match read_level(0, tokens) {
        Err(e) => Err(e),
        Ok((expr, rest)) => if rest.len() > 0 {
            Err(ParseProblem::UnexpectedToken(rest[0]))
        } else {
            Ok(expr)
        },
    }
}

/// The expression that a text is, as it is written, or what is wrong with it.
pub open spec fn parsed_expr(text: Seq<char>) -> Result<ExprView, ParseProblem> {
    read_all(tokenized(text))
}

/// Whether a list is what is left of another when some are taken from its front, at least one.
pub open spec fn is_rest(rest: Seq<Seq<char>>, tokens: Seq<Seq<char>>) -> bool {
    rest.len() < tokens.len() && rest == tokens.skip(tokens.len() - rest.len())
}

/// What is left of a rest is a rest.
proof fn lemma_rest_of_rest(last: Seq<Seq<char>>, rest: Seq<Seq<char>>, tokens: Seq<Seq<char>>)
    requires
        is_rest(rest, tokens),
        is_rest(last, rest),
    ensures
        is_rest(last, tokens),
{
    assert(last =~= tokens.skip(tokens.len() - last.len()));
}

/// Reading a number, a name or an expression in parentheses consumes tokens from the front.
proof fn lemma_atom_consumes(tokens: Seq<Seq<char>>)
    ensures
        read_atom(tokens) matches Ok((_, rest)) ==> is_rest(rest, tokens),
    decreases tokens.len(), 0int,
{
    if tokens.len() > 0 && tokens[0] == "("@ {
        lemma_level_consumes(0, tokens.skip(1));
        match read_level(0, tokens.skip(1)) {
            Err(_) => {},
            Ok((_, rest)) => {
                lemma_rest_of_rest(rest, tokens.skip(1), tokens);
                if rest.len() > 0 {
                    lemma_rest_of_rest(rest.skip(1), rest, tokens);
                }
            },
        }
    }
}

/// Reading an operand consumes tokens from the front.
proof fn lemma_unary_consumes(tokens: Seq<Seq<char>>)
    ensures
        read_unary(tokens) matches Ok((_, rest)) ==> is_rest(rest, tokens),
    decreases tokens.len(), 1int,
{
    lemma_atom_consumes(tokens);
    if tokens.len() > 0 {
        lemma_atom_consumes(tokens.skip(1));
        match read_atom(tokens.skip(1)) {
            Err(_) => {},
            Ok((_, rest)) => {
                lemma_rest_of_rest(rest, tokens.skip(1), tokens);
            },
        }
    }
}

/// Reading an expression consumes tokens from the front.
pub proof fn lemma_level_consumes(level: int, tokens: Seq<Seq<char>>)
    ensures
        read_level(level, tokens) matches Ok((_, rest)) ==> is_rest(rest, tokens),
    decreases tokens.len(), 7 - level,
{
    if level == UNARY_LEVEL {
        lemma_unary_consumes(tokens);
    } else if 0 <= level < UNARY_LEVEL {
        lemma_level_consumes(level + 1, tokens);
        match read_level(level + 1, tokens) {
            Err(_) => {},
            Ok((expr, rest)) => {
                lemma_more_consumes(level, rest, expr);
                match read_more(level, rest, expr) {
                    Err(_) => {},
                    Ok((_, last)) => {
                        if last != rest {
                            lemma_rest_of_rest(last, rest, tokens);
                        }
                    },
                }
            },
        }
    }
}

/// Reading on consumes tokens from the front, if any.
proof fn lemma_more_consumes(level: int, tokens: Seq<Seq<char>>, left: ExprView)
    ensures
        read_more(level, tokens, left) matches Ok((_, rest)) ==> rest == tokens || is_rest(
            rest,
            tokens,
        ),
    decreases tokens.len(), 0int,
{
    if tokens.len() > 0 && 0 <= level < UNARY_LEVEL && operator(level, tokens[0]) is Some {
        lemma_level_consumes(level + 1, tokens.skip(1));
        match read_level(level + 1, tokens.skip(1)) {
            Err(_) => {},
            Ok((right, rest)) => {
                let expr = ExprView::Binary(
                    Box::new(left),
                    operator(level, tokens[0])->0,
                    Box::new(right),
                );
                lemma_rest_of_rest(rest, tokens.skip(1), tokens);
                lemma_more_consumes(level, rest, expr);
                match read_more(level, rest, expr) {
                    Err(_) => {},
                    Ok((_, last)) => {
                        if last != rest {
                            lemma_rest_of_rest(last, rest, tokens);
                        }
                    },
                }
            },
        }
    }
}

/// Whether a token is the given word or sign.
fn token_is(token: &Vec<char>, word: &str) -> (same: bool)
    ensures
        same == (token@ == word@),
{
    same_chars(token, &chars_of(word))
}

/// The operator that a token stands for on one level of the grammar.
fn operator_at(level: u8, token: &Vec<char>) -> (op: Option<BinOp>)
    requires
        level < UNARY_LEVEL,
    ensures
        op == operator(level as int, token@),
{
    if level == 0 {
        if token_is(token, "or") {
            Some(BinOp::Or)
        } else {
            None
        }
    } else if level == 1 {
        if token_is(token, "and") {
            Some(BinOp::And)
        } else {
            None
        }
    } else if level == 2 {
        if token_is(token, "==") {
            Some(BinOp::Eq)
        } else if token_is(token, "!=") {
            Some(BinOp::Neq)
        } else if token_is(token, "<") {
            Some(BinOp::Lt)
        } else if token_is(token, "<=") {
            Some(BinOp::Le)
        } else if token_is(token, ">") {
            Some(BinOp::Gt)
        } else if token_is(token, ">=") {
            Some(BinOp::Ge)
        } else {
            None
        }
    } else if level == 3 {
        if token_is(token, "+") {
            Some(BinOp::Add)
        } else if token_is(token, "-") {
            Some(BinOp::Sub)
        } else {
            None
        }
    } else {
        if token_is(token, "*") {
            Some(BinOp::Mul)
        } else if token_is(token, "/") {
            Some(BinOp::Div)
        } else {
            None
        }
    }
}

/// The operator that a token in front of an operand stands for.
fn prefix_at(token: &Vec<char>) -> (op: Option<UnaryOp>)
    ensures
        op == prefix_operator(token@),
{
    if token_is(token, "-") {
        Some(UnaryOp::Neg)
    } else if token_is(token, "not") {
        Some(UnaryOp::Not)
    } else {
        None
    }
}

/// Whether some characters in a row are all decimal digits.
fn digits_between(text: &Vec<char>, start: usize, end: usize) -> (ok: bool)
    requires
        start <= end <= text@.len(),
    ensures
        ok == all_digits(text@.subrange(start as int, end as int)),
{
    let ghost part = text@.subrange(start as int, end as int);
    let mut i: usize = start;
    while i < end
        invariant
            start <= i <= end <= text@.len(),
            part == text@.subrange(start as int, end as int),
            forall|k: int| 0 <= k < i - start ==> is_digit(#[trigger] part[k]),
        decreases end - i,
    {
        let c = text[i];
        assert(part[i - start] == c);
        if c < '0' || c > '9' {
            return false;
        }
        i += 1;
    }
    true
}

/// Whether a token is a number.
fn token_is_number(token: &Vec<char>) -> (b: bool)
    ensures
        b == is_number(token@),
{
    let len: usize = token.len();
    let (point, fraction): (usize, usize) = match find_char(token, '.') {
        Some(i) => (i, i + 1),
        None => (len, len),
    };
    proof {
        assert(token@.take(len as int) =~= token@);
        assert(token@.subrange(0, point as int) =~= token@.take(point as int));
        assert(token@.subrange(fraction as int, len as int) =~= token@.skip(fraction as int));
        assert(whole_part(token@) =~= token@.take(point as int));
        assert(fraction_part(token@) =~= token@.skip(fraction as int));
    }
    if digits_between(token, 0, point) && digits_between(token, fraction, len) && (point > 0
        || fraction < len) {
        return true;
    }
    token_is(token, "inf") || token_is(token, "infinity") || token_is(token, "nan")
}

/// Whether a token can be the name of a column.
fn is_ident(token: &Vec<char>) -> (b: bool)
    ensures
        b == is_name(token@),
{
    token.len() > 0 && can_start_name(token[0])
}

/// A list of tokens and how many of them have been read.
struct Parser {
    tokens: Vec<Vec<char>>,
    pos: usize,
}

impl Parser {
    /// The tokens that are left.
    closed spec fn left(&self) -> Seq<Seq<char>> {
        token_texts(self.tokens@).skip(self.pos as int)
    }

    closed spec fn wf(&self) -> bool {
        self.pos <= self.tokens@.len()
    }

    /// Whether what was returned is read from the reading given, and the rest of the tokens is
    /// left.
    closed spec fn gives<N, F: Fn(&String) -> N>(
        before: &Self,
        after: &Self,
        number: F,
        r: Result<Expr<N>, ParseError>,
        reading: Reading,
    ) -> bool {
        &&& after.wf()
        &&& after.tokens == before.tokens
        &&& match reading {
            Ok((written, rest)) => {
                &&& r is Ok
                &&& reads(written, number, r->Ok_0@)
                &&& after.left() == rest
            },
            Err(problem) => r matches Err(e) && e@ == problem,
        }
    }

    /// Passes over a token.
    fn skip_token(&mut self)
        requires
            old(self).wf(),
            old(self).left().len() > 0,
        ensures
            final(self).wf(),
            final(self).tokens == old(self).tokens,
            final(self).left() == old(self).left().skip(1),
    {
        assert(self.pos < self.tokens.len());
        self.pos += 1;
        proof {
            assert(self.left() =~= old(self).left().skip(1));
        }
    }

    /// Reads an expression of one level of the grammar.
    fn parse_level<N, F: Fn(&String) -> N>(&mut self, level: u8, number: &F) -> (r: Result<
        Expr<N>,
        ParseError,
    >)
        requires
            old(self).wf(),
            level <= UNARY_LEVEL,
            forall|token: &String| #[trigger] call_requires(*number, (token,)),
        ensures
            Self::gives(
                old(self),
                final(self),
                *number,
                r,
                read_level(level as int, old(self).left()),
            ),
        decreases old(self).left().len(), 7 - level,
    {
        if level == UNARY_LEVEL {
            return self.parse_unary(number);
        }
        let ghost start = self.left();
        proof {
            lemma_level_consumes(level + 1, start);
        }
        let mut left = match self.parse_level(level + 1, number) {
            Ok(expr) => expr,
            Err(e) => {
                return Err(e);
            },
        };
        let ghost mut operand = read_level(level + 1, start)->Ok_0.0;
        while self.pos < self.tokens.len()
            invariant
                self.wf(),
                self.tokens == old(self).tokens,
                level < UNARY_LEVEL,
                forall|token: &String| #[trigger] call_requires(*number, (token,)),
                start == old(self).left(),
                self.left().len() < start.len(),
                reads(operand, *number, left@),
                read_level(level as int, start) == read_more(level as int, self.left(), operand),
            decreases self.left().len(),
        {
            let ghost here = self.left();
            proof {
                assert(here[0] == self.tokens@[self.pos as int]@);
            }
            let op = match operator_at(level, &self.tokens[self.pos]) {
                Some(op) => op,
                None => {
                    return Ok(left);
                },
            };
            self.skip_token();
            proof {
                lemma_level_consumes(level + 1, self.left());
            }
            let right = match self.parse_level(level + 1, number) {
                Ok(expr) => expr,
                Err(e) => {
                    return Err(e);
                },
            };
            left = Expr::Binary(Box::new(left), op, Box::new(right));
            proof {
                let second = read_level(level + 1, here.skip(1))->Ok_0.0;
                operand = ExprView::Binary(Box::new(operand), op, Box::new(second));
            }
            if level == COMPARISON_LEVEL {
                return Ok(left);
            }
        }
        Ok(left)
    }

    /// Reads an operand with at most one operator in front of it.
    fn parse_unary<N, F: Fn(&String) -> N>(&mut self, number: &F) -> (r: Result<
        Expr<N>,
        ParseError,
    >)
        requires
            old(self).wf(),
            forall|token: &String| #[trigger] call_requires(*number, (token,)),
        ensures
            Self::gives(old(self), final(self), *number, r, read_unary(old(self).left())),
        decreases old(self).left().len(), 1int,
    {
        if self.pos < self.tokens.len() {
            proof {
                assert(self.left()[0] == self.tokens@[self.pos as int]@);
            }
            match prefix_at(&self.tokens[self.pos]) {
                Some(op) => {
                    self.skip_token();
                    return match self.parse_atom(number) {
                        Ok(inner) => Ok(Expr::Unary(op, Box::new(inner))),
                        Err(e) => Err(e),
                    };
                },
                None => {},
            }
        }
        self.parse_atom(number)
    }

    /// The token at hand as a text.
    fn token_text(&self) -> (out: String)
        requires
            self.wf(),
            self.left().len() > 0,
        ensures
            out@ == self.left()[0],
    {
        let token = &self.tokens[self.pos];
        let out = text_of(token, 0, token.len());
        proof {
            assert(out@ =~= token@);
        }
        out
    }

    /// Reads a number, a name or an expression in parentheses.
    fn parse_atom<N, F: Fn(&String) -> N>(&mut self, number: &F) -> (r: Result<
        Expr<N>,
        ParseError,
    >)
        requires
            old(self).wf(),
            forall|token: &String| #[trigger] call_requires(*number, (token,)),
        ensures
            Self::gives(old(self), final(self), *number, r, read_atom(old(self).left())),
        decreases old(self).left().len(), 0int,
    {
        if self.pos >= self.tokens.len() {
            return Err(ParseError::UnexpectedEnd);
        }
        proof {
            assert(self.left()[0] == self.tokens@[self.pos as int]@);
        }
        if token_is(&self.tokens[self.pos], "(") {
            self.skip_token();
            let inner = match self.parse_level(0, number) {
                Ok(inner) => inner,
                Err(e) => {
                    return Err(e);
                },
            };
            if self.pos >= self.tokens.len() {
                return Err(ParseError::UnexpectedEnd);
            }
            proof {
                assert(self.left()[0] == self.tokens@[self.pos as int]@);
            }
            if !token_is(&self.tokens[self.pos], ")") {
                return Err(ParseError::UnexpectedToken(self.token_text()));
            }
            self.skip_token();
            return Ok(inner);
        }
        let text = self.token_text();
        if token_is_number(&self.tokens[self.pos]) {
            self.skip_token();
            let value = number(&text);
            assert(is_read_as(text@, *number, value));
            return Ok(Expr::Literal(value));
        }
        if is_ident(&self.tokens[self.pos]) && prefix_at(&self.tokens[self.pos]).is_none() {
            self.skip_token();
            return Ok(Expr::Column(text));
        }
        Err(ParseError::UnexpectedToken(text))
    }
}

/// Parses an expression. All of the text must be one. Each number in it is what `number` reads it
/// as.
pub fn parse_expr<N, F: Fn(&String) -> N>(source: &str, number: &F) -> (r: Result<
    Expr<N>,
    ParseError,
>)
    requires
        forall|token: &String| #[trigger] call_requires(*number, (token,)),
    ensures
        match parsed_expr(source@) {
            Ok(written) => r is Ok && reads(written, *number, r->Ok_0@),
            Err(problem) => r matches Err(e) && e@ == problem,
        },
{
    let mut parser = Parser { tokens: tokenize(source), pos: 0 };
    proof {
        assert(parser.left() =~= tokenized(source@));
    }
    match parser.parse_level(0, number) {
        Err(e) => Err(e),
        Ok(expr) => {
            if parser.pos < parser.tokens.len() {
                Err(ParseError::UnexpectedToken(parser.token_text()))
            } else {
                Ok(expr)
            }
        },
    }
}

/// What an expression is said to be is what it is built of.
pub proof fn law_view_shows_the_expression<N>(
    number: N,
    name: String,
    left: Expr<N>,
    op: BinOp,
    right: Expr<N>,
    prefix: UnaryOp,
)
    ensures
        Expr::Literal(number)@ == ExprView::Literal(number),
        Expr::<N>::Column(name)@ == ExprView::<N>::Column(name@),
        Expr::Binary(Box::new(left), op, Box::new(right))@ == ExprView::Binary(
            Box::new(left@),
            op,
            Box::new(right@),
        ),
        Expr::Unary(prefix, Box::new(right))@ == ExprView::Unary(prefix, Box::new(right@)),
        ParseError::UnexpectedEnd@ == ParseProblem::UnexpectedEnd,
        ParseError::UnexpectedToken(name)@ == ParseProblem::UnexpectedToken(name@),
        ParseError::ExpectedExpression@ == ParseProblem::ExpectedExpression,
{
}

} // verus!
