//! How expressions are spelt: which characters make which tokens.

use crate::expr::{
    expr_text, fraction_part, is_name, is_number, is_numeral, parsed_expr, whole_part, BinOp,
    ExprView, ParseProblem, UnaryOp,
};
use crate::grammar::{
    expr_of, front, is_written_well, joint, law_written_source_is_read, tokens_of, Source,
};
use crate::notation::lemma_words;
use crate::text::{first_index, lemma_first_from, lemma_is_absent, lemma_is_first};
use crate::token::{
    in_name, in_number, is_ascii_char, is_ascii_text, lowercase, name_end, number_end, tokenized,
    unicode_alphabetic, unicode_alphanumeric, unicode_lowercase,
};
use vstd::prelude::*;

verus! {

/// Whether a character is a decimal digit.
pub open spec fn digit_char(c: char) -> bool {
    '0' <= c && c <= '9'
}

/// Whether a character is one of the 52 letters.
pub open spec fn letter_char(c: char) -> bool {
    ('a' <= c && c <= 'z') || ('A' <= c && c <= 'Z')
}

/// Whether a character is one that words are made of.
pub open spec fn word_char(c: char) -> bool {
    letter_char(c) || digit_char(c) || c == '_'
}

/// Whether a text is a word: it does not start with a digit.
pub open spec fn is_word(text: Seq<char>) -> bool {
    &&& text.len() > 0
    &&& !digit_char(text[0])
    &&& forall|i: int| 0 <= i < text.len() ==> word_char(#[trigger] text[i])
}

/// Whether a text is a run of digits and points.
pub open spec fn is_run(text: Seq<char>) -> bool {
    &&& text.len() > 0
    &&& forall|i: int|
        0 <= i < text.len() ==> digit_char(#[trigger] text[i]) || text[i] == '.'
}

/// Whether a text does not go on with a character of words in ASCII, or one beyond ASCII.
pub open spec fn ends_word(rest: Seq<char>) -> bool {
    rest.len() == 0 || (is_ascii_char(rest[0]) && !word_char(rest[0]))
}

/// Whether a text does not go on with a digit or a point.
pub open spec fn ends_run(rest: Seq<char>) -> bool {
    rest.len() == 0 || (!digit_char(rest[0]) && rest[0] != '.')
}

/// Spaces, tabs and line ends only separate.
pub proof fn law_blanks_are_passed_over(c: char, rest: Seq<char>)
    requires
        c == ' ' || c == '\t' || c == '\n' || c == '\r',
    ensures
        tokenized(seq![c] + rest) == tokenized(rest),
        tokenized(seq![]) == Seq::<Seq<char>>::empty(),
{
    reveal(tokenized);
    assert((seq![c] + rest).skip(1) =~= rest);
}

/// A parenthesis or a sign of arithmetic is a token of its own, and so is any other character in
/// ASCII that nothing else is made of.
pub proof fn law_single_character_is_a_token(c: char, rest: Seq<char>)
    requires
        is_ascii_char(c),
        !word_char(c),
        c != '.',
        c != ' ' && c != '\t' && c != '\n' && c != '\r',
        c != '<' && c != '>' && c != '=' && c != '!',
    ensures
        tokenized(seq![c] + rest) == seq![seq![c]] + tokenized(rest),
{
    reveal(tokenized);
    let text = seq![c] + rest;
    assert(text.take(1) =~= seq![c]);
    assert(text.skip(1) =~= rest);
}

/// A sign of comparison takes an equals sign right behind it along.
pub proof fn law_comparison_takes_an_equals_sign(c: char, rest: Seq<char>)
    requires
        c == '<' || c == '>' || c == '=' || c == '!',
    ensures
        tokenized(seq![c, '='] + rest) == seq![seq![c, '=']] + tokenized(rest),
        rest.len() == 0 || rest[0] != '=' ==> tokenized(seq![c] + rest) == seq![seq![c]]
            + tokenized(rest),
{
    reveal(tokenized);
    let long = seq![c, '='] + rest;
    assert(long.take(2) =~= seq![c, '=']);
    assert(long.skip(2) =~= rest);
    let short = seq![c] + rest;
    assert(short.take(1) =~= seq![c]);
    assert(short.skip(1) =~= rest);
    if rest.len() > 0 {
        assert(short[1] == rest[0]);
    }
}

/// A run ends where its characters end.
proof fn lemma_run_end(text: Seq<char>, i: int, k: int)
    requires
        0 <= i <= k <= text.len(),
        forall|j: int| i <= j < k ==> in_number(#[trigger] text[j]),
        k == text.len() || !in_number(text[k]),
    ensures
        number_end(text, i) == k,
    decreases k - i,
{
    if i < k {
        lemma_run_end(text, i + 1, k);
    }
}

/// A word ends where its characters end.
proof fn lemma_word_end(text: Seq<char>, i: int, k: int)
    requires
        0 <= i <= k <= text.len(),
        forall|j: int| i <= j < k ==> in_name(#[trigger] text[j]),
        k == text.len() || !in_name(text[k]),
    ensures
        name_end(text, i) == k,
    decreases k - i,
{
    if i < k {
        lemma_word_end(text, i + 1, k);
    }
}

/// Digits and points in a row are one token, as they are.
pub proof fn law_run_is_a_token(run: Seq<char>, rest: Seq<char>)
    requires
        is_run(run),
        ends_run(rest),
    ensures
        tokenized(run + rest) == seq![run] + tokenized(rest),
{
    reveal(tokenized);
    let text = run + rest;
    let k = run.len() as int;
    assert(text[0] == run[0]);
    assert forall|j: int| 1 <= j < k implies in_number(#[trigger] text[j]) by {
        assert(text[j] == run[j]);
    }
    if rest.len() > 0 {
        assert(text[k] == rest[0]);
    }
    lemma_run_end(text, 1, k);
    assert(text.take(k) =~= run);
    assert(text.skip(k) =~= rest);
}

/// A word with its capital letters made small.
pub open spec fn in_small_letters(word: Seq<char>) -> Seq<char> {
    Seq::new(
        word.len(),
        |i: int|
            if 'A' <= word[i] && word[i] <= 'Z' {
                (word[i] as u32 + 32) as char
            } else {
                word[i]
            },
    )
}

/// Letters, digits and underscores in a row, a digit not first, are one token, in small letters.
pub proof fn law_word_is_a_token(word: Seq<char>, rest: Seq<char>)
    requires
        is_word(word),
        ends_word(rest),
    ensures
        tokenized(word + rest) == seq![in_small_letters(word)] + tokenized(rest),
{
    reveal(tokenized);
    let text = word + rest;
    let k = word.len() as int;
    assert(word_char(word[0]));
    assert(text[0] == word[0]);
    assert forall|j: int| 1 <= j < k implies in_name(#[trigger] text[j]) by {
        assert(word_char(word[j]));
        assert(text[j] == word[j]);
    }
    if rest.len() > 0 {
        assert(text[k] == rest[0]);
    }
    lemma_word_end(text, 1, k);
    assert(text.take(k) =~= word);
    assert(text.skip(k) =~= rest);
    assert(is_ascii_text(word)) by {
        assert forall|i: int| 0 <= i < word.len() implies is_ascii_char(#[trigger] word[i]) by {
            assert(word_char(word[i]));
        }
    }
    assert(lowercase(word) =~= in_small_letters(word));
}

/// Digits, with at most one point among them and at least one digit, are a number, and no other
/// run of digits and points is one.
pub proof fn law_numbers_are_decimals(run: Seq<char>, point: int)
    requires
        is_run(run),
    ensures
        (forall|i: int| 0 <= i < run.len() ==> digit_char(#[trigger] run[i])) ==> is_number(run),
        0 <= point < run.len() && run.len() > 1 && (forall|i: int|
            0 <= i < run.len() ==> ((#[trigger] run[i] == '.') <==> i == point)) ==> is_number(run),
        run == seq!['.'] ==> !is_number(run),
        (exists|i: int, j: int|
            0 <= i < j < run.len() && #[trigger] run[i] == '.' && #[trigger] run[j] == '.')
            ==> !is_number(run),
{
    lemma_words();
    lemma_first_from(run, '.', 0);
    assert(digit_char(run[0]) || run[0] == '.');
    if forall|i: int| 0 <= i < run.len() ==> digit_char(#[trigger] run[i]) {
        lemma_is_absent(run, '.', 0);
    }
    if 0 <= point < run.len() && run.len() > 1 && (forall|i: int|
        0 <= i < run.len() ==> ((#[trigger] run[i] == '.') <==> i == point)) {
        lemma_is_first(run, '.', 0, point);
        assert forall|i: int| 0 <= i < whole_part(run).len() implies digit_char(
            #[trigger] whole_part(run)[i],
        ) by {
            assert(run[i] != '.');
        }
        assert forall|i: int| 0 <= i < fraction_part(run).len() implies digit_char(
            #[trigger] fraction_part(run)[i],
        ) by {
            assert(run[i + point + 1] != '.');
        }
    }
    if run == seq!['.'] {
        lemma_is_first(run, '.', 0, 0);
    }
    if exists|i: int, j: int|
        0 <= i < j < run.len() && #[trigger] run[i] == '.' && #[trigger] run[j] == '.' {
        let (i, j) = choose|i: int, j: int|
            0 <= i < j < run.len() && #[trigger] run[i] == '.' && #[trigger] run[j] == '.';
        let k = first_index(run, '.')->0;
        assert(k <= i);
        assert(fraction_part(run)[j - k - 1] == '.');
        assert(!is_numeral(run));
    }
}

/// Of the words three are numbers and all others can be names.
pub proof fn law_words_are_names(word: Seq<char>)
    requires
        is_word(word),
    ensures
        is_name(word),
        is_number(word) <==> word == seq!['i', 'n', 'f'] || word == seq![
            'i',
            'n',
            'f',
            'i',
            'n',
            'i',
            't',
            'y',
        ] || word == seq!['n', 'a', 'n'],
{
    lemma_words();
    assert(word_char(word[0]));
    lemma_first_from(word, '.', 0);
    if is_numeral(word) {
        assert forall|i: int| 0 <= i < word.len() implies #[trigger] word[i] != '.' by {
            assert(word_char(word[i]));
        }
        assert(digit_char(whole_part(word)[0]));
    }
}

/// Whether a token is spelt as tokens are: a sign, a run of digits and points, or a word in small
/// letters.
pub open spec fn is_spelt(token: Seq<char>) -> bool {
    ||| is_run(token)
    ||| is_word(token) && in_small_letters(token) == token
    ||| token == seq!['('] || token == seq![')']
    ||| exists|op: BinOp| token == #[trigger] joint(op)
}

/// Tokens with a space behind each.
pub open spec fn spaced(tokens: Seq<Seq<char>>) -> Seq<char>
    decreases tokens.len(),
{
    if tokens.len() == 0 {
        seq![]
    } else {
        tokens[0] + seq![' '] + spaced(tokens.skip(1))
    }
}

/// A token that is spelt is read in front of a space.
proof fn lemma_spelt_token(token: Seq<char>, rest: Seq<char>)
    requires
        is_spelt(token),
    ensures
        tokenized(token + (seq![' '] + rest)) == seq![token] + tokenized(rest),
{
    let behind = seq![' '] + rest;
    lemma_words();
    law_blanks_are_passed_over(' ', rest);
    if is_run(token) {
        law_run_is_a_token(token, behind);
    } else if is_word(token) && in_small_letters(token) == token {
        law_word_is_a_token(token, behind);
    } else if token == seq!['('] || token == seq![')'] {
        law_single_character_is_a_token(token[0], behind);
        assert(token =~= seq![token[0]]);
    } else {
        let op = choose|op: BinOp| token == #[trigger] joint(op);
        match op {
            BinOp::And | BinOp::Or => {
                assert(in_small_letters(token) =~= token);
                law_word_is_a_token(token, behind);
            },
            BinOp::Add | BinOp::Sub | BinOp::Mul | BinOp::Div => {
                law_single_character_is_a_token(token[0], behind);
                assert(token =~= seq![token[0]]);
            },
            BinOp::Lt | BinOp::Gt => {
                law_comparison_takes_an_equals_sign(token[0], behind);
                assert(token =~= seq![token[0]]);
            },
            _ => {
                law_comparison_takes_an_equals_sign(token[0], behind);
                assert(token =~= seq![token[0], '=']);
            },
        }
    }
}

/// Tokens that are spelt as tokens are, with spaces between them, are what is read.
pub proof fn law_spaced_tokens_are_read(tokens: Seq<Seq<char>>)
    requires
        forall|i: int| 0 <= i < tokens.len() ==> is_spelt(#[trigger] tokens[i]),
    ensures
        tokenized(spaced(tokens)) == tokens,
    decreases tokens.len(),
{
    if tokens.len() == 0 {
        law_blanks_are_passed_over(' ', seq![]);
        assert(tokens =~= seq![]);
    } else {
        let rest = tokens.skip(1);
        assert forall|i: int| 0 <= i < rest.len() implies is_spelt(#[trigger] rest[i]) by {
            assert(rest[i] == tokens[i + 1]);
        }
        law_spaced_tokens_are_read(rest);
        assert(is_spelt(tokens[0]));
        lemma_spelt_token(tokens[0], spaced(rest));
        assert(spaced(tokens) =~= tokens[0] + (seq![' '] + spaced(rest)));
        assert(tokens =~= seq![tokens[0]] + rest);
    }
}

/// Whether the names and numbers of what is written are spelt as tokens are.
pub open spec fn is_spelt_source(source: Source) -> bool
    decreases source,
{
    match source {
        Source::Number(text) => is_spelt(text),
        Source::Name(name) => is_spelt(name),
        Source::Grouped(inner) => is_spelt_source(*inner),
        Source::Prefixed(_, inner) => is_spelt_source(*inner),
        Source::Joined(l, _, r) => is_spelt_source(*l) && is_spelt_source(*r),
    }
}

/// All tokens of what is written are spelt as tokens are.
proof fn lemma_source_is_spelt(source: Source)
    requires
        is_spelt_source(source),
    ensures
        forall|i: int|
            0 <= i < tokens_of(source).len() ==> is_spelt(#[trigger] tokens_of(source)[i]),
    decreases source,
{
    lemma_words();
    let tokens = tokens_of(source);
    match source {
        Source::Grouped(inner) => {
            lemma_source_is_spelt(*inner);
            assert forall|i: int| 0 <= i < tokens.len() implies is_spelt(#[trigger] tokens[i]) by {
                if 0 < i < tokens.len() - 1 {
                    assert(tokens[i] == tokens_of(*inner)[i - 1]);
                }
            }
        },
        Source::Prefixed(op, inner) => {
            lemma_source_is_spelt(*inner);
            assert(is_spelt(front(op))) by {
                match op {
                    UnaryOp::Neg => {
                        assert(front(op) == joint(BinOp::Sub));
                    },
                    UnaryOp::Not => {
                        assert(in_small_letters(front(op)) =~= front(op));
                    },
                }
            }
            assert forall|i: int| 0 <= i < tokens.len() implies is_spelt(#[trigger] tokens[i]) by {
                if i > 0 {
                    assert(tokens[i] == tokens_of(*inner)[i - 1]);
                }
            }
        },
        Source::Joined(l, op, r) => {
            lemma_source_is_spelt(*l);
            lemma_source_is_spelt(*r);
            let k = tokens_of(*l).len();
            assert forall|i: int| 0 <= i < tokens.len() implies is_spelt(#[trigger] tokens[i]) by {
                if i < k {
                    assert(tokens[i] == tokens_of(*l)[i]);
                } else if i == k {
                    assert(tokens[i] == joint(op));
                } else {
                    assert(tokens[i] == tokens_of(*r)[i - k - 1]);
                }
            }
        },
        _ => {},
    }
}

/// A text in which an expression is written well is parsed as the expression that is meant.
pub proof fn law_text_is_parsed_as_meant(source: Source)
    requires
        is_written_well(source, 0),
        is_spelt_source(source),
    ensures
        parsed_expr(spaced(tokens_of(source))) == Ok::<ExprView, ParseProblem>(expr_of(source)),
{
    lemma_source_is_spelt(source);
    law_spaced_tokens_are_read(tokens_of(source));
    law_written_source_is_read(source);
}

/// How expressions are written: literals and names as they are, and every operator with its
/// operands in parentheses, with spaces around one that stands between, and behind `not`.
pub proof fn law_written_form(
    text: Seq<char>,
    l: ExprView,
    op: BinOp,
    r: ExprView,
)
    ensures
        expr_text(ExprView::Literal(text)) == text,
        expr_text(ExprView::Column(text)) == text,
        expr_text(ExprView::Binary(Box::new(l), op, Box::new(r))) == seq!['('] + expr_text(l)
            + seq![' '] + joint(op) + seq![' '] + expr_text(r) + seq![')'],
        expr_text(ExprView::Unary(UnaryOp::Neg, Box::new(l))) == seq!['(', '-'] + expr_text(l)
            + seq![')'],
        expr_text(ExprView::Unary(UnaryOp::Not, Box::new(l))) == seq!['(', 'n', 'o', 't', ' ']
            + expr_text(l) + seq![')'],
{
    lemma_words();
    assert(expr_text(ExprView::Unary(UnaryOp::Neg, Box::new(l))) =~= seq!['(', '-'] + expr_text(l)
        + seq![')']);
    assert(expr_text(ExprView::Unary(UnaryOp::Not, Box::new(l))) =~= seq![
        '(',
        'n',
        'o',
        't',
        ' ',
    ] + expr_text(l) + seq![')']);
}

/// Whether a word can start with a character: a letter, an underscore, or what is alphabetic beyond
/// ASCII.
pub open spec fn can_start(c: char) -> bool {
    if (c as u32) < 128 {
        letter_char(c) || c == '_'
    } else {
        unicode_alphabetic(c)
    }
}

/// Whether a word can go on with a character.
pub open spec fn can_go_on(c: char) -> bool {
    if (c as u32) < 128 {
        word_char(c)
    } else {
        unicode_alphanumeric(c)
    }
}

/// Beyond ASCII, too, a word is one token, in small letters, and any other character is a token of
/// its own.
pub proof fn law_any_word_is_a_token(word: Seq<char>, at: int, rest: Seq<char>)
    requires
        word.len() > 0,
        can_start(word[0]),
        forall|i: int| 0 < i < word.len() ==> can_go_on(#[trigger] word[i]),
        rest.len() == 0 || !can_go_on(rest[0]),
        0 <= at < word.len(),
        (word[at] as u32) >= 128,
    ensures
        tokenized(word + rest) == seq![unicode_lowercase(word)] + tokenized(rest),
{
    reveal(tokenized);
    let text = word + rest;
    let k = word.len() as int;
    assert(text[0] == word[0]);
    assert forall|j: int| 1 <= j < k implies in_name(#[trigger] text[j]) by {
        assert(text[j] == word[j]);
    }
    if rest.len() > 0 {
        assert(text[k] == rest[0]);
    }
    lemma_word_end(text, 1, k);
    assert(text.take(k) =~= word);
    assert(text.skip(k) =~= rest);
    assert(!is_ascii_char(word[at]));
    assert(!is_ascii_text(word));
}

/// A character beyond ASCII that starts no word is a token of its own.
pub proof fn law_other_character_is_a_token(c: char, rest: Seq<char>)
    requires
        (c as u32) >= 128,
        !unicode_alphabetic(c),
    ensures
        tokenized(seq![c] + rest) == seq![seq![c]] + tokenized(rest),
{
    reveal(tokenized);
    let text = seq![c] + rest;
    assert(text.take(1) =~= seq![c]);
    assert(text.skip(1) =~= rest);
}

} // verus!
