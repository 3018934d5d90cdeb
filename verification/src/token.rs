//! Cutting the text of an expression into tokens.

use crate::text::{chars_between, chars_of, is_digit, text_of};
use vstd::prelude::*;
use vstd::string::*;

verus! {

/// Whether a character beyond ASCII is alphabetic, as `char::is_alphabetic` tells it.
pub uninterp spec fn unicode_alphabetic(c: char) -> bool;

/// Whether a character beyond ASCII is alphanumeric, as `char::is_alphanumeric` tells it.
pub uninterp spec fn unicode_alphanumeric(c: char) -> bool;

/// The lower-case form of a text with characters beyond ASCII, as `str::to_lowercase` gives it.
pub uninterp spec fn unicode_lowercase(text: Seq<char>) -> Seq<char>;

/// `char::is_alphabetic`: of the ASCII characters the letters are alphabetic. Which others are,
/// the Unicode tables say; their answer is named and not stated.
pub assume_specification[ char::is_alphabetic ](c: char) -> (b: bool)
    ensures
        b == if is_ascii_char(c) {
            is_ascii_letter(c)
        } else {
            unicode_alphabetic(c)
        },
;

/// `char::is_alphanumeric`: of the ASCII characters the letters and the digits are alphanumeric.
/// Which others are, the Unicode tables say; their answer is named and not stated.
pub assume_specification[ char::is_alphanumeric ](c: char) -> (b: bool)
    ensures
        b == if is_ascii_char(c) {
            is_ascii_letter(c) || is_digit(c)
        } else {
            unicode_alphanumeric(c)
        },
;

/// `str::to_lowercase`: in a text of ASCII characters the capital letters become small. What
/// becomes of other texts, the Unicode tables say; their answer is named and not stated.
pub assume_specification[ str::to_lowercase ](text: &str) -> (out: String)
    ensures
        out@ == if is_ascii_text(text@) {
            text@.map_values(|c: char| small(c))
        } else {
            unicode_lowercase(text@)
        },
;

/// Whether a character is in ASCII.
pub open spec fn is_ascii_char(c: char) -> bool {
    (c as u32) < 128
}

/// Whether a text has no other characters than those in ASCII.
pub open spec fn is_ascii_text(text: Seq<char>) -> bool {
    forall|i: int| 0 <= i < text.len() ==> is_ascii_char(#[trigger] text[i])
}

/// Whether a character is one of the letters of ASCII.
pub open spec fn is_ascii_letter(c: char) -> bool {
    'a' <= c <= 'z' || 'A' <= c <= 'Z'
}

/// A capital letter of ASCII made small, and any other character as it is.
pub open spec fn small(c: char) -> char {
    if 'A' <= c <= 'Z' {
        (c as u32 + 32) as char
    } else {
        c
    }
}

/// The lower-case form of a text.
pub open spec fn lowercase(text: Seq<char>) -> Seq<char> {
    if is_ascii_text(text) {
        text.map_values(|c: char| small(c))
    } else {
        unicode_lowercase(text)
    }
}

/// Whether a name can start with a character.
pub open spec fn starts_name(c: char) -> bool {
    c == '_' || if is_ascii_char(c) {
        is_ascii_letter(c)
    } else {
        unicode_alphabetic(c)
    }
}

/// Whether a name can go on with a character.
pub open spec fn in_name(c: char) -> bool {
    c == '_' || if is_ascii_char(c) {
        is_ascii_letter(c) || is_digit(c)
    } else {
        unicode_alphanumeric(c)
    }
}

/// Whether a character can stand in a number.
pub open spec fn in_number(c: char) -> bool {
    is_digit(c) || c == '.'
}

/// Whether a character only separates tokens.
pub open spec fn is_space(c: char) -> bool {
    c == ' ' || c == '\t' || c == '\n' || c == '\r'
}

/// Whether a character starts a comparison sign, which an equals sign may complete.
pub open spec fn starts_comparison(c: char) -> bool {
    c == '<' || c == '>' || c == '=' || c == '!'
}

/// Where the characters of a name end, from a position on.
pub open spec fn name_end(text: Seq<char>, i: int) -> int
    decreases text.len() - i,
{
    if i < text.len() && in_name(text[i]) {
        name_end(text, i + 1)
    } else {
        i
    }
}

/// Where the characters of a number end, from a position on.
pub open spec fn number_end(text: Seq<char>, i: int) -> int
    decreases text.len() - i,
{
    if i < text.len() && in_number(text[i]) {
        number_end(text, i + 1)
    } else {
        i
    }
}

/// Where the token at the start of a text ends.
pub open spec fn token_end(text: Seq<char>) -> int {
    let c = text[0];
    if starts_comparison(c) && text.len() > 1 && text[1] == '=' {
        2
    } else if in_number(c) {
        number_end(text, 1)
    } else if starts_name(c) {
        name_end(text, 1)
    } else {
        1
    }
}

/// The token that some characters make: a name counts in lower case.
pub open spec fn token_of(part: Seq<char>) -> Seq<char> {
    if starts_name(part[0]) {
        lowercase(part)
    } else {
        part
    }
}

/// The tokens of a text.
#[verifier::opaque]
pub open spec fn tokenized(text: Seq<char>) -> Seq<Seq<char>>
    decreases text.len(),
    via tokenized_decreases
{
    if text.len() == 0 {
        seq![]
    } else if is_space(text[0]) {
        tokenized(text.skip(1))
    } else {
        let end = token_end(text);
        seq![token_of(text.take(end))] + tokenized(text.skip(end))
    }
}

/// A run of name characters ends inside the text.
pub proof fn lemma_name_end(text: Seq<char>, i: int)
    requires
        0 <= i <= text.len(),
    ensures
        i <= name_end(text, i) <= text.len(),
    decreases text.len() - i,
{
    if i < text.len() && in_name(text[i]) {
        lemma_name_end(text, i + 1);
    }
}

/// A run of number characters ends inside the text.
pub proof fn lemma_number_end(text: Seq<char>, i: int)
    requires
        0 <= i <= text.len(),
    ensures
        i <= number_end(text, i) <= text.len(),
    decreases text.len() - i,
{
    if i < text.len() && in_number(text[i]) {
        lemma_number_end(text, i + 1);
    }
}

#[via_fn]
proof fn tokenized_decreases(text: Seq<char>) {
    if text.len() > 0 {
        lemma_name_end(text, 1);
        lemma_number_end(text, 1);
    }
}

/// Whether a name can start with a character.
pub fn can_start_name(c: char) -> (b: bool)
    ensures
        b == starts_name(c),
{
    c.is_alphabetic() || c == '_'
}

/// Whether a name can go on with a character.
fn can_be_in_name(c: char) -> (b: bool)
    ensures
        b == in_name(c),
{
    c.is_alphanumeric() || c == '_'
}

/// Whether a character can stand in a number.
fn can_be_in_number(c: char) -> (b: bool)
    ensures
        b == in_number(c),
{
    ('0' <= c && c <= '9') || c == '.'
}

/// Finds where the token at a position ends.
fn find_token_end(text: &Vec<char>, start: usize) -> (end: usize)
    requires
        start < text@.len(),
        !is_space(text@[start as int]),
    ensures
        start < end <= text@.len(),
        end == start + token_end(text@.skip(start as int)),
{
    let ghost rest = text@.skip(start as int);
    let c = text[start];
    let len: usize = text.len();
    if c == '<' || c == '>' || c == '=' || c == '!' {
        if len - start > 1 && text[start + 1] == '=' {
            return start + 2;
        }
        return start + 1;
    }
    if can_be_in_number(c) {
        let mut end: usize = start + 1;
        while end < text.len() && can_be_in_number(text[end])
            invariant
                start < end <= text@.len(),
                rest == text@.skip(start as int),
                number_end(rest, 1) == number_end(rest, end - start),
            decreases text@.len() - end,
        {
            end += 1;
        }
        return end;
    }
    if can_start_name(c) {
        let mut end: usize = start + 1;
        while end < text.len() && can_be_in_name(text[end])
            invariant
                start < end <= text@.len(),
                rest == text@.skip(start as int),
                name_end(rest, 1) == name_end(rest, end - start),
            decreases text@.len() - end,
        {
            end += 1;
        }
        return end;
    }
    start + 1
}

/// What each token of a list holds.
pub open spec fn token_texts(tokens: Seq<Vec<char>>) -> Seq<Seq<char>> {
    tokens.map_values(|token: Vec<char>| token@)
}

/// Cuts a text into tokens.
pub fn tokenize(source: &str) -> (tokens: Vec<Vec<char>>)
    ensures
        token_texts(tokens@) == tokenized(source@),
{
    proof {
        reveal(tokenized);
    }
    let text = chars_of(source);
    let mut tokens: Vec<Vec<char>> = Vec::new();
    let mut at: usize = 0;
    proof {
        assert(text@.skip(0) =~= text@);
        assert(token_texts(tokens@) + tokenized(text@) =~= tokenized(text@));
    }
    while at < text.len()
        invariant
            at <= text@.len(),
            token_texts(tokens@) + tokenized(text@.skip(at as int)) == tokenized(text@),
        decreases text@.len() - at,
    {
        proof {
            reveal(tokenized);
        }
        let c = text[at];
        let ghost rest = text@.skip(at as int);
        if c == ' ' || c == '\t' || c == '\n' || c == '\r' {
            proof {
                assert(rest.skip(1) =~= text@.skip(at + 1));
            }
            at += 1;
        } else {
            let end: usize = find_token_end(&text, at);
            let token = if can_start_name(c) {
                let word = text_of(&text, at, end);
                proof {
                    assert(word@ =~= rest.take(end - at));
                }
                chars_of(word.as_str().to_lowercase().as_str())
            } else {
                chars_between(&text, at, end)
            };
            let ghost before = token_texts(tokens@);
            tokens.push(token);
            proof {
                assert(text@.subrange(at as int, end as int) =~= rest.take(end - at));
                assert(token@ == token_of(rest.take(end - at)));
                assert(token_texts(tokens@) =~= before + seq![token@]);
                assert(rest.skip(end - at) =~= text@.skip(end as int));
                assert(token_texts(tokens@) + tokenized(text@.skip(end as int)) =~= before
                    + tokenized(rest));
            }
            at = end;
        }
    }
    proof {
        assert(token_texts(tokens@) + Seq::<Seq<char>>::empty() =~= token_texts(tokens@));
    }
    tokens
}

} // verus!
