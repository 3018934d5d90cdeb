//! Building strings: digits and characters.

use vstd::prelude::*;
use vstd::string::*;

verus! {

/// `String::push`: the string grows by the given character at its end.
pub assume_specification[ String::push ](s: &mut String, c: char)
    ensures
        final(s)@ == old(s)@.push(c),
;

/// The character that stands for a digit below sixteen, in lower case.
pub open spec fn digit(d: nat) -> char {
    if d < 10 {
        (48 + d) as char
    } else {
        (87 + d) as char
    }
}

/// Whether a character is a decimal digit.
pub open spec fn is_digit(c: char) -> bool {
    '0' <= c <= '9'
}

/// Whether a text has no other characters than decimal digits.
pub open spec fn all_digits(text: Seq<char>) -> bool {
    forall|i: int| 0 <= i < text.len() ==> is_digit(#[trigger] text[i])
}

/// A number written in base ten, without leading zeros.
pub open spec fn decimal(n: nat) -> Seq<char>
    decreases n,
{
    if n < 10 {
        seq![digit(n)]
    } else {
        decimal(n / 10).push(digit(n % 10))
    }
}

/// The lowest `width` hexadecimal digits of a number, most significant first.
pub open spec fn hex(n: nat, width: nat) -> Seq<char>
    decreases width,
{
    if width == 0 {
        seq![]
    } else {
        hex(n / 16, (width - 1) as nat).push(digit(n % 16))
    }
}

/// Gives the character of a digit below sixteen.
fn digit_char(d: u8) -> (c: char)
    requires
        d < 16,
    ensures
        c == digit(d as nat),
{
    if d < 10 {
        (48 + d) as char
    } else {
        (87 + d) as char
    }
}

/// Appends a number in base ten.
pub fn push_decimal(out: &mut String, n: u64)
    ensures
        final(out)@ == old(out)@ + decimal(n as nat),
    decreases n,
{
    if n >= 10 {
        push_decimal(out, n / 10);
    }
    out.push(digit_char((n % 10) as u8));
    proof {
        assert(out@ =~= old(out)@ + decimal(n as nat));
    }
}

/// Appends the lowest `width` hexadecimal digits of a number.
pub fn push_hex(out: &mut String, n: u32, width: u32)
    ensures
        final(out)@ == old(out)@ + hex(n as nat, width as nat),
    decreases width,
{
    if width > 0 {
        push_hex(out, n / 16, width - 1);
        out.push(digit_char((n % 16) as u8));
    }
    proof {
        assert(out@ =~= old(out)@ + hex(n as nat, width as nat));
    }
}

/// The characters of a text.
pub fn chars_of(text: &str) -> (out: Vec<char>)
    ensures
        out@ == text@,
{
    let mut out: Vec<char> = Vec::new();
    for c in iter: text.chars()
        invariant
            out@ == iter.seq().take(iter.index() as int),
            iter.seq() == text@,
    {
        out.push(c);
        proof {
            assert(out@ =~= iter.seq().take(iter.index() + 1));
        }
    }
    proof {
        assert(out@ =~= text@);
    }
    out
}

/// The text of some characters in a row.
pub fn text_of(chars: &Vec<char>, start: usize, end: usize) -> (out: String)
    requires
        start <= end <= chars@.len(),
    ensures
        out@ == chars@.subrange(start as int, end as int),
{
    let mut out = String::new();
    let mut i: usize = start;
    while i < end
        invariant
            start <= i <= end <= chars@.len(),
            out@ == chars@.subrange(start as int, i as int),
        decreases end - i,
    {
        out.push(chars[i]);
        i += 1;
        proof {
            assert(out@ =~= chars@.subrange(start as int, i as int));
        }
    }
    out
}

/// A copy of some characters in a row.
pub fn chars_between(chars: &Vec<char>, start: usize, end: usize) -> (out: Vec<char>)
    requires
        start <= end <= chars@.len(),
    ensures
        out@ == chars@.subrange(start as int, end as int),
{
    let mut out: Vec<char> = Vec::new();
    let mut i: usize = start;
    while i < end
        invariant
            start <= i <= end <= chars@.len(),
            out@ == chars@.subrange(start as int, i as int),
        decreases end - i,
    {
        out.push(chars[i]);
        i += 1;
        proof {
            assert(out@ =~= chars@.subrange(start as int, i as int));
        }
    }
    out
}

/// Where a character first occurs at or after a position.
pub open spec fn first_from(text: Seq<char>, c: char, i: int) -> Option<int>
    decreases text.len() - i,
{
    if i >= text.len() {
        None
    } else if text[i] == c {
        Some(i)
    } else {
        first_from(text, c, i + 1)
    }
}

/// Where a character first occurs.
pub open spec fn first_index(text: Seq<char>, c: char) -> Option<int> {
    first_from(text, c, 0)
}

/// Where a character last occurs.
pub open spec fn last_index(text: Seq<char>, c: char) -> Option<int>
    decreases text.len(),
{
    if text.len() == 0 {
        None
    } else if text.last() == c {
        Some(text.len() - 1)
    } else {
        last_index(text.drop_last(), c)
    }
}

/// The first occurrence is one, and nothing before it is.
pub proof fn lemma_first_from(text: Seq<char>, c: char, i: int)
    requires
        0 <= i,
    ensures
        match first_from(text, c, i) {
            Some(k) => i <= k < text.len() && text[k] == c && forall|j: int|
                i <= j < k ==> #[trigger] text[j] != c,
            None => forall|j: int| i <= j < text.len() ==> #[trigger] text[j] != c,
        },
    decreases text.len() - i,
{
    if i < text.len() && text[i] != c {
        lemma_first_from(text, c, i + 1);
    }
}

/// A position that holds the character, with none before it, is the first occurrence.
pub proof fn lemma_is_first(text: Seq<char>, c: char, i: int, k: int)
    requires
        0 <= i <= k < text.len(),
        text[k] == c,
        forall|j: int| i <= j < k ==> #[trigger] text[j] != c,
    ensures
        first_from(text, c, i) == Some(k),
    decreases k - i,
{
    if i < k {
        lemma_is_first(text, c, i + 1, k);
    }
}

/// A text without the character has no first occurrence of it.
pub proof fn lemma_is_absent(text: Seq<char>, c: char, i: int)
    requires
        0 <= i,
        forall|j: int| i <= j < text.len() ==> #[trigger] text[j] != c,
    ensures
        first_from(text, c, i) is None,
    decreases text.len() - i,
{
    if i < text.len() {
        lemma_is_absent(text, c, i + 1);
    }
}

/// Finds where a character first occurs.
pub fn find_char(text: &Vec<char>, c: char) -> (r: Option<usize>)
    ensures
        match first_index(text@, c) {
            Some(k) => r matches Some(i) && i == k && i < text@.len(),
            None => r is None,
        },
{
    let mut i: usize = 0;
    while i < text.len()
        invariant
            i <= text@.len(),
            first_index(text@, c) == first_from(text@, c, i as int),
        decreases text@.len() - i,
    {
        if text[i] == c {
            return Some(i);
        }
        i += 1;
    }
    None
}

/// Finds where a character last occurs.
pub fn find_last_char(text: &Vec<char>, c: char) -> (r: Option<usize>)
    ensures
        match last_index(text@, c) {
            Some(k) => r matches Some(i) && i == k && i < text@.len(),
            None => r is None,
        },
{
    let mut end: usize = text.len();
    proof {
        assert(text@.take(end as int) =~= text@);
    }
    while end > 0
        invariant
            end <= text@.len(),
            last_index(text@, c) == last_index(text@.take(end as int), c),
        decreases end,
    {
        proof {
            assert(text@.take(end as int).drop_last() =~= text@.take(end - 1));
        }
        if text[end - 1] == c {
            return Some(end - 1);
        }
        end -= 1;
    }
    None
}

/// Whether two texts are the same.
pub fn same_chars(left: &Vec<char>, right: &Vec<char>) -> (same: bool)
    ensures
        same == (left@ == right@),
{
    if left.len() != right.len() {
        return false;
    }
    let mut i: usize = 0;
    while i < left.len()
        invariant
            i <= left@.len() == right@.len(),
            forall|j: int| 0 <= j < i ==> #[trigger] left@[j] == right@[j],
        decreases left@.len() - i,
    {
        if left[i] != right[i] {
            return false;
        }
        i += 1;
    }
    proof {
        assert(left@ =~= right@);
    }
    true
}

/// The number that digits stand for in a base, most significant first.
pub open spec fn number_in(text: Seq<char>, base: nat) -> nat
    decreases text.len(),
{
    if text.len() == 0 {
        0
    } else {
        let c = text.last();
        base * number_in(text.drop_last(), base) + if '0' <= c && c <= '9' {
            (c as nat - 48) as nat
        } else {
            (c as nat - 87) as nat
        }
    }
}

/// A number in decimal digits stands for itself, and starts with a zero only where it is zero.
pub proof fn law_decimal_stands_for_the_number(n: nat)
    ensures
        number_in(decimal(n), 10) == n,
        decimal(n).len() > 0,
        decimal(n)[0] == '0' <==> n == 0,
        forall|i: int|
            0 <= i < decimal(n).len() ==> '0' <= #[trigger] decimal(n)[i] && decimal(n)[i] <= '9',
    decreases n,
{
    let text = decimal(n);
    assert(number_in(Seq::<char>::empty(), 10) == 0);
    if n < 10 {
        assert(text.drop_last() =~= Seq::<char>::empty());
        assert(text.last() == digit(n));
    } else {
        let front = decimal(n / 10);
        law_decimal_stands_for_the_number(n / 10);
        assert(text.drop_last() =~= front);
        assert(text.last() == digit(n % 10));
        assert(text[0] == front[0]);
        assert forall|i: int| 0 <= i < text.len() implies '0' <= #[trigger] text[i] && text[i]
            <= '9' by {
            if i < front.len() {
                assert(text[i] == front[i]);
            }
        }
    }
}

/// How many numbers some hexadecimal digits can tell apart.
pub open spec fn hex_range(width: nat) -> nat
    decreases width,
{
    if width == 0 {
        1
    } else {
        16 * hex_range((width - 1) as nat)
    }
}

/// A number in as many hexadecimal digits as it takes, or more, stands for itself, in small
/// letters.
pub proof fn law_hex_stands_for_the_number(n: nat, width: nat)
    requires
        n < hex_range(width),
    ensures
        number_in(hex(n, width), 16) == n,
        hex(n, width).len() == width,
        forall|i: int|
            0 <= i < width ==> ('0' <= #[trigger] hex(n, width)[i] && hex(n, width)[i] <= '9') || (
            'a' <= hex(n, width)[i] && hex(n, width)[i] <= 'f'),
    decreases width,
{
    if width > 0 {
        let text = hex(n, width);
        let front = hex(n / 16, (width - 1) as nat);
        law_hex_stands_for_the_number(n / 16, (width - 1) as nat);
        assert(text.drop_last() =~= front);
        assert(text.last() == digit(n % 16));
        assert forall|i: int| 0 <= i < width implies ('0' <= #[trigger] text[i] && text[i] <= '9')
            || ('a' <= text[i] && text[i] <= 'f') by {
            if i < width - 1 {
                assert(text[i] == front[i]);
            }
        }
    }
}

} // verus!
