//! Addresses piece by piece: what each piece of a text says.

use crate::text::{decimal, digit, is_digit, last_index, lemma_is_absent, lemma_is_first};
use crate::transport::{
    decimal_value, is_port, mark_from, parsed_part, parsed_query, parsed_url, query_text,
    tcp_problem, url_text, value_of, TransportScheme, UrlProblem, UrlView,
};
use vstd::prelude::*;

verus! {

/// The name of a scheme.
pub open spec fn scheme_name(scheme: TransportScheme) -> Seq<char> {
    match scheme {
        TransportScheme::Shm => seq!['s', 'h', 'm'],
        TransportScheme::Bus => seq!['b', 'u', 's'],
        TransportScheme::Unix => seq!['u', 'n', 'i', 'x'],
        TransportScheme::Tcp => seq!['t', 'c', 'p'],
    }
}

/// What stands between the scheme and the target.
pub open spec fn mark() -> Seq<char> {
    seq![':', '/', '/']
}

/// Whether a character does not occur in a text.
pub open spec fn lacks(text: Seq<char>, c: char) -> bool {
    forall|i: int| 0 <= i < text.len() ==> #[trigger] text[i] != c
}

/// The names and the mark are those written out here.
proof fn lemma_literals(scheme: TransportScheme)
    ensures
        scheme.name() == scheme_name(scheme),
        TransportScheme::named(scheme_name(scheme)) == Some(scheme),
        "://"@ == mark(),
        "host"@ == seq!['h', 'o', 's', 't'],
{
    reveal_strlit("shm");
    reveal_strlit("bus");
    reveal_strlit("unix");
    reveal_strlit("tcp");
    reveal_strlit("://");
    reveal_strlit("host");
    assert("shm"@ =~= seq!['s', 'h', 'm']);
    assert("bus"@ =~= seq!['b', 'u', 's']);
    assert("unix"@ =~= seq!['u', 'n', 'i', 'x']);
    assert("tcp"@ =~= seq!['t', 'c', 'p']);
    assert("://"@ =~= mark());
    assert("host"@ =~= seq!['h', 'o', 's', 't']);
    assert(seq!['s', 'h', 'm'][0] == 's');
    assert(seq!['b', 'u', 's'][0] == 'b');
    assert(seq!['u', 'n', 'i', 'x'][0] == 'u');
    assert(seq!['t', 'c', 'p'][0] == 't');
}

/// Where the first colon starts the mark, the mark is found there.
proof fn lemma_mark(text: Seq<char>, i: int, k: int)
    requires
        0 <= i <= k,
        k + 3 <= text.len(),
        text[k] == ':' && text[k + 1] == '/' && text[k + 2] == '/',
        forall|j: int| i <= j < k ==> #[trigger] text[j] != ':',
    ensures
        mark_from(text, i) == Some(k),
    decreases k - i,
{
    if i < k {
        lemma_mark(text, i + 1, k);
    }
}

/// Where there is no mark, none is found.
proof fn lemma_no_mark(text: Seq<char>, i: int)
    requires
        0 <= i,
        forall|j: int|
            i <= j && j + 3 <= text.len() ==> !(#[trigger] text[j] == ':' && text[j + 1] == '/'
                && text[j + 2] == '/'),
    ensures
        mark_from(text, i) is None,
    decreases text.len() - i,
{
    if i + 3 <= text.len() {
        lemma_no_mark(text, i + 1);
    }
}

/// An address is split at the mark and at the first question mark: in front stands the scheme,
/// then the target, then the query. An empty target is refused with what it should be, one of a
/// TCP address that is wrong with what is wrong, and a query with its first wrong part.
pub proof fn law_address_is_its_pieces(
    scheme: TransportScheme,
    target: Seq<char>,
    query: Option<Seq<char>>,
)
    requires
        lacks(target, '?'),
    ensures
        ({
            let asked = match query {
                None => Seq::<char>::empty(),
                Some(q) => q,
            };
            let text = scheme_name(scheme) + mark() + target + match query {
                None => seq![],
                Some(q) => seq!['?'] + q,
            };
            if target.len() == 0 {
                parsed_url(text) == Err::<UrlView, UrlProblem>(
                    UrlProblem::MissingTarget(
                        match scheme {
                            TransportScheme::Shm => "channel name"@,
                            TransportScheme::Bus => "topic"@,
                            TransportScheme::Unix => "socket path"@,
                            TransportScheme::Tcp => "host:port"@,
                        },
                    ),
                )
            } else if scheme is Tcp && tcp_problem(target) is Some {
                parsed_url(text) == Err::<UrlView, UrlProblem>(tcp_problem(target)->0)
            } else {
                match parsed_query(asked) {
                    Err(e) => parsed_url(text) == Err::<UrlView, UrlProblem>(e),
                    Ok(pairs) => parsed_url(text) == Ok::<UrlView, UrlProblem>(
                        UrlView { scheme, target, query: pairs },
                    ),
                }
            }
        }),
{
    let name = scheme_name(scheme);
    let tail = match query {
        None => Seq::<char>::empty(),
        Some(q) => seq!['?'] + q,
    };
    let text = name + mark() + target + tail;
    let k = name.len() as int;
    lemma_literals(scheme);
    assert(text[k] == ':' && text[k + 1] == '/' && text[k + 2] == '/');
    assert forall|j: int| 0 <= j < k implies #[trigger] text[j] != ':' by {
        assert(text[j] == name[j]);
    }
    lemma_mark(text, 0, k);
    let rest = text.skip(k + 3);
    assert(text.take(k) =~= name);
    assert(rest =~= target + tail);
    match query {
        None => {
            assert(rest =~= target);
            lemma_is_absent(rest, '?', 0);
        },
        Some(q) => {
            let n = target.len() as int;
            assert forall|j: int| 0 <= j < n implies #[trigger] rest[j] != '?' by {
                assert(rest[j] == target[j]);
            }
            assert(rest[n] == '?');
            lemma_is_first(rest, '?', 0, n);
            assert(rest.take(n) =~= target);
            assert(rest.skip(n + 1) =~= q);
        },
    }
}

/// A text without the mark, or with nothing in front of it, has no scheme; one with nothing at all
/// is empty; a scheme that is none of the four is refused by its name.
pub proof fn law_scheme_is_needed(text: Seq<char>, name: Seq<char>, rest: Seq<char>)
    requires
        lacks(name, ':'),
        name.len() > 0,
        forall|scheme: TransportScheme| #[trigger] scheme_name(scheme) != name,
        text.len() > 0,
        forall|j: int|
            0 <= j && j + 3 <= text.len() ==> !(#[trigger] text[j] == ':' && text[j + 1] == '/'
                && text[j + 2] == '/'),
    ensures
        parsed_url(seq![]) == Err::<UrlView, UrlProblem>(UrlProblem::EmptyUrl),
        parsed_url(text) == Err::<UrlView, UrlProblem>(UrlProblem::MissingScheme),
        parsed_url(mark() + rest) == Err::<UrlView, UrlProblem>(UrlProblem::MissingScheme),
        parsed_url(name + mark() + rest) == Err::<UrlView, UrlProblem>(
            UrlProblem::UnsupportedScheme(name),
        ),
{
    lemma_no_mark(seq![], 0);
    lemma_no_mark(text, 0);
    lemma_mark(mark() + rest, 0, 0);
    let whole = name + mark() + rest;
    let k = name.len() as int;
    assert forall|j: int| 0 <= j < k implies #[trigger] whole[j] != ':' by {
        assert(whole[j] == name[j]);
    }
    lemma_mark(whole, 0, k);
    assert(whole.take(k) =~= name);
    if TransportScheme::named(name) is Some {
        let scheme = TransportScheme::named(name)->0;
        lemma_literals(scheme);
        assert(scheme_name(scheme) == name);
    }
}

/// A pair or nothing, as it stands in a query.
pub open spec fn part_text(part: Option<(Seq<char>, Seq<char>)>) -> Seq<char> {
    match part {
        None => seq![],
        Some((key, value)) => key + seq!['='] + value,
    }
}

/// Whether a pair or nothing can stand between two ampersands: there is a key, without an equals
/// sign.
pub open spec fn is_part(part: Option<(Seq<char>, Seq<char>)>) -> bool {
    part matches Some((key, value)) ==> key.len() > 0 && lacks(key, '=') && lacks(key, '&')
        && lacks(value, '&')
}

/// The parts of a query, each with an ampersand behind it.
pub open spec fn parts_text(parts: Seq<Option<(Seq<char>, Seq<char>)>>) -> Seq<char>
    decreases parts.len(),
{
    if parts.len() == 0 {
        seq![]
    } else {
        part_text(parts[0]) + seq!['&'] + parts_text(parts.skip(1))
    }
}

/// The pairs among the parts of a query.
pub open spec fn pairs_of(parts: Seq<Option<(Seq<char>, Seq<char>)>>) -> Seq<
    (Seq<char>, Seq<char>),
>
    decreases parts.len(),
{
    if parts.len() == 0 {
        seq![]
    } else {
        match parts[0] {
            None => pairs_of(parts.skip(1)),
            Some(pair) => seq![pair] + pairs_of(parts.skip(1)),
        }
    }
}

/// A part says its pair.
proof fn lemma_part(part: Option<(Seq<char>, Seq<char>)>)
    requires
        is_part(part),
    ensures
        lacks(part_text(part), '&'),
        parsed_part(part_text(part)) == Ok::<Seq<(Seq<char>, Seq<char>)>, UrlProblem>(
            match part {
                None => seq![],
                Some(pair) => seq![pair],
            },
        ),
{
    match part {
        None => {},
        Some((key, value)) => {
            let text = part_text(part);
            let k = key.len() as int;
            assert forall|j: int| 0 <= j < k implies #[trigger] text[j] != '=' by {
                assert(text[j] == key[j]);
            }
            assert(text[k] == '=');
            lemma_is_first(text, '=', 0, k);
            assert(text.take(k) =~= key);
            assert(text.skip(k + 1) =~= value);
            assert forall|j: int| 0 <= j < text.len() implies #[trigger] text[j] != '&' by {
                if j < k {
                    assert(text[j] == key[j]);
                } else if j > k {
                    assert(text[j] == value[j - k - 1]);
                }
            }
        },
    }
}

/// Parts in front of a query are read one by one.
proof fn lemma_parts(parts: Seq<Option<(Seq<char>, Seq<char>)>>, rest: Seq<char>)
    requires
        forall|i: int| 0 <= i < parts.len() ==> is_part(#[trigger] parts[i]),
    ensures
        parsed_query(parts_text(parts) + rest) == match parsed_query(rest) {
            Err(e) => Err::<Seq<(Seq<char>, Seq<char>)>, UrlProblem>(e),
            Ok(pairs) => Ok(pairs_of(parts) + pairs),
        },
    decreases parts.len(),
{
    if parts.len() == 0 {
        assert(parts_text(parts) + rest =~= rest);
        assert(parsed_query(rest) matches Ok(pairs) ==> pairs_of(parts) + pairs =~= pairs);
    } else {
        let first = part_text(parts[0]);
        let more = parts_text(parts.skip(1)) + rest;
        let text = parts_text(parts) + rest;
        let k = first.len() as int;
        assert(is_part(parts[0]));
        lemma_part(parts[0]);
        assert forall|i: int| 0 <= i < parts.skip(1).len() implies is_part(
            #[trigger] parts.skip(1)[i],
        ) by {
            assert(parts.skip(1)[i] == parts[i + 1]);
        }
        lemma_parts(parts.skip(1), rest);
        assert(text =~= first + seq!['&'] + more);
        assert forall|j: int| 0 <= j < k implies #[trigger] text[j] != '&' by {
            assert(text[j] == first[j]);
        }
        assert(text[k] == '&');
        lemma_is_first(text, '&', 0, k);
        assert(text.take(k) =~= first);
        assert(text.skip(k + 1) =~= more);
        match parsed_query(rest) {
            Err(_) => {},
            Ok(pairs) => {
                let back = pairs_of(parts.skip(1)) + pairs;
                match parts[0] {
                    None => {
                        assert(Seq::<(Seq<char>, Seq<char>)>::empty() + back =~= back);
                    },
                    Some(pair) => {
                        assert(seq![pair] + back =~= pairs_of(parts) + pairs);
                    },
                }
            },
        }
    }
}

/// A query is read part by part between the ampersands: each says its pair, split at the first
/// equals sign, and those without characters say nothing.
pub proof fn law_query_is_its_parts(
    parts: Seq<Option<(Seq<char>, Seq<char>)>>,
    last: Option<(Seq<char>, Seq<char>)>,
)
    requires
        forall|i: int| 0 <= i < parts.len() ==> is_part(#[trigger] parts[i]),
        is_part(last),
    ensures
        parsed_query(parts_text(parts) + part_text(last)) == Ok::<
            Seq<(Seq<char>, Seq<char>)>,
            UrlProblem,
        >(
            pairs_of(parts) + match last {
                None => seq![],
                Some(pair) => seq![pair],
            },
        ),
{
    lemma_part(last);
    lemma_is_absent(part_text(last), '&', 0);
    lemma_parts(parts, part_text(last));
}

/// The first part that has characters and no key in front of an equals sign is refused.
pub proof fn law_part_without_a_key_is_refused(
    parts: Seq<Option<(Seq<char>, Seq<char>)>>,
    wrong: Seq<char>,
    more: Option<Seq<char>>,
)
    requires
        forall|i: int| 0 <= i < parts.len() ==> is_part(#[trigger] parts[i]),
        wrong.len() > 0,
        lacks(wrong, '&'),
        lacks(wrong, '=') || wrong[0] == '=',
    ensures
        parsed_query(
            parts_text(parts) + wrong + match more {
                None => seq![],
                Some(text) => seq!['&'] + text,
            },
        ) == Err::<Seq<(Seq<char>, Seq<char>)>, UrlProblem>(UrlProblem::InvalidQuery(wrong)),
{
    let tail = match more {
        None => Seq::<char>::empty(),
        Some(text) => seq!['&'] + text,
    };
    let rest = wrong + tail;
    if wrong[0] == '=' {
        lemma_is_first(wrong, '=', 0, 0);
    } else {
        lemma_is_absent(wrong, '=', 0);
    }
    match more {
        None => {
            assert(rest =~= wrong);
            lemma_is_absent(rest, '&', 0);
        },
        Some(text) => {
            let k = wrong.len() as int;
            assert forall|j: int| 0 <= j < k implies #[trigger] rest[j] != '&' by {
                assert(rest[j] == wrong[j]);
            }
            assert(rest[k] == '&');
            lemma_is_first(rest, '&', 0, k);
            assert(rest.take(k) =~= wrong);
        },
    }
    lemma_parts(parts, rest);
    assert(parts_text(parts) + wrong + tail =~= parts_text(parts) + rest);
}

/// The value of a key is that of the first pair with it, and there is none without such a pair.
pub proof fn law_first_value_counts(
    query: Seq<(Seq<char>, Seq<char>)>,
    key: Seq<char>,
    at: int,
)
    ensures
        0 <= at < query.len() && query[at].0 == key && (forall|i: int|
            0 <= i < at ==> (#[trigger] query[i]).0 != key) ==> value_of(query, key) == Some(
            query[at].1,
        ),
        (forall|i: int| 0 <= i < query.len() ==> (#[trigger] query[i]).0 != key) ==> value_of(
            query,
            key,
        ) is None,
    decreases query.len(),
{
    if query.len() > 0 {
        let rest = query.skip(1);
        law_first_value_counts(rest, key, at - 1);
        if 0 < at < query.len() && query[at].0 == key && (forall|i: int|
            0 <= i < at ==> (#[trigger] query[i]).0 != key) {
            assert(query[0].0 != key);
            assert(rest[at - 1] == query[at]);
            assert forall|i: int| 0 <= i < at - 1 implies (#[trigger] rest[i]).0 != key by {
                assert(rest[i] == query[i + 1]);
            }
        }
        if forall|i: int| 0 <= i < query.len() ==> (#[trigger] query[i]).0 != key {
            assert(query[0].0 != key);
            assert forall|i: int| 0 <= i < rest.len() implies (#[trigger] rest[i]).0 != key by {
                assert(rest[i] == query[i + 1]);
            }
        }
    }
}

/// An address is written as its scheme, the mark, its target, and its pairs behind a question mark
/// with ampersands between them.
pub proof fn law_address_is_written_from_its_pieces(
    scheme: TransportScheme,
    target: Seq<char>,
    query: Seq<(Seq<char>, Seq<char>)>,
    pair: (Seq<char>, Seq<char>),
)
    ensures
        url_text(UrlView { scheme, target, query: seq![] }) == scheme_name(scheme) + mark()
            + target,
        url_text(UrlView { scheme, target, query: seq![pair] }) == scheme_name(scheme) + mark()
            + target + seq!['?'] + pair.0 + seq!['='] + pair.1,
        query.len() > 0 ==> url_text(UrlView { scheme, target, query: query.push(pair) })
            == url_text(UrlView { scheme, target, query }) + seq!['&'] + pair.0 + seq!['=']
            + pair.1,
{
    lemma_literals(scheme);
    let none = Seq::<(Seq<char>, Seq<char>)>::empty();
    let one = seq![pair];
    assert(url_text(UrlView { scheme, target, query: none }) =~= scheme_name(scheme) + mark()
        + target);
    assert(one.skip(1) =~= none);
    assert(query_text('&', none) =~= seq![]);
    assert(url_text(UrlView { scheme, target, query: one }) =~= scheme_name(scheme) + mark()
        + target + seq!['?'] + pair.0 + seq!['='] + pair.1);
    if query.len() > 0 {
        lemma_query_push('?', query, pair);
        assert(url_text(UrlView { scheme, target, query: query.push(pair) }) =~= url_text(
            UrlView { scheme, target, query },
        ) + seq!['&'] + pair.0 + seq!['='] + pair.1);
    }
}

/// One pair more stands at the end of a query.
proof fn lemma_query_push(
    first: char,
    query: Seq<(Seq<char>, Seq<char>)>,
    pair: (Seq<char>, Seq<char>),
)
    requires
        query.len() > 0,
    ensures
        query_text(first, query.push(pair)) == query_text(first, query) + seq!['&'] + pair.0
            + seq!['='] + pair.1,
    decreases query.len(),
{
    let longer = query.push(pair);
    let rest = query.skip(1);
    assert(longer.skip(1) =~= rest.push(pair));
    assert(longer[0] == query[0]);
    if rest.len() == 0 {
        let one = rest.push(pair);
        assert(one.skip(1) =~= Seq::<(Seq<char>, Seq<char>)>::empty());
        assert(query_text('&', one.skip(1)) =~= seq![]);
        assert(query_text('&', rest) =~= seq![]);
        assert(one[0] == pair);
        assert(query_text('&', one) =~= seq!['&'] + pair.0 + seq!['='] + pair.1);
    } else {
        lemma_query_push('&', rest, pair);
    }
    assert(query_text(first, longer) =~= query_text(first, query) + seq!['&'] + pair.0 + seq!['=']
        + pair.1);
}

/// Where a character does not occur behind a place, it last occurs there.
proof fn lemma_is_last(text: Seq<char>, c: char, k: int)
    requires
        0 <= k < text.len(),
        text[k] == c,
        forall|j: int| k < j < text.len() ==> #[trigger] text[j] != c,
    ensures
        last_index(text, c) == Some(k),
    decreases text.len(),
{
    if k < text.len() - 1 {
        assert(text.last() == text[text.len() - 1]);
        lemma_is_last(text.drop_last(), c, k);
    }
}

/// Where a character does not occur, it does not last occur.
proof fn lemma_is_nowhere(text: Seq<char>, c: char)
    requires
        lacks(text, c),
    ensures
        last_index(text, c) is None,
    decreases text.len(),
{
    if text.len() > 0 {
        assert(text.last() == text[text.len() - 1]);
        lemma_is_nowhere(text.drop_last(), c);
    }
}

/// The target of a TCP address is a host, the last colon, a port, and a path behind a slash, where
/// there is one. Without a colon or without a host it is incomplete, and otherwise the port must be
/// one.
pub proof fn law_tcp_target_is_its_pieces(host: Seq<char>, port: Seq<char>, path: Option<Seq<char>>)
    requires
        lacks(port, ':'),
        lacks(port, '/'),
        path matches Some(p) ==> lacks(p, ':'),
    ensures
        ({
            let target = host + seq![':'] + port + match path {
                None => seq![],
                Some(p) => seq!['/'] + p,
            };
            tcp_problem(target) == if host.len() == 0 {
                Some(UrlProblem::MissingTarget(seq!['h', 'o', 's', 't']))
            } else if is_port(port) {
                None
            } else {
                Some(UrlProblem::InvalidPort(port))
            }
        }),
        lacks(host, ':') ==> tcp_problem(host) == Some(UrlProblem::MissingTarget("host:port"@)),
{
    lemma_literals(TransportScheme::Tcp);
    if lacks(host, ':') {
        lemma_is_nowhere(host, ':');
    }
    let tail = match path {
        None => Seq::<char>::empty(),
        Some(p) => seq!['/'] + p,
    };
    let target = host + seq![':'] + port + tail;
    let k = host.len() as int;
    let n = port.len() as int;
    assert forall|j: int| k < j < target.len() implies #[trigger] target[j] != ':' by {
        if j < k + 1 + n {
            assert(target[j] == port[j - k - 1]);
        } else if j > k + 1 + n {
            assert(target[j] == path->0[j - k - n - 2]);
        }
    }
    assert(target[k] == ':');
    lemma_is_last(target, ':', k);
    let rest = target.skip(k + 1);
    assert(rest =~= port + tail);
    match path {
        None => {
            assert(rest =~= port);
            lemma_is_absent(rest, '/', 0);
        },
        Some(p) => {
            assert forall|j: int| 0 <= j < n implies #[trigger] rest[j] != '/' by {
                assert(rest[j] == port[j]);
            }
            assert(rest[n] == '/');
            lemma_is_first(rest, '/', 0, n);
            assert(rest.take(n) =~= port);
        },
    }
}

/// The number that digits stand for is that of the digits.
proof fn lemma_decimal_value(n: nat)
    ensures
        decimal_value(decimal(n)) == n,
        decimal(n).len() > 0,
        forall|i: int| 0 <= i < decimal(n).len() ==> is_digit(#[trigger] decimal(n)[i]),
        decimal(n)[0] != '+',
    decreases n,
{
    assert(decimal_value(Seq::<char>::empty()) == 0);
    if n < 10 {
        assert(decimal(n).drop_last() =~= Seq::<char>::empty());
        assert(decimal(n).last() == digit(n));
    } else {
        lemma_decimal_value(n / 10);
        let front = decimal(n / 10);
        assert(decimal(n).drop_last() =~= front);
        assert(decimal(n).last() == digit(n % 10));
        assert forall|i: int| 0 <= i < decimal(n).len() implies is_digit(
            #[trigger] decimal(n)[i],
        ) by {
            if i < front.len() {
                assert(decimal(n)[i] == front[i]);
            }
        }
        assert(decimal(n)[0] == front[0]);
    }
}

/// Zeros in front change no number.
proof fn lemma_leading_zero(digits: Seq<char>)
    ensures
        decimal_value(seq!['0'] + digits) == decimal_value(digits),
    decreases digits.len(),
{
    let longer = seq!['0'] + digits;
    assert(decimal_value(Seq::<char>::empty()) == 0);
    if digits.len() == 0 {
        assert(longer.drop_last() =~= Seq::<char>::empty());
        assert(longer.last() == '0');
    } else {
        assert(longer.drop_last() =~= seq!['0'] + digits.drop_last());
        assert(longer.last() == digits.last());
        lemma_leading_zero(digits.drop_last());
    }
}

/// A port is a number up to 65535 in decimal digits. Zeros and a plus sign may stand in front;
/// anything else, or nothing, is no port.
pub proof fn law_ports_are_numbers(n: nat, text: Seq<char>, at: int)
    ensures
        is_port(decimal(n)) <==> n <= 65535,
        is_port(seq!['+'] + decimal(n)) <==> n <= 65535,
        is_port(seq!['0'] + decimal(n)) <==> n <= 65535,
        !is_port(seq![]),
        !is_port(seq!['+']),
        0 <= at < text.len() && !(('0' <= text[at] && text[at] <= '9') || (at == 0 && text[at]
            == '+')) ==> !is_port(text),
{
    lemma_decimal_value(n);
    lemma_leading_zero(decimal(n));
    let signed = seq!['+'] + decimal(n);
    assert(signed.skip(1) =~= decimal(n));
    let padded = seq!['0'] + decimal(n);
    assert forall|i: int| 0 <= i < padded.len() implies is_digit(#[trigger] padded[i]) by {
        if i > 0 {
            assert(padded[i] == decimal(n)[i - 1]);
        }
    }
    assert(decimal(n)[0] != '+');
    if 0 <= at < text.len() && !(('0' <= text[at] && text[at] <= '9') || (at == 0 && text[at]
        == '+')) {
        if text[0] == '+' {
            assert(text.skip(1)[at - 1] == text[at]);
        }
    }
}

} // verus!
