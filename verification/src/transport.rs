//! Transport addresses: `scheme://target?key1=value1&key2=value2`.

use crate::error::{DslineError, TransportError};
use crate::text::{
    all_digits, chars_between, chars_of, find_char, find_last_char, first_index, is_digit,
    last_index, lemma_first_from, lemma_is_absent, lemma_is_first, same_chars, text_of,
};
use std::str::FromStr;
use vstd::prelude::*;
use vstd::string::*;

verus! {

/// The kinds of transport.
#[derive(Debug, Clone, Copy, PartialEq, Eq, Structural)]
pub enum TransportScheme {
    /// A shared-memory channel: `shm://name?capacity=1024&slot_size=4096`.
    Shm,
    /// A bus with many consumers: `bus://topic`.
    Bus,
    /// A Unix domain socket: `unix:///path/to/socket`.
    Unix,
    /// A TCP socket: `tcp://host:port/topic`.
    Tcp,
}

impl TransportScheme {
    /// The name of a scheme in an address.
    pub open spec fn name(self) -> Seq<char> {
        match self {
            TransportScheme::Shm => "shm"@,
            TransportScheme::Bus => "bus"@,
            TransportScheme::Unix => "unix"@,
            TransportScheme::Tcp => "tcp"@,
        }
    }

    /// The scheme that a name stands for.
    pub open spec fn named(name: Seq<char>) -> Option<TransportScheme> {
        if name == "shm"@ {
            Some(TransportScheme::Shm)
        } else if name == "bus"@ {
            Some(TransportScheme::Bus)
        } else if name == "unix"@ {
            Some(TransportScheme::Unix)
        } else if name == "tcp"@ {
            Some(TransportScheme::Tcp)
        } else {
            None
        }
    }

    /// The name of this scheme in an address.
    pub fn as_str(&self) -> (name: &'static str)
        ensures
            name@ == self.name(),
    {
        match self {
            TransportScheme::Shm => "shm",
            TransportScheme::Bus => "bus",
            TransportScheme::Unix => "unix",
            TransportScheme::Tcp => "tcp",
        }
    }

    /// The scheme that a name stands for.
    pub fn from_str(s: &str) -> (r: Result<TransportScheme, DslineError>)
        ensures
            match TransportScheme::named(s@) {
                Some(scheme) => r == Ok::<TransportScheme, DslineError>(scheme),
                None => r matches Err(DslineError::Transport(e)) && e@
                    == UrlProblem::UnsupportedScheme(s@),
            },
    {
        Self::from_chars(&chars_of(s))
    }

    /// The scheme that a name stands for.
    fn from_chars(name: &Vec<char>) -> (r: Result<TransportScheme, DslineError>)
        ensures
            match TransportScheme::named(name@) {
                Some(scheme) => r == Ok::<TransportScheme, DslineError>(scheme),
                None => r matches Err(DslineError::Transport(e)) && e@
                    == UrlProblem::UnsupportedScheme(name@),
            },
    {
        if same_chars(name, &chars_of("shm")) {
            Ok(TransportScheme::Shm)
        } else if same_chars(name, &chars_of("bus")) {
            Ok(TransportScheme::Bus)
        } else if same_chars(name, &chars_of("unix")) {
            Ok(TransportScheme::Unix)
        } else if same_chars(name, &chars_of("tcp")) {
            Ok(TransportScheme::Tcp)
        } else {
            let text = text_of(name, 0, name.len());
            proof {
                assert(text@ =~= name@);
            }
            Err(DslineError::Transport(TransportError::UnsupportedScheme(text)))
        }
    }
}

impl FromStr for TransportScheme {
    type Err = DslineError;

    fn from_str(s: &str) -> (r: Result<Self, DslineError>)
        ensures
            match TransportScheme::named(s@) {
                Some(scheme) => r == Ok::<TransportScheme, DslineError>(scheme),
                None => r matches Err(DslineError::Transport(e)) && e@
                    == UrlProblem::UnsupportedScheme(s@),
            },
    {
        TransportScheme::from_str(s)
    }
}

/// What is wrong with an address.
pub enum UrlProblem {
    EmptyUrl,
    MissingScheme,
    UnsupportedScheme(Seq<char>),
    MissingTarget(Seq<char>),
    InvalidPort(Seq<char>),
    InvalidQuery(Seq<char>),
}

impl View for TransportError {
    type V = UrlProblem;

    open spec fn view(&self) -> UrlProblem {
        match self {
            TransportError::EmptyUrl => UrlProblem::EmptyUrl,
            TransportError::MissingScheme => UrlProblem::MissingScheme,
            TransportError::UnsupportedScheme(s) => UrlProblem::UnsupportedScheme(s@),
            TransportError::MissingTarget(s) => UrlProblem::MissingTarget(s@),
            TransportError::InvalidPort(s) => UrlProblem::InvalidPort(s@),
            TransportError::InvalidQuery(s) => UrlProblem::InvalidQuery(s@),
        }
    }
}

/// A parsed address.
#[derive(Debug, Clone, PartialEq, Eq)]
pub struct TransportUrl {
    pub scheme: TransportScheme,
    target: String,
    query: Vec<(String, String)>,
}

/// What an address says.
#[verifier::ext_equal]
pub struct UrlView {
    pub scheme: TransportScheme,
    pub target: Seq<char>,
    pub query: Seq<(Seq<char>, Seq<char>)>,
}

/// The texts of a list of pairs.
pub open spec fn pair_texts(pairs: Seq<(String, String)>) -> Seq<(Seq<char>, Seq<char>)> {
    pairs.map_values(|pair: (String, String)| (pair.0@, pair.1@))
}

impl View for TransportUrl {
    type V = UrlView;

    closed spec fn view(&self) -> UrlView {
        UrlView { scheme: self.scheme, target: self.target@, query: pair_texts(self.query@) }
    }
}

/// Where `://` first occurs at or after a position.
pub open spec fn mark_from(text: Seq<char>, i: int) -> Option<int>
    decreases text.len() - i,
{
    if i + 3 > text.len() {
        None
    } else if text[i] == ':' && text[i + 1] == '/' && text[i + 2] == '/' {
        Some(i)
    } else {
        mark_from(text, i + 1)
    }
}

/// The text before a position that may be missing: up to there, or all of it.
pub open spec fn before(text: Seq<char>, at: Option<int>) -> Seq<char> {
    match at {
        Some(i) => text.take(i),
        None => text,
    }
}

/// The text after a position that may be missing: behind it, or nothing.
pub open spec fn after(text: Seq<char>, at: Option<int>) -> Seq<char> {
    match at {
        Some(i) => text.skip(i + 1),
        None => seq![],
    }
}

/// The number that decimal digits stand for.
pub open spec fn decimal_value(digits: Seq<char>) -> nat
    decreases digits.len(),
{
    if digits.len() == 0 {
        0
    } else {
        10 * decimal_value(digits.drop_last()) + (digits.last() as nat - 48) as nat
    }
}

/// Whether a text is a port number: digits that stand for a number of sixteen bits. A plus sign
/// may stand before them.
pub open spec fn is_port(text: Seq<char>) -> bool {
    let digits = without_plus(text);
    &&& digits.len() > 0
    &&& all_digits(digits)
    &&& decimal_value(digits) <= 65535
}

/// A text without the plus sign that it may start with.
pub open spec fn without_plus(text: Seq<char>) -> Seq<char> {
    if text.len() > 0 && text[0] == '+' {
        text.skip(1)
    } else {
        text
    }
}

/// What is wrong with the target of a TCP address, if anything. The port is what stands between
/// the last colon and the next slash.
pub open spec fn tcp_problem(target: Seq<char>) -> Option<UrlProblem> {
    match last_index(target, ':') {
        None => Some(UrlProblem::MissingTarget("host:port"@)),
        Some(colon) => {
            let rest = target.skip(colon + 1);
            let port = before(rest, first_index(rest, '/'));
            if colon == 0 {
                Some(UrlProblem::MissingTarget("host"@))
            } else if !is_port(port) {
                Some(UrlProblem::InvalidPort(port))
            } else {
                None
            }
        },
    }
}

/// The pair that a part of a query says, if it is not empty.
pub open spec fn parsed_part(part: Seq<char>) -> Result<
    Seq<(Seq<char>, Seq<char>)>,
    UrlProblem,
> {
    if part.len() == 0 {
        Ok(seq![])
    } else {
        match first_index(part, '=') {
            None => Err(UrlProblem::InvalidQuery(part)),
            Some(i) => if i == 0 {
                Err(UrlProblem::InvalidQuery(part))
            } else {
                Ok(seq![(part.take(i), part.skip(i + 1))])
            },
        }
    }
}

/// Two lists in a row, or the first error.
pub open spec fn joined(
    front: Result<Seq<(Seq<char>, Seq<char>)>, UrlProblem>,
    back: Result<Seq<(Seq<char>, Seq<char>)>, UrlProblem>,
) -> Result<Seq<(Seq<char>, Seq<char>)>, UrlProblem> {
    match front {
        Err(e) => Err(e),
        Ok(f) => match back {
            Err(e) => Err(e),
            Ok(b) => Ok(f + b),
        },
    }
}

/// The pairs that a query says, in order, or the first part that says none.
pub open spec fn parsed_query(query: Seq<char>) -> Result<Seq<(Seq<char>, Seq<char>)>, UrlProblem>
    decreases query.len(),
    via parsed_query_decreases
{
    match first_index(query, '&') {
        None => parsed_part(query),
        Some(i) => joined(parsed_part(query.take(i)), parsed_query(query.skip(i + 1))),
    }
}

#[via_fn]
proof fn parsed_query_decreases(query: Seq<char>) {
    lemma_first_from(query, '&', 0);
}

/// What a target is called where it is missing.
pub open spec fn target_word(scheme: TransportScheme) -> Seq<char> {
    match scheme {
        TransportScheme::Shm => "channel name"@,
        TransportScheme::Bus => "topic"@,
        TransportScheme::Unix => "socket path"@,
        TransportScheme::Tcp => "host:port"@,
    }
}

/// What an address says, or the first thing wrong with it.
pub open spec fn parsed_url(text: Seq<char>) -> Result<UrlView, UrlProblem> {
    match mark_from(text, 0) {
        None => if text.len() == 0 {
            Err(UrlProblem::EmptyUrl)
        } else {
            Err(UrlProblem::MissingScheme)
        },
        Some(mark) => {
            let rest = text.skip(mark + 3);
            let target = before(rest, first_index(rest, '?'));
            if mark == 0 {
                Err(UrlProblem::MissingScheme)
            } else {
                match TransportScheme::named(text.take(mark)) {
                    None => Err(UrlProblem::UnsupportedScheme(text.take(mark))),
                    Some(scheme) => if target.len() == 0 {
                        Err(UrlProblem::MissingTarget(target_word(scheme)))
                    } else if scheme == TransportScheme::Tcp && tcp_problem(target) is Some {
                        Err(tcp_problem(target)->0)
                    } else {
                        match parsed_query(after(rest, first_index(rest, '?'))) {
                            Err(e) => Err(e),
                            Ok(query) => Ok(UrlView { scheme, target, query }),
                        }
                    },
                }
            }
        },
    }
}

/// The text of a pair in a query.
pub open spec fn pair_text(pair: (Seq<char>, Seq<char>)) -> Seq<char> {
    pair.0 + seq!['='] + pair.1
}

/// The text of a list of pairs, the first character given and ampersands between them.
pub open spec fn query_text(first: char, query: Seq<(Seq<char>, Seq<char>)>) -> Seq<char>
    decreases query.len(),
{
    if query.len() == 0 {
        seq![]
    } else {
        seq![first] + pair_text(query[0]) + query_text('&', query.skip(1))
    }
}

/// The text of an address.
pub open spec fn url_text(url: UrlView) -> Seq<char> {
    url.scheme.name() + "://"@ + url.target + query_text('?', url.query)
}

/// The value of a key in a list of pairs: the first one counts.
pub open spec fn value_of(query: Seq<(Seq<char>, Seq<char>)>, key: Seq<char>) -> Option<Seq<char>>
    decreases query.len(),
{
    if query.len() == 0 {
        None
    } else if query[0].0 == key {
        Some(query[0].1)
    } else {
        value_of(query.skip(1), key)
    }
}

impl TransportUrl {
    /// The scheme: what stands before `://`.
    pub fn scheme(&self) -> (scheme: TransportScheme)
        ensures
            scheme == self@.scheme,
    {
        self.scheme
    }

    /// The target: what stands between `://` and `?`.
    pub fn target(&self) -> (target: &str)
        ensures
            target@ == self@.target,
    {
        self.target.as_str()
    }

    /// The value of a query parameter. Where a key occurs more than once, the first one counts.
    pub fn query_param(&self, key: &str) -> (value: Option<&str>)
        ensures
            match value_of(self@.query, key@) {
                Some(v) => value matches Some(text) && text@ == v,
                None => value is None,
            },
    {
        let wanted = key.to_owned();
        let ghost all = self@.query;
        let mut i: usize = 0;
        proof {
            assert(all.skip(0) =~= all);
        }
        while i < self.query.len()
            invariant
                i <= self.query@.len(),
                all == pair_texts(self.query@),
                wanted@ == key@,
                value_of(all, key@) == value_of(all.skip(i as int), key@),
            decreases self.query@.len() - i,
        {
            proof {
                assert(all.skip(i as int).skip(1) =~= all.skip(i + 1));
            }
            let pair = &self.query[i];
            proof {
                assert(all.skip(i as int)[0] == (pair.0@, pair.1@));
            }
            if pair.0 == wanted {
                return Some(pair.1.as_str());
            }
            i += 1;
        }
        None
    }

    /// All query parameters, in order of appearance.
    pub fn query_pairs(&self) -> (pairs: &[(String, String)])
        ensures
            pair_texts(pairs@) == self@.query,
    {
        self.query.as_slice()
    }

    /// The text of this address.
    pub fn to_url_string(&self) -> (text: String)
        ensures
            text@ == url_text(self@),
    {
        let mut text = self.scheme.as_str().to_owned();
        text.append("://");
        text.append(self.target.as_str());
        let ghost all = self@.query;
        let ghost base = text@;
        let mut i: usize = 0;
        proof {
            assert(all.skip(0) =~= all);
        }
        while i < self.query.len()
            invariant
                i <= self.query@.len(),
                all == pair_texts(self.query@),
                text@ + query_text(
                    if i == 0 {
                        '?'
                    } else {
                        '&'
                    },
                    all.skip(i as int),
                ) == base + query_text('?', all),
            decreases self.query@.len() - i,
        {
            let ghost before = text@;
            proof {
                assert(all.skip(i as int).skip(1) =~= all.skip(i + 1));
            }
            let sign = if i == 0 {
                '?'
            } else {
                '&'
            };
            text.push(sign);
            text.append(self.query[i].0.as_str());
            text.push('=');
            text.append(self.query[i].1.as_str());
            proof {
                let pair = all.skip(i as int)[0];
                assert(text@ =~= before + seq![sign] + pair_text(pair));
                assert(text@ + query_text('&', all.skip(i + 1)) =~= before + query_text(
                    sign,
                    all.skip(i as int),
                ));
            }
            i += 1;
        }
        proof {
            assert(all.skip(i as int).len() == 0);
            assert(text@ =~= url_text(self@));
        }
        text
    }

    /// Parses an address.
    pub fn from_str(s: &str) -> (r: Result<TransportUrl, DslineError>)
        ensures
            match parsed_url(s@) {
                Ok(url) => r is Ok && r->Ok_0@ == url,
                Err(problem) => r matches Err(DslineError::Transport(e)) && e@ == problem,
            },
    {
        let text = chars_of(s);
        let mark: usize = match find_mark(&text) {
            Some(mark) => mark,
            None => {
                if text.len() == 0 {
                    return Err(DslineError::Transport(TransportError::EmptyUrl));
                }
                return Err(DslineError::Transport(TransportError::MissingScheme));
            },
        };
        if mark == 0 {
            return Err(DslineError::Transport(TransportError::MissingScheme));
        }
        let scheme_part = chars_between(&text, 0, mark);
        proof {
            assert(scheme_part@ =~= text@.take(mark as int));
        }
        let scheme = match TransportScheme::from_chars(&scheme_part) {
            Ok(scheme) => scheme,
            Err(e) => {
                return Err(e);
            },
        };
        let end: usize = text.len();
        let rest = chars_between(&text, mark + 3, end);
        proof {
            assert(rest@ =~= text@.skip(mark + 3));
        }
        let (target, query_part) = split_at(&rest, '?');
        if target.len() == 0 {
            let word = match scheme {
                TransportScheme::Shm => "channel name",
                TransportScheme::Bus => "topic",
                TransportScheme::Unix => "socket path",
                TransportScheme::Tcp => "host:port",
            };
            return Err(DslineError::Transport(TransportError::MissingTarget(word)));
        }
        if scheme == TransportScheme::Tcp {
            match validate_tcp_target(&target) {
                Ok(()) => {},
                Err(e) => {
                    return Err(DslineError::Transport(e));
                },
            }
        }
        let query = match parse_query(query_part) {
            Ok(query) => query,
            Err(e) => {
                return Err(DslineError::Transport(e));
            },
        };
        let target = text_of(&target, 0, target.len());
        proof {
            assert(target@ =~= before(rest@, first_index(rest@, '?')));
        }
        Ok(TransportUrl { scheme, target, query })
    }
}

impl FromStr for TransportUrl {
    type Err = DslineError;

    fn from_str(s: &str) -> (r: Result<Self, DslineError>)
        ensures
            match parsed_url(s@) {
                Ok(url) => r is Ok && r->Ok_0@ == url,
                Err(problem) => r matches Err(DslineError::Transport(e)) && e@ == problem,
            },
    {
        TransportUrl::from_str(s)
    }
}

/// Finds where `://` first occurs.
fn find_mark(text: &Vec<char>) -> (r: Option<usize>)
    ensures
        match mark_from(text@, 0) {
            Some(k) => r matches Some(i) && i == k && i + 3 <= text@.len(),
            None => r is None,
        },
{
    let mut i: usize = 0;
    while i < text.len() && text.len() - i >= 3
        invariant
            i <= text@.len(),
            mark_from(text@, 0) == mark_from(text@, i as int),
        decreases text@.len() - i,
    {
        if text[i] == ':' && text[i + 1] == '/' && text[i + 2] == '/' {
            return Some(i);
        }
        i += 1;
    }
    None
}

/// What stands before and after the first occurrence of a character.
fn split_at(text: &Vec<char>, c: char) -> (r: (Vec<char>, Vec<char>))
    ensures
        r.0@ == before(text@, first_index(text@, c)),
        r.1@ == after(text@, first_index(text@, c)),
{
    let end: usize = text.len();
    match find_char(text, c) {
        Some(i) => {
            let front = chars_between(text, 0, i);
            let back = chars_between(text, i + 1, end);
            proof {
                assert(front@ =~= text@.take(i as int));
                assert(back@ =~= text@.skip(i + 1));
            }
            (front, back)
        },
        None => {
            let front = chars_between(text, 0, end);
            proof {
                assert(front@ =~= text@);
            }
            (front, Vec::new())
        },
    }
}

/// Whether a text is a port number.
fn parses_as_port(text: &Vec<char>) -> (ok: bool)
    ensures
        ok == is_port(text@),
{
    let start: usize = if text.len() > 0 && text[0] == '+' {
        1
    } else {
        0
    };
    let ghost digits = text@.skip(start as int);
    proof {
        assert(digits =~= without_plus(text@));
    }
    if start == text.len() {
        return false;
    }
    let mut value: u32 = 0;
    let mut i: usize = start;
    proof {
        assert(digits.take(0) =~= seq![]);
    }
    while i < text.len()
        invariant
            start <= i <= text@.len(),
            digits == text@.skip(start as int),
            digits == without_plus(text@),
            digits.len() > 0,
            forall|k: int| 0 <= k < i - start ==> is_digit(#[trigger] digits[k]),
            value <= 65536,
            value == if decimal_value(digits.take(i - start)) <= 65535 {
                decimal_value(digits.take(i - start)) as int
            } else {
                65536
            },
        decreases text@.len() - i,
    {
        let c = text[i];
        proof {
            assert(digits[i - start] == c);
            assert(digits.take(i + 1 - start).drop_last() =~= digits.take(i - start));
        }
        if c < '0' || c > '9' {
            return false;
        }
        let next: u32 = 10 * value + (c as u32 - 48);
        value = if next > 65535 {
            65536
        } else {
            next
        };
        i += 1;
    }
    proof {
        assert(digits.take(i - start) =~= digits);
    }
    value <= 65535
}

/// Checks the target of a TCP address.
fn validate_tcp_target(target: &Vec<char>) -> (r: Result<(), TransportError>)
    ensures
        match tcp_problem(target@) {
            Some(problem) => r matches Err(e) && e@ == problem,
            None => r is Ok,
        },
{
    let colon: usize = match find_last_char(target, ':') {
        Some(colon) => colon,
        None => {
            return Err(TransportError::MissingTarget("host:port"));
        },
    };
    let end: usize = target.len();
    let rest = chars_between(target, colon + 1, end);
    proof {
        assert(rest@ =~= target@.skip(colon + 1));
    }
    let (port, _path) = split_at(&rest, '/');
    if colon == 0 {
        return Err(TransportError::MissingTarget("host"));
    }
    if !parses_as_port(&port) {
        let text = text_of(&port, 0, port.len());
        proof {
            assert(text@ =~= port@);
        }
        return Err(TransportError::InvalidPort(text));
    }
    Ok(())
}

/// Reads one part of a query, if it is not empty.
fn parse_part(part: &Vec<char>) -> (r: Result<Option<(String, String)>, TransportError>)
    ensures
        match parsed_part(part@) {
            Ok(pairs) => match r {
                Ok(None) => pairs == Seq::<(Seq<char>, Seq<char>)>::empty(),
                Ok(Some(pair)) => pairs == seq![(pair.0@, pair.1@)],
                Err(_) => false,
            },
            Err(problem) => r matches Err(e) && e@ == problem,
        },
{
    if part.len() == 0 {
        return Ok(None);
    }
    match find_char(part, '=') {
        Some(i) => {
            if i > 0 {
                let key = text_of(part, 0, i);
                let end: usize = part.len();
                let value = text_of(part, i + 1, end);
                proof {
                    assert(key@ =~= part@.take(i as int));
                    assert(value@ =~= part@.skip(i + 1));
                }
                return Ok(Some((key, value)));
            }
        },
        None => {},
    }
    let text = text_of(part, 0, part.len());
    proof {
        assert(text@ =~= part@);
    }
    Err(TransportError::InvalidQuery(text))
}

/// Reads the pairs of a query.
fn parse_query(query: Vec<char>) -> (r: Result<Vec<(String, String)>, TransportError>)
    ensures
        match parsed_query(query@) {
            Ok(pairs) => r is Ok && pair_texts(r->Ok_0@) == pairs,
            Err(problem) => r matches Err(e) && e@ == problem,
        },
{
    let ghost whole = parsed_query(query@);
    let mut pairs: Vec<(String, String)> = Vec::new();
    let mut left = query;
    proof {
        assert(whole matches Ok(all) ==> pair_texts(pairs@) + all =~= all);
    }
    loop
        invariant
            whole == parsed_query(query@),
            whole == joined(Ok(pair_texts(pairs@)), parsed_query(left@)),
        decreases left@.len(),
    {
        let ghost now = left@;
        let ghost done = pair_texts(pairs@);
        let end = find_char(&left, '&');
        let (part, rest) = split_at(&left, '&');
        match parse_part(&part) {
            Err(e) => {
                return Err(e);
            },
            Ok(None) => {},
            Ok(Some(pair)) => {
                pairs.push(pair);
                proof {
                    assert(pair_texts(pairs@) =~= done + seq![(pair.0@, pair.1@)]);
                }
            },
        }
        proof {
            let found = parsed_part(part@)->Ok_0;
            assert(pair_texts(pairs@) =~= done + found);
        }
        if end.is_none() {
            proof {
                assert(parsed_query(now) == parsed_part(part@));
            }
            return Ok(pairs);
        }
        left = rest;
        proof {
            let found = parsed_part(part@)->Ok_0;
            let back = parsed_query(left@);
            assert(back matches Ok(b) ==> done + (found + b) =~= pair_texts(pairs@) + b);
        }
    }
}

/// The names of the schemes: none is another's, and none holds a colon.
proof fn lemma_scheme_names(scheme: TransportScheme)
    ensures
        TransportScheme::named(scheme.name()) == Some(scheme),
        3 <= scheme.name().len() <= 4,
        forall|i: int| 0 <= i < scheme.name().len() ==> #[trigger] scheme.name()[i] != ':',
{
    reveal_strlit("shm");
    reveal_strlit("bus");
    reveal_strlit("unix");
    reveal_strlit("tcp");
    assert("shm"@[0] == 's');
    assert("bus"@[0] == 'b');
    assert("unix"@[0] == 'u');
    assert("tcp"@[0] == 't');
}

/// A scheme is found again from its name.
pub proof fn law_scheme_name_round_trip(scheme: TransportScheme)
    ensures
        TransportScheme::named(scheme.name()) == Some(scheme),
{
    lemma_scheme_names(scheme);
}

/// Where the only colon so far starts `://`, that is the first occurrence.
proof fn lemma_is_mark(text: Seq<char>, i: int, k: int)
    requires
        0 <= i <= k,
        k + 3 <= text.len(),
        text[k] == ':' && text[k + 1] == '/' && text[k + 2] == '/',
        forall|j: int| i <= j < k ==> #[trigger] text[j] != ':',
    ensures
        mark_from(text, i) == Some(k),
    decreases k - i,
{
    if i < k {
        lemma_is_mark(text, i + 1, k);
    }
}

/// Whether a pair can stand in a query: the key is not empty and holds no sign, and the value
/// holds no ampersand.
pub open spec fn is_pair(pair: (Seq<char>, Seq<char>)) -> bool {
    &&& pair.0.len() > 0
    &&& forall|i: int|
        0 <= i < pair.0.len() ==> #[trigger] pair.0[i] != '=' && pair.0[i] != '&'
    &&& forall|i: int| 0 <= i < pair.1.len() ==> #[trigger] pair.1[i] != '&'
}

/// Whether an address can be written: there is a target that holds no question mark and is right
/// for the scheme, and the pairs can stand in a query.
pub open spec fn is_url(url: UrlView) -> bool {
    &&& url.target.len() > 0
    &&& forall|i: int| 0 <= i < url.target.len() ==> #[trigger] url.target[i] != '?'
    &&& url.scheme == TransportScheme::Tcp ==> tcp_problem(url.target) is None
    &&& forall|i: int| 0 <= i < url.query.len() ==> is_pair(#[trigger] url.query[i])
}

/// A pair is read back from its text.
proof fn lemma_part_round_trip(pair: (Seq<char>, Seq<char>))
    requires
        is_pair(pair),
    ensures
        parsed_part(pair_text(pair)) == Ok::<Seq<(Seq<char>, Seq<char>)>, UrlProblem>(seq![pair]),
        forall|i: int| 0 <= i < pair_text(pair).len() ==> #[trigger] pair_text(pair)[i] != '&',
{
    let text = pair_text(pair);
    let k = pair.0.len() as int;
    assert forall|j: int| 0 <= j < k implies #[trigger] text[j] != '=' by {
        assert(text[j] == pair.0[j]);
    }
    lemma_is_first(text, '=', 0, k);
    assert(text.take(k) =~= pair.0);
    assert(text.skip(k + 1) =~= pair.1);
    assert forall|i: int| 0 <= i < text.len() implies #[trigger] text[i] != '&' by {
        if i < k {
            assert(text[i] == pair.0[i]);
        } else if i > k {
            assert(text[i] == pair.1[i - k - 1]);
        }
    }
}

/// Pairs are read back from their text, without the sign before the first.
proof fn lemma_query_round_trip(query: Seq<(Seq<char>, Seq<char>)>, sign: char)
    requires
        query.len() > 0,
        forall|i: int| 0 <= i < query.len() ==> is_pair(#[trigger] query[i]),
    ensures
        parsed_query(query_text(sign, query).skip(1)) == Ok::<
            Seq<(Seq<char>, Seq<char>)>,
            UrlProblem,
        >(query),
        query_text(sign, query).len() > 0,
        query_text(sign, query)[0] == sign,
    decreases query.len(),
{
    let first = pair_text(query[0]);
    let rest = query.skip(1);
    let text = query_text(sign, query).skip(1);
    lemma_part_round_trip(query[0]);
    assert(text =~= first + query_text('&', rest));
    if rest.len() == 0 {
        assert(text =~= first);
        lemma_is_absent(text, '&', 0);
        assert(query =~= seq![query[0]]);
    } else {
        assert forall|i: int| 0 <= i < rest.len() implies is_pair(#[trigger] rest[i]) by {
            assert(rest[i] == query[i + 1]);
        }
        lemma_query_round_trip(rest, '&');
        let k = first.len() as int;
        assert forall|j: int| 0 <= j < k implies #[trigger] text[j] != '&' by {
            assert(text[j] == first[j]);
        }
        lemma_is_first(text, '&', 0, k);
        assert(text.take(k) =~= first);
        assert(text.skip(k + 1) =~= query_text('&', rest).skip(1));
        assert(query =~= seq![query[0]] + rest);
    }
}

/// An address that can be written is read back from its text.
pub proof fn law_url_round_trip(url: UrlView)
    requires
        is_url(url),
    ensures
        parsed_url(url_text(url)) == Ok::<UrlView, UrlProblem>(url),
{
    let name = url.scheme.name();
    let mark = name.len() as int;
    let text = url_text(url);
    let query = query_text('?', url.query);
    let rest = text.skip(mark + 3);
    lemma_scheme_names(url.scheme);
    reveal_strlit("://");
    assert forall|j: int| 0 <= j < mark implies #[trigger] text[j] != ':' by {
        assert(text[j] == name[j]);
    }
    assert(text[mark] == "://"@[0] && text[mark + 1] == "://"@[1] && text[mark + 2] == "://"@[2]);
    lemma_is_mark(text, 0, mark);
    assert(text.take(mark) =~= name);
    assert(rest =~= url.target + query);
    if url.query.len() == 0 {
        assert(rest =~= url.target);
        lemma_is_absent(rest, '?', 0);
        lemma_is_absent(Seq::<char>::empty(), '&', 0);
        assert(url.query =~= seq![]);
    } else {
        let k = url.target.len() as int;
        lemma_query_round_trip(url.query, '?');
        assert forall|j: int| 0 <= j < k implies #[trigger] rest[j] != '?' by {
            assert(rest[j] == url.target[j]);
        }
        lemma_is_first(rest, '?', 0, k);
        assert(rest.take(k) =~= url.target);
        assert(rest.skip(k + 1) =~= query.skip(1));
    }
}

/// What parsing a query gives are pairs that can stand in one.
proof fn lemma_parsed_query_is_pairs(query: Seq<char>)
    ensures
        parsed_query(query) matches Ok(pairs) ==> forall|i: int|
            0 <= i < pairs.len() ==> is_pair(#[trigger] pairs[i]),
    decreases query.len(),
{
    lemma_first_from(query, '&', 0);
    match first_index(query, '&') {
        None => {
            lemma_parsed_part_is_pair(query);
        },
        Some(i) => {
            let part = query.take(i);
            assert forall|j: int| 0 <= j < part.len() implies #[trigger] part[j] != '&' by {
                assert(part[j] == query[j]);
            }
            lemma_parsed_part_is_pair(part);
            lemma_parsed_query_is_pairs(query.skip(i + 1));
        },
    }
}

/// What parsing a part without ampersands gives is a pair that can stand in a query.
proof fn lemma_parsed_part_is_pair(part: Seq<char>)
    requires
        forall|j: int| 0 <= j < part.len() ==> #[trigger] part[j] != '&',
    ensures
        parsed_part(part) matches Ok(pairs) ==> forall|i: int|
            0 <= i < pairs.len() ==> is_pair(#[trigger] pairs[i]),
{
    lemma_first_from(part, '=', 0);
    match first_index(part, '=') {
        None => {},
        Some(k) => {
            let key = part.take(k);
            let value = part.skip(k + 1);
            assert forall|i: int| 0 <= i < key.len() implies #[trigger] key[i] != '=' && key[i]
                != '&' by {
                assert(key[i] == part[i]);
            }
            assert forall|i: int| 0 <= i < value.len() implies #[trigger] value[i] != '&' by {
                assert(value[i] == part[k + 1 + i]);
            }
        },
    }
}

/// Every address that was parsed can be written, and its text says the same again.
pub proof fn law_parsed_url_round_trip(text: Seq<char>)
    requires
        parsed_url(text) is Ok,
    ensures
        is_url(parsed_url(text)->Ok_0),
        parsed_url(url_text(parsed_url(text)->Ok_0)) == parsed_url(text),
{
    let url = parsed_url(text)->Ok_0;
    let mark = mark_from(text, 0)->0;
    let rest = text.skip(mark + 3);
    lemma_first_from(rest, '?', 0);
    assert forall|i: int| 0 <= i < url.target.len() implies #[trigger] url.target[i] != '?' by {
        assert(url.target[i] == rest[i]);
    }
    lemma_parsed_query_is_pairs(after(rest, first_index(rest, '?')));
    law_url_round_trip(url);
}

/// An endpoint of a transport.
pub trait Transport {
    /// The address that the endpoint was made from.
    closed spec fn address(&self) -> UrlView {
        arbitrary()
    }

    /// The kind of transport that the endpoint speaks.
    fn scheme(&self) -> (scheme: TransportScheme)
        ensures
            scheme == self.address().scheme,
    ;

    /// The address that the endpoint was made from.
    fn url(&self) -> (url: &TransportUrl)
        ensures
            url@ == self.address(),
    ;

    /// A label for people to read: the address, unless an endpoint has a better one.
    fn label(&self) -> (label: String)
        default_ensures
            label@ == url_text(self.address()),
    {
        self.url().to_url_string()
    }
}

/// What an error is said to be is what it is.
pub proof fn law_view_shows_the_error(text: String, what: &'static str)
    ensures
        TransportError::EmptyUrl@ == UrlProblem::EmptyUrl,
        TransportError::MissingScheme@ == UrlProblem::MissingScheme,
        TransportError::UnsupportedScheme(text)@ == UrlProblem::UnsupportedScheme(text@),
        TransportError::MissingTarget(what)@ == UrlProblem::MissingTarget(what@),
        TransportError::InvalidPort(text)@ == UrlProblem::InvalidPort(text@),
        TransportError::InvalidQuery(text)@ == UrlProblem::InvalidQuery(text@),
{
}

} // verus!
