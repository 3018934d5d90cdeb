//! Transport addresses.

use dsline::error::{DslineError, TransportError};
use dsline::transport::{Transport, TransportScheme, TransportUrl};
use std::str::FromStr;

#[test]
fn parse_supported_schemes() {
    assert_eq!(
        TransportScheme::from_str("shm").unwrap(),
        TransportScheme::Shm
    );
    assert_eq!(
        TransportScheme::from_str("bus").unwrap(),
        TransportScheme::Bus
    );
    assert_eq!(
        TransportScheme::from_str("unix").unwrap(),
        TransportScheme::Unix
    );
    assert_eq!(
        TransportScheme::from_str("tcp").unwrap(),
        TransportScheme::Tcp
    );
}

#[test]
fn reject_unsupported_scheme() {
    assert_eq!(
        TransportScheme::from_str("kafka").unwrap_err(),
        DslineError::Transport(TransportError::UnsupportedScheme("kafka".into()))
    );
}

#[test]
fn scheme_display_round_trips() {
    for scheme in ["shm", "bus", "unix", "tcp"] {
        let parsed: TransportScheme = scheme.parse().unwrap();
        assert_eq!(parsed.as_str(), scheme);
        assert_eq!(parsed.as_str().to_string(), scheme);
    }
}

#[test]
fn parse_minimal_url() {
    let url: TransportUrl = "shm://demo".parse().unwrap();
    assert_eq!(url.scheme, TransportScheme::Shm);
    assert_eq!(url.target(), "demo");
    assert!(url.query_pairs().is_empty());
}

#[test]
fn parse_url_with_query() {
    let url: TransportUrl = "shm://demo?capacity=4&slot_size=64".parse().unwrap();
    assert_eq!(url.target(), "demo");
    assert_eq!(url.query_param("capacity"), Some("4"));
    assert_eq!(url.query_param("slot_size"), Some("64"));
    assert_eq!(url.query_param("missing"), None);
}

#[test]
fn parse_bus_url() {
    let url: TransportUrl = "bus://sensors".parse().unwrap();
    assert_eq!(url.scheme, TransportScheme::Bus);
    assert_eq!(url.target(), "sensors");
}

#[test]
fn parse_unix_url() {
    let url: TransportUrl = "unix:///tmp/dsline.sock".parse().unwrap();
    assert_eq!(url.scheme, TransportScheme::Unix);
    assert_eq!(url.target(), "/tmp/dsline.sock");
}

#[test]
fn parse_tcp_url() {
    let url: TransportUrl = "tcp://127.0.0.1:9000/topic".parse().unwrap();
    assert_eq!(url.scheme, TransportScheme::Tcp);
    assert_eq!(url.target(), "127.0.0.1:9000/topic");
}

#[test]
fn parse_tcp_url_with_query() {
    let url: TransportUrl = "tcp://localhost:8080/stream?retry=3".parse().unwrap();
    assert_eq!(url.target(), "localhost:8080/stream");
    assert_eq!(url.query_param("retry"), Some("3"));
}

#[test]
fn reject_empty_url() {
    assert_eq!(
        "".parse::<TransportUrl>().unwrap_err(),
        DslineError::Transport(TransportError::EmptyUrl)
    );
}

#[test]
fn reject_missing_scheme() {
    assert_eq!(
        "demo".parse::<TransportUrl>().unwrap_err(),
        DslineError::Transport(TransportError::MissingScheme)
    );
}

#[test]
fn reject_scheme_without_separator() {
    assert_eq!(
        "shm:demo".parse::<TransportUrl>().unwrap_err(),
        DslineError::Transport(TransportError::MissingScheme)
    );
}

#[test]
fn reject_missing_target() {
    assert_eq!(
        "shm://".parse::<TransportUrl>().unwrap_err(),
        DslineError::Transport(TransportError::MissingTarget("channel name"))
    );
    assert_eq!(
        "bus://".parse::<TransportUrl>().unwrap_err(),
        DslineError::Transport(TransportError::MissingTarget("topic"))
    );
    assert_eq!(
        "unix://".parse::<TransportUrl>().unwrap_err(),
        DslineError::Transport(TransportError::MissingTarget("socket path"))
    );
    assert_eq!(
        "tcp://".parse::<TransportUrl>().unwrap_err(),
        DslineError::Transport(TransportError::MissingTarget("host:port"))
    );
}

#[test]
fn reject_tcp_missing_port() {
    assert_eq!(
        "tcp://localhost".parse::<TransportUrl>().unwrap_err(),
        DslineError::Transport(TransportError::MissingTarget("host:port"))
    );
}

#[test]
fn reject_tcp_invalid_port() {
    assert_eq!(
        "tcp://host:abc".parse::<TransportUrl>().unwrap_err(),
        DslineError::Transport(TransportError::InvalidPort("abc".into()))
    );
    assert_eq!(
        "tcp://host:99999".parse::<TransportUrl>().unwrap_err(),
        DslineError::Transport(TransportError::InvalidPort("99999".into()))
    );
}

#[test]
fn reject_invalid_query() {
    assert_eq!(
        "shm://demo?badquery".parse::<TransportUrl>().unwrap_err(),
        DslineError::Transport(TransportError::InvalidQuery("badquery".into()))
    );
    assert_eq!(
        "shm://demo?=value".parse::<TransportUrl>().unwrap_err(),
        DslineError::Transport(TransportError::InvalidQuery("=value".into()))
    );
}

#[test]
fn url_display_round_trips() {
    for input in [
        "shm://demo",
        "shm://demo?capacity=4&slot_size=64",
        "bus://sensors",
        "unix:///tmp/dsline.sock",
        "tcp://127.0.0.1:9000/topic",
        "tcp://localhost:8080/stream?retry=3",
    ] {
        let url: TransportUrl = input.parse().unwrap();
        assert_eq!(url.to_url_string(), input);
    }
}

#[test]
fn query_param_first_wins_on_duplicate() {
    let url: TransportUrl = "shm://demo?a=1&a=2".parse().unwrap();
    assert_eq!(url.query_param("a"), Some("1"));
}

#[test]
fn ports_are_read_as_numbers() {
    for good in ["tcp://h:0", "tcp://h:65535", "tcp://h:00080/x", "tcp://h:+80", "tcp://a:b:1"] {
        assert!(TransportUrl::from_str(good).is_ok(), "{good}");
    }
    for (bad, port) in [
        ("tcp://h:65536", "65536"),
        ("tcp://h:", ""),
        ("tcp://h:/x", ""),
        ("tcp://h:+", "+"),
        ("tcp://h:-1", "-1"),
        ("tcp://h:1x/y", "1x"),
    ] {
        assert_eq!(
            TransportUrl::from_str(bad).unwrap_err(),
            DslineError::Transport(TransportError::InvalidPort(port.into()))
        );
    }
    assert_eq!(
        TransportUrl::from_str("tcp://:80").unwrap_err(),
        DslineError::Transport(TransportError::MissingTarget("host"))
    );
}

#[test]
fn empty_query_parts_are_passed_over() {
    let url = TransportUrl::from_str("shm://demo?&a=1&&b=&").unwrap();
    assert_eq!(
        url.query_pairs(),
        &[
            ("a".to_string(), "1".to_string()),
            ("b".to_string(), String::new())
        ]
    );
    assert_eq!(url.to_url_string(), "shm://demo?a=1&b=");
    assert_eq!(TransportUrl::from_str(&url.to_url_string()).unwrap(), url);
    let url = TransportUrl::from_str("shm://demo?").unwrap();
    assert_eq!(url.to_url_string(), "shm://demo");
}

#[test]
fn values_may_hold_signs() {
    let url = TransportUrl::from_str("bus://a://b?k=v=w?x://y").unwrap();
    assert_eq!(url.target(), "a://b");
    assert_eq!(url.query_param("k"), Some("v=w?x://y"));
    assert_eq!(TransportUrl::from_str(&url.to_url_string()).unwrap(), url);
    assert_eq!(
        TransportUrl::from_str("://x").unwrap_err(),
        DslineError::Transport(TransportError::MissingScheme)
    );
    assert_eq!(
        TransportUrl::from_str("SHM://x").unwrap_err(),
        DslineError::Transport(TransportError::UnsupportedScheme("SHM".into()))
    );
}

struct Endpoint {
    url: TransportUrl,
}

impl Transport for Endpoint {
    fn scheme(&self) -> TransportScheme {
        self.url.scheme
    }

    fn url(&self) -> &TransportUrl {
        &self.url
    }
}

#[test]
fn an_endpoint_is_labelled_with_its_address() {
    let endpoint = Endpoint {
        url: TransportUrl::from_str("bus://sensors?rate=5").unwrap(),
    };
    assert_eq!(endpoint.scheme(), TransportScheme::Bus);
    assert_eq!(endpoint.label(), "bus://sensors?rate=5");
}

#[test]
fn the_scheme_of_an_address_can_be_asked() {
    for scheme in [
        TransportScheme::Shm,
        TransportScheme::Bus,
        TransportScheme::Unix,
        TransportScheme::Tcp,
    ] {
        let url = TransportUrl::from_str(&format!("{}://host:80", scheme.as_str())).unwrap();
        assert_eq!(url.scheme(), scheme);
        assert_eq!(url.scheme, scheme);
    }
}
