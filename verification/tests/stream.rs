use weft::error::{ErrorCode, H2Error};
use weft::hpack::table::Header;
use weft::stream::{validate, validate_trailers, State, Stream};

fn h(name: &str, value: &str) -> Header {
    Header {
        name: name.as_bytes().to_vec(),
        value: value.as_bytes().to_vec(),
    }
}

fn base() -> Vec<Header> {
    vec![h(":method", "GET"), h(":scheme", "https"), h(":path", "/a")]
}

fn malformed(id: u32) -> H2Error {
    H2Error::Stream { id, code: ErrorCode::ProtocolError }
}

#[test]
fn a_minimal_request_validates() {
    let mut hs = base();
    hs.push(h(":authority", "example.com"));
    hs.push(h("accept", "*/*"));
    let req = validate(7, &hs).unwrap();
    assert_eq!(req.method, Some(b"GET".to_vec()));
    assert_eq!(req.scheme, Some(b"https".to_vec()));
    assert_eq!(req.path, Some(b"/a".to_vec()));
    assert_eq!(req.authority, Some(b"example.com".to_vec()));
    assert_eq!(req.content_length, None);
}

#[test]
fn missing_or_empty_pseudo_headers_are_malformed() {
    assert_eq!(validate(1, &base()[..2]).unwrap_err(), malformed(1));
    let hs = vec![h(":method", "GET"), h(":scheme", "http"), h(":path", "")];
    assert_eq!(validate(3, &hs).unwrap_err(), malformed(3));
}

#[test]
fn pseudo_headers_after_regular_ones_or_twice_are_malformed() {
    let mut hs = base();
    hs.insert(1, h("accept", "*/*"));
    assert_eq!(validate(1, &hs).unwrap_err(), malformed(1));
    let mut hs = base();
    hs.push(h(":path", "/b"));
    assert_eq!(validate(1, &hs).unwrap_err(), malformed(1));
    let mut hs = base();
    hs.push(h(":status", "200"));
    assert_eq!(validate(1, &hs).unwrap_err(), malformed(1));
}

#[test]
fn upper_case_and_empty_names_are_malformed() {
    let mut hs = base();
    hs.push(h("Accept", "*/*"));
    assert_eq!(validate(1, &hs).unwrap_err(), malformed(1));
    let mut hs = base();
    hs.push(h("", "x"));
    assert_eq!(validate(1, &hs).unwrap_err(), malformed(1));
}

#[test]
fn connection_specific_fields_are_malformed() {
    for name in ["connection", "keep-alive", "proxy-connection", "transfer-encoding", "upgrade"] {
        let mut hs = base();
        hs.push(h(name, "x"));
        assert_eq!(validate(5, &hs).unwrap_err(), malformed(5));
    }
    let mut hs = base();
    hs.push(h("te", "gzip"));
    assert_eq!(validate(5, &hs).unwrap_err(), malformed(5));
    let mut hs = base();
    hs.push(h("te", "trailers"));
    assert!(validate(5, &hs).is_ok());
}

#[test]
fn content_length_is_read_as_rust_reads_a_u64() {
    let cases: [(&str, Option<u64>); 8] = [
        ("0", Some(0)),
        ("42", Some(42)),
        ("+7", Some(7)),
        ("18446744073709551615", Some(u64::MAX)),
        ("18446744073709551616", None),
        ("", None),
        ("+", None),
        ("-1", None),
    ];
    for (text, want) in cases {
        let mut hs = base();
        hs.push(h("content-length", text));
        match want {
            Some(n) => assert_eq!(validate(1, &hs).unwrap().content_length, Some(n)),
            None => assert_eq!(validate(1, &hs).unwrap_err(), malformed(1)),
        }
    }
    let mut hs = base();
    hs.push(h("content-length", "1a"));
    assert_eq!(validate(1, &hs).unwrap_err(), malformed(1));
}

#[test]
fn repeated_content_lengths_must_agree() {
    let mut hs = base();
    hs.push(h("content-length", "3"));
    hs.push(h("content-length", "3"));
    assert_eq!(validate(1, &hs).unwrap().content_length, Some(3));
    let mut hs = base();
    hs.push(h("content-length", "3"));
    hs.push(h("content-length", "4"));
    assert_eq!(validate(1, &hs).unwrap_err(), malformed(1));
}

#[test]
fn trailers_must_be_regular_fields() {
    assert_eq!(validate_trailers(9, &[h("grpc-status", "0")]), Ok(()));
    assert_eq!(validate_trailers(9, &[h(":path", "/")]), Err(malformed(9)));
    assert_eq!(validate_trailers(9, &[h("Grpc", "0")]), Err(malformed(9)));
    assert_eq!(validate_trailers(9, &[h("upgrade", "x")]), Err(malformed(9)));
}

#[test]
fn a_new_stream_is_idle_and_empty() {
    let s = Stream::new(3, 100);
    assert_eq!(s.id, 3);
    assert_eq!(s.state, State::Idle);
    assert_eq!(s.send_window, 100);
    assert!(!s.active());
    assert!(s.pending.is_empty());
    for (state, active) in [
        (State::Open, true),
        (State::HalfClosedRemote, true),
        (State::HalfClosedLocal, true),
        (State::Closed, false),
    ] {
        let mut s = Stream::new(1, 0);
        s.state = state;
        assert_eq!(s.active(), active);
    }
}
