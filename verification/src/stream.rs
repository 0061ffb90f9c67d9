use vstd::prelude::*;
use vstd::string::StringSliceAdditionalSpecFns;

use crate::error::{ErrorCode, H2Error, H2Result};
use crate::hpack::decoder::headers_view;
use crate::hpack::table::Header;

verus! {

/// The states of a stream that this server goes through (RFC 7540 section 5.1).
#[derive(Debug, Clone, Copy, PartialEq, Eq, Structural)]
pub enum State {
    Idle,
    Open,
    HalfClosedRemote,
    HalfClosedLocal,
    Closed,
}

/// One stream of a connection, as the server keeps it.
#[derive(Debug)]
pub struct Stream {
    pub id: u32,
    pub state: State,
    pub send_window: i64,
    pub content_length: Option<u64>,
    pub data_received: u64,
    pub pending: Vec<u8>,
    pub headers_sent: bool,
    pub finished: bool,
}

/// What the server knows of a stream.
pub struct StreamView {
    pub id: u32,
    pub state: State,
    pub send_window: i64,
    pub content_length: Option<u64>,
    pub data_received: u64,
    pub pending: Seq<u8>,
    pub headers_sent: bool,
    pub finished: bool,
}

impl View for Stream {
    type V = StreamView;

    open spec fn view(&self) -> StreamView {
        StreamView {
            id: self.id,
            state: self.state,
            send_window: self.send_window,
            content_length: self.content_length,
            data_received: self.data_received,
            pending: self.pending@,
            headers_sent: self.headers_sent,
            finished: self.finished,
        }
    }
}

/// The stream that a HEADERS frame opens: nothing received, nothing to
/// send, and the window that the peer's settings give.
pub open spec fn new_stream(id: u32, initial_send: i64) -> StreamView {
    StreamView {
        id,
        state: State::Idle,
        send_window: initial_send,
        content_length: None,
        data_received: 0,
        pending: Seq::empty(),
        headers_sent: false,
        finished: false,
    }
}

/// A stream that is open or half closed.
pub open spec fn is_active(state: State) -> bool {
    state is Open || state is HalfClosedRemote || state is HalfClosedLocal
}

impl Stream {
    pub fn new(id: u32, initial_send: i64) -> (r: Self)
        ensures
            r@ == new_stream(id, initial_send),
    {
        let r = Stream {
            id,
            state: State::Idle,
            send_window: initial_send,
            content_length: None,
            data_received: 0,
            pending: Vec::new(),
            headers_sent: false,
            finished: false,
        };
        proof {
            assert(r@.pending =~= Seq::<u8>::empty());
        }
        r
    }

    pub fn active(&self) -> (r: bool)
        ensures
            r == is_active(self.state),
    {
        match self.state {
            State::Open | State::HalfClosedRemote | State::HalfClosedLocal => true,
            _ => false,
        }
    }
}

/// The stream error that a malformed request is answered with.
pub open spec fn malformed(id: u32) -> H2Error {
    H2Error::Stream { id, code: ErrorCode::ProtocolError }
}

fn stream_error<T>(id: u32) -> (r: H2Result<T>)
    ensures
        r == Err::<T, H2Error>(malformed(id)),
{
    Err(H2Error::Stream { id, code: ErrorCode::ProtocolError })
}

/// The pseudo-header fields and the content length of a request.
#[derive(Debug, Default)]
pub struct Request {
    pub method: Option<Vec<u8>>,
    pub scheme: Option<Vec<u8>>,
    pub path: Option<Vec<u8>>,
    pub authority: Option<Vec<u8>>,
    pub content_length: Option<u64>,
}

/// What validation finds in a request.
pub struct RequestView {
    pub method: Option<Seq<u8>>,
    pub scheme: Option<Seq<u8>>,
    pub path: Option<Seq<u8>>,
    pub authority: Option<Seq<u8>>,
    pub content_length: Option<u64>,
}

pub open spec fn opt_view(o: Option<Vec<u8>>) -> Option<Seq<u8>> {
    match o {
        Some(v) => Some(v@),
        None => None,
    }
}

impl View for Request {
    type V = RequestView;

    open spec fn view(&self) -> RequestView {
        RequestView {
            method: opt_view(self.method),
            scheme: opt_view(self.scheme),
            path: opt_view(self.path),
            authority: opt_view(self.authority),
            content_length: self.content_length,
        }
    }
}

/// A field name that is allowed: not empty, and no upper-case ASCII letter
/// (RFC 7540 section 8.1.2).
pub open spec fn name_allowed(name: Seq<u8>) -> bool {
    &&& name.len() > 0
    &&& forall|i: int| 0 <= i < name.len() ==> !(0x41 <= #[trigger] name[i] <= 0x5a)
}

/// The connection-specific fields that HTTP/2 forbids (RFC 7540 section 8.1.2.2).
pub open spec fn connection_specific(name: Seq<u8>) -> bool {
    ||| name == "connection".spec_bytes()
    ||| name == "keep-alive".spec_bytes()
    ||| name == "proxy-connection".spec_bytes()
    ||| name == "transfer-encoding".spec_bytes()
    ||| name == "upgrade".spec_bytes()
}

/// A regular field that a request may carry: not connection-specific, and a
/// TE field only with the value "trailers".
pub open spec fn regular_allowed(name: Seq<u8>, value: Seq<u8>) -> bool {
    &&& !connection_specific(name)
    &&& name == "te".spec_bytes() ==> value == "trailers".spec_bytes()
}

/// The value of a string of decimal digits.
pub open spec fn digits_value(d: Seq<u8>) -> nat
    decreases d.len(),
{
    if d.len() == 0 {
        0
    } else {
        digits_value(d.drop_last()) * 10 + (d.last() - 0x30) as nat
    }
}

pub open spec fn all_digits(d: Seq<u8>) -> bool {
    forall|i: int| 0 <= i < d.len() ==> 0x30 <= #[trigger] d[i] <= 0x39
}

/// The text of a number without its leading `+`, if it has one.
pub open spec fn unsigned_digits(text: Seq<u8>) -> Seq<u8> {
    if text.len() > 0 && text[0] == 0x2b {
        text.drop_first()
    } else {
        text
    }
}

/// An unsigned decimal number as Rust's `u64` parser reads it: an optional
/// `+`, then at least one digit and nothing else, with a value that fits.
pub open spec fn parse_u64(text: Seq<u8>) -> Option<u64> {
    let digits = unsigned_digits(text);
    if digits.len() > 0 && all_digits(digits) && digits_value(digits) <= u64::MAX {
        Some(digits_value(digits) as u64)
    } else {
        None
    }
}

pub open spec fn empty_request() -> RequestView {
    RequestView { method: None, scheme: None, path: None, authority: None, content_length: None }
}

/// The request after one more field, with whether a regular field has been
/// seen: pseudo-header fields only before regular ones, each at most once
/// and only the four of a request; content-length fields that all agree.
pub open spec fn check_field(
    id: u32,
    req: RequestView,
    seen_regular: bool,
    name: Seq<u8>,
    value: Seq<u8>,
) -> Result<(RequestView, bool), H2Error> {
    if !name_allowed(name) {
        Err(malformed(id))
    } else if name[0] == 0x3a {
        if seen_regular {
            Err(malformed(id))
        } else if name == ":method".spec_bytes() {
            if req.method is Some {
                Err(malformed(id))
            } else {
                Ok((RequestView { method: Some(value), ..req }, false))
            }
        } else if name == ":scheme".spec_bytes() {
            if req.scheme is Some {
                Err(malformed(id))
            } else {
                Ok((RequestView { scheme: Some(value), ..req }, false))
            }
        } else if name == ":path".spec_bytes() {
            if req.path is Some {
                Err(malformed(id))
            } else {
                Ok((RequestView { path: Some(value), ..req }, false))
            }
        } else if name == ":authority".spec_bytes() {
            if req.authority is Some {
                Err(malformed(id))
            } else {
                Ok((RequestView { authority: Some(value), ..req }, false))
            }
        } else {
            Err(malformed(id))
        }
    } else if !regular_allowed(name, value) {
        Err(malformed(id))
    } else if name == "content-length".spec_bytes() {
        match parse_u64(value) {
            None => Err(malformed(id)),
            Some(n) => if req.content_length is Some && req.content_length != Some(n) {
                Err(malformed(id))
            } else {
                Ok((RequestView { content_length: Some(n), ..req }, true))
            },
        }
    } else {
        Ok((req, true))
    }
}

/// Checks the fields from position `i` on.
pub open spec fn check_fields(
    id: u32,
    headers: Seq<(Seq<u8>, Seq<u8>)>,
    i: int,
    req: RequestView,
    seen_regular: bool,
) -> Result<RequestView, H2Error>
    decreases headers.len() - i,
{
    if i < 0 || i >= headers.len() {
        Ok(req)
    } else {
        match check_field(id, req, seen_regular, headers[i].0, headers[i].1) {
            Err(e) => Err(e),
            Ok((next, seen)) => check_fields(id, headers, i + 1, next, seen),
        }
    }
}

/// Validation of the header fields of a request (RFC 7540 section 8.1.2):
/// the fields must pass `check_field`, and `:method`, `:scheme` and a
/// non-empty `:path` must be present; otherwise a stream PROTOCOL_ERROR.
pub open spec fn validate_spec(id: u32, headers: Seq<(Seq<u8>, Seq<u8>)>) -> Result<
    RequestView,
    H2Error,
> {
    match check_fields(id, headers, 0, empty_request(), false) {
        Err(e) => Err(e),
        Ok(req) => if req.method is None || req.scheme is None || req.path is None {
            Err(malformed(id))
        } else if req.path == Some(Seq::<u8>::empty()) {
            Err(malformed(id))
        } else {
            Ok(req)
        },
    }
}

/// Validation of trailers: every field allowed, regular, and not
/// connection-specific.
pub open spec fn trailers_ok(headers: Seq<(Seq<u8>, Seq<u8>)>) -> bool {
    forall|i: int|
        0 <= i < headers.len() ==> {
            let (name, value) = #[trigger] headers[i];
            &&& name_allowed(name)
            &&& name[0] != 0x3a
            &&& regular_allowed(name, value)
        }
}

/// Whether the octets `a` are those of `s`.
fn bytes_are(a: &[u8], s: &str) -> (r: bool)
    ensures
        r == (a@ == s.spec_bytes()),
{
    let b = s.as_bytes();
    if a.len() != b.len() {
        return false;
    }
    let mut i: usize = 0;
    while i < a.len()
        invariant
            a.len() == b.len(),
            b@ == s.spec_bytes(),
            i <= a.len(),
            forall|j: int| 0 <= j < i ==> a@[j] == b@[j],
        decreases a.len() - i,
    {
        if a[i] != b[i] {
            return false;
        }
        i = i + 1;
    }
    proof {
        assert(a@ =~= b@);
    }
    true
}

fn check_name(id: u32, name: &[u8]) -> (r: H2Result<()>)
    ensures
        r == (if name_allowed(name@) {
            Ok::<(), H2Error>(())
        } else {
            Err::<(), H2Error>(malformed(id))
        }),
{
    if name.len() == 0 {
        return stream_error(id);
    }
    let mut i: usize = 0;
    while i < name.len()
        invariant
            i <= name.len(),
            forall|j: int| 0 <= j < i ==> !(0x41 <= #[trigger] name@[j] <= 0x5a),
        decreases name.len() - i,
    {
        if 0x41 <= name[i] && name[i] <= 0x5a {
            return stream_error(id);
        }
        i = i + 1;
    }
    Ok(())
}

fn check_regular(id: u32, h: &Header) -> (r: H2Result<()>)
    ensures
        r == (if regular_allowed(h.name@, h.value@) {
            Ok::<(), H2Error>(())
        } else {
            Err::<(), H2Error>(malformed(id))
        }),
{
    let n = h.name.as_slice();
    if bytes_are(n, "connection") || bytes_are(n, "keep-alive") || bytes_are(n, "proxy-connection")
        || bytes_are(n, "transfer-encoding") || bytes_are(n, "upgrade") {
        return stream_error(id);
    }
    if bytes_are(n, "te") && !bytes_are(h.value.as_slice(), "trailers") {
        return stream_error(id);
    }
    Ok(())
}

/// Reads a decimal `u64` as Rust's parser does; `None` where it refuses.
fn parse_decimal(text: &[u8]) -> (r: Option<u64>)
    ensures
        r == parse_u64(text@),
{
    let start: usize = if text.len() > 0 && text[0] == 0x2b {
        1
    } else {
        0
    };
    let ghost digits = unsigned_digits(text@);
    proof {
        assert(digits =~= text@.skip(start as int));
    }
    if start == text.len() {
        return None;
    }
    let mut value: u64 = 0;
    let mut i: usize = start;
    while i < text.len()
        invariant
            start <= i <= text.len(),
            start < text.len(),
            digits == unsigned_digits(text@),
            digits == text@.skip(start as int),
            all_digits(text@.subrange(start as int, i as int)),
            value == digits_value(text@.subrange(start as int, i as int)),
        decreases text.len() - i,
    {
        let c = text[i];
        proof {
            assert(text@.subrange(start as int, i + 1).drop_last() =~= text@.subrange(
                start as int,
                i as int,
            ));
        }
        if c < 0x30 || c > 0x39 {
            proof {
                assert(digits[i - start] == c);
                assert(!(0x30 <= digits[i - start] <= 0x39));
            }
            return None;
        }
        let d = (c - 0x30) as u64;
        if value > (u64::MAX - d) / 10 {
            proof {
                assert(value * 10 + d > u64::MAX) by (nonlinear_arith)
                    requires
                        value > (u64::MAX - d) / 10,
                        d <= 9,
                ;
                let prefix = text@.subrange(start as int, i + 1);
                assert(prefix.last() == c);
                assert(digits_value(prefix) == value * 10 + d);
                if all_digits(digits) {
                    assert(prefix =~= digits.take((i + 1 - start) as int));
                    lemma_digits_value_grows(digits, (i + 1 - start) as int);
                }
            }
            return None;
        }
        value = value * 10 + d;
        i = i + 1;
        proof {
            let prefix = text@.subrange(start as int, i as int);
            assert(prefix.last() == c);
            assert forall|j: int| 0 <= j < prefix.len() implies 0x30 <= #[trigger] prefix[j] <= 0x39 by {
                if j < prefix.len() - 1 {
                    assert(prefix[j] == prefix.drop_last()[j]);
                }
            }
        }
    }
    proof {
        assert(text@.subrange(start as int, text.len() as int) =~= digits);
    }
    Some(value)
}

/// A longer string of digits has a value at least as large.
proof fn lemma_digits_value_grows(d: Seq<u8>, k: int)
    requires
        0 <= k <= d.len(),
        all_digits(d),
    ensures
        digits_value(d.take(k)) <= digits_value(d),
    decreases d.len() - k,
{
    if k < d.len() {
        lemma_digits_value_grows(d, k + 1);
        assert(d.take(k + 1).drop_last() =~= d.take(k));
        assert(d.take(k + 1).last() == d[k]);
    } else {
        assert(d.take(k) =~= d);
    }
}

/// Whether `v` is the value of every field named `name` among the first
/// `n` of `hs`, and nothing where there is none.
pub open spec fn value_of_field(hs: Seq<(Seq<u8>, Seq<u8>)>, n: int, name: Seq<u8>, v: Option<
    Seq<u8>,
>) -> bool {
    &&& forall|j: int| 0 <= j < n && (#[trigger] hs[j]).0 == name ==> v == Some(hs[j].1)
    &&& v is Some ==> exists|j: int| 0 <= j < n && (#[trigger] hs[j]).0 == name
}

/// Whether `req` holds what the first `n` fields of `hs` say: each
/// pseudo-header field's value, and the number that every content-length
/// field reads as.
pub open spec fn request_holds(hs: Seq<(Seq<u8>, Seq<u8>)>, n: int, req: RequestView) -> bool {
    &&& value_of_field(hs, n, ":method".spec_bytes(), req.method)
    &&& value_of_field(hs, n, ":scheme".spec_bytes(), req.scheme)
    &&& value_of_field(hs, n, ":path".spec_bytes(), req.path)
    &&& value_of_field(hs, n, ":authority".spec_bytes(), req.authority)
    &&& forall|j: int|
        0 <= j < n && (#[trigger] hs[j]).0 == "content-length".spec_bytes() ==> parse_u64(
            hs[j].1,
        ) is Some && req.content_length == parse_u64(hs[j].1)
    &&& req.content_length is Some ==> exists|j: int|
        0 <= j < n && (#[trigger] hs[j]).0 == "content-length".spec_bytes()
}

proof fn lemma_field_names()
    ensures
        ":method".spec_bytes().len() > 0 && ":method".spec_bytes()[0] == 0x3a,
        ":scheme".spec_bytes().len() > 0 && ":scheme".spec_bytes()[0] == 0x3a,
        ":path".spec_bytes().len() > 0 && ":path".spec_bytes()[0] == 0x3a,
        ":authority".spec_bytes().len() > 0 && ":authority".spec_bytes()[0] == 0x3a,
        "content-length".spec_bytes().len() > 0 && "content-length".spec_bytes()[0] != 0x3a,
        ":method".spec_bytes() != ":scheme".spec_bytes(),
        ":method".spec_bytes() != ":path".spec_bytes(),
        ":method".spec_bytes() != ":authority".spec_bytes(),
        ":scheme".spec_bytes() != ":path".spec_bytes(),
        ":scheme".spec_bytes() != ":authority".spec_bytes(),
        ":path".spec_bytes() != ":authority".spec_bytes(),
{
    reveal_strlit(":method");
    reveal_strlit(":scheme");
    reveal_strlit(":path");
    reveal_strlit(":authority");
    reveal_strlit("content-length");
    vstd::string::is_ascii_spec_bytes(":method");
    vstd::string::is_ascii_spec_bytes(":scheme");
    vstd::string::is_ascii_spec_bytes(":path");
    vstd::string::is_ascii_spec_bytes(":authority");
    vstd::string::is_ascii_spec_bytes("content-length");
    assert(":method".spec_bytes()[1] != ":scheme".spec_bytes()[1]);
    assert(":method".spec_bytes().len() != ":path".spec_bytes().len());
    assert(":method".spec_bytes().len() != ":authority".spec_bytes().len());
    assert(":scheme".spec_bytes().len() != ":path".spec_bytes().len());
    assert(":scheme".spec_bytes().len() != ":authority".spec_bytes().len());
    assert(":path".spec_bytes().len() != ":authority".spec_bytes().len());
}

proof fn lemma_check_fields_holds(
    id: u32,
    hs: Seq<(Seq<u8>, Seq<u8>)>,
    i: int,
    req: RequestView,
    seen_regular: bool,
)
    requires
        0 <= i <= hs.len(),
        request_holds(hs, i, req),
    ensures
        check_fields(id, hs, i, req, seen_regular) matches Ok(r) ==> request_holds(
            hs,
            hs.len() as int,
            r,
        ),
    decreases hs.len() - i,
{
    if i < hs.len() {
        let name = hs[i].0;
        let value = hs[i].1;
        if let Ok((next, seen)) = check_field(id, req, seen_regular, name, value) {
            lemma_field_names();
            lemma_check_fields_holds(id, hs, i + 1, next, seen);
        }
    }
}

/// A validated request holds, for each pseudo-header field, exactly the
/// value of that field as received (nothing where there is none), and as
/// its content length the number that every content-length field reads as.
pub proof fn lemma_validate_takes_values(id: u32, hs: Seq<(Seq<u8>, Seq<u8>)>)
    ensures
        validate_spec(id, hs) matches Ok(req) ==> request_holds(hs, hs.len() as int, req),
{
    lemma_check_fields_holds(id, hs, 0, empty_request(), false);
}

/// Validates the header fields of a request; the pseudo-header fields and
/// the content length found, or a stream PROTOCOL_ERROR.
pub fn validate(id: u32, headers: &[Header]) -> (r: H2Result<Request>)
    ensures
        match validate_spec(id, headers_view(headers@)) {
            Ok(req) => r matches Ok(got) && got@ == req,
            Err(e) => r == Err::<Request, H2Error>(e),
        },
{
    let ghost hs = headers_view(headers@);
    let mut req = Request {
        method: None,
        scheme: None,
        path: None,
        authority: None,
        content_length: None,
    };
    let mut seen_regular = false;
    let mut i: usize = 0;
    while i < headers.len()
        invariant
            i <= headers.len(),
            hs == headers_view(headers@),
            check_fields(id, hs, 0, empty_request(), false) == check_fields(
                id,
                hs,
                i as int,
                req@,
                seen_regular,
            ),
        decreases headers.len() - i,
    {
        let h = &headers[i];
        assert(hs[i as int] == h@);
        check_name(id, h.name.as_slice())?;
        if h.name[0] == 0x3a {
            if seen_regular {
                return stream_error(id);
            }
            let n = h.name.as_slice();
            if bytes_are(n, ":method") {
                if req.method.is_some() {
                    return stream_error(id);
                }
                req.method = Some(vstd::slice::slice_to_vec(h.value.as_slice()));
            } else if bytes_are(n, ":scheme") {
                if req.scheme.is_some() {
                    return stream_error(id);
                }
                req.scheme = Some(vstd::slice::slice_to_vec(h.value.as_slice()));
            } else if bytes_are(n, ":path") {
                if req.path.is_some() {
                    return stream_error(id);
                }
                req.path = Some(vstd::slice::slice_to_vec(h.value.as_slice()));
            } else if bytes_are(n, ":authority") {
                if req.authority.is_some() {
                    return stream_error(id);
                }
                req.authority = Some(vstd::slice::slice_to_vec(h.value.as_slice()));
            } else {
                return stream_error(id);
            }
            i = i + 1;
            continue ;
        }
        check_regular(id, h)?;
        seen_regular = true;
        if bytes_are(h.name.as_slice(), "content-length") {
            match parse_decimal(h.value.as_slice()) {
                Some(n) => {
                    if req.content_length.is_some() && req.content_length != Some(n) {
                        return stream_error(id);
                    }
                    req.content_length = Some(n);
                },
                None => return stream_error(id),
            }
        }
        i = i + 1;
    }
    if req.method.is_none() || req.scheme.is_none() || req.path.is_none() {
        return stream_error(id);
    }
    let path_empty = match &req.path {
        Some(p) => p.len() == 0,
        None => false,
    };
    if path_empty {
        proof {
            assert(req@.path == Some(Seq::<u8>::empty()));
        }
        return stream_error(id);
    }
    Ok(req)
}

/// Validates trailers: regular fields only, none of them malformed.
pub fn validate_trailers(id: u32, headers: &[Header]) -> (r: H2Result<()>)
    ensures
        r == (if trailers_ok(headers_view(headers@)) {
            Ok::<(), H2Error>(())
        } else {
            Err::<(), H2Error>(malformed(id))
        }),
{
    let ghost hs = headers_view(headers@);
    let mut i: usize = 0;
    while i < headers.len()
        invariant
            i <= headers.len(),
            hs == headers_view(headers@),
            forall|j: int|
                0 <= j < i ==> {
                    let (name, value) = #[trigger] hs[j];
                    &&& name_allowed(name)
                    &&& name[0] != 0x3a
                    &&& regular_allowed(name, value)
                },
        decreases headers.len() - i,
    {
        let h = &headers[i];
        assert(hs[i as int] == h@);
        check_name(id, h.name.as_slice())?;
        if h.name[0] == 0x3a {
            return stream_error(id);
        }
        check_regular(id, h)?;
        i = i + 1;
    }
    Ok(())
}

} // verus!
