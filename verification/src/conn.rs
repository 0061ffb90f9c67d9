//! The server side of one HTTP/2 connection, as a state machine that takes
//! the octets the client sends and produces the octets to send back.
use std::collections::HashMap;

pub mod limit;

use vstd::prelude::*;
use vstd::std_specs::iter::IteratorSpec;
use vstd::string::StringSliceAdditionalSpecFns;

use crate::error::{ErrorCode, H2Error, H2Result};
use crate::frame::{
    flag, frame_octets, next_frame_spec, DecoderView, Frame, FrameDecoder, FrameHeader, FrameType,
    PREFACE,
};
use crate::hpack::decoder::{decode_block, Decoder};
use crate::hpack::encoder::{self, literal_indexed_name_field};
use crate::hpack::integer::encode_int;
use crate::hpack::table::{static_entry, table_with_limit, TableView, STATIC_TABLE};
use crate::settings::{
    apply_payload, be32, default_settings, settings_payload, u32_from_octets, u32_octets,
    u32_to_octets, Settings, MAX_WINDOW_SIZE,
};
use crate::stream::{
    all_digits, digits_value, is_active, malformed, new_stream, parse_u64, trailers_ok, validate,
    validate_spec, validate_trailers, State, Stream, StreamView,
};

verus! {

broadcast use vstd::std_specs::hash::group_hash_axioms;

/// The body of every response.
pub const BODY: &'static str = "weft\n";

/// Index of `:status: 200` in the static table.
pub const STATUS_200_INDEX: u32 = 8;

/// Index of the `content-length` name in the static table.
pub const CONTENT_LENGTH_INDEX: u32 = 28;

/// Index of the `content-type` name in the static table.
pub const CONTENT_TYPE_INDEX: u32 = 31;

/// The SETTINGS_MAX_CONCURRENT_STREAMS that this server announces and
/// enforces.
pub const MAX_CONCURRENT: usize = 100;

/// The largest flow-control window (RFC 7540 section 6.9.1).
pub const WINDOW_CEILING: i64 = 0x7fff_ffff;

/// A header block being received: from a HEADERS frame, then CONTINUATION
/// frames, until one of them carries END_HEADERS.
struct Assembly {
    stream_id: u32,
    block: Vec<u8>,
    end_stream: bool,
    trailers: bool,
}

/// What a header block being received holds.
pub struct AssemblyView {
    pub stream_id: u32,
    pub block: Seq<u8>,
    pub end_stream: bool,
    pub trailers: bool,
}

impl View for Assembly {
    type V = AssemblyView;

    closed spec fn view(&self) -> AssemblyView {
        AssemblyView {
            stream_id: self.stream_id,
            block: self.block@,
            end_stream: self.end_stream,
            trailers: self.trailers,
        }
    }
}

/// The protocol state of a connection, apart from the octets that wait to
/// be decoded into frames.
pub struct SessionView {
    pub table: TableView,
    pub streams: Map<u32, StreamView>,
    pub assembly: Option<AssemblyView>,
    pub local: Settings,
    pub remote: Settings,
    pub highest: u32,
    pub recv_window: i64,
    pub send_window: i64,
    /// The octets produced and not yet taken out.
    pub out: Seq<u8>,
    pub saw_first_settings: bool,
    pub goaway_sent: bool,
}

/// A connection: its frame decoder and its protocol state.
pub struct ConnView {
    pub input: DecoderView,
    pub session: SessionView,
}

/// The settings this server announces.
pub open spec fn local_settings() -> Settings {
    Settings { max_concurrent_streams: Some(MAX_CONCURRENT as u32), ..default_settings() }
}

/// A fresh connection, before the preface.
pub open spec fn initial_session() -> SessionView {
    SessionView {
        table: TableView {
            entries: Seq::empty(),
            max_size: local_settings().header_table_size as nat,
            hard_limit: local_settings().header_table_size as nat,
        },
        streams: Map::empty(),
        assembly: None,
        local: local_settings(),
        remote: default_settings(),
        highest: 0,
        recv_window: local_settings().initial_window_size as i64,
        send_window: default_settings().initial_window_size as i64,
        out: Seq::empty(),
        saw_first_settings: false,
        goaway_sent: false,
    }
}

/// The invariant of a connection's protocol state: each stream is filed
/// under its own identifier, and the flow-control windows stay within
/// what RFC 7540 allows, given what the peer announced.
pub open spec fn session_inv(c: SessionView) -> bool {
    &&& c.remote.initial_window_size <= MAX_WINDOW_SIZE
    &&& 0 <= c.send_window <= WINDOW_CEILING
    &&& forall|k: u32|
        #[trigger] c.streams.contains_key(k) ==> {
            let s = c.streams[k];
            &&& s.id == k
            &&& c.remote.initial_window_size - WINDOW_CEILING <= s.send_window <= WINDOW_CEILING
        }
}

/// The bounds that hold of a connection's windows even once an error has
/// ended it: a window update or a settings change that passed the ceiling
/// may have taken a window up to twice the ceiling.
pub open spec fn session_bounds(c: SessionView) -> bool {
    &&& c.remote.initial_window_size <= MAX_WINDOW_SIZE
    &&& 0 <= c.send_window <= 2 * WINDOW_CEILING
    &&& forall|k: u32|
        #[trigger] c.streams.contains_key(k) ==> {
            let s = c.streams[k];
            &&& s.id == k
            &&& -WINDOW_CEILING <= s.send_window <= 2 * WINDOW_CEILING
        }
}

pub open spec fn connection_error(code: ErrorCode) -> H2Error {
    H2Error::Connection(code)
}

pub open spec fn stream_error(id: u32, code: ErrorCode) -> H2Error {
    H2Error::Stream { id, code }
}

/// The octets of a frame with this payload.
pub open spec fn frame_bytes(kind: FrameType, flags: u8, id: u32, payload: Seq<u8>) -> Seq<u8> {
    frame_octets(
        (FrameHeader { length: payload.len() as u32, kind, flags, stream_id: id }, payload),
    )
}

/// The state once `bytes` are written out.
pub open spec fn emit(c: SessionView, bytes: Seq<u8>) -> SessionView {
    SessionView { out: c.out + bytes, ..c }
}

pub open spec fn has_flag(h: FrameHeader, f: u8) -> bool {
    h.flags & f != 0
}

/// The 31-bit value of the first four octets, reserved bit cleared.
pub open spec fn u31_of(b: Seq<u8>) -> u32 {
    (be32(b) % 0x8000_0000) as u32
}

/// The content of a payload without its padding (RFC 7540 section 6.1); a
/// PROTOCOL_ERROR when the pad length does not fit.
pub open spec fn unpadded(payload: Seq<u8>, padded: bool) -> Result<Seq<u8>, H2Error> {
    if !padded {
        Ok(payload)
    } else if payload.len() == 0 {
        Err(connection_error(ErrorCode::ProtocolError))
    } else if payload[0] >= payload.len() {
        Err(connection_error(ErrorCode::ProtocolError))
    } else {
        Ok(payload.subrange(1, payload.len() - payload[0]))
    }
}

pub open spec fn put_stream(c: SessionView, id: u32, s: StreamView) -> SessionView {
    SessionView { streams: c.streams.insert(id, s), ..c }
}

/// The state with the stream `id`, if there is one, moved to `state`.
pub open spec fn with_state(c: SessionView, id: u32, state: State) -> SessionView {
    if c.streams.contains_key(id) {
        put_stream(c, id, StreamView { state, ..c.streams[id] })
    } else {
        c
    }
}

/// The number of streams that are open or half closed.
pub open spec fn active_count(m: Map<u32, StreamView>) -> nat {
    m.dom().filter(|k: u32| is_active(m[k].state)).len()
}

/// Whether a sequence of identifiers is strictly increasing.
pub open spec fn increasing(s: Seq<u32>) -> bool {
    forall|i: int, j: int| 0 <= i < j < s.len() ==> s[i] < s[j]
}

/// The elements of a finite set of identifiers, in increasing order.
pub open spec fn ascending(set: Set<u32>) -> Seq<u32> {
    choose|s: Seq<u32>| increasing(s) && s.to_set() == set
}

/// The decimal digits of `n`.
pub open spec fn decimal(n: nat) -> Seq<u8>
    decreases n,
{
    if n < 10 {
        seq![(0x30 + n) as u8]
    } else {
        decimal(n / 10).push((0x30 + n % 10) as u8)
    }
}

/// The octets of the response body.
pub open spec fn body_octets() -> Seq<u8> {
    BODY.spec_bytes()
}

/// The header block of every response: `:status: 200`, `content-type:
/// text/plain` and the length of the body.
pub open spec fn response_block() -> Seq<u8> {
    encode_int(STATUS_200_INDEX, 7, 0x80) + literal_indexed_name_field(
        CONTENT_TYPE_INDEX,
        "text/plain".spec_bytes(),
    ) + literal_indexed_name_field(CONTENT_LENGTH_INDEX, decimal(body_octets().len()))
}

/// Sends what the flow-control windows and the peer's frame size allow of
/// the body waiting on stream `id`, one DATA frame at a time; the last one
/// ends the stream.
pub open spec fn flush_stream_spec(c: SessionView, id: u32) -> SessionView
    decreases
            (if c.streams.contains_key(id) {
                c.streams[id].pending.len()
            } else {
                0
            }),
{
    if !c.streams.contains_key(id) {
        c
    } else {
        let s = c.streams[id];
        let window = if s.send_window < c.send_window {
            s.send_window as int
        } else {
            c.send_window as int
        };
        let remaining = s.pending.len() as int;
        let take0 = if window < remaining {
            window
        } else {
            remaining
        };
        let take = if take0 < c.remote.max_frame_size {
            take0
        } else {
            c.remote.max_frame_size as int
        };
        if remaining == 0 || take <= 0 {
            c
        } else {
            let chunk = s.pending.take(take);
            let rest = s.pending.skip(take);
            let last = rest.len() == 0;
            let s1 = StreamView {
                pending: rest,
                send_window: (s.send_window - take) as i64,
                ..s
            };
            let c1 = SessionView {
                streams: c.streams.insert(id, s1),
                send_window: (c.send_window - take) as i64,
                out: c.out + frame_bytes(
                    FrameType::Data,
                    if last {
                        flag::END_STREAM
                    } else {
                        0
                    },
                    id,
                    chunk,
                ),
                ..c
            };
            if last {
                put_stream(c1, id, StreamView { finished: true, state: State::Closed, ..s1 })
            } else {
                flush_stream_spec(c1, id)
            }
        }
    }
}

/// Whether the stream `k` has body octets waiting to be sent.
pub open spec fn is_waiting(c: SessionView) -> spec_fn(u32) -> bool {
    |k: u32| c.streams.contains_key(k) && !c.streams[k].finished && c.streams[k].pending.len() > 0
}

/// The streams that have body octets waiting, among `ids`.
pub open spec fn waiting_ids(c: SessionView, ids: Seq<u32>) -> Seq<u32> {
    ids.filter(is_waiting(c))
}

/// Flushes the streams `ids`, in that order.
pub open spec fn flush_each(c: SessionView, ids: Seq<u32>) -> SessionView
    decreases ids.len(),
{
    if ids.len() == 0 {
        c
    } else {
        flush_each(flush_stream_spec(c, ids[0]), ids.drop_first())
    }
}

/// Flushes every stream with body octets waiting, by increasing identifier.
pub open spec fn flush_sends_spec(c: SessionView) -> SessionView {
    flush_each(c, waiting_ids(c, ascending(c.streams.dom())))
}

/// Answers a request: the response header block, then as much of the body
/// as the windows allow.
pub open spec fn respond_spec(c: SessionView, id: u32) -> SessionView {
    let c1 = emit(c, frame_bytes(FrameType::Headers, flag::END_HEADERS, id, response_block()));
    let c2 = if c1.streams.contains_key(id) {
        put_stream(
            c1,
            id,
            StreamView {
                headers_sent: true,
                pending: body_octets(),
                state: State::HalfClosedLocal,
                ..c1.streams[id]
            },
        )
    } else {
        c1
    };
    flush_stream_spec(c2, id)
}

/// A stream PROTOCOL_ERROR when the DATA received differ in length from a
/// declared content-length (RFC 7540 section 8.1.2.6).
pub open spec fn content_length_check(c: SessionView, id: u32) -> Result<(), H2Error> {
    if c.streams.contains_key(id) && (c.streams[id].content_length matches Some(d)
        && d != c.streams[id].data_received) {
        Err(stream_error(id, ErrorCode::ProtocolError))
    } else {
        Ok(())
    }
}

/// The end of a request: its length checked, the stream half closed, the
/// response sent.
pub open spec fn end_of_request(c: SessionView, id: u32) -> (SessionView, Result<(), H2Error>) {
    match content_length_check(c, id) {
        Err(e) => (c, Err(e)),
        Ok(_) => (respond_spec(with_state(c, id, State::HalfClosedRemote), id), Ok(())),
    }
}

/// A complete header block: decoded, validated as a request or as
/// trailers, and answered when it ends the stream.
pub open spec fn finish_headers_spec(c: SessionView, a: AssemblyView) -> (
    SessionView,
    Result<(), H2Error>,
) {
    let id = a.stream_id;
    let (decoded, table) = decode_block(c.table, a.block);
    let c1 = SessionView { table, ..c };
    match decoded {
        None => (c1, Err(crate::error::compression_failure())),
        Some(hs) => {
            let checked: Result<SessionView, H2Error> = if a.trailers {
                if trailers_ok(hs) {
                    Ok(c1)
                } else {
                    Err(malformed(id))
                }
            } else {
                match validate_spec(id, hs) {
                    Err(e) => Err(e),
                    Ok(req) => Ok(
                        if c1.streams.contains_key(id) {
                            put_stream(
                                c1,
                                id,
                                StreamView { content_length: req.content_length, ..c1.streams[id] },
                            )
                        } else {
                            c1
                        },
                    ),
                }
            };
            match checked {
                Err(e) => (c1, Err(e)),
                Ok(c2) => if a.end_stream {
                    end_of_request(c2, id)
                } else {
                    (c2, Ok(()))
                },
            }
        },
    }
}

/// The stream with its send window moved by `delta`.
pub open spec fn moved_window(s: StreamView, delta: int) -> StreamView {
    StreamView { send_window: (s.send_window + delta) as i64, ..s }
}

/// Moves the send windows of the streams `ids`, in that order, by `delta`,
/// stopping after the first one that passes the ceiling: the streams
/// then, and whether every window stayed within the ceiling.
pub open spec fn move_windows(m: Map<u32, StreamView>, ids: Seq<u32>, delta: int) -> (
    Map<u32, StreamView>,
    bool,
)
    decreases ids.len(),
{
    if ids.len() == 0 {
        (m, true)
    } else {
        let k = ids[0];
        let m1 = m.insert(k, moved_window(m[k], delta));
        if m[k].send_window + delta > WINDOW_CEILING {
            (m1, false)
        } else {
            move_windows(m1, ids.drop_first(), delta)
        }
    }
}

/// A SETTINGS frame (RFC 7540 section 6.5): an acknowledgement must be
/// empty; otherwise the parameters are applied, the send windows moved by
/// the change of SETTINGS_INITIAL_WINDOW_SIZE (section 6.9.2), by
/// increasing stream identifier, and the frame acknowledged; a window
/// moved past the ceiling is a FLOW_CONTROL_ERROR, with the windows moved
/// until then left so.
pub open spec fn on_settings(c: SessionView, h: FrameHeader, payload: Seq<u8>) -> (
    SessionView,
    Result<(), H2Error>,
) {
    if h.stream_id != 0 {
        (c, Err(connection_error(ErrorCode::ProtocolError)))
    } else {
        let c1 = SessionView { saw_first_settings: true, ..c };
        if has_flag(h, flag::ACK) {
            if h.length != 0 {
                (c1, Err(connection_error(ErrorCode::FrameSizeError)))
            } else {
                (c1, Ok(()))
            }
        } else {
            let (next, r) = apply_payload(c.remote, payload);
            if r is Err {
                (c1, r)
            } else {
                let delta = next.initial_window_size - c.remote.initial_window_size;
                let (moved, fit) = if delta != 0 {
                    move_windows(c.streams, ascending(c.streams.dom()), delta)
                } else {
                    (c.streams, true)
                };
                if !fit {
                    (
                        SessionView { streams: moved, ..c1 },
                        Err(connection_error(ErrorCode::FlowControlError)),
                    )
                } else {
                    let c2 = SessionView {
                        streams: moved,
                        remote: next,
                        table: table_with_limit(c.table, next.header_table_size as nat),
                        ..c1
                    };
                    (emit(c2, frame_bytes(FrameType::Settings, flag::ACK, 0, Seq::empty())), Ok(()))
                }
            }
        }
    }
}

/// A PING frame (RFC 7540 section 6.7) is answered with the same payload.
pub open spec fn on_ping(c: SessionView, h: FrameHeader, payload: Seq<u8>) -> (
    SessionView,
    Result<(), H2Error>,
) {
    if h.stream_id != 0 {
        (c, Err(connection_error(ErrorCode::ProtocolError)))
    } else if h.length != 8 {
        (c, Err(connection_error(ErrorCode::FrameSizeError)))
    } else if has_flag(h, flag::ACK) {
        (c, Ok(()))
    } else {
        (emit(c, frame_bytes(FrameType::Ping, flag::ACK, 0, payload)), Ok(()))
    }
}

/// A GOAWAY frame (RFC 7540 section 6.8) ends the connection.
pub open spec fn on_goaway(c: SessionView, h: FrameHeader) -> (SessionView, Result<(), H2Error>) {
    if h.stream_id != 0 {
        (c, Err(connection_error(ErrorCode::ProtocolError)))
    } else if h.length < 8 {
        (c, Err(connection_error(ErrorCode::FrameSizeError)))
    } else {
        (c, Err(connection_error(ErrorCode::NoError)))
    }
}

/// A WINDOW_UPDATE frame (RFC 7540 section 6.9) widens the connection's or
/// a stream's send window; it may not be zero, and a window that it takes
/// past the ceiling is a FLOW_CONTROL_ERROR (the window is widened all the
/// same).
pub open spec fn on_window_update(c: SessionView, h: FrameHeader, payload: Seq<u8>) -> (
    SessionView,
    Result<(), H2Error>,
) {
    let id = h.stream_id;
    if h.length != 4 {
        (c, Err(connection_error(ErrorCode::FrameSizeError)))
    } else {
        let inc = u31_of(payload);
        if id == 0 {
            if inc == 0 {
                (c, Err(connection_error(ErrorCode::ProtocolError)))
            } else {
                let c1 = SessionView { send_window: (c.send_window + inc) as i64, ..c };
                if c.send_window + inc > WINDOW_CEILING {
                    (c1, Err(connection_error(ErrorCode::FlowControlError)))
                } else {
                    (c1, Ok(()))
                }
            }
        } else if id > c.highest {
            (c, Err(connection_error(ErrorCode::ProtocolError)))
        } else if inc == 0 {
            (c, Err(stream_error(id, ErrorCode::ProtocolError)))
        } else if c.streams.contains_key(id) {
            let s = c.streams[id];
            let c1 = put_stream(c, id, StreamView { send_window: (s.send_window + inc) as i64, ..s });
            if s.send_window + inc > WINDOW_CEILING {
                (c1, Err(stream_error(id, ErrorCode::FlowControlError)))
            } else {
                (c1, Ok(()))
            }
        } else {
            (c, Ok(()))
        }
    }
}

/// A PRIORITY frame (RFC 7540 section 6.3) is checked and otherwise
/// ignored.
pub open spec fn on_priority(c: SessionView, h: FrameHeader, payload: Seq<u8>) -> (
    SessionView,
    Result<(), H2Error>,
) {
    let id = h.stream_id;
    if id == 0 {
        (c, Err(connection_error(ErrorCode::ProtocolError)))
    } else if h.length != 5 {
        (c, Err(stream_error(id, ErrorCode::FrameSizeError)))
    } else if u31_of(payload) == id {
        (c, Err(stream_error(id, ErrorCode::ProtocolError)))
    } else {
        (c, Ok(()))
    }
}

/// A RST_STREAM frame (RFC 7540 section 6.4) closes the stream and drops
/// what it had left to send.
pub open spec fn on_rst_stream(c: SessionView, h: FrameHeader) -> (
    SessionView,
    Result<(), H2Error>,
) {
    let id = h.stream_id;
    if id == 0 {
        (c, Err(connection_error(ErrorCode::ProtocolError)))
    } else if h.length != 4 {
        (c, Err(connection_error(ErrorCode::FrameSizeError)))
    } else if id > c.highest {
        (c, Err(connection_error(ErrorCode::ProtocolError)))
    } else if c.streams.contains_key(id) {
        (
            put_stream(
                c,
                id,
                StreamView {
                    state: State::Closed,
                    finished: true,
                    pending: Seq::empty(),
                    ..c.streams[id]
                },
            ),
            Ok(()),
        )
    } else {
        (c, Ok(()))
    }
}

/// A HEADERS frame (RFC 7540 section 6.2): on a new odd stream above all
/// earlier ones it opens a request, within the limit on concurrent streams;
/// on an open stream it carries trailers, and must end the stream.
pub open spec fn on_headers(c: SessionView, h: FrameHeader, payload: Seq<u8>) -> (
    SessionView,
    Result<(), H2Error>,
) {
    let id = h.stream_id;
    let trailers = c.streams.contains_key(id);
    if id == 0 || id % 2 == 0 {
        (c, Err(connection_error(ErrorCode::ProtocolError)))
    } else if id < c.highest {
        (c, Err(connection_error(ErrorCode::ProtocolError)))
    } else if trailers && c.streams[id].state != State::Open {
        (c, Err(connection_error(ErrorCode::StreamClosed)))
    } else if trailers && !has_flag(h, flag::END_STREAM) {
        (c, Err(connection_error(ErrorCode::ProtocolError)))
    } else if !trailers && active_count(c.streams) >= MAX_CONCURRENT {
        (c, Err(stream_error(id, ErrorCode::RefusedStream)))
    } else {
        let c1 = SessionView { highest: id, ..c };
        match unpadded(payload, has_flag(h, flag::PADDED)) {
            Err(e) => (c1, Err(e)),
            Ok(body) => {
                let prioritized = has_flag(h, flag::PRIORITY);
                if prioritized && body.len() < 5 {
                    (c1, Err(connection_error(ErrorCode::FrameSizeError)))
                } else if prioritized && u31_of(body) == id {
                    (c1, Err(connection_error(ErrorCode::ProtocolError)))
                } else {
                    let block = if prioritized {
                        body.skip(5)
                    } else {
                        body
                    };
                    let c2 = if trailers {
                        c1
                    } else {
                        put_stream(
                            c1,
                            id,
                            StreamView {
                                state: State::Open,
                                ..new_stream(id, c.remote.initial_window_size as i64)
                            },
                        )
                    };
                    let a = AssemblyView {
                        stream_id: id,
                        block,
                        end_stream: has_flag(h, flag::END_STREAM),
                        trailers,
                    };
                    if has_flag(h, flag::END_HEADERS) {
                        finish_headers_spec(c2, a)
                    } else {
                        (SessionView { assembly: Some(a), ..c2 }, Ok(()))
                    }
                }
            },
        }
    }
}

/// A CONTINUATION frame (RFC 7540 section 6.10) adds to the header block
/// of the same stream.
pub open spec fn on_continuation(c: SessionView, h: FrameHeader, payload: Seq<u8>) -> (
    SessionView,
    Result<(), H2Error>,
) {
    match c.assembly {
        None => (c, Err(connection_error(ErrorCode::ProtocolError))),
        Some(a) => {
            let c1 = SessionView { assembly: None, ..c };
            if a.stream_id != h.stream_id {
                (c1, Err(connection_error(ErrorCode::ProtocolError)))
            } else {
                let a2 = AssemblyView { block: a.block + payload, ..a };
                if has_flag(h, flag::END_HEADERS) {
                    finish_headers_spec(c1, a2)
                } else {
                    (SessionView { assembly: Some(a2), ..c1 }, Ok(()))
                }
            }
        },
    }
}

/// A DATA frame (RFC 7540 section 6.1) on an open stream: counted, the
/// connection window refilled, and the request answered when it ends.
pub open spec fn on_data(c: SessionView, h: FrameHeader, payload: Seq<u8>) -> (
    SessionView,
    Result<(), H2Error>,
) {
    let id = h.stream_id;
    if id == 0 {
        (c, Err(connection_error(ErrorCode::ProtocolError)))
    } else if h.length > c.recv_window {
        (c, Err(connection_error(ErrorCode::FlowControlError)))
    } else if !c.streams.contains_key(id) || c.streams[id].state == State::Idle {
        (c, Err(connection_error(ErrorCode::ProtocolError)))
    } else if c.streams[id].state == State::Closed {
        (c, Err(connection_error(ErrorCode::StreamClosed)))
    } else if c.streams[id].state == State::HalfClosedRemote {
        (c, Err(stream_error(id, ErrorCode::StreamClosed)))
    } else {
        match unpadded(payload, has_flag(h, flag::PADDED)) {
            Err(e) => (c, Err(e)),
            Ok(body) => {
                let s = c.streams[id];
                let c1 = put_stream(
                    c,
                    id,
                    StreamView {
                        data_received: ((s.data_received + body.len()) % 0x1_0000_0000_0000_0000)
                            as u64,
                        ..s
                    },
                );
                let c2 = if h.length > 0 {
                    emit(
                        c1,
                        frame_bytes(
                            FrameType::WindowUpdate,
                            0,
                            0,
                            u32_octets((h.length % 0x8000_0000) as u32),
                        ),
                    )
                } else {
                    c1
                };
                if has_flag(h, flag::END_STREAM) {
                    end_of_request(c2, id)
                } else {
                    (c2, Ok(()))
                }
            },
        }
    }
}

/// One frame received: while a header block is incomplete only
/// CONTINUATION may come, and the client's first frame must be SETTINGS
/// (RFC 7540 sections 3.5 and 6.10); unknown frame types are ignored.
pub open spec fn dispatch_spec(c: SessionView, f: (FrameHeader, Seq<u8>)) -> (
    SessionView,
    Result<(), H2Error>,
) {
    let h = f.0;
    let payload = f.1;
    if c.assembly is Some && h.kind != FrameType::Continuation {
        (c, Err(connection_error(ErrorCode::ProtocolError)))
    } else if !c.saw_first_settings && h.kind != FrameType::Settings {
        (c, Err(connection_error(ErrorCode::ProtocolError)))
    } else {
        match h.kind {
            FrameType::Settings => on_settings(c, h, payload),
            FrameType::Ping => on_ping(c, h, payload),
            FrameType::GoAway => on_goaway(c, h),
            FrameType::WindowUpdate => on_window_update(c, h, payload),
            FrameType::Priority => on_priority(c, h, payload),
            FrameType::RstStream => on_rst_stream(c, h),
            FrameType::PushPromise => (c, Err(connection_error(ErrorCode::ProtocolError))),
            FrameType::Headers => on_headers(c, h, payload),
            FrameType::Continuation => on_continuation(c, h, payload),
            FrameType::Data => on_data(c, h, payload),
            FrameType::Unknown(_) => (c, Ok(())),
        }
    }
}

/// Every frame that `pending` holds, handled in turn, with the waiting
/// bodies flushed after each: the state reached, the octets left over, and
/// the outcome, which is the first error met.
pub open spec fn process_spec(c: SessionView, pending: Seq<u8>, max: u32) -> (
    SessionView,
    Seq<u8>,
    Result<(), H2Error>,
)
    decreases pending.len(),
{
    match next_frame_spec(pending, max) {
        Err(e) => (c, pending, Err(e)),
        Ok(None) => (c, pending, Ok(())),
        Ok(Some((f, rest))) => {
            let (c2, r) = dispatch_spec(c, f);
            if r is Err {
                (c2, rest, r)
            } else {
                process_spec(flush_sends_spec(c2), rest, max)
            }
        },
    }
}

/// Handling octets received: the octets waiting in the decoder, then the
/// new ones, as far as they make complete frames.
pub open spec fn run_spec(v: ConnView, received: Seq<u8>) -> (ConnView, Result<(), H2Error>) {
    let (session, left, r) = process_spec(
        v.session,
        v.input.pending + received,
        v.input.max_frame_size,
    );
    (ConnView { input: DecoderView { pending: left, ..v.input }, session }, r)
}

/// The octets of the connection preface.
pub open spec fn preface_octets() -> Seq<u8> {
    PREFACE.spec_bytes()
}

/// A connection error is answered with GOAWAY, once; a stream error with
/// RST_STREAM.
pub open spec fn fail_spec(c: SessionView, e: H2Error) -> SessionView {
    match e {
        H2Error::Connection(code) => if c.goaway_sent {
            c
        } else {
            emit(
                SessionView { goaway_sent: true, ..c },
                frame_bytes(
                    FrameType::GoAway,
                    0,
                    0,
                    u32_octets((c.highest % 0x8000_0000) as u32) + u32_octets(
                        crate::error::code_value(code),
                    ),
                ),
            )
        },
        H2Error::Stream { id, code } => emit(
            c,
            frame_bytes(FrameType::RstStream, 0, id, u32_octets(crate::error::code_value(code))),
        ),
    }
}

proof fn lemma_process_split(c: SessionView, p: Seq<u8>, q: Seq<u8>, max: u32)
    requires
        process_spec(c, p, max).2 is Ok,
    ensures
        ({
            let (c1, left, _) = process_spec(c, p, max);
            process_spec(c1, left + q, max) == process_spec(c, p + q, max)
        }),
    decreases p.len(),
{
    crate::frame::lemma_next_frame_prefix(p, q, max);
    match next_frame_spec(p, max) {
        Err(_) => {},
        Ok(None) => {},
        Ok(Some((f, rest))) => {
            let (c2, r) = dispatch_spec(c, f);
            if r is Ok {
                lemma_process_split(flush_sends_spec(c2), rest, q, max);
            }
        },
    }
}

/// Octets received in two reads are handled as the same octets received
/// in one: once the first read is handled without error, handling the
/// second gives the state and the outcome that handling both at once gives.
pub proof fn lemma_run_split(v: ConnView, a: Seq<u8>, b: Seq<u8>)
    requires
        run_spec(v, a).1 is Ok,
    ensures
        run_spec(run_spec(v, a).0, b) == run_spec(v, a + b),
{
    let p = v.input.pending + a;
    lemma_process_split(v.session, p, b, v.input.max_frame_size);
    assert(p + b =~= v.input.pending + (a + b));
}

/// The header block of every response reads back, whatever the dynamic
/// table holds, as `:status: 200`, `content-type: text/plain` and
/// `content-length` with the body's length in decimal; the table is left
/// as it was.
pub proof fn lemma_response_block_decodes(t: TableView)
    ensures
        decode_block(t, response_block()) == (
            Some(
                seq![
                    (":status".spec_bytes(), "200".spec_bytes()),
                    ("content-type".spec_bytes(), "text/plain".spec_bytes()),
                    ("content-length".spec_bytes(), decimal(body_octets().len())),
                ],
            ),
            t,
        ),
{
    let e1 = encode_int(STATUS_200_INDEX, 7, 0x80);
    let ct = "text/plain".spec_bytes();
    let cl = decimal(body_octets().len());
    let f2 = literal_indexed_name_field(CONTENT_TYPE_INDEX, ct);
    let f3 = literal_indexed_name_field(CONTENT_LENGTH_INDEX, cl);
    let block = response_block();
    let empty = Seq::<u8>::empty();
    lemma_response_names();
    lemma_body_length();
    lemma_content_type_length();
    assert(block =~= empty + e1 + (f2 + f3));
    crate::hpack::encoder::lemma_indexed_decodes(
        t,
        empty,
        STATUS_200_INDEX,
        f2 + f3,
        true,
        Seq::empty(),
    );
    let out1 = Seq::<(Seq<u8>, Seq<u8>)>::empty().push(static_entry(7));
    assert(block =~= (empty + e1) + f2 + f3);
    crate::hpack::encoder::lemma_literal_indexed_name_decodes(
        t,
        empty + e1,
        CONTENT_TYPE_INDEX,
        ct,
        f3,
        false,
        out1,
    );
    let out2 = out1.push((static_entry(30).0, ct));
    assert(block =~= (empty + e1 + f2) + f3 + empty);
    crate::hpack::encoder::lemma_literal_indexed_name_decodes(
        t,
        empty + e1 + f2,
        CONTENT_LENGTH_INDEX,
        cl,
        empty,
        false,
        out2,
    );
    let out3 = out2.push((static_entry(27).0, cl));
    assert(out3 =~= seq![
        (":status".spec_bytes(), "200".spec_bytes()),
        ("content-type".spec_bytes(), ct),
        ("content-length".spec_bytes(), cl),
    ]);
}

proof fn lemma_response_names()
    ensures
        static_entry(7) == (":status".spec_bytes(), "200".spec_bytes()),
        static_entry(27).0 == "content-length".spec_bytes(),
        static_entry(30).0 == "content-type".spec_bytes(),
{
    assert(STATIC_TABLE@[7] == (":status", "200"));
    assert(STATIC_TABLE@[27].0 == "content-length");
    assert(STATIC_TABLE@[30].0 == "content-type");
}

proof fn lemma_content_type_length()
    ensures
        "text/plain".spec_bytes().len() == 10,
{
    reveal_strlit("text/plain");
    vstd::string::is_ascii_spec_bytes("text/plain");
}

proof fn lemma_body_length()
    ensures
        body_octets().len() == 5,
        decimal(body_octets().len()).len() == 1,
{
    reveal_strlit("weft\n");
    vstd::string::is_ascii_spec_bytes("weft\n");
}

proof fn lemma_decimal_digits(n: nat)
    ensures
        decimal(n).len() > 0,
        all_digits(decimal(n)),
        digits_value(decimal(n)) == n,
    decreases n,
{
    if n >= 10 {
        lemma_decimal_digits(n / 10);
        let d = decimal(n);
        assert(d.drop_last() =~= decimal(n / 10));
        assert(d.last() - 0x30 == n % 10);
        assert((n / 10) * 10 + n % 10 == n) by (nonlinear_arith);
        assert(digits_value(d) == digits_value(d.drop_last()) * 10 + (d.last() - 0x30) as nat);
        assert(digits_value(d) == n);
        assert forall|i: int| 0 <= i < d.len() implies 0x30 <= #[trigger] d[i] <= 0x39 by {
            if i < d.len() - 1 {
                assert(d[i] == decimal(n / 10)[i]);
            }
        }
    } else {
        assert(decimal(n).drop_last() =~= Seq::<u8>::empty());
        assert(digits_value(decimal(n)) == digits_value(Seq::<u8>::empty()) * 10 + (decimal(n).last() - 0x30) as nat);
    }
}

/// The decimal digits that this server writes are read back, by the
/// parser that it applies to a request's content-length, as the number.
pub proof fn lemma_decimal_reads_back(n: nat)
    requires
        n <= u64::MAX,
    ensures
        parse_u64(decimal(n)) == Some(n as u64),
{
    lemma_decimal_digits(n);
    assert(decimal(n)[0] != 0x2b);
}

/// A request that a single HEADERS frame carries whole, on a new stream,
/// is answered at once: the response header block, then, where the
/// windows and the peer's frame size leave room for the whole body, the
/// body in one DATA frame that ends the stream, which is then closed.
pub proof fn lemma_request_answered(c: SessionView, h: FrameHeader, block: Seq<u8>)
    requires
        session_inv(c),
        c.saw_first_settings,
        c.assembly is None,
        h.kind == FrameType::Headers,
        h.flags == flag::END_STREAM | flag::END_HEADERS,
        h.stream_id % 2 == 1,
        h.stream_id >= c.highest,
        !c.streams.contains_key(h.stream_id),
        active_count(c.streams) < MAX_CONCURRENT,
        decode_block(c.table, block).0 matches Some(hs) && validate_spec(h.stream_id, hs) matches Ok(
            req,
        ) && (req.content_length is None || req.content_length == Some(0u64)),
        c.send_window >= body_octets().len(),
        c.remote.initial_window_size >= body_octets().len(),
        c.remote.max_frame_size >= body_octets().len(),
    ensures
        ({
            let (next, r) = dispatch_spec(c, (h, block));
            let id = h.stream_id;
            &&& r is Ok
            &&& next.out == c.out + frame_bytes(
                FrameType::Headers,
                flag::END_HEADERS,
                id,
                response_block(),
            ) + frame_bytes(FrameType::Data, flag::END_STREAM, id, body_octets())
            &&& next.streams.contains_key(id)
            &&& next.streams[id].state == State::Closed
            &&& next.streams[id].finished
            &&& next.highest == id
        }),
{
    let id = h.stream_id;
    let f = h.flags;
    assert(f == 5u8 ==> f & 0x8 == 0 && f & 0x20 == 0 && f & 0x4 != 0 && f & 0x1 != 0)
        by (bit_vector);
    assert(flag::END_STREAM | flag::END_HEADERS == 5u8) by (bit_vector);
    lemma_body_length();
    let c1 = SessionView { highest: id, ..c };
    let c2 = put_stream(
        c1,
        id,
        StreamView { state: State::Open, ..new_stream(id, c.remote.initial_window_size as i64) },
    );
    let a = AssemblyView { stream_id: id, block, end_stream: true, trailers: false };
    assert(on_headers(c, h, block) == finish_headers_spec(c2, a));
    let hs = decode_block(c.table, block).0->Some_0;
    let req = validate_spec(id, hs)->Ok_0;
    let c3 = put_stream(
        SessionView { table: decode_block(c.table, block).1, ..c2 },
        id,
        StreamView { content_length: req.content_length, ..c2.streams[id] },
    );
    assert(finish_headers_spec(c2, a) == end_of_request(c3, id));
    assert(content_length_check(c3, id) is Ok);
    let c4 = with_state(c3, id, State::HalfClosedRemote);
    let c5 = emit(c4, frame_bytes(FrameType::Headers, flag::END_HEADERS, id, response_block()));
    let s5 = StreamView {
        headers_sent: true,
        pending: body_octets(),
        state: State::HalfClosedLocal,
        ..c5.streams[id]
    };
    let c6 = put_stream(c5, id, s5);
    assert(respond_spec(c4, id) == flush_stream_spec(c6, id));
    assert(s5.pending.take(5) =~= body_octets());
    assert(s5.pending.skip(5) =~= Seq::<u8>::empty());
}

/// A connection sends GOAWAY at most once: after one, answering any other
/// connection error writes nothing more.
pub proof fn lemma_goaway_once(c: SessionView, first: ErrorCode, second: ErrorCode)
    ensures
        fail_spec(fail_spec(c, H2Error::Connection(first)), H2Error::Connection(second))
            == fail_spec(c, H2Error::Connection(first)),
{
}

/// The server side of one connection: frames in, frames out. The octets
/// to send accumulate until they are taken out.
pub struct Connection {
    dec: FrameDecoder,
    hpack: Decoder,
    streams: HashMap<u32, Stream>,
    assembly: Option<Assembly>,
    pub local: Settings,
    pub remote: Settings,
    highest_client_stream: u32,
    recv_window: i64,
    send_window: i64,
    out: Vec<u8>,
    saw_first_settings: bool,
    goaway_sent: bool,
}

/// The view of the streams of a connection.
pub open spec fn streams_view(m: Map<u32, Stream>) -> Map<u32, StreamView> {
    m.map_values(|s: Stream| s@)
}

spec fn assembly_view(a: Option<Assembly>) -> Option<AssemblyView> {
    match a {
        Some(x) => Some(x@),
        None => None,
    }
}

impl View for Connection {
    type V = ConnView;

    closed spec fn view(&self) -> ConnView {
        ConnView {
            input: self.dec@,
            session: SessionView {
                table: self.hpack@,
                streams: streams_view(self.streams@),
                assembly: assembly_view(self.assembly),
                local: self.local,
                remote: self.remote,
                highest: self.highest_client_stream,
                recv_window: self.recv_window,
                send_window: self.send_window,
                out: self.out@,
                saw_first_settings: self.saw_first_settings,
                goaway_sent: self.goaway_sent,
            },
        }
    }
}

proof fn lemma_streams_insert(m: Map<u32, Stream>, k: u32, s: Stream)
    ensures
        streams_view(m.insert(k, s)) == streams_view(m).insert(k, s@),
{
    assert(streams_view(m.insert(k, s)) =~= streams_view(m).insert(k, s@));
}

proof fn lemma_streams_remove(m: Map<u32, Stream>, k: u32)
    ensures
        streams_view(m.remove(k)) == streams_view(m).remove(k),
{
    assert(streams_view(m.remove(k)) =~= streams_view(m).remove(k));
}

/// Two increasing sequences with the same elements are the same.
proof fn lemma_increasing_unique(a: Seq<u32>, b: Seq<u32>)
    requires
        increasing(a),
        increasing(b),
        a.to_set() == b.to_set(),
    ensures
        a == b,
    decreases a.len(),
{
    if a.len() == 0 {
        if b.len() > 0 {
            assert(b.to_set().contains(b[0]));
        }
        assert(a =~= b);
    } else {
        assert(a.to_set().contains(a[0]));
        assert(b.len() > 0);
        assert(b.to_set().contains(b[0]));
        let j = choose|j: int| 0 <= j < b.len() && b[j] == a[0];
        let i = choose|i: int| 0 <= i < a.len() && a[i] == b[0];
        assert(a[0] == b[0]);
        let a1 = a.drop_first();
        let b1 = b.drop_first();
        assert forall|x: u32| a1.to_set().contains(x) implies b1.to_set().contains(x) by {
            let p = choose|p: int| 0 <= p < a1.len() && a1[p] == x;
            assert(a.to_set().contains(a[p + 1]));
            let q = choose|q: int| 0 <= q < b.len() && b[q] == x;
            assert(q != 0);
            assert(b1[q - 1] == x);
        }
        assert forall|x: u32| b1.to_set().contains(x) implies a1.to_set().contains(x) by {
            let p = choose|p: int| 0 <= p < b1.len() && b1[p] == x;
            assert(b.to_set().contains(b[p + 1]));
            let q = choose|q: int| 0 <= q < a.len() && a[q] == x;
            assert(q != 0);
            assert(a1[q - 1] == x);
        }
        assert(a1.to_set() =~= b1.to_set());
        lemma_increasing_unique(a1, b1);
        assert(a.len() == b.len());
        assert forall|k: int| 0 <= k < a.len() implies a[k] == b[k] by {
            if k > 0 {
                assert(a[k] == a1[k - 1]);
                assert(b[k] == b1[k - 1]);
            }
        }
        assert(a =~= b);
    }
}

/// An increasing sequence is the ascending enumeration of its elements.
proof fn lemma_ascending_of(s: Seq<u32>)
    requires
        increasing(s),
    ensures
        ascending(s.to_set()) == s,
{
    let t = ascending(s.to_set());
    assert(increasing(t) && t.to_set() == s.to_set());
    lemma_increasing_unique(s, t);
}


/// The content of a payload without its padding.
fn strip_padding(payload: &[u8], padded: bool) -> (r: H2Result<&[u8]>)
    ensures
        match unpadded(payload@, padded) {
            Ok(b) => r matches Ok(x) && x@ == b,
            Err(e) => r == Err::<&[u8], H2Error>(e),
        },
{
    if !padded {
        return Ok(payload);
    }
    if payload.len() == 0 {
        return Err(H2Error::Connection(ErrorCode::ProtocolError));
    }
    let pad = payload[0] as usize;
    if pad >= payload.len() {
        return Err(H2Error::Connection(ErrorCode::ProtocolError));
    }
    Ok(vstd::slice::slice_subrange(payload, 1, payload.len() - pad))
}

/// The decimal digits of `n`.
fn decimal_octets(n: usize) -> (r: Vec<u8>)
    ensures
        r@ == decimal(n as nat),
    decreases n,
{
    if n < 10 {
        let mut v: Vec<u8> = Vec::new();
        v.push((0x30 + n) as u8);
        proof {
            assert(v@ =~= decimal(n as nat));
        }
        v
    } else {
        let mut v = decimal_octets(n / 10);
        v.push((0x30 + n % 10) as u8);
        v
    }
}

impl Connection {
    /// The connection's parts are well formed, and its windows within the
    /// bounds that hold even once an error has ended it.
    pub closed spec fn wf(&self) -> bool {
        &&& self.dec.wf()
        &&& self.hpack.wf()
        &&& session_bounds(self@.session)
    }

    /// The connection can go on: well formed, and no error has taken a
    /// window past the ceiling.
    pub closed spec fn ready(&self) -> bool {
        &&& self.wf()
        &&& session_inv(self@.session)
    }

    /// A connection that has received nothing yet.
    pub fn new() -> (r: Self)
        ensures
            r.wf(),
            r.ready(),
            session_inv(r@.session),
            r@ == (ConnView {
                input: DecoderView {
                    pending: Seq::empty(),
                    max_frame_size: crate::frame::DEFAULT_MAX_FRAME_SIZE,
                },
                session: initial_session(),
            }),
    {
        let local = Settings {
            max_concurrent_streams: Some(MAX_CONCURRENT as u32),
            ..Settings::default()
        };
        let remote = Settings::default();
        let r = Connection {
            dec: FrameDecoder::new(),
            hpack: Decoder::new(local.header_table_size as usize),
            streams: HashMap::new(),
            assembly: None,
            highest_client_stream: 0,
            recv_window: local.initial_window_size as i64,
            send_window: remote.initial_window_size as i64,
            out: Vec::new(),
            saw_first_settings: false,
            goaway_sent: false,
            remote,
            local,
        };
        proof {
            assert(r@.session.streams =~= Map::<u32, StreamView>::empty());
            assert(r@.session =~= initial_session());
        }
        r
    }

    /// Appends a frame to the octets to send.
    fn write_frame(&mut self, f: &Frame)
        requires
            old(self).wf(),
        ensures
            final(self).wf(),
            final(self)@ == (ConnView {
                session: emit(old(self)@.session, frame_octets(f@)),
                ..old(self)@
            }),
    {
        let mut bytes = f.encode();
        self.out.append(&mut bytes);
        proof {
            assert(self@.session =~= emit(old(self)@.session, frame_octets(f@)));
        }
    }

    /// Takes out the octets produced so far.
    pub fn take_output(&mut self) -> (r: Vec<u8>)
        requires
            old(self).wf(),
        ensures
            final(self).wf(),
            old(self).ready() ==> final(self).ready(),
            r@ == old(self)@.session.out,
            final(self)@ == (ConnView {
                session: SessionView { out: Seq::empty(), ..old(self)@.session },
                ..old(self)@
            }),
    {
        let mut r: Vec<u8> = Vec::new();
        std::mem::swap(&mut r, &mut self.out);
        proof {
            assert(self@.session =~= SessionView { out: Seq::empty(), ..old(self)@.session });
        }
        r
    }

    /// Files a stream under `id`.
    fn put(&mut self, id: u32, s: Stream)
        ensures
            final(self).dec == old(self).dec,
            final(self).hpack == old(self).hpack,
            final(self)@ == (ConnView {
                session: put_stream(old(self)@.session, id, s@),
                ..old(self)@
            }),
    {
        self.streams.insert(id, s);
        proof {
            lemma_streams_insert(old(self).streams@, id, s);
            assert(self@.session =~= put_stream(old(self)@.session, id, s@));
        }
    }

    /// Takes the stream `id` out, if there is one.
    fn take(&mut self, id: u32) -> (r: Option<Stream>)
        ensures
            final(self).dec == old(self).dec,
            final(self).hpack == old(self).hpack,
            final(self)@ == (ConnView {
                session: SessionView {
                    streams: old(self)@.session.streams.remove(id),
                    ..old(self)@.session
                },
                ..old(self)@
            }),
            match r {
                Some(s) => old(self)@.session.streams.contains_key(id) && s@
                    == old(self)@.session.streams[id],
                None => !old(self)@.session.streams.contains_key(id),
            },
    {
        let r = self.streams.remove(&id);
        proof {
            lemma_streams_remove(old(self).streams@, id);
            assert(self@.session =~= SessionView {
                streams: old(self)@.session.streams.remove(id),
                ..old(self)@.session
            });
        }
        r
    }


    /// The number of streams that are open or half closed.
    fn active_streams(&self) -> (r: usize)
        ensures
            r == active_count(self@.session.streams),
    {
        let ids = self.stream_ids();
        let ghost m = self@.session.streams;
        let ghost p = |k: u32| is_active(m[k].state);
        let mut count: usize = 0;
        let mut i: usize = 0;
        proof {
            assert(ids@.take(0).to_set().filter(p) =~= Set::<u32>::empty());
        }
        while i < ids.len()
            invariant
                i <= ids.len(),
                m == self@.session.streams,
                p == (|k: u32| is_active(m[k].state)),
                increasing(ids@),
                ids@.to_set() == m.dom(),
                count <= i,
                count == ids@.take(i as int).to_set().filter(p).len(),
            decreases ids.len() - i,
        {
            let k = ids[i];
            let ghost before = ids@.take(i as int).to_set();
            proof {
                assert(ids@.to_set().contains(ids@[i as int]));
                assert(ids@.take(i + 1) =~= ids@.take(i as int).push(k));
                ids@.take(i as int).lemma_push_to_set_commute(k);
                vstd::seq_lib::seq_to_set_is_finite(ids@.take(i as int));
                assert(!before.contains(k)) by {
                    if before.contains(k) {
                        let q = choose|q: int| 0 <= q < i && ids@.take(i as int)[q] == k;
                        assert(ids@[q] < ids@[i as int]);
                    }
                }
                assert(before.filter(p).finite());
            }
            match self.streams.get(&k) {
                Some(s) => {
                    if s.active() {
                        proof {
                            assert(before.insert(k).filter(p) =~= before.filter(p).insert(k));
                            assert(!before.filter(p).contains(k));
                        }
                        count = count + 1;
                    } else {
                        proof {
                            assert(before.insert(k).filter(p) =~= before.filter(p));
                        }
                    }
                },
                None => {
                    proof {
                        assert(false);
                    }
                },
            }
            i = i + 1;
        }
        proof {
            assert(ids@.take(ids.len() as int) =~= ids@);
            assert(m.dom().filter(p) =~= m.dom().filter(|k: u32| is_active(m[k].state)));
        }
        count
    }

    /// Sends what the windows allow of the body waiting on stream `id`.
    fn flush_stream(&mut self, id: u32)
        requires
            old(self).ready(),
        ensures
            final(self).ready(),
            final(self)@ == (ConnView {
                session: flush_stream_spec(old(self)@.session, id),
                ..old(self)@
            }),
    {
        loop
            invariant
                self.ready(),
                self@.input == old(self)@.input,
                flush_stream_spec(self@.session, id) == flush_stream_spec(old(self)@.session, id),
            decreases
                    (if self@.session.streams.contains_key(id) {
                        self@.session.streams[id].pending.len()
                    } else {
                        0
                    }),
        {
            let max_frame = self.remote.max_frame_size;
            let (window, remaining) = match self.streams.get(&id) {
                Some(s) => (
                    if s.send_window < self.send_window {
                        s.send_window
                    } else {
                        self.send_window
                    },
                    s.pending.len(),
                ),
                None => {
                    return ;
                },
            };
            if remaining == 0 || window <= 0 {
                return ;
            }
            let w = window as usize;
            let take0 = if w < remaining {
                w
            } else {
                remaining
            };
            let take = if take0 < max_frame as usize {
                take0
            } else {
                max_frame as usize
            };
            if take == 0 {
                return ;
            }
            let ghost c = self@.session;
            let mut s = match self.take(id) {
                Some(s) => s,
                None => {
                    return ;
                },
            };
            let rest = s.pending.split_off(take);
            let mut chunk = rest;
            std::mem::swap(&mut chunk, &mut s.pending);
            s.send_window = s.send_window - take as i64;
            self.send_window = self.send_window - take as i64;
            let last = s.pending.len() == 0;
            let ghost s1 = s@;
            if last {
                s.finished = true;
                s.state = State::Closed;
            }
            self.put(id, s);
            let flags = if last {
                flag::END_STREAM
            } else {
                0
            };
            let data = Frame::new(FrameType::Data, flags, id, chunk);
            self.write_frame(&data);
            proof {
                let cs = c.streams[id];
                assert(s1.pending =~= cs.pending.skip(take as int));
                assert(chunk@ =~= cs.pending.take(take as int));
                let c1 = SessionView {
                    streams: c.streams.insert(id, s1),
                    send_window: (c.send_window - take) as i64,
                    out: c.out + frame_bytes(FrameType::Data, flags, id, chunk@),
                    ..c
                };
                assert(self@.session.out == c1.out);
                assert(self@.session.send_window == c1.send_window);
                if last {
                    assert(self@.session.streams =~= c1.streams.insert(id, StreamView { finished: true, state: State::Closed, ..s1 }));
                    assert(put_stream(c1, id, StreamView { finished: true, state: State::Closed, ..s1 }) =~= self@.session);
                } else {
                    assert(self@.session.streams =~= c1.streams);
                    assert(c1 =~= self@.session);
                }
            }
            if last {
                return ;
            }
        }
    }


    /// Answers a request on stream `id`: the response header block, then
    /// the body, as far as the windows allow.
    fn respond(&mut self, id: u32)
        requires
            old(self).ready(),
        ensures
            final(self).ready(),
            final(self)@ == (ConnView { session: respond_spec(old(self)@.session, id), ..old(self)@ }),
    {
        let content_type = "text/plain".as_bytes();
        let body = BODY.as_bytes();
        proof {
            reveal_strlit("text/plain");
            reveal_strlit("weft\n");
            vstd::string::is_ascii_spec_bytes("text/plain");
            vstd::string::is_ascii_spec_bytes("weft\n");
        }
        let mut block: Vec<u8> = Vec::new();
        encoder::indexed(&mut block, STATUS_200_INDEX);
        encoder::literal_indexed_name(&mut block, CONTENT_TYPE_INDEX, content_type);
        let len = decimal_octets(body.len());
        encoder::literal_indexed_name(&mut block, CONTENT_LENGTH_INDEX, len.as_slice());
        proof {
            assert(block@ =~= response_block());
        }
        let headers = Frame::new(FrameType::Headers, flag::END_HEADERS, id, block);
        self.write_frame(&headers);
        let ghost c1 = self@.session;
        match self.take(id) {
            Some(mut s) => {
                s.headers_sent = true;
                s.pending = vstd::slice::slice_to_vec(body);
                s.state = State::HalfClosedLocal;
                self.put(id, s);
                proof {
                    assert(self@.session.streams =~= c1.streams.insert(id, s@));
                }
            },
            None => {
                proof {
                    assert(self@.session.streams =~= c1.streams);
                }
            },
        }
        self.flush_stream(id);
    }


    /// Checks a declared content-length against the DATA received.
    fn check_content_length(&self, id: u32) -> (r: H2Result<()>)
        ensures
            r == content_length_check(self@.session, id),
    {
        if let Some(s) = self.streams.get(&id) {
            if let Some(declared) = s.content_length {
                if declared != s.data_received {
                    return Err(H2Error::Stream { id, code: ErrorCode::ProtocolError });
                }
            }
        }
        Ok(())
    }

    /// Moves the stream `id`, if there is one, to `state`.
    fn set_state(&mut self, id: u32, state: State)
        requires
            old(self).ready(),
        ensures
            final(self).ready(),
            final(self)@ == (ConnView {
                session: with_state(old(self)@.session, id, state),
                ..old(self)@
            }),
    {
        let ghost c = self@.session;
        match self.take(id) {
            Some(mut s) => {
                s.state = state;
                self.put(id, s);
                proof {
                    assert(self@.session.streams =~= c.streams.insert(id, s@));
                }
            },
            None => {
                proof {
                    assert(self@.session.streams =~= c.streams);
                }
            },
        }
    }

    /// The end of a request on stream `id`: its length checked, the stream
    /// half closed, the response sent.
    fn end_of_request(&mut self, id: u32) -> (r: H2Result<()>)
        requires
            old(self).ready(),
        ensures
            final(self).ready(),
            (final(self)@.session, r) == end_of_request(old(self)@.session, id),
            final(self)@.input == old(self)@.input,
    {
        self.check_content_length(id)?;
        self.set_state(id, State::HalfClosedRemote);
        self.respond(id);
        Ok(())
    }

    /// Decodes a complete header block and acts on it.
    fn finish_headers(&mut self, a: Assembly) -> (r: H2Result<()>)
        requires
            old(self).ready(),
        ensures
            final(self).ready(),
            (final(self)@.session, r) == finish_headers_spec(old(self)@.session, a@),
            final(self)@.input == old(self)@.input,
    {
        let ghost c = self@.session;
        let headers = self.hpack.decode(a.block.as_slice())?;
        let id = a.stream_id;
        proof {
            assert(self@.session == SessionView { table: decode_block(c.table, a@.block).1, ..c });
        }
        if a.trailers {
            validate_trailers(id, headers.as_slice())?;
        } else {
            let req = validate(id, headers.as_slice())?;
            let ghost c1 = self@.session;
            match self.take(id) {
                Some(mut s) => {
                    s.content_length = req.content_length;
                    self.put(id, s);
                    proof {
                        assert(self@.session.streams =~= c1.streams.insert(id, s@));
                    }
                },
                None => {
                    proof {
                        assert(self@.session.streams =~= c1.streams);
                    }
                },
            }
        }
        if a.end_stream {
            self.end_of_request(id)?;
        }
        Ok(())
    }


    /// Moves the send windows by `delta`, by increasing stream identifier,
    /// stopping after the first one that passes the ceiling; `false` then.
    fn shift_windows(&mut self, delta: i64) -> (fit: bool)
        requires
            old(self).ready(),
            -WINDOW_CEILING <= delta <= WINDOW_CEILING,
        ensures
            final(self).dec == old(self).dec,
            final(self).hpack == old(self).hpack,
            final(self)@ == (ConnView {
                session: SessionView { streams: final(self)@.session.streams, ..old(self)@.session },
                ..old(self)@
            }),
            (final(self)@.session.streams, fit) == move_windows(
                old(self)@.session.streams,
                ascending(old(self)@.session.streams.dom()),
                delta as int,
            ),
            final(self)@.session.streams.dom() == old(self)@.session.streams.dom(),
            forall|k: u32| #[trigger]
                old(self)@.session.streams.contains_key(k) ==> final(self)@.session.streams[k]
                    == old(self)@.session.streams[k] || final(self)@.session.streams[k]
                    == moved_window(old(self)@.session.streams[k], delta as int),
            fit ==> forall|k: u32| #[trigger]
                old(self)@.session.streams.contains_key(k) ==> final(self)@.session.streams[k]
                    == moved_window(old(self)@.session.streams[k], delta as int)
                    && old(self)@.session.streams[k].send_window + delta <= WINDOW_CEILING,
            !fit ==> delta > 0,
    {
        let ids = self.stream_ids();
        let ghost c = self@.session;
        let ghost m = c.streams;
        let mut i: usize = 0;
        proof {
            assert(ids@.skip(0) =~= ids@);
        }
        while i < ids.len()
            invariant
                i <= ids.len(),
                ids@ == ascending(m.dom()),
                increasing(ids@),
                ids@.to_set() == m.dom(),
                session_inv(c),
                m == c.streams,
                -WINDOW_CEILING <= delta <= WINDOW_CEILING,
                self.dec == old(self).dec,
                self.hpack == old(self).hpack,
                self@.input == old(self)@.input,
                c == old(self)@.session,
                self@.session == (SessionView { streams: self@.session.streams, ..c }),
                self@.session.streams.dom() == m.dom(),
                forall|k: u32| #[trigger]
                    m.contains_key(k) ==> self@.session.streams[k] == (if ids@.take(
                        i as int,
                    ).contains(k) {
                        moved_window(m[k], delta as int)
                    } else {
                        m[k]
                    }),
                forall|j: int| 0 <= j < i ==> m[#[trigger] ids@[j]].send_window + delta <= WINDOW_CEILING,
                move_windows(m, ids@, delta as int) == move_windows(
                    self@.session.streams,
                    ids@.skip(i as int),
                    delta as int,
                ),
            decreases ids.len() - i,
        {
            let k = ids[i];
            proof {
                assert(ids@.to_set().contains(ids@[i as int]));
                assert(!ids@.take(i as int).contains(k)) by {
                    if ids@.take(i as int).contains(k) {
                        let q = choose|q: int| 0 <= q < i && ids@.take(i as int)[q] == k;
                        assert(ids@[q] < ids@[i as int]);
                    }
                }
                assert(ids@.take(i + 1) =~= ids@.take(i as int).push(k));
                assert(ids@.skip(i as int)[0] == k);
                assert(ids@.skip(i as int).drop_first() =~= ids@.skip(i + 1));
            }
            let ghost before = self@.session.streams;
            let mut s = match self.take(k) {
                Some(s) => s,
                None => {
                    proof {
                        assert(false);
                    }
                    return false;
                },
            };
            let over = s.send_window + delta > WINDOW_CEILING;
            s.send_window = s.send_window + delta;
            self.put(k, s);
            proof {
                assert(before[k] == m[k]);
                assert(self@.session.streams =~= before.insert(k, moved_window(before[k], delta as int)));
                assert forall|x: u32| #[trigger] m.contains_key(x) implies self@.session.streams[x] == (if ids@.take(i + 1).contains(x) {
                    moved_window(m[x], delta as int)
                } else {
                    m[x]
                }) by {
                    if x != k {
                        assert(ids@.take(i + 1).contains(x) == ids@.take(i as int).contains(x));
                    } else {
                        assert(ids@.take(i + 1)[i as int] == k);
                    }
                }
                assert(self@.session.streams.dom() =~= m.dom());
            }
            if over {
                proof {
                    assert forall|x: u32| #[trigger] m.contains_key(x) implies self@.session.streams[x] == m[x]
                        || self@.session.streams[x] == moved_window(m[x], delta as int) by {}
                }
                return false;
            }
            i = i + 1;
        }
        proof {
            assert(ids@.take(ids.len() as int) =~= ids@);
            assert forall|k: u32| #[trigger] m.contains_key(k) implies self@.session.streams[k]
                == moved_window(m[k], delta as int) && m[k].send_window + delta <= WINDOW_CEILING by {
                assert(ids@.to_set().contains(k));
                let j = choose|j: int| 0 <= j < ids@.len() && ids@[j] == k;
            }
        }
        true
    }

    /// Handles a SETTINGS frame.
    fn on_settings_frame(&mut self, h: FrameHeader, payload: &[u8]) -> (r: H2Result<()>)
        requires
            old(self).ready(),
        ensures
            final(self).wf(),
            r is Ok ==> final(self).ready(),
            (final(self)@.session, r) == on_settings(old(self)@.session, h, payload@),
            final(self)@.input == old(self)@.input,
    {
        if h.stream_id != 0 {
            return Err(H2Error::Connection(ErrorCode::ProtocolError));
        }
        self.saw_first_settings = true;
        if h.has(flag::ACK) {
            if h.length != 0 {
                return Err(H2Error::Connection(ErrorCode::FrameSizeError));
            }
            return Ok(());
        }
        let previous = self.remote.initial_window_size;
        let mut next = self.remote;
        proof {
            crate::settings::lemma_apply_keeps_window_bound(next, payload@);
        }
        next.apply(payload)?;
        let delta = next.initial_window_size as i64 - previous as i64;
        if delta != 0 {
            if !self.shift_windows(delta) {
                return Err(H2Error::Connection(ErrorCode::FlowControlError));
            }
        }
        self.remote = next;
        self.hpack.set_settings_limit(next.header_table_size as usize);
        let ack = Frame::new(FrameType::Settings, flag::ACK, 0, Vec::new());
        self.write_frame(&ack);
        proof {
            assert(ack.payload@ =~= Seq::<u8>::empty());
        }
        Ok(())
    }


    /// Handles a PING frame.
    fn on_ping_frame(&mut self, h: FrameHeader, payload: Vec<u8>) -> (r: H2Result<()>)
        requires
            old(self).ready(),
        ensures
            final(self).ready(),
            (final(self)@.session, r) == on_ping(old(self)@.session, h, payload@),
            final(self)@.input == old(self)@.input,
    {
        if h.stream_id != 0 {
            return Err(H2Error::Connection(ErrorCode::ProtocolError));
        }
        if h.length != 8 {
            return Err(H2Error::Connection(ErrorCode::FrameSizeError));
        }
        if h.has(flag::ACK) {
            return Ok(());
        }
        let pong = Frame::new(FrameType::Ping, flag::ACK, 0, payload);
        self.write_frame(&pong);
        Ok(())
    }

    /// Handles a WINDOW_UPDATE frame.
    fn on_window_update_frame(&mut self, h: FrameHeader, payload: &[u8]) -> (r: H2Result<()>)
        requires
            old(self).ready(),
            payload.len() == h.length,
        ensures
            final(self).wf(),
            r is Ok ==> final(self).ready(),
            (final(self)@.session, r) == on_window_update(old(self)@.session, h, payload@),
            final(self)@.input == old(self)@.input,
    {
        if h.length != 4 {
            return Err(H2Error::Connection(ErrorCode::FrameSizeError));
        }
        let raw = u32_from_octets(payload);
        let inc31 = raw & 0x7fff_ffff;
        proof {
            assert(raw & 0x7fff_ffff == raw % 0x8000_0000) by (bit_vector);
        }
        let inc = inc31 as i64;
        if h.stream_id == 0 {
            if inc == 0 {
                return Err(H2Error::Connection(ErrorCode::ProtocolError));
            }
            self.send_window = self.send_window + inc;
            if self.send_window > WINDOW_CEILING {
                return Err(H2Error::Connection(ErrorCode::FlowControlError));
            }
            return Ok(());
        }
        if h.stream_id > self.highest_client_stream {
            return Err(H2Error::Connection(ErrorCode::ProtocolError));
        }
        if inc == 0 {
            return Err(H2Error::Stream { id: h.stream_id, code: ErrorCode::ProtocolError });
        }
        let ghost c = self@.session;
        match self.take(h.stream_id) {
            Some(mut s) => {
                s.send_window = s.send_window + inc;
                let over = s.send_window > WINDOW_CEILING;
                self.put(h.stream_id, s);
                proof {
                    assert(self@.session.streams =~= c.streams.insert(h.stream_id, s@));
                }
                if over {
                    return Err(H2Error::Stream { id: h.stream_id, code: ErrorCode::FlowControlError });
                }
            },
            None => {
                proof {
                    assert(self@.session.streams =~= c.streams);
                }
            },
        }
        Ok(())
    }

    /// Handles a RST_STREAM frame.
    fn on_rst_stream_frame(&mut self, h: FrameHeader) -> (r: H2Result<()>)
        requires
            old(self).ready(),
        ensures
            final(self).ready(),
            (final(self)@.session, r) == on_rst_stream(old(self)@.session, h),
            final(self)@.input == old(self)@.input,
    {
        if h.stream_id == 0 {
            return Err(H2Error::Connection(ErrorCode::ProtocolError));
        }
        if h.length != 4 {
            return Err(H2Error::Connection(ErrorCode::FrameSizeError));
        }
        if h.stream_id > self.highest_client_stream {
            return Err(H2Error::Connection(ErrorCode::ProtocolError));
        }
        let ghost c = self@.session;
        match self.take(h.stream_id) {
            Some(mut s) => {
                s.state = State::Closed;
                s.finished = true;
                s.pending.clear();
                self.put(h.stream_id, s);
                proof {
                    assert(self@.session.streams =~= c.streams.insert(h.stream_id, s@));
                }
            },
            None => {
                proof {
                    assert(self@.session.streams =~= c.streams);
                }
            },
        }
        Ok(())
    }

    /// Handles a HEADERS frame.
    fn on_headers_frame(&mut self, h: FrameHeader, payload: &[u8]) -> (r: H2Result<()>)
        requires
            old(self).ready(),
        ensures
            final(self).ready(),
            (final(self)@.session, r) == on_headers(old(self)@.session, h, payload@),
            final(self)@.input == old(self)@.input,
    {
        let id = h.stream_id;
        if id == 0 || id % 2 == 0 {
            return Err(H2Error::Connection(ErrorCode::ProtocolError));
        }
        if id < self.highest_client_stream {
            return Err(H2Error::Connection(ErrorCode::ProtocolError));
        }
        let trailers = match self.streams.get(&id) {
            Some(s) => match s.state {
                State::Open => {
                    if !h.has(flag::END_STREAM) {
                        return Err(H2Error::Connection(ErrorCode::ProtocolError));
                    }
                    true
                },
                _ => {
                    return Err(H2Error::Connection(ErrorCode::StreamClosed));
                },
            },
            None => false,
        };
        if !trailers && self.active_streams() >= MAX_CONCURRENT {
            return Err(H2Error::Stream { id, code: ErrorCode::RefusedStream });
        }
        self.highest_client_stream = id;
        let body = strip_padding(payload, h.has(flag::PADDED))?;
        let block = if h.has(flag::PRIORITY) {
            if body.len() < 5 {
                return Err(H2Error::Connection(ErrorCode::FrameSizeError));
            }
            let raw = u32_from_octets(body);
            proof {
                assert(raw & 0x7fff_ffff == raw % 0x8000_0000) by (bit_vector);
            }
            if raw & 0x7fff_ffff == id {
                return Err(H2Error::Connection(ErrorCode::ProtocolError));
            }
            vstd::slice::slice_subrange(body, 5, body.len())
        } else {
            body
        };
        if !trailers {
            let initial = self.remote.initial_window_size as i64;
            let mut stream = Stream::new(id, initial);
            stream.state = State::Open;
            self.put(id, stream);
        }
        let assembly = Assembly {
            stream_id: id,
            block: vstd::slice::slice_to_vec(block),
            end_stream: h.has(flag::END_STREAM),
            trailers,
        };
        proof {
            if h.flags & flag::PRIORITY != 0 {
                assert(block@ =~= body@.skip(5));
            }
        }
        if h.has(flag::END_HEADERS) {
            self.finish_headers(assembly)
        } else {
            self.assembly = Some(assembly);
            Ok(())
        }
    }

    /// Handles a CONTINUATION frame.
    fn on_continuation_frame(&mut self, h: FrameHeader, payload: &[u8]) -> (r: H2Result<()>)
        requires
            old(self).ready(),
        ensures
            final(self).ready(),
            (final(self)@.session, r) == on_continuation(old(self)@.session, h, payload@),
            final(self)@.input == old(self)@.input,
    {
        let mut a = match self.assembly.take() {
            Some(a) => a,
            None => {
                return Err(H2Error::Connection(ErrorCode::ProtocolError));
            },
        };
        if a.stream_id != h.stream_id {
            return Err(H2Error::Connection(ErrorCode::ProtocolError));
        }
        let mut more = vstd::slice::slice_to_vec(payload);
        a.block.append(&mut more);
        if h.has(flag::END_HEADERS) {
            self.finish_headers(a)
        } else {
            self.assembly = Some(a);
            Ok(())
        }
    }

    /// Handles a DATA frame.
    fn on_data_frame(&mut self, h: FrameHeader, payload: &[u8]) -> (r: H2Result<()>)
        requires
            old(self).ready(),
        ensures
            final(self).ready(),
            (final(self)@.session, r) == on_data(old(self)@.session, h, payload@),
            final(self)@.input == old(self)@.input,
    {
        let id = h.stream_id;
        if id == 0 {
            return Err(H2Error::Connection(ErrorCode::ProtocolError));
        }
        if h.length as i64 > self.recv_window {
            return Err(H2Error::Connection(ErrorCode::FlowControlError));
        }
        match self.streams.get(&id) {
            None => {
                return Err(H2Error::Connection(ErrorCode::ProtocolError));
            },
            Some(s) => match s.state {
                State::Idle => {
                    return Err(H2Error::Connection(ErrorCode::ProtocolError));
                },
                State::Closed => {
                    return Err(H2Error::Connection(ErrorCode::StreamClosed));
                },
                State::HalfClosedRemote => {
                    return Err(H2Error::Stream { id, code: ErrorCode::StreamClosed });
                },
                _ => {},
            },
        }
        let body = strip_padding(payload, h.has(flag::PADDED))?;
        let received = body.len() as u64;
        let ghost c = self@.session;
        match self.take(id) {
            Some(mut s) => {
                let total = s.data_received.wrapping_add(received);
                proof {
                    let x = s.data_received as int;
                    let y = received as int;
                    assert(total == ((x + y) % 0x1_0000_0000_0000_0000) as u64);
                }
                s.data_received = total;
                self.put(id, s);
                proof {
                    assert(self@.session.streams =~= c.streams.insert(id, s@));
                }
            },
            None => {
                proof {
                    assert(false);
                }
            },
        }
        if h.length > 0 {
            let refill = Frame::new(FrameType::WindowUpdate, 0, 0, u32_to_octets(h.length & 0x7fff_ffff));
            proof {
                let l = h.length;
                assert(l & 0x7fff_ffff == l % 0x8000_0000) by (bit_vector);
            }
            self.write_frame(&refill);
        }
        if h.has(flag::END_STREAM) {
            self.end_of_request(id)?;
        }
        Ok(())
    }

    /// Acts on one frame received.
    fn dispatch(&mut self, f: Frame) -> (r: H2Result<()>)
        requires
            old(self).ready(),
            f.payload.len() == f.header.length,
        ensures
            final(self).wf(),
            r is Ok ==> final(self).ready(),
            (final(self)@.session, r) == dispatch_spec(old(self)@.session, f@),
            final(self)@.input == old(self)@.input,
    {
        let h = f.header;
        if self.assembly.is_some() && h.kind != FrameType::Continuation {
            return Err(H2Error::Connection(ErrorCode::ProtocolError));
        }
        if !self.saw_first_settings && h.kind != FrameType::Settings {
            return Err(H2Error::Connection(ErrorCode::ProtocolError));
        }
        match h.kind {
            FrameType::Settings => self.on_settings_frame(h, f.payload.as_slice()),
            FrameType::Ping => self.on_ping_frame(h, f.payload),
            FrameType::GoAway => {
                if h.stream_id != 0 {
                    return Err(H2Error::Connection(ErrorCode::ProtocolError));
                }
                if h.length < 8 {
                    return Err(H2Error::Connection(ErrorCode::FrameSizeError));
                }
                Err(H2Error::Connection(ErrorCode::NoError))
            },
            FrameType::WindowUpdate => self.on_window_update_frame(h, f.payload.as_slice()),
            FrameType::Priority => {
                if h.stream_id == 0 {
                    return Err(H2Error::Connection(ErrorCode::ProtocolError));
                }
                if h.length != 5 {
                    return Err(H2Error::Stream { id: h.stream_id, code: ErrorCode::FrameSizeError });
                }
                let dep = u32_from_octets(f.payload.as_slice());
                proof {
                    assert(dep & 0x7fff_ffff == dep % 0x8000_0000) by (bit_vector);
                }
                if dep & 0x7fff_ffff == h.stream_id {
                    return Err(H2Error::Stream { id: h.stream_id, code: ErrorCode::ProtocolError });
                }
                Ok(())
            },
            FrameType::RstStream => self.on_rst_stream_frame(h),
            FrameType::PushPromise => Err(H2Error::Connection(ErrorCode::ProtocolError)),
            FrameType::Headers => self.on_headers_frame(h, f.payload.as_slice()),
            FrameType::Continuation => self.on_continuation_frame(h, f.payload.as_slice()),
            FrameType::Data => self.on_data_frame(h, f.payload.as_slice()),
            FrameType::Unknown(_) => Ok(()),
        }
    }


    /// Flushes every stream with body octets waiting.
    fn flush_sends(&mut self)
        requires
            old(self).ready(),
        ensures
            final(self).ready(),
            final(self)@ == (ConnView { session: flush_sends_spec(old(self)@.session), ..old(self)@ }),
    {
        let all = self.stream_ids();
        let ghost c = self@.session;
        let mut ids: Vec<u32> = Vec::new();
        let mut i: usize = 0;
        proof {
            assert(all@.take(0) =~= Seq::<u32>::empty());
            reveal(Seq::filter);
        }
        while i < all.len()
            invariant
                i <= all.len(),
                c == self@.session,
                ids@ == waiting_ids(c, all@.take(i as int)),
            decreases all.len() - i,
        {
            let k = all[i];
            proof {
                assert(all@.take(i + 1) =~= all@.take(i as int).push(k));
                all@.take(i as int).lemma_filter_push(k, is_waiting(c));
            }
            match self.streams.get(&k) {
                Some(s) => {
                    if !s.finished && s.pending.len() > 0 {
                        ids.push(k);
                    }
                },
                None => {},
            }
            i = i + 1;
        }
        proof {
            assert(all@.take(all.len() as int) =~= all@);
            assert(ids@.skip(0) =~= ids@);
        }
        let mut j: usize = 0;
        while j < ids.len()
            invariant
                j <= ids.len(),
                self.ready(),
                self@.input == old(self)@.input,
                flush_sends_spec(c) == flush_each(self@.session, ids@.skip(j as int)),
                ids@ == waiting_ids(c, ascending(c.streams.dom())),
                c == old(self)@.session,
            decreases ids.len() - j,
        {
            proof {
                assert(ids@.skip(j as int).drop_first() =~= ids@.skip(j + 1));
            }
            self.flush_stream(ids[j]);
            j = j + 1;
        }
    }

    /// Takes in octets received from the client, and acts on every frame
    /// that they complete, flushing waiting bodies after each; stops at the
    /// first error, which the caller answers with `fail`.
    pub fn run(&mut self, received: &[u8]) -> (r: H2Result<()>)
        requires
            old(self).ready(),
        ensures
            final(self).wf(),
            r is Ok ==> final(self).ready(),
            r is Ok ==> session_inv(final(self)@.session),
            (final(self)@, r) == run_spec(old(self)@, received@),
    {
        self.dec.feed(received);
        loop
            invariant
                self.ready(),
                self@.input.max_frame_size == old(self)@.input.max_frame_size,
                process_spec(self@.session, self@.input.pending, self@.input.max_frame_size)
                    == process_spec(
                    old(self)@.session,
                    old(self)@.input.pending + received@,
                    old(self)@.input.max_frame_size,
                ),
            decreases self@.input.pending.len(),
        {
            match self.dec.next_frame() {
                Ok(Some(f)) => {
                    self.dispatch(f)?;
                    self.flush_sends();
                },
                Ok(None) => {
                    return Ok(());
                },
                Err(e) => {
                    return Err(e);
                },
            }
        }
    }

    /// Checks the connection preface received so far, `ended` telling
    /// whether the input has ended (or can no longer be read) after these
    /// octets: `Ok(false)` while it is incomplete and more may come,
    /// `Ok(true)` once it is whole, with our SETTINGS frame then written out
    /// (RFC 7540 section 3.5); a PROTOCOL_ERROR as soon as an octet differs,
    /// or when the input ends before the preface is whole.
    pub fn handshake(&mut self, received: &[u8], ended: bool) -> (r: H2Result<bool>)
        requires
            old(self).wf(),
        ensures
            final(self).wf(),
            old(self).ready() ==> final(self).ready(),
            ({
                let p = preface_octets();
                let n = received@.len();
                if n > p.len() || received@ != p.take(n as int) {
                    r == Err::<bool, H2Error>(connection_error(ErrorCode::ProtocolError))
                        && final(self)@ == old(self)@
                } else if n < p.len() && ended {
                    r == Err::<bool, H2Error>(connection_error(ErrorCode::ProtocolError))
                        && final(self)@ == old(self)@
                } else if n < p.len() {
                    r == Ok::<bool, H2Error>(false) && final(self)@ == old(self)@
                } else {
                    r == Ok::<bool, H2Error>(true) && final(self)@ == (ConnView {
                        session: emit(
                            old(self)@.session,
                            frame_bytes(
                                FrameType::Settings,
                                0,
                                0,
                                settings_payload(old(self)@.session.local),
                            ),
                        ),
                        ..old(self)@
                    })
                }
            }),
    {
        let p = PREFACE.as_bytes();
        if received.len() > p.len() {
            return Err(H2Error::Connection(ErrorCode::ProtocolError));
        }
        let mut i: usize = 0;
        while i < received.len()
            invariant
                self.wf(),
                self@ == old(self)@,
                i <= received.len() <= p.len(),
                p@ == preface_octets(),
                forall|j: int| 0 <= j < i ==> received@[j] == p@[j],
            decreases received.len() - i,
        {
            if received[i] != p[i] {
                proof {
                    assert(received@[i as int] != p@.take(received.len() as int)[i as int]);
                }
                return Err(H2Error::Connection(ErrorCode::ProtocolError));
            }
            i = i + 1;
        }
        proof {
            assert(received@ =~= p@.take(received.len() as int));
        }
        if received.len() < p.len() {
            if ended {
                return Err(H2Error::Connection(ErrorCode::ProtocolError));
            }
            return Ok(false);
        }
        let settings = Frame::new(FrameType::Settings, 0, 0, self.local.encode_payload());
        self.write_frame(&settings);
        Ok(true)
    }

    /// Appends GOAWAY with `code`, unless one was sent already.
    fn goaway(&mut self, code: ErrorCode)
        requires
            old(self).wf(),
        ensures
            final(self).wf(),
            final(self)@ == (ConnView {
                session: fail_spec(old(self)@.session, H2Error::Connection(code)),
                ..old(self)@
            }),
    {
        if self.goaway_sent {
            return ;
        }
        self.goaway_sent = true;
        let mut payload = u32_to_octets(self.highest_client_stream & 0x7fff_ffff);
        proof {
            let v = self.highest_client_stream;
            assert(v & 0x7fff_ffff == v % 0x8000_0000) by (bit_vector);
        }
        let mut tail = u32_to_octets(code.as_u32());
        payload.append(&mut tail);
        let f = Frame::new(FrameType::GoAway, 0, 0, payload);
        self.write_frame(&f);
    }

    /// Answers an error: GOAWAY for a connection error (once), RST_STREAM
    /// for a stream error. What it writes is then taken out and sent.
    pub fn fail(&mut self, e: H2Error)
        requires
            old(self).wf(),
        ensures
            final(self).wf(),
            old(self).ready() ==> final(self).ready(),
            final(self)@ == (ConnView { session: fail_spec(old(self)@.session, e), ..old(self)@ }),
    {
        match e {
            H2Error::Connection(code) => self.goaway(code),
            H2Error::Stream { id, code } => {
                let f = Frame::new(FrameType::RstStream, 0, id, u32_to_octets(code.as_u32()));
                self.write_frame(&f);
            },
        }
    }

    /// The identifiers of all streams, in increasing order.
    fn stream_ids(&self) -> (ids: Vec<u32>)
        ensures
            ids@ == ascending(self@.session.streams.dom()),
            increasing(ids@),
            ids@.to_set() == self@.session.streams.dom(),
    {
        let ghost keys = vstd::std_specs::hash::spec_keys_iter(&self.streams).remaining().unref();
        proof {
            vstd::std_specs::hash::axiom_spec_keys_iter(&self.streams);
        }
        let mut found: Vec<u32> = Vec::new();
        for k in it: self.streams.keys()
            invariant
                keys == vstd::std_specs::hash::spec_keys_iter(&self.streams).remaining().unref(),
                it.seq().unref() == keys,
                found@ == keys.take(it.index()),
        {
            found.push(*k);
            proof {
                assert(keys.take(it.index() + 1) =~= found@);
            }
        }
        proof {
            assert(found@ =~= keys);
        }
        let mut sorted: Vec<u32> = Vec::new();
        let mut i: usize = 0;
        while i < found.len()
            invariant
                i <= found.len(),
                found@.no_duplicates(),
                increasing(sorted@),
                sorted@.to_set() == found@.take(i as int).to_set(),
            decreases found.len() - i,
        {
            let k = found[i];
            let mut j: usize = 0;
            while j < sorted.len() && sorted[j] < k
                invariant
                    j <= sorted.len(),
                    forall|t: int| 0 <= t < j ==> sorted@[t] < k,
                decreases sorted.len() - j,
            {
                j = j + 1;
            }
            proof {
                if j < sorted.len() {
                    assert(sorted@.to_set().contains(sorted@[j as int]));
                    let q = choose|q: int| 0 <= q < i && found@[q] == sorted@[j as int];
                    assert(found@[q] != found@[i as int]);
                }
            }
            let ghost before = sorted@;
            sorted.insert(j, k);
            proof {
                assert(found@.take(i + 1) =~= found@.take(i as int).push(k));
                assert forall|x: u32| sorted@.to_set().contains(x) <==> found@.take(i + 1).to_set().contains(x) by {
                    if sorted@.to_set().contains(x) {
                        let p = choose|p: int| 0 <= p < sorted@.len() && sorted@[p] == x;
                        if p < j {
                            assert(before.to_set().contains(before[p]));
                        } else if p > j {
                            assert(before.to_set().contains(before[p - 1]));
                        }
                        if x != k {
                            let q = choose|q: int| 0 <= q < i && found@[q] == x;
                            assert(found@.take(i + 1)[q] == x);
                        } else {
                            assert(found@.take(i + 1)[i as int] == x);
                        }
                    }
                    if found@.take(i + 1).to_set().contains(x) {
                        let q = choose|q: int| 0 <= q <= i && #[trigger] found@.take(i + 1)[q] == x;
                        if q < i {
                            assert(found@.take(i as int)[q] == x);
                            assert(before.to_set().contains(x));
                            let p = choose|p: int| 0 <= p < before.len() && before[p] == x;
                            if p < j {
                                assert(sorted@[p] == x);
                            } else {
                                assert(sorted@[p + 1] == x);
                            }
                        } else {
                            assert(sorted@[j as int] == x);
                        }
                    }
                }
                assert(sorted@.to_set() =~= found@.take(i + 1).to_set());
            }
            i = i + 1;
        }
        proof {
            assert(found@.take(found.len() as int) =~= found@);
            assert(sorted@.to_set() =~= self@.session.streams.dom());
            lemma_ascending_of(sorted@);
        }
        sorted
    }
}

} // verus!
