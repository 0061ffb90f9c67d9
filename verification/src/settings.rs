use vstd::prelude::*;

use crate::error::{ErrorCode, H2Error, H2Result};

verus! {

pub const HEADER_TABLE_SIZE: u16 = 0x1;

pub const ENABLE_PUSH: u16 = 0x2;

pub const MAX_CONCURRENT_STREAMS: u16 = 0x3;

pub const INITIAL_WINDOW_SIZE: u16 = 0x4;

pub const MAX_FRAME_SIZE: u16 = 0x5;

pub const MAX_HEADER_LIST_SIZE: u16 = 0x6;

pub const MAX_WINDOW_SIZE: u32 = 0x7fff_ffff;

pub const MIN_MAX_FRAME_SIZE: u32 = 16_384;

pub const MAX_MAX_FRAME_SIZE: u32 = 16_777_215;

/// The SETTINGS parameters of one endpoint (RFC 7540 section 6.5.2).
#[derive(Debug, Clone, Copy, PartialEq, Eq, Structural)]
pub struct Settings {
    pub header_table_size: u32,
    pub enable_push: bool,
    pub max_concurrent_streams: Option<u32>,
    pub initial_window_size: u32,
    pub max_frame_size: u32,
    pub max_header_list_size: Option<u32>,
}

/// The initial values of RFC 7540 section 6.5.2.
pub open spec fn default_settings() -> Settings {
    Settings {
        header_table_size: 4096,
        enable_push: true,
        max_concurrent_streams: None,
        initial_window_size: 65_535,
        max_frame_size: MIN_MAX_FRAME_SIZE,
        max_header_list_size: None,
    }
}

impl Default for Settings {
    fn default() -> (r: Self)
        ensures
            r == default_settings(),
    {
        Settings {
            header_table_size: 4096,
            enable_push: true,
            max_concurrent_streams: None,
            initial_window_size: 65_535,
            max_frame_size: MIN_MAX_FRAME_SIZE,
            max_header_list_size: None,
        }
    }
}

/// The settings after one parameter is received: an ENABLE_PUSH other than
/// 0 or 1, or a MAX_FRAME_SIZE out of range, is a PROTOCOL_ERROR; an
/// INITIAL_WINDOW_SIZE above 2^31 - 1 a FLOW_CONTROL_ERROR; unknown
/// identifiers are ignored.
pub open spec fn apply_setting(s: Settings, id: u16, value: u32) -> Result<Settings, H2Error> {
    if id == HEADER_TABLE_SIZE {
        Ok(Settings { header_table_size: value, ..s })
    } else if id == ENABLE_PUSH {
        if value == 0 {
            Ok(Settings { enable_push: false, ..s })
        } else if value == 1 {
            Ok(Settings { enable_push: true, ..s })
        } else {
            Err(H2Error::Connection(ErrorCode::ProtocolError))
        }
    } else if id == MAX_CONCURRENT_STREAMS {
        Ok(Settings { max_concurrent_streams: Some(value), ..s })
    } else if id == INITIAL_WINDOW_SIZE {
        if value > MAX_WINDOW_SIZE {
            Err(H2Error::Connection(ErrorCode::FlowControlError))
        } else {
            Ok(Settings { initial_window_size: value, ..s })
        }
    } else if id == MAX_FRAME_SIZE {
        if value < MIN_MAX_FRAME_SIZE || value > MAX_MAX_FRAME_SIZE {
            Err(H2Error::Connection(ErrorCode::ProtocolError))
        } else {
            Ok(Settings { max_frame_size: value, ..s })
        }
    } else if id == MAX_HEADER_LIST_SIZE {
        Ok(Settings { max_header_list_size: Some(value), ..s })
    } else {
        Ok(s)
    }
}

/// The big-endian value of two octets.
pub open spec fn be16(b: Seq<u8>) -> u16 {
    (b[0] as nat * 0x100 + b[1] as nat) as u16
}

/// The big-endian value of four octets.
pub open spec fn be32(b: Seq<u8>) -> u32 {
    (b[0] as nat * 0x1000000 + b[1] as nat * 0x10000 + b[2] as nat * 0x100 + b[3] as nat) as u32
}

/// The four big-endian octets of `v`.
pub open spec fn u32_octets(v: u32) -> Seq<u8> {
    seq![
        (v / 0x1000000) as u8,
        ((v / 0x10000) % 0x100) as u8,
        ((v / 0x100) % 0x100) as u8,
        (v % 0x100) as u8,
    ]
}

/// The big-endian octets of `v`.
pub(crate) fn u32_to_octets(v: u32) -> (r: Vec<u8>)
    ensures
        r@ == u32_octets(v),
{
    proof {
        assert((v >> 24) as u8 == (v / 0x1000000) as u8 && (v >> 16) as u8 == ((v / 0x10000)
            % 0x100) as u8 && (v >> 8) as u8 == ((v / 0x100) % 0x100) as u8 && v as u8 == (v
            % 0x100) as u8) by (bit_vector);
    }
    let mut out: Vec<u8> = Vec::new();
    out.push((v >> 24) as u8);
    out.push((v >> 16) as u8);
    out.push((v >> 8) as u8);
    out.push(v as u8);
    proof {
        assert(out@ =~= u32_octets(v));
    }
    out
}

/// The big-endian value of the first four octets of `b`.
pub(crate) fn u32_from_octets(b: &[u8]) -> (r: u32)
    requires
        b.len() >= 4,
    ensures
        r == be32(b@),
{
    let (b0, b1, b2, b3) = (b[0], b[1], b[2], b[3]);
    proof {
        assert((b0 as u32) << 24 | (b1 as u32) << 16 | (b2 as u32) << 8 | b3 as u32 == (b0 as u32
            * 0x1000000 + b1 as u32 * 0x10000 + b2 as u32 * 0x100 + b3 as u32) as u32)
            by (bit_vector);
    }
    (b0 as u32) << 24 | (b1 as u32) << 16 | (b2 as u32) << 8 | b3 as u32
}

/// The parameters of a SETTINGS payload, six octets each, applied in order;
/// the settings reached when the first error stops them, and the outcome.
pub open spec fn apply_params(s: Settings, payload: Seq<u8>) -> (Settings, Result<(), H2Error>)
    decreases payload.len(),
{
    if payload.len() < 6 {
        (s, Ok(()))
    } else {
        let chunk = payload.take(6);
        match apply_setting(s, be16(chunk), be32(chunk.skip(2))) {
            Err(e) => (s, Err(e)),
            Ok(next) => apply_params(next, payload.skip(6)),
        }
    }
}

/// Receiving a SETTINGS payload: a FRAME_SIZE_ERROR, with nothing changed,
/// when its length is not a multiple of six.
pub open spec fn apply_payload(s: Settings, payload: Seq<u8>) -> (Settings, Result<(), H2Error>) {
    if payload.len() % 6 != 0 {
        (s, Err(H2Error::Connection(ErrorCode::FrameSizeError)))
    } else {
        apply_params(s, payload)
    }
}

/// The six octets of one parameter.
pub open spec fn param_octets(id: u16, value: u32) -> Seq<u8> {
    seq![
        (id / 0x100) as u8,
        (id % 0x100) as u8,
        (value / 0x1000000) as u8,
        ((value / 0x10000) % 0x100) as u8,
        ((value / 0x100) % 0x100) as u8,
        (value % 0x100) as u8,
    ]
}

/// The SETTINGS payload that this endpoint sends: the header table size,
/// the initial window size and the maximum frame size, then the maximum
/// number of concurrent streams where there is one.
pub open spec fn settings_payload(s: Settings) -> Seq<u8> {
    param_octets(HEADER_TABLE_SIZE, s.header_table_size) + param_octets(
        INITIAL_WINDOW_SIZE,
        s.initial_window_size,
    ) + param_octets(MAX_FRAME_SIZE, s.max_frame_size) + match s.max_concurrent_streams {
        Some(n) => param_octets(MAX_CONCURRENT_STREAMS, n),
        None => Seq::empty(),
    }
}

fn put(out: &mut Vec<u8>, id: u16, v: u32)
    ensures
        final(out)@ == old(out)@ + param_octets(id, v),
{
    proof {
        assert((id >> 8) as u8 == (id / 0x100) as u8 && id as u8 == (id % 0x100) as u8)
            by (bit_vector);
        assert((v >> 24) as u8 == (v / 0x1000000) as u8 && (v >> 16) as u8 == ((v / 0x10000)
            % 0x100) as u8 && (v >> 8) as u8 == ((v / 0x100) % 0x100) as u8 && v as u8 == (v
            % 0x100) as u8) by (bit_vector);
    }
    out.push((id >> 8) as u8);
    out.push(id as u8);
    out.push((v >> 24) as u8);
    out.push((v >> 16) as u8);
    out.push((v >> 8) as u8);
    out.push(v as u8);
    proof {
        assert(final(out)@ =~= old(out)@ + param_octets(id, v));
    }
}

impl Settings {
    /// Applies the parameters of a received SETTINGS payload, in order.
    pub fn apply(&mut self, payload: &[u8]) -> (r: H2Result<()>)
        ensures
            (*final(self), r) == apply_payload(*old(self), payload@),
    {
        if payload.len() % 6 != 0 {
            return Err(H2Error::Connection(ErrorCode::FrameSizeError));
        }
        let mut i: usize = 0;
        proof {
            assert(payload@.skip(0) =~= payload@);
        }
        while i < payload.len()
            invariant
                payload.len() % 6 == 0,
                i <= payload.len(),
                i % 6 == 0,
                apply_payload(*old(self), payload@) == apply_params(*self, payload@.skip(i as int)),
            decreases payload.len() - i,
        {
            let ghost rest = payload@.skip(i as int);
            let c0 = payload[i];
            let c1 = payload[i + 1];
            let c2 = payload[i + 2];
            let c3 = payload[i + 3];
            let c4 = payload[i + 4];
            let c5 = payload[i + 5];
            let id = (c0 as u16) << 8 | c1 as u16;
            let value = (c2 as u32) << 24 | (c3 as u32) << 16 | (c4 as u32) << 8 | c5 as u32;
            proof {
                assert((c0 as u16) << 8 | c1 as u16 == (c0 as u16 * 0x100 + c1 as u16) as u16)
                    by (bit_vector);
                assert((c2 as u32) << 24 | (c3 as u32) << 16 | (c4 as u32) << 8 | c5 as u32 == (c2
                    as u32 * 0x1000000 + c3 as u32 * 0x10000 + c4 as u32 * 0x100 + c5 as u32) as u32)
                    by (bit_vector);
                let chunk = rest.take(6);
                assert(chunk[0] == c0 && chunk[1] == c1);
                assert(chunk.skip(2)[0] == c2 && chunk.skip(2)[1] == c3 && chunk.skip(2)[2] == c4
                    && chunk.skip(2)[3] == c5);
                assert(rest.skip(6) =~= payload@.skip(i + 6));
            }
            match id {
                HEADER_TABLE_SIZE => self.header_table_size = value,
                ENABLE_PUSH => match value {
                    0 => self.enable_push = false,
                    1 => self.enable_push = true,
                    _ => return Err(H2Error::Connection(ErrorCode::ProtocolError)),
                },
                MAX_CONCURRENT_STREAMS => self.max_concurrent_streams = Some(value),
                INITIAL_WINDOW_SIZE => {
                    if value > MAX_WINDOW_SIZE {
                        return Err(H2Error::Connection(ErrorCode::FlowControlError));
                    }
                    self.initial_window_size = value;
                },
                MAX_FRAME_SIZE => {
                    if value < MIN_MAX_FRAME_SIZE || value > MAX_MAX_FRAME_SIZE {
                        return Err(H2Error::Connection(ErrorCode::ProtocolError));
                    }
                    self.max_frame_size = value;
                },
                MAX_HEADER_LIST_SIZE => self.max_header_list_size = Some(value),
                _ => {},
            }
            i = i + 6;
        }
        proof {
            assert(payload@.skip(i as int).len() == 0);
        }
        Ok(())
    }

    pub fn encode_payload(&self) -> (r: Vec<u8>)
        ensures
            r@ == settings_payload(*self),
    {
        let mut out: Vec<u8> = Vec::new();
        put(&mut out, HEADER_TABLE_SIZE, self.header_table_size);
        put(&mut out, INITIAL_WINDOW_SIZE, self.initial_window_size);
        put(&mut out, MAX_FRAME_SIZE, self.max_frame_size);
        if let Some(n) = self.max_concurrent_streams {
            put(&mut out, MAX_CONCURRENT_STREAMS, n);
        }
        proof {
            assert(out@ =~= settings_payload(*self));
        }
        out
    }
}

proof fn lemma_param_round_trip(id: u16, value: u32, rest: Seq<u8>)
    ensures
        (param_octets(id, value) + rest).len() >= 6,
        be16((param_octets(id, value) + rest).take(6)) == id,
        be32((param_octets(id, value) + rest).take(6).skip(2)) == value,
        (param_octets(id, value) + rest).skip(6) == rest,
{
    let p = param_octets(id, value) + rest;
    assert(((((id / 0x100) as u8) as u16) * 0x100 + ((id % 0x100) as u8) as u16) as u16 == id)
        by (bit_vector);
    assert(((((value / 0x1000000) as u8) as u32) * 0x1000000 + ((((value / 0x10000) % 0x100) as u8)
        as u32) * 0x10000 + ((((value / 0x100) % 0x100) as u8) as u32) * 0x100 + (((value % 0x100)
        as u8) as u32)) as u32 == value) by (bit_vector);
    assert(p.skip(6) =~= rest);
}

/// The SETTINGS payload that this endpoint sends, received by an endpoint
/// with settings `t`, gives it our table size, window size and frame size
/// (and stream limit, where we have one), and nothing else changes.
pub proof fn lemma_settings_payload_applies(s: Settings, t: Settings)
    requires
        s.initial_window_size <= MAX_WINDOW_SIZE,
        MIN_MAX_FRAME_SIZE <= s.max_frame_size <= MAX_MAX_FRAME_SIZE,
    ensures
        apply_payload(t, settings_payload(s)) == (
            Settings {
                header_table_size: s.header_table_size,
                initial_window_size: s.initial_window_size,
                max_frame_size: s.max_frame_size,
                max_concurrent_streams: match s.max_concurrent_streams {
                    Some(n) => Some(n),
                    None => t.max_concurrent_streams,
                },
                ..t
            },
            Ok::<(), H2Error>(()),
        ),
{
    let tail = match s.max_concurrent_streams {
        Some(n) => param_octets(MAX_CONCURRENT_STREAMS, n),
        None => Seq::<u8>::empty(),
    };
    let p3 = param_octets(MAX_FRAME_SIZE, s.max_frame_size) + tail;
    let p2 = param_octets(INITIAL_WINDOW_SIZE, s.initial_window_size) + p3;
    let p1 = param_octets(HEADER_TABLE_SIZE, s.header_table_size) + p2;
    assert(settings_payload(s) =~= p1);
    lemma_param_round_trip(HEADER_TABLE_SIZE, s.header_table_size, p2);
    lemma_param_round_trip(INITIAL_WINDOW_SIZE, s.initial_window_size, p3);
    lemma_param_round_trip(MAX_FRAME_SIZE, s.max_frame_size, tail);
    let t1 = Settings { header_table_size: s.header_table_size, ..t };
    let t2 = Settings { initial_window_size: s.initial_window_size, ..t1 };
    let t3 = Settings { max_frame_size: s.max_frame_size, ..t2 };
    assert(apply_params(t, p1) == apply_params(t1, p2));
    assert(apply_params(t1, p2) == apply_params(t2, p3));
    assert(apply_params(t2, p3) == apply_params(t3, tail));
    match s.max_concurrent_streams {
        Some(n) => {
            lemma_param_round_trip(MAX_CONCURRENT_STREAMS, n, Seq::empty());
            assert(param_octets(MAX_CONCURRENT_STREAMS, n) + Seq::<u8>::empty() =~= tail);
            let t4 = Settings { max_concurrent_streams: Some(n), ..t3 };
            assert(apply_params(t3, tail) == apply_params(t4, Seq::<u8>::empty()));
        },
        None => {},
    }
    assert(p1.len() % 6 == 0);
}

/// Whatever a SETTINGS payload holds, the initial window size that it
/// leaves stays within the maximum.
pub proof fn lemma_apply_keeps_window_bound(s: Settings, payload: Seq<u8>)
    requires
        s.initial_window_size <= MAX_WINDOW_SIZE,
    ensures
        apply_payload(s, payload).0.initial_window_size <= MAX_WINDOW_SIZE,
{
    if payload.len() % 6 == 0 {
        lemma_apply_params_keeps_window_bound(s, payload);
    }
}

proof fn lemma_apply_params_keeps_window_bound(s: Settings, payload: Seq<u8>)
    requires
        s.initial_window_size <= MAX_WINDOW_SIZE,
    ensures
        apply_params(s, payload).0.initial_window_size <= MAX_WINDOW_SIZE,
    decreases payload.len(),
{
    if payload.len() >= 6 {
        let chunk = payload.take(6);
        if let Ok(next) = apply_setting(s, be16(chunk), be32(chunk.skip(2))) {
            lemma_apply_params_keeps_window_bound(next, payload.skip(6));
        }
    }
}

proof fn lemma_apply_params_append(s: Settings, p: Seq<u8>, q: Seq<u8>)
    requires
        p.len() % 6 == 0,
        apply_params(s, p).1 is Ok,
    ensures
        apply_params(s, p + q) == apply_params(apply_params(s, p).0, q),
    decreases p.len(),
{
    if p.len() >= 6 {
        assert((p + q).take(6) =~= p.take(6));
        assert((p + q).skip(6) =~= p.skip(6) + q);
        let chunk = p.take(6);
        if let Ok(next) = apply_setting(s, be16(chunk), be32(chunk.skip(2))) {
            lemma_apply_params_append(next, p.skip(6), q);
        }
    } else {
        assert(p.len() == 0);
        assert(p + q =~= q);
    }
}

/// A parameter received sets its setting to the value sent, whatever was
/// received before it (so the last of several for one identifier wins), or
/// is refused with the error of RFC 7540 section 6.5.2; a parameter with an
/// unknown identifier changes nothing.
pub proof fn lemma_parameter_sets_value(s: Settings, payload: Seq<u8>, id: u16, v: u32)
    requires
        apply_payload(s, payload).1 is Ok,
    ensures
        ({
            let t = apply_payload(s, payload).0;
            let (u, r) = apply_payload(s, payload + param_octets(id, v));
            &&& id == 0x1 ==> r is Ok && u == Settings { header_table_size: v, ..t }
            &&& id == 0x2 && v <= 1 ==> r is Ok && u == Settings { enable_push: v == 1, ..t }
            &&& id == 0x2 && v > 1 ==> r == Err::<(), H2Error>(
                H2Error::Connection(ErrorCode::ProtocolError),
            )
            &&& id == 0x3 ==> r is Ok && u == Settings { max_concurrent_streams: Some(v), ..t }
            &&& id == 0x4 && v <= 0x7fff_ffff ==> r is Ok && u == Settings {
                initial_window_size: v,
                ..t
            }
            &&& id == 0x4 && v > 0x7fff_ffff ==> r == Err::<(), H2Error>(
                H2Error::Connection(ErrorCode::FlowControlError),
            )
            &&& id == 0x5 && 16_384 <= v <= 16_777_215 ==> r is Ok && u == Settings {
                max_frame_size: v,
                ..t
            }
            &&& id == 0x5 && !(16_384 <= v <= 16_777_215) ==> r == Err::<(), H2Error>(
                H2Error::Connection(ErrorCode::ProtocolError),
            )
            &&& id == 0x6 ==> r is Ok && u == Settings { max_header_list_size: Some(v), ..t }
            &&& (id == 0 || id > 0x6) ==> r is Ok && u == t
        }),
{
    let q = param_octets(id, v);
    lemma_apply_params_append(s, payload, q);
    lemma_param_round_trip(id, v, Seq::empty());
    assert(q + Seq::<u8>::empty() =~= q);
    assert(q.skip(6) =~= Seq::<u8>::empty());
    assert(q.take(6) =~= q);
    let t = apply_payload(s, payload).0;
    assert(payload.len() % 6 == 0);
    assert((payload + q).len() % 6 == 0);
    assert(apply_payload(s, payload + q) == apply_params(t, q));
    assert(be16(q.take(6)) == id && be32(q.take(6).skip(2)) == v);
    match apply_setting(t, id, v) {
        Err(e) => {
            assert(apply_params(t, q) == (t, Err::<(), H2Error>(e)));
        },
        Ok(n) => {
            assert(apply_params(n, Seq::<u8>::empty()) == (n, Ok::<(), H2Error>(())));
            assert(apply_params(t, q) == apply_params(n, q.skip(6)));
        },
    }
}

} // verus!
