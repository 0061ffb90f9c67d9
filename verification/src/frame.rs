use vstd::prelude::*;

use crate::error::{ErrorCode, H2Error, H2Result};

pub mod flag;

verus! {

pub const FRAME_HEADER_LEN: usize = 9;

pub const DEFAULT_MAX_FRAME_SIZE: u32 = 16_384;

pub const MAX_ALLOWED_FRAME_SIZE: u32 = 16_777_215;

/// The connection preface that a client sends first (RFC 7540 section 3.5).
pub const PREFACE: &'static str = "PRI * HTTP/2.0\r\n\r\nSM\r\n\r\n";

/// The frame types of RFC 7540 section 6; others are kept as their code.
#[derive(Debug, Clone, Copy, PartialEq, Eq, Structural)]
pub enum FrameType {
    Data,
    Headers,
    Priority,
    RstStream,
    Settings,
    PushPromise,
    Ping,
    GoAway,
    WindowUpdate,
    Continuation,
    Unknown(u8),
}

/// The frame type that a type code stands for.
pub open spec fn frame_type_of(v: u8) -> FrameType {
    if v == 0x0 {
        FrameType::Data
    } else if v == 0x1 {
        FrameType::Headers
    } else if v == 0x2 {
        FrameType::Priority
    } else if v == 0x3 {
        FrameType::RstStream
    } else if v == 0x4 {
        FrameType::Settings
    } else if v == 0x5 {
        FrameType::PushPromise
    } else if v == 0x6 {
        FrameType::Ping
    } else if v == 0x7 {
        FrameType::GoAway
    } else if v == 0x8 {
        FrameType::WindowUpdate
    } else if v == 0x9 {
        FrameType::Continuation
    } else {
        FrameType::Unknown(v)
    }
}

/// The type code of a frame type.
pub open spec fn type_code(t: FrameType) -> u8 {
    match t {
        FrameType::Data => 0x0,
        FrameType::Headers => 0x1,
        FrameType::Priority => 0x2,
        FrameType::RstStream => 0x3,
        FrameType::Settings => 0x4,
        FrameType::PushPromise => 0x5,
        FrameType::Ping => 0x6,
        FrameType::GoAway => 0x7,
        FrameType::WindowUpdate => 0x8,
        FrameType::Continuation => 0x9,
        FrameType::Unknown(v) => v,
    }
}

/// A frame type that writes as a code it is read back from: every known
/// type, and unknown codes above 0x9.
pub open spec fn type_round_trips(t: FrameType) -> bool {
    t matches FrameType::Unknown(v) ==> v > 0x9
}

impl FrameType {
    pub fn from_u8(v: u8) -> (r: Self)
        ensures
            r == frame_type_of(v),
    {
        match v {
            0x0 => FrameType::Data,
            0x1 => FrameType::Headers,
            0x2 => FrameType::Priority,
            0x3 => FrameType::RstStream,
            0x4 => FrameType::Settings,
            0x5 => FrameType::PushPromise,
            0x6 => FrameType::Ping,
            0x7 => FrameType::GoAway,
            0x8 => FrameType::WindowUpdate,
            0x9 => FrameType::Continuation,
            other => FrameType::Unknown(other),
        }
    }

    pub fn as_u8(self) -> (r: u8)
        ensures
            r == type_code(self),
    {
        match self {
            FrameType::Data => 0x0,
            FrameType::Headers => 0x1,
            FrameType::Priority => 0x2,
            FrameType::RstStream => 0x3,
            FrameType::Settings => 0x4,
            FrameType::PushPromise => 0x5,
            FrameType::Ping => 0x6,
            FrameType::GoAway => 0x7,
            FrameType::WindowUpdate => 0x8,
            FrameType::Continuation => 0x9,
            FrameType::Unknown(v) => v,
        }
    }
}

/// Every type code reads as a type that writes back as the same code.
pub proof fn lemma_type_code_round_trip(v: u8)
    ensures
        type_code(frame_type_of(v)) == v,
        type_round_trips(frame_type_of(v)),
{
}

/// The type codes of RFC 7540 section 6, both ways: DATA 0x0, HEADERS 0x1,
/// PRIORITY 0x2, RST_STREAM 0x3, SETTINGS 0x4, PUSH_PROMISE 0x5, PING 0x6,
/// GOAWAY 0x7, WINDOW_UPDATE 0x8, CONTINUATION 0x9; any other code is an
/// unknown type that keeps it.
pub proof fn lemma_rfc_type_codes(v: u8)
    ensures
        frame_type_of(0x0) == FrameType::Data && type_code(FrameType::Data) == 0x0,
        frame_type_of(0x1) == FrameType::Headers && type_code(FrameType::Headers) == 0x1,
        frame_type_of(0x2) == FrameType::Priority && type_code(FrameType::Priority) == 0x2,
        frame_type_of(0x3) == FrameType::RstStream && type_code(FrameType::RstStream) == 0x3,
        frame_type_of(0x4) == FrameType::Settings && type_code(FrameType::Settings) == 0x4,
        frame_type_of(0x5) == FrameType::PushPromise && type_code(FrameType::PushPromise) == 0x5,
        frame_type_of(0x6) == FrameType::Ping && type_code(FrameType::Ping) == 0x6,
        frame_type_of(0x7) == FrameType::GoAway && type_code(FrameType::GoAway) == 0x7,
        frame_type_of(0x8) == FrameType::WindowUpdate && type_code(FrameType::WindowUpdate)
            == 0x8,
        frame_type_of(0x9) == FrameType::Continuation && type_code(FrameType::Continuation)
            == 0x9,
        v > 0x9 ==> frame_type_of(v) == FrameType::Unknown(v),
{
}

/// Every frame type, but an unknown one with the code of a known type,
/// writes as a code that reads back as that type.
pub proof fn lemma_frame_type_round_trip(t: FrameType)
    requires
        type_round_trips(t),
    ensures
        frame_type_of(type_code(t)) == t,
{
}

/// The fixed nine-octet header of a frame (RFC 7540 section 4.1).
#[derive(Debug, Clone, Copy, PartialEq, Eq, Structural)]
pub struct FrameHeader {
    pub length: u32,
    pub kind: FrameType,
    pub flags: u8,
    pub stream_id: u32,
}

/// The frame header that nine octets hold; the reserved bit of the stream
/// identifier is dropped.
pub open spec fn parse_header(b: Seq<u8>) -> FrameHeader {
    FrameHeader {
        length: (b[0] as nat * 0x10000 + b[1] as nat * 0x100 + b[2] as nat) as u32,
        kind: frame_type_of(b[3]),
        flags: b[4],
        stream_id: ((b[5] % 0x80) as nat * 0x1000000 + b[6] as nat * 0x10000 + b[7] as nat
            * 0x100 + b[8] as nat) as u32,
    }
}

/// The nine octets of a frame header: a 24-bit length, the type, the
/// flags, then the stream identifier with its reserved bit cleared; all
/// big-endian.
pub open spec fn header_octets(h: FrameHeader) -> Seq<u8> {
    let sid = h.stream_id % 0x8000_0000;
    seq![
        ((h.length / 0x10000) % 0x100) as u8,
        ((h.length / 0x100) % 0x100) as u8,
        (h.length % 0x100) as u8,
        type_code(h.kind),
        h.flags,
        (sid / 0x1000000) as u8,
        ((sid / 0x10000) % 0x100) as u8,
        ((sid / 0x100) % 0x100) as u8,
        (sid % 0x100) as u8,
    ]
}

/// A header whose fields all fit their places writes as octets that read
/// back as the same header.
pub proof fn lemma_header_round_trip(h: FrameHeader)
    requires
        h.length < 0x100_0000,
        h.stream_id < 0x8000_0000,
        type_round_trips(h.kind),
    ensures
        header_octets(h).len() == FRAME_HEADER_LEN,
        parse_header(header_octets(h)) == h,
{
    let b = header_octets(h);
    let l = h.length;
    let s = h.stream_id;
    assert(l < 0x100_0000 ==> ((((l / 0x10000) % 0x100) as u8) as u32 * 0x10000 + (((l / 0x100)
        % 0x100) as u8) as u32 * 0x100 + ((l % 0x100) as u8) as u32) == l) by (bit_vector);
    assert(s < 0x8000_0000 ==> (((((s % 0x8000_0000) / 0x1000000) as u8) % 0x80) as u32 * 0x1000000
        + ((((s % 0x8000_0000) / 0x10000) % 0x100) as u8) as u32 * 0x10000 + ((((s % 0x8000_0000)
        / 0x100) % 0x100) as u8) as u32 * 0x100 + (((s % 0x8000_0000) % 0x100) as u8) as u32) == s)
        by (bit_vector);
    assert(parse_header(b) =~= h);
}

impl FrameHeader {
    pub fn parse(b: &[u8]) -> (r: Self)
        requires
            b.len() >= FRAME_HEADER_LEN,
        ensures
            r == parse_header(b@),
    {
        let length = (b[0] as u32) << 16 | (b[1] as u32) << 8 | b[2] as u32;
        let raw_id = (b[5] as u32) << 24 | (b[6] as u32) << 16 | (b[7] as u32) << 8 | b[8] as u32;
        proof {
            let (b0, b1, b2, b5, b6, b7, b8) = (b[0], b[1], b[2], b[5], b[6], b[7], b[8]);
            assert((b0 as u32) << 16 | (b1 as u32) << 8 | b2 as u32 == (b0 as u32 * 0x10000
                + b1 as u32 * 0x100 + b2 as u32) as u32) by (bit_vector);
            assert(((b5 as u32) << 24 | (b6 as u32) << 16 | (b7 as u32) << 8 | b8 as u32)
                & 0x7fff_ffff == ((b5 % 0x80) as u32 * 0x1000000 + b6 as u32 * 0x10000 + b7 as u32
                * 0x100 + b8 as u32) as u32) by (bit_vector);
        }
        FrameHeader {
            length,
            kind: FrameType::from_u8(b[3]),
            flags: b[4],
            stream_id: raw_id & 0x7fff_ffff,
        }
    }

    pub fn write_into(&self, out: &mut Vec<u8>)
        ensures
            final(out)@ == old(out)@ + header_octets(*self),
    {
        let l = self.length;
        let raw = self.stream_id;
        let sid = raw & 0x7fff_ffff;
        proof {
            assert((l >> 16) as u8 == ((l / 0x10000) % 0x100) as u8 && (l >> 8) as u8 == ((l
                / 0x100) % 0x100) as u8 && l as u8 == (l % 0x100) as u8) by (bit_vector);
            assert(raw & 0x7fff_ffff == raw % 0x8000_0000) by (bit_vector);
            assert((sid >> 24) as u8 == (sid / 0x1000000) as u8 && (sid >> 16) as u8 == ((sid
                / 0x10000) % 0x100) as u8 && (sid >> 8) as u8 == ((sid / 0x100) % 0x100) as u8
                && sid as u8 == (sid % 0x100) as u8) by (bit_vector);
        }
        out.push((l >> 16) as u8);
        out.push((l >> 8) as u8);
        out.push(l as u8);
        out.push(self.kind.as_u8());
        out.push(self.flags);
        out.push((sid >> 24) as u8);
        out.push((sid >> 16) as u8);
        out.push((sid >> 8) as u8);
        out.push(sid as u8);
        proof {
            assert(final(out)@ =~= old(out)@ + header_octets(*self));
        }
    }

    pub fn has(&self, f: u8) -> (r: bool)
        ensures
            r == (self.flags & f != 0),
    {
        self.flags & f != 0
    }
}

/// A frame: its header and its payload.
#[derive(Debug, Clone, PartialEq, Eq)]
pub struct Frame {
    pub header: FrameHeader,
    pub payload: Vec<u8>,
}

impl View for Frame {
    type V = (FrameHeader, Seq<u8>);

    open spec fn view(&self) -> (FrameHeader, Seq<u8>) {
        (self.header, self.payload@)
    }
}

/// The octets of a frame on the wire.
pub open spec fn frame_octets(f: (FrameHeader, Seq<u8>)) -> Seq<u8> {
    header_octets(f.0) + f.1
}

impl Frame {
    /// A frame whose length is that of the payload (cast to a `u32`).
    pub fn new(kind: FrameType, flags: u8, stream_id: u32, payload: Vec<u8>) -> (r: Self)
        ensures
            r.header == (FrameHeader { length: payload.len() as u32, kind, flags, stream_id }),
            r.payload@ == payload@,
    {
        Frame {
            header: FrameHeader { length: payload.len() as u32, kind, flags, stream_id },
            payload,
        }
    }

    pub fn encode(&self) -> (r: Vec<u8>)
        ensures
            r@ == frame_octets(self@),
    {
        let mut out: Vec<u8> = Vec::new();
        self.header.write_into(&mut out);
        let mut i: usize = 0;
        let ghost head = out@;
        while i < self.payload.len()
            invariant
                i <= self.payload.len(),
                out@ == head + self.payload@.take(i as int),
            decreases self.payload.len() - i,
        {
            out.push(self.payload[i]);
            i = i + 1;
            proof {
                assert(out@ =~= head + self.payload@.take(i as int));
            }
        }
        proof {
            assert(self.payload@.take(self.payload.len() as int) =~= self.payload@);
        }
        out
    }
}

/// One step of frame decoding on the octets received and not yet consumed:
/// a frame and what follows it; `None` while the header or the payload is
/// incomplete; a FRAME_SIZE_ERROR as soon as a header announces a payload
/// longer than `max` (RFC 7540 section 4.2).
pub open spec fn next_frame_spec(pending: Seq<u8>, max: u32) -> Result<
    Option<((FrameHeader, Seq<u8>), Seq<u8>)>,
    H2Error,
> {
    if pending.len() < FRAME_HEADER_LEN {
        Ok(None)
    } else {
        let h = parse_header(pending.take(FRAME_HEADER_LEN as int));
        let end = FRAME_HEADER_LEN + h.length;
        if h.length > max {
            Err(H2Error::Connection(ErrorCode::FrameSizeError))
        } else if pending.len() < end {
            Ok(None)
        } else {
            Ok(Some(((h, pending.subrange(FRAME_HEADER_LEN as int, end)), pending.skip(end))))
        }
    }
}

/// A frame whose header fits its fields, with a payload of the length it
/// announces and within the maximum, is read back from its octets as the
/// same frame, whatever follows it.
pub proof fn lemma_frame_round_trip(f: (FrameHeader, Seq<u8>), rest: Seq<u8>, max: u32)
    requires
        f.0.length == f.1.len(),
        f.0.length <= max,
        f.0.length < 0x100_0000,
        f.0.stream_id < 0x8000_0000,
        type_round_trips(f.0.kind),
    ensures
        next_frame_spec(frame_octets(f) + rest, max) == Ok::<
            Option<((FrameHeader, Seq<u8>), Seq<u8>)>,
            H2Error,
        >(Some((f, rest))),
{
    lemma_header_round_trip(f.0);
    let p = frame_octets(f) + rest;
    let end = FRAME_HEADER_LEN + f.0.length;
    assert(p.take(FRAME_HEADER_LEN as int) =~= header_octets(f.0));
    assert(p.subrange(FRAME_HEADER_LEN as int, end) =~= f.1);
    assert(p.skip(end) =~= rest);
}

/// All the frames that can be decoded from `pending`, what is left after
/// them, and whether decoding stopped on an error.
pub open spec fn frames_of(pending: Seq<u8>, max: u32) -> (Seq<(FrameHeader, Seq<u8>)>, Seq<u8>, bool)
    decreases pending.len(),
{
    match next_frame_spec(pending, max) {
        Err(_) => (Seq::empty(), pending, true),
        Ok(None) => (Seq::empty(), pending, false),
        Ok(Some((f, rest))) => {
            let (fs, left, failed) = frames_of(rest, max);
            (seq![f] + fs, left, failed)
        },
    }
}

/// A frame decoded from some octets is decoded in the same way when more
/// octets follow them; an error stays an error.
pub proof fn lemma_next_frame_prefix(p: Seq<u8>, q: Seq<u8>, max: u32)
    ensures
        next_frame_spec(p, max) matches Ok(Some((f, rest))) ==> next_frame_spec(p + q, max) == Ok::<
            Option<((FrameHeader, Seq<u8>), Seq<u8>)>,
            H2Error,
        >(Some((f, rest + q))),
        next_frame_spec(p, max) is Err ==> next_frame_spec(p + q, max) == next_frame_spec(p, max),
{
    if p.len() >= FRAME_HEADER_LEN {
        assert((p + q).take(FRAME_HEADER_LEN as int) =~= p.take(FRAME_HEADER_LEN as int));
        let h = parse_header(p.take(FRAME_HEADER_LEN as int));
        let end = FRAME_HEADER_LEN + h.length;
        if h.length <= max && p.len() >= end {
            assert((p + q).subrange(FRAME_HEADER_LEN as int, end) =~= p.subrange(
                FRAME_HEADER_LEN as int,
                end,
            ));
            assert((p + q).skip(end) =~= p.skip(end) + q);
        }
    }
}

/// Decoding does not depend on how the octets were split into reads:
/// decoding what is left after the frames of `p`, with `q` appended,
/// gives the frames of `p + q` that follow those of `p`.
pub proof fn lemma_chunking_invariance(p: Seq<u8>, q: Seq<u8>, max: u32)
    ensures
        ({
            let (fs1, left1, failed1) = frames_of(p, max);
            let (fs, left, failed) = frames_of(p + q, max);
            if failed1 {
                fs == fs1 && failed
            } else {
                let (fs2, left2, failed2) = frames_of(left1 + q, max);
                fs == fs1 + fs2 && left == left2 && failed == failed2
            }
        }),
    decreases p.len(),
{
    lemma_next_frame_prefix(p, q, max);
    match next_frame_spec(p, max) {
        Err(_) => {},
        Ok(None) => {
            assert(Seq::<(FrameHeader, Seq<u8>)>::empty() + frames_of(p + q, max).0 =~= frames_of(
                p + q,
                max,
            ).0);
        },
        Ok(Some((f, rest))) => {
            assert(rest.len() < p.len());
            lemma_chunking_invariance(rest, q, max);
            let (fs1, left1, failed1) = frames_of(rest, max);
            if !failed1 {
                let (fs2, left2, failed2) = frames_of(left1 + q, max);
                assert(seq![f] + (fs1 + fs2) =~= (seq![f] + fs1) + fs2);
            }
        },
    }
}

/// The octets of several reads, one after the other.
pub open spec fn concat_reads(reads: Seq<Seq<u8>>) -> Seq<u8>
    decreases reads.len(),
{
    if reads.len() == 0 {
        Seq::empty()
    } else {
        reads[0] + concat_reads(reads.drop_first())
    }
}

/// The frames decoded when `reads` arrive one by one after `pending`, each
/// read followed by taking out every frame it completes: the frames, what
/// is left over, and whether decoding stopped on an error.
pub open spec fn frames_by_reads(pending: Seq<u8>, reads: Seq<Seq<u8>>, max: u32) -> (
    Seq<(FrameHeader, Seq<u8>)>,
    Seq<u8>,
    bool,
)
    decreases reads.len(),
{
    if reads.len() == 0 {
        (Seq::empty(), pending, false)
    } else {
        let (fs, left, failed) = frames_of(pending + reads[0], max);
        if failed {
            (fs, left, true)
        } else {
            let (fs2, left2, failed2) = frames_by_reads(left, reads.drop_first(), max);
            (fs + fs2, left2, failed2)
        }
    }
}

/// What is left after taking out every frame, without an error, holds no
/// complete frame.
proof fn lemma_frames_of_leaves_no_frame(pending: Seq<u8>, max: u32)
    ensures
        !frames_of(pending, max).2 ==> next_frame_spec(frames_of(pending, max).1, max) matches Ok(
            None,
        ),
    decreases pending.len(),
{
    if let Ok(Some((f, rest))) = next_frame_spec(pending, max) {
        lemma_frames_of_leaves_no_frame(rest, max);
    }
}

/// However the octets are split into reads, taking the frames out after
/// each read gives the frames, and the error if any, that decoding all the
/// octets at once gives, starting from octets that hold no complete frame.
pub proof fn lemma_chunking_any_reads(pending: Seq<u8>, reads: Seq<Seq<u8>>, max: u32)
    requires
        next_frame_spec(pending, max) matches Ok(None),
    ensures
        ({
            let (a, left_a, failed_a) = frames_by_reads(pending, reads, max);
            let (b, left_b, failed_b) = frames_of(pending + concat_reads(reads), max);
            &&& a == b
            &&& failed_a == failed_b
            &&& !failed_a ==> left_a == left_b
        }),
    decreases reads.len(),
{
    if reads.len() == 0 {
        assert(pending + concat_reads(reads) =~= pending);
    } else {
        let rest = concat_reads(reads.drop_first());
        assert(pending + concat_reads(reads) =~= (pending + reads[0]) + rest);
        lemma_chunking_invariance(pending + reads[0], rest, max);
        let (fs1, left1, failed1) = frames_of(pending + reads[0], max);
        if !failed1 {
            lemma_frames_of_leaves_no_frame(pending + reads[0], max);
            lemma_chunking_any_reads(left1, reads.drop_first(), max);
        }
    }
}

const COMPACT_THRESHOLD: usize = 32 * 1024;

/// A streaming frame decoder: octets are fed in as they arrive, and
/// frames are taken out as soon as they are complete.
pub struct FrameDecoder {
    buf: Vec<u8>,
    pos: usize,
    max_frame_size: u32,
}

/// What a frame decoder holds: the octets received and not yet consumed,
/// and the largest payload it accepts.
pub struct DecoderView {
    pub pending: Seq<u8>,
    pub max_frame_size: u32,
}

impl View for FrameDecoder {
    type V = DecoderView;

    closed spec fn view(&self) -> DecoderView {
        DecoderView { pending: self.buf@.skip(self.pos as int), max_frame_size: self.max_frame_size }
    }
}

impl Default for FrameDecoder {
    fn default() -> (r: Self)
        ensures
            r.wf(),
            r@ == (DecoderView { pending: Seq::empty(), max_frame_size: DEFAULT_MAX_FRAME_SIZE }),
    {
        Self::new()
    }
}

impl FrameDecoder {
    pub closed spec fn wf(&self) -> bool {
        self.pos <= self.buf.len()
    }

    pub fn new() -> (r: Self)
        ensures
            r.wf(),
            r@ == (DecoderView { pending: Seq::empty(), max_frame_size: DEFAULT_MAX_FRAME_SIZE }),
    {
        let r = FrameDecoder { buf: Vec::new(), pos: 0, max_frame_size: DEFAULT_MAX_FRAME_SIZE };
        proof {
            assert(r@.pending =~= Seq::<u8>::empty());
        }
        r
    }

    pub fn set_max_frame_size(&mut self, n: u32)
        requires
            old(self).wf(),
        ensures
            final(self).wf(),
            final(self)@ == (DecoderView { max_frame_size: n, ..old(self)@ }),
    {
        self.max_frame_size = n;
    }

    pub fn feed(&mut self, bytes: &[u8])
        requires
            old(self).wf(),
        ensures
            final(self).wf(),
            final(self)@ == (DecoderView { pending: old(self)@.pending + bytes@, ..old(self)@ }),
    {
        let mut i: usize = 0;
        while i < bytes.len()
            invariant
                self.wf(),
                i <= bytes.len(),
                self.pos == old(self).pos,
                self.max_frame_size == old(self).max_frame_size,
                self.buf@ == old(self).buf@ + bytes@.take(i as int),
            decreases bytes.len() - i,
        {
            self.buf.push(bytes[i]);
            i = i + 1;
            proof {
                assert(self.buf@ =~= old(self).buf@ + bytes@.take(i as int));
            }
        }
        proof {
            assert(bytes@.take(bytes.len() as int) =~= bytes@);
            assert(self@.pending =~= old(self)@.pending + bytes@);
        }
    }

    pub fn buffered(&self) -> (r: usize)
        requires
            self.wf(),
        ensures
            r == self@.pending.len(),
    {
        self.buf.len() - self.pos
    }

    /// Drops the consumed octets from the buffer once all of them are
    /// consumed, or once they reach `COMPACT_THRESHOLD`; what is pending
    /// stays the same.
    fn compact(&mut self)
        requires
            old(self).wf(),
        ensures
            final(self).wf(),
            final(self)@ == old(self)@,
            old(self).pos != 0 && (old(self).pos >= old(self).buf.len() || old(self).pos
                >= COMPACT_THRESHOLD) ==> final(self).pos == 0 && final(self).buf@ == old(
                self,
            ).buf@.skip(old(self).pos as int),
            !(old(self).pos != 0 && (old(self).pos >= old(self).buf.len() || old(self).pos
                >= COMPACT_THRESHOLD)) ==> final(self).pos == old(self).pos && final(self).buf@
                == old(self).buf@,
    {
        if self.pos == 0 {
            return ;
        }
        if self.pos >= self.buf.len() {
            self.buf.clear();
            self.pos = 0;
            proof {
                assert(self@.pending =~= old(self)@.pending);
            }
        } else if self.pos >= COMPACT_THRESHOLD {
            let rest = self.buf.split_off(self.pos);
            self.buf = rest;
            self.pos = 0;
            proof {
                assert(self@.pending =~= old(self)@.pending);
            }
        }
    }

    /// The next complete frame, if there is one; a FRAME_SIZE_ERROR for a
    /// header that announces a payload above the maximum.
    pub fn next_frame(&mut self) -> (r: H2Result<Option<Frame>>)
        requires
            old(self).wf(),
        ensures
            final(self).wf(),
            final(self)@.max_frame_size == old(self)@.max_frame_size,
            match next_frame_spec(old(self)@.pending, old(self)@.max_frame_size) {
                Err(e) => r == Err::<Option<Frame>, H2Error>(e) && final(self)@ == old(self)@,
                Ok(None) => r matches Ok(None) && final(self)@ == old(self)@,
                Ok(Some((f, rest))) => r matches Ok(Some(fr)) && fr@ == f && final(self)@.pending
                    == rest,
            },
    {
        if self.buffered() < FRAME_HEADER_LEN {
            self.compact();
            return Ok(None);
        }
        let ghost pending = self@.pending;
        let head = vstd::slice::slice_subrange(self.buf.as_slice(), self.pos, self.pos + FRAME_HEADER_LEN);
        proof {
            assert(head@ =~= pending.take(FRAME_HEADER_LEN as int));
        }
        let header = FrameHeader::parse(head);
        if header.length > self.max_frame_size {
            return Err(H2Error::Connection(ErrorCode::FrameSizeError));
        }
        let len = header.length as usize;
        if self.buffered() - FRAME_HEADER_LEN < len {
            self.compact();
            return Ok(None);
        }
        let total = FRAME_HEADER_LEN + len;
        let start = self.pos + FRAME_HEADER_LEN;
        let body = vstd::slice::slice_subrange(self.buf.as_slice(), start, start + len);
        let payload = vstd::slice::slice_to_vec(body);
        proof {
            assert(payload@ =~= pending.subrange(FRAME_HEADER_LEN as int, total as int));
        }
        self.pos = self.pos + total;
        proof {
            assert(self@.pending =~= pending.skip(total as int));
        }
        self.compact();
        Ok(Some(Frame { header, payload }))
    }
}

} // verus!
