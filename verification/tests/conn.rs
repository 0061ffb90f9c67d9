use weft::conn::Connection;
use weft::error::{ErrorCode, H2Error};
use weft::frame::{flag, Frame, FrameDecoder, FrameType, PREFACE};
use weft::hpack::decoder::Decoder;
use weft::hpack::encoder;

fn frame(kind: FrameType, flags: u8, id: u32, payload: Vec<u8>) -> Vec<u8> {
    Frame::new(kind, flags, id, payload).encode()
}

fn client_settings(payload: Vec<u8>) -> Vec<u8> {
    frame(FrameType::Settings, 0, 0, payload)
}

fn get_block() -> Vec<u8> {
    let mut b = Vec::new();
    encoder::indexed(&mut b, 2);
    encoder::indexed(&mut b, 6);
    encoder::indexed(&mut b, 4);
    encoder::literal_indexed_name(&mut b, 1, b"localhost");
    b
}

fn post_block(content_length: &[u8]) -> Vec<u8> {
    let mut b = Vec::new();
    encoder::indexed(&mut b, 3);
    encoder::indexed(&mut b, 6);
    encoder::indexed(&mut b, 4);
    encoder::literal_indexed_name(&mut b, 28, content_length);
    b
}

fn frames_of(bytes: &[u8]) -> Vec<Frame> {
    let mut dec = FrameDecoder::new();
    dec.feed(bytes);
    let mut out = Vec::new();
    while let Ok(Some(f)) = dec.next_frame() {
        out.push(f);
    }
    assert_eq!(dec.buffered(), 0);
    out
}

/// A connection past the preface and the client's first SETTINGS, with
/// what it wrote so far taken out.
fn ready() -> Connection {
    let mut c = Connection::new();
    assert_eq!(c.handshake(PREFACE.as_bytes(), false), Ok(true));
    assert_eq!(c.run(&client_settings(Vec::new())), Ok(()));
    let _ = c.take_output();
    c
}

fn pairs(block: &[u8]) -> Vec<(String, String)> {
    let mut d = Decoder::new(4096);
    d.decode(block)
        .unwrap()
        .iter()
        .map(|h| {
            (
                String::from_utf8_lossy(&h.name).into_owned(),
                String::from_utf8_lossy(&h.value).into_owned(),
            )
        })
        .collect()
}

fn response_pairs() -> Vec<(String, String)> {
    vec![
        (":status".to_string(), "200".to_string()),
        ("content-type".to_string(), "text/plain".to_string()),
        ("content-length".to_string(), "5".to_string()),
    ]
}

#[test]
fn a_get_request_is_answered_with_the_body() {
    let mut c = Connection::new();
    assert_eq!(c.handshake(PREFACE.as_bytes(), false), Ok(true));
    let mut input = client_settings(Vec::new());
    input.extend(frame(
        FrameType::Headers,
        flag::END_STREAM | flag::END_HEADERS,
        1,
        get_block(),
    ));
    assert_eq!(c.run(&input), Ok(()));
    let out = frames_of(&c.take_output());
    assert_eq!(out.len(), 4);
    assert_eq!(out[0].header.kind, FrameType::Settings);
    assert_eq!(out[0].header.flags, 0);
    assert_eq!(out[0].payload, c.local.encode_payload());
    assert_eq!(out[1].header.kind, FrameType::Settings);
    assert_eq!(out[1].header.flags, flag::ACK);
    assert_eq!(out[1].header.length, 0);
    assert_eq!(out[2].header.kind, FrameType::Headers);
    assert_eq!(out[2].header.flags, flag::END_HEADERS);
    assert_eq!(out[2].header.stream_id, 1);
    assert_eq!(pairs(&out[2].payload), response_pairs());
    assert_eq!(out[3].header.kind, FrameType::Data);
    assert_eq!(out[3].header.flags, flag::END_STREAM);
    assert_eq!(out[3].header.stream_id, 1);
    assert_eq!(out[3].payload, b"weft\n".to_vec());
}

#[test]
fn the_server_settings_announce_the_stream_limit() {
    let mut c = Connection::new();
    assert_eq!(c.local.max_concurrent_streams, Some(100));
    assert_eq!(c.handshake(PREFACE.as_bytes(), false), Ok(true));
    let out = frames_of(&c.take_output());
    assert_eq!(out.len(), 1);
    let expected: Vec<u8> = vec![
        0x00, 0x01, 0x00, 0x00, 0x10, 0x00, // header table size 4096
        0x00, 0x04, 0x00, 0x00, 0xff, 0xff, // initial window 65535
        0x00, 0x05, 0x00, 0x00, 0x40, 0x00, // max frame size 16384
        0x00, 0x03, 0x00, 0x00, 0x00, 0x64, // max concurrent streams 100
    ];
    assert_eq!(out[0].payload, expected);
}

#[test]
fn the_preface_is_checked_octet_by_octet() {
    let mut c = Connection::new();
    let p = PREFACE.as_bytes();
    assert_eq!(c.handshake(&p[..5], false), Ok(false));
    assert!(c.take_output().is_empty());
    let mut wrong = p[..5].to_vec();
    wrong.push(b'X');
    assert_eq!(
        c.handshake(&wrong, false),
        Err(H2Error::Connection(ErrorCode::ProtocolError))
    );
    let mut longer = p.to_vec();
    longer.push(0);
    assert_eq!(
        c.handshake(&longer, false),
        Err(H2Error::Connection(ErrorCode::ProtocolError))
    );
    assert!(c.take_output().is_empty());
}

#[test]
fn the_first_frame_must_be_settings_and_the_error_is_a_goaway() {
    let mut c = Connection::new();
    assert_eq!(c.handshake(PREFACE.as_bytes(), false), Ok(true));
    let _ = c.take_output();
    let ping = frame(FrameType::Ping, 0, 0, vec![0; 8]);
    let e = c.run(&ping).unwrap_err();
    assert_eq!(e, H2Error::Connection(ErrorCode::ProtocolError));
    c.fail(e);
    let out = frames_of(&c.take_output());
    assert_eq!(out.len(), 1);
    assert_eq!(out[0].header.kind, FrameType::GoAway);
    assert_eq!(out[0].payload, vec![0, 0, 0, 0, 0, 0, 0, 1]);
}

#[test]
fn goaway_is_sent_only_once() {
    let mut c = ready();
    c.fail(H2Error::Connection(ErrorCode::ProtocolError));
    c.fail(H2Error::Connection(ErrorCode::InternalError));
    let out = frames_of(&c.take_output());
    assert_eq!(out.len(), 1);
    assert_eq!(out[0].header.kind, FrameType::GoAway);
}

#[test]
fn a_stream_error_is_answered_with_rst_stream() {
    let mut c = ready();
    c.fail(H2Error::Stream { id: 3, code: ErrorCode::RefusedStream });
    let out = frames_of(&c.take_output());
    assert_eq!(out.len(), 1);
    assert_eq!(out[0].header.kind, FrameType::RstStream);
    assert_eq!(out[0].header.stream_id, 3);
    assert_eq!(out[0].payload, vec![0, 0, 0, 7]);
}

#[test]
fn a_ping_is_echoed_with_ack() {
    let mut c = ready();
    let payload = vec![1, 2, 3, 4, 5, 6, 7, 8];
    assert_eq!(c.run(&frame(FrameType::Ping, 0, 0, payload.clone())), Ok(()));
    let out = frames_of(&c.take_output());
    assert_eq!(out.len(), 1);
    assert_eq!(out[0].header.kind, FrameType::Ping);
    assert_eq!(out[0].header.flags, flag::ACK);
    assert_eq!(out[0].payload, payload);
    assert_eq!(c.run(&frame(FrameType::Ping, flag::ACK, 0, vec![0; 8])), Ok(()));
    assert!(c.take_output().is_empty());
}

#[test]
fn malformed_pings_are_connection_errors() {
    let mut c = ready();
    assert_eq!(
        c.run(&frame(FrameType::Ping, 0, 0, vec![0; 7])),
        Err(H2Error::Connection(ErrorCode::FrameSizeError))
    );
    let mut c = ready();
    assert_eq!(
        c.run(&frame(FrameType::Ping, 0, 1, vec![0; 8])),
        Err(H2Error::Connection(ErrorCode::ProtocolError))
    );
}

#[test]
fn a_goaway_from_the_client_ends_the_connection() {
    let mut c = ready();
    assert_eq!(
        c.run(&frame(FrameType::GoAway, 0, 0, vec![0; 8])),
        Err(H2Error::Connection(ErrorCode::NoError))
    );
    let mut c = ready();
    assert_eq!(
        c.run(&frame(FrameType::GoAway, 0, 0, vec![0; 4])),
        Err(H2Error::Connection(ErrorCode::FrameSizeError))
    );
}

#[test]
fn settings_are_applied_and_acknowledged() {
    let mut c = ready();
    let payload = vec![0x00, 0x05, 0x00, 0x00, 0x80, 0x00];
    assert_eq!(c.run(&client_settings(payload)), Ok(()));
    assert_eq!(c.remote.max_frame_size, 0x8000);
    let out = frames_of(&c.take_output());
    assert_eq!(out.len(), 1);
    assert_eq!(out[0].header.flags, flag::ACK);
    let mut c = ready();
    assert_eq!(
        c.run(&client_settings(vec![0x00, 0x02, 0x00, 0x00, 0x00, 0x02])),
        Err(H2Error::Connection(ErrorCode::ProtocolError))
    );
    let mut c = ready();
    assert_eq!(
        c.run(&frame(FrameType::Settings, flag::ACK, 0, vec![0; 6])),
        Err(H2Error::Connection(ErrorCode::FrameSizeError))
    );
}

#[test]
fn window_updates_are_checked() {
    let mut c = ready();
    assert_eq!(
        c.run(&frame(FrameType::WindowUpdate, 0, 0, vec![0, 0, 0, 0])),
        Err(H2Error::Connection(ErrorCode::ProtocolError))
    );
    let mut c = ready();
    assert_eq!(
        c.run(&frame(FrameType::WindowUpdate, 0, 0, vec![0x7f, 0xff, 0xff, 0xff])),
        Err(H2Error::Connection(ErrorCode::FlowControlError))
    );
    let mut c = ready();
    assert_eq!(
        c.run(&frame(FrameType::WindowUpdate, 0, 0, vec![0, 0, 1])),
        Err(H2Error::Connection(ErrorCode::FrameSizeError))
    );
    let mut c = ready();
    assert_eq!(
        c.run(&frame(FrameType::WindowUpdate, 0, 5, vec![0, 0, 0, 1])),
        Err(H2Error::Connection(ErrorCode::ProtocolError))
    );
    let mut c = ready();
    assert_eq!(c.run(&frame(FrameType::WindowUpdate, 0, 0, vec![0, 0, 0, 1])), Ok(()));
}

#[test]
fn headers_on_an_even_or_lower_stream_are_refused() {
    let mut c = ready();
    assert_eq!(
        c.run(&frame(FrameType::Headers, flag::END_STREAM | flag::END_HEADERS, 2, get_block())),
        Err(H2Error::Connection(ErrorCode::ProtocolError))
    );
    let mut c = ready();
    assert_eq!(
        c.run(&frame(FrameType::Headers, flag::END_STREAM | flag::END_HEADERS, 5, get_block())),
        Ok(())
    );
    assert_eq!(
        c.run(&frame(FrameType::Headers, flag::END_STREAM | flag::END_HEADERS, 3, get_block())),
        Err(H2Error::Connection(ErrorCode::ProtocolError))
    );
}

#[test]
fn headers_on_a_closed_stream_are_a_stream_closed_error() {
    let mut c = ready();
    let req = frame(FrameType::Headers, flag::END_STREAM | flag::END_HEADERS, 1, get_block());
    assert_eq!(c.run(&req), Ok(()));
    assert_eq!(c.run(&req), Err(H2Error::Connection(ErrorCode::StreamClosed)));
}

#[test]
fn a_request_without_a_path_is_a_stream_protocol_error() {
    let mut c = ready();
    let mut b = Vec::new();
    encoder::indexed(&mut b, 2);
    encoder::indexed(&mut b, 6);
    assert_eq!(
        c.run(&frame(FrameType::Headers, flag::END_STREAM | flag::END_HEADERS, 1, b)),
        Err(H2Error::Stream { id: 1, code: ErrorCode::ProtocolError })
    );
}

#[test]
fn a_body_is_counted_and_the_window_refilled() {
    let mut c = ready();
    let mut input = frame(FrameType::Headers, flag::END_HEADERS, 1, post_block(b"3"));
    input.extend(frame(FrameType::Data, flag::END_STREAM, 1, b"abc".to_vec()));
    assert_eq!(c.run(&input), Ok(()));
    let out = frames_of(&c.take_output());
    assert_eq!(out.len(), 3);
    assert_eq!(out[0].header.kind, FrameType::WindowUpdate);
    assert_eq!(out[0].header.stream_id, 0);
    assert_eq!(out[0].payload, vec![0, 0, 0, 3]);
    assert_eq!(out[1].header.kind, FrameType::Headers);
    assert_eq!(out[2].payload, b"weft\n".to_vec());
}

#[test]
fn a_body_shorter_than_its_content_length_is_a_stream_error() {
    let mut c = ready();
    let mut input = frame(FrameType::Headers, flag::END_HEADERS, 1, post_block(b"3"));
    input.extend(frame(FrameType::Data, flag::END_STREAM, 1, b"ab".to_vec()));
    assert_eq!(
        c.run(&input),
        Err(H2Error::Stream { id: 1, code: ErrorCode::ProtocolError })
    );
}

#[test]
fn padding_is_stripped_before_counting() {
    let mut c = ready();
    let mut input = frame(FrameType::Headers, flag::END_HEADERS, 1, post_block(b"2"));
    input.extend(frame(
        FrameType::Data,
        flag::END_STREAM | flag::PADDED,
        1,
        vec![3, b'o', b'k', 0, 0, 0],
    ));
    assert_eq!(c.run(&input), Ok(()));
    let mut c = ready();
    let mut input = frame(FrameType::Headers, flag::END_HEADERS, 1, post_block(b"2"));
    input.extend(frame(FrameType::Data, flag::PADDED, 1, vec![6, 0, 0, 0, 0, 0]));
    assert_eq!(
        c.run(&input),
        Err(H2Error::Connection(ErrorCode::ProtocolError))
    );
}

#[test]
fn data_on_an_unknown_or_closed_stream_is_refused() {
    let mut c = ready();
    assert_eq!(
        c.run(&frame(FrameType::Data, 0, 1, b"x".to_vec())),
        Err(H2Error::Connection(ErrorCode::ProtocolError))
    );
    let mut c = ready();
    assert_eq!(
        c.run(&frame(FrameType::Data, 0, 0, b"x".to_vec())),
        Err(H2Error::Connection(ErrorCode::ProtocolError))
    );
    let mut c = ready();
    let req = frame(FrameType::Headers, flag::END_STREAM | flag::END_HEADERS, 1, get_block());
    assert_eq!(c.run(&req), Ok(()));
    assert_eq!(
        c.run(&frame(FrameType::Data, 0, 1, b"x".to_vec())),
        Err(H2Error::Connection(ErrorCode::StreamClosed))
    );
}

#[test]
fn a_header_block_continues_in_continuation_frames() {
    let block = get_block();
    let (first, rest) = block.split_at(2);
    let mut c = ready();
    let mut input = frame(FrameType::Headers, flag::END_STREAM, 1, first.to_vec());
    input.extend(frame(FrameType::Continuation, flag::END_HEADERS, 1, rest.to_vec()));
    assert_eq!(c.run(&input), Ok(()));
    let out = frames_of(&c.take_output());
    assert_eq!(out.len(), 2);
    assert_eq!(pairs(&out[0].payload), response_pairs());

    let mut c = ready();
    let mut input = frame(FrameType::Headers, flag::END_STREAM, 1, first.to_vec());
    input.extend(frame(FrameType::Ping, 0, 0, vec![0; 8]));
    assert_eq!(c.run(&input), Err(H2Error::Connection(ErrorCode::ProtocolError)));

    let mut c = ready();
    let mut input = frame(FrameType::Headers, flag::END_STREAM, 1, first.to_vec());
    input.extend(frame(FrameType::Continuation, flag::END_HEADERS, 3, rest.to_vec()));
    assert_eq!(c.run(&input), Err(H2Error::Connection(ErrorCode::ProtocolError)));
}

#[test]
fn trailers_end_a_request() {
    let mut c = ready();
    let mut input = frame(FrameType::Headers, flag::END_HEADERS, 1, get_block());
    input.extend(frame(FrameType::Data, 0, 1, b"x".to_vec()));
    let mut trailer = Vec::new();
    encoder::literal_new_name(&mut trailer, b"grpc-status", b"0");
    input.extend(frame(FrameType::Headers, flag::END_STREAM | flag::END_HEADERS, 1, trailer));
    assert_eq!(c.run(&input), Ok(()));
    let out = frames_of(&c.take_output());
    assert_eq!(out.len(), 3);
    assert_eq!(out[1].header.kind, FrameType::Headers);
    assert_eq!(out[2].payload, b"weft\n".to_vec());
}

#[test]
fn the_body_waits_for_the_peer_window() {
    let mut c = ready();
    let mut input = frame(FrameType::Settings, 0, 0, vec![0x00, 0x04, 0, 0, 0, 2]);
    input.extend(frame(FrameType::Headers, flag::END_STREAM | flag::END_HEADERS, 1, get_block()));
    assert_eq!(c.run(&input), Ok(()));
    let out = frames_of(&c.take_output());
    assert_eq!(out.len(), 3);
    assert_eq!(out[2].header.kind, FrameType::Data);
    assert_eq!(out[2].header.flags, 0);
    assert_eq!(out[2].payload, b"we".to_vec());
    assert_eq!(c.run(&frame(FrameType::WindowUpdate, 0, 1, vec![0, 0, 0, 10])), Ok(()));
    let out = frames_of(&c.take_output());
    assert_eq!(out.len(), 1);
    assert_eq!(out[0].header.flags, flag::END_STREAM);
    assert_eq!(out[0].payload, b"ft\n".to_vec());
}

#[test]
fn a_settings_change_moves_the_stream_windows() {
    let mut c = ready();
    let mut input = frame(FrameType::Settings, 0, 0, vec![0x00, 0x04, 0, 0, 0, 0]);
    input.extend(frame(FrameType::Headers, flag::END_STREAM | flag::END_HEADERS, 1, get_block()));
    assert_eq!(c.run(&input), Ok(()));
    let out = frames_of(&c.take_output());
    assert_eq!(out.len(), 2);
    assert_eq!(c.run(&frame(FrameType::Settings, 0, 0, vec![0x00, 0x04, 0, 0, 0, 3])), Ok(()));
    let out = frames_of(&c.take_output());
    assert_eq!(out.len(), 2);
    assert_eq!(out[0].header.kind, FrameType::Settings);
    assert_eq!(out[1].payload, b"wef".to_vec());
}

#[test]
fn rst_stream_drops_the_waiting_body() {
    let mut c = ready();
    let mut input = frame(FrameType::Settings, 0, 0, vec![0x00, 0x04, 0, 0, 0, 0]);
    input.extend(frame(FrameType::Headers, flag::END_STREAM | flag::END_HEADERS, 1, get_block()));
    input.extend(frame(FrameType::RstStream, 0, 1, vec![0, 0, 0, 8]));
    input.extend(frame(FrameType::WindowUpdate, 0, 1, vec![0, 0, 0, 10]));
    assert_eq!(c.run(&input), Ok(()));
    let out = frames_of(&c.take_output());
    assert_eq!(out.len(), 2);
    assert_eq!(out[1].header.kind, FrameType::Headers);
}

#[test]
fn at_most_a_hundred_streams_may_be_open() {
    let mut c = ready();
    for i in 0..100u32 {
        let id = 2 * i + 1;
        assert_eq!(c.run(&frame(FrameType::Headers, flag::END_HEADERS, id, get_block())), Ok(()));
    }
    assert_eq!(
        c.run(&frame(FrameType::Headers, flag::END_HEADERS, 201, get_block())),
        Err(H2Error::Stream { id: 201, code: ErrorCode::RefusedStream })
    );
}

#[test]
fn push_promise_is_refused_and_unknown_frames_are_ignored() {
    let mut c = ready();
    assert_eq!(c.run(&frame(FrameType::Unknown(0x42), 0, 0, vec![1, 2, 3])), Ok(()));
    assert!(c.take_output().is_empty());
    assert_eq!(
        c.run(&frame(FrameType::PushPromise, 0, 1, vec![0, 0, 0, 2])),
        Err(H2Error::Connection(ErrorCode::ProtocolError))
    );
}

#[test]
fn priority_frames_are_checked() {
    let mut c = ready();
    assert_eq!(c.run(&frame(FrameType::Priority, 0, 1, vec![0, 0, 0, 3, 16])), Ok(()));
    assert_eq!(
        c.run(&frame(FrameType::Priority, 0, 1, vec![0, 0, 0, 1, 16])),
        Err(H2Error::Stream { id: 1, code: ErrorCode::ProtocolError })
    );
    assert_eq!(
        c.run(&frame(FrameType::Priority, 0, 1, vec![0, 0, 0, 3])),
        Err(H2Error::Stream { id: 1, code: ErrorCode::FrameSizeError })
    );
}

#[test]
fn octets_split_across_reads_give_the_same_answer() {
    let mut input = client_settings(Vec::new());
    input.extend(frame(FrameType::Ping, 0, 0, vec![9; 8]));
    input.extend(frame(FrameType::Headers, flag::END_STREAM | flag::END_HEADERS, 1, get_block()));
    let mut whole = Connection::new();
    assert_eq!(whole.handshake(PREFACE.as_bytes(), false), Ok(true));
    assert_eq!(whole.run(&input), Ok(()));
    let expected = whole.take_output();
    let mut split = Connection::new();
    assert_eq!(split.handshake(PREFACE.as_bytes(), false), Ok(true));
    for b in &input {
        assert_eq!(split.run(&[*b]), Ok(()));
    }
    assert_eq!(split.take_output(), expected);
}


#[test]
fn an_input_that_ends_before_the_preface_is_a_goaway() {
    let mut c = Connection::new();
    let p = PREFACE.as_bytes();
    assert_eq!(
        c.handshake(&p[..10], true),
        Err(H2Error::Connection(ErrorCode::ProtocolError))
    );
    assert_eq!(
        c.handshake(&[], true),
        Err(H2Error::Connection(ErrorCode::ProtocolError))
    );
    assert!(c.take_output().is_empty());
    c.fail(H2Error::Connection(ErrorCode::ProtocolError));
    let out = c.take_output();
    assert_eq!(
        out,
        Frame::new(FrameType::GoAway, 0, 0, vec![0, 0, 0, 0, 0, 0, 0, 1]).encode()
    );
    let mut c = Connection::new();
    assert_eq!(c.handshake(p, true), Ok(true));
}

#[test]
fn the_table_size_stays_within_its_maximum() {
    let mut d = Decoder::new(64);
    let _ = d.decode(&[0x40, 0x01, b'a', 0x01, b'b']).unwrap();
    let _ = d.decode(&[0x40, 0x01, b'c', 0x01, b'd']).unwrap();
    assert_eq!(d.table().len(), 1);
    assert!(d.table().size() <= d.table().max_size());
}

#[test]
fn a_stream_window_past_the_ceiling_is_a_stream_flow_control_error() {
    let mut c = ready();
    assert_eq!(c.run(&frame(FrameType::Headers, flag::END_HEADERS, 1, get_block())), Ok(()));
    assert_eq!(
        c.run(&frame(FrameType::WindowUpdate, 0, 1, vec![0x7f, 0xff, 0x00, 0x01])),
        Err(H2Error::Stream { id: 1, code: ErrorCode::FlowControlError })
    );
}

#[test]
fn a_settings_change_that_passes_the_ceiling_is_a_flow_control_error() {
    let mut c = ready();
    assert_eq!(c.run(&frame(FrameType::Headers, flag::END_HEADERS, 1, get_block())), Ok(()));
    assert_eq!(
        c.run(&frame(FrameType::WindowUpdate, 0, 1, vec![0x7f, 0xfe, 0x00, 0x00])),
        Ok(())
    );
    assert_eq!(
        c.run(&client_settings(vec![0x00, 0x04, 0x00, 0x03, 0x00, 0x00])),
        Err(H2Error::Connection(ErrorCode::FlowControlError))
    );
}
