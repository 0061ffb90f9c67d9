use weft::error::{ErrorCode, H2Error};
use weft::settings::Settings;

fn param(id: u16, value: u32) -> Vec<u8> {
    let mut v = id.to_be_bytes().to_vec();
    v.extend_from_slice(&value.to_be_bytes());
    v
}

#[test]
fn defaults_are_those_of_the_rfc() {
    let s = Settings::default();
    assert_eq!(s.header_table_size, 4096);
    assert!(s.enable_push);
    assert_eq!(s.max_concurrent_streams, None);
    assert_eq!(s.initial_window_size, 65_535);
    assert_eq!(s.max_frame_size, 16_384);
    assert_eq!(s.max_header_list_size, None);
}

#[test]
fn parameters_apply_in_order_and_unknown_ones_are_ignored() {
    let mut s = Settings::default();
    let mut payload = param(0x1, 100);
    payload.extend(param(0x3, 10));
    payload.extend(param(0x1, 200));
    payload.extend(param(0x99, 5));
    payload.extend(param(0x6, 1000));
    payload.extend(param(0x2, 0));
    assert_eq!(s.apply(&payload), Ok(()));
    assert_eq!(s.header_table_size, 200);
    assert_eq!(s.max_concurrent_streams, Some(10));
    assert_eq!(s.max_header_list_size, Some(1000));
    assert!(!s.enable_push);
}

#[test]
fn invalid_parameters_are_connection_errors() {
    let mut s = Settings::default();
    assert_eq!(
        s.apply(&[0, 1, 0]),
        Err(H2Error::Connection(ErrorCode::FrameSizeError))
    );
    assert_eq!(
        s.apply(&param(0x2, 2)),
        Err(H2Error::Connection(ErrorCode::ProtocolError))
    );
    assert_eq!(
        s.apply(&param(0x4, 0x8000_0000)),
        Err(H2Error::Connection(ErrorCode::FlowControlError))
    );
    assert_eq!(
        s.apply(&param(0x5, 16_383)),
        Err(H2Error::Connection(ErrorCode::ProtocolError))
    );
    assert_eq!(
        s.apply(&param(0x5, 16_777_216)),
        Err(H2Error::Connection(ErrorCode::ProtocolError))
    );
    assert_eq!(s.apply(&param(0x5, 16_777_215)), Ok(()));
    assert_eq!(s.max_frame_size, 16_777_215);
}

#[test]
fn an_encoded_payload_applies_back_to_the_same_values() {
    let mut ours = Settings::default();
    ours.header_table_size = 1234;
    ours.initial_window_size = 99;
    ours.max_frame_size = 20_000;
    ours.max_concurrent_streams = Some(7);
    let payload = ours.encode_payload();
    assert_eq!(payload.len(), 24);
    let mut theirs = Settings::default();
    assert_eq!(theirs.apply(&payload), Ok(()));
    assert_eq!(theirs, ours);
}
