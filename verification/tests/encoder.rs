use weft::error::{ErrorCode, H2Error};
use weft::hpack::decoder::Decoder;
use weft::hpack::encoder;
use weft::hpack::huffman;

#[test]
fn a_literal_with_a_new_name_decodes_back() {
    let mut block = Vec::new();
    encoder::literal_new_name(&mut block, b"x-custom", b"some value");
    encoder::indexed(&mut block, 2);
    encoder::literal_indexed_name(&mut block, 4, b"/index");
    let mut d = Decoder::new(4096);
    let hs = d.decode(&block).unwrap();
    assert_eq!(hs.len(), 3);
    assert_eq!(hs[0].name, b"x-custom".to_vec());
    assert_eq!(hs[0].value, b"some value".to_vec());
    assert_eq!(hs[1].name, b":method".to_vec());
    assert_eq!(hs[1].value, b"GET".to_vec());
    assert_eq!(hs[2].name, b":path".to_vec());
    assert_eq!(hs[2].value, b"/index".to_vec());
    assert_eq!(d.table().len(), 0);
}

#[test]
fn strings_use_huffman_only_when_it_is_shorter() {
    let mut raw = Vec::new();
    encoder::string(&mut raw, b"\xff\xfe");
    assert_eq!(raw, vec![0x02, 0xff, 0xfe]);
    let mut coded = Vec::new();
    encoder::string(&mut coded, b"www.example.com");
    assert_eq!(coded[0], 0x80 | huffman::encoded_len(b"www.example.com") as u8);
    assert_eq!(&coded[1..], huffman::encode(b"www.example.com").as_slice());
}

#[test]
fn an_index_above_the_tables_is_a_compression_error() {
    let mut block = Vec::new();
    encoder::indexed(&mut block, 62);
    let mut d = Decoder::new(4096);
    assert_eq!(
        d.decode(&block),
        Err(H2Error::Connection(ErrorCode::CompressionError))
    );
}

#[test]
fn incremental_indexing_adds_to_the_dynamic_table() {
    let mut d = Decoder::new(4096);
    let first = d.decode(&[0x40, 0x01, b'a', 0x01, b'b']).unwrap();
    assert_eq!(first[0].name, b"a".to_vec());
    assert_eq!(d.table().len(), 1);
    assert_eq!(d.table().size(), 34);
    let second = d.decode(&[0xbe]).unwrap();
    assert_eq!(second[0].value, b"b".to_vec());
    d.set_settings_limit(0);
    assert_eq!(d.table().len(), 0);
}
