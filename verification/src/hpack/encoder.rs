use vstd::prelude::*;

use crate::hpack::huffman;
use crate::hpack::huffman::{huffman_encode, huffman_octets};
use crate::hpack::integer;
use crate::hpack::decoder::{decode_fields, read_name_spec, read_string_spec};
use crate::hpack::huffman::{huffman_decode, lemma_huffman_decode_encode, lemma_huffman_encode_len};
use crate::hpack::integer::{
    decode_int, encode_int, int_mask, prefix_keep, lemma_first_octet_4, lemma_first_octet_7, lemma_int_round_trip,
};
use crate::hpack::table::{table_lookup, TableView};

verus! {

/// The octets of a string literal for `s`: Huffman coded when that is
/// strictly shorter; the length, cast to a `u32`, leads with a 7-bit
/// prefix whose high bit marks Huffman coding.
pub open spec fn string_literal(s: Seq<u8>) -> Seq<u8> {
    if huffman_octets(s) < s.len() {
        encode_int(huffman_octets(s) as u32, 7, 0x80) + huffman_encode(s)
    } else {
        encode_int(s.len() as u32, 7, 0x00) + s
    }
}

fn append(out: &mut Vec<u8>, bytes: &[u8])
    ensures
        final(out)@ == old(out)@ + bytes@,
{
    let mut i: usize = 0;
    while i < bytes.len()
        invariant
            i <= bytes.len(),
            out@ == old(out)@ + bytes@.take(i as int),
        decreases bytes.len() - i,
    {
        out.push(bytes[i]);
        i = i + 1;
        proof {
            assert(out@ =~= old(out)@ + bytes@.take(i as int));
        }
    }
    proof {
        assert(bytes@.take(bytes.len() as int) =~= bytes@);
    }
}

/// Appends `s` as a string literal, Huffman coded where that is shorter.
pub fn string(out: &mut Vec<u8>, s: &[u8])
    requires
        s.len() <= usize::MAX / 30,
    ensures
        final(out)@ == old(out)@ + string_literal(s@),
{
    let packed = huffman::encoded_len(s);
    if packed < s.len() {
        integer::encode(out, packed as u32, 7, 0x80);
        let coded = huffman::encode(s);
        append(out, coded.as_slice());
        proof {
            assert(final(out)@ =~= old(out)@ + string_literal(s@));
        }
    } else {
        integer::encode(out, s.len() as u32, 7, 0x00);
        append(out, s);
        proof {
            assert(final(out)@ =~= old(out)@ + string_literal(s@));
        }
    }
}

/// Appends an indexed header field (RFC 7541 section 6.1).
pub fn indexed(out: &mut Vec<u8>, index: u32)
    ensures
        final(out)@ == old(out)@ + encode_int(index, 7, 0x80),
{
    integer::encode(out, index, 7, 0x80);
}

/// Appends a literal header field without indexing, with a new name
/// (RFC 7541 section 6.2.2).
pub fn literal_new_name(out: &mut Vec<u8>, name: &[u8], value: &[u8])
    requires
        name.len() <= usize::MAX / 30,
        value.len() <= usize::MAX / 30,
    ensures
        final(out)@ == old(out)@ + encode_int(0, 4, 0x00) + string_literal(name@) + string_literal(
            value@,
        ),
{
    integer::encode(out, 0, 4, 0x00);
    string(out, name);
    string(out, value);
}

/// Appends a literal header field without indexing, whose name is that of
/// the table entry `name_index` (RFC 7541 section 6.2.2).
pub fn literal_indexed_name(out: &mut Vec<u8>, name_index: u32, value: &[u8])
    requires
        value.len() <= usize::MAX / 30,
    ensures
        final(out)@ == old(out)@ + encode_int(name_index, 4, 0x00) + string_literal(value@),
{
    integer::encode(out, name_index, 4, 0x00);
    string(out, value);
}

/// A string literal reads back as the string, and ends where it ends,
/// whatever surrounds it.
pub proof fn lemma_string_literal_round_trip(pre: Seq<u8>, s: Seq<u8>, post: Seq<u8>)
    requires
        s.len() <= u32::MAX,
    ensures
        read_string_spec(pre + string_literal(s) + post, pre.len() as int) == Some(
            (s, (pre.len() + string_literal(s).len()) as int),
        ),
{
    let block = pre + string_literal(s) + post;
    let p = pre.len() as int;
    if huffman_octets(s) < s.len() {
        let h = huffman_octets(s) as u32;
        let coded = huffman_encode(s);
        lemma_huffman_encode_len(s);
        let enc = encode_int(h, 7, 0x80);
        assert(block =~= pre + enc + (coded + post));
        lemma_int_round_trip(pre, h, 7, 0x80, coded + post);
        lemma_first_octet_7(h, 0x80);
        assert(block[p] == enc[0]);
        let next = p + enc.len();
        assert(block.subrange(next, next + h) =~= coded);
        lemma_huffman_decode_encode(s);
    } else {
        let enc = encode_int(s.len() as u32, 7, 0x00);
        assert(block =~= pre + enc + (s + post));
        lemma_int_round_trip(pre, s.len() as u32, 7, 0x00, s + post);
        lemma_first_octet_7(s.len() as u32, 0x00);
        assert(block[p] == enc[0]);
        let next = p + enc.len();
        assert(block.subrange(next, next + s.len()) =~= s);
    }
}

/// The octets of a literal field without indexing with a new name.
pub open spec fn literal_new_name_field(name: Seq<u8>, value: Seq<u8>) -> Seq<u8> {
    encode_int(0, 4, 0x00) + string_literal(name) + string_literal(value)
}

/// The octets of a literal field without indexing with an indexed name.
pub open spec fn literal_indexed_name_field(name_index: u32, value: Seq<u8>) -> Seq<u8> {
    encode_int(name_index, 4, 0x00) + string_literal(value)
}

/// An encoded literal field with a new name decodes to that name and
/// value, and leaves the table as it was.
pub proof fn lemma_literal_new_name_decodes(
    t: TableView,
    pre: Seq<u8>,
    name: Seq<u8>,
    value: Seq<u8>,
    post: Seq<u8>,
    allow_size_update: bool,
    out: Seq<(Seq<u8>, Seq<u8>)>,
)
    requires
        name.len() <= u32::MAX,
        value.len() <= u32::MAX,
    ensures
        ({
            let field = literal_new_name_field(name, value);
            let block = pre + field + post;
            decode_fields(t, block, pre.len() as int, allow_size_update, out) == decode_fields(
                t,
                block,
                (pre.len() + field.len()) as int,
                false,
                out.push((name, value)),
            )
        }),
{
    let field = literal_new_name_field(name, value);
    let block = pre + field + post;
    let p = pre.len() as int;
    let e0 = encode_int(0, 4, 0x00);
    let sn = string_literal(name);
    let sv = string_literal(value);
    lemma_first_octet_4(0);
    assert(block[p] == e0[0]);
    assert(block =~= pre + e0 + (sn + sv + post));
    lemma_int_round_trip(pre, 0, 4, 0x00, sn + sv + post);
    assert(block =~= (pre + e0) + sn + (sv + post));
    lemma_string_literal_round_trip(pre + e0, name, sv + post);
    assert(read_name_spec(t, block, p, 4) == Some((name, p + e0.len() + sn.len())));
    assert(block =~= (pre + e0 + sn) + sv + post);
    lemma_string_literal_round_trip(pre + e0 + sn, value, post);
}

/// A literal field never indexed (RFC 7541 section 6.2.3), with a new
/// name, decodes to that name and value, added to the fields decoded so far,
/// and leaves the table as it was: as the form without indexing does.
pub proof fn lemma_never_indexed_decodes(
    t: TableView,
    pre: Seq<u8>,
    name: Seq<u8>,
    value: Seq<u8>,
    post: Seq<u8>,
    allow_size_update: bool,
    out: Seq<(Seq<u8>, Seq<u8>)>,
)
    requires
        name.len() <= u32::MAX,
        value.len() <= u32::MAX,
    ensures
        ({
            let field = seq![0x10u8] + string_literal(name) + string_literal(value);
            let block = pre + field + post;
            decode_fields(t, block, pre.len() as int, allow_size_update, out) == decode_fields(
                t,
                block,
                (pre.len() + field.len()) as int,
                false,
                out.push((name, value)),
            )
        }),
{
    let sn = string_literal(name);
    let sv = string_literal(value);
    let field = seq![0x10u8] + sn + sv;
    let block = pre + field + post;
    let p = pre.len() as int;
    let e0 = encode_int(0, 4, 0x10);
    assert(int_mask(4) == 15) by (bit_vector);
    assert(prefix_keep(0x10, 4) == 0x10) by (bit_vector)
        requires
            int_mask(4) == 15,
    ;
    assert((0x10u8 | (0u32 as u8)) == 0x10u8) by (bit_vector);
    assert(e0 =~= seq![0x10u8]);
    assert(block[p] == 0x10);
    assert(block =~= pre + e0 + (sn + sv + post));
    lemma_int_round_trip(pre, 0, 4, 0x10, sn + sv + post);
    assert(block =~= (pre + e0) + sn + (sv + post));
    lemma_string_literal_round_trip(pre + e0, name, sv + post);
    assert(read_name_spec(t, block, p, 4) == Some((name, p + e0.len() + sn.len())));
    assert(block =~= (pre + e0 + sn) + sv + post);
    lemma_string_literal_round_trip(pre + e0 + sn, value, post);
}

/// An encoded literal field with an indexed name decodes to the name of
/// that entry and the value, and leaves the table as it was.
pub proof fn lemma_literal_indexed_name_decodes(
    t: TableView,
    pre: Seq<u8>,
    name_index: u32,
    value: Seq<u8>,
    post: Seq<u8>,
    allow_size_update: bool,
    out: Seq<(Seq<u8>, Seq<u8>)>,
)
    requires
        name_index != 0,
        table_lookup(t, name_index as nat) is Some,
        value.len() <= u32::MAX,
    ensures
        ({
            let field = literal_indexed_name_field(name_index, value);
            let block = pre + field + post;
            decode_fields(t, block, pre.len() as int, allow_size_update, out) == decode_fields(
                t,
                block,
                (pre.len() + field.len()) as int,
                false,
                out.push((table_lookup(t, name_index as nat).unwrap().0, value)),
            )
        }),
{
    let field = literal_indexed_name_field(name_index, value);
    let block = pre + field + post;
    let p = pre.len() as int;
    let e0 = encode_int(name_index, 4, 0x00);
    let sv = string_literal(value);
    lemma_first_octet_4(name_index);
    assert(block[p] == e0[0]);
    assert(block =~= pre + e0 + (sv + post));
    lemma_int_round_trip(pre, name_index, 4, 0x00, sv + post);
    assert(block =~= (pre + e0) + sv + post);
    lemma_string_literal_round_trip(pre + e0, value, post);
}

/// An encoded indexed field decodes to the entry that its index names,
/// and leaves the table as it was.
pub proof fn lemma_indexed_decodes(
    t: TableView,
    pre: Seq<u8>,
    index: u32,
    post: Seq<u8>,
    allow_size_update: bool,
    out: Seq<(Seq<u8>, Seq<u8>)>,
)
    requires
        index != 0,
        table_lookup(t, index as nat) is Some,
    ensures
        ({
            let field = encode_int(index, 7, 0x80);
            let block = pre + field + post;
            decode_fields(t, block, pre.len() as int, allow_size_update, out) == decode_fields(
                t,
                block,
                (pre.len() + field.len()) as int,
                false,
                out.push(table_lookup(t, index as nat).unwrap()),
            )
        }),
{
    let field = encode_int(index, 7, 0x80);
    let block = pre + field + post;
    lemma_first_octet_7(index, 0x80);
    assert(block[pre.len() as int] == field[0]);
    lemma_int_round_trip(pre, index, 7, 0x80, post);
}

} // verus!
