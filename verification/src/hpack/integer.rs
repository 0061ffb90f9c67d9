use vstd::arithmetic::power2::{lemma2_to64, lemma_pow2_adds, lemma_pow2_pos, pow2};
use vstd::bits::{lemma_u64_pow2_no_overflow, lemma_u64_shl_is_mul};
use vstd::prelude::*;

use crate::error::{compression_failure, ErrorCode, H2Error, H2Result};

verus! {

/// The largest value that fits in the prefix itself: all prefix bits set.
pub open spec fn int_mask(prefix_bits: u8) -> u32 {
    ((1u32 << prefix_bits) - 1) as u32
}

/// The bits of the first octet that lie above the prefix, kept from `prefix_value`.
pub open spec fn prefix_keep(prefix_value: u8, prefix_bits: u8) -> u8 {
    prefix_value & !(int_mask(prefix_bits) as u8)
}

/// Decoding of the continuation octets that follow a saturated prefix
/// (RFC 7541 section 5.1): `value` is what has been read so far, `shift`
/// the weight of the next group of seven bits. At most five continuation
/// octets are read, and a running value above `u32::MAX` is refused.
pub open spec fn decode_continuation(buf: Seq<u8>, i: int, value: nat, shift: nat) -> Option<
    (u32, int),
>
    decreases 36 - shift,
{
    if i < 0 || i >= buf.len() {
        None
    } else if shift > 28 {
        None
    } else {
        let b = buf[i];
        let next = value + (b % 128) as nat * pow2(shift);
        if next > u32::MAX {
            None
        } else if b < 128 {
            Some((next as u32, i + 1))
        } else {
            decode_continuation(buf, i + 1, next, shift + 7)
        }
    }
}

/// The integer that starts at `pos` with an N-bit prefix, and the position
/// just after it; `None` where the octets do not hold one.
pub open spec fn decode_int(buf: Seq<u8>, pos: int, prefix_bits: u8) -> Option<(u32, int)> {
    if pos < 0 || pos >= buf.len() {
        None
    } else {
        let mask = int_mask(prefix_bits);
        let first = (buf[pos] as u32) & mask;
        if first < mask {
            Some((first, pos + 1))
        } else {
            decode_continuation(buf, pos + 1, mask as nat, 0)
        }
    }
}

/// The continuation octets for `rest`: seven bits per octet, least
/// significant group first, the high bit set on every octet but the last.
pub open spec fn continuation_octets(rest: nat) -> Seq<u8>
    decreases rest,
{
    if rest < 128 {
        seq![rest as u8]
    } else {
        seq![(rest % 128 + 128) as u8] + continuation_octets(rest / 128)
    }
}

/// The octets that encode `value` with an N-bit prefix, the bits above
/// the prefix in the first octet taken from `prefix_value`.
pub open spec fn encode_int(value: u32, prefix_bits: u8, prefix_value: u8) -> Seq<u8> {
    let mask = int_mask(prefix_bits);
    let keep = prefix_keep(prefix_value, prefix_bits);
    if value < mask {
        seq![keep | (value as u8)]
    } else {
        seq![keep | (mask as u8)] + continuation_octets((value - mask) as nat)
    }
}

proof fn lemma_mask_facts(prefix_bits: u8)
    requires
        1 <= prefix_bits <= 8,
    ensures
        1 <= int_mask(prefix_bits) <= 255,
        int_mask(prefix_bits) as u8 as u32 == int_mask(prefix_bits),
{
    assert(1 <= prefix_bits <= 8 ==> 1 <= ((1u32 << prefix_bits) - 1) as u32 <= 255)
        by (bit_vector);
}

fn compression_error<T>() -> (r: H2Result<T>)
    ensures
        r == Err::<T, H2Error>(compression_failure()),
{
    Err(H2Error::Connection(ErrorCode::CompressionError))
}

/// Reads an integer with an N-bit prefix at `pos`; gives the value and
/// the position after it, or a compression error.
pub fn decode(buf: &[u8], pos: usize, prefix_bits: u8) -> (r: H2Result<(u32, usize)>)
    requires
        1 <= prefix_bits <= 8,
    ensures
        match decode_int(buf@, pos as int, prefix_bits) {
            Some((v, end)) => pos < end <= buf.len() && r == Ok::<(u32, usize), H2Error>(
                (v, end as usize),
            ),
            None => r == Err::<(u32, usize), H2Error>(compression_failure()),
        },
{
    proof {
        lemma_decode_int_advances(buf@, pos as int, prefix_bits);
    }
    if pos >= buf.len() {
        return compression_error();
    }
    proof {
        lemma_mask_facts(prefix_bits);
        assert(1 <= prefix_bits <= 8 ==> (1u32 << prefix_bits) >= 2) by (bit_vector);
    }
    let mask = (1u32 << prefix_bits) - 1;
    let first = (buf[pos] as u32) & mask;
    if first < mask {
        return Ok((first, pos + 1));
    }
    let mut value: u64 = mask as u64;
    let mut shift: u32 = 0;
    let mut i: usize = pos + 1;
    loop
        invariant
            pos < i <= buf.len(),
            value <= u32::MAX,
            shift % 7 == 0,
            shift <= 35,
            decode_int(buf@, pos as int, prefix_bits) == decode_continuation(
                buf@,
                i as int,
                value as nat,
                shift as nat,
            ),
        decreases 36 - shift,
    {
        if i >= buf.len() {
            return compression_error();
        }
        if shift > 28 {
            return compression_error();
        }
        let byte = buf[i];
        let low = (byte & 0x7f) as u64;
        proof {
            assert(byte & 0x7f == byte % 128) by (bit_vector);
            assert(low < 128);
            lemma_u64_pow2_no_overflow(shift as nat);
            lemma_pow2_pos(shift as nat);
            lemma2_to64();
            if shift < 28 {
                vstd::arithmetic::power2::lemma_pow2_strictly_increases(shift as nat, 28);
            }
            assert(pow2(shift as nat) <= pow2(28));
            assert(low * pow2(shift as nat) <= 127 * pow2(28)) by (nonlinear_arith)
                requires
                    low < 128,
                    pow2(shift as nat) <= pow2(28),
            ;
            lemma_u64_shl_is_mul(low, shift as u64);
        }
        value = value + (low << shift);
        i = i + 1;
        if value > u32::MAX as u64 {
            return compression_error();
        }
        proof {
            assert(byte & 0x80 == 0 <==> byte < 128) by (bit_vector);
        }
        if byte & 0x80 == 0 {
            return Ok((value as u32, i));
        }
        shift = shift + 7;
    }
}

/// Appends the encoding of `value` with an N-bit prefix; the bits of
/// `prefix_value` above the prefix are kept in the first octet.
pub fn encode(out: &mut Vec<u8>, value: u32, prefix_bits: u8, prefix_value: u8)
    requires
        1 <= prefix_bits <= 8,
    ensures
        final(out)@ == old(out)@ + encode_int(value, prefix_bits, prefix_value),
{
    proof {
        lemma_mask_facts(prefix_bits);
        assert(1 <= prefix_bits <= 8 ==> (1u32 << prefix_bits) >= 2) by (bit_vector);
    }
    let mask = (1u32 << prefix_bits) - 1;
    let keep = prefix_value & !(mask as u8);
    if value < mask {
        out.push(keep | value as u8);
        return ;
    }
    out.push(keep | mask as u8);
    let mut rest = value - mask;
    let ghost start = out@;
    assert(start == old(out)@ + seq![keep | (mask as u8)]);
    while rest >= 0x80
        invariant
            out@ + continuation_octets(rest as nat) == start + continuation_octets(
                (value - mask) as nat,
            ),
        decreases rest,
    {
        let byte = (rest as u8 & 0x7f) | 0x80;
        proof {
            assert(rest >= 0x80 ==> (rest as u8 & 0x7f) | 0x80 == (rest % 128 + 128) as u8)
                by (bit_vector);
            assert(rest >> 7 == rest / 128) by (bit_vector);
            assert(continuation_octets(rest as nat) == seq![byte] + continuation_octets(
                (rest / 128) as nat,
            ));
        }
        let ghost before = out@;
        out.push(byte);
        rest = rest >> 7;
        proof {
            assert(before + (seq![byte] + continuation_octets(rest as nat)) == out@
                + continuation_octets(rest as nat));
        }
    }
    out.push(rest as u8);
    proof {
        assert(continuation_octets(rest as nat) == seq![rest as u8]);
        assert(out@ == start + continuation_octets((value - mask) as nat));
        assert(encode_int(value, prefix_bits, prefix_value) == seq![keep | (mask as u8)]
            + continuation_octets((value - mask) as nat));
        assert(out@ == old(out)@ + encode_int(value, prefix_bits, prefix_value));
    }
}

/// The continuation octets of `rest` decode back to `rest`, added at weight
/// `2^shift` to what was read before, whatever follows them.
proof fn lemma_continuation_round_trip(
    pre: Seq<u8>,
    rest: nat,
    post: Seq<u8>,
    value: nat,
    shift: nat,
)
    requires
        shift % 7 == 0,
        shift <= 28,
        rest < pow2((35 - shift) as nat),
        value + rest * pow2(shift) <= u32::MAX,
    ensures
        decode_continuation(pre + continuation_octets(rest) + post, pre.len() as int, value, shift)
            == Some(
            ((value + rest * pow2(shift)) as u32, (pre.len() + continuation_octets(rest).len()) as int),
        ),
    decreases rest,
{
    let buf = pre + continuation_octets(rest) + post;
    let i = pre.len() as int;
    lemma_pow2_pos(shift);
    if rest < 128 {
        assert(buf[i] == rest as u8);
        assert((rest as u8) % 128 == rest);
    } else {
        let b = (rest % 128 + 128) as u8;
        assert(buf[i] == b);
        assert(b % 128 == rest % 128);
        let next = value + (rest % 128) * pow2(shift);
        assert(rest == 128 * (rest / 128) + rest % 128);
        lemma_pow2_adds(shift, 7);
        lemma2_to64();
        assert(pow2(shift + 7) == pow2(shift) * 128);
        assert(rest * pow2(shift) == (rest % 128) * pow2(shift) + (rest / 128) * pow2(shift + 7))
            by (nonlinear_arith)
            requires
                rest == 128 * (rest / 128) + rest % 128,
                pow2(shift + 7) == pow2(shift) * 128,
        ;
        assert((rest / 128) * pow2(shift + 7) >= 0) by (nonlinear_arith)
            requires
                pow2(shift + 7) > 0,
        ;
        if shift == 28 {
            assert(false);
        }
        assert(rest / 128 < pow2((35 - (shift + 7)) as nat)) by {
            lemma_pow2_adds((35 - (shift + 7)) as nat, 7);
            assert(pow2((35 - shift) as nat) == pow2((35 - (shift + 7)) as nat) * 128);
        }
        let pre2 = pre.push(b);
        assert(pre2 + continuation_octets(rest / 128) + post == buf);
        lemma_continuation_round_trip(pre2, rest / 128, post, next, shift + 7);
    }
}

/// Decoding an integer encoded with the same prefix width gives back the
/// value, and ends exactly where the encoding ends, whatever surrounds it.
pub proof fn lemma_int_round_trip(
    pre: Seq<u8>,
    value: u32,
    prefix_bits: u8,
    prefix_value: u8,
    post: Seq<u8>,
)
    requires
        1 <= prefix_bits <= 8,
    ensures
        decode_int(pre + encode_int(value, prefix_bits, prefix_value) + post, pre.len() as int, prefix_bits)
            == Some((value, (pre.len() + encode_int(value, prefix_bits, prefix_value).len()) as int)),
{
    let mask = int_mask(prefix_bits);
    let keep = prefix_keep(prefix_value, prefix_bits);
    let enc = encode_int(value, prefix_bits, prefix_value);
    let buf = pre + enc + post;
    lemma_mask_facts(prefix_bits);
    if value < mask {
        assert(buf[pre.len() as int] == keep | (value as u8));
        assert(1 <= prefix_bits <= 8 && value < ((1u32 << prefix_bits) - 1) as u32 ==> ((
        prefix_value & !(((1u32 << prefix_bits) - 1) as u32 as u8)) | (value as u8)) as u32 & ((
        (1u32 << prefix_bits) - 1) as u32) == value) by (bit_vector);
    } else {
        assert(buf[pre.len() as int] == keep | (mask as u8));
        assert(1 <= prefix_bits <= 8 ==> ((prefix_value & !(((1u32 << prefix_bits)
            - 1) as u32 as u8)) | (((1u32 << prefix_bits) - 1) as u32 as u8)) as u32 & ((
        (1u32 << prefix_bits) - 1) as u32) == ((1u32 << prefix_bits) - 1) as u32)
            by (bit_vector);
        let rest = (value - mask) as nat;
        let pre2 = pre.push(keep | (mask as u8));
        assert(pre2 + continuation_octets(rest) + post == buf);
        lemma2_to64();
        vstd::arithmetic::power2::lemma2_to64_rest();
        lemma_continuation_round_trip(pre2, rest, post, mask as nat, 0);
    }
}

/// Decoding continuation octets ends after `i`, within the buffer.
proof fn lemma_continuation_advances(buf: Seq<u8>, i: int, value: nat, shift: nat)
    ensures
        decode_continuation(buf, i, value, shift) matches Some((v, end)) ==> i < end <= buf.len(),
    decreases 36 - shift,
{
    if 0 <= i < buf.len() && shift <= 28 {
        let b = buf[i];
        let next = value + (b % 128) as nat * pow2(shift);
        if next <= u32::MAX && b >= 128 {
            lemma_continuation_advances(buf, i + 1, next, shift + 7);
        }
    }
}

/// A decoded integer ends after the position it starts at, within the buffer.
pub proof fn lemma_decode_int_advances(buf: Seq<u8>, pos: int, prefix_bits: u8)
    ensures
        decode_int(buf, pos, prefix_bits) matches Some((v, end)) ==> pos < end <= buf.len(),
{
    if 0 <= pos < buf.len() {
        lemma_continuation_advances(buf, pos + 1, int_mask(prefix_bits) as nat, 0);
    }
}

/// With a 7-bit prefix, the high bit of the first octet is that of
/// `prefix_value`.
pub proof fn lemma_first_octet_7(value: u32, prefix_value: u8)
    ensures
        encode_int(value, 7, prefix_value).len() >= 1,
        encode_int(value, 7, prefix_value)[0] >= 0x80 <==> prefix_value >= 0x80,
{
    let mask = int_mask(7);
    assert(mask == 127) by (bit_vector)
        requires
            mask == ((1u32 << 7u8) - 1) as u32,
    ;
    let keep = prefix_keep(prefix_value, 7);
    assert(keep == prefix_value & !(127u32 as u8));
    let low: u8 = if value < mask {
        value as u8
    } else {
        mask as u8
    };
    assert(low <= 127);
    assert(low <= 127 ==> (((prefix_value & !(127u32 as u8)) | low) >= 0x80 <==> prefix_value
        >= 0x80)) by (bit_vector);
}

/// With a 4-bit prefix and no bits above it, the first octet is below 0x10.
pub proof fn lemma_first_octet_4(value: u32)
    ensures
        encode_int(value, 4, 0).len() >= 1,
        encode_int(value, 4, 0)[0] < 0x10,
{
    let mask = int_mask(4);
    assert(mask == 15) by (bit_vector)
        requires
            mask == ((1u32 << 4u8) - 1) as u32,
    ;
    let low: u8 = if value < mask {
        value as u8
    } else {
        mask as u8
    };
    assert(low <= 15);
    assert(low <= 15 ==> ((0u8 & !(15u32 as u8)) | low) < 0x10) by (bit_vector);
}

} // verus!
