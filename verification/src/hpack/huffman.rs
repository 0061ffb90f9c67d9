use vstd::arithmetic::div_mod::{
    lemma_div_denominator, lemma_fundamental_div_mod, lemma_fundamental_div_mod_converse,
    lemma_div_pos_is_pos, lemma_div_is_ordered,
};
use vstd::arithmetic::power2::{lemma2_to64, lemma2_to64_rest, lemma_pow2_adds, lemma_pow2_pos, pow2};
use vstd::bits::{
    lemma_u64_low_bits_mask_is_mod, lemma_u64_shl_is_mul, lemma_u64_shr_is_div,
    lemma_u8_shr_is_div, low_bits_mask,
};
use vstd::prelude::*;

use crate::error::{compression_failure, ErrorCode, H2Error, H2Result};
use crate::hpack::huffman_table::{
    canonical_symbol, code_entry, code_limit, code_offset, code_rank, huffman_code, length_facts,
    lemma_length_facts, lemma_rank_facts, lemma_symbol_facts, limit_of, offset_of, rank_facts,
    symbol_at_rank, symbol_facts, EOS,
};

verus! {

/// The `n`-bit big-endian binary form of `v` (its low `n` bits).
pub open spec fn uint_bits(v: nat, n: nat) -> Seq<bool>
    decreases n,
{
    if n == 0 {
        Seq::empty()
    } else {
        uint_bits(v / 2, (n - 1) as nat).push(v % 2 == 1)
    }
}

/// The bits of a string of octets, most significant bit of each octet first.
pub open spec fn octet_bits(bytes: Seq<u8>) -> Seq<bool>
    decreases bytes.len(),
{
    if bytes.len() == 0 {
        Seq::empty()
    } else {
        uint_bits(bytes[0] as nat, 8) + octet_bits(bytes.drop_first())
    }
}

/// The code of one symbol, as bits.
pub open spec fn symbol_bits(sym: u16) -> Seq<bool> {
    uint_bits(code_entry(sym).0 as nat, code_entry(sym).1 as nat)
}

/// The codes of the octets of `input`, one after the other.
pub open spec fn code_bits(input: Seq<u8>) -> Seq<bool>
    decreases input.len(),
{
    if input.len() == 0 {
        Seq::empty()
    } else {
        symbol_bits(input[0] as u16) + code_bits(input.drop_first())
    }
}

pub open spec fn ones(n: nat) -> Seq<bool> {
    Seq::new(n, |i: int| true)
}

/// How many padding bits complete `nbits` to a whole number of octets.
pub open spec fn padding_len(nbits: nat) -> nat {
    ((8 - nbits % 8) % 8) as nat
}

/// The Huffman encoding of `input` as bits (RFC 7541 section 5.2): the
/// codes of its octets, then the most significant bits of EOS (all ones)
/// up to the next octet boundary.
pub open spec fn huffman_bits(input: Seq<u8>) -> Seq<bool> {
    code_bits(input) + ones(padding_len(code_bits(input).len()))
}

/// The big-endian value of a string of bits.
pub open spec fn bits_value(bits: Seq<bool>) -> nat
    decreases bits.len(),
{
    if bits.len() == 0 {
        0
    } else {
        2 * bits_value(bits.drop_last()) + bit_value(bits.last())
    }
}

/// A string of bits packed into octets, eight at a time, most significant
/// first; bits past the last whole octet are left out.
pub open spec fn pack_bits(bits: Seq<bool>) -> Seq<u8>
    decreases bits.len(),
{
    if bits.len() < 8 {
        Seq::empty()
    } else {
        seq![bits_value(bits.take(8)) as u8] + pack_bits(bits.skip(8))
    }
}

/// The Huffman encoding of `input` as octets.
pub open spec fn huffman_encode(input: Seq<u8>) -> Seq<u8> {
    pack_bits(huffman_bits(input))
}

/// The number of octets that the Huffman encoding of `input` takes.
pub open spec fn huffman_octets(input: Seq<u8>) -> nat {
    ((code_bits(input).len() + 7) / 8) as nat
}

/// `sym` is a symbol whose code is `acc`, `n` bits long.
pub open spec fn is_code_of(sym: u16, acc: nat, n: nat) -> bool {
    &&& sym <= EOS
    &&& code_entry(sym).0 as nat == acc
    &&& code_entry(sym).1 as nat == n
}

pub open spec fn bit_value(b: bool) -> nat {
    if b {
        1
    } else {
        0
    }
}

pub open spec fn prepend_octets(front: Seq<u8>, rest: Option<Seq<u8>>) -> Option<Seq<u8>> {
    match rest {
        Some(r) => Some(front + r),
        None => None,
    }
}

/// Huffman decoding of a string of bits, where `acc` holds the `n` bits
/// read since the last symbol. A symbol is emitted as soon as the bits
/// read form its code; EOS, or 30 bits that form no code, are refused.
/// At the end, at most seven bits may be left over, and they must be all
/// ones (a prefix of EOS).
pub open spec fn decode_bits(bits: Seq<bool>, acc: nat, n: nat) -> Option<Seq<u8>>
    decreases bits.len(),
{
    if bits.len() == 0 {
        if n >= 8 || (n > 0 && acc + 1 != pow2(n)) {
            None
        } else {
            Some(Seq::empty())
        }
    } else {
        let acc2 = 2 * acc + bit_value(bits[0]);
        let n2 = n + 1;
        if exists|s: u16| #[trigger] is_code_of(s, acc2, n2) {
            let s = choose|s: u16| #[trigger] is_code_of(s, acc2, n2);
            if s == EOS {
                None
            } else {
                prepend_octets(seq![s as u8], decode_bits(bits.drop_first(), 0, 0))
            }
        } else if n2 >= 30 {
            None
        } else {
            decode_bits(bits.drop_first(), acc2, n2)
        }
    }
}

/// The result of decoding a Huffman-coded string of octets.
pub open spec fn huffman_decode(input: Seq<u8>) -> Option<Seq<u8>> {
    decode_bits(octet_bits(input), 0, 0)
}

// ---------------------------------------------------------------------
// Bit strings.
proof fn lemma_uint_bits_len(v: nat, n: nat)
    ensures
        uint_bits(v, n).len() == n,
    decreases n,
{
    if n > 0 {
        lemma_uint_bits_len(v / 2, (n - 1) as nat);
    }
}

/// Bit `i` of the `n`-bit form of `v`, counted from the most significant.
proof fn lemma_uint_bits_index(v: nat, n: nat, i: int)
    requires
        0 <= i < n,
    ensures
        uint_bits(v, n)[i] == ((v / pow2((n - 1 - i) as nat)) % 2 == 1),
    decreases n,
{
    lemma_uint_bits_len(v / 2, (n - 1) as nat);
    lemma2_to64();
    let inner = uint_bits(v / 2, (n - 1) as nat);
    assert(uint_bits(v, n) == inner.push(v % 2 == 1));
    if i == n - 1 {
        assert(pow2((n - 1 - i) as nat) == 1);
        assert(v / 1 == v);
    } else {
        assert(uint_bits(v, n)[i] == inner[i]);
        lemma_uint_bits_index(v / 2, (n - 1) as nat, i);
        let e = (n - 2 - i) as nat;
        lemma_pow2_pos(e);
        lemma_div_denominator(v as int, 2, pow2(e) as int);
        lemma_pow2_adds(1, e);
        assert((n - 1 - i) as nat == 1 + e);
        assert(pow2((n - 1 - i) as nat) == 2 * pow2(e));
    }
}

/// The bits of `a * 2^k + b`, for `b < 2^k`, are those of `a` then those of `b`.
proof fn lemma_uint_bits_concat(a: nat, m: nat, b: nat, k: nat)
    requires
        b < pow2(k),
    ensures
        uint_bits(a * pow2(k) + b, m + k) == uint_bits(a, m) + uint_bits(b, k),
    decreases k,
{
    if k == 0 {
        lemma2_to64();
        assert(b == 0);
        assert(uint_bits(b, k) =~= Seq::<bool>::empty());
        assert(a * pow2(k) == a) by (nonlinear_arith)
            requires
                pow2(k) == 1,
        ;
        assert(uint_bits(a, m) + uint_bits(b, k) =~= uint_bits(a, m));
    } else {
        let v = a * pow2(k) + b;
        lemma_pow2_adds(1, (k - 1) as nat);
        lemma2_to64();
        let p = pow2((k - 1) as nat);
        assert(pow2(k) == 2 * p);
        lemma_fundamental_div_mod(b as int, 2);
        let q = a * p + b / 2;
        assert(v == q * 2 + b % 2) by (nonlinear_arith)
            requires
                v == a * pow2(k) + b,
                pow2(k) == 2 * p,
                b == 2 * (b / 2) + b % 2,
                q == a * p + b / 2,
        ;
        lemma_fundamental_div_mod_converse(v as int, 2, q as int, (b % 2) as int);
        assert(b / 2 < p) by {
            lemma_div_is_ordered(b as int, (2 * p - 1) as int, 2);
            assert((2 * p - 1) / 2 == p - 1) by {
                lemma_fundamental_div_mod_converse((2 * p - 1) as int, 2, (p - 1) as int, 1);
            }
        }
        lemma_uint_bits_concat(a, m, b / 2, (k - 1) as nat);
        assert((m + k - 1) as nat == m + (k - 1) as nat);
        assert(uint_bits(v, m + k) == uint_bits(v / 2, (m + k - 1) as nat).push(v % 2 == 1));
        assert(uint_bits(b, k) == uint_bits(b / 2, (k - 1) as nat).push(b % 2 == 1));
        assert(uint_bits(v, m + k) =~= uint_bits(a, m) + uint_bits(b, k));
    }
}

/// The `p`-bit form of `2^p - 1` is all ones.
proof fn lemma_uint_bits_all_ones(p: nat)
    ensures
        uint_bits((pow2(p) - 1) as nat, p) == ones(p),
    decreases p,
{
    lemma_pow2_pos(p);
    if p == 0 {
        assert(uint_bits((pow2(p) - 1) as nat, p) =~= ones(p));
    } else {
        lemma_pow2_adds(1, (p - 1) as nat);
        lemma2_to64();
        let q = pow2((p - 1) as nat);
        lemma_pow2_pos((p - 1) as nat);
        let v = (pow2(p) - 1) as nat;
        assert(v == (q - 1) * 2 + 1);
        lemma_fundamental_div_mod_converse(v as int, 2, (q - 1) as int, 1);
        lemma_uint_bits_all_ones((p - 1) as nat);
        assert(uint_bits(v, p) =~= ones(p));
    }
}

proof fn lemma_octet_bits_len(bytes: Seq<u8>)
    ensures
        octet_bits(bytes).len() == 8 * bytes.len(),
    decreases bytes.len(),
{
    if bytes.len() > 0 {
        lemma_uint_bits_len(bytes[0] as nat, 8);
        lemma_octet_bits_len(bytes.drop_first());
    }
}

proof fn lemma_octet_bits_append(bytes: Seq<u8>, b: u8)
    ensures
        octet_bits(bytes.push(b)) == octet_bits(bytes) + uint_bits(b as nat, 8),
    decreases bytes.len(),
{
    if bytes.len() == 0 {
        assert(bytes.push(b).drop_first() =~= Seq::<u8>::empty());
        assert(bytes.push(b)[0] == b);
        assert(octet_bits(Seq::<u8>::empty()) == Seq::<bool>::empty());
        assert(octet_bits(bytes.push(b)) =~= octet_bits(bytes) + uint_bits(b as nat, 8));
    } else {
        assert(bytes.push(b).drop_first() =~= bytes.drop_first().push(b));
        lemma_octet_bits_append(bytes.drop_first(), b);
        assert(octet_bits(bytes.push(b)) =~= octet_bits(bytes) + uint_bits(b as nat, 8));
    }
}

/// Bit `k` of octet `j` stands at position `8 * j + k`.
proof fn lemma_octet_bits_index(bytes: Seq<u8>, j: int, k: int)
    requires
        0 <= j < bytes.len(),
        0 <= k < 8,
    ensures
        octet_bits(bytes).len() == 8 * bytes.len(),
        octet_bits(bytes)[8 * j + k] == uint_bits(bytes[j] as nat, 8)[k],
    decreases bytes.len(),
{
    lemma_octet_bits_len(bytes);
    lemma_uint_bits_len(bytes[0] as nat, 8);
    if j > 0 {
        lemma_octet_bits_index(bytes.drop_first(), j - 1, k);
        assert(8 * j + k == 8 + (8 * (j - 1) + k));
    }
}

proof fn lemma_code_bits_append(input: Seq<u8>, b: u8)
    ensures
        code_bits(input.push(b)) == code_bits(input) + symbol_bits(b as u16),
    decreases input.len(),
{
    if input.len() == 0 {
        assert(input.push(b).drop_first() =~= Seq::<u8>::empty());
        assert(input.push(b)[0] == b);
        assert(code_bits(Seq::<u8>::empty()) == Seq::<bool>::empty());
        assert(code_bits(input.push(b)) =~= code_bits(input) + symbol_bits(b as u16));
    } else {
        assert(input.push(b).drop_first() =~= input.drop_first().push(b));
        lemma_code_bits_append(input.drop_first(), b);
        assert(code_bits(input.push(b)) =~= code_bits(input) + symbol_bits(b as u16));
    }
}

// ---------------------------------------------------------------------
// The code table.
/// No two symbols share a code.
proof fn lemma_code_injective(s: u16, t: u16)
    requires
        s <= EOS,
        t <= EOS,
        code_entry(s) == code_entry(t),
    ensures
        s == t,
{
    lemma_symbol_facts(s);
    lemma_symbol_facts(t);
}

/// Each further bit of length at least doubles the canonical limit.
proof fn lemma_limit_chain(l1: nat, l2: nat)
    requires
        l1 <= l2 <= 30,
    ensures
        code_limit(l1 as u8) * pow2((l2 - l1) as nat) <= code_limit(l2 as u8),
    decreases l2 - l1,
{
    lemma2_to64();
    if l1 < l2 {
        lemma_limit_chain(l1, (l2 - 1) as nat);
        lemma_length_facts((l2 - 1) as u8);
        let d = (l2 - l1) as nat;
        lemma_pow2_adds((d - 1) as nat, 1);
        assert(pow2(d) == pow2((d - 1) as nat) * 2);
        let a = code_limit(l1 as u8);
        let p = pow2((d - 1) as nat);
        let lprev = code_limit((l2 - 1) as u8);
        assert(((l2 - 1) as u8 + 1) as u8 == l2 as u8);
        assert(2 * lprev <= code_limit(l2 as u8));
        assert(a * pow2(d) <= 2 * lprev) by (nonlinear_arith)
            requires
                a * p <= lprev,
                pow2(d) == p * 2,
        ;
    } else {
        let a = code_limit(l1 as u8);
        assert(a * pow2(0) == a) by (nonlinear_arith)
            requires
                pow2(0) == 1,
        ;
    }
}

/// The codes are prefix free: the first `k` bits of a longer code are the
/// code of no symbol.
proof fn lemma_prefix_free(s: u16, k: nat)
    requires
        s <= EOS,
        k < code_entry(s).1,
    ensures
        forall|t: u16|
            !#[trigger] is_code_of(
                t,
                code_entry(s).0 as nat / pow2((code_entry(s).1 - k) as nat),
                k,
            ),
{
    let (code, len) = code_entry(s);
    lemma_symbol_facts(s);
    let d = (len - k) as nat;
    lemma_pow2_pos(d);
    lemma_pow2_pos((d - 1) as nat);
    lemma_limit_chain(k, (len - 1) as nat);
    lemma_pow2_adds((d - 1) as nat, 1);
    lemma2_to64();
    let lk = code_limit(k as u8);
    let p = pow2((d - 1) as nat);
    assert(lk * pow2(d) <= code) by (nonlinear_arith)
        requires
            lk * p <= code_limit((len - 1) as u8),
            2 * code_limit((len - 1) as u8) <= code,
            pow2(d) == p * 2,
    ;
    assert(lk <= code as nat / pow2(d)) by {
        vstd::arithmetic::div_mod::lemma_div_is_ordered(
            (lk * pow2(d)) as int,
            code as int,
            pow2(d) as int,
        );
        vstd::arithmetic::div_mod::lemma_div_by_multiple(lk as int, pow2(d) as int);
    }
    assert forall|t: u16| !#[trigger] is_code_of(t, code as nat / pow2(d), k) by {
        if is_code_of(t, code as nat / pow2(d), k) {
            lemma_symbol_facts(t);
        }
    }
}

/// No symbol has a code of one to seven bits that are all ones.
proof fn lemma_all_ones_is_no_code(k: nat)
    requires
        1 <= k <= 7,
    ensures
        forall|t: u16| !#[trigger] is_code_of(t, (pow2(k) - 1) as nat, k),
{
    lemma_length_facts(k as u8);
    assert forall|t: u16| !#[trigger] is_code_of(t, (pow2(k) - 1) as nat, k) by {
        if is_code_of(t, (pow2(k) - 1) as nat, k) {
            lemma_symbol_facts(t);
        }
    }
}


// ---------------------------------------------------------------------
// Decoding what was encoded.
/// The value of the first `k` bits of a code is the code shifted right;
/// one more bit gives the value of the first `k + 1` bits.
proof fn lemma_code_prefix_step(code: nat, len: nat, k: nat)
    requires
        k < len,
    ensures
        2 * (code / pow2((len - k) as nat)) + bit_value(uint_bits(code, len)[k as int]) == code
            / pow2((len - k - 1) as nat),
{
    let e = (len - k - 1) as nat;
    lemma_uint_bits_index(code, len, k as int);
    lemma_pow2_pos(e);
    let y = code / pow2(e);
    lemma_div_denominator(code as int, pow2(e) as int, 2);
    lemma_pow2_adds(e, 1);
    lemma2_to64();
    assert((len - k) as nat == e + 1);
    assert(pow2((len - k) as nat) == pow2(e) * 2);
    assert(code / pow2((len - k) as nat) == y / 2);
    lemma_fundamental_div_mod(y as int, 2);
}

/// Reading the rest of the code of a symbol other than EOS, from any point
/// within it, emits that symbol and goes on with what follows.
proof fn lemma_decode_symbol(c: u16, k: nat, acc: nat, rest: Seq<bool>)
    requires
        c < EOS,
        k < code_entry(c).1,
        acc == code_entry(c).0 as nat / pow2((code_entry(c).1 - k) as nat),
    ensures
        decode_bits(symbol_bits(c).skip(k as int) + rest, acc, k) == prepend_octets(
            seq![c as u8],
            decode_bits(rest, 0, 0),
        ),
    decreases code_entry(c).1 - k,
{
    let (code, len) = code_entry(c);
    let code = code as nat;
    let len = len as nat;
    lemma_symbol_facts(c);
    lemma_uint_bits_len(code, len);
    let bits = symbol_bits(c).skip(k as int) + rest;
    assert(bits[0] == uint_bits(code, len)[k as int]);
    lemma_code_prefix_step(code, len, k);
    let acc2 = 2 * acc + bit_value(bits[0]);
    assert(acc2 == code / pow2((len - k - 1) as nat));
    assert(bits.len() > 0);
    if k + 1 < len {
        lemma_prefix_free(c, k + 1);
        assert(acc2 == code_entry(c).0 as nat / pow2((code_entry(c).1 - (k + 1)) as nat));
        assert(forall|t: u16| !#[trigger] is_code_of(t, acc2, k + 1));
        assert(!exists|s: u16| #[trigger] is_code_of(s, acc2, k + 1));
        assert(bits.drop_first() =~= symbol_bits(c).skip((k + 1) as int) + rest);
        lemma_decode_symbol(c, k + 1, acc2, rest);
        assert(decode_bits(bits, acc, k) == decode_bits(bits.drop_first(), acc2, k + 1));
    } else {
        lemma2_to64();
        assert(acc2 == code);
        assert(is_code_of(c, acc2, k + 1));
        let s = choose|s: u16| #[trigger] is_code_of(s, acc2, k + 1);
        lemma_code_injective(s, c);
        assert(bits.drop_first() =~= rest);
        assert(s == c);
        assert(decode_bits(bits, acc, k) == prepend_octets(
            seq![s as u8],
            decode_bits(bits.drop_first(), 0, 0),
        ));
    }
}

/// Up to seven ones, continuing a run of ones, decode to nothing.
proof fn lemma_decode_padding(k: nat, m: nat)
    requires
        k + m <= 7,
    ensures
        decode_bits(ones(m), (pow2(k) - 1) as nat, k) == Some(Seq::<u8>::empty()),
    decreases m,
{
    lemma_pow2_pos(k);
    if m > 0 {
        lemma_pow2_adds(k, 1);
        lemma2_to64();
        let acc2 = (2 * (pow2(k) - 1) + 1) as nat;
        assert(acc2 == (pow2(k + 1) - 1) as nat);
        lemma_all_ones_is_no_code(k + 1);
        assert(!exists|s: u16| #[trigger] is_code_of(s, acc2, k + 1));
        assert(ones(m).drop_first() =~= ones((m - 1) as nat));
        lemma_decode_padding(k + 1, (m - 1) as nat);
    }
}

/// The codes of a string of octets decode to that string, and decoding
/// goes on with what follows them.
proof fn lemma_decode_codes(input: Seq<u8>, tail: Seq<bool>)
    ensures
        decode_bits(code_bits(input) + tail, 0, 0) == prepend_octets(input, decode_bits(tail, 0, 0)),
    decreases input.len(),
{
    if input.len() == 0 {
        assert(code_bits(input) + tail =~= tail);
        assert(prepend_octets(input, decode_bits(tail, 0, 0)) =~= decode_bits(tail, 0, 0)) by {
            match decode_bits(tail, 0, 0) {
                Some(r) => assert(input + r =~= r),
                None => {},
            }
        }
    } else {
        let c = input[0] as u16;
        let (code, len) = code_entry(c);
        lemma_symbol_facts(c);
        lemma_length_facts(len);
        lemma_pow2_pos(len as nat);
        assert(code as nat / pow2(len as nat) == 0) by {
            vstd::arithmetic::div_mod::lemma_basic_div(code as int, pow2(len as nat) as int);
        }
        assert(symbol_bits(c).skip(0) =~= symbol_bits(c));
        let after = code_bits(input.drop_first()) + tail;
        assert(code_bits(input) + tail =~= symbol_bits(c).skip(0) + after);
        lemma_decode_symbol(c, 0, 0, after);
        lemma_decode_codes(input.drop_first(), tail);
        match decode_bits(tail, 0, 0) {
            Some(r) => {
                assert(seq![input[0]] + (input.drop_first() + r) =~= input + r);
            },
            None => {},
        }
    }
}

/// Packing a whole number of octets' worth of bits and reading them back
/// gives the same bits.
proof fn lemma_octet_bits_pack(bits: Seq<bool>)
    requires
        bits.len() % 8 == 0,
    ensures
        octet_bits(pack_bits(bits)) == bits,
    decreases bits.len(),
{
    if bits.len() >= 8 {
        let b = bits_value(bits.take(8));
        lemma_bits_value_bound(bits.take(8));
        lemma2_to64();
        lemma_uint_bits_of_value(bits.take(8));
        lemma_octet_bits_pack(bits.skip(8));
        let packed = pack_bits(bits);
        assert(packed[0] == b as u8);
        assert(packed.drop_first() =~= pack_bits(bits.skip(8)));
        assert(octet_bits(packed) =~= bits);
    } else {
        assert(bits.len() == 0);
        assert(octet_bits(pack_bits(bits)) =~= bits);
    }
}

proof fn lemma_bits_value_bound(bits: Seq<bool>)
    ensures
        bits_value(bits) < pow2(bits.len()),
    decreases bits.len(),
{
    lemma_pow2_pos(bits.len());
    if bits.len() > 0 {
        lemma_bits_value_bound(bits.drop_last());
        lemma_pow2_adds(1, (bits.len() - 1) as nat);
        lemma2_to64();
    }
}

/// Reading a string of bits as a number and writing the number back with
/// as many bits gives the same bits.
proof fn lemma_uint_bits_of_value(bits: Seq<bool>)
    ensures
        uint_bits(bits_value(bits), bits.len()) == bits,
    decreases bits.len(),
{
    if bits.len() == 0 {
        assert(uint_bits(bits_value(bits), bits.len()) =~= bits);
    } else {
        let v = bits_value(bits);
        let w = bits_value(bits.drop_last());
        lemma_fundamental_div_mod_converse(v as int, 2, w as int, bit_value(bits.last()) as int);
        lemma_uint_bits_of_value(bits.drop_last());
        assert(uint_bits(v, bits.len()) =~= bits);
    }
}

/// The Huffman encoding of `input` takes `huffman_octets(input)` octets.
pub proof fn lemma_huffman_encode_len(input: Seq<u8>)
    ensures
        huffman_encode(input).len() == huffman_octets(input),
{
    let bits = huffman_bits(input);
    let total = code_bits(input).len();
    assert(bits.len() == total + padding_len(total));
    lemma_octet_bits_pack(bits);
    lemma_octet_bits_len(huffman_encode(input));
}

/// Huffman decoding gives back what Huffman encoding was given: for every
/// string of octets, its encoding decodes to the string itself.
pub proof fn lemma_huffman_decode_encode(input: Seq<u8>)
    ensures
        huffman_decode(huffman_encode(input)) == Some(input),
{
    let bits = huffman_bits(input);
    let total = code_bits(input).len();
    assert(bits.len() % 8 == 0) by {
        assert(bits.len() == total + padding_len(total));
    }
    lemma_octet_bits_pack(bits);
    lemma_huffman_round_trip(input, huffman_encode(input));
}

/// Huffman decoding gives back what Huffman encoding was given: for every
/// string of octets, the bits of its encoding decode to the string itself.
proof fn lemma_huffman_round_trip(input: Seq<u8>, encoded: Seq<u8>)
    requires
        octet_bits(encoded) == huffman_bits(input),
    ensures
        huffman_decode(encoded) == Some(input),
{
    let pad = padding_len(code_bits(input).len());
    lemma_decode_codes(input, ones(pad));
    lemma_decode_padding(0, pad);
    lemma2_to64();
    assert(input + Seq::<u8>::empty() =~= input);
}


// ---------------------------------------------------------------------
// Executable coding.
/// Canonical offsets never decrease and never pass the number of symbols.
proof fn lemma_offset_monotone(a: nat, b: nat)
    requires
        a <= b <= 31,
    ensures
        code_offset(a as u8) <= code_offset(b as u8) <= 257,
    decreases b - a,
{
    if a < b {
        lemma_offset_monotone(a + 1, b);
        lemma_length_facts(a as u8);
    } else {
        lemma_offset_at_most_all(b);
    }
}

proof fn lemma_offset_at_most_all(a: nat)
    requires
        a <= 31,
    ensures
        code_offset(a as u8) <= 257,
    decreases 31 - a,
{
    lemma_length_facts(30);
    if a < 31 {
        lemma_offset_at_most_all(a + 1);
        lemma_length_facts(a as u8);
    }
}

/// The symbol whose code is `acc`, `n` bits long, if there is one.
fn symbol_for_code(acc: u32, n: u8) -> (r: Option<u16>)
    ensures
        match r {
            Some(s) => is_code_of(s, acc as nat, n as nat),
            None => forall|s: u16| !#[trigger] is_code_of(s, acc as nat, n as nat),
        },
{
    proof {
        assert forall|s: u16| #[trigger] is_code_of(s, acc as nat, n as nat) implies 5 <= n <= 30
            && 2 * code_limit((n - 1) as u8) <= acc < code_limit(n) by {
            lemma_symbol_facts(s);
        }
    }
    if n < 5 || n > 30 {
        return None;
    }
    proof {
        lemma_length_facts((n - 1) as u8);
        lemma_length_facts(n);
    }
    let lo = 2 * limit_of(n - 1);
    let hi = limit_of(n);
    if acc < lo || acc >= hi {
        return None;
    }
    let base = offset_of(n);
    proof {
        lemma_offset_monotone(n as nat, (n + 1) as nat);
        lemma_offset_monotone((n + 1) as nat, 31);
    }
    let rank = base + (acc - lo) as u16;
    let sym = symbol_at_rank(rank);
    proof {
        lemma_rank_facts(rank);
        let (c, l) = code_entry(sym);
        if l < n {
            lemma_offset_monotone((l + 1) as nat, n as nat);
        } else if l > n {
            lemma_offset_monotone((n + 1) as nat, l as nat);
        }
        assert(l == n);
    }
    Some(sym)
}

fn compression_error<T>() -> (r: H2Result<T>)
    ensures
        r == Err::<T, H2Error>(compression_failure()),
{
    Err(H2Error::Connection(ErrorCode::CompressionError))
}

proof fn lemma_prepend_push(out: Seq<u8>, s: u8, rest: Option<Seq<u8>>)
    ensures
        prepend_octets(out, prepend_octets(seq![s], rest)) == prepend_octets(out.push(s), rest),
{
    match rest {
        Some(r) => {
            assert(out + (seq![s] + r) =~= out.push(s) + r);
        },
        None => {},
    }
}

proof fn lemma_bits_value_uint_bits(v: nat, n: nat)
    requires
        v < pow2(n),
    ensures
        bits_value(uint_bits(v, n)) == v,
    decreases n,
{
    lemma_uint_bits_len(v, n);
    if n > 0 {
        lemma_pow2_adds(1, (n - 1) as nat);
        lemma2_to64();
        lemma_fundamental_div_mod(v as int, 2);
        assert(v / 2 < pow2((n - 1) as nat));
        lemma_bits_value_uint_bits(v / 2, (n - 1) as nat);
        assert(uint_bits(v, n).drop_last() =~= uint_bits(v / 2, (n - 1) as nat));
        assert(uint_bits(v, n).last() == (v % 2 == 1));
        assert(bit_value(uint_bits(v, n).last()) == v % 2);
    } else {
        lemma2_to64();
    }
}

/// Packing the bits of a string of octets gives the octets back.
proof fn lemma_pack_octet_bits(bytes: Seq<u8>)
    ensures
        pack_bits(octet_bits(bytes)) == bytes,
    decreases bytes.len(),
{
    lemma_octet_bits_len(bytes);
    if bytes.len() > 0 {
        let first = uint_bits(bytes[0] as nat, 8);
        lemma_uint_bits_len(bytes[0] as nat, 8);
        let all = octet_bits(bytes);
        assert(all.take(8) =~= first);
        assert(all.skip(8) =~= octet_bits(bytes.drop_first()));
        lemma2_to64();
        lemma_bits_value_uint_bits(bytes[0] as nat, 8);
        lemma_pack_octet_bits(bytes.drop_first());
        assert(pack_bits(all) =~= bytes);
    } else {
        assert(pack_bits(octet_bits(bytes)) =~= bytes);
    }
}

/// The value of bit `k` (from the most significant) of an octet.
proof fn lemma_octet_bit(byte: u8, k: u32)
    requires
        k < 8,
    ensures
        bit_value(uint_bits(byte as nat, 8)[k as int]) == ((byte >> ((7 - k) as u8)) & 1) as nat,
{
    lemma_uint_bits_index(byte as nat, 8, k as int);
    lemma_u8_shr_is_div(byte, (7 - k) as u8);
    let x = byte >> ((7 - k) as u8);
    assert(x & 1 == x % 2) by (bit_vector);
}

/// Decodes a Huffman-coded string (RFC 7541 section 5.2); a compression
/// error where the bits hold EOS, run into no code, or end in padding
/// longer than seven bits or not all ones.
pub fn decode(input: &[u8]) -> (r: H2Result<Vec<u8>>)
    ensures
        match huffman_decode(input@) {
            Some(v) => r matches Ok(out) && out@ == v,
            None => r == Err::<Vec<u8>, H2Error>(compression_failure()),
        },
{
    let ghost all = octet_bits(input@);
    proof {
        lemma_octet_bits_len(input@);
        assert(all.skip(0) =~= all);
        lemma2_to64();
        assert(prepend_octets(Seq::<u8>::empty(), decode_bits(all, 0, 0)) =~= decode_bits(
            all,
            0,
            0,
        )) by {
            match decode_bits(all, 0, 0) {
                Some(v) => assert(Seq::<u8>::empty() + v =~= v),
                None => {},
            }
        }
    }
    let mut out: Vec<u8> = Vec::new();
    let mut acc: u32 = 0;
    let mut n: u8 = 0;
    let mut j: usize = 0;
    while j < input.len()
        invariant
            0 <= j <= input.len(),
            all == octet_bits(input@),
            all.len() == 8 * input.len(),
            n < 30,
            acc < pow2(n as nat),
            decode_bits(all, 0, 0) == prepend_octets(
                out@,
                decode_bits(all.skip(8 * j), acc as nat, n as nat),
            ),
        decreases input.len() - j,
    {
        let byte = input[j];
        let mut k: u32 = 0;
        while k < 8
            invariant
                0 <= j < input.len(),
                byte == input@[j as int],
                k <= 8,
                all == octet_bits(input@),
                all.len() == 8 * input.len(),
                n < 30,
                acc < pow2(n as nat),
                decode_bits(all, 0, 0) == prepend_octets(
                    out@,
                    decode_bits(all.skip(8 * j + k), acc as nat, n as nat),
                ),
            decreases 8 - k,
        {
            let bit = (byte >> ((7 - k) as u8)) & 1;
            let ghost idx = 8 * j + k;
            let ghost rest = all.skip(idx);
            proof {
                lemma_octet_bits_index(input@, j as int, k as int);
                lemma_octet_bit(byte, k);
                assert(rest[0] == all[idx]);
                assert(rest.drop_first() =~= all.skip(idx + 1));
                lemma_pow2_adds(n as nat, 1);
                lemma2_to64();
                lemma_pow2_pos(n as nat);
                assert((byte >> ((7 - k) as u8)) & 1 <= 1) by (bit_vector);
                assert(pow2(29) == 0x20000000);
                vstd::arithmetic::power::lemma_pow_increases(2, n as nat, 29);
                vstd::arithmetic::power2::lemma_pow2(n as nat);
                vstd::arithmetic::power2::lemma_pow2(29);
            }
            let acc2 = acc * 2 + bit as u32;
            let n2 = n + 1;
            match symbol_for_code(acc2, n2) {
                Some(s) => {
                    proof {
                        assert(exists|t: u16| #[trigger] is_code_of(t, acc2 as nat, n2 as nat));
                        let t = choose|t: u16| #[trigger] is_code_of(t, acc2 as nat, n2 as nat);
                        lemma_code_injective(s, t);
                    }
                    if s == EOS {
                        return compression_error();
                    }
                    proof {
                        lemma_prepend_push(out@, s as u8, decode_bits(all.skip(idx + 1), 0, 0));
                    }
                    out.push(s as u8);
                    acc = 0;
                    n = 0;
                },
                None => {
                    if n2 >= 30 {
                        return compression_error();
                    }
                    acc = acc2;
                    n = n2;
                },
            }
            k = k + 1;
        }
        j = j + 1;
    }
    proof {
        assert(all.skip(8 * j) =~= Seq::<bool>::empty());
    }
    if n >= 8 {
        return compression_error();
    }
    proof {
        vstd::bits::lemma_u32_shl_is_mul(1, n as u32);
        lemma2_to64();
        vstd::arithmetic::power::lemma_pow_increases(2, n as nat, 8);
        vstd::arithmetic::power2::lemma_pow2(n as nat);
        vstd::arithmetic::power2::lemma_pow2(8);
    }
    if n > 0 && acc + 1 != (1u32 << n) {
        return compression_error();
    }
    proof {
        assert(out@ + Seq::<u8>::empty() =~= out@);
    }
    Ok(out)
}


proof fn lemma_shl_or(x: u64, y: u64, b: u64)
    requires
        b < 64,
        y < (1u64 << b),
    ensures
        (x << b) | y == (x << b) + y,
{
    assert(b < 64 && y < (1u64 << b) ==> (x << b) | y == (x << b) + y) by (bit_vector);
}

/// The code of a symbol fits in its length, which is from 5 to 30 bits.
proof fn lemma_code_fits(sym: u16)
    requires
        sym <= EOS,
    ensures
        5 <= code_entry(sym).1 <= 30,
        code_entry(sym).0 < pow2(code_entry(sym).1 as nat),
        symbol_bits(sym).len() == code_entry(sym).1,
{
    lemma_symbol_facts(sym);
    lemma_length_facts(code_entry(sym).1);
    lemma_uint_bits_len(code_entry(sym).0 as nat, code_entry(sym).1 as nat);
}

/// Huffman-encodes `input` (RFC 7541 section 5.2), padding the last octet
/// with the high bits of EOS.
pub fn encode(input: &[u8]) -> (r: Vec<u8>)
    ensures
        r@ == huffman_encode(input@),
        octet_bits(r@) == huffman_bits(input@),
        r.len() == huffman_octets(input@),
{
    let mut out: Vec<u8> = Vec::with_capacity(input.len());
    let mut acc: u64 = 0;
    let mut held: u32 = 0;
    proof {
        lemma2_to64();
        assert(input@.take(0) =~= Seq::<u8>::empty());
        assert(octet_bits(out@) + uint_bits(0, 0) =~= code_bits(input@.take(0)));
    }
    let mut i: usize = 0;
    while i < input.len()
        invariant
            0 <= i <= input.len(),
            held < 8,
            acc < pow2(held as nat),
            octet_bits(out@) + uint_bits(acc as nat, held as nat) == code_bits(input@.take(i as int)),
        decreases input.len() - i,
    {
        let (code, bits) = huffman_code(input[i] as u16);
        proof {
            lemma_code_fits(input[i as int] as u16);
            lemma2_to64();
            lemma2_to64_rest();
            lemma_pow2_pos(held as nat);
            lemma_pow2_pos(bits as nat);
            lemma_pow2_adds(held as nat, bits as nat);
            assert(acc * pow2(bits as nat) < pow2(held as nat) * pow2(bits as nat)) by (
            nonlinear_arith)
                requires
                    acc < pow2(held as nat),
                    pow2(bits as nat) > 0,
            ;
            vstd::arithmetic::power::lemma_pow_increases(2, (held + bits) as nat, 37);
            vstd::arithmetic::power2::lemma_pow2((held + bits) as nat);
            vstd::arithmetic::power2::lemma_pow2(37);
            lemma_u64_shl_is_mul(acc, bits as u64);
            lemma_u64_shl_is_mul(1, bits as u64);
            lemma_shl_or(acc, code as u64, bits as u64);
            lemma_uint_bits_concat(acc as nat, held as nat, code as nat, bits as nat);
            lemma_code_bits_append(input@.take(i as int), input[i as int]);
            assert(input@.take(i as int).push(input[i as int]) =~= input@.take(i + 1));
            assert(acc * pow2(bits as nat) + code < pow2((held + bits) as nat)) by (
            nonlinear_arith)
                requires
                    acc + 1 <= pow2(held as nat),
                    code < pow2(bits as nat),
                    pow2(held as nat) * pow2(bits as nat) == pow2((held + bits) as nat),
            ;
        }
        acc = (acc << bits as u64) | code as u64;
        held = held + bits as u32;
        proof {
            assert(octet_bits(out@) + uint_bits(acc as nat, held as nat) =~= code_bits(
                input@.take(i + 1),
            ));
        }
        while held >= 8
            invariant
                held <= 37,
                acc < pow2(held as nat),
                octet_bits(out@) + uint_bits(acc as nat, held as nat) == code_bits(
                    input@.take(i + 1),
                ),
            decreases held,
        {
            held = held - 8;
            let ghost old_acc = acc;
            let high = acc >> held as u64;
            proof {
                lemma_pow2_pos(held as nat);
                vstd::bits::lemma_u64_pow2_no_overflow(held as nat);
                lemma_u64_shl_is_mul(1, held as u64);
            }
            let low = acc & ((1u64 << held as u64) - 1);
            proof {
                lemma2_to64();
                lemma_pow2_pos(held as nat);
                lemma_u64_shr_is_div(acc, held as u64);
                lemma_u64_shl_is_mul(1, held as u64);
                vstd::bits::lemma_u64_pow2_no_overflow(held as nat);
                lemma_u64_low_bits_mask_is_mod(acc, held as nat);
                lemma_pow2_adds(held as nat, 8);
                lemma_fundamental_div_mod(acc as int, pow2(held as nat) as int);
                assert(high < 256) by {
                    vstd::arithmetic::div_mod::lemma_div_by_multiple_is_strongly_ordered(
                        acc as int,
                        (pow2(held as nat) * 256) as int,
                        256,
                        pow2(held as nat) as int,
                    );
                    vstd::arithmetic::div_mod::lemma_div_by_multiple(
                        256,
                        pow2(held as nat) as int,
                    );
                    vstd::arithmetic::mul::lemma_mul_is_commutative(
                        256,
                        pow2(held as nat) as int,
                    );
                }
                assert(high < 256 ==> high & 0xff == high) by (bit_vector);
                assert(low < pow2(held as nat)) by {
                    vstd::arithmetic::div_mod::lemma_mod_bound(acc as int, pow2(held as nat) as int);
                }
                lemma_uint_bits_concat(high as nat, 8, low as nat, held as nat);
                assert(old_acc == high * pow2(held as nat) + low) by (nonlinear_arith)
                    requires
                        old_acc as nat == pow2(held as nat) * (old_acc as nat / pow2(held as nat))
                            + old_acc as nat % pow2(held as nat),
                        high as nat == old_acc as nat / pow2(held as nat),
                        low as nat == old_acc as nat % pow2(held as nat),
                ;
                assert((8 + held) as nat == (held + 8) as nat);
                lemma_octet_bits_append(out@, high as u8);
            }
            out.push((high & 0xff) as u8);
            acc = low;
            proof {
                assert(octet_bits(out@) + uint_bits(acc as nat, held as nat) =~= code_bits(
                    input@.take(i + 1),
                ));
            }
        }
        i = i + 1;
    }
    proof {
        assert(input@.take(input.len() as int) =~= input@);
        lemma_octet_bits_len(out@);
        lemma_uint_bits_len(acc as nat, held as nat);
    }
    if held > 0 {
        let pad = 8 - held;
        let ghost before = out@;
        proof {
            lemma2_to64();
            lemma_pow2_pos(pad as nat);
            lemma_pow2_adds(held as nat, pad as nat);
            lemma_u64_shl_is_mul(1, pad as u64);
            assert(acc * pow2(pad as nat) < 256) by (nonlinear_arith)
                requires
                    acc + 1 <= pow2(held as nat),
                    pow2(held as nat) * pow2(pad as nat) == 256,
                    pow2(pad as nat) > 0,
            ;
            lemma_u64_shl_is_mul(acc, pad as u64);
            lemma_shl_or(acc, ((1u64 << pad as u64) - 1) as u64, pad as u64);
            assert(acc * pow2(pad as nat) + pow2(pad as nat) - 1 < 256) by (nonlinear_arith)
                requires
                    acc + 1 <= pow2(held as nat),
                    pow2(held as nat) * pow2(pad as nat) == 256,
            ;
        }
        let tail = ((acc << pad as u64) | ((1u64 << pad as u64) - 1)) & 0xff;
        proof {
            let t = (acc << pad as u64) | (((1u64 << pad as u64) - 1) as u64);
            assert(t < 256 ==> t & 0xff == t) by (bit_vector);
            lemma_uint_bits_concat(acc as nat, held as nat, (pow2(pad as nat) - 1) as nat, pad as nat);
            lemma_uint_bits_all_ones(pad as nat);
            assert((held + pad) as nat == 8);
            lemma_octet_bits_append(out@, tail as u8);
        }
        out.push(tail as u8);
        proof {
            assert(padding_len(code_bits(input@).len()) == pad);
            assert(octet_bits(out@) =~= huffman_bits(input@));
            lemma_octet_bits_len(out@);
        }
    } else {
        proof {
            assert(uint_bits(acc as nat, 0) =~= Seq::<bool>::empty());
            assert(padding_len(code_bits(input@).len()) == 0);
            assert(ones(0) =~= Seq::<bool>::empty());
            assert(octet_bits(out@) =~= huffman_bits(input@));
        }
    }
    proof {
        lemma_pack_octet_bits(out@);
    }
    out
}

/// The number of octets that `encode` gives for `input`.
pub fn encoded_len(input: &[u8]) -> (r: usize)
    requires
        input.len() <= usize::MAX / 30,
    ensures
        r == huffman_octets(input@),
{
    let mut bits: usize = 0;
    let mut i: usize = 0;
    proof {
        assert(input@.take(0) =~= Seq::<u8>::empty());
    }
    while i < input.len()
        invariant
            0 <= i <= input.len(),
            input.len() <= usize::MAX / 30,
            bits == code_bits(input@.take(i as int)).len(),
            bits <= 30 * i,
        decreases input.len() - i,
    {
        let (_, len) = huffman_code(input[i] as u16);
        proof {
            lemma_code_fits(input[i as int] as u16);
            lemma_code_bits_append(input@.take(i as int), input[i as int]);
            assert(input@.take(i as int).push(input[i as int]) =~= input@.take(i + 1));
        }
        bits = bits + len as usize;
        i = i + 1;
    }
    proof {
        assert(input@.take(input.len() as int) =~= input@);
    }
    bits / 8 + if bits % 8 != 0 {
        1
    } else {
        0
    }
}

/// The length that `encoded_len` gives is that of what `encode` gives.
pub proof fn lemma_encoded_len_agrees(input: Seq<u8>, encoded: Seq<u8>, len: nat)
    requires
        octet_bits(encoded) == huffman_bits(input),
        len == huffman_octets(input),
    ensures
        encoded.len() == len,
{
    lemma_octet_bits_len(encoded);
}

} // verus!
