use vstd::arithmetic::power2::{lemma2_to64, pow2};
use vstd::prelude::*;

verus! {

/// The end-of-string symbol; it may never appear in a decoded string.
pub const EOS: u16 = 256;

/// The code of each symbol (the 256 octets and EOS) and its length in
/// bits, as listed in RFC 7541 Appendix B.
pub open spec fn code_entry(sym: u16) -> (u32, u8) {
    match sym {
        0 => (0x1ff8, 13),
        1 => (0x7fffd8, 23),
        2 => (0xfffffe2, 28),
        3 => (0xfffffe3, 28),
        4 => (0xfffffe4, 28),
        5 => (0xfffffe5, 28),
        6 => (0xfffffe6, 28),
        7 => (0xfffffe7, 28),
        8 => (0xfffffe8, 28),
        9 => (0xffffea, 24),
        10 => (0x3ffffffc, 30),
        11 => (0xfffffe9, 28),
        12 => (0xfffffea, 28),
        13 => (0x3ffffffd, 30),
        14 => (0xfffffeb, 28),
        15 => (0xfffffec, 28),
        16 => (0xfffffed, 28),
        17 => (0xfffffee, 28),
        18 => (0xfffffef, 28),
        19 => (0xffffff0, 28),
        20 => (0xffffff1, 28),
        21 => (0xffffff2, 28),
        22 => (0x3ffffffe, 30),
        23 => (0xffffff3, 28),
        24 => (0xffffff4, 28),
        25 => (0xffffff5, 28),
        26 => (0xffffff6, 28),
        27 => (0xffffff7, 28),
        28 => (0xffffff8, 28),
        29 => (0xffffff9, 28),
        30 => (0xffffffa, 28),
        31 => (0xffffffb, 28),
        32 => (0x14, 6),
        33 => (0x3f8, 10),
        34 => (0x3f9, 10),
        35 => (0xffa, 12),
        36 => (0x1ff9, 13),
        37 => (0x15, 6),
        38 => (0xf8, 8),
        39 => (0x7fa, 11),
        40 => (0x3fa, 10),
        41 => (0x3fb, 10),
        42 => (0xf9, 8),
        43 => (0x7fb, 11),
        44 => (0xfa, 8),
        45 => (0x16, 6),
        46 => (0x17, 6),
        47 => (0x18, 6),
        48 => (0x0, 5),
        49 => (0x1, 5),
        50 => (0x2, 5),
        51 => (0x19, 6),
        52 => (0x1a, 6),
        53 => (0x1b, 6),
        54 => (0x1c, 6),
        55 => (0x1d, 6),
        56 => (0x1e, 6),
        57 => (0x1f, 6),
        58 => (0x5c, 7),
        59 => (0xfb, 8),
        60 => (0x7ffc, 15),
        61 => (0x20, 6),
        62 => (0xffb, 12),
        63 => (0x3fc, 10),
        64 => (0x1ffa, 13),
        65 => (0x21, 6),
        66 => (0x5d, 7),
        67 => (0x5e, 7),
        68 => (0x5f, 7),
        69 => (0x60, 7),
        70 => (0x61, 7),
        71 => (0x62, 7),
        72 => (0x63, 7),
        73 => (0x64, 7),
        74 => (0x65, 7),
        75 => (0x66, 7),
        76 => (0x67, 7),
        77 => (0x68, 7),
        78 => (0x69, 7),
        79 => (0x6a, 7),
        80 => (0x6b, 7),
        81 => (0x6c, 7),
        82 => (0x6d, 7),
        83 => (0x6e, 7),
        84 => (0x6f, 7),
        85 => (0x70, 7),
        86 => (0x71, 7),
        87 => (0x72, 7),
        88 => (0xfc, 8),
        89 => (0x73, 7),
        90 => (0xfd, 8),
        91 => (0x1ffb, 13),
        92 => (0x7fff0, 19),
        93 => (0x1ffc, 13),
        94 => (0x3ffc, 14),
        95 => (0x22, 6),
        96 => (0x7ffd, 15),
        97 => (0x3, 5),
        98 => (0x23, 6),
        99 => (0x4, 5),
        100 => (0x24, 6),
        101 => (0x5, 5),
        102 => (0x25, 6),
        103 => (0x26, 6),
        104 => (0x27, 6),
        105 => (0x6, 5),
        106 => (0x74, 7),
        107 => (0x75, 7),
        108 => (0x28, 6),
        109 => (0x29, 6),
        110 => (0x2a, 6),
        111 => (0x7, 5),
        112 => (0x2b, 6),
        113 => (0x76, 7),
        114 => (0x2c, 6),
        115 => (0x8, 5),
        116 => (0x9, 5),
        117 => (0x2d, 6),
        118 => (0x77, 7),
        119 => (0x78, 7),
        120 => (0x79, 7),
        121 => (0x7a, 7),
        122 => (0x7b, 7),
        123 => (0x7ffe, 15),
        124 => (0x7fc, 11),
        125 => (0x3ffd, 14),
        126 => (0x1ffd, 13),
        127 => (0xffffffc, 28),
        128 => (0xfffe6, 20),
        129 => (0x3fffd2, 22),
        130 => (0xfffe7, 20),
        131 => (0xfffe8, 20),
        132 => (0x3fffd3, 22),
        133 => (0x3fffd4, 22),
        134 => (0x3fffd5, 22),
        135 => (0x7fffd9, 23),
        136 => (0x3fffd6, 22),
        137 => (0x7fffda, 23),
        138 => (0x7fffdb, 23),
        139 => (0x7fffdc, 23),
        140 => (0x7fffdd, 23),
        141 => (0x7fffde, 23),
        142 => (0xffffeb, 24),
        143 => (0x7fffdf, 23),
        144 => (0xffffec, 24),
        145 => (0xffffed, 24),
        146 => (0x3fffd7, 22),
        147 => (0x7fffe0, 23),
        148 => (0xffffee, 24),
        149 => (0x7fffe1, 23),
        150 => (0x7fffe2, 23),
        151 => (0x7fffe3, 23),
        152 => (0x7fffe4, 23),
        153 => (0x1fffdc, 21),
        154 => (0x3fffd8, 22),
        155 => (0x7fffe5, 23),
        156 => (0x3fffd9, 22),
        157 => (0x7fffe6, 23),
        158 => (0x7fffe7, 23),
        159 => (0xffffef, 24),
        160 => (0x3fffda, 22),
        161 => (0x1fffdd, 21),
        162 => (0xfffe9, 20),
        163 => (0x3fffdb, 22),
        164 => (0x3fffdc, 22),
        165 => (0x7fffe8, 23),
        166 => (0x7fffe9, 23),
        167 => (0x1fffde, 21),
        168 => (0x7fffea, 23),
        169 => (0x3fffdd, 22),
        170 => (0x3fffde, 22),
        171 => (0xfffff0, 24),
        172 => (0x1fffdf, 21),
        173 => (0x3fffdf, 22),
        174 => (0x7fffeb, 23),
        175 => (0x7fffec, 23),
        176 => (0x1fffe0, 21),
        177 => (0x1fffe1, 21),
        178 => (0x3fffe0, 22),
        179 => (0x1fffe2, 21),
        180 => (0x7fffed, 23),
        181 => (0x3fffe1, 22),
        182 => (0x7fffee, 23),
        183 => (0x7fffef, 23),
        184 => (0xfffea, 20),
        185 => (0x3fffe2, 22),
        186 => (0x3fffe3, 22),
        187 => (0x3fffe4, 22),
        188 => (0x7ffff0, 23),
        189 => (0x3fffe5, 22),
        190 => (0x3fffe6, 22),
        191 => (0x7ffff1, 23),
        192 => (0x3ffffe0, 26),
        193 => (0x3ffffe1, 26),
        194 => (0xfffeb, 20),
        195 => (0x7fff1, 19),
        196 => (0x3fffe7, 22),
        197 => (0x7ffff2, 23),
        198 => (0x3fffe8, 22),
        199 => (0x1ffffec, 25),
        200 => (0x3ffffe2, 26),
        201 => (0x3ffffe3, 26),
        202 => (0x3ffffe4, 26),
        203 => (0x7ffffde, 27),
        204 => (0x7ffffdf, 27),
        205 => (0x3ffffe5, 26),
        206 => (0xfffff1, 24),
        207 => (0x1ffffed, 25),
        208 => (0x7fff2, 19),
        209 => (0x1fffe3, 21),
        210 => (0x3ffffe6, 26),
        211 => (0x7ffffe0, 27),
        212 => (0x7ffffe1, 27),
        213 => (0x3ffffe7, 26),
        214 => (0x7ffffe2, 27),
        215 => (0xfffff2, 24),
        216 => (0x1fffe4, 21),
        217 => (0x1fffe5, 21),
        218 => (0x3ffffe8, 26),
        219 => (0x3ffffe9, 26),
        220 => (0xffffffd, 28),
        221 => (0x7ffffe3, 27),
        222 => (0x7ffffe4, 27),
        223 => (0x7ffffe5, 27),
        224 => (0xfffec, 20),
        225 => (0xfffff3, 24),
        226 => (0xfffed, 20),
        227 => (0x1fffe6, 21),
        228 => (0x3fffe9, 22),
        229 => (0x1fffe7, 21),
        230 => (0x1fffe8, 21),
        231 => (0x7ffff3, 23),
        232 => (0x3fffea, 22),
        233 => (0x3fffeb, 22),
        234 => (0x1ffffee, 25),
        235 => (0x1ffffef, 25),
        236 => (0xfffff4, 24),
        237 => (0xfffff5, 24),
        238 => (0x3ffffea, 26),
        239 => (0x7ffff4, 23),
        240 => (0x3ffffeb, 26),
        241 => (0x7ffffe6, 27),
        242 => (0x3ffffec, 26),
        243 => (0x3ffffed, 26),
        244 => (0x7ffffe7, 27),
        245 => (0x7ffffe8, 27),
        246 => (0x7ffffe9, 27),
        247 => (0x7ffffea, 27),
        248 => (0x7ffffeb, 27),
        249 => (0xffffffe, 28),
        250 => (0x7ffffec, 27),
        251 => (0x7ffffed, 27),
        252 => (0x7ffffee, 27),
        253 => (0x7ffffef, 27),
        254 => (0x7fffff0, 27),
        255 => (0x3ffffee, 26),
        _ => (0x3fffffff, 30),
    }
}

/// The code of `sym` and its length in bits.
pub fn huffman_code(sym: u16) -> (r: (u32, u8))
    requires
        sym <= EOS,
    ensures
        r == code_entry(sym),
{
    match sym {
        0 => (0x1ff8, 13),
        1 => (0x7fffd8, 23),
        2 => (0xfffffe2, 28),
        3 => (0xfffffe3, 28),
        4 => (0xfffffe4, 28),
        5 => (0xfffffe5, 28),
        6 => (0xfffffe6, 28),
        7 => (0xfffffe7, 28),
        8 => (0xfffffe8, 28),
        9 => (0xffffea, 24),
        10 => (0x3ffffffc, 30),
        11 => (0xfffffe9, 28),
        12 => (0xfffffea, 28),
        13 => (0x3ffffffd, 30),
        14 => (0xfffffeb, 28),
        15 => (0xfffffec, 28),
        16 => (0xfffffed, 28),
        17 => (0xfffffee, 28),
        18 => (0xfffffef, 28),
        19 => (0xffffff0, 28),
        20 => (0xffffff1, 28),
        21 => (0xffffff2, 28),
        22 => (0x3ffffffe, 30),
        23 => (0xffffff3, 28),
        24 => (0xffffff4, 28),
        25 => (0xffffff5, 28),
        26 => (0xffffff6, 28),
        27 => (0xffffff7, 28),
        28 => (0xffffff8, 28),
        29 => (0xffffff9, 28),
        30 => (0xffffffa, 28),
        31 => (0xffffffb, 28),
        32 => (0x14, 6),
        33 => (0x3f8, 10),
        34 => (0x3f9, 10),
        35 => (0xffa, 12),
        36 => (0x1ff9, 13),
        37 => (0x15, 6),
        38 => (0xf8, 8),
        39 => (0x7fa, 11),
        40 => (0x3fa, 10),
        41 => (0x3fb, 10),
        42 => (0xf9, 8),
        43 => (0x7fb, 11),
        44 => (0xfa, 8),
        45 => (0x16, 6),
        46 => (0x17, 6),
        47 => (0x18, 6),
        48 => (0x0, 5),
        49 => (0x1, 5),
        50 => (0x2, 5),
        51 => (0x19, 6),
        52 => (0x1a, 6),
        53 => (0x1b, 6),
        54 => (0x1c, 6),
        55 => (0x1d, 6),
        56 => (0x1e, 6),
        57 => (0x1f, 6),
        58 => (0x5c, 7),
        59 => (0xfb, 8),
        60 => (0x7ffc, 15),
        61 => (0x20, 6),
        62 => (0xffb, 12),
        63 => (0x3fc, 10),
        64 => (0x1ffa, 13),
        65 => (0x21, 6),
        66 => (0x5d, 7),
        67 => (0x5e, 7),
        68 => (0x5f, 7),
        69 => (0x60, 7),
        70 => (0x61, 7),
        71 => (0x62, 7),
        72 => (0x63, 7),
        73 => (0x64, 7),
        74 => (0x65, 7),
        75 => (0x66, 7),
        76 => (0x67, 7),
        77 => (0x68, 7),
        78 => (0x69, 7),
        79 => (0x6a, 7),
        80 => (0x6b, 7),
        81 => (0x6c, 7),
        82 => (0x6d, 7),
        83 => (0x6e, 7),
        84 => (0x6f, 7),
        85 => (0x70, 7),
        86 => (0x71, 7),
        87 => (0x72, 7),
        88 => (0xfc, 8),
        89 => (0x73, 7),
        90 => (0xfd, 8),
        91 => (0x1ffb, 13),
        92 => (0x7fff0, 19),
        93 => (0x1ffc, 13),
        94 => (0x3ffc, 14),
        95 => (0x22, 6),
        96 => (0x7ffd, 15),
        97 => (0x3, 5),
        98 => (0x23, 6),
        99 => (0x4, 5),
        100 => (0x24, 6),
        101 => (0x5, 5),
        102 => (0x25, 6),
        103 => (0x26, 6),
        104 => (0x27, 6),
        105 => (0x6, 5),
        106 => (0x74, 7),
        107 => (0x75, 7),
        108 => (0x28, 6),
        109 => (0x29, 6),
        110 => (0x2a, 6),
        111 => (0x7, 5),
        112 => (0x2b, 6),
        113 => (0x76, 7),
        114 => (0x2c, 6),
        115 => (0x8, 5),
        116 => (0x9, 5),
        117 => (0x2d, 6),
        118 => (0x77, 7),
        119 => (0x78, 7),
        120 => (0x79, 7),
        121 => (0x7a, 7),
        122 => (0x7b, 7),
        123 => (0x7ffe, 15),
        124 => (0x7fc, 11),
        125 => (0x3ffd, 14),
        126 => (0x1ffd, 13),
        127 => (0xffffffc, 28),
        128 => (0xfffe6, 20),
        129 => (0x3fffd2, 22),
        130 => (0xfffe7, 20),
        131 => (0xfffe8, 20),
        132 => (0x3fffd3, 22),
        133 => (0x3fffd4, 22),
        134 => (0x3fffd5, 22),
        135 => (0x7fffd9, 23),
        136 => (0x3fffd6, 22),
        137 => (0x7fffda, 23),
        138 => (0x7fffdb, 23),
        139 => (0x7fffdc, 23),
        140 => (0x7fffdd, 23),
        141 => (0x7fffde, 23),
        142 => (0xffffeb, 24),
        143 => (0x7fffdf, 23),
        144 => (0xffffec, 24),
        145 => (0xffffed, 24),
        146 => (0x3fffd7, 22),
        147 => (0x7fffe0, 23),
        148 => (0xffffee, 24),
        149 => (0x7fffe1, 23),
        150 => (0x7fffe2, 23),
        151 => (0x7fffe3, 23),
        152 => (0x7fffe4, 23),
        153 => (0x1fffdc, 21),
        154 => (0x3fffd8, 22),
        155 => (0x7fffe5, 23),
        156 => (0x3fffd9, 22),
        157 => (0x7fffe6, 23),
        158 => (0x7fffe7, 23),
        159 => (0xffffef, 24),
        160 => (0x3fffda, 22),
        161 => (0x1fffdd, 21),
        162 => (0xfffe9, 20),
        163 => (0x3fffdb, 22),
        164 => (0x3fffdc, 22),
        165 => (0x7fffe8, 23),
        166 => (0x7fffe9, 23),
        167 => (0x1fffde, 21),
        168 => (0x7fffea, 23),
        169 => (0x3fffdd, 22),
        170 => (0x3fffde, 22),
        171 => (0xfffff0, 24),
        172 => (0x1fffdf, 21),
        173 => (0x3fffdf, 22),
        174 => (0x7fffeb, 23),
        175 => (0x7fffec, 23),
        176 => (0x1fffe0, 21),
        177 => (0x1fffe1, 21),
        178 => (0x3fffe0, 22),
        179 => (0x1fffe2, 21),
        180 => (0x7fffed, 23),
        181 => (0x3fffe1, 22),
        182 => (0x7fffee, 23),
        183 => (0x7fffef, 23),
        184 => (0xfffea, 20),
        185 => (0x3fffe2, 22),
        186 => (0x3fffe3, 22),
        187 => (0x3fffe4, 22),
        188 => (0x7ffff0, 23),
        189 => (0x3fffe5, 22),
        190 => (0x3fffe6, 22),
        191 => (0x7ffff1, 23),
        192 => (0x3ffffe0, 26),
        193 => (0x3ffffe1, 26),
        194 => (0xfffeb, 20),
        195 => (0x7fff1, 19),
        196 => (0x3fffe7, 22),
        197 => (0x7ffff2, 23),
        198 => (0x3fffe8, 22),
        199 => (0x1ffffec, 25),
        200 => (0x3ffffe2, 26),
        201 => (0x3ffffe3, 26),
        202 => (0x3ffffe4, 26),
        203 => (0x7ffffde, 27),
        204 => (0x7ffffdf, 27),
        205 => (0x3ffffe5, 26),
        206 => (0xfffff1, 24),
        207 => (0x1ffffed, 25),
        208 => (0x7fff2, 19),
        209 => (0x1fffe3, 21),
        210 => (0x3ffffe6, 26),
        211 => (0x7ffffe0, 27),
        212 => (0x7ffffe1, 27),
        213 => (0x3ffffe7, 26),
        214 => (0x7ffffe2, 27),
        215 => (0xfffff2, 24),
        216 => (0x1fffe4, 21),
        217 => (0x1fffe5, 21),
        218 => (0x3ffffe8, 26),
        219 => (0x3ffffe9, 26),
        220 => (0xffffffd, 28),
        221 => (0x7ffffe3, 27),
        222 => (0x7ffffe4, 27),
        223 => (0x7ffffe5, 27),
        224 => (0xfffec, 20),
        225 => (0xfffff3, 24),
        226 => (0xfffed, 20),
        227 => (0x1fffe6, 21),
        228 => (0x3fffe9, 22),
        229 => (0x1fffe7, 21),
        230 => (0x1fffe8, 21),
        231 => (0x7ffff3, 23),
        232 => (0x3fffea, 22),
        233 => (0x3fffeb, 22),
        234 => (0x1ffffee, 25),
        235 => (0x1ffffef, 25),
        236 => (0xfffff4, 24),
        237 => (0xfffff5, 24),
        238 => (0x3ffffea, 26),
        239 => (0x7ffff4, 23),
        240 => (0x3ffffeb, 26),
        241 => (0x7ffffe6, 27),
        242 => (0x3ffffec, 26),
        243 => (0x3ffffed, 26),
        244 => (0x7ffffe7, 27),
        245 => (0x7ffffe8, 27),
        246 => (0x7ffffe9, 27),
        247 => (0x7ffffea, 27),
        248 => (0x7ffffeb, 27),
        249 => (0xffffffe, 28),
        250 => (0x7ffffec, 27),
        251 => (0x7ffffed, 27),
        252 => (0x7ffffee, 27),
        253 => (0x7ffffef, 27),
        254 => (0x7fffff0, 27),
        255 => (0x3ffffee, 26),
        _ => (0x3fffffff, 30),
    }
}

/// The code is canonical: the codes of length `len` are the integers
/// from `2 * code_limit(len - 1)` up to, not including, `code_limit(len)`.
pub open spec fn code_limit(len: u8) -> u32 {
    match len {
        0 => 0x0,
        1 => 0x0,
        2 => 0x0,
        3 => 0x0,
        4 => 0x0,
        5 => 0xa,
        6 => 0x2e,
        7 => 0x7c,
        8 => 0xfe,
        9 => 0x1fc,
        10 => 0x3fd,
        11 => 0x7fd,
        12 => 0xffc,
        13 => 0x1ffe,
        14 => 0x3ffe,
        15 => 0x7fff,
        16 => 0xfffe,
        17 => 0x1fffc,
        18 => 0x3fff8,
        19 => 0x7fff3,
        20 => 0xfffee,
        21 => 0x1fffe9,
        22 => 0x3fffec,
        23 => 0x7ffff5,
        24 => 0xfffff6,
        25 => 0x1fffff0,
        26 => 0x3ffffef,
        27 => 0x7fffff1,
        28 => 0xfffffff,
        29 => 0x1ffffffe,
        30 => 0x40000000,
        _ => 0x40000000,
    }
}

/// How many symbols have a code shorter than `len` bits.
pub open spec fn code_offset(len: u8) -> u16 {
    match len {
        0 => 0,
        1 => 0,
        2 => 0,
        3 => 0,
        4 => 0,
        5 => 0,
        6 => 10,
        7 => 36,
        8 => 68,
        9 => 74,
        10 => 74,
        11 => 79,
        12 => 82,
        13 => 84,
        14 => 90,
        15 => 92,
        16 => 95,
        17 => 95,
        18 => 95,
        19 => 95,
        20 => 98,
        21 => 106,
        22 => 119,
        23 => 145,
        24 => 174,
        25 => 186,
        26 => 190,
        27 => 205,
        28 => 224,
        29 => 253,
        30 => 253,
        _ => 257,
    }
}

/// The symbols in canonical order: by code length, then by value.
pub open spec fn canonical_symbol(rank: u16) -> u16 {
    match rank {
        0 => 48,
        1 => 49,
        2 => 50,
        3 => 97,
        4 => 99,
        5 => 101,
        6 => 105,
        7 => 111,
        8 => 115,
        9 => 116,
        10 => 32,
        11 => 37,
        12 => 45,
        13 => 46,
        14 => 47,
        15 => 51,
        16 => 52,
        17 => 53,
        18 => 54,
        19 => 55,
        20 => 56,
        21 => 57,
        22 => 61,
        23 => 65,
        24 => 95,
        25 => 98,
        26 => 100,
        27 => 102,
        28 => 103,
        29 => 104,
        30 => 108,
        31 => 109,
        32 => 110,
        33 => 112,
        34 => 114,
        35 => 117,
        36 => 58,
        37 => 66,
        38 => 67,
        39 => 68,
        40 => 69,
        41 => 70,
        42 => 71,
        43 => 72,
        44 => 73,
        45 => 74,
        46 => 75,
        47 => 76,
        48 => 77,
        49 => 78,
        50 => 79,
        51 => 80,
        52 => 81,
        53 => 82,
        54 => 83,
        55 => 84,
        56 => 85,
        57 => 86,
        58 => 87,
        59 => 89,
        60 => 106,
        61 => 107,
        62 => 113,
        63 => 118,
        64 => 119,
        65 => 120,
        66 => 121,
        67 => 122,
        68 => 38,
        69 => 42,
        70 => 44,
        71 => 59,
        72 => 88,
        73 => 90,
        74 => 33,
        75 => 34,
        76 => 40,
        77 => 41,
        78 => 63,
        79 => 39,
        80 => 43,
        81 => 124,
        82 => 35,
        83 => 62,
        84 => 0,
        85 => 36,
        86 => 64,
        87 => 91,
        88 => 93,
        89 => 126,
        90 => 94,
        91 => 125,
        92 => 60,
        93 => 96,
        94 => 123,
        95 => 92,
        96 => 195,
        97 => 208,
        98 => 128,
        99 => 130,
        100 => 131,
        101 => 162,
        102 => 184,
        103 => 194,
        104 => 224,
        105 => 226,
        106 => 153,
        107 => 161,
        108 => 167,
        109 => 172,
        110 => 176,
        111 => 177,
        112 => 179,
        113 => 209,
        114 => 216,
        115 => 217,
        116 => 227,
        117 => 229,
        118 => 230,
        119 => 129,
        120 => 132,
        121 => 133,
        122 => 134,
        123 => 136,
        124 => 146,
        125 => 154,
        126 => 156,
        127 => 160,
        128 => 163,
        129 => 164,
        130 => 169,
        131 => 170,
        132 => 173,
        133 => 178,
        134 => 181,
        135 => 185,
        136 => 186,
        137 => 187,
        138 => 189,
        139 => 190,
        140 => 196,
        141 => 198,
        142 => 228,
        143 => 232,
        144 => 233,
        145 => 1,
        146 => 135,
        147 => 137,
        148 => 138,
        149 => 139,
        150 => 140,
        151 => 141,
        152 => 143,
        153 => 147,
        154 => 149,
        155 => 150,
        156 => 151,
        157 => 152,
        158 => 155,
        159 => 157,
        160 => 158,
        161 => 165,
        162 => 166,
        163 => 168,
        164 => 174,
        165 => 175,
        166 => 180,
        167 => 182,
        168 => 183,
        169 => 188,
        170 => 191,
        171 => 197,
        172 => 231,
        173 => 239,
        174 => 9,
        175 => 142,
        176 => 144,
        177 => 145,
        178 => 148,
        179 => 159,
        180 => 171,
        181 => 206,
        182 => 215,
        183 => 225,
        184 => 236,
        185 => 237,
        186 => 199,
        187 => 207,
        188 => 234,
        189 => 235,
        190 => 192,
        191 => 193,
        192 => 200,
        193 => 201,
        194 => 202,
        195 => 205,
        196 => 210,
        197 => 213,
        198 => 218,
        199 => 219,
        200 => 238,
        201 => 240,
        202 => 242,
        203 => 243,
        204 => 255,
        205 => 203,
        206 => 204,
        207 => 211,
        208 => 212,
        209 => 214,
        210 => 221,
        211 => 222,
        212 => 223,
        213 => 241,
        214 => 244,
        215 => 245,
        216 => 246,
        217 => 247,
        218 => 248,
        219 => 250,
        220 => 251,
        221 => 252,
        222 => 253,
        223 => 254,
        224 => 2,
        225 => 3,
        226 => 4,
        227 => 5,
        228 => 6,
        229 => 7,
        230 => 8,
        231 => 11,
        232 => 12,
        233 => 14,
        234 => 15,
        235 => 16,
        236 => 17,
        237 => 18,
        238 => 19,
        239 => 20,
        240 => 21,
        241 => 23,
        242 => 24,
        243 => 25,
        244 => 26,
        245 => 27,
        246 => 28,
        247 => 29,
        248 => 30,
        249 => 31,
        250 => 127,
        251 => 220,
        252 => 249,
        253 => 10,
        254 => 13,
        255 => 22,
        _ => 256,
    }
}

pub fn limit_of(len: u8) -> (r: u32)
    ensures
        r == code_limit(len),
{
    match len {
        0 => 0x0,
        1 => 0x0,
        2 => 0x0,
        3 => 0x0,
        4 => 0x0,
        5 => 0xa,
        6 => 0x2e,
        7 => 0x7c,
        8 => 0xfe,
        9 => 0x1fc,
        10 => 0x3fd,
        11 => 0x7fd,
        12 => 0xffc,
        13 => 0x1ffe,
        14 => 0x3ffe,
        15 => 0x7fff,
        16 => 0xfffe,
        17 => 0x1fffc,
        18 => 0x3fff8,
        19 => 0x7fff3,
        20 => 0xfffee,
        21 => 0x1fffe9,
        22 => 0x3fffec,
        23 => 0x7ffff5,
        24 => 0xfffff6,
        25 => 0x1fffff0,
        26 => 0x3ffffef,
        27 => 0x7fffff1,
        28 => 0xfffffff,
        29 => 0x1ffffffe,
        30 => 0x40000000,
        _ => 0x40000000,
    }
}

pub fn offset_of(len: u8) -> (r: u16)
    ensures
        r == code_offset(len),
{
    match len {
        0 => 0,
        1 => 0,
        2 => 0,
        3 => 0,
        4 => 0,
        5 => 0,
        6 => 10,
        7 => 36,
        8 => 68,
        9 => 74,
        10 => 74,
        11 => 79,
        12 => 82,
        13 => 84,
        14 => 90,
        15 => 92,
        16 => 95,
        17 => 95,
        18 => 95,
        19 => 95,
        20 => 98,
        21 => 106,
        22 => 119,
        23 => 145,
        24 => 174,
        25 => 186,
        26 => 190,
        27 => 205,
        28 => 224,
        29 => 253,
        30 => 253,
        _ => 257,
    }
}

pub fn symbol_at_rank(rank: u16) -> (r: u16)
    ensures
        r == canonical_symbol(rank),
{
    match rank {
        0 => 48,
        1 => 49,
        2 => 50,
        3 => 97,
        4 => 99,
        5 => 101,
        6 => 105,
        7 => 111,
        8 => 115,
        9 => 116,
        10 => 32,
        11 => 37,
        12 => 45,
        13 => 46,
        14 => 47,
        15 => 51,
        16 => 52,
        17 => 53,
        18 => 54,
        19 => 55,
        20 => 56,
        21 => 57,
        22 => 61,
        23 => 65,
        24 => 95,
        25 => 98,
        26 => 100,
        27 => 102,
        28 => 103,
        29 => 104,
        30 => 108,
        31 => 109,
        32 => 110,
        33 => 112,
        34 => 114,
        35 => 117,
        36 => 58,
        37 => 66,
        38 => 67,
        39 => 68,
        40 => 69,
        41 => 70,
        42 => 71,
        43 => 72,
        44 => 73,
        45 => 74,
        46 => 75,
        47 => 76,
        48 => 77,
        49 => 78,
        50 => 79,
        51 => 80,
        52 => 81,
        53 => 82,
        54 => 83,
        55 => 84,
        56 => 85,
        57 => 86,
        58 => 87,
        59 => 89,
        60 => 106,
        61 => 107,
        62 => 113,
        63 => 118,
        64 => 119,
        65 => 120,
        66 => 121,
        67 => 122,
        68 => 38,
        69 => 42,
        70 => 44,
        71 => 59,
        72 => 88,
        73 => 90,
        74 => 33,
        75 => 34,
        76 => 40,
        77 => 41,
        78 => 63,
        79 => 39,
        80 => 43,
        81 => 124,
        82 => 35,
        83 => 62,
        84 => 0,
        85 => 36,
        86 => 64,
        87 => 91,
        88 => 93,
        89 => 126,
        90 => 94,
        91 => 125,
        92 => 60,
        93 => 96,
        94 => 123,
        95 => 92,
        96 => 195,
        97 => 208,
        98 => 128,
        99 => 130,
        100 => 131,
        101 => 162,
        102 => 184,
        103 => 194,
        104 => 224,
        105 => 226,
        106 => 153,
        107 => 161,
        108 => 167,
        109 => 172,
        110 => 176,
        111 => 177,
        112 => 179,
        113 => 209,
        114 => 216,
        115 => 217,
        116 => 227,
        117 => 229,
        118 => 230,
        119 => 129,
        120 => 132,
        121 => 133,
        122 => 134,
        123 => 136,
        124 => 146,
        125 => 154,
        126 => 156,
        127 => 160,
        128 => 163,
        129 => 164,
        130 => 169,
        131 => 170,
        132 => 173,
        133 => 178,
        134 => 181,
        135 => 185,
        136 => 186,
        137 => 187,
        138 => 189,
        139 => 190,
        140 => 196,
        141 => 198,
        142 => 228,
        143 => 232,
        144 => 233,
        145 => 1,
        146 => 135,
        147 => 137,
        148 => 138,
        149 => 139,
        150 => 140,
        151 => 141,
        152 => 143,
        153 => 147,
        154 => 149,
        155 => 150,
        156 => 151,
        157 => 152,
        158 => 155,
        159 => 157,
        160 => 158,
        161 => 165,
        162 => 166,
        163 => 168,
        164 => 174,
        165 => 175,
        166 => 180,
        167 => 182,
        168 => 183,
        169 => 188,
        170 => 191,
        171 => 197,
        172 => 231,
        173 => 239,
        174 => 9,
        175 => 142,
        176 => 144,
        177 => 145,
        178 => 148,
        179 => 159,
        180 => 171,
        181 => 206,
        182 => 215,
        183 => 225,
        184 => 236,
        185 => 237,
        186 => 199,
        187 => 207,
        188 => 234,
        189 => 235,
        190 => 192,
        191 => 193,
        192 => 200,
        193 => 201,
        194 => 202,
        195 => 205,
        196 => 210,
        197 => 213,
        198 => 218,
        199 => 219,
        200 => 238,
        201 => 240,
        202 => 242,
        203 => 243,
        204 => 255,
        205 => 203,
        206 => 204,
        207 => 211,
        208 => 212,
        209 => 214,
        210 => 221,
        211 => 222,
        212 => 223,
        213 => 241,
        214 => 244,
        215 => 245,
        216 => 246,
        217 => 247,
        218 => 248,
        219 => 250,
        220 => 251,
        221 => 252,
        222 => 253,
        223 => 254,
        224 => 2,
        225 => 3,
        226 => 4,
        227 => 5,
        228 => 6,
        229 => 7,
        230 => 8,
        231 => 11,
        232 => 12,
        233 => 14,
        234 => 15,
        235 => 16,
        236 => 17,
        237 => 18,
        238 => 19,
        239 => 20,
        240 => 21,
        241 => 23,
        242 => 24,
        243 => 25,
        244 => 26,
        245 => 27,
        246 => 28,
        247 => 29,
        248 => 30,
        249 => 31,
        250 => 127,
        251 => 220,
        252 => 249,
        253 => 10,
        254 => 13,
        255 => 22,
        _ => 256,
    }
}

/// Where the code of `sym` stands in canonical order.
pub open spec fn code_rank(sym: u16) -> int {
    let (code, len) = code_entry(sym);
    code_offset(len) + code - 2 * code_limit((len - 1) as u8)
}

/// What the table gives each symbol: a length from 5 to 30 bits, a code in
/// the canonical range of that length, and a canonical rank that leads back
/// to the symbol.
pub open spec fn symbol_facts(sym: u16) -> bool {
    let (code, len) = code_entry(sym);
    &&& 5 <= len <= 30
    &&& 2 * code_limit((len - 1) as u8) <= code < code_limit(len)
    &&& code_rank(sym) <= u16::MAX
    &&& canonical_symbol(code_rank(sym) as u16) == sym
}

/// What the canonical order gives each rank: a symbol whose length `len`
/// has the rank among its own, and whose code is found from the rank.
pub open spec fn rank_facts(rank: u16) -> bool {
    let sym = canonical_symbol(rank);
    let (code, len) = code_entry(sym);
    &&& sym <= EOS
    &&& code_offset(len) <= rank < code_offset((len + 1) as u8)
    &&& code == 2 * code_limit((len - 1) as u8) + rank - code_offset(len)
}

/// What holds of each length: codes of the next length start at twice the
/// limit, and the canonical ranges count the symbols of each length.
pub open spec fn length_facts(len: u8) -> bool {
    &&& code_limit(len) <= 0x40000000
    &&& code_limit(len) <= pow2(len as nat)
    &&& (len < 30 ==> 2 * code_limit(len) <= code_limit((len + 1) as u8))
    &&& (1 <= len <= 30 ==> code_limit(len) - 2 * code_limit((len - 1) as u8) == code_offset(
        (len + 1) as u8,
    ) - code_offset(len))
    &&& (len <= 30 ==> code_offset(len) <= code_offset((len + 1) as u8))
    &&& (len <= 5 ==> code_offset(len) == 0)
    &&& (1 <= len <= 7 ==> code_limit(len) + 1 < pow2(len as nat))
}

pub proof fn lemma_symbol_facts(sym: u16)
    requires
        sym <= EOS,
    ensures
        symbol_facts(sym),
{
    match sym {
        0 => {},
        1 => {},
        2 => {},
        3 => {},
        4 => {},
        5 => {},
        6 => {},
        7 => {},
        8 => {},
        9 => {},
        10 => {},
        11 => {},
        12 => {},
        13 => {},
        14 => {},
        15 => {},
        16 => {},
        17 => {},
        18 => {},
        19 => {},
        20 => {},
        21 => {},
        22 => {},
        23 => {},
        24 => {},
        25 => {},
        26 => {},
        27 => {},
        28 => {},
        29 => {},
        30 => {},
        31 => {},
        32 => {},
        33 => {},
        34 => {},
        35 => {},
        36 => {},
        37 => {},
        38 => {},
        39 => {},
        40 => {},
        41 => {},
        42 => {},
        43 => {},
        44 => {},
        45 => {},
        46 => {},
        47 => {},
        48 => {},
        49 => {},
        50 => {},
        51 => {},
        52 => {},
        53 => {},
        54 => {},
        55 => {},
        56 => {},
        57 => {},
        58 => {},
        59 => {},
        60 => {},
        61 => {},
        62 => {},
        63 => {},
        64 => {},
        65 => {},
        66 => {},
        67 => {},
        68 => {},
        69 => {},
        70 => {},
        71 => {},
        72 => {},
        73 => {},
        74 => {},
        75 => {},
        76 => {},
        77 => {},
        78 => {},
        79 => {},
        80 => {},
        81 => {},
        82 => {},
        83 => {},
        84 => {},
        85 => {},
        86 => {},
        87 => {},
        88 => {},
        89 => {},
        90 => {},
        91 => {},
        92 => {},
        93 => {},
        94 => {},
        95 => {},
        96 => {},
        97 => {},
        98 => {},
        99 => {},
        100 => {},
        101 => {},
        102 => {},
        103 => {},
        104 => {},
        105 => {},
        106 => {},
        107 => {},
        108 => {},
        109 => {},
        110 => {},
        111 => {},
        112 => {},
        113 => {},
        114 => {},
        115 => {},
        116 => {},
        117 => {},
        118 => {},
        119 => {},
        120 => {},
        121 => {},
        122 => {},
        123 => {},
        124 => {},
        125 => {},
        126 => {},
        127 => {},
        128 => {},
        129 => {},
        130 => {},
        131 => {},
        132 => {},
        133 => {},
        134 => {},
        135 => {},
        136 => {},
        137 => {},
        138 => {},
        139 => {},
        140 => {},
        141 => {},
        142 => {},
        143 => {},
        144 => {},
        145 => {},
        146 => {},
        147 => {},
        148 => {},
        149 => {},
        150 => {},
        151 => {},
        152 => {},
        153 => {},
        154 => {},
        155 => {},
        156 => {},
        157 => {},
        158 => {},
        159 => {},
        160 => {},
        161 => {},
        162 => {},
        163 => {},
        164 => {},
        165 => {},
        166 => {},
        167 => {},
        168 => {},
        169 => {},
        170 => {},
        171 => {},
        172 => {},
        173 => {},
        174 => {},
        175 => {},
        176 => {},
        177 => {},
        178 => {},
        179 => {},
        180 => {},
        181 => {},
        182 => {},
        183 => {},
        184 => {},
        185 => {},
        186 => {},
        187 => {},
        188 => {},
        189 => {},
        190 => {},
        191 => {},
        192 => {},
        193 => {},
        194 => {},
        195 => {},
        196 => {},
        197 => {},
        198 => {},
        199 => {},
        200 => {},
        201 => {},
        202 => {},
        203 => {},
        204 => {},
        205 => {},
        206 => {},
        207 => {},
        208 => {},
        209 => {},
        210 => {},
        211 => {},
        212 => {},
        213 => {},
        214 => {},
        215 => {},
        216 => {},
        217 => {},
        218 => {},
        219 => {},
        220 => {},
        221 => {},
        222 => {},
        223 => {},
        224 => {},
        225 => {},
        226 => {},
        227 => {},
        228 => {},
        229 => {},
        230 => {},
        231 => {},
        232 => {},
        233 => {},
        234 => {},
        235 => {},
        236 => {},
        237 => {},
        238 => {},
        239 => {},
        240 => {},
        241 => {},
        242 => {},
        243 => {},
        244 => {},
        245 => {},
        246 => {},
        247 => {},
        248 => {},
        249 => {},
        250 => {},
        251 => {},
        252 => {},
        253 => {},
        254 => {},
        255 => {},
        _ => {},
    }
}

pub proof fn lemma_rank_facts(rank: u16)
    requires
        rank < 257,
    ensures
        rank_facts(rank),
{
    match rank {
        0 => {},
        1 => {},
        2 => {},
        3 => {},
        4 => {},
        5 => {},
        6 => {},
        7 => {},
        8 => {},
        9 => {},
        10 => {},
        11 => {},
        12 => {},
        13 => {},
        14 => {},
        15 => {},
        16 => {},
        17 => {},
        18 => {},
        19 => {},
        20 => {},
        21 => {},
        22 => {},
        23 => {},
        24 => {},
        25 => {},
        26 => {},
        27 => {},
        28 => {},
        29 => {},
        30 => {},
        31 => {},
        32 => {},
        33 => {},
        34 => {},
        35 => {},
        36 => {},
        37 => {},
        38 => {},
        39 => {},
        40 => {},
        41 => {},
        42 => {},
        43 => {},
        44 => {},
        45 => {},
        46 => {},
        47 => {},
        48 => {},
        49 => {},
        50 => {},
        51 => {},
        52 => {},
        53 => {},
        54 => {},
        55 => {},
        56 => {},
        57 => {},
        58 => {},
        59 => {},
        60 => {},
        61 => {},
        62 => {},
        63 => {},
        64 => {},
        65 => {},
        66 => {},
        67 => {},
        68 => {},
        69 => {},
        70 => {},
        71 => {},
        72 => {},
        73 => {},
        74 => {},
        75 => {},
        76 => {},
        77 => {},
        78 => {},
        79 => {},
        80 => {},
        81 => {},
        82 => {},
        83 => {},
        84 => {},
        85 => {},
        86 => {},
        87 => {},
        88 => {},
        89 => {},
        90 => {},
        91 => {},
        92 => {},
        93 => {},
        94 => {},
        95 => {},
        96 => {},
        97 => {},
        98 => {},
        99 => {},
        100 => {},
        101 => {},
        102 => {},
        103 => {},
        104 => {},
        105 => {},
        106 => {},
        107 => {},
        108 => {},
        109 => {},
        110 => {},
        111 => {},
        112 => {},
        113 => {},
        114 => {},
        115 => {},
        116 => {},
        117 => {},
        118 => {},
        119 => {},
        120 => {},
        121 => {},
        122 => {},
        123 => {},
        124 => {},
        125 => {},
        126 => {},
        127 => {},
        128 => {},
        129 => {},
        130 => {},
        131 => {},
        132 => {},
        133 => {},
        134 => {},
        135 => {},
        136 => {},
        137 => {},
        138 => {},
        139 => {},
        140 => {},
        141 => {},
        142 => {},
        143 => {},
        144 => {},
        145 => {},
        146 => {},
        147 => {},
        148 => {},
        149 => {},
        150 => {},
        151 => {},
        152 => {},
        153 => {},
        154 => {},
        155 => {},
        156 => {},
        157 => {},
        158 => {},
        159 => {},
        160 => {},
        161 => {},
        162 => {},
        163 => {},
        164 => {},
        165 => {},
        166 => {},
        167 => {},
        168 => {},
        169 => {},
        170 => {},
        171 => {},
        172 => {},
        173 => {},
        174 => {},
        175 => {},
        176 => {},
        177 => {},
        178 => {},
        179 => {},
        180 => {},
        181 => {},
        182 => {},
        183 => {},
        184 => {},
        185 => {},
        186 => {},
        187 => {},
        188 => {},
        189 => {},
        190 => {},
        191 => {},
        192 => {},
        193 => {},
        194 => {},
        195 => {},
        196 => {},
        197 => {},
        198 => {},
        199 => {},
        200 => {},
        201 => {},
        202 => {},
        203 => {},
        204 => {},
        205 => {},
        206 => {},
        207 => {},
        208 => {},
        209 => {},
        210 => {},
        211 => {},
        212 => {},
        213 => {},
        214 => {},
        215 => {},
        216 => {},
        217 => {},
        218 => {},
        219 => {},
        220 => {},
        221 => {},
        222 => {},
        223 => {},
        224 => {},
        225 => {},
        226 => {},
        227 => {},
        228 => {},
        229 => {},
        230 => {},
        231 => {},
        232 => {},
        233 => {},
        234 => {},
        235 => {},
        236 => {},
        237 => {},
        238 => {},
        239 => {},
        240 => {},
        241 => {},
        242 => {},
        243 => {},
        244 => {},
        245 => {},
        246 => {},
        247 => {},
        248 => {},
        249 => {},
        250 => {},
        251 => {},
        252 => {},
        253 => {},
        254 => {},
        255 => {},
        _ => {},
    }
}

pub proof fn lemma_length_facts(len: u8)
    requires
        len <= 30,
    ensures
        length_facts(len),
{
    match len {
        0 => {},
        1 => {},
        2 => {},
        3 => {},
        4 => {},
        5 => {},
        6 => {},
        7 => {},
        8 => {},
        9 => {},
        10 => {},
        11 => {},
        12 => {},
        13 => {},
        14 => {},
        15 => {},
        16 => {},
        17 => {},
        18 => {},
        19 => {},
        20 => {},
        21 => {},
        22 => {},
        23 => {},
        24 => {},
        25 => {},
        26 => {},
        27 => {},
        28 => {},
        29 => {},
        _ => {},
    }
    lemma2_to64();
    assert(code_offset(31) == 257);
}

} // verus!
