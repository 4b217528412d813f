use vstd::prelude::*;

verus! {

/// Antilogarithms: `EXP[i]` is the generator `0x03` raised to the power `i` in
/// the field GF(256) built on the polynomial `x^8 + x^4 + x^3 + x + 1`.
/// The multiplicative group has 255 elements, so exponents are taken modulo 255.
pub const EXP: [u8; 255] = [
    0x01, 0x03, 0x05, 0x0f, 0x11, 0x33, 0x55, 0xff, 0x1a, 0x2e, 0x72, 0x96, 0xa1, 0xf8, 0x13, 0x35,
    0x5f, 0xe1, 0x38, 0x48, 0xd8, 0x73, 0x95, 0xa4, 0xf7, 0x02, 0x06, 0x0a, 0x1e, 0x22, 0x66, 0xaa,
    0xe5, 0x34, 0x5c, 0xe4, 0x37, 0x59, 0xeb, 0x26, 0x6a, 0xbe, 0xd9, 0x70, 0x90, 0xab, 0xe6, 0x31,
    0x53, 0xf5, 0x04, 0x0c, 0x14, 0x3c, 0x44, 0xcc, 0x4f, 0xd1, 0x68, 0xb8, 0xd3, 0x6e, 0xb2, 0xcd,
    0x4c, 0xd4, 0x67, 0xa9, 0xe0, 0x3b, 0x4d, 0xd7, 0x62, 0xa6, 0xf1, 0x08, 0x18, 0x28, 0x78, 0x88,
    0x83, 0x9e, 0xb9, 0xd0, 0x6b, 0xbd, 0xdc, 0x7f, 0x81, 0x98, 0xb3, 0xce, 0x49, 0xdb, 0x76, 0x9a,
    0xb5, 0xc4, 0x57, 0xf9, 0x10, 0x30, 0x50, 0xf0, 0x0b, 0x1d, 0x27, 0x69, 0xbb, 0xd6, 0x61, 0xa3,
    0xfe, 0x19, 0x2b, 0x7d, 0x87, 0x92, 0xad, 0xec, 0x2f, 0x71, 0x93, 0xae, 0xe9, 0x20, 0x60, 0xa0,
    0xfb, 0x16, 0x3a, 0x4e, 0xd2, 0x6d, 0xb7, 0xc2, 0x5d, 0xe7, 0x32, 0x56, 0xfa, 0x15, 0x3f, 0x41,
    0xc3, 0x5e, 0xe2, 0x3d, 0x47, 0xc9, 0x40, 0xc0, 0x5b, 0xed, 0x2c, 0x74, 0x9c, 0xbf, 0xda, 0x75,
    0x9f, 0xba, 0xd5, 0x64, 0xac, 0xef, 0x2a, 0x7e, 0x82, 0x9d, 0xbc, 0xdf, 0x7a, 0x8e, 0x89, 0x80,
    0x9b, 0xb6, 0xc1, 0x58, 0xe8, 0x23, 0x65, 0xaf, 0xea, 0x25, 0x6f, 0xb1, 0xc8, 0x43, 0xc5, 0x54,
    0xfc, 0x1f, 0x21, 0x63, 0xa5, 0xf4, 0x07, 0x09, 0x1b, 0x2d, 0x77, 0x99, 0xb0, 0xcb, 0x46, 0xca,
    0x45, 0xcf, 0x4a, 0xde, 0x79, 0x8b, 0x86, 0x91, 0xa8, 0xe3, 0x3e, 0x42, 0xc6, 0x51, 0xf3, 0x0e,
    0x12, 0x36, 0x5a, 0xee, 0x29, 0x7b, 0x8d, 0x8c, 0x8f, 0x8a, 0x85, 0x94, 0xa7, 0xf2, 0x0d, 0x17,
    0x39, 0x4b, 0xdd, 0x7c, 0x84, 0x97, 0xa2, 0xfd, 0x1c, 0x24, 0x6c, 0xb4, 0xc7, 0x52, 0xf6,
];

/// Discrete logarithms to base `0x03`: `LOG[a]` is the exponent `i` with
/// `EXP[i] == a`. Zero has no logarithm; its entry is a filler that is never read.
pub const LOG: [u8; 256] = [
    0xff, 0x00, 0x19, 0x01, 0x32, 0x02, 0x1a, 0xc6, 0x4b, 0xc7, 0x1b, 0x68, 0x33, 0xee, 0xdf, 0x03,
    0x64, 0x04, 0xe0, 0x0e, 0x34, 0x8d, 0x81, 0xef, 0x4c, 0x71, 0x08, 0xc8, 0xf8, 0x69, 0x1c, 0xc1,
    0x7d, 0xc2, 0x1d, 0xb5, 0xf9, 0xb9, 0x27, 0x6a, 0x4d, 0xe4, 0xa6, 0x72, 0x9a, 0xc9, 0x09, 0x78,
    0x65, 0x2f, 0x8a, 0x05, 0x21, 0x0f, 0xe1, 0x24, 0x12, 0xf0, 0x82, 0x45, 0x35, 0x93, 0xda, 0x8e,
    0x96, 0x8f, 0xdb, 0xbd, 0x36, 0xd0, 0xce, 0x94, 0x13, 0x5c, 0xd2, 0xf1, 0x40, 0x46, 0x83, 0x38,
    0x66, 0xdd, 0xfd, 0x30, 0xbf, 0x06, 0x8b, 0x62, 0xb3, 0x25, 0xe2, 0x98, 0x22, 0x88, 0x91, 0x10,
    0x7e, 0x6e, 0x48, 0xc3, 0xa3, 0xb6, 0x1e, 0x42, 0x3a, 0x6b, 0x28, 0x54, 0xfa, 0x85, 0x3d, 0xba,
    0x2b, 0x79, 0x0a, 0x15, 0x9b, 0x9f, 0x5e, 0xca, 0x4e, 0xd4, 0xac, 0xe5, 0xf3, 0x73, 0xa7, 0x57,
    0xaf, 0x58, 0xa8, 0x50, 0xf4, 0xea, 0xd6, 0x74, 0x4f, 0xae, 0xe9, 0xd5, 0xe7, 0xe6, 0xad, 0xe8,
    0x2c, 0xd7, 0x75, 0x7a, 0xeb, 0x16, 0x0b, 0xf5, 0x59, 0xcb, 0x5f, 0xb0, 0x9c, 0xa9, 0x51, 0xa0,
    0x7f, 0x0c, 0xf6, 0x6f, 0x17, 0xc4, 0x49, 0xec, 0xd8, 0x43, 0x1f, 0x2d, 0xa4, 0x76, 0x7b, 0xb7,
    0xcc, 0xbb, 0x3e, 0x5a, 0xfb, 0x60, 0xb1, 0x86, 0x3b, 0x52, 0xa1, 0x6c, 0xaa, 0x55, 0x29, 0x9d,
    0x97, 0xb2, 0x87, 0x90, 0x61, 0xbe, 0xdc, 0xfc, 0xbc, 0x95, 0xcf, 0xcd, 0x37, 0x3f, 0x5b, 0xd1,
    0x53, 0x39, 0x84, 0x3c, 0x41, 0xa2, 0x6d, 0x47, 0x14, 0x2a, 0x9e, 0x5d, 0x56, 0xf2, 0xd3, 0xab,
    0x44, 0x11, 0x92, 0xd9, 0x23, 0x20, 0x2e, 0x89, 0xb4, 0x7c, 0xb8, 0x26, 0x77, 0x99, 0xe3, 0xa5,
    0x67, 0x4a, 0xed, 0xde, 0xc5, 0x31, 0xfe, 0x18, 0x0d, 0x63, 0x8c, 0x80, 0xc0, 0xf7, 0x70, 0x07,
];

/// The generator raised to the power `i`, for an exponent `i` below 255.
#[verifier::opaque]
pub open spec fn exp_table(i: int) -> u8 {
    EXP[i]
}

/// The discrete logarithm of the nonzero element `a`.
#[verifier::opaque]
pub open spec fn log_table(a: int) -> u8 {
    LOG[a]
}

/// Looks up the generator raised to the power `exponent`.
pub fn antilog(exponent: usize) -> (power: u8)
    requires
        exponent < 255,
    ensures
        power == exp_table(exponent as int),
{
    proof {
        reveal(exp_table);
    }
    EXP[exponent]
}

/// Looks up the discrete logarithm of `a`. Zero has none: for it the result
/// is the filler of the table.
pub fn log(a: u8) -> (exponent: u8)
    ensures
        exponent == log_table(a as int),
{
    proof {
        reveal(log_table);
    }
    LOG[a as usize]
}

/// The product of `x` and the generator `0x03`, written with shifts and xor:
/// `x` doubled and reduced by the field polynomial, plus `x` itself.
pub open spec fn times_generator(x: u8) -> u8 {
    let doubled = if x & 0x80 == 0 {
        x << 1
    } else {
        (x << 1) ^ 0x1b
    };
    doubled ^ x
}

/// What the two tables owe each other at exponent `i`: the power is not zero,
/// its logarithm is `i`, and the next power is this one times the generator.
spec fn exponent_ok(i: int) -> bool {
    &&& EXP[i] != 0
    &&& LOG[EXP[i] as int] == i
    &&& EXP[(i + 1) % 255] == times_generator(EXP[i])
}

/// What the two tables owe each other at the nonzero element `a`: its
/// logarithm is a valid exponent, and raising the generator to it gives `a` back.
spec fn logarithm_ok(a: int) -> bool {
    &&& LOG[a] < 255
    &&& EXP[LOG[a] as int] == a
}

/// `exponent_ok` at every exponent from `low` up to, not including, `high`.
spec fn exponents_ok_between(low: nat, high: nat) -> bool
    decreases high,
{
    high <= low || (exponent_ok(high - 1) && exponents_ok_between(low, (high - 1) as nat))
}

/// `logarithm_ok` at every element from `low` up to, not including, `high`.
spec fn logarithms_ok_between(low: nat, high: nat) -> bool
    decreases high,
{
    high <= low || (logarithm_ok(high - 1) && logarithms_ok_between(low, (high - 1) as nat))
}

proof fn lemma_exponents_0_64()
    ensures
        exponents_ok_between(0, 64),
{
    assert(
        times_generator(0x01) == 0x03 && times_generator(0x03) == 0x05 && times_generator(0x05) == 0x0f &&
        times_generator(0x0f) == 0x11 && times_generator(0x11) == 0x33 && times_generator(0x33) == 0x55 &&
        times_generator(0x55) == 0xff && times_generator(0xff) == 0x1a && times_generator(0x1a) == 0x2e &&
        times_generator(0x2e) == 0x72 && times_generator(0x72) == 0x96 && times_generator(0x96) == 0xa1 &&
        times_generator(0xa1) == 0xf8 && times_generator(0xf8) == 0x13 && times_generator(0x13) == 0x35 &&
        times_generator(0x35) == 0x5f && times_generator(0x5f) == 0xe1 && times_generator(0xe1) == 0x38 &&
        times_generator(0x38) == 0x48 && times_generator(0x48) == 0xd8 && times_generator(0xd8) == 0x73 &&
        times_generator(0x73) == 0x95 && times_generator(0x95) == 0xa4 && times_generator(0xa4) == 0xf7 &&
        times_generator(0xf7) == 0x02 && times_generator(0x02) == 0x06 && times_generator(0x06) == 0x0a &&
        times_generator(0x0a) == 0x1e && times_generator(0x1e) == 0x22 && times_generator(0x22) == 0x66 &&
        times_generator(0x66) == 0xaa && times_generator(0xaa) == 0xe5 && times_generator(0xe5) == 0x34 &&
        times_generator(0x34) == 0x5c && times_generator(0x5c) == 0xe4 && times_generator(0xe4) == 0x37 &&
        times_generator(0x37) == 0x59 && times_generator(0x59) == 0xeb && times_generator(0xeb) == 0x26 &&
        times_generator(0x26) == 0x6a && times_generator(0x6a) == 0xbe && times_generator(0xbe) == 0xd9 &&
        times_generator(0xd9) == 0x70 && times_generator(0x70) == 0x90 && times_generator(0x90) == 0xab &&
        times_generator(0xab) == 0xe6 && times_generator(0xe6) == 0x31 && times_generator(0x31) == 0x53 &&
        times_generator(0x53) == 0xf5 && times_generator(0xf5) == 0x04 && times_generator(0x04) == 0x0c &&
        times_generator(0x0c) == 0x14 && times_generator(0x14) == 0x3c && times_generator(0x3c) == 0x44 &&
        times_generator(0x44) == 0xcc && times_generator(0xcc) == 0x4f && times_generator(0x4f) == 0xd1 &&
        times_generator(0xd1) == 0x68 && times_generator(0x68) == 0xb8 && times_generator(0xb8) == 0xd3 &&
        times_generator(0xd3) == 0x6e && times_generator(0x6e) == 0xb2 && times_generator(0xb2) == 0xcd &&
        times_generator(0xcd) == 0x4c
    ) by (bit_vector);
    reveal_with_fuel(exponents_ok_between, 65);
}

proof fn lemma_exponents_64_128()
    ensures
        exponents_ok_between(64, 128),
{
    assert(
        times_generator(0x4c) == 0xd4 && times_generator(0xd4) == 0x67 && times_generator(0x67) == 0xa9 &&
        times_generator(0xa9) == 0xe0 && times_generator(0xe0) == 0x3b && times_generator(0x3b) == 0x4d &&
        times_generator(0x4d) == 0xd7 && times_generator(0xd7) == 0x62 && times_generator(0x62) == 0xa6 &&
        times_generator(0xa6) == 0xf1 && times_generator(0xf1) == 0x08 && times_generator(0x08) == 0x18 &&
        times_generator(0x18) == 0x28 && times_generator(0x28) == 0x78 && times_generator(0x78) == 0x88 &&
        times_generator(0x88) == 0x83 && times_generator(0x83) == 0x9e && times_generator(0x9e) == 0xb9 &&
        times_generator(0xb9) == 0xd0 && times_generator(0xd0) == 0x6b && times_generator(0x6b) == 0xbd &&
        times_generator(0xbd) == 0xdc && times_generator(0xdc) == 0x7f && times_generator(0x7f) == 0x81 &&
        times_generator(0x81) == 0x98 && times_generator(0x98) == 0xb3 && times_generator(0xb3) == 0xce &&
        times_generator(0xce) == 0x49 && times_generator(0x49) == 0xdb && times_generator(0xdb) == 0x76 &&
        times_generator(0x76) == 0x9a && times_generator(0x9a) == 0xb5 && times_generator(0xb5) == 0xc4 &&
        times_generator(0xc4) == 0x57 && times_generator(0x57) == 0xf9 && times_generator(0xf9) == 0x10 &&
        times_generator(0x10) == 0x30 && times_generator(0x30) == 0x50 && times_generator(0x50) == 0xf0 &&
        times_generator(0xf0) == 0x0b && times_generator(0x0b) == 0x1d && times_generator(0x1d) == 0x27 &&
        times_generator(0x27) == 0x69 && times_generator(0x69) == 0xbb && times_generator(0xbb) == 0xd6 &&
        times_generator(0xd6) == 0x61 && times_generator(0x61) == 0xa3 && times_generator(0xa3) == 0xfe &&
        times_generator(0xfe) == 0x19 && times_generator(0x19) == 0x2b && times_generator(0x2b) == 0x7d &&
        times_generator(0x7d) == 0x87 && times_generator(0x87) == 0x92 && times_generator(0x92) == 0xad &&
        times_generator(0xad) == 0xec && times_generator(0xec) == 0x2f && times_generator(0x2f) == 0x71 &&
        times_generator(0x71) == 0x93 && times_generator(0x93) == 0xae && times_generator(0xae) == 0xe9 &&
        times_generator(0xe9) == 0x20 && times_generator(0x20) == 0x60 && times_generator(0x60) == 0xa0 &&
        times_generator(0xa0) == 0xfb
    ) by (bit_vector);
    reveal_with_fuel(exponents_ok_between, 65);
}

proof fn lemma_exponents_128_192()
    ensures
        exponents_ok_between(128, 192),
{
    assert(
        times_generator(0xfb) == 0x16 && times_generator(0x16) == 0x3a && times_generator(0x3a) == 0x4e &&
        times_generator(0x4e) == 0xd2 && times_generator(0xd2) == 0x6d && times_generator(0x6d) == 0xb7 &&
        times_generator(0xb7) == 0xc2 && times_generator(0xc2) == 0x5d && times_generator(0x5d) == 0xe7 &&
        times_generator(0xe7) == 0x32 && times_generator(0x32) == 0x56 && times_generator(0x56) == 0xfa &&
        times_generator(0xfa) == 0x15 && times_generator(0x15) == 0x3f && times_generator(0x3f) == 0x41 &&
        times_generator(0x41) == 0xc3 && times_generator(0xc3) == 0x5e && times_generator(0x5e) == 0xe2 &&
        times_generator(0xe2) == 0x3d && times_generator(0x3d) == 0x47 && times_generator(0x47) == 0xc9 &&
        times_generator(0xc9) == 0x40 && times_generator(0x40) == 0xc0 && times_generator(0xc0) == 0x5b &&
        times_generator(0x5b) == 0xed && times_generator(0xed) == 0x2c && times_generator(0x2c) == 0x74 &&
        times_generator(0x74) == 0x9c && times_generator(0x9c) == 0xbf && times_generator(0xbf) == 0xda &&
        times_generator(0xda) == 0x75 && times_generator(0x75) == 0x9f && times_generator(0x9f) == 0xba &&
        times_generator(0xba) == 0xd5 && times_generator(0xd5) == 0x64 && times_generator(0x64) == 0xac &&
        times_generator(0xac) == 0xef && times_generator(0xef) == 0x2a && times_generator(0x2a) == 0x7e &&
        times_generator(0x7e) == 0x82 && times_generator(0x82) == 0x9d && times_generator(0x9d) == 0xbc &&
        times_generator(0xbc) == 0xdf && times_generator(0xdf) == 0x7a && times_generator(0x7a) == 0x8e &&
        times_generator(0x8e) == 0x89 && times_generator(0x89) == 0x80 && times_generator(0x80) == 0x9b &&
        times_generator(0x9b) == 0xb6 && times_generator(0xb6) == 0xc1 && times_generator(0xc1) == 0x58 &&
        times_generator(0x58) == 0xe8 && times_generator(0xe8) == 0x23 && times_generator(0x23) == 0x65 &&
        times_generator(0x65) == 0xaf && times_generator(0xaf) == 0xea && times_generator(0xea) == 0x25 &&
        times_generator(0x25) == 0x6f && times_generator(0x6f) == 0xb1 && times_generator(0xb1) == 0xc8 &&
        times_generator(0xc8) == 0x43 && times_generator(0x43) == 0xc5 && times_generator(0xc5) == 0x54 &&
        times_generator(0x54) == 0xfc
    ) by (bit_vector);
    reveal_with_fuel(exponents_ok_between, 65);
}

proof fn lemma_exponents_192_255()
    ensures
        exponents_ok_between(192, 255),
{
    assert(
        times_generator(0xfc) == 0x1f && times_generator(0x1f) == 0x21 && times_generator(0x21) == 0x63 &&
        times_generator(0x63) == 0xa5 && times_generator(0xa5) == 0xf4 && times_generator(0xf4) == 0x07 &&
        times_generator(0x07) == 0x09 && times_generator(0x09) == 0x1b && times_generator(0x1b) == 0x2d &&
        times_generator(0x2d) == 0x77 && times_generator(0x77) == 0x99 && times_generator(0x99) == 0xb0 &&
        times_generator(0xb0) == 0xcb && times_generator(0xcb) == 0x46 && times_generator(0x46) == 0xca &&
        times_generator(0xca) == 0x45 && times_generator(0x45) == 0xcf && times_generator(0xcf) == 0x4a &&
        times_generator(0x4a) == 0xde && times_generator(0xde) == 0x79 && times_generator(0x79) == 0x8b &&
        times_generator(0x8b) == 0x86 && times_generator(0x86) == 0x91 && times_generator(0x91) == 0xa8 &&
        times_generator(0xa8) == 0xe3 && times_generator(0xe3) == 0x3e && times_generator(0x3e) == 0x42 &&
        times_generator(0x42) == 0xc6 && times_generator(0xc6) == 0x51 && times_generator(0x51) == 0xf3 &&
        times_generator(0xf3) == 0x0e && times_generator(0x0e) == 0x12 && times_generator(0x12) == 0x36 &&
        times_generator(0x36) == 0x5a && times_generator(0x5a) == 0xee && times_generator(0xee) == 0x29 &&
        times_generator(0x29) == 0x7b && times_generator(0x7b) == 0x8d && times_generator(0x8d) == 0x8c &&
        times_generator(0x8c) == 0x8f && times_generator(0x8f) == 0x8a && times_generator(0x8a) == 0x85 &&
        times_generator(0x85) == 0x94 && times_generator(0x94) == 0xa7 && times_generator(0xa7) == 0xf2 &&
        times_generator(0xf2) == 0x0d && times_generator(0x0d) == 0x17 && times_generator(0x17) == 0x39 &&
        times_generator(0x39) == 0x4b && times_generator(0x4b) == 0xdd && times_generator(0xdd) == 0x7c &&
        times_generator(0x7c) == 0x84 && times_generator(0x84) == 0x97 && times_generator(0x97) == 0xa2 &&
        times_generator(0xa2) == 0xfd && times_generator(0xfd) == 0x1c && times_generator(0x1c) == 0x24 &&
        times_generator(0x24) == 0x6c && times_generator(0x6c) == 0xb4 && times_generator(0xb4) == 0xc7 &&
        times_generator(0xc7) == 0x52 && times_generator(0x52) == 0xf6 && times_generator(0xf6) == 0x01
    ) by (bit_vector);
    reveal_with_fuel(exponents_ok_between, 64);
}

proof fn lemma_logarithms_1_64()
    ensures
        logarithms_ok_between(1, 64),
{
    reveal_with_fuel(logarithms_ok_between, 64);
}

proof fn lemma_logarithms_64_128()
    ensures
        logarithms_ok_between(64, 128),
{
    reveal_with_fuel(logarithms_ok_between, 65);
}

proof fn lemma_logarithms_128_192()
    ensures
        logarithms_ok_between(128, 192),
{
    reveal_with_fuel(logarithms_ok_between, 65);
}

proof fn lemma_logarithms_192_256()
    ensures
        logarithms_ok_between(192, 256),
{
    reveal_with_fuel(logarithms_ok_between, 65);
}

proof fn lemma_exponents_ok(low: nat, high: nat, i: int)
    requires
        exponents_ok_between(low, high),
        low <= i < high,
    ensures
        exponent_ok(i),
    decreases high,
{
    if i < high - 1 {
        lemma_exponents_ok(low, (high - 1) as nat, i);
    }
}

proof fn lemma_logarithms_ok(low: nat, high: nat, a: int)
    requires
        logarithms_ok_between(low, high),
        low <= a < high,
    ensures
        logarithm_ok(a),
    decreases high,
{
    if a < high - 1 {
        lemma_logarithms_ok(low, (high - 1) as nat, a);
    }
}

proof fn lemma_exponent_ok(i: int)
    requires
        0 <= i < 255,
    ensures
        exponent_ok(i),
{
    if i < 64 {
        lemma_exponents_0_64();
        lemma_exponents_ok(0, 64, i);
    } else if i < 128 {
        lemma_exponents_64_128();
        lemma_exponents_ok(64, 128, i);
    } else if i < 192 {
        lemma_exponents_128_192();
        lemma_exponents_ok(128, 192, i);
    } else {
        lemma_exponents_192_255();
        lemma_exponents_ok(192, 255, i);
    }
}

proof fn lemma_logarithm_ok(a: int)
    requires
        1 <= a < 256,
    ensures
        logarithm_ok(a),
{
    if a < 64 {
        lemma_logarithms_1_64();
        lemma_logarithms_ok(1, 64, a);
    } else if a < 128 {
        lemma_logarithms_64_128();
        lemma_logarithms_ok(64, 128, a);
    } else if a < 192 {
        lemma_logarithms_128_192();
        lemma_logarithms_ok(128, 192, a);
    } else {
        lemma_logarithms_192_256();
        lemma_logarithms_ok(192, 256, a);
    }
}

/// Every exponent below 255 names a nonzero element whose logarithm is that
/// exponent, and stepping the exponent, modulo 255, multiplies by the generator.
pub proof fn lemma_exponent(i: int)
    requires
        0 <= i < 255,
    ensures
        exp_table(i) != 0,
        log_table(exp_table(i) as int) == i,
        exp_table((i + 1) % 255) == times_generator(exp_table(i)),
{
    reveal(exp_table);
    reveal(log_table);
    lemma_exponent_ok(i);
}

/// Every nonzero element is the generator raised to its logarithm.
pub proof fn lemma_logarithm(a: u8)
    requires
        a != 0,
    ensures
        log_table(a as int) < 255,
        exp_table(log_table(a as int) as int) == a,
{
    reveal(exp_table);
    reveal(log_table);
    lemma_logarithm_ok(a as int);
}

/// The first entries of the tables: the powers zero and one of the generator
/// are one and the generator itself, `0x03`.
pub proof fn lemma_first_powers()
    ensures
        exp_table(0) == 1,
        log_table(1) == 0,
        exp_table(1) == 3,
        log_table(3) == 1,
{
    reveal(exp_table);
    reveal(log_table);
}

} // verus!
