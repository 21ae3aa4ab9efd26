//! Arithmetic in GF(2^8) = GF(2)[x] / (x^8 + x^4 + x^3 + x^2 + 1), the polynomial 0x11D.
//!
//! The multiplicative group is cyclic of order 255 and generated by `g = x` (the byte 2).
//! Multiplication, inversion and division go through precomputed log/antilog tables; their
//! results are proved equal to the polynomial product `gf_mul`, which is the field's own
//! definition.

use vstd::prelude::*;

verus! {

/// Multiplication by `x` in GF(2)[x] / (x^8 + x^4 + x^3 + x^2 + 1).
pub open spec fn xt(a: u8) -> u8 {
    if a & 0x80u8 != 0 {
        (a << 1u8) ^ 0x1du8
    } else {
        a << 1u8
    }
}

/// Field product: the polynomial product of `a` and `b` reduced modulo 0x11D,
/// written as the shift-and-add over the eight bits of `b`.
pub open spec fn gf_mul(a: u8, b: u8) -> u8 {
    let a1 = xt(a);
    let a2 = xt(a1);
    let a3 = xt(a2);
    let a4 = xt(a3);
    let a5 = xt(a4);
    let a6 = xt(a5);
    let a7 = xt(a6);
    (if b & 1u8 != 0 { a } else { 0u8 }) ^ (if b & 2u8 != 0 { a1 } else { 0u8 }) ^ (if b & 4u8
        != 0 {
        a2
    } else {
        0u8
    }) ^ (if b & 8u8 != 0 { a3 } else { 0u8 }) ^ (if b & 16u8 != 0 { a4 } else { 0u8 }) ^ (if b
        & 32u8 != 0 {
        a5
    } else {
        0u8
    }) ^ (if b & 64u8 != 0 { a6 } else { 0u8 }) ^ (if b & 128u8 != 0 { a7 } else { 0u8 })
}

/// `g^i` for the generator `g = x` (the byte 2), by repeated multiplication by `x`.
pub open spec fn pow_g(i: nat) -> u8
    decreases i,
{
    if i == 0 {
        1
    } else {
        xt(pow_g((i - 1) as nat))
    }
}

/// The discrete logarithm of a nonzero byte: an exponent below 255 whose power is `a`.
pub open spec fn dlog(a: u8) -> nat {
    choose|i: nat| i < 255 && pow_g(i) == a
}

/// `a^e` in the field.
pub open spec fn gf_pow(a: u8, e: nat) -> u8
    decreases e,
{
    if e == 0 {
        1
    } else {
        gf_mul(gf_pow(a, (e - 1) as nat), a)
    }
}

// ---------------------------------------------------------------------------
// Bit-level facts about `xt` and `gf_mul`.
// ---------------------------------------------------------------------------

proof fn lemma_xt_linear(u: u8, v: u8)
    ensures
        xt(u ^ v) == xt(u) ^ xt(v),
        xt(0) == 0,
        u != 0 ==> xt(u) != 0,
{
    assert(xt(u ^ v) == xt(u) ^ xt(v)) by (bit_vector);
    assert(xt(0) == 0) by (bit_vector);
    assert(u != 0 ==> xt(u) != 0) by (bit_vector);
}

/// `1` is the multiplicative identity.
pub proof fn lemma_mul_one(b: u8)
    ensures
        gf_mul(1, b) == b,
        gf_mul(b, 1) == b,
{
    assert(gf_mul(1, b) == b) by (bit_vector);
    assert(gf_mul(b, 1) == b) by (bit_vector);
}

/// `0` annihilates.
pub proof fn lemma_mul_zero(a: u8)
    ensures
        gf_mul(a, 0) == 0,
        gf_mul(0, a) == 0,
{
    assert(gf_mul(a, 0) == 0) by (bit_vector);
    assert(gf_mul(0, a) == 0) by (bit_vector);
}

/// Multiplication distributes over addition (XOR) in its second argument.
pub proof fn lemma_mul_distrib(a: u8, b: u8, c: u8)
    ensures
        gf_mul(a, b ^ c) == gf_mul(a, b) ^ gf_mul(a, c),
{
    assert(gf_mul(a, b ^ c) == gf_mul(a, b) ^ gf_mul(a, c)) by (bit_vector);
}

/// Multiplication distributes over addition (XOR) in its first argument.
pub proof fn lemma_mul_xt(a: u8, b: u8)
    ensures
        gf_mul(xt(a), b) == xt(gf_mul(a, b)),
{
    let a1 = xt(a);
    let a2 = xt(a1);
    let a3 = xt(a2);
    let a4 = xt(a3);
    let a5 = xt(a4);
    let a6 = xt(a5);
    let a7 = xt(a6);
    let t0 = if b & 1u8 != 0 { a } else { 0u8 };
    let t1 = if b & 2u8 != 0 { a1 } else { 0u8 };
    let t2 = if b & 4u8 != 0 { a2 } else { 0u8 };
    let t3 = if b & 8u8 != 0 { a3 } else { 0u8 };
    let t4 = if b & 16u8 != 0 { a4 } else { 0u8 };
    let t5 = if b & 32u8 != 0 { a5 } else { 0u8 };
    let t6 = if b & 64u8 != 0 { a6 } else { 0u8 };
    let t7 = if b & 128u8 != 0 { a7 } else { 0u8 };
    lemma_xt_linear(0, 0);
    lemma_xt_linear(t0, t1);
    lemma_xt_linear(t0 ^ t1, t2);
    lemma_xt_linear(t0 ^ t1 ^ t2, t3);
    lemma_xt_linear(t0 ^ t1 ^ t2 ^ t3, t4);
    lemma_xt_linear(t0 ^ t1 ^ t2 ^ t3 ^ t4, t5);
    lemma_xt_linear(t0 ^ t1 ^ t2 ^ t3 ^ t4 ^ t5, t6);
    lemma_xt_linear(t0 ^ t1 ^ t2 ^ t3 ^ t4 ^ t5 ^ t6, t7);
}

// ---------------------------------------------------------------------------
// The cyclic group generated by g = x, checked against its listing.
// ---------------------------------------------------------------------------

/// The 255 powers of the generator, listed.
spec fn exp_listing(i: u8) -> u8 {
    match i {
        0u8 => 1u8,
        1u8 => 2u8,
        2u8 => 4u8,
        3u8 => 8u8,
        4u8 => 16u8,
        5u8 => 32u8,
        6u8 => 64u8,
        7u8 => 128u8,
        8u8 => 29u8,
        9u8 => 58u8,
        10u8 => 116u8,
        11u8 => 232u8,
        12u8 => 205u8,
        13u8 => 135u8,
        14u8 => 19u8,
        15u8 => 38u8,
        16u8 => 76u8,
        17u8 => 152u8,
        18u8 => 45u8,
        19u8 => 90u8,
        20u8 => 180u8,
        21u8 => 117u8,
        22u8 => 234u8,
        23u8 => 201u8,
        24u8 => 143u8,
        25u8 => 3u8,
        26u8 => 6u8,
        27u8 => 12u8,
        28u8 => 24u8,
        29u8 => 48u8,
        30u8 => 96u8,
        31u8 => 192u8,
        32u8 => 157u8,
        33u8 => 39u8,
        34u8 => 78u8,
        35u8 => 156u8,
        36u8 => 37u8,
        37u8 => 74u8,
        38u8 => 148u8,
        39u8 => 53u8,
        40u8 => 106u8,
        41u8 => 212u8,
        42u8 => 181u8,
        43u8 => 119u8,
        44u8 => 238u8,
        45u8 => 193u8,
        46u8 => 159u8,
        47u8 => 35u8,
        48u8 => 70u8,
        49u8 => 140u8,
        50u8 => 5u8,
        51u8 => 10u8,
        52u8 => 20u8,
        53u8 => 40u8,
        54u8 => 80u8,
        55u8 => 160u8,
        56u8 => 93u8,
        57u8 => 186u8,
        58u8 => 105u8,
        59u8 => 210u8,
        60u8 => 185u8,
        61u8 => 111u8,
        62u8 => 222u8,
        63u8 => 161u8,
        64u8 => 95u8,
        65u8 => 190u8,
        66u8 => 97u8,
        67u8 => 194u8,
        68u8 => 153u8,
        69u8 => 47u8,
        70u8 => 94u8,
        71u8 => 188u8,
        72u8 => 101u8,
        73u8 => 202u8,
        74u8 => 137u8,
        75u8 => 15u8,
        76u8 => 30u8,
        77u8 => 60u8,
        78u8 => 120u8,
        79u8 => 240u8,
        80u8 => 253u8,
        81u8 => 231u8,
        82u8 => 211u8,
        83u8 => 187u8,
        84u8 => 107u8,
        85u8 => 214u8,
        86u8 => 177u8,
        87u8 => 127u8,
        88u8 => 254u8,
        89u8 => 225u8,
        90u8 => 223u8,
        91u8 => 163u8,
        92u8 => 91u8,
        93u8 => 182u8,
        94u8 => 113u8,
        95u8 => 226u8,
        96u8 => 217u8,
        97u8 => 175u8,
        98u8 => 67u8,
        99u8 => 134u8,
        100u8 => 17u8,
        101u8 => 34u8,
        102u8 => 68u8,
        103u8 => 136u8,
        104u8 => 13u8,
        105u8 => 26u8,
        106u8 => 52u8,
        107u8 => 104u8,
        108u8 => 208u8,
        109u8 => 189u8,
        110u8 => 103u8,
        111u8 => 206u8,
        112u8 => 129u8,
        113u8 => 31u8,
        114u8 => 62u8,
        115u8 => 124u8,
        116u8 => 248u8,
        117u8 => 237u8,
        118u8 => 199u8,
        119u8 => 147u8,
        120u8 => 59u8,
        121u8 => 118u8,
        122u8 => 236u8,
        123u8 => 197u8,
        124u8 => 151u8,
        125u8 => 51u8,
        126u8 => 102u8,
        127u8 => 204u8,
        128u8 => 133u8,
        129u8 => 23u8,
        130u8 => 46u8,
        131u8 => 92u8,
        132u8 => 184u8,
        133u8 => 109u8,
        134u8 => 218u8,
        135u8 => 169u8,
        136u8 => 79u8,
        137u8 => 158u8,
        138u8 => 33u8,
        139u8 => 66u8,
        140u8 => 132u8,
        141u8 => 21u8,
        142u8 => 42u8,
        143u8 => 84u8,
        144u8 => 168u8,
        145u8 => 77u8,
        146u8 => 154u8,
        147u8 => 41u8,
        148u8 => 82u8,
        149u8 => 164u8,
        150u8 => 85u8,
        151u8 => 170u8,
        152u8 => 73u8,
        153u8 => 146u8,
        154u8 => 57u8,
        155u8 => 114u8,
        156u8 => 228u8,
        157u8 => 213u8,
        158u8 => 183u8,
        159u8 => 115u8,
        160u8 => 230u8,
        161u8 => 209u8,
        162u8 => 191u8,
        163u8 => 99u8,
        164u8 => 198u8,
        165u8 => 145u8,
        166u8 => 63u8,
        167u8 => 126u8,
        168u8 => 252u8,
        169u8 => 229u8,
        170u8 => 215u8,
        171u8 => 179u8,
        172u8 => 123u8,
        173u8 => 246u8,
        174u8 => 241u8,
        175u8 => 255u8,
        176u8 => 227u8,
        177u8 => 219u8,
        178u8 => 171u8,
        179u8 => 75u8,
        180u8 => 150u8,
        181u8 => 49u8,
        182u8 => 98u8,
        183u8 => 196u8,
        184u8 => 149u8,
        185u8 => 55u8,
        186u8 => 110u8,
        187u8 => 220u8,
        188u8 => 165u8,
        189u8 => 87u8,
        190u8 => 174u8,
        191u8 => 65u8,
        192u8 => 130u8,
        193u8 => 25u8,
        194u8 => 50u8,
        195u8 => 100u8,
        196u8 => 200u8,
        197u8 => 141u8,
        198u8 => 7u8,
        199u8 => 14u8,
        200u8 => 28u8,
        201u8 => 56u8,
        202u8 => 112u8,
        203u8 => 224u8,
        204u8 => 221u8,
        205u8 => 167u8,
        206u8 => 83u8,
        207u8 => 166u8,
        208u8 => 81u8,
        209u8 => 162u8,
        210u8 => 89u8,
        211u8 => 178u8,
        212u8 => 121u8,
        213u8 => 242u8,
        214u8 => 249u8,
        215u8 => 239u8,
        216u8 => 195u8,
        217u8 => 155u8,
        218u8 => 43u8,
        219u8 => 86u8,
        220u8 => 172u8,
        221u8 => 69u8,
        222u8 => 138u8,
        223u8 => 9u8,
        224u8 => 18u8,
        225u8 => 36u8,
        226u8 => 72u8,
        227u8 => 144u8,
        228u8 => 61u8,
        229u8 => 122u8,
        230u8 => 244u8,
        231u8 => 245u8,
        232u8 => 247u8,
        233u8 => 243u8,
        234u8 => 251u8,
        235u8 => 235u8,
        236u8 => 203u8,
        237u8 => 139u8,
        238u8 => 11u8,
        239u8 => 22u8,
        240u8 => 44u8,
        241u8 => 88u8,
        242u8 => 176u8,
        243u8 => 125u8,
        244u8 => 250u8,
        245u8 => 233u8,
        246u8 => 207u8,
        247u8 => 131u8,
        248u8 => 27u8,
        249u8 => 54u8,
        250u8 => 108u8,
        251u8 => 216u8,
        252u8 => 173u8,
        253u8 => 71u8,
        254u8 => 142u8,
        _ => 0u8,
    }
}

/// The discrete logarithm of each nonzero byte, listed.
spec fn log_listing(a: u8) -> u8 {
    match a {
        1u8 => 0u8,
        2u8 => 1u8,
        3u8 => 25u8,
        4u8 => 2u8,
        5u8 => 50u8,
        6u8 => 26u8,
        7u8 => 198u8,
        8u8 => 3u8,
        9u8 => 223u8,
        10u8 => 51u8,
        11u8 => 238u8,
        12u8 => 27u8,
        13u8 => 104u8,
        14u8 => 199u8,
        15u8 => 75u8,
        16u8 => 4u8,
        17u8 => 100u8,
        18u8 => 224u8,
        19u8 => 14u8,
        20u8 => 52u8,
        21u8 => 141u8,
        22u8 => 239u8,
        23u8 => 129u8,
        24u8 => 28u8,
        25u8 => 193u8,
        26u8 => 105u8,
        27u8 => 248u8,
        28u8 => 200u8,
        29u8 => 8u8,
        30u8 => 76u8,
        31u8 => 113u8,
        32u8 => 5u8,
        33u8 => 138u8,
        34u8 => 101u8,
        35u8 => 47u8,
        36u8 => 225u8,
        37u8 => 36u8,
        38u8 => 15u8,
        39u8 => 33u8,
        40u8 => 53u8,
        41u8 => 147u8,
        42u8 => 142u8,
        43u8 => 218u8,
        44u8 => 240u8,
        45u8 => 18u8,
        46u8 => 130u8,
        47u8 => 69u8,
        48u8 => 29u8,
        49u8 => 181u8,
        50u8 => 194u8,
        51u8 => 125u8,
        52u8 => 106u8,
        53u8 => 39u8,
        54u8 => 249u8,
        55u8 => 185u8,
        56u8 => 201u8,
        57u8 => 154u8,
        58u8 => 9u8,
        59u8 => 120u8,
        60u8 => 77u8,
        61u8 => 228u8,
        62u8 => 114u8,
        63u8 => 166u8,
        64u8 => 6u8,
        65u8 => 191u8,
        66u8 => 139u8,
        67u8 => 98u8,
        68u8 => 102u8,
        69u8 => 221u8,
        70u8 => 48u8,
        71u8 => 253u8,
        72u8 => 226u8,
        73u8 => 152u8,
        74u8 => 37u8,
        75u8 => 179u8,
        76u8 => 16u8,
        77u8 => 145u8,
        78u8 => 34u8,
        79u8 => 136u8,
        80u8 => 54u8,
        81u8 => 208u8,
        82u8 => 148u8,
        83u8 => 206u8,
        84u8 => 143u8,
        85u8 => 150u8,
        86u8 => 219u8,
        87u8 => 189u8,
        88u8 => 241u8,
        89u8 => 210u8,
        90u8 => 19u8,
        91u8 => 92u8,
        92u8 => 131u8,
        93u8 => 56u8,
        94u8 => 70u8,
        95u8 => 64u8,
        96u8 => 30u8,
        97u8 => 66u8,
        98u8 => 182u8,
        99u8 => 163u8,
        100u8 => 195u8,
        101u8 => 72u8,
        102u8 => 126u8,
        103u8 => 110u8,
        104u8 => 107u8,
        105u8 => 58u8,
        106u8 => 40u8,
        107u8 => 84u8,
        108u8 => 250u8,
        109u8 => 133u8,
        110u8 => 186u8,
        111u8 => 61u8,
        112u8 => 202u8,
        113u8 => 94u8,
        114u8 => 155u8,
        115u8 => 159u8,
        116u8 => 10u8,
        117u8 => 21u8,
        118u8 => 121u8,
        119u8 => 43u8,
        120u8 => 78u8,
        121u8 => 212u8,
        122u8 => 229u8,
        123u8 => 172u8,
        124u8 => 115u8,
        125u8 => 243u8,
        126u8 => 167u8,
        127u8 => 87u8,
        128u8 => 7u8,
        129u8 => 112u8,
        130u8 => 192u8,
        131u8 => 247u8,
        132u8 => 140u8,
        133u8 => 128u8,
        134u8 => 99u8,
        135u8 => 13u8,
        136u8 => 103u8,
        137u8 => 74u8,
        138u8 => 222u8,
        139u8 => 237u8,
        140u8 => 49u8,
        141u8 => 197u8,
        142u8 => 254u8,
        143u8 => 24u8,
        144u8 => 227u8,
        145u8 => 165u8,
        146u8 => 153u8,
        147u8 => 119u8,
        148u8 => 38u8,
        149u8 => 184u8,
        150u8 => 180u8,
        151u8 => 124u8,
        152u8 => 17u8,
        153u8 => 68u8,
        154u8 => 146u8,
        155u8 => 217u8,
        156u8 => 35u8,
        157u8 => 32u8,
        158u8 => 137u8,
        159u8 => 46u8,
        160u8 => 55u8,
        161u8 => 63u8,
        162u8 => 209u8,
        163u8 => 91u8,
        164u8 => 149u8,
        165u8 => 188u8,
        166u8 => 207u8,
        167u8 => 205u8,
        168u8 => 144u8,
        169u8 => 135u8,
        170u8 => 151u8,
        171u8 => 178u8,
        172u8 => 220u8,
        173u8 => 252u8,
        174u8 => 190u8,
        175u8 => 97u8,
        176u8 => 242u8,
        177u8 => 86u8,
        178u8 => 211u8,
        179u8 => 171u8,
        180u8 => 20u8,
        181u8 => 42u8,
        182u8 => 93u8,
        183u8 => 158u8,
        184u8 => 132u8,
        185u8 => 60u8,
        186u8 => 57u8,
        187u8 => 83u8,
        188u8 => 71u8,
        189u8 => 109u8,
        190u8 => 65u8,
        191u8 => 162u8,
        192u8 => 31u8,
        193u8 => 45u8,
        194u8 => 67u8,
        195u8 => 216u8,
        196u8 => 183u8,
        197u8 => 123u8,
        198u8 => 164u8,
        199u8 => 118u8,
        200u8 => 196u8,
        201u8 => 23u8,
        202u8 => 73u8,
        203u8 => 236u8,
        204u8 => 127u8,
        205u8 => 12u8,
        206u8 => 111u8,
        207u8 => 246u8,
        208u8 => 108u8,
        209u8 => 161u8,
        210u8 => 59u8,
        211u8 => 82u8,
        212u8 => 41u8,
        213u8 => 157u8,
        214u8 => 85u8,
        215u8 => 170u8,
        216u8 => 251u8,
        217u8 => 96u8,
        218u8 => 134u8,
        219u8 => 177u8,
        220u8 => 187u8,
        221u8 => 204u8,
        222u8 => 62u8,
        223u8 => 90u8,
        224u8 => 203u8,
        225u8 => 89u8,
        226u8 => 95u8,
        227u8 => 176u8,
        228u8 => 156u8,
        229u8 => 169u8,
        230u8 => 160u8,
        231u8 => 81u8,
        232u8 => 11u8,
        233u8 => 245u8,
        234u8 => 22u8,
        235u8 => 235u8,
        236u8 => 122u8,
        237u8 => 117u8,
        238u8 => 44u8,
        239u8 => 215u8,
        240u8 => 79u8,
        241u8 => 174u8,
        242u8 => 213u8,
        243u8 => 233u8,
        244u8 => 230u8,
        245u8 => 231u8,
        246u8 => 173u8,
        247u8 => 232u8,
        248u8 => 116u8,
        249u8 => 214u8,
        250u8 => 244u8,
        251u8 => 234u8,
        252u8 => 168u8,
        253u8 => 80u8,
        254u8 => 88u8,
        255u8 => 175u8,
        _ => 0u8,
    }
}

#[verifier::rlimit(100)]
proof fn lemma_exp_listing_step(i: u8)
    by (bit_vector)
    ensures
        i < 254 ==> xt(exp_listing(i)) == exp_listing((i + 1) as u8),
        i == 254 ==> xt(exp_listing(i)) == 1,
        exp_listing(0) == 1,
{
}

#[verifier::rlimit(100)]
proof fn lemma_exp_listing_log(i: u8)
    by (bit_vector)
    ensures
        i < 255 ==> exp_listing(i) != 0 && log_listing(exp_listing(i)) == i,
{
}

#[verifier::rlimit(100)]
proof fn lemma_log_listing(a: u8)
    by (bit_vector)
    ensures
        a != 0 ==> log_listing(a) < 255 && exp_listing(log_listing(a)) == a,
{
}

proof fn lemma_exp_listing(i: u8)
    ensures
        i < 254 ==> xt(exp_listing(i)) == exp_listing((i + 1) as u8),
        i == 254 ==> xt(exp_listing(i)) == 1,
        i < 255 ==> exp_listing(i) != 0 && log_listing(exp_listing(i)) == i,
        exp_listing(0) == 1,
{
    lemma_exp_listing_step(i);
    lemma_exp_listing_log(i);
}

proof fn lemma_pow_g_listing(i: nat)
    requires
        i < 255,
    ensures
        pow_g(i) == exp_listing(i as u8),
    decreases i,
{
    if i == 0 {
        lemma_exp_listing(0);
    } else {
        lemma_pow_g_listing((i - 1) as nat);
        lemma_exp_listing((i - 1) as u8);
    }
}

/// `g^255 == 1`, so exponents may be taken modulo 255.
pub proof fn lemma_pow_g_period(i: nat)
    ensures
        pow_g(i + 255) == pow_g(i),
        pow_g(i) == pow_g(i % 255),
        pow_g(i) != 0,
    decreases i,
{
    if i == 0 {
        lemma_pow_g_listing(254);
        lemma_exp_listing(254);
        assert(pow_g(255) == xt(pow_g(254)));
        lemma_exp_listing(0);
    } else {
        lemma_pow_g_period((i - 1) as nat);
        assert(pow_g(i + 255) == xt(pow_g((i - 1 + 255) as nat)));
        if i >= 255 {
            lemma_pow_g_period((i - 255) as nat);
            assert(((i - 255) as nat) % 255 == i % 255) by (nonlinear_arith)
                requires
                    i >= 255,
            ;
            assert(pow_g(i) == pow_g(((i - 255) as nat) + 255));
        } else {
            assert(i % 255 == i);
        }
    }
    if i < 255 {
        lemma_pow_g_listing(i);
        lemma_exp_listing(i as u8);
    } else {
        lemma_pow_g_listing(i % 255);
        lemma_exp_listing((i % 255) as u8);
    }
}

/// Full period: `g^255 == 1`, the powers `g^0 .. g^254` are pairwise distinct, and every
/// nonzero byte is one of them.
pub proof fn lemma_full_period(i: nat, j: nat, a: u8)
    ensures
        pow_g(255) == 1,
        i < 255 && j < 255 && pow_g(i) == pow_g(j) ==> i == j,
        a != 0 ==> dlog(a) < 255 && pow_g(dlog(a)) == a,
{
    lemma_pow_g_period(0);
    if i < 255 && j < 255 {
        lemma_pow_g_listing(i);
        lemma_pow_g_listing(j);
        lemma_exp_listing(i as u8);
        lemma_exp_listing(j as u8);
    }
    if a != 0 {
        lemma_log_listing(a);
        let w = log_listing(a) as nat;
        lemma_pow_g_listing(w);
        assert(w < 255 && pow_g(w) == a);
    }
}

/// Multiplying powers adds exponents: `g^i * g^j == g^(i+j)`.
pub proof fn lemma_pow_g_add(i: nat, j: nat)
    ensures
        gf_mul(pow_g(i), pow_g(j)) == pow_g(i + j),
    decreases i,
{
    if i == 0 {
        lemma_mul_one(pow_g(j));
    } else {
        lemma_pow_g_add((i - 1) as nat, j);
        lemma_mul_xt(pow_g((i - 1) as nat), pow_g(j));
        assert(pow_g(i + j) == xt(pow_g((i - 1 + j) as nat)));
    }
}

// ---------------------------------------------------------------------------
// Field laws.
// ---------------------------------------------------------------------------

/// Multiplication is commutative.
pub proof fn lemma_mul_comm(a: u8, b: u8)
    ensures
        gf_mul(a, b) == gf_mul(b, a),
{
    if a == 0 || b == 0 {
        lemma_mul_zero(a);
        lemma_mul_zero(b);
    } else {
        lemma_full_period(0, 0, a);
        lemma_full_period(0, 0, b);
        lemma_pow_g_add(dlog(a), dlog(b));
        lemma_pow_g_add(dlog(b), dlog(a));
        assert(dlog(a) + dlog(b) == dlog(b) + dlog(a));
    }
}

/// Multiplication distributes over addition (XOR) in its first argument.
pub proof fn lemma_mul_distrib_left(a: u8, b: u8, c: u8)
    ensures
        gf_mul(a ^ b, c) == gf_mul(a, c) ^ gf_mul(b, c),
{
    lemma_mul_comm(a ^ b, c);
    lemma_mul_comm(a, c);
    lemma_mul_comm(b, c);
    lemma_mul_distrib(c, a, b);
}

/// Multiplication is associative.
pub proof fn lemma_mul_assoc(a: u8, b: u8, c: u8)
    ensures
        gf_mul(gf_mul(a, b), c) == gf_mul(a, gf_mul(b, c)),
{
    if a == 0 || b == 0 || c == 0 {
        lemma_mul_zero(a);
        lemma_mul_zero(b);
        lemma_mul_zero(c);
        lemma_mul_zero(gf_mul(a, b));
        lemma_mul_zero(gf_mul(b, c));
    } else {
        lemma_full_period(0, 0, a);
        lemma_full_period(0, 0, b);
        lemma_full_period(0, 0, c);
        let (i, j, k) = (dlog(a), dlog(b), dlog(c));
        lemma_pow_g_add(i, j);
        lemma_pow_g_add(i + j, k);
        lemma_pow_g_add(j, k);
        lemma_pow_g_add(i, j + k);
        assert(i + j + k == i + (j + k));
    }
}

/// The field has no zero divisors.
pub proof fn lemma_no_zero_divisors(a: u8, b: u8)
    ensures
        gf_mul(a, b) == 0 <==> (a == 0 || b == 0),
{
    lemma_mul_zero(a);
    lemma_mul_zero(b);
    if a != 0 && b != 0 {
        lemma_full_period(0, 0, a);
        lemma_full_period(0, 0, b);
        lemma_pow_g_add(dlog(a), dlog(b));
        lemma_pow_g_period(dlog(a) + dlog(b));
    }
}

/// A nonzero factor can be cancelled.
pub proof fn lemma_mul_cancel(a: u8, b: u8, c: u8)
    requires
        a != 0,
        gf_mul(a, b) == gf_mul(a, c),
    ensures
        b == c,
{
    lemma_mul_distrib(a, b, c);
    assert(gf_mul(a, b) ^ gf_mul(a, c) == 0) by (bit_vector)
        requires
            gf_mul(a, b) == gf_mul(a, c),
    ;
    lemma_no_zero_divisors(a, b ^ c);
    assert(b ^ c == 0 ==> b == c) by (bit_vector);
}

/// Division undoes multiplication: whatever `r` satisfies `div`'s contract for the
/// dividend `a * b` and divisor `b != 0` (that is, `r * b == a * b`) is `a` itself, so
/// `div(mul(a, b), b) == a`.
pub proof fn lemma_div_undoes_mul(a: u8, b: u8, r: u8)
    requires
        b != 0,
        gf_mul(r, b) == gf_mul(a, b),
    ensures
        r == a,
{
    lemma_mul_comm(r, b);
    lemma_mul_comm(a, b);
    lemma_mul_cancel(b, r, a);
}

/// Every nonzero element has a multiplicative inverse.
pub proof fn lemma_inverse_exists(a: u8) -> (w: u8)
    requires
        a != 0,
    ensures
        gf_mul(a, w) == 1,
        w != 0,
{
    lemma_full_period(0, 0, a);
    let i = dlog(a);
    let w = pow_g((255 - i) as nat);
    lemma_pow_g_add(i, (255 - i) as nat);
    lemma_pow_g_period((255 - i) as nat);
    w
}

// ---------------------------------------------------------------------------
// Table-driven arithmetic.
// ---------------------------------------------------------------------------

/// `a * x` on the low nine bits of a `u16`: shift left, then reduce by 0x11D when bit 8 is set.
fn xtime(a: u16) -> (r: u16)
    ensures
        r == (if (a << 1u16) & 0x100u16 != 0 {
            (a << 1u16) ^ 0x11Du16
        } else {
            a << 1u16
        }),
        a < 256 ==> r < 256 && r as u8 == xt(a as u8),
{
    let s = a << 1u16;
    let r = if s & 0x100 != 0 {
        s ^ 0x11D
    } else {
        s
    };
    proof {
        assert(a < 256 ==> r < 256 && r as u8 == xt(a as u8)) by (bit_vector)
            requires
                s == a << 1u16,
                r == (if s & 0x100u16 != 0 { s ^ 0x11Du16 } else { s }),
        ;
    }
    r
}

/// The antilog table: `g^(i mod 255)` at every index `i < 510`, then two zero bytes.
pub open spec fn antilog_table() -> Seq<u8> {
    Seq::new(512, |i: int| if i < 510 { pow_g((i % 255) as nat) } else { 0u8 })
}

/// The log table: the discrete logarithm of every nonzero byte, and 0 at index 0.
pub open spec fn log_table() -> Seq<u8> {
    Seq::new(256, |a: int| if a == 0 { 0u8 } else { dlog(a as u8) as u8 })
}

/// Precomputed log/antilog tables for GF(2^8) with polynomial 0x11D and generator 2.
pub struct Gf256 {
    /// `exp[i] = g^(i mod 255)` for `i < 510`, so a sum of two logarithms indexes it directly.
    exp: [u8; 512],
    /// `log[a]` = discrete logarithm of `a` for `a != 0`.
    log: [u8; 256],
}

impl Gf256 {
    #[verifier::type_invariant]
    spec fn tables_wf(self) -> bool {
        &&& forall|i: int| 0 <= i < 510 ==> #[trigger] self.exp@[i] == pow_g((i % 255) as nat)
        &&& forall|a: int|
            1 <= a < 256 ==> #[trigger] self.log@[a] < 255 && pow_g(self.log@[a] as nat) == a as u8
    }

    /// The stored antilog table.
    pub closed spec fn exp_view(&self) -> Seq<u8> {
        self.exp@
    }

    /// The stored log table.
    pub closed spec fn log_view(&self) -> Seq<u8> {
        self.log@
    }

    /// Build the tables by walking the cyclic group `g^0, g^1, ...`.
    pub fn new() -> (f: Self)
        ensures
            f.exp_view() == antilog_table(),
            f.log_view() == log_table(),
    {
        let mut exp = [0u8; 512];
        let mut log = [0u8; 256];
        let mut x: u16 = 1;
        let mut i: usize = 0;
        while i < 255
            invariant
                i <= 255,
                x < 256,
                x as u8 == pow_g(i as nat),
                exp@.len() == 512,
                log@.len() == 256,
                exp@[510] == 0,
                exp@[511] == 0,
                log@[0] == 0,
                forall|j: int| 0 <= j < i ==> exp@[j] == pow_g(j as nat),
                forall|j: int| 0 <= j < i ==> log@[#[trigger] pow_g(j as nat) as int] == j,
            decreases 255 - i,
        {
            proof {
                lemma_pow_g_period(i as nat);
                assert forall|j: int| 0 <= j < i implies #[trigger] pow_g(j as nat) != pow_g(i as nat) by {
                    lemma_full_period(j as nat, i as nat, 0);
                }
            }
            exp[i] = x as u8;
            log[x as usize] = i as u8;
            x = xtime(x);
            i += 1;
        }
        let mut j: usize = 255;
        while j < 510
            invariant
                255 <= j <= 510,
                exp@.len() == 512,
                exp@[510] == 0,
                exp@[511] == 0,
                forall|k: int| 0 <= k < 255 ==> exp@[k] == pow_g(k as nat),
                forall|k: int| 255 <= k < j ==> exp@[k] == pow_g((k - 255) as nat),
            decreases 510 - j,
        {
            exp[j] = exp[j - 255];
            j += 1;
        }
        proof {
            assert forall|a: int| 1 <= a < 256 implies #[trigger] log@[a] < 255 && pow_g(
                log@[a] as nat,
            ) == a as u8 by {
                lemma_full_period(0, 0, a as u8);
                let w = dlog(a as u8);
                assert(w < 255 && pow_g(w) == a as u8);
                let wi = w as int;
                assert(0 <= wi < 255);
                assert(log@[pow_g(wi as nat) as int] == wi);
            }
            assert forall|k: int| 0 <= k < 510 implies #[trigger] exp@[k] == pow_g(
                (k % 255) as nat,
            ) by {
                if k >= 255 {
                    assert(k % 255 == k - 255);
                } else {
                    assert(k % 255 == k);
                }
            }
            assert(exp@ =~= antilog_table());
            assert forall|a: int| 0 <= a < 256 implies #[trigger] log@[a] == log_table()[a] by {
                if a != 0 {
                    lemma_full_period(0, 0, a as u8);
                    let w = dlog(a as u8);
                    assert(w < 255 && pow_g(w) == a as u8);
                    let wi = w as int;
                    assert(0 <= wi < 255);
                    assert(log@[pow_g(wi as nat) as int] == wi);
                }
            }
            assert(log@ =~= log_table());
        }
        Gf256 { exp, log }
    }

    /// Multiply two field elements via logarithms. `mul(0, _) == mul(_, 0) == 0`.
    pub fn mul(&self, a: u8, b: u8) -> (r: u8)
        ensures
            r == gf_mul(a, b),
    {
        proof {
            use_type_invariant(self);
            lemma_mul_zero(a);
            lemma_mul_zero(b);
        }
        if a == 0 || b == 0 {
            return 0;
        }
        let la = self.log[a as usize];
        let lb = self.log[b as usize];
        proof {
            assert(self.log@[a as int] == la);
            assert(self.log@[b as int] == lb);
            lemma_pow_g_add(la as nat, lb as nat);
            lemma_pow_g_period(la as nat + lb as nat);
        }
        self.exp[la as usize + lb as usize]
    }

    /// Multiplicative inverse of a nonzero element: `a^-1 = g^(255 - log a)`.
    pub fn inv(&self, a: u8) -> (r: u8)
        requires
            a != 0,
        ensures
            gf_mul(a, r) == 1,
    {
        proof {
            use_type_invariant(self);
        }
        let la = self.log[a as usize];
        proof {
            assert(self.log@[a as int] == la);
            lemma_pow_g_add(la as nat, (255 - la) as nat);
            lemma_pow_g_period(0);
            assert((255 - la) % 255 == (255 - la) as int || la == 0);
        }
        self.exp[255 - la as usize]
    }

    /// Divide `a / b` for `b != 0`; `0 / b == 0`.
    pub fn div(&self, a: u8, b: u8) -> (r: u8)
        requires
            a == 0 || b != 0,
        ensures
            a == 0 ==> r == 0,
            b != 0 ==> gf_mul(r, b) == a,
    {
        proof {
            use_type_invariant(self);
        }
        if a == 0 {
            proof {
                lemma_mul_zero(b);
            }
            return 0;
        }
        let la = self.log[a as usize];
        let lb = self.log[b as usize];
        let e = la as usize + 255 - lb as usize;
        proof {
            assert(self.log@[a as int] == la);
            assert(self.log@[b as int] == lb);
            lemma_pow_g_period(e as nat);
            lemma_pow_g_add(e as nat, lb as nat);
            lemma_pow_g_period(la as nat);
            assert(e + lb == la + 255);
        }
        self.exp[e]
    }

    /// `g^i`, the `i`-th power of the generator (exponent taken mod 255).
    pub fn exp_g(&self, i: usize) -> (r: u8)
        ensures
            r == pow_g((i % 255) as nat),
    {
        proof {
            use_type_invariant(self);
        }
        self.exp[i % 255]
    }
}

/// Addition (and subtraction) in GF(2^8): XOR.
pub fn add(a: u8, b: u8) -> (r: u8)
    ensures
        r == a ^ b,
{
    a ^ b
}

} // verus!
