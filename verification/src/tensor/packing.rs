//! Unpacking loses nothing: the codes of a block, packed again, are the block.
//!
//! Every byte of a block is written here as a function of the codes that it holds part of,
//! so that no code is read from the wrong byte, half or bit, and no byte is left unread.
use vstd::prelude::*;

use crate::bytes::law_low_bytes_come_first;
use crate::tensor::dequantize::{
    bit, block_at, block_code, d_at, half_at, high, is_term, kvalue, low, m_at, pair, scale_min,
    signed, split_nibble, unpacked, Dequantized, Term,
};
use crate::tensor::ggml::GgmlType;
use crate::tensor::half_float::{top_bit, two_to, widened};

verus! {

/// A number of two bytes, the low one first.
pub open spec fn two_bytes(lo: u8, hi: u8) -> int {
    lo + 256 * hi
}

/// A signed number as the byte that stores it.
pub open spec fn as_byte(v: int) -> int {
    if v < 0 {
        v + 256
    } else {
        v
    }
}

/// Two halves of a byte.
pub open spec fn halves(lo: int, hi: int) -> int {
    lo + 16 * hi
}

/// Four fields of two bits.
pub open spec fn quarters(a: int, b: int, c: int, d: int) -> int {
    a + 4 * b + 16 * c + 64 * d
}

/// One bit for each of eight elements.
pub open spec fn mask(f: spec_fn(int) -> int) -> int {
    f(0) + 2 * f(1) + 4 * f(2) + 8 * f(3) + 16 * f(4) + 32 * f(5) + 64 * f(6) + 128 * f(7)
}

#[verifier::spinoff_prover]
#[verifier::rlimit(40)]
proof fn lemma_byte_of_bits(b: u8)
    ensures
        b == bit(b, 0) + 2 * bit(b, 1) + 4 * bit(b, 2) + 8 * bit(b, 3) + 16 * bit(b, 4) + 32 * bit(
            b,
            5,
        ) + 64 * bit(b, 6) + 128 * bit(b, 7),
        forall|k: int| 0 <= k < 8 ==> 0 <= #[trigger] bit(b, k) <= 1,
        b == pair(b, 0) + 4 * pair(b, 1) + 16 * pair(b, 2) + 64 * pair(b, 3),
        forall|k: int| 0 <= k < 4 ==> 0 <= #[trigger] pair(b, k) <= 3,
{
}

/// Q8_0: every byte behind the factor is the signed code of one element.
pub proof fn law_q8_0_packs(b: Seq<u8>, k: int)
    requires
        b.len() == 34,
        0 <= k < 32,
    ensures
        ({
            let c = block_code(GgmlType::Q8_0, b, k);
            &&& b[2 + k] == as_byte(c.q as int)
            &&& c.scale == 1 && c.offset is None
        }),
{
}

/// Q4_0: every byte behind the factor holds two neighbouring elements, the even one in its
/// low half, each eight higher than its code.
pub proof fn law_q4_0_packs(b: Seq<u8>, k: int)
    requires
        b.len() == 18,
        0 <= k < 16,
    ensures
        ({
            let (x, y) = (
                block_code(GgmlType::Q4_0, b, 2 * k),
                block_code(GgmlType::Q4_0, b, 2 * k + 1),
            );
            &&& b[2 + k] == halves(x.q + 8, y.q + 8)
            &&& x.scale == 1 && x.offset is None
            &&& y.scale == 1 && y.offset is None
        }),
{
}

proof fn lemma_bit_range(b: u8, k: int)
    requires
        0 <= k < 8,
    ensures
        0 <= bit(b, k) <= 1,
{
    lemma_byte_of_bits(b);
}

proof fn lemma_pair_range(b: u8, k: int)
    requires
        0 <= k < 4,
    ensures
        0 <= pair(b, k) <= 3,
{
}

proof fn lemma_five_bits(n: int, h: int)
    requires
        0 <= n < 16,
        0 <= h <= 1,
    ensures
        (n + 16 * h) % 16 == n,
        (n + 16 * h) / 16 == h,
{
}

proof fn lemma_q5_0(b: Seq<u8>, j: int)
    requires
        0 <= j < 32,
    ensures
        ({
            let c = block_code(GgmlType::Q5_0, b, j);
            &&& (c.q + 16) % 16 == split_nibble(b, 6, j)
            &&& (c.q + 16) / 16 == bit(b[2 + j / 8], j % 8)
            &&& c.scale == 1 && c.offset is None
        }),
{
    lemma_bit_range(b[2 + j / 8], j % 8);
    lemma_five_bits(split_nibble(b, 6, j), bit(b[2 + j / 8], j % 8));
}

/// Q5_0: byte `k` behind factor and fifth bits holds the low four bits of elements `k` and
/// `k + 16`. Codes are centred on 16.
pub proof fn law_q5_0_packs(b: Seq<u8>, k: int)
    requires
        b.len() == 22,
        0 <= k < 16,
    ensures
        ({
            let (x, y) = (
                block_code(GgmlType::Q5_0, b, k),
                block_code(GgmlType::Q5_0, b, k + 16),
            );
            &&& b[6 + k] == halves((x.q + 16) % 16, (y.q + 16) % 16)
            &&& x.scale == 1 && x.offset is None
            &&& y.scale == 1 && y.offset is None
        }),
{
    lemma_q5_0(b, k);
    lemma_q5_0(b, k + 16);
}

proof fn lemma_q5_0_bit(b: Seq<u8>, k: int, i: int)
    requires
        0 <= k < 4,
        0 <= i < 8,
    ensures
        (block_code(GgmlType::Q5_0, b, 8 * k + i).q + 16) / 16 == bit(b[2 + k], i),
{
    lemma_q5_0(b, 8 * k + i);
    assert((8 * k + i) / 8 == k && (8 * k + i) % 8 == i);
}

/// Q5_0: bit `i` of mask byte `k` is the fifth bit of element `8k + i`.
#[verifier::spinoff_prover]
pub proof fn law_q5_0_packs_fifth_bits(b: Seq<u8>, k: int)
    requires
        b.len() == 22,
        0 <= k < 4,
    ensures
        b[2 + k] == mask(|i: int| (block_code(GgmlType::Q5_0, b, 8 * k + i).q + 16) / 16),
{
    lemma_byte_of_bits(b[2 + k]);
    lemma_q5_0_bit(b, k, 0);
    lemma_q5_0_bit(b, k, 1);
    lemma_q5_0_bit(b, k, 2);
    lemma_q5_0_bit(b, k, 3);
    lemma_q5_0_bit(b, k, 4);
    lemma_q5_0_bit(b, k, 5);
    lemma_q5_0_bit(b, k, 6);
    lemma_q5_0_bit(b, k, 7);
}

proof fn lemma_q5_1(b: Seq<u8>, j: int)
    requires
        0 <= j < 32,
    ensures
        ({
            let c = block_code(GgmlType::Q5_1, b, j);
            &&& c.q as int % 16 == split_nibble(b, 8, j)
            &&& c.q as int / 16 == bit(b[4 + j / 8], j % 8)
            &&& c.scale == 1 && c.offset == Some(1i32)
        }),
{
    lemma_bit_range(b[4 + j / 8], j % 8);
    lemma_five_bits(split_nibble(b, 8, j), bit(b[4 + j / 8], j % 8));
}

/// Q5_1: as Q5_0 behind two factors, with codes from zero on and the offset once.
pub proof fn law_q5_1_packs(b: Seq<u8>, k: int)
    requires
        b.len() == 24,
        0 <= k < 16,
    ensures
        ({
            let (x, y) = (
                block_code(GgmlType::Q5_1, b, k),
                block_code(GgmlType::Q5_1, b, k + 16),
            );
            &&& b[8 + k] == halves(x.q as int % 16, y.q as int % 16)
            &&& x.scale == 1 && x.offset == Some(1i32)
            &&& y.scale == 1 && y.offset == Some(1i32)
        }),
{
    lemma_q5_1(b, k);
    lemma_q5_1(b, k + 16);
}

proof fn lemma_q5_1_bit(b: Seq<u8>, k: int, i: int)
    requires
        0 <= k < 4,
        0 <= i < 8,
    ensures
        block_code(GgmlType::Q5_1, b, 8 * k + i).q as int / 16 == bit(b[4 + k], i),
{
    lemma_q5_1(b, 8 * k + i);
    assert((8 * k + i) / 8 == k && (8 * k + i) % 8 == i);
}

/// Q5_1: bit `i` of mask byte `k` is the fifth bit of element `8k + i`.
#[verifier::spinoff_prover]
pub proof fn law_q5_1_packs_fifth_bits(b: Seq<u8>, k: int)
    requires
        b.len() == 24,
        0 <= k < 4,
    ensures
        b[4 + k] == mask(|i: int| block_code(GgmlType::Q5_1, b, 8 * k + i).q as int / 16),
{
    lemma_byte_of_bits(b[4 + k]);
    lemma_q5_1_bit(b, k, 0);
    lemma_q5_1_bit(b, k, 1);
    lemma_q5_1_bit(b, k, 2);
    lemma_q5_1_bit(b, k, 3);
    lemma_q5_1_bit(b, k, 4);
    lemma_q5_1_bit(b, k, 5);
    lemma_q5_1_bit(b, k, 6);
    lemma_q5_1_bit(b, k, 7);
}

/// The rank of a value in the codebook of IQ4_NL: how many of its values are below.
pub open spec fn rank(v: int) -> int {
    (if v > -127 { 1int } else { 0 }) + (if v > -104 { 1int } else { 0 }) + (if v > -83 { 1int } else {
        0
    }) + (if v > -65 { 1int } else { 0 }) + (if v > -49 { 1int } else { 0 }) + (if v > -35 {
        1int
    } else {
        0
    }) + (if v > -22 { 1int } else { 0 }) + (if v > -10 { 1int } else { 0 }) + (if v > 1 {
        1int
    } else {
        0
    }) + (if v > 13 { 1int } else { 0 }) + (if v > 25 { 1int } else { 0 }) + (if v > 38 {
        1int
    } else {
        0
    }) + (if v > 53 { 1int } else { 0 }) + (if v > 69 { 1int } else { 0 }) + (if v > 89 {
        1int
    } else {
        0
    }) + (if v > 113 { 1int } else { 0 })
}

/// A value of the codebook of IQ4_NL.
pub open spec fn in_codebook(v: int) -> bool {
    ||| v == -127 || v == -104 || v == -83 || v == -65
    ||| v == -49 || v == -35 || v == -22 || v == -10
    ||| v == 1 || v == 13 || v == 25 || v == 38
    ||| v == 53 || v == 69 || v == 89 || v == 113
}

proof fn lemma_codebook(n: int)
    requires
        0 <= n < 16,
    ensures
        rank(kvalue(n)) == n,
        in_codebook(kvalue(n)),
{
}

/// IQ4_NL: byte `k` behind the factor holds elements `k` and `k + 16`, each as the rank of
/// its code in the codebook.
pub proof fn law_iq4_nl_packs(b: Seq<u8>, k: int)
    requires
        b.len() == 18,
        0 <= k < 16,
    ensures
        ({
            let (x, y) = (
                block_code(GgmlType::IQ4NL, b, k),
                block_code(GgmlType::IQ4NL, b, k + 16),
            );
            &&& b[2 + k] == halves(rank(x.q as int), rank(y.q as int))
            &&& in_codebook(x.q as int) && in_codebook(y.q as int)
            &&& x.scale == 1 && x.offset is None
            &&& y.scale == 1 && y.offset is None
        }),
{
    lemma_codebook(low(b[2 + k]));
    lemma_codebook(high(b[2 + k]));
}

/// The scales and minima of eight runs, six bits each, in twelve bytes from `at` on: those
/// of the first four runs in the low six bits of the first eight bytes, the low four bits of
/// the others in the last four, and their upper two bits above the first.
pub open spec fn packs_scales(
    b: Seq<u8>,
    at: int,
    k: int,
    scale: spec_fn(int) -> int,
    min: spec_fn(int) -> int,
) -> bool {
    &&& b[at + k] == scale(k) + 64 * (scale(k + 4) / 16)
    &&& b[at + 4 + k] == min(k) + 64 * (min(k + 4) / 16)
    &&& b[at + 8 + k] == halves(scale(k + 4) % 16, min(k + 4) % 16)
}

proof fn lemma_runs(j: int, run: int, l: int)
    requires
        0 <= l < 32,
        j == 32 * run + l,
    ensures
        j / 32 == run,
        j % 32 == l,
{
    vstd::arithmetic::div_mod::lemma_fundamental_div_mod_converse(j, 32, run, l);
}

proof fn lemma_scales(b: Seq<u8>, k: int)
    requires
        b.len() >= 16,
        0 <= k < 4,
    ensures
        ({
            let s = b.subrange(4, 16);
            &&& packs_scales(b, 4, k, |r: int| scale_min(r, s).0, |r: int| scale_min(r, s).1)
            &&& 0 <= scale_min(k, s).0 < 64 && 0 <= scale_min(k, s).1 < 64
            &&& 0 <= scale_min(k + 4, s).0 < 64 && 0 <= scale_min(k + 4, s).1 < 64
        }),
{
    let s = b.subrange(4, 16);
    assert(s[k] == b[4 + k] && s[k + 4] == b[8 + k] && s[k + 8] == b[12 + k]);
    let (x, y, z) = (b[4 + k], b[8 + k], b[12 + k]);
    assert(scale_min(k, s) == (x as int % 64, y as int % 64));
    assert(scale_min(k + 4, s) == (
        low(z) + 16 * (x as int / 64),
        high(z) + 16 * (y as int / 64),
    ));
    lemma_upper(low(z), x as int / 64);
    lemma_upper(high(z), y as int / 64);
}

proof fn lemma_upper(n: int, h: int)
    requires
        0 <= n < 16,
        0 <= h < 4,
    ensures
        (n + 16 * h) % 16 == n,
        (n + 16 * h) / 16 == h,
{
    vstd::arithmetic::div_mod::lemma_fundamental_div_mod_converse(n + 16 * h, 16, h, n);
}

proof fn lemma_scale_range(b: Seq<u8>, run: int)
    requires
        b.len() >= 16,
        0 <= run < 8,
    ensures
        0 <= scale_min(run, b.subrange(4, 16)).0 < 64,
        0 <= scale_min(run, b.subrange(4, 16)).1 < 64,
{
    if run < 4 {
        lemma_scales(b, run);
    } else {
        lemma_scales(b, run - 4);
    }
}

proof fn lemma_q4_k(b: Seq<u8>, run: int, l: int)
    requires
        b.len() == 144,
        0 <= run < 8,
        0 <= l < 32,
    ensures
        ({
            let c = block_code(GgmlType::Q4K, b, 32 * run + l);
            let byte = b[16 + run / 2 * 32 + l];
            let sm = scale_min(run, b.subrange(4, 16));
            &&& c.q == if run % 2 == 0 {
                low(byte)
            } else {
                high(byte)
            }
            &&& c.scale == sm.0
            &&& c.offset is Some
            &&& -(c.offset->0) == sm.1
        }),
{
    lemma_runs(32 * run + l, run, l);
    lemma_scale_range(b, run);
}

/// Q4_K: 64 elements share 32 bytes, the first half of them in the low halves.
#[verifier::spinoff_prover]
pub proof fn law_q4_k_packs(b: Seq<u8>, p: int, l: int)
    requires
        b.len() == 144,
        0 <= p < 4,
        0 <= l < 32,
    ensures
        b[16 + 32 * p + l] == halves(
            block_code(GgmlType::Q4K, b, 64 * p + l).q as int,
            block_code(GgmlType::Q4K, b, 64 * p + 32 + l).q as int,
        ),
{
    lemma_q4_k(b, 2 * p, l);
    lemma_q4_k(b, 2 * p + 1, l);
    assert(32 * (2 * p) + l == 64 * p + l && 32 * (2 * p + 1) + l == 64 * p + 32 + l);
    assert(2 * p / 2 == p && (2 * p + 1) / 2 == p);
}

/// Q4_K: every element of a run has the run's scale and minimum, which are packed in front.
#[verifier::spinoff_prover]
pub proof fn law_q4_k_packs_scales(b: Seq<u8>, k: int, l: int)
    requires
        b.len() == 144,
        0 <= k < 4,
        0 <= l < 32,
    ensures
        packs_scales(
            b,
            4,
            k,
            |r: int| block_code(GgmlType::Q4K, b, 32 * r + l).scale as int,
            |r: int| -(block_code(GgmlType::Q4K, b, 32 * r + l).offset->0),
        ),
        block_code(GgmlType::Q4K, b, 32 * k + l).offset is Some,
        block_code(GgmlType::Q4K, b, 32 * (k + 4) + l).offset is Some,
{
    lemma_scales(b, k);
    lemma_q4_k(b, k, l);
    lemma_q4_k(b, k + 4, l);
}

proof fn lemma_q5_k(b: Seq<u8>, run: int, l: int)
    requires
        b.len() == 176,
        0 <= run < 8,
        0 <= l < 32,
    ensures
        ({
            let c = block_code(GgmlType::Q5K, b, 32 * run + l);
            let byte = b[48 + run / 2 * 32 + l];
            let sm = scale_min(run, b.subrange(4, 16));
            &&& c.q as int % 16 == if run % 2 == 0 {
                low(byte)
            } else {
                high(byte)
            }
            &&& c.q as int / 16 == bit(b[16 + l], run)
            &&& c.scale == sm.0
            &&& c.offset is Some
            &&& -(c.offset->0) == sm.1
        }),
{
    lemma_runs(32 * run + l, run, l);
    lemma_scale_range(b, run);
    lemma_bit_range(b[16 + l], run);
    let byte = b[48 + run / 2 * 32 + l];
    lemma_five_bits(low(byte), bit(b[16 + l], run));
    lemma_five_bits(high(byte), bit(b[16 + l], run));
}

/// Q5_K: as Q4_K for the low four bits.
#[verifier::spinoff_prover]
pub proof fn law_q5_k_packs(b: Seq<u8>, p: int, l: int)
    requires
        b.len() == 176,
        0 <= p < 4,
        0 <= l < 32,
    ensures
        b[48 + 32 * p + l] == halves(
            block_code(GgmlType::Q5K, b, 64 * p + l).q as int % 16,
            block_code(GgmlType::Q5K, b, 64 * p + 32 + l).q as int % 16,
        ),
{
    lemma_q5_k(b, 2 * p, l);
    lemma_q5_k(b, 2 * p + 1, l);
    assert(32 * (2 * p) + l == 64 * p + l && 32 * (2 * p + 1) + l == 64 * p + 32 + l);
    assert(2 * p / 2 == p && (2 * p + 1) / 2 == p);
}

/// Q5_K: bit `r` of mask byte `l` is the fifth bit of element `l` of run `r`.
#[verifier::spinoff_prover]
pub proof fn law_q5_k_packs_fifth_bits(b: Seq<u8>, l: int)
    requires
        b.len() == 176,
        0 <= l < 32,
    ensures
        b[16 + l] == mask(|r: int| block_code(GgmlType::Q5K, b, 32 * r + l).q as int / 16),
{
    lemma_byte_of_bits(b[16 + l]);
    lemma_q5_k(b, 0, l);
    lemma_q5_k(b, 1, l);
    lemma_q5_k(b, 2, l);
    lemma_q5_k(b, 3, l);
    lemma_q5_k(b, 4, l);
    lemma_q5_k(b, 5, l);
    lemma_q5_k(b, 6, l);
    lemma_q5_k(b, 7, l);
}

/// Q5_K: scales and minima are packed as in Q4_K.
#[verifier::spinoff_prover]
pub proof fn law_q5_k_packs_scales(b: Seq<u8>, k: int, l: int)
    requires
        b.len() == 176,
        0 <= k < 4,
        0 <= l < 32,
    ensures
        packs_scales(
            b,
            4,
            k,
            |r: int| block_code(GgmlType::Q5K, b, 32 * r + l).scale as int,
            |r: int| -(block_code(GgmlType::Q5K, b, 32 * r + l).offset->0),
        ),
        block_code(GgmlType::Q5K, b, 32 * k + l).offset is Some,
        block_code(GgmlType::Q5K, b, 32 * (k + 4) + l).offset is Some,
{
    lemma_scales(b, k);
    lemma_q5_k(b, k, l);
    lemma_q5_k(b, k + 4, l);
}

proof fn lemma_q6_k(b: Seq<u8>, g: int, run: int, l: int)
    requires
        b.len() == 210,
        0 <= g < 2,
        0 <= run < 4,
        0 <= l < 32,
    ensures
        ({
            let c = block_code(GgmlType::Q6K, b, 128 * g + 32 * run + l);
            let byte = b[g * 64 + run % 2 * 32 + l];
            &&& (c.q + 32) % 16 == if run < 2 {
                low(byte)
            } else {
                high(byte)
            }
            &&& (c.q + 32) / 16 == pair(b[128 + g * 32 + l], run)
            &&& c.scale == signed(b[192 + g * 8 + run * 2 + l / 16])
            &&& c.offset is None
        }),
{
    lemma_planes(128 * g + 32 * run + l, g, run, l);
    lemma_byte_of_bits(b[128 + g * 32 + l]);
    let byte = b[g * 64 + run % 2 * 32 + l];
    lemma_upper(low(byte), pair(b[128 + g * 32 + l], run));
    lemma_upper(high(byte), pair(b[128 + g * 32 + l], run));
}

/// Q6_K: of 128 elements, the low four bits of the first 64 are the low halves of 64 bytes,
/// and those of the others the high halves. Codes are centred on 32.
#[verifier::spinoff_prover]
pub proof fn law_q6_k_packs(b: Seq<u8>, g: int, h: int, l: int)
    requires
        b.len() == 210,
        0 <= g < 2,
        0 <= h < 2,
        0 <= l < 32,
    ensures
        b[64 * g + 32 * h + l] == halves(
            (block_code(GgmlType::Q6K, b, 128 * g + 32 * h + l).q + 32) % 16,
            (block_code(GgmlType::Q6K, b, 128 * g + 64 + 32 * h + l).q + 32) % 16,
        ),
{
    lemma_q6_k(b, g, h, l);
    lemma_q6_k(b, g, h + 2, l);
    assert(128 * g + 32 * (h + 2) + l == 128 * g + 64 + 32 * h + l);
    assert((h + 2) % 2 == h && h % 2 == h);
}

/// Q6_K: the upper two bits of the four runs of 32 are the quarters of 32 bytes.
#[verifier::spinoff_prover]
pub proof fn law_q6_k_packs_upper_bits(b: Seq<u8>, g: int, l: int)
    requires
        b.len() == 210,
        0 <= g < 2,
        0 <= l < 32,
    ensures
        b[128 + 32 * g + l] == quarters(
            (block_code(GgmlType::Q6K, b, 128 * g + l).q + 32) / 16,
            (block_code(GgmlType::Q6K, b, 128 * g + 32 + l).q + 32) / 16,
            (block_code(GgmlType::Q6K, b, 128 * g + 64 + l).q + 32) / 16,
            (block_code(GgmlType::Q6K, b, 128 * g + 96 + l).q + 32) / 16,
        ),
{
    lemma_q6_k(b, g, 0, l);
    lemma_q6_k(b, g, 1, l);
    lemma_q6_k(b, g, 2, l);
    lemma_q6_k(b, g, 3, l);
    lemma_quarters_of(
        b[128 + 32 * g + l],
        (block_code(GgmlType::Q6K, b, 128 * g + l).q + 32) / 16,
        (block_code(GgmlType::Q6K, b, 128 * g + 32 + l).q + 32) / 16,
        (block_code(GgmlType::Q6K, b, 128 * g + 64 + l).q + 32) / 16,
        (block_code(GgmlType::Q6K, b, 128 * g + 96 + l).q + 32) / 16,
    );
}

/// Q6_K: every 16 elements have a signed scale, in order.
#[verifier::spinoff_prover]
pub proof fn law_q6_k_packs_scales(b: Seq<u8>, j: int)
    requires
        b.len() == 210,
        0 <= j < 256,
    ensures
        b[192 + j / 16] == as_byte(block_code(GgmlType::Q6K, b, j).scale as int),
        block_code(GgmlType::Q6K, b, j).offset is None,
{
    lemma_sixteenths(j);
    lemma_signed_byte(b[192 + j / 16]);
}

proof fn lemma_sixteenths(j: int)
    requires
        0 <= j < 256,
    ensures
        j / 128 * 8 + j % 128 / 32 * 2 + j % 32 / 16 == j / 16,
{
    let (h, x) = (j / 16, j % 16);
    let t = h % 8;
    assert(j == 16 * h + x);
    assert(h == 8 * (h / 8) + t);
    vstd::arithmetic::div_mod::lemma_fundamental_div_mod_converse(j, 128, h / 8, 16 * t + x);
    vstd::arithmetic::div_mod::lemma_fundamental_div_mod_converse(
        16 * t + x,
        32,
        t / 2,
        16 * (t % 2) + x,
    );
    vstd::arithmetic::div_mod::lemma_fundamental_div_mod_converse(j, 32, h / 2, 16 * (h % 2) + x);
    vstd::arithmetic::div_mod::lemma_fundamental_div_mod_converse(16 * (h % 2) + x, 16, h % 2, x);
}

proof fn lemma_signed_byte(x: u8)
    ensures
        as_byte(signed(x)) == x,
        -128 <= signed(x) < 128,
{
}

proof fn lemma_planes(j: int, g: int, run: int, l: int)
    requires
        0 <= run < 4,
        0 <= l < 32,
        j == 128 * g + 32 * run + l,
    ensures
        j / 128 == g,
        j % 128 / 32 == run,
        j % 32 == l,
{
    vstd::arithmetic::div_mod::lemma_fundamental_div_mod_converse(j, 128, g, 32 * run + l);
    vstd::arithmetic::div_mod::lemma_fundamental_div_mod_converse(32 * run + l, 32, run, l);
    vstd::arithmetic::div_mod::lemma_fundamental_div_mod_converse(j, 32, 4 * g + run, l);
}

/// Q2_K: of 128 elements, the four runs of 32 are the quarters of 32 bytes.
#[verifier::spinoff_prover]
pub proof fn law_q2_k_packs(b: Seq<u8>, g: int, l: int)
    requires
        b.len() == 84,
        0 <= g < 2,
        0 <= l < 32,
    ensures
        b[16 + 32 * g + l] == quarters(
            block_code(GgmlType::Q2K, b, 128 * g + l).q as int,
            block_code(GgmlType::Q2K, b, 128 * g + 32 + l).q as int,
            block_code(GgmlType::Q2K, b, 128 * g + 64 + l).q as int,
            block_code(GgmlType::Q2K, b, 128 * g + 96 + l).q as int,
        ),
{
    lemma_byte_of_bits(b[16 + 32 * g + l]);
    lemma_planes(128 * g + l, g, 0, l);
    lemma_planes(128 * g + 32 + l, g, 1, l);
    lemma_planes(128 * g + 64 + l, g, 2, l);
    lemma_planes(128 * g + 96 + l, g, 3, l);
}

/// Q2_K: every 16 elements have a byte of a scale and, in its high half, a minimum.
#[verifier::spinoff_prover]
pub proof fn law_q2_k_packs_scales(b: Seq<u8>, j: int)
    requires
        b.len() == 84,
        0 <= j < 256,
    ensures
        ({
            let c = block_code(GgmlType::Q2K, b, j);
            c.offset is Some && b[j / 16] == halves(c.scale as int, -(c.offset->0))
        }),
{
}

proof fn lemma_signed_quarter(p: int, h: int)
    requires
        0 <= p < 4,
        0 <= h <= 1,
    ensures
        ({
            let q = p - (if h == 1 {
                0int
            } else {
                4
            });
            &&& q % 4 == p
            &&& (q >= 0) == (h == 1)
            &&& -4 <= q < 4
        }),
{
}

proof fn lemma_q3_k(b: Seq<u8>, g: int, run: int, l: int)
    requires
        b.len() == 110,
        0 <= g < 2,
        0 <= run < 4,
        0 <= l < 32,
    ensures
        ({
            let c = block_code(GgmlType::Q3K, b, 128 * g + 32 * run + l);
            &&& c.q as int % 4 == pair(b[32 + g * 32 + l], run)
            &&& (if c.q >= 0 {
                1int
            } else {
                0
            }) == bit(b[l], 4 * g + run)
            &&& c.offset is None
        }),
{
    let j = 128 * g + 32 * run + l;
    lemma_planes(j, g, run, l);
    lemma_runs(j, 4 * g + run, l);
    let p = pair(b[32 + g * 32 + l], run);
    let h = bit(b[l], 4 * g + run);
    lemma_pair_range(b[32 + g * 32 + l], run);
    lemma_bit_range(b[l], 4 * g + run);
    lemma_signed_quarter(p, h);
    let c = block_code(GgmlType::Q3K, b, j);
    assert(c.q == p - (if h == 1 {
        0int
    } else {
        4
    }));
}

/// Q3_K: quarters as in Q2_K for the low two bits.
#[verifier::spinoff_prover]
pub proof fn law_q3_k_packs(b: Seq<u8>, g: int, l: int)
    requires
        b.len() == 110,
        0 <= g < 2,
        0 <= l < 32,
    ensures
        b[32 + 32 * g + l] == quarters(
            block_code(GgmlType::Q3K, b, 128 * g + l).q as int % 4,
            block_code(GgmlType::Q3K, b, 128 * g + 32 + l).q as int % 4,
            block_code(GgmlType::Q3K, b, 128 * g + 64 + l).q as int % 4,
            block_code(GgmlType::Q3K, b, 128 * g + 96 + l).q as int % 4,
        ),
{
    lemma_byte_of_bits(b[32 + 32 * g + l]);
    lemma_q3_k(b, g, 0, l);
    lemma_q3_k(b, g, 1, l);
    lemma_q3_k(b, g, 2, l);
    lemma_q3_k(b, g, 3, l);
}

/// Q3_K: bit `r` of mask byte `l` says that element `l` of run `r` is not negative.
#[verifier::spinoff_prover]
pub proof fn law_q3_k_packs_signs(b: Seq<u8>, l: int)
    requires
        b.len() == 110,
        0 <= l < 32,
    ensures
        b[l] == mask(
            |r: int|
                if block_code(GgmlType::Q3K, b, 32 * r + l).q >= 0 {
                    1
                } else {
                    0
                },
        ),
{
    lemma_byte_of_bits(b[l]);
    lemma_q3_k(b, 0, 0, l);
    lemma_q3_k(b, 0, 1, l);
    lemma_q3_k(b, 0, 2, l);
    lemma_q3_k(b, 0, 3, l);
    lemma_q3_k(b, 1, 0, l);
    lemma_q3_k(b, 1, 1, l);
    lemma_q3_k(b, 1, 2, l);
    lemma_q3_k(b, 1, 3, l);
}

/// Q3_K: every element of 16 has their scale. The scales, 32 higher, have their low four
/// bits in the halves of eight bytes.
#[verifier::spinoff_prover]
pub proof fn law_q3_k_packs_scales(b: Seq<u8>, i: int, l: int)
    requires
        b.len() == 110,
        0 <= i < 8,
        0 <= l < 16,
    ensures
        b[96 + i] == halves(q3_scale_at(b, i, l) % 16, q3_scale_at(b, i + 8, l) % 16),
        block_code(GgmlType::Q3K, b, 16 * i + l).offset is None,
        block_code(GgmlType::Q3K, b, 16 * (i + 8) + l).offset is None,
{
    lemma_q3_scale(b, i, l);
    lemma_q3_scale(b, i + 8, l);
    lemma_byte_of_bits(b[104 + i % 4]);
    lemma_upper(low(b[96 + i]), pair(b[104 + i % 4], i / 4));
    lemma_upper(high(b[96 + i]), pair(b[104 + (i + 8) % 4], (i + 8) / 4));
}

/// Q3_K: the upper two bits of the scales are the quarters of four bytes.
#[verifier::spinoff_prover]
pub proof fn law_q3_k_packs_upper_scale_bits(b: Seq<u8>, i: int, l: int)
    requires
        b.len() == 110,
        0 <= i < 4,
        0 <= l < 16,
    ensures
        b[104 + i] == quarters(
            q3_scale_at(b, i, l) / 16,
            q3_scale_at(b, i + 4, l) / 16,
            q3_scale_at(b, i + 8, l) / 16,
            q3_scale_at(b, i + 12, l) / 16,
        ),
{
    lemma_q3_upper(b, i, 0, l);
    lemma_q3_upper(b, i, 1, l);
    lemma_q3_upper(b, i, 2, l);
    lemma_q3_upper(b, i, 3, l);
    lemma_quarters_of(
        b[104 + i],
        q3_scale_at(b, i, l) / 16,
        q3_scale_at(b, i + 4, l) / 16,
        q3_scale_at(b, i + 8, l) / 16,
        q3_scale_at(b, i + 12, l) / 16,
    );
}

proof fn lemma_quarters_of(byte: u8, p: int, q: int, r: int, s: int)
    requires
        p == pair(byte, 0),
        q == pair(byte, 1),
        r == pair(byte, 2),
        s == pair(byte, 3),
    ensures
        byte == quarters(p, q, r, s),
{
    lemma_byte_of_bits(byte);
}

proof fn lemma_q3_upper(b: Seq<u8>, i: int, k: int, l: int)
    requires
        b.len() == 110,
        0 <= i < 4,
        0 <= k < 4,
        0 <= l < 16,
    ensures
        q3_scale_at(b, i + 4 * k, l) / 16 == pair(b[104 + i], k),
{
    let at = i + 4 * k;
    lemma_q3_scale(b, at, l);
    assert(at % 4 == i && at / 4 == k);
    lemma_pair_range(b[104 + i], k);
    lemma_upper(
        if at < 8 {
            low(b[96 + at])
        } else {
            high(b[88 + at])
        },
        pair(b[104 + i], k),
    );
}

/// The scale, 32 higher, of element `l` of the `i`th 16 elements in Q3_K.
pub open spec fn q3_scale_at(b: Seq<u8>, i: int, l: int) -> int {
    block_code(GgmlType::Q3K, b, 16 * i + l).scale + 32
}

proof fn lemma_q3_scale(b: Seq<u8>, i: int, l: int)
    requires
        b.len() == 110,
        0 <= i < 16,
        0 <= l < 16,
    ensures
        q3_scale_at(b, i, l) == (if i < 8 {
            low(b[96 + i])
        } else {
            high(b[88 + i])
        }) + 16 * pair(b[104 + i % 4], i / 4),
{
    let s = b.subrange(96, 108);
    assert((16 * i + l) / 16 == i);
    assert(s[8 + i % 4] == b[104 + i % 4]);
    lemma_byte_of_bits(b[104 + i % 4]);
    if i < 8 {
        assert(s[i] == b[96 + i]);
    } else {
        assert(s[i - 8] == b[88 + i]);
    }
}

// ── Factors, blocks and plain values ─────────────────────────────────────────

/// The bytes of a block, in bits: the factors, the scales and minima, and as many bits for
/// each element as the format's name says.
pub proof fn law_blocks_hold_their_bits(ty: GgmlType)
    requires
        ty.readable(),
    ensures
        ({
            let n = ty.spec_block_size();
            let bits = 8 * ty.spec_type_size();
            match ty {
                GgmlType::F32 => n == 1 && bits == 32,
                GgmlType::F16 | GgmlType::BF16 => n == 1 && bits == 16,
                GgmlType::Q8_0 => n == 32 && bits == 16 + 8 * n,
                GgmlType::Q4_0 => n == 32 && bits == 16 + 4 * n,
                GgmlType::IQ4NL => n == 32 && bits == 16 + 4 * n,
                GgmlType::Q5_0 => n == 32 && bits == 16 + 5 * n,
                GgmlType::Q5_1 => n == 32 && bits == 2 * 16 + 5 * n,
                GgmlType::Q4K => n == 256 && bits == 2 * 16 + 8 * 12 + 4 * n,
                GgmlType::Q5K => n == 256 && bits == 2 * 16 + 8 * 12 + 5 * n,
                GgmlType::Q6K => n == 256 && bits == 16 + 16 * 8 + 6 * n,
                GgmlType::Q2K => n == 256 && bits == 2 * 16 + 16 * 8 + 2 * n,
                _ => n == 256 && bits == 16 + 16 * 6 + 3 * n,
            }
        }),
{
}

/// The factors of an element are those of its block, two bytes each: in front, but at the
/// end in Q6_K, Q2_K and Q3_K, with the offset's behind the scale's.
pub proof fn law_factors_are_where_they_are_stored(ty: GgmlType, b: Seq<u8>, j: int, t: Term)
    requires
        !ty.is_plain(),
        ty.readable(),
        b.len() == ty.spec_type_size(),
        is_term(ty, b, j, t),
    ensures
        ({
            let n = b.len() as int;
            let two = ty == GgmlType::Q5_1 || ty == GgmlType::Q4K || ty == GgmlType::Q5K || ty
                == GgmlType::Q2K;
            let at = if ty == GgmlType::Q6K || ty == GgmlType::Q3K {
                n - 2
            } else if ty == GgmlType::Q2K {
                n - 4
            } else {
                0
            };
            &&& t.d == widened(two_bytes(b[at], b[at + 1]) as u16)
            &&& two ==> t.m == widened(two_bytes(b[at + 2], b[at + 3]) as u16)
            &&& !two ==> t.m == 0
        }),
{
    lemma_half(b, d_at(ty));
    match m_at(ty) {
        Some(at) => {
            lemma_half(b, at);
        },
        None => {},
    }
}

proof fn lemma_half(b: Seq<u8>, at: int)
    requires
        0 <= at,
        at + 2 <= b.len(),
    ensures
        half_at(b, at) == two_bytes(b[at], b[at + 1]) as u16,
        half_at(b, at) == two_bytes(b[at], b[at + 1]),
{
    let s = b.subrange(at, at + 2);
    assert(s[0] == b[at] && s[1] == b[at + 1]);
    law_low_bytes_come_first(s);
}

/// The data of a tensor are its blocks, one behind the other: element `i` is the element of
/// the same remainder of the block that it falls into.
pub proof fn law_elements_come_from_their_blocks(
    ty: GgmlType,
    data: Seq<u8>,
    n: nat,
    r: Dequantized,
    k: nat,
    j: nat,
)
    requires
        !ty.is_plain(),
        ty.readable(),
        unpacked(data, ty, n, r),
        j < ty.spec_block_size(),
        ty.spec_block_size() * k + j < n,
    ensures
        r is Terms,
        ({
            let size = ty.spec_type_size();
            is_term(
                ty,
                data.subrange((size * k) as int, (size * k + size) as int),
                j as int,
                r->Terms_0@[(ty.spec_block_size() * k + j) as int],
            )
        }),
{
    let bs = ty.spec_block_size() as int;
    let size = ty.spec_type_size() as int;
    let i = bs * k + j;
    vstd::arithmetic::div_mod::lemma_fundamental_div_mod_converse(i, bs, k as int, j as int);
    assert(k * size == size * k && (k + 1) * size == size * k + size) by (nonlinear_arith);
    let t = r->Terms_0@[i];
    assert(is_term(ty, block_at(ty, data, i / bs), i % bs, t));
}

/// Values that are stored one by one: four bytes as they stand; two bytes that are the
/// upper half of the value; or two bytes of a narrower number.
pub proof fn law_plain_values_are_their_bytes(
    ty: GgmlType,
    data: Seq<u8>,
    n: nat,
    r: Dequantized,
    i: nat,
)
    requires
        ty.is_plain(),
        unpacked(data, ty, n, r),
        i < n,
        n * ty.spec_type_size() <= data.len(),
    ensures
        r is Values,
        ({
            let v = r->Values_0@[i as int];
            let at = (ty.spec_type_size() * i) as int;
            match ty {
                GgmlType::F32 => v == data[at] + 256 * data[at + 1] + 65536 * data[at + 2]
                    + 16777216 * data[at + 3],
                GgmlType::BF16 => v == 65536 * (data[at] + 256 * data[at + 1]),
                _ => v == widened(two_bytes(data[at], data[at + 1]) as u16),
            }
        }),
{
    let v = r->Values_0@[i as int];
    let at = ty.spec_type_size() * i as int;
    if ty == GgmlType::F32 {
        let s = data.subrange(at, at + 4);
        law_low_bytes_come_first(s);
        assert(s[0] == data[at] && s[1] == data[at + 1] && s[2] == data[at + 2] && s[3]
            == data[at + 3]);
    } else {
        lemma_half(data, at);
    }
}

// ── Sixteen-bit numbers ──────────────────────────────────────────────────────

/// The magnitude of a finite 16-bit pattern, in units of `2^-47`.
pub open spec fn half_magnitude(h: u16) -> nat {
    let exponent = (h as int / 0x400 % 0x20) as nat;
    let mantissa = (h as int % 0x400) as nat;
    if exponent == 0 {
        mantissa * two_to(23)
    } else {
        (0x400 + mantissa) * two_to(exponent + 22)
    }
}

/// The magnitude of a 32-bit pattern that stands for zero or for a number of at least
/// `2^-24`, in units of `2^-47`.
pub open spec fn single_magnitude(bits: u32) -> nat {
    let exponent = bits as int / 0x80_0000 % 0x100;
    let mantissa = (bits as int % 0x80_0000) as nat;
    if exponent < 103 {
        0
    } else {
        (0x80_0000 + mantissa) * two_to((exponent - 103) as nat)
    }
}

proof fn lemma_two_to_plus(a: nat, b: nat)
    ensures
        two_to(a + b) == two_to(a) * two_to(b),
    decreases b,
{
    if b > 0 {
        lemma_two_to_plus(a, (b - 1) as nat);
        let x = two_to(a);
        let y = two_to((b - 1) as nat);
        assert(2 * (x * y) == x * (2 * y)) by (nonlinear_arith);
    } else {
        assert(two_to(a) * 1 == two_to(a)) by (nonlinear_arith);
    }
}

proof fn lemma_two_to_positive(n: nat)
    ensures
        two_to(n) > 0,
    decreases n,
{
    if n > 0 {
        lemma_two_to_positive((n - 1) as nat);
    }
}

proof fn lemma_two_to_values()
    ensures
        two_to(10) == 0x400,
        two_to(13) == 0x2000,
        two_to(23) == 0x80_0000,
{
    reveal_with_fuel(two_to, 6);
    assert(two_to(5) == 32);
    lemma_two_to_plus(5, 5);
    lemma_two_to_plus(10, 3);
    lemma_two_to_plus(13, 10);
}

proof fn lemma_top_bit(n: nat)
    requires
        0 < n,
    ensures
        two_to(top_bit(n)) <= n < 2 * two_to(top_bit(n)),
    decreases n,
{
    if n >= 2 {
        lemma_top_bit(n / 2);
    }
}

proof fn lemma_top_bit_bound(n: nat, k: nat)
    requires
        0 < n < two_to(k),
    ensures
        top_bit(n) < k,
    decreases k,
{
    if k == 0 {
    } else if n >= 2 {
        lemma_top_bit_bound(n / 2, (k - 1) as nat);
    }
}

/// Widening keeps the value: the sign and the magnitude of every number, and infinities as
/// infinities. What is not a number stays none.
#[verifier::spinoff_prover]
pub proof fn law_widening_keeps_the_value(h: u16)
    ensures
        ({
            let w = widened(h);
            let special = h as int / 0x400 % 0x20 == 0x1F;
            &&& (w >= 0x8000_0000) == (h >= 0x8000)
            &&& !special ==> single_magnitude(w) == half_magnitude(h)
            &&& special && h as int % 0x400 == 0 ==> w as int % 0x8000_0000 == 0x7F80_0000
            &&& special && h as int % 0x400 != 0 ==> w as int % 0x8000_0000 > 0x7F80_0000
        }),
{
    let sign = h as int / 0x8000;
    let exponent = h as int / 0x400 % 0x20;
    let mantissa = h as int % 0x400;
    lemma_two_to_values();
    if exponent == 0x1F {
        assert(sign == 0 || sign == 1);
    } else if exponent > 0 {
        let e = exponent + 112;
        let m = mantissa * 0x2000;
        let w = widened(h);
        assert(w == sign * 0x8000_0000 + e * 0x80_0000 + m);
        assert(w as int / 0x80_0000 % 0x100 == e && w as int % 0x80_0000 == m);
        let p = two_to((exponent + 9) as nat);
        lemma_two_to_plus((exponent + 9) as nat, 13);
        assert((0x80_0000 + mantissa * 0x2000) * p == (0x400 + mantissa) * (p * 0x2000))
            by (nonlinear_arith);
    } else if mantissa > 0 {
        let k = top_bit(mantissa as nat);
        lemma_top_bit(mantissa as nat);
        lemma_top_bit_bound(mantissa as nat, 10);
        let one = two_to(k) as int;
        let step = two_to((23 - k) as nat) as int;
        lemma_two_to_plus(k, (23 - k) as nat);
        lemma_two_to_positive((23 - k) as nat);
        assert(one * step == 0x80_0000);
        let m = (mantissa - one) * step;
        assert(0 <= m < 0x80_0000) by (nonlinear_arith)
            requires
                m == (mantissa - one) * step,
                0 <= mantissa - one < one,
                one * step == 0x80_0000,
                step > 0,
        ;
        let w = widened(h);
        assert(w == sign * 0x8000_0000 + (103 + k) * 0x80_0000 + m);
        assert(w as int / 0x80_0000 % 0x100 == 103 + k && w as int % 0x80_0000 == m);
        assert((0x80_0000 + m) * one == mantissa * 0x80_0000) by (nonlinear_arith)
            requires
                m == (mantissa - one) * step,
                one * step == 0x80_0000,
        ;
    }
}

} // verus!
