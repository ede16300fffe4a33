//! Unpacking of stored weights.
//!
//! A quantised element stands for `(d * scale) * q`, plus `m * offset` in the
//! formats that have an offset: `d` and `m` are floating-point numbers of the
//! block, kept as bit patterns, the other factors are small integers. Unpacking
//! is exact; the products are left to the numeric kernels.
use vstd::prelude::*;
use vstd::slice::slice_subrange;

use crate::bytes::{le_value, u16_from_le, u32_from_le};
use crate::tensor::ggml::{blocks_for, bytes_for, GgmlType};
use crate::tensor::half_float::{widen, widened};

verus! {

/// The integers of one quantised element.
#[derive(Clone, Copy, Debug, PartialEq, Eq, Structural)]
pub struct Code {
    pub scale: i32,
    /// `None` in the formats without an offset.
    pub offset: Option<i32>,
    pub q: i32,
}

/// One quantised element: its integers and its block's factors.
#[derive(Clone, Copy, Debug, PartialEq, Eq, Structural)]
pub struct Term {
    pub d: u32,
    pub m: u32,
    pub code: Code,
}

// ── Bits of a byte ───────────────────────────────────────────────────────────

/// The low half of a byte.
pub open spec fn low(b: u8) -> int {
    b as int % 16
}

/// The high half of a byte.
pub open spec fn high(b: u8) -> int {
    b as int / 16
}

/// Bits `2k` and `2k + 1` of a byte.
pub open spec fn pair(b: u8, k: int) -> int {
    if k == 0 {
        b as int % 4
    } else if k == 1 {
        b as int / 4 % 4
    } else if k == 2 {
        b as int / 16 % 4
    } else {
        b as int / 64
    }
}

/// Bit `k` of a byte.
pub open spec fn bit(b: u8, k: int) -> int {
    if k % 2 == 0 {
        pair(b, k / 2) % 2
    } else {
        pair(b, k / 2) / 2
    }
}

/// A byte read as a signed number.
pub open spec fn signed(b: u8) -> int {
    if b < 128 {
        b as int
    } else {
        b - 256
    }
}

fn get_pair(b: u8, k: usize) -> (v: i32)
    requires
        k < 4,
    ensures
        v == pair(b, k as int),
        0 <= v < 4,
{
    let v: u8 = match k {
        0 => b % 4,
        1 => b / 4 % 4,
        2 => b / 16 % 4,
        _ => b / 64,
    };
    v as i32
}

fn get_bit(b: u8, k: usize) -> (v: i32)
    requires
        k < 8,
    ensures
        v == bit(b, k as int),
        0 <= v < 2,
{
    let p: i32 = get_pair(b, k / 2);
    if k % 2 == 0 {
        p % 2
    } else {
        p / 2
    }
}

fn get_signed(b: u8) -> (v: i32)
    ensures
        v == signed(b),
{
    if b < 128 {
        b as i32
    } else {
        b as i32 - 256
    }
}

// ── The formats, element by element ──────────────────────────────────────────

/// Scale and minimum `j` of the 12 bytes that hold eight of each, six bits wide.
pub open spec fn scale_min(j: int, s: Seq<u8>) -> (int, int) {
    if j < 4 {
        (s[j] as int % 64, s[j + 4] as int % 64)
    } else {
        (low(s[j + 4]) + 16 * (s[j - 4] as int / 64), high(s[j + 4]) + 16 * (s[j] as int / 64))
    }
}

/// One `(scale, min)` pair from the 12-byte k-quant scale buffer, as raw numbers.
pub fn get_scale_min_q4k(j: usize, scales: &[u8]) -> (r: (u8, u8))
    requires
        j < 8,
        scales@.len() >= 12,
    ensures
        r.0 == scale_min(j as int, scales@).0,
        r.1 == scale_min(j as int, scales@).1,
        r.0 < 64,
        r.1 < 64,
{
    if j < 4 {
        (scales[j] % 64, scales[j + 4] % 64)
    } else {
        (
            scales[j + 4] % 16 + 16 * (scales[j - 4] / 64),
            scales[j + 4] / 16 + 16 * (scales[j] / 64),
        )
    }
}

pub open spec fn code(scale: int, offset: Option<int>, q: int) -> Code {
    Code {
        scale: scale as i32,
        offset: match offset {
            Some(o) => Some(o as i32),
            None => None,
        },
        q: q as i32,
    }
}

/// `[f16 d] [i8 x 32]`.
pub open spec fn q8_0(b: Seq<u8>, j: int) -> Code {
    code(1, None, signed(b[2 + j]))
}

/// `[f16 d] [u8 x 16]`: two elements per byte, the low half first, centred on 8.
pub open spec fn q4_0(b: Seq<u8>, j: int) -> Code {
    let byte = b[2 + j / 2];
    code(1, None, (if j % 2 == 0 {
        low(byte)
    } else {
        high(byte)
    }) - 8)
}

/// The halves of 16 bytes from `at` on: the low halves are elements 0 to 15, the
/// high ones elements 16 to 31.
pub open spec fn split_nibble(b: Seq<u8>, at: int, j: int) -> int {
    if j < 16 {
        low(b[at + j])
    } else {
        high(b[at + j - 16])
    }
}

/// `[f16 d] [fifth bits x 4] [u8 x 16]`, centred on 16.
pub open spec fn q5_0(b: Seq<u8>, j: int) -> Code {
    code(1, None, split_nibble(b, 6, j) + 16 * bit(b[2 + j / 8], j % 8) - 16)
}

/// `[f16 d] [f16 m] [fifth bits x 4] [u8 x 16]`, with an offset of `m`.
pub open spec fn q5_1(b: Seq<u8>, j: int) -> Code {
    code(1, Some(1), split_nibble(b, 8, j) + 16 * bit(b[4 + j / 8], j % 8))
}

/// The non-linear codebook of IQ4_NL.
pub open spec fn kvalue(n: int) -> int {
    seq![-127int, -104, -83, -65, -49, -35, -22, -10, 1, 13, 25, 38, 53, 69, 89, 113][n]
}

/// `[f16 d] [u8 x 16]`: halves are indices into the codebook.
pub open spec fn iq4_nl(b: Seq<u8>, j: int) -> Code {
    code(1, None, kvalue(split_nibble(b, 2, j)))
}

/// `[f16 d] [f16 dmin] [scales x 12] [u8 x 128]`: eight runs of 32 elements, each
/// with a scale and a minimum; two neighbouring runs share their bytes.
pub open spec fn q4_k(b: Seq<u8>, j: int) -> Code {
    let run = j / 32;
    let byte = b[16 + run / 2 * 32 + j % 32];
    let sm = scale_min(run, b.subrange(4, 16));
    code(sm.0, Some(-sm.1), if run % 2 == 0 {
        low(byte)
    } else {
        high(byte)
    })
}

/// Like Q4_K, with a fifth bit per element: `[f16 d] [f16 dmin] [scales x 12]
/// [fifth bits x 32] [u8 x 128]`.
pub open spec fn q5_k(b: Seq<u8>, j: int) -> Code {
    let run = j / 32;
    let byte = b[48 + run / 2 * 32 + j % 32];
    let sm = scale_min(run, b.subrange(4, 16));
    code(sm.0, Some(-sm.1), (if run % 2 == 0 {
        low(byte)
    } else {
        high(byte)
    }) + 16 * bit(b[16 + j % 32], run))
}

/// `[low halves x 128] [high bits x 64] [i8 scales x 16] [f16 d]`: per 128
/// elements, four runs of 32 over the same bytes, centred on 32.
pub open spec fn q6_k(b: Seq<u8>, j: int) -> Code {
    let group = j / 128;
    let run = j % 128 / 32;
    let l = j % 32;
    let byte = b[group * 64 + run % 2 * 32 + l];
    code(
        signed(b[192 + group * 8 + run * 2 + l / 16]),
        None,
        (if run < 2 {
            low(byte)
        } else {
            high(byte)
        }) + 16 * pair(b[128 + group * 32 + l], run) - 32,
    )
}

/// `[scales x 16] [u8 x 64] [f16 d] [f16 dmin]`: per 128 elements, four planes of
/// two bits over the same 32 bytes; a scale and a minimum per 16 elements.
pub open spec fn q2_k(b: Seq<u8>, j: int) -> Code {
    let sc = b[j / 16];
    code(
        low(sc),
        Some(-high(sc)),
        pair(b[16 + j / 128 * 32 + j % 32], j % 128 / 32),
    )
}

/// The scale of 16 elements in Q3_K: four low bits and two high bits, centred on
/// 32.
pub open spec fn q3_scale(s: Seq<u8>, i: int) -> int {
    (if i < 8 {
        low(s[i])
    } else {
        high(s[i - 8])
    }) + 16 * pair(s[8 + i % 4], i / 4) - 32
}

/// `[high bits x 32] [u8 x 64] [scales x 12] [f16 d]`: planes of two bits as in
/// Q2_K; an element whose high bit is clear is 4 lower.
pub open spec fn q3_k(b: Seq<u8>, j: int) -> Code {
    code(
        q3_scale(b.subrange(96, 108), j / 16),
        None,
        pair(b[32 + j / 128 * 32 + j % 32], j % 128 / 32) - (if bit(b[j % 32], j / 32) == 1 {
            0int
        } else {
            4
        }),
    )
}

/// Element `j` of a block.
pub open spec fn block_code(ty: GgmlType, b: Seq<u8>, j: int) -> Code {
    match ty {
        GgmlType::Q8_0 => q8_0(b, j),
        GgmlType::Q4_0 => q4_0(b, j),
        GgmlType::Q5_0 => q5_0(b, j),
        GgmlType::Q5_1 => q5_1(b, j),
        GgmlType::IQ4NL => iq4_nl(b, j),
        GgmlType::Q4K => q4_k(b, j),
        GgmlType::Q5K => q5_k(b, j),
        GgmlType::Q6K => q6_k(b, j),
        GgmlType::Q2K => q2_k(b, j),
        _ => q3_k(b, j),
    }
}

/// Where a block keeps `d`.
pub open spec fn d_at(ty: GgmlType) -> int {
    match ty {
        GgmlType::Q6K => 208,
        GgmlType::Q2K => 80,
        GgmlType::Q3K => 108,
        _ => 0,
    }
}

/// Where a block keeps `m`, in the formats that have an offset.
pub open spec fn m_at(ty: GgmlType) -> Option<int> {
    match ty {
        GgmlType::Q5_1 | GgmlType::Q4K | GgmlType::Q5K => Some(2),
        GgmlType::Q2K => Some(82),
        _ => None,
    }
}

/// The 16-bit number at `at`.
pub open spec fn half_at(b: Seq<u8>, at: int) -> u16 {
    le_value(b.subrange(at, at + 2)) as u16
}

/// `t` is element `j` of block `b`.
pub open spec fn is_term(ty: GgmlType, b: Seq<u8>, j: int, t: Term) -> bool {
    &&& t.code == block_code(ty, b, j)
    &&& t.d == widened(half_at(b, d_at(ty)))
    &&& t.m == match m_at(ty) {
        Some(at) => widened(half_at(b, at)),
        None => 0,
    }
}

/// Block `k` of stored data.
pub open spec fn block_at(ty: GgmlType, data: Seq<u8>, k: int) -> Seq<u8> {
    data.subrange(k * ty.spec_type_size(), (k + 1) * ty.spec_type_size())
}

fn unpack_q8_0(b: &[u8], j: usize) -> (c: Code)
    requires
        b@.len() == 34,
        j < 32,
    ensures
        c == q8_0(b@, j as int),
{
    Code { scale: 1, offset: None, q: get_signed(b[2 + j]) }
}

fn unpack_q4_0(b: &[u8], j: usize) -> (c: Code)
    requires
        b@.len() == 18,
        j < 32,
    ensures
        c == q4_0(b@, j as int),
{
    let byte: u8 = b[2 + j / 2];
    let n: u8 = if j % 2 == 0 {
        byte % 16
    } else {
        byte / 16
    };
    Code { scale: 1, offset: None, q: n as i32 - 8 }
}

fn unpack_q5_0(b: &[u8], j: usize) -> (c: Code)
    requires
        b@.len() == 22,
        j < 32,
    ensures
        c == q5_0(b@, j as int),
{
    let n: i32 = get_split_nibble(b, 6, j);
    Code { scale: 1, offset: None, q: n + 16 * get_bit(b[2 + j / 8], j % 8) - 16 }
}

fn unpack_q5_1(b: &[u8], j: usize) -> (c: Code)
    requires
        b@.len() == 24,
        j < 32,
    ensures
        c == q5_1(b@, j as int),
{
    let n: i32 = get_split_nibble(b, 8, j);
    Code { scale: 1, offset: Some(1), q: n + 16 * get_bit(b[4 + j / 8], j % 8) }
}

fn unpack_iq4_nl(b: &[u8], j: usize) -> (c: Code)
    requires
        b@.len() == 18,
        j < 32,
    ensures
        c == iq4_nl(b@, j as int),
{
    let n: i32 = get_split_nibble(b, 2, j);
    Code { scale: 1, offset: None, q: get_kvalue(n) }
}

fn unpack_q4_k(b: &[u8], j: usize) -> (c: Code)
    requires
        b@.len() == 144,
        j < 256,
    ensures
        c == q4_k(b@, j as int),
{
    let run: usize = j / 32;
    let (sc, mn) = get_scale_min_q4k(run, slice_subrange(b, 4, 16));
    let byte: u8 = b[16 + run / 2 * 32 + j % 32];
    let n: u8 = if run % 2 == 0 {
        byte % 16
    } else {
        byte / 16
    };
    Code { scale: sc as i32, offset: Some(-(mn as i32)), q: n as i32 }
}

fn unpack_q5_k(b: &[u8], j: usize) -> (c: Code)
    requires
        b@.len() == 176,
        j < 256,
    ensures
        c == q5_k(b@, j as int),
{
    let run: usize = j / 32;
    let (sc, mn) = get_scale_min_q4k(run, slice_subrange(b, 4, 16));
    let byte: u8 = b[48 + run / 2 * 32 + j % 32];
    let n: u8 = if run % 2 == 0 {
        byte % 16
    } else {
        byte / 16
    };
    Code {
        scale: sc as i32,
        offset: Some(-(mn as i32)),
        q: n as i32 + 16 * get_bit(b[16 + j % 32], run),
    }
}

fn unpack_q6_k(b: &[u8], j: usize) -> (c: Code)
    requires
        b@.len() == 210,
        j < 256,
    ensures
        c == q6_k(b@, j as int),
{
    let group: usize = j / 128;
    let run: usize = j % 128 / 32;
    let l: usize = j % 32;
    let byte: u8 = b[group * 64 + run % 2 * 32 + l];
    let n: u8 = if run < 2 {
        byte % 16
    } else {
        byte / 16
    };
    Code {
        scale: get_signed(b[192 + group * 8 + run * 2 + l / 16]),
        offset: None,
        q: n as i32 + 16 * get_pair(b[128 + group * 32 + l], run) - 32,
    }
}

fn unpack_q2_k(b: &[u8], j: usize) -> (c: Code)
    requires
        b@.len() == 84,
        j < 256,
    ensures
        c == q2_k(b@, j as int),
{
    let sc: u8 = b[j / 16];
    Code {
        scale: (sc % 16) as i32,
        offset: Some(-((sc / 16) as i32)),
        q: get_pair(b[16 + j / 128 * 32 + j % 32], j % 128 / 32),
    }
}

fn unpack_q3_k(b: &[u8], j: usize) -> (c: Code)
    requires
        b@.len() == 110,
        j < 256,
    ensures
        c == q3_k(b@, j as int),
{
    let scale: i32 = get_q3_scale(slice_subrange(b, 96, 108), j / 16);
    let lo: i32 = get_pair(b[32 + j / 128 * 32 + j % 32], j % 128 / 32);
    let keep: i32 = get_bit(b[j % 32], j / 32);
    Code {
        scale,
        offset: None,
        q: if keep == 1 {
            lo
        } else {
            lo - 4
        },
    }
}

/// Unpack element `j` of a block.
pub fn unpack(ty: GgmlType, b: &[u8], j: usize) -> (c: Code)
    requires
        !ty.is_plain(),
        ty.readable(),
        b@.len() == ty.spec_type_size(),
        j < ty.spec_block_size(),
    ensures
        c == block_code(ty, b@, j as int),
{
    match ty {
        GgmlType::Q8_0 => unpack_q8_0(b, j),
        GgmlType::Q4_0 => unpack_q4_0(b, j),
        GgmlType::Q5_0 => unpack_q5_0(b, j),
        GgmlType::Q5_1 => unpack_q5_1(b, j),
        GgmlType::IQ4NL => unpack_iq4_nl(b, j),
        GgmlType::Q4K => unpack_q4_k(b, j),
        GgmlType::Q5K => unpack_q5_k(b, j),
        GgmlType::Q6K => unpack_q6_k(b, j),
        GgmlType::Q2K => unpack_q2_k(b, j),
        _ => unpack_q3_k(b, j),
    }
}

fn get_split_nibble(b: &[u8], at: usize, j: usize) -> (n: i32)
    requires
        at <= 8,
        at + 16 <= b@.len(),
        j < 32,
    ensures
        n == split_nibble(b@, at as int, j as int),
        0 <= n < 16,
{
    let v: u8 = if j < 16 {
        b[at + j] % 16
    } else {
        b[at + (j - 16)] / 16
    };
    v as i32
}

fn get_kvalue(n: i32) -> (v: i32)
    requires
        0 <= n < 16,
    ensures
        v == kvalue(n as int),
{
    match n {
        0 => -127,
        1 => -104,
        2 => -83,
        3 => -65,
        4 => -49,
        5 => -35,
        6 => -22,
        7 => -10,
        8 => 1,
        9 => 13,
        10 => 25,
        11 => 38,
        12 => 53,
        13 => 69,
        14 => 89,
        _ => 113,
    }
}

fn get_q3_scale(s: &[u8], i: usize) -> (v: i32)
    requires
        s@.len() == 12,
        i < 16,
    ensures
        v == q3_scale(s@, i as int),
        -32 <= v < 32,
{
    let lo: u8 = if i < 8 {
        s[i] % 16
    } else {
        s[i - 8] / 16
    };
    lo as i32 + 16 * get_pair(s[8 + i % 4], i / 4) - 32
}

// ── Whole tensors ────────────────────────────────────────────────────────────

/// Bit patterns of 32-bit values: the bytes as they stand.
pub fn dequantize_f32(data: &[u8], n_elements: usize) -> (out: Vec<u32>)
    requires
        n_elements * 4 <= data@.len(),
    ensures
        out@.len() == n_elements,
        forall|i: int|
            0 <= i < n_elements ==> #[trigger] out@[i] == le_value(
                data@.subrange(i * 4, i * 4 + 4),
            ),
{
    let len: usize = data.len();
    let mut out: Vec<u32> = Vec::new();
    let mut i: usize = 0;
    while i < n_elements
        invariant
            len == data@.len(),
            n_elements * 4 <= len,
            i <= n_elements,
            out@.len() == i,
            forall|k: int|
                0 <= k < i ==> #[trigger] out@[k] == le_value(data@.subrange(k * 4, k * 4 + 4)),
        decreases n_elements - i,
    {
        let b = slice_subrange(data, i * 4, i * 4 + 4);
        assert(b@.take(4) =~= data@.subrange(i * 4, i * 4 + 4));
        out.push(u32_from_le(b));
        i = i + 1;
    }
    out
}

/// Bit patterns of 16-bit values, widened.
pub fn dequantize_f16(data: &[u8], n_elements: usize) -> (out: Vec<u32>)
    requires
        n_elements * 2 <= data@.len(),
    ensures
        out@.len() == n_elements,
        forall|i: int|
            0 <= i < n_elements ==> #[trigger] out@[i] == widened(half_at(data@, i * 2)),
{
    let len: usize = data.len();
    let mut out: Vec<u32> = Vec::new();
    let mut i: usize = 0;
    while i < n_elements
        invariant
            len == data@.len(),
            n_elements * 2 <= len,
            i <= n_elements,
            out@.len() == i,
            forall|k: int| 0 <= k < i ==> #[trigger] out@[k] == widened(half_at(data@, k * 2)),
        decreases n_elements - i,
    {
        let h: u16 = read_half(data, i * 2);
        out.push(widen(h));
        i = i + 1;
    }
    out
}

/// Bit patterns of bfloat16 values, which are the upper half of 32-bit ones.
pub fn dequantize_bf16(data: &[u8], n_elements: usize) -> (out: Vec<u32>)
    requires
        n_elements * 2 <= data@.len(),
    ensures
        out@.len() == n_elements,
        forall|i: int|
            0 <= i < n_elements ==> #[trigger] out@[i] == half_at(data@, i * 2) * 0x1_0000,
{
    let len: usize = data.len();
    let mut out: Vec<u32> = Vec::new();
    let mut i: usize = 0;
    while i < n_elements
        invariant
            len == data@.len(),
            n_elements * 2 <= len,
            i <= n_elements,
            out@.len() == i,
            forall|k: int| 0 <= k < i ==> #[trigger] out@[k] == half_at(data@, k * 2) * 0x1_0000,
        decreases n_elements - i,
    {
        let h: u16 = read_half(data, i * 2);
        out.push(h as u32 * 0x1_0000);
        i = i + 1;
    }
    out
}

fn read_half(b: &[u8], at: usize) -> (h: u16)
    requires
        at + 2 <= b@.len(),
    ensures
        h == half_at(b@, at as int),
{
    let len: usize = b.len();
    let s = slice_subrange(b, at, at + 2);
    assert(s@.take(2) =~= b@.subrange(at as int, at + 2));
    u16_from_le(s)
}

/// The elements of quantised data, block by block; a last block may be cut short.
pub fn dequantize_blocks(data: &[u8], ty: GgmlType, n_elements: usize) -> (out: Vec<Term>)
    requires
        !ty.is_plain(),
        ty.readable(),
        bytes_for(ty, n_elements as nat) <= data@.len(),
    ensures
        out@.len() == n_elements,
        forall|i: int|
            0 <= i < n_elements ==> is_term(
                ty,
                block_at(ty, data@, i / ty.spec_block_size() as int),
                i % ty.spec_block_size() as int,
                #[trigger] out@[i],
            ),
{
    let bs: usize = ty.block_size();
    let bb: usize = ty.type_size();
    let len: usize = data.len();
    let mut out: Vec<Term> = Vec::new();
    let mut block: usize = 0;
    while out.len() < n_elements
        invariant
            !ty.is_plain(),
        ty.readable(),
            bs == ty.spec_block_size(),
            bb == ty.spec_type_size(),
            bs == 32 || bs == 256,
            0 < bb <= 210,
            len == data@.len(),
            bytes_for(ty, n_elements as nat) <= len,
            out@.len() <= n_elements,
            out@.len() == block * bs || out@.len() == n_elements,
            out@.len() < n_elements ==> out@.len() == block * bs,
            forall|i: int|
                0 <= i < out@.len() ==> is_term(
                    ty,
                    block_at(ty, data@, i / bs as int),
                    i % bs as int,
                    #[trigger] out@[i],
                ),
        decreases n_elements - out@.len(),
    {
        proof {
            // This block is one of those that the elements reach into.
            let nb = blocks_for(ty, n_elements as nat) as int;
            assert(block < nb) by {
                assert(block * bs < n_elements);
                if bs == 32 {
                    assert(nb == (n_elements + 31) / 32);
                } else {
                    assert(nb == (n_elements + 255) / 256);
                }
            }
            assert((block + 1) * bb <= nb * bb) by (nonlinear_arith)
                requires
                    block + 1 <= nb,
            ;
            assert((block + 1) * bb == block * bb + bb) by (nonlinear_arith);
        }
        let b = slice_subrange(data, block * bb, block * bb + bb);
        assert(b@ == block_at(ty, data@, block as int));
        let d: u32 = widen(read_half(b, d_position(ty)));
        let m: u32 = match m_position(ty) {
            Some(at) => widen(read_half(b, at)),
            None => 0,
        };
        let mut j: usize = 0;
        let ghost first = out@.len();
        while j < bs && out.len() < n_elements
            invariant
                !ty.is_plain(),
        ty.readable(),
                bs == ty.spec_block_size(),
                bb == ty.spec_type_size(),
                bs == 32 || bs == 256,
                b@ == block_at(ty, data@, block as int),
                b@.len() == bb,
                d == widened(half_at(b@, d_at(ty))),
                m == match m_at(ty) {
                    Some(at) => widened(half_at(b@, at)),
                    None => 0,
                },
                j <= bs,
                first == block * bs,
                first < n_elements,
                out@.len() == first + j,
                out@.len() <= n_elements,
                forall|i: int|
                    0 <= i < out@.len() ==> is_term(
                        ty,
                        block_at(ty, data@, i / bs as int),
                        i % bs as int,
                        #[trigger] out@[i],
                    ),
            decreases bs - j,
        {
            let c = unpack(ty, b, j);
            proof {
                let i = out@.len() as int;
                assert(i / bs as int == block && i % bs as int == j) by {
                    vstd::arithmetic::div_mod::lemma_fundamental_div_mod_converse(
                        i,
                        bs as int,
                        block as int,
                        j as int,
                    );
                }
            }
            out.push(Term { d, m, code: c });
            j = j + 1;
        }
        assert((block + 1) * bs == block * bs + bs) by (nonlinear_arith);
        block = block + 1;
    }
    out
}

fn d_position(ty: GgmlType) -> (at: usize)
    requires
        !ty.is_plain(),
        ty.readable(),
    ensures
        at == d_at(ty),
        at + 2 <= ty.spec_type_size(),
{
    match ty {
        GgmlType::Q6K => 208,
        GgmlType::Q2K => 80,
        GgmlType::Q3K => 108,
        _ => 0,
    }
}

fn m_position(ty: GgmlType) -> (at: Option<usize>)
    requires
        !ty.is_plain(),
        ty.readable(),
    ensures
        match at {
            Some(p) => m_at(ty) == Some(p as int) && p + 2 <= ty.spec_type_size(),
            None => m_at(ty) is None,
        },
{
    match ty {
        GgmlType::Q5_1 | GgmlType::Q4K | GgmlType::Q5K => Some(2),
        GgmlType::Q2K => Some(82),
        _ => None,
    }
}

/// Unpacked data: values as they stand, or the factors of quantised ones.
#[derive(Debug)]
pub enum Dequantized {
    Values(Vec<u32>),
    Terms(Vec<Term>),
}

/// What unpacking `n` elements of `data` gives.
pub open spec fn unpacked(data: Seq<u8>, ty: GgmlType, n: nat, r: Dequantized) -> bool {
    match r {
        Dequantized::Values(v) => {
            &&& ty.is_plain()
            &&& v@.len() == n
            &&& forall|i: int|
                0 <= i < n ==> #[trigger] v@[i] == match ty {
                    GgmlType::F32 => le_value(data.subrange(i * 4, i * 4 + 4)) as u32,
                    GgmlType::F16 => widened(half_at(data, i * 2)),
                    _ => (half_at(data, i * 2) * 0x1_0000) as u32,
                }
        },
        Dequantized::Terms(t) => {
            &&& !ty.is_plain()
            &&& t@.len() == n
            &&& forall|i: int|
                0 <= i < n ==> is_term(
                    ty,
                    block_at(ty, data, i / ty.spec_block_size() as int),
                    i % ty.spec_block_size() as int,
                    #[trigger] t@[i],
                )
        },
    }
}

/// Unpack `n_elements` of raw bytes.
pub fn dequantize(data: &[u8], ty: GgmlType, n_elements: usize) -> (r: Dequantized)
    requires
        ty.readable(),
        bytes_for(ty, n_elements as nat) <= data@.len(),
    ensures
        unpacked(data@, ty, n_elements as nat, r),
{
    match ty {
        GgmlType::F32 => Dequantized::Values(dequantize_f32(data, n_elements)),
        GgmlType::F16 => Dequantized::Values(dequantize_f16(data, n_elements)),
        GgmlType::BF16 => Dequantized::Values(dequantize_bf16(data, n_elements)),
        _ => Dequantized::Terms(dequantize_blocks(data, ty, n_elements)),
    }
}

// ── Laws ─────────────────────────────────────────────────────────────────────

/// Every code lies in the range of its format, so that it converts to a
/// floating-point number exactly.
#[verifier::spinoff_prover]
#[verifier::rlimit(60)]
pub proof fn law_codes_stay_in_range(ty: GgmlType, b: Seq<u8>, j: int)
    requires
        !ty.is_plain(),
        ty.readable(),
        b.len() == ty.spec_type_size(),
        0 <= j < ty.spec_block_size(),
    ensures
        ({
            let c = block_code(ty, b, j);
            match ty {
                GgmlType::Q8_0 => -128 <= c.q <= 127,
                GgmlType::Q4_0 => -8 <= c.q <= 7,
                GgmlType::Q5_0 => -16 <= c.q <= 15,
                GgmlType::Q5_1 => 0 <= c.q <= 31,
                GgmlType::IQ4NL => -127 <= c.q <= 113,
                GgmlType::Q4K => 0 <= c.q <= 15 && 0 <= c.scale <= 63 && -63 <= c.offset->0 <= 0,
                GgmlType::Q5K => 0 <= c.q <= 31 && 0 <= c.scale <= 63 && -63 <= c.offset->0 <= 0,
                GgmlType::Q6K => -32 <= c.q <= 31 && -128 <= c.scale <= 127,
                GgmlType::Q2K => 0 <= c.q <= 3 && 0 <= c.scale <= 15 && -15 <= c.offset->0 <= 0,
                _ => -4 <= c.q <= 3 && -32 <= c.scale <= 31,
            }
        }),
{
    match ty {
        GgmlType::Q8_0 | GgmlType::Q4_0 | GgmlType::Q5_0 | GgmlType::Q5_1 | GgmlType::IQ4NL => {},
        GgmlType::Q4K | GgmlType::Q5K => {},
        GgmlType::Q6K => {},
        GgmlType::Q2K => {},
        _ => {
            assert(ty == GgmlType::Q3K);
        },
    }
}

/// A matrix can be unpacked row by row: where rows are whole blocks, element
/// `(r, c)` of the matrix is element `c` of row `r`.
pub proof fn law_rows_unpack_alone(
    ty: GgmlType,
    data: Seq<u8>,
    cols: nat,
    r: nat,
    c: nat,
    t: Term,
)
    requires
        !ty.is_plain(),
        ty.readable(),
        c < cols,
        cols % ty.spec_block_size() == 0,
        bytes_for(ty, (r + 1) * cols) <= data.len(),
    ensures
        is_term(
            ty,
            block_at(ty, data, ((r * cols + c) / ty.spec_block_size()) as int),
            ((r * cols + c) % ty.spec_block_size()) as int,
            t,
        ) <==> is_term(
            ty,
            block_at(
                ty,
                data.subrange(
                    (r * bytes_for(ty, cols)) as int,
                    ((r + 1) * bytes_for(ty, cols)) as int,
                ),
                (c / ty.spec_block_size()) as int,
            ),
            (c % ty.spec_block_size()) as int,
            t,
        ),
{
    let bs = ty.spec_block_size() as int;
    let bb = ty.spec_type_size() as int;
    let k = cols as int / bs;
    vstd::arithmetic::div_mod::lemma_fundamental_div_mod(cols as int, bs);
    assert(cols == bs * k);
    assert(blocks_for(ty, cols) == k) by {
        if bs == 32 {
            assert((cols + 31) / 32 == k);
        } else {
            assert((cols + 255) / 256 == k);
        }
    }
    let i = r * cols + c;
    let q = c as int / bs;
    vstd::arithmetic::div_mod::lemma_fundamental_div_mod(c as int, bs);
    assert(r * cols == bs * (r * k)) by (nonlinear_arith)
        requires
            cols == bs * k,
    ;
    assert(i == bs * (r * k + q) + c as int % bs) by (nonlinear_arith)
        requires
            i == r * cols + c,
            r * cols == bs * (r * k),
            c == bs * q + c as int % bs,
    ;
    vstd::arithmetic::div_mod::lemma_fundamental_div_mod_converse(
        i as int,
        bs,
        r * k + q,
        c as int % bs,
    );
    let row = data.subrange(
        (r * bytes_for(ty, cols)) as int,
        ((r + 1) * bytes_for(ty, cols)) as int,
    );
    assert(q < k) by {
        if bs == 32 {
        } else {
        }
    }
    assert(bytes_for(ty, cols) == k * bb);
    assert(blocks_for(ty, (r + 1) * cols) == (r + 1) * k) by {
        assert((r + 1) * cols == bs * ((r + 1) * k)) by (nonlinear_arith)
            requires
                cols == bs * k,
        ;
        let n = (r + 1) * cols;
        let w = (r + 1) * k;
        if bs == 32 {
            assert((n + 31) / 32 == w);
        } else {
            assert((n + 255) / 256 == w);
        }
    }
    assert((r * k + q) * bb == r * (k * bb) + q * bb) by (nonlinear_arith);
    assert((r * k + q + 1) * bb == r * (k * bb) + (q + 1) * bb) by (nonlinear_arith);
    assert((q + 1) * bb <= k * bb) by (nonlinear_arith)
        requires
            q + 1 <= k,
            bb >= 0,
    ;
    assert(q * bb >= 0) by (nonlinear_arith)
        requires
            q >= 0,
            bb >= 0,
    ;
    assert(r * (k * bb) >= 0) by (nonlinear_arith)
        requires
            r >= 0,
            k >= 0,
            bb >= 0,
    ;
    assert((r + 1) * (k * bb) == r * (k * bb) + k * bb) by (nonlinear_arith);
    assert((r + 1) * k * bb == (r + 1) * (k * bb)) by (nonlinear_arith);
    assert((q + 1) * bb == q * bb + bb) by (nonlinear_arith);
    assert(block_at(ty, row, q) =~= block_at(ty, data, r * k + q));
}

} // verus!
