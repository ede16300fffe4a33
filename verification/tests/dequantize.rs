//! Unpacking of storage formats, against reference values.
use glint::tensor::dequantize::{dequantize, dequantize_bf16, dequantize_f16, dequantize_f32, Dequantized, Term};
use glint::tensor::ggml::GgmlType;
use glint::tensor::half_float::widen;
use glint::tensor::quantized::QuantizedTensor;

/// The value of an element: its code scaled by its block's factors.
fn value(t: &Term) -> f32 {
    let d = f32::from_bits(t.d) * t.code.scale as f32 * t.code.q as f32;
    match t.code.offset {
        Some(o) => d + f32::from_bits(t.m) * o as f32,
        None => d,
    }
}

fn values(r: &Dequantized) -> Vec<f32> {
    match r {
        Dequantized::Values(v) => v.iter().map(|b| f32::from_bits(*b)).collect(),
        Dequantized::Terms(t) => t.iter().map(value).collect(),
    }
}

/// Half-precision patterns of the numbers used below.
const HALF_2: u16 = 0x4000;
const HALF_1: u16 = 0x3c00;
const HALF_0_5: u16 = 0x3800;
const HALF_0_25: u16 = 0x3400;
const HALF_MINUS_2: u16 = 0xc000;

fn make_q8_0_block(scale: u16, quants: &[i8]) -> Vec<u8> {
    assert_eq!(quants.len(), 32);
    let mut block = scale.to_le_bytes().to_vec();
    for &q in quants {
        block.push(q as u8);
    }
    block
}

fn patterned(len: usize, start: usize, a: usize, c: usize) -> Vec<u8> {
    (0..len)
        .map(|i| (((start + i) * a + c) & 0xFF) as u8)
        .collect()
}

const N: usize = 512;

fn check(vals: &[f32], expected: &[(usize, f32)], sum: f64, fmt: &str) {
    for &(idx, want) in expected {
        assert!(
            (vals[idx] - want).abs() < 1e-6,
            "{fmt}[{idx}]: got {} want {want}",
            vals[idx]
        );
    }
    let total: f64 = vals.iter().map(|&v| v as f64).sum();
    assert!((total - sum).abs() < 1e-6, "{fmt} sum: got {total} want {sum}");
}

#[test]
fn test_dequantize_f32() {
    let values: Vec<f32> = vec![1.0, -2.5, 3.14];
    let mut data = Vec::new();
    for v in &values {
        data.extend_from_slice(&v.to_le_bytes());
    }
    let result: Vec<f32> = dequantize_f32(&data, 3).iter().map(|b| f32::from_bits(*b)).collect();
    assert_eq!(result, values);
}

#[test]
fn test_dequantize_f16() {
    let values: Vec<f32> = vec![1.0, -2.0, 0.5];
    let mut data = Vec::new();
    for h in [HALF_1, HALF_MINUS_2, HALF_0_5] {
        data.extend_from_slice(&h.to_le_bytes());
    }
    let result = dequantize_f16(&data, 3);
    for (a, b) in result.iter().zip(values.iter()) {
        let a = f32::from_bits(*a);
        assert!((a - b).abs() < 0.01, "{} vs {}", a, b);
    }
}

#[test]
fn test_dequantize_q8_0() {
    let mut quants = [0i8; 32];
    for i in 0..32 {
        quants[i] = if i % 2 == 0 { (i / 2) as i8 } else { -((i / 2) as i8) };
    }
    let data = make_q8_0_block(HALF_2, &quants);
    let result = values(&dequantize(&data, GgmlType::Q8_0, 32));
    assert_eq!(result.len(), 32);
    for i in 0..32 {
        let expected = quants[i] as f32 * 2.0;
        assert!((result[i] - expected).abs() < 1e-3, "index {}: {} vs {}", i, result[i], expected);
    }
}

#[test]
fn test_dequantize_q4_0() {
    let mut data = HALF_1.to_le_bytes().to_vec();
    for _ in 0..16 {
        data.push(0x88);
    }
    let result = values(&dequantize(&data, GgmlType::Q4_0, 32));
    assert_eq!(result.len(), 32);
    for (i, &v) in result.iter().enumerate() {
        assert!((v - 0.0).abs() < 1e-3, "index {}: expected 0.0, got {}", i, v);
    }
}

#[test]
fn q4_0_nibbles_are_centred() {
    let mut data = HALF_1.to_le_bytes().to_vec();
    for _ in 0..16 {
        data.push(0xF0);
    }
    let result = values(&dequantize(&data, GgmlType::Q4_0, 32));
    assert_eq!(result[0], -8.0);
    assert_eq!(result.iter().cloned().fold(f32::MIN, f32::max), 7.0);
    assert_eq!(result.iter().sum::<f32>(), -16.0);
}

#[test]
fn bf16_is_the_upper_half_of_a_number() {
    let data = 0xc049u16.to_le_bytes();
    assert_eq!(dequantize_bf16(&data, 1), vec![0xc049_0000]);
}

#[test]
fn halves_widen_exactly() {
    assert_eq!(f32::from_bits(widen(HALF_1)), 1.0);
    assert_eq!(f32::from_bits(widen(HALF_MINUS_2)), -2.0);
    assert_eq!(f32::from_bits(widen(HALF_0_25)), 0.25);
    assert_eq!(f32::from_bits(widen(0x7bff)), 65504.0);
    // The smallest number above zero, and the largest that is not normal.
    assert_eq!(f32::from_bits(widen(0x0001)), 2.0f32.powi(-24));
    assert_eq!(f32::from_bits(widen(0x03ff)), 1023.0 * 2.0f32.powi(-24));
    assert_eq!(f32::from_bits(widen(0x7c00)), f32::INFINITY);
    assert_eq!(f32::from_bits(widen(0xfc00)), f32::NEG_INFINITY);
    assert!(f32::from_bits(widen(0x7e00)).is_nan());
    assert_eq!(widen(0x8000), 0x8000_0000);
}

#[test]
fn test_row_as_f32_matches_dequantize() {
    let quants: Vec<i8> = (0..32).map(|i| if i % 2 == 0 { 10i8 } else { -10i8 }).collect();
    let block = make_q8_0_block(HALF_0_5, &quants);
    let qt = QuantizedTensor::from_raw(block, 1, 32, GgmlType::Q8_0);
    let row = values(&qt.row_as_f32(0));
    assert_eq!(row.len(), 32);
    for (i, &val) in row.iter().enumerate() {
        let expected = quants[i] as f32 * 0.5;
        assert!((val - expected).abs() < 1e-3, "Index {i}: got {val}, expected {expected}");
    }
}

#[test]
fn test_quantized_uses_less_memory_than_f32() {
    let block = make_q8_0_block(HALF_1, &[1i8; 32]);
    let qt = QuantizedTensor::from_raw(block, 1, 32, GgmlType::Q8_0);
    let f32_equivalent_bytes = qt.rows() * qt.cols() * 4;
    assert!(qt.raw_data().len() < f32_equivalent_bytes);
}

#[test]
fn second_row_of_a_matrix_unpacks_alone() {
    let mut data = make_q8_0_block(HALF_1, &[1i8; 32]);
    data.extend(make_q8_0_block(HALF_2, &[3i8; 32]));
    let qt = QuantizedTensor::from_raw(data, 2, 32, GgmlType::Q8_0);
    assert!(values(&qt.row_as_f32(0)).iter().all(|v| *v == 1.0));
    assert!(values(&qt.row_as_f32(1)).iter().all(|v| *v == 6.0));
}

// block_q4_K: d(f16) dmin(f16) scales[12] qs[128]
#[test]
fn q4_k_matches_ggml_reference() {
    let mut data = Vec::new();
    for k in 0..2 {
        data.extend_from_slice(&HALF_0_5.to_le_bytes());
        data.extend_from_slice(&HALF_0_25.to_le_bytes());
        data.extend_from_slice(&patterned(12, k * 12, 83, 29));
        data.extend_from_slice(&patterned(128, k * 128, 37, 11));
    }
    let vals = values(&dequantize(&data, GgmlType::Q4K, N));
    check(&vals, Q4K_EXPECTED, Q4K_SUM, "q4_k");
}

// block_q5_K: d(f16) dmin(f16) scales[12] qh[32] qs[128]
#[test]
fn q5_k_matches_ggml_reference() {
    let mut data = Vec::new();
    for k in 0..2 {
        data.extend_from_slice(&HALF_0_5.to_le_bytes());
        data.extend_from_slice(&HALF_0_25.to_le_bytes());
        data.extend_from_slice(&patterned(12, k * 12, 83, 29));
        data.extend_from_slice(&patterned(32, k * 32, 59, 17));
        data.extend_from_slice(&patterned(128, k * 128, 37, 11));
    }
    let vals = values(&dequantize(&data, GgmlType::Q5K, N));
    check(&vals, Q5K_EXPECTED, Q5K_SUM, "q5_k");
}

// block_q6_K: ql[128] qh[64] scales[16:int8] d(f16)
#[test]
fn q6_k_matches_ggml_reference() {
    let mut data = Vec::new();
    for k in 0..2 {
        data.extend_from_slice(&patterned(128, k * 128, 37, 11));
        data.extend_from_slice(&patterned(64, k * 64, 59, 17));
        data.extend_from_slice(&patterned(16, k * 16, 83, 29));
        data.extend_from_slice(&HALF_0_5.to_le_bytes());
    }
    let vals = values(&dequantize(&data, GgmlType::Q6K, N));
    check(&vals, Q6K_EXPECTED, Q6K_SUM, "q6_k");
}

// block_q2_K: scales[16] qs[64] d(f16) dmin(f16)
#[test]
fn q2_k_matches_ggml_reference() {
    let mut data = Vec::new();
    for k in 0..2 {
        data.extend_from_slice(&patterned(16, k * 16, 83, 29));
        data.extend_from_slice(&patterned(64, k * 64, 37, 11));
        data.extend_from_slice(&HALF_0_5.to_le_bytes());
        data.extend_from_slice(&HALF_0_25.to_le_bytes());
    }
    let vals = values(&dequantize(&data, GgmlType::Q2K, N));
    check(&vals, Q2K_EXPECTED, Q2K_SUM, "q2_k");
}

// block_q3_K: hmask[32] qs[64] scales[12] d(f16)
#[test]
fn q3_k_matches_ggml_reference() {
    let mut data = Vec::new();
    for k in 0..2 {
        data.extend_from_slice(&patterned(32, k * 32, 59, 17));
        data.extend_from_slice(&patterned(64, k * 64, 37, 11));
        data.extend_from_slice(&patterned(12, k * 12, 83, 29));
        data.extend_from_slice(&HALF_0_5.to_le_bytes());
    }
    let vals = values(&dequantize(&data, GgmlType::Q3K, N));
    check(&vals, Q3K_EXPECTED, Q3K_SUM, "q3_k");
}

// block_q5_0: d(f16) qh[4] qs[16] — 32-element blocks, 5th bit in qh
#[test]
fn q5_0_matches_ggml_reference() {
    let mut data = Vec::new();
    for k in 0..2 {
        data.extend_from_slice(&HALF_0_5.to_le_bytes());
        data.extend_from_slice(&patterned(4, k * 4, 59, 17));
        data.extend_from_slice(&patterned(16, k * 16, 37, 11));
    }
    let vals = values(&dequantize(&data, GgmlType::Q5_0, 64));
    check(&vals, Q5_0_EXPECTED, Q5_0_SUM, "q5_0");
}

// block_q5_1: d(f16) m(f16) qh[4] qs[16] — affine variant of Q5_0
#[test]
fn q5_1_matches_ggml_reference() {
    let mut data = Vec::new();
    for k in 0..2 {
        data.extend_from_slice(&HALF_0_5.to_le_bytes());
        data.extend_from_slice(&HALF_0_25.to_le_bytes());
        data.extend_from_slice(&patterned(4, k * 4, 59, 17));
        data.extend_from_slice(&patterned(16, k * 16, 37, 11));
    }
    let vals = values(&dequantize(&data, GgmlType::Q5_1, 64));
    check(&vals, Q5_1_EXPECTED, Q5_1_SUM, "q5_1");
}

// block_iq4_nl: d(f16) qs[16] — 32-element blocks, codebook lookup
#[test]
fn iq4_nl_matches_ggml_reference() {
    let mut data = Vec::new();
    for k in 0..2 {
        data.extend_from_slice(&HALF_0_5.to_le_bytes());
        data.extend_from_slice(&patterned(16, k * 16, 37, 11));
    }
    let vals = values(&dequantize(&data, GgmlType::IQ4NL, 64));
    check(&vals, IQ4NL_EXPECTED, IQ4NL_SUM, "iq4_nl");
}

const Q4K_EXPECTED: &[(usize, f32)] = &[
    (0, 149.25), (17, -10.25), (34, 105.0), (51, 273.0), (68, 18.75), (85, 2.25),
    (102, 79.5), (119, 156.5), (136, 0.75), (153, 13.25), (170, 124.0), (187, 28.0),
    (204, 205.25), (221, 352.75), (238, 98.5), (255, 35.5), (256, 2.25), (273, -3.25),
    (290, 122.0), (307, 32.0), (324, 279.75), (341, 65.25), (358, -1.5), (375, 201.5),
    (392, 7.25), (409, 29.75), (426, 30.5), (443, 142.5), (460, 151.75), (477, 269.25),
    (494, 168.75), (511, 343.75),
];

const Q4K_SUM: f64 = 50432.0;

const Q5K_EXPECTED: &[(usize, f32)] = &[
    (0, 381.25), (17, -10.25), (34, 489.0), (51, 657.0), (68, 42.75), (85, 2.25),
    (102, 79.5), (119, 332.5), (136, 0.75), (153, 53.25), (170, 124.0), (187, 28.0),
    (204, 677.25), (221, 824.75), (238, 98.5), (255, 35.5), (256, 10.25), (273, -3.25),
    (290, 282.0), (307, 192.0), (324, 591.75), (341, 65.25), (358, -1.5), (375, 665.5),
    (392, 7.25), (409, 101.75), (426, 254.5), (443, 366.5), (460, 151.75), (477, 269.25),
    (494, 568.75), (511, 743.75),
];

const Q5K_SUM: f64 = 109472.0;

const Q6K_EXPECTED: &[(usize, f32)] = &[
    (0, -72.5), (17, -1792.0), (34, 335.5), (51, -242.0), (68, 1312.5), (85, -34.0),
    (102, -60.0), (119, -49.0), (136, 487.5), (153, -96.0), (170, 1319.5), (187, -82.0),
    (204, 8.0), (221, 294.0), (238, -667.5), (255, -18.0), (256, -192.5), (273, 1536.0),
    (290, 71.5), (307, -770.0), (324, -875.5), (341, -90.0), (358, -1008.0), (375, 1375.0),
    (392, 175.5), (409, -672.0), (426, -1696.5), (443, -34.0), (460, 588.0), (477, -930.0),
    (494, 184.5), (511, -42.0),
];

const Q6K_SUM: f64 = -788.0;

const Q2K_EXPECTED: &[(usize, f32)] = &[
    (0, 19.25), (17, -1.75), (34, -1.5), (51, 5.75), (68, 3.0), (85, 3.25),
    (102, 22.5), (119, -0.5), (136, 4.75), (153, 0.0), (170, 15.25), (187, -2.5),
    (204, 1.0), (221, 0.75), (238, 4.5), (255, -3.75), (256, 18.5), (273, -2.5),
    (290, -2.25), (307, 5.0), (324, 2.25), (341, 2.5), (358, -0.75), (375, -0.25),
    (392, 4.0), (409, -0.75), (426, 14.5), (443, -3.25), (460, 0.25), (477, 0.0),
    (494, 7.25), (511, 4.5),
];

const Q2K_SUM: f64 = 1886.0;

const Q3K_EXPECTED: &[(usize, f32)] = &[
    (0, -4.5), (17, 64.0), (34, 9.5), (51, 6.0), (68, -3.5), (85, -18.0),
    (102, -7.5), (119, 9.0), (136, -8.5), (153, -0.0), (170, 2.0), (187, -2.0),
    (204, 6.0), (221, -10.5), (238, 16.0), (255, -12.0), (256, -22.5), (273, 56.0),
    (290, 11.5), (307, 10.0), (324, 6.5), (341, -24.0), (358, -38.0), (375, -26.0),
    (392, 8.0), (409, 0.0), (426, 39.0), (443, -0.0), (460, -4.0), (477, -39.0),
    (494, -25.5), (511, 2.0),
];

const Q3K_SUM: f64 = -271.5;

const Q5_0_EXPECTED: &[(usize, f32)] = &[
    (0, 5.5), (1, -8.0), (2, -5.5), (3, -3.0), (4, 7.5), (5, -6.0),
    (6, -3.5), (7, -1.0), (8, -6.5), (9, -4.0), (10, 6.5), (11, 1.0),
    (12, -4.5), (13, -2.0), (14, 0.5), (15, -5.0), (16, 0.0), (17, 1.5),
    (18, 2.5), (19, -4.5), (20, -3.5), (21, -2.0), (22, -1.0), (23, 0.0),
    (24, -6.5), (25, 2.5), (26, -4.5), (27, -3.0), (28, -2.0), (29, -1.0),
    (30, 0.5), (31, 1.5), (32, 5.5), (33, -8.0), (34, 2.5), (35, 5.0),
    (36, 7.5), (37, 2.0), (38, 4.5), (39, 7.0), (40, -6.5), (41, -4.0),
    (42, -1.5), (43, 1.0), (44, 3.5), (45, 6.0), (46, -7.5), (47, -5.0),
    (48, 2.5), (49, 4.0), (50, -3.0), (51, -2.0), (52, 7.0), (53, 0.5),
    (54, 1.5), (55, -5.5), (56, -4.0), (57, 5.0), (58, 6.0), (59, 7.5),
    (60, -7.5), (61, 1.5), (62, -5.0), (63, 4.0),
];

const Q5_0_SUM: f64 = -23.0;

const Q5_1_EXPECTED: &[(usize, f32)] = &[
    (0, 13.75), (1, 0.25), (2, 2.75), (3, 5.25), (4, 15.75), (5, 2.25),
    (6, 4.75), (7, 7.25), (8, 1.75), (9, 4.25), (10, 14.75), (11, 9.25),
    (12, 3.75), (13, 6.25), (14, 8.75), (15, 3.25), (16, 8.25), (17, 9.75),
    (18, 10.75), (19, 3.75), (20, 4.75), (21, 6.25), (22, 7.25), (23, 8.25),
    (24, 1.75), (25, 10.75), (26, 3.75), (27, 5.25), (28, 6.25), (29, 7.25),
    (30, 8.75), (31, 9.75), (32, 13.75), (33, 0.25), (34, 10.75), (35, 13.25),
    (36, 15.75), (37, 10.25), (38, 12.75), (39, 15.25), (40, 1.75), (41, 4.25),
    (42, 6.75), (43, 9.25), (44, 11.75), (45, 14.25), (46, 0.75), (47, 3.25),
    (48, 10.75), (49, 12.25), (50, 5.25), (51, 6.25), (52, 15.25), (53, 8.75),
    (54, 9.75), (55, 2.75), (56, 4.25), (57, 13.25), (58, 14.25), (59, 15.75),
    (60, 0.75), (61, 9.75), (62, 3.25), (63, 12.25),
];

const Q5_1_SUM: f64 = 505.0;

const IQ4NL_EXPECTED: &[(usize, f32)] = &[
    (0, 19.0), (1, -63.5), (2, -17.5), (3, 12.5), (4, 56.5), (5, -24.5),
    (6, 6.5), (7, 44.5), (8, -32.5), (9, 0.5), (10, 34.5), (11, -41.5),
    (12, -5.0), (13, 26.5), (14, -52.0), (15, -11.0), (16, -63.5), (17, -32.5),
    (18, -17.5), (19, -5.0), (20, 6.5), (21, 26.5), (22, 44.5), (23, -63.5),
    (24, -32.5), (25, -17.5), (26, -5.0), (27, 12.5), (28, 26.5), (29, 44.5),
    (30, -52.0), (31, -32.5), (32, 19.0), (33, -63.5), (34, -17.5), (35, 12.5),
    (36, 56.5), (37, -24.5), (38, 6.5), (39, 44.5), (40, -32.5), (41, 0.5),
    (42, 34.5), (43, -41.5), (44, -5.0), (45, 26.5), (46, -52.0), (47, -11.0),
    (48, -17.5), (49, 0.5), (50, 12.5), (51, 26.5), (52, 44.5), (53, -52.0),
    (54, -32.5), (55, -17.5), (56, 0.5), (57, 12.5), (58, 26.5), (59, 56.5),
    (60, -52.0), (61, -32.5), (62, -11.0), (63, 0.5),
];

const IQ4NL_SUM: f64 = -289.0;

