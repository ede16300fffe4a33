//! Shapes, indices, tiles and rotated pairs.
use glint::tensor::quantized::{batch_columns, check_dims, check_dims_batch, QuantizedTensor};
use glint::tensor::ggml::GgmlType;
use glint::tensor::tensor::{compute_strides, embedding, numel_of, Tensor};
use glint::tensor::tiles::{tiles, Tile};
use glint::transformer::rotary::{permute_qk_rows, rope_pairs, Pair};

fn bits(v: &[f32]) -> Vec<u32> {
    v.iter().map(|x| x.to_bits()).collect()
}

#[test]
fn test_zeros() {
    let t = Tensor::zeros(&[2, 3]);
    assert_eq!(t.shape(), &[2, 3]);
    assert_eq!(t.numel(), 6);
    assert!(t.data().iter().all(|&v| f32::from_bits(v) == 0.0));
}

#[test]
fn test_strides() {
    assert_eq!(compute_strides(&[2, 3]), vec![3, 1]);
    assert_eq!(compute_strides(&[2, 3, 4]), vec![12, 4, 1]);
    assert_eq!(compute_strides(&[5]), vec![1]);
}

#[test]
fn test_indexing() {
    let t = Tensor::from_vec(bits(&[1.0, 2.0, 3.0, 4.0, 5.0, 6.0]), &[2, 3]);
    assert_eq!(f32::from_bits(t.get(&[0, 0])), 1.0);
    assert_eq!(f32::from_bits(t.get(&[0, 2])), 3.0);
    assert_eq!(f32::from_bits(t.get(&[1, 0])), 4.0);
    assert_eq!(f32::from_bits(t.get(&[1, 2])), 6.0);
}

#[test]
fn test_reshape() {
    let t = Tensor::from_vec(bits(&[1.0, 2.0, 3.0, 4.0, 5.0, 6.0]), &[2, 3]);
    let r = t.reshape(&[3, 2]);
    assert_eq!(r.shape(), &[3, 2]);
    assert_eq!(f32::from_bits(r.get(&[0, 0])), 1.0);
    assert_eq!(f32::from_bits(r.get(&[2, 1])), 6.0);
}

#[test]
fn test_row() {
    let t = Tensor::from_vec(bits(&[1.0, 2.0, 3.0, 4.0, 5.0, 6.0]), &[2, 3]);
    let row0 = t.row(0);
    assert_eq!(row0.data(), &bits(&[1.0, 2.0, 3.0])[..]);
    let row1 = t.row(1);
    assert_eq!(row1.data(), &bits(&[4.0, 5.0, 6.0])[..]);
}

#[test]
fn written_element_is_read_back_and_the_others_stay() {
    let mut t = Tensor::zeros(&[2, 2]);
    t.set(&[1, 0], 7);
    assert_eq!(t.data(), &[0, 0, 7, 0]);
    assert_eq!(t.get(&[1, 0]), 7);
    assert_eq!(t.get_flat(2), 7);
}

#[test]
fn sizes_that_do_not_fit_are_told() {
    assert_eq!(numel_of(&[2, 3, 4]), Some(24));
    assert_eq!(numel_of(&[]), Some(1));
    assert_eq!(numel_of(&[usize::MAX, 2]), None);
}

#[test]
fn test_embedding() {
    // 4-token vocab, 3-dim embeddings
    let weight = Tensor::from_vec(
        bits(&[
            0.1, 0.2, 0.3, // token 0
            0.4, 0.5, 0.6, // token 1
            0.7, 0.8, 0.9, // token 2
            1.0, 1.1, 1.2, // token 3
        ]),
        &[4, 3],
    );
    let result = embedding(&weight, &[2, 0]);
    assert_eq!(result.shape(), &[2, 3]);
    assert_eq!(&result.data()[0..3], &bits(&[0.7, 0.8, 0.9])[..]);
    assert_eq!(&result.data()[3..6], &bits(&[0.1, 0.2, 0.3])[..]);
}

#[test]
fn batched_product_splits_into_columns() {
    // Two rows, three sequences, interleaved.
    let columns = batch_columns(&[1, 2, 3, 10, 20, 30], 2, 3);
    assert_eq!(columns, vec![vec![1, 10], vec![2, 20], vec![3, 30]]);
}

#[test]
fn operands_must_cover_whole_blocks() {
    assert!(check_dims(GgmlType::Q8_0, 68, 2, 32, 32));
    assert!(!check_dims(GgmlType::Q8_0, 67, 2, 32, 32));
    assert!(!check_dims(GgmlType::Q8_0, 68, 2, 33, 33));
    assert!(!check_dims(GgmlType::Q8_0, 68, 2, 32, 31));
    assert!(check_dims(GgmlType::F32, 24, 2, 3, 3));
}

#[test]
fn every_vector_of_a_batch_must_fit() {
    let ty = GgmlType::Q8_0;
    assert!(check_dims_batch(ty, 68, 2, 32, &[32, 40], 4));
    assert!(!check_dims_batch(ty, 68, 2, 32, &[], 0));
    assert!(!check_dims_batch(ty, 68, 2, 32, &[32, 31], 4));
    assert!(!check_dims_batch(ty, 68, 2, 32, &[32, 32], 3));
    assert!(!check_dims_batch(ty, 67, 2, 32, &[32], 2));
}

#[test]
fn values_change_in_place() {
    let mut t = Tensor::from_vec(vec![1, 2, 3, 4], &[2, 2]);
    t.data_mut()[2] = 9;
    assert_eq!(t.data(), &[1, 2, 9, 4]);
    assert_eq!(t.shape(), &[2, 2]);
    assert_eq!(t.get(&[1, 0]), 9);
}

#[test]
fn plain_matrix_stores_its_patterns() {
    let t = QuantizedTensor::from_f32(&bits(&[1.0, -2.0]), 1, 2);
    assert_eq!(t.raw_data(), &[0, 0, 0x80, 0x3f, 0, 0, 0, 0xc0]);
    let copy = t.duplicate();
    assert_eq!((copy.rows(), copy.cols(), copy.ggml_type()), (1, 2, GgmlType::F32));
    assert_eq!(copy.raw_data(), t.raw_data());
}

#[test]
fn tiles_cover_the_window() {
    assert_eq!(
        tiles(5, 70),
        vec![
            Tile { start: 5, len: 32 },
            Tile { start: 37, len: 32 },
            Tile { start: 69, len: 6 },
        ]
    );
    assert_eq!(tiles(0, 64).len(), 2);
    assert!(tiles(3, 0).is_empty());
}

#[test]
fn rotation_pairs_neighbours_in_every_head() {
    assert_eq!(
        rope_pairs(8, 4, 4),
        vec![
            Pair { first: 0, dim: 0 },
            Pair { first: 4, dim: 0 },
            Pair { first: 2, dim: 2 },
            Pair { first: 6, dim: 2 },
        ]
    );
    // Only half of the dimensions, an odd number of them rounded down, a head cut off.
    assert_eq!(rope_pairs(7, 4, 3), vec![Pair { first: 0, dim: 0 }]);
    assert!(rope_pairs(8, 4, 0).is_empty());
    assert!(rope_pairs(8, 0, 4).is_empty());
}

fn reference_permute(rows: &[Vec<f32>], n_heads: usize, head_dim: usize) -> Vec<Vec<f32>> {
    let half = head_dim / 2;
    let mut out = vec![Vec::new(); rows.len()];
    for h in 0..n_heads {
        for a in 0..2 {
            for j in 0..half {
                out[h * head_dim + j * 2 + a] = rows[h * head_dim + a * half + j].clone();
            }
        }
    }
    out
}

fn rows_to_bytes(rows: &[Vec<f32>]) -> Vec<u8> {
    rows.iter()
        .flat_map(|r| r.iter().flat_map(|v| v.to_le_bytes()))
        .collect()
}

#[test]
fn test_permute_qk_rows_matches_numpy_swapaxes() {
    let (n_heads, head_dim, cols) = (3, 4, 2);
    let rows: Vec<Vec<f32>> = (0..n_heads * head_dim)
        .map(|r| (0..cols).map(|c| (r * cols + c) as f32).collect())
        .collect();

    let permuted = permute_qk_rows(&rows_to_bytes(&rows), n_heads, head_dim, head_dim, cols * 4);
    assert_eq!(
        permuted,
        rows_to_bytes(&reference_permute(&rows, n_heads, head_dim))
    );
}

#[test]
fn test_permute_leaves_non_rotary_rows_untouched() {
    // Partial rotary: only the first `rot_dim` rows of each head move.
    let (n_heads, head_dim, rot_dim, cols) = (2, 8, 4, 1);
    let rows: Vec<Vec<f32>> = (0..n_heads * head_dim).map(|r| vec![r as f32]).collect();
    let bytes = permute_qk_rows(&rows_to_bytes(&rows), n_heads, head_dim, rot_dim, cols * 4);
    let got: Vec<f32> = bytes
        .chunks_exact(4)
        .map(|b| f32::from_le_bytes([b[0], b[1], b[2], b[3]]))
        .collect();
    assert_eq!(got[0..8], [0.0, 2.0, 1.0, 3.0, 4.0, 5.0, 6.0, 7.0]);
    assert_eq!(got[8..16], [8.0, 10.0, 9.0, 11.0, 12.0, 13.0, 14.0, 15.0]);
}

#[test]
fn bytes_that_are_no_whole_heads_stay() {
    let bytes = vec![1u8, 2, 3, 4, 5];
    assert_eq!(permute_qk_rows(&bytes, 1, 4, 4, 1), bytes);
    assert_eq!(permute_qk_rows(&bytes, 5, 1, 1, 1), bytes);
    assert_eq!(permute_qk_rows(&bytes, usize::MAX, usize::MAX, 2, 1), bytes);
}

/// Rotating neighbours after the permutation gives what rotating the two halves of a
/// head gives before it.
#[test]
fn test_permuted_rope_matches_hf_rotate_half() {
    let (head_dim, base, pos) = (8usize, 10000.0f32, 5usize);
    let half = head_dim / 2;
    let q: Vec<f32> = (0..head_dim).map(|i| 0.3 * i as f32 - 1.0).collect();

    let mut hf = vec![0.0f32; head_dim];
    for j in 0..half {
        let freq = base.powf(-2.0 * j as f32 / head_dim as f32);
        let (c, s) = ((pos as f32 * freq).cos(), (pos as f32 * freq).sin());
        hf[j] = q[j] * c - q[j + half] * s;
        hf[j + half] = q[j + half] * c + q[j] * s;
    }

    let rows: Vec<Vec<f32>> = q.iter().map(|&v| vec![v]).collect();
    let permuted: Vec<f32> = permute_qk_rows(&rows_to_bytes(&rows), 1, head_dim, head_dim, 4)
        .chunks_exact(4)
        .map(|b| f32::from_le_bytes([b[0], b[1], b[2], b[3]]))
        .collect();
    let mut rotated = permuted.clone();
    for p in rope_pairs(head_dim, head_dim, head_dim) {
        let freq = base.powf(-(p.dim as f32) / head_dim as f32);
        let (c, s) = ((pos as f32 * freq).cos(), (pos as f32 * freq).sin());
        let (x0, x1) = (permuted[p.first], permuted[p.first + 1]);
        rotated[p.first] = x0 * c - x1 * s;
        rotated[p.first + 1] = x0 * s + x1 * c;
    }

    let hf_rows: Vec<Vec<f32>> = hf.iter().map(|&v| vec![v]).collect();
    let expected: Vec<f32> = reference_permute(&hf_rows, 1, head_dim).iter().map(|r| r[0]).collect();
    for (got, want) in rotated.iter().zip(&expected) {
        assert!((got - want).abs() < 1e-5, "rotated {rotated:?} != {expected:?}");
    }
}

#[test]
fn plain_data_has_one_dimension() {
    let t = Tensor::from_data(vec![5, 6, 7]);
    assert_eq!(t.shape(), &[3]);
    assert_eq!(t.strides(), &[1]);
    assert_eq!(t.data(), &[5, 6, 7]);
    assert_eq!(t.get(&[2]), 7);
    let none = Tensor::from_data(vec![]);
    assert_eq!(none.shape(), &[0]);
    assert_eq!(none.numel(), 0);
}

#[test]
fn borrowed_data_is_copied_in_order() {
    let values = [1, 2, 3, 4, 5, 6];
    let t = Tensor::from_slice(&values, &[2, 3]);
    assert_eq!(t.shape(), &[2, 3]);
    assert_eq!(t.data(), &values);
    assert_eq!(t.get(&[1, 0]), 4);
}

#[test]
fn indices_fill_the_data_without_gaps() {
    let t = Tensor::from_vec((0..24).collect(), &[2, 3, 4]);
    let mut seen: Vec<u32> = Vec::new();
    for i in 0..2 {
        for j in 0..3 {
            for k in 0..4 {
                seen.push(t.get(&[i, j, k]));
            }
        }
    }
    seen.sort();
    assert_eq!(seen, (0..24).collect::<Vec<u32>>());
}
