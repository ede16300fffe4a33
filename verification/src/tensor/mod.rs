//! Tensors as the library sees them: shapes, strides and bit patterns.
//!
//! Values are 32-bit floating-point numbers, kept as their bit patterns. The
//! arithmetic on them belongs to the numeric kernels.
pub mod dequantize;
pub mod ggml;
pub mod half_float;
pub mod index;
pub mod packing;
pub mod quantized;
pub mod tensor;
pub mod tiles;
