//! Storage formats of weights.
use vstd::prelude::*;

verus! {

/// How the values of a tensor are stored.
#[derive(Clone, Copy, Debug, PartialEq, Eq, Structural)]
pub enum GgmlType {
    F32,
    F16,
    BF16,
    Q8_0,
    Q4_0,
    Q5_0,
    Q5_1,
    Q4K,
    Q5K,
    Q6K,
    Q2K,
    Q3K,
    IQ4NL,
    /// A format that the kernels cannot read.
    Other,
}

impl GgmlType {
    pub open spec fn spec_block_size(self) -> nat {
        match self {
            GgmlType::F32 | GgmlType::F16 | GgmlType::BF16 => 1,
            GgmlType::Q8_0 | GgmlType::Q4_0 | GgmlType::Q5_0 | GgmlType::Q5_1
            | GgmlType::IQ4NL => 32,
            _ => 256,
        }
    }

    pub open spec fn spec_type_size(self) -> nat {
        match self {
            GgmlType::F32 => 4,
            GgmlType::F16 => 2,
            GgmlType::BF16 => 2,
            GgmlType::Q8_0 => 34,
            GgmlType::Q4_0 => 18,
            GgmlType::Q5_0 => 22,
            GgmlType::Q5_1 => 24,
            GgmlType::Q4K => 144,
            GgmlType::Q5K => 176,
            GgmlType::Q6K => 210,
            GgmlType::Q2K => 84,
            GgmlType::Q3K => 110,
            GgmlType::IQ4NL => 18,
            GgmlType::Other => 0,
        }
    }

    /// Elements per block.
    pub fn block_size(self) -> (n: usize)
        ensures
            n == self.spec_block_size(),
            n > 0,
    {
        match self {
            GgmlType::F32 | GgmlType::F16 | GgmlType::BF16 => 1,
            GgmlType::Q8_0 | GgmlType::Q4_0 | GgmlType::Q5_0 | GgmlType::Q5_1
            | GgmlType::IQ4NL => 32,
            _ => 256,
        }
    }

    /// Bytes per block.
    pub fn type_size(self) -> (n: usize)
        ensures
            n == self.spec_type_size(),
            self.readable() ==> n > 0,
    {
        match self {
            GgmlType::F32 => 4,
            GgmlType::F16 => 2,
            GgmlType::BF16 => 2,
            GgmlType::Q8_0 => 34,
            GgmlType::Q4_0 => 18,
            GgmlType::Q5_0 => 22,
            GgmlType::Q5_1 => 24,
            GgmlType::Q4K => 144,
            GgmlType::Q5K => 176,
            GgmlType::Q6K => 210,
            GgmlType::Q2K => 84,
            GgmlType::Q3K => 110,
            GgmlType::IQ4NL => 18,
            GgmlType::Other => 0,
        }
    }

    /// True for the formats that the kernels can read.
    pub open spec fn readable(self) -> bool {
        self != GgmlType::Other
    }

    /// True for the formats that the kernels can read.
    pub fn is_readable(self) -> (b: bool)
        ensures
            b == self.readable(),
    {
        self != GgmlType::Other
    }

    /// True for the formats that store floating-point numbers one by one.
    pub open spec fn is_plain(self) -> bool {
        self == GgmlType::F32 || self == GgmlType::F16 || self == GgmlType::BF16
    }
}

/// Blocks that `n` elements take, the last one possibly cut short.
pub open spec fn blocks_for(ty: GgmlType, n: nat) -> nat {
    if ty.spec_block_size() == 1 {
        n
    } else if ty.spec_block_size() == 32 {
        (n + 31) / 32
    } else {
        (n + 255) / 256
    }
}

/// Bytes that `n` elements take.
pub open spec fn bytes_for(ty: GgmlType, n: nat) -> nat {
    blocks_for(ty, n) * ty.spec_type_size()
}

} // verus!
