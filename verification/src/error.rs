//! The errors that the library reports.
use vstd::prelude::*;

verus! {

/// Everything that can go wrong while loading, restoring or running a model.
#[allow(inconsistent_fields)]
#[derive(Debug)]
pub enum GlintError {
    /// A snapshot ended before a field that its header announces, or carries an
    /// unknown cache-format tag.
    SnapshotTruncated,
    /// The first eight bytes are not the snapshot magic.
    SnapshotBadMagic,
    /// The snapshot was written by another version of the format.
    SnapshotVersionUnsupported { found: u32, current: u32 },
    /// The snapshot belongs to another model file.
    SnapshotModelMismatch { expected: u64, found: u64 },
    /// A dimension recorded in the snapshot differs from the loaded model's.
    SnapshotMetaMismatch { field: &'static str, expected: u64, found: u64 },
    /// The page pool cannot hand out as many pages as a reservation needs.
    KvPagePoolExhausted { needed: usize, available: usize },
    /// The model file has no tensor of that name.
    TensorNotFound(String),
    /// A tensor has a number of dimensions that its place does not allow.
    InvalidTensorShape { name: String, ndim: usize },
    /// A tensor disagrees with the model's configuration.
    TensorReadError { name: String, detail: String },
    /// A tensor is stored in a format that the kernels cannot read.
    SafeTensorsUnsupportedDtype { name: String, dtype: String },
    /// A tensor is quantised in a way that cannot be unpacked.
    UnsupportedQuantization(String),
    /// The checkpoint uses a layout that the forward pass cannot express.
    HfUnsupported(String),
}

/// What an error about a model file says, text by its characters.
pub enum Fault {
    NotFound(Seq<char>),
    Shape { name: Seq<char>, ndim: nat },
    Read { name: Seq<char>, detail: Seq<char> },
    Dtype { name: Seq<char>, dtype: Seq<char> },
    Quantization(Seq<char>),
    Unsupported(Seq<char>),
    Other,
}

impl GlintError {
    pub open spec fn fault(&self) -> Fault {
        match self {
            GlintError::TensorNotFound(name) => Fault::NotFound(name@),
            GlintError::InvalidTensorShape { name, ndim } => Fault::Shape {
                name: name@,
                ndim: *ndim as nat,
            },
            GlintError::TensorReadError { name, detail } => Fault::Read {
                name: name@,
                detail: detail@,
            },
            GlintError::SafeTensorsUnsupportedDtype { name, dtype } => Fault::Dtype {
                name: name@,
                dtype: dtype@,
            },
            GlintError::UnsupportedQuantization(what) => Fault::Quantization(what@),
            GlintError::HfUnsupported(what) => Fault::Unsupported(what@),
            _ => Fault::Other,
        }
    }
}

} // verus!
