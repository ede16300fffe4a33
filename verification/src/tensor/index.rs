//! The tensors of a model file, found by name.
use vstd::prelude::*;

use crate::error::{Fault, GlintError};
use crate::tensor::dequantize::{dequantize, unpacked, Dequantized};
use crate::tensor::ggml::{bytes_for, GgmlType};
use crate::tensor::quantized::QuantizedTensor;
use crate::tensor::tensor::{numel_of, product, strides_fit};
use crate::text::same_text;

verus! {

/// One tensor of a model file.
#[derive(Debug)]
pub struct StoredTensor {
    pub name: String,
    /// The name of the storage format, as the file gives it.
    pub dtype: String,
    /// The storage format, where the kernels know it.
    pub format: Option<GgmlType>,
    /// The dimensions in the file's own order.
    pub shape: Vec<usize>,
    pub data: Vec<u8>,
}

impl StoredTensor {
    /// The bytes hold as many elements as the shape has. A format that is given is one
    /// that the kernels can read.
    pub open spec fn whole(&self) -> bool {
        &&& product(self.shape@) <= usize::MAX
        &&& strides_fit(self.shape@)
        &&& self.format is Some ==> self.format->0.readable() && bytes_for(
            self.format->0,
            product(self.shape@),
        ) <= self.data@.len()
    }
}

/// The first tensor of that name.
pub open spec fn find(tensors: Seq<StoredTensor>, name: Seq<char>) -> Option<StoredTensor>
    decreases tensors.len(),
{
    if tensors.len() == 0 {
        None
    } else if tensors[0].name@ == name {
        Some(tensors[0])
    } else {
        find(tensors.skip(1), name)
    }
}

/// The tensors of a model file.
#[derive(Debug)]
pub struct TensorIndex {
    pub tensors: Vec<StoredTensor>,
}

/// The tensor of that name, if there is one, has the bytes that its shape asks for.
pub open spec fn whole_if_there(tensors: Seq<StoredTensor>, name: Seq<char>) -> bool {
    find(tensors, name) is Some ==> find(tensors, name)->0.whole()
}

impl TensorIndex {
    /// The tensor of that name.
    pub fn get(&self, name: &str) -> (t: Option<&StoredTensor>)
        ensures
            match t {
                Some(t) => find(self.tensors@, name@) == Some(*t),
                None => find(self.tensors@, name@) is None,
            },
    {
        let mut i: usize = 0;
        assert(self.tensors@.skip(0) =~= self.tensors@);
        while i < self.tensors.len()
            invariant
                i <= self.tensors@.len(),
                find(self.tensors@.skip(i as int), name@) == find(self.tensors@, name@),
            decreases self.tensors@.len() - i,
        {
            if same_text(self.tensors[i].name.as_str(), name) {
                return Some(&self.tensors[i]);
            }
            assert(self.tensors@.skip(i as int).skip(1) =~= self.tensors@.skip(i + 1));
            i = i + 1;
        }
        None
    }

    /// True if the file has a tensor of that name.
    pub fn contains(&self, name: &str) -> (b: bool)
        ensures
            b == (find(self.tensors@, name@) is Some),
    {
        self.get(name).is_some()
    }

    /// True if the bytes of that tensor, if there is one, fill its shape.
    pub fn is_whole_if_there(&self, name: &str) -> (b: bool)
        ensures
            b == whole_if_there(self.tensors@, name@),
    {
        match self.get(name) {
            Some(t) => tensor_is_whole(t),
            None => true,
        }
    }
}

fn tensor_is_whole(t: &StoredTensor) -> (b: bool)
    ensures
        b == t.whole(),
{
    match numel_of(t.shape.as_slice()) {
        Some(n) => match t.format {
            Some(ty) => {
                let blocks: u128 = crate::tensor::quantized::count_blocks(ty, n) as u128;
                let size: u128 = ty.type_size() as u128;
                assert(blocks * size <= 0xFFFF_FFFF_FFFF_FFFF * 210) by (nonlinear_arith)
                    requires
                        blocks <= 0xFFFF_FFFF_FFFF_FFFF,
                        size <= 210,
                ;
                ty.is_readable() && blocks * size <= t.data.len() as u128
            },
            None => true,
        },
        None => false,
    }
}

// ── Column-major files ───────────────────────────────────────────────────────

/// The number of rows and columns of a tensor whose file lists the dimension
/// that varies fastest first.
pub open spec fn rows_cols(dims: Seq<usize>) -> Option<(usize, usize)> {
    if dims.len() == 1 {
        Some((dims[0], 1))
    } else if dims.len() == 2 {
        Some((dims[1], dims[0]))
    } else {
        None
    }
}

/// A matrix by its contents.
pub struct Matrix {
    pub bytes: Seq<u8>,
    pub rows: nat,
    pub cols: nat,
    pub ty: GgmlType,
}

/// The contents of a matrix.
pub open spec fn matrix(t: QuantizedTensor) -> Matrix {
    Matrix { bytes: t.bytes(), rows: t.n_rows(), cols: t.n_cols(), ty: t.ty() }
}

/// What loading a weight matrix of a column-major file gives. A format that the kernels
/// cannot read is carried along: it matters only once the matrix is used.
pub open spec fn gguf_matrix(tensors: Seq<StoredTensor>, name: Seq<char>) -> Result<Matrix, Fault> {
    match find(tensors, name) {
        None => Err(Fault::NotFound(name)),
        Some(t) => match rows_cols(t.shape@) {
            None => Err(Fault::Shape { name, ndim: t.shape@.len() }),
            Some((rows, cols)) => Ok(
                Matrix {
                    bytes: t.data@,
                    rows: rows as nat,
                    cols: cols as nat,
                    ty: match t.format {
                        Some(ty) => ty,
                        None => GgmlType::Other,
                    },
                },
            ),
        },
    }
}

/// A load does what its contract says: the same matrix, or the same error.
pub open spec fn loads_matrix(
    r: Result<QuantizedTensor, GlintError>,
    want: Result<Matrix, Fault>,
) -> bool {
    match (r, want) {
        (Ok(t), Ok(m)) => matrix(t) == m,
        (Err(e), Err(f)) => e.fault() == f,
        _ => false,
    }
}

impl QuantizedTensor {
    /// Load a weight matrix of a column-major file, its bytes as they are. The
    /// dimensions are reversed: rows come first here.
    pub fn load(model: &TensorIndex, name: &str) -> (r: Result<QuantizedTensor, GlintError>)
        ensures
            loads_matrix(r, gguf_matrix(model.tensors@, name@)),
    {
        let t = match model.get(name) {
            Some(t) => t,
            None => {
                return Err(GlintError::TensorNotFound(name.to_string()));
            },
        };
        let (rows, cols): (usize, usize) = if t.shape.len() == 1 {
            (t.shape[0], 1)
        } else if t.shape.len() == 2 {
            (t.shape[1], t.shape[0])
        } else {
            return Err(
                GlintError::InvalidTensorShape { name: name.to_string(), ndim: t.shape.len() },
            );
        };
        let ty = match t.format {
            Some(ty) => ty,
            None => GgmlType::Other,
        };
        Ok(
            QuantizedTensor::from_raw(
                vstd::slice::slice_to_vec(t.data.as_slice()),
                rows,
                cols,
                ty,
            ),
        )
    }
}

// ── Unpacked tensors ─────────────────────────────────────────────────────────

/// An unpacked tensor: its values, and its shape with the slowest dimension
/// first.
#[derive(Debug)]
pub struct LoadedTensor {
    pub values: Dequantized,
    pub shape: Vec<usize>,
}

/// What a tensor is unpacked from.
pub struct Packed {
    pub bytes: Seq<u8>,
    pub ty: GgmlType,
    pub shape: Seq<usize>,
}

/// `t` holds the values that `p` packs, in the same shape.
pub open spec fn unpacks(t: LoadedTensor, p: Packed) -> bool {
    &&& t.shape@ == p.shape
    &&& unpacked(p.bytes, p.ty, product(p.shape), t.values)
}

/// What loading an unpacked tensor of a column-major file gives.
pub open spec fn gguf_vector(tensors: Seq<StoredTensor>, name: Seq<char>) -> Result<Packed, Fault> {
    match find(tensors, name) {
        None => Err(Fault::NotFound(name)),
        Some(t) => match t.format {
            None => Err(Fault::Quantization(t.dtype@)),
            Some(ty) => Ok(Packed { bytes: t.data@, ty, shape: t.shape@.reverse() }),
        },
    }
}

/// A load does what its contract says: the values packed there, or the error.
pub open spec fn loads_vector(
    r: Result<LoadedTensor, GlintError>,
    want: Result<Packed, Fault>,
) -> bool {
    match (r, want) {
        (Ok(t), Ok(p)) => unpacks(t, p),
        (Err(e), Err(f)) => e.fault() == f,
        _ => false,
    }
}

/// The number of elements does not depend on the order of the dimensions.
pub proof fn law_reversing_keeps_the_count(shape: Seq<usize>)
    ensures
        product(shape.reverse()) == product(shape),
    decreases shape.len(),
{
    if shape.len() > 0 {
        let rest = shape.skip(1);
        law_reversing_keeps_the_count(rest);
        assert(shape.reverse() =~= rest.reverse().push(shape[0]));
        lemma_product_push(rest.reverse(), shape[0]);
        assert(product(rest) * shape[0] as nat == shape[0] as nat * product(rest))
            by (nonlinear_arith);
    }
}

proof fn lemma_product_push(s: Seq<usize>, n: usize)
    ensures
        product(s.push(n)) == product(s) * n as nat,
    decreases s.len(),
{
    if s.len() == 0 {
        assert(s.push(n).skip(1) =~= s);
        assert(product(s) == 1);
        assert(n as nat * product(s) == product(s) * n as nat) by (nonlinear_arith);
        assert(product(s.push(n)) == n as nat * product(s));
    } else {
        assert(s.push(n).skip(1) =~= s.skip(1).push(n));
        lemma_product_push(s.skip(1), n);
        let a = s[0] as nat;
        let p = product(s.skip(1));
        let m = n as nat;
        assert(a * (p * m) == (a * p) * m) by (nonlinear_arith);
    }
}

/// Load a tensor of a column-major file and unpack it. The dimensions are
/// reversed: the slowest comes first here.
pub fn load_tensor_f32(model: &TensorIndex, name: &str) -> (r: Result<LoadedTensor, GlintError>)
    requires
        whole_if_there(model.tensors@, name@),
    ensures
        loads_vector(r, gguf_vector(model.tensors@, name@)),
{
    let t = match model.get(name) {
        Some(t) => t,
        None => {
            return Err(GlintError::TensorNotFound(name.to_string()));
        },
    };
    let ty = match t.format {
        Some(ty) => ty,
        None => {
            return Err(GlintError::UnsupportedQuantization(t.dtype.clone()));
        },
    };
    let mut shape: Vec<usize> = Vec::new();
    let mut i: usize = t.shape.len();
    while i > 0
        invariant
            i <= t.shape@.len(),
            shape@ == t.shape@.skip(i as int).reverse(),
        decreases i,
    {
        i = i - 1;
        shape.push(t.shape[i]);
        assert(shape@ =~= t.shape@.skip(i as int).reverse());
    }
    assert(t.shape@.skip(0) =~= t.shape@);
    proof {
        law_reversing_keeps_the_count(t.shape@);
    }
    match numel_of(t.shape.as_slice()) {
        Some(n) => Ok(
            LoadedTensor { values: dequantize(t.data.as_slice(), ty, n), shape },
        ),
        None => vstd::pervasive::unreached(),
    }
}

/// A tensor is found under a name exactly if one has it; where several have it, the first
/// one is.
pub proof fn law_the_first_of_a_name_is_found(tensors: Seq<StoredTensor>, name: Seq<char>)
    ensures
        match find(tensors, name) {
            Some(t) => exists|i: int|
                0 <= i < tensors.len() && tensors[i] == t && (#[trigger] tensors[i]).name@ == name
                    && forall|j: int| 0 <= j < i ==> (#[trigger] tensors[j]).name@ != name,
            None => forall|i: int| 0 <= i < tensors.len() ==> (#[trigger] tensors[i]).name@ != name,
        },
    decreases tensors.len(),
{
    if tensors.len() > 0 {
        if tensors[0].name@ == name {
            assert(tensors[0] == find(tensors, name)->0);
        } else {
            let rest = tensors.skip(1);
            law_the_first_of_a_name_is_found(rest, name);
            if find(tensors, name) is Some {
                let i = choose|i: int|
                    0 <= i < rest.len() && rest[i] == find(rest, name)->0 && (
                    #[trigger] rest[i]).name@ == name && forall|j: int|
                        0 <= j < i ==> (#[trigger] rest[j]).name@ != name;
                assert(tensors[i + 1] == rest[i]);
                assert forall|j: int| 0 <= j < i + 1 implies (#[trigger] tensors[j]).name@
                    != name by {
                    if j > 0 {
                        assert(rest[j - 1] == tensors[j]);
                    }
                }
            } else {
                assert forall|j: int| 0 <= j < tensors.len() implies (#[trigger] tensors[j]).name@
                    != name by {
                    if j > 0 {
                        assert(rest[j - 1] == tensors[j]);
                    }
                }
            }
        }
    }
}

/// A matrix has a row for each of the dimensions that vary slowest in the file, and a column
/// for each that vary fastest; together they are all its elements.
pub proof fn law_matrices_have_all_elements(tensors: Seq<StoredTensor>, name: Seq<char>)
    requires
        gguf_matrix(tensors, name) is Ok,
    ensures
        ({
            let t = find(tensors, name)->0;
            let m = gguf_matrix(tensors, name)->Ok_0;
            &&& m.rows * m.cols == product(t.shape@)
            &&& t.shape@.len() == 2 ==> m.cols == t.shape@[0] && m.rows == t.shape@[1]
            &&& m.bytes == t.data@
            &&& t.format is Some ==> m.ty == t.format->0
        }),
{
    let s = find(tensors, name)->0.shape@;
    reveal_with_fuel(product, 3);
    if s.len() == 2 {
        assert(s.skip(1)[0] == s[1]);
        assert(s[0] as nat * s[1] as nat == s[1] as nat * s[0] as nat) by (nonlinear_arith);
        assert(product(s.skip(1)) == s[1]);
    }
}

} // verus!
