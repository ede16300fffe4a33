//! Weight matrices kept in their storage format.
use vstd::prelude::*;
use vstd::slice::slice_subrange;

use crate::bytes::{le_bytes, write_u32};
use crate::tensor::dequantize::{dequantize, unpacked, Dequantized};
use crate::tensor::ggml::{blocks_for, bytes_for, GgmlType};

verus! {

/// A weight matrix in its storage format: raw bytes, row after row.
#[derive(Debug)]
pub struct QuantizedTensor {
    data: Vec<u8>,
    rows: usize,
    cols: usize,
    ggml_type: GgmlType,
}

/// The bytes of 32-bit patterns, from index `i` on.
pub open spec fn pattern_bytes(v: Seq<u32>, i: int) -> Seq<u8>
    decreases v.len() - i,
{
    if i >= v.len() {
        Seq::empty()
    } else {
        le_bytes(v[i] as nat, 4) + pattern_bytes(v, i + 1)
    }
}

/// Blocks that `n` elements take, the last one possibly cut short.
pub fn count_blocks(ty: GgmlType, n: usize) -> (k: usize)
    ensures
        k == blocks_for(ty, n as nat),
{
    let bs: usize = ty.block_size();
    if bs == 1 {
        n
    } else if bs == 32 {
        n / 32 + if n % 32 == 0 {
            0
        } else {
            1
        }
    } else {
        n / 256 + if n % 256 == 0 {
            0
        } else {
            1
        }
    }
}

impl QuantizedTensor {
    pub closed spec fn bytes(&self) -> Seq<u8> {
        self.data@
    }

    pub closed spec fn n_rows(&self) -> nat {
        self.rows as nat
    }

    pub closed spec fn n_cols(&self) -> nat {
        self.cols as nat
    }

    pub closed spec fn ty(&self) -> GgmlType {
        self.ggml_type
    }

    /// The bytes hold every row.
    pub open spec fn holds_rows(&self) -> bool {
        self.n_rows() * bytes_for(self.ty(), self.n_cols()) <= self.bytes().len()
    }

    /// A matrix over raw bytes.
    pub fn from_raw(data: Vec<u8>, rows: usize, cols: usize, ggml_type: GgmlType) -> (t: Self)
        ensures
            t.bytes() == data@,
            t.n_rows() == rows,
            t.n_cols() == cols,
            t.ty() == ggml_type,
    {
        QuantizedTensor { data, rows, cols, ggml_type }
    }

    /// A matrix of 32-bit values, given as bit patterns.
    pub fn from_f32(values: &[u32], rows: usize, cols: usize) -> (t: Self)
        requires
            values@.len() == rows * cols,
        ensures
            t.bytes() == pattern_bytes(values@, 0),
            t.n_rows() == rows,
            t.n_cols() == cols,
            t.ty() == GgmlType::F32,
            t.bytes().len() == 4 * values@.len(),
    {
        let mut data: Vec<u8> = Vec::new();
        let mut i: usize = 0;
        while i < values.len()
            invariant
                i <= values@.len(),
                data@ + pattern_bytes(values@, i as int) == pattern_bytes(values@, 0),
                data@.len() == 4 * i,
            decreases values@.len() - i,
        {
            let ghost before = data@;
            write_u32(&mut data, values[i]);
            i = i + 1;
            proof {
                crate::bytes::lemma_le_bytes_len(values@[i - 1] as nat, 4);
                assert(data@ + pattern_bytes(values@, i as int) =~= before + pattern_bytes(
                    values@,
                    i - 1,
                ));
            }
        }
        assert(data@ =~= pattern_bytes(values@, 0));
        QuantizedTensor { data, rows, cols, ggml_type: GgmlType::F32 }
    }

    pub fn rows(&self) -> (n: usize)
        ensures
            n == self.n_rows(),
    {
        self.rows
    }

    pub fn cols(&self) -> (n: usize)
        ensures
            n == self.n_cols(),
    {
        self.cols
    }

    pub fn ggml_type(&self) -> (t: GgmlType)
        ensures
            t == self.ty(),
    {
        self.ggml_type
    }

    pub fn raw_data(&self) -> (d: &[u8])
        ensures
            d@ == self.bytes(),
    {
        self.data.as_slice()
    }

    /// A copy.
    pub fn duplicate(&self) -> (t: Self)
        ensures
            t.bytes() == self.bytes(),
            t.n_rows() == self.n_rows(),
            t.n_cols() == self.n_cols(),
            t.ty() == self.ty(),
    {
        QuantizedTensor {
            data: vstd::slice::slice_to_vec(self.data.as_slice()),
            rows: self.rows,
            cols: self.cols,
            ggml_type: self.ggml_type,
        }
    }

    /// The bytes of one row.
    pub fn row_bytes(&self, row: usize) -> (b: &[u8])
        requires
            self.holds_rows(),
            row < self.n_rows(),
        ensures
            b@ == self.bytes().subrange(
                (row * bytes_for(self.ty(), self.n_cols())) as int,
                ((row + 1) * bytes_for(self.ty(), self.n_cols())) as int,
            ),
            b@.len() == bytes_for(self.ty(), self.n_cols()),
    {
        let bb: usize = self.ggml_type.type_size();
        let len: usize = self.data.len();
        let n_blocks: usize = count_blocks(self.ggml_type, self.cols);
        proof {
            let per = n_blocks * bb;
            assert((row + 1) * per <= self.rows * per) by (nonlinear_arith)
                requires
                    row + 1 <= self.rows,
                    per >= 0,
            ;
            assert((row + 1) * per == row * per + per) by (nonlinear_arith);
            assert(row * per >= 0) by (nonlinear_arith)
                requires
                    row >= 0,
                    per >= 0,
            ;
        }
        let per: usize = n_blocks * bb;
        slice_subrange(self.data.as_slice(), row * per, row * per + per)
    }

    /// Unpack one row, such as one token's embedding.
    pub fn row_as_f32(&self, row: usize) -> (r: Dequantized)
        requires
            self.ty().readable(),
            self.holds_rows(),
            row < self.n_rows(),
        ensures
            unpacked(
                self.bytes().subrange(
                    (row * bytes_for(self.ty(), self.n_cols())) as int,
                    ((row + 1) * bytes_for(self.ty(), self.n_cols())) as int,
                ),
                self.ty(),
                self.n_cols(),
                r,
            ),
    {
        dequantize(self.row_bytes(row), self.ggml_type, self.cols)
    }
}

/// What a matrix product needs of its operands: a format that can be read, whole
/// blocks, a vector that covers a row, and bytes that cover every row.
pub open spec fn dims_fit(
    ty: GgmlType,
    data_len: nat,
    rows: nat,
    cols: nat,
    vec_len: nat,
) -> bool {
    &&& ty.readable()
    &&& cols % ty.spec_block_size() == 0
    &&& vec_len >= cols
    &&& data_len >= rows * (cols / ty.spec_block_size() * ty.spec_type_size())
}

/// Check the operands of a matrix product.
pub fn check_dims(ty: GgmlType, data_len: usize, rows: usize, cols: usize, vec_len: usize) -> (ok: bool)
    ensures
        ok == dims_fit(ty, data_len as nat, rows as nat, cols as nat, vec_len as nat),
{
    let bs: usize = ty.block_size();
    let bb: usize = ty.type_size();
    if !ty.is_readable() || cols % bs != 0 || vec_len < cols {
        return false;
    }
    let n_blocks: usize = cols / bs;
    assert(n_blocks * bb <= 0x1_0000_0000_0000_0000 * 210) by (nonlinear_arith)
        requires
            n_blocks <= 0xFFFF_FFFF_FFFF_FFFF,
            bb <= 210,
    ;
    let per_row: u128 = n_blocks as u128 * bb as u128;
    match (rows as u128).checked_mul(per_row) {
        Some(need) => data_len as u128 >= need,
        None => false,
    }
}

/// Check the operands of a batched matrix product: at least one vector, each of which a
/// row can be applied to, and room for a result per row and vector.
pub fn check_dims_batch(
    ty: GgmlType,
    data_len: usize,
    rows: usize,
    cols: usize,
    vec_lens: &[usize],
    out_len: usize,
) -> (ok: bool)
    ensures
        ok == {
            &&& vec_lens@.len() > 0
            &&& forall|i: int|
                0 <= i < vec_lens@.len() ==> dims_fit(
                    ty,
                    data_len as nat,
                    rows as nat,
                    cols as nat,
                    #[trigger] vec_lens@[i] as nat,
                )
            &&& out_len == rows * vec_lens@.len()
        },
{
    if vec_lens.len() == 0 {
        return false;
    }
    let mut i: usize = 0;
    while i < vec_lens.len()
        invariant
            i <= vec_lens@.len(),
            forall|j: int|
                0 <= j < i ==> dims_fit(
                    ty,
                    data_len as nat,
                    rows as nat,
                    cols as nat,
                    #[trigger] vec_lens@[j] as nat,
                ),
        decreases vec_lens@.len() - i,
    {
        if !check_dims(ty, data_len, rows, cols, vec_lens[i]) {
            return false;
        }
        i = i + 1;
    }
    match rows.checked_mul(vec_lens.len()) {
        Some(n) => out_len == n,
        None => false,
    }
}

/// `column` is what sequence `s` of a batch gets out of an interleaved result:
/// its value `i` stands at `i * batch + s`.
pub open spec fn is_column(
    column: Seq<u32>,
    interleaved: Seq<u32>,
    rows: int,
    batch: int,
    s: int,
) -> bool {
    &&& column.len() == rows
    &&& forall|i: int| 0 <= i < rows ==> #[trigger] column[i] == interleaved[i * batch + s]
}

/// Split the interleaved result of a batched product into one column per
/// sequence.
pub fn batch_columns(interleaved: &[u32], rows: usize, batch: usize) -> (columns: Vec<Vec<u32>>)
    requires
        interleaved@.len() == rows * batch,
    ensures
        columns@.len() == batch,
        forall|s: int|
            0 <= s < batch ==> is_column(
                (#[trigger] columns@[s])@,
                interleaved@,
                rows as int,
                batch as int,
                s,
            ),
{
    let len: usize = interleaved.len();
    let mut columns: Vec<Vec<u32>> = Vec::new();
    let mut s: usize = 0;
    while s < batch
        invariant
            len == interleaved@.len(),
            len == rows * batch,
            s <= batch,
            columns@.len() == s,
            forall|t: int|
                0 <= t < s ==> is_column(
                    (#[trigger] columns@[t])@,
                    interleaved@,
                    rows as int,
                    batch as int,
                    t,
                ),
        decreases batch - s,
    {
        let mut column: Vec<u32> = Vec::new();
        let mut i: usize = 0;
        while i < rows
            invariant
                len == interleaved@.len(),
                len == rows * batch,
                s < batch,
                i <= rows,
                column@.len() == i,
                forall|k: int| 0 <= k < i ==> #[trigger] column@[k] == interleaved@[k * batch + s],
            decreases rows - i,
        {
            proof {
                assert(i * batch + s < rows * batch) by (nonlinear_arith)
                    requires
                        i + 1 <= rows,
                        s < batch,
                ;
                assert(i * batch >= 0) by (nonlinear_arith);
            }
            column.push(interleaved[i * batch + s]);
            i = i + 1;
        }
        columns.push(column);
        s = s + 1;
    }
    columns
}

/// A matrix of 32-bit values keeps them in order, four bytes each.
pub proof fn law_values_are_kept_in_order(v: Seq<u32>, i: int)
    requires
        0 <= i < v.len(),
    ensures
        pattern_bytes(v, 0).len() == 4 * v.len(),
        pattern_bytes(v, 0).subrange(4 * i, 4 * i + 4) == le_bytes(v[i] as nat, 4),
{
    lemma_pattern_at(v, 0, i);
}

proof fn lemma_pattern_at(v: Seq<u32>, from: int, i: int)
    requires
        0 <= from <= v.len(),
    ensures
        pattern_bytes(v, from).len() == 4 * (v.len() - from),
        from <= i < v.len() ==> pattern_bytes(v, from).subrange(4 * (i - from), 4 * (i - from) + 4)
            == le_bytes(v[i] as nat, 4),
    decreases v.len() - from,
{
    if from < v.len() {
        lemma_pattern_at(v, from + 1, i);
        crate::bytes::lemma_le_bytes_len(v[from] as nat, 4);
        let all = pattern_bytes(v, from);
        let rest = pattern_bytes(v, from + 1);
        if i == from {
            assert(all.subrange(0, 4) =~= le_bytes(v[i] as nat, 4));
        } else if from < i < v.len() {
            let at = 4 * (i - from - 1);
            assert(all.subrange(at + 4, at + 8) =~= rest.subrange(at, at + 4));
        }
    }
}

/// The operands of a product fit exactly if the matrix is made of whole blocks that hold
/// every element of every row, and the vector has an element for every column.
pub proof fn law_products_read_only_what_is_there(
    ty: GgmlType,
    data_len: nat,
    rows: nat,
    cols: nat,
    vec_len: nat,
)
    requires
        dims_fit(ty, data_len, rows, cols, vec_len),
    ensures
        rows * bytes_for(ty, cols) <= data_len,
        vec_len >= cols,
        blocks_for(ty, cols) * ty.spec_block_size() == cols,
{
    let size = ty.spec_block_size();
    assert(size == 1 || size == 32 || size == 256);
    if size == 32 {
        assert((cols + 31) / 32 * 32 == cols);
    } else if size == 256 {
        assert((cols + 255) / 256 * 256 == cols);
    }
}

} // verus!
