//! The core tensor: contiguous values with a shape, in row-major order.
use vstd::prelude::*;
use vstd::slice::{slice_subrange, slice_to_vec};

verus! {

/// The product of `s`.
pub open spec fn product(s: Seq<usize>) -> nat
    decreases s.len(),
{
    if s.len() == 0 {
        1
    } else {
        s[0] as nat * product(s.skip(1))
    }
}

/// Row-major strides: the last dimension varies fastest.
pub open spec fn row_major(shape: Seq<usize>) -> Seq<nat> {
    Seq::new(shape.len(), |i: int| product(shape.skip(i + 1)))
}

/// The place of the element at `ix` in a tensor of `shape`.
pub open spec fn flat(ix: Seq<usize>, shape: Seq<usize>) -> nat
    decreases ix.len(),
{
    if ix.len() == 0 || shape.len() == 0 {
        0
    } else {
        ix[0] as nat * product(shape.skip(1)) + flat(ix.skip(1), shape.skip(1))
    }
}

/// One index per dimension, each within it.
pub open spec fn in_shape(ix: Seq<usize>, shape: Seq<usize>) -> bool {
    &&& ix.len() == shape.len()
    &&& forall|k: int| 0 <= k < ix.len() ==> #[trigger] ix[k] < shape[k]
}

/// The strides of `shape` fit the machine's word.
pub open spec fn strides_fit(shape: Seq<usize>) -> bool {
    forall|i: int| 0 < i <= shape.len() ==> product(#[trigger] shape.skip(i)) <= usize::MAX
}

/// Every element has its place: an index within the shape leads inside the data.
pub proof fn law_index_is_inside(ix: Seq<usize>, shape: Seq<usize>)
    requires
        in_shape(ix, shape),
    ensures
        flat(ix, shape) < product(shape),
    decreases ix.len(),
{
    if ix.len() > 0 {
        let p = product(shape.skip(1));
        assert(in_shape(ix.skip(1), shape.skip(1))) by {
            assert forall|k: int| 0 <= k < ix.skip(1).len() implies #[trigger] ix.skip(1)[k]
                < shape.skip(1)[k] by {
                assert(ix[k + 1] < shape[k + 1]);
            }
        }
        law_index_is_inside(ix.skip(1), shape.skip(1));
        let i = ix[0] as nat;
        let n = shape[0] as nat;
        let r = flat(ix.skip(1), shape.skip(1));
        assert(i < n);
        assert(i * p + r < n * p) by (nonlinear_arith)
            requires
                i < n,
                r < p,
        ;
    }
}

/// No two elements share a place.
pub proof fn law_index_is_unique(a: Seq<usize>, b: Seq<usize>, shape: Seq<usize>)
    requires
        in_shape(a, shape),
        in_shape(b, shape),
        flat(a, shape) == flat(b, shape),
    ensures
        a == b,
    decreases a.len(),
{
    if a.len() > 0 {
        let p = product(shape.skip(1));
        let ra = flat(a.skip(1), shape.skip(1));
        let rb = flat(b.skip(1), shape.skip(1));
        assert(in_shape(a.skip(1), shape.skip(1))) by {
            assert forall|k: int| 0 <= k < a.skip(1).len() implies #[trigger] a.skip(1)[k]
                < shape.skip(1)[k] by {
                assert(a[k + 1] < shape[k + 1]);
            }
        }
        assert(in_shape(b.skip(1), shape.skip(1))) by {
            assert forall|k: int| 0 <= k < b.skip(1).len() implies #[trigger] b.skip(1)[k]
                < shape.skip(1)[k] by {
                assert(b[k + 1] < shape[k + 1]);
            }
        }
        law_index_is_inside(a.skip(1), shape.skip(1));
        law_index_is_inside(b.skip(1), shape.skip(1));
        let x = a[0] as nat;
        let y = b[0] as nat;
        assert(x == y) by (nonlinear_arith)
            requires
                x * p + ra == y * p + rb,
                ra < p,
                rb < p,
        ;
        law_index_is_unique(a.skip(1), b.skip(1), shape.skip(1));
        assert(a =~= seq![a[0]] + a.skip(1));
        assert(b =~= seq![b[0]] + b.skip(1));
    } else {
        assert(a =~= b);
    }
}

/// No place is left over: every place in the data is that of some element.
pub proof fn law_every_place_is_reached(place: nat, shape: Seq<usize>) -> (ix: Seq<usize>)
    requires
        place < product(shape),
    ensures
        in_shape(ix, shape),
        flat(ix, shape) == place,
    decreases shape.len(),
{
    if shape.len() == 0 {
        Seq::empty()
    } else {
        let p = product(shape.skip(1));
        let n = shape[0] as nat;
        assert(p > 0) by (nonlinear_arith)
            requires
                place < n * p,
        ;
        let i = place / p;
        let r = place % p;
        vstd::arithmetic::div_mod::lemma_fundamental_div_mod(place as int, p as int);
        assert(r < p);
        assert(i < n) by (nonlinear_arith)
            requires
                place == p * i + r,
                place < n * p,
                r >= 0,
        ;
        let rest = law_every_place_is_reached(r, shape.skip(1));
        let ix = seq![i as usize] + rest;
        assert(ix.skip(1) =~= rest);
        assert forall|k: int| 0 <= k < ix.len() implies #[trigger] ix[k] < shape[k] by {
            if k > 0 {
                assert(ix[k] == rest[k - 1]);
                assert(rest[k - 1] < shape.skip(1)[k - 1]);
            }
        }
        assert(i * p + r == place) by (nonlinear_arith)
            requires
                place == p * i + r,
        ;
        ix
    }
}

/// Row-major strides for a given shape.
pub fn compute_strides(shape: &[usize]) -> (strides: Vec<usize>)
    requires
        strides_fit(shape@),
    ensures
        strides@.len() == shape@.len(),
        forall|i: int|
            0 <= i < shape@.len() ==> #[trigger] strides@[i] == row_major(shape@)[i],
{
    let n: usize = shape.len();
    let mut strides: Vec<usize> = vec![1usize; n];
    if n == 0 {
        return strides;
    }
    let mut i: usize = n - 1;
    assert(product(shape@.skip(n as int)) == 1) by {
        assert(shape@.skip(n as int).len() == 0);
    }
    while i > 0
        invariant
            n == shape@.len(),
            i < n,
            strides@.len() == n,
            strides_fit(shape@),
            forall|k: int|
                i <= k < n ==> #[trigger] strides@[k] == product(shape@.skip(k + 1)),
        decreases i,
    {
        proof {
            let s = shape@.skip(i as int);
            assert(s[0] == shape@[i as int]);
            assert(s.skip(1) =~= shape@.skip(i + 1));
            assert(product(s) <= usize::MAX);
            assert(strides@[i as int] == product(shape@.skip(i + 1)));
            assert(strides@[i as int] as nat * shape@[i as int] as nat == product(s))
                by (nonlinear_arith)
                requires
                    product(s) == shape@[i as int] as nat * product(shape@.skip(i + 1)),
                    strides@[i as int] == product(shape@.skip(i + 1)),
            ;
        }
        let next: usize = strides[i] * shape[i];
        strides.set(i - 1, next);
        i = i - 1;
    }
    strides
}

/// The number of elements of a shape, `None` where it or a stride does not fit the
/// machine's word.
pub fn numel_of(shape: &[usize]) -> (n: Option<usize>)
    ensures
        n matches Some(n) ==> n == product(shape@),
        n is Some <==> product(shape@) <= usize::MAX && strides_fit(shape@),
{
    let mut total: usize = 1;
    let mut i: usize = shape.len();
    assert(shape@.skip(i as int).len() == 0);
    while i > 0
        invariant
            i <= shape@.len(),
            total == product(shape@.skip(i as int)),
            forall|k: int|
                i <= k <= shape@.len() ==> product(#[trigger] shape@.skip(k)) <= usize::MAX,
        decreases i,
    {
        proof {
            let s = shape@.skip(i - 1);
            assert(s[0] == shape@[i - 1]);
            assert(s.skip(1) =~= shape@.skip(i as int));
            assert(product(s) == shape@[i - 1] as nat * total as nat);
            assert(total * shape@[i - 1] == product(s)) by (nonlinear_arith)
                requires
                    product(s) == shape@[i - 1] as nat * total as nat,
            ;
        }
        match total.checked_mul(shape[i - 1]) {
            Some(t) => {
                total = t;
            },
            None => {
                proof {
                    if i == 1 {
                        assert(shape@.skip(0) =~= shape@);
                    } else {
                        assert(product(shape@.skip(i - 1)) > usize::MAX);
                    }
                }
                return None;
            },
        }
        i = i - 1;
    }
    assert(shape@.skip(0) =~= shape@);
    Some(total)
}

/// Values with a shape, in row-major order.
#[derive(Debug)]
pub struct Tensor {
    data: Vec<u32>,
    shape: Vec<usize>,
    strides: Vec<usize>,
}

impl Tensor {
    pub closed spec fn values(&self) -> Seq<u32> {
        self.data@
    }

    pub closed spec fn dims(&self) -> Seq<usize> {
        self.shape@
    }

    /// The data fills the shape, and the strides are those of the shape.
    pub closed spec fn wf(&self) -> bool {
        &&& self.data@.len() == product(self.shape@)
        &&& self.strides@.len() == self.shape@.len()
        &&& forall|i: int|
            0 <= i < self.shape@.len() ==> #[trigger] self.strides@[i] == row_major(self.shape@)[i]
    }

    /// A tensor filled with zeros.
    pub fn zeros(shape: &[usize]) -> (t: Self)
        requires
            product(shape@) <= usize::MAX,
            strides_fit(shape@),
        ensures
            t.wf(),
            t.dims() == shape@,
            t.values().len() == product(shape@),
            forall|i: int| 0 <= i < t.values().len() ==> #[trigger] t.values()[i] == 0,
    {
        let mut n: usize = 1;
        let mut i: usize = shape.len();
        assert(shape@.skip(i as int).len() == 0);
        while i > 0
            invariant
                i <= shape@.len(),
                n == product(shape@.skip(i as int)),
                strides_fit(shape@),
                product(shape@) <= usize::MAX,
            decreases i,
        {
            proof {
                let s = shape@.skip(i - 1);
                assert(s[0] == shape@[i - 1]);
                assert(s.skip(1) =~= shape@.skip(i as int));
                assert(n * shape@[i - 1] == product(s)) by (nonlinear_arith)
                    requires
                        product(s) == shape@[i - 1] as nat * n as nat,
                ;
                if i == 1 {
                    assert(shape@.skip(0) =~= shape@);
                }
            }
            n = n * shape[i - 1];
            i = i - 1;
        }
        assert(shape@.skip(0) =~= shape@);
        Tensor {
            data: vec![0u32; n],
            shape: slice_to_vec(shape),
            strides: compute_strides(shape),
        }
    }

    /// A tensor over existing values, which must fill the shape.
    pub fn from_vec(data: Vec<u32>, shape: &[usize]) -> (t: Self)
        requires
            data@.len() == product(shape@),
            strides_fit(shape@),
        ensures
            t.wf(),
            t.dims() == shape@,
            t.values() == data@,
    {
        Tensor { data, shape: slice_to_vec(shape), strides: compute_strides(shape) }
    }

    /// A tensor over a copy of a slice.
    pub fn from_slice(data: &[u32], shape: &[usize]) -> (t: Self)
        requires
            data@.len() == product(shape@),
            strides_fit(shape@),
        ensures
            t.wf(),
            t.dims() == shape@,
            t.values() == data@,
    {
        Tensor::from_vec(slice_to_vec(data), shape)
    }

    /// A one-dimensional tensor.
    pub fn from_data(data: Vec<u32>) -> (t: Self)
        ensures
            t.wf(),
            t.dims() == seq![data@.len() as usize],
            t.values() == data@,
    {
        let n: usize = data.len();
        let mut shape: Vec<usize> = Vec::new();
        shape.push(n);
        proof {
            lemma_one_dimension(n);
            assert(shape@ =~= seq![n]);
        }
        Tensor::from_vec(data, shape.as_slice())
    }

    pub fn shape(&self) -> (s: &[usize])
        ensures
            s@ == self.dims(),
    {
        self.shape.as_slice()
    }

    pub fn strides(&self) -> (s: &[usize])
        requires
            self.wf(),
        ensures
            s@.len() == self.dims().len(),
            forall|i: int|
                0 <= i < s@.len() ==> #[trigger] s@[i] == row_major(self.dims())[i],
    {
        self.strides.as_slice()
    }

    /// Total number of elements.
    pub fn numel(&self) -> (n: usize)
        requires
            self.wf(),
        ensures
            n == product(self.dims()),
    {
        self.data.len()
    }

    /// Number of dimensions.
    pub fn ndim(&self) -> (n: usize)
        ensures
            n == self.dims().len(),
    {
        self.shape.len()
    }

    pub fn data(&self) -> (d: &[u32])
        ensures
            d@ == self.values(),
    {
        self.data.as_slice()
    }

    /// The element at a flat place.
    pub fn get_flat(&self, idx: usize) -> (v: u32)
        requires
            idx < self.values().len(),
        ensures
            v == self.values()[idx as int],
    {
        self.data[idx]
    }

    fn flat_index(&self, indices: &[usize]) -> (idx: usize)
        requires
            self.wf(),
            indices@.len() == self.dims().len(),
            flat(indices@, self.dims()) < self.values().len(),
        ensures
            idx == flat(indices@, self.dims()),
    {
        let n: usize = indices.len();
        let total: usize = self.data.len();
        let mut idx: usize = 0;
        let mut k: usize = 0;
        assert(indices@.skip(0) =~= indices@);
        assert(self.shape@.skip(0) =~= self.shape@);
        while k < n
            invariant
                self.wf(),
                n == indices@.len() == self.shape@.len(),
                total == self.data@.len(),
                k <= n,
                flat(indices@, self.shape@) < total,
                idx + flat(indices@.skip(k as int), self.shape@.skip(k as int)) == flat(
                    indices@,
                    self.shape@,
                ),
            decreases n - k,
        {
            proof {
                let i = indices@.skip(k as int);
                let s = self.shape@.skip(k as int);
                assert(i[0] == indices@[k as int]);
                assert(i.skip(1) =~= indices@.skip(k + 1));
                assert(s.skip(1) =~= self.shape@.skip(k + 1));
                assert(self.strides@[k as int] == row_major(self.shape@)[k as int]);
                assert(flat(i, s) == i[0] as nat * self.strides@[k as int] as nat + flat(
                    i.skip(1),
                    s.skip(1),
                ));
                assert(indices@[k as int] * self.strides@[k as int] <= usize::MAX);
            }
            idx = idx + indices[k] * self.strides[k];
            k = k + 1;
        }
        assert(flat(indices@.skip(k as int), self.shape@.skip(k as int)) == 0);
        idx
    }

    /// The element at `indices`.
    pub fn get(&self, indices: &[usize]) -> (v: u32)
        requires
            self.wf(),
            indices@.len() == self.dims().len(),
            flat(indices@, self.dims()) < self.values().len(),
        ensures
            v == self.values()[flat(indices@, self.dims()) as int],
    {
        self.data[self.flat_index(indices)]
    }

    /// Replace the element at `indices`.
    pub fn set(&mut self, indices: &[usize], value: u32)
        requires
            old(self).wf(),
            indices@.len() == old(self).dims().len(),
            flat(indices@, old(self).dims()) < old(self).values().len(),
        ensures
            final(self).wf(),
            final(self).dims() == old(self).dims(),
            final(self).values() == old(self).values().update(
                flat(indices@, old(self).dims()) as int,
                value,
            ),
    {
        let idx: usize = self.flat_index(indices);
        self.data.set(idx, value);
    }

    /// The values, to be changed in place.
    pub fn data_mut(&mut self) -> (d: &mut [u32])
        requires
            old(self).wf(),
        ensures
            d@ == old(self).values(),
            final(self).values() == final(d)@,
            final(self).dims() == old(self).dims(),
            final(d)@.len() == old(self).values().len() ==> final(self).wf(),
    {
        self.data.as_mut_slice()
    }

    /// The same values under another shape.
    pub fn reshape(&self, new_shape: &[usize]) -> (t: Self)
        requires
            self.wf(),
            product(new_shape@) == product(self.dims()),
            strides_fit(new_shape@),
        ensures
            t.wf(),
            t.dims() == new_shape@,
            t.values() == self.values(),
    {
        Tensor::from_slice(self.data.as_slice(), new_shape)
    }

    /// One row of a two-dimensional tensor.
    pub fn row(&self, i: usize) -> (t: Self)
        requires
            self.wf(),
            self.dims().len() == 2,
            i < self.dims()[0],
        ensures
            t.wf(),
            t.dims() == seq![self.dims()[1]],
            t.values() == self.values().subrange(
                i * self.dims()[1],
                i * self.dims()[1] + self.dims()[1],
            ),
    {
        let cols: usize = self.shape[1];
        let total: usize = self.data.len();
        proof {
            lemma_two_dimensions(self.shape@);
            let rows = self.shape@[0] as int;
            assert(i * cols + cols <= rows * cols) by (nonlinear_arith)
                requires
                    i + 1 <= rows,
            ;
            lemma_one_dimension(cols);
        }
        let start: usize = i * cols;
        let mut shape: Vec<usize> = Vec::new();
        shape.push(cols);
        assert(shape@ =~= seq![cols]);
        Tensor::from_slice(
            slice_subrange(self.data.as_slice(), start, start + cols),
            shape.as_slice(),
        )
    }
}

pub proof fn lemma_one_dimension(n: usize)
    ensures
        product(seq![n]) == n,
        strides_fit(seq![n]),
{
    reveal_with_fuel(product, 2);
    assert(seq![n].skip(1).len() == 0);
    assert(n as nat * product(seq![n].skip(1)) == n) by (nonlinear_arith)
        requires
            product(seq![n].skip(1)) == 1,
    ;
}

pub proof fn lemma_two_dimensions(s: Seq<usize>)
    requires
        s.len() == 2,
    ensures
        product(s) == s[0] * s[1],
        strides_fit(s),
{
    assert(s.skip(1) =~= seq![s[1]]);
    lemma_one_dimension(s[1]);
    assert forall|i: int| 0 < i <= s.len() implies product(#[trigger] s.skip(i))
        <= usize::MAX by {
        if i == 2 {
            assert(s.skip(2).len() == 0);
        }
    }
}

/// Look up rows of a `[vocab_size, embed_dim]` table by token.
pub fn embedding(weight: &Tensor, token_ids: &[u32]) -> (t: Tensor)
    requires
        weight.wf(),
        weight.dims().len() == 2,
        forall|k: int| 0 <= k < token_ids@.len() ==> #[trigger] token_ids@[k] < weight.dims()[0],
        token_ids@.len() * weight.dims()[1] <= usize::MAX,
    ensures
        t.wf(),
        t.dims() == seq![token_ids@.len() as usize, weight.dims()[1]],
        forall|k: int, d: int|
            0 <= k < token_ids@.len() && 0 <= d < weight.dims()[1]
                ==> #[trigger] t.values()[k * weight.dims()[1] + d]
                == weight.values()[token_ids@[k] * weight.dims()[1] + d],
{
    let cols: usize = weight.shape[1];
    let n: usize = token_ids.len();
    let total: usize = weight.data.len();
    let mut data: Vec<u32> = Vec::new();
    let mut k: usize = 0;
    assert(0 * cols == 0) by (nonlinear_arith);
    while k < n
        invariant
            weight.wf(),
            weight.shape@.len() == 2,
            cols == weight.shape@[1],
            n == token_ids@.len(),
            total == weight.data@.len(),
            n * cols <= usize::MAX,
            k <= n,
            forall|j: int| 0 <= j < token_ids@.len() ==> #[trigger] token_ids@[j] < weight.shape@[0],
            data@.len() == k * cols,
            forall|j: int, d: int|
                0 <= j < k && 0 <= d < cols ==> #[trigger] data@[j * cols + d]
                    == weight.data@[token_ids@[j] * cols + d],
        decreases n - k,
    {
        let id: usize = token_ids[k] as usize;
        proof {
            lemma_two_dimensions(weight.shape@);
            assert(token_ids@[k as int] < weight.shape@[0]);
            let rows = weight.shape@[0] as int;
            assert(id * cols + cols <= rows * cols) by (nonlinear_arith)
                requires
                    id + 1 <= rows,
            ;
        }
        let ghost before = data@;
        let row = slice_subrange(weight.data.as_slice(), id * cols, id * cols + cols);
        data.extend_from_slice(row);
        proof {
            assert((k + 1) * cols == k * cols + cols) by (nonlinear_arith);
            assert forall|j: int, d: int| 0 <= j < k + 1 && 0 <= d < cols implies #[trigger] data@[j
                * cols + d] == weight.data@[token_ids@[j] * cols + d] by {
                if j < k {
                    assert(j * cols + d < k * cols) by (nonlinear_arith)
                        requires
                            j + 1 <= k,
                            0 <= d < cols,
                    ;
                    assert(j * cols + d >= 0) by (nonlinear_arith)
                        requires
                            j >= 0,
                            d >= 0,
                    ;
                    assert(data@[j * cols + d] == before[j * cols + d]);
                } else {
                    assert(data@[k * cols + d] == row@[d]);
                }
            }
        }
        k = k + 1;
    }
    let mut shape: Vec<usize> = Vec::new();
    shape.push(n);
    shape.push(cols);
    proof {
        assert(shape@ =~= seq![n, cols]);
        lemma_two_dimensions(shape@);
    }
    Tensor::from_vec(data, shape.as_slice())
}

} // verus!
