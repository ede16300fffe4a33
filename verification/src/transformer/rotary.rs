//! Rotary position embedding: the row order it needs and the pairs it rotates.
use vstd::prelude::*;

verus! {

/// The row of a projection in half-split order that belongs at row `r` in
/// adjacent-pair order. Within a head the first `2 * half` rows are rotated; the
/// others stay.
pub open spec fn source_row(r: int, head_dim: int, half: int) -> int {
    let h = r / head_dim;
    let k = r % head_dim;
    if k < 2 * half {
        h * head_dim + (k % 2) * half + k / 2
    } else {
        r
    }
}

/// The row at which row `s` of a projection in half-split order ends up.
pub open spec fn target_row(s: int, head_dim: int, half: int) -> int {
    let h = s / head_dim;
    let k = s % head_dim;
    if k < half {
        h * head_dim + 2 * k
    } else if k < 2 * half {
        h * head_dim + 2 * (k - half) + 1
    } else {
        s
    }
}

/// Row `r` of a matrix whose rows take `row_bytes` bytes each.
pub open spec fn byte_row(bytes: Seq<u8>, row_bytes: int, r: int) -> Seq<u8> {
    bytes.subrange(r * row_bytes, r * row_bytes + row_bytes)
}

/// The first `n` rows in adjacent-pair order.
pub open spec fn gathered(
    bytes: Seq<u8>,
    head_dim: int,
    half: int,
    row_bytes: int,
    n: nat,
) -> Seq<u8>
    decreases n,
{
    if n == 0 {
        Seq::empty()
    } else {
        gathered(bytes, head_dim, half, row_bytes, (n - 1) as nat) + byte_row(
            bytes,
            row_bytes,
            source_row(n - 1, head_dim, half),
        )
    }
}

/// True if the bytes are whole heads of whole rows, some of them rotated.
pub open spec fn whole_heads(
    len: nat,
    n_heads: nat,
    head_dim: nat,
    rot_dim: nat,
    row_bytes: nat,
) -> bool {
    rot_dim / 2 > 0 && row_bytes > 0 && len == n_heads * head_dim * row_bytes
}

/// A projection in adjacent-pair order. Bytes that are not whole heads stay as
/// they are.
pub open spec fn permuted(
    bytes: Seq<u8>,
    n_heads: nat,
    head_dim: nat,
    rot_dim: nat,
    row_bytes: nat,
) -> Seq<u8> {
    if whole_heads(bytes.len(), n_heads, head_dim, rot_dim, row_bytes) {
        gathered(
            bytes,
            head_dim as int,
            (rot_dim / 2) as int,
            row_bytes as int,
            n_heads * head_dim,
        )
    } else {
        bytes
    }
}

// ── Laws of the permutation ──────────────────────────────────────────────────

proof fn lemma_place(h: int, k: int, head_dim: int)
    requires
        0 <= k < head_dim,
        0 <= h,
    ensures
        (h * head_dim + k) / head_dim == h,
        (h * head_dim + k) % head_dim == k,
{
    vstd::arithmetic::div_mod::lemma_fundamental_div_mod_converse(
        h * head_dim + k,
        head_dim,
        h,
        k,
    );
}

proof fn lemma_parts(r: int, n_heads: int, head_dim: int)
    requires
        0 <= r < n_heads * head_dim,
        0 < head_dim,
    ensures
        r == (r / head_dim) * head_dim + r % head_dim,
        0 <= r / head_dim < n_heads,
        0 <= r % head_dim < head_dim,
{
    vstd::arithmetic::div_mod::lemma_fundamental_div_mod(r, head_dim);
    let q = r / head_dim;
    let m = r % head_dim;
    assert(head_dim * q == q * head_dim) by (nonlinear_arith);
    assert(0 <= q < n_heads) by (nonlinear_arith)
        requires
            0 <= r < n_heads * head_dim,
            r == q * head_dim + m,
            0 <= m < head_dim,
    ;
}

proof fn lemma_inside(h: int, k: int, n_heads: int, head_dim: int)
    requires
        0 <= h < n_heads,
        0 <= k < head_dim,
    ensures
        0 <= h * head_dim + k < n_heads * head_dim,
{
    assert(0 <= h * head_dim + k < n_heads * head_dim) by (nonlinear_arith)
        requires
            0 <= h < n_heads,
            0 <= k < head_dim,
    ;
}

/// The reordering is a permutation of the rows: every row has its place, and
/// `target_row` undoes `source_row`.
pub proof fn law_rows_are_permuted(r: int, n_heads: int, head_dim: int, half: int)
    requires
        0 <= half,
        2 * half <= head_dim,
        0 <= r < n_heads * head_dim,
    ensures
        0 <= source_row(r, head_dim, half) < n_heads * head_dim,
        target_row(source_row(r, head_dim, half), head_dim, half) == r,
        0 <= target_row(r, head_dim, half) < n_heads * head_dim,
        source_row(target_row(r, head_dim, half), head_dim, half) == r,
{
    if head_dim <= 0 {
        assert(n_heads * head_dim == 0);
    }
    lemma_parts(r, n_heads, head_dim);
    let h = r / head_dim;
    let k = r % head_dim;
    if k < 2 * half {
        let a = k % 2;
        let j = k / 2;
        assert(a * half == 0 || a * half == half) by (nonlinear_arith)
            requires
                a == 0 || a == 1,
        ;
        assert(a == 0 ==> a * half == 0) by (nonlinear_arith);
        assert(a == 1 ==> a * half == half) by (nonlinear_arith);
        lemma_place(h, a * half + j, head_dim);
        lemma_inside(h, a * half + j, n_heads, head_dim);
        assert(h * head_dim + (a * half + j) == h * head_dim + a * half + j);
    }
    if k < half {
        lemma_place(h, 2 * k, head_dim);
        lemma_inside(h, 2 * k, n_heads, head_dim);
        assert((2 * k) % 2 == 0 && (2 * k) / 2 == k);
        assert(0 * half == 0);
    } else if k < 2 * half {
        let t = 2 * (k - half) + 1;
        lemma_place(h, t, head_dim);
        lemma_inside(h, t, n_heads, head_dim);
        assert(t % 2 == 1 && t / 2 == k - half);
        assert(1 * half == half);
        assert(h * head_dim + t == h * head_dim + 2 * (k - half) + 1);
    }
}

/// The two dimensions that are rotated against each other, `j` and `j + half` of a
/// head, end up next to each other.
pub proof fn law_rotated_pairs_become_adjacent(h: int, j: int, head_dim: int, half: int)
    requires
        0 <= h,
        0 <= j < half,
        2 * half <= head_dim,
    ensures
        source_row(h * head_dim + 2 * j, head_dim, half) == h * head_dim + j,
        source_row(h * head_dim + 2 * j + 1, head_dim, half) == h * head_dim + half + j,
{
    lemma_place(h, 2 * j, head_dim);
    lemma_place(h, 2 * j + 1, head_dim);
    assert(h * head_dim + (2 * j + 1) == h * head_dim + 2 * j + 1);
    assert((2 * j) % 2 == 0 && (2 * j) / 2 == j);
    assert((2 * j + 1) % 2 == 1 && (2 * j + 1) / 2 == j);
    assert(0 * half == 0 && 1 * half == half);
}

/// Rows past the rotated ones stay where they are.
pub proof fn law_other_rows_stay(h: int, k: int, head_dim: int, half: int)
    requires
        0 <= h,
        0 <= 2 * half <= k < head_dim,
    ensures
        source_row(h * head_dim + k, head_dim, half) == h * head_dim + k,
{
    lemma_place(h, k, head_dim);
}

proof fn lemma_row_inside(bytes: Seq<u8>, rows: int, row_bytes: int, s: int)
    requires
        0 <= s < rows,
        0 <= row_bytes,
        bytes.len() == rows * row_bytes,
    ensures
        0 <= s * row_bytes,
        s * row_bytes + row_bytes <= bytes.len(),
        byte_row(bytes, row_bytes, s).len() == row_bytes,
{
    assert(s * row_bytes + row_bytes <= rows * row_bytes) by (nonlinear_arith)
        requires
            s + 1 <= rows,
            0 <= row_bytes,
    ;
    assert(0 <= s * row_bytes) by (nonlinear_arith)
        requires
            0 <= s,
            0 <= row_bytes,
    ;
}

/// Row `r` of the result is row `source_row(r)` of the input, and no byte is lost.
pub proof fn law_gathered_rows(
    bytes: Seq<u8>,
    n_heads: int,
    head_dim: int,
    half: int,
    row_bytes: int,
    n: nat,
    r: int,
)
    requires
        0 <= half,
        2 * half <= head_dim,
        0 <= n_heads,
        0 < row_bytes,
        bytes.len() == (n_heads * head_dim) * row_bytes,
        0 <= r < n <= n_heads * head_dim,
    ensures
        gathered(bytes, head_dim, half, row_bytes, n).len() == n * row_bytes,
        byte_row(gathered(bytes, head_dim, half, row_bytes, n), row_bytes, r) == byte_row(
            bytes,
            row_bytes,
            source_row(r, head_dim, half),
        ),
    decreases n,
{
    let rows = n_heads * head_dim;
    let m = (n - 1) as nat;
    let before = gathered(bytes, head_dim, half, row_bytes, m);
    let all = gathered(bytes, head_dim, half, row_bytes, n);
    lemma_gathered_len(bytes, n_heads, head_dim, half, row_bytes, m);
    lemma_gathered_len(bytes, n_heads, head_dim, half, row_bytes, n);
    assert(r * row_bytes >= 0) by (nonlinear_arith)
        requires
            r >= 0,
            row_bytes > 0,
    ;
    if r < n - 1 {
        law_gathered_rows(bytes, n_heads, head_dim, half, row_bytes, m, r);
        assert(r * row_bytes + row_bytes <= m * row_bytes) by (nonlinear_arith)
            requires
                r + 1 <= m,
                row_bytes > 0,
        ;
        assert(byte_row(all, row_bytes, r) =~= byte_row(before, row_bytes, r));
    } else {
        law_rows_are_permuted(r, n_heads, head_dim, half);
        lemma_row_inside(bytes, rows, row_bytes, source_row(r, head_dim, half));
        assert(byte_row(all, row_bytes, r) =~= byte_row(
            bytes,
            row_bytes,
            source_row(r, head_dim, half),
        ));
    }
}

proof fn lemma_gathered_len(
    bytes: Seq<u8>,
    n_heads: int,
    head_dim: int,
    half: int,
    row_bytes: int,
    n: nat,
)
    requires
        0 <= half,
        2 * half <= head_dim,
        0 < row_bytes,
        bytes.len() == (n_heads * head_dim) * row_bytes,
        n <= n_heads * head_dim,
    ensures
        gathered(bytes, head_dim, half, row_bytes, n).len() == n * row_bytes,
    decreases n,
{
    if n > 0 {
        let m = (n - 1) as nat;
        lemma_gathered_len(bytes, n_heads, head_dim, half, row_bytes, m);
        law_rows_are_permuted(m as int, n_heads, head_dim, half);
        lemma_row_inside(
            bytes,
            n_heads * head_dim,
            row_bytes,
            source_row(m as int, head_dim, half),
        );
        assert(n * row_bytes == m * row_bytes + row_bytes) by (nonlinear_arith)
            requires
                n == m + 1,
        ;
    } else {
        assert(0 * row_bytes == 0);
    }
}

// ── The permutation itself ───────────────────────────────────────────────────

/// Reorder the rows of a query or key projection so that the dimensions that are
/// rotated against each other stand next to each other.
///
/// Bytes that are not whole heads are returned unchanged.
pub fn permute_qk_rows(
    bytes: &[u8],
    n_heads: usize,
    head_dim: usize,
    rot_dim: usize,
    row_bytes: usize,
) -> (out: Vec<u8>)
    requires
        whole_heads(
            bytes@.len(),
            n_heads as nat,
            head_dim as nat,
            rot_dim as nat,
            row_bytes as nat,
        ) ==> rot_dim / 2 * 2 <= head_dim,
    ensures
        out@ == permuted(
            bytes@,
            n_heads as nat,
            head_dim as nat,
            rot_dim as nat,
            row_bytes as nat,
        ),
        out@.len() == bytes@.len(),
{
    let half: usize = rot_dim / 2;
    let len: usize = bytes.len();
    if half == 0 || row_bytes == 0 || !is_product(len, n_heads, head_dim, row_bytes) {
        return vstd::slice::slice_to_vec(bytes);
    }
    let mut out: Vec<u8> = Vec::new();
    proof {
        assert(n_heads * head_dim <= len) by (nonlinear_arith)
            requires
                len == (n_heads * head_dim) * row_bytes,
                row_bytes >= 1,
        ;
    }
    let rows: usize = n_heads * head_dim;
    let mut r: usize = 0;
    while r < rows
        invariant
            rows == n_heads * head_dim,
            r <= rows,
            row_bytes > 0,
            half > 0,
            2 * half <= head_dim,
            len == bytes@.len(),
            len == (n_heads * head_dim) * row_bytes,
            out@ == gathered(
                bytes@,
                head_dim as int,
                half as int,
                row_bytes as int,
                r as nat,
            ),
        decreases rows - r,
    {
        let ghost before = out@;
        let ghost s = source_row(r as int, head_dim as int, half as int);
        proof {
            lemma_parts(r as int, n_heads as int, head_dim as int);
            law_rows_are_permuted(r as int, n_heads as int, head_dim as int, half as int);
            lemma_row_inside(bytes@, rows as int, row_bytes as int, s);
        }
        let h: usize = r / head_dim;
        let k: usize = r % head_dim;
        proof {
            assert(h * head_dim <= r);
        }
        let src: usize = if k < 2 * half {
            let a: usize = k % 2;
            proof {
                assert(a * half <= half) by (nonlinear_arith)
                    requires
                        a <= 1,
                ;
            }
            if a == 0 {
                h * head_dim + k / 2
            } else {
                h * head_dim + half + k / 2
            }
        } else {
            r
        };
        assert(src == s) by {
            assert(0 * half == 0 && 1 * half == half);
        }
        let start: usize = src * row_bytes;
        let mut b: usize = 0;
        while b < row_bytes
            invariant
                b <= row_bytes,
                start + row_bytes <= bytes@.len(),
                bytes@.len() == len,
                out@ == before + bytes@.subrange(start as int, start + b),
            decreases row_bytes - b,
        {
            out.push(bytes[start + b]);
            b = b + 1;
            assert(out@ =~= before + bytes@.subrange(start as int, start + b));
        }
        r = r + 1;
    }
    proof {
        lemma_gathered_len(
            bytes@,
            n_heads as int,
            head_dim as int,
            half as int,
            row_bytes as int,
            rows as nat,
        );
    }
    out
}

/// True if `len` is the product of the three sizes.
fn is_product(len: usize, a: usize, b: usize, c: usize) -> (yes: bool)
    ensures
        yes == (len == (a * b) * c),
{
    if c == 0 {
        assert((a * b) * 0 == 0);
        return len == 0;
    }
    match a.checked_mul(b) {
        Some(ab) => match ab.checked_mul(c) {
            Some(abc) => len == abc,
            None => false,
        },
        None => {
            proof {
                assert((a * b) * c >= a * b) by (nonlinear_arith)
                    requires
                        c >= 1,
                        a >= 0,
                        b >= 0,
                ;
            }
            false
        },
    }
}

// ── Rotated pairs ────────────────────────────────────────────────────────────

/// Two neighbouring values, rotated against each other by the angle that belongs to
/// dimension `dim` of a head.
#[derive(Clone, Copy, Debug, PartialEq, Eq, Structural)]
pub struct Pair {
    /// The first of the two; the other is right behind it.
    pub first: usize,
    pub dim: usize,
}

/// The number of pairs that are rotated in each head.
pub open spec fn pairs_per_head(head_dim: nat, rot_dim: nat) -> nat {
    if rot_dim < head_dim {
        rot_dim / 2
    } else {
        head_dim / 2
    }
}

/// Pair `j` of each of `heads` heads.
pub open spec fn pair_of_heads(j: nat, heads: nat, head_dim: nat) -> Seq<Pair> {
    Seq::new(
        heads,
        |h: int| Pair { first: (h * head_dim + 2 * j) as usize, dim: (2 * j) as usize },
    )
}

/// The first `m` pairs of each of `heads` heads.
pub open spec fn pairs_of_heads(m: nat, heads: nat, head_dim: nat) -> Seq<Pair>
    decreases m,
{
    if m == 0 {
        Seq::empty()
    } else {
        pairs_of_heads((m - 1) as nat, heads, head_dim) + pair_of_heads(
            (m - 1) as nat,
            heads,
            head_dim,
        )
    }
}

/// The number of whole heads among `len` values.
pub open spec fn heads_in(len: nat, head_dim: nat) -> nat {
    if head_dim == 0 {
        0
    } else {
        len / head_dim
    }
}

/// The pairs that are rotated among `len` values of whole heads. Values past the
/// rotated dimensions of a head, and past the last whole head, stay as they are.
pub fn rope_pairs(len: usize, head_dim: usize, rot_dim: usize) -> (pairs: Vec<Pair>)
    ensures
        pairs@ == pairs_of_heads(
            pairs_per_head(head_dim as nat, rot_dim as nat),
            heads_in(len as nat, head_dim as nat),
            head_dim as nat,
        ),
{
    let mut pairs: Vec<Pair> = Vec::new();
    let m: usize = if rot_dim < head_dim {
        rot_dim / 2
    } else {
        head_dim / 2
    };
    if head_dim == 0 {
        return pairs;
    }
    let heads: usize = len / head_dim;
    proof {
        vstd::arithmetic::div_mod::lemma_fundamental_div_mod(len as int, head_dim as int);
        assert(heads * head_dim <= len) by (nonlinear_arith)
            requires
                len == head_dim * heads + len % head_dim,
        ;
    }
    let mut j: usize = 0;
    while j < m
        invariant
            j <= m,
            2 * m <= head_dim,
            heads * head_dim <= len,
            pairs@ == pairs_of_heads(j as nat, heads as nat, head_dim as nat),
        decreases m - j,
    {
        let ghost before = pairs@;
        let ghost row = pair_of_heads(j as nat, heads as nat, head_dim as nat);
        let mut h: usize = 0;
        let mut offset: usize = 0;
        while h < heads
            invariant
                h <= heads,
                j < m,
                2 * m <= head_dim,
                heads * head_dim <= len,
                offset == h * head_dim,
                row == pair_of_heads(j as nat, heads as nat, head_dim as nat),
                pairs@ == before + row.take(h as int),
            decreases heads - h,
        {
            proof {
                assert(offset + head_dim <= len) by (nonlinear_arith)
                    requires
                        offset == h * head_dim,
                        h + 1 <= heads,
                        heads * head_dim <= len,
                ;
                assert(offset + head_dim == (h + 1) * head_dim) by (nonlinear_arith)
                    requires
                        offset == h * head_dim,
                ;
            }
            pairs.push(Pair { first: offset + 2 * j, dim: 2 * j });
            offset = offset + head_dim;
            h = h + 1;
            assert(pairs@ =~= before + row.take(h as int));
        }
        assert(row.take(heads as int) =~= row);
        j = j + 1;
    }
    pairs
}

/// A rotated pair lies inside its head and inside the values, and two different
/// pairs never meet: every value is rotated at most once.
pub proof fn law_pairs_never_meet(
    len: nat,
    head_dim: nat,
    rot_dim: nat,
    h1: nat,
    j1: nat,
    h2: nat,
    j2: nat,
)
    requires
        h1 < heads_in(len, head_dim),
        h2 < heads_in(len, head_dim),
        j1 < pairs_per_head(head_dim, rot_dim),
        j2 < pairs_per_head(head_dim, rot_dim),
        (h1, j1) != (h2, j2),
    ensures
        ({
            let a = h1 * head_dim + 2 * j1;
            let b = h2 * head_dim + 2 * j2;
            &&& a + 1 < len
            &&& a != b
            &&& a + 1 != b
            &&& a != b + 1
        }),
{
    let a = h1 * head_dim + 2 * j1;
    let b = h2 * head_dim + 2 * j2;
    let heads = heads_in(len, head_dim);
    vstd::arithmetic::div_mod::lemma_fundamental_div_mod(len as int, head_dim as int);
    assert((h1 + 1) * head_dim <= heads * head_dim) by (nonlinear_arith)
        requires
            h1 + 1 <= heads,
    ;
    assert((h1 + 1) * head_dim == h1 * head_dim + head_dim) by (nonlinear_arith);
    assert(heads * head_dim == head_dim * heads) by (nonlinear_arith);
    if h1 < h2 {
        assert(h2 * head_dim >= h1 * head_dim + head_dim) by (nonlinear_arith)
            requires
                h2 >= h1 + 1,
        ;
    } else if h2 < h1 {
        assert(h1 * head_dim >= h2 * head_dim + head_dim) by (nonlinear_arith)
            requires
                h1 >= h2 + 1,
        ;
    }
}

/// In whole heads of whole rows, row `j` of the first half of a head's rotated rows and row
/// `j` of the second half end up next to each other, at the places `2 * j` and `2 * j + 1` of
/// the head; a row `k` past the rotated ones stays. No byte is added or lost.
pub proof fn law_projections_are_put_in_adjacent_pairs(
    bytes: Seq<u8>,
    n_heads: nat,
    head_dim: nat,
    rot_dim: nat,
    row_bytes: nat,
    h: int,
    j: int,
    k: int,
)
    requires
        bytes.len() == n_heads * head_dim * row_bytes,
        row_bytes > 0,
        rot_dim <= head_dim,
        0 <= h < n_heads,
        0 <= j < rot_dim / 2,
        rot_dim / 2 * 2 <= k,
    ensures
        ({
            let out = permuted(bytes, n_heads, head_dim, rot_dim, row_bytes);
            let head = h * head_dim;
            let half = (rot_dim / 2) as int;
            let size = row_bytes as int;
            &&& out.len() == bytes.len()
            &&& byte_row(out, size, head + 2 * j) == byte_row(bytes, size, head + j)
            &&& byte_row(out, size, head + 2 * j + 1) == byte_row(bytes, size, head + half + j)
            &&& k < head_dim ==> byte_row(out, size, head + k) == byte_row(bytes, size, head + k)
        }),
{
    let half = (rot_dim / 2) as int;
    let (n, d, size) = (n_heads as int, head_dim as int, row_bytes as int);
    let rows = n_heads * head_dim;
    lemma_inside(h, 2 * j, n, d);
    lemma_inside(h, 2 * j + 1, n, d);
    law_gathered_rows(bytes, n, d, half, size, rows, h * d + 2 * j);
    law_gathered_rows(bytes, n, d, half, size, rows, h * d + 2 * j + 1);
    law_rotated_pairs_become_adjacent(h, j, d, half);
    assert(h * d + (2 * j + 1) == h * d + 2 * j + 1);
    if k < d {
        lemma_inside(h, k, n, d);
        law_gathered_rows(bytes, n, d, half, size, rows, h * d + k);
        law_other_rows_stay(h, k, d, half);
    }
}

/// As many pairs are rotated in a head as fit into both the head and the dimensions that are
/// to be rotated.
pub proof fn law_pairs_fill_the_rotated_dimensions(head_dim: nat, rot_dim: nat)
    ensures
        2 * pairs_per_head(head_dim, rot_dim) <= head_dim,
        2 * pairs_per_head(head_dim, rot_dim) <= rot_dim || rot_dim >= head_dim,
        2 * pairs_per_head(head_dim, rot_dim) + 2 > head_dim || 2 * pairs_per_head(
            head_dim,
            rot_dim,
        ) + 2 > rot_dim,
        rot_dim >= head_dim ==> 2 * pairs_per_head(head_dim, rot_dim) + 2 > head_dim,
{
}

/// Each of `m` pairs of each head is listed, with the two values that it rotates, which
/// are neighbours in the head, and its own angle. `place` is where it stands in the list.
pub proof fn law_every_pair_is_listed(
    m: nat,
    heads: nat,
    head_dim: nat,
    j: nat,
    h: nat,
) -> (place: int)
    requires
        j < m,
        h < heads,
        2 * m <= head_dim,
        heads * head_dim <= usize::MAX,
    ensures
        pairs_of_heads(m, heads, head_dim).len() == m * heads,
        0 <= place < m * heads,
        pairs_of_heads(m, heads, head_dim)[place].first == h * head_dim + 2 * j,
        pairs_of_heads(m, heads, head_dim)[place].dim == 2 * j,
    decreases m,
{
    let before = pairs_of_heads((m - 1) as nat, heads, head_dim);
    let row = pair_of_heads((m - 1) as nat, heads, head_dim);
    lemma_pair_count((m - 1) as nat, heads, head_dim);
    assert((m - 1) * heads + heads == m * heads) by (nonlinear_arith);
    if j < m - 1 {
        law_every_pair_is_listed((m - 1) as nat, heads, head_dim, j, h)
    } else {
        assert((h + 1) * head_dim <= heads * head_dim) by (nonlinear_arith)
            requires
                h + 1 <= heads,
        ;
        assert((h + 1) * head_dim == h * head_dim + head_dim) by (nonlinear_arith);
        let place = (before.len() + h) as int;
        assert((before + row)[place] == row[h as int]);
        place
    }
}

proof fn lemma_pair_count(m: nat, heads: nat, head_dim: nat)
    ensures
        pairs_of_heads(m, heads, head_dim).len() == m * heads,
    decreases m,
{
    if m > 0 {
        lemma_pair_count((m - 1) as nat, heads, head_dim);
        assert((m - 1) * heads + heads == m * heads) by (nonlinear_arith);
    } else {
        assert(0 * heads == 0);
    }
}

} // verus!
