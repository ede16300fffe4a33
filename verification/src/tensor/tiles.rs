//! The tiles in which one query runs over the cached positions.
use vstd::prelude::*;

verus! {

/// Positions in one tile.
pub const BLOCK_SIZE: usize = 32;

/// A run of cached positions.
#[derive(Clone, Copy, Debug, PartialEq, Eq, Structural)]
pub struct Tile {
    pub start: usize,
    pub len: usize,
}

/// Tile `i` of the `seq_len` positions from `start_pos` on.
pub open spec fn tile(start_pos: nat, seq_len: nat, i: nat) -> Tile {
    let start = i * BLOCK_SIZE as nat;
    Tile {
        start: (start_pos + start) as usize,
        len: (if seq_len - start < BLOCK_SIZE {
            seq_len - start
        } else {
            BLOCK_SIZE as int
        }) as usize,
    }
}

/// The number of tiles.
pub open spec fn tile_count(seq_len: nat) -> nat {
    (seq_len + 31) / 32
}

/// The tiles of the `seq_len` positions from `start_pos` on. All are full but the
/// last.
pub fn tiles(start_pos: usize, seq_len: usize) -> (out: Vec<Tile>)
    requires
        start_pos + seq_len <= usize::MAX,
    ensures
        out@.len() == tile_count(seq_len as nat),
        forall|i: int|
            0 <= i < out@.len() ==> #[trigger] out@[i] == tile(
                start_pos as nat,
                seq_len as nat,
                i as nat,
            ),
{
    let mut out: Vec<Tile> = Vec::new();
    let mut start: usize = 0;
    while start < seq_len
        invariant
            start <= seq_len,
            start_pos + seq_len <= usize::MAX,
            out@.len() == (start + 31) / 32,
            start < seq_len ==> start == out@.len() * 32,
            forall|i: int|
                0 <= i < out@.len() ==> #[trigger] out@[i] == tile(
                    start_pos as nat,
                    seq_len as nat,
                    i as nat,
                ),
        decreases seq_len - start,
    {
        let len: usize = if seq_len - start < BLOCK_SIZE {
            seq_len - start
        } else {
            BLOCK_SIZE
        };
        out.push(Tile { start: start_pos + start, len });
        start = start + len;
    }
    out
}

/// The tiles cover every position exactly once: position `p` lies in tile
/// `(p - start_pos) / 32` and in no other.
pub proof fn law_tiles_partition_the_positions(
    start_pos: nat,
    seq_len: nat,
    p: nat,
    i: nat,
)
    requires
        start_pos + seq_len <= usize::MAX,
        start_pos <= p < start_pos + seq_len,
        i < tile_count(seq_len),
    ensures
        ({
            let t = tile(start_pos, seq_len, i);
            t.start <= p < t.start + t.len <==> i == (p - start_pos) / 32
        }),
        (p - start_pos) / 32 < tile_count(seq_len),
{
}

} // verus!
