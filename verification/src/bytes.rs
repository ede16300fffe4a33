//! Little-endian integers as byte sequences.
use vstd::prelude::*;
use vstd::slice::slice_subrange;

verus! {

/// The value of a byte sequence read as a little-endian number.
pub open spec fn le_value(s: Seq<u8>) -> nat
    decreases s.len(),
{
    if s.len() == 0 {
        0
    } else {
        s[0] as nat + 256 * le_value(s.skip(1))
    }
}

/// The `n` low bytes of `v`, least significant first.
pub open spec fn le_bytes(v: nat, n: nat) -> Seq<u8>
    decreases n,
{
    if n == 0 {
        Seq::empty()
    } else {
        seq![(v % 256) as u8] + le_bytes(v / 256, (n - 1) as nat)
    }
}

/// How many values `n` bytes can hold.
pub open spec fn byte_range(n: nat) -> nat
    decreases n,
{
    if n == 0 {
        1
    } else {
        256 * byte_range((n - 1) as nat)
    }
}

pub proof fn lemma_byte_range_values()
    ensures
        byte_range(2) == 0x1_0000,
        byte_range(4) == 0x1_0000_0000,
        byte_range(8) == 0x1_0000_0000_0000_0000,
{
    reveal_with_fuel(byte_range, 9);
}

pub proof fn lemma_le_bytes_len(v: nat, n: nat)
    ensures
        le_bytes(v, n).len() == n,
    decreases n,
{
    if n > 0 {
        lemma_le_bytes_len(v / 256, (n - 1) as nat);
    }
}

/// Reading back what was written gives the number that was written.
pub proof fn lemma_le_round_trip(v: nat, n: nat)
    requires
        v < byte_range(n),
    ensures
        le_bytes(v, n).len() == n,
        le_value(le_bytes(v, n)) == v,
    decreases n,
{
    if n > 0 {
        lemma_le_round_trip(v / 256, (n - 1) as nat);
        let b = le_bytes(v, n);
        assert(b.skip(1) =~= le_bytes(v / 256, (n - 1) as nat));
        assert(b[0] == (v % 256) as u8);
    }
}

pub proof fn lemma_le_value_bound(s: Seq<u8>)
    ensures
        le_value(s) < byte_range(s.len()),
    decreases s.len(),
{
    if s.len() > 0 {
        lemma_le_value_bound(s.skip(1));
    }
}

/// Writing what was read gives the bytes that were read.
pub proof fn lemma_le_value_bytes(s: Seq<u8>)
    ensures
        le_bytes(le_value(s), s.len()) == s,
    decreases s.len(),
{
    if s.len() > 0 {
        lemma_le_value_bytes(s.skip(1));
        let rest = le_value(s.skip(1));
        assert(le_value(s) % 256 == s[0] as nat);
        assert(le_value(s) / 256 == rest);
        assert(seq![s[0]] + s.skip(1) =~= s);
    } else {
        assert(le_bytes(le_value(s), 0) =~= s);
    }
}

/// The low byte comes first: every byte counts 256 times what the one before it counts.
pub proof fn law_low_bytes_come_first(s: Seq<u8>)
    ensures
        s.len() == 2 ==> le_value(s) == s[0] + 0x100 * s[1],
        s.len() == 4 ==> le_value(s) == s[0] + 0x100 * s[1] + 0x1_0000 * s[2] + 0x100_0000 * s[3],
        s.len() == 8 ==> le_value(s) == s[0] + 0x100 * s[1] + 0x1_0000 * s[2] + 0x100_0000 * s[3]
            + 0x1_0000_0000 * s[4] + 0x100_0000_0000 * s[5] + 0x1_0000_0000_0000 * s[6]
            + 0x100_0000_0000_0000 * s[7],
    decreases s.len(),
{
    reveal_with_fuel(le_value, 9);
    if s.len() == 2 || s.len() == 4 || s.len() == 8 {
        let s1 = s.skip(1);
        let s2 = s1.skip(1);
        assert(s1[0] == s[1]);
        if s.len() > 2 {
            let s3 = s2.skip(1);
            let s4 = s3.skip(1);
            assert(s2[0] == s[2] && s3[0] == s[3]);
            if s.len() > 4 {
                let s5 = s4.skip(1);
                let s6 = s5.skip(1);
                let s7 = s6.skip(1);
                assert(s4[0] == s[4] && s5[0] == s[5] && s6[0] == s[6] && s7[0] == s[7]);
                assert(le_value(s7) == s[7]);
                assert(le_value(s6) == s[6] + 256 * le_value(s7));
                assert(le_value(s5) == s[5] + 256 * le_value(s6));
                assert(le_value(s4) == s[4] + 256 * le_value(s5));
                assert(le_value(s3) == s[3] + 256 * le_value(s4));
                assert(le_value(s2) == s[2] + 256 * le_value(s3));
                assert(le_value(s1) == s[1] + 256 * le_value(s2));
            } else {
                assert(le_value(s3) == s[3]);
                assert(le_value(s2) == s[2] + 256 * le_value(s3));
                assert(le_value(s1) == s[1] + 256 * le_value(s2));
            }
        } else {
            assert(le_value(s1) == s[1]);
        }
    }
}

/// The little-endian number in the first two bytes of `b`.
pub fn u16_from_le(b: &[u8]) -> (v: u16)
    requires
        b@.len() >= 2,
    ensures
        v == le_value(b@.take(2)),
{
    proof {
        reveal_with_fuel(le_value, 3);
        let s = b@.take(2);
        assert(s.skip(1)[0] == b@[1]);
        assert(s.skip(1).skip(1).len() == 0);
    }
    b[0] as u16 + 256 * (b[1] as u16)
}

/// The little-endian number in the first four bytes of `b`.
pub fn u32_from_le(b: &[u8]) -> (v: u32)
    requires
        b@.len() >= 4,
    ensures
        v == le_value(b@.take(4)),
{
    proof {
        reveal_with_fuel(le_value, 5);
        let s = b@.take(4);
        assert(s.skip(1)[0] == b@[1]);
        assert(s.skip(1).skip(1)[0] == b@[2]);
        assert(s.skip(1).skip(1).skip(1)[0] == b@[3]);
        assert(s.skip(1).skip(1).skip(1).skip(1).len() == 0);
    }
    b[0] as u32 + 256 * (b[1] as u32 + 256 * (b[2] as u32 + 256 * (b[3] as u32)))
}

/// The little-endian number in the first eight bytes of `b`.
pub fn u64_from_le(b: &[u8]) -> (v: u64)
    requires
        b@.len() >= 8,
    ensures
        v == le_value(b@.take(8)),
{
    let low: u32 = u32_from_le(b);
    let high: u32 = u32_from_le(slice_subrange(b, 4, 8));
    proof {
        lemma_le_value_split(b@.take(8), 4);
        assert(b@.take(8).take(4) =~= b@.take(4));
        assert(b@.take(8).skip(4) =~= b@.subrange(4, 8).take(4));
        lemma_byte_range_values();
    }
    low as u64 + 0x1_0000_0000u64 * (high as u64)
}

/// A number is its low bytes plus its high bytes, shifted.
pub proof fn lemma_le_value_split(s: Seq<u8>, k: nat)
    requires
        k <= s.len(),
    ensures
        le_value(s) == le_value(s.take(k as int)) + byte_range(k) * le_value(s.skip(k as int)),
    decreases k,
{
    if k == 0 {
        assert(s.take(0).len() == 0);
        assert(s.skip(0) =~= s);
        assert(byte_range(0) * le_value(s) == le_value(s)) by (nonlinear_arith)
            requires
                byte_range(0) == 1,
        ;
    } else {
        lemma_le_value_split(s.skip(1), (k - 1) as nat);
        assert(s.skip(1).take(k - 1) =~= s.take(k as int).skip(1));
        assert(s.skip(1).skip(k - 1) =~= s.skip(k as int));
        let lo = le_value(s.take(k as int).skip(1));
        let hi = le_value(s.skip(k as int));
        let r = byte_range((k - 1) as nat);
        assert(256 * (lo + r * hi) == 256 * lo + (256 * r) * hi) by (nonlinear_arith);
        assert(s.take(k as int)[0] == s[0]);
        assert(byte_range(k) == 256 * r);
        assert(le_value(s.take(k as int)) == s[0] as nat + 256 * lo);
    }
}

/// Append the `n` low bytes of `v`.
fn write_le(buf: &mut Vec<u8>, v: u64, n: u32)
    ensures
        final(buf)@ == old(buf)@ + le_bytes(v as nat, n as nat),
    decreases n,
{
    if n > 0 {
        buf.push((v % 256) as u8);
        write_le(buf, v / 256, n - 1);
        assert(final(buf)@ =~= old(buf)@ + le_bytes(v as nat, n as nat));
    }
}

pub fn write_u8(buf: &mut Vec<u8>, v: u8)
    ensures
        final(buf)@ == old(buf)@.push(v),
{
    buf.push(v);
}

pub fn write_u32(buf: &mut Vec<u8>, v: u32)
    ensures
        final(buf)@ == old(buf)@ + le_bytes(v as nat, 4),
{
    write_le(buf, v as u64, 4);
}

pub fn write_u64(buf: &mut Vec<u8>, v: u64)
    ensures
        final(buf)@ == old(buf)@ + le_bytes(v as nat, 8),
{
    write_le(buf, v, 8);
}

/// A byte string behind its length.
pub open spec fn block(data: Seq<u8>) -> Seq<u8> {
    le_bytes(data.len(), 8) + data
}

pub fn write_bytes(buf: &mut Vec<u8>, data: &[u8])
    ensures
        final(buf)@ == old(buf)@ + block(data@),
{
    write_u64(buf, data.len() as u64);
    buf.extend_from_slice(data);
    assert(final(buf)@ =~= old(buf)@ + block(data@));
}

} // verus!
