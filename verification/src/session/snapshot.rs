//! Cache snapshots: a [`Session`]'s full state as bytes, and back.
//!
//! ## Binary format (version 2)
//!
//! ```text
//! [u8; 8]             magic = b"GLNTSNAP"
//! u32 LE              version = 2
//! u64 LE              model_hash   (FNV-64 of model file path + file size)
//! u32 LE              context_len
//! u32 LE              n_layers
//! u32 LE              n_kv_heads
//! u32 LE              head_dim
//! u8                  cache_format (0 = F32, 1 = Q8)
//! u32 LE              token_count
//! [u32 LE; token_count]  tokens
//! u32 LE              prefill_len
//! u32 LE              pos
//! u64 LE              rng_state
//! For each layer:
//!   u64 LE            k_bytes_len
//!   [u8; k_bytes_len] K data
//!   u64 LE            v_bytes_len
//!   [u8; v_bytes_len] V data
//! ```
//!
//! Metadata is verified before any cache data is read: the first mismatch
//! returns a named error immediately.
use vstd::prelude::*;
use vstd::slice::{slice_subrange, slice_to_vec};
use vstd::string::StringSliceAdditionalSpecFns;

use crate::bytes::{
    block, le_bytes, le_value, lemma_byte_range_values, lemma_le_round_trip, u32_from_le,
    u64_from_le, write_bytes, write_u32, write_u64, write_u8,
};
use crate::error::GlintError;
use crate::sampling::Xorshift64;
use crate::session::{CacheFormat, Session, SessionOptions};

verus! {

/// The format version that this library reads and writes.
pub const VERSION: u32 = 2;

/// The eight bytes that open every snapshot: `GLNTSNAP`.
pub open spec fn magic() -> Seq<u8> {
    seq![0x47u8, 0x4C, 0x4E, 0x54, 0x53, 0x4E, 0x41, 0x50]
}

/// Snapshot metadata, verified before any cache data is loaded.
#[derive(Clone, Copy, Debug, PartialEq, Eq, Structural)]
pub struct SnapshotMetadata {
    /// FNV-64 hash of the model file's path and size.
    pub model_hash: u64,
    pub context_len: u32,
    pub n_layers: u32,
    pub n_kv_heads: u32,
    pub head_dim: u32,
    pub cache_format: CacheFormat,
}

/// A fully decoded snapshot, ready to be restored into a [`Session`].
#[derive(Debug)]
pub struct KvSnapshot {
    pub meta: SnapshotMetadata,
    pub tokens: Vec<u32>,
    pub prefill_len: u32,
    pub pos: u32,
    pub rng_state: u64,
    /// One byte string per layer: raw K storage.
    pub k_layers: Vec<Vec<u8>>,
    /// One byte string per layer: raw V storage.
    pub v_layers: Vec<Vec<u8>>,
}

/// What a snapshot holds.
pub struct SnapshotData {
    pub meta: SnapshotMetadata,
    pub tokens: Seq<u32>,
    pub prefill_len: u32,
    pub pos: u32,
    pub rng_state: u64,
    pub k_layers: Seq<Seq<u8>>,
    pub v_layers: Seq<Seq<u8>>,
}

/// The contents of a list of byte strings.
pub open spec fn layer_data(v: Seq<Vec<u8>>) -> Seq<Seq<u8>> {
    Seq::new(v.len(), |i: int| v[i]@)
}

impl View for KvSnapshot {
    type V = SnapshotData;

    open spec fn view(&self) -> SnapshotData {
        SnapshotData {
            meta: self.meta,
            tokens: self.tokens@,
            prefill_len: self.prefill_len,
            pos: self.pos,
            rng_state: self.rng_state,
            k_layers: layer_data(self.k_layers@),
            v_layers: layer_data(self.v_layers@),
        }
    }
}

// ── The written form ─────────────────────────────────────────────────────────

pub open spec fn format_tag(fmt: CacheFormat) -> u8 {
    match fmt {
        CacheFormat::F32 => 0,
        CacheFormat::Q8 => 1,
    }
}

pub open spec fn format_of_tag(tag: u8) -> Option<CacheFormat> {
    if tag == 0 {
        Some(CacheFormat::F32)
    } else if tag == 1 {
        Some(CacheFormat::Q8)
    } else {
        None
    }
}

/// The 37 bytes in front of the session state.
pub open spec fn header_bytes(m: SnapshotMetadata) -> Seq<u8> {
    magic() + le_bytes(VERSION as nat, 4) + le_bytes(m.model_hash as nat, 8) + le_bytes(
        m.context_len as nat,
        4,
    ) + le_bytes(m.n_layers as nat, 4) + le_bytes(m.n_kv_heads as nat, 4) + le_bytes(
        m.head_dim as nat,
        4,
    ) + seq![format_tag(m.cache_format)]
}

/// The bytes of `tokens` from index `i` on.
pub open spec fn token_bytes(tokens: Seq<u32>, i: int) -> Seq<u8>
    decreases tokens.len() - i,
{
    if i >= tokens.len() {
        Seq::empty()
    } else {
        le_bytes(tokens[i] as nat, 4) + token_bytes(tokens, i + 1)
    }
}

/// The bytes of the layers from index `i` on, as far as both lists reach.
pub open spec fn layer_bytes(k: Seq<Seq<u8>>, v: Seq<Seq<u8>>, i: int) -> Seq<u8>
    decreases k.len() - i,
{
    if i >= k.len() || i >= v.len() {
        Seq::empty()
    } else {
        block(k[i]) + block(v[i]) + layer_bytes(k, v, i + 1)
    }
}

/// A whole snapshot.
pub open spec fn snapshot_bytes(d: SnapshotData) -> Seq<u8> {
    header_bytes(d.meta) + le_bytes((d.tokens.len() as u32) as nat, 4) + token_bytes(d.tokens, 0)
        + le_bytes(d.prefill_len as nat, 4) + le_bytes(d.pos as nat, 4) + le_bytes(
        d.rng_state as nat,
        8,
    ) + layer_bytes(d.k_layers, d.v_layers, 0)
}

/// What an export of `s` records. Counts are kept in 32 bits.
pub open spec fn session_data(s: Session, meta: SnapshotMetadata) -> SnapshotData {
    SnapshotData {
        meta,
        tokens: s.tokens@,
        prefill_len: s.prefill_len as u32,
        pos: s.pos as u32,
        rng_state: s.sampler.rng.state,
        k_layers: layer_data(s.cache.k_layers@),
        v_layers: layer_data(s.cache.v_layers@),
    }
}

// ── The read form ────────────────────────────────────────────────────────────

/// The 32-bit field at offset `at`.
pub open spec fn field32(b: Seq<u8>, at: int) -> u32 {
    le_value(b.subrange(at, at + 4)) as u32
}

/// The 64-bit field at offset `at`.
pub open spec fn field64(b: Seq<u8>, at: int) -> u64 {
    le_value(b.subrange(at, at + 8)) as u64
}

/// The error for a dimension that differs from the loaded model's.
pub open spec fn meta_mismatch(field: &'static str, expected: u64, found: u64) -> GlintError {
    GlintError::SnapshotMetaMismatch { field, expected, found }
}

/// What is wrong with the magic or the version of `b`, if anything.
pub open spec fn preamble_error(b: Seq<u8>) -> Option<GlintError> {
    if b.len() < 8 {
        Some(GlintError::SnapshotTruncated)
    } else if b.take(8) != magic() {
        Some(GlintError::SnapshotBadMagic)
    } else if b.len() < 12 {
        Some(GlintError::SnapshotTruncated)
    } else if field32(b, 8) != VERSION {
        Some(
            GlintError::SnapshotVersionUnsupported { found: field32(b, 8), current: VERSION },
        )
    } else {
        None
    }
}

/// What is wrong with the header of `b` for a model described by `e`, if
/// anything: the first field that fails decides.
pub open spec fn header_error(b: Seq<u8>, e: SnapshotMetadata) -> Option<GlintError> {
    if preamble_error(b) is Some {
        preamble_error(b)
    } else if b.len() < 20 {
        Some(GlintError::SnapshotTruncated)
    } else if field64(b, 12) != e.model_hash {
        Some(
            GlintError::SnapshotModelMismatch { expected: e.model_hash, found: field64(b, 12) },
        )
    } else if b.len() < 24 {
        Some(GlintError::SnapshotTruncated)
    } else if field32(b, 20) != e.context_len {
        Some(meta_mismatch("context_len", e.context_len as u64, field32(b, 20) as u64))
    } else if b.len() < 28 {
        Some(GlintError::SnapshotTruncated)
    } else if field32(b, 24) != e.n_layers {
        Some(meta_mismatch("n_layers", e.n_layers as u64, field32(b, 24) as u64))
    } else if b.len() < 32 {
        Some(GlintError::SnapshotTruncated)
    } else if field32(b, 28) != e.n_kv_heads {
        Some(meta_mismatch("n_kv_heads", e.n_kv_heads as u64, field32(b, 28) as u64))
    } else if b.len() < 36 {
        Some(GlintError::SnapshotTruncated)
    } else if field32(b, 32) != e.head_dim {
        Some(meta_mismatch("head_dim", e.head_dim as u64, field32(b, 32) as u64))
    } else if b.len() < 37 {
        Some(GlintError::SnapshotTruncated)
    } else if format_of_tag(b[36]) is None {
        Some(GlintError::SnapshotTruncated)
    } else if b[36] != format_tag(e.cache_format) {
        Some(meta_mismatch("cache_format", format_tag(e.cache_format) as u64, b[36] as u64))
    } else {
        None
    }
}

/// The first `n` tokens of `s`.
pub open spec fn parse_tokens(s: Seq<u8>, n: nat) -> Seq<u32>
    decreases n,
{
    if n == 0 {
        Seq::empty()
    } else {
        seq![le_value(s.take(4)) as u32] + parse_tokens(s.skip(4), (n - 1) as nat)
    }
}

/// The byte string at the front of `s` and what follows it.
pub open spec fn parse_block(s: Seq<u8>) -> Option<(Seq<u8>, Seq<u8>)> {
    if s.len() < 8 {
        None
    } else {
        let n = le_value(s.take(8));
        if s.len() - 8 < n {
            None
        } else {
            Some((s.subrange(8, 8 + n as int), s.skip(8 + n as int)))
        }
    }
}

/// The `n` layers at the front of `s`.
pub open spec fn parse_layers(s: Seq<u8>, n: nat) -> Option<(Seq<Seq<u8>>, Seq<Seq<u8>>)>
    decreases n,
{
    if n == 0 {
        Some((Seq::empty(), Seq::empty()))
    } else {
        match parse_block(s) {
            None => None,
            Some((k, s1)) => match parse_block(s1) {
                None => None,
                Some((v, s2)) => match parse_layers(s2, (n - 1) as nat) {
                    None => None,
                    Some((ks, vs)) => Some((seq![k] + ks, seq![v] + vs)),
                },
            },
        }
    }
}

/// What follows the header.
pub open spec fn parse_body(s: Seq<u8>, meta: SnapshotMetadata) -> Result<
    SnapshotData,
    GlintError,
> {
    let count = le_value(s.take(4));
    let at_tokens = s.skip(4);
    let at_state = at_tokens.skip(4 * count as int);
    let at_layers = at_state.skip(16);
    if s.len() < 4 || at_tokens.len() < 4 * count || at_state.len() < 16 {
        Err(GlintError::SnapshotTruncated)
    } else {
        match parse_layers(at_layers, meta.n_layers as nat) {
            None => Err(GlintError::SnapshotTruncated),
            Some((k_layers, v_layers)) => Ok(
                SnapshotData {
                    meta,
                    tokens: parse_tokens(at_tokens, count),
                    prefill_len: field32(at_state, 0),
                    pos: field32(at_state, 4),
                    rng_state: field64(at_state, 8),
                    k_layers,
                    v_layers,
                },
            ),
        }
    }
}

/// What `b` decodes to for a model described by `expected`. Bytes behind the
/// last layer are ignored.
pub open spec fn parse_snapshot(b: Seq<u8>, expected: SnapshotMetadata) -> Result<
    SnapshotData,
    GlintError,
> {
    match header_error(b, expected) {
        Some(e) => Err(e),
        None => parse_body(b.skip(37), expected),
    }
}

/// The cache format that the header of `b` names.
pub open spec fn parse_cache_format(b: Seq<u8>) -> Result<CacheFormat, GlintError> {
    match preamble_error(b) {
        Some(e) => Err(e),
        None => if b.len() < 37 {
            Err(GlintError::SnapshotTruncated)
        } else {
            match format_of_tag(b[36]) {
                Some(f) => Ok(f),
                None => Err(GlintError::SnapshotTruncated),
            }
        },
    }
}

// ── Reading ──────────────────────────────────────────────────────────────────

/// A cursor over a snapshot's bytes.
pub struct Reader<'a> {
    data: &'a [u8],
    pos: usize,
}

impl<'a> Reader<'a> {
    /// The bytes that have not been read yet.
    pub closed spec fn rest(&self) -> Seq<u8> {
        self.data@.skip(self.pos as int)
    }

    pub closed spec fn wf(&self) -> bool {
        self.pos <= self.data@.len()
    }

    pub fn new(data: &'a [u8]) -> (r: Self)
        ensures
            r.wf(),
            r.rest() == data@,
    {
        Reader { data, pos: 0 }
    }

    /// The next `n` bytes.
    pub fn read_exact(&mut self, n: usize) -> (r: Result<&'a [u8], GlintError>)
        requires
            old(self).wf(),
        ensures
            final(self).wf(),
            match r {
                Ok(s) => {
                    &&& n <= old(self).rest().len()
                    &&& s@ == old(self).rest().take(n as int)
                    &&& final(self).rest() == old(self).rest().skip(n as int)
                },
                Err(e) => {
                    &&& n > old(self).rest().len()
                    &&& e == GlintError::SnapshotTruncated
                    &&& final(self).rest() == old(self).rest()
                },
            },
    {
        if n > self.data.len() - self.pos {
            return Err(GlintError::SnapshotTruncated);
        }
        let slice = slice_subrange(self.data, self.pos, self.pos + n);
        self.pos = self.pos + n;
        assert(slice@ =~= old(self).rest().take(n as int));
        assert(self.rest() =~= old(self).rest().skip(n as int));
        Ok(slice)
    }

    pub fn read_u8(&mut self) -> (r: Result<u8, GlintError>)
        requires
            old(self).wf(),
        ensures
            final(self).wf(),
            match r {
                Ok(v) => {
                    &&& 1 <= old(self).rest().len()
                    &&& v == old(self).rest()[0]
                    &&& final(self).rest() == old(self).rest().skip(1)
                },
                Err(e) => {
                    &&& old(self).rest().len() < 1
                    &&& e == GlintError::SnapshotTruncated
                    &&& final(self).rest() == old(self).rest()
                },
            },
    {
        let b = self.read_exact(1)?;
        Ok(b[0])
    }

    pub fn read_u32(&mut self) -> (r: Result<u32, GlintError>)
        requires
            old(self).wf(),
        ensures
            final(self).wf(),
            match r {
                Ok(v) => {
                    &&& 4 <= old(self).rest().len()
                    &&& v == le_value(old(self).rest().take(4))
                    &&& final(self).rest() == old(self).rest().skip(4)
                },
                Err(e) => {
                    &&& old(self).rest().len() < 4
                    &&& e == GlintError::SnapshotTruncated
                    &&& final(self).rest() == old(self).rest()
                },
            },
    {
        let b = self.read_exact(4)?;
        assert(b@.take(4) =~= b@);
        Ok(u32_from_le(b))
    }

    pub fn read_u64(&mut self) -> (r: Result<u64, GlintError>)
        requires
            old(self).wf(),
        ensures
            final(self).wf(),
            match r {
                Ok(v) => {
                    &&& 8 <= old(self).rest().len()
                    &&& v == le_value(old(self).rest().take(8))
                    &&& final(self).rest() == old(self).rest().skip(8)
                },
                Err(e) => {
                    &&& old(self).rest().len() < 8
                    &&& e == GlintError::SnapshotTruncated
                    &&& final(self).rest() == old(self).rest()
                },
            },
    {
        let b = self.read_exact(8)?;
        assert(b@.take(8) =~= b@);
        Ok(u64_from_le(b))
    }

    /// A byte string behind its 64-bit length.
    pub fn read_byte_vec(&mut self) -> (r: Result<Vec<u8>, GlintError>)
        requires
            old(self).wf(),
        ensures
            final(self).wf(),
            match r {
                Ok(v) => parse_block(old(self).rest()) == Some((v@, final(self).rest())),
                Err(e) => {
                    &&& parse_block(old(self).rest()) is None
                    &&& e == GlintError::SnapshotTruncated
                },
            },
    {
        let ghost s = self.rest();
        let len: u64 = self.read_u64()?;
        let left: usize = self.data.len() - self.pos;
        assert(self.rest().len() == left);
        if len > left as u64 {
            return Err(GlintError::SnapshotTruncated);
        }
        let b = self.read_exact(len as usize)?;
        assert(b@ =~= s.subrange(8, 8 + len as int));
        assert(self.rest() =~= s.skip(8 + len as int));
        Ok(slice_to_vec(b))
    }
}

fn cache_format_tag(fmt: CacheFormat) -> (t: u8)
    ensures
        t == format_tag(fmt),
{
    match fmt {
        CacheFormat::F32 => 0,
        CacheFormat::Q8 => 1,
    }
}

fn cache_format_from_tag(tag: u8) -> (f: Option<CacheFormat>)
    ensures
        f == format_of_tag(tag),
{
    match tag {
        0 => Some(CacheFormat::F32),
        1 => Some(CacheFormat::Q8),
        _ => None,
    }
}

fn is_magic(b: &[u8]) -> (r: bool)
    requires
        b@.len() == 8,
    ensures
        r == (b@ == magic()),
{
    let r = b[0] == 0x47 && b[1] == 0x4C && b[2] == 0x4E && b[3] == 0x54 && b[4] == 0x53 && b[5]
        == 0x4E && b[6] == 0x41 && b[7] == 0x50;
    proof {
        if r {
            assert(b@ =~= magic());
        }
    }
    r
}

// ── Model identity ───────────────────────────────────────────────────────────

pub const FNV_OFFSET: u64 = 14695981039346656037;

pub const FNV_PRIME: u64 = 1099511628211;

/// The FNV-1a hash of `s`, modulo `2^64`.
pub open spec fn fnv64(s: Seq<u8>) -> u64
    decreases s.len(),
{
    if s.len() == 0 {
        FNV_OFFSET
    } else {
        (fnv64(s.drop_last()) ^ (s.last() as u64)).wrapping_mul(FNV_PRIME)
    }
}

fn fnv_feed(h: u64, data: &[u8], Ghost(done): Ghost<Seq<u8>>) -> (r: u64)
    requires
        h == fnv64(done),
    ensures
        r == fnv64(done + data@),
{
    let mut h: u64 = h;
    let mut i: usize = 0;
    assert(done + data@.take(0) =~= done);
    while i < data.len()
        invariant
            i <= data@.len(),
            h == fnv64(done + data@.take(i as int)),
        decreases data@.len() - i,
    {
        let ghost next = done + data@.take(i + 1);
        assert(next.drop_last() =~= done + data@.take(i as int));
        assert(next.last() == data@[i as int]);
        h = (h ^ (data[i] as u64)).wrapping_mul(FNV_PRIME);
        i = i + 1;
    }
    assert(data@.take(i as int) =~= data@);
    h
}

/// A cheap identity hash for a model file: FNV-64 of the UTF-8 path bytes
/// followed by the 8-byte little-endian file size.
///
/// This is not a cryptographic hash: it tells the most common cases apart
/// (another file, a truncated file) without reading any model content.
pub fn model_hash(path: &str, file_size: u64) -> (h: u64)
    ensures
        h == fnv64(path.spec_bytes() + le_bytes(file_size as nat, 8)),
{
    let mut size: Vec<u8> = Vec::new();
    write_u64(&mut size, file_size);
    assert(size@ =~= le_bytes(file_size as nat, 8));
    let bytes = path.as_bytes();
    let h: u64 = fnv_feed(FNV_OFFSET, bytes, Ghost(Seq::empty()));
    assert(Seq::<u8>::empty() + bytes@ =~= bytes@);
    fnv_feed(h, size.as_slice(), Ghost(bytes@))
}

// ── Export ───────────────────────────────────────────────────────────────────

fn write_magic(buf: &mut Vec<u8>)
    ensures
        final(buf)@ == old(buf)@ + magic(),
{
    buf.push(0x47);
    buf.push(0x4C);
    buf.push(0x4E);
    buf.push(0x54);
    buf.push(0x53);
    buf.push(0x4E);
    buf.push(0x41);
    buf.push(0x50);
    assert(buf@ =~= old(buf)@ + magic());
}

fn write_header(buf: &mut Vec<u8>, meta: &SnapshotMetadata)
    ensures
        final(buf)@ == old(buf)@ + header_bytes(*meta),
{
    write_magic(buf);
    write_u32(buf, VERSION);
    write_u64(buf, meta.model_hash);
    write_u32(buf, meta.context_len);
    write_u32(buf, meta.n_layers);
    write_u32(buf, meta.n_kv_heads);
    write_u32(buf, meta.head_dim);
    write_u8(buf, cache_format_tag(meta.cache_format));
    assert(buf@ =~= old(buf)@ + header_bytes(*meta));
}

/// Serialise a [`Session`] to bytes.
///
/// `meta` must describe the loaded model, so that an import into another model
/// fails at once.
pub fn export_snapshot_with_meta(session: &Session, meta: &SnapshotMetadata) -> (r: Result<
    Vec<u8>,
    GlintError,
>)
    ensures
        r matches Ok(b) && b@ == snapshot_bytes(session_data(*session, *meta)),
{
    let ghost d = session_data(*session, *meta);
    let mut buf: Vec<u8> = Vec::new();
    write_header(&mut buf, meta);
    write_u32(&mut buf, session.tokens.len() as u32);
    let ghost head = buf@;
    assert(head =~= header_bytes(*meta) + le_bytes((d.tokens.len() as u32) as nat, 4));
    let mut i: usize = 0;
    while i < session.tokens.len()
        invariant
            i <= session.tokens@.len(),
            buf@ + token_bytes(session.tokens@, i as int) == head + token_bytes(
                session.tokens@,
                0,
            ),
        decreases session.tokens@.len() - i,
    {
        let ghost before = buf@;
        write_u32(&mut buf, session.tokens[i]);
        i = i + 1;
        assert(buf@ + token_bytes(session.tokens@, i as int) =~= before + token_bytes(
            session.tokens@,
            i - 1,
        ));
    }
    assert(buf@ =~= head + token_bytes(session.tokens@, 0));
    write_u32(&mut buf, session.prefill_len as u32);
    write_u32(&mut buf, session.pos as u32);
    write_u64(&mut buf, session.sampler.rng.state);
    let ghost state = buf@;
    let k_layers = &session.cache.k_layers;
    let v_layers = &session.cache.v_layers;
    let mut l: usize = 0;
    while l < k_layers.len() && l < v_layers.len()
        invariant
            l <= k_layers@.len(),
            l <= v_layers@.len(),
            d.k_layers == layer_data(k_layers@),
            d.v_layers == layer_data(v_layers@),
            buf@ + layer_bytes(d.k_layers, d.v_layers, l as int) == state + layer_bytes(
                d.k_layers,
                d.v_layers,
                0,
            ),
        decreases k_layers@.len() - l,
    {
        let ghost before = buf@;
        write_bytes(&mut buf, k_layers[l].as_slice());
        write_bytes(&mut buf, v_layers[l].as_slice());
        l = l + 1;
        assert(buf@ + layer_bytes(d.k_layers, d.v_layers, l as int) =~= before + layer_bytes(
            d.k_layers,
            d.v_layers,
            l - 1,
        ));
    }
    assert(buf@ =~= snapshot_bytes(d));
    Ok(buf)
}

// ── Import ───────────────────────────────────────────────────────────────────

/// Check the magic and the version.
fn read_preamble(r: &mut Reader) -> (res: Result<(), GlintError>)
    requires
        old(r).wf(),
    ensures
        final(r).wf(),
        match res {
            Ok(_) => {
                &&& preamble_error(old(r).rest()) is None
                &&& old(r).rest().len() >= 12
                &&& final(r).rest() == old(r).rest().skip(12)
            },
            Err(e) => preamble_error(old(r).rest()) == Some(e),
        },
{
    let ghost b = r.rest();
    let magic = r.read_exact(8)?;
    if !is_magic(magic) {
        return Err(GlintError::SnapshotBadMagic);
    }
    let version: u32 = r.read_u32()?;
    assert(b.skip(8).take(4) =~= b.subrange(8, 12));
    assert(r.rest() =~= b.skip(12));
    if version != VERSION {
        return Err(
            GlintError::SnapshotVersionUnsupported { found: version, current: VERSION },
        );
    }
    Ok(())
}

/// Read just the cache-format tag from a snapshot header.
///
/// This is useful for callers that need the expected metadata before they can
/// run full validation.
pub fn peek_snapshot_cache_format(bytes: &[u8]) -> (r: Result<CacheFormat, GlintError>)
    ensures
        r == parse_cache_format(bytes@),
{
    let mut r = Reader::new(bytes);
    read_preamble(&mut r)?;
    // model hash and the four dimensions
    let _ = r.read_exact(24)?;
    assert(r.rest() =~= bytes@.skip(36));
    let tag: u8 = r.read_u8()?;
    match cache_format_from_tag(tag) {
        Some(f) => Ok(f),
        None => Err(GlintError::SnapshotTruncated),
    }
}

/// Check the metadata against `expected`, field by field.
fn read_header(r: &mut Reader, expected: &SnapshotMetadata) -> (res: Result<(), GlintError>)
    requires
        old(r).wf(),
    ensures
        final(r).wf(),
        match res {
            Ok(_) => {
                &&& header_error(old(r).rest(), *expected) is None
                &&& final(r).rest() == old(r).rest().skip(37)
            },
            Err(e) => header_error(old(r).rest(), *expected) == Some(e),
        },
{
    let ghost b = r.rest();
    proof {
        lemma_byte_range_values();
    }
    read_preamble(r)?;

    let model_hash: u64 = r.read_u64()?;
    assert(b.skip(12).take(8) =~= b.subrange(12, 20));
    assert(r.rest() =~= b.skip(20));
    if model_hash != expected.model_hash {
        return Err(
            GlintError::SnapshotModelMismatch {
                expected: expected.model_hash,
                found: model_hash,
            },
        );
    }
    let context_len: u32 = r.read_u32()?;
    assert(b.skip(20).take(4) =~= b.subrange(20, 24));
    assert(r.rest() =~= b.skip(24));
    if context_len != expected.context_len {
        return Err(
            GlintError::SnapshotMetaMismatch {
                field: "context_len",
                expected: expected.context_len as u64,
                found: context_len as u64,
            },
        );
    }
    let n_layers: u32 = r.read_u32()?;
    assert(b.skip(24).take(4) =~= b.subrange(24, 28));
    assert(r.rest() =~= b.skip(28));
    if n_layers != expected.n_layers {
        return Err(
            GlintError::SnapshotMetaMismatch {
                field: "n_layers",
                expected: expected.n_layers as u64,
                found: n_layers as u64,
            },
        );
    }
    let n_kv_heads: u32 = r.read_u32()?;
    assert(b.skip(28).take(4) =~= b.subrange(28, 32));
    assert(r.rest() =~= b.skip(32));
    if n_kv_heads != expected.n_kv_heads {
        return Err(
            GlintError::SnapshotMetaMismatch {
                field: "n_kv_heads",
                expected: expected.n_kv_heads as u64,
                found: n_kv_heads as u64,
            },
        );
    }
    let head_dim: u32 = r.read_u32()?;
    assert(b.skip(32).take(4) =~= b.subrange(32, 36));
    assert(r.rest() =~= b.skip(36));
    if head_dim != expected.head_dim {
        return Err(
            GlintError::SnapshotMetaMismatch {
                field: "head_dim",
                expected: expected.head_dim as u64,
                found: head_dim as u64,
            },
        );
    }
    let tag: u8 = r.read_u8()?;
    assert(r.rest() =~= b.skip(37));
    match cache_format_from_tag(tag) {
        None => Err(GlintError::SnapshotTruncated),
        Some(f) => if f != expected.cache_format {
            Err(
                GlintError::SnapshotMetaMismatch {
                    field: "cache_format",
                    expected: cache_format_tag(expected.cache_format) as u64,
                    found: tag as u64,
                },
            )
        } else {
            Ok(())
        },
    }
}

/// Read `count` tokens.
fn read_tokens(r: &mut Reader, count: u32) -> (res: Result<Vec<u32>, GlintError>)
    requires
        old(r).wf(),
    ensures
        final(r).wf(),
        match res {
            Ok(t) => {
                &&& 4 * count <= old(r).rest().len()
                &&& t@ == parse_tokens(old(r).rest(), count as nat)
                &&& final(r).rest() == old(r).rest().skip(4 * count)
            },
            Err(e) => {
                &&& 4 * count > old(r).rest().len()
                &&& e == GlintError::SnapshotTruncated
            },
        },
{
    let ghost s = r.rest();
    let mut tokens: Vec<u32> = Vec::new();
    let mut i: u32 = 0;
    assert(s.skip(0) =~= s);
    while i < count
        invariant
            r.wf(),
            s == old(r).rest(),
            i <= count,
            4 * i <= s.len(),
            r.rest() == s.skip(4 * i),
            parse_tokens(s, count as nat) == tokens@ + parse_tokens(
                s.skip(4 * i),
                (count - i) as nat,
            ),
        decreases count - i,
    {
        let ghost before = tokens@;
        let t: u32 = r.read_u32()?;
        tokens.push(t);
        assert(s.skip(4 * i).skip(4) =~= s.skip(4 * (i + 1)));
        assert(before + (seq![t] + parse_tokens(s.skip(4 * (i + 1)), (count - i - 1) as nat))
            =~= tokens@ + parse_tokens(s.skip(4 * (i + 1)), (count - i - 1) as nat));
        i = i + 1;
    }
    assert(tokens@ =~= parse_tokens(s, count as nat));
    Ok(tokens)
}

/// Read `n` layers.
fn read_layers(r: &mut Reader, n: u32) -> (res: Result<(Vec<Vec<u8>>, Vec<Vec<u8>>), GlintError>)
    requires
        old(r).wf(),
    ensures
        final(r).wf(),
        match res {
            Ok(t) => parse_layers(old(r).rest(), n as nat) == Some(
                (layer_data(t.0@), layer_data(t.1@)),
            ),
            Err(e) => {
                &&& parse_layers(old(r).rest(), n as nat) is None
                &&& e == GlintError::SnapshotTruncated
            },
        },
{
    let ghost s = r.rest();
    let mut k_layers: Vec<Vec<u8>> = Vec::new();
    let mut v_layers: Vec<Vec<u8>> = Vec::new();
    let mut i: u32 = 0;
    proof {
        if let Some((ks, vs)) = parse_layers(s, n as nat) {
            assert(layer_data(k_layers@) + ks =~= ks);
            assert(layer_data(v_layers@) + vs =~= vs);
        }
    }
    while i < n
        invariant
            r.wf(),
            s == old(r).rest(),
            i <= n,
            match parse_layers(r.rest(), (n - i) as nat) {
                None => parse_layers(s, n as nat) is None,
                Some((ks, vs)) => parse_layers(s, n as nat) == Some(
                    (layer_data(k_layers@) + ks, layer_data(v_layers@) + vs),
                ),
            },
        decreases n - i,
    {
        let ghost kb = layer_data(k_layers@);
        let ghost vb = layer_data(v_layers@);
        let k = r.read_byte_vec()?;
        let v = r.read_byte_vec()?;
        k_layers.push(k);
        v_layers.push(v);
        proof {
            assert(layer_data(k_layers@) =~= kb.push(k@));
            assert(layer_data(v_layers@) =~= vb.push(v@));
            if let Some((ks, vs)) = parse_layers(r.rest(), (n - i - 1) as nat) {
                assert(kb + (seq![k@] + ks) =~= kb.push(k@) + ks);
                assert(vb + (seq![v@] + vs) =~= vb.push(v@) + vs);
            }
        }
        i = i + 1;
    }
    proof {
        assert(layer_data(k_layers@) + Seq::empty() =~= layer_data(k_layers@));
        assert(layer_data(v_layers@) + Seq::empty() =~= layer_data(v_layers@));
    }
    Ok((k_layers, v_layers))
}

/// Deserialise and verify a snapshot.
///
/// `expected` must match the loaded model's dimensions; any mismatch returns a
/// named error before any cache data is read.
pub fn import_snapshot(bytes: &[u8], expected: &SnapshotMetadata) -> (r: Result<
    KvSnapshot,
    GlintError,
>)
    ensures
        match r {
            Ok(s) => parse_snapshot(bytes@, *expected) == Ok::<SnapshotData, GlintError>(s@),
            Err(e) => parse_snapshot(bytes@, *expected) == Err::<SnapshotData, GlintError>(e),
        },
{
    let mut r = Reader::new(bytes);
    read_header(&mut r, expected)?;
    let ghost s = r.rest();
    let token_count: u32 = r.read_u32()?;
    let tokens = read_tokens(&mut r, token_count)?;
    let ghost at_state = r.rest();
    proof {
        lemma_byte_range_values();
    }
    let prefill_len: u32 = r.read_u32()?;
    assert(at_state.take(4) =~= at_state.subrange(0, 4));
    let pos: u32 = r.read_u32()?;
    assert(at_state.skip(4).take(4) =~= at_state.subrange(4, 8));
    let rng_state: u64 = r.read_u64()?;
    assert(at_state.skip(4).skip(4).take(8) =~= at_state.subrange(8, 16));
    assert(r.rest() =~= at_state.skip(16));
    let (k_layers, v_layers) = read_layers(&mut r, expected.n_layers)?;
    Ok(
        KvSnapshot {
            meta: *expected,
            tokens,
            prefill_len,
            pos,
            rng_state,
            k_layers,
            v_layers,
        },
    )
}

// ── Restore ──────────────────────────────────────────────────────────────────

/// `s` goes on where the snapshot was taken; what a snapshot does not record comes
/// from the options.
pub open spec fn is_restored(s: Session, d: SnapshotData, opts: SessionOptions) -> bool {
    &&& s.tokens@ == d.tokens
    &&& s.prefill_len == d.prefill_len
    &&& s.pos == d.pos
    &&& s.sampler.rng.state == d.rng_state
    &&& layer_data(s.cache.k_layers@) == d.k_layers
    &&& layer_data(s.cache.v_layers@) == d.v_layers
    &&& s.cache.len == d.tokens.len()
    &&& s.cache_format == opts.cache_format
    &&& s.eos_token == opts.eos_token
    &&& s.max_remaining == opts.max_new_tokens
    &&& s.lora_adapter == opts.lora_adapter
}

/// Restore a [`Session`] from a verified [`KvSnapshot`].
///
/// The session's sampler goes on from `snap.rng_state`, so that generation
/// resumes deterministically when a fixed seed was used.
pub fn restore_session(snap: KvSnapshot, opts: SessionOptions) -> (r: Result<Session, GlintError>)
    ensures
        r matches Ok(s) && is_restored(s, snap@, opts),
{
    let mut session = Session::new(opts);
    session.cache.len = snap.tokens.len();
    session.tokens = snap.tokens;
    session.prefill_len = snap.prefill_len as usize;
    session.pos = snap.pos as usize;
    session.sampler.rng = Xorshift64::restore(snap.rng_state);
    session.cache.k_layers = snap.k_layers;
    session.cache.v_layers = snap.v_layers;
    Ok(session)
}

// ── Laws ─────────────────────────────────────────────────────────────────────

/// The sizes that the format's counters can hold, for the model of `d.meta`.
pub open spec fn fits(d: SnapshotData) -> bool {
    &&& d.tokens.len() <= u32::MAX
    &&& d.k_layers.len() == d.meta.n_layers
    &&& d.v_layers.len() == d.meta.n_layers
    &&& forall|i: int| 0 <= i < d.k_layers.len() ==> (#[trigger] d.k_layers[i]).len() <= u64::MAX
    &&& forall|i: int| 0 <= i < d.v_layers.len() ==> (#[trigger] d.v_layers[i]).len() <= u64::MAX
}

/// A number written between two byte strings is read back from its place.
proof fn lemma_field(pre: Seq<u8>, v: nat, n: nat, post: Seq<u8>)
    requires
        v < crate::bytes::byte_range(n),
    ensures
        le_bytes(v, n).len() == n,
        (pre + le_bytes(v, n) + post).subrange(pre.len() as int, (pre.len() + n) as int)
            == le_bytes(v, n),
        le_value(
            (pre + le_bytes(v, n) + post).subrange(pre.len() as int, (pre.len() + n) as int),
        ) == v,
{
    lemma_le_round_trip(v, n);
    assert((pre + le_bytes(v, n) + post).subrange(pre.len() as int, (pre.len() + n) as int)
        =~= le_bytes(v, n));
}

proof fn lemma_header_fields(m: SnapshotMetadata, rest: Seq<u8>)
    ensures
        header_bytes(m).len() == 37,
        ({
            let b = header_bytes(m) + rest;
            &&& b.take(8) == magic()
            &&& field32(b, 8) == VERSION
            &&& field64(b, 12) == m.model_hash
            &&& field32(b, 20) == m.context_len
            &&& field32(b, 24) == m.n_layers
            &&& field32(b, 28) == m.n_kv_heads
            &&& field32(b, 32) == m.head_dim
            &&& b[36] == format_tag(m.cache_format)
            &&& b.skip(37) == rest
        }),
{
    lemma_byte_range_values();
    let b = header_bytes(m) + rest;
    let p0 = magic();
    let f1 = le_bytes(VERSION as nat, 4);
    let f2 = le_bytes(m.model_hash as nat, 8);
    let f3 = le_bytes(m.context_len as nat, 4);
    let f4 = le_bytes(m.n_layers as nat, 4);
    let f5 = le_bytes(m.n_kv_heads as nat, 4);
    let f6 = le_bytes(m.head_dim as nat, 4);
    let f7 = seq![format_tag(m.cache_format)];
    lemma_field(p0, VERSION as nat, 4, f2 + f3 + f4 + f5 + f6 + f7 + rest);
    assert(b =~= p0 + f1 + (f2 + f3 + f4 + f5 + f6 + f7 + rest));
    lemma_field(p0 + f1, m.model_hash as nat, 8, f3 + f4 + f5 + f6 + f7 + rest);
    assert(b =~= p0 + f1 + f2 + (f3 + f4 + f5 + f6 + f7 + rest));
    lemma_field(p0 + f1 + f2, m.context_len as nat, 4, f4 + f5 + f6 + f7 + rest);
    assert(b =~= p0 + f1 + f2 + f3 + (f4 + f5 + f6 + f7 + rest));
    lemma_field(p0 + f1 + f2 + f3, m.n_layers as nat, 4, f5 + f6 + f7 + rest);
    assert(b =~= p0 + f1 + f2 + f3 + f4 + (f5 + f6 + f7 + rest));
    lemma_field(p0 + f1 + f2 + f3 + f4, m.n_kv_heads as nat, 4, f6 + f7 + rest);
    assert(b =~= p0 + f1 + f2 + f3 + f4 + f5 + (f6 + f7 + rest));
    lemma_field(p0 + f1 + f2 + f3 + f4 + f5, m.head_dim as nat, 4, f7 + rest);
    assert(b =~= p0 + f1 + f2 + f3 + f4 + f5 + f6 + (f7 + rest));
    assert(b.take(8) =~= magic());
    assert(b.skip(37) =~= rest);
}

proof fn lemma_tokens_read_back(tokens: Seq<u32>, i: int, rest: Seq<u8>)
    requires
        0 <= i <= tokens.len(),
    ensures
        token_bytes(tokens, i).len() == 4 * (tokens.len() - i),
        parse_tokens(token_bytes(tokens, i) + rest, (tokens.len() - i) as nat) == tokens.skip(i),
        (token_bytes(tokens, i) + rest).skip(4 * (tokens.len() - i)) == rest,
    decreases tokens.len() - i,
{
    if i < tokens.len() {
        lemma_tokens_read_back(tokens, i + 1, rest);
        lemma_byte_range_values();
        lemma_le_round_trip(tokens[i] as nat, 4);
        let s = token_bytes(tokens, i) + rest;
        assert(s.take(4) =~= le_bytes(tokens[i] as nat, 4));
        assert(s.skip(4) =~= token_bytes(tokens, i + 1) + rest);
        assert(tokens.skip(i) =~= seq![tokens[i]] + tokens.skip(i + 1));
        assert(s.skip(4 * (tokens.len() - i)) =~= rest);
    } else {
        assert(tokens.skip(i) =~= Seq::empty());
        assert((token_bytes(tokens, i) + rest).skip(0) =~= rest);
    }
}

proof fn lemma_block_reads_back(data: Seq<u8>, rest: Seq<u8>)
    requires
        data.len() <= u64::MAX,
    ensures
        parse_block(block(data) + rest) == Some((data, rest)),
        block(data).len() == 8 + data.len(),
{
    lemma_byte_range_values();
    lemma_le_round_trip(data.len(), 8);
    let s = block(data) + rest;
    assert(s.take(8) =~= le_bytes(data.len(), 8));
    assert(s.subrange(8, 8 + data.len() as int) =~= data);
    assert(s.skip(8 + data.len() as int) =~= rest);
}

proof fn lemma_layers_read_back(k: Seq<Seq<u8>>, v: Seq<Seq<u8>>, i: int, rest: Seq<u8>)
    requires
        0 <= i <= k.len(),
        k.len() == v.len(),
        forall|j: int| 0 <= j < k.len() ==> (#[trigger] k[j]).len() <= u64::MAX,
        forall|j: int| 0 <= j < v.len() ==> (#[trigger] v[j]).len() <= u64::MAX,
    ensures
        parse_layers(layer_bytes(k, v, i) + rest, (k.len() - i) as nat) == Some(
            (k.skip(i), v.skip(i)),
        ),
    decreases k.len() - i,
{
    if i < k.len() {
        let s = layer_bytes(k, v, i) + rest;
        let after_v = layer_bytes(k, v, i + 1) + rest;
        let after_k = block(v[i]) + after_v;
        let n = (k.len() - i) as nat;
        assert(s == block(k[i]) + after_k) by {
            assert(s =~= block(k[i]) + after_k);
        }
        assert(parse_block(s) == Some((k[i], after_k))) by {
            lemma_block_reads_back(k[i], after_k);
        }
        assert(parse_block(after_k) == Some((v[i], after_v))) by {
            lemma_block_reads_back(v[i], after_v);
        }
        assert(parse_layers(after_v, (n - 1) as nat) == Some((k.skip(i + 1), v.skip(i + 1)))) by {
            lemma_layers_read_back(k, v, i + 1, rest);
        }
        assert(k.skip(i) == seq![k[i]] + k.skip(i + 1)) by {
            assert(k.skip(i) =~= seq![k[i]] + k.skip(i + 1));
        }
        assert(v.skip(i) == seq![v[i]] + v.skip(i + 1)) by {
            assert(v.skip(i) =~= seq![v[i]] + v.skip(i + 1));
        }
    } else {
        assert(k.skip(i) =~= Seq::empty());
        assert(v.skip(i) =~= Seq::empty());
    }
}

/// What stands between the header and the layers.
spec fn state_bytes(d: SnapshotData) -> Seq<u8> {
    le_bytes(d.prefill_len as nat, 4) + le_bytes(d.pos as nat, 4) + le_bytes(
        d.rng_state as nat,
        8,
    )
}

proof fn lemma_state_fields(d: SnapshotData, rest: Seq<u8>)
    ensures
        state_bytes(d).len() == 16,
        field32(state_bytes(d) + rest, 0) == d.prefill_len,
        field32(state_bytes(d) + rest, 4) == d.pos,
        field64(state_bytes(d) + rest, 8) == d.rng_state,
        (state_bytes(d) + rest).skip(16) == rest,
{
    lemma_byte_range_values();
    let f1 = le_bytes(d.prefill_len as nat, 4);
    let f2 = le_bytes(d.pos as nat, 4);
    let f3 = le_bytes(d.rng_state as nat, 8);
    let b = state_bytes(d) + rest;
    lemma_field(Seq::empty(), d.prefill_len as nat, 4, f2 + f3 + rest);
    assert(b =~= Seq::empty() + f1 + (f2 + f3 + rest));
    lemma_field(f1, d.pos as nat, 4, f3 + rest);
    assert(b =~= f1 + f2 + (f3 + rest));
    lemma_field(f1 + f2, d.rng_state as nat, 8, rest);
    assert(b =~= f1 + f2 + f3 + rest);
    assert(b.skip(16) =~= rest);
}

/// The body of a snapshot, part by part.
proof fn lemma_body_shape(d: SnapshotData)
    ensures
        snapshot_bytes(d) == header_bytes(d.meta) + (le_bytes((d.tokens.len() as u32) as nat, 4) + (
        token_bytes(d.tokens, 0) + (state_bytes(d) + layer_bytes(d.k_layers, d.v_layers, 0)))),
{
    assert(snapshot_bytes(d) =~= header_bytes(d.meta) + (le_bytes(
        (d.tokens.len() as u32) as nat,
        4,
    ) + (token_bytes(d.tokens, 0) + (state_bytes(d) + layer_bytes(d.k_layers, d.v_layers, 0)))));
}

proof fn lemma_tail_moves_in(
    h: Seq<u8>,
    c: Seq<u8>,
    t: Seq<u8>,
    s: Seq<u8>,
    l: Seq<u8>,
    tail: Seq<u8>,
)
    ensures
        (h + (c + (t + (s + l)))) + tail == h + (c + (t + (s + (l + tail)))),
{
    assert((h + (c + (t + (s + l)))) + tail =~= h + (c + (t + (s + (l + tail)))));
}

proof fn lemma_body_reads_back(d: SnapshotData, tail: Seq<u8>)
    requires
        fits(d),
    ensures
        parse_body(
            le_bytes(d.tokens.len(), 4) + (token_bytes(d.tokens, 0) + (state_bytes(d) + (
            layer_bytes(d.k_layers, d.v_layers, 0) + tail))),
            d.meta,
        ) == Ok::<SnapshotData, GlintError>(d),
{
    let layers = layer_bytes(d.k_layers, d.v_layers, 0) + tail;
    let state = state_bytes(d) + layers;
    let toks = token_bytes(d.tokens, 0) + state;
    let count = le_bytes(d.tokens.len(), 4);
    let body = count + toks;
    assert(le_value(body.take(4)) == d.tokens.len() && body.skip(4) == toks && body.len() >= 4) by {
        lemma_byte_range_values();
        lemma_le_round_trip(d.tokens.len(), 4);
        assert(body.take(4) =~= count);
        assert(body.skip(4) =~= toks);
    }
    assert(toks.len() >= 4 * d.tokens.len() && parse_tokens(toks, d.tokens.len()) == d.tokens
        && toks.skip(4 * d.tokens.len() as int) == state) by {
        lemma_tokens_read_back(d.tokens, 0, state);
        assert(d.tokens.skip(0) =~= d.tokens);
    }
    lemma_state_fields(d, layers);
    assert(parse_layers(layers, d.meta.n_layers as nat) == Some((d.k_layers, d.v_layers))) by {
        lemma_layers_read_back(d.k_layers, d.v_layers, 0, tail);
        assert(d.k_layers.skip(0) =~= d.k_layers);
        assert(d.v_layers.skip(0) =~= d.v_layers);
    }
}

/// Importing what was exported gives back everything that was exported, for any
/// session whose sizes the format can hold and whatever bytes follow.
pub proof fn law_import_inverts_export(d: SnapshotData, tail: Seq<u8>)
    requires
        fits(d),
    ensures
        parse_snapshot(snapshot_bytes(d) + tail, d.meta) == Ok::<SnapshotData, GlintError>(d),
{
    let b = snapshot_bytes(d) + tail;
    let body = le_bytes(d.tokens.len(), 4) + (token_bytes(d.tokens, 0) + (state_bytes(d) + (
    layer_bytes(d.k_layers, d.v_layers, 0) + tail)));
    assert(b == header_bytes(d.meta) + body) by {
        lemma_body_shape(d);
        lemma_tail_moves_in(
            header_bytes(d.meta),
            le_bytes(d.tokens.len(), 4),
            token_bytes(d.tokens, 0),
            state_bytes(d),
            layer_bytes(d.k_layers, d.v_layers, 0),
            tail,
        );
    }
    lemma_header_fields(d.meta, body);
    lemma_body_reads_back(d, tail);
}

/// A session that is exported, imported and restored goes on exactly where it was:
/// same tokens, same place in them, same random numbers to come, same cache.
pub proof fn law_session_survives_a_snapshot(
    s: Session,
    meta: SnapshotMetadata,
    opts: SessionOptions,
    restored: Session,
)
    requires
        fits(session_data(s, meta)),
        s.prefill_len <= u32::MAX,
        s.pos <= u32::MAX,
        is_restored(
            restored,
            parse_snapshot(snapshot_bytes(session_data(s, meta)), meta)->Ok_0,
            opts,
        ),
    ensures
        parse_snapshot(snapshot_bytes(session_data(s, meta)), meta) is Ok,
        restored.tokens@ == s.tokens@,
        restored.prefill_len == s.prefill_len,
        restored.pos == s.pos,
        restored.sampler.rng.state == s.sampler.rng.state,
        layer_data(restored.cache.k_layers@) == layer_data(s.cache.k_layers@),
        layer_data(restored.cache.v_layers@) == layer_data(s.cache.v_layers@),
{
    let d = session_data(s, meta);
    law_import_inverts_export(d, Seq::empty());
    assert(snapshot_bytes(d) + Seq::<u8>::empty() =~= snapshot_bytes(d));
}

/// The cache format of an exported snapshot can be read without knowing the
/// model it belongs to.
pub proof fn law_peek_reads_exported_format(d: SnapshotData, tail: Seq<u8>)
    ensures
        parse_cache_format(snapshot_bytes(d) + tail) == Ok::<CacheFormat, GlintError>(
            d.meta.cache_format,
        ),
{
    lemma_body_shape(d);
    let b = snapshot_bytes(d) + tail;
    let body = b.skip(37);
    lemma_header_fields(d.meta, Seq::empty());
    assert(header_bytes(d.meta) + Seq::empty() =~= header_bytes(d.meta));
    assert(b =~= header_bytes(d.meta) + body);
    lemma_header_fields(d.meta, body);
}

/// A snapshot of another model is refused by the first field that differs, in
/// the order of the header, and the error carries both values.
pub proof fn law_first_mismatch_is_named(d: SnapshotData, e: SnapshotMetadata, tail: Seq<u8>)
    ensures
        ({
            let m = d.meta;
            let r = parse_snapshot(snapshot_bytes(d) + tail, e);
            if m.model_hash != e.model_hash {
                r == Err::<SnapshotData, GlintError>(
                    GlintError::SnapshotModelMismatch {
                        expected: e.model_hash,
                        found: m.model_hash,
                    },
                )
            } else if m.context_len != e.context_len {
                r == Err::<SnapshotData, GlintError>(
                    meta_mismatch("context_len", e.context_len as u64, m.context_len as u64),
                )
            } else if m.n_layers != e.n_layers {
                r == Err::<SnapshotData, GlintError>(
                    meta_mismatch("n_layers", e.n_layers as u64, m.n_layers as u64),
                )
            } else if m.n_kv_heads != e.n_kv_heads {
                r == Err::<SnapshotData, GlintError>(
                    meta_mismatch("n_kv_heads", e.n_kv_heads as u64, m.n_kv_heads as u64),
                )
            } else if m.head_dim != e.head_dim {
                r == Err::<SnapshotData, GlintError>(
                    meta_mismatch("head_dim", e.head_dim as u64, m.head_dim as u64),
                )
            } else if m.cache_format != e.cache_format {
                r == Err::<SnapshotData, GlintError>(
                    meta_mismatch(
                        "cache_format",
                        format_tag(e.cache_format) as u64,
                        format_tag(m.cache_format) as u64,
                    ),
                )
            } else {
                e == m
            }
        }),
{
    lemma_body_shape(d);
    let b = snapshot_bytes(d) + tail;
    let body = b.skip(37);
    lemma_header_fields(d.meta, Seq::empty());
    assert(header_bytes(d.meta) + Seq::empty() =~= header_bytes(d.meta));
    assert(b =~= header_bytes(d.meta) + body);
    lemma_header_fields(d.meta, body);
}

/// The metadata is verified before any cache data is read: whether a header is
/// refused, and how, does not depend on what follows it.
pub proof fn law_header_decides_before_data(b: Seq<u8>, c: Seq<u8>, e: SnapshotMetadata)
    requires
        b.len() >= 37,
        c.len() >= 37,
        b.take(37) == c.take(37),
    ensures
        header_error(b, e) == header_error(c, e),
{
    let h = b.take(37);
    assert forall|s: Seq<u8>, i: int, j: int|
        s.len() >= 37 && s.take(37) == h && 0 <= i <= j <= 37 implies #[trigger] s.subrange(i, j)
        == h.subrange(i, j) by {
        assert(s.subrange(i, j) =~= s.take(37).subrange(i, j));
    }
    assert(b.take(8) =~= h.subrange(0, 8));
    assert(c.take(8) =~= h.subrange(0, 8));
    assert(b[36] == h[36]);
    assert(c[36] == h[36]);
}

/// An accepted snapshot is one of the expected model.
pub proof fn law_accepted_snapshot_matches_the_model(b: Seq<u8>, e: SnapshotMetadata)
    requires
        parse_snapshot(b, e) is Ok,
    ensures
        parse_snapshot(b, e)->Ok_0.meta == e,
        parse_cache_format(b) == Ok::<CacheFormat, GlintError>(e.cache_format),
        parse_snapshot(b, e)->Ok_0.k_layers.len() == e.n_layers,
        parse_snapshot(b, e)->Ok_0.v_layers.len() == e.n_layers,
{
    lemma_parsed_layer_count(b.skip(37).skip(4).skip(4 * le_value(b.skip(37).take(4)) as int).skip(16), e.n_layers as nat);
}

proof fn lemma_parsed_layer_count(s: Seq<u8>, n: nat)
    requires
        parse_layers(s, n) is Some,
    ensures
        (parse_layers(s, n)->0).0.len() == n,
        (parse_layers(s, n)->0).1.len() == n,
    decreases n,
{
    if n > 0 {
        lemma_parsed_layer_count((parse_block((parse_block(s)->0).1)->0).1, (n - 1) as nat);
    }
}

proof fn lemma_short_block(data: Seq<u8>, m: int)
    requires
        data.len() <= u64::MAX,
        0 <= m < block(data).len(),
    ensures
        parse_block(block(data).take(m)) is None,
{
    lemma_byte_range_values();
    lemma_le_round_trip(data.len(), 8);
    let s = block(data).take(m);
    if m >= 8 {
        assert(s.take(8) =~= le_bytes(data.len(), 8));
    }
}

proof fn lemma_short_layers(k: Seq<Seq<u8>>, v: Seq<Seq<u8>>, i: int, m: int)
    requires
        0 <= i <= k.len(),
        k.len() == v.len(),
        forall|j: int| 0 <= j < k.len() ==> (#[trigger] k[j]).len() <= u64::MAX,
        forall|j: int| 0 <= j < v.len() ==> (#[trigger] v[j]).len() <= u64::MAX,
        0 <= m < layer_bytes(k, v, i).len(),
    ensures
        parse_layers(layer_bytes(k, v, i).take(m), (k.len() - i) as nat) is None,
    decreases k.len() - i,
{
    let all = layer_bytes(k, v, i);
    let next = layer_bytes(k, v, i + 1);
    let bk = block(k[i]);
    let bv = block(v[i]);
    assert(all =~= bk + (bv + next));
    let s = all.take(m);
    lemma_block_reads_back(k[i], Seq::empty());
    lemma_block_reads_back(v[i], Seq::empty());
    if m < bk.len() {
        assert(s =~= bk.take(m));
        lemma_short_block(k[i], m);
    } else {
        let m1 = m - bk.len();
        let s1 = (bv + next).take(m1);
        assert(s =~= bk + s1);
        lemma_block_reads_back(k[i], s1);
        if m1 < bv.len() {
            assert(s1 =~= bv.take(m1));
            lemma_short_block(v[i], m1);
        } else {
            let m2 = m1 - bv.len();
            assert(s1 =~= bv + next.take(m2));
            lemma_block_reads_back(v[i], next.take(m2));
            lemma_short_layers(k, v, i + 1, m2);
        }
    }
}

proof fn lemma_cut_header(all: Seq<u8>, e: SnapshotMetadata, m: int)
    requires
        all.len() >= 37,
        header_error(all, e) is None,
        0 <= m < 37,
    ensures
        header_error(all.take(m), e) == Some(GlintError::SnapshotTruncated),
{
    let b = all.take(m);
    assert forall|i: int, j: int| 0 <= i <= j <= m implies #[trigger] b.subrange(i, j)
        == all.subrange(i, j) by {
        assert(b.subrange(i, j) =~= all.subrange(i, j));
    }
    if m >= 8 {
        assert(b.take(8) =~= all.take(8));
    }
}

proof fn lemma_cut_body(d: SnapshotData, body: Seq<u8>, m: int)
    requires
        fits(d),
        body == le_bytes(d.tokens.len(), 4) + (token_bytes(d.tokens, 0) + (state_bytes(d)
            + layer_bytes(d.k_layers, d.v_layers, 0))),
        0 <= m < body.len(),
    ensures
        parse_body(body.take(m), d.meta) == Err::<SnapshotData, GlintError>(
            GlintError::SnapshotTruncated,
        ),
{
    let layers = layer_bytes(d.k_layers, d.v_layers, 0);
    let state = state_bytes(d) + layers;
    let count = le_bytes(d.tokens.len(), 4);
    let n = d.tokens.len();
    let s = body.take(m);
    assert(count.len() == 4 && le_value(count) == n) by {
        lemma_byte_range_values();
        lemma_le_round_trip(n, 4);
    }
    assert(token_bytes(d.tokens, 0).len() == 4 * n) by {
        lemma_tokens_read_back(d.tokens, 0, state);
    }
    assert(state_bytes(d).len() == 16) by {
        lemma_state_fields(d, layers);
    }
    if m >= 4 {
        assert(s.take(4) =~= count);
        let at_tokens = s.skip(4);
        if at_tokens.len() >= 4 * n {
            let at_state = at_tokens.skip(4 * n as int);
            if at_state.len() >= 16 {
                let at_layers = at_state.skip(16);
                assert(at_layers =~= layers.take(at_layers.len() as int));
                lemma_short_layers(d.k_layers, d.v_layers, 0, at_layers.len() as int);
            }
        }
    }
}

proof fn lemma_value_bytes(b: Seq<u8>)
    ensures
        le_bytes(le_value(b), b.len()) == b,
        le_value(b) < crate::bytes::byte_range(b.len()),
{
    crate::bytes::lemma_le_value_bytes(b);
    crate::bytes::lemma_le_value_bound(b);
}

proof fn lemma_parsed_tokens_bytes(s: Seq<u8>, n: nat)
    requires
        s.len() >= 4 * n,
    ensures
        parse_tokens(s, n).len() == n,
        token_bytes(parse_tokens(s, n), 0) == s.take(4 * n as int),
    decreases n,
{
    if n == 0 {
        assert(s.take(0) =~= Seq::empty());
    } else {
        let t = parse_tokens(s, n);
        let rest = parse_tokens(s.skip(4), (n - 1) as nat);
        lemma_parsed_tokens_bytes(s.skip(4), (n - 1) as nat);
        lemma_value_bytes(s.take(4));
        crate::bytes::lemma_byte_range_values();
        lemma_token_bytes_shift(t, 1);
        assert(t.skip(1) =~= rest);
        assert(s.take(4) + s.skip(4).take(4 * (n - 1)) =~= s.take(4 * n as int));
    }
}

proof fn lemma_token_bytes_shift(t: Seq<u32>, i: int)
    requires
        0 <= i <= t.len(),
    ensures
        token_bytes(t, i) == token_bytes(t.skip(i), 0),
    decreases t.len() - i,
{
    if i < t.len() {
        lemma_token_bytes_shift(t, i + 1);
        lemma_token_bytes_shift(t.skip(i), 1);
        assert(t.skip(i).skip(1) =~= t.skip(i + 1));
    }
}

proof fn lemma_layer_bytes_shift(k: Seq<Seq<u8>>, v: Seq<Seq<u8>>, i: int)
    requires
        0 <= i <= k.len(),
        k.len() == v.len(),
    ensures
        layer_bytes(k, v, i) == layer_bytes(k.skip(i), v.skip(i), 0),
    decreases k.len() - i,
{
    if i < k.len() {
        lemma_layer_bytes_shift(k, v, i + 1);
        lemma_layer_bytes_shift(k.skip(i), v.skip(i), 1);
        assert(k.skip(i).skip(1) =~= k.skip(i + 1));
        assert(v.skip(i).skip(1) =~= v.skip(i + 1));
    }
}

proof fn lemma_parsed_block_bytes(s: Seq<u8>)
    requires
        parse_block(s) is Some,
    ensures
        ({
            let (data, rest) = parse_block(s)->0;
            block(data) + rest == s
        }),
{
    let n = le_value(s.take(8));
    lemma_value_bytes(s.take(8));
    crate::bytes::lemma_byte_range_values();
    let (data, rest) = parse_block(s)->0;
    assert(data.len() == n);
    assert(block(data) + rest =~= s);
}

proof fn lemma_parsed_layers_bytes(s: Seq<u8>, n: nat)
    requires
        parse_layers(s, n) is Some,
    ensures
        ({
            let (k, v) = parse_layers(s, n)->0;
            &&& k.len() == n
            &&& v.len() == n
            &&& layer_bytes(k, v, 0).is_prefix_of(s)
        }),
    decreases n,
{
    if n > 0 {
        let (k, v) = parse_layers(s, n)->0;
        let (k0, s1) = parse_block(s)->0;
        let (v0, s2) = parse_block(s1)->0;
        lemma_parsed_block_bytes(s);
        lemma_parsed_block_bytes(s1);
        lemma_parsed_layers_bytes(s2, (n - 1) as nat);
        let (ks, vs) = parse_layers(s2, (n - 1) as nat)->0;
        lemma_layer_bytes_shift(k, v, 1);
        assert(k.skip(1) =~= ks);
        assert(v.skip(1) =~= vs);
        let tail = layer_bytes(ks, vs, 0);
        assert(layer_bytes(k, v, 0) == block(k0) + block(v0) + tail);
        assert(s =~= block(k0) + block(v0) + s2);
        assert(s2.take(tail.len() as int) =~= tail);
        assert(layer_bytes(k, v, 0) =~= s.take(layer_bytes(k, v, 0).len() as int));
    } else {
        assert(layer_bytes(Seq::<Seq<u8>>::empty(), Seq::<Seq<u8>>::empty(), 0) =~= s.take(0));
    }
}

/// There is one encoding: what is accepted starts with the bytes that its contents are
/// exported as.
pub proof fn law_accepted_bytes_are_the_encoding(b: Seq<u8>, e: SnapshotMetadata)
    requires
        parse_snapshot(b, e) is Ok,
    ensures
        snapshot_bytes(parse_snapshot(b, e)->Ok_0).is_prefix_of(b),
{
    let d = parse_snapshot(b, e)->Ok_0;
    let s = b.skip(37);
    let count = le_value(s.take(4));
    let at_tokens = s.skip(4);
    let at_state = at_tokens.skip(4 * count as int);
    let at_layers = at_state.skip(16);
    lemma_header_is_the_encoding(b, e);
    lemma_value_bytes(s.take(4));
    lemma_parsed_tokens_bytes(at_tokens, count);
    lemma_parsed_layers_bytes(at_layers, e.n_layers as nat);
    lemma_value_bytes(at_state.subrange(0, 4));
    lemma_value_bytes(at_state.subrange(4, 8));
    lemma_value_bytes(at_state.subrange(8, 16));
    crate::bytes::lemma_byte_range_values();
    lemma_body_shape(d);
    assert(state_bytes(d) =~= at_state.take(16));
    let layers = layer_bytes(d.k_layers, d.v_layers, 0);
    assert(at_layers.take(layers.len() as int) =~= layers);
    let all = snapshot_bytes(d);
    assert(all =~= b.take(all.len() as int));
}

proof fn lemma_header_is_the_encoding(b: Seq<u8>, e: SnapshotMetadata)
    requires
        header_error(b, e) is None,
    ensures
        header_bytes(e) == b.take(37),
{
    crate::bytes::lemma_byte_range_values();
    lemma_value_bytes(b.subrange(8, 12));
    lemma_value_bytes(b.subrange(12, 20));
    lemma_value_bytes(b.subrange(20, 24));
    lemma_value_bytes(b.subrange(24, 28));
    lemma_value_bytes(b.subrange(28, 32));
    lemma_value_bytes(b.subrange(32, 36));
    assert(header_bytes(e) =~= b.take(37));
}

/// A snapshot that was cut short anywhere is refused as truncated.
pub proof fn law_cut_snapshot_is_refused(d: SnapshotData, m: int)
    requires
        fits(d),
        0 <= m < snapshot_bytes(d).len(),
    ensures
        parse_snapshot(snapshot_bytes(d).take(m), d.meta) == Err::<SnapshotData, GlintError>(
            GlintError::SnapshotTruncated,
        ),
{
    let all = snapshot_bytes(d);
    let body = le_bytes(d.tokens.len(), 4) + (token_bytes(d.tokens, 0) + (state_bytes(d)
        + layer_bytes(d.k_layers, d.v_layers, 0)));
    lemma_body_shape(d);
    let h = header_bytes(d.meta);
    assert(all == h + body);
    lemma_header_fields(d.meta, body);
    if m < 37 {
        lemma_cut_header(all, d.meta, m);
    } else {
        let s = body.take(m - 37);
        lemma_take_past(h, body, m);
        lemma_header_fields(d.meta, s);
        lemma_cut_body(d, body, m - 37);
    }
}

proof fn lemma_take_past(h: Seq<u8>, t: Seq<u8>, m: int)
    requires
        h.len() <= m <= h.len() + t.len(),
    ensures
        (h + t).take(m) == h + t.take(m - h.len()),
{
    assert((h + t).take(m) =~= h + t.take(m - h.len()));
}

/// Where a snapshot keeps what describes the model: behind the magic and the version come
/// the model's hash and its dimensions, and the tag of the cache format.
pub proof fn law_headers_are_laid_out_in_this_order(d: SnapshotData)
    ensures
        ({
            let b = snapshot_bytes(d);
            &&& b.take(8) == seq![0x47u8, 0x4C, 0x4E, 0x54, 0x53, 0x4E, 0x41, 0x50]
            &&& field32(b, 8) == VERSION
            &&& field64(b, 12) == d.meta.model_hash
            &&& field32(b, 20) == d.meta.context_len
            &&& field32(b, 24) == d.meta.n_layers
            &&& field32(b, 28) == d.meta.n_kv_heads
            &&& field32(b, 32) == d.meta.head_dim
            &&& b[36] == match d.meta.cache_format {
                CacheFormat::F32 => 0u8,
                CacheFormat::Q8 => 1u8,
            }
        }),
{
    lemma_body_shape(d);
    let b = snapshot_bytes(d);
    lemma_header_fields(d.meta, Seq::empty());
    let h = header_bytes(d.meta);
    assert(h + Seq::empty() =~= h);
    assert(b =~= h + b.skip(37));
    lemma_header_fields(d.meta, b.skip(37));
}

/// Where a snapshot keeps the session, behind the header: the tokens in order with their
/// number before them, then the length of the prompt, the position and the random state.
pub proof fn law_sessions_are_laid_out_in_this_order(d: SnapshotData, i: int)
    requires
        fits(d),
    ensures
        ({
            let b = snapshot_bytes(d).skip(37);
            let n = d.tokens.len() as int;
            &&& le_value(b.take(4)) == n
            &&& 0 <= i < n ==> le_value(b.subrange(4 + 4 * i, 8 + 4 * i)) == d.tokens[i]
            &&& field32(b, 4 + 4 * n) == d.prefill_len
            &&& field32(b, 8 + 4 * n) == d.pos
            &&& field64(b, 12 + 4 * n) == d.rng_state
        }),
{
    let n = d.tokens.len() as int;
    let layers = layer_bytes(d.k_layers, d.v_layers, 0);
    let toks = token_bytes(d.tokens, 0);
    let count = le_bytes(d.tokens.len(), 4);
    let state = state_bytes(d) + layers;
    let b = count + (toks + state);
    assert(snapshot_bytes(d).skip(37) == b) by {
        lemma_body_shape(d);
        lemma_header_fields(d.meta, b);
    }
    lemma_byte_range_values();
    lemma_le_round_trip(d.tokens.len(), 4);
    crate::bytes::lemma_le_bytes_len(d.tokens.len(), 4);
    lemma_token_at(d.tokens, 0, i);
    assert(b.take(4) =~= count);
    if 0 <= i < n {
        lemma_le_round_trip(d.tokens[i] as nat, 4);
        lemma_inside(count, toks, state, 4 * i, 4 * i + 4);
    }
    lemma_state_fields(d, layers);
    lemma_behind(count, toks, state, 0, 4);
    lemma_behind(count, toks, state, 4, 8);
    lemma_behind(count, toks, state, 8, 16);
}

proof fn lemma_inside(a: Seq<u8>, b: Seq<u8>, c: Seq<u8>, from: int, to: int)
    requires
        0 <= from <= to <= b.len(),
    ensures
        (a + (b + c)).subrange(a.len() + from, a.len() + to) == b.subrange(from, to),
{
    assert((a + (b + c)).subrange(a.len() + from, a.len() + to) =~= b.subrange(from, to));
}

proof fn lemma_behind(a: Seq<u8>, b: Seq<u8>, c: Seq<u8>, from: int, to: int)
    requires
        0 <= from <= to <= c.len(),
    ensures
        (a + (b + c)).subrange(a.len() + b.len() + from, a.len() + b.len() + to) == c.subrange(
            from,
            to,
        ),
{
    assert((a + (b + c)).subrange(a.len() + b.len() + from, a.len() + b.len() + to) =~= c.subrange(
        from,
        to,
    ));
}

proof fn lemma_token_at(tokens: Seq<u32>, from: int, i: int)
    requires
        0 <= from <= tokens.len(),
    ensures
        token_bytes(tokens, from).len() == 4 * (tokens.len() - from),
        from <= i < tokens.len() ==> token_bytes(tokens, from).subrange(
            4 * (i - from),
            4 * (i - from) + 4,
        ) == le_bytes(tokens[i] as nat, 4),
    decreases tokens.len() - from,
{
    if from < tokens.len() {
        lemma_token_at(tokens, from + 1, i);
        crate::bytes::lemma_le_bytes_len(tokens[from] as nat, 4);
        let all = token_bytes(tokens, from);
        let rest = token_bytes(tokens, from + 1);
        if i == from {
            assert(all.subrange(0, 4) =~= le_bytes(tokens[i] as nat, 4));
        } else if from < i < tokens.len() {
            let at = 4 * (i - from - 1);
            assert(all.subrange(at + 4, at + 8) =~= rest.subrange(at, at + 4));
        }
    }
}

/// The hash takes in the bytes in order, each mixed in before the multiplication by the
/// 64-bit FNV prime, from the 64-bit FNV offset on. A change of the last byte is noticed.
pub proof fn law_every_byte_is_hashed(s: Seq<u8>, a: u8, b: u8)
    ensures
        fnv64(Seq::empty()) == 0xcbf2_9ce4_8422_2325,
        fnv64(s.push(a)) as int == (fnv64(s) ^ (a as u64)) * 0x100_0000_01b3
            % 0x1_0000_0000_0000_0000,
        fnv64(s.push(a)) == fnv64(s.push(b)) ==> a == b,
{
    assert(s.push(a).drop_last() =~= s);
    assert(s.push(b).drop_last() =~= s);
    let h = fnv64(s);
    let x = h ^ (a as u64);
    let y = h ^ (b as u64);
    lemma_prime_can_be_divided_out(x);
    lemma_prime_can_be_divided_out(y);
    assert(x == y ==> a == b) by (bit_vector)
        requires
            x == h ^ (a as u64),
            y == h ^ (b as u64),
    ;
}

proof fn lemma_prime_can_be_divided_out(x: u64)
    ensures
        (x.wrapping_mul(FNV_PRIME) as int * 0xce96_5057_aff6_957b) % 0x1_0000_0000_0000_0000 == x,
        x.wrapping_mul(FNV_PRIME) as int == x * FNV_PRIME % 0x1_0000_0000_0000_0000,
{
    let m = 0x1_0000_0000_0000_0000int;
    let inv = 0xce96_5057_aff6_957bint;
    let p = FNV_PRIME as int;
    let z = x.wrapping_mul(FNV_PRIME) as int;
    assert(z == x * p % m);
    vstd::arithmetic::div_mod::lemma_mul_mod_noop_left(x * p, inv, m);
    assert(p * inv % m == 1);
    assert(x * p * inv == x * (p * inv)) by (nonlinear_arith);
    vstd::arithmetic::div_mod::lemma_mul_mod_noop_right(x as int, p * inv, m);
    vstd::arithmetic::div_mod::lemma_small_mod(x as nat, m as nat);
}

/// Layers are written in order, each with its keys before its values and both behind their
/// length in eight bytes.
pub proof fn law_keys_come_before_values(k: Seq<Seq<u8>>, v: Seq<Seq<u8>>, i: int)
    requires
        0 <= i < k.len(),
        i < v.len(),
        k[i].len() <= u64::MAX,
        v[i].len() <= u64::MAX,
    ensures
        ({
            let b = layer_bytes(k, v, i);
            let (m, n) = (k[i].len() as int, v[i].len() as int);
            &&& b.len() >= 16 + m + n
            &&& le_value(b.take(8)) == m
            &&& b.subrange(8, 8 + m) == k[i]
            &&& le_value(b.subrange(8 + m, 16 + m)) == n
            &&& b.subrange(16 + m, 16 + m + n) == v[i]
            &&& b.skip(16 + m + n) == layer_bytes(k, v, i + 1)
        }),
{
    let b = layer_bytes(k, v, i);
    let rest = layer_bytes(k, v, i + 1);
    let (m, n) = (k[i].len() as int, v[i].len() as int);
    let (lk, lv) = (le_bytes(k[i].len(), 8), le_bytes(v[i].len(), 8));
    lemma_byte_range_values();
    lemma_le_round_trip(k[i].len(), 8);
    lemma_le_round_trip(v[i].len(), 8);
    crate::bytes::lemma_le_bytes_len(k[i].len(), 8);
    crate::bytes::lemma_le_bytes_len(v[i].len(), 8);
    assert(b =~= lk + (k[i] + (lv + (v[i] + rest))));
    assert(b.take(8) =~= lk);
    assert(b.subrange(8, 8 + m) =~= k[i]);
    assert(b.subrange(8 + m, 16 + m) =~= lv);
    assert(b.subrange(16 + m, 16 + m + n) =~= v[i]);
    assert(b.skip(16 + m + n) =~= rest);
}

} // verus!
