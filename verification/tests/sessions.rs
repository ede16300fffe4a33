//! Sessions and their snapshots.
use glint::error::GlintError;
use glint::sampling::SamplerConfig;
use glint::session::snapshot::{
    export_snapshot_with_meta, import_snapshot, model_hash, peek_snapshot_cache_format,
    restore_session, SnapshotMetadata,
};
use glint::session::{CacheFormat, Session, SessionOptions};

fn opts(fmt: CacheFormat) -> SessionOptions {
    SessionOptions {
        max_new_tokens: 10,
        sampler_cfg: SamplerConfig { seed: 1 },
        eos_token: 2,
        cache_format: fmt,
        context_length: 64,
        n_layers: 2,
        n_kv_heads: 2,
        head_dim: 8,
        lora_adapter: None,
    }
}

#[test]
fn test_session_new_f32() {
    let s = Session::new(opts(CacheFormat::F32));
    assert!(s.tokens.is_empty());
    assert_eq!(s.eos_token, 2);
    assert_eq!(s.max_remaining, 10);
    assert!(!s.is_finished());
}

#[test]
fn test_session_new_q8() {
    let s = Session::new(opts(CacheFormat::Q8));
    assert!(s.tokens.is_empty());
    assert!(!s.is_finished());
}

#[test]
fn test_session_finished_budget() {
    let mut s = Session::new(opts(CacheFormat::F32));
    s.max_remaining = 0;
    assert!(s.is_finished());
}

#[test]
fn test_session_finished_eos() {
    let mut s = Session::new(opts(CacheFormat::F32));
    s.tokens.push(2); // eos token
    assert!(s.is_finished());
}

fn make_meta() -> SnapshotMetadata {
    SnapshotMetadata {
        model_hash: 0xdeadbeef_cafebabe,
        context_len: 64,
        n_layers: 2,
        n_kv_heads: 2,
        head_dim: 8,
        cache_format: CacheFormat::F32,
    }
}

fn make_opts(meta: &SnapshotMetadata) -> SessionOptions {
    SessionOptions {
        max_new_tokens: 16,
        sampler_cfg: SamplerConfig { seed: 42 },
        eos_token: 2,
        cache_format: meta.cache_format,
        context_length: meta.context_len as usize,
        n_layers: meta.n_layers as usize,
        n_kv_heads: meta.n_kv_heads as usize,
        head_dim: meta.head_dim as usize,
        lora_adapter: None,
    }
}

fn f32_bytes(rows: &[Vec<f32>]) -> Vec<u8> {
    rows.iter().flatten().flat_map(|v| v.to_le_bytes()).collect()
}

fn write_dummy_cache(session: &mut Session) {
    // Two positions of known K/V data: 2 kv heads of 8 dimensions.
    let kv_dim = 2 * 8u32;
    let k0: Vec<f32> = (0..kv_dim).map(|i| i as f32 * 0.1).collect();
    let v0: Vec<f32> = (0..kv_dim).map(|i| i as f32 * 0.2 + 1.0).collect();
    let k1: Vec<f32> = (0..kv_dim).map(|i| i as f32 * 0.3 + 10.0).collect();
    let v1: Vec<f32> = (0..kv_dim).map(|i| i as f32 * 0.4 + 20.0).collect();
    for layer in 0..2 {
        session.cache.k_layers[layer] = f32_bytes(&[k0.clone(), k1.clone()]);
        session.cache.v_layers[layer] = f32_bytes(&[v0.clone(), v1.clone()]);
    }
    session.cache.len = 2;
    session.tokens = vec![10, 20];
    session.prefill_len = 1;
    session.pos = 1;
}

#[test]
fn test_roundtrip_f32() {
    let meta = make_meta();
    let mut original = Session::new(make_opts(&meta));
    write_dummy_cache(&mut original);

    let bytes = export_snapshot_with_meta(&original, &meta).unwrap();
    assert!(bytes.starts_with(b"GLNTSNAP"), "magic mismatch");

    let snap = import_snapshot(&bytes, &meta).unwrap();
    assert_eq!(snap.tokens, vec![10, 20]);
    assert_eq!(snap.prefill_len, 1);
    assert_eq!(snap.pos, 1);

    let restored = restore_session(snap, make_opts(&meta)).unwrap();
    for layer in 0..2 {
        assert_eq!(original.cache.k_layers[layer], restored.cache.k_layers[layer], "K layer {layer}");
        assert_eq!(original.cache.v_layers[layer], restored.cache.v_layers[layer], "V layer {layer}");
    }
    assert_eq!(restored.prefill_len, 1);
    assert_eq!(restored.cache.len, 2);
}

#[test]
fn test_bad_magic() {
    let meta = make_meta();
    let mut bytes = vec![0u8; 16];
    bytes[0..8].copy_from_slice(b"NOTMAGIC");
    assert!(matches!(import_snapshot(&bytes, &meta), Err(GlintError::SnapshotBadMagic)));
}

#[test]
fn test_model_hash_mismatch() {
    let meta = make_meta();
    let mut session = Session::new(make_opts(&meta));
    write_dummy_cache(&mut session);
    let bytes = export_snapshot_with_meta(&session, &meta).unwrap();

    let mut wrong_meta = make_meta();
    wrong_meta.model_hash ^= 1;
    assert!(matches!(
        import_snapshot(&bytes, &wrong_meta),
        Err(GlintError::SnapshotModelMismatch { .. })
    ));
}

#[test]
fn test_n_layers_mismatch() {
    let meta = make_meta();
    let mut session = Session::new(make_opts(&meta));
    write_dummy_cache(&mut session);
    let bytes = export_snapshot_with_meta(&session, &meta).unwrap();

    let mut wrong_meta = make_meta();
    wrong_meta.n_layers = 4;
    assert!(matches!(
        import_snapshot(&bytes, &wrong_meta),
        Err(GlintError::SnapshotMetaMismatch { field: "n_layers", .. })
    ));
}

#[test]
fn test_rng_state_restored() {
    let meta = make_meta();
    let mut session = Session::new(make_opts(&meta));
    for _ in 0..10 {
        session.sampler.rng.next_unit24();
    }
    let state_before = session.sampler.rng.state;
    write_dummy_cache(&mut session);

    let bytes = export_snapshot_with_meta(&session, &meta).unwrap();
    let snap = import_snapshot(&bytes, &meta).unwrap();
    let restored = restore_session(snap, make_opts(&meta)).unwrap();
    assert_eq!(restored.sampler.rng.state, state_before);
}

#[test]
fn test_model_hash_fn() {
    let h1 = model_hash("path/to/model.gguf", 1234567890);
    let h2 = model_hash("path/to/model.gguf", 1234567890);
    assert_eq!(h1, h2, "hash must be deterministic");

    let h3 = model_hash("path/to/other.gguf", 1234567890);
    assert_ne!(h1, h3, "different paths must produce different hashes");

    let h4 = model_hash("path/to/model.gguf", 9999999999);
    assert_ne!(h1, h4, "different sizes must produce different hashes");
}

#[test]
fn hash_of_nothing_is_the_hash_of_eight_zero_bytes() {
    let mut h: u64 = 0xcbf29ce484222325;
    for _ in 0..8 {
        h = h.wrapping_mul(0x100000001b3);
    }
    assert_eq!(model_hash("", 0), h);
}

#[test]
fn cut_snapshot_is_refused_wherever_it_is_cut() {
    let meta = make_meta();
    let mut session = Session::new(make_opts(&meta));
    write_dummy_cache(&mut session);
    let bytes = export_snapshot_with_meta(&session, &meta).unwrap();
    for n in 0..bytes.len() {
        assert!(import_snapshot(&bytes[..n], &meta).is_err(), "cut at {n}");
    }
    assert!(matches!(import_snapshot(&bytes[..11], &meta), Err(GlintError::SnapshotTruncated)));
    assert!(import_snapshot(&bytes, &meta).is_ok());
}

#[test]
fn other_version_is_refused() {
    let meta = make_meta();
    let mut bytes = export_snapshot_with_meta(&Session::new(make_opts(&meta)), &meta).unwrap();
    bytes[8] = 77;
    assert!(matches!(
        import_snapshot(&bytes, &meta),
        Err(GlintError::SnapshotVersionUnsupported { found: 77, current: 2 })
    ));
}

#[test]
fn format_can_be_read_before_the_rest() {
    let mut meta = make_meta();
    meta.cache_format = CacheFormat::Q8;
    let bytes = export_snapshot_with_meta(&Session::new(make_opts(&meta)), &meta).unwrap();
    assert_eq!(peek_snapshot_cache_format(&bytes).unwrap(), CacheFormat::Q8);
    assert!(matches!(
        import_snapshot(&bytes, &make_meta()),
        Err(GlintError::SnapshotMetaMismatch { field: "cache_format", .. })
    ));
}

#[test]
fn a_new_session_survives_a_snapshot() {
    let meta = make_meta();
    let session = Session::new(make_opts(&meta));
    assert_eq!((session.cache.k_layers.len(), session.cache.v_layers.len()), (2, 2));
    let bytes = export_snapshot_with_meta(&session, &meta).unwrap();
    let snap = import_snapshot(&bytes, &meta).unwrap();
    assert!(snap.tokens.is_empty());
    let restored = restore_session(snap, make_opts(&meta)).unwrap();
    assert_eq!(restored.cache.k_layers, session.cache.k_layers);
    assert_eq!(restored.cache.len, 0);
}

#[test]
fn accepted_bytes_start_with_their_own_encoding() {
    let meta = make_meta();
    let mut session = Session::new(make_opts(&meta));
    write_dummy_cache(&mut session);
    let mut bytes = export_snapshot_with_meta(&session, &meta).unwrap();
    let exported = bytes.clone();
    bytes.extend_from_slice(b"something else");
    let snap = import_snapshot(&bytes, &meta).unwrap();
    let restored = restore_session(snap, make_opts(&meta)).unwrap();
    assert_eq!(export_snapshot_with_meta(&restored, &meta).unwrap(), exported);
    assert!(bytes.starts_with(&exported));
}
