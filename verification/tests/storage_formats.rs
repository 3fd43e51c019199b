use filepaste::storage::encryption::{
    open_stream, plaintext_listing, plaintext_metadata, plaintext_size, seal_stream, OpenError,
    SegmentOpener, SegmentSealer, CHUNK_SIZE, NONCE_SIZE, TAG_SIZE,
};
use filepaste::storage::retention::{
    payload_listing, payload_metadata, payload_written, HeaderError, RetentionContext,
    RetentionError, RetentionHeader, RetentionStorage, CURRENT_VERSION, HEADER_V1_SIZE,
    NANOS_PER_HOUR,
};
use filepaste::storage::{DirMetadata, FileMetadata, Resource};
use std::time::{Duration, SystemTime};

const KEY: [u8; 32] = [7u8; 32];
const NONCE: [u8; 7] = [1, 2, 3, 4, 5, 6, 7];

fn sealed_len(n: usize) -> usize {
    NONCE_SIZE + n + TAG_SIZE * (n / CHUNK_SIZE + 1)
}

fn sample(n: usize) -> Vec<u8> {
    (0..n).map(|i| (i * 31 % 251) as u8).collect()
}

#[test]
fn plaintext_size_of_short_objects_is_zero() {
    assert_eq!(plaintext_size(0), 0);
    assert_eq!(plaintext_size(22), 0);
    assert_eq!(plaintext_size(23), 0);
}

#[test]
fn plaintext_size_exact_values() {
    assert_eq!(plaintext_size(28), 5);
    assert_eq!(plaintext_size(65575), 65536);
    assert_eq!(plaintext_size(65552 + 7 + 16), 65536);
    assert_eq!(plaintext_size(65552 + 7 + 10), 65536);
    assert_eq!(plaintext_size(2 * 65552 + 7 + 16 + 3), 2 * 65536 + 3);
}

#[test]
fn plaintext_size_undoes_sealed_size() {
    for n in [0usize, 1, 14, 65535, 65536, 65537, 131072, 200000] {
        assert_eq!(plaintext_size(sealed_len(n) as u64), n as u64);
    }
}

#[test]
fn seal_then_open_round_trips() {
    for n in [0usize, 14, 65535, 65536, 65537, 131072 + 9] {
        let pt = sample(n);
        let sealed = seal_stream(KEY, NONCE, &pt).unwrap();
        assert_eq!(sealed.len(), sealed_len(n));
        assert_eq!(&sealed[..NONCE_SIZE], &NONCE[..]);
        assert_eq!(plaintext_size(sealed.len() as u64), n as u64);
        assert_eq!(open_stream(KEY, &sealed).unwrap(), pt);
    }
}

#[test]
fn sealing_hides_the_plaintext() {
    let pt = b"universal data".to_vec();
    let sealed = seal_stream(KEY, NONCE, &pt).unwrap();
    assert_ne!(&sealed[NONCE_SIZE..NONCE_SIZE + pt.len()], &pt[..]);
}

#[test]
fn open_with_wrong_key_fails_on_final_segment() {
    let sealed = seal_stream(KEY, NONCE, b"universal data").unwrap();
    assert!(matches!(open_stream([8u8; 32], &sealed), Err(OpenError::FinalSegment)));
}

#[test]
fn tampered_inner_segment_fails() {
    let mut sealed = seal_stream(KEY, NONCE, &sample(70000)).unwrap();
    sealed[100] ^= 1;
    assert!(matches!(open_stream(KEY, &sealed), Err(OpenError::Segment)));
}

#[test]
fn short_object_is_truncated() {
    assert!(matches!(open_stream(KEY, &[1, 2, 3]), Err(OpenError::Truncated)));
}

#[test]
fn nonce_only_object_opens_empty() {
    assert_eq!(open_stream(KEY, &NONCE).unwrap(), Vec::<u8>::new());
}

#[test]
fn sealer_marks_short_chunk_as_last() {
    let mut sealer = SegmentSealer::new(KEY, NONCE);
    let c = sealer.seal_chunk(&[]).unwrap();
    assert_eq!(c.len(), TAG_SIZE);
    let mut opener = SegmentOpener::new(KEY, NONCE);
    assert_eq!(opener.open_block(&c).unwrap(), Vec::<u8>::new());
}

#[test]
fn sealer_chunks_match_stream() {
    let pt = sample(65536 + 100);
    let mut sealer = SegmentSealer::new(KEY, NONCE);
    let mut out = sealer.nonce_bytes();
    out.extend(sealer.seal_chunk(&pt[..65536]).unwrap());
    out.extend(sealer.seal_chunk(&pt[65536..]).unwrap());
    assert_eq!(out, seal_stream(KEY, NONCE, &pt).unwrap());
}

#[test]
fn random_sealer_round_trips() {
    let sealer_pt = b"cannot touch this".to_vec();
    let mut sealer = SegmentSealer::start(KEY);
    let mut out = sealer.nonce_bytes();
    assert_eq!(out.len(), NONCE_SIZE);
    out.extend(sealer.seal_chunk(&sealer_pt).unwrap());
    assert_eq!(open_stream(KEY, &out).unwrap(), sealer_pt);
    let mut opener = SegmentOpener::from_header(KEY, &out).unwrap();
    assert_eq!(opener.open_block(&out[NONCE_SIZE..]).unwrap(), sealer_pt);
    assert!(SegmentOpener::from_header(KEY, &out[..3]).is_none());
}

fn meta(size: u64) -> FileMetadata {
    FileMetadata { size, modified: SystemTime::UNIX_EPOCH }
}

#[test]
fn encrypted_metadata_and_listing_report_plaintext_sizes() {
    assert_eq!(plaintext_metadata(Some(meta(28))).unwrap().size, 5);
    assert!(plaintext_metadata(None).is_none());
    let listing = vec![
        Resource::File { path: "a/f".to_string(), metadata: meta(65575) },
        Resource::Directory {
            path: "a/d".to_string(),
            metadata: DirMetadata { modified: SystemTime::UNIX_EPOCH },
        },
    ];
    let out = plaintext_listing(listing);
    assert_eq!(out.len(), 2);
    match &out[0] {
        Resource::File { path, metadata } => {
            assert_eq!(path, "a/f");
            assert_eq!(metadata.size, 65536);
        }
        _ => panic!("file expected"),
    }
    assert_eq!(out[1].path(), "a/d");
}

#[test]
fn resource_path_of_each_kind() {
    let f = Resource::File { path: "x/y".to_string(), metadata: meta(1) };
    let d = Resource::Directory {
        path: "x".to_string(),
        metadata: DirMetadata { modified: SystemTime::UNIX_EPOCH },
    };
    assert_eq!(f.path(), "x/y");
    assert_eq!(d.path(), "x");
}

#[test]
fn header_encoding_is_exact() {
    let h = RetentionHeader::new(0x0102030405060708);
    assert_eq!(h.version, CURRENT_VERSION);
    assert_eq!(h.header_size, HEADER_V1_SIZE);
    assert_eq!(
        h.encode(),
        vec![b'R', b'E', b'T', b'E', 0, 1, 0, 16, 1, 2, 3, 4, 5, 6, 7, 8]
    );
}

#[test]
fn header_encoding_keeps_low_64_bits() {
    let h = RetentionHeader::new((1u128 << 64) + 5);
    let bytes = h.encode();
    assert_eq!(&bytes[8..], &[0, 0, 0, 0, 0, 0, 0, 5]);
    let (back, used) = RetentionHeader::decode_bytes(&bytes).unwrap();
    assert_eq!(back.retain_until, 5);
    assert_eq!(used, 16);
}

#[test]
fn header_round_trips() {
    let h = RetentionHeader::new(1_700_000_000_000_000_000);
    let mut bytes = h.encode();
    bytes.extend_from_slice(b"payload");
    let (back, used) = RetentionHeader::decode_bytes(&bytes).unwrap();
    assert_eq!(back.version, 1);
    assert_eq!(back.header_size, 16);
    assert_eq!(back.retain_until, 1_700_000_000_000_000_000);
    assert_eq!(used, 16);
    assert_eq!(&bytes[used..], b"payload");
}

#[test]
fn header_errors() {
    assert!(matches!(RetentionHeader::decode_bytes(b"RETE"), Err(HeaderError::Truncated)));
    assert!(matches!(RetentionHeader::decode_bytes(b"NOPE\0\x01\0\x10"), Err(HeaderError::BadMagic)));
    assert!(matches!(RetentionHeader::decode_bytes(b"RETE\0\x01\0\x10\0"), Err(HeaderError::Truncated)));
    assert!(RetentionHeader::has_magic(b"RETE...."));
    assert!(!RetentionHeader::has_magic(b"RETX...."));
}

#[test]
fn larger_declared_header_is_skipped() {
    let mut bytes = vec![b'R', b'E', b'T', b'E', 0, 2, 0, 20, 0, 0, 0, 0, 0, 0, 0, 9];
    bytes.extend_from_slice(&[0xAA, 0xBB, 0xCC, 0xDD, b'x', b'y']);
    let (h, used) = RetentionHeader::decode_bytes(&bytes).unwrap();
    assert_eq!(h.version, 2);
    assert_eq!(h.header_size, 20);
    assert_eq!(used, 20);
    assert_eq!(h.extra_len(100), 4);
    assert_eq!(h.extra_len(2), 2);
    let (_, used_short) = RetentionHeader::decode_bytes(&bytes[..18]).unwrap();
    assert_eq!(used_short, 18);
}

#[test]
fn put_is_refused_while_locked() {
    let existing = RetentionHeader::new(100);
    let r = RetentionStorage::<()>::put_header_at(None, Some(existing), 99, 5);
    assert!(matches!(r, Err(RetentionError::OverwriteLocked)));
    assert_eq!(
        RetentionError::OverwriteLocked.message(),
        "File is locked via SystemTime retention"
    );
}

#[test]
fn put_after_expiry_uses_default_or_context() {
    let existing = RetentionHeader::new(100);
    let r = RetentionStorage::<()>::put_header_at(None, Some(existing), 100, 5).unwrap();
    assert_eq!(r, RetentionHeader::new(105).encode());
    let r = RetentionStorage::<()>::put_header_at(Some(7), None, 100, 5).unwrap();
    assert_eq!(r, RetentionHeader::new(7).encode());
}

#[test]
fn put_with_clock_succeeds_on_new_object() {
    let storage = RetentionStorage::new((), Duration::from_secs(3600));
    let r = storage.put_header(None, None).unwrap();
    assert_eq!(r.len(), 16);
    let (h, _) = RetentionHeader::decode_bytes(&r).unwrap();
    assert!(h.retain_until > 3_600_000_000_000);
    let r = storage.put_header(Some(42), None).unwrap();
    assert_eq!(r, RetentionHeader::new(42).encode());
}

#[test]
fn delete_is_refused_while_locked() {
    let locked = RetentionHeader::new(100);
    assert!(matches!(
        RetentionStorage::<()>::delete_allowed_at(Some(locked), 50),
        Err(RetentionError::DeleteLocked)
    ));
    assert!(RetentionStorage::<()>::delete_allowed_at(Some(locked), 100).is_ok());
    assert!(RetentionStorage::<()>::delete_allowed_at(None, 100).is_ok());
    assert_eq!(RetentionError::DeleteLocked.message(), "Retention active");
}

#[test]
fn delete_with_clock_refuses_far_future_lock() {
    let far = RetentionHeader::new(u64::MAX as u128);
    assert!(RetentionStorage::<()>::delete_allowed(Some(far)).is_err());
    assert!(RetentionStorage::<()>::delete_allowed(Some(RetentionHeader::new(0))).is_ok());
}

#[test]
fn payload_sizes_drop_the_header() {
    assert_eq!(payload_written(30), 14);
    assert_eq!(payload_written(16), 0);
    assert_eq!(payload_written(3), 0);
    assert_eq!(payload_metadata(Some(meta(30))).unwrap().size, 14);
    let out = payload_listing(vec![Resource::File { path: "f".to_string(), metadata: meta(17) }]);
    match &out[0] {
        Resource::File { metadata, .. } => assert_eq!(metadata.size, 1),
        _ => panic!("file expected"),
    }
}

#[test]
fn retention_context_locks_for_hours() {
    let ctx = RetentionContext::at(3u8, Some(2), 1000);
    assert_eq!(ctx.inner, 3);
    assert_eq!(ctx.retain_until, Some(1000 + 2 * NANOS_PER_HOUR));
    let ctx = RetentionContext::at((), None, 1000);
    assert_eq!(ctx.retain_until, None);
    let ctx = RetentionContext::new((), Some(1));
    assert!(ctx.retain_until.unwrap() > NANOS_PER_HOUR);
}

#[test]
fn retention_storage_keeps_inner() {
    let s = RetentionStorage::new(5u32, Duration::from_secs(1));
    assert_eq!(*s.inner(), 5);
}

#[test]
fn default_retention_locks_until_it_runs_out() {
    let now: i128 = 1_000;
    let five_hours = 5 * NANOS_PER_HOUR;
    let written = RetentionStorage::<()>::put_header_at(None, None, now, five_hours).unwrap();
    let mut stored = written.clone();
    stored.extend_from_slice(b"cannot touch this");
    let (h, used) = RetentionHeader::decode_bytes(&stored).unwrap();
    assert_eq!(&stored[used..], b"cannot touch this");
    assert_eq!(payload_written(stored.len() as u64), 17);
    let later = now + NANOS_PER_HOUR as i128;
    assert!(matches!(
        RetentionStorage::<()>::delete_allowed_at(Some(h), later),
        Err(RetentionError::DeleteLocked)
    ));
    assert!(matches!(
        RetentionStorage::<()>::put_header_at(None, Some(h), later, five_hours),
        Err(RetentionError::OverwriteLocked)
    ));
    assert!(RetentionStorage::<()>::delete_allowed_at(Some(h), now + five_hours as i128).is_ok());
}

#[test]
fn stacked_layers_report_content_size() {
    let content = b"universal data";
    let sealed = seal_stream(KEY, NONCE, content).unwrap();
    let mut stored = RetentionHeader::new(1).encode();
    stored.extend_from_slice(&sealed);
    let inner = payload_written(stored.len() as u64);
    assert_eq!(inner, sealed.len() as u64);
    assert_eq!(plaintext_size(inner), 14);
    let (_, used) = RetentionHeader::decode_bytes(&stored).unwrap();
    assert_eq!(open_stream(KEY, &stored[used..]).unwrap(), content.to_vec());
}

#[test]
fn clock_before_the_epoch() {
    // Every header instant lies at or after the epoch, so before it every
    // stored object is still locked.
    let at_epoch = RetentionHeader::new(0);
    assert!(matches!(
        RetentionStorage::<()>::delete_allowed_at(Some(at_epoch), -1),
        Err(RetentionError::DeleteLocked)
    ));
    assert!(matches!(
        RetentionStorage::<()>::put_header_at(None, Some(at_epoch), -1, 5),
        Err(RetentionError::OverwriteLocked)
    ));
    assert!(RetentionStorage::<()>::delete_allowed_at(Some(at_epoch), 0).is_ok());
    // An instant still before the epoch is recorded as the epoch.
    let r = RetentionStorage::<()>::put_header_at(None, None, -10, 5).unwrap();
    assert_eq!(r, RetentionHeader::new(0).encode());
    let r = RetentionStorage::<()>::put_header_at(None, None, -10, 15).unwrap();
    assert_eq!(r, RetentionHeader::new(5).encode());
    let hour = NANOS_PER_HOUR as i128;
    let ctx = RetentionContext::at((), Some(1), -2 * hour);
    assert_eq!(ctx.retain_until, Some(0));
    let ctx = RetentionContext::at((), Some(3), -2 * hour);
    assert_eq!(ctx.retain_until, Some(NANOS_PER_HOUR));
}

#[test]
fn put_with_clock_uses_storage_default() {
    let storage = RetentionStorage::new((), Duration::from_secs(7200));
    let before = SystemTime::now()
        .duration_since(SystemTime::UNIX_EPOCH)
        .unwrap()
        .as_nanos();
    let r = storage.put_header(None, None).unwrap();
    let (h, _) = RetentionHeader::decode_bytes(&r).unwrap();
    assert!(h.retain_until >= before + 2 * NANOS_PER_HOUR);
    assert!(h.retain_until < before + 3 * NANOS_PER_HOUR);
}
