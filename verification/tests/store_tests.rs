use onetime_store::ids::{current_timestamp, file_id_accepted, generate_short_id, secret_id_accepted};
use onetime_store::limits::{
    expiration_in_range, file_size_ok, MAX_EXPIRATION_SECONDS, MIN_EXPIRATION_SECONDS,
};
use onetime_store::models::{FileMetadata, StoreError};
use onetime_store::store::OneTimeStore;

fn bytes(s: &str) -> Vec<u8> {
    s.as_bytes().to_vec()
}

#[test]
fn take_succeeds_at_most_once() {
    let mut store = OneTimeStore::new();
    let id = store.store_secret(bytes("once"), 3600, None);
    assert!(store.get_secret(&id).is_some());
    assert!(store.get_secret(&id).is_none());
    assert!(store.get_secret(&id).is_none());
}

#[test]
fn peek_is_non_destructive() {
    let mut store = OneTimeStore::new();
    let id = store.store_secret(bytes("still here"), 3600, None);
    for _ in 0..5 {
        let (rec, ttl) = store.peek_secret(&id).unwrap();
        assert_eq!(rec.encrypted_secret, bytes("still here"));
        assert_eq!(ttl, 3600);
    }
    let taken = store.get_secret(&id).unwrap();
    assert_eq!(taken.encrypted_secret, bytes("still here"));
    assert!(store.peek_secret(&id).is_none());
}

#[test]
fn store_then_take_round_trips() {
    let mut store = OneTimeStore::new();
    let meta = bytes(r#"{"label":"x"}"#);
    let id = store.store_secret(bytes("cGxhaW50ZXh0"), 3600, Some(meta.clone()));
    let rec = store.get_secret(&id).unwrap();
    assert_eq!(rec.encrypted_secret, bytes("cGxhaW50ZXh0"));
    assert_eq!(rec.metadata, Some(meta));
}

#[test]
fn store_without_metadata_takes_back_none() {
    let mut store = OneTimeStore::new();
    let id = store.store_secret(bytes("plain"), 60, None);
    let rec = store.get_secret(&id).unwrap();
    assert_eq!(rec.metadata, None);
}

#[test]
fn legacy_raw_value_is_retrievable() {
    let mut store = OneTimeStore::new();
    let id = bytes("sps-legacytoken");
    store.set_raw(id.clone(), bytes("bare ciphertext"), 600);
    let (peeked, ttl) = store.peek_secret(&id).unwrap();
    assert_eq!(peeked.encrypted_secret, bytes("bare ciphertext"));
    assert_eq!(peeked.created_at, 0);
    assert_eq!(peeked.metadata, None);
    assert_eq!(ttl, 600);
    let taken = store.get_secret(&id).unwrap();
    assert_eq!(taken.encrypted_secret, bytes("bare ciphertext"));
    assert_eq!(taken.created_at, 0);
    assert_eq!(taken.metadata, None);
    assert!(store.get_secret(&id).is_none());
}

#[test]
fn expired_record_is_as_if_never_created() {
    let mut store = OneTimeStore::new();
    let id = store.store_secret(bytes("fleeting"), 60, None);
    store.advance(59);
    assert!(store.peek_secret(&id).is_some());
    store.advance(1);
    assert!(store.peek_secret(&id).is_none());
    assert!(store.get_secret(&id).is_none());
    let never = bytes("sps-neverissued");
    assert!(store.peek_secret(&never).is_none());
    assert!(store.get_secret(&never).is_none());
}

#[test]
fn ttl_counts_down_with_the_clock() {
    let mut store = OneTimeStore::new();
    let id = store.store_secret(bytes("timed"), 3600, None);
    store.advance(3302);
    let (_, ttl) = store.peek_secret(&id).unwrap();
    assert_eq!(ttl, 298);
}

#[test]
fn kind_isolation_rejects_cross_kind_identifiers() {
    let mut store = OneTimeStore::new();
    let sid = store.store_secret(bytes("a secret"), 3600, None);
    let fid = store.store_file(
        FileMetadata {
            original_filename: bytes("f.bin"),
            content_type: bytes("application/octet-stream"),
            iv: bytes("iv"),
        },
        bytes("ZGF0YQ=="),
        3600,
    );
    assert!(sid.starts_with(b"sps-"));
    assert!(fid.starts_with(b"spf-"));
    assert!(matches!(store.get_file(&sid), Ok(None)));
    assert!(store.get_secret(&fid).is_none());
    assert!(store.peek_secret(&fid).is_none());
    // The rejected calls consumed nothing.
    assert!(store.get_secret(&sid).is_some());
    assert_eq!(store.get_file(&fid).unwrap().unwrap().encrypted_data, bytes("ZGF0YQ=="));
}

#[test]
fn example_full_exchange() {
    let mut store = OneTimeStore::new();
    let id = store.store_secret(bytes("cGxhaW50ZXh0"), 3600, Some(bytes(r#"{"label":"x"}"#)));
    assert!(id.starts_with(b"sps-"));
    let (peeked, ttl) = store.peek_secret(&id).unwrap();
    assert_eq!(peeked.created_at, store.now());
    assert_eq!(ttl, 3600);
    assert_eq!(peeked.metadata, Some(bytes(r#"{"label":"x"}"#)));
    let taken = store.get_secret(&id).unwrap();
    assert_eq!(taken.encrypted_secret, bytes("cGxhaW50ZXh0"));
    assert!(store.get_secret(&id).is_none());
}

#[test]
fn file_round_trip_through_store() {
    let mut store = OneTimeStore::new();
    let id = store.store_file(
        FileMetadata {
            original_filename: bytes("test.pdf"),
            content_type: bytes("application/pdf"),
            iv: bytes("abc123"),
        },
        bytes("ZmlsZWJvZHk="),
        7200,
    );
    let file = store.get_file(&id).unwrap().unwrap();
    assert_eq!(file.metadata.original_filename, bytes("test.pdf"));
    assert_eq!(file.metadata.content_type, bytes("application/pdf"));
    assert_eq!(file.metadata.iv, bytes("abc123"));
    assert_eq!(file.encrypted_data, bytes("ZmlsZWJvZHk="));
    assert!(matches!(store.get_file(&id), Ok(None)));
}

#[test]
fn malformed_file_value_is_an_error_and_burns() {
    let mut store = OneTimeStore::new();
    let id = bytes("spf-corrupted");
    store.set_raw(id.clone(), bytes("not a file envelope"), 600);
    assert!(matches!(store.get_file(&id), Err(StoreError::InvalidInput)));
    // The atomic fetch-and-delete consumed it all the same.
    assert!(matches!(store.get_file(&id), Ok(None)));
}

#[test]
fn overwrite_replaces_value_and_expiry() {
    let mut store = OneTimeStore::new();
    let id = bytes("sps-reused");
    store.set_raw(id.clone(), bytes("first"), 100);
    store.set_raw(id.clone(), bytes("second"), 900);
    let (rec, ttl) = store.peek_secret(&id).unwrap();
    assert_eq!(rec.encrypted_secret, bytes("second"));
    assert_eq!(ttl, 900);
    assert_eq!(store.get_secret(&id).unwrap().encrypted_secret, bytes("second"));
    assert!(store.get_secret(&id).is_none());
}

#[test]
fn generated_identifiers_are_base58_tokens() {
    let tok = generate_short_id();
    assert!(!tok.is_empty());
    assert!(tok.len() >= 16 && tok.len() <= 22);
    let alphabet = b"123456789ABCDEFGHJKLMNPQRSTUVWXYZabcdefghijkmnopqrstuvwxyz";
    for b in &tok {
        assert!(alphabet.contains(b));
    }
    let tok2 = generate_short_id();
    assert_ne!(tok, tok2);
}

#[test]
fn identifier_gates_check_the_prefix() {
    assert!(secret_id_accepted(&bytes("sps-abc")));
    assert!(!secret_id_accepted(&bytes("spf-abc")));
    assert!(!secret_id_accepted(&bytes("sp-abc")));
    assert!(!secret_id_accepted(&bytes("sp")));
    assert!(file_id_accepted(&bytes("spf-abc")));
    assert!(!file_id_accepted(&bytes("sps-abc")));
    assert!(!file_id_accepted(&bytes("")));
}

#[test]
fn clock_reads_the_present() {
    // A sanity bound: well after 2020, well before the year 20000.
    let t = current_timestamp();
    assert!(t > 1_600_000_000);
    assert!(t < 570_000_000_000);
}

#[test]
fn test_create_secret_invalid_expiration_low() {
    assert!(!expiration_in_range(10, MIN_EXPIRATION_SECONDS, MAX_EXPIRATION_SECONDS));
}

#[test]
fn test_create_secret_invalid_expiration_high() {
    assert!(!expiration_in_range(10000000, MIN_EXPIRATION_SECONDS, MAX_EXPIRATION_SECONDS));
}

#[test]
fn test_create_file_too_large() {
    let max = 2 * 1024 * 1024;
    assert!(!file_size_ok(3_000_000, max));
    assert!(file_size_ok(2_700_000, max));
}

#[test]
fn expiration_bounds_are_inclusive() {
    assert!(expiration_in_range(60, MIN_EXPIRATION_SECONDS, MAX_EXPIRATION_SECONDS));
    assert!(expiration_in_range(2592000, MIN_EXPIRATION_SECONDS, MAX_EXPIRATION_SECONDS));
    assert!(!expiration_in_range(59, MIN_EXPIRATION_SECONDS, MAX_EXPIRATION_SECONDS));
    assert!(!expiration_in_range(2592001, MIN_EXPIRATION_SECONDS, MAX_EXPIRATION_SECONDS));
}
