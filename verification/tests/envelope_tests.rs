use onetime_store::envelope::{decode_file, decode_secret, encode_file, encode_secret, read_secret};
use onetime_store::models::{FileMetadata, StoredFile, StoredSecret};

fn bytes(s: &str) -> Vec<u8> {
    s.as_bytes().to_vec()
}

#[test]
fn test_stored_secret_serialization() {
    let stored = StoredSecret {
        encrypted_secret: bytes("secret123"),
        created_at: 1706900000,
        metadata: Some(bytes(r#"{"label":"test"}"#)),
    };
    let json = String::from_utf8(encode_secret(&stored)).unwrap();
    assert!(json.contains(r#""encryptedSecret":"secret123""#));
    assert!(json.contains(r#""createdAt":1706900000"#));
    assert!(json.contains(r#""metadata":{"label":"test"}"#));
}

#[test]
fn test_stored_file_with_created_at() {
    let stored = StoredFile {
        metadata: FileMetadata {
            original_filename: bytes("doc.txt"),
            content_type: bytes("text/plain"),
            iv: bytes("iv456"),
        },
        encrypted_data: bytes("encrypted123"),
        created_at: 1706900000,
    };
    let json = String::from_utf8(encode_file(&stored)).unwrap();
    assert!(json.contains(r#""createdAt":1706900000"#));
}

#[test]
fn test_stored_file_deserialize_without_created_at_defaults_to_zero() {
    // Legacy files without createdAt should deserialize with created_at = 0
    let json = bytes(
        r#"{"metadata":{"originalFilename":"old.txt","contentType":"text/plain","iv":"iv"},"encryptedData":"data"}"#,
    );
    let stored = decode_file(&json).unwrap();
    assert_eq!(stored.created_at, 0);
}

#[test]
fn secret_envelope_exact_text() {
    let stored = StoredSecret {
        encrypted_secret: bytes("abc"),
        created_at: 3600,
        metadata: None,
    };
    let json = String::from_utf8(encode_secret(&stored)).unwrap();
    assert_eq!(json, r#"{"encryptedSecret":"abc","createdAt":3600,"metadata":null}"#);
}

#[test]
fn file_envelope_exact_text() {
    let stored = StoredFile {
        metadata: FileMetadata {
            original_filename: bytes("test.txt"),
            content_type: bytes("text/plain"),
            iv: bytes("iv123"),
        },
        encrypted_data: bytes("data123"),
        created_at: 7,
    };
    let json = String::from_utf8(encode_file(&stored)).unwrap();
    assert_eq!(
        json,
        r#"{"metadata":{"originalFilename":"test.txt","contentType":"text/plain","iv":"iv123"},"encryptedData":"data123","createdAt":7}"#
    );
}

#[test]
fn secret_envelope_agrees_with_a_json_parser() {
    let stored = StoredSecret {
        encrypted_secret: bytes("payload \"quoted\" and \\slashed\\\nlines"),
        created_at: 1706900000,
        metadata: Some(bytes(r#"{"label":"x"}"#)),
    };
    let json = String::from_utf8(encode_secret(&stored)).unwrap();
    let v: serde_json::Value = serde_json::from_str(&json).unwrap();
    assert_eq!(
        v["encryptedSecret"].as_str().unwrap(),
        "payload \"quoted\" and \\slashed\\\nlines"
    );
    assert_eq!(v["createdAt"].as_u64().unwrap(), 1706900000);
    assert_eq!(v["metadata"]["label"].as_str().unwrap(), "x");
}

#[test]
fn secret_round_trip_with_escapes() {
    let stored = StoredSecret {
        encrypted_secret: bytes("a\"b\\c\nd\te\rf\u{8}g\u{c}h\u{1b}i"),
        created_at: u64::MAX,
        metadata: None,
    };
    let enc = encode_secret(&stored);
    let back = decode_secret(&enc).unwrap();
    assert_eq!(back.encrypted_secret, stored.encrypted_secret);
    assert_eq!(back.created_at, u64::MAX);
    assert_eq!(back.metadata, None);
}

#[test]
fn secret_round_trip_empty_payload() {
    let stored = StoredSecret {
        encrypted_secret: Vec::new(),
        created_at: 0,
        metadata: None,
    };
    let enc = encode_secret(&stored);
    assert_eq!(
        String::from_utf8(enc.clone()).unwrap(),
        r#"{"encryptedSecret":"","createdAt":0,"metadata":null}"#
    );
    let back = decode_secret(&enc).unwrap();
    assert_eq!(back.encrypted_secret, Vec::<u8>::new());
}

#[test]
fn secret_round_trip_keeps_metadata_verbatim() {
    let meta = bytes(r#"{"nested":{"deep":[1,2,3]},"s":"}tricky{"}"#);
    let stored = StoredSecret {
        encrypted_secret: bytes("cGxhaW50ZXh0"),
        created_at: 42,
        metadata: Some(meta.clone()),
    };
    let back = decode_secret(&encode_secret(&stored)).unwrap();
    assert_eq!(back.metadata, Some(meta));
}

#[test]
fn metadata_spelled_null_reads_as_absent() {
    let stored = StoredSecret {
        encrypted_secret: bytes("x"),
        created_at: 1,
        metadata: Some(bytes("null")),
    };
    let back = decode_secret(&encode_secret(&stored)).unwrap();
    assert_eq!(back.metadata, None);
}

#[test]
fn bare_value_reads_as_legacy_record() {
    let rec = read_secret(bytes("just a plain old value"));
    assert_eq!(rec.encrypted_secret, bytes("just a plain old value"));
    assert_eq!(rec.created_at, 0);
    assert_eq!(rec.metadata, None);
}

#[test]
fn enveloped_value_is_not_legacy() {
    let stored = StoredSecret {
        encrypted_secret: bytes("inner"),
        created_at: 9,
        metadata: None,
    };
    let rec = read_secret(encode_secret(&stored));
    assert_eq!(rec.encrypted_secret, bytes("inner"));
    assert_eq!(rec.created_at, 9);
}

#[test]
fn file_round_trip() {
    let stored = StoredFile {
        metadata: FileMetadata {
            original_filename: bytes("report \"final\".pdf"),
            content_type: bytes("application/pdf"),
            iv: bytes("abc123"),
        },
        encrypted_data: bytes("AAECAwQ="),
        created_at: 1706900000,
    };
    let back = decode_file(&encode_file(&stored)).unwrap();
    assert_eq!(back.metadata.original_filename, stored.metadata.original_filename);
    assert_eq!(back.metadata.content_type, stored.metadata.content_type);
    assert_eq!(back.metadata.iv, stored.metadata.iv);
    assert_eq!(back.encrypted_data, stored.encrypted_data);
    assert_eq!(back.created_at, stored.created_at);
}

#[test]
fn garbage_is_no_file_envelope() {
    assert!(decode_file(&bytes("not an envelope")).is_none());
    assert!(decode_file(&bytes(r#"{"encryptedSecret":"abc","createdAt":1,"metadata":null}"#)).is_none());
    assert!(decode_secret(&bytes(r#"{"metadata":{"originalFilename":"a","contentType":"b","iv":"c"},"encryptedData":"d"}"#)).is_none());
}

#[test]
fn envelope_without_metadata_field_reads_as_none() {
    let json = bytes(r#"{"encryptedSecret":"abc","createdAt":5}"#);
    let rec = decode_secret(&json).unwrap();
    assert_eq!(rec.encrypted_secret, bytes("abc"));
    assert_eq!(rec.created_at, 5);
    assert_eq!(rec.metadata, None);
}

#[test]
fn loosely_formatted_json_reads_as_legacy() {
    // The envelope grammar is exactly what the encoder emits: anything
    // else, spaces included, is treated as a legacy bare value.
    let json = bytes(r#"{ "encryptedSecret": "abc", "createdAt": 5 }"#);
    assert!(decode_secret(&json).is_none());
    let rec = read_secret(json.clone());
    assert_eq!(rec.encrypted_secret, json);
    assert_eq!(rec.created_at, 0);
}

#[test]
fn truncated_envelope_is_rejected() {
    let stored = StoredSecret {
        encrypted_secret: bytes("abc"),
        created_at: 3600,
        metadata: None,
    };
    let mut enc = encode_secret(&stored);
    enc.pop();
    assert!(decode_secret(&enc).is_none());
}
