//! The record envelope: the JSON shape stored under an identifier.
//!
//! A secret is stored as
//! `{"encryptedSecret":"…","createdAt":N,"metadata":M}` where the payload
//! is a JSON-escaped string, `N` is the creation time in seconds and `M`
//! is the caller's metadata verbatim (`null` when none was supplied).
//! A file is stored as
//! `{"metadata":{"originalFilename":"…","contentType":"…","iv":"…"},"encryptedData":"…","createdAt":N}`,
//! with `createdAt` optional on read (older records lack it and read as 0).
//!
//! Decoding accepts exactly what encoding emits (for files, with or
//! without the trailing `createdAt`).  A value that does not parse is a
//! legacy record: a bare payload string predating the envelope, which
//! reads back as a record with creation time 0 and no metadata.

use vstd::prelude::*;
use crate::json::{
    esc, unesc, spec_dec, parse_u64, lemma_unesc_esc, lemma_parse_spec_dec,
    escape_into, unescape_at, push_dec, parse_u64_at,
};
use crate::models::{StoredSecret, SecretView, StoredFile, FileView, FileMetadata, FileMetadataView};

verus! {

/// The opening of a secret envelope: `{"encryptedSecret":"`.
pub open spec fn lit_secret_head() -> Seq<u8> {
    seq![123u8, 34, 101, 110, 99, 114, 121, 112, 116, 101, 100, 83, 101, 99, 114, 101, 116, 34, 58, 34]
}

/// The middle of an envelope, after a closed string: `,"createdAt":`.
pub open spec fn lit_created() -> Seq<u8> {
    seq![44u8, 34, 99, 114, 101, 97, 116, 101, 100, 65, 116, 34, 58]
}

/// The metadata field marker: `,"metadata":`.
pub open spec fn lit_meta() -> Seq<u8> {
    seq![44u8, 34, 109, 101, 116, 97, 100, 97, 116, 97, 34, 58]
}

/// The JSON `null` value.
pub open spec fn lit_null() -> Seq<u8> {
    seq![110u8, 117, 108, 108]
}

/// The bytes written for the metadata field: the caller's JSON verbatim,
/// or `null` where none was supplied.
pub open spec fn meta_bytes(m: Option<Seq<u8>>) -> Seq<u8> {
    match m {
        Some(b) => b,
        None => lit_null(),
    }
}

/// The serialized form of a secret record.
pub open spec fn spec_enc_secret(s: SecretView) -> Seq<u8> {
    lit_secret_head() + esc(s.encrypted_secret) + seq![34u8] + lit_created()
        + spec_dec(s.created_at) + lit_meta() + meta_bytes(s.metadata) + seq![125u8]
}

/// Reads a secret envelope: `None` where the bytes are not one.
/// A `null` or absent metadata field reads as no metadata.
pub open spec fn spec_dec_secret(s: Seq<u8>) -> Option<SecretView> {
    if s.len() < 20 || s.take(20) != lit_secret_head() {
        None
    } else {
        match unesc(s.skip(20)) {
            None => None,
            Some(pn) => {
                let p = pn.0;
                let i = 20 + pn.1;
                if s.len() < i + 13 || s.subrange(i, i + 13) != lit_created() {
                    None
                } else {
                    match parse_u64(s.skip(i + 13)) {
                        None => None,
                        Some(nk) => {
                            let ca = nk.0;
                            let j = i + 13 + nk.1;
                            if j + 1 == s.len() && s[j] == 125 {
                                Some(SecretView { encrypted_secret: p, created_at: ca, metadata: None })
                            } else if s.len() >= j + 13 && s.subrange(j, j + 12) == lit_meta()
                                && s[s.len() - 1] == 125 {
                                let raw = s.subrange(j + 12, s.len() - 1);
                                if raw == lit_null() {
                                    Some(SecretView { encrypted_secret: p, created_at: ca, metadata: None })
                                } else {
                                    Some(SecretView { encrypted_secret: p, created_at: ca, metadata: Some(raw) })
                                }
                            } else {
                                None
                            }
                        }
                    }
                }
            }
        }
    }
}

/// What a stored value reads back as on a consuming or peeking read:
/// the envelope where the bytes carry one, else the legacy reading, a
/// bare payload with creation time 0 and no metadata.
pub open spec fn spec_read_secret(s: Seq<u8>) -> SecretView {
    match spec_dec_secret(s) {
        Some(rec) => rec,
        None => SecretView { encrypted_secret: s, created_at: 0, metadata: None },
    }
}

/// Decoding inverts encoding: an encoded secret record reads back
/// exactly, except that metadata spelled `null` reads as no metadata.
pub proof fn lemma_secret_round_trip(s: SecretView)
    requires
        s.metadata matches Some(m) ==> m != lit_null(),
    ensures
        spec_dec_secret(spec_enc_secret(s)) == Some(s),
{
    let a = lit_secret_head();
    let b = esc(s.encrypted_secret);
    let c = lit_created();
    let d = spec_dec(s.created_at);
    let e = lit_meta();
    let m = meta_bytes(s.metadata);
    let enc = spec_enc_secret(s);
    let tail1 = c + d + e + m + seq![125u8];
    assert(enc.take(20) =~= a);
    assert(enc.skip(20) =~= b + seq![34u8] + tail1);
    lemma_unesc_esc(s.encrypted_secret, tail1);
    let i = 20 + b.len() as int + 1;
    assert(unesc(enc.skip(20)) == Some((s.encrypted_secret, b.len() as int + 1)));
    assert(enc.subrange(i, i + 13) =~= c);
    assert(enc.skip(i + 13) =~= d + (e + m + seq![125u8]));
    lemma_parse_spec_dec(s.created_at, e + m + seq![125u8]);
    let j = i + 13 + d.len() as int;
    assert(enc.len() == j + 13 + m.len());
    assert(enc[j] == 44);
    assert(enc.subrange(j, j + 12) =~= e);
    assert(enc[enc.len() - 1] == 125);
    let raw = enc.subrange(j + 12, enc.len() - 1);
    assert(raw =~= m);
    match s.metadata {
        Some(mm) => {
            assert(raw != lit_null());
            assert(spec_dec_secret(enc) == Some(SecretView {
                encrypted_secret: s.encrypted_secret,
                created_at: s.created_at,
                metadata: Some(mm),
            }));
        }
        None => {
            assert(raw == lit_null());
        }
    }
}

/// A value that does not open a JSON object cannot carry a secret
/// envelope: it always reads as a legacy record.
pub proof fn lemma_bare_value_is_legacy(s: Seq<u8>)
    requires
        s.len() == 0 || s[0] != 123,
    ensures
        spec_dec_secret(s) is None,
        spec_read_secret(s) == (SecretView { encrypted_secret: s, created_at: 0, metadata: None }),
{
    if s.len() >= 20 {
        assert(s.take(20)[0] == s[0]);
        assert(lit_secret_head()[0] == 123);
    }
}

/// Whether `v` carries `pat` at position `at`.
pub fn match_at(v: &Vec<u8>, at: usize, pat: &Vec<u8>) -> (b: bool)
    ensures
        b == (at + pat@.len() <= v@.len()
            && v@.subrange(at as int, at + pat@.len()) == pat@),
{
    let n = v.len();
    if pat.len() > n || at > n - pat.len() {
        return false;
    }
    let mut k: usize = 0;
    while k < pat.len()
        invariant
            n == v@.len(),
            at + pat@.len() <= n,
            0 <= k <= pat@.len(),
            forall|l: int| 0 <= l < k ==> v@[at + l] == pat@[l],
        decreases pat@.len() - k,
    {
        if v[at + k] != pat[k] {
            assert(v@.subrange(at as int, at + pat@.len())[k as int] != pat@[k as int]);
            return false;
        }
        k = k + 1;
    }
    assert(v@.subrange(at as int, at + pat@.len()) =~= pat@);
    true
}

/// The bytes of `v` from `from` (inclusive) to `to` (exclusive).
pub fn copy_range(v: &Vec<u8>, from: usize, to: usize) -> (r: Vec<u8>)
    requires
        from <= to <= v@.len(),
    ensures
        r@ == v@.subrange(from as int, to as int),
{
    let mut r: Vec<u8> = Vec::new();
    let mut k: usize = from;
    while k < to
        invariant
            from <= k <= to <= v@.len(),
            r@ == v@.subrange(from as int, k as int),
        decreases to - k,
    {
        r.push(v[k]);
        assert(v@.subrange(from as int, k + 1) =~= v@.subrange(from as int, k as int).push(v@[k as int]));
        k = k + 1;
    }
    r
}

/// Appends all of `src` to `out`.
pub fn append_bytes(out: &mut Vec<u8>, src: &Vec<u8>)
    ensures
        final(out)@ == old(out)@ + src@,
{
    let ghost base = out@;
    let mut k: usize = 0;
    while k < src.len()
        invariant
            0 <= k <= src@.len(),
            out@ == base + src@.take(k as int),
        decreases src@.len() - k,
    {
        out.push(src[k]);
        assert(src@.take(k + 1) =~= src@.take(k as int).push(src@[k as int]));
        assert(out@ =~= base + src@.take(k + 1));
        k = k + 1;
    }
    assert(src@.take(src@.len() as int) =~= src@);
}

/// Serializes a secret record as its envelope.
pub fn encode_secret(rec: &StoredSecret) -> (r: Vec<u8>)
    ensures
        r@ == spec_enc_secret(rec@),
{
    let mut out: Vec<u8> = Vec::new();
    let head: Vec<u8> = vec![123, 34, 101, 110, 99, 114, 121, 112, 116, 101, 100, 83, 101, 99, 114, 101, 116, 34, 58, 34];
    let created: Vec<u8> = vec![44, 34, 99, 114, 101, 97, 116, 101, 100, 65, 116, 34, 58];
    let meta: Vec<u8> = vec![44, 34, 109, 101, 116, 97, 100, 97, 116, 97, 34, 58];
    let null_lit: Vec<u8> = vec![110, 117, 108, 108];
    append_bytes(&mut out, &head);
    escape_into(&rec.encrypted_secret, &mut out);
    out.push(34);
    append_bytes(&mut out, &created);
    push_dec(rec.created_at, &mut out);
    append_bytes(&mut out, &meta);
    match &rec.metadata {
        Some(m) => {
            append_bytes(&mut out, m);
        }
        None => {
            append_bytes(&mut out, &null_lit);
        }
    }
    out.push(125);
    assert(out@ =~= spec_enc_secret(rec@));
    out
}

/// Reads a secret envelope: `None` where the bytes are not one.
pub fn decode_secret(v: &Vec<u8>) -> (r: Option<StoredSecret>)
    ensures
        match r {
            Some(rec) => spec_dec_secret(v@) == Some(rec@),
            None => spec_dec_secret(v@) is None,
        },
{
    let head: Vec<u8> = vec![123, 34, 101, 110, 99, 114, 121, 112, 116, 101, 100, 83, 101, 99, 114, 101, 116, 34, 58, 34];
    if !match_at(v, 0, &head) {
        assert(v@.len() >= 20 ==> v@.subrange(0, 20) =~= v@.take(20));
        return None;
    }
    assert(v@.take(20) =~= v@.subrange(0, 20));
    match unescape_at(v, 20) {
        None => {
            return None;
        }
        Some((p, i)) => {
            let created: Vec<u8> = vec![44, 34, 99, 114, 101, 97, 116, 101, 100, 65, 116, 34, 58];
            if !match_at(v, i, &created) {
                return None;
            }
            let n = v.len();
            assert(i + 13 <= n);
            match parse_u64_at(v, i + 13) {
                None => {
                    return None;
                }
                Some((ca, j)) => {
                    if v.len() - j == 1 && v[j] == 125 {
                        return Some(StoredSecret {
                            encrypted_secret: p,
                            created_at: ca,
                            metadata: None,
                        });
                    }
                    let meta: Vec<u8> = vec![44, 34, 109, 101, 116, 97, 100, 97, 116, 97, 34, 58];
                    if v.len() - j >= 13 && match_at(v, j, &meta) && v[v.len() - 1] == 125 {
                        let raw = copy_range(v, j + 12, v.len() - 1);
                        let null_lit: Vec<u8> = vec![110, 117, 108, 108];
                        let is_null = raw.len() == 4 && match_at(&raw, 0, &null_lit);
                        proof {
                            if raw@.len() == 4 {
                                assert(raw@.subrange(0, 4) =~= raw@);
                            }
                            assert(is_null == (raw@ == lit_null()));
                        }
                        if is_null {
                            return Some(StoredSecret {
                                encrypted_secret: p,
                                created_at: ca,
                                metadata: None,
                            });
                        }
                        return Some(StoredSecret {
                            encrypted_secret: p,
                            created_at: ca,
                            metadata: Some(raw),
                        });
                    }
                    None
                }
            }
        }
    }
}

/// As [`read_secret`], reading from a borrowed value.
pub fn read_secret_ref(v: &Vec<u8>) -> (r: StoredSecret)
    ensures
        r@ == spec_read_secret(v@),
{
    match decode_secret(v) {
        Some(rec) => rec,
        None => {
            let copy = copy_range(v, 0, v.len());
            assert(v@.subrange(0, v@.len() as int) =~= v@);
            StoredSecret {
                encrypted_secret: copy,
                created_at: 0,
                metadata: None,
            }
        }
    }
}

/// Reads a stored value as a secret record, falling back to the legacy
/// reading (a bare payload, creation time 0, no metadata) where the
/// bytes carry no envelope.
pub fn read_secret(v: Vec<u8>) -> (r: StoredSecret)
    ensures
        r@ == spec_read_secret(v@),
{
    match decode_secret(&v) {
        Some(rec) => rec,
        None => StoredSecret {
            encrypted_secret: v,
            created_at: 0,
            metadata: None,
        },
    }
}

/// The opening of a file envelope: `{"metadata":{"originalFilename":"`.
pub open spec fn lit_file_head() -> Seq<u8> {
    seq![123u8, 34, 109, 101, 116, 97, 100, 97, 116, 97, 34, 58,
        123, 34, 111, 114, 105, 103, 105, 110, 97, 108, 70, 105, 108, 101, 110, 97, 109, 101, 34, 58, 34]
}

/// The content-type field marker: `,"contentType":"`.
pub open spec fn lit_content_type() -> Seq<u8> {
    seq![44u8, 34, 99, 111, 110, 116, 101, 110, 116, 84, 121, 112, 101, 34, 58, 34]
}

/// The initialization-vector field marker: `,"iv":"`.
pub open spec fn lit_iv() -> Seq<u8> {
    seq![44u8, 34, 105, 118, 34, 58, 34]
}

/// The close of the file metadata object and the data field marker:
/// `},"encryptedData":"`.
pub open spec fn lit_enc_data() -> Seq<u8> {
    seq![125u8, 44, 34, 101, 110, 99, 114, 121, 112, 116, 101, 100, 68, 97, 116, 97, 34, 58, 34]
}

/// The serialized form of a file record.
pub open spec fn spec_enc_file(f: FileView) -> Seq<u8> {
    lit_file_head() + esc(f.metadata.original_filename) + seq![34u8]
        + lit_content_type() + esc(f.metadata.content_type) + seq![34u8]
        + lit_iv() + esc(f.metadata.iv) + seq![34u8]
        + lit_enc_data() + esc(f.encrypted_data) + seq![34u8]
        + lit_created() + spec_dec(f.created_at) + seq![125u8]
}

/// Reads a file envelope: `None` where the bytes are not one.  An absent
/// `createdAt` field reads as creation time 0 (older records lack it).
pub open spec fn spec_dec_file(s: Seq<u8>) -> Option<FileView> {
    if s.len() < 33 || s.take(33) != lit_file_head() {
        None
    } else {
        match unesc(s.skip(33)) {
            None => None,
            Some(pn1) => {
                let fname = pn1.0;
                let i1 = 33 + pn1.1;
                if s.len() < i1 + 16 || s.subrange(i1, i1 + 16) != lit_content_type() {
                    None
                } else {
                    match unesc(s.skip(i1 + 16)) {
                        None => None,
                        Some(pn2) => {
                            let ctype = pn2.0;
                            let i2 = i1 + 16 + pn2.1;
                            if s.len() < i2 + 7 || s.subrange(i2, i2 + 7) != lit_iv() {
                                None
                            } else {
                                match unesc(s.skip(i2 + 7)) {
                                    None => None,
                                    Some(pn3) => {
                                        let ivv = pn3.0;
                                        let i3 = i2 + 7 + pn3.1;
                                        if s.len() < i3 + 19 || s.subrange(i3, i3 + 19) != lit_enc_data() {
                                            None
                                        } else {
                                            match unesc(s.skip(i3 + 19)) {
                                                None => None,
                                                Some(pn4) => {
                                                    let data = pn4.0;
                                                    let i4 = i3 + 19 + pn4.1;
                                                    spec_dec_file_end(s, fname, ctype, ivv, data, i4)
                                                }
                                            }
                                        }
                                    }
                                }
                            }
                        }
                    }
                }
            }
        }
    }
}

/// Reads the tail of a file envelope, after the data string: either the
/// closing brace at once (creation time 0), or `,"createdAt":` with the
/// digits and then the closing brace.
pub open spec fn spec_dec_file_end(
    s: Seq<u8>,
    fname: Seq<u8>,
    ctype: Seq<u8>,
    ivv: Seq<u8>,
    data: Seq<u8>,
    i4: int,
) -> Option<FileView> {
    let md = FileMetadataView { original_filename: fname, content_type: ctype, iv: ivv };
    if i4 + 1 == s.len() && s[i4] == 125 {
        Some(FileView { metadata: md, encrypted_data: data, created_at: 0 })
    } else if s.len() >= i4 + 13 && s.subrange(i4, i4 + 13) == lit_created() {
        match parse_u64(s.skip(i4 + 13)) {
            None => None,
            Some(nk) => {
                let j = i4 + 13 + nk.1;
                if j + 1 == s.len() && s[j] == 125 {
                    Some(FileView { metadata: md, encrypted_data: data, created_at: nk.0 })
                } else {
                    None
                }
            }
        }
    } else {
        None
    }
}

proof fn lemma_add_assoc(a: Seq<u8>, b: Seq<u8>, c: Seq<u8>)
    ensures
        (a + b) + c == a + (b + c),
{
    assert((a + b) + c =~= a + (b + c));
}

proof fn lemma_skip_concat(s: Seq<u8>, n: int, x: Seq<u8>, y: Seq<u8>)
    requires
        0 <= n <= s.len(),
        s.skip(n) == x + y,
    ensures
        s.len() == n + x.len() + y.len(),
        s.subrange(n, n + x.len()) == x,
        s.skip(n + x.len()) == y,
{
    assert(s.skip(n).len() == s.len() - n);
    assert forall|j: int| n <= j < s.len() implies #[trigger] s[j] == (x + y)[j - n] by {
        assert(s[j] == s.skip(n)[j - n]);
    }
    assert(s.subrange(n, n + x.len()) =~= x);
    assert(s.skip(n + x.len()) =~= y);
}

proof fn lemma_lit_step(s: Seq<u8>, n: int, lit: Seq<u8>, rest: Seq<u8>)
    requires
        0 <= n <= s.len(),
        s.skip(n) == lit + rest,
    ensures
        s.len() == n + lit.len() + rest.len(),
        s.subrange(n, n + lit.len()) == lit,
        s.skip(n + lit.len()) == rest,
{
    lemma_skip_concat(s, n, lit, rest);
}

proof fn lemma_str_field_step(s: Seq<u8>, n: int, lit: Seq<u8>, p: Seq<u8>, rest: Seq<u8>)
    requires
        0 <= n <= s.len(),
        s.skip(n) == lit + (esc(p) + (seq![34u8] + rest)),
    ensures
        s.len() == n + lit.len() + esc(p).len() + 1 + rest.len(),
        s.subrange(n, n + lit.len()) == lit,
        unesc(s.skip(n + lit.len())) == Some((p, esc(p).len() as int + 1)),
        s.skip(n + lit.len() + esc(p).len() + 1) == rest,
{
    let rr = esc(p) + (seq![34u8] + rest);
    assert(rr =~= (esc(p) + seq![34u8]) + rest);
    lemma_skip_concat(s, n, lit, rr);
    lemma_unesc_esc(p, rest);
    lemma_skip_concat(s, n + lit.len(), esc(p) + seq![34u8], rest);
}

#[verifier::rlimit(100)]
proof fn lemma_enc_file_shape(f: FileView)
    ensures
        spec_enc_file(f) == lit_file_head() + (esc(f.metadata.original_filename) + (seq![34u8]
            + (lit_content_type() + (esc(f.metadata.content_type) + (seq![34u8]
            + (lit_iv() + (esc(f.metadata.iv) + (seq![34u8]
            + (lit_enc_data() + (esc(f.encrypted_data) + (seq![34u8]
            + (lit_created() + (spec_dec(f.created_at) + seq![125u8]))))))))))))),
{
    let a1 = lit_file_head();
    let b1 = esc(f.metadata.original_filename);
    let a2 = lit_content_type();
    let b2 = esc(f.metadata.content_type);
    let a3 = lit_iv();
    let b3 = esc(f.metadata.iv);
    let a4 = lit_enc_data();
    let b4 = esc(f.encrypted_data);
    let a5 = lit_created();
    let d = spec_dec(f.created_at);
    let q = seq![34u8];
    let z = seq![125u8];
    let p2 = a1 + b1;
    let p3 = p2 + q;
    let p4 = p3 + a2;
    let p5 = p4 + b2;
    let p6 = p5 + q;
    let p7 = p6 + a3;
    let p8 = p7 + b3;
    let p9 = p8 + q;
    let p10 = p9 + a4;
    let p11 = p10 + b4;
    let p12 = p11 + q;
    let p13 = p12 + a5;
    let p14 = p13 + d;
    let s15 = z;
    lemma_add_assoc(p13, d, s15);
    let s14 = d + s15;
    lemma_add_assoc(p12, a5, s14);
    let s13 = a5 + s14;
    lemma_add_assoc(p11, q, s13);
    let s12 = q + s13;
    lemma_add_assoc(p10, b4, s12);
    let s11 = b4 + s12;
    lemma_add_assoc(p9, a4, s11);
    let s10 = a4 + s11;
    lemma_add_assoc(p8, q, s10);
    let s9 = q + s10;
    lemma_add_assoc(p7, b3, s9);
    let s8 = b3 + s9;
    lemma_add_assoc(p6, a3, s8);
    let s7 = a3 + s8;
    lemma_add_assoc(p5, q, s7);
    let s6 = q + s7;
    lemma_add_assoc(p4, b2, s6);
    let s5 = b2 + s6;
    lemma_add_assoc(p3, a2, s5);
    let s4 = a2 + s5;
    lemma_add_assoc(p2, q, s4);
    let s3 = q + s4;
    lemma_add_assoc(a1, b1, s3);
}

proof fn lemma_dec_file_eval(s: Seq<u8>, f: FileView, i1: int, i2: int, i3: int, i4: int, j: int)
    requires
        s.len() >= 33,
        s.take(33) == lit_file_head(),
        unesc(s.skip(33)) == Some((f.metadata.original_filename, i1 - 33)),
        s.len() >= i1 + 16,
        s.subrange(i1, i1 + 16) == lit_content_type(),
        unesc(s.skip(i1 + 16)) == Some((f.metadata.content_type, i2 - (i1 + 16))),
        s.len() >= i2 + 7,
        s.subrange(i2, i2 + 7) == lit_iv(),
        unesc(s.skip(i2 + 7)) == Some((f.metadata.iv, i3 - (i2 + 7))),
        s.len() >= i3 + 19,
        s.subrange(i3, i3 + 19) == lit_enc_data(),
        unesc(s.skip(i3 + 19)) == Some((f.encrypted_data, i4 - (i3 + 19))),
        s[i4] == 44,
        s.len() >= i4 + 13,
        s.subrange(i4, i4 + 13) == lit_created(),
        parse_u64(s.skip(i4 + 13)) == Some((f.created_at, j - (i4 + 13))),
        j + 1 == s.len(),
        s[j] == 125,
    ensures
        spec_dec_file(s) == Some(f),
{
    assert(spec_dec_file_end(s, f.metadata.original_filename, f.metadata.content_type,
        f.metadata.iv, f.encrypted_data, i4) == Some(f));
}

#[verifier::rlimit(100)]
proof fn lemma_file_fields_front(s: Seq<u8>, f: FileView, i1: int, i2: int)
    requires
        s == lit_file_head() + (esc(f.metadata.original_filename) + (seq![34u8]
            + (lit_content_type() + (esc(f.metadata.content_type) + (seq![34u8]
            + (lit_iv() + (esc(f.metadata.iv) + (seq![34u8]
            + (lit_enc_data() + (esc(f.encrypted_data) + (seq![34u8]
            + (lit_created() + (spec_dec(f.created_at) + seq![125u8]))))))))))))),
        i1 == 33 + esc(f.metadata.original_filename).len() + 1,
        i2 == i1 + 16 + esc(f.metadata.content_type).len() + 1,
    ensures
        s.len() >= 33,
        s.take(33) == lit_file_head(),
        unesc(s.skip(33)) == Some((f.metadata.original_filename, i1 - 33)),
        s.len() >= i1 + 16,
        s.subrange(i1, i1 + 16) == lit_content_type(),
        unesc(s.skip(i1 + 16)) == Some((f.metadata.content_type, i2 - (i1 + 16))),
        s.skip(i2) == lit_iv() + (esc(f.metadata.iv) + (seq![34u8]
            + (lit_enc_data() + (esc(f.encrypted_data) + (seq![34u8]
            + (lit_created() + (spec_dec(f.created_at) + seq![125u8]))))))),
{
    let b2 = esc(f.metadata.content_type);
    let b3 = esc(f.metadata.iv);
    let b4 = esc(f.encrypted_data);
    let d = spec_dec(f.created_at);
    let q = seq![34u8];
    let z = seq![125u8];
    let t4 = lit_created() + (d + z);
    let t3 = lit_enc_data() + (b4 + (q + t4));
    let t2 = lit_iv() + (b3 + (q + t3));
    let t1 = lit_content_type() + (b2 + (q + t2));
    assert(s.skip(0) =~= s);
    lemma_str_field_step(s, 0, lit_file_head(), f.metadata.original_filename, t1);
    assert(s.take(33) =~= s.subrange(0, 33));
    lemma_str_field_step(s, i1, lit_content_type(), f.metadata.content_type, t2);
}

#[verifier::rlimit(100)]
proof fn lemma_file_fields_back(s: Seq<u8>, f: FileView, i2: int, i3: int, i4: int, j: int)
    requires
        0 <= i2 <= s.len(),
        s.skip(i2) == lit_iv() + (esc(f.metadata.iv) + (seq![34u8]
            + (lit_enc_data() + (esc(f.encrypted_data) + (seq![34u8]
            + (lit_created() + (spec_dec(f.created_at) + seq![125u8]))))))),
        i3 == i2 + 7 + esc(f.metadata.iv).len() + 1,
        i4 == i3 + 19 + esc(f.encrypted_data).len() + 1,
        j == i4 + 13 + spec_dec(f.created_at).len(),
    ensures
        s.len() >= i2 + 7,
        s.subrange(i2, i2 + 7) == lit_iv(),
        unesc(s.skip(i2 + 7)) == Some((f.metadata.iv, i3 - (i2 + 7))),
        s.len() >= i3 + 19,
        s.subrange(i3, i3 + 19) == lit_enc_data(),
        unesc(s.skip(i3 + 19)) == Some((f.encrypted_data, i4 - (i3 + 19))),
        s[i4] == 44,
        s.len() >= i4 + 13,
        s.subrange(i4, i4 + 13) == lit_created(),
        parse_u64(s.skip(i4 + 13)) == Some((f.created_at, j - (i4 + 13))),
        j + 1 == s.len(),
        s[j] == 125,
{
    let b4 = esc(f.encrypted_data);
    let d = spec_dec(f.created_at);
    let q = seq![34u8];
    let z = seq![125u8];
    let t4 = lit_created() + (d + z);
    let t3 = lit_enc_data() + (b4 + (q + t4));
    lemma_str_field_step(s, i2, lit_iv(), f.metadata.iv, t3);
    lemma_str_field_step(s, i3, lit_enc_data(), f.encrypted_data, t4);
    assert(s.skip(i4) == t4);
    lemma_lit_step(s, i4, lit_created(), d + z);
    lemma_parse_spec_dec(f.created_at, z);
    assert(s[i4] == s.skip(i4)[0]);
    assert((lit_created() + (d + z))[0] == 44);
    assert(s[j] == s.skip(i4 + 13)[d.len() as int]);
    assert((d + z)[d.len() as int] == 125);
    assert(j + 1 == s.len());
}

/// Decoding inverts encoding: an encoded file record reads back exactly.
pub proof fn lemma_file_round_trip(f: FileView)
    ensures
        spec_dec_file(spec_enc_file(f)) == Some(f),
{
    let s = spec_enc_file(f);
    let i1 = 33 + esc(f.metadata.original_filename).len() as int + 1;
    let i2 = i1 + 16 + esc(f.metadata.content_type).len() as int + 1;
    let i3 = i2 + 7 + esc(f.metadata.iv).len() as int + 1;
    let i4 = i3 + 19 + esc(f.encrypted_data).len() as int + 1;
    let j = i4 + 13 + spec_dec(f.created_at).len() as int;
    lemma_enc_file_shape(f);
    lemma_file_fields_front(s, f, i1, i2);
    lemma_file_fields_back(s, f, i2, i3, i4, j);
    lemma_dec_file_eval(s, f, i1, i2, i3, i4, j);
}

/// Serializes a file record as its envelope.
pub fn encode_file(rec: &StoredFile) -> (r: Vec<u8>)
    ensures
        r@ == spec_enc_file(rec@),
{
    let mut out: Vec<u8> = Vec::new();
    let head: Vec<u8> = vec![123, 34, 109, 101, 116, 97, 100, 97, 116, 97, 34, 58,
        123, 34, 111, 114, 105, 103, 105, 110, 97, 108, 70, 105, 108, 101, 110, 97, 109, 101, 34, 58, 34];
    let ctype: Vec<u8> = vec![44, 34, 99, 111, 110, 116, 101, 110, 116, 84, 121, 112, 101, 34, 58, 34];
    let ivm: Vec<u8> = vec![44, 34, 105, 118, 34, 58, 34];
    let edata: Vec<u8> = vec![125, 44, 34, 101, 110, 99, 114, 121, 112, 116, 101, 100, 68, 97, 116, 97, 34, 58, 34];
    let created: Vec<u8> = vec![44, 34, 99, 114, 101, 97, 116, 101, 100, 65, 116, 34, 58];
    append_bytes(&mut out, &head);
    escape_into(&rec.metadata.original_filename, &mut out);
    out.push(34);
    append_bytes(&mut out, &ctype);
    escape_into(&rec.metadata.content_type, &mut out);
    out.push(34);
    append_bytes(&mut out, &ivm);
    escape_into(&rec.metadata.iv, &mut out);
    out.push(34);
    append_bytes(&mut out, &edata);
    escape_into(&rec.encrypted_data, &mut out);
    out.push(34);
    append_bytes(&mut out, &created);
    push_dec(rec.created_at, &mut out);
    out.push(125);
    assert(out@ =~= spec_enc_file(rec@));
    out
}

/// Reads a file envelope: `None` where the bytes are not one.
pub fn decode_file(v: &Vec<u8>) -> (r: Option<StoredFile>)
    ensures
        match r {
            Some(rec) => spec_dec_file(v@) == Some(rec@),
            None => spec_dec_file(v@) is None,
        },
{
    let head: Vec<u8> = vec![123, 34, 109, 101, 116, 97, 100, 97, 116, 97, 34, 58,
        123, 34, 111, 114, 105, 103, 105, 110, 97, 108, 70, 105, 108, 101, 110, 97, 109, 101, 34, 58, 34];
    if !match_at(v, 0, &head) {
        assert(v@.len() >= 33 ==> v@.subrange(0, 33) =~= v@.take(33));
        return None;
    }
    assert(v@.take(33) =~= v@.subrange(0, 33));
    let r1 = unescape_at(v, 33);
    if r1.is_none() {
        return None;
    }
    let (fname, i1) = r1.unwrap();
    let ctype_lit: Vec<u8> = vec![44, 34, 99, 111, 110, 116, 101, 110, 116, 84, 121, 112, 101, 34, 58, 34];
    if !match_at(v, i1, &ctype_lit) {
        return None;
    }
    assert(i1 + 16 <= v.len());
    let r2 = unescape_at(v, i1 + 16);
    if r2.is_none() {
        return None;
    }
    let (ctype, i2) = r2.unwrap();
    let iv_lit: Vec<u8> = vec![44, 34, 105, 118, 34, 58, 34];
    if !match_at(v, i2, &iv_lit) {
        return None;
    }
    assert(i2 + 7 <= v.len());
    let r3 = unescape_at(v, i2 + 7);
    if r3.is_none() {
        return None;
    }
    let (ivv, i3) = r3.unwrap();
    let ed_lit: Vec<u8> = vec![125, 44, 34, 101, 110, 99, 114, 121, 112, 116, 101, 100, 68, 97, 116, 97, 34, 58, 34];
    if !match_at(v, i3, &ed_lit) {
        return None;
    }
    assert(i3 + 19 <= v.len());
    let r4 = unescape_at(v, i3 + 19);
    if r4.is_none() {
        return None;
    }
    let (data, i4) = r4.unwrap();
    let md = FileMetadata { original_filename: fname, content_type: ctype, iv: ivv };
    if v.len() - i4 == 1 && v[i4] == 125 {
        return Some(StoredFile { metadata: md, encrypted_data: data, created_at: 0 });
    }
    let created: Vec<u8> = vec![44, 34, 99, 114, 101, 97, 116, 101, 100, 65, 116, 34, 58];
    if v.len() - i4 >= 13 && match_at(v, i4, &created) {
        let rn = parse_u64_at(v, i4 + 13);
        if rn.is_none() {
            return None;
        }
        let (ca, j) = rn.unwrap();
        if v.len() - j == 1 && v[j] == 125 {
            return Some(StoredFile { metadata: md, encrypted_data: data, created_at: ca });
        }
        return None;
    }
    None
}

} // verus!
