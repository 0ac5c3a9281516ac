//! Identifier generation and the kind gate.
//!
//! An identifier is a kind prefix (`sps-` for secrets, `spf-` for files)
//! followed by a random, collision-resistant, URL-safe token: 128 bits
//! of entropy, base58-encoded.  Retrieval paths reject an identifier
//! whose prefix does not match the expected kind before any backend
//! work, and the rejection leaks nothing about whether it exists.

use vstd::prelude::*;
use crate::envelope::{append_bytes, match_at};

verus! {

/// The base58 encoding (Bitcoin alphabet) of a byte string.  The result
/// depends on the input bytes alone.
pub uninterp spec fn base58_of(b: Seq<u8>) -> Seq<u8>;

/// Relies on `bs58::encode(..).into_vec()`: the base58 encoding of the
/// input in the default (Bitcoin) alphabet, a pure function of the input
/// bytes; a nonempty input yields at least one digit.
#[verifier::external_body]
fn base58_encode(b: &Vec<u8>) -> (r: Vec<u8>)
    ensures
        r@ == base58_of(b@),
        b@.len() > 0 ==> r@.len() > 0,
{
    bs58::encode(b.as_slice()).into_vec()
}

/// Relies on `uuid::Uuid::new_v4`: a fresh random version-4 UUID, whose
/// byte form is exactly 16 bytes.  Nothing is assumed about the values.
#[verifier::external_body]
fn random_uuid_bytes() -> (r: Vec<u8>)
    ensures
        r@.len() == 16,
{
    uuid::Uuid::new_v4().as_bytes().to_vec()
}

/// Relies on `std::time::SystemTime`: the seconds since the Unix epoch,
/// or 0 where the clock reads earlier than the epoch.  Nothing is
/// assumed about the value.
#[verifier::external_body]
fn system_seconds() -> u64 {
    std::time::SystemTime::now()
        .duration_since(std::time::UNIX_EPOCH)
        .unwrap_or_default()
        .as_secs()
}

/// The wall clock, as seconds since the Unix epoch.  The value is
/// whatever the system clock reads: no record's contract depends on it
/// beyond being stored and returned verbatim.
pub fn current_timestamp() -> u64 {
    system_seconds()
}

/// A fresh random token: the base58 form of 16 random bytes.
pub fn generate_short_id() -> (r: Vec<u8>)
    ensures
        r@.len() > 0,
        exists|b: Seq<u8>| b.len() == 16 && r@ == base58_of(b),
{
    let bytes = random_uuid_bytes();
    let tok = base58_encode(&bytes);
    proof {
        assert(bytes@.len() == 16 && tok@ == base58_of(bytes@));
    }
    tok
}

/// The secret identifier prefix, `sps-`.
pub open spec fn secret_prefix() -> Seq<u8> {
    seq![115u8, 112, 115, 45]
}

/// The file identifier prefix, `spf-`.
pub open spec fn file_prefix() -> Seq<u8> {
    seq![115u8, 112, 102, 45]
}

/// The secret identifier carrying a token.
pub open spec fn spec_secret_id(tok: Seq<u8>) -> Seq<u8> {
    secret_prefix() + tok
}

/// The file identifier carrying a token.
pub open spec fn spec_file_id(tok: Seq<u8>) -> Seq<u8> {
    file_prefix() + tok
}

/// Whether the secret retrieval paths accept an identifier: it must
/// bear the secret prefix.
pub open spec fn spec_secret_id_ok(id: Seq<u8>) -> bool {
    id.len() >= 4 && id.subrange(0, 4) == secret_prefix()
}

/// Whether the file retrieval paths accept an identifier: it must bear
/// the file prefix.
pub open spec fn spec_file_id_ok(id: Seq<u8>) -> bool {
    id.len() >= 4 && id.subrange(0, 4) == file_prefix()
}

/// Builds a secret identifier from a token.
pub fn make_secret_id(token: &Vec<u8>) -> (r: Vec<u8>)
    ensures
        r@ == spec_secret_id(token@),
{
    let mut out: Vec<u8> = vec![115, 112, 115, 45];
    append_bytes(&mut out, token);
    out
}

/// Builds a file identifier from a token.
pub fn make_file_id(token: &Vec<u8>) -> (r: Vec<u8>)
    ensures
        r@ == spec_file_id(token@),
{
    let mut out: Vec<u8> = vec![115, 112, 102, 45];
    append_bytes(&mut out, token);
    out
}

/// The kind gate for secrets.
pub fn secret_id_accepted(id: &Vec<u8>) -> (b: bool)
    ensures
        b == spec_secret_id_ok(id@),
{
    let prefix: Vec<u8> = vec![115, 112, 115, 45];
    match_at(id, 0, &prefix)
}

/// The kind gate for files.
pub fn file_id_accepted(id: &Vec<u8>) -> (b: bool)
    ensures
        b == spec_file_id_ok(id@),
{
    let prefix: Vec<u8> = vec![115, 112, 102, 45];
    match_at(id, 0, &prefix)
}

/// Kind isolation: an identifier issued for one kind never passes the
/// other kind's gate, whatever its token; and each passes its own.
pub proof fn lemma_kind_isolation(tok: Seq<u8>)
    ensures
        !spec_secret_id_ok(spec_file_id(tok)),
        !spec_file_id_ok(spec_secret_id(tok)),
        spec_secret_id_ok(spec_secret_id(tok)),
        spec_file_id_ok(spec_file_id(tok)),
{
    assert(spec_file_id(tok).subrange(0, 4) =~= file_prefix());
    assert(spec_secret_id(tok).subrange(0, 4) =~= secret_prefix());
    assert(file_prefix()[2] != secret_prefix()[2]);
}

} // verus!
