//! The one-time store: put, consuming take ("burn") and non-destructive
//! peek over a key-value backend with per-record expiry.
//!
//! The backend is modelled in full: a table of entries, each a key, a
//! value and an absolute expiry instant, together with a clock.  The
//! clock stands for the backend's TTL countdown: `advance` is time
//! passing, and a record whose expiry has been reached behaves exactly
//! as one that was never written.  A store bound to a remote backend
//! performs the same steps around the backend's own primitives: an
//! unconditional set-with-expiry, an atomic get-and-delete, a plain get
//! and a TTL query.
//!
//! Writes shadow and then drop any earlier entry under the same key
//! (overwrite semantics); a consuming read removes every entry under
//! the key, so two takes of one identifier can never both succeed.

use vstd::prelude::*;
use crate::models::{
    StoredSecret, SecretView, StoredFile, FileView, FileMetadata, FileMetadataView, StoreError,
};
use crate::envelope::{
    spec_enc_secret, spec_read_secret, spec_enc_file, spec_dec_file, spec_dec_secret,
    lit_null, lemma_secret_round_trip, lemma_file_round_trip,
    encode_secret, read_secret, read_secret_ref, encode_file, decode_file,
};
use crate::ids::{
    spec_secret_id, spec_file_id, spec_secret_id_ok, spec_file_id_ok, lemma_kind_isolation,
    secret_id_accepted, file_id_accepted, generate_short_id, make_secret_id, make_file_id,
};

verus! {

/// One stored entry: a key, the bytes under it, and the instant the
/// backend will drop it.
struct Entry {
    key: Vec<u8>,
    value: Vec<u8>,
    expires_at: u64,
}

/// The mathematical view of an [`Entry`].
pub struct EntryView {
    pub key: Seq<u8>,
    pub value: Seq<u8>,
    pub expires_at: u64,
}

impl View for Entry {
    type V = EntryView;

    closed spec fn view(&self) -> EntryView {
        EntryView { key: self.key@, value: self.value@, expires_at: self.expires_at }
    }
}

/// The view of an entry table.
spec fn ev(s: Seq<Entry>) -> Seq<EntryView> {
    s.map_values(|e: Entry| e@)
}

/// The first entry under a key, scanning from the front (the newest
/// write shadows older ones).
pub open spec fn find(s: Seq<EntryView>, k: Seq<u8>) -> Option<EntryView>
    decreases s.len(),
{
    if s.len() == 0 {
        None
    } else if s[0].key == k {
        Some(s[0])
    } else {
        find(s.skip(1), k)
    }
}

/// The table with every entry under a key removed.
pub open spec fn keep(s: Seq<EntryView>, k: Seq<u8>) -> Seq<EntryView>
    decreases s.len(),
{
    if s.len() == 0 {
        Seq::<EntryView>::empty()
    } else if s[0].key == k {
        keep(s.skip(1), k)
    } else {
        seq![s[0]] + keep(s.skip(1), k)
    }
}

/// The mathematical view of the store: the table and the clock.
pub struct StoreView {
    pub entries: Seq<EntryView>,
    pub now: u64,
}

/// The live value under a key: the newest entry, unless its expiry has
/// been reached, in which case it is indistinguishable from absence.
pub open spec fn live_find(v: StoreView, k: Seq<u8>) -> Option<EntryView> {
    match find(v.entries, k) {
        Some(e) => if e.expires_at > v.now { Some(e) } else { None },
        None => None,
    }
}

proof fn lemma_find_absent(s: Seq<EntryView>, k: Seq<u8>)
    requires
        forall|l: int| 0 <= l < s.len() ==> (#[trigger] s[l]).key != k,
    ensures
        find(s, k) is None,
    decreases s.len(),
{
    if s.len() > 0 {
        lemma_find_absent(s.skip(1), k);
    }
}

proof fn lemma_find_at(s: Seq<EntryView>, k: Seq<u8>, i: int)
    requires
        0 <= i < s.len(),
        s[i].key == k,
        forall|l: int| 0 <= l < i ==> (#[trigger] s[l]).key != k,
    ensures
        find(s, k) == Some(s[i]),
    decreases i,
{
    if i > 0 {
        lemma_find_at(s.skip(1), k, i - 1);
    }
}

proof fn lemma_keep_no_key(s: Seq<EntryView>, k: Seq<u8>)
    ensures
        forall|l: int| 0 <= l < keep(s, k).len() ==> (#[trigger] keep(s, k)[l]).key != k,
    decreases s.len(),
{
    if s.len() > 0 {
        lemma_keep_no_key(s.skip(1), k);
        if s[0].key == k {
            assert forall|l: int| 0 <= l < keep(s, k).len() implies (#[trigger] keep(s, k)[l]).key != k by {
                assert(keep(s, k)[l] == keep(s.skip(1), k)[l]);
            }
        } else {
            assert forall|l: int| 0 <= l < keep(s, k).len() implies (#[trigger] keep(s, k)[l]).key != k by {
                if l > 0 {
                    assert(keep(s, k)[l] == keep(s.skip(1), k)[l - 1]);
                }
            }
        }
    }
}

/// Nothing is left under a key after its entries are removed.
proof fn lemma_keep_gone(s: Seq<EntryView>, k: Seq<u8>)
    ensures
        find(keep(s, k), k) is None,
{
    lemma_keep_no_key(s, k);
    lemma_find_absent(keep(s, k), k);
}

proof fn lemma_keep_append(s1: Seq<EntryView>, s2: Seq<EntryView>, k: Seq<u8>)
    ensures
        keep(s1 + s2, k) == keep(s1, k) + keep(s2, k),
    decreases s1.len(),
{
    let s = s1 + s2;
    if s1.len() == 0 {
        assert(s =~= s2);
        assert(keep(s1, k) =~= Seq::<EntryView>::empty());
        assert(keep(s1, k) + keep(s2, k) =~= keep(s2, k));
    } else {
        lemma_keep_append(s1.skip(1), s2, k);
        assert(s.skip(1) =~= s1.skip(1) + s2);
        assert(s[0] == s1[0]);
        if s1[0].key == k {
        } else {
            assert(seq![s1[0]] + (keep(s1.skip(1), k) + keep(s2, k))
                =~= (seq![s1[0]] + keep(s1.skip(1), k)) + keep(s2, k));
        }
    }
}

/// Whether two byte strings are equal.
fn bytes_eq(a: &Vec<u8>, b: &Vec<u8>) -> (r: bool)
    ensures
        r == (a@ == b@),
{
    if a.len() != b.len() {
        return false;
    }
    let mut i: usize = 0;
    while i < a.len()
        invariant
            a@.len() == b@.len(),
            0 <= i <= a@.len(),
            forall|l: int| 0 <= l < i ==> a@[l] == b@[l],
        decreases a@.len() - i,
    {
        if a[i] != b[i] {
            return false;
        }
        i = i + 1;
    }
    assert(a@ =~= b@);
    true
}

/// The position of the newest entry under a key, if any.
fn find_index(entries: &Vec<Entry>, key: &Vec<u8>) -> (r: Option<usize>)
    ensures
        match r {
            Some(i) => i < entries@.len() && ev(entries@)[i as int].key == key@
                && find(ev(entries@), key@) == Some(ev(entries@)[i as int]),
            None => find(ev(entries@), key@) is None,
        },
{
    let mut i: usize = 0;
    while i < entries.len()
        invariant
            0 <= i <= entries@.len(),
            forall|l: int| 0 <= l < i ==> (#[trigger] ev(entries@)[l]).key != key@,
        decreases entries@.len() - i,
    {
        if bytes_eq(&entries[i].key, key) {
            proof {
                lemma_find_at(ev(entries@), key@, i as int);
            }
            return Some(i);
        }
        i = i + 1;
    }
    proof {
        lemma_find_absent(ev(entries@), key@);
    }
    None
}

/// Removes every entry under a key, in place.
fn remove_key(entries: &mut Vec<Entry>, key: &Vec<u8>)
    ensures
        ev(final(entries)@) == keep(ev(old(entries)@), key@),
{
    let ghost orig = ev(old(entries)@);
    let mut i: usize = 0;
    proof {
        assert(ev(entries@).take(0) =~= Seq::<EntryView>::empty());
        assert(ev(entries@).skip(0) =~= ev(entries@));
        assert(Seq::<EntryView>::empty() + keep(ev(entries@), key@) =~= keep(ev(entries@), key@));
    }
    while i < entries.len()
        invariant
            0 <= i <= entries@.len(),
            keep(orig, key@) == ev(entries@).take(i as int) + keep(ev(entries@).skip(i as int), key@),
            forall|l: int| 0 <= l < i ==> (#[trigger] ev(entries@)[l]).key != key@,
        decreases entries@.len() - i,
    {
        let ghost pre = ev(entries@);
        if bytes_eq(&entries[i].key, key) {
            entries.remove(i);
            proof {
                assert(ev(entries@).take(i as int) =~= pre.take(i as int));
                assert(ev(entries@).skip(i as int) =~= pre.skip(i + 1));
                assert(pre.skip(i as int)[0].key == key@);
                assert(pre.skip(i as int).skip(1) =~= pre.skip(i + 1));
                assert(keep(pre.skip(i as int), key@) == keep(pre.skip(i + 1), key@));
                assert forall|l: int| 0 <= l < i implies (#[trigger] ev(entries@)[l]).key != key@ by {
                    assert(ev(entries@)[l] == ev(entries@).take(i as int)[l]);
                    assert(pre.take(i as int)[l] == pre[l]);
                }
            }
        } else {
            proof {
                assert(pre.skip(i as int)[0] == pre[i as int]);
                assert(pre.skip(i as int).skip(1) =~= pre.skip(i + 1));
                assert(keep(pre.skip(i as int), key@)
                    == seq![pre[i as int]] + keep(pre.skip(i + 1), key@));
                assert(pre.take(i + 1) =~= pre.take(i as int).push(pre[i as int]));
                assert(pre.take(i as int) + (seq![pre[i as int]] + keep(pre.skip(i + 1), key@))
                    =~= pre.take(i + 1) + keep(pre.skip(i + 1), key@));
            }
            i = i + 1;
        }
    }
    proof {
        assert(ev(entries@).skip(i as int).len() == 0);
        assert(keep(ev(entries@).skip(i as int), key@) =~= Seq::<EntryView>::empty());
        assert(ev(entries@).take(i as int) =~= ev(entries@));
        assert(ev(entries@) + Seq::<EntryView>::empty() =~= ev(entries@));
    }
}

/// The view of an optional byte string.
pub open spec fn opt_view(m: Option<Vec<u8>>) -> Option<Seq<u8>> {
    match m {
        Some(b) => Some(b@),
        None => None,
    }
}

/// The remaining TTL an expiry instant reads as: the seconds still to
/// run, clamped into `i64`.
pub open spec fn spec_remaining_ttl(exp: u64, now: u64) -> i64 {
    if exp <= now {
        0
    } else if exp - now > i64::MAX {
        i64::MAX
    } else {
        (exp - now) as i64
    }
}

/// A direct backend write: the value, verbatim, under the key, with an
/// expiry of `ttl` seconds from now, shadowing and dropping any earlier
/// entry under the key.
pub open spec fn spec_set_raw(v: StoreView, key: Seq<u8>, value: Seq<u8>, ttl: u64) -> StoreView {
    StoreView {
        entries: seq![EntryView { key, value, expires_at: (v.now + ttl) as u64 }]
            + keep(v.entries, key),
        now: v.now,
    }
}

/// Storing a secret: a fresh identifier from the token, an envelope
/// carrying the payload, the current instant and the metadata, written
/// with the requested expiry.
pub open spec fn spec_store_secret(
    v: StoreView,
    payload: Seq<u8>,
    ttl: u64,
    meta: Option<Seq<u8>>,
    tok: Seq<u8>,
) -> (Seq<u8>, StoreView) {
    let id = spec_secret_id(tok);
    let rec = SecretView { encrypted_secret: payload, created_at: v.now, metadata: meta };
    (id, spec_set_raw(v, id, spec_enc_secret(rec), ttl))
}

/// Taking a secret: `None` without any change where the identifier is
/// not secret-shaped or nothing live is under it; else the record (with
/// the legacy fallback) and the store with the identifier gone.
pub open spec fn spec_take_secret(v: StoreView, id: Seq<u8>) -> (Option<SecretView>, StoreView) {
    if !spec_secret_id_ok(id) {
        (None, v)
    } else {
        match live_find(v, id) {
            Some(e) => (
                Some(spec_read_secret(e.value)),
                StoreView { entries: keep(v.entries, id), now: v.now },
            ),
            None => (None, v),
        }
    }
}

/// Peeking a secret: the record and its remaining TTL, or `None`; the
/// store is untouched.
pub open spec fn spec_peek_secret(v: StoreView, id: Seq<u8>) -> Option<(SecretView, i64)> {
    if !spec_secret_id_ok(id) {
        None
    } else {
        match live_find(v, id) {
            Some(e) => Some((spec_read_secret(e.value), spec_remaining_ttl(e.expires_at, v.now))),
            None => None,
        }
    }
}

/// Storing a file: as a secret, under a file identifier and in the file
/// envelope.
pub open spec fn spec_store_file(
    v: StoreView,
    md: FileMetadataView,
    data: Seq<u8>,
    ttl: u64,
    tok: Seq<u8>,
) -> (Seq<u8>, StoreView) {
    let id = spec_file_id(tok);
    let rec = FileView { metadata: md, encrypted_data: data, created_at: v.now };
    (id, spec_set_raw(v, id, spec_enc_file(rec), ttl))
}

/// Taking a file: as a secret, except that a live value that carries no
/// file envelope is an error, not a legacy record — the value is still
/// consumed.
pub open spec fn spec_take_file(v: StoreView, id: Seq<u8>) -> (Result<Option<FileView>, StoreError>, StoreView) {
    if !spec_file_id_ok(id) {
        (Ok(None), v)
    } else {
        match live_find(v, id) {
            Some(e) => (
                match spec_dec_file(e.value) {
                    Some(f) => Ok(Some(f)),
                    None => Err(StoreError::InvalidInput),
                },
                StoreView { entries: keep(v.entries, id), now: v.now },
            ),
            None => (Ok(None), v),
        }
    }
}

/// The one-time store over the modelled backend.
pub struct OneTimeStore {
    entries: Vec<Entry>,
    now: u64,
}

impl View for OneTimeStore {
    type V = StoreView;

    closed spec fn view(&self) -> StoreView {
        StoreView { entries: ev(self.entries@), now: self.now }
    }
}

/// The remaining TTL an expiry instant reads as.
fn remaining_ttl(exp: u64, now: u64) -> (r: i64)
    ensures
        r == spec_remaining_ttl(exp, now),
{
    if exp <= now {
        0
    } else {
        let d = exp - now;
        if d > i64::MAX as u64 {
            i64::MAX
        } else {
            d as i64
        }
    }
}

impl OneTimeStore {
    /// An empty store with its clock at 0.
    pub fn new() -> (s: Self)
        ensures
            s@.entries == Seq::<EntryView>::empty(),
            s@.now == 0,
    {
        let s = OneTimeStore { entries: Vec::new(), now: 0 };
        proof {
            assert(ev(s.entries@) =~= Seq::<EntryView>::empty());
        }
        s
    }

    /// The clock.
    pub fn now(&self) -> (r: u64)
        ensures
            r == self@.now,
    {
        self.now
    }

    /// Time passing: the backend's TTL countdown.  Nothing else changes;
    /// entries whose expiry is reached become invisible.
    pub fn advance(&mut self, dt: u64)
        requires
            old(self)@.now + dt <= u64::MAX,
        ensures
            final(self)@.now == old(self)@.now + dt,
            final(self)@.entries == old(self)@.entries,
    {
        self.now = self.now + dt;
    }

    /// The backend's set-with-expiry: unconditional, overwriting.
    fn set_ex(&mut self, key: Vec<u8>, value: Vec<u8>, expiration: u64)
        requires
            old(self)@.now + expiration <= u64::MAX,
        ensures
            final(self)@ == spec_set_raw(old(self)@, key@, value@, expiration),
    {
        let exp = self.now + expiration;
        let ghost pre = ev(self.entries@);
        remove_key(&mut self.entries, &key);
        let ghost kept = ev(self.entries@);
        let e = Entry { key, value, expires_at: exp };
        let ghost evw = e@;
        self.entries.insert(0, e);
        proof {
            assert forall|l: int| 0 <= l < ev(self.entries@).len()
                implies #[trigger] ev(self.entries@)[l] == (seq![evw] + kept)[l] by {
                if l > 0 {
                    assert(self.entries@[l] == self.entries@.subrange(1, self.entries@.len() as int)[l - 1]);
                }
            }
            assert(ev(self.entries@) =~= seq![evw] + kept);
        }
    }

    /// A direct backend write, bypassing the envelope: how legacy
    /// records (bare payload strings) arose, and how tests seed them.
    pub fn set_raw(&mut self, key: Vec<u8>, value: Vec<u8>, expiration: u64)
        requires
            old(self)@.now + expiration <= u64::MAX,
        ensures
            final(self)@ == spec_set_raw(old(self)@, key@, value@, expiration),
    {
        self.set_ex(key, value, expiration);
    }

    /// Stores a secret: generates a fresh `sps-` identifier, builds the
    /// envelope with the current instant and the metadata, and writes it
    /// with the requested expiry.  Returns the identifier.
    pub fn store_secret(&mut self, secret: Vec<u8>, expiration: u64, metadata: Option<Vec<u8>>) -> (id: Vec<u8>)
        requires
            old(self)@.now + expiration <= u64::MAX,
        ensures
            exists|tok: Seq<u8>| tok.len() > 0
                && id@ == #[trigger] spec_store_secret(old(self)@, secret@, expiration, opt_view(metadata), tok).0
                && final(self)@ == spec_store_secret(old(self)@, secret@, expiration, opt_view(metadata), tok).1,
    {
        let tok = generate_short_id();
        let id = make_secret_id(&tok);
        let id2 = make_secret_id(&tok);
        let ghost t = tok@;
        let rec = StoredSecret {
            encrypted_secret: secret,
            created_at: self.now,
            metadata,
        };
        let bytes = encode_secret(&rec);
        self.set_ex(id2, bytes, expiration);
        proof {
            let w = tok@;
            assert(id@ == spec_store_secret(old(self)@, secret@, expiration, opt_view(metadata), w).0
                && final(self)@ == spec_store_secret(old(self)@, secret@, expiration, opt_view(metadata), w).1);
        }
        id
    }

    /// Takes (burns) a secret: the atomic fetch-and-delete.  Exactly one
    /// concurrent take of an identifier can observe the value; the
    /// backend's atomic get-and-delete primitive serializes them, and
    /// this model shows each serialized order: once taken, the
    /// identifier reads as absent.  An identifier that was never issued,
    /// already consumed, expired, or not secret-shaped reads `None`,
    /// indistinguishably.
    pub fn get_secret(&mut self, id: &Vec<u8>) -> (r: Option<StoredSecret>)
        ensures
            final(self)@ == spec_take_secret(old(self)@, id@).1,
            (match r {
                Some(rec) => Some(rec@),
                None => None::<SecretView>,
            }) == spec_take_secret(old(self)@, id@).0,
    {
        if !secret_id_accepted(id) {
            return None;
        }
        match find_index(&self.entries, id) {
            None => None,
            Some(i) => {
                if self.entries[i].expires_at <= self.now {
                    return None;
                }
                let ghost pre = ev(self.entries@);
                let e = self.entries.remove(i);
                proof {
                    let ghost mid = ev(self.entries@);
                    assert(pre =~= pre.take(i as int) + pre.skip(i as int));
                    lemma_keep_append(pre.take(i as int), pre.skip(i as int), id@);
                    assert(pre.skip(i as int)[0].key == id@);
                    assert(pre.skip(i as int).skip(1) =~= pre.skip(i + 1));
                    assert(mid =~= pre.take(i as int) + pre.skip(i + 1));
                    lemma_keep_append(pre.take(i as int), pre.skip(i + 1), id@);
                    assert(keep(mid, id@) == keep(pre, id@));
                }
                remove_key(&mut self.entries, id);
                Some(read_secret(e.value))
            }
        }
    }

    /// Peeks at a secret: the record and its remaining TTL, without
    /// consuming it.  Peeking takes the store by shared reference: no
    /// number of peeks can change the outcome of a later take — only
    /// the TTL countdown (`advance`) affects availability.
    pub fn peek_secret(&self, id: &Vec<u8>) -> (r: Option<(StoredSecret, i64)>)
        ensures
            (match r {
                Some(p) => Some((p.0@, p.1)),
                None => None::<(SecretView, i64)>,
            }) == spec_peek_secret(self@, id@),
    {
        if !secret_id_accepted(id) {
            return None;
        }
        match find_index(&self.entries, id) {
            None => None,
            Some(i) => {
                if self.entries[i].expires_at <= self.now {
                    return None;
                }
                let ttl = remaining_ttl(self.entries[i].expires_at, self.now);
                let rec = read_secret_ref(&self.entries[i].value);
                Some((rec, ttl))
            }
        }
    }

    /// Stores a file: generates a fresh `spf-` identifier, builds the
    /// file envelope with the current instant, and writes it with the
    /// requested expiry.  Returns the identifier.
    pub fn store_file(&mut self, metadata: FileMetadata, encrypted_data: Vec<u8>, expiration: u64) -> (id: Vec<u8>)
        requires
            old(self)@.now + expiration <= u64::MAX,
        ensures
            exists|tok: Seq<u8>| tok.len() > 0
                && id@ == #[trigger] spec_store_file(old(self)@, metadata@, encrypted_data@, expiration, tok).0
                && final(self)@ == spec_store_file(old(self)@, metadata@, encrypted_data@, expiration, tok).1,
    {
        let tok = generate_short_id();
        let id = make_file_id(&tok);
        let id2 = make_file_id(&tok);
        let rec = StoredFile {
            metadata,
            encrypted_data,
            created_at: self.now,
        };
        let bytes = encode_file(&rec);
        self.set_ex(id2, bytes, expiration);
        proof {
            let w = tok@;
            assert(id@ == spec_store_file(old(self)@, metadata@, encrypted_data@, expiration, w).0
                && final(self)@ == spec_store_file(old(self)@, metadata@, encrypted_data@, expiration, w).1);
        }
        id
    }

    /// Takes (burns) a file: as [`Self::get_secret`], except that a
    /// live value without a file envelope is an error — and is still
    /// consumed, as the delete happens atomically with the fetch.
    pub fn get_file(&mut self, id: &Vec<u8>) -> (r: Result<Option<StoredFile>, StoreError>)
        ensures
            final(self)@ == spec_take_file(old(self)@, id@).1,
            (match r {
                Ok(Some(f)) => Ok(Some(f@)),
                Ok(None) => Ok(None),
                Err(e) => Err(e),
            }) == spec_take_file(old(self)@, id@).0,
    {
        if !file_id_accepted(id) {
            return Ok(None);
        }
        match find_index(&self.entries, id) {
            None => Ok(None),
            Some(i) => {
                if self.entries[i].expires_at <= self.now {
                    return Ok(None);
                }
                let ghost pre = ev(self.entries@);
                let e = self.entries.remove(i);
                proof {
                    let ghost mid = ev(self.entries@);
                    assert(pre =~= pre.take(i as int) + pre.skip(i as int));
                    lemma_keep_append(pre.take(i as int), pre.skip(i as int), id@);
                    assert(pre.skip(i as int)[0].key == id@);
                    assert(pre.skip(i as int).skip(1) =~= pre.skip(i + 1));
                    assert(mid =~= pre.take(i as int) + pre.skip(i + 1));
                    lemma_keep_append(pre.take(i as int), pre.skip(i + 1), id@);
                    assert(keep(mid, id@) == keep(pre, id@));
                }
                remove_key(&mut self.entries, id);
                match decode_file(&e.value) {
                    Some(f) => Ok(Some(f)),
                    None => Err(StoreError::InvalidInput),
                }
            }
        }
    }
}

/// At-most-once consumption: once a take of an identifier has
/// succeeded, any further take of it returns `None` and changes
/// nothing; no order of takes yields two successes.  The backend's
/// atomic fetch-and-delete serializes concurrent takes, so every
/// interleaving is one of the orders this covers.
pub proof fn lemma_take_at_most_once(v: StoreView, id: Seq<u8>)
    ensures
        spec_take_secret(v, id).0 is Some ==> {
            let v1 = spec_take_secret(v, id).1;
            spec_take_secret(v1, id).0 is None && spec_take_secret(v1, id).1 == v1
        },
{
    if spec_take_secret(v, id).0 is Some {
        lemma_keep_gone(v.entries, id);
    }
}

/// At-most-once consumption for files: once a take of an identifier
/// has consumed a value (successfully or with a malformed envelope),
/// any further take returns not-found and changes nothing.
pub proof fn lemma_take_file_at_most_once(v: StoreView, id: Seq<u8>)
    ensures
        spec_take_file(v, id).0 != Ok::<Option<FileView>, StoreError>(None) ==> {
            let v1 = spec_take_file(v, id).1;
            spec_take_file(v1, id).0 == Ok::<Option<FileView>, StoreError>(None)
                && spec_take_file(v1, id).1 == v1
        },
{
    if spec_take_file(v, id).0 != Ok::<Option<FileView>, StoreError>(None) {
        lemma_keep_gone(v.entries, id);
    }
}

/// Peek is non-destructive: peeking takes the store by shared
/// reference, so no number of peeks changes it; and what a peek
/// reports is exactly the record a take of the same identifier would
/// return, so availability is affected by nothing but the TTL
/// countdown and the takes themselves.
pub proof fn lemma_peek_matches_take(v: StoreView, id: Seq<u8>)
    ensures
        (spec_peek_secret(v, id) is Some) == (spec_take_secret(v, id).0 is Some),
        spec_peek_secret(v, id) matches Some(p) ==> spec_take_secret(v, id).0 == Some(p.0),
{
}

/// Round trip: storing a secret and at once taking its identifier
/// yields the payload byte-for-byte and the metadata exactly as
/// supplied (or absent where none was), and a peek before the take
/// reports the same record with the full TTL remaining.  Metadata
/// spelled `null` is excepted: it is stored verbatim and reads back as
/// absent, exactly as an absent field does.
pub proof fn lemma_store_take_round_trip(
    v: StoreView,
    payload: Seq<u8>,
    ttl: u64,
    meta: Option<Seq<u8>>,
    tok: Seq<u8>,
)
    requires
        ttl > 0,
        v.now + ttl <= u64::MAX,
        meta matches Some(m) ==> m != lit_null(),
    ensures
        ({
            let id = spec_store_secret(v, payload, ttl, meta, tok).0;
            let v1 = spec_store_secret(v, payload, ttl, meta, tok).1;
            let rec = SecretView { encrypted_secret: payload, created_at: v.now, metadata: meta };
            spec_take_secret(v1, id).0 == Some(rec)
                && spec_peek_secret(v1, id) == Some((rec, spec_remaining_ttl((v.now + ttl) as u64, v.now)))
        }),
{
    let id = spec_store_secret(v, payload, ttl, meta, tok).0;
    let v1 = spec_store_secret(v, payload, ttl, meta, tok).1;
    let rec = SecretView { encrypted_secret: payload, created_at: v.now, metadata: meta };
    lemma_kind_isolation(tok);
    assert(v1.entries[0].key == id);
    assert(find(v1.entries, id) == Some(v1.entries[0]));
    lemma_secret_round_trip(rec);
}

/// Round trip for files: storing a file and at once taking its
/// identifier yields the data and the file metadata exactly as
/// supplied.
pub proof fn lemma_store_take_file_round_trip(
    v: StoreView,
    md: FileMetadataView,
    data: Seq<u8>,
    ttl: u64,
    tok: Seq<u8>,
)
    requires
        ttl > 0,
        v.now + ttl <= u64::MAX,
    ensures
        ({
            let id = spec_store_file(v, md, data, ttl, tok).0;
            let v1 = spec_store_file(v, md, data, ttl, tok).1;
            spec_take_file(v1, id).0
                == Ok::<Option<FileView>, StoreError>(Some(FileView {
                    metadata: md,
                    encrypted_data: data,
                    created_at: v.now,
                }))
        }),
{
    let id = spec_store_file(v, md, data, ttl, tok).0;
    let v1 = spec_store_file(v, md, data, ttl, tok).1;
    let rec = FileView { metadata: md, encrypted_data: data, created_at: v.now };
    lemma_kind_isolation(tok);
    assert(v1.entries[0].key == id);
    assert(find(v1.entries, id) == Some(v1.entries[0]));
    lemma_file_round_trip(rec);
}

/// Legacy fallback: a bare value written directly under a valid secret
/// identifier, bypassing the envelope, is taken and peeked as a record
/// whose payload is the raw value, with creation time 0 and no
/// metadata.
pub proof fn lemma_legacy_fallback(v: StoreView, id: Seq<u8>, raw: Seq<u8>, ttl: u64)
    requires
        spec_secret_id_ok(id),
        spec_dec_secret(raw) is None,
        ttl > 0,
        v.now + ttl <= u64::MAX,
    ensures
        ({
            let v1 = spec_set_raw(v, id, raw, ttl);
            let rec = SecretView { encrypted_secret: raw, created_at: 0, metadata: None };
            spec_take_secret(v1, id).0 == Some(rec)
                && (spec_peek_secret(v1, id) matches Some(p) && p.0 == rec)
        }),
{
    let v1 = spec_set_raw(v, id, raw, ttl);
    assert(v1.entries[0].key == id);
    assert(find(v1.entries, id) == Some(v1.entries[0]));
}

/// Expiry: a record whose TTL has elapsed is indistinguishable from
/// one that was never created — take and peek return `None` (and
/// change nothing) exactly as they do for an absent identifier.
pub proof fn lemma_expiry_invisible(v: StoreView, id: Seq<u8>)
    requires
        match find(v.entries, id) {
            Some(e) => e.expires_at <= v.now,
            None => true,
        },
    ensures
        spec_take_secret(v, id).0 is None,
        spec_take_secret(v, id).1 == v,
        spec_peek_secret(v, id) is None,
        spec_take_file(v, id).0 == Ok::<Option<FileView>, StoreError>(None),
        spec_take_file(v, id).1 == v,
{
}

/// Kind isolation: an identifier of the wrong kind is rejected before
/// any lookup — the outcome is not-found, nothing changes, and nothing
/// is revealed about whether the identifier exists.
pub proof fn lemma_store_kind_isolation(v: StoreView, tok: Seq<u8>)
    ensures
        spec_take_secret(v, spec_file_id(tok)).0 is None,
        spec_take_secret(v, spec_file_id(tok)).1 == v,
        spec_peek_secret(v, spec_file_id(tok)) is None,
        spec_take_file(v, spec_secret_id(tok)).0 == Ok::<Option<FileView>, StoreError>(None),
        spec_take_file(v, spec_secret_id(tok)).1 == v,
{
    lemma_kind_isolation(tok);
}

} // verus!
