//! The data model: requests, responses and the stored record shapes.
//!
//! Payloads, identifiers and metadata are byte strings throughout: the
//! store never interprets them.  Caller-supplied metadata is carried
//! verbatim as the raw bytes of a JSON value.

use vstd::prelude::*;

verus! {

/// A secret record as stored under an identifier: the opaque ciphertext,
/// the creation time (seconds since the epoch, assigned by the store),
/// and optional caller-supplied metadata (raw JSON bytes, kept verbatim).
pub struct StoredSecret {
    pub encrypted_secret: Vec<u8>,
    pub created_at: u64,
    pub metadata: Option<Vec<u8>>,
}

/// The mathematical view of a [`StoredSecret`].
pub struct SecretView {
    pub encrypted_secret: Seq<u8>,
    pub created_at: u64,
    pub metadata: Option<Seq<u8>>,
}

impl View for StoredSecret {
    type V = SecretView;

    open spec fn view(&self) -> SecretView {
        SecretView {
            encrypted_secret: self.encrypted_secret@,
            created_at: self.created_at,
            metadata: match self.metadata {
                Some(m) => Some(m@),
                None => None,
            },
        }
    }
}

/// Metadata attached to a stored file: the original filename, the declared
/// content type, and an initialization-vector string (opaque, caller-managed).
pub struct FileMetadata {
    pub original_filename: Vec<u8>,
    pub content_type: Vec<u8>,
    pub iv: Vec<u8>,
}

/// The mathematical view of a [`FileMetadata`].
pub struct FileMetadataView {
    pub original_filename: Seq<u8>,
    pub content_type: Seq<u8>,
    pub iv: Seq<u8>,
}

impl View for FileMetadata {
    type V = FileMetadataView;

    open spec fn view(&self) -> FileMetadataView {
        FileMetadataView {
            original_filename: self.original_filename@,
            content_type: self.content_type@,
            iv: self.iv@,
        }
    }
}

/// A file record as stored under an identifier.
pub struct StoredFile {
    pub metadata: FileMetadata,
    pub encrypted_data: Vec<u8>,
    pub created_at: u64,
}

/// The mathematical view of a [`StoredFile`].
pub struct FileView {
    pub metadata: FileMetadataView,
    pub encrypted_data: Seq<u8>,
    pub created_at: u64,
}

impl View for StoredFile {
    type V = FileView;

    open spec fn view(&self) -> FileView {
        FileView {
            metadata: self.metadata@,
            encrypted_data: self.encrypted_data@,
            created_at: self.created_at,
        }
    }
}

/// A request to create a secret.
pub struct SecretRequest {
    pub encrypted_secret: Vec<u8>,
    pub expiration: u64,
    pub metadata: Option<Vec<u8>>,
}

/// A request to create a file.
pub struct FileRequest {
    pub metadata: FileMetadata,
    pub encrypted_data: Vec<u8>,
    pub expiration: u64,
}

/// Query parameters of a secret retrieval: `peek` selects the
/// non-destructive read.
pub struct GetSecretParams {
    pub peek: bool,
}

/// Query parameters of a file retrieval.
pub struct GetFileParams {
    pub peek: bool,
}

/// The response to a successful secret creation: the fresh identifier.
pub struct SecretResponse {
    pub secret_id: Vec<u8>,
}

/// The response to a successful file creation: the fresh identifier.
pub struct FileResponse {
    pub file_id: Vec<u8>,
}

/// The response to a consuming secret retrieval: the ciphertext.
pub struct EncryptedSecretResponse {
    pub encrypted_secret: Vec<u8>,
}

/// The response to a secret peek: creation time, remaining TTL and the
/// stored metadata, without the payload.
pub struct SecretPeekResponse {
    pub created_at: u64,
    pub ttl_seconds: i64,
    pub metadata: Option<Vec<u8>>,
}

/// The response to a file peek: creation time, remaining TTL and the
/// stored file metadata, without the payload.
pub struct FilePeekResponse {
    pub created_at: u64,
    pub ttl_seconds: i64,
    pub metadata: FileMetadata,
}

/// An error surfaced to the caller.
pub struct ErrorResponse {
    pub error: Vec<u8>,
}

/// The store's error taxonomy.  `NotFound` is not an error here: absence
/// is an expected outcome and is expressed with `Option`/`None`.
#[derive(PartialEq, Eq, Structural, Clone, Copy, Debug)]
pub enum StoreError {
    /// A stored value that ought to carry an envelope could not be read
    /// as one (malformed envelope).
    InvalidInput,
    /// The backend could not be reached or failed the request; raised by
    /// callers that bind the store to a remote backend.
    BackendUnavailable,
}

} // verus!
