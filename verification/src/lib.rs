//! A one-time-retrieval blob store: callers submit an opaque encrypted
//! payload with a time-to-live and receive an opaque identifier; a later
//! retrieval either atomically fetches and destroys the payload ("burn")
//! or peeks at its metadata without consuming it.
//!
//! The store itself performs no cryptography: payloads are ciphertext to
//! it.  The design centres on prefixed identifiers (`sps-` for secrets,
//! `spf-` for files), a JSON record envelope carrying the payload, its
//! creation time and caller-supplied metadata, a legacy fallback for
//! records stored as a bare string, and the peek/burn duality.

pub mod json;
pub mod models;
pub mod envelope;
pub mod ids;
pub mod store;
pub mod limits;
