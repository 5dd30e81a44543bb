//! Settings of the vault's synchronisation with S3-compatible storage.

use vstd::prelude::*;

verus! {

/// Where and how a vault is synchronised (AWS S3, Cloudflare R2, MinIO, ...).
#[derive(Debug, Clone)]
pub struct SyncConfig {
    pub endpoint: String,
    pub region: String,
    pub bucket: String,
    pub access_key: String,
    pub secret_key: String,
}

} // verus!
