//! The stored API keys.

use vstd::prelude::*;

use crate::api::auth::Lookup;
use crate::auth::SECRET_BYTES;

verus! {

pub const INSERT: &'static str =
    "INSERT INTO api_key (id, secret_hash, label, created_at) VALUES (?1, ?2, ?3, ?4)";

pub const SELECT_HASH: &'static str = "SELECT secret_hash FROM api_key WHERE id = ?1";

/// The newest first.
pub const SELECT_ALL: &'static str = "SELECT id, label, created_at FROM api_key ORDER BY created_at DESC, id";

pub const COUNT: &'static str = "SELECT count(*) FROM api_key";

/// A key as it is stored, without its secret, which no row holds.
#[derive(Debug, PartialEq, Eq)]
pub struct StoredKey {
    pub id: String,
    pub label: String,
    pub created_at: i64,
}

/// The hash in a column, where it is one: another length was not written by this program, and reads
/// as no hash at all.
pub fn usable_hash(stored: Option<&[u8]>) -> (r: Option<[u8; 32]>)
    ensures
        match stored {
            Some(bytes) => if bytes@.len() == SECRET_BYTES {
                r matches Some(hash) && hash@ == bytes@
            } else {
                r is None
            },
            None => r is None,
        },
{
    match stored {
        None => None,
        Some(bytes) => if bytes.len() != SECRET_BYTES {
            None
        } else {
            let mut hash: [u8; 32] = [0u8; 32];
            let mut i: usize = 0;
            while i < SECRET_BYTES
                invariant
                    i <= SECRET_BYTES,
                    bytes@.len() == SECRET_BYTES,
                    forall|j: int| 0 <= j < i ==> #[trigger] hash@[j] == bytes@[j],
                decreases SECRET_BYTES - i,
            {
                hash[i] = bytes[i];
                i += 1;
            }
            assert(hash@ =~= bytes@);
            Some(hash)
        },
    }
}

/// What looking a key up came to, given the column of its row, if there is one.
pub fn secret_hash(stored: Option<&[u8]>) -> (r: Lookup)
    ensures
        match stored {
            Some(bytes) => if bytes@.len() == SECRET_BYTES {
                r matches Lookup::Found(hash) && hash@ == bytes@
            } else {
                r is NotFound
            },
            None => r is NotFound,
        },
{
    match usable_hash(stored) {
        Some(hash) => Lookup::Found(hash),
        None => Lookup::NotFound,
    }
}

} // verus!
