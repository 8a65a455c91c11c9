//! The stored users.

use vstd::prelude::*;

use crate::auth::SECRET_BYTES;
use crate::store::keys::usable_hash;

verus! {

pub const INSERT: &'static str = "INSERT INTO web_user (username, password_hash, created_at) VALUES (?1, ?2, ?3)";

pub const SELECT_HASH: &'static str = "SELECT password_hash FROM web_user WHERE username = ?1";

pub const COUNT: &'static str = "SELECT count(*) FROM web_user";

/// The oldest first.
pub const SELECT_ALL: &'static str = "SELECT username, created_at FROM web_user ORDER BY created_at, username";

/// Goes first when a user is deleted: a session must not outlive its user.
pub const DELETE_SESSIONS: &'static str = "DELETE FROM web_session WHERE username = ?1";

pub const DELETE: &'static str = "DELETE FROM web_user WHERE username = ?1";

/// A user as stored, without the password, which no row holds.
#[derive(Debug, PartialEq, Eq)]
pub struct StoredUser {
    pub username: String,
    pub created_at: i64,
}

/// The hash of a user's password, given the column of the row, if there is one.
pub fn password_hash(stored: Option<&[u8]>) -> (r: Option<[u8; 32]>)
    ensures
        match stored {
            Some(bytes) => if bytes@.len() == SECRET_BYTES {
                r matches Some(hash) && hash@ == bytes@
            } else {
                r is None
            },
            None => r is None,
        },
{
    usable_hash(stored)
}

/// Whether the user existed, given how many rows were deleted.
pub fn existed(removed: usize) -> (r: bool)
    ensures
        r == (removed > 0),
{
    removed > 0
}

} // verus!
