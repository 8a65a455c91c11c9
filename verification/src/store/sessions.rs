//! The stored sessions.

use vstd::prelude::*;

use crate::auth::SECRET_BYTES;
use crate::store::keys::usable_hash;

verus! {

pub const INSERT: &'static str =
    "INSERT INTO web_session (id, secret_hash, username, created_at, expires_at) VALUES (?1, ?2, ?3, ?4, ?5)";

pub const SELECT: &'static str = "SELECT secret_hash, username, expires_at FROM web_session WHERE id = ?1";

pub const DELETE: &'static str = "DELETE FROM web_session WHERE id = ?1";

/// What [`SessionRecord::is_live`] calls dead.
pub const DELETE_EXPIRED: &'static str = "DELETE FROM web_session WHERE expires_at <= ?1";

/// The newest first.
pub const SELECT_ALL: &'static str =
    "SELECT id, username, created_at, expires_at FROM web_session ORDER BY created_at DESC, id";

/// A session as it is stored, without its secret, which no row holds.
#[derive(Debug, PartialEq, Eq)]
pub struct StoredSession {
    pub id: String,
    pub username: String,
    pub created_at: i64,
    pub expires_at: i64,
}

/// What decides whether a session authenticates: read at once, so that the answers agree.
#[derive(Debug, PartialEq, Eq)]
pub struct SessionRecord {
    pub secret_hash: [u8; 32],
    pub username: String,
    pub expires_at: i64,
}

/// Whether a session that expires at `expires_at` is live at `now`.
pub open spec fn live_at(expires_at: i64, now: i64) -> bool {
    now < expires_at
}

/// The record of a session, given the columns of its row, if there is one. It may have expired.
pub fn lookup(row: Option<(Vec<u8>, String, i64)>) -> (r: Option<SessionRecord>)
    ensures
        match row {
            Some((hash, username, expires_at)) => if hash@.len() == SECRET_BYTES {
                r matches Some(record) && record.secret_hash@ == hash@ && record.username == username
                    && record.expires_at == expires_at
            } else {
                r is None
            },
            None => r is None,
        },
{
    match row {
        None => None,
        Some((hash, username, expires_at)) => match usable_hash(Some(hash.as_slice())) {
            None => None,
            Some(secret_hash) => Some(SessionRecord { secret_hash, username, expires_at }),
        },
    }
}

impl SessionRecord {
    /// Whether the session is still valid. Its end is fixed when it is made, and never moves.
    pub fn is_live(&self, now: i64) -> (r: bool)
        ensures
            r == live_at(self.expires_at, now),
    {
        now < self.expires_at
    }
}

impl StoredSession {
    /// The word for the state of a session in a listing, where an expired one is marked and not left
    /// out.
    pub fn state(&self, now: i64) -> (r: &'static str)
        ensures
            r@ == if live_at(self.expires_at, now) {
                "live"@
            } else {
                "expired"@
            },
    {
        if self.expires_at <= now {
            "expired"
        } else {
            "live"
        }
    }
}

} // verus!
