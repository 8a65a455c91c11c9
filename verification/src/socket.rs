//! The listening socket: which one to serve, and what to do about what is at its path.

use vstd::prelude::*;

use crate::text::{decimal, decimal_u64};

verus! {

/// What is at a path.
#[derive(Debug, Clone, Copy, PartialEq, Eq, Structural)]
pub enum Found {
    Nothing,
    /// Something that is no socket.
    Other,
    /// A socket on which somebody answers.
    Live,
    /// A socket on which nobody answers.
    Stale,
}

/// Why a path cannot be taken, if it cannot: what is no socket is not ours to remove, and a socket on
/// which somebody answers means that another instance runs.
pub open spec fn refusal(path: Seq<char>, found: Found) -> Option<Seq<char>> {
    match found {
        Found::Nothing | Found::Stale => None,
        Found::Other => Some(path + " exists and is not a socket; refusing to remove it"@),
        Found::Live => Some(path + " is already served by a running instance"@),
    }
}

/// Whether what is at a path is to be removed, or the words for why the path cannot be taken.
pub fn reclaim(path: &str, found: Found) -> (r: Result<bool, String>)
    ensures
        match refusal(path@, found) {
            None => r == Ok::<bool, String>(found == Found::Stale),
            Some(words) => r matches Err(e) && e@ == words,
        },
{
    match found {
        Found::Nothing => Ok(false),
        Found::Stale => Ok(true),
        Found::Other => {
            let mut words = path.to_owned();
            words.append(" exists and is not a socket; refusing to remove it");
            Err(words)
        },
        Found::Live => {
            let mut words = path.to_owned();
            words.append(" is already served by a running instance");
            Err(words)
        },
    }
}

/// The mode of a socket's file.
pub const SOCKET_MODE: u32 = 0o660;

/// Which socket to serve.
#[derive(Debug, Clone, Copy, PartialEq, Eq, Structural)]
pub enum Listener {
    /// One of our own, which is removed at the end.
    Bind,
    /// The one that the service manager handed over, and whose file is its own.
    Adopt,
}

/// Which socket to serve, given how many the service manager handed over.
pub fn choose_listener(inherited: usize) -> (r: Result<Listener, String>)
    ensures
        inherited == 0 ==> r == Ok::<Listener, String>(Listener::Bind),
        inherited == 1 ==> r == Ok::<Listener, String>(Listener::Adopt),
        inherited > 1 ==> (r matches Err(words) && words@ == "the service manager passed "@ + decimal(
            inherited as nat,
        ) + " sockets; this collector serves exactly one"@),
{
    if inherited == 0 {
        Ok(Listener::Bind)
    } else if inherited == 1 {
        Ok(Listener::Adopt)
    } else {
        let mut words = "the service manager passed ".to_owned();
        words.append(decimal_u64(inherited as u64).as_str());
        words.append(" sockets; this collector serves exactly one");
        Err(words)
    }
}

} // verus!
