//! The environment a service manager hands over, and paths built from it.

use vstd::prelude::*;

use crate::text::{before, same_text, split_once};

verus! {

/// The value of a variable; where it is given twice, the later one.
pub open spec fn variable(env: Seq<(String, String)>, key: Seq<char>) -> Option<Seq<char>>
    decreases env.len(),
{
    if env.len() == 0 {
        None
    } else if env.last().0@ == key {
        Some(env.last().1@)
    } else {
        variable(env.drop_last(), key)
    }
}

/// The directory a variable names: the first of a colon-separated list, and nothing where that is
/// empty.
pub open spec fn directory(env: Seq<(String, String)>, key: Seq<char>) -> Option<Seq<char>> {
    match variable(env, key) {
        Some(value) => if before(value, ':').len() > 0 {
            Some(before(value, ':'))
        } else {
            None
        },
        None => None,
    }
}

/// `file` in the directory `dir`; the file alone where the directory is empty.
pub open spec fn path_in(dir: Seq<char>, file: Seq<char>) -> Seq<char> {
    if dir.len() == 0 || dir.last() == '/' {
        dir + file
    } else {
        dir.push('/') + file
    }
}

/// The directory a variable names.
pub fn systemd_dir(env: &Vec<(String, String)>, key: &str) -> (r: Option<String>)
    ensures
        match directory(env@, key@) {
            Some(dir) => r matches Some(s) && s@ == dir,
            None => r is None,
        },
{
    let mut i: usize = env.len();
    assert(env@.take(i as int) =~= env@);
    while i > 0
        invariant
            i <= env@.len(),
            variable(env@, key@) == variable(env@.take(i as int), key@),
        decreases i,
    {
        proof {
            assert(env@.take(i as int).drop_last() =~= env@.take(i - 1));
            assert(env@.take(i as int).last() == env@[i - 1]);
        }
        if same_text(env[i - 1].0.as_str(), key) {
            let (first, _rest) = split_once(env[i - 1].1.as_str(), ':');
            if first.is_empty() {
                return None;
            }
            return Some(first.to_owned());
        }
        i -= 1;
    }
    None
}

/// `file` in the directory `dir`.
pub fn join_path(dir: &str, file: &str) -> (r: String)
    ensures
        r@ == path_in(dir@, file@),
{
    let n: usize = dir.unicode_len();
    let mut out = dir.to_owned();
    if n > 0 && dir.get_char(n - 1) != '/' {
        out.push('/');
    }
    out.append(file);
    out
}

} // verus!
