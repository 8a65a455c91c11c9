//! What the operator's commands decide.

use vstd::prelude::*;

use crate::text::{debug_form, debug_text};

verus! {

/// A text without one given character at its end.
pub open spec fn without_last(s: Seq<char>, c: char) -> Seq<char> {
    if s.len() > 0 && s.last() == c {
        s.drop_last()
    } else {
        s
    }
}

/// A line without its ending, and nothing else: a password may begin and end with spaces.
pub open spec fn line_content(line: Seq<char>) -> Seq<char> {
    without_last(without_last(line, '\n'), '\r')
}

fn strip_last(s: &str, c: char) -> (r: &str)
    ensures
        r@ == without_last(s@, c),
{
    let n: usize = s.unicode_len();
    if n > 0 && s.get_char(n - 1) == c {
        let r = s.substring_char(0, n - 1);
        assert(r@ =~= s@.drop_last());
        r
    } else {
        s
    }
}

/// The words for a password that is empty.
pub const EMPTY_PASSWORD: &'static str =
    "the password was empty. Pipe one in, e.g. `printf %s \"$PASSWORD\" | monitoring-platform create-user --username <name>`";

/// The password in a line that was read.
pub fn read_password(line: &str) -> (r: Result<String, String>)
    ensures
        if line_content(line@).len() == 0 {
            r matches Err(words) && words@ == EMPTY_PASSWORD@
        } else {
            r matches Ok(password) && password@ == line_content(line@)
        },
{
    let password = strip_last(strip_last(line, '\n'), '\r');
    if password.unicode_len() == 0 {
        Err(EMPTY_PASSWORD.to_owned())
    } else {
        Ok(password.to_owned())
    }
}

/// What is told of a key once it is stored; the token itself is told apart from it.
pub fn stored_key_note(id: &str, label: &str, path: &str) -> (r: String)
    ensures
        r@ == "stored key "@ + id@ + " for "@ + debug_form(label@) + " in "@ + path@
            + "; the token above cannot be recovered"@,
{
    let mut out = "stored key ".to_owned();
    out.append(id);
    out.append(" for ");
    out.append(debug_text(label).as_str());
    out.append(" in ");
    out.append(path);
    out.append("; the token above cannot be recovered");
    out
}

/// What is told of a deletion. To delete who is gone already is no failure.
pub fn deletion_note(username: &str, path: &str, existed: bool) -> (r: String)
    ensures
        r@ == if existed {
            "deleted user "@ + debug_form(username@) + " and their sessions from "@ + path@
        } else {
            "no user "@ + debug_form(username@) + " in "@ + path@
        },
{
    if existed {
        let mut out = "deleted user ".to_owned();
        out.append(debug_text(username).as_str());
        out.append(" and their sessions from ");
        out.append(path);
        out
    } else {
        let mut out = "no user ".to_owned();
        out.append(debug_text(username).as_str());
        out.append(" in ");
        out.append(path);
        out
    }
}

/// A line loses its ending, of either kind, and nothing else of it.
pub proof fn law_a_line_loses_its_ending_alone(text: Seq<char>)
    requires
        text.len() > 0 ==> text.last() != '\n' && text.last() != '\r',
    ensures
        line_content(text) == text,
        line_content(text.push('\n')) == text,
        line_content(text.push('\r').push('\n')) == text,
        line_content(text.push('\n').push('\n')) == text.push('\n'),
{
    assert(text.push('\n').drop_last() =~= text);
    assert(text.push('\r').drop_last() =~= text);
    assert(text.push('\r').push('\n').drop_last() =~= text.push('\r'));
    assert(text.push('\n').push('\n').drop_last() =~= text.push('\n'));
}

} // verus!
