//! What is read of an `Authorization` header, told by the texts it is put together from.

use vstd::prelude::*;

use crate::api::auth::{header_text, is_header_text, presentation};
use crate::auth::{
    law_token_has_one_spelling, law_token_round_trip, parsed, parsed_header, secret_string, Malformed, TokenView,
};
use crate::hex::{hex_text, lemma_hex_text};
use crate::text::{
    after, ascii_lowered, before, begins_with, first_index, is_white, lemma_first_index, lemma_first_index_unique,
    trim_end, trim_start, trimmed,
};
use crate::text_laws::is_blank;

verus! {

proof fn lemma_trim_front(a: Seq<char>, s: Seq<char>)
    requires
        is_blank(a),
        s.len() > 0 && !is_white(s[0]),
    ensures
        trim_start(a + s) == s,
    decreases a.len(),
{
    if a.len() > 0 {
        assert(is_white(a[0]));
        assert((a + s).drop_first() =~= a.drop_first() + s);
        assert forall|i: int| 0 <= i < a.drop_first().len() implies is_white(#[trigger] a.drop_first()[i]) by {
            assert(is_white(a[i + 1]));
        }
        lemma_trim_front(a.drop_first(), s);
    } else {
        assert(a + s =~= s);
    }
}

proof fn lemma_trim_back(s: Seq<char>, b: Seq<char>)
    requires
        is_blank(b),
        s.len() > 0 && !is_white(s.last()),
    ensures
        trim_end(s + b) == s,
    decreases b.len(),
{
    if b.len() > 0 {
        assert(is_white(b[b.len() - 1]));
        assert((s + b).drop_last() =~= s + b.drop_last());
        assert forall|i: int| 0 <= i < b.drop_last().len() implies is_white(#[trigger] b.drop_last()[i]) by {
            assert(is_white(b[i]));
        }
        lemma_trim_back(s, b.drop_last());
    } else {
        assert(s + b =~= s);
    }
}

proof fn lemma_bearer()
    ensures
        ascii_lowered("bearer"@) == "bearer"@,
        !"bearer"@.contains(' '),
{
    reveal_strlit("bearer");
    assert(ascii_lowered("bearer"@) =~= "bearer"@);
}

proof fn lemma_token_ends(t: TokenView)
    requires
        t.secret.len() == 32,
    ensures
        secret_string(t).len() > 0,
        !is_white(secret_string(t)[0]),
        !is_white(secret_string(t).last()),
{
    reveal_strlit("mpk_");
    let s = secret_string(t);
    let h = hex_text(t.secret);
    lemma_hex_text(t.secret);
    assert(s[0] == 'm');
    let front = hex_text(t.secret.drop_last());
    assert(h == front.push(h[h.len() - 2]).push(h.last()));
    assert(s.last() == h.last());
    let d = (t.secret.last() % 16) as u8;
    assert(h.last() == crate::hex::hex_digit(d));
    assert(!is_white(h.last()));
}

/// A token is read from a header in which it stands behind the word `bearer`, in whatever case, and a
/// space, with or without more white space round it.
pub proof fn law_a_token_is_read_from_its_header(scheme: Seq<char>, a: Seq<char>, t: TokenView, b: Seq<char>)
    requires
        t.valid(),
        ascii_lowered(scheme) == "bearer"@,
        is_blank(a),
        is_blank(b),
    ensures
        parsed_header(scheme + seq![' '] + a + secret_string(t) + b) == Ok::<TokenView, Malformed>(t),
{
    lemma_bearer();
    let value = scheme + seq![' '] + a + secret_string(t) + b;
    let n = scheme.len() as int;
    assert forall|i: int| 0 <= i < n implies #[trigger] value[i] != ' ' by {
        assert(value[i] == scheme[i]);
        if scheme[i] == ' ' {
            assert(ascii_lowered(scheme)[i] == ' ');
            assert("bearer"@.contains(' '));
        }
    }
    assert(value[n] == ' ');
    lemma_first_index_unique(value, ' ', n);
    assert(before(value, ' ') =~= scheme);
    let token = secret_string(t);
    assert(after(value, ' ') =~= a + (token + b));
    lemma_token_ends(t);
    assert((token + b)[0] == token[0]);
    lemma_trim_front(a, token + b);
    lemma_trim_back(token, b);
    law_token_round_trip(t);
}

/// Nothing else is read as a token: what comes of a header is written in it behind that word.
pub proof fn law_only_bearers_are_read(value: Seq<char>)
    ensures
        parsed_header(value) matches Ok(t) ==> {
            &&& exists|i: int| 0 <= i < value.len() && #[trigger] value[i] == ' ' && ascii_lowered(value.take(i)) == "bearer"@
                && trimmed(value.skip(i + 1)) == secret_string(t)
        },
        parsed_header(value) == Err::<TokenView, Malformed>(Malformed::NotBearer) <==> !exists|i: int|
            0 <= i < value.len() && #[trigger] value[i] == ' ' && ascii_lowered(value.take(i)) == "bearer"@,
{
    lemma_bearer();
    lemma_first_index(value, ' ');
    let k = first_index(value, ' ');
    if parsed_header(value) is Ok {
        law_token_has_one_spelling(trimmed(after(value, ' ')));
        assert(value[k] == ' ' && ascii_lowered(value.take(k)) == "bearer"@);
    }
    if exists|i: int| 0 <= i < value.len() && #[trigger] value[i] == ' ' && ascii_lowered(value.take(i)) == "bearer"@ {
        let i = choose|i: int|
            0 <= i < value.len() && #[trigger] value[i] == ' ' && ascii_lowered(value.take(i)) == "bearer"@;
        if k < i {
            assert(value.take(i)[k] == ' ');
            assert(ascii_lowered(value.take(i))[k] == ' ');
            assert("bearer"@.contains(' '));
        }
    }
    if parsed_header(value) != Err::<TokenView, Malformed>(Malformed::NotBearer) {
        assert(value[k] == ' ' && ascii_lowered(value.take(k)) == "bearer"@);
    }
}

/// A request is looked up by what its header presents; one without a header, or with one that is no
/// text, presents nothing.
pub proof fn law_a_header_presents_its_token(bytes: Seq<u8>)
    ensures
        presentation(None) == Err::<TokenView, Option<Malformed>>(None),
        (exists|i: int| 0 <= i < bytes.len() && (#[trigger] bytes[i] < 32 && bytes[i] != 9 || bytes[i] >= 127))
            <==> presentation(Some(bytes)) == Err::<TokenView, Option<Malformed>>(Some(Malformed::NotText)),
        header_text(bytes) matches Some(text) ==> text.len() == bytes.len() && (presentation(Some(bytes)) is Ok
            <==> parsed_header(text) is Ok),
        header_text(bytes) matches Some(text) ==> (parsed_header(text) matches Ok(t) ==> presentation(Some(bytes))
            == Ok::<TokenView, Option<Malformed>>(t)),
{
    if forall|i: int| 0 <= i < bytes.len() ==> is_header_text(#[trigger] bytes[i]) {
        let text = header_text(bytes)->0;
        lemma_header_is_not_called_no_text(text);
        if exists|i: int| 0 <= i < bytes.len() && (#[trigger] bytes[i] < 32 && bytes[i] != 9 || bytes[i] >= 127) {
            let i = choose|i: int|
                0 <= i < bytes.len() && (#[trigger] bytes[i] < 32 && bytes[i] != 9 || bytes[i] >= 127);
            assert(is_header_text(bytes[i]));
        }
    } else {
        let i = choose|i: int| 0 <= i < bytes.len() && !is_header_text(#[trigger] bytes[i]);
        assert(bytes[i] < 32 && bytes[i] != 9 || bytes[i] >= 127);
    }
}

proof fn lemma_header_is_not_called_no_text(text: Seq<char>)
    ensures
        parsed_header(text) != Err::<TokenView, Malformed>(Malformed::NotText),
{
}

/// What is wrong with a bare token is named by the first thing that is.
pub proof fn law_faults_are_named_in_order(raw: Seq<char>)
    ensures
        parsed(raw) == Err::<TokenView, Malformed>(Malformed::MissingPrefix) <==> !begins_with(raw, "mpk_"@),
        begins_with(raw, "mpk_"@) ==> (parsed(raw) == Err::<TokenView, Malformed>(Malformed::NotTwoParts)
            <==> !raw.skip(4).contains('.')),
{
    reveal_strlit("mpk_");
    assert("mpk_"@.len() == 4);
    let body = raw.skip(4);
    lemma_first_index(body, '.');
    if body.contains('.') {
        let i = choose|i: int| 0 <= i < body.len() && body[i] == '.';
        assert(body[i] == '.');
    }
}

} // verus!
