//! What the headers of a request decide, told by the entries and names in them.

use vstd::prelude::*;

use crate::api::compress::{
    acceptance_of, encoding_for, first_gzip, first_weight, gzip_acceptance, gzipped, is_text_type, last_wildcard,
    weight_in, AcceptanceView,
};
use crate::text::{ascii_lowered, begins_with, finishes_with, pieces, trimmed};
use crate::wire::{content_type_failure, encoding_of, gunzipped, payload_of, within_limit, FailureView};

verus! {

/// What an entry names: all of it before its first semicolon, without the white space round it.
pub open spec fn entry_name(entry: Seq<char>) -> Seq<char> {
    trimmed(pieces(entry, ';')[0])
}

/// Whether an entry is the first that names gzip, in whatever case.
pub open spec fn is_first_gzip(entries: Seq<Seq<char>>, k: int) -> bool {
    &&& 0 <= k < entries.len()
    &&& ascii_lowered(entry_name(entries[k])) == "gzip"@
    &&& forall|i: int| 0 <= i < k ==> ascii_lowered(entry_name(#[trigger] entries[i])) != "gzip"@
}

/// Whether an entry is the last that is a star.
pub open spec fn is_last_star(entries: Seq<Seq<char>>, k: int) -> bool {
    &&& 0 <= k < entries.len()
    &&& entry_name(entries[k]) == "*"@
    &&& forall|i: int| k < i < entries.len() ==> entry_name(#[trigger] entries[i]) != "*"@
}

proof fn lemma_gzip_lowered()
    ensures
        ascii_lowered("gzip"@) == "gzip"@,
{
    reveal_strlit("gzip");
    assert(ascii_lowered("gzip"@) =~= "gzip"@);
}

proof fn lemma_first_gzip(entries: Seq<Seq<char>>) -> (k: int)
    ensures
        match first_gzip(entries) {
            Some(entry) => is_first_gzip(entries, k) && entry == entries[k],
            None => forall|i: int| 0 <= i < entries.len() ==> ascii_lowered(entry_name(#[trigger] entries[i])) != "gzip"@,
        },
    decreases entries.len(),
{
    lemma_gzip_lowered();
    if entries.len() == 0 {
        0
    } else if ascii_lowered(entry_name(entries[0])) == "gzip"@ {
        0
    } else {
        let rest = entries.drop_first();
        let k = lemma_first_gzip(rest);
        match first_gzip(entries) {
            Some(_) => {
                assert forall|i: int| 0 <= i < k + 1 implies ascii_lowered(entry_name(#[trigger] entries[i]))
                    != "gzip"@ by {
                    if i > 0 {
                        assert(rest[i - 1] == entries[i]);
                    }
                }
            },
            None => {
                assert forall|i: int| 0 <= i < entries.len() implies ascii_lowered(entry_name(#[trigger] entries[i]))
                    != "gzip"@ by {
                    if i > 0 {
                        assert(rest[i - 1] == entries[i]);
                    }
                }
            },
        }
        k + 1
    }
}

proof fn lemma_last_star(entries: Seq<Seq<char>>) -> (k: int)
    ensures
        match last_wildcard(entries) {
            Some(entry) => is_last_star(entries, k) && entry == entries[k],
            None => forall|i: int| 0 <= i < entries.len() ==> entry_name(#[trigger] entries[i]) != "*"@,
        },
    decreases entries.len(),
{
    if entries.len() == 0 {
        0
    } else if entry_name(entries.last()) == "*"@ {
        entries.len() - 1
    } else {
        let front = entries.drop_last();
        let k = lemma_last_star(front);
        assert(entries[entries.len() - 1] == entries.last());
        match last_wildcard(entries) {
            Some(_) => {
                assert(front[k] == entries[k]);
                assert forall|i: int| k < i < entries.len() implies entry_name(#[trigger] entries[i]) != "*"@ by {
                    if i < front.len() {
                        assert(front[i] == entries[i]);
                    }
                }
            },
            None => {
                assert forall|i: int| 0 <= i < entries.len() implies entry_name(#[trigger] entries[i]) != "*"@ by {
                    if i < front.len() {
                        assert(front[i] == entries[i]);
                    }
                }
            },
        }
        k
    }
}

/// The first entry that names gzip decides whether a client takes it, a star only where none does, and
/// the last star then; where there is neither, or no header at all, the client does not.
pub proof fn law_the_first_gzip_decides(raw: Seq<char>)
    ensures
        gzip_acceptance(None) == AcceptanceView::No,
        ({
            let entries = pieces(raw, ',');
            ||| exists|k: int| #[trigger] is_first_gzip(entries, k) && gzip_acceptance(Some(raw)) == acceptance_of(
                entries[k],
            )
            ||| (forall|i: int| !#[trigger] is_first_gzip(entries, i)) && exists|k: int| #[trigger]
                is_last_star(entries, k) && gzip_acceptance(Some(raw)) == acceptance_of(entries[k])
            ||| (forall|i: int| !#[trigger] is_first_gzip(entries, i)) && (forall|i: int| !#[trigger]
                is_last_star(entries, i)) && gzip_acceptance(Some(raw)) == AcceptanceView::No
        }),
{
    let entries = pieces(raw, ',');
    let g = lemma_first_gzip(entries);
    let s = lemma_last_star(entries);
    if first_gzip(entries) is Some {
        assert(is_first_gzip(entries, g));
    } else {
        assert forall|i: int| !#[trigger] is_first_gzip(entries, i) by {
            if 0 <= i < entries.len() {
                assert(ascii_lowered(entry_name(entries[i])) != "gzip"@);
            }
        }
        if last_wildcard(entries) is Some {
            assert(is_last_star(entries, s));
        } else {
            assert forall|i: int| !#[trigger] is_last_star(entries, i) by {
                if 0 <= i < entries.len() {
                    assert(entry_name(entries[i]) != "*"@);
                }
            }
        }
    }
}

/// Of several parameters the first that is a weight counts; without any, an entry is taken as it is.
pub proof fn law_the_first_weight_counts(parameters: Seq<Seq<char>>)
    ensures
        first_weight(parameters) is None <==> forall|i: int|
            0 <= i < parameters.len() ==> weight_in(#[trigger] parameters[i]) is None,
        first_weight(parameters) is Some ==> exists|k: int|
            0 <= k < parameters.len() && weight_in(#[trigger] parameters[k]) == first_weight(parameters) && forall|i: int|
                0 <= i < k ==> weight_in(#[trigger] parameters[i]) is None,
    decreases parameters.len(),
{
    if parameters.len() > 0 && weight_in(parameters[0]) is None {
        let rest = parameters.drop_first();
        law_the_first_weight_counts(rest);
        if first_weight(rest) is None {
            assert forall|i: int| 0 <= i < parameters.len() implies weight_in(#[trigger] parameters[i]) is None by {
                if i > 0 {
                    assert(rest[i - 1] == parameters[i]);
                }
            }
        } else {
            let k = choose|k: int|
                0 <= k < rest.len() && weight_in(#[trigger] rest[k]) == first_weight(rest) && forall|i: int|
                    0 <= i < k ==> weight_in(#[trigger] rest[i]) is None;
            assert(parameters[k + 1] == rest[k]);
            assert forall|i: int| 0 <= i < k + 1 implies weight_in(#[trigger] parameters[i]) is None by {
                if i > 0 {
                    assert(rest[i - 1] == parameters[i]);
                }
            }
        }
    } else if parameters.len() > 0 {
        assert(weight_in(parameters[0]) == first_weight(parameters));
    }
}

/// A body goes out compressed only as what compressing it came to, only where that is smaller, and only
/// where it is a text of at least a kilobyte; and such a body does.
pub proof fn law_a_body_is_compressed_where_it_pays(content_type: Option<Seq<char>>, body: Seq<u8>)
    ensures
        encoding_for(content_type, body) matches Some(z) ==> {
            &&& gzipped(body) == Ok::<Seq<u8>, Seq<char>>(z)
            &&& z.len() < body.len()
            &&& body.len() >= 1024
            &&& content_type is Some && is_text_type(content_type->0)
        },
        content_type is Some && is_text_type(content_type->0) && body.len() >= 1024 && (gzipped(body) matches Ok(z)
            && z.len() < body.len()) ==> encoding_for(content_type, body) is Some,
{
}

/// A text is what a media type calls `text/`, JSON, or something written in JSON, whatever its
/// parameters and its case.
pub proof fn law_texts_are_named_so(raw: Seq<char>)
    ensures
        ({
            let name = ascii_lowered(entry_name(raw));
            is_text_type(raw) <==> begins_with(name, "text/"@) || name == "application/json"@ || finishes_with(
                name,
                "+json"@,
            )
        }),
{
}

proof fn lemma_protobuf_lowered()
    ensures
        ascii_lowered("application/x-protobuf"@) == "application/x-protobuf"@,
{
    reveal_strlit("application/x-protobuf");
    assert(ascii_lowered("application/x-protobuf"@) =~= "application/x-protobuf"@);
}

/// A request is taken exactly where its media type is that of OTLP, whatever its parameters and its
/// case; its body is compressed exactly where its encoding is gzip, is not where it has none, and every
/// other encoding is refused. Both refusals are of an unsupported type.
pub proof fn law_requests_are_taken_by_their_headers(raw: Seq<char>)
    ensures
        content_type_failure(None) is Some && content_type_failure(None)->0.status == 415,
        content_type_failure(Some(raw)) is None <==> ascii_lowered(entry_name(raw)) == "application/x-protobuf"@,
        content_type_failure(Some(raw)) is Some ==> content_type_failure(Some(raw))->0.status == 415,
        encoding_of(None) == Ok::<bool, FailureView>(false),
        encoding_of(Some(raw)) == Ok::<bool, FailureView>(true) <==> trimmed(raw) == "gzip"@,
        encoding_of(Some(raw)) == Ok::<bool, FailureView>(false) <==> trimmed(raw).len() == 0 || trimmed(raw)
            == "identity"@,
        encoding_of(Some(raw)) matches Err(e) ==> e.status == 415,
{
    lemma_protobuf_lowered();
    reveal_strlit("gzip");
    reveal_strlit("identity");
    assert("gzip"@.len() == 4 && "identity"@.len() == 8);
}

/// A body that is not compressed is taken as it is. One that is, is taken as far as the limit goes and
/// not cut off there: what is larger is refused as too large, and what is no stream as a bad request.
pub proof fn law_a_payload_is_whole_or_refused(wire: Seq<u8>, limit: nat, result: Result<Seq<u8>, Seq<char>>)
    ensures
        payload_of(wire, false, limit) == Ok::<Seq<u8>, FailureView>(wire),
        payload_of(wire, true, limit) == within_limit(gunzipped(wire, limit + 1), limit),
        match result {
            Ok(bytes) => {
                &&& bytes.len() <= limit ==> within_limit(result, limit) == Ok::<Seq<u8>, FailureView>(bytes)
                &&& bytes.len() > limit ==> (within_limit(result, limit) matches Err(e) && e.status == 413)
            },
            Err(_) => within_limit(result, limit) matches Err(e) && e.status == 400,
        },
{
}

} // verus!
