//! API keys: the token an operator hands out, and the hash that is stored of it.
//!
//! A token has two halves. The id is public: a request is looked up by it. The secret is never
//! stored; only a hash of it is, so that what is stored authenticates nobody. The secret is 32 bytes
//! of randomness, which no search can find from the hash, however fast the hash is.

use vstd::prelude::*;
use vstd::utf8::{encode_utf8, is_ascii_chars, is_ascii_chars_encode_utf8};

use crate::bytes::put;
use crate::content_id::{blake3_hash, blake3_of};
use crate::hex::{
    hex, hex_digit, hex_text, law_hex_has_one_spelling, law_hex_round_trip, lemma_hex_text, unhex,
    unhexed,
};
use crate::text::{
    after, ascii_lowered, before, begins_with, first_index, has_prefix, lemma_first_index,
    lemma_first_index_unique, same_ignoring_ascii_case, split_once, tail_from, trim, trimmed,
};

verus! {

/// Marks a token as one of these wherever it turns up.
pub const PREFIX: &'static str = "mpk_";

pub const ID_BYTES: usize = 8;

pub const SECRET_BYTES: usize = 32;

/// The randomness that one token needs.
pub const TOKEN_BYTES: usize = 40;

/// Stands before the secret in what is hashed, so that no such hash is the identity of something
/// else.
pub const DOMAIN: &'static str = "monitoring-platform/api-key/v1";

/// Stands before a password in what is hashed, so that no password is hashed as the secret of a key.
pub const PASSWORD_DOMAIN: &'static str = "monitoring-platform/password/v1";

/// A token: the text of its id, and the bytes of its secret.
#[verifier::ext_equal]
pub struct TokenView {
    pub id: Seq<char>,
    pub secret: Seq<u8>,
}

impl TokenView {
    /// The id is the spelling of eight bytes, the secret is 32 bytes.
    pub open spec fn valid(self) -> bool {
        &&& unhexed(self.id, ID_BYTES as nat) is Some
        &&& self.secret.len() == SECRET_BYTES
    }
}

/// A token as a client presents it.
pub struct Token {
    id: String,
    secret: [u8; 32],
}

impl View for Token {
    type V = TokenView;

    closed spec fn view(&self) -> TokenView {
        TokenView { id: self.id@, secret: self.secret@ }
    }
}

/// What is hashed of a secret.
pub open spec fn hashed_bytes(secret: Seq<u8>) -> Seq<u8> {
    encode_utf8(DOMAIN@) + secret
}

/// What is hashed of a password.
pub open spec fn hashed_password_bytes(password: Seq<char>) -> Seq<u8> {
    encode_utf8(PASSWORD_DOMAIN@) + encode_utf8(password)
}

/// The one string that a client is configured with.
pub open spec fn secret_string(t: TokenView) -> Seq<char> {
    PREFIX@ + t.id + seq!['.'] + hex_text(t.secret)
}

/// What may be printed of a token.
pub open spec fn description(id: Seq<char>) -> Seq<char> {
    "Token { id: \""@ + id + "\", secret: <redacted> }"@
}

impl Token {
    #[verifier::type_invariant]
    spec fn inv(self) -> bool {
        unhexed(self.id@, ID_BYTES as nat) is Some
    }

    /// Splits the randomness into the two halves.
    pub fn from_random(bytes: &[u8; 40]) -> (r: Token)
        ensures
            r@.id == hex_text(bytes@.take(ID_BYTES as int)),
            r@.secret == bytes@.skip(ID_BYTES as int),
            r@.valid(),
    {
        let mut id: [u8; 8] = [0u8; 8];
        let mut i: usize = 0;
        while i < ID_BYTES
            invariant
                i <= ID_BYTES,
                forall|j: int| 0 <= j < i ==> #[trigger] id@[j] == bytes@[j],
            decreases ID_BYTES - i,
        {
            id[i] = bytes[i];
            i += 1;
        }
        let mut secret: [u8; 32] = [0u8; 32];
        let mut k: usize = 0;
        while k < SECRET_BYTES
            invariant
                k <= SECRET_BYTES,
                forall|j: int| 0 <= j < k ==> #[trigger] secret@[j] == bytes@[j + 8],
            decreases SECRET_BYTES - k,
        {
            secret[k] = bytes[k + ID_BYTES];
            k += 1;
        }
        proof {
            assert(id@ =~= bytes@.take(ID_BYTES as int));
            assert(secret@ =~= bytes@.skip(ID_BYTES as int));
            law_hex_round_trip(id@);
        }
        Token { id: hex(&id), secret }
    }

    /// The public half.
    pub fn id(&self) -> (r: &str)
        ensures
            r@ == self@.id,
            self@.valid(),
    {
        proof {
            use_type_invariant(self);
        }
        self.id.as_str()
    }

    /// What is stored of the token.
    pub fn secret_hash(&self) -> (r: [u8; 32])
        ensures
            r@ == blake3_of(hashed_bytes(self@.secret)),
    {
        hash_secret(&self.secret)
    }

    /// The one string that a client is configured with. It is shown when the key is made, and cannot
    /// be had again.
    pub fn to_secret_string(&self) -> (r: String)
        ensures
            r@ == secret_string(self@),
            self@.valid(),
    {
        proof {
            use_type_invariant(self);
        }
        let mut out = PREFIX.to_owned();
        out.append(self.id.as_str());
        out.push('.');
        out.append(hex(&self.secret).as_str());
        assert(out@ =~= secret_string(self@));
        out
    }

    /// A text for the log. It depends on the id alone, so the secret cannot leak through it.
    pub fn describe(&self) -> (r: String)
        ensures
            r@ == description(self@.id),
    {
        let mut out = "Token { id: \"".to_owned();
        out.append(self.id.as_str());
        out.append("\", secret: <redacted> }");
        out
    }
}

impl Clone for Token {
    fn clone(&self) -> (r: Self)
        ensures
            r@ == self@,
    {
        proof {
            use_type_invariant(self);
        }
        Token { id: self.id.as_str().to_owned(), secret: self.secret }
    }
}

/// Why a token could not be used. Nothing of what was presented is in it.
#[derive(Debug, Clone, Copy, PartialEq, Eq, Structural)]
pub enum Malformed {
    /// The header is there, but is not text.
    NotText,
    /// Not an `Authorization: Bearer ..` header.
    NotBearer,
    MissingPrefix,
    /// No `.` between the two halves.
    NotTwoParts,
    BadId,
    BadSecret,
}

/// The words for each way a token can be malformed.
pub open spec fn reason_text(m: Malformed) -> Seq<char> {
    match m {
        Malformed::NotText => "the Authorization header is not valid text"@,
        Malformed::NotBearer => "expected an `Authorization: Bearer <token>` header"@,
        Malformed::MissingPrefix => "an API key starts with `mpk_`"@,
        Malformed::NotTwoParts => "an API key is an id and a secret separated by `.`"@,
        Malformed::BadId => "the id half is not 16 lowercase hex digits"@,
        Malformed::BadSecret => "the secret half is not 64 lowercase hex digits"@,
    }
}

impl Malformed {
    /// Describes the shape and never the value, so it may be logged and returned.
    pub fn reason(self) -> (r: &'static str)
        ensures
            r@ == reason_text(self),
    {
        match self {
            Malformed::NotText => "the Authorization header is not valid text",
            Malformed::NotBearer => "expected an `Authorization: Bearer <token>` header",
            Malformed::MissingPrefix => "an API key starts with `mpk_`",
            Malformed::NotTwoParts => "an API key is an id and a secret separated by `.`",
            Malformed::BadId => "the id half is not 16 lowercase hex digits",
            Malformed::BadSecret => "the secret half is not 64 lowercase hex digits",
        }
    }
}

/// The token that a text writes, or what is wrong with the text.
pub open spec fn parsed(raw: Seq<char>) -> Result<TokenView, Malformed> {
    let body = raw.skip(PREFIX@.len() as int);
    let id = before(body, '.');
    if !begins_with(raw, PREFIX@) {
        Err(Malformed::MissingPrefix)
    } else if first_index(body, '.') >= body.len() {
        Err(Malformed::NotTwoParts)
    } else if unhexed(id, ID_BYTES as nat) is None {
        Err(Malformed::BadId)
    } else {
        match unhexed(after(body, '.'), SECRET_BYTES as nat) {
            Some(secret) => Ok(TokenView { id, secret }),
            None => Err(Malformed::BadSecret),
        }
    }
}

/// The token in an `Authorization` header: behind the scheme `bearer`, in whatever case.
pub open spec fn parsed_header(value: Seq<char>) -> Result<TokenView, Malformed> {
    if first_index(value, ' ') >= value.len() {
        Err(Malformed::NotBearer)
    } else if ascii_lowered(before(value, ' ')) != ascii_lowered("bearer"@) {
        Err(Malformed::NotBearer)
    } else {
        parsed(trimmed(after(value, ' ')))
    }
}

/// The token in the value of an `Authorization` header.
pub fn from_authorization(value: &str) -> (r: Result<Token, Malformed>)
    ensures
        match parsed_header(value@) {
            Ok(t) => r matches Ok(token) && token@ == t && t.valid(),
            Err(e) => r == Err::<Token, Malformed>(e),
        },
{
    let (scheme, rest) = split_once(value, ' ');
    match rest {
        None => Err(Malformed::NotBearer),
        Some(rest) => if !same_ignoring_ascii_case(scheme, "bearer") {
            Err(Malformed::NotBearer)
        } else {
            parse(trim(rest))
        },
    }
}

/// A bare token, without the scheme of the header.
pub fn parse(raw: &str) -> (r: Result<Token, Malformed>)
    ensures
        match parsed(raw@) {
            Ok(t) => r matches Ok(token) && token@ == t && t.valid(),
            Err(e) => r == Err::<Token, Malformed>(e),
        },
{
    if !has_prefix(raw, PREFIX) {
        return Err(Malformed::MissingPrefix);
    }
    let body = tail_from(raw, PREFIX.unicode_len());
    let (id, rest) = split_once(body, '.');
    match rest {
        None => Err(Malformed::NotTwoParts),
        Some(text) => match unhex(id, ID_BYTES) {
            None => Err(Malformed::BadId),
            Some(_) => match unhex(text, SECRET_BYTES) {
                None => Err(Malformed::BadSecret),
                Some(bytes) => {
                    let mut secret: [u8; 32] = [0u8; 32];
                    let mut k: usize = 0;
                    while k < SECRET_BYTES
                        invariant
                            k <= SECRET_BYTES,
                            bytes@.len() == SECRET_BYTES,
                            forall|j: int| 0 <= j < k ==> #[trigger] secret@[j] == bytes@[j],
                        decreases SECRET_BYTES - k,
                    {
                        secret[k] = bytes[k];
                        k += 1;
                    }
                    assert(secret@ =~= bytes@);
                    Ok(Token { id: id.to_owned(), secret })
                },
            },
        },
    }
}

/// The hash of a secret, behind the domain.
pub fn hash_secret(secret: &[u8]) -> (r: [u8; 32])
    ensures
        r@ == blake3_of(hashed_bytes(secret@)),
{
    let mut bytes: Vec<u8> = Vec::new();
    put(&mut bytes, DOMAIN.as_bytes());
    put(&mut bytes, secret);
    assert(bytes@ =~= hashed_bytes(secret@));
    blake3_hash(bytes.as_slice())
}

/// What is stored of a password: its hash, behind a domain of its own.
pub fn hash_password(password: &str) -> (r: [u8; 32])
    ensures
        r@ == blake3_of(hashed_password_bytes(password@)),
{
    let mut bytes: Vec<u8> = Vec::new();
    put(&mut bytes, PASSWORD_DOMAIN.as_bytes());
    put(&mut bytes, password.as_bytes());
    assert(bytes@ =~= hashed_password_bytes(password@));
    blake3_hash(bytes.as_slice())
}

/// No password is hashed as the secret of a key is, whatever the two are.
pub proof fn law_passwords_are_hashed_apart(password: Seq<char>, secret: Seq<u8>)
    ensures
        hashed_password_bytes(password) != hashed_bytes(secret),
{
    reveal_strlit("monitoring-platform/api-key/v1");
    reveal_strlit("monitoring-platform/password/v1");
    assert(is_ascii_chars(DOMAIN@));
    assert(is_ascii_chars(PASSWORD_DOMAIN@));
    is_ascii_chars_encode_utf8(DOMAIN@);
    is_ascii_chars_encode_utf8(PASSWORD_DOMAIN@);
    assert(DOMAIN@[20] == 'a' && PASSWORD_DOMAIN@[20] == 'p');
    assert(hashed_bytes(secret)[20] == 'a' as u8);
    assert(hashed_password_bytes(password)[20] == 'p' as u8);
}

/// `blake3::Hash`'s `==`: whether two hashes are the same, in a time that does not depend on where
/// they differ.
#[verifier::external_body]
pub(crate) fn same_hash(a: &[u8; 32], b: &[u8; 32]) -> (r: bool)
    ensures
        r == (a@ == b@),
{
    blake3::Hash::from_bytes(*a) == blake3::Hash::from_bytes(*b)
}

/// The text between the prefix and the end, taken apart.
proof fn lemma_secret_string_parts(t: TokenView)
    requires
        t.valid(),
    ensures
        begins_with(secret_string(t), PREFIX@),
        ({
            let body = secret_string(t).skip(PREFIX@.len() as int);
            &&& first_index(body, '.') == t.id.len()
            &&& t.id.len() < body.len()
            &&& before(body, '.') == t.id
            &&& after(body, '.') == hex_text(t.secret)
        }),
{
    let s = secret_string(t);
    let body = s.skip(PREFIX@.len() as int);
    let id_bytes = unhexed(t.id, ID_BYTES as nat)->0;
    law_hex_has_one_spelling(t.id, ID_BYTES as nat);
    lemma_hex_text(id_bytes);
    assert(s.take(PREFIX@.len() as int) =~= PREFIX@);
    assert(body =~= t.id + seq!['.'] + hex_text(t.secret));
    assert forall|i: int| 0 <= i < t.id.len() implies #[trigger] body[i] != '.' by {
        assert(body[i] == t.id[i]);
        assert(t.id[i] == hex_digit(if i % 2 == 0 { id_bytes[i / 2] / 16 } else { id_bytes[i / 2] % 16 }));
    }
    lemma_first_index_unique(body, '.', t.id.len() as int);
    assert(before(body, '.') =~= t.id);
    assert(after(body, '.') =~= hex_text(t.secret));
}

/// A token is read back from the string it was written as.
pub proof fn law_token_round_trip(t: TokenView)
    requires
        t.valid(),
    ensures
        parsed(secret_string(t)) == Ok::<TokenView, Malformed>(t),
{
    lemma_secret_string_parts(t);
    law_hex_round_trip(t.secret);
}

/// A token has one spelling: whatever reads as it is the string it is written as. So no secret can
/// be presented in two ways that hash differently.
pub proof fn law_token_has_one_spelling(raw: Seq<char>)
    requires
        parsed(raw) is Ok,
    ensures
        raw == secret_string(parsed(raw)->Ok_0),
{
    let t = parsed(raw)->Ok_0;
    let body = raw.skip(PREFIX@.len() as int);
    let at = first_index(body, '.');
    lemma_first_index(body, '.');
    law_hex_has_one_spelling(after(body, '.'), SECRET_BYTES as nat);
    assert(raw =~= raw.take(PREFIX@.len() as int) + body);
    assert(body =~= body.take(at) + seq!['.'] + body.skip(at + 1));
    assert(raw =~= secret_string(t));
}

/// The two halves of a token come from disjoint randomness: the id does not tell of the secret, nor
/// the secret of the id.
pub proof fn law_halves_are_disjoint(a: Seq<u8>, b: Seq<u8>)
    requires
        a.len() == TOKEN_BYTES,
        b.len() == TOKEN_BYTES,
    ensures
        (forall|i: int| 0 <= i < ID_BYTES ==> a[i] == b[i]) <==> hex_text(a.take(ID_BYTES as int)) == hex_text(
            b.take(ID_BYTES as int),
        ),
        (forall|i: int| ID_BYTES <= i < TOKEN_BYTES ==> a[i] == b[i]) <==> a.skip(ID_BYTES as int) == b.skip(
            ID_BYTES as int,
        ),
{
    let x = a.take(ID_BYTES as int);
    let y = b.take(ID_BYTES as int);
    law_hex_round_trip(x);
    law_hex_round_trip(y);
    if hex_text(x) == hex_text(y) {
        assert(x == y);
        assert forall|i: int| 0 <= i < ID_BYTES implies a[i] == b[i] by {
            assert(x[i] == a[i] && y[i] == b[i]);
        }
    }
    if forall|i: int| 0 <= i < ID_BYTES ==> a[i] == b[i] {
        assert(x =~= y);
    }
    let s = a.skip(ID_BYTES as int);
    let t = b.skip(ID_BYTES as int);
    if s == t {
        assert forall|i: int| ID_BYTES <= i < TOKEN_BYTES implies a[i] == b[i] by {
            assert(s[i - 8] == a[i] && t[i - 8] == b[i]);
        }
    }
    if forall|i: int| ID_BYTES <= i < TOKEN_BYTES ==> a[i] == b[i] {
        assert(s =~= t);
    }
}

} // verus!
