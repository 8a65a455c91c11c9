//! Base64: three bytes as four characters of six bits each.

use vstd::prelude::*;

verus! {

/// Which characters stand for the last two values.
pub enum Alphabet {
    /// `+` and `/`.
    Standard,
    /// `-` and `_`, which stand for themselves in a URL.
    UrlSafe,
}

/// The character of a value below 64.
pub open spec fn symbol(n: int, alphabet: Alphabet) -> char {
    if n < 26 {
        (65 + n) as u8 as char
    } else if n < 52 {
        (71 + n) as u8 as char
    } else if n < 62 {
        (n - 4) as u8 as char
    } else {
        match (alphabet, n == 62) {
            (Alphabet::Standard, true) => '+',
            (Alphabet::Standard, false) => '/',
            (Alphabet::UrlSafe, true) => '-',
            (Alphabet::UrlSafe, false) => '_',
        }
    }
}

/// The bytes in base64: bits that are missing at the end are zero, and where `padded` the length is
/// made a multiple of four with `=`.
pub open spec fn base64_text(bytes: Seq<u8>, alphabet: Alphabet, padded: bool) -> Seq<char>
    decreases bytes.len(),
{
    let a = bytes[0] as int;
    let b = bytes[1] as int;
    let c = bytes[2] as int;
    if bytes.len() == 0 {
        Seq::empty()
    } else if bytes.len() == 1 {
        let text = seq![symbol(a / 4, alphabet), symbol(a % 4 * 16, alphabet)];
        if padded {
            text.push('=').push('=')
        } else {
            text
        }
    } else if bytes.len() == 2 {
        let text = seq![
            symbol(a / 4, alphabet),
            symbol(a % 4 * 16 + b / 16, alphabet),
            symbol(b % 16 * 4, alphabet),
        ];
        if padded {
            text.push('=')
        } else {
            text
        }
    } else {
        seq![
            symbol(a / 4, alphabet),
            symbol(a % 4 * 16 + b / 16, alphabet),
            symbol(b % 16 * 4 + c / 64, alphabet),
            symbol(c % 64, alphabet),
        ] + base64_text(bytes.skip(3), alphabet, padded)
    }
}

/// Whether a character stands for itself in a query string.
pub open spec fn is_url_safe(c: char) -> bool {
    ('a' <= c <= 'z') || ('A' <= c <= 'Z') || ('0' <= c <= '9') || c == '-' || c == '_'
}

pub open spec fn all_url_safe(s: Seq<char>) -> bool {
    forall|i: int| 0 <= i < s.len() ==> is_url_safe(#[trigger] s[i])
}

/// The bytes in base64 without padding, with the alphabet that is safe in a URL.
pub open spec fn base64_url_of(bytes: Seq<u8>) -> Seq<char> {
    base64_text(bytes, Alphabet::UrlSafe, false)
}

proof fn lemma_symbols_differ(m: int, n: int)
    requires
        0 <= m < 64,
        0 <= n < 64,
        symbol(m, Alphabet::UrlSafe) == symbol(n, Alphabet::UrlSafe),
    ensures
        m == n,
{
}

proof fn lemma_symbol_is_safe(n: int)
    requires
        0 <= n < 64,
    ensures
        is_url_safe(symbol(n, Alphabet::UrlSafe)),
{
}

/// What is written with the alphabet that is safe in a URL is safe in one.
pub proof fn law_base64_is_url_safe(bytes: Seq<u8>)
    ensures
        all_url_safe(base64_url_of(bytes)),
    decreases bytes.len(),
{
    let a = bytes[0] as int;
    let b = bytes[1] as int;
    let c = bytes[2] as int;
    lemma_symbol_is_safe(a / 4);
    lemma_symbol_is_safe(a % 4 * 16);
    lemma_symbol_is_safe(a % 4 * 16 + b / 16);
    lemma_symbol_is_safe(b % 16 * 4);
    lemma_symbol_is_safe(b % 16 * 4 + c / 64);
    lemma_symbol_is_safe(c % 64);
    if bytes.len() > 2 {
        let rest = base64_url_of(bytes.skip(3));
        law_base64_is_url_safe(bytes.skip(3));
        assert forall|i: int| 0 <= i < base64_url_of(bytes).len() implies is_url_safe(
            #[trigger] base64_url_of(bytes)[i],
        ) by {
            if i >= 4 {
                assert(base64_url_of(bytes)[i] == rest[i - 4]);
            }
        }
    }
}

/// Different bytes are written differently, so that a text is decoded in one way only.
pub proof fn law_base64_tells_bytes_apart(x: Seq<u8>, y: Seq<u8>)
    requires
        base64_url_of(x) == base64_url_of(y),
    ensures
        x == y,
    decreases x.len(),
{
    let s = base64_url_of(x);
    let t = base64_url_of(y);
    if x.len() > 2 {
        assert(s.len() >= 4);
    }
    if y.len() > 2 {
        assert(t.len() >= 4);
    }
    if x.len() == 0 || y.len() == 0 {
        assert(x =~= y);
    } else {
        let (a, b, c) = (x[0] as int, x[1] as int, x[2] as int);
        let (d, e, f) = (y[0] as int, y[1] as int, y[2] as int);
        assert(s[0] == t[0] && s[1] == t[1]);
        lemma_symbols_differ(a / 4, d / 4);
        if x.len() == 1 {
            lemma_symbols_differ(a % 4 * 16, d % 4 * 16);
            assert(x =~= y);
        } else if x.len() == 2 {
            assert(s[2] == t[2]);
            lemma_symbols_differ(a % 4 * 16 + b / 16, d % 4 * 16 + e / 16);
            lemma_symbols_differ(b % 16 * 4, e % 16 * 4);
            assert(x =~= y);
        } else {
            assert(s[2] == t[2] && s[3] == t[3]);
            lemma_symbols_differ(a % 4 * 16 + b / 16, d % 4 * 16 + e / 16);
            lemma_symbols_differ(b % 16 * 4 + c / 64, e % 16 * 4 + f / 64);
            lemma_symbols_differ(c % 64, f % 64);
            assert(s.skip(4) =~= base64_url_of(x.skip(3)));
            assert(t.skip(4) =~= base64_url_of(y.skip(3)));
            law_base64_tells_bytes_apart(x.skip(3), y.skip(3));
            assert(x =~= seq![x[0], x[1], x[2]] + x.skip(3));
            assert(y =~= seq![y[0], y[1], y[2]] + y.skip(3));
        }
    }
}

} // verus!
