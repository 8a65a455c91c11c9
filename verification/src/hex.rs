//! Bytes written in hexadecimal.

use vstd::prelude::*;
use vstd::utf8::{encode_utf8, is_ascii_chars, is_ascii_chars_encode_utf8};

use crate::bytes::bytes_before;
use crate::text::{lemma_utf8_injective, text_before};

verus! {

/// The lower-case hexadecimal digit of `d`.
pub open spec fn hex_digit(d: u8) -> char {
    if d < 10 {
        (48 + d) as u8 as char
    } else {
        (87 + d) as u8 as char
    }
}

/// Two lower-case digits for each byte.
pub open spec fn hex_text(bytes: Seq<u8>) -> Seq<char>
    decreases bytes.len(),
{
    if bytes.len() == 0 {
        Seq::empty()
    } else {
        hex_text(bytes.drop_last()).push(hex_digit(bytes.last() / 16)).push(hex_digit(bytes.last() % 16))
    }
}

fn digit_char(d: u8) -> (r: char)
    requires
        d < 16,
    ensures
        r == hex_digit(d),
{
    if d < 10 {
        (48 + d) as char
    } else {
        (87 + d) as char
    }
}

/// Two lower-case digits for each byte.
pub fn hex(bytes: &[u8]) -> (r: String)
    ensures
        r@ == hex_text(bytes@),
{
    let mut out = String::new();
    let mut i: usize = 0;
    assert(bytes@.take(0) =~= Seq::<u8>::empty());
    while i < bytes.len()
        invariant
            i <= bytes@.len(),
            out@ == hex_text(bytes@.take(i as int)),
        decreases bytes.len() - i,
    {
        proof {
            assert(bytes@.take(i + 1).drop_last() =~= bytes@.take(i as int));
        }
        out.push(digit_char(bytes[i] / 16));
        out.push(digit_char(bytes[i] % 16));
        i += 1;
    }
    proof {
        assert(bytes@.take(i as int) =~= bytes@);
    }
    out
}

/// The value of a lower-case hexadecimal digit.
pub open spec fn nibble_of(c: u8) -> Option<u8> {
    if 48 <= c <= 57 {
        Some((c - 48) as u8)
    } else if 97 <= c <= 102 {
        Some((c - 87) as u8)
    } else {
        None
    }
}

pub fn nibble(c: u8) -> (r: Option<u8>)
    ensures
        r == nibble_of(c),
{
    if 48 <= c && c <= 57 {
        Some(c - 48)
    } else if 97 <= c && c <= 102 {
        Some(c - 87)
    } else {
        None
    }
}

/// Whether all of `b` are lower-case hexadecimal digits.
pub open spec fn all_nibbles(b: Seq<u8>) -> bool {
    forall|i: int| 0 <= i < b.len() ==> nibble_of(#[trigger] b[i]) is Some
}

/// The bytes that pairs of digits write.
pub open spec fn paired(b: Seq<u8>, n: nat) -> Seq<u8> {
    Seq::new(n, |i: int| (nibble_of(b[2 * i])->0 * 16 + nibble_of(b[2 * i + 1])->0) as u8)
}

/// The `n` bytes that `s` writes, if it is exactly `2 n` lower-case hexadecimal digits.
pub open spec fn unhexed(s: Seq<char>, n: nat) -> Option<Seq<u8>> {
    let b = encode_utf8(s);
    if b.len() == 2 * n && all_nibbles(b) {
        Some(paired(b, n))
    } else {
        None
    }
}

/// The `n` bytes that `s` writes.
pub fn unhex(s: &str, n: usize) -> (r: Option<Vec<u8>>)
    ensures
        match unhexed(s@, n as nat) {
            Some(bytes) => r matches Some(v) && v@ == bytes,
            None => r is None,
        },
{
    let b = s.as_bytes();
    let len: usize = b.len();
    if len % 2 != 0 || len / 2 != n {
        return None;
    }
    let mut out: Vec<u8> = Vec::new();
    let mut i: usize = 0;
    while i < n
        invariant
            b@ == encode_utf8(s@),
            b@.len() == len,
            len == 2 * n,
            i <= n,
            out@.len() == i,
            forall|j: int| 0 <= j < 2 * i ==> nibble_of(#[trigger] b@[j]) is Some,
            forall|j: int| 0 <= j < i ==> #[trigger] out@[j] == paired(b@, n as nat)[j],
        decreases n - i,
    {
        match (nibble(b[2 * i]), nibble(b[2 * i + 1])) {
            (Some(x), Some(y)) => {
                out.push(x * 16 + y);
            },
            _ => {
                assert(nibble_of(b@[2 * i]) is None || nibble_of(b@[2 * i + 1]) is None);
                return None;
            },
        }
        i += 1;
    }
    assert(out@ =~= paired(b@, n as nat));
    Some(out)
}

pub proof fn lemma_hex_text(bytes: Seq<u8>)
    ensures
        hex_text(bytes).len() == 2 * bytes.len(),
        forall|i: int|
            0 <= i < bytes.len() ==> #[trigger] hex_text(bytes)[2 * i] == hex_digit(bytes[i] / 16) && hex_text(
                bytes,
            )[2 * i + 1] == hex_digit(bytes[i] % 16),
        forall|i: int|
            0 <= i < hex_text(bytes).len() ==> #[trigger] hex_text(bytes)[i] == hex_digit(
                if i % 2 == 0 { bytes[i / 2] / 16 } else { bytes[i / 2] % 16 },
            ),
    decreases bytes.len(),
{
    if bytes.len() > 0 {
        let front = bytes.drop_last();
        lemma_hex_text(front);
        let t = hex_text(bytes);
        assert forall|i: int| 0 <= i < t.len() implies #[trigger] t[i] == hex_digit(
            if i % 2 == 0 { bytes[i / 2] / 16 } else { bytes[i / 2] % 16 },
        ) by {
            if i < 2 * front.len() {
                assert(t[i] == hex_text(front)[i]);
                assert(front[i / 2] == bytes[i / 2]);
            }
        }
    }
}

/// The bytes of a hexadecimal text are its characters.
pub proof fn lemma_hex_bytes(bytes: Seq<u8>)
    ensures
        encode_utf8(hex_text(bytes)).len() == 2 * bytes.len(),
        forall|i: int|
            0 <= i < 2 * bytes.len() ==> #[trigger] encode_utf8(hex_text(bytes))[i] == hex_text(bytes)[i] as u8,
{
    lemma_hex_text(bytes);
    let t = hex_text(bytes);
    assert forall|i: int| 0 <= i < t.len() implies (#[trigger] t[i] as nat) < 128 by {}
    assert(is_ascii_chars(t));
    is_ascii_chars_encode_utf8(t);
}

/// Reading what was written gives the bytes back.
pub proof fn law_hex_round_trip(bytes: Seq<u8>)
    ensures
        unhexed(hex_text(bytes), bytes.len()) == Some(bytes),
{
    lemma_hex_text(bytes);
    lemma_hex_bytes(bytes);
    let b = encode_utf8(hex_text(bytes));
    assert forall|i: int| 0 <= i < b.len() implies nibble_of(#[trigger] b[i]) is Some by {
        assert(b[i] == hex_text(bytes)[i] as u8);
    }
    assert forall|i: int| 0 <= i < bytes.len() implies paired(b, bytes.len())[i] == bytes[i] by {
        assert(b[2 * i] == hex_text(bytes)[2 * i] as u8);
        assert(b[2 * i + 1] == hex_text(bytes)[2 * i + 1] as u8);
    }
    assert(paired(b, bytes.len()) =~= bytes);
}

/// Hexadecimal keeps the order of bytes: the texts of two identities stand in the order of the
/// identities.
pub proof fn law_hex_keeps_order(a: Seq<u8>, b: Seq<u8>)
    requires
        a.len() == b.len(),
    ensures
        text_before(hex_text(a), hex_text(b)) <==> bytes_before(a, b),
    decreases a.len(),
{
    lemma_hex_text(a);
    lemma_hex_text(b);
    if a.len() > 0 {
        let x = a.drop_first();
        let y = b.drop_first();
        law_hex_keeps_order(x, y);
        lemma_hex_text(x);
        lemma_hex_text(y);
        let s = hex_text(a);
        let t = hex_text(b);
        assert forall|i: int| 0 <= i < hex_text(x).len() implies hex_text(x)[i] == s.skip(2)[i] by {
            assert((i + 2) / 2 == i / 2 + 1);
            assert(s[i + 2] == s.skip(2)[i]);
        }
        assert forall|i: int| 0 <= i < hex_text(y).len() implies hex_text(y)[i] == t.skip(2)[i] by {
            assert((i + 2) / 2 == i / 2 + 1);
            assert(t[i + 2] == t.skip(2)[i]);
        }
        assert(s.skip(2) =~= hex_text(x));
        assert(t.skip(2) =~= hex_text(y));
        assert(s.drop_first().drop_first() =~= s.skip(2));
        assert(t.drop_first().drop_first() =~= t.skip(2));
        reveal_with_fuel(text_before, 3);
        assert(s[0] == hex_digit(a[0] / 16) && s.drop_first()[0] == hex_digit(a[0] % 16));
        assert(t[0] == hex_digit(b[0] / 16) && t.drop_first()[0] == hex_digit(b[0] % 16));
    }
}

/// Bytes are written in one way only: a text that reads as some bytes is the text that they write.
pub proof fn law_hex_has_one_spelling(s: Seq<char>, n: nat)
    requires
        unhexed(s, n) is Some,
    ensures
        s == hex_text(unhexed(s, n)->0),
{
    let b = encode_utf8(s);
    let bytes = unhexed(s, n)->0;
    let t = encode_utf8(hex_text(bytes));
    lemma_hex_text(bytes);
    lemma_hex_bytes(bytes);
    assert forall|i: int| 0 <= i < b.len() implies #[trigger] b[i] == t[i] by {
        let h = i / 2;
        assert(nibble_of(b[2 * h]) is Some);
        assert(nibble_of(b[2 * h + 1]) is Some);
        assert(bytes[h] == (nibble_of(b[2 * h])->0 * 16 + nibble_of(b[2 * h + 1])->0) as u8);
        assert(t[i] == hex_text(bytes)[i] as u8);
        if i % 2 == 0 {
            assert(i == 2 * h);
            assert(hex_text(bytes)[i] == hex_digit(bytes[h] / 16));
        } else {
            assert(i == 2 * h + 1);
            assert(hex_text(bytes)[i] == hex_digit(bytes[h] % 16));
        }
    }
    assert(b =~= t);
    lemma_utf8_injective(s, hex_text(bytes));
}

} // verus!
