//! Text as a sequence of characters: the few operations on strings the rest of the library needs,
//! each stated over `Seq<char>`.

use vstd::prelude::*;
use vstd::utf8::{encode_utf8, encode_utf8_decode_utf8};

verus! {

/// `String::push`: appends one character at the end.
pub assume_specification[ String::push ](s: &mut String, c: char)
    ensures
        final(s)@ == old(s)@.push(c),
;

/// `<str as PartialEq>::eq`: two string slices are equal when they hold the same characters.
pub assume_specification[ <str as PartialEq>::eq ](a: &str, b: &str) -> (r: bool)
    ensures
        r == (a@ == b@),
;

/// The characters with the Unicode `White_Space` property.
pub open spec fn is_white(c: char) -> bool {
    let u = c as u32;
    ||| 0x9 <= u <= 0xd
    ||| u == 0x20
    ||| u == 0x85
    ||| u == 0xa0
    ||| u == 0x1680
    ||| 0x2000 <= u <= 0x200a
    ||| u == 0x2028
    ||| u == 0x2029
    ||| u == 0x202f
    ||| u == 0x205f
    ||| u == 0x3000
}

/// `char::is_whitespace`: the Unicode `White_Space` property, whose characters [`is_white`] lists.
pub assume_specification[ char::is_whitespace ](c: char) -> (r: bool)
    ensures
        r == is_white(c),
;

/// Whether `s` begins with `prefix`.
pub open spec fn begins_with(s: Seq<char>, prefix: Seq<char>) -> bool {
    s.len() >= prefix.len() && s.take(prefix.len() as int) == prefix
}

/// `s` without its leading white space.
pub open spec fn trim_start(s: Seq<char>) -> Seq<char>
    decreases s.len(),
{
    if s.len() > 0 && is_white(s[0]) {
        trim_start(s.drop_first())
    } else {
        s
    }
}

/// `s` without its trailing white space.
pub open spec fn trim_end(s: Seq<char>) -> Seq<char>
    decreases s.len(),
{
    if s.len() > 0 && is_white(s.last()) {
        trim_end(s.drop_last())
    } else {
        s
    }
}

/// `s` without white space at either end.
pub open spec fn trimmed(s: Seq<char>) -> Seq<char> {
    trim_end(trim_start(s))
}

/// The position of the first `c` in `s`, or the length of `s` where there is none.
pub open spec fn first_index(s: Seq<char>, c: char) -> int
    decreases s.len(),
{
    if s.len() == 0 || s[0] == c {
        0
    } else {
        1 + first_index(s.drop_first(), c)
    }
}

/// What stands before the first `c`, or all of `s` where there is none.
pub open spec fn before(s: Seq<char>, c: char) -> Seq<char> {
    s.take(first_index(s, c))
}

/// What stands after the first `c`.
pub open spec fn after(s: Seq<char>, c: char) -> Seq<char> {
    s.skip(first_index(s, c) + 1)
}

/// The pieces of `s` between the separators `c`; never empty, since a text without a separator is
/// one piece.
pub open spec fn pieces(s: Seq<char>, c: char) -> Seq<Seq<char>>
    decreases s.len(),
{
    if 0 <= first_index(s, c) < s.len() {
        seq![before(s, c)] + pieces(after(s, c), c)
    } else {
        seq![s]
    }
}

/// The lower-case form of an ASCII letter; every other character stands for itself.
pub open spec fn ascii_lower(c: char) -> char {
    if 'A' <= c <= 'Z' {
        ((c as u8) + 32) as u8 as char
    } else {
        c
    }
}

/// Character by character, [`ascii_lower`].
pub open spec fn ascii_lowered(s: Seq<char>) -> Seq<char> {
    Seq::new(s.len(), |i: int| ascii_lower(s[i]))
}

/// The decimal digit `d`, as a character.
pub open spec fn digit(d: nat) -> char {
    (48 + d) as u8 as char
}

/// `n` in decimal, without leading zeros.
pub open spec fn decimal(n: nat) -> Seq<char>
    decreases n,
{
    if n < 10 {
        seq![digit(n)]
    } else {
        decimal(n / 10).push(digit(n % 10))
    }
}

/// `n` in decimal, with a minus sign in front of a negative number.
pub open spec fn signed_decimal(n: int) -> Seq<char> {
    if n < 0 {
        seq!['-'] + decimal((-n) as nat)
    } else {
        decimal(n as nat)
    }
}

pub open spec fn is_digit(c: char) -> bool {
    '0' <= c <= '9'
}

pub open spec fn all_digits(s: Seq<char>) -> bool {
    forall|i: int| 0 <= i < s.len() ==> is_digit(#[trigger] s[i])
}

/// The number that the decimal digits of `s` write.
pub open spec fn digits_value(s: Seq<char>) -> nat
    decreases s.len(),
{
    if s.len() == 0 {
        0
    } else {
        digits_value(s.drop_last()) * 10 + (s.last() as u32 - 48) as nat
    }
}

/// The number a run of decimal digits writes; nothing for any other text.
pub open spec fn parsed_digits(s: Seq<char>) -> Option<nat> {
    if s.len() > 0 && all_digits(s) {
        Some(digits_value(s))
    } else {
        None
    }
}

/// The unsigned number below `2^64` that `s` writes in decimal, with or without a plus sign.
pub open spec fn parsed_u64(s: Seq<char>) -> Option<u64> {
    match parsed_digits(if s.len() > 0 && s[0] == '+' { s.drop_first() } else { s }) {
        Some(n) => if n <= u64::MAX { Some(n as u64) } else { None },
        None => None,
    }
}

/// The signed 64-bit number that `s` writes in decimal, with or without a sign.
pub open spec fn parsed_i64(s: Seq<char>) -> Option<i64> {
    if s.len() > 0 && s[0] == '-' {
        match parsed_digits(s.drop_first()) {
            Some(n) => if n <= 0x8000_0000_0000_0000 { Some((-n) as i64) } else { None },
            None => None,
        }
    } else {
        match parsed_digits(if s.len() > 0 && s[0] == '+' { s.drop_first() } else { s }) {
            Some(n) => if n <= i64::MAX { Some(n as i64) } else { None },
            None => None,
        }
    }
}

pub fn same_text(a: &str, b: &str) -> (r: bool)
    ensures
        r == (a@ == b@),
{
    *a == *b
}

pub fn chars_of(s: &str) -> (r: Vec<char>)
    ensures
        r@ == s@,
{
    let mut out: Vec<char> = Vec::new();
    for c in it: s.chars()
        invariant
            it.seq() == s@,
            out@ == s@.take(it.index()),
    {
        out.push(c);
    }
    out
}

pub fn text_of(chars: &[char]) -> (r: String)
    ensures
        r@ == chars@,
{
    let mut out = String::new();
    let mut i: usize = 0;
    while i < chars.len()
        invariant
            i <= chars.len(),
            out@ == chars@.take(i as int),
        decreases chars.len() - i,
    {
        out.push(chars[i]);
        i += 1;
        proof {
            assert(chars@.take(i as int) =~= chars@.take(i - 1).push(chars@[i - 1]));
        }
    }
    out
}

/// Two texts, one after the other.
pub fn joined(a: &str, b: &str) -> (r: String)
    ensures
        r@ == a@ + b@,
{
    let mut out = a.to_owned();
    out.append(b);
    out
}

/// What [`first_index`] finds.
pub proof fn lemma_first_index(s: Seq<char>, c: char)
    ensures
        0 <= first_index(s, c) <= s.len(),
        first_index(s, c) < s.len() ==> s[first_index(s, c)] == c,
        forall|i: int| 0 <= i < first_index(s, c) ==> #[trigger] s[i] != c,
    decreases s.len(),
{
    if s.len() > 0 && s[0] != c {
        let rest = s.drop_first();
        lemma_first_index(rest, c);
        assert forall|i: int| 0 <= i < first_index(s, c) implies #[trigger] s[i] != c by {
            if i > 0 {
                assert(s[i] == rest[i - 1]);
            }
        }
    }
}

/// Only the first occurrence answers [`first_index`].
pub proof fn lemma_first_index_unique(s: Seq<char>, c: char, k: int)
    requires
        0 <= k <= s.len(),
        k < s.len() ==> s[k] == c,
        forall|i: int| 0 <= i < k ==> #[trigger] s[i] != c,
    ensures
        first_index(s, c) == k,
{
    lemma_first_index(s, c);
    let f = first_index(s, c);
    if f < k {
        assert(s[f] != c);
    }
    if k < f {
        assert(s[k] != c);
    }
}

pub fn find_char(s: &[char], c: char) -> (r: usize)
    ensures
        r == first_index(s@, c),
        r <= s@.len(),
{
    let mut i: usize = 0;
    while i < s.len() && s[i] != c
        invariant
            i <= s.len(),
            forall|j: int| 0 <= j < i ==> #[trigger] s@[j] != c,
        decreases s.len() - i,
    {
        i += 1;
    }
    proof {
        lemma_first_index_unique(s@, c, i as int);
    }
    i
}

proof fn lemma_trim_start_step(s: Seq<char>, k: int)
    requires
        0 <= k < s.len(),
        is_white(s[k]),
    ensures
        trim_start(s.skip(k)) == trim_start(s.skip(k + 1)),
{
    assert(s.skip(k).drop_first() =~= s.skip(k + 1));
}

pub fn trim(s: &str) -> (r: &str)
    ensures
        r@ == trimmed(s@),
{
    let cs = chars_of(s);
    let mut start: usize = 0;
    proof {
        assert(s@.skip(0) =~= s@);
    }
    while start < cs.len() && cs[start].is_whitespace()
        invariant
            cs@ == s@,
            start <= cs.len(),
            trim_start(s@) == trim_start(s@.skip(start as int)),
        decreases cs.len() - start,
    {
        proof {
            lemma_trim_start_step(s@, start as int);
        }
        start += 1;
    }
    let ghost body = s@.skip(start as int);
    assert(trim_start(s@) == body);
    let mut end: usize = cs.len();
    proof {
        assert(body.take(end - start) =~= body);
    }
    while start < end && cs[end - 1].is_whitespace()
        invariant
            cs@ == s@,
            start <= end <= cs.len(),
            body == s@.skip(start as int),
            trim_end(body) == trim_end(body.take(end - start)),
        decreases end,
    {
        proof {
            assert(body.take(end - start).drop_last() =~= body.take(end - start - 1));
        }
        end -= 1;
    }
    proof {
        assert(s@.subrange(start as int, end as int) =~= body.take(end - start));
    }
    s.substring_char(start, end)
}

/// Whether `s` begins with `prefix`.
pub fn has_prefix(s: &str, prefix: &str) -> (r: bool)
    ensures
        r == begins_with(s@, prefix@),
{
    let n: usize = prefix.unicode_len();
    if s.unicode_len() < n {
        return false;
    }
    let head = s.substring_char(0, n);
    proof {
        assert(s@.subrange(0, n as int) =~= s@.take(n as int));
    }
    same_text(head, prefix)
}

/// What follows the first `n` characters.
pub fn tail_from(s: &str, n: usize) -> (r: &str)
    requires
        n <= s@.len(),
    ensures
        r@ == s@.skip(n as int),
{
    let len: usize = s.unicode_len();
    proof {
        assert(s@.subrange(n as int, len as int) =~= s@.skip(n as int));
    }
    s.substring_char(n, len)
}

/// The text before the first `c` and, where there is one, the text after it.
pub fn split_once(s: &str, c: char) -> (r: (&str, Option<&str>))
    ensures
        r.0@ == before(s@, c),
        r.1 is Some <==> first_index(s@, c) < s@.len(),
        r.1 matches Some(rest) ==> rest@ == after(s@, c),
{
    let cs = chars_of(s);
    let at: usize = find_char(cs.as_slice(), c);
    let head = s.substring_char(0, at);
    proof {
        assert(s@.subrange(0, at as int) =~= s@.take(at as int));
    }
    if at < cs.len() {
        (head, Some(tail_from(s, at + 1)))
    } else {
        (head, None)
    }
}

pub fn lower(c: char) -> (r: char)
    ensures
        r == ascii_lower(c),
{
    if 'A' <= c && c <= 'Z' {
        ((c as u8) + 32) as char
    } else {
        c
    }
}

/// Whether the two texts differ at most in the case of ASCII letters.
pub fn same_ignoring_ascii_case(a: &str, b: &str) -> (r: bool)
    ensures
        r == (ascii_lowered(a@) == ascii_lowered(b@)),
{
    let x = chars_of(a);
    let y = chars_of(b);
    if x.len() != y.len() {
        assert(ascii_lowered(a@).len() != ascii_lowered(b@).len());
        return false;
    }
    let mut i: usize = 0;
    while i < x.len()
        invariant
            x@ == a@,
            y@ == b@,
            x.len() == y.len(),
            i <= x.len(),
            forall|j: int| 0 <= j < i ==> ascii_lower(#[trigger] a@[j]) == ascii_lower(b@[j]),
        decreases x.len() - i,
    {
        if lower(x[i]) != lower(y[i]) {
            assert(ascii_lowered(a@)[i as int] != ascii_lowered(b@)[i as int]);
            return false;
        }
        i += 1;
    }
    assert(ascii_lowered(a@) =~= ascii_lowered(b@));
    true
}

/// `n` in decimal.
pub fn decimal_u64(n: u64) -> (r: String)
    ensures
        r@ == decimal(n as nat),
    decreases n,
{
    let last: char = (48u8 + (n % 10) as u8) as char;
    if n < 10 {
        let mut out = String::new();
        out.push(last);
        assert(out@ =~= seq![digit(n as nat)]);
        out
    } else {
        let mut out = decimal_u64(n / 10);
        out.push(last);
        out
    }
}

/// `n` in decimal, with a minus sign in front of a negative number.
pub fn decimal_i64(n: i64) -> (r: String)
    ensures
        r@ == signed_decimal(n as int),
{
    if n >= 0 {
        decimal_u64(n as u64)
    } else {
        let magnitude: u64 = (-(n as i128)) as u64;
        let digits = decimal_u64(magnitude);
        let mut out = String::new();
        out.push('-');
        out.append(digits.as_str());
        assert(out@ =~= seq!['-'] + decimal((-n) as nat));
        out
    }
}

/// The number that `s[from..]` writes with decimal digits, if it is at most `limit`.
fn digits_up_to(s: &[char], from: usize, limit: u64) -> (r: Option<u64>)
    requires
        from <= s@.len(),
    ensures
        r == match parsed_digits(s@.skip(from as int)) {
            Some(n) => if n <= limit { Some(n as u64) } else { None },
            None => None,
        },
{
    let ghost t = s@.skip(from as int);
    if from == s.len() {
        return None;
    }
    let mut total: u64 = 0;
    let mut i: usize = from;
    let mut over: bool = false;
    while i < s.len()
        invariant
            from <= i <= s@.len(),
            t == s@.skip(from as int),
            all_digits(t.take(i - from)),
            !over ==> total == digits_value(t.take(i - from)) && total <= limit,
            over ==> digits_value(t.take(i - from)) > limit,
        decreases s.len() - i,
    {
        let c: char = s[i];
        assert(c == t[i - from]);
        if !('0' <= c && c <= '9') {
            assert(!is_digit(t[i - from]));
            return None;
        }
        let ghost prev = t.take(i - from);
        let ghost next = t.take(i - from + 1);
        proof {
            assert(next.drop_last() =~= prev);
            assert(next.last() == c);
            assert forall|j: int| 0 <= j < next.len() implies is_digit(#[trigger] next[j]) by {
                if j < prev.len() {
                    assert(next[j] == prev[j]);
                }
            }
        }
        let d: u64 = (c as u32 - 48) as u64;
        if !over {
            let wide: u128 = total as u128 * 10 + d as u128;
            if wide <= limit as u128 {
                total = wide as u64;
            } else {
                over = true;
            }
        }
        i += 1;
    }
    proof {
        assert(t.take(i - from) =~= t);
    }
    if over { None } else { Some(total) }
}

/// The number below `2^64` that `s` writes in decimal.
pub fn parse_u64(s: &str) -> (r: Option<u64>)
    ensures
        r == parsed_u64(s@),
{
    let cs = chars_of(s);
    let from: usize = if cs.len() > 0 && cs[0] == '+' { 1 } else { 0 };
    proof {
        assert(s@.skip(0) =~= s@);
        if s@.len() > 0 {
            assert(s@.skip(1) =~= s@.drop_first());
        }
    }
    digits_up_to(cs.as_slice(), from, u64::MAX)
}

/// The signed 64-bit number that `s` writes in decimal.
pub fn parse_i64(s: &str) -> (r: Option<i64>)
    ensures
        r == parsed_i64(s@),
{
    let cs = chars_of(s);
    proof {
        assert(s@.skip(0) =~= s@);
        if s@.len() > 0 {
            assert(s@.skip(1) =~= s@.drop_first());
        }
    }
    if cs.len() > 0 && cs[0] == '-' {
        match digits_up_to(cs.as_slice(), 1, 0x8000_0000_0000_0000) {
            Some(n) => Some((-(n as i128)) as i64),
            None => None,
        }
    } else {
        let from: usize = if cs.len() > 0 && cs[0] == '+' { 1 } else { 0 };
        match digits_up_to(cs.as_slice(), from, 0x7fff_ffff_ffff_ffff) {
            Some(n) => Some(n as i64),
            None => None,
        }
    }
}

/// The texts that a list of strings holds.
pub open spec fn texts(v: Seq<String>) -> Seq<Seq<char>> {
    Seq::new(v.len(), |i: int| v[i]@)
}

/// The length of the run of characters that are not white space at the start of `s`.
pub open spec fn word_length(s: Seq<char>) -> int
    decreases s.len(),
{
    if s.len() == 0 || is_white(s[0]) {
        0
    } else {
        1 + word_length(s.drop_first())
    }
}

pub proof fn lemma_word(s: Seq<char>)
    ensures
        trim_start(s).len() <= s.len(),
        trim_start(s).len() > 0 ==> !is_white(trim_start(s)[0]),
        0 <= word_length(s) <= s.len(),
        s.len() > 0 && !is_white(s[0]) ==> word_length(s) > 0,
    decreases s.len(),
{
    if s.len() > 0 {
        lemma_word(s.drop_first());
    }
}

/// The words of `s`: the runs of characters between white space.
pub open spec fn words(s: Seq<char>) -> Seq<Seq<char>>
    decreases s.len(),
{
    let t = trim_start(s);
    if t.len() == 0 {
        Seq::empty()
    } else {
        proof {
            lemma_word(s);
            lemma_word(t);
        }
        seq![t.take(word_length(t))] + words(t.skip(word_length(t)))
    }
}

proof fn lemma_trim_start_at(s: Seq<char>, k: int)
    requires
        0 <= k <= s.len(),
        forall|i: int| 0 <= i < k ==> is_white(#[trigger] s[i]),
        k < s.len() ==> !is_white(s[k]),
    ensures
        trim_start(s) == s.skip(k),
    decreases s.len(),
{
    if k == 0 {
        assert(s.skip(0) =~= s);
    } else {
        let rest = s.drop_first();
        assert(is_white(s[0]));
        assert forall|i: int| 0 <= i < k - 1 implies is_white(#[trigger] rest[i]) by {
            assert(rest[i] == s[i + 1]);
        }
        lemma_trim_start_at(rest, k - 1);
        assert(rest.skip(k - 1) =~= s.skip(k));
    }
}

proof fn lemma_word_length_at(s: Seq<char>, k: int)
    requires
        0 <= k <= s.len(),
        forall|i: int| 0 <= i < k ==> !is_white(#[trigger] s[i]),
        k < s.len() ==> is_white(s[k]),
    ensures
        word_length(s) == k,
    decreases s.len(),
{
    if k > 0 {
        let rest = s.drop_first();
        assert(!is_white(s[0]));
        assert forall|i: int| 0 <= i < k - 1 implies !is_white(#[trigger] rest[i]) by {
            assert(rest[i] == s[i + 1]);
        }
        lemma_word_length_at(rest, k - 1);
    }
}

/// The words of `s`.
pub fn split_words(s: &str) -> (r: Vec<String>)
    ensures
        texts(r@) == words(s@),
{
    let cs = chars_of(s);
    let n: usize = cs.len();
    let mut out: Vec<String> = Vec::new();
    let mut at: usize = 0;
    proof {
        assert(s@.skip(0) =~= s@);
        assert(texts(out@) + words(s@) =~= words(s@));
    }
    loop
        invariant_except_break
            cs@ == s@,
            n == cs@.len(),
            at <= n,
            texts(out@) + words(s@.skip(at as int)) == words(s@),
        ensures
            texts(out@) == words(s@),
        decreases n - at,
    {
        let ghost rest = s@.skip(at as int);
        let mut start: usize = at;
        while start < n && cs[start].is_whitespace()
            invariant
                cs@ == s@,
                n == cs@.len(),
                at <= start <= n,
                rest == s@.skip(at as int),
                forall|i: int| 0 <= i < start - at ==> is_white(#[trigger] rest[i]),
            decreases n - start,
        {
            assert(rest[start - at] == cs@[start as int]);
            start += 1;
        }
        proof {
            if start < n {
                assert(rest[start - at] == cs@[start as int]);
            }
            lemma_trim_start_at(rest, start - at);
            assert(rest.skip(start - at) =~= s@.skip(start as int));
        }
        if start == n {
            assert(texts(out@) + words(rest) =~= texts(out@));
            break;
        }
        let ghost word = s@.skip(start as int);
        let mut end: usize = start;
        while end < n && !cs[end].is_whitespace()
            invariant
                cs@ == s@,
                n == cs@.len(),
                start <= end <= n,
                word == s@.skip(start as int),
                forall|i: int| 0 <= i < end - start ==> !is_white(#[trigger] word[i]),
            decreases n - end,
        {
            assert(word[end - start] == cs@[end as int]);
            end += 1;
        }
        proof {
            if end < n {
                assert(word[end - start] == cs@[end as int]);
            }
            lemma_word_length_at(word, end - start);
            assert(word.take(end - start) =~= s@.subrange(start as int, end as int));
            assert(word.skip(end - start) =~= s@.skip(end as int));
            assert(!is_white(word[0]));
            lemma_word(word);
        }
        let ghost before = texts(out@);
        let found = s.substring_char(start, end).to_owned();
        out.push(found);
        proof {
            assert(texts(out@) =~= before.push(s@.subrange(start as int, end as int)));
            assert(texts(out@) + words(s@.skip(end as int)) =~= before + (seq![word.take(end - start)] + words(
                s@.skip(end as int),
            )));
        }
        at = end;
    }
    out
}

/// The position of the last `c` in `s`, or -1 where there is none.
pub open spec fn last_index(s: Seq<char>, c: char) -> int
    decreases s.len(),
{
    if s.len() == 0 {
        -1
    } else if s.last() == c {
        s.len() - 1
    } else {
        last_index(s.drop_last(), c)
    }
}

/// What [`last_index`] finds.
pub proof fn lemma_last_index(s: Seq<char>, c: char)
    ensures
        -1 <= last_index(s, c) < s.len(),
        last_index(s, c) >= 0 ==> s[last_index(s, c)] == c,
        forall|i: int| last_index(s, c) < i < s.len() ==> #[trigger] s[i] != c,
    decreases s.len(),
{
    if s.len() > 0 && s.last() != c {
        let front = s.drop_last();
        lemma_last_index(front, c);
        assert forall|i: int| last_index(s, c) < i < s.len() implies #[trigger] s[i] != c by {
            if i < front.len() {
                assert(s[i] == front[i]);
            }
        }
    }
}

/// Only the last occurrence answers [`last_index`].
pub proof fn lemma_last_index_unique(s: Seq<char>, c: char, k: int)
    requires
        -1 <= k < s.len(),
        k >= 0 ==> s[k] == c,
        forall|i: int| k < i < s.len() ==> #[trigger] s[i] != c,
    ensures
        last_index(s, c) == k,
{
    lemma_last_index(s, c);
    let f = last_index(s, c);
    if k < f {
        assert(s[f] != c);
    }
    if f < k {
        assert(s[k] != c);
    }
}

/// The position of the last `c`, if there is one.
pub fn find_last(s: &[char], c: char) -> (r: Option<usize>)
    ensures
        match r {
            Some(k) => k == last_index(s@, c) && k < s@.len(),
            None => last_index(s@, c) == -1,
        },
{
    let mut i: usize = s.len();
    while i > 0
        invariant
            i <= s.len(),
            forall|j: int| i <= j < s.len() ==> #[trigger] s@[j] != c,
        decreases i,
    {
        if s[i - 1] == c {
            proof {
                lemma_last_index_unique(s@, c, i - 1);
            }
            return Some(i - 1);
        }
        i -= 1;
    }
    proof {
        lemma_last_index_unique(s@, c, -1);
    }
    None
}

/// The texts one after the other, with `separator` between them.
pub open spec fn joined_with(parts: Seq<Seq<char>>, separator: Seq<char>) -> Seq<char>
    decreases parts.len(),
{
    if parts.len() == 0 {
        Seq::empty()
    } else if parts.len() == 1 {
        parts[0]
    } else {
        joined_with(parts.drop_last(), separator) + separator + parts.last()
    }
}

pub fn join_with(parts: &Vec<String>, separator: &str) -> (r: String)
    ensures
        r@ == joined_with(texts(parts@), separator@),
{
    let mut out = String::new();
    let mut i: usize = 0;
    let ghost all = texts(parts@);
    proof {
        assert(all.take(0) =~= Seq::<Seq<char>>::empty());
    }
    while i < parts.len()
        invariant
            i <= parts@.len(),
            all == texts(parts@),
            out@ == joined_with(all.take(i as int), separator@),
        decreases parts.len() - i,
    {
        proof {
            assert(all.take(i + 1).drop_last() =~= all.take(i as int));
            assert(all.take(i + 1).last() == parts@[i as int]@);
            if i == 0 {
                assert(all.take(1)[0] =~= Seq::<char>::empty() + parts@[0]@);
            }
        }
        if i > 0 {
            out.append(separator);
        }
        out.append(parts[i].as_str());
        i += 1;
    }
    proof {
        assert(all.take(i as int) =~= all);
    }
    out
}

/// `n` in decimal digits, padded on the left with zeros to `width`; more significant digits are
/// dropped.
pub open spec fn zero_padded(n: nat, width: nat) -> Seq<char>
    decreases width,
{
    if width == 0 {
        Seq::empty()
    } else {
        zero_padded(n / 10, (width - 1) as nat).push(digit(n % 10))
    }
}

pub fn pad_with_zeros(n: u64, width: u32) -> (r: String)
    ensures
        r@ == zero_padded(n as nat, width as nat),
    decreases width,
{
    if width == 0 {
        String::new()
    } else {
        let mut out = pad_with_zeros(n / 10, width - 1);
        out.push((48u8 + (n % 10) as u8) as char);
        out
    }
}

/// Whether `a` stands before `b` in the order of their characters.
pub open spec fn text_before(a: Seq<char>, b: Seq<char>) -> bool
    decreases a.len(),
{
    if b.len() == 0 {
        false
    } else if a.len() == 0 {
        true
    } else {
        a[0] < b[0] || (a[0] == b[0] && text_before(a.drop_first(), b.drop_first()))
    }
}

/// How Rust writes a text in quotes, with what cannot be printed escaped.
pub uninterp spec fn debug_form(s: Seq<char>) -> Seq<char>;

/// `<str as Debug>::fmt`: the text in quotes, escaped.
#[verifier::external_body]
pub(crate) fn debug_text(s: &str) -> (r: String)
    ensures
        r@ == debug_form(s@),
{
    format!("{s:?}")
}

/// Two texts with the same bytes are the same text.
pub proof fn lemma_utf8_injective(a: Seq<char>, b: Seq<char>)
    requires
        encode_utf8(a) == encode_utf8(b),
    ensures
        a == b,
{
    encode_utf8_decode_utf8(a);
    encode_utf8_decode_utf8(b);
}

/// The pieces of `s` between the separators `c`.
pub fn split(s: &str, c: char) -> (r: Vec<String>)
    ensures
        texts(r@) == pieces(s@, c),
        r@.len() > 0,
{
    let mut out: Vec<String> = Vec::new();
    let mut rest: &str = s;
    proof {
        assert(texts(out@) + pieces(s@, c) =~= pieces(s@, c));
    }
    loop
        invariant_except_break
            texts(out@) + pieces(rest@, c) == pieces(s@, c),
        ensures
            texts(out@) == pieces(s@, c),
            out@.len() > 0,
        decreases rest@.len(),
    {
        let ghost front = texts(out@);
        proof {
            lemma_first_index(rest@, c);
        }
        let (head, tail) = split_once(rest, c);
        match tail {
            None => {
                out.push(rest.to_owned());
                assert(texts(out@) =~= front + pieces(rest@, c));
                break;
            },
            Some(next) => {
                out.push(head.to_owned());
                proof {
                    assert(texts(out@) =~= front.push(head@));
                    assert(front.push(head@) + pieces(next@, c) =~= front + (seq![head@] + pieces(next@, c)));
                }
                rest = next;
            },
        }
    }
    out
}

/// Whether `s` ends with `suffix`.
pub open spec fn finishes_with(s: Seq<char>, suffix: Seq<char>) -> bool {
    s.len() >= suffix.len() && s.skip(s.len() - suffix.len()) == suffix
}

pub fn has_suffix(s: &str, suffix: &str) -> (r: bool)
    ensures
        r == finishes_with(s@, suffix@),
{
    let n: usize = s.unicode_len();
    let k: usize = suffix.unicode_len();
    if n < k {
        return false;
    }
    same_text(tail_from(s, n - k), suffix)
}

/// `s` with its ASCII letters in lower case.
pub fn lowered(s: &str) -> (r: String)
    ensures
        r@ == ascii_lowered(s@),
{
    let cs = chars_of(s);
    let mut out = String::new();
    let mut i: usize = 0;
    while i < cs.len()
        invariant
            i <= cs@.len(),
            cs@ == s@,
            out@ == ascii_lowered(s@.take(i as int)),
        decreases cs.len() - i,
    {
        out.push(lower(cs[i]));
        i += 1;
        assert(out@ =~= ascii_lowered(s@.take(i as int)));
    }
    assert(s@.take(i as int) =~= s@);
    out
}

} // verus!
