//! What holds of the operations on texts, told by the texts themselves.

use vstd::prelude::*;

use crate::text::{
    after, all_digits, ascii_lowered, before, decimal, digit, digits_value, first_index, is_digit, is_white, joined_with,
    lemma_first_index, parsed_i64, parsed_u64, pieces, signed_decimal, trim_end, trim_start,
    trimmed, word_length, words,
};

verus! {

pub proof fn lemma_decimal_value(n: nat)
    ensures
        decimal(n).len() > 0,
        all_digits(decimal(n)),
        digits_value(decimal(n)) == n,
    decreases n,
{
    let c = digit(n % 10);
    assert('0' <= c <= '9' && c as u32 - 48 == n % 10);
    if n >= 10 {
        lemma_decimal_value(n / 10);
        let front = decimal(n / 10);
        let all = decimal(n);
        assert(all.drop_last() =~= front);
        assert forall|i: int| 0 <= i < all.len() implies is_digit(#[trigger] all[i]) by {
            if i < front.len() {
                assert(is_digit(front[i]));
            }
        }
    } else {
        assert(decimal(n).drop_last() =~= Seq::<char>::empty());
        assert(digits_value(decimal(n).drop_last()) == 0);
    }
}

/// A number is read back from the text it is written as, whatever its sign.
pub proof fn law_numbers_are_read_back(u: u64, i: i64)
    ensures
        parsed_u64(decimal(u as nat)) == Some(u),
        parsed_i64(signed_decimal(i as int)) == Some(i),
{
    lemma_decimal_value(u as nat);
    assert(is_digit(decimal(u as nat)[0]));
    if i < 0 {
        let d = decimal((-i) as nat);
        lemma_decimal_value((-i) as nat);
        assert((seq!['-'] + d).drop_first() =~= d);
    } else {
        lemma_decimal_value(i as nat);
        assert(is_digit(decimal(i as nat)[0]));
    }
}

/// A text that is read as a number is that number's digits, behind at most a sign: no other text is.
pub proof fn law_only_digits_are_numbers(s: Seq<char>)
    ensures
        parsed_u64(s) is Some ==> s.len() > 0 && (forall|i: int|
            0 < i < s.len() ==> '0' <= #[trigger] s[i] <= '9') && (s[0] == '+' && s.len() > 1 || '0' <= s[0] <= '9'),
        parsed_i64(s) is Some ==> s.len() > 0 && (forall|i: int|
            0 < i < s.len() ==> '0' <= #[trigger] s[i] <= '9') && ((s[0] == '+' || s[0] == '-') && s.len() > 1 || '0'
            <= s[0] <= '9'),
        parsed_i64(s) matches Some(n) ==> s[0] == '-' && n <= 0 || s[0] != '-' && n >= 0,
{
    let t = s.drop_first();
    if parsed_u64(s) is Some || parsed_i64(s) is Some {
        assert(s.len() > 0);
        assert forall|i: int| 0 < i < s.len() implies '0' <= #[trigger] s[i] <= '9' by {
            if s[0] == '+' || s[0] == '-' {
                assert(is_digit(t[i - 1]));
            } else {
                assert(is_digit(s[i]));
            }
        }
        if s[0] != '+' && s[0] != '-' {
            assert(is_digit(s[0]));
        }
    }
}

/// The pieces of a text, with the separators put back between them, are the text; and no piece holds a
/// separator.
pub proof fn law_pieces_make_the_text(s: Seq<char>, c: char)
    ensures
        pieces(s, c).len() > 0,
        joined_with(pieces(s, c), seq![c]) == s,
        forall|i: int| 0 <= i < pieces(s, c).len() ==> !(#[trigger] pieces(s, c)[i]).contains(c),
    decreases s.len(),
{
    lemma_first_index(s, c);
    if first_index(s, c) < s.len() {
        let rest = after(s, c);
        law_pieces_make_the_text(rest, c);
        let head = before(s, c);
        let tail = pieces(rest, c);
        lemma_joined_front(head, tail, seq![c]);
        assert(s =~= head + seq![c] + rest);
        assert forall|i: int| 0 <= i < pieces(s, c).len() implies !(#[trigger] pieces(s, c)[i]).contains(c) by {
            if i > 0 {
                assert(pieces(s, c)[i] == tail[i - 1]);
            }
        }
    } else {
        assert(pieces(s, c) =~= seq![s]);
        assert(joined_with(seq![s], seq![c]) == s);
    }
}

proof fn lemma_joined_front(head: Seq<char>, tail: Seq<Seq<char>>, separator: Seq<char>)
    requires
        tail.len() > 0,
    ensures
        joined_with(seq![head] + tail, separator) == head + separator + joined_with(tail, separator),
    decreases tail.len(),
{
    let all = seq![head] + tail;
    if tail.len() == 1 {
        assert(all.drop_last() =~= seq![head]);
        assert(joined_with(seq![head], separator) == head);
        assert(all.last() == tail[0]);
    } else {
        lemma_joined_front(head, tail.drop_last(), separator);
        assert(all.drop_last() =~= seq![head] + tail.drop_last());
        assert(all.last() == tail.last());
        assert(joined_with(all, separator) =~= head + separator + joined_with(tail, separator));
    }
}

/// Whether a text is white space and nothing else.
pub open spec fn is_blank(s: Seq<char>) -> bool {
    forall|i: int| 0 <= i < s.len() ==> is_white(#[trigger] s[i])
}

proof fn lemma_trim_start(s: Seq<char>)
    ensures
        trim_start(s).len() <= s.len(),
        trim_start(s) == s.skip(s.len() - trim_start(s).len()),
        is_blank(s.take(s.len() - trim_start(s).len())),
        trim_start(s).len() > 0 ==> !is_white(trim_start(s)[0]),
    decreases s.len(),
{
    if s.len() > 0 && is_white(s[0]) {
        let rest = s.drop_first();
        lemma_trim_start(rest);
        let t = trim_start(rest);
        assert(rest.skip(rest.len() - t.len()) =~= s.skip(s.len() - t.len()));
        let lead = s.take(s.len() - t.len());
        assert forall|i: int| 0 <= i < lead.len() implies is_white(#[trigger] lead[i]) by {
            if i > 0 {
                assert(rest.take(rest.len() - t.len())[i - 1] == lead[i]);
            }
        }
    } else {
        assert(s.skip(0) =~= s);
    }
}

proof fn lemma_trim_end(s: Seq<char>)
    ensures
        trim_end(s).len() <= s.len(),
        trim_end(s) == s.take(trim_end(s).len() as int),
        is_blank(s.skip(trim_end(s).len() as int)),
        trim_end(s).len() > 0 ==> !is_white(trim_end(s).last()),
    decreases s.len(),
{
    if s.len() > 0 && is_white(s.last()) {
        let front = s.drop_last();
        lemma_trim_end(front);
        let t = trim_end(front);
        assert(front.take(t.len() as int) =~= s.take(t.len() as int));
        let end = s.skip(t.len() as int);
        assert forall|i: int| 0 <= i < end.len() implies is_white(#[trigger] end[i]) by {
            if i < end.len() - 1 {
                assert(front.skip(t.len() as int)[i] == end[i]);
            }
        }
    } else {
        assert(s.take(s.len() as int) =~= s);
    }
}

/// Trimming takes white space off both ends of a text, all of it and nothing else.
pub proof fn law_trimming_takes_off_white_space(s: Seq<char>)
    ensures
        exists|a: Seq<char>, b: Seq<char>| #[trigger] is_blank(a) && #[trigger] is_blank(b) && s == a + trimmed(s) + b,
        trimmed(s).len() > 0 ==> !is_white(trimmed(s)[0]) && !is_white(trimmed(s).last()),
{
    let t = trim_start(s);
    lemma_trim_start(s);
    lemma_trim_end(t);
    let a = s.take(s.len() - t.len());
    let b = t.skip(trimmed(s).len() as int);
    assert(is_blank(a) && is_blank(b));
    assert(s =~= a + trimmed(s) + b);
    if trimmed(s).len() > 0 {
        assert(trimmed(s)[0] == t[0]);
    }
}

/// A text without its white space.
pub open spec fn inked(s: Seq<char>) -> Seq<char> {
    s.filter(|c: char| !is_white(c))
}

/// Texts one after the other.
pub open spec fn run_together(parts: Seq<Seq<char>>) -> Seq<char>
    decreases parts.len(),
{
    if parts.len() == 0 {
        Seq::empty()
    } else {
        parts[0] + run_together(parts.drop_first())
    }
}

proof fn lemma_inked_add(a: Seq<char>, b: Seq<char>)
    ensures
        inked(a + b) == inked(a) + inked(b),
{
    Seq::filter_distributes_over_add(a, b, |c: char| !is_white(c));
}

proof fn lemma_inked(s: Seq<char>)
    ensures
        is_blank(s) ==> inked(s) == Seq::<char>::empty(),
        (forall|i: int| 0 <= i < s.len() ==> !is_white(#[trigger] s[i])) ==> inked(s) == s,
    decreases s.len(),
{
    reveal(Seq::filter);
    if s.len() > 0 {
        let front = s.drop_last();
        lemma_inked(front);
        if is_blank(s) {
            assert(is_white(s[s.len() - 1]));
            assert forall|i: int| 0 <= i < front.len() implies is_white(#[trigger] front[i]) by {
                assert(is_white(s[i]));
            }
        }
        if forall|i: int| 0 <= i < s.len() ==> !is_white(#[trigger] s[i]) {
            assert(!is_white(s[s.len() - 1]));
            assert forall|i: int| 0 <= i < front.len() implies !is_white(#[trigger] front[i]) by {
                assert(!is_white(s[i]));
            }
            assert(inked(s) =~= s);
        }
    } else {
        assert(inked(s) =~= s);
    }
}

proof fn lemma_word_run(s: Seq<char>)
    ensures
        0 <= word_length(s) <= s.len(),
        forall|i: int| 0 <= i < word_length(s) ==> !is_white(#[trigger] s[i]),
        word_length(s) < s.len() ==> is_white(s[word_length(s)]),
    decreases s.len(),
{
    if s.len() > 0 && !is_white(s[0]) {
        lemma_word_run(s.drop_first());
        assert forall|i: int| 0 <= i < word_length(s) implies !is_white(#[trigger] s[i]) by {
            if i > 0 {
                assert(!is_white(s.drop_first()[i - 1]));
            }
        }
    }
}

/// Whether a text is a word: not empty, and without white space.
pub open spec fn is_word(s: Seq<char>) -> bool {
    s.len() > 0 && forall|k: int| 0 <= k < s.len() ==> !is_white(#[trigger] s[k])
}

proof fn lemma_first_word(s: Seq<char>)
    requires
        trim_start(s).len() > 0,
    ensures
        word_length(trim_start(s)) > 0,
        is_word(trim_start(s).take(word_length(trim_start(s)))),
        inked(s) == trim_start(s).take(word_length(trim_start(s))) + inked(
            trim_start(s).skip(word_length(trim_start(s))),
        ),
{
    let t = trim_start(s);
    lemma_trim_start(s);
    let lead = s.take(s.len() - t.len());
    assert(s =~= lead + t);
    lemma_inked_add(lead, t);
    lemma_inked(lead);
    assert(inked(s) =~= inked(t));
    lemma_word_run(t);
    let word = t.take(word_length(t));
    let rest = t.skip(word_length(t));
    assert(word_length(t) > 0);
    assert(t =~= word + rest);
    lemma_inked_add(word, rest);
    lemma_inked(word);
}

/// The words of a text are all of it that is not white space, in order; none is empty, and none holds
/// white space.
pub proof fn law_words_are_what_is_not_white(s: Seq<char>)
    ensures
        run_together(words(s)) == inked(s),
        forall|i: int| 0 <= i < words(s).len() ==> is_word(#[trigger] words(s)[i]),
    decreases s.len(),
{
    let t = trim_start(s);
    lemma_trim_start(s);
    if t.len() == 0 {
        assert(s.take(s.len() as int) =~= s);
        lemma_inked(s);
        assert(words(s) =~= Seq::<Seq<char>>::empty());
    } else {
        lemma_first_word(s);
        let word = t.take(word_length(t));
        let rest = t.skip(word_length(t));
        lemma_word_run(t);
        law_words_are_what_is_not_white(rest);
        let all = words(s);
        assert(all =~= seq![word] + words(rest));
        assert(all.drop_first() =~= words(rest));
        assert(run_together(all) == word + run_together(words(rest)));
        assert forall|i: int| 0 <= i < all.len() implies is_word(#[trigger] all[i]) by {
            if i > 0 {
                assert(all[i] == words(rest)[i - 1]);
            }
        }
    }
}

/// Of two texts that differ in the case of their ASCII letters and in nothing else, the lower-case forms
/// are the same: a letter from `A` to `Z` is the one 32 places on, and every other character is itself.
pub proof fn law_lowering_touches_capitals_alone(s: Seq<char>, i: int)
    requires
        0 <= i < s.len(),
    ensures
        ascii_lowered(s).len() == s.len(),
        'A' <= s[i] <= 'Z' ==> ascii_lowered(s)[i] as u32 == s[i] as u32 + 32,
        !('A' <= s[i] <= 'Z') ==> ascii_lowered(s)[i] == s[i],
{
}

} // verus!
