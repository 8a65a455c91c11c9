//! Reconstructing the offset history from the system journal.
//!
//! The journal stamps every entry with the wall clock and with the monotonic clock. Their
//! difference is the offset at that moment, and a jump in the series is a step.

use vstd::prelude::*;

use crate::collector::epoch::{distance, Epoch, Source};
use crate::text::{ascii_lower, ascii_lowered, chars_of, parse_i64, parsed_i64};

verus! {

/// One entry, reduced to the fields that matter.
#[derive(Debug, PartialEq, Eq)]
pub struct Entry {
    /// Microseconds since the Unix epoch.
    pub realtime_micros: i64,
    /// Microseconds on the monotonic clock.
    pub monotonic_micros: i64,
    /// The boot the entry belongs to, as the journal writes it: hex digits without dashes.
    pub boot_id: String,
}

/// The fields of one journal line that could be read, as text.
#[derive(Debug, PartialEq, Eq)]
pub struct RawEntry {
    pub realtime: Option<String>,
    pub monotonic: Option<String>,
    pub boot_id: Option<String>,
}

/// How far the offset must move between two entries to count as a step.
pub const DEFAULT_STEP_THRESHOLD_NANOS: i64 = 100_000_000;

/// The lower-case form of a character, as Unicode maps it.
pub uninterp spec fn lowercase_of(c: char) -> Seq<char>;

/// `char::to_lowercase`: the lower-case mapping of a character, which may be several characters.
/// On ASCII it is the plain one.
#[verifier::external_body]
fn lowercase(c: char) -> (r: Vec<char>)
    ensures
        r@ == lowercase_of(c),
        (c as u32) < 128 ==> r@ == seq![ascii_lower(c)],
{
    c.to_lowercase().collect()
}

/// `s` without dashes.
pub open spec fn undashed(s: Seq<char>) -> Seq<char> {
    s.filter(|c: char| c != '-')
}

/// A character in lower case: the plain mapping on ASCII, and that of Unicode elsewhere.
pub open spec fn lowered(c: char) -> Seq<char> {
    if (c as u32) < 128 {
        seq![ascii_lower(c)]
    } else {
        lowercase_of(c)
    }
}

/// The characters of `s` in lower case, one after the other.
pub open spec fn lowercased(s: Seq<char>) -> Seq<char>
    decreases s.len(),
{
    if s.len() == 0 {
        Seq::empty()
    } else {
        lowercased(s.drop_last()) + lowered(s.last())
    }
}

proof fn lemma_undashed_push(s: Seq<char>, c: char)
    ensures
        undashed(s.push(c)) == if c == '-' { undashed(s) } else { undashed(s).push(c) },
{
    reveal(Seq::filter);
    assert(s.push(c).drop_last() =~= s);
}

/// A boot id without dashes and in lower case.
fn normalize(s: &str) -> (r: Vec<char>)
    ensures
        r@ == lowercased(undashed(s@)),
{
    let cs = chars_of(s);
    let mut out: Vec<char> = Vec::new();
    let mut i: usize = 0;
    proof {
        reveal(Seq::filter);
        assert(cs@.take(0) =~= Seq::<char>::empty());
    }
    while i < cs.len()
        invariant
            cs@ == s@,
            i <= cs@.len(),
            out@ == lowercased(undashed(s@.take(i as int))),
        decreases cs.len() - i,
    {
        let c: char = cs[i];
        let ghost done = s@.take(i as int);
        proof {
            assert(s@.take(i + 1) =~= done.push(c));
            lemma_undashed_push(done, c);
            assert(undashed(done).push(c).drop_last() =~= undashed(done));
        }
        if c != '-' {
            let mut low = lowercase(c);
            let ghost before = out@;
            let ghost mapped = low@;
            out.append(&mut low);
            proof {
                assert(mapped == lowered(c));
                assert(out@ =~= before + mapped);
            }
        }
        i += 1;
    }
    proof {
        assert(s@.take(i as int) =~= s@);
    }
    out
}

/// Whether two spellings name one boot.
pub open spec fn is_same_boot(journal_form: Seq<char>, proc_form: Seq<char>) -> bool {
    journal_form.len() > 0 && lowercased(undashed(journal_form)) == lowercased(undashed(proc_form))
}

/// Whether the journal's spelling of a boot id and the kernel's name one boot. The journal writes
/// bare hex digits, the kernel writes them with dashes. An absent id matches nothing.
pub fn same_boot(journal_form: &str, proc_form: &str) -> (r: bool)
    ensures
        r == is_same_boot(journal_form@, proc_form@),
{
    if journal_form.is_empty() {
        return false;
    }
    let a = normalize(journal_form);
    let b = normalize(proc_form);
    same_chars(&a, &b)
}

proof fn lemma_lowercased_folds(s: Seq<char>)
    ensures
        lowercased(ascii_lowered(s)) == lowercased(s),
    decreases s.len(),
{
    if s.len() > 0 {
        let front = s.drop_last();
        lemma_lowercased_folds(front);
        assert(ascii_lowered(s).drop_last() =~= ascii_lowered(front));
        assert(ascii_lowered(s).last() == ascii_lower(s.last()));
        assert(lowered(ascii_lower(s.last())) == lowered(s.last()));
    }
}

/// Dashes, and the case of ASCII letters, make no difference to which boot a text names, whatever
/// else it holds. A text names its own boot, and an absent one names none.
pub proof fn law_dashes_and_case_make_no_difference(a: Seq<char>, b: Seq<char>, a2: Seq<char>, b2: Seq<char>)
    requires
        a.len() > 0,
        a2.len() > 0,
        ascii_lowered(undashed(a)) == ascii_lowered(undashed(a2)),
        ascii_lowered(undashed(b)) == ascii_lowered(undashed(b2)),
    ensures
        is_same_boot(a, b) == is_same_boot(a2, b2),
        is_same_boot(a, a),
        is_same_boot(a, a2),
        !is_same_boot(Seq::empty(), b),
{
    lemma_lowercased_folds(undashed(a));
    lemma_lowercased_folds(undashed(a2));
    lemma_lowercased_folds(undashed(b));
    lemma_lowercased_folds(undashed(b2));
}

fn same_chars(a: &Vec<char>, b: &Vec<char>) -> (r: bool)
    ensures
        r == (a@ == b@),
{
    if a.len() != b.len() {
        return false;
    }
    let mut i: usize = 0;
    while i < a.len()
        invariant
            a@.len() == b@.len(),
            i <= a@.len(),
            forall|j: int| 0 <= j < i ==> #[trigger] a@[j] == b@[j],
        decreases a.len() - i,
    {
        if a[i] != b[i] {
            return false;
        }
        i += 1;
    }
    assert(a@ =~= b@);
    true
}

/// The entry that a journal line holds; nothing where a field is missing or is no number.
pub fn entry_of(raw: RawEntry) -> (r: Option<Entry>)
    ensures
        match (raw.realtime, raw.monotonic, raw.boot_id) {
            (Some(realtime), Some(monotonic), Some(boot_id)) => match (
                parsed_i64(realtime@),
                parsed_i64(monotonic@),
            ) {
                (Some(a), Some(b)) => r matches Some(e) && e.realtime_micros == a && e.monotonic_micros == b
                    && e.boot_id@ == boot_id@,
                _ => r is None,
            },
            _ => r is None,
        },
{
    match (raw.realtime, raw.monotonic, raw.boot_id) {
        (Some(realtime), Some(monotonic), Some(boot_id)) => {
            match (parse_i64(realtime.as_str()), parse_i64(monotonic.as_str())) {
                (Some(a), Some(b)) => Some(
                    Entry { realtime_micros: a, monotonic_micros: b, boot_id },
                ),
                _ => None,
            }
        },
        _ => None,
    }
}

/// The instant of an entry on the boot clock, and on the wall clock, in nanoseconds.
pub open spec fn sample_of(e: Entry, suspended_nanos: i64) -> (i64, i64) {
    ((e.monotonic_micros * 1_000 + suspended_nanos) as i64, (e.realtime_micros * 1_000) as i64)
}

/// Whether an entry of the boot can be written in nanoseconds, and its offset too.
pub open spec fn sample_fits(e: Entry, suspended_nanos: i64) -> bool {
    &&& i64::MIN <= e.monotonic_micros * 1_000 <= i64::MAX
    &&& i64::MIN <= e.monotonic_micros * 1_000 + suspended_nanos <= i64::MAX
    &&& i64::MIN <= e.realtime_micros * 1_000 <= i64::MAX
    &&& i64::MIN <= e.realtime_micros * 1_000 - (e.monotonic_micros * 1_000 + suspended_nanos) <= i64::MAX
}

/// The instants of the entries of this boot, in the order of the entries.
pub open spec fn samples_of(entries: Seq<Entry>, this_boot: Seq<char>, suspended_nanos: i64) -> Seq<(i64, i64)>
    decreases entries.len(),
{
    if entries.len() == 0 {
        Seq::empty()
    } else {
        let before = samples_of(entries.drop_last(), this_boot, suspended_nanos);
        let e = entries.last();
        if is_same_boot(e.boot_id@, this_boot) {
            before.push(sample_of(e, suspended_nanos))
        } else {
            before
        }
    }
}

/// The order of instants: by the first clock, then by the second.
pub open spec fn not_after(a: (i64, i64), b: (i64, i64)) -> bool {
    a.0 < b.0 || (a.0 == b.0 && a.1 <= b.1)
}

pub open spec fn in_order(s: Seq<(i64, i64)>) -> bool {
    forall|i: int, j: int| 0 <= i < j < s.len() ==> not_after(#[trigger] s[i], #[trigger] s[j])
}

/// `s` put in order.
pub open spec fn ordered(s: Seq<(i64, i64)>) -> Seq<(i64, i64)>
    decreases s.len(),
{
    if s.len() == 0 {
        s
    } else {
        inserted(ordered(s.drop_last()), s.last())
    }
}

pub open spec fn inserted(s: Seq<(i64, i64)>, x: (i64, i64)) -> Seq<(i64, i64)>
    decreases s.len(),
{
    if s.len() == 0 || not_after(s.last(), x) {
        s.push(x)
    } else {
        inserted(s.drop_last(), x).push(s.last())
    }
}

proof fn lemma_inserted(s: Seq<(i64, i64)>, x: (i64, i64), at: int)
    requires
        in_order(s),
        0 <= at <= s.len(),
        at > 0 ==> not_after(s[at - 1], x),
        forall|i: int| at <= i < s.len() ==> !not_after(#[trigger] s[i], x),
    ensures
        inserted(s, x) == s.insert(at, x),
        in_order(s.insert(at, x)),
    decreases s.len(),
{
    let t = s.insert(at, x);
    assert forall|i: int, j: int| 0 <= i < j < t.len() implies not_after(#[trigger] t[i], #[trigger] t[j]) by {
        if i < at - 1 && j == at {
            assert(not_after(s[i], s[at - 1]));
        }
    }
    if at == s.len() {
        assert(t =~= s.push(x));
    } else {
        let front = s.drop_last();
        assert forall|i: int, j: int| 0 <= i < j < front.len() implies not_after(#[trigger] front[i], #[trigger] front[j]) by {
            assert(front[i] == s[i] && front[j] == s[j]);
        }
        assert(!not_after(s[s.len() - 1], x));
        lemma_inserted(front, x, at);
        assert(t =~= front.insert(at, x).push(s.last()));
    }
}

/// Putting in order keeps every instant, and leaves none before an earlier one.
pub proof fn law_order_keeps_every_instant(s: Seq<(i64, i64)>)
    ensures
        in_order(ordered(s)),
        ordered(s).to_multiset() == s.to_multiset(),
    decreases s.len(),
{
    if s.len() > 0 {
        let front = s.drop_last();
        law_order_keeps_every_instant(front);
        lemma_inserted_keeps(ordered(front), s.last());
        assert(s =~= front.push(s.last()));
        vstd::seq_lib::to_multiset_build(front, s.last());
    }
}

proof fn lemma_inserted_keeps(s: Seq<(i64, i64)>, x: (i64, i64))
    requires
        in_order(s),
    ensures
        in_order(inserted(s, x)),
        inserted(s, x).to_multiset() == s.to_multiset().insert(x),
        inserted(s, x).len() == s.len() + 1,
        s.len() > 0 && !not_after(s.last(), x) ==> inserted(s, x).last() == s.last(),
        s.len() == 0 || not_after(s.last(), x) ==> inserted(s, x).last() == x,
    decreases s.len(),
{
    if s.len() == 0 || not_after(s.last(), x) {
        let t = s.push(x);
        vstd::seq_lib::to_multiset_build(s, x);
        assert forall|i: int, j: int| 0 <= i < j < t.len() implies not_after(#[trigger] t[i], #[trigger] t[j]) by {
            if j == s.len() {
                assert(i == s.len() - 1 || not_after(s[i], s[s.len() - 1]));
            }
        }
    } else {
        let front = s.drop_last();
        assert forall|i: int, j: int| 0 <= i < j < front.len() implies not_after(#[trigger] front[i], #[trigger] front[j]) by {
            assert(front[i] == s[i] && front[j] == s[j]);
        }
        lemma_inserted_keeps(front, x);
        let inner = inserted(front, x);
        let t = inner.push(s.last());
        vstd::seq_lib::to_multiset_build(inner, s.last());
        assert(s =~= front.push(s.last()));
        vstd::seq_lib::to_multiset_build(front, s.last());
        assert(t.to_multiset() =~= s.to_multiset().insert(x));
        assert forall|i: int, j: int| 0 <= i < j < t.len() implies not_after(#[trigger] t[i], #[trigger] t[j]) by {
            if j == inner.len() {
                assert(i == inner.len() - 1 || not_after(inner[i], inner[inner.len() - 1]));
                if front.len() > 0 {
                    assert(not_after(s[s.len() - 2], s[s.len() - 1]));
                }
            }
        }
    }
}

pub open spec fn offset_of(sample: (i64, i64)) -> int {
    sample.1 - sample.0
}

/// The history that the first `n` instants, in order, imply. It begins at boot with the offset of
/// the first instant. An instant whose offset lies farther from the current one than the threshold
/// opens an epoch, which is dated to the instant before it: the last that still showed the old
/// offset.
pub open spec fn history_of(samples: Seq<(i64, i64)>, threshold: i64, n: int) -> Seq<Epoch>
    decreases n,
{
    if n <= 1 {
        seq![Epoch { boot_start: 0, offset: offset_of(samples[0]) as i64, source: Source::Journal }]
    } else {
        let before = history_of(samples, threshold, n - 1);
        let offset = offset_of(samples[n - 1]);
        if distance(offset, before.last().offset as int) > threshold {
            before.push(
                Epoch { boot_start: samples[n - 2].0, offset: offset as i64, source: Source::Journal },
            )
        } else {
            before
        }
    }
}

/// The history that the entries of this boot imply; empty when there are none.
pub open spec fn journal_history(
    entries: Seq<Entry>,
    this_boot: Seq<char>,
    suspended_nanos: i64,
    threshold: i64,
) -> Seq<Epoch> {
    let samples = ordered(samples_of(entries, this_boot, suspended_nanos));
    if samples.len() == 0 {
        Seq::empty()
    } else {
        history_of(samples, threshold, samples.len() as int)
    }
}

/// Whether the offsets of two instants can be compared in 64 bits.
pub open spec fn offsets_compare(a: (i64, i64), b: (i64, i64)) -> bool {
    distance(offset_of(a), offset_of(b)) <= i64::MAX
}

fn insert_in_order(samples: &mut Vec<(i64, i64)>, x: (i64, i64))
    requires
        in_order(old(samples)@),
    ensures
        final(samples)@ == inserted(old(samples)@, x),
        in_order(final(samples)@),
        final(samples)@.to_multiset() == old(samples)@.to_multiset().insert(x),
{
    let mut at: usize = samples.len();
    while at > 0 && !(samples[at - 1].0 < x.0 || (samples[at - 1].0 == x.0 && samples[at - 1].1 <= x.1))
        invariant
            at <= samples@.len(),
            samples@ == old(samples)@,
            forall|k: int| at <= k < samples@.len() ==> !not_after(#[trigger] samples@[k], x),
        decreases at,
    {
        at -= 1;
    }
    proof {
        lemma_inserted(samples@, x, at as int);
        lemma_inserted_keeps(samples@, x);
    }
    samples.insert(at, x);
}

/// Whether the entries of this boot can be folded: their instants can be written in 64 bits, and their
/// offsets compared in as many.
pub open spec fn is_foldable(entries: Seq<Entry>, this_boot: Seq<char>, suspended_nanos: i64) -> bool {
    &&& forall|i: int|
        0 <= i < entries.len() && is_same_boot(entries[i].boot_id@, this_boot) ==> sample_fits(
            #[trigger] entries[i],
            suspended_nanos,
        )
    &&& forall|i: int, j: int|
        0 <= i < entries.len() && 0 <= j < entries.len() && is_same_boot(entries[i].boot_id@, this_boot)
            && is_same_boot(entries[j].boot_id@, this_boot) ==> offsets_compare(
            sample_of(#[trigger] entries[i], suspended_nanos),
            sample_of(#[trigger] entries[j], suspended_nanos),
        )
}

/// The instant of an entry, where it and its offset can be written in 64 bits.
fn checked_sample(e: &Entry, suspended_nanos: i64) -> (r: Option<(i64, i64)>)
    ensures
        match r {
            Some(s) => sample_fits(*e, suspended_nanos) && s == sample_of(*e, suspended_nanos),
            None => !sample_fits(*e, suspended_nanos),
        },
{
    let monotonic: i64 = e.monotonic_micros.checked_mul(1_000)?;
    let boot: i64 = monotonic.checked_add(suspended_nanos)?;
    let wall: i64 = e.realtime_micros.checked_mul(1_000)?;
    let _offset: i64 = wall.checked_sub(boot)?;
    Some((boot, wall))
}

/// Whether [`epochs`] can fold the entries of a boot.
pub fn foldable(entries: &[Entry], this_boot: &str, suspended_nanos: i64) -> (r: bool)
    ensures
        r == is_foldable(entries@, this_boot@, suspended_nanos),
{
    let mut range: Option<(i64, i64)> = None;
    let ghost mut least: int = 0;
    let ghost mut most: int = 0;
    let mut i: usize = 0;
    while i < entries.len()
        invariant
            i <= entries@.len(),
            range is None ==> forall|k: int|
                0 <= k < i ==> !is_same_boot(#[trigger] entries@[k].boot_id@, this_boot@),
            forall|k: int|
                0 <= k < i && is_same_boot(entries@[k].boot_id@, this_boot@) ==> sample_fits(
                    #[trigger] entries@[k],
                    suspended_nanos,
                ),
            range matches Some((low, high)) ==> {
                &&& 0 <= least < i && 0 <= most < i
                &&& is_same_boot(entries@[least].boot_id@, this_boot@)
                &&& is_same_boot(entries@[most].boot_id@, this_boot@)
                &&& low == offset_of(sample_of(entries@[least], suspended_nanos))
                &&& high == offset_of(sample_of(entries@[most], suspended_nanos))
                &&& forall|k: int|
                    0 <= k < i && is_same_boot(entries@[k].boot_id@, this_boot@) ==> low <= offset_of(
                        sample_of(#[trigger] entries@[k], suspended_nanos),
                    ) <= high
            },
        decreases entries.len() - i,
    {
        if same_boot(entries[i].boot_id.as_str(), this_boot) {
            match checked_sample(&entries[i], suspended_nanos) {
                None => {
                    assert(!sample_fits(entries@[i as int], suspended_nanos));
                    return false;
                },
                Some((boot, wall)) => {
                    let offset: i64 = wall - boot;
                    range = match range {
                        None => {
                            proof {
                                least = i as int;
                                most = i as int;
                            }
                            Some((offset, offset))
                        },
                        Some((low, high)) => {
                            proof {
                                if offset < low {
                                    least = i as int;
                                }
                                if offset > high {
                                    most = i as int;
                                }
                            }
                            Some(
                                (
                                    if offset < low {
                                        offset
                                    } else {
                                        low
                                    },
                                    if offset > high {
                                        offset
                                    } else {
                                        high
                                    },
                                ),
                            )
                        },
                    };
                },
            }
        }
        i += 1;
    }
    match range {
        None => true,
        Some((low, high)) => {
            let r = high.checked_sub(low).is_some();
            proof {
                let a = sample_of(entries@[least], suspended_nanos);
                let b = sample_of(entries@[most], suspended_nanos);
                assert(offsets_compare(a, b) == r);
            }
            r
        },
    }
}

/// Folds the entries of a boot into the offset history they imply. `suspended_nanos` brings the
/// monotonic clock of the journal into the frame of the boot clock.
pub fn epochs(
    entries: &[Entry],
    this_boot: &str,
    suspended_nanos: i64,
    step_threshold_nanos: i64,
) -> (r: Vec<Epoch>)
    requires
        is_foldable(entries@, this_boot@, suspended_nanos),
    ensures
        r@ == journal_history(entries@, this_boot@, suspended_nanos, step_threshold_nanos),
{
    let mut samples: Vec<(i64, i64)> = Vec::new();
    let mut i: usize = 0;
    proof {
        assert(entries@.take(0) =~= Seq::<Entry>::empty());
    }
    while i < entries.len()
        invariant
            i <= entries@.len(),
            samples@ == ordered(samples_of(entries@.take(i as int), this_boot@, suspended_nanos)),
            in_order(samples@),
            forall|k: int| 0 <= k < samples@.len() ==> comes_from(#[trigger] samples@[k], entries@, this_boot@, suspended_nanos),
            forall|k: int|
                0 <= k < entries@.len() && is_same_boot(entries@[k].boot_id@, this_boot@) ==> sample_fits(
                    #[trigger] entries@[k],
                    suspended_nanos,
                ),
        decreases entries.len() - i,
    {
        let e = &entries[i];
        proof {
            assert(entries@.take(i + 1).drop_last() =~= entries@.take(i as int));
        }
        if same_boot(e.boot_id.as_str(), this_boot) {
            assert(sample_fits(entries@[i as int], suspended_nanos));
            let x: (i64, i64) = (e.monotonic_micros * 1_000 + suspended_nanos, e.realtime_micros * 1_000);
            let ghost before = samples@;
            let ghost raw = samples_of(entries@.take(i as int), this_boot@, suspended_nanos);
            insert_in_order(&mut samples, x);
            proof {
                assert(raw.push(x).drop_last() =~= raw);
                assert(comes_from(x, entries@, this_boot@, suspended_nanos)) by {
                    assert(x == sample_of(entries@[i as int], suspended_nanos));
                }
                assert forall|k: int| 0 <= k < samples@.len() implies comes_from(#[trigger] samples@[k], entries@, this_boot@, suspended_nanos) by {
                    lemma_member(before, samples@, x, k);
                }
            }
        }
        i += 1;
    }
    proof {
        assert(entries@.take(i as int) =~= entries@);
        assert forall|a: int, b: int| 0 <= a < samples@.len() && 0 <= b < samples@.len() implies offsets_compare(
            #[trigger] samples@[a],
            #[trigger] samples@[b],
        ) by {
            assert(comes_from(samples@[a], entries@, this_boot@, suspended_nanos));
            assert(comes_from(samples@[b], entries@, this_boot@, suspended_nanos));
        }
        assert forall|a: int| 0 <= a < samples@.len() implies i64::MIN <= #[trigger] offset_of(samples@[a]) <= i64::MAX by {
            assert(comes_from(samples@[a], entries@, this_boot@, suspended_nanos));
        }
    }
    fold(&samples, step_threshold_nanos)
}

/// Whether `x` is the instant of an entry of this boot.
spec fn comes_from(x: (i64, i64), entries: Seq<Entry>, this_boot: Seq<char>, suspended_nanos: i64) -> bool {
    exists|i: int|
        0 <= i < entries.len() && is_same_boot(entries[i].boot_id@, this_boot) && x == sample_of(
            #[trigger] entries[i],
            suspended_nanos,
        )
}

proof fn lemma_member(before: Seq<(i64, i64)>, after: Seq<(i64, i64)>, x: (i64, i64), k: int)
    requires
        after.to_multiset() == before.to_multiset().insert(x),
        0 <= k < after.len(),
    ensures
        after[k] == x || exists|j: int| 0 <= j < before.len() && #[trigger] before[j] == after[k],
{
    broadcast use vstd::seq_lib::group_to_multiset_ensures;

    assert(after.to_multiset().count(after[k]) > 0);
    if after[k] != x {
        assert(before.to_multiset().count(after[k]) > 0);
        assert(before.contains(after[k]));
    }
}

fn fold(samples: &Vec<(i64, i64)>, threshold: i64) -> (r: Vec<Epoch>)
    requires
        forall|a: int, b: int|
            0 <= a < samples@.len() && 0 <= b < samples@.len() ==> offsets_compare(
                #[trigger] samples@[a],
                #[trigger] samples@[b],
            ),
        forall|a: int| 0 <= a < samples@.len() ==> i64::MIN <= #[trigger] offset_of(samples@[a]) <= i64::MAX,
    ensures
        r@ == if samples@.len() == 0 {
            Seq::<Epoch>::empty()
        } else {
            history_of(samples@, threshold, samples@.len() as int)
        },
{
    let mut out: Vec<Epoch> = Vec::new();
    if samples.len() == 0 {
        return out;
    }
    assert(i64::MIN <= offset_of(samples@[0]) <= i64::MAX);
    let mut current: i64 = samples[0].1 - samples[0].0;
    let ghost mut from = 0int;
    out.push(Epoch { boot_start: 0, offset: current, source: Source::Journal });
    assert(out@ =~= history_of(samples@, threshold, 1));
    let mut i: usize = 1;
    while i < samples.len()
        invariant
            1 <= i <= samples@.len(),
            out@ == history_of(samples@, threshold, i as int),
            out@.len() > 0,
            current == out@.last().offset,
            0 <= from < samples@.len(),
            current == offset_of(samples@[from]),
            forall|a: int, b: int|
                0 <= a < samples@.len() && 0 <= b < samples@.len() ==> offsets_compare(
                    #[trigger] samples@[a],
                    #[trigger] samples@[b],
                ),
            forall|a: int| 0 <= a < samples@.len() ==> i64::MIN <= #[trigger] offset_of(samples@[a]) <= i64::MAX,
        decreases samples.len() - i,
    {
        assert(i64::MIN <= offset_of(samples@[i as int]) <= i64::MAX);
        let offset: i64 = samples[i].1 - samples[i].0;
        assert(offsets_compare(samples@[i as int], samples@[from]));
        let apart: i64 = if offset >= current { offset - current } else { current - offset };
        if apart > threshold {
            out.push(Epoch { boot_start: samples[i - 1].0, offset, source: Source::Journal });
            current = offset;
            proof {
                from = i as int;
            }
        }
        i += 1;
    }
    out
}

/// A reconstructed history begins at boot, and an empty journal makes none.
pub proof fn law_history_begins_at_boot(
    entries: Seq<Entry>,
    this_boot: Seq<char>,
    suspended_nanos: i64,
    threshold: i64,
)
    ensures
        ({
            let h = journal_history(entries, this_boot, suspended_nanos, threshold);
            let n = samples_of(entries, this_boot, suspended_nanos).len();
            &&& h.len() == 0 <==> n == 0
            &&& n > 0 ==> h[0].boot_start == 0
        }),
{
    let raw = samples_of(entries, this_boot, suspended_nanos);
    law_order_keeps_every_instant(raw);
    lemma_ordered_len(raw);
    if raw.len() > 0 {
        lemma_history_starts(ordered(raw), threshold, raw.len() as int);
    }
}

proof fn lemma_ordered_len(s: Seq<(i64, i64)>)
    ensures
        ordered(s).len() == s.len(),
    decreases s.len(),
{
    if s.len() > 0 {
        lemma_ordered_len(s.drop_last());
        law_order_keeps_every_instant(s.drop_last());
        lemma_inserted_keeps(ordered(s.drop_last()), s.last());
    }
}

proof fn lemma_history_starts(samples: Seq<(i64, i64)>, threshold: i64, n: int)
    ensures
        history_of(samples, threshold, n).len() > 0,
        history_of(samples, threshold, n)[0].boot_start == 0,
    decreases n,
{
    if n > 1 {
        lemma_history_starts(samples, threshold, n - 1);
    }
}

/// The program that dumps the journal of this boot, and its arguments: this boot only, one JSON
/// object per line, the boot id among its fields, no pager.
pub fn journalctl() -> (r: (&'static str, Vec<&'static str>))
    ensures
        r.0@ == "journalctl"@,
        r.1@.len() == 4,
        r.1@[0]@ == "--boot"@,
        r.1@[1]@ == "--output=json"@,
        r.1@[2]@ == "--output-fields=_BOOT_ID"@,
        r.1@[3]@ == "--no-pager"@,
{
    let mut args: Vec<&'static str> = Vec::new();
    args.push("--boot");
    args.push("--output=json");
    args.push("--output-fields=_BOOT_ID");
    args.push("--no-pager");
    ("journalctl", args)
}

} // verus!
