//! What holds of a history that is reconstructed from the journal, whichever way the journal is read.

use vstd::prelude::*;
use vstd::relations::{sorted_by, total_ordering};
use vstd::seq_lib::lemma_sorted_unique;

use crate::collector::epoch::{distance, Epoch};
use crate::collector::journal::{
    history_of, in_order, inserted, is_foldable, is_same_boot, journal_history, law_order_keeps_every_instant,
    lowercased, not_after, offset_of, ordered, sample_fits, sample_of, samples_of, undashed, Entry,
};
use crate::perms::{lemma_same_len, lemma_take_one_out, same_elements};

verus! {

proof fn lemma_samples_without(entries: Seq<Entry>, this_boot: Seq<char>, suspended: i64, at: int)
    requires
        0 <= at < entries.len(),
    ensures
        samples_of(entries, this_boot, suspended).to_multiset() == if is_same_boot(entries[at].boot_id@, this_boot) {
            samples_of(entries.remove(at), this_boot, suspended).to_multiset().insert(
                sample_of(entries[at], suspended),
            )
        } else {
            samples_of(entries.remove(at), this_boot, suspended).to_multiset()
        },
    decreases entries.len(),
{
    let front = entries.drop_last();
    let last = entries.last();
    let all = samples_of(front, this_boot, suspended);
    vstd::seq_lib::to_multiset_build(all, sample_of(last, suspended));
    if at == entries.len() - 1 {
        assert(entries.remove(at) =~= front);
    } else {
        lemma_samples_without(front, this_boot, suspended, at);
        let rest = entries.remove(at);
        assert(rest.drop_last() =~= front.remove(at));
        assert(rest.last() == last);
        let some = samples_of(front.remove(at), this_boot, suspended);
        vstd::seq_lib::to_multiset_build(some, sample_of(last, suspended));
        if is_same_boot(last.boot_id@, this_boot) && is_same_boot(entries[at].boot_id@, this_boot) {
            assert(some.to_multiset().insert(sample_of(entries[at], suspended)).insert(sample_of(last, suspended))
                =~= some.to_multiset().insert(sample_of(last, suspended)).insert(sample_of(entries[at], suspended)));
        }
    }
}

proof fn lemma_same_samples(s: Seq<Entry>, t: Seq<Entry>, this_boot: Seq<char>, suspended: i64)
    requires
        same_elements(s, t),
    ensures
        same_elements(samples_of(s, this_boot, suspended), samples_of(t, this_boot, suspended)),
    decreases s.len(),
{
    lemma_same_len(s, t);
    if s.len() > 0 {
        let at = lemma_take_one_out(s, t);
        lemma_same_samples(s.drop_last(), t.remove(at), this_boot, suspended);
        lemma_samples_without(t, this_boot, suspended, at);
        vstd::seq_lib::to_multiset_build(
            samples_of(s.drop_last(), this_boot, suspended),
            sample_of(s.last(), suspended),
        );
    }
}

proof fn lemma_one_order(s: Seq<(i64, i64)>, t: Seq<(i64, i64)>)
    requires
        same_elements(s, t),
    ensures
        ordered(s) == ordered(t),
{
    let leq = |a: (i64, i64), b: (i64, i64)| not_after(a, b);
    law_order_keeps_every_instant(s);
    law_order_keeps_every_instant(t);
    assert(total_ordering(leq));
    assert(sorted_by(ordered(s), leq)) by {
        assert forall|i: int, j: int| 0 <= i < j < ordered(s).len() implies #[trigger] leq(
            ordered(s)[i],
            ordered(s)[j],
        ) by {
            assert(not_after(ordered(s)[i], ordered(s)[j]));
        }
    }
    assert(sorted_by(ordered(t), leq)) by {
        assert forall|i: int, j: int| 0 <= i < j < ordered(t).len() implies #[trigger] leq(
            ordered(t)[i],
            ordered(t)[j],
        ) by {
            assert(not_after(ordered(t)[i], ordered(t)[j]));
        }
    }
    lemma_sorted_unique(ordered(s), ordered(t), leq);
}

/// The order in which the journal lists its entries makes no difference to the history.
pub proof fn law_the_order_of_entries_makes_no_difference(
    entries: Seq<Entry>,
    others: Seq<Entry>,
    this_boot: Seq<char>,
    suspended: i64,
    threshold: i64,
)
    requires
        same_elements(entries, others),
    ensures
        journal_history(entries, this_boot, suspended, threshold) == journal_history(
            others,
            this_boot,
            suspended,
            threshold,
        ),
{
    lemma_same_samples(entries, others, this_boot, suspended);
    lemma_one_order(
        samples_of(entries, this_boot, suspended),
        samples_of(others, this_boot, suspended),
    );
}

/// Instants moved along the boot clock.
spec fn moved(s: Seq<(i64, i64)>, by: i64) -> Seq<(i64, i64)> {
    s.map_values(|x: (i64, i64)| ((x.0 + by) as i64, x.1))
}

/// Whether instants can be moved, and their offsets be told before and after.
spec fn movable(s: Seq<(i64, i64)>, by: i64) -> bool {
    forall|i: int| 0 <= i < s.len() ==> one_movable(#[trigger] s[i], by)
}

spec fn one_movable(x: (i64, i64), by: i64) -> bool {
    &&& i64::MIN <= x.0 + by <= i64::MAX
    &&& i64::MIN <= offset_of(x) <= i64::MAX
    &&& i64::MIN <= offset_of(x) - by <= i64::MAX
}

proof fn lemma_moved_samples(entries: Seq<Entry>, this_boot: Seq<char>, by: i64)
    requires
        forall|i: int|
            0 <= i < entries.len() && is_same_boot(entries[i].boot_id@, this_boot) ==> sample_fits(
                #[trigger] entries[i],
                0,
            ) && sample_fits(entries[i], by),
    ensures
        samples_of(entries, this_boot, by) == moved(samples_of(entries, this_boot, 0), by),
        movable(samples_of(entries, this_boot, 0), by),
    decreases entries.len(),
{
    if entries.len() == 0 {
        assert(samples_of(entries, this_boot, by) =~= moved(samples_of(entries, this_boot, 0), by));
    } else {
        let front = entries.drop_last();
        assert forall|i: int|
            0 <= i < front.len() && is_same_boot(front[i].boot_id@, this_boot) implies sample_fits(
            #[trigger] front[i],
            0,
        ) && sample_fits(front[i], by) by {
            assert(front[i] == entries[i]);
        }
        lemma_moved_samples(front, this_boot, by);
        let e = entries.last();
        assert(entries[entries.len() - 1] == e);
        if is_same_boot(e.boot_id@, this_boot) {
            assert(sample_fits(e, 0) && sample_fits(e, by));
            let before = samples_of(front, this_boot, 0);
            let x = sample_of(e, 0);
            assert(one_movable(x, by));
            assert(moved(before.push(x), by) =~= moved(before, by).push(sample_of(e, by)));
            assert(movable(before.push(x), by));
        }
    }
}

proof fn lemma_moved_inserted(s: Seq<(i64, i64)>, x: (i64, i64), by: i64)
    requires
        movable(s, by),
        one_movable(x, by),
    ensures
        inserted(moved(s, by), ((x.0 + by) as i64, x.1)) == moved(inserted(s, x), by),
        movable(inserted(s, x), by),
    decreases s.len(),
{
    let y = ((x.0 + by) as i64, x.1);
    let t = moved(s, by);
    if s.len() > 0 {
        assert(one_movable(s[s.len() - 1], by));
        assert(not_after(t.last(), y) == not_after(s.last(), x));
    }
    if s.len() == 0 || not_after(s.last(), x) {
        assert(t.push(y) =~= moved(s.push(x), by));
    } else {
        let front = s.drop_last();
        assert(movable(front, by)) by {
            assert forall|i: int| 0 <= i < front.len() implies one_movable(#[trigger] front[i], by) by {
                assert(front[i] == s[i]);
            }
        }
        lemma_moved_inserted(front, x, by);
        assert(t.drop_last() =~= moved(front, by));
        assert(moved(inserted(front, x), by).push(t.last()) =~= moved(inserted(front, x).push(s.last()), by));
    }
}

proof fn lemma_moved_ordered(s: Seq<(i64, i64)>, by: i64)
    requires
        movable(s, by),
    ensures
        ordered(moved(s, by)) == moved(ordered(s), by),
        movable(ordered(s), by),
    decreases s.len(),
{
    if s.len() == 0 {
        assert(moved(s, by) =~= s);
    } else {
        let front = s.drop_last();
        assert forall|i: int| 0 <= i < front.len() implies one_movable(#[trigger] front[i], by) by {
            assert(front[i] == s[i]);
        }
        assert(one_movable(s[s.len() - 1], by));
        lemma_moved_ordered(front, by);
        assert(moved(s, by).drop_last() =~= moved(front, by));
        lemma_moved_inserted(ordered(front), s.last(), by);
    }
}

/// What moving the frame does to a history.
pub open spec fn shifted_by(shifted: Seq<Epoch>, plain: Seq<Epoch>, by: i64) -> bool {
    &&& shifted.len() == plain.len()
    &&& forall|i: int|
        0 <= i < plain.len() ==> (#[trigger] shifted[i]).offset == plain[i].offset - by && shifted[i].source
            == plain[i].source
    &&& forall|i: int|
        0 <= i < plain.len() ==> (#[trigger] shifted[i]).boot_start == if i == 0 {
            0
        } else {
            plain[i].boot_start + by
        }
}

proof fn lemma_moved_history(s: Seq<(i64, i64)>, by: i64, threshold: i64, n: int)
    requires
        0 < n <= s.len(),
        movable(s, by),
    ensures
        shifted_by(history_of(moved(s, by), threshold, n), history_of(s, threshold, n), by),
        history_of(s, threshold, n).len() > 0,
    decreases n,
{
    let t = moved(s, by);
    assert(one_movable(s[n - 1], by));
    assert(offset_of(t[n - 1]) == offset_of(s[n - 1]) - by);
    if n > 1 {
        lemma_moved_history(s, by, threshold, n - 1);
        assert(one_movable(s[n - 2], by));
        let before = history_of(s, threshold, n - 1);
        let after = history_of(t, threshold, n - 1);
        assert(after[after.len() - 1].offset == before[before.len() - 1].offset - by);
        assert(distance(offset_of(t[n - 1]), after.last().offset as int) == distance(
            offset_of(s[n - 1]),
            before.last().offset as int,
        ));
    } else {
        assert(one_movable(s[0], by));
    }
}

/// Time that was spent asleep moves the whole history: every offset is smaller by it, and every epoch
/// but the first, which begins at boot, starts later by it.
pub proof fn law_suspended_time_shifts_the_history(
    entries: Seq<Entry>,
    this_boot: Seq<char>,
    suspended: i64,
    threshold: i64,
)
    requires
        forall|i: int|
            0 <= i < entries.len() && is_same_boot(entries[i].boot_id@, this_boot) ==> sample_fits(
                #[trigger] entries[i],
                0,
            ) && sample_fits(entries[i], suspended),
    ensures
        shifted_by(
            journal_history(entries, this_boot, suspended, threshold),
            journal_history(entries, this_boot, 0, threshold),
            suspended,
        ),
{
    let s = samples_of(entries, this_boot, 0);
    lemma_moved_samples(entries, this_boot, suspended);
    lemma_moved_ordered(s, suspended);
    let o = ordered(s);
    if o.len() > 0 {
        lemma_moved_history(o, suspended, threshold, o.len() as int);
    }
}

/// When an entry was written, in nanoseconds since boot.
pub open spec fn written_at(e: Entry, suspended: i64) -> int {
    e.monotonic_micros * 1_000 + suspended
}

/// By how much the wall clock was ahead of the boot clock when an entry was written.
pub open spec fn ahead_by(e: Entry, suspended: i64) -> int {
    e.realtime_micros * 1_000 - (e.monotonic_micros * 1_000 + suspended)
}

/// Whether a history has an offset within the threshold, on either side, in force at an instant: an
/// epoch that has begun by then, and that no other has followed before then.
pub open spec fn in_force(h: Seq<Epoch>, k: int, at: int, offset: int, threshold: int) -> bool {
    &&& 0 <= k < h.len()
    &&& k > 0 ==> h[k].boot_start <= at
    &&& k + 1 < h.len() ==> at <= h[k + 1].boot_start
    &&& h[k].offset - threshold <= offset <= h[k].offset + threshold
}

/// Whether a history has such an offset in force at an instant.
pub open spec fn reflects(h: Seq<Epoch>, at: int, offset: int, threshold: int) -> bool {
    exists|k: int| #[trigger] in_force(h, k, at, offset, threshold)
}

/// Whether a boundary of a history is one that the instants show: it is dated to an instant `p`, at
/// which the offset before it still held, and it has the offset of an instant `q`, the next one, which
/// is farther from the offset before it than the threshold.
spec fn is_shown(h: Seq<Epoch>, k: int, s: Seq<(i64, i64)>, p: int, q: int, threshold: int) -> bool {
    let before = h[k - 1].offset as int;
    let after = s[q].1 - s[q].0;
    &&& 0 <= p && q == p + 1 && q < s.len()
    &&& h[k].boot_start == s[p].0
    &&& h[k].offset == after
    &&& after < before - threshold || after > before + threshold
    &&& before - threshold <= s[p].1 - s[p].0 <= before + threshold
}

spec fn shown_somewhere(h: Seq<Epoch>, k: int, s: Seq<(i64, i64)>, threshold: int) -> bool {
    exists|p: int, q: int| #[trigger] is_shown(h, k, s, p, q, threshold)
}

proof fn lemma_history(s: Seq<(i64, i64)>, threshold: i64, n: int)
    requires
        0 < n <= s.len(),
        0 <= threshold,
        in_order(s),
        forall|i: int| 0 <= i < s.len() ==> i64::MIN <= #[trigger] s[i].1 - s[i].0 <= i64::MAX,
    ensures
        ({
            let h = history_of(s, threshold, n);
            &&& h.len() > 0
            &&& h[0].boot_start == 0 && h[0].offset == s[0].1 - s[0].0
            &&& forall|k: int| 0 < k < h.len() ==> (#[trigger] h[k]).boot_start <= s[n - 1].0
            &&& forall|k: int| 0 <= k < h.len() ==> (#[trigger] h[k]).source == crate::collector::epoch::Source::Journal
            &&& in_force(h, h.len() - 1, s[n - 1].0 as int, s[n - 1].1 - s[n - 1].0, threshold as int)
            &&& forall|i: int|
                0 <= i < n ==> reflects(h, (#[trigger] s[i]).0 as int, s[i].1 - s[i].0, threshold as int)
            &&& forall|k: int|
                0 < k < h.len() ==> #[trigger] shown_somewhere(h, k, s, threshold as int)
        }),
    decreases n,
{
    let h = history_of(s, threshold, n);
    assert(i64::MIN <= s[n - 1].1 - s[n - 1].0 <= i64::MAX);
    assert(i64::MIN <= s[0].1 - s[0].0 <= i64::MAX);
    if n == 1 {
        assert(in_force(h, 0, s[0].0 as int, s[0].1 - s[0].0, threshold as int));
    } else {
        lemma_history(s, threshold, n - 1);
        let old = history_of(s, threshold, n - 1);
        assert(not_after(s[n - 2], s[n - 1]));
        assert forall|i: int| 0 <= i < n implies reflects(
            h,
            (#[trigger] s[i]).0 as int,
            s[i].1 - s[i].0,
            threshold as int,
        ) by {
            if i < n - 1 {
                let (at, offset) = (s[i].0 as int, s[i].1 - s[i].0);
                assert(reflects(old, at, offset, threshold as int));
                let k = choose|k: int| #[trigger] in_force(old, k, at, offset, threshold as int);
                if i < n - 2 {
                    assert(not_after(s[i], s[n - 2]));
                }
                assert(in_force(h, k, s[i].0 as int, s[i].1 - s[i].0, threshold as int));
            } else {
                assert(in_force(h, h.len() - 1, s[i].0 as int, s[i].1 - s[i].0, threshold as int));
            }
        }
        assert forall|k: int| 0 < k < h.len() implies #[trigger] shown_somewhere(h, k, s, threshold as int) by {
            if k < old.len() {
                assert(shown_somewhere(old, k, s, threshold as int));
                let (p, q) = choose|p: int, q: int| #[trigger] is_shown(old, k, s, p, q, threshold as int);
                assert(is_shown(h, k, s, p, q, threshold as int));
            } else {
                assert(h[k - 1] == old.last());
                assert(is_shown(h, k, s, n - 2, n - 1, threshold as int));
            }
        }
    }
}

proof fn lemma_entries_are_sampled(entries: Seq<Entry>, this_boot: Seq<char>, suspended: i64)
    ensures
        forall|i: int|
            0 <= i < entries.len() && is_same_boot(entries[i].boot_id@, this_boot) ==> samples_of(
                entries,
                this_boot,
                suspended,
            ).contains(sample_of(#[trigger] entries[i], suspended)),
        forall|x: (i64, i64)| #[trigger]
            samples_of(entries, this_boot, suspended).contains(x) ==> exists|i: int|
                0 <= i < entries.len() && is_same_boot(entries[i].boot_id@, this_boot) && x == sample_of(
                    #[trigger] entries[i],
                    suspended,
                ),
    decreases entries.len(),
{
    if entries.len() > 0 {
        let front = entries.drop_last();
        lemma_entries_are_sampled(front, this_boot, suspended);
        let some = samples_of(front, this_boot, suspended);
        let all = samples_of(entries, this_boot, suspended);
        let e = entries.last();
        assert forall|i: int|
            0 <= i < entries.len() && is_same_boot(entries[i].boot_id@, this_boot) implies all.contains(
            sample_of(#[trigger] entries[i], suspended),
        ) by {
            if i < front.len() {
                assert(front[i] == entries[i]);
                let j = choose|j: int| 0 <= j < some.len() && some[j] == sample_of(entries[i], suspended);
                assert(all[j] == some[j]);
            } else {
                assert(all[some.len() as int] == sample_of(e, suspended));
            }
        }
        assert forall|x: (i64, i64)| #[trigger] all.contains(x) implies exists|i: int|
            0 <= i < entries.len() && is_same_boot(entries[i].boot_id@, this_boot) && x == sample_of(
                #[trigger] entries[i],
                suspended,
            ) by {
            let j = choose|j: int| 0 <= j < all.len() && all[j] == x;
            if j < some.len() {
                assert(some[j] == x);
                assert(some.contains(x));
                let i = choose|i: int|
                    0 <= i < front.len() && is_same_boot(front[i].boot_id@, this_boot) && x == sample_of(
                        #[trigger] front[i],
                        suspended,
                    );
                assert(entries[i] == front[i]);
            } else {
                assert(entries[entries.len() - 1] == e);
            }
        }
    }
}

proof fn lemma_same_members<A>(s: Seq<A>, t: Seq<A>, x: A)
    requires
        s.to_multiset() == t.to_multiset(),
    ensures
        s.contains(x) <==> t.contains(x),
{
    broadcast use vstd::seq_lib::group_to_multiset_ensures;

    assert(s.contains(x) <==> s.to_multiset().count(x) > 0);
    assert(t.contains(x) <==> t.to_multiset().count(x) > 0);
}

/// Whether two entries show a boundary between them: at the first the offset before the boundary still
/// held, the second shows the one behind it, and no entry of this boot was written between the two.
pub open spec fn show_boundary(
    entries: Seq<Entry>,
    this_boot: Seq<char>,
    suspended: i64,
    threshold: int,
    h: Seq<Epoch>,
    k: int,
    p: int,
    q: int,
) -> bool {
    let before = h[k - 1].offset as int;
    &&& 0 <= p < entries.len() && 0 <= q < entries.len()
    &&& is_same_boot(entries[p].boot_id@, this_boot) && is_same_boot(entries[q].boot_id@, this_boot)
    &&& h[k].boot_start == written_at(entries[p], suspended)
    &&& h[k].offset == ahead_by(entries[q], suspended)
    &&& before - threshold <= ahead_by(entries[p], suspended) <= before + threshold
    &&& h[k].offset < before - threshold || h[k].offset > before + threshold
    &&& written_at(entries[p], suspended) <= written_at(entries[q], suspended)
    &&& forall|e: int|
        0 <= e < entries.len() && is_same_boot((#[trigger] entries[e]).boot_id@, this_boot) ==> written_at(
            entries[e],
            suspended,
        ) <= written_at(entries[p], suspended) || written_at(entries[e], suspended) >= written_at(
            entries[q],
            suspended,
        )
}

/// Whether some two entries show a boundary.
pub open spec fn is_boundary(
    entries: Seq<Entry>,
    this_boot: Seq<char>,
    suspended: i64,
    threshold: int,
    h: Seq<Epoch>,
    k: int,
) -> bool {
    exists|p: int, q: int| #[trigger] show_boundary(entries, this_boot, suspended, threshold, h, k, p, q)
}

/// Every entry of this boot is reflected in the history: at its instant the history has an offset in
/// force that lies within the threshold of the entry's own, on either side. So a step of the clock in
/// either direction is a boundary. Nor has the history any boundary that no entries show: each is dated
/// to the last entry that still showed the offset before it, and has the offset of the entry behind
/// that. The history begins at boot, with the offset of the earliest entry.
pub proof fn law_every_entry_is_reflected(
    entries: Seq<Entry>,
    this_boot: Seq<char>,
    suspended: i64,
    threshold: i64,
)
    requires
        is_foldable(entries, this_boot, suspended),
        0 <= threshold,
    ensures
        ({
            let h = journal_history(entries, this_boot, suspended, threshold);
            &&& forall|i: int|
                0 <= i < entries.len() && is_same_boot(entries[i].boot_id@, this_boot) ==> reflects(
                        h,
                        written_at(#[trigger] entries[i], suspended),
                        ahead_by(entries[i], suspended),
                        threshold as int,
                    )
            &&& forall|k: int|
                0 < k < h.len() ==> #[trigger] is_boundary(entries, this_boot, suspended, threshold as int, h, k)
            &&& h.len() > 0 ==> h[0].boot_start == 0 && exists|i: int|
                {
                    &&& 0 <= i < entries.len()
                    &&& is_same_boot(entries[i].boot_id@, this_boot)
                    &&& h[0].offset == ahead_by(#[trigger] entries[i], suspended)
                    &&& forall|e: int|
                        0 <= e < entries.len() && is_same_boot((#[trigger] entries[e]).boot_id@, this_boot)
                            ==> written_at(entries[i], suspended) <= written_at(entries[e], suspended)
                }
            &&& forall|k: int| 0 <= k < h.len() ==> (#[trigger] h[k]).source == crate::collector::epoch::Source::Journal
        }),
{
    let s = ordered(samples_of(entries, this_boot, suspended));
    let h = journal_history(entries, this_boot, suspended, threshold);
    law_order_keeps_every_instant(samples_of(entries, this_boot, suspended));
    if s.len() == 0 {
        assert forall|i: int|
            0 <= i < entries.len() && is_same_boot(entries[i].boot_id@, this_boot) implies reflects(
            h,
            written_at(#[trigger] entries[i], suspended),
            ahead_by(entries[i], suspended),
            threshold as int,
        ) by {
            let j = lemma_instant_of(entries, this_boot, suspended, i);
        }
    } else {
        assert forall|i: int| 0 <= i < s.len() implies i64::MIN <= #[trigger] s[i].1 - s[i].0 <= i64::MAX by {
            let e = lemma_entry_of(entries, this_boot, suspended, i);
        }
        lemma_history(s, threshold, s.len() as int);
        assert forall|i: int|
            0 <= i < entries.len() && is_same_boot(entries[i].boot_id@, this_boot) implies reflects(
            h,
            written_at(#[trigger] entries[i], suspended),
            ahead_by(entries[i], suspended),
            threshold as int,
        ) by {
            let j = lemma_instant_of(entries, this_boot, suspended, i);
            assert(reflects(h, s[j].0 as int, s[j].1 - s[j].0, threshold as int));
        }
        assert forall|k: int| 0 < k < h.len() implies #[trigger] is_boundary(
            entries,
            this_boot,
            suspended,
            threshold as int,
            h,
            k,
        ) by {
            lemma_boundary(entries, this_boot, suspended, threshold, k);
        }
        let first = lemma_entry_of(entries, this_boot, suspended, 0);
        assert(h[0].offset == ahead_by(entries[first], suspended));
        assert forall|e: int|
            0 <= e < entries.len() && is_same_boot((#[trigger] entries[e]).boot_id@, this_boot) implies written_at(
            entries[first],
            suspended,
        ) <= written_at(entries[e], suspended) by {
            let j = lemma_instant_of(entries, this_boot, suspended, e);
            if j > 0 {
                assert(not_after(s[0], s[j]));
            }
        }
    }
}

/// The entry that an instant is of.
proof fn lemma_entry_of(entries: Seq<Entry>, this_boot: Seq<char>, suspended: i64, i: int) -> (e: int)
    requires
        is_foldable(entries, this_boot, suspended),
        0 <= i < ordered(samples_of(entries, this_boot, suspended)).len(),
    ensures
        0 <= e < entries.len(),
        is_same_boot(entries[e].boot_id@, this_boot),
        ({
            let x = ordered(samples_of(entries, this_boot, suspended))[i];
            &&& x.0 == written_at(entries[e], suspended)
            &&& x.1 - x.0 == ahead_by(entries[e], suspended)
            &&& i64::MIN <= x.1 - x.0 <= i64::MAX
        }),
{
    let raw = samples_of(entries, this_boot, suspended);
    let s = ordered(raw);
    law_order_keeps_every_instant(raw);
    lemma_entries_are_sampled(entries, this_boot, suspended);
    assert(s.contains(s[i]));
    lemma_same_members(s, raw, s[i]);
    let e = choose|e: int|
        0 <= e < entries.len() && is_same_boot(entries[e].boot_id@, this_boot) && s[i] == sample_of(
            #[trigger] entries[e],
            suspended,
        );
    assert(sample_fits(entries[e], suspended));
    e
}

/// The instant of an entry.
proof fn lemma_instant_of(entries: Seq<Entry>, this_boot: Seq<char>, suspended: i64, e: int) -> (i: int)
    requires
        is_foldable(entries, this_boot, suspended),
        0 <= e < entries.len(),
        is_same_boot(entries[e].boot_id@, this_boot),
    ensures
        0 <= i < ordered(samples_of(entries, this_boot, suspended)).len(),
        ({
            let x = ordered(samples_of(entries, this_boot, suspended))[i];
            &&& x.0 == written_at(entries[e], suspended)
            &&& x.1 - x.0 == ahead_by(entries[e], suspended)
        }),
{
    let raw = samples_of(entries, this_boot, suspended);
    let s = ordered(raw);
    law_order_keeps_every_instant(raw);
    lemma_entries_are_sampled(entries, this_boot, suspended);
    let x = sample_of(entries[e], suspended);
    assert(raw.contains(x));
    lemma_same_members(s, raw, x);
    assert(sample_fits(entries[e], suspended));
    choose|i: int| 0 <= i < s.len() && s[i] == x
}

proof fn lemma_boundary(entries: Seq<Entry>, this_boot: Seq<char>, suspended: i64, threshold: i64, k: int)
    requires
        is_foldable(entries, this_boot, suspended),
        0 <= threshold,
        0 < k < journal_history(entries, this_boot, suspended, threshold).len(),
        shown_somewhere(
            journal_history(entries, this_boot, suspended, threshold),
            k,
            ordered(samples_of(entries, this_boot, suspended)),
            threshold as int,
        ),
    ensures
        is_boundary(
            entries,
            this_boot,
            suspended,
            threshold as int,
            journal_history(entries, this_boot, suspended, threshold),
            k,
        ),
{
    let s = ordered(samples_of(entries, this_boot, suspended));
    let h = journal_history(entries, this_boot, suspended, threshold);
    law_order_keeps_every_instant(samples_of(entries, this_boot, suspended));
    let (x, y) = choose|x: int, y: int| #[trigger] is_shown(h, k, s, x, y, threshold as int);
    let p = lemma_entry_of(entries, this_boot, suspended, x);
    let q = lemma_entry_of(entries, this_boot, suspended, y);
    assert(not_after(s[x], s[y]));
    assert forall|e: int|
        0 <= e < entries.len() && is_same_boot((#[trigger] entries[e]).boot_id@, this_boot) implies written_at(
        entries[e],
        suspended,
    ) <= written_at(entries[p], suspended) || written_at(entries[e], suspended) >= written_at(
        entries[q],
        suspended,
    ) by {
        let j = lemma_instant_of(entries, this_boot, suspended, e);
        if j < x {
            assert(not_after(s[j], s[x]));
        } else if j > y {
            assert(not_after(s[y], s[j]));
        }
    }
    assert(show_boundary(entries, this_boot, suspended, threshold as int, h, k, p, q));
}

/// Between two entries of this boot whose offsets lie farther apart than twice the threshold, in either
/// direction, the history has a boundary.
pub proof fn law_steps_are_boundaries(
    entries: Seq<Entry>,
    this_boot: Seq<char>,
    suspended: i64,
    threshold: i64,
    a: int,
    b: int,
)
    requires
        is_foldable(entries, this_boot, suspended),
        0 <= threshold,
        0 <= a < entries.len(),
        0 <= b < entries.len(),
        is_same_boot(entries[a].boot_id@, this_boot),
        is_same_boot(entries[b].boot_id@, this_boot),
        written_at(entries[a], suspended) <= written_at(entries[b], suspended),
        ahead_by(entries[b], suspended) - ahead_by(entries[a], suspended) > 2 * threshold || ahead_by(
            entries[a],
            suspended,
        ) - ahead_by(entries[b], suspended) > 2 * threshold,
    ensures
        ({
            let h = journal_history(entries, this_boot, suspended, threshold);
            exists|k: int|
                0 < k < h.len() && written_at(entries[a], suspended) <= (#[trigger] h[k]).boot_start <= written_at(
                    entries[b],
                    suspended,
                )
        }),
{
    law_every_entry_is_reflected(entries, this_boot, suspended, threshold);
    let h = journal_history(entries, this_boot, suspended, threshold);
    let x = entries[a];
    let y = entries[b];
    let (at_x, off_x) = (written_at(x, suspended), ahead_by(x, suspended));
    let (at_y, off_y) = (written_at(y, suspended), ahead_by(y, suspended));
    assert(reflects(h, at_x, off_x, threshold as int) && reflects(h, at_y, off_y, threshold as int));
    let i = choose|k: int| #[trigger] in_force(h, k, at_x, off_x, threshold as int);
    let j = choose|k: int| #[trigger] in_force(h, k, at_y, off_y, threshold as int);
    assert(i != j);
    lemma_boundaries_in_order(entries, this_boot, suspended, threshold);
    if i < j {
        assert(h[i + 1].boot_start <= h[j].boot_start);
        assert(written_at(x, suspended) <= h[i + 1].boot_start <= written_at(y, suspended));
    } else {
        assert(h[j + 1].boot_start <= h[i].boot_start);
        assert(written_at(x, suspended) <= h[i].boot_start <= written_at(y, suspended));
    }
}

/// The boundaries of a reconstructed history stand in the order of their times.
proof fn lemma_boundaries_in_order(entries: Seq<Entry>, this_boot: Seq<char>, suspended: i64, threshold: i64)
    requires
        is_foldable(entries, this_boot, suspended),
        0 <= threshold,
    ensures
        ({
            let h = journal_history(entries, this_boot, suspended, threshold);
            forall|i: int, j: int| 0 < i <= j < h.len() ==> (#[trigger] h[i]).boot_start <= (#[trigger] h[j]).boot_start
        }),
{
    let raw = samples_of(entries, this_boot, suspended);
    law_order_keeps_every_instant(raw);
    if ordered(raw).len() > 0 {
        lemma_starts_in_order(ordered(raw), threshold, ordered(raw).len() as int);
    }
}

proof fn lemma_starts_in_order(s: Seq<(i64, i64)>, threshold: i64, n: int)
    requires
        0 < n <= s.len(),
        in_order(s),
    ensures
        ({
            let h = history_of(s, threshold, n);
            &&& h.len() > 0
            &&& forall|k: int| 0 < k < h.len() ==> (#[trigger] h[k]).boot_start <= s[n - 1].0
            &&& forall|i: int, j: int|
                0 < i <= j < h.len() ==> (#[trigger] h[i]).boot_start <= (#[trigger] h[j]).boot_start
        }),
    decreases n,
{
    if n > 1 {
        lemma_starts_in_order(s, threshold, n - 1);
        assert(not_after(s[n - 2], s[n - 1]));
    }
}

/// A text of lower-case hexadecimal digits names one boot: none that is spelled otherwise, but for
/// dashes and case.
pub proof fn law_boots_are_told_apart(a: Seq<char>, b: Seq<char>)
    requires
        all_hex(a),
        all_hex(b),
        a.len() > 0,
    ensures
        is_same_boot(a, b) <==> a == b,
{
    lemma_hex_form(a);
    lemma_hex_form(b);
}

/// Whether a text is made of decimal digits and the letters from `a` to `f`.
pub open spec fn all_hex(s: Seq<char>) -> bool {
    forall|i: int| 0 <= i < s.len() ==> '0' <= #[trigger] s[i] <= '9' || 'a' <= s[i] <= 'f'
}

proof fn lemma_hex_form(s: Seq<char>)
    requires
        all_hex(s),
    ensures
        lowercased(undashed(s)) == s,
    decreases s.len(),
{
    reveal(Seq::filter);
    if s.len() == 0 {
        assert(undashed(s) =~= s);
    } else {
        let front = s.drop_last();
        assert forall|i: int| 0 <= i < front.len() implies '0' <= #[trigger] front[i] <= '9' || 'a' <= front[i]
            <= 'f' by {
            assert(front[i] == s[i]);
        }
        lemma_hex_form(front);
        assert('0' <= s[s.len() - 1] <= '9' || 'a' <= s[s.len() - 1] <= 'f');
        assert(undashed(s) =~= undashed(front).push(s.last()));
        assert(undashed(s).drop_last() =~= undashed(front));
        assert(lowercased(undashed(s)) =~= front.push(s.last()));
    }
}

} // verus!
