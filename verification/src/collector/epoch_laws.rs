//! What a timestamp means under a history, told by the epochs' own numbers.

use vstd::prelude::*;

use crate::collector::epoch::{
    candidates, collapsed, distance, explains, extended, has_near, highest, lowest, nearest, resolved, Epoch, Query,
    Resolution,
};

verus! {

/// The boot time that a timestamp denotes if it was written under an epoch.
pub open spec fn seen_from(e: Epoch, q: Query) -> int {
    q.stamped - e.offset
}

/// `n`, moved to the nearer end of what an `i64` can say.
pub open spec fn kept_within(n: int) -> int {
    if n > i64::MAX {
        i64::MAX as int
    } else if n < i64::MIN {
        i64::MIN as int
    } else {
        n
    }
}

/// Whether a timestamp can have been written under an epoch: after the epoch began and before the next
/// one did, and after the sender started and no later than receipt, each but for the tolerance.
#[verifier::opaque]
pub open spec fn can_be_from(es: Seq<Epoch>, i: int, q: Query, tolerance: int) -> bool {
    let event = seen_from(es[i], q);
    &&& 0 <= i < es.len()
    &&& i64::MIN <= event <= i64::MAX
    &&& kept_within(es[i].boot_start - tolerance) <= event
    &&& i + 1 < es.len() ==> event < kept_within(es[i + 1].boot_start + tolerance)
    &&& i + 1 == es.len() ==> event < kept_within(i64::MAX + tolerance)
    &&& kept_within(q.sender_started - tolerance) <= event
    &&& event <= kept_within(q.received + tolerance)
}

/// How far apart two numbers lie.
pub open spec fn apart(a: int, b: int) -> int {
    if a < b {
        b - a
    } else {
        a - b
    }
}

/// Whether a candidate is one that an epoch offers.
spec fn is_offered(es: Seq<Epoch>, q: Query, tolerance: i64, n: int, x: i64) -> bool {
    exists|i: int| 0 <= i < n && #[trigger] can_be_from(es, i, q, tolerance as int) && x == seen_from(es[i], q)
}

/// Whether a candidate is near one of the found, or is one of them.
spec fn is_covered(found: Seq<i64>, x: int, tolerance: i64) -> bool {
    exists|k: int| 0 <= k < found.len() && (#[trigger] found[k] == x || apart(found[k] as int, x) < tolerance)
}

proof fn lemma_candidates(es: Seq<Epoch>, q: Query, tolerance: i64, n: int)
    requires
        0 <= n <= es.len(),
    ensures
        ({
            let found = candidates(es, q, tolerance, n);
            &&& forall|k: int| 0 <= k < found.len() ==> is_offered(es, q, tolerance, n, #[trigger] found[k])
            &&& forall|i: int|
                0 <= i < n && #[trigger] can_be_from(es, i, q, tolerance as int) ==> is_covered(
                    found,
                    seen_from(es[i], q),
                    tolerance,
                )
            &&& forall|j: int, k: int|
                0 <= j < k < found.len() ==> apart(#[trigger] found[j] as int, #[trigger] found[k] as int) >= tolerance
        }),
    decreases n,
{
    if n > 0 {
        lemma_candidates(es, q, tolerance, n - 1);
        let old = candidates(es, q, tolerance, n - 1);
        let found = candidates(es, q, tolerance, n);
        let event = seen_from(es[n - 1], q);
        assert(explains(es, n - 1, q, tolerance) <==> can_be_from(es, n - 1, q, tolerance as int)) by {
            reveal(can_be_from);
        }
        assert forall|k: int| 0 <= k < found.len() implies is_offered(es, q, tolerance, n, #[trigger] found[k]) by {
            if k < old.len() {
                assert(is_offered(es, q, tolerance, n - 1, old[k]));
                let i = choose|i: int|
                    0 <= i < n - 1 && #[trigger] can_be_from(es, i, q, tolerance as int) && old[k] == seen_from(
                        es[i],
                        q,
                    );
                assert(can_be_from(es, i, q, tolerance as int));
            } else {
                assert(can_be_from(es, n - 1, q, tolerance as int));
            }
        }
        assert forall|i: int| 0 <= i < n && #[trigger] can_be_from(es, i, q, tolerance as int) implies is_covered(
            found,
            seen_from(es[i], q),
            tolerance,
        ) by {
            if i < n - 1 {
                assert(is_covered(old, seen_from(es[i], q), tolerance));
                let k = choose|k: int|
                    0 <= k < old.len() && (#[trigger] old[k] == seen_from(es[i], q) || apart(
                        old[k] as int,
                        seen_from(es[i], q),
                    ) < tolerance);
                assert(found[k] == old[k]);
            } else if has_near(old, event, tolerance) {
                let k = choose|k: int| 0 <= k < old.len() && distance(#[trigger] old[k] as int, event) < tolerance;
                assert(found[k] == old[k]);
            } else {
                assert(found[old.len() as int] == event);
            }
        }
        assert forall|j: int, k: int| 0 <= j < k < found.len() implies apart(
            #[trigger] found[j] as int,
            #[trigger] found[k] as int,
        ) >= tolerance by {
            if k == old.len() {
                assert(!has_near(old, event, tolerance));
                assert(distance(old[j] as int, event) >= tolerance);
            }
        }
    }
}

proof fn lemma_chosen(s: Seq<i64>, received: i64)
    requires
        s.len() > 0,
    ensures
        s.contains(nearest(s, received)),
        s.contains(lowest(s)),
        s.contains(highest(s)),
        forall|k: int| 0 <= k < s.len() ==> lowest(s) <= #[trigger] s[k] <= highest(s),
        forall|k: int|
            0 <= k < s.len() ==> apart(received as int, nearest(s, received) as int) <= apart(
                received as int,
                #[trigger] s[k] as int,
            ),
    decreases s.len(),
{
    if s.len() == 1 {
        assert(s[0] == nearest(s, received));
    } else {
        let front = s.drop_last();
        lemma_chosen(front, received);
        assert forall|x: i64| front.contains(x) implies s.contains(x) by {
            let k = choose|k: int| 0 <= k < front.len() && front[k] == x;
            assert(s[k] == x);
        }
        assert(s[s.len() - 1] == s.last());
        assert(s.contains(s.last()));
        assert forall|k: int| 0 <= k < s.len() implies lowest(s) <= #[trigger] s[k] <= highest(s) && apart(
            received as int,
            nearest(s, received) as int,
        ) <= apart(received as int, s[k] as int) by {
            if k < front.len() {
                assert(front[k] == s[k]);
            }
        }
    }
}

/// A timestamp passes through exactly where it can have been written under no epoch. It is resolved to
/// one boot time where all epochs that it can be from agree on that one, but for the tolerance. Where
/// they do not, the boot time is one of theirs and, but for the tolerance, none of theirs is nearer to
/// receipt; and the spread is how far two of theirs lie apart, and none lie farther, but for twice the
/// tolerance.
pub proof fn law_resolution_follows_the_epochs(es: Seq<Epoch>, q: Query, tolerance: i64)
    requires
        0 <= tolerance,
        kept_within(q.received + tolerance) - kept_within(q.sender_started - tolerance) <= i64::MAX,
    ensures
        match resolved(es, q, tolerance) {
            Resolution::Passthrough => forall|i: int| !#[trigger] can_be_from(es, i, q, tolerance as int),
            Resolution::Exact { boottime } => {
                &&& exists|i: int| #[trigger] can_be_from(es, i, q, tolerance as int) && boottime == seen_from(es[i], q)
                &&& forall|i: int| #[trigger]
                    can_be_from(es, i, q, tolerance as int) ==> boottime == seen_from(es[i], q) || apart(
                        boottime as int,
                        seen_from(es[i], q),
                    ) < tolerance
            },
            Resolution::Ambiguous { boottime, spread } => {
                &&& exists|i: int| #[trigger] can_be_from(es, i, q, tolerance as int) && boottime == seen_from(es[i], q)
                &&& forall|i: int| #[trigger]
                    can_be_from(es, i, q, tolerance as int) ==> apart(q.received as int, boottime as int) <= apart(
                        q.received as int,
                        seen_from(es[i], q),
                    ) + tolerance
                &&& spread >= tolerance
                &&& exists|i: int, j: int| #[trigger]
                    can_be_from(es, i, q, tolerance as int) && #[trigger] can_be_from(es, j, q, tolerance as int)
                        && spread == seen_from(es[i], q) - seen_from(es[j], q)
                &&& forall|i: int, j: int| #[trigger]
                    can_be_from(es, i, q, tolerance as int) && #[trigger] can_be_from(es, j, q, tolerance as int)
                        ==> seen_from(es[i], q) - seen_from(es[j], q) <= spread + 2 * tolerance
            },
        },
{
    let n = es.len() as int;
    let found = candidates(es, q, tolerance, n);
    lemma_candidates(es, q, tolerance, n);
    lemma_window(es, q, tolerance);
    if found.len() == 0 {
        assert forall|i: int| !#[trigger] can_be_from(es, i, q, tolerance as int) by {
            if can_be_from(es, i, q, tolerance as int) {
                assert(is_covered(found, seen_from(es[i], q), tolerance));
            }
        }
    } else if found.len() == 1 {
        assert(is_offered(es, q, tolerance, n, found[0]));
        assert forall|i: int| #[trigger] can_be_from(es, i, q, tolerance as int) implies found[0] == seen_from(es[i], q)
            || apart(found[0] as int, seen_from(es[i], q)) < tolerance by {
            assert(is_covered(found, seen_from(es[i], q), tolerance));
        }
    } else {
        lemma_spread(es, q, tolerance);
    }
}

proof fn lemma_window(es: Seq<Epoch>, q: Query, tolerance: i64)
    ensures
        forall|i: int| #[trigger]
            can_be_from(es, i, q, tolerance as int) ==> 0 <= i < es.len() && kept_within(q.sender_started - tolerance)
                <= seen_from(es[i], q) <= kept_within(q.received + tolerance),
{
    reveal(can_be_from);
}

proof fn lemma_spread(es: Seq<Epoch>, q: Query, tolerance: i64)
    requires
        0 <= tolerance,
        kept_within(q.received + tolerance) - kept_within(q.sender_started - tolerance) <= i64::MAX,
        candidates(es, q, tolerance, es.len() as int).len() >= 2,
    ensures
        resolved(es, q, tolerance) is Ambiguous,
        ({
            let boottime = resolved(es, q, tolerance)->Ambiguous_boottime;
            let spread = resolved(es, q, tolerance)->Ambiguous_spread;
            &&& exists|i: int| #[trigger] can_be_from(es, i, q, tolerance as int) && boottime == seen_from(es[i], q)
            &&& forall|i: int| #[trigger]
                    can_be_from(es, i, q, tolerance as int) ==> apart(q.received as int, boottime as int) <= apart(
                        q.received as int,
                        seen_from(es[i], q),
                    ) + tolerance
            &&& spread >= tolerance
            &&& exists|i: int, j: int| #[trigger]
                    can_be_from(es, i, q, tolerance as int) && #[trigger] can_be_from(es, j, q, tolerance as int)
                        && spread == seen_from(es[i], q) - seen_from(es[j], q)
            &&& forall|i: int, j: int| #[trigger]
                    can_be_from(es, i, q, tolerance as int) && #[trigger] can_be_from(es, j, q, tolerance as int)
                        ==> seen_from(es[i], q) - seen_from(es[j], q) <= spread + 2 * tolerance
        }),
{
    let found = candidates(es, q, tolerance, es.len() as int);
    lemma_chosen(found, q.received);
    let b = nearest(found, q.received);
    let low = lowest(found);
    let high = highest(found);
    let ib = lemma_offered(es, q, tolerance, b);
    let il = lemma_offered(es, q, tolerance, low);
    let ih = lemma_offered(es, q, tolerance, high);
    assert(high - low >= tolerance) by {
        lemma_candidates(es, q, tolerance, es.len() as int);
        assert(apart(found[0] as int, found[1] as int) >= tolerance);
    }
    lemma_window(es, q, tolerance);
    assert(resolved(es, q, tolerance) == (Resolution::Ambiguous { boottime: b, spread: (high - low) as i64 }));
    assert forall|i: int| #[trigger] can_be_from(es, i, q, tolerance as int) implies apart(q.received as int, b as int)
        <= apart(q.received as int, seen_from(es[i], q)) + tolerance && low - tolerance <= seen_from(es[i], q) <= high
        + tolerance by {
        let k = lemma_covering(es, q, tolerance, i);
        assert(low <= found[k] <= high);
    }
}

proof fn lemma_offered(es: Seq<Epoch>, q: Query, tolerance: i64, x: i64) -> (i: int)
    requires
        candidates(es, q, tolerance, es.len() as int).contains(x),
    ensures
        can_be_from(es, i, q, tolerance as int),
        x == seen_from(es[i], q),
{
    let n = es.len() as int;
    let found = candidates(es, q, tolerance, n);
    lemma_candidates(es, q, tolerance, n);
    let k = choose|k: int| 0 <= k < found.len() && found[k] == x;
    assert(is_offered(es, q, tolerance, n, found[k]));
    choose|i: int| 0 <= i < n && #[trigger] can_be_from(es, i, q, tolerance as int) && x == seen_from(es[i], q)
}

proof fn lemma_covering(es: Seq<Epoch>, q: Query, tolerance: i64, i: int) -> (k: int)
    requires
        can_be_from(es, i, q, tolerance as int),
        0 <= tolerance,
    ensures
        0 <= k < candidates(es, q, tolerance, es.len() as int).len(),
        apart(candidates(es, q, tolerance, es.len() as int)[k] as int, seen_from(es[i], q)) <= tolerance,
{
    let n = es.len() as int;
    let found = candidates(es, q, tolerance, n);
    lemma_candidates(es, q, tolerance, n);
    lemma_window(es, q, tolerance);
    assert(is_covered(found, seen_from(es[i], q), tolerance));
    choose|k: int|
        0 <= k < found.len() && (#[trigger] found[k] == seen_from(es[i], q) || apart(
            found[k] as int,
            seen_from(es[i], q),
        ) < tolerance)
}

/// A boundary is taken in exactly where it is later than all that are known and changes the offset.
/// Nothing that is known is changed by it.
pub proof fn law_later_boundaries_are_taken_in(es: Seq<Epoch>, epoch: Epoch)
    requires
        es.len() > 0,
    ensures
        epoch.boot_start > es.last().boot_start && epoch.offset != es.last().offset ==> extended(es, epoch).len()
            == es.len() + 1 && extended(es, epoch).last() == epoch,
        epoch.boot_start <= es.last().boot_start || epoch.offset == es.last().offset ==> extended(es, epoch) == es,
        forall|i: int| 0 <= i < es.len() ==> extended(es, epoch)[i] == #[trigger] es[i],
{
}

/// Whether an epoch is among some.
pub open spec fn is_among(s: Seq<Epoch>, e: Epoch) -> bool {
    s.contains(e)
}

/// Whether an epoch is in force at an instant: the last that has begun by then.
pub open spec fn is_in_force(s: Seq<Epoch>, i: int, at: int) -> bool {
    0 <= i < s.len() && s[i].boot_start <= at && (i + 1 < s.len() ==> at < s[i + 1].boot_start)
}

/// Whether this is the offset in force at an instant.
pub open spec fn has_offset(s: Seq<Epoch>, at: int, offset: i64) -> bool {
    exists|i: int| #[trigger] is_in_force(s, i, at) && s[i].offset == offset
}

/// A history that is built from epochs in order, no two of which begin at once, says of every instant
/// what these say: it is made of some of them, begins with the first, and leaves out nothing but
/// epochs that do not change the offset.
pub proof fn law_building_changes_no_offset(s: Seq<Epoch>, at: int, offset: i64)
    requires
        forall|i: int, j: int| 0 <= i < j < s.len() ==> (#[trigger] s[i]).boot_start < (#[trigger] s[j]).boot_start,
    ensures
        has_offset(s, at, offset) <==> has_offset(collapsed(s), at, offset),
        s.len() > 0 ==> collapsed(s).len() > 0 && collapsed(s)[0] == s[0],
        forall|i: int| 0 <= i < collapsed(s).len() ==> is_among(s, #[trigger] collapsed(s)[i]),
    decreases s.len(),
{
    lemma_collapsed(s, at, offset);
}

proof fn lemma_collapsed(s: Seq<Epoch>, at: int, offset: i64)
    requires
        forall|i: int, j: int| 0 <= i < j < s.len() ==> (#[trigger] s[i]).boot_start < (#[trigger] s[j]).boot_start,
    ensures
        has_offset(s, at, offset) <==> has_offset(collapsed(s), at, offset),
        s.len() > 0 ==> collapsed(s).len() > 0 && collapsed(s)[0] == s[0] && collapsed(s).last().boot_start
            <= s.last().boot_start && collapsed(s).last().offset == s.last().offset,
        forall|i: int| 0 <= i < collapsed(s).len() ==> is_among(s, #[trigger] collapsed(s)[i]),
        forall|i: int, j: int|
            0 <= i < j < collapsed(s).len() ==> (#[trigger] collapsed(s)[i]).boot_start < (#[trigger] collapsed(
                s,
            )[j]).boot_start,
    decreases s.len(),
{
    if s.len() > 0 {
        let front = s.drop_last();
        let e = s.last();
        assert forall|i: int, j: int| 0 <= i < j < front.len() implies (#[trigger] front[i]).boot_start < (
        #[trigger] front[j]).boot_start by {
            assert(s[i].boot_start < s[j].boot_start);
        }
        lemma_collapsed(front, at, offset);
        let kept = collapsed(front);
        let all = collapsed(s);
        if front.len() > 0 {
            assert(s[front.len() - 1].boot_start < s[s.len() - 1].boot_start);
            assert(front.last() == s[front.len() - 1]);
        }
        assert forall|i: int| 0 <= i < all.len() implies is_among(s, #[trigger] all[i]) by {
            if i < kept.len() {
                assert(is_among(front, kept[i]));
                let k = choose|k: int| 0 <= k < front.len() && front[k] == kept[i];
                assert(s[k] == kept[i]);
            } else {
                assert(s[s.len() - 1] == e);
            }
        }
        lemma_one_epoch_more(front, e, at, offset);
        assert(front.push(e) =~= s);
        if front.len() > 0 {
            if e.offset != kept.last().offset {
                lemma_one_epoch_more(kept, e, at, offset);
            } else {
                lemma_one_epoch_less(front, kept, e, at, offset);
            }
        } else {
            lemma_one_epoch_more(kept, e, at, offset);
        }
    }
}

proof fn lemma_one_epoch_more(s: Seq<Epoch>, e: Epoch, at: int, offset: i64)
    requires
        s.len() > 0 ==> s.last().boot_start < e.boot_start,
        forall|i: int, j: int| 0 <= i < j < s.len() ==> (#[trigger] s[i]).boot_start < (#[trigger] s[j]).boot_start,
    ensures
        has_offset(s.push(e), at, offset) <==> if at >= e.boot_start {
            offset == e.offset
        } else {
            has_offset(s, at, offset)
        },
{
    let t = s.push(e);
    let n = s.len() as int;
    if has_offset(t, at, offset) {
        let i = choose|i: int| #[trigger] is_in_force(t, i, at) && t[i].offset == offset;
        if i < n {
            assert(t[i] == s[i]);
            if i + 1 < n {
                assert(t[i + 1] == s[i + 1]);
                assert(s[i + 1].boot_start <= s[n - 1].boot_start);
            }
            assert(at < e.boot_start);
            assert(is_in_force(s, i, at));
        }
    }
    if at >= e.boot_start && offset == e.offset {
        assert(t[n] == e);
        assert(is_in_force(t, n, at));
    }
    if at < e.boot_start && has_offset(s, at, offset) {
        let i = choose|i: int| #[trigger] is_in_force(s, i, at) && s[i].offset == offset;
        assert(t[i] == s[i]);
        if i + 1 < n {
            assert(t[i + 1] == s[i + 1]);
        } else {
            assert(t[i + 1] == e);
        }
        assert(is_in_force(t, i, at));
    }
}

proof fn lemma_one_epoch_less(front: Seq<Epoch>, kept: Seq<Epoch>, e: Epoch, at: int, offset: i64)
    requires
        front.len() > 0,
        kept.len() > 0,
        front.last().boot_start < e.boot_start,
        kept.last().boot_start <= front.last().boot_start,
        kept.last().offset == e.offset,
        forall|i: int, j: int| 0 <= i < j < kept.len() ==> (#[trigger] kept[i]).boot_start < (#[trigger] kept[j]).boot_start,
        has_offset(front, at, offset) <==> has_offset(kept, at, offset),
        has_offset(front.push(e), at, offset) <==> if at >= e.boot_start {
            offset == e.offset
        } else {
            has_offset(front, at, offset)
        },
    ensures
        has_offset(front.push(e), at, offset) <==> has_offset(kept, at, offset),
{
    let n = kept.len() - 1;
    if at >= e.boot_start {
        if offset == e.offset {
            assert(is_in_force(kept, n, at));
        }
        if has_offset(kept, at, offset) {
            let i = choose|i: int| #[trigger] is_in_force(kept, i, at) && kept[i].offset == offset;
            if i < n {
                assert(kept[i + 1].boot_start <= kept[n].boot_start);
            }
        }
    }
}

} // verus!
