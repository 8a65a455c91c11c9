//! The bounded buffer in front of a clock that was never set.
//!
//! It holds resolved batches until there is an offset worth projecting them with. Nothing is ever
//! dropped: over the cap the oldest batches come back out for the caller to spill.

use std::collections::VecDeque;

use vstd::prelude::*;

use crate::collector::correct::Tally;
use crate::otlp::proto::{all_records, LogsRequest};
use crate::time::{elapsed, Duration};

verus! {

/// One received batch, resolved and waiting.
#[derive(Debug, PartialEq, Eq)]
pub struct Pending {
    pub request: LogsRequest,
    /// Encoded size, for the byte cap.
    pub bytes: usize,
    /// The boot time at which it entered the buffer.
    pub queued_at: i64,
    /// What the receipt pass concluded about its records; their number is its total.
    pub tally: Tally,
}

#[derive(Debug, Clone, Copy, PartialEq, Eq, Structural)]
pub struct Limits {
    pub max_records: usize,
    pub max_bytes: usize,
}

/// The bytes of the batches `s` together.
pub open spec fn total_bytes(s: Seq<Pending>) -> nat
    decreases s.len(),
{
    if s.len() == 0 {
        0
    } else {
        total_bytes(s.drop_last()) + s.last().bytes as nat
    }
}

/// The records of the batches `s` together.
pub open spec fn total_records(s: Seq<Pending>) -> nat
    decreases s.len(),
{
    if s.len() == 0 {
        0
    } else {
        total_records(s.drop_last()) + s.last().tally.sum()
    }
}

/// Whether the batches `s` exceed either cap.
pub open spec fn exceeds(s: Seq<Pending>, limits: Limits) -> bool {
    total_records(s) > limits.max_records || total_bytes(s) > limits.max_bytes
}

/// How many of the batches `s` have to leave, oldest first, before the rest fits or is a single
/// batch.
pub open spec fn spill_count(s: Seq<Pending>, limits: Limits) -> nat
    decreases s.len(),
{
    if s.len() > 1 && exceeds(s, limits) {
        1 + spill_count(s.drop_first(), limits)
    } else {
        0
    }
}

proof fn lemma_totals_drop_first(s: Seq<Pending>)
    requires
        s.len() > 0,
    ensures
        total_bytes(s) == s[0].bytes + total_bytes(s.drop_first()),
        total_records(s) == s[0].tally.sum() + total_records(s.drop_first()),
    decreases s.len(),
{
    if s.len() == 1 {
        assert(s.drop_last() =~= Seq::<Pending>::empty());
        assert(s.drop_first() =~= Seq::<Pending>::empty());
    } else {
        lemma_totals_drop_first(s.drop_last());
        assert(s.drop_last().drop_first() =~= s.drop_first().drop_last());
    }
}

proof fn lemma_spill_count(s: Seq<Pending>, limits: Limits)
    ensures
        spill_count(s, limits) <= s.len(),
        s.len() > 0 ==> spill_count(s, limits) < s.len(),
    decreases s.len(),
{
    if s.len() > 1 && exceeds(s, limits) {
        lemma_spill_count(s.drop_first(), limits);
    }
}

/// A bounded queue of pending batches. Its view is the batches, oldest first.
#[derive(Debug)]
pub struct Buffer {
    queue: VecDeque<Pending>,
    bytes: usize,
    records: usize,
    limits: Limits,
}

impl Buffer {
    pub closed spec fn view(&self) -> Seq<Pending> {
        self.queue@
    }

    pub closed spec fn caps(&self) -> Limits {
        self.limits
    }

    /// The running totals are those of the batches held.
    #[verifier::type_invariant]
    spec fn inv(self) -> bool {
        &&& self.bytes == total_bytes(self.queue@)
        &&& self.records == total_records(self.queue@)
    }

    pub fn new(limits: Limits) -> (r: Self)
        ensures
            r@ == Seq::<Pending>::empty(),
            r.caps() == limits,
    {
        Buffer { queue: VecDeque::new(), bytes: 0, records: 0, limits }
    }

    /// Adds a batch, and returns those that no longer fit, oldest first. A single batch that is
    /// larger than the whole cap stays.
    pub fn push(&mut self, pending: Pending) -> (r: Vec<Pending>)
        requires
            total_bytes(old(self)@) + pending.bytes <= usize::MAX,
            total_records(old(self)@) + pending.tally.sum() <= usize::MAX,
            pending.tally.sum() <= u64::MAX,
        ensures
            final(self).caps() == old(self).caps(),
            ({
                let all = old(self)@.push(pending);
                let n = spill_count(all, old(self).caps()) as int;
                &&& r@ == all.take(n)
                &&& final(self)@ == all.skip(n)
            }),
            r@ + final(self)@ == old(self)@.push(pending),
            final(self)@.len() <= 1 || !exceeds(final(self)@, final(self).caps()),
            final(self)@.len() > 0 && final(self)@.last() == pending,
    {
        let ghost all = self@.push(pending);
        let ghost total = spill_count(all, self.limits);
        let mut whole = Buffer::new(self.limits);
        std::mem::swap(&mut whole, self);
        proof {
            use_type_invariant(&whole);
        }
        let Buffer { mut queue, mut bytes, mut records, limits } = whole;
        bytes += pending.bytes;
        records += pending.tally.total() as usize;
        queue.push_back(pending);
        proof {
            assert(all.drop_last() =~= old(self)@);
            assert(all.skip(0) =~= all);
            lemma_spill_count(all, limits);
        }
        let mut spilled: Vec<Pending> = Vec::new();
        while queue.len() > 1 && (records > limits.max_records || bytes > limits.max_bytes)
            invariant
                bytes == total_bytes(queue@),
                records == total_records(queue@),
                spilled@.len() <= total,
                total == spill_count(all, limits),
                total < all.len(),
                spilled@ == all.take(spilled@.len() as int),
                queue@ == all.skip(spilled@.len() as int),
                spill_count(queue@, limits) + spilled@.len() == total,
            decreases queue@.len(),
        {
            let ghost before = queue@;
            let ghost k = spilled@.len() as int;
            proof {
                lemma_totals_drop_first(before);
                assert(before.drop_first() =~= all.skip(k + 1));
                assert(before[0] == all[k]);
                assert(all.take(k + 1) =~= all.take(k).push(all[k]));
            }
            match queue.pop_front() {
                Some(evicted) => {
                    proof {
                        assert(queue@ =~= before.drop_first());
                        lemma_totals_fit(before);
                    }
                    bytes -= evicted.bytes;
                    records -= evicted.tally.total() as usize;
                    spilled.push(evicted);
                },
                None => {},
            }
        }
        proof {
            let n = spilled@.len() as int;
            assert(all.take(n) + all.skip(n) =~= all);
            assert(all.skip(n).last() == all.last());
        }
        *self = Buffer { queue, bytes, records, limits };
        spilled
    }

    /// Empties the buffer.
    pub fn drain(&mut self) -> (r: Vec<Pending>)
        ensures
            final(self)@ == Seq::<Pending>::empty(),
            final(self).caps() == old(self).caps(),
            r@ == old(self)@,
    {
        let ghost all = self@;
        let mut whole = Buffer::new(self.limits);
        std::mem::swap(&mut whole, self);
        let mut queue = whole.queue;
        let mut out: Vec<Pending> = Vec::new();
        assert(all.skip(0) =~= all);
        while queue.len() > 0
            invariant
                out@.len() <= all.len(),
                out@ == all.take(out@.len() as int),
                queue@ == all.skip(out@.len() as int),
            decreases queue@.len(),
        {
            let ghost k = out@.len() as int;
            let ghost before = queue@;
            proof {
                assert(before[0] == all[k]);
                assert(all.take(k + 1) =~= all.take(k).push(all[k]));
            }
            if let Some(pending) = queue.pop_front() {
                proof {
                    assert(queue@ =~= all.skip(k + 1));
                }
                out.push(pending);
            }
        }
        proof {
            assert(out@ =~= all);
        }
        out
    }

    pub fn is_empty(&self) -> (r: bool)
        ensures
            r == (self@.len() == 0),
    {
        self.queue.len() == 0
    }

    /// Batches held.
    pub fn count(&self) -> (r: usize)
        ensures
            r == self@.len(),
    {
        self.queue.len()
    }

    /// Records held.
    pub fn depth(&self) -> (r: u64)
        ensures
            r == total_records(self@),
    {
        proof {
            use_type_invariant(self);
        }
        self.records as u64
    }

    pub fn bytes(&self) -> (r: usize)
        ensures
            r == total_bytes(self@),
    {
        proof {
            use_type_invariant(self);
        }
        self.bytes
    }

    /// Whether one more batch keeps the running totals within what a `usize` can say.
    pub fn has_totals_for(&self, pending: &Pending) -> (r: bool)
        ensures
            r == (pending.tally.sum() <= u64::MAX && total_bytes(self@) + pending.bytes <= usize::MAX
                && total_records(self@) + pending.tally.sum() <= usize::MAX),
    {
        proof {
            use_type_invariant(self);
        }
        let t = pending.tally;
        let more: u128 = t.exact as u128 + t.ambiguous as u128 + t.passthrough as u128 + t.authoritative as u128;
        more <= u64::MAX as u128 && self.bytes as u128 + pending.bytes as u128 <= usize::MAX as u128
            && self.records as u128 + more <= usize::MAX as u128
    }

    /// Whether the records of every batch can be counted.
    pub fn is_countable(&self) -> (r: bool)
        ensures
            r == forall|i: int|
                0 <= i < self@.len() ==> all_records((#[trigger] self@[i]).request.view()).len() <= u64::MAX,
    {
        let n: usize = self.queue.len();
        let mut i: usize = 0;
        while i < n
            invariant
                i <= n,
                n == self@.len(),
                forall|k: int| 0 <= k < i ==> all_records((#[trigger] self@[k]).request.view()).len() <= u64::MAX,
            decreases n - i,
        {
            assert(self@[i as int] == self.queue@[i as int]);
            if self.queue[i].request.record_count().is_none() {
                return false;
            }
            i += 1;
        }
        true
    }

    /// The age of the oldest batch at `now_boottime`; nothing when there is none. A clock reading
    /// that went backwards makes an age of zero.
    pub fn oldest_age(&self, now_boottime: i64) -> (r: Option<Duration>)
        ensures
            self@.len() == 0 ==> r is None,
            self@.len() > 0 ==> (r matches Some(age) && age@ == elapsed(self@[0].queued_at, now_boottime)),
    {
        if self.queue.len() == 0 {
            None
        } else {
            Some(Duration::between(self.queue[0].queued_at, now_boottime))
        }
    }
}

proof fn lemma_totals_fit(s: Seq<Pending>)
    requires
        s.len() > 0,
    ensures
        s[0].bytes <= total_bytes(s),
        s[0].tally.sum() <= total_records(s),
{
    lemma_totals_drop_first(s);
}

/// What to do with what is in hand.
#[derive(Debug, Clone, Copy, PartialEq, Eq, Structural)]
pub enum Decision {
    /// Ship it, corrected.
    Flush,
    /// Ship it uncorrected and marked: the wait is over and the clock was never set.
    FlushUncertain,
    /// Keep waiting.
    Hold,
}

/// A clock that is set, or ever was, releases everything; otherwise only the timeout does.
pub open spec fn flush_decision(synchronized: bool, ever_synchronized: bool, waited: nat, timeout: nat) -> Decision {
    if synchronized || ever_synchronized {
        Decision::Flush
    } else if waited >= timeout {
        Decision::FlushUncertain
    } else {
        Decision::Hold
    }
}

/// `synchronized` is whether the clock can be trusted now, `ever_synchronized` whether it ever
/// could this boot: a later loss of discipline is no reason to withhold anything.
pub fn decide(synchronized: bool, ever_synchronized: bool, waited: Duration, timeout: Duration) -> (r: Decision)
    ensures
        r == flush_decision(synchronized, ever_synchronized, waited@, timeout@),
{
    if synchronized || ever_synchronized {
        Decision::Flush
    } else if waited.at_least(timeout) {
        Decision::FlushUncertain
    } else {
        Decision::Hold
    }
}

/// The batches that leave on a push are the fewest that can: with one fewer gone, what is left
/// would still be over a cap.
pub proof fn law_spilling_stops_as_soon_as_it_may(s: Seq<Pending>, limits: Limits, k: int)
    requires
        0 <= k < spill_count(s, limits),
    ensures
        s.skip(k).len() > 1,
        exceeds(s.skip(k), limits),
    decreases s.len(),
{
    lemma_spill_count(s, limits);
    if k > 0 {
        law_spilling_stops_as_soon_as_it_may(s.drop_first(), limits, k - 1);
        assert(s.drop_first().skip(k - 1) =~= s.skip(k));
    } else {
        assert(s.skip(0) =~= s);
    }
}

/// Once the clock has been set, losing discipline does not hold anything back.
pub proof fn law_a_set_clock_never_rearms_the_buffer(synchronized: bool, waited: nat, timeout: nat)
    ensures
        flush_decision(synchronized, true, waited, timeout) == Decision::Flush,
{
}

/// What some batches, pushed one after the other, come to: those that were spilled, in the order in
/// which they were, and those that are still held.
pub open spec fn after_pushes(batches: Seq<Pending>, limits: Limits) -> (Seq<Pending>, Seq<Pending>)
    decreases batches.len(),
{
    if batches.len() == 0 {
        (Seq::empty(), Seq::empty())
    } else {
        let (spilled, held) = after_pushes(batches.drop_last(), limits);
        let all = held.push(batches.last());
        let n = spill_count(all, limits) as int;
        (spilled + all.take(n), all.skip(n))
    }
}

/// Nothing is dropped, repeated or put out of order: what was spilled and then what is drained are
/// all batches that were pushed, in the order in which they came.
pub proof fn law_every_batch_comes_out_somewhere(batches: Seq<Pending>, limits: Limits)
    ensures
        ({
            let (spilled, held) = after_pushes(batches, limits);
            spilled + held == batches
        }),
    decreases batches.len(),
{
    let (spilled, held) = after_pushes(batches, limits);
    if batches.len() == 0 {
        assert(spilled + held =~= batches);
    } else {
        law_every_batch_comes_out_somewhere(batches.drop_last(), limits);
        let (before, kept) = after_pushes(batches.drop_last(), limits);
        let all = kept.push(batches.last());
        lemma_spill_count(all, limits);
        assert(spilled + held =~= (before + kept).push(batches.last()));
        assert(batches =~= batches.drop_last().push(batches.last()));
    }
}

} // verus!
