//! The offset history of one boot, and what a wall-clock timestamp means under it.
//!
//! An *epoch* is a stretch of boot time over which `realtime − boottime` held one value. Whatever
//! steps the wall clock ends one epoch and begins the next. With that history a wall-clock
//! timestamp produced on this host maps back to a boot time, which no later step can invalidate.

use vstd::prelude::*;

use crate::time::{saturated, saturating_add, saturating_sub};

verus! {

/// Where a boundary came from.
#[derive(Debug, Clone, Copy, PartialEq, Eq, Structural)]
pub enum Source {
    /// Reconstructed from the journal's paired stamps.
    Journal,
    /// Observed live.
    Step,
    /// Noticed by the periodic comparison rather than by the watch.
    Resync,
    /// The collector's own first reading.
    Startup,
}

/// One stretch of constant offset.
#[derive(Debug, Clone, Copy, PartialEq, Eq, Structural)]
pub struct Epoch {
    /// The boot time at which the offset became active, in nanoseconds.
    pub boot_start: i64,
    /// `realtime − boottime`, in nanoseconds.
    pub offset: i64,
    pub source: Source,
}

/// How far outside the nominal bounds of an epoch a resolved value may still fall: a step is
/// learned about only after it happened.
pub const DEFAULT_TOLERANCE_NANOS: i64 = 50_000_000;

/// How far a fresh offset may sit from the active one before it is taken for a boundary that the
/// watch did not report.
pub const DEFAULT_RESYNC_THRESHOLD_NANOS: i64 = 200_000_000;

/// What frame resolution needs to know of one record.
#[derive(Debug, Clone, Copy, PartialEq, Eq, Structural)]
pub struct Query {
    /// The timestamp the application wrote, nanoseconds since the Unix epoch.
    pub stamped: i64,
    /// The boot time at which the sending process started: it read no clock before.
    pub sender_started: i64,
    /// The boot time at which the collector took the record in: nobody stamped it after.
    pub received: i64,
}

/// What the table could say about a timestamp.
#[derive(Debug, Clone, Copy, PartialEq, Eq, Structural)]
pub enum Resolution {
    /// One explanation.
    Exact { boottime: i64 },
    /// Several; `boottime` is the one nearest receipt, `spread` how far they lie apart.
    Ambiguous { boottime: i64, spread: i64 },
    /// None: another frame, or an epoch the table never learned.
    Passthrough,
}

impl Resolution {
    pub open spec fn spec_boottime(self) -> Option<i64> {
        match self {
            Resolution::Exact { boottime } => Some(boottime),
            Resolution::Ambiguous { boottime, .. } => Some(boottime),
            Resolution::Passthrough => None,
        }
    }

    /// The boot time to correct with, if there is one.
    #[verifier::when_used_as_spec(spec_boottime)]
    pub fn boottime(self) -> (r: Option<i64>)
        ensures
            r == self.boottime(),
    {
        match self {
            Resolution::Exact { boottime } => Some(boottime),
            Resolution::Ambiguous { boottime, .. } => Some(boottime),
            Resolution::Passthrough => None,
        }
    }

    pub open spec fn spec_label(self) -> Seq<char> {
        match self {
            Resolution::Exact { .. } => "exact"@,
            Resolution::Ambiguous { .. } => "ambiguous"@,
            Resolution::Passthrough => "passthrough"@,
        }
    }

    /// The name of the outcome, as an attribute carries it.
    pub fn label(self) -> (r: &'static str)
        ensures
            r@ == self.spec_label(),
    {
        match self {
            Resolution::Exact { .. } => "exact",
            Resolution::Ambiguous { .. } => "ambiguous",
            Resolution::Passthrough => "passthrough",
        }
    }
}

/// Where epoch `i` ends: where the next one begins; the last one has not ended.
pub open spec fn epoch_end(es: Seq<Epoch>, i: int) -> int {
    if i + 1 < es.len() {
        es[i + 1].boot_start as int
    } else {
        i64::MAX as int
    }
}

/// The boot time that `q.stamped` denotes if epoch `i` was in force.
pub open spec fn event_in(es: Seq<Epoch>, i: int, q: Query) -> int {
    q.stamped - es[i].offset
}

/// Whether epoch `i` explains the timestamp: the event falls inside the epoch and inside the
/// window between the sender's start and receipt, each widened by the tolerance.
pub open spec fn explains(es: Seq<Epoch>, i: int, q: Query, tolerance: i64) -> bool {
    let event = event_in(es, i, q);
    &&& i64::MIN <= event <= i64::MAX
    &&& saturated(es[i].boot_start - tolerance) <= event
    &&& event < saturated(epoch_end(es, i) + tolerance)
    &&& saturated(q.sender_started - tolerance) <= event
    &&& event <= saturated(q.received + tolerance)
}

pub open spec fn distance(a: int, b: int) -> int {
    if a >= b {
        a - b
    } else {
        b - a
    }
}

/// Whether `s` holds a value closer than the tolerance to `x`.
pub open spec fn has_near(s: Seq<i64>, x: int, tolerance: i64) -> bool {
    exists|i: int| 0 <= i < s.len() && distance(#[trigger] s[i] as int, x) < tolerance
}

/// The explanations that the first `n` epochs offer, near-identical ones counted once.
pub open spec fn candidates(es: Seq<Epoch>, q: Query, tolerance: i64, n: int) -> Seq<i64>
    decreases n,
{
    if n <= 0 {
        Seq::empty()
    } else {
        let found = candidates(es, q, tolerance, n - 1);
        let event = event_in(es, n - 1, q);
        if explains(es, n - 1, q, tolerance) && !has_near(found, event, tolerance) {
            found.push(event as i64)
        } else {
            found
        }
    }
}

/// Of the candidates, the one nearest to `received`; the earlier one where two are equally near.
pub open spec fn nearest(s: Seq<i64>, received: i64) -> i64
    decreases s.len(),
{
    if s.len() <= 1 {
        s[0]
    } else {
        let m = nearest(s.drop_last(), received);
        if distance(received as int, s.last() as int) < distance(received as int, m as int) {
            s.last()
        } else {
            m
        }
    }
}

pub open spec fn lowest(s: Seq<i64>) -> i64
    decreases s.len(),
{
    if s.len() <= 1 {
        s[0]
    } else if s.last() < lowest(s.drop_last()) {
        s.last()
    } else {
        lowest(s.drop_last())
    }
}

pub open spec fn highest(s: Seq<i64>) -> i64
    decreases s.len(),
{
    if s.len() <= 1 {
        s[0]
    } else if s.last() > highest(s.drop_last()) {
        s.last()
    } else {
        highest(s.drop_last())
    }
}

/// What a set of candidates amounts to.
pub open spec fn verdict(found: Seq<i64>, received: i64) -> Resolution {
    if found.len() == 0 {
        Resolution::Passthrough
    } else if found.len() == 1 {
        Resolution::Exact { boottime: found[0] }
    } else {
        Resolution::Ambiguous {
            boottime: nearest(found, received),
            spread: (highest(found) - lowest(found)) as i64,
        }
    }
}

/// Which boot time, if any, the timestamp denotes under the history `es`.
pub open spec fn resolved(es: Seq<Epoch>, q: Query, tolerance: i64) -> Resolution {
    verdict(candidates(es, q, tolerance, es.len() as int), q.received)
}

/// Whether the window that `sender_started` and `received` span spreads over less than the whole
/// `i64` range, so that times within it can be subtracted from one another.
pub open spec fn window_fits(sender_started: i64, received: i64, tolerance: i64) -> bool {
    let start = saturated(sender_started - tolerance);
    &&& saturated(received + tolerance) - start <= i64::MAX
    &&& received - start <= i64::MAX
}

/// `e` put into `s` behind everything that does not start later.
pub open spec fn insert_by_start(s: Seq<Epoch>, e: Epoch) -> Seq<Epoch>
    decreases s.len(),
{
    if s.len() == 0 || s.last().boot_start <= e.boot_start {
        s.push(e)
    } else {
        insert_by_start(s.drop_last(), e).push(s.last())
    }
}

/// `s` ordered by start; epochs with one start keep their order.
pub open spec fn sorted_by_start(s: Seq<Epoch>) -> Seq<Epoch>
    decreases s.len(),
{
    if s.len() == 0 {
        s
    } else {
        insert_by_start(sorted_by_start(s.drop_last()), s.last())
    }
}

pub open spec fn ascending(s: Seq<Epoch>) -> bool {
    forall|i: int, j: int| 0 <= i < j < s.len() ==> #[trigger] s[i].boot_start <= #[trigger] s[j].boot_start
}

/// `s` without the boundaries that are none: of two with one start the first stays, and an epoch
/// with the offset of the one before it goes.
pub open spec fn collapsed(s: Seq<Epoch>) -> Seq<Epoch>
    decreases s.len(),
{
    if s.len() == 0 {
        s
    } else {
        let kept = collapsed(s.drop_last());
        let e = s.last();
        if kept.len() > 0 && (e.boot_start == kept.last().boot_start || e.offset == kept.last().offset) {
            kept
        } else {
            kept.push(e)
        }
    }
}

/// What every table keeps: at least one epoch, each starting later than the one before it and
/// with another offset.
pub open spec fn is_history(es: Seq<Epoch>) -> bool {
    &&& es.len() > 0
    &&& forall|i: int, j: int| 0 <= i < j < es.len() ==> #[trigger] es[i].boot_start < #[trigger] es[j].boot_start
    &&& forall|i: int, j: int| 0 <= i && j == i + 1 && j < es.len() ==> (#[trigger] es[i]).offset != (#[trigger] es[j]).offset
}

proof fn lemma_collapsed(s: Seq<Epoch>)
    requires
        ascending(s),
    ensures
        s.len() > 0 ==> is_history(collapsed(s)),
        s.len() == 0 ==> collapsed(s).len() == 0,
        s.len() > 0 ==> collapsed(s).last().boot_start <= s.last().boot_start,
    decreases s.len(),
{
    if s.len() > 0 {
        let front = s.drop_last();
        assert forall|i: int, j: int| 0 <= i < j < front.len() implies #[trigger] front[i].boot_start <= #[trigger] front[j].boot_start by {
            assert(front[i] == s[i] && front[j] == s[j]);
        }
        lemma_collapsed(front);
        if front.len() > 0 {
            assert(front.last() == s[s.len() - 2]);
        }
    }
}

proof fn lemma_insert_by_start(s: Seq<Epoch>, e: Epoch, at: int)
    requires
        0 <= at <= s.len(),
        at > 0 ==> s[at - 1].boot_start <= e.boot_start,
        forall|i: int| at <= i < s.len() ==> (#[trigger] s[i]).boot_start > e.boot_start,
    ensures
        insert_by_start(s, e) == s.insert(at, e),
    decreases s.len(),
{
    if at == s.len() {
        assert(s.insert(at, e) =~= s.push(e));
    } else {
        assert(s.last() == s[s.len() - 1]);
        let front = s.drop_last();
        lemma_insert_by_start(front, e, at);
        assert(s.insert(at, e) =~= front.insert(at, e).push(s.last()));
    }
}

proof fn lemma_insert_ascending(s: Seq<Epoch>, e: Epoch, at: int)
    requires
        ascending(s),
        0 <= at <= s.len(),
        at > 0 ==> s[at - 1].boot_start <= e.boot_start,
        forall|i: int| at <= i < s.len() ==> (#[trigger] s[i]).boot_start > e.boot_start,
    ensures
        ascending(s.insert(at, e)),
{
    let t = s.insert(at, e);
    assert forall|i: int, j: int| 0 <= i < j < t.len() implies #[trigger] t[i].boot_start <= #[trigger] t[j].boot_start by {
        if i < at - 1 {
            assert(s[i].boot_start <= s[at - 1].boot_start);
        }
    }
}

fn sort_by_start(epochs: Vec<Epoch>) -> (r: Vec<Epoch>)
    ensures
        r@ == sorted_by_start(epochs@),
        ascending(r@),
        r@.len() == epochs@.len(),
{
    let mut out: Vec<Epoch> = Vec::new();
    let mut i: usize = 0;
    proof {
        assert(epochs@.take(0) =~= Seq::<Epoch>::empty());
    }
    while i < epochs.len()
        invariant
            i <= epochs.len(),
            out@ == sorted_by_start(epochs@.take(i as int)),
            ascending(out@),
            out@.len() == i,
        decreases epochs.len() - i,
    {
        let e = epochs[i];
        let mut at: usize = out.len();
        while at > 0 && out[at - 1].boot_start > e.boot_start
            invariant
                at <= out@.len(),
                forall|k: int| at <= k < out@.len() ==> (#[trigger] out@[k]).boot_start > e.boot_start,
            decreases at,
        {
            at -= 1;
        }
        proof {
            lemma_insert_by_start(out@, e, at as int);
            lemma_insert_ascending(out@, e, at as int);
            assert(epochs@.take(i + 1).drop_last() =~= epochs@.take(i as int));
        }
        out.insert(at, e);
        i += 1;
    }
    proof {
        assert(epochs@.take(i as int) =~= epochs@);
    }
    out
}

fn collapse(epochs: &Vec<Epoch>) -> (r: Vec<Epoch>)
    ensures
        r@ == collapsed(epochs@),
{
    let mut out: Vec<Epoch> = Vec::new();
    let mut i: usize = 0;
    proof {
        assert(epochs@.take(0) =~= Seq::<Epoch>::empty());
    }
    while i < epochs.len()
        invariant
            i <= epochs.len(),
            out@ == collapsed(epochs@.take(i as int)),
        decreases epochs.len() - i,
    {
        let e = epochs[i];
        proof {
            assert(epochs@.take(i + 1).drop_last() =~= epochs@.take(i as int));
        }
        let n: usize = out.len();
        if !(n > 0 && (e.boot_start == out[n - 1].boot_start || e.offset == out[n - 1].offset)) {
            out.push(e);
        }
        i += 1;
    }
    proof {
        assert(epochs@.take(i as int) =~= epochs@);
    }
    out
}

/// The offset history of one boot. Its view is the epochs in order.
#[derive(Debug, PartialEq, Eq)]
pub struct EpochTable {
    epochs: Vec<Epoch>,
}

impl Clone for EpochTable {
    fn clone(&self) -> (r: Self)
        ensures
            r@ == self@,
    {
        proof {
            use_type_invariant(self);
        }
        EpochTable { epochs: copied(self.epochs.as_slice()) }
    }
}

/// The same epochs again.
pub fn copied(epochs: &[Epoch]) -> (r: Vec<Epoch>)
    ensures
        r@ == epochs@,
{
    let mut out: Vec<Epoch> = Vec::new();
    let mut i: usize = 0;
    while i < epochs.len()
        invariant
            i <= epochs@.len(),
            out@ == epochs@.take(i as int),
        decreases epochs.len() - i,
    {
        out.push(epochs[i]);
        i += 1;
    }
    out
}

impl EpochTable {
    pub closed spec fn view(&self) -> Seq<Epoch> {
        self.epochs@
    }

    #[verifier::type_invariant]
    spec fn well_formed(self) -> bool {
        is_history(self.epochs@)
    }

    /// A table with one epoch and no history behind it.
    pub fn new(first: Epoch) -> (r: Self)
        ensures
            r@ == seq![first],
    {
        let mut epochs: Vec<Epoch> = Vec::new();
        epochs.push(first);
        EpochTable { epochs }
    }

    /// Builds from any set of epochs, ordering and collapsing them; nothing for an empty set.
    pub fn from_epochs(epochs: Vec<Epoch>) -> (r: Option<Self>)
        ensures
            r is None <==> epochs@.len() == 0,
            r matches Some(table) ==> table@ == collapsed(sorted_by_start(epochs@)) && is_history(table@),
    {
        let sorted = sort_by_start(epochs);
        let kept = collapse(&sorted);
        proof {
            lemma_collapsed(sorted@);
        }
        if kept.len() == 0 {
            None
        } else {
            Some(EpochTable { epochs: kept })
        }
    }

    /// This table and one later boundary. A boundary that is not later, or that does not change
    /// the offset, leaves it as it is.
    pub fn with(&self, epoch: Epoch) -> (r: Self)
        ensures
            r@ == extended(self@, epoch),
    {
        proof {
            use_type_invariant(self);
        }
        let last = self.current();
        let mut epochs = copied(self.epochs.as_slice());
        if epoch.boot_start > last.boot_start && epoch.offset != last.offset {
            epochs.push(epoch);
        }
        EpochTable { epochs }
    }

    /// The epoch in force now.
    pub fn current(&self) -> (r: Epoch)
        ensures
            r == self@.last(),
            self@.len() > 0,
    {
        proof {
            use_type_invariant(self);
        }
        self.epochs[self.epochs.len() - 1]
    }

    /// Whether a fresh offset is farther from the active one than the threshold.
    pub fn disagrees_with(&self, sampled_offset: i64, threshold: i64) -> (r: bool)
        requires
            distance(sampled_offset as int, self@.last().offset as int) <= i64::MAX,
        ensures
            r == (distance(sampled_offset as int, self@.last().offset as int) > threshold),
    {
        let current = self.current().offset;
        let apart: i64 = if sampled_offset >= current {
            sampled_offset - current
        } else {
            current - sampled_offset
        };
        apart > threshold
    }

    /// How many epochs there are: at least one.
    pub fn len(&self) -> (r: usize)
        ensures
            r == self@.len(),
            r > 0,
    {
        proof {
            use_type_invariant(self);
        }
        self.epochs.len()
    }

    /// Never.
    pub fn is_empty(&self) -> (r: bool)
        ensures
            !r,
            r == (self@.len() == 0),
    {
        proof {
            use_type_invariant(self);
        }
        false
    }

    pub fn epochs(&self) -> (r: &[Epoch])
        ensures
            r@ == self@,
            is_history(self@),
    {
        proof {
            use_type_invariant(self);
        }
        self.epochs.as_slice()
    }

    /// Which boot time, if any, this timestamp denotes.
    pub fn resolve(&self, q: Query, tolerance: i64) -> (r: Resolution)
        requires
            window_fits(q.sender_started, q.received, tolerance),
        ensures
            r == resolved(self@, q, tolerance),
    {
        let mut found: Vec<i64> = Vec::new();
        let n: usize = self.epochs.len();
        let low: i64 = saturating_sub(q.sender_started, tolerance);
        let high: i64 = saturating_add(q.received, tolerance);
        let mut i: usize = 0;
        while i < n
            invariant
                i <= n,
                n == self@.len(),
                self@ == self.epochs@,
                low == saturated(q.sender_started - tolerance),
                high == saturated(q.received + tolerance),
                window_fits(q.sender_started, q.received, tolerance),
                found@ == candidates(self@, q, tolerance, i as int),
                forall|k: int| 0 <= k < found@.len() ==> low <= #[trigger] found@[k] <= high,
            decreases n - i,
        {
            let epoch = self.epochs[i];
            let boot_end: i64 = if i + 1 < n { self.epochs[i + 1].boot_start } else { i64::MAX };
            if let Some(event) = q.stamped.checked_sub(epoch.offset) {
                let within_epoch = event >= saturating_sub(epoch.boot_start, tolerance) && event
                    < saturating_add(boot_end, tolerance);
                let within_window = event >= low && event <= high;
                if within_epoch && within_window && !any_near(&found, event, tolerance) {
                    found.push(event);
                }
            }
            i += 1;
        }
        conclude(&found, q.received)
    }
}

/// The table after one more boundary was reported.
pub open spec fn extended(es: Seq<Epoch>, epoch: Epoch) -> Seq<Epoch> {
    if epoch.boot_start > es.last().boot_start && epoch.offset != es.last().offset {
        es.push(epoch)
    } else {
        es
    }
}

fn any_near(found: &Vec<i64>, event: i64, tolerance: i64) -> (r: bool)
    requires
        forall|k: int| 0 <= k < found@.len() ==> distance(#[trigger] found@[k] as int, event as int) <= i64::MAX,
    ensures
        r == has_near(found@, event as int, tolerance),
{
    let mut k: usize = 0;
    while k < found.len()
        invariant
            k <= found@.len(),
            forall|j: int| 0 <= j < found@.len() ==> distance(#[trigger] found@[j] as int, event as int) <= i64::MAX,
            forall|j: int| 0 <= j < k ==> distance(#[trigger] found@[j] as int, event as int) >= tolerance,
        decreases found.len() - k,
    {
        let c: i64 = found[k];
        let apart: i64 = if c >= event { c - event } else { event - c };
        if apart < tolerance {
            return true;
        }
        k += 1;
    }
    false
}

fn conclude(found: &Vec<i64>, received: i64) -> (r: Resolution)
    requires
        forall|i: int, j: int| 0 <= i < found@.len() && 0 <= j < found@.len() ==>
            distance(#[trigger] found@[i] as int, #[trigger] found@[j] as int) <= i64::MAX,
        forall|i: int| 0 <= i < found@.len() ==> distance(#[trigger] found@[i] as int, received as int) <= i64::MAX,
    ensures
        r == verdict(found@, received),
{
    if found.len() == 0 {
        return Resolution::Passthrough;
    }
    if found.len() == 1 {
        return Resolution::Exact { boottime: found[0] };
    }
    let mut boottime: i64 = found[0];
    let mut lo: i64 = found[0];
    let mut hi: i64 = found[0];
    let mut k: usize = 1;
    while k < found.len()
        invariant
            1 <= k <= found@.len(),
            boottime == nearest(found@.take(k as int), received),
            lo == lowest(found@.take(k as int)),
            hi == highest(found@.take(k as int)),
            exists|i: int| 0 <= i < k && boottime == found@[i],
            exists|i: int| 0 <= i < k && lo == found@[i],
            exists|i: int| 0 <= i < k && hi == found@[i],
            forall|i: int| 0 <= i < found@.len() ==> distance(#[trigger] found@[i] as int, received as int) <= i64::MAX,
        decreases found.len() - k,
    {
        let c: i64 = found[k];
        proof {
            assert(found@.take(k + 1).drop_last() =~= found@.take(k as int));
        }
        let c_apart: i64 = if received >= c { received - c } else { c - received };
        let best: i64 = if received >= boottime { received - boottime } else { boottime - received };
        if c_apart < best {
            boottime = c;
        }
        if c < lo {
            lo = c;
        }
        if c > hi {
            hi = c;
        }
        k += 1;
    }
    proof {
        assert(found@.take(k as int) =~= found@);
        lemma_extremes(found@);
    }
    Resolution::Ambiguous { boottime, spread: hi - lo }
}

/// The two extremes are members, and bound every member.
proof fn lemma_extremes(s: Seq<i64>)
    requires
        s.len() > 0,
    ensures
        s.contains(lowest(s)),
        s.contains(highest(s)),
        forall|i: int| 0 <= i < s.len() ==> lowest(s) <= #[trigger] s[i] <= highest(s),
    decreases s.len(),
{
    if s.len() == 1 {
        assert(s[0] == lowest(s));
    } else {
        let front = s.drop_last();
        lemma_extremes(front);
        let l = choose|i: int| 0 <= i < front.len() && front[i] == lowest(front);
        let h = choose|i: int| 0 <= i < front.len() && front[i] == highest(front);
        assert(s[l] == lowest(front) && s[h] == highest(front));
        assert(s[s.len() - 1] == s.last());
        assert forall|i: int| 0 <= i < s.len() implies lowest(s) <= #[trigger] s[i] <= highest(s) by {
            if i < front.len() {
                assert(s[i] == front[i]);
            }
        }
    }
}

proof fn lemma_candidates(es: Seq<Epoch>, q: Query, tolerance: i64, n: int)
    requires
        0 <= n <= es.len(),
    ensures
        forall|k: int|
            0 <= k < candidates(es, q, tolerance, n).len() ==> exists|i: int|
                0 <= i < n && explains(es, i, q, tolerance) && #[trigger] candidates(es, q, tolerance, n)[k]
                    == event_in(es, i, q),
        forall|j: int, k: int|
            0 <= j < k < candidates(es, q, tolerance, n).len() ==> distance(
                #[trigger] candidates(es, q, tolerance, n)[j] as int,
                #[trigger] candidates(es, q, tolerance, n)[k] as int,
            ) >= tolerance,
        candidates(es, q, tolerance, n).len() == 0 <==> forall|i: int|
            0 <= i < n ==> !#[trigger] explains(es, i, q, tolerance),
    decreases n,
{
    if n > 0 {
        lemma_candidates(es, q, tolerance, n - 1);
        let found = candidates(es, q, tolerance, n - 1);
        let all = candidates(es, q, tolerance, n);
        let event = event_in(es, n - 1, q);
        assert forall|k: int| 0 <= k < all.len() implies exists|i: int|
            0 <= i < n && explains(es, i, q, tolerance) && #[trigger] all[k] == event_in(es, i, q) by {
            if k < found.len() {
                assert(all[k] == found[k]);
                let i = choose|i: int|
                    0 <= i < n - 1 && explains(es, i, q, tolerance) && found[k] == event_in(es, i, q);
                assert(0 <= i < n && explains(es, i, q, tolerance) && all[k] == event_in(es, i, q));
            } else {
                assert(explains(es, n - 1, q, tolerance));
            }
        }
        assert forall|j: int, k: int| 0 <= j < k < all.len() implies distance(
            #[trigger] all[j] as int,
            #[trigger] all[k] as int,
        ) >= tolerance by {
            assert(all[j] == found[j]);
            if k < found.len() {
                assert(all[k] == found[k]);
            } else {
                assert(distance(found[j] as int, event) >= tolerance);
            }
        }
        if all.len() == 0 {
            assert(found.len() == 0);
            assert(!explains(es, n - 1, q, tolerance));
        }
        if found.len() > 0 {
            let i = choose|i: int| 0 <= i < n - 1 && explains(es, i, q, tolerance);
            assert(explains(es, i, q, tolerance));
        }
    }
}

proof fn lemma_nearest(s: Seq<i64>, received: i64)
    requires
        s.len() > 0,
    ensures
        s.contains(nearest(s, received)),
        forall|i: int|
            0 <= i < s.len() ==> distance(received as int, nearest(s, received) as int) <= distance(
                received as int,
                #[trigger] s[i] as int,
            ),
    decreases s.len(),
{
    if s.len() == 1 {
        assert(s[0] == nearest(s, received));
    } else {
        let front = s.drop_last();
        lemma_nearest(front, received);
        let m = choose|i: int| 0 <= i < front.len() && front[i] == nearest(front, received);
        assert(s[m] == nearest(front, received));
        assert(s[s.len() - 1] == s.last());
        assert forall|i: int| 0 <= i < s.len() implies distance(
            received as int,
            nearest(s, received) as int,
        ) <= distance(received as int, #[trigger] s[i] as int) by {
            if i < front.len() {
                assert(s[i] == front[i]);
            }
        }
    }
}

/// A resolved boot time is the timestamp seen from an epoch that explains it: adding that epoch's
/// offset gives the timestamp back, to the nanosecond.
pub proof fn law_resolution_inverts_projection(es: Seq<Epoch>, q: Query, tolerance: i64)
    ensures
        resolved(es, q, tolerance).boottime() matches Some(b) ==> exists|i: int|
            0 <= i < es.len() && #[trigger] explains(es, i, q, tolerance) && b + es[i].offset == q.stamped,
{
    let found = candidates(es, q, tolerance, es.len() as int);
    lemma_candidates(es, q, tolerance, es.len() as int);
    if found.len() > 0 {
        lemma_nearest(found, q.received);
        let b = resolved(es, q, tolerance).boottime()->0;
        let k = choose|k: int| 0 <= k < found.len() && found[k] == b;
        if found.len() == 1 {
            assert(found[0] == b);
        }
        assert(found[k] == b);
        let i = choose|i: int|
            0 <= i < es.len() && explains(es, i, q, tolerance) && found[k] == event_in(es, i, q);
        assert(explains(es, i, q, tolerance) && b + es[i].offset == q.stamped);
    }
}

/// A timestamp passes through exactly when no epoch explains it.
pub proof fn law_foreign_timestamps_pass_through(es: Seq<Epoch>, q: Query, tolerance: i64)
    ensures
        resolved(es, q, tolerance) is Passthrough <==> forall|i: int|
            0 <= i < es.len() ==> !#[trigger] explains(es, i, q, tolerance),
{
    lemma_candidates(es, q, tolerance, es.len() as int);
}

/// A timestamp with one explanation resolves to it exactly.
pub proof fn law_one_explanation_is_exact(es: Seq<Epoch>, q: Query, tolerance: i64, i: int)
    requires
        0 <= i < es.len(),
        explains(es, i, q, tolerance),
        forall|j: int| 0 <= j < es.len() && j != i ==> !#[trigger] explains(es, j, q, tolerance),
    ensures
        resolved(es, q, tolerance) == (Resolution::Exact { boottime: (q.stamped - es[i].offset) as i64 }),
{
    lemma_candidates(es, q, tolerance, i);
    lemma_only_one(es, q, tolerance, i, es.len() as int);
}

proof fn lemma_only_one(es: Seq<Epoch>, q: Query, tolerance: i64, i: int, n: int)
    requires
        0 <= i < n <= es.len(),
        explains(es, i, q, tolerance),
        candidates(es, q, tolerance, i).len() == 0,
        forall|j: int| 0 <= j < es.len() && j != i ==> !#[trigger] explains(es, j, q, tolerance),
    ensures
        candidates(es, q, tolerance, n) == seq![event_in(es, i, q) as i64],
    decreases n,
{
    if n == i + 1 {
        assert(candidates(es, q, tolerance, n) =~= seq![event_in(es, i, q) as i64]);
    } else {
        lemma_only_one(es, q, tolerance, i, n - 1);
        assert(!explains(es, n - 1, q, tolerance));
    }
}

/// Of several explanations the one nearest receipt is chosen, and the spread reported is the
/// distance between the two farthest apart; it is never smaller than the tolerance.
pub proof fn law_ambiguity_reports_its_spread(es: Seq<Epoch>, q: Query, tolerance: i64)
    requires
        window_fits(q.sender_started, q.received, tolerance),
    ensures
        resolved(es, q, tolerance) matches Resolution::Ambiguous { boottime, spread } ==> {
            let found = candidates(es, q, tolerance, es.len() as int);
            &&& found.len() >= 2
            &&& found.contains(boottime)
            &&& forall|k: int| 0 <= k < found.len() ==> distance(q.received as int, boottime as int) <= distance(
                q.received as int,
                #[trigger] found[k] as int,
            )
            &&& spread == highest(found) - lowest(found)
            &&& spread >= tolerance
        },
{
    let found = candidates(es, q, tolerance, es.len() as int);
    lemma_candidates(es, q, tolerance, es.len() as int);
    if found.len() >= 2 {
        lemma_nearest(found, q.received);
        lemma_extremes(found);
        assert forall|k: int| 0 <= k < found.len() implies saturated(q.sender_started - tolerance)
            <= #[trigger] found[k] <= saturated(q.received + tolerance) by {
            let i = choose|i: int|
                0 <= i < es.len() && explains(es, i, q, tolerance) && found[k] == event_in(es, i, q);
        }
        let l = choose|i: int| 0 <= i < found.len() && found[i] == lowest(found);
        let h = choose|i: int| 0 <= i < found.len() && found[i] == highest(found);
        assert(lowest(found) <= found[0] <= highest(found));
        assert(lowest(found) <= found[1] <= highest(found));
        assert(distance(found[0] as int, found[1] as int) >= tolerance);
    }
}

/// The epochs of `s` that start at `start`, in order.
pub open spec fn starting_at(s: Seq<Epoch>, start: i64) -> Seq<Epoch> {
    s.filter(|e: Epoch| e.boot_start == start)
}

proof fn lemma_starting_at(s: Seq<Epoch>, e: Epoch, start: i64)
    ensures
        starting_at(s.push(e), start) == if e.boot_start == start {
            starting_at(s, start).push(e)
        } else {
            starting_at(s, start)
        },
{
    reveal(Seq::filter);
    assert(s.push(e).drop_last() =~= s);
}

/// Ordering keeps every epoch, puts earlier starts first, and leaves epochs with one start in the
/// order they came in.
pub proof fn law_ordering_is_stable(s: Seq<Epoch>, start: i64)
    ensures
        ascending(sorted_by_start(s)),
        sorted_by_start(s).to_multiset() == s.to_multiset(),
        starting_at(sorted_by_start(s), start) == starting_at(s, start),
    decreases s.len(),
{
    if s.len() > 0 {
        let front = s.drop_last();
        let e = s.last();
        law_ordering_is_stable(front, start);
        lemma_insert_is_stable(sorted_by_start(front), e, start);
        assert(s =~= front.push(e));
        vstd::seq_lib::to_multiset_build(front, e);
        lemma_starting_at(front, e, start);
        lemma_starting_at(sorted_by_start(front), e, start);
    }
}

proof fn lemma_insert_is_stable(s: Seq<Epoch>, e: Epoch, start: i64)
    requires
        ascending(s),
    ensures
        ascending(insert_by_start(s, e)),
        insert_by_start(s, e).len() == s.len() + 1,
        insert_by_start(s, e).last().boot_start == if s.len() > 0 && s.last().boot_start > e.boot_start {
            s.last().boot_start
        } else {
            e.boot_start
        },
        insert_by_start(s, e).to_multiset() == s.to_multiset().insert(e),
        starting_at(insert_by_start(s, e), start) == starting_at(s.push(e), start),
    decreases s.len(),
{
    lemma_starting_at(s, e, start);
    if s.len() == 0 || s.last().boot_start <= e.boot_start {
        vstd::seq_lib::to_multiset_build(s, e);
        let t = s.push(e);
        assert forall|i: int, j: int| 0 <= i < j < t.len() implies #[trigger] t[i].boot_start <= #[trigger] t[j].boot_start by {
            if i < s.len() {
                assert(s[i].boot_start <= s.last().boot_start);
            }
        }
    } else {
        let front = s.drop_last();
        assert forall|i: int, j: int| 0 <= i < j < front.len() implies #[trigger] front[i].boot_start <= #[trigger] front[j].boot_start by {
            assert(front[i] == s[i] && front[j] == s[j]);
        }
        lemma_insert_is_stable(front, e, start);
        let inner = insert_by_start(front, e);
        let t = inner.push(s.last());
        assert forall|i: int, j: int| 0 <= i < j < t.len() implies #[trigger] t[i].boot_start <= #[trigger] t[j].boot_start by {
            if j == inner.len() {
                assert(inner[i].boot_start <= inner.last().boot_start);
                if front.len() > 0 {
                    assert(front.last() == s[s.len() - 2]);
                }
            }
        }
        vstd::seq_lib::to_multiset_build(inner, s.last());
        assert(s =~= front.push(s.last()));
        vstd::seq_lib::to_multiset_build(front, s.last());
        assert(s.to_multiset().insert(e) =~= front.to_multiset().insert(e).insert(s.last()));
        lemma_starting_at(inner, s.last(), start);
        lemma_starting_at(front, s.last(), start);
        lemma_starting_at(front, e, start);
    }
}

/// Building from the epochs of a table gives that table back: nothing in it is out of order, and
/// nothing in it collapses.
pub proof fn law_history_survives_a_round_trip(es: Seq<Epoch>)
    requires
        is_history(es),
    ensures
        collapsed(sorted_by_start(es)) == es,
{
    lemma_in_order(es);
}

proof fn lemma_in_order(es: Seq<Epoch>)
    requires
        es.len() > 0 ==> is_history(es),
    ensures
        sorted_by_start(es) == es,
        collapsed(es) == es,
    decreases es.len(),
{
    if es.len() > 0 {
        let front = es.drop_last();
        if front.len() > 0 {
            assert forall|i: int, j: int| 0 <= i < j < front.len() implies #[trigger] front[i].boot_start < #[trigger] front[j].boot_start by {
                assert(front[i] == es[i] && front[j] == es[j]);
            }
            assert forall|i: int, j: int| 0 <= i && j == i + 1 && j < front.len() implies (#[trigger] front[i]).offset != (#[trigger] front[j]).offset by {
                assert(front[i] == es[i] && front[j] == es[j]);
            }
            assert(es[es.len() - 2].boot_start < es[es.len() - 1].boot_start);
            assert(es[es.len() - 2].offset != es[es.len() - 1].offset);
        }
        lemma_in_order(front);
        assert(front.push(es.last()) =~= es);
    }
}

/// History only extends forward: a reported boundary leaves every epoch known before in place.
pub proof fn law_history_extends_forward(es: Seq<Epoch>, epoch: Epoch)
    requires
        is_history(es),
    ensures
        is_history(extended(es, epoch)),
        extended(es, epoch).take(es.len() as int) == es,
        extended(es, epoch).len() <= es.len() + 1,
{
    assert(extended(es, epoch).take(es.len() as int) =~= es);
}

} // verus!
