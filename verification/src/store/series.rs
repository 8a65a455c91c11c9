//! The series: one row for a type and attributes, with what was ever stored under it.
//!
//! A batch is folded first, so that many rows of one series cost one statement.

use vstd::prelude::*;

use crate::bytes::{bytes_before, is_before, lemma_bytes_order_total, lemma_bytes_order_transitive};
use crate::content_id::{blake3_of, series_bytes, series_id, ContentId, ID_LEN};
use crate::model::Measurement;

verus! {

/// Creates a series, or adds to what it was ever given.
pub const UPSERT: &'static str =
    "INSERT INTO series (id, type, attributes, added_measurements, added_event_time_min, added_event_time_max, added_processed_time_min, added_processed_time_max) VALUES (?1, ?2, ?3, ?4, ?5, ?6, ?7, ?8) ON CONFLICT(id) DO UPDATE SET added_measurements = added_measurements + excluded.added_measurements, added_event_time_min = min(added_event_time_min, excluded.added_event_time_min), added_event_time_max = max(added_event_time_max, excluded.added_event_time_max), added_processed_time_min = min(added_processed_time_min, excluded.added_processed_time_min), added_processed_time_max = max(added_processed_time_max, excluded.added_processed_time_max)";

/// What a batch adds to one series.
#[derive(Debug, PartialEq, Eq)]
pub struct Delta {
    pub kind: String,
    /// The attributes as they are written to the column.
    pub attributes: String,
    pub added: i64,
    pub event_min: i64,
    pub event_max: i64,
    pub processed_min: i64,
    pub processed_max: i64,
}

/// What a [`Delta`] says.
#[verifier::ext_equal]
pub struct DeltaView {
    pub kind: Seq<char>,
    pub attributes: Seq<char>,
    pub added: int,
    pub event_min: i64,
    pub event_max: i64,
    pub processed_min: i64,
    pub processed_max: i64,
}

pub open spec fn lesser(a: i64, b: i64) -> i64 {
    if b < a {
        b
    } else {
        a
    }
}

pub open spec fn greater(a: i64, b: i64) -> i64 {
    if b > a {
        b
    } else {
        a
    }
}

/// What one row adds.
pub open spec fn single(kind: Seq<char>, attributes: Seq<char>, event_time: i64, processed_time: i64) -> DeltaView {
    DeltaView {
        kind,
        attributes,
        added: 1,
        event_min: event_time,
        event_max: event_time,
        processed_min: processed_time,
        processed_max: processed_time,
    }
}

/// What two additions to one series come to. A batch is in no order of time, so the extremes are
/// those of both.
pub open spec fn merged(a: DeltaView, b: DeltaView) -> DeltaView {
    DeltaView {
        kind: a.kind,
        attributes: a.attributes,
        added: a.added + b.added,
        event_min: lesser(a.event_min, b.event_min),
        event_max: greater(a.event_max, b.event_max),
        processed_min: lesser(a.processed_min, b.processed_min),
        processed_max: greater(a.processed_max, b.processed_max),
    }
}

impl Delta {
    pub open spec fn view(self) -> DeltaView {
        DeltaView {
            kind: self.kind@,
            attributes: self.attributes@,
            added: self.added as int,
            event_min: self.event_min,
            event_max: self.event_max,
            processed_min: self.processed_min,
            processed_max: self.processed_max,
        }
    }

    /// What one row adds.
    pub fn single(kind: String, attributes: String, event_time: i64, processed_time: i64) -> (r: Self)
        ensures
            r.view() == single(kind@, attributes@, event_time, processed_time),
    {
        Delta {
            kind,
            attributes,
            added: 1,
            event_min: event_time,
            event_max: event_time,
            processed_min: processed_time,
            processed_max: processed_time,
        }
    }

    /// Adds another addition to the same series.
    pub fn merge(&mut self, other: &Delta)
        requires
            i64::MIN <= old(self).added + other.added <= i64::MAX,
        ensures
            final(self).view() == merged(old(self).view(), other.view()),
    {
        self.added = self.added + other.added;
        if other.event_min < self.event_min {
            self.event_min = other.event_min;
        }
        if other.event_max > self.event_max {
            self.event_max = other.event_max;
        }
        if other.processed_min < self.processed_min {
            self.processed_min = other.processed_min;
        }
        if other.processed_max > self.processed_max {
            self.processed_max = other.processed_max;
        }
    }
}

/// What a batch adds, series by series, in the order of their identities. Its view maps an identity
/// to what is added to that series.
#[derive(Debug, PartialEq, Eq)]
pub struct Deltas {
    entries: Vec<(ContentId, Delta)>,
}

/// Whether the identities ascend, so that none comes twice.
pub open spec fn ascending(s: Seq<(ContentId, Delta)>) -> bool {
    forall|i: int, j: int| 0 <= i < j < s.len() ==> bytes_before((#[trigger] s[i]).0@, (#[trigger] s[j]).0@)
}

/// The map from identities to additions.
pub open spec fn mapped(s: Seq<(ContentId, Delta)>) -> Map<Seq<u8>, DeltaView>
    decreases s.len(),
{
    if s.len() == 0 {
        Map::empty()
    } else {
        mapped(s.drop_last()).insert(s.last().0@, s.last().1.view())
    }
}

/// How many rows some additions count in all.
pub open spec fn total_added(s: Seq<(ContentId, Delta)>) -> int
    decreases s.len(),
{
    if s.len() == 0 {
        0
    } else {
        total_added(s.drop_last()) + s.last().1.added
    }
}

proof fn lemma_mapped(s: Seq<(ContentId, Delta)>)
    requires
        ascending(s),
    ensures
        forall|i: int|
            0 <= i < s.len() ==> mapped(s).contains_key((#[trigger] s[i]).0@) && mapped(s)[s[i].0@] == s[i].1.view(),
        forall|k: Seq<u8>|
            #[trigger] mapped(s).contains_key(k) ==> exists|i: int| 0 <= i < s.len() && (#[trigger] s[i]).0@ == k,
    decreases s.len(),
{
    if s.len() > 0 {
        let front = s.drop_last();
        assert(ascending(front)) by {
            assert forall|i: int, j: int| 0 <= i < j < front.len() implies bytes_before(
                (#[trigger] front[i]).0@,
                (#[trigger] front[j]).0@,
            ) by {
                assert(front[i] == s[i] && front[j] == s[j]);
            }
        }
        lemma_mapped(front);
        let last = s.last();
        assert forall|i: int| 0 <= i < s.len() implies mapped(s).contains_key((#[trigger] s[i]).0@) && mapped(
            s,
        )[s[i].0@] == s[i].1.view() by {
            if i < front.len() {
                assert(s[i] == front[i]);
                assert(bytes_before(s[i].0@, s[s.len() - 1].0@));
                lemma_bytes_order_total(s[i].0@, last.0@);
            }
        }
        assert forall|k: Seq<u8>| #[trigger] mapped(s).contains_key(k) implies exists|i: int|
            0 <= i < s.len() && (#[trigger] s[i]).0@ == k by {
            if k == last.0@ {
                assert(s[s.len() - 1].0@ == k);
            } else {
                assert(mapped(front).contains_key(k));
                let i = choose|i: int| 0 <= i < front.len() && (#[trigger] front[i]).0@ == k;
                assert(s[i].0@ == k);
            }
        }
    }
}

/// What two ascending lists map to is the same where their entries are the same but for one identity.
proof fn lemma_mapped_with(
    s: Seq<(ContentId, Delta)>,
    t: Seq<(ContentId, Delta)>,
    at: int,
    id: Seq<u8>,
    delta: DeltaView,
)
    requires
        ascending(s),
        ascending(t),
        0 <= at < t.len(),
        t[at].0@ == id,
        t[at].1.view() == delta,
        forall|k: int| 0 <= k < at ==> #[trigger] t[k] == s[k],
        t.len() == s.len() ==> s[at].0@ == id && forall|k: int| at < k < t.len() ==> #[trigger] t[k] == s[k],
        t.len() == s.len() || t.len() == s.len() + 1,
        t.len() == s.len() + 1 ==> forall|k: int| at < k < t.len() ==> #[trigger] t[k] == s[k - 1],
    ensures
        mapped(t) == mapped(s).insert(id, delta),
{
    lemma_mapped(s);
    lemma_mapped(t);
    let m = mapped(s).insert(id, delta);
    assert forall|k: Seq<u8>| #[trigger] mapped(t).contains_key(k) <==> m.contains_key(k) by {
        if mapped(t).contains_key(k) {
            let i = choose|i: int| 0 <= i < t.len() && (#[trigger] t[i]).0@ == k;
            if i != at {
                let x = if i < at || t.len() == s.len() { i } else { i - 1 };
                assert(s[x] == t[i]);
            }
        }
        if m.contains_key(k) {
            if k == id {
                assert(t[at].0@ == k);
            } else {
                let x = choose|x: int| 0 <= x < s.len() && (#[trigger] s[x]).0@ == k;
                if t.len() == s.len() {
                    assert(x != at);
                    assert(t[x] == s[x]);
                } else if x < at {
                    assert(t[x] == s[x]);
                } else {
                    assert(t[x + 1] == s[x]);
                }
            }
        }
    }
    assert forall|k: Seq<u8>| #[trigger] mapped(t).contains_key(k) implies mapped(t)[k] == m[k] by {
        let i = choose|i: int| 0 <= i < t.len() && (#[trigger] t[i]).0@ == k;
        if i != at {
            let x = if i < at || t.len() == s.len() { i } else { i - 1 };
            assert(s[x] == t[i]);
            if k == id {
                if i < at {
                    assert(bytes_before(t[i].0@, t[at].0@));
                } else {
                    assert(bytes_before(t[at].0@, t[i].0@));
                }
                lemma_bytes_order_total(k, k);
            }
        }
    }
    assert(mapped(t) =~= m);
}

/// Whether every addition counts at least one row.
spec fn counted(s: Seq<(ContentId, Delta)>) -> bool {
    forall|i: int| 0 <= i < s.len() ==> (#[trigger] s[i]).1.added >= 1
}

proof fn lemma_total_bounds(s: Seq<(ContentId, Delta)>, at: int)
    requires
        counted(s),
        0 <= at < s.len(),
    ensures
        s[at].1.added <= total_added(s),
    decreases s.len(),
{
    let front = s.drop_last();
    assert forall|i: int| 0 <= i < front.len() implies (#[trigger] front[i]).1.added >= 1 by {
        assert(front[i] == s[i]);
    }
    if at < front.len() {
        lemma_total_bounds(front, at);
        assert(s[s.len() - 1].1.added >= 1);
    } else {
        lemma_total_counts(front);
    }
}

proof fn lemma_total_counts(s: Seq<(ContentId, Delta)>)
    requires
        counted(s),
    ensures
        total_added(s) >= 0,
    decreases s.len(),
{
    if s.len() > 0 {
        let front = s.drop_last();
        assert forall|i: int| 0 <= i < front.len() implies (#[trigger] front[i]).1.added >= 1 by {
            assert(front[i] == s[i]);
        }
        lemma_total_counts(front);
        assert(s[s.len() - 1].1.added >= 1);
    }
}

proof fn lemma_total_update(s: Seq<(ContentId, Delta)>, t: Seq<(ContentId, Delta)>, at: int)
    requires
        s.len() == t.len(),
        0 <= at < s.len(),
        forall|k: int| 0 <= k < s.len() && k != at ==> #[trigger] t[k] == s[k],
    ensures
        total_added(t) == total_added(s) - s[at].1.added + t[at].1.added,
    decreases s.len(),
{
    if at == s.len() - 1 {
        assert(s.drop_last() =~= t.drop_last());
    } else {
        assert(t[s.len() - 1] == s[s.len() - 1]);
        lemma_total_update(s.drop_last(), t.drop_last(), at);
    }
}

proof fn lemma_total_insert(s: Seq<(ContentId, Delta)>, at: int, e: (ContentId, Delta))
    requires
        0 <= at <= s.len(),
    ensures
        total_added(s.insert(at, e)) == total_added(s) + e.1.added,
    decreases s.len(),
{
    let t = s.insert(at, e);
    if at == s.len() {
        assert(t.drop_last() =~= s);
    } else {
        assert(t.last() == s.last());
        assert(t.drop_last() =~= s.drop_last().insert(at, e));
        lemma_total_insert(s.drop_last(), at, e);
    }
}

impl Deltas {
    pub closed spec fn view(self) -> Map<Seq<u8>, DeltaView> {
        mapped(self.entries@)
    }

    /// How many rows are counted in all.
    pub closed spec fn total(self) -> int {
        total_added(self.entries@)
    }

    #[verifier::type_invariant]
    spec fn inv(self) -> bool {
        ascending(self.entries@) && counted(self.entries@)
    }

    pub fn new() -> (r: Self)
        ensures
            r.view() == Map::<Seq<u8>, DeltaView>::empty(),
            r.total() == 0,
    {
        Deltas { entries: Vec::new() }
    }

    /// The additions, in the order of their identities.
    pub fn entries(&self) -> (r: &Vec<(ContentId, Delta)>)
        ensures
            ascending(r@),
            mapped(r@) == self.view(),
            total_added(r@) == self.total(),
    {
        proof {
            use_type_invariant(self);
        }
        &self.entries
    }

    pub fn len(&self) -> (r: usize)
        ensures
            self.view().dom().finite(),
            r == self.view().dom().len(),
    {
        proof {
            use_type_invariant(self);
            lemma_mapped_len(self.entries@);
        }
        self.entries.len()
    }
}

proof fn lemma_mapped_len(s: Seq<(ContentId, Delta)>)
    requires
        ascending(s),
    ensures
        mapped(s).dom().finite(),
        mapped(s).dom().len() == s.len(),
    decreases s.len(),
{
    if s.len() > 0 {
        let front = s.drop_last();
        assert forall|i: int, j: int| 0 <= i < j < front.len() implies bytes_before(
            (#[trigger] front[i]).0@,
            (#[trigger] front[j]).0@,
        ) by {
            assert(front[i] == s[i] && front[j] == s[j]);
        }
        lemma_mapped_len(front);
        lemma_mapped(front);
        assert(!mapped(front).contains_key(s.last().0@)) by {
            if mapped(front).contains_key(s.last().0@) {
                let i = choose|i: int| 0 <= i < front.len() && (#[trigger] front[i]).0@ == s.last().0@;
                assert(bytes_before(s[i].0@, s[s.len() - 1].0@));
                lemma_bytes_order_total(s[i].0@, s[i].0@);
            }
        }
    }
}

/// What a batch adds with one row more.
pub open spec fn with_row(m: Map<Seq<u8>, DeltaView>, id: Seq<u8>, row: DeltaView) -> Map<Seq<u8>, DeltaView> {
    m.insert(
        id,
        if m.contains_key(id) {
            merged(m[id], row)
        } else {
            row
        },
    )
}

/// Adds one row to what a batch adds to its series.
pub fn accumulate(
    deltas: &mut Deltas,
    id: ContentId,
    kind: &str,
    attributes_json: &str,
    event_time: i64,
    processed_time: i64,
)
    requires
        old(deltas).total() < i64::MAX,
    ensures
        final(deltas).view() == with_row(
            old(deltas).view(),
            id@,
            single(kind@, attributes_json@, event_time, processed_time),
        ),
        final(deltas).total() == old(deltas).total() + 1,
{
    proof {
        use_type_invariant(&*deltas);
    }
    let row = Delta::single(kind.to_owned(), attributes_json.to_owned(), event_time, processed_time);
    let mut entries: Vec<(ContentId, Delta)> = Vec::new();
    std::mem::swap(&mut entries, &mut deltas.entries);
    let ghost before = entries@;
    proof {
        lemma_mapped(before);
    }
    let mut at: usize = 0;
    while at < entries.len() && is_before(&entries[at].0, &id)
        invariant
            at <= entries@.len(),
            entries@ == before,
            forall|k: int| 0 <= k < at ==> bytes_before((#[trigger] before[k]).0@, id@),
        decreases entries.len() - at,
    {
        at += 1;
    }
    let found = at < entries.len() && !is_before(&id, &entries[at].0);
    if found {
        proof {
            lemma_bytes_order_total(before[at as int].0@, id@);
            assert(before[at as int].0@ == id@);
            assert(mapped(before).contains_key(before[at as int].0@));
            assert(before[at as int].1.added >= 1);
            lemma_total_bounds(before, at as int);
        }
        let mut entry = entries.remove(at);
        entry.1.merge(&row);
        entries.insert(at, entry);
        proof {
            assert(entries@.len() == before.len());
            assert forall|k: int| 0 <= k < before.len() && k != at implies #[trigger] entries@[k] == before[k] by {}
            assert forall|i: int, j: int| 0 <= i < j < entries@.len() implies bytes_before(
                (#[trigger] entries@[i]).0@,
                (#[trigger] entries@[j]).0@,
            ) by {
                assert(entries@[i].0@ == before[i].0@ && entries@[j].0@ == before[j].0@);
            }
            lemma_mapped_with(before, entries@, at as int, id@, entry.1.view());
            lemma_total_update(before, entries@, at as int);
        }
    } else {
        proof {
            assert(!mapped(before).contains_key(id@)) by {
                if mapped(before).contains_key(id@) {
                    let i = choose|i: int| 0 <= i < before.len() && (#[trigger] before[i]).0@ == id@;
                    lemma_bytes_order_total(id@, id@);
                    if i > at {
                        assert(bytes_before(before[at as int].0@, before[i].0@));
                        lemma_bytes_order_total(before[at as int].0@, id@);
                    }
                }
            }
        }
        let ghost fresh = (id, row);
        entries.insert(at, (id, row));
        proof {
            assert forall|i: int, j: int| 0 <= i < j < entries@.len() implies bytes_before(
                (#[trigger] entries@[i]).0@,
                (#[trigger] entries@[j]).0@,
            ) by {
                if i == at {
                    assert(entries@[j] == before[j - 1]);
                    if j - 1 > at {
                        assert(bytes_before(before[at as int].0@, before[j - 1].0@));
                        lemma_bytes_order_transitive(id@, before[at as int].0@, before[j - 1].0@);
                    }
                } else if j == at {
                    assert(entries@[i] == before[i]);
                } else {
                    let x = if i < at { i } else { i - 1 };
                    let y = if j < at { j } else { j - 1 };
                    assert(entries@[i] == before[x] && entries@[j] == before[y]);
                }
            }
            lemma_mapped_with(before, entries@, at as int, id@, row.view());
            lemma_total_insert(before, at as int, fresh);
        }
    }
    deltas.entries = entries;
}

/// The series that a measurement belongs to: it follows from the type and the attributes alone.
pub fn id_of(m: &Measurement) -> (r: ContentId)
    ensures
        r@ == blake3_of(series_bytes(m.view().kind, m.view().attributes)).take(ID_LEN as int),
{
    series_id(m.kind.as_str(), &m.attributes)
}

/// What some rows of one series add, each a time and the time it was processed.
pub open spec fn folded(kind: Seq<char>, attributes: Seq<char>, rows: Seq<(i64, i64)>) -> DeltaView
    recommends
        rows.len() > 0,
    decreases rows.len(),
{
    let last = single(kind, attributes, rows.last().0, rows.last().1);
    if rows.len() <= 1 {
        last
    } else {
        merged(folded(kind, attributes, rows.drop_last()), last)
    }
}

/// Whether a number is the least of some.
pub open spec fn is_least(n: i64, s: Seq<i64>) -> bool {
    s.contains(n) && forall|i: int| 0 <= i < s.len() ==> n <= #[trigger] s[i]
}

/// Whether a number is the greatest of some.
pub open spec fn is_greatest(n: i64, s: Seq<i64>) -> bool {
    s.contains(n) && forall|i: int| 0 <= i < s.len() ==> #[trigger] s[i] <= n
}

pub open spec fn firsts(rows: Seq<(i64, i64)>) -> Seq<i64> {
    rows.map_values(|r: (i64, i64)| r.0)
}

pub open spec fn seconds(rows: Seq<(i64, i64)>) -> Seq<i64> {
    rows.map_values(|r: (i64, i64)| r.1)
}

proof fn lemma_extremes(s: Seq<i64>, low: i64, high: i64)
    requires
        s.len() > 1,
        is_least(low, s.drop_last()),
        is_greatest(high, s.drop_last()),
    ensures
        is_least(lesser(low, s.last()), s),
        is_greatest(greater(high, s.last()), s),
{
    let front = s.drop_last();
    let i = choose|i: int| 0 <= i < front.len() && front[i] == low;
    let j = choose|j: int| 0 <= j < front.len() && front[j] == high;
    assert(s[i] == low && s[j] == high && s[s.len() - 1] == s.last());
    assert forall|k: int| 0 <= k < s.len() implies lesser(low, s.last()) <= #[trigger] s[k] by {
        if k < front.len() {
            assert(front[k] == s[k]);
        }
    }
    assert forall|k: int| 0 <= k < s.len() implies #[trigger] s[k] <= greater(high, s.last()) by {
        if k < front.len() {
            assert(front[k] == s[k]);
        }
    }
}

/// What rows add to their series depends on the rows and not on their order: their number, and the
/// least and the greatest of their times.
pub proof fn law_extents_do_not_depend_on_order(kind: Seq<char>, attributes: Seq<char>, rows: Seq<(i64, i64)>)
    requires
        rows.len() > 0,
    ensures
        ({
            let d = folded(kind, attributes, rows);
            &&& d.kind == kind && d.attributes == attributes
            &&& d.added == rows.len()
            &&& is_least(d.event_min, firsts(rows))
            &&& is_greatest(d.event_max, firsts(rows))
            &&& is_least(d.processed_min, seconds(rows))
            &&& is_greatest(d.processed_max, seconds(rows))
        }),
    decreases rows.len(),
{
    if rows.len() == 1 {
        assert(firsts(rows)[0] == rows.last().0);
        assert(seconds(rows)[0] == rows.last().1);
    } else {
        let front = rows.drop_last();
        law_extents_do_not_depend_on_order(kind, attributes, front);
        let d = folded(kind, attributes, front);
        assert(firsts(rows).drop_last() =~= firsts(front));
        assert(seconds(rows).drop_last() =~= seconds(front));
        lemma_extremes(firsts(rows), d.event_min, d.event_max);
        lemma_extremes(seconds(rows), d.processed_min, d.processed_max);
    }
}

} // verus!
