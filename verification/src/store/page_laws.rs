//! What holds of successive pages: together they list every row once.
//!
//! The table is modelled as a map by identity. One page is the rows that a filter admits and that lie
//! behind a position, in order and cut at the limit, as the statement of
//! [`crate::store::read::build_query`] asks. The next page goes on behind the last row of the one
//! before, as [`crate::store::read::positioned`] has it.

use vstd::prelude::*;

use crate::bytes::{bytes_before, lemma_bytes_order_total, lemma_bytes_order_transitive};
use crate::content_id::ID_LEN;
use crate::model::MeasurementView;
use crate::store::read::{clamped, id_behind, MAX_LIMIT};

verus! {

/// What the place of a row among the others is told by.
#[verifier::ext_equal]
pub struct Place {
    pub time: i64,
    pub id: Seq<u8>,
}

/// Whether `a` is listed before `b`: the later time first, and of one time the greater identity.
pub open spec fn listed_before(a: Place, b: Place) -> bool {
    b.time < a.time || (b.time == a.time && bytes_before(b.id, a.id))
}

/// Whether a row lies behind the position that a page starts at.
pub open spec fn behind(cursor: Option<(i64, Seq<u8>)>, p: Place) -> bool {
    match cursor {
        None => true,
        Some((time, id)) => p.time < time || (p.time == time && bytes_before(p.id, id)),
    }
}

/// Whether there is a row at this place that a filter admits.
pub open spec fn admitted(
    rows: Map<Seq<u8>, MeasurementView>,
    admits: spec_fn(MeasurementView) -> bool,
    p: Place,
) -> bool {
    rows.contains_key(p.id) && rows[p.id].event_time == p.time && admits(rows[p.id])
}

/// The rows that a query may list.
pub open spec fn eligible(
    rows: Map<Seq<u8>, MeasurementView>,
    admits: spec_fn(MeasurementView) -> bool,
    cursor: Option<(i64, Seq<u8>)>,
) -> Set<Place> {
    Set::new(|p: Place| admitted(rows, admits, p) && behind(cursor, p))
}

/// Whether each row of a list stands before all that follow it.
pub open spec fn descending(s: Seq<Place>) -> bool {
    forall|i: int, j: int| 0 <= i < j < s.len() ==> listed_before(#[trigger] s[i], #[trigger] s[j])
}

pub open spec fn all_before(s: Seq<Place>, p: Place) -> bool {
    forall|i: int| 0 <= i < s.len() ==> listed_before(#[trigger] s[i], p)
}

/// Whether a list holds the first `most` of some rows, in order.
pub open spec fn are_first(from: Set<Place>, most: nat, s: Seq<Place>) -> bool {
    &&& descending(s)
    &&& s.len() <= most
    &&& forall|i: int| 0 <= i < s.len() ==> from.contains(#[trigger] s[i])
    &&& forall|p: Place| #[trigger]
        from.contains(p) && !s.contains(p) ==> s.len() == most && all_before(s, p)
}

/// How many rows a page holds at most.
pub open spec fn page_size(limit: i64) -> nat {
    clamped(limit, 1, MAX_LIMIT) as nat
}

/// Whether this is the page that a query gives.
pub open spec fn is_page(
    rows: Map<Seq<u8>, MeasurementView>,
    admits: spec_fn(MeasurementView) -> bool,
    cursor: Option<(i64, Seq<u8>)>,
    limit: i64,
    page: Seq<Place>,
) -> bool {
    are_first(eligible(rows, admits, cursor), page_size(limit), page)
}

/// The position behind a page: that of its last row.
pub open spec fn position_behind(page: Seq<Place>) -> Option<(i64, Seq<u8>)> {
    Some((page.last().time, id_behind(Some(page.last().id))))
}

/// Whether pages follow one another from a position on: each is what its table gives behind the page
/// before, and none but the last is empty.
pub open spec fn are_successive(
    tables: Seq<Map<Seq<u8>, MeasurementView>>,
    admits: spec_fn(MeasurementView) -> bool,
    cursor: Option<(i64, Seq<u8>)>,
    limit: i64,
    pages: Seq<Seq<Place>>,
) -> bool
    decreases pages.len(),
{
    if pages.len() == 0 {
        true
    } else {
        &&& is_page(tables[0], admits, cursor, limit, pages[0])
        &&& pages.len() > 1 ==> pages[0].len() > 0
        &&& are_successive(tables.drop_first(), admits, position_behind(pages[0]), limit, pages.drop_first())
    }
}

/// Whether the table changes from page to page by nothing but new rows: those that are there stay as
/// they are. Identities all have one length.
pub open spec fn only_grow(tables: Seq<Map<Seq<u8>, MeasurementView>>) -> bool {
    &&& forall|i: int, j: int|
        0 <= i <= j < tables.len() ==> (#[trigger] tables[i]).submap_of(#[trigger] tables[j])
    &&& forall|i: int, id: Seq<u8>|
        0 <= i < tables.len() && #[trigger] tables[i].contains_key(id) ==> id.len() == ID_LEN
}

proof fn lemma_listed_total(a: Place, b: Place)
    ensures
        listed_before(a, b) || listed_before(b, a) || a == b,
        !(listed_before(a, b) && listed_before(b, a)),
        !listed_before(a, a),
{
    lemma_bytes_order_total(a.id, b.id);
}

proof fn lemma_listed_transitive(a: Place, b: Place, c: Place)
    requires
        listed_before(a, b),
        listed_before(b, c),
    ensures
        listed_before(a, c),
{
    if a.time == b.time && b.time == c.time {
        lemma_bytes_order_transitive(c.id, b.id, a.id);
    }
}

/// What is listed behind a row that lies behind a position lies behind the position too.
proof fn lemma_still_behind(cursor: Option<(i64, Seq<u8>)>, a: Place, b: Place)
    requires
        behind(cursor, a),
        listed_before(a, b),
    ensures
        behind(cursor, b),
{
    if let Some((time, id)) = cursor {
        lemma_listed_transitive(Place { time, id }, a, b);
    }
}

/// What pages that follow one another from a position on come to.
proof fn lemma_successive(
    tables: Seq<Map<Seq<u8>, MeasurementView>>,
    admits: spec_fn(MeasurementView) -> bool,
    cursor: Option<(i64, Seq<u8>)>,
    limit: i64,
    pages: Seq<Seq<Place>>,
)
    requires
        tables.len() == pages.len() > 0,
        only_grow(tables),
        are_successive(tables, admits, cursor, limit, pages),
    ensures
        descending(pages.flatten()),
        forall|i: int|
            0 <= i < pages.flatten().len() ==> admitted(tables.last(), admits, #[trigger] pages.flatten()[i])
                && behind(cursor, pages.flatten()[i]),
        pages.last().len() < page_size(limit) ==> forall|p: Place| #[trigger]
            admitted(tables[0], admits, p) && behind(cursor, p) ==> pages.flatten().contains(p),
        pages.flatten().len() + 1 >= pages.len(),
    decreases pages.len(),
{
    let page = pages[0];
    let from = eligible(tables[0], admits, cursor);
    let tail = pages.drop_first();
    let later = tables.drop_first();
    let all = pages.flatten();
    assert(all == page + tail.flatten());
    assert forall|i: int| 0 <= i < page.len() implies admitted(tables.last(), admits, #[trigger] page[i]) && behind(
        cursor,
        page[i],
    ) by {
        assert(from.contains(page[i]));
        assert(tables[0].submap_of(tables[tables.len() - 1]));
        assert(tables[0].dom().contains(page[i].id));
    }
    if pages.len() == 1 {
        assert(tail.flatten() =~= Seq::<Place>::empty());
        assert(all =~= page);
        if page.len() < page_size(limit) {
            assert forall|p: Place| #[trigger] admitted(tables[0], admits, p) && behind(cursor, p) implies all.contains(
                p,
            ) by {
                assert(from.contains(p));
            }
        }
    } else {
        let last = page.last();
        assert(from.contains(page[page.len() - 1]));
        assert(tables[0].contains_key(last.id));
        assert(position_behind(page) == Some((last.time, last.id)));
        assert(only_grow(later)) by {
            assert forall|i: int, j: int| 0 <= i <= j < later.len() implies (#[trigger] later[i]).submap_of(
                #[trigger] later[j],
            ) by {
                assert(tables[i + 1].submap_of(tables[j + 1]));
            }
            assert forall|i: int, id: Seq<u8>|
                0 <= i < later.len() && #[trigger] later[i].contains_key(id) implies id.len() == ID_LEN by {
                assert(tables[i + 1].contains_key(id));
            }
        }
        lemma_successive(later, admits, position_behind(page), limit, tail);
        let rest = tail.flatten();
        assert(later.last() == tables.last());
        assert(tail.last() == pages.last());
        assert forall|j: int| 0 <= j < rest.len() implies listed_before(last, #[trigger] rest[j]) && behind(
            cursor,
            rest[j],
        ) by {
            lemma_still_behind(cursor, last, rest[j]);
        }
        assert forall|i: int, j: int| 0 <= i < j < all.len() implies listed_before(
            #[trigger] all[i],
            #[trigger] all[j],
        ) by {
            if j >= page.len() {
                let b = rest[j - page.len()];
                assert(all[j] == b);
                assert(listed_before(last, b));
                if i < page.len() - 1 {
                    assert(listed_before(page[i], page[page.len() - 1]));
                    lemma_listed_transitive(page[i], last, b);
                } else if i >= page.len() {
                    assert(listed_before(rest[i - page.len()], b));
                }
            } else {
                assert(listed_before(page[i], page[j]));
            }
        }
        assert forall|i: int| 0 <= i < all.len() implies admitted(tables.last(), admits, #[trigger] all[i]) && behind(
            cursor,
            all[i],
        ) by {
            if i < page.len() {
                assert(all[i] == page[i]);
            } else {
                assert(all[i] == rest[i - page.len()]);
            }
        }
        if pages.last().len() < page_size(limit) {
            assert forall|p: Place| #[trigger] admitted(tables[0], admits, p) && behind(cursor, p) implies all.contains(
                p,
            ) by {
                assert(from.contains(p));
                if page.contains(p) {
                    let i = choose|i: int| 0 <= i < page.len() && page[i] == p;
                    assert(all[i] == p);
                } else {
                    assert(listed_before(page[page.len() - 1], p));
                    assert(tables[0].submap_of(tables[1]));
                    assert(tables[0].dom().contains(p.id));
                    assert(tables[1].dom().contains(p.id) && tables[1][p.id] == tables[0][p.id]);
                    assert(later[0] == tables[1]);
                    assert(admitted(later[0], admits, p));
                    assert(rest.contains(p));
                    let k = choose|k: int| 0 <= k < rest.len() && rest[k] == p;
                    assert(all[page.len() + k] == p);
                }
            }
        }
    }
}

/// Successive pages neither repeat nor skip a row, also while rows are stored between them. Read until
/// a page is short, they list one after the other, newest first: each row that was there from the
/// beginning exactly once, and no other row twice; and nothing but rows that the filter admits.
pub proof fn law_pages_list_every_row_once(
    tables: Seq<Map<Seq<u8>, MeasurementView>>,
    admits: spec_fn(MeasurementView) -> bool,
    limit: i64,
    pages: Seq<Seq<Place>>,
)
    requires
        tables.len() == pages.len() > 0,
        only_grow(tables),
        are_successive(tables, admits, None, limit, pages),
        pages.last().len() < page_size(limit),
    ensures
        descending(pages.flatten()),
        pages.flatten().no_duplicates(),
        forall|p: Place| #[trigger] admitted(tables[0], admits, p) ==> pages.flatten().contains(p),
        forall|p: Place| #[trigger] pages.flatten().contains(p) ==> admitted(tables.last(), admits, p),
{
    lemma_successive(tables, admits, None, limit, pages);
    let all = pages.flatten();
    lemma_no_repetition(all);
    assert forall|p: Place| #[trigger] admitted(tables[0], admits, p) implies all.contains(p) by {
        assert(behind(None, p));
    }
}

proof fn lemma_no_repetition(s: Seq<Place>)
    requires
        descending(s),
    ensures
        s.no_duplicates(),
{
    assert forall|i: int, j: int| 0 <= i < s.len() && 0 <= j < s.len() && i != j implies s[i] != s[j] by {
        lemma_listed_total(s[i], s[i]);
        if i < j {
            assert(listed_before(s[i], s[j]));
        } else {
            assert(listed_before(s[j], s[i]));
        }
    }
}

/// Paging through rows that do not change comes to an end: there are no more full pages than rows.
pub proof fn law_paging_comes_to_an_end(
    rows: Map<Seq<u8>, MeasurementView>,
    admits: spec_fn(MeasurementView) -> bool,
    limit: i64,
    pages: Seq<Seq<Place>>,
)
    requires
        rows.dom().finite(),
        forall|id: Seq<u8>| #[trigger] rows.contains_key(id) ==> id.len() == ID_LEN,
        are_successive(Seq::new(pages.len(), |i: int| rows), admits, None, limit, pages),
    ensures
        pages.len() <= rows.dom().len() + 1,
{
    if pages.len() > 0 {
        let tables = Seq::new(pages.len(), |i: int| rows);
        lemma_successive(tables, admits, None, limit, pages);
        let all = pages.flatten();
        let ids = all.map_values(|p: Place| p.id);
        assert(ids.no_duplicates()) by {
            lemma_no_repetition(all);
            assert forall|i: int, j: int| 0 <= i < ids.len() && 0 <= j < ids.len() && i != j implies ids[i]
                != ids[j] by {
                assert(admitted(rows, admits, all[i]) && admitted(rows, admits, all[j]));
                if ids[i] == ids[j] {
                    assert(all[i] == all[j]);
                }
            }
        }
        ids.unique_seq_to_set();
        assert(ids.to_set().subset_of(rows.dom())) by {
            assert forall|id: Seq<u8>| ids.to_set().contains(id) implies rows.dom().contains(id) by {
                let i = choose|i: int| 0 <= i < ids.len() && ids[i] == id;
                assert(admitted(rows, admits, all[i]));
            }
        }
        vstd::set_lib::lemma_len_subset(ids.to_set(), rows.dom());
    }
}

proof fn lemma_first_of_all(from: Set<Place>) -> (first: Place)
    requires
        from.finite(),
        from.len() > 0,
    ensures
        from.contains(first),
        forall|p: Place| #[trigger] from.contains(p) && p != first ==> listed_before(first, p),
    decreases from.len(),
{
    let a = from.choose();
    let rest = from.remove(a);
    if rest.len() == 0 {
        assert forall|p: Place| #[trigger] from.contains(p) && p != a implies listed_before(a, p) by {
            assert(rest.contains(p));
        }
        a
    } else {
        let b = lemma_first_of_all(rest);
        lemma_listed_total(a, b);
        let first = if listed_before(a, b) {
            a
        } else {
            b
        };
        assert forall|p: Place| #[trigger] from.contains(p) && p != first implies listed_before(first, p) by {
            if p != a {
                assert(rest.contains(p));
                if first == a && p != b {
                    lemma_listed_transitive(a, b, p);
                }
            }
        }
        first
    }
}

proof fn lemma_first_exist(from: Set<Place>, most: nat) -> (s: Seq<Place>)
    requires
        from.finite(),
    ensures
        are_first(from, most, s),
    decreases most,
{
    if most == 0 || from.len() == 0 {
        let s = Seq::<Place>::empty();
        assert forall|p: Place| #[trigger] from.contains(p) && !s.contains(p) implies s.len() == most && all_before(
            s,
            p,
        ) by {
            if from.len() == 0 {
                assert(from =~= Set::empty());
            }
        }
        s
    } else {
        let first = lemma_first_of_all(from);
        let rest = lemma_first_exist(from.remove(first), (most - 1) as nat);
        let s = seq![first] + rest;
        assert forall|i: int| 0 <= i < s.len() implies from.contains(#[trigger] s[i]) by {
            if i > 0 {
                assert(from.remove(first).contains(rest[i - 1]));
            }
        }
        assert forall|i: int, j: int| 0 <= i < j < s.len() implies listed_before(
            #[trigger] s[i],
            #[trigger] s[j],
        ) by {
            assert(from.remove(first).contains(rest[j - 1]));
            if i > 0 {
                assert(listed_before(rest[i - 1], rest[j - 1]));
            }
        }
        assert forall|p: Place| #[trigger] from.contains(p) && !s.contains(p) implies s.len() == most && all_before(
            s,
            p,
        ) by {
            assert(s[0] == first);
            assert(p != first);
            if rest.contains(p) {
                let k = choose|k: int| 0 <= k < rest.len() && rest[k] == p;
                assert(s[k + 1] == p);
            }
            assert(from.remove(first).contains(p));
            assert(all_before(rest, p));
            assert forall|i: int| 0 <= i < s.len() implies listed_before(#[trigger] s[i], p) by {
                if i > 0 {
                    assert(listed_before(rest[i - 1], p));
                }
            }
        }
        s
    }
}

proof fn lemma_first_unique(from: Set<Place>, most: nat, s: Seq<Place>, t: Seq<Place>)
    requires
        are_first(from, most, s),
        are_first(from, most, t),
    ensures
        s == t,
    decreases most,
{
    if s.len() == 0 || t.len() == 0 {
        if s.len() > 0 {
            assert(from.contains(s[0]));
            assert(!t.contains(s[0]));
        }
        if t.len() > 0 {
            assert(from.contains(t[0]));
            assert(!s.contains(t[0]));
        }
        assert(s =~= t);
    } else {
        let a = s[0];
        let b = t[0];
        assert(from.contains(a) && from.contains(b));
        lemma_listed_total(a, b);
        if a != b {
            lemma_leads(from, most, s, b);
            lemma_leads(from, most, t, a);
        }
        lemma_first_tail(from, most, s);
        lemma_first_tail(from, most, t);
        lemma_first_unique(from.remove(a), (most - 1) as nat, s.drop_first(), t.drop_first());
        assert(s =~= seq![a] + s.drop_first());
        assert(t =~= seq![b] + t.drop_first());
    }
}

proof fn lemma_leads(from: Set<Place>, most: nat, s: Seq<Place>, p: Place)
    requires
        are_first(from, most, s),
        s.len() > 0,
        from.contains(p),
        p != s[0],
    ensures
        listed_before(s[0], p),
{
    if s.contains(p) {
        let k = choose|k: int| 0 <= k < s.len() && s[k] == p;
        assert(listed_before(s[0], s[k]));
    } else {
        assert(all_before(s, p));
    }
}

proof fn lemma_first_tail(from: Set<Place>, most: nat, s: Seq<Place>)
    requires
        are_first(from, most, s),
        s.len() > 0,
    ensures
        are_first(from.remove(s[0]), (most - 1) as nat, s.drop_first()),
{
    let rest = s.drop_first();
    let less = from.remove(s[0]);
    lemma_no_repetition(s);
    assert forall|i: int| 0 <= i < rest.len() implies less.contains(#[trigger] rest[i]) by {
        assert(rest[i] == s[i + 1]);
        assert(s[i + 1] != s[0]);
        assert(from.contains(s[i + 1]));
    }
    assert forall|i: int, j: int| 0 <= i < j < rest.len() implies listed_before(
        #[trigger] rest[i],
        #[trigger] rest[j],
    ) by {
        assert(listed_before(s[i + 1], s[j + 1]));
    }
    assert forall|p: Place| #[trigger] less.contains(p) && !rest.contains(p) implies rest.len() == (most - 1) as nat
        && all_before(rest, p) by {
        if s.contains(p) {
            let k = choose|k: int| 0 <= k < s.len() && s[k] == p;
            assert(rest[k - 1] == p);
        }
        assert(from.contains(p));
        assert forall|i: int| 0 <= i < rest.len() implies listed_before(#[trigger] rest[i], p) by {
            assert(listed_before(s[i + 1], p));
        }
    }
}

/// Whatever is stored and wherever a page starts, there is one page, and only one: the order leaves
/// nothing open.
pub proof fn law_there_is_one_page(
    rows: Map<Seq<u8>, MeasurementView>,
    admits: spec_fn(MeasurementView) -> bool,
    cursor: Option<(i64, Seq<u8>)>,
    limit: i64,
    a: Seq<Place>,
    b: Seq<Place>,
)
    requires
        rows.dom().finite(),
    ensures
        exists|page: Seq<Place>| is_page(rows, admits, cursor, limit, page),
        is_page(rows, admits, cursor, limit, a) && is_page(rows, admits, cursor, limit, b) ==> a == b,
{
    let from = eligible(rows, admits, cursor);
    let places = rows.dom().map(|id: Seq<u8>| Place { time: rows[id].event_time, id });
    rows.dom().lemma_map_finite(|id: Seq<u8>| Place { time: rows[id].event_time, id });
    assert(from.subset_of(places)) by {
        assert forall|p: Place| from.contains(p) implies places.contains(p) by {
            assert(rows.dom().contains(p.id));
            assert(p =~= Place { time: rows[p.id].event_time, id: p.id });
        }
    }
    vstd::set_lib::lemma_set_subset_finite(places, from);
    let page = lemma_first_exist(from, page_size(limit));
    assert(is_page(rows, admits, cursor, limit, page));
    if is_page(rows, admits, cursor, limit, a) && is_page(rows, admits, cursor, limit, b) {
        lemma_first_unique(from, page_size(limit), a, b);
    }
}

} // verus!
