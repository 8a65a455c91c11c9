//! What holds of a chart: how wide its buckets are, and which series it has in which order.

use vstd::prelude::*;

use crate::store::chart::{bucket_width, position, reordered, series_of, Point, SeriesView};

verus! {

/// The buckets fill the window: so many of them fit into it, and of buckets that are any wider they do
/// not. The width depends on the length of the window alone, and not on where the window lies.
pub proof fn law_buckets_fill_the_window(from: i64, to: i64, buckets: i64, by: int)
    requires
        from < to,
        to - from <= i64::MAX,
        1 <= buckets <= to - from,
        i64::MIN <= from + by <= i64::MAX,
        i64::MIN <= to + by <= i64::MAX,
    ensures
        bucket_width(from, to, buckets) >= 1,
        bucket_width(from, to, buckets) * buckets <= to - from,
        to - from < (bucket_width(from, to, buckets) + 1) * buckets,
        bucket_width((from + by) as i64, (to + by) as i64, buckets) == bucket_width(from, to, buckets),
{
    let w = bucket_width(from, to, buckets);
    let span = to - from;
    let n = buckets as int;
    assert(span / n >= 1) by (nonlinear_arith)
        requires
            1 <= n <= span,
    ;
    assert((span / n) * n <= span && span < (span / n + 1) * n) by (nonlinear_arith)
        requires
            1 <= n,
    ;
    assert(w == span / n);
}

/// A window that is empty, that runs backwards, or that has fewer nanoseconds than there are to be
/// buckets has buckets of one nanosecond. Asking for no bucket is asking for one: it is as long as the
/// window, or as an `i64` can say.
pub proof fn law_narrow_windows_have_the_least_buckets(from: i64, to: i64, buckets: i64)
    ensures
        to <= from ==> bucket_width(from, to, buckets) == 1,
        from < to && to - from < buckets ==> bucket_width(from, to, buckets) == 1,
        from < to && buckets <= 1 ==> bucket_width(from, to, buckets) == if to - from <= i64::MAX {
            to - from
        } else {
            i64::MAX as int
        },
        from < to && to - from > i64::MAX && buckets >= 1 ==> bucket_width(from, to, buckets) * buckets <= i64::MAX && i64::MAX
            < (bucket_width(from, to, buckets) + 1) * buckets,
{
    let n = if buckets < 1 {
        1
    } else {
        buckets as int
    };
    let span = if to - from < 1 {
        1
    } else if to - from > i64::MAX {
        i64::MAX as int
    } else {
        to - from
    };
    assert((span / n) * n <= span && span < (span / n + 1) * n) by (nonlinear_arith)
        requires
            1 <= n,
    ;
    assert(span < n ==> span / n == 0) by (nonlinear_arith)
        requires
            1 <= span,
            1 <= n,
    ;
    assert(n == 1 ==> span / n == span) by (nonlinear_arith)
        requires
            1 <= span,
            1 <= n,
    ;
    assert(span == 1 ==> span / n <= 1) by (nonlinear_arith)
        requires
            1 <= n,
            1 <= span,
    ;
    assert(n <= span ==> span / n >= 1) by (nonlinear_arith)
        requires
            1 <= n,
            1 <= span,
    ;
}

/// The rows of the statement become series without a gap: every series has points, two that follow one
/// another are of different groups, and the first series begins with the first row.
pub proof fn law_rows_of_one_group_are_one_series(rows: Seq<(Option<Seq<char>>, Point)>)
    ensures
        forall|i: int| 0 <= i < series_of(rows).len() ==> (#[trigger] series_of(rows)[i]).points.len() > 0,
        forall|i: int, j: int|
            0 <= i < series_of(rows).len() && j == i + 1 && j < series_of(rows).len() ==> (#[trigger] series_of(
                rows,
            )[i]).group != (#[trigger] series_of(rows)[j]).group,
        series_of(rows).len() == 0 <==> rows.len() == 0,
        rows.len() > 0 ==> series_of(rows)[0].group == rows[0].0 && series_of(rows)[0].points[0] == rows[0].1,
        rows.len() > 0 ==> series_of(rows).last().group == rows.last().0,
    decreases rows.len(),
{
    if rows.len() > 0 {
        law_rows_of_one_group_are_one_series(rows.drop_last());
    }
}

/// Whether no group has two series.
pub open spec fn distinct_groups(s: Seq<SeriesView>) -> bool {
    forall|i: int, j: int| 0 <= i < j < s.len() ==> (#[trigger] s[i]).group != (#[trigger] s[j]).group
}

/// Whether a series stands before another.
pub open spec fn stands_before(s: Seq<SeriesView>, a: SeriesView, b: SeriesView) -> bool {
    exists|i: int, j: int| 0 <= i < j < s.len() && #[trigger] s[i] == a && #[trigger] s[j] == b
}

proof fn lemma_position(s: Seq<SeriesView>, group: Seq<char>)
    ensures
        0 <= position(s, group) <= s.len(),
        position(s, group) < s.len() ==> s[position(s, group)].group == Some(group),
        forall|i: int| 0 <= i < position(s, group) ==> (#[trigger] s[i]).group != Some(group),
    decreases s.len(),
{
    if s.len() > 0 && s[0].group != Some(group) {
        lemma_position(s.drop_first(), group);
        let at = position(s.drop_first(), group);
        assert forall|i: int| 0 <= i < position(s, group) implies (#[trigger] s[i]).group != Some(group) by {
            if i > 0 {
                assert(s.drop_first()[i - 1].group != Some(group));
            }
        }
    }
}

proof fn lemma_reordered_contains(s: Seq<SeriesView>, groups: Seq<Seq<char>>, x: SeriesView)
    ensures
        reordered(s, groups).contains(x) <==> s.contains(x),
    decreases groups.len(),
{
    if groups.len() > 0 {
        let at = position(s, groups[0]);
        lemma_position(s, groups[0]);
        if at < s.len() {
            let rest = s.remove(at);
            lemma_reordered_contains(rest, groups.drop_first(), x);
            let tail = reordered(rest, groups.drop_first());
            let all = seq![s[at]] + tail;
            if s.contains(x) {
                let i = choose|i: int| 0 <= i < s.len() && s[i] == x;
                if i < at {
                    assert(rest[i] == x);
                } else if i > at {
                    assert(rest[i - 1] == x);
                } else {
                    assert(all[0] == x);
                }
                if i != at {
                    assert(rest.contains(x));
                    let k = choose|k: int| 0 <= k < tail.len() && tail[k] == x;
                    assert(all[k + 1] == x);
                }
            }
            if all.contains(x) {
                let k = choose|k: int| 0 <= k < all.len() && all[k] == x;
                if k > 0 {
                    assert(tail[k - 1] == x);
                    assert(tail.contains(x));
                    let i = choose|i: int| 0 <= i < rest.len() && rest[i] == x;
                    assert(s[if i < at { i } else { i + 1 }] == x);
                }
            }
        } else {
            lemma_reordered_contains(s, groups.drop_first(), x);
        }
    }
}

/// The series of a chart stand in the order in which their groups were asked for, whatever order they
/// come in; and those of no named group stand behind all that were.
pub proof fn law_series_stand_as_asked_for(s: Seq<SeriesView>, groups: Seq<Seq<char>>, i: int, j: int)
    requires
        0 <= i < s.len(),
        0 <= j < s.len(),
        i != j,
        distinct_groups(s),
        groups.no_duplicates(),
        exists|a: int| 0 <= a < groups.len() && s[i].group == Some(#[trigger] groups[a]) && forall|b: int|
            0 <= b < groups.len() && s[j].group == Some(#[trigger] groups[b]) ==> a < b,
    ensures
        stands_before(reordered(s, groups), s[i], s[j]),
    decreases groups.len(),
{
    let a = choose|a: int|
        0 <= a < groups.len() && s[i].group == Some(#[trigger] groups[a]) && forall|b: int|
            0 <= b < groups.len() && s[j].group == Some(#[trigger] groups[b]) ==> a < b;
    let at = position(s, groups[0]);
    let later = groups.drop_first();
    lemma_position(s, groups[0]);
    if at < s.len() {
        let rest = s.remove(at);
        let tail = reordered(rest, later);
        let all = reordered(s, groups);
        assert(all =~= seq![s[at]] + tail);
        if a == 0 {
            assert(at == i) by {
                if at < i {
                    assert(s[at].group != s[i].group);
                } else if i < at {
                    assert(s[i].group != s[at].group);
                }
            }
            lemma_reordered_contains(rest, later, s[j]);
            assert(rest[if j < at { j } else { j - 1 }] == s[j]);
            assert(rest.contains(s[j]));
            let k = choose|k: int| 0 <= k < tail.len() && tail[k] == s[j];
            assert(all[0] == s[i] && all[k + 1] == s[j]);
        } else {
            assert(at != i) by {
                assert(groups[0] != groups[a]);
            }
            assert(at != j) by {
                if at == j {
                    assert(s[j].group == Some(groups[0]));
                }
            }
            let i2 = if i < at { i } else { i - 1 };
            let j2 = if j < at { j } else { j - 1 };
            assert(rest[i2] == s[i] && rest[j2] == s[j]);
            lemma_fewer(s, at, groups);
            assert(rest[i2].group == Some(later[a - 1]));
            assert forall|b: int| 0 <= b < later.len() && rest[j2].group == Some(#[trigger] later[b]) implies a - 1
                < b by {
                assert(s[j].group == Some(groups[b + 1]));
            }
            law_series_stand_as_asked_for(rest, later, i2, j2);
            let (x, y) = choose|x: int, y: int|
                0 <= x < y < tail.len() && #[trigger] tail[x] == s[i] && #[trigger] tail[y] == s[j];
            assert(all[x + 1] == s[i] && all[y + 1] == s[j]);
        }
    } else {
        assert(a != 0) by {
            if a == 0 {
                assert(s[i].group == Some(groups[0]));
            }
        }
        assert(later.no_duplicates()) by {
            assert forall|x: int, y: int| 0 <= x < later.len() && 0 <= y < later.len() && x != y implies later[x]
                != later[y] by {
                assert(groups[x + 1] != groups[y + 1]);
            }
        }
        assert(s[i].group == Some(later[a - 1]));
        assert forall|b: int| 0 <= b < later.len() && s[j].group == Some(#[trigger] later[b]) implies a - 1 < b by {
            assert(s[j].group == Some(groups[b + 1]));
        }
        law_series_stand_as_asked_for(s, later, i, j);
    }
}

proof fn lemma_fewer(s: Seq<SeriesView>, at: int, groups: Seq<Seq<char>>)
    requires
        0 <= at < s.len(),
        groups.len() > 0,
        distinct_groups(s),
        groups.no_duplicates(),
    ensures
        distinct_groups(s.remove(at)),
        groups.drop_first().no_duplicates(),
{
    let rest = s.remove(at);
    let later = groups.drop_first();
    assert forall|x: int, y: int| 0 <= x < y < rest.len() implies (#[trigger] rest[x]).group != (
    #[trigger] rest[y]).group by {
        let x2 = if x < at { x } else { x + 1 };
        let y2 = if y < at { y } else { y + 1 };
        assert(rest[x] == s[x2] && rest[y] == s[y2]);
        assert(s[x2].group != s[y2].group);
    }
    assert forall|x: int, y: int| 0 <= x < later.len() && 0 <= y < later.len() && x != y implies later[x]
        != later[y] by {
        assert(groups[x + 1] != groups[y + 1]);
    }
}

} // verus!
