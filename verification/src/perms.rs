//! Sequences that hold the same elements in another order.

use vstd::prelude::*;

verus! {

/// Whether `t` holds what `s` holds, as often, in whatever order.
pub open spec fn same_elements<A>(s: Seq<A>, t: Seq<A>) -> bool {
    s.to_multiset() == t.to_multiset()
}

/// Where an element of one stands in the other, both hold the same without it.
pub proof fn lemma_take_one_out<A>(s: Seq<A>, t: Seq<A>) -> (at: int)
    requires
        s.len() > 0,
        same_elements(s, t),
    ensures
        0 <= at < t.len(),
        t[at] == s.last(),
        s.len() == t.len(),
        same_elements(s.drop_last(), t.remove(at)),
{
    broadcast use vstd::seq_lib::group_to_multiset_ensures;

    lemma_same_len(s, t);
    let x = s.last();
    let front = s.drop_last();
    assert(front.push(x) =~= s);
    assert(s[s.len() - 1] == x);
    assert(s.contains(x));
    assert(t.to_multiset().count(x) > 0);
    assert(t.contains(x));
    let at = t.index_of(x);
    assert(t[at] == x);
    vstd::seq_lib::to_multiset_build(front, x);
    vstd::seq_lib::to_multiset_remove(t, at);
    assert(front.to_multiset() =~= s.to_multiset().remove(x));
    at
}

/// Sequences with the same elements have the same length.
pub proof fn lemma_same_len<A>(s: Seq<A>, t: Seq<A>)
    requires
        same_elements(s, t),
    ensures
        s.len() == t.len(),
{
    vstd::seq_lib::to_multiset_len(s);
    vstd::seq_lib::to_multiset_len(t);
}

/// Sequences with the same elements contain the same.
pub proof fn lemma_same_contents<A>(s: Seq<A>, t: Seq<A>)
    requires
        same_elements(s, t),
    ensures
        forall|x: A| #[trigger] s.contains(x) <==> t.contains(x),
{
    broadcast use vstd::seq_lib::group_to_multiset_ensures;

    assert forall|x: A| #[trigger] s.contains(x) <==> t.contains(x) by {
        assert(s.to_multiset().count(x) == t.to_multiset().count(x));
    }
}

/// Applying one function to all elements keeps what two sequences have in common.
pub proof fn lemma_same_mapped<A, B>(s: Seq<A>, t: Seq<A>, f: spec_fn(A) -> B)
    requires
        same_elements(s, t),
    ensures
        same_elements(s.map_values(f), t.map_values(f)),
    decreases s.len(),
{
    lemma_same_len(s, t);
    if s.len() == 0 {
        assert(s.map_values(f) =~= t.map_values(f));
    } else {
        let at = lemma_take_one_out(s, t);
        let front = s.drop_last();
        let rest = t.remove(at);
        lemma_same_mapped(front, rest, f);
        assert(s.map_values(f) =~= front.map_values(f).push(f(s.last())));
        assert(t.map_values(f).remove(at) =~= rest.map_values(f));
        vstd::seq_lib::to_multiset_build(front.map_values(f), f(s.last()));
        vstd::seq_lib::to_multiset_remove(t.map_values(f), at);
        assert(t.map_values(f)[at] == f(s.last()));
        assert(t.map_values(f).contains(f(s.last())));
        vstd::seq_lib::to_multiset_contains(t.map_values(f), f(s.last()));
        assert(t.map_values(f).to_multiset() =~= rest.map_values(f).to_multiset().insert(f(s.last())));
    }
}

} // verus!
