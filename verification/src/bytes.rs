//! Bytes: their order, and numbers written in them.

use vstd::prelude::*;

verus! {

/// Whether `a` stands before `b` in lexicographic order.
pub open spec fn bytes_before(a: Seq<u8>, b: Seq<u8>) -> bool
    decreases a.len(),
{
    if b.len() == 0 {
        false
    } else if a.len() == 0 {
        true
    } else {
        a[0] < b[0] || (a[0] == b[0] && bytes_before(a.drop_first(), b.drop_first()))
    }
}

proof fn lemma_bytes_order_irreflexive(a: Seq<u8>)
    ensures
        !bytes_before(a, a),
    decreases a.len(),
{
    if a.len() > 0 {
        lemma_bytes_order_irreflexive(a.drop_first());
    }
}

proof fn lemma_bytes_order_asymmetric(a: Seq<u8>, b: Seq<u8>)
    ensures
        !(bytes_before(a, b) && bytes_before(b, a)),
    decreases a.len(),
{
    if a.len() > 0 && b.len() > 0 {
        lemma_bytes_order_asymmetric(a.drop_first(), b.drop_first());
    }
}

proof fn lemma_same_head_and_tail(a: Seq<u8>, b: Seq<u8>)
    requires
        a.len() > 0,
        b.len() > 0,
        a[0] == b[0],
        a.drop_first() == b.drop_first(),
    ensures
        a == b,
{
    assert(a.len() == a.drop_first().len() + 1);
    assert(b.len() == b.drop_first().len() + 1);
    assert forall|i: int| 0 <= i < a.len() implies a[i] == b[i] by {
        if i > 0 {
            assert(a[i] == a.drop_first()[i - 1]);
            assert(b[i] == b.drop_first()[i - 1]);
        }
    }
    assert(a =~= b);
}

proof fn lemma_bytes_order_comparable(a: Seq<u8>, b: Seq<u8>)
    ensures
        bytes_before(a, b) || bytes_before(b, a) || a == b,
    decreases a.len(),
{
    if a.len() == 0 || b.len() == 0 {
        if a.len() == 0 && b.len() == 0 {
            assert(a =~= b);
        }
    } else {
        lemma_bytes_order_comparable(a.drop_first(), b.drop_first());
        if a[0] == b[0] && a.drop_first() == b.drop_first() {
            lemma_same_head_and_tail(a, b);
        }
    }
}

/// The order is total: of two different sequences one stands before the other, and not both.
pub proof fn lemma_bytes_order_total(a: Seq<u8>, b: Seq<u8>)
    ensures
        bytes_before(a, b) || bytes_before(b, a) || a == b,
        !(bytes_before(a, b) && bytes_before(b, a)),
        !bytes_before(a, a),
{
    lemma_bytes_order_irreflexive(a);
    lemma_bytes_order_asymmetric(a, b);
    lemma_bytes_order_comparable(a, b);
}

pub proof fn lemma_bytes_order_transitive(a: Seq<u8>, b: Seq<u8>, c: Seq<u8>)
    requires
        bytes_before(a, b),
        bytes_before(b, c),
    ensures
        bytes_before(a, c),
    decreases a.len(),
{
    if a.len() > 0 && a[0] == b[0] && b[0] == c[0] {
        lemma_bytes_order_transitive(a.drop_first(), b.drop_first(), c.drop_first());
    }
}

proof fn lemma_bytes_before_at(a: Seq<u8>, b: Seq<u8>, k: int)
    requires
        0 <= k <= a.len(),
        k <= b.len(),
        forall|i: int| 0 <= i < k ==> #[trigger] a[i] == b[i],
        k < a.len() && k < b.len() ==> a[k] != b[k],
    ensures
        bytes_before(a, b) == (k < b.len() && (k == a.len() || a[k] < b[k])),
    decreases k,
{
    if k > 0 {
        let x = a.drop_first();
        let y = b.drop_first();
        assert(a[0] == b[0]);
        assert forall|i: int| 0 <= i < k - 1 implies #[trigger] x[i] == y[i] by {
            assert(x[i] == a[i + 1] && y[i] == b[i + 1]);
            assert(a[i + 1] == b[i + 1]);
        }
        lemma_bytes_before_at(x, y, k - 1);
    }
}

/// Whether `a` stands before `b` in lexicographic order.
pub fn is_before(a: &[u8], b: &[u8]) -> (r: bool)
    ensures
        r == bytes_before(a@, b@),
{
    let mut k: usize = 0;
    while k < a.len() && k < b.len() && a[k] == b[k]
        invariant
            k <= a@.len(),
            k <= b@.len(),
            forall|i: int| 0 <= i < k ==> #[trigger] a@[i] == b@[i],
        decreases a.len() - k,
    {
        k += 1;
    }
    proof {
        lemma_bytes_before_at(a@, b@, k as int);
    }
    k < b.len() && (k == a.len() || a[k] < b[k])
}

/// `n` in `width` bytes, the most significant first.
pub open spec fn big_endian(n: nat, width: nat) -> Seq<u8>
    decreases width,
{
    if width == 0 {
        Seq::empty()
    } else {
        big_endian(n / 256, (width - 1) as nat).push((n % 256) as u8)
    }
}

/// The number that `s` writes, the most significant byte first.
pub open spec fn big_endian_value(s: Seq<u8>) -> nat
    decreases s.len(),
{
    if s.len() == 0 {
        0
    } else {
        big_endian_value(s.drop_last()) * 256 + s.last() as nat
    }
}

/// The eight bytes of a 64-bit number.
pub open spec fn be64(n: u64) -> Seq<u8> {
    big_endian(n as nat, 8)
}

proof fn lemma_big_endian_len(n: nat, width: nat)
    ensures
        big_endian(n, width).len() == width,
    decreases width,
{
    if width > 0 {
        lemma_big_endian_len(n / 256, (width - 1) as nat);
    }
}

/// Eight bytes write one number, and different numbers differ in them.
pub proof fn lemma_be64(n: u64)
    ensures
        be64(n).len() == 8,
        big_endian_value(be64(n)) == n,
{
    lemma_big_endian_len(n as nat, 8);
    let n0 = n as nat;
    let n1 = n0 / 256;
    let n2 = n1 / 256;
    let n3 = n2 / 256;
    let n4 = n3 / 256;
    let n5 = n4 / 256;
    let n6 = n5 / 256;
    let n7 = n6 / 256;
    lemma_value_step(n7, 0);
    assert(big_endian(n7 / 256, 0) =~= Seq::<u8>::empty());
    assert(n7 < 256);
    lemma_value_step(n6, 1);
    lemma_value_step(n5, 2);
    lemma_value_step(n4, 3);
    lemma_value_step(n3, 4);
    lemma_value_step(n2, 5);
    lemma_value_step(n1, 6);
    lemma_value_step(n0, 7);
}

proof fn lemma_value_step(n: nat, width: nat)
    ensures
        big_endian_value(big_endian(n, width + 1)) == big_endian_value(big_endian(n / 256, width)) * 256 + n % 256,
{
    let s = big_endian(n, width + 1);
    assert(s.drop_last() =~= big_endian(n / 256, width));
}

/// The eight bytes of a 64-bit number.
pub fn to_be64(n: u64) -> (r: Vec<u8>)
    ensures
        r@ == be64(n),
        r@.len() == 8,
{
    proof {
        lemma_be64(n);
    }
    to_big_endian(n, 8)
}

fn to_big_endian(n: u64, width: u32) -> (r: Vec<u8>)
    ensures
        r@ == big_endian(n as nat, width as nat),
    decreases width,
{
    if width == 0 {
        Vec::new()
    } else {
        let mut out = to_big_endian(n / 256, width - 1);
        out.push((n % 256) as u8);
        out
    }
}

/// Appends `more` to `out`.
pub fn put(out: &mut Vec<u8>, more: &[u8])
    ensures
        final(out)@ == old(out)@ + more@,
{
    let mut i: usize = 0;
    assert(more@.take(0) =~= Seq::<u8>::empty());
    while i < more.len()
        invariant
            i <= more@.len(),
            out@ == old(out)@ + more@.take(i as int),
        decreases more.len() - i,
    {
        proof {
            assert(more@.take(i + 1) =~= more@.take(i as int).push(more@[i as int]));
        }
        out.push(more[i]);
        i += 1;
    }
    proof {
        assert(more@.take(i as int) =~= more@);
    }
}

} // verus!
