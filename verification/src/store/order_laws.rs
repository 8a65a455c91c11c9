//! That the order in which numbers are offered is that of the values which their doubles stand for.

use vstd::arithmetic::power2::{lemma_pow2_pos, lemma_pow2_strictly_increases, lemma_pow2_unfold, pow2};
use vstd::prelude::*;
use vstd::utf8::encode_utf8;

use crate::bytes::bytes_before;
use crate::store::order::{rank_of, stands_before};

verus! {

/// How large a finite double is, in units of the smallest there is, doubled: the fraction, with the
/// leading one that is not written unless the exponent is zero, scaled by the exponent.
pub open spec fn scaled_size(exponent: nat, fraction: nat) -> int {
    if exponent == 0 {
        2 * fraction as int
    } else {
        (0x10_0000_0000_0000 + fraction) as int * pow2(exponent) as int
    }
}

/// The value of a finite double, in the same units: its sign, and its size.
pub open spec fn scaled_value(bits: u64) -> int {
    let size = bits as nat % 0x8000_0000_0000_0000;
    let scaled = scaled_size(size / 0x10_0000_0000_0000, size % 0x10_0000_0000_0000);
    if bits as nat / 0x8000_0000_0000_0000 == 0 {
        scaled
    } else {
        -scaled
    }
}

proof fn lemma_size_grows(e: nat, f: nat, g: nat, h: nat)
    requires
        f < 0x10_0000_0000_0000,
        h < 0x10_0000_0000_0000,
        e < g || (e == g && f < h),
    ensures
        scaled_size(e, f) < scaled_size(g, h),
{
    lemma_pow2_pos(g);
    if e == g {
        if e > 0 {
            let p = pow2(e) as int;
            assert((0x10_0000_0000_0000 + f) * p < (0x10_0000_0000_0000 + h) * p) by (nonlinear_arith)
                requires
                    f < h,
                    p > 0,
            ;
        }
    } else {
        let top = pow2(e + 1) as int;
        lemma_pow2_unfold(e + 1);
        lemma_pow2_pos(e);
        let low = pow2(e) as int;
        assert(top == 2 * low);
        if e + 1 < g {
            lemma_pow2_strictly_increases(e + 1, g);
        }
        let high = pow2(g) as int;
        assert(top <= high);
        assert(scaled_size(e, f) < 0x10_0000_0000_0000 * top) by {
            if e == 0 {
                vstd::arithmetic::power2::lemma2_to64();
                assert(pow2(0) == 1);
            } else {
                assert((0x10_0000_0000_0000 + f) * low < 0x20_0000_0000_0000 * low) by (nonlinear_arith)
                    requires
                        f < 0x10_0000_0000_0000,
                        low > 0,
                ;
            }
        }
        assert(0x10_0000_0000_0000 * top <= (0x10_0000_0000_0000 + h) * high) by (nonlinear_arith)
            requires
                top <= high,
                h >= 0,
                high > 0,
        ;
    }
}

proof fn lemma_sizes(a: nat, b: nat)
    ensures
        ({
            let x = scaled_size(a / 0x10_0000_0000_0000, a % 0x10_0000_0000_0000);
            let y = scaled_size(b / 0x10_0000_0000_0000, b % 0x10_0000_0000_0000);
            &&& a < b ==> x < y
            &&& a == b ==> x == y
            &&& a > b ==> x > y
            &&& x >= 0 && (x == 0 <==> a == 0)
        }),
{
    let e = a / 0x10_0000_0000_0000;
    let f = a % 0x10_0000_0000_0000;
    let g = b / 0x10_0000_0000_0000;
    let h = b % 0x10_0000_0000_0000;
    if a < b {
        lemma_size_grows(e, f, g, h);
    } else if a > b {
        lemma_size_grows(g, h, e, f);
    }
    if a > 0 {
        lemma_size_grows(0, 0, e, f);
    }
}

/// Numbers stand in the order of their values: of two finite doubles the lesser has the lesser rank,
/// and the two zeros have one.
pub proof fn law_ranks_are_in_the_order_of_values(a: u64, b: u64)
    requires
        a as nat % 0x8000_0000_0000_0000 < 0x7ff0_0000_0000_0000,
        b as nat % 0x8000_0000_0000_0000 < 0x7ff0_0000_0000_0000,
    ensures
        rank_of(a) < rank_of(b) <==> scaled_value(a) < scaled_value(b),
        rank_of(a) == rank_of(b) <==> scaled_value(a) == scaled_value(b),
{
    let x = a as nat % 0x8000_0000_0000_0000;
    let y = b as nat % 0x8000_0000_0000_0000;
    lemma_sizes(x, y);
    lemma_sizes(y, x);
}

/// A lesser number stands before a greater one, and of two texts of one number, or where not all are
/// numbers, the one whose bytes come first.
pub proof fn law_numbers_stand_by_value_and_texts_by_bytes(a: (int, Seq<char>), b: (int, Seq<char>))
    ensures
        a.0 < b.0 ==> stands_before(true, a, b) && !stands_before(true, b, a),
        a.0 == b.0 ==> (stands_before(true, a, b) <==> bytes_before(encode_utf8(a.1), encode_utf8(b.1))),
        stands_before(false, a, b) <==> bytes_before(encode_utf8(a.1), encode_utf8(b.1)),
{
}

/// Whether two byte strings are told apart at a place, the first of them by the lesser byte or by its
/// end.
pub open spec fn first_parts(a: Seq<u8>, b: Seq<u8>, k: int) -> bool {
    &&& 0 <= k <= a.len() && k < b.len()
    &&& a.take(k) == b.take(k)
    &&& k == a.len() || a[k] < b[k]
}

/// One byte string comes before another where, at the first place that tells them apart, it has the
/// lesser byte or is at its end.
pub proof fn law_bytes_are_told_apart_at_the_first_difference(a: Seq<u8>, b: Seq<u8>)
    ensures
        bytes_before(a, b) <==> exists|k: int| #[trigger] first_parts(a, b, k),
    decreases a.len(),
{
    if a.len() == 0 || b.len() == 0 {
        if b.len() > 0 {
            assert(a.take(0) =~= b.take(0));
            assert(first_parts(a, b, 0));
        }
    } else {
        let x = a.drop_first();
        let y = b.drop_first();
        law_bytes_are_told_apart_at_the_first_difference(x, y);
        if bytes_before(a, b) {
            if a[0] < b[0] {
                assert(a.take(0) =~= b.take(0));
                assert(first_parts(a, b, 0));
            } else {
                let k = choose|k: int| #[trigger] first_parts(x, y, k);
                assert(a.take(k + 1) =~= seq![a[0]] + x.take(k));
                assert(b.take(k + 1) =~= seq![b[0]] + y.take(k));
                assert(first_parts(a, b, k + 1));
            }
        }
        if exists|k: int| #[trigger] first_parts(a, b, k) {
            let k = choose|k: int| #[trigger] first_parts(a, b, k);
            if k > 0 {
                assert(a.take(k)[0] == a[0] && b.take(k)[0] == b[0]);
                assert(x.take(k - 1) =~= a.take(k).drop_first());
                assert(y.take(k - 1) =~= b.take(k).drop_first());
                assert(first_parts(x, y, k - 1));
            }
        }
    }
}

} // verus!
