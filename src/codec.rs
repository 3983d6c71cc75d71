//! Digit strings and the numbers they denote.
use vstd::prelude::*;
use crate::bignum::{lemma_power_positive, power};

verus! {

/// The value of a big-endian digit string in base `r`.
pub open spec fn digits_to_int(ds: Seq<nat>, r: nat) -> nat
    decreases ds.len(),
{
    if ds.len() == 0 {
        0
    } else {
        digits_to_int(ds.drop_last(), r) * r + ds.last()
    }
}

/// The base-`r` digits of `n`, least significant first, without zeros
/// above the top digit.
pub open spec fn low_digits(n: nat, r: nat) -> Seq<nat>
    decreases n,
    via low_digits_decreases
{
    if n == 0 || r < 2 {
        Seq::empty()
    } else {
        seq![n % r] + low_digits(n / r, r)
    }
}

#[via_fn]
proof fn low_digits_decreases(n: nat, r: nat) {
    if !(n == 0 || r < 2) {
        lemma_div_smaller(n, r);
    }
}

/// `k` zero digits.
pub open spec fn zero_digits(k: nat) -> Seq<nat> {
    Seq::new(k, |i: int| 0nat)
}

/// The big-endian base-`r` digits of `n`, padded on the left with zeros to
/// at least `len` digits. High digits beyond `len` are kept.
pub open spec fn int_to_digits(n: nat, r: nat, len: nat) -> Seq<nat> {
    let ds = low_digits(n, r).reverse();
    if ds.len() < len {
        zero_digits((len - ds.len()) as nat) + ds
    } else {
        ds
    }
}

/// Every digit is below `r`.
pub open spec fn digits_below(ds: Seq<nat>, r: nat) -> bool {
    forall|i: int| 0 <= i < ds.len() ==> ds[i] < r
}

proof fn lemma_div_smaller(n: nat, r: nat)
    requires
        n > 0,
        r >= 2,
    ensures
        n / r < n,
{
    assert(n / r < n) by (nonlinear_arith)
        requires
            n > 0,
            r >= 2,
    ;
}

proof fn lemma_zero_digits_val(k: nat, r: nat)
    ensures
        digits_to_int(zero_digits(k), r) == 0,
    decreases k,
{
    if k > 0 {
        assert(zero_digits(k).drop_last() =~= zero_digits((k - 1) as nat));
        lemma_zero_digits_val((k - 1) as nat, r);
        assert(0 * r == 0);
    }
}

/// Leading zero digits do not change the value.
pub proof fn lemma_digits_pad(k: nat, ds: Seq<nat>, r: nat)
    ensures
        digits_to_int(zero_digits(k) + ds, r) == digits_to_int(ds, r),
    decreases ds.len() + k,
{
    if ds.len() == 0 {
        assert(zero_digits(k) + ds =~= zero_digits(k));
        lemma_zero_digits_val(k, r);
    } else {
        assert((zero_digits(k) + ds).drop_last() =~= zero_digits(k) + ds.drop_last());
        assert((zero_digits(k) + ds).last() == ds.last());
        lemma_digits_pad(k, ds.drop_last(), r);
    }
}

/// The number of significant digits of `n` is at most `k` exactly when
/// `n < r^k`.
pub proof fn lemma_low_digits_len(n: nat, r: nat, k: nat)
    requires
        r >= 2,
    ensures
        low_digits(n, r).len() <= k <==> n < power(r, k),
    decreases n,
{
    if n == 0 {
        lemma_power_positive(r, k);
    } else {
        lemma_div_smaller(n, r);
        if k == 0 {
            assert(power(r, 0) == 1);
        } else {
            lemma_low_digits_len(n / r, r, (k - 1) as nat);
            let p = power(r, (k - 1) as nat);
            assert(power(r, k) == r * p);
            assert(n / r < p <==> n < r * p) by (nonlinear_arith)
                requires
                    r >= 2,
            ;
        }
    }
}

/// Reading back the digits of `n` gives `n`.
pub proof fn lemma_low_digits_val(n: nat, r: nat)
    requires
        r >= 2,
    ensures
        digits_to_int(low_digits(n, r).reverse(), r) == n,
        digits_below(low_digits(n, r), r),
    decreases n,
{
    if n > 0 {
        lemma_div_smaller(n, r);
        lemma_low_digits_val(n / r, r);
        let rest = low_digits(n / r, r);
        assert((seq![n % r] + rest).reverse() =~= rest.reverse().push(n % r));
        assert(rest.reverse().push(n % r).drop_last() =~= rest.reverse());
        assert((n / r) * r + n % r == n) by (nonlinear_arith)
            requires
                r >= 2,
        ;
        assert(n % r < r) by (nonlinear_arith)
            requires
                r >= 2,
        ;
        assert forall|i: int| 0 <= i < low_digits(n, r).len() implies low_digits(n, r)[i] < r by {
            if i > 0 {
                assert(low_digits(n, r)[i] == rest[i - 1]);
            }
        }
    }
}

/// A digit string of length `k` denotes less than `r^k`.
pub proof fn lemma_digits_bound(ds: Seq<nat>, r: nat)
    requires
        digits_below(ds, r),
    ensures
        digits_to_int(ds, r) < power(r, ds.len()),
    decreases ds.len(),
{
    if ds.len() > 0 {
        lemma_digits_bound(ds.drop_last(), r);
        let p = power(r, (ds.len() - 1) as nat);
        assert(digits_to_int(ds.drop_last(), r) * r + ds.last() < r * p) by (nonlinear_arith)
            requires
                digits_to_int(ds.drop_last(), r) < p,
                ds.last() < r,
        ;
    }
}

/// The digits of the value of a digit string, padded to its length, are
/// the string itself.
pub proof fn lemma_digits_round_trip(ds: Seq<nat>, r: nat)
    requires
        r >= 2,
        digits_below(ds, r),
    ensures
        int_to_digits(digits_to_int(ds, r), r, ds.len()) == ds,
    decreases ds.len(),
{
    if ds.len() == 0 {
        assert(int_to_digits(0, r, 0) =~= ds);
    } else {
        let init = ds.drop_last();
        let x = ds.last();
        let v = digits_to_int(init, r);
        let n = v * r + x;
        lemma_digits_round_trip(init, r);
        lemma_digits_bound(init, r);
        lemma_low_digits_len(v, r, init.len());
        assert(n / r == v && n % r == x) by (nonlinear_arith)
            requires
                n == v * r + x,
                x < r,
                r >= 2,
        ;
        if n == 0 {
            assert(v == 0 && x == 0) by (nonlinear_arith)
                requires
                    n == 0,
                    n == v * r + x,
                    r >= 2,
                    v >= 0,
                    x >= 0,
            ;
            assert(int_to_digits(v, r, init.len()) =~= zero_digits(init.len()));
            assert(int_to_digits(n, r, ds.len()) =~= zero_digits(ds.len()));
            assert(ds =~= init.push(x));
            assert(zero_digits(ds.len()) =~= zero_digits(init.len()).push(0nat));
        } else {
            let lv = low_digits(v, r);
            assert(low_digits(n, r) == seq![x] + lv);
            assert((seq![x] + lv).reverse() =~= lv.reverse().push(x));
            assert(ds =~= init.push(x));
            let k = lv.len();
            if k < init.len() {
                assert(int_to_digits(n, r, ds.len()) =~= zero_digits((init.len() - k) as nat)
                    + lv.reverse().push(x));
                assert(int_to_digits(v, r, init.len()) =~= zero_digits((init.len() - k) as nat)
                    + lv.reverse());
            } else {
                assert(int_to_digits(n, r, ds.len()) =~= lv.reverse().push(x));
            }
        }
    }
}

/// Reading back the padded digits of `n` gives `n`.
pub proof fn lemma_int_round_trip(n: nat, r: nat, len: nat)
    requires
        r >= 2,
    ensures
        digits_to_int(int_to_digits(n, r, len), r) == n,
        digits_below(int_to_digits(n, r, len), r),
        n < power(r, len) ==> int_to_digits(n, r, len).len() == len,
{
    let ds = low_digits(n, r).reverse();
    lemma_low_digits_val(n, r);
    lemma_low_digits_len(n, r, len);
    if ds.len() < len {
        lemma_digits_pad((len - ds.len()) as nat, ds, r);
        let all = zero_digits((len - ds.len()) as nat) + ds;
        assert forall|i: int| 0 <= i < all.len() implies all[i] < r by {
            if i >= len - ds.len() {
                assert(all[i] == ds[i - (len - ds.len())]);
                assert(ds[i - (len - ds.len())] == low_digits(n, r)[low_digits(n, r).len() - 1 - (i
                    - (len - ds.len()))]);
            }
        }
    } else {
        assert forall|i: int| 0 <= i < ds.len() implies ds[i] < r by {
            assert(ds[i] == low_digits(n, r)[low_digits(n, r).len() - 1 - i]);
        }
    }
}

} // verus!
