//! Arbitrary-precision non-negative integers, carried as big-endian byte
//! strings. The arithmetic itself is done by `num_bigint`.
use vstd::prelude::*;
use num_bigint::BigUint;
use num_traits::Euclid;
use num_traits::Zero;
use num_traits::ToPrimitive;
use byteorder::ByteOrder;

verus! {

/// `b` to the power `e`.
pub open spec fn power(b: nat, e: nat) -> nat
    decreases e,
{
    if e == 0 {
        1
    } else {
        b * power(b, (e - 1) as nat)
    }
}

/// The number that a big-endian byte string denotes.
pub open spec fn be_val(s: Seq<u8>) -> nat
    decreases s.len(),
{
    if s.len() == 0 {
        0
    } else {
        be_val(s.drop_last()) * 256 + s.last() as nat
    }
}

/// `v` as exactly `len` big-endian bytes (the value modulo `256^len`).
pub open spec fn nat_to_be(v: nat, len: nat) -> Seq<u8>
    decreases len,
{
    if len == 0 {
        Seq::empty()
    } else {
        nat_to_be(v / 256, (len - 1) as nat).push((v % 256) as u8)
    }
}

/// The four big-endian bytes of a 32-bit word.
pub open spec fn u32_bytes(x: u32) -> Seq<u8> {
    seq![
        ((x as nat / 0x1000000) % 256) as u8,
        ((x as nat / 0x10000) % 256) as u8,
        ((x as nat / 0x100) % 256) as u8,
        (x as nat % 256) as u8,
    ]
}

pub proof fn lemma_power_step(b: nat, e: nat)
    ensures
        power(b, e + 1) == b * power(b, e),
        power(b, 0) == 1,
        power(b, 1) == b,
{
    assert(power(b, 0) == 1);
    assert(power(b, 1) == b * power(b, 0));
    assert(b * 1 == b);
    assert((e + 1 - 1) as nat == e);
}

pub proof fn lemma_power_positive(b: nat, e: nat)
    requires
        b >= 1,
    ensures
        power(b, e) >= 1,
    decreases e,
{
    if e > 0 {
        lemma_power_positive(b, (e - 1) as nat);
        assert(b * power(b, (e - 1) as nat) >= 1) by (nonlinear_arith)
            requires
                b >= 1,
                power(b, (e - 1) as nat) >= 1,
        ;
    }
}

pub proof fn lemma_power_adds(b: nat, e1: nat, e2: nat)
    ensures
        power(b, e1 + e2) == power(b, e1) * power(b, e2),
    decreases e1,
{
    if e1 == 0 {
        assert(e1 + e2 == e2);
        assert(power(b, e1) == 1);
        assert(1 * power(b, e2) == power(b, e2));
    } else {
        assert(power(b, e1) == b * power(b, (e1 - 1) as nat));
        lemma_power_adds(b, (e1 - 1) as nat, e2);
        assert((e1 + e2 - 1) as nat == ((e1 - 1) as nat + e2));
        assert(power(b, e1 + e2) == b * power(b, ((e1 - 1) as nat + e2)));
        assert(b * (power(b, (e1 - 1) as nat) * power(b, e2)) == (b * power(b, (e1 - 1) as nat))
            * power(b, e2)) by (nonlinear_arith);
    }
}

pub proof fn lemma_power_monotone(b: nat, e1: nat, e2: nat)
    requires
        b >= 1,
        e1 <= e2,
    ensures
        power(b, e1) <= power(b, e2),
{
    lemma_power_adds(b, e1, (e2 - e1) as nat);
    lemma_power_positive(b, (e2 - e1) as nat);
    lemma_power_positive(b, e1);
    assert(power(b, e1) * power(b, (e2 - e1) as nat) >= power(b, e1)) by (nonlinear_arith)
        requires
            power(b, (e2 - e1) as nat) >= 1,
    ;
    assert(e1 + (e2 - e1) as nat == e2);
}

/// A byte string denotes less than `256^len`.
pub proof fn lemma_be_val_bound(s: Seq<u8>)
    ensures
        be_val(s) < power(256, s.len()),
    decreases s.len(),
{
    if s.len() > 0 {
        lemma_be_val_bound(s.drop_last());
        let p = power(256, (s.len() - 1) as nat);
        assert(be_val(s.drop_last()) * 256 + (s.last() as nat) < 256 * p) by (nonlinear_arith)
            requires
                be_val(s.drop_last()) < p,
                s.last() < 256,
        ;
    }
}

/// Splitting a byte string splits its value.
pub proof fn lemma_be_val_append(s: Seq<u8>, t: Seq<u8>)
    ensures
        be_val(s + t) == be_val(s) * power(256, t.len()) + be_val(t),
    decreases t.len(),
{
    if t.len() == 0 {
        assert(s + t =~= s);
        assert(power(256, 0) == 1);
        assert(be_val(t) == 0);
    } else {
        let t1 = t.drop_last();
        assert((s + t).drop_last() =~= s + t1);
        assert((s + t).last() == t.last());
        lemma_be_val_append(s, t1);
        let p = power(256, t1.len());
        assert((be_val(s) * p + be_val(t1)) * 256 + t.last() as nat == be_val(s) * (256 * p) + (
        be_val(t1) * 256 + t.last() as nat)) by (nonlinear_arith);
        assert(t.len() - 1 == t1.len());
        assert(power(256, t.len()) == 256 * p);
        assert(be_val(s + t) == be_val(s + t1) * 256 + t.last() as nat);
    }
}

/// `k` zero bytes.
pub open spec fn zeros(k: nat) -> Seq<u8> {
    Seq::new(k, |i: int| 0u8)
}

/// Zero bytes denote zero.
pub proof fn lemma_be_val_zeros(k: nat)
    ensures
        be_val(zeros(k)) == 0,
    decreases k,
{
    if k > 0 {
        assert(zeros(k).drop_last() =~= zeros((k - 1) as nat));
        lemma_be_val_zeros((k - 1) as nat);
    }
}

/// Leading zero bytes do not change the value.
pub proof fn lemma_be_val_pad(k: nat, s: Seq<u8>)
    ensures
        be_val(zeros(k) + s) == be_val(s),
{
    lemma_be_val_zeros(k);
    lemma_be_val_append(zeros(k), s);
    assert(0 * power(256, s.len()) == 0);
}

/// A byte string is the encoding of its value at its length.
pub proof fn lemma_be_unique(s: Seq<u8>)
    ensures
        s == nat_to_be(be_val(s), s.len()),
    decreases s.len(),
{
    if s.len() > 0 {
        let init = s.drop_last();
        lemma_be_unique(init);
        let v = be_val(s);
        assert(v / 256 == be_val(init) && v % 256 == s.last() as nat) by (nonlinear_arith)
            requires
                v == be_val(init) * 256 + s.last() as nat,
                s.last() < 256,
        ;
        assert(s =~= init.push(s.last()));
    }
}

/// A byte string that starts with a nonzero byte denotes at least
/// `256^(len-1)`.
pub proof fn lemma_be_val_leading(s: Seq<u8>)
    requires
        s.len() > 0,
        s[0] != 0,
    ensures
        be_val(s) >= power(256, (s.len() - 1) as nat),
{
    let head = s.subrange(0, 1);
    let rest = s.subrange(1, s.len() as int);
    assert(s =~= head + rest);
    lemma_be_val_append(head, rest);
    assert(head.drop_last() =~= Seq::<u8>::empty());
    assert(be_val(head.drop_last()) == 0);
    assert(head.last() == s[0]);
    assert(be_val(head) == be_val(head.drop_last()) * 256 + head.last() as nat);
    assert(be_val(head) == s[0] as nat);
    assert(be_val(head) * power(256, rest.len()) >= power(256, rest.len())) by (nonlinear_arith)
        requires
            be_val(head) >= 1,
    ;
}

/// Raising a larger base gives a larger power.
pub proof fn lemma_power_base_monotone(b1: nat, b2: nat, e: nat)
    requires
        b1 <= b2,
    ensures
        power(b1, e) <= power(b2, e),
    decreases e,
{
    if e > 0 {
        lemma_power_base_monotone(b1, b2, (e - 1) as nat);
        lemma_power_step(b1, (e - 1) as nat);
        lemma_power_step(b2, (e - 1) as nat);
        assert((e - 1 + 1) as nat == e);
        let p1 = power(b1, (e - 1) as nat);
        let p2 = power(b2, (e - 1) as nat);
        assert(b1 * p1 <= b2 * p2) by (nonlinear_arith)
            requires
                b1 <= b2,
                p1 <= p2,
        ;
    }
}

/// `256^(3e) == 16777216^e`.
pub proof fn lemma_power_256_cubed(e: nat)
    ensures
        power(256, 3 * e) == power(16777216, e),
    decreases e,
{
    if e > 0 {
        lemma_power_256_cubed((e - 1) as nat);
        lemma_power_adds(256, 3, (3 * (e - 1)) as nat);
        assert(power(256, 3) == 16777216) by {
            reveal_with_fuel(power, 4);
        }
        assert(3 + 3 * (e - 1) == 3 * e);
        lemma_power_step(16777216, (e - 1) as nat);
        assert((e - 1 + 1) as nat == e);
    }
}

/// The value of the four bytes of a word is the word.
pub proof fn lemma_u32_bytes(x: u32)
    ensures
        be_val(u32_bytes(x)) == x,
{
    let s = u32_bytes(x);
    assert(s.drop_last().drop_last().drop_last().drop_last() =~= Seq::<u8>::empty());
    reveal_with_fuel(be_val, 5);
    assert(be_val(s) == (((x as nat / 0x1000000) % 256) * 256 + ((x as nat / 0x10000) % 256)) * 65536
        + ((x as nat / 0x100) % 256) * 256 + x as nat % 256);
    let xn = x as nat;
    assert((((xn / 0x1000000) % 256) * 256 + ((xn / 0x10000) % 256)) * 65536 + ((xn / 0x100) % 256)
        * 256 + xn % 256 == xn) by (nonlinear_arith)
        requires
            xn < 0x100000000,
    ;
}

/// Relies on byteorder's `BigEndian::write_u32`: the word in four
/// big-endian bytes.
#[verifier::external_body]
pub(crate) fn be_u32(x: u32) -> (r: [u8; 4])
    ensures
        r@ == u32_bytes(x),
{
    let mut buf = [0u8; 4];
    byteorder::BigEndian::write_u32(&mut buf, x);
    buf
}

/// Relies on `Add` for num_bigint's `BigUint`.
#[verifier::external_body]
pub(crate) fn big_add(a: &[u8], b: &[u8]) -> (r: Vec<u8>)
    ensures
        be_val(r@) == be_val(a@) + be_val(b@),
{
    (BigUint::from_bytes_be(a) + BigUint::from_bytes_be(b)).to_bytes_be()
}

/// Relies on `Sub` for num_bigint's `BigUint`, which panics below zero.
#[verifier::external_body]
pub(crate) fn big_sub(a: &[u8], b: &[u8]) -> (r: Vec<u8>)
    requires
        be_val(a@) >= be_val(b@),
    ensures
        be_val(r@) == be_val(a@) - be_val(b@),
{
    (BigUint::from_bytes_be(a) - BigUint::from_bytes_be(b)).to_bytes_be()
}

/// Relies on num_traits' `Euclid::rem_euclid` for `BigUint`: the
/// non-negative remainder, which panics on a zero modulus.
#[verifier::external_body]
pub(crate) fn big_rem(a: &[u8], m: &[u8]) -> (r: Vec<u8>)
    requires
        be_val(m@) > 0,
    ensures
        be_val(r@) == be_val(a@) % be_val(m@),
{
    BigUint::from_bytes_be(a).rem_euclid(&BigUint::from_bytes_be(m)).to_bytes_be()
}

/// Relies on `Pow<u32>` for num_bigint's `BigUint`.
#[verifier::external_body]
pub(crate) fn big_pow(base: u64, exp: u32) -> (r: Vec<u8>)
    ensures
        be_val(r@) == power(base as nat, exp as nat),
{
    BigUint::from(base).pow(exp).to_bytes_be()
}

/// Relies on `Mul<u64>` for num_bigint's `BigUint`.
#[verifier::external_body]
pub(crate) fn big_mul_u64(a: &[u8], w: u64) -> (r: Vec<u8>)
    ensures
        be_val(r@) == be_val(a@) * w,
{
    (BigUint::from_bytes_be(a) * w).to_bytes_be()
}

/// Relies on `Add<u64>` for num_bigint's `BigUint`.
#[verifier::external_body]
pub(crate) fn big_add_u64(a: &[u8], w: u64) -> (r: Vec<u8>)
    ensures
        be_val(r@) == be_val(a@) + w,
{
    (BigUint::from_bytes_be(a) + w).to_bytes_be()
}

/// Relies on `Div<u64>` for num_bigint's `BigUint`, which panics on zero.
#[verifier::external_body]
pub(crate) fn big_div_u64(a: &[u8], w: u64) -> (r: Vec<u8>)
    requires
        w > 0,
    ensures
        be_val(r@) == be_val(a@) / (w as nat),
{
    (BigUint::from_bytes_be(a) / w).to_bytes_be()
}

/// Relies on `Rem<u64>` for num_bigint's `BigUint`, which panics on zero;
/// the remainder is below `w` and so fits in a `u64`.
#[verifier::external_body]
pub(crate) fn big_rem_u64(a: &[u8], w: u64) -> (r: u64)
    requires
        w > 0,
    ensures
        r as nat == be_val(a@) % (w as nat),
{
    (BigUint::from_bytes_be(a) % w).to_u64().unwrap()
}

/// Relies on num_traits' `Zero::is_zero` for `BigUint`.
#[verifier::external_body]
pub(crate) fn big_is_zero(a: &[u8]) -> (r: bool)
    ensures
        r == (be_val(a@) == 0),
{
    BigUint::from_bytes_be(a).is_zero()
}

/// Relies on `PartialOrd` for num_bigint's `BigUint`.
#[verifier::external_body]
pub(crate) fn big_le(a: &[u8], b: &[u8]) -> (r: bool)
    ensures
        r == (be_val(a@) <= be_val(b@)),
{
    BigUint::from_bytes_be(a) <= BigUint::from_bytes_be(b)
}

/// The number of bytes that `x` needs: its base-256 digit count.
pub fn significant_bytes(x: &[u8]) -> (b: usize)
    ensures
        b as nat == crate::codec::low_digits(be_val(x@), 256).len(),
        b <= x@.len(),
{
    let mut k: usize = 0;
    while k < x.len() && x[k] == 0
        invariant
            k <= x@.len(),
            forall|i: int| 0 <= i < k ==> x@[i] == 0,
        decreases x@.len() - k,
    {
        k = k + 1;
    }
    let b = x.len() - k;
    proof {
        let rest = x@.subrange(k as int, x@.len() as int);
        assert(x@ =~= zeros(k as nat) + rest);
        lemma_be_val_pad(k as nat, rest);
        lemma_be_val_bound(rest);
        crate::codec::lemma_low_digits_len(be_val(x@), 256, b as nat);
        if b > 0 {
            lemma_be_val_leading(rest);
            crate::codec::lemma_low_digits_len(be_val(x@), 256, (b - 1) as nat);
        }
    }
    b
}

/// Appends the bytes of `s`.
pub fn append_bytes(buf: &mut Vec<u8>, s: &[u8])
    ensures
        final(buf)@ == old(buf)@ + s@,
{
    let ghost b0 = buf@;
    let mut i: usize = 0;
    while i < s.len()
        invariant
            i <= s@.len(),
            buf@ =~= b0 + s@.subrange(0, i as int),
        decreases s@.len() - i,
    {
        buf.push(s[i]);
        i = i + 1;
    }
    assert(s@.subrange(0, s@.len() as int) =~= s@);
}

/// Appends `k` zero bytes.
pub fn append_zeros(buf: &mut Vec<u8>, k: usize)
    ensures
        final(buf)@ == old(buf)@ + zeros(k as nat),
{
    let ghost b0 = buf@;
    let mut i: usize = 0;
    while i < k
        invariant
            i <= k,
            buf@ =~= b0 + zeros(i as nat),
        decreases k - i,
    {
        buf.push(0u8);
        i = i + 1;
    }
}

/// The bytes of `s` in reverse order.
pub fn reverse_bytes(s: &[u8]) -> (r: Vec<u8>)
    ensures
        r@ == s@.reverse(),
{
    let mut r: Vec<u8> = Vec::new();
    let mut i: usize = s.len();
    while i > 0
        invariant
            i <= s@.len(),
            r@ =~= s@.subrange(i as int, s@.len() as int).reverse(),
        decreases i,
    {
        i = i - 1;
        r.push(s[i]);
        proof {
            assert(r@ =~= s@.subrange(i as int, s@.len() as int).reverse());
        }
    }
    assert(s@.subrange(0, s@.len() as int) =~= s@);
    r
}

/// A copy of a byte slice.
pub fn copy_bytes(s: &[u8]) -> (r: Vec<u8>)
    ensures
        r@ == s@,
{
    let mut r: Vec<u8> = Vec::new();
    let mut i: usize = 0;
    while i < s.len()
        invariant
            i <= s@.len(),
            r@ =~= s@.subrange(0, i as int),
        decreases s@.len() - i,
    {
        r.push(s[i]);
        i = i + 1;
    }
    assert(r@ =~= s@);
    r
}

/// The value of `n` as exactly `len` big-endian bytes.
pub fn to_fixed_bytes(n: &[u8], len: usize) -> (r: Vec<u8>)
    requires
        be_val(n@) < power(256, len as nat),
    ensures
        r@.len() == len,
        be_val(r@) == be_val(n@),
{
    let mut r: Vec<u8> = Vec::new();
    if n.len() >= len {
        let skip = n.len() - len;
        let mut i: usize = skip;
        while i < n.len()
            invariant
                skip <= i <= n@.len(),
                skip == n@.len() - len,
                r@ =~= n@.subrange(skip as int, i as int),
            decreases n@.len() - i,
        {
            r.push(n[i]);
            i = i + 1;
        }
        proof {
            let p = n@.subrange(0, skip as int);
            assert(n@ =~= p + r@);
            lemma_be_val_append(p, r@);
            lemma_be_val_bound(r@);
            assert(r@.len() == len);
            if be_val(p) > 0 {
                assert(be_val(p) * power(256, len as nat) >= power(256, len as nat))
                    by (nonlinear_arith)
                    requires
                        be_val(p) >= 1,
                ;
            }
            assert(be_val(p) == 0);
            assert(be_val(p) * power(256, len as nat) == 0) by (nonlinear_arith)
                requires
                    be_val(p) == 0,
            ;
            assert(be_val(n@) == be_val(r@));
        }
    } else {
        let pad = len - n.len();
        let mut i: usize = 0;
        while i < pad
            invariant
                i <= pad,
                r@ =~= zeros(i as nat),
            decreases pad - i,
        {
            r.push(0u8);
            i = i + 1;
        }
        let ghost pre = r@;
        let mut j: usize = 0;
        while j < n.len()
            invariant
                j <= n@.len(),
                pre =~= zeros(pad as nat),
                r@ =~= pre + n@.subrange(0, j as int),
            decreases n@.len() - j,
        {
            r.push(n[j]);
            j = j + 1;
        }
        proof {
            assert(n@.subrange(0, n@.len() as int) =~= n@);
            lemma_be_val_pad(pad as nat, n@);
        }
    }
    r
}

} // verus!
