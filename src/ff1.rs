//! FF1: a ten-round Feistel network whose round function is a CBC-MAC over
//! a block that encodes the tweak, the round and one half of the text.
use vstd::prelude::*;
use crate::aes::{aes_block, xor_block};
use crate::alphabet::{distinct, str_chars};
use crate::bignum::{
    append_bytes, append_zeros, be_u32, be_val, big_add, big_pow, big_rem, big_sub, copy_bytes,
    lemma_be_unique, lemma_power_256_cubed, lemma_power_base_monotone,
    lemma_power_monotone, lemma_power_positive, nat_to_be, power, significant_bytes,
    to_fixed_bytes, u32_bytes, zeros,
};
use crate::codec::{lemma_low_digits_len, low_digits};
use crate::ffx::{
    all_in, bignum_to_chars, cbc_mac, chars_to_bignum, int_to_chars, lemma_chars_round_trip,
    lemma_str_round_trip, str_val, CipherType, FFX,
};
use crate::error::{ErrorKind, Result};

verus! {

/// What the FF1 round function depends on besides the round and the half
/// it reads.
pub struct Ff1Params {
    pub key: Seq<u8>,
    pub prefix: Seq<u8>,
    pub tweak: Seq<u8>,
    pub b: nat,
    pub d: nat,
}

/// The number of bytes that a half of `v` digits takes: the least `b` with
/// `256^b >= radix^v`.
pub open spec fn ff1_b(radix: nat, v: nat) -> nat {
    low_digits((power(radix, v) - 1) as nat, 256).len()
}

/// The number of bytes of round-function output that are used.
pub open spec fn ff1_d(b: nat) -> nat {
    4 * ((b + 3) / 4) + 4
}

/// The fixed first block `P`.
pub open spec fn ff1_prefix(radix: nat, u: nat, n: nat, t: nat) -> Seq<u8> {
    seq![1u8, 2u8, 1u8] + u32_bytes(radix as u32).subrange(1, 4) + seq![10u8, (u % 256) as u8]
        + u32_bytes(n as u32) + u32_bytes(t as u32)
}

/// The per-round block `Q`: the tweak, zeros, the round, and the half in
/// `b` bytes, in a whole number of blocks.
pub open spec fn ff1_q(tweak: Seq<u8>, b: nat, round: u8, bval: nat) -> Seq<u8> {
    let qlen = ((tweak.len() + b + 16) / 16 * 16) as nat;
    tweak + zeros((qlen - tweak.len() - 1 - b) as nat) + seq![round] + nat_to_be(bval, b)
}

/// `R` extended to `k` blocks: block `j` is AES of `R` with `j` xored into
/// its last four bytes.
pub open spec fn ff1_expand(key: Seq<u8>, s0: Seq<u8>, k: nat) -> Seq<u8>
    decreases k,
{
    if k <= 1 {
        s0
    } else {
        ff1_expand(key, s0, (k - 1) as nat) + aes_block(
            key,
            xor_block(s0, zeros(12) + u32_bytes((k - 1) as u32)),
        )
    }
}

/// The number the round function yields.
pub open spec fn ff1_y(p: Ff1Params, round: u8, bval: nat) -> nat {
    let s0 = cbc_mac(p.key, p.prefix + ff1_q(p.tweak, p.b, round, bval));
    be_val(ff1_expand(p.key, s0, (p.d + 15) / 16).take(p.d as int))
}

/// One round on the state `(A, B, m, m')`: `B` moves over, the new half
/// is `A ± y` modulo `m`, and the moduli change places.
pub open spec fn ff1_step(p: Ff1Params, enc: bool, s: (nat, nat, nat, nat), i: nat) -> (
    nat,
    nat,
    nat,
    nat,
) {
    let round = if enc {
        (i - 1) as u8
    } else {
        (10 - i) as u8
    };
    let y = ff1_y(p, round, s.1);
    let c = if enc {
        (s.0 + y) as int % (s.2 as int)
    } else {
        (s.0 - y) % (s.2 as int)
    };
    (s.1, c as nat, s.3, s.2)
}

/// The state after `k` rounds.
pub open spec fn ff1_iter(p: Ff1Params, enc: bool, s: (nat, nat, nat, nat), k: nat) -> (
    nat,
    nat,
    nat,
    nat,
)
    decreases k,
{
    if k == 0 {
        s
    } else {
        ff1_step(p, enc, ff1_iter(p, enc, s, (k - 1) as nat), k)
    }
}

/// The parameters of the round function for a text of length `n`.
pub open spec fn ff1_params(key: Seq<u8>, radix: nat, tweak: Seq<u8>, n: nat) -> Ff1Params {
    let u = n / 2;
    let v = (n - u) as nat;
    let b = ff1_b(radix, v);
    Ff1Params {
        key,
        prefix: ff1_prefix(radix, u, n, tweak.len()),
        tweak,
        b,
        d: ff1_d(b),
    }
}

/// FF1 of `x` under `key` and `tweak`, forwards (`enc`) or backwards.
pub open spec fn ff1_cipher(
    key: Seq<u8>,
    alpha: Seq<char>,
    tweak: Seq<u8>,
    x: Seq<char>,
    enc: bool,
) -> Seq<char> {
    let r = alpha.len();
    let n = x.len();
    let u = n / 2;
    let v = (n - u) as nat;
    let p = ff1_params(key, r, tweak, n);
    let a0 = str_val(x.subrange(0, u as int), alpha);
    let b0 = str_val(x.subrange(u as int, n as int), alpha);
    let mu = power(r, u);
    let mv = power(r, v);
    if enc {
        let s = ff1_iter(p, true, (a0, b0, mu, mv), 10);
        int_to_chars(s.0, alpha, u) + int_to_chars(s.1, alpha, v)
    } else {
        let s = ff1_iter(p, false, (b0, a0, mv, mu), 10);
        int_to_chars(s.1, alpha, u) + int_to_chars(s.0, alpha, v)
    }
}

/// The error that a call reports, in the order the checks are made.
pub open spec fn text_error(f: FFX, x: Seq<char>, tweak: Seq<u8>) -> Option<ErrorKind> {
    if !(f.txt_min() <= x.len() <= f.txt_max()) {
        Some(ErrorKind::InvalidTextLength)
    } else if !crate::ffx::tweak_len_ok(tweak.len(), f.twk_min(), f.twk_max()) {
        Some(ErrorKind::InvalidTweakLength)
    } else if !all_in(x, f.alphabet()) {
        Some(ErrorKind::InvalidCharacter)
    } else {
        None
    }
}

/// The tweak a call uses.
pub open spec fn tweak_for(f: FFX, opt_twk: Option<&[u8]>) -> Seq<u8> {
    match opt_twk {
        Some(t) => t@,
        None => f.tweak(),
    }
}

/// The buffers of a call, whose size grows with the tweak and twice the
/// text, fit in memory.
pub open spec fn fits(t: nat, n: nat) -> bool {
    t + 2 * n + 64 <= usize::MAX
}

/// The largest text length: `2^32`, or less where `usize` is narrower.
pub open spec fn ff1_max_text() -> nat {
    if usize::MAX == u32::MAX {
        usize::MAX as nat
    } else {
        0x1_0000_0000
    }
}

proof fn lemma_sub_mod(a: int, y: int, m: int)
    requires
        m > 0,
    ensures
        (a + m - y % m) % m == (a - y) % m,
{
    vstd::arithmetic::div_mod::lemma_fundamental_div_mod(y, m);
    vstd::arithmetic::div_mod::lemma_mod_multiples_vanish(y / m + 1, a - y, m);
    assert(m * (y / m + 1) + (a - y) == a + m - y % m) by (nonlinear_arith)
        requires
            y == m * (y / m) + y % m,
    ;
}

/// Builds `P`.
fn prefix_bytes(radix: usize, u: usize, n: usize, t: usize) -> (r: Vec<u8>)
    ensures
        r@ == ff1_prefix(radix as nat, u as nat, n as nat, t as nat),
{
    let rb = be_u32(radix as u32);
    let nb = be_u32(n as u32);
    let tb = be_u32(t as u32);
    let mut p: Vec<u8> = Vec::new();
    p.push(1u8);
    p.push(2u8);
    p.push(1u8);
    p.push(rb[1]);
    p.push(rb[2]);
    p.push(rb[3]);
    p.push(10u8);
    p.push((u % 256) as u8);
    append_bytes(&mut p, &nb);
    append_bytes(&mut p, &tb);
    assert(p@ =~= ff1_prefix(radix as nat, u as nat, n as nat, t as nat));
    p
}

/// Builds `P || Q` for a round.
fn round_input(prefix: &[u8], tweak: &[u8], b: usize, round: u8, nb: &[u8]) -> (r: Vec<u8>)
    requires
        tweak@.len() + b + 32 <= usize::MAX,
        be_val(nb@) < power(256, b as nat),
    ensures
        r@ == prefix@ + ff1_q(tweak@, b as nat, round, be_val(nb@)),
        r@.len() == prefix@.len() + (tweak@.len() + b + 16) / 16 * 16,
{
    let t = tweak.len();
    let qlen = (t + b + 16) / 16 * 16;
    let bb = to_fixed_bytes(nb, b);
    let mut buf = copy_bytes(prefix);
    append_bytes(&mut buf, tweak);
    append_zeros(&mut buf, qlen - t - 1 - b);
    buf.push(round);
    append_bytes(&mut buf, bb.as_slice());
    proof {
        lemma_be_unique(bb@);
        assert(buf@ =~= prefix@ + ff1_q(tweak@, b as nat, round, be_val(nb@)));
    }
    buf
}

/// The FF1 engine.
pub struct FF1 {
    ffx: FFX,
}

impl FF1 {
    /// `R` extended to cover `d` bytes, cut to `d` bytes.
    fn expand(&self, s0: &[u8], d: usize) -> (r: Vec<u8>)
        requires
            self.ffx.wf(),
            s0@.len() == 16,
            d + 16 <= usize::MAX,
        ensures
            r@ == ff1_expand(self.ffx.key(), s0@, ((d + 15) / 16) as nat).take(d as int),
    {
        let k = (d + 15) / 16;
        let mut r = copy_bytes(s0);
        let mut j: usize = 1;
        while j < k
            invariant
                self.ffx.wf(),
                s0@.len() == 16,
                1 <= j,
                j <= k || k == 0,
                r@ == ff1_expand(self.ffx.key(), s0@, j as nat),
                r@.len() == 16 * j,
            decreases k - j,
        {
            let w = be_u32(j as u32);
            let mut blk: Vec<u8> = Vec::new();
            let mut i: usize = 0;
            while i < 16
                invariant
                    i <= 16,
                    s0@.len() == 16,
                    w@ == u32_bytes(j as u32),
                    blk@ =~= xor_block(s0@, zeros(12) + u32_bytes(j as u32)).take(i as int),
                decreases 16 - i,
            {
                let m: u8 = if i < 12 {
                    0u8
                } else {
                    w[i - 12]
                };
                blk.push(s0[i] ^ m);
                i = i + 1;
            }
            let mut out: Vec<u8> = Vec::new();
            append_zeros(&mut out, 16);
            let done = self.ffx.ciph(out.as_mut_slice(), blk.as_slice());
            assert(done is Ok);
            proof {
                assert(blk@ =~= xor_block(s0@, zeros(12) + u32_bytes(j as u32)));
                assert(blk@.subrange(0, 16) =~= blk@);
                assert(out@.subrange(0, 16) =~= out@);
                assert(((j + 1) - 1) as u32 == j as u32);
            }
            append_bytes(&mut r, out.as_slice());
            j = j + 1;
        }
        proof {
            if k == 0 {
                assert(d == 0);
            }
            assert(r@.len() >= d);
            if k <= 1 {
                assert(ff1_expand(self.ffx.key(), s0@, k as nat) == s0@);
            }
        }
        r.truncate(d);
        proof {
            assert(r@ =~= ff1_expand(self.ffx.key(), s0@, k as nat).take(d as int));
        }
        r
    }

    /// The number `y` of a round, as bytes.
    fn round_y(
        &self,
        prefix: &[u8],
        tweak: &[u8],
        b: usize,
        d: usize,
        round: u8,
        nb: &[u8],
    ) -> (r: Vec<u8>)
        requires
            self.ffx.wf(),
            prefix@.len() == 16,
            tweak@.len() + b + 32 <= usize::MAX,
            d + 16 <= usize::MAX,
            be_val(nb@) < power(256, b as nat),
        ensures
            be_val(r@) == ff1_y(
                (Ff1Params {
                    key: self.ffx.key(),
                    prefix: prefix@,
                    tweak: tweak@,
                    b: b as nat,
                    d: d as nat,
                }),
                round,
                be_val(nb@),
            ),
    {
        let buf = round_input(prefix, tweak, b, round, nb);
        let mut s0: Vec<u8> = Vec::new();
        append_zeros(&mut s0, 16);
        let done = self.ffx.prf(s0.as_mut_slice(), buf.as_slice());
        assert(done is Ok);
        proof {
            assert(buf@.len() == 16 + (tweak@.len() + b + 16) / 16 * 16);
            assert(s0@.subrange(0, 16) =~= s0@);
        }
        self.expand(s0.as_slice(), d)
    }
}

impl FF1 {
    /// The shared state.
    pub closed spec fn ctx(&self) -> FFX {
        self.ffx
    }

    pub closed spec fn wf(&self) -> bool {
        self.ffx.wf() && self.ffx.txt_max() == ff1_max_text()
    }

    pub fn new(
        key: &[u8],
        opt_twk: Option<&[u8]>,
        mintwk: usize,
        maxtwk: usize,
        radix: usize,
        opt_alpha: Option<&str>,
    ) -> (r: Result<Self>)
        ensures
            ({
                let err = crate::ffx::params_error(
                    key@,
                    match opt_twk {
                        Some(t) => Some(t@),
                        None => None,
                    },
                    ff1_max_text(),
                    mintwk as nat,
                    maxtwk as nat,
                    radix as nat,
                    crate::ffx::alphabet_source(opt_alpha),
                );
                &&& r is Ok <==> err is None
                &&& r matches Err(e) ==> err == Some(e.kind)
            }),
            r matches Ok(f) ==> {
                &&& f.wf()
                &&& f.ctx().key() == key@
                &&& f.ctx().alphabet() == crate::ffx::alphabet_source(opt_alpha).take(radix as int)
                &&& f.ctx().tweak() == match opt_twk {
                    Some(t) => t@,
                    None => Seq::empty(),
                }
                &&& f.ctx().twk_min() == mintwk
                &&& f.ctx().twk_max() == maxtwk
            },
    {
        let maxtxt: usize = if u32::MAX as usize == usize::MAX {
            usize::MAX
        } else {
            u32::MAX as usize + 1
        };
        match FFX::new(key, opt_twk, maxtxt, mintwk, maxtwk, radix, opt_alpha) {
            Ok(ffx) => Ok(FF1 { ffx }),
            Err(e) => Err(e),
        }
    }

    fn cipher_chars(&self, X: &[char], opt_twk: Option<&[u8]>, which: CipherType) -> (r: Result<
        Vec<char>,
    >)
        requires
            self.wf(),
            fits(tweak_for(self.ctx(), opt_twk).len(), X@.len()),
        ensures
            r is Ok <==> text_error(self.ctx(), X@, tweak_for(self.ctx(), opt_twk)) is None,
            r matches Err(e) ==> text_error(self.ctx(), X@, tweak_for(self.ctx(), opt_twk)) == Some(
                e.kind,
            ),
            r matches Ok(y) ==> y@ == ff1_cipher(
                self.ctx().key(),
                self.ctx().alphabet(),
                tweak_for(self.ctx(), opt_twk),
                X@,
                which is Encrypt,
            ),
    {
        let ffx = &self.ffx;
        proof {
            ffx.lemma_wf();
        }
        let alpha = ffx.get_alphabet();
        let radix = alpha.len();
        let n = X.len();
        let u = n / 2;
        let v = n - u;
        match ffx.validate_text_length(n) {
            Ok(()) => {},
            Err(e) => {
                return Err(e);
            },
        }
        let T = ffx.get_tweak(&opt_twk);
        match ffx.validate_tweak_length(T.len()) {
            Ok(()) => {},
            Err(e) => {
                return Err(e);
            },
        }
        let xa = chars_to_bignum(&X[0..u], alpha);
        let xb = chars_to_bignum(&X[u..n], alpha);
        proof {
            assert(all_in(X@, alpha@) <==> all_in(X@.subrange(0, u as int), alpha@) && all_in(
                X@.subrange(u as int, n as int),
                alpha@,
            )) by {
                if all_in(X@.subrange(0, u as int), alpha@) && all_in(
                    X@.subrange(u as int, n as int),
                    alpha@,
                ) {
                    assert forall|i: int| 0 <= i < X@.len() implies alpha@.contains(
                        #[trigger] X@[i],
                    ) by {
                        if i < u {
                            assert(X@.subrange(0, u as int)[i] == X@[i]);
                        } else {
                            assert(X@.subrange(u as int, n as int)[i - u] == X@[i]);
                        }
                    }
                }
                if all_in(X@, alpha@) {
                    assert forall|i: int| 0 <= i < u implies alpha@.contains(
                        #[trigger] X@.subrange(0, u as int)[i],
                    ) by {
                        assert(X@.subrange(0, u as int)[i] == X@[i]);
                    }
                    assert forall|i: int| 0 <= i < n - u implies alpha@.contains(
                        #[trigger] X@.subrange(u as int, n as int)[i],
                    ) by {
                        assert(X@.subrange(u as int, n as int)[i] == X@[u + i]);
                    }
                }
            }
        }
        let a0 = match xa {
            Ok(a) => a,
            Err(e) => {
                return Err(e);
            },
        };
        let b0 = match xb {
            Ok(b) => b,
            Err(e) => {
                return Err(e);
            },
        };
        let ghost r = radix as nat;
        let pu = big_pow(radix as u64, u as u32);
        let pv = big_pow(radix as u64, v as u32);
        // The byte length of a half: that of `radix^v - 1`.
        let mut one: Vec<u8> = Vec::new();
        one.push(1u8);
        proof {
            lemma_power_positive(r, v as nat);
            lemma_power_monotone(r, u as nat, v as nat);
            assert(be_val(one@) == 1) by {
                assert(one@.drop_last() =~= Seq::<u8>::empty());
                assert(be_val(one@.drop_last()) == 0);
                assert(one@.last() == 1u8);
            }
        }
        let pv1 = big_sub(pv.as_slice(), one.as_slice());
        let b = significant_bytes(pv1.as_slice());
        proof {
            lemma_power_base_monotone(r, 16777216, v as nat);
            lemma_power_256_cubed(v as nat);
            lemma_low_digits_len(be_val(pv1@), 256, (3 * v) as nat);
            lemma_low_digits_len(be_val(pv1@), 256, b as nat);
        }
        let d = 4 * ((b + 3) / 4) + 4;
        let prefix = prefix_bytes(radix, u, n, T.len());
        let ghost p = ff1_params(ffx.key(), r, T@, n as nat);
        assert(p == (Ff1Params {
            key: ffx.key(),
            prefix: prefix@,
            tweak: T@,
            b: b as nat,
            d: d as nat,
        }));
        let enc = match which {
            CipherType::Encrypt => true,
            CipherType::Decrypt => false,
        };
        let mut na: Vec<u8>;
        let mut nb: Vec<u8>;
        let mut mu: Vec<u8>;
        let mut mv: Vec<u8>;
        proof {
            crate::codec::lemma_digits_bound(
                crate::ffx::chars_to_digits(X@.subrange(0, u as int), alpha@),
                r,
            );
            crate::ffx::lemma_str_digits(X@.subrange(0, u as int), alpha@);
            crate::ffx::lemma_str_digits(X@.subrange(u as int, n as int), alpha@);
            crate::codec::lemma_digits_bound(
                crate::ffx::chars_to_digits(X@.subrange(u as int, n as int), alpha@),
                r,
            );
        }
        if enc {
            na = a0;
            nb = b0;
            mu = pu;
            mv = pv;
        } else {
            na = b0;
            nb = a0;
            mu = pv;
            mv = pu;
        }
        let ghost s0 = (be_val(na@), be_val(nb@), be_val(mu@), be_val(mv@));
        let ghost top = power(r, v as nat);
        let mut i: u8 = 1;
        while i <= 10
            invariant
                1 <= i <= 11,
                ffx.wf(),
                ffx == &self.ffx,
                prefix@.len() == 16,
                T@.len() + b + 32 <= usize::MAX,
                d + 16 <= usize::MAX,
                d == 4 * ((b + 3) / 4) + 4,
                p == (Ff1Params {
                    key: ffx.key(),
                    prefix: prefix@,
                    tweak: T@,
                    b: b as nat,
                    d: d as nat,
                }),
                (be_val(na@), be_val(nb@), be_val(mu@), be_val(mv@)) == ff1_iter(
                    p,
                    enc,
                    s0,
                    (i - 1) as nat,
                ),
                be_val(nb@) < top,
                be_val(na@) < top,
                0 < be_val(mu@) <= top,
                0 < be_val(mv@) <= top,
                top <= power(256, b as nat),
            decreases 11 - i,
        {
            assert(self.ffx.wf());
            let round: u8 = if enc {
                i - 1
            } else {
                10 - i
            };
            let y = self.round_y(prefix.as_slice(), T, b, d, round, nb.as_slice());
            let c = if enc {
                let t = big_add(na.as_slice(), y.as_slice());
                big_rem(t.as_slice(), mu.as_slice())
            } else {
                let ym = big_rem(y.as_slice(), mu.as_slice());
                let t = big_add(na.as_slice(), mu.as_slice());
                let t2 = big_sub(t.as_slice(), ym.as_slice());
                big_rem(t2.as_slice(), mu.as_slice())
            };
            proof {
                let m = be_val(mu@) as int;
                let a = be_val(na@) as int;
                let yy = be_val(y@) as int;
                if !enc {
                    lemma_sub_mod(a, yy, m);
                }
                assert(((i + 1) - 1) as nat == i as nat);
                assert(i as nat - 1 == (i - 1) as nat);
            }
            na = nb;
            nb = c;
            let tmp = mu;
            mu = mv;
            mv = tmp;
            i = i + 1;
        }
        if !enc {
            let tmp = na;
            na = nb;
            nb = tmp;
        }
        let ca = match bignum_to_chars(na.as_slice(), alpha, Some(u)) {
            Ok(c) => c,
            Err(e) => {
                return Err(e);
            },
        };
        let cb = match bignum_to_chars(nb.as_slice(), alpha, Some(v)) {
            Ok(c) => c,
            Err(e) => {
                return Err(e);
            },
        };
        let mut out = ca;
        let mut cb2 = cb;
        out.append(&mut cb2);
        Ok(out)
    }

    fn cipher_string(&self, inp: &str, opt_twk: Option<&[u8]>, which: CipherType) -> (r: Result<
        String,
    >)
        requires
            self.wf(),
            fits(tweak_for(self.ctx(), opt_twk).len(), inp@.len()),
        ensures
            r is Ok <==> text_error(self.ctx(), inp@, tweak_for(self.ctx(), opt_twk)) is None,
            r matches Err(e) ==> text_error(self.ctx(), inp@, tweak_for(self.ctx(), opt_twk))
                == Some(e.kind),
            r matches Ok(y) ==> y@ == ff1_cipher(
                self.ctx().key(),
                self.ctx().alphabet(),
                tweak_for(self.ctx(), opt_twk),
                inp@,
                which is Encrypt,
            ),
    {
        let X = str_chars(inp);
        match self.cipher_chars(X.as_slice(), opt_twk, which) {
            Ok(Y) => Ok(crate::alphabet::string_of(&Y)),
            Err(e) => Err(e),
        }
    }

    /// Encrypts `pt` under the given tweak, or the default one.
    pub fn encrypt(&self, pt: &str, opt_twk: Option<&[u8]>) -> (r: Result<String>)
        requires
            self.wf(),
            fits(tweak_for(self.ctx(), opt_twk).len(), pt@.len()),
        ensures
            r is Ok <==> text_error(self.ctx(), pt@, tweak_for(self.ctx(), opt_twk)) is None,
            r matches Err(e) ==> text_error(self.ctx(), pt@, tweak_for(self.ctx(), opt_twk))
                == Some(e.kind),
            r matches Ok(y) ==> y@ == ff1_cipher(
                self.ctx().key(),
                self.ctx().alphabet(),
                tweak_for(self.ctx(), opt_twk),
                pt@,
                true,
            ),
    {
        self.cipher_string(pt, opt_twk, CipherType::Encrypt)
    }

    /// Decrypts `ct` under the given tweak, or the default one.
    pub fn decrypt(&self, ct: &str, opt_twk: Option<&[u8]>) -> (r: Result<String>)
        requires
            self.wf(),
            fits(tweak_for(self.ctx(), opt_twk).len(), ct@.len()),
        ensures
            r is Ok <==> text_error(self.ctx(), ct@, tweak_for(self.ctx(), opt_twk)) is None,
            r matches Err(e) ==> text_error(self.ctx(), ct@, tweak_for(self.ctx(), opt_twk))
                == Some(e.kind),
            r matches Ok(y) ==> y@ == ff1_cipher(
                self.ctx().key(),
                self.ctx().alphabet(),
                tweak_for(self.ctx(), opt_twk),
                ct@,
                false,
            ),
    {
        self.cipher_string(ct, opt_twk, CipherType::Decrypt)
    }
}

} // verus!

verus! {

/// The two halves and the two moduli exchanged.
pub open spec fn swap_state(s: (nat, nat, nat, nat)) -> (nat, nat, nat, nat) {
    (s.1, s.0, s.3, s.2)
}

/// Each half stays below its modulus, and `k` rounds exchange the moduli
/// `k` times.
pub proof fn lemma_ff1_bounds(p: Ff1Params, enc: bool, s: (nat, nat, nat, nat), k: nat)
    requires
        s.0 < s.2,
        s.1 < s.3,
    ensures
        ({
            let e = ff1_iter(p, enc, s, k);
            &&& e.0 < e.2
            &&& e.1 < e.3
            &&& k % 2 == 0 ==> e.2 == s.2 && e.3 == s.3
            &&& k % 2 == 1 ==> e.2 == s.3 && e.3 == s.2
        }),
    decreases k,
{
    if k > 0 {
        lemma_ff1_bounds(p, enc, s, (k - 1) as nat);
        let e = ff1_iter(p, enc, s, (k - 1) as nat);
        let y = ff1_y(
            p,
            if enc {
                (k - 1) as u8
            } else {
                (10 - k) as u8
            },
            e.1,
        );
        let m = e.2 as int;
        if enc {
            assert(0 <= (e.0 + y) as int % m < m);
        } else {
            assert(0 <= (e.0 - y) % m < m);
        }
    }
}

/// `((a + y) mod m - y) mod m == a` for `a` below `m`.
pub proof fn lemma_add_sub_mod(a: int, y: int, m: int)
    requires
        0 <= a < m,
    ensures
        ((a + y) % m - y) % m == a,
{
    vstd::arithmetic::div_mod::lemma_fundamental_div_mod(a + y, m);
    vstd::arithmetic::div_mod::lemma_mod_multiples_vanish(-((a + y) / m), a, m);
    assert((a + y) % m - y == m * (-((a + y) / m)) + a) by (nonlinear_arith)
        requires
            a + y == m * ((a + y) / m) + (a + y) % m,
    ;
    vstd::arithmetic::div_mod::lemma_small_mod(a as nat, m as nat);
}

/// Running the rounds backwards from the exchanged final state retraces
/// the forward states.
proof fn lemma_ff1_inverse(p: Ff1Params, s: (nat, nat, nat, nat), k: nat)
    requires
        k <= 10,
        s.0 < s.2,
        s.1 < s.3,
    ensures
        ff1_iter(p, false, swap_state(ff1_iter(p, true, s, 10)), k) == swap_state(
            ff1_iter(p, true, s, (10 - k) as nat),
        ),
    decreases k,
{
    if k > 0 {
        lemma_ff1_inverse(p, s, (k - 1) as nat);
        let j = (10 - k) as nat;
        lemma_ff1_bounds(p, true, s, j);
        let e = ff1_iter(p, true, s, j);
        let y = ff1_y(p, j as u8, e.1);
        assert((j + 1 - 1) as u8 == j as u8);
        assert((10 - k) as u8 == j as u8);
        assert((10 - (k - 1)) as nat == j + 1);
        lemma_add_sub_mod(e.0 as int, y as int, e.2 as int);
    }
}

/// The halves of a text and their values, as FF1 reads them.
proof fn lemma_ff1_input(alpha: Seq<char>, x: Seq<char>)
    requires
        distinct(alpha),
        alpha.len() >= 2,
        all_in(x, alpha),
    ensures
        ({
            let n = x.len();
            let u = n / 2;
            let v = (n - u) as nat;
            let r = alpha.len();
            &&& str_val(x.subrange(0, u as int), alpha) < power(r, u)
            &&& str_val(x.subrange(u as int, n as int), alpha) < power(r, v)
            &&& int_to_chars(str_val(x.subrange(0, u as int), alpha), alpha, u) == x.subrange(
                0,
                u as int,
            )
            &&& int_to_chars(str_val(x.subrange(u as int, n as int), alpha), alpha, v)
                == x.subrange(u as int, n as int)
        }),
{
    let n = x.len();
    let u = n / 2;
    let xa = x.subrange(0, u as int);
    let xb = x.subrange(u as int, n as int);
    assert forall|i: int| 0 <= i < xa.len() implies alpha.contains(#[trigger] xa[i]) by {
        assert(xa[i] == x[i]);
    }
    assert forall|i: int| 0 <= i < xb.len() implies alpha.contains(#[trigger] xb[i]) by {
        assert(xb[i] == x[u + i]);
    }
    lemma_str_round_trip(xa, alpha);
    lemma_str_round_trip(xb, alpha);
}

/// A string made of two strings over the alphabet is over the alphabet.
pub proof fn lemma_all_in_concat(a: Seq<char>, b: Seq<char>, alpha: Seq<char>)
    requires
        all_in(a, alpha),
        all_in(b, alpha),
    ensures
        all_in(a + b, alpha),
{
    assert forall|i: int| 0 <= i < (a + b).len() implies alpha.contains(#[trigger] (a + b)[i]) by {
        if i < a.len() {
            assert((a + b)[i] == a[i]);
        } else {
            assert((a + b)[i] == b[i - a.len()]);
        }
    }
}

/// FF1 in either direction keeps the length of the text and writes only
/// characters of the alphabet.
pub proof fn lemma_ff1_format(
    key: Seq<u8>,
    alpha: Seq<char>,
    tweak: Seq<u8>,
    x: Seq<char>,
    enc: bool,
)
    requires
        distinct(alpha),
        alpha.len() >= 2,
        all_in(x, alpha),
    ensures
        ff1_cipher(key, alpha, tweak, x, enc).len() == x.len(),
        all_in(ff1_cipher(key, alpha, tweak, x, enc), alpha),
{
    let r = alpha.len();
    let n = x.len();
    let u = n / 2;
    let v = (n - u) as nat;
    let p = ff1_params(key, r, tweak, n);
    let a0 = str_val(x.subrange(0, u as int), alpha);
    let b0 = str_val(x.subrange(u as int, n as int), alpha);
    lemma_ff1_input(alpha, x);
    lemma_power_monotone(r, u, v);
    let (oa, ob) = if enc {
        lemma_ff1_bounds(p, true, (a0, b0, power(r, u), power(r, v)), 10);
        let s = ff1_iter(p, true, (a0, b0, power(r, u), power(r, v)), 10);
        (s.0, s.1)
    } else {
        lemma_ff1_bounds(p, false, (b0, a0, power(r, v), power(r, u)), 10);
        let s = ff1_iter(p, false, (b0, a0, power(r, v), power(r, u)), 10);
        (s.1, s.0)
    };
    lemma_chars_round_trip(oa, alpha, u);
    lemma_chars_round_trip(ob, alpha, v);
    lemma_all_in_concat(int_to_chars(oa, alpha, u), int_to_chars(ob, alpha, v), alpha);
}

/// Decrypting an FF1 ciphertext under the same key, alphabet and tweak
/// gives the plaintext back. Encryption keeps the length and the
/// alphabet, so an engine that accepts a plaintext accepts its
/// ciphertext too.
pub proof fn lemma_ff1_round_trip(f: FF1, tweak: Seq<u8>, x: Seq<char>)
    requires
        f.wf(),
        text_error(f.ctx(), x, tweak) is None,
    ensures
        ({
            let y = ff1_cipher(f.ctx().key(), f.ctx().alphabet(), tweak, x, true);
            &&& y.len() == x.len()
            &&& all_in(y, f.ctx().alphabet())
            &&& text_error(f.ctx(), y, tweak) is None
            &&& ff1_cipher(f.ctx().key(), f.ctx().alphabet(), tweak, y, false) == x
        }),
{
    f.ctx().lemma_wf();
    let key = f.ctx().key();
    let alpha = f.ctx().alphabet();
    let r = alpha.len();
    let n = x.len();
    let u = n / 2;
    let v = (n - u) as nat;
    let p = ff1_params(key, r, tweak, n);
    let a0 = str_val(x.subrange(0, u as int), alpha);
    let b0 = str_val(x.subrange(u as int, n as int), alpha);
    let s = (a0, b0, power(r, u), power(r, v));
    lemma_ff1_input(alpha, x);
    lemma_ff1_format(key, alpha, tweak, x, true);
    lemma_ff1_bounds(p, true, s, 10);
    let e = ff1_iter(p, true, s, 10);
    let ya = int_to_chars(e.0, alpha, u);
    let yb = int_to_chars(e.1, alpha, v);
    let y = ya + yb;
    lemma_chars_round_trip(e.0, alpha, u);
    lemma_chars_round_trip(e.1, alpha, v);
    assert(y.subrange(0, u as int) =~= ya);
    assert(y.subrange(u as int, n as int) =~= yb);
    lemma_ff1_inverse(p, s, 10);
    assert(swap_state(e) == (e.1, e.0, power(r, v), power(r, u)));
    assert(x.subrange(0, u as int) + x.subrange(u as int, n as int) =~= x);
}

} // verus!

verus! {

/// FF1's output depends on the key, the alphabet (and so the radix), the
/// tweak and the text alone: engines that share key and alphabet agree on
/// every input.
pub proof fn lemma_ff1_deterministic(f1: FF1, f2: FF1, tweak: Seq<u8>, x: Seq<char>, enc: bool)
    requires
        f1.ctx().key() == f2.ctx().key(),
        f1.ctx().alphabet() == f2.ctx().alphabet(),
    ensures
        ff1_cipher(f1.ctx().key(), f1.ctx().alphabet(), tweak, x, enc) == ff1_cipher(
            f2.ctx().key(),
            f2.ctx().alphabet(),
            tweak,
            x,
            enc,
        ),
{
}

} // verus!
