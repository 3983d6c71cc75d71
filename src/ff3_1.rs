//! FF3-1: an eight-round Feistel network over the reversed digit string,
//! whose round function is one AES block under the reversed key.
use vstd::prelude::*;
use crate::aes::aes_block;
use crate::alphabet::{distinct, reverse_chars, str_chars, string_of};
use crate::bignum::{
    append_bytes, append_zeros, be_val, big_add, big_le, big_mul_u64, big_pow, big_rem, big_sub,
    lemma_be_unique, lemma_be_val_append, lemma_power_base_monotone, lemma_be_val_zeros, lemma_power_monotone,
    lemma_power_positive, lemma_power_step, nat_to_be, power, reverse_bytes, to_fixed_bytes,
    zeros,
};
use crate::ffx::{
    all_in, alphabet_source, bignum_to_chars, chars_to_bignum, int_to_chars,
    lemma_chars_round_trip, lemma_str_round_trip, params_error, str_val, CipherType, FFX,
};
use crate::ff1::{lemma_add_sub_mod, lemma_all_in_concat, swap_state, text_error, tweak_for};
use crate::error::Result;

verus! {

/// `m` is the longest text for this radix: `radix^m <= 2^192 < radix^(m+1)`.
pub open spec fn is_ff3_max_text(radix: nat, m: nat) -> bool {
    power(radix, m) <= power(2, 192) < power(radix, m + 1)
}

/// The halves of the 56-bit tweak: `which == 0` gives the left one.
pub open spec fn ff3_tweak_half(t: Seq<u8>, which: nat) -> Seq<u8> {
    if which == 0 {
        seq![t[0], t[1], t[2], t[3] & 0xf0u8]
    } else {
        seq![t[4], t[5], t[6], ((t[3] & 0x0fu8) << 4u8) as u8]
    }
}

/// The round block before byte reversal: the tweak half with the round
/// xored into its last byte, then the half modulo `2^96` in 12 bytes.
pub open spec fn ff3_block(w: Seq<u8>, round: u8, bval: nat) -> Seq<u8> {
    seq![w[0], w[1], w[2], w[3] ^ round] + nat_to_be(bval % power(256, 12), 12)
}

/// The number the round function yields.
pub open spec fn ff3_y(key: Seq<u8>, w: Seq<u8>, round: u8, bval: nat) -> nat {
    be_val(aes_block(key, ff3_block(w, round, bval).reverse()).reverse())
}

/// One round on the state `(A, B, m, m')`, with the tweak halves `tw`.
pub open spec fn ff3_step(
    key: Seq<u8>,
    tw: (Seq<u8>, Seq<u8>),
    enc: bool,
    s: (nat, nat, nat, nat),
    i: nat,
) -> (nat, nat, nat, nat) {
    let round = if enc {
        (i - 1) as u8
    } else {
        (8 - i) as u8
    };
    let w = if i % 2 == 0 {
        tw.0
    } else {
        tw.1
    };
    let y = ff3_y(key, w, round, s.1);
    let c = if enc {
        (s.0 + y) as int % (s.2 as int)
    } else {
        (s.0 - y) % (s.2 as int)
    };
    (s.1, c as nat, s.3, s.2)
}

/// The state after `k` rounds.
pub open spec fn ff3_iter(
    key: Seq<u8>,
    tw: (Seq<u8>, Seq<u8>),
    enc: bool,
    s: (nat, nat, nat, nat),
    k: nat,
) -> (nat, nat, nat, nat)
    decreases k,
{
    if k == 0 {
        s
    } else {
        ff3_step(key, tw, enc, ff3_iter(key, tw, enc, s, (k - 1) as nat), k)
    }
}

/// FF3-1 of `x` under the (already reversed) AES key and a 7-byte tweak.
pub open spec fn ff3_cipher(
    key: Seq<u8>,
    alpha: Seq<char>,
    tweak: Seq<u8>,
    x: Seq<char>,
    enc: bool,
) -> Seq<char> {
    let r = alpha.len();
    let n = x.len();
    let v = n / 2;
    let u = (n - v) as nat;
    let a0 = str_val(x.subrange(0, u as int).reverse(), alpha);
    let b0 = str_val(x.subrange(u as int, n as int).reverse(), alpha);
    let t0 = ff3_tweak_half(tweak, 0);
    let t1 = ff3_tweak_half(tweak, 1);
    let (oa, ob) = if enc {
        let s = ff3_iter(key, (t0, t1), true, (a0, b0, power(r, u), power(r, v)), 8);
        (s.0, s.1)
    } else {
        let s = ff3_iter(key, (t1, t0), false, (b0, a0, power(r, v), power(r, u)), 8);
        (s.1, s.0)
    };
    int_to_chars(oa, alpha, u).reverse() + int_to_chars(ob, alpha, v).reverse()
}

/// The longest text for `radix`.
fn max_text_len(radix: usize) -> (m: usize)
    requires
        radix >= 2,
    ensures
        is_ff3_max_text(radix as nat, m as nat),
{
    let top = big_pow(2, 192);
    let mut p: Vec<u8> = Vec::new();
    p.push(1u8);
    let mut m: usize = 0;
    proof {
        assert(p@.drop_last() =~= Seq::<u8>::empty());
        assert(be_val(p@.drop_last()) == 0);
        lemma_power_step(radix as nat, 0);
        lemma_power_positive(2, 192);
    }
    loop
        invariant
            radix >= 2,
            be_val(top@) == power(2, 192),
            be_val(p@) == power(radix as nat, m as nat),
            power(radix as nat, m as nat) <= power(2, 192),
            power(2, m as nat) <= power(radix as nat, m as nat),
            m <= 192,
        decreases 192 - m,
    {
        let q = big_mul_u64(p.as_slice(), radix as u64);
        proof {
            lemma_power_step(radix as nat, m as nat);
            lemma_power_step(2, m as nat);
            assert(2 * power(2, m as nat) <= (radix as nat) * power(radix as nat, m as nat))
                by (nonlinear_arith)
                requires
                    power(2, m as nat) <= power(radix as nat, m as nat),
                    radix >= 2,
            ;
            assert(be_val(p@) * (radix as u64 as nat) == (radix as nat) * power(
                radix as nat,
                m as nat,
            )) by (nonlinear_arith)
                requires
                    be_val(p@) == power(radix as nat, m as nat),
                    radix as u64 as nat == radix as nat,
            ;
            assert(be_val(q@) == power(radix as nat, m as nat + 1));
        }
        if !big_le(q.as_slice(), top.as_slice()) {
            return m;
        }
        proof {
            if m + 1 > 192 {
                lemma_power_step(2, 192);
                lemma_power_monotone(2, 193, (m + 1) as nat);
                lemma_power_positive(2, 192);
            }
        }
        p = q;
        m = m + 1;
    }
}

/// The FF3-1 engine.
pub struct FF3_1 {
    ffx: FFX,
}

impl FF3_1 {
    /// The shared state; it holds the reversed key.
    pub closed spec fn ctx(&self) -> FFX {
        self.ffx
    }

    pub closed spec fn wf(&self) -> bool {
        &&& self.ffx.wf()
        &&& self.ffx.twk_min() == 7
        &&& self.ffx.twk_max() == 7
        &&& is_ff3_max_text(self.ffx.radix(), self.ffx.txt_max())
    }

    pub fn new(key: &[u8], opt_twk: Option<&[u8]>, radix: usize, opt_alpha: Option<&str>) -> (r:
        Result<Self>)
        ensures
            ({
                let err = params_error(
                    key@.reverse(),
                    match opt_twk {
                        Some(t) => Some(t@),
                        None => None,
                    },
                    if radix < 2 {
                        0
                    } else {
                        choose|m: nat| is_ff3_max_text(radix as nat, m)
                    },
                    7,
                    7,
                    radix as nat,
                    alphabet_source(opt_alpha),
                );
                &&& r is Ok <==> err is None
                &&& r matches Err(e) ==> err == Some(e.kind)
            }),
            r matches Ok(f) ==> {
                &&& f.wf()
                &&& f.ctx().key() == key@.reverse()
                &&& f.ctx().alphabet() == alphabet_source(opt_alpha).take(radix as int)
                &&& f.ctx().tweak() == match opt_twk {
                    Some(t) => t@,
                    None => Seq::empty(),
                }
            },
    {
        let k = reverse_bytes(key);
        let maxtxt: usize = if radix < 2 {
            0
        } else {
            max_text_len(radix)
        };
        proof {
            if radix >= 2 {
                lemma_max_text_unique(radix as nat, maxtxt as nat);
            }
        }
        match FFX::new(k.as_slice(), opt_twk, maxtxt, 7, 7, radix, opt_alpha) {
            Ok(ffx) => Ok(FF3_1 { ffx }),
            Err(e) => Err(e),
        }
    }
}

/// A text is over the alphabet exactly when both reversed halves are.
proof fn lemma_all_in_halves(x: Seq<char>, alpha: Seq<char>, u: int)
    requires
        0 <= u <= x.len(),
    ensures
        all_in(x, alpha) <==> all_in(x.subrange(0, u).reverse(), alpha) && all_in(
            x.subrange(u, x.len() as int).reverse(),
            alpha,
        ),
{
    let a = x.subrange(0, u).reverse();
    let b = x.subrange(u, x.len() as int).reverse();
    if all_in(a, alpha) && all_in(b, alpha) {
        assert forall|i: int| 0 <= i < x.len() implies alpha.contains(#[trigger] x[i]) by {
            if i < u {
                assert(a[u - 1 - i] == x[i]);
            } else {
                assert(b[x.len() - 1 - i] == x[i]);
            }
        }
    }
    if all_in(x, alpha) {
        assert forall|i: int| 0 <= i < a.len() implies alpha.contains(#[trigger] a[i]) by {
            assert(a[i] == x[u - 1 - i]);
        }
        assert forall|i: int| 0 <= i < b.len() implies alpha.contains(#[trigger] b[i]) by {
            assert(b[i] == x[x.len() - 1 - i]);
        }
    }
}

proof fn lemma_sub_mod(a: int, y: int, m: int)
    requires
        m > 0,
    ensures
        (a + m - y % m) % m == (a - y) % m,
{
    vstd::arithmetic::div_mod::lemma_fundamental_div_mod(y, m);
    vstd::arithmetic::div_mod::lemma_mod_multiples_vanish(y / m + 1, a - y, m);
    assert(m * (y / m + 1) + (a - y) == a + m - y % m) by (nonlinear_arith)
        requires
            y == m * (y / m) + y % m,
    ;
}

impl FF3_1 {
    /// The number `y` of a round, as bytes.
    fn round_y(&self, w: &[u8], round: u8, nb: &[u8], two96: &[u8]) -> (r: Vec<u8>)
        requires
            self.ffx.wf(),
            w@.len() == 4,
            be_val(two96@) == power(256, 12),
        ensures
            be_val(r@) == ff3_y(self.ffx.key(), w@, round, be_val(nb@)),
    {
        proof {
            lemma_power_positive(256, 12);
        }
        let bm = big_rem(nb, two96);
        let bb = to_fixed_bytes(bm.as_slice(), 12);
        let mut p: Vec<u8> = Vec::new();
        p.push(w[0]);
        p.push(w[1]);
        p.push(w[2]);
        p.push(w[3] ^ round);
        append_bytes(&mut p, bb.as_slice());
        proof {
            lemma_be_unique(bb@);
            assert(p@ =~= ff3_block(w@, round, be_val(nb@)));
        }
        let rp = reverse_bytes(p.as_slice());
        let mut c: Vec<u8> = Vec::new();
        append_zeros(&mut c, 16);
        let done = self.ffx.ciph(c.as_mut_slice(), rp.as_slice());
        assert(done is Ok);
        proof {
            assert(rp@.subrange(0, 16) =~= rp@);
            assert(c@.subrange(0, 16) =~= c@);
        }
        reverse_bytes(c.as_slice())
    }

    fn cipher_chars(&self, X: &[char], opt_twk: Option<&[u8]>, which: CipherType) -> (r: Result<
        Vec<char>,
    >)
        requires
            self.wf(),
        ensures
            r is Ok <==> text_error(self.ctx(), X@, tweak_for(self.ctx(), opt_twk)) is None,
            r matches Err(e) ==> text_error(self.ctx(), X@, tweak_for(self.ctx(), opt_twk)) == Some(
                e.kind,
            ),
            r matches Ok(y) ==> y@ == ff3_cipher(
                self.ctx().key(),
                self.ctx().alphabet(),
                tweak_for(self.ctx(), opt_twk),
                X@,
                which is Encrypt,
            ),
    {
        let ffx = &self.ffx;
        proof {
            ffx.lemma_wf();
        }
        let alpha = ffx.get_alphabet();
        let radix = alpha.len();
        let n = X.len();
        match ffx.validate_text_length(n) {
            Ok(()) => {},
            Err(e) => {
                return Err(e);
            },
        }
        let v = n / 2;
        let u = n - v;
        let T = ffx.get_tweak(&opt_twk);
        match ffx.validate_tweak_length(T.len()) {
            Ok(()) => {},
            Err(e) => {
                return Err(e);
            },
        }
        let mut tw0: Vec<u8> = Vec::new();
        tw0.push(T[0]);
        tw0.push(T[1]);
        tw0.push(T[2]);
        tw0.push(T[3] & 0xf0u8);
        let mut tw1: Vec<u8> = Vec::new();
        tw1.push(T[4]);
        tw1.push(T[5]);
        tw1.push(T[6]);
        tw1.push((T[3] & 0x0fu8) << 4u8);
        assert(tw0@ =~= ff3_tweak_half(T@, 0));
        assert(tw1@ =~= ff3_tweak_half(T@, 1));
        let A = reverse_chars(&X[0..u]);
        let B = reverse_chars(&X[u..n]);
        let xa = chars_to_bignum(A.as_slice(), alpha);
        let xb = chars_to_bignum(B.as_slice(), alpha);
        proof {
            lemma_all_in_halves(X@, alpha@, u as int);
        }
        let a0 = match xa {
            Ok(a) => a,
            Err(e) => {
                return Err(e);
            },
        };
        let b0 = match xb {
            Ok(b) => b,
            Err(e) => {
                return Err(e);
            },
        };
        proof {
            let m = ffx.txt_max();
            lemma_power_base_monotone(2, radix as nat, m);
            if m > 192 {
                lemma_power_monotone(2, 193, m);
                lemma_power_step(2, 192);
                lemma_power_positive(2, 192);
            }
        }
        let pu = big_pow(radix as u64, u as u32);
        let pv = big_pow(radix as u64, v as u32);
        let mut two96: Vec<u8> = Vec::new();
        two96.push(1u8);
        append_zeros(&mut two96, 12);
        proof {
            let one = seq![1u8];
            assert(two96@ =~= one + zeros(12));
            lemma_be_val_append(one, zeros(12));
            lemma_be_val_zeros(12);
            assert(one.drop_last() =~= Seq::<u8>::empty());
            assert(be_val(one.drop_last()) == 0);
            assert(be_val(one) == 1);
            assert(1 * power(256, 12) == power(256, 12));
            lemma_power_positive(radix as nat, u as nat);
            lemma_power_positive(radix as nat, v as nat);
        }
        let enc = match which {
            CipherType::Encrypt => true,
            CipherType::Decrypt => false,
        };
        let mut na: Vec<u8>;
        let mut nb: Vec<u8>;
        let mut mu: Vec<u8>;
        let mut mv: Vec<u8>;
        let wa: Vec<u8>;
        let wb: Vec<u8>;
        if enc {
            na = a0;
            nb = b0;
            mu = pu;
            mv = pv;
            wa = tw0;
            wb = tw1;
        } else {
            na = b0;
            nb = a0;
            mu = pv;
            mv = pu;
            wa = tw1;
            wb = tw0;
        }
        let ghost s0 = (be_val(na@), be_val(nb@), be_val(mu@), be_val(mv@));
        let ghost tw = (wa@, wb@);
        let mut i: u8 = 1;
        while i <= 8
            invariant
                1 <= i <= 9,
                ffx == &self.ffx,
                self.ffx.wf(),
                be_val(two96@) == power(256, 12),
                wa@.len() == 4,
                wb@.len() == 4,
                tw == (wa@, wb@),
                (be_val(na@), be_val(nb@), be_val(mu@), be_val(mv@)) == ff3_iter(
                    ffx.key(),
                    tw,
                    enc,
                    s0,
                    (i - 1) as nat,
                ),
                be_val(mu@) > 0,
                be_val(mv@) > 0,
            decreases 9 - i,
        {
            let round: u8 = if enc {
                i - 1
            } else {
                8 - i
            };
            let y = if i % 2 == 0 {
                self.round_y(wa.as_slice(), round, nb.as_slice(), two96.as_slice())
            } else {
                self.round_y(wb.as_slice(), round, nb.as_slice(), two96.as_slice())
            };
            let c = if enc {
                let t = big_add(na.as_slice(), y.as_slice());
                big_rem(t.as_slice(), mu.as_slice())
            } else {
                let ym = big_rem(y.as_slice(), mu.as_slice());
                let t = big_add(na.as_slice(), mu.as_slice());
                let t2 = big_sub(t.as_slice(), ym.as_slice());
                big_rem(t2.as_slice(), mu.as_slice())
            };
            proof {
                let m = be_val(mu@) as int;
                let a = be_val(na@) as int;
                let yy = be_val(y@) as int;
                if !enc {
                    lemma_sub_mod(a, yy, m);
                }
                assert(((i + 1) - 1) as nat == i as nat);
                assert(i as nat - 1 == (i - 1) as nat);
                assert((i as nat) % 2 == (i % 2) as nat);
            }
            na = nb;
            nb = c;
            let tmp = mu;
            mu = mv;
            mv = tmp;
            i = i + 1;
        }
        if !enc {
            let tmp = na;
            na = nb;
            nb = tmp;
        }
        let ca = match bignum_to_chars(na.as_slice(), alpha, Some(u)) {
            Ok(c) => c,
            Err(e) => {
                return Err(e);
            },
        };
        let cb = match bignum_to_chars(nb.as_slice(), alpha, Some(v)) {
            Ok(c) => c,
            Err(e) => {
                return Err(e);
            },
        };
        let mut out = reverse_chars(ca.as_slice());
        let mut rb = reverse_chars(cb.as_slice());
        out.append(&mut rb);
        Ok(out)
    }

    fn cipher_string(&self, inp: &str, opt_twk: Option<&[u8]>, which: CipherType) -> (r: Result<
        String,
    >)
        requires
            self.wf(),
        ensures
            r is Ok <==> text_error(self.ctx(), inp@, tweak_for(self.ctx(), opt_twk)) is None,
            r matches Err(e) ==> text_error(self.ctx(), inp@, tweak_for(self.ctx(), opt_twk))
                == Some(e.kind),
            r matches Ok(y) ==> y@ == ff3_cipher(
                self.ctx().key(),
                self.ctx().alphabet(),
                tweak_for(self.ctx(), opt_twk),
                inp@,
                which is Encrypt,
            ),
    {
        let X = str_chars(inp);
        match self.cipher_chars(X.as_slice(), opt_twk, which) {
            Ok(Y) => Ok(string_of(&Y)),
            Err(e) => Err(e),
        }
    }

    /// Encrypts `pt` under the given 7-byte tweak, or the default one.
    pub fn encrypt(&self, pt: &str, opt_twk: Option<&[u8]>) -> (r: Result<String>)
        requires
            self.wf(),
        ensures
            r is Ok <==> text_error(self.ctx(), pt@, tweak_for(self.ctx(), opt_twk)) is None,
            r matches Err(e) ==> text_error(self.ctx(), pt@, tweak_for(self.ctx(), opt_twk))
                == Some(e.kind),
            r matches Ok(y) ==> y@ == ff3_cipher(
                self.ctx().key(),
                self.ctx().alphabet(),
                tweak_for(self.ctx(), opt_twk),
                pt@,
                true,
            ),
    {
        self.cipher_string(pt, opt_twk, CipherType::Encrypt)
    }

    /// Decrypts `ct` under the given 7-byte tweak, or the default one.
    pub fn decrypt(&self, ct: &str, opt_twk: Option<&[u8]>) -> (r: Result<String>)
        requires
            self.wf(),
        ensures
            r is Ok <==> text_error(self.ctx(), ct@, tweak_for(self.ctx(), opt_twk)) is None,
            r matches Err(e) ==> text_error(self.ctx(), ct@, tweak_for(self.ctx(), opt_twk))
                == Some(e.kind),
            r matches Ok(y) ==> y@ == ff3_cipher(
                self.ctx().key(),
                self.ctx().alphabet(),
                tweak_for(self.ctx(), opt_twk),
                ct@,
                false,
            ),
    {
        self.cipher_string(ct, opt_twk, CipherType::Decrypt)
    }
}

/// The longest text length is unique.
proof fn lemma_max_text_unique(radix: nat, m: nat)
    requires
        radix >= 2,
        is_ff3_max_text(radix, m),
    ensures
        (choose|k: nat| is_ff3_max_text(radix, k)) == m,
{
    let k = choose|k: nat| is_ff3_max_text(radix, k);
    assert(is_ff3_max_text(radix, k));
    if k < m {
        lemma_power_monotone(radix, k + 1, m);
    } else if m < k {
        lemma_power_monotone(radix, m + 1, k);
    }
}

} // verus!

verus! {

/// Each half stays below its modulus, and `k` rounds exchange the moduli
/// `k` times.
pub proof fn lemma_ff3_bounds(
    key: Seq<u8>,
    tw: (Seq<u8>, Seq<u8>),
    enc: bool,
    s: (nat, nat, nat, nat),
    k: nat,
)
    requires
        s.0 < s.2,
        s.1 < s.3,
    ensures
        ({
            let e = ff3_iter(key, tw, enc, s, k);
            &&& e.0 < e.2
            &&& e.1 < e.3
            &&& k % 2 == 0 ==> e.2 == s.2 && e.3 == s.3
            &&& k % 2 == 1 ==> e.2 == s.3 && e.3 == s.2
        }),
    decreases k,
{
    if k > 0 {
        lemma_ff3_bounds(key, tw, enc, s, (k - 1) as nat);
        let e = ff3_iter(key, tw, enc, s, (k - 1) as nat);
        let w = if k % 2 == 0 {
            tw.0
        } else {
            tw.1
        };
        let y = ff3_y(
            key,
            w,
            if enc {
                (k - 1) as u8
            } else {
                (8 - k) as u8
            },
            e.1,
        );
        let m = e.2 as int;
        if enc {
            assert(0 <= (e.0 + y) as int % m < m);
        } else {
            assert(0 <= (e.0 - y) % m < m);
        }
    }
}

/// Running the rounds backwards, with the tweak halves exchanged, from the
/// exchanged final state retraces the forward states.
proof fn lemma_ff3_inverse(key: Seq<u8>, t0: Seq<u8>, t1: Seq<u8>, s: (nat, nat, nat, nat), k: nat)
    requires
        k <= 8,
        s.0 < s.2,
        s.1 < s.3,
    ensures
        ff3_iter(key, (t1, t0), false, swap_state(ff3_iter(key, (t0, t1), true, s, 8)), k)
            == swap_state(ff3_iter(key, (t0, t1), true, s, (8 - k) as nat)),
    decreases k,
{
    if k > 0 {
        lemma_ff3_inverse(key, t0, t1, s, (k - 1) as nat);
        let j = (8 - k) as nat;
        lemma_ff3_bounds(key, (t0, t1), true, s, j);
        let e = ff3_iter(key, (t0, t1), true, s, j);
        let w = if (j + 1) % 2 == 0 {
            t0
        } else {
            t1
        };
        let y = ff3_y(key, w, j as u8, e.1);
        assert((j + 1 - 1) as u8 == j as u8);
        assert((8 - k) as u8 == j as u8);
        assert((8 - (k - 1)) as nat == j + 1);
        assert(k % 2 == 0 <==> (j + 1) % 2 == 1);
        lemma_add_sub_mod(e.0 as int, y as int, e.2 as int);
    }
}

/// The reversed halves of a text and their values, as FF3-1 reads them.
proof fn lemma_ff3_input(alpha: Seq<char>, x: Seq<char>)
    requires
        distinct(alpha),
        alpha.len() >= 2,
        all_in(x, alpha),
    ensures
        ({
            let n = x.len();
            let v = n / 2;
            let u = (n - v) as nat;
            let r = alpha.len();
            let xa = x.subrange(0, u as int).reverse();
            let xb = x.subrange(u as int, n as int).reverse();
            &&& str_val(xa, alpha) < power(r, u)
            &&& str_val(xb, alpha) < power(r, v)
            &&& int_to_chars(str_val(xa, alpha), alpha, u).reverse() == x.subrange(0, u as int)
            &&& int_to_chars(str_val(xb, alpha), alpha, v).reverse() == x.subrange(
                u as int,
                n as int,
            )
        }),
{
    let n = x.len();
    let v = n / 2;
    let u = (n - v) as nat;
    let xa = x.subrange(0, u as int).reverse();
    let xb = x.subrange(u as int, n as int).reverse();
    lemma_all_in_halves(x, alpha, u as int);
    lemma_str_round_trip(xa, alpha);
    lemma_str_round_trip(xb, alpha);
    assert(xa.reverse() =~= x.subrange(0, u as int));
    assert(xb.reverse() =~= x.subrange(u as int, n as int));
}

/// A reversed string over the alphabet is over the alphabet.
proof fn lemma_all_in_reverse(a: Seq<char>, alpha: Seq<char>)
    requires
        all_in(a, alpha),
    ensures
        all_in(a.reverse(), alpha),
{
    assert forall|i: int| 0 <= i < a.len() implies alpha.contains(#[trigger] a.reverse()[i]) by {
        assert(a.reverse()[i] == a[a.len() - 1 - i]);
    }
}

/// FF3-1 in either direction keeps the length of the text and writes only
/// characters of the alphabet.
pub proof fn lemma_ff3_format(
    key: Seq<u8>,
    alpha: Seq<char>,
    tweak: Seq<u8>,
    x: Seq<char>,
    enc: bool,
)
    requires
        distinct(alpha),
        alpha.len() >= 2,
        all_in(x, alpha),
    ensures
        ff3_cipher(key, alpha, tweak, x, enc).len() == x.len(),
        all_in(ff3_cipher(key, alpha, tweak, x, enc), alpha),
{
    let r = alpha.len();
    let n = x.len();
    let v = n / 2;
    let u = (n - v) as nat;
    let a0 = str_val(x.subrange(0, u as int).reverse(), alpha);
    let b0 = str_val(x.subrange(u as int, n as int).reverse(), alpha);
    let t0 = ff3_tweak_half(tweak, 0);
    let t1 = ff3_tweak_half(tweak, 1);
    lemma_ff3_input(alpha, x);
    let (oa, ob) = if enc {
        lemma_ff3_bounds(key, (t0, t1), true, (a0, b0, power(r, u), power(r, v)), 8);
        let s = ff3_iter(key, (t0, t1), true, (a0, b0, power(r, u), power(r, v)), 8);
        (s.0, s.1)
    } else {
        lemma_ff3_bounds(key, (t1, t0), false, (b0, a0, power(r, v), power(r, u)), 8);
        let s = ff3_iter(key, (t1, t0), false, (b0, a0, power(r, v), power(r, u)), 8);
        (s.1, s.0)
    };
    lemma_chars_round_trip(oa, alpha, u);
    lemma_chars_round_trip(ob, alpha, v);
    lemma_all_in_reverse(int_to_chars(oa, alpha, u), alpha);
    lemma_all_in_reverse(int_to_chars(ob, alpha, v), alpha);
    lemma_all_in_concat(
        int_to_chars(oa, alpha, u).reverse(),
        int_to_chars(ob, alpha, v).reverse(),
        alpha,
    );
}

/// Decrypting an FF3-1 ciphertext under the same key, alphabet and tweak
/// gives the plaintext back. Encryption keeps the length and the
/// alphabet, so an engine that accepts a plaintext accepts its
/// ciphertext too.
pub proof fn lemma_ff3_round_trip(f: FF3_1, tweak: Seq<u8>, x: Seq<char>)
    requires
        f.wf(),
        text_error(f.ctx(), x, tweak) is None,
    ensures
        ({
            let y = ff3_cipher(f.ctx().key(), f.ctx().alphabet(), tweak, x, true);
            &&& y.len() == x.len()
            &&& all_in(y, f.ctx().alphabet())
            &&& text_error(f.ctx(), y, tweak) is None
            &&& ff3_cipher(f.ctx().key(), f.ctx().alphabet(), tweak, y, false) == x
        }),
{
    f.ctx().lemma_wf();
    let key = f.ctx().key();
    let alpha = f.ctx().alphabet();
    let r = alpha.len();
    let n = x.len();
    let v = n / 2;
    let u = (n - v) as nat;
    let a0 = str_val(x.subrange(0, u as int).reverse(), alpha);
    let b0 = str_val(x.subrange(u as int, n as int).reverse(), alpha);
    let t0 = ff3_tweak_half(tweak, 0);
    let t1 = ff3_tweak_half(tweak, 1);
    let s = (a0, b0, power(r, u), power(r, v));
    lemma_ff3_input(alpha, x);
    lemma_ff3_format(key, alpha, tweak, x, true);
    lemma_ff3_bounds(key, (t0, t1), true, s, 8);
    let e = ff3_iter(key, (t0, t1), true, s, 8);
    let ya = int_to_chars(e.0, alpha, u);
    let yb = int_to_chars(e.1, alpha, v);
    let y = ya.reverse() + yb.reverse();
    lemma_chars_round_trip(e.0, alpha, u);
    lemma_chars_round_trip(e.1, alpha, v);
    assert(y.subrange(0, u as int).reverse() =~= ya);
    assert(y.subrange(u as int, n as int).reverse() =~= yb);
    lemma_ff3_inverse(key, t0, t1, s, 8);
    assert(swap_state(e) == (e.1, e.0, power(r, v), power(r, u)));
    assert(x.subrange(0, u as int) + x.subrange(u as int, n as int) =~= x);
}

} // verus!

verus! {

/// FF3-1's output depends on the key, the alphabet (and so the radix), the
/// tweak and the text alone: engines that share key and alphabet agree on
/// every input.
pub proof fn lemma_ff3_deterministic(
    f1: FF3_1,
    f2: FF3_1,
    tweak: Seq<u8>,
    x: Seq<char>,
    enc: bool,
)
    requires
        f1.ctx().key() == f2.ctx().key(),
        f1.ctx().alphabet() == f2.ctx().alphabet(),
    ensures
        ff3_cipher(f1.ctx().key(), f1.ctx().alphabet(), tweak, x, enc) == ff3_cipher(
            f2.ctx().key(),
            f2.ctx().alphabet(),
            tweak,
            x,
            enc,
        ),
{
}

} // verus!
