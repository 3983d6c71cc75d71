//! The substrate that FF1 and FF3-1 share: parameter validation, the AES
//! based PRF, and the conversions between strings and numbers.
use vstd::prelude::*;
use crate::aes::{aes_block, block_of, cbc_chain, valid_key_len, Cipher};
use crate::alphabet::{distinct, Alphabet};
use crate::bignum::{
    be_val, big_add_u64, big_div_u64, big_is_zero, big_mul_u64, big_rem_u64, copy_bytes,
    lemma_power_monotone, lemma_power_step, power,
};
use crate::codec::{
    digits_below, digits_to_int, int_to_digits, lemma_int_round_trip, low_digits, zero_digits,
};
use crate::error::{Error, ErrorKind, Result};

verus! {

/// Which way a Feistel engine runs.
pub enum CipherType {
    Encrypt,
    Decrypt,
}

/// The alphabet used where none is given.
pub open spec fn default_alphabet() -> Seq<char> {
    seq![
        '0', '1', '2', '3', '4', '5', '6', '7', '8', '9',
        'a', 'b', 'c', 'd', 'e', 'f', 'g', 'h', 'i', 'j', 'k', 'l', 'm',
        'n', 'o', 'p', 'q', 'r', 's', 't', 'u', 'v', 'w', 'x', 'y', 'z',
    ]
}

/// The characters an engine draws its alphabet from.
pub open spec fn alphabet_source(opt_alpha: Option<&str>) -> Seq<char> {
    match opt_alpha {
        Some(a) => a@,
        None => default_alphabet(),
    }
}

/// `m` is the least text length for which `radix^m >= 1000000`.
pub open spec fn is_min_text_len(radix: nat, m: nat) -> bool {
    &&& power(radix, m) >= 1000000
    &&& m > 0 ==> power(radix, (m - 1) as nat) < 1000000
}

/// A tweak length within `[min, max]`, where a zero `max` sets no bound.
pub open spec fn tweak_len_ok(n: nat, min: nat, max: nat) -> bool {
    n >= min && (max == 0 || n <= max)
}

/// The error that construction reports for the given parameters, if any,
/// checked in this order.
pub open spec fn params_error(
    key: Seq<u8>,
    opt_twk: Option<Seq<u8>>,
    maxtxt: nat,
    mintwk: nat,
    maxtwk: nat,
    radix: nat,
    src: Seq<char>,
) -> Option<ErrorKind> {
    if radix < 2 || radix > src.len() {
        Some(ErrorKind::InvalidRadix)
    } else if !distinct(src.take(radix as int)) {
        Some(ErrorKind::DuplicateAlphabet)
    } else if radix >= 1000000 || power(radix, maxtxt) < 1000000 {
        Some(ErrorKind::UnsupportedTextBounds)
    } else if mintwk > maxtwk {
        Some(ErrorKind::InvalidTweakBounds)
    } else if opt_twk matches Some(t) && !tweak_len_ok(t.len(), mintwk, maxtwk) {
        Some(ErrorKind::InvalidTweakLength)
    } else if !valid_key_len(key.len()) {
        Some(ErrorKind::InvalidKeyLength)
    } else {
        None
    }
}

/// The CBC-MAC of `s`: the last chaining value.
pub open spec fn cbc_mac(key: Seq<u8>, s: Seq<u8>) -> Seq<u8> {
    cbc_chain(key, s, s.len() / 16)
}

/// The digit of each character.
pub open spec fn index_in(alpha: Seq<char>, c: char) -> nat {
    (choose|i: int| 0 <= i < alpha.len() && alpha[i] == c) as nat
}

pub open spec fn chars_to_digits(cs: Seq<char>, alpha: Seq<char>) -> Seq<nat> {
    cs.map_values(|c: char| index_in(alpha, c))
}

/// The number that a string over the alphabet denotes.
pub open spec fn str_val(cs: Seq<char>, alpha: Seq<char>) -> nat {
    digits_to_int(chars_to_digits(cs, alpha), alpha.len())
}

/// `n` written with the alphabet, padded to at least `len` characters.
pub open spec fn int_to_chars(n: nat, alpha: Seq<char>, len: nat) -> Seq<char> {
    int_to_digits(n, alpha.len(), len).map_values(|d: nat| alpha[d as int])
}

/// Every character is in the alphabet.
pub open spec fn all_in(cs: Seq<char>, alpha: Seq<char>) -> bool {
    forall|i: int| 0 <= i < cs.len() ==> alpha.contains(#[trigger] cs[i])
}

pub open spec fn len_or_zero(opt: Option<usize>) -> nat {
    match opt {
        Some(l) => l as nat,
        None => 0,
    }
}

proof fn lemma_index_in(alpha: Seq<char>, i: int)
    requires
        distinct(alpha),
        0 <= i < alpha.len(),
    ensures
        index_in(alpha, alpha[i]) == i,
{
    let c = alpha[i];
    assert(0 <= i < alpha.len() && alpha[i] == c);
    let j = choose|j: int| 0 <= j < alpha.len() && alpha[j] == c;
    if j < i {
        assert(alpha[j] != alpha[i]);
    } else if i < j {
        assert(alpha[i] != alpha[j]);
    }
}

/// The digits of a string over the alphabet, and their number.
pub proof fn lemma_str_digits(cs: Seq<char>, alpha: Seq<char>)
    requires
        distinct(alpha),
        all_in(cs, alpha),
    ensures
        digits_below(chars_to_digits(cs, alpha), alpha.len()),
        chars_to_digits(cs, alpha).map_values(|d: nat| alpha[d as int]) == cs,
{
    let ds = chars_to_digits(cs, alpha);
    assert forall|i: int| 0 <= i < cs.len() implies ds[i] < alpha.len() && alpha[ds[i] as int]
        == cs[i] by {
        assert(alpha.contains(cs[i]));
        let k = choose|k: int| 0 <= k < alpha.len() && alpha[k] == cs[i];
        lemma_index_in(alpha, k);
    }
    assert(ds.map_values(|d: nat| alpha[d as int]) =~= cs);
}

/// Writing a number with the alphabet and reading it back gives the number;
/// the string is over the alphabet, and has length `len` when the number is
/// below `radix^len`.
pub proof fn lemma_chars_round_trip(n: nat, alpha: Seq<char>, len: nat)
    requires
        distinct(alpha),
        alpha.len() >= 2,
    ensures
        str_val(int_to_chars(n, alpha, len), alpha) == n,
        all_in(int_to_chars(n, alpha, len), alpha),
        n < power(alpha.len(), len) ==> int_to_chars(n, alpha, len).len() == len,
{
    let r = alpha.len();
    let ds = int_to_digits(n, r, len);
    let cs = int_to_chars(n, alpha, len);
    lemma_int_round_trip(n, r, len);
    assert forall|i: int| 0 <= i < cs.len() implies alpha.contains(#[trigger] cs[i]) by {
        assert(cs[i] == alpha[ds[i] as int]);
    }
    assert(chars_to_digits(cs, alpha) =~= ds) by {
        assert forall|i: int| 0 <= i < ds.len() implies chars_to_digits(cs, alpha)[i] == ds[i] by {
            lemma_index_in(alpha, ds[i] as int);
        }
    }
}

/// Reading a string over the alphabet and writing the number back at the
/// string's length gives the string; the number is below `radix^len`.
pub proof fn lemma_str_round_trip(cs: Seq<char>, alpha: Seq<char>)
    requires
        distinct(alpha),
        alpha.len() >= 2,
        all_in(cs, alpha),
    ensures
        int_to_chars(str_val(cs, alpha), alpha, cs.len()) == cs,
        str_val(cs, alpha) < power(alpha.len(), cs.len()),
{
    let ds = chars_to_digits(cs, alpha);
    lemma_str_digits(cs, alpha);
    crate::codec::lemma_digits_round_trip(ds, alpha.len());
    crate::codec::lemma_digits_bound(ds, alpha.len());
}

/// The least `m` with `radix^m >= 1000000`.
fn min_text_len(radix: usize) -> (m: usize)
    requires
        radix >= 2,
    ensures
        is_min_text_len(radix as nat, m as nat),
        m <= 20,
{
    let mut m: usize = 0;
    let mut p: u128 = 1;
    while p < 1000000
        invariant
            radix >= 2,
            p as nat == power(radix as nat, m as nat),
            m > 0 ==> power(radix as nat, (m - 1) as nat) < 1000000,
            p >= 1,
            power(2, m as nat) <= p,
            m <= 20,
        decreases 20 - m,
    {
        assert(p * (radix as u128) <= 1000000 * 0xffff_ffff_ffff_ffff) by (nonlinear_arith)
            requires
                p < 1000000,
                radix as u128 <= 0xffff_ffff_ffff_ffff,
        ;
        assert(p * (radix as u128) >= 2 * p) by (nonlinear_arith)
            requires
                radix >= 2,
        ;
        assert(power(2, (m + 1) as nat) <= p * (radix as u128)) by {
            lemma_power_step(2, m as nat);
            assert(2 * power(2, m as nat) <= (radix as nat) * (p as nat)) by (nonlinear_arith)
                requires
                    power(2, m as nat) <= p,
                    radix >= 2,
            ;
        }
        proof {
            lemma_power_step(radix as nat, m as nat);
        }
        proof {
            if m >= 20 {
                assert(power(2, 20) == 1048576) by {
                    reveal_with_fuel(power, 21);
                }
                lemma_power_monotone(2, 20, m as nat);
            }
        }
        assert((p * (radix as u128)) as nat == (radix as nat) * (p as nat)) by (nonlinear_arith)
            requires
                p * (radix as u128) <= 1000000 * 0xffff_ffff_ffff_ffff,
        ;
        p = p * (radix as u128);
        m = m + 1;
    }
    m
}

/// Limits on the lengths of texts and tweaks.
struct SizeLimits {
    min: usize,
    max: usize,
}

/// The shared state of an engine: AES under its key, a default tweak, the
/// alphabet, and the length limits.
pub struct FFX {
    cipher: Cipher,
    twk: Vec<u8>,
    txt: SizeLimits,
    tw: SizeLimits,
    alpha: Alphabet,
}

impl FFX {
    pub closed spec fn key(&self) -> Seq<u8> {
        self.cipher.key()
    }

    pub closed spec fn tweak(&self) -> Seq<u8> {
        self.twk@
    }

    pub closed spec fn alphabet(&self) -> Seq<char> {
        self.alpha@
    }

    pub open spec fn radix(&self) -> nat {
        self.alphabet().len()
    }

    pub closed spec fn txt_min(&self) -> nat {
        self.txt.min as nat
    }

    pub closed spec fn txt_max(&self) -> nat {
        self.txt.max as nat
    }

    pub closed spec fn twk_min(&self) -> nat {
        self.tw.min as nat
    }

    pub closed spec fn twk_max(&self) -> nat {
        self.tw.max as nat
    }

    pub closed spec fn wf(&self) -> bool {
        &&& self.cipher.wf()
        &&& self.alpha.wf()
        &&& self.alpha@.len() >= 2
        &&& is_min_text_len(self.radix(), self.txt.min as nat)
        &&& 2 <= self.txt.min <= self.txt.max
        &&& self.tw.min <= self.tw.max
    }

    /// What a well-formed context guarantees to its users.
    pub proof fn lemma_wf(&self)
        requires
            self.wf(),
        ensures
            valid_key_len(self.key().len()),
            distinct(self.alphabet()),
            2 <= self.radix() < 1000000,
            is_min_text_len(self.radix(), self.txt_min()),
            2 <= self.txt_min() <= self.txt_max(),
            self.twk_min() <= self.twk_max(),
    {
        self.alpha.lemma_distinct();
        self.cipher.lemma_key_len();
        if self.radix() >= 1000000 {
            lemma_power_step(self.radix(), 0);
            lemma_power_monotone(self.radix(), 1, (self.txt_min() - 1) as nat);
        }
    }

    pub fn new(
        key: &[u8],
        opt_twk: Option<&[u8]>,
        maxtxt: usize,
        mintwk: usize,
        maxtwk: usize,
        radix: usize,
        opt_alpha: Option<&str>,
    ) -> (r: Result<Self>)
        ensures
            ({
                let err = params_error(
                    key@,
                    match opt_twk {
                        Some(t) => Some(t@),
                        None => None,
                    },
                    maxtxt as nat,
                    mintwk as nat,
                    maxtwk as nat,
                    radix as nat,
                    alphabet_source(opt_alpha),
                );
                &&& r is Ok <==> err is None
                &&& r matches Err(e) ==> err == Some(e.kind)
            }),
            r matches Ok(f) ==> {
                &&& f.wf()
                &&& f.key() == key@
                &&& f.alphabet() == alphabet_source(opt_alpha).take(radix as int)
                &&& f.tweak() == match opt_twk {
                    Some(t) => t@,
                    None => Seq::empty(),
                }
                &&& f.txt_max() == maxtxt
                &&& f.twk_min() == mintwk
                &&& f.twk_max() == maxtwk
            },
    {
        let alpha: &str = match opt_alpha {
            Some(a) => a,
            None => "0123456789abcdefghijklmnopqrstuvwxyz",
        };
        proof {
            reveal_strlit("0123456789abcdefghijklmnopqrstuvwxyz");
            assert(alpha@ =~= alphabet_source(opt_alpha));
        }
        let chars = crate::alphabet::str_chars(alpha);
        if radix < 2 || radix > chars.len() {
            return Err(Error::new(ErrorKind::InvalidRadix));
        }
        let a = match Alphabet::new(alpha, Some(radix)) {
            Ok(a) => a,
            Err(e) => {
                return Err(e);
            },
        };
        let mintxt = min_text_len(radix);
        proof {
            let r = radix as nat;
            lemma_power_step(r, 0);
            if mintxt < 2 {
                assert(mintxt == 1) by {
                    assert(power(r, 0) == 1);
                }
            } else {
                lemma_power_monotone(r, 1, (mintxt - 1) as nat);
            }
            if mintxt > maxtxt {
                lemma_power_monotone(r, maxtxt as nat, (mintxt - 1) as nat);
            } else {
                lemma_power_monotone(r, mintxt as nat, maxtxt as nat);
            }
        }
        if mintxt < 2 || mintxt > maxtxt {
            return Err(Error::new(ErrorKind::UnsupportedTextBounds));
        }
        if mintwk > maxtwk {
            return Err(Error::new(ErrorKind::InvalidTweakBounds));
        }
        let twk: Vec<u8> = match opt_twk {
            None => Vec::new(),
            Some(t) => {
                if t.len() < mintwk || (maxtwk > 0 && t.len() > maxtwk) {
                    return Err(Error::new(ErrorKind::InvalidTweakLength));
                }
                copy_bytes(t)
            },
        };
        let cipher = match Cipher::new(key) {
            Ok(c) => c,
            Err(e) => {
                return Err(e);
            },
        };
        Ok(FFX {
            cipher,
            twk,
            txt: SizeLimits { min: mintxt, max: maxtxt },
            tw: SizeLimits { min: mintwk, max: maxtwk },
            alpha: a,
        })
    }

    /// The tweak given, or the default one.
    pub fn get_tweak<'a>(&'a self, opt_twk: &Option<&'a [u8]>) -> (r: &'a [u8])
        ensures
            r@ == match *opt_twk {
                Some(t) => t@,
                None => self.tweak(),
            },
    {
        match opt_twk {
            None => self.twk.as_slice(),
            Some(t) => t,
        }
    }

    pub fn get_alphabet(&self) -> (r: &Alphabet)
        ensures
            r@ == self.alphabet(),
            self.wf() ==> r.wf(),
    {
        &self.alpha
    }

    pub fn get_radix(&self) -> (r: usize)
        ensures
            r == self.radix(),
    {
        self.alpha.len()
    }

    pub fn validate_text_length(&self, n: usize) -> (r: Result<()>)
        ensures
            r is Ok <==> self.txt_min() <= n <= self.txt_max(),
            r matches Err(e) ==> e.kind == ErrorKind::InvalidTextLength,
    {
        if n < self.txt.min || n > self.txt.max {
            return Err(Error::new(ErrorKind::InvalidTextLength));
        }
        Ok(())
    }

    pub fn validate_tweak_length(&self, n: usize) -> (r: Result<()>)
        ensures
            r is Ok <==> tweak_len_ok(n as nat, self.twk_min(), self.twk_max()),
            r matches Err(e) ==> e.kind == ErrorKind::InvalidTweakLength,
    {
        if n < self.tw.min || (self.tw.max > 0 && n > self.tw.max) {
            return Err(Error::new(ErrorKind::InvalidTweakLength));
        }
        Ok(())
    }

    /// The CBC-MAC of `s` under the key, into the first block of `d`.
    pub fn prf(&self, d: &mut [u8], s: &[u8]) -> (r: Result<()>)
        requires
            self.wf(),
        ensures
            r is Ok <==> s@.len() > 0 && s@.len() % 16 == 0 && old(d)@.len() >= 16,
            r matches Err(e) ==> e.kind == ErrorKind::LengthMisalignment && final(d)@ == old(d)@,
            r is Ok ==> {
                &&& final(d)@.len() == old(d)@.len()
                &&& final(d)@.subrange(0, 16) == cbc_mac(self.key(), s@)
                &&& final(d)@.subrange(16, final(d)@.len() as int) == old(d)@.subrange(
                    16,
                    old(d)@.len() as int,
                )
            },
    {
        let blksz = self.cipher.block_size();
        if s.len() % blksz != 0 || s.len() == 0 {
            return Err(Error::new(ErrorKind::LengthMisalignment));
        }
        if d.len() < blksz {
            return Err(Error::new(ErrorKind::LengthMisalignment));
        }
        let out = self.cipher.cbc_encrypt(s);
        let last = s.len() - 16;
        let ghost d0 = d@;
        let mut j: usize = 0;
        while j < 16
            invariant
                j <= 16,
                out@.len() == s@.len(),
                s@.len() >= 16,
                last + 16 == s@.len(),
                s@.len() <= usize::MAX,
                d@.len() == d0.len(),
                d0.len() >= 16,
                forall|t: int| 0 <= t < j ==> d@[t] == out@[last + t],
                forall|t: int| 16 <= t < d0.len() ==> d@[t] == d0[t],
            decreases 16 - j,
        {
            d[j] = out[last + j];
            j = j + 1;
        }
        proof {
            let k = s@.len() / 16 - 1;
            assert(last == 16 * k);
            assert(block_of(out@, k) == cbc_chain(self.key(), s@, (k + 1) as nat));
            assert(d@.subrange(0, 16) =~= block_of(out@, k));
            assert(d@.subrange(16, d@.len() as int) =~= d0.subrange(16, d0.len() as int));
        }
        Ok(())
    }

    /// AES of the first block of `s` under the key, into the first block of
    /// `d`.
    pub fn ciph(&self, d: &mut [u8], s: &[u8]) -> (r: Result<()>)
        requires
            self.wf(),
            s@.len() >= 16,
        ensures
            r is Ok <==> old(d)@.len() >= 16,
            r matches Err(e) ==> e.kind == ErrorKind::LengthMisalignment && final(d)@ == old(d)@,
            r is Ok ==> {
                &&& final(d)@.len() == old(d)@.len()
                &&& final(d)@.subrange(0, 16) == aes_block(self.key(), s@.subrange(0, 16))
                &&& final(d)@.subrange(16, final(d)@.len() as int) == old(d)@.subrange(
                    16,
                    old(d)@.len() as int,
                )
            },
    {
        if d.len() < 16 {
            return Err(Error::new(ErrorKind::LengthMisalignment));
        }
        self.cipher.encrypt_block(s, d);
        Ok(())
    }
}

/// The number that `chars` denotes over the alphabet; fails on a character
/// that is not in it.
pub fn chars_to_bignum(chars: &[char], alpha: &Alphabet) -> (r: Result<Vec<u8>>)
    requires
        alpha.wf(),
    ensures
        r is Ok <==> all_in(chars@, alpha@),
        r matches Ok(n) ==> be_val(n@) == str_val(chars@, alpha@),
        r matches Err(e) ==> e.kind == ErrorKind::InvalidCharacter,
{
    proof {
        alpha.lemma_distinct();
    }
    let radix = alpha.len();
    let mut n: Vec<u8> = Vec::new();
    let mut i: usize = 0;
    while i < chars.len()
        invariant
            alpha.wf(),
            distinct(alpha@),
            radix == alpha@.len(),
            i <= chars@.len(),
            all_in(chars@.take(i as int), alpha@),
            be_val(n@) == str_val(chars@.take(i as int), alpha@),
        decreases chars@.len() - i,
    {
        let d = match alpha.ltr(chars[i]) {
            Ok(d) => d,
            Err(e) => {
                return Err(e);
            },
        };
        proof {
            lemma_index_in(alpha@, d as int);
            let cs = chars@.take(i + 1);
            assert(cs.drop_last() =~= chars@.take(i as int));
            assert(chars_to_digits(cs, alpha@).drop_last() =~= chars_to_digits(
                chars@.take(i as int),
                alpha@,
            ));
            assert(all_in(cs, alpha@)) by {
                assert forall|t: int| 0 <= t < cs.len() implies alpha@.contains(#[trigger] cs[t]) by {
                    if t < i {
                        assert(cs[t] == chars@.take(i as int)[t]);
                    }
                }
            }
        }
        let m = big_mul_u64(n.as_slice(), radix as u64);
        n = big_add_u64(m.as_slice(), d as u64);
        i = i + 1;
    }
    assert(chars@.take(chars@.len() as int) =~= chars@);
    Ok(n)
}

/// `n` written with the alphabet, padded with its zero character on the
/// left to at least `opt_len` characters.
pub fn bignum_to_chars(n: &[u8], alpha: &Alphabet, opt_len: Option<usize>) -> (r: Result<
    Vec<char>,
>)
    requires
        alpha.wf(),
        alpha@.len() >= 2,
    ensures
        r matches Ok(cs) && cs@ == int_to_chars(be_val(n@), alpha@, len_or_zero(opt_len)),
{
    let radix = alpha.len();
    let r = radix as u64;
    let ghost rr = radix as nat;
    let ghost n0 = be_val(n@);
    let mut cur = copy_bytes(n);
    let mut low: Vec<char> = Vec::new();
    let ghost mut ds: Seq<nat> = Seq::empty();
    while !big_is_zero(cur.as_slice())
        invariant
            alpha.wf(),
            radix == alpha@.len(),
            r == radix,
            rr == radix,
            radix >= 2,
            low_digits(n0, rr) == ds + low_digits(be_val(cur@), rr),
            low@ == ds.map_values(|d: nat| alpha@[d as int]),
        decreases be_val(cur@),
    {
        let d = big_rem_u64(cur.as_slice(), r);
        let q = big_div_u64(cur.as_slice(), r);
        proof {
            let c = be_val(cur@);
            assert(low_digits(c, rr) == seq![c % rr] + low_digits(c / rr, rr));
            assert(ds + low_digits(c, rr) =~= ds.push(c % rr) + low_digits(c / rr, rr));
            assert(c % rr < rr) by (nonlinear_arith)
                requires
                    rr >= 2,
            ;
            assert(c / rr < c) by (nonlinear_arith)
                requires
                    rr >= 2,
                    c > 0,
            ;
            ds = ds.push(c % rr);
        }
        let ch = alpha.pos(d as usize).unwrap();
        low.push(ch);
        cur = q;
        proof {
            assert(low@ =~= ds.map_values(|d: nat| alpha@[d as int]));
        }
    }
    let len: usize = match opt_len {
        Some(l) => l,
        None => 0,
    };
    let zero = alpha.zero_char();
    let ghost k = ds.len();
    assert(ds =~= low_digits(n0, rr));
    while low.len() < len
        invariant
            low@.len() >= k,
            low@.len() <= if k < len {
                len as nat
            } else {
                k
            },
            zero == alpha@[0],
            alpha@.len() >= 2,
            low@ == (ds + zero_digits((low@.len() - k) as nat)).map_values(
                |d: nat| alpha@[d as int],
            ),
        decreases len - low@.len(),
    {
        low.push(zero);
        proof {
            assert(low@ =~= (ds + zero_digits((low@.len() - k) as nat)).map_values(
                |d: nat| alpha@[d as int],
            ));
        }
    }
    let ghost padded = ds + zero_digits((low@.len() - k) as nat);
    let mut out: Vec<char> = Vec::new();
    let mut i: usize = low.len();
    while i > 0
        invariant
            i <= low@.len(),
            out@ =~= low@.subrange(i as int, low@.len() as int).reverse(),
        decreases i,
    {
        i = i - 1;
        out.push(low[i]);
        proof {
            assert(out@ =~= low@.subrange(i as int, low@.len() as int).reverse());
        }
    }
    proof {
        assert(low@.subrange(0, low@.len() as int) =~= low@);
        let want = int_to_digits(n0, rr, len as nat);
        if k < len {
            assert(want =~= padded.reverse()) by {
                assert(padded.reverse() =~= zero_digits((len - k) as nat) + ds.reverse());
            }
        } else {
            assert(padded =~= ds);
        }
        assert(out@ =~= want.map_values(|d: nat| alpha@[d as int]));
    }
    Ok(out)
}

} // verus!
