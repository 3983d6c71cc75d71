//! AES, keyed once, used as a block function and as a CBC chain with a zero
//! IV.
use vstd::prelude::*;
use crate::bignum::{copy_bytes, zeros};
use crate::error::{Error, ErrorKind, Result};
use ::cbc::cipher::block_padding::NoPadding;
use ::cbc::cipher::BlockEncryptMut;
use ::cbc::cipher::KeyIvInit;

verus! {

/// AES encryption of one 16-byte block under `key`.
pub uninterp spec fn aes_block(key: Seq<u8>, block: Seq<u8>) -> Seq<u8>;

/// Bytewise exclusive or of two 16-byte blocks.
pub open spec fn xor_block(a: Seq<u8>, b: Seq<u8>) -> Seq<u8> {
    Seq::new(16, |i: int| a[i] ^ b[i])
}

/// The `k`-th 16-byte block of `s`.
pub open spec fn block_of(s: Seq<u8>, k: int) -> Seq<u8> {
    s.subrange(16 * k, 16 * k + 16)
}

/// The CBC chaining value after the first `k` blocks of `src`, starting
/// from a zero IV: `y0 = 0`, `y(k+1) = AES(key, src_k ^ y_k)`.
pub open spec fn cbc_chain(key: Seq<u8>, src: Seq<u8>, k: nat) -> Seq<u8>
    decreases k,
{
    if k == 0 {
        zeros(16)
    } else {
        aes_block(key, xor_block(block_of(src, k - 1), cbc_chain(key, src, (k - 1) as nat)))
    }
}

/// What CBC encryption with a zero IV returns: block `k` of the output is
/// the chaining value after `k + 1` blocks.
pub open spec fn is_cbc_output(key: Seq<u8>, src: Seq<u8>, out: Seq<u8>) -> bool {
    &&& out.len() == src.len()
    &&& forall|k: int|
        0 <= k < src.len() / 16 ==> #[trigger] block_of(out, k) == cbc_chain(key, src, (k + 1) as nat)
}

/// The block that output block `k` of CBC is chained with: the zero IV,
/// then the previous output block.
pub open spec fn cbc_prev(out: Seq<u8>, k: int) -> Seq<u8> {
    if k == 0 {
        zeros(16)
    } else {
        block_of(out, k - 1)
    }
}

proof fn lemma_cbc_output(key: Seq<u8>, src: Seq<u8>, out: Seq<u8>)
    requires
        out.len() == src.len(),
        forall|k: int|
            0 <= k < src.len() / 16 ==> #[trigger] block_of(out, k) == aes_block(
                key,
                xor_block(block_of(src, k), cbc_prev(out, k)),
            ),
    ensures
        is_cbc_output(key, src, out),
{
    assert forall|k: int| 0 <= k < src.len() / 16 implies #[trigger] block_of(out, k) == cbc_chain(
        key,
        src,
        (k + 1) as nat,
    ) by {
        lemma_cbc_prefix(key, src, out, k);
    }
}

proof fn lemma_cbc_prefix(key: Seq<u8>, src: Seq<u8>, out: Seq<u8>, k: int)
    requires
        0 <= k < src.len() / 16,
        forall|k: int|
            0 <= k < src.len() / 16 ==> #[trigger] block_of(out, k) == aes_block(
                key,
                xor_block(block_of(src, k), cbc_prev(out, k)),
            ),
    ensures
        block_of(out, k) == cbc_chain(key, src, (k + 1) as nat),
    decreases k,
{
    assert(block_of(out, k) == aes_block(key, xor_block(block_of(src, k), cbc_prev(out, k))));
    if k > 0 {
        lemma_cbc_prefix(key, src, out, k - 1);
    }
    assert(cbc_chain(key, src, (k + 1) as nat) == aes_block(
        key,
        xor_block(block_of(src, k), cbc_chain(key, src, k as nat)),
    ));
}

/// Relies on cbc's `Encryptor<aes::Aes128>`: CBC encryption with a zero IV
/// of whole blocks, no padding.
#[verifier::external_body]
fn cbc_aes128(key: &[u8], src: &[u8]) -> (r: Vec<u8>)
    requires
        key@.len() == 16,
        src@.len() % 16 == 0,
    ensures
        r@.len() == src@.len(),
        forall|k: int|
            0 <= k < src@.len() / 16 ==> #[trigger] block_of(r@, k) == aes_block(
                key@,
                xor_block(block_of(src@, k), cbc_prev(r@, k)),
            ),
{
    let mut out = vec![0u8; src.len()];
    ::cbc::Encryptor::<::aes::Aes128>::new(key.into(), &Default::default())
        .encrypt_padded_b2b_mut::<NoPadding>(src, &mut out).unwrap();
    out
}

/// Relies on cbc's `Encryptor<aes::Aes192>`: CBC encryption with a zero IV
/// of whole blocks, no padding.
#[verifier::external_body]
fn cbc_aes192(key: &[u8], src: &[u8]) -> (r: Vec<u8>)
    requires
        key@.len() == 24,
        src@.len() % 16 == 0,
    ensures
        r@.len() == src@.len(),
        forall|k: int|
            0 <= k < src@.len() / 16 ==> #[trigger] block_of(r@, k) == aes_block(
                key@,
                xor_block(block_of(src@, k), cbc_prev(r@, k)),
            ),
{
    let mut out = vec![0u8; src.len()];
    ::cbc::Encryptor::<::aes::Aes192>::new(key.into(), &Default::default())
        .encrypt_padded_b2b_mut::<NoPadding>(src, &mut out).unwrap();
    out
}

/// Relies on cbc's `Encryptor<aes::Aes256>`: CBC encryption with a zero IV
/// of whole blocks, no padding.
#[verifier::external_body]
fn cbc_aes256(key: &[u8], src: &[u8]) -> (r: Vec<u8>)
    requires
        key@.len() == 32,
        src@.len() % 16 == 0,
    ensures
        r@.len() == src@.len(),
        forall|k: int|
            0 <= k < src@.len() / 16 ==> #[trigger] block_of(r@, k) == aes_block(
                key@,
                xor_block(block_of(src@, k), cbc_prev(r@, k)),
            ),
{
    let mut out = vec![0u8; src.len()];
    ::cbc::Encryptor::<::aes::Aes256>::new(key.into(), &Default::default())
        .encrypt_padded_b2b_mut::<NoPadding>(src, &mut out).unwrap();
    out
}

/// The AES variant, by key size.
enum AesType {
    Aes128(Vec<u8>),
    Aes192(Vec<u8>),
    Aes256(Vec<u8>),
}

/// A keyed AES block cipher.
pub struct Cipher {
    aes: AesType,
}

/// The key sizes that AES accepts.
pub open spec fn valid_key_len(n: nat) -> bool {
    n == 16 || n == 24 || n == 32
}

impl Cipher {
    /// The key that the cipher was made with.
    pub closed spec fn key(&self) -> Seq<u8> {
        match self.aes {
            AesType::Aes128(k) => k@,
            AesType::Aes192(k) => k@,
            AesType::Aes256(k) => k@,
        }
    }

    pub closed spec fn wf(&self) -> bool {
        match self.aes {
            AesType::Aes128(k) => k@.len() == 16,
            AesType::Aes192(k) => k@.len() == 24,
            AesType::Aes256(k) => k@.len() == 32,
        }
    }

    pub proof fn lemma_key_len(&self)
        requires
            self.wf(),
        ensures
            valid_key_len(self.key().len()),
    {
    }

    pub fn new(key: &[u8]) -> (r: Result<Cipher>)
        ensures
            r is Ok <==> valid_key_len(key@.len()),
            r matches Ok(c) ==> c.wf() && c.key() == key@,
            r matches Err(e) ==> e.kind == ErrorKind::InvalidKeyLength,
    {
        let k = copy_bytes(key);
        if key.len() == 16 {
            Ok(Cipher { aes: AesType::Aes128(k) })
        } else if key.len() == 24 {
            Ok(Cipher { aes: AesType::Aes192(k) })
        } else if key.len() == 32 {
            Ok(Cipher { aes: AesType::Aes256(k) })
        } else {
            Err(Error::new(ErrorKind::InvalidKeyLength))
        }
    }

    /// CBC encryption of whole blocks with a zero IV.
    pub fn cbc_encrypt(&self, src: &[u8]) -> (r: Vec<u8>)
        requires
            self.wf(),
            src@.len() % 16 == 0,
        ensures
            is_cbc_output(self.key(), src@, r@),
    {
        let r = match &self.aes {
            AesType::Aes128(k) => cbc_aes128(k.as_slice(), src),
            AesType::Aes192(k) => cbc_aes192(k.as_slice(), src),
            AesType::Aes256(k) => cbc_aes256(k.as_slice(), src),
        };
        proof {
            lemma_cbc_output(self.key(), src@, r@);
        }
        r
    }

    /// Encrypts the first block of `src` into the first block of `dst`.
    pub fn encrypt_block(&self, src: &[u8], dst: &mut [u8])
        requires
            self.wf(),
            src@.len() >= 16,
            old(dst)@.len() >= 16,
        ensures
            final(dst)@.len() == old(dst)@.len(),
            final(dst)@.subrange(0, 16) == aes_block(self.key(), src@.subrange(0, 16)),
            final(dst)@.subrange(16, final(dst)@.len() as int) == old(dst)@.subrange(
                16,
                old(dst)@.len() as int,
            ),
    {
        let mut blk: Vec<u8> = Vec::new();
        let mut i: usize = 0;
        while i < 16
            invariant
                i <= 16,
                src@.len() >= 16,
                blk@ =~= src@.subrange(0, i as int),
            decreases 16 - i,
        {
            blk.push(src[i]);
            i = i + 1;
        }
        let out = self.cbc_encrypt(blk.as_slice());
        proof {
            assert(blk@ =~= src@.subrange(0, 16));
            assert(block_of(out@, 0) == cbc_chain(self.key(), blk@, 1));
            assert(cbc_chain(self.key(), blk@, 1) == aes_block(
                self.key(),
                xor_block(block_of(blk@, 0), cbc_chain(self.key(), blk@, 0)),
            ));
            assert(xor_block(block_of(blk@, 0), zeros(16)) =~= blk@) by {
                assert forall|x: u8| x ^ 0u8 == x by {
                    assert(x ^ 0u8 == x) by (bit_vector);
                }
            }
        }
        let ghost d0 = dst@;
        let mut j: usize = 0;
        while j < 16
            invariant
                j <= 16,
                out@.len() == 16,
                dst@.len() == d0.len(),
                d0.len() >= 16,
                forall|t: int| 0 <= t < j ==> dst@[t] == out@[t],
                forall|t: int| 16 <= t < d0.len() ==> dst@[t] == d0[t],
            decreases 16 - j,
        {
            dst[j] = out[j];
            j = j + 1;
        }
        assert(dst@.subrange(0, 16) =~= block_of(out@, 0));
        assert(dst@.subrange(16, dst@.len() as int) =~= d0.subrange(16, d0.len() as int));
    }

    pub fn block_size(&self) -> (r: usize)
        ensures
            r == 16,
    {
        16
    }
}

} // verus!
