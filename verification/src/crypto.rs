//! A plain AES-128-CBC/HMAC-SHA-256 engine over the same key derivation as
//! the session engine.  Unlike `sgcrypto`, this one always applies PKCS#7
//! padding — a block-aligned plaintext gains one full padding block — and
//! strips padding by the padding byte on decryption.

use vstd::prelude::*;

use crate::bytes::{bytes_eq, read_vec, write_bytes};
use crate::sgcrypto::{
    aes_cbc_dec, aes_cbc_enc, cbc_enc_of, ecdh_p256, hmac_of, hmac_sha256, salted, sha512, Error,
};

verus! {

/// A salt applied to data before hashing.
pub enum Salt {
    Prepend(Vec<u8>),
    Append(Vec<u8>),
}

impl Salt {
    /// The salted form of `data`.
    pub fn apply(&self, data: &Vec<u8>) -> (r: Vec<u8>)
        ensures
            self matches Salt::Prepend(s) ==> r@ == s@ + data@,
            self matches Salt::Append(s) ==> r@ == data@ + s@,
    {
        let mut out: Vec<u8> = Vec::new();
        match *self {
            Salt::Prepend(ref salt) => {
                write_bytes(&mut out, salt.as_slice());
                write_bytes(&mut out, data.as_slice());
            },
            Salt::Append(ref salt) => {
                write_bytes(&mut out, data.as_slice());
                write_bytes(&mut out, salt.as_slice());
            },
        }
        out
    }
}

/// The PKCS#7 tail for a plaintext of length `n` when padding is always
/// applied: `16 - n % 16` bytes of that value, a full block when aligned.
pub open spec fn pkcs_tail_always(n: nat) -> Seq<u8> {
    Seq::new((16 - n % 16) as nat, |i: int| (16 - n % 16) as u8)
}

/// A plaintext with its unconditional PKCS#7 padding.
pub open spec fn pad_always(p: Seq<u8>) -> Seq<u8> {
    p + pkcs_tail_always(p.len())
}

/// The key material of this engine.
pub struct Crypto {
    pub_key: Vec<u8>,
    aes_key: [u8; 16],
    iv_key: [u8; 16],
    hmac_key: [u8; 32],
}

/// The mathematical image of the key material.
pub ghost struct CryptoKeys {
    pub pub_key: Seq<u8>,
    pub aes: Seq<u8>,
    pub iv: Seq<u8>,
    pub hmac: Seq<u8>,
}

impl View for Crypto {
    type V = CryptoKeys;

    closed spec fn view(&self) -> CryptoKeys {
        CryptoKeys {
            pub_key: self.pub_key@,
            aes: self.aes_key@,
            iv: self.iv_key@,
            hmac: self.hmac_key@,
        }
    }
}

/// Copies `N` bytes of `src` starting at `from` into a fresh array.
fn copy_arr<const N: usize>(src: &Vec<u8>, from: usize) -> (r: [u8; N])
    requires
        from + N <= src@.len(),
    ensures
        r@ =~= src@.subrange(from as int, from + N),
{
    let srclen: usize = src.len();
    let mut out: [u8; N] = [0u8; N];
    let mut i: usize = 0;
    while i < N
        invariant
            i <= N,
            from + N <= srclen,
            srclen == src@.len(),
            forall|k: int| 0 <= k < i ==> out@[k] == src@[from + k],
        decreases N - i,
    {
        out[i] = src[from + i];
        i = i + 1;
    }
    out
}

impl Crypto {
    /// Establishes key material against the console's public key, exactly
    /// as the session engine does.
    pub fn new(foreign_public_key: &[u8]) -> (r: Result<Crypto, Error>)
        ensures
            r matches Ok(c) ==> c@.aes.len() == 16 && c@.iv.len() == 16 && c@.hmac.len() == 32 && (
            exists|z: Seq<u8>|
                #![trigger salted(z)]
                z.len() == 32 && c@.aes == crate::sgcrypto::sha512_of(salted(z)).subrange(0, 16)
                    && c@.iv == crate::sgcrypto::sha512_of(salted(z)).subrange(16, 32) && c@.hmac
                    == crate::sgcrypto::sha512_of(salted(z)).subrange(32, 64)),
            r matches Err(e) ==> e == Error::Unspecified,
    {
        let (own_pub, secret) = match ecdh_p256(foreign_public_key) {
            Ok(v) => v,
            Err(e) => {
                return Err(e);
            },
        };
        let ghost z = secret@;
        let mut prefix: Vec<u8> = Vec::new();
        write_bytes(&mut prefix, [0xD6u8, 0x37, 0xF1, 0xAA, 0xE2, 0xF0, 0x41, 0x8C].as_slice());
        let mut suffix: Vec<u8> = Vec::new();
        write_bytes(&mut suffix, [0xA8u8, 0xF8, 0x1A, 0x57, 0x4E, 0x22, 0x8A, 0xB7].as_slice());
        let prepend_salt = Salt::Prepend(prefix);
        let append_salt = Salt::Append(suffix);
        let mut salted_secret = secret;
        salted_secret = prepend_salt.apply(&salted_secret);
        salted_secret = append_salt.apply(&salted_secret);
        proof {
            assert(salted_secret@ =~= salted(z));
        }
        let derived = sha512(salted_secret.as_slice());
        let c = Crypto {
            pub_key: own_pub,
            aes_key: copy_arr::<16>(&derived, 0),
            iv_key: copy_arr::<16>(&derived, 16),
            hmac_key: copy_arr::<32>(&derived, 32),
        };
        Ok(c)
    }

    /// Number of bytes the always-padded ciphertext of `input` occupies:
    /// the next multiple of 16 strictly above the input length.
    pub fn aligned_len(input: &[u8]) -> (r: usize)
        requires
            input@.len() + 16 <= usize::MAX,
        ensures
            r == input@.len() + (16 - input@.len() % 16),
            r == pad_always(input@).len(),
    {
        input.len() + (16 - input.len() % 16)
    }

    /// Encrypts with unconditional PKCS#7 padding.
    pub fn encrypt(&self, iv: &[u8], plaintext: &[u8]) -> (r: Vec<u8>)
        requires
            iv@.len() == 16,
            plaintext@.len() + 16 <= usize::MAX,
        ensures
            r@ == cbc_enc_of(self@.aes, iv@, pad_always(plaintext@)),
            r@.len() == plaintext@.len() + (16 - plaintext@.len() % 16),
    {
        let mut padded: Vec<u8> = Vec::new();
        write_bytes(&mut padded, plaintext);
        let rem = plaintext.len() % 16;
        let k: u8 = (16 - rem) as u8;
        let mut i: usize = 0;
        while i < 16 - rem
            invariant
                i <= 16 - rem,
                rem == plaintext@.len() % 16,
                k == 16 - rem,
                padded@ =~= plaintext@ + Seq::new(i as nat, |m: int| k),
            decreases 16 - rem - i,
        {
            padded.push(k);
            proof {
                assert(plaintext@ + Seq::new((i + 1) as nat, |m: int| k) =~= (plaintext@ + Seq::new(
                    i as nat,
                    |m: int| k,
                )).push(k));
            }
            i = i + 1;
        }
        proof {
            assert(padded@ =~= pad_always(plaintext@));
        }
        aes_cbc_enc(&self.aes_key, iv, padded.as_slice())
    }

    /// Decrypts and strips PKCS#7 padding, trusting the padding byte; the
    /// padding must be canonical.
    pub fn decrypt(&self, iv: &[u8], ciphertext: &[u8]) -> (r: Result<Vec<u8>, Error>)
        requires
            iv@.len() == 16,
        ensures
            r matches Ok(p) ==> 1 <= ciphertext@.len() - p@.len() <= 16 && ciphertext@
                == cbc_enc_of(
                self@.aes,
                iv@,
                p@ + Seq::new(
                    (ciphertext@.len() - p@.len()) as nat,
                    |i: int| (ciphertext@.len() - p@.len()) as u8,
                ),
            ),
            forall|q: Seq<u8>|
                (ciphertext@.len() == q.len() + (16 - q.len() % 16) && ciphertext@ == cbc_enc_of(
                    self@.aes,
                    iv@,
                    #[trigger] pad_always(q),
                )) ==> (r matches Ok(p) && p@ == q),
            r matches Err(e) ==> e == Error::Unspecified,
    {
        if ciphertext.len() % 16 != 0 || ciphertext.len() == 0 {
            return Err(Error::Unspecified);
        }
        let raw = aes_cbc_dec(&self.aes_key, iv, ciphertext);
        let k = raw[raw.len() - 1];
        if k < 1 || k > 16 {
            proof {
                assert forall|q: Seq<u8>|
                    (ciphertext@.len() == q.len() + (16 - q.len() % 16) && ciphertext@
                        == cbc_enc_of(self@.aes, iv@, #[trigger] pad_always(q))) implies false by {
                    assert(pad_always(q) == raw@);
                    assert(raw@[raw@.len() - 1] == (16 - q.len() % 16) as u8);
                }
            }
            return Err(Error::Unspecified);
        }
        let klen: usize = k as usize;
        let plen: usize = raw.len() - klen;
        let (tail, _end) = match read_vec(raw.as_slice(), plen, klen) {
            Ok(v) => v,
            Err(_) => {
                return Err(Error::Unspecified);
            },
        };
        let mut expected: Vec<u8> = Vec::new();
        let mut i: usize = 0;
        while i < klen
            invariant
                i <= klen,
                expected@ =~= Seq::new(i as nat, |m: int| k),
            decreases klen - i,
        {
            expected.push(k);
            proof {
                assert(Seq::new((i + 1) as nat, |m: int| k) =~= Seq::new(i as nat, |m: int| k).push(
                    k,
                ));
            }
            i = i + 1;
        }
        if !bytes_eq(tail.as_slice(), expected.as_slice()) {
            proof {
                assert forall|q: Seq<u8>|
                    (ciphertext@.len() == q.len() + (16 - q.len() % 16) && ciphertext@
                        == cbc_enc_of(self@.aes, iv@, #[trigger] pad_always(q))) implies false by {
                    assert(pad_always(q) == raw@);
                    assert(raw@[raw@.len() - 1] == (16 - q.len() % 16) as u8);
                    assert(q.len() == plen);
                    assert(tail@ =~= pkcs_tail_always(q.len()));
                }
            }
            return Err(Error::Unspecified);
        }
        let p = match read_vec(raw.as_slice(), 0, plen) {
            Ok(v) => v.0,
            Err(_) => {
                return Err(Error::Unspecified);
            },
        };
        proof {
            assert(raw@ =~= p@ + Seq::new(klen as nat, |i: int| klen as u8));
            assert forall|q: Seq<u8>|
                (ciphertext@.len() == q.len() + (16 - q.len() % 16) && ciphertext@ == cbc_enc_of(
                    self@.aes,
                    iv@,
                    #[trigger] pad_always(q),
                )) implies q == p@ by {
                assert(pad_always(q) == raw@);
                assert(raw@[raw@.len() - 1] == (16 - q.len() % 16) as u8);
                assert(q.len() == plen);
                assert(q =~= p@);
            }
        }
        Ok(p)
    }

    /// Signs `data` with the HMAC key.
    pub fn sign(&self, data: &[u8]) -> (r: Vec<u8>)
        ensures
            r@ == hmac_of(self@.hmac, data@),
            r@.len() == 32,
    {
        hmac_sha256(&self.hmac_key, data)
    }

    /// Whether `signature` is the HMAC of `data`.
    pub fn verify(&self, data: &[u8], signature: &[u8]) -> (r: bool)
        ensures
            r == (signature@ == hmac_of(self@.hmac, data@)),
    {
        let expected = hmac_sha256(&self.hmac_key, data);
        bytes_eq(expected.as_slice(), signature)
    }
}

} // verus!
