//! The session cryptography of the protocol: ECDH P-256 key agreement with
//! a salted SHA-512 key derivation, AES-128-CBC for payload confidentiality,
//! and HMAC-SHA-256 for whole-datagram integrity.
//!
//! The outside primitives are reached through a small set of trusted
//! wrappers; everything around them — the salting, the key split, the
//! padding policy, signature comparison — is verified.

use vstd::prelude::*;

use crate::bytes::{bytes_eq, read_vec, write_bytes};
use crate::spec_aligned_len;
use crypto::symmetriccipher::{Decryptor, Encryptor};

verus! {

/// A cryptographic failure.
#[derive(Clone, Copy, Debug, PartialEq, Eq, Structural)]
pub enum Error {
    /// The primitive refused its input (a bad key, a bad padding).
    Unspecified,
    /// An output did not fit where it had to go.
    BufferOverflow,
}

// ---------------------------------------------------------------------------
// Names for what the outside primitives return
// ---------------------------------------------------------------------------
/// The AES-128-CBC ciphertext of `plain` (whole blocks, no padding) under
/// `key` and `iv`.
pub uninterp spec fn cbc_enc_of(key: Seq<u8>, iv: Seq<u8>, plain: Seq<u8>) -> Seq<u8>;

/// The HMAC-SHA-256 tag of `data` under `key`.
pub uninterp spec fn hmac_of(key: Seq<u8>, data: Seq<u8>) -> Seq<u8>;

/// The SHA-512 digest of `data`.
pub uninterp spec fn sha512_of(data: Seq<u8>) -> Seq<u8>;

// ---------------------------------------------------------------------------
// Padding policy
// ---------------------------------------------------------------------------
/// The PKCS#7 tail the protocol appends to a plaintext of length `n`:
/// nothing when `n` is block-aligned, else `16 - n % 16` bytes of that value.
pub open spec fn pkcs_tail(n: nat) -> Seq<u8> {
    if n % 16 == 0 {
        Seq::empty()
    } else {
        Seq::new((16 - n % 16) as nat, |i: int| (16 - n % 16) as u8)
    }
}

/// A plaintext carried to a whole number of blocks under the protocol's
/// padding policy.
pub open spec fn pad16(p: Seq<u8>) -> Seq<u8> {
    p + pkcs_tail(p.len())
}

/// Sixteen zero bytes, the IV of the per-message IV derivation.
pub open spec fn zero16() -> Seq<u8> {
    Seq::new(16, |i: int| 0u8)
}

/// The padded form has the aligned length, which is a multiple of 16.
pub proof fn lemma_pad16(p: Seq<u8>)
    ensures
        pad16(p).len() == spec_aligned_len(p.len()),
        spec_aligned_len(p.len()) % 16 == 0,
        p.len() % 16 == 0 ==> pad16(p) == p,
{
    if p.len() % 16 == 0 {
        assert(pad16(p) =~= p);
    }
}

// ---------------------------------------------------------------------------
// Trusted wrappers
// ---------------------------------------------------------------------------
/// Relies on `crypto::aes::cbc_encryptor` with `NoPadding`: on a key of 16
/// bytes and a block-aligned input it fills an equally long output and
/// cannot fail.
#[verifier::external_body]
pub(crate) fn aes_cbc_enc(key: &[u8; 16], iv: &[u8], plain: &[u8]) -> (r: Vec<u8>)
    requires
        iv@.len() == 16,
        plain@.len() % 16 == 0,
    ensures
        r@ == cbc_enc_of(key@, iv@, plain@),
        r@.len() == plain@.len(),
{
    let mut out = vec![0u8; plain.len()];
    let mut enc = crypto::aes::cbc_encryptor(
        crypto::aes::KeySize::KeySize128,
        key,
        iv,
        crypto::blockmodes::NoPadding,
    );
    let mut rb = crypto::buffer::RefReadBuffer::new(plain);
    let mut wb = crypto::buffer::RefWriteBuffer::new(&mut out);
    let _ = enc.encrypt(&mut rb, &mut wb, true);
    out
}

/// Relies on `crypto::aes::cbc_decryptor` with `NoPadding` being the exact
/// inverse of the encryptor under the same key and IV: the result is the
/// one block-aligned plaintext whose encryption is the input.
#[verifier::external_body]
pub(crate) fn aes_cbc_dec(key: &[u8; 16], iv: &[u8], cipher: &[u8]) -> (r: Vec<u8>)
    requires
        iv@.len() == 16,
        cipher@.len() % 16 == 0,
    ensures
        r@.len() == cipher@.len(),
        cipher@ == cbc_enc_of(key@, iv@, r@),
        forall|p: Seq<u8>| cipher@ == cbc_enc_of(key@, iv@, p) ==> p == r@,
{
    let mut out = vec![0u8; cipher.len()];
    let mut dec = crypto::aes::cbc_decryptor(
        crypto::aes::KeySize::KeySize128,
        key,
        iv,
        crypto::blockmodes::NoPadding,
    );
    let mut rb = crypto::buffer::RefReadBuffer::new(cipher);
    let mut wb = crypto::buffer::RefWriteBuffer::new(&mut out);
    let _ = dec.decrypt(&mut rb, &mut wb, true);
    out
}

/// Relies on `ring::hmac::sign` with `HMAC_SHA256`: a 32-byte tag that is a
/// function of the key and the data alone.
#[verifier::external_body]
pub(crate) fn hmac_sha256(key: &[u8; 32], data: &[u8]) -> (r: Vec<u8>)
    ensures
        r@ == hmac_of(key@, data@),
        r@.len() == 32,
{
    let k = ring::hmac::Key::new(ring::hmac::HMAC_SHA256, key);
    ring::hmac::sign(&k, data).as_ref().to_vec()
}

/// Relies on `ring::digest::digest` with `SHA512`: a 64-byte digest that is
/// a function of the data alone.
#[verifier::external_body]
pub(crate) fn sha512(data: &[u8]) -> (r: Vec<u8>)
    ensures
        r@ == sha512_of(data@),
        r@.len() == 64,
{
    ring::digest::digest(&ring::digest::SHA512, data).as_ref().to_vec()
}

/// Relies on `ring::agreement`: an ephemeral P-256 key is generated from the
/// system's randomness and agreed against the foreign public key.  On
/// success the own public key is the 65-byte uncompressed point and the
/// shared secret is its 32-byte x-coordinate; nothing else can be said of
/// values that depend on fresh randomness.
#[verifier::external_body]
pub(crate) fn ecdh_p256(foreign: &[u8]) -> (r: Result<(Vec<u8>, Vec<u8>), Error>)
    ensures
        r matches Ok(p) ==> p.0@.len() == 65 && p.1@.len() == 32,
        r matches Err(e) ==> e == Error::Unspecified,
{
    let rng = ring::rand::SystemRandom::new();
    let alg = &ring::agreement::ECDH_P256;
    let private = ring::agreement::EphemeralPrivateKey::generate(alg, &rng)
        .map_err(|_| Error::Unspecified)?;
    let own_pub = private.compute_public_key().map_err(|_| Error::Unspecified)?;
    let peer = ring::agreement::UnparsedPublicKey::new(alg, foreign);
    let secret = ring::agreement::agree_ephemeral(private, &peer, |z| z.to_vec())
        .map_err(|_| Error::Unspecified)?;
    Ok((own_pub.as_ref().to_vec(), secret))
}

// ---------------------------------------------------------------------------
// Salts
// ---------------------------------------------------------------------------
/// A salt applied to the shared secret before hashing.
pub enum Salt {
    Prepend(Vec<u8>),
    Append(Vec<u8>),
}

impl Salt {
    /// The salted form of `data`.
    pub fn apply(&self, data: &Vec<u8>) -> (r: Vec<u8>)
        ensures
            self matches Salt::Prepend(s) ==> r@ == s@ + data@,
            self matches Salt::Append(s) ==> r@ == data@ + s@,
    {
        let mut out: Vec<u8> = Vec::new();
        match *self {
            Salt::Prepend(ref salt) => {
                write_bytes(&mut out, salt.as_slice());
                write_bytes(&mut out, data.as_slice());
            },
            Salt::Append(ref salt) => {
                write_bytes(&mut out, data.as_slice());
                write_bytes(&mut out, salt.as_slice());
            },
        }
        out
    }
}

/// The prepended salt of the key derivation.
pub open spec fn salt_prefix() -> Seq<u8> {
    seq![0xD6u8, 0x37u8, 0xF1u8, 0xAAu8, 0xE2u8, 0xF0u8, 0x41u8, 0x8Cu8]
}

/// The appended salt of the key derivation.
pub open spec fn salt_suffix() -> Seq<u8> {
    seq![0xA8u8, 0xF8u8, 0x1Au8, 0x57u8, 0x4Eu8, 0x22u8, 0x8Au8, 0xB7u8]
}

/// The salted shared secret that is hashed into key material.
pub open spec fn salted(z: Seq<u8>) -> Seq<u8> {
    salt_prefix() + z + salt_suffix()
}

// ---------------------------------------------------------------------------
// Crypto
// ---------------------------------------------------------------------------
/// The key material of one session.
pub struct Crypto {
    pub_key: [u8; 64],
    aes_key: [u8; 16],
    iv_key: [u8; 16],
    hmac_key: [u8; 32],
}

/// The mathematical image of the key material.
pub ghost struct CryptoModel {
    pub pub_key: Seq<u8>,
    pub aes: Seq<u8>,
    pub iv: Seq<u8>,
    pub hmac: Seq<u8>,
}

impl View for Crypto {
    type V = CryptoModel;

    closed spec fn view(&self) -> CryptoModel {
        CryptoModel {
            pub_key: self.pub_key@,
            aes: self.aes_key@,
            iv: self.iv_key@,
            hmac: self.hmac_key@,
        }
    }
}

/// The three subkeys are the split SHA-512 digest of the salted secret `z`.
pub open spec fn keys_from(c: CryptoModel, z: Seq<u8>) -> bool {
    &&& c.aes == sha512_of(salted(z)).subrange(0, 16)
    &&& c.iv == sha512_of(salted(z)).subrange(16, 32)
    &&& c.hmac == sha512_of(salted(z)).subrange(32, 64)
}

/// The sizes every `Crypto` value has.
pub open spec fn crypto_wf(c: CryptoModel) -> bool {
    c.pub_key.len() == 64 && c.aes.len() == 16 && c.iv.len() == 16 && c.hmac.len() == 32
}

/// Copies `n` bytes of `src` starting at `from` into a fresh array.
fn take_arr<const N: usize>(src: &Vec<u8>, from: usize) -> (r: [u8; N])
    requires
        from + N <= src@.len(),
    ensures
        r@ =~= src@.subrange(from as int, from + N),
{
    let srclen: usize = src.len();
    let mut out: [u8; N] = [0u8; N];
    let mut i: usize = 0;
    while i < N
        invariant
            i <= N,
            from + N <= srclen,
            srclen == src@.len(),
            forall|k: int| 0 <= k < i ==> out@[k] == src@[from + k],
        decreases N - i,
    {
        out[i] = src[from + i];
        i = i + 1;
    }
    out
}

/// Builds the canonical padding tail for a plaintext of length `len`.
fn make_pad(len: usize) -> (r: Vec<u8>)
    requires
        len + 16 <= usize::MAX,
    ensures
        r@ =~= pkcs_tail(len as nat),
{
    let mut out: Vec<u8> = Vec::new();
    let rem = len % 16;
    if rem != 0 {
        let k: u8 = (16 - rem) as u8;
        let mut i: usize = 0;
        while i < 16 - rem
            invariant
                i <= 16 - rem,
                rem == len % 16,
                rem != 0,
                k == 16 - rem,
                out@ =~= Seq::new(i as nat, |m: int| k),
            decreases 16 - rem - i,
        {
            out.push(k);
            proof {
                assert(Seq::new((i + 1) as nat, |m: int| k) =~= Seq::new(i as nat, |m: int| k).push(
                    k,
                ));
            }
            i = i + 1;
        }
    }
    out
}

impl Crypto {
    /// Establishes key material against the console's public key: an
    /// ephemeral ECDH P-256 agreement, then the salted SHA-512 derivation.
    /// Fails when the foreign key is not a valid P-256 point.
    pub fn new(foreign_public_key: &[u8]) -> (r: Result<Crypto, Error>)
        ensures
            r matches Ok(c) ==> crypto_wf(c@) && (exists|z: Seq<u8>|
                z.len() == 32 && #[trigger] keys_from(c@, z)),
            r matches Err(e) ==> e == Error::Unspecified,
    {
        let (own_pub, secret) = match ecdh_p256(foreign_public_key) {
            Ok(v) => v,
            Err(e) => {
                return Err(e);
            },
        };
        let ghost z = secret@;
        let mut prefix: Vec<u8> = Vec::new();
        write_bytes(&mut prefix, [0xD6u8, 0x37, 0xF1, 0xAA, 0xE2, 0xF0, 0x41, 0x8C].as_slice());
        let mut suffix: Vec<u8> = Vec::new();
        write_bytes(&mut suffix, [0xA8u8, 0xF8, 0x1A, 0x57, 0x4E, 0x22, 0x8A, 0xB7].as_slice());
        let prepend_salt = Salt::Prepend(prefix);
        let append_salt = Salt::Append(suffix);
        let mut salted_secret = secret;
        salted_secret = prepend_salt.apply(&salted_secret);
        salted_secret = append_salt.apply(&salted_secret);
        proof {
            assert(salted_secret@ =~= salted(z));
        }
        let derived = sha512(salted_secret.as_slice());
        let c = Crypto {
            pub_key: take_arr::<64>(&own_pub, 1),
            aes_key: take_arr::<16>(&derived, 0),
            iv_key: take_arr::<16>(&derived, 16),
            hmac_key: take_arr::<32>(&derived, 32),
        };
        proof {
            assert(keys_from(c@, z));
        }
        Ok(c)
    }

    /// The own ephemeral public key: 64 bytes, leading tag stripped.
    pub fn public_key(&self) -> (r: &[u8; 64])
        ensures
            r@ == self@.pub_key,
    {
        &self.pub_key
    }

    /// Number of bytes a ciphertext occupies for a plaintext of length
    /// `len`: `len` itself when block-aligned, the next multiple of 16
    /// otherwise.
    pub fn aligned_len(len: usize) -> (r: usize)
        requires
            len + 16 <= usize::MAX,
        ensures
            r == spec_aligned_len(len as nat),
    {
        if len % 16 == 0 {
            len
        } else {
            len + (16 - len % 16)
        }
    }

    /// Encrypts a plaintext under the session AES key: block-aligned input
    /// goes through unpadded, anything else with a PKCS#7 tail.
    pub fn encrypt(&self, iv: &[u8], plaintext: &[u8]) -> (r: Result<Vec<u8>, Error>)
        requires
            iv@.len() == 16,
            plaintext@.len() + 16 <= usize::MAX,
        ensures
            r is Ok,
            r matches Ok(c) ==> c@ == cbc_enc_of(self@.aes, iv@, pad16(plaintext@)) && c@.len()
                == spec_aligned_len(plaintext@.len()),
    {
        let mut padded: Vec<u8> = Vec::new();
        write_bytes(&mut padded, plaintext);
        let rem = plaintext.len() % 16;
        if rem != 0 {
            let k: u8 = (16 - rem) as u8;
            let mut i: usize = 0;
            while i < 16 - rem
                invariant
                    i <= 16 - rem,
                    rem == plaintext@.len() % 16,
                    rem != 0,
                    k == 16 - rem,
                    padded@ =~= plaintext@ + Seq::new(i as nat, |m: int| k),
                decreases 16 - rem - i,
            {
                padded.push(k);
                proof {
                    assert(plaintext@ + Seq::new((i + 1) as nat, |m: int| k) =~= (plaintext@
                        + Seq::new(i as nat, |m: int| k)).push(k));
                }
                i = i + 1;
            }
        }
        proof {
            assert(padded@ =~= pad16(plaintext@));
            lemma_pad16(plaintext@);
        }
        Ok(aes_cbc_enc(&self.aes_key, iv, padded.as_slice()))
    }

    /// Decrypts a ciphertext under the session AES key and hands back the
    /// `len` plaintext bytes the header announced.  The padding the sender
    /// had to use — none when `len` is block-aligned, canonical PKCS#7
    /// otherwise — is checked and stripped by length, not by trusting the
    /// padding byte.
    pub fn decrypt(&self, iv: &[u8], ciphertext: &[u8], len: usize) -> (r: Result<Vec<u8>, Error>)
        requires
            iv@.len() == 16,
            len + 16 <= usize::MAX,
        ensures
            r matches Ok(p) ==> p@.len() == len && ciphertext@.len() == spec_aligned_len(
                len as nat,
            ) && ciphertext@ == cbc_enc_of(self@.aes, iv@, pad16(p@)),
            forall|q: Seq<u8>|
                (q.len() == len && ciphertext@.len() == spec_aligned_len(len as nat) && ciphertext@
                    == cbc_enc_of(self@.aes, iv@, #[trigger] pad16(q))) ==> (r matches Ok(p) && p@
                    == q),
            r matches Err(e) ==> e == Error::Unspecified,
    {
        let aligned = Crypto::aligned_len(len);
        if ciphertext.len() != aligned {
            proof {
                lemma_pad16(Seq::new(len as nat, |i: int| 0u8));
            }
            return Err(Error::Unspecified);
        }
        proof {
            assert(spec_aligned_len(len as nat) % 16 == 0) by {
                lemma_pad16(Seq::new(len as nat, |i: int| 0u8));
            }
        }
        let raw = aes_cbc_dec(&self.aes_key, iv, ciphertext);
        let (tail, _end) = match read_vec(raw.as_slice(), len, aligned - len) {
            Ok(v) => v,
            Err(_) => {
                proof {
                    lemma_pad16(Seq::new(len as nat, |i: int| 0u8));
                }
                return Err(Error::Unspecified);
            },
        };
        let expected_tail = make_pad(len);
        if !bytes_eq(tail.as_slice(), expected_tail.as_slice()) {
            proof {
                assert forall|q: Seq<u8>|
                    (q.len() == len && ciphertext@.len() == spec_aligned_len(len as nat)
                        && ciphertext@ == cbc_enc_of(self@.aes, iv@, #[trigger] pad16(q)))
                    implies false by {
                    assert(pad16(q) == raw@);
                    lemma_pad16(q);
                    crate::bytes::lemma_split(pad16(q), q, pkcs_tail(q.len()));
                    assert(tail@ =~= pkcs_tail(q.len()));
                }
            }
            return Err(Error::Unspecified);
        }
        let p = match read_vec(raw.as_slice(), 0, len) {
            Ok(v) => v.0,
            Err(_) => {
                return Err(Error::Unspecified);
            },
        };
        proof {
            assert(pad16(p@) =~= raw@);
            assert forall|q: Seq<u8>|
                (q.len() == len && ciphertext@.len() == spec_aligned_len(len as nat) && ciphertext@
                    == cbc_enc_of(self@.aes, iv@, #[trigger] pad16(q))) implies q == p@ by {
                assert(pad16(q) == raw@);
                lemma_pad16(q);
                crate::bytes::lemma_split(pad16(q), q, pkcs_tail(q.len()));
            }
        }
        Ok(p)
    }

    /// Derives the per-message IV: the first header block encrypted under
    /// the IV key with a zero IV.
    pub fn generate_iv(&self, plaintext: &[u8]) -> (r: Result<Vec<u8>, Error>)
        requires
            plaintext@.len() % 16 == 0,
        ensures
            r is Ok,
            r matches Ok(c) ==> c@ == cbc_enc_of(self@.iv, zero16(), plaintext@) && c@.len()
                == plaintext@.len(),
    {
        let z = [0u8; 16];
        proof {
            assert(z@ =~= zero16());
        }
        Ok(aes_cbc_enc(&self.iv_key, z.as_slice(), plaintext))
    }

    /// Signs `data` with the session HMAC key.
    pub fn sign(&self, data: &[u8]) -> (r: Vec<u8>)
        ensures
            r@ == hmac_of(self@.hmac, data@),
            r@.len() == 32,
    {
        hmac_sha256(&self.hmac_key, data)
    }

    /// Verifies that `signature` is the HMAC of `data`; succeeds exactly
    /// when it is.
    pub fn verify(&self, data: &[u8], signature: &[u8]) -> (r: Result<(), Error>)
        ensures
            r is Ok <==> signature@ == hmac_of(self@.hmac, data@),
            r matches Err(e) ==> e == Error::Unspecified,
    {
        let expected = hmac_sha256(&self.hmac_key, data);
        if bytes_eq(expected.as_slice(), signature) {
            Ok(())
        } else {
            Err(Error::Unspecified)
        }
    }
}

/// Builds key material directly from a known 64-byte secret, for loading
/// recorded sessions: the secret splits into the AES, IV and HMAC keys.
pub fn from_secret(secret: &[u8]) -> (r: Crypto)
    requires
        secret@.len() == 64,
    ensures
        crypto_wf(r@),
        r@.aes == secret@.subrange(0, 16),
        r@.iv == secret@.subrange(16, 32),
        r@.hmac == secret@.subrange(32, 64),
{
    let mut v: Vec<u8> = Vec::new();
    write_bytes(&mut v, secret);
    Crypto {
        pub_key: [0u8; 64],
        aes_key: take_arr::<16>(&v, 0),
        iv_key: take_arr::<16>(&v, 16),
        hmac_key: take_arr::<32>(&v, 32),
    }
}

} // verus!
