pub mod bytes;
pub mod constants;
pub mod serialize;
pub mod crypto;
pub mod packet;
pub mod sgcrypto;
pub mod state;
pub mod util;

use vstd::prelude::*;

verus! {

/// Number of bytes an AES-128-CBC ciphertext occupies for a plaintext of
/// length `n`: `n` itself when `n` is a multiple of the block size, and the
/// next multiple of 16 otherwise.
pub open spec fn spec_aligned_len(n: nat) -> nat {
    if n % 16 == 0 {
        n
    } else {
        (n + (16 - n % 16)) as nat
    }
}


/// The aligned length is the input itself or the input carried to the next
/// multiple of 16, and it is always a multiple of 16.
pub proof fn lemma_aligned_len(n: nat)
    ensures
        spec_aligned_len(n) == n || spec_aligned_len(n) == n + (16 - n % 16),
        spec_aligned_len(n) % 16 == 0,
{
}

} // verus!
