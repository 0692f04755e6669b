//! Algorithms that prevent third parties or the public from reading private messages.

use vstd::prelude::*;

verus! {

/// AEAD nonce prefix
pub const AEAD_NONCE_LEN: usize = 12;

/// AEAD tag suffix
pub const AEAD_TAG_LEN: usize = 16;

/// Maximum hash length
pub const MAX_HASH_LEN: usize = 48;

/// Maximum public key length
pub const MAX_PK_LEN: usize = 97;

/// A source of cryptographically secure random bytes.
pub trait CryptoRng: Sized {
    /// Whether a call of [`Self::u8_16`] that took the generator from `prev` to `next` may have
    /// produced `bytes`. An implementation may say what it produces; by default it may produce
    /// anything.
    open spec fn produces(prev: Self, next: Self, bytes: [u8; 16]) -> bool {
        true
    }

    /// Sixteen random bytes.
    fn u8_16(&mut self) -> (r: [u8; 16])
        ensures
            Self::produces(*old(self), *final(self), r),
    ;
}

/// A wrapper around external structures that don't implement `AsRef<[u8]>`.
pub struct AsRefWrapper<T>(pub T);

/// The nonce made of the first [`AEAD_NONCE_LEN`] bytes of `bytes`.
pub fn aead_nonce_from(bytes: [u8; 16]) -> (r: [u8; AEAD_NONCE_LEN])
    ensures
        r@ == bytes@.take(AEAD_NONCE_LEN as int),
{
    let r = [
        bytes[0],
        bytes[1],
        bytes[2],
        bytes[3],
        bytes[4],
        bytes[5],
        bytes[6],
        bytes[7],
        bytes[8],
        bytes[9],
        bytes[10],
        bytes[11],
    ];
    assert(r@ =~= bytes@.take(AEAD_NONCE_LEN as int));
    r
}

/// AEAD nonce prefix: the first [`AEAD_NONCE_LEN`] of sixteen bytes that `rng` provides.
pub fn gen_aead_nonce<RNG: CryptoRng>(rng: &mut RNG) -> (r: [u8; AEAD_NONCE_LEN])
    ensures
        exists|bytes: [u8; 16]|
            #[trigger] RNG::produces(*old(rng), *final(rng), bytes) && r@ == bytes@.take(
                AEAD_NONCE_LEN as int,
            ),
{
    let bytes = rng.u8_16();
    let r = aead_nonce_from(bytes);
    assert(RNG::produces(*old(rng), *rng, bytes));
    r
}

} // verus!
