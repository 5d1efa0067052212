//! The primitives this library takes from other crates: the content hash,
//! the random stream for fresh message ids, and hex encoding.
use crate::id::Id;
use vstd::prelude::*;

verus! {

#[verifier::external_type_specification]
#[verifier::external_body]
pub struct ExChaCha20Rng(rand_chacha::ChaCha20Rng);

/// The BLAKE2s-256 digest of a byte string.
pub uninterp spec fn blake2s256_of(data: Seq<u8>) -> Seq<u8>;

/// Relies on blake2's `Blake2s256` through `Digest::digest`: the 32-byte digest
/// of `data`, which depends on the bytes alone.
#[verifier::external_body]
pub(crate) fn blake2s256(data: &[u8]) -> (r: Id)
    ensures
        r@ == blake2s256_of(data@),
{
    <blake2::Blake2s256 as blake2::Digest>::digest(data).into()
}

/// Relies on rand_core's `SeedableRng::seed_from_u64` for `ChaCha20Rng`: a
/// generator seeded from one number.
#[verifier::external_body]
pub(crate) fn seeded_rng(seed: u64) -> (r: rand_chacha::ChaCha20Rng) {
    <rand_chacha::ChaCha20Rng as rand::SeedableRng>::seed_from_u64(seed)
}

/// Relies on rand_core's `RngCore::next_u64` for `ChaCha20Rng`: the next number
/// of the stream, which may be any `u64`.
#[verifier::external_body]
pub(crate) fn next_u64(rng: &mut rand_chacha::ChaCha20Rng) -> (r: u64) {
    rand::RngCore::next_u64(rng)
}

/// The lower-case hex digit of a value below 16.
pub open spec fn hex_digit(v: u8) -> char {
    if v < 10 {
        (('0' as u8) + v) as char
    } else {
        (('a' as u8) + (v - 10)) as char
    }
}

/// Two lower-case hex digits per byte, high nibble first.
pub open spec fn hex_of(b: Seq<u8>) -> Seq<char>
    decreases b.len(),
{
    if b.len() == 0 {
        Seq::empty()
    } else {
        hex_of(b.drop_last()).push(hex_digit(b.last() / 16)).push(hex_digit(b.last() % 16))
    }
}

/// Relies on hex's `encode`: two lower-case hex digits for each byte, in order.
#[verifier::external_body]
pub(crate) fn to_hex(b: &[u8]) -> (r: String)
    ensures
        r@ == hex_of(b@),
{
    hex::encode(b)
}

} // verus!
