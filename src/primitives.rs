//! Cryptographic primitives the library builds on, each behind a small
//! trusted wrapper whose contract states what the underlying crate computes.
use vstd::prelude::*;
use chacha20::cipher::{KeyIvInit, StreamCipher, StreamCipherSeek};
use subtle::ConstantTimeEq;
use zeroize::Zeroize;

verus! {

/// Number of 64-byte keystream blocks that one (key, nonce) pair can address.
pub const STREAM_BLOCKS: u64 = 4294967295;

/// Byte `pos` of the XChaCha20 keystream under `key` and `nonce`.
pub uninterp spec fn xchacha20_keystream(key: Seq<u8>, nonce: Seq<u8>, pos: int) -> u8;

/// Keccak-512 digest of `msg` (64 bytes).
pub uninterp spec fn keccak512_digest(msg: Seq<u8>) -> Seq<u8>;

/// BLAKE2b digest of `msg` under `key`, with a 64-byte output.
pub uninterp spec fn blake2b_512_keyed(key: Seq<u8>, msg: Seq<u8>) -> Seq<u8>;

/// Raw Argon2id (version 0x13) output for the given password, salt and costs.
pub uninterp spec fn argon2id_raw(
    pass: Seq<u8>,
    salt: Seq<u8>,
    mem_kib: u32,
    time_cost: u32,
    lanes: u32,
    hash_length: u32,
) -> Seq<u8>;

/// `data` XORed with the keystream, starting at keystream byte `start`.
pub open spec fn stream_xor(key: Seq<u8>, nonce: Seq<u8>, start: int, data: Seq<u8>) -> Seq<u8> {
    Seq::new(data.len(), |j: int| data[j] ^ xchacha20_keystream(key, nonce, start + j))
}

/// XORing the same keystream twice gives the input back.
pub proof fn lemma_stream_xor_involutive(key: Seq<u8>, nonce: Seq<u8>, start: int, data: Seq<u8>)
    ensures
        stream_xor(key, nonce, start, stream_xor(key, nonce, start, data)) == data,
{
    let once = stream_xor(key, nonce, start, data);
    let twice = stream_xor(key, nonce, start, once);
    assert forall|j: int| 0 <= j < data.len() implies twice[j] == data[j] by {
        let a = data[j];
        let k = xchacha20_keystream(key, nonce, start + j);
        assert((a ^ k) ^ k == a) by (bit_vector);
    }
    assert(twice =~= data);
}

#[verifier::external_type_specification]
#[verifier::external_body]
pub struct ExArgon2Error(argon2::Error);

#[verifier::external_type_specification]
#[verifier::external_body]
pub struct ExRandomError(getrandom::Error);

/// Relies on chacha20's `XChaCha20` (`seek`, then `apply_keystream`): XORs `buf`
/// in place with the keystream from byte `pos` on, as libsodium's
/// `crypto_stream_xchacha20_xor_ic` does from block `pos / 64`.
#[verifier::external_body]
pub(crate) fn xor_keystream(buf: &mut [u8], nonce: &[u8; 24], pos: u64, key: &[u8; 32])
    requires
        pos % 64 == 0,
        pos + old(buf)@.len() <= STREAM_BLOCKS * 64,
    ensures
        final(buf)@.len() == old(buf)@.len(),
        forall|j: int|
            0 <= j < old(buf)@.len() ==> #[trigger] final(buf)@[j] == (old(buf)@[j]
                ^ xchacha20_keystream(key@, nonce@, pos + j)),
{
    let mut stream = chacha20::XChaCha20::new(chacha20::Key::from_slice(key), chacha20::XNonce::from_slice(nonce));
    stream.seek(pos);
    stream.apply_keystream(buf);
}

/// Relies on `tiny_keccak::keccak512`: the Keccak-512 digest of `msg`.
#[verifier::external_body]
pub(crate) fn keccak512(msg: &[u8]) -> (r: [u8; 64])
    ensures
        r@ == keccak512_digest(msg@),
{
    tiny_keccak::keccak512(msg)
}

/// Relies on `blake2_rfc::blake2b::blake2b` with a 64-byte output: the keyed digest of `msg`.
#[verifier::external_body]
pub(crate) fn blake2b_keyed(key: &[u8], msg: &[u8]) -> (r: [u8; 64])
    requires
        key@.len() <= 64,
    ensures
        r@ == blake2b_512_keyed(key@, msg@),
{
    let mut r = [0u8; 64];
    r.copy_from_slice(blake2_rfc::blake2b::blake2b(64, key, msg).as_bytes());
    r
}

/// Relies on `argon2::hash_raw` with the Argon2id variant, version 0x13 and
/// no secret or associated data: on success, `hash_length` bytes derived from
/// the password and salt. Its parameter checks (`Context::new`) accept every
/// call whose lanes, memory, passes, output length, salt and password lie in
/// the ranges below; the memory bound is the smaller of the two the crate
/// sets for 32- and 64-bit targets.
#[verifier::external_body]
pub(crate) fn argon2id_hash(pass: &[u8], salt: &[u8], mem_kib: u32, time_cost: u32, lanes: u32, hash_length: u32) -> (r: Result<Vec<u8>, argon2::Error>)
    ensures
        r is Ok ==> r->Ok_0@ == argon2id_raw(pass@, salt@, mem_kib, time_cost, lanes, hash_length),
        r is Ok ==> r->Ok_0@.len() == hash_length,
        1 <= lanes <= 0xFF_FFFF && 8 <= mem_kib <= 0x20_0000 && 8 * lanes <= mem_kib && time_cost >= 1
            && hash_length >= 4 && 8 <= salt@.len() <= 0xFFFF_FFFF && pass@.len() <= 0xFFFF_FFFF
            ==> r is Ok,
{
    let config = argon2::Config {
        ad: &[],
        hash_length,
        lanes,
        mem_cost: mem_kib,
        secret: &[],
        thread_mode: argon2::ThreadMode::Parallel,
        time_cost,
        variant: argon2::Variant::Argon2id,
        version: argon2::Version::Version13,
    };
    argon2::hash_raw(pass, salt, &config)
}

/// Relies on subtle's `ConstantTimeEq` for byte slices: true exactly when both
/// slices have the same length and the same bytes.
#[verifier::external_body]
pub(crate) fn ct_equal(a: &[u8], b: &[u8]) -> (r: bool)
    ensures
        r == (a@ == b@),
{
    a.ct_eq(b).into()
}

/// Relies on zeroize's `Zeroize` for byte slices: every byte is overwritten
/// with zero by volatile writes.
#[verifier::external_body]
pub(crate) fn wipe(buf: &mut [u8])
    ensures
        final(buf)@ == Seq::new(old(buf)@.len(), |i: int| 0u8),
    opens_invariants none
    no_unwind
{
    buf.zeroize();
}

/// Relies on `getrandom::getrandom`: sixteen bytes from the operating
/// system's random source, or its error.
#[verifier::external_body]
pub(crate) fn random_16() -> (r: Result<[u8; 16], getrandom::Error>)
{
    let mut b = [0u8; 16];
    match getrandom::getrandom(&mut b) {
        Ok(()) => Ok(b),
        Err(e) => Err(e),
    }
}

} // verus!
