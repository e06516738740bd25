//! Password-derived, authenticated file encryption with an encrypted,
//! self-authenticating key store.
use vstd::prelude::*;

pub mod primitives;
pub mod cipher;
pub mod key_store;
pub mod crypt;

use crate::primitives::wipe;

verus! {

/// Number of bytes in one chunk of a protected file.
pub const CHUNK_LEN: usize = 1048576;

/// A 16-byte salt or authentication key; zeroed when released.
pub struct Salt(pub [u8; 16]);

/// Keys used for authentication have the shape of a salt.
pub type AuthKey = Salt;

impl Salt {
    /// The salt holding `raw`, when `raw` is exactly 16 bytes long.
    pub fn from_slice(raw: &[u8]) -> (r: Option<Salt>)
        ensures
            r is Some <==> raw@.len() == 16,
            r matches Some(s) ==> s.0@ == raw@,
    {
        if raw.len() != 16 {
            return None;
        }
        let mut k = [0u8; 16];
        let mut i: usize = 0;
        while i < 16
            invariant
                raw@.len() == 16,
                0 <= i <= 16,
                forall|j: int| 0 <= j < i ==> k@[j] == raw@[j],
            decreases 16 - i,
        {
            k[i] = raw[i];
            i += 1;
        }
        assert(k@ =~= raw@);
        Some(Salt(k))
    }
}

impl Drop for Salt {
    fn drop(&mut self)
        opens_invariants none
        no_unwind
    {
        wipe(&mut self.0);
    }
}

/// A 64-byte digest: a Keccak-512 or BLAKE2b-512 tag; zeroed when released.
pub struct KTag(pub [u8; 64]);

impl KTag {
    /// The tag holding `raw`, when `raw` is exactly 64 bytes long.
    pub fn from_slice(raw: &[u8]) -> (r: Option<KTag>)
        ensures
            r is Some <==> raw@.len() == 64,
            r matches Some(t) ==> t.0@ == raw@,
    {
        if raw.len() != 64 {
            return None;
        }
        let mut k = [0u8; 64];
        copy_into(&mut k, 0, raw, 0, 64);
        assert(k@ =~= raw@);
        Some(KTag(k))
    }
}

impl Drop for KTag {
    fn drop(&mut self)
        opens_invariants none
        no_unwind
    {
        wipe(&mut self.0);
    }
}

/// `dst` with the `n` bytes from `at` on replaced by `src`.
pub open spec fn overwrite(dst: Seq<u8>, at: int, src: Seq<u8>) -> Seq<u8> {
    dst.subrange(0, at) + src + dst.subrange(at + src.len(), dst.len() as int)
}

/// Copies `src[src_off..src_off + n]` over `dst[dst_off..dst_off + n]`.
pub(crate) fn copy_into(dst: &mut [u8], dst_off: usize, src: &[u8], src_off: usize, n: usize)
    requires
        dst_off + n <= old(dst)@.len(),
        src_off + n <= src@.len(),
    ensures
        final(dst)@ == overwrite(old(dst)@, dst_off as int, src@.subrange(src_off as int, src_off + n)),
{
    let dst_len = dst.len();
    let src_len = src.len();
    let mut i: usize = 0;
    while i < n
        invariant
            dst_len == dst@.len(),
            src_len == src@.len(),
            dst_off + n <= dst_len,
            src_off + n <= src_len,
            0 <= i <= n,
            dst@.len() == old(dst)@.len(),
            forall|j: int| 0 <= j < dst@.len() && !(dst_off <= j < dst_off + i) ==> dst@[j] == old(dst)@[j],
            forall|j: int| dst_off <= j < dst_off + i ==> dst@[j] == src@[src_off + j - dst_off],
        decreases n - i,
    {
        dst[dst_off + i] = src[src_off + i];
        i += 1;
    }
    assert(dst@ =~= overwrite(old(dst)@, dst_off as int, src@.subrange(src_off as int, src_off + n)));
}

} // verus!
