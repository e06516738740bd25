//! Key material derived from a passphrase and two salts.
use vstd::prelude::*;
use vstd::string::StringSliceAdditionalSpecFns;

use crate::primitives::{argon2id_hash, argon2id_raw, wipe};
use crate::{copy_into, AuthKey, Salt, CHUNK_LEN};

verus! {

/// Memory cost of the key derivation, in KiB.
pub const KDF_MEM_KIB: u32 = 65536;

/// Number of passes of the key derivation.
pub const KDF_TIME_COST: u32 = 3;

/// Number of lanes of the key derivation.
pub const KDF_LANES: u32 = 2;

/// Length of each raw key-derivation output.
pub const KDF_HASH_LEN: u32 = 64;

/// Shortest accepted passphrase, in bytes.
pub const MIN_PASS_LEN: usize = 16;

/// Shortest accepted salt, in bytes.
pub const MIN_SALT_LEN: usize = 16;

/// Raw key-derivation output for one salt, under the fixed parameters.
pub open spec fn kdf(pass: Seq<u8>, salt: Seq<u8>, mem: u32) -> Seq<u8> {
    argon2id_raw(pass, salt, mem, KDF_TIME_COST, KDF_LANES, KDF_HASH_LEN)
}

/// Stream key and nonce, chunk-authentication key and final-authentication key.
pub struct Cipher {
    pub keys: [u8; 32],
    pub nons: [u8; 24],
    pub auth: AuthKey,
    pub afin: AuthKey,
}

impl Cipher {
    /// The four fields are the prefixes of the two raw outputs.
    pub open spec fn split_from(self, crypt_raw: Seq<u8>, auth_raw: Seq<u8>) -> bool {
        &&& self.keys@ == crypt_raw.subrange(0, 32)
        &&& self.nons@ == crypt_raw.subrange(32, 56)
        &&& self.auth.0@ == auth_raw.subrange(0, 16)
        &&& self.afin.0@ == auth_raw.subrange(16, 32)
    }

    /// The cipher that a passphrase and two salts derive.
    pub open spec fn derived_from(self, pass: Seq<u8>, crypt_salt: Seq<u8>, auth_salt: Seq<u8>, mem: u32) -> bool {
        self.split_from(kdf(pass, crypt_salt, mem), kdf(pass, auth_salt, mem))
    }

    /// Splits the raw outputs: 32 + 24 bytes of stream material, 16 + 16 of
    /// authentication material.
    pub fn from_vecs(crypt_raw: &[u8], auth_raw: &[u8]) -> (r: Option<Cipher>)
        ensures
            r is Some <==> crypt_raw@.len() >= 56 && auth_raw@.len() >= 32,
            r matches Some(c) ==> c.split_from(crypt_raw@, auth_raw@),
    {
        if crypt_raw.len() < 56 || auth_raw.len() < 32 {
            return None;
        }
        let mut keys = [0u8; 32];
        copy_into(&mut keys, 0, crypt_raw, 0, 32);
        let mut nons = [0u8; 24];
        copy_into(&mut nons, 0, crypt_raw, 32, 24);
        let auth = Salt::from_slice(vstd::slice::slice_subrange(auth_raw, 0, 16)).unwrap();
        let afin = Salt::from_slice(vstd::slice::slice_subrange(auth_raw, 16, 32)).unwrap();
        assert(keys@ =~= crypt_raw@.subrange(0, 32));
        assert(nons@ =~= crypt_raw@.subrange(32, 56));
        Some(Cipher { keys, nons, auth, afin })
    }

    /// Derives the cipher from a passphrase and two salts of at least 16
    /// bytes each; the raw derivation outputs are zeroed before returning.
    pub fn from_argon(password: &str, crypt_salt: &[u8], auth_salt: &[u8], mem: u32) -> (r: Option<Cipher>)
        ensures
            crypt_salt@.len() < MIN_SALT_LEN || auth_salt@.len() < MIN_SALT_LEN
                || password.spec_bytes().len() < MIN_PASS_LEN ==> r is None,
            r matches Some(c) ==> c.derived_from(password.spec_bytes(), crypt_salt@, auth_salt@, mem),
            MIN_SALT_LEN <= crypt_salt@.len() <= 0xFFFF_FFFF && MIN_SALT_LEN <= auth_salt@.len() <= 0xFFFF_FFFF
                && MIN_PASS_LEN <= password.spec_bytes().len() <= 0xFFFF_FFFF && 16 <= mem <= 0x20_0000
                ==> r is Some,
    {
        if crypt_salt.len() < MIN_SALT_LEN || auth_salt.len() < MIN_SALT_LEN || password.len() < MIN_PASS_LEN {
            return None;
        }
        let pass = password.as_bytes();
        let mut craw = match argon2id_hash(pass, crypt_salt, mem, KDF_TIME_COST, KDF_LANES, KDF_HASH_LEN) {
            Ok(v) => v,
            Err(_) => return None,
        };
        let mut araw = match argon2id_hash(pass, auth_salt, mem, KDF_TIME_COST, KDF_LANES, KDF_HASH_LEN) {
            Ok(v) => v,
            Err(_) => {
                wipe(craw.as_mut_slice());
                return None;
            },
        };
        let c = Cipher::from_vecs(craw.as_slice(), araw.as_slice());
        wipe(craw.as_mut_slice());
        wipe(araw.as_mut_slice());
        c
    }

    /// The chunk-authentication key.
    pub fn auth(&self) -> (r: &[u8])
        ensures
            r@ == self.auth.0@,
    {
        self.auth.0.as_slice()
    }

    /// The final-authentication key.
    pub fn f_auth(&self) -> (r: &[u8])
        ensures
            r@ == self.afin.0@,
    {
        self.afin.0.as_slice()
    }
}

impl Drop for Cipher {
    fn drop(&mut self)
        opens_invariants none
        no_unwind
    {
        wipe(&mut self.keys);
        wipe(&mut self.nons);
        wipe(&mut self.auth.0);
        wipe(&mut self.afin.0);
    }
}

/// Number of chunks, the last one possibly partial, that cover `length` bytes.
pub open spec fn chunk_count(length: int) -> int {
    if length % CHUNK_LEN as int == 0 {
        length / CHUNK_LEN as int
    } else {
        length / CHUNK_LEN as int + 1
    }
}

/// Number of chunks that cover `length` bytes.
pub fn align(length: usize) -> (r: usize)
    ensures
        r == chunk_count(length as int),
{
    if length % CHUNK_LEN == 0 {
        return length / CHUNK_LEN;
    }
    length / CHUNK_LEN + 1
}

} // verus!
