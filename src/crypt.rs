//! Per-file authenticated encryption: the file is XORed with its own
//! keystream chunk by chunk, each chunk is tagged with keyed BLAKE2b, and the
//! chunk tags are folded in order into a Keccak-512 commitment kept in the
//! file's key-store entry.
use vstd::prelude::*;
use vstd::slice::slice_subrange;
use vstd::string::StringSliceAdditionalSpecFns;

use crate::cipher::{align, chunk_count, Cipher, KDF_MEM_KIB};
use crate::key_store::{entry_bytes, KeyStore, MAX_ENTRIES};
use crate::primitives::{
    blake2b_512_keyed, blake2b_keyed, ct_equal, keccak512, keccak512_digest, lemma_stream_xor_involutive,
    random_16, stream_xor, wipe, xchacha20_keystream, xor_keystream,
};
use crate::{KTag, Salt, CHUNK_LEN};

verus! {

/// Longest file the keystream of one nonce can cover: 64 * (2^32 - 1) bytes.
pub const MAX_FILE_LEN: u64 = 274877906880;

/// Byte `/`.
pub const SLASH: u8 = 47;

/// The bytes `.keystore`.
pub open spec fn keystore_name() -> Seq<u8> {
    seq![46u8, 107u8, 101u8, 121u8, 115u8, 116u8, 111u8, 114u8, 101u8]
}

/// Length of the directory part of `path`: up to and including its last
/// `/`, or 0 when it has none.
pub open spec fn dir_len(path: Seq<u8>) -> int
    decreases path.len(),
{
    if path.len() == 0 {
        0
    } else if path.last() == SLASH {
        path.len() as int
    } else {
        dir_len(path.drop_last())
    }
}

/// The key-store file that serves `path`: `.keystore` in the same directory.
pub open spec fn keystore_path_of(path: Seq<u8>) -> Seq<u8> {
    path.subrange(0, dir_len(path)) + keystore_name()
}

/// The name tag of a path: Keccak-512 of the store's final-authentication key
/// followed by the path's bytes.
pub open spec fn name_tag_of(afin: Seq<u8>, path: Seq<u8>) -> Seq<u8> {
    keccak512_digest(afin + path)
}

/// Chunk `k` of `data`: bytes `[k * CHUNK_LEN, min((k + 1) * CHUNK_LEN, len))`.
pub open spec fn chunk_of(data: Seq<u8>, k: int) -> Seq<u8> {
    let start = k * CHUNK_LEN;
    let end = if data.len() - start < CHUNK_LEN { data.len() as int } else { start + CHUNK_LEN };
    data.subrange(start, end)
}

/// The keyed BLAKE2b tag of chunk `k`.
pub open spec fn chunk_digest(auth: Seq<u8>, data: Seq<u8>, k: int) -> Seq<u8> {
    blake2b_512_keyed(auth, chunk_of(data, k))
}

/// The tags of the first `n` chunks, concatenated in order.
pub open spec fn joined_digests(auth: Seq<u8>, data: Seq<u8>, n: nat) -> Seq<u8>
    decreases n,
{
    if n == 0 {
        Seq::empty()
    } else {
        joined_digests(auth, data, (n - 1) as nat) + chunk_digest(auth, data, n - 1)
    }
}

/// The first `n` tags of a list, concatenated in order.
pub open spec fn joined(tags: Seq<KTag>, n: nat) -> Seq<u8>
    decreases n,
{
    if n == 0 {
        Seq::empty()
    } else {
        joined(tags, (n - 1) as nat) + tags[n - 1].0@
    }
}

/// Number of chunks folded into the file tag: whole chunks only.
pub open spec fn folded_count(len: int) -> nat {
    (len / CHUNK_LEN as int) as nat
}

/// The commitment over a ciphertext: the final key, then the whole chunks' tags.
pub open spec fn file_tag(auth: Seq<u8>, afin: Seq<u8>, data: Seq<u8>) -> Seq<u8> {
    keccak512_digest(afin + joined_digests(auth, data, folded_count(data.len() as int)))
}

/// Encryption and decryption alike: the data XORed with the keystream from byte 0.
pub open spec fn transform(c: Cipher, data: Seq<u8>) -> Seq<u8> {
    stream_xor(c.keys@, c.nons@, 0, data)
}

proof fn lemma_joined(tags: Seq<KTag>, auth: Seq<u8>, data: Seq<u8>, n: nat)
    requires
        n <= tags.len(),
        forall|j: int| 0 <= j < n ==> tags[j].0@ == chunk_digest(auth, data, j),
    ensures
        joined(tags, n) == joined_digests(auth, data, n),
    decreases n,
{
    if n > 0 {
        lemma_joined(tags, auth, data, (n - 1) as nat);
    }
}

/// Every chunk starts inside the data, and the chunks cover all of it.
proof fn lemma_chunk_range(len: int, k: int)
    requires
        0 <= len,
        0 <= k < chunk_count(len),
    ensures
        k * CHUNK_LEN < len,
        chunk_count(len) * CHUNK_LEN >= len,
        folded_count(len) <= chunk_count(len),
{
    let m = CHUNK_LEN as int;
    let q = len / m;
    let r = len % m;
    assert(len == q * m + r && 0 <= r < m) by (nonlinear_arith)
        requires m > 0, q == len / m, r == len % m;
    if r == 0 {
        assert(k * m < len) by (nonlinear_arith)
            requires k < q, len == q * m, m > 0;
    } else {
        assert(k * m < len) by (nonlinear_arith)
            requires k <= q, len == q * m + r, r > 0, m > 0;
        assert((q + 1) * m >= len) by (nonlinear_arith)
            requires len == q * m + r, r < m;
    }
}

/// The bytes `start..end` of `data`, borrowed mutably.
fn sub_mut(data: &mut [u8], start: usize, end: usize) -> (r: &mut [u8])
    requires
        start <= end <= old(data)@.len(),
    ensures
        r@ == old(data)@.subrange(start as int, end as int),
        final(data)@ == old(data)@.subrange(0, start as int) + final(r)@ + old(data)@.subrange(
            end as int,
            old(data)@.len() as int,
        ),
{
    let (_, rest) = data.split_at_mut(start);
    let (mid, _) = rest.split_at_mut(end - start);
    mid
}

/// Round trip: two ciphers derived from the same passphrase and the same
/// entry salts undo each other's transform, so decrypting what was encrypted
/// gives the plaintext back.
pub proof fn lemma_round_trip(
    enc: Cipher,
    dec: Cipher,
    pass: Seq<u8>,
    csalt: Seq<u8>,
    asalt: Seq<u8>,
    data: Seq<u8>,
)
    requires
        enc.derived_from(pass, csalt, asalt, KDF_MEM_KIB),
        dec.derived_from(pass, csalt, asalt, KDF_MEM_KIB),
    ensures
        transform(dec, transform(enc, data)) == data,
{
    assert(enc.keys@ =~= dec.keys@);
    assert(enc.nons@ =~= dec.nons@);
    lemma_stream_xor_involutive(enc.keys@, enc.nons@, 0, data);
}

/// Chunk independence: for a file of `n` whole chunks, overwriting the last
/// chunk of its ciphertext leaves what the transform recovers of chunks
/// `0..n - 1` equal to the plaintext chunks.
pub proof fn lemma_chunk_independence(c: Cipher, plain: Seq<u8>, tampered: Seq<u8>, n: nat)
    requires
        n >= 1,
        plain.len() == n * CHUNK_LEN,
        tampered.len() == plain.len(),
        forall|j: int| 0 <= j < (n - 1) * CHUNK_LEN ==> tampered[j] == transform(c, plain)[j],
    ensures
        forall|k: int| 0 <= k < n - 1 ==> chunk_of(transform(c, tampered), k) == chunk_of(plain, k),
{
    let m = CHUNK_LEN as int;
    let out = transform(c, tampered);
    assert forall|k: int| 0 <= k < n - 1 implies chunk_of(out, k) == chunk_of(plain, k) by {
        assert((k + 1) * m <= (n - 1) * m) by (nonlinear_arith)
            requires k < n - 1, m > 0;
        assert((n - 1) * m + m == n * m) by (nonlinear_arith);
        assert(out.len() - k * m >= m) by (nonlinear_arith)
            requires out.len() == n * m, (k + 1) * m <= (n - 1) * m, m > 0;
        assert forall|j: int| k * m <= j < k * m + m implies out[j] == plain[j] by {
            assert(j < (n - 1) * m) by (nonlinear_arith)
                requires j < k * m + m, (k + 1) * m <= (n - 1) * m;
            assert(0 <= k * m) by (nonlinear_arith)
                requires k >= 0, m > 0;
            let ks = xchacha20_keystream(c.keys@, c.nons@, j);
            let a = plain[j];
            assert((a ^ ks) ^ ks == a) by (bit_vector);
        }
        assert(chunk_of(out, k) =~= chunk_of(plain, k));
    }
}

/// Name tags are stable: stores opened from the same header under the same
/// passphrase give every path the same name tag.
pub proof fn lemma_name_tag_stable(
    ks1: KeyStore,
    ks2: KeyStore,
    pass: Seq<u8>,
    csalt: Seq<u8>,
    asalt: Seq<u8>,
    path: Seq<u8>,
)
    requires
        ks1.key.derived_from(pass, csalt, asalt, KDF_MEM_KIB),
        ks2.key.derived_from(pass, csalt, asalt, KDF_MEM_KIB),
    ensures
        name_tag_of(ks1.key.afin.0@, path) == name_tag_of(ks2.key.afin.0@, path),
{
    assert(ks1.key.afin.0@ =~= ks2.key.afin.0@);
}

fn keystore_name_bytes() -> (r: Vec<u8>)
    ensures
        r@ == keystore_name(),
{
    vec![46u8, 107u8, 101u8, 121u8, 115u8, 116u8, 111u8, 114u8, 101u8]
}

/// The key-store path for `path`: everything up to and including its last
/// `/` (nothing when there is none), followed by `.keystore`.
pub fn keystore_path(path: &str) -> (r: Vec<u8>)
    ensures
        r@ == keystore_path_of(path.spec_bytes()),
{
    let bytes = path.as_bytes();
    let mut i: usize = bytes.len();
    assert(bytes@.subrange(0, i as int) =~= bytes@);
    while i > 0 && bytes[i - 1] != SLASH
        invariant
            0 <= i <= bytes@.len(),
            dir_len(bytes@) == dir_len(bytes@.subrange(0, i as int)),
        decreases i,
    {
        assert(bytes@.subrange(0, i as int).drop_last() =~= bytes@.subrange(0, i - 1));
        i -= 1;
    }
    assert(i > 0 ==> bytes@.subrange(0, i as int).last() == SLASH);
    assert(dir_len(bytes@) == i);
    let mut r: Vec<u8> = Vec::new();
    r.extend_from_slice(slice_subrange(bytes, 0, i));
    let name = keystore_name_bytes();
    r.extend_from_slice(name.as_slice());
    r
}

/// Sixty-four zero bytes: the file tag of an entry not yet encrypted.
pub open spec fn zero_tag() -> Seq<u8> {
    Seq::new(64, |i: int| 0u8)
}

/// A protected file: its path, its cipher, the key store holding its entry,
/// its name tag, and the outcome of the last authentication, if any.
pub struct Crypt {
    pub path: String,
    pub ciph: Cipher,
    pub meta: KeyStore,
    pub name_tag: KTag,
    pub authenticated: Option<bool>,
}

impl Crypt {
    /// The store is authenticated, and the entry last read is the first one
    /// carrying this file's name tag.
    pub open spec fn wf(self) -> bool {
        &&& self.meta.wf()
        &&& self.meta.authenticated
        &&& exists|i: int| self.meta.first_named(i, self.name_tag.0@) && self.meta.current.0@ == self.meta.plain(i)
    }

    /// Index of this file's entry in the store.
    pub open spec fn entry_index(self) -> int {
        choose|i: int| self.meta.first_named(i, self.name_tag.0@)
    }

    /// The file tag recorded in this file's entry.
    pub open spec fn stored_tag(self) -> Seq<u8> {
        self.meta.current.0@.subrange(96, 160)
    }

    /// The name tag of `path` under `meta`'s final-authentication key.
    fn name_tag_for(meta: &KeyStore, path: &str) -> (r: KTag)
        ensures
            r.0@ == name_tag_of(meta.key.afin.0@, path.spec_bytes()),
    {
        let mut msg: Vec<u8> = Vec::new();
        msg.extend_from_slice(meta.get_own_final().0.as_slice());
        msg.extend_from_slice(path.as_bytes());
        assert(msg@ == meta.key.afin.0@ + path.spec_bytes());
        let name_hash = KTag(keccak512(msg.as_slice()));
        wipe(msg.as_mut_slice());
        name_hash
    }

    /// The file around the entry that `meta` has just read, with its cipher
    /// derived from that entry's salts.
    fn from_entry(pass: &str, path: &str, meta: KeyStore, name_hash: KTag) -> (r: Option<Crypt>)
        requires
            meta.wf(),
            meta.authenticated,
            exists|i: int| meta.first_named(i, name_hash.0@) && meta.current.0@ == meta.plain(i),
        ensures
            pass.spec_bytes().len() < 16 ==> r is None,
            16 <= pass.spec_bytes().len() <= 0xFFFF_FFFF ==> r is Some,
            r matches Some(c) ==> {
                &&& c.wf()
                &&& c.meta == meta
                &&& c.name_tag == name_hash
                &&& c.path@ == path@
                &&& c.authenticated is None
                &&& c.ciph.derived_from(
                    pass.spec_bytes(),
                    meta.current.0@.subrange(64, 80),
                    meta.current.0@.subrange(80, 96),
                    KDF_MEM_KIB,
                )
            },
    {
        let ciph = match Cipher::from_argon(pass, meta.get_crypt_key(), meta.get_auth_key(), KDF_MEM_KIB) {
            Some(c) => c,
            None => return None,
        };
        Some(Crypt { path: path.to_owned(), ciph, meta, name_tag: name_hash, authenticated: None })
    }

    /// The file whose name tag `meta` does not hold yet: adds its entry under
    /// `csalt` and `asalt` with a zero file tag, reads it back, and derives
    /// the cipher from those salts.
    fn with_new_entry(pass: &str, path: &str, meta: KeyStore, name_hash: KTag, csalt: Salt, asalt: Salt) -> (r: Option<Crypt>)
        requires
            meta.wf(),
            meta.authenticated,
            !meta.holds_name(name_hash.0@),
        ensures
            pass.spec_bytes().len() < 16 ==> r is None,
            meta.count() < MAX_ENTRIES && 16 <= pass.spec_bytes().len() <= 0xFFFF_FFFF ==> r is Some,
            r matches Some(c) ==> {
                &&& c.wf()
                &&& c.name_tag == name_hash
                &&& c.path@ == path@
                &&& c.authenticated is None
                &&& c.meta.key == meta.key
                &&& c.meta.salts() == meta.salts()
                &&& c.meta.entries() == meta.entries().push(c.meta.current.0@)
                &&& c.meta.current.0@ == entry_bytes(name_hash.0@, csalt.0@, asalt.0@, zero_tag())
                &&& c.ciph.derived_from(pass.spec_bytes(), csalt.0@, asalt.0@, KDF_MEM_KIB)
            },
    {
        let mut meta = meta;
        let ghost before = meta;
        let ghost tag = name_hash.0@;
        let hmac = KTag([0u8; 64]);
        assert(hmac.0@ =~= zero_tag());
        match meta.add_entry(&name_hash.0, &csalt.0, &asalt.0, &hmac.0) {
            Some(true) => {},
            _ => return None,
        }
        let ghost added = meta;
        let ghost n = before.count();
        assert(added.entries()[n] == entry_bytes(tag, csalt.0@, asalt.0@, zero_tag()));
        assert(before.count() >= 0);
        assert(added.entries().len() == n + 1);
        assert(added.count() == n + 1);
        assert(added.plain(n) == added.entries()[n]);
        assert(added.plain(n).subrange(0, 64) =~= tag);
        assert(added.named(n, tag));
        assert(added.holds_name(tag));
        let found = meta.get_entry(&name_hash.0);
        assert(found is Some);
        proof {
            let i = found->Some_0 as int;
            assert(added.first_named(i, tag));
            if i < n {
                assert(added.entries()[i] == before.entries()[i]);
                assert(added.plain(i) == before.plain(i));
                assert(before.named(i, tag));
            }
            assert(i == n);
            assert(meta.count() == added.count());
            assert(forall|j: int| meta.plain(j) == added.plain(j));
            assert(forall|j: int| #[trigger] meta.named(j, tag) == added.named(j, tag));
            assert(meta.first_named(n, tag));
            assert(meta.entries() =~= added.entries());
            assert(meta.current.0@ == meta.plain(n));
            assert(meta.current.0@.subrange(64, 80) =~= csalt.0@);
            assert(meta.current.0@.subrange(80, 96) =~= asalt.0@);
        }
        Crypt::from_entry(pass, path, meta, name_hash)
    }

    /// The entry just looked up in `meta` is the first carrying its name.
    proof fn lemma_found(before: KeyStore, after: KeyStore, tag: Seq<u8>, i: int)
        requires
            before.first_named(i, tag),
            after.backing@ == before.backing@,
            after.key == before.key,
            after.current.0@ == before.plain(i),
        ensures
            after.first_named(i, tag),
            after.current.0@ == after.plain(i),
    {
        assert(after.count() == before.count());
        assert(forall|j: int| after.plain(j) == before.plain(j));
        assert(forall|j: int| #[trigger] after.named(j, tag) == before.named(j, tag));
    }

    /// Opens the protected file `path` against `meta`, the store of its
    /// directory: finds its entry by name tag, or adds one under `csalt` and
    /// `asalt` with a zero file tag, and derives the file's cipher from the
    /// entry's salts. `None` when the store is not authenticated, the
    /// passphrase is shorter than 16 bytes, or the store is full.
    pub fn init_with_salts(pass: &str, path: &str, meta: KeyStore, csalt: Salt, asalt: Salt) -> (r: Option<Crypt>)
        requires
            meta.wf(),
        ensures
            !meta.authenticated || pass.spec_bytes().len() < 16 ==> r is None,
            meta.authenticated && meta.count() < MAX_ENTRIES && 16 <= pass.spec_bytes().len() <= 0xFFFF_FFFF
                ==> r is Some,
            r matches Some(c) ==> {
                let tag = name_tag_of(meta.key.afin.0@, path.spec_bytes());
                &&& c.wf()
                &&& c.name_tag.0@ == tag
                &&& c.path@ == path@
                &&& c.authenticated is None
                &&& c.meta.key == meta.key
                &&& c.meta.salts() == meta.salts()
                &&& c.ciph.derived_from(
                    pass.spec_bytes(),
                    c.meta.current.0@.subrange(64, 80),
                    c.meta.current.0@.subrange(80, 96),
                    KDF_MEM_KIB,
                )
                &&& meta.holds_name(tag) ==> c.meta.backing@ == meta.backing@
                &&& !meta.holds_name(tag) ==> c.meta.entries() == meta.entries().push(c.meta.current.0@)
                    && c.meta.current.0@ == entry_bytes(tag, csalt.0@, asalt.0@, zero_tag())
            },
    {
        if !meta.authenticated {
            return None;
        }
        let name_hash = Crypt::name_tag_for(&meta, path);
        let mut meta = meta;
        let ghost before = meta;
        let ghost tag = name_hash.0@;
        match meta.get_entry(&name_hash.0) {
            Some(idx) => {
                proof {
                    Crypt::lemma_found(before, meta, tag, idx as int);
                }
                Crypt::from_entry(pass, path, meta, name_hash)
            },
            None => {
                proof {
                    assert(meta.count() == before.count());
                    assert(meta.entries() =~= before.entries());
                    if meta.holds_name(tag) {
                        let w = choose|w: int| 0 <= w < meta.count() && meta.named(w, tag);
                        assert(before.named(w, tag));
                    }
                }
                let ghost cs = csalt.0@;
                let ghost a = asalt.0@;
                let r = Crypt::with_new_entry(pass, path, meta, name_hash, csalt, asalt);
                proof {
                    if r is Some {
                        let c = r->Some_0;
                        assert(c.meta.current.0@.subrange(64, 80) =~= cs);
                        assert(c.meta.current.0@.subrange(80, 96) =~= a);
                    }
                }
                r
            },
        }
    }

    /// Opens the protected file `path` against `meta`, drawing fresh salts
    /// from the system's random source only when the file has no entry yet;
    /// see `init_with_salts`.
    pub fn init(pass: &str, path: &str, meta: KeyStore) -> (r: Option<Crypt>)
        requires
            meta.wf(),
        ensures
            !meta.authenticated || pass.spec_bytes().len() < 16 ==> r is None,
            meta.authenticated && meta.holds_name(name_tag_of(meta.key.afin.0@, path.spec_bytes()))
                && 16 <= pass.spec_bytes().len() <= 0xFFFF_FFFF ==> r is Some,
            r matches Some(c) ==> {
                let tag = name_tag_of(meta.key.afin.0@, path.spec_bytes());
                &&& c.wf()
                &&& c.name_tag.0@ == tag
                &&& c.path@ == path@
                &&& c.authenticated is None
                &&& c.meta.key == meta.key
                &&& c.meta.salts() == meta.salts()
                &&& c.ciph.derived_from(
                    pass.spec_bytes(),
                    c.meta.current.0@.subrange(64, 80),
                    c.meta.current.0@.subrange(80, 96),
                    KDF_MEM_KIB,
                )
                &&& meta.holds_name(tag) ==> c.meta.backing@ == meta.backing@
                &&& !meta.holds_name(tag) ==> c.meta.entries() == meta.entries().push(c.meta.current.0@)
                    && c.meta.current.0@.subrange(0, 64) == tag && c.stored_tag() == zero_tag()
            },
    {
        if !meta.authenticated {
            return None;
        }
        let name_hash = Crypt::name_tag_for(&meta, path);
        let mut meta = meta;
        let ghost before = meta;
        let ghost tag = name_hash.0@;
        match meta.get_entry(&name_hash.0) {
            Some(idx) => {
                proof {
                    Crypt::lemma_found(before, meta, tag, idx as int);
                }
                Crypt::from_entry(pass, path, meta, name_hash)
            },
            None => {
                proof {
                    assert(meta.count() == before.count());
                    assert(meta.entries() =~= before.entries());
                    if meta.holds_name(tag) {
                        let w = choose|w: int| 0 <= w < meta.count() && meta.named(w, tag);
                        assert(before.named(w, tag));
                    }
                }
                let csalt = match random_16() {
                    Ok(b) => Salt(b),
                    Err(_) => return None,
                };
                let asalt = match random_16() {
                    Ok(b) => Salt(b),
                    Err(_) => return None,
                };
                let r = Crypt::with_new_entry(pass, path, meta, name_hash, csalt, asalt);
                proof {
                    if r is Some {
                        let c = r->Some_0;
                        assert(c.meta.current.0@.subrange(0, 64) =~= tag);
                        assert(c.stored_tag() =~= zero_tag());
                        assert(c.meta.current.0@.subrange(64, 80) =~= csalt.0@);
                        assert(c.meta.current.0@.subrange(80, 96) =~= asalt.0@);
                    }
                }
                r
            },
        }
    }

    /// XORs chunk `index` with its keystream in place: this encrypts a
    /// plaintext chunk and decrypts a ciphertext one.
    pub fn open_chunk(&self, index: usize, chunk: &mut [u8])
        requires
            index * CHUNK_LEN + old(chunk)@.len() <= MAX_FILE_LEN,
        ensures
            final(chunk)@ == stream_xor(self.ciph.keys@, self.ciph.nons@, index * CHUNK_LEN, old(chunk)@),
    {
        let pos = (index as u64) * (CHUNK_LEN as u64);
        xor_keystream(chunk, &self.ciph.nons, pos, &self.ciph.keys);
        assert(chunk@ =~= stream_xor(self.ciph.keys@, self.ciph.nons@, index * CHUNK_LEN, old(chunk)@));
    }

    /// Encrypts chunk `index` in place and returns the keyed BLAKE2b tag of
    /// its ciphertext.
    pub fn seal_chunk(&self, index: usize, chunk: &mut [u8]) -> (r: KTag)
        requires
            index * CHUNK_LEN + old(chunk)@.len() <= MAX_FILE_LEN,
        ensures
            final(chunk)@ == stream_xor(self.ciph.keys@, self.ciph.nons@, index * CHUNK_LEN, old(chunk)@),
            r.0@ == blake2b_512_keyed(self.ciph.auth.0@, final(chunk)@),
    {
        self.open_chunk(index, chunk);
        KTag(blake2b_keyed(self.ciph.auth(), chunk))
    }

    /// The keyed BLAKE2b tag of one chunk, as it stands.
    pub fn tag_chunk(&self, chunk: &[u8]) -> (r: KTag)
        ensures
            r.0@ == blake2b_512_keyed(self.ciph.auth.0@, chunk@),
    {
        KTag(blake2b_keyed(self.ciph.auth(), chunk))
    }

    /// Folds the tags of the whole chunks of a `len`-byte file, in index
    /// order, into one Keccak-512 commitment seeded with the final key.
    pub fn fold_tags(&self, tags: &Vec<KTag>, len: usize) -> (r: KTag)
        requires
            tags@.len() >= folded_count(len as int),
        ensures
            r.0@ == keccak512_digest(self.ciph.afin.0@ + joined(tags@, folded_count(len as int))),
    {
        let m = len / CHUNK_LEN;
        let mut msg: Vec<u8> = Vec::new();
        msg.extend_from_slice(self.ciph.f_auth());
        let mut k: usize = 0;
        while k < m
            invariant
                m == folded_count(len as int),
                tags@.len() >= m,
                0 <= k <= m,
                msg@ == self.ciph.afin.0@ + joined(tags@, k as nat),
            decreases m - k,
        {
            msg.extend_from_slice(&tags[k].0);
            assert(joined(tags@, (k + 1) as nat) == joined(tags@, k as nat) + tags@[k as int].0@);
            k += 1;
        }
        let r = KTag(keccak512(msg.as_slice()));
        wipe(msg.as_mut_slice());
        r
    }

    /// The first entry carrying the name tag is unique, and `entry_index`
    /// names it.
    proof fn lemma_entry_index(self)
        requires
            self.wf(),
        ensures
            self.meta.first_named(self.entry_index(), self.name_tag.0@),
            self.meta.current.0@ == self.meta.plain(self.entry_index()),
            forall|i: int| #[trigger] self.meta.first_named(i, self.name_tag.0@) ==> i == self.entry_index(),
    {
        let name = self.name_tag.0@;
        let w = choose|i: int| self.meta.first_named(i, name) && self.meta.current.0@ == self.meta.plain(i);
        assert forall|i: int, j: int|
            self.meta.first_named(i, name) && self.meta.first_named(j, name) implies i == j by {
            if i < j {
                assert(!self.meta.named(i, name));
            } else if i > j {
                assert(!self.meta.named(j, name));
            }
        }
        assert(self.meta.first_named(w, name));
    }

    /// Records in this file's entry the commitment folded from the chunk
    /// tags of a freshly encrypted `len`-byte file.
    pub fn seal_tags(&mut self, tags: &Vec<KTag>, len: usize) -> (r: Option<bool>)
        requires
            old(self).wf(),
            tags@.len() >= folded_count(len as int),
        ensures
            final(self).wf(),
            r == Some(true),
            final(self).authenticated == Some(true),
            final(self).ciph == old(self).ciph,
            final(self).name_tag == old(self).name_tag,
            final(self).path == old(self).path,
            final(self).meta.key == old(self).meta.key,
            final(self).meta.salts() == old(self).meta.salts(),
            final(self).stored_tag() == keccak512_digest(old(self).ciph.afin.0@ + joined(tags@, folded_count(len as int))),
            final(self).meta.entries() == old(self).meta.entries().update(
                old(self).entry_index(),
                old(self).meta.current.0@.subrange(0, 96) + final(self).stored_tag(),
            ),
    {
        proof {
            old(self).lemma_entry_index();
        }
        let tag = self.fold_tags(tags, len);
        self.authenticated = Some(true);
        let ghost before = self.meta;
        let ghost i = old(self).entry_index();
        let r = self.meta.update_entry_by_tag(&self.name_tag.0, &tag.0);
        proof {
            let name = self.name_tag.0@;
            assert(before.tag_source(name, i) == before.current.0@);
            let e = before.current.0@.subrange(0, 96) + tag.0@;
            assert(before.count() >= 0);
            assert(self.meta.entries().len() == before.entries().len());
            assert(self.meta.count() == before.count());
            assert(self.meta.entries()[i] == e);
            assert(self.meta.plain(i) == e);
            assert(e.subrange(0, 64) =~= before.current.0@.subrange(0, 64));
            assert forall|j: int| 0 <= j < i implies !self.meta.named(j, name) by {
                assert(self.meta.entries()[j] == before.entries()[j]);
                assert(!before.named(j, name));
            }
            assert(self.meta.first_named(i, name));
            assert(self.stored_tag() =~= tag.0@);
        }
        r
    }

    /// Compares the stored file tag with the one folded from the chunk tags
    /// of the `len`-byte file as it stands, and records the outcome.
    pub fn verify_tags(&mut self, tags: &Vec<KTag>, len: usize) -> (r: Option<bool>)
        requires
            old(self).wf(),
            tags@.len() >= folded_count(len as int),
        ensures
            final(self).wf(),
            r == Some(old(self).stored_tag() == keccak512_digest(old(self).ciph.afin.0@ + joined(tags@, folded_count(len as int)))),
            final(self).authenticated == r,
            final(self).ciph == old(self).ciph,
            final(self).name_tag == old(self).name_tag,
            final(self).path == old(self).path,
            final(self).meta == old(self).meta,
    {
        let found = self.fold_tags(tags, len);
        let result = ct_equal(self.meta.get_hmac(), &found.0);
        self.authenticated = Some(result);
        Some(result)
    }

    /// Encrypts the file's bytes in place, chunk by chunk, and records the
    /// commitment over the ciphertext in the file's entry. A file longer than
    /// the keystream can cover is refused with `None` and left as it was.
    pub fn encrypt(&mut self, data: &mut [u8]) -> (r: Option<bool>)
        requires
            old(self).wf(),
        ensures
            final(self).wf(),
            final(self).ciph == old(self).ciph,
            final(self).name_tag == old(self).name_tag,
            final(self).path == old(self).path,
            final(self).meta.key == old(self).meta.key,
            final(self).meta.salts() == old(self).meta.salts(),
            old(data)@.len() > MAX_FILE_LEN ==> r is None && final(data)@ == old(data)@ && final(self).meta
                == old(self).meta && final(self).authenticated == old(self).authenticated,
            old(data)@.len() <= MAX_FILE_LEN ==> {
                &&& r == Some(true)
                &&& final(data)@ == transform(old(self).ciph, old(data)@)
                &&& final(self).authenticated == Some(true)
                &&& final(self).stored_tag() == file_tag(old(self).ciph.auth.0@, old(self).ciph.afin.0@, final(data)@)
                &&& final(self).meta.entries() == old(self).meta.entries().update(
                    old(self).entry_index(),
                    old(self).meta.current.0@.subrange(0, 96) + final(self).stored_tag(),
                )
            },
    {
        let len = data.len();
        if len as u64 > MAX_FILE_LEN {
            return None;
        }
        let n = align(len);
        let ghost plain = data@;
        let ghost enc = transform(self.ciph, plain);
        let mut tags: Vec<KTag> = Vec::new();
        let mut k: usize = 0;
        while k < n
            invariant
                *self == *old(self),
                len == data@.len(),
                plain == old(data)@,
                len == plain.len(),
                len <= MAX_FILE_LEN,
                n == chunk_count(len as int),
                0 <= k <= n,
                enc == transform(self.ciph, plain),
                forall|j: int| 0 <= j < len ==> data@[j] == if j < k * CHUNK_LEN { enc[j] } else { plain[j] },
                tags@.len() == k,
                forall|j: int| 0 <= j < k ==> tags@[j].0@ == chunk_digest(self.ciph.auth.0@, enc, j),
            decreases n - k,
        {
            proof {
                lemma_chunk_range(len as int, k as int);
            }
            let start = k * CHUNK_LEN;
            let end = if len - start < CHUNK_LEN { len } else { start + CHUNK_LEN };
            let ghost before = data@;
            let chunk = sub_mut(data, start, end);
            let t = self.seal_chunk(k, chunk);
            proof {
                assert(data@ == before.subrange(0, start as int) + chunk@ + before.subrange(end as int, len as int));
                assert forall|j: int| start <= j < end implies data@[j] == enc[j] by {
                    assert(data@[j] == chunk@[j - start]);
                }
                assert(chunk@ =~= chunk_of(enc, k as int));
            }
            tags.push(t);
            k += 1;
        }
        proof {
            if len > 0 {
                lemma_chunk_range(len as int, 0);
            }
            assert(data@ =~= enc);
            lemma_joined(tags@, self.ciph.auth.0@, enc, folded_count(len as int));
        }
        self.seal_tags(&tags, len)
    }

    /// Compares the file's bytes as stored with the commitment in its
    /// entry, and records the outcome.
    pub fn authenticate(&mut self, data: &[u8]) -> (r: Option<bool>)
        requires
            old(self).wf(),
        ensures
            final(self).wf(),
            r == Some(old(self).stored_tag() == file_tag(old(self).ciph.auth.0@, old(self).ciph.afin.0@, data@)),
            final(self).authenticated == r,
            final(self).ciph == old(self).ciph,
            final(self).name_tag == old(self).name_tag,
            final(self).path == old(self).path,
            final(self).meta == old(self).meta,
    {
        let len = data.len();
        let n = align(len);
        let mut tags: Vec<KTag> = Vec::new();
        let mut k: usize = 0;
        while k < n
            invariant
                *self == *old(self),
                len == data@.len(),
                n == chunk_count(len as int),
                0 <= k <= n,
                tags@.len() == k,
                forall|j: int| 0 <= j < k ==> tags@[j].0@ == chunk_digest(self.ciph.auth.0@, data@, j),
            decreases n - k,
        {
            proof {
                lemma_chunk_range(len as int, k as int);
            }
            let start = k * CHUNK_LEN;
            let end = if len - start < CHUNK_LEN { len } else { start + CHUNK_LEN };
            let t = self.tag_chunk(slice_subrange(data, start, end));
            tags.push(t);
            k += 1;
        }
        proof {
            assert(folded_count(len as int) <= n) by {
                if len > 0 {
                    lemma_chunk_range(len as int, 0);
                }
            }
            lemma_joined(tags@, self.ciph.auth.0@, data@, folded_count(len as int));
        }
        self.verify_tags(&tags, len)
    }

    /// Decrypts the file's bytes in place once they authenticate; runs the
    /// authentication first unless an earlier outcome is recorded. A failed
    /// authentication gives `Some(false)` and leaves the bytes as they were;
    /// a file longer than the keystream can cover gives `None`.
    pub fn decrypt(&mut self, data: &mut [u8]) -> (r: Option<bool>)
        requires
            old(self).wf(),
        ensures
            final(self).wf(),
            final(self).ciph == old(self).ciph,
            final(self).name_tag == old(self).name_tag,
            final(self).path == old(self).path,
            final(self).meta == old(self).meta,
            old(data)@.len() > MAX_FILE_LEN ==> r is None && final(data)@ == old(data)@
                && final(self).authenticated == old(self).authenticated,
            old(data)@.len() <= MAX_FILE_LEN ==> {
                let ok = match old(self).authenticated {
                    Some(b) => b,
                    None => old(self).stored_tag() == file_tag(
                        old(self).ciph.auth.0@,
                        old(self).ciph.afin.0@,
                        old(data)@,
                    ),
                };
                &&& r == Some(ok)
                &&& final(self).authenticated == Some(ok)
                &&& ok ==> final(data)@ == transform(old(self).ciph, old(data)@)
                &&& !ok ==> final(data)@ == old(data)@
            },
    {
        let len = data.len();
        if len as u64 > MAX_FILE_LEN {
            return None;
        }
        if self.authenticated.is_none() {
            match self.authenticate(data) {
                Some(false) => return Some(false),
                None => return None,
                Some(true) => {},
            }
        }
        let ok = match self.authenticated {
            Some(b) => b,
            None => false,
        };
        if !ok {
            return Some(false);
        }
        let n = align(len);
        let ghost cipher_text = data@;
        let ghost dec = transform(self.ciph, cipher_text);
        let ghost fixed = *self;
        let mut k: usize = 0;
        while k < n
            invariant
                *self == fixed,
                len == data@.len(),
                len == cipher_text.len(),
                len <= MAX_FILE_LEN,
                n == chunk_count(len as int),
                0 <= k <= n,
                dec == transform(self.ciph, cipher_text),
                forall|j: int| 0 <= j < len ==> data@[j] == if j < k * CHUNK_LEN { dec[j] } else { cipher_text[j] },
            decreases n - k,
        {
            proof {
                lemma_chunk_range(len as int, k as int);
            }
            let start = k * CHUNK_LEN;
            let end = if len - start < CHUNK_LEN { len } else { start + CHUNK_LEN };
            let ghost before = data@;
            let chunk = sub_mut(data, start, end);
            self.open_chunk(k, chunk);
            proof {
                assert(data@ == before.subrange(0, start as int) + chunk@ + before.subrange(end as int, len as int));
                assert forall|j: int| start <= j < end implies data@[j] == dec[j] by {
                    assert(data@[j] == chunk@[j - start]);
                }
            }
            k += 1;
        }
        proof {
            assert(chunk_count(len as int) * CHUNK_LEN >= len) by {
                if len > 0 {
                    lemma_chunk_range(len as int, 0);
                }
            }
            assert(data@ =~= dec);
        }
        Some(true)
    }

    /// The key store, whose image is to be written back after a change.
    pub fn keystore(&self) -> (r: &KeyStore)
        ensures
            *r == self.meta,
    {
        &self.meta
    }
}

} // verus!
