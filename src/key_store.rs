//! The key store: a 96-byte header followed by 160-byte entries, each entry
//! encrypted under the store's own keystream and the whole tail authenticated
//! by a keyed Keccak-512 digest held in the header.
use vstd::prelude::*;
use vstd::slice::slice_subrange;
use vstd::string::StringSliceAdditionalSpecFns;

use crate::cipher::{Cipher, KDF_MEM_KIB};
use crate::primitives::{
    ct_equal, keccak512, keccak512_digest, lemma_stream_xor_involutive, random_16, stream_xor,
    wipe, xor_keystream,
};
use crate::{copy_into, overwrite, AuthKey, Salt};

verus! {

/// Length of the key-store header.
pub const HEADER_LEN: usize = 96;

/// Length of one key-store entry.
pub const ENTRY_LEN: usize = 160;

/// Keystream bytes set aside for each entry slot: three 64-byte blocks.
pub const SLOT_STREAM_LEN: u64 = 192;

/// Most entries a key store can hold, so that every slot's keystream stays
/// within the range one nonce can address.
pub const MAX_ENTRIES: usize = 1431655764;

/// The bytes `no entries`, authenticated in place of an empty tail.
pub open spec fn no_entries() -> Seq<u8> {
    seq![110u8, 111u8, 32u8, 101u8, 110u8, 116u8, 114u8, 105u8, 101u8, 115u8]
}

fn no_entries_bytes() -> (r: Vec<u8>)
    ensures
        r@ == no_entries(),
{
    vec![110u8, 111u8, 32u8, 101u8, 110u8, 116u8, 114u8, 105u8, 101u8, 115u8]
}

/// The part of a key-store image that the header's digest covers.
pub open spec fn covered_region(image: Seq<u8>) -> Seq<u8> {
    if image.len() > HEADER_LEN {
        image.subrange(HEADER_LEN as int, image.len() as int)
    } else {
        no_entries()
    }
}

/// The header digest that the authentication keys give for an image.
pub open spec fn expected_hmac(auth: Seq<u8>, afin: Seq<u8>, image: Seq<u8>) -> Seq<u8> {
    keccak512_digest(auth + afin + covered_region(image))
}

/// A header followed by whole entries, no more than the store can address.
pub open spec fn well_sized(image: Seq<u8>) -> bool {
    &&& image.len() >= HEADER_LEN
    &&& (image.len() - HEADER_LEN) % (ENTRY_LEN as int) == 0
    &&& (image.len() - HEADER_LEN) / (ENTRY_LEN as int) <= MAX_ENTRIES
}

/// Number of whole entry slots in an image.
pub open spec fn slot_count(image: Seq<u8>) -> int {
    (image.len() - HEADER_LEN) / (ENTRY_LEN as int)
}

/// The stored (encrypted) bytes of slot `i`.
pub open spec fn slot(image: Seq<u8>, i: int) -> Seq<u8> {
    image.subrange(HEADER_LEN + ENTRY_LEN * i, HEADER_LEN + ENTRY_LEN * i + ENTRY_LEN)
}

/// Keystream position at which slot `i` is encrypted (block `3 * i`).
pub open spec fn slot_pos(i: int) -> int {
    SLOT_STREAM_LEN * i
}

/// The first 96 bytes of an image, padded with zeros when it is shorter.
pub open spec fn header_of(image: Seq<u8>) -> Seq<u8> {
    if image.len() >= HEADER_LEN {
        image.subrange(0, HEADER_LEN as int)
    } else {
        image + Seq::new((HEADER_LEN - image.len()) as nat, |i: int| 0u8)
    }
}

/// Name tag, salts and file tag have the lengths an entry needs.
pub open spec fn pieces_fit(name: Seq<u8>, csalt: Seq<u8>, asalt: Seq<u8>, file_tag: Seq<u8>) -> bool {
    name.len() == 64 && csalt.len() == 16 && asalt.len() == 16 && file_tag.len() == 64
}

/// Entries at rest use disjoint keystream: slot `i` takes the 160 bytes from
/// position `192 * i`, which end before slot `j > i` begins.
pub proof fn lemma_slot_streams_disjoint(i: int, j: int)
    requires
        0 <= i < j,
    ensures
        slot_pos(i) + ENTRY_LEN <= slot_pos(j),
{
}

/// Changing any byte of the digest stored in an authentic image makes the
/// image fail to authenticate under the same keys: the digest covers only
/// the bytes after the header, and the salts that select the keys are kept.
pub proof fn lemma_digest_tamper_detected(auth: Seq<u8>, afin: Seq<u8>, image: Seq<u8>, k: int, b: u8)
    requires
        image.len() >= HEADER_LEN,
        image.subrange(32, 96) == expected_hmac(auth, afin, image),
        32 <= k < 96,
        b != image[k],
    ensures
        image.update(k, b).subrange(0, 32) == image.subrange(0, 32),
        image.update(k, b).subrange(32, 96) != expected_hmac(auth, afin, image.update(k, b)),
{
    let tampered = image.update(k, b);
    assert(covered_region(tampered) =~= covered_region(image));
    assert(tampered.subrange(0, 32) =~= image.subrange(0, 32));
    assert(tampered.subrange(32, 96)[k - 32] != image.subrange(32, 96)[k - 32]);
}

/// A store this library has written reopens as it was: its image keeps the
/// header salts its key was derived from and a digest that matches, so the
/// store that `new_from` opens from those bytes under the same passphrase
/// derives the same key, authenticates, and holds the same entries.
pub proof fn lemma_reopen(ks: KeyStore, re: KeyStore, pass: Seq<u8>)
    requires
        ks.wf(),
        ks.authenticated,
        ks.key.derived_from(pass, ks.salts().subrange(0, 16), ks.salts().subrange(16, 32), KDF_MEM_KIB),
        re.backing@ == ks.backing@,
        re.key.derived_from(
            pass,
            header_of(ks.backing@).subrange(0, 16),
            header_of(ks.backing@).subrange(16, 32),
            KDF_MEM_KIB,
        ),
        re.authenticated == (well_sized(ks.backing@) && ks.backing@.subrange(32, 96) == expected_hmac(
            re.key.auth.0@,
            re.key.afin.0@,
            ks.backing@,
        )),
    ensures
        re.authenticated,
        re.key.keys@ == ks.key.keys@,
        re.key.nons@ == ks.key.nons@,
        re.key.auth.0@ == ks.key.auth.0@,
        re.key.afin.0@ == ks.key.afin.0@,
        re.entries() == ks.entries(),
{
    assert(header_of(ks.backing@).subrange(0, 16) =~= ks.salts().subrange(0, 16));
    assert(header_of(ks.backing@).subrange(16, 32) =~= ks.salts().subrange(16, 32));
    assert(re.key.keys@ =~= ks.key.keys@);
    assert(re.key.nons@ =~= ks.key.nons@);
    assert(re.entries() =~= ks.entries());
}

/// The 160 zero bytes that `current` holds before any entry is read.
pub open spec fn blank_entry() -> Seq<u8> {
    Seq::new(160, |i: int| 0u8)
}

/// Key-store header: crypt salt, auth salt, digest over the entries.
pub struct Header(pub [u8; 96]);

impl Header {
    /// The salt of the store's stream key.
    pub fn csalt(&self) -> (r: &[u8])
        ensures
            r@ == self.0@.subrange(0, 16),
    {
        slice_subrange(self.0.as_slice(), 0, 16)
    }

    /// The salt of the store's authentication keys.
    pub fn asalt(&self) -> (r: &[u8])
        ensures
            r@ == self.0@.subrange(16, 32),
    {
        slice_subrange(self.0.as_slice(), 16, 32)
    }

    /// The digest over the entries.
    pub fn hmac(&self) -> (r: &[u8])
        ensures
            r@ == self.0@.subrange(32, 96),
    {
        slice_subrange(self.0.as_slice(), 32, 96)
    }

    /// The header made of two 16-byte salts and a 64-byte digest.
    pub fn from_pieces(csalt: &[u8], asalt: &[u8], hmac: &[u8]) -> (r: Option<Header>)
        ensures
            r is Some <==> csalt@.len() == 16 && asalt@.len() == 16 && hmac@.len() == 64,
            r matches Some(h) ==> h.0@ == csalt@ + asalt@ + hmac@,
    {
        if csalt.len() != 16 {
            return None;
        }
        if asalt.len() != 16 {
            return None;
        }
        if hmac.len() != 64 {
            return None;
        }
        let mut h = [0u8; 96];
        copy_into(&mut h, 0, csalt, 0, 16);
        copy_into(&mut h, 16, asalt, 0, 16);
        copy_into(&mut h, 32, hmac, 0, 64);
        assert(h@ =~= csalt@ + asalt@ + hmac@);
        Some(Header(h))
    }
}

impl Drop for Header {
    fn drop(&mut self)
        opens_invariants none
        no_unwind
    {
        wipe(&mut self.0);
    }
}

/// Key-store entry: name tag, per-file salts, file tag.
pub struct Entry(pub [u8; 160]);

/// The plaintext entry made of its four pieces.
pub open spec fn entry_bytes(name: Seq<u8>, csalt: Seq<u8>, asalt: Seq<u8>, file_tag: Seq<u8>) -> Seq<u8> {
    name + csalt + asalt + file_tag
}

impl Entry {
    /// The name tag.
    pub fn name(&self) -> (r: &[u8])
        ensures
            r@ == self.0@.subrange(0, 64),
    {
        slice_subrange(self.0.as_slice(), 0, 64)
    }

    /// The salt of the file's stream key.
    pub fn crypt(&self) -> (r: &[u8])
        ensures
            r@ == self.0@.subrange(64, 80),
    {
        slice_subrange(self.0.as_slice(), 64, 80)
    }

    /// The salt of the file's authentication keys.
    pub fn auth(&self) -> (r: &[u8])
        ensures
            r@ == self.0@.subrange(80, 96),
    {
        slice_subrange(self.0.as_slice(), 80, 96)
    }

    /// The tag over the file's ciphertext.
    pub fn hmac(&self) -> (r: &[u8])
        ensures
            r@ == self.0@.subrange(96, 160),
    {
        slice_subrange(self.0.as_slice(), 96, 160)
    }

    /// The entry made of a 64-byte name tag, two 16-byte salts and a 64-byte file tag.
    pub fn from_pieces(name_hash: &[u8], csalt: &[u8], asalt: &[u8], file_hash: &[u8]) -> (r: Option<Entry>)
        ensures
            r is Some <==> name_hash@.len() == 64 && csalt@.len() == 16 && asalt@.len() == 16
                && file_hash@.len() == 64,
            r matches Some(e) ==> e.0@ == entry_bytes(name_hash@, csalt@, asalt@, file_hash@),
    {
        if name_hash.len() != 64 {
            return None;
        }
        if csalt.len() != 16 {
            return None;
        }
        if asalt.len() != 16 {
            return None;
        }
        if file_hash.len() != 64 {
            return None;
        }
        let mut e = [0u8; 160];
        copy_into(&mut e, 0, name_hash, 0, 64);
        copy_into(&mut e, 64, csalt, 0, 16);
        copy_into(&mut e, 80, asalt, 0, 16);
        copy_into(&mut e, 96, file_hash, 0, 64);
        assert(e@ =~= entry_bytes(name_hash@, csalt@, asalt@, file_hash@));
        Some(Entry(e))
    }

    /// Replaces the file tag with a 64-byte `tag`; refuses any other length.
    pub fn update_tag(&mut self, tag: &[u8]) -> (r: bool)
        ensures
            r == (tag@.len() == 64),
            r ==> final(self).0@ == old(self).0@.subrange(0, 96) + tag@,
            !r ==> final(self).0@ == old(self).0@,
    {
        if tag.len() != 64 {
            return false;
        }
        copy_into(&mut self.0, 96, tag, 0, 64);
        assert(self.0@ =~= old(self).0@.subrange(0, 96) + tag@);
        true
    }
}

impl Drop for Entry {
    fn drop(&mut self)
        opens_invariants none
        no_unwind
    {
        wipe(&mut self.0);
    }
}

/// The Keccak-512 digest of the cipher's two authentication keys followed by `region`.
fn keyed_digest(c: &Cipher, region: &[u8]) -> (r: [u8; 64])
    ensures
        r@ == keccak512_digest(c.auth.0@ + c.afin.0@ + region@),
{
    let mut msg: Vec<u8> = Vec::new();
    msg.extend_from_slice(c.auth());
    msg.extend_from_slice(c.f_auth());
    msg.extend_from_slice(region);
    let r = keccak512(msg.as_slice());
    assert(msg@ == c.auth.0@ + c.afin.0@ + region@);
    wipe(msg.as_mut_slice());
    r
}

/// Rewriting slot `n` of an image leaves the other slots as they were.
proof fn lemma_slot_rewritten(old_img: Seq<u8>, new_img: Seq<u8>, n: int, ct: Seq<u8>)
    requires
        old_img.len() >= HEADER_LEN,
        0 <= n < slot_count(old_img),
        ct.len() == ENTRY_LEN,
        new_img.len() == old_img.len(),
        forall|k: int|
            HEADER_LEN <= k < new_img.len() ==> new_img[k] == overwrite(old_img, HEADER_LEN + ENTRY_LEN * n, ct)[k],
    ensures
        slot_count(new_img) == slot_count(old_img),
        slot(new_img, n) == ct,
        forall|j: int| 0 <= j < slot_count(old_img) && j != n ==> slot(new_img, j) == slot(old_img, j),
{
    assert(HEADER_LEN + ENTRY_LEN * n + ENTRY_LEN <= old_img.len()) by (nonlinear_arith)
        requires
            n < (old_img.len() - HEADER_LEN) / (ENTRY_LEN as int),
            old_img.len() >= HEADER_LEN,
    ;
    let w = overwrite(old_img, HEADER_LEN + ENTRY_LEN * n, ct);
    assert(slot(new_img, n) =~= ct);
    assert forall|j: int| 0 <= j < slot_count(old_img) && j != n implies slot(new_img, j) == slot(old_img, j) by {
        assert(HEADER_LEN + ENTRY_LEN * j + ENTRY_LEN <= old_img.len()) by (nonlinear_arith)
            requires
                j < (old_img.len() - HEADER_LEN) / (ENTRY_LEN as int),
                old_img.len() >= HEADER_LEN,
        ;
        if j < n {
            assert(HEADER_LEN + ENTRY_LEN * j + ENTRY_LEN <= HEADER_LEN + ENTRY_LEN * n) by (nonlinear_arith)
                requires j < n;
        } else {
            assert(HEADER_LEN + ENTRY_LEN * n + ENTRY_LEN <= HEADER_LEN + ENTRY_LEN * j) by (nonlinear_arith)
                requires j > n;
        }
        assert(slot(new_img, j) =~= slot(old_img, j));
    }
}

/// An open key store: its file image, its own cipher, and the entry last read.
pub struct KeyStore {
    pub current: Entry,
    pub key: Cipher,
    pub backing: Vec<u8>,
    pub authenticated: bool,
}

impl Drop for KeyStore {
    fn drop(&mut self)
        opens_invariants none
        no_unwind
    {
        wipe(&mut self.current.0);
    }
}

impl KeyStore {
    /// The salts in the header.
    pub open spec fn salts(self) -> Seq<u8> {
        self.backing@.subrange(0, 32)
    }

    /// Number of entries.
    pub open spec fn count(self) -> int {
        slot_count(self.backing@)
    }

    /// The plaintext of entry `i`.
    pub open spec fn plain(self, i: int) -> Seq<u8> {
        stream_xor(self.key.keys@, self.key.nons@, slot_pos(i), slot(self.backing@, i))
    }

    /// All entries, decrypted, in order.
    pub open spec fn entries(self) -> Seq<Seq<u8>> {
        Seq::new(self.count() as nat, |i: int| self.plain(i))
    }

    /// The header's digest matches the image.
    pub open spec fn hmac_valid(self) -> bool {
        self.backing@.subrange(32, 96) == expected_hmac(self.key.auth.0@, self.key.afin.0@, self.backing@)
    }

    /// An authenticated store has a well-sized image whose digest matches.
    pub open spec fn wf(self) -> bool {
        self.authenticated ==> well_sized(self.backing@) && self.hmac_valid()
    }

    /// Entry `i` carries the name tag `name`.
    pub open spec fn named(self, i: int, name: Seq<u8>) -> bool {
        self.plain(i).subrange(0, 64) == name
    }

    /// Some entry carries the name tag `name`.
    pub open spec fn holds_name(self, name: Seq<u8>) -> bool {
        exists|i: int| 0 <= i < self.count() && self.named(i, name)
    }

    /// Entry `i` is the first that carries `name`.
    pub open spec fn first_named(self, i: int, name: Seq<u8>) -> bool {
        &&& 0 <= i < self.count()
        &&& self.named(i, name)
        &&& forall|j: int| 0 <= j < i ==> !self.named(j, name)
    }

    /// The store's chunk-authentication key.
    pub fn get_own_auth(&self) -> (r: &AuthKey)
        ensures
            r.0@ == self.key.auth.0@,
    {
        &self.key.auth
    }

    /// The store's final-authentication key.
    pub fn get_own_final(&self) -> (r: &AuthKey)
        ensures
            r.0@ == self.key.afin.0@,
    {
        &self.key.afin
    }

    /// A new store under fresh salts: the header alone, authenticated, with
    /// its digest taken over `no entries`.
    pub fn create_from(pass: &str, csalt: &Salt, asalt: &Salt) -> (r: Option<KeyStore>)
        ensures
            pass.spec_bytes().len() < 16 ==> r is None,
            16 <= pass.spec_bytes().len() <= 0xFFFF_FFFF ==> r is Some,
            r matches Some(ks) ==> {
                &&& ks.wf()
                &&& ks.authenticated
                &&& ks.current.0@ == blank_entry()
                &&& ks.key.derived_from(pass.spec_bytes(), csalt.0@, asalt.0@, KDF_MEM_KIB)
                &&& ks.backing@ == csalt.0@ + asalt.0@ + keccak512_digest(
                    ks.key.auth.0@ + ks.key.afin.0@ + no_entries(),
                )
                &&& ks.entries().len() == 0
            },
    {
        let c = match Cipher::from_argon(pass, &csalt.0, &asalt.0, KDF_MEM_KIB) {
            Some(c) => c,
            None => return None,
        };
        let sentinel = no_entries_bytes();
        let digest = keyed_digest(&c, sentinel.as_slice());
        let header = match Header::from_pieces(&csalt.0, &asalt.0, &digest) {
            Some(h) => h,
            None => return None,
        };
        let mut backing: Vec<u8> = Vec::new();
        backing.extend_from_slice(&header.0);
        let ks = KeyStore { current: Entry([0u8; 160]), key: c, backing, authenticated: true };
        assert(ks.backing@.subrange(32, 96) =~= digest@);
        assert(slot_count(ks.backing@) == 0);
        assert(ks.entries() =~= Seq::empty());
        assert(ks.current.0@ =~= blank_entry());
        Some(ks)
    }

    /// Opens the store whose file holds `existing`, or creates one under
    /// fresh random salts when there is no file yet. The store is
    /// authenticated when its image is well sized and the digest in its
    /// header matches the one its keys give.
    pub fn new_from(pass: &str, existing: Option<Vec<u8>>) -> (r: Option<KeyStore>)
        ensures
            pass.spec_bytes().len() < 16 ==> r is None,
            existing is Some && 16 <= pass.spec_bytes().len() <= 0xFFFF_FFFF ==> r is Some,
            r matches Some(ks) ==> ks.wf() && ks.current.0@ == blank_entry(),
            existing is None ==> (r matches Some(ks) ==> {
                &&& ks.authenticated
                &&& ks.entries().len() == 0
                &&& ks.backing@.len() == HEADER_LEN
                &&& ks.key.derived_from(
                    pass.spec_bytes(),
                    ks.backing@.subrange(0, 16),
                    ks.backing@.subrange(16, 32),
                    KDF_MEM_KIB,
                )
            }),
            existing matches Some(image) ==> (r matches Some(ks) ==> {
                &&& ks.backing@ == image@
                &&& ks.key.derived_from(
                    pass.spec_bytes(),
                    header_of(image@).subrange(0, 16),
                    header_of(image@).subrange(16, 32),
                    KDF_MEM_KIB,
                )
                &&& ks.authenticated == (well_sized(image@) && image@.subrange(32, 96)
                    == expected_hmac(ks.key.auth.0@, ks.key.afin.0@, image@))
            }),
    {
        let image = match existing {
            None => {
                let csalt = match random_16() {
                    Ok(b) => Salt(b),
                    Err(_) => return None,
                };
                let asalt = match random_16() {
                    Ok(b) => Salt(b),
                    Err(_) => return None,
                };
                let r = KeyStore::create_from(pass, &csalt, &asalt);
                proof {
                    if r is Some {
                        let ks = r->Some_0;
                        assert(ks.backing@.subrange(0, 16) =~= csalt.0@);
                        assert(ks.backing@.subrange(16, 32) =~= asalt.0@);
                    }
                }
                return r;
            },
            Some(image) => image,
        };
        let len = image.len();
        let mut header = Header([0u8; 96]);
        let n = if len < HEADER_LEN { len } else { HEADER_LEN };
        copy_into(&mut header.0, 0, image.as_slice(), 0, n);
        assert(header.0@ =~= header_of(image@));
        let c = match Cipher::from_argon(pass, header.csalt(), header.asalt(), KDF_MEM_KIB) {
            Some(c) => c,
            None => return None,
        };
        let digest = if len > HEADER_LEN {
            keyed_digest(&c, slice_subrange(image.as_slice(), HEADER_LEN, len))
        } else {
            let sentinel = no_entries_bytes();
            keyed_digest(&c, sentinel.as_slice())
        };
        assert(digest@ == expected_hmac(c.auth.0@, c.afin.0@, image@));
        let matches = ct_equal(header.hmac(), &digest);
        assert(len >= HEADER_LEN ==> header.0@.subrange(32, 96) =~= image@.subrange(32, 96));
        let sized = len >= HEADER_LEN && (len - HEADER_LEN) % ENTRY_LEN == 0 && (len - HEADER_LEN)
            / ENTRY_LEN <= MAX_ENTRIES;
        let ks = KeyStore { current: Entry([0u8; 160]), key: c, backing: image, authenticated: sized && matches };
        assert(ks.current.0@ =~= blank_entry());
        Some(ks)
    }

    /// Appends an entry, encrypted at keystream block `3 * count`, and
    /// refreshes the header digest. An unauthenticated or full store refuses
    /// with `Some(false)`; pieces of the wrong length give `None`.
    pub fn add_entry(&mut self, name_hash: &[u8], csalt: &[u8], asalt: &[u8], file_hash: &[u8]) -> (r: Option<bool>)
        requires
            old(self).wf(),
        ensures
            final(self).wf(),
            final(self).key == old(self).key,
            final(self).authenticated == old(self).authenticated,
            final(self).current == old(self).current,
            !old(self).authenticated ==> r == Some(false) && final(self).backing@ == old(self).backing@,
            old(self).authenticated && !pieces_fit(name_hash@, csalt@, asalt@, file_hash@) ==> r is None
                && final(self).backing@ == old(self).backing@,
            old(self).authenticated && pieces_fit(name_hash@, csalt@, asalt@, file_hash@) && old(self).count()
                >= MAX_ENTRIES ==> r == Some(false) && final(self).backing@ == old(self).backing@,
            old(self).authenticated && pieces_fit(name_hash@, csalt@, asalt@, file_hash@) && old(self).count()
                < MAX_ENTRIES ==> {
                &&& r == Some(true)
                &&& final(self).salts() == old(self).salts()
                &&& final(self).entries() == old(self).entries().push(
                    entry_bytes(name_hash@, csalt@, asalt@, file_hash@),
                )
                &&& slot(final(self).backing@, old(self).count()) == stream_xor(
                    old(self).key.keys@,
                    old(self).key.nons@,
                    slot_pos(old(self).count()),
                    entry_bytes(name_hash@, csalt@, asalt@, file_hash@),
                )
            },
    {
        if !self.authenticated {
            return Some(false);
        }
        let ent = match Entry::from_pieces(name_hash, csalt, asalt, file_hash) {
            Some(e) => e,
            None => return None,
        };
        let count = (self.backing.len() - HEADER_LEN) / ENTRY_LEN;
        if count >= MAX_ENTRIES {
            return Some(false);
        }
        let mut out = ent.0;
        let pos = (count as u64) * SLOT_STREAM_LEN;
        xor_keystream(&mut out, &self.key.nons, pos, &self.key.keys);
        let ghost e = ent.0@;
        let ghost cipher_text = out@;
        assert(cipher_text =~= stream_xor(self.key.keys@, self.key.nons@, slot_pos(count as int), e));
        let ghost appended = self.backing@ + out@;
        self.backing.extend_from_slice(&out);
        assert(self.backing@ == appended);
        self.update_hmac();
        proof {
            let old_ks = *old(self);
            let new_ks = *self;
            let n = count as int;
            assert(new_ks.backing@.len() == old_ks.backing@.len() + ENTRY_LEN);
            assert(new_ks.count() == n + 1);
            assert forall|k: int| HEADER_LEN <= k < new_ks.backing@.len() implies new_ks.backing@[k]
                == appended[k] by {}
            assert forall|j: int| 0 <= j < n implies slot(new_ks.backing@, j) =~= slot(
                old_ks.backing@,
                j,
            ) by {
                assert(HEADER_LEN + ENTRY_LEN * j + ENTRY_LEN <= HEADER_LEN + ENTRY_LEN * n) by (nonlinear_arith)
                    requires j < n;
            }
            assert(slot(new_ks.backing@, n) =~= cipher_text);
            lemma_stream_xor_involutive(self.key.keys@, self.key.nons@, slot_pos(n), e);
            assert(new_ks.plain(n) == e);
            assert(new_ks.entries() =~= old_ks.entries().push(e));
            assert(new_ks.backing@.subrange(0, 32) =~= old_ks.backing@.subrange(0, 32));
        }
        Some(true)
    }

    /// Looks up the entry whose name tag is `name_hash`: decrypts the slots in
    /// order into `current` and returns the index of the first match. An
    /// unauthenticated store, or a name tag that is not 64 bytes, gives `None`.
    pub fn get_entry(&mut self, name_hash: &[u8]) -> (r: Option<u64>)
        requires
            old(self).wf(),
        ensures
            final(self).wf(),
            final(self).backing@ == old(self).backing@,
            final(self).key == old(self).key,
            final(self).authenticated == old(self).authenticated,
            !old(self).authenticated || name_hash@.len() != 64 ==> r is None && final(self).current
                == old(self).current,
            r matches Some(i) ==> old(self).authenticated && old(self).first_named(i as int, name_hash@)
                && final(self).current.0@ == old(self).plain(i as int),
            r is None && old(self).authenticated ==> !old(self).holds_name(name_hash@),
            r is None && old(self).authenticated && name_hash@.len() == 64 ==> if old(self).count() > 0 {
                final(self).current.0@ == old(self).plain(old(self).count() - 1)
            } else {
                final(self).current == old(self).current
            },
    {
        if !self.authenticated {
            return None;
        }
        if name_hash.len() != 64 {
            return None;
        }
        let blen = self.backing.len();
        let count = (blen - HEADER_LEN) / ENTRY_LEN;
        let mut i: usize = 0;
        while i < count
            invariant
                blen == self.backing@.len(),
                old(self).wf(),
                old(self).authenticated,
                name_hash@.len() == 64,
                self.backing@ == old(self).backing@,
                self.key == old(self).key,
                self.authenticated == old(self).authenticated,
                count == old(self).count(),
                count <= MAX_ENTRIES,
                0 <= i <= count,
                forall|j: int| 0 <= j < i ==> !old(self).named(j, name_hash@),
                i > 0 ==> self.current.0@ == old(self).plain(i - 1),
                i == 0 ==> self.current == old(self).current,
            decreases count - i,
        {
            assert(HEADER_LEN + ENTRY_LEN * i + ENTRY_LEN <= self.backing@.len()) by (nonlinear_arith)
                requires
                    i < count,
                    count == (self.backing@.len() - HEADER_LEN) / (ENTRY_LEN as int),
                    self.backing@.len() >= HEADER_LEN,
            ;
            let off = HEADER_LEN + i * ENTRY_LEN;
            copy_into(&mut self.current.0, 0, self.backing.as_slice(), off, ENTRY_LEN);
            let pos = (i as u64) * SLOT_STREAM_LEN;
            xor_keystream(&mut self.current.0, &self.key.nons, pos, &self.key.keys);
            assert(self.current.0@ =~= old(self).plain(i as int));
            if ct_equal(self.current.name(), name_hash) {
                return Some(i as u64);
            }
            i += 1;
        }
        None
    }

    /// Appends a whole entry; see `add_entry`.
    pub fn add_whole_entry(&mut self, e: &Entry) -> (r: Option<bool>)
        requires
            old(self).wf(),
        ensures
            final(self).wf(),
            final(self).key == old(self).key,
            final(self).authenticated == old(self).authenticated,
            final(self).current == old(self).current,
            !old(self).authenticated || old(self).count() >= MAX_ENTRIES ==> r == Some(false)
                && final(self).backing@ == old(self).backing@,
            old(self).authenticated && old(self).count() < MAX_ENTRIES ==> r == Some(true)
                && final(self).salts() == old(self).salts() && final(self).entries() == old(
                self,
            ).entries().push(e.0@),
    {
        let r = self.add_entry(e.name(), e.crypt(), e.auth(), e.hmac());
        assert(entry_bytes(
            e.0@.subrange(0, 64),
            e.0@.subrange(64, 80),
            e.0@.subrange(80, 96),
            e.0@.subrange(96, 160),
        ) =~= e.0@);
        r
    }

    /// Rewrites the first entry named `name_hash` with the given pieces,
    /// encrypted again at its own slot, and refreshes the header digest.
    fn update_entry_with_pieces(
        &mut self,
        name_hash: &[u8],
        csalt: &[u8],
        asalt: &[u8],
        file_hash: &[u8],
    ) -> (r: Option<bool>)
        requires
            old(self).wf(),
        ensures
            final(self).wf(),
            final(self).key == old(self).key,
            final(self).authenticated == old(self).authenticated,
            !old(self).authenticated ==> r == Some(false) && final(self).backing@ == old(self).backing@,
            old(self).authenticated && (!pieces_fit(name_hash@, csalt@, asalt@, file_hash@) || !old(
                self,
            ).holds_name(name_hash@)) ==> r is None && final(self).backing@ == old(self).backing@,
            forall|i: int|
                old(self).authenticated && pieces_fit(name_hash@, csalt@, asalt@, file_hash@) && #[trigger] old(
                    self,
                ).first_named(i, name_hash@) ==> {
                    &&& r == Some(true)
                    &&& final(self).salts() == old(self).salts()
                    &&& final(self).entries() == old(self).entries().update(
                        i,
                        entry_bytes(name_hash@, csalt@, asalt@, file_hash@),
                    )
                    &&& final(self).current.0@ == entry_bytes(name_hash@, csalt@, asalt@, file_hash@)
                },
    {
        if !self.authenticated {
            return Some(false);
        }
        if name_hash.len() != 64 {
            return None;
        }
        if csalt.len() != 16 {
            return None;
        }
        if asalt.len() != 16 {
            return None;
        }
        if file_hash.len() != 64 {
            return None;
        }
        let index = match self.get_entry(name_hash) {
            Some(x) => x,
            None => return None,
        };
        self.current = match Entry::from_pieces(name_hash, csalt, asalt, file_hash) {
            Some(x) => x,
            None => return None,
        };
        let idx = index as usize;
        let ghost n = index as int;
        let ghost e = self.current.0@;
        let mut out = self.current.0;
        let pos = index * SLOT_STREAM_LEN;
        xor_keystream(&mut out, &self.key.nons, pos, &self.key.keys);
        let ghost cipher_text = out@;
        assert(cipher_text =~= stream_xor(self.key.keys@, self.key.nons@, slot_pos(n), e));
        let blen = self.backing.len();
        assert(HEADER_LEN + ENTRY_LEN * n + ENTRY_LEN <= blen) by (nonlinear_arith)
            requires
                n < (blen - HEADER_LEN) / (ENTRY_LEN as int),
                blen >= HEADER_LEN,
        ;
        let off = HEADER_LEN + idx * ENTRY_LEN;
        let ghost written = overwrite(self.backing@, off as int, out@.subrange(0, 160));
        copy_into(self.backing.as_mut_slice(), off, &out, 0, ENTRY_LEN);
        self.update_hmac();
        proof {
            let old_ks = *old(self);
            let new_ks = *self;
            assert(out@.subrange(0, 160) =~= cipher_text);
            lemma_slot_rewritten(old_ks.backing@, new_ks.backing@, n, cipher_text);
            lemma_stream_xor_involutive(self.key.keys@, self.key.nons@, slot_pos(n), e);
            assert(new_ks.plain(n) == e);
            assert(forall|j: int| 0 <= j < old_ks.count() && j != n ==> new_ks.plain(j) == old_ks.plain(j));
            assert(new_ks.entries() =~= old_ks.entries().update(n, e));
            assert(new_ks.backing@.subrange(0, 32) =~= old_ks.backing@.subrange(0, 32));
            assert forall|i: int| #[trigger] old_ks.first_named(i, name_hash@) implies i == n by {
                if i < n {
                    assert(!old_ks.named(i, name_hash@));
                } else if i > n {
                    assert(!old_ks.named(n, name_hash@));
                }
            }
        }
        Some(true)
    }

    /// Rewrites the first entry carrying `ent`'s name tag with `ent`.
    fn update_entry(&mut self, ent: Entry) -> (r: Option<bool>)
        requires
            old(self).wf(),
        ensures
            final(self).wf(),
            final(self).key == old(self).key,
            final(self).authenticated == old(self).authenticated,
            !old(self).authenticated ==> r == Some(false) && final(self).backing@ == old(self).backing@,
            old(self).authenticated && !old(self).holds_name(ent.0@.subrange(0, 64)) ==> r is None
                && final(self).backing@ == old(self).backing@,
            forall|i: int|
                old(self).authenticated && #[trigger] old(self).first_named(i, ent.0@.subrange(0, 64)) ==> {
                    &&& r == Some(true)
                    &&& final(self).salts() == old(self).salts()
                    &&& final(self).entries() == old(self).entries().update(i, ent.0@)
                    &&& final(self).current.0@ == ent.0@
                },
    {
        if !self.authenticated {
            return Some(false);
        }
        assert(entry_bytes(
            ent.0@.subrange(0, 64),
            ent.0@.subrange(64, 80),
            ent.0@.subrange(80, 96),
            ent.0@.subrange(96, 160),
        ) =~= ent.0@);
        self.update_entry_with_pieces(ent.name(), ent.crypt(), ent.auth(), ent.hmac())
    }

    /// The entry that a tag update starts from: `current` when it already
    /// carries `name`, else the stored entry `i`.
    pub open spec fn tag_source(self, name: Seq<u8>, i: int) -> Seq<u8> {
        if self.current.0@.subrange(0, 64) == name {
            self.current.0@
        } else {
            self.plain(i)
        }
    }

    /// Sets the file tag of the entry named `idx` to `tag`, looking the entry
    /// up first unless `current` already carries that name, then rewrites it
    /// at its slot and refreshes the header digest.
    pub fn update_entry_by_tag(&mut self, idx: &[u8], tag: &[u8]) -> (r: Option<bool>)
        requires
            old(self).wf(),
        ensures
            final(self).wf(),
            final(self).key == old(self).key,
            final(self).authenticated == old(self).authenticated,
            !old(self).authenticated ==> r == Some(false) && final(self).backing@ == old(self).backing@,
            old(self).authenticated && (!old(self).holds_name(idx@) || tag@.len() != 64) ==> r is None
                && final(self).backing@ == old(self).backing@,
            forall|i: int|
                old(self).authenticated && tag@.len() == 64 && #[trigger] old(self).first_named(i, idx@) ==> {
                    &&& r == Some(true)
                    &&& final(self).salts() == old(self).salts()
                    &&& final(self).entries() == old(self).entries().update(
                        i,
                        old(self).tag_source(idx@, i).subrange(0, 96) + tag@,
                    )
                    &&& final(self).current.0@ == old(self).tag_source(idx@, i).subrange(0, 96) + tag@
                },
    {
        if !self.authenticated {
            return Some(false);
        }
        if !ct_equal(self.get_name(), idx) {
            if self.get_entry(idx).is_none() {
                return None;
            }
        }
        proof {
            assert forall|i: int, j: int|
                old(self).first_named(i, idx@) && old(self).first_named(j, idx@) implies i == j by {
                if i < j {
                    assert(!old(self).named(i, idx@));
                } else if i > j {
                    assert(!old(self).named(j, idx@));
                }
            }
        }
        if !self.current.update_tag(tag) {
            return None;
        }
        let tmp = Entry(self.current.0);
        assert(tmp.0@.subrange(0, 64) =~= idx@);
        let ghost mid = *self;
        assert(forall|j: int| mid.plain(j) == old(self).plain(j));
        assert(forall|j: int| #[trigger] mid.named(j, idx@) == old(self).named(j, idx@));
        let r = self.update_entry(tmp);
        proof {
            assert(mid.count() == old(self).count());
            if old(self).holds_name(idx@) {
                let w = choose|w: int| 0 <= w < old(self).count() && old(self).named(w, idx@);
                assert(mid.named(w, idx@));
            }
            if mid.holds_name(idx@) {
                let w = choose|w: int| 0 <= w < mid.count() && mid.named(w, idx@);
                assert(old(self).named(w, idx@));
            }
            assert forall|i: int|
                old(self).authenticated && tag@.len() == 64 && #[trigger] old(self).first_named(i, idx@) implies mid.first_named(i, idx@) by {}
        }
        r
    }

    fn get_name(&self) -> (r: &[u8])
        ensures
            r@ == self.current.0@.subrange(0, 64),
    {
        self.current.name()
    }

    /// The crypt salt of the entry last read.
    pub fn get_crypt_key(&self) -> (r: &[u8])
        ensures
            r@ == self.current.0@.subrange(64, 80),
    {
        self.current.crypt()
    }

    /// The auth salt of the entry last read.
    pub fn get_auth_key(&self) -> (r: &[u8])
        ensures
            r@ == self.current.0@.subrange(80, 96),
    {
        self.current.auth()
    }

    /// The file tag of the entry last read.
    pub fn get_hmac(&self) -> (r: &[u8])
        ensures
            r@ == self.current.0@.subrange(96, 160),
    {
        self.current.hmac()
    }

    /// Recomputes the header digest over the current image.
    fn update_hmac(&mut self)
        requires
            old(self).backing@.len() >= HEADER_LEN,
        ensures
            final(self).backing@ == overwrite(
                old(self).backing@,
                32,
                expected_hmac(old(self).key.auth.0@, old(self).key.afin.0@, old(self).backing@),
            ),
            final(self).hmac_valid(),
            final(self).backing@.len() == old(self).backing@.len(),
            forall|k: int|
                0 <= k < old(self).backing@.len() && !(32 <= k < 96) ==> #[trigger] final(self).backing@[k]
                    == old(self).backing@[k],
            final(self).key == old(self).key,
            final(self).current == old(self).current,
            final(self).authenticated == old(self).authenticated,
    {
        let len = self.backing.len();
        let digest = if len > HEADER_LEN {
            keyed_digest(&self.key, slice_subrange(self.backing.as_slice(), HEADER_LEN, len))
        } else {
            let sentinel = no_entries_bytes();
            keyed_digest(&self.key, sentinel.as_slice())
        };
        copy_into(self.backing.as_mut_slice(), 32, &digest, 0, 64);
        assert(digest@.subrange(0, 64) =~= digest@);
        assert(covered_region(self.backing@) =~= covered_region(old(self).backing@));
        assert(self.backing@.subrange(32, 96) =~= digest@);
    }
}

} // verus!
