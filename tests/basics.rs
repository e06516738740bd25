use salt_map::cipher::{align, Cipher};
use salt_map::key_store::{Entry, Header};
use salt_map::{KTag, Salt, CHUNK_LEN};

#[test]
fn salt_from_slice_needs_sixteen_bytes() {
    let raw: Vec<u8> = (0u8..16).collect();
    let s = Salt::from_slice(&raw).unwrap();
    assert_eq!(&s.0[..], &raw[..]);
    assert!(Salt::from_slice(&raw[..15]).is_none());
    assert!(Salt::from_slice(&[0u8; 17]).is_none());
}

#[test]
fn ktag_from_slice_needs_sixty_four_bytes() {
    let raw: Vec<u8> = (0u8..64).collect();
    let t = KTag::from_slice(&raw).unwrap();
    assert_eq!(&t.0[..], &raw[..]);
    assert!(KTag::from_slice(&raw[..63]).is_none());
    assert!(KTag::from_slice(&[]).is_none());
}

#[test]
fn align_counts_chunks() {
    assert_eq!(align(0), 0);
    assert_eq!(align(64), 1);
    assert_eq!(align(CHUNK_LEN), 1);
    assert_eq!(align(CHUNK_LEN + 54), 2);
    assert_eq!(align(CHUNK_LEN * 1500 + 123), 1501);
}

#[test]
fn header_pieces_and_fields() {
    let cs = [1u8; 16];
    let a = [2u8; 16];
    let h = [3u8; 64];
    let header = Header::from_pieces(&cs, &a, &h).unwrap();
    assert_eq!(header.csalt(), &cs[..]);
    assert_eq!(header.asalt(), &a[..]);
    assert_eq!(header.hmac(), &h[..]);
    assert!(Header::from_pieces(&cs[..15], &a, &h).is_none());
    assert!(Header::from_pieces(&cs, &a, &h[..63]).is_none());
}

#[test]
fn entry_pieces_fields_and_tag_update() {
    let name = [9u8; 64];
    let cs = [1u8; 16];
    let a = [2u8; 16];
    let tag = [0u8; 64];
    let mut e = Entry::from_pieces(&name, &cs, &a, &tag).unwrap();
    assert_eq!(e.name(), &name[..]);
    assert_eq!(e.crypt(), &cs[..]);
    assert_eq!(e.auth(), &a[..]);
    assert_eq!(e.hmac(), &tag[..]);
    assert!(!e.update_tag(&[7u8; 63]));
    assert_eq!(e.hmac(), &tag[..]);
    assert!(e.update_tag(&[7u8; 64]));
    assert_eq!(e.hmac(), &[7u8; 64][..]);
    assert_eq!(e.name(), &name[..]);
    assert!(Entry::from_pieces(&name, &cs, &a[..3], &tag).is_none());
}

#[test]
fn cipher_refuses_short_salts_and_passphrases() {
    let good = [5u8; 16];
    let pass = "ReallySecurePassword12345";
    assert!(Cipher::from_argon(pass, &good[..15], &good, 16).is_none());
    assert!(Cipher::from_argon(pass, &good, &good[..8], 16).is_none());
    assert!(Cipher::from_argon("short", &good, &good, 16).is_none());
    assert!(Cipher::from_argon("fifteen-bytes..", &good, &good, 16).is_none());
}

#[test]
fn cipher_derivation_is_deterministic_and_salt_dependent() {
    let pass = "ReallySecurePassword12345";
    let c1 = Cipher::from_argon(pass, &[1u8; 16], &[2u8; 16], 16).unwrap();
    let c2 = Cipher::from_argon(pass, &[1u8; 16], &[2u8; 16], 16).unwrap();
    let c3 = Cipher::from_argon(pass, &[3u8; 16], &[2u8; 16], 16).unwrap();
    assert_eq!(c1.keys, c2.keys);
    assert_eq!(c1.nons, c2.nons);
    assert_eq!(c1.auth(), c2.auth());
    assert_eq!(c1.f_auth(), c2.f_auth());
    assert_ne!(c1.keys, c3.keys);
    assert_eq!(c1.auth(), c3.auth());
    assert_ne!(c1.auth(), c1.f_auth());
    assert_ne!(&c1.keys[..16], &[1u8; 16][..]);
}

#[test]
fn cipher_splits_raw_outputs() {
    let craw: Vec<u8> = (0u8..64).collect();
    let araw: Vec<u8> = (100u8..164).collect();
    let c = Cipher::from_vecs(&craw, &araw).unwrap();
    assert_eq!(&c.keys[..], &craw[..32]);
    assert_eq!(&c.nons[..], &craw[32..56]);
    assert_eq!(c.auth(), &araw[..16]);
    assert_eq!(c.f_auth(), &araw[16..32]);
    assert!(Cipher::from_vecs(&craw[..55], &araw).is_none());
    assert!(Cipher::from_vecs(&craw, &araw[..31]).is_none());
}
