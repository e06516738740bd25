use salt_map::key_store::{Entry, KeyStore};
use salt_map::Salt;

const PASS: &str = "ReallySecurePassword12345";

fn store() -> KeyStore {
    KeyStore::create_from(PASS, &Salt([1u8; 16]), &Salt([2u8; 16])).expect("kdf")
}

#[test]
fn new_store_is_a_bare_authenticated_header() {
    let ks = store();
    assert!(ks.authenticated);
    assert_eq!(ks.backing.len(), 96);
    assert_eq!(&ks.backing[..16], &[1u8; 16][..]);
    assert_eq!(&ks.backing[16..32], &[2u8; 16][..]);
    let again = KeyStore::new_from(PASS, Some(ks.backing.clone())).unwrap();
    assert!(again.authenticated);
    assert_eq!(again.get_own_final().0, ks.get_own_final().0);
    assert_eq!(again.get_own_auth().0, ks.get_own_auth().0);
}

#[test]
fn short_passphrase_opens_nothing() {
    assert!(KeyStore::create_from("too short", &Salt([1u8; 16]), &Salt([2u8; 16])).is_none());
    assert!(KeyStore::new_from("too short", None).is_none());
}

#[test]
fn entries_are_added_found_and_updated() {
    let mut ks = store();
    let n1 = [11u8; 64];
    let n2 = [22u8; 64];
    assert_eq!(ks.add_entry(&n1, &[3u8; 16], &[4u8; 16], &[0u8; 64]), Some(true));
    assert_eq!(ks.add_entry(&n2, &[5u8; 16], &[6u8; 16], &[0u8; 64]), Some(true));
    assert_eq!(ks.backing.len(), 96 + 2 * 160);
    assert_eq!(ks.add_entry(&n2[..63], &[5u8; 16], &[6u8; 16], &[0u8; 64]), None);

    assert_eq!(ks.get_entry(&n2), Some(1));
    assert_eq!(ks.get_crypt_key(), &[5u8; 16][..]);
    assert_eq!(ks.get_auth_key(), &[6u8; 16][..]);
    assert_eq!(ks.get_entry(&n1), Some(0));
    assert_eq!(ks.get_entry(&[33u8; 64]), None);
    assert_eq!(ks.get_crypt_key(), &[5u8; 16][..]);
    assert_eq!(ks.get_entry(&n1[..10]), None);

    assert_eq!(ks.update_entry_by_tag(&n1, &[8u8; 64]), Some(true));
    assert_eq!(ks.get_hmac(), &[8u8; 64][..]);
    assert_eq!(ks.update_entry_by_tag(&n1, &[8u8; 10]), None);
    assert_eq!(ks.update_entry_by_tag(&[44u8; 64], &[8u8; 64]), None);

    let mut again = KeyStore::new_from(PASS, Some(ks.backing.clone())).unwrap();
    assert!(again.authenticated);
    assert_eq!(again.get_entry(&n1), Some(0));
    assert_eq!(again.get_hmac(), &[8u8; 64][..]);
    assert_eq!(again.get_crypt_key(), &[3u8; 16][..]);
    assert_eq!(again.get_entry(&n2), Some(1));
    assert_eq!(again.get_hmac(), &[0u8; 64][..]);
}

#[test]
fn whole_entries_are_added() {
    let mut ks = store();
    let e = Entry::from_pieces(&[12u8; 64], &[1u8; 16], &[2u8; 16], &[3u8; 64]).unwrap();
    assert_eq!(ks.add_whole_entry(&e), Some(true));
    assert_eq!(ks.get_entry(&[12u8; 64]), Some(0));
    assert_eq!(ks.get_hmac(), &[3u8; 64][..]);
}

#[test]
fn entries_are_encrypted_at_rest() {
    let mut ks = store();
    let name = [0u8; 64];
    assert_eq!(ks.add_entry(&name, &[0u8; 16], &[0u8; 16], &[0u8; 64]), Some(true));
    assert_eq!(ks.add_entry(&name, &[0u8; 16], &[0u8; 16], &[0u8; 64]), Some(true));
    let first = &ks.backing[96..256];
    let second = &ks.backing[256..416];
    assert_ne!(first, &[0u8; 160][..]);
    assert_ne!(first, second);
}

#[test]
fn unauthenticated_store_refuses_changes() {
    let mut ks = store();
    assert_eq!(ks.add_entry(&[1u8; 64], &[0u8; 16], &[0u8; 16], &[0u8; 64]), Some(true));
    let mut image = ks.backing.clone();
    image[200] ^= 1;
    let mut bad = KeyStore::new_from(PASS, Some(image.clone())).unwrap();
    assert!(!bad.authenticated);
    assert_eq!(bad.add_entry(&[2u8; 64], &[0u8; 16], &[0u8; 16], &[0u8; 64]), Some(false));
    assert_eq!(bad.get_entry(&[1u8; 64]), None);
    assert_eq!(bad.update_entry_by_tag(&[1u8; 64], &[0u8; 64]), Some(false));
    assert_eq!(bad.backing, image);
}

#[test]
fn misshapen_images_do_not_authenticate() {
    let ks = store();
    let mut longer = ks.backing.clone();
    longer.push(0);
    assert!(!KeyStore::new_from(PASS, Some(longer)).unwrap().authenticated);
    let shorter = ks.backing[..50].to_vec();
    assert!(!KeyStore::new_from(PASS, Some(shorter)).unwrap().authenticated);
}

#[test]
fn fresh_stores_draw_distinct_salts() {
    let a = KeyStore::new_from(PASS, None).unwrap();
    let b = KeyStore::new_from(PASS, None).unwrap();
    assert!(a.authenticated && b.authenticated);
    assert_ne!(&a.backing[..32], &b.backing[..32]);
}
