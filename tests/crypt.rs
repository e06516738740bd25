use salt_map::cipher::align;
use salt_map::crypt::{keystore_path, Crypt};
use salt_map::key_store::KeyStore;
use salt_map::CHUNK_LEN;

const PASS: &str = "ReallySecurePassword12345";

fn noise(len: usize, seed: u64) -> Vec<u8> {
    let mut x = seed;
    let mut v = Vec::with_capacity(len);
    for _ in 0..len {
        x = x.wrapping_mul(6364136223846793005).wrapping_add(1442695040888963407);
        v.push((x >> 33) as u8);
    }
    v
}

fn fresh_store(pass: &str) -> KeyStore {
    KeyStore::new_from(pass, None).expect("couldn't create keystore")
}

fn reopen(image: &[u8], pass: &str) -> KeyStore {
    KeyStore::new_from(pass, Some(image.to_vec())).expect("couldn't open keystore")
}

#[test]
fn test_encrypt() {
    let paswd = "ReallySecurePassword12345";
    let path = "mars.gif";
    let mut test_crypt = Crypt::init(paswd, path, fresh_store(paswd)).expect("couldn't init crypt!");
    let mut file = noise(CHUNK_LEN + CHUNK_LEN / 2, 1);

    let e_result = test_crypt.encrypt(&mut file);

    assert!(e_result.expect("couldn't encrypt!"));
}

#[test]
fn test_decrypt() {
    let paswd = "ReallySecurePassword12345";
    let path = "mars.gif";
    let plain = noise(CHUNK_LEN + CHUNK_LEN / 2, 2);
    let mut file = plain.clone();
    let mut first = Crypt::init(paswd, path, fresh_store(paswd)).expect("couldn't init crypt!");
    assert_eq!(first.encrypt(&mut file), Some(true));
    let image = first.keystore().backing.clone();

    let mut test_crypt = Crypt::init(paswd, path, reopen(&image, paswd)).expect("couldn't init crypt!");
    let d_result = test_crypt.decrypt(&mut file);

    assert!(d_result.expect("couldn't decrypt!"));
    assert_eq!(file, plain);
}

#[test]
fn encrypt_grows_store_by_one_entry_and_changes_file() {
    let plain = noise(CHUNK_LEN + CHUNK_LEN / 2, 3);
    let mut file = plain.clone();
    let mut c = Crypt::init(PASS, "mars.gif", fresh_store(PASS)).unwrap();
    assert_eq!(c.encrypt(&mut file), Some(true));
    assert_eq!(c.keystore().backing.len(), 96 + 160);
    assert_eq!(file.len(), plain.len());
    assert_ne!(file, plain);
    assert!(c.keystore().authenticated);
}

#[test]
fn wrong_passphrase_is_refused() {
    let mut file = noise(1000, 4);
    let mut c = Crypt::init(PASS, "mars.gif", fresh_store(PASS)).unwrap();
    assert_eq!(c.encrypt(&mut file), Some(true));
    let image = c.keystore().backing.clone();

    let ks = reopen(&image, "WrongPassword123456");
    assert!(!ks.authenticated);
    assert!(Crypt::init("WrongPassword123456", "mars.gif", ks).is_none());
}

#[test]
fn tampered_ciphertext_fails_to_decrypt() {
    let mut file = noise(CHUNK_LEN + 10, 5);
    let mut c = Crypt::init(PASS, "mars.gif", fresh_store(PASS)).unwrap();
    assert_eq!(c.encrypt(&mut file), Some(true));
    file[0] ^= 1;
    let tampered = file.clone();

    let mut d = Crypt::init(PASS, "mars.gif", c.meta).unwrap();
    assert_eq!(d.decrypt(&mut file), Some(false));
    assert_eq!(file, tampered);
}

#[test]
fn tampered_keystore_digest_is_refused() {
    let mut file = noise(2000, 6);
    let mut c = Crypt::init(PASS, "mars.gif", fresh_store(PASS)).unwrap();
    assert_eq!(c.encrypt(&mut file), Some(true));
    let mut image = c.keystore().backing.clone();
    image[40] ^= 0x80;

    let ks = reopen(&image, PASS);
    assert!(!ks.authenticated);
    assert!(Crypt::init(PASS, "mars.gif", ks).is_none());
}

#[test]
fn two_files_share_one_store() {
    let f1 = noise(3000, 7);
    let f2 = noise(CHUNK_LEN + 5000, 8);
    let (mut e1, mut e2) = (f1.clone(), f2.clone());

    let mut c1 = Crypt::init(PASS, "dir/one", fresh_store(PASS)).unwrap();
    assert_eq!(c1.encrypt(&mut e1), Some(true));
    let mut c2 = Crypt::init(PASS, "dir/two", c1.meta).unwrap();
    assert_eq!(c2.encrypt(&mut e2), Some(true));
    assert_eq!(c2.keystore().backing.len(), 96 + 2 * 160);

    c2.authenticated = None;
    assert_eq!(c2.decrypt(&mut e2), Some(true));
    let mut d1 = Crypt::init(PASS, "dir/one", c2.meta).unwrap();
    assert_eq!(d1.decrypt(&mut e1), Some(true));
    assert_eq!(e1, f1);
    assert_eq!(e2, f2);
    assert_eq!(d1.keystore().backing.len(), 96 + 2 * 160);
}

#[test]
fn name_tag_is_stable_across_openings() {
    let c1 = Crypt::init(PASS, "mars.gif", fresh_store(PASS)).unwrap();
    let image = c1.keystore().backing.clone();
    let c2 = Crypt::init(PASS, "mars.gif", reopen(&image, PASS)).unwrap();
    assert_eq!(c1.name_tag.0, c2.name_tag.0);
    assert_eq!(c2.keystore().backing, image);
}

#[test]
fn overwritten_last_chunk_leaves_earlier_chunks_recoverable() {
    let plain = noise(CHUNK_LEN * 2, 9);
    let mut file = plain.clone();
    let mut c = Crypt::init(PASS, "mars.gif", fresh_store(PASS)).unwrap();
    assert_eq!(c.encrypt(&mut file), Some(true));
    let junk = noise(CHUNK_LEN, 10);
    file[CHUNK_LEN..].copy_from_slice(&junk);

    assert_eq!(c.authenticate(&file), Some(false));
    assert_eq!(c.decrypt(&mut file), Some(false));
    c.open_chunk(0, &mut file[..CHUNK_LEN]);
    assert_eq!(&file[..CHUNK_LEN], &plain[..CHUNK_LEN]);
}

#[test]
fn trailing_partial_chunk_is_not_folded() {
    let mut file = noise(CHUNK_LEN + 100, 11);
    let mut c = Crypt::init(PASS, "mars.gif", fresh_store(PASS)).unwrap();
    assert_eq!(c.encrypt(&mut file), Some(true));
    file[CHUNK_LEN + 5] ^= 0xff;
    assert_eq!(c.authenticate(&file), Some(true));
    file[5] ^= 0xff;
    assert_eq!(c.authenticate(&file), Some(false));
}

#[test]
fn chunk_pieces_match_whole_file_encryption() {
    let plain = noise(CHUNK_LEN + 777, 12);
    let mut whole = plain.clone();
    let mut c = Crypt::init(PASS, "mars.gif", fresh_store(PASS)).unwrap();
    assert_eq!(c.encrypt(&mut whole), Some(true));

    let mut pieces = plain.clone();
    let mut tags = Vec::new();
    for (i, chunk) in pieces.chunks_mut(CHUNK_LEN).enumerate() {
        tags.push(c.seal_chunk(i, chunk));
    }
    assert_eq!(pieces, whole);
    assert_eq!(tags.len(), align(plain.len()));
    let t = c.tag_chunk(&whole[..CHUNK_LEN]);
    assert_eq!(t.0, tags[0].0);
    assert_ne!(&t.0[..], &whole[..64]);
    assert_eq!(c.verify_tags(&tags, whole.len()), Some(true));
}

#[test]
fn empty_file_round_trips() {
    let mut file: Vec<u8> = Vec::new();
    let mut c = Crypt::init(PASS, "empty", fresh_store(PASS)).unwrap();
    assert_eq!(c.encrypt(&mut file), Some(true));
    let mut d = Crypt::init(PASS, "empty", c.meta).unwrap();
    assert_eq!(d.decrypt(&mut file), Some(true));
    assert!(file.is_empty());
}

#[test]
fn keystore_path_keeps_directory() {
    assert_eq!(keystore_path("dir/sub/file.txt"), b"dir/sub/.keystore".to_vec());
    assert_eq!(keystore_path("mars.gif"), b".keystore".to_vec());
    assert_eq!(keystore_path("/abs/"), b"/abs/.keystore".to_vec());
}
