use aes_gcm::aead::{Aead, KeyInit};
use rusty_pstore::crypto::{decrypt, encrypt, gen_key, is_splittable, RuntimeError};
use rusty_pstore::encoding::{decode, encode};

fn test_key() -> Vec<u8> {
    (0u8..32).collect()
}

fn test_iv() -> String {
    String::from("AAECAwQFBgcICQoL")
}

#[test]
fn gen_key_known_answer() {
    let key = gen_key(&String::from("hunter2"), b"c2FsdHNhbHRzYWx0c2FsdA==");
    assert_eq!(
        key,
        [
            57, 146, 223, 90, 231, 127, 224, 20, 230, 201, 102, 171, 112, 126, 175, 226, 37, 123,
            97, 132, 98, 59, 211, 77, 234, 10, 15, 58, 158, 200, 245, 242
        ]
    );
}

#[test]
fn gen_key_ignores_surrounding_white_space() {
    let plain = gen_key(&String::from("hunter2"), b"salt");
    let padded = gen_key(&String::from(" \t hunter2\n"), b"salt");
    assert_eq!(plain, padded);
    let other = gen_key(&String::from("hunter 2"), b"salt");
    assert_ne!(plain, other);
}

#[test]
fn gen_key_depends_on_salt() {
    assert_ne!(gen_key(&String::from("hunter2"), b"salt"), gen_key(&String::from("hunter2"), b"pepper"));
}

#[test]
fn encrypt_known_answers() {
    let key = test_key();
    let iv = test_iv();
    assert_eq!(
        encrypt(&String::from("__check"), &iv, &key).unwrap(),
        "GF21c6CGqQ==uRJIaTqkvUMDVQwA5dQRCQ=="
    );
    assert_eq!(encrypt(&String::from("gmail"), &iv, &key).unwrap(), "IG+3cqk=ZXWMfdJcPz/rpkLqwXFZ4Q==");
    assert_eq!(encrypt(&String::from(""), &iv, &key).unwrap(), "9MLbHcOIBaN7khccXQqBzA==");
    assert_eq!(
        encrypt(&String::from("pässwörd"), &iv, &key).unwrap(),
        "N8FyaLaSAa3/JQ==izRLTsCvLTdQCcljqJqSIA=="
    );
}

#[test]
fn decrypt_known_answers() {
    let key = test_key();
    let iv = test_iv();
    assert_eq!(decrypt(&String::from("IG+3cqk=ZXWMfdJcPz/rpkLqwXFZ4Q=="), &iv, &key).unwrap(), "gmail");
    assert_eq!(decrypt(&String::from("9MLbHcOIBaN7khccXQqBzA=="), &iv, &key).unwrap(), "");
}

#[test]
fn decrypt_inverts_encrypt() {
    let key = test_key();
    let iv = test_iv();
    for text in ["__check", "a", "some longer text with spaces", "ünïcödé ✓", ""] {
        let c = encrypt(&String::from(text), &iv, &key).unwrap();
        assert!(is_splittable(&c));
        assert_eq!(decrypt(&c, &iv, &key).unwrap(), text);
    }
}

#[test]
fn decrypt_reports_bad_base64() {
    let key = test_key();
    let iv = test_iv();
    let r = decrypt(&String::from("@@@@uRJIaTqkvUMDVQwA5dQRCQ=="), &iv, &key);
    assert!(matches!(r, Err(RuntimeError::DecodeError(_))));
    let r = decrypt(&String::from("GF21c6CGqQ==uRJIaTqkvUMDVQwA5dQRCQ=="), &String::from("not base64!"), &key);
    assert!(matches!(r, Err(RuntimeError::DecodeError(_))));
}

#[test]
fn decrypt_rejects_wrong_key() {
    let mut key = test_key();
    key[0] ^= 1;
    let r = decrypt(&String::from("GF21c6CGqQ==uRJIaTqkvUMDVQwA5dQRCQ=="), &test_iv(), &key);
    assert!(matches!(r, Err(RuntimeError::Basic())));
}

#[test]
fn decrypt_rejects_tampered_ciphertext() {
    let r = decrypt(&String::from("GF21c6CGqA==uRJIaTqkvUMDVQwA5dQRCQ=="), &test_iv(), &test_key());
    assert!(matches!(r, Err(RuntimeError::Basic())));
}

#[test]
fn decrypt_rejects_nonce_of_wrong_length() {
    let iv = encode(&[0u8; 16]);
    let r = decrypt(&String::from("GF21c6CGqQ==uRJIaTqkvUMDVQwA5dQRCQ=="), &iv, &test_key());
    assert!(matches!(r, Err(RuntimeError::Basic())));
}

#[test]
fn decrypt_rejects_plaintext_that_is_not_utf8() {
    let r = decrypt(&String::from("uPw=hSrkEYdEzyfPmT0/QL8KTA=="), &test_iv(), &test_key());
    assert!(matches!(r, Err(RuntimeError::Basic())));
}

#[test]
fn decrypt_reads_what_aes_gcm_sealed() {
    let key = test_key();
    let cipher = aes_gcm::Aes256Gcm::new(aes_gcm::Key::<aes_gcm::Aes256Gcm>::from_slice(&key));
    let nonce = aes_gcm::Nonce::from_slice(&[0u8, 1, 2, 3, 4, 5, 6, 7, 8, 9, 10, 11]);
    let sealed = cipher.encrypt(nonce, "outlook".as_bytes()).unwrap();
    let (ct, tag) = sealed.split_at(sealed.len() - 16);
    let text = encode(ct) + &encode(tag);
    assert_eq!(decrypt(&text, &test_iv(), &key).unwrap(), "outlook");
}

#[test]
fn splittable_texts() {
    assert!(!is_splittable(&String::from("short")));
    assert!(is_splittable(&String::from("9MLbHcOIBaN7khccXQqBzA==")));
    // a two-byte character straddles the cut
    let s = format!("é{}", "a".repeat(23));
    assert_eq!(s.len(), 25);
    assert!(!is_splittable(&s));
}

#[test]
fn decrypt_reports_the_error_of_the_first_part_that_fails() {
    let key = test_key();
    let bad_iv = String::from("not base64!");
    // the ciphertext fails first, though tag and nonce fail too
    let r = decrypt(&(String::from("@@@@") + &"*".repeat(24)), &bad_iv, &key);
    let e = decode("@@@@").unwrap_err();
    assert_ne!(e, decode(&"*".repeat(24)).unwrap_err());
    assert!(matches!(r, Err(RuntimeError::DecodeError(x)) if x == e));
    // a good ciphertext: the tag's error
    let r = decrypt(&String::from("GF21c6CGqQ==#RJIaTqkvUMDVQwA5dQRCQ=="), &bad_iv, &key);
    let e = decode("#RJIaTqkvUMDVQwA5dQRCQ==").unwrap_err();
    assert!(matches!(r, Err(RuntimeError::DecodeError(x)) if x == e));
    // good ciphertext and tag: the nonce's error
    let r = decrypt(&String::from("GF21c6CGqQ==uRJIaTqkvUMDVQwA5dQRCQ=="), &bad_iv, &key);
    let e = decode("not base64!").unwrap_err();
    assert!(matches!(r, Err(RuntimeError::DecodeError(x)) if x == e));
}
