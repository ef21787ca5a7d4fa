use aes_gcm::aead::{Aead, AeadMutInPlace, KeyInit, Payload};
use vstd::prelude::*;
use vstd::slice::slice_to_vec;
use vstd::string::StringSliceAdditionalSpecFns;
use vstd::utf8::*;

use crate::encoding::{
    b64_decode_error, b64_decoding, b64_encoding, decode, encode, lemma_b64_ascii, lemma_b64_decoding_of_encoding,
    lemma_b64_len,
};
use crate::text::{
    all_white_space, lemma_split_before_ascii, lemma_trimmed_surrounded, str_from_utf8, trim, trimmed,
};

verus! {

broadcast use encode_utf8_decode_utf8, encode_utf8_valid_utf8;

/// The number of PBKDF2 rounds that `gen_key` runs.
pub const PBKDF2_ROUNDS: u32 = 100_000;

/// The largest message (and associated data) that AES-GCM seals: 2^36 bytes.
pub const P_MAX: u64 = 0x10_0000_0000;

/// The length in bytes of an AES-GCM authentication tag.
pub const TAG_LEN: usize = 16;

/// The length in characters of the base64 encoding of a tag.
pub const TAG_B64_LEN: usize = 24;

/// The error that `aes_gcm` reports when sealing or opening fails.
#[verifier::external_type_specification]
#[verifier::external_body]
pub struct ExAesError(aes_gcm::Error);

/// Why encryption or decryption failed.
#[derive(Debug)]
pub enum RuntimeError {
    /// The cipher refused the input, or the plaintext was not UTF-8, or the nonce had
    /// the wrong length.
    Basic(),
    /// Some input was not standard base64.
    DecodeError(base64::DecodeError),
}

impl From<aes_gcm::Error> for RuntimeError {
    fn from(_e: aes_gcm::Error) -> (res: RuntimeError) {
        RuntimeError::Basic()
    }
}

impl vstd::std_specs::convert::FromSpecImpl<aes_gcm::Error> for RuntimeError {
    open spec fn obeys_from_spec() -> bool {
        true
    }

    open spec fn from_spec(v: aes_gcm::Error) -> RuntimeError {
        RuntimeError::Basic()
    }
}

impl From<std::str::Utf8Error> for RuntimeError {
    fn from(_e: std::str::Utf8Error) -> (res: RuntimeError) {
        RuntimeError::Basic()
    }
}

impl vstd::std_specs::convert::FromSpecImpl<std::str::Utf8Error> for RuntimeError {
    open spec fn obeys_from_spec() -> bool {
        true
    }

    open spec fn from_spec(v: std::str::Utf8Error) -> RuntimeError {
        RuntimeError::Basic()
    }
}

/// PBKDF2 with HMAC-SHA-512 as pseudo-random function: the first `key_len` bytes
/// derived from `password` and `salt` in `rounds` rounds.
pub uninterp spec fn pbkdf2_hmac_sha512(
    password: Seq<u8>,
    salt: Seq<u8>,
    rounds: u32,
    key_len: nat,
) -> Seq<u8>;

/// AES-256-GCM sealing: the ciphertext of `plaintext` under `key` and `nonce`, with
/// `aad` authenticated, followed by the 16-byte tag.
pub uninterp spec fn aes256gcm_seal(
    key: Seq<u8>,
    nonce: Seq<u8>,
    aad: Seq<u8>,
    plaintext: Seq<u8>,
) -> Seq<u8>;

/// AES-256-GCM opening of `sealed` (ciphertext followed by tag): the plaintext, or
/// `None` when the tag does not authenticate the ciphertext.
pub uninterp spec fn aes256gcm_open(
    key: Seq<u8>,
    nonce: Seq<u8>,
    aad: Seq<u8>,
    sealed: Seq<u8>,
) -> Option<Seq<u8>>;

/// Derives a 32-byte key.
///
/// Trusted: calls `pbkdf2::pbkdf2::<Hmac<Sha512>>` into a 32-byte buffer. Its result
/// is named `pbkdf2_hmac_sha512`. The call fails only when HMAC refuses the password
/// as a key, which HMAC never does (keys of every length are accepted), so the
/// `expect` does not fire.
#[verifier::external_body]
fn pbkdf2_hmac_sha512_32(password: &[u8], salt: &[u8], rounds: u32) -> (key: [u8; 32])
    ensures
        key@ == pbkdf2_hmac_sha512(password@, salt@, rounds, 32),
{
    let mut key = [0u8;32];
    pbkdf2::pbkdf2::<hmac::Hmac<sha2::Sha512>>(password, salt, rounds, &mut key).expect(
        "Error making key",
    );
    key
}

/// Seals `buffer` in place and returns the tag.
///
/// Trusted: calls `Aes256Gcm::new(key).encrypt_in_place_detached(nonce, aad, buffer)`
/// (`Key::from_slice` and `Nonce::from_slice` panic on other lengths, hence the
/// `requires`). The call fails exactly when the message or the associated data is
/// longer than 2^36 bytes, and then leaves the buffer as it was. Otherwise the buffer
/// holds the ciphertext, which is as long as the message, the tag has 16 bytes, and
/// together they are `aes256gcm_seal`; opening them with the same key, nonce and
/// associated data gives the message back (AES-GCM decryption recomputes the same tag
/// and undoes the same keystream).
#[verifier::external_body]
fn aes256gcm_seal_in_place(
    key: &[u8],
    nonce: &[u8],
    aad: &[u8],
    buffer: &mut Vec<u8>,
) -> (res: Result<Vec<u8>, aes_gcm::Error>)
    requires
        key@.len() == 32,
        nonce@.len() == 12,
    ensures
        res is Ok <==> (old(buffer)@.len() <= P_MAX && aad@.len() <= P_MAX),
        res is Err ==> final(buffer)@ == old(buffer)@,
        res matches Ok(tag) ==> (tag@.len() == TAG_LEN && final(buffer)@.len() == old(buffer)@.len()),
        res matches Ok(tag) ==> final(buffer)@ + tag@ == aes256gcm_seal(
            key@,
            nonce@,
            aad@,
            old(buffer)@,
        ),
        res matches Ok(tag) ==> aes256gcm_open(key@, nonce@, aad@, final(buffer)@ + tag@) == Some(
            old(buffer)@,
        ),
{
    let mut cipher = aes_gcm::Aes256Gcm::new(aes_gcm::Key::<aes_gcm::Aes256Gcm>::from_slice(key));
    match cipher.encrypt_in_place_detached(aes_gcm::Nonce::from_slice(nonce), aad, buffer) {
        Ok(tag) => Ok(tag.to_vec()),
        Err(e) => Err(e),
    }
}

/// Opens `sealed` (ciphertext followed by tag).
///
/// Trusted: calls `Aes256Gcm::new(key).decrypt(nonce, Payload { msg: sealed, aad })`
/// (`Key::from_slice` and `Nonce::from_slice` panic on other lengths, hence the
/// `requires`). Its outcome is named `aes256gcm_open`.
#[verifier::external_body]
fn aes256gcm_open_to_vec(
    key: &[u8],
    nonce: &[u8],
    aad: &[u8],
    sealed: &[u8],
) -> (res: Result<Vec<u8>, aes_gcm::Error>)
    requires
        key@.len() == 32,
        nonce@.len() == 12,
    ensures
        match res {
            Ok(p) => aes256gcm_open(key@, nonce@, aad@, sealed@) == Some(p@),
            Err(_) => aes256gcm_open(key@, nonce@, aad@, sealed@) is None,
        },
{
    let cipher = aes_gcm::Aes256Gcm::new(aes_gcm::Key::<aes_gcm::Aes256Gcm>::from_slice(key));
    cipher.decrypt(aes_gcm::Nonce::from_slice(nonce), Payload { msg: sealed, aad })
}

/// The key derived from `password` (without its surrounding white space) and `salt`.
pub open spec fn derived_key(password: Seq<char>, salt: Seq<u8>) -> Seq<u8> {
    pbkdf2_hmac_sha512(encode_utf8(trimmed(password)), salt, PBKDF2_ROUNDS, 32)
}

/// Derives the 32-byte AES key of a password: PBKDF2-HMAC-SHA-512 over the UTF-8
/// bytes of the password without leading and trailing white space, 100 000 rounds.
pub fn gen_key(password: &String, salt: &[u8]) -> (key: [u8; 32])
    ensures
        key@ == derived_key(password@, salt@),
{
    let rounds: u32 = PBKDF2_ROUNDS;
    let trimmed_password = trim(password.as_str());
    pbkdf2_hmac_sha512_32(trimmed_password.as_bytes(), salt, rounds)
}

/// `iv` is the base64 encoding of a 12-byte nonce.
pub open spec fn is_nonce_b64(iv: Seq<char>) -> bool {
    b64_decoding(iv) matches Some(n) && n.len() == 12
}

/// The nonce that `iv` encodes.
pub open spec fn nonce_of(iv: Seq<char>) -> Seq<u8> {
    b64_decoding(iv)->0
}

/// The sealed bytes of `plain`: the AES-256-GCM ciphertext of its UTF-8 bytes under
/// `key` and the nonce that `iv` encodes, without associated data, followed by the tag.
pub open spec fn sealed_of(plain: Seq<char>, iv: Seq<char>, key: Seq<u8>) -> Seq<u8> {
    aes256gcm_seal(key, nonce_of(iv), seq![], encode_utf8(plain))
}

/// The text that `encrypt(plain, iv, key)` returns: the base64 ciphertext followed by
/// the base64 tag.
pub open spec fn encrypted_text(plain: Seq<char>, iv: Seq<char>, key: Seq<u8>) -> Seq<char> {
    let n = encode_utf8(plain).len() as int;
    let sealed = sealed_of(plain, iv, key);
    b64_encoding(sealed.take(n)) + b64_encoding(sealed.skip(n))
}

/// What holds of the sealed bytes when `encrypt` succeeds: the message fits, the tag
/// has 16 bytes, and the sealed bytes open back to the message.
pub open spec fn seal_facts(plain: Seq<char>, iv: Seq<char>, key: Seq<u8>) -> bool {
    let msg = encode_utf8(plain);
    let sealed = sealed_of(plain, iv, key);
    &&& msg.len() <= P_MAX
    &&& sealed.len() == msg.len() + TAG_LEN
    &&& aes256gcm_open(key, nonce_of(iv), seq![], sealed) == Some(msg)
}

/// `cipher` is what `encrypt(plain, iv, key)` returns.
pub open spec fn encrypts_to(plain: Seq<char>, iv: Seq<char>, key: Seq<u8>, cipher: Seq<char>) -> bool {
    seal_facts(plain, iv, key) && cipher == encrypted_text(plain, iv, key)
}

/// Encrypts `to_encrypt` with AES-256-GCM under `key` and the nonce that `iv` encodes
/// in base64, and returns the base64 ciphertext followed by the base64 tag.
/// Fails (with `Basic`) only when the text is longer than 2^36 bytes.
pub fn encrypt(to_encrypt: &String, iv: &String, key: &[u8]) -> (res: Result<String, RuntimeError>)
    requires
        key@.len() == 32,
        is_nonce_b64(iv@),
    ensures
        res is Ok <==> encode_utf8(to_encrypt@).len() <= P_MAX,
        res matches Ok(c) ==> encrypts_to(to_encrypt@, iv@, key@, c@),
        res matches Err(e) ==> e is Basic,
{
    let nonce = match decode(iv.as_str()) {
        Ok(n) => n,
        Err(e) => return Err(RuntimeError::DecodeError(e)),
    };
    proof {
        lemma_b64_decoding_of_encoding(nonce@);
    }
    let aad: Vec<u8> = Vec::new();
    let mut cipher_text = slice_to_vec(to_encrypt.as_str().as_bytes());
    let ghost msg = cipher_text@;
    let tag = match aes256gcm_seal_in_place(key, nonce.as_slice(), aad.as_slice(), &mut cipher_text) {
        Ok(t) => t,
        Err(e) => return Err(RuntimeError::from(e)),
    };
    let encrypted_b64 = encode(cipher_text.as_slice());
    let tag_b64 = encode(tag.as_slice());
    proof {
        let sealed = cipher_text@ + tag@;
        assert(sealed.take(msg.len() as int) =~= cipher_text@);
        assert(sealed.skip(msg.len() as int) =~= tag@);
        assert(aad@ =~= Seq::<u8>::empty());
    }
    Ok(encrypted_b64.concat(tag_b64.as_str()))
}

/// The result of decrypting a stored text, as a value.
pub enum Decryption {
    /// The text that was encrypted.
    Plain(Seq<char>),
    /// The ciphertext, the tag or the nonce is not base64.
    BadEncoding,
    /// The nonce is not 12 bytes, the tag does not authenticate the ciphertext under
    /// the key, or the plaintext is not UTF-8.
    Rejected,
}

/// `s` can be cut 24 bytes before its end, where `decrypt` cuts it: its UTF-8 encoding
/// has at least 24 bytes and a character starts there.
pub open spec fn can_split(s: Seq<char>) -> bool {
    let bytes = encode_utf8(s);
    bytes.len() >= TAG_B64_LEN && is_char_boundary(bytes, bytes.len() - TAG_B64_LEN)
}

/// Decryption of `s` gets as far as the cipher: ciphertext and tag are base64, and
/// `iv` is the base64 of a 12-byte nonce. Only then is the key used.
pub open spec fn reaches_cipher(s: Seq<char>, iv: Seq<char>) -> bool {
    let bytes = encode_utf8(s);
    let mid = bytes.len() - TAG_B64_LEN;
    &&& b64_decoding(decode_utf8(bytes.take(mid))) is Some
    &&& b64_decoding(decode_utf8(bytes.skip(mid))) is Some
    &&& is_nonce_b64(iv)
}

/// What `decrypt(s, iv, key)` gives: the last 24 bytes of `s` are the base64 tag and
/// the rest the base64 ciphertext; they are decoded, then the nonce, and the
/// ciphertext is opened and read as UTF-8.
pub open spec fn spec_decrypt(s: Seq<char>, iv: Seq<char>, key: Seq<u8>) -> Decryption {
    let bytes = encode_utf8(s);
    let mid = bytes.len() - TAG_B64_LEN;
    let ct = b64_decoding(decode_utf8(bytes.take(mid)));
    let tag = b64_decoding(decode_utf8(bytes.skip(mid)));
    let nonce = b64_decoding(iv);
    if ct is None || tag is None || nonce is None {
        Decryption::BadEncoding
    } else if nonce->0.len() != 12 {
        Decryption::Rejected
    } else {
        match aes256gcm_open(key, nonce->0, seq![], ct->0 + tag->0) {
            Some(p) => if valid_utf8(p) {
                Decryption::Plain(decode_utf8(p))
            } else {
                Decryption::Rejected
            },
            None => Decryption::Rejected,
        }
    }
}

/// Cuts `s` 24 bytes before its end.
fn split_tag(s: &str) -> (res: (&str, &str))
    requires
        can_split(s@),
    ensures
        ({
            let bytes = encode_utf8(s@);
            let mid = bytes.len() - TAG_B64_LEN;
            &&& res.0@ == decode_utf8(bytes.take(mid))
            &&& res.1@ == decode_utf8(bytes.skip(mid))
        }),
{
    let length = s.as_bytes().len();
    let (val, tag) = s.split_at(length - TAG_B64_LEN);
    let ghost bytes = s.spec_bytes();
    let ghost mid = bytes.len() - TAG_B64_LEN;
    assert(val.spec_bytes() =~= bytes.take(mid));
    assert(tag.spec_bytes() =~= bytes.skip(mid));
    (val, tag)
}

/// Whether `s` can be cut where `decrypt` cuts it (24 bytes before its end, at the
/// start of a character).
pub fn is_splittable(s: &String) -> (ok: bool)
    ensures
        ok == can_split(s@),
{
    let text = s.as_str();
    let length = text.as_bytes().len();
    length >= TAG_B64_LEN && text.is_char_boundary(length - TAG_B64_LEN)
}

/// Whether decrypting `s` under `iv` gets as far as the cipher, where the key must
/// have 32 bytes.
pub fn reaches_cipher_check(s: &String, iv: &String) -> (ok: bool)
    requires
        can_split(s@),
    ensures
        ok == reaches_cipher(s@, iv@),
{
    let (val, tag) = split_tag(s.as_str());
    let ct_ok = match decode(val) {
        Ok(c) => {
            proof {
                lemma_b64_decoding_of_encoding(c@);
            }
            true
        },
        Err(_) => false,
    };
    let tag_ok = match decode(tag) {
        Ok(t) => {
            proof {
                lemma_b64_decoding_of_encoding(t@);
            }
            true
        },
        Err(_) => false,
    };
    let nonce_ok = match decode(iv.as_str()) {
        Ok(n) => {
            proof {
                lemma_b64_decoding_of_encoding(n@);
            }
            n.len() == 12
        },
        Err(_) => false,
    };
    ct_ok && tag_ok && nonce_ok
}

/// The error that `decrypt(s, iv, _)` reports when some part is not base64: that of the
/// first part that fails to decode, in the order ciphertext, tag, nonce.
pub open spec fn first_decode_error(s: Seq<char>, iv: Seq<char>) -> base64::DecodeError {
    let bytes = encode_utf8(s);
    let mid = bytes.len() - TAG_B64_LEN;
    let ct = decode_utf8(bytes.take(mid));
    let tag = decode_utf8(bytes.skip(mid));
    if b64_decoding(ct) is None {
        b64_decode_error(ct)
    } else if b64_decoding(tag) is None {
        b64_decode_error(tag)
    } else {
        b64_decode_error(iv)
    }
}

/// Decrypts a text made by `encrypt`: splits off the base64 tag (the last 24 bytes),
/// decodes ciphertext, tag and nonce, opens with AES-256-GCM and reads the result as
/// UTF-8.
pub fn decrypt(to_decrypt: &String, iv: &String, key: &[u8]) -> (res: Result<String, RuntimeError>)
    requires
        can_split(to_decrypt@),
        reaches_cipher(to_decrypt@, iv@) ==> key@.len() == 32,
    ensures
        match res {
            Ok(p) => spec_decrypt(to_decrypt@, iv@, key@) == Decryption::Plain(p@),
            Err(RuntimeError::DecodeError(_)) => spec_decrypt(to_decrypt@, iv@, key@) is BadEncoding,
            Err(RuntimeError::Basic()) => spec_decrypt(to_decrypt@, iv@, key@) is Rejected,
        },
        res matches Err(RuntimeError::DecodeError(e)) ==> e == first_decode_error(to_decrypt@, iv@),
{
    let (val, tag) = split_tag(to_decrypt.as_str());
    let mut ciphertext_tag = match decode(val) {
        Ok(c) => c,
        Err(e) => return Err(RuntimeError::DecodeError(e)),
    };
    let mut tag = match decode(tag) {
        Ok(t) => t,
        Err(e) => return Err(RuntimeError::DecodeError(e)),
    };
    proof {
        lemma_b64_decoding_of_encoding(ciphertext_tag@);
        lemma_b64_decoding_of_encoding(tag@);
    }
    ciphertext_tag.append(&mut tag);
    let aad: Vec<u8> = Vec::new();
    let x = match decode(iv.as_str()) {
        Ok(n) => n,
        Err(e) => return Err(RuntimeError::DecodeError(e)),
    };
    proof {
        lemma_b64_decoding_of_encoding(x@);
    }
    if x.len() != 12 {
        return Err(RuntimeError::Basic());
    }
    let decrypted = match aes256gcm_open_to_vec(key, x.as_slice(), aad.as_slice(), ciphertext_tag.as_slice()) {
        Ok(p) => p,
        Err(e) => return Err(RuntimeError::from(e)),
    };
    let s = match str_from_utf8(decrypted.as_slice()) {
        Ok(s) => s,
        Err(e) => return Err(RuntimeError::from(e)),
    };
    Ok(s.to_owned())
}

/// Decryption undoes encryption: whatever `encrypt(plain, iv, key)` returns can be cut
/// where `decrypt` cuts it, and decrypts under the same `iv` and `key` to `plain`.
pub proof fn lemma_decrypt_encrypt(plain: Seq<char>, iv: Seq<char>, key: Seq<u8>, cipher: Seq<char>)
    requires
        is_nonce_b64(iv),
        encrypts_to(plain, iv, key, cipher),
    ensures
        can_split(cipher),
        reaches_cipher(cipher, iv),
        spec_decrypt(cipher, iv, key) == Decryption::Plain(plain),
{
    let msg = encode_utf8(plain);
    let sealed = sealed_of(plain, iv, key);
    let ct = sealed.take(msg.len() as int);
    let tag = sealed.skip(msg.len() as int);
    lemma_b64_len(tag);
    lemma_b64_ascii(tag);
    lemma_split_before_ascii(b64_encoding(ct), b64_encoding(tag));
    lemma_b64_decoding_of_encoding(ct);
    lemma_b64_decoding_of_encoding(tag);
    assert(ct + tag =~= sealed);
}

/// A password gives the same key with or without surrounding white space.
pub proof fn lemma_key_ignores_surrounding_white_space(
    before: Seq<char>,
    password: Seq<char>,
    after: Seq<char>,
    salt: Seq<u8>,
)
    requires
        all_white_space(before),
        all_white_space(after),
    ensures
        derived_key(before + password + after, salt) == derived_key(password, salt),
{
    lemma_trimmed_surrounded(before, password, after);
}

} // verus!
