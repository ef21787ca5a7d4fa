use vstd::prelude::*;
use vstd::utf8::*;

use crate::crypto::{
    can_split, decrypt, reaches_cipher, reaches_cipher_check, derived_key, encrypt, encrypted_text, gen_key, is_nonce_b64, is_splittable,
    lemma_decrypt_encrypt, seal_facts, spec_decrypt, Decryption, P_MAX,
};
use crate::encoding::{b64_decoding, b64_encoding, decode, encode, lemma_b64_decoding_of_encoding};
use crate::store::{
    inserted, lemma_inserted_twice, lemma_position, names_distinct, position, Entry, Pass, PassInfo, PassRecord,
};

verus! {

/// The name under which a password file keeps its check entry.
pub open spec fn check_word() -> Seq<char> {
    "__check"@
}

/// The values of a list of texts.
pub open spec fn texts(v: Seq<String>) -> Seq<Seq<char>> {
    v.map_values(|s: String| s@)
}

/// Every entry name of the file can be cut where `decrypt` cuts it.
pub open spec fn names_splittable(entries: Seq<Entry>) -> bool {
    forall|i: int| 0 <= i < entries.len() ==> can_split(#[trigger] entries[i].0)
}

/// `key` has 32 bytes wherever decrypting an entry name under `iv` gets as far as the
/// cipher.
pub open spec fn key_fits(entries: Seq<Entry>, iv: Seq<char>, key: Seq<u8>) -> bool {
    forall|i: int| 0 <= i < entries.len() && reaches_cipher(#[trigger] entries[i].0, iv) ==> key.len() == 32
}

/// The name that an entry contributes to the list of names: its decrypted name, unless
/// decryption fails or gives the check word.
pub open spec fn listed_name(entry: Entry, iv: Seq<char>, key: Seq<u8>) -> Option<Seq<char>> {
    match spec_decrypt(entry.0, iv, key) {
        Decryption::Plain(x) => if x != check_word() {
            Some(x)
        } else {
            None
        },
        _ => None,
    }
}

/// The decrypted names of the entries, in entry order.
pub open spec fn names_of(entries: Seq<Entry>, iv: Seq<char>, key: Seq<u8>) -> Seq<Seq<char>>
    decreases entries.len(),
{
    if entries.len() == 0 {
        seq![]
    } else {
        let rest = names_of(entries.drop_last(), iv, key);
        match listed_name(entries.last(), iv, key) {
            Some(x) => rest.push(x),
            None => rest,
        }
    }
}

/// Lists the names of the entries of `pf` that decrypt under `key` and `iv`, leaving
/// out the check entry.
pub fn get_names_helper(pf: &Pass, key: &[u8], iv: &String) -> (names: Vec<String>)
    requires
        names_splittable(pf@),
        key_fits(pf@, iv@, key@),
    ensures
        texts(names@) == names_of(pf@, iv@, key@),
{
    let entries = pf.entries();
    let n = entries.len();
    let mut names: Vec<String> = Vec::new();
    let check = "__check".to_owned();
    for i in 0..n
        invariant
            n == entries@.len(),
            n == pf@.len(),
            key_fits(pf@, iv@, key@),
            names_splittable(pf@),
            check@ == check_word(),
            forall|j: int| 0 <= j < n ==> (#[trigger] entries@[j]).0@ == pf@[j].0,
            texts(names@) == names_of(pf@.take(i as int), iv@, key@),
    {
        let name = &entries[i].0;
        assert(pf@.take(i + 1).drop_last() =~= pf@.take(i as int));
        assert(can_split(pf@[i as int].0));
        match decrypt(name, iv, key) {
            Ok(x) => {
                if x != check {
                    names.push(x);
                }
            },
            Err(_) => {},
        }
        assert(texts(names@) =~= names_of(pf@.take(i + 1), iv@, key@));
    }
    assert(pf@.take(n as int) =~= pf@);
    names
}

/// When `key` is base64, it encodes a 32-byte key.
pub open spec fn key_b64_ok(key: Seq<char>) -> bool {
    b64_decoding(key) matches Some(k) ==> k.len() == 32
}

/// Lists the names stored in `pf`, for the base64 `key` and `iv` that `login` returns;
/// empty when `key` is not base64.
pub fn get_names(pf: &Pass, key: &str, iv: &str) -> (names: Vec<String>)
    requires
        b64_decoding(key@) matches Some(k) ==> names_splittable(pf@) && key_fits(pf@, iv@, k),
    ensures
        texts(names@) == match b64_decoding(key@) {
            Some(k) => names_of(pf@, iv@, k),
            None => Seq::<Seq<char>>::empty(),
        },
{
    let key_bytes = match decode(key) {
        Ok(b) => b,
        Err(_) => {
            let none: Vec<String> = Vec::new();
            assert(texts(none@) =~= Seq::<Seq<char>>::empty());
            return none;
        },
    };
    proof {
        lemma_b64_decoding_of_encoding(key_bytes@);
    }
    get_names_helper(pf, key_bytes.as_slice(), &iv.to_owned())
}

/// An optional text, or the empty text.
pub open spec fn url_or_empty(url: Option<Seq<char>>) -> Seq<char> {
    match url {
        Some(u) => u,
        None => Seq::<char>::empty(),
    }
}

/// The UTF-8 encoding of `t` is short enough for AES-GCM.
pub open spec fn fits(t: Seq<char>) -> bool {
    encode_utf8(t).len() <= P_MAX
}

/// Every part of an entry that `add_pass_helper` encrypts is short enough.
pub open spec fn entry_fits(name: Seq<char>, info: PassRecord) -> bool {
    &&& fits(name)
    &&& fits(info.username)
    &&& fits(info.password)
    &&& fits(url_or_empty(info.url))
}

/// `add_pass_helper` succeeds and every encryption it made has the facts of its seal.
pub open spec fn entry_sealed(name: Seq<char>, info: PassRecord, iv: Seq<char>, key: Seq<u8>) -> bool {
    &&& seal_facts(name, iv, key)
    &&& seal_facts(info.username, iv, key)
    &&& seal_facts(info.password, iv, key)
    &&& seal_facts(url_or_empty(info.url), iv, key)
}

/// The record that is stored for `info`: username, password and URL (the empty text
/// when there is none) encrypted.
pub open spec fn stored_record(info: PassRecord, iv: Seq<char>, key: Seq<u8>) -> PassRecord {
    PassRecord {
        username: encrypted_text(info.username, iv, key),
        password: encrypted_text(info.password, iv, key),
        url: Some(encrypted_text(url_or_empty(info.url), iv, key)),
    }
}

/// Encrypts the name and the fields of `info` and stores them in `data` (under the
/// encrypted name). When an encryption fails, `data` stays as it was and the result is
/// `false`.
pub fn add_pass_helper(
    data: &mut Pass,
    name: &String,
    info: &PassInfo,
    iv: &String,
    key: &[u8],
) -> (ok: bool)
    requires
        key@.len() == 32,
        is_nonce_b64(iv@),
    ensures
        ok == entry_fits(name@, info@),
        ok ==> entry_sealed(name@, info@, iv@, key@),
        ok ==> final(data)@ == inserted(
            old(data)@,
            encrypted_text(name@, iv@, key@),
            stored_record(info@, iv@, key@),
        ),
        !ok ==> final(data)@ == old(data)@,
{
    let encrypted_name = match encrypt(name, iv, key) {
        Ok(s) => s,
        Err(_) => return false,
    };
    let encrypted_username = match encrypt(&info.username, iv, key) {
        Ok(s) => s,
        Err(_) => return false,
    };
    let encrypted_password = match encrypt(&info.password, iv, key) {
        Ok(s) => s,
        Err(_) => return false,
    };
    let empty = String::new();
    let url = match &info.url {
        Some(s) => s,
        None => &empty,
    };
    let encrypted_url = match encrypt(url, iv, key) {
        Ok(s) => s,
        Err(_) => return false,
    };
    let pass = PassInfo {
        username: encrypted_username,
        password: encrypted_password,
        url: Some(encrypted_url),
    };
    data.insert(encrypted_name, pass);
    true
}

/// Adds an entry to `data`, encrypted with the base64 `key` and `iv` that `login`
/// returns. `false` when `key` is not base64 or an encryption fails; `data` is then
/// unchanged.
pub fn add_pass(
    data: &mut Pass,
    key: &str,
    iv: &str,
    name: &str,
    username: &str,
    password: &str,
    url: &str,
) -> (ok: bool)
    requires
        key_b64_ok(key@),
        b64_decoding(key@) is Some ==> is_nonce_b64(iv@),
    ensures
        ({
            let info = PassRecord { username: username@, password: password@, url: Some(url@) };
            match b64_decoding(key@) {
                None => !ok && final(data)@ == old(data)@,
                Some(k) => {
                    &&& ok == entry_fits(name@, info)
                    &&& ok ==> entry_sealed(name@, info, iv@, k)
                    &&& ok ==> final(data)@ == inserted(
                        old(data)@,
                        encrypted_text(name@, iv@, k),
                        stored_record(info, iv@, k),
                    )
                    &&& !ok ==> final(data)@ == old(data)@
                },
            }
        }),
{
    let key_bytes = match decode(key) {
        Ok(b) => b,
        Err(_) => return false,
    };
    proof {
        lemma_b64_decoding_of_encoding(key_bytes@);
    }
    let info = PassInfo {
        username: username.to_owned(),
        password: password.to_owned(),
        url: Some(url.to_owned()),
    };
    add_pass_helper(data, &name.to_owned(), &info, &iv.to_owned(), key_bytes.as_slice())
}

/// A stored field, decrypted, or `failure` when it does not decrypt.
pub open spec fn field_text(t: Seq<char>, iv: Seq<char>, key: Seq<u8>, failure: Seq<char>) -> Seq<char> {
    match spec_decrypt(t, iv, key) {
        Decryption::Plain(x) => x,
        _ => failure,
    }
}

/// A stored URL, decrypted; fixed texts stand for a URL that does not decrypt and for a
/// missing one.
pub open spec fn url_text(url: Option<Seq<char>>, iv: Seq<char>, key: Seq<u8>) -> Seq<char> {
    match url {
        Some(u) => field_text(u, iv, key, "Unable to decrypt url"@),
        None => "no url"@,
    }
}

/// The entry's name decrypts to `looking_for`.
pub open spec fn matches_name(entry: Entry, looking_for: Seq<char>, iv: Seq<char>, key: Seq<u8>) -> bool {
    spec_decrypt(entry.0, iv, key) == Decryption::Plain(looking_for)
}

/// Username, password and URL of every entry whose name decrypts to `looking_for`,
/// decrypted, each concatenated in entry order.
pub open spec fn gathered(entries: Seq<Entry>, looking_for: Seq<char>, iv: Seq<char>, key: Seq<u8>) -> (
    Seq<char>,
    Seq<char>,
    Seq<char>,
)
    decreases entries.len(),
{
    if entries.len() == 0 {
        (seq![], seq![], seq![])
    } else {
        let rest = gathered(entries.drop_last(), looking_for, iv, key);
        let e = entries.last();
        if matches_name(e, looking_for, iv, key) {
            (
                rest.0 + field_text(e.1.username, iv, key, "Unable to decrypt username"@),
                rest.1 + field_text(e.1.password, iv, key, "Unable to decrypt password"@),
                rest.2 + url_text(e.1.url, iv, key),
            )
        } else {
            rest
        }
    }
}

/// What `get_pass_info_helper` finds: nothing for an empty name or when all gathered
/// texts are empty, otherwise the gathered texts.
pub open spec fn found_info(entries: Seq<Entry>, looking_for: Seq<char>, iv: Seq<char>, key: Seq<u8>) -> Option<
    PassRecord,
> {
    let g = gathered(entries, looking_for, iv, key);
    if looking_for.len() == 0 || (g.0.len() == 0 && g.1.len() == 0 && g.2.len() == 0) {
        None
    } else {
        Some(PassRecord { username: g.0, password: g.1, url: Some(g.2) })
    }
}

/// Every field that `get_pass_info_helper` decrypts can be cut where `decrypt` cuts it.
pub open spec fn info_splittable(entries: Seq<Entry>, looking_for: Seq<char>, iv: Seq<char>, key: Seq<u8>) -> bool {
    &&& names_splittable(entries)
    &&& forall|i: int|
        0 <= i < entries.len() && matches_name(#[trigger] entries[i], looking_for, iv, key) ==> {
            &&& can_split(entries[i].1.username)
            &&& can_split(entries[i].1.password)
            &&& (entries[i].1.url matches Some(u) ==> can_split(u))
        }
}

/// Looks up the entry whose name decrypts to `looking_for` and decrypts its fields.
pub fn get_pass_info_helper(data: &Pass, looking_for: &String, key: &[u8], iv: &String) -> (res:
    Option<PassInfo>)
    requires
        looking_for@.len() > 0 ==> info_splittable(data@, looking_for@, iv@, key@) && key_fits(
            data@,
            iv@,
            key@,
        ),
    ensures
        match res {
            Some(info) => found_info(data@, looking_for@, iv@, key@) == Some(info@),
            None => found_info(data@, looking_for@, iv@, key@) is None,
        },
{
    if looking_for.as_str().is_empty() {
        return None;
    }
    let entries = data.entries();
    let n = entries.len();
    let mut username = String::new();
    let mut password = String::new();
    let mut url = String::new();
    for i in 0..n
        invariant
            n == entries@.len(),
            n == data@.len(),
            key_fits(data@, iv@, key@),
            info_splittable(data@, looking_for@, iv@, key@),
            forall|j: int|
                0 <= j < n ==> (#[trigger] entries@[j]).0@ == data@[j].0 && entries@[j].1@
                    == data@[j].1,
            (username@, password@, url@) == gathered(data@.take(i as int), looking_for@, iv@, key@),
    {
        let name = &entries[i].0;
        let value = &entries[i].1;
        assert(data@.take(i + 1).drop_last() =~= data@.take(i as int));
        assert(can_split(data@[i as int].0));
        match decrypt(name, iv, key) {
            Ok(result) => {
                if *looking_for == result {
                    assert(matches_name(data@[i as int], looking_for@, iv@, key@));
                    let username_guard = match decrypt(&value.username, iv, key) {
                        Ok(r) => r,
                        Err(_) => "Unable to decrypt username".to_owned(),
                    };
                    let password_guard = match decrypt(&value.password, iv, key) {
                        Ok(r) => r,
                        Err(_) => "Unable to decrypt password".to_owned(),
                    };
                    let url_guard = match &value.url {
                        Some(r) => match decrypt(r, iv, key) {
                            Ok(u) => u,
                            Err(_) => "Unable to decrypt url".to_owned(),
                        },
                        None => "no url".to_owned(),
                    };
                    username.append(username_guard.as_str());
                    password.append(password_guard.as_str());
                    url.append(url_guard.as_str());
                }
            },
            Err(_) => {},
        }
    }
    assert(data@.take(n as int) =~= data@);
    if username.as_str().is_empty() && password.as_str().is_empty() && url.as_str().is_empty() {
        return None;
    }
    Some(PassInfo { username, password, url: Some(url) })
}

/// The details of the entry named `looking_for`, for the base64 `key` and `iv` that
/// `login` returns: `[username, password, url]`, or nothing when `key` is not base64 or
/// no entry is found.
pub fn get_pass_info(data: &Pass, key: &str, iv: &str, looking_for: &str) -> (details: Vec<
    String,
>)
    requires
        b64_decoding(key@) matches Some(k) ==> (looking_for@.len() > 0 ==> info_splittable(
            data@,
            looking_for@,
            iv@,
            k,
        ) && key_fits(data@, iv@, k)),
    ensures
        texts(details@) == match b64_decoding(key@) {
            None => Seq::<Seq<char>>::empty(),
            Some(k) => match found_info(data@, looking_for@, iv@, k) {
                Some(r) => seq![r.username, r.password, url_or_empty(r.url)],
                None => Seq::<Seq<char>>::empty(),
            },
        },
{
    let mut pass_details: Vec<String> = Vec::new();
    let key_bytes = match decode(key) {
        Ok(b) => b,
        Err(_) => {
            assert(texts(pass_details@) =~= Seq::<Seq<char>>::empty());
            return pass_details;
        },
    };
    proof {
        lemma_b64_decoding_of_encoding(key_bytes@);
    }
    match get_pass_info_helper(data, &looking_for.to_owned(), key_bytes.as_slice(), &iv.to_owned()) {
        Some(pass_info) => {
            pass_details.push(pass_info.username);
            pass_details.push(pass_info.password);
            pass_details.push(
                match pass_info.url {
                    Some(s) => s,
                    None => String::new(),
                },
            );
        },
        None => {},
    }
    assert(texts(pass_details@) =~= match b64_decoding(key@) {
        None => Seq::<Seq<char>>::empty(),
        Some(k) => match found_info(data@, looking_for@, iv@, k) {
            Some(r) => seq![r.username, r.password, url_or_empty(r.url)],
            None => Seq::<Seq<char>>::empty(),
        },
    });
    pass_details
}

/// The key derived from `password` and the salt kept in `info` (its password field).
pub open spec fn entry_key(password: Seq<char>, info: PassRecord) -> Seq<u8> {
    derived_key(password, encode_utf8(info.password))
}

/// The entry is a check entry that `password` unlocks: its name decrypts to the check
/// word under the key derived with its salt and the nonce kept in its username field.
pub open spec fn unlocks(password: Seq<char>, entry: Entry) -> bool {
    spec_decrypt(entry.0, entry.1.username, entry_key(password, entry.1)) == Decryption::Plain(
        check_word(),
    )
}

/// The index of the first entry that `password` unlocks, or -1.
pub open spec fn first_unlocked(entries: Seq<Entry>, password: Seq<char>) -> int
    decreases entries.len(),
{
    if entries.len() == 0 {
        -1
    } else {
        let r = first_unlocked(entries.drop_last(), password);
        if r >= 0 {
            r
        } else if unlocks(password, entries.last()) {
            entries.len() - 1
        } else {
            -1
        }
    }
}

/// All bytes are zero.
pub open spec fn is_zero_key(key: Seq<u8>) -> bool {
    forall|i: int| 0 <= i < key.len() ==> key[i] == 0
}

/// What `login` returns: the base64 key and the nonce of the first entry that the
/// password unlocks, unless there is none or its key is all zeros.
pub open spec fn login_result(entries: Seq<Entry>, password: Seq<char>) -> Option<Seq<Seq<char>>> {
    let i = first_unlocked(entries, password);
    if i < 0 {
        None
    } else {
        let key = entry_key(password, entries[i].1);
        if is_zero_key(key) {
            None
        } else {
            Some(seq![b64_encoding(key), entries[i].1.username])
        }
    }
}

/// Every entry that `login` decrypts can be cut where `decrypt` cuts it: those up to
/// the first entry that `password` unlocks, or all when there is none.
pub open spec fn login_splittable(entries: Seq<Entry>, password: Seq<char>) -> bool {
    forall|i: int|
        0 <= i < entries.len() && (first_unlocked(entries, password) < 0 || i <= first_unlocked(
            entries,
            password,
        )) ==> can_split(#[trigger] entries[i].0)
}

/// Tries one entry: unless a check entry was found already, derives the key from the
/// entry's salt and decrypts the entry's name; on the check word, records the name and
/// returns the key. Otherwise returns a key of zeros.
fn login_helper(
    password: &String,
    name: &String,
    value: &PassInfo,
    check_key: &mut String,
    found: &mut bool,
) -> (key: [u8; 32])
    requires
        !*old(found) ==> can_split(name@),
    ensures
        *old(found) ==> is_zero_key(key@) && *final(found) && final(check_key)@ == old(check_key)@,
        !*old(found) && unlocks(password@, (name@, value@)) ==> {
            &&& *final(found)
            &&& final(check_key)@ == old(check_key)@ + name@
            &&& key@ == entry_key(password@, value@)
        },
        !*old(found) && !unlocks(password@, (name@, value@)) ==> {
            &&& is_zero_key(key@)
            &&& !*final(found)
            &&& final(check_key)@ == old(check_key)@
        },
{
    let zero = [0u8; 32];
    assert(is_zero_key(zero@));
    if *found {
        return zero;
    }
    let key = gen_key(password, value.password.as_str().as_bytes());
    let check = "__check".to_owned();
    match decrypt(name, &value.username, vstd::array::array_as_slice(&key)) {
        Ok(maybe_check) => {
            if maybe_check == check {
                *found = true;
                check_key.append(name.as_str());
                return key;
            }
            zero
        },
        Err(_) => zero,
    }
}

/// `first_unlocked` is -1 or the index of an entry that the password unlocks, and no
/// earlier entry is unlocked.
pub proof fn lemma_first_unlocked(entries: Seq<Entry>, password: Seq<char>)
    ensures
        -1 <= first_unlocked(entries, password) < entries.len(),
        first_unlocked(entries, password) >= 0 ==> unlocks(
            password,
            entries[first_unlocked(entries, password)],
        ),
        forall|j: int|
            0 <= j < entries.len() && (first_unlocked(entries, password) < 0 || j < first_unlocked(
                entries,
                password,
            )) ==> !unlocks(password, #[trigger] entries[j]),
    decreases entries.len(),
{
    if entries.len() > 0 {
        let rest = entries.drop_last();
        lemma_first_unlocked(rest, password);
        assert forall|j: int| 0 <= j < rest.len() implies rest[j] == entries[j] by {}
    }
}

/// All 32 bytes of `key` are zero.
fn all_zero(key: &[u8; 32]) -> (z: bool)
    ensures
        z == is_zero_key(key@),
{
    let mut i: usize = 0;
    while i < 32
        invariant
            i <= 32,
            key@.len() == 32,
            forall|j: int| 0 <= j < i ==> key@[j] == 0,
        decreases 32 - i,
    {
        if key[i] != 0 {
            return false;
        }
        i = i + 1;
    }
    true
}

/// Unlocks a password file: finds the check entry that `password` unlocks and returns
/// `[key, iv]`, the derived key in base64 and the nonce kept with the check entry.
/// Nothing when no check entry is unlocked.
pub fn login(data: &Pass, password: &str) -> (res: Option<Vec<String>>)
    requires
        login_splittable(data@, password@),
    ensures
        match res {
            Some(v) => login_result(data@, password@) == Some(texts(v@)),
            None => login_result(data@, password@) is None,
        },
{
    data.names_are_distinct();
    let pw = password.to_owned();
    let entries = data.entries();
    let n = entries.len();
    let mut found = false;
    let mut check_key = String::new();
    let mut keys: Vec<[u8; 32]> = Vec::new();
    for i in 0..n
        invariant
            n == entries@.len(),
            n == data@.len(),
            pw@ == password@,
            login_splittable(data@, password@),
            forall|j: int|
                0 <= j < n ==> (#[trigger] entries@[j]).0@ == data@[j].0 && entries@[j].1@
                    == data@[j].1,
            keys@.len() == i,
            ({
                let f = first_unlocked(data@.take(i as int), password@);
                &&& found == (f >= 0)
                &&& check_key@ == if f >= 0 {
                    data@[f].0
                } else {
                    Seq::<char>::empty()
                }
                &&& forall|j: int| 0 <= j < i && j != f ==> is_zero_key(#[trigger] keys@[j]@)
                &&& f >= 0 ==> keys@[f]@ == entry_key(password@, data@[f].1)
            }),
    {
        let ghost prefix = data@.take(i as int);
        let ghost next = data@.take(i + 1);
        proof {
            lemma_first_unlocked(prefix, password@);
            lemma_first_unlocked(data@, password@);
            assert(next.drop_last() =~= prefix);
            assert(next.last() == data@[i as int]);
            let whole = first_unlocked(data@, password@);
            if !found && 0 <= whole < i {
                assert(prefix[whole] == data@[whole]);
            }
        }
        let k = login_helper(&pw, &entries[i].0, &entries[i].1, &mut check_key, &mut found);
        keys.push(k);
        proof {
            let f = first_unlocked(prefix, password@);
            if f < 0 && found {
                assert(check_key@ =~= data@[i as int].0);
            }
        }
    }
    let ghost f = first_unlocked(data@, password@);
    proof {
        assert(data@.take(n as int) =~= data@);
        lemma_first_unlocked(data@, password@);
    }
    let mut filtered: Vec<[u8; 32]> = Vec::new();
    for j in 0..n
        invariant
            n == keys@.len(),
            forall|m: int| 0 <= m < n && m != f ==> is_zero_key(#[trigger] keys@[m]@),
            f < 0 || f >= j || is_zero_key(keys@[f]@) ==> filtered@.len() == 0,
            (0 <= f < j && !is_zero_key(keys@[f]@)) ==> filtered@.len() > 0 && filtered@[0]@
                == keys@[f]@,
    {
        if !all_zero(&keys[j]) {
            filtered.push(keys[j]);
        }
    }
    proof {
        if f >= 0 {
            let name = data@[f].0;
            assert(can_split(name));
            if name.len() == 0 {
                assert(encode_utf8(name) =~= Seq::<u8>::empty());
            }
        }
    }
    if check_key.as_str().is_empty() || filtered.len() == 0 {
        return None;
    }
    let check_pass_info = match data.get(&check_key) {
        Some(s) => s,
        None => {
            proof {
                lemma_position(data@, check_key@);
            }
            return None;
        },
    };
    proof {
        lemma_position(data@, check_key@);
    }
    let iv = check_pass_info.username.clone();
    let key = encode(vstd::array::array_as_slice(&filtered[0]));
    let response = vec![key, iv];
    assert(texts(response@) =~= seq![key@, iv@]);
    Some(response)
}

/// Whether `login` can run on `data` with `password`: every entry up to the first that
/// `password` unlocks can be cut where `decrypt` cuts it.
pub fn login_ready(data: &Pass, password: &str) -> (ok: bool)
    ensures
        ok == login_splittable(data@, password@),
{
    let pw = password.to_owned();
    let entries = data.entries();
    let n = entries.len();
    proof {
        lemma_first_unlocked(data@, password@);
    }
    for i in 0..n
        invariant
            n == entries@.len(),
            n == data@.len(),
            pw@ == password@,
            -1 <= first_unlocked(data@, password@) < n,
            first_unlocked(data@, password@) >= 0 ==> unlocks(
                password@,
                data@[first_unlocked(data@, password@)],
            ),
            forall|j: int|
                0 <= j < n && (first_unlocked(data@, password@) < 0 || j < first_unlocked(
                    data@,
                    password@,
                )) ==> !unlocks(password@, #[trigger] data@[j]),
            forall|j: int|
                0 <= j < n ==> (#[trigger] entries@[j]).0@ == data@[j].0 && entries@[j].1@
                    == data@[j].1,
            forall|j: int|
                0 <= j < i ==> !unlocks(password@, #[trigger] data@[j]) && can_split(data@[j].0),
    {
        let ghost f = first_unlocked(data@, password@);
        if !is_splittable(&entries[i].0) {
            assert(f < 0 || i <= f);
            return false;
        }
        let mut found = false;
        let mut unused = String::new();
        let _ = login_helper(&pw, &entries[i].0, &entries[i].1, &mut unused, &mut found);
        if found {
            assert(unlocks(password@, data@[i as int]));
            return true;
        }
    }
    true
}

/// `login`, after checking that it can run: `None` exactly when `login_ready` fails.
pub fn login_checked(data: &Pass, password: &str) -> (res: Option<Option<Vec<String>>>)
    ensures
        res is Some <==> login_splittable(data@, password@),
        res matches Some(r) ==> match r {
            Some(v) => login_result(data@, password@) == Some(texts(v@)),
            None => login_result(data@, password@) is None,
        },
{
    if !login_ready(data, password) {
        return None;
    }
    Some(login(data, password))
}

/// The entries of a new password file: one check entry, whose name is the check word
/// encrypted under the key derived from `password` and the base64 salt, and which keeps
/// the base64 nonce (as username) and the base64 salt (as password).
pub open spec fn new_file_entries(password: Seq<char>, iv: Seq<u8>, salt: Seq<u8>) -> Seq<Entry> {
    let iv_b64 = b64_encoding(iv);
    let salt_b64 = b64_encoding(salt);
    let key = derived_key(password, encode_utf8(salt_b64));
    seq![
        (
            encrypted_text(check_word(), iv_b64, key),
            PassRecord { username: iv_b64, password: salt_b64, url: None },
        ),
    ]
}

/// The key of a password file made with `password` and `salt`.
pub open spec fn file_key(password: Seq<char>, salt: Seq<u8>) -> Seq<u8> {
    derived_key(password, encode_utf8(b64_encoding(salt)))
}

/// `entries` are those of a password file made with `password`, `iv` and `salt` (whose
/// key, from `gen_key`, has 32 bytes).
pub open spec fn is_new_file(entries: Seq<Entry>, password: Seq<char>, iv: Seq<u8>, salt: Seq<u8>) -> bool {
    let iv_b64 = b64_encoding(iv);
    let key = file_key(password, salt);
    &&& entries == new_file_entries(password, iv, salt)
    &&& seal_facts(check_word(), iv_b64, key)
    &&& key.len() == 32
}

/// Makes the entries of a new password file for `password`, with the given 12-byte
/// nonce and salt.
pub fn create_pass_data(password: &str, iv: &[u8], salt: &[u8]) -> (res: Option<Pass>)
    requires
        iv@.len() == 12,
    ensures
        res is Some,
        res matches Some(p) ==> is_new_file(p@, password@, iv@, salt@),
{
    let iv_b64 = encode(iv);
    let salt_b64 = encode(salt);
    let key = gen_key(&password.to_owned(), salt_b64.as_str().as_bytes());
    let check = "__check".to_owned();
    proof {
        lemma_b64_decoding_of_encoding(iv@);
        reveal_strlit("__check");
        is_ascii_chars_encode_utf8(check@);
    }
    let encrypt_check = match encrypt(&check, &iv_b64, vstd::array::array_as_slice(&key)) {
        Ok(r) => r,
        Err(_) => return None,
    };
    let mut map = Pass::new();
    map.insert(encrypt_check, PassInfo { username: iv_b64, password: salt_b64, url: None });
    proof {
        lemma_position(Seq::<Entry>::empty(), encrypt_check@);
        assert(map@ =~= new_file_entries(password@, iv@, salt@));
    }
    Some(map)
}

/// Overwrites `buf` with random bytes.
///
/// Trusted: calls `rand::RngCore::fill_bytes` on `rand::rng()`, the thread-local
/// generator seeded from the operating system. What the bytes are depends on chance,
/// so only that the length stays is stated.
#[verifier::external_body]
fn fill_random(buf: &mut Vec<u8>)
    ensures
        final(buf)@.len() == old(buf)@.len(),
{
    rand::RngCore::fill_bytes(&mut rand::rng(), buf.as_mut_slice())
}

/// Makes the entries of a new password file for `password`, with a random 12-byte
/// nonce and a random 16-byte salt.
pub fn init_pass_data(password: &str) -> (res: Option<Pass>)
    ensures
        res is Some,
        res matches Some(p) ==> exists|iv: Seq<u8>, salt: Seq<u8>|
            iv.len() == 12 && salt.len() == 16 && is_new_file(p@, password@, iv, salt),
{
    let mut iv: Vec<u8> = vec![0u8; 12];
    let mut salt: Vec<u8> = vec![0u8; 16];
    fill_random(&mut iv);
    fill_random(&mut salt);
    create_pass_data(password, iv.as_slice(), salt.as_slice())
}

/// A new password file opens with the password it was made with: `login` returns the
/// key derived from that password and the salt, in base64, and the base64 nonce
/// (unless that key is all zeros, which `login` treats as no key).
pub proof fn lemma_login_new_file(entries: Seq<Entry>, password: Seq<char>, iv: Seq<u8>, salt: Seq<u8>)
    requires
        iv.len() == 12,
        is_new_file(entries, password, iv, salt),
        !is_zero_key(derived_key(password, encode_utf8(b64_encoding(salt)))),
    ensures
        names_splittable(entries),
        login_splittable(entries, password),
        login_result(entries, password) == Some(
            seq![
                b64_encoding(derived_key(password, encode_utf8(b64_encoding(salt)))),
                b64_encoding(iv),
            ],
        ),
{
    let iv_b64 = b64_encoding(iv);
    let key = derived_key(password, encode_utf8(b64_encoding(salt)));
    let c = entries[0].0;
    lemma_b64_decoding_of_encoding(iv);
    lemma_decrypt_encrypt(check_word(), iv_b64, key, c);
    assert(unlocks(password, entries[0]));
    assert(entries.len() == 1);
    assert(entries.drop_last() =~= Seq::<Entry>::empty());
    assert(first_unlocked(entries.drop_last(), password) == -1);
    assert(entries.last() == entries[0]);
    assert(first_unlocked(entries, password) == 0);
}

proof fn lemma_gathered_none(entries: Seq<Entry>, looking_for: Seq<char>, iv: Seq<char>, key: Seq<u8>)
    requires
        forall|j: int|
            0 <= j < entries.len() ==> !matches_name(#[trigger] entries[j], looking_for, iv, key),
    ensures
        gathered(entries, looking_for, iv, key) == (
            Seq::<char>::empty(),
            Seq::<char>::empty(),
            Seq::<char>::empty(),
        ),
    decreases entries.len(),
{
    if entries.len() > 0 {
        let rest = entries.drop_last();
        assert(!matches_name(entries[entries.len() - 1], looking_for, iv, key));
        assert forall|j: int| 0 <= j < rest.len() implies !matches_name(
            #[trigger] rest[j],
            looking_for,
            iv,
            key,
        ) by {
            assert(rest[j] == entries[j]);
        }
        lemma_gathered_none(rest, looking_for, iv, key);
    }
}

pub(crate) proof fn lemma_gathered_single(
    entries: Seq<Entry>,
    k: int,
    looking_for: Seq<char>,
    iv: Seq<char>,
    key: Seq<u8>,
)
    requires
        0 <= k < entries.len(),
        matches_name(entries[k], looking_for, iv, key),
        forall|j: int|
            0 <= j < entries.len() && j != k ==> !matches_name(
                #[trigger] entries[j],
                looking_for,
                iv,
                key,
            ),
    ensures
        gathered(entries, looking_for, iv, key) == (
            field_text(entries[k].1.username, iv, key, "Unable to decrypt username"@),
            field_text(entries[k].1.password, iv, key, "Unable to decrypt password"@),
            url_text(entries[k].1.url, iv, key),
        ),
    decreases entries.len(),
{
    let rest = entries.drop_last();
    if k == entries.len() - 1 {
        assert forall|j: int| 0 <= j < rest.len() implies !matches_name(
            #[trigger] rest[j],
            looking_for,
            iv,
            key,
        ) by {
            assert(rest[j] == entries[j]);
        }
        lemma_gathered_none(rest, looking_for, iv, key);
        let e = entries[k];
        assert(Seq::<char>::empty() + field_text(e.1.username, iv, key, "Unable to decrypt username"@)
            =~= field_text(e.1.username, iv, key, "Unable to decrypt username"@));
        assert(Seq::<char>::empty() + field_text(e.1.password, iv, key, "Unable to decrypt password"@)
            =~= field_text(e.1.password, iv, key, "Unable to decrypt password"@));
        assert(Seq::<char>::empty() + url_text(e.1.url, iv, key) =~= url_text(e.1.url, iv, key));
    } else {
        assert(!matches_name(entries[entries.len() - 1], looking_for, iv, key));
        assert forall|j: int| 0 <= j < rest.len() && j != k implies !matches_name(
            #[trigger] rest[j],
            looking_for,
            iv,
            key,
        ) by {
            assert(rest[j] == entries[j]);
        }
        assert(rest[k] == entries[k]);
        lemma_gathered_single(rest, k, looking_for, iv, key);
    }
}

/// What a read gives back of a write: after `add_pass_helper` stored `info` under
/// `name`, `get_pass_info_helper` for `name` finds `info` (with the empty URL for a
/// missing one), provided no other entry's name decrypts to `name` under the same key
/// and nonce. When username, password and URL are all empty, nothing is found.
pub proof fn lemma_get_pass_info_after_add(
    entries: Seq<Entry>,
    name: Seq<char>,
    info: PassRecord,
    iv: Seq<char>,
    key: Seq<u8>,
)
    requires
        names_distinct(entries),
        is_nonce_b64(iv),
        entry_sealed(name, info, iv, key),
        name.len() > 0,
        forall|i: int|
            0 <= i < entries.len() && entries[i].0 != encrypted_text(name, iv, key) ==> !matches_name(
                #[trigger] entries[i],
                name,
                iv,
                key,
            ),
    ensures
        ({
            let after = inserted(entries, encrypted_text(name, iv, key), stored_record(info, iv, key));
            let u = info.username;
            let p = info.password;
            let l = url_or_empty(info.url);
            &&& found_info(after, name, iv, key) == if u.len() == 0 && p.len() == 0 && l.len() == 0 {
                None::<PassRecord>
            } else {
                Some(PassRecord { username: u, password: p, url: Some(l) })
            }
            &&& names_splittable(entries) ==> info_splittable(after, name, iv, key)
        }),
{
    let enc = encrypted_text(name, iv, key);
    let rec = stored_record(info, iv, key);
    let after = inserted(entries, enc, rec);
    let l = url_or_empty(info.url);
    lemma_decrypt_encrypt(name, iv, key, enc);
    lemma_decrypt_encrypt(info.username, iv, key, rec.username);
    lemma_decrypt_encrypt(info.password, iv, key, rec.password);
    lemma_decrypt_encrypt(l, iv, key, encrypted_text(l, iv, key));
    lemma_position(entries, enc);
    let p = position(entries, enc);
    let k = if p >= 0 {
        p
    } else {
        entries.len() as int
    };
    assert(after[k] == (enc, rec));
    assert forall|j: int| 0 <= j < after.len() && j != k implies after[j] == entries[j] by {}
    assert(matches_name(after[k], name, iv, key));
    assert forall|j: int| 0 <= j < after.len() && j != k implies !matches_name(
        #[trigger] after[j],
        name,
        iv,
        key,
    ) by {
        assert(after[j] == entries[j]);
    }
    lemma_gathered_single(after, k, name, iv, key);
    if names_splittable(entries) {
        assert forall|i: int| 0 <= i < after.len() implies can_split(#[trigger] after[i].0) by {
            if i != k {
                assert(after[i] == entries[i]);
            }
        }
    }
}

proof fn lemma_names_of_contains(entries: Seq<Entry>, k: int, iv: Seq<char>, key: Seq<u8>, x: Seq<char>)
    requires
        0 <= k < entries.len(),
        listed_name(entries[k], iv, key) == Some(x),
    ensures
        names_of(entries, iv, key).contains(x),
    decreases entries.len(),
{
    let rest = entries.drop_last();
    let r = names_of(rest, iv, key);
    if k == entries.len() - 1 {
        assert(names_of(entries, iv, key) == r.push(x));
        assert(r.push(x)[r.len() as int] == x);
    } else {
        assert(rest[k] == entries[k]);
        lemma_names_of_contains(rest, k, iv, key, x);
        let i = choose|i: int| 0 <= i < r.len() && r[i] == x;
        match listed_name(entries.last(), iv, key) {
            Some(y) => {
                assert(names_of(entries, iv, key) == r.push(y));
                assert(r.push(y)[i] == x);
            },
            None => {},
        }
    }
}

/// After `add_pass_helper` stored an entry named `name`, `get_names_helper` lists
/// `name` (unless it is the check word, which is never listed).
pub proof fn lemma_names_after_add(
    entries: Seq<Entry>,
    name: Seq<char>,
    info: PassRecord,
    iv: Seq<char>,
    key: Seq<u8>,
)
    requires
        is_nonce_b64(iv),
        entry_sealed(name, info, iv, key),
        name != check_word(),
    ensures
        names_of(
            inserted(entries, encrypted_text(name, iv, key), stored_record(info, iv, key)),
            iv,
            key,
        ).contains(name),
{
    let enc = encrypted_text(name, iv, key);
    let after = inserted(entries, enc, stored_record(info, iv, key));
    lemma_decrypt_encrypt(name, iv, key, enc);
    lemma_position(entries, enc);
    let p = position(entries, enc);
    let k = if p >= 0 {
        p
    } else {
        entries.len() as int
    };
    assert(after[k].0 == enc);
    lemma_names_of_contains(after, k, iv, key, name);
}

/// Adding the same entry twice changes nothing the second time: encryption gives the
/// same name and record again, so a second `add_pass_helper` (or `add_pass`) with the
/// same arguments leaves the entries as the first left them. (Whether it succeeds does
/// not depend on the entries at all.)
pub proof fn lemma_add_twice(
    entries: Seq<Entry>,
    name: Seq<char>,
    info: PassRecord,
    iv: Seq<char>,
    key: Seq<u8>,
)
    requires
        names_distinct(entries),
    ensures
        ({
            let once = inserted(entries, encrypted_text(name, iv, key), stored_record(info, iv, key));
            inserted(once, encrypted_text(name, iv, key), stored_record(info, iv, key)) == once
        }),
{
    lemma_inserted_twice(entries, encrypted_text(name, iv, key), stored_record(info, iv, key));
}

/// Whether every entry name of `data` can be cut where `decrypt` cuts it, which
/// `get_names` needs.
pub fn all_names_splittable(data: &Pass) -> (ok: bool)
    ensures
        ok == names_splittable(data@),
{
    let entries = data.entries();
    let n = entries.len();
    for i in 0..n
        invariant
            n == entries@.len(),
            n == data@.len(),
            forall|j: int| 0 <= j < n ==> (#[trigger] entries@[j]).0@ == data@[j].0,
            forall|j: int| 0 <= j < i ==> can_split(#[trigger] data@[j].0),
    {
        if !is_splittable(&entries[i].0) {
            return false;
        }
    }
    true
}

/// Whether `get_names_helper` can run on `data` with `key` and `iv`: every name can be
/// cut where `decrypt` cuts it, and `key` has 32 bytes if some name gets as far as the
/// cipher.
pub fn names_ready(data: &Pass, key: &[u8], iv: &String) -> (ok: bool)
    ensures
        ok == (names_splittable(data@) && key_fits(data@, iv@, key@)),
{
    if !all_names_splittable(data) {
        return false;
    }
    if key.len() == 32 {
        return true;
    }
    let entries = data.entries();
    let n = entries.len();
    for i in 0..n
        invariant
            n == entries@.len(),
            n == data@.len(),
            key@.len() != 32,
            names_splittable(data@),
            forall|j: int| 0 <= j < n ==> (#[trigger] entries@[j]).0@ == data@[j].0,
            forall|j: int| 0 <= j < i ==> !reaches_cipher(#[trigger] data@[j].0, iv@),
    {
        assert(can_split(data@[i as int].0));
        if reaches_cipher_check(&entries[i].0, iv) {
            return false;
        }
    }
    true
}

/// Whether `get_pass_info_helper` can run on `data` for `looking_for` with `key` and
/// `iv`: the names can be decrypted (`names_ready`), and username, password and URL of
/// the entries whose name decrypts to `looking_for` can be cut where `decrypt` cuts them.
pub fn pass_info_ready(data: &Pass, looking_for: &String, key: &[u8], iv: &String) -> (ok: bool)
    ensures
        ok == (info_splittable(data@, looking_for@, iv@, key@) && key_fits(data@, iv@, key@)),
{
    if !names_ready(data, key, iv) {
        return false;
    }
    let entries = data.entries();
    let n = entries.len();
    for i in 0..n
        invariant
            n == entries@.len(),
            n == data@.len(),
            key_fits(data@, iv@, key@),
            names_splittable(data@),
            forall|j: int|
                0 <= j < n ==> (#[trigger] entries@[j]).0@ == data@[j].0 && entries@[j].1@
                    == data@[j].1,
            forall|j: int|
                0 <= j < i && matches_name(#[trigger] data@[j], looking_for@, iv@, key@) ==> {
                    &&& can_split(data@[j].1.username)
                    &&& can_split(data@[j].1.password)
                    &&& (data@[j].1.url matches Some(u) ==> can_split(u))
                },
    {
        let value = &entries[i].1;
        assert(can_split(data@[i as int].0));
        match decrypt(&entries[i].0, iv, key) {
            Ok(result) => {
                if *looking_for == result {
                    let url_ok = match &value.url {
                        Some(u) => is_splittable(u),
                        None => true,
                    };
                    if !(is_splittable(&value.username) && is_splittable(&value.password) && url_ok) {
                        return false;
                    }
                }
            },
            Err(_) => {},
        }
    }
    true
}

/// `get_pass_info`, after checking that it can run: `None` exactly when the key is
/// base64, the name is not empty, and `pass_info_ready` fails.
pub fn get_pass_info_checked(data: &Pass, key: &str, iv: &str, looking_for: &str) -> (res: Option<
    Vec<String>,
>)
    ensures
        res is Some <==> (b64_decoding(key@) matches Some(k) ==> (looking_for@.len() > 0 ==> (
        info_splittable(data@, looking_for@, iv@, k) && key_fits(data@, iv@, k)))),
        res matches Some(details) ==> texts(details@) == match b64_decoding(key@) {
            None => Seq::<Seq<char>>::empty(),
            Some(k) => match found_info(data@, looking_for@, iv@, k) {
                Some(r) => seq![r.username, r.password, url_or_empty(r.url)],
                None => Seq::<Seq<char>>::empty(),
            },
        },
{
    match decode(key) {
        Ok(k) => {
            proof {
                lemma_b64_decoding_of_encoding(k@);
            }
            let lf = looking_for.to_owned();
            if !lf.as_str().is_empty() && !pass_info_ready(data, &lf, k.as_slice(), &iv.to_owned()) {
                return None;
            }
        },
        Err(_) => {},
    }
    Some(get_pass_info(data, key, iv, looking_for))
}

/// `get_pass_info` finds something only for a name that is not empty and that some
/// entry's name decrypts to: for any other name it finds nothing.
pub proof fn lemma_found_only_for_stored_names(
    entries: Seq<Entry>,
    looking_for: Seq<char>,
    iv: Seq<char>,
    key: Seq<u8>,
)
    ensures
        found_info(entries, looking_for, iv, key) is Some ==> looking_for.len() > 0 && exists|i: int|
            0 <= i < entries.len() && spec_decrypt(#[trigger] entries[i].0, iv, key)
                == Decryption::Plain(looking_for),
{
    if forall|i: int|
        0 <= i < entries.len() ==> spec_decrypt(#[trigger] entries[i].0, iv, key)
            != Decryption::Plain(looking_for) {
        assert forall|j: int| 0 <= j < entries.len() implies !matches_name(
            #[trigger] entries[j],
            looking_for,
            iv,
            key,
        ) by {
            assert(spec_decrypt(entries[j].0, iv, key) != Decryption::Plain(looking_for));
        }
        lemma_gathered_none(entries, looking_for, iv, key);
    }
}

/// When exactly one entry's name decrypts to the (non-empty) name looked for,
/// `get_pass_info` finds that entry's username, password and URL, each decrypted (a
/// fixed text stands for a field that does not decrypt, and for a missing URL), unless
/// all three are empty.
pub proof fn lemma_found_the_single_match(
    entries: Seq<Entry>,
    looking_for: Seq<char>,
    iv: Seq<char>,
    key: Seq<u8>,
    k: int,
)
    requires
        looking_for.len() > 0,
        0 <= k < entries.len(),
        spec_decrypt(entries[k].0, iv, key) == Decryption::Plain(looking_for),
        forall|i: int|
            0 <= i < entries.len() && i != k ==> spec_decrypt(#[trigger] entries[i].0, iv, key)
                != Decryption::Plain(looking_for),
    ensures
        ({
            let e = entries[k].1;
            let u = match spec_decrypt(e.username, iv, key) {
                Decryption::Plain(x) => x,
                _ => "Unable to decrypt username"@,
            };
            let p = match spec_decrypt(e.password, iv, key) {
                Decryption::Plain(x) => x,
                _ => "Unable to decrypt password"@,
            };
            let l = match e.url {
                Some(t) => match spec_decrypt(t, iv, key) {
                    Decryption::Plain(x) => x,
                    _ => "Unable to decrypt url"@,
                },
                None => "no url"@,
            };
            found_info(entries, looking_for, iv, key) == if u.len() == 0 && p.len() == 0 && l.len()
                == 0 {
                None::<PassRecord>
            } else {
                Some(PassRecord { username: u, password: p, url: Some(l) })
            }
        }),
{
    assert forall|j: int| 0 <= j < entries.len() && j != k implies !matches_name(
        #[trigger] entries[j],
        looking_for,
        iv,
        key,
    ) by {
        assert(spec_decrypt(entries[j].0, iv, key) != Decryption::Plain(looking_for));
    }
    lemma_gathered_single(entries, k, looking_for, iv, key);
}

/// `add_pass_helper` refuses an entry only when a part is too long for AES-GCM: it
/// succeeds exactly when the name, the username, the password and the URL (the empty
/// text when there is none) each take at most 2^36 bytes in UTF-8.
pub proof fn lemma_entry_fits_exactly(name: Seq<char>, info: PassRecord)
    ensures
        entry_fits(name, info) <==> (encode_utf8(name).len() <= 0x10_0000_0000 && encode_utf8(
            info.username,
        ).len() <= 0x10_0000_0000 && encode_utf8(info.password).len() <= 0x10_0000_0000
            && encode_utf8(
            match info.url {
                Some(u) => u,
                None => Seq::<char>::empty(),
            },
        ).len() <= 0x10_0000_0000),
{
}

/// A text is listed exactly when some entry contributes it.
proof fn lemma_names_listed(entries: Seq<Entry>, iv: Seq<char>, key: Seq<u8>)
    ensures
        names_of(entries, iv, key).len() <= entries.len(),
        forall|x: Seq<char>|
            names_of(entries, iv, key).contains(x) <==> exists|i: int|
                0 <= i < entries.len() && listed_name(#[trigger] entries[i], iv, key) == Some(x),
    decreases entries.len(),
{
    if entries.len() > 0 {
        let rest = entries.drop_last();
        lemma_names_listed(rest, iv, key);
        let r = names_of(rest, iv, key);
        let all = names_of(entries, iv, key);
        let n = entries.len() - 1;
        assert(entries.last() == entries[n]);
        assert forall|x: Seq<char>| all.contains(x) <==> exists|i: int|
            0 <= i < entries.len() && listed_name(#[trigger] entries[i], iv, key) == Some(x) by {
            if all.contains(x) {
                let a = choose|a: int| 0 <= a < all.len() && all[a] == x;
                if a < r.len() {
                    assert(r[a] == x);
                    assert(r.contains(x));
                    let i = choose|i: int|
                        0 <= i < rest.len() && listed_name(#[trigger] rest[i], iv, key) == Some(x);
                    assert(rest[i] == entries[i]);
                } else {
                    assert(listed_name(entries[n], iv, key) == Some(x));
                }
            }
            if exists|i: int| 0 <= i < entries.len() && listed_name(#[trigger] entries[i], iv, key) == Some(x) {
                let i = choose|i: int| 0 <= i < entries.len() && listed_name(#[trigger] entries[i], iv, key) == Some(x);
                if i < n {
                    assert(rest[i] == entries[i]);
                    assert(r.contains(x));
                    let a = choose|a: int| 0 <= a < r.len() && r[a] == x;
                    match listed_name(entries[n], iv, key) {
                        Some(y) => {
                            assert(all == r.push(y));
                            assert(all[a] == x);
                        },
                        None => {},
                    }
                } else {
                    assert(all == r.push(x));
                    assert(all[r.len() as int] == x);
                }
            }
        }
    }
}

/// `get_names` lists exactly the decrypted entry names other than `__check`: a text is
/// listed exactly when some entry's name decrypts to it and it is not `__check`, and
/// there are never more names than entries.
pub proof fn lemma_names_are_decrypted_names(entries: Seq<Entry>, iv: Seq<char>, key: Seq<u8>)
    ensures
        names_of(entries, iv, key).len() <= entries.len(),
        forall|x: Seq<char>|
            names_of(entries, iv, key).contains(x) <==> (x != "__check"@ && exists|i: int|
                0 <= i < entries.len() && spec_decrypt(#[trigger] entries[i].0, iv, key)
                    == Decryption::Plain(x)),
{
    lemma_names_listed(entries, iv, key);
    assert(check_word() == "__check"@);
    assert forall|x: Seq<char>| names_of(entries, iv, key).contains(x) <==> (x != "__check"@
        && exists|i: int|
        0 <= i < entries.len() && spec_decrypt(#[trigger] entries[i].0, iv, key)
            == Decryption::Plain(x)) by {
        if names_of(entries, iv, key).contains(x) {
            let i = choose|i: int| 0 <= i < entries.len() && listed_name(#[trigger] entries[i], iv, key) == Some(x);
            assert(spec_decrypt(entries[i].0, iv, key) == Decryption::Plain(x));
        }
        if x != "__check"@ && exists|i: int|
            0 <= i < entries.len() && spec_decrypt(#[trigger] entries[i].0, iv, key)
                == Decryption::Plain(x) {
            let i = choose|i: int|
                0 <= i < entries.len() && spec_decrypt(#[trigger] entries[i].0, iv, key)
                    == Decryption::Plain(x);
            assert(listed_name(entries[i], iv, key) == Some(x));
        }
    }
}

/// An entry is unlocked by a password exactly when its name decrypts to `__check` under
/// the key derived from the password and the entry's salt, with the entry's nonce.
proof fn lemma_unlocks_opens(password: Seq<char>, e: Entry)
    ensures
        unlocks(password, e) <==> spec_decrypt(
            e.0,
            e.1.username,
            derived_key(password, encode_utf8(e.1.password)),
        ) == Decryption::Plain("__check"@),
{
    assert(check_word() == "__check"@);
}

/// `login` accepts a password only through an entry that it opens: a result names the
/// first entry whose name decrypts to `__check` under the key derived from the password
/// and that entry's salt (its password field) with that entry's nonce (its username
/// field), and is that key in base64 and that nonce. With no such entry there is no
/// result.
pub proof fn lemma_login_opens_an_entry(entries: Seq<Entry>, password: Seq<char>)
    ensures
        login_result(entries, password) matches Some(r) ==> exists|i: int|
            0 <= i < entries.len() && spec_decrypt(
                #[trigger] entries[i].0,
                entries[i].1.username,
                derived_key(password, encode_utf8(entries[i].1.password)),
            ) == Decryption::Plain("__check"@) && (forall|j: int|
                0 <= j < i ==> spec_decrypt(
                    #[trigger] entries[j].0,
                    entries[j].1.username,
                    derived_key(password, encode_utf8(entries[j].1.password)),
                ) != Decryption::Plain("__check"@)) && r == seq![
                b64_encoding(derived_key(password, encode_utf8(entries[i].1.password))),
                entries[i].1.username,
            ],
        (forall|i: int|
            0 <= i < entries.len() ==> spec_decrypt(
                #[trigger] entries[i].0,
                entries[i].1.username,
                derived_key(password, encode_utf8(entries[i].1.password)),
            ) != Decryption::Plain("__check"@)) ==> login_result(entries, password) is None,
{
    lemma_first_unlocked(entries, password);
    let f = first_unlocked(entries, password);
    if f >= 0 {
        lemma_unlocks_opens(password, entries[f]);
        assert forall|j: int| 0 <= j < f implies spec_decrypt(
            #[trigger] entries[j].0,
            entries[j].1.username,
            derived_key(password, encode_utf8(entries[j].1.password)),
        ) != Decryption::Plain("__check"@) by {
            lemma_unlocks_opens(password, entries[j]);
        }
    }
}

/// `login` accepts the password that opens an entry: when the first entry whose name
/// decrypts to `__check` under the key derived from the password and its salt (with its
/// nonce) is entry `i`, and that key is not all zeros, `login` gives that key in base64
/// and that nonce.
pub proof fn lemma_login_accepts_the_opening_password(entries: Seq<Entry>, password: Seq<char>, i: int)
    requires
        0 <= i < entries.len(),
        spec_decrypt(
            entries[i].0,
            entries[i].1.username,
            derived_key(password, encode_utf8(entries[i].1.password)),
        ) == Decryption::Plain("__check"@),
        forall|j: int|
            0 <= j < i ==> spec_decrypt(
                #[trigger] entries[j].0,
                entries[j].1.username,
                derived_key(password, encode_utf8(entries[j].1.password)),
            ) != Decryption::Plain("__check"@),
        exists|b: int|
            0 <= b < derived_key(password, encode_utf8(entries[i].1.password)).len()
                && derived_key(password, encode_utf8(entries[i].1.password))[b] != 0,
    ensures
        login_result(entries, password) == Some(
            seq![
                b64_encoding(derived_key(password, encode_utf8(entries[i].1.password))),
                entries[i].1.username,
            ],
        ),
{
    lemma_first_unlocked(entries, password);
    let f = first_unlocked(entries, password);
    lemma_unlocks_opens(password, entries[i]);
    if f < 0 || f > i {
        assert(!unlocks(password, entries[i]));
    }
    if 0 <= f < i {
        lemma_unlocks_opens(password, entries[f]);
        assert(spec_decrypt(
            entries[f].0,
            entries[f].1.username,
            derived_key(password, encode_utf8(entries[f].1.password)),
        ) != Decryption::Plain("__check"@));
    }
    assert(f == i);
}

/// Names are listed in entry order: the names listed for the first `k` entries are the
/// first names listed for all of them.
pub proof fn lemma_names_in_entry_order(entries: Seq<Entry>, iv: Seq<char>, key: Seq<u8>, k: int)
    requires
        0 <= k <= entries.len(),
    ensures
        names_of(entries.take(k), iv, key).len() <= names_of(entries, iv, key).len(),
        names_of(entries.take(k), iv, key) == names_of(entries, iv, key).take(
            names_of(entries.take(k), iv, key).len() as int,
        ),
    decreases entries.len() - k,
{
    if k == entries.len() {
        assert(entries.take(k) =~= entries);
    } else {
        lemma_names_in_entry_order(entries, iv, key, k + 1);
        let next = entries.take(k + 1);
        assert(next.drop_last() =~= entries.take(k));
        let short = names_of(entries.take(k), iv, key);
        let longer = names_of(next, iv, key);
        let all = names_of(entries, iv, key);
        assert(short == longer.take(short.len() as int));
        assert(longer.take(short.len() as int) =~= all.take(short.len() as int));
    }
}

} // verus!
