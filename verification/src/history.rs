use vstd::prelude::*;

use vstd::utf8::*;

use crate::crypto::{
    can_split, encrypted_text, is_nonce_b64, lemma_decrypt_encrypt, reaches_cipher, seal_facts,
    sealed_of, spec_decrypt, Decryption,
};
use crate::encoding::{
    b64_decoding, b64_encoding, b64_len, lemma_b64_decoding_of_encoding, lemma_b64_len,
};
use crate::store::{
    inserted, lemma_inserted_distinct, lemma_inserted_same_entries, lemma_lookup_inserted,
    lemma_position, lookup,
    names_distinct, position, same_entries, Entry, PassRecord,
};
use crate::vault::{
    check_word, entry_sealed, file_key, first_unlocked, is_new_file, is_zero_key, key_fits,
    found_info, info_splittable, lemma_first_unlocked, lemma_gathered_single, listed_name,
    login_result, login_splittable, matches_name, names_of, names_splittable, stored_record, unlocks,
    url_or_empty,
};

verus! {

/// An entry as it is given to `add_pass_helper`: its name and its details.
pub type Addition = (Seq<char>, PassRecord);

/// The entries after `add_pass_helper` stored each of `adds` in turn, under `iv` and `key`.
pub open spec fn added(entries: Seq<Entry>, adds: Seq<Addition>, iv: Seq<char>, key: Seq<u8>) -> Seq<
    Entry,
>
    decreases adds.len(),
{
    if adds.len() == 0 {
        entries
    } else {
        inserted(
            added(entries, adds.drop_last(), iv, key),
            encrypted_text(adds.last().0, iv, key),
            stored_record(adds.last().1, iv, key),
        )
    }
}

/// The entries as a file lists them after each step of a history that starts from
/// `entries`: `states[0]` lists `entries`, and each next state lists what storing the
/// next addition (under `iv` and `key`) into the previous state gave; every state in
/// any order, as when the file is written and read back between additions.
pub open spec fn reordered_history(
    entries: Seq<Entry>,
    adds: Seq<Addition>,
    iv: Seq<char>,
    key: Seq<u8>,
    states: Seq<Seq<Entry>>,
) -> bool {
    &&& states.len() == adds.len() + 1
    &&& forall|j: int| 0 <= j < states.len() ==> names_distinct(#[trigger] states[j])
    &&& same_entries(entries, states[0])
    &&& forall|j: int|
        0 <= j < adds.len() ==> same_entries(
            inserted(
                states[j],
                encrypted_text((#[trigger] adds[j]).0, iv, key),
                stored_record(adds[j].1, iv, key),
            ),
            states[j + 1],
        )
}

/// Every addition succeeded (each encryption had the facts of its seal), and none is
/// named with the check word.
pub open spec fn adds_ok(adds: Seq<Addition>, iv: Seq<char>, key: Seq<u8>) -> bool {
    forall|j: int|
        0 <= j < adds.len() ==> entry_sealed(#[trigger] adds[j].0, adds[j].1, iv, key) && adds[j].0
            != check_word()
}

/// What the entry name `name` decrypts to (the empty text when it does not).
pub open spec fn plain_of(name: Seq<char>, iv: Seq<char>, key: Seq<u8>) -> Seq<char> {
    match spec_decrypt(name, iv, key) {
        Decryption::Plain(x) => x,
        _ => Seq::<char>::empty(),
    }
}

/// Every entry name is the encryption, under `iv` and `key`, of what it decrypts to,
/// and names are distinct.
pub open spec fn keyed(entries: Seq<Entry>, iv: Seq<char>, key: Seq<u8>) -> bool {
    &&& names_distinct(entries)
    &&& forall|i: int|
        0 <= i < entries.len() ==> seal_facts(plain_of(#[trigger] entries[i].0, iv, key), iv, key)
            && entries[i].0 == encrypted_text(plain_of(entries[i].0, iv, key), iv, key)
}

/// Some entry's name is the encryption of `x`.
pub open spec fn holds_name(entries: Seq<Entry>, x: Seq<char>, iv: Seq<char>, key: Seq<u8>) -> bool {
    exists|i: int| 0 <= i < entries.len() && plain_of(#[trigger] entries[i].0, iv, key) == x
}

/// Additions keep names distinct.
proof fn lemma_added_distinct(entries: Seq<Entry>, adds: Seq<Addition>, iv: Seq<char>, key: Seq<u8>)
    requires
        names_distinct(entries),
    ensures
        names_distinct(added(entries, adds, iv, key)),
    decreases adds.len(),
{
    if adds.len() > 0 {
        lemma_added_distinct(entries, adds.drop_last(), iv, key);
        lemma_inserted_distinct(
            added(entries, adds.drop_last(), iv, key),
            encrypted_text(adds.last().0, iv, key),
            stored_record(adds.last().1, iv, key),
        );
    }
}

/// The order in which a file lists its entries between additions does not matter: at
/// the end of a history in which the file was listed in any order before each
/// addition, it holds the entries that the additions make in turn, in some order.
pub proof fn lemma_reordered_history(
    entries: Seq<Entry>,
    adds: Seq<Addition>,
    iv: Seq<char>,
    key: Seq<u8>,
    states: Seq<Seq<Entry>>,
)
    requires
        names_distinct(entries),
        reordered_history(entries, adds, iv, key, states),
    ensures
        same_entries(added(entries, adds, iv, key), states.last()),
    decreases adds.len(),
{
    if adds.len() > 0 {
        let n = adds.len() as int;
        let rest = adds.drop_last();
        let earlier = states.drop_last();
        assert forall|j: int| 0 <= j < earlier.len() implies names_distinct(#[trigger] earlier[j]) by {
            assert(earlier[j] == states[j]);
        }
        assert forall|j: int| 0 <= j < rest.len() implies same_entries(
            inserted(
                earlier[j],
                encrypted_text((#[trigger] rest[j]).0, iv, key),
                stored_record(rest[j].1, iv, key),
            ),
            earlier[j + 1],
        ) by {
            assert(rest[j] == adds[j]);
            assert(earlier[j] == states[j]);
            assert(earlier[j + 1] == states[j + 1]);
        }
        lemma_reordered_history(entries, rest, iv, key, earlier);
        let prev = added(entries, rest, iv, key);
        let last = adds[n - 1];
        assert(adds.last() == last);
        assert(earlier.last() == states[n - 1]);
        assert(names_distinct(states[n - 1]));
        assert(names_distinct(states[n]));
        lemma_added_distinct(entries, rest, iv, key);
        lemma_inserted_same_entries(
            prev,
            states[n - 1],
            encrypted_text(last.0, iv, key),
            stored_record(last.1, iv, key),
        );
        assert(same_entries(
            inserted(
                states[n - 1],
                encrypted_text(adds[n - 1].0, iv, key),
                stored_record(adds[n - 1].1, iv, key),
            ),
            states[n],
        ));
    }
}

/// An encrypted name decrypts to its text.
proof fn lemma_plain_of_encrypted(x: Seq<char>, iv: Seq<char>, key: Seq<u8>)
    requires
        is_nonce_b64(iv),
        seal_facts(x, iv, key),
    ensures
        plain_of(encrypted_text(x, iv, key), iv, key) == x,
        spec_decrypt(encrypted_text(x, iv, key), iv, key) == Decryption::Plain(x),
        can_split(encrypted_text(x, iv, key)),
        reaches_cipher(encrypted_text(x, iv, key), iv),
{
    lemma_decrypt_encrypt(x, iv, key, encrypted_text(x, iv, key));
}

/// Distinct texts have distinct encryptions.
proof fn lemma_encrypted_injective(x: Seq<char>, y: Seq<char>, iv: Seq<char>, key: Seq<u8>)
    requires
        is_nonce_b64(iv),
        seal_facts(x, iv, key),
        seal_facts(y, iv, key),
        encrypted_text(x, iv, key) == encrypted_text(y, iv, key),
    ensures
        x == y,
{
    lemma_plain_of_encrypted(x, iv, key);
    lemma_plain_of_encrypted(y, iv, key);
}

/// An encryption is never the base64 of a 12-byte nonce: with its 16-byte tag it has at
/// least 24 characters, and such a nonce has 16.
proof fn lemma_encrypted_not_nonce(x: Seq<char>, iv: Seq<char>, key: Seq<u8>)
    requires
        seal_facts(x, iv, key),
    ensures
        !is_nonce_b64(encrypted_text(x, iv, key)),
{
    let n = encode_utf8(x).len() as int;
    let sealed = sealed_of(x, iv, key);
    let enc = encrypted_text(x, iv, key);
    lemma_b64_len(sealed.take(n));
    lemma_b64_len(sealed.skip(n));
    assert(sealed.skip(n).len() == 16);
    assert(b64_len(16) == 24);
    if is_nonce_b64(enc) {
        let v = b64_decoding(enc)->0;
        assert(b64_encoding(v) == enc);
        lemma_b64_len(v);
        assert(b64_len(12) == 16);
    }
}

/// An entry whose username field is no base64 nonce is unlocked by no password.
proof fn lemma_no_nonce_never_unlocks(password: Seq<char>, entry: Entry)
    requires
        !is_nonce_b64(entry.1.username),
    ensures
        !unlocks(password, entry),
{
}

/// Entries with distinct names that hold the same entries as keyed ones are keyed too,
/// and hold the same texts.
proof fn lemma_keyed_reordered(a: Seq<Entry>, b: Seq<Entry>, iv: Seq<char>, key: Seq<u8>)
    requires
        keyed(a, iv, key),
        names_distinct(b),
        same_entries(a, b),
    ensures
        keyed(b, iv, key),
        forall|x: Seq<char>| holds_name(b, x, iv, key) <==> holds_name(a, x, iv, key),
{
    assert forall|i: int| 0 <= i < b.len() implies seal_facts(
        plain_of(#[trigger] b[i].0, iv, key),
        iv,
        key,
    ) && b[i].0 == encrypted_text(plain_of(b[i].0, iv, key), iv, key) by {
        assert(b.contains(b[i]));
        let j = choose|j: int| 0 <= j < a.len() && a[j] == b[i];
        assert(a[j].0 == b[i].0);
    }
    assert forall|x: Seq<char>| holds_name(b, x, iv, key) <==> holds_name(a, x, iv, key) by {
        if holds_name(b, x, iv, key) {
            let i = choose|i: int| 0 <= i < b.len() && plain_of(#[trigger] b[i].0, iv, key) == x;
            assert(b.contains(b[i]));
            let j = choose|j: int| 0 <= j < a.len() && a[j] == b[i];
            assert(plain_of(a[j].0, iv, key) == x);
        }
        if holds_name(a, x, iv, key) {
            let i = choose|i: int| 0 <= i < a.len() && plain_of(#[trigger] a[i].0, iv, key) == x;
            assert(a.contains(a[i]));
            let j = choose|j: int| 0 <= j < b.len() && b[j] == a[i];
            assert(plain_of(b[j].0, iv, key) == x);
        }
    }
}

/// In keyed entries every name decrypts to its text, can be cut and reaches the cipher.
proof fn lemma_keyed_names(entries: Seq<Entry>, iv: Seq<char>, key: Seq<u8>)
    requires
        is_nonce_b64(iv),
        keyed(entries, iv, key),
    ensures
        names_splittable(entries),
        forall|i: int|
            0 <= i < entries.len() ==> spec_decrypt(#[trigger] entries[i].0, iv, key)
                == Decryption::Plain(plain_of(entries[i].0, iv, key)),
        forall|i: int| 0 <= i < entries.len() ==> reaches_cipher(#[trigger] entries[i].0, iv),
{
    assert forall|i: int| 0 <= i < entries.len() implies {
        &&& can_split(#[trigger] entries[i].0)
        &&& spec_decrypt(entries[i].0, iv, key) == Decryption::Plain(plain_of(entries[i].0, iv, key))
        &&& reaches_cipher(entries[i].0, iv)
    } by {
        lemma_plain_of_encrypted(plain_of(entries[i].0, iv, key), iv, key);
    }
}

/// Storing a sealed entry keeps entries keyed; the texts held are the old ones and the
/// new name.
proof fn lemma_keyed_inserted(
    entries: Seq<Entry>,
    name: Seq<char>,
    info: PassRecord,
    iv: Seq<char>,
    key: Seq<u8>,
)
    requires
        is_nonce_b64(iv),
        keyed(entries, iv, key),
        entry_sealed(name, info, iv, key),
    ensures
        ({
            let after = inserted(entries, encrypted_text(name, iv, key), stored_record(info, iv, key));
            &&& keyed(after, iv, key)
            &&& forall|x: Seq<char>| holds_name(after, x, iv, key) <==> (holds_name(entries, x, iv, key) || x == name)
            &&& position(entries, encrypted_text(name, iv, key)) >= 0 ==> after.len() == entries.len()
            &&& position(entries, encrypted_text(name, iv, key)) >= 0 ==> after[position(entries, encrypted_text(name, iv, key))].0 == entries[position(entries, encrypted_text(name, iv, key))].0
            &&& position(entries, encrypted_text(name, iv, key)) < 0 ==> after == entries.push((encrypted_text(name, iv, key), stored_record(info, iv, key)))
            &&& forall|i: int| 0 <= i < entries.len() && i != position(entries, encrypted_text(name, iv, key)) ==> after[i] == entries[i]
        }),
{
    let enc = encrypted_text(name, iv, key);
    let after = inserted(entries, enc, stored_record(info, iv, key));
    lemma_position(entries, enc);
    lemma_inserted_distinct(entries, enc, stored_record(info, iv, key));
    lemma_plain_of_encrypted(name, iv, key);
    let p = position(entries, enc);
    let k = if p >= 0 {
        p
    } else {
        entries.len() as int
    };
    assert(after[k].0 == enc);
    assert forall|i: int| 0 <= i < after.len() implies seal_facts(
        plain_of(#[trigger] after[i].0, iv, key),
        iv,
        key,
    ) && after[i].0 == encrypted_text(plain_of(after[i].0, iv, key), iv, key) by {
        if i != k {
            assert(after[i] == entries[i]);
        }
    }
    assert forall|x: Seq<char>| holds_name(after, x, iv, key) <==> (holds_name(entries, x, iv, key) || x == name) by {
        if holds_name(after, x, iv, key) {
            let i = choose|i: int| 0 <= i < after.len() && plain_of(#[trigger] after[i].0, iv, key) == x;
            if i != k {
                assert(after[i] == entries[i]);
            }
        }
        if holds_name(entries, x, iv, key) {
            let i = choose|i: int| 0 <= i < entries.len() && plain_of(#[trigger] entries[i].0, iv, key) == x;
            if i != k {
                assert(after[i] == entries[i]);
            } else {
                assert(entries[i].0 == enc);
                assert(plain_of(after[k].0, iv, key) == x);
            }
        }
        if x == name {
            assert(plain_of(after[k].0, iv, key) == x);
        }
    }
}


/// Additions keep entries keyed, the texts held become the old ones and the added
/// names, a first entry that holds the check word stays first, and every entry is an
/// old one or keeps an encryption (no base64 nonce) as its username.
proof fn lemma_added(entries: Seq<Entry>, adds: Seq<Addition>, iv: Seq<char>, key: Seq<u8>)
    requires
        is_nonce_b64(iv),
        keyed(entries, iv, key),
        adds_ok(adds, iv, key),
    ensures
        ({
            let after = added(entries, adds, iv, key);
            &&& keyed(after, iv, key)
            &&& forall|x: Seq<char>|
                holds_name(after, x, iv, key) <==> (holds_name(entries, x, iv, key) || exists|j: int|
                    0 <= j < adds.len() && (#[trigger] adds[j]).0 == x)
            &&& (entries.len() > 0 && plain_of(entries[0].0, iv, key) == check_word()) ==> (
            after.len() > 0 && after[0] == entries[0])
            &&& forall|i: int|
                0 <= i < after.len() ==> entries.contains(#[trigger] after[i]) || !is_nonce_b64(
                    after[i].1.username,
                )
        }),
    decreases adds.len(),
{
    if adds.len() == 0 {
        assert forall|i: int| 0 <= i < entries.len() implies entries.contains(#[trigger] entries[i]) by {
            assert(entries[i] == entries[i]);
        }
    } else {
        let rest = adds.drop_last();
        assert forall|j: int| 0 <= j < rest.len() implies entry_sealed(
            #[trigger] rest[j].0,
            rest[j].1,
            iv,
            key,
        ) && rest[j].0 != check_word() by {
            assert(rest[j] == adds[j]);
        }
        lemma_added(entries, rest, iv, key);
        let prev = added(entries, rest, iv, key);
        let (name, info) = adds.last();
        assert(entry_sealed(adds[adds.len() - 1].0, adds[adds.len() - 1].1, iv, key));
        lemma_keyed_inserted(prev, name, info, iv, key);
        let after = added(entries, adds, iv, key);
        assert forall|x: Seq<char>| holds_name(after, x, iv, key) <==> (holds_name(entries, x, iv, key)
            || exists|j: int| 0 <= j < adds.len() && (#[trigger] adds[j]).0 == x) by {
            if exists|j: int| 0 <= j < adds.len() && (#[trigger] adds[j]).0 == x {
                let j = choose|j: int| 0 <= j < adds.len() && (#[trigger] adds[j]).0 == x;
                if j < rest.len() {
                    assert(rest[j] == adds[j]);
                }
            }
            if exists|j: int| 0 <= j < rest.len() && (#[trigger] rest[j]).0 == x {
                let j = choose|j: int| 0 <= j < rest.len() && (#[trigger] rest[j]).0 == x;
                assert(rest[j] == adds[j]);
            }
        }
        let enc = encrypted_text(name, iv, key);
        let rec = stored_record(info, iv, key);
        lemma_position(prev, enc);
        lemma_encrypted_not_nonce(info.username, iv, key);
        let p = position(prev, enc);
        let k = if p >= 0 {
            p
        } else {
            prev.len() as int
        };
        assert(after[k] == (enc, rec));
        assert forall|i: int| 0 <= i < after.len() implies entries.contains(#[trigger] after[i])
            || !is_nonce_b64(after[i].1.username) by {
            if i != k {
                assert(after[i] == prev[i]);
            }
        }
        if entries.len() > 0 && plain_of(entries[0].0, iv, key) == check_word() {
            lemma_position(prev, enc);
            lemma_plain_of_encrypted(name, iv, key);
            if position(prev, enc) == 0 {
                assert(prev[0].0 == enc);
                assert(false);
            }
        }
    }
}


/// The entries of a new file are keyed, and hold only the check word.
proof fn lemma_new_file_keyed(entries: Seq<Entry>, password: Seq<char>, iv: Seq<u8>, salt: Seq<u8>)
    requires
        iv.len() == 12,
        is_new_file(entries, password, iv, salt),
    ensures
        is_nonce_b64(b64_encoding(iv)),
        keyed(entries, b64_encoding(iv), file_key(password, salt)),
        entries.len() == 1,
        plain_of(entries[0].0, b64_encoding(iv), file_key(password, salt)) == check_word(),
        forall|x: Seq<char>|
            holds_name(entries, x, b64_encoding(iv), file_key(password, salt)) <==> x == check_word(),
{
    let ivb = b64_encoding(iv);
    let key = file_key(password, salt);
    lemma_b64_decoding_of_encoding(iv);
    lemma_plain_of_encrypted(check_word(), ivb, key);
    assert(plain_of(entries[0].0, ivb, key) == check_word());
    assert forall|x: Seq<char>| holds_name(entries, x, ivb, key) <==> x == check_word() by {
        if x == check_word() {
            assert(plain_of(entries[0].0, ivb, key) == x);
        }
    }
}

/// Adding entries never breaks logging in: after a new file was made with `password`,
/// `iv` and `salt`, and any entries not named with the check word were added under the
/// key and nonce that `login` returned, `login` with `password` returns that key and
/// nonce again, whatever the order in which the file lists its entries (`stored` holds
/// the entries that the additions left, in any order). No added entry is unlocked by
/// any password, since its username field is an encryption and not a nonce; so the
/// check entry is the one `login` finds. The names can still be decrypted, as `login`
/// needs. (By `lemma_reordered_history`, the last state of a history in which the file
/// was read back between additions is such a `stored`.)
pub proof fn lemma_login_after_adds(
    entries: Seq<Entry>,
    password: Seq<char>,
    iv: Seq<u8>,
    salt: Seq<u8>,
    adds: Seq<Addition>,
    stored: Seq<Entry>,
)
    requires
        iv.len() == 12,
        is_new_file(entries, password, iv, salt),
        !is_zero_key(file_key(password, salt)),
        adds_ok(adds, b64_encoding(iv), file_key(password, salt)),
        names_distinct(stored),
        same_entries(added(entries, adds, b64_encoding(iv), file_key(password, salt)), stored),
    ensures
        names_splittable(stored),
        login_splittable(stored, password),
        login_result(stored, password) == Some(
            seq![b64_encoding(file_key(password, salt)), b64_encoding(iv)],
        ),
{
    let ivb = b64_encoding(iv);
    let key = file_key(password, salt);
    lemma_new_file_keyed(entries, password, iv, salt);
    lemma_added(entries, adds, ivb, key);
    let after = added(entries, adds, ivb, key);
    lemma_keyed_reordered(after, stored, ivb, key);
    lemma_keyed_names(stored, ivb, key);
    lemma_plain_of_encrypted(check_word(), ivb, key);
    let c = entries[0];
    assert(unlocks(password, c));
    assert(after.contains(after[0]));
    let k = choose|k: int| 0 <= k < stored.len() && stored[k] == c;
    assert forall|i: int| 0 <= i < stored.len() && unlocks(password, #[trigger] stored[i]) implies i
        == k by {
        assert(stored.contains(stored[i]));
        let j = choose|j: int| 0 <= j < after.len() && after[j] == stored[i];
        if !entries.contains(after[j]) {
            lemma_no_nonce_never_unlocks(password, after[j]);
        }
        assert(stored[i].0 == stored[k].0);
    }
    lemma_first_unlocked(stored, password);
    let f = first_unlocked(stored, password);
    if f < 0 {
        assert(!unlocks(password, stored[k]));
    }
    assert(f == k);
}

/// The names listed for keyed entries: each text held, except the check word, once.
proof fn lemma_names_of_keyed(entries: Seq<Entry>, iv: Seq<char>, key: Seq<u8>)
    requires
        is_nonce_b64(iv),
        keyed(entries, iv, key),
    ensures
        names_of(entries, iv, key).no_duplicates(),
        forall|x: Seq<char>|
            names_of(entries, iv, key).contains(x) <==> (holds_name(entries, x, iv, key) && x
                != check_word()),
    decreases entries.len(),
{
    if entries.len() > 0 {
        let rest = entries.drop_last();
        let last = entries.last();
        assert forall|i: int| 0 <= i < rest.len() implies rest[i] == entries[i] by {}
        assert(keyed(rest, iv, key));
        lemma_names_of_keyed(rest, iv, key);
        lemma_keyed_names(entries, iv, key);
        let pl = plain_of(last.0, iv, key);
        assert(spec_decrypt(entries[entries.len() - 1].0, iv, key) == Decryption::Plain(pl));
        let r = names_of(rest, iv, key);
        let all = names_of(entries, iv, key);
        assert forall|x: Seq<char>| holds_name(entries, x, iv, key) <==> (holds_name(rest, x, iv, key)
            || x == pl) by {
            if holds_name(entries, x, iv, key) {
                let i = choose|i: int| 0 <= i < entries.len() && plain_of(#[trigger] entries[i].0, iv, key) == x;
                if i < rest.len() {
                    assert(plain_of(rest[i].0, iv, key) == x);
                }
            }
            if holds_name(rest, x, iv, key) {
                let i = choose|i: int| 0 <= i < rest.len() && plain_of(#[trigger] rest[i].0, iv, key) == x;
                assert(plain_of(entries[i].0, iv, key) == x);
            }
            if x == pl {
                assert(plain_of(entries[entries.len() - 1].0, iv, key) == x);
            }
        }
        if pl != check_word() {
            assert(listed_name(last, iv, key) == Some(pl));
            assert(all == r.push(pl));
            if r.contains(pl) {
                assert(holds_name(rest, pl, iv, key));
                let i = choose|i: int| 0 <= i < rest.len() && plain_of(#[trigger] rest[i].0, iv, key) == pl;
                assert(entries[i].0 == encrypted_text(pl, iv, key));
                assert(last.0 == encrypted_text(pl, iv, key));
                assert(entries[i].0 == entries[entries.len() - 1].0);
                assert(false);
            }
            assert forall|a: int, b: int| 0 <= a < all.len() && 0 <= b < all.len() && a != b implies all[a]
                != all[b] by {
                if a < r.len() && b < r.len() {
                } else if a < r.len() {
                    assert(r[a] != pl);
                } else if b < r.len() {
                    assert(r[b] != pl);
                }
            }
            assert forall|x: Seq<char>| all.contains(x) <==> r.contains(x) || x == pl by {
                if all.contains(x) {
                    let i = choose|i: int| 0 <= i < all.len() && all[i] == x;
                    if i < r.len() {
                        assert(r[i] == x);
                    }
                }
                if r.contains(x) {
                    let i = choose|i: int| 0 <= i < r.len() && r[i] == x;
                    assert(all[i] == x);
                }
                if x == pl {
                    assert(all[r.len() as int] == x);
                }
            }
        } else {
            assert(listed_name(last, iv, key) is None);
            assert(all == r);
        }
    }
}

/// Adding entries lists exactly the added names: after a new file was made and entries
/// not named with the check word were added under the key and nonce that `login`
/// returned, `get_names` lists each added name once and nothing else (never the check
/// entry), whatever the order in which the file lists its entries (`stored` holds the
/// entries that the additions left, in any order; see `lemma_reordered_history`). The
/// names can be decrypted with that key, as `get_names` needs.
pub proof fn lemma_names_after_adds(
    entries: Seq<Entry>,
    password: Seq<char>,
    iv: Seq<u8>,
    salt: Seq<u8>,
    adds: Seq<Addition>,
    stored: Seq<Entry>,
)
    requires
        iv.len() == 12,
        is_new_file(entries, password, iv, salt),
        adds_ok(adds, b64_encoding(iv), file_key(password, salt)),
        names_distinct(stored),
        same_entries(added(entries, adds, b64_encoding(iv), file_key(password, salt)), stored),
    ensures
        ({
            let ivb = b64_encoding(iv);
            let key = file_key(password, salt);
            &&& names_splittable(stored)
            &&& key_fits(stored, ivb, key)
            &&& names_of(stored, ivb, key).no_duplicates()
            &&& forall|x: Seq<char>|
                names_of(stored, ivb, key).contains(x) <==> exists|j: int|
                    0 <= j < adds.len() && (#[trigger] adds[j]).0 == x
        }),
{
    let ivb = b64_encoding(iv);
    let key = file_key(password, salt);
    lemma_new_file_keyed(entries, password, iv, salt);
    lemma_added(entries, adds, ivb, key);
    let after = added(entries, adds, ivb, key);
    lemma_keyed_reordered(after, stored, ivb, key);
    lemma_keyed_names(stored, ivb, key);
    lemma_names_of_keyed(stored, ivb, key);
    lemma_listed_are_added(entries, stored, adds, ivb, key);
}

proof fn lemma_listed_are_added(
    entries: Seq<Entry>,
    after: Seq<Entry>,
    adds: Seq<Addition>,
    iv: Seq<char>,
    key: Seq<u8>,
)
    requires
        adds_ok(adds, iv, key),
        forall|x: Seq<char>| holds_name(entries, x, iv, key) <==> x == check_word(),
        forall|x: Seq<char>|
            holds_name(after, x, iv, key) <==> (holds_name(entries, x, iv, key) || exists|j: int|
                0 <= j < adds.len() && (#[trigger] adds[j]).0 == x),
        forall|x: Seq<char>|
            names_of(after, iv, key).contains(x) <==> (holds_name(after, x, iv, key) && x
                != check_word()),
    ensures
        forall|x: Seq<char>|
            names_of(after, iv, key).contains(x) <==> exists|j: int|
                0 <= j < adds.len() && (#[trigger] adds[j]).0 == x,
{
    assert forall|x: Seq<char>| names_of(after, iv, key).contains(x) <==> exists|j: int|
        0 <= j < adds.len() && (#[trigger] adds[j]).0 == x by {
        assert(holds_name(entries, x, iv, key) <==> x == check_word());
        assert(holds_name(after, x, iv, key) <==> (holds_name(entries, x, iv, key) || exists|j: int|
            0 <= j < adds.len() && (#[trigger] adds[j]).0 == x));
        if exists|j: int| 0 <= j < adds.len() && (#[trigger] adds[j]).0 == x {
            let j = choose|j: int| 0 <= j < adds.len() && (#[trigger] adds[j]).0 == x;
            assert(adds[j].0 != check_word());
        }
    }
}


/// After the additions, the last record added under a name is what is stored under its
/// encryption.
proof fn lemma_lookup_added(
    entries: Seq<Entry>,
    adds: Seq<Addition>,
    iv: Seq<char>,
    key: Seq<u8>,
    j: int,
)
    requires
        is_nonce_b64(iv),
        keyed(entries, iv, key),
        adds_ok(adds, iv, key),
        0 <= j < adds.len(),
        forall|l: int| j < l < adds.len() ==> (#[trigger] adds[l]).0 != adds[j].0,
    ensures
        lookup(added(entries, adds, iv, key), encrypted_text(adds[j].0, iv, key)) == Some(
            stored_record(adds[j].1, iv, key),
        ),
    decreases adds.len(),
{
    let rest = adds.drop_last();
    assert forall|l: int| 0 <= l < rest.len() implies entry_sealed(
        #[trigger] rest[l].0,
        rest[l].1,
        iv,
        key,
    ) && rest[l].0 != check_word() by {
        assert(rest[l] == adds[l]);
    }
    lemma_added(entries, rest, iv, key);
    let prev = added(entries, rest, iv, key);
    let last = adds[adds.len() - 1];
    assert(adds.last() == last);
    if j == adds.len() - 1 {
        lemma_lookup_inserted(
            prev,
            encrypted_text(last.0, iv, key),
            stored_record(last.1, iv, key),
            encrypted_text(last.0, iv, key),
        );
    } else {
        let name = adds[j].0;
        assert(rest[j] == adds[j]);
        assert forall|l: int| j < l < rest.len() implies (#[trigger] rest[l]).0 != rest[j].0 by {
            assert(rest[l] == adds[l]);
        }
        lemma_lookup_added(entries, rest, iv, key, j);
        assert(entry_sealed(adds[j].0, adds[j].1, iv, key));
        assert(entry_sealed(last.0, last.1, iv, key));
        if encrypted_text(last.0, iv, key) == encrypted_text(name, iv, key) {
            lemma_encrypted_injective(last.0, name, iv, key);
        }
        lemma_lookup_inserted(
            prev,
            encrypted_text(last.0, iv, key),
            stored_record(last.1, iv, key),
            encrypted_text(name, iv, key),
        );
    }
}

/// What a read gives back of the writes: after a new file was made and entries not
/// named with the check word were added under the key and nonce that `login` returned,
/// `get_pass_info` for a name finds username, password and URL (the empty text for a
/// missing one) of the last addition under that name, or nothing when all three are
/// empty, whatever the order in which the file lists its entries (`stored` holds the
/// entries that the additions left, in any order; see `lemma_reordered_history`). The
/// fields it decrypts can be decrypted with that key.
pub proof fn lemma_pass_info_after_adds(
    entries: Seq<Entry>,
    password: Seq<char>,
    iv: Seq<u8>,
    salt: Seq<u8>,
    adds: Seq<Addition>,
    j: int,
    stored: Seq<Entry>,
)
    requires
        iv.len() == 12,
        is_new_file(entries, password, iv, salt),
        adds_ok(adds, b64_encoding(iv), file_key(password, salt)),
        0 <= j < adds.len(),
        forall|l: int| j < l < adds.len() ==> (#[trigger] adds[l]).0 != adds[j].0,
        adds[j].0.len() > 0,
        names_distinct(stored),
        same_entries(added(entries, adds, b64_encoding(iv), file_key(password, salt)), stored),
    ensures
        ({
            let ivb = b64_encoding(iv);
            let key = file_key(password, salt);
            let name = adds[j].0;
            let info = adds[j].1;
            let u = info.username;
            let p = info.password;
            let l = url_or_empty(info.url);
            &&& info_splittable(stored, name, ivb, key)
            &&& key_fits(stored, ivb, key)
            &&& found_info(stored, name, ivb, key) == if u.len() == 0 && p.len() == 0 && l.len() == 0 {
                None::<PassRecord>
            } else {
                Some(PassRecord { username: u, password: p, url: Some(l) })
            }
        }),
{
    let ivb = b64_encoding(iv);
    let key = file_key(password, salt);
    let name = adds[j].0;
    let info = adds[j].1;
    let enc = encrypted_text(name, ivb, key);
    let rec = stored_record(info, ivb, key);
    lemma_new_file_keyed(entries, password, iv, salt);
    lemma_added(entries, adds, ivb, key);
    let after = added(entries, adds, ivb, key);
    lemma_keyed_reordered(after, stored, ivb, key);
    lemma_keyed_names(stored, ivb, key);
    lemma_lookup_added(entries, adds, ivb, key, j);
    lemma_position(after, enc);
    let k0 = position(after, enc);
    assert(after[k0] == (enc, rec));
    assert(after.contains(after[k0]));
    let k = choose|k: int| 0 <= k < stored.len() && stored[k] == after[k0];
    assert(stored[k] == (enc, rec));
    assert(entry_sealed(name, info, ivb, key));
    lemma_plain_of_encrypted(name, ivb, key);
    lemma_plain_of_encrypted(info.username, ivb, key);
    lemma_plain_of_encrypted(info.password, ivb, key);
    lemma_plain_of_encrypted(url_or_empty(info.url), ivb, key);
    assert(matches_name(stored[k], name, ivb, key));
    assert forall|i: int| 0 <= i < stored.len() && i != k implies !matches_name(
        #[trigger] stored[i],
        name,
        ivb,
        key,
    ) by {
        if matches_name(stored[i], name, ivb, key) {
            assert(plain_of(stored[i].0, ivb, key) == name);
            assert(stored[i].0 == enc);
        }
    }
    lemma_gathered_single(stored, k, name, ivb, key);
    assert forall|i: int| 0 <= i < stored.len() && matches_name(#[trigger] stored[i], name, ivb, key) implies {
        &&& can_split(stored[i].1.username)
        &&& can_split(stored[i].1.password)
        &&& (stored[i].1.url matches Some(u) ==> can_split(u))
    } by {}
}

} // verus!
