use aes_gcm::aead::Aead;
use aes_gcm::KeyInit;
use hmac::Mac;
use rustsafe::vault::{
    change_master_key, dump, edit_record, import_records, password_or_generated, reseal_vault,
    GENERATED_LENGTH, find_record, generate_rand_password, load, open_all, table_rows,
    Record, RecordError, RecordPrint, StoredRecord, TabledData, VaultError,
};

fn fields(entry: &str, username: &str, password: &str, email: &str, note: &str) -> Vec<String> {
    vec![
        entry.to_string(),
        username.to_string(),
        password.to_string(),
        email.to_string(),
        note.to_string(),
    ]
}

const SALT: [u8; 12] = [0, 1, 2, 3, 4, 5, 6, 7, 8, 9, 10, 11];

fn expected_key(salt_hex: &str, master: &str) -> Vec<u8> {
    let material = format!("{}{}{}", &salt_hex[..12], master, &salt_hex[12..]);
    <sha2::Sha256 as sha2::Digest>::digest(material.as_bytes()).to_vec()
}

fn framed(out: &mut Vec<u8>, s: &str) {
    out.extend_from_slice(&(s.len() as u64).to_le_bytes());
    out.extend_from_slice(s.as_bytes());
}

fn flip_hex_digit(s: &str, at: usize) -> String {
    let mut chars: Vec<char> = s.chars().collect();
    chars[at] = if chars[at] == '0' { '1' } else { '0' };
    chars.into_iter().collect()
}

fn copy_stored(s: &StoredRecord) -> StoredRecord {
    StoredRecord {
        salt: s.salt.clone(),
        entry: s.entry.clone(),
        username: s.username.clone(),
        password: s.password.clone(),
        email: s.email.clone(),
        note: s.note.clone(),
        tag: s.tag.clone(),
    }
}

#[test]
fn creation_keeps_fields_and_drops_empty_optionals() {
    let r = Record::new(&fields("mail", "bob", "p@ss", "", ""), "k1");
    assert_eq!(r.entry(), "mail");
    assert_eq!(r.username(), "bob");
    assert_eq!(r.password(), "p@ss");
    assert_eq!(r.email(), None);
    assert_eq!(r.note(), None);
    let r = Record::new(&fields("bank", "amy", "pw", "amy@x.org", "pin 1234"), "k1");
    assert_eq!(r.email(), Some("amy@x.org".to_string()));
    assert_eq!(r.note(), Some("pin 1234".to_string()));
}

#[test]
fn salt_is_hex_of_the_given_bytes() {
    let r = Record::new_with_salt(&SALT, &fields("mail", "bob", "p@ss", "", ""), "k1");
    assert_eq!(r.salt(), "000102030405060708090a0b");
}

#[test]
fn creation_with_a_salt_is_deterministic() {
    let a = Record::new_with_salt(&SALT, &fields("mail", "bob", "p@ss", "e", "n"), "k1");
    let b = Record::new_with_salt(&SALT, &fields("mail", "bob", "p@ss", "e", "n"), "k1");
    assert_eq!(a.tag(), b.tag());
    let c = Record::new_with_salt(&SALT, &fields("mail", "bob", "p@ss", "e", "n"), "k2");
    assert_ne!(a.tag(), c.tag());
}

#[test]
fn tag_is_hmac_of_framed_fields_under_record_key() {
    let r = Record::new_with_salt(&SALT, &fields("mail", "bob", "p@ss", "", "a note"), "k1");
    let key = expected_key("000102030405060708090a0b", "k1");
    let mut msg = Vec::new();
    framed(&mut msg, "mail");
    framed(&mut msg, "bob");
    framed(&mut msg, "p@ss");
    msg.push(0);
    msg.push(1);
    framed(&mut msg, "a note");
    let mut mac = <hmac::Hmac<sha2::Sha256> as hmac::digest::KeyInit>::new_from_slice(&key).unwrap();
    mac.update(&msg);
    let expected = hex::encode(mac.finalize().into_bytes());
    assert_eq!(r.tag(), expected);
    assert_eq!(r.tag().len(), 64);
}

#[test]
fn field_boundaries_change_the_tag() {
    let a = Record::new_with_salt(&SALT, &fields("ab", "c", "p", "", ""), "k");
    let b = Record::new_with_salt(&SALT, &fields("a", "bc", "p", "", ""), "k");
    assert_ne!(a.tag(), b.tag());
    let c = Record::new_with_salt(&SALT, &fields("e", "u", "p", "x", ""), "k");
    let d = Record::new_with_salt(&SALT, &fields("e", "u", "p", "", "x"), "k");
    assert_ne!(c.tag(), d.tag());
}

#[test]
fn ciphertext_is_aes_gcm_under_the_derived_key() {
    let r = Record::new_with_salt(&SALT, &fields("mail", "bob", "p@ss", "", ""), "k1");
    let s = r.to_ciphertext("k1").unwrap();
    assert_eq!(s.salt, "000102030405060708090a0b");
    assert_eq!(s.entry, "mail");
    assert_eq!(s.tag, r.tag());
    assert_eq!(s.email, None);
    assert_eq!(s.note, None);
    assert_ne!(s.username, "bob");
    let key = expected_key(&s.salt, "k1");
    let cipher = aes_gcm::Aes256Gcm::new(aes_gcm::Key::<aes_gcm::Aes256Gcm>::from_slice(&key));
    let nonce = aes_gcm::Nonce::from_slice(&SALT);
    let ct = hex::decode(&s.username).unwrap();
    assert_eq!(ct.len(), 3 + 16);
    assert_eq!(cipher.decrypt(nonce, ct.as_ref()).unwrap(), b"bob".to_vec());
    let ct = hex::decode(&s.password).unwrap();
    assert_eq!(cipher.decrypt(nonce, ct.as_ref()).unwrap(), b"p@ss".to_vec());
}

#[test]
fn round_trip_restores_every_field() {
    let r = Record::new(&fields("bank", "amy", "pw", "amy@x.org", "pin"), "key");
    let s = r.to_ciphertext("key").unwrap();
    let back = s.to_plaintext("key").unwrap();
    assert_eq!(back.entry(), "bank");
    assert_eq!(back.username(), "amy");
    assert_eq!(back.password(), "pw");
    assert_eq!(back.email(), Some("amy@x.org".to_string()));
    assert_eq!(back.note(), Some("pin".to_string()));
    assert_eq!(back.salt(), r.salt());
    assert_eq!(back.tag(), r.tag());
}

#[test]
fn tampered_ciphertext_is_rejected() {
    let r = Record::new(&fields("bank", "amy", "pw", "amy@x.org", "pin"), "key");
    let s = r.to_ciphertext("key").unwrap();
    for at in 0..s.username.len() {
        let mut t = copy_stored(&s);
        t.username = flip_hex_digit(&s.username, at);
        assert!(t.to_plaintext("key").is_err());
    }
    let mut t = copy_stored(&s);
    t.password = flip_hex_digit(&s.password, 0);
    assert_eq!(t.to_plaintext("key").unwrap_err(), RecordError::AuthenticationFailed);
    let mut t = copy_stored(&s);
    t.email = Some(flip_hex_digit(s.email.as_ref().unwrap(), 5));
    assert_eq!(t.to_plaintext("key").unwrap_err(), RecordError::AuthenticationFailed);
    let mut t = copy_stored(&s);
    t.note = Some(flip_hex_digit(s.note.as_ref().unwrap(), 7));
    assert_eq!(t.to_plaintext("key").unwrap_err(), RecordError::AuthenticationFailed);
}

#[test]
fn tampered_tag_is_an_integrity_violation() {
    let r = Record::new(&fields("bank", "amy", "pw", "", ""), "key");
    let s = r.to_ciphertext("key").unwrap();
    for at in [0, 10, 63] {
        let mut t = copy_stored(&s);
        t.tag = flip_hex_digit(&s.tag, at);
        assert_eq!(t.to_plaintext("key").unwrap_err(), RecordError::IntegrityViolation);
    }
}

#[test]
fn tampered_entry_is_an_integrity_violation() {
    let r = Record::new(&fields("bank", "amy", "pw", "", ""), "key");
    let mut s = r.to_ciphertext("key").unwrap();
    s.entry = "bonk".to_string();
    assert_eq!(s.to_plaintext("key").unwrap_err(), RecordError::IntegrityViolation);
}

#[test]
fn malformed_salt_is_an_integrity_violation() {
    let r = Record::new(&fields("bank", "amy", "pw", "", ""), "key");
    let mut s = r.to_ciphertext("key").unwrap();
    s.salt = "xyz".to_string();
    assert_eq!(s.to_plaintext("key").unwrap_err(), RecordError::IntegrityViolation);
    s.salt = "0011".to_string();
    assert_eq!(s.to_plaintext("key").unwrap_err(), RecordError::IntegrityViolation);
}

#[test]
fn upper_case_ciphertext_is_rejected() {
    let r = Record::new(&fields("bank", "amy", "pw", "", ""), "key");
    let mut s = r.to_ciphertext("key").unwrap();
    s.username = s.username.to_uppercase();
    assert_eq!(s.to_plaintext("key").unwrap_err(), RecordError::AuthenticationFailed);
}

#[test]
fn wrong_key_is_rejected() {
    for k in ["k2", "", "k1 ", "K1"] {
        let r = Record::new(&fields("mail", "bob", "p@ss", "b@x.org", ""), "k1");
        let s = r.to_ciphertext("k1").unwrap();
        assert_eq!(s.to_plaintext(k).unwrap_err(), RecordError::AuthenticationFailed);
    }
}

#[test]
fn salts_are_unique_over_many_records() {
    let mut salts = std::collections::HashSet::new();
    for i in 0..1000 {
        let r = Record::new(&fields(&format!("e{}", i), "u", "p", "", ""), "k");
        assert_eq!(r.salt().len(), 24);
        assert!(salts.insert(r.salt()));
    }
}

#[test]
fn load_of_empty_file_is_no_records() {
    assert_eq!(load(None, "anything").unwrap().map(|v| v.len()), None);
}

#[test]
fn load_with_wrong_key_fails() {
    let records = vec![Record::new(&fields("mail", "bob", "p@ss", "", ""), "k1")];
    let stored = dump(&records, "k1").unwrap();
    assert_eq!(load(Some(stored), "k2").unwrap_err(), VaultError::WrongPasswordOrTampered);
}

#[test]
fn load_of_empty_list_is_empty_vault() {
    let v = load(Some(Vec::new()), "k").unwrap().unwrap();
    assert!(v.is_empty());
}

#[test]
fn dump_then_load_scenario() {
    let records = vec![Record::new(&fields("mail", "bob", "p@ss", "", ""), "k1")];
    let stored = dump(&records, "k1").unwrap();
    let copy: Vec<StoredRecord> = stored.iter().map(copy_stored).collect();
    let loaded = load(Some(stored), "k1").unwrap().unwrap();
    assert_eq!(loaded.len(), 1);
    assert_eq!(loaded[0].username(), "bob");
    assert_eq!(loaded[0].password(), "p@ss");
    assert_eq!(loaded[0].email(), None);
    assert_eq!(loaded[0].note(), None);
    assert!(load(Some(copy), "k2").is_err());
}

#[test]
fn one_bad_record_aborts_the_whole_load() {
    let records = vec![
        Record::new(&fields("a", "u1", "p1", "", ""), "k"),
        Record::new(&fields("b", "u2", "p2", "", ""), "k"),
        Record::new(&fields("c", "u3", "p3", "", ""), "k"),
    ];
    let mut stored = dump(&records, "k").unwrap();
    stored[1].tag = flip_hex_digit(&stored[1].tag, 3);
    assert_eq!(open_all(&stored, "k").unwrap_err(), VaultError::WrongPasswordOrTampered);
}

#[test]
fn dump_keeps_order() {
    let records = vec![
        Record::new(&fields("a", "u1", "p1", "", ""), "k"),
        Record::new(&fields("b", "u2", "p2", "", ""), "k"),
    ];
    let stored = dump(&records, "k").unwrap();
    assert_eq!(stored.len(), 2);
    assert_eq!(stored[0].entry, "a");
    assert_eq!(stored[1].entry, "b");
    let back = open_all(&stored, "k").unwrap();
    assert_eq!(back[0].username(), "u1");
    assert_eq!(back[1].username(), "u2");
}

#[test]
fn change_master_key_rekeys_every_record() {
    let records = vec![
        Record::new(&fields("a", "u1", "p1", "e1", ""), "old"),
        Record::new(&fields("b", "u2", "p2", "", "n2"), "old"),
        Record::new(&fields("c", "u3", "p3", "", ""), "old"),
    ];
    let stored = dump(&records, "old").unwrap();
    let new_records = change_master_key(&stored, "old", "new").unwrap();
    assert_eq!(new_records.len(), 3);
    for i in 0..3 {
        assert_ne!(new_records[i].salt(), stored[i].salt);
        assert_eq!(new_records[i].entry(), records[i].entry());
        assert_eq!(new_records[i].username(), records[i].username());
        assert_eq!(new_records[i].password(), records[i].password());
        assert_eq!(new_records[i].email(), records[i].email());
        assert_eq!(new_records[i].note(), records[i].note());
    }
    let resealed = dump(&new_records, "new").unwrap();
    for s in resealed.iter() {
        let w = s.to_plaintext("new").unwrap();
        assert_eq!(w.tag(), s.tag);
        assert!(s.to_plaintext("old").is_err());
    }
}

#[test]
fn change_master_key_with_wrong_old_key_changes_nothing() {
    let records = vec![Record::new(&fields("a", "u1", "p1", "", ""), "old")];
    let stored = dump(&records, "old").unwrap();
    assert_eq!(
        change_master_key(&stored, "bad", "new").unwrap_err(),
        VaultError::WrongPasswordOrTampered
    );
}

#[test]
fn find_record_returns_first_match() {
    let records = vec![
        Record::new(&fields("mail", "bob", "p", "", ""), "k"),
        Record::new(&fields("bank", "amy", "p", "amy@bank.org", ""), "k"),
        Record::new(&fields("shop", "carl", "p", "", "bank card"), "k"),
    ];
    assert_eq!(find_record(&records, "bank"), Some(1));
    assert_eq!(find_record(&records, "card"), Some(2));
    assert_eq!(find_record(&records, "bo"), Some(0));
    assert_eq!(find_record(&records, "zzz"), None);
    assert_eq!(find_record(&records, ""), Some(0));
    assert_eq!(find_record(&Vec::new(), "x"), None);
}

#[test]
fn matches_does_not_search_passwords() {
    let r = Record::new(&fields("mail", "bob", "secret", "", ""), "k");
    assert!(!r.matches("secret"));
    assert!(r.matches("ail"));
    assert!(Record::new(&fields("e", "ünï", "p", "", ""), "k").matches("nï"));
}

#[test]
fn edited_fields_keep_current_values_on_empty_input() {
    let r = Record::new(&fields("mail", "bob", "old", "b@x.org", ""), "k");
    assert_eq!(r.edited_fields("", "new", "", "note"), fields("mail", "bob", "new", "b@x.org", "note"));
    assert_eq!(r.edited_fields("al", "", "a@x.org", ""), fields("mail", "al", "old", "a@x.org", ""));
    assert_eq!(r.fields(), fields("mail", "bob", "old", "b@x.org", ""));
}

#[test]
fn table_rows_show_null_for_absent_fields() {
    let r = Record::new(&fields("mail", "bob", "p", "", "n"), "k");
    let row = TabledData::new(r);
    assert_eq!(row.email, "null");
    assert_eq!(row.note, "n");
    let rows = table_rows(RecordPrint::VECTOR(vec![
        Record::new(&fields("a", "u1", "p1", "e", ""), "k"),
        Record::new(&fields("b", "u2", "p2", "", ""), "k"),
    ]));
    assert_eq!(rows.len(), 2);
    assert_eq!(rows[0].entry, "a");
    assert_eq!(rows[0].email, "e");
    assert_eq!(rows[1].username, "u2");
    assert_eq!(rows[1].note, "null");
    let one = table_rows(RecordPrint::RECORD(Record::new(&fields("c", "u", "p", "", ""), "k")));
    assert_eq!(one.len(), 1);
    assert_eq!(one[0].password, "p");
}

#[test]
fn generated_passwords_are_alphanumeric() {
    for n in [0usize, 1, 30, 64] {
        let p = generate_rand_password(n);
        assert_eq!(p.chars().count(), n);
        assert!(p.chars().all(|c| c.is_ascii_alphanumeric()));
    }
    assert_ne!(generate_rand_password(30), generate_rand_password(30));
}

#[test]
fn tags_are_64_hex_digits() {
    let r = Record::new(&fields("mail", "bob", "p@ss", "", ""), "k1");
    assert_eq!(r.tag().len(), 64);
    assert!(r.tag().chars().all(|c| c.is_ascii_hexdigit() && !c.is_ascii_uppercase()));
}

#[test]
fn a_flipped_byte_of_the_decoded_tag_is_an_integrity_violation() {
    let r = Record::new(&fields("bank", "amy", "pw", "e", "n"), "key");
    let s = r.to_ciphertext("key").unwrap();
    let tag = hex::decode(&s.tag).unwrap();
    for at in 0..tag.len() {
        let mut flipped = tag.clone();
        flipped[at] ^= 0x01;
        let mut t = copy_stored(&s);
        t.tag = hex::encode(&flipped);
        assert_eq!(t.to_plaintext("key").unwrap_err(), RecordError::IntegrityViolation);
    }
}

#[test]
fn edit_record_creates_the_record_afresh() {
    let mut records = vec![
        Record::new(&fields("mail", "bob", "old", "b@x.org", ""), "k"),
        Record::new(&fields("bank", "amy", "pw", "", ""), "k"),
    ];
    let old_salt = records[0].salt();
    let other_salt = records[1].salt();
    let other_tag = records[1].tag();
    edit_record(&mut records, 0, "", "new", "", "a note", "k");
    assert_eq!(records.len(), 2);
    assert_ne!(records[0].salt(), old_salt);
    assert_eq!(records[0].fields(), fields("mail", "bob", "new", "b@x.org", "a note"));
    assert_eq!(records[1].salt(), other_salt);
    assert_eq!(records[1].tag(), other_tag);
    let stored = dump(&records, "k").unwrap();
    let back = open_all(&stored, "k").unwrap();
    assert_eq!(back[0].password(), "new");
    assert_eq!(back[0].note(), Some("a note".to_string()));
}

#[test]
fn imported_records_are_rekeyed_under_the_vault_key() {
    let records = vec![Record::new(&fields("mail", "bob", "p", "", ""), "mine")];
    let mine_salt = records[0].salt();
    let foreign = vec![
        Record::new(&fields("bank", "amy", "pw", "a@x.org", ""), "theirs"),
        Record::new(&fields("shop", "carl", "pc", "", "n"), "theirs"),
    ];
    let merged = import_records(records, &foreign, "mine");
    assert_eq!(merged.len(), 3);
    assert_eq!(merged[0].salt(), mine_salt);
    for i in 0..2 {
        assert_ne!(merged[1 + i].salt(), foreign[i].salt());
        assert_eq!(merged[1 + i].fields(), foreign[i].fields());
    }
    let stored = dump(&merged, "mine").unwrap();
    let back = load(Some(stored), "mine").unwrap().unwrap();
    assert_eq!(back.len(), 3);
    assert_eq!(back[1].username(), "amy");
    assert_eq!(back[2].note(), Some("n".to_string()));
}

#[test]
fn reseal_vault_loads_under_the_new_key_only() {
    let records = vec![
        Record::new(&fields("a", "u1", "p1", "e1", ""), "old"),
        Record::new(&fields("b", "u2", "p2", "", "n2"), "old"),
    ];
    let stored = dump(&records, "old").unwrap();
    let resealed = reseal_vault(&stored, "old", "new").unwrap();
    assert_eq!(resealed.len(), 2);
    for i in 0..2 {
        assert_ne!(resealed[i].salt, stored[i].salt);
        assert!(resealed[i].to_plaintext("old").is_err());
    }
    let copy: Vec<StoredRecord> = resealed.iter().map(copy_stored).collect();
    let back = load(Some(resealed), "new").unwrap().unwrap();
    for i in 0..2 {
        assert_eq!(back[i].fields(), records[i].fields());
    }
    assert!(load(Some(copy), "old").is_err());
    assert_eq!(reseal_vault(&stored, "bad", "new").unwrap_err(), VaultError::WrongPasswordOrTampered);
}

#[test]
fn empty_password_input_is_generated() {
    assert_eq!(password_or_generated("given".to_string()), "given");
    let p = password_or_generated(String::new());
    assert_eq!(p.chars().count(), GENERATED_LENGTH);
    assert!(p.chars().all(|c| c.is_ascii_alphanumeric()));
}
