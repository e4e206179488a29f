//! Credential records, their sealed storage form, and the whole-vault
//! operations built on them.

use vstd::prelude::*;
use vstd::string::StringExecFns;
use vstd::utf8::{decode_utf8, encode_utf8, valid_utf8};
use crate::crypto::{
    aes_gcm_decrypt, aes_gcm_encrypt, aes_gcm_opened, aes_gcm_sealed, derive_key, hmac_sha256,
    hmac_sha256_of, is_alphanumeric, random_salt, record_key, sample_alphanumeric, KEY_LEN,
    PLAINTEXT_MAX, SALT_LEN,
};
use crate::encoding::{
    from_hex, hex_bytes, hex_of, is_hex_text, lemma_hex_of_injective, lemma_hex_round_trip,
    text_from_utf8, to_hex,
};

verus! {

/// Why a whole vault could not be opened or sealed.
#[derive(Debug, Clone, Copy, PartialEq, Eq, Structural)]
pub enum VaultError {
    /// Some record did not open under the key: a wrong master key or a tampered file.
    WrongPasswordOrTampered,
    /// Some record has a field too long to encrypt.
    FieldTooLong,
    /// The vault file could not be read or written.
    IoFailure,
}

/// Why a single record could not be sealed or opened.
#[derive(Debug, Clone, Copy, PartialEq, Eq, Structural)]
pub enum RecordError {
    /// A ciphertext field is not hexadecimal, or its authentication tag does not check.
    AuthenticationFailed,
    /// The salt is malformed, a field is not UTF-8, or the record's tag does not match.
    IntegrityViolation,
    /// A field is longer than the cipher can encrypt.
    FieldTooLong,
}

/// The mathematical content of a record, in either form: the salt as
/// hexadecimal text, the lookup label, and the four credential fields.
pub struct RecordView {
    pub salt: Seq<char>,
    pub entry: Seq<char>,
    pub username: Seq<char>,
    pub password: Seq<char>,
    pub email: Option<Seq<char>>,
    pub note: Option<Seq<char>>,
    pub tag: Seq<char>,
}

/// A credential in working form: every field in plain text.
#[derive(Debug)]
pub struct Record {
    salt: String,
    entry: String,
    username: String,
    password: String,
    email: Option<String>,
    note: Option<String>,
    tag: String,
}

/// A credential in storage form: the credential fields are hexadecimal
/// AES-256-GCM ciphertexts; salt, entry and tag are as in working form.
#[derive(Debug)]
pub struct StoredRecord {
    pub salt: String,
    pub entry: String,
    pub username: String,
    pub password: String,
    pub email: Option<String>,
    pub note: Option<String>,
    pub tag: String,
}

pub open spec fn opt_view(o: Option<String>) -> Option<Seq<char>> {
    match o {
        Some(s) => Some(s@),
        None => None,
    }
}

impl View for Record {
    type V = RecordView;

    closed spec fn view(&self) -> RecordView {
        RecordView {
            salt: self.salt@,
            entry: self.entry@,
            username: self.username@,
            password: self.password@,
            email: opt_view(self.email),
            note: opt_view(self.note),
            tag: self.tag@,
        }
    }
}

impl View for StoredRecord {
    type V = RecordView;

    open spec fn view(&self) -> RecordView {
        RecordView {
            salt: self.salt@,
            entry: self.entry@,
            username: self.username@,
            password: self.password@,
            email: opt_view(self.email),
            note: opt_view(self.note),
            tag: self.tag@,
        }
    }
}

/// A well-formed salt: twelve bytes written as 24 hexadecimal digits.
pub open spec fn salt_ok(salt: Seq<char>) -> bool {
    salt.len() == 2 * SALT_LEN && is_hex_text(salt)
}

/// `n` as `count` bytes, least significant first.
pub open spec fn le_bytes(n: nat, count: nat) -> Seq<u8>
    decreases count,
{
    if count == 0 {
        Seq::empty()
    } else {
        seq![(n % 256) as u8] + le_bytes(n / 256, (count - 1) as nat)
    }
}

/// A field framed for the tag: its UTF-8 length as eight bytes, then its UTF-8 bytes.
pub open spec fn field_bytes(s: Seq<char>) -> Seq<u8> {
    le_bytes(encode_utf8(s).len(), 8) + encode_utf8(s)
}

/// An optional field framed for the tag: a zero byte when absent, else a one
/// byte and the framed field.
pub open spec fn optional_field_bytes(o: Option<Seq<char>>) -> Seq<u8> {
    match o {
        None => seq![0u8],
        Some(s) => seq![1u8] + field_bytes(s),
    }
}

/// The message that a record's tag authenticates: its plain-text fields in a
/// fixed order, each framed so that no two field tuples give the same bytes.
pub open spec fn tag_message(r: RecordView) -> Seq<u8> {
    field_bytes(r.entry) + field_bytes(r.username) + field_bytes(r.password)
        + optional_field_bytes(r.email) + optional_field_bytes(r.note)
}

/// The tag of a working-form record under `master`: HMAC-SHA256, keyed by the
/// record's key, of its framed fields, as hexadecimal text.
pub open spec fn tag_for(r: RecordView, master: Seq<char>) -> Seq<char> {
    hex_of(hmac_sha256_of(record_key(r.salt, master), tag_message(r)))
}

/// A field that the cipher can encrypt.
pub open spec fn fits(s: Seq<char>) -> bool {
    encode_utf8(s).len() <= PLAINTEXT_MAX
}

pub open spec fn optional_fits(o: Option<Seq<char>>) -> bool {
    match o {
        None => true,
        Some(s) => fits(s),
    }
}

/// Every credential field of the record can be encrypted.
pub open spec fn sealable(r: RecordView) -> bool {
    fits(r.username) && fits(r.password) && optional_fits(r.email) && optional_fits(r.note)
}

/// The ciphertext of one field, as hexadecimal text.
pub open spec fn seal_field(s: Seq<char>, key: Seq<u8>, nonce: Seq<u8>) -> Seq<char> {
    hex_of(aes_gcm_sealed(key, nonce, encode_utf8(s)))
}

pub open spec fn seal_optional(o: Option<Seq<char>>, key: Seq<u8>, nonce: Seq<u8>) -> Option<
    Seq<char>,
> {
    match o {
        None => None,
        Some(s) => Some(seal_field(s, key, nonce)),
    }
}

/// The storage form of working-form record `r` under `master`: each present
/// credential field encrypted under the record key, with the salt's bytes as
/// nonce; salt, entry and tag unchanged.
pub open spec fn sealed(r: RecordView, master: Seq<char>) -> RecordView {
    let key = record_key(r.salt, master);
    let nonce = hex_bytes(r.salt);
    RecordView {
        salt: r.salt,
        entry: r.entry,
        username: seal_field(r.username, key, nonce),
        password: seal_field(r.password, key, nonce),
        email: seal_optional(r.email, key, nonce),
        note: seal_optional(r.note, key, nonce),
        tag: r.tag,
    }
}

/// Opening one ciphertext field, which must be lower-case hexadecimal text.
pub open spec fn open_field(ct: Seq<char>, key: Seq<u8>, nonce: Seq<u8>) -> Result<
    Seq<char>,
    RecordError,
> {
    if !is_hex_text(ct) || hex_of(hex_bytes(ct)) != ct {
        Err(RecordError::AuthenticationFailed)
    } else {
        match aes_gcm_opened(key, nonce, hex_bytes(ct)) {
            None => Err(RecordError::AuthenticationFailed),
            Some(b) => if valid_utf8(b) {
                Ok(decode_utf8(b))
            } else {
                Err(RecordError::IntegrityViolation)
            },
        }
    }
}

pub open spec fn open_optional(o: Option<Seq<char>>, key: Seq<u8>, nonce: Seq<u8>) -> Result<
    Option<Seq<char>>,
    RecordError,
> {
    match o {
        None => Ok(None),
        Some(ct) => match open_field(ct, key, nonce) {
            Ok(p) => Ok(Some(p)),
            Err(e) => Err(e),
        },
    }
}

/// Opening a storage-form record under `master`: the salt is checked, the
/// fields are decrypted in order (username, password, email, note) and the
/// first failure is the result; then the tag is recomputed from the plain
/// text and must equal the stored one.
pub open spec fn opened(s: RecordView, master: Seq<char>) -> Result<RecordView, RecordError> {
    if !salt_ok(s.salt) {
        Err(RecordError::IntegrityViolation)
    } else {
        let key = record_key(s.salt, master);
        let nonce = hex_bytes(s.salt);
        match open_field(s.username, key, nonce) {
            Err(e) => Err(e),
            Ok(u) => match open_field(s.password, key, nonce) {
                Err(e) => Err(e),
                Ok(p) => match open_optional(s.email, key, nonce) {
                    Err(e) => Err(e),
                    Ok(em) => match open_optional(s.note, key, nonce) {
                        Err(e) => Err(e),
                        Ok(nt) => {
                            let w = RecordView {
                                salt: s.salt,
                                entry: s.entry,
                                username: u,
                                password: p,
                                email: em,
                                note: nt,
                                tag: s.tag,
                            };
                            if tag_for(w, master) == s.tag {
                                Ok(w)
                            } else {
                                Err(RecordError::IntegrityViolation)
                            }
                        },
                    },
                },
            },
        }
    }
}

/// Working-form record `w` is genuine under `master`: its salt is well formed
/// and its tag is the one `master` gives its fields.
pub open spec fn genuine(w: RecordView, master: Seq<char>) -> bool {
    salt_ok(w.salt) && w.tag == tag_for(w, master)
}

/// Storage-form record `s` is the sealing of genuine record `w` under `master`.
pub open spec fn seals_to(w: RecordView, master: Seq<char>, s: RecordView) -> bool {
    genuine(w, master) && sealed(w, master) == s
}

pub open spec fn result_view(r: Result<Record, RecordError>) -> Result<RecordView, RecordError> {
    match r {
        Ok(w) => Ok(w@),
        Err(e) => Err(e),
    }
}

/// A field's text when present, the empty text when absent.
pub open spec fn or_empty(o: Option<Seq<char>>) -> Seq<char> {
    match o {
        Some(s) => s,
        None => Seq::empty(),
    }
}

/// Empty text stands for an absent optional field.
pub open spec fn absent_if_empty(s: Seq<char>) -> Option<Seq<char>> {
    if s.len() == 0 {
        None
    } else {
        Some(s)
    }
}

/// The record that creation gives for salt text `salt`, field values `data`
/// (entry, username, password, email, note) and master key `master`.
pub open spec fn created(salt: Seq<char>, data: Seq<Seq<char>>, master: Seq<char>) -> RecordView {
    let w = RecordView {
        salt: salt,
        entry: data[0],
        username: data[1],
        password: data[2],
        email: absent_if_empty(data[3]),
        note: absent_if_empty(data[4]),
        tag: Seq::empty(),
    };
    RecordView { tag: tag_for(w, master), ..w }
}

/// The field values of a record, in creation order, absent ones as empty text.
pub open spec fn fields_of(w: RecordView) -> Seq<Seq<char>> {
    seq![w.entry, w.username, w.password, or_empty(w.email), or_empty(w.note)]
}

pub open spec fn string_views(v: Seq<String>) -> Seq<Seq<char>> {
    v.map_values(|s: String| s@)
}

fn push_bytes(out: &mut Vec<u8>, b: &[u8])
    ensures
        final(out)@ == old(out)@ + b@,
{
    let mut i: usize = 0;
    while i < b.len()
        invariant
            i <= b@.len(),
            out@ == old(out)@ + b@.subrange(0, i as int),
        decreases b@.len() - i,
    {
        out.push(b[i]);
        i = i + 1;
        assert(out@ =~= old(out)@ + b@.subrange(0, i as int));
    }
    assert(b@.subrange(0, b@.len() as int) =~= b@);
}

fn push_le_u64(out: &mut Vec<u8>, n: u64)
    ensures
        final(out)@ == old(out)@ + le_bytes(n as nat, 8),
{
    let mut v: u64 = n;
    let mut i: usize = 0;
    while i < 8
        invariant
            i <= 8,
            out@ + le_bytes(v as nat, (8 - i) as nat) == old(out)@ + le_bytes(n as nat, 8),
        decreases 8 - i,
    {
        let ghost before = out@;
        assert(le_bytes(v as nat, (8 - i) as nat) == seq![(v as nat % 256) as u8] + le_bytes(
            (v / 256) as nat,
            (8 - (i + 1)) as nat,
        ));
        out.push((v % 256) as u8);
        v = v / 256;
        i = i + 1;
        assert(out@ + le_bytes(v as nat, (8 - i) as nat) =~= before + (seq![
            (out@.last())
        ] + le_bytes(v as nat, (8 - i) as nat)));
    }
    assert(le_bytes(v as nat, 0) =~= Seq::<u8>::empty());
    assert(out@ =~= out@ + le_bytes(v as nat, 0));
}

fn push_field(out: &mut Vec<u8>, s: &str)
    ensures
        final(out)@ == old(out)@ + field_bytes(s@),
{
    let b = s.as_bytes();
    push_le_u64(out, b.len() as u64);
    push_bytes(out, b);
    assert(out@ =~= old(out)@ + field_bytes(s@));
}

fn push_optional_field(out: &mut Vec<u8>, o: &Option<String>)
    ensures
        final(out)@ == old(out)@ + optional_field_bytes(opt_view(*o)),
{
    match o {
        None => {
            out.push(0u8);
            assert(out@ =~= old(out)@ + optional_field_bytes(opt_view(*o)));
        },
        Some(s) => {
            out.push(1u8);
            push_field(out, s.as_str());
            assert(out@ =~= old(out)@ + optional_field_bytes(opt_view(*o)));
        },
    }
}

/// Computes the tag of a record with the given salt and fields under `master`.
fn compute_tag(
    salt: &String,
    entry: &String,
    username: &String,
    password: &String,
    email: &Option<String>,
    note: &Option<String>,
    master: &str,
) -> (r: String)
    requires
        salt_ok(salt@),
    ensures
        r@ == tag_for(
            RecordView {
                salt: salt@,
                entry: entry@,
                username: username@,
                password: password@,
                email: opt_view(*email),
                note: opt_view(*note),
                tag: Seq::empty(),
            },
            master@,
        ),
        r@.len() == 64,
{
    let key = derive_key(salt.as_str(), master);
    let mut msg: Vec<u8> = Vec::new();
    push_field(&mut msg, entry.as_str());
    push_field(&mut msg, username.as_str());
    push_field(&mut msg, password.as_str());
    push_optional_field(&mut msg, email);
    push_optional_field(&mut msg, note);
    let mac = hmac_sha256(key.as_slice(), msg.as_slice());
    proof {
        assert(msg@ =~= tag_message(
            RecordView {
                salt: salt@,
                entry: entry@,
                username: username@,
                password: password@,
                email: opt_view(*email),
                note: opt_view(*note),
                tag: Seq::empty(),
            },
        ));
    }
    to_hex(mac.as_slice())
}


/// Encrypts one field under a record key and nonce, as hexadecimal text.
fn seal_text(plain: &String, key: &Vec<u8>, nonce: &Vec<u8>) -> (r: Result<String, RecordError>)
    requires
        key@.len() == KEY_LEN,
        nonce@.len() == SALT_LEN,
    ensures
        r is Ok <==> fits(plain@),
        r is Ok ==> r->Ok_0@ == seal_field(plain@, key@, nonce@),
        r is Err ==> r->Err_0 == RecordError::FieldTooLong,
{
    match aes_gcm_encrypt(key.as_slice(), nonce.as_slice(), plain.as_str().as_bytes()) {
        Ok(c) => Ok(to_hex(c.as_slice())),
        Err(_) => Err(RecordError::FieldTooLong),
    }
}

fn seal_optional_text(plain: &Option<String>, key: &Vec<u8>, nonce: &Vec<u8>) -> (r: Result<
    Option<String>,
    RecordError,
>)
    requires
        key@.len() == KEY_LEN,
        nonce@.len() == SALT_LEN,
    ensures
        r is Ok <==> optional_fits(opt_view(*plain)),
        r is Ok ==> opt_view(r->Ok_0) == seal_optional(opt_view(*plain), key@, nonce@),
        r is Err ==> r->Err_0 == RecordError::FieldTooLong,
{
    match plain {
        None => Ok(None),
        Some(p) => match seal_text(p, key, nonce) {
            Ok(c) => Ok(Some(c)),
            Err(e) => Err(e),
        },
    }
}

proof fn lemma_sealed_field_opens(p: Seq<char>, key: Seq<u8>, nonce: Seq<u8>)
    ensures
        is_hex_text(seal_field(p, key, nonce)),
        hex_bytes(seal_field(p, key, nonce)) == aes_gcm_sealed(key, nonce, encode_utf8(p)),
        hex_of(hex_bytes(seal_field(p, key, nonce))) == seal_field(p, key, nonce),
        valid_utf8(encode_utf8(p)),
        decode_utf8(encode_utf8(p)) == p,
{
    lemma_hex_round_trip(aes_gcm_sealed(key, nonce, encode_utf8(p)));
    vstd::utf8::encode_utf8_valid_utf8(p);
    vstd::utf8::encode_utf8_decode_utf8(p);
}

/// Decrypts one hexadecimal ciphertext field.
fn open_text(ct: &String, key: &Vec<u8>, nonce: &Vec<u8>) -> (r: Result<String, RecordError>)
    requires
        key@.len() == KEY_LEN,
        nonce@.len() == SALT_LEN,
    ensures
        match r {
            Ok(p) => open_field(ct@, key@, nonce@) == Ok::<Seq<char>, RecordError>(p@),
            Err(e) => open_field(ct@, key@, nonce@) == Err::<Seq<char>, RecordError>(e),
        },
        r is Ok ==> seal_field(r->Ok_0@, key@, nonce@) == ct@,
        forall|p: Seq<char>|
            #![trigger seal_field(p, key@, nonce@)]
            fits(p) && ct@ == seal_field(p, key@, nonce@) ==> (r is Ok && r->Ok_0@ == p),
{
    let bytes = match from_hex(ct.as_str()) {
        Ok(b) => b,
        Err(_) => {
            assert forall|p: Seq<char>|
                #![trigger seal_field(p, key@, nonce@)]
                !(ct@ == seal_field(p, key@, nonce@)) by {
                lemma_sealed_field_opens(p, key@, nonce@);
            }
            return Err(RecordError::AuthenticationFailed);
        },
    };
    let canonical = to_hex(bytes.as_slice());
    if canonical != *ct {
        assert forall|p: Seq<char>|
            #![trigger seal_field(p, key@, nonce@)]
            !(ct@ == seal_field(p, key@, nonce@)) by {
            lemma_sealed_field_opens(p, key@, nonce@);
        }
        return Err(RecordError::AuthenticationFailed);
    }
    let plain = match aes_gcm_decrypt(key.as_slice(), nonce.as_slice(), bytes.as_slice()) {
        Ok(p) => p,
        Err(_) => {
            assert forall|p: Seq<char>|
                #![trigger seal_field(p, key@, nonce@)]
                !(fits(p) && ct@ == seal_field(p, key@, nonce@)) by {
                lemma_sealed_field_opens(p, key@, nonce@);
            }
            return Err(RecordError::AuthenticationFailed);
        },
    };
    let ghost pb = plain@;
    assert forall|p: Seq<char>|
        #![trigger seal_field(p, key@, nonce@)]
        fits(p) && ct@ == seal_field(p, key@, nonce@) implies pb == encode_utf8(p) && valid_utf8(
        pb,
    ) && decode_utf8(pb) == p by {
        lemma_sealed_field_opens(p, key@, nonce@);
    }
    match text_from_utf8(plain) {
        Some(t) => {
            proof {
                vstd::utf8::decode_utf8_encode_utf8(pb);
            }
            Ok(t)
        },
        None => Err(RecordError::IntegrityViolation),
    }
}

fn open_optional_text(ct: &Option<String>, key: &Vec<u8>, nonce: &Vec<u8>) -> (r: Result<
    Option<String>,
    RecordError,
>)
    requires
        key@.len() == KEY_LEN,
        nonce@.len() == SALT_LEN,
    ensures
        match r {
            Ok(p) => open_optional(opt_view(*ct), key@, nonce@) == Ok::<
                Option<Seq<char>>,
                RecordError,
            >(opt_view(p)),
            Err(e) => open_optional(opt_view(*ct), key@, nonce@) == Err::<
                Option<Seq<char>>,
                RecordError,
            >(e),
        },
        r is Ok ==> seal_optional(opt_view(r->Ok_0), key@, nonce@) == opt_view(*ct),
        forall|p: Option<Seq<char>>|
            #![trigger seal_optional(p, key@, nonce@)]
            optional_fits(p) && opt_view(*ct) == seal_optional(p, key@, nonce@) ==> (r is Ok
                && opt_view(r->Ok_0) == p),
{
    match ct {
        None => Ok(None),
        Some(c) => match open_text(c, key, nonce) {
            Ok(p) => Ok(Some(p)),
            Err(e) => Err(e),
        },
    }
}

impl Record {
    #[verifier::type_invariant]
    spec fn wf(self) -> bool {
        salt_ok(self.salt@)
    }

    /// Creates a record from `salt`, the field values `data` (entry,
    /// username, password, email, note; an empty email or note is absent)
    /// and the master key. The same salt and inputs give the same record.
    pub fn new_with_salt(salt: &[u8], data: &[String], key: &str) -> (r: Record)
        requires
            salt@.len() == SALT_LEN,
            data@.len() == 5,
        ensures
            r@ == created(hex_of(salt@), string_views(data@), key@),
            r@.tag.len() == 64,
    {
        let salt_text = to_hex(salt);
        proof {
            lemma_hex_round_trip(salt@);
        }
        let entry = data[0].clone();
        let username = data[1].clone();
        let password = data[2].clone();
        let email = if data[3].as_str().is_empty() {
            None
        } else {
            Some(data[3].clone())
        };
        let note = if data[4].as_str().is_empty() {
            None
        } else {
            Some(data[4].clone())
        };
        let tag = compute_tag(&salt_text, &entry, &username, &password, &email, &note, key);
        let r = Record { salt: salt_text, entry, username, password, email, note, tag };
        proof {
            let w = created(hex_of(salt@), string_views(data@), key@);
            assert(r@.email == w.email);
            assert(r@.note == w.note);
            assert(r@ == w);
        }
        r
    }

    /// Creates a record with a fresh random salt from the field values `data`
    /// (entry, username, password, email, note) under the master key.
    pub fn new(data: &[String], key: &str) -> (r: Record)
        requires
            data@.len() == 5,
        ensures
            exists|salt: Seq<u8>|
                salt.len() == SALT_LEN && r@ == created(hex_of(salt), string_views(data@), key@),
            r@.tag.len() == 64,
    {
        let salt = random_salt();
        Record::new_with_salt(salt.as_slice(), data, key)
    }

    /// The storage form of this record under `key`: each present credential
    /// field encrypted; it fails only when a field is too long to encrypt.
    pub fn to_ciphertext(&self, key: &str) -> (r: Result<StoredRecord, RecordError>)
        ensures
            r is Ok <==> sealable(self@),
            r is Ok ==> r->Ok_0@ == sealed(self@, key@),
            r is Err ==> r->Err_0 == RecordError::FieldTooLong,
    {
        proof {
            use_type_invariant(self);
        }
        let nonce = match from_hex(self.salt.as_str()) {
            Ok(n) => n,
            Err(_) => {
                return Err(RecordError::FieldTooLong);
            },
        };
        let rkey = derive_key(self.salt.as_str(), key);
        let username = match seal_text(&self.username, &rkey, &nonce) {
            Ok(c) => c,
            Err(e) => {
                return Err(e);
            },
        };
        let password = match seal_text(&self.password, &rkey, &nonce) {
            Ok(c) => c,
            Err(e) => {
                return Err(e);
            },
        };
        let email = match seal_optional_text(&self.email, &rkey, &nonce) {
            Ok(c) => c,
            Err(e) => {
                return Err(e);
            },
        };
        let note = match seal_optional_text(&self.note, &rkey, &nonce) {
            Ok(c) => c,
            Err(e) => {
                return Err(e);
            },
        };
        let r = StoredRecord {
            salt: self.salt.clone(),
            entry: self.entry.clone(),
            username,
            password,
            email,
            note,
            tag: self.tag.clone(),
        };
        assert(r@ == sealed(self@, key@));
        Ok(r)
    }

    /// The label the record is looked up by.
    pub fn entry(&self) -> (r: String)
        ensures
            r@ == self@.entry,
    {
        self.entry.clone()
    }

    pub fn username(&self) -> (r: String)
        ensures
            r@ == self@.username,
    {
        self.username.clone()
    }

    pub fn password(&self) -> (r: String)
        ensures
            r@ == self@.password,
    {
        self.password.clone()
    }

    pub fn email(&self) -> (r: Option<String>)
        ensures
            opt_view(r) == self@.email,
    {
        self.email.clone()
    }

    pub fn note(&self) -> (r: Option<String>)
        ensures
            opt_view(r) == self@.note,
    {
        self.note.clone()
    }

    /// The integrity tag, as hexadecimal text.
    pub fn tag(&self) -> (r: String)
        ensures
            r@ == self@.tag,
    {
        self.tag.clone()
    }

    /// The salt, as 24 hexadecimal digits.
    pub fn salt(&self) -> (r: String)
        ensures
            r@ == self@.salt,
            salt_ok(r@),
    {
        proof {
            use_type_invariant(self);
        }
        self.salt.clone()
    }

    /// The field values in creation order, an absent email or note as empty text.
    pub fn fields(&self) -> (r: Vec<String>)
        ensures
            string_views(r@) == fields_of(self@),
    {
        let email = match &self.email {
            Some(e) => e.clone(),
            None => String::new(),
        };
        let note = match &self.note {
            Some(n) => n.clone(),
            None => String::new(),
        };
        let r = vec![self.entry.clone(), self.username.clone(), self.password.clone(), email, note];
        assert(string_views(r@) =~= fields_of(self@));
        r
    }
}

impl StoredRecord {
    /// Opens this storage-form record under `key`. On success the result is
    /// the working-form record whose sealing this is, with its tag checked.
    pub fn to_plaintext(&self, key: &str) -> (r: Result<Record, RecordError>)
        ensures
            result_view(r) == opened(self@, key@),
            r is Ok ==> seals_to(r->Ok_0@, key@, self@),
            forall|w: RecordView|
                #![trigger sealed(w, key@)]
                seals_to(w, key@, self@) && sealable(w) ==> (r is Ok && r->Ok_0@ == w),
            forall|w: RecordView|
                #![trigger sealed(w, key@)]
                genuine(w, key@) && sealable(w) && sealed(w, key@) == (RecordView {
                    tag: w.tag,
                    ..self@
                }) && self@.tag != w.tag ==> r == Err::<Record, RecordError>(
                    RecordError::IntegrityViolation,
                ),
            r is Ok ==> r->Ok_0@.tag.len() == 64,
    {
        let nonce = match from_hex(self.salt.as_str()) {
            Ok(n) => n,
            Err(_) => {
                return Err(RecordError::IntegrityViolation);
            },
        };
        if nonce.len() != SALT_LEN {
            return Err(RecordError::IntegrityViolation);
        }
        assert(salt_ok(self.salt@));
        let rkey = derive_key(self.salt.as_str(), key);
        let username = match open_text(&self.username, &rkey, &nonce) {
            Ok(p) => p,
            Err(e) => {
                return Err(e);
            },
        };
        let password = match open_text(&self.password, &rkey, &nonce) {
            Ok(p) => p,
            Err(e) => {
                return Err(e);
            },
        };
        let email = match open_optional_text(&self.email, &rkey, &nonce) {
            Ok(p) => p,
            Err(e) => {
                return Err(e);
            },
        };
        let note = match open_optional_text(&self.note, &rkey, &nonce) {
            Ok(p) => p,
            Err(e) => {
                return Err(e);
            },
        };
        let tag = compute_tag(&self.salt, &self.entry, &username, &password, &email, &note, key);
        if tag != self.tag {
            return Err(RecordError::IntegrityViolation);
        }
        let r = Record {
            salt: self.salt.clone(),
            entry: self.entry.clone(),
            username,
            password,
            email,
            note,
            tag: self.tag.clone(),
        };
        proof {
            let w0 = RecordView { tag: Seq::empty(), ..r@ };
            assert(tag_for(w0, key@) == tag_for(r@, key@));
        }
        Ok(r)
    }
}


pub open spec fn records_view(v: Seq<Record>) -> Seq<RecordView> {
    v.map_values(|r: Record| r@)
}

pub open spec fn stored_view(v: Seq<StoredRecord>) -> Seq<RecordView> {
    v.map_values(|r: StoredRecord| r@)
}

/// Every storage-form record of `s` opens under `master`.
pub open spec fn all_open(s: Seq<RecordView>, master: Seq<char>) -> bool {
    forall|i: int| 0 <= i < s.len() ==> (#[trigger] opened(s[i], master)) is Ok
}

/// `s` is, record by record, the sealing of the genuine records `ws` under `master`.
pub open spec fn vault_seals_to(ws: Seq<RecordView>, master: Seq<char>, s: Seq<RecordView>) -> bool {
    ws.len() == s.len() && forall|i: int|
        0 <= i < ws.len() ==> seals_to(#[trigger] ws[i], master, s[i]) && sealable(ws[i])
}

/// The storage form of every record of `ws` under `master`.
pub open spec fn sealed_all(ws: Seq<RecordView>, master: Seq<char>) -> Seq<RecordView> {
    ws.map_values(|w: RecordView| sealed(w, master))
}

/// Opens every record of a vault under `key`; the first record that does not
/// open aborts the whole operation, and no record is returned.
pub fn open_all(stored: &Vec<StoredRecord>, key: &str) -> (r: Result<Vec<Record>, VaultError>)
    ensures
        r is Ok <==> all_open(stored_view(stored@), key@),
        r is Err ==> r->Err_0 == VaultError::WrongPasswordOrTampered,
        r is Ok ==> r->Ok_0@.len() == stored@.len() && forall|i: int|
            0 <= i < stored@.len() ==> opened(stored@[i]@, key@) == Ok::<RecordView, RecordError>(
                #[trigger] r->Ok_0@[i]@,
            ),
        forall|ws: Seq<RecordView>|
            #[trigger] vault_seals_to(ws, key@, stored_view(stored@)) ==> (r is Ok && records_view(
                r->Ok_0@,
            ) == ws),
{
    let ghost sv = stored_view(stored@);
    let mut out: Vec<Record> = Vec::new();
    let mut i: usize = 0;
    while i < stored.len()
        invariant
            i <= stored@.len(),
            sv == stored_view(stored@),
            out@.len() == i,
            forall|j: int|
                0 <= j < i ==> opened(stored@[j]@, key@) == Ok::<RecordView, RecordError>(
                    #[trigger] out@[j]@,
                ),
            forall|ws: Seq<RecordView>, j: int|
                vault_seals_to(ws, key@, sv) && 0 <= j < i ==> #[trigger] out@[j]@ == #[trigger] ws[j],
        decreases stored@.len() - i,
    {
        match stored[i].to_plaintext(key) {
            Ok(w) => {
                out.push(w);
            },
            Err(_) => {
                assert(!((opened(sv[i as int], key@)) is Ok));
                assert forall|ws: Seq<RecordView>| !vault_seals_to(ws, key@, sv) by {
                    if vault_seals_to(ws, key@, sv) {
                        assert(seals_to(ws[i as int], key@, sv[i as int]));
                        assert(sealed(ws[i as int], key@) == stored@[i as int]@);
                    }
                }
                return Err(VaultError::WrongPasswordOrTampered);
            },
        }
        i = i + 1;
    }
    assert forall|ws: Seq<RecordView>| #[trigger]
        vault_seals_to(ws, key@, sv) implies records_view(out@) == ws by {
        assert(records_view(out@) =~= ws);
    }
    assert forall|j: int| 0 <= j < sv.len() implies (#[trigger] opened(sv[j], key@)) is Ok by {
        assert(opened(stored@[j]@, key@) == Ok::<RecordView, RecordError>(out@[j]@));
    }
    Ok(out)
}

/// Loads a vault: `None` stands for an empty vault file, which holds no
/// records yet and is no error; otherwise every record is opened under `key`.
pub fn load(stored: Option<Vec<StoredRecord>>, key: &str) -> (r: Result<
    Option<Vec<Record>>,
    VaultError,
>)
    ensures
        stored is None ==> (r is Ok && r->Ok_0 is None),
        stored is Some ==> (r is Ok <==> all_open(stored_view(stored->Some_0@), key@)),
        stored is Some && r is Ok ==> (r->Ok_0 is Some && r->Ok_0->Some_0@.len()
            == stored->Some_0@.len() && forall|i: int|
            0 <= i < stored->Some_0@.len() ==> opened(stored->Some_0@[i]@, key@) == Ok::<
                RecordView,
                RecordError,
            >(#[trigger] r->Ok_0->Some_0@[i]@)),
        r is Err ==> r->Err_0 == VaultError::WrongPasswordOrTampered,
        forall|ws: Seq<RecordView>|
            stored is Some && #[trigger] vault_seals_to(ws, key@, stored_view(stored->Some_0@))
                ==> (r is Ok && r->Ok_0 is Some && records_view(r->Ok_0->Some_0@) == ws),
{
    match stored {
        None => Ok(None),
        Some(v) => match open_all(&v, key) {
            Ok(records) => Ok(Some(records)),
            Err(e) => Err(e),
        },
    }
}

/// Seals every record of a vault under `key`, in order.
pub fn dump(records: &Vec<Record>, key: &str) -> (r: Result<Vec<StoredRecord>, VaultError>)
    ensures
        r is Ok <==> forall|i: int| 0 <= i < records@.len() ==> sealable(#[trigger] records@[i]@),
        r is Ok ==> stored_view(r->Ok_0@) == sealed_all(records_view(records@), key@),
        r is Err ==> r->Err_0 == VaultError::FieldTooLong,
{
    let mut out: Vec<StoredRecord> = Vec::new();
    let mut i: usize = 0;
    while i < records.len()
        invariant
            i <= records@.len(),
            out@.len() == i,
            forall|j: int| 0 <= j < i ==> sealable(#[trigger] records@[j]@),
            forall|j: int| 0 <= j < i ==> #[trigger] out@[j]@ == sealed(records@[j]@, key@),
        decreases records@.len() - i,
    {
        match records[i].to_ciphertext(key) {
            Ok(s) => {
                out.push(s);
            },
            Err(_) => {
                return Err(VaultError::FieldTooLong);
            },
        }
        i = i + 1;
    }
    assert(stored_view(out@) =~= sealed_all(records_view(records@), key@));
    Ok(out)
}

/// A random salt whose hexadecimal text differs from `old`.
fn fresh_salt(old: &String) -> (r: Vec<u8>)
    ensures
        r@.len() == SALT_LEN,
        hex_of(r@) != old@,
{
    let s = random_salt();
    let text = to_hex(s.as_slice());
    if text != *old {
        return s;
    }
    let mut t: Vec<u8> = Vec::new();
    t.push(if s[0] == 255 { 0 } else { s[0] + 1 });
    let mut j: usize = 1;
    while j < s.len()
        invariant
            1 <= j <= s@.len(),
            s@.len() == SALT_LEN,
            t@.len() == j,
            t@[0] != s@[0],
        decreases s@.len() - j,
    {
        t.push(s[j]);
        j = j + 1;
    }
    proof {
        if hex_of(t@) == old@ {
            lemma_hex_of_injective(t@, s@);
        }
    }
    t
}

/// `new` is `old` created afresh under `master`: same field values, a
/// well-formed salt unlike the old one, and the tag that `master` gives.
pub open spec fn rekeyed(old: RecordView, new: RecordView, master: Seq<char>) -> bool {
    salt_ok(new.salt) && new.salt != old.salt && new == created(new.salt, fields_of(old), master)
}

/// Creates `record` afresh under `key`, with a new salt.
fn rekey(record: &Record, key: &str) -> (r: Record)
    ensures
        rekeyed(record@, r@, key@),
{
    let salt = fresh_salt(&record.salt);
    let data = record.fields();
    assert(data@.len() == string_views(data@).len());
    let r = Record::new_with_salt(salt.as_slice(), data.as_slice(), key);
    proof {
        lemma_hex_round_trip(salt@);
    }
    r
}

/// Changes the master key of a vault: every record is opened under
/// `old_key` and created afresh under `new_key`, with a new salt and tag.
/// If any record does not open, nothing is changed and no record is returned.
pub fn change_master_key(stored: &Vec<StoredRecord>, old_key: &str, new_key: &str) -> (r: Result<
    Vec<Record>,
    VaultError,
>)
    ensures
        r is Ok <==> all_open(stored_view(stored@), old_key@),
        r is Err ==> r->Err_0 == VaultError::WrongPasswordOrTampered,
        r is Ok ==> r->Ok_0@.len() == stored@.len(),
        r is Ok ==> forall|i: int|
            0 <= i < stored@.len() ==> rekeyed(
                opened(stored@[i]@, old_key@)->Ok_0,
                #[trigger] r->Ok_0@[i]@,
                new_key@,
            ),
{
    let records = match open_all(stored, old_key) {
        Ok(v) => v,
        Err(e) => {
            return Err(e);
        },
    };
    let mut out: Vec<Record> = Vec::new();
    let mut i: usize = 0;
    while i < records.len()
        invariant
            i <= records@.len(),
            records@.len() == stored@.len(),
            out@.len() == i,
            forall|j: int|
                0 <= j < stored@.len() ==> opened(stored@[j]@, old_key@) == Ok::<
                    RecordView,
                    RecordError,
                >(#[trigger] records@[j]@),
            forall|j: int| 0 <= j < i ==> rekeyed(records@[j]@, #[trigger] out@[j]@, new_key@),
        decreases records@.len() - i,
    {
        out.push(rekey(&records[i], new_key));
        i = i + 1;
    }
    let ghost outv = out@;
    let r: Result<Vec<Record>, VaultError> = Ok(out);
    assert forall|i: int| 0 <= i < stored@.len() implies rekeyed(
        opened(stored@[i]@, old_key@)->Ok_0,
        #[trigger] r->Ok_0@[i]@,
        new_key@,
    ) by {
        assert(r->Ok_0@[i] == outv[i]);
        assert(rekeyed(records@[i]@, outv[i]@, new_key@));
        assert(opened(stored@[i]@, old_key@) == Ok::<RecordView, RecordError>(records@[i]@));
    }
    r
}

/// A random password of `size` letters and digits.
pub fn generate_rand_password(size: usize) -> (r: String)
    ensures
        r@.len() == size,
        forall|i: int| 0 <= i < r@.len() ==> is_alphanumeric(#[trigger] r@[i]),
{
    sample_alphanumeric(size)
}

/// `needle` occurs in `hay` starting at byte `i`.
pub open spec fn occurs_at(hay: Seq<u8>, needle: Seq<u8>, i: int) -> bool {
    0 <= i && i + needle.len() <= hay.len() && hay.subrange(i, i + needle.len()) == needle
}

/// `needle`'s UTF-8 bytes occur in `hay`'s, as `str::contains` finds them.
pub open spec fn text_contains(hay: Seq<char>, needle: Seq<char>) -> bool {
    exists|i: int| occurs_at(encode_utf8(hay), encode_utf8(needle), i)
}

/// A search phrase finds a record when it occurs in its username or entry,
/// or in its email or note where present.
pub open spec fn record_matches(w: RecordView, q: Seq<char>) -> bool {
    text_contains(w.username, q) || text_contains(w.entry, q) || (w.email is Some
        && text_contains(w.email->Some_0, q)) || (w.note is Some && text_contains(
        w.note->Some_0,
        q,
    ))
}

fn occurs_at_exec(hay: &[u8], needle: &[u8], i: usize) -> (r: bool)
    requires
        i + needle@.len() <= hay@.len(),
    ensures
        r == occurs_at(hay@, needle@, i as int),
{
    let mut j: usize = 0;
    while j < needle.len()
        invariant
            i + needle@.len() <= hay@.len(),
            j <= needle@.len(),
            forall|k: int| 0 <= k < j ==> hay@[i + k] == needle@[k],
        decreases needle@.len() - j,
    {
        let hay_len = hay.len();
        assert(i + j < hay_len);
        if hay[i + j] != needle[j] {
            assert(hay@.subrange(i as int, i + needle@.len())[j as int] != needle@[j as int]);
            return false;
        }
        j = j + 1;
    }
    assert(hay@.subrange(i as int, i + needle@.len()) =~= needle@);
    true
}

/// Whether `needle` occurs in `hay`.
fn contains_text(hay: &str, needle: &str) -> (r: bool)
    ensures
        r == text_contains(hay@, needle@),
{
    let h = hay.as_bytes();
    let n = needle.as_bytes();
    if n.len() > h.len() {
        return false;
    }
    let last = h.len() - n.len();
    let mut i: usize = 0;
    loop
        invariant
            last == h@.len() - n@.len(),
            h@ == encode_utf8(hay@),
            n@ == encode_utf8(needle@),
            i <= last,
            forall|k: int| 0 <= k < i ==> !occurs_at(h@, n@, k),
        decreases last - i,
    {
        if occurs_at_exec(h, n, i) {
            return true;
        }
        if i == last {
            return false;
        }
        i = i + 1;
    }
}

impl Record {
    /// Whether `search` finds this record.
    pub fn matches(&self, search: &str) -> (r: bool)
        ensures
            r == record_matches(self@, search@),
    {
        if contains_text(self.username.as_str(), search) || contains_text(
            self.entry.as_str(),
            search,
        ) {
            return true;
        }
        if let Some(e) = &self.email {
            if contains_text(e.as_str(), search) {
                return true;
            }
        }
        if let Some(n) = &self.note {
            if contains_text(n.as_str(), search) {
                return true;
            }
        }
        false
    }

    /// The field values after an edit: an empty input keeps the current
    /// value, and an absent email or note is kept as empty text.
    pub fn edited_fields(&self, username: &str, password: &str, email: &str, note: &str) -> (r: Vec<
        String,
    >)
        ensures
            string_views(r@) == edited(self@, username@, password@, email@, note@),
    {
        let u = if username.is_empty() {
            self.username.clone()
        } else {
            username.to_owned()
        };
        let p = if password.is_empty() {
            self.password.clone()
        } else {
            password.to_owned()
        };
        let cur = self.fields();
        assert(cur@.len() == string_views(cur@).len());
        let e = if email.is_empty() {
            cur[3].clone()
        } else {
            email.to_owned()
        };
        let n = if note.is_empty() {
            cur[4].clone()
        } else {
            note.to_owned()
        };
        let r = vec![self.entry.clone(), u, p, e, n];
        assert(string_views(r@) =~= edited(self@, username@, password@, email@, note@));
        r
    }
}

/// An input that is empty keeps the current value.
pub open spec fn keep_if_empty(current: Seq<char>, input: Seq<char>) -> Seq<char> {
    if input.len() == 0 {
        current
    } else {
        input
    }
}

/// The field values, in creation order, of record `w` edited with the given inputs.
pub open spec fn edited(
    w: RecordView,
    username: Seq<char>,
    password: Seq<char>,
    email: Seq<char>,
    note: Seq<char>,
) -> Seq<Seq<char>> {
    seq![
        w.entry,
        keep_if_empty(w.username, username),
        keep_if_empty(w.password, password),
        keep_if_empty(or_empty(w.email), email),
        keep_if_empty(or_empty(w.note), note),
    ]
}

/// The index of the first record that `search` finds.
pub fn find_record(records: &Vec<Record>, search: &str) -> (r: Option<usize>)
    ensures
        match r {
            Some(i) => i < records@.len() && record_matches(records@[i as int]@, search@)
                && forall|j: int| 0 <= j < i ==> !record_matches(#[trigger] records@[j]@, search@),
            None => forall|j: int|
                0 <= j < records@.len() ==> !record_matches(#[trigger] records@[j]@, search@),
        },
{
    let mut i: usize = 0;
    while i < records.len()
        invariant
            i <= records@.len(),
            forall|j: int| 0 <= j < i ==> !record_matches(#[trigger] records@[j]@, search@),
        decreases records@.len() - i,
    {
        if records[i].matches(search) {
            return Some(i);
        }
        i = i + 1;
    }
    None
}

/// One row of a record listing; an absent email or note reads "null".
pub struct TabledData {
    pub entry: String,
    pub username: String,
    pub password: String,
    pub email: String,
    pub note: String,
}

/// The text shown for an absent field.
pub open spec fn null_text() -> Seq<char> {
    seq!['n', 'u', 'l', 'l']
}

pub open spec fn shown(o: Option<Seq<char>>) -> Seq<char> {
    match o {
        Some(s) => s,
        None => null_text(),
    }
}

/// `row` shows record `w`.
pub open spec fn row_of(row: TabledData, w: RecordView) -> bool {
    row.entry@ == w.entry && row.username@ == w.username && row.password@ == w.password
        && row.email@ == shown(w.email) && row.note@ == shown(w.note)
}

impl TabledData {
    pub fn new(data: Record) -> (r: TabledData)
        ensures
            row_of(r, data@),
    {
        TabledData::from_record(&data)
    }

    /// The row that shows `data`.
    pub fn from_record(data: &Record) -> (r: TabledData)
        ensures
            row_of(r, data@),
    {
        let null = String::from_str("null");
        proof {
            reveal_strlit("null");
            assert(null@ =~= null_text());
        }
        let email = match data.email() {
            Some(e) => e,
            None => null.clone(),
        };
        let note = match data.note() {
            Some(n) => n,
            None => null.clone(),
        };
        TabledData {
            entry: data.entry(),
            username: data.username(),
            password: data.password(),
            email,
            note,
        }
    }
}

/// What a listing shows: all records, or one.
pub enum RecordPrint {
    VECTOR(Vec<Record>),
    RECORD(Record),
}

/// The rows that a listing of `data` shows, in order.
pub fn table_rows(data: RecordPrint) -> (r: Vec<TabledData>)
    ensures
        match data {
            RecordPrint::VECTOR(v) => r@.len() == v@.len() && forall|i: int|
                0 <= i < v@.len() ==> row_of(#[trigger] r@[i], v@[i]@),
            RecordPrint::RECORD(w) => r@.len() == 1 && row_of(r@[0], w@),
        },
{
    let mut rows: Vec<TabledData> = Vec::new();
    match data {
        RecordPrint::VECTOR(records) => {
            let mut i: usize = 0;
            while i < records.len()
                invariant
                    i <= records@.len(),
                    rows@.len() == i,
                    forall|j: int| 0 <= j < i ==> row_of(#[trigger] rows@[j], records@[j]@),
                decreases records@.len() - i,
            {
                rows.push(TabledData::from_record(&records[i]));
                i = i + 1;
            }
        },
        RecordPrint::RECORD(record) => {
            rows.push(TabledData::new(record));
        },
    }
    rows
}


/// A created record is genuine under the master key it was created with,
/// and keeps the field values it was given, an empty email or note as absent.
pub proof fn lemma_created_genuine(salt: Seq<u8>, data: Seq<Seq<char>>, master: Seq<char>)
    requires
        salt.len() == SALT_LEN,
        data.len() == 5,
    ensures
        genuine(created(hex_of(salt), data, master), master),
        created(hex_of(salt), data, master).entry == data[0],
        created(hex_of(salt), data, master).username == data[1],
        created(hex_of(salt), data, master).password == data[2],
        fields_of(created(hex_of(salt), data, master)) == data,
{
    lemma_hex_round_trip(salt);
    let w = created(hex_of(salt), data, master);
    assert(or_empty(absent_if_empty(data[3])) =~= data[3]);
    assert(or_empty(absent_if_empty(data[4])) =~= data[4]);
    assert(fields_of(w) =~= data);
}

/// A genuine record that fits the cipher meets, on its own sealing, the
/// condition under which `to_plaintext` must return exactly that record:
/// with `to_ciphertext` giving `sealed(w, master)`, opening it under the
/// same key gives `w` back.
pub proof fn lemma_round_trip(w: RecordView, master: Seq<char>)
    requires
        genuine(w, master),
        sealable(w),
    ensures
        seals_to(w, master, sealed(w, master)),
{
}

/// Round trip for whole vaults: dumping genuine records under a master key
/// and loading the result under the same key gives back the same records,
/// in the same order.
pub proof fn lemma_dump_then_load(ws: Seq<RecordView>, master: Seq<char>)
    requires
        forall|i: int| 0 <= i < ws.len() ==> genuine(#[trigger] ws[i], master) && sealable(ws[i]),
    ensures
        vault_seals_to(ws, master, sealed_all(ws, master)),
{
}

/// Tamper detection on the tag: if a storage-form record opens under a key,
/// then the same record with any other tag fails with an integrity violation.
pub proof fn lemma_tag_tamper(s: RecordView, master: Seq<char>, t: Seq<char>)
    requires
        opened(s, master) is Ok,
        t != s.tag,
    ensures
        opened(RecordView { tag: t, ..s }, master) == Err::<RecordView, RecordError>(
            RecordError::IntegrityViolation,
        ),
{
    let s2 = RecordView { tag: t, ..s };
    let w = opened(s, master)->Ok_0;
    let w2 = RecordView { tag: t, ..w };
    assert(tag_for(w2, master) == tag_for(w, master));
}

/// After a change of master key, each new record keeps the old field values
/// under a different salt, is genuine under the new key, and so opens under
/// it after sealing.
pub proof fn lemma_rekeyed_opens(old: RecordView, new: RecordView, master: Seq<char>)
    requires
        rekeyed(old, new, master),
        sealable(new),
    ensures
        genuine(new, master),
        seals_to(new, master, sealed(new, master)),
        new.salt != old.salt,
        new.entry == old.entry,
        new.username == old.username,
        new.password == old.password,
        new.email == absent_if_empty(or_empty(old.email)),
        new.note == absent_if_empty(or_empty(old.note)),
{
}


/// Edits record `idx` of `records` under `key`: an empty input keeps the
/// current value, and the record is created afresh with a new salt and tag.
/// Every other record is left as it was.
pub fn edit_record(
    records: &mut Vec<Record>,
    idx: usize,
    username: &str,
    password: &str,
    email: &str,
    note: &str,
    key: &str,
)
    requires
        idx < old(records)@.len(),
    ensures
        final(records)@.len() == old(records)@.len(),
        forall|j: int|
            0 <= j < old(records)@.len() && j != idx ==> #[trigger] final(records)@[j]@
                == old(records)@[j]@,
        salt_ok(final(records)@[idx as int]@.salt),
        final(records)@[idx as int]@.salt != old(records)@[idx as int]@.salt,
        final(records)@[idx as int]@ == created(
            final(records)@[idx as int]@.salt,
            edited(old(records)@[idx as int]@, username@, password@, email@, note@),
            key@,
        ),
{
    let data = records[idx].edited_fields(username, password, email, note);
    let salt = fresh_salt(&records[idx].salt);
    assert(data@.len() == string_views(data@).len());
    let fresh = Record::new_with_salt(salt.as_slice(), data.as_slice(), key);
    proof {
        lemma_hex_round_trip(salt@);
    }
    records[idx] = fresh;
}

/// Brings the records of another vault into this one: `records` first, as
/// they are, then each of `foreign` created afresh under `key`, with a new
/// salt and the tag that `key` gives.
pub fn import_records(records: Vec<Record>, foreign: &Vec<Record>, key: &str) -> (r: Vec<Record>)
    ensures
        r@.len() == records@.len() + foreign@.len(),
        forall|i: int| 0 <= i < records@.len() ==> #[trigger] r@[i]@ == records@[i]@,
        forall|i: int|
            0 <= i < foreign@.len() ==> rekeyed(
                foreign@[i]@,
                #[trigger] r@[records@.len() + i]@,
                key@,
            ),
{
    let mut out = records;
    let ghost n = out@.len();
    let mut i: usize = 0;
    while i < foreign.len()
        invariant
            i <= foreign@.len(),
            n == records@.len(),
            out@.len() == n + i,
            forall|j: int| 0 <= j < n ==> #[trigger] out@[j]@ == records@[j]@,
            forall|j: int| 0 <= j < i ==> rekeyed(foreign@[j]@, #[trigger] out@[n + j]@, key@),
        decreases foreign@.len() - i,
    {
        out.push(rekey(&foreign[i], key));
        i = i + 1;
    }
    out
}

/// Changes the master key of a vault and seals the result: every record is
/// opened under `old_key`, created afresh under `new_key`, and sealed under
/// it. On success the storage form returned is the sealing of genuine records
/// that keep the old field values, so it loads under `new_key`.
pub fn reseal_vault(stored: &Vec<StoredRecord>, old_key: &str, new_key: &str) -> (r: Result<
    Vec<StoredRecord>,
    VaultError,
>)
    ensures
        !all_open(stored_view(stored@), old_key@) ==> r == Err::<Vec<StoredRecord>, VaultError>(
            VaultError::WrongPasswordOrTampered,
        ),
        all_open(stored_view(stored@), old_key@) && (forall|i: int|
            0 <= i < stored@.len() ==> sealable(#[trigger] opened(stored@[i]@, old_key@)->Ok_0))
            ==> r is Ok,
        r is Err ==> (r->Err_0 == VaultError::WrongPasswordOrTampered || r->Err_0
            == VaultError::FieldTooLong),
        r is Ok ==> r->Ok_0@.len() == stored@.len() && exists|ws: Seq<RecordView>|
            vault_seals_to(ws, new_key@, stored_view(r->Ok_0@)) && forall|i: int|
                0 <= i < ws.len() ==> rekeyed(
                    opened(stored@[i]@, old_key@)->Ok_0,
                    #[trigger] ws[i],
                    new_key@,
                ),
{
    let records = match change_master_key(stored, old_key, new_key) {
        Ok(v) => v,
        Err(e) => {
            return Err(e);
        },
    };
    proof {
        if forall|i: int|
            0 <= i < stored@.len() ==> sealable(#[trigger] opened(stored@[i]@, old_key@)->Ok_0) {
            assert forall|i: int| 0 <= i < records@.len() implies sealable(
                #[trigger] records@[i]@,
            ) by {
                assert(sealable(opened(stored@[i]@, old_key@)->Ok_0));
                assert(rekeyed(opened(stored@[i]@, old_key@)->Ok_0, records@[i]@, new_key@));
            }
        }
    }
    let sealed_records = match dump(&records, new_key) {
        Ok(s) => s,
        Err(e) => {
            return Err(e);
        },
    };
    proof {
        let ws = records_view(records@);
        assert forall|i: int| 0 <= i < ws.len() implies genuine(#[trigger] ws[i], new_key@)
            && sealable(ws[i]) by {
            assert(ws[i] == records@[i]@);
            assert(sealable(records@[i]@));
        }
        assert(stored_view(sealed_records@) =~= sealed_all(ws, new_key@));
        assert(vault_seals_to(ws, new_key@, stored_view(sealed_records@)));
        assert forall|i: int| 0 <= i < ws.len() implies rekeyed(
            opened(stored@[i]@, old_key@)->Ok_0,
            #[trigger] ws[i],
            new_key@,
        ) by {
            assert(ws[i] == records@[i]@);
        }
    }
    Ok(sealed_records)
}

/// Length of a generated password.
pub const GENERATED_LENGTH: usize = 30;

/// The password for a new credential: the input, or a generated one of
/// `GENERATED_LENGTH` letters and digits when the input is empty.
pub fn password_or_generated(input: String) -> (r: String)
    ensures
        input@.len() > 0 ==> r@ == input@,
        input@.len() == 0 ==> r@.len() == GENERATED_LENGTH && forall|i: int|
            0 <= i < r@.len() ==> is_alphanumeric(#[trigger] r@[i]),
{
    if input.as_str().is_empty() {
        generate_rand_password(GENERATED_LENGTH)
    } else {
        input
    }
}

} // verus!
