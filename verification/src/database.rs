//! Sealed storage of logins. Every field of a login (service name, user
//! name, password) is encrypted with ChaCha20-Poly1305 under a key derived
//! from the master password and stored as the decimal text of the
//! ciphertext bytes. This module derives the key, seals and opens fields,
//! converts between ciphertext bytes and their text, and builds the SQL
//! statements that the application runs against the `logins` table.

use chacha20poly1305::aead::{Aead, NewAead};
use chacha20poly1305::{ChaCha20Poly1305, Key, Nonce};
use vstd::prelude::*;
use vstd::utf8::{decode_utf8, encode_utf8, valid_utf8};

use crate::text::{
    byte_list_text, chars_of, is_byte_list_char, lemma_byte_list_chars,
    lemma_byte_list_round_trip, parse_byte_list, parse_byte_list_chars, push_byte_list,
    string_from_utf8, utf8_bytes,
};

verus! {

broadcast use vstd::utf8::group_utf8_lib;

/// File of the login database.
pub const DATABASE_FILE: &'static str = ".data.db";

/// The nonce every field is sealed with. It is always the same, so that the
/// same plaintext always gives the same stored text and a login can be found
/// by the encrypted service name.
pub const NONCE: &'static str = "unique nonce";

/// Creates the `logins` table: service name, user name and password, the
/// service name unique.
pub const CREATE_TABLE_QUERY: &'static str = "CREATE TABLE logins (a TEXT UNIQUE, b TEXT, c TEXT);";

/// Lists the service name and user name of every login.
pub const LIST_LOGINS_QUERY: &'static str = "SELECT a, b FROM logins";

// ---------------------------------------------------------------------------
// ChaCha20-Poly1305
// ---------------------------------------------------------------------------

/// The ciphertext (with its 16-byte tag appended) that ChaCha20-Poly1305
/// produces for `plaintext` under `key` and `nonce`, with no associated data.
pub uninterp spec fn chacha20poly1305_seal(key: Seq<u8>, nonce: Seq<u8>, plaintext: Seq<u8>) -> Seq<
    u8,
>;

/// What ChaCha20-Poly1305 decryption of `ciphertext` under `key` and `nonce`
/// gives: the plaintext, or `None` when authentication fails.
pub uninterp spec fn chacha20poly1305_open(key: Seq<u8>, nonce: Seq<u8>, ciphertext: Seq<u8>) -> Option<
    Seq<u8>,
>;

/// The largest number of 64-byte blocks ChaCha20 encrypts under one nonce,
/// plus one.
pub open spec fn max_blocks() -> nat {
    0xffff_ffff
}

/// `Aead::encrypt` of `ChaCha20Poly1305` (chacha20poly1305 0.7), with no
/// associated data. Claimed: it succeeds exactly when the message has fewer
/// than `u32::MAX` blocks of 64 bytes, and then gives the named ciphertext,
/// 16 bytes longer than the message.
#[verifier::external_body]
fn aead_seal(key: &[u8], nonce: &[u8], plaintext: &[u8]) -> (r: Option<Vec<u8>>)
    requires
        key@.len() == 32,
        nonce@.len() == 12,
    ensures
        r is Some <==> plaintext@.len() / 64 < max_blocks(),
        r matches Some(c) ==> c@ == chacha20poly1305_seal(key@, nonce@, plaintext@),
        r matches Some(c) ==> c@.len() == plaintext@.len() + 16,
{
    ChaCha20Poly1305::new(<&Key>::from(key)).encrypt(<&Nonce>::from(nonce), plaintext).ok()
}

/// `Aead::decrypt` of `ChaCha20Poly1305` (chacha20poly1305 0.7), with no
/// associated data. Claimed: it gives the named result; a ciphertext shorter
/// than the 16-byte tag is refused; and a ciphertext that sealing produced
/// for some message is opened to that message.
#[verifier::external_body]
fn aead_open(key: &[u8], nonce: &[u8], ciphertext: &[u8]) -> (r: Option<Vec<u8>>)
    requires
        key@.len() == 32,
        nonce@.len() == 12,
    ensures
        r is Some <==> chacha20poly1305_open(key@, nonce@, ciphertext@) is Some,
        r matches Some(p) ==> chacha20poly1305_open(key@, nonce@, ciphertext@) == Some(p@),
        ciphertext@.len() < 16 ==> r is None,
        r is None ==> forall|p: Seq<u8>|
            p.len() / 64 < max_blocks() ==> ciphertext@ != #[trigger] chacha20poly1305_seal(
                key@,
                nonce@,
                p,
            ),
        r matches Some(q) ==> forall|p: Seq<u8>|
            p.len() / 64 < max_blocks() && ciphertext@ == #[trigger] chacha20poly1305_seal(
                key@,
                nonce@,
                p,
            ) ==> q@ == p,
{
    ChaCha20Poly1305::new(<&Key>::from(key)).decrypt(<&Nonce>::from(nonce), ciphertext).ok()
}

// ---------------------------------------------------------------------------
// Key derivation
// ---------------------------------------------------------------------------

/// A ChaCha20-Poly1305 key of 32 bytes.
pub struct Cipher {
    key: Vec<u8>,
}

impl Cipher {
    #[verifier::type_invariant]
    spec fn key_has_cipher_size(&self) -> bool {
        self.key@.len() == 32
    }

    /// The key bytes.
    pub closed spec fn key(&self) -> Seq<u8> {
        self.key@
    }
}

/// The 32 key bytes taken from the master password's bytes, repeating them
/// from the start as often as needed (or keeping the first 32).
pub open spec fn derived_key(password: Seq<u8>) -> Seq<u8> {
    Seq::new(32, |i: int| password[i % password.len() as int])
}

/// A password can be turned into a key: it has at least one byte to cycle.
pub open spec fn usable_as_key(password: Seq<u8>) -> bool {
    password.len() > 0
}

proof fn lemma_mod_step(j: int, n: int)
    requires
        n > 0,
        j >= 0,
    ensures
        j % n + 1 == n ==> (j + 1) % n == 0,
        j % n + 1 < n ==> (j + 1) % n == j % n + 1,
{
    let q = j / n;
    vstd::arithmetic::div_mod::lemma_fundamental_div_mod(j, n);
    vstd::arithmetic::div_mod::lemma_mod_bound(j, n);
    assert(n * q == q * n) by (nonlinear_arith);
    assert((q + 1) * n == q * n + n) by (nonlinear_arith);
    if j % n + 1 == n {
        vstd::arithmetic::div_mod::lemma_fundamental_div_mod_converse(j + 1, n, q + 1, 0);
    } else {
        vstd::arithmetic::div_mod::lemma_fundamental_div_mod_converse(j + 1, n, q, j % n + 1);
    }
}

/// Whether `construct_cipher` can be called with the master password `key`.
pub fn is_usable_as_key(key: &str) -> (usable: bool)
    ensures
        usable == usable_as_key(encode_utf8(key@)),
{
    key.as_bytes().len() > 0
}

/// Builds the cipher for the master password `key`: the key bytes are the
/// password's UTF-8 bytes, cycled or cut to 32.
pub fn construct_cipher(key: &String) -> (cipher: Cipher)
    requires
        usable_as_key(encode_utf8(key@)),
    ensures
        cipher.key() == derived_key(encode_utf8(key@)),
{
    let bytes = key.as_str().as_bytes();
    let n = bytes.len();
    let mut key_bytes: Vec<u8> = Vec::new();
    let mut i: usize = 0;
    let mut j: usize = 0;
    while j < 32
        invariant
            bytes@ == encode_utf8(key@),
            n == bytes@.len(),
            n > 0,
            0 <= j <= 32,
            i <= n,
            i == n ==> j as int % n as int == 0,
            i < n ==> i == j as int % n as int,
            key_bytes@.len() == j,
            forall|k: int| 0 <= k < j ==> key_bytes@[k] == #[trigger] derived_key(bytes@)[k],
        decreases 32 - j,
    {
        if i >= n {
            i = 0;
        }
        proof {
            lemma_mod_step(j as int, n as int);
        }
        key_bytes.push(bytes[i]);
        i = i + 1;
        j = j + 1;
    }
    assert(key_bytes@ =~= derived_key(bytes@));
    Cipher { key: key_bytes }
}

// ---------------------------------------------------------------------------
// Fields
// ---------------------------------------------------------------------------

/// The bytes of the nonce.
pub open spec fn nonce_bytes() -> Seq<u8> {
    encode_utf8(NONCE@)
}

/// A plaintext is short enough to be sealed in one message.
pub open spec fn encryptable(plaintext: Seq<char>) -> bool {
    encode_utf8(plaintext).len() / 64 < max_blocks()
}

/// The stored text of `plaintext`: the decimal byte list of its sealed
/// UTF-8 bytes.
pub open spec fn encrypted_field(key: Seq<u8>, plaintext: Seq<char>) -> Seq<char> {
    byte_list_text(chacha20poly1305_seal(key, nonce_bytes(), encode_utf8(plaintext)))
}

/// What a stored text opens to: `None` when it is not a byte list, when the
/// bytes do not open under the key, or when the opened bytes are not UTF-8.
pub open spec fn decrypted_field(key: Seq<u8>, field: Seq<char>) -> Option<Seq<char>> {
    match parse_byte_list(field) {
        None => None,
        Some(ciphertext) => match chacha20poly1305_open(key, nonce_bytes(), ciphertext) {
            None => None,
            Some(plaintext) => if valid_utf8(plaintext) {
                Some(decode_utf8(plaintext))
            } else {
                None
            },
        },
    }
}

fn nonce() -> (n: &'static [u8])
    ensures
        n@ == nonce_bytes(),
        n@.len() == 12,
{
    proof {
        reveal_strlit("unique nonce");
        assert(vstd::utf8::is_ascii_chars(NONCE@));
    }
    NONCE.as_bytes()
}

/// Formats a ciphertext for storage: its bytes in decimal, separated by
/// `", "` (the `Debug` text of the vector without the brackets).
pub fn convert_vec_to_str(vec: Vec<u8>) -> (string: String)
    ensures
        string@ == byte_list_text(vec@),
{
    let mut string = String::new();
    push_byte_list(&mut string, &vec);
    string
}

/// Reads a stored byte list back into bytes. Every `", "`-separated piece
/// must parse as a `u8`.
pub fn convert_str_to_vec(string: String) -> (vec: Vec<u8>)
    requires
        parse_byte_list(string@) is Some,
    ensures
        parse_byte_list(string@) == Some(vec@),
{
    let chars = chars_of(string.as_str());
    match parse_byte_list_chars(&chars) {
        Some(v) => v,
        None => {
            proof {
                assert(false);
            }
            Vec::new()
        },
    }
}

/// Seals `input` and formats the ciphertext for storage.
pub fn encrypt(cipher: &Cipher, input: String) -> (output: String)
    requires
        encryptable(input@),
    ensures
        output@ == encrypted_field(cipher.key(), input@),
        output@.len() > 0,
        forall|i: int| 0 <= i < output@.len() ==> is_byte_list_char(#[trigger] output@[i]),
        parse_byte_list(output@) matches Some(b) && b.len() == encode_utf8(input@).len() + 16,
{
    proof {
        use_type_invariant(cipher);
    }
    let plaintext = utf8_bytes(input.as_str());
    let sealed = aead_seal(cipher.key.as_slice(), nonce(), plaintext.as_slice());
    match sealed {
        Some(ciphertext) => {
            proof {
                lemma_byte_list_chars(ciphertext@);
                lemma_byte_list_round_trip(ciphertext@);
            }
            let output = convert_vec_to_str(ciphertext);
            proof {
                if output@.len() == 0 {
                    assert(parse_byte_list(output@) == parse_byte_list(Seq::<char>::empty()));
                }
            }
            output
        },
        None => {
            proof {
                assert(false);
            }
            String::new()
        },
    }
}

/// Opens a stored text, or gives `None` where `decrypted_field` is `None`.
fn open_field(cipher: &Cipher, input: &str) -> (output: Option<String>)
    ensures
        output matches Some(s) ==> decrypted_field(cipher.key(), input@) == Some(s@),
        output is None ==> decrypted_field(cipher.key(), input@) is None,
        forall|s: Seq<char>|
            input@.len() > 0 && encryptable(s) && input@ == #[trigger] encrypted_field(
                cipher.key(),
                s,
            ) ==> (output matches Some(t) && t@ == s),
{
    proof {
        use_type_invariant(cipher);
    }
    let chars = chars_of(input);
    let ciphertext = match parse_byte_list_chars(&chars) {
        Some(c) => c,
        None => {
            proof {
                assert forall|s: Seq<char>|
                    input@.len() > 0 && encryptable(s) && input@ == #[trigger] encrypted_field(
                        cipher.key(),
                        s,
                    ) implies false by {
                    let c = chacha20poly1305_seal(cipher.key(), nonce_bytes(), encode_utf8(s));
                    if c.len() > 0 {
                        lemma_byte_list_round_trip(c);
                    }
                }
            }
            return None;
        },
    };
    proof {
        assert forall|s: Seq<char>|
            input@.len() > 0 && encryptable(s) && input@ == #[trigger] encrypted_field(
                cipher.key(),
                s,
            ) implies ciphertext@ == chacha20poly1305_seal(
            cipher.key(),
            nonce_bytes(),
            encode_utf8(s),
        ) by {
            let c = chacha20poly1305_seal(cipher.key(), nonce_bytes(), encode_utf8(s));
            if c.len() > 0 {
                lemma_byte_list_round_trip(c);
            }
        }
    }
    let opened = aead_open(cipher.key.as_slice(), nonce(), ciphertext.as_slice());
    match opened {
        None => {
            proof {
                assert forall|s: Seq<char>|
                    input@.len() > 0 && encryptable(s) && input@ == #[trigger] encrypted_field(
                        cipher.key(),
                        s,
                    ) implies false by {
                    assert(ciphertext@ == chacha20poly1305_seal(
                        cipher.key(),
                        nonce_bytes(),
                        encode_utf8(s),
                    ));
                }
            }
            None
        },
        Some(plaintext) => {
            let ghost p = plaintext@;
            let text = string_from_utf8(plaintext);
            proof {
                assert forall|s: Seq<char>|
                    input@.len() > 0 && encryptable(s) && input@ == #[trigger] encrypted_field(
                        cipher.key(),
                        s,
                    ) implies p == encode_utf8(s) && valid_utf8(p) by {
                    assert(ciphertext@ == chacha20poly1305_seal(
                        cipher.key(),
                        nonce_bytes(),
                        encode_utf8(s),
                    ));
                    vstd::utf8::encode_utf8_valid_utf8(s);
                }
            }
            match text {
                Some(t) => {
                    proof {
                        vstd::utf8::encode_utf8_decode_utf8(t@);
                        assert forall|s: Seq<char>|
                            input@.len() > 0 && encryptable(s) && input@
                                == #[trigger] encrypted_field(cipher.key(), s) implies t@
                            == s by {
                            vstd::utf8::encode_utf8_decode_utf8(s);
                        }
                    }
                    Some(t)
                },
                None => None,
            }
        },
    }
}

/// Opens a stored text: parses its byte list, opens the bytes under the
/// cipher's key and reads them as UTF-8. Every text that `encrypt` wrote
/// under the same key opens to the text that was encrypted.
pub fn decrypt(cipher: &Cipher, input: String) -> (output: String)
    requires
        decrypted_field(cipher.key(), input@) is Some,
    ensures
        decrypted_field(cipher.key(), input@) == Some(output@),
        forall|s: Seq<char>|
            input@.len() > 0 && encryptable(s) && input@ == #[trigger] encrypted_field(
                cipher.key(),
                s,
            ) ==> output@ == s,
{
    match open_field(cipher, input.as_str()) {
        Some(t) => t,
        None => {
            proof {
                assert(false);
            }
            String::new()
        },
    }
}

/// Opens a stored text like `decrypt`, with `None` in place of the failures
/// on which `decrypt` cannot be called: a text that is not a byte list,
/// bytes that do not open under the key, or an opened text that is not
/// UTF-8.
pub fn try_decrypt(cipher: &Cipher, input: String) -> (output: Option<String>)
    ensures
        output matches Some(s) ==> decrypted_field(cipher.key(), input@) == Some(s@),
        output is None ==> decrypted_field(cipher.key(), input@) is None,
        forall|s: Seq<char>|
            input@.len() > 0 && encryptable(s) && input@ == #[trigger] encrypted_field(
                cipher.key(),
                s,
            ) ==> (output matches Some(t) && t@ == s),
{
    open_field(cipher, input.as_str())
}

// ---------------------------------------------------------------------------
// SQL statements
// ---------------------------------------------------------------------------

/// A stored text between double quotes: its `Debug` form, since it holds
/// only digits, `','` and `' '`.
pub open spec fn quoted(field: Seq<char>) -> Seq<char> {
    seq!['"'] + field + seq!['"']
}

/// The query for the password of the login whose service is `service`.
pub fn find_password_query(cipher: &Cipher, service: String) -> (sql: String)
    requires
        encryptable(service@),
    ensures
        sql@ == "SELECT c FROM logins WHERE a ='"@ + encrypted_field(cipher.key(), service@)
            + "'"@,
{
    let service = encrypt(cipher, service);
    let mut sql = String::from_str("SELECT c FROM logins WHERE a ='");
    sql.append(service.as_str());
    sql.append("'");
    sql
}

/// The statement that deletes the login whose service is `service`.
pub fn delete_login_query(cipher: &Cipher, service: String) -> (sql: String)
    requires
        encryptable(service@),
    ensures
        sql@ == "DELETE FROM logins WHERE a ='"@ + encrypted_field(cipher.key(), service@) + "'"@,
{
    let service = encrypt(cipher, service);
    let mut sql = String::from_str("DELETE FROM logins WHERE a ='");
    sql.append(service.as_str());
    sql.append("'");
    sql
}

/// The statement that sets a new user name and password on the login whose
/// service is `service`.
pub fn edit_login_query(cipher: &Cipher, service: String, username: String, password: String) -> (sql: String)
    requires
        encryptable(service@),
        encryptable(username@),
        encryptable(password@),
    ensures
        sql@ == "UPDATE logins SET b = '"@ + encrypted_field(cipher.key(), username@) + "', c = '"@
            + encrypted_field(cipher.key(), password@) + "' WHERE a ='"@ + encrypted_field(
            cipher.key(),
            service@,
        ) + "'"@,
{
    let service = encrypt(cipher, service);
    let username = encrypt(cipher, username);
    let password = encrypt(cipher, password);
    let mut sql = String::from_str("UPDATE logins SET b = '");
    sql.append(username.as_str());
    sql.append("', c = '");
    sql.append(password.as_str());
    sql.append("' WHERE a ='");
    sql.append(service.as_str());
    sql.append("'");
    sql
}

/// The statement that adds a login. Each stored text appears in its `Debug`
/// form, which for a byte list is the text in double quotes.
pub fn new_login_query(cipher: &Cipher, service: String, username: String, password: String) -> (sql: String)
    requires
        encryptable(service@),
        encryptable(username@),
        encryptable(password@),
    ensures
        sql@ == "INSERT INTO logins VALUES ("@ + quoted(encrypted_field(cipher.key(), service@))
            + ", "@ + quoted(encrypted_field(cipher.key(), username@)) + ", "@ + quoted(
            encrypted_field(cipher.key(), password@),
        ) + ");"@,
{
    let service = encrypt(cipher, service);
    let username = encrypt(cipher, username);
    let password = encrypt(cipher, password);
    let mut sql = String::from_str("INSERT INTO logins VALUES (");
    sql.append("\"");
    sql.append(service.as_str());
    sql.append("\"");
    sql.append(", ");
    sql.append("\"");
    sql.append(username.as_str());
    sql.append("\"");
    sql.append(", ");
    sql.append("\"");
    sql.append(password.as_str());
    sql.append("\"");
    sql.append(");");
    proof {
        reveal_strlit("\"");
        assert(sql@ =~= "INSERT INTO logins VALUES ("@ + quoted(service@) + ", "@ + quoted(
            username@,
        ) + ", "@ + quoted(password@) + ");"@);
    }
    sql
}

} // verus!
