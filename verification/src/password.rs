//! The master password: hashed with bcrypt when it is chosen, checked
//! against the stored hash at every later sign-in.

use bcrypt::BcryptError;
use vstd::prelude::*;
use vstd::utf8::{encode_utf8, is_ascii_chars, is_continuation_byte};

use crate::text::{chars_of, parse_unsigned, parse_unsigned_range, string_of_chars, utf8_bytes};

verus! {

/// Why a bcrypt call failed; the variants of `bcrypt::BcryptError`, without
/// the outside values some of them carry.
pub enum BcryptFailure {
    Io,
    CostNotAllowed(u32),
    InvalidPassword,
    InvalidCost(String),
    InvalidPrefix(String),
    InvalidHash(String),
    InvalidBase64,
    Rand,
}

/// What `bcrypt::verify(password, hash)` answers: `Some(b)` for `Ok(b)`,
/// `None` for an error.
pub uninterp spec fn bcrypt_verify_outcome(password: Seq<u8>, hash: Seq<char>) -> Option<bool>;

/// `bcrypt::hash(password, DEFAULT_COST)` (bcrypt 0.9), whose salt comes from
/// the operating system's randomness. Claimed: with a password holding a
/// zero byte it fails (`InvalidPassword`, or `Rand` when no randomness could
/// be had); otherwise it either fails for want of randomness or gives a hash
/// that `bcrypt::verify` accepts for the same password. Which salt, and so
/// which hash, is not stated: it is random. The hash is ASCII (`$2b$`, the
/// cost in decimal, `$`, then bcrypt's base64 alphabet).
#[verifier::external_body]
fn bcrypt_hash(password: &[u8]) -> (r: Result<String, BcryptFailure>)
    ensures
        password@.contains(0u8) ==> (r == Err::<String, BcryptFailure>(
            BcryptFailure::InvalidPassword,
        ) || r == Err::<String, BcryptFailure>(BcryptFailure::Rand)),
        !password@.contains(0u8) ==> (r is Ok || r == Err::<String, BcryptFailure>(
            BcryptFailure::Rand,
        )),
        r matches Ok(h) ==> bcrypt_verify_outcome(password@, h@) == Some(true),
        r matches Ok(h) ==> is_ascii_chars(h@),
{
    match bcrypt::hash(password, bcrypt::DEFAULT_COST) {
        Ok(h) => Ok(h),
        Err(BcryptError::Io(_)) => Err(BcryptFailure::Io),
        Err(BcryptError::CostNotAllowed(c)) => Err(BcryptFailure::CostNotAllowed(c)),
        Err(BcryptError::InvalidPassword) => Err(BcryptFailure::InvalidPassword),
        Err(BcryptError::InvalidCost(s)) => Err(BcryptFailure::InvalidCost(s)),
        Err(BcryptError::InvalidPrefix(s)) => Err(BcryptFailure::InvalidPrefix(s)),
        Err(BcryptError::InvalidHash(s)) => Err(BcryptFailure::InvalidHash(s)),
        Err(BcryptError::InvalidBase64(_)) => Err(BcryptFailure::InvalidBase64),
        Err(BcryptError::Rand(_)) => Err(BcryptFailure::Rand),
    }
}

/// How `bcrypt::verify` cuts a hash (its `split_hash`): reading from the
/// left, the completed non-empty pieces between `'$'` characters, and the
/// piece still being read.
pub open spec fn dollar_scan(s: Seq<char>) -> (Seq<Seq<char>>, Seq<char>)
    decreases s.len(),
{
    if s.len() == 0 {
        (Seq::<Seq<char>>::empty(), Seq::<char>::empty())
    } else {
        let (fields, cur) = dollar_scan(s.drop_last());
        if s.last() == '$' {
            if cur.len() > 0 {
                (fields.push(cur), Seq::<char>::empty())
            } else {
                (fields, Seq::<char>::empty())
            }
        } else {
            (fields, cur.push(s.last()))
        }
    }
}

/// `hash.split('$').filter(|s| !s.is_empty())`: the non-empty pieces of
/// `s` between `'$'` characters.
pub open spec fn dollar_fields(s: Seq<char>) -> Seq<Seq<char>> {
    let (fields, cur) = dollar_scan(s);
    if cur.len() > 0 {
        fields.push(cur)
    } else {
        fields
    }
}

/// The hashes on which `bcrypt::verify` panics: they pass its checks of the
/// piece count, the version prefix and the cost, their last piece has 53
/// bytes, and byte 22 of that piece, where `verify` slices it, falls inside
/// a character.
pub open spec fn splits_inside_char(hash: Seq<char>) -> bool {
    let f = dollar_fields(hash);
    &&& f.len() == 3
    &&& (f[0] == seq!['2', 'y'] || f[0] == seq!['2', 'b'] || f[0] == seq!['2', 'a'])
    &&& parse_unsigned(f[1], u32::MAX as nat) is Some
    &&& encode_utf8(f[2]).len() == 53
    &&& is_continuation_byte(encode_utf8(f[2])[22])
}

proof fn lemma_dollar_scan_ascii(s: Seq<char>)
    requires
        is_ascii_chars(s),
    ensures
        is_ascii_chars(dollar_scan(s).1),
        forall|i: int|
            0 <= i < dollar_scan(s).0.len() ==> is_ascii_chars(#[trigger] dollar_scan(s).0[i]),
    decreases s.len(),
{
    if s.len() > 0 {
        let t = s.drop_last();
        assert forall|i: int| 0 <= i < t.len() implies '\0' <= #[trigger] t[i] <= '\u{7f}' by {
            assert(t[i] == s[i]);
        }
        lemma_dollar_scan_ascii(t);
        let (fields, cur) = dollar_scan(t);
        assert(s.last() == s[s.len() - 1]);
        if s.last() != '$' {
            assert(is_ascii_chars(cur.push(s.last()))) by {
                assert forall|k: int| 0 <= k < cur.len() + 1 implies '\0' <= #[trigger] cur.push(
                    s.last(),
                )[k] <= '\u{7f}' by {
                    if k < cur.len() {
                        assert(cur.push(s.last())[k] == cur[k]);
                    }
                }
            }
        } else if cur.len() > 0 {
            assert forall|i: int| 0 <= i < fields.push(cur).len() implies is_ascii_chars(
                #[trigger] fields.push(cur)[i],
            ) by {
                if i < fields.len() {
                    assert(fields.push(cur)[i] == fields[i]);
                }
            }
        }
    }
}

/// `bcrypt::verify` never panics on an ASCII hash.
pub proof fn lemma_ascii_hash_is_cut_cleanly(hash: Seq<char>)
    requires
        is_ascii_chars(hash),
    ensures
        !splits_inside_char(hash),
{
    lemma_dollar_scan_ascii(hash);
    let f = dollar_fields(hash);
    if f.len() == 3 {
        let (fields, cur) = dollar_scan(hash);
        assert(is_ascii_chars(f[2])) by {
            if cur.len() > 0 {
                if fields.len() == 2 {
                    assert(f[2] == cur);
                }
            } else {
                assert(f[2] == fields[2]);
            }
        }
        vstd::utf8::is_ascii_chars_encode_utf8(f[2]);
        if encode_utf8(f[2]).len() == 53 {
            assert(f[2][22] as u8 == encode_utf8(f[2])[22]);
            vstd::utf8::is_ascii_chars_nat_bound(f[2]);
        }
    }
}

/// The pieces of `hash` that `bcrypt::verify` reads.
fn dollar_fields_of(hash: &str) -> (fields: Vec<Vec<char>>)
    ensures
        fields@.len() == dollar_fields(hash@).len(),
        forall|i: int| 0 <= i < fields@.len() ==> #[trigger] fields@[i]@ == dollar_fields(hash@)[i],
{
    let chars = chars_of(hash);
    let mut fields: Vec<Vec<char>> = Vec::new();
    let mut cur: Vec<char> = Vec::new();
    let mut i: usize = 0;
    while i < chars.len()
        invariant
            0 <= i <= chars@.len(),
            chars@ == hash@,
            fields@.len() == dollar_scan(chars@.take(i as int)).0.len(),
            forall|k: int|
                0 <= k < fields@.len() ==> #[trigger] fields@[k]@ == dollar_scan(
                    chars@.take(i as int),
                ).0[k],
            cur@ == dollar_scan(chars@.take(i as int)).1,
        decreases chars@.len() - i,
    {
        let c = chars[i];
        let ghost prev = chars@.take(i as int);
        assert(chars@.take(i + 1).drop_last() =~= prev);
        assert(chars@.take(i + 1).last() == c);
        if c == '$' {
            if cur.len() > 0 {
                let piece = cur;
                fields.push(piece);
                cur = Vec::new();
            } else {
                cur = Vec::new();
            }
        } else {
            cur.push(c);
        }
        i = i + 1;
    }
    assert(chars@.take(i as int) =~= hash@);
    if cur.len() > 0 {
        fields.push(cur);
    }
    fields
}

/// Whether `bcrypt::verify` would panic on `hash` (see `splits_inside_char`).
fn hash_splits_inside_char(hash: &str) -> (r: bool)
    ensures
        r == splits_inside_char(hash@),
{
    let fields = dollar_fields_of(hash);
    if fields.len() != 3 {
        return false;
    }
    let ghost f = dollar_fields(hash@);
    assert(fields@[0]@ == f[0] && fields@[1]@ == f[1] && fields@[2]@ == f[2]);
    let prefix = &fields[0];
    let known_prefix = prefix.len() == 2 && prefix[0] == '2' && (prefix[1] == 'y' || prefix[1]
        == 'b' || prefix[1] == 'a');
    proof {
        if known_prefix {
            assert(prefix@ =~= seq!['2', 'y'] || prefix@ =~= seq!['2', 'b'] || prefix@ =~= seq![
                '2',
                'a',
            ]);
        } else if prefix@.len() == 2 {
            assert(prefix@[0] != '2' || !(prefix@[1] == 'y' || prefix@[1] == 'b' || prefix@[1]
                == 'a'));
        }
    }
    if !known_prefix {
        return false;
    }
    let cost = &fields[1];
    assert(cost@.subrange(0, cost@.len() as int) =~= cost@);
    if parse_unsigned_range(cost, 0, cost.len(), u32::MAX as u64).is_none() {
        return false;
    }
    let last = string_of_chars(&fields[2]);
    let bytes = utf8_bytes(last.as_str());
    bytes.len() == 53 && 0x80 <= bytes[22] && bytes[22] <= 0xbf
}

/// `bcrypt::verify(password, hash)` (bcrypt 0.9). Claimed: it gives the
/// named answer, and it fails on a password holding a zero byte. Not for a
/// hash on which `verify` slices inside a character, where it panics.
#[verifier::external_body]
fn bcrypt_verify(password: &[u8], hash: &str) -> (r: Result<bool, BcryptFailure>)
    requires
        !splits_inside_char(hash@),
    ensures
        r matches Ok(b) ==> bcrypt_verify_outcome(password@, hash@) == Some(b),
        r is Err ==> bcrypt_verify_outcome(password@, hash@) is None,
        password@.contains(0u8) ==> r is Err,
{
    match bcrypt::verify(password, hash) {
        Ok(b) => Ok(b),
        Err(BcryptError::Io(_)) => Err(BcryptFailure::Io),
        Err(BcryptError::CostNotAllowed(c)) => Err(BcryptFailure::CostNotAllowed(c)),
        Err(BcryptError::InvalidPassword) => Err(BcryptFailure::InvalidPassword),
        Err(BcryptError::InvalidCost(s)) => Err(BcryptFailure::InvalidCost(s)),
        Err(BcryptError::InvalidPrefix(s)) => Err(BcryptFailure::InvalidPrefix(s)),
        Err(BcryptError::InvalidHash(s)) => Err(BcryptFailure::InvalidHash(s)),
        Err(BcryptError::InvalidBase64(_)) => Err(BcryptFailure::InvalidBase64),
        Err(BcryptError::Rand(_)) => Err(BcryptFailure::Rand),
    }
}

/// What checking `password` against a stored `hash` answers: bcrypt's
/// answer, or `None` (a failure) on a hash that `bcrypt::verify` cannot cut
/// into its pieces (it would panic there).
pub open spec fn stored_hash_outcome(password: Seq<u8>, hash: Seq<char>) -> Option<bool> {
    if splits_inside_char(hash) {
        None
    } else {
        bcrypt_verify_outcome(password, hash)
    }
}

/// Why signing in with a password failed.
pub enum SignInFailure {
    /// bcrypt could not check the password against the stored hash.
    Bcrypt(BcryptFailure),
    /// The password does not match the stored hash.
    IncorrectPassword,
}

/// A master password with its bcrypt hash, and whether the two were found
/// to match.
pub struct Password {
    pub plaintext: String,
    pub hashed: String,
    is_valid: bool,
}

/// A password that holds a zero byte cannot be hashed.
pub open spec fn hashable(plaintext: Seq<char>) -> bool {
    !encode_utf8(plaintext).contains(0u8)
}

impl Password {
    /// The password matched its hash.
    pub closed spec fn valid(&self) -> bool {
        self.is_valid
    }

    /// The characters of the password.
    pub closed spec fn text(&self) -> Seq<char> {
        self.plaintext@
    }

    /// The characters of its hash.
    pub closed spec fn hash(&self) -> Seq<char> {
        self.hashed@
    }

    /// Creates the password chosen at the first sign-in: it is taken as
    /// valid and hashed. Fails only when no randomness could be had for the
    /// salt.
    pub fn new(plaintext: String) -> (r: Result<Password, BcryptFailure>)
        requires
            hashable(plaintext@),
        ensures
            r matches Ok(p) ==> {
                &&& p.text() == plaintext@
                &&& p.valid()
                &&& stored_hash_outcome(encode_utf8(plaintext@), p.hash()) == Some(true)
            },
            r matches Err(e) ==> e == BcryptFailure::Rand,
    {
        let bytes = utf8_bytes(plaintext.as_str());
        match bcrypt_hash(bytes.as_slice()) {
            Ok(hashed) => {
                proof {
                    lemma_ascii_hash_is_cut_cleanly(hashed@);
                }
                Ok(Password { plaintext, hashed, is_valid: true })
            },
            Err(e) => Err(e),
        }
    }

    /// Checks the password against the hash stored at the first sign-in:
    /// on success the hash is kept and `valid` says whether they match; on
    /// a bcrypt failure nothing changes. A hash that `bcrypt::verify` would
    /// slice inside a character is refused as `InvalidHash` before bcrypt is
    /// asked.
    pub fn validate(&mut self, stored_hash: String) -> (r: Result<(), BcryptFailure>)
        ensures
            r is Ok <==> stored_hash_outcome(encode_utf8(old(self).text()), stored_hash@) is Some,
            r is Ok ==> {
                &&& final(self).text() == old(self).text()
                &&& final(self).hash() == stored_hash@
                &&& Some(final(self).valid()) == stored_hash_outcome(
                    encode_utf8(old(self).text()),
                    stored_hash@,
                )
            },
            splits_inside_char(stored_hash@) ==> r == Err::<(), BcryptFailure>(
                BcryptFailure::InvalidHash(stored_hash),
            ),
            r is Err ==> *final(self) == *old(self),
    {
        if hash_splits_inside_char(stored_hash.as_str()) {
            return Err(BcryptFailure::InvalidHash(stored_hash));
        }
        let bytes = utf8_bytes(self.plaintext.as_str());
        match bcrypt_verify(bytes.as_slice(), stored_hash.as_str()) {
            Ok(valid) => {
                self.is_valid = valid;
                self.hashed = stored_hash;
                Ok(())
            },
            Err(e) => Err(e),
        }
    }

    /// Signs in with `plaintext` against the stored hash: the password when
    /// it matches, `IncorrectPassword` when it does not, and the bcrypt
    /// failure when the check could not be made.
    pub fn new_validated(plaintext: String, stored_hash: String) -> (r: Result<Password, SignInFailure>)
        ensures
            stored_hash_outcome(encode_utf8(plaintext@), stored_hash@) == Some(true) <==> r is Ok,
            r matches Ok(p) ==> {
                &&& p.text() == plaintext@
                &&& p.hash() == stored_hash@
                &&& p.valid()
            },
            stored_hash_outcome(encode_utf8(plaintext@), stored_hash@) == Some(false) <==> r
                == Err::<Password, SignInFailure>(SignInFailure::IncorrectPassword),
            stored_hash_outcome(encode_utf8(plaintext@), stored_hash@) is None <==> r matches Err(
                SignInFailure::Bcrypt(_),
            ),
            splits_inside_char(stored_hash@) ==> r == Err::<Password, SignInFailure>(
                SignInFailure::Bcrypt(BcryptFailure::InvalidHash(stored_hash)),
            ),
    {
        let mut password = Password { plaintext, hashed: String::new(), is_valid: false };
        match password.validate(stored_hash) {
            Ok(()) => {
                if password.is_valid {
                    Ok(password)
                } else {
                    Err(SignInFailure::IncorrectPassword)
                }
            },
            Err(e) => Err(SignInFailure::Bcrypt(e)),
        }
    }

    /// The hash to store in the credentials file for this password. It is
    /// one that `bcrypt::verify` accepts for the password.
    pub fn hash_for_file(&self) -> (r: Result<String, BcryptFailure>)
        ensures
            !hashable(self.text()) ==> (r == Err::<String, BcryptFailure>(
                BcryptFailure::InvalidPassword,
            ) || r == Err::<String, BcryptFailure>(BcryptFailure::Rand)),
            hashable(self.text()) ==> (r is Ok || r == Err::<String, BcryptFailure>(
                BcryptFailure::Rand,
            )),
            r matches Ok(h) ==> stored_hash_outcome(encode_utf8(self.text()), h@) == Some(true),
    {
        let bytes = utf8_bytes(self.plaintext.as_str());
        let r = bcrypt_hash(bytes.as_slice());
        proof {
            if r is Ok {
                lemma_ascii_hash_is_cut_cleanly(r->Ok_0@);
            }
        }
        r
    }
}

} // verus!
