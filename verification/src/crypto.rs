//! Key derivation and authenticated encryption.
//!
//! A [`CryptoManager`] holds a 32-byte key derived from a master password and
//! a salt. Encryption draws a fresh random 12-byte nonce, seals the plaintext
//! with AES-256-GCM, and returns `base64(nonce || ciphertext-with-tag)`.
//! Decryption reverses the steps and rejects anything whose authentication
//! tag does not verify.

use vstd::prelude::*;

verus! {

use vstd::utf8::{valid_utf8, encode_utf8, decode_utf8};
use vstd::string::StrSliceExecFns;
use aes_gcm::aead::{Aead, KeyInit};
use aes_gcm::{Aes256Gcm, Nonce};
use argon2::password_hash::SaltString;
use argon2::{Argon2, PasswordHasher};
use base64::engine::general_purpose::STANDARD;
use base64::Engine;
use rand::rngs::OsRng;
use rand::RngCore;

#[derive(Debug, Clone, Copy, PartialEq, Eq, Structural)]
pub enum CryptoError {
    EncryptionFailed,
    DecryptionFailed,
    KeyDerivationFailed,
    InvalidFormat,
}

/// The 32-byte key that Argon2id (default parameters) derives from a
/// password and a salt. Deterministic: a function of its arguments alone.
pub uninterp spec fn derived_key_of(password: Seq<char>, salt: Seq<u8>) -> Seq<u8>;

/// The base64 text (as bytes) that the standard alphabet, with canonical
/// padding, assigns to a byte sequence.
pub uninterp spec fn b64_of(data: Seq<u8>) -> Seq<u8>;

/// The AES-256-GCM ciphertext-with-tag for a key, a nonce and a plaintext.
pub uninterp spec fn gcm_seal(key: Seq<u8>, nonce: Seq<u8>, plain: Seq<u8>) -> Seq<u8>;

/// What AES-256-GCM decryption returns for a key, a nonce and a
/// ciphertext-with-tag: the recovered plaintext, or nothing when the
/// authentication tag does not verify.
pub uninterp spec fn gcm_open(key: Seq<u8>, nonce: Seq<u8>, cipher: Seq<u8>) -> Option<Seq<u8>>;

/// Bytes that can appear in base64 text: `A`-`Z`, `a`-`z`, `0`-`9`, `+`,
/// `/` and the padding `=`.
pub open spec fn is_b64_byte(b: u8) -> bool {
    ||| 65 <= b <= 90
    ||| 97 <= b <= 122
    ||| 48 <= b <= 57
    ||| b == 43
    ||| b == 47
    ||| b == 61
}

/// The plaintext sizes that AES-GCM accepts (its `P_MAX`).
pub open spec fn fits_gcm(len: nat) -> bool {
    len <= 0x10_0000_0000
}

/// When key derivation succeeds: the salt must fit in a salt string
/// (8 to 48 bytes) and the password under Argon2's length cap.
pub open spec fn derive_ok(password: Seq<char>, salt: Seq<u8>) -> bool {
    &&& 8 <= salt.len() <= 48
    &&& encode_utf8(password).len() <= 0xFFFF_FFFF
}

/// Relies on `base64::engine::general_purpose::STANDARD.encode`: the
/// canonical base64 text of the input, over the standard alphabet with
/// padding; every output byte is in that alphabet.
#[verifier::external_body]
pub(crate) fn b64_encode(data: &Vec<u8>) -> (r: Vec<u8>)
    ensures
        r@ == b64_of(data@),
        forall|i: int| 0 <= i < r@.len() ==> is_b64_byte(#[trigger] r@[i]),
        forall|b: Seq<u8>| r@ == #[trigger] b64_of(b) ==> b == data@,
{
    STANDARD.encode(data).into_bytes()
}

/// Relies on `base64::engine::general_purpose::STANDARD.decode`: strict
/// canonical decoding (non-canonical padding or trailing bits are rejected),
/// so it succeeds exactly on encoder outputs and inverts the encoder.
#[verifier::external_body]
pub(crate) fn b64_decode(data: &Vec<u8>) -> (r: Option<Vec<u8>>)
    ensures
        forall|b: Seq<u8>| data@ == #[trigger] b64_of(b) ==> r is Some && r->0@ == b,
        r is Some ==> data@ == b64_of(r->0@),
{
    match STANDARD.decode(data) {
        Ok(v) => Some(v),
        Err(_) => None,
    }
}

/// Relies on `argon2::Argon2::default().hash_password` together with
/// `SaltString::encode_b64`: a deterministic 32-byte Argon2id hash of the
/// password and salt. Within the admitted inputs it fails exactly when the
/// salt is shorter than 8 or longer than 48 bytes, or the password exceeds
/// Argon2's length cap. Salts under 3 bytes are excluded by `requires`:
/// their salt string is shorter than the 4-character minimum, and the
/// conversion inside `hash_password` panics on that instead of erring.
#[verifier::external_body]
fn argon2_derive_key(password: &str, salt: &[u8]) -> (r: Option<Vec<u8>>)
    requires
        salt@.len() >= 3,
    ensures
        r is Some <==> derive_ok(password@, salt@),
        r is Some ==> r->0@ == derived_key_of(password@, salt@) && r->0@.len() == 32,
{
    let salt_string = match SaltString::encode_b64(salt) {
        Ok(s) => s,
        Err(_) => return None,
    };
    let argon2 = Argon2::default();
    let hash = match argon2.hash_password(password.as_bytes(), &salt_string) {
        Ok(h) => h,
        Err(_) => return None,
    };
    let hash_bytes = match hash.hash {
        Some(h) => h,
        None => return None,
    };
    Some(hash_bytes.as_bytes().to_vec())
}

/// Relies on `aes_gcm::Aes256Gcm` (`new_from_slice`, then `encrypt`): the
/// sealed ciphertext is the plaintext's encryption plus a 16-byte tag, and
/// sealing fails exactly when the plaintext is over AES-GCM's `P_MAX`.
#[verifier::external_body]
fn gcm_encrypt(key: &Vec<u8>, nonce: &Vec<u8>, plain: &Vec<u8>) -> (r: Option<Vec<u8>>)
    requires
        key@.len() == 32,
        nonce@.len() == 12,
    ensures
        r is Some <==> fits_gcm(plain@.len()),
        r is Some ==> r->0@ == gcm_seal(key@, nonce@, plain@) && r->0@.len() == plain@.len() + 16,
{
    let cipher = match Aes256Gcm::new_from_slice(key) {
        Ok(c) => c,
        Err(_) => return None,
    };
    match cipher.encrypt(Nonce::from_slice(nonce), plain.as_slice()) {
        Ok(v) => Some(v),
        Err(_) => None,
    }
}

/// Relies on `aes_gcm::Aes256Gcm` (`new_from_slice`, then `decrypt`):
/// tag-checked decryption. Decrypting the seal of a plaintext with the key
/// and nonce that sealed it recovers that plaintext.
#[verifier::external_body]
fn gcm_decrypt(key: &Vec<u8>, nonce: &Vec<u8>, cipher_text: &Vec<u8>) -> (r: Option<Vec<u8>>)
    requires
        key@.len() == 32,
        nonce@.len() == 12,
    ensures
        r is Some <==> gcm_open(key@, nonce@, cipher_text@) is Some,
        r is Some ==> Some(r->0@) == gcm_open(key@, nonce@, cipher_text@),
        forall|p: Seq<u8>|
            p.len() + 16 == cipher_text@.len() && cipher_text@ == #[trigger] gcm_seal(key@, nonce@, p)
                ==> r is Some && r->0@ == p,
{
    let cipher = match Aes256Gcm::new_from_slice(key) {
        Ok(c) => c,
        Err(_) => return None,
    };
    match cipher.decrypt(Nonce::from_slice(nonce), cipher_text.as_slice()) {
        Ok(v) => Some(v),
        Err(_) => None,
    }
}

/// Relies on `rand::rngs::OsRng::fill_bytes`: cryptographically secure
/// random bytes. Nothing is assumed about the values drawn.
#[verifier::external_body]
fn random_bytes(n: usize) -> (r: Vec<u8>)
    ensures
        r@.len() == n,
{
    let mut buf = vec![0u8; n];
    OsRng.fill_bytes(&mut buf);
    buf
}

/// Relies on `String::from_utf8`: it succeeds exactly on valid UTF-8 input
/// and returns the string whose byte encoding is that input.
#[verifier::external_body]
pub(crate) fn string_from_utf8(bytes: Vec<u8>) -> (r: Option<String>)
    ensures
        r is Some <==> valid_utf8(bytes@),
        r is Some ==> encode_utf8(r->0@) == bytes@,
{
    String::from_utf8(bytes).ok()
}

/// Relies on `uuid::Uuid::new_v4` and its hyphenated text form: 36 ASCII
/// characters (hex digits and hyphens). Nothing else is assumed of the
/// value drawn.
#[verifier::external_body]
pub(crate) fn new_uuid() -> (r: String)
    ensures
        r@.len() == 36,
        vstd::utf8::is_ascii_chars(r@),
{
    uuid::Uuid::new_v4().to_string()
}

/// Generates the 16 random bytes that salt a new vault's key derivation.
pub fn generate_salt() -> (r: Vec<u8>)
    ensures
        r@.len() == 16,
{
    random_bytes(16)
}

/// `base64(nonce || gcm_seal(key, nonce, plain))`: the full encrypted
/// package for one plaintext under one nonce.
pub open spec fn sealed_package(key: Seq<u8>, nonce: Seq<u8>, plain: Seq<u8>) -> Seq<u8> {
    b64_of(nonce + gcm_seal(key, nonce, plain))
}

/// What decrypting an already base64-decoded package yields: reject short
/// input, split off the 12-byte nonce, open the rest.
pub open spec fn open_package(key: Seq<u8>, combined: Seq<u8>) -> Result<Seq<u8>, CryptoError> {
    if combined.len() < 12 {
        Err(CryptoError::InvalidFormat)
    } else {
        match gcm_open(key, combined.take(12), combined.skip(12)) {
            Some(p) => Ok(p),
            None => Err(CryptoError::DecryptionFailed),
        }
    }
}

/// [`open_package`], followed by decoding the recovered bytes as UTF-8 text.
pub open spec fn open_package_text(key: Seq<u8>, combined: Seq<u8>) -> Result<Seq<char>, CryptoError> {
    match open_package(key, combined) {
        Ok(p) => if valid_utf8(p) {
            Ok(decode_utf8(p))
        } else {
            Err(CryptoError::DecryptionFailed)
        },
        Err(e) => Err(e),
    }
}

pub open spec fn result_bytes_view(r: Result<Vec<u8>, CryptoError>) -> Result<Seq<u8>, CryptoError> {
    match r {
        Ok(v) => Ok(v@),
        Err(e) => Err(e),
    }
}

pub open spec fn result_text_view(r: Result<String, CryptoError>) -> Result<Seq<char>, CryptoError> {
    match r {
        Ok(v) => Ok(v@),
        Err(e) => Err(e),
    }
}

/// Everything that holds of `r` after `encrypt_bytes` of `plain` under `key`.
pub open spec fn encrypt_bytes_post(key: Seq<u8>, plain: Seq<u8>, r: Result<Vec<u8>, CryptoError>) -> bool {
    &&& r is Ok ==> exists|nonce: Seq<u8>|
        {
            &&& nonce.len() == 12
            &&& #[trigger] gcm_seal(key, nonce, plain).len() == plain.len() + 16
            &&& r->Ok_0@ == sealed_package(key, nonce, plain)
        }
    &&& r is Ok ==> forall|i: int| 0 <= i < r->Ok_0@.len() ==> is_b64_byte(#[trigger] r->Ok_0@[i])
    &&& fits_gcm(plain.len()) <==> r is Ok
    &&& r is Err ==> r->Err_0 == CryptoError::EncryptionFailed
}

/// Everything that holds of `r` after `decrypt_bytes` of `enc` under `key`:
/// the result is exactly [`open_package`] of the base64 preimage when one
/// exists, `InvalidFormat` when none does, and decrypting a genuine sealed
/// package recovers its plaintext.
pub open spec fn decrypt_bytes_post(key: Seq<u8>, enc: Seq<u8>, r: Result<Vec<u8>, CryptoError>) -> bool {
    &&& forall|b: Seq<u8>| enc == #[trigger] b64_of(b) ==> result_bytes_view(r) == open_package(key, b)
    &&& ((forall|b: Seq<u8>| enc != #[trigger] b64_of(b)) ==> r == Err::<Vec<u8>, CryptoError>(
        CryptoError::InvalidFormat,
    ))
    &&& forall|nonce: Seq<u8>, p: Seq<u8>|
        {
            &&& nonce.len() == 12
            &&& #[trigger] gcm_seal(key, nonce, p).len() == p.len() + 16
            &&& enc == sealed_package(key, nonce, p)
        } ==> result_bytes_view(r) == Ok::<Seq<u8>, CryptoError>(p)
}

pub struct CryptoManager {
    key: Vec<u8>,
}

impl CryptoManager {
    /// A manager is usable once it holds a full-length key.
    pub closed spec fn wf(&self) -> bool {
        self.key@.len() == 32
    }

    pub closed spec fn key_view(&self) -> Seq<u8> {
        self.key@
    }

    /// Derives the key for `password` and `salt` and keeps it for this
    /// manager's lifetime. Succeeds exactly when derivation does; salts too
    /// short for a salt string are rejected here before the Argon2 call.
    pub fn new(password: &str, salt: &[u8]) -> (r: Result<Self, CryptoError>)
        ensures
            r is Ok <==> derive_ok(password@, salt@),
            r is Ok ==> r->Ok_0.wf() && r->Ok_0.key_view() == derived_key_of(password@, salt@),
            r is Err ==> r->Err_0 == CryptoError::KeyDerivationFailed,
    {
        if salt.len() < 3 {
            return Err(CryptoError::KeyDerivationFailed);
        }
        match argon2_derive_key(password, salt) {
            Some(key) => Ok(CryptoManager { key }),
            None => Err(CryptoError::KeyDerivationFailed),
        }
    }

    /// Encrypts a byte payload: fresh random 12-byte nonce, AES-256-GCM,
    /// then base64 over `nonce || ciphertext`.
    pub fn encrypt_bytes(&self, plain: &Vec<u8>) -> (r: Result<Vec<u8>, CryptoError>)
        requires
            self.wf(),
        ensures
            encrypt_bytes_post(self.key_view(), plain@, r),
    {
        let nonce = random_bytes(12);
        match gcm_encrypt(&self.key, &nonce, plain) {
            Some(ct) => {
                let ghost nonce_seq = nonce@;
                let mut combined = nonce;
                let mut i: usize = 0;
                while i < ct.len()
                    invariant
                        combined@ == nonce_seq + ct@.take(i as int),
                        i <= ct@.len(),
                    decreases ct@.len() - i,
                {
                    combined.push(ct[i]);
                    i += 1;
                    proof {
                        assert(combined@ =~= nonce_seq + ct@.take(i as int));
                    }
                }
                proof {
                    assert(combined@ =~= nonce_seq + ct@);
                }
                let encoded = b64_encode(&combined);
                Ok(encoded)
            },
            None => Err(CryptoError::EncryptionFailed),
        }
    }

    /// Decrypts a byte package produced by [`Self::encrypt_bytes`]:
    /// base64-decode, split off the nonce, open, authenticate.
    pub fn decrypt_bytes(&self, enc: &Vec<u8>) -> (r: Result<Vec<u8>, CryptoError>)
        requires
            self.wf(),
        ensures
            decrypt_bytes_post(self.key_view(), enc@, r),
    {
        let combined = match b64_decode(enc) {
            Some(v) => v,
            None => {
                return Err(CryptoError::InvalidFormat);
            },
        };
        if combined.len() < 12 {
            return Err(CryptoError::InvalidFormat);
        }
        let mut nonce: Vec<u8> = Vec::new();
        let mut i: usize = 0;
        while i < 12
            invariant
                nonce@ == combined@.take(i as int),
                i <= 12 <= combined@.len(),
            decreases 12 - i,
        {
            nonce.push(combined[i]);
            i += 1;
            proof {
                assert(nonce@ =~= combined@.take(i as int));
            }
        }
        let mut rest: Vec<u8> = Vec::new();
        let mut j: usize = 12;
        while j < combined.len()
            invariant
                rest@ == combined@.subrange(12, j as int),
                12 <= j <= combined@.len(),
            decreases combined@.len() - j,
        {
            rest.push(combined[j]);
            j += 1;
            proof {
                assert(rest@ =~= combined@.subrange(12, j as int));
            }
        }
        proof {
            assert(nonce@ =~= combined@.take(12));
            assert(rest@ =~= combined@.skip(12));
        }
        let opened = gcm_decrypt(&self.key, &nonce, &rest);
        let r: Result<Vec<u8>, CryptoError> = match opened {
            Some(p) => Ok(p),
            None => Err(CryptoError::DecryptionFailed),
        };
        proof {
            let key = self.key_view();
            assert forall|b: Seq<u8>| enc@ == #[trigger] b64_of(b) implies result_bytes_view(r)
                == open_package(key, b) by {
                assert(b == combined@);
            }
            assert forall|nonce_s: Seq<u8>, p: Seq<u8>|
                {
                    &&& nonce_s.len() == 12
                    &&& #[trigger] gcm_seal(key, nonce_s, p).len() == p.len() + 16
                    &&& enc@ == sealed_package(key, nonce_s, p)
                } implies result_bytes_view(r) == Ok::<Seq<u8>, CryptoError>(p) by {
                assert(combined@ == nonce_s + gcm_seal(key, nonce_s, p));
                assert(combined@.take(12) =~= nonce_s);
                assert(combined@.skip(12) =~= gcm_seal(key, nonce_s, p));
            }
        }
        r
    }

    /// Encrypts a text plaintext; the package is returned as base64 text.
    pub fn encrypt(&self, plaintext: &str) -> (r: Result<String, CryptoError>)
        requires
            self.wf(),
        ensures
            r is Ok ==> exists|nonce: Seq<u8>|
                {
                    &&& nonce.len() == 12
                    &&& #[trigger] gcm_seal(self.key_view(), nonce, encode_utf8(plaintext@)).len()
                        == encode_utf8(plaintext@).len() + 16
                    &&& encode_utf8(r->Ok_0@) == sealed_package(
                        self.key_view(),
                        nonce,
                        encode_utf8(plaintext@),
                    )
                },
            fits_gcm(encode_utf8(plaintext@).len()) <==> r is Ok,
            r is Err ==> r->Err_0 == CryptoError::EncryptionFailed,
    {
        let bytes = plaintext.as_bytes_vec();
        let enc = self.encrypt_bytes(&bytes)?;
        proof {
            lemma_b64_bytes_are_ascii(enc@);
        }
        match string_from_utf8(enc) {
            Some(s) => Ok(s),
            None => Err(CryptoError::EncryptionFailed),
        }
    }

    /// Decrypts base64 text produced by [`Self::encrypt`] back into text.
    pub fn decrypt(&self, encrypted: &str) -> (r: Result<String, CryptoError>)
        requires
            self.wf(),
        ensures
            decrypt_post(self.key_view(), encrypted@, r),
    {
        proof {
            broadcast use vstd::utf8::encode_utf8_decode_utf8;

        }
        let bytes = encrypted.as_bytes_vec();
        let inner = self.decrypt_bytes(&bytes);
        let ghost key = self.key_view();
        let r: Result<String, CryptoError> = match inner {
            Ok(p) => {
                let ghost p_seq = p@;
                match string_from_utf8(p) {
                    Some(s) => Ok(s),
                    None => Err(CryptoError::DecryptionFailed),
                }
            },
            Err(e) => Err(e),
        };
        proof {
            assert forall|b: Seq<u8>| encode_utf8(encrypted@) == #[trigger] b64_of(b) implies
                result_text_view(r) == open_package_text(key, b) by {
                assert(result_bytes_view(inner) == open_package(key, b));
            }
            assert forall|nonce_s: Seq<u8>, p: Seq<u8>|
                {
                    &&& nonce_s.len() == 12
                    &&& #[trigger] gcm_seal(key, nonce_s, p).len() == p.len() + 16
                    &&& encode_utf8(encrypted@) == sealed_package(key, nonce_s, p)
                    &&& valid_utf8(p)
                } implies result_text_view(r) == Ok::<Seq<char>, CryptoError>(decode_utf8(p)) by {
                assert(result_bytes_view(inner) == Ok::<Seq<u8>, CryptoError>(p));
            }
        }
        r
    }
}

/// Everything that holds of `r` after `decrypt` of the text `enc` under
/// `key`; the text-level counterpart of [`decrypt_bytes_post`].
pub open spec fn decrypt_post(key: Seq<u8>, enc: Seq<char>, r: Result<String, CryptoError>) -> bool {
    &&& forall|b: Seq<u8>| encode_utf8(enc) == #[trigger] b64_of(b)
        ==> result_text_view(r) == open_package_text(key, b)
    &&& ((forall|b: Seq<u8>| encode_utf8(enc) != #[trigger] b64_of(b)) ==> r == Err::<String, CryptoError>(
        CryptoError::InvalidFormat,
    ))
    &&& forall|nonce: Seq<u8>, p: Seq<u8>|
        {
            &&& nonce.len() == 12
            &&& #[trigger] gcm_seal(key, nonce, p).len() == p.len() + 16
            &&& encode_utf8(enc) == sealed_package(key, nonce, p)
            &&& valid_utf8(p)
        } ==> result_text_view(r) == Ok::<Seq<char>, CryptoError>(decode_utf8(p))
}

/// Base64 text is ASCII, hence valid UTF-8.
pub proof fn lemma_b64_bytes_are_ascii(b: Seq<u8>)
    requires
        forall|i: int| 0 <= i < b.len() ==> is_b64_byte(#[trigger] b[i]),
    ensures
        valid_utf8(b),
{
    lemma_small_bytes_valid_utf8(b);
}

/// Any all-ASCII byte sequence is valid UTF-8.
pub proof fn lemma_small_bytes_valid_utf8(b: Seq<u8>)
    requires
        forall|i: int| 0 <= i < b.len() ==> #[trigger] b[i] < 128,
    ensures
        valid_utf8(b),
{
    assert forall|i: int| 0 <= i < b.len() implies vstd::utf8::is_leading_byte_width_1(
        #[trigger] b[i],
    ) by {
        let x = b[i];
        assert(x < 128 ==> x >> 7 == 0) by (bit_vector);
    }
    assert(vstd::utf8::partial_valid_utf8(b, 0)) by {
        assert(b.subrange(0, 0) =~= Seq::<u8>::empty());
        assert(valid_utf8(Seq::<u8>::empty()));
    }
    vstd::utf8::partial_valid_utf8_extend_ascii_block(b, 0, b.len() as int);
    assert(b.subrange(0, b.len() as int) =~= b);
}

/// Round trip: decrypting an encrypted package under the same key recovers
/// the plaintext, whatever nonce was drawn.
pub proof fn lemma_decrypt_inverts_encrypt(
    key: Seq<u8>,
    plain: Seq<char>,
    c: Result<String, CryptoError>,
    r: Result<String, CryptoError>,
)
    requires
        c is Ok ==> exists|nonce: Seq<u8>|
            {
                &&& nonce.len() == 12
                &&& #[trigger] gcm_seal(key, nonce, encode_utf8(plain)).len()
                    == encode_utf8(plain).len() + 16
                &&& encode_utf8(c->Ok_0@) == sealed_package(key, nonce, encode_utf8(plain))
            },
        c is Ok,
        decrypt_post(key, c->Ok_0@, r),
    ensures
        r is Ok,
        r->Ok_0@ == plain,
{
    broadcast use vstd::utf8::encode_utf8_valid_utf8, vstd::utf8::encode_utf8_decode_utf8;

    let nonce = choose|nonce: Seq<u8>|
        {
            &&& nonce.len() == 12
            &&& #[trigger] gcm_seal(key, nonce, encode_utf8(plain)).len()
                == encode_utf8(plain).len() + 16
            &&& encode_utf8(c->Ok_0@) == sealed_package(key, nonce, encode_utf8(plain))
        };
    let p = encode_utf8(plain);
    assert(valid_utf8(p));
    assert(result_text_view(r) == Ok::<Seq<char>, CryptoError>(decode_utf8(p)));
    assert(decode_utf8(p) == plain);
}

/// Decryption is a function of the key and the package: two results that
/// both satisfy [`decrypt_post`] for the same inputs agree.
pub proof fn lemma_decrypt_deterministic(
    key: Seq<u8>,
    enc: Seq<char>,
    r1: Result<String, CryptoError>,
    r2: Result<String, CryptoError>,
)
    requires
        decrypt_post(key, enc, r1),
        decrypt_post(key, enc, r2),
    ensures
        result_text_view(r1) == result_text_view(r2),
{
    if exists|b: Seq<u8>| encode_utf8(enc) == #[trigger] b64_of(b) {
        let b = choose|b: Seq<u8>| encode_utf8(enc) == #[trigger] b64_of(b);
        assert(result_text_view(r1) == open_package_text(key, b));
        assert(result_text_view(r2) == open_package_text(key, b));
    } else {
        assert(r1 == Err::<String, CryptoError>(CryptoError::InvalidFormat));
        assert(r2 == Err::<String, CryptoError>(CryptoError::InvalidFormat));
    }
}

/// Checks a candidate password against a stored test package: derive the
/// key, then see whether the package decrypts.
pub fn verify_password(password: &str, salt: &[u8], encrypted_test: &str) -> (r: bool)
    ensures
        r <==> (derive_ok(password@, salt@) && exists|b: Seq<u8>|
            encode_utf8(encrypted_test@) == #[trigger] b64_of(b) && open_package_text(
                derived_key_of(password@, salt@),
                b,
            ) is Ok),
{
    match CryptoManager::new(password, salt) {
        Ok(crypto) => {
            let d = crypto.decrypt(encrypted_test);
            match d {
                Ok(_) => {
                    proof {
                        let b = choose|b: Seq<u8>|
                            encode_utf8(encrypted_test@) == #[trigger] b64_of(b);
                    }
                    true
                },
                Err(_) => false,
            }
        },
        Err(_) => false,
    }
}

} // verus!
