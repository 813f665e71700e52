//! The on-disk container format and the create/unlock/save transactions.
//!
//! A container is three text lines, `salt:`, `test:` and `data:`, each
//! followed by a base64 value: the 16 key-derivation salt bytes, the
//! encrypted test package (a fixed sentinel used to verify a password
//! cheaply), and the encrypted serialized vault. The functions here work on
//! a container's content as bytes; reading and writing the file belongs to
//! the embedding application, which also tells [`create_vault`] whether a
//! container already exists.

use vstd::prelude::*;

verus! {

use vstd::utf8::encode_utf8;
use vstd::string::StrSliceExecFns;
use crate::crypto::{CryptoError, CryptoManager, b64_decode, b64_encode, b64_of, derive_ok, derived_key_of, fits_gcm, gcm_seal, generate_salt, is_b64_byte, open_package};
use crate::codec::{lemma_vault_round_trip, parse_vault, push_bytes, ser_vault, view_fits};
use crate::vault::{Vault, VaultView, default_vault_shape};

#[derive(Debug, Clone, Copy, PartialEq, Eq, Structural)]
pub enum StorageError {
    VaultNotFound,
    VaultAlreadyExists,
    InvalidPassword,
    IoError,
    SerializationError,
    CryptoError(CryptoError),
}

/// The fixed plaintext whose encryption is stored as the `test` field.
pub open spec fn sentinel_bytes() -> Seq<u8> {
    encode_utf8("passlocal_test"@)
}

fn sentinel() -> (r: Vec<u8>)
    ensures
        r@ == sentinel_bytes(),
{
    "passlocal_test".as_bytes_vec()
}

pub open spec fn label_salt() -> Seq<u8> {
    seq![115u8, 97u8, 108u8, 116u8, 58u8]
}

pub open spec fn label_test() -> Seq<u8> {
    seq![116u8, 101u8, 115u8, 116u8, 58u8]
}

pub open spec fn label_data() -> Seq<u8> {
    seq![100u8, 97u8, 116u8, 97u8, 58u8]
}

pub open spec fn nl() -> Seq<u8> {
    seq![10u8]
}

/// The container text for three field values.
pub open spec fn container_bytes(salt_f: Seq<u8>, test_f: Seq<u8>, data_f: Seq<u8>) -> Seq<u8> {
    label_salt() + salt_f + nl() + label_test() + test_f + nl() + label_data() + data_f + nl()
}

/// The first newline at or after `pos`.
pub open spec fn line_end(b: Seq<u8>, pos: int) -> Option<int>
    decreases b.len() - pos,
    when 0 <= pos <= b.len()
{
    if pos >= b.len() {
        None
    } else if b[pos] == 10 {
        Some(pos)
    } else {
        line_end(b, pos + 1)
    }
}

/// The three field values of a container, when the text is well-formed.
pub open spec fn parse_container(b: Seq<u8>) -> Option<(Seq<u8>, Seq<u8>, Seq<u8>)> {
    if b.len() < 5 || b.subrange(0, 5) != label_salt() {
        None
    } else {
        match line_end(b, 5) {
            None => None,
            Some(e1) => {
                let p2 = e1 + 1;
                if p2 + 5 > b.len() || b.subrange(p2, p2 + 5) != label_test() {
                    None
                } else {
                    match line_end(b, p2 + 5) {
                        None => None,
                        Some(e2) => {
                            let p3 = e2 + 1;
                            if p3 + 5 > b.len() || b.subrange(p3, p3 + 5) != label_data() {
                                None
                            } else {
                                match line_end(b, p3 + 5) {
                                    None => None,
                                    Some(e3) => if e3 + 1 == b.len() {
                                        Some(
                                            (
                                                b.subrange(5, e1),
                                                b.subrange(p2 + 5, e2),
                                                b.subrange(p3 + 5, e3),
                                            ),
                                        )
                                    } else {
                                        None
                                    },
                                }
                            }
                        },
                    }
                }
            },
        }
    }
}

proof fn lemma_line_end_at(b: Seq<u8>, pos: int, end: int)
    requires
        0 <= pos <= end < b.len(),
        b[end] == 10,
        forall|i: int| pos <= i < end ==> b[i] != 10,
    ensures
        line_end(b, pos) == Some(end),
    decreases end - pos,
{
    if pos < end {
        lemma_line_end_at(b, pos + 1, end);
    }
}

proof fn lemma_line_end_no_nl(b: Seq<u8>, pos: int, e: int)
    requires
        0 <= pos <= b.len(),
        line_end(b, pos) == Some(e),
    ensures
        pos <= e < b.len(),
        b[e] == 10,
        forall|i: int| pos <= i < e ==> b[i] != 10,
    decreases b.len() - pos,
{
    if pos < b.len() && b[pos] != 10 {
        lemma_line_end_no_nl(b, pos + 1, e);
    }
}

/// The fields of a parsed container never contain a newline.
pub proof fn lemma_parse_container_fields(b: Seq<u8>, salt_f: Seq<u8>, test_f: Seq<u8>, data_f: Seq<u8>)
    requires
        parse_container(b) == Some((salt_f, test_f, data_f)),
    ensures
        forall|i: int| 0 <= i < salt_f.len() ==> salt_f[i] != 10,
        forall|i: int| 0 <= i < test_f.len() ==> test_f[i] != 10,
        forall|i: int| 0 <= i < data_f.len() ==> data_f[i] != 10,
{
    let e1 = line_end(b, 5)->0;
    lemma_line_end_no_nl(b, 5, e1);
    let p2 = e1 + 1;
    let e2 = line_end(b, p2 + 5)->0;
    lemma_line_end_no_nl(b, p2 + 5, e2);
    let p3 = e2 + 1;
    let e3 = line_end(b, p3 + 5)->0;
    lemma_line_end_no_nl(b, p3 + 5, e3);
    assert forall|i: int| 0 <= i < salt_f.len() implies salt_f[i] != 10 by {
        assert(salt_f[i] == b[5 + i]);
    }
    assert forall|i: int| 0 <= i < test_f.len() implies test_f[i] != 10 by {
        assert(test_f[i] == b[p2 + 5 + i]);
    }
    assert forall|i: int| 0 <= i < data_f.len() implies data_f[i] != 10 by {
        assert(data_f[i] == b[p3 + 5 + i]);
    }
}

/// A well-formed container parses back to exactly its three fields.
pub proof fn lemma_container_round_trip(salt_f: Seq<u8>, test_f: Seq<u8>, data_f: Seq<u8>)
    requires
        forall|i: int| 0 <= i < salt_f.len() ==> salt_f[i] != 10,
        forall|i: int| 0 <= i < test_f.len() ==> test_f[i] != 10,
        forall|i: int| 0 <= i < data_f.len() ==> data_f[i] != 10,
    ensures
        parse_container(container_bytes(salt_f, test_f, data_f)) == Some(
            (salt_f, test_f, data_f),
        ),
{
    let b = container_bytes(salt_f, test_f, data_f);
    let e1 = 5 + salt_f.len() as int;
    let p2 = e1 + 1;
    let e2 = p2 + 5 + test_f.len();
    let p3 = e2 + 1;
    let e3 = p3 + 5 + data_f.len();
    assert(b.len() == e3 + 1);
    assert(b.subrange(0, 5) =~= label_salt());
    assert(b.subrange(5, e1) =~= salt_f);
    assert(b[e1] == 10);
    assert forall|i: int| 5 <= i < e1 implies b[i] != 10 by {
        assert(b[i] == salt_f[i - 5]);
    }
    lemma_line_end_at(b, 5, e1);
    assert(b.subrange(p2, p2 + 5) =~= label_test());
    assert(b.subrange(p2 + 5, e2) =~= test_f);
    assert(b[e2] == 10);
    assert forall|i: int| p2 + 5 <= i < e2 implies b[i] != 10 by {
        assert(b[i] == test_f[i - (p2 + 5)]);
    }
    lemma_line_end_at(b, p2 + 5, e2);
    assert(b.subrange(p3, p3 + 5) =~= label_data());
    assert(b.subrange(p3 + 5, e3) =~= data_f);
    assert(b[e3] == 10);
    assert forall|i: int| p3 + 5 <= i < e3 implies b[i] != 10 by {
        assert(b[i] == data_f[i - (p3 + 5)]);
    }
    lemma_line_end_at(b, p3 + 5, e3);
}

fn push_label(out: &mut Vec<u8>, which: u8)
    requires
        which < 3,
    ensures
        which == 0 ==> final(out)@ == old(out)@ + label_salt(),
        which == 1 ==> final(out)@ == old(out)@ + label_test(),
        which == 2 ==> final(out)@ == old(out)@ + label_data(),
{
    if which == 0 {
        out.push(115);
        out.push(97);
        out.push(108);
        out.push(116);
        out.push(58);
        proof {
            assert(out@ =~= old(out)@ + label_salt());
        }
    } else if which == 1 {
        out.push(116);
        out.push(101);
        out.push(115);
        out.push(116);
        out.push(58);
        proof {
            assert(out@ =~= old(out)@ + label_test());
        }
    } else {
        out.push(100);
        out.push(97);
        out.push(116);
        out.push(97);
        out.push(58);
        proof {
            assert(out@ =~= old(out)@ + label_data());
        }
    }
}

fn build_container(salt_f: &Vec<u8>, test_f: &Vec<u8>, data_f: &Vec<u8>) -> (r: Vec<u8>)
    ensures
        r@ == container_bytes(salt_f@, test_f@, data_f@),
{
    let mut out: Vec<u8> = Vec::new();
    push_label(&mut out, 0);
    push_bytes(&mut out, salt_f);
    out.push(10);
    push_label(&mut out, 1);
    push_bytes(&mut out, test_f);
    out.push(10);
    push_label(&mut out, 2);
    push_bytes(&mut out, data_f);
    out.push(10);
    proof {
        assert(out@ =~= container_bytes(salt_f@, test_f@, data_f@));
    }
    out
}

fn find_nl(b: &Vec<u8>, start: usize) -> (r: Option<usize>)
    requires
        start <= b@.len(),
    ensures
        r is Some ==> line_end(b@, start as int) == Some(r->0 as int) && start <= r->0
            < b@.len(),
        r is None ==> line_end(b@, start as int) is None,
{
    let mut i: usize = start;
    while i < b.len()
        invariant
            start <= i <= b@.len(),
            line_end(b@, start as int) == line_end(b@, i as int),
        decreases b@.len() - i,
    {
        if b[i] == 10 {
            return Some(i);
        }
        i += 1;
    }
    None
}

fn has_label(b: &Vec<u8>, pos: usize, which: u8) -> (r: bool)
    requires
        which < 3,
        pos + 5 <= b@.len(),
    ensures
        which == 0 ==> (r <==> b@.subrange(pos as int, pos as int + 5) == label_salt()),
        which == 1 ==> (r <==> b@.subrange(pos as int, pos as int + 5) == label_test()),
        which == 2 ==> (r <==> b@.subrange(pos as int, pos as int + 5) == label_data()),
{
    let n = b.len();
    let (c0, c1, c2, c3, c4): (u8, u8, u8, u8, u8) = if which == 0 {
        (115, 97, 108, 116, 58)
    } else if which == 1 {
        (116, 101, 115, 116, 58)
    } else {
        (100, 97, 116, 97, 58)
    };
    let r = b[pos] == c0 && b[pos + 1] == c1 && b[pos + 2] == c2 && b[pos + 3] == c3 && b[pos + 4]
        == c4;
    proof {
        let sub = b@.subrange(pos as int, pos as int + 5);
        assert(sub.len() == 5);
        assert(sub[0] == b@[pos as int] && sub[1] == b@[pos as int + 1] && sub[2] == b@[
            pos as int + 2
        ] && sub[3] == b@[pos as int + 3] && sub[4] == b@[pos as int + 4]);
        if r {
            if which == 0 {
                assert(sub =~= label_salt());
            } else if which == 1 {
                assert(sub =~= label_test());
            } else {
                assert(sub =~= label_data());
            }
        }
    }
    r
}

fn copy_range(b: &Vec<u8>, lo: usize, hi: usize) -> (r: Vec<u8>)
    requires
        lo <= hi <= b@.len(),
    ensures
        r@ == b@.subrange(lo as int, hi as int),
{
    let mut out: Vec<u8> = Vec::new();
    let mut i: usize = lo;
    while i < hi
        invariant
            lo <= i <= hi <= b@.len(),
            out@ == b@.subrange(lo as int, i as int),
        decreases hi - i,
    {
        out.push(b[i]);
        i += 1;
        proof {
            assert(out@ =~= b@.subrange(lo as int, i as int));
        }
    }
    proof {
        assert(out@ =~= b@.subrange(lo as int, hi as int));
    }
    out
}

/// Splits a container's content into its three field values.
#[verifier::loop_isolation(false)]
fn split_container(b: &Vec<u8>) -> (r: Option<(Vec<u8>, Vec<u8>, Vec<u8>)>)
    ensures
        r is Some ==> parse_container(b@) == Some(((r->0).0@, (r->0).1@, (r->0).2@)),
        r is None ==> parse_container(b@) is None,
{
    if b.len() < 5 || !has_label(b, 0, 0) {
        return None;
    }
    let e1 = match find_nl(b, 5) {
        Some(e) => e,
        None => {
            return None;
        },
    };
    let p2 = e1 + 1;
    if b.len() - p2 < 5 || !has_label(b, p2, 1) {
        return None;
    }
    let e2 = match find_nl(b, p2 + 5) {
        Some(e) => e,
        None => {
            return None;
        },
    };
    let p3 = e2 + 1;
    if b.len() - p3 < 5 || !has_label(b, p3, 2) {
        return None;
    }
    let e3 = match find_nl(b, p3 + 5) {
        Some(e) => e,
        None => {
            return None;
        },
    };
    if e3 + 1 != b.len() {
        return None;
    }
    let salt_f = copy_range(b, 5, e1);
    let test_f = copy_range(b, p2 + 5, e2);
    let data_f = copy_range(b, p3 + 5, e3);
    Some((salt_f, test_f, data_f))
}

/// A container whose three fields are exactly what [`create_vault`] writes
/// for vault `v` under `password`: `salt` with the key-derivation salt,
/// `test` with a sealed sentinel, `data` with the sealed serialized vault.
pub open spec fn created_container(
    password: Seq<char>,
    v: VaultView,
    c: Seq<u8>,
    salt: Seq<u8>,
    n1: Seq<u8>,
    n2: Seq<u8>,
) -> bool {
    let key = derived_key_of(password, salt);
    let tseal = gcm_seal(key, n1, sentinel_bytes());
    let dseal = gcm_seal(key, n2, ser_vault(v));
    &&& derive_ok(password, salt)
    &&& n1.len() == 12
    &&& n2.len() == 12
    &&& tseal.len() == sentinel_bytes().len() + 16
    &&& dseal.len() == ser_vault(v).len() + 16
    &&& view_fits(v)
    &&& parse_container(c) == Some((b64_of(salt), b64_of(n1 + tseal), b64_of(n2 + dseal)))
}

/// Everything that holds of `create_vault`'s result.
pub open spec fn create_post(
    password: Seq<char>,
    vault_exists: bool,
    r: Result<(Vault, Vec<u8>), StorageError>,
) -> bool {
    &&& vault_exists ==> r == Err::<(Vault, Vec<u8>), StorageError>(
        StorageError::VaultAlreadyExists,
    )
    &&& (!vault_exists && encode_utf8(password).len() <= 0xFFFF_FFFF) ==> r is Ok
    &&& r is Ok ==> {
        &&& !vault_exists
        &&& default_vault_shape((r->Ok_0).0.deep_view())
        &&& exists|salt: Seq<u8>, n1: Seq<u8>, n2: Seq<u8>|
            #[trigger] created_container(
                password,
                (r->Ok_0).0.deep_view(),
                (r->Ok_0).1@,
                salt,
                n1,
                n2,
            ) && salt.len() == 16
    }
    &&& r is Err ==> (r->Err_0 == StorageError::VaultAlreadyExists || r->Err_0
        == StorageError::CryptoError(CryptoError::KeyDerivationFailed))
}

proof fn lemma_sentinel_small()
    ensures
        sentinel_bytes().len() == 14,
{
    broadcast use vstd::utf8::is_ascii_chars_encode_utf8;

    reveal_strlit("passlocal_test");
    assert(vstd::utf8::is_ascii_chars("passlocal_test"@));
}

proof fn lemma_default_vault_small(v: VaultView)
    requires
        default_vault_shape(v),
        v.folders[0].id.len() == 36,
        v.folders[1].id.len() == 36,
        vstd::utf8::is_ascii_chars(v.folders[0].id),
        vstd::utf8::is_ascii_chars(v.folders[1].id),
    ensures
        ser_vault(v).len() < 1000,
{
    reveal_strlit("Personal");
    reveal_strlit("Work");
    reveal_strlit("person");
    reveal_strlit("briefcase");
    vstd::bytes::lemma_auto_spec_u64_to_from_le_bytes();
    crate::codec::lemma_ascii_str_len(v.folders[0].id);
    crate::codec::lemma_ascii_str_len(v.folders[1].id);
    assert(vstd::utf8::is_ascii_chars("Personal"@));
    crate::codec::lemma_ascii_str_len("Personal"@);
    assert(vstd::utf8::is_ascii_chars("Work"@));
    crate::codec::lemma_ascii_str_len("Work"@);
    assert(vstd::utf8::is_ascii_chars("person"@));
    crate::codec::lemma_ascii_str_len("person"@);
    assert(vstd::utf8::is_ascii_chars("briefcase"@));
    crate::codec::lemma_ascii_str_len("briefcase"@);
    reveal_with_fuel(crate::codec::ser_folders, 3);
    reveal_with_fuel(crate::codec::ser_secrets, 2);
    assert(v.folders.drop_first().drop_first() =~= Seq::<crate::vault::FolderView>::empty());
    assert(v.folders.drop_first()[0] == v.folders[1]);
}

/// Creates a fresh vault: refuses when a container already exists, builds
/// the default vault, draws a salt, seals the sentinel and the serialized
/// vault, and returns the vault with the container content to write.
pub fn create_vault(password: &str, vault_exists: bool) -> (r: Result<
    (Vault, Vec<u8>),
    StorageError,
>)
    ensures
        create_post(password@, vault_exists, r),
{
    if vault_exists {
        return Err(StorageError::VaultAlreadyExists);
    }
    let vault = Vault::new();
    let salt = generate_salt();
    let crypto = match CryptoManager::new(password, salt.as_slice()) {
        Ok(c) => c,
        Err(_) => {
            return Err(StorageError::CryptoError(CryptoError::KeyDerivationFailed));
        },
    };
    let test_plain = sentinel();
    proof {
        lemma_sentinel_small();
    }
    let test_enc = match crypto.encrypt_bytes(&test_plain) {
        Ok(t) => t,
        Err(_) => {
            proof {
                assert(false);
            }
            return Err(StorageError::CryptoError(CryptoError::EncryptionFailed));
        },
    };
    let payload = vault.to_bytes();
    proof {
        lemma_default_vault_small(vault.deep_view());
    }
    let data_enc = match crypto.encrypt_bytes(&payload) {
        Ok(d) => d,
        Err(_) => {
            proof {
                assert(false);
            }
            return Err(StorageError::CryptoError(CryptoError::EncryptionFailed));
        },
    };
    let salt_b64 = b64_encode(&salt);
    let container = build_container(&salt_b64, &test_enc, &data_enc);
    let r: Result<(Vault, Vec<u8>), StorageError> = Ok((vault, container));
    proof {
        let n1 = choose|n1: Seq<u8>|
            {
                &&& n1.len() == 12
                &&& #[trigger] gcm_seal(crypto.key_view(), n1, test_plain@).len() == test_plain@.len()
                    + 16
                &&& test_enc@ == crate::crypto::sealed_package(crypto.key_view(), n1, test_plain@)
            };
        let n2 = choose|n2: Seq<u8>|
            {
                &&& n2.len() == 12
                &&& #[trigger] gcm_seal(crypto.key_view(), n2, payload@).len() == payload@.len() + 16
                &&& data_enc@ == crate::crypto::sealed_package(crypto.key_view(), n2, payload@)
            };
        assert forall|i: int| 0 <= i < salt_b64@.len() implies salt_b64@[i] != 10 by {
            assert(is_b64_byte(salt_b64@[i]));
        }
        assert forall|i: int| 0 <= i < test_enc@.len() implies test_enc@[i] != 10 by {
            assert(is_b64_byte(test_enc@[i]));
        }
        assert forall|i: int| 0 <= i < data_enc@.len() implies data_enc@[i] != 10 by {
            assert(is_b64_byte(data_enc@[i]));
        }
        lemma_container_round_trip(salt_b64@, test_enc@, data_enc@);
        assert(created_container(password@, (r->Ok_0).0.deep_view(), (r->Ok_0).1@, salt@, n1, n2)
            && salt@.len() == 16);
    }
    r
}

pub open spec fn result_vault_view(r: Result<Vault, StorageError>) -> Result<
    VaultView,
    StorageError,
> {
    match r {
        Ok(v) => Ok(v.deep_view()),
        Err(e) => Err(e),
    }
}

/// The base64 preimage of a field, when the field is base64 text.
pub open spec fn b64_preimage(s: Seq<u8>) -> Option<Seq<u8>> {
    if exists|b: Seq<u8>| s == b64_of(b) {
        Some(choose|b: Seq<u8>| s == b64_of(b))
    } else {
        None
    }
}

/// What decrypting one base64 field under a key yields.
pub open spec fn open_field(key: Seq<u8>, enc: Seq<u8>) -> Result<Seq<u8>, CryptoError> {
    match b64_preimage(enc) {
        None => Err(CryptoError::InvalidFormat),
        Some(b) => open_package(key, b),
    }
}

/// The exact result of `unlock_vault` on a present container, as a function
/// of the password and the container's content.
pub open spec fn unlock_spec(password: Seq<char>, c: Seq<u8>) -> Result<VaultView, StorageError> {
    match parse_container(c) {
        None => Err(StorageError::SerializationError),
        Some((salt_f, test_f, data_f)) => match b64_preimage(salt_f) {
            None => Err(StorageError::InvalidPassword),
            Some(sb) => if !derive_ok(password, sb) {
                Err(StorageError::CryptoError(CryptoError::KeyDerivationFailed))
            } else {
                let key = derived_key_of(password, sb);
                match open_field(key, test_f) {
                    Err(_) => Err(StorageError::InvalidPassword),
                    Ok(t) => if t != sentinel_bytes() {
                        Err(StorageError::InvalidPassword)
                    } else {
                        match open_field(key, data_f) {
                            Err(e) => Err(StorageError::CryptoError(e)),
                            Ok(d) => match parse_vault(d) {
                                None => Err(StorageError::SerializationError),
                                Some(v) => Ok(v),
                            },
                        }
                    },
                }
            },
        },
    }
}

/// Everything that holds of `unlock_vault`'s result on a present container:
/// the result is pinned by [`unlock_spec`], and a container written by
/// [`create_vault`] (or rewritten by [`save_vault`]) with this password
/// unlocks to its vault.
pub open spec fn unlock_post(password: Seq<char>, c: Seq<u8>, r: Result<Vault, StorageError>) -> bool {
    &&& result_vault_view(r) == unlock_spec(password, c)
    &&& forall|v: VaultView, salt: Seq<u8>, n1: Seq<u8>, n2: Seq<u8>|
        #[trigger] created_container(password, v, c, salt, n1, n2) ==> r is Ok
            && (r->Ok_0).deep_view() == v
}

fn bytes_equal(a: &Vec<u8>, b: &Vec<u8>) -> (r: bool)
    ensures
        r <==> a@ == b@,
{
    if a.len() != b.len() {
        return false;
    }
    let mut i: usize = 0;
    while i < a.len()
        invariant
            i <= a@.len(),
            a@.len() == b@.len(),
            forall|k: int| 0 <= k < i ==> a@[k] == b@[k],
        decreases a@.len() - i,
    {
        if a[i] != b[i] {
            return false;
        }
        i += 1;
    }
    proof {
        assert(a@ =~= b@);
    }
    true
}

/// Unlocks a container: derives the key from the stored salt, verifies the
/// password against the sentinel, then decrypts and parses the vault.
/// `container` is the file's content, or nothing when no vault file exists.
#[verifier::rlimit(90)]
pub fn unlock_vault(password: &str, container: Option<&Vec<u8>>) -> (r: Result<
    Vault,
    StorageError,
>)
    ensures
        container is None ==> r == Err::<Vault, StorageError>(StorageError::VaultNotFound),
        container matches Some(c) ==> unlock_post(password@, c@, r),
{
    let c = match container {
        Some(c) => c,
        None => {
            return Err(StorageError::VaultNotFound);
        },
    };
    let ghost pw = password@;
    let (salt_f, test_f, data_f) = match split_container(c) {
        Some(t) => t,
        None => {
            proof {
                assert forall|v: VaultView, salt: Seq<u8>, n1: Seq<u8>, n2: Seq<u8>|
                    !created_container(pw, v, c@, salt, n1, n2) by {}
            }
            return Err(StorageError::SerializationError);
        },
    };
    let sb = match b64_decode(&salt_f) {
        Some(s) => s,
        None => {
            return Err(StorageError::InvalidPassword);
        },
    };
    proof {
        assert(b64_preimage(salt_f@) == Some(sb@));
    }
    let crypto = match CryptoManager::new(password, sb.as_slice()) {
        Ok(cm) => cm,
        Err(_) => {
            return Err(StorageError::CryptoError(CryptoError::KeyDerivationFailed));
        },
    };
    let test_dec = crypto.decrypt_bytes(&test_f);
    let expected = sentinel();
    let test_ok = match &test_dec {
        Ok(t) => bytes_equal(t, &expected),
        Err(_) => false,
    };
    proof {
        match test_dec {
            Ok(t) => {
                assert(open_field(crypto.key_view(), test_f@) == Ok::<Seq<u8>, CryptoError>(t@));
            },
            Err(e) => {
                assert(open_field(crypto.key_view(), test_f@) == Err::<Seq<u8>, CryptoError>(e));
            },
        }
    }
    if !test_ok {
        proof {
            assert forall|v: VaultView, salt: Seq<u8>, n1: Seq<u8>, n2: Seq<u8>|
                !created_container(pw, v, c@, salt, n1, n2) by {
                if created_container(pw, v, c@, salt, n1, n2) {
                    assert(sb@ == salt);
                    assert(test_dec is Ok && (test_dec->Ok_0)@ == sentinel_bytes());
                }
            }
        }
        return Err(StorageError::InvalidPassword);
    }
    let data_dec = match crypto.decrypt_bytes(&data_f) {
        Ok(d) => d,
        Err(e) => {
            proof {
                assert(open_field(crypto.key_view(), data_f@) == Err::<Seq<u8>, CryptoError>(e));
                assert forall|v: VaultView, salt: Seq<u8>, n1: Seq<u8>, n2: Seq<u8>|
                    !created_container(pw, v, c@, salt, n1, n2) by {}
            }
            return Err(StorageError::CryptoError(e));
        },
    };
    proof {
        assert(open_field(crypto.key_view(), data_f@) == Ok::<Seq<u8>, CryptoError>(data_dec@));
    }
    match Vault::from_bytes(&data_dec) {
        Some(v) => {
            proof {
                assert forall|w: VaultView, salt: Seq<u8>, n1: Seq<u8>, n2: Seq<u8>|
                    #[trigger] created_container(pw, w, c@, salt, n1, n2) implies v.deep_view()
                    == w by {
                    assert(sb@ == salt);
                    assert(data_dec@ == ser_vault(w));
                    lemma_vault_round_trip(w);
                }
            }
            Ok(v)
        },
        None => {
            proof {
                assert forall|w: VaultView, salt: Seq<u8>, n1: Seq<u8>, n2: Seq<u8>|
                    !created_container(pw, w, c@, salt, n1, n2) by {
                    if created_container(pw, w, c@, salt, n1, n2) {
                        assert(sb@ == salt);
                        assert(data_dec@ == ser_vault(w));
                        lemma_vault_round_trip(w);
                    }
                }
            }
            Err(StorageError::SerializationError)
        },
    }
}

/// Everything that holds of `save_vault`'s result: an absent container is
/// refused with `VaultNotFound` and only then (with a container present the
/// error is never `VaultNotFound`), the salt and test fields are carried
/// over unchanged, and only the data field is replaced by a fresh
/// encryption of the given vault.
pub open spec fn save_post(
    v: VaultView,
    password: Seq<char>,
    container: Option<Seq<u8>>,
    r: Result<Vec<u8>, StorageError>,
) -> bool {
    &&& container is None ==> r == Err::<Vec<u8>, StorageError>(StorageError::VaultNotFound)
    &&& container matches Some(c) ==> {
        &&& r is Err ==> {
            ||| r->Err_0 == StorageError::SerializationError
            ||| r->Err_0 == StorageError::InvalidPassword
            ||| r->Err_0 == StorageError::CryptoError(CryptoError::KeyDerivationFailed)
            ||| r->Err_0 == StorageError::CryptoError(CryptoError::EncryptionFailed)
        }
        &&& parse_container(c) is None ==> r == Err::<Vec<u8>, StorageError>(
            StorageError::SerializationError,
        )
        &&& forall|salt_f: Seq<u8>, test_f: Seq<u8>, data_f: Seq<u8>|
            parse_container(c) == Some((salt_f, test_f, data_f)) ==> {
                &&& (b64_preimage(salt_f) is None ==> r == Err::<Vec<u8>, StorageError>(
                    StorageError::InvalidPassword,
                ))
                &&& forall|sb: Seq<u8>| salt_f == #[trigger] b64_of(sb) ==> {
                    &&& (!derive_ok(password, sb) ==> r == Err::<Vec<u8>, StorageError>(
                        StorageError::CryptoError(CryptoError::KeyDerivationFailed),
                    ))
                    &&& (derive_ok(password, sb) && fits_gcm(ser_vault(v).len()) ==> r is Ok)
                    &&& r is Ok ==> exists|n2: Seq<u8>|
                        {
                            &&& n2.len() == 12
                            &&& (#[trigger] gcm_seal(derived_key_of(password, sb), n2, ser_vault(v))).len()
                                == ser_vault(v).len() + 16
                            &&& parse_container((r->Ok_0)@) == Some(
                                (
                                    salt_f,
                                    test_f,
                                    b64_of(
                                        n2 + gcm_seal(derived_key_of(password, sb), n2, ser_vault(v)),
                                    ),
                                ),
                            )
                        }
                }
            }
    }
}

/// Rewrites a container with a fresh encryption of `vault`, recovering the
/// immutable salt (and the untouched test field) from the existing
/// container. Never creates: an absent container is an error.
#[verifier::rlimit(90)]
pub fn save_vault(vault: &Vault, password: &str, container: Option<&Vec<u8>>) -> (r: Result<
    Vec<u8>,
    StorageError,
>)
    ensures
        save_post(
            vault.deep_view(),
            password@,
            match container {
                Some(c) => Some(c@),
                None => None,
            },
            r,
        ),
{
    let c = match container {
        Some(c) => c,
        None => {
            return Err(StorageError::VaultNotFound);
        },
    };
    let (salt_f, test_f, data_f) = match split_container(c) {
        Some(t) => t,
        None => {
            return Err(StorageError::SerializationError);
        },
    };
    let sb = match b64_decode(&salt_f) {
        Some(s) => s,
        None => {
            return Err(StorageError::InvalidPassword);
        },
    };
    let crypto = match CryptoManager::new(password, sb.as_slice()) {
        Ok(cm) => cm,
        Err(_) => {
            return Err(StorageError::CryptoError(CryptoError::KeyDerivationFailed));
        },
    };
    let payload = vault.to_bytes();
    let data_enc = match crypto.encrypt_bytes(&payload) {
        Ok(d) => d,
        Err(_) => {
            return Err(StorageError::CryptoError(CryptoError::EncryptionFailed));
        },
    };
    let new_container = build_container(&salt_f, &test_f, &data_enc);
    proof {
        let n2 = choose|n2: Seq<u8>|
            {
                &&& n2.len() == 12
                &&& #[trigger] gcm_seal(crypto.key_view(), n2, payload@).len() == payload@.len() + 16
                &&& data_enc@ == crate::crypto::sealed_package(crypto.key_view(), n2, payload@)
            };
        assert forall|i: int| 0 <= i < data_enc@.len() implies data_enc@[i] != 10 by {
            assert(is_b64_byte(data_enc@[i]));
        }
        lemma_parse_container_fields(c@, salt_f@, test_f@, data_f@);
        lemma_container_round_trip(salt_f@, test_f@, data_enc@);
    }
    Ok(new_container)
}

/// Two unlocks of the same container with the same password agree: the
/// result is a function of the password and the content.
pub proof fn lemma_unlock_deterministic(
    password: Seq<char>,
    c: Seq<u8>,
    r1: Result<Vault, StorageError>,
    r2: Result<Vault, StorageError>,
)
    requires
        unlock_post(password, c, r1),
        unlock_post(password, c, r2),
    ensures
        result_vault_view(r1) == result_vault_view(r2),
{
}

/// Unlocking a container freshly written by `create_vault` with the same
/// password returns the created vault.
pub proof fn lemma_unlock_after_create(
    password: Seq<char>,
    vault_exists: bool,
    rc: Result<(Vault, Vec<u8>), StorageError>,
    r: Result<Vault, StorageError>,
)
    requires
        create_post(password, vault_exists, rc),
        rc is Ok,
        unlock_post(password, (rc->Ok_0).1@, r),
    ensures
        r is Ok,
        (r->Ok_0).deep_view() == (rc->Ok_0).0.deep_view(),
{
    let v = (rc->Ok_0).0.deep_view();
    let c = (rc->Ok_0).1@;
    let (salt, n1, n2) = choose|salt: Seq<u8>, n1: Seq<u8>, n2: Seq<u8>|
        #[trigger] created_container(password, v, c, salt, n1, n2) && salt.len() == 16;
    assert(created_container(password, v, c, salt, n1, n2));
}

/// Saving over a genuine container keeps it genuine: the salt and test
/// fields are carried over, and the data field now seals the saved vault.
/// This is the induction step for any sequence of saves after a create.
pub proof fn lemma_save_keeps_genuine(
    password: Seq<char>,
    v0: VaultView,
    v: VaultView,
    c_old: Seq<u8>,
    salt: Seq<u8>,
    n1: Seq<u8>,
    n2: Seq<u8>,
    rs: Result<Vec<u8>, StorageError>,
)
    requires
        created_container(password, v0, c_old, salt, n1, n2),
        save_post(v, password, Some(c_old), rs),
        view_fits(v),
        fits_gcm(ser_vault(v).len()),
        rs is Ok,
    ensures
        exists|n2new: Seq<u8>| #[trigger] created_container(
            password,
            v,
            (rs->Ok_0)@,
            salt,
            n1,
            n2new,
        ),
{
    let key = derived_key_of(password, salt);
    let n2new = choose|n2new: Seq<u8>|
        {
            &&& n2new.len() == 12
            &&& (#[trigger] gcm_seal(key, n2new, ser_vault(v))).len() == ser_vault(v).len() + 16
            &&& parse_container((rs->Ok_0)@) == Some(
                (b64_of(salt), b64_of(n1 + gcm_seal(key, n1, sentinel_bytes())), b64_of(
                    n2new + gcm_seal(key, n2new, ser_vault(v)),
                )),
            )
        };
    assert(created_container(password, v, (rs->Ok_0)@, salt, n1, n2new));
}

/// Saving a vault over a container written by `create_vault` (or an earlier
/// save) keeps the salt and test fields and stores the new vault, so that a
/// later unlock with the same password returns exactly the saved vault.
pub proof fn lemma_unlock_after_save(
    password: Seq<char>,
    v0: VaultView,
    v: VaultView,
    c_old: Seq<u8>,
    salt: Seq<u8>,
    n1: Seq<u8>,
    n2: Seq<u8>,
    rs: Result<Vec<u8>, StorageError>,
    r: Result<Vault, StorageError>,
)
    requires
        created_container(password, v0, c_old, salt, n1, n2),
        save_post(v, password, Some(c_old), rs),
        view_fits(v),
        fits_gcm(ser_vault(v).len()),
        rs is Ok,
        unlock_post(password, (rs->Ok_0)@, r),
    ensures
        r is Ok,
        (r->Ok_0).deep_view() == v,
{
    lemma_save_keeps_genuine(password, v0, v, c_old, salt, n1, n2, rs);
    let n2new = choose|n2new: Seq<u8>| #[trigger] created_container(
        password,
        v,
        (rs->Ok_0)@,
        salt,
        n1,
        n2new,
    );
}

/// The salt field a container parses to (arbitrary when it does not parse).
pub open spec fn salt_field_of(c: Seq<u8>) -> Seq<u8> {
    match parse_container(c) {
        Some((salt_f, test_f, data_f)) => salt_f,
        None => Seq::empty(),
    }
}

/// A successful save never changes the container's salt field, whatever
/// sequence of earlier saves produced the container.
pub proof fn lemma_save_preserves_salt(
    v: VaultView,
    password: Seq<char>,
    c_old: Seq<u8>,
    rs: Result<Vec<u8>, StorageError>,
)
    requires
        save_post(v, password, Some(c_old), rs),
        rs is Ok,
        parse_container(c_old) is Some,
    ensures
        salt_field_of((rs->Ok_0)@) == salt_field_of(c_old),
{
    let (salt_f, test_f, data_f) = parse_container(c_old)->0;
    assert(parse_container(c_old) == Some((salt_f, test_f, data_f)));
    if b64_preimage(salt_f) is Some {
        let sb = b64_preimage(salt_f)->0;
        assert(salt_f == b64_of(sb));
    } else {
        assert(rs == Err::<Vec<u8>, StorageError>(StorageError::InvalidPassword));
    }
}

/// A password whose derived key does not recover the sentinel from the
/// test field never unlocks the container: the result is exactly
/// `InvalidPassword`, and no vault is handed out.
pub proof fn lemma_wrong_password_never_unlocks(
    password: Seq<char>,
    c: Seq<u8>,
    r: Result<Vault, StorageError>,
    salt_f: Seq<u8>,
    test_f: Seq<u8>,
    data_f: Seq<u8>,
    sb: Seq<u8>,
)
    requires
        unlock_post(password, c, r),
        parse_container(c) == Some((salt_f, test_f, data_f)),
        b64_preimage(salt_f) == Some(sb),
        derive_ok(password, sb),
        open_field(derived_key_of(password, sb), test_f) != Ok::<Seq<u8>, CryptoError>(
            sentinel_bytes(),
        ),
    ensures
        r == Err::<Vault, StorageError>(StorageError::InvalidPassword),
{
}

} // verus!
