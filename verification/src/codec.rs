//! Serialization of a vault into the byte payload that gets encrypted.
//!
//! The format is length-prefixed: every integer is eight little-endian
//! bytes, every text field is its byte length followed by its UTF-8 bytes.
//! A vault is `version`, the folder count and the folders, then the secret
//! count and the secrets. Parsing is specified as a pure function and the
//! round trip `parse(serialize(v)) == v` is proved.

use vstd::prelude::*;

verus! {

use vstd::bytes::{spec_u64_to_le_bytes, spec_u64_from_le_bytes, lemma_auto_spec_u64_to_from_le_bytes, u64_to_le_bytes, u64_from_le_bytes};
use vstd::utf8::{valid_utf8, encode_utf8, decode_utf8};
use vstd::string::StrSliceExecFns;
use crate::crypto::string_from_utf8;
use crate::vault::{Folder, FolderView, Secret, SecretView, Vault, VaultView};

pub open spec fn ser_u64(n: u64) -> Seq<u8> {
    spec_u64_to_le_bytes(n)
}

pub open spec fn ser_i64(n: i64) -> Seq<u8> {
    ser_u64(n as u64)
}

pub open spec fn ser_bytes(bs: Seq<u8>) -> Seq<u8> {
    ser_u64(bs.len() as u64) + bs
}

pub open spec fn ser_str(s: Seq<char>) -> Seq<u8> {
    ser_bytes(encode_utf8(s))
}

pub open spec fn ser_folder(f: FolderView) -> Seq<u8> {
    ser_str(f.id) + ser_str(f.name) + ser_str(f.icon) + ser_i64(f.order as i64)
}

pub open spec fn ser_folders(fs: Seq<FolderView>) -> Seq<u8>
    decreases fs.len(),
{
    if fs.len() == 0 {
        Seq::empty()
    } else {
        ser_folder(fs[0]) + ser_folders(fs.drop_first())
    }
}

pub open spec fn ser_secret(s: SecretView) -> Seq<u8> {
    ser_str(s.id) + ser_str(s.name) + ser_str(s.key) + ser_str(s.value) + ser_str(s.notes)
        + ser_str(s.folder_id) + ser_i64(s.created_at as i64) + ser_i64(s.updated_at as i64)
}

pub open spec fn ser_secrets(ss: Seq<SecretView>) -> Seq<u8>
    decreases ss.len(),
{
    if ss.len() == 0 {
        Seq::empty()
    } else {
        ser_secret(ss[0]) + ser_secrets(ss.drop_first())
    }
}

pub open spec fn ser_vault(v: VaultView) -> Seq<u8> {
    ser_u64(v.version as u64) + ser_u64(v.folders.len() as u64) + ser_folders(v.folders)
        + ser_u64(v.secrets.len() as u64) + ser_secrets(v.secrets)
}

/// The bounds under which a vault view round-trips: machine-sized strings
/// and sequences, fields inside their declared integer types.
pub open spec fn str_fits(s: Seq<char>) -> bool {
    encode_utf8(s).len() < 0x1_0000_0000_0000_0000
}

pub open spec fn folder_fits(f: FolderView) -> bool {
    &&& str_fits(f.id)
    &&& str_fits(f.name)
    &&& str_fits(f.icon)
    &&& -0x8000_0000 <= f.order < 0x8000_0000
}

pub open spec fn secret_fits(s: SecretView) -> bool {
    &&& str_fits(s.id)
    &&& str_fits(s.name)
    &&& str_fits(s.key)
    &&& str_fits(s.value)
    &&& str_fits(s.notes)
    &&& str_fits(s.folder_id)
    &&& -0x8000_0000_0000_0000 <= s.created_at < 0x8000_0000_0000_0000
    &&& -0x8000_0000_0000_0000 <= s.updated_at < 0x8000_0000_0000_0000
}

pub open spec fn view_fits(v: VaultView) -> bool {
    &&& 0 <= v.version < 0x1_0000_0000
    &&& v.folders.len() < 0x1_0000_0000_0000_0000
    &&& v.secrets.len() < 0x1_0000_0000_0000_0000
    &&& forall|i: int| 0 <= i < v.folders.len() ==> folder_fits(#[trigger] v.folders[i])
    &&& forall|i: int| 0 <= i < v.secrets.len() ==> secret_fits(#[trigger] v.secrets[i])
}

/// ASCII text encodes one byte per character, so its byte length is its
/// character count; the fresh 36-character ids therefore always fit.
pub proof fn lemma_ascii_str_len(s: Seq<char>)
    requires
        vstd::utf8::is_ascii_chars(s),
    ensures
        encode_utf8(s).len() == s.len(),
{
    broadcast use vstd::utf8::is_ascii_chars_encode_utf8;

}

/// Appending a fitting secret keeps a vault view within the codec bounds,
/// as long as the secret count stays machine-sized.
pub proof fn lemma_view_fits_push_secret(v: VaultView, v2: VaultView, s: SecretView)
    requires
        view_fits(v),
        secret_fits(s),
        v2.folders == v.folders,
        v2.version == v.version,
        v2.secrets == v.secrets.push(s),
        v2.secrets.len() < 0x1_0000_0000_0000_0000,
    ensures
        view_fits(v2),
{
    assert forall|i: int| 0 <= i < v2.secrets.len() implies secret_fits(#[trigger] v2.secrets[i]) by {
        if i < v.secrets.len() {
            assert(v2.secrets[i] == v.secrets[i]);
        } else {
            assert(v2.secrets[i] == s);
        }
    }
}

/// Appending a fitting folder keeps a vault view within the codec bounds,
/// as long as the folder count stays machine-sized.
pub proof fn lemma_view_fits_push_folder(v: VaultView, v2: VaultView, f: FolderView)
    requires
        view_fits(v),
        folder_fits(f),
        v2.secrets == v.secrets,
        v2.version == v.version,
        v2.folders == v.folders.push(f),
        v2.folders.len() < 0x1_0000_0000_0000_0000,
    ensures
        view_fits(v2),
{
    assert forall|i: int| 0 <= i < v2.folders.len() implies folder_fits(#[trigger] v2.folders[i]) by {
        if i < v.folders.len() {
            assert(v2.folders[i] == v.folders[i]);
        } else {
            assert(v2.folders[i] == f);
        }
    }
}

pub open spec fn parse_u64(b: Seq<u8>, pos: int) -> Option<(u64, int)> {
    if 0 <= pos && pos + 8 <= b.len() {
        Some((spec_u64_from_le_bytes(b.subrange(pos, pos + 8)), pos + 8))
    } else {
        None
    }
}

pub open spec fn parse_str(b: Seq<u8>, pos: int) -> Option<(Seq<char>, int)> {
    match parse_u64(b, pos) {
        None => None,
        Some((n, p)) => if p + n <= b.len() {
            let bs = b.subrange(p, p + n);
            if valid_utf8(bs) {
                Some((decode_utf8(bs), p + n))
            } else {
                None
            }
        } else {
            None
        },
    }
}

pub open spec fn parse_i64(b: Seq<u8>, pos: int) -> Option<(i64, int)> {
    match parse_u64(b, pos) {
        None => None,
        Some((n, p)) => Some((n as i64, p)),
    }
}

pub open spec fn parse_folder(b: Seq<u8>, pos: int) -> Option<(FolderView, int)> {
    match parse_str(b, pos) {
        None => None,
        Some((id, p1)) => match parse_str(b, p1) {
            None => None,
            Some((name, p2)) => match parse_str(b, p2) {
                None => None,
                Some((icon, p3)) => match parse_i64(b, p3) {
                    None => None,
                    Some((order, p4)) => if -0x8000_0000 <= order < 0x8000_0000 {
                        Some((FolderView { id, name, icon, order: order as int }, p4))
                    } else {
                        None
                    },
                },
            },
        },
    }
}

pub open spec fn parse_folders(b: Seq<u8>, pos: int, n: nat) -> Option<(Seq<FolderView>, int)>
    decreases n,
{
    if n == 0 {
        Some((Seq::empty(), pos))
    } else {
        match parse_folder(b, pos) {
            None => None,
            Some((f, p)) => match parse_folders(b, p, (n - 1) as nat) {
                None => None,
                Some((fs, p2)) => Some((seq![f] + fs, p2)),
            },
        }
    }
}

pub open spec fn parse_secret(b: Seq<u8>, pos: int) -> Option<(SecretView, int)> {
    match parse_str(b, pos) {
        None => None,
        Some((id, p1)) => match parse_str(b, p1) {
            None => None,
            Some((name, p2)) => match parse_str(b, p2) {
                None => None,
                Some((key, p3)) => match parse_str(b, p3) {
                    None => None,
                    Some((value, p4)) => match parse_str(b, p4) {
                        None => None,
                        Some((notes, p5)) => match parse_str(b, p5) {
                            None => None,
                            Some((folder_id, p6)) => match parse_i64(b, p6) {
                                None => None,
                                Some((created, p7)) => match parse_i64(b, p7) {
                                    None => None,
                                    Some((updated, p8)) => Some((
                                        SecretView {
                                            id,
                                            name,
                                            key,
                                            value,
                                            notes,
                                            folder_id,
                                            created_at: created as int,
                                            updated_at: updated as int,
                                        },
                                        p8,
                                    )),
                                },
                            },
                        },
                    },
                },
            },
        },
    }
}

pub open spec fn parse_secrets(b: Seq<u8>, pos: int, n: nat) -> Option<(Seq<SecretView>, int)>
    decreases n,
{
    if n == 0 {
        Some((Seq::empty(), pos))
    } else {
        match parse_secret(b, pos) {
            None => None,
            Some((s, p)) => match parse_secrets(b, p, (n - 1) as nat) {
                None => None,
                Some((ss, p2)) => Some((seq![s] + ss, p2)),
            },
        }
    }
}

/// What a payload byte sequence means: the vault it parses to, if it parses
/// completely and in range.
pub open spec fn parse_vault(b: Seq<u8>) -> Option<VaultView> {
    match parse_u64(b, 0) {
        None => None,
        Some((version, p0)) => if version < 0x1_0000_0000 {
            match parse_u64(b, p0) {
                None => None,
                Some((nf, p1)) => match parse_folders(b, p1, nf as nat) {
                    None => None,
                    Some((fs, p2)) => match parse_u64(b, p2) {
                        None => None,
                        Some((ns, p3)) => match parse_secrets(b, p3, ns as nat) {
                            None => None,
                            Some((ss, p4)) => if p4 == b.len() {
                                Some(VaultView { version: version as int, folders: fs, secrets: ss })
                            } else {
                                None
                            },
                        },
                    },
                },
            }
        } else {
            None
        },
    }
}

/// Appending an element serializes as the serialization plus the element.
pub proof fn lemma_ser_folders_push(fs: Seq<FolderView>, f: FolderView)
    ensures
        ser_folders(fs.push(f)) == ser_folders(fs) + ser_folder(f),
    decreases fs.len(),
{
    reveal_with_fuel(ser_folders, 3);
    if fs.len() == 0 {
        assert(fs.push(f)[0] == f);
        assert(fs.push(f).drop_first() =~= Seq::<FolderView>::empty());
        assert(ser_folders(fs.push(f)) =~= ser_folder(f));
        assert(ser_folders(fs) + ser_folder(f) =~= ser_folder(f));
    } else {
        assert(fs.push(f).drop_first() =~= fs.drop_first().push(f));
        lemma_ser_folders_push(fs.drop_first(), f);
        assert(ser_folders(fs.push(f)) =~= ser_folders(fs) + ser_folder(f));
    }
}

pub proof fn lemma_ser_secrets_push(ss: Seq<SecretView>, s: SecretView)
    ensures
        ser_secrets(ss.push(s)) == ser_secrets(ss) + ser_secret(s),
    decreases ss.len(),
{
    reveal_with_fuel(ser_secrets, 3);
    if ss.len() == 0 {
        assert(ss.push(s)[0] == s);
        assert(ss.push(s).drop_first() =~= Seq::<SecretView>::empty());
        assert(ser_secrets(ss.push(s)) =~= ser_secret(s));
        assert(ser_secrets(ss) + ser_secret(s) =~= ser_secret(s));
    } else {
        assert(ss.push(s).drop_first() =~= ss.drop_first().push(s));
        lemma_ser_secrets_push(ss.drop_first(), s);
        assert(ser_secrets(ss.push(s)) =~= ser_secrets(ss) + ser_secret(s));
    }
}

pub(crate) proof fn lemma_extract(b: Seq<u8>, pos: int, whole: Seq<u8>, lo: int, hi: int)
    requires
        0 <= pos,
        pos + whole.len() <= b.len(),
        b.subrange(pos, pos + whole.len() as int) == whole,
        0 <= lo <= hi <= whole.len(),
    ensures
        b.subrange(pos + lo, pos + hi) == whole.subrange(lo, hi),
{
    assert forall|i: int| 0 <= i < hi - lo implies b.subrange(pos + lo, pos + hi)[i]
        == whole.subrange(lo, hi)[i] by {
        assert(b.subrange(pos, pos + whole.len() as int)[lo + i] == whole[lo + i]);
    }
    assert(b.subrange(pos + lo, pos + hi) =~= whole.subrange(lo, hi));
}

proof fn lemma_parse_u64_at(b: Seq<u8>, pos: int, n: u64)
    requires
        0 <= pos,
        pos + 8 <= b.len(),
        b.subrange(pos, pos + 8) == ser_u64(n),
    ensures
        parse_u64(b, pos) == Some((n, pos + 8)),
{
    lemma_auto_spec_u64_to_from_le_bytes();
}

proof fn lemma_parse_str_at(b: Seq<u8>, pos: int, s: Seq<char>)
    requires
        0 <= pos,
        str_fits(s),
        pos + ser_str(s).len() <= b.len(),
        b.subrange(pos, pos + ser_str(s).len()) == ser_str(s),
    ensures
        parse_str(b, pos) == Some((s, pos + ser_str(s).len())),
{
    lemma_auto_spec_u64_to_from_le_bytes();
    broadcast use vstd::utf8::encode_utf8_valid_utf8, vstd::utf8::encode_utf8_decode_utf8;

    let bs = encode_utf8(s);
    let len = bs.len() as u64;
    let whole = ser_str(s);
    lemma_extract(b, pos, whole, 0, 8);
    assert(whole.subrange(0, 8) =~= ser_u64(len));
    lemma_parse_u64_at(b, pos, len);
    lemma_extract(b, pos, whole, 8, whole.len() as int);
    assert(whole.subrange(8, whole.len() as int) =~= bs);
    assert(b.subrange(pos + 8, pos + 8 + bs.len() as int) == bs);
    assert(decode_utf8(bs) == s);
}

proof fn lemma_parse_i64_at(b: Seq<u8>, pos: int, x: i64)
    requires
        0 <= pos,
        pos + 8 <= b.len(),
        b.subrange(pos, pos + 8) == ser_i64(x),
    ensures
        parse_i64(b, pos) == Some((x, pos + 8)),
{
    lemma_parse_u64_at(b, pos, x as u64);
    assert((x as u64) as i64 == x) by (bit_vector);
}

proof fn lemma_parse_folder_at(b: Seq<u8>, pos: int, f: FolderView)
    requires
        0 <= pos,
        folder_fits(f),
        pos + ser_folder(f).len() <= b.len(),
        b.subrange(pos, pos + ser_folder(f).len()) == ser_folder(f),
    ensures
        parse_folder(b, pos) == Some((f, pos + ser_folder(f).len())),
{
    lemma_auto_spec_u64_to_from_le_bytes();
    let whole = ser_folder(f);
    let s1 = ser_str(f.id);
    let s2 = ser_str(f.name);
    let s3 = ser_str(f.icon);
    let o1 = s1.len() as int;
    let o2 = o1 + s2.len();
    let o3 = o2 + s3.len();
    let o4 = o3 + 8;
    lemma_extract(b, pos, whole, 0, o1);
    assert(whole.subrange(0, o1) =~= s1);
    lemma_parse_str_at(b, pos, f.id);
    lemma_extract(b, pos, whole, o1, o2);
    assert(whole.subrange(o1, o2) =~= s2);
    lemma_parse_str_at(b, pos + o1, f.name);
    lemma_extract(b, pos, whole, o2, o3);
    assert(whole.subrange(o2, o3) =~= s3);
    lemma_parse_str_at(b, pos + o2, f.icon);
    lemma_extract(b, pos, whole, o3, o4);
    assert(whole.subrange(o3, o4) =~= ser_i64(f.order as i64));
    lemma_parse_i64_at(b, pos + o3, f.order as i64);
    assert((f.order as i64) as int == f.order);
}

proof fn lemma_parse_secret_at(b: Seq<u8>, pos: int, s: SecretView)
    requires
        0 <= pos,
        secret_fits(s),
        pos + ser_secret(s).len() <= b.len(),
        b.subrange(pos, pos + ser_secret(s).len()) == ser_secret(s),
    ensures
        parse_secret(b, pos) == Some((s, pos + ser_secret(s).len())),
{
    lemma_auto_spec_u64_to_from_le_bytes();
    let whole = ser_secret(s);
    let t1 = ser_str(s.id);
    let t2 = ser_str(s.name);
    let t3 = ser_str(s.key);
    let t4 = ser_str(s.value);
    let t5 = ser_str(s.notes);
    let t6 = ser_str(s.folder_id);
    let o1 = t1.len() as int;
    let o2 = o1 + t2.len();
    let o3 = o2 + t3.len();
    let o4 = o3 + t4.len();
    let o5 = o4 + t5.len();
    let o6 = o5 + t6.len();
    let o7 = o6 + 8;
    let o8 = o7 + 8;
    lemma_extract(b, pos, whole, 0, o1);
    assert(whole.subrange(0, o1) =~= t1);
    lemma_parse_str_at(b, pos, s.id);
    lemma_extract(b, pos, whole, o1, o2);
    assert(whole.subrange(o1, o2) =~= t2);
    lemma_parse_str_at(b, pos + o1, s.name);
    lemma_extract(b, pos, whole, o2, o3);
    assert(whole.subrange(o2, o3) =~= t3);
    lemma_parse_str_at(b, pos + o2, s.key);
    lemma_extract(b, pos, whole, o3, o4);
    assert(whole.subrange(o3, o4) =~= t4);
    lemma_parse_str_at(b, pos + o3, s.value);
    lemma_extract(b, pos, whole, o4, o5);
    assert(whole.subrange(o4, o5) =~= t5);
    lemma_parse_str_at(b, pos + o4, s.notes);
    lemma_extract(b, pos, whole, o5, o6);
    assert(whole.subrange(o5, o6) =~= t6);
    lemma_parse_str_at(b, pos + o5, s.folder_id);
    lemma_extract(b, pos, whole, o6, o7);
    assert(whole.subrange(o6, o7) =~= ser_i64(s.created_at as i64));
    lemma_parse_i64_at(b, pos + o6, s.created_at as i64);
    lemma_extract(b, pos, whole, o7, o8);
    assert(whole.subrange(o7, o8) =~= ser_i64(s.updated_at as i64));
    lemma_parse_i64_at(b, pos + o7, s.updated_at as i64);
    assert((s.created_at as i64) as int == s.created_at);
    assert((s.updated_at as i64) as int == s.updated_at);
}

proof fn lemma_parse_folders_at(b: Seq<u8>, pos: int, fs: Seq<FolderView>)
    requires
        0 <= pos,
        forall|i: int| 0 <= i < fs.len() ==> folder_fits(#[trigger] fs[i]),
        pos + ser_folders(fs).len() <= b.len(),
        b.subrange(pos, pos + ser_folders(fs).len()) == ser_folders(fs),
    ensures
        parse_folders(b, pos, fs.len()) == Some((fs, pos + ser_folders(fs).len())),
    decreases fs.len(),
{
    if fs.len() == 0 {
        assert(fs =~= Seq::<FolderView>::empty());
    } else {
        let f = fs[0];
        let rest = fs.drop_first();
        let whole = ser_folders(fs);
        let flen = ser_folder(f).len() as int;
        let total = whole.len() as int;
        lemma_extract(b, pos, whole, 0, flen);
        assert(whole.subrange(0, flen) =~= ser_folder(f));
        lemma_parse_folder_at(b, pos, f);
        lemma_extract(b, pos, whole, flen, total);
        assert(whole.subrange(flen, total) =~= ser_folders(rest));
        lemma_parse_folders_at(b, pos + flen, rest);
        assert(seq![f] + rest =~= fs);
    }
}

proof fn lemma_parse_secrets_at(b: Seq<u8>, pos: int, ss: Seq<SecretView>)
    requires
        0 <= pos,
        forall|i: int| 0 <= i < ss.len() ==> secret_fits(#[trigger] ss[i]),
        pos + ser_secrets(ss).len() <= b.len(),
        b.subrange(pos, pos + ser_secrets(ss).len()) == ser_secrets(ss),
    ensures
        parse_secrets(b, pos, ss.len()) == Some((ss, pos + ser_secrets(ss).len())),
    decreases ss.len(),
{
    if ss.len() == 0 {
        assert(ss =~= Seq::<SecretView>::empty());
    } else {
        let s = ss[0];
        let rest = ss.drop_first();
        let whole = ser_secrets(ss);
        let slen = ser_secret(s).len() as int;
        let total = whole.len() as int;
        lemma_extract(b, pos, whole, 0, slen);
        assert(whole.subrange(0, slen) =~= ser_secret(s));
        lemma_parse_secret_at(b, pos, s);
        lemma_extract(b, pos, whole, slen, total);
        assert(whole.subrange(slen, total) =~= ser_secrets(rest));
        lemma_parse_secrets_at(b, pos + slen, rest);
        assert(seq![s] + rest =~= ss);
    }
}

/// Round trip: a serialized vault parses back to exactly that vault.
pub proof fn lemma_vault_round_trip(v: VaultView)
    requires
        view_fits(v),
    ensures
        parse_vault(ser_vault(v)) == Some(v),
{
    lemma_auto_spec_u64_to_from_le_bytes();
    let b = ser_vault(v);
    let bf = ser_folders(v.folders);
    let bs = ser_secrets(v.secrets);
    let p1: int = 16;
    let p2 = p1 + bf.len();
    let p3 = p2 + 8;
    let p4 = p3 + bs.len();
    assert(b.len() == p4);
    assert(b.subrange(0, b.len() as int) =~= b);
    lemma_extract(b, 0, b, 0, 8);
    assert(b.subrange(0, 8) =~= ser_u64(v.version as u64));
    lemma_parse_u64_at(b, 0, v.version as u64);
    assert((v.version as u64) < 0x1_0000_0000);
    lemma_extract(b, 0, b, 8, 16);
    assert(b.subrange(8, 16) =~= ser_u64(v.folders.len() as u64));
    lemma_parse_u64_at(b, 8, v.folders.len() as u64);
    lemma_extract(b, 0, b, p1, p2);
    assert(b.subrange(p1, p2) =~= bf);
    lemma_parse_folders_at(b, p1, v.folders);
    assert((v.folders.len() as u64) as nat == v.folders.len());
    lemma_extract(b, 0, b, p2, p3);
    assert(b.subrange(p2, p3) =~= ser_u64(v.secrets.len() as u64));
    lemma_parse_u64_at(b, p2, v.secrets.len() as u64);
    lemma_extract(b, 0, b, p3, p4);
    assert(b.subrange(p3, p4) =~= bs);
    lemma_parse_secrets_at(b, p3, v.secrets);
    assert((v.secrets.len() as u64) as nat == v.secrets.len());
    assert((v.version as u64) as int == v.version);
}

broadcast use {crate::views::lemma_vec_deep_view_len, crate::views::lemma_vec_deep_view_index};

pub(crate) fn push_bytes(out: &mut Vec<u8>, bs: &Vec<u8>)
    ensures
        final(out)@ == old(out)@ + bs@,
{
    let mut i: usize = 0;
    while i < bs.len()
        invariant
            i <= bs@.len(),
            out@ == old(out)@ + bs@.take(i as int),
        decreases bs@.len() - i,
    {
        out.push(bs[i]);
        i += 1;
        proof {
            assert(out@ =~= old(out)@ + bs@.take(i as int));
        }
    }
    proof {
        assert(out@ =~= old(out)@ + bs@);
    }
}

fn push_u64(out: &mut Vec<u8>, n: u64)
    ensures
        final(out)@ == old(out)@ + ser_u64(n),
{
    let b = u64_to_le_bytes(n);
    push_bytes(out, &b);
}

fn push_i64(out: &mut Vec<u8>, n: i64)
    ensures
        final(out)@ == old(out)@ + ser_i64(n),
{
    push_u64(out, #[verifier::truncate] (n as u64));
}

fn push_str(out: &mut Vec<u8>, s: &String)
    ensures
        final(out)@ == old(out)@ + ser_str(s@),
        str_fits(s@),
{
    let bs = s.as_str().as_bytes_vec();
    push_u64(out, bs.len() as u64);
    push_bytes(out, &bs);
    proof {
        assert(old(out)@ + ser_u64(bs@.len() as u64) + bs@ =~= old(out)@ + ser_str(s@));
    }
}

impl Vault {
    /// Serializes this vault into the payload bytes that get encrypted.
    #[verifier::spinoff_prover]
    #[verifier::rlimit(100)]
    pub fn to_bytes(&self) -> (r: Vec<u8>)
        ensures
            r@ == ser_vault(self.deep_view()),
            view_fits(self.deep_view()),
    {
        let ghost fsv = self.folders.deep_view();
        let ghost ssv = self.secrets.deep_view();
        let ghost head = ser_u64(self.version as u64) + ser_u64(self.folders@.len() as u64);
        let mut out: Vec<u8> = Vec::new();
        push_u64(&mut out, self.version as u64);
        push_u64(&mut out, self.folders.len() as u64);
        proof {
            assert(out@ =~= head + ser_folders(fsv.take(0)));
        }
        let mut i: usize = 0;
        while i < self.folders.len()
            invariant
                i <= self.folders@.len(),
                fsv == self.folders.deep_view(),
                head == ser_u64(self.version as u64) + ser_u64(self.folders@.len() as u64),
                out@ == head + ser_folders(fsv.take(i as int)),
                forall|m: int| 0 <= m < i ==> folder_fits(#[trigger] fsv[m]),
            decreases self.folders@.len() - i,
        {
            push_str(&mut out, &self.folders[i].id);
            push_str(&mut out, &self.folders[i].name);
            push_str(&mut out, &self.folders[i].icon);
            push_i64(&mut out, self.folders[i].order as i64);
            i += 1;
            proof {
                let prev = fsv.take((i - 1) as int);
                let fv = fsv[(i - 1) as int];
                assert(fv == self.folders@[(i - 1) as int].deep_view());
                assert(folder_fits(fv));
                lemma_ser_folders_push(prev, fv);
                assert(fsv.take(i as int) =~= prev.push(fv));
                assert(out@ =~= head + ser_folders(fsv.take(i as int)));
            }
        }
        proof {
            assert(fsv.take(fsv.len() as int) =~= fsv);
        }
        let ghost head2 = head + ser_folders(fsv) + ser_u64(self.secrets@.len() as u64);
        push_u64(&mut out, self.secrets.len() as u64);
        proof {
            assert(out@ =~= head2 + ser_secrets(ssv.take(0)));
        }
        let mut j: usize = 0;
        while j < self.secrets.len()
            invariant
                j <= self.secrets@.len(),
                ssv == self.secrets.deep_view(),
                head2 == head + ser_folders(fsv) + ser_u64(self.secrets@.len() as u64),
                out@ == head2 + ser_secrets(ssv.take(j as int)),
                forall|m: int| 0 <= m < j ==> secret_fits(#[trigger] ssv[m]),
            decreases self.secrets@.len() - j,
        {
            push_str(&mut out, &self.secrets[j].id);
            push_str(&mut out, &self.secrets[j].name);
            push_str(&mut out, &self.secrets[j].key);
            push_str(&mut out, &self.secrets[j].value);
            push_str(&mut out, &self.secrets[j].notes);
            push_str(&mut out, &self.secrets[j].folder_id);
            push_i64(&mut out, self.secrets[j].created_at);
            push_i64(&mut out, self.secrets[j].updated_at);
            j += 1;
            proof {
                let prev = ssv.take((j - 1) as int);
                let sv = ssv[(j - 1) as int];
                assert(sv == self.secrets@[(j - 1) as int].deep_view());
                assert(secret_fits(sv));
                lemma_ser_secrets_push(prev, sv);
                assert(ssv.take(j as int) =~= prev.push(sv));
                assert(out@ =~= head2 + ser_secrets(ssv.take(j as int)));
            }
        }
        proof {
            assert(ssv.take(ssv.len() as int) =~= ssv);
            assert(out@ =~= ser_vault(self.deep_view()));
        }
        out
    }
}

fn read_u64(b: &Vec<u8>, pos: usize) -> (r: Option<(u64, usize)>)
    requires
        pos <= b@.len(),
    ensures
        r is Some ==> parse_u64(b@, pos as int) == Some(((r->0).0, (r->0).1 as int)) && (r->0).1
            <= b@.len(),
        r is None ==> parse_u64(b@, pos as int) is None,
{
    if b.len() - pos >= 8 {
        let mut chunk: Vec<u8> = Vec::new();
        let mut i: usize = 0;
        while i < 8
            invariant
                i <= 8,
                pos + 8 <= b@.len(),
                b@.len() <= usize::MAX,
                chunk@ == b@.subrange(pos as int, pos as int + i as int),
            decreases 8 - i,
        {
            chunk.push(b[pos + i]);
            i += 1;
            proof {
                assert(chunk@ =~= b@.subrange(pos as int, pos as int + i as int));
            }
        }
        let n = u64_from_le_bytes(chunk.as_slice());
        proof {
            vstd::bytes::lemma_auto_spec_u64_to_from_le_bytes();
        }
        Some((n, pos + 8))
    } else {
        None
    }
}

fn read_str(b: &Vec<u8>, pos: usize) -> (r: Option<(String, usize)>)
    requires
        pos <= b@.len(),
    ensures
        r is Some ==> parse_str(b@, pos as int) == Some(((r->0).0@, (r->0).1 as int)) && (r->0).1
            <= b@.len(),
        r is None ==> parse_str(b@, pos as int) is None,
{
    proof {
        broadcast use vstd::utf8::encode_utf8_decode_utf8;

    }
    let (n, p) = match read_u64(b, pos) {
        Some(v) => v,
        None => {
            return None;
        },
    };
    let rem = b.len() - p;
    if n <= rem as u64 {
        let len = n as usize;
        let mut bs: Vec<u8> = Vec::new();
        let mut i: usize = 0;
        while i < len
            invariant
                i <= len,
                p + len <= b@.len(),
                b@.len() <= usize::MAX,
                bs@ == b@.subrange(p as int, p as int + i as int),
            decreases len - i,
        {
            bs.push(b[p + i]);
            i += 1;
            proof {
                assert(bs@ =~= b@.subrange(p as int, p as int + i as int));
            }
        }
        let ghost bseq = bs@;
        match string_from_utf8(bs) {
            Some(s) => Some((s, p + len)),
            None => None,
        }
    } else {
        None
    }
}

fn read_i64(b: &Vec<u8>, pos: usize) -> (r: Option<(i64, usize)>)
    requires
        pos <= b@.len(),
    ensures
        r is Some ==> parse_i64(b@, pos as int) == Some(((r->0).0, (r->0).1 as int)) && (r->0).1
            <= b@.len(),
        r is None ==> parse_i64(b@, pos as int) is None,
{
    match read_u64(b, pos) {
        Some((n, p)) => Some((#[verifier::truncate] (n as i64), p)),
        None => None,
    }
}

fn read_folder(b: &Vec<u8>, pos: usize) -> (r: Option<(Folder, usize)>)
    requires
        pos <= b@.len(),
    ensures
        r is Some ==> parse_folder(b@, pos as int) == Some(((r->0).0.deep_view(), (r->0).1 as int))
            && (r->0).1 <= b@.len(),
        r is None ==> parse_folder(b@, pos as int) is None,
{
    let (id, p1) = match read_str(b, pos) {
        Some(v) => v,
        None => {
            return None;
        },
    };
    let (name, p2) = match read_str(b, p1) {
        Some(v) => v,
        None => {
            return None;
        },
    };
    let (icon, p3) = match read_str(b, p2) {
        Some(v) => v,
        None => {
            return None;
        },
    };
    let (order, p4) = match read_i64(b, p3) {
        Some(v) => v,
        None => {
            return None;
        },
    };
    if -0x8000_0000i64 <= order && order < 0x8000_0000i64 {
        Some((Folder { id, name, icon, order: order as i32 }, p4))
    } else {
        None
    }
}

fn read_secret(b: &Vec<u8>, pos: usize) -> (r: Option<(Secret, usize)>)
    requires
        pos <= b@.len(),
    ensures
        r is Some ==> parse_secret(b@, pos as int) == Some(((r->0).0.deep_view(), (r->0).1 as int))
            && (r->0).1 <= b@.len(),
        r is None ==> parse_secret(b@, pos as int) is None,
{
    let (id, p1) = match read_str(b, pos) {
        Some(v) => v,
        None => {
            return None;
        },
    };
    let (name, p2) = match read_str(b, p1) {
        Some(v) => v,
        None => {
            return None;
        },
    };
    let (key, p3) = match read_str(b, p2) {
        Some(v) => v,
        None => {
            return None;
        },
    };
    let (value, p4) = match read_str(b, p3) {
        Some(v) => v,
        None => {
            return None;
        },
    };
    let (notes, p5) = match read_str(b, p4) {
        Some(v) => v,
        None => {
            return None;
        },
    };
    let (folder_id, p6) = match read_str(b, p5) {
        Some(v) => v,
        None => {
            return None;
        },
    };
    let (created_at, p7) = match read_i64(b, p6) {
        Some(v) => v,
        None => {
            return None;
        },
    };
    let (updated_at, p8) = match read_i64(b, p7) {
        Some(v) => v,
        None => {
            return None;
        },
    };
    Some((Secret { id, name, key, value, notes, folder_id, created_at, updated_at }, p8))
}

impl Vault {
    /// Parses payload bytes back into a vault; fails on anything that
    /// [`parse_vault`] rejects.
    #[verifier::rlimit(60)]
    #[verifier::loop_isolation(false)]
    pub fn from_bytes(b: &Vec<u8>) -> (r: Option<Vault>)
        ensures
            r is Some ==> parse_vault(b@) == Some((r->0).deep_view()),
            r is None ==> parse_vault(b@) is None,
    {
        let (version, p0) = match read_u64(b, 0) {
            Some(v) => v,
            None => {
                return None;
            },
        };
        if !(version < 0x1_0000_0000u64) {
            return None;
        }
        let (nf, p1) = match read_u64(b, p0) {
            Some(v) => v,
            None => {
                return None;
            },
        };
        let ghost whole_f = parse_folders(b@, p1 as int, nf as nat);
        let mut folders: Vec<Folder> = Vec::new();
        let mut pos: usize = p1;
        let mut k: u64 = 0;
        proof {
            if whole_f is Some {
                assert(folders.deep_view() + (whole_f->0).0 =~= (whole_f->0).0);
            }
        }
        while k < nf
            invariant
                k <= nf,
                pos <= b@.len(),
                whole_f == parse_folders(b@, p1 as int, nf as nat),
                whole_f == (match parse_folders(b@, pos as int, (nf - k) as nat) {
                    None => None::<(Seq<FolderView>, int)>,
                    Some((fs, p)) => Some((folders.deep_view() + fs, p)),
                }),
            decreases nf - k,
        {
            let (f, p2) = match read_folder(b, pos) {
                Some(v) => v,
                None => {
                    proof {
                        assert(parse_folders(b@, pos as int, (nf - k) as nat) is None);
                        assert(whole_f is None);
                    }
                    return None;
                },
            };
            let ghost old_folders = folders.deep_view();
            folders.push(f);
            proof {
                assert(folders.deep_view() =~= old_folders.push(f.deep_view()));
                match parse_folders(b@, p2 as int, (nf - k - 1) as nat) {
                    None => {},
                    Some((fs2, pp)) => {
                        assert(old_folders + (seq![f.deep_view()] + fs2) =~= folders.deep_view()
                            + fs2);
                    },
                }
            }
            pos = p2;
            k = k + 1;
        }
        proof {
            assert(folders.deep_view() + Seq::<FolderView>::empty() =~= folders.deep_view());
            assert(whole_f == Some((folders.deep_view(), pos as int)));
        }
        let (ns, p3) = match read_u64(b, pos) {
            Some(v) => v,
            None => {
                return None;
            },
        };
        let ghost whole_s = parse_secrets(b@, p3 as int, ns as nat);
        let mut secrets: Vec<Secret> = Vec::new();
        let mut spos: usize = p3;
        let mut m: u64 = 0;
        proof {
            if whole_s is Some {
                assert(secrets.deep_view() + (whole_s->0).0 =~= (whole_s->0).0);
            }
        }
        while m < ns
            invariant
                m <= ns,
                spos <= b@.len(),
                whole_s == parse_secrets(b@, p3 as int, ns as nat),
                whole_s == (match parse_secrets(b@, spos as int, (ns - m) as nat) {
                    None => None::<(Seq<SecretView>, int)>,
                    Some((ss, p)) => Some((secrets.deep_view() + ss, p)),
                }),
            decreases ns - m,
        {
            let (sct, p4) = match read_secret(b, spos) {
                Some(v) => v,
                None => {
                    proof {
                        assert(parse_secrets(b@, spos as int, (ns - m) as nat) is None);
                        assert(whole_s is None);
                    }
                    return None;
                },
            };
            let ghost old_secrets = secrets.deep_view();
            secrets.push(sct);
            proof {
                assert(secrets.deep_view() =~= old_secrets.push(sct.deep_view()));
                match parse_secrets(b@, p4 as int, (ns - m - 1) as nat) {
                    None => {},
                    Some((ss2, pp)) => {
                        assert(old_secrets + (seq![sct.deep_view()] + ss2) =~= secrets.deep_view()
                            + ss2);
                    },
                }
            }
            spos = p4;
            m = m + 1;
        }
        proof {
            assert(secrets.deep_view() + Seq::<SecretView>::empty() =~= secrets.deep_view());
            assert(whole_s == Some((secrets.deep_view(), spos as int)));
        }
        if spos != b.len() {
            return None;
        }
        let v = Vault { folders, secrets, version: version as u32 };
        proof {
            assert((version as u32) as int == version as int);
            assert(v.deep_view() == (VaultView {
                version: version as int,
                folders: v.folders.deep_view(),
                secrets: v.secrets.deep_view(),
            }));
            assert(parse_vault(b@) == Some(v.deep_view()));
        }
        Some(v)
    }
}

} // verus!
