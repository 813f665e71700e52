//! The in-memory vault: folders, secrets, and the mutations a caller may
//! apply between unlocking and saving.
//!
//! Timestamps are UTC instants in milliseconds since the Unix epoch; the
//! embedding application supplies the current instant. Folder `order`
//! values are a dense `0..n` display ordering, re-contiguated whenever a
//! folder is deleted.

use vstd::prelude::*;

verus! {

use crate::crypto::new_uuid;

#[derive(Debug, PartialEq)]
pub struct Folder {
    pub id: String,
    pub name: String,
    pub icon: String,
    pub order: i32,
}

#[derive(Debug, PartialEq)]
pub struct Secret {
    pub id: String,
    pub name: String,
    pub key: String,
    pub value: String,
    pub notes: String,
    pub folder_id: String,
    pub created_at: i64,
    pub updated_at: i64,
}

#[derive(Debug, PartialEq)]
pub struct Vault {
    pub folders: Vec<Folder>,
    pub secrets: Vec<Secret>,
    pub version: u32,
}

#[verifier::ext_equal]
pub ghost struct FolderView {
    pub id: Seq<char>,
    pub name: Seq<char>,
    pub icon: Seq<char>,
    pub order: int,
}

#[verifier::ext_equal]
pub ghost struct SecretView {
    pub id: Seq<char>,
    pub name: Seq<char>,
    pub key: Seq<char>,
    pub value: Seq<char>,
    pub notes: Seq<char>,
    pub folder_id: Seq<char>,
    pub created_at: int,
    pub updated_at: int,
}

#[verifier::ext_equal]
pub ghost struct VaultView {
    pub version: int,
    pub folders: Seq<FolderView>,
    pub secrets: Seq<SecretView>,
}

impl DeepView for Folder {
    type V = FolderView;

    open spec fn deep_view(&self) -> FolderView {
        FolderView { id: self.id@, name: self.name@, icon: self.icon@, order: self.order as int }
    }
}

impl DeepView for Secret {
    type V = SecretView;

    open spec fn deep_view(&self) -> SecretView {
        SecretView {
            id: self.id@,
            name: self.name@,
            key: self.key@,
            value: self.value@,
            notes: self.notes@,
            folder_id: self.folder_id@,
            created_at: self.created_at as int,
            updated_at: self.updated_at as int,
        }
    }
}

impl DeepView for Vault {
    type V = VaultView;

    open spec fn deep_view(&self) -> VaultView {
        VaultView {
            version: self.version as int,
            folders: self.folders.deep_view(),
            secrets: self.secrets.deep_view(),
        }
    }
}

impl Clone for Folder {
    fn clone(&self) -> (r: Self)
        ensures
            r == *self,
    {
        Folder {
            id: self.id.clone(),
            name: self.name.clone(),
            icon: self.icon.clone(),
            order: self.order,
        }
    }
}

impl Clone for Secret {
    fn clone(&self) -> (r: Self)
        ensures
            r == *self,
    {
        Secret {
            id: self.id.clone(),
            name: self.name.clone(),
            key: self.key.clone(),
            value: self.value.clone(),
            notes: self.notes.clone(),
            folder_id: self.folder_id.clone(),
            created_at: self.created_at,
            updated_at: self.updated_at,
        }
    }
}

impl Clone for Vault {
    fn clone(&self) -> (r: Self)
        ensures
            r.folders@ == self.folders@,
            r.secrets@ == self.secrets@,
            r.version == self.version,
            r.deep_view() == self.deep_view(),
    {
        let mut folders: Vec<Folder> = Vec::new();
        let mut i: usize = 0;
        while i < self.folders.len()
            invariant
                i <= self.folders@.len(),
                folders@ =~= self.folders@.take(i as int),
            decreases self.folders@.len() - i,
        {
            folders.push(self.folders[i].clone());
            i += 1;
        }
        let mut secrets: Vec<Secret> = Vec::new();
        let mut j: usize = 0;
        while j < self.secrets.len()
            invariant
                j <= self.secrets@.len(),
                secrets@ =~= self.secrets@.take(j as int),
            decreases self.secrets@.len() - j,
        {
            secrets.push(self.secrets[j].clone());
            j += 1;
        }
        proof {
            assert(folders@ =~= self.folders@);
            assert(secrets@ =~= self.secrets@);
        }
        Vault { folders, secrets, version: self.version }
    }
}

broadcast use {crate::views::lemma_vec_deep_view_len, crate::views::lemma_vec_deep_view_index};

/// The same folder with its `order` replaced.
pub open spec fn folder_with_order(f: FolderView, o: int) -> FolderView {
    FolderView { id: f.id, name: f.name, icon: f.icon, order: o }
}

/// The same secret moved to another folder.
pub open spec fn secret_in_folder(s: SecretView, folder_id: Seq<char>) -> SecretView {
    SecretView {
        id: s.id,
        name: s.name,
        key: s.key,
        value: s.value,
        notes: s.notes,
        folder_id,
        created_at: s.created_at,
        updated_at: s.updated_at,
    }
}

/// Keeps the folders that do not carry the deleted id.
pub open spec fn keeps_folder(id: Seq<char>) -> spec_fn(FolderView) -> bool {
    |f: FolderView| f.id != id
}

/// Keeps the secrets that do not carry the deleted id.
pub open spec fn keeps_secret(id: Seq<char>) -> spec_fn(SecretView) -> bool {
    |s: SecretView| s.id != id
}

/// Sends a secret of the deleted folder to the fallback folder and leaves
/// every other secret alone.
pub open spec fn moved_secret(id: Seq<char>, fallback: Seq<char>) -> spec_fn(SecretView) -> SecretView {
    |s: SecretView|
        if s.folder_id == id {
            secret_in_folder(s, fallback)
        } else {
            s
        }
}

/// Folders renumbered to the dense display ordering `0..n`, keeping their
/// relative order.
pub open spec fn reindexed(fs: Seq<FolderView>) -> Seq<FolderView> {
    Seq::new(fs.len(), |i: int| folder_with_order(fs[i], i))
}

/// `j` is the first folder whose id differs from `id`: the fallback that
/// adopts the deleted folder's secrets.
pub open spec fn is_first_other_folder(fs: Seq<FolderView>, id: Seq<char>, j: int) -> bool {
    &&& 0 <= j < fs.len()
    &&& fs[j].id != id
    &&& forall|k: int| 0 <= k < j ==> #[trigger] fs[k].id == id
}

/// The vault after deleting folder `id`, with `fs[j]` as the fallback: the
/// folder's secrets move there, the folder goes, the rest are renumbered.
pub open spec fn delete_folder_spec(v: VaultView, id: Seq<char>, j: int) -> VaultView {
    VaultView {
        version: v.version,
        folders: reindexed(v.folders.filter(keeps_folder(id))),
        secrets: v.secrets.map_values(moved_secret(id, v.folders[j].id)),
    }
}

/// The fresh vault that [`Vault::new`] (and `create`) builds: version 1,
/// the two seed folders in display order, no secrets.
pub open spec fn default_vault_shape(v: VaultView) -> bool {
    &&& v.version == 1
    &&& v.secrets.len() == 0
    &&& v.folders.len() == 2
    &&& v.folders[0].name == "Personal"@
    &&& v.folders[0].icon == "person"@
    &&& v.folders[0].order == 0
    &&& v.folders[1].name == "Work"@
    &&& v.folders[1].icon == "briefcase"@
    &&& v.folders[1].order == 1
}

impl Vault {
    /// A fresh default vault: the two seed folders and no secrets.
    pub fn new() -> (r: Vault)
        ensures
            default_vault_shape(r.deep_view()),
            r.deep_view().secrets =~= Seq::<SecretView>::empty(),
            r.deep_view().folders[0].id.len() == 36,
            r.deep_view().folders[1].id.len() == 36,
            vstd::utf8::is_ascii_chars(r.deep_view().folders[0].id),
            vstd::utf8::is_ascii_chars(r.deep_view().folders[1].id),
    {
        let personal = Folder {
            id: new_uuid(),
            name: "Personal".to_owned(),
            icon: "person".to_owned(),
            order: 0,
        };
        let work = Folder {
            id: new_uuid(),
            name: "Work".to_owned(),
            icon: "briefcase".to_owned(),
            order: 1,
        };
        let mut folders: Vec<Folder> = Vec::new();
        folders.push(personal);
        folders.push(work);
        let r = Vault { folders, secrets: Vec::new(), version: 1 };
        proof {
            assert(r.deep_view().secrets =~= Seq::<SecretView>::empty());
        }
        r
    }

    /// Appends a new folder at the end of the display order.
    pub fn add_folder(&mut self, name: String, icon: String) -> (r: Folder)
        requires
            old(self).folders@.len() < 0x7fff_ffff,
        ensures
            final(self).deep_view().folders =~= old(self).deep_view().folders.push(r.deep_view()),
            final(self).deep_view().secrets == old(self).deep_view().secrets,
            final(self).deep_view().version == old(self).deep_view().version,
            r.deep_view().name == name@,
            r.deep_view().icon == icon@,
            r.deep_view().order == old(self).deep_view().folders.len(),
            r.deep_view().id.len() == 36,
            vstd::utf8::is_ascii_chars(r.deep_view().id),
    {
        let order = self.folders.len() as i32;
        let folder = Folder { id: new_uuid(), name, icon, order };
        let copy = folder.clone();
        self.folders.push(folder);
        proof {
            assert(self.deep_view().folders =~= old(self).deep_view().folders.push(
                copy.deep_view(),
            ));
        }
        copy
    }

    /// Renames a folder (and its icon), keeping id and order; returns the
    /// updated folder, or nothing when no folder has the id.
    pub fn update_folder(&mut self, id: &String, name: String, icon: String) -> (r: Option<Folder>)
        ensures
            r is None <==> (forall|k: int|
                0 <= k < old(self).deep_view().folders.len()
                    ==> #[trigger] old(self).deep_view().folders[k].id != id@),
            r is None ==> final(self).deep_view() == old(self).deep_view(),
            r is Some ==> exists|j: int|
                {
                    &&& 0 <= j < old(self).deep_view().folders.len()
                    &&& #[trigger] old(self).deep_view().folders[j].id == id@
                    &&& (forall|k: int|
                        0 <= k < j ==> #[trigger] old(self).deep_view().folders[k].id != id@)
                    &&& final(self).deep_view().folders =~= old(self).deep_view().folders.update(
                        j,
                        r->0.deep_view(),
                    )
                    &&& r->0.deep_view() == (FolderView {
                        name: name@,
                        icon: icon@,
                        ..old(self).deep_view().folders[j]
                    })
                },
            final(self).deep_view().secrets == old(self).deep_view().secrets,
            final(self).deep_view().version == old(self).deep_view().version,
    {
        let ghost old_folders = self.deep_view().folders;
        let mut i: usize = 0;
        while i < self.folders.len()
            invariant
                i <= self.folders@.len(),
                old_folders == old(self).deep_view().folders,
                forall|k: int| 0 <= k < i ==> #[trigger] self.folders.deep_view()[k].id != id@,
                *self == *old(self),
            decreases self.folders@.len() - i,
        {
            if self.folders[i].id == *id {
                let updated = Folder {
                    id: self.folders[i].id.clone(),
                    name,
                    icon,
                    order: self.folders[i].order,
                };
                let copy = updated.clone();
                let mut folders: Vec<Folder> = Vec::new();
                let mut k: usize = 0;
                while k < self.folders.len()
                    invariant
                        k <= self.folders@.len(),
                        i < self.folders@.len(),
                        folders@.len() == k,
                        forall|m: int|
                            0 <= m < k && m != i ==> (#[trigger] folders@[m].deep_view())
                                == old_folders[m],
                        k > i ==> folders@[i as int].deep_view() == updated.deep_view(),
                        old_folders == old(self).deep_view().folders,
                        old_folders == self.folders.deep_view(),
                        updated.deep_view() == (FolderView {
                            name: name@,
                            icon: icon@,
                            ..old_folders[i as int]
                        }),
                        *self == *old(self),
                    decreases self.folders@.len() - k,
                {
                    if k == i {
                        folders.push(updated.clone());
                    } else {
                        folders.push(self.folders[k].clone());
                    }
                    k += 1;
                    proof {
                        assert forall|m: int| 0 <= m < k && m != i implies (#[trigger] folders@[m].deep_view()) == old_folders[m] by {
                            assert(self.folders.deep_view()[m] == self.folders@[m].deep_view());
                        }
                    }
                }
                proof {
                    assert(i < old_folders.len());
                    assert(old(self).deep_view().folders[i as int].id == id@);
                    assert(folders.deep_view() =~= old_folders.update(i as int, copy.deep_view()));
                }
                self.folders = folders;
                return Some(copy);
            }
            i += 1;
        }
        None
    }

    /// Deletes folder `id`: refuses to remove the last folder (or when no
    /// other folder exists to adopt the secrets); otherwise moves the
    /// folder's secrets to the first other folder, removes it, and
    /// renumbers the rest densely.
    pub fn delete_folder(&mut self, id: &String) -> (r: bool)
        requires
            old(self).folders@.len() <= 0x7fff_ffff,
        ensures
            r <==> (old(self).deep_view().folders.len() > 1 && exists|j: int|
                is_first_other_folder(old(self).deep_view().folders, id@, j)),
            !r ==> final(self).deep_view() == old(self).deep_view(),
            r ==> exists|j: int|
                {
                    &&& is_first_other_folder(old(self).deep_view().folders, id@, j)
                    &&& final(self).deep_view() == delete_folder_spec(old(self).deep_view(), id@, j)
                },
    {
        if self.folders.len() <= 1 {
            return false;
        }
        let ghost old_view = self.deep_view();
        // Find the fallback folder that adopts the deleted folder's secrets.
        let mut fb: usize = 0;
        while fb < self.folders.len() && self.folders[fb].id == *id
            invariant
                fb <= self.folders@.len(),
                forall|k: int| 0 <= k < fb ==> #[trigger] old_view.folders[k].id == id@,
                *self == *old(self),
                old_view == old(self).deep_view(),
                self.folders@.len() > 1,
            decreases self.folders@.len() - fb,
        {
            proof {
                assert(old_view.folders[fb as int].id == self.folders@[fb as int].id@);
            }
            fb += 1;
        }
        if fb >= self.folders.len() {
            proof {
                assert forall|j: int| !is_first_other_folder(old_view.folders, id@, j) by {
                    if 0 <= j < old_view.folders.len() {
                        assert(old_view.folders[j].id == id@);
                    }
                }
            }
            return false;
        }
        let ghost j = fb as int;
        proof {
            assert(old_view.folders[j].id == self.folders@[fb as int].id@);
            assert(is_first_other_folder(old_view.folders, id@, j));
        }
        let fallback_id = self.folders[fb].id.clone();
        // Move the deleted folder's secrets to the fallback folder.
        let mut secrets: Vec<Secret> = Vec::new();
        let mut s: usize = 0;
        while s < self.secrets.len()
            invariant
                s <= self.secrets@.len(),
                0 <= j < old_view.folders.len(),
                fallback_id@ == old_view.folders[j].id,
                old_view == old(self).deep_view(),
                secrets@.len() == s,
                forall|m: int|
                    0 <= m < s ==> (#[trigger] secrets@[m].deep_view()) == moved_secret(
                        id@,
                        old_view.folders[j].id,
                    )(old_view.secrets[m]),
                *self == *old(self),
            decreases self.secrets@.len() - s,
        {
            let mut copy = self.secrets[s].clone();
            if copy.folder_id == *id {
                copy.folder_id = fallback_id.clone();
            }
            secrets.push(copy);
            s += 1;
            proof {
                assert(old_view.secrets[s - 1] == self.secrets@[s - 1].deep_view());
            }
        }
        // Drop the folder and renumber the remaining ones densely.
        let mut folders: Vec<Folder> = Vec::new();
        let mut f: usize = 0;
        while f < self.folders.len()
            invariant
                f <= self.folders@.len(),
                folders@.len() <= f,
                self.folders@.len() <= 0x7fff_ffff,
                old_view == old(self).deep_view(),
                folders@.len() == old_view.folders.take(f as int).filter(keeps_folder(id@)).len(),
                forall|m: int|
                    0 <= m < folders@.len() ==> (#[trigger] folders@[m].deep_view())
                        == folder_with_order(
                        old_view.folders.take(f as int).filter(keeps_folder(id@))[m],
                        m,
                    ),
                *self == *old(self),
            decreases self.folders@.len() - f,
        {
            let ghost prefix = old_view.folders.take(f as int);
            if !(self.folders[f].id == *id) {
                let mut kept = self.folders[f].clone();
                kept.order = folders.len() as i32;
                folders.push(kept);
            }
            f += 1;
            proof {
                reveal_with_fuel(Seq::<_>::filter, 2);
                let pred = keeps_folder(id@);
                let prefix2 = old_view.folders.take(f as int);
                assert(prefix2.drop_last() =~= prefix);
                assert(prefix2.drop_last() == prefix);
                assert(prefix2.last() == old_view.folders[f - 1]);
                assert(old_view.folders[f - 1] == self.folders@[f - 1].deep_view());
                let kept1 = prefix.filter(pred);
                let kept2 = prefix2.filter(pred);
                if old_view.folders[f - 1].id != id@ {
                    assert(kept2 == kept1.push(old_view.folders[f - 1]));
                } else {
                    assert(kept2 == kept1);
                }
            }
        }
        proof {
            assert(old_view.folders.take(old_view.folders.len() as int) =~= old_view.folders);
            assert(old_view.secrets.take(old_view.secrets.len() as int) =~= old_view.secrets);
        }
        self.folders = folders;
        self.secrets = secrets;
        proof {
            let spec_v = delete_folder_spec(old_view, id@, j);
            assert forall|m: int| 0 <= m < self.secrets@.len() implies (#[trigger] self.secrets.deep_view()[m]) == spec_v.secrets[m] by {
                assert(self.secrets.deep_view()[m] == self.secrets@[m].deep_view());
                assert(spec_v.secrets[m] == moved_secret(id@, old_view.folders[j].id)(old_view.secrets[m]));
            }
            assert forall|m: int| 0 <= m < self.folders@.len() implies (#[trigger] self.folders.deep_view()[m]) == spec_v.folders[m] by {
                assert(self.folders.deep_view()[m] == self.folders@[m].deep_view());
                assert(spec_v.folders[m] == folder_with_order(old_view.folders.filter(keeps_folder(id@))[m], m));
            }
            assert(self.deep_view().folders =~= spec_v.folders);
            assert(self.deep_view().secrets =~= spec_v.secrets);
            assert(self.deep_view() == spec_v);
        }
        true
    }

    /// Adds a secret to folder `folder_id` with both timestamps set to
    /// `now`; fails when no folder has that id.
    pub fn add_secret(
        &mut self,
        name: String,
        key: String,
        value: String,
        notes: String,
        folder_id: String,
        now: i64,
    ) -> (r: Option<Secret>)
        ensures
            r is Some <==> exists|j: int|
                0 <= j < old(self).deep_view().folders.len() && (#[trigger] old(
                    self,
                ).deep_view().folders[j]).id == folder_id@,
            r is None ==> final(self).deep_view() == old(self).deep_view(),
            r is Some ==> {
                &&& final(self).deep_view().secrets =~= old(self).deep_view().secrets.push(
                    r->0.deep_view(),
                )
                &&& final(self).deep_view().folders == old(self).deep_view().folders
                &&& final(self).deep_view().version == old(self).deep_view().version
                &&& r->0.deep_view().name == name@
                &&& r->0.deep_view().key == key@
                &&& r->0.deep_view().value == value@
                &&& r->0.deep_view().notes == notes@
                &&& r->0.deep_view().folder_id == folder_id@
                &&& r->0.deep_view().created_at == now as int
                &&& r->0.deep_view().updated_at == now as int
                &&& r->0.deep_view().id.len() == 36
                &&& vstd::utf8::is_ascii_chars(r->0.deep_view().id)
            },
    {
        let mut found = false;
        let mut i: usize = 0;
        while i < self.folders.len()
            invariant
                i <= self.folders@.len(),
                found <==> exists|j: int|
                    0 <= j < i && (#[trigger] old(self).deep_view().folders[j]).id == folder_id@,
                *self == *old(self),
            decreases self.folders@.len() - i,
        {
            if self.folders[i].id == folder_id {
                found = true;
            }
            i += 1;
            proof {
                assert(old(self).deep_view().folders[i - 1] == self.folders@[i - 1].deep_view());
            }
        }
        proof {
            assert forall|j: int| 0 <= j < old(self).deep_view().folders.len() implies (#[trigger] old(
                self,
            ).deep_view().folders[j]) == self.folders.deep_view()[j] by {}
        }
        if !found {
            return None;
        }
        let secret = Secret {
            id: new_uuid(),
            name,
            key,
            value,
            notes,
            folder_id,
            created_at: now,
            updated_at: now,
        };
        let copy = secret.clone();
        self.secrets.push(secret);
        proof {
            assert(self.deep_view().secrets =~= old(self).deep_view().secrets.push(
                copy.deep_view(),
            ));
        }
        Some(copy)
    }

    /// Rewrites every field of secret `id` except its identity and creation
    /// time, stamping `now` as the update time; returns the updated secret,
    /// or nothing when no secret has the id.
    pub fn update_secret(
        &mut self,
        id: &String,
        name: String,
        key: String,
        value: String,
        notes: String,
        folder_id: String,
        now: i64,
    ) -> (r: Option<Secret>)
        ensures
            r is None <==> (forall|k: int|
                0 <= k < old(self).deep_view().secrets.len()
                    ==> #[trigger] old(self).deep_view().secrets[k].id != id@),
            r is None ==> final(self).deep_view() == old(self).deep_view(),
            r is Some ==> exists|j: int|
                {
                    &&& 0 <= j < old(self).deep_view().secrets.len()
                    &&& #[trigger] old(self).deep_view().secrets[j].id == id@
                    &&& (forall|k: int|
                        0 <= k < j ==> #[trigger] old(self).deep_view().secrets[k].id != id@)
                    &&& final(self).deep_view().secrets =~= old(self).deep_view().secrets.update(
                        j,
                        r->0.deep_view(),
                    )
                    &&& r->0.deep_view() == (SecretView {
                        name: name@,
                        key: key@,
                        value: value@,
                        notes: notes@,
                        folder_id: folder_id@,
                        updated_at: now as int,
                        ..old(self).deep_view().secrets[j]
                    })
                },
            final(self).deep_view().folders == old(self).deep_view().folders,
            final(self).deep_view().version == old(self).deep_view().version,
    {
        let ghost old_secrets = self.deep_view().secrets;
        let mut i: usize = 0;
        while i < self.secrets.len()
            invariant
                i <= self.secrets@.len(),
                old_secrets == old(self).deep_view().secrets,
                forall|k: int| 0 <= k < i ==> #[trigger] self.secrets.deep_view()[k].id != id@,
                *self == *old(self),
            decreases self.secrets@.len() - i,
        {
            if self.secrets[i].id == *id {
                let updated = Secret {
                    id: self.secrets[i].id.clone(),
                    name,
                    key,
                    value,
                    notes,
                    folder_id,
                    created_at: self.secrets[i].created_at,
                    updated_at: now,
                };
                let copy = updated.clone();
                let mut secrets: Vec<Secret> = Vec::new();
                let mut k: usize = 0;
                while k < self.secrets.len()
                    invariant
                        k <= self.secrets@.len(),
                        i < self.secrets@.len(),
                        secrets@.len() == k,
                        forall|m: int|
                            0 <= m < k && m != i ==> (#[trigger] secrets@[m].deep_view())
                                == old_secrets[m],
                        k > i ==> secrets@[i as int].deep_view() == updated.deep_view(),
                        old_secrets == old(self).deep_view().secrets,
                        old_secrets == self.secrets.deep_view(),
                        updated.deep_view() == (SecretView {
                            name: name@,
                            key: key@,
                            value: value@,
                            notes: notes@,
                            folder_id: folder_id@,
                            updated_at: now as int,
                            ..old_secrets[i as int]
                        }),
                        *self == *old(self),
                    decreases self.secrets@.len() - k,
                {
                    if k == i {
                        secrets.push(updated.clone());
                    } else {
                        secrets.push(self.secrets[k].clone());
                    }
                    k += 1;
                    proof {
                        assert forall|m: int| 0 <= m < k && m != i implies (#[trigger] secrets@[m].deep_view()) == old_secrets[m] by {
                            assert(self.secrets.deep_view()[m] == self.secrets@[m].deep_view());
                        }
                    }
                }
                proof {
                    assert(i < old_secrets.len());
                    assert(old(self).deep_view().secrets[i as int].id == id@);
                    assert(secrets.deep_view() =~= old_secrets.update(i as int, copy.deep_view()));
                }
                self.secrets = secrets;
                return Some(copy);
            }
            i += 1;
        }
        None
    }

    /// Removes every secret whose id is `id` (a no-op when none matches).
    pub fn delete_secret(&mut self, id: &String)
        ensures
            final(self).deep_view().secrets =~= old(self).deep_view().secrets.filter(
                keeps_secret(id@),
            ),
            final(self).deep_view().folders == old(self).deep_view().folders,
            final(self).deep_view().version == old(self).deep_view().version,
    {
        let ghost old_view = self.deep_view();
        let mut secrets: Vec<Secret> = Vec::new();
        let mut i: usize = 0;
        while i < self.secrets.len()
            invariant
                i <= self.secrets@.len(),
                old_view == old(self).deep_view(),
                secrets.deep_view() =~= old_view.secrets.take(i as int).filter(keeps_secret(id@)),
                *self == *old(self),
            decreases self.secrets@.len() - i,
        {
            let ghost prefix = old_view.secrets.take(i as int);
            if !(self.secrets[i].id == *id) {
                secrets.push(self.secrets[i].clone());
            }
            i += 1;
            proof {
                reveal_with_fuel(Seq::filter, 2);
                let prefix2 = old_view.secrets.take(i as int);
                assert(prefix2.drop_last() =~= prefix);
                assert(prefix2.last() == old_view.secrets[i - 1]);
                assert(secrets.deep_view() =~= prefix2.filter(keeps_secret(id@)));
            }
        }
        proof {
            assert(old_view.secrets.take(old_view.secrets.len() as int) =~= old_view.secrets);
        }
        self.secrets = secrets;
    }
}

impl Default for Vault {
    /// The same fresh vault that [`Vault::new`] builds.
    fn default() -> (r: Vault)
        ensures
            default_vault_shape(r.deep_view()),
            r.deep_view().secrets =~= Seq::<SecretView>::empty(),
            r.deep_view().folders[0].id.len() == 36,
            r.deep_view().folders[1].id.len() == 36,
            vstd::utf8::is_ascii_chars(r.deep_view().folders[0].id),
            vstd::utf8::is_ascii_chars(r.deep_view().folders[1].id),
    {
        Vault::new()
    }
}

} // verus!
