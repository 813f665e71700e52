use passlocal::vault::Vault;

#[test]
fn new_vault_has_the_two_seed_folders() {
    let v = Vault::new();
    assert_eq!(v.version, 1);
    assert_eq!(v.secrets.len(), 0);
    assert_eq!(v.folders.len(), 2);
    assert_eq!(v.folders[0].name, "Personal");
    assert_eq!(v.folders[0].icon, "person");
    assert_eq!(v.folders[0].order, 0);
    assert_eq!(v.folders[1].name, "Work");
    assert_eq!(v.folders[1].icon, "briefcase");
    assert_eq!(v.folders[1].order, 1);
    assert_ne!(v.folders[0].id, v.folders[1].id);
}

#[test]
fn add_folder_appends_with_next_order() {
    let mut v = Vault::new();
    let f = v.add_folder("Banking".to_string(), "bank".to_string());
    assert_eq!(f.order, 2);
    assert_eq!(v.folders.len(), 3);
    assert_eq!(v.folders[2], f);
}

#[test]
fn update_folder_changes_name_and_icon_only() {
    let mut v = Vault::new();
    let id = v.folders[0].id.clone();
    let updated = v
        .update_folder(&id, "Private".to_string(), "lock".to_string())
        .expect("folder exists");
    assert_eq!(updated.id, id);
    assert_eq!(updated.name, "Private");
    assert_eq!(updated.icon, "lock");
    assert_eq!(updated.order, 0);
    assert_eq!(v.folders[0], updated);
    assert!(v
        .update_folder(&"missing".to_string(), "x".to_string(), "y".to_string())
        .is_none());
}

#[test]
fn add_secret_requires_existing_folder() {
    let mut v = Vault::new();
    let folder_id = v.folders[0].id.clone();
    let s = v
        .add_secret(
            "mail".to_string(),
            "user".to_string(),
            "pw123".to_string(),
            "notes".to_string(),
            folder_id.clone(),
            1_700_000_000_000,
        )
        .expect("folder exists");
    assert_eq!(s.folder_id, folder_id);
    assert_eq!(s.created_at, 1_700_000_000_000);
    assert_eq!(s.updated_at, 1_700_000_000_000);
    assert_eq!(v.secrets.len(), 1);
    assert_eq!(v.secrets[0], s);

    assert!(v
        .add_secret(
            "x".to_string(),
            "".to_string(),
            "".to_string(),
            "".to_string(),
            "no-such-folder".to_string(),
            0,
        )
        .is_none());
    assert_eq!(v.secrets.len(), 1);
}

#[test]
fn update_secret_keeps_identity_and_creation_time() {
    let mut v = Vault::new();
    let folder_id = v.folders[0].id.clone();
    let s = v
        .add_secret(
            "mail".to_string(),
            "user".to_string(),
            "pw123".to_string(),
            "".to_string(),
            folder_id.clone(),
            100,
        )
        .expect("add");
    let u = v
        .update_secret(
            &s.id,
            "mail2".to_string(),
            "user2".to_string(),
            "pw456".to_string(),
            "n".to_string(),
            folder_id,
            200,
        )
        .expect("update");
    assert_eq!(u.id, s.id);
    assert_eq!(u.created_at, 100);
    assert_eq!(u.updated_at, 200);
    assert_eq!(u.name, "mail2");
    assert_eq!(v.secrets[0], u);
}

#[test]
fn delete_secret_removes_only_that_secret() {
    let mut v = Vault::new();
    let folder_id = v.folders[0].id.clone();
    let a = v
        .add_secret(
            "a".to_string(),
            "".to_string(),
            "1".to_string(),
            "".to_string(),
            folder_id.clone(),
            0,
        )
        .expect("add");
    let b = v
        .add_secret(
            "b".to_string(),
            "".to_string(),
            "2".to_string(),
            "".to_string(),
            folder_id,
            0,
        )
        .expect("add");
    v.delete_secret(&a.id);
    assert_eq!(v.secrets.len(), 1);
    assert_eq!(v.secrets[0], b);
}

#[test]
fn delete_folder_reorders_and_adopts_secrets() {
    let mut v = Vault::new();
    let banking = v.add_folder("Banking".to_string(), "bank".to_string());
    let work_id = v.folders[1].id.clone();
    let s = v
        .add_secret(
            "card".to_string(),
            "".to_string(),
            "1234".to_string(),
            "".to_string(),
            work_id.clone(),
            0,
        )
        .expect("add");
    assert!(v.delete_folder(&work_id));
    assert_eq!(v.folders.len(), 2);
    // Remaining folders keep their relative order and get dense orders 0..n.
    assert_eq!(v.folders[0].name, "Personal");
    assert_eq!(v.folders[0].order, 0);
    assert_eq!(v.folders[1].name, "Banking");
    assert_eq!(v.folders[1].id, banking.id);
    assert_eq!(v.folders[1].order, 1);
    // The deleted folder's secret moved to the first other folder.
    assert_eq!(v.secrets[0].folder_id, v.folders[0].id);
    assert_eq!(v.secrets[0].id, s.id);
}

#[test]
fn delete_folder_refuses_the_last_folder() {
    let mut v = Vault::new();
    let first = v.folders[0].id.clone();
    assert!(v.delete_folder(&first));
    let last = v.folders[0].id.clone();
    assert!(!v.delete_folder(&last));
    assert_eq!(v.folders.len(), 1);
}

#[test]
fn vault_codec_round_trip() {
    let mut v = Vault::new();
    let folder_id = v.folders[0].id.clone();
    v.add_secret(
        "mail \u{00e9}\u{6f22}".to_string(),
        "user\nname".to_string(),
        "p\"w:1,2".to_string(),
        "long notes with \u{1f511}".to_string(),
        folder_id,
        -42,
    )
    .expect("add");
    let bytes = v.to_bytes();
    let back = Vault::from_bytes(&bytes).expect("parse back");
    assert_eq!(back, v);
}

#[test]
fn vault_codec_rejects_truncated_payload() {
    let v = Vault::new();
    let bytes = v.to_bytes();
    let truncated: Vec<u8> = bytes[..bytes.len() - 1].to_vec();
    assert!(Vault::from_bytes(&truncated).is_none());
    let mut extended = bytes.clone();
    extended.push(0);
    assert!(Vault::from_bytes(&extended).is_none());
}

#[test]
fn payload_layout_starts_with_version_and_counts() {
    let v = Vault::new();
    let bytes = v.to_bytes();
    // version 1 as eight little-endian bytes, then the folder count 2.
    assert_eq!(&bytes[0..8], &[1, 0, 0, 0, 0, 0, 0, 0]);
    assert_eq!(&bytes[8..16], &[2, 0, 0, 0, 0, 0, 0, 0]);
    // The first folder field is its 36-byte id, length-prefixed.
    assert_eq!(&bytes[16..24], &[36, 0, 0, 0, 0, 0, 0, 0]);
}
