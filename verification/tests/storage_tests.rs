use base64::engine::general_purpose::STANDARD;
use base64::Engine;
use passlocal::crypto::CryptoError;
use passlocal::storage::{create_vault, save_vault, unlock_vault, StorageError};

fn container_lines(c: &[u8]) -> Vec<Vec<u8>> {
    c.split(|b| *b == b'\n')
        .filter(|l| !l.is_empty())
        .map(|l| l.to_vec())
        .collect()
}

#[test]
fn create_unlock_round_trip() {
    // A fresh environment: no container exists yet.
    let (vault, container) = create_vault("hunter2", false).expect("create");
    assert_eq!(vault.version, 1);
    assert_eq!(vault.folders.len(), 2);
    assert_eq!(vault.folders[0].name, "Personal");
    assert_eq!(vault.folders[1].name, "Work");
    assert_eq!(vault.secrets.len(), 0);

    // The same password unlocks the container to a deep-equal vault.
    let unlocked = unlock_vault("hunter2", Some(&container)).expect("unlock");
    assert_eq!(unlocked, vault);
}

#[test]
fn create_refuses_existing_vault() {
    match create_vault("hunter2", true) {
        Err(StorageError::VaultAlreadyExists) => {}
        other => panic!("unexpected result: {:?}", other),
    }
}

#[test]
fn unlock_with_wrong_password_is_rejected() {
    let (_vault, container) = create_vault("hunter2", false).expect("create");
    match unlock_vault("wrong", Some(&container)) {
        Err(StorageError::InvalidPassword) => {}
        other => panic!("unexpected result: {:?}", other),
    }
}

#[test]
fn unlock_without_container_is_not_found() {
    match unlock_vault("hunter2", None) {
        Err(StorageError::VaultNotFound) => {}
        other => panic!("unexpected result: {:?}", other),
    }
    match save_vault(&passlocal::vault::Vault::new(), "hunter2", None) {
        Err(StorageError::VaultNotFound) => {}
        other => panic!("unexpected result: {:?}", other),
    }
}

#[test]
fn repeated_unlock_returns_equal_vaults() {
    let (_vault, container) = create_vault("hunter2", false).expect("create");
    let a = unlock_vault("hunter2", Some(&container)).expect("unlock");
    let b = unlock_vault("hunter2", Some(&container)).expect("unlock");
    assert_eq!(a, b);
}

#[test]
fn save_preserves_salt_and_test_fields() {
    let (mut vault, container) = create_vault("hunter2", false).expect("create");
    let folder_id = vault.folders[0].id.clone();
    vault
        .add_secret(
            "one".to_string(),
            "".to_string(),
            "1".to_string(),
            "".to_string(),
            folder_id.clone(),
            1,
        )
        .expect("add");
    let c1 = save_vault(&vault, "hunter2", Some(&container)).expect("save");
    vault
        .add_secret(
            "two".to_string(),
            "".to_string(),
            "2".to_string(),
            "".to_string(),
            folder_id,
            2,
        )
        .expect("add");
    let c2 = save_vault(&vault, "hunter2", Some(&c1)).expect("save");

    let l0 = container_lines(&container);
    let l1 = container_lines(&c1);
    let l2 = container_lines(&c2);
    // The salt line (and the test line) written at create time never change.
    assert_eq!(l0[0], l1[0]);
    assert_eq!(l1[0], l2[0]);
    assert_eq!(l0[1], l1[1]);
    assert_eq!(l1[1], l2[1]);
    // The data line does change: every save re-encrypts with a fresh nonce.
    assert_ne!(l1[2], l2[2]);
}

#[test]
fn saved_secret_survives_unlock_unchanged() {
    let (mut vault, container) = create_vault("hunter2", false).expect("create");
    let folder_id = vault.folders[0].id.clone();
    let secret = vault
        .add_secret(
            "mail".to_string(),
            "user".to_string(),
            "pw123".to_string(),
            "some notes".to_string(),
            folder_id,
            1_700_000_000_123,
        )
        .expect("add");
    let c1 = save_vault(&vault, "hunter2", Some(&container)).expect("save");
    let unlocked = unlock_vault("hunter2", Some(&c1)).expect("unlock");
    assert_eq!(unlocked.secrets.len(), 1);
    assert_eq!(unlocked.secrets[0], secret);
    assert_eq!(unlocked.secrets[0].created_at, 1_700_000_000_123);
    assert_eq!(unlocked, vault);
}

#[test]
fn deleted_folder_stays_deleted_across_save_and_unlock() {
    let (mut vault, container) = create_vault("hunter2", false).expect("create");
    vault.add_folder("Banking".to_string(), "bank".to_string());
    let work_id = vault.folders[1].id.clone();
    let s = vault
        .add_secret(
            "card".to_string(),
            "".to_string(),
            "1234".to_string(),
            "".to_string(),
            work_id.clone(),
            7,
        )
        .expect("add");
    assert!(vault.delete_folder(&work_id));
    let c1 = save_vault(&vault, "hunter2", Some(&container)).expect("save");
    let unlocked = unlock_vault("hunter2", Some(&c1)).expect("unlock");
    let orders: Vec<i32> = unlocked.folders.iter().map(|f| f.order).collect();
    assert_eq!(orders, vec![0, 1]);
    assert!(unlocked.folders.iter().all(|f| f.id != work_id));
    assert_eq!(unlocked.secrets[0].id, s.id);
    assert_eq!(unlocked.secrets[0].folder_id, unlocked.folders[0].id);
}

#[test]
fn garbage_container_is_a_serialization_error() {
    let garbage = b"not a container at all".to_vec();
    match unlock_vault("hunter2", Some(&garbage)) {
        Err(StorageError::SerializationError) => {}
        other => panic!("unexpected result: {:?}", other),
    }
}

#[test]
fn undecodable_salt_is_an_invalid_password() {
    let bad = b"salt:@@@\ntest:AAAA\ndata:AAAA\n".to_vec();
    match unlock_vault("hunter2", Some(&bad)) {
        Err(StorageError::InvalidPassword) => {}
        other => panic!("unexpected result: {:?}", other),
    }
}

#[test]
fn out_of_range_salt_fails_key_derivation() {
    let salt_b64 = STANDARD.encode([1u8, 2, 3]);
    let content = format!("salt:{}\ntest:AAAA\ndata:AAAA\n", salt_b64).into_bytes();
    match unlock_vault("hunter2", Some(&content)) {
        Err(StorageError::CryptoError(CryptoError::KeyDerivationFailed)) => {}
        other => panic!("unexpected result: {:?}", other),
    }
}

#[test]
fn corrupted_data_field_is_not_an_invalid_password() {
    let (_vault, container) = create_vault("hunter2", false).expect("create");
    let lines = container_lines(&container);
    // Replace the data field with valid base64 of garbage: the password
    // still verifies against the test field, so the failure is reported as
    // corruption, not as a wrong password.
    let bogus = STANDARD.encode([0u8; 40]);
    let mut tampered = Vec::new();
    tampered.extend_from_slice(&lines[0]);
    tampered.push(b'\n');
    tampered.extend_from_slice(&lines[1]);
    tampered.push(b'\n');
    tampered.extend_from_slice(b"data:");
    tampered.extend_from_slice(bogus.as_bytes());
    tampered.push(b'\n');
    match unlock_vault("hunter2", Some(&tampered)) {
        Err(StorageError::CryptoError(CryptoError::DecryptionFailed)) => {}
        other => panic!("unexpected result: {:?}", other),
    }
}

#[test]
fn container_is_three_labelled_text_lines() {
    let (_vault, container) = create_vault("hunter2", false).expect("create");
    let text = String::from_utf8(container).expect("container is text");
    let lines: Vec<&str> = text.split('\n').collect();
    assert_eq!(lines.len(), 4);
    assert_eq!(lines[3], "");
    assert!(lines[0].starts_with("salt:"));
    assert!(lines[1].starts_with("test:"));
    assert!(lines[2].starts_with("data:"));
    // The salt is base64 of 16 bytes.
    let salt = STANDARD.decode(&lines[0][5..]).expect("salt is base64");
    assert_eq!(salt.len(), 16);
}

#[test]
fn non_ascii_password_round_trips() {
    let (vault, container) = create_vault("p\u{00e4}ssw\u{00f6}rd\u{1f511}", false).expect("create");
    let unlocked = unlock_vault("p\u{00e4}ssw\u{00f6}rd\u{1f511}", Some(&container)).expect("unlock");
    assert_eq!(unlocked, vault);
    assert!(matches!(
        unlock_vault("password", Some(&container)),
        Err(StorageError::InvalidPassword)
    ));
}

#[test]
fn one_byte_salt_fails_key_derivation_cleanly() {
    // A container whose salt field decodes to a single byte must come back
    // as a key-derivation error, not a crash.
    let salt_b64 = STANDARD.encode([1u8]);
    let content = format!("salt:{}\ntest:AAAA\ndata:AAAA\n", salt_b64).into_bytes();
    match unlock_vault("hunter2", Some(&content)) {
        Err(StorageError::CryptoError(CryptoError::KeyDerivationFailed)) => {}
        other => panic!("unexpected result: {:?}", other),
    }
}
