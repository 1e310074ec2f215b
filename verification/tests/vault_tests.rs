use safesecrets::errors::VaultError;
use safesecrets::memory::{MemCipher, MemStore, MemVcs};
use safesecrets::tools::ToolCache;
use safesecrets::vault::Vault;

const ALICE: &[u8] = b"alice@example.com";

fn fresh_vault() -> Vault<MemCipher, MemStore, MemVcs> {
    Vault::new(MemCipher::with_recipient(ALICE), MemStore::new(), MemVcs::new())
}

fn bootstrapped() -> Vault<MemCipher, MemStore, MemVcs> {
    let mut v = fresh_vault();
    v.add_email_and_question(ALICE, b"pet name?", b"Rex").unwrap();
    v
}

#[test]
fn bootstrap_then_verify_answer() {
    let v = bootstrapped();
    assert_eq!(v.verify_security_question(b"Rex"), Ok(true));
    assert_eq!(v.verify_security_question(b"rex"), Ok(false));
}

#[test]
fn bootstrap_rejects_unknown_identity() {
    let mut v = fresh_vault();
    assert_eq!(
        v.add_email_and_question(b"bob@example.com", b"pet name?", b"Rex"),
        Err(VaultError::UnknownIdentity)
    );
}

#[test]
fn identity_and_question_read_back() {
    let v = bootstrapped();
    assert_eq!(v.get_gpg_email(), Ok(ALICE.to_vec()));
    assert_eq!(v.get_security_question(), Ok(b"pet name?".to_vec()));
}

#[test]
fn getters_fail_before_bootstrap() {
    let v = fresh_vault();
    assert_eq!(v.get_gpg_email(), Err(VaultError::NotFound));
    assert_eq!(v.get_security_question(), Err(VaultError::NotFound));
    assert!(v.verify_security_question(b"Rex").is_err());
}

#[test]
fn add_list_decrypt_one_secret() {
    let mut v = bootstrapped();
    let id = v.add_secrets(b"github", b"token", b".txt", b"ghp_xxx", b"Rex", false).unwrap();
    assert_eq!(id, 1);
    let items = v.get_secrets_list(b"github").unwrap();
    assert_eq!(items.len(), 1);
    assert_eq!(items[0].id, 1);
    assert_eq!(items[0].app, b"github".to_vec());
    assert_eq!(items[0].desc, b"token".to_vec());
    assert_eq!(items[0].format, b".txt".to_vec());
    assert_eq!(v.decrypt_secrets(id, b"Rex"), Ok(b"ghp_xxx".to_vec()));
    assert_eq!(v.decrypt_secrets(id, b"wrong"), Err(VaultError::DecryptionFailed));
}

#[test]
fn decrypt_of_missing_id_is_not_found() {
    let v = bootstrapped();
    assert_eq!(v.decrypt_secrets(42, b"Rex"), Err(VaultError::NotFound));
}

#[test]
fn list_is_most_recent_first() {
    let mut v = bootstrapped();
    v.add_secrets(b"github", b"token", b".txt", b"one", b"Rex", false).unwrap();
    v.add_secrets(b"mail", b"password", b".md", b"two", b"Rex", false).unwrap();
    v.add_secrets(b"github", b"backup", b".txt", b"three", b"Rex", false).unwrap();
    let all = v.get_secrets_list(b"").unwrap();
    assert_eq!(all.len(), 3);
    assert_eq!(all[0].id, 3);
    assert_eq!(all[1].id, 2);
    assert_eq!(all[2].id, 1);
    let hits = v.get_secrets_list(b"github").unwrap();
    assert_eq!(hits.len(), 2);
    assert_eq!(hits[0].id, 3);
    assert_eq!(hits[1].id, 1);
}

#[test]
fn delete_of_absent_secret_succeeds() {
    let mut v = bootstrapped();
    assert_eq!(v.delete_secrets(5), Ok(()));
}

#[test]
fn delete_removes_entry_and_blob() {
    let mut v = bootstrapped();
    let id = v.add_secrets(b"github", b"token", b".txt", b"ghp_xxx", b"Rex", false).unwrap();
    assert_eq!(v.delete_secrets(id), Ok(()));
    assert_eq!(v.get_secrets_list(b"").unwrap().len(), 0);
    assert_eq!(v.decrypt_secrets(id, b"Rex"), Err(VaultError::NotFound));
}

#[test]
fn ids_keep_growing_after_delete() {
    let mut v = bootstrapped();
    assert_eq!(v.add_secrets(b"a", b"one", b".txt", b"s1", b"Rex", false), Ok(1));
    assert_eq!(v.add_secrets(b"b", b"two", b".txt", b"s2", b"Rex", false), Ok(2));
    v.delete_secrets(1).unwrap();
    assert_eq!(v.add_secrets(b"c", b"three", b".txt", b"s3", b"Rex", false), Ok(3));
}

#[test]
fn add_fails_with_index_full_at_999() {
    let mut v = bootstrapped();
    for i in 1..=999u32 {
        assert_eq!(v.add_secrets(b"a", b"d", b".t", b"s", b"Rex", false), Ok(i));
    }
    assert_eq!(
        v.add_secrets(b"a", b"d", b".t", b"s", b"Rex", false),
        Err(VaultError::IndexFull)
    );
}

#[test]
fn add_with_push_also_succeeds() {
    let mut v = bootstrapped();
    assert_eq!(v.add_secrets(b"github", b"token", b".txt", b"ghp_xxx", b"Rex", true), Ok(1));
    assert_eq!(v.decrypt_secrets(1, b"Rex"), Ok(b"ghp_xxx".to_vec()));
}

#[test]
fn list_of_fresh_vault_is_empty() {
    let v = fresh_vault();
    assert_eq!(v.get_secrets_list(b"").unwrap().len(), 0);
}

#[test]
fn commit_messages_record_each_mutation() {
    let mut v = bootstrapped();
    let id = v.add_secrets(b"github", b"token", b".txt", b"ghp_xxx", b"Rex", false).unwrap();
    v.delete_secrets(id).unwrap();
    assert_eq!(v.vcs.commits.len(), 2);
    assert_eq!(v.vcs.commits[0], b"add: 1.gpg".to_vec());
    assert_eq!(v.vcs.commits[1], b"remove: 001.gpg".to_vec());
}

#[test]
fn tool_cache_remembers_and_clears() {
    let mut cache = ToolCache::new();
    assert_eq!(cache.get_gpg_cmd(None), Err(VaultError::ServiceUnavailable));
    assert_eq!(cache.get_gpg_cmd(Some(b"/usr/bin/gpg".to_vec())), Ok(b"/usr/bin/gpg".to_vec()));
    assert_eq!(cache.get_gpg_cmd(None), Ok(b"/usr/bin/gpg".to_vec()));
    assert_eq!(cache.get_git_cmd(Some(b"/usr/bin/git".to_vec())), Ok(b"/usr/bin/git".to_vec()));
    cache.clear_cache();
    assert_eq!(cache.get_gpg_cmd(None), Err(VaultError::ServiceUnavailable));
    assert_eq!(cache.get_git_cmd(None), Err(VaultError::ServiceUnavailable));
}

#[test]
fn error_kinds_describe_themselves() {
    let kinds = [
        VaultError::ServiceUnavailable,
        VaultError::UnknownIdentity,
        VaultError::IndexCorrupt,
        VaultError::IndexFull,
        VaultError::NotFound,
        VaultError::DecryptionFailed,
        VaultError::IOError,
        VaultError::VersionControlFailed,
    ];
    for k in kinds {
        assert!(!k.describe().is_empty());
    }
}
