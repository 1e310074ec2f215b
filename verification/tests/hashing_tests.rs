use safesecrets::hashing::{answer_verifier, passphrase};
use tiny_keccak::Hasher;

fn keccak256_direct(input: &[u8]) -> [u8; 32] {
    let mut hasher = tiny_keccak::Keccak::v256();
    hasher.update(input);
    let mut out = [0u8; 32];
    hasher.finalize(&mut out);
    out
}

#[test]
fn passphrase_of_empty_answer_matches_known_digest() {
    let expected = b"c5d2460186f7233c927e7db2dcc703c0e500b653ca82273b7bfad8045d85a470".to_vec();
    assert_eq!(passphrase(b""), expected);
}

#[test]
fn passphrase_is_hex_of_keccak() {
    let digest = keccak256_direct(b"Rex");
    let expected = hex::encode(digest).into_bytes();
    assert_eq!(passphrase(b"Rex"), expected);
}

#[test]
fn verifier_is_hash_of_raw_digest() {
    let digest = keccak256_direct(b"Rex");
    let double = keccak256_direct(&digest);
    let expected = hex::encode(double).into_bytes();
    assert_eq!(answer_verifier(b"Rex"), expected);
}

#[test]
fn passphrase_differs_from_verifier() {
    for answer in [&b""[..], b"Rex", b"rex", b"pet name?", b"0123456789"] {
        assert_ne!(passphrase(answer), answer_verifier(answer));
        assert_eq!(passphrase(answer).len(), 64);
        assert_eq!(answer_verifier(answer).len(), 64);
    }
}

#[test]
fn case_changes_both_derivations() {
    assert_ne!(passphrase(b"Rex"), passphrase(b"rex"));
    assert_ne!(answer_verifier(b"Rex"), answer_verifier(b"rex"));
}
