use governance_votes::hasher::ConstHasher;
use governance_votes::ledger::Votes;
use governance_votes::signature::{delegation_message, Signature};
use governance_votes::{AccountId, GovernanceError};
use secp256k1::{Message, PublicKey, Secp256k1, SecretKey};

fn blake2b_256(input: &[u8]) -> [u8; 32] {
    let mut out = [0u8; 32];
    ink_ir::blake2b_256(input, &mut out);
    out
}

fn keypair(seed: u8) -> (SecretKey, AccountId) {
    let secp = Secp256k1::new();
    let sk = SecretKey::from_slice(&[seed; 32]).unwrap();
    let pk = PublicKey::from_secret_key(&secp, &sk);
    (sk, blake2b_256(&pk.serialize()))
}

fn sign(sk: &SecretKey, delegatee: &AccountId, nonce: u64, expiry: u64) -> Signature {
    let secp = Secp256k1::new();
    let message = delegation_message(delegatee, nonce, expiry);
    let hash = blake2b_256(&message);
    let sig = secp.sign_ecdsa_recoverable(&Message::from_slice(&hash).unwrap(), sk);
    let (recid, compact) = sig.serialize_compact();
    let mut bytes = [0u8; 65];
    bytes[..64].copy_from_slice(&compact);
    bytes[64] = recid.to_i32() as u8;
    Signature::ECDSA(bytes)
}

#[test]
fn delegation_message_layout() {
    let d = [7u8; 32];
    let m = delegation_message(&d, 0x0102030405060708, 3);
    assert_eq!(m.len(), 48);
    assert_eq!(&m[..32], &d[..]);
    assert_eq!(&m[32..40], &[8, 7, 6, 5, 4, 3, 2, 1]);
    assert_eq!(&m[40..48], &[3, 0, 0, 0, 0, 0, 0, 0]);
}

#[test]
fn signature_verifies_for_its_signer_only() {
    let (sk, signer) = keypair(0x11);
    let (_, other) = keypair(0x22);
    let d = [9u8; 32];
    let sig = sign(&sk, &d, 0, 100);
    let message = delegation_message(&d, 0, 100);
    assert!(sig.verify(&message, &signer));
    assert!(!sig.verify(&message, &other));
    let other_message = delegation_message(&d, 1, 100);
    assert!(!sig.verify(&other_message, &signer));
}

#[test]
fn malformed_signatures_are_refused() {
    let (sk, signer) = keypair(0x11);
    let d = [9u8; 32];
    let message = delegation_message(&d, 0, 100);
    let Signature::ECDSA(good) = sign(&sk, &d, 0, 100);
    let mut bad_recovery = good;
    bad_recovery[64] = 5;
    assert!(!Signature::ECDSA(bad_recovery).verify(&message, &signer));
    let mut high_r = good;
    high_r[..32].copy_from_slice(&[0xff; 32]);
    assert!(!Signature::ECDSA(high_r).verify(&message, &signer));
    let mut high_s = good;
    high_s[32..64].copy_from_slice(&[0xff; 32]);
    assert!(!Signature::ECDSA(high_s).verify(&message, &signer));
    let mut shifted = good;
    shifted[64] += 27;
    assert!(Signature::ECDSA(shifted).verify(&message, &signer));
}

#[test]
fn signed_delegation_rejects_replay_expiry_and_other_requests() {
    let (sk, signer) = keypair(0x33);
    let d: AccountId = [4u8; 32];
    let e: AccountId = [5u8; 32];
    let mut v = Votes::new();
    assert_eq!(v.move_voting_power(None, Some(signer), 100, 1), Ok(()));
    for n in 0..3u64 {
        let sig = sign(&sk, &e, n, 50);
        assert_eq!(v.delegate_by_signature(signer, e, n, 50, &sig, 2), Ok(()));
    }
    assert_eq!(v.nonces(signer), 3);
    assert_eq!(v.get_votes(e), 100);

    let sig = sign(&sk, &d, 3, 50);
    assert_eq!(v.delegate_by_signature(signer, d, 3, 50, &sig, 51), Err(GovernanceError::ExpiredSignature));
    assert_eq!(v.delegate_by_signature(signer, e, 3, 50, &sig, 10), Err(GovernanceError::InvalidSignature));
    assert_eq!(v.delegate_by_signature(signer, d, 3, 60, &sig, 10), Err(GovernanceError::InvalidSignature));
    assert_eq!(v.nonces(signer), 3);
    assert_eq!(v.delegate_by_signature(signer, d, 3, 50, &sig, 10), Ok(()));
    assert_eq!(v.nonces(signer), 4);
    assert_eq!(v.get_votes(d), 100);
    assert_eq!(v.get_votes(e), 0);
    assert_eq!(v.delegates(signer), Some(d));
    assert_eq!(v.delegate_by_signature(signer, d, 3, 50, &sig, 11), Err(GovernanceError::InvalidAccountNonce));
    assert_eq!(v.nonces(signer), 4);
}

#[test]
fn name_hash_matches_xxh32() {
    assert_eq!(ConstHasher::hash(""), 0x02CC_5D05);
    assert_eq!(ConstHasher::hash("abc"), 0x32D1_53FF);
    assert_eq!(ConstHasher::hash("PSP22::transfer"), 0x730F_9DB2);
    assert_eq!(ConstHasher::hash("Nothing is given, everything is earned"), 0x2428_665D);
}
