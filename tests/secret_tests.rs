use cashu_tool::conditions::{Conditions, SpendingCondition, Witness};
use cashu_tool::error::WalletError;
use cashu_tool::secret::{check_proof_lock, check_token_locks, decode_secret, encode_lock};
use cashu_tool::token::{Proof, Token};

fn lock() -> SpendingCondition {
    SpendingCondition::P2pk {
        data: b"02aa".to_vec(),
        conditions: Conditions {
            locktime: Some(1_700_000_000),
            pubkeys: vec![b"02bb".to_vec(), b"02cc".to_vec()],
            refund_keys: vec![b"02dd".to_vec()],
            required_sigs: 2,
        },
    }
}

#[test]
fn lock_secret_round_trip() {
    let c = lock();
    let nonce = b"5d11913ee0f92fefdc82a6764fd2457a".to_vec();
    let s = encode_lock(&c, &nonce);
    assert!(s.starts_with(b"lockP"));
    assert_eq!(decode_secret(&s), Ok(Some((c, nonce))));
}

#[test]
fn hash_lock_secret_round_trip() {
    let c = SpendingCondition::Htlc {
        hash: vec![9u8; 32],
        conditions: Conditions { locktime: None, pubkeys: vec![], refund_keys: vec![], required_sigs: 1 },
    };
    let s = encode_lock(&c, b"n");
    assert!(s.starts_with(b"lockH"));
    assert_eq!(decode_secret(&s), Ok(Some((c, b"n".to_vec()))));
}

#[test]
fn plain_secret_has_no_lock() {
    assert_eq!(decode_secret(b"407915bc212be61a77e3e6d2aeb4c727980bda51cd06a6afc29e2861768a7837"), Ok(None));
    assert_eq!(decode_secret(b""), Ok(None));
}

#[test]
fn damaged_lock_secret_is_malformed() {
    let s = encode_lock(&lock(), b"nonce");
    assert_eq!(decode_secret(&s[..s.len() - 1]), Err(WalletError::MalformedCondition));
    let mut bad_kind = s.clone();
    bad_kind[4] = b'X';
    assert_eq!(decode_secret(&bad_kind), Err(WalletError::MalformedCondition));
    let mut longer = s.clone();
    longer.push(0);
    assert_eq!(decode_secret(&longer), Err(WalletError::MalformedCondition));
}

#[test]
fn proof_lock_checked_against_its_secret() {
    let k = cdk::nuts::SecretKey::generate();
    let c = SpendingCondition::P2pk {
        data: k.public_key().to_hex().into_bytes(),
        conditions: Conditions { locktime: None, pubkeys: vec![], refund_keys: vec![], required_sigs: 1 },
    };
    let secret = encode_lock(&c, b"nonce");
    let sig = k.sign(&secret).unwrap().to_string().into_bytes();
    let good = Witness { signatures: vec![sig], preimage: None };
    assert_eq!(check_proof_lock(&secret, &good, 0), Ok(()));
    let empty = Witness { signatures: vec![], preimage: None };
    assert_eq!(check_proof_lock(&secret, &empty, 0), Err(WalletError::ConditionUnsatisfied));
    assert_eq!(check_proof_lock(b"plain secret", &empty, 0), Ok(()));
    assert_eq!(check_proof_lock(&secret[..secret.len() - 3], &good, 0), Err(WalletError::MalformedCondition));
}

#[test]
fn token_locks_all_checked() {
    let k = cdk::nuts::SecretKey::generate();
    let c = SpendingCondition::P2pk {
        data: k.public_key().to_hex().into_bytes(),
        conditions: Conditions { locktime: None, pubkeys: vec![], refund_keys: vec![], required_sigs: 1 },
    };
    let locked = encode_lock(&c, b"n1");
    let proof = |secret: Vec<u8>| Proof { keyset_id: b"ks".to_vec(), amount: 8, secret, signature: b"c".to_vec(), witness: None };
    let token = Token {
        mint_url: b"https://mint.example.com".to_vec(),
        unit: b"sat".to_vec(),
        memo: None,
        proofs: vec![proof(b"plain".to_vec()), proof(locked.clone())],
    };
    let empty = Witness { signatures: vec![], preimage: None };
    let signed = Witness { signatures: vec![k.sign(&locked).unwrap().to_string().into_bytes()], preimage: None };
    assert_eq!(check_token_locks(&token, &vec![empty.clone(), signed], 0), Ok(()));
    assert_eq!(check_token_locks(&token, &vec![empty.clone(), empty], 0), Err(WalletError::ConditionUnsatisfied));
}
