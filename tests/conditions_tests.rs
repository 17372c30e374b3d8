use cashu_tool::conditions::{
    build_condition, bytes_eq, signatures_suffice, threshold_met, verify_condition, Conditions,
    SpendingCondition, Witness,
};
use cashu_tool::error::WalletError;
use cdk::nuts::SecretKey;

fn key() -> SecretKey {
    SecretKey::generate()
}

fn pubhex(k: &SecretKey) -> Vec<u8> {
    k.public_key().to_hex().into_bytes()
}

fn sign(k: &SecretKey, msg: &[u8]) -> Vec<u8> {
    k.sign(msg).unwrap().to_string().into_bytes()
}

fn two_of_three(keys: &[SecretKey]) -> SpendingCondition {
    SpendingCondition::P2pk {
        data: pubhex(&keys[0]),
        conditions: Conditions {
            locktime: None,
            pubkeys: vec![pubhex(&keys[1]), pubhex(&keys[2])],
            refund_keys: vec![],
            required_sigs: 2,
        },
    }
}

const MSG: &[u8] = b"secret of the proof";

#[test]
fn two_of_three_refuses_one_signature() {
    let keys = [key(), key(), key()];
    let c = two_of_three(&keys);
    for k in &keys {
        let w = Witness { signatures: vec![sign(k, MSG)], preimage: None };
        assert_eq!(verify_condition(&c, MSG, &w, 0), Err(WalletError::ConditionUnsatisfied));
    }
}

#[test]
fn two_of_three_accepts_any_two_in_any_order() {
    let keys = [key(), key(), key()];
    let c = two_of_three(&keys);
    for (a, b) in [(0, 1), (1, 0), (0, 2), (2, 0), (1, 2), (2, 1)] {
        let w = Witness { signatures: vec![sign(&keys[a], MSG), sign(&keys[b], MSG)], preimage: None };
        assert_eq!(verify_condition(&c, MSG, &w, 0), Ok(()));
    }
}

#[test]
fn repeated_signature_counts_once() {
    let keys = [key(), key(), key()];
    let c = two_of_three(&keys);
    let s = sign(&keys[0], MSG);
    let w = Witness { signatures: vec![s.clone(), s], preimage: None };
    assert_eq!(verify_condition(&c, MSG, &w, 0), Err(WalletError::ConditionUnsatisfied));
}

#[test]
fn signature_over_other_message_is_refused() {
    let keys = [key(), key(), key()];
    let c = two_of_three(&keys);
    let w = Witness {
        signatures: vec![sign(&keys[0], b"other"), sign(&keys[1], b"other")],
        preimage: None,
    };
    assert_eq!(verify_condition(&c, MSG, &w, 0), Err(WalletError::ConditionUnsatisfied));
}

#[test]
fn impossible_signature_count_is_malformed() {
    let keys = [key(), key(), key()];
    let mut c = two_of_three(&keys);
    if let SpendingCondition::P2pk { conditions, .. } = &mut c {
        conditions.required_sigs = 4;
    }
    let w = Witness { signatures: vec![], preimage: None };
    assert_eq!(verify_condition(&c, MSG, &w, 0), Err(WalletError::MalformedCondition));
}

#[test]
fn refund_key_opens_after_locktime_only() {
    let owner = key();
    let refund = key();
    let c = SpendingCondition::P2pk {
        data: pubhex(&owner),
        conditions: Conditions {
            locktime: Some(1_000),
            pubkeys: vec![],
            refund_keys: vec![pubhex(&refund)],
            required_sigs: 1,
        },
    };
    let w = Witness { signatures: vec![sign(&refund, MSG)], preimage: None };
    assert_eq!(verify_condition(&c, MSG, &w, 999), Err(WalletError::ConditionUnsatisfied));
    assert_eq!(verify_condition(&c, MSG, &w, 1_000), Ok(()));
    let w_owner = Witness { signatures: vec![sign(&owner, MSG)], preimage: None };
    assert_eq!(verify_condition(&c, MSG, &w_owner, 999), Ok(()));
    assert_eq!(verify_condition(&c, MSG, &w_owner, 5_000), Ok(()));
}

#[test]
fn hash_lock_needs_the_preimage() {
    let preimage = vec![7u8; 32];
    let c = build_condition(&Some(preimage.clone()), &vec![], &vec![], None, None, 0).unwrap().unwrap();
    let good = Witness { signatures: vec![], preimage: Some(preimage) };
    assert_eq!(verify_condition(&c, MSG, &good, 0), Ok(()));
    let bad = Witness { signatures: vec![], preimage: Some(vec![8u8; 32]) };
    assert_eq!(verify_condition(&c, MSG, &bad, 0), Err(WalletError::ConditionUnsatisfied));
    let none = Witness { signatures: vec![], preimage: None };
    assert_eq!(verify_condition(&c, MSG, &none, 0), Err(WalletError::ConditionUnsatisfied));
}

#[test]
fn hash_lock_digest_is_sha256() {
    let c = build_condition(&Some(vec![0u8; 32]), &vec![], &vec![], None, None, 0).unwrap().unwrap();
    match c {
        SpendingCondition::Htlc { hash, .. } => {
            let expected = "66687aadf862bd776c8fc18b8e9f8e20089714856ee233b3902a591d0d5f2925";
            let hex: String = hash.iter().map(|b| format!("{:02x}", b)).collect();
            assert_eq!(hex, expected);
        }
        _ => panic!("expected a hash lock"),
    }
}

#[test]
fn hash_lock_with_keys_needs_signatures_too() {
    let k = key();
    let preimage = vec![1u8; 32];
    let c = build_condition(&Some(preimage.clone()), &vec![pubhex(&k)], &vec![], None, None, 0).unwrap().unwrap();
    let no_sig = Witness { signatures: vec![], preimage: Some(preimage.clone()) };
    assert_eq!(verify_condition(&c, MSG, &no_sig, 0), Err(WalletError::ConditionUnsatisfied));
    let with_sig = Witness { signatures: vec![sign(&k, MSG)], preimage: Some(preimage) };
    assert_eq!(verify_condition(&c, MSG, &with_sig, 0), Ok(()));
}

#[test]
fn build_p2pk_uses_first_key_as_data() {
    let keys = [key(), key(), key()];
    let pks: Vec<Vec<u8>> = keys.iter().map(pubhex).collect();
    let c = build_condition(&None, &pks, &vec![], None, Some(2), 0).unwrap().unwrap();
    assert_eq!(
        c,
        SpendingCondition::P2pk {
            data: pks[0].clone(),
            conditions: Conditions {
                locktime: None,
                pubkeys: pks[1..].to_vec(),
                refund_keys: vec![],
                required_sigs: 2,
            },
        }
    );
}

#[test]
fn build_without_keys_or_preimage_is_plain() {
    assert_eq!(build_condition(&None, &vec![], &vec![], None, None, 0), Ok(None));
}

#[test]
fn build_rejects_bad_options() {
    let a = pubhex(&key());
    let b = pubhex(&key());
    let m = Err(WalletError::MalformedCondition);
    assert_eq!(build_condition(&None, &vec![a.clone(), a.clone()], &vec![], None, None, 0), m);
    assert_eq!(build_condition(&None, &vec![b"not a key".to_vec()], &vec![], None, None, 0), m);
    assert_eq!(build_condition(&None, &vec![a.clone()], &vec![], Some(10), None, 20), m);
    assert_eq!(build_condition(&None, &vec![a.clone()], &vec![b.clone()], None, None, 0), m);
    assert_eq!(build_condition(&None, &vec![a.clone()], &vec![], None, Some(0), 0), m);
    assert_eq!(build_condition(&None, &vec![a.clone()], &vec![], None, Some(2), 0), m);
    assert_eq!(build_condition(&Some(vec![1u8; 31]), &vec![], &vec![], None, None, 0), m);
    assert!(build_condition(&None, &vec![a], &vec![b], Some(30), None, 20).is_ok());
}

#[test]
fn threshold_counts_distinct_keys() {
    let keys = vec![b"k1".to_vec(), b"k1".to_vec(), b"k2".to_vec()];
    assert!(!threshold_met(&keys, &vec![true, true, false], 2));
    assert!(threshold_met(&keys, &vec![true, false, true], 2));
    assert!(threshold_met(&keys, &vec![false, false, false], 0));
}

#[test]
fn signatures_suffice_checks_real_signatures() {
    let k = key();
    let keys = vec![pubhex(&k)];
    assert!(signatures_suffice(&keys, MSG, &vec![sign(&k, MSG)], 1));
    assert!(!signatures_suffice(&keys, MSG, &vec![b"00".to_vec()], 1));
}

#[test]
fn bytes_compare() {
    assert!(bytes_eq(b"abc", b"abc"));
    assert!(!bytes_eq(b"abc", b"abd"));
    assert!(!bytes_eq(b"abc", b"ab"));
}

#[test]
fn build_locks_are_fixed_by_the_options() {
    let k = key();
    match build_condition(&None, &vec![pubhex(&k)], &vec![], None, None, 0) {
        Ok(Some(SpendingCondition::P2pk { data, conditions })) => {
            assert_eq!(data, pubhex(&k));
            assert_eq!(conditions.required_sigs, 1);
            assert!(conditions.pubkeys.is_empty() && conditions.refund_keys.is_empty());
            assert_eq!(conditions.locktime, None);
        }
        other => panic!("expected a key lock, got {:?}", other),
    }
    match build_condition(&Some(vec![0u8; 32]), &vec![pubhex(&k)], &vec![], None, Some(1), 0) {
        Ok(Some(SpendingCondition::Htlc { conditions, .. })) => assert_eq!(conditions.pubkeys, vec![pubhex(&k)]),
        other => panic!("expected a hash lock, got {:?}", other),
    }
}
