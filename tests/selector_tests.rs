use cashu_tool::error::WalletError;
use cashu_tool::selector::select_proofs;

#[test]
fn exact_subset_needs_no_swap() {
    let s = select_proofs(&vec![512, 256, 128, 64, 32, 8], 384).unwrap();
    assert!(s.exact);
    assert_eq!(s.total, 384);
    assert_eq!(s.chosen, vec![false, true, true, false, false, false]);
}

#[test]
fn no_exact_subset_takes_a_superset() {
    let s = select_proofs(&vec![512, 256, 128, 64, 32, 8], 400).unwrap();
    assert!(!s.exact);
    assert!(s.total >= 400);
    assert_eq!(s.total, 512);
    assert_eq!(s.chosen, vec![true, false, false, false, false, false]);
}

#[test]
fn selection_never_falls_short() {
    let amounts = vec![1, 2, 4, 8, 16, 32, 64];
    for target in 1..=127u64 {
        let s = select_proofs(&amounts, target).unwrap();
        let sum: u64 = amounts.iter().zip(&s.chosen).filter(|(_, c)| **c).map(|(a, _)| *a).sum();
        assert_eq!(sum, s.total);
        assert!(s.total >= target);
        assert!(s.exact);
    }
}

#[test]
fn superset_keeps_no_proof_it_could_drop() {
    let amounts = vec![4, 4, 4, 16];
    let s = select_proofs(&amounts, 13).unwrap();
    assert!(!s.exact);
    assert_eq!(s.total, 16);
    for (a, c) in amounts.iter().zip(&s.chosen) {
        if *c {
            assert!(s.total - a < 13);
        }
    }
}

#[test]
fn zero_amounts_are_never_needed() {
    let s = select_proofs(&vec![0, 2, 0, 1], 3).unwrap();
    assert!(s.exact);
    assert_eq!(s.chosen, vec![false, true, false, true]);
}

#[test]
fn insufficient_funds_before_anything() {
    assert_eq!(select_proofs(&vec![4, 2], 7), Err(WalletError::InsufficientFunds));
    assert_eq!(select_proofs(&vec![], 1), Err(WalletError::InsufficientFunds));
}

#[test]
fn zero_target_is_invalid() {
    assert_eq!(select_proofs(&vec![4, 2], 0), Err(WalletError::InvalidAmount));
}
