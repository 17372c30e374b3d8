use cashu_tool::amount::{check_power_of_two, split, split_minimal, SplitPolicy};
use cashu_tool::error::WalletError;

#[test]
fn split_minimal_of_thousand() {
    assert_eq!(split_minimal(1000), vec![512, 256, 128, 64, 32, 8]);
}

#[test]
fn split_minimal_sums_to_amount() {
    for a in [1u64, 2, 3, 7, 255, 256, 1000, 123_456_789, u64::MAX] {
        let parts = split_minimal(a);
        let sum: u128 = parts.iter().map(|p| *p as u128).sum();
        assert_eq!(sum, a as u128);
        assert!(parts.iter().all(|p| p.is_power_of_two()));
        assert!(parts.windows(2).all(|w| w[0] > w[1]));
    }
}

#[test]
fn split_minimal_of_largest_amount() {
    let parts = split_minimal(u64::MAX);
    assert_eq!(parts.len(), 64);
    assert_eq!(parts[0], 1u64 << 63);
    assert_eq!(parts[63], 1);
}

#[test]
fn split_zero_is_invalid() {
    assert_eq!(split(0, SplitPolicy::Minimal), Err(WalletError::InvalidAmount));
    assert_eq!(split(0, SplitPolicy::Value(8)), Err(WalletError::InvalidAmount));
}

#[test]
fn split_by_fixed_value() {
    assert_eq!(split(200, SplitPolicy::Value(64)), Ok(vec![64, 64, 64, 8]));
    assert_eq!(split(5, SplitPolicy::Value(8)), Ok(vec![4, 1]));
}

#[test]
fn split_by_value_that_is_no_denomination() {
    assert_eq!(split(200, SplitPolicy::Value(3)), Err(WalletError::InvalidAmount));
    assert_eq!(split(200, SplitPolicy::Value(0)), Err(WalletError::InvalidAmount));
}

#[test]
fn powers_of_two_are_recognized() {
    assert!(check_power_of_two(1));
    assert!(check_power_of_two(1 << 40));
    assert!(!check_power_of_two(0));
    assert!(!check_power_of_two(12));
}

#[test]
fn swap_outputs_cover_target_and_change() {
    assert_eq!(
        cashu_tool::amount::swap_outputs(512, 400),
        Ok((vec![256, 128, 16], vec![64, 32, 16]))
    );
    assert_eq!(cashu_tool::amount::swap_outputs(8, 8), Ok((vec![8], vec![])));
    assert_eq!(cashu_tool::amount::swap_outputs(8, 9), Err(WalletError::InvalidAmount));
    assert_eq!(cashu_tool::amount::swap_outputs(8, 0), Err(WalletError::InvalidAmount));
}
