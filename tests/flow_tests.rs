use cashu_tool::commands::{check_receive_options, choose_mint_for, parse_preimage, ReceiveSubCommand};
use cashu_tool::error::WalletError;
use cashu_tool::keyset::{KeysetInfo, KeysetRegistry};
use cashu_tool::quote::{melt_affordable, melt_input_amount, mint_quote_step, QuoteAction, QuoteEvent, QuoteState};
use cashu_tool::restore::restore_scan;

#[test]
fn mint_quote_paid_then_claimed() {
    let (s, a) = mint_quote_step(QuoteState::Requested, QuoteEvent::Checked { paid: false }, 10, 100, 0, 3);
    assert_eq!((s, a), (QuoteState::Requested, QuoteAction::WaitAndCheck));
    let (s, a) = mint_quote_step(s, QuoteEvent::Checked { paid: true }, 20, 100, 0, 3);
    assert_eq!((s, a), (QuoteState::Payable, QuoteAction::Claim));
    let (s, a) = mint_quote_step(s, QuoteEvent::ClaimSucceeded, 21, 100, 0, 3);
    assert_eq!((s, a), (QuoteState::Claimed, QuoteAction::Finished));
    let (s, a) = mint_quote_step(s, QuoteEvent::ClaimSucceeded, 22, 100, 0, 3);
    assert_eq!((s, a), (QuoteState::Claimed, QuoteAction::Finished));
}

#[test]
fn mint_quote_expires_unpaid() {
    let r = mint_quote_step(QuoteState::Requested, QuoteEvent::Checked { paid: false }, 100, 100, 0, 3);
    assert_eq!(r, (QuoteState::Expired, QuoteAction::Stop(WalletError::QuoteExpired)));
    let r = mint_quote_step(QuoteState::Expired, QuoteEvent::Checked { paid: true }, 5, 100, 0, 3);
    assert_eq!(r, (QuoteState::Expired, QuoteAction::Stop(WalletError::QuoteExpired)));
}

#[test]
fn mint_quote_network_failures_are_bounded() {
    let r = mint_quote_step(QuoteState::Requested, QuoteEvent::CheckFailed, 1, 100, 2, 3);
    assert_eq!(r, (QuoteState::Requested, QuoteAction::WaitAndCheck));
    let r = mint_quote_step(QuoteState::Requested, QuoteEvent::CheckFailed, 1, 100, 3, 3);
    assert_eq!(r, (QuoteState::Requested, QuoteAction::Stop(WalletError::NetworkTimeout)));
    let r = mint_quote_step(QuoteState::Payable, QuoteEvent::ClaimFailed, 1, 100, 0, 3);
    assert_eq!(r, (QuoteState::Payable, QuoteAction::Stop(WalletError::MintUnavailable)));
}

#[test]
fn melt_funds_check() {
    assert_eq!(melt_affordable(1_000_000, 2, 1002), Ok(()));
    assert_eq!(melt_affordable(1_000_001, 2, 1002), Err(WalletError::InsufficientFunds));
    assert_eq!(melt_affordable(u64::MAX, u64::MAX, u64::MAX), Err(WalletError::InsufficientFunds));
    assert_eq!(melt_input_amount(1_500, 3), Ok(5));
    assert_eq!(melt_input_amount(2_000, 0), Ok(2));
    assert_eq!(melt_input_amount(1_000, u64::MAX), Err(WalletError::InvalidAmount));
}

#[test]
fn restore_recovers_signed_unspent() {
    let signed = vec![true, true, false, true, false, false, true, false, false, false, false];
    let spent = vec![false, true, false, false, false, false, false, false, false, false, false];
    let r = restore_scan(&signed, &spent, 3);
    assert_eq!(r.recovered, vec![0, 3, 6]);
    assert_eq!(r.next_counter, 7);
}

#[test]
fn restore_stops_at_a_long_gap() {
    let mut signed = vec![false; 20];
    signed[0] = true;
    signed[12] = true;
    let spent = vec![false; 20];
    let r = restore_scan(&signed, &spent, 4);
    assert_eq!(r.recovered, vec![0]);
    assert_eq!(r.next_counter, 1);
    let r = restore_scan(&signed, &spent, 12);
    assert_eq!(r.recovered, vec![0, 12]);
    assert_eq!(r.next_counter, 13);
}

#[test]
fn restore_of_nothing() {
    let r = restore_scan(&vec![], &vec![], 5);
    assert_eq!(r.recovered, Vec::<u64>::new());
    assert_eq!(r.next_counter, 0);
}

#[test]
fn keyset_counters_advance_and_never_repeat() {
    let mut reg = KeysetRegistry::new();
    reg.record_keys(&vec![KeysetInfo { id: b"ks1".to_vec(), unit: b"sat".to_vec(), active: true }]);
    assert_eq!(reg.derive_next(b"ks1"), Ok(0));
    assert_eq!(reg.derive_next(b"ks1"), Ok(1));
    assert_eq!(reg.derive_next(b"nope"), Err(WalletError::UnknownKeyset));
    assert_eq!(reg.advance_counter(b"ks1", 10), Ok(()));
    assert_eq!(reg.derive_next(b"ks1"), Ok(10));
    assert_eq!(reg.advance_counter(b"ks1", 3), Ok(()));
    assert_eq!(reg.derive_next(b"ks1"), Ok(11));
    reg.record_keys(&vec![
        KeysetInfo { id: b"ks1".to_vec(), unit: b"sat".to_vec(), active: false },
        KeysetInfo { id: b"ks2".to_vec(), unit: b"sat".to_vec(), active: true },
    ]);
    assert_eq!(reg.keysets.len(), 2);
    assert_eq!(reg.active_keyset(b"sat"), Some(1));
    assert_eq!(reg.active_keyset(b"usd"), None);
    assert_eq!(reg.derive_next(b"ks1"), Ok(12));
}

#[test]
fn mint_choice_and_funds() {
    let balances = vec![100, 50];
    assert_eq!(choose_mint_for(&balances, 1, 50), Ok(1));
    assert_eq!(choose_mint_for(&balances, 1, 51), Err(WalletError::InsufficientFunds));
    assert_eq!(choose_mint_for(&balances, 2, 1), Err(WalletError::InvalidMintNumber));
    assert_eq!(choose_mint_for(&vec![], 0, 1), Err(WalletError::InvalidMintNumber));
}

#[test]
fn preimage_parsing() {
    let hex = "00".repeat(31) + "ff";
    assert_eq!(parse_preimage(hex.as_bytes()).unwrap()[31], 255);
    assert_eq!(parse_preimage(b"abcd"), Err(WalletError::MalformedCondition));
    assert_eq!(parse_preimage(&[b'z'; 64]), Err(WalletError::MalformedCondition));
}

#[test]
fn receive_options_are_checked() {
    let opts = |token: Option<&str>, nostr: Option<&str>| ReceiveSubCommand {
        token: token.map(String::from),
        nostr_key: nostr.map(String::from),
        signing_key: vec![],
        relay: vec![],
        preimage: vec![],
        db_path: None,
    };
    assert_eq!(check_receive_options(&opts(Some("t"), None)), Ok(()));
    assert_eq!(check_receive_options(&opts(None, None)), Err(WalletError::TokenRequired));
    assert_eq!(check_receive_options(&opts(Some("t"), Some("n"))), Err(WalletError::NostrUnsupported));
}

#[test]
fn new_keysets_start_at_zero_and_take_the_last_active_flag() {
    let mut reg = KeysetRegistry::new();
    reg.record_keys(&vec![
        KeysetInfo { id: b"a".to_vec(), unit: b"sat".to_vec(), active: true },
        KeysetInfo { id: b"a".to_vec(), unit: b"sat".to_vec(), active: false },
    ]);
    assert_eq!(reg.keysets.len(), 1);
    assert!(!reg.keysets[0].active);
    assert_eq!(reg.keysets[0].counter, 0);
}
