use cashu_tool::amount::split_minimal;
use cashu_tool::error::WalletError;
use cashu_tool::store::{MeltOutcome, Wallet};
use cashu_tool::token::{decode_token, encode_token, Proof};

const MINT: &[u8] = b"https://mint.example.com";
const SAT: &[u8] = b"sat";

fn proofs_for(amount: u64, tag: &str) -> Vec<Proof> {
    split_minimal(amount)
        .into_iter()
        .enumerate()
        .map(|(i, a)| Proof {
            keyset_id: b"00ad268c4d1f5826".to_vec(),
            amount: a,
            secret: format!("{}-{}", tag, i).into_bytes(),
            signature: b"sig".to_vec(),
            witness: None,
        })
        .collect()
}

fn token_sum(ps: &[Proof]) -> u64 {
    ps.iter().map(|p| p.amount).sum()
}

#[test]
fn mint_send_receive_scenario() {
    let mut w = Wallet::new();
    assert_eq!(w.claim_mint_quote(b"quote-1", MINT, SAT, proofs_for(1000, "minted")), Ok(1000));
    assert_eq!(w.balance(MINT, SAT), 1000);

    let sel = w.begin_spend(MINT, SAT, 400).unwrap();
    assert!(!sel.exact);
    assert!(sel.total >= 400);
    assert_eq!(w.balance(MINT, SAT), 1000 - sel.total);
    assert_eq!(w.pending_balance(MINT, SAT), sel.total);

    let send = proofs_for(400, "send");
    let change = proofs_for(sel.total - 400, "change");
    let token = w.finish_send_swapped(MINT, SAT, None, 400, 0, send, change).unwrap();
    assert_eq!(token_sum(&token.proofs), 400);
    assert_eq!(w.balance(MINT, SAT), 600);
    assert_eq!(w.pending_balance(MINT, SAT), 0);

    let incoming = encode_token(&cashu_tool::token::Token {
        mint_url: MINT.to_vec(),
        unit: SAT.to_vec(),
        memo: None,
        proofs: proofs_for(400, "other"),
    });
    let received = decode_token(&incoming).unwrap();
    assert_eq!(token_sum(&received.proofs), 400);
    let fresh = proofs_for(400, "fresh");
    assert_eq!(w.store_proofs(&received.mint_url, &received.unit, fresh), Ok(400));
    assert_eq!(w.balance(MINT, SAT), 1000);
}

#[test]
fn exact_send_needs_no_swap() {
    let mut w = Wallet::new();
    w.store_proofs(MINT, SAT, proofs_for(1000, "a")).unwrap();
    let sel = w.begin_spend(MINT, SAT, 520).unwrap();
    assert!(sel.exact);
    let token = w.finish_send_exact(MINT, SAT, Some(b"memo".to_vec()), 520).unwrap();
    assert_eq!(token_sum(&token.proofs), 520);
    assert_eq!(token.memo, Some(b"memo".to_vec()));
    assert_eq!(w.balance(MINT, SAT), 480);
}

#[test]
fn claiming_twice_yields_funds_once() {
    let mut w = Wallet::new();
    assert_eq!(w.claim_mint_quote(b"q", MINT, SAT, proofs_for(64, "x")), Ok(64));
    assert_eq!(w.claim_mint_quote(b"q", MINT, SAT, proofs_for(64, "y")), Ok(0));
    assert_eq!(w.balance(MINT, SAT), 64);
    assert_eq!(w.claim_mint_quote(b"r", MINT, SAT, proofs_for(1, "z")), Ok(1));
    assert_eq!(w.balance(MINT, SAT), 65);
}

#[test]
fn balances_are_per_mint_and_unit() {
    let mut w = Wallet::new();
    w.store_proofs(MINT, SAT, proofs_for(10, "a")).unwrap();
    w.store_proofs(b"https://other.example", SAT, proofs_for(7, "b")).unwrap();
    w.store_proofs(MINT, b"usd", proofs_for(3, "c")).unwrap();
    assert_eq!(w.balance(MINT, SAT), 10);
    assert_eq!(w.balance(b"https://other.example", SAT), 7);
    assert_eq!(w.balance(MINT, b"usd"), 3);
    assert_eq!(w.balance(b"nowhere", SAT), 0);
}

#[test]
fn spend_checks_funds_first() {
    let mut w = Wallet::new();
    w.store_proofs(MINT, SAT, proofs_for(10, "a")).unwrap();
    assert_eq!(w.begin_spend(MINT, SAT, 11).unwrap_err(), WalletError::InsufficientFunds);
    assert_eq!(w.begin_spend(MINT, SAT, 0).unwrap_err(), WalletError::InvalidAmount);
    assert_eq!(w.balance(MINT, SAT), 10);
    assert_eq!(w.pending_balance(MINT, SAT), 0);
}

#[test]
fn store_refuses_overflow() {
    let mut w = Wallet::new();
    w.store_proofs(MINT, SAT, proofs_for(u64::MAX, "a")).unwrap();
    assert_eq!(w.store_proofs(MINT, SAT, proofs_for(1, "b")), Err(WalletError::InvalidAmount));
    assert_eq!(w.balance(MINT, SAT), u64::MAX);
}

#[test]
fn swap_that_loses_value_is_refused() {
    let mut w = Wallet::new();
    w.store_proofs(MINT, SAT, proofs_for(8, "a")).unwrap();
    let sel = w.begin_spend(MINT, SAT, 5).unwrap();
    assert_eq!(sel.total, 8);
    let r = w.finish_send_swapped(MINT, SAT, None, 5, 0, proofs_for(5, "s"), proofs_for(2, "c"));
    assert_eq!(r.unwrap_err(), WalletError::InvalidAmount);
    assert_eq!(w.pending_balance(MINT, SAT), 8);
}

#[test]
fn commit_swap_stores_change_and_drops_inputs() {
    let mut w = Wallet::new();
    w.store_proofs(MINT, SAT, proofs_for(8, "a")).unwrap();
    w.begin_spend(MINT, SAT, 8).unwrap();
    let inputs = w.commit_swap(MINT, SAT, proofs_for(8, "new")).unwrap();
    assert_eq!(token_sum(&inputs), 8);
    assert_eq!(w.balance(MINT, SAT), 8);
    assert_eq!(w.pending_balance(MINT, SAT), 0);
}

#[test]
fn melt_paid_failed_and_unknown() {
    let mut w = Wallet::new();
    w.store_proofs(MINT, SAT, proofs_for(100, "a")).unwrap();

    w.begin_spend(MINT, SAT, 64).unwrap();
    let e = w.settle_melt(MINT, SAT, b"quote-7", MeltOutcome::Unknown, vec![]).unwrap_err();
    assert_eq!(e.kind, WalletError::AmbiguousSettlement);
    assert_eq!(e.mint_url, MINT.to_vec());
    assert_eq!(e.quote_id, b"quote-7".to_vec());
    assert_eq!(e.proof_count, 1);
    assert_eq!(w.pending_balance(MINT, SAT), 64);
    assert_eq!(w.balance(MINT, SAT), 36);

    assert_eq!(w.settle_melt(MINT, SAT, b"quote-7", MeltOutcome::Failed, vec![]).unwrap(), 0);
    assert_eq!(w.balance(MINT, SAT), 100);

    w.begin_spend(MINT, SAT, 64).unwrap();
    assert_eq!(w.settle_melt(MINT, SAT, b"quote-8", MeltOutcome::Paid, proofs_for(3, "change")).unwrap(), 64);
    assert_eq!(w.balance(MINT, SAT), 39);
    assert_eq!(w.pending_balance(MINT, SAT), 0);
}

#[test]
fn resolve_pending_by_spent_state() {
    let mut w = Wallet::new();
    w.store_proofs(MINT, SAT, proofs_for(7, "a")).unwrap();
    w.begin_spend(MINT, SAT, 7).unwrap();
    let spent: Vec<bool> = w.records.iter().map(|r| r.proof.amount == 4).collect();
    assert_eq!(w.resolve_pending(&spent), 4);
    assert_eq!(w.balance(MINT, SAT), 3);
    assert_eq!(w.pending_balance(MINT, SAT), 0);
}

#[test]
fn no_spend_while_proofs_are_pending() {
    let mut w = Wallet::new();
    w.store_proofs(MINT, SAT, proofs_for(100, "a")).unwrap();
    w.begin_spend(MINT, SAT, 64).unwrap();
    w.settle_melt(MINT, SAT, b"q", MeltOutcome::Unknown, vec![]).unwrap_err();
    assert_eq!(w.begin_spend(MINT, SAT, 4).unwrap_err(), WalletError::PendingUnresolved);
    let spent: Vec<bool> = w.records.iter().map(|_| false).collect();
    assert_eq!(w.resolve_pending(&spent), 0);
    assert_eq!(w.balance(MINT, SAT), 100);
    assert!(w.begin_spend(MINT, SAT, 4).is_ok());
}

#[test]
fn send_must_match_the_requested_amount() {
    let mut w = Wallet::new();
    w.store_proofs(MINT, SAT, proofs_for(8, "a")).unwrap();
    let sel = w.begin_spend(MINT, SAT, 8).unwrap();
    assert!(sel.exact);
    assert_eq!(w.finish_send_exact(MINT, SAT, None, 7).unwrap_err(), WalletError::InvalidAmount);
    assert_eq!(w.pending_balance(MINT, SAT), 8);
    let r = w.finish_send_swapped(MINT, SAT, None, 5, 0, proofs_for(4, "s"), proofs_for(4, "c"));
    assert_eq!(r.unwrap_err(), WalletError::InvalidAmount);
    let t = w.finish_send_exact(MINT, SAT, None, 8).unwrap();
    assert_eq!(token_sum(&t.proofs), 8);
}

#[test]
fn resolve_keeps_other_records_in_order() {
    let mut w = Wallet::new();
    w.store_proofs(MINT, SAT, proofs_for(3, "a")).unwrap();
    w.store_proofs(b"other", SAT, proofs_for(4, "b")).unwrap();
    let before: Vec<Vec<u8>> = w.records.iter().map(|r| r.proof.secret.clone()).collect();
    let none: Vec<bool> = w.records.iter().map(|_| true).collect();
    assert_eq!(w.resolve_pending(&none), 0);
    let after: Vec<Vec<u8>> = w.records.iter().map(|r| r.proof.secret.clone()).collect();
    assert_eq!(before, after);
}

#[test]
fn swap_fee_is_accounted_for() {
    let mut w = Wallet::new();
    w.store_proofs(MINT, SAT, proofs_for(16, "a")).unwrap();
    let sel = w.begin_spend(MINT, SAT, 5).unwrap();
    assert_eq!(sel.total, 16);
    let t = w.finish_send_swapped(MINT, SAT, None, 5, 1, proofs_for(5, "s"), proofs_for(10, "c")).unwrap();
    assert_eq!(token_sum(&t.proofs), 5);
    assert_eq!(w.balance(MINT, SAT), 10);
    assert_eq!(w.pending_balance(MINT, SAT), 0);
}
