use vstd::prelude::*;

use crate::error::WalletError;

verus! {

/// Where a mint quote stands.
#[derive(Clone, Copy, Debug, PartialEq, Eq, Structural)]
pub enum QuoteState {
    /// The invoice was requested and is not known to be paid.
    Requested,
    /// The mint reports the invoice paid: proofs may be claimed.
    Payable,
    /// Proofs were issued and stored.
    Claimed,
    /// The quote lapsed unpaid.
    Expired,
}

/// What the caller observed since the last step.
#[derive(Clone, Copy, Debug, PartialEq, Eq, Structural)]
pub enum QuoteEvent {
    /// The mint answered a status check.
    Checked { paid: bool },
    /// A status check got no answer.
    CheckFailed,
    /// The claim request returned proofs, now stored.
    ClaimSucceeded,
    /// The claim request got no answer.
    ClaimFailed,
}

/// What the caller should do next.
#[derive(Clone, Copy, Debug, PartialEq, Eq, Structural)]
pub enum QuoteAction {
    /// Wait, then check the quote's status again.
    WaitAndCheck,
    /// Request the proofs for the paid quote.
    Claim,
    /// Nothing is left to do.
    Finished,
    /// Stop with this error; the quote stays resumable unless it expired.
    Stop(WalletError),
}

/// The mint quote's next state and the caller's next action. `failures` counts the network
/// failures so far, `max_failures` is the caller's bound on them, and `now` and `expiry` are
/// seconds since the epoch.
pub fn mint_quote_step(
    state: QuoteState,
    event: QuoteEvent,
    now: u64,
    expiry: u64,
    failures: u32,
    max_failures: u32,
) -> (r: (QuoteState, QuoteAction))
    ensures
        state == QuoteState::Claimed ==> r == (QuoteState::Claimed, QuoteAction::Finished),
        state == QuoteState::Expired ==> r == (
            QuoteState::Expired,
            QuoteAction::Stop(WalletError::QuoteExpired),
        ),
        state == QuoteState::Requested ==> match event {
            QuoteEvent::Checked { paid: true } => r == (QuoteState::Payable, QuoteAction::Claim),
            QuoteEvent::Checked { paid: false } => if now >= expiry {
                r == (QuoteState::Expired, QuoteAction::Stop(WalletError::QuoteExpired))
            } else {
                r == (QuoteState::Requested, QuoteAction::WaitAndCheck)
            },
            QuoteEvent::CheckFailed => if failures < max_failures {
                r == (QuoteState::Requested, QuoteAction::WaitAndCheck)
            } else {
                r == (QuoteState::Requested, QuoteAction::Stop(WalletError::NetworkTimeout))
            },
            _ => r == (QuoteState::Requested, QuoteAction::WaitAndCheck),
        },
        state == QuoteState::Payable ==> match event {
            QuoteEvent::ClaimSucceeded => r == (QuoteState::Claimed, QuoteAction::Finished),
            QuoteEvent::ClaimFailed => r == (
                QuoteState::Payable,
                QuoteAction::Stop(WalletError::MintUnavailable),
            ),
            _ => r == (QuoteState::Payable, QuoteAction::Claim),
        },
{
    match state {
        QuoteState::Claimed => (QuoteState::Claimed, QuoteAction::Finished),
        QuoteState::Expired => (QuoteState::Expired, QuoteAction::Stop(WalletError::QuoteExpired)),
        QuoteState::Requested => match event {
            QuoteEvent::Checked { paid } => {
                if paid {
                    (QuoteState::Payable, QuoteAction::Claim)
                } else if now >= expiry {
                    (QuoteState::Expired, QuoteAction::Stop(WalletError::QuoteExpired))
                } else {
                    (QuoteState::Requested, QuoteAction::WaitAndCheck)
                }
            },
            QuoteEvent::CheckFailed => {
                if failures < max_failures {
                    (QuoteState::Requested, QuoteAction::WaitAndCheck)
                } else {
                    (QuoteState::Requested, QuoteAction::Stop(WalletError::NetworkTimeout))
                }
            },
            _ => (QuoteState::Requested, QuoteAction::WaitAndCheck),
        },
        QuoteState::Payable => match event {
            QuoteEvent::ClaimSucceeded => (QuoteState::Claimed, QuoteAction::Finished),
            QuoteEvent::ClaimFailed => (
                QuoteState::Payable,
                QuoteAction::Stop(WalletError::MintUnavailable),
            ),
            _ => (QuoteState::Payable, QuoteAction::Claim),
        },
    }
}

/// Whether a melt of an invoice for `invoice_msat` millisatoshi, with `fee_reserve` satoshi,
/// fits a balance of `balance` satoshi.
pub fn melt_affordable(invoice_msat: u64, fee_reserve: u64, balance: u64) -> (r: Result<
    (),
    WalletError,
>)
    ensures
        r is Ok <==> invoice_msat as int + fee_reserve as int * 1000 <= balance as int * 1000,
        r is Err ==> r == Err::<(), WalletError>(WalletError::InsufficientFunds),
{
    let need: u128 = invoice_msat as u128 + fee_reserve as u128 * 1000;
    let have: u128 = balance as u128 * 1000;
    if need > have {
        Err(WalletError::InsufficientFunds)
    } else {
        Ok(())
    }
}

/// The satoshi to spend on a melt: the invoice rounded up to whole satoshi, plus the fee reserve.
pub fn melt_input_amount(invoice_msat: u64, fee_reserve: u64) -> (r: Result<u64, WalletError>)
    ensures
        r is Ok <==> (invoice_msat as int + 999) / 1000 + fee_reserve as int <= u64::MAX,
        r matches Ok(v) ==> v == (invoice_msat as int + 999) / 1000 + fee_reserve as int,
        r is Err ==> r == Err::<u64, WalletError>(WalletError::InvalidAmount),
{
    let sats: u64 = invoice_msat / 1000 + if invoice_msat % 1000 == 0 {
        0
    } else {
        1
    };
    assert(sats == (invoice_msat as int + 999) / 1000);
    if fee_reserve > u64::MAX - sats {
        Err(WalletError::InvalidAmount)
    } else {
        Ok(sats + fee_reserve)
    }
}

} // verus!
