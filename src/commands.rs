use vstd::prelude::*;

use crate::codec::{hex_decode, read_hex};
use crate::error::WalletError;

verus! {

/// Options of the check-spent command.
pub struct CheckSpentSubCommand {
    /// File path of the proof store.
    pub db_path: Option<String>,
}

/// Options of the command that sends a token locked to one public key.
pub struct CreateLockedTokenSubCommand {
    /// Token memo.
    pub memo: Option<String>,
    /// Public key, in hex, to lock the proofs to.
    pub pubkey: String,
    /// File path of the proof store.
    pub db_path: Option<String>,
}

/// Options of the command that sends a token, locked or not.
pub struct CreateTokenSubCommand {
    /// Token memo.
    pub memo: Option<String>,
    /// Preimage, in hex, of a hash lock.
    pub preimage: Option<String>,
    /// Number of signatures required.
    pub required_sigs: Option<u64>,
    /// Locktime after which the refund keys may spend.
    pub locktime: Option<u64>,
    /// Public keys, in hex, to lock the proofs to.
    pub pubkey: Vec<String>,
    /// Refund public keys, in hex.
    pub refund_keys: Vec<String>,
    /// File path of the proof store.
    pub db_path: Option<String>,
}

/// Options of the command that decodes a token string.
pub struct DecodeTokenSubCommand {
    /// The token string.
    pub token: String,
}

/// Options of the command that pays an invoice.
pub struct MeltSubCommand {
    /// File path of the proof store.
    pub db_path: Option<String>,
}

/// Options of the command that redeems a token.
pub struct ReceiveSubCommand {
    /// The token string.
    pub token: Option<String>,
    /// Nostr key.
    pub nostr_key: Option<String>,
    /// Signing keys, in hex, for locked proofs.
    pub signing_key: Vec<String>,
    /// Nostr relays.
    pub relay: Vec<String>,
    /// Preimages, in hex, for hash-locked proofs.
    pub preimage: Vec<String>,
    /// File path of the proof store.
    pub db_path: Option<String>,
}

/// Options of the command that mints new proofs.
pub struct MintSubCommand {
    pub amount: u64,
    pub unit: String,
    pub mint_url: String,
    /// File path of the proof store.
    pub db_path: Option<String>,
}

/// Options of the command that shows a mint's information.
pub struct MintInfoSubcommand {
    pub mint_url: String,
}

/// Options of the command that restores proofs from the seed.
pub struct RestoreSubCommand {
    pub mint_url: String,
    /// File path of the proof store.
    pub db_path: Option<String>,
}

/// Picks the mint numbered `choice` among those listed with their `balances`, to spend
/// `amount` from it.
pub fn choose_mint_for(balances: &Vec<u64>, choice: usize, amount: u64) -> (r: Result<
    usize,
    WalletError,
>)
    ensures
        choice >= balances@.len() ==> r == Err::<usize, WalletError>(
            WalletError::InvalidMintNumber,
        ),
        choice < balances@.len() && amount > balances@[choice as int] ==> r == Err::<
            usize,
            WalletError,
        >(WalletError::InsufficientFunds),
        choice < balances@.len() && amount <= balances@[choice as int] ==> r == Ok::<
            usize,
            WalletError,
        >(choice),
{
    if choice >= balances.len() {
        return Err(WalletError::InvalidMintNumber);
    }
    if amount > balances[choice] {
        return Err(WalletError::InsufficientFunds);
    }
    Ok(choice)
}

/// Reads a hash-lock preimage: 32 bytes written as 64 lower-case hex digits.
pub fn parse_preimage(hex: &[u8]) -> (r: Result<Vec<u8>, WalletError>)
    ensures
        r is Ok <==> (hex_decode(hex@) matches Some(b) && b.len() == 32),
        r matches Ok(b) ==> hex_decode(hex@) == Some(b@),
        r is Err ==> r == Err::<Vec<u8>, WalletError>(WalletError::MalformedCondition),
{
    assert(hex@.subrange(0, hex@.len() as int) =~= hex@);
    match read_hex(hex, 0) {
        Some(b) => {
            if b.len() == 32 {
                Ok(b)
            } else {
                Err(WalletError::MalformedCondition)
            }
        },
        None => Err(WalletError::MalformedCondition),
    }
}

/// Checks the options of a receive: a Nostr receive is not offered, and a token is needed.
pub fn check_receive_options(options: &ReceiveSubCommand) -> (r: Result<(), WalletError>)
    ensures
        options.nostr_key is Some ==> r == Err::<(), WalletError>(WalletError::NostrUnsupported),
        options.nostr_key is None && options.token is None ==> r == Err::<(), WalletError>(
            WalletError::TokenRequired,
        ),
        options.nostr_key is None && options.token is Some ==> r is Ok,
{
    if options.nostr_key.is_some() {
        return Err(WalletError::NostrUnsupported);
    }
    if options.token.is_none() {
        return Err(WalletError::TokenRequired);
    }
    Ok(())
}

} // verus!
