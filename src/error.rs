use vstd::prelude::*;

verus! {

/// Every way an operation of the wallet core can fail.
#[derive(Clone, Copy, Debug, PartialEq, Eq, Structural)]
pub enum WalletError {
    /// Zero where an output is expected, an overflow, or an amount the policy cannot split.
    InvalidAmount,
    /// The proofs held for the mint and unit do not reach the requested amount.
    InsufficientFunds,
    /// A keyset id the registry has never recorded.
    UnknownKeyset,
    /// A secret or condition that is structurally invalid.
    MalformedCondition,
    /// A well-formed condition that the supplied witness does not satisfy.
    ConditionUnsatisfied,
    /// A token string that is structurally invalid.
    MalformedToken,
    /// A token string whose version tag is not recognized.
    UnsupportedVersion,
    /// The mint could not be reached.
    MintUnavailable,
    /// A call to the mint did not answer in time.
    NetworkTimeout,
    /// The quote expired before it was paid or claimed.
    QuoteExpired,
    /// A melt whose outcome is unknown: its inputs are held pending.
    AmbiguousSettlement,
    /// The quote is not known to the wallet.
    UnknownQuote,
    /// The quote has not been paid yet.
    QuoteUnpaid,
    /// An index that does not name one of the listed mints.
    InvalidMintNumber,
    /// A receive without a token to redeem.
    TokenRequired,
    /// Proofs of this mint and unit are still pending from an earlier operation: they must be
    /// settled, or resolved by a spent-check, before another spend begins.
    PendingUnresolved,
    /// A receive by way of a Nostr key, which this wallet does not offer.
    NostrUnsupported,
}

} // verus!
