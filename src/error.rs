//! Errors that the ledger reports to its callers.

use vstd::prelude::*;

verus! {

/// Why a request to the ledger was refused.
#[derive(PartialEq, Eq, Structural, Clone, Copy, Debug)]
pub enum LedgerError {
    /// The text is not an integer or decimal number.
    InvalidAmount,
    /// The amount exceeds the ledger's ceiling.
    AmountTooLarge,
    /// The amount is zero or negative.
    NonPositiveAmount,
    /// The currency code is not in the currency table.
    UnknownCurrency,
    /// The text is not a valid username.
    InvalidUsername,
    /// An equal split was asked for with no participants.
    EmptyParticipantList,
    /// Name and amount tokens do not pair up.
    OddTokenCount,
    /// The text has more parts than its format allows.
    BadFormat,
    /// The exact amounts add up to more than the total.
    ExactAmountsExceedTotal,
    /// A member tried to pay back themselves.
    SelfPayback,
    /// The total was not known yet.
    MissingTotal,
    /// The currency was not known yet.
    MissingCurrency,
    /// The payer was not known yet.
    MissingCreditor,
    /// A net balance would leave the range of `i64`.
    BalanceOverflow,
    /// Stored edges break the balance graph's rules: a non-positive amount,
    /// a member owing themselves, or two edges for one pair and currency.
    GraphConsistency,
}

impl LedgerError {
    /// The text shown to the member whose input was refused.
    pub fn message(&self) -> String {
        let s: &str = match self {
            LedgerError::InvalidAmount => "Uh-oh! ❌ Please give me a valid number!",
            LedgerError::AmountTooLarge => "Uh-oh! 🥺 This number is too large for me to handle!",
            LedgerError::NonPositiveAmount => "Uh-oh! ❌ Please give me a positive number!",
            LedgerError::UnknownCurrency => "Sorry, unknown currency...",
            LedgerError::InvalidUsername => "Uh-oh! ❌ Please give me a valid username!",
            LedgerError::EmptyParticipantList => "Uh-oh! ❌ Please give me at least one username!",
            LedgerError::OddTokenCount | LedgerError::BadFormat =>
                "Uh-oh! ❌ I don't understand... Please use the following format!",
            LedgerError::ExactAmountsExceedTotal =>
                "Uh-oh! ❌ The amounts you gave me are more than the total paid!",
            LedgerError::SelfPayback => "Uh-oh! ❌ You can't pay back yourself!",
            LedgerError::MissingTotal => "Uh-oh! ❌ The total amount isn't provided.",
            LedgerError::MissingCurrency => "Uh-oh! ❌ The currency isn't provided.",
            LedgerError::MissingCreditor => "Uh-oh! ❌ The payer isn't provided.",
            LedgerError::BalanceOverflow => "Uh-oh! 🥺 This balance is too large for me to handle!",
            LedgerError::GraphConsistency => "🤷 Oops! The stored balances are inconsistent.",
        };
        String::from_str(s)
    }
}

} // verus!
