//! Input events, postings and the error taxonomy of the ledger.

use vstd::prelude::*;

verus! {

/// A validation error.  Every error aborts construction of the whole
/// report: no partial ledger is ever returned.
#[derive(Clone, Copy, Debug, PartialEq, Eq, Structural)]
pub enum ReportError {
    /// An event names a participant that the registry does not hold.
    UnknownParticipant,
    /// An event names a currency that the rate table does not hold.
    UnknownCurrency,
    /// An expense whose split weights are all zero.
    NoShareRecipients,
    /// A care-of pair whose child and parent are the same participant.
    SelfCareOf,
}

/// A direct payment of `amount_minor` minor units of `currency` from one
/// participant to another.
pub struct TransferEvent {
    pub from: String,
    pub to: String,
    pub what: String,
    pub amount_minor: i64,
    pub currency: String,
}

/// A payment by one participant, split across participants by the integer
/// weights in `split`.
pub struct ExpenseEvent {
    pub by: String,
    pub amount_minor: i64,
    pub currency: String,
    pub what: String,
    pub split: Vec<(String, u32)>,
}

/// Everything a report is built from.  Amounts are minor units of their
/// own currency; exchange rates are scaled by `money::RATE_SCALE`.
pub struct ReportInput {
    /// Base currency code.
    pub currency: String,
    /// Currency code to scaled rate, relative to the base currency.
    pub exchange_rates: Vec<(String, u64)>,
    /// Ordered list of participant names; the position is the identity.
    pub participants: Vec<String>,
    /// Child name to parent name.
    pub in_care_of: Vec<(String, String)>,
    pub transfers: Vec<TransferEvent>,
    pub expenses: Vec<ExpenseEvent>,
}

/// One signed ledger entry attributed to one participant, in minor units
/// of the base currency.
#[derive(Clone, Copy, Debug, PartialEq, Eq, Structural)]
pub struct Posting {
    pub participant: usize,
    pub amount_minor: i64,
}

} // verus!
