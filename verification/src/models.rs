//! Input and output data of the settlement engine.
//!
//! Monetary amounts are integers in cents; percentages are integers in basis
//! points (hundredths of a percent), so `PERCENT_SCALE` stands for 100%.

use vstd::prelude::*;

verus! {

/// Largest magnitude, in cents, accepted for a single paid amount.
pub const MAX_AMOUNT_CENTS: i64 = 1_000_000_000_000;

/// Largest accepted number of participants in one request.
pub const MAX_PARTICIPANTS: usize = 10_000;

/// Largest magnitude, in basis points, accepted for a single percentage.
pub const MAX_PERCENT_BP: i64 = 1_000_000;

/// 100%, in basis points.
pub const PERCENT_SCALE: i64 = 10_000;

/// How far, in basis points, the percentage sum may stray from 100%.
pub const PERCENT_TOLERANCE_BP: i64 = 1;

/// Split policy. The wire format carries an open string; every value other
/// than the three recognised ones behaves as a zero-share policy, which
/// `Other` stands for.
#[derive(Clone, Copy, PartialEq, Eq, Structural, Debug)]
pub enum SplitMode {
    Equal,
    Percentage,
    Solo,
    Other,
}

/// One participant of the bill: what they paid (cents), their percentage of
/// the bill (basis points, meaningful in percentage mode) and whether they
/// are the payer (meaningful in solo mode).
pub struct BillSplitParticipant {
    pub name: String,
    pub paid: i64,
    pub percentage: Option<i64>,
    pub is_payer: Option<bool>,
}

/// One settlement request: the split policy, the divisor for equal mode and
/// the participants.
pub struct BillSplitState {
    pub split_mode: SplitMode,
    pub num_people: usize,
    pub participants: Vec<BillSplitParticipant>,
}

/// A single payment instruction: `amount` cents go to participant `to`.
pub struct Payment {
    pub to: String,
    pub amount: i64,
}

/// One output row per input participant, in input order. `payments` is
/// non-empty only when this row is a net debtor.
pub struct SplitResult {
    pub name: String,
    pub paid: i64,
    pub share: i64,
    pub balance: i64,
    pub payments: Vec<Payment>,
}

/// The two validation failures of the engine.
#[derive(Clone, Copy, PartialEq, Eq, Structural, Debug)]
pub enum CalcError {
    NoParticipants,
    BadPercentSum,
}

impl CalcError {
    /// A human-readable description of the failure.
    pub fn message(&self) -> (r: &'static str)
        ensures
            *self is NoParticipants ==> r@ == "Must have at least one participant"@,
            *self is BadPercentSum ==> r@ == "Percentages must sum to 100"@,
    {
        match self {
            CalcError::NoParticipants => "Must have at least one participant",
            CalcError::BadPercentSum => "Percentages must sum to 100",
        }
    }
}

/// The percentage of a participant, absent treated as zero.
pub open spec fn pct_or_zero(p: BillSplitParticipant) -> int {
    match p.percentage {
        Some(v) => v as int,
        None => 0,
    }
}

/// A participant whose amounts are within the engine's fixed-point range.
pub open spec fn participant_wf(p: BillSplitParticipant) -> bool {
    &&& -MAX_AMOUNT_CENTS <= p.paid <= MAX_AMOUNT_CENTS
    &&& -MAX_PERCENT_BP <= pct_or_zero(p) <= MAX_PERCENT_BP
}

/// A request the engine accepts: a positive divisor and a bounded list of
/// in-range participants.
pub open spec fn state_wf(s: BillSplitState) -> bool {
    &&& 1 <= s.num_people
    &&& s.participants@.len() <= MAX_PARTICIPANTS
    &&& forall|i: int|
        0 <= i < s.participants@.len() ==> participant_wf(#[trigger] s.participants@[i])
}

} // verus!
