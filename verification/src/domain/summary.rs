use vstd::prelude::*;

use super::Budget;

verus! {

/// What a budget has spent and has left, in cents.
///
/// The share of the limit that was spent (a float) is derived from these
/// integers by `utilization_parts`.
#[derive(Debug)]
pub struct BudgetSummary {
    pub budget: Budget,
    pub spent_cents: i64,
    pub remaining_cents: i64,
}

impl BudgetSummary {
    /// The summary of `budget` after `spent_cents` were spent.
    pub fn new(budget: Budget, spent_cents: i64) -> (summary: Self)
        requires
            i64::MIN <= budget.limit_cents - spent_cents <= i64::MAX,
        ensures
            summary.budget == budget,
            summary.spent_cents == spent_cents,
            summary.remaining_cents == budget.limit_cents - spent_cents,
    {
        let remaining_cents = budget.limit_cents - spent_cents;
        BudgetSummary { budget, spent_cents, remaining_cents }
    }

    /// The fraction whose value is the budget's utilization, as
    /// `(numerator, denominator)`; `None` where the limit is not positive,
    /// in which case the utilization is zero.
    pub fn utilization_parts(&self) -> (parts: Option<(i64, i64)>)
        ensures
            parts == (if self.budget.limit_cents <= 0 {
                None
            } else {
                Some((self.spent_cents, self.budget.limit_cents))
            }),
    {
        if self.budget.limit_cents <= 0 {
            None
        } else {
            Some((self.spent_cents, self.budget.limit_cents))
        }
    }
}

} // verus!
