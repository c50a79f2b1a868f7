use vstd::prelude::*;

verus! {

/// An expense booked against a budget, in cents.
#[derive(Debug)]
pub struct Expense {
    pub id: u128,
    pub budget_id: u128,
    pub description: String,
    pub amount_cents: i64,
}

/// The fields a client sends to create or update an expense.
#[derive(Debug)]
pub struct ExpenseInput {
    pub description: String,
    pub amount_cents: i64,
}

impl Expense {
    /// The expense that a create request with `input` books on `budget_id` under `id`.
    pub open spec fn created(id: u128, budget_id: u128, input: ExpenseInput) -> Expense {
        Expense { id, budget_id, description: input.description, amount_cents: input.amount_cents }
    }

    /// This expense with its description and amount replaced by `input`;
    /// the id and the budget stay.
    pub open spec fn edited(self, input: ExpenseInput) -> Expense {
        Expense {
            id: self.id,
            budget_id: self.budget_id,
            description: input.description,
            amount_cents: input.amount_cents,
        }
    }
}

impl Clone for Expense {
    fn clone(&self) -> (copy: Self)
        ensures
            copy == *self,
    {
        Expense {
            id: self.id,
            budget_id: self.budget_id,
            description: self.description.clone(),
            amount_cents: self.amount_cents,
        }
    }
}

impl Clone for ExpenseInput {
    fn clone(&self) -> (copy: Self)
        ensures
            copy == *self,
    {
        ExpenseInput { description: self.description.clone(), amount_cents: self.amount_cents }
    }
}

} // verus!
