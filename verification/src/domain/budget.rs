use vstd::prelude::*;

verus! {

/// A budget: a spending limit, in cents, that expenses are booked against.
#[derive(Debug)]
pub struct Budget {
    pub id: u128,
    pub name: String,
    pub limit_cents: i64,
    pub notes: Option<String>,
}

/// The fields a client sends to create or update a budget.
#[derive(Debug)]
pub struct BudgetInput {
    pub name: String,
    pub limit_cents: i64,
    pub notes: Option<String>,
}

impl Budget {
    /// The budget that a create request with `input` makes under `id`.
    pub open spec fn created(id: u128, input: BudgetInput) -> Budget {
        Budget { id, name: input.name, limit_cents: input.limit_cents, notes: input.notes }
    }

    /// This budget with its editable fields replaced by `input`; the id stays.
    pub open spec fn edited(self, input: BudgetInput) -> Budget {
        Budget { id: self.id, name: input.name, limit_cents: input.limit_cents, notes: input.notes }
    }
}

impl Clone for Budget {
    fn clone(&self) -> (copy: Self)
        ensures
            copy == *self,
    {
        Budget {
            id: self.id,
            name: self.name.clone(),
            limit_cents: self.limit_cents,
            notes: match &self.notes {
                Some(n) => Some(n.clone()),
                None => None,
            },
        }
    }
}

impl Clone for BudgetInput {
    fn clone(&self) -> (copy: Self)
        ensures
            copy == *self,
    {
        BudgetInput {
            name: self.name.clone(),
            limit_cents: self.limit_cents,
            notes: match &self.notes {
                Some(n) => Some(n.clone()),
                None => None,
            },
        }
    }
}

} // verus!
