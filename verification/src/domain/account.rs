use vstd::prelude::*;

verus! {

/// An account as the service stores and returns it.
#[derive(Debug)]
pub struct Account {
    pub id: u128,
    pub name: String,
    pub owner: String,
    pub notes: Option<String>,
}

/// The fields a client sends to create or update an account.
#[derive(Debug)]
pub struct AccountInput {
    pub name: String,
    pub owner: String,
    pub notes: Option<String>,
}

impl Account {
    /// The account that a create request with `input` makes under `id`.
    pub open spec fn created(id: u128, input: AccountInput) -> Account {
        Account { id, name: input.name, owner: input.owner, notes: input.notes }
    }

    /// This account with its editable fields replaced by `input`; the id stays.
    pub open spec fn edited(self, input: AccountInput) -> Account {
        Account { id: self.id, name: input.name, owner: input.owner, notes: input.notes }
    }
}

impl Clone for Account {
    fn clone(&self) -> (copy: Self)
        ensures
            copy == *self,
    {
        Account {
            id: self.id,
            name: self.name.clone(),
            owner: self.owner.clone(),
            notes: match &self.notes {
                Some(n) => Some(n.clone()),
                None => None,
            },
        }
    }
}

impl Clone for AccountInput {
    fn clone(&self) -> (copy: Self)
        ensures
            copy == *self,
    {
        AccountInput {
            name: self.name.clone(),
            owner: self.owner.clone(),
            notes: match &self.notes {
                Some(n) => Some(n.clone()),
                None => None,
            },
        }
    }
}

} // verus!
