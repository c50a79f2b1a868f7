mod account;
mod budget;
mod expense;
mod summary;

pub use account::{Account, AccountInput};
pub use budget::{Budget, BudgetInput};
pub use expense::{Expense, ExpenseInput};
pub use summary::BudgetSummary;
