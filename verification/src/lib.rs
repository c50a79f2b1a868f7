//! FinOps: a small personal-finance service over accounts, budgets and
//! expenses, with its request handling logic verified.

pub mod domain;
pub mod error;
pub mod ids;
pub mod routes;
pub mod services;
pub mod state;
pub mod text;
pub mod laws;
