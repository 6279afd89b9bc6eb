//! A shared-expense ledger: groups of participants, expenses split among them
//! in basis points, signed running balances and direct settlements.
pub mod balance;
pub mod ledger;
pub mod laws;

pub use balance::{SplitError, SplitInfo, BASIS_POINTS};
pub use ledger::{Expense, Group, SplitPayment};
