//! A fixed-supply fungible-token ledger with verified balance accounting.
mod account;
mod ledger;

pub use account::AccountId;
pub use ledger::{Erc20, Error, Transfer};
