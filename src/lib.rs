pub mod align;
pub mod ledger;
pub mod lock;
pub mod token;
