//! A library for a line-oriented personal-finance interchange format and the
//! reports computed over it.
//!
//! The format codec (a fault-tolerant line decoder and a deterministic
//! encoder that is its left inverse) and the aggregation engine (period
//! totals, category ranking, trends and anomaly flags over exact fixed-point
//! decimal amounts) are verified; the surrounding process glue lives outside
//! this crate.

pub mod analysis;
pub mod data;
pub mod dates;
pub mod money;
pub mod quicken;
pub mod text;
pub mod utils;

pub use data::{Account, AccountType, FinancialData, Transaction, TransactionType};
pub use quicken::{QifExporter, QifImporter};
