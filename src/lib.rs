//! Shared-expense ledger: money parsing and formatting, split engine,
//! incremental balance graph, statements, and the chat record store.

pub mod text;
pub mod error;
pub mod currency;
pub mod amounts;
pub mod format;
pub mod split;
pub mod balance;
pub mod statement;
pub mod store;
pub mod chat;
pub mod spending;
