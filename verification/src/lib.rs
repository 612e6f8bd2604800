//! TarascaPay: expense splitting and debt settlement for shared groups, with
//! all money in integer cents.
//!
//! The money logic (splitting an expense, settling a group with as few
//! transfers as possible, the dashboard's debts) sits beside the rules of the
//! API: validation, sessions, receipts, groups, expenses and settlements.

pub mod sums;
pub mod order;
pub mod text;
pub mod split;
pub mod settle;
pub mod error;
pub mod validate;
pub mod auth;
pub mod files;
pub mod balances;
pub mod dashboard;
pub mod groups;
pub mod expenses;
pub mod settlements;
pub mod dto;
pub mod config;
pub mod starter;
