//! Core consistency layer of a bank back office.
//!
//! The library keeps the derived state of a small banking schema — subbranch
//! asset totals, per-client account-management index rows, and ownership
//! edges — consistent with the primary account rows across multi-step
//! operations that must be atomic.  It also holds the pure aggregation
//! engine that buckets dated monetary records into a year/quarter/month
//! grid for reporting.
//!
//! All monetary amounts are exact decimals ([`decimal::Decimal`]); the
//! storage layer, request routing and presentation live outside this crate
//! and exchange plain values with it.

pub mod decimal;
pub mod parsing;
pub mod calendar;
pub mod errors;
pub mod models;
pub mod host;
pub mod ledger;
pub mod stats;
