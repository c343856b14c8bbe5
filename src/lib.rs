//! Nightly maintenance of a registry of geographic areas: deciding which
//! per-area artifacts to refresh, retrying rate-limited remote queries, and
//! rolling daily address extracts into statistics.

pub mod collation;
pub mod context;
pub mod i18n;
pub mod planner;
pub mod retry;
pub mod run;
pub mod stats;
pub mod text;
