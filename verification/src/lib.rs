//! Verified core of a personal-finance client: currency formatting,
//! spend aggregation, budget and saving-goal bookkeeping, local-state
//! persistence, and the decision logic behind the remote-sync flows.

pub mod aggregate;
pub mod auth;
pub mod budgets;
pub mod currency;
pub mod goal;
pub mod json;
pub mod model;
pub mod settings;
pub mod store;
pub mod sync;
pub mod text;
