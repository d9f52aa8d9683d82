//! Payroll, organization registry and vesting contracts of the Disburse
//! protocol, as verified state machines over their ledger state.
pub mod host;
pub mod keyed;
pub mod org_registry;
pub mod payroll;
pub mod vesting;
