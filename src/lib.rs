//! A catalog of outline-numbered entries, its natural order, a two-phase
//! replace protocol, and a per-entry progress record.
pub mod ism;
pub mod json;
pub mod order;
pub mod progress;
pub mod store;
pub mod strmap;
