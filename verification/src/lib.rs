//! An agent that keeps the checkpoints of staking pools on a ledger moving.
//!
//! Once in every interval the agent rebases what remains of a pool's
//! participants, in transactions of bounded size, and it keeps the pool's
//! lookup tables in step with the participants: tables are filled, opened,
//! and retired when a cycle is done. Whatever the agent does it can take up
//! again after a break, from what the ledger and its own registry say.
//!
//! The library decides; the caller reads from the ledger, submits, writes the
//! registry and sleeps. `controller` holds the loop of a pool, `stake` and
//! `submit` what is submitted within a cycle, `tables`, `opening` and
//! `rotation` the life of the lookup tables, `registry` the record of the
//! tables that are open, `account` and `ledger` what the ledger's own
//! libraries read and build.

pub mod account;
pub mod address;
pub mod batch;
pub mod config;
pub mod controller;
pub mod error;
pub mod ledger;
pub mod opening;
pub mod registry;
pub mod rotation;
pub mod stake;
pub mod submit;
pub mod tables;
