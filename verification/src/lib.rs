//! Arbitration of a small pool of attached devices among independent
//! processes on one host.
//!
//! The pool is recorded in a ledger file that maps each device serial to the
//! process holding it. This crate holds the ledger, its text format, the
//! claim pass that reconciles the ledger with the devices that are attached
//! and the processes that are alive, the adjustment of the shared counting
//! semaphore, and the bounded wait for a claimed device to finish booting.
//! Every function is verified against the contract it states.

pub mod adb;
pub mod boot;
pub mod bytes;
pub mod decimal;
pub mod format;
pub mod lockfile;
pub mod pool;
pub mod runtime;
pub mod semaphore;
pub mod slots;
