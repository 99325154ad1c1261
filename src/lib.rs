//! Session supervision core: startup sequencing of per-session pipes, the
//! line-delta broadcast cycle, the tick-driven backup trigger and the registry
//! of push clients.
pub mod config;
pub mod address;
pub mod backup;
pub mod cursor;
pub mod broadcast;
pub mod startup;
pub mod registry;
