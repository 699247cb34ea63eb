pub mod strs;
pub mod types;
pub mod text;
pub mod deck;
pub mod clock;
pub mod history;
pub mod sorting;
pub mod assoc;
pub mod ledger;
pub mod planner;
pub mod error;
pub mod store;
pub mod term;
pub mod session;
pub mod viz;
pub mod commands;
pub mod review;
pub mod edit;
pub mod complete;
pub mod stats;
pub mod memory;
pub mod setup;
pub mod config;
