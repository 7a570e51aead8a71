//! Merging of databases that share one schema into a single database.
//!
//! The library decides and the caller carries out: it orders the tables so
//! that referenced tables come first (`order`, `run`), plans the queries of
//! each table (`plan`), picks the source that is copied unchecked and says
//! what becomes of every scanned row (`merge`), and gathers the statements
//! into transactions (`insert_manager`). The statements are text for the
//! caller to run on its connections. `effect` tells, over values in place of
//! statements, what a merge does to the destination, and proves what holds
//! of it. `prisma_parser` reads a schema (`data`) from its definition.

pub mod data;
pub mod effect;
pub mod insert_manager;
pub mod merge;
pub mod order;
pub mod plan;
pub mod prisma_parser;
pub mod progress;
pub mod run;
pub mod text;
pub mod utils;
