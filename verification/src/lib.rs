//! Keeping `.env` files in sync across git worktrees: parsing `.env` files,
//! comparing and merging them, deciding what a sync does, reading git's
//! answers about worktrees, and the project configuration.

pub mod text;
pub mod error;
pub mod paths;
pub mod envfile;
pub mod laws;
pub mod sync;
pub mod worktree;
pub mod config;
pub mod hook;
