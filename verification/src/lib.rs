//! A declarative front end for system package managers.
//!
//! Each manager is described by a configuration file. The state of all
//! these files at one moment is a generation; the history of generations
//! can be committed to, rolled back, pruned and renumbered. The difference
//! between two generations says which packages each manager has to install
//! and to remove, and reconciling it yields the commands to run.
//!
//! The library decides and computes; reading and writing files and running
//! commands is left to the program around it, which hands in what it read
//! and carries out what it is told.

pub mod diff;
pub mod document;
pub mod error;
pub mod gen;
pub mod genman;
pub mod globals;
pub mod history;
pub mod laws;
pub mod manager;
pub mod sequence;
pub mod snapshot;
pub mod text;
pub mod util;
