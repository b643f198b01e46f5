//! Rebuilds Windows executables from the memory of a running process.
//!
//! The library decides and computes: it parses captured images, recovers their imports, lays the
//! sections out again as a file, and chooses names, messages and exit codes. Reading the target
//! process, the disk and the console belongs to the program around it.

#![allow(unused_imports)]

pub mod cli;
pub mod dump;
pub mod error;
pub mod memory;
pub mod memory_facts;
pub mod name_facts;
pub mod outcome_facts;
pub mod output;
pub mod path;
pub mod pe;
pub mod process;
pub mod report;
pub mod target_facts;
pub mod text;
