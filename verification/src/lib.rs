use vstd::prelude::*;

pub mod cli;
pub mod command_line;
pub mod config;
pub mod error;
pub mod hippocampus;
pub mod index;
pub mod laws;
pub mod link;
pub mod node;
pub mod output;
pub mod search;
pub mod size;
pub mod structured;
pub mod survey;
pub mod tags;
pub mod text;
pub mod vault;
pub mod vcs;

verus! {
}
