//! A per-frame scheduler for scripted scene commands.
//!
//! A program is an ordered list of command descriptors. Once per rendered
//! frame the host ticks the director, which either starts the next commands
//! of the program or polls the commands that are still in flight.

pub mod command;
pub mod director;
pub mod environment;
pub mod laws;
pub mod pol_entity;
pub mod program;
pub mod sce_commands;
pub mod schedule;

