//! An emulator for the fifteen-bit Synacor architecture, together with the
//! text-adventure tooling around it: a parser for the guest's room
//! descriptions, a room graph and an automatic explorer.

pub mod codec;
pub mod command;
pub mod config;
pub mod maze_analyzer;
pub mod output_parser;
pub mod round_trip;
pub mod shell;
pub mod text;
pub mod vm;
