//! The session's configuration: where the ROM and the replay file come from,
//! and their contents once read.

use vstd::prelude::*;

use crate::output_parser::{copy_strings, strings_view};
use crate::text::{chars_to_string, to_chars};

verus! {

/// The ROM file used when none is named.
pub const DEFAULT_ROM_FILE: &'static str = "challenge.bin";

#[derive(Debug)]
pub struct Configuration {
    pub rom_file: String,
    pub replay_file: Option<String>,
    pub rom: Vec<u8>,
    pub replay_commands: Vec<String>,
}

impl Default for Configuration {
    fn default() -> (r: Self)
        ensures
            r.rom@.len() == 0,
            r.replay_commands@.len() == 0,
            r.replay_file is None,
    {
        Configuration {
            rom_file: chars_to_string(&to_chars(DEFAULT_ROM_FILE)),
            replay_file: None,
            rom: Vec::new(),
            replay_commands: Vec::new(),
        }
    }
}

impl Configuration {
    /// A configuration that names its files and holds nothing read yet.
    pub fn new(rom_file: String, replay_file: Option<String>) -> (r: Self)
        ensures
            r.rom_file == rom_file,
            r.replay_file == replay_file,
            r.rom@.len() == 0,
            r.replay_commands@.len() == 0,
    {
        Configuration { rom_file, replay_file, rom: Vec::new(), replay_commands: Vec::new() }
    }

    /// Stores what was read from the ROM file and the replay file.
    pub fn set_contents(&mut self, rom: Vec<u8>, replay_commands: Vec<String>)
        ensures
            final(self).rom == rom,
            final(self).replay_commands == replay_commands,
            final(self).rom_file == old(self).rom_file,
            final(self).replay_file == old(self).replay_file,
    {
        self.rom = rom;
        self.replay_commands = replay_commands;
    }

    /// Whether a ROM was read; the file's existence is the caller's to check.
    pub fn has_rom(&self) -> (r: bool)
        ensures
            r == (self.rom@.len() > 0),
    {
        self.rom.len() > 0
    }

    pub fn rom(&self) -> (r: Vec<u8>)
        ensures
            r@ == self.rom@,
    {
        self.rom.clone()
    }

    pub fn replay(&self) -> (r: Vec<String>)
        ensures
            strings_view(r@) == strings_view(self.replay_commands@),
    {
        copy_strings(&self.replay_commands)
    }

    pub fn rom_n_replay(self) -> (r: (Vec<u8>, Vec<String>))
        ensures
            r.0 == self.rom,
            r.1 == self.replay_commands,
    {
        (self.rom, self.replay_commands)
    }
}

} // verus!
