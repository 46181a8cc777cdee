//! The shell between the terminal and the machine: it gathers typed lines,
//! withholds meta-commands from the guest, feeds queued replay input first,
//! and hands the explorer the responses it needs.

use vstd::prelude::*;

use crate::codec::{char_is_printable, is_printable};
use crate::command::{classify_command, command_text, CommandType, CommandView};
use crate::config::Configuration;
use crate::maze_analyzer::{MazeAnalyzer, SolverError, ALLOWED_STEPS};
use crate::output_parser::{digits_value, is_digit, strings_view};
use crate::text::{chars_to_string, eq_lit, has_prefix, slice, starts_with_lit, to_chars};
use crate::vm::{loaded_memory, run_spec, MachineState, RunOutcome, Vm, MEMORY_BYTES};
use crate::codec::VmError;

verus! {

/// The lower-case form of a text, as the standard library computes it.
pub uninterp spec fn lower_of(s: Seq<char>) -> Seq<char>;

/// Relies on `str::to_lowercase`: the result depends on the characters alone.
#[verifier::external_body]
fn lowercase(s: &str) -> (r: String)
    ensures
        r@ == lower_of(s@),
{
    s.to_lowercase()
}

/// What a meta-command asks of the host.
#[derive(Debug, Clone, Copy, PartialEq, Eq, Structural)]
pub enum MetaAction {
    Help,
    ShowState,
    ShowHistory,
    SaveHistory,
    ShowReplay,
    RecordOutput,
    DumpState,
    DumpMemory,
    /// The explorer was granted this many steps.
    Solve(u16),
    ShowPath,
    DumpDot,
}

/// Why the shell refused a line.
#[derive(Debug, Clone)]
pub enum ShellError {
    UnsupportedSlashCommand(String),
    /// `/solve` with something other than a number of steps.
    InvalidSteps(String),
    NotASlashCommand,
    /// Output is being recorded already.
    RecordingActive,
    /// The explorer is idle or waits for output.
    SolverIdle,
    Solver(SolverError),
}

/// Where the next character for the guest comes from.
#[derive(Debug, Clone, Copy, PartialEq, Eq, Structural)]
pub enum InputSource {
    /// The first queued replay character, now taken from the queue.
    Replay(char),
    /// The explorer queued a command: ask again.
    Retry,
    /// Nothing is queued: read the terminal.
    Terminal,
}

/// What a typed character does.
#[derive(Debug, Clone)]
pub struct InputOutcome {
    /// Whether the character goes on to the guest.
    pub deliver: bool,
    /// The meta-command that the line ended, if any.
    pub action: Option<MetaAction>,
    pub error: Option<ShellError>,
    /// A movement command that the line recorded, for the output recording.
    pub echo: Option<String>,
}

/// The number of steps in `/solve <n>`.
pub open spec fn steps_of(d: Seq<char>) -> Option<u16> {
    if d.len() > 0 && (forall|i: int| 0 <= i < d.len() ==> is_digit(#[trigger] d[i])) && digits_value(
        d,
    ) <= u16::MAX {
        Some(digits_value(d) as u16)
    } else {
        None
    }
}

/// The action of a meta-command, given in lower case.
pub open spec fn slash_action(c: Seq<char>) -> Option<MetaAction> {
    if c == "/help"@ {
        Some(MetaAction::Help)
    } else if c == "/show_state"@ {
        Some(MetaAction::ShowState)
    } else if c == "/show_history"@ {
        Some(MetaAction::ShowHistory)
    } else if c == "/save_history"@ {
        Some(MetaAction::SaveHistory)
    } else if c == "/show_replay"@ {
        Some(MetaAction::ShowReplay)
    } else if c == "/record_output"@ {
        Some(MetaAction::RecordOutput)
    } else if c == "/dump_state"@ {
        Some(MetaAction::DumpState)
    } else if c == "/dump_memory"@ {
        Some(MetaAction::DumpMemory)
    } else if c == "/solve"@ {
        Some(MetaAction::Solve(ALLOWED_STEPS))
    } else if has_prefix(c, "/solve "@) {
        match steps_of(c.subrange("/solve "@.len() as int, c.len() as int)) {
            Some(n) => Some(MetaAction::Solve(n)),
            None => None,
        }
    } else if c == "/show_path"@ {
        Some(MetaAction::ShowPath)
    } else if c == "/dump_dot"@ {
        Some(MetaAction::DumpDot)
    } else {
        None
    }
}

/// Each line followed by a newline.
pub open spec fn lines_text(lines: Seq<Seq<char>>) -> Seq<char>
    decreases lines.len(),
{
    if lines.len() == 0 {
        seq![]
    } else {
        lines_text(lines.drop_last()) + lines.last() + seq!['\n']
    }
}

/// The queue that replaying `lines` starts from.
pub open spec fn replay_queue(lines: Seq<Seq<char>>) -> Seq<char> {
    if lines.len() == 0 {
        seq!['\n']
    } else {
        lines_text(lines)
    }
}

/// The byte that the machine reads for `c`: its code modulo `256`.
pub open spec fn byte_of(c: char) -> u8 {
    (c as u32 % 256) as u8
}

/// The byte that the machine reads for `c`.
pub fn char_to_byte(c: char) -> (r: u8)
    ensures
        r == byte_of(c),
{
    (c as u32 % 256) as u8
}

/// The value of a string of decimal digits, if it fits in `u16`.
fn parse_steps(d: &Vec<char>) -> (r: Option<u16>)
    ensures
        r == steps_of(d@),
{
    if d.len() == 0 {
        return None;
    }
    let mut v: u32 = 0;
    let mut i: usize = 0;
    while i < d.len()
        invariant
            i <= d@.len(),
            forall|j: int| 0 <= j < i ==> is_digit(#[trigger] d@[j]),
            v as int == digits_value(d@.subrange(0, i as int)),
            v <= u16::MAX,
        decreases d@.len() - i,
    {
        if !('0' <= d[i] && d[i] <= '9') {
            assert(!is_digit(d@[i as int]));
            return None;
        }
        assert(d@.subrange(0, i + 1).drop_last() =~= d@.subrange(0, i as int));
        let next: u32 = v * 10 + (d[i] as u32 - '0' as u32);
        if next > u16::MAX as u32 {
            proof {
                assert(d@.subrange(0, i + 1).last() == d@[i as int]);
                if forall|j: int| 0 <= j < d@.len() ==> is_digit(#[trigger] d@[j]) {
                    crate::output_parser::lemma_digits_grow(d@, i as int + 1);
                }
            }
            return None;
        }
        v = next;
        i = i + 1;
    }
    assert(d@.subrange(0, d@.len() as int) =~= d@);
    Some(v as u16)
}

/// The explorer's step budget after granting `n` steps, up to `65535`.
pub open spec fn granted(steps: u16, n: u16) -> u16 {
    if steps + n > u16::MAX {
        u16::MAX
    } else {
        (steps + n) as u16
    }
}

/// The action of a meta-command given in lower case, if it is one.
pub fn slash_action_of(c: &Vec<char>) -> (r: Option<MetaAction>)
    ensures
        r == slash_action(c@),
{
    if eq_lit(c, "/help") {
        Some(MetaAction::Help)
    } else if eq_lit(c, "/show_state") {
        Some(MetaAction::ShowState)
    } else if eq_lit(c, "/show_history") {
        Some(MetaAction::ShowHistory)
    } else if eq_lit(c, "/save_history") {
        Some(MetaAction::SaveHistory)
    } else if eq_lit(c, "/show_replay") {
        Some(MetaAction::ShowReplay)
    } else if eq_lit(c, "/record_output") {
        Some(MetaAction::RecordOutput)
    } else if eq_lit(c, "/dump_state") {
        Some(MetaAction::DumpState)
    } else if eq_lit(c, "/dump_memory") {
        Some(MetaAction::DumpMemory)
    } else if eq_lit(c, "/solve") {
        Some(MetaAction::Solve(ALLOWED_STEPS))
    } else if starts_with_lit(c, "/solve ") {
        let d = slice(c, to_chars("/solve ").len(), c.len());
        match parse_steps(&d) {
            Some(n) => Some(MetaAction::Solve(n)),
            None => None,
        }
    } else if eq_lit(c, "/show_path") {
        Some(MetaAction::ShowPath)
    } else if eq_lit(c, "/dump_dot") {
        Some(MetaAction::DumpDot)
    } else {
        None
    }
}

/// What ending the typed line of `old` does, giving `new` and the outcome
/// `r`: the line is cleared; a meta-command is carried out and withheld from
/// the guest; any other non-empty command is recorded as typed and reaches
/// the guest; an error comes only from a refused meta-command or from the
/// explorer while it runs.
pub open spec fn ends_line(old: Shell, new: Shell, r: InputOutcome) -> bool {
    let line = old.current_command_buf@;
    let kind = classify_command(line);
    &&& new.current_command_buf@.len() == 0
    &&& !new.spin_slash_command
    &&& (r.error is Some ==> r.deliver)
    &&& (r.error is Some ==> kind is Slash || old.maze_analyzer.steps_left > 0)
    &&& (kind is Slash && r.error is None ==> r.action == slash_action(lower_of(line)))
    &&& (kind is Slash && slash_action(lower_of(line)) is Some && (slash_action(lower_of(line))
        != Some(MetaAction::RecordOutput) || !old.recording) ==> r.error is None && r.action
        == slash_action(lower_of(line)) && !r.deliver)
    &&& (!(kind is Slash) ==> r.action is None)
    &&& (r.error is None ==> r.deliver == (!old.spin_slash_command && !(kind is Empty) && !(kind is Slash)))
    &&& (kind is Slash || kind is Empty ==> new.commands_history == old.commands_history)
    &&& (r.error is None && !(kind is Slash) && !(kind is Empty) ==> strings_view(new.commands_history@)
        == strings_view(old.commands_history@).push(command_text(kind)))
    &&& (old.maze_analyzer.steps_left == 0 && !(kind is Slash) && !(kind is Empty) ==> r.error is None)
}

/// The operations that the shell offers to its host.
pub trait Commander {
    fn get_replay_commands(&self) -> Vec<String>;

    fn commands_history(&self) -> &Vec<String>;

    fn is_recording_active(&self) -> bool;

    fn record_output(&mut self) -> Result<(), ShellError>;

    fn process_slash_command(&mut self, command: CommandType) -> Result<MetaAction, ShellError>;
}

/// The shell's state.
pub struct Shell {
    pub replay_commands: Option<Vec<String>>,
    /// Characters queued for the guest, first one first.
    pub replay_buffer: Vec<char>,
    pub commands_history: Vec<String>,
    pub recording: bool,
    /// The line typed so far.
    pub current_command_buf: Vec<char>,
    pub maze_analyzer: MazeAnalyzer,
    /// Whether the line being typed is a meta-command, withheld from the guest.
    pub spin_slash_command: bool,
    /// The explorer's last failure, not yet reported.
    pub solver_error: Option<SolverError>,
}

impl Shell {
    pub open spec fn wf(&self) -> bool {
        self.maze_analyzer.wf()
    }

    /// A shell whose replay queue holds `replay_commands`, if given.
    pub fn new(replay_commands: Option<Vec<String>>) -> (r: Shell)
        ensures
            r.wf(),
            r.replay_commands == replay_commands,
            match replay_commands {
                Some(c) => r.replay_buffer@ == replay_queue(strings_view(c@)),
                None => r.replay_buffer@.len() == 0,
            },
            r.commands_history@.len() == 0,
            r.current_command_buf@.len() == 0,
            !r.spin_slash_command,
            !r.recording,
    {
        let mut s = Shell {
            replay_commands,
            replay_buffer: Vec::new(),
            commands_history: Vec::new(),
            recording: false,
            current_command_buf: Vec::new(),
            maze_analyzer: MazeAnalyzer::new(),
            spin_slash_command: false,
            solver_error: None,
        };
        s.load_replay_buffer();
        s
    }

    /// Queues the replay lines, each followed by a newline (one newline for
    /// no line).
    pub fn load_replay_buffer(&mut self)
        requires
            old(self).replay_buffer@.len() == 0,
        ensures
            match old(self).replay_commands {
                Some(c) => final(self).replay_buffer@ == replay_queue(strings_view(c@)),
                None => final(self).replay_buffer@.len() == 0,
            },
            final(self).replay_commands == old(self).replay_commands,
            final(self).commands_history == old(self).commands_history,
            final(self).current_command_buf == old(self).current_command_buf,
            final(self).maze_analyzer == old(self).maze_analyzer,
            final(self).spin_slash_command == old(self).spin_slash_command,
            final(self).recording == old(self).recording,
    {
        let lines = match &self.replay_commands {
            Some(c) => c,
            None => {
                return;
            },
        };
        let mut q: Vec<char> = Vec::new();
        let mut i: usize = 0;
        while i < lines.len()
            invariant
                i <= lines@.len(),
                q@ == lines_text(strings_view(lines@.subrange(0, i as int))),
            decreases lines@.len() - i,
        {
            let w = to_chars(lines[i].as_str());
            crate::text::extend(&mut q, &w);
            q.push('\n');
            proof {
                let s = strings_view(lines@.subrange(0, i + 1));
                assert(s.drop_last() =~= strings_view(lines@.subrange(0, i as int)));
            }
            i = i + 1;
        }
        assert(lines@.subrange(0, lines@.len() as int) =~= lines@);
        if lines.len() == 0 {
            q.push('\n');
            assert(q@ =~= seq!['\n']);
        }
        self.replay_buffer = q;
    }

    /// Where the next character for the guest comes from: the replay queue
    /// first; else, when the explorer runs, the explorer's next command.
    pub fn next_input(&mut self) -> (r: InputSource)
        requires
            old(self).wf(),
        ensures
            final(self).wf(),
            old(self).replay_buffer@.len() > 0 ==> r == InputSource::Replay(old(self).replay_buffer@[0])
                && final(self).replay_buffer@ == old(self).replay_buffer@.drop_first(),
            old(self).replay_buffer@.len() > 0 ==> *final(self) == (Shell {
                replay_buffer: final(self).replay_buffer,
                ..*old(self)
            }),
            old(self).replay_buffer@.len() == 0 && old(self).maze_analyzer.steps_left == 0 ==> r
                == InputSource::Terminal,
            r == InputSource::Retry ==> old(self).replay_buffer@.len() == 0
                && old(self).maze_analyzer.steps_left > 0 && old(self).maze_analyzer.commands_counter
                == old(self).maze_analyzer.last_command_num,
            old(self).replay_buffer@.len() == 0 && old(self).maze_analyzer.commands_counter
                != old(self).maze_analyzer.last_command_num ==> r == InputSource::Terminal,
            old(self).replay_buffer@.len() == 0 && r == InputSource::Terminal ==> final(self).replay_buffer
                == old(self).replay_buffer,
    {
        if self.replay_buffer.len() > 0 {
            let c = self.replay_buffer.remove(0);
            return InputSource::Replay(c);
        }
        match self.solver_response_hook() {
            Ok(()) => InputSource::Retry,
            Err(_) => InputSource::Terminal,
        }
    }

    /// When the explorer has issued a command and its response is in,
    /// folds the response into the graph and lets the explorer choose again.
    pub fn solver_response_hook(&mut self) -> (r: Result<(), ShellError>)
        requires
            old(self).wf(),
        ensures
            final(self).wf(),
            r is Ok ==> old(self).maze_analyzer.steps_left > 0
                && old(self).maze_analyzer.commands_counter == old(self).maze_analyzer.last_command_num,
            old(self).maze_analyzer.steps_left == 0 ==> r is Err,
            old(self).maze_analyzer.steps_left == 0 || old(self).maze_analyzer.commands_counter
                != old(self).maze_analyzer.last_command_num ==> *final(self) == *old(self),
            r is Err ==> final(self).replay_buffer == old(self).replay_buffer,
    {
        if !self.maze_analyzer.is_rambling() || self.maze_analyzer.expect_output() {
            return Err(ShellError::SolverIdle);
        }
        let last = match self.commands_history.last() {
            Some(l) => Some(CommandType::command_type(l.as_str())),
            None => None,
        };
        match self.maze_analyzer.dispatch_response(last) {
            Ok(()) => {},
            Err(e) => {
                return Err(ShellError::Solver(e));
            },
        }
        self.solver_error = self.maze_analyzer.ramble(&mut self.replay_buffer);
        Ok(())
    }

    /// When the explorer runs, folds the response to `command` into the
    /// graph and lets the explorer choose its next command.
    pub fn solver_command_hook(&mut self, command: &CommandType) -> (r: Result<(), ShellError>)
        requires
            old(self).wf(),
        ensures
            final(self).wf(),
            final(self).commands_history == old(self).commands_history,
            final(self).current_command_buf == old(self).current_command_buf,
            final(self).spin_slash_command == old(self).spin_slash_command,
            old(self).maze_analyzer.steps_left == 0 ==> r is Ok && *final(self) == *old(self),
    {
        if self.maze_analyzer.is_rambling() {
            match self.maze_analyzer.dispatch_response(Some(command.duplicate())) {
                Ok(()) => {},
                Err(e) => {
                    return Err(ShellError::Solver(e));
                },
            }
            self.solver_error = self.maze_analyzer.ramble(&mut self.replay_buffer);
        }
        Ok(())
    }

    /// A guest character on its way to the terminal, which the parser gathers.
    pub fn grab_output(&mut self, c: char)
        requires
            old(self).wf(),
        ensures
            final(self).wf(),
            final(self).maze_analyzer.response_buffer@ == old(self).maze_analyzer.response_buffer@.push(c),
            *final(self) == (Shell { maze_analyzer: final(self).maze_analyzer, ..*old(self) }),
            final(self).maze_analyzer == (MazeAnalyzer {
                response_buffer: final(self).maze_analyzer.response_buffer,
                ..old(self).maze_analyzer
            }),
    {
        self.maze_analyzer.push(c);
    }

    /// The explorer's last failure, which is then forgotten.
    pub fn take_solver_error(&mut self) -> (r: Option<SolverError>)
        ensures
            r == old(self).solver_error,
            final(self).solver_error is None,
            final(self).maze_analyzer == old(self).maze_analyzer,
            final(self).replay_buffer == old(self).replay_buffer,
    {
        let e = self.solver_error;
        self.solver_error = None;
        e
    }

    /// Records an accepted command.
    pub fn store_command_to_history(&mut self, command: &CommandType)
        ensures
            strings_view(final(self).commands_history@) == strings_view(old(self).commands_history@).push(
                command_text(command@),
            ),
            final(self).maze_analyzer == old(self).maze_analyzer,
            final(self).current_command_buf == old(self).current_command_buf,
            final(self).spin_slash_command == old(self).spin_slash_command,
    {
        let ghost before = self.commands_history@;
        self.commands_history.push(command.to_command_string());
        assert(strings_view(self.commands_history@) =~= strings_view(before).push(
            command_text(command@),
        ));
    }

    /// Starts recording the guest's output; fails when it is on already.
    pub fn start_recording(&mut self) -> (r: Result<(), ShellError>)
        ensures
            r is Ok <==> !old(self).recording,
            *final(self) == (Shell { recording: true, ..*old(self) }),
    {
        if self.recording {
            return Err(ShellError::RecordingActive);
        }
        self.recording = true;
        Ok(())
    }

    /// Stops recording the guest's output.
    pub fn disable_recording(&mut self)
        ensures
            *final(self) == (Shell { recording: false, ..*old(self) }),
    {
        self.recording = false;
    }

    /// Carries out a meta-command, given as typed; `/solve` grants the
    /// explorer its steps here, `/record_output` turns recording on, the
    /// other actions are the host's to perform. Nothing else changes.
    pub fn process_slash_command(&mut self, command: CommandType) -> (r: Result<MetaAction, ShellError>)
        ensures
            old(self).wf() ==> final(self).wf(),
            match command@ {
                CommandView::Slash(c) => match slash_action(lower_of(c)) {
                    Some(MetaAction::RecordOutput) => (!old(self).recording ==> r == Ok::<
                        MetaAction,
                        ShellError,
                    >(MetaAction::RecordOutput)) && (old(self).recording ==> r is Err),
                    Some(a) => r == Ok::<MetaAction, ShellError>(a),
                    None => r is Err,
                },
                _ => r is Err,
            },
            match r {
                Ok(MetaAction::Solve(n)) => final(self).maze_analyzer == (MazeAnalyzer {
                    steps_left: granted(old(self).maze_analyzer.steps_left, n),
                    ..old(self).maze_analyzer
                }),
                _ => final(self).maze_analyzer == old(self).maze_analyzer,
            },
            (r matches Ok(MetaAction::RecordOutput)) ==> final(self).recording,
            !(r matches Ok(MetaAction::RecordOutput)) ==> final(self).recording == old(self).recording,
            final(self).commands_history == old(self).commands_history,
            final(self).current_command_buf == old(self).current_command_buf,
            final(self).spin_slash_command == old(self).spin_slash_command,
            final(self).replay_buffer == old(self).replay_buffer,
            final(self).replay_commands == old(self).replay_commands,
    {
        let text = match &command {
            CommandType::Slash(c) => c,
            _ => {
                return Err(ShellError::NotASlashCommand);
            },
        };
        let lower = lowercase(text.as_str());
        let c = to_chars(lower.as_str());
        match slash_action_of(&c) {
            Some(MetaAction::Solve(n)) => {
                self.maze_analyzer.solve(n);
                Ok(MetaAction::Solve(n))
            },
            Some(MetaAction::RecordOutput) => {
                self.start_recording()?;
                Ok(MetaAction::RecordOutput)
            },
            Some(a) => Ok(a),
            None => {
                if starts_with_lit(&c, "/solve ") {
                    Err(ShellError::InvalidSteps(lower))
                } else {
                    Err(ShellError::UnsupportedSlashCommand(lower))
                }
            },
        }
    }

    /// Ends the typed line: a meta-command is carried out, any other
    /// command is recorded and shown to the explorer. The result says
    /// whether the newline goes on to the guest, and which meta-command ran.
    pub fn process_command(&mut self) -> (r: InputOutcome)
        requires
            old(self).wf(),
        ensures
            final(self).wf(),
            ends_line(*old(self), *final(self), r),
    {
        let spun = self.spin_slash_command;
        self.spin_slash_command = false;
        let line = chars_to_string(&self.current_command_buf);
        self.current_command_buf.clear();
        let command = CommandType::command_type(line.as_str());
        match command {
            CommandType::Slash(_) => match self.process_slash_command(command.duplicate()) {
                Ok(a) => InputOutcome { deliver: false, action: Some(a), error: None, echo: None },
                Err(e) => InputOutcome { deliver: true, action: None, error: Some(e), echo: None },
            },
            CommandType::Empty => InputOutcome { deliver: false, action: None, error: None, echo: None },
            _ => {
                match self.solver_command_hook(&command) {
                    Ok(()) => {},
                    Err(e) => {
                        return InputOutcome { deliver: true, action: None, error: Some(e), echo: None };
                    },
                }
                self.store_command_to_history(&command);
                let echo = match &command {
                    CommandType::Move(m) => Some(m.clone()),
                    _ => None,
                };
                InputOutcome { deliver: !spun, action: None, error: None, echo }
            },
        }
    }

    /// Takes one typed character: printable ones gather into the line, a
    /// `/` at its start makes it a meta-command, a newline ends it.
    pub fn grab_input(&mut self, c: char) -> (r: InputOutcome)
        requires
            old(self).wf(),
        ensures
            final(self).wf(),
            c != '\n' ==> r.action is None && r.error is None,
            c != '\n' && is_printable(c) ==> final(self).current_command_buf@
                == old(self).current_command_buf@.push(c),
            c == '/' && old(self).current_command_buf@.len() == 0 ==> final(self).spin_slash_command,
            c != '\n' && is_printable(c) ==> r.deliver == !final(self).spin_slash_command,
            c != '\n' && !is_printable(c) ==> !r.deliver && final(self).current_command_buf
                == old(self).current_command_buf,
            c == '\n' ==> ends_line(*old(self), *final(self), r),
            c != '\n' ==> final(self).replay_buffer == old(self).replay_buffer
                && final(self).maze_analyzer == old(self).maze_analyzer
                && final(self).commands_history == old(self).commands_history,
    {
        if c == '\n' {
            return self.process_command();
        }
        if c == '/' {
            if self.current_command_buf.len() == 0 {
                self.spin_slash_command = true;
            }
            self.current_command_buf.push(c);
            return InputOutcome { deliver: !self.spin_slash_command, action: None, error: None, echo: None };
        }
        if char_is_printable(c) {
            self.current_command_buf.push(c);
            return InputOutcome { deliver: !self.spin_slash_command, action: None, error: None, echo: None };
        }
        InputOutcome { deliver: false, action: None, error: None, echo: None }
    }
}

impl Commander for Shell {
    fn get_replay_commands(&self) -> Vec<String> {
        match &self.replay_commands {
            Some(c) => crate::output_parser::copy_strings(c),
            None => Vec::new(),
        }
    }

    fn commands_history(&self) -> &Vec<String> {
        &self.commands_history
    }

    fn is_recording_active(&self) -> bool {
        self.recording
    }

    fn record_output(&mut self) -> Result<(), ShellError> {
        self.start_recording()
    }

    fn process_slash_command(&mut self, command: CommandType) -> Result<MetaAction, ShellError> {
        Shell::process_slash_command(self, command)
    }
}

/// Why a session could not run.
#[derive(Debug, Clone, Copy, PartialEq, Eq, Structural)]
pub enum SessionError {
    /// No ROM was read.
    EmptyRom,
    /// The ROM does not fit in memory.
    RomTooLarge,
    Machine(VmError),
}

/// The bytes that the machine reads for these characters.
pub open spec fn bytes_of(s: Seq<char>) -> Seq<u8> {
    s.map_values(|c: char| byte_of(c))
}

/// The machine right after loading `rom`.
pub open spec fn initial_machine(rom: Seq<u8>) -> MachineState {
    MachineState {
        mem: loaded_memory(rom),
        regs: Seq::new(8, |i: int| 0u16),
        stack: seq![],
        pc: 0,
        halted: false,
    }
}

/// Runs the configured ROM for at most `max_steps` instructions, with the
/// replay lines as its input, each followed by a newline.
pub fn run(config: &Configuration, max_steps: u64) -> (r: Result<RunOutcome, SessionError>)
    ensures
        config.rom@.len() == 0 ==> r == Err::<RunOutcome, SessionError>(SessionError::EmptyRom),
        config.rom@.len() > MEMORY_BYTES ==> r == Err::<RunOutcome, SessionError>(
            SessionError::RomTooLarge,
        ),
        0 < config.rom@.len() <= MEMORY_BYTES ==> match run_spec(
            initial_machine(config.rom@),
            bytes_of(replay_queue(strings_view(config.replay_commands@))),
            max_steps as nat,
        ) {
            Ok((m, out, n, k)) => r is Ok && r->Ok_0.output@ == out && r->Ok_0.instructions == n
                && r->Ok_0.consumed == k,
            Err(e) => r == Err::<RunOutcome, SessionError>(SessionError::Machine(e)),
        },
{
    if config.rom.len() == 0 {
        return Err(SessionError::EmptyRom);
    }
    if config.rom.len() > MEMORY_BYTES {
        return Err(SessionError::RomTooLarge);
    }
    let mut vm = Vm::new_from_rom(&config.rom);
    let shell = Shell::new(Some(config.replay()));
    let mut input: Vec<u8> = Vec::new();
    let mut i: usize = 0;
    while i < shell.replay_buffer.len()
        invariant
            i <= shell.replay_buffer@.len(),
            input@ == bytes_of(shell.replay_buffer@.subrange(0, i as int)),
        decreases shell.replay_buffer@.len() - i,
    {
        input.push(char_to_byte(shell.replay_buffer[i]));
        i = i + 1;
        assert(input@ =~= bytes_of(shell.replay_buffer@.subrange(0, i as int)));
    }
    assert(shell.replay_buffer@.subrange(0, shell.replay_buffer@.len() as int) =~= shell.replay_buffer@);
    assert(vm@ == initial_machine(config.rom@)) by {
        assert(vm@.stack =~= seq![]);
    }
    match vm.run(&input, max_steps) {
        Ok(o) => Ok(o),
        Err(e) => Err(SessionError::Machine(e)),
    }
}

} // verus!
