//! The commands that a player types, classified.

use vstd::prelude::*;

use crate::text::{chars_to_string, eq_lit, extend, has_prefix, slice, starts_with_lit, to_chars, trim, trimmed};

verus! {

/// A line of user input.
#[derive(Debug, Clone)]
pub enum CommandType {
    Look,
    Help,
    Inventory,
    InventoryTake(String),
    InventoryDrop(String),
    InventoryLook(String),
    InventoryUse(String),
    Move(String),
    Slash(String),
    Empty,
}

/// The mathematical content of a `CommandType`.
pub enum CommandView {
    Look,
    Help,
    Inventory,
    InventoryTake(Seq<char>),
    InventoryDrop(Seq<char>),
    InventoryLook(Seq<char>),
    InventoryUse(Seq<char>),
    Move(Seq<char>),
    Slash(Seq<char>),
    Empty,
}

impl View for CommandType {
    type V = CommandView;

    open spec fn view(&self) -> CommandView {
        match self {
            CommandType::Look => CommandView::Look,
            CommandType::Help => CommandView::Help,
            CommandType::Inventory => CommandView::Inventory,
            CommandType::InventoryTake(s) => CommandView::InventoryTake(s@),
            CommandType::InventoryDrop(s) => CommandView::InventoryDrop(s@),
            CommandType::InventoryLook(s) => CommandView::InventoryLook(s@),
            CommandType::InventoryUse(s) => CommandView::InventoryUse(s@),
            CommandType::Move(s) => CommandView::Move(s@),
            CommandType::Slash(s) => CommandView::Slash(s@),
            CommandType::Empty => CommandView::Empty,
        }
    }
}

/// `c` without the prefix `p`.
pub open spec fn after(c: Seq<char>, p: Seq<char>) -> Seq<char> {
    c.subrange(p.len() as int, c.len() as int)
}

/// The classification of the command line `c`.
pub open spec fn classify_command(c: Seq<char>) -> CommandView {
    if c == "look"@ {
        CommandView::Look
    } else if c == "help"@ {
        CommandView::Help
    } else if c == "inv"@ {
        CommandView::Inventory
    } else if has_prefix(c, "take "@) {
        CommandView::InventoryTake(after(c, "take "@))
    } else if has_prefix(c, "look "@) {
        CommandView::InventoryLook(after(c, "look "@))
    } else if has_prefix(c, "use "@) {
        CommandView::InventoryUse(after(c, "use "@))
    } else if has_prefix(c, "drop "@) {
        CommandView::InventoryDrop(after(c, "drop "@))
    } else if has_prefix(c, "/"@) {
        CommandView::Slash(c)
    } else if trim(c).len() == 0 {
        CommandView::Empty
    } else {
        CommandView::Move(c)
    }
}

/// Whether the command line `c` moves the player (or is otherwise none of
/// the known verbs).
pub open spec fn is_move_command(c: Seq<char>) -> bool {
    classify_command(c) is Move
}

/// The text of a command: what the player typed.
pub open spec fn command_text(c: CommandView) -> Seq<char> {
    match c {
        CommandView::Look => "look"@,
        CommandView::Help => "help"@,
        CommandView::Inventory => "inv"@,
        CommandView::InventoryTake(s) => "take "@ + s,
        CommandView::InventoryDrop(s) => "drop "@ + s,
        CommandView::InventoryLook(s) => "look "@ + s,
        CommandView::InventoryUse(s) => "use "@ + s,
        CommandView::Move(s) => s,
        CommandView::Slash(s) => s,
        CommandView::Empty => "[EMPTY (user pressed just enter)]"@,
    }
}

/// `lit` followed by `rest`, as a `String`.
fn joined(lit: &str, rest: &String) -> (r: String)
    ensures
        r@ == lit@ + rest@,
{
    let mut v = to_chars(lit);
    let w = to_chars(rest.as_str());
    extend(&mut v, &w);
    chars_to_string(&v)
}

/// The characters of `c` after a prefix of `n` characters.
fn suffix_string(c: &Vec<char>, n: usize) -> (r: String)
    requires
        n <= c@.len(),
    ensures
        r@ == c@.subrange(n as int, c@.len() as int),
{
    chars_to_string(&slice(c, n, c.len()))
}

impl CommandType {
    /// Classifies a command line.
    pub fn command_type(cmd: &str) -> (r: CommandType)
        ensures
            r@ == classify_command(cmd@),
    {
        let c = to_chars(cmd);
        if eq_lit(&c, "look") {
            CommandType::Look
        } else if eq_lit(&c, "help") {
            CommandType::Help
        } else if eq_lit(&c, "inv") {
            CommandType::Inventory
        } else if starts_with_lit(&c, "take ") {
            CommandType::InventoryTake(suffix_string(&c, to_chars("take ").len()))
        } else if starts_with_lit(&c, "look ") {
            CommandType::InventoryLook(suffix_string(&c, to_chars("look ").len()))
        } else if starts_with_lit(&c, "use ") {
            CommandType::InventoryUse(suffix_string(&c, to_chars("use ").len()))
        } else if starts_with_lit(&c, "drop ") {
            CommandType::InventoryDrop(suffix_string(&c, to_chars("drop ").len()))
        } else if starts_with_lit(&c, "/") {
            CommandType::Slash(chars_to_string(&c))
        } else if trimmed(&c).len() == 0 {
            CommandType::Empty
        } else {
            CommandType::Move(chars_to_string(&c))
        }
    }

    /// The command as the player types it.
    pub fn to_command_string(&self) -> (r: String)
        ensures
            r@ == command_text(self@),
    {
        match self {
            CommandType::Look => chars_to_string(&to_chars("look")),
            CommandType::Help => chars_to_string(&to_chars("help")),
            CommandType::Inventory => chars_to_string(&to_chars("inv")),
            CommandType::InventoryTake(s) => joined("take ", s),
            CommandType::InventoryDrop(s) => joined("drop ", s),
            CommandType::InventoryLook(s) => joined("look ", s),
            CommandType::InventoryUse(s) => joined("use ", s),
            CommandType::Move(s) => s.clone(),
            CommandType::Slash(s) => s.clone(),
            CommandType::Empty => chars_to_string(&to_chars("[EMPTY (user pressed just enter)]")),
        }
    }

    /// A copy of the command.
    pub fn duplicate(&self) -> (r: CommandType)
        ensures
            r@ == self@,
    {
        match self {
            CommandType::Look => CommandType::Look,
            CommandType::Help => CommandType::Help,
            CommandType::Inventory => CommandType::Inventory,
            CommandType::InventoryTake(s) => CommandType::InventoryTake(s.clone()),
            CommandType::InventoryDrop(s) => CommandType::InventoryDrop(s.clone()),
            CommandType::InventoryLook(s) => CommandType::InventoryLook(s.clone()),
            CommandType::InventoryUse(s) => CommandType::InventoryUse(s.clone()),
            CommandType::Move(s) => CommandType::Move(s.clone()),
            CommandType::Slash(s) => CommandType::Slash(s.clone()),
            CommandType::Empty => CommandType::Empty,
        }
    }
}

/// Whether the command line `c` moves the player.
pub fn is_move(c: &String) -> (r: bool)
    ensures
        r == is_move_command(c@),
{
    match CommandType::command_type(c.as_str()) {
        CommandType::Move(_) => true,
        _ => false,
    }
}

/// A command line that is neither blank nor a meta-command is recorded in
/// the history as typed, so that replaying the history types it again.
pub proof fn lemma_history_replays_line(c: Seq<char>)
    requires
        !(classify_command(c) is Slash),
        !(classify_command(c) is Empty),
    ensures
        command_text(classify_command(c)) == c,
{
    if has_prefix(c, "take "@) || has_prefix(c, "look "@) || has_prefix(c, "use "@) || has_prefix(
        c,
        "drop "@,
    ) {
        let p = if has_prefix(c, "take "@) {
            "take "@
        } else if has_prefix(c, "look "@) {
            "look "@
        } else if has_prefix(c, "use "@) {
            "use "@
        } else {
            "drop "@
        };
        assert(c =~= c.subrange(0, p.len() as int) + after(c, p));
    }
}

} // verus!
