//! The parser of the guest's output: it splits what the adventure printed
//! since the last prompt into a title, a description, lists of things, exits
//! and inventory, and free text.

use vstd::prelude::*;

use crate::text::{
    chars_to_string, contains_lit, contains_seq, ends_with_lit, eq_lit, extend, has_prefix,
    has_suffix, slice, starts_with_lit, to_chars, trim, trim_end, trim_start, trimmed, trimmed_end,
    trimmed_start,
};

verus! {

/// The part of a response that the parser is in.
#[derive(Debug, Clone, Copy, PartialEq, Eq, Structural)]
pub enum MessageSections {
    Pretext,
    Message,
    Things,
    Inventory,
    Exits,
    AfterPrompt,
    DoNotUnderstand,
}

/// Output of the shell's own meta-commands, which is no guest response.
#[derive(Debug, Clone, Copy, PartialEq, Eq, Structural)]
pub enum SlashOutput {
    History,
    Help,
    Replay,
    State,
    /// The first line read begins with `/`.
    LeadingSlash,
}

/// Why a response does not follow the grammar.
#[derive(Debug, Clone, Copy, PartialEq, Eq, Structural)]
pub enum ParseFailure {
    ItemInPretext,
    ItemInMessage,
    ItemAfterPrompt,
    ItemInErrorMessage,
    /// Free text between the things of interest and the exits.
    TextAmongThings,
    /// The response does not end at the prompt.
    MissingPrompt,
    /// The exit header announces another number of exits than are listed.
    ExitCountMismatch,
    /// No line was parsed.
    NothingToParse,
}

#[derive(Debug, Clone, Copy, PartialEq, Eq, Structural)]
pub enum OutputParserError {
    SlashCommand(SlashOutput),
    Generic(ParseFailure),
}

/// One parsed response of the adventure.
#[derive(Debug, Clone, PartialEq, Eq, Hash)]
pub struct ResponseParts {
    pub pretext: String,
    pub title: String,
    pub message: String,
    pub inventory: Vec<String>,
    pub things_of_interest: Vec<String>,
    pub exits: Vec<String>,
    pub dont_understand: bool,
}

/// The mathematical content of a `ResponseParts`.
pub struct ResponseView {
    pub pretext: Seq<char>,
    pub title: Seq<char>,
    pub message: Seq<char>,
    pub inventory: Seq<Seq<char>>,
    pub things_of_interest: Seq<Seq<char>>,
    pub exits: Seq<Seq<char>>,
    pub dont_understand: bool,
}

/// The characters of each string.
pub open spec fn strings_view(v: Seq<String>) -> Seq<Seq<char>> {
    v.map_values(|s: String| s@)
}

/// The characters of each character vector.
pub open spec fn lines_view(v: Seq<Vec<char>>) -> Seq<Seq<char>> {
    v.map_values(|s: Vec<char>| s@)
}

impl View for ResponseParts {
    type V = ResponseView;

    open spec fn view(&self) -> ResponseView {
        ResponseView {
            pretext: self.pretext@,
            title: self.title@,
            message: self.message@,
            inventory: strings_view(self.inventory@),
            things_of_interest: strings_view(self.things_of_interest@),
            exits: strings_view(self.exits@),
            dont_understand: self.dont_understand,
        }
    }
}

/// The title in a line `== <title> ==`.
pub open spec fn title_of(line: Seq<char>) -> Option<Seq<char>> {
    let t = trim(line);
    if has_prefix(t, "== "@) && has_suffix(t, " =="@) && t.len() >= "== "@.len() + " =="@.len() {
        Some(t.subrange("== "@.len() as int, t.len() - " =="@.len()))
    } else {
        None
    }
}

pub open spec fn is_digit(c: char) -> bool {
    '0' <= c <= '9'
}

/// The number that a string of decimal digits denotes.
pub open spec fn digits_value(s: Seq<char>) -> int
    decreases s.len(),
{
    if s.len() == 0 {
        0
    } else {
        digits_value(s.drop_last()) * 10 + (s.last() as int - '0' as int)
    }
}

/// The number of exits that a line `There is 1 exit:` or `There are <n> exits:`
/// announces, for `n` below `256`.
pub open spec fn exit_count_of(line: Seq<char>) -> Option<u8> {
    let t = trim(line);
    let head = "There are "@;
    let tail = " exits:"@;
    if t == "There is 1 exit:"@ {
        Some(1u8)
    } else if has_prefix(t, head) && has_suffix(t, tail) && t.len() > head.len() + tail.len() {
        let d = t.subrange(head.len() as int, t.len() - tail.len());
        if (forall|i: int| 0 <= i < d.len() ==> is_digit(#[trigger] d[i])) && digits_value(d)
            <= 255 {
            Some(digits_value(d) as u8)
        } else {
            None
        }
    } else {
        None
    }
}

/// The item in a line `- <item>`, possibly indented.
pub open spec fn item_of(line: Seq<char>) -> Option<Seq<char>> {
    let t = trim_start(line);
    if t.len() >= 2 && t[0] == '-' && t[1] == ' ' {
        Some(trim_end(t.subrange(2, t.len() as int)))
    } else {
        None
    }
}

pub open spec fn is_things_line(line: Seq<char>) -> bool {
    trim(line) == "Things of interest here:"@
}

pub open spec fn is_inventory_line(line: Seq<char>) -> bool {
    trim(line) == "Your inventory:"@
}

pub open spec fn is_prompt_line(line: Seq<char>) -> bool {
    trim(line) == "What do you do?"@
}

pub open spec fn is_not_understood_line(line: Seq<char>) -> bool {
    trim(line) == "I don't understand; try 'help' for instructions."@
}

pub open spec fn is_help_title_line(line: Seq<char>) -> bool {
    trim(line) == "*** Available slash '/' commands: ***"@
}

pub open spec fn is_state_title_line(line: Seq<char>) -> bool {
    trim(line) == "***         Virtual Machine State         ***"@
}

/// A blank line, or one that holds a meta-command.
pub open spec fn is_skipped_line(line: Seq<char>) -> bool {
    trim(line).len() == 0 || (trim_start(line).len() > 0 && trim_start(line)[0] == '/')
}

/// The meta-command output that `line` shows, if any.
pub open spec fn slash_output_of(line: Seq<char>, seen: bool) -> Option<SlashOutput> {
    if contains_seq(line, "commands history  (size:"@) {
        Some(SlashOutput::History)
    } else if is_help_title_line(line) {
        Some(SlashOutput::Help)
    } else if contains_seq(line, "replay commands  (size:"@) {
        Some(SlashOutput::Replay)
    } else if is_state_title_line(line) {
        Some(SlashOutput::State)
    } else if !seen && line.len() > 0 && line[0] == '/' {
        Some(SlashOutput::LeadingSlash)
    } else {
        None
    }
}

/// The parser's state between two lines.
pub struct ParseState {
    pub section: MessageSections,
    /// Whether a line was parsed yet.
    pub seen: bool,
    /// Free text not yet assigned to a part.
    pub buffer: Seq<char>,
    pub pretext: Seq<char>,
    pub title: Seq<char>,
    pub message: Seq<char>,
    pub things: Seq<Seq<char>>,
    pub exits: Seq<Seq<char>>,
    pub inventory: Seq<Seq<char>>,
    pub exits_num: u8,
    pub dont_understand: bool,
}

pub open spec fn initial_state() -> ParseState {
    ParseState {
        section: MessageSections::Pretext,
        seen: false,
        buffer: seq![],
        pretext: seq![],
        title: seq![],
        message: seq![],
        things: seq![],
        exits: seq![],
        inventory: seq![],
        exits_num: 0,
        dont_understand: false,
    }
}

/// Moves the trimmed buffer to the end of `dst`, when it holds text.
pub open spec fn flush_to(buffer: Seq<char>, dst: Seq<char>) -> (Seq<char>, Seq<char>) {
    if trim(buffer).len() > 0 {
        (seq![], dst + trim(buffer))
    } else {
        (buffer, dst)
    }
}

/// The buffer with the trimmed line and a newline added, when it holds text.
pub open spec fn buffer_line(buffer: Seq<char>, line: Seq<char>) -> Seq<char> {
    if trim(line).len() > 0 {
        buffer + trim(line) + seq!['\n']
    } else {
        buffer
    }
}

/// What a line that is neither skipped nor meta-command output does.
pub open spec fn classify_line(st: ParseState, line: Seq<char>) -> Result<
    ParseState,
    OutputParserError,
> {
    if title_of(line) is Some && st.section == MessageSections::Pretext {
        let (b, p) = flush_to(st.buffer, st.pretext);
        Ok(
            ParseState {
                section: MessageSections::Message,
                buffer: b,
                pretext: p,
                title: st.title + title_of(line)->0,
                ..st
            },
        )
    } else if is_things_line(line) && st.section == MessageSections::Message {
        let (b, m) = flush_to(st.buffer, st.message);
        Ok(ParseState { section: MessageSections::Things, buffer: b, message: m, ..st })
    } else if is_inventory_line(line) && st.section == MessageSections::Pretext {
        let (b, p) = flush_to(st.buffer, st.pretext);
        Ok(ParseState { section: MessageSections::Inventory, buffer: b, pretext: p, ..st })
    } else if exit_count_of(line) is Some && (st.section == MessageSections::Things || st.section
        == MessageSections::Message) {
        let n = exit_count_of(line)->0;
        if st.section == MessageSections::Message {
            Ok(
                ParseState {
                    section: MessageSections::Exits,
                    exits_num: n,
                    message: st.message + trim_end(st.buffer),
                    buffer: seq![],
                    ..st
                },
            )
        } else if trim(st.buffer).len() > 0 {
            Err(OutputParserError::Generic(ParseFailure::TextAmongThings))
        } else {
            Ok(ParseState { section: MessageSections::Exits, exits_num: n, ..st })
        }
    } else if is_prompt_line(line) {
        if st.section == MessageSections::Pretext {
            let (b, p) = flush_to(st.buffer, st.pretext);
            Ok(ParseState { section: MessageSections::AfterPrompt, buffer: b, pretext: p, ..st })
        } else {
            Ok(ParseState { section: MessageSections::AfterPrompt, ..st })
        }
    } else if is_not_understood_line(line) {
        let (b, p) = flush_to(st.buffer, st.pretext);
        Ok(
            ParseState {
                section: MessageSections::DoNotUnderstand,
                dont_understand: true,
                buffer: b,
                pretext: p + trim(line),
                ..st
            },
        )
    } else if item_of(line) is Some {
        let item = item_of(line)->0;
        match st.section {
            MessageSections::Things => Ok(ParseState { things: st.things.push(item), ..st }),
            MessageSections::Exits => Ok(ParseState { exits: st.exits.push(item), ..st }),
            MessageSections::Inventory => Ok(
                ParseState { inventory: st.inventory.push(item), ..st },
            ),
            MessageSections::Pretext => Err(OutputParserError::Generic(ParseFailure::ItemInPretext)),
            MessageSections::Message => Err(OutputParserError::Generic(ParseFailure::ItemInMessage)),
            MessageSections::AfterPrompt => Err(
                OutputParserError::Generic(ParseFailure::ItemAfterPrompt),
            ),
            MessageSections::DoNotUnderstand => Err(
                OutputParserError::Generic(ParseFailure::ItemInErrorMessage),
            ),
        }
    } else {
        Ok(ParseState { buffer: buffer_line(st.buffer, line), ..st })
    }
}

/// What one line does to the parser's state.
pub open spec fn parse_line(st: ParseState, line: Seq<char>) -> Result<
    ParseState,
    OutputParserError,
> {
    if slash_output_of(line, st.seen) is Some {
        Err(OutputParserError::SlashCommand(slash_output_of(line, st.seen)->0))
    } else if is_skipped_line(line) {
        Ok(st)
    } else {
        match classify_line(st, line) {
            Ok(s2) => Ok(ParseState { seen: true, ..s2 }),
            Err(e) => Err(e),
        }
    }
}

/// Runs the parser over `text`, the current line having begun with `cur`.
/// Lines end at `'\n'`; a last line without one counts when it is not empty.
pub open spec fn scan(text: Seq<char>, st: ParseState, cur: Seq<char>) -> Result<
    ParseState,
    OutputParserError,
>
    decreases text.len(),
{
    if text.len() == 0 {
        if cur.len() > 0 {
            parse_line(st, cur)
        } else {
            Ok(st)
        }
    } else if text[0] == '\n' {
        match parse_line(st, cur) {
            Ok(s2) => scan(text.drop_first(), s2, seq![]),
            Err(e) => Err(e),
        }
    } else {
        scan(text.drop_first(), st, cur.push(text[0]))
    }
}

/// The response that a finished parse describes, or why there is none.
pub open spec fn finish(st: ParseState) -> Result<ResponseView, OutputParserError> {
    if !st.seen {
        Err(OutputParserError::Generic(ParseFailure::NothingToParse))
    } else if st.section != MessageSections::AfterPrompt {
        Err(OutputParserError::Generic(ParseFailure::MissingPrompt))
    } else if st.exits_num as int != st.exits.len() {
        Err(OutputParserError::Generic(ParseFailure::ExitCountMismatch))
    } else {
        Ok(
            ResponseView {
                pretext: st.pretext,
                title: st.title,
                message: st.message,
                inventory: st.inventory,
                things_of_interest: st.things,
                exits: st.exits,
                dont_understand: st.dont_understand,
            },
        )
    }
}

/// The response that `text` holds, or why it holds none.
pub open spec fn parse_spec(text: Seq<char>) -> Result<ResponseView, OutputParserError> {
    match scan(text, initial_state(), seq![]) {
        Ok(st) => finish(st),
        Err(e) => Err(e),
    }
}

/// The parser's state while it runs.
struct ParserState {
    section: MessageSections,
    seen: bool,
    buffer: Vec<char>,
    pretext: Vec<char>,
    title: Vec<char>,
    message: Vec<char>,
    things: Vec<Vec<char>>,
    exits: Vec<Vec<char>>,
    inventory: Vec<Vec<char>>,
    exits_num: u8,
    dont_understand: bool,
}

impl View for ParserState {
    type V = ParseState;

    closed spec fn view(&self) -> ParseState {
        ParseState {
            section: self.section,
            seen: self.seen,
            buffer: self.buffer@,
            pretext: self.pretext@,
            title: self.title@,
            message: self.message@,
            things: lines_view(self.things@),
            exits: lines_view(self.exits@),
            inventory: lines_view(self.inventory@),
            exits_num: self.exits_num,
            dont_understand: self.dont_understand,
        }
    }
}

/// Appends `item` to a list of character vectors.
pub(crate) fn push_line(v: &mut Vec<Vec<char>>, item: Vec<char>)
    ensures
        lines_view(final(v)@) == lines_view(old(v)@).push(item@),
{
    let ghost before = v@;
    v.push(item);
    assert(lines_view(v@) =~= lines_view(before).push(item@));
}

/// A copy of a list of strings.
pub fn copy_strings(v: &Vec<String>) -> (r: Vec<String>)
    ensures
        strings_view(r@) == strings_view(v@),
{
    let mut r: Vec<String> = Vec::new();
    let mut i: usize = 0;
    while i < v.len()
        invariant
            i <= v@.len(),
            r@.len() == i,
            forall|j: int| 0 <= j < i ==> #[trigger] r@[j]@ == v@[j]@,
        decreases v@.len() - i,
    {
        r.push(v[i].clone());
        i = i + 1;
    }
    assert(strings_view(r@) =~= strings_view(v@));
    r
}

/// The strings of a list of character vectors.
fn lines_to_strings(v: &Vec<Vec<char>>) -> (r: Vec<String>)
    ensures
        strings_view(r@) == lines_view(v@),
{
    let mut r: Vec<String> = Vec::new();
    let mut i: usize = 0;
    while i < v.len()
        invariant
            i <= v@.len(),
            r@.len() == i,
            forall|j: int| 0 <= j < i ==> #[trigger] r@[j]@ == v@[j]@,
        decreases v@.len() - i,
    {
        r.push(chars_to_string(&v[i]));
        i = i + 1;
    }
    assert(strings_view(r@) =~= lines_view(v@));
    r
}

/// The title of a line `== <title> ==`, if it is one.
pub fn is_message_title(line: &Vec<char>) -> (r: Option<Vec<char>>)
    ensures
        match r {
            Some(t) => title_of(line@) == Some(t@),
            None => title_of(line@) is None,
        },
{
    let t = trimmed(line);
    let head = to_chars("== ");
    let tail = to_chars(" ==");
    if starts_with_lit(&t, "== ") && ends_with_lit(&t, " ==") && t.len() >= head.len() && t.len()
        - head.len() >= tail.len() {
        Some(slice(&t, head.len(), t.len() - tail.len()))
    } else {
        None
    }
}

/// The value of a non-empty string of digits, if it is below `256`.
fn small_number(d: &Vec<char>) -> (r: Option<u8>)
    requires
        forall|i: int| 0 <= i < d@.len() ==> is_digit(#[trigger] d@[i]),
    ensures
        match r {
            Some(n) => digits_value(d@) <= 255 && n as int == digits_value(d@),
            None => digits_value(d@) > 255,
        },
{
    let mut v: u32 = 0;
    let mut i: usize = 0;
    while i < d.len()
        invariant
            i <= d@.len(),
            forall|j: int| 0 <= j < d@.len() ==> is_digit(#[trigger] d@[j]),
            v as int == digits_value(d@.subrange(0, i as int)),
            v <= 255,
        decreases d@.len() - i,
    {
        assert(d@.subrange(0, i + 1).drop_last() =~= d@.subrange(0, i as int));
        assert(is_digit(d@[i as int]));
        let next: u32 = v * 10 + (d[i] as u32 - '0' as u32);
        if next > 255 {
            proof {
                lemma_digits_grow(d@, i as int + 1);
            }
            return None;
        }
        v = next;
        i = i + 1;
    }
    assert(d@.subrange(0, d@.len() as int) =~= d@);
    Some(v as u8)
}

proof fn lemma_digits_nonneg(s: Seq<char>)
    requires
        forall|i: int| 0 <= i < s.len() ==> is_digit(#[trigger] s[i]),
    ensures
        digits_value(s) >= 0,
    decreases s.len(),
{
    if s.len() > 0 {
        assert(forall|i: int| 0 <= i < s.drop_last().len() ==> #[trigger] s.drop_last()[i] == s[i]);
        lemma_digits_nonneg(s.drop_last());
    }
}

/// A string of digits denotes no less than any of its prefixes.
pub(crate) proof fn lemma_digits_grow(s: Seq<char>, k: int)
    requires
        0 <= k <= s.len(),
        forall|i: int| 0 <= i < s.len() ==> is_digit(#[trigger] s[i]),
    ensures
        digits_value(s) >= digits_value(s.subrange(0, k)),
    decreases s.len() - k,
{
    if k < s.len() {
        lemma_digits_grow(s, k + 1);
        let p = s.subrange(0, k + 1);
        assert(p.drop_last() =~= s.subrange(0, k));
        assert(forall|i: int| 0 <= i < p.drop_last().len() ==> #[trigger] p.drop_last()[i] == s[i]);
        lemma_digits_nonneg(p.drop_last());
        assert(is_digit(p.last()));
    } else {
        assert(s.subrange(0, k) =~= s);
    }
}

/// The number of exits that an exit header announces, if `line` is one.
pub fn is_exit_title(line: &Vec<char>) -> (r: Option<u8>)
    ensures
        r == exit_count_of(line@),
{
    let t = trimmed(line);
    if eq_lit(&t, "There is 1 exit:") {
        return Some(1);
    }
    let head = to_chars("There are ");
    let tail = to_chars(" exits:");
    if starts_with_lit(&t, "There are ") && ends_with_lit(&t, " exits:") && t.len() > head.len()
        && t.len() - head.len() > tail.len() {
        let d = slice(&t, head.len(), t.len() - tail.len());
        let mut i: usize = 0;
        while i < d.len()
            invariant
                i <= d@.len(),
                forall|j: int| 0 <= j < i ==> is_digit(#[trigger] d@[j]),
                t@ == trim(line@),
                t@ != "There is 1 exit:"@,
                head@ == "There are "@,
                tail@ == " exits:"@,
                has_prefix(t@, head@),
                has_suffix(t@, tail@),
                t@.len() > head@.len() + tail@.len(),
                d@ == t@.subrange(head@.len() as int, t@.len() - tail@.len()),
            decreases d@.len() - i,
        {
            if !('0' <= d[i] && d[i] <= '9') {
                assert(!is_digit(d@[i as int]));
                return None;
            }
            i = i + 1;
        }
        small_number(&d)
    } else {
        None
    }
}

/// The item of a line `- <item>`, if it is one.
pub fn is_item(line: &Vec<char>) -> (r: Option<Vec<char>>)
    ensures
        match r {
            Some(t) => item_of(line@) == Some(t@),
            None => item_of(line@) is None,
        },
{
    let t = trimmed_start(line);
    if t.len() >= 2 && t[0] == '-' && t[1] == ' ' {
        let rest = slice(&t, 2, t.len());
        Some(trimmed_end(&rest))
    } else {
        None
    }
}

pub fn is_things_title(line: &Vec<char>) -> (r: bool)
    ensures
        r == is_things_line(line@),
{
    eq_lit(&trimmed(line), "Things of interest here:")
}

pub fn is_inventory_title(line: &Vec<char>) -> (r: bool)
    ensures
        r == is_inventory_line(line@),
{
    eq_lit(&trimmed(line), "Your inventory:")
}

pub fn is_last_question_line(line: &Vec<char>) -> (r: bool)
    ensures
        r == is_prompt_line(line@),
{
    eq_lit(&trimmed(line), "What do you do?")
}

pub fn is_do_not_understand(line: &Vec<char>) -> (r: bool)
    ensures
        r == is_not_understood_line(line@),
{
    eq_lit(&trimmed(line), "I don't understand; try 'help' for instructions.")
}

pub fn is_slash_help_title(line: &Vec<char>) -> (r: bool)
    ensures
        r == is_help_title_line(line@),
{
    eq_lit(&trimmed(line), "*** Available slash '/' commands: ***")
}

pub fn is_show_state_command(line: &Vec<char>) -> (r: bool)
    ensures
        r == is_state_title_line(line@),
{
    eq_lit(&trimmed(line), "***         Virtual Machine State         ***")
}

pub fn is_commands_history(line: &Vec<char>) -> (r: bool)
    ensures
        r == contains_seq(line@, "commands history  (size:"@),
{
    contains_lit(line, "commands history  (size:")
}

pub fn is_replay_commands(line: &Vec<char>) -> (r: bool)
    ensures
        r == contains_seq(line@, "replay commands  (size:"@),
{
    contains_lit(line, "replay commands  (size:")
}

/// Whether the parser passes over `line`: blank, or a meta-command.
pub fn should_skip(line: &Vec<char>) -> (r: bool)
    ensures
        r == is_skipped_line(line@),
{
    let t = trimmed(line);
    if t.len() == 0 {
        return true;
    }
    let s = trimmed_start(line);
    s.len() > 0 && s[0] == '/'
}

/// Fails when `line` is output of a meta-command rather than of the guest.
pub fn check_for_slash_command_output(line: &Vec<char>, seen: bool) -> (r: Result<
    (),
    OutputParserError,
>)
    ensures
        match slash_output_of(line@, seen) {
            Some(k) => r == Err::<(), OutputParserError>(OutputParserError::SlashCommand(k)),
            None => r is Ok,
        },
{
    if is_commands_history(line) {
        Err(OutputParserError::SlashCommand(SlashOutput::History))
    } else if is_slash_help_title(line) {
        Err(OutputParserError::SlashCommand(SlashOutput::Help))
    } else if is_replay_commands(line) {
        Err(OutputParserError::SlashCommand(SlashOutput::Replay))
    } else if is_show_state_command(line) {
        Err(OutputParserError::SlashCommand(SlashOutput::State))
    } else if !seen && line.len() > 0 && line[0] == '/' {
        Err(OutputParserError::SlashCommand(SlashOutput::LeadingSlash))
    } else {
        Ok(())
    }
}

/// Parses the text that the guest printed up to and including its prompt.
pub struct OutputParser {
    response: Vec<char>,
}

impl View for OutputParser {
    type V = Seq<char>;

    closed spec fn view(&self) -> Seq<char> {
        self.response@
    }
}

impl OutputParser {
    pub fn new(response: &str) -> (r: OutputParser)
        ensures
            r@ == response@,
    {
        OutputParser { response: to_chars(response) }
    }

    pub fn from_chars(response: Vec<char>) -> (r: OutputParser)
        ensures
            r@ == response@,
    {
        OutputParser { response }
    }

    /// Moves the trimmed buffer to the end of `dst` and empties the buffer,
    /// when it holds text.
    pub fn flush_buffer_to(buffer: &mut Vec<char>, dst: &mut Vec<char>)
        ensures
            (final(buffer)@, final(dst)@) == flush_to(old(buffer)@, old(dst)@),
    {
        let t = trimmed(buffer);
        if t.len() > 0 {
            extend(dst, &t);
            buffer.clear();
            assert(buffer@ =~= seq![]);
        }
    }

    /// Adds the trimmed line and a newline to the buffer, when it holds text.
    pub fn flush_line(buffer: &mut Vec<char>, line: &Vec<char>)
        ensures
            final(buffer)@ == buffer_line(old(buffer)@, line@),
    {
        let t = trimmed(line);
        if t.len() == 0 {
            return;
        }
        extend(buffer, &t);
        buffer.push('\n');
    }

    fn classify(st: &mut ParserState, line: &Vec<char>) -> (r: Result<(), OutputParserError>)
        ensures
            match classify_line(old(st)@, line@) {
                Ok(s2) => r is Ok && final(st)@ == s2,
                Err(e) => r == Err::<(), OutputParserError>(e),
            },
    {
        let title = is_message_title(line);
        if title.is_some() && st.section == MessageSections::Pretext {
            Self::flush_buffer_to(&mut st.buffer, &mut st.pretext);
            match title {
                Some(t) => extend(&mut st.title, &t),
                None => {},
            }
            st.section = MessageSections::Message;
            return Ok(());
        }
        if is_things_title(line) && st.section == MessageSections::Message {
            Self::flush_buffer_to(&mut st.buffer, &mut st.message);
            st.section = MessageSections::Things;
            return Ok(());
        }
        if is_inventory_title(line) && st.section == MessageSections::Pretext {
            Self::flush_buffer_to(&mut st.buffer, &mut st.pretext);
            st.section = MessageSections::Inventory;
            return Ok(());
        }
        let exits = is_exit_title(line);
        if exits.is_some() && (st.section == MessageSections::Things || st.section
            == MessageSections::Message) {
            let n = match exits {
                Some(n) => n,
                None => 0,
            };
            if st.section == MessageSections::Message {
                let rest = trimmed_end(&st.buffer);
                extend(&mut st.message, &rest);
                st.buffer.clear();
                assert(st.buffer@ =~= seq![]);
            } else if trimmed(&st.buffer).len() > 0 {
                return Err(OutputParserError::Generic(ParseFailure::TextAmongThings));
            }
            st.exits_num = n;
            st.section = MessageSections::Exits;
            return Ok(());
        }
        if is_last_question_line(line) {
            if st.section == MessageSections::Pretext {
                Self::flush_buffer_to(&mut st.buffer, &mut st.pretext);
            }
            st.section = MessageSections::AfterPrompt;
            return Ok(());
        }
        if is_do_not_understand(line) {
            Self::flush_buffer_to(&mut st.buffer, &mut st.pretext);
            let t = trimmed(line);
            extend(&mut st.pretext, &t);
            st.dont_understand = true;
            st.section = MessageSections::DoNotUnderstand;
            return Ok(());
        }
        match is_item(line) {
            Some(item) => {
                match st.section {
                    MessageSections::Things => push_line(&mut st.things, item),
                    MessageSections::Exits => push_line(&mut st.exits, item),
                    MessageSections::Inventory => push_line(&mut st.inventory, item),
                    MessageSections::Pretext => {
                        return Err(OutputParserError::Generic(ParseFailure::ItemInPretext));
                    },
                    MessageSections::Message => {
                        return Err(OutputParserError::Generic(ParseFailure::ItemInMessage));
                    },
                    MessageSections::AfterPrompt => {
                        return Err(OutputParserError::Generic(ParseFailure::ItemAfterPrompt));
                    },
                    MessageSections::DoNotUnderstand => {
                        return Err(OutputParserError::Generic(ParseFailure::ItemInErrorMessage));
                    },
                }
                Ok(())
            },
            None => {
                Self::flush_line(&mut st.buffer, line);
                Ok(())
            },
        }
    }

    fn take_line(st: &mut ParserState, line: &Vec<char>) -> (r: Result<(), OutputParserError>)
        ensures
            match parse_line(old(st)@, line@) {
                Ok(s2) => r is Ok && final(st)@ == s2,
                Err(e) => r == Err::<(), OutputParserError>(e),
            },
    {
        check_for_slash_command_output(line, st.seen)?;
        if should_skip(line) {
            return Ok(());
        }
        Self::classify(st, line)?;
        st.seen = true;
        Ok(())
    }

    /// Parses the response; see `parse_spec` for the grammar.
    pub fn parse(&self) -> (r: Result<ResponseParts, OutputParserError>)
        ensures
            match parse_spec(self@) {
                Ok(v) => r is Ok && r->Ok_0@ == v,
                Err(e) => r == Err::<ResponseParts, OutputParserError>(e),
            },
    {
        let text = &self.response;
        let mut st = ParserState {
            section: MessageSections::Pretext,
            seen: false,
            buffer: Vec::new(),
            pretext: Vec::new(),
            title: Vec::new(),
            message: Vec::new(),
            things: Vec::new(),
            exits: Vec::new(),
            inventory: Vec::new(),
            exits_num: 0,
            dont_understand: false,
        };
        assert(st@.things =~= seq![]);
        assert(st@.exits =~= seq![]);
        assert(st@.inventory =~= seq![]);
        assert(st@ == initial_state());
        let mut cur: Vec<char> = Vec::new();
        let n = text.len();
        let mut i: usize = 0;
        assert(text@.subrange(0, n as int) =~= text@);
        while i < n
            invariant
                n == text@.len(),
                i <= n,
                text@ == self@,
                scan(self@, initial_state(), seq![]) == scan(
                    text@.subrange(i as int, n as int),
                    st@,
                    cur@,
                ),
            decreases n - i,
        {
            let ghost rest = text@.subrange(i as int, n as int);
            assert(rest.drop_first() =~= text@.subrange(i + 1, n as int));
            if text[i] == '\n' {
                Self::take_line(&mut st, &cur)?;
                cur.clear();
                assert(cur@ =~= seq![]);
            } else {
                cur.push(text[i]);
            }
            i = i + 1;
        }
        assert(text@.subrange(n as int, n as int) =~= seq![]);
        if cur.len() > 0 {
            Self::take_line(&mut st, &cur)?;
        }
        if !st.seen {
            return Err(OutputParserError::Generic(ParseFailure::NothingToParse));
        }
        if st.section != MessageSections::AfterPrompt {
            return Err(OutputParserError::Generic(ParseFailure::MissingPrompt));
        }
        if st.exits_num as usize != st.exits.len() {
            return Err(OutputParserError::Generic(ParseFailure::ExitCountMismatch));
        }
        Ok(
            ResponseParts {
                pretext: chars_to_string(&st.pretext),
                title: chars_to_string(&st.title),
                message: chars_to_string(&st.message),
                inventory: lines_to_strings(&st.inventory),
                things_of_interest: lines_to_strings(&st.things),
                exits: lines_to_strings(&st.exits),
                dont_understand: st.dont_understand,
            },
        )
    }
}

} // verus!
