//! The text that the adventure prints for a room, and the law that the
//! parser reads such a text back into the room it describes.

use vstd::prelude::*;

use crate::output_parser::{
    digits_value, exit_count_of, initial_state, is_digit, is_not_understood_line, is_prompt_line,
    is_skipped_line, is_things_line, item_of, parse_line, parse_spec, scan, slash_output_of,
    title_of, MessageSections, OutputParserError, ParseState, ResponseView,
};
use crate::output_parser::{lines_view, push_line, strings_view, ResponseParts};
use crate::text::{is_blank, to_chars, trim, trim_end, trim_start};

verus! {

/// The decimal digit for `k`, below `10`.
pub open spec fn digit(k: int) -> char {
    seq!['0', '1', '2', '3', '4', '5', '6', '7', '8', '9'][k]
}

/// The decimal notation of `n`.
pub open spec fn decimal(n: nat) -> Seq<char>
    decreases n,
{
    if n < 10 {
        seq![digit(n as int)]
    } else {
        decimal(n / 10).push(digit((n % 10) as int))
    }
}

/// The line that names a room.
pub open spec fn title_line(t: Seq<char>) -> Seq<char> {
    "== "@ + t + " =="@
}

/// The line that lists an entry.
pub open spec fn entry_line(t: Seq<char>) -> Seq<char> {
    seq!['-', ' '] + t
}

/// The lines of a list.
pub open spec fn entry_lines(items: Seq<Seq<char>>) -> Seq<Seq<char>> {
    items.map_values(|t: Seq<char>| entry_line(t))
}

/// The line that announces `n` exits.
pub open spec fn exits_header(n: nat) -> Seq<char> {
    if n == 1 {
        "There is 1 exit:"@
    } else {
        "There are "@ + decimal(n) + " exits:"@
    }
}

/// The lines that the adventure prints for a room, with a blank line after
/// the description, after the things of interest and before the prompt.
pub open spec fn response_lines(r: ResponseView) -> Seq<Seq<char>> {
    seq![title_line(r.title), r.message, seq![]] + (if r.things_of_interest.len() > 0 {
        seq!["Things of interest here:"@] + entry_lines(r.things_of_interest) + seq![seq![]]
    } else {
        seq![]
    }) + seq![exits_header(r.exits.len())] + entry_lines(r.exits) + seq![seq![], "What do you do?"@]
}

/// Lines, each followed by a newline.
pub open spec fn join_lines(ls: Seq<Seq<char>>) -> Seq<char>
    decreases ls.len(),
{
    if ls.len() == 0 {
        seq![]
    } else {
        ls[0] + seq!['\n'] + join_lines(ls.drop_first())
    }
}

/// The text that the adventure prints for a room.
pub open spec fn serialize(r: ResponseView) -> Seq<char> {
    join_lines(response_lines(r))
}

/// A line of text: no newline, no blank at either end, not empty.
pub open spec fn is_single_line(s: Seq<char>) -> bool {
    s.len() > 0 && trim(s) == s && !s.contains('\n')
}

/// A description that the parser keeps as free text.
pub open spec fn is_free_text(m: Seq<char>) -> bool {
    &&& is_single_line(m)
    &&& slash_output_of(m, true) is None
    &&& !is_skipped_line(m)
    &&& !is_things_line(m)
    &&& exit_count_of(m) is None
    &&& !is_prompt_line(m)
    &&& !is_not_understood_line(m)
    &&& item_of(m) is None
}

/// An entry that the parser reads back from its list line.
pub open spec fn is_plain_entry(t: Seq<char>) -> bool {
    &&& !t.contains('\n')
    &&& trim_end(t) == t
    &&& slash_output_of(entry_line(t), true) is None
}

/// A response that the adventure could print: a title, a description, the
/// things of interest and at most `255` exits, each readable on its own line,
/// and no text before the title.
pub open spec fn is_synthesizable(r: ResponseView) -> bool {
    &&& r.pretext.len() == 0
    &&& r.inventory.len() == 0
    &&& !r.dont_understand
    &&& !r.title.contains('\n')
    &&& slash_output_of(title_line(r.title), false) is None
    &&& is_free_text(r.message)
    &&& r.exits.len() <= 255
    &&& forall|i: int| 0 <= i < r.things_of_interest.len() ==> is_plain_entry(#[trigger] r.things_of_interest[i])
    &&& forall|i: int| 0 <= i < r.exits.len() ==> is_plain_entry(#[trigger] r.exits[i])
}

/// The parser run line by line.
pub open spec fn parse_lines(st: ParseState, ls: Seq<Seq<char>>) -> Result<ParseState, OutputParserError>
    decreases ls.len(),
{
    if ls.len() == 0 {
        Ok(st)
    } else {
        match parse_line(st, ls[0]) {
            Ok(s2) => parse_lines(s2, ls.drop_first()),
            Err(e) => Err(e),
        }
    }
}

proof fn lemma_scan_line(line: Seq<char>, rest: Seq<char>, st: ParseState, cur: Seq<char>)
    requires
        !line.contains('\n'),
    ensures
        scan(line + seq!['\n'] + rest, st, cur) == match parse_line(st, cur + line) {
            Ok(s2) => scan(rest, s2, seq![]),
            Err(e) => Err(e),
        },
    decreases line.len(),
{
    let text = line + seq!['\n'] + rest;
    if line.len() == 0 {
        assert(text[0] == '\n');
        assert(text.drop_first() =~= rest);
        assert(cur + line =~= cur);
    } else {
        assert(text[0] == line[0]);
        assert(line[0] != '\n') by {
            if line[0] == '\n' {
                assert(line.contains('\n'));
            }
        }
        let l2 = line.drop_first();
        assert(!l2.contains('\n')) by {
            if l2.contains('\n') {
                let k = choose|k: int| 0 <= k < l2.len() && l2[k] == '\n';
                assert(line[k + 1] == '\n');
            }
        }
        assert(text.drop_first() =~= l2 + seq!['\n'] + rest);
        lemma_scan_line(l2, rest, st, cur.push(line[0]));
        assert(cur.push(line[0]) + l2 =~= cur + line);
    }
}

proof fn lemma_scan_lines(ls: Seq<Seq<char>>, st: ParseState)
    requires
        forall|i: int| 0 <= i < ls.len() ==> !(#[trigger] ls[i]).contains('\n'),
    ensures
        scan(join_lines(ls), st, seq![]) == parse_lines(st, ls),
    decreases ls.len(),
{
    if ls.len() > 0 {
        let rest = join_lines(ls.drop_first());
        assert(join_lines(ls) == ls[0] + seq!['\n'] + rest);
        lemma_scan_line(ls[0], rest, st, seq![]);
        assert(seq![] + ls[0] =~= ls[0]);
        match parse_line(st, ls[0]) {
            Ok(s2) => {
                assert forall|i: int| 0 <= i < ls.drop_first().len() implies !(#[trigger] ls.drop_first()[i]).contains('\n') by {
                    assert(ls.drop_first()[i] == ls[i + 1]);
                }
                lemma_scan_lines(ls.drop_first(), s2);
            },
            Err(e) => {},
        }
    } else {
        assert(join_lines(ls) == Seq::<char>::empty());
    }
}

proof fn lemma_parse_lines_append(st: ParseState, a: Seq<Seq<char>>, b: Seq<Seq<char>>)
    ensures
        parse_lines(st, a + b) == match parse_lines(st, a) {
            Ok(s) => parse_lines(s, b),
            Err(e) => Err(e),
        },
    decreases a.len(),
{
    if a.len() == 0 {
        assert(a + b =~= b);
    } else {
        assert((a + b)[0] == a[0]);
        assert((a + b).drop_first() =~= a.drop_first() + b);
        match parse_line(st, a[0]) {
            Ok(s2) => lemma_parse_lines_append(s2, a.drop_first(), b),
            Err(e) => {},
        }
    }
}

pub(crate) proof fn lemma_trim_lengths(s: Seq<char>)
    ensures
        trim_start(s).len() <= s.len(),
        trim_end(s).len() <= s.len(),
    decreases s.len(),
{
    if s.len() > 0 {
        lemma_trim_lengths(s.drop_first());
        lemma_trim_lengths(s.drop_last());
    }
}

/// Trimming keeps a first character that is not blank.
proof fn lemma_trim_end_keeps_first(s: Seq<char>)
    requires
        s.len() > 0,
        !is_blank(s[0]),
    ensures
        trim_end(s).len() > 0,
        trim_end(s)[0] == s[0],
        trim(s).len() > 0,
        trim(s)[0] == s[0],
    decreases s.len(),
{
    if s.len() > 1 && is_blank(s.last()) {
        assert(s.drop_last()[0] == s[0]);
        lemma_trim_end_keeps_first(s.drop_last());
    }
}

/// A line equal to its trimmed self begins and ends with no blank.
proof fn lemma_trimmed_ends(m: Seq<char>)
    requires
        m.len() > 0,
        trim(m) == m,
    ensures
        !is_blank(m[0]),
        !is_blank(m.last()),
{
    lemma_trim_lengths(m);
    if is_blank(m[0]) {
        lemma_trim_lengths(m.drop_first());
        lemma_trim_lengths(trim_start(m.drop_first()));
        assert(trim(m).len() < m.len());
    }
    if !is_blank(m[0]) && is_blank(m.last()) {
        assert(trim_start(m) == m);
        lemma_trim_lengths(m.drop_last());
        assert(trim(m).len() < m.len());
    }
}

/// A single line followed by a newline trims back to the line.
proof fn lemma_trim_newline(m: Seq<char>)
    requires
        m.len() > 0,
        trim(m) == m,
    ensures
        trim(m + seq!['\n']) == m,
        trim_end(m + seq!['\n']) == m,
{
    lemma_trimmed_ends(m);
    let t = m + seq!['\n'];
    assert(t[0] == m[0]);
    assert(trim_start(t) == t);
    assert(t.drop_last() =~= m);
    assert(trim_end(m) == m);
    assert(trim_end(t) == trim_end(m));
}

/// A line whose first and last characters are not blank is its own trim.
proof fn lemma_trim_fixed(s: Seq<char>)
    requires
        s.len() > 0,
        !is_blank(s[0]),
        !is_blank(s.last()),
    ensures
        trim(s) == s,
{
    assert(trim_start(s) == s);
}

proof fn lemma_digit(k: int)
    requires
        0 <= k < 10,
    ensures
        is_digit(digit(k)),
        digit(k) as int - '0' as int == k,
        digit(k) != '\n',
        !is_blank(digit(k)),
{
    let d = seq!['0', '1', '2', '3', '4', '5', '6', '7', '8', '9'];
    assert(d[0] == '0' && d[1] == '1' && d[2] == '2' && d[3] == '3' && d[4] == '4');
    assert(d[5] == '5' && d[6] == '6' && d[7] == '7' && d[8] == '8' && d[9] == '9');
}

/// The decimal notation of `n` is made of digits and denotes `n`.
proof fn lemma_decimal(n: nat)
    ensures
        decimal(n).len() > 0,
        forall|i: int| 0 <= i < decimal(n).len() ==> is_digit(#[trigger] decimal(n)[i]),
        forall|i: int| 0 <= i < decimal(n).len() ==> #[trigger] decimal(n)[i] != '\n',
        digits_value(decimal(n)) == n,
        n < 10 ==> decimal(n).len() == 1,
        n < 100 ==> decimal(n).len() <= 2,
        n < 1000 ==> decimal(n).len() <= 3,
    decreases n,
{
    if n < 10 {
        lemma_digit(n as int);
        assert(decimal(n).drop_last() =~= Seq::<char>::empty());
        assert(digits_value(Seq::<char>::empty()) == 0);
        assert(digits_value(decimal(n)) == digits_value(decimal(n).drop_last()) * 10 + (decimal(n).last() as int - '0' as int));
    } else {
        lemma_decimal(n / 10);
        lemma_digit((n % 10) as int);
        assert(decimal(n).drop_last() =~= decimal(n / 10));
        assert(forall|i: int| 0 <= i < decimal(n / 10).len() ==> decimal(n)[i] == decimal(n / 10)[i]);
        let q = n / 10;
        let r = n % 10;
        assert(q * 10 + r == n) by (nonlinear_arith)
            requires
                q == n / 10,
                r == n % 10,
        ;
        assert(digits_value(decimal(n)) == digits_value(decimal(n).drop_last()) * 10 + (decimal(n).last() as int - '0' as int));
    }
}

proof fn lemma_no_newline_concat(a: Seq<char>, b: Seq<char>)
    requires
        !a.contains('\n'),
        !b.contains('\n'),
    ensures
        !(a + b).contains('\n'),
{
    if (a + b).contains('\n') {
        let k = choose|k: int| 0 <= k < (a + b).len() && (a + b)[k] == '\n';
        if k < a.len() {
            assert(a[k] == '\n');
        } else {
            assert(b[k - a.len()] == '\n');
        }
    }
}

proof fn reveal_grammar()
    ensures
        "== "@ == seq!['=', '=', ' '],
        " =="@ == seq![' ', '=', '='],
        "There are "@.len() == 10,
        " exits:"@.len() == 7,
        "There is 1 exit:"@.len() == 16,
        "Things of interest here:"@.len() == 24,
        "commands history  (size:"@.len() == 24,
        "replay commands  (size:"@.len() == 23,
        "*** Available slash '/' commands: ***"@.len() == 37,
        "***         Virtual Machine State         ***"@.len() == 45,
        "What do you do?"@.len() == 15,
        "Your inventory:"@.len() == 15,
        "I don't understand; try 'help' for instructions."@.len() == 48,
        "There are "@[0] == 'T',
        "There is 1 exit:"@[0] == 'T',
        "Things of interest here:"@[0] == 'T',
        "What do you do?"@[0] == 'W',
        "I don't understand; try 'help' for instructions."@[0] == 'I',
        " exits:"@[6] == ':',
        !"There are "@.contains('\n'),
        !" exits:"@.contains('\n'),
        !"There is 1 exit:"@.contains('\n'),
        !"Things of interest here:"@.contains('\n'),
        !"What do you do?"@.contains('\n'),
        !"== "@.contains('\n'),
        !" =="@.contains('\n'),
{
    reveal_strlit("== ");
    reveal_strlit(" ==");
    reveal_strlit("There are ");
    reveal_strlit(" exits:");
    reveal_strlit("There is 1 exit:");
    reveal_strlit("Things of interest here:");
    reveal_strlit("commands history  (size:");
    reveal_strlit("replay commands  (size:");
    reveal_strlit("*** Available slash '/' commands: ***");
    reveal_strlit("***         Virtual Machine State         ***");
    reveal_strlit("What do you do?");
    reveal_strlit("Your inventory:");
    reveal_strlit("I don't understand; try 'help' for instructions.");
}

/// A list line reads as its entry in the things and exits lists.
proof fn lemma_entry(st: ParseState, t: Seq<char>)
    requires
        st.section == MessageSections::Things || st.section == MessageSections::Exits,
        st.seen,
        is_plain_entry(t),
    ensures
        parse_line(st, entry_line(t)) == Ok::<ParseState, OutputParserError>(
            if st.section == MessageSections::Things {
                ParseState { things: st.things.push(t), ..st }
            } else {
                ParseState { exits: st.exits.push(t), ..st }
            },
        ),
{
    reveal_grammar();
    let e = entry_line(t);
    assert(e[0] == '-' && e[1] == ' ');
    assert(trim_start(e) == e);
    lemma_trim_end_keeps_first(e);
    assert(trim(e)[0] == '-');
    assert(e.subrange(2, e.len() as int) =~= t);
    assert(item_of(e) == Some(t));
    assert(!is_skipped_line(e));
    assert(trim(e) != "There is 1 exit:"@);
    assert(exit_count_of(e) is None) by {
        if trim(e).len() >= 10 {
            assert(trim(e).subrange(0, 10)[0] == '-');
        }
    }
    assert(!is_prompt_line(e));
    assert(!is_not_understood_line(e));
}

proof fn lemma_entries(st: ParseState, ts: Seq<Seq<char>>)
    requires
        st.section == MessageSections::Things || st.section == MessageSections::Exits,
        st.seen,
        forall|i: int| 0 <= i < ts.len() ==> is_plain_entry(#[trigger] ts[i]),
    ensures
        parse_lines(st, entry_lines(ts)) == Ok::<ParseState, OutputParserError>(
            if st.section == MessageSections::Things {
                ParseState { things: st.things + ts, ..st }
            } else {
                ParseState { exits: st.exits + ts, ..st }
            },
        ),
    decreases ts.len(),
{
    if ts.len() == 0 {
        assert(st.things + ts =~= st.things);
        assert(st.exits + ts =~= st.exits);
    } else {
        let ls = entry_lines(ts);
        assert(ls[0] == entry_line(ts[0]));
        assert(ls.drop_first() =~= entry_lines(ts.drop_first()));
        lemma_entry(st, ts[0]);
        let s2 = if st.section == MessageSections::Things {
            ParseState { things: st.things.push(ts[0]), ..st }
        } else {
            ParseState { exits: st.exits.push(ts[0]), ..st }
        };
        assert forall|i: int| 0 <= i < ts.drop_first().len() implies is_plain_entry(#[trigger] ts.drop_first()[i]) by {
            assert(ts.drop_first()[i] == ts[i + 1]);
        }
        lemma_entries(s2, ts.drop_first());
        assert(st.things.push(ts[0]) + ts.drop_first() =~= st.things + ts);
        assert(st.exits.push(ts[0]) + ts.drop_first() =~= st.exits + ts);
    }
}

proof fn lemma_fixed_lines()
    ensures
        is_prompt_line("What do you do?"@),
        slash_output_of("What do you do?"@, true) is None,
        !is_skipped_line("What do you do?"@),
        is_things_line("Things of interest here:"@),
        slash_output_of("Things of interest here:"@, true) is None,
        !is_skipped_line("Things of interest here:"@),
{
    reveal_grammar();
    reveal_strlit("What do you do?");
    reveal_strlit("Things of interest here:");
    reveal_strlit("commands history  (size:");
    reveal_strlit("replay commands  (size:");
    reveal_strlit("*** Available slash '/' commands: ***");
    reveal_strlit("***         Virtual Machine State         ***");
    let p = "What do you do?"@;
    assert(trim_start(p) == p);
    assert(trim_end(p) == p);
    let t = "Things of interest here:"@;
    assert(trim_start(t) == t);
    assert(trim_end(t) == t);
    let c = "commands history  (size:"@;
    lemma_not_occurs(t, c);
    let q = "replay commands  (size:"@;
    assert(t[0] != q[0] && t[1] != q[0]);
    lemma_not_occurs(t, q);
}

/// A pattern whose first character stands at no possible start does not occur.
proof fn lemma_not_occurs(s: Seq<char>, p: Seq<char>)
    requires
        p.len() > 0,
        forall|i: int| 0 <= i <= s.len() - p.len() ==> s[i] != p[0],
    ensures
        !crate::text::contains_seq(s, p),
{
    if crate::text::contains_seq(s, p) {
        let i = choose|i: int| crate::text::occurs_at(s, p, i);
        assert(s.subrange(i, i + p.len())[0] == s[i]);
    }
}

/// The parser run over one line.
proof fn lemma_parse_single(st: ParseState, l: Seq<char>)
    ensures
        parse_lines(st, seq![l]) == parse_line(st, l),
{
    let ls = seq![l];
    assert(ls[0] == l);
    assert(ls.drop_first() =~= Seq::<Seq<char>>::empty());
    match parse_line(st, l) {
        Ok(s2) => {
            assert(parse_lines(s2, Seq::<Seq<char>>::empty()) == Ok::<ParseState, OutputParserError>(s2));
        },
        Err(e) => {},
    }
}

/// The exit header announces its number and is no other kind of line.
proof fn lemma_exits_header(n: nat)
    requires
        n <= 255,
    ensures
        exit_count_of(exits_header(n)) == Some(n as u8),
        slash_output_of(exits_header(n), true) is None,
        !is_skipped_line(exits_header(n)),
        !is_things_line(exits_header(n)),
        !exits_header(n).contains('\n'),
{
    reveal_grammar();
    let h = exits_header(n);
    if n == 1 {
        reveal_strlit("There is 1 exit:");
        reveal_strlit("commands history  (size:");
        reveal_strlit("replay commands  (size:");
        reveal_strlit("*** Available slash '/' commands: ***");
        reveal_strlit("***         Virtual Machine State         ***");
        reveal_strlit("Things of interest here:");
        assert(trim_start(h) == h);
        assert(trim_end(h) == h);
        assert(trim(h) == h);
    } else {
        lemma_decimal(n);
        let d = decimal(n);
        assert(h.len() == 17 + d.len());
        assert(h[0] == 'T');
        assert(h.last() == ':');
        lemma_trim_fixed(h);
        assert(h != "There is 1 exit:"@);
        assert(h.subrange(0, 10) =~= "There are "@);
        assert(h.subrange(h.len() - 7, h.len() as int) =~= " exits:"@);
        assert(h.subrange(10, h.len() - 7) =~= d);
        assert(exit_count_of(h) == Some(n as u8));
        lemma_no_newline_concat("There are "@, d);
        lemma_no_newline_concat("There are "@ + d, " exits:"@);
        assert(!d.contains('\n'));
    }
}

/// No line holds a newline.
pub open spec fn single_lines(ls: Seq<Seq<char>>) -> bool {
    forall|i: int| 0 <= i < ls.len() ==> !(#[trigger] ls[i]).contains('\n')
}

proof fn lemma_single_concat(a: Seq<Seq<char>>, b: Seq<Seq<char>>)
    requires
        single_lines(a),
        single_lines(b),
    ensures
        single_lines(a + b),
{
    assert forall|i: int| 0 <= i < (a + b).len() implies !(#[trigger] (a + b)[i]).contains('\n') by {
        if i < a.len() {
            assert((a + b)[i] == a[i]);
        } else {
            assert((a + b)[i] == b[i - a.len()]);
        }
    }
}

proof fn lemma_entry_lines_single(items: Seq<Seq<char>>)
    requires
        forall|i: int| 0 <= i < items.len() ==> is_plain_entry(#[trigger] items[i]),
    ensures
        single_lines(entry_lines(items)),
{
    assert forall|i: int| 0 <= i < entry_lines(items).len() implies !(#[trigger] entry_lines(items)[i]).contains('\n') by {
        assert(is_plain_entry(items[i]));
        assert(!seq!['-', ' '].contains('\n')) by {
            if seq!['-', ' '].contains('\n') {
                let k = choose|k: int| 0 <= k < 2 && seq!['-', ' '][k] == '\n';
            }
        }
        lemma_no_newline_concat(seq!['-', ' '], items[i]);
    }
}

/// A blank line changes nothing.
proof fn lemma_blank_line(st: ParseState)
    ensures
        parse_line(st, Seq::<char>::empty()) == Ok::<ParseState, OutputParserError>(st),
{
    reveal_grammar();
    let b = Seq::<char>::empty();
    assert(trim_start(b) == b);
    assert(trim_end(b) == b);
    assert(!crate::text::contains_seq(b, "commands history  (size:"@));
    assert(!crate::text::contains_seq(b, "replay commands  (size:"@));
}

/// The parser reads back a synthesizable response from the text that the
/// adventure prints for it.
pub proof fn lemma_parse_serialize(r: ResponseView)
    requires
        is_synthesizable(r),
    ensures
        parse_spec(serialize(r)) == Ok::<ResponseView, OutputParserError>(r),
{
    reveal_grammar();
    lemma_fixed_lines();
    let t = r.title;
    let m = r.message;
    let n = r.exits.len();
    lemma_exits_header(n);
    let tl = title_line(t);
    let blank = Seq::<char>::empty();
    let first = seq![tl, m, blank];
    let things_core = seq!["Things of interest here:"@] + entry_lines(r.things_of_interest);
    let things = if r.things_of_interest.len() > 0 {
        things_core + seq![blank]
    } else {
        seq![]
    };
    let hdr = seq![exits_header(n)];
    let ex = entry_lines(r.exits);
    let tail = seq![blank, "What do you do?"@];
    let ls = response_lines(r);
    assert(ls =~= first + things + hdr + ex + tail);
    // no line holds a newline
    lemma_no_newline_concat("== "@, t);
    lemma_no_newline_concat("== "@ + t, " =="@);
    assert(!blank.contains('\n'));
    assert(single_lines(first)) by {
        assert(first[0] == tl && first[1] == m && first[2] == blank);
    }
    lemma_entry_lines_single(r.things_of_interest);
    lemma_entry_lines_single(r.exits);
    lemma_single_concat(seq!["Things of interest here:"@], entry_lines(r.things_of_interest));
    lemma_single_concat(things_core, seq![blank]);
    assert(single_lines(hdr));
    assert(single_lines(tail)) by {
        assert(tail[0] == blank && tail[1] == "What do you do?"@);
    }
    lemma_single_concat(first, things);
    lemma_single_concat(first + things, hdr);
    lemma_single_concat(first + things + hdr, ex);
    lemma_single_concat(first + things + hdr + ex, tail);
    lemma_scan_lines(ls, initial_state());
    // the title line
    assert(tl[0] == '=' && tl.last() == '=');
    lemma_trim_fixed(tl);
    assert(tl.subrange(0, 3) =~= "== "@);
    assert(tl.subrange(tl.len() - 3, tl.len() as int) =~= " =="@);
    assert(tl.subrange(3, tl.len() - 3) =~= t);
    assert(title_of(tl) == Some(t));
    assert(!is_skipped_line(tl));
    assert(crate::output_parser::flush_to(seq![], seq![]) == (Seq::<char>::empty(), Seq::<char>::empty()));
    let s1 = ParseState { section: MessageSections::Message, seen: true, title: t, ..initial_state() };
    assert(seq![] + t =~= t);
    assert(parse_line(initial_state(), tl) == Ok::<ParseState, OutputParserError>(s1));
    // the description
    assert(m + seq!['\n'] =~= Seq::<char>::empty() + trim(m) + seq!['\n']);
    let s2 = ParseState { buffer: m + seq!['\n'], ..s1 };
    assert(parse_line(s1, m) == Ok::<ParseState, OutputParserError>(s2));
    assert(first =~= seq![tl] + seq![m] + seq![blank]);
    lemma_parse_single(initial_state(), tl);
    lemma_parse_single(s1, m);
    lemma_parse_lines_append(initial_state(), seq![tl], seq![m]);
    lemma_blank_line(s2);
    lemma_parse_single(s2, blank);
    lemma_parse_lines_append(initial_state(), seq![tl] + seq![m], seq![blank]);
    assert(parse_lines(initial_state(), first) == Ok::<ParseState, OutputParserError>(s2));
    lemma_trim_newline(m);
    // the things of interest
    let s5 = if r.things_of_interest.len() > 0 {
        let s3 = ParseState { section: MessageSections::Things, buffer: seq![], message: m, ..s2 };
        assert(Seq::<char>::empty() + m =~= m);
        assert(parse_line(s2, "Things of interest here:"@) == Ok::<ParseState, OutputParserError>(s3));
        lemma_entries(s3, r.things_of_interest);
        let s4 = ParseState { things: s3.things + r.things_of_interest, ..s3 };
        assert(things_core[0] == "Things of interest here:"@);
        assert(things_core.drop_first() =~= entry_lines(r.things_of_interest));
        assert(parse_lines(s2, things_core) == Ok::<ParseState, OutputParserError>(s4));
        lemma_blank_line(s4);
        lemma_parse_single(s4, blank);
        lemma_parse_lines_append(s2, things_core, seq![blank]);
        assert(parse_lines(s2, things) == Ok::<ParseState, OutputParserError>(s4));
        assert(s3.things + r.things_of_interest =~= r.things_of_interest);
        assert(trim(s4.buffer).len() == 0);
        let s5 = ParseState { section: MessageSections::Exits, exits_num: n as u8, ..s4 };
        assert(parse_line(s4, exits_header(n)) == Ok::<ParseState, OutputParserError>(s5));
        lemma_parse_lines_append(s2, things, hdr);
        lemma_parse_single(s4, exits_header(n));
        s5
    } else {
        assert(parse_lines(s2, things) == Ok::<ParseState, OutputParserError>(s2));
        assert(Seq::<char>::empty() + m =~= m);
        let s5 = ParseState {
            section: MessageSections::Exits,
            exits_num: n as u8,
            message: m,
            buffer: seq![],
            ..s2
        };
        assert(parse_line(s2, exits_header(n)) == Ok::<ParseState, OutputParserError>(s5));
        lemma_parse_lines_append(s2, things, hdr);
        lemma_parse_single(s2, exits_header(n));
        s5
    };
    assert(parse_lines(s2, things + hdr) == Ok::<ParseState, OutputParserError>(s5));
    // the exits and the prompt
    lemma_entries(s5, r.exits);
    let s6 = ParseState { exits: s5.exits + r.exits, ..s5 };
    let s7 = ParseState { section: MessageSections::AfterPrompt, ..s6 };
    assert(parse_line(s6, "What do you do?"@) == Ok::<ParseState, OutputParserError>(s7));
    lemma_parse_single(s6, "What do you do?"@);
    lemma_blank_line(s6);
    lemma_parse_single(s6, blank);
    assert(tail =~= seq![blank] + seq!["What do you do?"@]);
    lemma_parse_lines_append(s6, seq![blank], seq!["What do you do?"@]);
    assert(parse_lines(s6, tail) == Ok::<ParseState, OutputParserError>(s7));
    lemma_parse_lines_append(s5, ex, tail);
    let rest = (things + hdr) + (ex + tail);
    lemma_parse_lines_append(s2, things + hdr, ex + tail);
    lemma_parse_lines_append(initial_state(), first, rest);
    assert(ls =~= first + rest);
    assert(s5.exits + r.exits =~= r.exits);
    assert(parse_lines(initial_state(), ls) == Ok::<ParseState, OutputParserError>(s7));
    assert(r.pretext =~= Seq::<char>::empty());
    assert(r.inventory =~= Seq::<Seq<char>>::empty());
    if r.things_of_interest.len() == 0 {
        assert(r.things_of_interest =~= Seq::<Seq<char>>::empty());
    }
    assert(s7.things == r.things_of_interest);
    assert(crate::output_parser::finish(s7) == Ok::<ResponseView, OutputParserError>(r));
    assert(serialize(r) == crate::round_trip::join_lines(ls));
}

/// The decimal notation of `n`.
fn decimal_chars(n: u8) -> (r: Vec<char>)
    ensures
        r@ == decimal(n as nat),
{
    let table = ['0', '1', '2', '3', '4', '5', '6', '7', '8', '9'];
    let ghost d = seq!['0', '1', '2', '3', '4', '5', '6', '7', '8', '9'];
    assert(table@ =~= d);
    let mut r: Vec<char> = Vec::new();
    if n >= 100 {
        r.push(table[(n / 100) as usize]);
    }
    if n >= 10 {
        r.push(table[((n / 10) % 10) as usize]);
    }
    r.push(table[(n % 10) as usize]);
    proof {
        let m = n as nat;
        if m >= 100 {
            assert(decimal(m / 10) == decimal(m / 100).push(digit(((m / 10) % 10) as int)));
            assert((m / 10) / 10 == m / 100);
        }
        if m >= 10 {
            assert(decimal(m) == decimal(m / 10).push(digit((m % 10) as int)));
        }
        assert(r@ =~= decimal(m));
    }
    r
}

/// The lines, each followed by a newline.
fn join_chars(ls: &Vec<Vec<char>>) -> (r: Vec<char>)
    ensures
        r@ == join_lines(lines_view(ls@)),
{
    let ghost v = lines_view(ls@);
    let mut r: Vec<char> = Vec::new();
    let mut i: usize = 0;
    assert(v.subrange(0, v.len() as int) =~= v);
    while i < ls.len()
        invariant
            i <= ls@.len(),
            v == lines_view(ls@),
            r@ + join_lines(v.subrange(i as int, v.len() as int)) == join_lines(v),
        decreases ls@.len() - i,
    {
        let ghost rest = v.subrange(i as int, v.len() as int);
        assert(rest.drop_first() =~= v.subrange(i + 1, v.len() as int));
        assert(rest[0] == ls@[i as int]@);
        let ghost before = r@;
        crate::text::extend(&mut r, &ls[i]);
        r.push('\n');
        assert(r@ + join_lines(v.subrange(i + 1, v.len() as int)) =~= before + join_lines(rest));
        i = i + 1;
    }
    assert(join_lines(v.subrange(v.len() as int, v.len() as int)) =~= Seq::<char>::empty()) by {
        assert(v.subrange(v.len() as int, v.len() as int).len() == 0);
    }
    assert(r@ + Seq::<char>::empty() =~= r@);
    r
}

/// The text that the adventure prints for the room that `r` describes.
pub fn serialize_response(r: &ResponseParts) -> (s: String)
    requires
        r.exits@.len() <= 255,
    ensures
        s@ == serialize(r@),
{
    let mut lines: Vec<Vec<char>> = Vec::new();
    let mut title = to_chars("== ");
    crate::text::extend(&mut title, &to_chars(r.title.as_str()));
    crate::text::extend(&mut title, &to_chars(" =="));
    push_line(&mut lines, title);
    push_line(&mut lines, to_chars(r.message.as_str()));
    push_line(&mut lines, Vec::new());
    let ghost first = lines_view(lines@);
    assert(first =~= seq![title_line(r@.title), r@.message, Seq::<char>::empty()]);
    let ghost things = if r.things_of_interest@.len() > 0 {
        seq!["Things of interest here:"@] + entry_lines(r@.things_of_interest) + seq![Seq::<char>::empty()]
    } else {
        Seq::<Seq<char>>::empty()
    };
    if r.things_of_interest.len() > 0 {
        push_line(&mut lines, to_chars("Things of interest here:"));
        push_entries(&mut lines, &r.things_of_interest);
        push_line(&mut lines, Vec::new());
    }
    assert(lines_view(lines@) =~= first + things);
    let n = r.exits.len();
    let ghost before_header = lines_view(lines@);
    if n == 1 {
        push_line(&mut lines, to_chars("There is 1 exit:"));
    } else {
        let mut h = to_chars("There are ");
        crate::text::extend(&mut h, &decimal_chars(n as u8));
        crate::text::extend(&mut h, &to_chars(" exits:"));
        push_line(&mut lines, h);
    }
    assert(lines_view(lines@) =~= before_header.push(exits_header(n as nat)));
    push_entries(&mut lines, &r.exits);
    push_line(&mut lines, Vec::new());
    push_line(&mut lines, to_chars("What do you do?"));
    proof {
        assert(lines_view(lines@) =~= response_lines(r@));
    }
    crate::text::chars_to_string(&join_chars(&lines))
}

/// Appends the list line of each entry.
fn push_entries(lines: &mut Vec<Vec<char>>, items: &Vec<String>)
    ensures
        lines_view(final(lines)@) == lines_view(old(lines)@) + entry_lines(strings_view(items@)),
{
    let mut i: usize = 0;
    while i < items.len()
        invariant
            i <= items@.len(),
            lines_view(lines@) == lines_view(old(lines)@) + entry_lines(
                strings_view(items@.subrange(0, i as int)),
            ),
        decreases items@.len() - i,
    {
        let ghost before = lines_view(lines@);
        let mut e: Vec<char> = Vec::new();
        e.push('-');
        e.push(' ');
        crate::text::extend(&mut e, &to_chars(items[i].as_str()));
        assert(e@ =~= entry_line(items@[i as int]@));
        push_line(lines, e);
        proof {
            assert(strings_view(items@.subrange(0, i + 1)) =~= strings_view(items@.subrange(0, i as int)).push(items@[i as int]@));
        }
        i = i + 1;
    }
    assert(items@.subrange(0, items@.len() as int) =~= items@);
}

} // verus!
