//! The room graph that the explorer builds from parsed responses, and the
//! explorer's choice of the next command.

use vstd::prelude::*;

use crate::command::{command_text, is_move, is_move_command, CommandType, CommandView};
use crate::output_parser::{strings_view, OutputParser, OutputParserError, ResponseParts, ResponseView};
use crate::text::{chars_to_string, contains_lit, contains_seq, extend, has_prefix, to_chars};

verus! {

/// Steps that `/solve` grants when no number is given.
pub const ALLOWED_STEPS: u16 = 100;

/// How often the explorer retraverses one movement edge at most.
pub const VISITS_LIMIT_PER_EDGE: u16 = 25;

/// Visit count that keeps `use lit lantern` out of the explorer's way.
pub const LANTERN_PENALTY: u16 = 32767;

/// Visit count given to the edge that leads back, so that it is taken late.
pub const BACK_PENALTY: u16 = 2;

/// The text of the named group in the leftmost match of a pattern in a text,
/// or nothing when the pattern is invalid, does not match, or the group took
/// no part in the match.
pub uninterp spec fn regex_capture(pattern: Seq<char>, text: Seq<char>, group: Seq<char>) -> Option<Seq<char>>;

/// Relies on `regex::Regex::new` and `Regex::captures`: the named group of the
/// leftmost match; `None` when the pattern does not compile or nothing matched.
#[verifier::external_body]
fn capture_group(pattern: &str, text: &str, group: &str) -> (r: Option<String>)
    ensures
        match r {
            Some(s) => regex_capture(pattern@, text@, group@) == Some(s@),
            None => regex_capture(pattern@, text@, group@) is None,
        },
{
    match regex::Regex::new(pattern) {
        Ok(re) => re.captures(text).and_then(|c| c.name(group)).map(|m| m.as_str().to_string()),
        Err(_) => None,
    }
}

/// Relies on `rand::random_range`: a number drawn from `0..n`, which is not
/// empty here (the function panics on an empty range).
#[verifier::external_body]
fn random_below(n: usize) -> (r: usize)
    requires
        n > 0,
    ensures
        r < n,
{
    rand::random_range(0..n)
}

/// How often an edge was taken.
#[derive(Debug, Clone)]
pub struct EdgeCount {
    pub edge: String,
    pub count: u16,
}

/// An edge and the room that it led to.
#[derive(Debug, Clone)]
pub struct Link {
    pub edge: String,
    pub node: usize,
}

/// What a command printed in a room without leaving it.
#[derive(Debug, Clone)]
pub struct Note {
    pub command: String,
    pub output: String,
}

/// An item held, with the times it was used and looked at.
#[derive(Debug, Clone)]
pub struct InventoryEntry {
    pub name: String,
    pub uses: u16,
    pub looks: u16,
}

/// The rooms completed while holding one set of items.
#[derive(Debug, Clone)]
pub struct Completion {
    pub inventory: Vec<String>,
    pub nodes: Vec<usize>,
}

/// A room of the graph and what was learnt about it.
#[derive(Debug, Clone)]
pub struct NodeMetadata {
    /// The room's index in the graph.
    pub id: usize,
    /// The room's last observed description, with the items held then.
    pub response: ResponseParts,
    pub min_steps: u16,
    pub visits: u16,
    /// The room from which it was first entered.
    pub origin: Option<usize>,
    /// Commands not tried yet, in the order in which they are tried.
    pub edges_to_visit: Vec<String>,
    pub visited_edges: Vec<EdgeCount>,
    pub last_visited_edge: Option<String>,
    /// Where each edge led, the last time it was taken.
    pub edge_2_response: Vec<Link>,
    /// The edge that last led to each neighbour.
    pub response_2_edge: Vec<Link>,
    pub auxiliary_commands: Vec<Note>,
}

/// The identity of a room: title, description and exits.
pub open spec fn room_key(r: ResponseParts) -> (Seq<char>, Seq<char>, Seq<Seq<char>>) {
    (r.title@, r.message@, strings_view(r.exits@))
}

/// `p` followed by each item.
pub open spec fn prefixed(items: Seq<Seq<char>>, p: Seq<char>) -> Seq<Seq<char>> {
    items.map_values(|i: Seq<char>| p + i)
}

/// For each item, `a` then `b` followed by the item.
pub open spec fn paired(items: Seq<Seq<char>>, a: Seq<char>, b: Seq<char>) -> Seq<Seq<char>>
    decreases items.len(),
{
    if items.len() == 0 {
        seq![]
    } else {
        paired(items.drop_last(), a, b) + seq![a + items.last(), b + items.last()]
    }
}

/// The commands worth trying in a room, in textual order: look at and take
/// each thing, use and look at each item held, go through each exit.
pub open spec fn textual_commands(r: ResponseParts) -> Seq<Seq<char>> {
    paired(strings_view(r.things_of_interest@), "look "@, "take "@) + paired(
        strings_view(r.inventory@),
        "use "@,
        "look "@,
    ) + prefixed(strings_view(r.exits@), "go "@)
}

/// The candidate commands of a room as stored: reversed, so that taking
/// from the back yields the textual order.
pub open spec fn room_commands(r: ResponseParts) -> Seq<Seq<char>> {
    textual_commands(r).reverse()
}

/// The two patterns that name a dark direction.
pub open spec fn dark_direction(msg: Seq<char>) -> Option<Seq<char>> {
    match regex_capture("The (?P<direction>.*) passage appears very dark"@, msg, "direction"@) {
        Some(d) => Some(d),
        None => regex_capture(
            "The passage to the (?P<direction>.*) looks very dark"@,
            msg,
            "direction"@,
        ),
    }
}

/// Whether `edge` leads into a dark direction that `msg` warns of.
pub open spec fn toward_darkness(msg: Seq<char>, edge: Seq<char>) -> bool {
    match dark_direction(msg) {
        Some(d) => contains_seq(edge, d),
        None => false,
    }
}

/// Whether `edge` is likely fatal in a room described by `msg`, without a lit
/// lantern (`lantern`) or with one.
pub open spec fn is_dangerous(msg: Seq<char>, edge: Seq<char>, lantern: bool) -> bool {
    !lantern && (contains_seq(edge, "continue"@) || (contains_seq(msg, "likely to be eaten by a"@)
        && toward_darkness(msg, edge)) || (contains_seq(
        msg,
        "become hopelessly lost and are fumbling around"@,
    ) && contains_seq(edge, "forward"@)) || (contains_seq(msg, "you think you hear a Grue"@)
        && toward_darkness(msg, edge)))
}

/// The entry for `name` in the inventory, if any.
pub open spec fn inventory_entry(inv: Seq<InventoryEntry>, name: Seq<char>) -> Option<
    InventoryEntry,
>
    decreases inv.len(),
{
    if inv.len() == 0 {
        None
    } else if inv[0].name@ == name {
        Some(inv[0])
    } else {
        inventory_entry(inv.drop_first(), name)
    }
}

/// `look <item>` of an item already looked at, or `use <item>` of one
/// already used.
pub open spec fn looked_or_used(inv: Seq<InventoryEntry>, edge: Seq<char>) -> bool {
    if has_prefix(edge, "look "@) {
        match inventory_entry(inv, edge.subrange("look "@.len() as int, edge.len() as int)) {
            Some(e) => e.looks > 0,
            None => false,
        }
    } else if has_prefix(edge, "use "@) {
        match inventory_entry(inv, edge.subrange("use "@.len() as int, edge.len() as int)) {
            Some(e) => e.uses > 0,
            None => false,
        }
    } else {
        false
    }
}

/// The names of the items held.
pub open spec fn inventory_names(inv: Seq<InventoryEntry>) -> Seq<Seq<char>> {
    inv.map_values(|e: InventoryEntry| e.name@)
}

/// Whether `lit lantern` is among the items held.
pub open spec fn holds_lit_lantern(inv: Seq<InventoryEntry>) -> bool {
    inventory_entry(inv, "lit lantern"@) is Some
}

/// The visit count of `edge` in a list of counts, if it is there.
pub open spec fn edge_count(v: Seq<EdgeCount>, edge: Seq<char>) -> Option<u16>
    decreases v.len(),
{
    if v.len() == 0 {
        None
    } else if v[0].edge@ == edge {
        Some(v[0].count)
    } else {
        edge_count(v.drop_first(), edge)
    }
}

/// The room that `edge` leads to in a list of links, if it is there.
pub open spec fn link_target(v: Seq<Link>, edge: Seq<char>) -> Option<usize>
    decreases v.len(),
{
    if v.len() == 0 {
        None
    } else if v[0].edge@ == edge {
        Some(v[0].node)
    } else {
        link_target(v.drop_first(), edge)
    }
}

/// The edge that leads to `node` in a list of links, if it is there.
pub open spec fn link_edge(v: Seq<Link>, node: usize) -> Option<Seq<char>>
    decreases v.len(),
{
    if v.len() == 0 {
        None
    } else if v[0].node == node {
        Some(v[0].edge@)
    } else {
        link_edge(v.drop_first(), node)
    }
}

/// The command that undoes a compass move; none for other edges.
pub open spec fn opposite_edge(edge: Seq<char>) -> Option<Seq<char>> {
    if edge == "go north"@ {
        Some("go south"@)
    } else if edge == "go south"@ {
        Some("go north"@)
    } else if edge == "go west"@ {
        Some("go east"@)
    } else if edge == "go east"@ {
        Some("go west"@)
    } else {
        None
    }
}

/// The room description of the maze whose exits lead anywhere.
pub open spec fn is_twisty(msg: Seq<char>) -> bool {
    contains_seq(msg, "a twisty maze of little passages, all alike"@)
}

/// The way back from a room with these exits and description, entered by
/// `cause`; `pick` chooses among the exits of the twisty maze.
pub open spec fn way_back(
    exits: Seq<Seq<char>>,
    msg: Seq<char>,
    cause: Seq<char>,
    pick: int,
) -> Option<Seq<char>> {
    let moves = prefixed(exits, "go "@);
    if opposite_edge(cause) is Some && moves.contains(opposite_edge(cause)->0) {
        opposite_edge(cause)
    } else if moves.contains("go back"@) {
        Some("go back"@)
    } else if is_twisty(msg) && 0 <= pick < moves.len() {
        Some(moves[pick])
    } else {
        None
    }
}

/// Whether two lists hold the same names.
pub open spec fn same_names(a: Seq<Seq<char>>, b: Seq<Seq<char>>) -> bool {
    (forall|i: int| 0 <= i < a.len() ==> b.contains(#[trigger] a[i])) && (forall|i: int|
        0 <= i < b.len() ==> a.contains(#[trigger] b[i]))
}

/// Whether `node` is completed while holding the items named by `inv`.
pub open spec fn is_completed(c: Seq<Completion>, inv: Seq<Seq<char>>, node: usize) -> bool {
    exists|i: int|
        0 <= i < c.len() && same_names(strings_view(#[trigger] c[i].inventory@), inv)
            && c[i].nodes@.contains(node)
}

/// What the explorer does next.
#[derive(Debug, Clone)]
pub enum Choice {
    /// Ask the game for the inventory.
    Inventory,
    /// An edge not taken yet.
    Explore(String),
    /// A movement edge taken before, the least often.
    Revisit(String),
    /// The way back to the room it came from.
    Back(String),
}

/// The explorer's state and the room graph.
#[derive(Debug)]
pub struct MazeAnalyzer {
    pub nodes: Vec<NodeMetadata>,
    pub completed_nodes: Vec<Completion>,
    pub last_visited_node: Option<usize>,
    /// Guest output since the last parsed response.
    pub response_buffer: Vec<char>,
    pub first: Option<usize>,
    pub head: Option<usize>,
    pub steps_left: u16,
    pub solution_commands: Option<Vec<String>>,
    pub commands_counter: u16,
    pub last_command_num: u16,
    pub inventory_needs_update: bool,
    pub inventory_global: Vec<InventoryEntry>,
    pub output_is_available: bool,
}

/// Why the explorer cannot go on.
#[derive(Debug, Clone, Copy, PartialEq, Eq, Structural)]
pub enum SolverError {
    /// No room has been seen yet.
    NoHead,
    /// The step budget is used up.
    ExhaustedSteps,
    /// No edge is left and there is no way back.
    Blocked,
    /// A meta-command cannot be a graph edge.
    SlashCommand,
    /// The response could not be parsed.
    Parse(OutputParserError),
}

/// `s` without the entries equal to `x`, in order.
pub open spec fn without(s: Seq<Seq<char>>, x: Seq<char>) -> Seq<Seq<char>>
    decreases s.len(),
{
    if s.len() == 0 {
        s
    } else if s.last() == x {
        without(s.drop_last(), x)
    } else {
        without(s.drop_last(), x).push(s.last())
    }
}

/// One more than `x`, stopping at `65535`.
pub open spec fn inc_sat(x: u16) -> u16 {
    if x < u16::MAX {
        (x + 1) as u16
    } else {
        x
    }
}

/// Whether `i` indexes a room of `nodes`, when it is there.
pub open spec fn valid_ref(i: Option<usize>, len: int) -> bool {
    match i {
        Some(k) => k < len,
        None => true,
    }
}

impl MazeAnalyzer {
    /// Indices stay within the graph, rooms are distinct, item names are unique.
    pub open spec fn wf(&self) -> bool {
        let n = self.nodes@.len();
        &&& valid_ref(self.head, n as int)
        &&& valid_ref(self.first, n as int)
        &&& valid_ref(self.last_visited_node, n as int)
        &&& forall|i: int| 0 <= i < n ==> (#[trigger] self.nodes@[i]).id == i
        &&& forall|i: int|
            0 <= i < n ==> valid_ref((#[trigger] self.nodes@[i]).origin, i)
        &&& forall|i: int, j: int|
            0 <= i < n && 0 <= j < n && i != j ==> room_key(#[trigger] self.nodes@[i].response)
                != room_key(#[trigger] self.nodes@[j].response)
        &&& forall|i: int, k: int|
            0 <= i < n && 0 <= k < self.nodes@[i].edges_to_visit@.len() ==> (#[trigger] self.nodes@[i].edges_to_visit@[k])@.len() > 0
        &&& forall|i: int, j: int|
            0 <= i < self.inventory_global@.len() && 0 <= j < self.inventory_global@.len() && i
                != j ==> (#[trigger] self.inventory_global@[i]).name@
                != (#[trigger] self.inventory_global@[j]).name@
    }

    /// The index of the room with the identity of `r`, if there is one.
    pub open spec fn find_spec(&self, r: ResponseParts) -> Option<usize> {
        if exists|i: int| 0 <= i < self.nodes@.len() && room_key(#[trigger] self.nodes@[i].response) == room_key(r) {
            Some(
                (choose|i: int|
                    0 <= i < self.nodes@.len() && room_key(#[trigger] self.nodes@[i].response)
                        == room_key(r)) as usize,
            )
        } else {
            None
        }
    }
}

/// `lit` followed by `rest`, as a `String`.
fn prefixed_string(lit: &str, rest: &String) -> (r: String)
    ensures
        r@ == lit@ + rest@,
{
    let mut v = to_chars(lit);
    let w = to_chars(rest.as_str());
    extend(&mut v, &w);
    chars_to_string(&v)
}

/// For each item, `a` then `b` followed by the item.
fn paired_commands(items: &Vec<String>, a: &str, b: &str) -> (r: Vec<String>)
    ensures
        strings_view(r@) == paired(strings_view(items@), a@, b@),
{
    let mut r: Vec<String> = Vec::new();
    let mut i: usize = 0;
    while i < items.len()
        invariant
            i <= items@.len(),
            strings_view(r@) == paired(strings_view(items@.subrange(0, i as int)), a@, b@),
        decreases items@.len() - i,
    {
        let ghost before = r@;
        r.push(prefixed_string(a, &items[i]));
        r.push(prefixed_string(b, &items[i]));
        proof {
            let s = strings_view(items@.subrange(0, i + 1));
            assert(s.drop_last() =~= strings_view(items@.subrange(0, i as int)));
            assert(strings_view(r@) =~= strings_view(before) + seq![a@ + s.last(), b@ + s.last()]);
        }
        i = i + 1;
    }
    assert(items@.subrange(0, items@.len() as int) =~= items@);
    r
}

/// `p` followed by each item.
fn prefixed_commands(items: &Vec<String>, p: &str) -> (r: Vec<String>)
    ensures
        strings_view(r@) == prefixed(strings_view(items@), p@),
{
    let mut r: Vec<String> = Vec::new();
    let mut i: usize = 0;
    while i < items.len()
        invariant
            i <= items@.len(),
            r@.len() == i,
            forall|j: int| 0 <= j < i ==> #[trigger] r@[j]@ == p@ + items@[j]@,
        decreases items@.len() - i,
    {
        r.push(prefixed_string(p, &items[i]));
        i = i + 1;
    }
    assert(strings_view(r@) =~= prefixed(strings_view(items@), p@));
    r
}

/// `a` followed by `b`.
fn concat_strings(a: &mut Vec<String>, b: Vec<String>)
    ensures
        strings_view(final(a)@) == strings_view(old(a)@) + strings_view(b@),
{
    let mut i: usize = 0;
    while i < b.len()
        invariant
            i <= b@.len(),
            a@.len() == old(a)@.len() + i,
            forall|j: int| 0 <= j < old(a)@.len() ==> #[trigger] a@[j]@ == old(a)@[j]@,
            forall|j: int| 0 <= j < i ==> #[trigger] a@[old(a)@.len() + j]@ == b@[j]@,
        decreases b@.len() - i,
    {
        a.push(b[i].clone());
        i = i + 1;
    }
    assert forall|k: int| old(a)@.len() <= k < a@.len() implies #[trigger] a@[k]@ == b@[k
        - old(a)@.len()]@ by {
        assert(a@[old(a)@.len() + (k - old(a)@.len())]@ == b@[k - old(a)@.len()]@);
    }
    assert(strings_view(a@) =~= strings_view(old(a)@) + strings_view(b@));
}

/// The strings in reverse order.
fn reversed_strings(v: &Vec<String>) -> (r: Vec<String>)
    ensures
        strings_view(r@) == strings_view(v@).reverse(),
{
    let n = v.len();
    let mut r: Vec<String> = Vec::new();
    let mut i: usize = 0;
    while i < n
        invariant
            n == v@.len(),
            i <= n,
            r@.len() == i,
            forall|j: int| 0 <= j < i ==> #[trigger] r@[j]@ == v@[n - 1 - j]@,
        decreases n - i,
    {
        r.push(v[n - 1 - i].clone());
        i = i + 1;
    }
    assert(strings_view(r@) =~= strings_view(v@).reverse());
    r
}

/// Whether two lists of strings are equal.
fn same_strings(a: &Vec<String>, b: &Vec<String>) -> (r: bool)
    ensures
        r == (strings_view(a@) == strings_view(b@)),
{
    if a.len() != b.len() {
        assert(strings_view(a@).len() != strings_view(b@).len());
        return false;
    }
    let mut i: usize = 0;
    while i < a.len()
        invariant
            a@.len() == b@.len(),
            i <= a@.len(),
            forall|j: int| 0 <= j < i ==> #[trigger] a@[j]@ == b@[j]@,
        decreases a@.len() - i,
    {
        if a[i] != b[i] {
            assert(strings_view(a@)[i as int] != strings_view(b@)[i as int]);
            return false;
        }
        i = i + 1;
    }
    assert(strings_view(a@) =~= strings_view(b@));
    true
}

/// Whether the list holds `s`.
fn holds_string(v: &Vec<String>, s: &String) -> (r: bool)
    ensures
        r == strings_view(v@).contains(s@),
{
    let mut i: usize = 0;
    while i < v.len()
        invariant
            i <= v@.len(),
            forall|j: int| 0 <= j < i ==> #[trigger] v@[j]@ != s@,
        decreases v@.len() - i,
    {
        if v[i] == *s {
            assert(strings_view(v@)[i as int] == s@);
            return true;
        }
        i = i + 1;
    }
    false
}

/// Whether `a` and `b` hold the same names.
fn same_name_set(a: &Vec<String>, b: &Vec<String>) -> (r: bool)
    ensures
        r == same_names(strings_view(a@), strings_view(b@)),
{
    let mut i: usize = 0;
    while i < a.len()
        invariant
            i <= a@.len(),
            forall|j: int| 0 <= j < i ==> strings_view(b@).contains(#[trigger] strings_view(a@)[j]),
        decreases a@.len() - i,
    {
        if !holds_string(b, &a[i]) {
            assert(!strings_view(b@).contains(strings_view(a@)[i as int]));
            return false;
        }
        i = i + 1;
    }
    let mut k: usize = 0;
    while k < b.len()
        invariant
            k <= b@.len(),
            forall|j: int| 0 <= j < a@.len() ==> strings_view(b@).contains(#[trigger] strings_view(a@)[j]),
            forall|j: int| 0 <= j < k ==> strings_view(a@).contains(#[trigger] strings_view(b@)[j]),
        decreases b@.len() - k,
    {
        if !holds_string(a, &b[k]) {
            assert(!strings_view(a@).contains(strings_view(b@)[k as int]));
            return false;
        }
        k = k + 1;
    }
    true
}

proof fn lemma_inventory_entry_step(inv: Seq<InventoryEntry>, i: int, name: Seq<char>)
    requires
        0 <= i < inv.len(),
    ensures
        inventory_entry(inv.subrange(i, inv.len() as int), name) == if inv[i].name@ == name {
            Some(inv[i])
        } else {
            inventory_entry(inv.subrange(i + 1, inv.len() as int), name)
        },
{
    assert(inv.subrange(i, inv.len() as int).drop_first() =~= inv.subrange(i + 1, inv.len() as int));
}

proof fn lemma_edge_count_step(v: Seq<EdgeCount>, i: int, edge: Seq<char>)
    requires
        0 <= i < v.len(),
    ensures
        edge_count(v.subrange(i, v.len() as int), edge) == if v[i].edge@ == edge {
            Some(v[i].count)
        } else {
            edge_count(v.subrange(i + 1, v.len() as int), edge)
        },
{
    assert(v.subrange(i, v.len() as int).drop_first() =~= v.subrange(i + 1, v.len() as int));
}

proof fn lemma_link_step(v: Seq<Link>, i: int, edge: Seq<char>, node: usize)
    requires
        0 <= i < v.len(),
    ensures
        link_target(v.subrange(i, v.len() as int), edge) == if v[i].edge@ == edge {
            Some(v[i].node)
        } else {
            link_target(v.subrange(i + 1, v.len() as int), edge)
        },
        link_edge(v.subrange(i, v.len() as int), node) == if v[i].node == node {
            Some(v[i].edge@)
        } else {
            link_edge(v.subrange(i + 1, v.len() as int), node)
        },
{
    assert(v.subrange(i, v.len() as int).drop_first() =~= v.subrange(i + 1, v.len() as int));
}

/// The index of the entry for `name`, if any.
fn find_inventory(inv: &Vec<InventoryEntry>, name: &String) -> (r: Option<usize>)
    ensures
        match r {
            Some(i) => i < inv@.len() && inv@[i as int].name@ == name@ && inventory_entry(
                inv@,
                name@,
            ) == Some(inv@[i as int]),
            None => inventory_entry(inv@, name@) is None,
        },
{
    let mut i: usize = 0;
    assert(inv@.subrange(0, inv@.len() as int) =~= inv@);
    while i < inv.len()
        invariant
            i <= inv@.len(),
            inventory_entry(inv@, name@) == inventory_entry(
                inv@.subrange(i as int, inv@.len() as int),
                name@,
            ),
        decreases inv@.len() - i,
    {
        proof {
            lemma_inventory_entry_step(inv@, i as int, name@);
        }
        if inv[i].name == *name {
            return Some(i);
        }
        i = i + 1;
    }
    None
}

/// The visit count of `edge`, if it was taken.
fn find_edge_count(v: &Vec<EdgeCount>, edge: &String) -> (r: Option<usize>)
    ensures
        match r {
            Some(i) => i < v@.len() && v@[i as int].edge@ == edge@ && edge_count(v@, edge@) == Some(
                v@[i as int].count,
            ),
            None => edge_count(v@, edge@) is None,
        },
{
    let mut i: usize = 0;
    assert(v@.subrange(0, v@.len() as int) =~= v@);
    while i < v.len()
        invariant
            i <= v@.len(),
            edge_count(v@, edge@) == edge_count(v@.subrange(i as int, v@.len() as int), edge@),
        decreases v@.len() - i,
    {
        proof {
            lemma_edge_count_step(v@, i as int, edge@);
        }
        if v[i].edge == *edge {
            return Some(i);
        }
        i = i + 1;
    }
    None
}

/// Where `edge` led, if it is linked.
fn find_link_target(v: &Vec<Link>, edge: &String) -> (r: Option<usize>)
    ensures
        r == link_target(v@, edge@),
{
    let mut i: usize = 0;
    assert(v@.subrange(0, v@.len() as int) =~= v@);
    while i < v.len()
        invariant
            i <= v@.len(),
            link_target(v@, edge@) == link_target(v@.subrange(i as int, v@.len() as int), edge@),
        decreases v@.len() - i,
    {
        proof {
            lemma_link_step(v@, i as int, edge@, 0);
        }
        if v[i].edge == *edge {
            return Some(v[i].node);
        }
        i = i + 1;
    }
    None
}

/// The edge that led to `node`, if it is linked.
fn find_link_edge(v: &Vec<Link>, node: usize) -> (r: Option<String>)
    ensures
        match r {
            Some(e) => link_edge(v@, node) == Some(e@),
            None => link_edge(v@, node) is None,
        },
{
    let mut i: usize = 0;
    assert(v@.subrange(0, v@.len() as int) =~= v@);
    while i < v.len()
        invariant
            i <= v@.len(),
            link_edge(v@, node) == link_edge(v@.subrange(i as int, v@.len() as int), node),
        decreases v@.len() - i,
    {
        proof {
            lemma_link_step(v@, i as int, seq![], node);
        }
        if v[i].node == node {
            return Some(v[i].edge.clone());
        }
        i = i + 1;
    }
    None
}

/// The command that undoes `edge`.
fn opposite(edge: &String) -> (r: Option<String>)
    ensures
        match r {
            Some(o) => opposite_edge(edge@) == Some(o@),
            None => opposite_edge(edge@) is None,
        },
{
    let e = to_chars(edge.as_str());
    if crate::text::eq_lit(&e, "go north") {
        Some(chars_to_string(&to_chars("go south")))
    } else if crate::text::eq_lit(&e, "go south") {
        Some(chars_to_string(&to_chars("go north")))
    } else if crate::text::eq_lit(&e, "go west") {
        Some(chars_to_string(&to_chars("go east")))
    } else if crate::text::eq_lit(&e, "go east") {
        Some(chars_to_string(&to_chars("go west")))
    } else {
        None
    }
}

/// The mathematical content of an optional command.
pub open spec fn command_view(c: Option<CommandType>) -> Option<CommandView> {
    match c {
        Some(x) => Some(x@),
        None => None,
    }
}

/// What the exported room `g` carries of the room `n`: its least step
/// count, visits, items held, notes, visited edges and its number of edges,
/// tried or not (saturating).
pub open spec fn exported_room(g: GraphNode, n: NodeMetadata) -> bool {
    &&& g.steps == n.min_steps
    &&& g.visits == n.visits
    &&& strings_view(g.inventory@) == strings_view(n.response.inventory@)
    &&& g.notes@.len() == n.auxiliary_commands@.len()
    &&& g.visited_edges@.len() == n.visited_edges@.len()
    &&& g.edges_num == if n.visited_edges@.len() + n.edges_to_visit@.len() > usize::MAX {
        usize::MAX as int
    } else {
        (n.visited_edges@.len() + n.edges_to_visit@.len()) as int
    }
}

/// Room `h` records `text` as its last edge and, first among its notes,
/// `text` with the output `out`.
pub open spec fn noted(m: MazeAnalyzer, h: usize, text: Seq<char>, out: Seq<char>) -> bool {
    &&& h < m.nodes@.len()
    &&& m.nodes@[h as int].last_visited_edge matches Some(l) && l@ == text
    &&& m.nodes@[h as int].auxiliary_commands@.len() > 0
    &&& m.nodes@[h as int].auxiliary_commands@[0].command@ == text
    &&& m.nodes@[h as int].auxiliary_commands@[0].output@ == out
}

/// What entering room `idx` does to its record: a known room is visited
/// once more and keeps the lower of its step count and one more than the
/// room left; a new room starts with one visit, that step count, and the room
/// left as its origin.
pub open spec fn entered(old: MazeAnalyzer, new: MazeAnalyzer, idx: usize) -> bool {
    if idx < old.nodes@.len() {
        &&& new.nodes@[idx as int].visits == inc_sat(old.nodes@[idx as int].visits)
        &&& new.nodes@[idx as int].min_steps == (if old.head is Some && old.steps_through_head()
            < old.nodes@[idx as int].min_steps {
            old.steps_through_head()
        } else {
            old.nodes@[idx as int].min_steps
        })
    } else {
        &&& idx == old.nodes@.len()
        &&& new.nodes@[idx as int].visits == 1
        &&& new.nodes@[idx as int].min_steps == old.steps_through_head()
        &&& new.nodes@[idx as int].origin == old.head
    }
}

/// What folding in the response `v` to `command` does to the explorer's
/// state: a response that was not understood changes no room; the first
/// response, or one to a move, makes its room the current one; a response to
/// `take`, `use`, `look <item>` or `inv` updates the items held in the
/// current room.
pub open spec fn folds_response(
    old: MazeAnalyzer,
    new: MazeAnalyzer,
    command: Option<CommandView>,
    v: ResponseView,
) -> bool {
    if v.dont_understand {
        new.nodes == old.nodes && new.head == old.head
    } else if old.head is None || command is None || command matches Some(CommandView::Move(_)) {
        &&& new.head is Some
        &&& new.head->0 < new.nodes@.len()
        &&& room_key(new.nodes@[new.head->0 as int].response) == (v.title, v.message, v.exits)
        &&& entered(old, new, new.head->0)
        &&& (old.head is Some && command is Some && command->0 is Move) ==> link_target(
            new.nodes@[old.head->0 as int].edge_2_response@,
            command->0->Move_0,
        ) == Some(new.head->0) && link_edge(new.nodes@[old.head->0 as int].response_2_edge@, new.head->0)
            == Some(command->0->Move_0)
    } else {
        new.head == old.head && match command->0 {
            CommandView::InventoryTake(x) => same_names(
                inventory_names(new.inventory_global@),
                strings_view(old.nodes@[old.head->0 as int].response.inventory@).push(x),
            ) && new.inventory_needs_update && strings_view(
                new.nodes@[old.head->0 as int].response.inventory@,
            ) == strings_view(old.nodes@[old.head->0 as int].response.inventory@).push(x) && strings_view(
                new.nodes@[old.head->0 as int].response.things_of_interest@,
            ) == without(strings_view(old.nodes@[old.head->0 as int].response.things_of_interest@), x),
            CommandView::InventoryDrop(x) => !inventory_names(new.inventory_global@).contains(x)
                && new.inventory_needs_update && strings_view(
                new.nodes@[old.head->0 as int].response.inventory@,
            ) == without(strings_view(old.nodes@[old.head->0 as int].response.inventory@), x)
                && same_names(
                inventory_names(new.inventory_global@),
                without(strings_view(old.nodes@[old.head->0 as int].response.inventory@), x),
            ),
            CommandView::InventoryUse(x) => (inventory_entry(new.inventory_global@, x) matches Some(
                e,
            ) && e.uses > 0) && new.inventory_needs_update,
            CommandView::InventoryLook(x) => inventory_entry(new.inventory_global@, x) matches Some(
                e,
            ) && e.looks > 0,
            CommandView::Inventory => same_names(inventory_names(new.inventory_global@), v.inventory)
                && !new.inventory_needs_update,
            _ => true,
        }
    }
}

/// Whether `r` is the explorer's decision in room `node` of `old`, where
/// `new` is the state after the candidates were given their counts; `cap`
/// bounds the visits of a retaken edge and `pick` chooses among the exits of
/// the twisty maze.
pub open spec fn chooses(
    old: MazeAnalyzer,
    new: MazeAnalyzer,
    node: usize,
    cap: u16,
    pick: int,
    r: Result<Choice, SolverError>,
) -> bool {
    let cands = strings_view(old.nodes@[node as int].edges_to_visit@);
    let v = new.nodes@[node as int].visited_edges@;
    let stuck = old.no_survivor(node) && forall|j: int| !#[trigger] new.may_revisit(node, j, cap);
    if old.inventory_needs_update {
        r matches Ok(Choice::Inventory)
    } else {
        match r {
            Ok(Choice::Explore(e)) => exists|k: int|
                0 <= k < cands.len() && cands[k] == e@ && old.survives(node, e@) && forall|j: int|
                    k < j < cands.len() ==> !old.survives(node, #[trigger] cands[j]),
            Ok(Choice::Revisit(e)) => old.no_survivor(node) && !new.dangerous_in(node, e@) && exists|k: int|
                #[trigger] new.may_revisit(node, k, cap) && v[k].edge@ == e@ && forall|j: int|
                    #[trigger] new.may_revisit(node, j, cap) ==> v[k].count <= v[j].count,
            Ok(Choice::Back(b)) => stuck && new.back_spec(node, pick) == Some(b@),
            Ok(Choice::Inventory) => false,
            Err(e) => e == SolverError::Blocked && stuck && new.back_spec(node, pick) is None,
        }
    }
}

/// What the graph exporter needs of one room.
#[derive(Debug, Clone)]
pub struct GraphNode {
    pub id: usize,
    pub title: String,
    pub message: String,
    pub steps: u16,
    pub inventory: Vec<String>,
    pub notes: Vec<Note>,
    pub visits: u16,
    pub visited_edges: Vec<EdgeCount>,
    pub edges_num: usize,
}

/// An edge of the exported graph.
#[derive(Debug, Clone)]
pub struct GraphEdge {
    pub from: usize,
    pub to: usize,
    pub label: String,
}

/// The room graph as plain values, for rendering.
#[derive(Debug, Clone)]
pub struct GraphExport {
    pub nodes: Vec<GraphNode>,
    pub edges: Vec<GraphEdge>,
}

/// One room on the way back: its index, its description, and the command
/// that led from it towards the current room.
pub type PathStep = (usize, String, Option<String>);

/// The rooms from `i` back to the first room, following each room's origin.
pub open spec fn path_ids(nodes: Seq<NodeMetadata>, i: usize) -> Seq<usize>
    decreases i,
{
    if i < nodes.len() {
        match nodes[i as int].origin {
            Some(k) => if k < i {
                seq![i] + path_ids(nodes, k)
            } else {
                seq![i]
            },
            None => seq![i],
        }
    } else {
        seq![]
    }
}

impl MazeAnalyzer {
    /// The step count of a room entered from the current one: one more than
    /// the current room's least count (saturating), or zero for the first room.
    pub open spec fn steps_through_head(&self) -> u16 {
        match self.head {
            Some(p) => inc_sat(self.nodes@[p as int].min_steps),
            None => 0,
        }
    }

    /// Whether `n` may replace room `i`: same index, origin and identity.
    pub open spec fn keeps_shape(&self, i: int, n: NodeMetadata) -> bool {
        &&& n.id == self.nodes@[i].id
        &&& n.origin == self.nodes@[i].origin
        &&& room_key(n.response) == room_key(self.nodes@[i].response)
    }

    /// The message of room `i`.
    pub open spec fn message_of(&self, i: usize) -> Seq<char> {
        self.nodes@[i as int].response.message@
    }

    /// Whether `edge` is dangerous in room `i` with the items now held.
    pub open spec fn dangerous_in(&self, i: usize, edge: Seq<char>) -> bool {
        is_dangerous(self.message_of(i), edge, holds_lit_lantern(self.inventory_global@))
    }

    /// The way back from room `i`, with `pick` choosing in the twisty maze.
    pub open spec fn back_spec(&self, i: usize, pick: int) -> Option<Seq<char>> {
        match self.nodes@[i as int].origin {
            Some(p) => match link_edge(self.nodes@[p as int].response_2_edge@, i) {
                Some(cause) => way_back(
                    strings_view(self.nodes@[i as int].response.exits@),
                    self.message_of(i),
                    cause,
                    pick,
                ),
                None => None,
            },
            None => None,
        }
    }

    /// An edge of room `i` that the explorer may try now for the first time.
    pub open spec fn is_open_edge(&self, i: usize, edge: Seq<char>) -> bool {
        &&& edge_count(self.nodes@[i as int].visited_edges@, edge) is None
        &&& !self.dangerous_in(i, edge)
        &&& !looked_or_used(self.inventory_global@, edge)
    }

    /// A movement edge of room `i` that the explorer may take once more.
    pub open spec fn may_revisit(&self, i: usize, k: int, cap: u16) -> bool {
        let n = self.nodes@[i as int];
        let e = n.visited_edges@[k];
        &&& 0 <= k < n.visited_edges@.len()
        &&& e.count < cap
        &&& is_move_command(e.edge@)
        &&& (n.last_visited_edge matches Some(l) && l@ != e.edge@)
        &&& !self.dangerous_in(i, e.edge@)
        &&& !(link_target(n.edge_2_response@, e.edge@) matches Some(t) && is_completed(
            self.completed_nodes@,
            inventory_names(self.inventory_global@),
            t,
        ))
    }

    /// The way back from room `i` that the explorer defers when choosing.
    pub open spec fn back_hint(&self, i: usize) -> Option<Seq<char>> {
        self.back_spec(i, 0)
    }

    /// An untried candidate of room `i` that survives the explorer's filters:
    /// not dangerous, not a look at or use of an item already looked at or
    /// used, not `use lit lantern`, not the way back.
    pub open spec fn survives(&self, i: usize, e: Seq<char>) -> bool {
        &&& self.is_open_edge(i, e)
        &&& e != "use lit lantern"@
        &&& self.back_hint(i) != Some(e)
    }

    /// The visit count that the explorer gives `e` in room `i` before it
    /// chooses: `32767` for an untried `use lit lantern` candidate, `2` for
    /// the untried candidate that leads back, none for other edges.
    pub open spec fn penalty(&self, i: usize, e: Seq<char>) -> Option<u16> {
        let n = self.nodes@[i as int];
        if edge_count(n.visited_edges@, e) is None && strings_view(n.edges_to_visit@).contains(e) {
            if e == "use lit lantern"@ {
                Some(LANTERN_PENALTY)
            } else if self.back_hint(i) == Some(e) {
                Some(BACK_PENALTY)
            } else {
                None
            }
        } else {
            None
        }
    }

    /// Room `i` offers no surviving candidate.
    pub open spec fn no_survivor(&self, i: usize) -> bool {
        let cands = strings_view(self.nodes@[i as int].edges_to_visit@);
        forall|k: int| 0 <= k < cands.len() ==> !self.survives(i, #[trigger] cands[k])
    }

    pub fn new() -> (r: Self)
        ensures
            r.wf(),
            r.nodes@.len() == 0,
            r.head is None,
            r.steps_left == 0,
            r.response_buffer@.len() == 0,
            r.inventory_global@.len() == 0,
            !r.inventory_needs_update,
            !r.output_is_available,
            r.solution_commands is None,
            r.first is None,
            r.last_visited_node is None,
            r.completed_nodes@.len() == 0,
            r.commands_counter == 0,
            r.last_command_num == 0,
    {
        MazeAnalyzer {
            nodes: Vec::new(),
            completed_nodes: Vec::new(),
            last_visited_node: None,
            response_buffer: Vec::new(),
            first: None,
            head: None,
            steps_left: 0,
            solution_commands: None,
            commands_counter: 0,
            last_command_num: 0,
            inventory_needs_update: false,
            inventory_global: Vec::new(),
            output_is_available: false,
        }
    }

    pub fn mark_output_available(&mut self)
        ensures
            *final(self) == (MazeAnalyzer { output_is_available: true, ..*old(self) }),
    {
        self.output_is_available = true;
    }

    pub fn mark_output_consumed(&mut self)
        ensures
            *final(self) == (MazeAnalyzer { output_is_available: false, ..*old(self) }),
    {
        self.output_is_available = false;
    }

    pub fn output_is_available(&self) -> (r: bool)
        ensures
            r == self.output_is_available,
    {
        self.output_is_available
    }

    /// Whether the explorer has steps left.
    pub fn is_rambling(&self) -> (r: bool)
        ensures
            r == (self.steps_left > 0),
    {
        self.steps_left > 0
    }

    /// Whether a response arrived since the explorer last issued a command.
    pub fn expect_output(&self) -> (r: bool)
        ensures
            r == (self.commands_counter != self.last_command_num),
    {
        self.commands_counter != self.last_command_num
    }

    /// The commands of a found solution, if any.
    pub fn solution(&self) -> (r: Option<Vec<String>>)
        ensures
            match (r, self.solution_commands) {
                (Some(a), Some(b)) => strings_view(a@) == strings_view(b@),
                (None, None) => true,
                _ => false,
            },
    {
        match &self.solution_commands {
            Some(v) => Some(crate::output_parser::copy_strings(v)),
            None => None,
        }
    }

    /// Appends one character of guest output.
    pub fn push(&mut self, c: char)
        ensures
            *final(self) == (MazeAnalyzer {
                response_buffer: final(self).response_buffer,
                ..*old(self)
            }),
            final(self).response_buffer@ == old(self).response_buffer@.push(c),
    {
        self.response_buffer.push(c);
    }

    /// Forgets the guest output gathered so far.
    pub fn flush(&mut self)
        ensures
            *final(self) == (MazeAnalyzer {
                response_buffer: final(self).response_buffer,
                ..*old(self)
            }),
            final(self).response_buffer@.len() == 0,
    {
        self.response_buffer.clear();
    }

    /// Grants `steps_limit` more steps to the explorer, up to `65535` in all.
    pub fn solve(&mut self, steps_limit: u16)
        ensures
            *final(self) == (MazeAnalyzer { steps_left: final(self).steps_left, ..*old(self) }),
            final(self).steps_left == if old(self).steps_left + steps_limit > u16::MAX {
                u16::MAX as int
            } else {
                old(self).steps_left + steps_limit
            },
    {
        if self.steps_left as u32 + steps_limit as u32 > u16::MAX as u32 {
            self.steps_left = u16::MAX;
        } else {
            self.steps_left = self.steps_left + steps_limit;
        }
    }

    /// The names of the items held, which key the completed rooms.
    pub fn global_inventory_hash(&self) -> (r: Vec<String>)
        ensures
            strings_view(r@) == inventory_names(self.inventory_global@),
    {
        let mut r: Vec<String> = Vec::new();
        let mut i: usize = 0;
        while i < self.inventory_global.len()
            invariant
                i <= self.inventory_global@.len(),
                r@.len() == i,
                forall|j: int| 0 <= j < i ==> #[trigger] r@[j]@ == self.inventory_global@[j].name@,
            decreases self.inventory_global@.len() - i,
        {
            r.push(self.inventory_global[i].name.clone());
            i = i + 1;
        }
        assert(strings_view(r@) =~= inventory_names(self.inventory_global@));
        r
    }

    /// Fails when the explorer has no steps left.
    pub fn validate_steps_left(&self) -> (r: Result<(), SolverError>)
        ensures
            r is Ok <==> self.steps_left > 0,
            r is Err ==> r == Err::<(), SolverError>(SolverError::ExhaustedSteps),
    {
        if self.steps_left == 0 {
            return Err(SolverError::ExhaustedSteps);
        }
        Ok(())
    }

    /// `look` and `take` for each thing of interest.
    pub fn get_things_of_interest_from_response(r: &ResponseParts) -> (c: Vec<String>)
        ensures
            strings_view(c@) == paired(strings_view(r.things_of_interest@), "look "@, "take "@),
    {
        paired_commands(&r.things_of_interest, "look ", "take ")
    }

    /// `use` and `look` for each item held.
    pub fn get_inventory_from_response(r: &ResponseParts) -> (c: Vec<String>)
        ensures
            strings_view(c@) == paired(strings_view(r.inventory@), "use "@, "look "@),
    {
        paired_commands(&r.inventory, "use ", "look ")
    }

    /// `go` through each exit.
    pub fn get_exits_from_response(r: &ResponseParts) -> (c: Vec<String>)
        ensures
            strings_view(c@) == prefixed(strings_view(r.exits@), "go "@),
    {
        prefixed_commands(&r.exits, "go ")
    }

    /// The commands worth trying in the room that `r` describes.
    pub fn get_commands_from_response(r: &ResponseParts) -> (c: Vec<String>)
        ensures
            strings_view(c@) == room_commands(*r),
    {
        let mut c = Self::get_things_of_interest_from_response(r);
        concat_strings(&mut c, Self::get_inventory_from_response(r));
        concat_strings(&mut c, Self::get_exits_from_response(r));
        reversed_strings(&c)
    }

    /// Whether `edge` looks at an item already looked at, or uses one
    /// already used.
    pub fn is_looked_or_used_inventory(inventory_global: &Vec<InventoryEntry>, edge: &String) -> (r:
        bool)
        ensures
            r == looked_or_used(inventory_global@, edge@),
    {
        let e = to_chars(edge.as_str());
        if crate::text::starts_with_lit(&e, "look ") {
            let name = chars_to_string(&crate::text::slice(&e, to_chars("look ").len(), e.len()));
            match find_inventory(inventory_global, &name) {
                Some(i) => inventory_global[i].looks > 0,
                None => false,
            }
        } else if crate::text::starts_with_lit(&e, "use ") {
            let name = chars_to_string(&crate::text::slice(&e, to_chars("use ").len(), e.len()));
            match find_inventory(inventory_global, &name) {
                Some(i) => inventory_global[i].uses > 0,
                None => false,
            }
        } else {
            false
        }
    }

    /// The direction that a dark passage in `msg` leads to, if one is named.
    pub fn analyse_dangerous_direction(msg: &String) -> (r: Option<String>)
        ensures
            match r {
                Some(d) => dark_direction(msg@) == Some(d@),
                None => dark_direction(msg@) is None,
            },
    {
        match capture_group("The (?P<direction>.*) passage appears very dark", msg.as_str(), "direction") {
            Some(d) => Some(d),
            None => capture_group(
                "The passage to the (?P<direction>.*) looks very dark",
                msg.as_str(),
                "direction",
            ),
        }
    }

    /// Whether `command` is likely fatal in a room described by `msg`.
    pub fn is_a_dangerous_edge(msg: &String, command: &String, lantern: bool) -> (r: bool)
        ensures
            r == is_dangerous(msg@, command@, lantern),
    {
        if lantern {
            return false;
        }
        let e = to_chars(command.as_str());
        let m = to_chars(msg.as_str());
        if contains_lit(&e, "continue") {
            return true;
        }
        let dark = match Self::analyse_dangerous_direction(msg) {
            Some(d) => crate::text::contains_chars(&e, &to_chars(d.as_str())),
            None => false,
        };
        if contains_lit(&m, "likely to be eaten by a") && dark {
            return true;
        }
        if contains_lit(&m, "become hopelessly lost and are fumbling around") && contains_lit(
            &e,
            "forward",
        ) {
            return true;
        }
        contains_lit(&m, "you think you hear a Grue") && dark
    }

    /// Whether `lit lantern` is held.
    pub fn holds_lantern(&self) -> (r: bool)
        ensures
            r == holds_lit_lantern(self.inventory_global@),
    {
        let name = chars_to_string(&to_chars("lit lantern"));
        find_inventory(&self.inventory_global, &name).is_some()
    }

    /// Whether `cmd` goes through one of `exits`.
    pub fn validate_go_back_command(exits: &Vec<String>, cmd: &String) -> (r: bool)
        ensures
            r == prefixed(strings_view(exits@), "go "@).contains(cmd@),
    {
        let moves = prefixed_commands(exits, "go ");
        holds_string(&moves, cmd)
    }

    /// Room `node`, if it exists.
    pub fn get_node_meta(&self, node: usize) -> (r: Option<&NodeMetadata>)
        ensures
            match r {
                Some(m) => node < self.nodes@.len() && *m == self.nodes@[node as int],
                None => node >= self.nodes@.len(),
            },
    {
        if node < self.nodes.len() {
            Some(&self.nodes[node])
        } else {
            None
        }
    }

    /// The room from which room `node` was first entered, if any.
    pub fn get_prev_node_meta(&self, node: usize) -> (r: Option<&NodeMetadata>)
        requires
            self.wf(),
        ensures
            match r {
                Some(m) => node < self.nodes@.len() && (self.nodes@[node as int].origin matches Some(
                    p,
                ) && *m == self.nodes@[p as int]),
                None => node >= self.nodes@.len() || self.nodes@[node as int].origin is None,
            },
    {
        if node >= self.nodes.len() {
            return None;
        }
        match self.nodes[node].origin {
            Some(p) => Some(&self.nodes[p]),
            None => None,
        }
    }

    /// The edges by which the origin of room `node` reached its neighbours.
    pub fn get_prev_node_resp_map(&self, node: usize) -> (r: Option<&Vec<Link>>)
        requires
            self.wf(),
        ensures
            match r {
                Some(m) => node < self.nodes@.len() && (self.nodes@[node as int].origin matches Some(
                    p,
                ) && *m == self.nodes@[p as int].response_2_edge),
                None => node >= self.nodes@.len() || self.nodes@[node as int].origin is None,
            },
    {
        match self.get_prev_node_meta(node) {
            Some(m) => Some(&m.response_2_edge),
            None => None,
        }
    }

    /// Visits and least steps of room `node`; `(0, 65535)` for an unknown room.
    pub fn times_was_visited(&self, node: usize) -> (r: (u16, u16))
        ensures
            node < self.nodes@.len() ==> r == (self.nodes@[node as int].visits, self.nodes@[node as int].min_steps),
            node >= self.nodes@.len() ==> r == (0u16, u16::MAX),
    {
        if node < self.nodes.len() {
            (self.nodes[node].visits, self.nodes[node].min_steps)
        } else {
            (0, u16::MAX)
        }
    }

    /// The index that the next new room gets.
    pub fn get_node_meta_id(&self) -> (r: usize)
        ensures
            r == self.nodes@.len(),
    {
        self.nodes.len()
    }

    /// The index of the room with the identity of `r`, if it was seen.
    pub fn find_node(&self, r: &ResponseParts) -> (idx: Option<usize>)
        ensures
            match idx {
                Some(i) => i < self.nodes@.len() && room_key(self.nodes@[i as int].response)
                    == room_key(*r),
                None => forall|i: int|
                    0 <= i < self.nodes@.len() ==> room_key(#[trigger] self.nodes@[i].response)
                        != room_key(*r),
            },
    {
        let mut i: usize = 0;
        while i < self.nodes.len()
            invariant
                i <= self.nodes@.len(),
                forall|j: int|
                    0 <= j < i ==> room_key(#[trigger] self.nodes@[j].response) != room_key(*r),
            decreases self.nodes@.len() - i,
        {
            let n = &self.nodes[i];
            if n.response.title == r.title && n.response.message == r.message && same_strings(
                &n.response.exits,
                &r.exits,
            ) {
                return Some(i);
            }
            i = i + 1;
        }
        None
    }

    /// The way back from room `node` to the room it was entered from;
    /// `pick` chooses among the exits in the twisty maze.
    pub fn get_command_back_to_previous(&self, node: usize, pick: usize) -> (r: Option<String>)
        requires
            self.wf(),
            node < self.nodes@.len(),
        ensures
            match r {
                Some(c) => self.back_spec(node, pick as int) == Some(c@),
                None => self.back_spec(node, pick as int) is None,
            },
    {
        let prev = match self.nodes[node].origin {
            Some(p) => p,
            None => {
                return None;
            },
        };
        let cause = match find_link_edge(&self.nodes[prev].response_2_edge, node) {
            Some(c) => c,
            None => {
                return None;
            },
        };
        let exits = &self.nodes[node].response.exits;
        match opposite(&cause) {
            Some(back) => {
                if Self::validate_go_back_command(exits, &back) {
                    return Some(back);
                }
            },
            None => {},
        }
        let go_back = chars_to_string(&to_chars("go back"));
        if Self::validate_go_back_command(exits, &go_back) {
            return Some(go_back);
        }
        let msg = to_chars(self.nodes[node].response.message.as_str());
        let moves = Self::get_exits_from_response(&self.nodes[node].response);
        if contains_lit(&msg, "a twisty maze of little passages, all alike") && pick < moves.len() {
            assert(strings_view(moves@)[pick as int] == moves@[pick as int]@);
            return Some(moves[pick].clone());
        }
        None
    }

    /// Whether room `node` has more than one exit and a way back.
    pub fn previous_is_accessible(&self, node: usize) -> (r: bool)
        requires
            self.wf(),
            node < self.nodes@.len(),
        ensures
            r == (self.nodes@[node as int].response.exits@.len() > 1 && self.back_spec(node, 0)
                is Some),
    {
        self.nodes[node].response.exits.len() > 1 && self.get_command_back_to_previous(
            node,
            0,
        ).is_some()
    }

    /// The index of the completion set for the items now held, if any.
    fn completion_index(&self) -> (r: Option<usize>)
        ensures
            match r {
                Some(i) => i < self.completed_nodes@.len() && same_names(
                    strings_view(self.completed_nodes@[i as int].inventory@),
                    inventory_names(self.inventory_global@),
                ),
                None => forall|i: int|
                    0 <= i < self.completed_nodes@.len() ==> !same_names(
                        strings_view(#[trigger] self.completed_nodes@[i].inventory@),
                        inventory_names(self.inventory_global@),
                    ),
            },
    {
        let key = self.global_inventory_hash();
        let mut i: usize = 0;
        while i < self.completed_nodes.len()
            invariant
                i <= self.completed_nodes@.len(),
                strings_view(key@) == inventory_names(self.inventory_global@),
                forall|j: int|
                    0 <= j < i ==> !same_names(
                        strings_view(#[trigger] self.completed_nodes@[j].inventory@),
                        inventory_names(self.inventory_global@),
                    ),
            decreases self.completed_nodes@.len() - i,
        {
            if same_name_set(&self.completed_nodes[i].inventory, &key) {
                return Some(i);
            }
            i = i + 1;
        }
        None
    }

    /// Whether room `node` is completed with the items now held.
    pub fn is_node_completed(&self, node: usize) -> (r: bool)
        ensures
            r == is_completed(
                self.completed_nodes@,
                inventory_names(self.inventory_global@),
                node,
            ),
    {
        let ghost names = inventory_names(self.inventory_global@);
        let mut i: usize = 0;
        let key = self.global_inventory_hash();
        while i < self.completed_nodes.len()
            invariant
                i <= self.completed_nodes@.len(),
                strings_view(key@) == names,
                names == inventory_names(self.inventory_global@),
                forall|j: int|
                    0 <= j < i ==> !(same_names(
                        strings_view(#[trigger] self.completed_nodes@[j].inventory@),
                        names,
                    ) && self.completed_nodes@[j].nodes@.contains(node)),
            decreases self.completed_nodes@.len() - i,
        {
            let c = &self.completed_nodes[i];
            if same_name_set(&c.inventory, &key) {
                let mut k: usize = 0;
                while k < c.nodes.len()
                    invariant
                        k <= c.nodes@.len(),
                        i < self.completed_nodes@.len(),
                        *c == self.completed_nodes@[i as int],
                        same_names(strings_view(c.inventory@), names),
                        names == inventory_names(self.inventory_global@),
                        forall|j: int| 0 <= j < k ==> c.nodes@[j] != node,
                    decreases c.nodes@.len() - k,
                {
                    if c.nodes[k] == node {
                        assert(c.nodes@[k as int] == node);
                        assert(self.completed_nodes@[i as int].nodes@.contains(node));
                        return true;
                    }
                    k = k + 1;
                }
            }
            i = i + 1;
        }
        false
    }

    /// The room that `edge` of room `node` leads to, when that room is
    /// completed with the items now held.
    pub fn get_completed_node_by_edge(&self, edge: &String, node: usize) -> (r: Option<usize>)
        requires
            node < self.nodes@.len(),
        ensures
            match r {
                Some(t) => link_target(self.nodes@[node as int].edge_2_response@, edge@) == Some(t)
                    && is_completed(
                    self.completed_nodes@,
                    inventory_names(self.inventory_global@),
                    t,
                ),
                None => !(link_target(self.nodes@[node as int].edge_2_response@, edge@) matches Some(
                    t,
                ) && is_completed(
                    self.completed_nodes@,
                    inventory_names(self.inventory_global@),
                    t,
                )),
            },
    {
        match find_link_target(&self.nodes[node].edge_2_response, edge) {
            Some(t) => if self.is_node_completed(t) {
                Some(t)
            } else {
                None
            },
            None => None,
        }
    }
    /// Adds room `node` to the completed rooms for the items now held.
    fn mark_completed(&mut self, node: usize)
        requires
            old(self).wf(),
        ensures
            final(self).wf(),
            is_completed(
                final(self).completed_nodes@,
                inventory_names(final(self).inventory_global@),
                node,
            ),
            *final(self) == (MazeAnalyzer {
                completed_nodes: final(self).completed_nodes,
                ..*old(self)
            }),
    {
        match self.completion_index() {
            Some(i) => {
                self.completed_nodes[i].nodes.push(node);
                assert(self.completed_nodes@[i as int].nodes@.contains(node)) by {
                    assert(self.completed_nodes@[i as int].nodes@.last() == node);
                }
                assert(same_names(
                    strings_view(self.completed_nodes@[i as int].inventory@),
                    inventory_names(self.inventory_global@),
                ));
            },
            None => {
                let key = self.global_inventory_hash();
                let mut nodes: Vec<usize> = Vec::new();
                nodes.push(node);
                assert(nodes@[0] == node);
                self.completed_nodes.push(Completion { inventory: key, nodes });
                let ghost k = self.completed_nodes@.len() - 1;
                assert(same_names(
                    strings_view(self.completed_nodes@[k].inventory@),
                    inventory_names(self.inventory_global@),
                )) by {
                    let a = strings_view(self.completed_nodes@[k].inventory@);
                    assert forall|j: int| 0 <= j < a.len() implies a.contains(#[trigger] a[j]) by {}
                }
                assert(self.completed_nodes@[k].nodes@.contains(node));
            },
        }
    }

    /// Marks room `node` completed for the items now held when its origin is
    /// completed too, or when there is no way back out of it.
    pub fn complete_node(&mut self, node: usize)
        requires
            old(self).wf(),
            node < old(self).nodes@.len(),
        ensures
            final(self).wf(),
            *final(self) == (MazeAnalyzer {
                completed_nodes: final(self).completed_nodes,
                ..*old(self)
            }),
            ((old(self).nodes@[node as int].origin matches Some(p) && is_completed(
                old(self).completed_nodes@,
                inventory_names(old(self).inventory_global@),
                p,
            )) || !(old(self).nodes@[node as int].response.exits@.len() > 1 && old(self).back_spec(
                node,
                0,
            ) is Some)) ==> is_completed(
                final(self).completed_nodes@,
                inventory_names(final(self).inventory_global@),
                node,
            ),
    {
        let prev_done = match self.nodes[node].origin {
            Some(p) => self.is_node_completed(p),
            None => false,
        };
        if prev_done || !self.previous_is_accessible(node) {
            self.mark_completed(node);
        }
    }

    /// Records that `command` was taken in room `node`: one more visit of the
    /// edge, which becomes the last one and leaves the untried edges; the room
    /// is completed when no untried movement edge is left.
    pub fn visit_edge(&mut self, node: usize, command: &String)
        requires
            old(self).wf(),
            node < old(self).nodes@.len(),
        ensures
            final(self).wf(),
            final(self).nodes@.len() == old(self).nodes@.len(),
            forall|j: int|
                0 <= j < old(self).nodes@.len() && j != node ==> #[trigger] final(self).nodes@[j]
                    == old(self).nodes@[j],
            old(self).keeps_shape(node as int, final(self).nodes@[node as int]),
            final(self).nodes@[node as int] == (NodeMetadata {
                edges_to_visit: final(self).nodes@[node as int].edges_to_visit,
                visited_edges: final(self).nodes@[node as int].visited_edges,
                last_visited_edge: final(self).nodes@[node as int].last_visited_edge,
                ..old(self).nodes@[node as int]
            }),
            final(self).nodes@[node as int].last_visited_edge matches Some(l) && l@ == command@,
            edge_count(final(self).nodes@[node as int].visited_edges@, command@) is Some,
            !strings_view(final(self).nodes@[node as int].edges_to_visit@).contains(command@),
            final(self).inventory_global == old(self).inventory_global,
            final(self).head == old(self).head,
            final(self).first == old(self).first,
            final(self).steps_left == old(self).steps_left,
            final(self).response_buffer == old(self).response_buffer,
    {
        let mut kept: Vec<String> = Vec::new();
        let mut any_move = false;
        let mut i: usize = 0;
        while i < self.nodes[node].edges_to_visit.len()
            invariant
                node < self.nodes@.len(),
                self.nodes@ == old(self).nodes@,
                i <= self.nodes@[node as int].edges_to_visit@.len(),
                forall|j: int| 0 <= j < kept@.len() ==> #[trigger] kept@[j]@ != command@,
                forall|j: int| 0 <= j < kept@.len() ==> (#[trigger] kept@[j])@.len() > 0,
                old(self).wf(),
            decreases self.nodes@[node as int].edges_to_visit@.len() - i,
        {
            let e = self.nodes[node].edges_to_visit[i].clone();
            if e != *command {
                if is_move(&e) {
                    any_move = true;
                }
                kept.push(e);
            }
            i = i + 1;
        }
        assert(!strings_view(kept@).contains(command@)) by {
            if strings_view(kept@).contains(command@) {
                let j = choose|j: int| 0 <= j < strings_view(kept@).len() && strings_view(kept@)[j] == command@;
                assert(kept@[j]@ != command@);
            }
        }
        self.nodes[node].edges_to_visit = kept;
        let counts = &self.nodes[node].visited_edges;
        match find_edge_count(counts, command) {
            Some(k) => {
                let c = self.nodes[node].visited_edges[k].count;
                let next: u16 = if c < u16::MAX { c + 1 } else { c };
                self.nodes[node].visited_edges[k].count = next;
                proof {
                    let v = self.nodes@[node as int].visited_edges@;
                    lemma_edge_count_found(v, k as int, command@);
                }
            },
            None => {
                self.nodes[node].visited_edges.push(EdgeCount { edge: command.clone(), count: 1 });
                proof {
                    let v = self.nodes@[node as int].visited_edges@;
                    lemma_edge_count_found(v, v.len() - 1, command@);
                }
            },
        }
        self.nodes[node].last_visited_edge = Some(command.clone());
        assert(self.wf());
        if !any_move {
            self.complete_node(node);
        }
    }

    /// Records in room `from` that `edge` led to room `to`, in both directions.
    pub fn link_nodes(&mut self, to: usize, from: usize, edge: &String)
        requires
            old(self).wf(),
            from < old(self).nodes@.len(),
        ensures
            final(self).wf(),
            final(self).nodes@.len() == old(self).nodes@.len(),
            forall|j: int|
                0 <= j < old(self).nodes@.len() && j != from ==> #[trigger] final(self).nodes@[j]
                    == old(self).nodes@[j],
            old(self).keeps_shape(from as int, final(self).nodes@[from as int]),
            link_target(final(self).nodes@[from as int].edge_2_response@, edge@) == Some(to),
            link_edge(final(self).nodes@[from as int].response_2_edge@, to) == Some(edge@),
            final(self).nodes@[from as int].visited_edges == old(self).nodes@[from as int].visited_edges,
            final(self).nodes@[from as int].last_visited_edge == old(self).nodes@[from as int].last_visited_edge,
            final(self).nodes@[from as int].response == old(self).nodes@[from as int].response,
            final(self).nodes@[from as int] == (NodeMetadata {
                edge_2_response: final(self).nodes@[from as int].edge_2_response,
                response_2_edge: final(self).nodes@[from as int].response_2_edge,
                ..old(self).nodes@[from as int]
            }),
            *final(self) == (MazeAnalyzer { nodes: final(self).nodes, ..*old(self) }),
    {
        self.nodes[from].edge_2_response.insert(0, Link { edge: edge.clone(), node: to });
        self.nodes[from].response_2_edge.insert(0, Link { edge: edge.clone(), node: to });
    }

    /// Enters the room that `r` describes from the current room by `edge`:
    /// the room is created on its first observation, its visits are counted,
    /// its least step count kept, and the edge recorded on the room left.
    pub fn visit_node(&mut self, r: ResponseParts, edge: Option<String>) -> (idx: usize)
        requires
            old(self).wf(),
        ensures
            final(self).wf(),
            idx < final(self).nodes@.len(),
            final(self).head == Some(idx),
            room_key(final(self).nodes@[idx as int].response) == room_key(r),
            forall|j: int|
                0 <= j < old(self).nodes@.len() ==> room_key(
                    #[trigger] final(self).nodes@[j].response,
                ) == room_key(old(self).nodes@[j].response),
            match old(self).find_spec(r) {
                Some(i) => idx == i && final(self).nodes@.len() == old(self).nodes@.len(),
                None => idx == old(self).nodes@.len() && final(self).nodes@.len() == old(
                    self,
                ).nodes@.len() + 1,
            },
            final(self).inventory_global == old(self).inventory_global,
            final(self).steps_left == old(self).steps_left,
            final(self).response_buffer == old(self).response_buffer,
            match old(self).find_spec(r) {
                Some(i) => final(self).nodes@[idx as int].visits == inc_sat(old(self).nodes@[i as int].visits)
                    && final(self).nodes@[idx as int].min_steps == (if old(self).head is Some && old(
                    self,
                ).steps_through_head() < old(self).nodes@[i as int].min_steps {
                    old(self).steps_through_head()
                } else {
                    old(self).nodes@[i as int].min_steps
                }),
                None => final(self).nodes@[idx as int].visits == 1 && final(self).nodes@[idx as int].min_steps
                    == old(self).steps_through_head() && final(self).nodes@[idx as int].origin == old(self).head,
            },
            old(self).head is Some && edge is Some ==> link_target(
                final(self).nodes@[old(self).head->0 as int].edge_2_response@,
                edge->0@,
            ) == Some(idx) && link_edge(final(self).nodes@[old(self).head->0 as int].response_2_edge@, idx)
                == Some(edge->0@),
    {
        let prev = self.head;
        let prev_steps: u16 = match prev {
            Some(p) => self.nodes[p].min_steps,
            None => 0,
        };
        match (prev, &edge) {
            (Some(p), Some(e)) => self.visit_edge(p, e),
            _ => {},
        }
        let steps: u16 = match prev {
            Some(_) => if prev_steps < u16::MAX {
                prev_steps + 1
            } else {
                prev_steps
            },
            None => 0,
        };
        let mut resp = r;
        resp.inventory = self.global_inventory_hash();
        let found = self.find_node(&resp);
        let ghost before = self.nodes@;
        let idx = match found {
            Some(i) => {
                let v = self.nodes[i].visits;
                self.nodes[i].visits = if v < u16::MAX {
                    v + 1
                } else {
                    v
                };
                if prev.is_some() && steps < self.nodes[i].min_steps {
                    self.nodes[i].min_steps = steps;
                }
                self.nodes[i].response = resp;
                i
            },
            None => {
                let id = self.nodes.len();
                let edges_to_visit = Self::get_commands_from_response(&resp);
                proof {
                    lemma_room_commands_nonempty(resp);
                    assert forall|k: int| 0 <= k < edges_to_visit@.len() implies (#[trigger] edges_to_visit@[k])@.len() > 0 by {
                        assert(strings_view(edges_to_visit@)[k] == edges_to_visit@[k]@);
                    }
                }
                self.nodes.push(
                    NodeMetadata {
                        id,
                        response: resp,
                        min_steps: steps,
                        visits: 1,
                        origin: prev,
                        edges_to_visit,
                        visited_edges: Vec::new(),
                        last_visited_edge: None,
                        edge_2_response: Vec::new(),
                        response_2_edge: Vec::new(),
                        auxiliary_commands: Vec::new(),
                    },
                );
                id
            },
        };
        proof {
            assert(forall|j: int| 0 <= j < before.len() ==> room_key(#[trigger] self.nodes@[j].response) == room_key(before[j].response));
            assert(forall|j: int| 0 <= j < before.len() ==> room_key(#[trigger] before[j].response) == room_key(old(self).nodes@[j].response));
            if exists|j: int| 0 <= j < old(self).nodes@.len() && room_key(#[trigger] old(self).nodes@[j].response) == room_key(r) {
                let j = choose|j: int| 0 <= j < old(self).nodes@.len() && room_key(#[trigger] old(self).nodes@[j].response) == room_key(r);
                assert(room_key(before[j].response) == room_key(r));
                assert(found is Some);
                assert(old(self).find_spec(r) == Some(j as usize));
            } else {
                assert(old(self).find_spec(r) is None);
                assert(found is None);
            }
        }
        assert(self.wf());
        match (prev, edge) {
            (Some(p), Some(e)) => self.link_nodes(idx, p, &e),
            _ => {},
        }
        self.head = Some(idx);
        self.last_visited_node = Some(idx);
        if self.first.is_none() {
            self.first = Some(idx);
        }
        idx
    }

    /// Makes `items` the items held: entries of other items go, entries of
    /// these items keep their counts, new items start at zero. The current
    /// room records the items, and `things` as its things of interest when
    /// given.
    pub fn update_inventory(&mut self, items: &Vec<String>, things: Option<Vec<String>>)
        requires
            old(self).wf(),
        ensures
            final(self).wf(),
            same_names(inventory_names(final(self).inventory_global@), strings_view(items@)),
            forall|i: int|
                0 <= i < final(self).inventory_global@.len() ==> (inventory_entry(
                    old(self).inventory_global@,
                    (#[trigger] final(self).inventory_global@[i]).name@,
                ) matches Some(e) ==> e.uses == final(self).inventory_global@[i].uses && e.looks
                    == final(self).inventory_global@[i].looks),
            final(self).nodes@.len() == old(self).nodes@.len(),
            final(self).head == old(self).head,
            final(self).steps_left == old(self).steps_left,
            final(self).response_buffer == old(self).response_buffer,
            final(self).inventory_needs_update == old(self).inventory_needs_update,
            old(self).head is Some ==> strings_view(
                final(self).nodes@[old(self).head->0 as int].response.inventory@,
            ) == strings_view(items@) && match things {
                Some(t) => strings_view(final(self).nodes@[old(self).head->0 as int].response.things_of_interest@)
                    == strings_view(t@),
                None => final(self).nodes@[old(self).head->0 as int].response.things_of_interest
                    == old(self).nodes@[old(self).head->0 as int].response.things_of_interest,
            },
    {
        let mut kept: Vec<InventoryEntry> = Vec::new();
        let mut i: usize = 0;
        while i < self.inventory_global.len()
            invariant
                i <= self.inventory_global@.len(),
                forall|a: int, b: int|
                    0 <= a < kept@.len() && 0 <= b < kept@.len() && a != b ==> (#[trigger] kept@[a]).name@
                        != (#[trigger] kept@[b]).name@,
                forall|a: int|
                    0 <= a < kept@.len() ==> strings_view(items@).contains((#[trigger] kept@[a]).name@),
                forall|a: int|
                    0 <= a < kept@.len() ==> (inventory_entry(
                        self.inventory_global@,
                        (#[trigger] kept@[a]).name@,
                    ) matches Some(e) ==> e.uses == kept@[a].uses && e.looks == kept@[a].looks),
                forall|a: int|
                    0 <= a < kept@.len() ==> inventory_names(self.inventory_global@.subrange(0, i as int)).contains((#[trigger] kept@[a]).name@),
                forall|b: int|
                    0 <= b < i ==> (strings_view(items@).contains(#[trigger] self.inventory_global@[b].name@)
                        ==> inventory_names(kept@).contains(self.inventory_global@[b].name@)),
                self.wf(),
                self == old(self),
            decreases self.inventory_global@.len() - i,
        {
            let ghost g = self.inventory_global@;
            if holds_string(items, &self.inventory_global[i].name) {
                let e = &self.inventory_global[i];
                proof {
                    assert(inventory_entry(g, e.name@) == Some(*e)) by {
                        lemma_unique_entry(g, i as int);
                    }
                    assert forall|a: int| 0 <= a < kept@.len() implies kept@[a].name@ != e.name@ by {
                        let names = inventory_names(g.subrange(0, i as int));
                        let b = choose|b: int| 0 <= b < names.len() && names[b] == kept@[a].name@;
                        assert(g[b].name@ == names[b]);
                    }
                }
                let ghost before = kept@;
                kept.push(InventoryEntry { name: e.name.clone(), uses: e.uses, looks: e.looks });
                proof {
                    assert(inventory_names(kept@)[before.len() as int] == g[i as int].name@);
                    assert forall|b: int| 0 <= b <= i && strings_view(items@).contains(#[trigger] g[b].name@)
                        implies inventory_names(kept@).contains(g[b].name@) by {
                        if b < i {
                            let names = inventory_names(before);
                            let a = choose|a: int| 0 <= a < names.len() && names[a] == g[b].name@;
                            assert(inventory_names(kept@)[a] == g[b].name@);
                        }
                    }
                }
            }
            proof {
                let n0 = inventory_names(g.subrange(0, i as int));
                let n1 = inventory_names(g.subrange(0, i + 1));
                assert forall|a: int| 0 <= a < kept@.len() implies n1.contains((#[trigger] kept@[a]).name@) by {
                    if a < kept@.len() - 1 || !strings_view(items@).contains(g[i as int].name@) {
                        if n0.contains(kept@[a].name@) {
                            let b = choose|b: int| 0 <= b < n0.len() && n0[b] == kept@[a].name@;
                            assert(n1[b] == n0[b]);
                        }
                    }
                    if !n0.contains(kept@[a].name@) {
                        assert(n1[i as int] == g[i as int].name@);
                    }
                }
            }
            i = i + 1;
        }
        assert(self.inventory_global@.subrange(0, self.inventory_global@.len() as int) =~= self.inventory_global@);
        let mut k: usize = 0;
        while k < items.len()
            invariant
                k <= items@.len(),
                forall|a: int, b: int|
                    0 <= a < kept@.len() && 0 <= b < kept@.len() && a != b ==> (#[trigger] kept@[a]).name@
                        != (#[trigger] kept@[b]).name@,
                forall|a: int|
                    0 <= a < kept@.len() ==> strings_view(items@).contains((#[trigger] kept@[a]).name@),
                forall|a: int|
                    0 <= a < kept@.len() ==> (inventory_entry(
                        self.inventory_global@,
                        (#[trigger] kept@[a]).name@,
                    ) matches Some(e) ==> e.uses == kept@[a].uses && e.looks == kept@[a].looks),
                forall|b: int| 0 <= b < k ==> inventory_names(kept@).contains(#[trigger] items@[b]@),
                forall|b: int|
                    0 <= b < self.inventory_global@.len() ==> (strings_view(items@).contains(#[trigger] self.inventory_global@[b].name@)
                        ==> inventory_names(kept@).contains(self.inventory_global@[b].name@)),
                self.wf(),
                self == old(self),
            decreases items@.len() - k,
        {
            let names = inventory_name_list(&kept);
            if !holds_string(&names, &items[k]) {
                proof {
                    assert forall|a: int| 0 <= a < kept@.len() implies kept@[a].name@ != items@[k as int]@ by {
                        assert(strings_view(names@)[a] == kept@[a].name@);
                    }
                    assert(strings_view(items@)[k as int] == items@[k as int]@);
                    assert forall|b: int| 0 <= b < self.inventory_global@.len() implies (#[trigger] self.inventory_global@[b]).name@ != items@[k as int]@ by {
                        if self.inventory_global@[b].name@ == items@[k as int]@ {
                            assert(strings_view(items@).contains(self.inventory_global@[b].name@));
                        }
                    }
                    lemma_absent_entry(self.inventory_global@, items@[k as int]@);
                }
                let ghost before = kept@;
                kept.push(InventoryEntry { name: items[k].clone(), uses: 0, looks: 0 });
                proof {
                    assert(inventory_names(kept@)[before.len() as int] == items@[k as int]@);
                    assert forall|b: int| 0 <= b <= k implies inventory_names(kept@).contains(#[trigger] items@[b]@) by {
                        if b < k {
                            let a = choose|a: int| 0 <= a < inventory_names(before).len() && inventory_names(before)[a] == items@[b]@;
                            assert(inventory_names(kept@)[a] == items@[b]@);
                        }
                    }
                    assert forall|b: int| 0 <= b < self.inventory_global@.len() && strings_view(items@).contains(#[trigger] self.inventory_global@[b].name@)
                        implies inventory_names(kept@).contains(self.inventory_global@[b].name@) by {
                        let a = choose|a: int| 0 <= a < inventory_names(before).len() && inventory_names(before)[a] == self.inventory_global@[b].name@;
                        assert(inventory_names(kept@)[a] == inventory_names(before)[a]);
                    }
                }
            } else {
                proof {
                    assert(inventory_names(kept@).contains(items@[k as int]@));
                }
            }
            k = k + 1;
        }
        proof {
            assert forall|a: int| 0 <= a < kept@.len() implies strings_view(items@).contains(#[trigger] inventory_names(kept@)[a]) by {
                assert(inventory_names(kept@)[a] == kept@[a].name@);
            }
            assert forall|b: int| 0 <= b < strings_view(items@).len() implies inventory_names(kept@).contains(#[trigger] strings_view(items@)[b]) by {
                assert(inventory_names(kept@).contains(items@[b]@));
            }
        }
        self.inventory_global = kept;
        match self.head {
            Some(h) => {
                self.nodes[h].response.inventory = crate::output_parser::copy_strings(items);
                match things {
                    Some(t) => {
                        self.nodes[h].response.things_of_interest = t;
                    },
                    None => {},
                }
                assert(old(self).keeps_shape(h as int, self.nodes@[h as int]));
            },
            None => {},
        }
    }

    /// Counts one more use (`looking` false) or look (`looking` true) of
    /// `item`, which is added to the items held when it is not there.
    pub fn count_item(&mut self, item: &String, looking: bool)
        requires
            old(self).wf(),
        ensures
            final(self).wf(),
            inventory_entry(final(self).inventory_global@, item@) matches Some(e) && (if looking {
                e.looks > 0
            } else {
                e.uses > 0
            }),
            final(self).nodes == old(self).nodes,
            final(self).head == old(self).head,
            final(self).steps_left == old(self).steps_left,
            final(self).response_buffer == old(self).response_buffer,
    {
        match find_inventory(&self.inventory_global, item) {
            Some(i) => {
                let u = self.inventory_global[i].uses;
                let l = self.inventory_global[i].looks;
                let ghost before = self.inventory_global@;
                if looking {
                    self.inventory_global[i].looks = if l < u16::MAX {
                        l + 1
                    } else {
                        l
                    };
                } else {
                    self.inventory_global[i].uses = if u < u16::MAX {
                        u + 1
                    } else {
                        u
                    };
                }
                proof {
                    assert forall|a: int| 0 <= a < before.len() implies (#[trigger] self.inventory_global@[a]).name@ == before[a].name@ by {}
                    lemma_unique_entry(self.inventory_global@, i as int);
                }
            },
            None => {
                proof {
                    lemma_entry_none(self.inventory_global@, item@);
                }
                let ghost before = self.inventory_global@;
                self.inventory_global.push(
                    InventoryEntry {
                        name: item.clone(),
                        uses: if looking {
                            0
                        } else {
                            1
                        },
                        looks: if looking {
                            1
                        } else {
                            0
                        },
                    },
                );
                proof {
                    lemma_unique_entry(self.inventory_global@, before.len() as int);
                }
            },
        }
    }

    /// Stores the things of interest and items of `new_response` in the
    /// current room, whose identity stays.
    pub fn replace_head(&mut self, new_response: &ResponseParts) -> (r: Result<(), SolverError>)
        requires
            old(self).wf(),
        ensures
            final(self).wf(),
            r is Ok <==> old(self).head is Some,
            r is Err ==> r == Err::<(), SolverError>(SolverError::NoHead),
            final(self).head == old(self).head,
            final(self).nodes@.len() == old(self).nodes@.len(),
            final(self).inventory_global == old(self).inventory_global,
            final(self).steps_left == old(self).steps_left,
    {
        match self.head {
            Some(h) => {
                self.nodes[h].response.things_of_interest = new_response.things_of_interest.clone();
                self.nodes[h].response.inventory = new_response.inventory.clone();
                assert(old(self).keeps_shape(h as int, self.nodes@[h as int]));
                Ok(())
            },
            None => Err(SolverError::NoHead),
        }
    }

    /// Stores what `command` printed in the current room.
    pub fn set_aux_commands(&mut self, output: String, command: &CommandType) -> (r: Option<()>)
        requires
            old(self).wf(),
        ensures
            final(self).wf(),
            r is Some <==> old(self).head is Some,
            final(self).head == old(self).head,
            final(self).nodes@.len() == old(self).nodes@.len(),
            final(self).inventory_global == old(self).inventory_global,
            final(self).steps_left == old(self).steps_left,
            final(self).response_buffer == old(self).response_buffer,
            final(self).inventory_needs_update == old(self).inventory_needs_update,
            forall|j: int|
                0 <= j < old(self).nodes@.len() ==> (#[trigger] final(self).nodes@[j]).response
                    == old(self).nodes@[j].response,
            old(self).head is Some ==> final(self).nodes@[old(self).head->0 as int].auxiliary_commands@.len() > 0
                && final(self).nodes@[old(self).head->0 as int].auxiliary_commands@[0].command@
                == command_text(command@) && final(self).nodes@[old(self).head->0 as int].auxiliary_commands@[0].output
                == output,
            forall|j: int|
                0 <= j < old(self).nodes@.len() ==> (#[trigger] final(self).nodes@[j]).last_visited_edge
                    == old(self).nodes@[j].last_visited_edge,
    {
        match self.head {
            Some(h) => {
                let note = Note { command: command.to_command_string(), output };
                self.nodes[h].auxiliary_commands.insert(0, note);
                assert(old(self).keeps_shape(h as int, self.nodes@[h as int]));
                Some(())
            },
            None => None,
        }
    }

    /// Parses the gathered guest output.
    fn parse_buffer(&self) -> (r: Result<ResponseParts, SolverError>)
        ensures
            match crate::output_parser::parse_spec(self.response_buffer@) {
                Ok(v) => r is Ok && r->Ok_0@ == v,
                Err(e) => r == Err::<ResponseParts, SolverError>(SolverError::Parse(e)),
            },
    {
        let parser = OutputParser::from_chars(self.response_buffer.clone());
        match parser.parse() {
            Ok(p) => Ok(p),
            Err(e) => Err(SolverError::Parse(e)),
        }
    }

    /// One more response was dispatched.
    fn count_response(&mut self)
        ensures
            *final(self) == (MazeAnalyzer {
                commands_counter: final(self).commands_counter,
                response_buffer: final(self).response_buffer,
                ..*old(self)
            }),
            final(self).response_buffer@.len() == 0,
            final(self).commands_counter == if old(self).commands_counter == u16::MAX {
                0
            } else {
                old(self).commands_counter + 1
            },
    {
        self.response_buffer.clear();
        self.commands_counter = if self.commands_counter == u16::MAX {
            0
        } else {
            self.commands_counter + 1
        };
    }

    /// Folds the gathered response into the graph. A response to `take`,
    /// `drop`, `use`, `look <item>` or `inv` updates the items held and the
    /// current room; a response to a move, or the first response, enters a
    /// room; a response that the game did not understand changes no room.
    pub fn add_response(&mut self, command: Option<CommandType>) -> (r: Result<(), SolverError>)
        requires
            old(self).wf(),
        ensures
            final(self).wf(),
            old(self).response_buffer@.len() == 0 ==> r is Ok && *final(self) == *old(self),
            old(self).response_buffer@.len() > 0 ==> match crate::output_parser::parse_spec(
                old(self).response_buffer@,
            ) {
                Err(e) => r == Err::<(), SolverError>(SolverError::Parse(e)) && *final(self)
                    == *old(self),
                Ok(v) => (r is Ok ==> final(self).response_buffer@.len() == 0) && (!(command matches Some(
                    CommandType::Slash(_),
                )) || v.dont_understand || old(self).head is None ==> r is Ok && folds_response(
                    *old(self),
                    *final(self),
                    command_view(command),
                    v,
                )),
            },
            final(self).steps_left == old(self).steps_left,
    {
        if self.response_buffer.len() == 0 {
            return Ok(());
        }
        let resp = self.parse_buffer()?;
        if resp.dont_understand {
            self.count_response();
            return Ok(());
        }
        let head = match self.head {
            Some(h) => h,
            None => {
                let edge = match &command {
                    Some(c) => Some(c.to_command_string()),
                    None => None,
                };
                self.visit_node(resp, edge);
                self.count_response();
                return Ok(());
            },
        };
        match command {
            Some(CommandType::InventoryTake(item)) => {
                let cmd = CommandType::InventoryTake(item.clone()).to_command_string();
                self.visit_edge(head, &cmd);
                let mut things: Vec<String> = Vec::new();
                let mut i: usize = 0;
                let ghost ts = strings_view(self.nodes@[head as int].response.things_of_interest@);
                while i < self.nodes[head].response.things_of_interest.len()
                    invariant
                        self.wf(),
                        head < self.nodes@.len(),
                        ts == strings_view(self.nodes@[head as int].response.things_of_interest@),
                        i <= ts.len(),
                        strings_view(things@) == without(ts.subrange(0, i as int), item@),
                    decreases self.nodes@[head as int].response.things_of_interest@.len() - i,
                {
                    let t = &self.nodes[head].response.things_of_interest[i];
                    let ghost before = things@;
                    assert(ts.subrange(0, i + 1).drop_last() =~= ts.subrange(0, i as int));
                    assert(ts.subrange(0, i + 1).last() == t@);
                    if *t != item {
                        things.push(t.clone());
                        assert(strings_view(things@) =~= strings_view(before).push(t@));
                    }
                    i = i + 1;
                }
                assert(ts.subrange(0, ts.len() as int) =~= ts);
                let mut inventory = crate::output_parser::copy_strings(&self.nodes[head].response.inventory);
                let ghost names = strings_view(self.nodes@[head as int].response.inventory@);
                inventory.push(item);
                assert(strings_view(inventory@) =~= names.push(inventory@.last()@));
                self.update_inventory(&inventory, Some(things));
                self.set_aux_commands(resp.pretext, &CommandType::Move(cmd));
                self.inventory_needs_update = true;
            },
            Some(CommandType::InventoryDrop(item)) => {
                let cmd = CommandType::InventoryDrop(item.clone()).to_command_string();
                self.visit_edge(head, &cmd);
                let held = crate::output_parser::copy_strings(&self.nodes[head].response.inventory);
                let ghost hv = strings_view(held@);
                let mut inventory: Vec<String> = Vec::new();
                let mut i: usize = 0;
                while i < held.len()
                    invariant
                        i <= held@.len(),
                        hv == strings_view(held@),
                        strings_view(inventory@) == without(hv.subrange(0, i as int), item@),
                        forall|k: int| 0 <= k < inventory@.len() ==> #[trigger] inventory@[k]@ != item@,
                    decreases held@.len() - i,
                {
                    let ghost before = inventory@;
                    assert(hv.subrange(0, i + 1).drop_last() =~= hv.subrange(0, i as int));
                    assert(hv.subrange(0, i + 1).last() == held@[i as int]@);
                    if held[i] != item {
                        inventory.push(held[i].clone());
                        assert(strings_view(inventory@) =~= strings_view(before).push(held@[i as int]@));
                    }
                    i = i + 1;
                }
                assert(hv.subrange(0, hv.len() as int) =~= hv);
                self.update_inventory(&inventory, None);
                proof {
                    if inventory_names(self.inventory_global@).contains(item@) {
                        let k = choose|k: int| 0 <= k < inventory_names(self.inventory_global@).len()
                            && inventory_names(self.inventory_global@)[k] == item@;
                        assert(strings_view(inventory@).contains(inventory_names(self.inventory_global@)[k]));
                        let q = choose|q: int| 0 <= q < strings_view(inventory@).len()
                            && strings_view(inventory@)[q] == item@;
                        assert(inventory@[q]@ != item@);
                    }
                }
                self.set_aux_commands(resp.pretext, &CommandType::Move(cmd));
                self.inventory_needs_update = true;
            },
            Some(CommandType::InventoryUse(item)) => {
                let cmd = CommandType::InventoryUse(item.clone()).to_command_string();
                self.visit_edge(head, &cmd);
                self.count_item(&item, false);
                self.inventory_needs_update = true;
                self.set_aux_commands(resp.pretext, &CommandType::Move(cmd));
            },
            Some(CommandType::InventoryLook(item)) => {
                let cmd = CommandType::InventoryLook(item.clone()).to_command_string();
                self.visit_edge(head, &cmd);
                self.count_item(&item, true);
                self.set_aux_commands(resp.pretext, &CommandType::Move(cmd));
            },
            Some(CommandType::Inventory) => {
                let cmd = CommandType::Inventory.to_command_string();
                self.visit_edge(head, &cmd);
                self.update_inventory(&resp.inventory, None);
                self.set_aux_commands(resp.pretext, &CommandType::Inventory);
                self.inventory_needs_update = false;
            },
            Some(CommandType::Move(cmd)) => {
                self.visit_node(resp, Some(cmd));
            },
            None => {
                self.visit_node(resp, None);
            },
            Some(CommandType::Look) => {
                let cmd = CommandType::Look.to_command_string();
                self.visit_edge(head, &cmd);
                self.set_aux_commands(resp.pretext, &CommandType::Look);
            },
            Some(CommandType::Help) => {
                let cmd = CommandType::Help.to_command_string();
                self.visit_edge(head, &cmd);
                self.set_aux_commands(resp.pretext, &CommandType::Help);
            },
            Some(CommandType::Slash(_)) => {
                return Err(SolverError::SlashCommand);
            },
            Some(CommandType::Empty) => {},
        }
        self.count_response();
        Ok(())
    }

    /// Folds the response to `look` or `help` into the current room, which
    /// it does not leave.
    pub fn modify_prev_response(&mut self, command: CommandType) -> (r: Result<(), SolverError>)
        requires
            old(self).wf(),
        ensures
            final(self).wf(),
            final(self).head == old(self).head,
            final(self).nodes@.len() == old(self).nodes@.len(),
            final(self).steps_left == old(self).steps_left,
            old(self).response_buffer@.len() > 0 ==> match crate::output_parser::parse_spec(
                old(self).response_buffer@,
            ) {
                Err(e) => r == Err::<(), SolverError>(SolverError::Parse(e)),
                Ok(v) => (r is Ok <==> old(self).head is Some) && (old(self).head is Some ==> noted(
                    *final(self),
                    old(self).head->0,
                    command_text(command@),
                    v.pretext,
                )),
            },
    {
        if self.response_buffer.len() == 0 {
            return Ok(());
        }
        let resp = self.parse_buffer()?;
        self.count_response();
        let head = match self.head {
            Some(h) => h,
            None => {
                return Err(SolverError::NoHead);
            },
        };
        let cmd = command.to_command_string();
        self.visit_edge(head, &cmd);
        match self.set_aux_commands(resp.pretext, &command) {
            Some(()) => Ok(()),
            None => Err(SolverError::NoHead),
        }
    }

    /// Folds the gathered response to `command` into the graph; `None` stands
    /// for the response that preceded any command.
    pub fn dispatch_response(&mut self, command: Option<CommandType>) -> (r: Result<(), SolverError>)
        requires
            old(self).wf(),
        ensures
            final(self).wf(),
            final(self).steps_left == old(self).steps_left,
            old(self).response_buffer@.len() == 0 ==> r is Ok && *final(self) == *old(self),
            (command matches Some(CommandType::Empty)) ==> r is Ok && *final(self) == *old(self),
            old(self).response_buffer@.len() > 0 && (command matches Some(CommandType::Slash(_)))
                ==> r == Err::<(), SolverError>(SolverError::SlashCommand),
            old(self).response_buffer@.len() > 0 && !(command matches Some(CommandType::Slash(_)))
                && !(command matches Some(CommandType::Empty)) ==> match crate::output_parser::parse_spec(
                old(self).response_buffer@,
            ) {
                Err(e) => r == Err::<(), SolverError>(SolverError::Parse(e)),
                Ok(v) => if (command matches Some(CommandType::Look)) || (command matches Some(
                    CommandType::Help,
                )) {
                    (r is Ok <==> old(self).head is Some) && final(self).head == old(self).head
                        && final(self).nodes@.len() == old(self).nodes@.len() && (old(self).head is Some
                        ==> noted(*final(self), old(self).head->0, command_text(command_view(command)->0), v.pretext))
                } else {
                    r is Ok && folds_response(*old(self), *final(self), command_view(command), v)
                },
            },
    {
        if self.response_buffer.len() == 0 {
            return Ok(());
        }
        match command {
            Some(cmd) => match cmd {
                CommandType::Look | CommandType::Help => self.modify_prev_response(cmd),
                CommandType::Slash(_) => Err(SolverError::SlashCommand),
                CommandType::Empty => Ok(()),
                _ => self.add_response(Some(cmd)),
            },
            None => self.add_response(None),
        }
    }

    /// Gives `use lit lantern` and the edge back to the previous room, when
    /// they are untried candidates of room `node`, visit counts that make the
    /// explorer take them late or never.
    fn penalize_candidates(&mut self, node: usize)
        requires
            old(self).wf(),
            node < old(self).nodes@.len(),
        ensures
            final(self).wf(),
            final(self).nodes@.len() == old(self).nodes@.len(),
            forall|j: int|
                0 <= j < old(self).nodes@.len() && j != node ==> #[trigger] final(self).nodes@[j]
                    == old(self).nodes@[j],
            final(self).nodes@[node as int] == (NodeMetadata {
                visited_edges: final(self).nodes@[node as int].visited_edges,
                ..old(self).nodes@[node as int]
            }),
            forall|e: Seq<char>|
                #![trigger edge_count(final(self).nodes@[node as int].visited_edges@, e)]
                edge_count(final(self).nodes@[node as int].visited_edges@, e) == match old(
                    self,
                ).penalty(node, e) {
                    Some(p) => Some(p),
                    None => edge_count(old(self).nodes@[node as int].visited_edges@, e),
                },
            *final(self) == (MazeAnalyzer { nodes: final(self).nodes, ..*old(self) }),
    {
        let lantern = chars_to_string(&to_chars("use lit lantern"));
        let back = self.get_command_back_to_previous(node, 0);
        let n = self.nodes[node].edges_to_visit.len();
        let ghost cv = strings_view(old(self).nodes@[node as int].edges_to_visit@);
        let ghost ov = old(self).nodes@[node as int].visited_edges@;
        let ghost hint = old(self).back_hint(node);
        let mut i: usize = 0;
        while i < n
            invariant
                self.wf(),
                node < self.nodes@.len(),
                i <= n,
                n == cv.len(),
                cv == strings_view(self.nodes@[node as int].edges_to_visit@),
                lantern@ == "use lit lantern"@,
                match back {
                    Some(b) => hint == Some(b@),
                    None => hint is None,
                },
                self.nodes@.len() == old(self).nodes@.len(),
                forall|j: int|
                    0 <= j < old(self).nodes@.len() && j != node ==> #[trigger] self.nodes@[j]
                        == old(self).nodes@[j],
                self.nodes@[node as int] == (NodeMetadata {
                    visited_edges: self.nodes@[node as int].visited_edges,
                    ..old(self).nodes@[node as int]
                }),
                *self == (MazeAnalyzer { nodes: self.nodes, ..*old(self) }),
                forall|e: Seq<char>|
                    #![trigger edge_count(self.nodes@[node as int].visited_edges@, e)]
                    edge_count(self.nodes@[node as int].visited_edges@, e) == if edge_count(ov, e) is None
                        && cv.subrange(0, i as int).contains(e) && (e == "use lit lantern"@ || hint
                        == Some(e)) {
                        if e == "use lit lantern"@ {
                            Some(LANTERN_PENALTY)
                        } else {
                            Some(BACK_PENALTY)
                        }
                    } else {
                        edge_count(ov, e)
                    },
            decreases n - i,
        {
            let ghost cur = self.nodes@[node as int].visited_edges@;
            let c = self.nodes[node].edges_to_visit[i].clone();
            assert(cv[i as int] == c@);
            let untried = find_edge_count(&self.nodes[node].visited_edges, &c).is_none();
            let is_back = match &back {
                Some(b) => *b == c,
                None => false,
            };
            let pushed: Option<u16> = if untried && c == lantern {
                Some(LANTERN_PENALTY)
            } else if untried && is_back {
                Some(BACK_PENALTY)
            } else {
                None
            };
            match pushed {
                Some(count) => {
                    self.nodes[node].visited_edges.push(EdgeCount { edge: c.clone(), count });
                },
                None => {},
            }
            proof {
                let nv = self.nodes@[node as int].visited_edges@;
                assert forall|e: Seq<char>| #![trigger edge_count(nv, e)]
                    edge_count(nv, e) == if edge_count(ov, e) is None
                        && cv.subrange(0, i + 1).contains(e) && (e == "use lit lantern"@ || hint
                        == Some(e)) {
                        if e == "use lit lantern"@ {
                            Some(LANTERN_PENALTY)
                        } else {
                            Some(BACK_PENALTY)
                        }
                    } else {
                        edge_count(ov, e)
                    } by {
                    if pushed is Some {
                        lemma_edge_count_push(cur, EdgeCount { edge: c, count: pushed->0 }, e);
                    }
                    assert(cv.subrange(0, i + 1) =~= cv.subrange(0, i as int).push(c@));
                    if e != c@ {
                        assert(cv.subrange(0, i + 1).contains(e) == cv.subrange(0, i as int).contains(e)) by {
                            if cv.subrange(0, i + 1).contains(e) {
                                let k = choose|k: int| 0 <= k < i + 1 && #[trigger] cv.subrange(0, i + 1)[k] == e;
                                assert(k < i);
                                assert(cv.subrange(0, i as int)[k] == e);
                            }
                        }
                    } else {
                        assert(cv.subrange(0, i + 1)[i as int] == e);
                    }
                }
            }
            i = i + 1;
        }
        proof {
            assert(cv.subrange(0, n as int) =~= cv);
            assert(hint == old(self).back_hint(node));
            let fv = self.nodes@[node as int].visited_edges@;
            assert forall|e: Seq<char>| #![trigger edge_count(fv, e)]
                edge_count(fv, e) == match old(self).penalty(node, e) {
                    Some(p) => Some(p),
                    None => edge_count(ov, e),
                } by {
                assert(edge_count(fv, e) == edge_count(self.nodes@[node as int].visited_edges@, e));
                assert(strings_view(old(self).nodes@[node as int].edges_to_visit@) == cv);
                assert(old(self).nodes@[node as int].visited_edges@ == ov);
            }
        }
    }

    /// The first untried candidate of room `node` in textual order (the last
    /// one stored) that is neither dangerous nor a look at or use of an item
    /// already looked at or used.
    pub fn pick_candidate(&self, node: usize) -> (r: Option<String>)
        requires
            self.wf(),
            node < self.nodes@.len(),
        ensures
            ({
                let cands = strings_view(self.nodes@[node as int].edges_to_visit@);
                match r {
                    Some(e) => exists|k: int|
                        0 <= k < cands.len() && cands[k] == e@ && self.is_open_edge(node, e@)
                            && forall|j: int| k < j < cands.len() ==> !self.is_open_edge(node, #[trigger] cands[j]),
                    None => forall|k: int| 0 <= k < cands.len() ==> !self.is_open_edge(node, #[trigger] cands[k]),
                }
            }),
    {
        let lantern = self.holds_lantern();
        let msg = &self.nodes[node].response.message;
        let cands = &self.nodes[node].edges_to_visit;
        let ghost cv = strings_view(cands@);
        let mut i: usize = cands.len();
        while i > 0
            invariant
                i <= cands@.len(),
                cv == strings_view(cands@),
                *cands == self.nodes@[node as int].edges_to_visit,
                *msg == self.nodes@[node as int].response.message,
                lantern == holds_lit_lantern(self.inventory_global@),
                node < self.nodes@.len(),
                forall|j: int| i <= j < cv.len() ==> !self.is_open_edge(node, #[trigger] cv[j]),
            decreases i,
        {
            let e = &cands[i - 1];
            assert(cv[i - 1] == e@);
            if find_edge_count(&self.nodes[node].visited_edges, e).is_none() && !Self::is_a_dangerous_edge(
                msg,
                e,
                lantern,
            ) && !Self::is_looked_or_used_inventory(&self.inventory_global, e) {
                return Some(e.clone());
            }
            i = i - 1;
        }
        None
    }

    /// Among the movement edges of room `node` taken fewer than `max_times_visited`
    /// times, other than the last one taken, not dangerous and not leading
    /// to a room completed with the items now held: the one taken least
    /// often, the first of those on a tie.
    pub fn get_next_edge_least_visited_fallback(&self, node: usize, max_times_visited: u16) -> (r:
        Option<String>)
        requires
            self.wf(),
            node < self.nodes@.len(),
        ensures
            ({
                let v = self.nodes@[node as int].visited_edges@;
                match r {
                    Some(e) => exists|k: int|
                        self.may_revisit(node, k, max_times_visited) && v[k].edge@ == e@
                            && forall|j: int| #[trigger] self.may_revisit(node, j, max_times_visited) ==> v[k].count <= v[j].count,
                    None => forall|j: int| !#[trigger] self.may_revisit(node, j, max_times_visited),
                }
            }),
    {
        let n = &self.nodes[node];
        let last = match &n.last_visited_edge {
            Some(l) => l,
            None => {
                return None;
            },
        };
        let lantern = self.holds_lantern();
        let mut best: Option<usize> = None;
        let mut i: usize = 0;
        while i < n.visited_edges.len()
            invariant
                i <= n.visited_edges@.len(),
                *n == self.nodes@[node as int],
                node < self.nodes@.len(),
                n.last_visited_edge == Some(*last),
                lantern == holds_lit_lantern(self.inventory_global@),
                match best {
                    Some(b) => b < i && self.may_revisit(node, b as int, max_times_visited) && forall|j: int|
                        0 <= j < i && #[trigger] self.may_revisit(node, j, max_times_visited) ==> n.visited_edges@[b as int].count
                            <= n.visited_edges@[j].count,
                    None => forall|j: int| 0 <= j < i ==> !#[trigger] self.may_revisit(node, j, max_times_visited),
                },
            decreases n.visited_edges@.len() - i,
        {
            let e = &n.visited_edges[i];
            let eligible = e.count < max_times_visited && is_move(&e.edge) && e.edge != *last
                && !Self::is_a_dangerous_edge(&n.response.message, &e.edge, lantern)
                && self.get_completed_node_by_edge(&e.edge, node).is_none();
            assert(eligible == self.may_revisit(node, i as int, max_times_visited));
            if eligible {
                match best {
                    Some(b) => {
                        if e.count < n.visited_edges[b].count {
                            best = Some(i);
                        }
                    },
                    None => {
                        best = Some(i);
                    },
                }
            }
            i = i + 1;
        }
        match best {
            Some(b) => Some(n.visited_edges[b].edge.clone()),
            None => None,
        }
    }

    /// The next edge to take from room `node`: the first surviving
    /// candidate in textual order, else the least visited movement edge that
    /// may be retaken. Untried `use lit lantern` and way-back candidates get
    /// the visit counts `32767` and `2` first.
    pub fn get_next_edge(&mut self, node: usize, max_times_visited: u16) -> (r: Option<Choice>)
        requires
            old(self).wf(),
            node < old(self).nodes@.len(),
        ensures
            final(self).wf(),
            final(self).nodes@.len() == old(self).nodes@.len(),
            forall|j: int|
                0 <= j < old(self).nodes@.len() && j != node ==> #[trigger] final(self).nodes@[j]
                    == old(self).nodes@[j],
            final(self).nodes@[node as int] == (NodeMetadata {
                visited_edges: final(self).nodes@[node as int].visited_edges,
                ..old(self).nodes@[node as int]
            }),
            forall|e: Seq<char>|
                #![trigger edge_count(final(self).nodes@[node as int].visited_edges@, e)]
                edge_count(final(self).nodes@[node as int].visited_edges@, e) == match old(
                    self,
                ).penalty(node, e) {
                    Some(p) => Some(p),
                    None => edge_count(old(self).nodes@[node as int].visited_edges@, e),
                },
            *final(self) == (MazeAnalyzer { nodes: final(self).nodes, ..*old(self) }),
            ({
                let cands = strings_view(old(self).nodes@[node as int].edges_to_visit@);
                let v = final(self).nodes@[node as int].visited_edges@;
                match r {
                    Some(Choice::Explore(e)) => exists|k: int|
                        0 <= k < cands.len() && cands[k] == e@ && old(self).survives(node, e@)
                            && forall|j: int| k < j < cands.len() ==> !old(self).survives(node, #[trigger] cands[j]),
                    Some(Choice::Revisit(e)) => old(self).no_survivor(node) && !final(self).dangerous_in(node, e@)
                        && exists|k: int|
                        #[trigger] final(self).may_revisit(node, k, max_times_visited) && v[k].edge@ == e@
                            && forall|j: int| #[trigger] final(self).may_revisit(node, j, max_times_visited) ==> v[k].count <= v[j].count,
                    Some(_) => false,
                    None => old(self).no_survivor(node) && forall|j: int| !#[trigger] final(self).may_revisit(node, j, max_times_visited),
                }
            }),
    {
        self.penalize_candidates(node);
        proof {
            let cands = strings_view(old(self).nodes@[node as int].edges_to_visit@);
            assert forall|k: int| 0 <= k < cands.len() implies self.is_open_edge(node, #[trigger] cands[k])
                == old(self).survives(node, cands[k]) by {
                assert(cands.contains(cands[k]));
                assert(edge_count(self.nodes@[node as int].visited_edges@, cands[k]) == match old(self).penalty(node, cands[k]) {
                    Some(p) => Some(p),
                    None => edge_count(old(self).nodes@[node as int].visited_edges@, cands[k]),
                });
            }
        }
        let ghost cands = strings_view(old(self).nodes@[node as int].edges_to_visit@);
        assert(strings_view(self.nodes@[node as int].edges_to_visit@) == cands);
        match self.pick_candidate(node) {
            Some(e) => {
                proof {
                    let k = choose|k: int|
                        0 <= k < cands.len() && cands[k] == e@ && self.is_open_edge(node, e@)
                            && forall|j: int| k < j < cands.len() ==> !self.is_open_edge(node, #[trigger] cands[j]);
                    assert(old(self).survives(node, cands[k]));
                    assert forall|j: int| k < j < cands.len() implies !old(self).survives(node, #[trigger] cands[j]) by {
                        assert(!self.is_open_edge(node, cands[j]));
                    }
                }
                Some(Choice::Explore(e))
            },
            None => {
                proof {
                    assert forall|k: int| 0 <= k < cands.len() implies !old(self).survives(node, #[trigger] cands[k]) by {
                        assert(!self.is_open_edge(node, cands[k]));
                    }
                }
                match self.get_next_edge_least_visited_fallback(node, max_times_visited) {
                    Some(e) => Some(Choice::Revisit(e)),
                    None => None,
                }
            },
        }
    }

    /// The explorer's next decision in room `node`: ask for the inventory
    /// when it changed, else the next edge, else the way back (`pick`
    /// choosing in the twisty maze).
    pub fn enqueue_commands(&mut self, node: usize, visits_limit: u16, pick: usize) -> (r: Result<
        Choice,
        SolverError,
    >)
        requires
            old(self).wf(),
            node < old(self).nodes@.len(),
        ensures
            final(self).wf(),
            final(self).nodes@.len() == old(self).nodes@.len(),
            final(self).head == old(self).head,
            final(self).steps_left == old(self).steps_left,
            final(self).inventory_global == old(self).inventory_global,
            final(self).commands_counter == old(self).commands_counter,
            final(self).nodes@[node as int].response == old(self).nodes@[node as int].response,
            forall|j: int|
                0 <= j < old(self).nodes@.len() && j != node ==> #[trigger] final(self).nodes@[j]
                    == old(self).nodes@[j],
            chooses(*old(self), *final(self), node, visits_limit, pick as int, r),
    {
        if self.inventory_needs_update {
            return Ok(Choice::Inventory);
        }
        match self.get_next_edge(node, visits_limit) {
            Some(c) => Ok(c),
            None => match self.get_command_back_to_previous(node, pick) {
                Some(b) => Ok(Choice::Back(b)),
                None => Err(SolverError::Blocked),
            },
        }
    }

    /// Decides the explorer's next command in the current room and queues
    /// its characters and a newline in `replay_buf`; one step is spent.
    pub fn search(&mut self, replay_buf: &mut Vec<char>) -> (r: Result<Choice, SolverError>)
        requires
            old(self).wf(),
        ensures
            final(self).wf(),
            old(self).head is None ==> r == Err::<Choice, SolverError>(SolverError::NoHead),
            old(self).head is Some && old(self).steps_left == 0 ==> r == Err::<Choice, SolverError>(
                SolverError::ExhaustedSteps,
            ),
            r matches Ok(c) ==> choice_text(c).len() > 0 && final(replay_buf)@ == old(replay_buf)@
                + choice_text(c) + seq!['\n'],
            r is Err ==> final(replay_buf)@ == old(replay_buf)@ && final(self).steps_left == old(
                self,
            ).steps_left,
            old(self).head is Some && old(self).steps_left > 0 && r is Err ==> r
                == Err::<Choice, SolverError>(SolverError::Blocked) && old(self).no_survivor(old(self).head->0)
                && (forall|j: int| !#[trigger] final(self).may_revisit(old(self).head->0, j, VISITS_LIMIT_PER_EDGE))
                && final(self).back_spec(old(self).head->0, 0) is None,
            old(self).head is Some && r is Ok ==> exists|p: int|
                chooses(*old(self), *final(self), old(self).head->0, VISITS_LIMIT_PER_EDGE, p, r),
            r is Ok ==> final(self).steps_left == old(self).steps_left - 1
                && final(self).last_command_num == old(self).commands_counter
                && final(self).commands_counter == old(self).commands_counter,
            match r {
                Ok(Choice::Explore(e)) => !old(self).dangerous_in(old(self).head->0, e@)
                    && final(replay_buf)@ == old(replay_buf)@ + e@ + seq!['\n'],
                Ok(Choice::Revisit(e)) => !old(self).dangerous_in(old(self).head->0, e@)
                    && final(replay_buf)@ == old(replay_buf)@ + e@ + seq!['\n'],
                Ok(Choice::Back(b)) => final(replay_buf)@ == old(replay_buf)@ + b@ + seq!['\n'],
                Ok(Choice::Inventory) => final(replay_buf)@ == old(replay_buf)@ + "inv"@ + seq!['\n'],
                Err(_) => true,
            },
    {
        let node = match self.head {
            Some(h) => h,
            None => {
                return Err(SolverError::NoHead);
            },
        };
        self.validate_steps_left()?;
        let exits = self.nodes[node].response.exits.len();
        let pick: usize = if exits > 0 {
            random_below(exits)
        } else {
            0
        };
        let decided = self.enqueue_commands(node, VISITS_LIMIT_PER_EDGE, pick);
        let ghost mid = *self;
        let choice = match decided {
            Ok(c) => c,
            Err(e) => {
                proof {
                    lemma_back_without_pick(*self, node, pick as int);
                }
                return Err(e);
            },
        };
        let text = match &choice {
            Choice::Inventory => to_chars("inv"),
            Choice::Explore(e) => to_chars(e.as_str()),
            Choice::Revisit(e) => to_chars(e.as_str()),
            Choice::Back(b) => to_chars(b.as_str()),
        };
        extend(replay_buf, &text);
        replay_buf.push('\n');
        self.last_command_num = self.commands_counter;
        self.steps_left = self.steps_left - 1;
        proof {
            assert(chooses(*old(self), mid, node, VISITS_LIMIT_PER_EDGE, pick as int, Ok::<Choice, SolverError>(choice)));
            assert(self.nodes == mid.nodes && self.inventory_global == mid.inventory_global
                && self.completed_nodes == mid.completed_nodes);
            lemma_choice_nonempty(*old(self), mid, node, VISITS_LIMIT_PER_EDGE, pick as int, choice);
            lemma_chooses_frame(*old(self), mid, *self, node, VISITS_LIMIT_PER_EDGE, pick as int, Ok::<Choice, SolverError>(choice));
        }
        Ok(choice)
    }

    /// Runs one round of the explorer when a response arrived since its last
    /// command; on failure the explorer stops, with no steps left, and the
    /// reason is returned.
    pub fn ramble(&mut self, replay_buf: &mut Vec<char>) -> (r: Option<SolverError>)
        requires
            old(self).wf(),
        ensures
            final(self).wf(),
            r is Some ==> final(self).steps_left == 0 && final(self).last_command_num
                == final(self).commands_counter,
            old(self).commands_counter == old(self).last_command_num ==> r is None && *final(self)
                == *old(self) && final(replay_buf)@ == old(replay_buf)@,
            old(self).commands_counter != old(self).last_command_num && r is None
                ==> final(self).steps_left == old(self).steps_left - 1
                && final(self).last_command_num == final(self).commands_counter
                && final(replay_buf)@.len() > old(replay_buf)@.len(),
            old(self).commands_counter != old(self).last_command_num && old(self).head is None ==> r
                == Some(SolverError::NoHead),
            old(self).commands_counter != old(self).last_command_num && old(self).head is Some && old(
                self,
            ).steps_left == 0 ==> r == Some(SolverError::ExhaustedSteps),
            old(self).commands_counter != old(self).last_command_num && old(self).head is Some && old(
                self,
            ).steps_left > 0 && r is Some ==> r == Some(SolverError::Blocked) && old(self).no_survivor(
                old(self).head->0,
            ) && (forall|j: int| !#[trigger] final(self).may_revisit(old(self).head->0, j, VISITS_LIMIT_PER_EDGE))
                && final(self).back_spec(old(self).head->0, 0) is None,
    {
        if !self.expect_output() {
            return None;
        }
        match self.search(replay_buf) {
            Ok(_) => None,
            Err(e) => {
                let ghost mid = *self;
                self.steps_left = 0;
                self.last_command_num = self.commands_counter;
                proof {
                    if old(self).head is Some && old(self).steps_left > 0 {
                        let h = old(self).head->0;
                        assert forall|j: int| !#[trigger] self.may_revisit(h, j, VISITS_LIMIT_PER_EDGE) by {
                            assert(!mid.may_revisit(h, j, VISITS_LIMIT_PER_EDGE));
                        }
                        assert(self.back_spec(h, 0) == mid.back_spec(h, 0));
                    }
                }
                Some(e)
            },
        }
    }

    /// The rooms from the current one back to the first, each with its
    /// description and the command that led from it towards the current room.
    pub fn get_path_back(&self) -> (r: Vec<PathStep>)
        requires
            self.wf(),
        ensures
            self.head is None ==> r@.len() == 0,
            self.head matches Some(h) ==> r@.map_values(|s: PathStep| s.0) == path_ids(self.nodes@, h),
            forall|k: int|
                0 <= k < r@.len() ==> (#[trigger] r@[k]).0 < self.nodes@.len() && r@[k].1@
                    == self.nodes@[r@[k].0 as int].response.message@,
    {
        let mut r: Vec<PathStep> = Vec::new();
        let h = match self.head {
            Some(h) => h,
            None => {
                return r;
            },
        };
        let mut cur: usize = h;
        let mut done = false;
        let mut cmd: Option<String> = None;
        while !done
            invariant
                self.wf(),
                cur < self.nodes@.len(),
                done ==> path_ids(self.nodes@, h) == r@.map_values(|s: PathStep| s.0),
                !done ==> path_ids(self.nodes@, h) == r@.map_values(|s: PathStep| s.0) + path_ids(
                    self.nodes@,
                    cur,
                ),
                forall|k: int|
                    0 <= k < r@.len() ==> (#[trigger] r@[k]).0 < self.nodes@.len() && r@[k].1@
                        == self.nodes@[r@[k].0 as int].response.message@,
            decreases (if done { 0int } else { 1int }) + cur,
        {
            let ghost before = r@;
            r.push((cur, self.nodes[cur].response.message.clone(), cmd));
            match self.nodes[cur].origin {
                Some(p) => {
                    cmd = find_link_edge(&self.nodes[p].response_2_edge, cur);
                    proof {
                        assert(r@.map_values(|s: PathStep| s.0) =~= before.map_values(|s: PathStep| s.0) + seq![cur]);
                        assert(path_ids(self.nodes@, cur) == seq![cur] + path_ids(self.nodes@, p));
                        assert(r@.map_values(|s: PathStep| s.0) + path_ids(self.nodes@, p) =~= before.map_values(|s: PathStep| s.0) + path_ids(self.nodes@, cur));
                    }
                    cur = p;
                },
                None => {
                    proof {
                        assert(r@.map_values(|s: PathStep| s.0) =~= before.map_values(|s: PathStep| s.0) + seq![cur]);
                        assert(path_ids(self.nodes@, cur) == seq![cur]);
                    }
                    cmd = None;
                    done = true;
                },
            }
        }
        r
    }

    /// The graph as plain values: each room, and each edge that last led
    /// from a room to a neighbour.
    pub fn export_dot_graph(&self) -> (r: GraphExport)
        requires
            self.wf(),
        ensures
            r.nodes@.len() == self.nodes@.len(),
            forall|i: int|
                0 <= i < r.nodes@.len() ==> (#[trigger] r.nodes@[i]).id == i && r.nodes@[i].title@
                    == self.nodes@[i].response.title@ && r.nodes@[i].message@
                    == self.nodes@[i].response.message@ && exported_room(r.nodes@[i], self.nodes@[i]),
            forall|k: int|
                0 <= k < r.edges@.len() ==> (#[trigger] r.edges@[k]).from < self.nodes@.len()
                    && link_edge(self.nodes@[r.edges@[k].from as int].response_2_edge@, r.edges@[k].to)
                    == Some(r.edges@[k].label@),
            forall|i: int, k: int|
                0 <= i < self.nodes@.len() && 0 <= k < self.nodes@[i].response_2_edge@.len()
                    && link_edge(self.nodes@[i].response_2_edge@, (#[trigger] self.nodes@[i].response_2_edge@[k]).node)
                    == Some(self.nodes@[i].response_2_edge@[k].edge@) ==> exists|q: int|
                    0 <= q < r.edges@.len() && (#[trigger] r.edges@[q]).from == i && r.edges@[q].to
                        == self.nodes@[i].response_2_edge@[k].node && r.edges@[q].label@
                        == self.nodes@[i].response_2_edge@[k].edge@,
    {
        let mut nodes: Vec<GraphNode> = Vec::new();
        let mut edges: Vec<GraphEdge> = Vec::new();
        let mut i: usize = 0;
        while i < self.nodes.len()
            invariant
                self.wf(),
                i <= self.nodes@.len(),
                nodes@.len() == i,
                forall|j: int|
                    0 <= j < i ==> (#[trigger] nodes@[j]).id == j && nodes@[j].title@
                        == self.nodes@[j].response.title@ && nodes@[j].message@
                        == self.nodes@[j].response.message@ && exported_room(nodes@[j], self.nodes@[j]),
                forall|k: int|
                    0 <= k < edges@.len() ==> (#[trigger] edges@[k]).from < self.nodes@.len()
                        && link_edge(self.nodes@[edges@[k].from as int].response_2_edge@, edges@[k].to)
                        == Some(edges@[k].label@),
                forall|a: int, k: int|
                    0 <= a < i && 0 <= k < self.nodes@[a].response_2_edge@.len()
                        && link_edge(self.nodes@[a].response_2_edge@, (#[trigger] self.nodes@[a].response_2_edge@[k]).node)
                        == Some(self.nodes@[a].response_2_edge@[k].edge@) ==> exists|q: int|
                        0 <= q < edges@.len() && (#[trigger] edges@[q]).from == a && edges@[q].to
                            == self.nodes@[a].response_2_edge@[k].node && edges@[q].label@
                            == self.nodes@[a].response_2_edge@[k].edge@,
            decreases self.nodes@.len() - i,
        {
            let n = &self.nodes[i];
            let tried = n.visited_edges.len();
            let untried = n.edges_to_visit.len();
            let edges_num = if tried > usize::MAX - untried {
                usize::MAX
            } else {
                tried + untried
            };
            nodes.push(
                GraphNode {
                    id: i,
                    title: n.response.title.clone(),
                    message: n.response.message.clone(),
                    steps: n.min_steps,
                    inventory: crate::output_parser::copy_strings(&n.response.inventory),
                    notes: n.auxiliary_commands.clone(),
                    visits: n.visits,
                    visited_edges: n.visited_edges.clone(),
                    edges_num,
                },
            );
            let mut k: usize = 0;
            while k < n.response_2_edge.len()
                invariant
                    i < self.nodes@.len(),
                    *n == self.nodes@[i as int],
                    k <= n.response_2_edge@.len(),
                    forall|q: int|
                        0 <= q < edges@.len() ==> (#[trigger] edges@[q]).from < self.nodes@.len()
                            && link_edge(self.nodes@[edges@[q].from as int].response_2_edge@, edges@[q].to)
                            == Some(edges@[q].label@),
                    forall|a: int, b: int|
                        ((0 <= a < i && 0 <= b < self.nodes@[a].response_2_edge@.len()) || (a == i && 0 <= b < k))
                            && link_edge(self.nodes@[a].response_2_edge@, (#[trigger] self.nodes@[a].response_2_edge@[b]).node)
                            == Some(self.nodes@[a].response_2_edge@[b].edge@) ==> exists|q: int|
                            0 <= q < edges@.len() && (#[trigger] edges@[q]).from == a && edges@[q].to
                                == self.nodes@[a].response_2_edge@[b].node && edges@[q].label@
                                == self.nodes@[a].response_2_edge@[b].edge@,
                decreases n.response_2_edge@.len() - k,
            {
                let to = n.response_2_edge[k].node;
                let ghost before = edges@;
                match find_link_edge(&n.response_2_edge, to) {
                    Some(label) => {
                        if label == n.response_2_edge[k].edge {
                            edges.push(GraphEdge { from: i, to, label });
                            assert(edges@[before.len() as int].from == i);
                        }
                    },
                    None => {},
                }
                proof {
                    assert(forall|q: int| 0 <= q < before.len() ==> edges@[q] == before[q]);
                    assert forall|a: int, b: int|
                        ((0 <= a < i && 0 <= b < self.nodes@[a].response_2_edge@.len()) || (a == i && 0 <= b < k + 1))
                            && link_edge(self.nodes@[a].response_2_edge@, (#[trigger] self.nodes@[a].response_2_edge@[b]).node)
                            == Some(self.nodes@[a].response_2_edge@[b].edge@) implies exists|q: int|
                            0 <= q < edges@.len() && (#[trigger] edges@[q]).from == a && edges@[q].to
                                == self.nodes@[a].response_2_edge@[b].node && edges@[q].label@
                                == self.nodes@[a].response_2_edge@[b].edge@ by {
                        if a == i && b == k {
                            assert(edges@[before.len() as int].from == a);
                        } else {
                            let q = choose|q: int|
                                0 <= q < before.len() && (#[trigger] before[q]).from == a && before[q].to
                                    == self.nodes@[a].response_2_edge@[b].node && before[q].label@
                                    == self.nodes@[a].response_2_edge@[b].edge@;
                            assert(edges@[q] == before[q]);
                        }
                    }
                }
                k = k + 1;
            }
            i = i + 1;
        }
        GraphExport { nodes, edges }
    }

    /// A short account of the explorer's state: a banner, then the current
    /// room's title and description, indented by `indent`.
    pub fn get_maze_analyzer_state(&self, indent: usize) -> (r: String)
        requires
            self.wf(),
            indent <= 44,
        ensures
            r@ == "Maze Analyzer:\n"@ + Seq::new(indent as nat, |i: int| ' ') + Seq::new(
                (44 - indent) as nat,
                |i: int| '#',
            ) + "\n"@ + match self.head {
                Some(h) => Seq::new(indent as nat, |i: int| ' ') + self.nodes@[h as int].response.title@
                    + "\n"@ + Seq::new(indent as nat, |i: int| ' ')
                    + self.nodes@[h as int].response.message@ + "\n"@,
                None => "EMPTY\n"@,
            } + Seq::new(44, |i: int| '#') + "\n"@,
    {
        let pad = repeated(' ', indent);
        let mut v = to_chars("Maze Analyzer:\n");
        extend(&mut v, &pad);
        extend(&mut v, &repeated('#', 44 - indent));
        extend(&mut v, &to_chars("\n"));
        match self.head {
            Some(h) => {
                extend(&mut v, &pad);
                extend(&mut v, &to_chars(self.nodes[h].response.title.as_str()));
                extend(&mut v, &to_chars("\n"));
                extend(&mut v, &pad);
                extend(&mut v, &to_chars(self.nodes[h].response.message.as_str()));
                extend(&mut v, &to_chars("\n"));
            },
            None => {
                extend(&mut v, &to_chars("EMPTY\n"));
            },
        }
        extend(&mut v, &repeated('#', 44));
        extend(&mut v, &to_chars("\n"));
        chars_to_string(&v)
    }
}

/// Two rooms of the graph with the same title, description and exits are
/// one and the same room.
pub proof fn lemma_room_identity(m: &MazeAnalyzer, i: int, j: int)
    requires
        m.wf(),
        0 <= i < m.nodes@.len(),
        0 <= j < m.nodes@.len(),
        room_key(m.nodes@[i].response) == room_key(m.nodes@[j].response),
    ensures
        i == j,
{
}

/// `n` copies of `c`.
fn repeated(c: char, n: usize) -> (r: Vec<char>)
    ensures
        r@ == Seq::new(n as nat, |i: int| c),
{
    let mut r: Vec<char> = Vec::new();
    let mut i: usize = 0;
    while i < n
        invariant
            i <= n,
            r@ == Seq::new(i as nat, |k: int| c),
        decreases n - i,
    {
        r.push(c);
        i = i + 1;
        assert(r@ =~= Seq::new(i as nat, |k: int| c));
    }
    r
}

/// The names of a list of entries.
fn inventory_name_list(v: &Vec<InventoryEntry>) -> (r: Vec<String>)
    ensures
        strings_view(r@) == inventory_names(v@),
{
    let mut r: Vec<String> = Vec::new();
    let mut i: usize = 0;
    while i < v.len()
        invariant
            i <= v@.len(),
            r@.len() == i,
            forall|j: int| 0 <= j < i ==> #[trigger] r@[j]@ == v@[j].name@,
        decreases v@.len() - i,
    {
        r.push(v[i].name.clone());
        i = i + 1;
    }
    assert(strings_view(r@) =~= inventory_names(v@));
    r
}

/// With unique names, the entry found for a name is the one that holds it.
proof fn lemma_unique_entry(inv: Seq<InventoryEntry>, k: int)
    requires
        0 <= k < inv.len(),
        forall|a: int, b: int|
            0 <= a < inv.len() && 0 <= b < inv.len() && a != b ==> (#[trigger] inv[a]).name@
                != (#[trigger] inv[b]).name@,
    ensures
        inventory_entry(inv, inv[k].name@) == Some(inv[k]),
    decreases k,
{
    if k > 0 {
        let t = inv.drop_first();
        assert(inv[0].name@ != inv[k].name@);
        assert forall|a: int, b: int|
            0 <= a < t.len() && 0 <= b < t.len() && a != b implies (#[trigger] t[a]).name@
                != (#[trigger] t[b]).name@ by {
            assert(t[a] == inv[a + 1] && t[b] == inv[b + 1]);
        }
        lemma_unique_entry(t, k - 1);
    }
}

/// When no entry is found for a name, no entry holds it.
proof fn lemma_entry_none(inv: Seq<InventoryEntry>, name: Seq<char>)
    requires
        inventory_entry(inv, name) is None,
    ensures
        forall|a: int| 0 <= a < inv.len() ==> (#[trigger] inv[a]).name@ != name,
    decreases inv.len(),
{
    if inv.len() > 0 {
        let t = inv.drop_first();
        lemma_entry_none(t, name);
        assert forall|a: int| 0 <= a < inv.len() implies (#[trigger] inv[a]).name@ != name by {
            if a > 0 {
                assert(inv[a] == t[a - 1]);
            }
        }
    }
}

/// No entry is found for a name that no entry holds.
proof fn lemma_absent_entry(inv: Seq<InventoryEntry>, name: Seq<char>)
    requires
        forall|a: int| 0 <= a < inv.len() ==> (#[trigger] inv[a]).name@ != name,
    ensures
        inventory_entry(inv, name) is None,
    decreases inv.len(),
{
    if inv.len() > 0 {
        let t = inv.drop_first();
        assert forall|a: int| 0 <= a < t.len() implies (#[trigger] t[a]).name@ != name by {
            assert(t[a] == inv[a + 1]);
        }
        lemma_absent_entry(t, name);
    }
}

proof fn lemma_paired_nonempty(items: Seq<Seq<char>>, a: Seq<char>, b: Seq<char>)
    requires
        a.len() > 0,
        b.len() > 0,
    ensures
        forall|k: int| 0 <= k < paired(items, a, b).len() ==> (#[trigger] paired(items, a, b)[k]).len() > 0,
    decreases items.len(),
{
    if items.len() > 0 {
        lemma_paired_nonempty(items.drop_last(), a, b);
        let p = paired(items.drop_last(), a, b);
        assert forall|k: int| 0 <= k < paired(items, a, b).len() implies (#[trigger] paired(items, a, b)[k]).len() > 0 by {
            if k < p.len() {
                assert(paired(items, a, b)[k] == p[k]);
            }
        }
    }
}

/// Every candidate command of a room is non-empty.
proof fn lemma_room_commands_nonempty(r: ResponseParts)
    ensures
        forall|k: int| 0 <= k < room_commands(r).len() ==> (#[trigger] room_commands(r)[k]).len() > 0,
{
    reveal_strlit("look ");
    reveal_strlit("take ");
    reveal_strlit("use ");
    reveal_strlit("go ");
    let t1 = paired(strings_view(r.things_of_interest@), "look "@, "take "@);
    let t2 = paired(strings_view(r.inventory@), "use "@, "look "@);
    let t3 = prefixed(strings_view(r.exits@), "go "@);
    lemma_paired_nonempty(strings_view(r.things_of_interest@), "look "@, "take "@);
    lemma_paired_nonempty(strings_view(r.inventory@), "use "@, "look "@);
    let t = textual_commands(r);
    assert(t == t1 + t2 + t3);
    assert forall|k: int| 0 <= k < t.len() implies (#[trigger] t[k]).len() > 0 by {
        if k < t1.len() {
            assert(t[k] == t1[k]);
        } else if k < t1.len() + t2.len() {
            assert(t[k] == t2[k - t1.len()]);
        } else {
            assert(t[k] == t3[k - t1.len() - t2.len()]);
        }
    }
    assert forall|k: int| 0 <= k < room_commands(r).len() implies (#[trigger] room_commands(r)[k]).len() > 0 by {
        assert(room_commands(r)[k] == t[t.len() - 1 - k]);
    }
}

/// Appending a count leaves the counts found before, and adds one for a new edge.
proof fn lemma_edge_count_push(v: Seq<EdgeCount>, x: EdgeCount, e: Seq<char>)
    ensures
        edge_count(v.push(x), e) == if edge_count(v, e) is Some {
            edge_count(v, e)
        } else if x.edge@ == e {
            Some(x.count)
        } else {
            None::<u16>
        },
    decreases v.len(),
{
    if v.len() == 0 {
        assert(v.push(x)[0] == x);
        assert(v.push(x).drop_first() =~= Seq::<EdgeCount>::empty());
        assert(edge_count(Seq::<EdgeCount>::empty(), e) is None);
        assert(edge_count(v, e) is None);
    } else {
        assert(v.push(x)[0] == v[0]);
        assert(v.push(x).drop_first() =~= v.drop_first().push(x));
        lemma_edge_count_push(v.drop_first(), x, e);
        if v[0].edge@ != e {
            assert(edge_count(v, e) == edge_count(v.drop_first(), e));
            assert(edge_count(v.push(x), e) == edge_count(v.drop_first().push(x), e));
        }
    }
}

/// The decision depends on the rooms, the items held and the completed rooms
/// alone.
proof fn lemma_chooses_frame(
    old: MazeAnalyzer,
    a: MazeAnalyzer,
    b: MazeAnalyzer,
    node: usize,
    cap: u16,
    pick: int,
    r: Result<Choice, SolverError>,
)
    requires
        a.nodes == b.nodes,
        a.inventory_global == b.inventory_global,
        a.completed_nodes == b.completed_nodes,
        chooses(old, a, node, cap, pick, r),
    ensures
        chooses(old, b, node, cap, pick, r),
{
    assert forall|j: int|
        #![trigger a.may_revisit(node, j, cap)]
        #![trigger b.may_revisit(node, j, cap)]
        a.may_revisit(node, j, cap) == b.may_revisit(node, j, cap) by {}
    assert forall|e: Seq<char>|
        #![trigger a.dangerous_in(node, e)]
        #![trigger b.dangerous_in(node, e)]
        a.dangerous_in(node, e) == b.dangerous_in(node, e) by {}
    assert(a.back_spec(node, pick) == b.back_spec(node, pick));
    if !old.inventory_needs_update {
        match r {
            Ok(Choice::Revisit(e)) => {
                let k = choose|k: int|
                    #[trigger] a.may_revisit(node, k, cap) && a.nodes@[node as int].visited_edges@[k].edge@ == e@
                        && forall|j: int| #[trigger] a.may_revisit(node, j, cap) ==> a.nodes@[node as int].visited_edges@[k].count
                            <= a.nodes@[node as int].visited_edges@[j].count;
                assert(b.may_revisit(node, k, cap));
                assert(!b.dangerous_in(node, e@));
            },
            Ok(Choice::Back(x)) => {
                assert(forall|j: int| !#[trigger] b.may_revisit(node, j, cap));
            },
            Err(x) => {
                assert(forall|j: int| !#[trigger] b.may_revisit(node, j, cap));
            },
            _ => {},
        }
    }
}

/// The command that a choice queues.
pub open spec fn choice_text(c: Choice) -> Seq<char> {
    match c {
        Choice::Inventory => "inv"@,
        Choice::Explore(e) => e@,
        Choice::Revisit(e) => e@,
        Choice::Back(b) => b@,
    }
}

/// The explorer never decides on an empty command.
proof fn lemma_choice_nonempty(
    old: MazeAnalyzer,
    new: MazeAnalyzer,
    node: usize,
    cap: u16,
    pick: int,
    c: Choice,
)
    requires
        old.wf(),
        node < old.nodes@.len(),
        chooses(old, new, node, cap, pick, Ok::<Choice, SolverError>(c)),
    ensures
        choice_text(c).len() > 0,
{
    reveal_strlit("inv");
    reveal_strlit("go south");
    reveal_strlit("go north");
    reveal_strlit("go east");
    reveal_strlit("go west");
    reveal_strlit("go back");
    reveal_strlit("go ");
    match c {
        Choice::Explore(e) => {
            let cands = strings_view(old.nodes@[node as int].edges_to_visit@);
            let k = choose|k: int|
                0 <= k < cands.len() && cands[k] == e@ && old.survives(node, e@) && forall|j: int|
                    k < j < cands.len() ==> !old.survives(node, #[trigger] cands[j]);
            assert(cands[k] == old.nodes@[node as int].edges_to_visit@[k]@);
        },
        Choice::Revisit(e) => {
            let v = new.nodes@[node as int].visited_edges@;
            let k = choose|k: int|
                #[trigger] new.may_revisit(node, k, cap) && v[k].edge@ == e@ && forall|j: int|
                    #[trigger] new.may_revisit(node, j, cap) ==> v[k].count <= v[j].count;
            crate::round_trip::lemma_trim_lengths(e@);
            crate::round_trip::lemma_trim_lengths(crate::text::trim_start(e@));
        },
        Choice::Back(b) => {
            let n = new.nodes@[node as int];
            let p = n.origin->0;
            let cause = link_edge(new.nodes@[p as int].response_2_edge@, node)->0;
            let moves = prefixed(strings_view(n.response.exits@), "go "@);
            if !(opposite_edge(cause) is Some && moves.contains(opposite_edge(cause)->0))
                && !moves.contains("go back"@) {
                assert(moves[pick] == "go "@ + strings_view(n.response.exits@)[pick]);
            }
        },
        Choice::Inventory => {},
    }
}

/// When no exit of the twisty maze leads back, neither does the first.
proof fn lemma_back_without_pick(m: MazeAnalyzer, node: usize, pick: int)
    requires
        node < m.nodes@.len(),
        m.back_spec(node, pick) is None,
        0 <= pick,
        pick < m.nodes@[node as int].response.exits@.len() || pick == 0,
    ensures
        m.back_spec(node, 0) is None,
{
}

/// Where the first entry for `edge` is found in a list of counts.
proof fn lemma_edge_count_found(v: Seq<EdgeCount>, k: int, edge: Seq<char>)
    requires
        0 <= k < v.len(),
        v[k].edge@ == edge,
    ensures
        edge_count(v, edge) is Some,
    decreases k,
{
    if k > 0 && v[0].edge@ != edge {
        lemma_edge_count_found(v.drop_first(), k - 1, edge);
    }
}

} // verus!
