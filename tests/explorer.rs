use synacor_vm::command::CommandType;
use synacor_vm::maze_analyzer::{Choice, InventoryEntry, MazeAnalyzer, SolverError};
use synacor_vm::output_parser::{OutputParser, ResponseParts};

const FOOTHILLS: &str = "== Foothills ==\nYou stand at the base of a mountain.\n\nThings of interest here:\n- tablet\n\nThere are 2 exits:\n- doorway\n- south\n\nWhat do you do?\n";
const CAVE: &str = "== Dark cave ==\nThe mouth of a deep cave.\n\nThere are 2 exits:\n- north\n- south\n\nWhat do you do?\n";
const TAKEN: &str = "\n\nTaken.\n\nWhat do you do?\n";
const DARK: &str = "== Passage ==\nThe west passage appears very dark; you are likely to be eaten by a grue.\n\nThere are 3 exits:\n- west\n- east\n- continue\n\nWhat do you do?\n";
const TWISTY: &str = "== Twisty passages ==\nYou are in a twisty maze of little passages, all alike.\n\nThere are 3 exits:\n- north\n- south\n- west\n\nWhat do you do?\n";

fn feed(m: &mut MazeAnalyzer, text: &str) {
    for c in text.chars() {
        m.push(c);
    }
}

fn parsed(text: &str) -> ResponseParts {
    OutputParser::new(text).parse().unwrap()
}

#[test]
fn command_classification() {
    assert!(matches!(CommandType::command_type("look"), CommandType::Look));
    assert!(matches!(CommandType::command_type("help"), CommandType::Help));
    assert!(matches!(CommandType::command_type("inv"), CommandType::Inventory));
    match CommandType::command_type("take tablet") {
        CommandType::InventoryTake(s) => assert_eq!(s, "tablet"),
        other => panic!("{:?}", other),
    }
    match CommandType::command_type("look tablet") {
        CommandType::InventoryLook(s) => assert_eq!(s, "tablet"),
        other => panic!("{:?}", other),
    }
    match CommandType::command_type("use tablet") {
        CommandType::InventoryUse(s) => assert_eq!(s, "tablet"),
        other => panic!("{:?}", other),
    }
    match CommandType::command_type("drop tablet") {
        CommandType::InventoryDrop(s) => assert_eq!(s, "tablet"),
        other => panic!("{:?}", other),
    }
    assert!(matches!(CommandType::command_type("/solve 5"), CommandType::Slash(_)));
    assert!(matches!(CommandType::command_type("   "), CommandType::Empty));
    match CommandType::command_type("go north") {
        CommandType::Move(s) => assert_eq!(s, "go north"),
        other => panic!("{:?}", other),
    }
    assert_eq!(CommandType::command_type("take lamp").to_command_string(), "take lamp");
    assert_eq!(CommandType::Empty.to_command_string(), "[EMPTY (user pressed just enter)]");
}

#[test]
fn candidate_commands_are_stored_reversed() {
    let mut r = parsed(FOOTHILLS);
    r.inventory = vec!["lamp".to_string()];
    assert_eq!(
        MazeAnalyzer::get_commands_from_response(&r),
        vec!["go south", "go doorway", "look lamp", "use lamp", "take tablet", "look tablet"]
    );
}

#[test]
fn explorer_takes_candidates_in_textual_order() {
    let mut m = MazeAnalyzer::new();
    feed(&mut m, FOOTHILLS);
    m.dispatch_response(None).unwrap();
    m.solve(1);
    let mut queue: Vec<char> = Vec::new();
    match m.search(&mut queue).unwrap() {
        Choice::Explore(e) => assert_eq!(e, "look tablet"),
        other => panic!("{:?}", other),
    }
}

#[test]
fn way_back_reverses_compass_moves_only() {
    const UPSTAIRS: &str = "== Attic ==\nA dusty attic.\n\nThere are 2 exits:\n- up\n- back\n\nWhat do you do?\n";
    const NORTH_ROOM: &str = "== Hall ==\nA long hall.\n\nThere are 2 exits:\n- south\n- back\n\nWhat do you do?\n";
    let mut m = MazeAnalyzer::new();
    feed(&mut m, FOOTHILLS);
    m.dispatch_response(None).unwrap();
    feed(&mut m, UPSTAIRS);
    m.dispatch_response(Some(CommandType::command_type("go up"))).unwrap();
    assert_eq!(m.get_command_back_to_previous(1, 0), Some("go back".to_string()));
    let mut m = MazeAnalyzer::new();
    feed(&mut m, FOOTHILLS);
    m.dispatch_response(None).unwrap();
    feed(&mut m, NORTH_ROOM);
    m.dispatch_response(Some(CommandType::command_type("go north"))).unwrap();
    assert_eq!(m.get_command_back_to_previous(1, 0), Some("go south".to_string()));
}

#[test]
fn revisited_room_counts_visits() {
    let mut m = MazeAnalyzer::new();
    assert_eq!(m.solution(), None);
    feed(&mut m, FOOTHILLS);
    m.dispatch_response(None).unwrap();
    feed(&mut m, CAVE);
    m.dispatch_response(Some(CommandType::command_type("go doorway"))).unwrap();
    feed(&mut m, FOOTHILLS);
    m.dispatch_response(Some(CommandType::command_type("go south"))).unwrap();
    assert_eq!(m.nodes[0].visits, 2);
    assert_eq!(m.nodes[0].min_steps, 0);
    assert_eq!(m.nodes[1].min_steps, 1);
}

#[test]
fn lantern_and_way_back_get_penalties() {
    const LAMP_ROOM: &str = "== Store ==\nA small store.\n\nThere is 1 exit:\n- south\n\nWhat do you do?\n";
    let mut m = MazeAnalyzer::new();
    feed(&mut m, FOOTHILLS);
    m.dispatch_response(None).unwrap();
    feed(&mut m, LAMP_ROOM);
    m.dispatch_response(Some(CommandType::command_type("go north"))).unwrap();
    m.nodes[1].edges_to_visit.insert(0, "use lit lantern".to_string());
    let choice = m.get_next_edge(1, 25);
    assert!(choice.is_none(), "{:?}", choice);
    let counts: Vec<(String, u16)> =
        m.nodes[1].visited_edges.iter().map(|e| (e.edge.clone(), e.count)).collect();
    assert!(counts.contains(&("go south".to_string(), 2)));
    assert!(counts.contains(&("use lit lantern".to_string(), 32767)));
}

#[test]
fn first_response_creates_the_first_room() {
    let mut m = MazeAnalyzer::new();
    feed(&mut m, FOOTHILLS);
    m.dispatch_response(None).unwrap();
    assert_eq!(m.nodes.len(), 1);
    assert_eq!(m.head, Some(0));
    assert_eq!(m.nodes[0].visits, 1);
    assert!(m.response_buffer.is_empty());
    let path = m.get_path_back();
    assert_eq!(path.len(), 1);
    assert_eq!(path[0].0, 0);
}

#[test]
fn room_seen_twice_is_one_node() {
    let mut m = MazeAnalyzer::new();
    feed(&mut m, FOOTHILLS);
    m.dispatch_response(None).unwrap();
    feed(&mut m, CAVE);
    m.dispatch_response(Some(CommandType::command_type("go doorway"))).unwrap();
    assert_eq!(m.nodes.len(), 2);
    assert_eq!(m.nodes[1].min_steps, 1);
    feed(&mut m, FOOTHILLS);
    m.dispatch_response(Some(CommandType::command_type("go south"))).unwrap();
    assert_eq!(m.nodes.len(), 2);
    assert_eq!(m.head, Some(0));
    assert_eq!(m.nodes[0].visits, 2);
    assert_eq!(m.nodes[0].response.title, "Foothills");
    let path = m.get_path_back();
    assert_eq!(path.len(), 1);
    let graph = m.export_dot_graph();
    assert_eq!(graph.nodes.len(), 2);
    assert_eq!(graph.edges.len(), 2);
}

#[test]
fn path_back_follows_origins() {
    let mut m = MazeAnalyzer::new();
    feed(&mut m, FOOTHILLS);
    m.dispatch_response(None).unwrap();
    feed(&mut m, CAVE);
    m.dispatch_response(Some(CommandType::command_type("go doorway"))).unwrap();
    let path = m.get_path_back();
    assert_eq!(path.len(), 2);
    assert_eq!(path[0].0, 1);
    assert_eq!(path[0].2, None);
    assert_eq!(path[1].0, 0);
    assert_eq!(path[1].2, Some("go doorway".to_string()));
    assert_eq!(m.get_command_back_to_previous(1, 0), None);
}

#[test]
fn taking_an_item_updates_inventory() {
    let mut m = MazeAnalyzer::new();
    feed(&mut m, FOOTHILLS);
    m.dispatch_response(None).unwrap();
    feed(&mut m, TAKEN);
    m.dispatch_response(Some(CommandType::command_type("take tablet"))).unwrap();
    assert_eq!(m.global_inventory_hash(), vec!["tablet".to_string()]);
    assert!(m.inventory_needs_update);
    assert!(m.nodes[0].response.things_of_interest.is_empty());
    assert_eq!(m.nodes[0].auxiliary_commands[0].command, "take tablet");
    assert_eq!(m.nodes[0].auxiliary_commands[0].output, "Taken.");
}

#[test]
fn misunderstood_response_keeps_the_room() {
    let mut m = MazeAnalyzer::new();
    feed(&mut m, FOOTHILLS);
    m.dispatch_response(None).unwrap();
    feed(&mut m, "I don't understand; try 'help' for instructions.\n\nWhat do you do?\n");
    m.dispatch_response(Some(CommandType::command_type("go up"))).unwrap();
    assert_eq!(m.nodes.len(), 1);
    assert_eq!(m.head, Some(0));
}

#[test]
fn slash_commands_are_no_edges() {
    let mut m = MazeAnalyzer::new();
    feed(&mut m, FOOTHILLS);
    assert_eq!(
        m.dispatch_response(Some(CommandType::command_type("/help"))),
        Err(SolverError::SlashCommand)
    );
}

#[test]
fn dark_direction_is_read_from_the_message() {
    let msg = "The west passage appears very dark; you are likely to be eaten by a grue.".to_string();
    assert_eq!(MazeAnalyzer::analyse_dangerous_direction(&msg), Some("west".to_string()));
    let other = "The passage to the east looks very dark.".to_string();
    assert_eq!(MazeAnalyzer::analyse_dangerous_direction(&other), Some("east".to_string()));
    assert_eq!(MazeAnalyzer::analyse_dangerous_direction(&"A bright hall.".to_string()), None);
}

#[test]
fn danger_heuristic() {
    let msg = "The west passage appears very dark; you are likely to be eaten by a grue.".to_string();
    assert!(MazeAnalyzer::is_a_dangerous_edge(&msg, &"go west".to_string(), false));
    assert!(!MazeAnalyzer::is_a_dangerous_edge(&msg, &"go west".to_string(), true));
    assert!(!MazeAnalyzer::is_a_dangerous_edge(&msg, &"go east".to_string(), false));
    assert!(MazeAnalyzer::is_a_dangerous_edge(&"x".to_string(), &"go continue".to_string(), false));
    let lost = "You become hopelessly lost and are fumbling around.".to_string();
    assert!(MazeAnalyzer::is_a_dangerous_edge(&lost, &"go forward".to_string(), false));
}

#[test]
fn solver_skips_dangerous_edges() {
    let mut m = MazeAnalyzer::new();
    feed(&mut m, DARK);
    m.dispatch_response(None).unwrap();
    m.solve(3);
    let mut queue: Vec<char> = Vec::new();
    let choice = m.search(&mut queue).unwrap();
    match choice {
        Choice::Explore(e) => assert_eq!(e, "go east"),
        other => panic!("{:?}", other),
    }
    assert_eq!(queue.iter().collect::<String>(), "go east\n");
    assert_eq!(m.steps_left, 2);
}

#[test]
fn solver_asks_for_inventory_after_a_take() {
    let mut m = MazeAnalyzer::new();
    feed(&mut m, FOOTHILLS);
    m.dispatch_response(None).unwrap();
    feed(&mut m, TAKEN);
    m.dispatch_response(Some(CommandType::command_type("take tablet"))).unwrap();
    m.solve(1);
    let mut queue: Vec<char> = Vec::new();
    assert!(matches!(m.search(&mut queue), Ok(Choice::Inventory)));
    assert_eq!(queue.iter().collect::<String>(), "inv\n");
    assert_eq!(m.search(&mut queue).unwrap_err(), SolverError::ExhaustedSteps);
}

#[test]
fn solver_needs_a_room() {
    let mut m = MazeAnalyzer::new();
    m.solve(1);
    let mut queue: Vec<char> = Vec::new();
    assert_eq!(m.search(&mut queue).unwrap_err(), SolverError::NoHead);
    assert!(queue.is_empty());
}

#[test]
fn solve_accumulates_steps() {
    let mut m = MazeAnalyzer::new();
    assert!(!m.is_rambling());
    m.solve(10);
    m.solve(5);
    assert_eq!(m.steps_left, 15);
    assert!(m.is_rambling());
    m.solve(u16::MAX);
    assert_eq!(m.steps_left, u16::MAX);
}

#[test]
fn looked_and_used_items() {
    let inv = vec![InventoryEntry { name: "lamp".to_string(), uses: 1, looks: 0 }];
    assert!(MazeAnalyzer::is_looked_or_used_inventory(&inv, &"use lamp".to_string()));
    assert!(!MazeAnalyzer::is_looked_or_used_inventory(&inv, &"look lamp".to_string()));
    assert!(!MazeAnalyzer::is_looked_or_used_inventory(&inv, &"go north".to_string()));
}

#[test]
fn twisty_maze_goes_back_through_some_exit() {
    let mut m = MazeAnalyzer::new();
    feed(&mut m, FOOTHILLS);
    m.dispatch_response(None).unwrap();
    feed(&mut m, TWISTY);
    m.dispatch_response(Some(CommandType::command_type("go doorway"))).unwrap();
    let back = m.get_command_back_to_previous(1, 2);
    assert_eq!(back, Some("go west".to_string()));
    assert_eq!(m.get_command_back_to_previous(1, 7), None);
}

#[test]
fn state_report() {
    let mut m = MazeAnalyzer::new();
    assert!(m.get_maze_analyzer_state(1).contains("EMPTY"));
    feed(&mut m, CAVE);
    m.dispatch_response(None).unwrap();
    let s = m.get_maze_analyzer_state(1);
    assert!(s.starts_with("Maze Analyzer:\n #"));
    assert!(s.contains(" Dark cave\n"));
}

#[test]
fn solver_leaves_the_twisty_maze_through_a_random_exit() {
    let mut m = MazeAnalyzer::new();
    feed(&mut m, FOOTHILLS);
    m.dispatch_response(None).unwrap();
    feed(&mut m, TWISTY);
    m.dispatch_response(Some(CommandType::command_type("go doorway"))).unwrap();
    m.nodes[1].edges_to_visit.clear();
    m.solve(5);
    for _ in 0..5 {
        let mut queue: Vec<char> = Vec::new();
        match m.search(&mut queue) {
            Ok(Choice::Back(b)) => {
                assert!(["go north", "go south", "go west"].contains(&b.as_str()));
                assert_eq!(queue.iter().collect::<String>(), format!("{}\n", b));
            }
            other => panic!("{:?}", other),
        }
    }
}
