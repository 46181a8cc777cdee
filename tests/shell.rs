use synacor_vm::command::CommandType;
use synacor_vm::config::Configuration;
use synacor_vm::shell::{char_to_byte, Commander, InputSource, MetaAction, Shell, ShellError};

fn type_line(shell: &mut Shell, line: &str) -> Vec<bool> {
    let mut delivered = Vec::new();
    for c in line.chars() {
        delivered.push(shell.grab_input(c).deliver);
    }
    delivered
}

#[test]
fn replay_queue_holds_each_line_and_a_newline() {
    let shell = Shell::new(Some(vec!["go north".to_string(), "take lamp".to_string()]));
    let queued: String = shell.replay_buffer.iter().collect();
    assert_eq!(queued, "go north\ntake lamp\n");
    let none = Shell::new(None);
    assert!(none.replay_buffer.is_empty());
    let empty = Shell::new(Some(vec![]));
    assert_eq!(empty.replay_buffer, vec!['\n']);
}

#[test]
fn replay_comes_before_the_terminal() {
    let mut shell = Shell::new(Some(vec!["n".to_string()]));
    assert_eq!(shell.next_input(), InputSource::Replay('n'));
    assert_eq!(shell.next_input(), InputSource::Replay('\n'));
    assert_eq!(shell.next_input(), InputSource::Terminal);
}

#[test]
fn ordinary_lines_reach_the_guest_and_history() {
    let mut shell = Shell::new(None);
    let delivered = type_line(&mut shell, "go north");
    assert!(delivered.iter().all(|d| *d));
    let end = shell.grab_input('\n');
    assert!(end.deliver);
    assert!(end.action.is_none());
    assert_eq!(shell.commands_history, vec!["go north".to_string()]);
    assert!(shell.current_command_buf.is_empty());
}

#[test]
fn meta_commands_are_withheld() {
    let mut shell = Shell::new(None);
    let delivered = type_line(&mut shell, "/help");
    assert!(delivered.iter().all(|d| !*d));
    let end = shell.grab_input('\n');
    assert!(!end.deliver);
    assert_eq!(end.action, Some(MetaAction::Help));
    assert!(shell.commands_history.is_empty());
    assert!(!shell.spin_slash_command);
}

#[test]
fn empty_line_is_not_delivered() {
    let mut shell = Shell::new(None);
    let end = shell.grab_input('\n');
    assert!(!end.deliver);
    assert!(shell.commands_history.is_empty());
}

#[test]
fn unprintable_characters_are_dropped() {
    let mut shell = Shell::new(None);
    let out = shell.grab_input('\u{7}');
    assert!(!out.deliver);
    assert!(shell.current_command_buf.is_empty());
}

#[test]
fn solve_grants_steps() {
    let mut shell = Shell::new(None);
    assert_eq!(
        shell.process_slash_command(CommandType::command_type("/solve")).unwrap(),
        MetaAction::Solve(100)
    );
    assert_eq!(shell.maze_analyzer.steps_left, 100);
    assert_eq!(
        shell.process_slash_command(CommandType::command_type("/solve 7")).unwrap(),
        MetaAction::Solve(7)
    );
    assert_eq!(shell.maze_analyzer.steps_left, 107);
    assert!(matches!(
        shell.process_slash_command(CommandType::command_type("/solve many")),
        Err(ShellError::InvalidSteps(_))
    ));
    assert!(matches!(
        shell.process_slash_command(CommandType::command_type("/solve 70000")),
        Err(ShellError::InvalidSteps(_))
    ));
}

#[test]
fn meta_commands_ignore_case() {
    let mut shell = Shell::new(None);
    assert_eq!(
        shell.process_slash_command(CommandType::command_type("/HELP")).unwrap(),
        MetaAction::Help
    );
    assert_eq!(
        shell.process_slash_command(CommandType::command_type("/Dump_Dot")).unwrap(),
        MetaAction::DumpDot
    );
    assert!(matches!(
        shell.process_slash_command(CommandType::command_type("/nothing")),
        Err(ShellError::UnsupportedSlashCommand(_))
    ));
    assert!(matches!(
        shell.process_slash_command(CommandType::command_type("go north")),
        Err(ShellError::NotASlashCommand)
    ));
}

#[test]
fn recording_starts_once() {
    let mut shell = Shell::new(None);
    assert!(!shell.is_recording_active());
    assert_eq!(
        shell.process_slash_command(CommandType::command_type("/record_output")).unwrap(),
        MetaAction::RecordOutput
    );
    assert!(shell.is_recording_active());
    assert!(matches!(shell.record_output(), Err(ShellError::RecordingActive)));
    shell.disable_recording();
    assert!(shell.record_output().is_ok());
}

#[test]
fn explorer_answers_through_the_replay_queue() {
    let mut shell = Shell::new(None);
    for c in "== Hall ==\nA hall.\n\nThere is 1 exit:\n- north\n\nWhat do you do?\n".chars() {
        shell.grab_output(c);
    }
    shell.process_slash_command(CommandType::command_type("/solve 1")).unwrap();
    assert_eq!(shell.next_input(), InputSource::Retry);
    let queued: String = shell.replay_buffer.iter().collect();
    assert_eq!(queued, "go north\n");
    assert_eq!(shell.take_solver_error(), None);
}

#[test]
fn bytes_for_the_machine() {
    assert_eq!(char_to_byte('A'), 65);
    assert_eq!(char_to_byte('\n'), 10);
    assert_eq!(char_to_byte('\u{141}'), 0x41);
}

#[test]
fn configuration_contents() {
    let mut config = Configuration::new("rom.bin".to_string(), Some("history.txt".to_string()));
    assert!(!config.has_rom());
    config.set_contents(vec![1, 2], vec!["look".to_string()]);
    assert!(config.has_rom());
    assert_eq!(config.rom(), vec![1, 2]);
    assert_eq!(config.replay(), vec!["look".to_string()]);
    let (rom, replay) = config.rom_n_replay();
    assert_eq!(rom, vec![1, 2]);
    assert_eq!(replay, vec!["look".to_string()]);
    assert_eq!(Configuration::default().rom_file, "challenge.bin");
}

#[test]
fn history_holds_lines_as_typed() {
    let mut shell = Shell::new(None);
    for line in ["take lamp", "look", "use lamp", "go west"] {
        type_line(&mut shell, line);
        shell.grab_input('\n');
    }
    assert_eq!(shell.commands_history, vec!["take lamp", "look", "use lamp", "go west"]);
    let replay = Shell::new(Some(shell.commands_history.clone()));
    let queued: String = replay.replay_buffer.iter().collect();
    assert_eq!(queued, "take lamp\nlook\nuse lamp\ngo west\n");
}

#[test]
fn meta_command_from_replay_is_withheld() {
    let mut shell = Shell::new(Some(vec!["/help".to_string(), "go".to_string()]));
    let mut delivered = Vec::new();
    let mut actions = Vec::new();
    loop {
        match shell.next_input() {
            InputSource::Replay(c) => {
                let out = shell.grab_input(c);
                if out.deliver {
                    delivered.push(c);
                }
                if let Some(a) = out.action {
                    actions.push(a);
                }
            }
            _ => break,
        }
    }
    assert_eq!(delivered.iter().collect::<String>(), "go\n");
    assert_eq!(actions, vec![MetaAction::Help]);
    assert_eq!(shell.commands_history, vec!["go".to_string()]);
}

#[test]
fn moves_are_echoed_for_recording() {
    let mut shell = Shell::new(None);
    type_line(&mut shell, "go north");
    let out = shell.grab_input('\n');
    assert_eq!(out.echo, Some("go north".to_string()));
    type_line(&mut shell, "look");
    assert_eq!(shell.grab_input('\n').echo, None);
}
