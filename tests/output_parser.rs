use synacor_vm::output_parser::{
    is_exit_title, is_item, OutputParser, OutputParserError, ParseFailure, ResponseParts, SlashOutput,
};
use synacor_vm::round_trip::serialize_response;
use synacor_vm::text::to_chars;

#[test]
fn test_exit_title_2() {
    let line = "There are 2 exits:";
    let res = is_exit_title(&to_chars(line));
    assert!(res.is_some(), "{}", format!("res is  {:?}", res));
    assert_eq!(res.unwrap(), 2);
}
#[test]
fn test_exit_title_1_space() {
    let line = " There is 1 exit: ";
    let res = is_exit_title(&to_chars(line));
    assert!(res.is_some(), "{}", format!("res is  {:?}", res));
    assert_eq!(res.unwrap(), 1);
}
#[test]
fn test_exit_title_1() {
    let line = "There is 1 exit:";
    let res = is_exit_title(&to_chars(line));
    assert!(res.is_some(), "{}", format!("res is  {:?}", res));
    assert_eq!(res.unwrap(), 1);
}
#[test]
fn test_exit_title_100() {
    let line = "There are 100 exits:";
    let res = is_exit_title(&to_chars(line));
    assert!(res.is_some(), "{}", format!("res is  {:?}", res));
    assert_eq!(res.unwrap(), 100);
}
#[test]
fn test_exit_title_no_match() {
    let line = "There is something else";
    let res = is_exit_title(&to_chars(line));
    assert!(res.is_none());
}
#[test]
fn test_is_item() {
    let line = "- south";
    let res = is_item(&to_chars(line));
    assert!(res.is_some());
    assert_eq!(res.unwrap(), to_chars("south"))
}
#[test]
fn test_is_item_space() {
    let line = "    - north";
    let res = is_item(&to_chars(line));
    assert!(res.is_some());
    assert_eq!(res.unwrap(), to_chars("north"))
}

#[test]
fn test_some_abstract() {
    let paragraph = r#"
== Twisty passages ==
You are in a twisty maze of little passages, all alike.

There are 3 exits:
- north
- south
- west

What do you do?
"#;
    let op = OutputParser::new(paragraph);
    match op.parse() {
        Ok(result) => {
            assert_eq!(result.title, "Twisty passages");
            assert_eq!(result.exits.len(), 3);
            assert!(result.pretext.is_empty());
            assert!(result.things_of_interest.is_empty());
            assert_eq!(
                result.message, "You are in a twisty maze of little passages, all alike.",
                "Parsed object is {:?}",
                result
            );
        }
        Err(parse_err) => {
            panic!("failed to parse message. Error: {:?}", parse_err);
        }
    }
}
#[test]
fn test_initial_paragraph() {
    let paragraph = r#"Welcome to the Synacor Challenge!
Please record your progress by putting codes like
this one into the challenge website: uxlzSuIDThsw

Executing self-test...

self-test complete, all tests pass
The self-test completion code is: jGxkvqlwrGNE

== Foothills ==
You find yourself standing at the base of an enormous mountain.  At its base to the north, there is a massive doorway.  A sign nearby reads "Keep out!  Definitely no treasure within!"

Things of interest here:
- tablet

There are 2 exits:
- doorway
- south

What do you do?
"#;
    let op = OutputParser::new(paragraph);
    match op.parse() {
        Ok(result) => {
            assert_eq!(result.title, "Foothills");
            assert_eq!(result.exits.len(), 2);
            assert_eq!(
                result.pretext,
                r#"Welcome to the Synacor Challenge!
Please record your progress by putting codes like
this one into the challenge website: uxlzSuIDThsw
Executing self-test...
self-test complete, all tests pass
The self-test completion code is: jGxkvqlwrGNE"#
            );
            assert_eq!(result.things_of_interest.len(), 1);
            assert_eq!(
                result.message,
                "You find yourself standing at the base of an enormous mountain.  At its base to the north, there is a massive doorway.  A sign nearby reads \"Keep out!  Definitely no treasure within!\"",
                "Parsed object is {:?}",
                result
            );
        }
        Err(parse_err) => {
            panic!("failed to parse message. Error: {:?}", parse_err);
        }
    }
}
#[test]
fn test_initial_small_paragraph() {
    let paragraph = r#"
    == Foothills ==
    As you begin to leave, you feel the urge for adventure pulling you back...

    There is 1 exit:
    - north

    What do you do?
"#;
    let op = OutputParser::new(paragraph);
    match op.parse() {
        Ok(result) => {
            assert_eq!(result.title, "Foothills");
            assert_eq!(result.exits.len(), 1);
            assert!(result.pretext.is_empty());
            assert_eq!(result.things_of_interest.len(), 0);
            assert_eq!(
                result.message,
                "As you begin to leave, you feel the urge for adventure pulling you back...",
                "Parsed object is {:?}",
                result
            );
        }
        Err(parse_err) => {
            panic!("failed to parse message. Error: {:?}", parse_err);
        }
    }
}
#[test]
fn test_initial_malformed_paragraph() {
    let paragraph = r#"
    == Foothills ==
    As you begin to leave, you feel the urge for adventure pulling you back...

    There is 1 exit:
    - north

    What do you do?
    /show_state

    I don't understand; try 'help' for instructions.

    What do you do?
    /show_state
"#;
    let op = OutputParser::new(paragraph);
    match op.parse() {
        Ok(result) => {
            assert_eq!(result.title, "Foothills");
            assert_eq!(result.exits.len(), 1);
            assert_eq!(
                result.pretext,
                "I don't understand; try 'help' for instructions."
            );
            assert_eq!(result.things_of_interest.len(), 0);
            assert_eq!(
                result.message,
                "As you begin to leave, you feel the urge for adventure pulling you back...",
                "Parsed object is {:?}",
                result
            );
            assert!(result.dont_understand);
        }
        Err(parse_err) => {
            panic!("failed to parse message. Error: {:?}", parse_err);
        }
    }
}
#[test]
fn test_drop_short() {
    let paragraph = r#"

Dropped.

What do you do?

"#;
    let op = OutputParser::new(paragraph);
    match op.parse() {
        Ok(result) => {
            assert!(result.title.is_empty());
            assert_eq!(result.exits.len(), 0);
            assert_eq!(result.pretext, "Dropped.", "Parsed object is: {:?}", result);
            assert_eq!(result.things_of_interest.len(), 0);
            assert!(result.message.is_empty(), "Parsed object is {:?}", result);
            assert!(!result.dont_understand);
        }
        Err(parse_err) => {
            panic!("failed to parse message. Error: {:?}", parse_err);
        }
    }
}

#[test]
fn test_take_with_input() {
    let paragraph = r#"
take tablet


Taken.

What do you do?
"#;
    let op = OutputParser::new(paragraph);
    match op.parse() {
        Ok(result) => {
            assert!(result.title.is_empty());
            assert_eq!(result.exits.len(), 0);
            assert_eq!(result.pretext, "take tablet\nTaken.");
            assert_eq!(result.things_of_interest.len(), 0);
            assert!(result.message.is_empty(), "Parsed object is {:?}", result);
            assert!(!result.dont_understand);
        }
        Err(parse_err) => {
            panic!("failed to parse message. Error: {:?}", parse_err);
        }
    }
}
#[test]
fn test_take() {
    let paragraph = r#"


Taken.

What do you do?
"#;
    let op = OutputParser::new(paragraph);
    match op.parse() {
        Ok(result) => {
            assert!(result.title.is_empty());
            assert_eq!(result.exits.len(), 0);
            assert_eq!(result.pretext, "Taken.");
            assert_eq!(result.things_of_interest.len(), 0);
            assert!(result.message.is_empty(), "Parsed object is {:?}", result);
            assert!(!result.dont_understand);
        }
        Err(parse_err) => {
            panic!("failed to parse message. Error: {:?}", parse_err);
        }
    }
}

#[test]
fn test_inv() {
    let paragraph = r#"


Your inventory:
- tablet

What do you do?
"#;
    let op = OutputParser::new(paragraph);
    match op.parse() {
        Ok(result) => {
            assert!(!result.dont_understand);
            assert!(result.pretext.is_empty(), "Parsed object is {:?}", result);
            assert_eq!(result.title, "");
            assert_eq!(result.exits.len(), 0);
            assert_eq!(result.inventory.len(), 1);
            assert_eq!(result.things_of_interest.len(), 0);
            assert!(result.message.is_empty(), "Parsed object is {:?}", result);
        }
        Err(parse_err) => {
            panic!("failed to parse message. Error: {:?}", parse_err);
        }
    }
}
#[test]
fn test_inv_input() {
    let paragraph = r#"
inv


Your inventory:
- tablet

What do you do?
"#;
    let op = OutputParser::new(paragraph);
    match op.parse() {
        Ok(result) => {
            assert!(!result.dont_understand);
            assert_eq!(result.pretext, "inv", "Parsed object is {:?}", result);
            assert_eq!(result.title, "");
            assert_eq!(result.exits.len(), 0);
            assert_eq!(result.inventory.len(), 1);
            assert_eq!(result.things_of_interest.len(), 0);
            assert!(result.message.is_empty(), "Parsed object is {:?}", result);
        }
        Err(parse_err) => {
            panic!("failed to parse message. Error: {:?}", parse_err);
        }
    }
}
#[test]
fn test_do_not_understand() {
    let paragraph = r#"
    I don't understand; try 'help' for instructions.

    What do you do?
"#;
    let op = OutputParser::new(paragraph);
    match op.parse() {
        Ok(result) => {
            assert!(result.dont_understand);
            assert_eq!(
                result.pretext, "I don't understand; try 'help' for instructions.",
                "Parsed object is {:?}",
                result
            );
            assert_eq!(result.title, "");
            assert_eq!(result.exits.len(), 0);
            assert_eq!(result.things_of_interest.len(), 0);
            assert!(result.message.is_empty(), "Parsed object is {:?}", result);
        }
        Err(parse_err) => {
            panic!("failed to parse message. Error: {:?}", parse_err);
        }
    }
}

#[test]
fn parser_sanity_foothills() {
    let paragraph = "== Foothills ==\nSign reads \"Keep out!\"\n\nThings of interest here:\n- tablet\n\nThere are 2 exits:\n- doorway\n- south\n\nWhat do you do?\n";
    let result = OutputParser::new(paragraph).parse().unwrap();
    assert_eq!(result.title, "Foothills");
    assert_eq!(result.exits, vec!["doorway".to_string(), "south".to_string()]);
    assert_eq!(result.things_of_interest, vec!["tablet".to_string()]);
    assert_eq!(result.message, "Sign reads \"Keep out!\"");
    assert!(!result.dont_understand);
}

#[test]
fn empty_input_is_rejected() {
    assert_eq!(
        OutputParser::new("").parse().unwrap_err(),
        OutputParserError::Generic(ParseFailure::NothingToParse)
    );
    assert_eq!(
        OutputParser::new("\n   \n").parse().unwrap_err(),
        OutputParserError::Generic(ParseFailure::NothingToParse)
    );
}

#[test]
fn response_without_prompt_is_rejected() {
    assert_eq!(
        OutputParser::new("== Hall ==\nA hall.\n").parse().unwrap_err(),
        OutputParserError::Generic(ParseFailure::MissingPrompt)
    );
}

#[test]
fn exit_count_must_match() {
    let text = "== Hall ==\nA hall.\nThere are 2 exits:\n- north\nWhat do you do?\n";
    assert_eq!(
        OutputParser::new(text).parse().unwrap_err(),
        OutputParserError::Generic(ParseFailure::ExitCountMismatch)
    );
}

#[test]
fn items_outside_lists_are_rejected() {
    assert_eq!(
        OutputParser::new("- stray\nWhat do you do?\n").parse().unwrap_err(),
        OutputParserError::Generic(ParseFailure::ItemInPretext)
    );
    assert_eq!(
        OutputParser::new("== Hall ==\nA hall.\n- stray\nWhat do you do?\n").parse().unwrap_err(),
        OutputParserError::Generic(ParseFailure::ItemInMessage)
    );
    assert_eq!(
        OutputParser::new("What do you do?\n- stray\n").parse().unwrap_err(),
        OutputParserError::Generic(ParseFailure::ItemAfterPrompt)
    );
    assert_eq!(
        OutputParser::new("I don't understand; try 'help' for instructions.\n- stray\n").parse().unwrap_err(),
        OutputParserError::Generic(ParseFailure::ItemInErrorMessage)
    );
}

#[test]
fn text_among_things_is_rejected() {
    let text = "== Hall ==\nA hall.\nThings of interest here:\n- lamp\nodd words\nThere is 1 exit:\n- north\nWhat do you do?\n";
    assert_eq!(
        OutputParser::new(text).parse().unwrap_err(),
        OutputParserError::Generic(ParseFailure::TextAmongThings)
    );
}

#[test]
fn meta_command_output_is_rejected() {
    assert_eq!(
        OutputParser::new("*** Available slash '/' commands: ***\n").parse().unwrap_err(),
        OutputParserError::SlashCommand(SlashOutput::Help)
    );
    assert_eq!(
        OutputParser::new("/solve\n").parse().unwrap_err(),
        OutputParserError::SlashCommand(SlashOutput::LeadingSlash)
    );
    assert_eq!(
        OutputParser::new("commands history  (size:   3):\n").parse().unwrap_err(),
        OutputParserError::SlashCommand(SlashOutput::History)
    );
    assert_eq!(
        OutputParser::new("replay commands  (size: N/A):\n").parse().unwrap_err(),
        OutputParserError::SlashCommand(SlashOutput::Replay)
    );
    assert_eq!(
        OutputParser::new("***         Virtual Machine State         ***\n").parse().unwrap_err(),
        OutputParserError::SlashCommand(SlashOutput::State)
    );
}

#[test]
fn serialized_response_parses_back() {
    let text = "Some pretext.\n\n== Cave ==\nA dark cave.\n\nThings of interest here:\n- lamp\n- rope\n\nThere are 3 exits:\n- north\n- south\n- west\n\nWhat do you do?\n";
    let r = OutputParser::new(text).parse().unwrap();
    assert_eq!(r.pretext, "Some pretext.");
    assert_eq!(r.title, "Cave");
    assert_eq!(r.message, "A dark cave.");
    assert_eq!(r.things_of_interest, vec!["lamp".to_string(), "rope".to_string()]);
    assert_eq!(r.exits, vec!["north".to_string(), "south".to_string(), "west".to_string()]);
    assert!(r.inventory.is_empty());
    assert!(!r.dont_understand);
}

#[test]
fn exit_headers_above_255_are_not_headers() {
    assert_eq!(is_exit_title(&to_chars("There are 256 exits:")), None);
    assert_eq!(is_exit_title(&to_chars("There are 255 exits:")), Some(255));
    assert_eq!(is_exit_title(&to_chars("There are 2x exits:")), None);
}

#[test]
fn parse_of_serialized_response_is_the_response() {
    let r = ResponseParts {
        pretext: String::new(),
        title: "Dark cave".to_string(),
        message: "This seems to be the mouth of a deep cave.".to_string(),
        inventory: vec![],
        things_of_interest: vec!["lantern".to_string(), "rope".to_string()],
        exits: vec!["north".to_string(), "south".to_string()],
        dont_understand: false,
    };
    let text = serialize_response(&r);
    assert_eq!(
        text,
        "== Dark cave ==\nThis seems to be the mouth of a deep cave.\n\nThings of interest here:\n- lantern\n- rope\n\nThere are 2 exits:\n- north\n- south\n\nWhat do you do?\n"
    );
    assert_eq!(OutputParser::new(&text).parse().unwrap(), r);
    let mut one = r.clone();
    one.things_of_interest = vec![];
    one.exits = vec!["west".to_string()];
    let text = serialize_response(&one);
    assert!(text.contains("There is 1 exit:\n- west\n"));
    assert_eq!(OutputParser::new(&text).parse().unwrap(), one);
    let mut many = r.clone();
    many.exits = (0..120).map(|i| format!("passage {}", i)).collect();
    let text = serialize_response(&many);
    assert!(text.contains("There are 120 exits:\n"));
    assert_eq!(OutputParser::new(&text).parse().unwrap(), many);
}
