use std::collections::HashSet;
use std::str::FromStr;
use std::sync::{Arc, Mutex};

use jdn_cli::manager::{with_result, Action, CliManager, INVALID_COMMAND, PROMPT};
use jdn_cli::CliError;
use jdn_cli::CliHandler;

type Manager = CliManager<std::io::Empty, Vec<u8>, Arc<dyn CliHandler>>;

fn manager() -> Manager {
    CliManager::with_reader_writer(std::io::empty(), Vec::new())
}

/// Feeds the lines to the manager as its read loop does, and returns all
/// that it prints, prompts included.
fn session(m: &Manager, lines: &[&str]) -> String {
    let mut printed = String::new();
    for line in lines {
        printed.push_str(PROMPT);
        match m.respond(line) {
            None => return printed,
            Some(text) => printed.push_str(&text),
        }
    }
    printed
}

struct TestHandler {
    on: Mutex<Option<bool>>,
}

impl TestHandler {
    const START_COMMAND: &'static str = "start";
    const CALCULATE_COMMAND: &'static str = "calculate";
    const STOP_COMMAND: &'static str = "stop";
    const IS_RUNNING_COMMAND: &'static str = "is-running";

    fn new() -> Self {
        TestHandler { on: Mutex::new(None) }
    }
}

impl CliHandler for TestHandler {
    fn get_commands(&self) -> HashSet<&'static str> {
        [
            Self::START_COMMAND,
            Self::CALCULATE_COMMAND,
            Self::STOP_COMMAND,
            Self::IS_RUNNING_COMMAND,
        ]
        .iter()
        .cloned()
        .collect()
    }

    fn handle_command(&self, command: &str, args: Vec<String>, output: &mut String) -> Result<(), CliError> {
        match command {
            Self::START_COMMAND => {
                *self.on.lock().unwrap() = Some(true);
                output.push_str("started\n");
                Ok(())
            }
            Self::CALCULATE_COMMAND => {
                if args.len() != 4 {
                    return Err(CliError::InvalidNumberOfArguments { min: 4, max: None, given: args.len() });
                }
                if self.on.lock().unwrap().unwrap_or(false) {
                    let num1 = i32::from_str_radix(&args[1], 10)
                        .map_err(|e| CliError::ArgumentParseFailure(e.to_string()))?;
                    let operator = char::from_str(&args[2]).map_err(|e| CliError::ArgumentParseFailure(e.to_string()))?;
                    let num2 = i32::from_str_radix(&args[3], 10)
                        .map_err(|e| CliError::ArgumentParseFailure(e.to_string()))?;
                    let value = match operator {
                        '+' => num1 + num2,
                        '-' => num1 - num2,
                        '/' => num1 / num2,
                        '*' | 'x' => num1 * num2,
                        _ => {
                            return Err(CliError::ArgumentParseFailure(format!(
                                "{} is not a valid operator.",
                                operator
                            )))
                        }
                    };
                    output.push_str(&format!("{} is {}\n", args[0], value));
                    Ok(())
                } else {
                    Err(CliError::ExecutionError(String::from("TestHandler not started.")))
                }
            }
            Self::STOP_COMMAND => {
                *self.on.lock().unwrap() = Some(false);
                output.push_str("stopped\n");
                Ok(())
            }
            Self::IS_RUNNING_COMMAND => {
                output.push_str(&format!("{:?}\n", *self.on.lock().unwrap()));
                Ok(())
            }
            _ => Err(CliError::ExecutionError(format!("Unknown command: {}", command))),
        }
    }
}

struct TestHandler2;

impl CliHandler for TestHandler2 {
    fn get_commands(&self) -> HashSet<&'static str> {
        ["start", "end"].iter().cloned().collect()
    }

    fn handle_command(&self, command: &str, _args: Vec<String>, output: &mut String) -> Result<(), CliError> {
        match command {
            "start" => output.push_str("begun\n"),
            _ => output.push_str("ended\n"),
        }
        Ok(())
    }
}

/// Declares the commands it is built with and reports which one it ran.
struct Echo {
    name: &'static str,
    commands: Vec<&'static str>,
}

impl CliHandler for Echo {
    fn get_commands(&self) -> HashSet<&'static str> {
        self.commands.iter().cloned().collect()
    }

    fn handle_command(&self, command: &str, args: Vec<String>, output: &mut String) -> Result<(), CliError> {
        output.push_str(&format!("{} ran {} {:?}\n", self.name, command, args));
        Ok(())
    }
}

/// Always fails with the error it holds.
struct Failing;

impl CliHandler for Failing {
    fn get_commands(&self) -> HashSet<&'static str> {
        ["fail"].iter().cloned().collect()
    }

    fn handle_command(&self, _command: &str, args: Vec<String>, _output: &mut String) -> Result<(), CliError> {
        Err(CliError::InvalidNumberOfArguments { min: 4, max: None, given: args.len() })
    }
}

#[test]
fn test_manager_empty() {
    let m = manager();
    let printed = session(&m, &["help\n", "invalid\n", "exit\n"]);
    assert_eq!(printed, format!("{p}{p}{}\n{p}", INVALID_COMMAND, p = PROMPT));
}

#[test]
fn test_one_handler() {
    let mut m = manager();
    m.add_handler(Arc::new(TestHandler::new()));
    let printed = session(&m, &["help\n", "start\n", "exit\n"]);
    assert_eq!(printed, "> calculate\nis-running\nstart\nstop\n> started\n> ");
}

#[test]
fn test_two_handlers() {
    let mut m = manager();
    m.add_handler(Arc::new(TestHandler::new()));
    m.add_handler(Arc::new(TestHandler2));
    let printed = session(&m, &["help\n", "stop\n", "start\n", "exit\n"]);
    assert_eq!(printed, "> calculate\nend\nis-running\nstart\nstop\n> stopped\n> begun\n> ");
}

#[test]
fn test_complex_commands() {
    let mut m = manager();
    m.add_handler(Arc::new(TestHandler::new()));
    let lines = [
        "start\n",
        "calculate \"complex calculation\" 1 + 1\n",
        "calculate \"complex calculation\" 1 +\n",
        "calculate \"complex calculation\" 1 plus 1\n",
        "stop\n",
        "calculate \"complex calculation\" 1 + 1\n",
        "exit\n",
    ];
    let printed = session(&m, &lines);
    let expected = [
        "> started\n",
        "> complex calculation is 2\n",
        "> Invalid number of arguments: expected 4, received 3.\n",
        "> Argument parse failure: too many characters in string\n",
        "> stopped\n",
        "> Execution error: TestHandler not started.\n",
        "> ",
    ]
    .concat();
    assert_eq!(printed, expected);
}

#[test]
fn start_and_unregistered_calculate() {
    let mut m = manager();
    m.add_handler(Arc::new(Echo { name: "h", commands: vec!["start", "stop", "is-running"] }));
    assert_eq!(m.respond("start").unwrap(), "h ran start []\n");
    assert_eq!(m.respond("calculate \"r\" 1 + 1").unwrap(), "Invalid command\n");
}

#[test]
fn handler_error_is_printed_on_one_line() {
    let mut m = manager();
    m.add_handler(Arc::new(Failing));
    assert_eq!(m.respond("fail a b c").unwrap(), "Invalid number of arguments: expected 4, received 3.\n");
}

#[test]
fn exit_stops_in_any_case() {
    let mut m = manager();
    m.add_handler(Arc::new(TestHandler::new()));
    assert!(m.respond("exit").is_none());
    assert!(m.respond("EXIT").is_none());
    assert!(m.respond("  eXiT  \n").is_none());
    assert!(m.respond("exit now").is_none());
    assert_eq!(session(&m, &["start", "exit", "stop"]), "> started\n> ");
}

#[test]
fn unknown_and_missing_commands_are_invalid() {
    let m = manager();
    assert_eq!(m.respond("nothing here").unwrap(), "Invalid command\n");
    assert_eq!(m.respond("\"\"").unwrap(), "Invalid command\n");
    assert_eq!(m.respond("exits").unwrap(), "Invalid command\n");
}

#[test]
fn blank_line_prints_nothing() {
    let m = manager();
    assert_eq!(m.respond("").unwrap(), "");
    assert_eq!(m.respond("  \t \n").unwrap(), "");
}

#[test]
fn handler_commands_are_case_sensitive() {
    let mut m = manager();
    m.add_handler(Arc::new(TestHandler::new()));
    assert_eq!(m.respond("START").unwrap(), "Invalid command\n");
    assert_eq!(m.respond("HeLp").unwrap(), "calculate\nis-running\nstart\nstop\n");
}

#[test]
fn latest_registration_wins() {
    let mut m = manager();
    m.add_handler(Arc::new(Echo { name: "first", commands: vec!["a", "b"] }));
    m.add_handler(Arc::new(Echo { name: "second", commands: vec!["b", "c"] }));
    m.add_handler(Arc::new(Echo { name: "third", commands: vec!["c"] }));
    assert_eq!(m.respond("a").unwrap(), "first ran a []\n");
    assert_eq!(m.respond("b 1").unwrap(), "second ran b [\"1\"]\n");
    assert_eq!(m.respond("c").unwrap(), "third ran c []\n");
    assert_eq!(m.respond("help").unwrap(), "a\nb\nc\n");
}

#[test]
fn help_is_sorted_whatever_the_order_of_registration() {
    let mut one = manager();
    one.add_handler(Arc::new(Echo { name: "x", commands: vec!["zeta", "alpha"] }));
    one.add_handler(Arc::new(Echo { name: "y", commands: vec!["mid", "alpha", "Beta"] }));
    let mut two = manager();
    two.add_handler(Arc::new(Echo { name: "y", commands: vec!["Beta", "mid"] }));
    two.add_handler(Arc::new(Echo { name: "x", commands: vec!["alpha", "zeta"] }));
    let listing = "Beta\nalpha\nmid\nzeta\n";
    assert_eq!(one.respond("help").unwrap(), listing);
    assert_eq!(two.respond("help").unwrap(), listing);
    assert_eq!(one.help(), listing);
}

#[test]
fn disjoint_handlers_route_to_their_owner() {
    let mut m = manager();
    m.add_handler(Arc::new(Echo { name: "left", commands: vec!["l1", "l2"] }));
    m.add_handler(Arc::new(Echo { name: "right", commands: vec!["r1"] }));
    assert_eq!(m.respond("l1").unwrap(), "left ran l1 []\n");
    assert_eq!(m.respond("l2 \"x y\"").unwrap(), "left ran l2 [\"x y\"]\n");
    assert_eq!(m.respond("r1").unwrap(), "right ran r1 []\n");
    assert_eq!(m.find(&"l2".to_string()), Some(0));
    assert_eq!(m.find(&"r1".to_string()), Some(1));
    assert_eq!(m.find(&"x".to_string()), None);
}

#[test]
fn register_overwrites_and_sorts() {
    let mut m = manager();
    let e: Arc<dyn CliHandler> = Arc::new(Echo { name: "e", commands: vec![] });
    m.register(&vec!["b".to_string(), "a".to_string()], e.clone());
    m.register(&vec!["a".to_string()], e);
    assert_eq!(m.find(&"a".to_string()), Some(1));
    assert_eq!(m.find(&"b".to_string()), Some(0));
    assert_eq!(m.help(), "a\nb\n");
}

#[test]
fn decide_names_the_handler_and_arguments() {
    let mut m = manager();
    m.add_handler(Arc::new(TestHandler2));
    match m.decide("  start \"a b\" c ") {
        Action::Run { handler, command, args } => {
            assert_eq!(handler, 0);
            assert_eq!(command, "start");
            assert_eq!(args, vec!["a b", "c"]);
        }
        _ => panic!("expected a handler to run"),
    }
    assert!(matches!(m.decide("Exit"), Action::Exit));
    match m.decide("nope") {
        Action::Reply(text) => assert_eq!(text, "Invalid command\n"),
        _ => panic!("expected a reply"),
    }
}

#[test]
fn result_text_follows_the_output() {
    assert_eq!(with_result("done\n".to_string(), Ok(())), "done\n");
    let err = CliError::InvalidNumberOfArguments { min: 4, max: None, given: 3 };
    assert_eq!(with_result(String::new(), Err(err)), "Invalid number of arguments: expected 4, received 3.\n");
    let err = CliError::ExecutionError("late".to_string());
    assert_eq!(with_result("x\n".to_string(), Err(err)), "x\nExecution error: late\n");
}

#[test]
fn error_messages() {
    let e = CliError::InvalidNumberOfArguments { min: 4, max: None, given: 3 };
    assert_eq!(e.message(), "Invalid number of arguments: expected 4, received 3.");
    let e = CliError::InvalidNumberOfArguments { min: 2, max: Some(16), given: 0 };
    assert_eq!(e.message(), "Invalid number of arguments: expected 2-16, received 0.");
    let e = CliError::ArgumentParseFailure("too many characters in string".to_string());
    assert_eq!(e.message(), "Argument parse failure: too many characters in string");
    let e = CliError::ExecutionError("TestHandler not started.".to_string());
    assert_eq!(e.message(), "Execution error: TestHandler not started.");
}
