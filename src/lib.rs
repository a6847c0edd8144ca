//! A line-oriented command dispatcher: input lines are split into a command
//! and its arguments, and routed to the handler registered for the command.
pub mod manager;
pub mod text;
pub mod tokenizer;

use crate::text::{decimal, push_char, push_decimal};
use std::collections::HashSet;
use std::sync::Arc;
use vstd::prelude::*;

verus! {

/// An error that can occur while executing a command.
pub enum CliError {
    /// The handler was given an invalid number of arguments.
    InvalidNumberOfArguments {
        /// The minimum or only number of arguments expected.
        min: usize,
        /// The maximum number of arguments expected, if any.
        max: Option<usize>,
        /// The number of arguments that was given.
        given: usize,
    },
    /// An argument could not be read; the text describes why.
    ArgumentParseFailure(String),
    /// The command could not be executed; the text describes why.
    ExecutionError(String),
}

impl CliError {
    /// The human-readable rendering of the error, on one line.
    pub open spec fn message_spec(&self) -> Seq<char> {
        match self {
            CliError::InvalidNumberOfArguments { min, max, given } => {
                let upper = match max {
                    Some(m) => seq!['-'] + decimal(*m as nat),
                    None => Seq::empty(),
                };
                "Invalid number of arguments: expected "@ + decimal(*min as nat) + upper
                    + ", received "@ + decimal(*given as nat) + seq!['.']
            },
            CliError::ArgumentParseFailure(m) => "Argument parse failure: "@ + m@,
            CliError::ExecutionError(m) => "Execution error: "@ + m@,
        }
    }

    /// Renders the error as one line of text, without a line break, such as
    /// `Invalid number of arguments: expected 4, received 3.`.
    pub fn message(&self) -> (r: String)
        ensures
            r@ == self.message_spec(),
    {
        match self {
            CliError::InvalidNumberOfArguments { min, max, given } => {
                let mut s = String::from_str("Invalid number of arguments: expected ");
                push_decimal(&mut s, *min);
                match max {
                    Some(m) => {
                        push_char(&mut s, '-');
                        push_decimal(&mut s, *m);
                    },
                    None => {},
                }
                s.append(", received ");
                push_decimal(&mut s, *given);
                push_char(&mut s, '.');
                s
            },
            CliError::ArgumentParseFailure(m) => {
                let mut s = String::from_str("Argument parse failure: ");
                s.append(m.as_str());
                s
            },
            CliError::ExecutionError(m) => {
                let mut s = String::from_str("Execution error: ");
                s.append(m.as_str());
                s
            },
        }
    }
}

/// Parses and executes the commands it declares.
pub trait CliHandler {
    /// The commands this handler executes. The set must not change over the
    /// lifetime of the handler.
    fn get_commands(&self) -> HashSet<&'static str>;

    /// Executes `command` with `args`, appending what it prints to `output`.
    fn handle_command(&self, command: &str, args: Vec<String>, output: &mut String) -> Result<
        (),
        CliError,
    >;
}

/// A shared handler executes the commands of the handler it points to.
impl<T: CliHandler + ?Sized> CliHandler for Arc<T> {
    fn get_commands(&self) -> HashSet<&'static str> {
        (**self).get_commands()
    }

    fn handle_command(&self, command: &str, args: Vec<String>, output: &mut String) -> Result<
        (),
        CliError,
    > {
        (**self).handle_command(command, args, output)
    }
}

} // verus!
