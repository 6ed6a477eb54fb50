use vstd::prelude::*;

use crate::config::{
    Help, HELP_ADD_ALIAS, HELP_EXIT, HELP_EXPLAIN_COMMAND, HELP_HELP,
    HELP_LIST_AVAILABLE_COMMANDS, HELP_PLEASE_SAY_ARG_AND_ARG, HELP_REMOVE_ALIAS,
    HELP_WHAT_IS_YOUR_NAME, HELP_WHAT_TIME_IS_IT, VIOLET_EXIT_MESSAGE,
};
use crate::util::string::str_eq;
use crate::util::treepath::arg_token;

verus! {

/// What the interpreter loop should do next, as one dispatched command
/// decided it.
pub enum InterpretedCommand {
    DoNothing,
    ListAvailableCommands,
    Exit { exit_message: String },
    AddAlias { alias: String, for_builtin: String },
    RemoveAlias { alias: String },
    ExplainCommand { command: String },
}

/// Why a dispatched command rejected its arguments.
pub enum InterpretationError {
    WrongArgumentCount { expected: usize, actual: usize },
    ArgumentEmpty { argument_name: String },
    ArgSpecifierMisused,
}

/// The closed set of built-in commands; the command registry's payloads.
#[derive(Clone, Copy, Debug, PartialEq, Eq, Structural)]
pub enum Command {
    ExitCommand,
    CurrentTimeCommand,
    WhatsYourNameCommand,
    SayThisAndThatCommand,
    AddAliasCommand,
    RemoveAliasCommand,
    HelpCommand,
    ListAvailableCommandsCommand,
    ExplainCommandCommand,
}

/// Whether some argument is literally the placeholder token.
pub open spec fn any_arg_is_placeholder(args: Seq<String>) -> bool {
    exists|i: int| 0 <= i < args.len() && (#[trigger] args[i])@ == arg_token()
}

fn args_contain_placeholder(args: &Vec<String>) -> (r: bool)
    ensures
        r == any_arg_is_placeholder(args@),
{
    let mut i: usize = 0;
    while i < args.len()
        invariant
            i <= args@.len(),
            forall|j: int| 0 <= j < i ==> (#[trigger] args@[j])@ != arg_token(),
        decreases args@.len() - i,
    {
        proof {
            reveal_strlit("<ARG>");
        }
        if str_eq(args[i].as_str(), "<ARG>") {
            return true;
        }
        i += 1;
    }
    false
}

impl Command {
    /// Validates the captured arguments and decides what the interpreter
    /// loop should do: commands that take no arguments always succeed, the
    /// others reject a literal placeholder, a missing argument, and an
    /// empty argument, in that order.
    pub fn execute(&self, args: Vec<String>) -> (r: Result<InterpretedCommand, InterpretationError>)
        ensures
            match *self {
                Command::ExitCommand => (r matches Ok(InterpretedCommand::Exit { exit_message })
                    && exit_message@ == VIOLET_EXIT_MESSAGE@),
                Command::CurrentTimeCommand => r matches Ok(InterpretedCommand::DoNothing),
                Command::WhatsYourNameCommand => r matches Ok(InterpretedCommand::DoNothing),
                Command::HelpCommand => r matches Ok(InterpretedCommand::DoNothing),
                Command::ListAvailableCommandsCommand => r matches Ok(
                    InterpretedCommand::ListAvailableCommands,
                ),
                Command::SayThisAndThatCommand => {
                    if any_arg_is_placeholder(args@) {
                        r matches Err(InterpretationError::ArgSpecifierMisused)
                    } else if args@.len() < 2 {
                        (r matches Err(
                            InterpretationError::WrongArgumentCount { expected, actual },
                        ) && expected == 2 && actual == args@.len())
                    } else {
                        r matches Ok(InterpretedCommand::DoNothing)
                    }
                },
                Command::AddAliasCommand => {
                    if any_arg_is_placeholder(args@) {
                        r matches Err(InterpretationError::ArgSpecifierMisused)
                    } else if args@.len() < 2 {
                        (r matches Err(
                            InterpretationError::WrongArgumentCount { expected, actual },
                        ) && expected == 2 && actual == args@.len())
                    } else if args@[0]@.len() == 0 {
                        (r matches Err(InterpretationError::ArgumentEmpty { argument_name })
                            && argument_name@ == "alias to add"@)
                    } else if args@[1]@.len() == 0 {
                        (r matches Err(InterpretationError::ArgumentEmpty { argument_name })
                            && argument_name@ == "builtin name"@)
                    } else {
                        (r matches Ok(InterpretedCommand::AddAlias { alias, for_builtin })
                            && alias == args@[0] && for_builtin == args@[1])
                    }
                },
                Command::RemoveAliasCommand => {
                    if any_arg_is_placeholder(args@) {
                        r matches Err(InterpretationError::ArgSpecifierMisused)
                    } else if args@.len() < 1 {
                        (r matches Err(
                            InterpretationError::WrongArgumentCount { expected, actual },
                        ) && expected == 1 && actual == args@.len())
                    } else if args@[0]@.len() == 0 {
                        (r matches Err(InterpretationError::ArgumentEmpty { argument_name })
                            && argument_name@ == "alias to remove"@)
                    } else {
                        (r matches Ok(InterpretedCommand::RemoveAlias { alias }) && alias
                            == args@[0])
                    }
                },
                Command::ExplainCommandCommand => {
                    if any_arg_is_placeholder(args@) {
                        r matches Err(InterpretationError::ArgSpecifierMisused)
                    } else if args@.len() < 1 {
                        (r matches Err(
                            InterpretationError::WrongArgumentCount { expected, actual },
                        ) && expected == 1 && actual == args@.len())
                    } else if args@[0]@.len() == 0 {
                        (r matches Err(InterpretationError::ArgumentEmpty { argument_name })
                            && argument_name@ == "command to explain"@)
                    } else {
                        (r matches Ok(InterpretedCommand::ExplainCommand { command }) && command
                            == args@[0])
                    }
                },
            },
    {
        match self {
            Command::ExitCommand => Ok(
                InterpretedCommand::Exit { exit_message: crate::config::get_exit_message() },
            ),
            Command::CurrentTimeCommand => Ok(InterpretedCommand::DoNothing),
            Command::WhatsYourNameCommand => Ok(InterpretedCommand::DoNothing),
            Command::HelpCommand => Ok(InterpretedCommand::DoNothing),
            Command::ListAvailableCommandsCommand => Ok(
                InterpretedCommand::ListAvailableCommands,
            ),
            Command::SayThisAndThatCommand => {
                if args_contain_placeholder(&args) {
                    Err(InterpretationError::ArgSpecifierMisused)
                } else if args.len() < 2 {
                    Err(InterpretationError::WrongArgumentCount { expected: 2, actual: args.len() })
                } else {
                    Ok(InterpretedCommand::DoNothing)
                }
            },
            Command::AddAliasCommand => {
                if args_contain_placeholder(&args) {
                    Err(InterpretationError::ArgSpecifierMisused)
                } else if args.len() < 2 {
                    Err(InterpretationError::WrongArgumentCount { expected: 2, actual: args.len() })
                } else if args[0].as_str().is_empty() {
                    Err(
                        InterpretationError::ArgumentEmpty {
                            argument_name: "alias to add".to_owned(),
                        },
                    )
                } else if args[1].as_str().is_empty() {
                    Err(
                        InterpretationError::ArgumentEmpty {
                            argument_name: "builtin name".to_owned(),
                        },
                    )
                } else {
                    let alias = args[0].clone();
                    let for_builtin = args[1].clone();
                    Ok(InterpretedCommand::AddAlias { alias, for_builtin })
                }
            },
            Command::RemoveAliasCommand => {
                if args_contain_placeholder(&args) {
                    Err(InterpretationError::ArgSpecifierMisused)
                } else if args.len() < 1 {
                    Err(InterpretationError::WrongArgumentCount { expected: 1, actual: args.len() })
                } else if args[0].as_str().is_empty() {
                    Err(
                        InterpretationError::ArgumentEmpty {
                            argument_name: "alias to remove".to_owned(),
                        },
                    )
                } else {
                    let alias = args[0].clone();
                    Ok(InterpretedCommand::RemoveAlias { alias })
                }
            },
            Command::ExplainCommandCommand => {
                if args_contain_placeholder(&args) {
                    Err(InterpretationError::ArgSpecifierMisused)
                } else if args.len() < 1 {
                    Err(InterpretationError::WrongArgumentCount { expected: 1, actual: args.len() })
                } else if args[0].as_str().is_empty() {
                    Err(
                        InterpretationError::ArgumentEmpty {
                            argument_name: "command to explain".to_owned(),
                        },
                    )
                } else {
                    let command = args[0].clone();
                    Ok(InterpretedCommand::ExplainCommand { command })
                }
            },
        }
    }

    /// The help text of this command.
    pub fn help(&self) -> (r: &'static str)
        ensures
            r@ == match *self {
                Command::ExitCommand => HELP_EXIT@,
                Command::CurrentTimeCommand => HELP_WHAT_TIME_IS_IT@,
                Command::WhatsYourNameCommand => HELP_WHAT_IS_YOUR_NAME@,
                Command::SayThisAndThatCommand => HELP_PLEASE_SAY_ARG_AND_ARG@,
                Command::AddAliasCommand => HELP_ADD_ALIAS@,
                Command::RemoveAliasCommand => HELP_REMOVE_ALIAS@,
                Command::HelpCommand => HELP_HELP@,
                Command::ListAvailableCommandsCommand => HELP_LIST_AVAILABLE_COMMANDS@,
                Command::ExplainCommandCommand => HELP_EXPLAIN_COMMAND@,
            },
    {
        match self {
            Command::ExitCommand => Help::exit(),
            Command::CurrentTimeCommand => Help::what_time_is_it(),
            Command::WhatsYourNameCommand => Help::what_is_your_name(),
            Command::SayThisAndThatCommand => Help::please_say_arg_and_arg(),
            Command::AddAliasCommand => Help::add_alias_arg_for_builtin_arg(),
            Command::RemoveAliasCommand => Help::remove_alias_arg(),
            Command::HelpCommand => Help::help(),
            Command::ListAvailableCommandsCommand => Help::list_available_commands(),
            Command::ExplainCommandCommand => Help::explain_command_arg(),
        }
    }
}

} // verus!
