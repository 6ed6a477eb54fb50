use violet::config;
use violet::control::alias::resolve_command;
use violet::control::commands::{Command, InterpretationError, InterpretedCommand};
use violet::data::pathtree::PathTree;
use violet::util::string::clone_uppercased;

#[test]
fn exit_command_carries_the_exit_message() {
    match Command::ExitCommand.execute(vec![]) {
        Ok(InterpretedCommand::Exit { exit_message }) => {
            assert_eq!("Bye! AYAYA ^_^", exit_message)
        }
        _ => panic!("exit must decide to exit"),
    }
}

#[test]
fn argument_validation_rejects_placeholders_gaps_and_blanks() {
    match Command::SayThisAndThatCommand
        .execute(vec![String::from("<ARG>"), String::from("b")])
    {
        Err(InterpretationError::ArgSpecifierMisused) => {}
        _ => panic!("a literal placeholder argument must be refused"),
    }
    match Command::SayThisAndThatCommand.execute(vec![String::from("only one")]) {
        Err(InterpretationError::WrongArgumentCount { expected, actual }) => {
            assert_eq!(2, expected);
            assert_eq!(1, actual);
        }
        _ => panic!("a missing argument must be refused"),
    }
    match Command::AddAliasCommand.execute(vec![String::from(""), String::from("exit")]) {
        Err(InterpretationError::ArgumentEmpty { argument_name }) => {
            assert_eq!("alias to add", argument_name)
        }
        _ => panic!("an empty alias must be refused"),
    }
    match Command::AddAliasCommand.execute(vec![String::from("bye"), String::from("")]) {
        Err(InterpretationError::ArgumentEmpty { argument_name }) => {
            assert_eq!("builtin name", argument_name)
        }
        _ => panic!("an empty builtin name must be refused"),
    }
    match Command::RemoveAliasCommand.execute(vec![String::from("")]) {
        Err(InterpretationError::ArgumentEmpty { argument_name }) => {
            assert_eq!("alias to remove", argument_name)
        }
        _ => panic!("an empty alias must be refused"),
    }
    match Command::ExplainCommandCommand.execute(vec![String::from("exit")]) {
        Ok(InterpretedCommand::ExplainCommand { command }) => assert_eq!("exit", command),
        _ => panic!("a named command must be explained"),
    }
    match Command::AddAliasCommand.execute(vec![String::from("bye"), String::from("exit")]) {
        Ok(InterpretedCommand::AddAlias { alias, for_builtin }) => {
            assert_eq!("bye", alias);
            assert_eq!("exit", for_builtin);
        }
        _ => panic!("valid arguments must pass"),
    }
    match Command::ListAvailableCommandsCommand.execute(vec![]) {
        Ok(InterpretedCommand::ListAvailableCommands) => {}
        _ => panic!("listing must be decided"),
    }
}

#[test]
fn dispatch_finds_the_command_and_its_arguments() {
    let mut b: PathTree<Command> = PathTree::new();
    b.set_by_path(Command::ExitCommand, "exit");
    b.set_by_path(Command::SayThisAndThatCommand, "please say <ARG> and <ARG>");

    match resolve_command(&b, "please say one and two") {
        Some((cmd, template, args)) => {
            assert_eq!(Command::SayThisAndThatCommand, cmd);
            assert_eq!("please say <ARG> and <ARG>", template);
            assert_eq!(vec![String::from("one"), String::from("two")], args);
        }
        None => panic!("the input must match"),
    }
    assert!(resolve_command(&b, "no such command").is_none());
}

#[test]
fn help_texts_name_their_commands() {
    assert!(Command::ExitCommand.help().contains("exit"));
    assert!(Command::SayThisAndThatCommand.help().contains("please say <ARG> and <ARG>"));
    assert!(Command::AddAliasCommand.help().contains("add alias"));
    assert!(config::Help::exit().contains("Exits Violet"));
}

#[test]
fn configuration_getters_return_their_fixed_values() {
    assert_eq!("Bye! AYAYA ^_^", config::get_exit_message());
    assert_eq!("./config.json", config::get_config_file_name());
    assert_eq!("<<VIO>> ", config::get_violet_prompt());
    assert_eq!("Violet", config::get_violet_name());
    assert_eq!("0.1.0", config::get_violet_version());
    assert_eq!("???", config::get_violet_author());
    assert!(config::get_help_message().contains("Violet is a command interpreter."));
}

#[test]
fn uppercasing_touches_only_the_first_character() {
    assert_eq!("Violet", clone_uppercased("violet"));
    assert_eq!("Violet", clone_uppercased("Violet"));
    assert_eq!("", clone_uppercased(""));
    assert_eq!("A b c", clone_uppercased("a b c"));
}
