use vstd::prelude::*;

use crate::util::string::{clone_uppercased, upper_chars_of};

verus! {

pub const VIOLET_VERSION: &'static str = "0.1.0";

pub const VIOLET_AUTHOR: &'static str = "???";

pub const VIOLET_PROMPT: &'static str = "<<VIO>>";

pub const VIOLET_NAME: &'static str = "violet";

pub const VIOLET_EXIT_MESSAGE: &'static str = "Bye! AYAYA ^_^";

pub const VIOLET_CONFIG_FILE_NAME: &'static str = "./config.json";

pub const VIOLET_HELP_MESSAGE: &'static str = "Violet is a command interpreter.\nWhen you see the \"<<VIO>> \" prompt, it means you can enter your command and press <ENTER>.\n---\nViolet is going to try to interpret that command or let you know if it doesn't know such a command.\n---\nYou can exit Violet with\n<<VIO>> exit\n\tor\n<<VIO>> [e]\n---\nIf you want to see the list of available commands, the command for that is:\n<<VIO>> list available commands\n\tor\n<<VIO>> [lac]\n---\nIf you want to see the explanation for an individual command:\n<<VIO>> explain command <ARG>\nor\n<<VIO>> [eca] <ARG>\nIf the command is a multi-node command (not just \"exit\", but i.e. \"what is your name\"), take care to enclose it in the \" quotation marks, like so:\n<<VIO>> explain command \"what is your name\"\n---\nViolet has some commands with arguments. For example, the\n<<VIO>> please say <ARG> and <ARG>\ncommand just echoes the two arguments back to you.\n---\nArguments can also be either multi word arguments or single word arguments.\n---\nExample of using single word arguments:\n<<VIO>> please say one and two\nGotcha! Saying one and two!\n---\nExample of using multi word arguments:\n<<VIO>> please say \"one argument\" and \"another argument\"\nGotcha! Saying one argument and another argument!\n---\nAll Violet commands are \"paths\" consisting of \"nodes\" separated by spaces.\nExample:\nwhat is your name => This is a \"path\".\nwhat, what is, what is your, what is your name => those are all \"nodes\".\n---\nViolet has a command shortcut syntax. It works in the following way.\nThe shortcut command itself is enclosed in [ and ].\nThe letters for the command are first letters of each node in the original command.\nThe letter for <ARG> is a.\nThe arguments themselves are nodes that follow the command shortcut in [], separated by spaces.\n---\nShortcut example:\nShortcut for\n<<VIO>> exit\n\tis\n<<VIO>> [e]\n---\nShortcut example 2:\nShortcut for\n<<VIO>> please say this and that\n\tis\n<<VIO>> [psaaa] this that\n---\nShortcut example 3:\nShortcut for\n<<VIO>> remove alias \"alias for exit\"\nis\n<<VIO>> [raa] \"alias for exit\"\n---\nIf the same shortcut is created several times due to name collision, the second and subsequent shortcuts are appended with a sequential number.";

pub const HELP_EXIT: &'static str = "<<VIO>> exit\n  Exits Violet and saves Violet's data correctly.\n---\nWARNING: if you don't want Violet's data (such as aliases) to be lost between sessions, please always take care to exit via the exit command.";

pub const HELP_WHAT_IS_YOUR_NAME: &'static str = "<<VIO>> what is your name\n  Makes Violet give you a short and cute introduction! ^_^";

pub const HELP_WHAT_TIME_IS_IT: &'static str = "<<VIO>> what time is it\n  Violet tells you what time it is according to your system clock.\n---\nNOTE: this doesn't fetch current time from the web. If your system clock is incorrect, then you're going to get the incorrect time.";

pub const HELP_PLEASE_SAY_ARG_AND_ARG: &'static str = "<<VIO>> please say <ARG> and <ARG>\n  This command just echoes the two arguments you provide back at you.\n---\nExample:\n<<VIO>> please say one and two\nGotcha! Saying one and two!\nExample 2:\n<<VIO>> please say \"this is arg\" and \"this is also arg\"\nGotcha! Saying this is arg and this is also arg!";

pub const HELP_ADD_ALIAS: &'static str = "<<VIO>> add alias <ARG> for builtin <ARG>\n  Adds a new alias for an existing built-in command so that the new alias would invoke the same command as the builtin when called.\n---\nExample 1:\n<<VIO>> add alias shutdown for builtin exit\n<<VIO>> shutdown\nBye! AYAYA ^_^\n---\nNOTE 1: You can't set an alias if an identical one already exists.\nNOTE 2: You can't set an alias to a name identical to an existing built-in command.\nNOTE 3: The alias and the builtin have to have the same amount of <ARG>s, otherwise the alias won't be set successfully.\nNOTE 4: You can set an alias for both add alias and remove alias commands.";

pub const HELP_REMOVE_ALIAS: &'static str = "<<VIO>> remove alias <ARG>\n  Removes an existing alias.\n---\nExample:\n<<VIO>> add alias \"shutdown\" for builtin \"exit\"\n<<VIO>> remove alias \"shutdown\"\n<<VIO>> shutdown\nshutdown: command does not exist.\n---\nNOTE 1: You obviously cannot remove an alias which doesn't exist.\nNOTE 2: If you try to invoke this with a builtin as an argument, Violet will explicitly tell you that you can't remove builtins.";

pub const HELP_LIST_AVAILABLE_COMMANDS: &'static str = "<<VIO>> list available commands\n  lists all the currently available built-in commands.";

pub const HELP_EXPLAIN_COMMAND: &'static str = "<<VIO>> explain command <ARG>\n  The command currently being invoked. Explains the command specified in the <ARG>.";

pub const HELP_HELP: &'static str = "<<VIO>> help\n  A concise yet information-dense intro to the basics of Violet.";

/// The help texts of the built-in commands.
pub struct Help;

impl Help {
    pub fn exit() -> (r: &'static str)
        ensures
            r@ == HELP_EXIT@,
    {
        HELP_EXIT
    }

    pub fn what_is_your_name() -> (r: &'static str)
        ensures
            r@ == HELP_WHAT_IS_YOUR_NAME@,
    {
        HELP_WHAT_IS_YOUR_NAME
    }

    pub fn what_time_is_it() -> (r: &'static str)
        ensures
            r@ == HELP_WHAT_TIME_IS_IT@,
    {
        HELP_WHAT_TIME_IS_IT
    }

    pub fn please_say_arg_and_arg() -> (r: &'static str)
        ensures
            r@ == HELP_PLEASE_SAY_ARG_AND_ARG@,
    {
        HELP_PLEASE_SAY_ARG_AND_ARG
    }

    pub fn add_alias_arg_for_builtin_arg() -> (r: &'static str)
        ensures
            r@ == HELP_ADD_ALIAS@,
    {
        HELP_ADD_ALIAS
    }

    pub fn remove_alias_arg() -> (r: &'static str)
        ensures
            r@ == HELP_REMOVE_ALIAS@,
    {
        HELP_REMOVE_ALIAS
    }

    pub fn list_available_commands() -> (r: &'static str)
        ensures
            r@ == HELP_LIST_AVAILABLE_COMMANDS@,
    {
        HELP_LIST_AVAILABLE_COMMANDS
    }

    pub fn explain_command_arg() -> (r: &'static str)
        ensures
            r@ == HELP_EXPLAIN_COMMAND@,
    {
        HELP_EXPLAIN_COMMAND
    }

    pub fn help() -> (r: &'static str)
        ensures
            r@ == HELP_HELP@,
    {
        HELP_HELP
    }
}

pub fn get_violet_version() -> (r: String)
    ensures
        r@ == VIOLET_VERSION@,
{
    VIOLET_VERSION.to_owned()
}

pub fn get_violet_author() -> (r: String)
    ensures
        r@ == VIOLET_AUTHOR@,
{
    VIOLET_AUTHOR.to_owned()
}

pub fn get_violet_prompt() -> (r: String)
    ensures
        r@ == VIOLET_PROMPT@ + " "@,
{
    let mut s = VIOLET_PROMPT.to_owned();
    s.append(" ");
    s
}

pub fn get_violet_name() -> (r: String)
    ensures
        VIOLET_NAME@.len() > 0 && r@ == upper_chars_of(VIOLET_NAME@[0]) + VIOLET_NAME@.skip(1),
{
    proof {
        reveal_strlit("violet");
    }
    clone_uppercased(VIOLET_NAME)
}

pub fn get_exit_message() -> (r: String)
    ensures
        r@ == VIOLET_EXIT_MESSAGE@,
{
    VIOLET_EXIT_MESSAGE.to_owned()
}

pub fn get_config_file_name() -> (r: String)
    ensures
        r@ == VIOLET_CONFIG_FILE_NAME@,
{
    VIOLET_CONFIG_FILE_NAME.to_owned()
}

pub fn get_help_message() -> (r: String)
    ensures
        r@ == VIOLET_HELP_MESSAGE@,
{
    VIOLET_HELP_MESSAGE.to_owned()
}

} // verus!
