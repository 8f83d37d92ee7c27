//! The commands of the node's command line.

use crate::config::{config_command, Config, ConfigCommand};
use vstd::prelude::*;
use vstd::slice::slice_subrange;

verus! {

/// What the command line asks for.
#[derive(Debug, PartialEq, Eq)]
pub enum Command {
    /// Bring up networking.
    Start,
    /// Show or change the configuration.
    Config(ConfigCommand),
    /// Announce the content of the given identifier.
    Announce(String),
    /// No command was given: tell how the program is used.
    Usage,
    /// `announce` was given without an identifier: tell how it is used.
    AnnounceUsage,
    /// The command is not known: say so, and do nothing on the network.
    Unknown(String),
}

/// A command as mathematical values.
pub enum CommandView {
    Start,
    Config(ConfigCommand),
    Announce(Seq<char>),
    Usage,
    AnnounceUsage,
    Unknown(Seq<char>),
}

impl View for Command {
    type V = CommandView;

    open spec fn view(&self) -> CommandView {
        match self {
            Command::Start => CommandView::Start,
            Command::Config(c) => CommandView::Config(*c),
            Command::Announce(id) => CommandView::Announce(id@),
            Command::Usage => CommandView::Usage,
            Command::AnnounceUsage => CommandView::AnnounceUsage,
            Command::Unknown(name) => CommandView::Unknown(name@),
        }
    }
}

/// What the words of a command line ask for; the first is the
/// program's name.
pub open spec fn command_of(args: Seq<String>) -> CommandView {
    if args.len() < 2 {
        CommandView::Usage
    } else if args[1]@ == "start"@ {
        CommandView::Start
    } else if args[1]@ == "config"@ {
        CommandView::Config(config_command(args.skip(2)))
    } else if args[1]@ == "announce"@ {
        if args.len() < 3 {
            CommandView::AnnounceUsage
        } else {
            CommandView::Announce(args[2]@)
        }
    } else {
        CommandView::Unknown(args[1]@)
    }
}

/// Reads the words of a command line.
pub fn parse_command(args: &Vec<String>) -> (command: Command)
    ensures
        command@ == command_of(args@),
{
    if args.len() < 2 {
        return Command::Usage;
    }
    if args[1] == "start".to_owned() {
        Command::Start
    } else if args[1] == "config".to_owned() {
        let rest = slice_subrange(args.as_slice(), 2, args.len());
        assert(rest@ =~= args@.skip(2));
        Command::Config(Config::handle_config_command(rest))
    } else if args[1] == "announce".to_owned() {
        if args.len() < 3 {
            Command::AnnounceUsage
        } else {
            Command::Announce(args[2].clone())
        }
    } else {
        Command::Unknown(args[1].clone())
    }
}

} // verus!
