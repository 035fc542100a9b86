//! The operator's commands: which words the rover understands, and how many
//! arguments each of them needs before it is carried out.

use crate::text::same_text;
use vstd::prelude::*;

verus! {

/// A command that the rover understands.
#[derive(Clone, Copy, Debug, PartialEq, Eq)]
pub enum Command {
    Forward,
    Backward,
    Left,
    Right,
    Navigate,
    Scan,
    Terrain,
    Connect,
    SendData,
    Autopilot,
    Pathfind,
    Exit,
}

/// What is to be done with a line of input.
#[derive(Clone, Copy, Debug, PartialEq, Eq)]
pub enum Recognised {
    /// The command is known and has the arguments it needs.
    Run(Command),
    /// The command is known but lacks arguments: nothing is done.
    Incomplete(Command),
    /// The word names no command.
    Invalid,
}

/// The command that the word `word` names, if any.
pub open spec fn command_named(word: Seq<char>) -> Option<Command> {
    if word == "forward"@ {
        Some(Command::Forward)
    } else if word == "backward"@ {
        Some(Command::Backward)
    } else if word == "left"@ {
        Some(Command::Left)
    } else if word == "right"@ {
        Some(Command::Right)
    } else if word == "navigate"@ {
        Some(Command::Navigate)
    } else if word == "scan"@ {
        Some(Command::Scan)
    } else if word == "terrain"@ {
        Some(Command::Terrain)
    } else if word == "connect"@ {
        Some(Command::Connect)
    } else if word == "send_data"@ {
        Some(Command::SendData)
    } else if word == "autopilot"@ {
        Some(Command::Autopilot)
    } else if word == "pathfind"@ {
        Some(Command::Pathfind)
    } else if word == "exit"@ {
        Some(Command::Exit)
    } else {
        None
    }
}

/// The number of arguments that `command` needs.
pub open spec fn arguments_needed(command: Command) -> nat {
    match command {
        Command::Forward | Command::Backward | Command::Left | Command::Right | Command::Terrain => 1,
        Command::Navigate => 2,
        Command::Pathfind => 4,
        Command::Scan | Command::Connect | Command::SendData | Command::Autopilot | Command::Exit => 0,
    }
}

/// What is to be done with the word `word` followed by `given` arguments.
pub open spec fn recognised(word: Seq<char>, given: nat) -> Recognised {
    match command_named(word) {
        Some(command) => if given >= arguments_needed(command) {
            Recognised::Run(command)
        } else {
            Recognised::Incomplete(command)
        },
        None => Recognised::Invalid,
    }
}

impl Command {
    /// The number of arguments that the command needs; further arguments
    /// are ignored.
    pub fn arity(&self) -> (needed: usize)
        ensures
            needed == arguments_needed(*self),
    {
        match self {
            Command::Forward | Command::Backward | Command::Left | Command::Right | Command::Terrain => 1,
            Command::Navigate => 2,
            Command::Pathfind => 4,
            Command::Scan | Command::Connect | Command::SendData | Command::Autopilot | Command::Exit => 0,
        }
    }
}

/// Reads a command from its name.
pub fn parse_command(word: &str) -> (command: Option<Command>)
    ensures
        command == command_named(word@),
{
    if same_text(word, "forward") {
        Some(Command::Forward)
    } else if same_text(word, "backward") {
        Some(Command::Backward)
    } else if same_text(word, "left") {
        Some(Command::Left)
    } else if same_text(word, "right") {
        Some(Command::Right)
    } else if same_text(word, "navigate") {
        Some(Command::Navigate)
    } else if same_text(word, "scan") {
        Some(Command::Scan)
    } else if same_text(word, "terrain") {
        Some(Command::Terrain)
    } else if same_text(word, "connect") {
        Some(Command::Connect)
    } else if same_text(word, "send_data") {
        Some(Command::SendData)
    } else if same_text(word, "autopilot") {
        Some(Command::Autopilot)
    } else if same_text(word, "pathfind") {
        Some(Command::Pathfind)
    } else if same_text(word, "exit") {
        Some(Command::Exit)
    } else {
        None
    }
}

/// Decides what to do with a line of input whose first word is `word` and
/// which holds `given` further words.
pub fn recognise(word: &str, given: usize) -> (decision: Recognised)
    ensures
        decision == recognised(word@, given as nat),
{
    match parse_command(word) {
        Some(command) => {
            if given >= command.arity() {
                Recognised::Run(command)
            } else {
                Recognised::Incomplete(command)
            }
        },
        None => Recognised::Invalid,
    }
}

} // verus!
