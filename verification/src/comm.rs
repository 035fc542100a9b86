//! The rover's communication link: a connection flag, what may be sent
//! over it, and the commands that drive it.

use crate::text::same_text;
use vstd::prelude::*;

verus! {

/// The state of the communication link.
#[derive(Debug)]
pub struct CommunicationModule {
    pub is_connected: bool,
}

/// What a link command led to.
#[derive(Clone, Copy, Debug, PartialEq, Eq)]
pub enum CommOutcome {
    /// The link was opened.
    Connected,
    /// The link was closed.
    Disconnected,
    /// The status report went out.
    Sent,
    /// The status report was not sent, because the link is closed.
    NotConnected,
    /// The command is not one of the link's commands.
    InvalidCommand,
}

/// What the command word `command` leads to on a link that is connected or
/// not, as `connected` says.
pub open spec fn outcome_of(command: Seq<char>, connected: bool) -> CommOutcome {
    if command == "connect"@ {
        CommOutcome::Connected
    } else if command == "disconnect"@ {
        CommOutcome::Disconnected
    } else if command == "send_data"@ {
        if connected {
            CommOutcome::Sent
        } else {
            CommOutcome::NotConnected
        }
    } else {
        CommOutcome::InvalidCommand
    }
}

/// Whether the link is connected after the command word `command`, if it
/// was connected or not before, as `connected` says.
pub open spec fn connected_after(command: Seq<char>, connected: bool) -> bool {
    if command == "connect"@ {
        true
    } else if command == "disconnect"@ {
        false
    } else {
        connected
    }
}

impl CommunicationModule {
    /// A link that is not yet connected.
    pub fn new() -> (module: CommunicationModule)
        ensures
            !module.is_connected,
    {
        CommunicationModule { is_connected: false }
    }

    /// Opens the link.
    pub fn connect(&mut self)
        ensures
            final(self).is_connected,
    {
        self.is_connected = true;
    }

    /// Closes the link.
    pub fn disconnect(&mut self)
        ensures
            !final(self).is_connected,
    {
        self.is_connected = false;
    }

    /// What goes out over the link when `data` is handed to it: `data`
    /// itself while the link is connected, nothing while it is not.
    pub fn send_data<'a>(&self, data: &'a str) -> (sent: Option<&'a str>)
        ensures
            sent == if self.is_connected {
                Some(data)
            } else {
                None
            },
    {
        if self.is_connected {
            Some(data)
        } else {
            None
        }
    }

    /// Carries out a link command given as a word: `connect`, `disconnect`
    /// or `send_data`, which sends the status report `report`. Any other
    /// word changes nothing.
    pub fn communicate(&mut self, command: &str, report: &str) -> (outcome: CommOutcome)
        ensures
            outcome == outcome_of(command@, old(self).is_connected),
            final(self).is_connected == connected_after(command@, old(self).is_connected),
    {
        if same_text(command, "connect") {
            self.connect();
            CommOutcome::Connected
        } else if same_text(command, "disconnect") {
            self.disconnect();
            CommOutcome::Disconnected
        } else if same_text(command, "send_data") {
            match self.send_data(report) {
                Some(_) => CommOutcome::Sent,
                None => CommOutcome::NotConnected,
            }
        } else {
            CommOutcome::InvalidCommand
        }
    }
}

} // verus!
