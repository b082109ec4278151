//! The command set of the protocol and its one-byte opcodes.

use vstd::prelude::*;

verus! {

/// Every command the protocol knows, one opcode byte each.
#[derive(Clone, Copy, Debug, PartialEq, Eq, Structural)]
pub enum Command {
    /// Gets a single item.
    Get,
    /// Gets an array of items.
    MGet,
    /// Gets a list of all keys of a namespace.
    Keys,
    /// Checks whether a key exists.
    Exists,
    /// Checks whether each of an array of keys exists.
    MExists,
    /// Sets a value at the given key.
    Put,
    /// Sets a map of values.
    MSet,
    /// Deletes a single item.
    Del,
    /// Deletes an array of items.
    MDel,
    /// Asks the namespace to persist itself.
    Save,
    /// The reply to a ping.
    Pong,
    /// The liveness probe.
    Ping,
}

/// The opcode byte that carries each command.
pub open spec fn opcode_of(c: Command) -> u8 {
    match c {
        Command::Get => 0,
        Command::MGet => 1,
        Command::Keys => 2,
        Command::Exists => 3,
        Command::MExists => 4,
        Command::Put => 5,
        Command::MSet => 6,
        Command::Del => 7,
        Command::MDel => 8,
        Command::Save => 9,
        Command::Ping => 254,
        Command::Pong => 255,
    }
}

/// The command a received byte names. Every unassigned byte reads as Pong,
/// the forgiving choice on decode; the server separately refuses such bytes
/// when they arrive as requests.
pub open spec fn command_of(x: u8) -> Command {
    if x == 0 {
        Command::Get
    } else if x == 1 {
        Command::MGet
    } else if x == 2 {
        Command::Keys
    } else if x == 3 {
        Command::Exists
    } else if x == 4 {
        Command::MExists
    } else if x == 5 {
        Command::Put
    } else if x == 6 {
        Command::MSet
    } else if x == 7 {
        Command::Del
    } else if x == 8 {
        Command::MDel
    } else if x == 9 {
        Command::Save
    } else if x == 254 {
        Command::Ping
    } else {
        Command::Pong
    }
}

/// Whether a byte is one of the assigned opcodes.
pub open spec fn is_assigned_opcode(x: u8) -> bool {
    x <= 9 || x == 254 || x == 255
}

impl Command {
    /// Reads a command from its opcode byte.
    pub fn from_u8(x: u8) -> (c: Command)
        ensures
            c == command_of(x),
    {
        match x {
            0 => Command::Get,
            1 => Command::MGet,
            2 => Command::Keys,
            3 => Command::Exists,
            4 => Command::MExists,
            5 => Command::Put,
            6 => Command::MSet,
            7 => Command::Del,
            8 => Command::MDel,
            9 => Command::Save,
            254 => Command::Ping,
            _ => Command::Pong,
        }
    }

    /// The opcode byte of this command.
    pub fn as_u8(self) -> (x: u8)
        ensures
            x == opcode_of(self),
    {
        match self {
            Command::Get => 0,
            Command::MGet => 1,
            Command::Keys => 2,
            Command::Exists => 3,
            Command::MExists => 4,
            Command::Put => 5,
            Command::MSet => 6,
            Command::Del => 7,
            Command::MDel => 8,
            Command::Save => 9,
            Command::Ping => 254,
            Command::Pong => 255,
        }
    }
}

/// Reading back the opcode of any command gives the command again.
pub proof fn lemma_opcode_round_trip(c: Command)
    ensures
        command_of(opcode_of(c)) == c,
{
}

/// On the assigned opcodes the two conversions are mutually inverse.
pub proof fn lemma_command_byte_round_trip(x: u8)
    requires
        is_assigned_opcode(x),
    ensures
        opcode_of(command_of(x)) == x,
{
}

} // verus!
