//! The command-line vocabulary: which action was asked for, of which
//! schematic, from which files.
//!
//! Reading the actual process arguments and files is the surrounding
//! program's business; this module only decides what a given argument vector
//! means.

use vstd::prelude::*;

verus! {

/// What a command line asks for.
#[derive(Clone, Copy, Debug, PartialEq, Eq, Structural)]
pub enum Action {
    Simulate,
    Flatten,
}

/// A parsed command line: the action, the top-level schematic's name, the
/// design file, and — for simulation — the test-vector data file.
#[derive(Debug)]
pub struct Command {
    pub action: Action,
    pub schematic: String,
    pub file: String,
    pub data: String,
}

/// Mathematical model of a [`Command`].
#[verifier::ext_equal]
pub ghost struct CommandV {
    pub action: Action,
    pub schematic: Seq<char>,
    pub file: Seq<char>,
    pub data: Seq<char>,
}

impl View for Command {
    type V = CommandV;

    open spec fn view(&self) -> CommandV {
        CommandV {
            action: self.action,
            schematic: self.schematic@,
            file: self.file@,
            data: self.data@,
        }
    }
}

/// What an argument vector means.  The two accepted shapes are
/// `<program> simulate <name> from <file> with <data-file>` and
/// `<program> flatten <name> from <file>`; anything else is refused with a
/// message saying how far the match got.
pub open spec fn spec_command(cl: Seq<Seq<char>>) -> Result<CommandV, Seq<char>> {
    if cl.len() == 7 && cl[1] == "simulate"@ {
        if cl[3] == "from"@ && cl[5] == "with"@ {
            Ok(
                CommandV {
                    action: Action::Simulate,
                    schematic: cl[2],
                    file: cl[4],
                    data: cl[6],
                },
            )
        } else {
            Err("Invalid command line for simulation."@)
        }
    } else if cl.len() == 5 && cl[1] == "flatten"@ {
        if cl[3] == "from"@ {
            Ok(
                CommandV {
                    action: Action::Flatten,
                    schematic: cl[2],
                    file: cl[4],
                    data: Seq::empty(),
                },
            )
        } else {
            Err("Invalid command line for flattening."@)
        }
    } else {
        Err("Invalid command line."@)
    }
}

impl Command {
    /// Parses an argument vector, as [`spec_command`] describes.
    pub fn new(command_line: &Vec<String>) -> (r: Result<Self, String>)
        ensures
            match r {
                Ok(c) => spec_command(command_line.deep_view()) == Ok::<CommandV, Seq<char>>(c@),
                Err(e) => spec_command(command_line.deep_view()) == Err::<CommandV, Seq<char>>(
                    e@,
                ),
            },
    {
        if command_line.len() == 7 && command_line[1].eq(&String::from_str("simulate")) {
            Command::simulation_command(command_line)
        } else if command_line.len() == 5 && command_line[1].eq(&String::from_str("flatten")) {
            Command::flattening_command(command_line)
        } else {
            Err(String::from_str("Invalid command line."))
        }
    }

    /// The simulation form: `<program> simulate <name> from <file> with
    /// <data-file>`.
    fn simulation_command(command_line: &Vec<String>) -> (r: Result<Self, String>)
        requires
            command_line.deep_view().len() == 7,
            command_line.deep_view()[1] == "simulate"@,
        ensures
            match r {
                Ok(c) => spec_command(command_line.deep_view()) == Ok::<CommandV, Seq<char>>(c@),
                Err(e) => spec_command(command_line.deep_view()) == Err::<CommandV, Seq<char>>(
                    e@,
                ),
            },
    {
        if command_line[3].eq(&String::from_str("from")) && command_line[5].eq(
            &String::from_str("with"),
        ) {
            let command = Command {
                action: Action::Simulate,
                schematic: command_line[2].clone(),
                file: command_line[4].clone(),
                data: command_line[6].clone(),
            };
            Ok(command)
        } else {
            Err(String::from_str("Invalid command line for simulation."))
        }
    }

    /// The flattening form: `<program> flatten <name> from <file>`.
    fn flattening_command(command_line: &Vec<String>) -> (r: Result<Self, String>)
        requires
            command_line.deep_view().len() == 5,
            command_line.deep_view()[1] == "flatten"@,
        ensures
            match r {
                Ok(c) => spec_command(command_line.deep_view()) == Ok::<CommandV, Seq<char>>(c@),
                Err(e) => spec_command(command_line.deep_view()) == Err::<CommandV, Seq<char>>(
                    e@,
                ),
            },
    {
        if command_line[3].eq(&String::from_str("from")) {
            let command = Command {
                action: Action::Flatten,
                schematic: command_line[2].clone(),
                file: command_line[4].clone(),
                data: String::new(),
            };
            Ok(command)
        } else {
            Err(String::from_str("Invalid command line for flattening."))
        }
    }
}

} // verus!
