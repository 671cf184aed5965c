//! Metacommands of the interactive shell: the dot-commands that ask the
//! engine to enumerate what it holds.

use vstd::prelude::*;

verus! {

/// A metacommand that the shell understands.
#[derive(Debug, Clone, Copy, PartialEq, Eq, Structural)]
pub enum Metacommand {
    Tables,
    Schema,
    Indexes,
}

/// Why a line was not accepted as a metacommand.
#[derive(Debug, Clone, Copy, PartialEq, Eq, Structural)]
pub enum MetacommandError {
    /// The text is none of the known dot-commands.
    Unknown,
}

/// The metacommand that a text spells, if any.
pub open spec fn spec_parse(s: Seq<char>) -> Option<Metacommand> {
    if s == ".tables"@ {
        Some(Metacommand::Tables)
    } else if s == ".schema"@ {
        Some(Metacommand::Schema)
    } else if s == ".indexes"@ {
        Some(Metacommand::Indexes)
    } else {
        None
    }
}

impl Metacommand {
    /// The name under which the command is shown.
    pub open spec fn spec_name(self) -> Seq<char> {
        match self {
            Metacommand::Tables => "Tables"@,
            Metacommand::Schema => "Schema"@,
            Metacommand::Indexes => "Indexes"@,
        }
    }

    /// Reads a metacommand from its exact spelling.
    pub fn from_str(s: &str) -> (r: Result<Metacommand, MetacommandError>)
        ensures
            r == match spec_parse(s@) {
                Some(c) => Ok::<Metacommand, MetacommandError>(c),
                None => Err::<Metacommand, MetacommandError>(MetacommandError::Unknown),
            },
    {
        let owned = s.to_owned();
        if owned == ".tables".to_owned() {
            Ok(Metacommand::Tables)
        } else if owned == ".schema".to_owned() {
            Ok(Metacommand::Schema)
        } else if owned == ".indexes".to_owned() {
            Ok(Metacommand::Indexes)
        } else {
            Err(MetacommandError::Unknown)
        }
    }

    /// The command's display name.
    pub fn name(&self) -> (r: String)
        ensures
            r@ == self.spec_name(),
    {
        match self {
            Metacommand::Tables => "Tables".to_owned(),
            Metacommand::Schema => "Schema".to_owned(),
            Metacommand::Indexes => "Indexes".to_owned(),
        }
    }
}

impl MetacommandError {
    /// The message shown for the error.
    pub fn message(&self) -> (r: String)
        ensures
            r@ == "Failed to parse metacommand"@,
    {
        "Failed to parse metacommand".to_owned()
    }
}

/// Runs a metacommand given by its spelling and returns what the shell
/// prints for it: the command's display name.
pub fn handle_metacommand(cmd: &str) -> (r: Result<String, MetacommandError>)
    ensures
        match spec_parse(cmd@) {
            Some(c) => r is Ok && r->Ok_0@ == c.spec_name(),
            None => r == Err::<String, MetacommandError>(MetacommandError::Unknown),
        },
{
    match Metacommand::from_str(cmd) {
        Ok(c) => Ok(c.name()),
        Err(e) => Err(e),
    }
}

} // verus!
