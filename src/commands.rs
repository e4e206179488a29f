//! The commands that the vault's command line offers.

use vstd::prelude::*;

verus! {

/// A command of the vault's command line.
pub enum Commands {
    /// Creates the vault and its log.
    Init,
    /// Adds a credential under the given entry.
    Add(String),
    /// Shows the first credential that the given phrase finds.
    Get(String),
    /// Shows every credential.
    List,
    /// Edits the first credential that the given phrase finds.
    Edit(String),
    /// Deletes the first credential that the given phrase finds.
    Delete(String),
    /// Generates a password of the given length.
    Generate(usize),
    /// Changes the master key.
    Passwd,
    /// Exports the vault to a file.
    Export,
    /// Imports the records of the vault file at the given path.
    Import(String),
    /// Shows the usage.
    Help,
    /// An unknown command.
    Invalid(String),
}

} // verus!
