//! The command surface: the parameters of a run and their validation.

use crate::error::FixaError;
use vstd::prelude::*;

verus! {

/// The sort options that the command line accepts.
pub const SORT_OPTIONS: [&'static str; 4] = ["SLT", "SLB", "SN", "SL"];

/// The directions that the command line accepts.
pub const DIRECTION: [&'static str; 2] = ["ASCENDING", "DESCENDING"];

/// The parsed command line.
#[derive(Debug, Clone, PartialEq, Eq)]
pub struct CLI {
    /// The subcommand, if one was given.
    pub command: Option<Commands>,
}

/// The subcommands.
#[derive(Debug, Clone, PartialEq, Eq)]
pub enum Commands {
    /// Reorder the scaffolds of a FASTA file.
    Sort {
        /// The path of the input FASTA file.
        fasta: String,
        /// The number of sequence bytes on a line of the output.
        line_length: usize,
        /// One of `SLT`, `SLB`, `SN`, `SL`.
        sort_option: String,
        /// `ASCENDING` or `DESCENDING`.
        direction: String,
        /// The name of the output FASTA file, without its extension.
        prefix: String,
        /// The directory of the change log.
        output: String,
    },
}

/// The direction in which lengths are ordered.
#[derive(Debug, Clone, Copy, PartialEq, Eq, Structural)]
pub enum Direction {
    /// Shorter scaffolds come first.
    Ascending,
    /// Longer scaffolds come first.
    Descending,
}

/// An ordering strategy that the sort engine implements.
#[derive(Debug, Clone, Copy, PartialEq, Eq, Structural)]
pub enum SortMode {
    /// Sex scaffolds by length, then the others by length.
    SexLengthTop,
    /// The other scaffolds by length, then the sex scaffolds by length.
    SexLengthBottom,
    /// All scaffolds by length, whatever their class.
    ScaffoldLength,
}

/// The ordering strategy that a sort option selects. `SN` is a declared option
/// without an order of its own: it is refused here, before the engine is reached.
pub open spec fn sort_mode_of(option: Seq<char>) -> Result<SortMode, FixaError> {
    if option == "SLT"@ {
        Ok(SortMode::SexLengthTop)
    } else if option == "SLB"@ {
        Ok(SortMode::SexLengthBottom)
    } else if option == "SL"@ {
        Ok(SortMode::ScaffoldLength)
    } else if option == "SN"@ {
        Err(FixaError::UnsupportedSortOption)
    } else {
        Err(FixaError::UnknownSortOption)
    }
}

/// The direction that a word selects.
pub open spec fn direction_of(word: Seq<char>) -> Result<Direction, FixaError> {
    if word == "ASCENDING"@ {
        Ok(Direction::Ascending)
    } else if word == "DESCENDING"@ {
        Ok(Direction::Descending)
    } else {
        Err(FixaError::UnknownDirection)
    }
}

/// Whether two texts are the same.
fn same_text(a: &str, b: &str) -> (same: bool)
    ensures
        same == (a@ == b@),
{
    let x = a.to_owned();
    let y = b.to_owned();
    x == y
}

/// Reads a sort option.
pub fn parse_sort_option(option: &str) -> (mode: Result<SortMode, FixaError>)
    ensures
        mode == sort_mode_of(option@),
{
    if same_text(option, "SLT") {
        Ok(SortMode::SexLengthTop)
    } else if same_text(option, "SLB") {
        Ok(SortMode::SexLengthBottom)
    } else if same_text(option, "SL") {
        Ok(SortMode::ScaffoldLength)
    } else if same_text(option, "SN") {
        Err(FixaError::UnsupportedSortOption)
    } else {
        Err(FixaError::UnknownSortOption)
    }
}

/// Reads a direction.
pub fn parse_direction(word: &str) -> (direction: Result<Direction, FixaError>)
    ensures
        direction == direction_of(word@),
{
    if same_text(word, "ASCENDING") {
        Ok(Direction::Ascending)
    } else if same_text(word, "DESCENDING") {
        Ok(Direction::Descending)
    } else {
        Err(FixaError::UnknownDirection)
    }
}

/// The path of the change log in an output directory.
pub fn log_path(output: &str) -> (path: String)
    ensures
        path@ == output@ + "/scaffold_changes.log"@,
{
    let mut path = output.to_owned();
    path.append("/scaffold_changes.log");
    path
}

/// The path of the output FASTA file for a prefix.
pub fn fasta_path(prefix: &str) -> (path: String)
    ensures
        path@ == prefix@ + ".fasta"@,
{
    let mut path = prefix.to_owned();
    path.append(".fasta");
    path
}

impl SortMode {
    /// The name under which a run announces the strategy.
    pub fn name(&self) -> (name: &'static str)
        ensures
            name@ == match *self {
                SortMode::SexLengthTop => "SEX_LENGTH_TOP"@,
                SortMode::SexLengthBottom => "SEX_LENGTH_BOTTOM"@,
                SortMode::ScaffoldLength => "SCAFFOLD_LENGTH"@,
            },
    {
        match self {
            SortMode::SexLengthTop => "SEX_LENGTH_TOP",
            SortMode::SexLengthBottom => "SEX_LENGTH_BOTTOM",
            SortMode::ScaffoldLength => "SCAFFOLD_LENGTH",
        }
    }
}

} // verus!
