//! What the command line of the tool says.

use std::path::PathBuf;
use vstd::prelude::*;

verus! {

/// `std::path::PathBuf`: the name of a file. The library carries it and
/// never looks inside.
#[verifier::external_type_specification]
#[verifier::external_body]
pub struct ExPathBuf(std::path::PathBuf);

/// Where the input comes from and how it is written.
#[derive(Debug)]
pub struct Input {
    /// The file to read.
    pub file: PathBuf,
    /// Whether the file holds the blob as hexadecimal text.
    pub i_hex: bool,
}

/// What to show of a blob.
#[derive(Debug)]
pub struct Dump {
    pub input: Input,
    /// Whether to show the bytes of the blob as well.
    pub hexdump: bool,
}

/// What to turn into a blob.
#[derive(Debug)]
pub struct FromJson {}

/// What the tool is asked to do.
#[derive(Debug)]
pub enum Cli {
    Dump(Dump),
    FromJson(FromJson),
}

} // verus!
