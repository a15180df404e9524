//! Reports of failed reads. They name the path and carry a hint, and keep what the
//! system said as the cause.
use vstd::prelude::*;
use crate::text;

verus! {

/// The message of a failed read.
pub open spec fn read_failure(path: Seq<char>) -> Seq<char> {
    "Failed to read `"@ + path + "`"@
}

/// A directory could not be read - usually a mistyped `src`/`include` root.
#[derive(Debug)]
pub struct ReadDir {
    pub path: String,
    pub source: String,
}

impl ReadDir {
    /// What went wrong.
    pub fn message(&self) -> (out: String)
        ensures
            out@ == read_failure(self.path@),
    {
        text::cat3("Failed to read `", self.path.as_str(), "`")
    }

    /// What to do about it.
    pub fn help(&self) -> (out: &'static str)
        ensures
            out@ == "Did you mistype the directory?"@,
    {
        "Did you mistype the directory?"
    }
}

/// A known file could not be read.
#[derive(Debug)]
pub struct ReadPath {
    pub path: String,
    pub source: String,
}

impl ReadPath {
    /// What went wrong.
    pub fn message(&self) -> (out: String)
        ensures
            out@ == read_failure(self.path@),
    {
        text::cat3("Failed to read `", self.path.as_str(), "`")
    }

    /// What to do about it.
    pub fn help(&self) -> (out: &'static str)
        ensures
            out@ == "Likely a permissions issue"@,
    {
        "Likely a permissions issue"
    }
}

/// A refusal: what is wrong, and what to do about it.
#[derive(Debug, PartialEq, Eq)]
pub struct Fault {
    pub message: String,
    pub help: Option<String>,
}

/// The model of a [`Fault`].
pub struct FaultV {
    pub message: Seq<char>,
    pub help: Option<Seq<char>>,
}

impl View for Fault {
    type V = FaultV;

    open spec fn view(&self) -> FaultV {
        FaultV { message: self.message@, help: text::opt(self.help) }
    }
}

/// A fault without a hint.
pub open spec fn plain(message: Seq<char>) -> FaultV {
    FaultV { message, help: None }
}

/// A fault with a hint.
pub open spec fn hinted(message: Seq<char>, help: Seq<char>) -> FaultV {
    FaultV { message, help: Some(help) }
}

impl Fault {
    /// A fault without a hint.
    pub fn plain(message: String) -> (out: Fault)
        ensures
            out@ == plain(message@),
    {
        Fault { message, help: None }
    }

    /// A fault with a hint.
    pub fn hinted(message: String, help: &str) -> (out: Fault)
        ensures
            out@ == hinted(message@, help@),
    {
        Fault { message, help: Some(help.to_owned()) }
    }
}

} // verus!
