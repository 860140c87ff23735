//! Errors emitted by deterministic file-authority operations.

use vstd::prelude::*;
use crate::text::{decimal, decimal_text, lossy_text, lossy_text_of};

verus! {

/// Errors of the vault rules: paths, collisions, conflicts, registry names and trash ids.
/// Filesystem and serialization failures belong to the code that performs the I/O.
#[derive(Clone, Debug, PartialEq, Eq)]
pub enum Error {
    UnsafePath(String),
    Collision(Vec<u8>),
    Conflict { expected: String, actual: String },
    NoVaultSelected,
    UnknownVault(String),
    InvalidVaultName(String),
    InvalidUtf8(Vec<u8>),
    InvalidEditSpan { start: usize, end: usize, length: usize },
    InvalidTrashEntry(String),
}

/// The display text of an error; paths print as their lossy UTF-8 decoding.
pub open spec fn error_text(e: Error) -> Seq<char> {
    match e {
        Error::UnsafePath(m) => "unsafe path: "@ + m@,
        Error::Collision(p) => "path already exists: "@ + lossy_text_of(p@),
        Error::Conflict { expected, actual } => "source changed (expected "@ + expected@ + ", found "@
            + actual@ + ")"@,
        Error::NoVaultSelected => "no vault is selected"@,
        Error::UnknownVault(n) => "unknown vault: "@ + n@,
        Error::InvalidVaultName(n) => "invalid vault name: "@ + n@,
        Error::InvalidUtf8(p) => "invalid UTF-8 note content: "@ + lossy_text_of(p@),
        Error::InvalidEditSpan { start, end, length } => "invalid edit span "@ + decimal_text(start as nat) + ".."@
            + decimal_text(end as nat) + " for a note of "@ + decimal_text(length as nat) + " bytes"@,
        Error::InvalidTrashEntry(m) => "invalid trash entry: "@ + m@,
    }
}

fn prefixed(prefix: &str, rest: &str) -> (r: String)
    ensures
        r@ == prefix@ + rest@,
{
    let mut m = prefix.to_owned();
    m.append(rest);
    m
}

impl Error {
    /// The display text of the error.
    pub fn message(&self) -> (r: String)
        ensures
            r@ == error_text(*self),
    {
        match self {
            Error::UnsafePath(m) => prefixed("unsafe path: ", m.as_str()),
            Error::Collision(p) => {
                let t = lossy_text(p.as_slice());
                prefixed("path already exists: ", t.as_str())
            },
            Error::Conflict { expected, actual } => {
                let mut m = prefixed("source changed (expected ", expected.as_str());
                m.append(", found ");
                m.append(actual.as_str());
                m.append(")");
                m
            },
            Error::NoVaultSelected => "no vault is selected".to_owned(),
            Error::UnknownVault(n) => prefixed("unknown vault: ", n.as_str()),
            Error::InvalidVaultName(n) => prefixed("invalid vault name: ", n.as_str()),
            Error::InvalidUtf8(p) => {
                let t = lossy_text(p.as_slice());
                prefixed("invalid UTF-8 note content: ", t.as_str())
            },
            Error::InvalidEditSpan { start, end, length } => {
                let mut m = "invalid edit span ".to_owned();
                m.append(decimal(*start as u64).as_str());
                m.append("..");
                m.append(decimal(*end as u64).as_str());
                m.append(" for a note of ");
                m.append(decimal(*length as u64).as_str());
                m.append(" bytes");
                m
            },
            Error::InvalidTrashEntry(m) => prefixed("invalid trash entry: ", m.as_str()),
        }
    }
}

} // verus!
