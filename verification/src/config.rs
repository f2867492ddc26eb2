//! The executable data types: statements, entries, the parsed configuration,
//! and the error values, each with its view into the model.

use crate::model::{ParseErrorKind, SpecEntry, SpecParseError, SpecStatement};
use vstd::prelude::*;

verus! {

/// One configuration line inside a host block: a recognized directive with
/// its value, or any other line kept verbatim (trimmed).
#[derive(Debug, PartialEq, Eq, Clone)]
pub enum ConfigStatement {
    HostName(String),
    Port(String),
    Unknown(String),
}

impl View for ConfigStatement {
    type V = SpecStatement;

    open spec fn view(&self) -> SpecStatement {
        match self {
            ConfigStatement::HostName(v) => SpecStatement::HostName(v@),
            ConfigStatement::Port(v) => SpecStatement::Port(v@),
            ConfigStatement::Unknown(v) => SpecStatement::Unknown(v@),
        }
    }
}

/// One `Host` block: the name on the header line and its body statements in
/// file order.
#[derive(Debug, PartialEq, Eq, Clone)]
pub struct Entry {
    pub hostname: String,
    pub statements: Vec<ConfigStatement>,
}

impl View for Entry {
    type V = SpecEntry;

    open spec fn view(&self) -> SpecEntry {
        SpecEntry {
            hostname: self.hostname@,
            statements: Seq::new(self.statements@.len(), |i: int| self.statements@[i]@),
        }
    }
}

/// The whole file: entries in file order. Duplicate hostnames stay as
/// separate entries; nothing is merged or dropped.
pub type ParsedConfig = Vec<Entry>;

pub open spec fn stmts_view(ss: Seq<ConfigStatement>) -> Seq<SpecStatement> {
    Seq::new(ss.len(), |i: int| ss[i]@)
}

pub open spec fn entries_view(es: Seq<Entry>) -> Seq<SpecEntry> {
    Seq::new(es.len(), |i: int| es[i]@)
}

/// A line outside any block that is neither blank nor a well-formed
/// `Host <name>` header; `line` is its zero-based index in the input.
#[derive(Debug, PartialEq, Eq, Clone, Copy, Structural)]
pub struct ParseError {
    pub line: usize,
    pub kind: ParseErrorKind,
}

impl View for ParseError {
    type V = SpecParseError;

    open spec fn view(&self) -> SpecParseError {
        SpecParseError { line: self.line as nat, kind: self.kind }
    }
}

/// Lookup failure: no entry's hostname equals the requested name.
#[derive(Debug, PartialEq, Eq, Clone)]
pub struct HostNotFoundError {
    pub requested_name: String,
}

/// A driver option the library rejects before parsing: a zero indent width.
#[derive(Debug, PartialEq, Eq, Clone, Copy, Structural)]
pub struct ConfigurationError;

} // verus!
