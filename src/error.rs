//! The errors of the library: a kind and a human-readable description.

use crate::text::push_str;
use vstd::prelude::*;

verus! {

/// The kind of an error.
#[derive(Clone, Copy, Debug, PartialEq, Eq, Structural)]
pub enum ErrorKind {
    ComponentNotFound,
    Internal,
    InvalidComponent,
    InvalidConnection,
    InvalidGraph,
}

pub open spec fn kind_name(k: ErrorKind) -> Seq<char> {
    match k {
        ErrorKind::ComponentNotFound => "ComponentNotFound"@,
        ErrorKind::Internal => "Internal"@,
        ErrorKind::InvalidComponent => "InvalidComponent"@,
        ErrorKind::InvalidConnection => "InvalidConnection"@,
        ErrorKind::InvalidGraph => "InvalidGraph"@,
    }
}

/// An error that occurred while building or querying a `ComponentGraph`.
#[derive(Debug, Clone)]
pub struct Error {
    pub kind: ErrorKind,
    pub desc: String,
}

/// The printed form of an error: its kind, a colon and its description.
pub open spec fn error_text(e: Error) -> Seq<char> {
    kind_name(e.kind) + ": "@ + e.desc@
}

impl ErrorKind {
    pub fn write_name(&self, out: &mut String)
        ensures
            final(out)@ == old(out)@ + kind_name(*self),
    {
        match self {
            ErrorKind::ComponentNotFound => push_str(out, "ComponentNotFound"),
            ErrorKind::Internal => push_str(out, "Internal"),
            ErrorKind::InvalidComponent => push_str(out, "InvalidComponent"),
            ErrorKind::InvalidConnection => push_str(out, "InvalidConnection"),
            ErrorKind::InvalidGraph => push_str(out, "InvalidGraph"),
        }
    }
}

impl Error {
    pub fn new(kind: ErrorKind, desc: String) -> (r: Error)
        ensures
            r.kind == kind,
            r.desc@ == desc@,
    {
        Error { kind, desc }
    }

    pub fn component_not_found(desc: &str) -> (r: Error)
        ensures
            r.kind == ErrorKind::ComponentNotFound,
            r.desc@ == desc@,
    {
        Error { kind: ErrorKind::ComponentNotFound, desc: String::from_str(desc) }
    }

    pub fn internal(desc: &str) -> (r: Error)
        ensures
            r.kind == ErrorKind::Internal,
            r.desc@ == desc@,
    {
        Error { kind: ErrorKind::Internal, desc: String::from_str(desc) }
    }

    pub fn invalid_component(desc: &str) -> (r: Error)
        ensures
            r.kind == ErrorKind::InvalidComponent,
            r.desc@ == desc@,
    {
        Error { kind: ErrorKind::InvalidComponent, desc: String::from_str(desc) }
    }

    pub fn invalid_connection(desc: &str) -> (r: Error)
        ensures
            r.kind == ErrorKind::InvalidConnection,
            r.desc@ == desc@,
    {
        Error { kind: ErrorKind::InvalidConnection, desc: String::from_str(desc) }
    }

    pub fn invalid_graph(desc: &str) -> (r: Error)
        ensures
            r.kind == ErrorKind::InvalidGraph,
            r.desc@ == desc@,
    {
        Error { kind: ErrorKind::InvalidGraph, desc: String::from_str(desc) }
    }

    /// Appends the printed form of the error to `out`.
    pub fn write_text(&self, out: &mut String)
        ensures
            final(out)@ == old(out)@ + error_text(*self),
    {
        self.kind.write_name(out);
        push_str(out, ": ");
        out.append(self.desc.as_str());
    }

    /// The printed form of the error, e.g. `InvalidGraph: Cycle detected: 2 -> 3 -> 2`.
    pub fn to_string(&self) -> (r: String)
        ensures
            r@ == error_text(*self),
    {
        let mut s = String::new();
        self.write_text(&mut s);
        s
    }
}

impl PartialEq for Error {
    fn eq(&self, other: &Error) -> (r: bool) {
        self.kind == other.kind && self.desc == other.desc
    }
}

impl vstd::std_specs::cmp::PartialEqSpecImpl for Error {
    open spec fn obeys_eq_spec() -> bool {
        true
    }

    open spec fn eq_spec(&self, other: &Error) -> bool {
        self.kind == other.kind && self.desc@ == other.desc@
    }
}

} // verus!
