//! Errors of the pipeline.
use vstd::prelude::*;
use vstd::string::*;
use crate::numbers::{decimal, push_decimal};

verus! {

/// A 1-based position in a source file.
#[derive(Debug, Clone, Copy, PartialEq, Eq, Structural)]
pub struct SourceLocation {
    pub line: usize,
    pub column: usize,
}

impl SourceLocation {
    pub fn new(line: usize, column: usize) -> (r: Self)
        ensures
            r.line == line,
            r.column == column,
    {
        SourceLocation { line, column }
    }

    /// `line L, col C`.
    pub fn to_string(&self) -> (r: String)
        ensures
            r@ == location_text(*self),
    {
        let mut out = String::from_str("line ");
        push_decimal(&mut out, self.line as u64);
        out.append(", col ");
        push_decimal(&mut out, self.column as u64);
        out
    }
}

pub open spec fn location_text(l: SourceLocation) -> Seq<char> {
    "line "@ + decimal(l.line as nat) + ", col "@ + decimal(l.column as nat)
}

/// An error of one stage of the pipeline. Every error aborts the stage that
/// raised it.
#[derive(Debug)]
pub enum VoltError {
    /// The source text does not follow the grammar.
    Parse { message: String, location: SourceLocation },
    /// A function breaks a return-type rule; `line` is where.
    Check { message: String, line: usize },
    Io { message: String },
    Build { message: String },
    Codegen { message: String },
}

/// How an error reads when shown to a user.
pub open spec fn error_text(e: VoltError) -> Seq<char> {
    match e {
        VoltError::Parse { message, location } => "parse error: "@ + message@ + " ("@
            + location_text(location) + ")"@,
        VoltError::Check { message, .. } => message@,
        VoltError::Io { message } => "io error: "@ + message@,
        VoltError::Build { message } => "build error: "@ + message@,
        VoltError::Codegen { message } => "codegen error: "@ + message@,
    }
}

impl VoltError {
    pub fn parse(message: String, line: usize, column: usize) -> (r: Self)
        ensures
            r matches VoltError::Parse { message: m, location: l } && m@ == message@ && l.line
                == line && l.column == column,
    {
        VoltError::Parse { message, location: SourceLocation::new(line, column) }
    }

    pub fn check(message: String, line: usize) -> (r: Self)
        ensures
            r matches VoltError::Check { message: m, line: l } && m@ == message@ && l == line,
    {
        VoltError::Check { message, line }
    }

    pub fn io(message: String) -> (r: Self)
        ensures
            r matches VoltError::Io { message: m } && m@ == message@,
    {
        VoltError::Io { message }
    }

    pub fn build(message: String) -> (r: Self)
        ensures
            r matches VoltError::Build { message: m } && m@ == message@,
    {
        VoltError::Build { message }
    }

    pub fn codegen(message: String) -> (r: Self)
        ensures
            r matches VoltError::Codegen { message: m } && m@ == message@,
    {
        VoltError::Codegen { message }
    }

    pub fn to_string(&self) -> (r: String)
        ensures
            r@ == error_text(*self),
    {
        match self {
            VoltError::Parse { message, location } => {
                let mut out = String::from_str("parse error: ");
                out.append(message.as_str());
                out.append(" (");
                let loc = location.to_string();
                out.append(loc.as_str());
                out.append(")");
                out
            },
            VoltError::Check { message, .. } => message.clone(),
            VoltError::Io { message } => {
                let out = String::from_str("io error: ");
                out.concat(message.as_str())
            },
            VoltError::Build { message } => {
                let out = String::from_str("build error: ");
                out.concat(message.as_str())
            },
            VoltError::Codegen { message } => {
                let out = String::from_str("codegen error: ");
                out.concat(message.as_str())
            },
        }
    }
}

} // verus!
