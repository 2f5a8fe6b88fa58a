//! The failures of compiling and of expanding templates.

use vstd::prelude::*;

use crate::strings::{text_of, MiniStr};

verus! {

/// A failure as a mathematical value.
pub enum SpecError {
    UndefinedVariable(Seq<char>),
    MissingParameter(Seq<char>),
    NoDefaultBranch(Seq<char>),
    ParseError(Seq<char>),
    CycleDetected(Seq<char>),
}

/// Why a template could not be compiled or expanded.
#[derive(Debug, Clone)]
pub enum ResolverError {
    /// A key, asked for or referred to by `{name}`, that the resolver
    /// does not hold.
    UndefinedVariable(MiniStr),
    /// A parameter, referred to by `{$name}` or by a selector, that the
    /// context does not hold.
    MissingParameter(MiniStr),
    /// A selector on the named parameter that has no case for its value
    /// and no default.
    NoDefaultBranch(MiniStr),
    /// A source that is no template, with a message that names the key.
    ParseError(MiniStr),
    /// A chain of `{name}` references that goes deeper than
    /// [`MAX_DEPTH`](crate::parsers::process_tmpl::MAX_DEPTH), as every
    /// cycle of references does; the name is the reference at which the
    /// expansion stopped.
    CycleDetected(MiniStr),
}

pub type ResolverResult<T> = Result<T, ResolverError>;

impl View for ResolverError {
    type V = SpecError;

    open spec fn view(&self) -> SpecError {
        match self {
            ResolverError::UndefinedVariable(name) => SpecError::UndefinedVariable(text_of(*name)),
            ResolverError::MissingParameter(name) => SpecError::MissingParameter(text_of(*name)),
            ResolverError::NoDefaultBranch(name) => SpecError::NoDefaultBranch(text_of(*name)),
            ResolverError::ParseError(message) => SpecError::ParseError(text_of(*message)),
            ResolverError::CycleDetected(name) => SpecError::CycleDetected(text_of(*name)),
        }
    }
}

/// The text that describes a failure.
pub open spec fn message_of(e: SpecError) -> Seq<char> {
    match e {
        SpecError::UndefinedVariable(name) => "Undefined variable: "@ + name,
        SpecError::MissingParameter(name) => "Missing paramter: "@ + name,
        SpecError::NoDefaultBranch(name) => "No default branch: "@ + name,
        SpecError::ParseError(message) => "Parse error: "@ + message,
        SpecError::CycleDetected(name) => "Cycle detected: "@ + name,
    }
}

impl ResolverError {
    /// The text that describes the failure: what it is, a colon, and the
    /// name or message that it carries.
    pub fn message(&self) -> (r: MiniStr)
        ensures
            text_of(r) == message_of(self@),
    {
        match self {
            ResolverError::UndefinedVariable(name) => {
                let mut r = MiniStr::const_new("Undefined variable: ");
                r.push_str(name.as_str());
                r
            },
            ResolverError::MissingParameter(name) => {
                let mut r = MiniStr::const_new("Missing paramter: ");
                r.push_str(name.as_str());
                r
            },
            ResolverError::NoDefaultBranch(name) => {
                let mut r = MiniStr::const_new("No default branch: ");
                r.push_str(name.as_str());
                r
            },
            ResolverError::ParseError(message) => {
                let mut r = MiniStr::const_new("Parse error: ");
                r.push_str(message.as_str());
                r
            },
            ResolverError::CycleDetected(name) => {
                let mut r = MiniStr::const_new("Cycle detected: ");
                r.push_str(name.as_str());
                r
            },
        }
    }
}

/// The outcome of an expansion as a mathematical value.
pub open spec fn outcome_of(r: ResolverResult<MiniStr>) -> Result<Seq<char>, SpecError> {
    match r {
        Ok(text) => Ok(text_of(text)),
        Err(e) => Err(e@),
    }
}

} // verus!
