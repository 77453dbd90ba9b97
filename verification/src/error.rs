//! The typed failures of the engine.

use vstd::prelude::*;
use crate::oid::ObjectId;

verus! {

/// The classes of failure.
#[derive(Clone, Copy, Debug, PartialEq, Eq, Structural)]
pub enum ErrorKind {
    /// An object, reference, branch, stash entry or path does not exist.
    NotFound,
    /// Stored data contradicts itself: a hash mismatch, a malformed object,
    /// a cycle among commits or references.
    Corrupt,
    /// An operation met unresolved merge conflicts.
    Conflict,
    /// A reference changed under a compare-and-swap.
    ConcurrentModification,
    /// A malformed id, an unknown mode, an invalid name.
    InvalidArgument,
    /// A feature that is deliberately not provided.
    Unsupported,
    /// The storage backend failed.
    IOFailure,
}

/// The operation during which a failure arose.
#[derive(Clone, Copy, Debug, PartialEq, Eq, Structural)]
pub enum Operation {
    Hash,
    Put,
    Get,
    ReadRef,
    WriteRef,
    DeleteRef,
    ResolveRef,
    Stage,
    Unstage,
    WriteTree,
    ReadTree,
    Conflicts,
    Walk,
    Merge,
    Rebase,
    Stash,
    Branch,
    Reset,
    Submodule,
    Commit,
    CherryPick,
    Log,
    Status,
    Remote,
    Pull,
}

/// What a failure is about.
#[derive(Clone, Debug, PartialEq, Eq)]
pub enum Subject {
    /// Nothing in particular.
    Nothing,
    /// An object id.
    Object(ObjectId),
    /// A reference name or a path.
    Name(Vec<u8>),
    /// A position in the stash stack or in a plan.
    Position(usize),
}

/// A failure: its class, the operation that met it and what it is about.
#[derive(Clone, Debug, PartialEq, Eq)]
pub struct EngineError {
    pub kind: ErrorKind,
    pub operation: Operation,
    pub subject: Subject,
}

impl EngineError {
    /// A failure of class `kind` in `operation` about the object `id`.
    pub fn about_object(kind: ErrorKind, operation: Operation, id: ObjectId) -> (e: EngineError)
        ensures
            e.kind == kind,
            e.operation == operation,
            e.subject == Subject::Object(id),
    {
        EngineError { kind, operation, subject: Subject::Object(id) }
    }

    /// A failure of class `kind` in `operation` about the name or path `name`.
    pub fn about_name(kind: ErrorKind, operation: Operation, name: &[u8]) -> (e: EngineError)
        ensures
            e.kind == kind,
            e.operation == operation,
            e.subject matches Subject::Name(n) && n@ == name@,
    {
        EngineError { kind, operation, subject: Subject::Name(crate::bytes::bytes_copy(name)) }
    }

    /// A failure of class `kind` in `operation` about position `at`.
    pub fn about_position(kind: ErrorKind, operation: Operation, at: usize) -> (e: EngineError)
        ensures
            e.kind == kind,
            e.operation == operation,
            e.subject == Subject::Position(at),
    {
        EngineError { kind, operation, subject: Subject::Position(at) }
    }

    /// The same failure, about the same subject, reported as one of
    /// `operation`: the operation that the caller asked for, in the course
    /// of which it arose.
    pub fn during(self, operation: Operation) -> (e: EngineError)
        ensures
            e.kind == self.kind,
            e.operation == operation,
            e.subject == self.subject,
    {
        EngineError { kind: self.kind, operation, subject: self.subject }
    }

    /// A failure of class `kind` in `operation` with no particular subject.
    pub fn plain(kind: ErrorKind, operation: Operation) -> (e: EngineError)
        ensures
            e.kind == kind,
            e.operation == operation,
            e.subject == Subject::Nothing,
    {
        EngineError { kind, operation, subject: Subject::Nothing }
    }
}

} // verus!
