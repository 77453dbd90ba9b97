//! Submodules, which this engine deliberately does not provide.

use vstd::prelude::*;
use crate::error::{EngineError, ErrorKind, Operation, Subject};
use crate::oid::ObjectId;

verus! {

/// The state of a submodule.
#[derive(Clone, Copy, Debug, PartialEq, Eq, Structural)]
pub enum SubmoduleStatus {
    Uninitialized,
    Initialized,
    Modified,
    UpToDate,
}

/// A submodule as it would be listed.
#[derive(Clone, Debug, PartialEq, Eq)]
pub struct Submodule {
    pub name: Vec<u8>,
    pub path: Vec<u8>,
    pub url: Vec<u8>,
    pub branch: Option<Vec<u8>>,
    pub head_id: ObjectId,
    pub workdir_id: Option<ObjectId>,
    pub status: SubmoduleStatus,
}

/// The submodules of a repository: none, as they are not provided.
pub fn get_submodules() -> (r: Vec<Submodule>)
    ensures
        r@.len() == 0,
{
    Vec::new()
}

/// The failure of every operation that would change submodules.
pub fn submodules_unsupported() -> (e: EngineError)
    ensures
        e.kind == ErrorKind::Unsupported,
        e.operation == Operation::Submodule,
        e.subject == Subject::Nothing,
{
    EngineError::plain(ErrorKind::Unsupported, Operation::Submodule)
}

/// Adding a submodule is not provided.
pub fn add_submodule(url: &[u8], path: &[u8], branch: Option<&[u8]>) -> (r: Result<(), EngineError>)
    ensures
        r matches Err(e) && e.kind == ErrorKind::Unsupported,
{
    Err(submodules_unsupported())
}

/// Updating a submodule is not provided.
pub fn update_submodule(name: &[u8], recursive: bool) -> (r: Result<(), EngineError>)
    ensures
        r matches Err(e) && e.kind == ErrorKind::Unsupported,
{
    Err(submodules_unsupported())
}

/// Removing a submodule is not provided.
pub fn remove_submodule(name: &[u8]) -> (r: Result<(), EngineError>)
    ensures
        r matches Err(e) && e.kind == ErrorKind::Unsupported,
{
    Err(submodules_unsupported())
}

/// Initializing a submodule is not provided.
pub fn init_submodule(name: &[u8]) -> (r: Result<(), EngineError>)
    ensures
        r matches Err(e) && e.kind == ErrorKind::Unsupported,
{
    Err(submodules_unsupported())
}

/// Synchronizing a submodule is not provided.
pub fn sync_submodule(name: &[u8]) -> (r: Result<(), EngineError>)
    ensures
        r matches Err(e) && e.kind == ErrorKind::Unsupported,
{
    Err(submodules_unsupported())
}

} // verus!
