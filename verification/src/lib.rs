//! A version-control engine with machine-checked contracts.
//!
//! The engine keeps a repository in memory: a content-addressed object
//! store, references that change by compare-and-swap, an index with
//! conflict stages, a working tree and a stash. On these it walks history,
//! finds merge bases, merges trees three ways, and replays commits in a
//! rebase that can pause for the caller and be aborted.
//!
//! Every function states what it returns and changes over mathematical
//! views of the data, and the statement is proved. Ids are what
//! `git2::Oid::hash_object` computes for the canonical content of an
//! object; nothing else is taken on trust.
//!
//! The modules, leaves first:
//!
//! - [`bytes`], [`paths`], [`keys`]: byte strings, paths, and tables kept in
//!   the order of their keys;
//! - [`error`]: the typed failures;
//! - [`oid`], [`object`], [`store`]: ids, objects with their canonical
//!   content, and the object store;
//! - [`refs`]: the reference store;
//! - [`index`], [`nested`], [`worktree`]: the staging area, the trees that
//!   are written from it bottom-up and read back flat, and the files as
//!   they are checked out;
//! - [`history`], [`walk`], [`merge`]: reachability and generations, the
//!   revision walker, merge bases and the three-way merge;
//! - [`rebase`]: the state machine that replays a plan of commits;
//! - [`repo`] and, on it, [`interactive`], [`merging`], [`stash`],
//!   [`porcelain`], [`log`], [`status`], [`remotes`]: the repository and
//!   its operations;
//! - [`submodule`], [`discovery`]: what is not provided, and small helpers
//!   for listing repositories and showing files;
//! - [`migration`]: which records of the application's settings are to be
//!   saved when they are taken over from the browser's storage.

pub mod bytes;
pub mod paths;
pub mod keys;
pub mod error;
pub mod oid;
pub mod object;
pub mod store;
pub mod refs;
pub mod index;
pub mod nested;
pub mod worktree;
pub mod history;
pub mod merge;
pub mod walk;
pub mod rebase;
pub mod stash;
pub mod repo;
pub mod interactive;
pub mod merging;
pub mod porcelain;
pub mod log;
pub mod status;
pub mod remotes;
pub mod submodule;
pub mod discovery;
pub mod migration;
