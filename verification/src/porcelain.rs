//! Staging, branches and reset.

use vstd::prelude::*;
use crate::bytes::{bytes_copy, bytes_eq};
use crate::error::{EngineError, ErrorKind, Operation};
use crate::history::get_commit;
use crate::index::{Index, IndexView, Slot};
use crate::nested::tree_read;
use crate::interactive::only_objects_grew;
use crate::merge::entry_of;
use crate::object::{FileMode, ObjectView, TreeItem};
use crate::oid::{parse_id, ObjectId};
use crate::rebase::commit_read;
use crate::refs::{resolved, RefTarget, TargetView};
use crate::repo::{advance, branch_name, branch_ref, checkout, checkout_of, head, head_state,
    lemma_head_state, Repository};
use crate::refs::head_name;
use crate::store::{stored, Objects};
use crate::worktree::{carried, WorkView};

verus! {

/// How far a reset goes.
#[derive(Clone, Copy, Debug, PartialEq, Eq, Structural)]
pub enum ResetMode {
    /// Only the branch moves.
    Soft,
    /// The branch moves and the index is that of the commit.
    Mixed,
    /// The branch moves, the index is that of the commit, and its files
    /// take the place of the files of the index before.
    Hard,
}

/// `soft`
pub open spec fn soft_word() -> Seq<u8> {
    seq![115u8, 111u8, 102u8, 116u8]
}

/// `mixed`
pub open spec fn mixed_word() -> Seq<u8> {
    seq![109u8, 105u8, 120u8, 101u8, 100u8]
}

/// `hard`
pub open spec fn hard_word() -> Seq<u8> {
    seq![104u8, 97u8, 114u8, 100u8]
}

/// The mode that a word names: `soft`, `mixed` or `hard`.
pub open spec fn mode_of(word: Seq<u8>) -> Option<ResetMode> {
    if word == soft_word() {
        Some(ResetMode::Soft)
    } else if word == mixed_word() {
        Some(ResetMode::Mixed)
    } else if word == hard_word() {
        Some(ResetMode::Hard)
    } else {
        None
    }
}

/// The mode that a word names; any word but `soft`, `mixed` and `hard` is
/// an invalid argument.
pub fn parse_reset_mode(word: &[u8]) -> (r: Result<ResetMode, EngineError>)
    ensures
        r matches Err(e) ==> e.operation == Operation::Reset,
        match r {
            Ok(mode) => mode_of(word@) == Some(mode),
            Err(e) => mode_of(word@) is None && e.kind == ErrorKind::InvalidArgument && e.operation
                == Operation::Reset,
        },
{
    let soft: Vec<u8> = vec![115u8, 111u8, 102u8, 116u8];
    let mixed: Vec<u8> = vec![109u8, 105u8, 120u8, 101u8, 100u8];
    let hard: Vec<u8> = vec![104u8, 97u8, 114u8, 100u8];
    assert(soft@ =~= soft_word());
    assert(mixed@ =~= mixed_word());
    assert(hard@ =~= hard_word());
    if bytes_eq(word, soft.as_slice()) {
        Ok(ResetMode::Soft)
    } else if bytes_eq(word, mixed.as_slice()) {
        Ok(ResetMode::Mixed)
    } else if bytes_eq(word, hard.as_slice()) {
        Ok(ResetMode::Hard)
    } else {
        Err(EngineError::about_name(ErrorKind::InvalidArgument, Operation::Reset, word))
    }
}

/// What the tree of the commit `head` holds for `path`.
pub open spec fn committed_entry(m: Objects, head: ObjectId, path: Seq<u8>) -> Result<
    Option<TreeItem>,
    ErrorKind,
> {
    match commit_read(m, head) {
        Err(k) => Err(k),
        Ok(c) => match tree_read(m, c.tree) {
            Err(k) => Err(k),
            Ok(t) => Ok(entry_of(t, path)),
        },
    }
}

impl Repository {
    /// Stages the file at `path` as it is in the working tree: stores its
    /// content and writes or overwrites the stage-0 entry of the path.
    /// Fails with `NotFound`, changing nothing, where the working tree has
    /// no such file.
    pub fn stage_file(&mut self, path: &[u8]) -> (r: Result<ObjectId, EngineError>)
        requires
            old(self).wf(),
        ensures
            r matches Err(e) ==> e.operation == Operation::Stage,
            final(self).wf(),
            final(self).refs@ == old(self).refs@,
            final(self).workdir@ == old(self).workdir@,
            final(self).stashes == old(self).stashes,
            final(self).rebase == old(self).rebase,
            match r {
                Ok(id) => {
                    &&& old(self).workdir@.map().contains_key(path@)
                    &&& path@.len() > 0
                    &&& stored(
                        old(self).objects@,
                        ObjectView::Blob(old(self).workdir@.map()[path@]),
                    ) == Ok::<(ObjectId, Objects), ErrorKind>((id, final(self).objects@))
                    &&& final(self).index@.map() == old(self).index@.map().insert(
                        path@,
                        Slot::Resolved(TreeItem { mode: FileMode::Regular, id }),
                    )
                },
                Err(e) => {
                    &&& final(self).objects@ == old(self).objects@
                    &&& final(self).index@ == old(self).index@
                    &&& if !old(self).workdir@.map().contains_key(path@) {
                        e.kind == ErrorKind::NotFound
                    } else if path@.len() == 0 {
                        e.kind == ErrorKind::InvalidArgument
                    } else {
                        stored(
                            old(self).objects@,
                            ObjectView::Blob(old(self).workdir@.map()[path@]),
                        ) == Err::<(ObjectId, Objects), ErrorKind>(e.kind)
                    }
                },
            },
    {
        let content = match self.workdir.read(path) {
            Some(c) => bytes_copy(c.as_slice()),
            None => {
                return Err(EngineError::about_name(ErrorKind::NotFound, Operation::Stage, path));
            },
        };
        match self.index.add(&mut self.objects, path, content.as_slice()) {
            Ok(id) => Ok(id),
            Err(e) => Err(e.during(Operation::Stage)),
        }
    }

    /// Takes the changes of `path` out of the index: the index then holds
    /// for the path what the commit of `HEAD` holds for it, and nothing
    /// where that commit does not know the path. Fails, changing nothing,
    /// where `HEAD` names no commit or its tree cannot be read.
    pub fn unstage_file(&mut self, path: &[u8]) -> (r: Result<(), EngineError>)
        requires
            old(self).wf(),
        ensures
            r matches Err(e) ==> e.operation == Operation::Unstage,
            final(self).wf(),
            final(self).objects@ == old(self).objects@,
            final(self).refs@ == old(self).refs@,
            final(self).workdir@ == old(self).workdir@,
            final(self).stashes == old(self).stashes,
            final(self).rebase == old(self).rebase,
            match r {
                Ok(()) => {
                    &&& head_state(old(self).refs@) matches Ok((leaf, Some(head)))
                    &&& committed_entry(old(self).objects@, head, path@) matches Ok(entry)
                    &&& final(self).index@.map() == (match entry {
                        Some(item) => old(self).index@.map().insert(path@, Slot::Resolved(item)),
                        None => old(self).index@.map().remove(path@),
                    })
                },
                Err(e) => final(self).index@ == old(self).index@ && match head_state(
                    old(self).refs@,
                ) {
                    Err(k) => e.kind == k,
                    Ok((leaf, None)) => e.kind == ErrorKind::NotFound,
                    Ok((leaf, Some(head))) => committed_entry(old(self).objects@, head, path@)
                        == Err::<Option<TreeItem>, ErrorKind>(e.kind),
                },
            },
    {
        let head = match self.head_state() {
            Ok((_, Some(head))) => head,
            Ok((leaf, None)) => {
                return Err(
                    EngineError::about_name(ErrorKind::NotFound, Operation::Unstage, leaf.as_slice()),
                );
            },
            Err(e) => {
                return Err(e.during(Operation::Unstage));
            },
        };
        let tree = match get_commit(&self.objects, head, Operation::Unstage) {
            Ok(c) => c.tree,
            Err(e) => {
                return Err(e.during(Operation::Unstage));
            },
        };
        let entry = match Index::from_tree(&self.objects, tree) {
            Ok(t) => {
                proof {
                    crate::merge::lemma_resolved_map(t@);
                }
                match t.get(path) {
                    Some(Slot::Resolved(item)) => Some(item),
                    _ => None,
                }
            },
            Err(e) => {
                return Err(e.during(Operation::Unstage));
            },
        };
        match entry {
            Some(item) => {
                self.index.stage(path, item);
            },
            None => {
                let ghost before = self.index@;
                match self.index.remove(path) {
                    Ok(()) => {},
                    Err(_) => {
                        assert(before.map().remove(path@) =~= before.map());
                    },
                }
            },
        }
        Ok(())
    }

    /// Creates the branch `name` at the commit of `HEAD`. Fails, changing
    /// nothing, with `InvalidArgument` where the name is empty or the
    /// branch exists, with `NotFound` where `HEAD` names no commit.
    pub fn create_branch(&mut self, name: &[u8]) -> (r: Result<ObjectId, EngineError>)
        requires
            old(self).wf(),
        ensures
            r matches Err(e) ==> e.operation == Operation::Branch,
            final(self).wf(),
            final(self).objects@ == old(self).objects@,
            final(self).index@ == old(self).index@,
            final(self).workdir@ == old(self).workdir@,
            final(self).stashes == old(self).stashes,
            final(self).rebase == old(self).rebase,
            match r {
                Ok(id) => {
                    &&& name@.len() > 0
                    &&& !old(self).refs@.contains_key(branch_ref(name@))
                    &&& head_state(old(self).refs@) matches Ok((leaf, Some(head)))
                    &&& id == head
                    &&& final(self).refs@ == old(self).refs@.insert(
                        branch_ref(name@),
                        TargetView::Direct(head),
                    )
                },
                Err(e) => final(self).refs@ == old(self).refs@ && e.kind == (if name@.len() == 0
                    || old(self).refs@.contains_key(branch_ref(name@)) {
                    ErrorKind::InvalidArgument
                } else {
                    match head_state(old(self).refs@) {
                        Err(k) => k,
                        Ok(_) => ErrorKind::NotFound,
                    }
                }) && (name@.len() == 0 || old(self).refs@.contains_key(branch_ref(name@)) || !(
                head_state(old(self).refs@) matches Ok((leaf, Some(head))))),
            },
    {
        let full = branch_name(name);
        if name.len() == 0 || self.refs.read(full.as_slice()).is_ok() {
            return Err(EngineError::about_name(ErrorKind::InvalidArgument, Operation::Branch, name));
        }
        let head = match self.head_state() {
            Ok((_, Some(head))) => head,
            Ok((leaf, None)) => {
                return Err(
                    EngineError::about_name(ErrorKind::NotFound, Operation::Branch, leaf.as_slice()),
                );
            },
            Err(e) => {
                return Err(e.during(Operation::Branch));
            },
        };
        match advance(&mut self.refs, full.as_slice(), None, head) {
            Ok(()) => Ok(head),
            Err(e) => Err(e.during(Operation::Branch)),
        }
    }

    /// Switches to the branch `name`: checks its commit out and makes
    /// `HEAD` name the branch. The files of the commit take the place of
    /// the files of the index before; a file that neither index binds
    /// stays as it is. Fails, changing nothing, where the branch does not
    /// resolve or its commit cannot be checked out.
    pub fn switch_branch(&mut self, name: &[u8]) -> (r: Result<ObjectId, EngineError>)
        requires
            old(self).wf(),
        ensures
            r matches Err(e) ==> e.operation == Operation::Branch,
            final(self).wf(),
            final(self).objects@ == old(self).objects@,
            final(self).stashes == old(self).stashes,
            final(self).rebase == old(self).rebase,
            match r {
                Ok(id) => {
                    &&& resolved(old(self).refs@, branch_ref(name@)) == Ok::<ObjectId, ErrorKind>(id)
                    &&& checkout_of(old(self).objects@, id) matches Ok((x, w))
                    &&& final(self).index@ == x
                    &&& final(self).workdir@ == carried(old(self).workdir@, old(self).index@, w)
                    &&& final(self).refs@ == old(self).refs@.insert(
                        head_name(),
                        TargetView::Symbolic(branch_ref(name@)),
                    )
                },
                Err(e) => only_objects_grew(*old(self), *final(self)) && match resolved(
                    old(self).refs@,
                    branch_ref(name@),
                ) {
                    Err(k) => e.kind == k,
                    Ok(id) => checkout_of(old(self).objects@, id) == Err::<
                        (IndexView, WorkView),
                        ErrorKind,
                    >(e.kind),
                },
            },
    {
        let full = branch_name(name);
        let id = match self.refs.resolve(full.as_slice()) {
            Ok(id) => id,
            Err(e) => {
                return Err(e.during(Operation::Branch));
            },
        };
        let (x, w) = match checkout(&self.objects, id, Operation::Branch) {
            Ok(pair) => pair,
            Err(e) => {
                return Err(e.during(Operation::Branch));
            },
        };
        self.workdir = self.workdir.carry(&self.index, w);
        self.index = x;
        self.refs.set(head().as_slice(), RefTarget::Symbolic(full));
        Ok(id)
    }

    /// Moves the branch of `HEAD` to the commit whose id `hex` spells. The
    /// mode `soft` leaves it at that; `mixed` also makes the index that of
    /// the commit; `hard` also puts the files of the commit in the place
    /// of the files of the index before, and leaves alone a file that
    /// neither index binds. Fails, changing nothing,
    /// with `InvalidArgument` where `hex` is no id or `mode` no mode, and
    /// where the commit cannot be read or checked out.
    pub fn reset_to_commit(&mut self, hex: &[u8], mode: &[u8]) -> (r: Result<ResetMode, EngineError>)
        requires
            old(self).wf(),
        ensures
            r matches Err(e) ==> e.operation == Operation::Reset,
            final(self).wf(),
            final(self).objects@ == old(self).objects@,
            final(self).stashes == old(self).stashes,
            final(self).rebase == old(self).rebase,
            match r {
                Ok(how) => {
                    &&& parse_id(hex@) matches Some(id)
                    &&& mode_of(mode@) == Some(how)
                    &&& head_state(old(self).refs@) matches Ok((leaf, tip))
                    &&& checkout_of(old(self).objects@, id) matches Ok((x, w))
                    &&& final(self).refs@ == old(self).refs@.insert(leaf, TargetView::Direct(id))
                    &&& final(self).index@ == (if how == ResetMode::Soft {
                        old(self).index@
                    } else {
                        x
                    })
                    &&& final(self).workdir@ == (if how == ResetMode::Hard {
                        carried(old(self).workdir@, old(self).index@, w)
                    } else {
                        old(self).workdir@
                    })
                },
                Err(e) => only_objects_grew(*old(self), *final(self)) && match parse_id(hex@) {
                    None => e.kind == ErrorKind::InvalidArgument,
                    Some(id) => match commit_read(old(self).objects@, id) {
                        Err(k) => e.kind == k,
                        Ok(_) => if mode_of(mode@) is None {
                            e.kind == ErrorKind::InvalidArgument
                        } else {
                            match head_state(old(self).refs@) {
                                Err(k) => e.kind == k,
                                Ok(_) => checkout_of(old(self).objects@, id) == Err::<
                                    (IndexView, WorkView),
                                    ErrorKind,
                                >(e.kind),
                            }
                        },
                    },
                },
            },
    {
        let id = match ObjectId::from_hex(hex) {
            Ok(id) => id,
            Err(e) => {
                return Err(e.during(Operation::Reset));
            },
        };
        match get_commit(&self.objects, id, Operation::Reset) {
            Ok(_) => {},
            Err(e) => {
                return Err(e.during(Operation::Reset));
            },
        }
        let how = match parse_reset_mode(mode) {
            Ok(m) => m,
            Err(e) => {
                return Err(e.during(Operation::Reset));
            },
        };
        let (leaf, tip) = match self.head_state() {
            Ok(pair) => pair,
            Err(e) => {
                return Err(e.during(Operation::Reset));
            },
        };
        let (x, w) = match checkout(&self.objects, id, Operation::Reset) {
            Ok(pair) => pair,
            Err(e) => {
                return Err(e.during(Operation::Reset));
            },
        };
        proof {
            lemma_head_state(self.refs@);
        }
        match advance(&mut self.refs, leaf.as_slice(), tip, id) {
            Ok(()) => {},
            Err(e) => {
                return Err(e.during(Operation::Reset));
            },
        }
        match how {
            ResetMode::Soft => {},
            ResetMode::Mixed => {
                self.index = x;
            },
            ResetMode::Hard => {
                self.workdir = self.workdir.carry(&self.index, w);
                self.index = x;
            },
        }
        Ok(how)
    }
}

} // verus!
