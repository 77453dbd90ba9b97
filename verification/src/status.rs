//! The status of the working tree against the index and the last commit.

use vstd::prelude::*;
use crate::bytes::bytes_copy;
use crate::error::{EngineError, ErrorKind, Operation};
use crate::history::get_commit;
use crate::index::{Index, Slot};
use crate::keys::{lemma_table_at, lines};
use crate::nested::{tree_read, Flat};
use crate::oid::{content_id, ObjectId, ObjectKind};
use crate::rebase::commit_read;
use crate::repo::{head_state, Repository};
use crate::store::Objects;

verus! {

/// The paths that differ, by the kind of difference, each list in
/// ascending order.
#[derive(Clone, Debug, PartialEq, Eq)]
pub struct Status {
    /// Tracked files whose content in the working tree is not what is
    /// staged.
    pub modified: Vec<Vec<u8>>,
    /// Staged paths that the last commit does not know.
    pub added: Vec<Vec<u8>>,
    /// Tracked files that are gone from the working tree.
    pub deleted: Vec<Vec<u8>>,
    /// Files of the working tree that are not tracked.
    pub untracked: Vec<Vec<u8>>,
}

/// The file at `p` is tracked and its content in the working tree is not
/// what is staged for it. A path in conflict counts as modified.
pub open spec fn is_modified(x: Map<Seq<u8>, Slot>, work: Map<Seq<u8>, Seq<u8>>, p: Seq<u8>) -> bool {
    work.contains_key(p) && x.contains_key(p) && match x[p] {
        Slot::Resolved(item) => content_id(ObjectKind::Blob, work[p]) != Some(item.id),
        Slot::Conflicted { .. } => true,
    }
}

/// The tree of the commit of `HEAD`; the empty tree while `HEAD` names no
/// commit.
pub open spec fn head_tree(m: Objects, tip: Option<ObjectId>) -> Result<Flat, ErrorKind> {
    match tip {
        None => Ok(Map::empty()),
        Some(head) => match commit_read(m, head) {
            Err(k) => Err(k),
            Ok(c) => tree_read(m, c.tree),
        },
    }
}

impl Repository {
    /// The status: which tracked files are modified or deleted in the
    /// working tree, which staged paths are new against the commit of
    /// `HEAD`, and which files are not tracked.
    pub fn get_repository_status(&self) -> (r: Result<Status, EngineError>)
        requires
            self.wf(),
        ensures
            r matches Err(e) ==> e.operation == Operation::Status,
            match r {
                Ok(s) => {
                    &&& head_state(self.refs@) matches Ok((leaf, tip))
                    &&& head_tree(self.objects@, tip) matches Ok(t)
                    &&& lines(s.modified@) == self.index@.paths.filter(
                        |p: Seq<u8>| is_modified(self.index@.map(), self.workdir@.map(), p),
                    )
                    &&& lines(s.added@) == self.index@.paths.filter(
                        |p: Seq<u8>| !t.contains_key(p),
                    )
                    &&& lines(s.deleted@) == self.index@.paths.filter(
                        |p: Seq<u8>| !self.workdir@.map().contains_key(p),
                    )
                    &&& lines(s.untracked@) == self.workdir@.paths.filter(
                        |p: Seq<u8>| !self.index@.map().contains_key(p),
                    )
                },
                Err(e) => match head_state(self.refs@) {
                    Err(k) => e.kind == k,
                    Ok((leaf, tip)) => head_tree(self.objects@, tip) == Err::<Flat, ErrorKind>(
                        e.kind,
                    ),
                },
            },
    {
        let tip = match self.head_state() {
            Ok((_, tip)) => tip,
            Err(e) => {
                return Err(e.during(Operation::Status));
            },
        };
        let committed = match tip {
            None => {
                let x = Index::new();
                assert(x@.items() =~= Map::<Seq<u8>, crate::object::TreeItem>::empty());
                x
            },
            Some(head) => {
                let tree = match get_commit(&self.objects, head, Operation::ReadTree) {
                    Ok(c) => c.tree,
                    Err(e) => {
                        return Err(e.during(Operation::Status));
                    },
                };
                match Index::from_tree(&self.objects, tree) {
                    Ok(t) => t,
                    Err(e) => {
                        return Err(e.during(Operation::Status));
                    },
                }
            },
        };
        let mut modified: Vec<Vec<u8>> = Vec::new();
        let mut added: Vec<Vec<u8>> = Vec::new();
        let mut deleted: Vec<Vec<u8>> = Vec::new();
        let ghost t = committed@.items();
        let ghost is_mod = |p: Seq<u8>| is_modified(self.index@.map(), self.workdir@.map(), p);
        let ghost is_new = |p: Seq<u8>| !t.contains_key(p);
        let ghost is_gone = |p: Seq<u8>| !self.workdir@.map().contains_key(p);
        let mut i: usize = 0;
        proof {
            reveal(Seq::filter);
            assert(self.index@.paths.take(0) =~= Seq::<Seq<u8>>::empty());
            assert(lines(modified@) =~= Seq::<Seq<u8>>::empty());
            assert(lines(added@) =~= Seq::<Seq<u8>>::empty());
            assert(lines(deleted@) =~= Seq::<Seq<u8>>::empty());
        }
        while i < self.index.len()
            invariant
                self.wf(),
                committed.wf(),
                t == committed@.items(),
                i <= self.index@.paths.len(),
                is_mod == (|p: Seq<u8>| is_modified(self.index@.map(), self.workdir@.map(), p)),
                is_new == (|p: Seq<u8>| !t.contains_key(p)),
                is_gone == (|p: Seq<u8>| !self.workdir@.map().contains_key(p)),
                lines(modified@) == self.index@.paths.take(i as int).filter(is_mod),
                lines(added@) == self.index@.paths.take(i as int).filter(is_new),
                lines(deleted@) == self.index@.paths.take(i as int).filter(is_gone),
            decreases self.index@.paths.len() - i,
        {
            let path = self.index.path_at(i);
            let slot = self.index.slot_at(i);
            let ghost m0 = lines(modified@);
            let ghost a0 = lines(added@);
            let ghost d0 = lines(deleted@);
            proof {
                let s = self.index@.paths.take(i + 1);
                assert(s.drop_last() =~= self.index@.paths.take(i as int));
                assert(s.last() == path@);
                reveal(Seq::filter);
                lemma_table_at(self.index@.paths, self.index@.slots, i as int);
            }
            match self.workdir.read(path.as_slice()) {
                None => {
                    deleted.push(bytes_copy(path.as_slice()));
                    assert(lines(deleted@) =~= d0.push(path@));
                },
                Some(content) => {
                    let differs = match slot {
                        Slot::Resolved(item) => match ObjectId::of_content(
                            ObjectKind::Blob,
                            content.as_slice(),
                        ) {
                            Ok(id) => id != item.id,
                            Err(_) => true,
                        },
                        Slot::Conflicted { .. } => true,
                    };
                    if differs {
                        modified.push(bytes_copy(path.as_slice()));
                        assert(lines(modified@) =~= m0.push(path@));
                    }
                },
            }
            if committed.get(path.as_slice()).is_none() {
                added.push(bytes_copy(path.as_slice()));
                assert(lines(added@) =~= a0.push(path@));
            }
            i += 1;
        }
        assert(self.index@.paths.take(i as int) =~= self.index@.paths);
        let mut untracked: Vec<Vec<u8>> = Vec::new();
        let ghost is_free = |p: Seq<u8>| !self.index@.map().contains_key(p);
        let mut k: usize = 0;
        proof {
            reveal(Seq::filter);
            assert(self.workdir@.paths.take(0) =~= Seq::<Seq<u8>>::empty());
            assert(lines(untracked@) =~= Seq::<Seq<u8>>::empty());
        }
        while k < self.workdir.len()
            invariant
                self.wf(),
                k <= self.workdir@.paths.len(),
                is_free == (|p: Seq<u8>| !self.index@.map().contains_key(p)),
                lines(untracked@) == self.workdir@.paths.take(k as int).filter(is_free),
            decreases self.workdir@.paths.len() - k,
        {
            let path = self.workdir.path_at(k);
            let ghost u0 = lines(untracked@);
            proof {
                let s = self.workdir@.paths.take(k + 1);
                assert(s.drop_last() =~= self.workdir@.paths.take(k as int));
                assert(s.last() == path@);
                reveal(Seq::filter);
            }
            if self.index.get(path.as_slice()).is_none() {
                untracked.push(bytes_copy(path.as_slice()));
                assert(lines(untracked@) =~= u0.push(path@));
            }
            k += 1;
        }
        assert(self.workdir@.paths.take(k as int) =~= self.workdir@.paths);
        Ok(Status { modified, added, deleted, untracked })
    }
}

} // verus!
