//! The stash: snapshots of uncommitted work, kept as a stack.

use vstd::prelude::*;
use crate::bytes::{bytes_append, bytes_copy};
use crate::error::{EngineError, ErrorKind, Operation};
use crate::history::get_commit;
use crate::index::{conflict_paths, Index, IndexView, Slot};
use crate::interactive::only_objects_grew;
use crate::keys::lines;
use crate::merge::{merge_of, three_way_merge, MergeView};
use crate::nested::tree_written;
use crate::object::{Commit, CommitView, FileMode, Object, ObjectView, Signature, SignatureView,
    TreeItem};
use crate::oid::ObjectId;
use crate::rebase::commit_read;
use crate::repo::{checkout, checkout_of, head_state, Repository};
use crate::store::{stored, ObjectStore, Objects};
use crate::worktree::{carried, materialized, WorkTree, WorkView};

verus! {

/// An entry of the stash stack: the message, who saved it and when, and
/// the synthetic commit that holds the snapshot. Its position in the stack
/// is its index; position 0 is the most recent entry.
#[derive(Clone, Debug, PartialEq, Eq)]
pub struct StashEntry {
    pub message: Vec<u8>,
    pub author: Vec<u8>,
    pub timestamp: i64,
    pub commit: ObjectId,
}

/// A value of [`StashEntry`] as a value of mathematics.
pub struct StashView {
    pub message: Seq<u8>,
    pub author: Seq<u8>,
    pub timestamp: i64,
    pub commit: ObjectId,
}

impl View for StashEntry {
    type V = StashView;

    open spec fn view(&self) -> StashView {
        StashView {
            message: self.message@,
            author: self.author@,
            timestamp: self.timestamp,
            commit: self.commit,
        }
    }
}

impl StashEntry {
    /// A copy of the entry.
    pub fn copy(&self) -> (e: StashEntry)
        ensures
            e@ == self@,
    {
        StashEntry {
            message: bytes_copy(self.message.as_slice()),
            author: bytes_copy(self.author.as_slice()),
            timestamp: self.timestamp,
            commit: self.commit,
        }
    }
}

/// The views of a stack of entries.
pub open spec fn stash_views(entries: Seq<StashEntry>) -> Seq<StashView> {
    Seq::new(entries.len(), |i: int| entries[i]@)
}

/// An entry of the stash as it is listed: its index in the stack and what
/// it says.
#[derive(Clone, Debug, PartialEq, Eq)]
pub struct StashInfo {
    pub index: usize,
    pub message: Vec<u8>,
    pub author: Vec<u8>,
    pub timestamp: i64,
    pub commit: ObjectId,
}

/// `index on: `
pub open spec fn index_word() -> Seq<u8> {
    seq![105u8, 110u8, 100u8, 101u8, 120u8, 32u8, 111u8, 110u8, 58u8, 32u8]
}

/// The snapshot of the tracked files as they are in the working tree: an
/// index that stages, for each of `paths` that the working tree `work`
/// holds, the content found there. A tracked file that is gone from the
/// working tree is not in the snapshot. The result is the bindings of that
/// index and the store with the contents.
pub open spec fn snapshot_of(m: Objects, paths: Seq<Seq<u8>>, work: Map<Seq<u8>, Seq<u8>>) -> Result<
    (Map<Seq<u8>, Slot>, Objects),
    ErrorKind,
>
    decreases paths.len(),
{
    if paths.len() == 0 {
        Ok((Map::empty(), m))
    } else {
        match snapshot_of(m, paths.drop_last(), work) {
            Err(k) => Err(k),
            Ok((x, m1)) => {
                let p = paths.last();
                if !work.contains_key(p) {
                    Ok((x, m1))
                } else if p.len() == 0 {
                    Err(ErrorKind::InvalidArgument)
                } else {
                    match stored(m1, ObjectView::Blob(work[p])) {
                        Err(k) => Err(k),
                        Ok((id, m2)) => Ok(
                            (
                                x.insert(
                                    p,
                                    Slot::Resolved(TreeItem { mode: FileMode::Regular, id }),
                                ),
                                m2,
                            ),
                        ),
                    }
                }
            },
        }
    }
}

/// A failure among the first paths is the failure of the whole.
pub proof fn lemma_snapshot_fail(m: Objects, paths: Seq<Seq<u8>>, work: Map<Seq<u8>, Seq<u8>>, i: int)
    requires
        0 <= i < paths.len(),
        snapshot_of(m, paths.take(i + 1), work) is Err,
    ensures
        snapshot_of(m, paths, work) is Err,
        snapshot_of(m, paths, work)->Err_0 == snapshot_of(m, paths.take(i + 1), work)->Err_0,
    decreases paths.len() - i,
{
    if i + 1 == paths.len() {
        assert(paths.take(i + 1) =~= paths);
    } else {
        assert(paths.drop_last().take(i + 1) =~= paths.take(i + 1));
        lemma_snapshot_fail(m, paths.drop_last(), work, i);
    }
}

/// The snapshot of the tracked files as they are in the working tree.
pub fn snapshot(store: &mut ObjectStore, index: &Index, workdir: &WorkTree) -> (r: Result<
    Index,
    EngineError,
>)
    requires
        old(store).wf(),
        index.wf(),
        workdir.wf(),
    ensures
        final(store).wf(),
        old(store)@.submap_of(final(store)@),
        match r {
            Ok(x) => x.wf() && !x@.has_conflicts() && snapshot_of(
                old(store)@,
                index@.paths,
                workdir@.map(),
            ) == Ok::<(Map<Seq<u8>, Slot>, Objects), ErrorKind>((x@.map(), final(store)@)),
            Err(e) => snapshot_of(old(store)@, index@.paths, workdir@.map()) is Err && snapshot_of(
                old(store)@,
                index@.paths,
                workdir@.map(),
            )->Err_0 == e.kind,
        },
{
    let mut x = Index::new();
    let mut i: usize = 0;
    assert(index@.paths.take(0) =~= Seq::<Seq<u8>>::empty());
    while i < index.len()
        invariant
            store.wf(),
            index.wf(),
            workdir.wf(),
            x.wf(),
            i <= index@.paths.len(),
            old(store)@.submap_of(store@),
            forall|j: int| 0 <= j < x@.slots.len() ==> !((#[trigger] x@.slots[j]) is Conflicted),
            snapshot_of(old(store)@, index@.paths.take(i as int), workdir@.map()) == Ok::<
                (Map<Seq<u8>, Slot>, Objects),
                ErrorKind,
            >((x@.map(), store@)),
        decreases index@.paths.len() - i,
    {
        let path = index.path_at(i);
        proof {
            assert(index@.paths.take(i + 1).drop_last() =~= index@.paths.take(i as int));
        }
        let ghost mid = store@;
        match workdir.read(path.as_slice()) {
            None => {},
            Some(content) => {
                let ghost before = x@;
                match x.add(store, path.as_slice(), content.as_slice()) {
                    Ok(_) => {
                        proof {
                            crate::store::lemma_extends_twice(old(store)@, mid, store@);
                            assert forall|j: int| 0 <= j < x@.slots.len() implies !((
                            #[trigger] x@.slots[j]) is Conflicted) by {
                                crate::keys::lemma_table_at(x@.paths, x@.slots, j);
                                let p = x@.paths[j];
                                if p != path@ {
                                    crate::keys::lemma_position_none(before.paths, p);
                                    let k = crate::keys::position(before.paths, p)->0;
                                    crate::keys::lemma_table_at(before.paths, before.slots, k);
                                }
                            }
                        }
                    },
                    Err(e) => {
                        proof {
                            lemma_snapshot_fail(old(store)@, index@.paths, workdir@.map(), i as int);
                        }
                        return Err(e);
                    },
                }
            },
        }
        i += 1;
    }
    assert(index@.paths.take(i as int) =~= index@.paths);
    Ok(x)
}

/// What saving a stash creates: the commit of the index on top of `head`,
/// the snapshot of the tracked files of the working tree, and the stash
/// commit, which holds the snapshot and has `head` and the commit of the
/// index as parents. The result is the stash commit and the store.
#[verifier::opaque]
pub open spec fn stash_saved(
    m: Objects,
    x: IndexView,
    work: Map<Seq<u8>, Seq<u8>>,
    head: ObjectId,
    message: Seq<u8>,
    who: SignatureView,
) -> Result<(ObjectId, Objects), ErrorKind> {
    {
        match tree_written(m, x) {
            Err(k) => Err(k),
            Ok((staged, m1)) => match stored(
                m1,
                ObjectView::Commit(
                    CommitView {
                        tree: staged,
                        parents: seq![head],
                        author: who,
                        committer: who,
                        message: index_word() + message,
                    },
                ),
            ) {
                Err(k) => Err(k),
                Ok((staged_commit, m2)) => match snapshot_of(m2, x.paths, work) {
                    Err(k) => Err(k),
                    Ok((snap, m3)) => {
                        let s = choose|s: IndexView| s.wf() && s.map() == snap;
                        match tree_written(m3, s) {
                            Err(k) => Err(k),
                            Ok((tree, m4)) => stored(
                                m4,
                                ObjectView::Commit(
                                    CommitView {
                                        tree,
                                        parents: seq![head, staged_commit],
                                        author: who,
                                        committer: who,
                                        message,
                                    },
                                ),
                            ),
                        }
                    },
                },
            },
        }
    }
}

/// What applying the stash commit `stash` on the commit `head` gives: the
/// merge of the tree of the stash and the tree of `head` over the tree of
/// the first parent of the stash, and the working tree of the merged
/// index.
#[verifier::opaque]
pub open spec fn stash_applied(m: Objects, stash: ObjectId, head: ObjectId) -> Result<
    (MergeView, Objects, WorkView),
    ErrorKind,
> {
    match commit_read(m, stash) {
        Err(k) => Err(k),
        Ok(s) => if s.parents.len() == 0 {
            Err(ErrorKind::Corrupt)
        } else {
            match commit_read(m, s.parents[0]) {
                Err(k) => Err(k),
                Ok(parent) => match commit_read(m, head) {
                    Err(k) => Err(k),
                    Ok(hc) => match merge_of(m, Some(parent.tree), hc.tree, s.tree) {
                        Err(k) => Err(k),
                        Ok((out, m1)) => match materialized(m1, out.index) {
                            Err(k) => Err(k),
                            Ok(w) => Ok((out, m1, w)),
                        },
                    },
                },
            }
        },
    }
}

/// What a stash operation reports: the paths in conflict, and whether the
/// entry left the stack.
#[derive(Clone, Debug, PartialEq, Eq)]
pub struct StashReport {
    pub conflicts: Vec<Vec<u8>>,
    pub dropped: bool,
}

impl Repository {
    /// Saves the uncommitted work: commits the index on top of `HEAD`,
    /// takes a snapshot of the tracked files as they are in the working
    /// tree, and creates the stash commit, which holds the snapshot and has
    /// `HEAD` and the commit of the index as its two parents. The entry
    /// goes on top of the stack, at index 0. The index is then that of
    /// `HEAD` again, and so are the files that it binds; a file that
    /// neither index binds stays in the working tree as it is. On failure
    /// nothing has changed but the object store, which may have grown.
    pub fn create_stash(&mut self, message: &[u8], who: &Signature) -> (r: Result<
        ObjectId,
        EngineError,
    >)
        requires
            old(self).wf(),
        ensures
            r matches Err(e) ==> e.operation == Operation::Stash,
            final(self).wf(),
            old(self).objects@.submap_of(final(self).objects@),
            final(self).refs@ == old(self).refs@,
            final(self).rebase == old(self).rebase,
            match r {
                Ok(id) => {
                    &&& head_state(old(self).refs@) matches Ok((leaf, Some(head)))
                    &&& stash_saved(
                        old(self).objects@,
                        old(self).index@,
                        old(self).workdir@.map(),
                        head,
                        message@,
                        who@,
                    ) == Ok::<(ObjectId, Objects), ErrorKind>((id, final(self).objects@))
                    &&& checkout_of(final(self).objects@, head) matches Ok((x, w))
                    &&& final(self).index@ == x
                    &&& final(self).workdir@ == carried(old(self).workdir@, old(self).index@, w)
                    &&& stash_views(final(self).stashes@) == seq![
                        StashView {
                            message: message@,
                            author: who@.name,
                            timestamp: who@.time,
                            commit: id,
                        },
                    ] + stash_views(old(self).stashes@)
                },
                Err(e) => only_objects_grew(*old(self), *final(self)) && match head_state(
                    old(self).refs@,
                ) {
                    Err(k) => e.kind == k,
                    Ok((leaf, None)) => e.kind == ErrorKind::NotFound,
                    Ok((leaf, Some(head))) => match stash_saved(
                        old(self).objects@,
                        old(self).index@,
                        old(self).workdir@.map(),
                        head,
                        message@,
                        who@,
                    ) {
                        Err(k) => e.kind == k,
                        Ok((id, m)) => checkout_of(m, head) == Err::<
                            (IndexView, WorkView),
                            ErrorKind,
                        >(e.kind),
                    },
                },
            },
    {
        let head = match self.head_state() {
            Ok((_, Some(head))) => head,
            Ok((leaf, None)) => {
                return Err(
                    EngineError::about_name(ErrorKind::NotFound, Operation::Stash, leaf.as_slice()),
                );
            },
            Err(e) => {
                return Err(e.during(Operation::Stash));
            },
        };
        proof {
            reveal(stash_saved);
        }
        let staged = match self.index.write_tree(&mut self.objects) {
            Ok(id) => id,
            Err(e) => {
                return Err(e.during(Operation::Stash));
            },
        };
        let ghost m1 = self.objects@;
        let mut parents: Vec<ObjectId> = Vec::new();
        parents.push(head);
        assert(parents@ =~= seq![head]);
        let mut text: Vec<u8> = vec![
            105u8,
            110u8,
            100u8,
            101u8,
            120u8,
            32u8,
            111u8,
            110u8,
            58u8,
            32u8,
        ];
        assert(text@ =~= index_word());
        bytes_append(&mut text, message);
        let staged_commit = match self.objects.put(
            Object::Commit(
                Commit {
                    tree: staged,
                    parents,
                    author: who.copy(),
                    committer: who.copy(),
                    message: text,
                },
            ),
        ) {
            Ok(id) => id,
            Err(e) => {
                proof {
                    crate::store::lemma_extends_twice(old(self).objects@, m1, self.objects@);
                }
                return Err(e.during(Operation::Stash));
            },
        };
        let ghost m2 = self.objects@;
        proof {
            crate::store::lemma_extends_twice(old(self).objects@, m1, m2);
        }
        let snap = match snapshot(&mut self.objects, &self.index, &self.workdir) {
            Ok(x) => x,
            Err(e) => {
                proof {
                    crate::store::lemma_extends_twice(old(self).objects@, m2, self.objects@);
                }
                return Err(e.during(Operation::Stash));
            },
        };
        let ghost m3 = self.objects@;
        proof {
            crate::store::lemma_extends_twice(old(self).objects@, m2, m3);
            let sm = snap@.map();
            let witness = snap@;
            assert(witness.wf() && witness.map() == sm);
            let s = choose|s: IndexView| s.wf() && s.map() == sm;
            crate::keys::lemma_table_unique(s.paths, s.slots, witness.paths, witness.slots);
            assert(s == witness);
        }
        let tree = match snap.write_tree(&mut self.objects) {
            Ok(id) => id,
            Err(e) => {
                proof {
                    crate::store::lemma_extends_twice(old(self).objects@, m3, self.objects@);
                }
                return Err(e.during(Operation::Stash));
            },
        };
        let ghost m4 = self.objects@;
        proof {
            crate::store::lemma_extends_twice(old(self).objects@, m3, m4);
        }
        let mut both: Vec<ObjectId> = Vec::new();
        both.push(head);
        both.push(staged_commit);
        assert(both@ =~= seq![head, staged_commit]);
        let id = match self.objects.put(
            Object::Commit(
                Commit {
                    tree,
                    parents: both,
                    author: who.copy(),
                    committer: who.copy(),
                    message: bytes_copy(message),
                },
            ),
        ) {
            Ok(id) => id,
            Err(e) => {
                proof {
                    crate::store::lemma_extends_twice(old(self).objects@, m4, self.objects@);
                }
                return Err(e.during(Operation::Stash));
            },
        };
        proof {
            crate::store::lemma_extends_twice(old(self).objects@, m4, self.objects@);
        }
        let (x, w) = match checkout(&self.objects, head, Operation::Stash) {
            Ok(pair) => pair,
            Err(e) => {
                return Err(e.during(Operation::Stash));
            },
        };
        self.workdir = self.workdir.carry(&self.index, w);
        self.index = x;
        let ghost before = stash_views(self.stashes@);
        let entry = StashEntry {
            message: bytes_copy(message),
            author: bytes_copy(who.name.as_slice()),
            timestamp: who.time,
            commit: id,
        };
        self.stashes.insert(0, entry);
        assert(stash_views(self.stashes@) =~= seq![entry@] + before);
        Ok(id)
    }

    /// The entries of the stash, the most recent first, each with its
    /// index.
    pub fn get_stashes(&self) -> (r: Vec<StashInfo>)
        ensures
            r@.len() == self.stashes@.len(),
            forall|i: int|
                0 <= i < r@.len() ==> (#[trigger] r@[i]).index == i && r@[i].message@
                    == self.stashes@[i].message@ && r@[i].author@ == self.stashes@[i].author@
                    && r@[i].timestamp == self.stashes@[i].timestamp && r@[i].commit
                    == self.stashes@[i].commit,
    {
        let mut out: Vec<StashInfo> = Vec::new();
        let mut i: usize = 0;
        while i < self.stashes.len()
            invariant
                i <= self.stashes@.len(),
                out@.len() == i,
                forall|j: int|
                    0 <= j < i ==> (#[trigger] out@[j]).index == j && out@[j].message@
                        == self.stashes@[j].message@ && out@[j].author@ == self.stashes@[j].author@
                        && out@[j].timestamp == self.stashes@[j].timestamp && out@[j].commit
                        == self.stashes@[j].commit,
            decreases self.stashes@.len() - i,
        {
            let e = &self.stashes[i];
            out.push(
                StashInfo {
                    index: i,
                    message: bytes_copy(e.message.as_slice()),
                    author: bytes_copy(e.author.as_slice()),
                    timestamp: e.timestamp,
                    commit: e.commit,
                },
            );
            i += 1;
        }
        out
    }

    /// Applies the entry at `index`: merges the tree of the stash and the
    /// tree of `HEAD` over the tree that the stash was saved on. The merged
    /// index and its files are put in place; conflicts are left in both
    /// and reported. A file that neither the index before nor the merged
    /// index binds stays as it is. The entry stays in the stack. Fails with
    /// `NotFound` where the stack has no such entry. On failure nothing
    /// has changed but the object store, which may have grown.
    pub fn apply_stash(&mut self, index: usize) -> (r: Result<StashReport, EngineError>)
        requires
            old(self).wf(),
        ensures
            r matches Err(e) ==> e.operation == Operation::Stash,
            final(self).wf(),
            old(self).objects@.submap_of(final(self).objects@),
            final(self).refs@ == old(self).refs@,
            final(self).rebase == old(self).rebase,
            final(self).stashes == old(self).stashes,
            match r {
                Ok(report) => {
                    &&& index < old(self).stashes@.len()
                    &&& head_state(old(self).refs@) matches Ok((leaf, Some(head)))
                    &&& stash_applied(
                        old(self).objects@,
                        old(self).stashes@[index as int].commit,
                        head,
                    ) matches Ok((out, m, w))
                    &&& final(self).objects@ == m
                    &&& final(self).index@ == out.index
                    &&& final(self).workdir@ == carried(old(self).workdir@, old(self).index@, w)
                    &&& lines(report.conflicts@) == conflict_paths(out.index.paths, out.index.slots)
                    &&& !report.dropped
                },
                Err(e) => only_objects_grew(*old(self), *final(self)) && apply_failure(
                    *old(self),
                    index,
                ) == Some(e.kind),
            },
    {
        if index >= self.stashes.len() {
            return Err(EngineError::about_position(ErrorKind::NotFound, Operation::Stash, index));
        }
        let stash = self.stashes[index].commit;
        let head = match self.head_state() {
            Ok((_, Some(head))) => head,
            Ok((leaf, None)) => {
                return Err(
                    EngineError::about_name(ErrorKind::NotFound, Operation::Stash, leaf.as_slice()),
                );
            },
            Err(e) => {
                return Err(e.during(Operation::Stash));
            },
        };
        proof {
            reveal(stash_applied);
        }
        let (tree, first) = match get_commit(&self.objects, stash, Operation::Stash) {
            Ok(c) => (
                c.tree,
                if c.parents.len() == 0 {
                    None
                } else {
                    Some(c.parents[0])
                },
            ),
            Err(e) => {
                return Err(e.during(Operation::Stash));
            },
        };
        let parent = match first {
            Some(p) => p,
            None => {
                return Err(EngineError::about_object(ErrorKind::Corrupt, Operation::Stash, stash));
            },
        };
        let base_tree = match get_commit(&self.objects, parent, Operation::Stash) {
            Ok(c) => c.tree,
            Err(e) => {
                return Err(e.during(Operation::Stash));
            },
        };
        let head_tree = match get_commit(&self.objects, head, Operation::Stash) {
            Ok(c) => c.tree,
            Err(e) => {
                return Err(e.during(Operation::Stash));
            },
        };
        let out = match three_way_merge(&mut self.objects, Some(base_tree), head_tree, tree) {
            Ok(out) => out,
            Err(e) => {
                return Err(e.during(Operation::Stash));
            },
        };
        let w = match WorkTree::materialize(&self.objects, &out.index) {
            Ok(w) => w,
            Err(e) => {
                return Err(e.during(Operation::Stash));
            },
        };
        self.workdir = self.workdir.carry(&self.index, w);
        self.index = out.index;
        let conflicts = self.index.conflict_paths();
        Ok(StashReport { conflicts, dropped: false })
    }

    /// Removes the entry at `index` from the stack. Fails with `NotFound`,
    /// changing nothing, where the stack has no such entry.
    pub fn drop_stash(&mut self, index: usize) -> (r: Result<(), EngineError>)
        requires
            old(self).wf(),
        ensures
            r matches Err(e) ==> e.operation == Operation::Stash,
            final(self).wf(),
            final(self).objects@ == old(self).objects@,
            final(self).refs@ == old(self).refs@,
            final(self).index@ == old(self).index@,
            final(self).workdir@ == old(self).workdir@,
            final(self).rebase == old(self).rebase,
            match r {
                Ok(()) => index < old(self).stashes@.len() && final(self).stashes@ == old(self).stashes@.remove(index as int),
                Err(e) => index >= old(self).stashes@.len() && final(self).stashes == old(self).stashes && e.kind == ErrorKind::NotFound && e.operation == Operation::Stash,
            },
    {
        if index >= self.stashes.len() {
            return Err(EngineError::about_position(ErrorKind::NotFound, Operation::Stash, index));
        }
        self.stashes.remove(index);
        Ok(())
    }

    /// Applies the entry at `index` and, where that leaves no conflict,
    /// removes it from the stack; the report says whether it did. Where
    /// applying fails the entry stays and the failure is that of
    /// [`Repository::apply_stash`], unchanged.
    pub fn pop_stash(&mut self, index: usize) -> (r: Result<StashReport, EngineError>)
        requires
            old(self).wf(),
        ensures
            r matches Err(e) ==> e.operation == Operation::Stash,
            final(self).wf(),
            old(self).objects@.submap_of(final(self).objects@),
            final(self).refs@ == old(self).refs@,
            final(self).rebase == old(self).rebase,
            match r {
                Ok(report) => {
                    &&& index < old(self).stashes@.len()
                    &&& head_state(old(self).refs@) matches Ok((leaf, Some(head)))
                    &&& stash_applied(
                        old(self).objects@,
                        old(self).stashes@[index as int].commit,
                        head,
                    ) matches Ok((out, m, w))
                    &&& final(self).objects@ == m
                    &&& final(self).index@ == out.index
                    &&& final(self).workdir@ == carried(old(self).workdir@, old(self).index@, w)
                    &&& lines(report.conflicts@) == conflict_paths(out.index.paths, out.index.slots)
                    &&& report.dropped == !out.index.has_conflicts()
                    &&& final(self).stashes@ == (if report.dropped {
                        old(self).stashes@.remove(index as int)
                    } else {
                        old(self).stashes@
                    })
                },
                Err(e) => only_objects_grew(*old(self), *final(self)) && apply_failure(
                    *old(self),
                    index,
                ) == Some(e.kind),
            },
    {
        let report = match self.apply_stash(index) {
            Ok(r) => r,
            Err(e) => {
                return Err(e.during(Operation::Stash));
            },
        };
        if self.index.has_conflicts() {
            Ok(report)
        } else {
            self.stashes.remove(index);
            Ok(StashReport { conflicts: report.conflicts, dropped: true })
        }
    }
}

/// Why the entry at `index` cannot be applied, if it cannot: the stack has
/// no such entry (`NotFound`); `HEAD` cannot be followed or names no
/// commit (`NotFound`); or the merge fails.
pub open spec fn apply_failure(before: Repository, index: usize) -> Option<ErrorKind> {
    if index >= before.stashes@.len() {
        Some(ErrorKind::NotFound)
    } else {
        match head_state(before.refs@) {
            Err(k) => Some(k),
            Ok((leaf, None)) => Some(ErrorKind::NotFound),
            Ok((leaf, Some(head))) => match stash_applied(
                before.objects@,
                before.stashes@[index as int].commit,
                head,
            ) {
                Err(k) => Some(k),
                Ok(_) => None,
            },
        }
    }
}

} // verus!
