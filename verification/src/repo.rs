//! The repository: the object store, the references, the index, the
//! working tree, the stash and the state of a rebase, as one value that is
//! handed to every operation. An operation that changes the repository
//! takes it by `&mut`, which is the exclusive lock of the repository: while
//! it runs nothing else can read or change the value.

use vstd::prelude::*;
use crate::bytes::{bytes_append, bytes_copy};
use crate::error::{EngineError, ErrorKind, Operation};
use crate::history::get_commit;
use crate::index::{Index, IndexView};
use crate::nested::{index_of_flat, tree_read, tree_written};
use crate::object::{Commit, CommitView, Object, ObjectView, Signature, SignatureView};
use crate::oid::ObjectId;
use crate::rebase::{commit_read, start_cursor, Cursor, RebasePhase, RebaseStep};
use crate::refs::{binding, direct_at, head_name, leaf_of, lemma_leaf, resolved, swapped, RefStore,
    RefTarget, Refs, TargetView, MAX_HOPS};
use crate::stash::StashEntry;
use crate::store::{stored, ObjectStore, Objects};
use crate::worktree::{materialized, WorkTree, WorkView};

verus! {

/// The state of a rebase: where the state machine stands, the plan, the
/// cursor of the replay, the branch that completion will move and what it
/// was bound to at the start, who commits, and the snapshot to which an
/// abort returns.
#[derive(Clone, Debug)]
pub struct Rebase {
    pub phase: RebasePhase,
    pub steps: Vec<RebaseStep>,
    pub cursor: Cursor,
    pub branch: Vec<u8>,
    pub start: Option<ObjectId>,
    pub committer: Signature,
    pub saved_refs: RefStore,
    pub saved_index: Index,
    pub saved_workdir: WorkTree,
}

impl Rebase {
    /// The invariant of the type: the snapshot is well formed.
    pub open spec fn wf(&self) -> bool {
        self.saved_refs.wf() && self.saved_index.wf() && self.saved_workdir.wf()
    }

    /// No rebase: the machine is idle, the plan and the snapshot are empty,
    /// the cursor stands at the start of a replay onto the zero id, no
    /// branch is named and nobody commits.
    pub fn idle() -> (r: Rebase)
        ensures
            r.wf(),
            r.phase == RebasePhase::Idle,
            r.steps@.len() == 0,
            r.cursor@ == start_cursor(ObjectId { hi: 0, lo: 0 }),
            r.branch@.len() == 0,
            r.start is None,
            r.committer@ == (SignatureView { name: Seq::empty(), email: Seq::empty(), time: 0 }),
            r.saved_refs@ == Map::<Seq<u8>, TargetView>::empty(),
            r.saved_index@.paths.len() == 0,
            r.saved_workdir@.paths.len() == 0,
    {
        Rebase {
            phase: RebasePhase::Idle,
            steps: Vec::new(),
            cursor: Cursor {
                next: 0,
                base: ObjectId { hi: 0, lo: 0 },
                before: None,
                produced: Vec::new(),
                resolving: false,
            },
            branch: Vec::new(),
            start: None,
            committer: Signature { name: Vec::new(), email: Vec::new(), time: 0 },
            saved_refs: RefStore::new(),
            saved_index: Index::new(),
            saved_workdir: WorkTree::new(),
        }
    }
}

/// A repository.
#[derive(Clone, Debug)]
pub struct Repository {
    pub objects: ObjectStore,
    pub refs: RefStore,
    pub index: Index,
    pub workdir: WorkTree,
    pub stashes: Vec<StashEntry>,
    pub rebase: Rebase,
}

/// `refs/heads/`
pub open spec fn heads_prefix() -> Seq<u8> {
    seq![114u8, 101u8, 102u8, 115u8, 47u8, 104u8, 101u8, 97u8, 100u8, 115u8, 47u8]
}

/// The name of the reference of the branch `name`.
pub open spec fn branch_ref(name: Seq<u8>) -> Seq<u8> {
    heads_prefix() + name
}

/// `main`
pub open spec fn main_name() -> Seq<u8> {
    seq![109u8, 97u8, 105u8, 110u8]
}

/// The name `HEAD`.
pub fn head() -> (r: Vec<u8>)
    ensures
        r@ == head_name(),
{
    let r: Vec<u8> = vec![72u8, 69u8, 65u8, 68u8];
    assert(r@ =~= head_name());
    r
}

/// The name of the reference of the branch `name`.
pub fn branch_name(name: &[u8]) -> (r: Vec<u8>)
    ensures
        r@ == branch_ref(name@),
{
    let mut r: Vec<u8> = vec![
        114u8,
        101u8,
        102u8,
        115u8,
        47u8,
        104u8,
        101u8,
        97u8,
        100u8,
        115u8,
        47u8,
    ];
    assert(r@ =~= heads_prefix());
    bytes_append(&mut r, name);
    r
}

/// What `HEAD` stands for: the reference at the end of its chain, and the
/// commit that this reference is bound to, if it is bound. A chain that
/// ends in the empty name is an invalid argument.
pub open spec fn head_state(refs: Refs) -> Result<(Seq<u8>, Option<ObjectId>), ErrorKind> {
    match leaf_of(refs, head_name()) {
        Err(k) => Err(k),
        Ok(leaf) => if leaf.len() == 0 {
            Err(ErrorKind::InvalidArgument)
        } else {
            Ok((leaf, direct_at(refs, leaf)))
        },
    }
}

/// The index and the working tree of a checkout of the commit `id`.
#[verifier::opaque]
pub open spec fn checkout_of(m: Objects, id: ObjectId) -> Result<(IndexView, WorkView), ErrorKind> {
    match commit_read(m, id) {
        Err(k) => Err(k),
        Ok(c) => match tree_read(m, c.tree) {
            Err(k) => Err(k),
            Ok(f) => match materialized(m, index_of_flat(f)) {
                Err(k) => Err(k),
                Ok(w) => Ok((index_of_flat(f), w)),
            },
        },
    }
}

/// The index and the working tree of a checkout of the commit `id`.
pub fn checkout(store: &ObjectStore, id: ObjectId, operation: Operation) -> (r: Result<
    (Index, WorkTree),
    EngineError,
>)
    requires
        store.wf(),
    ensures
        match r {
            Ok((x, w)) => x.wf() && w.wf() && !x@.has_conflicts() && checkout_of(store@, id) == Ok::<
                (IndexView, WorkView),
                ErrorKind,
            >((x@, w@)),
            Err(e) => checkout_of(store@, id) == Err::<(IndexView, WorkView), ErrorKind>(e.kind),
        },
{
    proof {
        reveal(checkout_of);
    }
    let tree = match get_commit(store, id, operation) {
        Ok(c) => c.tree,
        Err(e) => {
            return Err(e);
        },
    };
    let x = match Index::from_tree(store, tree) {
        Ok(x) => x,
        Err(e) => {
            return Err(e);
        },
    };
    let w = match WorkTree::materialize(store, &x) {
        Ok(w) => w,
        Err(e) => {
            return Err(e);
        },
    };
    Ok((x, w))
}

/// The parents of a commit made on top of `tip`.
pub open spec fn parents_on(tip: Option<ObjectId>) -> Seq<ObjectId> {
    match tip {
        Some(id) => seq![id],
        None => Seq::empty(),
    }
}

/// The outcome of committing the index `x` with `message`, signed by
/// `who`: the id of the commit, the store with the tree and the commit,
/// and the references with the branch of `HEAD` moved to the commit.
#[verifier::opaque]
pub open spec fn committed(m: Objects, refs: Refs, x: IndexView, message: Seq<u8>, who: SignatureView)
    -> Result<(ObjectId, Objects, Refs), ErrorKind> {
    match head_state(refs) {
        Err(k) => Err(k),
        Ok((leaf, tip)) => match tree_written(m, x) {
            Err(k) => Err(k),
            Ok((tree, m1)) => match stored(
                m1,
                ObjectView::Commit(
                    CommitView { tree, parents: parents_on(tip), author: who, committer: who, message },
                ),
            ) {
                Err(k) => Err(k),
                Ok((id, m2)) => Ok((id, m2, refs.insert(leaf, TargetView::Direct(id)))),
            },
        },
    }
}

/// What a compare-and-swap expects of a reference that should be bound to
/// the commit `tip`, or not bound at all.
pub open spec fn expected_of(tip: Option<ObjectId>) -> Option<TargetView> {
    match tip {
        Some(id) => Some(TargetView::Direct(id)),
        None => None,
    }
}

/// Moves the reference `name` from the commit `tip` (`None`: not bound) to
/// the commit `to` by compare-and-swap.
pub fn advance(refs: &mut RefStore, name: &[u8], tip: Option<ObjectId>, to: ObjectId) -> (r: Result<
    (),
    EngineError,
>)
    requires
        old(refs).wf(),
    ensures
        final(refs).wf(),
        match r {
            Ok(()) => swapped(old(refs)@, name@, TargetView::Direct(to), expected_of(tip)) == Ok::<
                Refs,
                ErrorKind,
            >(final(refs)@),
            Err(e) => swapped(old(refs)@, name@, TargetView::Direct(to), expected_of(tip)) == Err::<
                Refs,
                ErrorKind,
            >(e.kind) && final(refs)@ == old(refs)@,
        },
{
    match tip {
        Some(id) => {
            let was = RefTarget::Direct(id);
            refs.write(name, RefTarget::Direct(to), Some(&was))
        },
        None => refs.write(name, RefTarget::Direct(to), None),
    }
}

/// The leaf of `HEAD` is bound to the commit that [`head_state`] gives, or
/// not bound at all: a compare-and-swap that expects this succeeds.
pub proof fn lemma_head_state(refs: Refs)
    requires
        head_state(refs) is Ok,
    ensures
        binding(refs, head_state(refs)->Ok_0.0) == expected_of(head_state(refs)->Ok_0.1),
        head_state(refs)->Ok_0.0.len() > 0,
        forall|to: ObjectId|
            #[trigger] swapped(
                refs,
                head_state(refs)->Ok_0.0,
                TargetView::Direct(to),
                expected_of(head_state(refs)->Ok_0.1),
            ) == Ok::<Refs, ErrorKind>(
                refs.insert(head_state(refs)->Ok_0.0, TargetView::Direct(to)),
            ),
{
    lemma_leaf(refs, head_name(), MAX_HOPS as nat);
}

impl Repository {
    /// The invariant of the type: every part is well formed.
    pub open spec fn wf(&self) -> bool {
        &&& self.objects.wf()
        &&& self.refs.wf()
        &&& self.index.wf()
        &&& self.workdir.wf()
        &&& self.rebase.wf()
    }

    /// An empty repository whose `HEAD` names the branch `main`, which does
    /// not exist yet.
    pub fn init() -> (r: Repository)
        ensures
            r.wf(),
            r.objects@ == Map::<ObjectId, ObjectView>::empty(),
            r.refs@ == Map::<Seq<u8>, TargetView>::empty().insert(
                head_name(),
                TargetView::Symbolic(branch_ref(main_name())),
            ),
            r.index@.paths.len() == 0,
            r.workdir@.paths.len() == 0,
            r.stashes@.len() == 0,
            r.rebase.phase == RebasePhase::Idle,
    {
        let mut refs = RefStore::new();
        let main: Vec<u8> = vec![109u8, 97u8, 105u8, 110u8];
        assert(main@ =~= main_name());
        refs.set(head().as_slice(), RefTarget::Symbolic(branch_name(main.as_slice())));
        Repository {
            objects: ObjectStore::new(),
            refs,
            index: Index::new(),
            workdir: WorkTree::new(),
            stashes: Vec::new(),
            rebase: Rebase::idle(),
        }
    }

    /// What `HEAD` stands for: the reference at the end of its chain and
    /// the commit that it is bound to, if any.
    pub fn head_state(&self) -> (r: Result<(Vec<u8>, Option<ObjectId>), EngineError>)
        requires
            self.wf(),
        ensures
            match r {
                Ok((leaf, tip)) => head_state(self.refs@) == Ok::<
                    (Seq<u8>, Option<ObjectId>),
                    ErrorKind,
                >((leaf@, tip)),
                Err(e) => head_state(self.refs@) == Err::<(Seq<u8>, Option<ObjectId>), ErrorKind>(
                    e.kind,
                ),
            },
    {
        let leaf = match self.refs.leaf(head().as_slice()) {
            Ok(l) => l,
            Err(e) => {
                return Err(e);
            },
        };
        if leaf.len() == 0 {
            return Err(
                EngineError::about_name(
                    ErrorKind::InvalidArgument,
                    Operation::ResolveRef,
                    head().as_slice(),
                ),
            );
        }
        let tip = self.refs.direct(leaf.as_slice());
        Ok((leaf, tip))
    }

    /// The object that the reference `name` stands for, following symbolic
    /// links: a reference resolves to an object that exists, or fails. A
    /// chain that breaks off, or ends at an object that is not stored, is
    /// `NotFound`; a cycle is `Corrupt`.
    pub fn resolve(&self, name: &[u8]) -> (r: Result<ObjectId, EngineError>)
        requires
            self.wf(),
        ensures
            match r {
                Ok(id) => resolved(self.refs@, name@) == Ok::<ObjectId, ErrorKind>(id)
                    && self.objects@.contains_key(id),
                Err(e) => e.operation == Operation::ResolveRef && match resolved(self.refs@, name@) {
                    Ok(id) => !self.objects@.contains_key(id) && e.kind == ErrorKind::NotFound,
                    Err(k) => e.kind == k,
                },
            },
    {
        let id = match self.refs.resolve(name) {
            Ok(id) => id,
            Err(e) => {
                return Err(e);
            },
        };
        if self.objects.contains(id) {
            Ok(id)
        } else {
            Err(EngineError::about_name(ErrorKind::NotFound, Operation::ResolveRef, name))
        }
    }

    /// Commits what is staged: builds the tree of the index, creates a
    /// commit on top of the commit of `HEAD` (the first commit has no
    /// parent) and moves the branch of `HEAD` to it by compare-and-swap.
    /// Fails with `Conflict` while a path is in conflict. On failure no
    /// reference has changed.
    pub fn commit_changes(&mut self, message: &[u8], who: &Signature) -> (r: Result<
        ObjectId,
        EngineError,
    >)
        requires
            old(self).wf(),
        ensures
            r matches Err(e) ==> e.operation == Operation::Commit,
            final(self).wf(),
            final(self).index == old(self).index,
            final(self).workdir == old(self).workdir,
            final(self).stashes == old(self).stashes,
            final(self).rebase == old(self).rebase,
            old(self).objects@.submap_of(final(self).objects@),
            match r {
                Ok(id) => committed(old(self).objects@, old(self).refs@, old(self).index@, message@, who@)
                    == Ok::<(ObjectId, Objects, Refs), ErrorKind>(
                    (id, final(self).objects@, final(self).refs@),
                ),
                Err(e) => committed(
                    old(self).objects@,
                    old(self).refs@,
                    old(self).index@,
                    message@,
                    who@,
                ) == Err::<(ObjectId, Objects, Refs), ErrorKind>(e.kind) && final(self).refs@ == old(self).refs@,
            },
    {
        proof {
            reveal(committed);
        }
        let (leaf, tip) = match self.head_state() {
            Ok(pair) => pair,
            Err(e) => {
                return Err(e.during(Operation::Commit));
            },
        };
        let tree = match self.index.write_tree(&mut self.objects) {
            Ok(id) => id,
            Err(e) => {
                return Err(e.during(Operation::Commit));
            },
        };
        let ghost mid = self.objects@;
        let mut parents: Vec<ObjectId> = Vec::new();
        if let Some(id) = tip {
            parents.push(id);
        }
        assert(parents@ =~= parents_on(tip));
        let commit = Commit {
            tree,
            parents,
            author: who.copy(),
            committer: who.copy(),
            message: bytes_copy(message),
        };
        let id = match self.objects.put(Object::Commit(commit)) {
            Ok(id) => id,
            Err(e) => {
                proof {
                    crate::store::lemma_extends_twice(old(self).objects@, mid, self.objects@);
                }
                return Err(e.during(Operation::Commit));
            },
        };
        proof {
            crate::store::lemma_extends_twice(old(self).objects@, mid, self.objects@);
            lemma_head_state(self.refs@);
        }
        match advance(&mut self.refs, leaf.as_slice(), tip, id) {
            Ok(()) => Ok(id),
            Err(e) => Err(e.during(Operation::Commit)),
        }
    }
}

} // verus!
