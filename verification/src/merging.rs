//! Merging a branch, picking a commit, and resolving what they leave in
//! conflict.

use vstd::prelude::*;
use crate::bytes::{bytes_append, bytes_copy};
use crate::error::{EngineError, ErrorKind, Operation};
use crate::history::{generation, get_commit};
use crate::index::{conflict_paths, conflict_views, conflicts_of, Conflict, ConflictView, Index,
    IndexView, Slot};
use crate::interactive::only_objects_grew;
use crate::keys::lines;
use crate::merge::{base_fails, lemma_merge_one_side, lemma_one_side_index, merge_base,
    merge_base_of, merge_inputs, merge_of, merged, three_way_merge, MergeOutcome, MergeView};
use crate::nested::tree_read;
use crate::object::{Commit, CommitView, FileMode, Object, ObjectView, Signature, SignatureView,
    TreeItem};
use crate::oid::{parse_id, ObjectId};
use crate::rebase::{applied, apply_commit, commit_read};
use crate::refs::{direct_at, resolved, swapped, Refs, TargetView};
use crate::repo::{advance, branch_name, branch_ref, checkout, checkout_of, expected_of,
    head_state, lemma_head_state, Repository};
use crate::store::{stored, ObjectStore, Objects};
use crate::worktree::{carried, materialized, WorkTree, WorkView};

verus! {

/// How a merge ended.
#[derive(Clone, Copy, Debug, PartialEq, Eq, Structural)]
pub enum MergeKind {
    /// `HEAD` moved forward to the branch.
    FastForward,
    /// A merge commit was created.
    Merged,
    /// Paths are in conflict; nothing was committed.
    Conflicted,
}

/// What a merge or a pick reports: how it ended, the commit that `HEAD`
/// now stands for, and the paths in conflict.
#[derive(Clone, Debug, PartialEq, Eq)]
pub struct MergeReport {
    pub kind: MergeKind,
    pub commit: Option<ObjectId>,
    pub conflicts: Vec<Vec<u8>>,
}

/// `Merge branch '`
pub open spec fn merge_word() -> Seq<u8> {
    seq![
        77u8,
        101u8,
        114u8,
        103u8,
        101u8,
        32u8,
        98u8,
        114u8,
        97u8,
        110u8,
        99u8,
        104u8,
        32u8,
        39u8,
    ]
}

/// The message of the commit that merges the branch `name`.
pub open spec fn merge_message(name: Seq<u8>) -> Seq<u8> {
    merge_word() + name + seq![39u8]
}

/// `Cherry-pick: `
pub open spec fn pick_word() -> Seq<u8> {
    seq![67u8, 104u8, 101u8, 114u8, 114u8, 121u8, 45u8, 112u8, 105u8, 99u8, 107u8, 58u8, 32u8]
}

/// The tree of the commit `id`, where there is one.
pub open spec fn tree_of_commit(m: Objects, id: Option<ObjectId>) -> Result<Option<ObjectId>, ErrorKind> {
    match id {
        None => Ok(None),
        Some(c) => match commit_read(m, c) {
            Ok(commit) => Ok(Some(commit.tree)),
            Err(k) => Err(k),
        },
    }
}

/// What a merge leaves where its outcome is `out`: with conflicts, the
/// merged index and the working tree that shows them, and no commit; else
/// a commit of the merged tree with `parents`, and the merged index and
/// working tree. The result is the new commit if any, the store, and the
/// working tree.
#[verifier::opaque]
pub open spec fn sealed(
    m1: Objects,
    out: MergeView,
    parents: Seq<ObjectId>,
    author: SignatureView,
    committer: SignatureView,
    message: Seq<u8>,
) -> Result<(Option<ObjectId>, Objects, WorkView), ErrorKind> {
    match out.tree_id {
        None => match materialized(m1, out.index) {
            Err(k) => Err(k),
            Ok(w) => Ok((None, m1, w)),
        },
        Some(tree) => match stored(
            m1,
            ObjectView::Commit(CommitView { tree, parents, author, committer, message }),
        ) {
            Err(k) => Err(k),
            Ok((id, m2)) => match materialized(m2, out.index) {
                Err(k) => Err(k),
                Ok(w) => Ok((Some(id), m2, w)),
            },
        },
    }
}

/// Commits the outcome of a merge, unless it has conflicts, and builds the
/// working tree of the merged index.
pub fn seal(
    store: &mut ObjectStore,
    out: &MergeOutcome,
    parents: Vec<ObjectId>,
    author: Signature,
    committer: Signature,
    message: Vec<u8>,
) -> (r: Result<(Option<ObjectId>, WorkTree), EngineError>)
    requires
        old(store).wf(),
        out.index.wf(),
    ensures
        final(store).wf(),
        old(store)@.submap_of(final(store)@),
        match r {
            Ok((id, w)) => w.wf() && sealed(
                old(store)@,
                out@,
                parents@,
                author@,
                committer@,
                message@,
            ) == Ok::<(Option<ObjectId>, Objects, WorkView), ErrorKind>((id, final(store)@, w@)),
            Err(e) => sealed(old(store)@, out@, parents@, author@, committer@, message@) == Err::<
                (Option<ObjectId>, Objects, WorkView),
                ErrorKind,
            >(e.kind),
        },
{
    proof {
        reveal(sealed);
    }
    match out.tree_id {
        None => match WorkTree::materialize(store, &out.index) {
            Ok(w) => Ok((None, w)),
            Err(e) => Err(e),
        },
        Some(tree) => {
            let commit = Commit { tree, parents, author, committer, message };
            let id = match store.put(Object::Commit(commit)) {
                Ok(id) => id,
                Err(e) => {
                    return Err(e);
                },
            };
            match WorkTree::materialize(store, &out.index) {
                Ok(w) => Ok((Some(id), w)),
                Err(e) => Err(e),
            }
        },
    }
}

/// The repository `after` is `before` with the outcome `out` of a merge in
/// place: the index is the merged one, and its files have taken the
/// place of the files of the index before, while a file that neither
/// index binds is as it was (see [`carried`]); where a commit `id` was
/// created the branch `leaf` has moved to it from `tip` by
/// compare-and-swap, else no reference has changed.
pub open spec fn merge_in_place(
    before: Repository,
    after: Repository,
    out: MergeView,
    id: Option<ObjectId>,
    m: Objects,
    w: WorkView,
    leaf: Seq<u8>,
    tip: Option<ObjectId>,
) -> bool {
    &&& after.objects@ == m
    &&& after.index@ == out.index
    &&& after.workdir@ == carried(before.workdir@, before.index@, w)
    &&& after.stashes == before.stashes
    &&& after.rebase == before.rebase
    &&& match id {
        Some(c) => swapped(before.refs@, leaf, TargetView::Direct(c), expected_of(tip)) == Ok::<
            Refs,
            ErrorKind,
        >(after.refs@),
        None => after.refs@ == before.refs@,
    }
}

/// The three-way merge of the commit `target` into the commit `head` over
/// their merge base `base`, committed by `who` under `message` unless it
/// has conflicts: the outcome, the new commit if any, the store and the
/// working tree.
#[verifier::opaque]
pub open spec fn merged_commits(
    m: Objects,
    base: Option<ObjectId>,
    head: ObjectId,
    target: ObjectId,
    who: SignatureView,
    message: Seq<u8>,
) -> Result<(MergeView, Option<ObjectId>, Objects, WorkView), ErrorKind> {
    match commit_read(m, head) {
        Err(k) => Err(k),
        Ok(hc) => match commit_read(m, target) {
            Err(k) => Err(k),
            Ok(tc) => match tree_of_commit(m, base) {
                Err(k) => Err(k),
                Ok(bt) => match merge_of(m, bt, hc.tree, tc.tree) {
                    Err(k) => Err(k),
                    Ok((out, m1)) => match sealed(m1, out, seq![head, target], who, who, message) {
                        Err(k) => Err(k),
                        Ok((id, m2, w)) => Ok((out, id, m2, w)),
                    },
                },
            },
        },
    }
}

/// The pick of the commit `orig` onto the commit `head`, committed by
/// `who` under the author of `orig` and its message after `Cherry-pick: `,
/// unless it has conflicts: the outcome, the new commit if any, the store
/// and the working tree.
#[verifier::opaque]
pub open spec fn picked_commit(m: Objects, orig: ObjectId, head: ObjectId, who: SignatureView)
    -> Result<(MergeView, Option<ObjectId>, Objects, WorkView), ErrorKind> {
    match commit_read(m, orig) {
        Err(k) => Err(k),
        Ok(oc) => match applied(m, orig, head) {
            Err(k) => Err(k),
            Ok((out, m1)) => match sealed(
                m1,
                out,
                seq![head],
                oc.author,
                who,
                pick_word() + oc.message,
            ) {
                Err(k) => Err(k),
                Ok((id, m2, w)) => Ok((out, id, m2, w)),
            },
        },
    }
}

/// Merging two commits over a base where one of the two has the tree of
/// the base and the other the tree `tree`, listed by `listed`; all three
/// may have the one tree. A merge that is committed has no conflict, puts
/// `listed` in the index, and its commit has the tree `tree` and both
/// commits as parents.
pub proof fn lemma_merge_one_sided(
    m: Objects,
    base: ObjectId,
    head: ObjectId,
    target: ObjectId,
    who: SignatureView,
    message: Seq<u8>,
    tree: ObjectId,
    listed: IndexView,
)
    requires
        one_sided(m, base, head, target, tree),
        tree_read(m, commit_read(m, base)->Ok_0.tree) is Ok,
        tree_read(m, tree) is Ok,
        listed.wf(),
        !listed.has_conflicts(),
        listed.items() == tree_read(m, tree)->Ok_0,
    ensures
        merged_commits(m, Some(base), head, target, who, message) matches Ok((out, id, m2, w)) ==> {
            &&& out.tree_id == Some(tree)
            &&& out.conflicts == Seq::<Seq<u8>>::empty()
            &&& out.index == listed
            &&& conflict_paths(out.index.paths, out.index.slots) == Seq::<Seq<u8>>::empty()
            &&& id matches Some(c)
            &&& commit_read(m2, c) matches Ok(made)
            &&& made.tree == tree
            &&& made.parents == seq![head, target]
        },
{
    reveal(merged_commits);
    reveal(sealed);
    lemma_merge_one_side(m, commit_read(m, base)->Ok_0.tree, tree, listed);
    lemma_no_conflict_paths(listed.paths, listed.slots);
}

/// Where no slot is a conflict, no path is in conflict.
pub proof fn lemma_no_conflict_paths(paths: Seq<Seq<u8>>, slots: Seq<Slot>)
    requires
        forall|i: int| 0 <= i < slots.len() ==> !((#[trigger] slots[i]) is Conflicted),
    ensures
        conflict_paths(paths, slots) == Seq::<Seq<u8>>::empty(),
    decreases paths.len(),
{
    if paths.len() > 0 && slots.len() > 0 {
        assert(!(slots[slots.len() - 1] is Conflicted));
        lemma_no_conflict_paths(paths.drop_last(), slots.drop_last());
    }
}

/// Of the commits `head` and `target`, one has the tree of the commit
/// `base` and the other has the tree `tree`. Where all three have one
/// tree, that tree is `tree`.
pub open spec fn one_sided(m: Objects, base: ObjectId, head: ObjectId, target: ObjectId, tree: ObjectId)
    -> bool {
    &&& commit_read(m, base) matches Ok(bc)
    &&& commit_read(m, head) matches Ok(hc)
    &&& commit_read(m, target) matches Ok(tc)
    &&& (tc.tree == bc.tree && hc.tree == tree) || (hc.tree == bc.tree && tc.tree == tree)
}

/// In `repo`, of the commit of `HEAD` and the commit of the branch `name`
/// one has the tree of their merge base and the other the tree `tree`.
pub open spec fn one_tree(repo: Repository, name: Seq<u8>, tree: ObjectId) -> bool {
    &&& merge_ends(repo.refs@, name) matches Ok((leaf, head, target))
    &&& merge_base_of(repo.objects@, head, target) matches Some(base)
    &&& one_sided(repo.objects@, base, head, target, tree)
}

/// The merge of the branch `name` that `report` tells of has left no
/// conflict, and the branch of `HEAD` is bound to the commit of the report,
/// which has the tree `tree`.
pub open spec fn merged_onto(
    before: Repository,
    after: Repository,
    name: Seq<u8>,
    report: MergeReport,
    tree: ObjectId,
) -> bool {
    &&& report.conflicts@.len() == 0
    &&& !after.index@.has_conflicts()
    &&& report.commit matches Some(c)
    &&& commit_read(after.objects@, c) matches Ok(made)
    &&& made.tree == tree
    &&& merge_ends(before.refs@, name) matches Ok((leaf, head, target))
    &&& direct_at(after.refs@, leaf) == Some(c)
}

/// A fast-forward between commits of one tree lands on that tree.
proof fn lemma_forward_onto(
    before: Repository,
    after: Repository,
    name: Seq<u8>,
    report: MergeReport,
    tree: ObjectId,
)
    requires
        one_tree(before, name, tree),
        after.objects@ == before.objects@,
        !after.index@.has_conflicts(),
        lines(report.conflicts@) == conflict_paths(after.index@.paths, after.index@.slots),
        merge_ends(before.refs@, name) matches Ok((leaf, head, target)) && report.commit == Some(
            target,
        ) && after.refs@ == before.refs@.insert(leaf, TargetView::Direct(target)) && merge_base_of(
            before.objects@,
            head,
            target,
        ) == Some(head),
    ensures
        merged_onto(before, after, name, report, tree),
{
    lemma_no_conflict_paths(after.index@.paths, after.index@.slots);
    let (leaf, head, target) = merge_ends(before.refs@, name)->Ok_0;
    assert(lines(report.conflicts@).len() == report.conflicts@.len());
    assert(report.conflicts@.len() == 0);
    assert(commit_read(after.objects@, target) is Ok);
    assert(after.refs@.contains_key(leaf));
    assert(direct_at(after.refs@, leaf) == Some(target));
}

/// A three-way merge of commits of one tree lands on that tree.
proof fn lemma_merged_onto(
    before: Repository,
    after: Repository,
    name: Seq<u8>,
    who: SignatureView,
    report: MergeReport,
    tree: ObjectId,
)
    requires
        one_tree(before, name, tree),
        after.index@.wf(),
        lines(report.conflicts@) == conflict_paths(after.index@.paths, after.index@.slots),
        ({
            let (leaf, head, target) = merge_ends(before.refs@, name)->Ok_0;
            let base = merge_base_of(before.objects@, head, target);
            &&& merge_inputs(
                before.objects@,
                Some(commit_read(before.objects@, base->0)->Ok_0.tree),
                commit_read(before.objects@, head)->Ok_0.tree,
                commit_read(before.objects@, target)->Ok_0.tree,
            ) matches Ok((b, o, t))
            &&& after.index@.map() == merged(b, o, t)
        }),
        ({
            let (leaf, head, target) = merge_ends(before.refs@, name)->Ok_0;
            let base = merge_base_of(before.objects@, head, target);
            &&& merged_commits(before.objects@, base, head, target, who, merge_message(name)) matches Ok(
                (out, id, m, w),
            )
            &&& merge_in_place(before, after, out, id, m, w, leaf, Some(head))
            &&& report.commit == (if id is Some {
                id
            } else {
                Some(head)
            })
        }),
    ensures
        merged_onto(before, after, name, report, tree),
{
    let (leaf, head, target) = merge_ends(before.refs@, name)->Ok_0;
    let base = merge_base_of(before.objects@, head, target);
    let b = tree_read(before.objects@, commit_read(before.objects@, base->0)->Ok_0.tree)->Ok_0;
    let f = tree_read(before.objects@, tree)->Ok_0;
    lemma_one_side_index(b, f, after.index@);
    lemma_merge_one_sided(
        before.objects@,
        base->0,
        head,
        target,
        who,
        merge_message(name),
        tree,
        after.index@,
    );
    lemma_head_state(before.refs@);
    lemma_no_conflict_paths(after.index@.paths, after.index@.slots);
    let (out, id, m, w) = merged_commits(before.objects@, base, head, target, who, merge_message(name))->Ok_0;
    assert(base is Some);
    assert(id is Some);
    assert(lines(report.conflicts@).len() == report.conflicts@.len());
    assert(report.conflicts@.len() == 0);
    assert(after.refs@ == before.refs@.insert(leaf, TargetView::Direct(id->0)));
    assert(after.refs@.contains_key(leaf));
    assert(direct_at(after.refs@, leaf) == id);
}

/// What a merge of the branch `name` finds before it merges: the branch of
/// `HEAD`, its commit, and the commit of the branch to merge.
pub open spec fn merge_ends(refs: Refs, name: Seq<u8>) -> Result<(Seq<u8>, ObjectId, ObjectId), ErrorKind> {
    match head_state(refs) {
        Err(k) => Err(k),
        Ok((leaf, tip)) => match tip {
            None => Err(ErrorKind::NotFound),
            Some(head) => match resolved(refs, branch_ref(name)) {
                Err(k) => Err(k),
                Ok(target) => Ok((leaf, head, target)),
            },
        },
    }
}

impl Repository {
    /// What a merge of the branch `name` finds before it merges.
    fn merge_ends(&self, name: &[u8]) -> (r: Result<(Vec<u8>, ObjectId, ObjectId), EngineError>)
        requires
            self.wf(),
        ensures
            match r {
                Ok((leaf, head, target)) => merge_ends(self.refs@, name@) == Ok::<
                    (Seq<u8>, ObjectId, ObjectId),
                    ErrorKind,
                >((leaf@, head, target)),
                Err(e) => merge_ends(self.refs@, name@) == Err::<
                    (Seq<u8>, ObjectId, ObjectId),
                    ErrorKind,
                >(e.kind),
            },
    {
        let (leaf, head) = match self.head_state() {
            Ok((leaf, Some(head))) => (leaf, head),
            Ok((leaf, None)) => {
                return Err(
                    EngineError::about_name(ErrorKind::NotFound, Operation::Merge, leaf.as_slice()),
                );
            },
            Err(e) => {
                return Err(e);
            },
        };
        let target = match self.refs.resolve(branch_name(name).as_slice()) {
            Ok(id) => id,
            Err(e) => {
                return Err(e);
            },
        };
        Ok((leaf, head, target))
    }

    /// Merges the branch `name` into `HEAD`. Where `HEAD` is part of the
    /// branch (a fast-forward: the merge base of the two is `HEAD`, also
    /// where both are one commit) the branch of `HEAD` moves to the commit
    /// of `name`, which is checked out.
    /// Otherwise the trees of the two are merged over the tree of their
    /// merge base. A clean merge is committed by `who` with both commits
    /// as parents, and the branch of `HEAD` moves to the new commit.
    /// Conflicts are left in the index, with stages 1 to 3, and in the
    /// working tree, and reported; no commit is made. A file of the
    /// working tree that neither the index before nor the new index binds
    /// stays as it is. Where one of the two commits has the tree of the
    /// merge base, the merge has no conflict and the branch of `HEAD` ends
    /// on a commit with the tree of the other. On failure nothing has
    /// changed but the object store, which may have grown.
    pub fn merge_branch(&mut self, name: &[u8], who: &Signature) -> (r: Result<
        MergeReport,
        EngineError,
    >)
        requires
            old(self).wf(),
        ensures
            r matches Err(e) ==> e.operation == Operation::Merge,
            final(self).wf(),
            old(self).objects@.submap_of(final(self).objects@),
            forall|tree: ObjectId|
                r is Ok && #[trigger] one_tree(*old(self), name@, tree) ==> merged_onto(
                    *old(self),
                    *final(self),
                    name@,
                    r->Ok_0,
                    tree,
                ),
            match r {
                Ok(report) => {
                    &&& merge_ends(old(self).refs@, name@) matches Ok((leaf, head, target))
                    &&& generation(old(self).objects@, head) is Some
                    &&& generation(old(self).objects@, target) is Some
                    &&& lines(report.conflicts@) == conflict_paths(
                        final(self).index@.paths,
                        final(self).index@.slots,
                    )
                    &&& {
                        let base = merge_base_of(old(self).objects@, head, target);
                        if base == Some(head) {
                            &&& report.kind == MergeKind::FastForward
                            &&& report.commit == Some(target)
                            &&& final(self).objects@ == old(self).objects@
                            &&& checkout_of(old(self).objects@, target) matches Ok((x, w))
                            &&& final(self).index@ == x
                            &&& final(self).workdir@ == carried(
                                old(self).workdir@,
                                old(self).index@,
                                w,
                            )
                            &&& swapped(
                                old(self).refs@,
                                leaf,
                                TargetView::Direct(target),
                                Some(TargetView::Direct(head)),
                            ) == Ok::<Refs, ErrorKind>(final(self).refs@)
                            &&& final(self).stashes == old(self).stashes
                            &&& final(self).rebase == old(self).rebase
                        } else {
                            &&& merged_commits(
                                old(self).objects@,
                                base,
                                head,
                                target,
                                who@,
                                merge_message(name@),
                            ) matches Ok((out, id, m, w))
                            &&& merge_in_place(*old(self), *final(self), out, id, m, w, leaf, Some(head))
                            &&& report.kind == (if id is Some {
                                MergeKind::Merged
                            } else {
                                MergeKind::Conflicted
                            })
                            &&& report.commit == (if id is Some {
                                id
                            } else {
                                Some(head)
                            })
                        }
                    }
                },
                Err(e) => only_objects_grew(*old(self), *final(self)) && match merge_ends(
                    old(self).refs@,
                    name@,
                ) {
                    Err(k) => e.kind == k,
                    Ok((leaf, head, target)) => if generation(old(self).objects@, head) is None
                        || generation(old(self).objects@, target) is None {
                        base_fails(old(self).objects@, head, target, e)
                    } else {
                        let base = merge_base_of(old(self).objects@, head, target);
                        if base == Some(head) {
                            checkout_of(old(self).objects@, target) == Err::<
                                (IndexView, WorkView),
                                ErrorKind,
                            >(e.kind)
                        } else {
                            merged_commits(
                                old(self).objects@,
                                base,
                                head,
                                target,
                                who@,
                                merge_message(name@),
                            ) == Err::<(MergeView, Option<ObjectId>, Objects, WorkView), ErrorKind>(
                                e.kind,
                            )
                        }
                    },
                },
            },
    {
        let (leaf, head, target) = match self.merge_ends(name) {
            Ok(t) => t,
            Err(e) => {
                return Err(e.during(Operation::Merge));
            },
        };
        let base = match merge_base(&self.objects, head, target) {
            Ok(b) => b,
            Err(e) => {
                return Err(e.during(Operation::Merge));
            },
        };
        proof {
            lemma_head_state(self.refs@);
        }
        if base == Some(head) {
            let (x, w) = match checkout(&self.objects, target, Operation::Merge) {
                Ok(pair) => pair,
                Err(e) => {
                    return Err(e.during(Operation::Merge));
                },
            };
            match advance(&mut self.refs, leaf.as_slice(), Some(head), target) {
                Ok(()) => {},
                Err(e) => {
                    return Err(e.during(Operation::Merge));
                },
            }
            self.workdir = self.workdir.carry(&self.index, w);
            self.index = x;
            let conflicts = self.index.conflict_paths();
            let report = MergeReport { kind: MergeKind::FastForward, commit: Some(target), conflicts };
            proof {
                assert forall|tree: ObjectId| #[trigger]
                    one_tree(*old(self), name@, tree) implies merged_onto(
                    *old(self),
                    *self,
                    name@,
                    report,
                    tree,
                ) by {
                    lemma_forward_onto(*old(self), *self, name@, report, tree);
                }
            }
            return Ok(report);
        }
        proof {
            reveal(merged_commits);
        }
        let head_tree = match get_commit(&self.objects, head, Operation::Merge) {
            Ok(c) => c.tree,
            Err(e) => {
                return Err(e.during(Operation::Merge));
            },
        };
        let target_tree = match get_commit(&self.objects, target, Operation::Merge) {
            Ok(c) => c.tree,
            Err(e) => {
                return Err(e.during(Operation::Merge));
            },
        };
        let base_tree = match base {
            None => None,
            Some(b) => match get_commit(&self.objects, b, Operation::Merge) {
                Ok(c) => Some(c.tree),
                Err(e) => {
                    return Err(e.during(Operation::Merge));
                },
            },
        };
        let out = match three_way_merge(&mut self.objects, base_tree, head_tree, target_tree) {
            Ok(out) => out,
            Err(e) => {
                return Err(e.during(Operation::Merge));
            },
        };
        let ghost mid = self.objects@;
        let mut parents: Vec<ObjectId> = Vec::new();
        parents.push(head);
        parents.push(target);
        assert(parents@ =~= seq![head, target]);
        let mut message: Vec<u8> = vec![
            77u8,
            101u8,
            114u8,
            103u8,
            101u8,
            32u8,
            98u8,
            114u8,
            97u8,
            110u8,
            99u8,
            104u8,
            32u8,
            39u8,
        ];
        assert(message@ =~= merge_word());
        bytes_append(&mut message, name);
        message.push(39);
        assert(message@ =~= merge_message(name@));
        let sealed = seal(&mut self.objects, &out, parents, who.copy(), who.copy(), message);
        proof {
            crate::store::lemma_extends_twice(old(self).objects@, mid, self.objects@);
        }
        let (id, w) = match sealed {
            Ok(pair) => pair,
            Err(e) => {
                return Err(e.during(Operation::Merge));
            },
        };
        match id {
            Some(c) => {
                match advance(&mut self.refs, leaf.as_slice(), Some(head), c) {
                    Ok(()) => {},
                    Err(e) => {
                        return Err(e.during(Operation::Merge));
                    },
                }
                self.workdir = self.workdir.carry(&self.index, w);
                self.index = out.index;
                let conflicts = self.index.conflict_paths();
                let report = MergeReport { kind: MergeKind::Merged, commit: Some(c), conflicts };
                proof {
                    assert forall|tree: ObjectId| #[trigger]
                        one_tree(*old(self), name@, tree) implies merged_onto(
                        *old(self),
                        *self,
                        name@,
                        report,
                        tree,
                    ) by {
                        lemma_merged_onto(*old(self), *self, name@, who@, report, tree);
                    }
                }
                Ok(report)
            },
            None => {
                self.workdir = self.workdir.carry(&self.index, w);
                self.index = out.index;
                let conflicts = self.index.conflict_paths();
                let report = MergeReport { kind: MergeKind::Conflicted, commit: Some(head), conflicts };
                proof {
                    assert forall|tree: ObjectId| #[trigger]
                        one_tree(*old(self), name@, tree) implies merged_onto(
                        *old(self),
                        *self,
                        name@,
                        report,
                        tree,
                    ) by {
                        lemma_merged_onto(*old(self), *self, name@, who@, report, tree);
                    }
                }
                Ok(report)
            },
        }
    }

    /// Picks the commit whose id `hex` spells onto `HEAD`: applies its
    /// changes, the difference between its tree and the tree of its first
    /// parent, to the tree of `HEAD`. A clean pick is committed by `who`
    /// under the author of the picked commit, and the branch of `HEAD`
    /// moves to the new commit. Conflicts are left in the index and in the
    /// working tree and reported; no commit is made. Fails with
    /// `InvalidArgument` where `hex` is no id. On failure nothing has
    /// changed but the object store, which may have grown.
    pub fn cherry_pick_commit(&mut self, hex: &[u8], who: &Signature) -> (r: Result<
        MergeReport,
        EngineError,
    >)
        requires
            old(self).wf(),
        ensures
            r matches Err(e) ==> e.operation == Operation::CherryPick,
            final(self).wf(),
            old(self).objects@.submap_of(final(self).objects@),
            match r {
                Ok(report) => {
                    &&& parse_id(hex@) matches Some(orig)
                    &&& head_state(old(self).refs@) matches Ok((leaf, Some(head)))
                    &&& picked_commit(old(self).objects@, orig, head, who@) matches Ok(
                        (out, id, m, w),
                    )
                    &&& merge_in_place(*old(self), *final(self), out, id, m, w, leaf, Some(head))
                    &&& report.kind == (if id is Some {
                        MergeKind::Merged
                    } else {
                        MergeKind::Conflicted
                    })
                    &&& report.commit == (if id is Some {
                        id
                    } else {
                        Some(head)
                    })
                    &&& lines(report.conflicts@) == conflict_paths(
                        final(self).index@.paths,
                        final(self).index@.slots,
                    )
                },
                Err(e) => only_objects_grew(*old(self), *final(self)) && match parse_id(hex@) {
                    None => e.kind == ErrorKind::InvalidArgument,
                    Some(orig) => match head_state(old(self).refs@) {
                        Err(k) => e.kind == k,
                        Ok((leaf, None)) => e.kind == ErrorKind::NotFound,
                        Ok((leaf, Some(head))) => picked_commit(
                            old(self).objects@,
                            orig,
                            head,
                            who@,
                        ) == Err::<(MergeView, Option<ObjectId>, Objects, WorkView), ErrorKind>(
                            e.kind,
                        ),
                    },
                },
            },
    {
        let orig = match ObjectId::from_hex(hex) {
            Ok(id) => id,
            Err(e) => {
                return Err(e.during(Operation::CherryPick));
            },
        };
        let (leaf, head) = match self.head_state() {
            Ok((leaf, Some(head))) => (leaf, head),
            Ok((leaf, None)) => {
                return Err(
                    EngineError::about_name(ErrorKind::NotFound, Operation::CherryPick, leaf.as_slice()),
                );
            },
            Err(e) => {
                return Err(e.during(Operation::CherryPick));
            },
        };
        proof {
            reveal(picked_commit);
            lemma_head_state(self.refs@);
        }
        let (author, mut message) = match get_commit(&self.objects, orig, Operation::Merge) {
            Ok(c) => (
                c.author.copy(),
                bytes_copy(c.message.as_slice()),
            ),
            Err(e) => {
                return Err(e.during(Operation::CherryPick));
            },
        };
        let out = match apply_commit(&mut self.objects, orig, head) {
            Ok(out) => out,
            Err(e) => {
                return Err(e.during(Operation::CherryPick));
            },
        };
        let ghost mid = self.objects@;
        let mut parents: Vec<ObjectId> = Vec::new();
        parents.push(head);
        assert(parents@ =~= seq![head]);
        let mut text: Vec<u8> = vec![
            67u8,
            104u8,
            101u8,
            114u8,
            114u8,
            121u8,
            45u8,
            112u8,
            105u8,
            99u8,
            107u8,
            58u8,
            32u8,
        ];
        assert(text@ =~= pick_word());
        bytes_append(&mut text, message.as_slice());
        let sealed = seal(&mut self.objects, &out, parents, author, who.copy(), text);
        proof {
            crate::store::lemma_extends_twice(old(self).objects@, mid, self.objects@);
        }
        let (id, w) = match sealed {
            Ok(pair) => pair,
            Err(e) => {
                return Err(e.during(Operation::CherryPick));
            },
        };
        match id {
            Some(c) => {
                match advance(&mut self.refs, leaf.as_slice(), Some(head), c) {
                    Ok(()) => {},
                    Err(e) => {
                        return Err(e.during(Operation::CherryPick));
                    },
                }
                self.workdir = self.workdir.carry(&self.index, w);
                self.index = out.index;
                let conflicts = self.index.conflict_paths();
                Ok(MergeReport { kind: MergeKind::Merged, commit: Some(c), conflicts })
            },
            None => {
                self.workdir = self.workdir.carry(&self.index, w);
                self.index = out.index;
                let conflicts = self.index.conflict_paths();
                Ok(MergeReport { kind: MergeKind::Conflicted, commit: Some(head), conflicts })
            },
        }
    }

    /// The paths in conflict with the content of each side: see
    /// [`Index::conflicts`].
    pub fn get_merge_conflicts(&self) -> (r: Result<Vec<Conflict>, EngineError>)
        requires
            self.wf(),
        ensures
            r matches Err(e) ==> e.operation == Operation::Conflicts,
            match r {
                Ok(list) => conflicts_of(self.objects@, self.index@.paths, self.index@.slots) == Ok::<
                    Seq<ConflictView>,
                    ErrorKind,
                >(conflict_views(list@)),
                Err(e) => conflicts_of(self.objects@, self.index@.paths, self.index@.slots) == Err::<
                    Seq<ConflictView>,
                    ErrorKind,
                >(e.kind),
            },
    {
        self.index.conflicts(&self.objects)
    }

    /// Accepts `content` as the resolution of `path`: writes it to the
    /// working tree and replaces what the index holds for the path, stages
    /// 1 to 3 of a conflict included, by one stage-0 entry for the content.
    /// The operation that met the conflict goes on only when the caller
    /// says so. On failure nothing has changed.
    pub fn resolve_conflict(&mut self, path: &[u8], content: &[u8]) -> (r: Result<
        ObjectId,
        EngineError,
    >)
        requires
            old(self).wf(),
        ensures
            r matches Err(e) ==> e.operation == Operation::Conflicts,
            final(self).wf(),
            final(self).refs@ == old(self).refs@,
            final(self).stashes == old(self).stashes,
            final(self).rebase == old(self).rebase,
            match r {
                Ok(id) => {
                    &&& path@.len() > 0
                    &&& stored(old(self).objects@, ObjectView::Blob(content@)) == Ok::<
                        (ObjectId, Objects),
                        ErrorKind,
                    >((id, final(self).objects@))
                    &&& final(self).index@.map() == old(self).index@.map().insert(
                        path@,
                        Slot::Resolved(TreeItem { mode: FileMode::Regular, id }),
                    )
                    &&& final(self).workdir@.map() == old(self).workdir@.map().insert(
                        path@,
                        content@,
                    )
                },
                Err(e) => {
                    &&& final(self).objects@ == old(self).objects@
                    &&& final(self).index@ == old(self).index@
                    &&& final(self).workdir@ == old(self).workdir@
                    &&& if path@.len() == 0 {
                        e.kind == ErrorKind::InvalidArgument
                    } else {
                        stored(old(self).objects@, ObjectView::Blob(content@)) == Err::<
                            (ObjectId, Objects),
                            ErrorKind,
                        >(e.kind)
                    }
                },
            },
    {
        match self.index.add(&mut self.objects, path, content) {
            Ok(id) => {
                self.workdir.write(path, content);
                Ok(id)
            },
            Err(e) => Err(e.during(Operation::Conflicts)),
        }
    }
}

} // verus!
