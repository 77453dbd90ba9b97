//! The rebase engine: a state machine that replays a plan of commits onto a
//! new base, pausing where a step needs the caller.

use vstd::prelude::*;
use crate::bytes::{bytes_append, bytes_copy};
use crate::error::{EngineError, ErrorKind, Operation};
use crate::history::{commit_at, commit_defect, get_commit};
use crate::index::{Index, IndexView};
use crate::nested::{index_of_flat, tree_read, tree_written};
use crate::merge::{merge_of, three_way_merge, MergeOutcome, MergeView};
use crate::object::{Commit, CommitView, Object, ObjectView, Signature, SignatureView};
use crate::oid::ObjectId;
use crate::store::{stored, ObjectStore, Objects};
use crate::worktree::{materialized, WorkTree, WorkView};

verus! {

/// What to do with a commit of the plan.
#[derive(Clone, Copy, Debug, PartialEq, Eq, Structural)]
pub enum RebaseAction {
    /// Replay the commit.
    Pick,
    /// Fold the commit into the one replayed before it.
    Squash,
    /// Replay the commit, then pause for the caller to amend.
    Edit,
    /// Replay the commit under another message.
    Reword,
    /// Leave the commit out.
    Drop,
}

/// The states of a rebase.
#[derive(Clone, Copy, Debug, PartialEq, Eq, Structural)]
pub enum RebasePhase {
    Idle,
    Planning,
    Replaying,
    Conflicted,
    Completed,
    Aborted,
}

/// What moves a rebase from one state to another.
#[derive(Clone, Copy, Debug, PartialEq, Eq, Structural)]
pub enum RebaseEvent {
    /// A plan is drawn up.
    Plan,
    /// Replaying begins.
    Start,
    /// A step met a conflict, or an edit step asks for the caller.
    Pause,
    /// The caller has resolved what the pause was for.
    Continue,
    /// The last step is done and the branch has moved.
    Finish,
    /// The caller gives the rebase up.
    Abort,
}

/// The transition table: the state after `event` in `phase`, `None` where
/// the event has no place in that state.
pub open spec fn transition(phase: RebasePhase, event: RebaseEvent) -> Option<RebasePhase> {
    match (phase, event) {
        (RebasePhase::Idle, RebaseEvent::Plan) => Some(RebasePhase::Planning),
        (RebasePhase::Completed, RebaseEvent::Plan) => Some(RebasePhase::Planning),
        (RebasePhase::Aborted, RebaseEvent::Plan) => Some(RebasePhase::Planning),
        (RebasePhase::Planning, RebaseEvent::Plan) => Some(RebasePhase::Planning),
        (RebasePhase::Planning, RebaseEvent::Start) => Some(RebasePhase::Replaying),
        (RebasePhase::Replaying, RebaseEvent::Pause) => Some(RebasePhase::Conflicted),
        (RebasePhase::Conflicted, RebaseEvent::Continue) => Some(RebasePhase::Replaying),
        (RebasePhase::Replaying, RebaseEvent::Finish) => Some(RebasePhase::Completed),
        (RebasePhase::Planning, RebaseEvent::Abort) => Some(RebasePhase::Aborted),
        (RebasePhase::Replaying, RebaseEvent::Abort) => Some(RebasePhase::Aborted),
        (RebasePhase::Conflicted, RebaseEvent::Abort) => Some(RebasePhase::Aborted),
        _ => None,
    }
}

/// The state in which a plan that is executed in `phase` is replayed: the
/// state after the plan is taken and started. `None` where a rebase is
/// under way, where a new plan has no place.
pub open spec fn started(phase: RebasePhase) -> Option<RebasePhase> {
    match transition(phase, RebaseEvent::Plan) {
        Some(p) => transition(p, RebaseEvent::Start),
        None => None,
    }
}

/// A replay is always started in the state `Replaying`, which both a
/// pause and the end of the replay can follow, and a pause can be left by
/// continuing only into that state again.
pub proof fn lemma_replaying(phase: RebasePhase)
    ensures
        started(phase) is Some ==> started(phase) == Some(RebasePhase::Replaying),
        transition(phase, RebaseEvent::Continue) is Some ==> phase == RebasePhase::Conflicted
            && transition(phase, RebaseEvent::Continue) == Some(RebasePhase::Replaying),
        transition(RebasePhase::Replaying, RebaseEvent::Finish) == Some(RebasePhase::Completed),
        transition(RebasePhase::Replaying, RebaseEvent::Pause) == Some(RebasePhase::Conflicted),
{
}

impl RebasePhase {
    /// The state in which a plan that is executed in this state is
    /// replayed.
    pub fn start(self) -> (r: Option<RebasePhase>)
        ensures
            r == started(self),
    {
        match self.after(RebaseEvent::Plan) {
            Some(p) => p.after(RebaseEvent::Start),
            None => None,
        }
    }

    /// The state after `event`, by the transition table.
    pub fn after(self, event: RebaseEvent) -> (r: Option<RebasePhase>)
        ensures
            r == transition(self, event),
    {
        match (self, event) {
            (RebasePhase::Idle, RebaseEvent::Plan) => Some(RebasePhase::Planning),
            (RebasePhase::Completed, RebaseEvent::Plan) => Some(RebasePhase::Planning),
            (RebasePhase::Aborted, RebaseEvent::Plan) => Some(RebasePhase::Planning),
            (RebasePhase::Planning, RebaseEvent::Plan) => Some(RebasePhase::Planning),
            (RebasePhase::Planning, RebaseEvent::Start) => Some(RebasePhase::Replaying),
            (RebasePhase::Replaying, RebaseEvent::Pause) => Some(RebasePhase::Conflicted),
            (RebasePhase::Conflicted, RebaseEvent::Continue) => Some(RebasePhase::Replaying),
            (RebasePhase::Replaying, RebaseEvent::Finish) => Some(RebasePhase::Completed),
            (RebasePhase::Planning, RebaseEvent::Abort) => Some(RebasePhase::Aborted),
            (RebasePhase::Replaying, RebaseEvent::Abort) => Some(RebasePhase::Aborted),
            (RebasePhase::Conflicted, RebaseEvent::Abort) => Some(RebasePhase::Aborted),
            _ => None,
        }
    }
}

/// One step of a plan: a commit, what to do with it, and the message to
/// use where the action is `Reword`.
#[derive(Clone, Debug, PartialEq, Eq)]
pub struct RebaseStep {
    pub commit: ObjectId,
    pub action: RebaseAction,
    pub message: Vec<u8>,
}

/// A value of [`RebaseStep`] as a value of mathematics.
pub struct StepView {
    pub commit: ObjectId,
    pub action: RebaseAction,
    pub message: Seq<u8>,
}

impl View for RebaseStep {
    type V = StepView;

    open spec fn view(&self) -> StepView {
        StepView { commit: self.commit, action: self.action, message: self.message@ }
    }
}

impl RebaseStep {
    /// A copy of the step.
    pub fn copy(&self) -> (s: RebaseStep)
        ensures
            s@ == self@,
    {
        RebaseStep {
            commit: self.commit,
            action: self.action,
            message: bytes_copy(self.message.as_slice()),
        }
    }
}

/// The views of a list of steps.
pub open spec fn step_views(steps: Seq<RebaseStep>) -> Seq<StepView> {
    Seq::new(steps.len(), |i: int| steps[i]@)
}

/// A copy of a list of steps.
pub fn steps_copy(steps: &Vec<RebaseStep>) -> (r: Vec<RebaseStep>)
    ensures
        step_views(r@) == step_views(steps@),
{
    let mut out: Vec<RebaseStep> = Vec::new();
    let mut i: usize = 0;
    while i < steps.len()
        invariant
            i <= steps@.len(),
            out@.len() == i,
            forall|j: int| 0 <= j < i ==> (#[trigger] out@[j])@ == steps@[j]@,
        decreases steps@.len() - i,
    {
        out.push(steps[i].copy());
        i += 1;
    }
    assert(step_views(out@) =~= step_views(steps@));
    out
}

/// Where a replay stands: the step to run next, the commit on which it
/// applies, the commit before the one replayed last (which a squash needs),
/// the commits produced so far, and whether the step to run next waits for
/// its conflicts to be resolved.
#[derive(Clone, Debug, PartialEq, Eq)]
pub struct Cursor {
    pub next: usize,
    pub base: ObjectId,
    pub before: Option<ObjectId>,
    pub produced: Vec<ObjectId>,
    pub resolving: bool,
}

/// A value of [`Cursor`] as a value of mathematics.
pub struct CursorView {
    pub next: nat,
    pub base: ObjectId,
    pub before: Option<ObjectId>,
    pub produced: Seq<ObjectId>,
    pub resolving: bool,
}

impl View for Cursor {
    type V = CursorView;

    open spec fn view(&self) -> CursorView {
        CursorView {
            next: self.next as nat,
            base: self.base,
            before: self.before,
            produced: self.produced@,
            resolving: self.resolving,
        }
    }
}

impl Cursor {
    /// The cursor at the start of a replay onto `onto`.
    pub fn at_start(onto: ObjectId) -> (c: Cursor)
        ensures
            c@ == start_cursor(onto),
    {
        Cursor { next: 0, base: onto, before: None, produced: Vec::new(), resolving: false }
    }

    /// A copy of the cursor.
    pub fn copy(&self) -> (c: Cursor)
        ensures
            c@ == self@,
    {
        Cursor {
            next: self.next,
            base: self.base,
            before: self.before,
            produced: crate::object::ids_copy(&self.produced),
            resolving: self.resolving,
        }
    }
}

/// The cursor at the start of a replay onto `onto`.
pub open spec fn start_cursor(onto: ObjectId) -> CursorView {
    CursorView { next: 0, base: onto, before: None, produced: Seq::empty(), resolving: false }
}

/// Reads `id` as a commit, or says why it cannot be read as one.
pub open spec fn commit_read(m: Objects, id: ObjectId) -> Result<CommitView, ErrorKind> {
    match commit_defect(m, id) {
        Some(k) => Err(k),
        None => Ok(commit_at(m, id)->0),
    }
}

/// The tree of the first parent of `c`; `None` for a commit without
/// parents, whose changes are relative to the empty tree.
pub open spec fn parent_tree(m: Objects, c: CommitView) -> Result<Option<ObjectId>, ErrorKind> {
    if c.parents.len() == 0 {
        Ok(None)
    } else {
        match commit_read(m, c.parents[0]) {
            Ok(p) => Ok(Some(p.tree)),
            Err(k) => Err(k),
        }
    }
}

/// The changes of the commit `orig` applied on the commit `base`: the
/// three-way merge of the tree of `orig` and the tree of `base` over the
/// tree of the first parent of `orig`.
#[verifier::opaque]
pub open spec fn applied(m: Objects, orig: ObjectId, base: ObjectId) -> Result<
    (MergeView, Objects),
    ErrorKind,
> {
    match commit_read(m, orig) {
        Err(k) => Err(k),
        Ok(oc) => match parent_tree(m, oc) {
            Err(k) => Err(k),
            Ok(pt) => match commit_read(m, base) {
                Err(k) => Err(k),
                Ok(bc) => merge_of(m, pt, oc.tree, bc.tree),
            },
        },
    }
}

/// Applies the changes of the commit `orig` on the commit `base`.
pub fn apply_commit(store: &mut ObjectStore, orig: ObjectId, base: ObjectId) -> (r: Result<
    MergeOutcome,
    EngineError,
>)
    requires
        old(store).wf(),
    ensures
        final(store).wf(),
        old(store)@.submap_of(final(store)@),
        match r {
            Ok(out) => out.index.wf() && applied(old(store)@, orig, base) == Ok::<
                (MergeView, Objects),
                ErrorKind,
            >((out@, final(store)@)),
            Err(e) => applied(old(store)@, orig, base) == Err::<(MergeView, Objects), ErrorKind>(
                e.kind,
            ),
        },
{
    proof {
        reveal(applied);
    }
    let (tree, first) = match get_commit(store, orig, Operation::Rebase) {
        Ok(c) => (
            c.tree,
            if c.parents.len() == 0 {
                None
            } else {
                Some(c.parents[0])
            },
        ),
        Err(e) => {
            return Err(e);
        },
    };
    let pt = match first {
        None => None,
        Some(p) => match get_commit(store, p, Operation::Rebase) {
            Ok(c) => Some(c.tree),
            Err(e) => {
                return Err(e);
            },
        },
    };
    let base_tree = match get_commit(store, base, Operation::Rebase) {
        Ok(c) => c.tree,
        Err(e) => {
            return Err(e);
        },
    };
    three_way_merge(store, pt, tree, base_tree)
}

/// Two line feeds: what stands between the messages of a squash.
pub open spec fn message_gap() -> Seq<u8> {
    seq![10u8, 10u8]
}

/// The commit that replaying `step` produces, given the commit `oc` of the
/// step, the commit `bc` on which it applies, and the merged tree. A pick
/// and an edit keep the author and the message; a reword takes the message
/// of the step; a squash replaces the commit replayed last, keeping its
/// parent and author and joining the two messages. `None`: a squash with
/// nothing to fold into, or a drop.
pub open spec fn commit_for(
    step: StepView,
    oc: CommitView,
    bc: CommitView,
    tree: ObjectId,
    cur: CursorView,
    committer: SignatureView,
) -> Option<CommitView> {
    match step.action {
        RebaseAction::Pick => Some(
            CommitView {
                tree,
                parents: seq![cur.base],
                author: oc.author,
                committer,
                message: oc.message,
            },
        ),
        RebaseAction::Edit => Some(
            CommitView {
                tree,
                parents: seq![cur.base],
                author: oc.author,
                committer,
                message: oc.message,
            },
        ),
        RebaseAction::Reword => Some(
            CommitView {
                tree,
                parents: seq![cur.base],
                author: oc.author,
                committer,
                message: step.message,
            },
        ),
        RebaseAction::Squash => match cur.before {
            Some(prev) => Some(
                CommitView {
                    tree,
                    parents: seq![prev],
                    author: bc.author,
                    committer,
                    message: bc.message + message_gap() + oc.message,
                },
            ),
            None => None,
        },
        RebaseAction::Drop => None,
    }
}

/// The cursor after a step produced the commit `new`: a squash replaces
/// the commit produced last, any other action adds one.
pub open spec fn moved(action: RebaseAction, cur: CursorView, new: ObjectId) -> CursorView {
    if action == RebaseAction::Squash {
        CursorView {
            next: cur.next + 1,
            base: new,
            before: cur.before,
            produced: if cur.produced.len() > 0 {
                cur.produced.drop_last().push(new)
            } else {
                seq![new]
            },
            resolving: false,
        }
    } else {
        CursorView {
            next: cur.next + 1,
            base: new,
            before: Some(cur.base),
            produced: cur.produced.push(new),
            resolving: false,
        }
    }
}

/// The outcome of creating the commit of a step from the merged tree
/// `tree`: the cursor and the store afterwards.
#[verifier::opaque]
pub open spec fn concluded(
    m: Objects,
    step: StepView,
    tree: ObjectId,
    cur: CursorView,
    committer: SignatureView,
) -> Result<(CursorView, Objects), ErrorKind> {
    match commit_read(m, step.commit) {
        Err(k) => Err(k),
        Ok(oc) => match commit_read(m, cur.base) {
            Err(k) => Err(k),
            Ok(bc) => match commit_for(step, oc, bc, tree, cur, committer) {
                None => Err(ErrorKind::InvalidArgument),
                Some(c) => match stored(m, ObjectView::Commit(c)) {
                    Err(k) => Err(k),
                    Ok((id, after)) => Ok((moved(step.action, cur, id), after)),
                },
            },
        },
    }
}

/// Creates the commit of a step from the merged tree `tree`.
pub fn conclude(
    store: &mut ObjectStore,
    step: &RebaseStep,
    tree: ObjectId,
    cur: Cursor,
    committer: &Signature,
) -> (r: Result<Cursor, EngineError>)
    requires
        old(store).wf(),
        cur.next < usize::MAX,
    ensures
        final(store).wf(),
        old(store)@.submap_of(final(store)@),
        match r {
            Ok(c) => concluded(old(store)@, step@, tree, cur@, committer@) == Ok::<
                (CursorView, Objects),
                ErrorKind,
            >((c@, final(store)@)),
            Err(e) => final(store)@ == old(store)@ && concluded(
                old(store)@,
                step@,
                tree,
                cur@,
                committer@,
            ) == Err::<(CursorView, Objects), ErrorKind>(e.kind),
        },
{
    proof {
        reveal(concluded);
    }
    let (author, message) = match get_commit(store, step.commit, Operation::Rebase) {
        Ok(c) => (c.author.copy(), bytes_copy(c.message.as_slice())),
        Err(e) => {
            return Err(e);
        },
    };
    let (base_author, base_message) = match get_commit(store, cur.base, Operation::Rebase) {
        Ok(c) => (c.author.copy(), bytes_copy(c.message.as_slice())),
        Err(e) => {
            return Err(e);
        },
    };
    let mut parents: Vec<ObjectId> = Vec::new();
    let commit = match step.action {
        RebaseAction::Pick | RebaseAction::Edit => {
            parents.push(cur.base);
            assert(parents@ =~= seq![cur.base]);
            Commit { tree, parents, author, committer: committer.copy(), message }
        },
        RebaseAction::Reword => {
            parents.push(cur.base);
            assert(parents@ =~= seq![cur.base]);
            Commit {
                tree,
                parents,
                author,
                committer: committer.copy(),
                message: bytes_copy(step.message.as_slice()),
            }
        },
        RebaseAction::Squash => match cur.before {
            Some(prev) => {
                parents.push(prev);
                assert(parents@ =~= seq![prev]);
                let mut joined = base_message;
                joined.push(10);
                joined.push(10);
                bytes_append(&mut joined, message.as_slice());
                assert(joined@ =~= base_message@ + message_gap() + message@);
                Commit {
                    tree,
                    parents,
                    author: base_author,
                    committer: committer.copy(),
                    message: joined,
                }
            },
            None => {
                return Err(EngineError::about_object(
                    ErrorKind::InvalidArgument,
                    Operation::Rebase,
                    step.commit,
                ));
            },
        },
        RebaseAction::Drop => {
            return Err(EngineError::about_object(
                ErrorKind::InvalidArgument,
                Operation::Rebase,
                step.commit,
            ));
        },
    };
    let id = match store.put(Object::Commit(commit)) {
        Ok(id) => id,
        Err(e) => {
            return Err(e);
        },
    };
    let mut produced = cur.produced;
    if let RebaseAction::Squash = step.action {
        let ghost before = produced@;
        produced.pop();
        proof {
            if before.len() > 0 {
                assert(produced@ =~= before.drop_last());
            }
        }
        produced.push(id);
        assert(before.len() == 0 ==> produced@ =~= seq![id]);
        Ok(Cursor { next: cur.next + 1, base: id, before: cur.before, produced, resolving: false })
    } else {
        produced.push(id);
        Ok(
            Cursor {
                next: cur.next + 1,
                base: id,
                before: Some(cur.base),
                produced,
                resolving: false,
            },
        )
    }
}

/// How a replay ends, or pauses.
pub enum RunView {
    /// Every step is done: the cursor and the store.
    Done(CursorView, Objects),
    /// A step waits for the caller: the cursor, the store, and the index
    /// and working tree that the caller finds.
    Paused(CursorView, Objects, IndexView, WorkView),
    /// A step failed.
    Failed(ErrorKind),
}

/// One step of a replay. A drop only moves on. Any other action applies
/// the changes of the commit on the current base. Where that leaves
/// conflicts, the replay pauses at the step, with the conflicts in the
/// index and the three sides of each in the working tree. Else the commit
/// of the step is created and the replay moves on, except after an edit,
/// which pauses with the result checked out.
pub open spec fn step_of(m: Objects, step: StepView, cur: CursorView, committer: SignatureView)
    -> RunView {
    if step.action == RebaseAction::Drop {
        RunView::Done(CursorView { next: cur.next + 1, ..cur }, m)
    } else {
        match applied(m, step.commit, cur.base) {
            Err(k) => RunView::Failed(k),
            Ok((out, m1)) => match out.tree_id {
                None => match materialized(m1, out.index) {
                    Err(k) => RunView::Failed(k),
                    Ok(w) => RunView::Paused(
                        CursorView { resolving: true, ..cur },
                        m1,
                        out.index,
                        w,
                    ),
                },
                Some(tree) => match concluded(m1, step, tree, cur, committer) {
                    Err(k) => RunView::Failed(k),
                    Ok((c2, m2)) => if step.action == RebaseAction::Edit {
                        match materialized(m2, out.index) {
                            Err(k) => RunView::Failed(k),
                            Ok(w) => RunView::Paused(c2, m2, out.index, w),
                        }
                    } else {
                        RunView::Done(c2, m2)
                    },
                },
            },
        }
    }
}

/// The replay of the steps from the cursor on, until a step pauses or
/// fails or none is left.
pub open spec fn run_of(m: Objects, steps: Seq<StepView>, cur: CursorView, committer: SignatureView)
    -> RunView
    decreases steps.len() - cur.next,
{
    if cur.next >= steps.len() {
        RunView::Done(cur, m)
    } else {
        match step_of(m, steps[cur.next as int], cur, committer) {
            RunView::Done(c2, m2) => run_of(
                m2,
                steps,
                CursorView { next: cur.next + 1, ..c2 },
                committer,
            ),
            other => other,
        }
    }
}

/// How a replay ends, or pauses.
#[derive(Debug)]
pub enum RunOutcome {
    Done(Cursor),
    Paused(Cursor, Index, WorkTree),
}

impl RunOutcome {
    /// The outcome as a value of mathematics, in the store `m`.
    pub open spec fn view_in(self, m: Objects) -> RunView {
        match self {
            RunOutcome::Done(c) => RunView::Done(c@, m),
            RunOutcome::Paused(c, x, w) => RunView::Paused(c@, m, x@, w@),
        }
    }

    /// The index and the working tree of a pause are well formed.
    pub open spec fn wf(self) -> bool {
        match self {
            RunOutcome::Done(_) => true,
            RunOutcome::Paused(_, x, w) => x.wf() && w.wf(),
        }
    }
}

/// A step always moves the cursor by one.
pub proof fn lemma_step_moves(m: Objects, step: StepView, cur: CursorView, committer: SignatureView)
    ensures
        step_of(m, step, cur, committer) matches RunView::Done(c2, _) ==> c2.next == cur.next + 1,
        step_of(m, step, cur, committer) matches RunView::Paused(c2, _, _, _) ==> c2.next
            == cur.next || c2.next == cur.next + 1,
{
    reveal(concluded);
}

/// Runs the step `step` at the cursor.
pub fn run_step(store: &mut ObjectStore, step: &RebaseStep, cur: Cursor, committer: &Signature)
    -> (r: Result<RunOutcome, EngineError>)
    requires
        old(store).wf(),
        cur.next < usize::MAX,
    ensures
        final(store).wf(),
        old(store)@.submap_of(final(store)@),
        match r {
            Ok(out) => out.wf() && step_of(old(store)@, step@, cur@, committer@) == out.view_in(
                final(store)@,
            ),
            Err(e) => step_of(old(store)@, step@, cur@, committer@) == RunView::Failed(e.kind),
        },
{
    let mut cur = cur;
    if let RebaseAction::Drop = step.action {
        cur.next = cur.next + 1;
        return Ok(RunOutcome::Done(cur));
    }
    let out = match apply_commit(store, step.commit, cur.base) {
        Ok(out) => out,
        Err(e) => {
            return Err(e);
        },
    };
    let ghost mid = store@;
    match out.tree_id {
        None => {
            let w = match WorkTree::materialize(store, &out.index) {
                Ok(w) => w,
                Err(e) => {
                    return Err(e);
                },
            };
            cur.resolving = true;
            Ok(RunOutcome::Paused(cur, out.index, w))
        },
        Some(tree) => {
            let is_edit = match step.action {
                RebaseAction::Edit => true,
                _ => false,
            };
            let moved = match conclude(store, step, tree, cur, committer) {
                Ok(c) => c,
                Err(e) => {
                    return Err(e);
                },
            };
            proof {
                crate::store::lemma_extends_twice(old(store)@, mid, store@);
            }
            if is_edit {
                let w = match WorkTree::materialize(store, &out.index) {
                    Ok(w) => w,
                    Err(e) => {
                        return Err(e);
                    },
                };
                Ok(RunOutcome::Paused(moved, out.index, w))
            } else {
                Ok(RunOutcome::Done(moved))
            }
        },
    }
}

/// Replays the steps from the cursor on, until a step pauses or fails or
/// none is left.
pub fn run(store: &mut ObjectStore, steps: &Vec<RebaseStep>, cur: Cursor, committer: &Signature)
    -> (r: Result<RunOutcome, EngineError>)
    requires
        old(store).wf(),
    ensures
        final(store).wf(),
        old(store)@.submap_of(final(store)@),
        match r {
            Ok(out) => out.wf() && run_of(old(store)@, step_views(steps@), cur@, committer@)
                == out.view_in(final(store)@),
            Err(e) => run_of(old(store)@, step_views(steps@), cur@, committer@) == RunView::Failed(
                e.kind,
            ),
        },
{
    let mut at = cur.copy();
    let ghost all = step_views(steps@);
    let ghost goal = run_of(store@, all, cur@, committer@);
    while at.next < steps.len()
        invariant
            store.wf(),
            old(store)@.submap_of(store@),
            all == step_views(steps@),
            goal == run_of(old(store)@, all, cur@, committer@),
            goal == run_of(store@, all, at@, committer@),
        decreases steps@.len() - at.next,
    {
        let step = &steps[at.next];
        assert(all[at.next as int] == step@);
        let ghost mid = store@;
        proof {
            lemma_step_moves(store@, step@, at@, committer@);
        }
        let stepped = run_step(store, step, at, committer);
        proof {
            crate::store::lemma_extends_twice(old(store)@, mid, store@);
        }
        match stepped {
            Err(e) => {
                return Err(e);
            },
            Ok(RunOutcome::Paused(c, x, w)) => {
                return Ok(RunOutcome::Paused(c, x, w));
            },
            Ok(RunOutcome::Done(c)) => {
                at = c;
            },
        }
    }
    Ok(RunOutcome::Done(at))
}

/// The parents of the commit that amends the commit `bc`, which the replay
/// produced last: the commit before it, or where the replay does not know
/// it, the parents of `bc`.
pub open spec fn amend_parents(cur: CursorView, bc: CommitView) -> Seq<ObjectId> {
    match cur.before {
        Some(prev) => seq![prev],
        None => bc.parents,
    }
}

/// The cursor after the commit produced last was replaced by `new`.
pub open spec fn replaced(cur: CursorView, new: ObjectId) -> CursorView {
    CursorView {
        next: cur.next,
        base: new,
        before: cur.before,
        produced: if cur.produced.len() > 0 {
            cur.produced.drop_last().push(new)
        } else {
            seq![new]
        },
        resolving: false,
    }
}

/// What the caller's amendment during the pause of an edit comes to.
/// Where the index `x` holds what the tree of the commit produced last
/// holds, nothing: the cursor and the store stay. Else that commit is
/// replaced by one with the trees of the index, under the same author and
/// message and with the same parent.
#[verifier::opaque]
pub open spec fn amended(m: Objects, x: IndexView, cur: CursorView, committer: SignatureView)
    -> Result<(CursorView, Objects), ErrorKind> {
    match commit_read(m, cur.base) {
        Err(k) => Err(k),
        Ok(bc) => match tree_read(m, bc.tree) {
            Err(k) => Err(k),
            Ok(f) => if x == index_of_flat(f) {
                Ok((cur, m))
            } else {
                match tree_written(m, x) {
                    Err(k) => Err(k),
                    Ok((tree, m1)) => match stored(
                        m1,
                        ObjectView::Commit(
                            CommitView {
                                tree,
                                parents: amend_parents(cur, bc),
                                author: bc.author,
                                committer,
                                message: bc.message,
                            },
                        ),
                    ) {
                        Err(k) => Err(k),
                        Ok((id, m2)) => Ok((replaced(cur, id), m2)),
                    },
                }
            },
        },
    }
}

/// Takes the caller's amendment during the pause of an edit into the
/// replay: see [`amended`].
pub fn amend(store: &mut ObjectStore, x: &Index, cur: Cursor, committer: &Signature) -> (r: Result<
    Cursor,
    EngineError,
>)
    requires
        old(store).wf(),
        x.wf(),
    ensures
        final(store).wf(),
        old(store)@.submap_of(final(store)@),
        match r {
            Ok(c) => amended(old(store)@, x@, cur@, committer@) == Ok::<
                (CursorView, Objects),
                ErrorKind,
            >((c@, final(store)@)),
            Err(e) => amended(old(store)@, x@, cur@, committer@) == Err::<
                (CursorView, Objects),
                ErrorKind,
            >(e.kind),
        },
{
    proof {
        reveal(amended);
    }
    let (tree_was, parents_were, author, message) = match get_commit(
        store,
        cur.base,
        Operation::Rebase,
    ) {
        Ok(c) => (
            c.tree,
            crate::object::ids_copy(&c.parents),
            c.author.copy(),
            bytes_copy(c.message.as_slice()),
        ),
        Err(e) => {
            return Err(e);
        },
    };
    let was = match Index::from_tree(store, tree_was) {
        Ok(w) => w,
        Err(e) => {
            return Err(e);
        },
    };
    if x.same(&was) {
        return Ok(cur);
    }
    let tree = match x.write_tree(store) {
        Ok(id) => id,
        Err(e) => {
            return Err(e);
        },
    };
    let ghost mid = store@;
    let parents = match cur.before {
        Some(prev) => {
            let mut p: Vec<ObjectId> = Vec::new();
            p.push(prev);
            assert(p@ =~= seq![prev]);
            p
        },
        None => parents_were,
    };
    let id = match store.put(
        Object::Commit(Commit { tree, parents, author, committer: committer.copy(), message }),
    ) {
        Ok(id) => id,
        Err(e) => {
            proof {
                crate::store::lemma_extends_twice(old(store)@, mid, store@);
            }
            return Err(e);
        },
    };
    proof {
        crate::store::lemma_extends_twice(old(store)@, mid, store@);
    }
    let mut produced = cur.produced;
    let ghost before = produced@;
    produced.pop();
    proof {
        if before.len() > 0 {
            assert(produced@ =~= before.drop_last());
        }
    }
    produced.push(id);
    assert(before.len() == 0 ==> produced@ =~= seq![id]);
    Ok(Cursor { next: cur.next, base: id, before: cur.before, produced, resolving: false })
}

/// The commits of a list of steps.
pub open spec fn commits_of(steps: Seq<StepView>) -> Seq<ObjectId> {
    Seq::new(steps.len(), |i: int| steps[i].commit)
}

/// Replaying the commit `orig` on the commit `base` as a pick: applying
/// its changes and committing the merged tree on `base` under the author
/// and the message of `orig`. Conflicts are a failure here.
pub open spec fn picked(m: Objects, orig: ObjectId, base: ObjectId, committer: SignatureView)
    -> Result<(ObjectId, Objects), ErrorKind> {
    match applied(m, orig, base) {
        Err(k) => Err(k),
        Ok((out, m1)) => match out.tree_id {
            None => Err(ErrorKind::Conflict),
            Some(tree) => match commit_read(m1, orig) {
                Err(k) => Err(k),
                Ok(oc) => match commit_read(m1, base) {
                    Err(k) => Err(k),
                    Ok(_) => stored(
                        m1,
                        ObjectView::Commit(
                            CommitView {
                                tree,
                                parents: seq![base],
                                author: oc.author,
                                committer,
                                message: oc.message,
                            },
                        ),
                    ),
                },
            },
        },
    }
}

/// Replaying the commits `origs` in order as picks, the first on `base`
/// and each other on the commit that the one before it produced: the new
/// commits and the store afterwards.
pub open spec fn replay_picks(
    m: Objects,
    origs: Seq<ObjectId>,
    base: ObjectId,
    committer: SignatureView,
) -> Result<(Seq<ObjectId>, Objects), ErrorKind>
    decreases origs.len(),
{
    if origs.len() == 0 {
        Ok((Seq::empty(), m))
    } else {
        match picked(m, origs[0], base, committer) {
            Err(k) => Err(k),
            Ok((id, m1)) => match replay_picks(m1, origs.drop_first(), id, committer) {
                Err(k) => Err(k),
                Ok((rest, m2)) => Ok((seq![id] + rest, m2)),
            },
        }
    }
}

/// A plan of picks that runs to the end without a conflict produces one
/// new commit for each step: the commits that replaying the commits of the
/// steps in order gives, each on top of the one before it and the first on the
/// base. The replay ends on the last of them.
pub proof fn lemma_all_picks(m: Objects, steps: Seq<StepView>, cur: CursorView, committer: SignatureView)
    requires
        cur.next <= steps.len(),
        forall|i: int| cur.next <= i < steps.len() ==> (#[trigger] steps[i]).action == RebaseAction::Pick,
        run_of(m, steps, cur, committer) is Done,
    ensures
        ({
            let c2 = run_of(m, steps, cur, committer)->Done_0;
            let m2 = run_of(m, steps, cur, committer)->Done_1;
            let news = c2.produced.skip(cur.produced.len() as int);
            &&& replay_picks(m, commits_of(steps).skip(cur.next as int), cur.base, committer) == Ok::<
                (Seq<ObjectId>, Objects),
                ErrorKind,
            >((news, m2))
            &&& news.len() == steps.len() - cur.next
            &&& c2.produced == cur.produced + news
            &&& c2.base == (if news.len() > 0 {
                news.last()
            } else {
                cur.base
            })
            &&& c2.next == steps.len()
        }),
    decreases steps.len() - cur.next,
{
    let origs = commits_of(steps).skip(cur.next as int);
    if cur.next >= steps.len() {
        assert(cur.produced.skip(cur.produced.len() as int) =~= Seq::<ObjectId>::empty());
        assert(cur.produced + Seq::<ObjectId>::empty() =~= cur.produced);
    } else {
        reveal(concluded);
        let step = steps[cur.next as int];
        assert(step.action == RebaseAction::Pick);
        assert(origs[0] == step.commit);
        let (out, m1) = applied(m, step.commit, cur.base)->Ok_0;
        let tree = out.tree_id->0;
        let (c1, m2) = concluded(m1, step, tree, cur, committer)->Ok_0;
        let c1n = CursorView { next: cur.next + 1, ..c1 };
        assert(c1n == c1);
        lemma_all_picks(m2, steps, c1, committer);
        let id = c1.base;
        assert(picked(m, step.commit, cur.base, committer) == Ok::<(ObjectId, Objects), ErrorKind>(
            (id, m2),
        ));
        assert(origs.drop_first() =~= commits_of(steps).skip(c1.next as int));
        let c2 = run_of(m, steps, cur, committer)->Done_0;
        let rest = c2.produced.skip(c1.produced.len() as int);
        let news = c2.produced.skip(cur.produced.len() as int);
        assert(c1.produced == cur.produced.push(id));
        assert(news =~= seq![id] + rest);
        assert(c2.produced =~= cur.produced + news);
    }
}

} // verus!
