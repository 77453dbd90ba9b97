//! The interactive rebase of a repository: planning, executing a plan,
//! continuing after a pause, aborting.

use vstd::prelude::*;
use vstd::pervasive::unreached;
use crate::bytes::bytes_copy;
use crate::error::{EngineError, ErrorKind, Operation};
use crate::history::{commit_at, get_commit};
use crate::index::{conflict_paths, Index, IndexView};
use crate::keys::lines;
use crate::merge::{base_fails, merge_base, merge_base_of};
use crate::nested::tree_written;
use crate::object::{ids_copy, Signature, SignatureView};
use crate::oid::{parse_id, ObjectId};
use crate::rebase::{amend, amended, conclude, concluded, lemma_replaying, run, run_of, start_cursor,
    started, step_views, steps_copy, transition, Cursor, CursorView, RebaseAction, RebaseEvent,
    RebasePhase, RebaseStep, RunOutcome, RunView, StepView};
use crate::refs::{resolved, swapped, RefStore, Refs, TargetView};
use crate::repo::{advance, branch_name, branch_ref, checkout, checkout_of, expected_of,
    head_state, Rebase, Repository};
use crate::store::Objects;
use crate::walk::{is_walk, walk, walk_fails};
use crate::worktree::{bound_files, carried, WorkTree, WorkView};

verus! {

/// A plan for a rebase: the steps, oldest commit first, and the name of
/// the branch onto which they are replayed.
#[derive(Clone, Debug, PartialEq, Eq)]
pub struct RebasePlan {
    pub steps: Vec<RebaseStep>,
    pub onto: Vec<u8>,
}

/// What an operation of a rebase reports: the state reached, the commits
/// produced so far and the paths in conflict.
#[derive(Clone, Debug, PartialEq, Eq)]
pub struct RebaseReport {
    pub phase: RebasePhase,
    pub produced: Vec<ObjectId>,
    pub conflicts: Vec<Vec<u8>>,
}

/// A rebase is under way in `phase`: it has started and has neither
/// completed nor been aborted, so that by the transition table no plan
/// can be started.
pub open spec fn under_way(phase: RebasePhase) -> bool {
    started(phase) is None
}

/// The repository `after` is what a replay that ended as `run` leaves of
/// the repository `before`. The replay ran in the state `Replaying`, and
/// the state afterwards is what the transition table gives for its end
/// (`Finish`) or its pause (`Pause`). A replay that is done has moved the branch
/// `leaf` from `tip` to the last commit by compare-and-swap and checked
/// that commit out; the rebase is completed. A replay that pauses has left
/// the references alone and put the index and the files of the pause in
/// place; the rebase is in conflict. Either way a file of the working tree
/// that neither the index before nor the new index binds is as it was.
pub open spec fn replay_settled(
    before: Repository,
    after: Repository,
    run: RunView,
    leaf: Seq<u8>,
    tip: Option<ObjectId>,
) -> bool {
    &&& after.stashes == before.stashes
    &&& after.rebase.branch@ == leaf
    &&& after.rebase.start == tip
    &&& match run {
        RunView::Done(c, m) => {
            &&& after.objects@ == m
            &&& checkout_of(m, c.base) matches Ok((x, w))
            &&& after.index@ == x
            &&& after.workdir@ == carried(before.workdir@, before.index@, w)
            &&& swapped(before.refs@, leaf, TargetView::Direct(c.base), expected_of(tip)) == Ok::<
                Refs,
                ErrorKind,
            >(after.refs@)
            &&& transition(RebasePhase::Replaying, RebaseEvent::Finish) == Some(after.rebase.phase)
            &&& after.rebase.cursor@ == c
        },
        RunView::Paused(c, m, x, w) => {
            &&& after.objects@ == m
            &&& after.index@ == x
            &&& after.workdir@ == carried(before.workdir@, before.index@, w)
            &&& after.refs@ == before.refs@
            &&& transition(RebasePhase::Replaying, RebaseEvent::Pause) == Some(after.rebase.phase)
            &&& after.rebase.cursor@ == c
        },
        RunView::Failed(_) => false,
    }
}

/// Why a replay that ended as `run` cannot be settled: it failed; or it is
/// done and its last commit cannot be checked out, or the branch has moved
/// since the rebase started, which is `ConcurrentModification`.
pub open spec fn settle_failure(refs: Refs, run: RunView, leaf: Seq<u8>, tip: Option<ObjectId>)
    -> Option<ErrorKind> {
    match run {
        RunView::Failed(k) => Some(k),
        RunView::Paused(_, _, _, _) => None,
        RunView::Done(c, m) => match checkout_of(m, c.base) {
            Err(k) => Some(k),
            Ok(_) => match swapped(refs, leaf, TargetView::Direct(c.base), expected_of(tip)) {
                Err(k) => Some(k),
                Ok(_) => None,
            },
        },
    }
}

/// Nothing but the object store, which may have grown, differs between
/// `before` and `after`.
pub open spec fn only_objects_grew(before: Repository, after: Repository) -> bool {
    &&& before.objects@.submap_of(after.objects@)
    &&& after.refs@ == before.refs@
    &&& after.index@ == before.index@
    &&& after.workdir@ == before.workdir@
    &&& after.stashes == before.stashes
    &&& after.rebase == before.rebase
}

/// Why a plan cannot be executed, if it cannot: a rebase is under way
/// (`InvalidArgument`); `HEAD` cannot be followed, or names no commit
/// (`NotFound`); the branch `onto` does not resolve; or the replay cannot
/// be settled.
pub open spec fn execute_failure(before: Repository, steps: Seq<StepView>, onto: Seq<u8>, who: SignatureView)
    -> Option<ErrorKind> {
    if under_way(before.rebase.phase) {
        Some(ErrorKind::InvalidArgument)
    } else {
        match head_state(before.refs@) {
            Err(k) => Some(k),
            Ok((leaf, tip)) => if tip is None {
                Some(ErrorKind::NotFound)
            } else {
                match resolved(before.refs@, branch_ref(onto)) {
                    Err(k) => Some(k),
                    Ok(target) => settle_failure(
                        before.refs@,
                        run_of(before.objects@, steps, start_cursor(target), who),
                        leaf,
                        tip,
                    ),
                }
            },
        }
    }
}

/// Why a paused rebase cannot continue, if it cannot: no rebase is paused
/// (`InvalidArgument`); a path is still in conflict (`Conflict`); the
/// commit of the resolved step cannot be created; or the rest of the
/// replay cannot be settled.
pub open spec fn continue_failure(before: Repository) -> Option<ErrorKind> {
    if transition(before.rebase.phase, RebaseEvent::Continue) != Some(RebasePhase::Replaying) {
        Some(ErrorKind::InvalidArgument)
    } else if before.index@.has_conflicts() {
        Some(ErrorKind::Conflict)
    } else {
        match resumed(before) {
            Err(k) => Some(k),
            Ok((c, m)) => settle_failure(
                before.refs@,
                run_of(m, step_views(before.rebase.steps@), c, before.rebase.committer@),
                before.rebase.branch@,
                before.rebase.start,
            ),
        }
    }
}

/// The cursor and the store with which a paused replay resumes. A step
/// that waited for its conflicts gets its commit from the tree of the
/// index, which the caller has resolved. After the pause of an edit, what
/// the caller staged meanwhile amends the commit of the step.
pub open spec fn resumed(before: Repository) -> Result<(CursorView, Objects), ErrorKind> {
    let cur = before.rebase.cursor@;
    if !cur.resolving {
        amended(before.objects@, before.index@, cur, before.rebase.committer@)
    } else if cur.next >= before.rebase.steps@.len() {
        Err(ErrorKind::InvalidArgument)
    } else {
        match tree_written(before.objects@, before.index@) {
            Err(k) => Err(k),
            Ok((tree, m1)) => concluded(
                m1,
                before.rebase.steps@[cur.next as int]@,
                tree,
                cur,
                before.rebase.committer@,
            ),
        }
    }
}

/// What a walk that stops at the merge base hides.
pub open spec fn hidden_of(base: Option<ObjectId>) -> Seq<ObjectId> {
    match base {
        Some(b) => seq![b],
        None => Seq::empty(),
    }
}

/// What the walk of a plan hides: the commit `from` where the caller
/// names one, else the merge base of `tip` and `target`.
pub open spec fn hidden_for(m: Objects, tip: ObjectId, target: ObjectId, from: Option<ObjectId>) -> Seq<
    ObjectId,
> {
    match from {
        Some(c) => seq![c],
        None => hidden_of(merge_base_of(m, tip, target)),
    }
}

/// `steps` is the plan for replaying the commits of `tip` that `hidden`
/// does not reach: those commits oldest first, which is the walk from
/// `tip` in reverse; each to be picked, under its own message.
pub open spec fn is_plan_hiding(m: Objects, tip: ObjectId, hidden: Seq<ObjectId>, steps: Seq<StepView>)
    -> bool {
    &&& is_walk(m, seq![tip], hidden, crate::rebase::commits_of(steps).reverse())
    &&& forall|i: int|
        0 <= i < steps.len() ==> (#[trigger] steps[i]).action == RebaseAction::Pick && commit_at(
            m,
            steps[i].commit,
        ) is Some && steps[i].message == commit_at(m, steps[i].commit)->0.message
}

/// `steps` is the plan for rebasing the commit `tip` onto the commit
/// `target`: the commits that `tip` reaches and the merge base of the two
/// does not, oldest first, each to be picked, under its own message.
pub open spec fn is_plan(m: Objects, tip: ObjectId, target: ObjectId, steps: Seq<StepView>) -> bool {
    is_plan_hiding(m, tip, hidden_of(merge_base_of(m, tip, target)), steps)
}

/// The commit that the caller of a plan wants hidden: none where `from`
/// is `None`, the commit that the digits spell where they spell an id.
/// `None` where they spell none.
pub open spec fn from_id(from: Option<&[u8]>) -> Option<Option<ObjectId>> {
    match from {
        None => Some(None),
        Some(h) => match parse_id(h@) {
            Some(id) => Some(Some(id)),
            None => None,
        },
    }
}

/// Planning a rebase onto the branch `onto`, with the commit `from`
/// hidden where one is named, fails with `e`: `HEAD` cannot be followed,
/// or names no commit (`NotFound`); the branch does not resolve; or the
/// history that is read holds an id that does not read as a commit, or a
/// cycle.
pub open spec fn plan_fails_from(before: Repository, onto: Seq<u8>, from: Option<ObjectId>, e: EngineError)
    -> bool {
    match head_state(before.refs@) {
        Err(k) => e.kind == k,
        Ok((leaf, None)) => e.kind == ErrorKind::NotFound,
        Ok((leaf, Some(tip))) => match resolved(before.refs@, branch_ref(onto)) {
            Err(k) => e.kind == k,
            Ok(target) => match from {
                Some(c) => walk_fails(before.objects@, seq![tip], seq![c], e),
                None => base_fails(before.objects@, tip, target, e) || walk_fails(
                    before.objects@,
                    seq![tip],
                    hidden_of(merge_base_of(before.objects@, tip, target)),
                    e,
                ),
            },
        },
    }
}

/// Planning a rebase onto the branch `onto` fails with `e`: see
/// [`plan_fails_from`].
pub open spec fn plan_fails(before: Repository, onto: Seq<u8>, e: EngineError) -> bool {
    plan_fails_from(before, onto, None, e)
}

/// `steps` is the plan for rebasing the commits of `HEAD` onto the branch
/// `onto`.
pub open spec fn planned(before: Repository, onto: Seq<u8>, steps: Seq<StepView>) -> bool {
    &&& head_state(before.refs@) matches Ok((leaf, Some(tip)))
    &&& resolved(before.refs@, branch_ref(onto)) matches Ok(target)
    &&& is_plan(before.objects@, tip, target, steps)
}

/// The repository `after` and the report are what executing the plan
/// `steps` onto the branch `onto` leaves of the repository `before`: the
/// replay has been settled, and the references, the index and the working
/// tree of `before` are saved for an abort.
pub open spec fn executed(
    before: Repository,
    after: Repository,
    steps: Seq<StepView>,
    onto: Seq<u8>,
    who: SignatureView,
    report: RebaseReport,
) -> bool {
    &&& execute_failure(before, steps, onto, who) is None
    &&& started(before.rebase.phase) == Some(RebasePhase::Replaying)
    &&& replay_settled(
        before,
        after,
        run_of(
            before.objects@,
            steps,
            start_cursor(resolved(before.refs@, branch_ref(onto))->Ok_0),
            who,
        ),
        head_state(before.refs@)->Ok_0.0,
        head_state(before.refs@)->Ok_0.1,
    )
    &&& step_views(after.rebase.steps@) == steps
    &&& after.rebase.committer@ == who
    &&& after.rebase.saved_refs@ == before.refs@
    &&& after.rebase.saved_index@ == before.index@
    &&& after.rebase.saved_workdir@ == before.workdir@
    &&& report.phase == after.rebase.phase
    &&& report.produced@ == after.rebase.cursor@.produced
    &&& lines(report.conflicts@) == conflict_paths(after.index@.paths, after.index@.slots)
}

impl Repository {
    /// The plan for rebasing the commits of `HEAD` onto the branch `onto`,
    /// with the branch of `HEAD`, its commit and the commit of `onto`.
    fn plan(&self, onto: &[u8], from: Option<ObjectId>) -> (r: Result<
        (RebasePlan, Vec<u8>, ObjectId, ObjectId),
        EngineError,
    >)
        requires
            self.wf(),
        ensures
            match r {
                Ok((plan, leaf, tip, target)) => {
                    &&& head_state(self.refs@) == Ok::<(Seq<u8>, Option<ObjectId>), ErrorKind>(
                        (leaf@, Some(tip)),
                    )
                    &&& resolved(self.refs@, branch_ref(onto@)) == Ok::<ObjectId, ErrorKind>(target)
                    &&& is_plan_hiding(
                        self.objects@,
                        tip,
                        hidden_for(self.objects@, tip, target, from),
                        step_views(plan.steps@),
                    )
                    &&& plan.onto@ == onto@
                },
                Err(e) => plan_fails_from(*self, onto@, from, e),
            },
    {
        let (leaf, tip) = match self.head_state() {
            Ok((leaf, Some(tip))) => (leaf, tip),
            Ok((leaf, None)) => {
                return Err(
                    EngineError::about_name(ErrorKind::NotFound, Operation::Rebase, leaf.as_slice()),
                );
            },
            Err(e) => {
                return Err(e);
            },
        };
        let target = match self.refs.resolve(branch_name(onto).as_slice()) {
            Ok(id) => id,
            Err(e) => {
                return Err(e);
            },
        };
        let mut hidden: Vec<ObjectId> = Vec::new();
        match from {
            Some(c) => {
                hidden.push(c);
            },
            None => {
                let base = match merge_base(&self.objects, tip, target) {
                    Ok(b) => b,
                    Err(e) => {
                        return Err(e);
                    },
                };
                if let Some(b) = base {
                    hidden.push(b);
                }
                assert(hidden@ =~= hidden_of(base));
            },
        }
        let mut roots: Vec<ObjectId> = Vec::new();
        roots.push(tip);
        assert(roots@ =~= seq![tip]);
        assert(hidden@ =~= hidden_for(self.objects@, tip, target, from));
        let order = match walk(&self.objects, &roots, &hidden) {
            Ok(seq) => seq,
            Err(e) => {
                return Err(e);
            },
        };
        let n = order.len();
        let mut steps: Vec<RebaseStep> = Vec::new();
        let mut i: usize = 0;
        while i < n
            invariant
                self.wf(),
                i <= n,
                n == order@.len(),
                steps@.len() == i,
                forall|j: int|
                    0 <= j < i ==> (#[trigger] steps@[j]).commit == order@[n - 1 - j] && steps@[j].action
                        == RebaseAction::Pick && commit_at(self.objects@, steps@[j].commit) is Some
                        && steps@[j].message@ == commit_at(self.objects@, steps@[j].commit)->0.message,
                is_walk(self.objects@, roots@, hidden@, order@),
                crate::history::history_complete(self.objects@, roots@),
            decreases n - i,
        {
            let id = order[n - 1 - i];
            let message = match get_commit(&self.objects, id, Operation::Rebase) {
                Ok(c) => bytes_copy(c.message.as_slice()),
                Err(e) => {
                    proof {
                        assert(order@.contains(id));
                        assert(crate::walk::in_range(self.objects@, roots@, hidden@, id));
                    }
                    return Err(e);
                },
            };
            steps.push(RebaseStep { commit: id, action: RebaseAction::Pick, message });
            i += 1;
        }
        proof {
            let views = step_views(steps@);
            assert(crate::rebase::commits_of(views).reverse() =~= order@);
        }
        Ok((RebasePlan { steps, onto: bytes_copy(onto) }, leaf, tip, target))
    }

    /// Draws up the plan for rebasing the commits of `HEAD` onto the
    /// branch `onto`: the commits between the merge base of the two and
    /// `HEAD`, oldest first, each to be picked. Where the caller names a
    /// commit by the hex digits `from`, the plan holds instead the commits
    /// of `HEAD` that this commit does not reach. The caller may change
    /// the actions before executing the plan. The rebase is then in the
    /// state `Planning`, with the references, the index and the working
    /// tree saved for an abort. Fails, changing nothing, with
    /// `InvalidArgument` where a rebase is under way or the digits spell no
    /// id, with `NotFound` where `HEAD` names no commit or the branch does
    /// not exist, or as the walk of history fails.
    pub fn prepare_interactive_rebase(&mut self, onto: &[u8], from: Option<&[u8]>) -> (r: Result<
        RebasePlan,
        EngineError,
    >)
        requires
            old(self).wf(),
        ensures
            r matches Err(e) ==> e.operation == Operation::Rebase,
            final(self).wf(),
            final(self).objects@ == old(self).objects@,
            final(self).refs@ == old(self).refs@,
            final(self).index@ == old(self).index@,
            final(self).workdir@ == old(self).workdir@,
            final(self).stashes == old(self).stashes,
            match r {
                Ok(plan) => {
                    &&& !under_way(old(self).rebase.phase)
                    &&& head_state(old(self).refs@) matches Ok((leaf, Some(tip)))
                    &&& resolved(old(self).refs@, branch_ref(onto@)) matches Ok(target)
                    &&& from_id(from) matches Some(hide)
                    &&& is_plan_hiding(
                        old(self).objects@,
                        tip,
                        hidden_for(old(self).objects@, tip, target, hide),
                        step_views(plan.steps@),
                    )
                    &&& plan.onto@ == onto@
                    &&& transition(old(self).rebase.phase, RebaseEvent::Plan) == Some(
                        final(self).rebase.phase,
                    )
                    &&& final(self).rebase.saved_refs@ == old(self).refs@
                    &&& final(self).rebase.saved_index@ == old(self).index@
                    &&& final(self).rebase.saved_workdir@ == old(self).workdir@
                    &&& step_views(final(self).rebase.steps@) == step_views(plan.steps@)
                },
                Err(e) => final(self).rebase == old(self).rebase && (if under_way(
                    old(self).rebase.phase,
                ) {
                    e.kind == ErrorKind::InvalidArgument
                } else {
                    match from_id(from) {
                        None => e.kind == ErrorKind::InvalidArgument,
                        Some(hide) => plan_fails_from(*old(self), onto@, hide, e),
                    }
                }),
            },
    {
        let next = match self.rebase.phase.after(RebaseEvent::Plan) {
            Some(p) => p,
            None => {
                return Err(EngineError::plain(ErrorKind::InvalidArgument, Operation::Rebase));
            },
        };
        let hide = match from {
            None => None,
            Some(h) => match ObjectId::from_hex(h) {
                Ok(id) => Some(id),
                Err(e) => {
                    return Err(e.during(Operation::Rebase));
                },
            },
        };
        let (plan, leaf, tip, target) = match self.plan(onto, hide) {
            Ok(t) => t,
            Err(e) => {
                return Err(e.during(Operation::Rebase));
            },
        };
        self.rebase = Rebase {
            phase: next,
            steps: steps_copy(&plan.steps),
            cursor: Cursor::at_start(target),
            branch: leaf,
            start: Some(tip),
            committer: Signature { name: Vec::new(), email: Vec::new(), time: 0 },
            saved_refs: self.refs.copy(),
            saved_index: self.index.copy(),
            saved_workdir: self.workdir.copy(),
        };
        Ok(plan)
    }

    /// Rebases the commits of `HEAD` onto the branch `onto`: draws up the
    /// plan, every commit to be picked, and executes it.
    pub fn rebase_interactive(&mut self, onto: &[u8], who: &Signature) -> (r: Result<
        RebaseReport,
        EngineError,
    >)
        requires
            old(self).wf(),
        ensures
            r matches Err(e) ==> e.operation == Operation::Rebase,
            final(self).wf(),
            old(self).objects@.submap_of(final(self).objects@),
            match r {
                Ok(report) => exists|steps: Seq<StepView>|
                    planned(*old(self), onto@, steps) && #[trigger] executed(
                        *old(self),
                        *final(self),
                        steps,
                        onto@,
                        who@,
                        report,
                    ),
                Err(e) => only_objects_grew(*old(self), *final(self)) && (if under_way(
                    old(self).rebase.phase,
                ) {
                    e.kind == ErrorKind::InvalidArgument
                } else {
                    plan_fails(*old(self), onto@, e) || exists|steps: Seq<StepView>|
                        #[trigger] planned(*old(self), onto@, steps) && execute_failure(
                            *old(self),
                            steps,
                            onto@,
                            who@,
                        ) == Some(e.kind)
                }),
            },
    {
        if self.rebase.phase.start().is_none() {
            return Err(EngineError::plain(ErrorKind::InvalidArgument, Operation::Rebase));
        }
        let plan = match self.plan(onto, None) {
            Ok((plan, _, _, _)) => plan,
            Err(e) => {
                return Err(e.during(Operation::Rebase));
            },
        };
        let ghost steps = step_views(plan.steps@);
        assert(planned(*old(self), onto@, steps));
        match self.execute_interactive_rebase(&plan, who) {
            Ok(report) => {
                assert(executed(*old(self), *self, steps, onto@, who@, report));
                Ok(report)
            },
            Err(e) => {
                assert(execute_failure(*old(self), steps, onto@, who@) == Some(e.kind));
                Err(e)
            },
        }
    }

    /// Puts the result of a replay in place: see [`replay_settled`].
    fn settle(
        &mut self,
        running: RebasePhase,
        out: RunOutcome,
        steps: Vec<RebaseStep>,
        leaf: Vec<u8>,
        tip: Option<ObjectId>,
        who: Signature,
        saved_refs: RefStore,
        saved_index: Index,
        saved_workdir: WorkTree,
    ) -> (r: Result<RebaseReport, EngineError>)
        requires
            old(self).wf(),
            running == RebasePhase::Replaying,
            out.wf(),
            saved_refs.wf(),
            saved_index.wf(),
            saved_workdir.wf(),
        ensures
            final(self).wf(),
            final(self).objects@ == old(self).objects@,
            match r {
                Ok(report) => {
                    &&& settle_failure(old(self).refs@, out.view_in(old(self).objects@), leaf@, tip)
                        is None
                    &&& replay_settled(
                        *old(self),
                        *final(self),
                        out.view_in(old(self).objects@),
                        leaf@,
                        tip,
                    )
                    &&& step_views(final(self).rebase.steps@) == step_views(steps@)
                    &&& final(self).rebase.committer@ == who@
                    &&& final(self).rebase.saved_refs@ == saved_refs@
                    &&& final(self).rebase.saved_index@ == saved_index@
                    &&& final(self).rebase.saved_workdir@ == saved_workdir@
                    &&& report.phase == final(self).rebase.phase
                    &&& report.produced@ == final(self).rebase.cursor@.produced
                    &&& lines(report.conflicts@) == conflict_paths(
                        final(self).index@.paths,
                        final(self).index@.slots,
                    )
                },
                Err(e) => settle_failure(
                    old(self).refs@,
                    out.view_in(old(self).objects@),
                    leaf@,
                    tip,
                ) == Some(e.kind) && only_objects_grew(*old(self), *final(self)),
            },
    {
        match out {
            RunOutcome::Done(c) => {
                let (x, w) = match checkout(&self.objects, c.base, Operation::Rebase) {
                    Ok(pair) => pair,
                    Err(e) => {
                        return Err(e);
                    },
                };
                match advance(&mut self.refs, leaf.as_slice(), tip, c.base) {
                    Ok(()) => {},
                    Err(e) => {
                        return Err(e);
                    },
                }
                let phase = match running.after(RebaseEvent::Finish) {
                    Some(p) => p,
                    None => unreached(),
                };
                self.workdir = self.workdir.carry(&self.index, w);
                self.index = x;
                let produced = ids_copy(&c.produced);
                self.rebase = Rebase {
                    phase,
                    steps,
                    cursor: c,
                    branch: leaf,
                    start: tip,
                    committer: who,
                    saved_refs,
                    saved_index,
                    saved_workdir,
                };
                let conflicts = self.index.conflict_paths();
                Ok(RebaseReport { phase, produced, conflicts })
            },
            RunOutcome::Paused(c, x, w) => {
                let phase = match running.after(RebaseEvent::Pause) {
                    Some(p) => p,
                    None => unreached(),
                };
                self.workdir = self.workdir.carry(&self.index, w);
                self.index = x;
                let produced = ids_copy(&c.produced);
                self.rebase = Rebase {
                    phase,
                    steps,
                    cursor: c,
                    branch: leaf,
                    start: tip,
                    committer: who,
                    saved_refs,
                    saved_index,
                    saved_workdir,
                };
                let conflicts = self.index.conflict_paths();
                Ok(RebaseReport { phase, produced, conflicts })
            },
        }
    }

    /// Replays the steps of `plan` onto the branch that it names, each new
    /// commit signed by `who` as the committer. Steps are run until one
    /// pauses or none is left: see [`run_of`]. When none is left the branch
    /// of `HEAD` moves to the last commit by compare-and-swap and that
    /// commit is checked out. A pause leaves the references alone. The
    /// references, the index and the working tree as they were before are
    /// kept for [`Repository::abort_rebase`]. On failure nothing has
    /// changed but the object store, which may have grown.
    pub fn execute_interactive_rebase(&mut self, plan: &RebasePlan, who: &Signature) -> (r: Result<
        RebaseReport,
        EngineError,
    >)
        requires
            old(self).wf(),
        ensures
            r matches Err(e) ==> e.operation == Operation::Rebase,
            final(self).wf(),
            old(self).objects@.submap_of(final(self).objects@),
            match r {
                Ok(report) => executed(
                    *old(self),
                    *final(self),
                    step_views(plan.steps@),
                    plan.onto@,
                    who@,
                    report,
                ),
                Err(e) => execute_failure(*old(self), step_views(plan.steps@), plan.onto@, who@)
                    == Some(e.kind) && only_objects_grew(*old(self), *final(self)),
            },
    {
        let running = match self.rebase.phase.start() {
            Some(p) => p,
            None => {
                return Err(EngineError::plain(ErrorKind::InvalidArgument, Operation::Rebase));
            },
        };
        proof {
            lemma_replaying(self.rebase.phase);
        }
        let (leaf, tip) = match self.head_state() {
            Ok(pair) => pair,
            Err(e) => {
                return Err(e.during(Operation::Rebase));
            },
        };
        if tip.is_none() {
            return Err(
                EngineError::about_name(ErrorKind::NotFound, Operation::Rebase, leaf.as_slice()),
            );
        }
        let target = match self.refs.resolve(branch_name(plan.onto.as_slice()).as_slice()) {
            Ok(id) => id,
            Err(e) => {
                return Err(e.during(Operation::Rebase));
            },
        };
        let out = match run(&mut self.objects, &plan.steps, Cursor::at_start(target), who) {
            Ok(out) => out,
            Err(e) => {
                return Err(e.during(Operation::Rebase));
            },
        };
        let saved_refs = self.refs.copy();
        let saved_index = self.index.copy();
        let saved_workdir = self.workdir.copy();
        let r = self.settle(
            running,
            out,
            steps_copy(&plan.steps),
            leaf,
            tip,
            who.copy(),
            saved_refs,
            saved_index,
            saved_workdir,
        );
        match r {
            Ok(report) => Ok(report),
            Err(e) => Err(e.during(Operation::Rebase)),
        }
    }

    /// Continues a paused rebase. While a path is in conflict this fails
    /// with `Conflict` and nothing changes. A step that waited for its
    /// conflicts gets its commit from the tree of the index as the caller
    /// resolved it; after the pause of an edit, what the caller staged
    /// meanwhile amends the commit of the step. Then the rest of the plan
    /// is replayed as [`Repository::execute_interactive_rebase`] does.
    pub fn continue_rebase(&mut self) -> (r: Result<RebaseReport, EngineError>)
        requires
            old(self).wf(),
        ensures
            r matches Err(e) ==> e.operation == Operation::Rebase,
            final(self).wf(),
            old(self).objects@.submap_of(final(self).objects@),
            match r {
                Ok(report) => {
                    &&& continue_failure(*old(self)) is None
                    &&& replay_settled(
                        *old(self),
                        *final(self),
                        run_of(
                            resumed(*old(self))->Ok_0.1,
                            step_views(old(self).rebase.steps@),
                            resumed(*old(self))->Ok_0.0,
                            old(self).rebase.committer@,
                        ),
                        old(self).rebase.branch@,
                        old(self).rebase.start,
                    )
                    &&& step_views(final(self).rebase.steps@) == step_views(old(self).rebase.steps@)
                    &&& final(self).rebase.committer@ == old(self).rebase.committer@
                    &&& final(self).rebase.saved_refs@ == old(self).rebase.saved_refs@
                    &&& final(self).rebase.saved_index@ == old(self).rebase.saved_index@
                    &&& final(self).rebase.saved_workdir@ == old(self).rebase.saved_workdir@
                    &&& report.phase == final(self).rebase.phase
                    &&& report.produced@ == final(self).rebase.cursor@.produced
                    &&& lines(report.conflicts@) == conflict_paths(
                        final(self).index@.paths,
                        final(self).index@.slots,
                    )
                },
                Err(e) => continue_failure(*old(self)) == Some(e.kind) && only_objects_grew(
                    *old(self),
                    *final(self),
                ),
            },
    {
        let running = match self.rebase.phase.after(RebaseEvent::Continue) {
            Some(p) => p,
            None => {
                return Err(EngineError::plain(ErrorKind::InvalidArgument, Operation::Rebase));
            },
        };
        proof {
            lemma_replaying(self.rebase.phase);
        }
        if self.index.has_conflicts() {
            let paths = self.index.conflict_paths();
            if paths.len() > 0 {
                return Err(
                    EngineError::about_name(
                        ErrorKind::Conflict,
                        Operation::Rebase,
                        paths[0].as_slice(),
                    ),
                );
            }
            return Err(EngineError::plain(ErrorKind::Conflict, Operation::Rebase));
        }
        let mut cur = self.rebase.cursor.copy();
        if cur.resolving {
            if cur.next >= self.rebase.steps.len() {
                return Err(
                    EngineError::about_position(
                        ErrorKind::InvalidArgument,
                        Operation::Rebase,
                        cur.next,
                    ),
                );
            }
            let tree = match self.index.write_tree(&mut self.objects) {
                Ok(id) => id,
                Err(e) => {
                    return Err(e.during(Operation::Rebase));
                },
            };
            let ghost mid = self.objects@;
            cur = match conclude(
                &mut self.objects,
                &self.rebase.steps[cur.next],
                tree,
                cur,
                &self.rebase.committer,
            ) {
                Ok(c) => c,
                Err(e) => {
                    proof {
                        crate::store::lemma_extends_twice(old(self).objects@, mid, self.objects@);
                    }
                    return Err(e.during(Operation::Rebase));
                },
            };
            proof {
                crate::store::lemma_extends_twice(old(self).objects@, mid, self.objects@);
            }
        } else {
            cur = match amend(&mut self.objects, &self.index, cur, &self.rebase.committer) {
                Ok(c) => c,
                Err(e) => {
                    return Err(e.during(Operation::Rebase));
                },
            };
        }
        let ghost mid2 = self.objects@;
        let out = match run(&mut self.objects, &self.rebase.steps, cur, &self.rebase.committer) {
            Ok(out) => out,
            Err(e) => {
                proof {
                    crate::store::lemma_extends_twice(old(self).objects@, mid2, self.objects@);
                }
                return Err(e.during(Operation::Rebase));
            },
        };
        proof {
            crate::store::lemma_extends_twice(old(self).objects@, mid2, self.objects@);
        }
        let steps = steps_copy(&self.rebase.steps);
        let leaf = bytes_copy(self.rebase.branch.as_slice());
        let tip = self.rebase.start;
        let who = self.rebase.committer.copy();
        let saved_refs = self.rebase.saved_refs.copy();
        let saved_index = self.rebase.saved_index.copy();
        let saved_workdir = self.rebase.saved_workdir.copy();
        match self.settle(running, out, steps, leaf, tip, who, saved_refs, saved_index, saved_workdir) {
            Ok(report) => Ok(report),
            Err(e) => Err(e.during(Operation::Rebase)),
        }
    }

    /// Gives a rebase up: the references and the index are again what
    /// they were when the rebase was planned or started, and so are the
    /// files that the index bound then; they take the place of the files
    /// of the index as it is now. A file that neither index binds stays as
    /// it is. Fails with `InvalidArgument`, changing nothing, where no
    /// rebase is planned, under way or paused.
    pub fn abort_rebase(&mut self) -> (r: Result<(), EngineError>)
        requires
            old(self).wf(),
        ensures
            r matches Err(e) ==> e.operation == Operation::Rebase,
            final(self).wf(),
            final(self).objects@ == old(self).objects@,
            final(self).stashes == old(self).stashes,
            match r {
                Ok(()) => {
                    &&& transition(old(self).rebase.phase, RebaseEvent::Abort) == Some(
                        final(self).rebase.phase,
                    )
                    &&& final(self).refs@ == old(self).rebase.saved_refs@
                    &&& final(self).refs.names() == old(self).rebase.saved_refs.names()
                    &&& final(self).refs.targets() == old(self).rebase.saved_refs.targets()
                    &&& final(self).index@ == old(self).rebase.saved_index@
                    &&& final(self).workdir@ == carried(
                        old(self).workdir@,
                        old(self).index@,
                        bound_files(old(self).rebase.saved_workdir@, old(self).rebase.saved_index@),
                    )
                },
                Err(e) => transition(old(self).rebase.phase, RebaseEvent::Abort) is None && e.kind
                    == ErrorKind::InvalidArgument && final(self).refs@ == old(self).refs@ && final(self).index@ == old(self).index@ && final(self).workdir@ == old(self).workdir@ && final(self).rebase == old(self).rebase,
            },
    {
        match self.rebase.phase.after(RebaseEvent::Abort) {
            None => Err(EngineError::plain(ErrorKind::InvalidArgument, Operation::Rebase)),
            Some(next) => {
                let saved = self.rebase.saved_workdir.only(&self.rebase.saved_index);
                self.workdir = self.workdir.carry(&self.index, saved);
                self.refs = self.rebase.saved_refs.copy();
                self.index = self.rebase.saved_index.copy();
                self.rebase.phase = next;
                proof {
                    self.refs.lemma_names(&old(self).rebase.saved_refs);
                }
                Ok(())
            },
        }
    }
}

} // verus!
