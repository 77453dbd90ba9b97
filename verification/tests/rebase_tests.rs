use codegit::error::ErrorKind;
use codegit::interactive::RebasePlan;
use codegit::object::{Commit, Object, Signature};
use codegit::oid::ObjectId;
use codegit::rebase::{RebaseAction, RebaseEvent, RebasePhase};
use codegit::refs::RefTarget;
use codegit::repo::{Rebase, Repository};

fn who(time: i64) -> Signature {
    Signature { name: b"Ada".to_vec(), email: b"ada@example.org".to_vec(), time }
}

fn commit_file(repo: &mut Repository, path: &[u8], content: &[u8], message: &[u8], time: i64) -> ObjectId {
    repo.workdir.write(path, content);
    repo.stage_file(path).unwrap();
    repo.commit_changes(message, &who(time)).unwrap()
}

fn commit_of(repo: &Repository, id: ObjectId) -> Commit {
    match repo.objects.get(id).unwrap() {
        Object::Commit(c) => c.clone(),
        _ => panic!("not a commit"),
    }
}

fn branch_tip(repo: &Repository, name: &[u8]) -> ObjectId {
    let mut full = b"refs/heads/".to_vec();
    full.extend_from_slice(name);
    repo.refs.resolve(&full).unwrap()
}

/// main: A - M ; feature: A - F1 - F2, checked out on feature.
fn diverged(conflicting: bool) -> (Repository, ObjectId, ObjectId, ObjectId, ObjectId) {
    let mut repo = Repository::init();
    let a = commit_file(&mut repo, b"file.txt", b"a", b"A", 1);
    repo.create_branch(b"feature").unwrap();
    let m = if conflicting {
        commit_file(&mut repo, b"one.txt", b"main", b"M", 2)
    } else {
        commit_file(&mut repo, b"main.txt", b"main", b"M", 2)
    };
    repo.switch_branch(b"feature").unwrap();
    let f1 = commit_file(&mut repo, b"one.txt", b"1", b"F1", 3);
    let f2 = commit_file(&mut repo, b"two.txt", b"2", b"F2", 4);
    let _ = a;
    (repo, a, m, f1, f2)
}

#[test]
fn plan_lists_commits_oldest_first_as_picks() {
    let (mut repo, _a, _m, f1, f2) = diverged(false);
    let plan = repo.prepare_interactive_rebase(b"main", None).unwrap();
    assert_eq!(plan.onto, b"main".to_vec());
    assert_eq!(plan.steps.len(), 2);
    assert_eq!(plan.steps[0].commit, f1);
    assert_eq!(plan.steps[1].commit, f2);
    assert_eq!(plan.steps[0].action, RebaseAction::Pick);
    assert_eq!(plan.steps[0].message, b"F1".to_vec());
    assert_eq!(repo.rebase.phase, RebasePhase::Planning);
}

#[test]
fn all_picks_produce_one_commit_each_and_move_the_branch() {
    let (mut repo, _a, m, f1, f2) = diverged(false);
    let plan = repo.prepare_interactive_rebase(b"main", None).unwrap();
    let report = repo.execute_interactive_rebase(&plan, &who(10)).unwrap();
    assert_eq!(report.phase, RebasePhase::Completed);
    assert_eq!(report.produced.len(), 2);
    assert!(report.conflicts.is_empty());

    let n1 = commit_of(&repo, report.produced[0]);
    let n2 = commit_of(&repo, report.produced[1]);
    assert_eq!(n1.parents, vec![m]);
    assert_eq!(n2.parents, vec![report.produced[0]]);
    assert_eq!(n1.message, b"F1".to_vec());
    assert_eq!(n2.message, b"F2".to_vec());
    assert_eq!(n1.author, commit_of(&repo, f1).author);
    assert_eq!(n1.committer, who(10));
    assert_ne!(report.produced[0], f1);
    assert_ne!(report.produced[1], f2);

    assert_eq!(branch_tip(&repo, b"feature"), report.produced[1]);
    assert_eq!(repo.refs.read(b"refs/heads/feature").unwrap(), RefTarget::Direct(report.produced[1]));
    assert_eq!(branch_tip(&repo, b"main"), m);
    assert_eq!(repo.workdir.read(b"main.txt").unwrap(), &b"main".to_vec());
    assert_eq!(repo.workdir.read(b"one.txt").unwrap(), &b"1".to_vec());
    assert_eq!(repo.workdir.read(b"two.txt").unwrap(), &b"2".to_vec());
    assert_eq!(repo.workdir.read(b"file.txt").unwrap(), &b"a".to_vec());
}

#[test]
fn rebase_interactive_plans_and_executes() {
    let (mut repo, _a, m, _f1, _f2) = diverged(false);
    let report = repo.rebase_interactive(b"main", &who(10)).unwrap();
    assert_eq!(report.phase, RebasePhase::Completed);
    assert_eq!(report.produced.len(), 2);
    assert_eq!(commit_of(&repo, report.produced[0]).parents, vec![m]);
}

#[test]
fn conflict_pauses_and_abort_restores_references() {
    let (mut repo, _a, _m, _f1, f2) = diverged(true);
    let refs_before = repo.refs.clone();
    let index_before = repo.index.clone();
    let workdir_before = repo.workdir.clone();
    let plan = repo.prepare_interactive_rebase(b"main", None).unwrap();
    let report = repo.execute_interactive_rebase(&plan, &who(10)).unwrap();
    assert_eq!(report.phase, RebasePhase::Conflicted);
    assert_eq!(report.conflicts, vec![b"one.txt".to_vec()]);
    assert!(report.produced.is_empty());
    assert!(repo.index.has_conflicts());
    assert_eq!(repo.refs, refs_before);
    assert_eq!(repo.continue_rebase().unwrap_err().kind, ErrorKind::Conflict);
    assert_eq!(repo.rebase.phase, RebasePhase::Conflicted);

    repo.abort_rebase().unwrap();
    assert_eq!(repo.rebase.phase, RebasePhase::Aborted);
    assert_eq!(repo.refs, refs_before);
    assert_eq!(repo.index, index_before);
    assert_eq!(repo.workdir, workdir_before);
    assert_eq!(branch_tip(&repo, b"feature"), f2);
    assert_eq!(repo.abort_rebase().unwrap_err().kind, ErrorKind::InvalidArgument);
}

#[test]
fn conflict_resolved_then_continue_completes() {
    let (mut repo, _a, m, _f1, _f2) = diverged(true);
    let plan = repo.prepare_interactive_rebase(b"main", None).unwrap();
    let report = repo.execute_interactive_rebase(&plan, &who(10)).unwrap();
    assert_eq!(report.phase, RebasePhase::Conflicted);
    repo.resolve_conflict(b"one.txt", b"merged").unwrap();
    let report = repo.continue_rebase().unwrap();
    assert_eq!(report.phase, RebasePhase::Completed);
    assert_eq!(report.produced.len(), 2);
    assert_eq!(commit_of(&repo, report.produced[0]).parents, vec![m]);
    assert_eq!(repo.workdir.read(b"one.txt").unwrap(), &b"merged".to_vec());
    assert_eq!(repo.workdir.read(b"two.txt").unwrap(), &b"2".to_vec());
    assert_eq!(branch_tip(&repo, b"feature"), report.produced[1]);
}

#[test]
fn squash_reword_drop_and_edit() {
    let (mut repo, _a, m, f1, _f2) = diverged(false);
    let mut plan: RebasePlan = repo.prepare_interactive_rebase(b"main", None).unwrap();
    plan.steps[1].action = RebaseAction::Squash;
    let report = repo.execute_interactive_rebase(&plan, &who(10)).unwrap();
    assert_eq!(report.phase, RebasePhase::Completed);
    assert_eq!(report.produced.len(), 1);
    let squashed = commit_of(&repo, report.produced[0]);
    assert_eq!(squashed.parents, vec![m]);
    assert_eq!(squashed.message, b"F1\n\nF2".to_vec());
    assert_eq!(repo.workdir.read(b"two.txt").unwrap(), &b"2".to_vec());

    let (mut repo, _a, m, _f1, _f2) = diverged(false);
    let mut plan = repo.prepare_interactive_rebase(b"main", None).unwrap();
    plan.steps[0].action = RebaseAction::Drop;
    plan.steps[1].action = RebaseAction::Reword;
    plan.steps[1].message = b"better words".to_vec();
    let report = repo.execute_interactive_rebase(&plan, &who(10)).unwrap();
    assert_eq!(report.produced.len(), 1);
    let reworded = commit_of(&repo, report.produced[0]);
    assert_eq!(reworded.parents, vec![m]);
    assert_eq!(reworded.message, b"better words".to_vec());
    assert!(repo.workdir.read(b"one.txt").is_none());
    assert_eq!(repo.workdir.read(b"two.txt").unwrap(), &b"2".to_vec());

    let (mut repo, _a, _m, _f1, _f2) = diverged(false);
    let mut plan = repo.prepare_interactive_rebase(b"main", None).unwrap();
    plan.steps[0].action = RebaseAction::Edit;
    let report = repo.execute_interactive_rebase(&plan, &who(10)).unwrap();
    assert_eq!(report.phase, RebasePhase::Conflicted);
    assert!(report.conflicts.is_empty());
    assert_eq!(report.produced.len(), 1);
    let report = repo.continue_rebase().unwrap();
    assert_eq!(report.phase, RebasePhase::Completed);
    assert_eq!(report.produced.len(), 2);

    let (mut repo, _a, _m, _f1, _f2) = diverged(false);
    let mut plan = repo.prepare_interactive_rebase(b"main", None).unwrap();
    plan.steps[0].action = RebaseAction::Squash;
    let refs_before = repo.refs.clone();
    let err = repo.execute_interactive_rebase(&plan, &who(10)).unwrap_err();
    assert_eq!(err.kind, ErrorKind::InvalidArgument);
    assert_eq!(repo.refs, refs_before);
    let _ = f1;
}

#[test]
fn transition_table() {
    assert_eq!(RebasePhase::Idle.after(RebaseEvent::Plan), Some(RebasePhase::Planning));
    assert_eq!(RebasePhase::Planning.after(RebaseEvent::Start), Some(RebasePhase::Replaying));
    assert_eq!(RebasePhase::Replaying.after(RebaseEvent::Pause), Some(RebasePhase::Conflicted));
    assert_eq!(RebasePhase::Conflicted.after(RebaseEvent::Continue), Some(RebasePhase::Replaying));
    assert_eq!(RebasePhase::Replaying.after(RebaseEvent::Finish), Some(RebasePhase::Completed));
    assert_eq!(RebasePhase::Conflicted.after(RebaseEvent::Abort), Some(RebasePhase::Aborted));
    assert_eq!(RebasePhase::Idle.after(RebaseEvent::Abort), None);
    assert_eq!(RebasePhase::Completed.after(RebaseEvent::Continue), None);
    assert_eq!(RebasePhase::Idle.after(RebaseEvent::Start), None);
}

#[test]
fn cherry_pick_applies_the_change_onto_head() {
    let (mut repo, _a, m, f1, _f2) = diverged(false);
    repo.switch_branch(b"main").unwrap();
    let hex = f1.to_hex();
    let report = repo.cherry_pick_commit(&hex, &who(10)).unwrap();
    let picked = commit_of(&repo, report.commit.unwrap());
    assert_eq!(picked.parents, vec![m]);
    assert_eq!(picked.message, b"Cherry-pick: F1".to_vec());
    assert_eq!(repo.workdir.read(b"one.txt").unwrap(), &b"1".to_vec());
    assert!(repo.workdir.read(b"two.txt").is_none());
    assert_eq!(branch_tip(&repo, b"main"), report.commit.unwrap());
    assert_eq!(repo.cherry_pick_commit(b"nonsense", &who(11)).unwrap_err().kind, ErrorKind::InvalidArgument);
    let missing = [b'0'; 40];
    assert_eq!(repo.cherry_pick_commit(&missing, &who(11)).unwrap_err().kind, ErrorKind::NotFound);
}

#[test]
fn completion_fails_when_the_branch_moved_meanwhile() {
    let (mut repo, _a, _m, _f1, f2) = diverged(false);
    let mut plan = repo.prepare_interactive_rebase(b"main", None).unwrap();
    plan.steps[1].action = RebaseAction::Edit;
    let report = repo.execute_interactive_rebase(&plan, &who(10)).unwrap();
    assert_eq!(report.phase, RebasePhase::Conflicted);
    assert_eq!(report.produced.len(), 2);
    assert_eq!(branch_tip(&repo, b"feature"), f2);

    let elsewhere = ObjectId { hi: 77, lo: 77 };
    repo.refs.set(b"refs/heads/feature", RefTarget::Direct(elsewhere));
    let refs_before = repo.refs.clone();
    let err = repo.continue_rebase().unwrap_err();
    assert_eq!(err.kind, ErrorKind::ConcurrentModification);
    assert_eq!(repo.refs, refs_before);
    assert_eq!(repo.rebase.phase, RebasePhase::Conflicted);

    repo.abort_rebase().unwrap();
    assert_eq!(branch_tip(&repo, b"feature"), f2);
}

#[test]
fn rebase_onto_a_descendant_moves_the_branch_forward() {
    let mut repo = Repository::init();
    let _a = commit_file(&mut repo, b"file.txt", b"a", b"A", 1);
    repo.create_branch(b"old").unwrap();
    let b = commit_file(&mut repo, b"file.txt", b"b", b"B", 2);
    repo.switch_branch(b"old").unwrap();
    let plan = repo.prepare_interactive_rebase(b"main", None).unwrap();
    assert!(plan.steps.is_empty());
    let report = repo.execute_interactive_rebase(&plan, &who(3)).unwrap();
    assert_eq!(report.phase, RebasePhase::Completed);
    assert!(report.produced.is_empty());
    assert_eq!(branch_tip(&repo, b"old"), b);
    assert_eq!(repo.workdir.read(b"file.txt").unwrap(), &b"b".to_vec());
    assert_eq!(repo.execute_interactive_rebase(&plan, &who(4)).unwrap().phase, RebasePhase::Completed);
    repo.prepare_interactive_rebase(b"main", None).unwrap();
    repo.abort_rebase().unwrap();
    assert_eq!(repo.rebase.phase, RebasePhase::Aborted);
}

#[test]
fn an_edit_pause_takes_what_the_caller_staged() {
    let (mut repo, _a, m, f1, _f2) = diverged(false);
    let mut plan = repo.prepare_interactive_rebase(b"main", None).unwrap();
    plan.steps[0].action = RebaseAction::Edit;
    let report = repo.execute_interactive_rebase(&plan, &who(10)).unwrap();
    assert_eq!(report.phase, RebasePhase::Conflicted);
    let paused = report.produced[0];
    assert_eq!(repo.workdir.read(b"one.txt").unwrap(), &b"1".to_vec());

    repo.workdir.write(b"one.txt", b"amended");
    repo.stage_file(b"one.txt").unwrap();
    let report = repo.continue_rebase().unwrap();
    assert_eq!(report.phase, RebasePhase::Completed);
    assert_eq!(report.produced.len(), 2);
    assert_ne!(report.produced[0], paused);
    let amended = commit_of(&repo, report.produced[0]);
    assert_eq!(amended.parents, vec![m]);
    assert_eq!(amended.message, b"F1".to_vec());
    assert_eq!(amended.author, commit_of(&repo, f1).author);
    assert_eq!(commit_of(&repo, report.produced[1]).parents, vec![report.produced[0]]);
    assert_eq!(repo.workdir.read(b"one.txt").unwrap(), &b"amended".to_vec());
    assert_eq!(repo.workdir.read(b"two.txt").unwrap(), &b"2".to_vec());
    assert_eq!(branch_tip(&repo, b"feature"), report.produced[1]);
}

#[test]
fn an_idle_rebase_holds_nothing() {
    let r = Rebase::idle();
    assert_eq!(r.phase, RebasePhase::Idle);
    assert!(r.steps.is_empty());
    assert_eq!(r.cursor.next, 0);
    assert_eq!(r.cursor.base, ObjectId { hi: 0, lo: 0 });
    assert_eq!(r.cursor.before, None);
    assert!(r.cursor.produced.is_empty());
    assert!(!r.cursor.resolving);
    assert!(r.branch.is_empty());
    assert_eq!(r.start, None);
    assert!(r.committer.name.is_empty());
    assert!(r.committer.email.is_empty());
    assert_eq!(r.committer.time, 0);
    assert!(r.saved_refs.list(b"").is_empty());
    assert_eq!(r.saved_index.len(), 0);
    assert_eq!(r.saved_workdir.len(), 0);
}

#[test]
fn a_plan_can_stop_at_a_commit_that_the_caller_names() {
    let (mut repo, a, _m, f1, f2) = diverged(false);
    let plan = repo.prepare_interactive_rebase(b"main", Some(&f1.to_hex())).unwrap();
    assert_eq!(plan.steps.len(), 1);
    assert_eq!(plan.steps[0].commit, f2);
    repo.abort_rebase().unwrap();

    let plan = repo.prepare_interactive_rebase(b"main", Some(&a.to_hex())).unwrap();
    assert_eq!(plan.steps.len(), 2);
    assert_eq!(plan.steps[0].commit, f1);
    assert_eq!(plan.steps[1].commit, f2);
    repo.abort_rebase().unwrap();

    let e = repo.prepare_interactive_rebase(b"main", Some(b"not hex")).unwrap_err();
    assert_eq!(e.kind, ErrorKind::InvalidArgument);
    let e = repo.prepare_interactive_rebase(b"main", Some(&[b'1'; 40])).unwrap_err();
    assert_eq!(e.kind, ErrorKind::NotFound);
}

#[test]
fn an_abort_leaves_files_alone_that_no_index_binds() {
    let (mut repo, _a, _m, _f1, _f2) = diverged(true);
    repo.workdir.write(b"notes.txt", b"before");
    let before_index = repo.index.clone();
    let plan = repo.prepare_interactive_rebase(b"main", None).unwrap();
    let report = repo.execute_interactive_rebase(&plan, &who(10)).unwrap();
    assert_eq!(report.phase, RebasePhase::Conflicted);
    assert_eq!(repo.workdir.read(b"notes.txt").unwrap(), &b"before".to_vec());
    repo.workdir.write(b"scratch.txt", b"during");
    repo.workdir.remove(b"notes.txt");

    repo.abort_rebase().unwrap();
    assert!(repo.index.same(&before_index));
    assert_eq!(repo.workdir.read(b"scratch.txt").unwrap(), &b"during".to_vec());
    assert!(repo.workdir.read(b"notes.txt").is_none());
    for i in 0..repo.index.len() {
        assert!(repo.workdir.read(repo.index.path_at(i)).is_some());
    }
}
