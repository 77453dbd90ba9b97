use codegit::error::ErrorKind;
use codegit::index::{Index, Slot};
use codegit::merge::{is_fast_forward, merge_base, three_way_merge};
use codegit::merging::MergeKind;
use codegit::object::{Object, Signature};
use codegit::oid::ObjectId;
use codegit::refs::RefTarget;
use codegit::repo::Repository;

fn who(time: i64) -> Signature {
    Signature { name: b"Ada".to_vec(), email: b"ada@example.org".to_vec(), time }
}

fn commit_file(repo: &mut Repository, path: &[u8], content: &[u8], message: &[u8], time: i64) -> ObjectId {
    repo.workdir.write(path, content);
    repo.stage_file(path).unwrap();
    repo.commit_changes(message, &who(time)).unwrap()
}

fn tree_of(repo: &Repository, commit: ObjectId) -> ObjectId {
    match repo.objects.get(commit).unwrap() {
        Object::Commit(c) => c.tree,
        _ => panic!("not a commit"),
    }
}

fn branch_tip(repo: &Repository, name: &[u8]) -> ObjectId {
    let mut full = b"refs/heads/".to_vec();
    full.extend_from_slice(name);
    repo.refs.resolve(&full).unwrap()
}

#[test]
fn scenario_a_fast_forward() {
    let mut repo = Repository::init();
    let a = commit_file(&mut repo, b"file.txt", b"a", b"A", 1);
    repo.create_branch(b"feature").unwrap();
    repo.switch_branch(b"feature").unwrap();
    let b = commit_file(&mut repo, b"file.txt", b"b", b"B", 2);
    repo.switch_branch(b"main").unwrap();
    assert_eq!(repo.workdir.read(b"file.txt").unwrap(), &b"a".to_vec());

    let main = branch_tip(&repo, b"main");
    let feature = branch_tip(&repo, b"feature");
    assert_eq!(main, a);
    assert_eq!(feature, b);
    assert_eq!(merge_base(&repo.objects, main, feature).unwrap(), Some(a));
    assert_eq!(is_fast_forward(&repo.objects, main, feature).unwrap(), true);
    assert_eq!(is_fast_forward(&repo.objects, feature, main).unwrap(), false);

    let report = repo.merge_branch(b"feature", &who(3)).unwrap();
    assert_eq!(report.kind, MergeKind::FastForward);
    assert_eq!(report.commit, Some(b));
    assert!(report.conflicts.is_empty());
    assert_eq!(branch_tip(&repo, b"main"), b);
    assert_eq!(repo.refs.read(b"refs/heads/main").unwrap(), RefTarget::Direct(b));
    assert_eq!(repo.workdir.read(b"file.txt").unwrap(), &b"b".to_vec());
}

#[test]
fn scenario_b_conflict() {
    let mut repo = Repository::init();
    let a = commit_file(&mut repo, b"file.txt", b"a", b"A", 1);
    repo.create_branch(b"feature").unwrap();
    let main = commit_file(&mut repo, b"file.txt", b"main-edit", b"on main", 2);
    repo.switch_branch(b"feature").unwrap();
    let feature = commit_file(&mut repo, b"file.txt", b"feature-edit", b"on feature", 3);

    let base = tree_of(&repo, a);
    let ours = tree_of(&repo, main);
    let theirs = tree_of(&repo, feature);
    let out = three_way_merge(&mut repo.objects, Some(base), ours, theirs).unwrap();
    assert_eq!(out.tree_id, None);
    assert_eq!(out.conflicts, vec![b"file.txt".to_vec()]);
    assert!(out.index.has_conflicts());
    match out.index.get(b"file.txt") {
        Some(Slot::Conflicted { ancestor, ours, theirs }) => {
            assert!(ancestor.is_some() && ours.is_some() && theirs.is_some());
        },
        other => panic!("unexpected slot {:?}", other),
    }
    let conflicts = out.index.conflicts(&repo.objects).unwrap();
    assert_eq!(conflicts.len(), 1);
    assert_eq!(conflicts[0].path, b"file.txt".to_vec());
    assert_eq!(conflicts[0].ancestor, Some(b"a".to_vec()));
    assert_eq!(conflicts[0].ours, Some(b"main-edit".to_vec()));
    assert_eq!(conflicts[0].theirs, Some(b"feature-edit".to_vec()));
}

#[test]
fn merge_branch_reports_conflict_and_resolution_clears_it() {
    let mut repo = Repository::init();
    commit_file(&mut repo, b"file.txt", b"a", b"A", 1);
    repo.create_branch(b"feature").unwrap();
    let main = commit_file(&mut repo, b"file.txt", b"main-edit", b"on main", 2);
    repo.switch_branch(b"feature").unwrap();
    commit_file(&mut repo, b"file.txt", b"feature-edit", b"on feature", 3);
    repo.switch_branch(b"main").unwrap();

    let report = repo.merge_branch(b"feature", &who(4)).unwrap();
    assert_eq!(report.kind, MergeKind::Conflicted);
    assert_eq!(report.commit, Some(main));
    assert_eq!(report.conflicts, vec![b"file.txt".to_vec()]);
    assert_eq!(branch_tip(&repo, b"main"), main);
    let text = repo.workdir.read(b"file.txt").unwrap().clone();
    assert_eq!(
        text,
        b"<<<<<<< ours\nmain-edit||||||| base\na=======\nfeature-edit>>>>>>> theirs\n".to_vec()
    );
    let err = repo.commit_changes(b"too early", &who(5)).unwrap_err();
    assert_eq!(err.kind, ErrorKind::Conflict);

    let listed = repo.get_merge_conflicts().unwrap();
    assert_eq!(listed.len(), 1);
    assert_eq!(listed[0].ours, Some(b"main-edit".to_vec()));

    repo.resolve_conflict(b"file.txt", b"both").unwrap();
    assert!(!repo.index.has_conflicts());
    assert_eq!(repo.workdir.read(b"file.txt").unwrap(), &b"both".to_vec());
    repo.commit_changes(b"resolved", &who(6)).unwrap();
}

#[test]
fn merge_branch_creates_merge_commit_when_both_sides_changed_different_files() {
    let mut repo = Repository::init();
    commit_file(&mut repo, b"file.txt", b"a", b"A", 1);
    repo.create_branch(b"feature").unwrap();
    let main = commit_file(&mut repo, b"main.txt", b"m", b"on main", 2);
    repo.switch_branch(b"feature").unwrap();
    let feature = commit_file(&mut repo, b"feature.txt", b"f", b"on feature", 3);
    repo.switch_branch(b"main").unwrap();

    let report = repo.merge_branch(b"feature", &who(4)).unwrap();
    assert_eq!(report.kind, MergeKind::Merged);
    let merged = report.commit.unwrap();
    assert_eq!(branch_tip(&repo, b"main"), merged);
    match repo.objects.get(merged).unwrap() {
        Object::Commit(c) => {
            assert_eq!(c.parents, vec![main, feature]);
            assert_eq!(c.message, b"Merge branch 'feature'".to_vec());
        },
        _ => panic!("not a commit"),
    }
    assert_eq!(repo.workdir.read(b"main.txt").unwrap(), &b"m".to_vec());
    assert_eq!(repo.workdir.read(b"feature.txt").unwrap(), &b"f".to_vec());
    assert_eq!(repo.workdir.read(b"file.txt").unwrap(), &b"a".to_vec());

    let again = repo.merge_branch(b"feature", &who(5)).unwrap();
    assert_eq!(again.kind, MergeKind::Merged);
    assert!(again.conflicts.is_empty());
    let second = again.commit.unwrap();
    assert_eq!(branch_tip(&repo, b"main"), second);
    let first_tree = match repo.objects.get(merged).unwrap() {
        Object::Commit(c) => c.tree,
        _ => panic!("not a commit"),
    };
    match repo.objects.get(second).unwrap() {
        Object::Commit(c) => {
            assert_eq!(c.parents, vec![merged, feature]);
            assert_eq!(c.tree, first_tree);
        },
        _ => panic!("not a commit"),
    }
}

#[test]
fn merging_the_commit_of_head_is_a_fast_forward() {
    let mut repo = Repository::init();
    let a = commit_file(&mut repo, b"file.txt", b"a", b"A", 1);
    repo.create_branch(b"twin").unwrap();
    assert!(is_fast_forward(&repo.objects, a, a).unwrap());
    let report = repo.merge_branch(b"twin", &who(2)).unwrap();
    assert_eq!(report.kind, MergeKind::FastForward);
    assert_eq!(report.commit, Some(a));
    assert!(report.conflicts.is_empty());
    assert_eq!(branch_tip(&repo, b"main"), a);
    assert_eq!(branch_tip(&repo, b"twin"), a);
    assert_eq!(repo.objects.len(), 3);
    assert_eq!(repo.workdir.read(b"file.txt").unwrap(), &b"a".to_vec());
}

#[test]
fn scenario_c_stash_apply_and_pop() {
    let mut repo = Repository::init();
    commit_file(&mut repo, b"file.txt", b"a", b"A", 1);
    repo.workdir.write(b"file.txt", b"modified");
    let stash = repo.create_stash(b"wip", &who(2)).unwrap();
    assert_eq!(repo.workdir.read(b"file.txt").unwrap(), &b"a".to_vec());
    let listed = repo.get_stashes();
    assert_eq!(listed.len(), 1);
    assert_eq!(listed[0].index, 0);
    assert_eq!(listed[0].message, b"wip".to_vec());
    assert_eq!(listed[0].author, b"Ada".to_vec());
    assert_eq!(listed[0].timestamp, 2);
    assert_eq!(listed[0].commit, stash);
    match repo.objects.get(stash).unwrap() {
        Object::Commit(c) => assert_eq!(c.parents.len(), 2),
        _ => panic!("not a commit"),
    }

    commit_file(&mut repo, b"other.txt", b"unrelated", b"unrelated", 3);

    let report = repo.apply_stash(0).unwrap();
    assert!(report.conflicts.is_empty());
    assert!(!report.dropped);
    assert_eq!(repo.workdir.read(b"file.txt").unwrap(), &b"modified".to_vec());
    assert_eq!(repo.workdir.read(b"other.txt").unwrap(), &b"unrelated".to_vec());
    assert_eq!(repo.get_stashes().len(), 1);

    let report = repo.pop_stash(0).unwrap();
    assert!(report.dropped);
    assert_eq!(repo.get_stashes().len(), 0);
    assert_eq!(repo.workdir.read(b"file.txt").unwrap(), &b"modified".to_vec());
}

#[test]
fn stash_stack_is_most_recent_first_and_drop_removes() {
    let mut repo = Repository::init();
    commit_file(&mut repo, b"file.txt", b"a", b"A", 1);
    repo.workdir.write(b"file.txt", b"one");
    repo.create_stash(b"first", &who(2)).unwrap();
    repo.workdir.write(b"file.txt", b"two");
    repo.create_stash(b"second", &who(3)).unwrap();
    let listed = repo.get_stashes();
    assert_eq!(listed[0].message, b"second".to_vec());
    assert_eq!(listed[1].message, b"first".to_vec());
    assert_eq!(listed[1].index, 1);
    repo.drop_stash(0).unwrap();
    assert_eq!(repo.get_stashes()[0].message, b"first".to_vec());
    assert_eq!(repo.drop_stash(5).unwrap_err().kind, ErrorKind::NotFound);
    assert_eq!(repo.apply_stash(1).unwrap_err().kind, ErrorKind::NotFound);
    assert_eq!(repo.pop_stash(1).unwrap_err().kind, ErrorKind::NotFound);
    assert_eq!(repo.get_stashes().len(), 1);
}

#[test]
fn merging_a_tree_with_itself_gives_it_back() {
    let mut repo = Repository::init();
    let a = commit_file(&mut repo, b"file.txt", b"a", b"A", 1);
    let b = commit_file(&mut repo, b"more.txt", b"x", b"B", 2);
    let base = tree_of(&repo, a);
    let x = tree_of(&repo, b);
    let before = repo.objects.len();

    let same = three_way_merge(&mut repo.objects, Some(base), base, base).unwrap();
    assert_eq!(same.tree_id, Some(base));
    assert!(same.conflicts.is_empty());

    let one = three_way_merge(&mut repo.objects, Some(base), x, base).unwrap();
    assert_eq!(one.tree_id, Some(x));
    assert!(one.conflicts.is_empty());

    let other = three_way_merge(&mut repo.objects, Some(base), base, x).unwrap();
    assert_eq!(other.tree_id, Some(x));
    assert!(other.conflicts.is_empty());
    assert_eq!(repo.objects.len(), before);
}

#[test]
fn tree_round_trip() {
    let mut repo = Repository::init();
    let mut index = Index::new();
    index.add(&mut repo.objects, b"b.txt", b"bee").unwrap();
    index.add(&mut repo.objects, b"a.txt", b"ay").unwrap();
    index.add(&mut repo.objects, b"dir/c.txt", b"sea").unwrap();
    let tree = index.write_tree(&mut repo.objects).unwrap();
    let back = Index::from_tree(&repo.objects, tree).unwrap();
    assert_eq!(back, index);
    assert_eq!(back.len(), 3);
    assert_eq!(back.path_at(0), &b"a.txt".to_vec());
    assert_eq!(back.path_at(1), &b"b.txt".to_vec());
    assert_eq!(back.path_at(2), &b"dir/c.txt".to_vec());
    for i in 0..back.len() {
        let item = match back.slot_at(i) {
            Slot::Resolved(item) => item,
            other => panic!("unexpected slot {:?}", other),
        };
        let content = match repo.objects.get(item.id).unwrap() {
            Object::Blob(b) => b.clone(),
            _ => panic!("not a blob"),
        };
        let expected: &[u8] = match i {
            0 => b"ay",
            1 => b"bee",
            _ => b"sea",
        };
        assert_eq!(content, expected.to_vec());
    }

    let mut other = Index::new();
    other.add(&mut repo.objects, b"dir/c.txt", b"sea").unwrap();
    other.add(&mut repo.objects, b"a.txt", b"ay").unwrap();
    other.add(&mut repo.objects, b"b.txt", b"bee").unwrap();
    assert_eq!(other.write_tree(&mut repo.objects).unwrap(), tree);
}

#[test]
fn files_that_no_index_binds_survive_every_checkout() {
    let mut repo = Repository::init();
    let a = commit_file(&mut repo, b"file.txt", b"a", b"A", 1);
    repo.create_branch(b"feature").unwrap();
    repo.switch_branch(b"feature").unwrap();
    commit_file(&mut repo, b"only_here.txt", b"f", b"on feature", 2);
    repo.workdir.write(b"notes.txt", b"scratch");

    repo.switch_branch(b"main").unwrap();
    assert_eq!(repo.workdir.read(b"notes.txt").unwrap(), &b"scratch".to_vec());
    assert_eq!(repo.workdir.read(b"file.txt").unwrap(), &b"a".to_vec());
    assert!(repo.workdir.read(b"only_here.txt").is_none());
    assert_eq!(repo.workdir.len(), 2);

    let report = repo.merge_branch(b"feature", &who(3)).unwrap();
    assert_eq!(report.kind, MergeKind::FastForward);
    assert_eq!(repo.workdir.read(b"notes.txt").unwrap(), &b"scratch".to_vec());
    assert_eq!(repo.workdir.read(b"only_here.txt").unwrap(), &b"f".to_vec());

    repo.workdir.write(b"file.txt", b"dirty");
    repo.create_stash(b"wip", &who(4)).unwrap();
    assert_eq!(repo.workdir.read(b"file.txt").unwrap(), &b"a".to_vec());
    assert_eq!(repo.workdir.read(b"notes.txt").unwrap(), &b"scratch".to_vec());

    repo.apply_stash(0).unwrap();
    assert_eq!(repo.workdir.read(b"file.txt").unwrap(), &b"dirty".to_vec());
    assert_eq!(repo.workdir.read(b"notes.txt").unwrap(), &b"scratch".to_vec());

    repo.reset_to_commit(&a.to_hex(), b"hard").unwrap();
    assert_eq!(repo.workdir.read(b"file.txt").unwrap(), &b"a".to_vec());
    assert!(repo.workdir.read(b"only_here.txt").is_none());
    assert_eq!(repo.workdir.read(b"notes.txt").unwrap(), &b"scratch".to_vec());
    assert_eq!(repo.workdir.len(), 2);
}

#[test]
fn a_staged_file_gives_way_to_the_file_of_the_new_index() {
    let mut staged = Index::new();
    let mut store = codegit::store::ObjectStore::new();
    staged.add(&mut store, b"tracked.txt", b"old").unwrap();
    let mut before = codegit::worktree::WorkTree::new();
    before.write(b"tracked.txt", b"edited");
    before.write(b"gone.txt", b"x");
    before.write(b"free.txt", b"mine");
    before.write(b"clash.txt", b"mine");
    staged.add(&mut store, b"gone.txt", b"x").unwrap();
    let mut fresh = codegit::worktree::WorkTree::new();
    fresh.write(b"tracked.txt", b"new");
    fresh.write(b"clash.txt", b"theirs");
    let after = before.carry(&staged, fresh);
    assert_eq!(after.len(), 3);
    assert_eq!(after.read(b"tracked.txt").unwrap(), &b"new".to_vec());
    assert_eq!(after.read(b"clash.txt").unwrap(), &b"theirs".to_vec());
    assert_eq!(after.read(b"free.txt").unwrap(), &b"mine".to_vec());
    assert!(after.read(b"gone.txt").is_none());
}

#[test]
fn merging_commits_of_one_tree_keeps_the_tree() {
    let mut repo = Repository::init();
    let a = commit_file(&mut repo, b"file.txt", b"a", b"A", 1);
    let tree = tree_of(&repo, a);
    repo.create_branch(b"feature").unwrap();
    repo.switch_branch(b"feature").unwrap();
    let f = repo.commit_changes(b"nothing new", &who(2)).unwrap();
    repo.switch_branch(b"main").unwrap();
    let m = repo.commit_changes(b"nothing new either", &who(3)).unwrap();
    assert_eq!(tree_of(&repo, f), tree);
    assert_eq!(tree_of(&repo, m), tree);
    assert_eq!(merge_base(&repo.objects, m, f).unwrap(), Some(a));

    let report = repo.merge_branch(b"feature", &who(4)).unwrap();
    assert_eq!(report.kind, MergeKind::Merged);
    assert!(report.conflicts.is_empty());
    assert!(repo.get_merge_conflicts().unwrap().is_empty());
    let merged = report.commit.unwrap();
    assert_eq!(tree_of(&repo, merged), tree);
    assert_eq!(branch_tip(&repo, b"main"), merged);
    assert_eq!(repo.refs.resolve(b"HEAD").unwrap(), merged);
}

#[test]
fn merging_where_only_the_branch_changed_gives_the_tree_of_the_branch() {
    let mut repo = Repository::init();
    let a = commit_file(&mut repo, b"file.txt", b"a", b"A", 1);
    repo.create_branch(b"feature").unwrap();
    repo.switch_branch(b"feature").unwrap();
    let f = commit_file(&mut repo, b"file.txt", b"changed", b"F", 2);
    repo.switch_branch(b"main").unwrap();
    let m = repo.commit_changes(b"same files", &who(3)).unwrap();
    assert_eq!(tree_of(&repo, m), tree_of(&repo, a));

    let report = repo.merge_branch(b"feature", &who(4)).unwrap();
    assert_eq!(report.kind, MergeKind::Merged);
    assert!(report.conflicts.is_empty());
    assert_eq!(tree_of(&repo, report.commit.unwrap()), tree_of(&repo, f));
    assert_eq!(repo.workdir.read(b"file.txt").unwrap(), &b"changed".to_vec());
}
