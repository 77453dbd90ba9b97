use codegit::bytes::{bytes_eq, bytes_lt, bytes_start_with};
use codegit::discovery::{arrange_repositories, is_binary, short_id, show_content, RepositoryInfo};
use codegit::error::{ErrorKind, Operation, Subject};
use codegit::history::{ancestors, generations};
use codegit::index::{Index, Slot};
use codegit::log::shorten;
use codegit::migration::{migration_steps, MigrationStep, OrgFields, UserFields};
use codegit::merge::{is_fast_forward, merge_base};
use codegit::object::{Commit, FileMode, Object, Signature, Tag, Tree, TreeItem};
use codegit::oid::{ObjectId, ObjectKind};
use codegit::porcelain::{parse_reset_mode, ResetMode};
use codegit::rebase::{RebaseEvent, RebasePhase};
use codegit::refs::{RefStore, RefTarget};
use codegit::remotes::{PullOutcome, Remotes};
use codegit::repo::Repository;
use codegit::store::ObjectStore;
use codegit::submodule::{add_submodule, get_submodules, init_submodule, remove_submodule,
    sync_submodule, update_submodule};
use codegit::walk::{walk, RevWalk};
use codegit::worktree::WorkTree;

fn who(time: i64) -> Signature {
    Signature { name: b"Ada".to_vec(), email: b"ada@example.org".to_vec(), time }
}

fn put_commit(store: &mut ObjectStore, parents: Vec<ObjectId>, message: &[u8], time: i64) -> ObjectId {
    let tree = store.put(Object::Tree(Tree::new())).unwrap();
    store
        .put(Object::Commit(Commit {
            tree,
            parents,
            author: who(time),
            committer: who(time),
            message: message.to_vec(),
        }))
        .unwrap()
}

#[test]
fn byte_strings_compare_lexicographically() {
    assert!(bytes_lt(b"a", b"b"));
    assert!(bytes_lt(b"a", b"aa"));
    assert!(bytes_lt(b"", b"a"));
    assert!(!bytes_lt(b"a", b"a"));
    assert!(!bytes_lt(b"b", b"a"));
    assert!(bytes_lt(b"a.b", b"a/c"));
    assert!(bytes_eq(b"abc", b"abc"));
    assert!(!bytes_eq(b"abc", b"abd"));
    assert!(!bytes_eq(b"abc", b"ab"));
    assert!(bytes_start_with(b"refs/heads/main", b"refs/heads/"));
    assert!(!bytes_start_with(b"refs", b"refs/heads/"));
    assert!(bytes_start_with(b"x", b""));
}

#[test]
fn store_get_checks_presence_and_integrity() {
    let mut store = ObjectStore::new();
    let id = store.put(Object::Blob(b"hello".to_vec())).unwrap();
    assert!(store.contains(id));
    assert_eq!(store.get(id).unwrap(), &Object::Blob(b"hello".to_vec()));

    let absent = ObjectId { hi: 1, lo: 2 };
    assert!(!store.contains(absent));
    let err = store.get(absent).unwrap_err();
    assert_eq!(err.kind, ErrorKind::NotFound);
    assert_eq!(err.operation, Operation::Get);
    assert_eq!(err.subject, Subject::Object(absent));

    assert!(store.load(absent, Object::Blob(b"not what the id says".to_vec())));
    assert!(!store.load(absent, Object::Blob(b"again".to_vec())));
    let err = store.get(absent).unwrap_err();
    assert_eq!(err.kind, ErrorKind::Corrupt);
    assert_eq!(store.len(), 2);

    let blob = Object::Blob(b"not what the id says".to_vec());
    let real = blob.id().unwrap();
    assert!(store.load(real, Object::Blob(b"impostor".to_vec())));
    let err = store.put(blob).unwrap_err();
    assert_eq!(err.kind, ErrorKind::Corrupt);
    assert_eq!(err.operation, Operation::Put);
}

#[test]
fn references_compare_and_swap() {
    let mut refs = RefStore::new();
    let a = ObjectId { hi: 0, lo: 1 };
    let b = ObjectId { hi: 0, lo: 2 };
    refs.write(b"refs/heads/main", RefTarget::Direct(a), None).unwrap();
    assert_eq!(refs.read(b"refs/heads/main").unwrap(), RefTarget::Direct(a));

    let lost = refs.write(b"refs/heads/main", RefTarget::Direct(b), None).unwrap_err();
    assert_eq!(lost.kind, ErrorKind::ConcurrentModification);
    let lost = refs
        .write(b"refs/heads/main", RefTarget::Direct(b), Some(&RefTarget::Direct(b)))
        .unwrap_err();
    assert_eq!(lost.kind, ErrorKind::ConcurrentModification);
    assert_eq!(refs.read(b"refs/heads/main").unwrap(), RefTarget::Direct(a));

    refs.write(b"refs/heads/main", RefTarget::Direct(b), Some(&RefTarget::Direct(a))).unwrap();
    assert_eq!(refs.read(b"refs/heads/main").unwrap(), RefTarget::Direct(b));
    assert_eq!(refs.write(b"", RefTarget::Direct(b), None).unwrap_err().kind, ErrorKind::InvalidArgument);

    assert_eq!(refs.read(b"refs/heads/none").unwrap_err().kind, ErrorKind::NotFound);
    assert_eq!(refs.delete(b"refs/heads/none").unwrap_err().kind, ErrorKind::NotFound);
    refs.delete(b"refs/heads/main").unwrap();
    assert_eq!(refs.read(b"refs/heads/main").unwrap_err().kind, ErrorKind::NotFound);
}

#[test]
fn references_resolve_and_list() {
    let mut refs = RefStore::new();
    let a = ObjectId { hi: 7, lo: 7 };
    refs.set(b"refs/heads/main", RefTarget::Direct(a));
    refs.set(b"refs/heads/dev", RefTarget::Direct(a));
    refs.set(b"refs/tags/v1", RefTarget::Direct(a));
    refs.set(b"HEAD", RefTarget::Symbolic(b"refs/heads/main".to_vec()));
    assert_eq!(refs.resolve(b"HEAD").unwrap(), a);
    assert_eq!(refs.leaf(b"HEAD").unwrap(), b"refs/heads/main".to_vec());
    assert_eq!(refs.direct(b"HEAD"), None);
    assert_eq!(refs.direct(b"refs/heads/main"), Some(a));
    assert_eq!(
        refs.list(b"refs/heads/"),
        vec![b"refs/heads/dev".to_vec(), b"refs/heads/main".to_vec()]
    );
    assert_eq!(refs.list(b"refs/").len(), 3);
    assert_eq!(refs.list(b"").len(), 4);
    assert_eq!(refs.names_of(a).len(), 3);

    refs.set(b"dangling", RefTarget::Symbolic(b"refs/heads/gone".to_vec()));
    let err = refs.resolve(b"dangling").unwrap_err();
    assert_eq!(err.kind, ErrorKind::NotFound);
    assert_eq!(err.operation, Operation::ResolveRef);

    refs.set(b"x", RefTarget::Symbolic(b"y".to_vec()));
    refs.set(b"y", RefTarget::Symbolic(b"x".to_vec()));
    assert_eq!(refs.resolve(b"x").unwrap_err().kind, ErrorKind::Corrupt);
    assert_eq!(refs.leaf(b"x").unwrap_err().kind, ErrorKind::Corrupt);

    let snapshot = refs.copy();
    assert_eq!(snapshot, refs);
}

#[test]
fn index_stages_removes_and_builds_trees() {
    let mut store = ObjectStore::new();
    let mut index = Index::new();
    assert_eq!(index.add(&mut store, b"", b"x").unwrap_err().kind, ErrorKind::InvalidArgument);
    let first = index.add(&mut store, b"f", b"one").unwrap();
    let second = index.add(&mut store, b"f", b"two").unwrap();
    assert_ne!(first, second);
    assert_eq!(index.len(), 1);
    assert_eq!(index.get(b"f"), Some(Slot::Resolved(TreeItem { mode: FileMode::Regular, id: second })));
    assert_eq!(index.get(b"g"), None);
    assert!(!index.has_conflicts());
    assert_eq!(index.remove(b"g").unwrap_err().kind, ErrorKind::NotFound);

    index.set(
        b"c",
        Slot::Conflicted { ancestor: None, ours: Some(TreeItem::file(first)), theirs: Some(TreeItem::file(second)) },
    );
    assert!(index.has_conflicts());
    assert_eq!(index.conflict_paths(), vec![b"c".to_vec()]);
    assert_eq!(index.write_tree(&mut store).unwrap_err().kind, ErrorKind::Conflict);
    let conflicts = index.conflicts(&store).unwrap();
    assert_eq!(conflicts[0].ancestor, None);
    assert_eq!(conflicts[0].ours, Some(b"one".to_vec()));
    assert_eq!(conflicts[0].theirs, Some(b"two".to_vec()));
    let slot = index.get(b"c").unwrap();
    assert_eq!(slot.stage(0), None);
    assert_eq!(slot.stage(1), None);
    assert_eq!(slot.stage(2), Some(TreeItem::file(first)));
    assert_eq!(slot.stage(3), Some(TreeItem::file(second)));

    let work = WorkTree::materialize(&store, &index).unwrap();
    assert_eq!(
        work.read(b"c").unwrap(),
        &b"<<<<<<< ours\none||||||| base\n=======\ntwo>>>>>>> theirs\n".to_vec()
    );
    assert_eq!(work.read(b"f").unwrap(), &b"two".to_vec());

    index.add(&mut store, b"c", b"resolved").unwrap();
    assert!(!index.has_conflicts());
    index.remove(b"f").unwrap();
    assert_eq!(index.len(), 1);
    index.write_tree(&mut store).unwrap();
}

#[test]
fn ancestors_and_generations() {
    let mut store = ObjectStore::new();
    let a = put_commit(&mut store, vec![], b"a", 1);
    let b = put_commit(&mut store, vec![a], b"b", 2);
    let c = put_commit(&mut store, vec![a], b"c", 3);
    let d = put_commit(&mut store, vec![b, c], b"d", 4);
    let all = ancestors(&store, &vec![d]).unwrap();
    assert_eq!(all.len(), 4);
    assert_eq!(all[0], d);
    let (order, gens) = generations(&store, &all).unwrap();
    let gen_of = |id: ObjectId| gens[order.iter().position(|x| *x == id).unwrap()];
    assert_eq!(gen_of(a), 0);
    assert_eq!(gen_of(b), 1);
    assert_eq!(gen_of(c), 1);
    assert_eq!(gen_of(d), 2);

    let missing = ObjectId { hi: 9, lo: 9 };
    let e = put_commit(&mut store, vec![missing], b"e", 5);
    let err = ancestors(&store, &vec![e]).unwrap_err();
    assert_eq!(err.kind, ErrorKind::NotFound);
    assert_eq!(err.subject, Subject::Object(missing));

    let blob = store.put(Object::Blob(b"x".to_vec())).unwrap();
    assert_eq!(ancestors(&store, &vec![blob]).unwrap_err().kind, ErrorKind::InvalidArgument);
}

#[test]
fn merge_base_picks_the_nearest_and_breaks_ties_by_id() {
    let mut store = ObjectStore::new();
    let root = put_commit(&mut store, vec![], b"root", 1);
    let x = put_commit(&mut store, vec![root], b"x", 2);
    let y = put_commit(&mut store, vec![root], b"y", 3);
    let left = put_commit(&mut store, vec![x, y], b"left", 4);
    let right = put_commit(&mut store, vec![y, x], b"right", 5);
    let base = merge_base(&store, left, right).unwrap().unwrap();
    let lowest = if x.below(&y) { x } else { y };
    assert_eq!(base, lowest);
    assert_eq!(merge_base(&store, right, left).unwrap(), Some(lowest));
    assert_eq!(merge_base(&store, left, left).unwrap(), Some(left));
    assert_eq!(merge_base(&store, x, left).unwrap(), Some(x));
    assert_eq!(merge_base(&store, x, y).unwrap(), Some(root));
    assert!(is_fast_forward(&store, x, left).unwrap());
    assert!(!is_fast_forward(&store, left, x).unwrap());
    assert!(!is_fast_forward(&store, x, y).unwrap());

    let alone = put_commit(&mut store, vec![], b"alone", 6);
    assert_eq!(merge_base(&store, alone, left).unwrap(), None);
    assert!(!is_fast_forward(&store, alone, left).unwrap());

    let gone = ObjectId { hi: 5, lo: 5 };
    assert_eq!(merge_base(&store, gone, left).unwrap_err().kind, ErrorKind::NotFound);
}

#[test]
fn cycles_are_corrupt_history() {
    let mut store = ObjectStore::new();
    let tree = store.put(Object::Tree(Tree::new())).unwrap();
    let a = ObjectId { hi: 100, lo: 1 };
    let b = ObjectId { hi: 100, lo: 2 };
    let commit = |parent: ObjectId| {
        Object::Commit(Commit {
            tree,
            parents: vec![parent],
            author: who(1),
            committer: who(1),
            message: b"loop".to_vec(),
        })
    };
    store.load(a, commit(b));
    store.load(b, commit(a));
    assert_eq!(merge_base(&store, a, b).unwrap_err().kind, ErrorKind::Corrupt);
    assert_eq!(walk(&store, &vec![a], &vec![]).unwrap_err().kind, ErrorKind::Corrupt);
}

#[test]
fn walk_goes_children_first_and_newest_first() {
    let mut store = ObjectStore::new();
    let a = put_commit(&mut store, vec![], b"a", 1);
    let b = put_commit(&mut store, vec![a], b"b", 5);
    let c = put_commit(&mut store, vec![a], b"c", 3);
    let d = put_commit(&mut store, vec![b, c], b"d", 4);
    assert_eq!(walk(&store, &vec![d], &vec![]).unwrap(), vec![d, b, c, a]);
    assert_eq!(walk(&store, &vec![b, c], &vec![]).unwrap(), vec![b, c, a]);
    assert_eq!(walk(&store, &vec![d], &vec![c]).unwrap(), vec![d, b]);
    assert_eq!(walk(&store, &vec![d], &vec![d]).unwrap(), Vec::<ObjectId>::new());
    let old_child = put_commit(&mut store, vec![d], b"old child", 0);
    assert_eq!(walk(&store, &vec![old_child, b], &vec![]).unwrap(), vec![old_child, d, b, c, a]);

    let mut lazy = RevWalk::new();
    lazy.push(d);
    lazy.exclude(c);
    assert_eq!(lazy.next(&store).unwrap(), Some(d));
    assert_eq!(lazy.next(&store).unwrap(), Some(b));
    assert_eq!(lazy.next(&store).unwrap(), None);
    assert_eq!(lazy.next(&store).unwrap(), None);
    lazy.reset();
    assert_eq!(lazy.next(&store).unwrap(), Some(d));
    lazy.push(a);
    assert_eq!(lazy.next(&store).unwrap(), Some(d));
}

#[test]
fn branches_status_log_and_reset() {
    let mut repo = Repository::init();
    assert_eq!(repo.create_branch(b"early").unwrap_err().kind, ErrorKind::NotFound);
    assert_eq!(repo.get_commits(None).unwrap_err().kind, ErrorKind::NotFound);
    repo.workdir.write(b"a.txt", b"1");
    repo.workdir.write(b"b.txt", b"2");
    let status = repo.get_repository_status().unwrap();
    assert_eq!(status.untracked, vec![b"a.txt".to_vec(), b"b.txt".to_vec()]);
    assert!(status.added.is_empty() && status.modified.is_empty() && status.deleted.is_empty());
    assert_eq!(repo.stage_file(b"missing").unwrap_err().kind, ErrorKind::NotFound);

    repo.stage_file(b"a.txt").unwrap();
    let status = repo.get_repository_status().unwrap();
    assert_eq!(status.added, vec![b"a.txt".to_vec()]);
    assert_eq!(status.untracked, vec![b"b.txt".to_vec()]);
    let first = repo.commit_changes(b"first", &who(1)).unwrap();

    repo.workdir.write(b"a.txt", b"changed");
    repo.stage_file(b"b.txt").unwrap();
    let status = repo.get_repository_status().unwrap();
    assert_eq!(status.modified, vec![b"a.txt".to_vec()]);
    assert_eq!(status.added, vec![b"b.txt".to_vec()]);
    repo.unstage_file(b"b.txt").unwrap();
    assert_eq!(repo.index.get(b"b.txt"), None);
    repo.stage_file(b"a.txt").unwrap();
    repo.unstage_file(b"a.txt").unwrap();
    assert_eq!(repo.get_repository_status().unwrap().modified, vec![b"a.txt".to_vec()]);
    repo.workdir.remove(b"a.txt");
    assert_eq!(repo.get_repository_status().unwrap().deleted, vec![b"a.txt".to_vec()]);
    repo.workdir.write(b"a.txt", b"changed");
    repo.stage_file(b"a.txt").unwrap();
    let second = repo.commit_changes(b"second", &who(2)).unwrap();

    repo.create_branch(b"topic").unwrap();
    assert_eq!(repo.create_branch(b"topic").unwrap_err().kind, ErrorKind::InvalidArgument);
    assert_eq!(repo.create_branch(b"").unwrap_err().kind, ErrorKind::InvalidArgument);
    assert_eq!(repo.switch_branch(b"nowhere").unwrap_err().kind, ErrorKind::NotFound);
    let branches = repo.get_branches();
    assert_eq!(branches.len(), 2);
    assert_eq!(branches[0].name, b"main".to_vec());
    assert!(branches[0].is_head);
    assert!(!branches[0].is_remote);
    assert_eq!(branches[0].target, Some(second));
    assert_eq!(branches[1].name, b"topic".to_vec());
    assert!(!branches[1].is_head);

    let detailed = repo.get_detailed_branches();
    assert_eq!(detailed.len(), 2);
    assert_eq!(detailed[0].commit_count, 2);
    assert_eq!(detailed[0].last_commit_message, b"second".to_vec());
    assert_eq!(detailed[0].last_commit_date, 2);
    assert!(detailed[0].is_current);

    let log = repo.get_log_graph(None).unwrap();
    assert_eq!(log.len(), 2);
    assert_eq!(log[0].id, second);
    assert_eq!(log[0].parents, vec![first]);
    assert_eq!(log[0].refs, vec![b"main".to_vec(), b"topic".to_vec()]);
    assert_eq!(log[0].author, b"Ada".to_vec());
    assert_eq!(log[0].email, b"ada@example.org".to_vec());
    assert_eq!(log[1].id, first);
    assert!(log[1].refs.is_empty());
    assert_eq!(repo.get_commits(Some(1)).unwrap().len(), 1);
    assert_eq!(repo.get_commits(Some(0)).unwrap().len(), 0);

    assert_eq!(parse_reset_mode(b"soft").unwrap(), ResetMode::Soft);
    assert_eq!(parse_reset_mode(b"mixed").unwrap(), ResetMode::Mixed);
    assert_eq!(parse_reset_mode(b"hard").unwrap(), ResetMode::Hard);
    assert_eq!(parse_reset_mode(b"medium").unwrap_err().kind, ErrorKind::InvalidArgument);
    let hex = first.to_hex();
    assert_eq!(repo.reset_to_commit(&hex, b"medium").unwrap_err().kind, ErrorKind::InvalidArgument);
    assert_eq!(repo.reset_to_commit(b"zz", b"hard").unwrap_err().kind, ErrorKind::InvalidArgument);
    repo.reset_to_commit(&hex, b"soft").unwrap();
    assert_eq!(repo.refs.resolve(b"HEAD").unwrap(), first);
    assert_eq!(repo.workdir.read(b"a.txt").unwrap(), &b"changed".to_vec());
    assert_eq!(repo.get_repository_status().unwrap().modified, Vec::<Vec<u8>>::new());
    repo.reset_to_commit(&hex, b"mixed").unwrap();
    assert_eq!(repo.get_repository_status().unwrap().modified, vec![b"a.txt".to_vec()]);
    repo.reset_to_commit(&hex, b"hard").unwrap();
    assert_eq!(repo.workdir.read(b"a.txt").unwrap(), &b"1".to_vec());
    assert_eq!(repo.workdir.read(b"b.txt").unwrap(), &b"2".to_vec());
    assert_eq!(repo.workdir.len(), 2);
}

#[test]
fn remotes_and_pull() {
    let mut remotes = Remotes::new();
    remotes.add_remote(b"origin", b"https://example.org/repo.git").unwrap();
    assert_eq!(remotes.add_remote(b"origin", b"other").unwrap_err().kind, ErrorKind::InvalidArgument);
    assert_eq!(remotes.add_remote(b"", b"other").unwrap_err().kind, ErrorKind::InvalidArgument);
    remotes.add_remote(b"backup", b"/srv/backup").unwrap();
    let listed = remotes.get_remotes();
    assert_eq!(listed.len(), 2);
    assert_eq!(listed[0].name, b"backup".to_vec());
    assert_eq!(listed[1].url, b"https://example.org/repo.git".to_vec());
    assert_eq!(listed[1].fetch_refspecs, vec![b"+refs/heads/*:refs/remotes/origin/*".to_vec()]);
    assert!(listed[1].push_refspecs.is_empty());
    remotes.remove_remote(b"backup").unwrap();
    assert_eq!(remotes.remove_remote(b"backup").unwrap_err().kind, ErrorKind::NotFound);

    let mut repo = Repository::init();
    repo.workdir.write(b"f", b"1");
    repo.stage_file(b"f").unwrap();
    let first = repo.commit_changes(b"first", &who(1)).unwrap();
    assert_eq!(repo.pull_from_remote(b"origin", b"main").unwrap_err().kind, ErrorKind::NotFound);
    repo.workdir.write(b"f", b"2");
    repo.stage_file(b"f").unwrap();
    let second = repo.commit_changes(b"second", &who(2)).unwrap();
    repo.refs.set(b"refs/remotes/origin/main", RefTarget::Direct(second));
    let hex = first.to_hex();
    repo.reset_to_commit(&hex, b"hard").unwrap();
    assert_eq!(repo.pull_from_remote(b"origin", b"main").unwrap(), PullOutcome::FastForwarded);
    assert_eq!(repo.refs.resolve(b"HEAD").unwrap(), second);
    assert_eq!(repo.workdir.read(b"f").unwrap(), &b"2".to_vec());
    repo.refs.set(b"refs/remotes/origin/main", RefTarget::Direct(first));
    assert_eq!(repo.pull_from_remote(b"origin", b"main").unwrap(), PullOutcome::NeedsMerge);
    assert_eq!(repo.refs.resolve(b"HEAD").unwrap(), second);
    let branches = repo.get_branches();
    assert_eq!(branches.len(), 2);
    assert!(branches[1].is_remote);
    assert_eq!(branches[1].name, b"origin/main".to_vec());
}

#[test]
fn submodules_are_unsupported() {
    assert!(get_submodules().is_empty());
    assert_eq!(add_submodule(b"url", b"path", None).unwrap_err().kind, ErrorKind::Unsupported);
    assert_eq!(update_submodule(b"m", true).unwrap_err().kind, ErrorKind::Unsupported);
    assert_eq!(remove_submodule(b"m").unwrap_err().kind, ErrorKind::Unsupported);
    assert_eq!(init_submodule(b"m").unwrap_err().kind, ErrorKind::Unsupported);
    assert_eq!(sync_submodule(b"m").unwrap_err().kind, ErrorKind::Unsupported);
}

#[test]
fn tag_objects_are_stored() {
    let mut store = ObjectStore::new();
    let target = store.put(Object::Blob(b"x".to_vec())).unwrap();
    let tag = Tag { name: b"v1".to_vec(), target, annotation: Some(b"first release".to_vec()) };
    let id = store.put(Object::Tag(tag.clone())).unwrap();
    assert_eq!(store.get(id).unwrap(), &Object::Tag(tag.clone()));
    assert_eq!(store.get(id).unwrap().kind(), ObjectKind::Tag);
    let bare = Tag { name: b"v1".to_vec(), target, annotation: None };
    assert_ne!(store.put(Object::Tag(bare)).unwrap(), id);
}

#[test]
fn index_lists_its_entries_by_path_and_stage() {
    let mut store = ObjectStore::new();
    let mut index = Index::new();
    let one = index.add(&mut store, b"z", b"one").unwrap();
    let two = store.put(Object::Blob(b"two".to_vec())).unwrap();
    index.set(
        b"c",
        Slot::Conflicted { ancestor: Some(TreeItem::file(one)), ours: None, theirs: Some(TreeItem::file(two)) },
    );
    let entries = index.entries();
    assert_eq!(entries.len(), 3);
    assert_eq!((entries[0].path.clone(), entries[0].stage, entries[0].item.id), (b"c".to_vec(), 1, one));
    assert_eq!((entries[1].path.clone(), entries[1].stage, entries[1].item.id), (b"c".to_vec(), 3, two));
    assert_eq!((entries[2].path.clone(), entries[2].stage, entries[2].item.id), (b"z".to_vec(), 0, one));
    assert!(Index::new().entries().is_empty());
}

#[test]
fn references_resolve_to_objects_that_exist() {
    let mut repo = Repository::init();
    assert_eq!(repo.resolve(b"HEAD").unwrap_err().kind, ErrorKind::NotFound);
    repo.workdir.write(b"f", b"1");
    repo.stage_file(b"f").unwrap();
    let first = repo.commit_changes(b"first", &who(1)).unwrap();
    assert_eq!(repo.resolve(b"HEAD").unwrap(), first);
    assert_eq!(repo.resolve(b"refs/heads/main").unwrap(), first);
    repo.refs.set(b"refs/heads/ghost", RefTarget::Direct(ObjectId { hi: 1, lo: 1 }));
    let err = repo.resolve(b"refs/heads/ghost").unwrap_err();
    assert_eq!(err.kind, ErrorKind::NotFound);
    assert_eq!(err.subject, Subject::Name(b"refs/heads/ghost".to_vec()));
    repo.refs.set(b"a", RefTarget::Symbolic(b"a".to_vec()));
    assert_eq!(repo.resolve(b"a").unwrap_err().kind, ErrorKind::Corrupt);
}

#[test]
fn repositories_are_listed_by_name_without_repeated_paths() {
    let info = |name: &[u8], path: &[u8], branch: &[u8]| RepositoryInfo {
        name: name.to_vec(),
        path: path.to_vec(),
        current_branch: branch.to_vec(),
        last_commit: b"no-commits".to_vec(),
        is_dirty: false,
        last_accessed: 0,
    };
    let found = vec![
        info(b"zeta", b"/home/u/zeta", b"main"),
        info(b"alpha", b"/home/u/work/alpha", b"main"),
        info(b"zeta", b"/home/u/zeta", b"seen again"),
        info(b"alpha", b"/home/u/alpha", b"dev"),
        info(b"beta", b"/srv/beta", b"main"),
    ];
    let out = arrange_repositories(&found);
    let paths: Vec<Vec<u8>> = out.iter().map(|r| r.path.clone()).collect();
    assert_eq!(
        paths,
        vec![
            b"/home/u/alpha".to_vec(),
            b"/home/u/work/alpha".to_vec(),
            b"/srv/beta".to_vec(),
            b"/home/u/zeta".to_vec()
        ]
    );
    assert_eq!(out[3].current_branch, b"main".to_vec());
    assert!(arrange_repositories(&Vec::new()).is_empty());

    let id = ObjectId::from_hex(b"ce013625030ba8dba906f756967f9e9ca394464a").unwrap();
    assert_eq!(short_id(id), b"ce013625".to_vec());
    assert!(is_binary(b"a\0b"));
    assert!(!is_binary(b"plain"));
    assert!(!is_binary(b""));
    assert_eq!(show_content(b"plain"), (b"plain".to_vec(), false));
    assert_eq!(show_content(b"\0\0\0"), (b"Binary file (3 bytes)".to_vec(), true));
    let big = vec![0u8; 1234];
    assert_eq!(show_content(&big).0, b"Binary file (1234 bytes)".to_vec());
}

#[test]
fn a_log_shows_references_by_their_short_names() {
    let mut repo = Repository::init();
    repo.workdir.write(b"a.txt", b"a");
    repo.stage_file(b"a.txt").unwrap();
    let first = repo.commit_changes(b"first", &who(1)).unwrap();
    repo.refs.set(b"refs/tags/v1", RefTarget::Direct(first));
    repo.refs.set(b"refs/remotes/origin/main", RefTarget::Direct(first));
    repo.refs.set(b"refs/notes/review", RefTarget::Direct(first));
    repo.refs.set(b"ORIG_HEAD", RefTarget::Direct(first));
    repo.refs.set(b"refs/heads/alias", RefTarget::Symbolic(b"refs/heads/main".to_vec()));
    let log = repo.get_log_graph(None).unwrap();
    assert_eq!(log.len(), 1);
    assert_eq!(
        log[0].refs,
        vec![b"main".to_vec(), b"notes/review".to_vec(), b"origin/main".to_vec(), b"v1".to_vec()]
    );
    assert_eq!(shorten(&b"refs/heads/main".to_vec()), b"main".to_vec());
    assert_eq!(shorten(&b"refs/stash".to_vec()), b"stash".to_vec());
    assert_eq!(shorten(&b"HEAD".to_vec()), b"HEAD".to_vec());

    repo.refs.set(b"HEAD", RefTarget::Direct(first));
    let detached = repo.get_log_graph(None).unwrap();
    assert_eq!(detached[0].refs, log[0].refs);
}

#[test]
fn failures_name_the_operation_that_was_asked_for() {
    let mut repo = Repository::init();
    let e = repo.commit_changes(b"nothing", &who(1));
    assert!(e.is_ok());
    let e = repo.merge_branch(b"absent", &who(2)).unwrap_err();
    assert_eq!(e.kind, ErrorKind::NotFound);
    assert_eq!(e.operation, Operation::Merge);
    assert_eq!(e.subject, Subject::Name(b"refs/heads/absent".to_vec()));
    let e = repo.switch_branch(b"absent").unwrap_err();
    assert_eq!(e.operation, Operation::Branch);
    let e = repo.reset_to_commit(b"zz", b"hard").unwrap_err();
    assert_eq!(e.operation, Operation::Reset);
    let e = repo.cherry_pick_commit(b"zz", &who(3)).unwrap_err();
    assert_eq!(e.operation, Operation::CherryPick);
    let e = repo.apply_stash(4).unwrap_err();
    assert_eq!((e.kind, e.operation), (ErrorKind::NotFound, Operation::Stash));
    let e = repo.continue_rebase().unwrap_err();
    assert_eq!((e.kind, e.operation), (ErrorKind::InvalidArgument, Operation::Rebase));
    let e = repo.stage_file(b"absent.txt").unwrap_err();
    assert_eq!((e.kind, e.operation), (ErrorKind::NotFound, Operation::Stage));

    let mut index = Index::new();
    let mut store = ObjectStore::new();
    index.add(&mut store, b"a//b", b"x").unwrap();
    let e = index.write_tree(&mut store).unwrap_err();
    assert_eq!(e.kind, ErrorKind::InvalidArgument);
    assert_eq!(e.subject, Subject::Name(b"a//b".to_vec()));
}

#[test]
fn a_plan_starts_only_where_no_rebase_is_under_way() {
    assert_eq!(RebasePhase::Idle.start(), Some(RebasePhase::Replaying));
    assert_eq!(RebasePhase::Planning.start(), Some(RebasePhase::Replaying));
    assert_eq!(RebasePhase::Completed.start(), Some(RebasePhase::Replaying));
    assert_eq!(RebasePhase::Aborted.start(), Some(RebasePhase::Replaying));
    assert_eq!(RebasePhase::Replaying.start(), None);
    assert_eq!(RebasePhase::Conflicted.start(), None);
    assert_eq!(RebasePhase::Replaying.after(RebaseEvent::Finish), Some(RebasePhase::Completed));
    assert_eq!(RebasePhase::Replaying.after(RebaseEvent::Pause), Some(RebasePhase::Conflicted));
}

#[test]
fn a_migration_saves_what_is_complete() {
    let user = UserFields {
        name: Some(b"Ada".to_vec()),
        email: Some(b"ada@example.org".to_vec()),
        workspace_name: None,
    };
    let orgs = vec![
        OrgFields {
            id: Some(b"o1".to_vec()),
            name: Some(b"Org".to_vec()),
            color: None,
            description: Some(b"d".to_vec()),
            avatar: None,
        },
        OrgFields { id: Some(Vec::new()), name: Some(b"No id".to_vec()), color: None, description: None, avatar: None },
        OrgFields { id: Some(b"o3".to_vec()), name: None, color: None, description: None, avatar: None },
        OrgFields {
            id: Some(b"o4".to_vec()),
            name: Some(b"Four".to_vec()),
            color: Some(b"#000000".to_vec()),
            description: None,
            avatar: Some(b"a.png".to_vec()),
        },
    ];
    let steps = migration_steps(Some(user), &orgs, Some(false));
    assert_eq!(
        steps,
        vec![
            MigrationStep::SaveUser {
                name: b"Ada".to_vec(),
                email: b"ada@example.org".to_vec(),
                workspace_name: None
            },
            MigrationStep::SaveOrganization {
                id: b"o1".to_vec(),
                name: b"Org".to_vec(),
                color: b"#3b82f6".to_vec(),
                description: Some(b"d".to_vec()),
                avatar: None
            },
            MigrationStep::SaveOrganization {
                id: b"o4".to_vec(),
                name: b"Four".to_vec(),
                color: b"#000000".to_vec(),
                description: None,
                avatar: Some(b"a.png".to_vec())
            },
            MigrationStep::CompleteOnboarding,
        ]
    );

    let nameless = UserFields { name: None, email: Some(b"x@y".to_vec()), workspace_name: None };
    assert!(migration_steps(Some(nameless), &Vec::new(), None).is_empty());
    assert!(migration_steps(None, &Vec::new(), Some(true)).is_empty());
    assert_eq!(migration_steps(None, &Vec::new(), Some(false)), vec![MigrationStep::CompleteOnboarding]);
}

#[test]
fn the_id_of_a_tree_does_not_depend_on_the_store() {
    let mut first = ObjectStore::new();
    let mut second = ObjectStore::new();
    second.put(Object::Blob(b"unrelated".to_vec())).unwrap();
    let mut a = Index::new();
    a.add(&mut first, b"dir/x.txt", b"x").unwrap();
    a.add(&mut first, b"y.txt", b"y").unwrap();
    let mut b = Index::new();
    b.add(&mut second, b"y.txt", b"y").unwrap();
    b.add(&mut second, b"dir/x.txt", b"x").unwrap();
    assert_eq!(a.write_tree(&mut first).unwrap(), b.write_tree(&mut second).unwrap());
}
