use codegit::error::ErrorKind;
use codegit::index::{Index, Slot};
use codegit::object::{FileMode, Object, TreeItem};
use codegit::oid::{ObjectId, ObjectKind};
use codegit::paths::{head_len, is_valid_path};
use codegit::store::ObjectStore;

fn hex(id: &ObjectId) -> String {
    String::from_utf8(id.to_hex()).unwrap()
}

fn entry(mode: &[u8], name: &[u8], id: &ObjectId) -> Vec<u8> {
    let mut out = mode.to_vec();
    out.push(b' ');
    out.extend_from_slice(name);
    out.push(0);
    out.extend_from_slice(&id.to_bytes());
    out
}

fn tree_id(content: &[u8]) -> String {
    git2::Oid::hash_object(git2::ObjectType::Tree, content).unwrap().to_string()
}

#[test]
fn paths_are_split_at_the_first_slash() {
    assert_eq!(head_len(b"a/b/c"), 2);
    assert_eq!(head_len(b"abc"), 3);
    assert_eq!(head_len(b"/x"), 1);
    assert_eq!(head_len(b""), 0);
    assert!(is_valid_path(b"a"));
    assert!(is_valid_path(b"a/b/c.txt"));
    assert!(!is_valid_path(b""));
    assert!(!is_valid_path(b"/a"));
    assert!(!is_valid_path(b"a/"));
    assert!(!is_valid_path(b"a//b"));
    assert!(!is_valid_path(b"/"));
}

#[test]
fn trees_are_written_bottom_up_as_git_writes_them() {
    let mut store = ObjectStore::new();
    let mut index = Index::new();
    let top = index.add(&mut store, b"top.txt", b"top").unwrap();
    let deep = index.add(&mut store, b"dir/sub/deep.txt", b"deep").unwrap();
    let side = index.add(&mut store, b"dir/side.txt", b"side").unwrap();
    let root = index.write_tree(&mut store).unwrap();

    let sub = entry(b"100644", b"deep.txt", &deep);
    let sub_id = ObjectId::of_content(ObjectKind::Tree, &sub).unwrap();
    let mut dir = entry(b"100644", b"side.txt", &side);
    dir.extend_from_slice(&entry(b"40000", b"sub", &sub_id));
    let dir_id = ObjectId::of_content(ObjectKind::Tree, &dir).unwrap();
    let mut expected = entry(b"40000", b"dir", &dir_id);
    expected.extend_from_slice(&entry(b"100644", b"top.txt", &top));
    assert_eq!(hex(&root), tree_id(&expected));

    assert!(store.contains(sub_id));
    assert!(store.contains(dir_id));
    match store.get(root).unwrap() {
        Object::Tree(t) => {
            assert_eq!(t.len(), 2);
            assert_eq!(t.name_at(0), &b"dir/".to_vec());
            assert_eq!(t.item_at(0), TreeItem { mode: FileMode::Directory, id: dir_id });
            assert_eq!(t.name_at(1), &b"top.txt".to_vec());
            assert_eq!(t.content(), expected);
        },
        _ => panic!("not a tree"),
    }
    assert_eq!(store.len(), 6);

    let back = Index::from_tree(&store, root).unwrap();
    assert_eq!(back, index);
    assert_eq!(back.path_at(0), &b"dir/side.txt".to_vec());
    assert_eq!(back.path_at(1), &b"dir/sub/deep.txt".to_vec());
    assert_eq!(back.path_at(2), &b"top.txt".to_vec());
}

#[test]
fn directories_sort_as_if_their_names_ended_with_a_slash() {
    let mut store = ObjectStore::new();
    let mut index = Index::new();
    let x = index.add(&mut store, b"a/x", b"1").unwrap();
    let dotted = index.add(&mut store, b"a.b", b"2").unwrap();
    let zero = index.add(&mut store, b"a0", b"3").unwrap();
    let root = index.write_tree(&mut store).unwrap();
    let a = entry(b"100644", b"x", &x);
    let a_id = ObjectId::of_content(ObjectKind::Tree, &a).unwrap();
    let mut expected = entry(b"100644", b"a.b", &dotted);
    expected.extend_from_slice(&entry(b"40000", b"a", &a_id));
    expected.extend_from_slice(&entry(b"100644", b"a0", &zero));
    assert_eq!(hex(&root), tree_id(&expected));
    assert_eq!(Index::from_tree(&store, root).unwrap(), index);
}

#[test]
fn a_file_and_a_directory_of_the_same_name_round_trip() {
    let mut store = ObjectStore::new();
    let mut index = Index::new();
    index.add(&mut store, b"a", b"file").unwrap();
    index.add(&mut store, b"a/b", b"below").unwrap();
    let root = index.write_tree(&mut store).unwrap();
    assert_eq!(Index::from_tree(&store, root).unwrap(), index);
}

#[test]
fn invalid_paths_and_directory_entries_are_refused() {
    let mut store = ObjectStore::new();
    let blob = store.put(Object::Blob(b"x".to_vec())).unwrap();
    for path in [&b"a//b"[..], b"/a", b"a/"] {
        let mut index = Index::new();
        index.add(&mut store, path, b"x").unwrap();
        assert_eq!(index.write_tree(&mut store).unwrap_err().kind, ErrorKind::InvalidArgument);
    }
    let mut index = Index::new();
    index.stage(b"d", TreeItem { mode: FileMode::Directory, id: blob });
    assert_eq!(index.write_tree(&mut store).unwrap_err().kind, ErrorKind::InvalidArgument);

    let mut index = Index::new();
    index.stage(b"exe", TreeItem { mode: FileMode::Executable, id: blob });
    let root = index.write_tree(&mut store).unwrap();
    let back = Index::from_tree(&store, root).unwrap();
    assert_eq!(back.get(b"exe"), Some(Slot::Resolved(TreeItem { mode: FileMode::Executable, id: blob })));
    assert_eq!(Index::from_tree(&store, blob).unwrap_err().kind, ErrorKind::InvalidArgument);
    assert_eq!(Index::from_tree(&store, ObjectId { hi: 3, lo: 3 }).unwrap_err().kind, ErrorKind::NotFound);
}

#[test]
fn a_tree_with_a_missing_directory_cannot_be_read() {
    let mut store = ObjectStore::new();
    let mut tree = codegit::object::Tree::new();
    tree.insert(b"gone/", TreeItem { mode: FileMode::Directory, id: ObjectId { hi: 42, lo: 42 } });
    let outer = store.put(Object::Tree(tree)).unwrap();
    assert_eq!(Index::from_tree(&store, outer).unwrap_err().kind, ErrorKind::NotFound);
}

#[test]
fn empty_index_writes_the_empty_tree() {
    let mut store = ObjectStore::new();
    let root = Index::new().write_tree(&mut store).unwrap();
    assert_eq!(hex(&root), "4b825dc642cb6eb9a060e54bf8d69288fbee4904");
    assert_eq!(Index::from_tree(&store, root).unwrap().len(), 0);
}
