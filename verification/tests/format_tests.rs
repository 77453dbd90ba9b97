use codegit::error::ErrorKind;
use codegit::object::{Commit, FileMode, Object, Signature, Tag, Tree, TreeItem};
use codegit::oid::{ObjectId, ObjectKind};

fn hex(id: &ObjectId) -> String {
    String::from_utf8(id.to_hex()).unwrap()
}

#[test]
fn ids_round_trip_through_bytes_and_hex() {
    let id = ObjectId::of_content(ObjectKind::Blob, b"hello\n").unwrap();
    assert_eq!(id.to_bytes().len(), 20);
    assert_eq!(ObjectId::from_bytes(&id.to_bytes()), Some(id));
    assert_eq!(ObjectId::from_hex(&id.to_hex()).unwrap(), id);
    assert_eq!(ObjectId::from_hex(b"CE013625030BA8DBA906F756967F9E9CA394464A").unwrap(), id);
    assert_eq!(id.to_bytes()[0], 0xce);
    assert_eq!(id.to_bytes()[19], 0x4a);
    assert_eq!(id.hi >> 120, 0xce);
    assert_eq!(id.lo & 0xff, 0x4a);
    assert_eq!(ObjectId::from_bytes(&[0u8; 19]), None);
    let short = ObjectId::from_hex(b"ce01").unwrap();
    assert_eq!(hex(&short), "ce01000000000000000000000000000000000000");
    assert_eq!(hex(&ObjectId::from_hex(b"abc").unwrap()), "abc0000000000000000000000000000000000000");
    assert_eq!(ObjectId::from_hex(b"").unwrap_err().kind, ErrorKind::InvalidArgument);
    assert_eq!(
        ObjectId::from_hex(b"ce013625030ba8dba906f756967f9e9ca394464a0").unwrap_err().kind,
        ErrorKind::InvalidArgument
    );
    assert_eq!(hex(&short), git2::Oid::from_str("ce01").unwrap().to_string());
    assert!(git2::Oid::from_str("").is_err());
    assert!(git2::Oid::from_str("xyz").is_err());
    assert_eq!(
        ObjectId::from_hex(b"ge013625030ba8dba906f756967f9e9ca394464a").unwrap_err().kind,
        ErrorKind::InvalidArgument
    );
    let zero = ObjectId { hi: 0, lo: 0 };
    assert_eq!(hex(&zero), "0000000000000000000000000000000000000000");
    assert!(zero.below(&id));
    assert!(!id.below(&zero));
    assert!(!id.below(&id));
    assert!(ObjectId { hi: 1, lo: 0 }.below(&ObjectId { hi: 1, lo: 1 }));
    assert!(ObjectId { hi: 0, lo: 9 }.below(&ObjectId { hi: 1, lo: 0 }));
}

#[test]
fn ids_agree_with_the_hashing_library() {
    let data = b"some content";
    for (kind, outside) in [
        (ObjectKind::Blob, git2::ObjectType::Blob),
        (ObjectKind::Tree, git2::ObjectType::Tree),
        (ObjectKind::Commit, git2::ObjectType::Commit),
        (ObjectKind::Tag, git2::ObjectType::Tag),
    ] {
        let ours = ObjectId::of_content(kind, data).unwrap();
        let theirs = git2::Oid::hash_object(outside, data).unwrap();
        assert_eq!(hex(&ours), theirs.to_string());
    }
}

#[test]
fn empty_tree_has_the_well_known_id() {
    let tree = Object::Tree(Tree::new());
    assert_eq!(tree.content(), Vec::<u8>::new());
    assert_eq!(hex(&tree.id().unwrap()), "4b825dc642cb6eb9a060e54bf8d69288fbee4904");
}

#[test]
fn tree_content_lists_entries_in_order_of_names() {
    let blob = ObjectId::of_content(ObjectKind::Blob, b"hello\n").unwrap();
    let mut tree = Tree::new();
    tree.insert(b"z", TreeItem { mode: FileMode::Executable, id: blob });
    tree.insert(b"a", TreeItem::file(blob));
    tree.insert(b"dir", TreeItem { mode: FileMode::Directory, id: blob });
    assert_eq!(tree.len(), 3);
    assert_eq!(tree.name_at(0), &b"a".to_vec());
    assert_eq!(tree.name_at(2), &b"z".to_vec());
    assert_eq!(tree.item_at(1).kind(), ObjectKind::Tree);
    assert_eq!(tree.item_at(0).kind(), ObjectKind::Blob);
    let mut expected = Vec::new();
    expected.extend_from_slice(b"100644 a\0");
    expected.extend_from_slice(&blob.to_bytes());
    expected.extend_from_slice(b"40000 dir\0");
    expected.extend_from_slice(&blob.to_bytes());
    expected.extend_from_slice(b"100755 z\0");
    expected.extend_from_slice(&blob.to_bytes());
    assert_eq!(tree.content(), expected);
    tree.insert(b"a", TreeItem { mode: FileMode::Symlink, id: blob });
    assert_eq!(tree.len(), 3);
    assert_eq!(tree.get(b"a"), Some(TreeItem { mode: FileMode::Symlink, id: blob }));
    tree.remove(b"a");
    tree.remove(b"nothing");
    assert_eq!(tree.len(), 2);
    assert_eq!(tree.get(b"a"), None);
    assert!(tree.same(&tree.copy()));
}

#[test]
fn commit_content_is_the_canonical_text() {
    let tree = Object::Tree(Tree::new()).id().unwrap();
    let parent = ObjectId::of_content(ObjectKind::Commit, b"x").unwrap();
    let commit = Commit {
        tree,
        parents: vec![parent, tree],
        author: Signature { name: b"Ada".to_vec(), email: b"ada@example.org".to_vec(), time: 1234567890 },
        committer: Signature { name: b"Bob".to_vec(), email: b"bob@example.org".to_vec(), time: -5 },
        message: b"subject\n\nbody\n".to_vec(),
    };
    let expected = format!(
        "tree {}\nparent {}\nparent {}\nauthor Ada <ada@example.org> 1234567890 +0000\ncommitter Bob <bob@example.org> -5 +0000\n\nsubject\n\nbody\n",
        hex(&tree),
        hex(&parent),
        hex(&tree)
    );
    assert_eq!(String::from_utf8(commit.content()).unwrap(), expected);
    let id = Object::Commit(commit.clone()).id().unwrap();
    let theirs = git2::Oid::hash_object(git2::ObjectType::Commit, expected.as_bytes()).unwrap();
    assert_eq!(hex(&id), theirs.to_string());
    assert!(commit.same(&commit.copy()));

    let edge = Commit {
        tree,
        parents: vec![],
        author: Signature { name: vec![], email: vec![], time: i64::MIN },
        committer: Signature { name: vec![], email: vec![], time: 0 },
        message: vec![],
    };
    let expected = format!(
        "tree {}\nauthor  <> -9223372036854775808 +0000\ncommitter  <> 0 +0000\n\n",
        hex(&tree)
    );
    assert_eq!(String::from_utf8(edge.content()).unwrap(), expected);
}

#[test]
fn tag_content_is_the_canonical_text() {
    let target = ObjectId::of_content(ObjectKind::Blob, b"x").unwrap();
    let tag = Tag { name: b"v1".to_vec(), target, annotation: Some(b"notes".to_vec()) };
    assert_eq!(
        String::from_utf8(tag.content()).unwrap(),
        format!("object {}\ntag v1\n\nnotes", hex(&target))
    );
    let bare = Tag { name: b"v1".to_vec(), target, annotation: None };
    assert_eq!(String::from_utf8(bare.content()).unwrap(), format!("object {}\ntag v1\n", hex(&target)));
    assert!(tag.same(&tag.copy()));
    assert!(!tag.same(&bare));
}
