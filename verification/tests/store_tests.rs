use codegit::object::Object;
use codegit::oid::{ObjectId, ObjectKind};
use codegit::store::ObjectStore;

fn hex(id: &ObjectId) -> String {
    String::from_utf8(id.to_hex()).unwrap()
}

#[test]
fn blob_ids_are_git_blob_ids() {
    let empty = ObjectId::of_content(ObjectKind::Blob, b"").unwrap();
    assert_eq!(hex(&empty), "e69de29bb2d1d6434b8b29ae775ad8c2e48c5391");
    let hello = ObjectId::of_content(ObjectKind::Blob, b"hello\n").unwrap();
    assert_eq!(hex(&hello), "ce013625030ba8dba906f756967f9e9ca394464a");
}

#[test]
fn put_twice_gives_the_same_id() {
    let mut store = ObjectStore::new();
    let a = store.put(Object::Blob(b"content".to_vec())).unwrap();
    let b = store.put(Object::Blob(b"content".to_vec())).unwrap();
    assert_eq!(a, b);
    assert_eq!(store.len(), 1);
}
