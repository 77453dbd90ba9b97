//! The four kinds of object, their mathematical views and their canonical
//! content: the bytes from which an object's id is computed.

use vstd::prelude::*;
use crate::bytes::{bytes_append, bytes_copy, bytes_eq};
use crate::error::{EngineError, ErrorKind, Operation};
use crate::keys::{ascending, find_key, lemma_position_none, lemma_table_at, lemma_table_insert,
    lemma_table_remove, lemma_table_update, lines, position, slot_of, table};
use crate::oid::{content_id, digest_of_id, hex_of, ObjectId, ObjectKind};

verus! {

/// The mode of a tree entry.
#[derive(Clone, Copy, Debug, PartialEq, Eq, Structural)]
pub enum FileMode {
    Regular,
    Executable,
    Symlink,
    Directory,
    Gitlink,
}

/// What a tree binds a name to: a mode and the id of an object.
#[derive(Clone, Copy, Debug, PartialEq, Eq, Structural)]
pub struct TreeItem {
    pub mode: FileMode,
    pub id: ObjectId,
}

/// The kind of object that an entry of mode `mode` names.
pub open spec fn kind_of_mode(mode: FileMode) -> ObjectKind {
    match mode {
        FileMode::Directory => ObjectKind::Tree,
        FileMode::Gitlink => ObjectKind::Commit,
        _ => ObjectKind::Blob,
    }
}

impl TreeItem {
    /// An entry for a regular file with content `id`.
    pub fn file(id: ObjectId) -> (r: TreeItem)
        ensures
            r == (TreeItem { mode: FileMode::Regular, id }),
    {
        TreeItem { mode: FileMode::Regular, id }
    }

    /// The kind of object that the entry names.
    pub fn kind(&self) -> (k: ObjectKind)
        ensures
            k == kind_of_mode(self.mode),
    {
        match self.mode {
            FileMode::Directory => ObjectKind::Tree,
            FileMode::Gitlink => ObjectKind::Commit,
            _ => ObjectKind::Blob,
        }
    }
}

/// A tree: names in strictly ascending order, each bound to an item. A
/// directory stands under its name followed by a slash, which puts it where
/// the canonical order of the entries of a tree wants it.
#[derive(Clone, Debug, PartialEq, Eq)]
pub struct Tree {
    names: Vec<Vec<u8>>,
    items: Vec<TreeItem>,
}

/// A tree as a value of mathematics: its names and, at the same positions,
/// its items.
pub struct TreeView {
    pub names: Seq<Seq<u8>>,
    pub items: Seq<TreeItem>,
}

impl TreeView {
    /// The names are strictly ascending and each has its item.
    pub open spec fn wf(self) -> bool {
        ascending(self.names) && self.names.len() == self.items.len()
    }

    /// The tree as a finite map from names to items.
    pub open spec fn map(self) -> Map<Seq<u8>, TreeItem> {
        table(self.names, self.items)
    }
}

impl View for Tree {
    type V = TreeView;

    closed spec fn view(&self) -> TreeView {
        TreeView { names: lines(self.names@), items: self.items@ }
    }
}

impl Tree {
    /// The invariant of the type: see [`TreeView::wf`].
    pub open spec fn wf(&self) -> bool {
        self@.wf()
    }

    /// The empty tree.
    pub fn new() -> (t: Tree)
        ensures
            t.wf(),
            t@.names.len() == 0,
            t@.map() == Map::<Seq<u8>, TreeItem>::empty(),
    {
        let t = Tree { names: Vec::new(), items: Vec::new() };
        assert(t@.map() =~= Map::<Seq<u8>, TreeItem>::empty()) by {
            assert forall|k: Seq<u8>| !t@.map().contains_key(k) by {
                lemma_position_none(t@.names, k);
            }
        }
        t
    }

    /// The number of entries.
    pub fn len(&self) -> (n: usize)
        requires
            self.wf(),
        ensures
            n == self@.names.len(),
    {
        self.names.len()
    }

    /// The name at position `i`.
    pub fn name_at(&self, i: usize) -> (name: &Vec<u8>)
        requires
            self.wf(),
            i < self@.names.len(),
        ensures
            name@ == self@.names[i as int],
    {
        &self.names[i]
    }

    /// The item at position `i`.
    pub fn item_at(&self, i: usize) -> (item: TreeItem)
        requires
            self.wf(),
            i < self@.names.len(),
        ensures
            item == self@.items[i as int],
            self@.map().contains_key(self@.names[i as int]),
            self@.map()[self@.names[i as int]] == item,
    {
        proof {
            lemma_table_at(self@.names, self@.items, i as int);
        }
        self.items[i]
    }

    /// The item bound to `name`, if any.
    pub fn get(&self, name: &[u8]) -> (r: Option<TreeItem>)
        requires
            self.wf(),
        ensures
            r == (if self@.map().contains_key(name@) {
                Some(self@.map()[name@])
            } else {
                None
            }),
    {
        proof {
            lemma_position_none(self@.names, name@);
        }
        match find_key(&self.names, name) {
            Some(i) => {
                proof {
                    assert(self@.names[i as int] == name@);
                    lemma_table_at(self@.names, self@.items, i as int);
                }
                Some(self.items[i])
            },
            None => None,
        }
    }

    /// Binds `name` to `item`, replacing an earlier binding of the name.
    pub fn insert(&mut self, name: &[u8], item: TreeItem)
        requires
            old(self).wf(),
        ensures
            final(self).wf(),
            final(self)@.map() == old(self)@.map().insert(name@, item),
    {
        match find_key(&self.names, name) {
            Some(i) => {
                proof {
                    assert(self@.names[i as int] == name@);
                    lemma_table_update(self@.names, self@.items, i as int, item);
                }
                self.items.set(i, item);
            },
            None => {
                let at = slot_of(&self.names, name);
                proof {
                    lemma_table_insert(self@.names, self@.items, name@, item, at as int);
                }
                let ghost before = self@.names;
                self.names.insert(at, bytes_copy(name));
                self.items.insert(at, item);
                assert(self@.names =~= before.insert(at as int, name@));
            },
        }
    }

    /// Removes the binding of `name`, if there is one.
    pub fn remove(&mut self, name: &[u8])
        requires
            old(self).wf(),
        ensures
            final(self).wf(),
            final(self)@.map() == old(self)@.map().remove(name@),
    {
        match find_key(&self.names, name) {
            Some(i) => {
                proof {
                    assert(self@.names[i as int] == name@);
                    lemma_table_remove(self@.names, self@.items, i as int);
                }
                let ghost before = self@.names;
                self.names.remove(i);
                self.items.remove(i);
                assert(self@.names =~= before.remove(i as int));
            },
            None => {
                proof {
                    lemma_position_none(self@.names, name@);
                    assert(self@.map() =~= self@.map().remove(name@));
                }
            },
        }
    }

    /// Whether both trees have the same entries.
    pub fn same(&self, other: &Tree) -> (r: bool)
        requires
            self.wf(),
            other.wf(),
        ensures
            r == (self@ == other@),
    {
        if self.names.len() != other.names.len() {
            return false;
        }
        let mut i: usize = 0;
        while i < self.names.len()
            invariant
                self.wf(),
                other.wf(),
                self@.names.len() == other@.names.len(),
                i <= self@.names.len(),
                forall|j: int| 0 <= j < i ==> self@.names[j] == other@.names[j],
                forall|j: int| 0 <= j < i ==> self@.items[j] == other@.items[j],
            decreases self@.names.len() - i,
        {
            if !bytes_eq(self.names[i].as_slice(), other.names[i].as_slice()) {
                assert(self@.names[i as int] != other@.names[i as int]);
                return false;
            }
            if self.items[i] != other.items[i] {
                return false;
            }
            i += 1;
        }
        assert(self@.names =~= other@.names);
        assert(self@.items =~= other@.items);
        true
    }

    /// A copy of the tree.
    pub fn copy(&self) -> (t: Tree)
        requires
            self.wf(),
        ensures
            t.wf(),
            t@ == self@,
    {
        let mut names: Vec<Vec<u8>> = Vec::new();
        let mut items: Vec<TreeItem> = Vec::new();
        let mut i: usize = 0;
        while i < self.names.len()
            invariant
                self.wf(),
                i <= self@.names.len(),
                names@.len() == i,
                items@.len() == i,
                forall|j: int| 0 <= j < i ==> names@[j]@ == self@.names[j],
                forall|j: int| 0 <= j < i ==> items@[j] == self@.items[j],
            decreases self@.names.len() - i,
        {
            names.push(bytes_copy(self.names[i].as_slice()));
            items.push(self.items[i]);
            i += 1;
        }
        let t = Tree { names, items };
        assert(t@.names =~= self@.names);
        assert(t@.items =~= self@.items);
        t
    }
}

/// Who wrote or committed, and when (seconds since the epoch).
#[derive(Clone, Debug, PartialEq, Eq)]
pub struct Signature {
    pub name: Vec<u8>,
    pub email: Vec<u8>,
    pub time: i64,
}

/// A value of [`Signature`] as a value of mathematics.
pub struct SignatureView {
    pub name: Seq<u8>,
    pub email: Seq<u8>,
    pub time: i64,
}

impl View for Signature {
    type V = SignatureView;

    open spec fn view(&self) -> SignatureView {
        SignatureView { name: self.name@, email: self.email@, time: self.time }
    }
}

impl Signature {
    /// A copy of the signature.
    pub fn copy(&self) -> (s: Signature)
        ensures
            s@ == self@,
    {
        Signature {
            name: bytes_copy(self.name.as_slice()),
            email: bytes_copy(self.email.as_slice()),
            time: self.time,
        }
    }

    /// Whether both signatures say the same.
    pub fn same(&self, other: &Signature) -> (r: bool)
        ensures
            r == (self@ == other@),
    {
        bytes_eq(self.name.as_slice(), other.name.as_slice()) && bytes_eq(
            self.email.as_slice(),
            other.email.as_slice(),
        ) && self.time == other.time
    }
}

/// A commit: a tree, the parents in order (the first is the mainline), who
/// and when, and a message.
#[derive(Clone, Debug, PartialEq, Eq)]
pub struct Commit {
    pub tree: ObjectId,
    pub parents: Vec<ObjectId>,
    pub author: Signature,
    pub committer: Signature,
    pub message: Vec<u8>,
}

/// A value of [`Commit`] as a value of mathematics.
pub struct CommitView {
    pub tree: ObjectId,
    pub parents: Seq<ObjectId>,
    pub author: SignatureView,
    pub committer: SignatureView,
    pub message: Seq<u8>,
}

impl View for Commit {
    type V = CommitView;

    open spec fn view(&self) -> CommitView {
        CommitView {
            tree: self.tree,
            parents: self.parents@,
            author: self.author@,
            committer: self.committer@,
            message: self.message@,
        }
    }
}

/// A copy of a list of ids.
pub fn ids_copy(ids: &Vec<ObjectId>) -> (r: Vec<ObjectId>)
    ensures
        r@ == ids@,
{
    let mut out: Vec<ObjectId> = Vec::new();
    let mut i: usize = 0;
    while i < ids.len()
        invariant
            i <= ids@.len(),
            out@ == ids@.subrange(0, i as int),
        decreases ids@.len() - i,
    {
        out.push(ids[i]);
        assert(out@ =~= ids@.subrange(0, i + 1));
        i += 1;
    }
    assert(out@ =~= ids@);
    out
}

/// Whether both lists hold the same ids in the same order.
pub fn ids_same(a: &Vec<ObjectId>, b: &Vec<ObjectId>) -> (r: bool)
    ensures
        r == (a@ == b@),
{
    if a.len() != b.len() {
        return false;
    }
    let mut i: usize = 0;
    while i < a.len()
        invariant
            a@.len() == b@.len(),
            i <= a@.len(),
            forall|j: int| 0 <= j < i ==> a@[j] == b@[j],
        decreases a@.len() - i,
    {
        if a[i] != b[i] {
            return false;
        }
        i += 1;
    }
    assert(a@ =~= b@);
    true
}

impl Commit {
    /// A copy of the commit.
    pub fn copy(&self) -> (c: Commit)
        ensures
            c@ == self@,
    {
        Commit {
            tree: self.tree,
            parents: ids_copy(&self.parents),
            author: self.author.copy(),
            committer: self.committer.copy(),
            message: bytes_copy(self.message.as_slice()),
        }
    }

    /// Whether both commits say the same.
    pub fn same(&self, other: &Commit) -> (r: bool)
        ensures
            r == (self@ == other@),
    {
        self.tree == other.tree && ids_same(&self.parents, &other.parents) && self.author.same(
            &other.author,
        ) && self.committer.same(&other.committer) && bytes_eq(
            self.message.as_slice(),
            other.message.as_slice(),
        )
    }
}

/// A tag: a name for an object, with an optional annotation.
#[derive(Clone, Debug, PartialEq, Eq)]
pub struct Tag {
    pub name: Vec<u8>,
    pub target: ObjectId,
    pub annotation: Option<Vec<u8>>,
}

/// A value of [`Tag`] as a value of mathematics.
pub struct TagView {
    pub name: Seq<u8>,
    pub target: ObjectId,
    pub annotation: Option<Seq<u8>>,
}

impl View for Tag {
    type V = TagView;

    open spec fn view(&self) -> TagView {
        TagView {
            name: self.name@,
            target: self.target,
            annotation: match self.annotation {
                Some(a) => Some(a@),
                None => None,
            },
        }
    }
}

impl Tag {
    /// A copy of the tag.
    pub fn copy(&self) -> (t: Tag)
        ensures
            t@ == self@,
    {
        Tag {
            name: bytes_copy(self.name.as_slice()),
            target: self.target,
            annotation: match &self.annotation {
                Some(a) => Some(bytes_copy(a.as_slice())),
                None => None,
            },
        }
    }

    /// Whether both tags say the same.
    pub fn same(&self, other: &Tag) -> (r: bool)
        ensures
            r == (self@ == other@),
    {
        let notes = match (&self.annotation, &other.annotation) {
            (Some(a), Some(b)) => bytes_eq(a.as_slice(), b.as_slice()),
            (None, None) => true,
            _ => false,
        };
        bytes_eq(self.name.as_slice(), other.name.as_slice()) && self.target == other.target
            && notes
    }
}

/// A stored object.
#[derive(Clone, Debug, PartialEq, Eq)]
pub enum Object {
    Blob(Vec<u8>),
    Tree(Tree),
    Commit(Commit),
    Tag(Tag),
}

/// A value of [`Object`] as a value of mathematics.
pub enum ObjectView {
    Blob(Seq<u8>),
    Tree(TreeView),
    Commit(CommitView),
    Tag(TagView),
}

impl View for Object {
    type V = ObjectView;

    open spec fn view(&self) -> ObjectView {
        match self {
            Object::Blob(b) => ObjectView::Blob(b@),
            Object::Tree(t) => ObjectView::Tree(t@),
            Object::Commit(c) => ObjectView::Commit(c@),
            Object::Tag(t) => ObjectView::Tag(t@),
        }
    }
}

impl ObjectView {
    /// The kind of the object.
    pub open spec fn kind(self) -> ObjectKind {
        match self {
            ObjectView::Blob(_) => ObjectKind::Blob,
            ObjectView::Tree(_) => ObjectKind::Tree,
            ObjectView::Commit(_) => ObjectKind::Commit,
            ObjectView::Tag(_) => ObjectKind::Tag,
        }
    }

    /// Trees are well formed; the other kinds have no invariant.
    pub open spec fn wf(self) -> bool {
        self matches ObjectView::Tree(t) ==> t.wf()
    }

    /// The canonical content of the object.
    pub open spec fn content(self) -> Seq<u8> {
        match self {
            ObjectView::Blob(b) => b,
            ObjectView::Tree(t) => tree_content(t.names, t.items),
            ObjectView::Commit(c) => commit_content(c),
            ObjectView::Tag(t) => tag_content(t),
        }
    }

    /// The id of the object: the hash of its kind and canonical content.
    /// `None` where the hash function refuses the content.
    pub open spec fn id(self) -> Option<ObjectId> {
        content_id(self.kind(), self.content())
    }
}

/// The word that stands for a mode in a tree's content.
pub open spec fn mode_word(mode: FileMode) -> Seq<u8> {
    match mode {
        FileMode::Regular => seq![49u8, 48u8, 48u8, 54u8, 52u8, 52u8],
        FileMode::Executable => seq![49u8, 48u8, 48u8, 55u8, 53u8, 53u8],
        FileMode::Symlink => seq![49u8, 50u8, 48u8, 48u8, 48u8, 48u8],
        FileMode::Directory => seq![52u8, 48u8, 48u8, 48u8, 48u8],
        FileMode::Gitlink => seq![49u8, 54u8, 48u8, 48u8, 48u8, 48u8],
    }
}

/// The name under which an entry stands in the content of its tree. A
/// directory is kept under its name followed by a slash; its name in the
/// content is without the slash.
pub open spec fn entry_name(name: Seq<u8>, item: TreeItem) -> Seq<u8> {
    if item.mode == FileMode::Directory && name.len() > 0 && name.last() == 47u8 {
        name.drop_last()
    } else {
        name
    }
}

/// One entry of a tree's content: the mode, a space, the name, a zero byte
/// and the twenty bytes of the id.
pub open spec fn entry_content(name: Seq<u8>, item: TreeItem) -> Seq<u8> {
    mode_word(item.mode) + seq![32u8] + entry_name(name, item) + seq![0u8] + digest_of_id(item.id)
}

/// A tree's content: its entries in order.
pub open spec fn tree_content(names: Seq<Seq<u8>>, items: Seq<TreeItem>) -> Seq<u8>
    decreases names.len(),
{
    if names.len() == 0 || items.len() == 0 {
        Seq::empty()
    } else {
        tree_content(names.drop_last(), items.drop_last()) + entry_content(
            names.last(),
            items.last(),
        )
    }
}

/// The decimal digits of `n` in ASCII.
pub open spec fn digits(n: nat) -> Seq<u8>
    decreases n,
{
    if n < 10 {
        seq![(48 + n) as u8]
    } else {
        digits(n / 10).push((48 + n % 10) as u8)
    }
}

/// A signed number in decimal.
pub open spec fn decimal(t: int) -> Seq<u8> {
    if t < 0 {
        seq![45u8] + digits((-t) as nat)
    } else {
        digits(t as nat)
    }
}

/// `name <email> seconds +0000`
pub open spec fn signature_content(s: SignatureView) -> Seq<u8> {
    s.name + seq![32u8, 60u8] + s.email + seq![62u8, 32u8] + decimal(s.time as int) + seq![
        32u8,
        43u8,
        48u8,
        48u8,
        48u8,
        48u8,
    ]
}

/// One line `parent <hex>` for each parent, in order.
pub open spec fn parents_content(parents: Seq<ObjectId>) -> Seq<u8>
    decreases parents.len(),
{
    if parents.len() == 0 {
        Seq::empty()
    } else {
        parents_content(parents.drop_last()) + seq![
            112u8,
            97u8,
            114u8,
            101u8,
            110u8,
            116u8,
            32u8,
        ] + hex_of(digest_of_id(parents.last())) + seq![10u8]
    }
}

/// A commit's content: the `tree` line, the `parent` lines, the `author` and
/// `committer` lines, an empty line and the message.
pub open spec fn commit_content(c: CommitView) -> Seq<u8> {
    seq![116u8, 114u8, 101u8, 101u8, 32u8] + hex_of(digest_of_id(c.tree)) + seq![10u8]
        + parents_content(c.parents) + seq![97u8, 117u8, 116u8, 104u8, 111u8, 114u8, 32u8]
        + signature_content(c.author) + seq![10u8] + seq![
        99u8,
        111u8,
        109u8,
        109u8,
        105u8,
        116u8,
        116u8,
        101u8,
        114u8,
        32u8,
    ] + signature_content(c.committer) + seq![10u8, 10u8] + c.message
}

/// A tag's content: the `object` line, the `tag` line and, after an empty
/// line, the annotation if there is one.
pub open spec fn tag_content(t: TagView) -> Seq<u8> {
    seq![111u8, 98u8, 106u8, 101u8, 99u8, 116u8, 32u8] + hex_of(digest_of_id(t.target)) + seq![
        10u8,
        116u8,
        97u8,
        103u8,
        32u8,
    ] + t.name + seq![10u8] + match t.annotation {
        Some(a) => seq![10u8] + a,
        None => Seq::empty(),
    }
}

fn push_mode(out: &mut Vec<u8>, mode: FileMode)
    ensures
        final(out)@ == old(out)@ + mode_word(mode),
{
    let word: Vec<u8> = match mode {
        FileMode::Regular => vec![49u8, 48u8, 48u8, 54u8, 52u8, 52u8],
        FileMode::Executable => vec![49u8, 48u8, 48u8, 55u8, 53u8, 53u8],
        FileMode::Symlink => vec![49u8, 50u8, 48u8, 48u8, 48u8, 48u8],
        FileMode::Directory => vec![52u8, 48u8, 48u8, 48u8, 48u8],
        FileMode::Gitlink => vec![49u8, 54u8, 48u8, 48u8, 48u8, 48u8],
    };
    assert(word@ =~= mode_word(mode));
    bytes_append(out, word.as_slice());
}

fn push_digits(out: &mut Vec<u8>, n: u64)
    ensures
        final(out)@ == old(out)@ + digits(n as nat),
    decreases n,
{
    if n < 10 {
        out.push(48 + n as u8);
        assert(out@ =~= old(out)@ + digits(n as nat));
    } else {
        push_digits(out, n / 10);
        out.push(48 + (n % 10) as u8);
        assert(out@ =~= old(out)@ + digits(n as nat));
    }
}

fn push_decimal(out: &mut Vec<u8>, t: i64)
    ensures
        final(out)@ == old(out)@ + decimal(t as int),
{
    if t < 0 {
        out.push(45);
        let magnitude: u64 = if t == i64::MIN {
            9223372036854775808u64
        } else {
            (-t) as u64
        };
        push_digits(out, magnitude);
        assert(out@ =~= old(out)@ + decimal(t as int));
    } else {
        push_digits(out, t as u64);
    }
}

fn push_signature(out: &mut Vec<u8>, s: &Signature)
    ensures
        final(out)@ == old(out)@ + signature_content(s@),
{
    bytes_append(out, s.name.as_slice());
    out.push(32);
    out.push(60);
    bytes_append(out, s.email.as_slice());
    out.push(62);
    out.push(32);
    push_decimal(out, s.time);
    let tail: Vec<u8> = vec![32u8, 43u8, 48u8, 48u8, 48u8, 48u8];
    bytes_append(out, tail.as_slice());
    assert(out@ =~= old(out)@ + signature_content(s@));
}

fn push_hex(out: &mut Vec<u8>, id: ObjectId)
    ensures
        final(out)@ == old(out)@ + hex_of(digest_of_id(id)),
{
    let h = id.to_hex();
    bytes_append(out, h.as_slice());
}

impl Tree {
    /// The canonical content of the tree.
    pub fn content(&self) -> (out: Vec<u8>)
        requires
            self.wf(),
        ensures
            out@ == tree_content(self@.names, self@.items),
    {
        let mut out: Vec<u8> = Vec::new();
        let mut i: usize = 0;
        while i < self.names.len()
            invariant
                self.wf(),
                i <= self@.names.len(),
                out@ == tree_content(self@.names.take(i as int), self@.items.take(i as int)),
            decreases self@.names.len() - i,
        {
            let ghost before = out@;
            push_mode(&mut out, self.items[i].mode);
            out.push(32);
            let name = &self.names[i];
            let is_directory = match self.items[i].mode {
                FileMode::Directory => true,
                _ => false,
            };
            if is_directory && name.len() > 0 && name[name.len() - 1] == 47 {
                let bare = crate::bytes::bytes_range(name.as_slice(), 0, name.len() - 1);
                assert(bare@ =~= name@.drop_last());
                bytes_append(&mut out, bare.as_slice());
            } else {
                bytes_append(&mut out, name.as_slice());
            }
            out.push(0);
            let d = self.items[i].id.to_bytes();
            bytes_append(&mut out, d.as_slice());
            proof {
                let ns = self@.names.take(i + 1);
                let is = self@.items.take(i + 1);
                assert(ns.drop_last() =~= self@.names.take(i as int));
                assert(is.drop_last() =~= self@.items.take(i as int));
                assert(out@ =~= before + entry_content(ns.last(), is.last()));
            }
            i += 1;
        }
        assert(self@.names.take(i as int) =~= self@.names);
        assert(self@.items.take(i as int) =~= self@.items);
        out
    }
}

impl Commit {
    /// The canonical content of the commit.
    pub fn content(&self) -> (out: Vec<u8>)
        ensures
            out@ == commit_content(self@),
    {
        let mut out: Vec<u8> = vec![116u8, 114u8, 101u8, 101u8, 32u8];
        push_hex(&mut out, self.tree);
        out.push(10);
        let ghost head = out@;
        let mut i: usize = 0;
        while i < self.parents.len()
            invariant
                i <= self.parents@.len(),
                out@ == head + parents_content(self.parents@.take(i as int)),
            decreases self.parents@.len() - i,
        {
            let word: Vec<u8> = vec![112u8, 97u8, 114u8, 101u8, 110u8, 116u8, 32u8];
            bytes_append(&mut out, word.as_slice());
            push_hex(&mut out, self.parents[i]);
            out.push(10);
            proof {
                let ps = self.parents@.take(i + 1);
                assert(ps.drop_last() =~= self.parents@.take(i as int));
                assert(out@ =~= head + parents_content(ps));
            }
            i += 1;
        }
        assert(self.parents@.take(i as int) =~= self.parents@);
        let author: Vec<u8> = vec![97u8, 117u8, 116u8, 104u8, 111u8, 114u8, 32u8];
        bytes_append(&mut out, author.as_slice());
        push_signature(&mut out, &self.author);
        out.push(10);
        let committer: Vec<u8> = vec![
            99u8,
            111u8,
            109u8,
            109u8,
            105u8,
            116u8,
            116u8,
            101u8,
            114u8,
            32u8,
        ];
        bytes_append(&mut out, committer.as_slice());
        push_signature(&mut out, &self.committer);
        out.push(10);
        out.push(10);
        bytes_append(&mut out, self.message.as_slice());
        assert(out@ =~= commit_content(self@));
        out
    }
}

impl Tag {
    /// The canonical content of the tag.
    pub fn content(&self) -> (out: Vec<u8>)
        ensures
            out@ == tag_content(self@),
    {
        let mut out: Vec<u8> = vec![111u8, 98u8, 106u8, 101u8, 99u8, 116u8, 32u8];
        push_hex(&mut out, self.target);
        let word: Vec<u8> = vec![10u8, 116u8, 97u8, 103u8, 32u8];
        bytes_append(&mut out, word.as_slice());
        bytes_append(&mut out, self.name.as_slice());
        out.push(10);
        match &self.annotation {
            Some(a) => {
                out.push(10);
                bytes_append(&mut out, a.as_slice());
            },
            None => {},
        }
        assert(out@ =~= tag_content(self@));
        out
    }
}

impl Object {
    /// The invariant of the type: a tree among the objects is well formed.
    pub open spec fn wf(&self) -> bool {
        self@.wf()
    }

    /// The kind of the object.
    pub fn kind(&self) -> (k: ObjectKind)
        ensures
            k == self@.kind(),
    {
        match self {
            Object::Blob(_) => ObjectKind::Blob,
            Object::Tree(_) => ObjectKind::Tree,
            Object::Commit(_) => ObjectKind::Commit,
            Object::Tag(_) => ObjectKind::Tag,
        }
    }

    /// The canonical content of the object.
    pub fn content(&self) -> (out: Vec<u8>)
        requires
            self.wf(),
        ensures
            out@ == self@.content(),
    {
        match self {
            Object::Blob(b) => bytes_copy(b.as_slice()),
            Object::Tree(t) => t.content(),
            Object::Commit(c) => c.content(),
            Object::Tag(t) => t.content(),
        }
    }

    /// The id of the object: a function of its kind and content alone.
    /// Content that the hash function refuses is an invalid argument.
    pub fn id(&self) -> (r: Result<ObjectId, EngineError>)
        requires
            self.wf(),
        ensures
            match r {
                Ok(id) => self@.id() == Some(id),
                Err(e) => self@.id() is None && e.kind == ErrorKind::InvalidArgument
                    && e.operation == Operation::Hash,
            },
    {
        let data = self.content();
        ObjectId::of_content(self.kind(), data.as_slice())
    }

    /// Whether both objects are the same.
    pub fn same(&self, other: &Object) -> (r: bool)
        requires
            self.wf(),
            other.wf(),
        ensures
            r == (self@ == other@),
    {
        match (self, other) {
            (Object::Blob(a), Object::Blob(b)) => bytes_eq(a.as_slice(), b.as_slice()),
            (Object::Tree(a), Object::Tree(b)) => a.same(b),
            (Object::Commit(a), Object::Commit(b)) => a.same(b),
            (Object::Tag(a), Object::Tag(b)) => a.same(b),
            _ => false,
        }
    }

    /// A copy of the object.
    pub fn copy(&self) -> (o: Object)
        requires
            self.wf(),
        ensures
            o.wf(),
            o@ == self@,
    {
        match self {
            Object::Blob(b) => Object::Blob(bytes_copy(b.as_slice())),
            Object::Tree(t) => Object::Tree(t.copy()),
            Object::Commit(c) => Object::Commit(c.copy()),
            Object::Tag(t) => Object::Tag(t.copy()),
        }
    }
}

} // verus!
