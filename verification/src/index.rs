//! The index: the staging area from which the next tree is built, with the
//! conflict stages of an unfinished merge.

use vstd::prelude::*;
use crate::bytes::{bytes_copy, bytes_eq};
use crate::error::{EngineError, ErrorKind, Operation, Subject};
use crate::keys::{ascending, find_key, lemma_position_none, lemma_table_at, lemma_table_insert,
    lemma_table_remove, lemma_table_unique, lemma_table_update, lines, slot_of, table};
use crate::nested::{all_valid, build_tree, flatten, index_of_flat, lemma_index_of_flat, tree_read,
    tree_written, Flat, MAX_DEPTH};
use crate::object::{FileMode, Object, ObjectView, Tree, TreeItem, TreeView};
use crate::paths::{is_valid_path, valid_path};
use crate::oid::ObjectId;
use crate::store::{read, stored, ObjectStore, Objects};

verus! {

/// What the index holds for a path: one resolved entry (stage 0), or up to
/// three entries of a conflict (stage 1 the ancestor, 2 ours, 3 theirs).
/// Never both.
#[derive(Clone, Copy, Debug, PartialEq, Eq)]
pub enum Slot {
    Resolved(TreeItem),
    Conflicted { ancestor: Option<TreeItem>, ours: Option<TreeItem>, theirs: Option<TreeItem> },
}

fn same_side(a: Option<TreeItem>, b: Option<TreeItem>) -> (r: bool)
    ensures
        r == (a == b),
{
    match (a, b) {
        (Some(x), Some(y)) => x == y,
        (None, None) => true,
        _ => false,
    }
}

impl Slot {
    /// A conflict has at least one side.
    pub open spec fn wf(self) -> bool {
        match self {
            Slot::Resolved(_) => true,
            Slot::Conflicted { ancestor, ours, theirs } => ancestor is Some || ours is Some
                || theirs is Some,
        }
    }

    /// The entry at `stage`, 0 to 3.
    pub open spec fn at_stage(self, stage: int) -> Option<TreeItem> {
        match self {
            Slot::Resolved(item) => if stage == 0 {
                Some(item)
            } else {
                None
            },
            Slot::Conflicted { ancestor, ours, theirs } => if stage == 1 {
                ancestor
            } else if stage == 2 {
                ours
            } else if stage == 3 {
                theirs
            } else {
                None
            },
        }
    }

    /// Whether both slots hold the same.
    pub fn same(&self, other: &Slot) -> (r: bool)
        ensures
            r == (*self == *other),
    {
        match (self, other) {
            (Slot::Resolved(a), Slot::Resolved(b)) => *a == *b,
            (
                Slot::Conflicted { ancestor: a1, ours: o1, theirs: t1 },
                Slot::Conflicted { ancestor: a2, ours: o2, theirs: t2 },
            ) => same_side(*a1, *a2) && same_side(*o1, *o2) && same_side(*t1, *t2),
            _ => false,
        }
    }

    /// The entry at `stage`, 0 to 3; none at any other stage.
    pub fn stage(&self, stage: u8) -> (r: Option<TreeItem>)
        ensures
            r == self.at_stage(stage as int),
    {
        match self {
            Slot::Resolved(item) => if stage == 0 {
                Some(*item)
            } else {
                None
            },
            Slot::Conflicted { ancestor, ours, theirs } => if stage == 1 {
                *ancestor
            } else if stage == 2 {
                *ours
            } else if stage == 3 {
                *theirs
            } else {
                None
            },
        }
    }
}

/// One entry of the index: a path, a stage (0 resolved, 1 the ancestor, 2
/// ours, 3 theirs) and what is staged there.
#[derive(Clone, Debug, PartialEq, Eq)]
pub struct IndexEntry {
    pub path: Vec<u8>,
    pub stage: u8,
    pub item: TreeItem,
}

/// A value of [`IndexEntry`] as a value of mathematics.
pub struct EntryView {
    pub path: Seq<u8>,
    pub stage: u8,
    pub item: TreeItem,
}

impl View for IndexEntry {
    type V = EntryView;

    open spec fn view(&self) -> EntryView {
        EntryView { path: self.path@, stage: self.stage, item: self.item }
    }
}

/// The views of a list of entries.
pub open spec fn entry_views(list: Seq<IndexEntry>) -> Seq<EntryView> {
    Seq::new(list.len(), |i: int| list[i]@)
}

/// The entry of `path` at `stage`, if the slot has one.
pub open spec fn stage_entry(path: Seq<u8>, slot: Slot, stage: u8) -> Seq<EntryView> {
    match slot.at_stage(stage as int) {
        Some(item) => seq![EntryView { path, stage, item }],
        None => Seq::empty(),
    }
}

/// The entries of a slot, in the order of the stages.
pub open spec fn slot_entries(path: Seq<u8>, slot: Slot) -> Seq<EntryView> {
    stage_entry(path, slot, 0) + stage_entry(path, slot, 1) + stage_entry(path, slot, 2)
        + stage_entry(path, slot, 3)
}

/// The entries of an index, in the order of the paths and, for each path,
/// of the stages.
pub open spec fn entries_of(paths: Seq<Seq<u8>>, slots: Seq<Slot>) -> Seq<EntryView>
    decreases paths.len(),
{
    if paths.len() == 0 || slots.len() == 0 {
        Seq::empty()
    } else {
        entries_of(paths.drop_last(), slots.drop_last()) + slot_entries(paths.last(), slots.last())
    }
}

/// The index as a value of mathematics: its paths in ascending order and,
/// at the same positions, their slots.
pub struct IndexView {
    pub paths: Seq<Seq<u8>>,
    pub slots: Seq<Slot>,
}

/// The resolved entry of a slot; for a conflict, which has none, the entry
/// of one of its sides.
pub open spec fn resolved_item(slot: Slot) -> TreeItem {
    match slot {
        Slot::Resolved(item) => item,
        Slot::Conflicted { ancestor, ours, theirs } => if ours is Some {
            ours->0
        } else if theirs is Some {
            theirs->0
        } else {
            ancestor->0
        },
    }
}

impl IndexView {
    /// The paths are strictly ascending, each has its slot, and no conflict
    /// is empty.
    pub open spec fn wf(self) -> bool {
        &&& ascending(self.paths)
        &&& self.paths.len() == self.slots.len()
        &&& forall|i: int| 0 <= i < self.slots.len() ==> (#[trigger] self.slots[i]).wf()
    }

    /// The index as a finite map from paths to slots.
    pub open spec fn map(self) -> Map<Seq<u8>, Slot> {
        table(self.paths, self.slots)
    }

    /// The staged entries by path; for a path in conflict, the entry of
    /// one of its sides.
    pub open spec fn items(self) -> Map<Seq<u8>, TreeItem> {
        Map::new(
            |p: Seq<u8>| self.map().contains_key(p),
            |p: Seq<u8>| resolved_item(self.map()[p]),
        )
    }

    /// Some path is in conflict.
    pub open spec fn has_conflicts(self) -> bool {
        exists|i: int| 0 <= i < self.slots.len() && (#[trigger] self.slots[i]) is Conflicted
    }
}

/// The tree stored under `id`: `InvalidArgument` where `id` reads as an
/// object of another kind.
pub open spec fn tree_at(m: Objects, id: ObjectId) -> Result<TreeView, ErrorKind> {
    match read(m, id) {
        Ok(ObjectView::Tree(t)) => Ok(t),
        Ok(_) => Err(ErrorKind::InvalidArgument),
        Err(k) => Err(k),
    }
}

/// The content of the blob stored under `id`: `InvalidArgument` where `id`
/// reads as an object of another kind.
pub open spec fn blob_at(m: Objects, id: ObjectId) -> Result<Seq<u8>, ErrorKind> {
    match read(m, id) {
        Ok(ObjectView::Blob(b)) => Ok(b),
        Ok(_) => Err(ErrorKind::InvalidArgument),
        Err(k) => Err(k),
    }
}

/// Reads `id` as a tree.
pub fn get_tree(store: &ObjectStore, id: ObjectId, operation: Operation) -> (r: Result<
    &Tree,
    EngineError,
>)
    requires
        store.wf(),
    ensures
        match r {
            Ok(t) => tree_at(store@, id) == Ok::<TreeView, ErrorKind>(t@) && t.wf(),
            Err(e) => tree_at(store@, id) == Err::<TreeView, ErrorKind>(e.kind) && e.operation
                == operation && e.subject == Subject::Object(id),
        },
{
    match store.get(id) {
        Ok(o) => match o {
            Object::Tree(t) => Ok(t),
            _ => Err(EngineError::about_object(ErrorKind::InvalidArgument, operation, id)),
        },
        Err(e) => Err(EngineError::about_object(e.kind, operation, id)),
    }
}

/// Reads `id` as a blob.
pub fn get_blob(store: &ObjectStore, id: ObjectId, operation: Operation) -> (r: Result<
    &Vec<u8>,
    EngineError,
>)
    requires
        store.wf(),
    ensures
        match r {
            Ok(b) => blob_at(store@, id) == Ok::<Seq<u8>, ErrorKind>(b@),
            Err(e) => blob_at(store@, id) == Err::<Seq<u8>, ErrorKind>(e.kind) && e.operation
                == operation && e.subject == Subject::Object(id),
        },
{
    match store.get(id) {
        Ok(o) => match o {
            Object::Blob(b) => Ok(b),
            _ => Err(EngineError::about_object(ErrorKind::InvalidArgument, operation, id)),
        },
        Err(e) => Err(EngineError::about_object(e.kind, operation, id)),
    }
}

/// The paths whose slot is a conflict, in order.
pub open spec fn conflict_paths(paths: Seq<Seq<u8>>, slots: Seq<Slot>) -> Seq<Seq<u8>>
    decreases paths.len(),
{
    if paths.len() == 0 || slots.len() == 0 {
        Seq::empty()
    } else {
        let rest = conflict_paths(paths.drop_last(), slots.drop_last());
        if slots.last() is Conflicted {
            rest.push(paths.last())
        } else {
            rest
        }
    }
}

/// A path in conflict with the content of each side; `None` for a side that
/// does not exist in that version.
#[derive(Clone, Debug, PartialEq, Eq)]
pub struct Conflict {
    pub path: Vec<u8>,
    pub ancestor: Option<Vec<u8>>,
    pub ours: Option<Vec<u8>>,
    pub theirs: Option<Vec<u8>>,
}

/// A value of [`Conflict`] as a value of mathematics.
pub struct ConflictView {
    pub path: Seq<u8>,
    pub ancestor: Option<Seq<u8>>,
    pub ours: Option<Seq<u8>>,
    pub theirs: Option<Seq<u8>>,
}

/// The bytes of an optional byte string.
pub open spec fn optional_bytes(b: Option<Vec<u8>>) -> Option<Seq<u8>> {
    match b {
        Some(v) => Some(v@),
        None => None,
    }
}

impl View for Conflict {
    type V = ConflictView;

    open spec fn view(&self) -> ConflictView {
        ConflictView {
            path: self.path@,
            ancestor: optional_bytes(self.ancestor),
            ours: optional_bytes(self.ours),
            theirs: optional_bytes(self.theirs),
        }
    }
}

/// The views of a list of conflicts.
pub open spec fn conflict_views(list: Seq<Conflict>) -> Seq<ConflictView> {
    Seq::new(list.len(), |i: int| list[i]@)
}

/// The content of one side of a conflict.
pub open spec fn side_of(m: Objects, side: Option<TreeItem>) -> Result<Option<Seq<u8>>, ErrorKind> {
    match side {
        None => Ok(None),
        Some(item) => match blob_at(m, item.id) {
            Ok(b) => Ok(Some(b)),
            Err(k) => Err(k),
        },
    }
}

/// The conflict of `path` with the content of its sides; the first side
/// that cannot be read, in the order ancestor, ours, theirs, decides the
/// failure.
pub open spec fn conflict_at(m: Objects, path: Seq<u8>, slot: Slot) -> Result<
    ConflictView,
    ErrorKind,
> {
    match slot {
        Slot::Resolved(_) => Err(ErrorKind::InvalidArgument),
        Slot::Conflicted { ancestor, ours, theirs } => match side_of(m, ancestor) {
            Err(k) => Err(k),
            Ok(a) => match side_of(m, ours) {
                Err(k) => Err(k),
                Ok(o) => match side_of(m, theirs) {
                    Err(k) => Err(k),
                    Ok(t) => Ok(ConflictView { path, ancestor: a, ours: o, theirs: t }),
                },
            },
        },
    }
}

/// The conflicts among `paths` with their content, in order; the first
/// path with a side that cannot be read decides the failure.
pub open spec fn conflicts_of(m: Objects, paths: Seq<Seq<u8>>, slots: Seq<Slot>) -> Result<
    Seq<ConflictView>,
    ErrorKind,
>
    decreases paths.len(),
{
    if paths.len() == 0 || slots.len() == 0 {
        Ok(Seq::empty())
    } else {
        match conflicts_of(m, paths.drop_last(), slots.drop_last()) {
            Err(k) => Err(k),
            Ok(rest) => if slots.last() is Conflicted {
                match conflict_at(m, paths.last(), slots.last()) {
                    Err(k) => Err(k),
                    Ok(c) => Ok(rest.push(c)),
                }
            } else {
                Ok(rest)
            },
        }
    }
}

/// A failure among the first paths is the failure of the whole.
pub proof fn lemma_conflicts_fail(m: Objects, paths: Seq<Seq<u8>>, slots: Seq<Slot>, i: int)
    requires
        paths.len() == slots.len(),
        0 <= i < paths.len(),
        conflicts_of(m, paths.take(i + 1), slots.take(i + 1)) is Err,
    ensures
        conflicts_of(m, paths, slots) == conflicts_of(m, paths.take(i + 1), slots.take(i + 1)),
    decreases paths.len() - i,
{
    if i + 1 == paths.len() {
        assert(paths.take(i + 1) =~= paths);
        assert(slots.take(i + 1) =~= slots);
    } else {
        assert(paths.drop_last().take(i + 1) =~= paths.take(i + 1));
        assert(slots.drop_last().take(i + 1) =~= slots.take(i + 1));
        lemma_conflicts_fail(m, paths.drop_last(), slots.drop_last(), i);
    }
}

/// The content of one side of a conflict.
pub fn side_content(store: &ObjectStore, side: Option<TreeItem>) -> (r: Result<
    Option<Vec<u8>>,
    EngineError,
>)
    requires
        store.wf(),
    ensures
        match r {
            Ok(c) => side_of(store@, side) == Ok::<Option<Seq<u8>>, ErrorKind>(optional_bytes(c)),
            Err(e) => side_of(store@, side) == Err::<Option<Seq<u8>>, ErrorKind>(e.kind)
                && e.operation == Operation::Conflicts,
        },
{
    match side {
        None => Ok(None),
        Some(item) => match get_blob(store, item.id, Operation::Conflicts) {
            Ok(b) => Ok(Some(bytes_copy(b.as_slice()))),
            Err(e) => Err(e),
        },
    }
}

/// The staging area.
#[derive(Clone, Debug, PartialEq, Eq)]
pub struct Index {
    paths: Vec<Vec<u8>>,
    slots: Vec<Slot>,
}

impl View for Index {
    type V = IndexView;

    closed spec fn view(&self) -> IndexView {
        IndexView { paths: lines(self.paths@), slots: self.slots@ }
    }
}

impl Index {
    /// The invariant of the type: see [`IndexView::wf`].
    pub open spec fn wf(&self) -> bool {
        self@.wf()
    }

    /// The empty index.
    pub fn new() -> (x: Index)
        ensures
            x.wf(),
            x@.paths.len() == 0,
            x@.map() == Map::<Seq<u8>, Slot>::empty(),
            !x@.has_conflicts(),
    {
        let x = Index { paths: Vec::new(), slots: Vec::new() };
        assert(x@.map() =~= Map::<Seq<u8>, Slot>::empty()) by {
            assert forall|k: Seq<u8>| !x@.map().contains_key(k) by {
                lemma_position_none(x@.paths, k);
            }
        }
        x
    }

    /// The number of paths.
    pub fn len(&self) -> (n: usize)
        requires
            self.wf(),
        ensures
            n == self@.paths.len(),
    {
        self.paths.len()
    }

    /// The path at position `i`.
    pub fn path_at(&self, i: usize) -> (path: &Vec<u8>)
        requires
            self.wf(),
            i < self@.paths.len(),
        ensures
            path@ == self@.paths[i as int],
    {
        &self.paths[i]
    }

    /// The slot at position `i`.
    pub fn slot_at(&self, i: usize) -> (slot: Slot)
        requires
            self.wf(),
            i < self@.paths.len(),
        ensures
            slot == self@.slots[i as int],
            slot.wf(),
    {
        self.slots[i]
    }

    /// What the index holds for `path`.
    pub fn get(&self, path: &[u8]) -> (r: Option<Slot>)
        requires
            self.wf(),
        ensures
            r == (if self@.map().contains_key(path@) {
                Some(self@.map()[path@])
            } else {
                None
            }),
            r matches Some(s) ==> s.wf(),
    {
        proof {
            lemma_position_none(self@.paths, path@);
        }
        match find_key(&self.paths, path) {
            Some(i) => {
                proof {
                    assert(self@.paths[i as int] == path@);
                    lemma_table_at(self@.paths, self@.slots, i as int);
                }
                Some(self.slots[i])
            },
            None => None,
        }
    }

    /// Gives `path` the slot `slot`, whatever it held.
    pub fn set(&mut self, path: &[u8], slot: Slot)
        requires
            old(self).wf(),
            slot.wf(),
        ensures
            final(self).wf(),
            final(self)@.map() == old(self)@.map().insert(path@, slot),
            !old(self)@.has_conflicts() && slot is Resolved ==> !final(self)@.has_conflicts(),
    {
        let ghost slots0 = self@.slots;
        match find_key(&self.paths, path) {
            Some(i) => {
                proof {
                    assert(self@.paths[i as int] == path@);
                    lemma_table_update(self@.paths, self@.slots, i as int, slot);
                }
                self.slots.set(i, slot);
                proof {
                    if !old(self)@.has_conflicts() && slot is Resolved {
                        assert forall|j: int| 0 <= j < self@.slots.len() implies !((
                        #[trigger] self@.slots[j]) is Conflicted) by {
                            if j != i {
                                assert(self@.slots[j] == slots0[j]);
                            }
                        }
                    }
                }
            },
            None => {
                let at = slot_of(&self.paths, path);
                proof {
                    lemma_table_insert(self@.paths, self@.slots, path@, slot, at as int);
                }
                let ghost before = self@.paths;
                self.paths.insert(at, bytes_copy(path));
                self.slots.insert(at, slot);
                assert(self@.paths =~= before.insert(at as int, path@));
                proof {
                    if !old(self)@.has_conflicts() && slot is Resolved {
                        assert forall|j: int| 0 <= j < self@.slots.len() implies !((
                        #[trigger] self@.slots[j]) is Conflicted) by {
                            if j < at {
                                assert(self@.slots[j] == slots0[j]);
                            } else if j > at {
                                assert(self@.slots[j] == slots0[j - 1]);
                            }
                        }
                    }
                }
            },
        }
    }

    /// Stages `item` for `path`: writes or overwrites its stage-0 entry and
    /// drops any conflict stages of the path.
    pub fn stage(&mut self, path: &[u8], item: TreeItem)
        requires
            old(self).wf(),
        ensures
            final(self).wf(),
            final(self)@.map() == old(self)@.map().insert(path@, Slot::Resolved(item)),
            !old(self)@.has_conflicts() ==> !final(self)@.has_conflicts(),
    {
        self.set(path, Slot::Resolved(item));
    }

    /// Stages the content `content` for `path`: stores it as a blob and
    /// writes or overwrites the stage-0 entry of the path. An empty path is
    /// an invalid argument.
    pub fn add(&mut self, store: &mut ObjectStore, path: &[u8], content: &[u8]) -> (r: Result<
        ObjectId,
        EngineError,
    >)
        requires
            old(self).wf(),
            old(store).wf(),
        ensures
            r matches Err(e) ==> e.operation == Operation::Stage,
            final(self).wf(),
            final(store).wf(),
            old(store)@.submap_of(final(store)@),
            match r {
                Ok(id) => path@.len() > 0 && stored(old(store)@, ObjectView::Blob(content@))
                    == Ok::<(ObjectId, Objects), ErrorKind>((id, final(store)@)) && final(self)@.map() == old(self)@.map().insert(
                    path@,
                    Slot::Resolved(TreeItem { mode: FileMode::Regular, id }),
                ),
                Err(e) => final(self)@ == old(self)@ && final(store)@ == old(store)@ && e.kind == (
                if path@.len() == 0 {
                    ErrorKind::InvalidArgument
                } else {
                    stored(old(store)@, ObjectView::Blob(content@))->Err_0
                }) && (path@.len() == 0 || stored(old(store)@, ObjectView::Blob(content@)) is Err),
            },
    {
        if path.len() == 0 {
            return Err(EngineError::about_name(ErrorKind::InvalidArgument, Operation::Stage, path));
        }
        match store.put(Object::Blob(bytes_copy(content))) {
            Ok(id) => {
                self.stage(path, TreeItem { mode: FileMode::Regular, id });
                Ok(id)
            },
            Err(e) => Err(e.during(Operation::Stage)),
        }
    }

    /// Deletes what the index holds for `path`.
    pub fn remove(&mut self, path: &[u8]) -> (r: Result<(), EngineError>)
        requires
            old(self).wf(),
        ensures
            final(self).wf(),
            match r {
                Ok(()) => old(self)@.map().contains_key(path@) && final(self)@.map() == old(self)@.map().remove(path@),
                Err(e) => !old(self)@.map().contains_key(path@) && final(self)@ == old(self)@
                    && e.kind == ErrorKind::NotFound && e.operation == Operation::Unstage,
            },
    {
        proof {
            lemma_position_none(self@.paths, path@);
        }
        match find_key(&self.paths, path) {
            Some(i) => {
                proof {
                    assert(self@.paths[i as int] == path@);
                    lemma_table_remove(self@.paths, self@.slots, i as int);
                    lemma_table_at(self@.paths, self@.slots, i as int);
                }
                let ghost before = self@.paths;
                self.paths.remove(i);
                self.slots.remove(i);
                assert(self@.paths =~= before.remove(i as int));
                Ok(())
            },
            None => Err(EngineError::about_name(ErrorKind::NotFound, Operation::Unstage, path)),
        }
    }

    /// Whether any path is in conflict: whether an entry exists at stage 1,
    /// 2 or 3.
    pub fn has_conflicts(&self) -> (r: bool)
        requires
            self.wf(),
        ensures
            r == self@.has_conflicts(),
    {
        let mut i: usize = 0;
        while i < self.slots.len()
            invariant
                i <= self.slots@.len(),
                forall|j: int| 0 <= j < i ==> !((#[trigger] self.slots@[j]) is Conflicted),
            decreases self.slots@.len() - i,
        {
            match self.slots[i] {
                Slot::Conflicted { .. } => {
                    return true;
                },
                Slot::Resolved(_) => {},
            }
            i += 1;
        }
        false
    }

    /// The position of the first path that is not valid or does not name
    /// a file; `None` where every path is valid and names a file.
    fn first_invalid(&self) -> (r: Option<usize>)
        requires
            self.wf(),
            !self@.has_conflicts(),
        ensures
            r is None == all_valid(self@.items()),
            r matches Some(i) ==> i < self@.paths.len(),
    {
        let ghost ps = self@.paths;
        let ghost ss = self@.slots;
        let mut i: usize = 0;
        while i < self.paths.len()
            invariant
                self.wf(),
                ps == self@.paths,
                ss == self@.slots,
                i <= ps.len(),
                forall|j: int| 0 <= j < ss.len() ==> !((#[trigger] ss[j]) is Conflicted),
                forall|j: int| 0 <= j < i ==> valid_path(#[trigger] ps[j]),
                forall|j: int|
                    0 <= j < i ==> resolved_item(#[trigger] ss[j]).mode != FileMode::Directory,
            decreases ps.len() - i,
        {
            let is_directory = match self.slots[i] {
                Slot::Resolved(item) => match item.mode {
                    FileMode::Directory => true,
                    _ => false,
                },
                Slot::Conflicted { .. } => false,
            };
            let valid = is_valid_path(self.paths[i].as_slice());
            assert(ps[i as int] == self.paths@[i as int]@);
            assert(!(ss[i as int] is Conflicted));
            if is_directory || !valid {
                proof {
                    lemma_table_at(ps, ss, i as int);
                    assert(self@.items().contains_key(ps[i as int]));
                }
                return Some(i);
            }
            i += 1;
        }
        proof {
            assert forall|p: Seq<u8>| #[trigger] self@.items().contains_key(p) implies valid_path(p)
                && self@.items()[p].mode != FileMode::Directory by {
                lemma_position_none(ps, p);
                let j = choose|j: int| 0 <= j < ps.len() && ps[j] == p;
                lemma_table_at(ps, ss, j);
                assert(valid_path(ps[j]));
                assert(resolved_item(ss[j]).mode != FileMode::Directory);
            }
        }
        None
    }

    /// Builds the trees of the staged entries bottom-up, one for each
    /// directory, the entries of each in the order of their names whatever
    /// the order of staging was; stores them and returns the id of the
    /// tree at the top. Fails with `Conflict` while any path is in
    /// conflict, and with `InvalidArgument` where a path has an empty part
    /// or an entry has the mode of a directory.
    pub fn write_tree(&self, store: &mut ObjectStore) -> (r: Result<ObjectId, EngineError>)
        requires
            self.wf(),
            old(store).wf(),
        ensures
            r matches Err(e) ==> e.operation == Operation::WriteTree,
            final(store).wf(),
            old(store)@.submap_of(final(store)@),
            match r {
                Ok(id) => tree_written(old(store)@, self@) == Ok::<(ObjectId, Objects), ErrorKind>(
                    (id, final(store)@),
                ),
                Err(e) => tree_written(old(store)@, self@) == Err::<(ObjectId, Objects), ErrorKind>(
                    e.kind,
                ),
            },
    {
        if self.has_conflicts() {
            let paths = self.conflict_paths();
            if paths.len() > 0 {
                return Err(
                    EngineError::about_name(
                        ErrorKind::Conflict,
                        Operation::WriteTree,
                        paths[0].as_slice(),
                    ),
                );
            }
            return Err(EngineError::plain(ErrorKind::Conflict, Operation::WriteTree));
        }
        if let Some(i) = self.first_invalid() {
            return Err(
                EngineError::about_name(
                    ErrorKind::InvalidArgument,
                    Operation::WriteTree,
                    self.paths[i].as_slice(),
                ),
            );
        }
        match build_tree(store, self, MAX_DEPTH) {
            Ok(id) => Ok(id),
            Err(e) => Err(e.during(Operation::WriteTree)),
        }
    }

    /// The index that holds the files of the tree `id` and of the trees
    /// below it, each under its whole path, all resolved.
    pub fn from_tree(store: &ObjectStore, id: ObjectId) -> (r: Result<Index, EngineError>)
        requires
            store.wf(),
        ensures
            r matches Err(e) ==> e.operation == Operation::ReadTree,
            match r {
                Ok(x) => tree_read(store@, id) == Ok::<Flat, ErrorKind>(x@.items()) && x.wf()
                    && !x@.has_conflicts() && x@ == index_of_flat(x@.items()),
                Err(e) => tree_read(store@, id) == Err::<Flat, ErrorKind>(e.kind),
            },
    {
        match flatten(store, id, MAX_DEPTH) {
            Ok(x) => {
                proof {
                    lemma_index_of_flat(x@);
                }
                Ok(x)
            },
            Err(e) => Err(e.during(Operation::ReadTree)),
        }
    }

    /// The entries of the index: for each path in ascending order its
    /// stage-0 entry, or the entries of its conflict in the order of the
    /// stages.
    pub fn entries(&self) -> (r: Vec<IndexEntry>)
        requires
            self.wf(),
        ensures
            entry_views(r@) == entries_of(self@.paths, self@.slots),
    {
        let mut out: Vec<IndexEntry> = Vec::new();
        let mut i: usize = 0;
        assert(entry_views(out@) =~= entries_of(self@.paths.take(0), self@.slots.take(0)));
        while i < self.paths.len()
            invariant
                self.wf(),
                i <= self@.paths.len(),
                entry_views(out@) == entries_of(self@.paths.take(i as int), self@.slots.take(i as int)),
            decreases self@.paths.len() - i,
        {
            proof {
                assert(self@.paths.take(i + 1).drop_last() =~= self@.paths.take(i as int));
                assert(self@.slots.take(i + 1).drop_last() =~= self@.slots.take(i as int));
            }
            let ghost before = entry_views(out@);
            let ghost path = self@.paths[i as int];
            let slot = self.slots[i];
            let mut stage: u8 = 0;
            let ghost mut added: Seq<EntryView> = Seq::empty();
            while stage < 4
                invariant
                    self.wf(),
                    i < self@.paths.len(),
                    stage <= 4,
                    path == self@.paths[i as int],
                    slot == self@.slots[i as int],
                    entry_views(out@) == before + added,
                    added == (if stage == 0 {
                        Seq::<EntryView>::empty()
                    } else if stage == 1 {
                        stage_entry(path, slot, 0)
                    } else if stage == 2 {
                        stage_entry(path, slot, 0) + stage_entry(path, slot, 1)
                    } else if stage == 3 {
                        stage_entry(path, slot, 0) + stage_entry(path, slot, 1) + stage_entry(
                            path,
                            slot,
                            2,
                        )
                    } else {
                        slot_entries(path, slot)
                    }),
                decreases 4 - stage,
            {
                let ghost views = entry_views(out@);
                match slot.stage(stage) {
                    Some(item) => {
                        let e = IndexEntry { path: bytes_copy(self.paths[i].as_slice()), stage, item };
                        out.push(e);
                        proof {
                            assert(entry_views(out@) =~= views.push(e@));
                            added = added + seq![e@];
                            assert(entry_views(out@) =~= before + added);
                        }
                    },
                    None => {
                        proof {
                            added = added + Seq::<EntryView>::empty();
                            assert(entry_views(out@) =~= before + added);
                        }
                    },
                }
                stage += 1;
            }
            i += 1;
        }
        assert(self@.paths.take(i as int) =~= self@.paths);
        assert(self@.slots.take(i as int) =~= self@.slots);
        out
    }

    /// The paths in conflict, in ascending order.
    pub fn conflict_paths(&self) -> (r: Vec<Vec<u8>>)
        requires
            self.wf(),
        ensures
            lines(r@) == conflict_paths(self@.paths, self@.slots),
    {
        let mut out: Vec<Vec<u8>> = Vec::new();
        let mut i: usize = 0;
        assert(lines(out@) =~= conflict_paths(self@.paths.take(0), self@.slots.take(0)));
        while i < self.paths.len()
            invariant
                self.wf(),
                i <= self@.paths.len(),
                lines(out@) == conflict_paths(self@.paths.take(i as int), self@.slots.take(i as int)),
            decreases self@.paths.len() - i,
        {
            proof {
                assert(self@.paths.take(i + 1).drop_last() =~= self@.paths.take(i as int));
                assert(self@.slots.take(i + 1).drop_last() =~= self@.slots.take(i as int));
            }
            let ghost before = lines(out@);
            match self.slots[i] {
                Slot::Conflicted { .. } => {
                    out.push(bytes_copy(self.paths[i].as_slice()));
                    assert(lines(out@) =~= before.push(self@.paths[i as int]));
                },
                Slot::Resolved(_) => {},
            }
            i += 1;
        }
        assert(self@.paths.take(i as int) =~= self@.paths);
        assert(self@.slots.take(i as int) =~= self@.slots);
        out
    }

    /// For each path in conflict, in ascending order, the content of its
    /// ancestor, of ours and of theirs. A side that does not exist in that
    /// version is `None`, which is not the same as empty content. Fails
    /// where the content of a side cannot be read.
    pub fn conflicts(&self, store: &ObjectStore) -> (r: Result<Vec<Conflict>, EngineError>)
        requires
            self.wf(),
            store.wf(),
        ensures
            match r {
                Ok(list) => conflicts_of(store@, self@.paths, self@.slots) == Ok::<
                    Seq<ConflictView>,
                    ErrorKind,
                >(conflict_views(list@)),
                Err(e) => conflicts_of(store@, self@.paths, self@.slots) == Err::<
                    Seq<ConflictView>,
                    ErrorKind,
                >(e.kind) && e.operation == Operation::Conflicts,
            },
    {
        let mut out: Vec<Conflict> = Vec::new();
        let mut i: usize = 0;
        assert(conflict_views(out@) =~= Seq::<ConflictView>::empty());
        while i < self.paths.len()
            invariant
                self.wf(),
                store.wf(),
                i <= self@.paths.len(),
                conflicts_of(store@, self@.paths.take(i as int), self@.slots.take(i as int)) == Ok::<
                    Seq<ConflictView>,
                    ErrorKind,
                >(conflict_views(out@)),
            decreases self@.paths.len() - i,
        {
            proof {
                assert(self@.paths.take(i + 1).drop_last() =~= self@.paths.take(i as int));
                assert(self@.slots.take(i + 1).drop_last() =~= self@.slots.take(i as int));
                assert(self@.paths.take(i as int + 1) =~= self@.paths.take(i as int).push(
                    self@.paths[i as int],
                ));
            }
            let ghost before = conflict_views(out@);
            match self.slots[i] {
                Slot::Conflicted { ancestor, ours, theirs } => {
                    let a = match side_content(store, ancestor) {
                        Ok(c) => c,
                        Err(e) => {
                            proof {
                                lemma_conflicts_fail(store@, self@.paths, self@.slots, i as int);
                            }
                            return Err(e);
                        },
                    };
                    let o = match side_content(store, ours) {
                        Ok(c) => c,
                        Err(e) => {
                            proof {
                                lemma_conflicts_fail(store@, self@.paths, self@.slots, i as int);
                            }
                            return Err(e);
                        },
                    };
                    let t = match side_content(store, theirs) {
                        Ok(c) => c,
                        Err(e) => {
                            proof {
                                lemma_conflicts_fail(store@, self@.paths, self@.slots, i as int);
                            }
                            return Err(e);
                        },
                    };
                    let c = Conflict {
                        path: bytes_copy(self.paths[i].as_slice()),
                        ancestor: a,
                        ours: o,
                        theirs: t,
                    };
                    out.push(c);
                    assert(conflict_views(out@) =~= before.push(c@));
                },
                Slot::Resolved(_) => {},
            }
            i += 1;
        }
        assert(self@.paths.take(i as int) =~= self@.paths);
        assert(self@.slots.take(i as int) =~= self@.slots);
        Ok(out)
    }

    /// Whether both indexes hold the same, path by path.
    pub fn same(&self, other: &Index) -> (r: bool)
        requires
            self.wf(),
            other.wf(),
        ensures
            r == (self@ == other@),
    {
        if self.paths.len() != other.paths.len() {
            return false;
        }
        let mut i: usize = 0;
        while i < self.paths.len()
            invariant
                self.wf(),
                other.wf(),
                self@.paths.len() == other@.paths.len(),
                i <= self@.paths.len(),
                forall|j: int| 0 <= j < i ==> self@.paths[j] == other@.paths[j],
                forall|j: int| 0 <= j < i ==> self@.slots[j] == other@.slots[j],
            decreases self@.paths.len() - i,
        {
            if !bytes_eq(self.paths[i].as_slice(), other.paths[i].as_slice()) {
                assert(self@.paths[i as int] != other@.paths[i as int]);
                return false;
            }
            if !self.slots[i].same(&other.slots[i]) {
                assert(self@.slots[i as int] != other@.slots[i as int]);
                return false;
            }
            i += 1;
        }
        assert(self@.paths =~= other@.paths);
        assert(self@.slots =~= other@.slots);
        true
    }

    /// A copy of the index.
    pub fn copy(&self) -> (x: Index)
        requires
            self.wf(),
        ensures
            x.wf(),
            x@ == self@,
    {
        let mut paths: Vec<Vec<u8>> = Vec::new();
        let mut slots: Vec<Slot> = Vec::new();
        let mut i: usize = 0;
        while i < self.paths.len()
            invariant
                self.wf(),
                i <= self@.paths.len(),
                paths@.len() == i,
                slots@.len() == i,
                forall|j: int| 0 <= j < i ==> (#[trigger] paths@[j])@ == self@.paths[j],
                forall|j: int| 0 <= j < i ==> #[trigger] slots@[j] == self@.slots[j],
            decreases self@.paths.len() - i,
        {
            paths.push(bytes_copy(self.paths[i].as_slice()));
            slots.push(self.slots[i]);
            i += 1;
        }
        let x = Index { paths, slots };
        assert(x@.paths =~= self@.paths);
        assert(x@.slots =~= self@.slots);
        x
    }
}

/// The index is a function of what was staged, not of the order of
/// staging: two well-formed indexes that bind the same paths to the same
/// slots are the same, path by path, and the trees written from them are
/// the same.
pub proof fn lemma_index_order_free(a: IndexView, b: IndexView, m: Objects)
    requires
        a.wf(),
        b.wf(),
        a.map() == b.map(),
    ensures
        a == b,
        tree_written(m, a) == tree_written(m, b),
{
    lemma_table_unique(a.paths, a.slots, b.paths, b.slots);
}

/// Content that was staged reads back as it was, from the store after the
/// staging and from every store that has grown out of it.
pub proof fn lemma_staged_reads_back(m: Objects, content: Seq<u8>, later: Objects)
    requires
        stored(m, ObjectView::Blob(content)) is Ok,
        stored(m, ObjectView::Blob(content))->Ok_0.1.submap_of(later),
    ensures
        blob_at(later, stored(m, ObjectView::Blob(content))->Ok_0.0) == Ok::<Seq<u8>, ErrorKind>(
            content,
        ),
{
    let (id, after) = stored(m, ObjectView::Blob(content))->Ok_0;
    assert(after.dom().contains(id));
}

/// The staged entries of a well-formed index are finitely many.
pub proof fn lemma_items_finite(x: IndexView)
    requires
        x.wf(),
    ensures
        x.items().dom().finite(),
{
    vstd::seq_lib::seq_to_set_is_finite(x.paths);
    assert(x.items().dom() =~= x.paths.to_set()) by {
        assert forall|p: Seq<u8>| x.items().dom().contains(p) <==> x.paths.to_set().contains(p) by {
            lemma_position_none(x.paths, p);
        }
    }
}

/// The id of the tree of an index depends on what is staged alone: not on
/// the store that the trees are written to, and not on the order of
/// staging.
pub proof fn lemma_tree_id_store_free(m1: Objects, m2: Objects, a: IndexView, b: IndexView)
    requires
        a.wf(),
        b.wf(),
        a.map() == b.map(),
        tree_written(m1, a) is Ok,
        tree_written(m2, b) is Ok,
    ensures
        tree_written(m1, a)->Ok_0.0 == tree_written(m2, b)->Ok_0.0,
{
    lemma_index_order_free(a, b, m1);
    crate::nested::lemma_built_same_id(m1, m2, a.items(), MAX_DEPTH as nat);
}

/// Writing the trees of an index and reading the tree at the top back
/// gives what was staged: the identical mapping from paths to entries, and
/// with it the identical index.
pub proof fn lemma_tree_round_trip(m: Objects, x: IndexView)
    requires
        x.wf(),
        tree_written(m, x) is Ok,
    ensures
        ({
            let (id, after) = tree_written(m, x)->Ok_0;
            tree_read(after, id) == Ok::<Flat, ErrorKind>(x.items()) && index_of_flat(x.items())
                == x
        }),
{
    lemma_items_finite(x);
    crate::nested::lemma_round_trip(m, x.items(), MAX_DEPTH as nat);
    lemma_index_of_flat(x);
}

} // verus!
