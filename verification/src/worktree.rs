//! The working tree: the files as they are checked out, by path.

use vstd::prelude::*;
use crate::bytes::{bytes_append, bytes_copy};
use crate::error::{EngineError, ErrorKind, Operation};
use crate::index::{blob_at, get_blob, side_content, side_of, Index, IndexView, Slot};
use crate::keys::{ascending, find_key, lemma_position_none, lemma_table_at, lemma_table_insert,
    lemma_table_remove, lemma_table_unique, lemma_table_update, lines, slot_of, table};
use crate::store::{ObjectStore, Objects};

verus! {

/// The working tree as a value of mathematics: its paths in ascending
/// order and, at the same positions, the content of each file.
pub struct WorkView {
    pub paths: Seq<Seq<u8>>,
    pub contents: Seq<Seq<u8>>,
}

impl WorkView {
    /// The paths are strictly ascending and each has its content.
    pub open spec fn wf(self) -> bool {
        ascending(self.paths) && self.paths.len() == self.contents.len()
    }

    /// The working tree as a finite map from paths to contents.
    pub open spec fn map(self) -> Map<Seq<u8>, Seq<u8>> {
        table(self.paths, self.contents)
    }
}

/// The files of a working tree.
#[derive(Clone, Debug, PartialEq, Eq)]
pub struct WorkTree {
    paths: Vec<Vec<u8>>,
    contents: Vec<Vec<u8>>,
}

impl View for WorkTree {
    type V = WorkView;

    closed spec fn view(&self) -> WorkView {
        WorkView { paths: lines(self.paths@), contents: lines(self.contents@) }
    }
}

/// `<<<<<<< ours`, a line feed.
pub open spec fn ours_marker() -> Seq<u8> {
    seq![60u8, 60u8, 60u8, 60u8, 60u8, 60u8, 60u8, 32u8, 111u8, 117u8, 114u8, 115u8, 10u8]
}

/// `||||||| base`, a line feed.
pub open spec fn base_marker() -> Seq<u8> {
    seq![124u8, 124u8, 124u8, 124u8, 124u8, 124u8, 124u8, 32u8, 98u8, 97u8, 115u8, 101u8, 10u8]
}

/// `=======`, a line feed.
pub open spec fn theirs_marker() -> Seq<u8> {
    seq![61u8, 61u8, 61u8, 61u8, 61u8, 61u8, 61u8, 10u8]
}

/// `>>>>>>> theirs`, a line feed.
pub open spec fn end_marker() -> Seq<u8> {
    seq![
        62u8,
        62u8,
        62u8,
        62u8,
        62u8,
        62u8,
        62u8,
        32u8,
        116u8,
        104u8,
        101u8,
        105u8,
        114u8,
        115u8,
        10u8,
    ]
}

/// The bytes of a side; none for a side that does not exist.
pub open spec fn segment(side: Option<Seq<u8>>) -> Seq<u8> {
    match side {
        Some(b) => b,
        None => Seq::empty(),
    }
}

/// The working content of a path in conflict: the three sides as
/// segments, each whole, between markers. Nothing is resolved.
pub open spec fn conflict_text(a: Option<Seq<u8>>, o: Option<Seq<u8>>, t: Option<Seq<u8>>) -> Seq<
    u8,
> {
    ours_marker() + segment(o) + base_marker() + segment(a) + theirs_marker() + segment(t)
        + end_marker()
}

/// The working content of a slot: the staged content, or for a conflict
/// its [`conflict_text`]. The first side that cannot be read, in the order
/// ancestor, ours, theirs, decides the failure.
pub open spec fn slot_content(m: Objects, slot: Slot) -> Result<Seq<u8>, ErrorKind> {
    match slot {
        Slot::Resolved(item) => blob_at(m, item.id),
        Slot::Conflicted { ancestor, ours, theirs } => match side_of(m, ancestor) {
            Err(k) => Err(k),
            Ok(a) => match side_of(m, ours) {
                Err(k) => Err(k),
                Ok(o) => match side_of(m, theirs) {
                    Err(k) => Err(k),
                    Ok(t) => Ok(conflict_text(a, o, t)),
                },
            },
        },
    }
}

/// The working contents of slots, in order; the first that cannot be read
/// decides the failure.
pub open spec fn contents_of(m: Objects, slots: Seq<Slot>) -> Result<Seq<Seq<u8>>, ErrorKind>
    decreases slots.len(),
{
    if slots.len() == 0 {
        Ok(Seq::empty())
    } else {
        match contents_of(m, slots.drop_last()) {
            Err(k) => Err(k),
            Ok(rest) => match slot_content(m, slots.last()) {
                Err(k) => Err(k),
                Ok(c) => Ok(rest.push(c)),
            },
        }
    }
}

/// The working tree that an index stands for: a file for each path.
#[verifier::opaque]
pub open spec fn materialized(m: Objects, x: IndexView) -> Result<WorkView, ErrorKind> {
    match contents_of(m, x.slots) {
        Err(k) => Err(k),
        Ok(contents) => Ok(WorkView { paths: x.paths, contents }),
    }
}

/// The files after the files `fresh` of a new index have taken the place
/// of the files at the paths `staged` of the index before: the files of
/// the new index, and every other file of `before` at a path that the
/// index before did not bind. A file that neither index binds stays as it
/// is.
pub open spec fn carried_files(
    before: Map<Seq<u8>, Seq<u8>>,
    staged: Set<Seq<u8>>,
    fresh: Map<Seq<u8>, Seq<u8>>,
) -> Map<Seq<u8>, Seq<u8>> {
    Map::new(
        |p: Seq<u8>| fresh.contains_key(p) || (before.contains_key(p) && !staged.contains(p)),
        |p: Seq<u8>|
            if fresh.contains_key(p) {
                fresh[p]
            } else {
                before[p]
            },
    )
}

/// The working tree whose files are [`carried_files`] of the working tree
/// `before`, the index `staged` that it was checked out from, and the
/// files `fresh` of the new index. [`lemma_carried`] shows that there is
/// one such working tree only.
pub open spec fn carried(before: WorkView, staged: IndexView, fresh: WorkView) -> WorkView {
    choose|w: WorkView|
        w.wf() && w.map() == carried_files(before.map(), staged.map().dom(), fresh.map())
}

/// A well-formed working tree with the files that [`carried`] asks for is
/// the one that it gives.
pub proof fn lemma_carried(before: WorkView, staged: IndexView, fresh: WorkView, w: WorkView)
    requires
        w.wf(),
        w.map() == carried_files(before.map(), staged.map().dom(), fresh.map()),
    ensures
        carried(before, staged, fresh) == w,
        carried(before, staged, fresh).wf(),
{
    let c = carried(before, staged, fresh);
    lemma_table_unique(c.paths, c.contents, w.paths, w.contents);
}

/// The files of the working tree `w` at the paths that the index `x`
/// binds, and no others. [`lemma_bound_files`] shows that there is one
/// such working tree only.
pub open spec fn bound_files(w: WorkView, x: IndexView) -> WorkView {
    choose|v: WorkView| v.wf() && v.map() == w.map().restrict(x.map().dom())
}

/// A well-formed working tree with the files that [`bound_files`] asks
/// for is the one that it gives.
pub proof fn lemma_bound_files(w: WorkView, x: IndexView, v: WorkView)
    requires
        v.wf(),
        v.map() == w.map().restrict(x.map().dom()),
    ensures
        bound_files(w, x) == v,
        bound_files(w, x).wf(),
{
    let c = bound_files(w, x);
    lemma_table_unique(c.paths, c.contents, v.paths, v.contents);
}

/// A failure among the first slots is the failure of the whole.
pub proof fn lemma_contents_fail(m: Objects, slots: Seq<Slot>, i: int)
    requires
        0 <= i < slots.len(),
        contents_of(m, slots.take(i + 1)) is Err,
    ensures
        contents_of(m, slots) == contents_of(m, slots.take(i + 1)),
    decreases slots.len() - i,
{
    if i + 1 == slots.len() {
        assert(slots.take(i + 1) =~= slots);
    } else {
        assert(slots.drop_last().take(i + 1) =~= slots.take(i + 1));
        lemma_contents_fail(m, slots.drop_last(), i);
    }
}

/// Contents that could be read are as many as the slots.
pub proof fn lemma_contents_len(m: Objects, slots: Seq<Slot>)
    requires
        contents_of(m, slots) is Ok,
    ensures
        contents_of(m, slots)->Ok_0.len() == slots.len(),
    decreases slots.len(),
{
    if slots.len() > 0 {
        lemma_contents_len(m, slots.drop_last());
    }
}

fn push_segment(out: &mut Vec<u8>, side: &Option<Vec<u8>>)
    ensures
        final(out)@ == old(out)@ + segment(crate::index::optional_bytes(*side)),
{
    match side {
        Some(b) => {
            bytes_append(out, b.as_slice());
        },
        None => {
            assert(out@ =~= old(out)@ + Seq::<u8>::empty());
        },
    }
}

fn content_of_slot(store: &ObjectStore, slot: Slot) -> (r: Result<Vec<u8>, EngineError>)
    requires
        store.wf(),
    ensures
        match r {
            Ok(c) => slot_content(store@, slot) == Ok::<Seq<u8>, ErrorKind>(c@),
            Err(e) => slot_content(store@, slot) == Err::<Seq<u8>, ErrorKind>(e.kind),
        },
{
    match slot {
        Slot::Resolved(item) => match get_blob(store, item.id, Operation::ReadTree) {
            Ok(b) => Ok(bytes_copy(b.as_slice())),
            Err(e) => Err(e),
        },
        Slot::Conflicted { ancestor, ours, theirs } => {
            let a = match side_content(store, ancestor) {
                Ok(c) => c,
                Err(e) => {
                    return Err(e);
                },
            };
            let o = match side_content(store, ours) {
                Ok(c) => c,
                Err(e) => {
                    return Err(e);
                },
            };
            let t = match side_content(store, theirs) {
                Ok(c) => c,
                Err(e) => {
                    return Err(e);
                },
            };
            let mut out: Vec<u8> = vec![
                60u8,
                60u8,
                60u8,
                60u8,
                60u8,
                60u8,
                60u8,
                32u8,
                111u8,
                117u8,
                114u8,
                115u8,
                10u8,
            ];
            assert(out@ =~= ours_marker());
            push_segment(&mut out, &o);
            let m1: Vec<u8> = vec![
                124u8,
                124u8,
                124u8,
                124u8,
                124u8,
                124u8,
                124u8,
                32u8,
                98u8,
                97u8,
                115u8,
                101u8,
                10u8,
            ];
            assert(m1@ =~= base_marker());
            bytes_append(&mut out, m1.as_slice());
            push_segment(&mut out, &a);
            let m2: Vec<u8> = vec![61u8, 61u8, 61u8, 61u8, 61u8, 61u8, 61u8, 10u8];
            assert(m2@ =~= theirs_marker());
            bytes_append(&mut out, m2.as_slice());
            push_segment(&mut out, &t);
            let m3: Vec<u8> = vec![
                62u8,
                62u8,
                62u8,
                62u8,
                62u8,
                62u8,
                62u8,
                32u8,
                116u8,
                104u8,
                101u8,
                105u8,
                114u8,
                115u8,
                10u8,
            ];
            assert(m3@ =~= end_marker());
            bytes_append(&mut out, m3.as_slice());
            Ok(out)
        },
    }
}

impl WorkTree {
    /// The invariant of the type: see [`WorkView::wf`].
    pub open spec fn wf(&self) -> bool {
        self@.wf()
    }

    /// The empty working tree.
    pub fn new() -> (w: WorkTree)
        ensures
            w.wf(),
            w@.paths.len() == 0,
            w@.map() == Map::<Seq<u8>, Seq<u8>>::empty(),
    {
        let w = WorkTree { paths: Vec::new(), contents: Vec::new() };
        assert(w@.map() =~= Map::<Seq<u8>, Seq<u8>>::empty()) by {
            assert forall|k: Seq<u8>| !w@.map().contains_key(k) by {
                lemma_position_none(w@.paths, k);
            }
        }
        assert(w@.contents =~= Seq::<Seq<u8>>::empty());
        w
    }

    /// The number of files.
    pub fn len(&self) -> (n: usize)
        requires
            self.wf(),
        ensures
            n == self@.paths.len(),
    {
        self.paths.len()
    }

    /// The path at position `i`.
    pub fn path_at(&self, i: usize) -> (path: &Vec<u8>)
        requires
            self.wf(),
            i < self@.paths.len(),
        ensures
            path@ == self@.paths[i as int],
    {
        &self.paths[i]
    }

    /// The content at position `i`.
    pub fn content_at(&self, i: usize) -> (content: &Vec<u8>)
        requires
            self.wf(),
            i < self@.paths.len(),
        ensures
            content@ == self@.contents[i as int],
    {
        &self.contents[i]
    }

    /// The content of the file at `path`, if there is one.
    pub fn read(&self, path: &[u8]) -> (r: Option<&Vec<u8>>)
        requires
            self.wf(),
        ensures
            match r {
                Some(c) => self@.map().contains_key(path@) && self@.map()[path@] == c@,
                None => !self@.map().contains_key(path@),
            },
    {
        proof {
            lemma_position_none(self@.paths, path@);
        }
        match find_key(&self.paths, path) {
            Some(i) => {
                proof {
                    assert(self@.paths[i as int] == path@);
                    lemma_table_at(self@.paths, self@.contents, i as int);
                }
                Some(&self.contents[i])
            },
            None => None,
        }
    }

    /// Writes `content` to the file at `path`, creating it if need be.
    pub fn write(&mut self, path: &[u8], content: &[u8])
        requires
            old(self).wf(),
        ensures
            final(self).wf(),
            final(self)@.map() == old(self)@.map().insert(path@, content@),
    {
        let ghost ks = self@.paths;
        let ghost vs = self@.contents;
        match find_key(&self.paths, path) {
            Some(i) => {
                proof {
                    assert(ks[i as int] == path@);
                    lemma_table_update(ks, vs, i as int, content@);
                }
                self.contents.set(i, bytes_copy(content));
                assert(self@.contents =~= vs.update(i as int, content@));
            },
            None => {
                let at = slot_of(&self.paths, path);
                proof {
                    lemma_table_insert(ks, vs, path@, content@, at as int);
                }
                self.paths.insert(at, bytes_copy(path));
                self.contents.insert(at, bytes_copy(content));
                assert(self@.paths =~= ks.insert(at as int, path@));
                assert(self@.contents =~= vs.insert(at as int, content@));
            },
        }
    }

    /// Deletes the file at `path`; says whether there was one.
    pub fn remove(&mut self, path: &[u8]) -> (was: bool)
        requires
            old(self).wf(),
        ensures
            final(self).wf(),
            was == old(self)@.map().contains_key(path@),
            final(self)@.map() == old(self)@.map().remove(path@),
    {
        let ghost ks = self@.paths;
        let ghost vs = self@.contents;
        proof {
            lemma_position_none(ks, path@);
        }
        match find_key(&self.paths, path) {
            Some(i) => {
                proof {
                    assert(ks[i as int] == path@);
                    lemma_table_remove(ks, vs, i as int);
                    lemma_table_at(ks, vs, i as int);
                }
                self.paths.remove(i);
                self.contents.remove(i);
                assert(self@.paths =~= ks.remove(i as int));
                assert(self@.contents =~= vs.remove(i as int));
                true
            },
            None => {
                assert(self@.map() =~= self@.map().remove(path@));
                false
            },
        }
    }

    /// The files of this working tree at the paths that `index` binds.
    pub fn only(&self, index: &Index) -> (r: WorkTree)
        requires
            self.wf(),
            index.wf(),
        ensures
            r.wf(),
            r@ == bound_files(self@, index@),
            r@.map() == self@.map().restrict(index@.map().dom()),
    {
        let mut out = WorkTree::new();
        let mut i: usize = 0;
        assert(self@.paths.take(0) =~= Seq::<Seq<u8>>::empty());
        while i < self.paths.len()
            invariant
                self.wf(),
                index.wf(),
                out.wf(),
                i <= self@.paths.len(),
                forall|p: Seq<u8>|
                    #[trigger] out@.map().contains_key(p) <==> self@.paths.take(i as int).contains(p)
                        && index@.map().contains_key(p),
                forall|p: Seq<u8>|
                    #[trigger] out@.map().contains_key(p) ==> out@.map()[p] == self@.map()[p],
            decreases self@.paths.len() - i,
        {
            let ghost here = self@.paths[i as int];
            let ghost was = out@.map();
            proof {
                lemma_table_at(self@.paths, self@.contents, i as int);
                assert forall|p: Seq<u8>|
                    self@.paths.take(i + 1).contains(p) <==> self@.paths.take(i as int).contains(p)
                        || p == here by {
                    let s = self@.paths.take(i + 1);
                    let t = self@.paths.take(i as int);
                    if s.contains(p) {
                        let j = choose|j: int| 0 <= j < s.len() && s[j] == p;
                        if j < i {
                            assert(t[j] == p);
                        }
                    }
                    if t.contains(p) {
                        let j = choose|j: int| 0 <= j < t.len() && t[j] == p;
                        assert(s[j] == p);
                    }
                    if p == here {
                        assert(s[i as int] == p);
                    }
                }
            }
            let bound = index.get(self.paths[i].as_slice()).is_some();
            if bound {
                out.write(self.paths[i].as_slice(), self.contents[i].as_slice());
            }
            proof {
                assert forall|p: Seq<u8>|
                    #[trigger] out@.map().contains_key(p) <==> self@.paths.take(i + 1).contains(p)
                        && index@.map().contains_key(p) by {
                    assert(was.contains_key(p) <==> self@.paths.take(i as int).contains(p)
                        && index@.map().contains_key(p));
                    assert(self@.paths.take(i + 1).contains(p) <==> self@.paths.take(
                        i as int,
                    ).contains(p) || p == here);
                }
                assert forall|p: Seq<u8>| #[trigger] out@.map().contains_key(p) implies out@.map()[p]
                    == self@.map()[p] by {
                    if p != here || !bound {
                        assert(was.contains_key(p));
                    }
                }
            }
            i += 1;
        }
        proof {
            assert(self@.paths.take(i as int) =~= self@.paths);
            let goal = self@.map().restrict(index@.map().dom());
            assert forall|p: Seq<u8>| out@.map().contains_key(p) <==> goal.contains_key(p) by {
                lemma_position_none(self@.paths, p);
                assert(out@.map().contains_key(p) <==> self@.paths.contains(p) && index@.map().contains_key(
                    p,
                ));
            }
            assert forall|p: Seq<u8>| out@.map().contains_key(p) implies out@.map()[p] == goal[p] by {}
            assert(out@.map() =~= goal);
            lemma_bound_files(self@, index@, out@);
        }
        out
    }

    /// The working tree after a checkout that leaves files alone which
    /// are not staged: the files `fresh` of the new index, and every file
    /// of `self` at a path that neither `staged`, the index before, nor
    /// the new index binds.
    pub fn carry(&self, staged: &Index, fresh: WorkTree) -> (r: WorkTree)
        requires
            self.wf(),
            staged.wf(),
            fresh.wf(),
        ensures
            r.wf(),
            r@ == carried(self@, staged@, fresh@),
            r@.map() == carried_files(self@.map(), staged@.map().dom(), fresh@.map()),
    {
        let mut out = fresh;
        let ghost f = out@.map();
        let mut i: usize = 0;
        assert(self@.paths.take(0) =~= Seq::<Seq<u8>>::empty());
        while i < self.paths.len()
            invariant
                self.wf(),
                staged.wf(),
                out.wf(),
                i <= self@.paths.len(),
                f == fresh@.map(),
                forall|p: Seq<u8>|
                    #[trigger] out@.map().contains_key(p) <==> f.contains_key(p) || (self@.paths.take(
                        i as int,
                    ).contains(p) && !staged@.map().contains_key(p)),
                forall|p: Seq<u8>|
                    #[trigger] out@.map().contains_key(p) ==> out@.map()[p] == (if f.contains_key(p) {
                        f[p]
                    } else {
                        self@.map()[p]
                    }),
            decreases self@.paths.len() - i,
        {
            let ghost here = self@.paths[i as int];
            let ghost was = out@.map();
            proof {
                lemma_table_at(self@.paths, self@.contents, i as int);
                assert forall|p: Seq<u8>|
                    self@.paths.take(i + 1).contains(p) <==> self@.paths.take(i as int).contains(p)
                        || p == here by {
                    let s = self@.paths.take(i + 1);
                    let t = self@.paths.take(i as int);
                    if s.contains(p) {
                        let j = choose|j: int| 0 <= j < s.len() && s[j] == p;
                        if j < i {
                            assert(t[j] == p);
                        }
                    }
                    if t.contains(p) {
                        let j = choose|j: int| 0 <= j < t.len() && t[j] == p;
                        assert(s[j] == p);
                    }
                    if p == here {
                        assert(s[i as int] == p);
                    }
                }
            }
            let free = match staged.get(self.paths[i].as_slice()) {
                Some(_) => false,
                None => out.read(self.paths[i].as_slice()).is_none(),
            };
            if free {
                out.write(self.paths[i].as_slice(), self.contents[i].as_slice());
            }
            proof {
                assert(was.contains_key(here) ==> f.contains_key(here) || !free);
                assert forall|p: Seq<u8>|
                    #[trigger] out@.map().contains_key(p) <==> f.contains_key(p) || (self@.paths.take(
                        i + 1,
                    ).contains(p) && !staged@.map().contains_key(p)) by {
                    assert(was.contains_key(p) <==> f.contains_key(p) || (self@.paths.take(
                        i as int,
                    ).contains(p) && !staged@.map().contains_key(p)));
                    assert(self@.paths.take(i + 1).contains(p) <==> self@.paths.take(
                        i as int,
                    ).contains(p) || p == here);
                }
                assert forall|p: Seq<u8>| #[trigger] out@.map().contains_key(p) implies out@.map()[p]
                    == (if f.contains_key(p) {
                    f[p]
                } else {
                    self@.map()[p]
                }) by {
                    if p != here || !free {
                        assert(was.contains_key(p));
                    }
                }
            }
            i += 1;
        }
        proof {
            assert(self@.paths.take(i as int) =~= self@.paths);
            let goal = carried_files(self@.map(), staged@.map().dom(), f);
            assert forall|p: Seq<u8>| out@.map().contains_key(p) <==> goal.contains_key(p) by {
                lemma_position_none(self@.paths, p);
                assert(out@.map().contains_key(p) <==> f.contains_key(p) || (self@.paths.contains(p)
                    && !staged@.map().contains_key(p)));
            }
            assert forall|p: Seq<u8>| out@.map().contains_key(p) implies out@.map()[p] == goal[p] by {}
            assert(out@.map() =~= goal);
            lemma_carried(self@, staged@, fresh@, out@);
        }
        out
    }

    /// The working tree that `index` stands for: for each path the staged
    /// content, for a path in conflict its three sides between markers.
    pub fn materialize(store: &ObjectStore, index: &Index) -> (r: Result<WorkTree, EngineError>)
        requires
            store.wf(),
            index.wf(),
        ensures
            match r {
                Ok(w) => w.wf() && materialized(store@, index@) == Ok::<WorkView, ErrorKind>(w@),
                Err(e) => materialized(store@, index@) == Err::<WorkView, ErrorKind>(e.kind),
            },
    {
        proof {
            reveal(materialized);
        }
        let mut paths: Vec<Vec<u8>> = Vec::new();
        let mut contents: Vec<Vec<u8>> = Vec::new();
        let mut i: usize = 0;
        assert(lines(contents@) =~= Seq::<Seq<u8>>::empty());
        assert(index@.slots.take(0) =~= Seq::<Slot>::empty());
        while i < index.len()
            invariant
                store.wf(),
                index.wf(),
                i <= index@.paths.len(),
                paths@.len() == i,
                forall|j: int| 0 <= j < i ==> (#[trigger] paths@[j])@ == index@.paths[j],
                contents_of(store@, index@.slots.take(i as int)) == Ok::<Seq<Seq<u8>>, ErrorKind>(
                    lines(contents@),
                ),
            decreases index@.paths.len() - i,
        {
            let ghost before = lines(contents@);
            proof {
                assert(index@.slots.take(i + 1).drop_last() =~= index@.slots.take(i as int));
            }
            match content_of_slot(store, index.slot_at(i)) {
                Ok(c) => {
                    paths.push(bytes_copy(index.path_at(i).as_slice()));
                    contents.push(c);
                    assert(lines(contents@) =~= before.push(c@));
                },
                Err(e) => {
                    proof {
                        reveal(materialized);
                        lemma_contents_fail(store@, index@.slots, i as int);
                    }
                    return Err(e);
                },
            }
            i += 1;
        }
        assert(index@.slots.take(i as int) =~= index@.slots);
        let w = WorkTree { paths, contents };
        assert(w@.paths =~= index@.paths);
        proof {
            reveal(materialized);
            lemma_contents_len(store@, index@.slots);
        }
        Ok(w)
    }

    /// A copy of the working tree.
    pub fn copy(&self) -> (w: WorkTree)
        requires
            self.wf(),
        ensures
            w.wf(),
            w@ == self@,
    {
        let mut paths: Vec<Vec<u8>> = Vec::new();
        let mut contents: Vec<Vec<u8>> = Vec::new();
        let mut i: usize = 0;
        while i < self.paths.len()
            invariant
                self.wf(),
                i <= self@.paths.len(),
                paths@.len() == i,
                contents@.len() == i,
                forall|j: int| 0 <= j < i ==> (#[trigger] paths@[j])@ == self@.paths[j],
                forall|j: int| 0 <= j < i ==> (#[trigger] contents@[j])@ == self@.contents[j],
            decreases self@.paths.len() - i,
        {
            paths.push(bytes_copy(self.paths[i].as_slice()));
            contents.push(bytes_copy(self.contents[i].as_slice()));
            i += 1;
        }
        let w = WorkTree { paths, contents };
        assert(w@.paths =~= self@.paths);
        assert(w@.contents =~= self@.contents);
        w
    }
}

} // verus!
