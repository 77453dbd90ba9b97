//! Merging: the merge base of two commits, fast-forward detection and the
//! three-way merge of trees.

use vstd::prelude::*;
use crate::error::{EngineError, ErrorKind, Operation, Subject};
use crate::history::{ancestors, commit_defect, generation, generations, history_complete,
    ids_contain, lemma_generation_reaches, lemma_reached_step, lemma_reaches_self,
    lemma_reaches_transitive, lists_history, parents, reached_from, reaches, settled};
use crate::index::{conflict_paths, Index, IndexView, Slot};
use crate::keys::{lemma_position_none, lemma_table_at, lemma_table_unique, lines};
use crate::nested::{tree_read, tree_written, Flat};
use crate::object::TreeItem;
use crate::oid::{id_lt, ObjectId};
use crate::store::{stored, ObjectStore, Objects};

verus! {

/// `c` is an ancestor of both `a` and `b`, or one of them and an ancestor
/// of the other.
pub open spec fn common(m: Objects, a: ObjectId, b: ObjectId, c: ObjectId) -> bool {
    reaches(m, a, c) && reaches(m, b, c)
}

/// `x` is at least as near to the tips as `y`: its generation is greater,
/// or the same and its id is not the greater one.
pub open spec fn nearer(m: Objects, x: ObjectId, y: ObjectId) -> bool {
    let gx = generation(m, x)->0;
    let gy = generation(m, y)->0;
    gx > gy || (gx == gy && !id_lt(y, x))
}

/// `r` is the merge base of `a` and `b`: the nearest common ancestor, the
/// one with the lowest id among equally near ones.
pub open spec fn is_merge_base(m: Objects, a: ObjectId, b: ObjectId, r: ObjectId) -> bool {
    common(m, a, b, r) && forall|c: ObjectId| #[trigger] common(m, a, b, c) ==> nearer(m, r, c)
}

/// The merge base of `a` and `b`, if their histories meet.
pub open spec fn merge_base_of(m: Objects, a: ObjectId, b: ObjectId) -> Option<ObjectId> {
    if exists|r: ObjectId| is_merge_base(m, a, b, r) {
        Some(choose|r: ObjectId| is_merge_base(m, a, b, r))
    } else {
        None
    }
}

/// Moving from `current` to `target` needs no merge.
pub open spec fn fast_forward_of(m: Objects, current: ObjectId, target: ObjectId) -> bool {
    merge_base_of(m, current, target) == Some(current)
}

/// Finding the merge base of `a` and `b` fails with `e`: the history of
/// one of them is not sound. `e` names an id that one of them reaches and
/// that does not read as a commit, with the reason; or, with `Corrupt`, a
/// commit on a cycle.
pub open spec fn base_fails(m: Objects, a: ObjectId, b: ObjectId, e: EngineError) -> bool {
    &&& generation(m, a) is None || generation(m, b) is None
    &&& exists|bad: ObjectId| #[trigger] base_fails_at(m, a, b, e.kind, e.subject, bad)
}

/// The id `bad` is why finding the merge base of `a` and `b` fails with
/// the class `kind` and the subject `subject`.
pub open spec fn base_fails_at(
    m: Objects,
    a: ObjectId,
    b: ObjectId,
    kind: ErrorKind,
    subject: Subject,
    bad: ObjectId,
) -> bool {
    (reaches(m, a, bad) || reaches(m, b, bad)) && subject == Subject::Object(bad) && (commit_defect(
        m,
        bad,
    ) == Some(kind) || (kind == ErrorKind::Corrupt && generation(m, bad) is None))
}

/// There is at most one merge base.
pub proof fn lemma_merge_base_unique(m: Objects, a: ObjectId, b: ObjectId, r: ObjectId)
    requires
        is_merge_base(m, a, b, r),
    ensures
        merge_base_of(m, a, b) == Some(r),
{
    let r2 = choose|r2: ObjectId| is_merge_base(m, a, b, r2);
    assert(common(m, a, b, r) && common(m, a, b, r2));
    assert(nearer(m, r, r2) && nearer(m, r2, r));
}

/// The merge base of `a` and `b` is the merge base of `b` and `a`.
pub proof fn lemma_merge_base_symmetric(m: Objects, a: ObjectId, b: ObjectId)
    ensures
        merge_base_of(m, a, b) == merge_base_of(m, b, a),
{
    if exists|r: ObjectId| is_merge_base(m, a, b, r) {
        let r = choose|r: ObjectId| is_merge_base(m, a, b, r);
        assert(is_merge_base(m, b, a, r)) by {
            assert forall|c: ObjectId| #[trigger] common(m, b, a, c) implies nearer(m, r, c) by {
                assert(common(m, a, b, c));
            }
        }
        lemma_merge_base_unique(m, b, a, r);
    } else if exists|r: ObjectId| is_merge_base(m, b, a, r) {
        let r = choose|r: ObjectId| is_merge_base(m, b, a, r);
        assert(is_merge_base(m, a, b, r)) by {
            assert forall|c: ObjectId| #[trigger] common(m, a, b, c) implies nearer(m, r, c) by {
                assert(common(m, b, a, c));
            }
        }
    }
}

/// A fast-forward from `a` to `b` is possible if and only if everything
/// that `a` reaches `b` reaches too and the merge base of the two is `a`.
pub proof fn lemma_fast_forward(m: Objects, a: ObjectId, b: ObjectId)
    ensures
        fast_forward_of(m, a, b) <==> (forall|c: ObjectId|
            reaches(m, a, c) ==> #[trigger] reaches(m, b, c)) && merge_base_of(m, a, b) == Some(a),
{
    if fast_forward_of(m, a, b) {
        assert(is_merge_base(m, a, b, a));
        assert forall|c: ObjectId| reaches(m, a, c) implies #[trigger] reaches(m, b, c) by {
            lemma_reaches_transitive(m, b, a, c);
        }
    }
}

/// Where the history of `b` is sound, a fast-forward from `a` to `b` is
/// possible if and only if `b` reaches `a`.
pub proof fn lemma_fast_forward_ancestor(m: Objects, a: ObjectId, b: ObjectId)
    requires
        generation(m, b) is Some,
    ensures
        fast_forward_of(m, a, b) <==> reaches(m, b, a),
{
    if fast_forward_of(m, a, b) {
        assert(is_merge_base(m, a, b, a));
    }
    if reaches(m, b, a) {
        lemma_generation_reaches(m, b, a);
        lemma_reaches_self(m, a);
        assert forall|c: ObjectId| #[trigger] common(m, a, b, c) implies nearer(m, a, c) by {
            lemma_generation_reaches(m, a, c);
        }
        lemma_merge_base_unique(m, a, b, a);
    }
}

/// What a one-element list of roots reaches is what its element reaches.
pub proof fn lemma_reached_from_one(m: Objects, roots: Seq<ObjectId>, id: ObjectId)
    requires
        roots.len() == 1,
    ensures
        reached_from(m, roots, id) <==> reaches(m, roots[0], id),
{
    if reaches(m, roots[0], id) {
        assert(reached_from(m, roots, id));
    }
}

/// What a list of history holds, it holds with its parents.
pub proof fn lemma_history_settled(m: Objects, roots: Seq<ObjectId>, v: Seq<ObjectId>)
    requires
        history_complete(m, roots),
        lists_history(m, roots, v),
    ensures
        forall|k: int| 0 <= k < v.len() ==> settled(m, v, #[trigger] v[k]),
{
    assert forall|k: int| 0 <= k < v.len() implies settled(m, v, #[trigger] v[k]) by {
        assert(v.contains(v[k]));
        assert(reached_from(m, roots, v[k]));
        assert forall|p: ObjectId| #[trigger] parents(m, v[k]).contains(p) implies v.contains(
            p,
        ) by {
            lemma_reached_step(m, roots, v[k], p);
        }
    }
}

/// The merge base of `a` and `b`: the common ancestor of the greatest
/// generation, the one with the lowest id among several; `None` where the
/// two histories do not meet. Fails where either history holds an id that
/// does not read as a commit, or a cycle.
pub fn merge_base(store: &ObjectStore, a: ObjectId, b: ObjectId) -> (r: Result<
    Option<ObjectId>,
    EngineError,
>)
    requires
        store.wf(),
    ensures
        match r {
            Ok(base) => generation(store@, a) is Some && generation(store@, b) is Some && base
                == merge_base_of(store@, a, b),
            Err(e) => base_fails(store@, a, b, e) && e.operation == Operation::Walk,
        },
{
    let mut roots: Vec<ObjectId> = Vec::new();
    roots.push(a);
    roots.push(b);
    assert(roots@[0] == a && roots@[1] == b);
    let all = match ancestors(store, &roots) {
        Ok(v) => v,
        Err(e) => {
            proof {
                let bad = choose|bad: ObjectId|
                    reached_from(store@, roots@, bad) && commit_defect(store@, bad) == Some(e.kind)
                        && e.subject == Subject::Object(bad) && e.operation == Operation::Walk;
                let w = choose|w: int|
                    0 <= w < roots@.len() && reaches(store@, #[trigger] roots@[w], bad);
                if generation(store@, a) is Some && generation(store@, b) is Some {
                    lemma_generation_reaches(store@, roots@[w], bad);
                }
                assert(base_fails_at(store@, a, b, e.kind, e.subject, bad));
            }
            return Err(e);
        },
    };
    proof {
        lemma_history_settled(store@, roots@, all@);
    }
    let (order, gens) = match generations(store, &all) {
        Ok(pair) => pair,
        Err(e) => {
            proof {
                let bad = choose|bad: ObjectId|
                    all@.contains(bad) && generation(store@, bad) is None && e.subject
                        == Subject::Object(bad);
                assert(reached_from(store@, roots@, bad));
                let w = choose|w: int|
                    0 <= w < roots@.len() && reaches(store@, #[trigger] roots@[w], bad);
                if generation(store@, a) is Some && generation(store@, b) is Some {
                    lemma_generation_reaches(store@, roots@[w], bad);
                }
                assert(base_fails_at(store@, a, b, e.kind, e.subject, bad));
            }
            return Err(e);
        },
    };
    proof {
        lemma_reaches_self(store@, a);
        lemma_reaches_self(store@, b);
        assert(reached_from(store@, roots@, roots@[0]));
        assert(reached_from(store@, roots@, roots@[1]));
        assert(order@.contains(a) && order@.contains(b));
        let ia = choose|i: int| 0 <= i < order@.len() && order@[i] == a;
        let ib = choose|i: int| 0 <= i < order@.len() && order@[i] == b;
        assert(generation(store@, order@[ia]) is Some);
        assert(generation(store@, order@[ib]) is Some);
    }
    let from_a = match reach_of(store, a) {
        Ok(v) => v,
        Err(e) => {
            return Err(e);
        },
    };
    let from_b = match reach_of(store, b) {
        Ok(v) => v,
        Err(e) => {
            return Err(e);
        },
    };
    let mut best: Option<(ObjectId, usize)> = None;
    let mut k: usize = 0;
    while k < order.len()
        invariant
            k <= order@.len(),
            forall|x: ObjectId| #[trigger] from_a@.contains(x) <==> reaches(store@, a, x),
            forall|x: ObjectId| #[trigger] from_b@.contains(x) <==> reaches(store@, b, x),
            order@.len() == gens@.len(),
            generation(store@, a) is Some,
            generation(store@, b) is Some,
            forall|i: int|
                0 <= i < order@.len() ==> generation(store@, #[trigger] order@[i]) == Some(
                    gens@[i] as nat,
                ),
            match best {
                None => forall|i: int| 0 <= i < k ==> !common(store@, a, b, #[trigger] order@[i]),
                Some((r, g)) => common(store@, a, b, r) && generation(store@, r) == Some(g as nat)
                    && forall|i: int|
                    0 <= i < k && common(store@, a, b, #[trigger] order@[i]) ==> nearer(
                        store@,
                        r,
                        order@[i],
                    ),
            },
        decreases order@.len() - k,
    {
        let c = order[k];
        let g = gens[k];
        let shared = ids_contain(&from_a, c) && ids_contain(&from_b, c);
        if shared {
            let better = match best {
                None => true,
                Some((r, rg)) => g > rg || (g == rg && c.below(&r)),
            };
            if better {
                proof {
                    if let Some((r, rg)) = best {
                        assert forall|i: int|
                            0 <= i < k && common(store@, a, b, #[trigger] order@[i]) implies nearer(
                            store@,
                            c,
                            order@[i],
                        ) by {
                            assert(nearer(store@, r, order@[i]));
                        }
                    }
                }
                best = Some((c, g));
            }
        }
        k += 1;
    }
    proof {
        match best {
            None => {
                assert forall|r: ObjectId| !is_merge_base(store@, a, b, r) by {
                    if common(store@, a, b, r) {
                        assert(reached_from(store@, roots@, r)) by {
                            assert(reaches(store@, roots@[0], r));
                        }
                        assert(order@.contains(r));
                        let i = choose|i: int| 0 <= i < order@.len() && order@[i] == r;
                        assert(!common(store@, a, b, order@[i]));
                    }
                }
            },
            Some((r, g)) => {
                assert forall|c: ObjectId| #[trigger] common(store@, a, b, c) implies nearer(
                    store@,
                    r,
                    c,
                ) by {
                    assert(reached_from(store@, roots@, c)) by {
                        assert(reaches(store@, roots@[0], c));
                    }
                    assert(order@.contains(c));
                    let i = choose|i: int| 0 <= i < order@.len() && order@[i] == c;
                    assert(nearer(store@, r, order@[i]));
                }
                lemma_merge_base_unique(store@, a, b, r);
            },
        }
    }
    match best {
        None => Ok(None),
        Some((r, _)) => Ok(Some(r)),
    }
}

/// What `from`, whose history is sound, reaches. It does not fail.
fn reach_of(store: &ObjectStore, from: ObjectId) -> (r: Result<Vec<ObjectId>, EngineError>)
    requires
        store.wf(),
        generation(store@, from) is Some,
    ensures
        r matches Ok(v) && forall|x: ObjectId| #[trigger] v@.contains(x) <==> reaches(store@, from, x),
{
    let mut roots: Vec<ObjectId> = Vec::new();
    roots.push(from);
    match ancestors(store, &roots) {
        Ok(v) => {
            proof {
                assert forall|x: ObjectId| #[trigger] v@.contains(x) <==> reaches(
                    store@,
                    from,
                    x,
                ) by {
                    lemma_reached_from_one(store@, roots@, x);
                }
            }
            Ok(v)
        },
        Err(e) => {
            proof {
                let bad = choose|bad: ObjectId|
                    reached_from(store@, roots@, bad) && commit_defect(store@, bad) == Some(e.kind);
                lemma_reached_from_one(store@, roots@, bad);
                lemma_generation_reaches(store@, from, bad);
            }
            Err(e)
        },
    }
}

/// Whether moving from `current` to `target` needs no merge: whether the
/// merge base of the two is `current`.
pub fn is_fast_forward(store: &ObjectStore, current: ObjectId, target: ObjectId) -> (r: Result<
    bool,
    EngineError,
>)
    requires
        store.wf(),
    ensures
        match r {
            Ok(yes) => generation(store@, current) is Some && generation(store@, target) is Some
                && yes == fast_forward_of(store@, current, target),
            Err(e) => base_fails(store@, current, target, e) && e.operation == Operation::Walk,
        },
{
    match merge_base(store, current, target) {
        Ok(Some(base)) => Ok(base == current),
        Ok(None) => Ok(false),
        Err(e) => Err(e),
    }
}

/// What a tree holds for `path`, if anything.
pub open spec fn entry_of(t: Flat, path: Seq<u8>) -> Option<TreeItem> {
    if t.contains_key(path) {
        Some(t[path])
    } else {
        None
    }
}

/// The merge of one path, given what the base, ours and theirs hold for it
/// (`None`: the path does not exist there). Where both sides agree, that
/// is the result, which covers a path unchanged in both and one changed
/// identically in both. Where only one side differs from the base, that
/// side is the result. Otherwise the path is in conflict. `None`: the path
/// does not exist in the result.
pub open spec fn merge_entry(b: Option<TreeItem>, o: Option<TreeItem>, t: Option<TreeItem>)
    -> Option<Slot> {
    if o == t || t == b {
        match o {
            Some(item) => Some(Slot::Resolved(item)),
            None => None,
        }
    } else if o == b {
        match t {
            Some(item) => Some(Slot::Resolved(item)),
            None => None,
        }
    } else {
        Some(Slot::Conflicted { ancestor: b, ours: o, theirs: t })
    }
}

/// The three-way merge of trees, path by path.
pub open spec fn merged(b: Flat, o: Flat, t: Flat) -> Map<Seq<u8>, Slot> {
    Map::new(
        |p: Seq<u8>| merge_entry(entry_of(b, p), entry_of(o, p), entry_of(t, p)) is Some,
        |p: Seq<u8>| merge_entry(entry_of(b, p), entry_of(o, p), entry_of(t, p))->0,
    )
}

/// The result of a three-way merge: the merged index, with stage-0 entries
/// for the paths that merged cleanly and stages 1 to 3 for those in
/// conflict; the paths in conflict; and the id of the merged tree, which
/// exists only where nothing is in conflict.
#[derive(Clone, Debug)]
pub struct MergeOutcome {
    pub tree_id: Option<ObjectId>,
    pub conflicts: Vec<Vec<u8>>,
    pub index: Index,
}

/// A value of [`MergeOutcome`] as a value of mathematics.
pub struct MergeView {
    pub tree_id: Option<ObjectId>,
    pub conflicts: Seq<Seq<u8>>,
    pub index: IndexView,
}

impl View for MergeOutcome {
    type V = MergeView;

    open spec fn view(&self) -> MergeView {
        MergeView { tree_id: self.tree_id, conflicts: lines(self.conflicts@), index: self.index@ }
    }
}

/// The tree of the base of a merge, read flat: the empty tree where the two
/// sides have no common ancestor.
pub open spec fn base_read(m: Objects, base: Option<ObjectId>) -> Result<Flat, ErrorKind> {
    match base {
        Some(id) => tree_read(m, id),
        None => Ok(Map::empty()),
    }
}

/// The three trees of a merge, read flat; the first that cannot be read,
/// in the order base, ours, theirs, decides the failure.
pub open spec fn merge_inputs(m: Objects, base: Option<ObjectId>, ours: ObjectId, theirs: ObjectId)
    -> Result<(Flat, Flat, Flat), ErrorKind> {
    match base_read(m, base) {
        Err(k) => Err(k),
        Ok(b) => match tree_read(m, ours) {
            Err(k) => Err(k),
            Ok(o) => match tree_read(m, theirs) {
                Err(k) => Err(k),
                Ok(t) => Ok((b, o, t)),
            },
        },
    }
}

/// The index that holds the three-way merge of trees: the one well-formed
/// index whose bindings are [`merged`].
pub open spec fn merged_index(b: Flat, o: Flat, t: Flat) -> IndexView {
    choose|x: IndexView| x.wf() && x.map() == merged(b, o, t)
}

/// A well-formed index that binds what [`merged`] binds is the merged
/// index.
pub proof fn lemma_merged_index(b: Flat, o: Flat, t: Flat, x: IndexView)
    requires
        x.wf(),
        x.map() == merged(b, o, t),
    ensures
        merged_index(b, o, t) == x,
{
    let y = merged_index(b, o, t);
    lemma_table_unique(x.paths, x.slots, y.paths, y.slots);
}

/// The three-way merge of the trees `ours` and `theirs` over `base` in the
/// store `m`: the outcome and the store afterwards. Where nothing is in
/// conflict the outcome has a tree. Where one side is the base, the tree
/// is the other side, and where both sides are the same tree, it is that
/// tree; nothing is stored then. Otherwise the trees of the merged index
/// are written. Fails where a tree cannot be read or the merged trees
/// cannot be stored.
#[verifier::opaque]
pub open spec fn merge_of(m: Objects, base: Option<ObjectId>, ours: ObjectId, theirs: ObjectId)
    -> Result<(MergeView, Objects), ErrorKind> {
    match merge_inputs(m, base, ours, theirs) {
        Err(k) => Err(k),
        Ok((b, o, t)) => {
            let x = merged_index(b, o, t);
            let conflicts = conflict_paths(x.paths, x.slots);
            if x.has_conflicts() {
                Ok((MergeView { tree_id: None, conflicts, index: x }, m))
            } else if base == Some(theirs) || ours == theirs {
                Ok((MergeView { tree_id: Some(ours), conflicts, index: x }, m))
            } else if base == Some(ours) {
                Ok((MergeView { tree_id: Some(theirs), conflicts, index: x }, m))
            } else {
                match tree_written(m, x) {
                    Err(k) => Err(k),
                    Ok((id, after)) => Ok(
                        (MergeView { tree_id: Some(id), conflicts, index: x }, after),
                    ),
                }
            }
        },
    }
}

fn same_entry(a: Option<TreeItem>, b: Option<TreeItem>) -> (r: bool)
    ensures
        r == (a == b),
{
    match (a, b) {
        (Some(x), Some(y)) => x == y,
        (None, None) => true,
        _ => false,
    }
}

fn merge_one(b: Option<TreeItem>, o: Option<TreeItem>, t: Option<TreeItem>) -> (r: Option<Slot>)
    ensures
        r == merge_entry(b, o, t),
        r matches Some(s) ==> s.wf(),
{
    if same_entry(o, t) || same_entry(t, b) {
        match o {
            Some(item) => Some(Slot::Resolved(item)),
            None => None,
        }
    } else if same_entry(o, b) {
        match t {
            Some(item) => Some(Slot::Resolved(item)),
            None => None,
        }
    } else {
        Some(Slot::Conflicted { ancestor: b, ours: o, theirs: t })
    }
}

/// What the index `x`, which has no conflicts, holds for `path`.
fn entry_in(x: &Index, path: &[u8]) -> (r: Option<TreeItem>)
    requires
        x.wf(),
        !x@.has_conflicts(),
    ensures
        r == entry_of(x@.items(), path@),
{
    match x.get(path) {
        Some(slot) => {
            proof {
                lemma_position_none(x@.paths, path@);
                let j = choose|j: int| 0 <= j < x@.paths.len() && x@.paths[j] == path@;
                lemma_table_at(x@.paths, x@.slots, j);
                assert(!(x@.slots[j] is Conflicted));
            }
            match slot {
                Slot::Resolved(item) => Some(item),
                Slot::Conflicted { ancestor, ours, theirs } => None,
            }
        },
        None => None,
    }
}

/// Merges into `out` the paths that `from` holds.
fn merge_paths(
    out: &mut Index,
    from: &Index,
    base: &Index,
    ours: &Index,
    theirs: &Index,
    Ghost(done): Ghost<Set<Seq<u8>>>,
)
    requires
        old(out).wf(),
        from.wf(),
        base.wf(),
        ours.wf(),
        theirs.wf(),
        !base@.has_conflicts(),
        !ours@.has_conflicts(),
        !theirs@.has_conflicts(),
        old(out)@.map() == merged(base@.items(), ours@.items(), theirs@.items()).restrict(done),
    ensures
        final(out).wf(),
        final(out)@.map() == merged(base@.items(), ours@.items(), theirs@.items()).restrict(
            done.union(from@.paths.to_set()),
        ),
{
    let mut i: usize = 0;
    proof {
        assert(done.union(from@.paths.take(0).to_set()) =~= done);
    }
    while i < from.len()
        invariant
            out.wf(),
            from.wf(),
            base.wf(),
            ours.wf(),
            theirs.wf(),
            !base@.has_conflicts(),
            !ours@.has_conflicts(),
            !theirs@.has_conflicts(),
            i <= from@.paths.len(),
            out@.map() == merged(base@.items(), ours@.items(), theirs@.items()).restrict(
                done.union(from@.paths.take(i as int).to_set()),
            ),
        decreases from@.paths.len() - i,
    {
        let name = from.path_at(i);
        let b = entry_in(base, name.as_slice());
        let o = entry_in(ours, name.as_slice());
        let t = entry_in(theirs, name.as_slice());
        let ghost all = merged(base@.items(), ours@.items(), theirs@.items());
        let ghost before = done.union(from@.paths.take(i as int).to_set());
        let ghost after = done.union(from@.paths.take(i + 1).to_set());
        proof {
            assert(from@.paths.take(i + 1) =~= from@.paths.take(i as int).push(name@));
            assert(after =~= before.insert(name@)) by {
                assert forall|p: Seq<u8>| after.contains(p) <==> before.insert(name@).contains(
                    p,
                ) by {
                    vstd::seq_lib::lemma_seq_contains_after_push(
                        from@.paths.take(i as int),
                        name@,
                        p,
                    );
                }
            }
        }
        match merge_one(b, o, t) {
            Some(slot) => {
                out.set(name.as_slice(), slot);
                assert(out@.map() =~= all.restrict(after));
            },
            None => {
                assert(out@.map() =~= all.restrict(after));
            },
        }
        i += 1;
    }
    assert(from@.paths.take(i as int) =~= from@.paths);
}

/// The three-way merge of the trees `ours` and `theirs` over their common
/// ancestor `base`; `None` stands for the empty tree, the base of two sides
/// without a common ancestor. Each path of any of the three is merged by
/// [`merge_entry`]; nothing is resolved implicitly. Conflicts are part of
/// the result, not a failure: there is a merged tree, and its id is
/// returned, only where there are none. Fails where one of the three trees
/// cannot be read or the merged trees cannot be stored.
pub fn three_way_merge(
    store: &mut ObjectStore,
    base: Option<ObjectId>,
    ours: ObjectId,
    theirs: ObjectId,
) -> (r: Result<MergeOutcome, EngineError>)
    requires
        old(store).wf(),
    ensures
        r matches Err(e) ==> e.operation == Operation::Merge,
        final(store).wf(),
        old(store)@.submap_of(final(store)@),
        match r {
            Ok(out) => {
                &&& out.index.wf()
                &&& merge_of(old(store)@, base, ours, theirs) == Ok::<(MergeView, Objects), ErrorKind>(
                    (out@, final(store)@),
                )
                &&& merge_inputs(old(store)@, base, ours, theirs) matches Ok((b, o, t))
                &&& out.index@.map() == merged(b, o, t)
            },
            Err(e) => merge_of(old(store)@, base, ours, theirs) == Err::<
                (MergeView, Objects),
                ErrorKind,
            >(e.kind),
        },
{
    proof {
        reveal(merge_of);
    }
    let index = match merge_trees(store, base, ours, theirs) {
        Ok(x) => x,
        Err(e) => {
            return Err(e.during(Operation::Merge));
        },
    };
    proof {
        let (b, o, t) = merge_inputs(store@, base, ours, theirs)->Ok_0;
        lemma_merged_index(b, o, t, index@);
    }
    let conflicts = index.conflict_paths();
    if index.has_conflicts() {
        return Ok(MergeOutcome { tree_id: None, conflicts, index });
    }
    let base_is_theirs = match base {
        Some(b) => b == theirs,
        None => false,
    };
    let base_is_ours = match base {
        Some(b) => b == ours,
        None => false,
    };
    if base_is_theirs || ours == theirs {
        return Ok(MergeOutcome { tree_id: Some(ours), conflicts, index });
    }
    if base_is_ours {
        return Ok(MergeOutcome { tree_id: Some(theirs), conflicts, index });
    }
    match index.write_tree(store) {
        Ok(id) => Ok(MergeOutcome { tree_id: Some(id), conflicts, index }),
        Err(e) => Err(e.during(Operation::Merge)),
    }
}

/// The merged index of three trees.
fn merge_trees(store: &ObjectStore, base: Option<ObjectId>, ours: ObjectId, theirs: ObjectId) -> (r:
    Result<Index, EngineError>)
    requires
        store.wf(),
    ensures
        match r {
            Ok(x) => {
                &&& x.wf()
                &&& merge_inputs(store@, base, ours, theirs) matches Ok((b, o, t))
                &&& x@.map() == merged(b, o, t)
            },
            Err(e) => merge_inputs(store@, base, ours, theirs) == Err::<
                (Flat, Flat, Flat),
                ErrorKind,
            >(e.kind),
        },
{
    let b = match base {
        Some(id) => match Index::from_tree(store, id) {
            Ok(x) => x,
            Err(e) => {
                return Err(e);
            },
        },
        None => {
            let x = Index::new();
            assert(x@.items() =~= Map::<Seq<u8>, TreeItem>::empty());
            x
        },
    };
    let o = match Index::from_tree(store, ours) {
        Ok(x) => x,
        Err(e) => {
            return Err(e);
        },
    };
    let t = match Index::from_tree(store, theirs) {
        Ok(x) => x,
        Err(e) => {
            return Err(e);
        },
    };
    let mut out = Index::new();
    let ghost all = merged(b@.items(), o@.items(), t@.items());
    assert(out@.map() =~= all.restrict(Set::<Seq<u8>>::empty()));
    merge_paths(&mut out, &b, &b, &o, &t, Ghost(Set::<Seq<u8>>::empty()));
    let ghost d1 = Set::<Seq<u8>>::empty().union(b@.paths.to_set());
    merge_paths(&mut out, &o, &b, &o, &t, Ghost(d1));
    let ghost d2 = d1.union(o@.paths.to_set());
    merge_paths(&mut out, &t, &b, &o, &t, Ghost(d2));
    proof {
        let d3 = d2.union(t@.paths.to_set());
        assert(all.restrict(d3) =~= all) by {
            assert forall|p: Seq<u8>| all.contains_key(p) implies d3.contains(p) by {
                lemma_position_none(b@.paths, p);
                lemma_position_none(o@.paths, p);
                lemma_position_none(t@.paths, p);
            }
        }
    }
    Ok(out)
}

/// An index without conflicts binds each path to the resolved entry.
pub proof fn lemma_resolved_map(x: IndexView)
    requires
        x.wf(),
        !x.has_conflicts(),
    ensures
        forall|p: Seq<u8>|
            x.map().contains_key(p) == x.items().contains_key(p) && (x.items().contains_key(p)
                ==> #[trigger] x.map()[p] == Slot::Resolved(x.items()[p])),
{
    assert forall|p: Seq<u8>|
        x.map().contains_key(p) == x.items().contains_key(p) && (x.items().contains_key(p)
            ==> #[trigger] x.map()[p] == Slot::Resolved(x.items()[p])) by {
        if x.map().contains_key(p) {
            lemma_position_none(x.paths, p);
            let j = choose|j: int| 0 <= j < x.paths.len() && x.paths[j] == p;
            lemma_table_at(x.paths, x.slots, j);
            assert(!(x.slots[j] is Conflicted));
        }
    }
}

/// A well-formed index that holds the merge of a tree `t` with the base
/// itself, on either side, has no conflict and lists `t`.
pub proof fn lemma_one_side_index(b: Flat, t: Flat, x: IndexView)
    requires
        x.wf(),
        x.map() == merged(b, t, b) || x.map() == merged(b, b, t),
    ensures
        !x.has_conflicts(),
        x.items() == t,
{
    assert forall|i: int| 0 <= i < x.slots.len() implies !((#[trigger] x.slots[i]) is Conflicted) by {
        lemma_table_at(x.paths, x.slots, i);
        assert(x.map()[x.paths[i]] == x.slots[i]);
    }
    lemma_resolved_map(x);
    assert(x.items() =~= t);
}

/// Merging where only one side differs from the base gives that side, with
/// no conflict: `merge(base, x, base)` is `x`, and so is
/// `merge(base, base, x)`. In particular `merge(base, base, base)` is
/// `base`. The store does not change.
pub proof fn lemma_merge_one_side(m: Objects, base: ObjectId, x: ObjectId, listed: IndexView)
    requires
        tree_read(m, base) is Ok,
        tree_read(m, x) is Ok,
        listed.wf(),
        !listed.has_conflicts(),
        listed.items() == tree_read(m, x)->Ok_0,
    ensures
        merge_of(m, Some(base), x, base) == Ok::<(MergeView, Objects), ErrorKind>(
            (MergeView { tree_id: Some(x), conflicts: Seq::empty(), index: listed }, m),
        ),
        merge_of(m, Some(base), base, x) == merge_of(m, Some(base), x, base),
{
    reveal(merge_of);
    let b = tree_read(m, base)->Ok_0;
    let t = tree_read(m, x)->Ok_0;
    lemma_resolved_map(listed);
    assert(listed.map() =~= merged(b, t, b)) by {
        assert forall|p: Seq<u8>|
            merged(b, t, b).contains_key(p) == listed.map().contains_key(p) && (merged(
                b,
                t,
                b,
            ).contains_key(p) ==> merged(b, t, b)[p] == listed.map()[p]) by {
            assert(listed.items().contains_key(p) ==> listed.map()[p] == Slot::Resolved(
                listed.items()[p],
            ));
        }
    }
    assert(merged(b, b, t) =~= merged(b, t, b));
    lemma_merged_index(b, t, b, listed);
    lemma_merged_index(b, b, t, listed);
    lemma_no_conflict_paths(listed.paths, listed.slots);
    assert(conflict_paths(listed.paths, listed.slots) =~= Seq::<Seq<u8>>::empty());
}

/// An index without conflicts lists no path in conflict.
pub proof fn lemma_no_conflict_paths(paths: Seq<Seq<u8>>, slots: Seq<Slot>)
    requires
        forall|i: int| 0 <= i < slots.len() ==> !((#[trigger] slots[i]) is Conflicted),
    ensures
        conflict_paths(paths, slots).len() == 0,
    decreases paths.len(),
{
    if paths.len() > 0 && slots.len() > 0 {
        lemma_no_conflict_paths(paths.drop_last(), slots.drop_last());
    }
}

} // verus!
