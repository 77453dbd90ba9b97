//! The commit graph: parents, reachability, generations.

use vstd::prelude::*;
use crate::error::{EngineError, ErrorKind, Operation, Subject};
use crate::object::{Commit, CommitView, Object, ObjectView};
use crate::oid::ObjectId;
use crate::store::{read, ObjectStore, Objects};

verus! {

/// The commit stored under `id`, if `id` reads as a commit.
pub open spec fn commit_at(m: Objects, id: ObjectId) -> Option<CommitView> {
    match read(m, id) {
        Ok(ObjectView::Commit(c)) => Some(c),
        _ => None,
    }
}

/// Why `id` does not read as a commit: it is not stored (`NotFound`), what
/// is stored does not hash to it (`Corrupt`), or it is an object of another
/// kind (`InvalidArgument`). `None` where it does.
pub open spec fn commit_defect(m: Objects, id: ObjectId) -> Option<ErrorKind> {
    match read(m, id) {
        Err(k) => Some(k),
        Ok(ObjectView::Commit(_)) => None,
        Ok(_) => Some(ErrorKind::InvalidArgument),
    }
}

/// The parents of `id`; none where `id` does not read as a commit.
pub open spec fn parents(m: Objects, id: ObjectId) -> Seq<ObjectId> {
    match commit_at(m, id) {
        Some(c) => c.parents,
        None => Seq::empty(),
    }
}

/// A chain of parent links: each id is a parent of the one before it.
pub open spec fn is_chain(m: Objects, p: Seq<ObjectId>) -> bool {
    p.len() >= 1 && forall|i: int| 0 <= i < p.len() - 1 ==> parents(m, #[trigger] p[i]).contains(p[i + 1])
}

/// `to` is `from` or an ancestor of it.
#[verifier::opaque]
pub open spec fn reaches(m: Objects, from: ObjectId, to: ObjectId) -> bool {
    exists|p: Seq<ObjectId>| is_chain(m, p) && p[0] == from && #[trigger] p.last() == to
}

/// `id` is one of `roots` or an ancestor of one.
pub open spec fn reached_from(m: Objects, roots: Seq<ObjectId>, id: ObjectId) -> bool {
    exists|i: int| 0 <= i < roots.len() && reaches(m, #[trigger] roots[i], id)
}

/// Every id reaches itself.
pub proof fn lemma_reaches_self(m: Objects, id: ObjectId)
    ensures
        reaches(m, id, id),
{
    reveal(reaches);
    let p = seq![id];
    assert(is_chain(m, p) && p[0] == id && p.last() == id);
}

/// Reachability extends along a parent link.
pub proof fn lemma_reaches_step(m: Objects, a: ObjectId, b: ObjectId, c: ObjectId)
    requires
        reaches(m, a, b),
        parents(m, b).contains(c),
    ensures
        reaches(m, a, c),
{
    reveal(reaches);
    let p = choose|p: Seq<ObjectId>| is_chain(m, p) && p[0] == a && #[trigger] p.last() == b;
    let q = p.push(c);
    assert forall|i: int| 0 <= i < q.len() - 1 implies parents(m, #[trigger] q[i]).contains(
        q[i + 1],
    ) by {
        if i < p.len() - 1 {
            assert(q[i] == p[i] && q[i + 1] == p[i + 1]);
        }
    }
    assert(is_chain(m, q) && q[0] == a && q.last() == c);
}

/// Reachability is transitive.
pub proof fn lemma_reaches_transitive(m: Objects, a: ObjectId, b: ObjectId, c: ObjectId)
    requires
        reaches(m, a, b),
        reaches(m, b, c),
    ensures
        reaches(m, a, c),
{
    reveal(reaches);
    let p = choose|p: Seq<ObjectId>| is_chain(m, p) && p[0] == a && #[trigger] p.last() == b;
    let q = choose|q: Seq<ObjectId>| is_chain(m, q) && q[0] == b && #[trigger] q.last() == c;
    let r = p + q.drop_first();
    assert forall|i: int| 0 <= i < r.len() - 1 implies parents(m, #[trigger] r[i]).contains(
        r[i + 1],
    ) by {
        if i < p.len() - 1 {
            assert(r[i] == p[i] && r[i + 1] == p[i + 1]);
        } else {
            let j = i - (p.len() - 1);
            assert(r[i] == q[j]);
            assert(r[i + 1] == q[j + 1]);
        }
    }
    assert(r[0] == a);
    if q.len() == 1 {
        assert(r =~= p);
    } else {
        assert(r.last() == q.last());
    }
    assert(is_chain(m, r) && r[0] == a && r.last() == c);
}

/// A set of ids that holds `from` and, with each id, its parents, holds all
/// that `from` reaches.
pub proof fn lemma_closed_holds(m: Objects, s: Seq<ObjectId>, from: ObjectId, to: ObjectId)
    requires
        s.contains(from),
        forall|x: ObjectId, k: int|
            s.contains(x) && 0 <= k < parents(m, x).len() ==> s.contains(
                #[trigger] parents(m, x)[k],
            ),
        reaches(m, from, to),
    ensures
        s.contains(to),
{
    reveal(reaches);
    let p = choose|p: Seq<ObjectId>| is_chain(m, p) && p[0] == from && #[trigger] p.last() == to;
    lemma_chain_inside(m, s, p, p.len() - 1);
}

proof fn lemma_chain_inside(m: Objects, s: Seq<ObjectId>, p: Seq<ObjectId>, at: int)
    requires
        is_chain(m, p),
        s.contains(p[0]),
        forall|x: ObjectId, k: int|
            s.contains(x) && 0 <= k < parents(m, x).len() ==> s.contains(
                #[trigger] parents(m, x)[k],
            ),
        0 <= at < p.len(),
    ensures
        s.contains(p[at]),
    decreases at,
{
    if at > 0 {
        lemma_chain_inside(m, s, p, at - 1);
        assert(parents(m, p[at - 1]).contains(p[at]));
        let ps = parents(m, p[at - 1]);
        let k = choose|k: int| 0 <= k < ps.len() && ps[k] == p[at];
        assert(s.contains(parents(m, p[at - 1])[k]));
    }
}

/// A list without repetition of ids that are all stored is no longer than
/// the store.
pub proof fn lemma_distinct_bound(m: Objects, s: Seq<ObjectId>)
    requires
        m.dom().finite(),
        s.no_duplicates(),
        forall|i: int| 0 <= i < s.len() ==> m.contains_key(#[trigger] s[i]),
    ensures
        s.len() <= m.dom().len(),
{
    s.unique_seq_to_set();
    assert(s.to_set().subset_of(m.dom())) by {
        assert forall|x: ObjectId| s.to_set().contains(x) implies m.dom().contains(x) by {
            let i = choose|i: int| 0 <= i < s.len() && s[i] == x;
            assert(m.contains_key(s[i]));
        }
    }
    vstd::set_lib::lemma_len_subset(s.to_set(), m.dom());
}

/// Reads `id` as a commit.
pub fn get_commit(store: &ObjectStore, id: ObjectId, operation: Operation) -> (r: Result<
    &Commit,
    EngineError,
>)
    requires
        store.wf(),
    ensures
        match r {
            Ok(c) => commit_at(store@, id) == Some(c@) && commit_defect(store@, id) is None,
            Err(e) => commit_defect(store@, id) == Some(e.kind) && e.operation == operation
                && e.subject == Subject::Object(id),
        },
{
    match store.get(id) {
        Ok(o) => match o {
            Object::Commit(c) => Ok(c),
            _ => Err(EngineError::about_object(ErrorKind::InvalidArgument, operation, id)),
        },
        Err(e) => Err(EngineError::about_object(e.kind, operation, id)),
    }
}

/// Whether `id` occurs in `ids`.
pub fn ids_contain(ids: &Vec<ObjectId>, id: ObjectId) -> (r: bool)
    ensures
        r == ids@.contains(id),
{
    let mut i: usize = 0;
    while i < ids.len()
        invariant
            i <= ids@.len(),
            forall|j: int| 0 <= j < i ==> ids@[j] != id,
        decreases ids@.len() - i,
    {
        if ids[i] == id {
            return true;
        }
        i += 1;
    }
    false
}

/// The position of `id` in `ids`, if it occurs.
pub fn ids_find(ids: &Vec<ObjectId>, id: ObjectId) -> (r: Option<usize>)
    ensures
        match r {
            Some(i) => i < ids@.len() && ids@[i as int] == id,
            None => !ids@.contains(id),
        },
{
    let mut i: usize = 0;
    while i < ids.len()
        invariant
            i <= ids@.len(),
            forall|j: int| 0 <= j < i ==> ids@[j] != id,
        decreases ids@.len() - i,
    {
        if ids[i] == id {
            return Some(i);
        }
        i += 1;
    }
    None
}

/// Every id that `roots` reach reads as a commit.
pub open spec fn history_complete(m: Objects, roots: Seq<ObjectId>) -> bool {
    forall|id: ObjectId| #[trigger] reached_from(m, roots, id) ==> commit_defect(m, id) is None
}

/// `v` lists, without repetition, exactly what `roots` reach.
pub open spec fn lists_history(m: Objects, roots: Seq<ObjectId>, v: Seq<ObjectId>) -> bool {
    &&& v.no_duplicates()
    &&& forall|id: ObjectId|
        #![trigger v.contains(id)]
        #![trigger reached_from(m, roots, id)]
        v.contains(id) <==> reached_from(m, roots, id)
}

/// Everything in `s` is reached from `roots`.
pub open spec fn all_reached(m: Objects, roots: Seq<ObjectId>, s: Seq<ObjectId>) -> bool {
    forall|x: ObjectId| #[trigger] s.contains(x) ==> reached_from(m, roots, x)
}

/// `x` reads as a commit and `s` holds its parents.
pub open spec fn settled(m: Objects, s: Seq<ObjectId>, x: ObjectId) -> bool {
    commit_defect(m, x) is None && forall|p: ObjectId|
        #[trigger] parents(m, x).contains(p) ==> s.contains(p)
}

/// Appends to `out` those of `ids` that it does not hold yet.
fn absorb(out: &mut Vec<ObjectId>, ids: &Vec<ObjectId>)
    requires
        old(out)@.no_duplicates(),
    ensures
        final(out)@.no_duplicates(),
        old(out)@.len() <= final(out)@.len(),
        final(out)@.subrange(0, old(out)@.len() as int) == old(out)@,
        forall|x: ObjectId|
            #[trigger] final(out)@.contains(x) <==> old(out)@.contains(x) || ids@.contains(x),
{
    let mut j: usize = 0;
    while j < ids.len()
        invariant
            j <= ids@.len(),
            out@.no_duplicates(),
            old(out)@.len() <= out@.len(),
            out@.subrange(0, old(out)@.len() as int) == old(out)@,
            forall|x: ObjectId|
                #[trigger] out@.contains(x) <==> old(out)@.contains(x) || ids@.subrange(
                    0,
                    j as int,
                ).contains(x),
        decreases ids@.len() - j,
    {
        let p = ids[j];
        let ghost before = out@;
        let ghost seen = ids@.subrange(0, j as int);
        let ghost seen2 = ids@.subrange(0, j + 1);
        assert(seen2 =~= seen.push(p));
        if !ids_contain(out, p) {
            out.push(p);
            assert(out@ =~= before.push(p));
            assert(out@.subrange(0, old(out)@.len() as int) =~= before.subrange(
                0,
                old(out)@.len() as int,
            ));
            assert forall|x: ObjectId| #[trigger] out@.contains(x) <==> old(out)@.contains(x)
                || seen2.contains(x) by {
                vstd::seq_lib::lemma_seq_contains_after_push(before, p, x);
                vstd::seq_lib::lemma_seq_contains_after_push(seen, p, x);
            }
        } else {
            assert forall|x: ObjectId| #[trigger] out@.contains(x) <==> old(out)@.contains(x)
                || seen2.contains(x) by {
                vstd::seq_lib::lemma_seq_contains_after_push(seen, p, x);
            }
        }
        j += 1;
    }
    assert(ids@.subrange(0, j as int) =~= ids@);
}

/// The roots and all their ancestors, each once. Fails where one of them
/// does not read as a commit, with that id and the reason.
pub fn ancestors(store: &ObjectStore, roots: &Vec<ObjectId>) -> (r: Result<
    Vec<ObjectId>,
    EngineError,
>)
    requires
        store.wf(),
    ensures
        match r {
            Ok(v) => history_complete(store@, roots@) && lists_history(store@, roots@, v@),
            Err(e) => exists|bad: ObjectId|
                reached_from(store@, roots@, bad) && commit_defect(store@, bad) == Some(e.kind)
                    && e.subject == Subject::Object(bad) && e.operation == Operation::Walk,
        },
{
    let mut out: Vec<ObjectId> = Vec::new();
    absorb(&mut out, roots);
    proof {
        assert forall|x: ObjectId| #[trigger] out@.contains(x) implies reached_from(
            store@,
            roots@,
            x,
        ) by {
            let k = choose|k: int| 0 <= k < roots@.len() && roots@[k] == x;
            lemma_reaches_self(store@, x);
            assert(reaches(store@, roots@[k], x));
        }
    }
    let mut i: usize = 0;
    while i < out.len()
        invariant
            store.wf(),
            i <= out@.len(),
            out@.no_duplicates(),
            all_reached(store@, roots@, out@),
            forall|x: ObjectId| #[trigger] roots@.contains(x) ==> out@.contains(x),
            forall|k: int| 0 <= k < i ==> settled(store@, out@, #[trigger] out@[k]),
        decreases store.count() - i,
    {
        let id = out[i];
        assert(out@.contains(id));
        let commit = match get_commit(store, id, Operation::Walk) {
            Ok(c) => c,
            Err(e) => {
                return Err(e);
            },
        };
        proof {
            store.lemma_wf();
            let prefix = out@.subrange(0, i + 1);
            assert forall|k: int| 0 <= k < prefix.len() implies store@.contains_key(
                #[trigger] prefix[k],
            ) by {
                if k < i {
                    assert(settled(store@, out@, out@[k]));
                }
            }
            lemma_distinct_bound(store@, prefix);
        }
        let ghost before = out@;
        absorb(&mut out, &commit.parents);
        proof {
            assert forall|x: ObjectId| #[trigger] out@.contains(x) implies reached_from(
                store@,
                roots@,
                x,
            ) by {
                if !before.contains(x) {
                    lemma_reached_step(store@, roots@, id, x);
                }
            }
            assert forall|k: int| 0 <= k < i + 1 implies settled(
                store@,
                out@,
                #[trigger] out@[k],
            ) by {
                assert(out@[k] == before[k]) by {
                    assert(out@.subrange(0, before.len() as int)[k] == before[k]);
                }
                if k < i {
                    assert(settled(store@, before, before[k]));
                }
            }
        }
        i += 1;
    }
    proof {
        assert forall|id: ObjectId| #[trigger]
            reached_from(store@, roots@, id) implies out@.contains(id) && commit_defect(
            store@,
            id,
        ) is None by {
            let w = choose|w: int| 0 <= w < roots@.len() && reaches(store@, #[trigger] roots@[w], id);
            assert(roots@.contains(roots@[w]));
            assert forall|x: ObjectId, k: int|
                out@.contains(x) && 0 <= k < parents(store@, x).len() implies out@.contains(
                #[trigger] parents(store@, x)[k],
            ) by {
                let n = choose|n: int| 0 <= n < out@.len() && out@[n] == x;
                assert(settled(store@, out@, out@[n]));
                assert(parents(store@, x).contains(parents(store@, x)[k]));
            }
            lemma_closed_holds(store@, out@, roots@[w], id);
            let n = choose|n: int| 0 <= n < out@.len() && out@[n] == id;
            assert(settled(store@, out@, out@[n]));
        }
    }
    Ok(out)
}

/// What is reached from `roots` has its parents reached from them too.
pub proof fn lemma_reached_step(m: Objects, roots: Seq<ObjectId>, id: ObjectId, p: ObjectId)
    requires
        reached_from(m, roots, id),
        parents(m, id).contains(p),
    ensures
        reached_from(m, roots, p),
{
    let w = choose|w: int| 0 <= w < roots.len() && reaches(m, #[trigger] roots[w], id);
    lemma_reaches_step(m, roots[w], id, p);
}

/// The generation of `id`, computed with at most `fuel` nested steps: 0 for
/// a commit without parents, else one more than the greatest generation
/// among its parents. `None` where `fuel` does not suffice, or where `id`
/// or an ancestor does not read as a commit.
pub open spec fn generation_within(m: Objects, id: ObjectId, fuel: nat) -> Option<nat>
    decreases fuel, 0nat,
{
    if fuel == 0 || commit_at(m, id) is None {
        None
    } else {
        above(m, parents(m, id), (fuel - 1) as nat)
    }
}

/// The least number above the generations of all of `ps`.
pub open spec fn above(m: Objects, ps: Seq<ObjectId>, fuel: nat) -> Option<nat>
    decreases fuel, ps.len(),
{
    if ps.len() == 0 {
        Some(0)
    } else {
        match (above(m, ps.drop_last(), fuel), generation_within(m, ps.last(), fuel)) {
            (Some(a), Some(g)) => Some(if a > g { a } else { g + 1 }),
            _ => None,
        }
    }
}

/// The generation of `id`: its distance from the roots of history, by the
/// longest way. `None` where the history of `id` has a cycle or holds an id
/// that does not read as a commit.
pub open spec fn generation(m: Objects, id: ObjectId) -> Option<nat> {
    if exists|f: nat| generation_within(m, id, f) is Some {
        generation_within(m, id, choose|f: nat| generation_within(m, id, f) is Some)
    } else {
        None
    }
}

/// More fuel does not change a generation that less fuel found.
pub proof fn lemma_generation_fuel(m: Objects, id: ObjectId, f1: nat, f2: nat)
    requires
        generation_within(m, id, f1) is Some,
        f1 <= f2,
    ensures
        generation_within(m, id, f2) == generation_within(m, id, f1),
    decreases f1, 0nat,
{
    lemma_above_fuel(m, parents(m, id), (f1 - 1) as nat, (f2 - 1) as nat);
}

proof fn lemma_above_fuel(m: Objects, ps: Seq<ObjectId>, f1: nat, f2: nat)
    requires
        above(m, ps, f1) is Some,
        f1 <= f2,
    ensures
        above(m, ps, f2) == above(m, ps, f1),
    decreases f1, ps.len() + 1,
{
    if ps.len() > 0 {
        lemma_above_fuel(m, ps.drop_last(), f1, f2);
        lemma_generation_fuel(m, ps.last(), f1, f2);
    }
}

/// Whatever fuel finds a generation finds the generation.
pub proof fn lemma_generation(m: Objects, id: ObjectId, f: nat)
    requires
        generation_within(m, id, f) is Some,
    ensures
        generation(m, id) == generation_within(m, id, f),
{
    let f0 = choose|f0: nat| generation_within(m, id, f0) is Some;
    if f0 <= f {
        lemma_generation_fuel(m, id, f0, f);
    } else {
        lemma_generation_fuel(m, id, f, f0);
    }
}

proof fn lemma_above_member(m: Objects, ps: Seq<ObjectId>, fuel: nat, k: int)
    requires
        above(m, ps, fuel) is Some,
        0 <= k < ps.len(),
    ensures
        generation_within(m, ps[k], fuel) is Some,
        generation_within(m, ps[k], fuel)->0 < above(m, ps, fuel)->0,
    decreases ps.len(),
{
    if k < ps.len() - 1 {
        lemma_above_member(m, ps.drop_last(), fuel, k);
    }
}

/// A commit with a generation has parents with smaller generations.
pub proof fn lemma_generation_parent(m: Objects, id: ObjectId, p: ObjectId)
    requires
        generation(m, id) is Some,
        parents(m, id).contains(p),
    ensures
        generation(m, p) is Some,
        generation(m, p)->0 < generation(m, id)->0,
        commit_defect(m, id) is None,
{
    let f = choose|f: nat| generation_within(m, id, f) is Some;
    let ps = parents(m, id);
    let k = choose|k: int| 0 <= k < ps.len() && ps[k] == p;
    lemma_above_member(m, ps, (f - 1) as nat, k);
    lemma_generation(m, p, (f - 1) as nat);
}

/// Along a chain that starts at a commit with a generation, generations
/// fall.
proof fn lemma_chain_falls(m: Objects, p: Seq<ObjectId>, at: int)
    requires
        is_chain(m, p),
        generation(m, p[0]) is Some,
        0 <= at < p.len(),
    ensures
        generation(m, p[at]) is Some,
        generation(m, p[at])->0 + at <= generation(m, p[0])->0,
    decreases at,
{
    if at > 0 {
        lemma_chain_falls(m, p, at - 1);
        lemma_generation_parent(m, p[at - 1], p[at]);
    }
}

/// What a commit with a generation reaches has a generation too: a smaller
/// one, unless it is the commit itself.
pub proof fn lemma_generation_reaches(m: Objects, from: ObjectId, to: ObjectId)
    requires
        generation(m, from) is Some,
        reaches(m, from, to),
    ensures
        generation(m, to) is Some,
        commit_defect(m, to) is None,
        generation(m, to)->0 <= generation(m, from)->0,
        to != from ==> generation(m, to)->0 < generation(m, from)->0,
{
    reveal(reaches);
    let p = choose|p: Seq<ObjectId>| is_chain(m, p) && p[0] == from && #[trigger] p.last() == to;
    lemma_chain_falls(m, p, p.len() - 1);
    assert(commit_at(m, to) is Some);
}

/// In a set of ids of which each has a parent in the set, or does not read
/// as a commit, none has a generation.
pub proof fn lemma_no_generation(m: Objects, stuck: Set<ObjectId>, id: ObjectId, fuel: nat)
    requires
        forall|x: ObjectId| #[trigger]
            stuck.contains(x) ==> commit_at(m, x) is None || exists|k: int|
                0 <= k < parents(m, x).len() && stuck.contains(#[trigger] parents(m, x)[k]),
        stuck.contains(id),
    ensures
        generation_within(m, id, fuel) is None,
    decreases fuel,
{
    if fuel > 0 && commit_at(m, id) is Some {
        let ps = parents(m, id);
        let k = choose|k: int| 0 <= k < ps.len() && stuck.contains(#[trigger] ps[k]);
        lemma_no_generation(m, stuck, ps[k], (fuel - 1) as nat);
        if above(m, ps, (fuel - 1) as nat) is Some {
            lemma_above_member(m, ps, (fuel - 1) as nat, k);
        }
    }
}

/// With `fuel`, each of `order` has the generation that `gens` gives at the
/// same position, and that is no more than the position.
pub open spec fn ranked(m: Objects, order: Seq<ObjectId>, gens: Seq<usize>, fuel: nat) -> bool {
    &&& order.len() == gens.len()
    &&& forall|k: int|
        0 <= k < order.len() ==> generation_within(m, #[trigger] order[k], fuel) == Some(
            gens[k] as nat,
        ) && gens[k] <= k
}

/// A list without repetition whose members all occur in `b` is no longer
/// than `b`.
pub proof fn lemma_distinct_within(a: Seq<ObjectId>, b: Seq<ObjectId>)
    requires
        a.no_duplicates(),
        forall|x: ObjectId| #[trigger] a.contains(x) ==> b.contains(x),
    ensures
        a.len() <= b.len(),
{
    a.unique_seq_to_set();
    b.lemma_cardinality_of_set();
    assert(a.to_set().subset_of(b.to_set()));
    vstd::seq_lib::seq_to_set_is_finite(b);
    vstd::set_lib::lemma_len_subset(a.to_set(), b.to_set());
}

/// Two lists without repetition, of the same length, one within the other,
/// have the same members.
pub proof fn lemma_distinct_same(a: Seq<ObjectId>, b: Seq<ObjectId>)
    requires
        a.no_duplicates(),
        b.no_duplicates(),
        a.len() == b.len(),
        forall|x: ObjectId| #[trigger] a.contains(x) ==> b.contains(x),
    ensures
        forall|x: ObjectId| #[trigger] b.contains(x) ==> a.contains(x),
{
    a.unique_seq_to_set();
    b.unique_seq_to_set();
    assert(a.to_set().subset_of(b.to_set()));
    vstd::seq_lib::seq_to_set_is_finite(a);
    vstd::seq_lib::seq_to_set_is_finite(b);
    vstd::set_lib::lemma_subset_equality(a.to_set(), b.to_set());
    assert forall|x: ObjectId| #[trigger] b.contains(x) implies a.contains(x) by {
        assert(b.to_set().contains(x));
        assert(a.to_set().contains(x));
    }
}

/// The least number above the generations of `ps`, where `order` holds them
/// all; `None` where it misses one.
fn rank_above(
    order: &Vec<ObjectId>,
    gens: &Vec<usize>,
    ps: &Vec<ObjectId>,
    Ghost(m): Ghost<Objects>,
    Ghost(fuel): Ghost<nat>,
) -> (r: Option<usize>)
    requires
        ranked(m, order@, gens@, fuel),
    ensures
        match r {
            Some(t) => above(m, ps@, fuel) == Some(t as nat) && t <= order@.len(),
            None => exists|j: int| 0 <= j < ps@.len() && !order@.contains(#[trigger] ps@[j]),
        },
{
    let mut top: usize = 0;
    let mut j: usize = 0;
    let n = order.len();
    while j < ps.len()
        invariant
            j <= ps@.len(),
            n == order@.len(),
            ranked(m, order@, gens@, fuel),
            above(m, ps@.take(j as int), fuel) == Some(top as nat),
            top <= order@.len(),
        decreases ps@.len() - j,
    {
        match ids_find(order, ps[j]) {
            None => {
                return None;
            },
            Some(k) => {
                proof {
                    let next = ps@.take(j + 1);
                    assert(next.drop_last() =~= ps@.take(j as int));
                    assert(next.last() == order@[k as int]);
                    assert(gens@[k as int] <= k);
                }
                let g = gens[k];
                if g >= top {
                    top = g + 1;
                }
            },
        }
        j += 1;
    }
    assert(ps@.take(j as int) =~= ps@);
    Some(top)
}

/// `x` has a parent outside `s`.
pub open spec fn blocked(m: Objects, s: Seq<ObjectId>, x: ObjectId) -> bool {
    exists|k: int| 0 <= k < parents(m, x).len() && !s.contains(#[trigger] parents(m, x)[k])
}

/// The generation of each member of `v`, a list without repetition that
/// holds, with each commit, its parents (as [`ancestors`] gives it). The
/// result lists the members of `v` again and, beside each, its generation.
/// A cycle among them is a corrupt history.
pub fn generations(store: &ObjectStore, v: &Vec<ObjectId>) -> (r: Result<
    (Vec<ObjectId>, Vec<usize>),
    EngineError,
>)
    requires
        store.wf(),
        v@.no_duplicates(),
        forall|k: int| 0 <= k < v@.len() ==> settled(store@, v@, #[trigger] v@[k]),
    ensures
        match r {
            Ok((order, gens)) => {
                &&& order@.len() == v@.len()
                &&& gens@.len() == v@.len()
                &&& order@.no_duplicates()
                &&& forall|x: ObjectId| #[trigger] order@.contains(x) <==> v@.contains(x)
                &&& forall|k: int|
                    0 <= k < order@.len() ==> generation(store@, #[trigger] order@[k]) == Some(
                        gens@[k] as nat,
                    )
            },
            Err(e) => exists|bad: ObjectId|
                v@.contains(bad) && generation(store@, bad) is None && e.subject
                    == Subject::Object(bad) && e.kind == ErrorKind::Corrupt && e.operation
                    == Operation::Walk,
        },
{
    let mut order: Vec<ObjectId> = Vec::new();
    let mut gens: Vec<usize> = Vec::new();
    let ghost mut fuel: nat = 0;
    while order.len() < v.len()
        invariant
            store.wf(),
            v@.no_duplicates(),
            forall|k: int| 0 <= k < v@.len() ==> settled(store@, v@, #[trigger] v@[k]),
            order@.no_duplicates(),
            forall|x: ObjectId| #[trigger] order@.contains(x) ==> v@.contains(x),
            ranked(store@, order@, gens@, fuel),
            order@.len() <= v@.len(),
        decreases v@.len() - order@.len(),
    {
        let start = order.len();
        let mut j: usize = 0;
        while j < v.len()
            invariant
                store.wf(),
                j <= v@.len(),
                v@.no_duplicates(),
                forall|k: int| 0 <= k < v@.len() ==> settled(store@, v@, #[trigger] v@[k]),
                order@.no_duplicates(),
                forall|x: ObjectId| #[trigger] order@.contains(x) ==> v@.contains(x),
                ranked(store@, order@, gens@, fuel),
                start <= order@.len(),
                order@.len() <= v@.len(),
                order@.len() == start ==> forall|k: int|
                    0 <= k < j ==> order@.contains(#[trigger] v@[k]) || blocked(
                        store@,
                        order@,
                        v@[k],
                    ),
            decreases v@.len() - j,
        {
            let x = v[j];
            assert(settled(store@, v@, v@[j as int]));
            assert(v@.contains(x));
            if !ids_contain(&order, x) {
                match get_commit(store, x, Operation::Walk) {
                    Err(e) => {
                        return Err(e);
                    },
                    Ok(commit) => {
                        match rank_above(&order, &gens, &commit.parents, Ghost(store@), Ghost(fuel)) {
                            None => {},
                            Some(t) => {
                                let ghost before = order@;
                                let ghost gens_before = gens@;
                                order.push(x);
                                gens.push(t);
                                proof {
                                    assert forall|k: int| 0 <= k < order@.len() implies generation_within(
                                        store@,
                                        #[trigger] order@[k],
                                        fuel + 1,
                                    ) == Some(gens@[k] as nat) && gens@[k] <= k by {
                                        if k < before.len() {
                                            assert(order@[k] == before[k]);
                                            assert(gens@[k] == gens_before[k]);
                                            lemma_generation_fuel(store@, before[k], fuel, fuel + 1);
                                        }
                                    }
                                    fuel = fuel + 1;
                                    assert forall|y: ObjectId| #[trigger]
                                        order@.contains(y) implies v@.contains(y) by {
                                        vstd::seq_lib::lemma_seq_contains_after_push(before, x, y);
                                    }
                                    lemma_distinct_within(order@, v@);
                                }
                            },
                        }
                    },
                }
            }
            j += 1;
        }
        if order.len() == start {
            let mut k: usize = 0;
            while k < v.len()
                invariant
                    k <= v@.len(),
                    forall|i: int| 0 <= i < v@.len() ==> settled(store@, v@, #[trigger] v@[i]),
                    forall|i: int|
                        0 <= i < v@.len() ==> order@.contains(#[trigger] v@[i]) || blocked(
                            store@,
                            order@,
                            v@[i],
                        ),
                    forall|i: int| 0 <= i < k ==> order@.contains(#[trigger] v@[i]),
                    order@.len() < v@.len(),
                    v@.no_duplicates(),
                decreases v@.len() - k,
            {
                if !ids_contain(&order, v[k]) {
                    proof {
                        let bad = v@[k as int];
                        let stuck = Set::new(|y: ObjectId| v@.contains(y) && !order@.contains(y));
                        assert forall|y: ObjectId| #[trigger] stuck.contains(y) implies commit_at(
                            store@,
                            y,
                        ) is None || exists|n: int|
                            0 <= n < parents(store@, y).len() && stuck.contains(
                                #[trigger] parents(store@, y)[n],
                            ) by {
                            let i = choose|i: int| 0 <= i < v@.len() && v@[i] == y;
                            assert(order@.contains(v@[i]) || blocked(store@, order@, v@[i]));
                            let n = choose|n: int|
                                0 <= n < parents(store@, y).len() && !order@.contains(
                                    #[trigger] parents(store@, y)[n],
                                );
                            assert(settled(store@, v@, v@[i]));
                            assert(parents(store@, y).contains(parents(store@, y)[n]));
                            assert(stuck.contains(parents(store@, y)[n]));
                        }
                        assert(stuck.contains(bad));
                        assert forall|f: nat| generation_within(store@, bad, f) is None by {
                            lemma_no_generation(store@, stuck, bad, f);
                        }
                    }
                    return Err(
                        EngineError::about_object(ErrorKind::Corrupt, Operation::Walk, v[k]),
                    );
                }
                k += 1;
            }
            proof {
                assert forall|x: ObjectId| #[trigger] v@.contains(x) implies order@.contains(x) by {
                    let i = choose|i: int| 0 <= i < v@.len() && v@[i] == x;
                    assert(order@.contains(v@[i]));
                }
                lemma_distinct_within(v@, order@);
            }
            return Ok((order, gens));
        }
    }
    proof {
        lemma_distinct_same(order@, v@);
        assert forall|k: int| 0 <= k < order@.len() implies generation(
            store@,
            #[trigger] order@[k],
        ) == Some(gens@[k] as nat) by {
            lemma_generation(store@, order@[k], fuel);
        }
    }
    Ok((order, gens))
}

} // verus!
