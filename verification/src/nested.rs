//! Trees of trees. The index and the merge see a tree flat, as a map from
//! whole paths to entries; the object store holds it nested, one tree for
//! each directory, built bottom-up. A directory stands in its tree under
//! its name followed by a slash, which puts it where the canonical order
//! of entries wants it.

use vstd::prelude::*;
use crate::bytes::{bytes_append, bytes_copy, bytes_range, bytes_start_with, lemma_lex_transitive,
    lex_lt};
use crate::error::{EngineError, ErrorKind, Operation};
use crate::index::{get_tree, tree_at, Index, IndexView, Slot};
use crate::keys::{ascending, find_key, is_slot, lemma_insert_contains, lemma_position_none,
    lemma_table_at, lemma_table_insert, lemma_table_unique, lines, slot_of, table};
use crate::object::{FileMode, Object, ObjectView, Tree, TreeItem, TreeView};
use crate::oid::ObjectId;
use crate::paths::{head, head_len, lemma_head_of_join, lemma_head_tail, names_directory, tail,
    valid_path, SLASH};
use crate::store::{lemma_extends_twice, stored, ObjectStore, Objects};

verus! {

/// A tree seen flat: whole paths bound to the entries of files.
pub type Flat = Map<Seq<u8>, TreeItem>;

/// How deep directories may nest.
pub const MAX_DEPTH: usize = 1024;

/// Every path of `f` is valid and names a file: no entry has the mode of
/// a directory.
pub open spec fn all_valid(f: Flat) -> bool {
    forall|p: Seq<u8>| #[trigger]
        f.contains_key(p) ==> valid_path(p) && f[p].mode != FileMode::Directory
}

/// The heads of the paths of `f`: the names of the files and, each with
/// its slash, of the directories at the top.
pub open spec fn heads(f: Flat) -> Set<Seq<u8>> {
    Set::new(|h: Seq<u8>| exists|p: Seq<u8>| #[trigger] f.contains_key(p) && head(p) == h)
}

/// What `f` holds below the directory `h`, each path without `h`.
pub open spec fn under(f: Flat, h: Seq<u8>) -> Flat {
    Map::new(|q: Seq<u8>| q.len() > 0 && f.contains_key(h + q), |q: Seq<u8>| f[h + q])
}

/// `ks` lists the members of `s` in ascending order.
pub open spec fn lists_set(ks: Seq<Seq<u8>>, s: Set<Seq<u8>>) -> bool {
    ascending(ks) && forall|k: Seq<u8>| #[trigger] ks.contains(k) <==> s.contains(k)
}

/// The members of a finite set in ascending order.
pub open spec fn sorted_keys(s: Set<Seq<u8>>) -> Seq<Seq<u8>> {
    choose|ks: Seq<Seq<u8>>| lists_set(ks, s)
}

/// There is one ascending list of the members of a set.
pub proof fn lemma_sorted_keys(ks: Seq<Seq<u8>>, s: Set<Seq<u8>>)
    requires
        lists_set(ks, s),
    ensures
        sorted_keys(s) == ks,
{
    let c = sorted_keys(s);
    assert(lists_set(c, s));
    assert forall|q: Seq<u8>| #[trigger]
        table(ks, ks).contains_key(q) == table(c, c).contains_key(q) && (table(
            ks,
            ks,
        ).contains_key(q) ==> table(ks, ks)[q] == table(c, c)[q]) by {
        lemma_position_none(ks, q);
        lemma_position_none(c, q);
        assert(ks.contains(q) <==> s.contains(q));
        assert(c.contains(q) <==> s.contains(q));
        if ks.contains(q) {
            assert(table(ks, ks)[q] == q);
            assert(table(c, c)[q] == q);
        }
    }
    assert(table(ks, ks) =~= table(c, c));
    lemma_table_unique(ks, ks, c, c);
}

/// How many of `ks` are below `k`.
pub open spec fn lower(ks: Seq<Seq<u8>>, k: Seq<u8>) -> int
    decreases ks.len(),
{
    if ks.len() == 0 {
        0
    } else if lex_lt(ks.last(), k) {
        ks.len() as int
    } else {
        lower(ks.drop_last(), k)
    }
}

proof fn lemma_lower(ks: Seq<Seq<u8>>, k: Seq<u8>)
    requires
        ascending(ks),
    ensures
        is_slot(ks, k, lower(ks, k)),
    decreases ks.len(),
{
    if ks.len() > 0 {
        let n = ks.len() - 1;
        if lex_lt(ks.last(), k) {
            assert forall|i: int| 0 <= i < ks.len() implies lex_lt(#[trigger] ks[i], k) by {
                if i < n {
                    assert(lex_lt(ks[i], ks[n]));
                    lemma_lex_transitive(ks[i], ks[n], k);
                }
            }
        } else {
            let prev = ks.drop_last();
            assert(ascending(prev)) by {
                assert forall|i: int, j: int| 0 <= i < j < prev.len() implies lex_lt(
                    #[trigger] prev[i],
                    #[trigger] prev[j],
                ) by {
                    assert(prev[i] == ks[i] && prev[j] == ks[j]);
                }
            }
            lemma_lower(prev, k);
            let at = lower(prev, k);
            assert forall|i: int| 0 <= i < at implies lex_lt(#[trigger] ks[i], k) by {
                assert(ks[i] == prev[i]);
            }
            assert forall|i: int| at <= i < ks.len() implies !lex_lt(#[trigger] ks[i], k) by {
                if i < n {
                    assert(ks[i] == prev[i]);
                }
            }
        }
    }
}

/// A finite set of byte strings has an ascending list of its members.
pub proof fn lemma_listing_exists(s: Set<Seq<u8>>)
    requires
        s.finite(),
    ensures
        lists_set(sorted_keys(s), s),
    decreases s.len(),
{
    if s.len() == 0 {
        let ks = Seq::<Seq<u8>>::empty();
        assert(lists_set(ks, s)) by {
            assert forall|k: Seq<u8>| #[trigger] ks.contains(k) <==> s.contains(k) by {
                if s.contains(k) {
                    assert(s.remove(k).len() + 1 == s.len());
                }
            }
        }
    } else {
        let x = s.choose();
        let rest = s.remove(x);
        lemma_listing_exists(rest);
        let ks0 = sorted_keys(rest);
        lemma_lower(ks0, x);
        let at = lower(ks0, x);
        assert(!ks0.contains(x));
        lemma_table_insert(ks0, ks0, x, x, at);
        let ks = ks0.insert(at, x);
        assert(lists_set(ks, s)) by {
            assert forall|k: Seq<u8>| #[trigger] ks.contains(k) <==> s.contains(k) by {
                if ks.contains(k) {
                    let i = choose|i: int| 0 <= i < ks.len() && ks[i] == k;
                    if i < at {
                        assert(ks0[i] == k);
                        assert(ks0.contains(k));
                    } else if i > at {
                        assert(ks0[i - 1] == k);
                        assert(ks0.contains(k));
                    }
                }
                if s.contains(k) {
                    if k == x {
                        assert(ks[at] == x);
                    } else {
                        assert(rest.contains(k));
                        assert(ks0.contains(k));
                        let i = choose|i: int| 0 <= i < ks0.len() && ks0[i] == k;
                        if i < at {
                            assert(ks[i] == k);
                        } else {
                            assert(ks[i + 1] == k);
                        }
                    }
                }
            }
        }
    }
}

/// The tree of a flat map, built bottom-up to the depth `fuel`: one entry
/// for each head, in ascending order; a file with its entry, a directory
/// with the tree of what the map holds below it, built before it. The
/// result is the id of the tree and the store with all the trees. Nesting
/// deeper than `fuel` is an invalid argument.
pub open spec fn built(m: Objects, f: Flat, fuel: nat) -> Result<(ObjectId, Objects), ErrorKind>
    decreases fuel, 0nat, 0nat,
{
    if fuel == 0 {
        Err(ErrorKind::InvalidArgument)
    } else {
        let hs = sorted_keys(heads(f));
        match children(m, f, hs, (fuel - 1) as nat) {
            Err(k) => Err(k),
            Ok((items, m1)) => stored(m1, ObjectView::Tree(TreeView { names: hs, items })),
        }
    }
}

/// The entries for the heads `hs` of `f`, in order, and the store with the
/// trees of the directories among them.
pub open spec fn children(m: Objects, f: Flat, hs: Seq<Seq<u8>>, fuel: nat) -> Result<
    (Seq<TreeItem>, Objects),
    ErrorKind,
>
    decreases fuel, 1nat, hs.len(),
{
    if hs.len() == 0 {
        Ok((Seq::empty(), m))
    } else {
        match children(m, f, hs.drop_last(), fuel) {
            Err(k) => Err(k),
            Ok((items, m1)) => {
                let h = hs.last();
                if names_directory(h) {
                    match built(m1, under(f, h), fuel) {
                        Err(k) => Err(k),
                        Ok((id, m2)) => Ok(
                            (items.push(TreeItem { mode: FileMode::Directory, id }), m2),
                        ),
                    }
                } else {
                    Ok((items.push(f[h]), m1))
                }
            },
        }
    }
}

/// The id of the tree that is built for a flat map does not depend on the
/// store that it is built in.
pub proof fn lemma_built_same_id(m1: Objects, m2: Objects, f: Flat, fuel: nat)
    requires
        built(m1, f, fuel) is Ok,
        built(m2, f, fuel) is Ok,
    ensures
        built(m1, f, fuel)->Ok_0.0 == built(m2, f, fuel)->Ok_0.0,
    decreases fuel, 0nat, 0nat,
{
    lemma_children_same(m1, m2, f, sorted_keys(heads(f)), (fuel - 1) as nat);
}

/// The entries that are built for the heads `hs` do not depend on the
/// store that they are built in.
pub proof fn lemma_children_same(m1: Objects, m2: Objects, f: Flat, hs: Seq<Seq<u8>>, fuel: nat)
    requires
        children(m1, f, hs, fuel) is Ok,
        children(m2, f, hs, fuel) is Ok,
    ensures
        children(m1, f, hs, fuel)->Ok_0.0 == children(m2, f, hs, fuel)->Ok_0.0,
    decreases fuel, 1nat, hs.len(),
{
    if hs.len() > 0 {
        lemma_children_same(m1, m2, f, hs.drop_last(), fuel);
        let h = hs.last();
        if names_directory(h) {
            lemma_built_same_id(
                children(m1, f, hs.drop_last(), fuel)->Ok_0.1,
                children(m2, f, hs.drop_last(), fuel)->Ok_0.1,
                under(f, h),
                fuel,
            );
        }
    }
}

/// The paths of `sub`, each after `k`.
pub open spec fn prefixed(k: Seq<u8>, sub: Flat) -> Flat {
    Map::new(
        |p: Seq<u8>| k.is_prefix_of(p) && sub.contains_key(p.skip(k.len() as int)),
        |p: Seq<u8>| sub[p.skip(k.len() as int)],
    )
}

/// The tree `id` seen flat, to the depth `fuel`: the entries of files under
/// their whole paths. Nesting deeper than `fuel`, as in a tree that holds
/// itself, is `Corrupt`.
pub open spec fn flat(m: Objects, id: ObjectId, fuel: nat) -> Result<Flat, ErrorKind>
    decreases fuel, 0nat, 0nat,
{
    if fuel == 0 {
        Err(ErrorKind::Corrupt)
    } else {
        match tree_at(m, id) {
            Err(k) => Err(k),
            Ok(t) => flat_entries(m, t.names, t.items, (fuel - 1) as nat),
        }
    }
}

/// The entries `names` and `items` of a tree seen flat; the first tree
/// below that cannot be read decides the failure.
pub open spec fn flat_entries(m: Objects, names: Seq<Seq<u8>>, items: Seq<TreeItem>, fuel: nat)
    -> Result<Flat, ErrorKind>
    decreases fuel, 1nat, names.len(),
{
    if names.len() == 0 || items.len() == 0 {
        Ok(Map::empty())
    } else {
        match flat_entries(m, names.drop_last(), items.drop_last(), fuel) {
            Err(k) => Err(k),
            Ok(rest) => if items.last().mode == FileMode::Directory {
                match flat(m, items.last().id, fuel) {
                    Err(k) => Err(k),
                    Ok(sub) => Ok(rest.union_prefer_right(prefixed(names.last(), sub))),
                }
            } else {
                Ok(rest.insert(names.last(), items.last()))
            },
        }
    }
}

/// Building a tree only adds to the store.
pub proof fn lemma_built_extends(m: Objects, f: Flat, fuel: nat)
    requires
        built(m, f, fuel) is Ok,
    ensures
        m.submap_of(built(m, f, fuel)->Ok_0.1),
    decreases fuel, 0nat, 0nat,
{
    let hs = sorted_keys(heads(f));
    lemma_children_extends(m, f, hs, (fuel - 1) as nat);
    let (items, m1) = children(m, f, hs, (fuel - 1) as nat)->Ok_0;
    let (id, m2) = built(m, f, fuel)->Ok_0;
    lemma_extends_twice(m, m1, m2);
}

/// Building the trees of directories only adds to the store, and gives one
/// entry for each head.
pub proof fn lemma_children_extends(m: Objects, f: Flat, hs: Seq<Seq<u8>>, fuel: nat)
    requires
        children(m, f, hs, fuel) is Ok,
    ensures
        m.submap_of(children(m, f, hs, fuel)->Ok_0.1),
        children(m, f, hs, fuel)->Ok_0.0.len() == hs.len(),
    decreases fuel, 1nat, hs.len(),
{
    if hs.len() > 0 {
        lemma_children_extends(m, f, hs.drop_last(), fuel);
        let (items, m1) = children(m, f, hs.drop_last(), fuel)->Ok_0;
        let h = hs.last();
        if names_directory(h) {
            lemma_built_extends(m1, under(f, h), fuel);
            lemma_extends_twice(m, m1, built(m1, under(f, h), fuel)->Ok_0.1);
        }
    }
}

/// A tree that reads flat reads the same from a store that has grown.
pub proof fn lemma_flat_extends(m: Objects, later: Objects, id: ObjectId, fuel: nat)
    requires
        flat(m, id, fuel) is Ok,
        m.submap_of(later),
    ensures
        flat(later, id, fuel) == flat(m, id, fuel),
    decreases fuel, 0nat, 0nat,
{
    let t = tree_at(m, id)->Ok_0;
    assert(m.dom().contains(id));
    lemma_flat_entries_extends(m, later, t.names, t.items, (fuel - 1) as nat);
}

proof fn lemma_flat_entries_extends(
    m: Objects,
    later: Objects,
    names: Seq<Seq<u8>>,
    items: Seq<TreeItem>,
    fuel: nat,
)
    requires
        flat_entries(m, names, items, fuel) is Ok,
        m.submap_of(later),
    ensures
        flat_entries(later, names, items, fuel) == flat_entries(m, names, items, fuel),
    decreases fuel, 1nat, names.len(),
{
    if names.len() > 0 && items.len() > 0 {
        lemma_flat_entries_extends(m, later, names.drop_last(), items.drop_last(), fuel);
        if items.last().mode == FileMode::Directory {
            lemma_flat_extends(m, later, items.last().id, fuel);
        }
    }
}

/// The heads of a finite tree are finitely many, and so is what it holds
/// below a directory.
pub proof fn lemma_finite_parts(f: Flat, h: Seq<u8>)
    requires
        f.dom().finite(),
    ensures
        heads(f).finite(),
        under(f, h).dom().finite(),
{
    let first = |p: Seq<u8>| head(p);
    f.dom().lemma_map_finite(first);
    assert(heads(f) =~= f.dom().map(first)) by {
        assert forall|k: Seq<u8>| heads(f).contains(k) <==> f.dom().map(first).contains(k) by {
            if heads(f).contains(k) {
                let p = choose|p: Seq<u8>| #[trigger] f.contains_key(p) && head(p) == k;
                assert(f.dom().contains(p) && first(p) == k);
            }
            if f.dom().map(first).contains(k) {
                let p = choose|p: Seq<u8>| f.dom().contains(p) && k == first(p);
                assert(f.contains_key(p) && head(p) == k);
            }
        }
    }
    let below = f.dom().filter(|p: Seq<u8>| h.is_prefix_of(p) && p.len() > h.len());
    vstd::set_lib::lemma_set_subset_finite(f.dom(), below);
    let strip = |p: Seq<u8>| p.skip(h.len() as int);
    below.lemma_map_finite(strip);
    assert(under(f, h).dom() =~= below.map(strip)) by {
        assert forall|q: Seq<u8>| under(f, h).dom().contains(q) <==> below.map(strip).contains(
            q,
        ) by {
            if under(f, h).dom().contains(q) {
                let p = h + q;
                assert(p.skip(h.len() as int) =~= q);
                assert(below.contains(p) && strip(p) == q);
            }
            if below.map(strip).contains(q) {
                let p = choose|p: Seq<u8>| below.contains(p) && q == strip(p);
                assert(h + q =~= p);
            }
        }
    }
}

/// A head of a valid tree is a name, with a slash after it where it names
/// a directory; below a directory the tree is valid again.
pub proof fn lemma_valid_parts(f: Flat, h: Seq<u8>)
    requires
        all_valid(f),
        heads(f).contains(h),
    ensures
        h.len() > 0,
        forall|j: int| 0 <= j < h.len() - 1 ==> h[j] != SLASH,
        names_directory(h) ==> h.len() > 1 && all_valid(under(f, h)),
        !names_directory(h) ==> f.contains_key(h),
{
    let p = choose|p: Seq<u8>| #[trigger] f.contains_key(p) && head(p) == h;
    lemma_head_tail(p);
    assert(valid_path(p));
    if names_directory(h) {
        assert forall|q: Seq<u8>| #[trigger] under(f, h).contains_key(q) implies valid_path(q)
            && under(f, h)[q].mode != FileMode::Directory by {
            lemma_head_of_join(h, q);
            assert(f.contains_key(h + q));
            assert(valid_path(h + q));
        }
    }
}

/// What `f` holds under the heads `ks`.
pub open spec fn restricted(f: Flat, ks: Seq<Seq<u8>>) -> Flat {
    Map::new(|p: Seq<u8>| f.contains_key(p) && ks.contains(head(p)), |p: Seq<u8>| f[p])
}

/// A valid tree that was built reads flat as what it was built from.
pub proof fn lemma_round_trip(m: Objects, f: Flat, fuel: nat)
    requires
        all_valid(f),
        f.dom().finite(),
        built(m, f, fuel) is Ok,
    ensures
        flat(built(m, f, fuel)->Ok_0.1, built(m, f, fuel)->Ok_0.0, fuel) == Ok::<Flat, ErrorKind>(f),
    decreases fuel, 0nat, 0nat,
{
    let hs = sorted_keys(heads(f));
    lemma_finite_parts(f, Seq::<u8>::empty());
    lemma_listing_exists(heads(f));
    let (items, m1) = children(m, f, hs, (fuel - 1) as nat)->Ok_0;
    let (id, m2) = built(m, f, fuel)->Ok_0;
    lemma_children_flat(m, f, hs, (fuel - 1) as nat, m2);
    assert(restricted(f, hs) =~= f) by {
        assert forall|p: Seq<u8>| f.contains_key(p) implies hs.contains(head(p)) by {
            assert(heads(f).contains(head(p)));
        }
    }
    let t = TreeView { names: hs, items };
    assert(tree_at(m2, id) == Ok::<TreeView, ErrorKind>(t));
}

/// The entries that were built for the heads `ks` of a valid tree read
/// flat as what the tree holds under these heads.
pub proof fn lemma_children_flat(m: Objects, f: Flat, ks: Seq<Seq<u8>>, fuel: nat, later: Objects)
    requires
        all_valid(f),
        f.dom().finite(),
        forall|k: Seq<u8>| #[trigger] ks.contains(k) ==> heads(f).contains(k),
        children(m, f, ks, fuel) is Ok,
        children(m, f, ks, fuel)->Ok_0.1.submap_of(later),
    ensures
        flat_entries(later, ks, children(m, f, ks, fuel)->Ok_0.0, fuel) == Ok::<Flat, ErrorKind>(
            restricted(f, ks),
        ),
    decreases fuel, 1nat, ks.len(),
{
    lemma_children_extends(m, f, ks, fuel);
    let (items, mk) = children(m, f, ks, fuel)->Ok_0;
    if ks.len() == 0 {
        assert(restricted(f, ks) =~= Map::<Seq<u8>, TreeItem>::empty());
    } else {
        let prev = ks.drop_last();
        let h = ks.last();
        assert(ks =~= prev.push(h));
        assert(ks.contains(h));
        assert forall|k: Seq<u8>| #[trigger] prev.contains(k) implies heads(f).contains(k) by {
            vstd::seq_lib::lemma_seq_contains_after_push(prev, h, k);
        }
        lemma_children_extends(m, f, prev, fuel);
        let (items0, m0) = children(m, f, prev, fuel)->Ok_0;
        lemma_valid_parts(f, h);
        assert(items.drop_last() =~= items0);
        if names_directory(h) {
            let sub = under(f, h);
            lemma_built_extends(m0, sub, fuel);
            lemma_extends_twice(m0, mk, later);
            lemma_children_flat(m, f, prev, fuel, later);
            lemma_finite_parts(f, h);
            lemma_round_trip(m0, sub, fuel);
            let idh = built(m0, sub, fuel)->Ok_0.0;
            lemma_flat_extends(mk, later, idh, fuel);
            let rest = restricted(f, prev);
            assert(rest.union_prefer_right(prefixed(h, sub)) =~= restricted(f, ks)) by {
                assert forall|p: Seq<u8>|
                    #[trigger] rest.union_prefer_right(prefixed(h, sub)).contains_key(p)
                        == restricted(f, ks).contains_key(p) && (restricted(f, ks).contains_key(p)
                        ==> rest.union_prefer_right(prefixed(h, sub))[p] == restricted(f, ks)[p]) by {
                    vstd::seq_lib::lemma_seq_contains_after_push(prev, h, head(p));
                    if prefixed(h, sub).contains_key(p) {
                        let q = p.skip(h.len() as int);
                        assert(p =~= h + q);
                        lemma_head_of_join(h, q);
                    }
                    if f.contains_key(p) && head(p) == h {
                        lemma_head_tail(p);
                        assert(valid_path(p));
                        assert(p.skip(h.len() as int) =~= tail(p));
                        assert(h.is_prefix_of(p));
                        assert(sub.contains_key(tail(p)));
                    }
                }
            }
        } else {
            lemma_extends_twice(m0, mk, later);
            lemma_children_flat(m, f, prev, fuel, later);
            let rest = restricted(f, prev);
            assert(items.last() == f[h]);
            assert(rest.insert(h, f[h]) =~= restricted(f, ks)) by {
                assert forall|p: Seq<u8>|
                    #[trigger] rest.insert(h, f[h]).contains_key(p) == restricted(
                        f,
                        ks,
                    ).contains_key(p) && (restricted(f, ks).contains_key(p) ==> rest.insert(
                        h,
                        f[h],
                    )[p] == restricted(f, ks)[p]) by {
                    vstd::seq_lib::lemma_seq_contains_after_push(prev, h, head(p));
                    lemma_head_tail(p);
                    lemma_head_tail(h);
                    if p == h {
                        crate::paths::lemma_head_of_name(h);
                    }
                }
            }
        }
    }
}

/// The heads of the paths `paths`.
pub open spec fn heads_of(paths: Seq<Seq<u8>>) -> Set<Seq<u8>> {
    Set::new(|h: Seq<u8>| exists|j: int| 0 <= j < paths.len() && head(#[trigger] paths[j]) == h)
}

/// The heads of the paths of `x`, in ascending order.
fn head_keys(x: &Index) -> (hs: Vec<Vec<u8>>)
    requires
        x.wf(),
    ensures
        lists_set(lines(hs@), heads(x@.items())),
{
    let mut hs: Vec<Vec<u8>> = Vec::new();
    let mut i: usize = 0;
    proof {
        assert forall|k: Seq<u8>| #[trigger] lines(hs@).contains(k) <==> heads_of(
            x@.paths.take(0),
        ).contains(k) by {}
    }
    while i < x.len()
        invariant
            x.wf(),
            i <= x@.paths.len(),
            lists_set(lines(hs@), heads_of(x@.paths.take(i as int))),
        decreases x@.paths.len() - i,
    {
        let path = x.path_at(i);
        let n = head_len(path.as_slice());
        let h = bytes_range(path.as_slice(), 0, n);
        let ghost before = lines(hs@);
        let ghost seen = x@.paths.take(i as int);
        let ghost seen2 = x@.paths.take(i + 1);
        proof {
            assert(h@ =~= head(path@)) by {
                crate::paths::lemma_before_slash(path@);
            }
            assert(seen2 =~= seen.push(path@));
            assert forall|k: Seq<u8>| heads_of(seen2).contains(k) <==> heads_of(seen).contains(k)
                || k == h@ by {
                if heads_of(seen2).contains(k) {
                    let j = choose|j: int| 0 <= j < seen2.len() && head(#[trigger] seen2[j]) == k;
                    if j < seen.len() {
                        assert(head(seen[j]) == k);
                    }
                }
                if heads_of(seen).contains(k) {
                    let j = choose|j: int| 0 <= j < seen.len() && head(#[trigger] seen[j]) == k;
                    assert(head(seen2[j]) == k);
                }
                if k == h@ {
                    assert(head(seen2[i as int]) == k);
                }
            }
        }
        let found = find_key(&hs, h.as_slice());
        if found.is_none() {
            let at = slot_of(&hs, h.as_slice());
            proof {
                lemma_table_insert(before, before, h@, h@, at as int);
            }
            hs.insert(at, h);
            proof {
                assert(lines(hs@) =~= before.insert(at as int, h@));
                assert forall|k: Seq<u8>| #[trigger] lines(hs@).contains(k) <==> heads_of(
                    seen2,
                ).contains(k) by {
                    lemma_insert_contains(before, at as int, h@, k);
                    assert(before.contains(k) <==> heads_of(seen).contains(k));
                }
            }
        } else {
            proof {
                let at = found->0;
                assert(before[at as int] == h@);
                assert(before.contains(h@));
                assert forall|k: Seq<u8>| #[trigger] lines(hs@).contains(k) <==> heads_of(
                    seen2,
                ).contains(k) by {
                    assert(before.contains(k) <==> heads_of(seen).contains(k));
                }
            }
        }
        i += 1;
    }
    proof {
        assert(x@.paths.take(i as int) =~= x@.paths);
        assert(heads_of(x@.paths) =~= heads(x@.items())) by {
            assert forall|k: Seq<u8>| heads_of(x@.paths).contains(k) <==> heads(
                x@.items(),
            ).contains(k) by {
                if heads_of(x@.paths).contains(k) {
                    let j = choose|j: int|
                        0 <= j < x@.paths.len() && head(#[trigger] x@.paths[j]) == k;
                    lemma_table_at(x@.paths, x@.slots, j);
                    assert(x@.items().contains_key(x@.paths[j]));
                }
                if heads(x@.items()).contains(k) {
                    let p = choose|p: Seq<u8>| #[trigger] x@.items().contains_key(p) && head(p) == k;
                    lemma_position_none(x@.paths, p);
                    let j = choose|j: int| 0 <= j < x@.paths.len() && x@.paths[j] == p;
                    assert(head(x@.paths[j]) == k);
                }
            }
        }
    }
    hs
}

/// What the slots `xm` hold below `h`, for the first `upto` of `paths`.
pub open spec fn under_slots(xm: Map<Seq<u8>, Slot>, paths: Seq<Seq<u8>>, h: Seq<u8>) -> Map<
    Seq<u8>,
    Slot,
> {
    Map::new(|q: Seq<u8>| q.len() > 0 && paths.contains(h + q), |q: Seq<u8>| xm[h + q])
}

/// What `x` holds below the directory `h`.
fn below(x: &Index, h: &[u8]) -> (sub: Index)
    requires
        x.wf(),
        !x@.has_conflicts(),
    ensures
        sub.wf(),
        !sub@.has_conflicts(),
        sub@.items() == under(x@.items(), h@),
{
    let mut sub = Index::new();
    let mut i: usize = 0;
    proof {
        assert(sub@.map() =~= under_slots(x@.map(), x@.paths.take(0), h@));
    }
    while i < x.len()
        invariant
            x.wf(),
            sub.wf(),
            !sub@.has_conflicts(),
            !x@.has_conflicts(),
            i <= x@.paths.len(),
            sub@.map() == under_slots(x@.map(), x@.paths.take(i as int), h@),
        decreases x@.paths.len() - i,
    {
        let path = x.path_at(i);
        let slot = x.slot_at(i);
        let ghost seen = x@.paths.take(i as int);
        let ghost seen2 = x@.paths.take(i + 1);
        proof {
            assert(seen2 =~= seen.push(path@));
            lemma_table_at(x@.paths, x@.slots, i as int);
            assert(!(x@.slots[i as int] is Conflicted));
        }
        if path.len() > h.len() && bytes_start_with(path.as_slice(), h) {
            let q = bytes_range(path.as_slice(), h.len(), path.len());
            proof {
                assert(q@ =~= path@.skip(h@.len() as int));
                assert(path@ =~= h@ + q@);
            }
            let ghost before = sub@.map();
            sub.set(q.as_slice(), slot);
            proof {
                assert forall|r: Seq<u8>|
                    #[trigger] before.insert(q@, slot).contains_key(r) == under_slots(
                        x@.map(),
                        seen2,
                        h@,
                    ).contains_key(r) && (before.insert(q@, slot).contains_key(r) ==> before.insert(
                        q@,
                        slot,
                    )[r] == under_slots(x@.map(), seen2, h@)[r]) by {
                    vstd::seq_lib::lemma_seq_contains_after_push(seen, path@, h@ + r);
                    if h@ + r == path@ {
                        assert((h@ + r).skip(h@.len() as int) =~= r);
                        assert(r == q@);
                    }
                }
                assert(sub@.map() =~= under_slots(x@.map(), seen2, h@));
            }
        } else {
            proof {
                assert forall|r: Seq<u8>|
                    #[trigger] under_slots(x@.map(), seen, h@).contains_key(r) == under_slots(
                        x@.map(),
                        seen2,
                        h@,
                    ).contains_key(r) by {
                    vstd::seq_lib::lemma_seq_contains_after_push(seen, path@, h@ + r);
                    if r.len() > 0 && h@ + r == path@ {
                        assert(h@.is_prefix_of(path@)) by {
                            assert(path@.subrange(0, h@.len() as int) =~= h@);
                        }
                    }
                }
                assert(sub@.map() =~= under_slots(x@.map(), seen2, h@));
            }
        }
        i += 1;
    }
    proof {
        assert(x@.paths.take(i as int) =~= x@.paths);
        assert(sub@.items() =~= under(x@.items(), h@)) by {
            assert forall|r: Seq<u8>|
                #[trigger] sub@.items().contains_key(r) == under(x@.items(), h@).contains_key(r) && (
                sub@.items().contains_key(r) ==> sub@.items()[r] == under(x@.items(), h@)[r]) by {
                lemma_position_none(x@.paths, h@ + r);
            }
        }
    }
    sub
}

/// Builds the tree of the index `x`, which has no conflicts, bottom-up:
/// the trees of the directories first, then the tree that holds them.
pub fn build_tree(store: &mut ObjectStore, x: &Index, fuel: usize) -> (r: Result<
    ObjectId,
    EngineError,
>)
    requires
        old(store).wf(),
        x.wf(),
        !x@.has_conflicts(),
    ensures
        final(store).wf(),
        old(store)@.submap_of(final(store)@),
        match r {
            Ok(id) => built(old(store)@, x@.items(), fuel as nat) == Ok::<
                (ObjectId, Objects),
                ErrorKind,
            >((id, final(store)@)),
            Err(e) => built(old(store)@, x@.items(), fuel as nat) == Err::<
                (ObjectId, Objects),
                ErrorKind,
            >(e.kind),
        },
    decreases fuel,
{
    if fuel == 0 {
        if x.len() > 0 {
            return Err(
                EngineError::about_name(
                    ErrorKind::InvalidArgument,
                    Operation::WriteTree,
                    x.path_at(0).as_slice(),
                ),
            );
        }
        return Err(EngineError::plain(ErrorKind::InvalidArgument, Operation::WriteTree));
    }
    let hs = head_keys(x);
    let ghost f = x@.items();
    let ghost all = lines(hs@);
    proof {
        lemma_sorted_keys(all, heads(f));
    }
    let mut tree = Tree::new();
    let mut i: usize = 0;
    let ghost mut items: Seq<TreeItem> = Seq::empty();
    proof {
        assert(tree@.names =~= all.take(0));
        assert(tree@.items =~= items);
    }
    while i < hs.len()
        invariant
            store.wf(),
            x.wf(),
            !x@.has_conflicts(),
            tree.wf(),
            fuel > 0,
            f == x@.items(),
            all == lines(hs@),
            lists_set(all, heads(f)),
            sorted_keys(heads(f)) == all,
            i <= hs@.len(),
            old(store)@.submap_of(store@),
            tree@.names == all.take(i as int),
            tree@.items == items,
            children(old(store)@, f, all.take(i as int), (fuel - 1) as nat) == Ok::<
                (Seq<TreeItem>, Objects),
                ErrorKind,
            >((items, store@)),
        decreases hs@.len() - i,
    {
        let h = &hs[i];
        let ghost prev = all.take(i as int);
        let ghost next = all.take(i + 1);
        proof {
            assert(next.drop_last() =~= prev);
            assert(next.last() == h@);
            assert(next =~= prev.push(h@));
            assert(all.contains(h@));
            assert(heads(f).contains(h@));
        }
        let is_directory = h.len() > 0 && h[h.len() - 1] == SLASH;
        let item = if is_directory {
            let sub = below(x, h.as_slice());
            let ghost mid = store@;
            match build_tree(store, &sub, fuel - 1) {
                Ok(id) => {
                    proof {
                        lemma_extends_twice(old(store)@, mid, store@);
                    }
                    TreeItem { mode: FileMode::Directory, id }
                },
                Err(e) => {
                    proof {
                        lemma_extends_twice(old(store)@, mid, store@);
                        assert(names_directory(h@));
                        assert(children(old(store)@, f, next, (fuel - 1) as nat) is Err);
                        lemma_children_fail(old(store)@, f, all, (fuel - 1) as nat, i as int);
                    }
                    return Err(e);
                },
            }
        } else {
            match x.get(h.as_slice()) {
                Some(slot) => {
                    match slot {
                        Slot::Resolved(item) => item,
                        Slot::Conflicted { ancestor, ours, theirs } => {
                            proof {
                                lemma_position_none(x@.paths, h@);
                                let j = choose|j: int| 0 <= j < x@.paths.len() && x@.paths[j] == h@;
                                lemma_table_at(x@.paths, x@.slots, j);
                                assert(x@.slots[j] is Conflicted);
                            }
                            return Err(
                                EngineError::about_name(
                                    ErrorKind::Conflict,
                                    Operation::WriteTree,
                                    h.as_slice(),
                                ),
                            );
                        },
                    }
                },
                None => {
                    proof {
                        let p = choose|p: Seq<u8>| #[trigger] f.contains_key(p) && head(p) == h@;
                        lemma_head_tail(p);
                    }
                    return Err(
                        EngineError::about_name(ErrorKind::Corrupt, Operation::WriteTree, h.as_slice()),
                    );
                },
            }
        };
        proof {
            let ks = tree@.names;
            let vs = tree@.items;
            assert(is_slot(ks, h@, ks.len() as int)) by {
                assert forall|j: int| 0 <= j < ks.len() implies lex_lt(#[trigger] ks[j], h@) by {
                    assert(ks[j] == all[j]);
                    assert(lex_lt(all[j], all[i as int]));
                }
            }
            assert(!ks.contains(h@)) by {
                if ks.contains(h@) {
                    let j = choose|j: int| 0 <= j < ks.len() && ks[j] == h@;
                    assert(lex_lt(all[j], all[i as int]));
                    crate::bytes::lemma_lex_irreflexive(h@);
                }
            }
            lemma_table_insert(ks, vs, h@, item, ks.len() as int);
            assert(ks.insert(ks.len() as int, h@) =~= next);
            assert(vs.insert(vs.len() as int, item) =~= items.push(item));
        }
        tree.insert(h.as_slice(), item);
        proof {
            lemma_table_unique(tree@.names, tree@.items, next, items.push(item));
            items = items.push(item);
        }
        i += 1;
    }
    proof {
        assert(all.take(i as int) =~= all);
    }
    let ghost mid = store@;
    let r = store.put(Object::Tree(tree));
    proof {
        lemma_extends_twice(old(store)@, mid, store@);
    }
    r
}

/// A failure among the first heads is the failure of the whole.
pub proof fn lemma_children_fail(m: Objects, f: Flat, hs: Seq<Seq<u8>>, fuel: nat, i: int)
    requires
        0 <= i < hs.len(),
        children(m, f, hs.take(i + 1), fuel) is Err,
    ensures
        children(m, f, hs, fuel) == children(m, f, hs.take(i + 1), fuel),
    decreases hs.len() - i,
{
    if i + 1 == hs.len() {
        assert(hs.take(i + 1) =~= hs);
    } else {
        assert(hs.drop_last().take(i + 1) =~= hs.take(i + 1));
        lemma_children_fail(m, f, hs.drop_last(), fuel, i);
    }
}

/// The slots of `sub` for the first `upto` of its paths, each path after
/// `k`.
pub open spec fn prefixed_slots(k: Seq<u8>, sub: IndexView, upto: int) -> Map<Seq<u8>, Slot> {
    Map::new(
        |p: Seq<u8>| k.is_prefix_of(p) && sub.paths.take(upto).contains(p.skip(k.len() as int)),
        |p: Seq<u8>| sub.map()[p.skip(k.len() as int)],
    )
}

/// Puts into `out` what `sub` holds, each path after `name`.
fn graft(out: &mut Index, name: &[u8], sub: &Index)
    requires
        old(out).wf(),
        !old(out)@.has_conflicts(),
        sub.wf(),
        !sub@.has_conflicts(),
    ensures
        final(out).wf(),
        !final(out)@.has_conflicts(),
        final(out)@.items() == old(out)@.items().union_prefer_right(prefixed(name@, sub@.items())),
{
    let mut j: usize = 0;
    let ghost start = out@.map();
    proof {
        assert(start.union_prefer_right(prefixed_slots(name@, sub@, 0)) =~= start);
    }
    while j < sub.len()
        invariant
            out.wf(),
            !out@.has_conflicts(),
            sub.wf(),
            !sub@.has_conflicts(),
            j <= sub@.paths.len(),
            start == old(out)@.map(),
            out@.map() == start.union_prefer_right(prefixed_slots(name@, sub@, j as int)),
        decreases sub@.paths.len() - j,
    {
        let q = sub.path_at(j);
        let slot = sub.slot_at(j);
        let mut path = bytes_copy(name);
        bytes_append(&mut path, q.as_slice());
        let ghost seen = sub@.paths.take(j as int);
        let ghost seen2 = sub@.paths.take(j + 1);
        proof {
            assert(seen2 =~= seen.push(q@));
            assert(path@.skip(name@.len() as int) =~= q@);
            lemma_table_at(sub@.paths, sub@.slots, j as int);
            assert(!(sub@.slots[j as int] is Conflicted));
        }
        let ghost before = out@.map();
        out.set(path.as_slice(), slot);
        proof {
            let want = start.union_prefer_right(prefixed_slots(name@, sub@, j + 1));
            assert forall|p: Seq<u8>|
                #[trigger] before.insert(path@, slot).contains_key(p) == want.contains_key(p) && (
                want.contains_key(p) ==> before.insert(path@, slot)[p] == want[p]) by {
                let r = p.skip(name@.len() as int);
                vstd::seq_lib::lemma_seq_contains_after_push(seen, q@, r);
                if name@.is_prefix_of(p) && r == q@ {
                    assert(p =~= name@ + r);
                    assert(p == path@);
                }
            }
            assert(out@.map() =~= want);
        }
        j += 1;
    }
    proof {
        assert(sub@.paths.take(j as int) =~= sub@.paths);
        let want = old(out)@.items().union_prefer_right(prefixed(name@, sub@.items()));
        assert forall|p: Seq<u8>|
            #[trigger] out@.items().contains_key(p) == want.contains_key(p) && (want.contains_key(p)
                ==> out@.items()[p] == want[p]) by {
            lemma_position_none(sub@.paths, p.skip(name@.len() as int));
        }
        assert(out@.items() =~= want);
    }
}

/// Reads the tree `id` flat: the entries of the files in it and in the
/// trees below it, each under its whole path.
pub fn flatten(store: &ObjectStore, id: ObjectId, fuel: usize) -> (r: Result<Index, EngineError>)
    requires
        store.wf(),
    ensures
        match r {
            Ok(x) => x.wf() && !x@.has_conflicts() && flat(store@, id, fuel as nat) == Ok::<
                Flat,
                ErrorKind,
            >(x@.items()),
            Err(e) => flat(store@, id, fuel as nat) == Err::<Flat, ErrorKind>(e.kind),
        },
    decreases fuel,
{
    if fuel == 0 {
        return Err(EngineError::about_object(ErrorKind::Corrupt, Operation::ReadTree, id));
    }
    let tree = match get_tree(store, id, Operation::ReadTree) {
        Ok(t) => t,
        Err(e) => {
            return Err(e);
        },
    };
    let mut out = Index::new();
    let mut i: usize = 0;
    let ghost names = tree@.names;
    let ghost items = tree@.items;
    proof {
        assert(out@.items() =~= Map::<Seq<u8>, TreeItem>::empty());
        assert(names.take(0) =~= Seq::<Seq<u8>>::empty());
    }
    while i < tree.len()
        invariant
            store.wf(),
            tree.wf(),
            out.wf(),
            !out@.has_conflicts(),
            fuel > 0,
            names == tree@.names,
            items == tree@.items,
            tree_at(store@, id) == Ok::<TreeView, ErrorKind>(tree@),
            i <= names.len(),
            flat_entries(store@, names.take(i as int), items.take(i as int), (fuel - 1) as nat)
                == Ok::<Flat, ErrorKind>(out@.items()),
        decreases names.len() - i,
    {
        let name = tree.name_at(i);
        let item = tree.item_at(i);
        proof {
            assert(names.take(i + 1).drop_last() =~= names.take(i as int));
            assert(items.take(i + 1).drop_last() =~= items.take(i as int));
        }
        let ghost before = out@.items();
        match item.mode {
            FileMode::Directory => {
                let sub = match flatten(store, item.id, fuel - 1) {
                    Ok(x) => x,
                    Err(e) => {
                        proof {
                            assert(items.take(i + 1).last() == item);
                            assert(names.take(i + 1).len() > 0 && items.take(i + 1).len() > 0);
                            assert(flat_entries(
                                store@,
                                names.take(i + 1),
                                items.take(i + 1),
                                (fuel - 1) as nat,
                            ) is Err);
                            lemma_flat_fail(store@, names, items, (fuel - 1) as nat, i as int);
                        }
                        return Err(e);
                    },
                };
                graft(&mut out, name.as_slice(), &sub);
            },
            _ => {
                out.stage(name.as_slice(), item);
                proof {
                    assert(out@.items() =~= before.insert(name@, item));
                }
            },
        }
        i += 1;
    }
    proof {
        assert(names.take(i as int) =~= names);
        assert(items.take(i as int) =~= items);
    }
    Ok(out)
}

/// A failure among the first entries is the failure of the whole.
pub proof fn lemma_flat_fail(m: Objects, names: Seq<Seq<u8>>, items: Seq<TreeItem>, fuel: nat, i: int)
    requires
        names.len() == items.len(),
        0 <= i < names.len(),
        flat_entries(m, names.take(i + 1), items.take(i + 1), fuel) is Err,
    ensures
        flat_entries(m, names, items, fuel) == flat_entries(
            m,
            names.take(i + 1),
            items.take(i + 1),
            fuel,
        ),
    decreases names.len() - i,
{
    if i + 1 == names.len() {
        assert(names.take(i + 1) =~= names);
        assert(items.take(i + 1) =~= items);
    } else {
        assert(names.drop_last().take(i + 1) =~= names.take(i + 1));
        assert(items.drop_last().take(i + 1) =~= items.take(i + 1));
        lemma_flat_fail(m, names.drop_last(), items.drop_last(), fuel, i);
    }
}

/// The outcome of writing the trees of an index: the id of the tree at
/// the top and the store with the trees. An index with conflicts has no
/// tree (`Conflict`); a path with an empty part, an entry with the mode of
/// a directory, and nesting deeper than [`MAX_DEPTH`] are invalid
/// arguments.
pub open spec fn tree_written(m: Objects, x: IndexView) -> Result<(ObjectId, Objects), ErrorKind> {
    if x.has_conflicts() {
        Err(ErrorKind::Conflict)
    } else if !all_valid(x.items()) {
        Err(ErrorKind::InvalidArgument)
    } else {
        built(m, x.items(), MAX_DEPTH as nat)
    }
}

/// The tree `id` read flat.
pub open spec fn tree_read(m: Objects, id: ObjectId) -> Result<Flat, ErrorKind> {
    flat(m, id, MAX_DEPTH as nat)
}

/// The index that holds the entries `f`, all resolved.
pub open spec fn index_of_flat(f: Flat) -> IndexView {
    choose|x: IndexView| x.wf() && !x.has_conflicts() && x.items() == f
}

/// An index without conflicts is the index of its entries.
pub proof fn lemma_index_of_flat(x: IndexView)
    requires
        x.wf(),
        !x.has_conflicts(),
    ensures
        index_of_flat(x.items()) == x,
{
    let y = index_of_flat(x.items());
    assert(y.wf() && !y.has_conflicts() && y.items() == x.items());
    assert forall|p: Seq<u8>| #[trigger]
        x.map().contains_key(p) == y.map().contains_key(p) && (x.map().contains_key(p)
            ==> x.map()[p] == y.map()[p]) by {
        assert(x.items().contains_key(p) == y.items().contains_key(p));
        if x.map().contains_key(p) {
            lemma_position_none(x.paths, p);
            lemma_position_none(y.paths, p);
            let i = choose|i: int| 0 <= i < x.paths.len() && x.paths[i] == p;
            let j = choose|j: int| 0 <= j < y.paths.len() && y.paths[j] == p;
            lemma_table_at(x.paths, x.slots, i);
            lemma_table_at(y.paths, y.slots, j);
            assert(!(x.slots[i] is Conflicted));
            assert(!(y.slots[j] is Conflicted));
            assert(x.items()[p] == y.items()[p]);
        }
    }
    assert(x.map() =~= y.map());
    lemma_table_unique(x.paths, x.slots, y.paths, y.slots);
}

} // verus!
