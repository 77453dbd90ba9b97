//! Sorted tables keyed by byte strings. A table is a vector of keys in
//! strictly ascending order beside a vector of values of the same length; as
//! a mathematical object it is a finite map, and the order makes the two
//! vectors a function of that map.

use vstd::prelude::*;
use crate::bytes::{bytes_eq, bytes_lt, lemma_lex_irreflexive, lemma_lex_total,
    lemma_lex_transitive, lex_lt};

verus! {

/// The keys of a table as byte sequences.
pub open spec fn lines(keys: Seq<Vec<u8>>) -> Seq<Seq<u8>> {
    Seq::new(keys.len(), |i: int| keys[i]@)
}

/// Strictly ascending.
pub open spec fn ascending(ks: Seq<Seq<u8>>) -> bool {
    forall|i: int, j: int| 0 <= i < j < ks.len() ==> lex_lt(#[trigger] ks[i], #[trigger] ks[j])
}

/// The position of `k` among `ks`, if it occurs.
pub open spec fn position(ks: Seq<Seq<u8>>, k: Seq<u8>) -> Option<int> {
    if exists|i: int| 0 <= i < ks.len() && ks[i] == k {
        Some(choose|i: int| 0 <= i < ks.len() && ks[i] == k)
    } else {
        None
    }
}

/// The finite map that keys `ks` and values `vs` stand for.
pub open spec fn table<V>(ks: Seq<Seq<u8>>, vs: Seq<V>) -> Map<Seq<u8>, V> {
    Map::new(|k: Seq<u8>| position(ks, k) is Some, |k: Seq<u8>| vs[position(ks, k)->0])
}

/// Ascending keys are pairwise different, so a key has one position.
pub proof fn lemma_position(ks: Seq<Seq<u8>>, i: int)
    requires
        ascending(ks),
        0 <= i < ks.len(),
    ensures
        position(ks, ks[i]) == Some(i),
{
    let j = position(ks, ks[i])->0;
    if j < i {
        lemma_lex_irreflexive(ks[i]);
        assert(lex_lt(ks[j], ks[i]));
    } else if i < j {
        lemma_lex_irreflexive(ks[i]);
        assert(lex_lt(ks[i], ks[j]));
    }
}

/// A key that is absent has no position.
pub proof fn lemma_position_none(ks: Seq<Seq<u8>>, k: Seq<u8>)
    ensures
        position(ks, k) is None <==> !ks.contains(k),
        position(ks, k) matches Some(i) ==> 0 <= i < ks.len() && ks[i] == k,
{
    if ks.contains(k) {
        let i = choose|i: int| 0 <= i < ks.len() && ks[i] == k;
        assert(0 <= i < ks.len() && ks[i] == k);
    }
}

/// Where `k` stands, or would stand, among ascending keys.
pub open spec fn is_slot(ks: Seq<Seq<u8>>, k: Seq<u8>, at: int) -> bool {
    &&& 0 <= at <= ks.len()
    &&& forall|i: int| 0 <= i < at ==> lex_lt(#[trigger] ks[i], k)
    &&& forall|i: int| at <= i < ks.len() ==> !lex_lt(#[trigger] ks[i], k)
}

/// Putting a new key at its slot keeps the keys ascending and adds one
/// binding to the map.
pub proof fn lemma_table_insert<V>(ks: Seq<Seq<u8>>, vs: Seq<V>, k: Seq<u8>, v: V, at: int)
    requires
        ascending(ks),
        ks.len() == vs.len(),
        is_slot(ks, k, at),
        !ks.contains(k),
    ensures
        ascending(ks.insert(at, k)),
        table(ks.insert(at, k), vs.insert(at, v)) == table(ks, vs).insert(k, v),
{
    let ks2 = ks.insert(at, k);
    let vs2 = vs.insert(at, v);
    assert forall|i: int, j: int| 0 <= i < j < ks2.len() implies lex_lt(
        #[trigger] ks2[i],
        #[trigger] ks2[j],
    ) by {
        if j == at {
            assert(ks2[i] == ks[i]);
        } else if i == at {
            assert(ks2[j] == ks[j - 1]);
            lemma_lex_total(ks[j - 1], k);
        } else {
            let a = if i < at { i } else { i - 1 };
            let b = if j < at { j } else { j - 1 };
            assert(ks2[i] == ks[a] && ks2[j] == ks[b]);
        }
    }
    assert forall|q: Seq<u8>| #[trigger] table(ks2, vs2).contains_key(q) == table(ks, vs).insert(k, v).contains_key(q)
        && (table(ks2, vs2).contains_key(q) ==> table(ks2, vs2)[q] == table(ks, vs).insert(k, v)[q]) by {
        lemma_position_none(ks2, q);
        lemma_position_none(ks, q);
        if q == k {
            assert(ks2[at] == k);
            lemma_position(ks2, at);
        } else if ks.contains(q) {
            let i = position(ks, q)->0;
            let i2 = if i < at { i } else { i + 1 };
            assert(ks2[i2] == q);
            lemma_position(ks2, i2);
        } else if ks2.contains(q) {
            let i2 = position(ks2, q)->0;
            let i = if i2 < at { i2 } else { i2 - 1 };
            assert(ks[i] == q);
        }
    }
    assert(table(ks2, vs2) =~= table(ks, vs).insert(k, v));
}

/// What a list holds after an insertion: what it held, and the new member.
pub proof fn lemma_insert_contains<A>(ks: Seq<A>, at: int, x: A, k: A)
    requires
        0 <= at <= ks.len(),
    ensures
        ks.insert(at, x).contains(k) <==> ks.contains(k) || k == x,
{
    let ks2 = ks.insert(at, x);
    if ks2.contains(k) {
        let i = choose|i: int| 0 <= i < ks2.len() && ks2[i] == k;
        if i < at {
            assert(ks[i] == k);
        } else if i > at {
            assert(ks[i - 1] == k);
        }
    }
    if ks.contains(k) {
        let i = choose|i: int| 0 <= i < ks.len() && ks[i] == k;
        if i < at {
            assert(ks2[i] == k);
        } else {
            assert(ks2[i + 1] == k);
        }
    }
    if k == x {
        assert(ks2[at] == x);
    }
}

/// Replacing the value at a key's position rebinds that key.
pub proof fn lemma_table_update<V>(ks: Seq<Seq<u8>>, vs: Seq<V>, at: int, v: V)
    requires
        ascending(ks),
        ks.len() == vs.len(),
        0 <= at < ks.len(),
    ensures
        table(ks, vs.update(at, v)) == table(ks, vs).insert(ks[at], v),
{
    let vs2 = vs.update(at, v);
    assert forall|q: Seq<u8>| #[trigger] table(ks, vs2).contains_key(q) == table(ks, vs).insert(ks[at], v).contains_key(q)
        && (table(ks, vs2).contains_key(q) ==> table(ks, vs2)[q] == table(ks, vs).insert(ks[at], v)[q]) by {
        lemma_position_none(ks, q);
        lemma_position(ks, at);
    }
    assert(table(ks, vs2) =~= table(ks, vs).insert(ks[at], v));
}

/// Taking a key out keeps the rest ascending and removes its binding.
pub proof fn lemma_table_remove<V>(ks: Seq<Seq<u8>>, vs: Seq<V>, at: int)
    requires
        ascending(ks),
        ks.len() == vs.len(),
        0 <= at < ks.len(),
    ensures
        ascending(ks.remove(at)),
        table(ks.remove(at), vs.remove(at)) == table(ks, vs).remove(ks[at]),
{
    let ks2 = ks.remove(at);
    let vs2 = vs.remove(at);
    assert forall|i: int, j: int| 0 <= i < j < ks2.len() implies lex_lt(
        #[trigger] ks2[i],
        #[trigger] ks2[j],
    ) by {
        let a = if i < at { i } else { i + 1 };
        let b = if j < at { j } else { j + 1 };
        assert(ks2[i] == ks[a] && ks2[j] == ks[b]);
    }
    assert forall|q: Seq<u8>| #[trigger] table(ks2, vs2).contains_key(q) == table(ks, vs).remove(ks[at]).contains_key(q)
        && (table(ks2, vs2).contains_key(q) ==> table(ks2, vs2)[q] == table(ks, vs).remove(ks[at])[q]) by {
        lemma_position_none(ks2, q);
        lemma_position_none(ks, q);
        lemma_position(ks, at);
        if ks2.contains(q) {
            let i2 = position(ks2, q)->0;
            let i = if i2 < at { i2 } else { i2 + 1 };
            assert(ks[i] == q);
            lemma_position(ks, i);
            lemma_position(ks2, i2);
        } else if ks.contains(q) && q != ks[at] {
            let i = position(ks, q)->0;
            let i2 = if i < at { i } else { i - 1 };
            assert(ks2[i2] == q);
        }
    }
    assert(table(ks2, vs2) =~= table(ks, vs).remove(ks[at]));
}

/// The bindings of a table, read off its positions.
pub proof fn lemma_table_at<V>(ks: Seq<Seq<u8>>, vs: Seq<V>, i: int)
    requires
        ascending(ks),
        ks.len() == vs.len(),
        0 <= i < ks.len(),
    ensures
        table(ks, vs).contains_key(ks[i]),
        table(ks, vs)[ks[i]] == vs[i],
{
    lemma_position(ks, i);
}

/// A table is a function of its map: two ascending tables with the same
/// bindings have the same keys and values in the same places.
pub proof fn lemma_table_unique<V>(ks1: Seq<Seq<u8>>, vs1: Seq<V>, ks2: Seq<Seq<u8>>, vs2: Seq<V>)
    requires
        ascending(ks1),
        ascending(ks2),
        ks1.len() == vs1.len(),
        ks2.len() == vs2.len(),
        table(ks1, vs1) == table(ks2, vs2),
    ensures
        ks1 == ks2,
        vs1 == vs2,
    decreases ks1.len(),
{
    if ks1.len() == 0 {
        if ks2.len() > 0 {
            lemma_table_at(ks2, vs2, 0);
            lemma_position_none(ks1, ks2[0]);
            assert(table(ks1, vs1).contains_key(ks2[0]));
        }
        assert(ks1 =~= ks2);
        assert(vs1 =~= vs2);
    } else {
        let n1 = ks1.len() - 1;
        lemma_table_at(ks1, vs1, n1);
        assert(table(ks2, vs2).contains_key(ks1[n1]));
        lemma_position_none(ks2, ks1[n1]);
        let n2 = ks2.len() - 1;
        let j = position(ks2, ks1[n1])->0;
        lemma_table_at(ks2, vs2, n2);
        assert(table(ks1, vs1).contains_key(ks2[n2]));
        lemma_position_none(ks1, ks2[n2]);
        let i = position(ks1, ks2[n2])->0;
        // the last keys of both are the greatest, hence equal
        if j < n2 {
            assert(lex_lt(ks2[j], ks2[n2]));
            if i < n1 {
                assert(lex_lt(ks1[i], ks1[n1]));
            }
            lemma_lex_total(ks1[n1], ks2[n2]);
        }
        assert(ks1[n1] == ks2[n2]);
        lemma_table_at(ks2, vs2, n2);
        lemma_table_remove(ks1, vs1, n1);
        lemma_table_remove(ks2, vs2, n2);
        lemma_table_unique(ks1.remove(n1), vs1.remove(n1), ks2.remove(n2), vs2.remove(n2));
        assert(ks1 =~= ks1.remove(n1).push(ks1[n1]));
        assert(ks2 =~= ks2.remove(n2).push(ks2[n2]));
        assert(vs1 =~= vs1.remove(n1).push(vs1[n1]));
        assert(vs2 =~= vs2.remove(n2).push(vs2[n2]));
    }
}

/// The position of `key` among `keys`, if it occurs.
pub fn find_key(keys: &Vec<Vec<u8>>, key: &[u8]) -> (r: Option<usize>)
    ensures
        match r {
            Some(i) => i < keys@.len() && keys@[i as int]@ == key@,
            None => !lines(keys@).contains(key@),
        },
{
    let mut i: usize = 0;
    while i < keys.len()
        invariant
            i <= keys@.len(),
            forall|j: int| 0 <= j < i ==> lines(keys@)[j] != key@,
        decreases keys@.len() - i,
    {
        if bytes_eq(keys[i].as_slice(), key) {
            return Some(i);
        }
        i += 1;
    }
    None
}

/// The slot of `key` among ascending `keys`: the first position whose key is
/// not below it.
pub fn slot_of(keys: &Vec<Vec<u8>>, key: &[u8]) -> (at: usize)
    requires
        ascending(lines(keys@)),
    ensures
        is_slot(lines(keys@), key@, at as int),
{
    let mut i: usize = 0;
    while i < keys.len()
        invariant
            i <= keys@.len(),
            ascending(lines(keys@)),
            forall|j: int| 0 <= j < i ==> lex_lt(#[trigger] lines(keys@)[j], key@),
        decreases keys@.len() - i,
    {
        if !bytes_lt(keys[i].as_slice(), key) {
            proof {
                let ks = lines(keys@);
                assert forall|j: int| i <= j < ks.len() implies !lex_lt(#[trigger] ks[j], key@) by {
                    if j > i && lex_lt(ks[j], key@) {
                        assert(lex_lt(ks[i as int], ks[j]));
                        lemma_lex_transitive(ks[i as int], ks[j], key@);
                    }
                }
            }
            return i;
        }
        i += 1;
    }
    i
}

} // verus!
