//! The revision walker: the commits that some roots reach and some hidden
//! commits do not, children before parents, newest first among those that
//! may come next.

use vstd::prelude::*;
use crate::error::{EngineError, ErrorKind, Operation, Subject};
use crate::history::{ancestors, commit_at, commit_defect, get_commit, history_complete,
    ids_contain, ids_find, parents, reached_from};
use crate::oid::{id_lt, ObjectId};
use crate::store::{ObjectStore, Objects};

verus! {

/// `c` is in the range of a walk: the roots reach it, the hidden commits do
/// not.
pub open spec fn in_range(m: Objects, roots: Seq<ObjectId>, hidden: Seq<ObjectId>, c: ObjectId)
    -> bool {
    reached_from(m, roots, c) && !reached_from(m, hidden, c)
}

/// `c` may come next after `done`: it is in the range, has not come yet,
/// and every child of it in the range has.
pub open spec fn eligible(
    m: Objects,
    roots: Seq<ObjectId>,
    hidden: Seq<ObjectId>,
    done: Seq<ObjectId>,
    c: ObjectId,
) -> bool {
    &&& in_range(m, roots, hidden, c)
    &&& !done.contains(c)
    &&& forall|child: ObjectId|
        in_range(m, roots, hidden, child) && #[trigger] parents(m, child).contains(c)
            ==> done.contains(child)
}

/// The time of a commit: when it was committed.
pub open spec fn commit_time(m: Objects, c: ObjectId) -> i64 {
    commit_at(m, c)->0.committer.time
}

/// Of two commits that may come next, `x` comes no later than `y`: it is
/// newer, or as old and its id is not the greater one.
pub open spec fn precedes(m: Objects, x: ObjectId, y: ObjectId) -> bool {
    commit_time(m, x) > commit_time(m, y) || (commit_time(m, x) == commit_time(m, y) && !id_lt(
        y,
        x,
    ))
}

/// `c` is what comes next after `done`.
pub open spec fn comes_next(
    m: Objects,
    roots: Seq<ObjectId>,
    hidden: Seq<ObjectId>,
    done: Seq<ObjectId>,
    c: ObjectId,
) -> bool {
    eligible(m, roots, hidden, done, c) && forall|d: ObjectId| #[trigger]
        eligible(m, roots, hidden, done, d) ==> precedes(m, c, d)
}

/// `seq` is the beginning of the walk: each commit in it came next after
/// those before it. No commit comes before a child of it that comes at
/// all.
pub open spec fn walked(m: Objects, roots: Seq<ObjectId>, hidden: Seq<ObjectId>, seq: Seq<ObjectId>)
    -> bool {
    forall|i: int| 0 <= i < seq.len() ==> comes_next(m, roots, hidden, seq.take(i), #[trigger] seq[i])
}

/// `seq` is the whole walk: nothing in the range is left.
pub open spec fn is_walk(m: Objects, roots: Seq<ObjectId>, hidden: Seq<ObjectId>, seq: Seq<ObjectId>)
    -> bool {
    &&& walked(m, roots, hidden, seq)
    &&& seq.no_duplicates()
    &&& forall|c: ObjectId| #[trigger] seq.contains(c) <==> in_range(m, roots, hidden, c)
}

/// In a walk no commit comes before a child of it: a child in the range of
/// the commit at position `i` has come before position `i`.
pub proof fn lemma_children_first(
    m: Objects,
    roots: Seq<ObjectId>,
    hidden: Seq<ObjectId>,
    seq: Seq<ObjectId>,
    i: int,
    child: ObjectId,
)
    requires
        walked(m, roots, hidden, seq),
        0 <= i < seq.len(),
        in_range(m, roots, hidden, child),
        parents(m, child).contains(seq[i]),
    ensures
        exists|j: int| 0 <= j < i && seq[j] == child,
{
    assert(comes_next(m, roots, hidden, seq.take(i), seq[i]));
    assert(seq.take(i).contains(child));
    let j = choose|j: int| 0 <= j < seq.take(i).len() && seq.take(i)[j] == child;
    assert(seq[j] == child);
}

/// There is one walk: two sequences that are both the whole walk are the
/// same.
pub proof fn lemma_walk_unique(
    m: Objects,
    roots: Seq<ObjectId>,
    hidden: Seq<ObjectId>,
    a: Seq<ObjectId>,
    b: Seq<ObjectId>,
)
    requires
        is_walk(m, roots, hidden, a),
        is_walk(m, roots, hidden, b),
    ensures
        a == b,
{
    crate::history::lemma_distinct_within(a, b);
    crate::history::lemma_distinct_within(b, a);
    lemma_walks_agree(m, roots, hidden, a, b, a.len() as int);
    assert(a.take(a.len() as int) =~= a);
    assert(b.take(a.len() as int) =~= b);
}

proof fn lemma_walks_agree(
    m: Objects,
    roots: Seq<ObjectId>,
    hidden: Seq<ObjectId>,
    a: Seq<ObjectId>,
    b: Seq<ObjectId>,
    n: int,
)
    requires
        walked(m, roots, hidden, a),
        walked(m, roots, hidden, b),
        0 <= n <= a.len(),
        n <= b.len(),
    ensures
        a.take(n) == b.take(n),
    decreases n,
{
    if n == 0 {
        assert(a.take(0) =~= b.take(0));
    } else {
        lemma_walks_agree(m, roots, hidden, a, b, n - 1);
        assert(comes_next(m, roots, hidden, a.take(n - 1), a[n - 1]));
        assert(comes_next(m, roots, hidden, b.take(n - 1), b[n - 1]));
        assert(precedes(m, a[n - 1], b[n - 1]) && precedes(m, b[n - 1], a[n - 1]));
        assert(a[n - 1] == b[n - 1]);
        assert(a.take(n) =~= a.take(n - 1).push(a[n - 1]));
        assert(b.take(n) =~= b.take(n - 1).push(b[n - 1]));
    }
}

/// The walk is stuck after `done`: something in the range is left, but
/// nothing may come next. The history has a cycle.
pub open spec fn stuck(m: Objects, roots: Seq<ObjectId>, hidden: Seq<ObjectId>, done: Seq<ObjectId>)
    -> bool {
    &&& exists|c: ObjectId| in_range(m, roots, hidden, c) && !#[trigger] done.contains(c)
    &&& forall|c: ObjectId| !#[trigger] eligible(m, roots, hidden, done, c)
}

/// A walk fails with `e`: the history of a root or of a hidden commit
/// holds an id that does not read as a commit, which `e` names with the
/// reason; or all read, and a cycle stops the walk, which is `Corrupt`.
pub open spec fn walk_fails(m: Objects, roots: Seq<ObjectId>, hidden: Seq<ObjectId>, e: EngineError)
    -> bool {
    walk_fails_with(m, roots, hidden, e.kind, e.subject)
}

/// A walk fails with the class `kind` and the subject `subject`: see
/// [`walk_fails`].
pub open spec fn walk_fails_with(
    m: Objects,
    roots: Seq<ObjectId>,
    hidden: Seq<ObjectId>,
    kind: ErrorKind,
    subject: Subject,
) -> bool {
    (exists|bad: ObjectId|
        (reached_from(m, roots, bad) || reached_from(m, hidden, bad)) && commit_defect(m, bad)
            == Some(kind) && subject == Subject::Object(bad)) || (kind == ErrorKind::Corrupt
        && history_complete(m, roots) && history_complete(m, hidden) && exists|done: Seq<ObjectId>|
        walked(m, roots, hidden, done) && #[trigger] stuck(m, roots, hidden, done))
}

/// The commits in the range, each once.
fn range_of(store: &ObjectStore, roots: &Vec<ObjectId>, hidden: &Vec<ObjectId>) -> (r: Result<
    Vec<ObjectId>,
    EngineError,
>)
    requires
        store.wf(),
    ensures
        match r {
            Ok(pool) => {
                &&& history_complete(store@, roots@)
                &&& history_complete(store@, hidden@)
                &&& pool@.no_duplicates()
                &&& forall|c: ObjectId|
                    #[trigger] pool@.contains(c) <==> in_range(store@, roots@, hidden@, c)
            },
            Err(e) => exists|bad: ObjectId|
                (reached_from(store@, roots@, bad) || reached_from(store@, hidden@, bad))
                    && commit_defect(store@, bad) == Some(e.kind) && e.subject == Subject::Object(
                    bad,
                ) && e.operation == Operation::Walk,
        },
{
    let seen = match ancestors(store, roots) {
        Ok(v) => v,
        Err(e) => {
            return Err(e);
        },
    };
    let cut = match ancestors(store, hidden) {
        Ok(v) => v,
        Err(e) => {
            return Err(e);
        },
    };
    let mut pool: Vec<ObjectId> = Vec::new();
    let mut i: usize = 0;
    while i < seen.len()
        invariant
            i <= seen@.len(),
            seen@.no_duplicates(),
            pool@.no_duplicates(),
            forall|c: ObjectId|
                #[trigger] pool@.contains(c) <==> seen@.subrange(0, i as int).contains(c)
                    && !cut@.contains(c),
        decreases seen@.len() - i,
    {
        let c = seen[i];
        let ghost before = pool@;
        let ghost head = seen@.subrange(0, i as int);
        proof {
            assert(seen@.subrange(0, i + 1) =~= head.push(c));
            assert(!head.contains(c)) by {
                if head.contains(c) {
                    let j = choose|j: int| 0 <= j < head.len() && head[j] == c;
                    assert(seen@[j] == seen@[i as int]);
                }
            }
        }
        if !ids_contain(&cut, c) {
            pool.push(c);
            proof {
                assert forall|x: ObjectId| #[trigger]
                    pool@.contains(x) <==> head.push(c).contains(x) && !cut@.contains(x) by {
                    vstd::seq_lib::lemma_seq_contains_after_push(before, c, x);
                    vstd::seq_lib::lemma_seq_contains_after_push(head, c, x);
                }
                assert(!before.contains(c));
                assert(pool@ =~= before.push(c));
            }
        } else {
            proof {
                assert forall|x: ObjectId| #[trigger]
                    pool@.contains(x) <==> head.push(c).contains(x) && !cut@.contains(x) by {
                    vstd::seq_lib::lemma_seq_contains_after_push(head, c, x);
                }
            }
        }
        i += 1;
    }
    assert(seen@.subrange(0, i as int) =~= seen@);
    Ok(pool)
}

/// For each commit of `pool`, where its parents stand in `pool` and when it
/// was committed.
pub open spec fn linked(m: Objects, pool: Seq<ObjectId>, links: Seq<Vec<usize>>, times: Seq<i64>)
    -> bool {
    &&& links.len() == pool.len()
    &&& times.len() == pool.len()
    &&& forall|k: int| 0 <= k < pool.len() ==> #[trigger] times[k] == commit_time(m, pool[k])
    &&& forall|k: int, q: int|
        0 <= k < pool.len() && 0 <= q < links[k]@.len() ==> (#[trigger] links[k]@[q]) < pool.len()
            && parents(m, pool[k]).contains(pool[links[k]@[q] as int])
    &&& forall|k: int, j: usize|
        0 <= k < pool.len() && j < pool.len() && parents(m, pool[k]).contains(pool[j as int])
            ==> #[trigger] links[k]@.contains(j)
}

fn positions(pool: &Vec<ObjectId>, ps: &Vec<ObjectId>) -> (r: Vec<usize>)
    ensures
        forall|q: int| 0 <= q < r@.len() ==> (#[trigger] r@[q]) < pool@.len() && ps@.contains(
            pool@[r@[q] as int],
        ),
        forall|j: usize|
            j < pool@.len() && ps@.contains(pool@[j as int]) && pool@.no_duplicates()
                ==> #[trigger] r@.contains(j),
{
    let mut out: Vec<usize> = Vec::new();
    let mut i: usize = 0;
    while i < ps.len()
        invariant
            i <= ps@.len(),
            forall|q: int| 0 <= q < out@.len() ==> (#[trigger] out@[q]) < pool@.len() && ps@.contains(
                pool@[out@[q] as int],
            ),
            forall|j: usize|
                j < pool@.len() && ps@.subrange(0, i as int).contains(pool@[j as int])
                    && pool@.no_duplicates() ==> #[trigger] out@.contains(j),
        decreases ps@.len() - i,
    {
        let ghost head = ps@.subrange(0, i as int);
        let ghost before = out@;
        assert(ps@.subrange(0, i + 1) =~= head.push(ps@[i as int]));
        match ids_find(pool, ps[i]) {
            Some(at) => {
                out.push(at);
                proof {
                    assert forall|j: usize|
                        j < pool@.len() && head.push(ps@[i as int]).contains(pool@[j as int])
                            && pool@.no_duplicates() implies #[trigger] out@.contains(j) by {
                        vstd::seq_lib::lemma_seq_contains_after_push(
                            head,
                            ps@[i as int],
                            pool@[j as int],
                        );
                        vstd::seq_lib::lemma_seq_contains_after_push(before, at, j);
                        if pool@[j as int] == ps@[i as int] {
                            assert(j == at);
                        }
                    }
                    assert forall|q: int| 0 <= q < out@.len() implies (#[trigger] out@[q])
                        < pool@.len() && ps@.contains(pool@[out@[q] as int]) by {
                        if q < before.len() {
                            assert(out@[q] == before[q]);
                        }
                    }
                }
            },
            None => {
                proof {
                    assert forall|j: usize|
                        j < pool@.len() && head.push(ps@[i as int]).contains(pool@[j as int])
                            && pool@.no_duplicates() implies #[trigger] out@.contains(j) by {
                        vstd::seq_lib::lemma_seq_contains_after_push(
                            head,
                            ps@[i as int],
                            pool@[j as int],
                        );
                        assert(pool@.contains(pool@[j as int]));
                    }
                }
            },
        }
        i += 1;
    }
    assert(ps@.subrange(0, i as int) =~= ps@);
    out
}

fn links_of(store: &ObjectStore, pool: &Vec<ObjectId>) -> (r: Result<
    (Vec<Vec<usize>>, Vec<i64>),
    EngineError,
>)
    requires
        store.wf(),
        pool@.no_duplicates(),
    ensures
        match r {
            Ok((links, times)) => linked(store@, pool@, links@, times@),
            Err(e) => exists|bad: ObjectId|
                pool@.contains(bad) && commit_defect(store@, bad) == Some(e.kind) && e.subject
                    == Subject::Object(bad) && e.operation == Operation::Walk,
        },
{
    let mut links: Vec<Vec<usize>> = Vec::new();
    let mut times: Vec<i64> = Vec::new();
    let mut k: usize = 0;
    while k < pool.len()
        invariant
            store.wf(),
            k <= pool@.len(),
            pool@.no_duplicates(),
            links@.len() == k,
            times@.len() == k,
            forall|a: int| 0 <= a < k ==> #[trigger] times@[a] == commit_time(store@, pool@[a]),
            forall|a: int, q: int|
                0 <= a < k && 0 <= q < links@[a]@.len() ==> (#[trigger] links@[a]@[q]) < pool@.len()
                    && parents(store@, pool@[a]).contains(pool@[links@[a]@[q] as int]),
            forall|a: int, j: usize|
                0 <= a < k && j < pool@.len() && parents(store@, pool@[a]).contains(
                    pool@[j as int],
                ) ==> #[trigger] links@[a]@.contains(j),
        decreases pool@.len() - k,
    {
        let id = pool[k];
        assert(pool@.contains(id));
        let commit = match get_commit(store, id, Operation::Walk) {
            Ok(c) => c,
            Err(e) => {
                return Err(e);
            },
        };
        let at = positions(pool, &commit.parents);
        let ghost links_before = links@;
        let ghost times_before = times@;
        links.push(at);
        times.push(commit.committer.time);
        proof {
            assert forall|a: int| 0 <= a < k + 1 implies #[trigger] times@[a] == commit_time(
                store@,
                pool@[a],
            ) by {
                if a < k {
                    assert(times@[a] == times_before[a]);
                }
            }
            assert forall|a: int, q: int| 0 <= a < k + 1 && 0 <= q < links@[a]@.len() implies (
            #[trigger] links@[a]@[q]) < pool@.len() && parents(store@, pool@[a]).contains(
                pool@[links@[a]@[q] as int],
            ) by {
                if a < k {
                    assert(links@[a] == links_before[a]);
                }
            }
            assert forall|a: int, j: usize|
                0 <= a < k + 1 && j < pool@.len() && parents(store@, pool@[a]).contains(
                    pool@[j as int],
                ) implies #[trigger] links@[a]@.contains(j) by {
                if a < k {
                    assert(links@[a] == links_before[a]);
                }
            }
        }
        k += 1;
    }
    Ok((links, times))
}

/// Some commit that has not come yet has the commit at position `j` among
/// its parents.
pub open spec fn awaited(links: Seq<Vec<usize>>, done: Seq<bool>, upto: int, j: usize) -> bool {
    exists|k: int| 0 <= k < upto && !done[k] && (#[trigger] links[k])@.contains(j)
}

fn blocked_flags(links: &Vec<Vec<usize>>, done: &Vec<bool>) -> (flags: Vec<bool>)
    requires
        links@.len() == done@.len(),
        forall|k: int, q: int|
            0 <= k < links@.len() && 0 <= q < links@[k]@.len() ==> (#[trigger] links@[k]@[q])
                < links@.len(),
    ensures
        flags@.len() == done@.len(),
        forall|j: usize|
            j < flags@.len() ==> (#[trigger] flags@[j as int] <==> awaited(
                links@,
                done@,
                links@.len() as int,
                j,
            )),
{
    let n = links.len();
    let mut flags: Vec<bool> = Vec::new();
    let mut i: usize = 0;
    while i < n
        invariant
            i <= n,
            flags@.len() == i,
            forall|j: int| 0 <= j < i ==> !(#[trigger] flags@[j]),
        decreases n - i,
    {
        flags.push(false);
        i += 1;
    }
    let mut k: usize = 0;
    while k < n
        invariant
            k <= n,
            n == links@.len(),
            n == done@.len(),
            flags@.len() == n,
            forall|k: int, q: int|
                0 <= k < links@.len() && 0 <= q < links@[k]@.len() ==> (#[trigger] links@[k]@[q])
                    < links@.len(),
            forall|j: usize|
                j < n ==> (#[trigger] flags@[j as int] <==> awaited(links@, done@, k as int, j)),
        decreases n - k,
    {
        if !done[k] {
            let row = &links[k];
            let mut q: usize = 0;
            while q < row.len()
                invariant
                    q <= row@.len(),
                    k < n,
                    n == links@.len(),
                    n == done@.len(),
                    flags@.len() == n,
                    row@ == links@[k as int]@,
                    !done@[k as int],
                    forall|q: int| 0 <= q < row@.len() ==> (#[trigger] row@[q]) < n,
                    forall|j: usize|
                        j < n ==> (#[trigger] flags@[j as int] <==> awaited(
                            links@,
                            done@,
                            k as int,
                            j,
                        ) || row@.subrange(0, q as int).contains(j)),
                decreases row@.len() - q,
            {
                let at = row[q];
                let ghost head = row@.subrange(0, q as int);
                assert(row@.subrange(0, q + 1) =~= head.push(at));
                let ghost before = flags@;
                flags.set(at, true);
                proof {
                    assert forall|j: usize| j < n implies (#[trigger] flags@[j as int] <==> awaited(
                        links@,
                        done@,
                        k as int,
                        j,
                    ) || head.push(at).contains(j)) by {
                        vstd::seq_lib::lemma_seq_contains_after_push(head, at, j);
                        if j != at {
                            assert(flags@[j as int] == before[j as int]);
                        }
                    }
                }
                q += 1;
            }
            proof {
                assert(row@.subrange(0, q as int) =~= row@);
                assert forall|j: usize| j < n implies (#[trigger] flags@[j as int] <==> awaited(
                    links@,
                    done@,
                    k + 1,
                    j,
                )) by {
                    if awaited(links@, done@, k + 1, j) {
                        let w = choose|w: int|
                            0 <= w < k + 1 && !done@[w] && (#[trigger] links@[w])@.contains(j);
                        if w < k {
                            assert(awaited(links@, done@, k as int, j));
                        }
                    }
                    if row@.contains(j) {
                        assert(links@[k as int]@.contains(j));
                    }
                }
            }
        } else {
            proof {
                assert forall|j: usize| j < n implies (#[trigger] flags@[j as int] <==> awaited(
                    links@,
                    done@,
                    k + 1,
                    j,
                )) by {
                    if awaited(links@, done@, k + 1, j) {
                        let w = choose|w: int|
                            0 <= w < k + 1 && !done@[w] && (#[trigger] links@[w])@.contains(j);
                        assert(w < k);
                        assert(awaited(links@, done@, k as int, j));
                    }
                }
            }
        }
        k += 1;
    }
    flags
}

/// The order in which two candidates come: newer first, lower id first
/// among equally old ones.
pub open spec fn goes_first(t1: i64, id1: ObjectId, t2: i64, id2: ObjectId) -> bool {
    t1 > t2 || (t1 == t2 && !id_lt(id2, id1))
}

fn pick_next(pool: &Vec<ObjectId>, times: &Vec<i64>, done: &Vec<bool>, flags: &Vec<bool>) -> (r:
    Option<usize>)
    requires
        times@.len() == pool@.len(),
        done@.len() == pool@.len(),
        flags@.len() == pool@.len(),
    ensures
        match r {
            Some(j) => j < pool@.len() && !done@[j as int] && !flags@[j as int] && forall|i: int|
                0 <= i < pool@.len() && !done@[i] && !flags@[i] ==> goes_first(
                    times@[j as int],
                    pool@[j as int],
                    #[trigger] times@[i],
                    pool@[i],
                ),
            None => forall|i: int| 0 <= i < pool@.len() ==> #[trigger] done@[i] || flags@[i],
        },
{
    let mut best: Option<usize> = None;
    let mut i: usize = 0;
    while i < pool.len()
        invariant
            i <= pool@.len(),
            times@.len() == pool@.len(),
            done@.len() == pool@.len(),
            flags@.len() == pool@.len(),
            match best {
                Some(j) => j < i && !done@[j as int] && !flags@[j as int] && forall|a: int|
                    0 <= a < i && !done@[a] && !flags@[a] ==> goes_first(
                        times@[j as int],
                        pool@[j as int],
                        #[trigger] times@[a],
                        pool@[a],
                    ),
                None => forall|a: int| 0 <= a < i ==> #[trigger] done@[a] || flags@[a],
            },
        decreases pool@.len() - i,
    {
        if !done[i] && !flags[i] {
            let better = match best {
                None => true,
                Some(j) => times[i] > times[j] || (times[i] == times[j] && pool[i].below(&pool[j])),
            };
            if better {
                best = Some(i);
            }
        }
        i += 1;
    }
    best
}

/// The commits that `roots` reach and `hidden` do not, each once: no commit
/// before a child of it, and among those that may come next the newest
/// first, the one with the lowest id among equally new ones. Fails where
/// the history of a root or of a hidden commit holds an id that does not
/// read as a commit, and with `Corrupt` where a cycle stops the walk.
pub fn walk(store: &ObjectStore, roots: &Vec<ObjectId>, hidden: &Vec<ObjectId>) -> (r: Result<
    Vec<ObjectId>,
    EngineError,
>)
    requires
        store.wf(),
    ensures
        match r {
            Ok(seq) => history_complete(store@, roots@) && history_complete(store@, hidden@)
                && is_walk(store@, roots@, hidden@, seq@),
            Err(e) => walk_fails(store@, roots@, hidden@, e) && e.operation == Operation::Walk,
        },
{
    let pool = match range_of(store, roots, hidden) {
        Ok(p) => p,
        Err(e) => {
            return Err(e);
        },
    };
    let (links, times) = match links_of(store, &pool) {
        Ok(pair) => pair,
        Err(e) => {
            proof {
                let bad = choose|bad: ObjectId|
                    pool@.contains(bad) && commit_defect(store@, bad) == Some(e.kind) && e.subject
                        == Subject::Object(bad);
                assert(in_range(store@, roots@, hidden@, bad));
            }
            return Err(e);
        },
    };
    let n = pool.len();
    let mut done: Vec<bool> = Vec::new();
    let mut i: usize = 0;
    while i < n
        invariant
            i <= n,
            done@.len() == i,
            forall|j: int| 0 <= j < i ==> !(#[trigger] done@[j]),
        decreases n - i,
    {
        done.push(false);
        i += 1;
    }
    let mut out: Vec<ObjectId> = Vec::new();
    let ghost m = store@;
    while out.len() < n
        invariant
            n == pool@.len(),
            done@.len() == n,
            m == store@,
            history_complete(m, roots@),
            history_complete(m, hidden@),
            pool@.no_duplicates(),
            forall|c: ObjectId| #[trigger] pool@.contains(c) <==> in_range(m, roots@, hidden@, c),
            linked(m, pool@, links@, times@),
            out@.no_duplicates(),
            out@.len() <= n,
            forall|x: ObjectId| #[trigger] out@.contains(x) ==> pool@.contains(x),
            forall|j: int| 0 <= j < n ==> (#[trigger] done@[j] <==> out@.contains(pool@[j])),
            walked(m, roots@, hidden@, out@),
        decreases n - out@.len(),
    {
        let flags = blocked_flags(&links, &done);
        proof {
            assert forall|j: usize| j < n implies (eligible(
                m,
                roots@,
                hidden@,
                out@,
                #[trigger] pool@[j as int],
            ) <==> !done@[j as int] && !flags@[j as int]) by {
                lemma_eligible(m, roots@, hidden@, pool@, links@, times@, done@, out@, flags@, j);
            }
        }
        match pick_next(&pool, &times, &done, &flags) {
            None => {
                let mut left: Option<ObjectId> = None;
                let mut k: usize = 0;
                while k < n && left.is_none()
                    invariant
                        k <= n,
                        n == done@.len(),
                        n == pool@.len(),
                    decreases n - k,
                {
                    if !done[k] {
                        left = Some(pool[k]);
                    }
                    k += 1;
                }
                proof {
                    assert forall|c: ObjectId| !#[trigger] eligible(
                        m,
                        roots@,
                        hidden@,
                        out@,
                        c,
                    ) by {
                        if in_range(m, roots@, hidden@, c) {
                            assert(pool@.contains(c));
                            let j = choose|j: int| 0 <= j < pool@.len() && pool@[j] == c;
                            let ju = j as usize;
                            assert(done@[ju as int] || flags@[ju as int]);
                            assert(eligible(m, roots@, hidden@, out@, pool@[ju as int])
                                <==> !done@[ju as int] && !flags@[ju as int]);
                        }
                    }
                    if forall|c: ObjectId| #[trigger] pool@.contains(c) ==> out@.contains(c) {
                        crate::history::lemma_distinct_within(pool@, out@);
                    }
                    let c = choose|c: ObjectId| #[trigger] pool@.contains(c) && !out@.contains(c);
                    assert(in_range(m, roots@, hidden@, c) && !out@.contains(c));
                    assert(stuck(m, roots@, hidden@, out@));
                }
                return Err(
                    match left {
                        Some(id) => EngineError::about_object(
                            ErrorKind::Corrupt,
                            Operation::Walk,
                            id,
                        ),
                        None => EngineError::plain(ErrorKind::Corrupt, Operation::Walk),
                    },
                );
            },
            Some(j) => {
                let c = pool[j];
                let ghost before = out@;
                proof {
                    assert(eligible(m, roots@, hidden@, before, pool@[j as int]));
                    assert forall|d: ObjectId| #[trigger]
                        eligible(m, roots@, hidden@, before, d) implies precedes(m, c, d) by {
                        assert(pool@.contains(d));
                        let i = choose|i: int| 0 <= i < pool@.len() && pool@[i] == d;
                        let iu = i as usize;
                        assert(eligible(m, roots@, hidden@, before, pool@[iu as int])
                            <==> !done@[iu as int] && !flags@[iu as int]);
                        assert(times@[i] == commit_time(m, pool@[i]));
                        assert(times@[j as int] == commit_time(m, pool@[j as int]));
                    }
                    assert(comes_next(m, roots@, hidden@, before, c));
                }
                out.push(c);
                done.set(j, true);
                proof {
                    assert(pool@.contains(c));
                    assert forall|x: ObjectId| #[trigger] out@.contains(x) implies pool@.contains(
                        x,
                    ) by {
                        vstd::seq_lib::lemma_seq_contains_after_push(before, c, x);
                    }
                    assert(out@.no_duplicates()) by {
                        assert(!before.contains(c));
                        assert(out@ =~= before.push(c));
                    }
                    crate::history::lemma_distinct_within(out@, pool@);
                    assert forall|a: int| 0 <= a < n implies (#[trigger] done@[a] <==> out@.contains(
                        pool@[a],
                    )) by {
                        vstd::seq_lib::lemma_seq_contains_after_push(before, c, pool@[a]);
                    }
                    assert forall|a: int| 0 <= a < out@.len() implies comes_next(
                        m,
                        roots@,
                        hidden@,
                        out@.take(a),
                        #[trigger] out@[a],
                    ) by {
                        if a < before.len() {
                            assert(out@.take(a) =~= before.take(a));
                            assert(out@[a] == before[a]);
                        } else {
                            assert(out@.take(a) =~= before);
                        }
                    }
                }
            },
        }
    }
    proof {
        crate::history::lemma_distinct_same(out@, pool@);
        assert forall|c: ObjectId| #[trigger] out@.contains(c) <==> in_range(
            m,
            roots@,
            hidden@,
            c,
        ) by {
            assert(pool@.contains(c) <==> in_range(m, roots@, hidden@, c));
        }
    }
    Ok(out)
}

proof fn lemma_eligible(
    m: Objects,
    roots: Seq<ObjectId>,
    hidden: Seq<ObjectId>,
    pool: Seq<ObjectId>,
    links: Seq<Vec<usize>>,
    times: Seq<i64>,
    done: Seq<bool>,
    out: Seq<ObjectId>,
    flags: Seq<bool>,
    j: usize,
)
    requires
        pool.no_duplicates(),
        pool.len() <= usize::MAX,
        forall|c: ObjectId| #[trigger] pool.contains(c) <==> in_range(m, roots, hidden, c),
        linked(m, pool, links, times),
        done.len() == pool.len(),
        flags.len() == pool.len(),
        forall|a: int| 0 <= a < pool.len() ==> (#[trigger] done[a] <==> out.contains(pool[a])),
        forall|a: usize|
            a < flags.len() ==> (#[trigger] flags[a as int] <==> awaited(
                links,
                done,
                links.len() as int,
                a,
            )),
        j < pool.len(),
    ensures
        eligible(m, roots, hidden, out, pool[j as int]) <==> !done[j as int] && !flags[j as int],
{
    let c = pool[j as int];
    assert(pool.contains(c));
    if !done[j as int] && !flags[j as int] {
        assert forall|child: ObjectId|
            in_range(m, roots, hidden, child) && #[trigger] parents(m, child).contains(
                c,
            ) implies out.contains(child) by {
            assert(pool.contains(child));
            let k = choose|k: int| 0 <= k < pool.len() && pool[k] == child;
            assert(parents(m, pool[k]).contains(pool[j as int]));
            assert(links[k]@.contains(j));
            if !done[k] {
                assert(awaited(links, done, links.len() as int, j));
            }
        }
    }
    if flags[j as int] {
        let k = choose|k: int| 0 <= k < links.len() && !done[k] && (#[trigger] links[k])@.contains(j);
        let q = choose|q: int| 0 <= q < links[k]@.len() && links[k]@[q] == j;
        assert(parents(m, pool[k]).contains(pool[links[k]@[q] as int]));
        assert(pool.contains(pool[k]));
        assert(!out.contains(pool[k]));
    }
}

/// A walk that is set up step by step and read one commit at a time. The
/// sequence is computed when the first commit is asked for; [`RevWalk::reset`]
/// starts it over.
#[derive(Clone, Debug)]
pub struct RevWalk {
    roots: Vec<ObjectId>,
    hidden: Vec<ObjectId>,
    order: Vec<ObjectId>,
    at: usize,
    ready: bool,
}

impl RevWalk {
    /// The invariant of the type.
    pub closed spec fn wf(&self) -> bool {
        self.at <= self.order@.len() && (!self.ready ==> self.at == 0 && self.order@.len() == 0)
    }

    /// The roots pushed so far.
    pub closed spec fn roots(&self) -> Seq<ObjectId> {
        self.roots@
    }

    /// The commits hidden so far.
    pub closed spec fn hidden(&self) -> Seq<ObjectId> {
        self.hidden@
    }

    /// Whether the sequence has been computed.
    pub closed spec fn prepared(&self) -> bool {
        self.ready
    }

    /// The sequence, once computed.
    pub closed spec fn sequence(&self) -> Seq<ObjectId> {
        self.order@
    }

    /// How many commits have been handed out.
    pub closed spec fn position(&self) -> nat {
        self.at as nat
    }

    /// A walk without roots.
    pub fn new() -> (w: RevWalk)
        ensures
            w.wf(),
            w.roots().len() == 0,
            w.hidden().len() == 0,
            !w.prepared(),
            w.position() == 0,
    {
        RevWalk { roots: Vec::new(), hidden: Vec::new(), order: Vec::new(), at: 0, ready: false }
    }

    /// Adds a root. The walk starts over.
    pub fn push(&mut self, id: ObjectId)
        requires
            old(self).wf(),
        ensures
            final(self).wf(),
            final(self).roots() == old(self).roots().push(id),
            final(self).hidden() == old(self).hidden(),
            !final(self).prepared(),
            final(self).position() == 0,
    {
        self.roots.push(id);
        self.order = Vec::new();
        self.at = 0;
        self.ready = false;
    }

    /// Excludes `id` and everything that it reaches. The walk starts over.
    pub fn exclude(&mut self, id: ObjectId)
        requires
            old(self).wf(),
        ensures
            final(self).wf(),
            final(self).roots() == old(self).roots(),
            final(self).hidden() == old(self).hidden().push(id),
            !final(self).prepared(),
            final(self).position() == 0,
    {
        self.hidden.push(id);
        self.order = Vec::new();
        self.at = 0;
        self.ready = false;
    }

    /// Starts the sequence over without computing it again.
    pub fn reset(&mut self)
        requires
            old(self).wf(),
        ensures
            final(self).wf(),
            final(self).roots() == old(self).roots(),
            final(self).hidden() == old(self).hidden(),
            final(self).prepared() == old(self).prepared(),
            final(self).sequence() == old(self).sequence(),
            final(self).position() == 0,
    {
        self.at = 0;
    }

    /// The next commit of the walk, `None` when it is over. The first call
    /// computes the sequence in `store`, as [`walk`] does, and fails as it
    /// does, leaving the walk as it was.
    pub fn next(&mut self, store: &ObjectStore) -> (r: Result<Option<ObjectId>, EngineError>)
        requires
            old(self).wf(),
            store.wf(),
        ensures
            final(self).wf(),
            final(self).roots() == old(self).roots(),
            final(self).hidden() == old(self).hidden(),
            match r {
                Ok(next) => {
                    &&& final(self).prepared()
                    &&& if old(self).prepared() {
                        final(self).sequence() == old(self).sequence()
                    } else {
                        is_walk(store@, old(self).roots(), old(self).hidden(), final(self).sequence())
                    }
                    &&& if old(self).position() < final(self).sequence().len() {
                        next == Some(final(self).sequence()[old(self).position() as int])
                            && final(self).position() == old(self).position() + 1
                    } else {
                        next is None && final(self).position() == old(self).position()
                    }
                },
                Err(e) => !old(self).prepared() && !final(self).prepared() && final(self).position()
                    == 0 && walk_fails(store@, old(self).roots(), old(self).hidden(), e) && e.operation
                    == Operation::Walk,
            },
    {
        if !self.ready {
            match walk(store, &self.roots, &self.hidden) {
                Ok(seq) => {
                    self.order = seq;
                    self.ready = true;
                    self.at = 0;
                },
                Err(e) => {
                    return Err(e);
                },
            }
        }
        if self.at < self.order.len() {
            let id = self.order[self.at];
            self.at += 1;
            Ok(Some(id))
        } else {
            Ok(None)
        }
    }
}

} // verus!
