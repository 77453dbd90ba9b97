//! Paths: names of files, with `/` between the names of directories.

use vstd::prelude::*;

verus! {

/// The byte that separates the parts of a path: `/`.
pub const SLASH: u8 = 47;

/// How many bytes of `p` come before its first slash; all of them where it
/// has none.
pub open spec fn before_slash(p: Seq<u8>) -> nat
    decreases p.len(),
{
    if p.len() == 0 || p[0] == SLASH {
        0
    } else {
        1 + before_slash(p.drop_first())
    }
}

/// The head of a path: the name of its first directory with the slash that
/// follows it, or the whole path where it names a file at the top.
pub open spec fn head(p: Seq<u8>) -> Seq<u8> {
    if before_slash(p) < p.len() {
        p.take(before_slash(p) as int + 1)
    } else {
        p
    }
}

/// What follows the head of a path: the path below the first directory;
/// nothing for a file at the top.
pub open spec fn tail(p: Seq<u8>) -> Seq<u8> {
    p.skip(head(p).len() as int)
}

/// `h` is the head of paths below a directory: it ends with a slash.
pub open spec fn names_directory(h: Seq<u8>) -> bool {
    h.len() > 0 && h.last() == SLASH
}

/// A path is valid where none of its parts is empty: it is not empty, does
/// not begin or end with a slash, and has no two slashes in a row.
pub open spec fn valid_path(p: Seq<u8>) -> bool
    decreases p.len(),
{
    if p.len() == 0 {
        false
    } else if names_directory(head(p)) {
        head(p).len() > 1 && tail(p).len() > 0 && tail(p).len() < p.len() && valid_path(tail(p))
    } else {
        true
    }
}

/// Where the first slash stands.
pub proof fn lemma_before_slash(p: Seq<u8>)
    ensures
        before_slash(p) <= p.len(),
        forall|j: int| 0 <= j < before_slash(p) ==> p[j] != SLASH,
        before_slash(p) < p.len() ==> p[before_slash(p) as int] == SLASH,
    decreases p.len(),
{
    if p.len() > 0 && p[0] != SLASH {
        let q = p.drop_first();
        lemma_before_slash(q);
        assert forall|j: int| 0 <= j < before_slash(p) implies p[j] != SLASH by {
            if j > 0 {
                assert(p[j] == q[j - 1]);
            }
        }
        if before_slash(p) < p.len() {
            assert(p[before_slash(p) as int] == q[before_slash(q) as int]);
        }
    }
}

/// The first slash is where the first slash is: a position with a slash
/// before which there is none.
pub proof fn lemma_first_slash_at(p: Seq<u8>, k: int)
    requires
        0 <= k <= p.len(),
        forall|j: int| 0 <= j < k ==> p[j] != SLASH,
        k < p.len() ==> p[k] == SLASH,
    ensures
        before_slash(p) == k,
    decreases p.len(),
{
    if p.len() > 0 && k > 0 {
        let q = p.drop_first();
        assert forall|j: int| 0 <= j < k - 1 implies q[j] != SLASH by {
            assert(q[j] == p[j + 1]);
        }
        lemma_first_slash_at(q, k - 1);
    }
}

/// A path is its head followed by its tail; the head is not empty unless
/// the path is, and has no slash but at its end.
pub proof fn lemma_head_tail(p: Seq<u8>)
    ensures
        p == head(p) + tail(p),
        p.len() > 0 ==> head(p).len() > 0,
        forall|j: int| 0 <= j < head(p).len() - 1 ==> head(p)[j] != SLASH,
        !names_directory(head(p)) ==> head(p) == p && tail(p).len() == 0 && forall|j: int|
            0 <= j < p.len() ==> p[j] != SLASH,
{
    lemma_before_slash(p);
    assert(p =~= head(p) + tail(p));
    if !names_directory(head(p)) {
        if before_slash(p) < p.len() {
            assert(head(p).last() == p[before_slash(p) as int]);
        }
        assert(tail(p) =~= Seq::<u8>::empty());
    }
}

/// The head of what stands below a directory is the directory.
pub proof fn lemma_head_of_join(h: Seq<u8>, q: Seq<u8>)
    requires
        names_directory(h),
        forall|j: int| 0 <= j < h.len() - 1 ==> h[j] != SLASH,
    ensures
        head(h + q) == h,
        tail(h + q) == q,
{
    let p = h + q;
    lemma_first_slash_at(p, h.len() - 1);
    assert(head(p) =~= h);
    assert(tail(p) =~= q);
}

/// A name without a slash is its own head.
pub proof fn lemma_head_of_name(p: Seq<u8>)
    requires
        forall|j: int| 0 <= j < p.len() ==> p[j] != SLASH,
    ensures
        head(p) == p,
        tail(p).len() == 0,
{
    lemma_first_slash_at(p, p.len() as int);
    assert(tail(p) =~= Seq::<u8>::empty());
}

/// The length of the head of `path`.
pub fn head_len(path: &[u8]) -> (n: usize)
    ensures
        n == head(path@).len(),
        n <= path@.len(),
{
    let mut i: usize = 0;
    while i < path.len()
        invariant
            i <= path@.len(),
            forall|j: int| 0 <= j < i ==> path@[j] != SLASH,
        decreases path@.len() - i,
    {
        if path[i] == SLASH {
            proof {
                lemma_first_slash_at(path@, i as int);
            }
            return i + 1;
        }
        i += 1;
    }
    proof {
        lemma_first_slash_at(path@, i as int);
    }
    i
}

/// How many bytes of `path` from position `from` on come before the next
/// slash.
fn name_len(path: &[u8], from: usize) -> (n: usize)
    requires
        from <= path@.len(),
    ensures
        n == before_slash(path@.skip(from as int)),
        from + n <= path@.len(),
{
    let ghost rest = path@.skip(from as int);
    let mut i: usize = from;
    while i < path.len()
        invariant
            from <= i <= path@.len(),
            rest == path@.skip(from as int),
            forall|j: int| 0 <= j < i - from ==> rest[j] != SLASH,
        decreases path@.len() - i,
    {
        if path[i] == SLASH {
            proof {
                assert(rest[i - from] == path@[i as int]);
                lemma_first_slash_at(rest, i - from);
            }
            return i - from;
        }
        i += 1;
    }
    proof {
        lemma_first_slash_at(rest, i - from);
    }
    i - from
}

/// Whether no part of `path` is empty.
pub fn is_valid_path(path: &[u8]) -> (r: bool)
    ensures
        r == valid_path(path@),
{
    if path.len() == 0 {
        return false;
    }
    let mut from: usize = 0;
    let total = path.len();
    assert(path@.skip(0) =~= path@);
    loop
        invariant
            from < path@.len(),
            total == path@.len(),
            valid_path(path@) == valid_path(path@.skip(from as int)),
        decreases path@.len() - from,
    {
        let ghost rest = path@.skip(from as int);
        let n = name_len(path, from);
        proof {
            lemma_before_slash(rest);
            lemma_head_tail(rest);
        }
        if n == total - from {
            proof {
                lemma_head_of_name(rest);
            }
            return true;
        }
        proof {
            assert(head(rest).last() == rest[n as int]);
            assert(tail(rest) =~= path@.skip(from + n + 1));
        }
        if n == 0 || n + 1 == total - from {
            return false;
        }
        from = from + n + 1;
    }
}

} // verus!
