//! What is found when repositories are looked for: how a list of
//! repositories is put in order, how a commit is named in short, and how
//! the content of a file is shown.

use vstd::prelude::*;
use crate::bytes::{bytes_append, bytes_copy, bytes_eq, bytes_lt, bytes_range, lemma_lex_total,
    lemma_lex_transitive, lex_lt};
use crate::object::digits;
use crate::oid::{digest_of_id, hex_of, ObjectId};

verus! {

/// A repository as it is listed.
#[derive(Clone, Debug, PartialEq, Eq)]
pub struct RepositoryInfo {
    pub name: Vec<u8>,
    pub path: Vec<u8>,
    pub current_branch: Vec<u8>,
    pub last_commit: Vec<u8>,
    pub is_dirty: bool,
    pub last_accessed: i64,
}

/// A value of [`RepositoryInfo`] as a value of mathematics.
pub struct InfoView {
    pub name: Seq<u8>,
    pub path: Seq<u8>,
    pub current_branch: Seq<u8>,
    pub last_commit: Seq<u8>,
    pub is_dirty: bool,
    pub last_accessed: i64,
}

impl View for RepositoryInfo {
    type V = InfoView;

    open spec fn view(&self) -> InfoView {
        InfoView {
            name: self.name@,
            path: self.path@,
            current_branch: self.current_branch@,
            last_commit: self.last_commit@,
            is_dirty: self.is_dirty,
            last_accessed: self.last_accessed,
        }
    }
}

impl RepositoryInfo {
    /// A copy of the entry.
    pub fn copy(&self) -> (r: RepositoryInfo)
        ensures
            r@ == self@,
    {
        RepositoryInfo {
            name: bytes_copy(self.name.as_slice()),
            path: bytes_copy(self.path.as_slice()),
            current_branch: bytes_copy(self.current_branch.as_slice()),
            last_commit: bytes_copy(self.last_commit.as_slice()),
            is_dirty: self.is_dirty,
            last_accessed: self.last_accessed,
        }
    }
}

/// The views of a list of repositories.
pub open spec fn info_views(list: Seq<RepositoryInfo>) -> Seq<InfoView> {
    Seq::new(list.len(), |i: int| list[i]@)
}

/// The order of the listing: by name, and by path among repositories of
/// the same name.
pub open spec fn comes_before(a: InfoView, b: InfoView) -> bool {
    lex_lt(a.name, b.name) || (a.name == b.name && lex_lt(a.path, b.path))
}

/// The entry at position `i` is the first with its path.
pub open spec fn first_with_path(found: Seq<InfoView>, i: int) -> bool {
    0 <= i < found.len() && forall|j: int| 0 <= j < i ==> #[trigger] differs(found, j, i)
}

/// The entries at `j` and `i` have different paths.
pub open spec fn differs(found: Seq<InfoView>, j: int, i: int) -> bool {
    found[j].path != found[i].path
}

/// `s` is in the order of the listing.
pub open spec fn in_order(s: Seq<InfoView>) -> bool {
    forall|i: int, j: int| 0 <= i < j < s.len() ==> comes_before(#[trigger] s[i], #[trigger] s[j])
}

/// The entry at position `k` of `s` is, among the first `upto` of `found`,
/// the first with its path.
pub open spec fn kept_at(found: Seq<InfoView>, upto: int, s: Seq<InfoView>, k: int) -> bool {
    exists|i: int| i < upto && first_with_path(found, i) && #[trigger] found[i] == s[k]
}

/// Each entry of `s` is, among the first `upto` of `found`, the first with
/// its path.
pub open spec fn kept(found: Seq<InfoView>, upto: int, s: Seq<InfoView>) -> bool {
    forall|k: int| 0 <= k < s.len() ==> #[trigger] kept_at(found, upto, s, k)
}

/// The path of the entry at position `i` of `found` occurs in `s`.
pub open spec fn covered_at(found: Seq<InfoView>, s: Seq<InfoView>, i: int) -> bool {
    has_path(s, found[i].path)
}

/// Each path among the first `upto` of `found` occurs in `s`.
pub open spec fn covered(found: Seq<InfoView>, upto: int, s: Seq<InfoView>) -> bool {
    forall|i: int| 0 <= i < upto ==> #[trigger] covered_at(found, s, i)
}

/// `out` is `found` put in order: without the entries that repeat the path
/// of an earlier one, ordered by name and, under the same name, by path.
pub open spec fn arranged(found: Seq<InfoView>, out: Seq<InfoView>) -> bool {
    in_order(out) && kept(found, found.len() as int, out) && covered(found, found.len() as int, out)
}

/// The order of the listing is transitive, and of two entries with
/// different paths one comes before the other.
pub proof fn lemma_listing_order(a: InfoView, b: InfoView, c: InfoView)
    ensures
        comes_before(a, b) && comes_before(b, c) ==> comes_before(a, c),
        a.path != b.path ==> comes_before(a, b) || comes_before(b, a),
{
    if comes_before(a, b) && comes_before(b, c) {
        if lex_lt(a.name, b.name) && lex_lt(b.name, c.name) {
            lemma_lex_transitive(a.name, b.name, c.name);
        } else if a.name == b.name && b.name == c.name {
            lemma_lex_transitive(a.path, b.path, c.path);
        }
    }
    lemma_lex_total(a.name, b.name);
    lemma_lex_total(a.path, b.path);
}

/// `at` is where `fresh` belongs in `s`.
pub open spec fn is_place(s: Seq<InfoView>, fresh: InfoView, at: int) -> bool {
    &&& 0 <= at <= s.len()
    &&& forall|q: int| 0 <= q < at ==> comes_before(#[trigger] s[q], fresh)
    &&& at < s.len() ==> !comes_before(s[at], fresh)
}

/// `path` occurs in `s`.
pub open spec fn has_path(s: Seq<InfoView>, path: Seq<u8>) -> bool {
    exists|q: int| 0 <= q < s.len() && (#[trigger] s[q]).path == path
}

proof fn lemma_insert_in_order(s: Seq<InfoView>, fresh: InfoView, at: int)
    requires
        in_order(s),
        is_place(s, fresh, at),
        !has_path(s, fresh.path),
    ensures
        in_order(s.insert(at, fresh)),
{
    let t = s.insert(at, fresh);
    assert forall|i: int, j: int| 0 <= i < j < t.len() implies comes_before(
        #[trigger] t[i],
        #[trigger] t[j],
    ) by {
        if i == at {
            assert(t[j] == s[j - 1]);
            assert(s[at].path != fresh.path);
            lemma_listing_order(s[at], fresh, fresh);
            if j - 1 > at {
                assert(comes_before(s[at], s[j - 1]));
                lemma_listing_order(fresh, s[at], s[j - 1]);
            }
        } else if j == at {
            assert(t[i] == s[i]);
        } else {
            let x = if i < at { i } else { i - 1 };
            let y = if j < at { j } else { j - 1 };
            assert(t[i] == s[x] && t[j] == s[y]);
        }
    }
}

proof fn lemma_insert_kept(found: Seq<InfoView>, i: int, s: Seq<InfoView>, at: int)
    requires
        0 <= i < found.len(),
        0 <= at <= s.len(),
        kept(found, i, s),
        covered(found, i, s),
        !has_path(s, found[i].path),
    ensures
        kept(found, i + 1, s.insert(at, found[i])),
        covered(found, i + 1, s.insert(at, found[i])),
{
    let fresh = found[i];
    let t = s.insert(at, fresh);
    assert(first_with_path(found, i)) by {
        assert forall|j: int| 0 <= j < i implies #[trigger] differs(found, j, i) by {
            assert(covered_at(found, s, j));
        }
    }
    assert forall|k: int| 0 <= k < t.len() implies #[trigger] kept_at(found, i + 1, t, k) by {
        if k == at {
            assert(found[i] == t[k]);
        } else {
            let x = if k < at { k } else { k - 1 };
            assert(t[k] == s[x]);
            assert(kept_at(found, i, s, x));
            let j = choose|j: int| j < i && first_with_path(found, j) && #[trigger] found[j] == s[x];
            assert(found[j] == t[k]);
        }
    }
    assert forall|j: int| 0 <= j < i + 1 implies #[trigger] covered_at(found, t, j) by {
        if j < i {
            assert(covered_at(found, s, j));
            let q = choose|q: int| 0 <= q < s.len() && (#[trigger] s[q]).path == found[j].path;
            let q2 = if q < at { q } else { q + 1 };
            assert(t[q2] == s[q]);
            assert(t[q2].path == found[j].path);
        } else {
            assert(t[at].path == found[j].path);
        }
    }
}

proof fn lemma_skip_kept(found: Seq<InfoView>, i: int, s: Seq<InfoView>)
    requires
        0 <= i < found.len(),
        kept(found, i, s),
        covered(found, i, s),
        has_path(s, found[i].path),
    ensures
        kept(found, i + 1, s),
        covered(found, i + 1, s),
{
    assert forall|k: int| 0 <= k < s.len() implies #[trigger] kept_at(found, i + 1, s, k) by {
        assert(kept_at(found, i, s, k));
        let j = choose|j: int| j < i && first_with_path(found, j) && #[trigger] found[j] == s[k];
        assert(j < i + 1);
    }
    assert forall|j: int| 0 <= j < i + 1 implies #[trigger] covered_at(found, s, j) by {
        if j < i {
            assert(covered_at(found, s, j));
        }
    }
}

fn goes_before(a: &RepositoryInfo, b: &RepositoryInfo) -> (r: bool)
    ensures
        r == comes_before(a@, b@),
{
    bytes_lt(a.name.as_slice(), b.name.as_slice()) || (bytes_eq(
        a.name.as_slice(),
        b.name.as_slice(),
    ) && bytes_lt(a.path.as_slice(), b.path.as_slice()))
}

/// Whether the path of `item` occurs in `out`, and where `item` belongs.
fn find_place(out: &Vec<RepositoryInfo>, item: &RepositoryInfo) -> (r: (bool, usize))
    ensures
        r.0 == has_path(info_views(out@), item@.path),
        is_place(info_views(out@), item@, r.1 as int),
{
    let ghost s = info_views(out@);
    let mut known = false;
    let mut at: usize = out.len();
    let mut k: usize = 0;
    while k < out.len()
        invariant
            k <= out@.len(),
            at <= out@.len(),
            s == info_views(out@),
            known <==> has_path(s.take(k as int), item@.path),
            at == out@.len() ==> forall|q: int| 0 <= q < k ==> comes_before(#[trigger] s[q], item@),
            at < out@.len() ==> at < k && is_place(s, item@, at as int),
        decreases out@.len() - k,
    {
        proof {
            assert(s[k as int] == out@[k as int]@);
            assert(s.take(k + 1) =~= s.take(k as int).push(s[k as int]));
            if has_path(s.take(k as int), item@.path) {
                let q = choose|q: int|
                    0 <= q < s.take(k as int).len() && (#[trigger] s.take(k as int)[q]).path
                        == item@.path;
                assert(s.take(k + 1)[q].path == item@.path);
            }
            if has_path(s.take(k + 1), item@.path) && s[k as int].path != item@.path {
                let q = choose|q: int|
                    0 <= q < s.take(k + 1).len() && (#[trigger] s.take(k + 1)[q]).path == item@.path;
                assert(s.take(k as int)[q].path == item@.path);
            }
        }
        if bytes_eq(out[k].path.as_slice(), item.path.as_slice()) {
            known = true;
            assert(s.take(k + 1)[k as int].path == item@.path);
        }
        if at == out.len() && !goes_before(&out[k], item) {
            at = k;
        }
        k += 1;
    }
    assert(s.take(k as int) =~= s);
    (known, at)
}

/// Puts a list of repositories in order: an entry that repeats the path of
/// an earlier one is left out, and the rest is ordered by name and, under
/// the same name, by path.
pub fn arrange_repositories(found: &Vec<RepositoryInfo>) -> (out: Vec<RepositoryInfo>)
    ensures
        arranged(info_views(found@), info_views(out@)),
{
    let mut out: Vec<RepositoryInfo> = Vec::new();
    let ghost all = info_views(found@);
    let mut i: usize = 0;
    while i < found.len()
        invariant
            i <= found@.len(),
            all == info_views(found@),
            in_order(info_views(out@)),
            kept(all, i as int, info_views(out@)),
            covered(all, i as int, info_views(out@)),
        decreases found@.len() - i,
    {
        let item = &found[i];
        assert(all[i as int] == item@);
        let (known, at) = find_place(&out, item);
        let ghost before = info_views(out@);
        if !known {
            proof {
                lemma_insert_in_order(before, item@, at as int);
                lemma_insert_kept(all, i as int, before, at as int);
            }
            out.insert(at, item.copy());
            assert(info_views(out@) =~= before.insert(at as int, item@));
        } else {
            proof {
                lemma_skip_kept(all, i as int, before);
            }
        }
        i += 1;
    }
    out
}

/// How many hexadecimal digits name a commit in short.
pub const SHORT_ID: usize = 8;

/// The short name of a commit: the first eight hexadecimal digits of its
/// id.
pub fn short_id(id: ObjectId) -> (r: Vec<u8>)
    ensures
        r@ == hex_of(digest_of_id(id)).take(SHORT_ID as int),
{
    let hex = id.to_hex();
    let r = bytes_range(hex.as_slice(), 0, SHORT_ID);
    assert(r@ =~= hex@.take(SHORT_ID as int));
    r
}

/// Whether content is binary: whether it holds a zero byte.
pub fn is_binary(content: &[u8]) -> (r: bool)
    ensures
        r == content@.contains(0u8),
{
    let mut i: usize = 0;
    while i < content.len()
        invariant
            i <= content@.len(),
            forall|j: int| 0 <= j < i ==> content@[j] != 0u8,
        decreases content@.len() - i,
    {
        if content[i] == 0 {
            return true;
        }
        i += 1;
    }
    false
}

/// `Binary file (`
pub open spec fn binary_word() -> Seq<u8> {
    seq![66u8, 105u8, 110u8, 97u8, 114u8, 121u8, 32u8, 102u8, 105u8, 108u8, 101u8, 32u8, 40u8]
}

/// ` bytes)`
pub open spec fn bytes_word() -> Seq<u8> {
    seq![32u8, 98u8, 121u8, 116u8, 101u8, 115u8, 41u8]
}

/// What is shown of a file: its content, or for binary content the line
/// `Binary file (N bytes)` with its size.
pub open spec fn shown(content: Seq<u8>) -> Seq<u8> {
    if content.contains(0u8) {
        binary_word() + digits(content.len()) + bytes_word()
    } else {
        content
    }
}

fn push_number(out: &mut Vec<u8>, n: usize)
    ensures
        final(out)@ == old(out)@ + digits(n as nat),
    decreases n,
{
    if n < 10 {
        out.push(48 + n as u8);
        assert(out@ =~= old(out)@ + digits(n as nat));
    } else {
        push_number(out, n / 10);
        out.push(48 + (n % 10) as u8);
        assert(out@ =~= old(out)@ + digits(n as nat));
    }
}

/// What is shown of a file with the content `content`, and whether the
/// content is binary.
pub fn show_content(content: &[u8]) -> (r: (Vec<u8>, bool))
    ensures
        r.0@ == shown(content@),
        r.1 == content@.contains(0u8),
{
    if is_binary(content) {
        let mut out: Vec<u8> = vec![
            66u8,
            105u8,
            110u8,
            97u8,
            114u8,
            121u8,
            32u8,
            102u8,
            105u8,
            108u8,
            101u8,
            32u8,
            40u8,
        ];
        assert(out@ =~= binary_word());
        push_number(&mut out, content.len());
        let tail: Vec<u8> = vec![32u8, 98u8, 121u8, 116u8, 101u8, 115u8, 41u8];
        assert(tail@ =~= bytes_word());
        bytes_append(&mut out, tail.as_slice());
        (out, true)
    } else {
        (bytes_copy(content), false)
    }
}

} // verus!
