//! Reading history and branches.

use vstd::prelude::*;
use crate::bytes::{bytes_copy, bytes_eq, bytes_start_with};
use crate::error::{EngineError, ErrorKind, Operation};
use crate::history::{ancestors, commit_at, get_commit, history_complete, lists_history};
use crate::keys::lines;
use crate::object::ids_copy;
use crate::oid::ObjectId;
use crate::refs::{direct_at, resolved, Refs};
use crate::repo::{head_state, heads_prefix, Repository};
use crate::store::Objects;
use crate::walk::{is_walk, walk, walk_fails};

verus! {

/// A commit as a log lists it.
#[derive(Clone, Debug, PartialEq, Eq)]
pub struct LogEntry {
    pub id: ObjectId,
    pub message: Vec<u8>,
    pub author: Vec<u8>,
    pub email: Vec<u8>,
    pub timestamp: i64,
    pub parents: Vec<ObjectId>,
    pub refs: Vec<Vec<u8>>,
}

/// `refs/`
pub open spec fn refs_prefix() -> Seq<u8> {
    seq![114u8, 101u8, 102u8, 115u8, 47u8]
}

/// `refs/tags/`
pub open spec fn tags_prefix() -> Seq<u8> {
    seq![114u8, 101u8, 102u8, 115u8, 47u8, 116u8, 97u8, 103u8, 115u8, 47u8]
}

/// The short name of the reference `full`: what follows `refs/heads/`,
/// `refs/tags/`, `refs/remotes/` or else `refs/`; the name itself where it
/// starts with none of them.
pub open spec fn short_name(full: Seq<u8>) -> Seq<u8> {
    if heads_prefix().is_prefix_of(full) {
        full.skip(heads_prefix().len() as int)
    } else if tags_prefix().is_prefix_of(full) {
        full.skip(tags_prefix().len() as int)
    } else if remotes_prefix().is_prefix_of(full) {
        full.skip(remotes_prefix().len() as int)
    } else if refs_prefix().is_prefix_of(full) {
        full.skip(refs_prefix().len() as int)
    } else {
        full
    }
}

/// Of the names `bound`, those under `refs/`, each by its short name.
pub open spec fn shown(bound: Seq<Seq<u8>>) -> Seq<Seq<u8>> {
    bound.filter(|n: Seq<u8>| refs_prefix().is_prefix_of(n)).map_values(|n: Seq<u8>| short_name(n))
}

/// The references that a log shows at the commit `id`: the references
/// under `refs/` that are bound to `id` itself, in the order of their full
/// names, each by its short name. `HEAD` is not among them.
pub open spec fn decorations(names: Seq<Seq<u8>>, refs: Refs, id: ObjectId) -> Seq<Seq<u8>> {
    shown(names.filter(|n: Seq<u8>| direct_at(refs, n) == Some(id)))
}

/// `entry` lists the commit `id`: its message, the name and the address
/// of its author, the time of the commit, its parents, and the references
/// that [`decorations`] gives for it.
pub open spec fn lists_commit(m: Objects, names: Seq<Seq<u8>>, refs: Refs, id: ObjectId, entry: LogEntry)
    -> bool {
    &&& commit_at(m, id) matches Some(c)
    &&& entry.id == id
    &&& entry.message@ == c.message
    &&& entry.author@ == c.author.name
    &&& entry.email@ == c.author.email
    &&& entry.timestamp == c.committer.time
    &&& entry.parents@ == c.parents
    &&& lines(entry.refs@) == decorations(names, refs, id)
}

/// `list` is the beginning of the walk from `head`: at most `limit`
/// commits, each listed as [`lists_commit`] says.
pub open spec fn is_log(
    m: Objects,
    names: Seq<Seq<u8>>,
    refs: Refs,
    head: ObjectId,
    limit: usize,
    list: Seq<LogEntry>,
) -> bool {
    exists|seq: Seq<ObjectId>|
        {
            &&& #[trigger] is_walk(m, seq![head], Seq::empty(), seq)
            &&& list.len() == (if limit <= seq.len() {
                limit as int
            } else {
                seq.len() as int
            })
            &&& forall|i: int|
                0 <= i < list.len() ==> lists_commit(m, names, refs, seq[i], #[trigger] list[i])
        }
}

/// How many commits a log lists where no limit is given.
pub const LOG_LIMIT: usize = 100;

/// How many commits [`Repository::get_commits`] lists where no limit is
/// given.
pub const COMMITS_LIMIT: usize = 50;

/// `refs/remotes/`
pub open spec fn remotes_prefix() -> Seq<u8> {
    seq![114u8, 101u8, 102u8, 115u8, 47u8, 114u8, 101u8, 109u8, 111u8, 116u8, 101u8, 115u8, 47u8]
}

/// `Unknown`
pub open spec fn unknown_word() -> Seq<u8> {
    seq![85u8, 110u8, 107u8, 110u8, 111u8, 119u8, 110u8]
}

/// A branch as it is listed.
#[derive(Clone, Debug, PartialEq, Eq)]
pub struct BranchEntry {
    pub name: Vec<u8>,
    pub is_head: bool,
    pub is_remote: bool,
    pub target: Option<ObjectId>,
}

/// A branch as it is listed in detail: with the number of commits that it
/// reaches and the message and the time of its last commit.
#[derive(Clone, Debug, PartialEq, Eq)]
pub struct BranchInfo {
    pub name: Vec<u8>,
    pub is_current: bool,
    pub is_remote: bool,
    pub commit_count: usize,
    pub last_commit_message: Vec<u8>,
    pub last_commit_date: i64,
}

/// The branch of `HEAD`, where `HEAD` can be followed.
pub open spec fn current_branch(refs: Refs) -> Option<Seq<u8>> {
    match head_state(refs) {
        Ok((leaf, _)) => Some(leaf),
        Err(_) => None,
    }
}

/// `entry` lists the reference `full`, whose short name follows a prefix
/// of `skip` bytes.
pub open spec fn lists_branch(refs: Refs, full: Seq<u8>, skip: int, remote: bool, entry: BranchEntry)
    -> bool {
    &&& entry.name@ == full.skip(skip)
    &&& entry.is_remote == remote
    &&& entry.is_head == (current_branch(refs) == Some(full))
    &&& entry.target == direct_at(refs, full)
}

/// `info` describes the reference `full` in detail. Where the reference
/// resolves to a commit whose whole history reads well, the count is the
/// number of commits that it reaches; else the message is `Unknown` and the
/// numbers are 0.
pub open spec fn describes_branch(
    m: Objects,
    refs: Refs,
    full: Seq<u8>,
    skip: int,
    remote: bool,
    info: BranchInfo,
) -> bool {
    &&& info.name@ == full.skip(skip)
    &&& info.is_remote == remote
    &&& info.is_current == (!remote && current_branch(refs) == Some(full))
    &&& match resolved(refs, full) {
        Ok(tip) => if history_complete(m, seq![tip]) {
            &&& info.last_commit_message@ == commit_at(m, tip)->0.message
            &&& info.last_commit_date == commit_at(m, tip)->0.committer.time
            &&& exists|v: Seq<ObjectId>| #[trigger]
                lists_history(m, seq![tip], v) && info.commit_count == v.len()
        } else {
            info.last_commit_message@ == unknown_word() && info.last_commit_date == 0
                && info.commit_count == 0
        },
        Err(_) => info.last_commit_message@ == unknown_word() && info.last_commit_date == 0
            && info.commit_count == 0,
    }
}

fn heads() -> (r: Vec<u8>)
    ensures
        r@ == heads_prefix(),
{
    let r: Vec<u8> = vec![
        114u8,
        101u8,
        102u8,
        115u8,
        47u8,
        104u8,
        101u8,
        97u8,
        100u8,
        115u8,
        47u8,
    ];
    assert(r@ =~= heads_prefix());
    r
}

fn remotes() -> (r: Vec<u8>)
    ensures
        r@ == remotes_prefix(),
{
    let r: Vec<u8> = vec![
        114u8,
        101u8,
        102u8,
        115u8,
        47u8,
        114u8,
        101u8,
        109u8,
        111u8,
        116u8,
        101u8,
        115u8,
        47u8,
    ];
    assert(r@ =~= remotes_prefix());
    r
}

fn refs_dir() -> (r: Vec<u8>)
    ensures
        r@ == refs_prefix(),
{
    let r: Vec<u8> = vec![114u8, 101u8, 102u8, 115u8, 47u8];
    assert(r@ =~= refs_prefix());
    r
}

fn tags() -> (r: Vec<u8>)
    ensures
        r@ == tags_prefix(),
{
    let r: Vec<u8> = vec![114u8, 101u8, 102u8, 115u8, 47u8, 116u8, 97u8, 103u8, 115u8, 47u8];
    assert(r@ =~= tags_prefix());
    r
}

/// The short name of the reference `full`.
pub fn shorten(full: &Vec<u8>) -> (r: Vec<u8>)
    ensures
        r@ == short_name(full@),
{
    if bytes_start_with(full.as_slice(), heads().as_slice()) {
        tail_of(full, 11)
    } else if bytes_start_with(full.as_slice(), tags().as_slice()) {
        tail_of(full, 10)
    } else if bytes_start_with(full.as_slice(), remotes().as_slice()) {
        tail_of(full, 13)
    } else if bytes_start_with(full.as_slice(), refs_dir().as_slice()) {
        tail_of(full, 5)
    } else {
        bytes_copy(full.as_slice())
    }
}

/// Of the names `bound`, those under `refs/`, each by its short name.
fn show(bound: &Vec<Vec<u8>>) -> (r: Vec<Vec<u8>>)
    ensures
        lines(r@) == shown(lines(bound@)),
{
    let mut out: Vec<Vec<u8>> = Vec::new();
    let ghost under = |n: Seq<u8>| refs_prefix().is_prefix_of(n);
    let ghost short = |n: Seq<u8>| short_name(n);
    let mut i: usize = 0;
    proof {
        reveal(Seq::filter);
        assert(lines(bound@).take(0) =~= Seq::<Seq<u8>>::empty());
        assert(lines(out@) =~= Seq::<Seq<u8>>::empty());
        assert(Seq::<Seq<u8>>::empty().filter(under).map_values(short) =~= Seq::<Seq<u8>>::empty());
    }
    while i < bound.len()
        invariant
            i <= bound@.len(),
            under == (|n: Seq<u8>| refs_prefix().is_prefix_of(n)),
            short == (|n: Seq<u8>| short_name(n)),
            lines(out@) == lines(bound@).take(i as int).filter(under).map_values(short),
        decreases bound@.len() - i,
    {
        let ghost before = lines(out@);
        let ghost kept = lines(bound@).take(i as int).filter(under);
        proof {
            let s = lines(bound@).take(i + 1);
            assert(s.drop_last() =~= lines(bound@).take(i as int));
            reveal(Seq::filter);
            assert(s.last() == bound@[i as int]@);
        }
        if bytes_start_with(bound[i].as_slice(), refs_dir().as_slice()) {
            out.push(shorten(&bound[i]));
            assert(lines(out@) =~= before.push(short_name(bound@[i as int]@)));
            assert(kept.push(bound@[i as int]@).map_values(short) =~= before.push(
                short_name(bound@[i as int]@),
            ));
        }
        i += 1;
    }
    assert(lines(bound@).take(i as int) =~= lines(bound@));
    out
}

fn tail_of(full: &Vec<u8>, skip: usize) -> (r: Vec<u8>)
    requires
        skip <= full@.len(),
    ensures
        r@ == full@.skip(skip as int),
{
    let mut out: Vec<u8> = Vec::new();
    let mut i: usize = skip;
    while i < full.len()
        invariant
            skip <= i <= full@.len(),
            out@ == full@.subrange(skip as int, i as int),
        decreases full@.len() - i,
    {
        out.push(full[i]);
        assert(out@ =~= full@.subrange(skip as int, i + 1));
        i += 1;
    }
    assert(out@ =~= full@.skip(skip as int));
    out
}

impl Repository {
    fn entry_of(&self, id: ObjectId) -> (r: Result<LogEntry, EngineError>)
        requires
            self.wf(),
        ensures
            match r {
                Ok(entry) => lists_commit(self.objects@, self.refs.names(), self.refs@, id, entry),
                Err(e) => commit_at(self.objects@, id) is None && crate::history::commit_defect(
                    self.objects@,
                    id,
                ) == Some(e.kind),
            },
    {
        let commit = match get_commit(&self.objects, id, Operation::Walk) {
            Ok(c) => c,
            Err(e) => {
                return Err(e);
            },
        };
        Ok(
            LogEntry {
                id,
                message: bytes_copy(commit.message.as_slice()),
                author: bytes_copy(commit.author.name.as_slice()),
                email: bytes_copy(commit.author.email.as_slice()),
                timestamp: commit.committer.time,
                parents: ids_copy(&commit.parents),
                refs: show(&self.refs.names_of(id)),
            },
        )
    }

    fn log(&self, limit: usize) -> (r: Result<Vec<LogEntry>, EngineError>)
        requires
            self.wf(),
        ensures
            match r {
                Ok(list) => head_state(self.refs@) matches Ok((leaf, Some(head))) && is_log(
                    self.objects@,
                    self.refs.names(),
                    self.refs@,
                    head,
                    limit,
                    list@,
                ),
                Err(e) => match head_state(self.refs@) {
                    Err(k) => e.kind == k,
                    Ok((leaf, None)) => e.kind == ErrorKind::NotFound,
                    Ok((leaf, Some(head))) => walk_fails(
                        self.objects@,
                        seq![head],
                        Seq::empty(),
                        e,
                    ),
                },
            },
    {
        let head = match self.head_state() {
            Ok((_, Some(head))) => head,
            Ok((leaf, None)) => {
                return Err(
                    EngineError::about_name(ErrorKind::NotFound, Operation::Walk, leaf.as_slice()),
                );
            },
            Err(e) => {
                return Err(e);
            },
        };
        let mut roots: Vec<ObjectId> = Vec::new();
        roots.push(head);
        let hidden: Vec<ObjectId> = Vec::new();
        assert(roots@ =~= seq![head]);
        assert(hidden@ =~= Seq::<ObjectId>::empty());
        let seq = match walk(&self.objects, &roots, &hidden) {
            Ok(s) => s,
            Err(e) => {
                return Err(e);
            },
        };
        let n = if limit <= seq.len() {
            limit
        } else {
            seq.len()
        };
        let mut out: Vec<LogEntry> = Vec::new();
        let mut i: usize = 0;
        while i < n
            invariant
                self.wf(),
                i <= n,
                n <= seq@.len(),
                out@.len() == i,
                is_walk(self.objects@, roots@, hidden@, seq@),
                history_complete(self.objects@, roots@),
                forall|j: int|
                    0 <= j < i ==> lists_commit(
                        self.objects@,
                        self.refs.names(),
                        self.refs@,
                        seq@[j],
                        #[trigger] out@[j],
                    ),
            decreases n - i,
        {
            let entry = match self.entry_of(seq[i]) {
                Ok(e) => e,
                Err(e) => {
                    proof {
                        assert(seq@.contains(seq@[i as int]));
                        assert(crate::walk::in_range(self.objects@, roots@, hidden@, seq@[i as int]));
                    }
                    return Err(e);
                },
            };
            out.push(entry);
            i += 1;
        }
        Ok(out)
    }

    /// The history of `HEAD` as a graph: the first `limit` commits of the
    /// walk from `HEAD` (100 where no limit is given), each with its
    /// parents and the references that are bound to it.
    pub fn get_log_graph(&self, limit: Option<usize>) -> (r: Result<Vec<LogEntry>, EngineError>)
        requires
            self.wf(),
        ensures
            r matches Err(e) ==> e.operation == Operation::Log,
            match r {
                Ok(list) => head_state(self.refs@) matches Ok((leaf, Some(head))) && is_log(
                    self.objects@,
                    self.refs.names(),
                    self.refs@,
                    head,
                    match limit {
                        Some(n) => n,
                        None => LOG_LIMIT,
                    },
                    list@,
                ),
                Err(e) => match head_state(self.refs@) {
                    Err(k) => e.kind == k,
                    Ok((leaf, None)) => e.kind == ErrorKind::NotFound,
                    Ok((leaf, Some(head))) => walk_fails(
                        self.objects@,
                        seq![head],
                        Seq::empty(),
                        e,
                    ),
                },
            },
    {
        let list = self.log(
            match limit {
                Some(n) => n,
                None => LOG_LIMIT,
            },
        );
        match list {
            Ok(v) => Ok(v),
            Err(e) => Err(e.during(Operation::Log)),
        }
    }

    /// The history of `HEAD`: the first `limit` commits of the walk from
    /// `HEAD` (50 where no limit is given).
    pub fn get_commits(&self, limit: Option<usize>) -> (r: Result<Vec<LogEntry>, EngineError>)
        requires
            self.wf(),
        ensures
            r matches Err(e) ==> e.operation == Operation::Log,
            match r {
                Ok(list) => head_state(self.refs@) matches Ok((leaf, Some(head))) && is_log(
                    self.objects@,
                    self.refs.names(),
                    self.refs@,
                    head,
                    match limit {
                        Some(n) => n,
                        None => COMMITS_LIMIT,
                    },
                    list@,
                ),
                Err(e) => match head_state(self.refs@) {
                    Err(k) => e.kind == k,
                    Ok((leaf, None)) => e.kind == ErrorKind::NotFound,
                    Ok((leaf, Some(head))) => walk_fails(
                        self.objects@,
                        seq![head],
                        Seq::empty(),
                        e,
                    ),
                },
            },
    {
        let list = self.log(
            match limit {
                Some(n) => n,
                None => COMMITS_LIMIT,
            },
        );
        match list {
            Ok(v) => Ok(v),
            Err(e) => Err(e.during(Operation::Log)),
        }
    }

    /// The branches: the local ones, then those of remotes, each group in
    /// ascending order of the names.
    pub fn get_branches(&self) -> (r: Vec<BranchEntry>)
        requires
            self.wf(),
        ensures
            ({
                let local = self.refs.names().filter(|n: Seq<u8>| heads_prefix().is_prefix_of(n));
                let remote = self.refs.names().filter(
                    |n: Seq<u8>| remotes_prefix().is_prefix_of(n),
                );
                &&& r@.len() == local.len() + remote.len()
                &&& forall|i: int|
                    0 <= i < local.len() ==> lists_branch(
                        self.refs@,
                        local[i],
                        heads_prefix().len() as int,
                        false,
                        #[trigger] r@[i],
                    )
                &&& forall|i: int|
                    0 <= i < remote.len() ==> lists_branch(
                        self.refs@,
                        remote[i],
                        remotes_prefix().len() as int,
                        true,
                        #[trigger] r@[local.len() + i],
                    )
            }),
    {
        let current = match self.head_state() {
            Ok((leaf, _)) => Some(leaf),
            Err(_) => None,
        };
        let mut out: Vec<BranchEntry> = Vec::new();
        let local = self.refs.list(heads().as_slice());
        let ghost locals = lines(local@);
        let mut i: usize = 0;
        while i < local.len()
            invariant
                self.wf(),
                i <= local@.len(),
                out@.len() == i,
                locals == lines(local@),
                locals == self.refs.names().filter(|n: Seq<u8>| heads_prefix().is_prefix_of(n)),
                match current {
                    Some(c) => current_branch(self.refs@) == Some(c@),
                    None => current_branch(self.refs@) is None,
                },
                forall|j: int|
                    0 <= j < i ==> lists_branch(
                        self.refs@,
                        locals[j],
                        heads_prefix().len() as int,
                        false,
                        #[trigger] out@[j],
                    ),
            decreases local@.len() - i,
        {
            let full = &local[i];
            proof {
                assert(locals[i as int] == full@);
                let keep = |n: Seq<u8>| heads_prefix().is_prefix_of(n);
                self.refs.names().lemma_filter_pred(keep, i as int);
            }
            let is_head = match &current {
                Some(c) => bytes_eq(c.as_slice(), full.as_slice()),
                None => false,
            };
            out.push(
                BranchEntry {
                    name: tail_of(full, 11),
                    is_head,
                    is_remote: false,
                    target: self.refs.direct(full.as_slice()),
                },
            );
            i += 1;
        }
        let remote = self.refs.list(remotes().as_slice());
        let ghost remote_names = lines(remote@);
        let mut k: usize = 0;
        while k < remote.len()
            invariant
                self.wf(),
                k <= remote@.len(),
                out@.len() == local@.len() + k,
                locals == lines(local@),
                remote_names == lines(remote@),
                remote_names == self.refs.names().filter(
                    |n: Seq<u8>| remotes_prefix().is_prefix_of(n),
                ),
                match current {
                    Some(c) => current_branch(self.refs@) == Some(c@),
                    None => current_branch(self.refs@) is None,
                },
                forall|j: int|
                    0 <= j < locals.len() ==> lists_branch(
                        self.refs@,
                        locals[j],
                        heads_prefix().len() as int,
                        false,
                        #[trigger] out@[j],
                    ),
                forall|j: int|
                    0 <= j < k ==> lists_branch(
                        self.refs@,
                        remote_names[j],
                        remotes_prefix().len() as int,
                        true,
                        #[trigger] out@[locals.len() + j],
                    ),
            decreases remote@.len() - k,
        {
            let full = &remote[k];
            proof {
                assert(remote_names[k as int] == full@);
                let keep = |n: Seq<u8>| remotes_prefix().is_prefix_of(n);
                self.refs.names().lemma_filter_pred(keep, k as int);
            }
            let is_head = match &current {
                Some(c) => bytes_eq(c.as_slice(), full.as_slice()),
                None => false,
            };
            let ghost before = out@;
            out.push(
                BranchEntry {
                    name: tail_of(full, 13),
                    is_head,
                    is_remote: true,
                    target: self.refs.direct(full.as_slice()),
                },
            );
            proof {
                assert forall|j: int| 0 <= j < locals.len() implies lists_branch(
                    self.refs@,
                    locals[j],
                    heads_prefix().len() as int,
                    false,
                    #[trigger] out@[j],
                ) by {
                    assert(out@[j] == before[j]);
                }
                assert forall|j: int| 0 <= j < k + 1 implies lists_branch(
                    self.refs@,
                    remote_names[j],
                    remotes_prefix().len() as int,
                    true,
                    #[trigger] out@[locals.len() + j],
                ) by {
                    if j < k {
                        assert(out@[locals.len() + j] == before[locals.len() + j]);
                    }
                }
            }
            k += 1;
        }
        out
    }

    /// What a detailed listing says of the reference `full`.
    fn describe(&self, full: &Vec<u8>, skip: usize, remote: bool, current: &Option<Vec<u8>>) -> (r:
        BranchInfo)
        requires
            self.wf(),
            skip <= full@.len(),
            match current {
                Some(c) => current_branch(self.refs@) == Some(c@),
                None => current_branch(self.refs@) is None,
            },
        ensures
            describes_branch(self.objects@, self.refs@, full@, skip as int, remote, r),
    {
        let is_current = !remote && match current {
            Some(c) => bytes_eq(c.as_slice(), full.as_slice()),
            None => false,
        };
        let name = tail_of(full, skip);
        let unknown: Vec<u8> = vec![85u8, 110u8, 107u8, 110u8, 111u8, 119u8, 110u8];
        assert(unknown@ =~= unknown_word());
        let tip = match self.refs.resolve(full.as_slice()) {
            Ok(id) => id,
            Err(_) => {
                return BranchInfo {
                    name,
                    is_current,
                    is_remote: remote,
                    commit_count: 0,
                    last_commit_message: unknown,
                    last_commit_date: 0,
                };
            },
        };
        let mut roots: Vec<ObjectId> = Vec::new();
        roots.push(tip);
        assert(roots@ =~= seq![tip]);
        match ancestors(&self.objects, &roots) {
            Ok(v) => {
                proof {
                    crate::history::lemma_reaches_self(self.objects@, tip);
                    assert(crate::history::reached_from(self.objects@, roots@, roots@[0]));
                }
                match get_commit(&self.objects, tip, Operation::Branch) {
                    Ok(c) => BranchInfo {
                        name,
                        is_current,
                        is_remote: remote,
                        commit_count: v.len(),
                        last_commit_message: bytes_copy(c.message.as_slice()),
                        last_commit_date: c.committer.time,
                    },
                    Err(_) => BranchInfo {
                        name,
                        is_current,
                        is_remote: remote,
                        commit_count: 0,
                        last_commit_message: unknown,
                        last_commit_date: 0,
                    },
                }
            },
            Err(e) => {
                proof {
                    let bad = choose|bad: ObjectId|
                        crate::history::reached_from(self.objects@, roots@, bad)
                            && crate::history::commit_defect(self.objects@, bad) == Some(e.kind);
                    assert(!history_complete(self.objects@, roots@));
                }
                BranchInfo {
                    name,
                    is_current,
                    is_remote: remote,
                    commit_count: 0,
                    last_commit_message: unknown,
                    last_commit_date: 0,
                }
            },
        }
    }

    /// The branches in detail: the local ones, then those of remotes, each
    /// with the number of commits that it reaches and the message and the
    /// time of its last commit.
    pub fn get_detailed_branches(&self) -> (r: Vec<BranchInfo>)
        requires
            self.wf(),
        ensures
            ({
                let local = self.refs.names().filter(|n: Seq<u8>| heads_prefix().is_prefix_of(n));
                let remote = self.refs.names().filter(
                    |n: Seq<u8>| remotes_prefix().is_prefix_of(n),
                );
                &&& r@.len() == local.len() + remote.len()
                &&& forall|i: int|
                    0 <= i < local.len() ==> describes_branch(
                        self.objects@,
                        self.refs@,
                        local[i],
                        heads_prefix().len() as int,
                        false,
                        #[trigger] r@[i],
                    )
                &&& forall|i: int|
                    0 <= i < remote.len() ==> describes_branch(
                        self.objects@,
                        self.refs@,
                        remote[i],
                        remotes_prefix().len() as int,
                        true,
                        #[trigger] r@[local.len() + i],
                    )
            }),
    {
        let current = match self.head_state() {
            Ok((leaf, _)) => Some(leaf),
            Err(_) => None,
        };
        let mut out: Vec<BranchInfo> = Vec::new();
        let local = self.refs.list(heads().as_slice());
        let ghost locals = lines(local@);
        let mut i: usize = 0;
        while i < local.len()
            invariant
                self.wf(),
                i <= local@.len(),
                out@.len() == i,
                locals == lines(local@),
                locals == self.refs.names().filter(|n: Seq<u8>| heads_prefix().is_prefix_of(n)),
                match current {
                    Some(c) => current_branch(self.refs@) == Some(c@),
                    None => current_branch(self.refs@) is None,
                },
                forall|j: int|
                    0 <= j < i ==> describes_branch(
                        self.objects@,
                        self.refs@,
                        locals[j],
                        heads_prefix().len() as int,
                        false,
                        #[trigger] out@[j],
                    ),
            decreases local@.len() - i,
        {
            let full = &local[i];
            proof {
                assert(locals[i as int] == full@);
                let keep = |n: Seq<u8>| heads_prefix().is_prefix_of(n);
                self.refs.names().lemma_filter_pred(keep, i as int);
            }
            out.push(self.describe(full, 11, false, &current));
            i += 1;
        }
        let remote = self.refs.list(remotes().as_slice());
        let ghost remote_names = lines(remote@);
        let mut k: usize = 0;
        while k < remote.len()
            invariant
                self.wf(),
                k <= remote@.len(),
                out@.len() == local@.len() + k,
                locals == lines(local@),
                remote_names == lines(remote@),
                remote_names == self.refs.names().filter(
                    |n: Seq<u8>| remotes_prefix().is_prefix_of(n),
                ),
                match current {
                    Some(c) => current_branch(self.refs@) == Some(c@),
                    None => current_branch(self.refs@) is None,
                },
                forall|j: int|
                    0 <= j < locals.len() ==> describes_branch(
                        self.objects@,
                        self.refs@,
                        locals[j],
                        heads_prefix().len() as int,
                        false,
                        #[trigger] out@[j],
                    ),
                forall|j: int|
                    0 <= j < k ==> describes_branch(
                        self.objects@,
                        self.refs@,
                        remote_names[j],
                        remotes_prefix().len() as int,
                        true,
                        #[trigger] out@[locals.len() + j],
                    ),
            decreases remote@.len() - k,
        {
            let full = &remote[k];
            proof {
                assert(remote_names[k as int] == full@);
                let keep = |n: Seq<u8>| remotes_prefix().is_prefix_of(n);
                self.refs.names().lemma_filter_pred(keep, k as int);
            }
            let ghost before = out@;
            out.push(self.describe(full, 13, true, &current));
            proof {
                assert forall|j: int| 0 <= j < locals.len() implies describes_branch(
                    self.objects@,
                    self.refs@,
                    locals[j],
                    heads_prefix().len() as int,
                    false,
                    #[trigger] out@[j],
                ) by {
                    assert(out@[j] == before[j]);
                }
                assert forall|j: int| 0 <= j < k + 1 implies describes_branch(
                    self.objects@,
                    self.refs@,
                    remote_names[j],
                    remotes_prefix().len() as int,
                    true,
                    #[trigger] out@[locals.len() + j],
                ) by {
                    if j < k {
                        assert(out@[locals.len() + j] == before[locals.len() + j]);
                    }
                }
            }
            k += 1;
        }
        out
    }
}

} // verus!
