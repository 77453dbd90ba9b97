//! Remotes: names for other repositories, and what a pull does once the
//! commits of a remote have arrived.

use vstd::prelude::*;
use crate::bytes::{bytes_append, bytes_copy, lemma_lex_irreflexive};
use crate::error::{EngineError, ErrorKind, Operation};
use crate::history::generation;
use crate::index::IndexView;
use crate::interactive::only_objects_grew;
use crate::keys::{ascending, find_key, lemma_position_none, lemma_table_at, lemma_table_insert,
    lemma_table_remove, lines, slot_of, table};
use crate::merge::{base_fails, merge_base, merge_base_of};
use crate::oid::ObjectId;
use crate::refs::{direct_at, resolved, Refs, TargetView};
use crate::repo::{advance, branch_name, branch_ref, checkout, checkout_of, head_state, Repository};
use crate::log::remotes_prefix;
use crate::worktree::{carried, WorkView};

verus! {

/// The remotes of a repository: names, in ascending order, each with the
/// address of the other repository.
#[derive(Clone, Debug, PartialEq, Eq)]
pub struct Remotes {
    names: Vec<Vec<u8>>,
    urls: Vec<Vec<u8>>,
}

/// A remote as it is listed.
#[derive(Clone, Debug, PartialEq, Eq)]
pub struct RemoteInfo {
    pub name: Vec<u8>,
    pub url: Vec<u8>,
    pub fetch_refspecs: Vec<Vec<u8>>,
    pub push_refspecs: Vec<Vec<u8>>,
}

/// `+refs/heads/*:refs/remotes/`
pub open spec fn refspec_head() -> Seq<u8> {
    seq![
        43u8,
        114u8,
        101u8,
        102u8,
        115u8,
        47u8,
        104u8,
        101u8,
        97u8,
        100u8,
        115u8,
        47u8,
        42u8,
        58u8,
        114u8,
        101u8,
        102u8,
        115u8,
        47u8,
        114u8,
        101u8,
        109u8,
        111u8,
        116u8,
        101u8,
        115u8,
        47u8,
    ]
}

/// The refspec with which the branches of the remote `name` are fetched:
/// `+refs/heads/*:refs/remotes/<name>/*`.
pub open spec fn fetch_refspec(name: Seq<u8>) -> Seq<u8> {
    refspec_head() + name + seq![47u8, 42u8]
}

impl View for Remotes {
    type V = Map<Seq<u8>, Seq<u8>>;

    closed spec fn view(&self) -> Map<Seq<u8>, Seq<u8>> {
        table(lines(self.names@), lines(self.urls@))
    }
}

impl Remotes {
    /// The invariant of the type: the names are strictly ascending and each
    /// has its address.
    pub closed spec fn wf(&self) -> bool {
        ascending(lines(self.names@)) && self.names@.len() == self.urls@.len()
    }

    /// The names in ascending order.
    pub closed spec fn names(&self) -> Seq<Seq<u8>> {
        lines(self.names@)
    }

    /// The names of a well-formed value are strictly ascending, so none
    /// occurs twice, and they are exactly the names that the map binds.
    pub proof fn lemma_names(&self)
        requires
            self.wf(),
        ensures
            ascending(self.names()),
            self.names().no_duplicates(),
            forall|n: Seq<u8>| self.names().contains(n) <==> self@.contains_key(n),
            self.names().len() == self@.dom().len(),
            self@.dom().finite(),
    {
        let ks = self.names();
        assert forall|n: Seq<u8>| ks.contains(n) <==> self@.contains_key(n) by {
            lemma_position_none(ks, n);
        }
        assert forall|i: int, j: int| 0 <= i < ks.len() && 0 <= j < ks.len() && i != j implies ks[i]
            != ks[j] by {
            lemma_lex_irreflexive(ks[i]);
        }
        assert(self@.dom() =~= ks.to_set());
        ks.unique_seq_to_set();
    }

    /// No remotes.
    pub fn new() -> (r: Remotes)
        ensures
            r.wf(),
            r@ == Map::<Seq<u8>, Seq<u8>>::empty(),
            r.names().len() == 0,
    {
        let r = Remotes { names: Vec::new(), urls: Vec::new() };
        assert(r@ =~= Map::<Seq<u8>, Seq<u8>>::empty()) by {
            assert forall|k: Seq<u8>| !r@.contains_key(k) by {
                lemma_position_none(lines(r.names@), k);
            }
        }
        r
    }

    /// Adds the remote `name` with the address `url`. Fails with
    /// `InvalidArgument`, changing nothing, where the name is empty or
    /// taken.
    pub fn add_remote(&mut self, name: &[u8], url: &[u8]) -> (r: Result<(), EngineError>)
        requires
            old(self).wf(),
        ensures
            r matches Err(e) ==> e.operation == Operation::Remote,
            final(self).wf(),
            match r {
                Ok(()) => name@.len() > 0 && !old(self)@.contains_key(name@) && final(self)@ == old(self)@.insert(name@, url@),
                Err(e) => (name@.len() == 0 || old(self)@.contains_key(name@)) && final(self)@ == old(self)@ && e.kind == ErrorKind::InvalidArgument,
            },
    {
        let ghost ks = lines(self.names@);
        let ghost vs = lines(self.urls@);
        proof {
            lemma_position_none(ks, name@);
        }
        if name.len() == 0 {
            return Err(EngineError::about_name(ErrorKind::InvalidArgument, Operation::Remote, name));
        }
        if let Some(i) = find_key(&self.names, name) {
            assert(ks[i as int] == name@);
            return Err(EngineError::about_name(ErrorKind::InvalidArgument, Operation::Remote, name));
        }
        let at = slot_of(&self.names, name);
        proof {
            lemma_table_insert(ks, vs, name@, url@, at as int);
        }
        self.names.insert(at, bytes_copy(name));
        self.urls.insert(at, bytes_copy(url));
        assert(lines(self.names@) =~= ks.insert(at as int, name@));
        assert(lines(self.urls@) =~= vs.insert(at as int, url@));
        Ok(())
    }

    /// Removes the remote `name`. Fails with `NotFound`, changing nothing,
    /// where there is none.
    pub fn remove_remote(&mut self, name: &[u8]) -> (r: Result<(), EngineError>)
        requires
            old(self).wf(),
        ensures
            r matches Err(e) ==> e.operation == Operation::Remote,
            final(self).wf(),
            match r {
                Ok(()) => old(self)@.contains_key(name@) && final(self)@ == old(self)@.remove(name@),
                Err(e) => !old(self)@.contains_key(name@) && final(self)@ == old(self)@ && e.kind
                    == ErrorKind::NotFound,
            },
    {
        let ghost ks = lines(self.names@);
        let ghost vs = lines(self.urls@);
        proof {
            lemma_position_none(ks, name@);
        }
        match find_key(&self.names, name) {
            Some(i) => {
                proof {
                    assert(ks[i as int] == name@);
                    lemma_table_remove(ks, vs, i as int);
                    lemma_table_at(ks, vs, i as int);
                }
                self.names.remove(i);
                self.urls.remove(i);
                assert(lines(self.names@) =~= ks.remove(i as int));
                assert(lines(self.urls@) =~= vs.remove(i as int));
                Ok(())
            },
            None => Err(EngineError::about_name(ErrorKind::NotFound, Operation::Remote, name)),
        }
    }

    /// The remotes in ascending order of their names, each with its
    /// address, the refspec that fetches its branches, and no refspec for
    /// pushing.
    pub fn get_remotes(&self) -> (r: Vec<RemoteInfo>)
        requires
            self.wf(),
        ensures
            r@.len() == self.names().len(),
            ascending(self.names()),
            forall|n: Seq<u8>| self.names().contains(n) <==> self@.contains_key(n),
            forall|i: int|
                0 <= i < r@.len() ==> {
                    &&& (#[trigger] r@[i]).name@ == self.names()[i]
                    &&& self@.contains_key(self.names()[i])
                    &&& r@[i].url@ == self@[self.names()[i]]
                    &&& lines(r@[i].fetch_refspecs@) == seq![fetch_refspec(self.names()[i])]
                    &&& r@[i].push_refspecs@.len() == 0
                },
    {
        let mut out: Vec<RemoteInfo> = Vec::new();
        let mut i: usize = 0;
        proof {
            self.lemma_names();
        }
        while i < self.names.len()
            invariant
                self.wf(),
                i <= self.names@.len(),
                out@.len() == i,
                forall|j: int|
                    0 <= j < i ==> {
                        &&& (#[trigger] out@[j]).name@ == self.names()[j]
                        &&& self@.contains_key(self.names()[j])
                        &&& out@[j].url@ == self@[self.names()[j]]
                        &&& lines(out@[j].fetch_refspecs@) == seq![fetch_refspec(self.names()[j])]
                        &&& out@[j].push_refspecs@.len() == 0
                    },
            decreases self.names@.len() - i,
        {
            proof {
                lemma_table_at(lines(self.names@), lines(self.urls@), i as int);
            }
            let mut spec: Vec<u8> = vec![
                43u8,
                114u8,
                101u8,
                102u8,
                115u8,
                47u8,
                104u8,
                101u8,
                97u8,
                100u8,
                115u8,
                47u8,
                42u8,
                58u8,
                114u8,
                101u8,
                102u8,
                115u8,
                47u8,
                114u8,
                101u8,
                109u8,
                111u8,
                116u8,
                101u8,
                115u8,
                47u8,
            ];
            assert(spec@ =~= refspec_head());
            bytes_append(&mut spec, self.names[i].as_slice());
            spec.push(47);
            spec.push(42);
            assert(spec@ =~= fetch_refspec(self.names@[i as int]@));
            let mut fetch: Vec<Vec<u8>> = Vec::new();
            fetch.push(spec);
            assert(lines(fetch@) =~= seq![fetch_refspec(self.names@[i as int]@)]);
            out.push(
                RemoteInfo {
                    name: bytes_copy(self.names[i].as_slice()),
                    url: bytes_copy(self.urls[i].as_slice()),
                    fetch_refspecs: fetch,
                    push_refspecs: Vec::new(),
                },
            );
            i += 1;
        }
        out
    }
}

/// How a pull ended once the commits of the remote had arrived.
#[derive(Clone, Copy, Debug, PartialEq, Eq, Structural)]
pub enum PullOutcome {
    /// The local branch moved forward to the commit of the remote branch.
    FastForwarded,
    /// The two have diverged, or the remote is behind: nothing changed, a
    /// merge is up to the caller.
    NeedsMerge,
}

/// The name of the reference that tracks the branch `branch` of the remote
/// `remote`: `refs/remotes/<remote>/<branch>`.
pub open spec fn tracking_ref(remote: Seq<u8>, branch: Seq<u8>) -> Seq<u8> {
    remotes_prefix() + remote + seq![47u8] + branch
}

/// What a pull finds: the commit of the tracking reference and the commit
/// of `HEAD`.
pub open spec fn pull_ends(refs: Refs, remote: Seq<u8>, branch: Seq<u8>) -> Result<
    (ObjectId, ObjectId),
    ErrorKind,
> {
    match resolved(refs, tracking_ref(remote, branch)) {
        Err(k) => Err(k),
        Ok(theirs) => match head_state(refs) {
            Err(k) => Err(k),
            Ok((leaf, None)) => Err(ErrorKind::NotFound),
            Ok((leaf, Some(current))) => Ok((theirs, current)),
        },
    }
}

impl Repository {
    /// The part of a pull that follows the fetch: where the commit of
    /// `HEAD` is the merge base of itself and the commit that the branch
    /// `branch` of `remote` was fetched to, the local branch `branch`
    /// moves to that commit by compare-and-swap and the commit is checked
    /// out. Otherwise nothing changes and a merge is up to the caller.
    /// Fails, changing nothing, where the tracking reference or the local
    /// branch does not exist, `HEAD` names no commit, history cannot be
    /// walked or the commit cannot be checked out.
    pub fn pull_from_remote(&mut self, remote: &[u8], branch: &[u8]) -> (r: Result<
        PullOutcome,
        EngineError,
    >)
        requires
            old(self).wf(),
        ensures
            r matches Err(e) ==> e.operation == Operation::Pull,
            final(self).wf(),
            final(self).objects@ == old(self).objects@,
            final(self).stashes == old(self).stashes,
            final(self).rebase == old(self).rebase,
            match r {
                Ok(outcome) => {
                    &&& pull_ends(old(self).refs@, remote@, branch@) matches Ok((theirs, current))
                    &&& generation(old(self).objects@, current) is Some
                    &&& generation(old(self).objects@, theirs) is Some
                    &&& if merge_base_of(old(self).objects@, current, theirs) == Some(current) {
                        &&& outcome == PullOutcome::FastForwarded
                        &&& direct_at(old(self).refs@, branch_ref(branch@)) matches Some(was)
                        &&& final(self).refs@ == old(self).refs@.insert(
                            branch_ref(branch@),
                            TargetView::Direct(theirs),
                        )
                        &&& checkout_of(old(self).objects@, theirs) matches Ok((x, w))
                        &&& final(self).index@ == x
                        &&& final(self).workdir@ == carried(old(self).workdir@, old(self).index@, w)
                    } else {
                        &&& outcome == PullOutcome::NeedsMerge
                        &&& only_objects_grew(*old(self), *final(self))
                    }
                },
                Err(e) => only_objects_grew(*old(self), *final(self)) && match pull_ends(
                    old(self).refs@,
                    remote@,
                    branch@,
                ) {
                    Err(k) => e.kind == k,
                    Ok((theirs, current)) => if generation(old(self).objects@, current) is None
                        || generation(old(self).objects@, theirs) is None {
                        base_fails(old(self).objects@, current, theirs, e)
                    } else {
                        merge_base_of(old(self).objects@, current, theirs) == Some(current) && (
                        if direct_at(old(self).refs@, branch_ref(branch@)) is None {
                            e.kind == ErrorKind::NotFound
                        } else {
                            checkout_of(old(self).objects@, theirs) == Err::<
                                (IndexView, WorkView),
                                ErrorKind,
                            >(e.kind)
                        })
                    },
                },
            },
    {
        let mut tracking: Vec<u8> = vec![
            114u8,
            101u8,
            102u8,
            115u8,
            47u8,
            114u8,
            101u8,
            109u8,
            111u8,
            116u8,
            101u8,
            115u8,
            47u8,
        ];
        assert(tracking@ =~= remotes_prefix());
        bytes_append(&mut tracking, remote);
        tracking.push(47);
        bytes_append(&mut tracking, branch);
        assert(tracking@ =~= tracking_ref(remote@, branch@));
        let theirs = match self.refs.resolve(tracking.as_slice()) {
            Ok(id) => id,
            Err(e) => {
                return Err(e.during(Operation::Pull));
            },
        };
        let current = match self.head_state() {
            Ok((_, Some(current))) => current,
            Ok((leaf, None)) => {
                return Err(
                    EngineError::about_name(ErrorKind::NotFound, Operation::Pull, leaf.as_slice()),
                );
            },
            Err(e) => {
                return Err(e.during(Operation::Pull));
            },
        };
        let base = match merge_base(&self.objects, current, theirs) {
            Ok(b) => b,
            Err(e) => {
                return Err(e.during(Operation::Pull));
            },
        };
        if base != Some(current) {
            return Ok(PullOutcome::NeedsMerge);
        }
        let local = branch_name(branch);
        let was = match self.refs.direct(local.as_slice()) {
            Some(id) => id,
            None => {
                return Err(
                    EngineError::about_name(ErrorKind::NotFound, Operation::Pull, local.as_slice()),
                );
            },
        };
        let (x, w) = match checkout(&self.objects, theirs, Operation::Merge) {
            Ok(pair) => pair,
            Err(e) => {
                return Err(e.during(Operation::Pull));
            },
        };
        match advance(&mut self.refs, local.as_slice(), Some(was), theirs) {
            Ok(()) => {},
            Err(e) => {
                return Err(e.during(Operation::Pull));
            },
        }
        self.workdir = self.workdir.carry(&self.index, w);
        self.index = x;
        Ok(PullOutcome::FastForwarded)
    }
}

} // verus!
