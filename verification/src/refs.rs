//! The reference store: names for objects and for other names, updated by
//! compare-and-swap.

use vstd::prelude::*;
use crate::bytes::{bytes_copy, bytes_eq, bytes_start_with};
use crate::error::{EngineError, ErrorKind, Operation};
use crate::keys::{ascending, find_key, lemma_position_none, lemma_table_at, lemma_table_insert,
    lemma_table_remove, lemma_table_unique, lemma_table_update, lines, slot_of, table};
use crate::oid::ObjectId;

verus! {

/// What a reference points to: an object, or another reference by name.
#[derive(Clone, Debug, PartialEq, Eq)]
pub enum RefTarget {
    Direct(ObjectId),
    Symbolic(Vec<u8>),
}

/// A value of [`RefTarget`] as a value of mathematics.
pub enum TargetView {
    Direct(ObjectId),
    Symbolic(Seq<u8>),
}

impl View for RefTarget {
    type V = TargetView;

    open spec fn view(&self) -> TargetView {
        match self {
            RefTarget::Direct(id) => TargetView::Direct(*id),
            RefTarget::Symbolic(name) => TargetView::Symbolic(name@),
        }
    }
}

impl RefTarget {
    /// A copy of the target.
    pub fn copy(&self) -> (t: RefTarget)
        ensures
            t@ == self@,
    {
        match self {
            RefTarget::Direct(id) => RefTarget::Direct(*id),
            RefTarget::Symbolic(name) => RefTarget::Symbolic(bytes_copy(name.as_slice())),
        }
    }

    /// Whether both targets are the same.
    pub fn same(&self, other: &RefTarget) -> (r: bool)
        ensures
            r == (self@ == other@),
    {
        match (self, other) {
            (RefTarget::Direct(a), RefTarget::Direct(b)) => *a == *b,
            (RefTarget::Symbolic(a), RefTarget::Symbolic(b)) => bytes_eq(
                a.as_slice(),
                b.as_slice(),
            ),
            _ => false,
        }
    }
}

/// What a reference store binds each name to.
pub type Refs = Map<Seq<u8>, TargetView>;

/// The views of a sequence of targets.
pub open spec fn target_views(ts: Seq<RefTarget>) -> Seq<TargetView> {
    Seq::new(ts.len(), |i: int| ts[i]@)
}

/// How many symbolic links a resolution follows before it gives up.
pub const MAX_HOPS: usize = 8;

/// The name of the reference that says what is checked out.
pub open spec fn head_name() -> Seq<u8> {
    seq![72u8, 69u8, 65u8, 68u8]
}

/// The current binding of `name`, if any.
pub open spec fn binding(m: Refs, name: Seq<u8>) -> Option<TargetView> {
    if m.contains_key(name) {
        Some(m[name])
    } else {
        None
    }
}

/// Follows symbolic links from `name` for at most `hops` links. A name
/// that is not bound is `NotFound`; a chain that is still symbolic after
/// `hops` links, as every cycle is, is `Corrupt`.
pub open spec fn resolve_within(m: Refs, name: Seq<u8>, hops: nat) -> Result<ObjectId, ErrorKind>
    decreases hops,
{
    if !m.contains_key(name) {
        Err(ErrorKind::NotFound)
    } else {
        match m[name] {
            TargetView::Direct(id) => Ok(id),
            TargetView::Symbolic(next) => if hops == 0 {
                Err(ErrorKind::Corrupt)
            } else {
                resolve_within(m, next, (hops - 1) as nat)
            },
        }
    }
}

/// The object that `name` stands for.
pub open spec fn resolved(m: Refs, name: Seq<u8>) -> Result<ObjectId, ErrorKind> {
    resolve_within(m, name, MAX_HOPS as nat)
}

/// The name at the end of the chain of symbolic links that starts at `name`:
/// a name that is bound to an object, or not bound at all.
pub open spec fn leaf_within(m: Refs, name: Seq<u8>, hops: nat) -> Result<Seq<u8>, ErrorKind>
    decreases hops,
{
    if !m.contains_key(name) {
        Ok(name)
    } else {
        match m[name] {
            TargetView::Direct(_) => Ok(name),
            TargetView::Symbolic(next) => if hops == 0 {
                Err(ErrorKind::Corrupt)
            } else {
                leaf_within(m, next, (hops - 1) as nat)
            },
        }
    }
}

/// The reference that `name` stands for in the end: the branch, where
/// `name` is a symbolic `HEAD`.
pub open spec fn leaf_of(m: Refs, name: Seq<u8>) -> Result<Seq<u8>, ErrorKind> {
    leaf_within(m, name, MAX_HOPS as nat)
}

/// The object that a leaf is bound to, if it is bound.
pub open spec fn direct_at(m: Refs, name: Seq<u8>) -> Option<ObjectId> {
    match binding(m, name) {
        Some(TargetView::Direct(id)) => Some(id),
        _ => None,
    }
}

/// Resolving a name is finding its leaf and reading what the leaf is bound
/// to; a leaf is never bound to another name.
pub proof fn lemma_leaf(m: Refs, name: Seq<u8>, hops: nat)
    ensures
        match leaf_within(m, name, hops) {
            Ok(leaf) => !(binding(m, leaf) matches Some(TargetView::Symbolic(_)))
                && resolve_within(m, name, hops) == (match direct_at(m, leaf) {
                Some(id) => Ok::<ObjectId, ErrorKind>(id),
                None => Err::<ObjectId, ErrorKind>(ErrorKind::NotFound),
            }),
            Err(k) => resolve_within(m, name, hops) == Err::<ObjectId, ErrorKind>(k),
        },
    decreases hops,
{
    if m.contains_key(name) {
        if let TargetView::Symbolic(next) = m[name] {
            if hops > 0 {
                lemma_leaf(m, next, (hops - 1) as nat);
            }
        }
    }
}

/// The outcome of a compare-and-swap of `name` from `expected` to `target`.
pub open spec fn swapped(m: Refs, name: Seq<u8>, target: TargetView, expected: Option<TargetView>)
    -> Result<Refs, ErrorKind> {
    if name.len() == 0 {
        Err(ErrorKind::InvalidArgument)
    } else if binding(m, name) != expected {
        Err(ErrorKind::ConcurrentModification)
    } else {
        Ok(m.insert(name, target))
    }
}

/// Names bound to targets, in ascending order of the names.
#[derive(Clone, Debug, PartialEq, Eq)]
pub struct RefStore {
    names: Vec<Vec<u8>>,
    targets: Vec<RefTarget>,
}

impl View for RefStore {
    type V = Refs;

    closed spec fn view(&self) -> Refs {
        table(lines(self.names@), target_views(self.targets@))
    }
}

impl RefStore {
    /// The invariant of the type: the names are strictly ascending and each
    /// has its target.
    pub closed spec fn wf(&self) -> bool {
        ascending(lines(self.names@)) && self.names@.len() == self.targets@.len()
    }

    /// The names in ascending order.
    pub closed spec fn names(&self) -> Seq<Seq<u8>> {
        lines(self.names@)
    }

    /// The targets, each at the position of its name.
    pub closed spec fn targets(&self) -> Seq<TargetView> {
        target_views(self.targets@)
    }

    /// The names of a well-formed store are those that it binds, and two
    /// well-formed stores with the same bindings are the same, name by name
    /// and target by target.
    pub proof fn lemma_names(&self, other: &RefStore)
        requires
            self.wf(),
            other.wf(),
        ensures
            ascending(self.names()),
            forall|n: Seq<u8>| self.names().contains(n) <==> self@.contains_key(n),
            self@ == other@ ==> self.names() == other.names() && self.targets()
                == other.targets(),
    {
        assert forall|n: Seq<u8>| self.names().contains(n) <==> self@.contains_key(n) by {
            lemma_position_none(self.names(), n);
        }
        if self@ == other@ {
            lemma_table_unique(
                lines(self.names@),
                target_views(self.targets@),
                lines(other.names@),
                target_views(other.targets@),
            );
        }
    }

    /// The empty store.
    pub fn new() -> (s: RefStore)
        ensures
            s.wf(),
            s@ == Map::<Seq<u8>, TargetView>::empty(),
    {
        let s = RefStore { names: Vec::new(), targets: Vec::new() };
        assert(s@ =~= Map::<Seq<u8>, TargetView>::empty()) by {
            assert forall|k: Seq<u8>| !s@.contains_key(k) by {
                lemma_position_none(lines(s.names@), k);
            }
        }
        s
    }

    fn find(&self, name: &[u8]) -> (r: Option<usize>)
        requires
            self.wf(),
        ensures
            match r {
                Some(i) => i < self.names@.len() && self.names@[i as int]@ == name@
                    && self@.contains_key(name@) && self@[name@] == self.targets@[i as int]@,
                None => !self@.contains_key(name@),
            },
    {
        proof {
            lemma_position_none(lines(self.names@), name@);
        }
        let r = find_key(&self.names, name);
        proof {
            if let Some(i) = r {
                assert(lines(self.names@)[i as int] == name@);
                lemma_table_at(lines(self.names@), target_views(self.targets@), i as int);
            }
        }
        r
    }

    /// The target that `name` is bound to.
    pub fn read(&self, name: &[u8]) -> (r: Result<RefTarget, EngineError>)
        requires
            self.wf(),
        ensures
            match r {
                Ok(t) => binding(self@, name@) == Some(t@),
                Err(e) => binding(self@, name@) is None && e.kind == ErrorKind::NotFound
                    && e.operation == Operation::ReadRef,
            },
    {
        match self.find(name) {
            Some(i) => Ok(self.targets[i].copy()),
            None => Err(EngineError::about_name(ErrorKind::NotFound, Operation::ReadRef, name)),
        }
    }

    /// Binds `name` to `target` if its current binding is `expected`
    /// (`None`: not bound). A writer that lost a race sees
    /// `ConcurrentModification` and nothing changes.
    pub fn write(&mut self, name: &[u8], target: RefTarget, expected: Option<&RefTarget>) -> (r:
        Result<(), EngineError>)
        requires
            old(self).wf(),
        ensures
            r matches Err(e) ==> e.operation == Operation::WriteRef,
            final(self).wf(),
            match r {
                Ok(()) => swapped(
                    old(self)@,
                    name@,
                    target@,
                    match expected {
                        Some(t) => Some(t@),
                        None => None,
                    },
                ) == Ok::<Refs, ErrorKind>(final(self)@),
                Err(e) => swapped(
                    old(self)@,
                    name@,
                    target@,
                    match expected {
                        Some(t) => Some(t@),
                        None => None,
                    },
                ) == Err::<Refs, ErrorKind>(e.kind) && final(self)@ == old(self)@ && e.operation
                    == Operation::WriteRef,
            },
    {
        if name.len() == 0 {
            return Err(
                EngineError::about_name(ErrorKind::InvalidArgument, Operation::WriteRef, name),
            );
        }
        let found = self.find(name);
        let agrees = match (found, expected) {
            (Some(i), Some(t)) => self.targets[i].same(t),
            (None, None) => true,
            _ => false,
        };
        if !agrees {
            return Err(
                EngineError::about_name(
                    ErrorKind::ConcurrentModification,
                    Operation::WriteRef,
                    name,
                ),
            );
        }
        self.set(name, target);
        Ok(())
    }

    /// Binds `name` to `target` whatever it was bound to.
    pub fn set(&mut self, name: &[u8], target: RefTarget)
        requires
            old(self).wf(),
        ensures
            final(self).wf(),
            final(self)@ == old(self)@.insert(name@, target@),
    {
        let ghost ks = lines(self.names@);
        let ghost vs = target_views(self.targets@);
        match self.find(name) {
            Some(i) => {
                proof {
                    assert(ks[i as int] == name@);
                    lemma_table_update(ks, vs, i as int, target@);
                }
                self.targets.set(i, target);
                assert(target_views(self.targets@) =~= vs.update(i as int, target@));
            },
            None => {
                let at = slot_of(&self.names, name);
                proof {
                    lemma_position_none(ks, name@);
                    lemma_table_insert(ks, vs, name@, target@, at as int);
                }
                self.names.insert(at, bytes_copy(name));
                self.targets.insert(at, target);
                assert(lines(self.names@) =~= ks.insert(at as int, name@));
                assert(target_views(self.targets@) =~= vs.insert(at as int, target@));
            },
        }
    }

    /// Removes the binding of `name`.
    pub fn delete(&mut self, name: &[u8]) -> (r: Result<(), EngineError>)
        requires
            old(self).wf(),
        ensures
            final(self).wf(),
            match r {
                Ok(()) => old(self)@.contains_key(name@) && final(self)@ == old(self)@.remove(
                    name@,
                ),
                Err(e) => !old(self)@.contains_key(name@) && final(self)@ == old(self)@ && e.kind
                    == ErrorKind::NotFound && e.operation == Operation::DeleteRef,
            },
    {
        let ghost ks = lines(self.names@);
        let ghost vs = target_views(self.targets@);
        match self.find(name) {
            Some(i) => {
                proof {
                    assert(ks[i as int] == name@);
                    lemma_table_remove(ks, vs, i as int);
                }
                self.names.remove(i);
                self.targets.remove(i);
                assert(lines(self.names@) =~= ks.remove(i as int));
                assert(target_views(self.targets@) =~= vs.remove(i as int));
                Ok(())
            },
            None => Err(EngineError::about_name(ErrorKind::NotFound, Operation::DeleteRef, name)),
        }
    }

    /// The names that start with `prefix`, in ascending order.
    pub fn list(&self, prefix: &[u8]) -> (r: Vec<Vec<u8>>)
        requires
            self.wf(),
        ensures
            lines(r@) == self.names().filter(|n: Seq<u8>| prefix@.is_prefix_of(n)),
    {
        let mut out: Vec<Vec<u8>> = Vec::new();
        let ghost keep = |n: Seq<u8>| prefix@.is_prefix_of(n);
        let mut i: usize = 0;
        proof {
            assert(self.names().take(0) =~= Seq::<Seq<u8>>::empty());
            assert(lines(out@) =~= Seq::<Seq<u8>>::empty());
            reveal(Seq::filter);
        }
        while i < self.names.len()
            invariant
                i <= self.names@.len(),
                keep == (|n: Seq<u8>| prefix@.is_prefix_of(n)),
                lines(out@) == self.names().take(i as int).filter(keep),
            decreases self.names@.len() - i,
        {
            let ghost before = lines(out@);
            proof {
                let s = self.names().take(i + 1);
                assert(s.drop_last() =~= self.names().take(i as int));
                reveal(Seq::filter);
                assert(s.last() == self.names@[i as int]@);
            }
            if bytes_start_with(self.names[i].as_slice(), prefix) {
                out.push(bytes_copy(self.names[i].as_slice()));
                assert(lines(out@) =~= before.push(self.names@[i as int]@));
            }
            i += 1;
        }
        assert(self.names().take(i as int) =~= self.names());
        out
    }

    /// The names that are bound to the object `id` itself, in ascending
    /// order.
    pub fn names_of(&self, id: ObjectId) -> (r: Vec<Vec<u8>>)
        requires
            self.wf(),
        ensures
            lines(r@) == self.names().filter(|n: Seq<u8>| direct_at(self@, n) == Some(id)),
    {
        let mut out: Vec<Vec<u8>> = Vec::new();
        let ghost keep = |n: Seq<u8>| direct_at(self@, n) == Some(id);
        let mut i: usize = 0;
        proof {
            assert(self.names().take(0) =~= Seq::<Seq<u8>>::empty());
            assert(lines(out@) =~= Seq::<Seq<u8>>::empty());
            reveal(Seq::filter);
        }
        while i < self.names.len()
            invariant
                self.wf(),
                i <= self.names@.len(),
                keep == (|n: Seq<u8>| direct_at(self@, n) == Some(id)),
                lines(out@) == self.names().take(i as int).filter(keep),
            decreases self.names@.len() - i,
        {
            let ghost before = lines(out@);
            proof {
                let s = self.names().take(i + 1);
                assert(s.drop_last() =~= self.names().take(i as int));
                reveal(Seq::filter);
                assert(s.last() == self.names@[i as int]@);
                lemma_table_at(lines(self.names@), target_views(self.targets@), i as int);
            }
            let hit = match &self.targets[i] {
                RefTarget::Direct(t) => *t == id,
                RefTarget::Symbolic(_) => false,
            };
            if hit {
                out.push(bytes_copy(self.names[i].as_slice()));
                assert(lines(out@) =~= before.push(self.names@[i as int]@));
            }
            i += 1;
        }
        assert(self.names().take(i as int) =~= self.names());
        out
    }

    /// The object that `name` stands for, following symbolic links.
    pub fn resolve(&self, name: &[u8]) -> (r: Result<ObjectId, EngineError>)
        requires
            self.wf(),
        ensures
            match r {
                Ok(id) => resolved(self@, name@) == Ok::<ObjectId, ErrorKind>(id),
                Err(e) => resolved(self@, name@) == Err::<ObjectId, ErrorKind>(e.kind)
                    && e.operation == Operation::ResolveRef,
            },
    {
        let mut current: Vec<u8> = bytes_copy(name);
        let mut hops: usize = MAX_HOPS;
        loop
            invariant
                self.wf(),
                hops <= MAX_HOPS,
                resolved(self@, name@) == resolve_within(self@, current@, hops as nat),
            decreases hops,
        {
            match self.find(current.as_slice()) {
                None => {
                    return Err(
                        EngineError::about_name(
                            ErrorKind::NotFound,
                            Operation::ResolveRef,
                            current.as_slice(),
                        ),
                    );
                },
                Some(i) => {
                    match &self.targets[i] {
                        RefTarget::Direct(id) => {
                            return Ok(*id);
                        },
                        RefTarget::Symbolic(next) => {
                            if hops == 0 {
                                return Err(
                                    EngineError::about_name(
                                        ErrorKind::Corrupt,
                                        Operation::ResolveRef,
                                        name,
                                    ),
                                );
                            }
                            current = bytes_copy(next.as_slice());
                            hops -= 1;
                        },
                    }
                },
            }
        }
    }

    /// The name at the end of the chain of symbolic links that starts at
    /// `name`.
    pub fn leaf(&self, name: &[u8]) -> (r: Result<Vec<u8>, EngineError>)
        requires
            self.wf(),
        ensures
            match r {
                Ok(leaf) => leaf_of(self@, name@) == Ok::<Seq<u8>, ErrorKind>(leaf@),
                Err(e) => leaf_of(self@, name@) == Err::<Seq<u8>, ErrorKind>(e.kind) && e.kind
                    == ErrorKind::Corrupt && e.operation == Operation::ResolveRef,
            },
    {
        let mut current: Vec<u8> = bytes_copy(name);
        let mut hops: usize = MAX_HOPS;
        loop
            invariant
                self.wf(),
                hops <= MAX_HOPS,
                leaf_of(self@, name@) == leaf_within(self@, current@, hops as nat),
            decreases hops,
        {
            match self.find(current.as_slice()) {
                None => {
                    return Ok(current);
                },
                Some(i) => {
                    match &self.targets[i] {
                        RefTarget::Direct(_) => {
                            return Ok(current);
                        },
                        RefTarget::Symbolic(next) => {
                            if hops == 0 {
                                return Err(
                                    EngineError::about_name(
                                        ErrorKind::Corrupt,
                                        Operation::ResolveRef,
                                        name,
                                    ),
                                );
                            }
                            current = bytes_copy(next.as_slice());
                            hops -= 1;
                        },
                    }
                },
            }
        }
    }

    /// The object that the leaf `name` is bound to, if it is bound to one.
    pub fn direct(&self, name: &[u8]) -> (r: Option<ObjectId>)
        requires
            self.wf(),
        ensures
            r == direct_at(self@, name@),
    {
        match self.find(name) {
            Some(i) => match &self.targets[i] {
                RefTarget::Direct(id) => Some(*id),
                RefTarget::Symbolic(_) => None,
            },
            None => None,
        }
    }

    /// A copy of the store: a snapshot of every binding.
    pub fn copy(&self) -> (s: RefStore)
        requires
            self.wf(),
        ensures
            s.wf(),
            s@ == self@,
            s.names() == self.names(),
    {
        let mut names: Vec<Vec<u8>> = Vec::new();
        let mut targets: Vec<RefTarget> = Vec::new();
        let mut i: usize = 0;
        while i < self.names.len()
            invariant
                self.wf(),
                i <= self.names@.len(),
                names@.len() == i,
                targets@.len() == i,
                forall|j: int| 0 <= j < i ==> names@[j]@ == self.names@[j]@,
                forall|j: int| 0 <= j < i ==> targets@[j]@ == self.targets@[j]@,
            decreases self.names@.len() - i,
        {
            names.push(bytes_copy(self.names[i].as_slice()));
            targets.push(self.targets[i].copy());
            i += 1;
        }
        let s = RefStore { names, targets };
        assert(lines(s.names@) =~= lines(self.names@));
        assert(target_views(s.targets@) =~= target_views(self.targets@));
        s
    }
}

} // verus!
