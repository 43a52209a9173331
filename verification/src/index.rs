use vstd::prelude::*;

use crate::pkg::{PackageId, PubGrubPackage, Summary};

verus! {

/// The registry's answer for one package identity: every known
/// version's summary.  Write-once per identity.
#[derive(Debug)]
pub enum VersionsResponse {
    Found(Vec<Summary>),
}

/// The registry's answer for one exact package version.
#[derive(Debug)]
pub enum MetadataResponse {
    Found(Summary),
}

/// Pointwise metadata equality of two summary lists.
pub open spec fn summaries_same(a: Seq<Summary>, b: Seq<Summary>) -> bool {
    a.len() == b.len() && (forall|i: int| 0 <= i < a.len() ==> #[trigger] a[i].same(b[i]))
}

impl VersionsResponse {
    /// The summaries the response carries.
    pub open spec fn summaries(self) -> Seq<Summary> {
        match self {
            VersionsResponse::Found(v) => v@,
        }
    }

    /// Two responses carry the same metadata.
    pub open spec fn same(self, other: VersionsResponse) -> bool {
        summaries_same(self.summaries(), other.summaries())
    }
}

impl Clone for VersionsResponse {
    fn clone(&self) -> (r: Self)
        ensures
            r.same(*self),
    {
        match self {
            VersionsResponse::Found(v) => {
                let c = v.clone();
                proof {
                    assert forall|i: int| 0 <= i < c@.len() implies #[trigger] c@[i].same(
                        v@[i],
                    ) by {
                        assert(cloned::<Summary>(v[i], c[i]));
                    }
                }
                VersionsResponse::Found(c)
            },
        }
    }
}

/// A write-once map from package identity to the registry's response,
/// the memoizing shared index of one resolution run.
///
/// An entry moves through three states: absent, registered (a fetch is
/// owed) and fulfilled (the response arrived).  Registration succeeds
/// for exactly one caller per identity, and a fulfilled entry never
/// changes again: together these are the deduplication guarantee, and
/// every caller that reads the entry afterwards observes the one
/// stored response.
pub struct PackageOnceMap {
    entries: Vec<(PubGrubPackage, Option<VersionsResponse>)>,
}

/// Every response fulfilled in `a` is still fulfilled, unchanged, in
/// `b`.  All operations on the map preserve this relation between the
/// state before and the state after.
pub open spec fn fulfilled_preserved(a: PackageOnceMap, b: PackageOnceMap) -> bool {
    forall|p: PubGrubPackage|
        #![trigger a.response_of(p)]
        a.response_of(p) is Some ==> b.response_of(p) == a.response_of(p)
}

/// Every identity registered in `a` is still registered in `b`.
pub open spec fn registered_preserved(a: PackageOnceMap, b: PackageOnceMap) -> bool {
    forall|p: PubGrubPackage| #[trigger] a.registered(p) ==> b.registered(p)
}

impl PackageOnceMap {
    /// Entries are keyed by identity: no two rows share one.
    pub closed spec fn wf(self) -> bool {
        forall|i: int, j: int|
            0 <= i < j < self.entries@.len() ==> !(#[trigger] self.entries@[i].0.same(
                self.entries@[j].0,
            ))
    }

    /// The row for an identity: `None` when absent, `Some(None)` when
    /// registered and still awaited, `Some(Some(r))` when fulfilled.
    pub closed spec fn entry_of(self, p: PubGrubPackage) -> Option<Option<VersionsResponse>> {
        if exists|i: int| 0 <= i < self.entries@.len() && (#[trigger] self.entries@[i].0.same(p)) {
            let i = choose|i: int|
                0 <= i < self.entries@.len() && (#[trigger] self.entries@[i].0.same(p));
            Some(self.entries@[i].1)
        } else {
            None
        }
    }

    pub open spec fn registered(self, p: PubGrubPackage) -> bool {
        self.entry_of(p) is Some
    }

    /// The fulfilled response, if any.
    pub open spec fn response_of(self, p: PubGrubPackage) -> Option<VersionsResponse> {
        match self.entry_of(p) {
            Some(e) => e,
            None => None,
        }
    }

    pub open spec fn fulfilled(self, p: PubGrubPackage) -> bool {
        self.response_of(p) is Some
    }

    /// Under well-formedness, any matching row determines the entry.
    proof fn lemma_entry_at(self, p: PubGrubPackage, i: int)
        requires
            self.wf(),
            0 <= i < self.entries@.len(),
            self.entries@[i].0.same(p),
        ensures
            self.entry_of(p) == Some(self.entries@[i].1),
    {
        let j = choose|j: int|
            0 <= j < self.entries@.len() && (#[trigger] self.entries@[j].0.same(p));
        if i < j {
            assert(self.entries@[i].0.same(self.entries@[j].0));
            assert(false);
        }
        if j < i {
            assert(self.entries@[j].0.same(self.entries@[i].0));
            assert(false);
        }
    }

    /// The entry depends only on the identity, not on the value that
    /// names it.
    pub proof fn lemma_entry_same_class(self, p: PubGrubPackage, q: PubGrubPackage)
        requires
            self.wf(),
            p.same(q),
        ensures
            self.entry_of(p) == self.entry_of(q),
    {
        if exists|i: int| 0 <= i < self.entries@.len() && (#[trigger] self.entries@[i].0.same(p)) {
            let i = choose|i: int|
                0 <= i < self.entries@.len() && (#[trigger] self.entries@[i].0.same(p));
            assert(self.entries@[i].0.same(q));
            self.lemma_entry_at(p, i);
            self.lemma_entry_at(q, i);
        } else {
            assert forall|i: int| 0 <= i < self.entries@.len() implies !(
            #[trigger] self.entries@[i].0.same(q)) by {
                if self.entries@[i].0.same(q) {
                    assert(self.entries@[i].0.same(p));
                }
            }
        }
    }

    pub fn new() -> (r: Self)
        ensures
            r.wf(),
            forall|p: PubGrubPackage| !(#[trigger] r.registered(p)),
    {
        PackageOnceMap { entries: Vec::new() }
    }

    /// Find the row holding the identity, if any.
    fn find(&self, p: &PubGrubPackage) -> (r: Option<usize>)
        requires
            self.wf(),
        ensures
            match r {
                Some(i) => {
                    &&& i < self.entries@.len()
                    &&& self.entries@[i as int].0.same(*p)
                    &&& self.entry_of(*p) == Some(self.entries@[i as int].1)
                },
                None => !self.registered(*p),
            },
    {
        let mut i: usize = 0;
        while i < self.entries.len()
            invariant
                self.wf(),
                i <= self.entries@.len(),
                forall|j: int| 0 <= j < i ==> !(#[trigger] self.entries@[j].0.same(*p)),
            decreases self.entries@.len() - i,
        {
            if self.entries[i].0.same_package(p) {
                proof {
                    self.lemma_entry_at(*p, i as int);
                }
                return Some(i);
            }
            i += 1;
        }
        None
    }

    /// Claim the duty to fetch an identity.  Returns true exactly when
    /// this call is the first to register it; a later call for the
    /// same identity always returns false, which is the deduplication
    /// guarantee.  Never touches a fulfilled response.
    pub fn register(&mut self, p: &PubGrubPackage) -> (fresh: bool)
        requires
            old(self).wf(),
        ensures
            final(self).wf(),
            fresh == !old(self).registered(*p),
            final(self).registered(*p),
            final(self).response_of(*p) == old(self).response_of(*p),
            forall|q: PubGrubPackage|
                !q.same(*p) ==> #[trigger] final(self).entry_of(q) == old(self).entry_of(q),
            forall|q: PubGrubPackage|
                q.same(*p) ==> #[trigger] final(self).entry_of(q) == final(self).entry_of(*p),
            forall|q: PubGrubPackage|
                #![trigger final(self).registered(q)]
                final(self).registered(q) == (old(self).registered(q) || q.same(*p)),
            forall|q: PubGrubPackage|
                #![trigger final(self).fulfilled(q)]
                final(self).fulfilled(q) == old(self).fulfilled(q),
            fulfilled_preserved(*old(self), *final(self)),
            registered_preserved(*old(self), *final(self)),
    {
        let ghost pre = *self;
        let fresh = match self.find(p) {
            Some(_) => false,
            None => {
                self.entries.push((p.clone(), None));
                true
            },
        };
        proof {
            if fresh {
                let n = pre.entries@.len() as int;
                assert(self.entries@ == pre.entries@.push((*p, None)));
                assert forall|a: int, b: int| 0 <= a < b < self.entries@.len() implies !(
                #[trigger] self.entries@[a].0.same(self.entries@[b].0)) by {
                    if b < n {
                        assert(!pre.entries@[a].0.same(pre.entries@[b].0));
                    } else {
                        assert(self.entries@[b].0 == *p);
                        if self.entries@[a].0.same(*p) {
                            pre.lemma_entry_at(*p, a);
                        }
                    }
                }
                self.lemma_entry_at(*p, n);
                assert forall|q: PubGrubPackage| !q.same(*p) implies #[trigger] self.entry_of(q)
                    == pre.entry_of(q) by {
                    if exists|k: int|
                        0 <= k < pre.entries@.len() && (#[trigger] pre.entries@[k].0.same(q)) {
                        let k = choose|k: int|
                            0 <= k < pre.entries@.len() && (#[trigger] pre.entries@[k].0.same(q));
                        pre.lemma_entry_at(q, k);
                        self.lemma_entry_at(q, k);
                    } else {
                        assert forall|k: int| 0 <= k < self.entries@.len() implies !(
                        #[trigger] self.entries@[k].0.same(q)) by {
                            if k < n {
                                assert(!pre.entries@[k].0.same(q));
                            } else {
                                assert(self.entries@[k].0 == *p);
                                if self.entries@[k].0.same(q) {
                                    assert(q.same(*p));
                                }
                            }
                        }
                    }
                }
            }
            assert forall|q: PubGrubPackage| q.same(*p) implies #[trigger] self.entry_of(q)
                == self.entry_of(*p) by {
                self.lemma_entry_same_class(q, *p);
            }
            assert forall|q: PubGrubPackage|
                #![trigger pre.response_of(q)]
                pre.response_of(q) is Some implies self.response_of(q) == pre.response_of(q) by {
                if q.same(*p) {
                    pre.lemma_entry_same_class(q, *p);
                    self.lemma_entry_same_class(q, *p);
                }
            }
            assert forall|q: PubGrubPackage| #[trigger] pre.registered(q) implies self.registered(
                q,
            ) by {
                if q.same(*p) {
                    pre.lemma_entry_same_class(q, *p);
                    self.lemma_entry_same_class(q, *p);
                }
            }
            assert forall|q: PubGrubPackage|
                #![trigger self.registered(q)]
                self.registered(q) == (pre.registered(q) || q.same(*p)) by {
                if q.same(*p) {
                    pre.lemma_entry_same_class(q, *p);
                    self.lemma_entry_same_class(q, *p);
                }
            }
            assert forall|q: PubGrubPackage|
                #![trigger self.fulfilled(q)]
                self.fulfilled(q) == pre.fulfilled(q) by {
                if q.same(*p) {
                    pre.lemma_entry_same_class(q, *p);
                    self.lemma_entry_same_class(q, *p);
                }
            }
        }
        fresh
    }

    /// Fulfil an identity with the registry's response.  The first
    /// response for an identity is stored and kept forever; a later
    /// call finds the entry fulfilled, changes nothing and returns
    /// false.  Fulfilling an identity that was never registered
    /// registers and fulfils it in one step.
    pub fn done(&mut self, p: &PubGrubPackage, response: VersionsResponse) -> (stored: bool)
        requires
            old(self).wf(),
        ensures
            final(self).wf(),
            stored == !old(self).fulfilled(*p),
            final(self).response_of(*p) == if stored {
                Some(response)
            } else {
                old(self).response_of(*p)
            },
            forall|q: PubGrubPackage|
                !q.same(*p) ==> #[trigger] final(self).entry_of(q) == old(self).entry_of(q),
            forall|q: PubGrubPackage|
                q.same(*p) ==> #[trigger] final(self).entry_of(q) == final(self).entry_of(*p),
            forall|q: PubGrubPackage|
                #![trigger final(self).registered(q)]
                final(self).registered(q) == (old(self).registered(q) || q.same(*p)),
            forall|q: PubGrubPackage|
                #![trigger final(self).fulfilled(q)]
                final(self).fulfilled(q) == (old(self).fulfilled(q) || q.same(*p)),
            fulfilled_preserved(*old(self), *final(self)),
            registered_preserved(*old(self), *final(self)),
    {
        let ghost pre = *self;
        let stored = match self.find(p) {
            Some(i) => {
                let already = match &self.entries[i].1 {
                    Some(_) => true,
                    None => false,
                };
                if already {
                    false
                } else {
                    let row = self.entries.remove(i);
                    self.entries.insert(i, (row.0, Some(response)));
                    proof {
                        assert(self.entries@ =~= pre.entries@.update(
                            i as int,
                            (pre.entries@[i as int].0, Some(response)),
                        ));
                        assert forall|a: int, b: int| 0 <= a < b < self.entries@.len() implies !(
                        #[trigger] self.entries@[a].0.same(self.entries@[b].0)) by {
                            assert(self.entries@[a].0 == pre.entries@[a].0);
                            assert(self.entries@[b].0 == pre.entries@[b].0);
                        }
                        self.lemma_entry_at(*p, i as int);
                        assert forall|q: PubGrubPackage| !q.same(*p) implies #[trigger] self
                            .entry_of(q) == pre.entry_of(q) by {
                            if exists|k: int|
                                0 <= k < pre.entries@.len() && (#[trigger] pre.entries@[k].0.same(
                                    q,
                                )) {
                                let k = choose|k: int|
                                    0 <= k < pre.entries@.len() && (
                                    #[trigger] pre.entries@[k].0.same(q));
                                pre.lemma_entry_at(q, k);
                                self.lemma_entry_at(q, k);
                                if k == i as int {
                                    assert(pre.entries@[k].0.same(*p));
                                    assert(q.same(*p));
                                }
                            } else {
                                assert forall|k: int| 0 <= k < self.entries@.len() implies !(
                                #[trigger] self.entries@[k].0.same(q)) by {
                                    assert(self.entries@[k].0 == pre.entries@[k].0);
                                }
                            }
                        }
                    }
                    true
                }
            },
            None => {
                self.entries.push((p.clone(), Some(response)));
                proof {
                    let n = pre.entries@.len() as int;
                    assert(self.entries@ == pre.entries@.push((*p, Some(response))));
                    assert forall|a: int, b: int| 0 <= a < b < self.entries@.len() implies !(
                    #[trigger] self.entries@[a].0.same(self.entries@[b].0)) by {
                        if b < n {
                            assert(!pre.entries@[a].0.same(pre.entries@[b].0));
                        } else {
                            assert(self.entries@[b].0 == *p);
                            if self.entries@[a].0.same(*p) {
                                pre.lemma_entry_at(*p, a);
                            }
                        }
                    }
                    self.lemma_entry_at(*p, n);
                    assert forall|q: PubGrubPackage| !q.same(*p) implies #[trigger] self.entry_of(
                        q,
                    ) == pre.entry_of(q) by {
                        if exists|k: int|
                            0 <= k < pre.entries@.len() && (#[trigger] pre.entries@[k].0.same(q)) {
                            let k = choose|k: int|
                                0 <= k < pre.entries@.len() && (#[trigger] pre.entries@[k].0.same(
                                    q,
                                ));
                            pre.lemma_entry_at(q, k);
                            self.lemma_entry_at(q, k);
                        } else {
                            assert forall|k: int| 0 <= k < self.entries@.len() implies !(
                            #[trigger] self.entries@[k].0.same(q)) by {
                                if k < n {
                                    assert(!pre.entries@[k].0.same(q));
                                } else {
                                    assert(self.entries@[k].0 == *p);
                                    if self.entries@[k].0.same(q) {
                                        assert(q.same(*p));
                                    }
                                }
                            }
                        }
                    }
                }
                true
            },
        };
        proof {
            assert forall|q: PubGrubPackage| q.same(*p) implies #[trigger] self.entry_of(q)
                == self.entry_of(*p) by {
                self.lemma_entry_same_class(q, *p);
            }
            assert forall|q: PubGrubPackage|
                #![trigger pre.response_of(q)]
                pre.response_of(q) is Some implies self.response_of(q) == pre.response_of(q) by {
                if q.same(*p) {
                    pre.lemma_entry_same_class(q, *p);
                    self.lemma_entry_same_class(q, *p);
                }
            }
            assert forall|q: PubGrubPackage| #[trigger] pre.registered(q) implies self.registered(
                q,
            ) by {
                if q.same(*p) {
                    pre.lemma_entry_same_class(q, *p);
                    self.lemma_entry_same_class(q, *p);
                }
            }
            assert forall|q: PubGrubPackage|
                #![trigger self.registered(q)]
                self.registered(q) == (pre.registered(q) || q.same(*p)) by {
                if q.same(*p) {
                    pre.lemma_entry_same_class(q, *p);
                    self.lemma_entry_same_class(q, *p);
                }
            }
            assert forall|q: PubGrubPackage|
                #![trigger self.fulfilled(q)]
                self.fulfilled(q) == (pre.fulfilled(q) || q.same(*p)) by {
                if q.same(*p) {
                    pre.lemma_entry_same_class(q, *p);
                    self.lemma_entry_same_class(q, *p);
                }
            }
        }
        stored
    }

    /// Read an identity's fulfilled response, if it has arrived.  The
    /// blocking shell waits on the condition this function reports.
    pub fn get(&self, p: &PubGrubPackage) -> (r: Option<&VersionsResponse>)
        requires
            self.wf(),
        ensures
            match r {
                Some(v) => self.response_of(*p) == Some(*v),
                None => !self.fulfilled(*p),
            },
    {
        match self.find(p) {
            Some(i) => match &self.entries[i].1 {
                Some(v) => Some(v),
                None => None,
            },
            None => None,
        }
    }
}

/// Law: an identity is claimed exactly once.  Once registered it
/// stays registered through every further operation, so any later
/// registration attempt finds it present and is refused.
pub proof fn lemma_register_once(a: PackageOnceMap, b: PackageOnceMap, p: PubGrubPackage)
    requires
        a.registered(p),
        registered_preserved(a, b),
    ensures
        b.registered(p),
{
}

/// Law: fulfilled responses survive any chain of index states each of
/// which preserves them; with `register` and `done` both ensuring the
/// relation, every caller that reads an identity after its response
/// arrived observes that one response.
pub proof fn lemma_fulfilled_preserved_trans(
    a: PackageOnceMap,
    b: PackageOnceMap,
    c: PackageOnceMap,
)
    requires
        fulfilled_preserved(a, b),
        fulfilled_preserved(b, c),
    ensures
        fulfilled_preserved(a, c),
{
}

/// The per-version metadata side of the index.  The resolver keeps it
/// for completeness of the shared index; one resolution run reads only
/// the package side.
pub struct DistributionOnceMap {
    entries: Vec<(PackageId, MetadataResponse)>,
}

impl DistributionOnceMap {
    /// Entries are keyed by resolved package: no two rows share one.
    pub closed spec fn wf(self) -> bool {
        forall|i: int, j: int|
            0 <= i < j < self.entries@.len() ==> !(#[trigger] self.entries@[i].0.same(
                self.entries@[j].0,
            ))
    }

    pub closed spec fn has(self, id: PackageId) -> bool {
        exists|i: int| 0 <= i < self.entries@.len() && (#[trigger] self.entries@[i].0.same(id))
    }

    /// The stored response, if any.
    pub closed spec fn response_of(self, id: PackageId) -> Option<MetadataResponse> {
        if exists|i: int| 0 <= i < self.entries@.len() && (#[trigger] self.entries@[i].0.same(id)) {
            let i = choose|i: int|
                0 <= i < self.entries@.len() && (#[trigger] self.entries@[i].0.same(id));
            Some(self.entries@[i].1)
        } else {
            None
        }
    }

    /// Under well-formedness, any matching row determines the entry.
    proof fn lemma_response_at(self, id: PackageId, i: int)
        requires
            self.wf(),
            0 <= i < self.entries@.len(),
            self.entries@[i].0.same(id),
        ensures
            self.response_of(id) == Some(self.entries@[i].1),
    {
        let j = choose|j: int|
            0 <= j < self.entries@.len() && (#[trigger] self.entries@[j].0.same(id));
        if i < j {
            assert(self.entries@[i].0.same(self.entries@[j].0));
            assert(false);
        }
        if j < i {
            assert(self.entries@[j].0.same(self.entries@[i].0));
            assert(false);
        }
    }

    pub fn new() -> (r: Self)
        ensures
            r.wf(),
            forall|id: PackageId| !(#[trigger] r.has(id)),
    {
        DistributionOnceMap { entries: Vec::new() }
    }

    /// Store a response unless the identity already holds one: the
    /// first response for a resolved package is the one kept.
    pub fn done(&mut self, id: &PackageId, response: MetadataResponse) -> (stored: bool)
        requires
            old(self).wf(),
        ensures
            final(self).wf(),
            stored == !old(self).has(*id),
            final(self).has(*id),
            final(self).response_of(*id) == if stored {
                Some(response)
            } else {
                old(self).response_of(*id)
            },
            forall|q: PackageId| #[trigger] old(self).has(q) ==> final(self).has(q),
    {
        let mut i: usize = 0;
        while i < self.entries.len()
            invariant
                self.wf(),
                i <= self.entries@.len(),
                forall|j: int| 0 <= j < i ==> !(#[trigger] self.entries@[j].0.same(*id)),
            decreases self.entries@.len() - i,
        {
            if self.entries[i].0.same_id(id) {
                proof {
                    self.lemma_response_at(*id, i as int);
                }
                return false;
            }
            i += 1;
        }
        let ghost pre = *self;
        self.entries.push((id.clone(), response));
        proof {
            let n = pre.entries@.len() as int;
            assert(self.entries@ == pre.entries@.push((*id, response)));
            assert(self.entries@[n].0.same(*id));
            assert forall|a: int, b: int| 0 <= a < b < self.entries@.len() implies !(
            #[trigger] self.entries@[a].0.same(self.entries@[b].0)) by {
                if b < n {
                    assert(!pre.entries@[a].0.same(pre.entries@[b].0));
                } else {
                    assert(self.entries@[b].0 == *id);
                    if self.entries@[a].0.same(*id) {
                        assert(false);
                    }
                }
            }
            self.lemma_response_at(*id, n);
            assert forall|q: PackageId| #[trigger] pre.has(q) implies self.has(q) by {
                let k = choose|k: int|
                    0 <= k < pre.entries@.len() && (#[trigger] pre.entries@[k].0.same(q));
                assert(self.entries@[k].0.same(q));
            }
        }
        true
    }

    /// Read the stored response for a resolved package: the one held
    /// exactly when the package is present.
    pub fn get(&self, id: &PackageId) -> (r: Option<&MetadataResponse>)
        requires
            self.wf(),
        ensures
            match r {
                Some(v) => self.response_of(*id) == Some(*v),
                None => !self.has(*id),
            },
    {
        let mut i: usize = 0;
        while i < self.entries.len()
            invariant
                self.wf(),
                i <= self.entries@.len(),
                forall|j: int| 0 <= j < i ==> !(#[trigger] self.entries@[j].0.same(*id)),
            decreases self.entries@.len() - i,
        {
            if self.entries[i].0.same_id(id) {
                proof {
                    self.lemma_response_at(*id, i as int);
                }
                return Some(&self.entries[i].1);
            }
            i += 1;
        }
        None
    }
}

/// The shared in-memory index of one resolution run: package metadata
/// on one side, per-version metadata on the other.
pub struct InMemoryIndex {
    pub packages: PackageOnceMap,
    pub distributions: DistributionOnceMap,
}

impl InMemoryIndex {
    pub fn new() -> (r: Self)
        ensures
            r.packages.wf(),
            r.distributions.wf(),
            forall|p: PubGrubPackage| !(#[trigger] r.packages.registered(p)),
            forall|id: PackageId| !(#[trigger] r.distributions.has(id)),
    {
        InMemoryIndex { packages: PackageOnceMap::new(), distributions: DistributionOnceMap::new() }
    }

    /// The package metadata map.
    pub fn packages(&self) -> (r: &PackageOnceMap)
        ensures
            r == &self.packages,
    {
        &self.packages
    }

    pub fn packages_mut(&mut self) -> (r: &mut PackageOnceMap)
        ensures
            *r == old(self).packages,
            *final(self) == (InMemoryIndex {
                packages: *final(r),
                distributions: old(self).distributions,
            }),
    {
        &mut self.packages
    }

    /// The per-version metadata map.
    pub fn distributions(&self) -> (r: &DistributionOnceMap)
        ensures
            r == &self.distributions,
    {
        &self.distributions
    }

    pub fn distributions_mut(&mut self) -> (r: &mut DistributionOnceMap)
        ensures
            *r == old(self).distributions,
            *final(self) == (InMemoryIndex {
                packages: old(self).packages,
                distributions: *final(r),
            }),
    {
        &mut self.distributions
    }
}

} // verus!
