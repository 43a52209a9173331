use vstd::prelude::*;

use itertools::Itertools;

use crate::index::{
    fulfilled_preserved, registered_preserved, summaries_same, PackageOnceMap, VersionsResponse,
};
use crate::pkg::{DepKind, DependencyFilter, ManifestDependency, PackageId, PubGrubPackage, Summary};
use crate::ranges::{range_contains, range_versions, req_to_range, VersionRanges};
use crate::requirement::{DependencyVersionReq, ReqBound};
use crate::source::SourceKind;
use crate::version::{triple_le, PackageVersion};

verus! {

/// A human-readable reason the solver records for a constraint that
/// does not come from a package's declared dependencies.
#[derive(Clone, Debug, PartialEq, Eq)]
pub struct CustomIncompatibility(pub String);

impl CustomIncompatibility {
    pub fn new(message: String) -> (r: Self)
        ensures
            r.0 == message,
    {
        CustomIncompatibility(message)
    }

    pub fn message(&self) -> (r: &String)
        ensures
            r == &self.0,
    {
        &self.0
    }
}

/// How strongly the solver should prefer to branch on a package.
/// Ranked from lowest to highest; within one rank a smaller depth
/// (assigned breadth-first from the roots) ranks higher.
#[derive(Clone, Copy, Debug, PartialEq, Eq, Structural)]
pub enum PubGrubPriority {
    /// No specific priority beyond the depth from the roots.
    Unspecified(usize),
    /// Reserved: the requirement pins a single version.
    Singleton(usize),
    /// Reserved: the package was named by a direct URL.
    DirectUrl(usize),
    /// The package the run started from.
    Root,
}

impl PubGrubPriority {
    pub open spec fn class(self) -> int {
        match self {
            PubGrubPriority::Unspecified(_) => 0,
            PubGrubPriority::Singleton(_) => 1,
            PubGrubPriority::DirectUrl(_) => 2,
            PubGrubPriority::Root => 3,
        }
    }

    pub open spec fn depth(self) -> int {
        match self {
            PubGrubPriority::Unspecified(d) => d as int,
            PubGrubPriority::Singleton(d) => d as int,
            PubGrubPriority::DirectUrl(d) => d as int,
            PubGrubPriority::Root => 0,
        }
    }

    /// Whether this priority strictly outranks the other: a higher
    /// class wins, and within one class the smaller depth wins.
    pub open spec fn spec_outranks(self, other: PubGrubPriority) -> bool {
        self.class() > other.class() || (self.class() == other.class() && self.depth()
            < other.depth())
    }

    pub fn outranks(&self, other: &PubGrubPriority) -> (r: bool)
        ensures
            r == self.spec_outranks(*other),
    {
        let a = self.class_index();
        let b = other.class_index();
        if a != b {
            a > b
        } else {
            self.depth_value() < other.depth_value()
        }
    }

    fn class_index(&self) -> (r: u8)
        ensures
            r as int == self.class(),
    {
        match self {
            PubGrubPriority::Unspecified(_) => 0,
            PubGrubPriority::Singleton(_) => 1,
            PubGrubPriority::DirectUrl(_) => 2,
            PubGrubPriority::Root => 3,
        }
    }

    fn depth_value(&self) -> (r: usize)
        ensures
            r as int == self.depth(),
    {
        match self {
            PubGrubPriority::Unspecified(d) => *d,
            PubGrubPriority::Singleton(d) => *d,
            PubGrubPriority::DirectUrl(d) => *d,
            PubGrubPriority::Root => 0,
        }
    }
}

/// The errors the constraint provider surfaces to the solver.
#[derive(Debug)]
pub enum DependencyProviderError {
    /// No queried source knows the named package at the required
    /// versions.
    PackageNotFound { name: String, version: DependencyVersionReq },
    /// The registry failed while answering a query.
    PackageQueryFailed { message: String },
    /// The coordination channel between the solver and the fetch side
    /// closed early: an internal fault, never expected in a correct
    /// run.
    ChannelClosed,
    /// A package declares itself as a dependency.
    SelfDependency { name: String, version: PackageVersion },
}

/// The depth assigned to the dependencies of a package at the given
/// depth: one more, saturating at the greatest representable depth.
pub open spec fn next_depth(d: usize) -> usize {
    if d == usize::MAX {
        d
    } else {
        (d + 1) as usize
    }
}

/// Version order on summaries, highest first.
pub open spec fn sorted_desc(s: Seq<Summary>) -> bool {
    forall|i: int, j: int|
        0 <= i <= j < s.len() ==> triple_le(
            (#[trigger] s[j]).package_id.version.as_triple(),
            (#[trigger] s[i]).package_id.version.as_triple(),
        )
}

/// The metadata one summary carries, as a mathematical value: two
/// summaries with equal metadata are interchangeable.
pub open spec fn meta(s: Summary) -> (PackageId, Seq<ManifestDependency>) {
    (s.package_id, s.dependencies@)
}

/// The metadata of every summary in a list, in order.
pub open spec fn metas(s: Seq<Summary>) -> Seq<(PackageId, Seq<ManifestDependency>)> {
    s.map_values(|x: Summary| meta(x))
}

/// Two lists that are reorderings of each other carry the same
/// multiset of metadata.
proof fn lemma_metas_multiset(a: Seq<Summary>, b: Seq<Summary>)
    requires
        a.to_multiset() == b.to_multiset(),
    ensures
        metas(a).to_multiset() == metas(b).to_multiset(),
    decreases a.len(),
{
    broadcast use vstd::multiset::group_multiset_axioms;

    a.to_multiset_ensures();
    b.to_multiset_ensures();
    if a.len() == 0 {
        assert(b.to_multiset().len() == 0);
        assert(b.len() == 0);
        assert(metas(a) =~= metas(b));
    } else {
        let x = a[0];
        assert(a.contains(x));
        assert(a.to_multiset().count(x) > 0);
        assert(b.contains(x));
        let k = choose|k: int| 0 <= k < b.len() && b[k] == x;
        let a1 = a.remove(0);
        let b1 = b.remove(k);
        assert(a1.to_multiset() =~= a.to_multiset().remove(x));
        assert(b1.to_multiset() =~= b.to_multiset().remove(x));
        assert(a1.to_multiset() =~= b1.to_multiset());
        lemma_metas_multiset(a1, b1);
        assert(metas(a1) =~= metas(a).remove(0));
        assert(metas(b1) =~= metas(b).remove(k));
        metas(a).to_multiset_ensures();
        metas(b).to_multiset_ensures();
        assert(metas(a).remove(0).to_multiset() =~= metas(a).to_multiset().remove(metas(a)[0]));
        assert(metas(b).remove(k).to_multiset() =~= metas(b).to_multiset().remove(metas(b)[k]));
        assert(metas(a)[0] == meta(x));
        assert(metas(b)[k] == meta(x));
        assert(metas(a).contains(meta(x)));
        assert(metas(a).to_multiset().count(meta(x)) > 0);
        assert(metas(b).contains(meta(x)));
        assert(metas(b).to_multiset().count(meta(x)) > 0);
        assert forall|y: (PackageId, Seq<ManifestDependency>)|
            metas(a).to_multiset().count(y) == #[trigger] metas(b).to_multiset().count(y) by {
            assert(metas(a).to_multiset().remove(meta(x)).count(y) == metas(b).to_multiset()
                .remove(meta(x)).count(y));
        }
        assert(metas(a).to_multiset() =~= metas(b).to_multiset());
    }
}

/// For any one position of one list, a multiset-equal pair of lists
/// offers a counterpart with equal metadata on the other side.
proof fn lemma_meta_counterpart(a: Seq<Summary>, b: Seq<Summary>, j: int)
    requires
        metas(a).to_multiset() == metas(b).to_multiset(),
        0 <= j < b.len(),
    ensures
        exists|i: int| 0 <= i < a.len() && (#[trigger] a[i]).same(b[j]),
{
    metas(a).to_multiset_ensures();
    metas(b).to_multiset_ensures();
    assert(metas(b)[j] == meta(b[j]));
    assert(metas(b).contains(metas(b)[j]));
    assert(metas(b).to_multiset().count(metas(b)[j]) > 0);
    assert(metas(a).contains(metas(b)[j]));
    let i = choose|i: int| 0 <= i < metas(a).len() && metas(a)[i] == metas(b)[j];
    assert(metas(a)[i] == meta(a[i]));
    assert(a[i].same(b[j]));
    assert(0 <= i < a.len() && (a[i]).same(b[j]));
}

/// Relies on itertools' `sorted_by_key`: the result is a reordering
/// of the input, sorted ascending by the extracted key, and tuples of
/// integers order lexicographically; reversing yields the version
/// order highest first.
#[verifier::external_body]
fn sort_summaries_descending(summaries: Vec<Summary>) -> (r: Vec<Summary>)
    ensures
        r@.to_multiset() == summaries@.to_multiset(),
        sorted_desc(r@),
{
    summaries
        .into_iter()
        .sorted_by_key(
            |s: &Summary| (s.package_id.version.major, s.package_id.version.minor, s.package_id.version.patch),
        )
        .rev()
        .collect()
}

/// The provider's map from package identity to its depth from the
/// roots, mutated only from the solving side.
struct PriorityMap {
    entries: Vec<(PubGrubPackage, usize)>,
}

impl PriorityMap {
    spec fn wf(self) -> bool {
        forall|i: int, j: int|
            0 <= i < j < self.entries@.len() ==> !(#[trigger] self.entries@[i].0.same(
                self.entries@[j].0,
            ))
    }

    spec fn value_of(self, p: PubGrubPackage) -> Option<usize> {
        if exists|i: int| 0 <= i < self.entries@.len() && (#[trigger] self.entries@[i].0.same(p)) {
            let i = choose|i: int|
                0 <= i < self.entries@.len() && (#[trigger] self.entries@[i].0.same(p));
            Some(self.entries@[i].1)
        } else {
            None
        }
    }

    proof fn lemma_value_at(self, p: PubGrubPackage, i: int)
        requires
            self.wf(),
            0 <= i < self.entries@.len(),
            self.entries@[i].0.same(p),
        ensures
            self.value_of(p) == Some(self.entries@[i].1),
    {
        let j = choose|j: int|
            0 <= j < self.entries@.len() && (#[trigger] self.entries@[j].0.same(p));
        if i < j {
            assert(self.entries@[i].0.same(self.entries@[j].0));
            assert(false);
        }
        if j < i {
            assert(self.entries@[j].0.same(self.entries@[i].0));
            assert(false);
        }
    }

    fn new() -> (r: Self)
        ensures
            r.wf(),
            forall|p: PubGrubPackage| #[trigger] r.value_of(p) == None::<usize>,
    {
        PriorityMap { entries: Vec::new() }
    }

    fn find(&self, p: &PubGrubPackage) -> (r: Option<usize>)
        requires
            self.wf(),
        ensures
            match r {
                Some(i) => {
                    &&& i < self.entries@.len()
                    &&& self.entries@[i as int].0.same(*p)
                    &&& self.value_of(*p) == Some(self.entries@[i as int].1)
                },
                None => self.value_of(*p) == None::<usize>,
            },
    {
        let mut i: usize = 0;
        while i < self.entries.len()
            invariant
                self.wf(),
                i <= self.entries@.len(),
                forall|j: int| 0 <= j < i ==> !(#[trigger] self.entries@[j].0.same(*p)),
            decreases self.entries@.len() - i,
        {
            if self.entries[i].0.same_package(p) {
                proof {
                    self.lemma_value_at(*p, i as int);
                }
                return Some(i);
            }
            i += 1;
        }
        None
    }

    fn get(&self, p: &PubGrubPackage) -> (r: Option<usize>)
        requires
            self.wf(),
        ensures
            r == self.value_of(*p),
    {
        match self.find(p) {
            Some(i) => Some(self.entries[i].1),
            None => None,
        }
    }

    /// Record the depth for an identity, replacing any earlier one.
    fn set(&mut self, p: &PubGrubPackage, depth: usize)
        requires
            old(self).wf(),
        ensures
            final(self).wf(),
            forall|q: PubGrubPackage|
                #![trigger final(self).value_of(q)]
                final(self).value_of(q) == if q.same(*p) {
                    Some(depth)
                } else {
                    old(self).value_of(q)
                },
    {
        let ghost pre = *self;
        match self.find(p) {
            Some(i) => {
                let row = self.entries.remove(i);
                self.entries.insert(i, (row.0, depth));
                proof {
                    assert(self.entries@ =~= pre.entries@.update(
                        i as int,
                        (pre.entries@[i as int].0, depth),
                    ));
                    assert forall|a: int, b: int| 0 <= a < b < self.entries@.len() implies !(
                    #[trigger] self.entries@[a].0.same(self.entries@[b].0)) by {
                        assert(self.entries@[a].0 == pre.entries@[a].0);
                        assert(self.entries@[b].0 == pre.entries@[b].0);
                    }
                    assert forall|q: PubGrubPackage|
                        #![trigger self.value_of(q)]
                        self.value_of(q) == if q.same(*p) {
                            Some(depth)
                        } else {
                            pre.value_of(q)
                        } by {
                        if q.same(*p) {
                            assert(self.entries@[i as int].0.same(q));
                            self.lemma_value_at(q, i as int);
                        } else {
                            if exists|k: int|
                                0 <= k < pre.entries@.len() && (#[trigger] pre.entries@[k].0.same(
                                    q,
                                )) {
                                let k = choose|k: int|
                                    0 <= k < pre.entries@.len() && (
                                    #[trigger] pre.entries@[k].0.same(q));
                                pre.lemma_value_at(q, k);
                                self.lemma_value_at(q, k);
                                if k == i as int {
                                    assert(pre.entries@[k].0.same(*p));
                                    assert(q.same(*p));
                                }
                            } else {
                                assert forall|k: int| 0 <= k < self.entries@.len() implies !(
                                #[trigger] self.entries@[k].0.same(q)) by {
                                    assert(self.entries@[k].0 == pre.entries@[k].0);
                                }
                            }
                        }
                    }
                }
            },
            None => {
                self.entries.push((p.clone(), depth));
                proof {
                    let n = pre.entries@.len() as int;
                    assert(self.entries@ == pre.entries@.push((*p, depth)));
                    assert forall|a: int, b: int| 0 <= a < b < self.entries@.len() implies !(
                    #[trigger] self.entries@[a].0.same(self.entries@[b].0)) by {
                        if b < n {
                            assert(!pre.entries@[a].0.same(pre.entries@[b].0));
                        } else {
                            assert(self.entries@[b].0 == *p);
                            if self.entries@[a].0.same(*p) {
                                pre.lemma_value_at(*p, a);
                            }
                        }
                    }
                    assert forall|q: PubGrubPackage|
                        #![trigger self.value_of(q)]
                        self.value_of(q) == if q.same(*p) {
                            Some(depth)
                        } else {
                            pre.value_of(q)
                        } by {
                        if q.same(*p) {
                            assert(self.entries@[n].0.same(q));
                            self.lemma_value_at(q, n);
                        } else {
                            if exists|k: int|
                                0 <= k < pre.entries@.len() && (#[trigger] pre.entries@[k].0.same(
                                    q,
                                )) {
                                let k = choose|k: int|
                                    0 <= k < pre.entries@.len() && (
                                    #[trigger] pre.entries@[k].0.same(q));
                                pre.lemma_value_at(q, k);
                                self.lemma_value_at(q, k);
                            } else {
                                assert forall|k: int| 0 <= k < self.entries@.len() implies !(
                                #[trigger] self.entries@[k].0.same(q)) by {
                                    if k < n {
                                        assert(!pre.entries@[k].0.same(q));
                                    } else {
                                        assert(self.entries@[k].0 == *p);
                                        if self.entries@[k].0.same(q) {
                                            assert(q.same(*p));
                                        }
                                    }
                                }
                            }
                        }
                    }
                }
            },
        }
    }
}

/// The provider's secondary cache of already-seen summaries, keyed by
/// resolved package.  Populated lazily, never removed from: the first
/// summary stored for a package is the one kept.
struct SummaryCache {
    entries: Vec<(PackageId, Summary)>,
}

impl SummaryCache {
    spec fn wf(self) -> bool {
        &&& forall|i: int, j: int|
            0 <= i < j < self.entries@.len() ==> !(#[trigger] self.entries@[i].0.same(
                self.entries@[j].0,
            ))
        &&& forall|i: int|
            0 <= i < self.entries@.len() ==> (#[trigger] self.entries@[i].1).package_id.same(
                self.entries@[i].0,
            )
    }

    spec fn cached(self, id: PackageId) -> Option<Summary> {
        if exists|i: int| 0 <= i < self.entries@.len() && (#[trigger] self.entries@[i].0.same(id)) {
            let i = choose|i: int|
                0 <= i < self.entries@.len() && (#[trigger] self.entries@[i].0.same(id));
            Some(self.entries@[i].1)
        } else {
            None
        }
    }

    proof fn lemma_cached_at(self, id: PackageId, i: int)
        requires
            self.wf(),
            0 <= i < self.entries@.len(),
            self.entries@[i].0.same(id),
        ensures
            self.cached(id) == Some(self.entries@[i].1),
    {
        let j = choose|j: int|
            0 <= j < self.entries@.len() && (#[trigger] self.entries@[j].0.same(id));
        if i < j {
            assert(self.entries@[i].0.same(self.entries@[j].0));
            assert(false);
        }
        if j < i {
            assert(self.entries@[j].0.same(self.entries@[i].0));
            assert(false);
        }
    }

    /// The cache entry depends only on the identity and version, not
    /// on the value that names them.
    proof fn lemma_cached_same_class(self, a: PackageId, b: PackageId)
        requires
            self.wf(),
            a.same(b),
        ensures
            self.cached(a) == self.cached(b),
    {
        if exists|i: int| 0 <= i < self.entries@.len() && (#[trigger] self.entries@[i].0.same(a)) {
            let i = choose|i: int|
                0 <= i < self.entries@.len() && (#[trigger] self.entries@[i].0.same(a));
            assert(self.entries@[i].0.same(b));
            self.lemma_cached_at(a, i);
            self.lemma_cached_at(b, i);
        } else {
            assert forall|i: int| 0 <= i < self.entries@.len() implies !(
            #[trigger] self.entries@[i].0.same(b)) by {
                if self.entries@[i].0.same(b) {
                    assert(self.entries@[i].0.same(a));
                }
            }
        }
    }

    fn new() -> (r: Self)
        ensures
            r.wf(),
            forall|id: PackageId| #[trigger] r.cached(id) == None::<Summary>,
    {
        SummaryCache { entries: Vec::new() }
    }

    fn find(&self, id: &PackageId) -> (r: Option<usize>)
        requires
            self.wf(),
        ensures
            match r {
                Some(i) => {
                    &&& i < self.entries@.len()
                    &&& self.entries@[i as int].0.same(*id)
                    &&& self.cached(*id) == Some(self.entries@[i as int].1)
                },
                None => self.cached(*id) == None::<Summary>,
            },
    {
        let mut i: usize = 0;
        while i < self.entries.len()
            invariant
                self.wf(),
                i <= self.entries@.len(),
                forall|j: int| 0 <= j < i ==> !(#[trigger] self.entries@[j].0.same(*id)),
            decreases self.entries@.len() - i,
        {
            if self.entries[i].0.same_id(id) {
                proof {
                    self.lemma_cached_at(*id, i as int);
                }
                return Some(i);
            }
            i += 1;
        }
        None
    }

    /// The cached summary for a resolved package, as a fresh copy.
    fn get(&self, id: &PackageId) -> (r: Option<Summary>)
        requires
            self.wf(),
        ensures
            match r {
                Some(s) => self.cached(*id) matches Some(c) && s.same(c) && s.package_id.same(
                    *id,
                ),
                None => self.cached(*id) == None::<Summary>,
            },
    {
        match self.find(id) {
            Some(i) => {
                proof {
                    assert(self.entries@[i as int].1.package_id.same(self.entries@[i as int].0));
                    assert(self.entries@[i as int].0.same(*id));
                }
                Some(self.entries[i].1.clone())
            },
            None => None,
        }
    }

    /// Store a summary under its own package, unless one is already
    /// held for it.
    fn store(&mut self, summary: Summary)
        requires
            old(self).wf(),
        ensures
            final(self).wf(),
            final(self).cached(summary.package_id) matches Some(c) && (c == summary || old(
                self,
            ).cached(summary.package_id) == Some(c)),
            forall|q: PackageId|
                !q.same(summary.package_id) ==> #[trigger] final(self).cached(q) == old(
                    self,
                ).cached(q),
            forall|q: PackageId|
                #[trigger] old(self).cached(q) is Some ==> final(self).cached(q) == old(
                    self,
                ).cached(q),
    {
        let ghost pre = *self;
        let key = summary.package_id.clone();
        match self.find(&key) {
            Some(_) => {
                proof {
                    assert(pre.cached(summary.package_id) is Some);
                }
            },
            None => {
                self.entries.push((key, summary));
                proof {
                    let n = pre.entries@.len() as int;
                    assert(self.entries@ == pre.entries@.push((summary.package_id, summary)));
                    assert forall|a: int, b: int| 0 <= a < b < self.entries@.len() implies !(
                    #[trigger] self.entries@[a].0.same(self.entries@[b].0)) by {
                        if b < n {
                            assert(!pre.entries@[a].0.same(pre.entries@[b].0));
                        } else {
                            assert(self.entries@[b].0 == summary.package_id);
                            if self.entries@[a].0.same(summary.package_id) {
                                pre.lemma_cached_at(summary.package_id, a);
                            }
                        }
                    }
                    self.lemma_cached_at(summary.package_id, n);
                    assert forall|q: PackageId| !q.same(summary.package_id) implies #[trigger] self
                        .cached(q) == pre.cached(q) by {
                        if exists|k: int|
                            0 <= k < pre.entries@.len() && (#[trigger] pre.entries@[k].0.same(q)) {
                            let k = choose|k: int|
                                0 <= k < pre.entries@.len() && (#[trigger] pre.entries@[k].0.same(
                                    q,
                                ));
                            pre.lemma_cached_at(q, k);
                            self.lemma_cached_at(q, k);
                        } else {
                            assert forall|k: int| 0 <= k < self.entries@.len() implies !(
                            #[trigger] self.entries@[k].0.same(q)) by {
                                if k < n {
                                    assert(!pre.entries@[k].0.same(q));
                                } else {
                                    assert(self.entries@[k].0 == summary.package_id);
                                    if self.entries@[k].0.same(q) {
                                        assert(q.same(summary.package_id));
                                    }
                                }
                            }
                        }
                    }
                    assert forall|q: PackageId| #[trigger] pre.cached(q) is Some implies self
                        .cached(q) == pre.cached(q) by {
                        if q.same(summary.package_id) {
                            let k = choose|k: int|
                                0 <= k < pre.entries@.len() && (#[trigger] pre.entries@[k].0.same(
                                    q,
                                ));
                            pre.lemma_cached_at(q, k);
                            assert(pre.entries@[k].0.same(summary.package_id));
                            pre.lemma_cached_at(summary.package_id, k);
                            assert(false);
                        }
                    }
                }
            },
        }
    }
}

/// The outcome of picking a version for one package.
pub enum ChooseOutcome {
    /// A decision: the highest version in range, or none when the
    /// branch is infeasible.
    Chosen(Option<PackageVersion>),
    /// The package's metadata has not arrived: fulfil this identity,
    /// then ask again.
    Pending(PubGrubPackage),
}

/// The outcome of resolving the summary of one exact package version.
pub enum SummaryOutcome {
    /// The summary, and the identities this call was first to
    /// register, whose fetches the caller now owes the index.
    Fetched { summary: Summary, requests: Vec<PubGrubPackage> },
    /// The identity's metadata has not arrived: fulfil it, then ask
    /// again.
    Pending(PubGrubPackage),
    /// A hard failure: the metadata arrived and holds no summary for
    /// the requested package and version.
    Failed(DependencyProviderError),
}

/// The outcome of a synchronous package query against the shared
/// index.
pub enum QueryOutcome {
    /// The identity is fulfilled; its summaries, sorted by version
    /// highest first.
    Ready(Vec<Summary>),
    /// The identity's response has not arrived: the caller must let
    /// the fetch side fulfil this identity, then ask again.
    Pending(PubGrubPackage),
}

/// Register every dependency of a summary with the shared index, and
/// hand back the identities this call was first to register: the
/// fetches the caller owes the index.  This primes the pipeline ahead
/// of the solver's demand, so that no reachable identity is dropped:
/// every dependency ends up registered, and every dependency that was
/// not already registered is covered by one of the returned requests.
#[verifier::rlimit(100)]
pub fn register_dependencies(index: &mut PackageOnceMap, summary: &Summary) -> (requests: Vec<
    PubGrubPackage,
>)
    requires
        old(index).wf(),
    ensures
        final(index).wf(),
        fulfilled_preserved(*old(index), *final(index)),
        registered_preserved(*old(index), *final(index)),
        forall|j: int|
            0 <= j < summary.dependencies@.len() ==> final(index).registered(
                (#[trigger] summary.dependencies@[j]).identity(),
            ),
        forall|j: int|
            0 <= j < summary.dependencies@.len() && !old(index).registered(
                (#[trigger] summary.dependencies@[j]).identity(),
            ) ==> exists|i: int|
                0 <= i < requests@.len() && (#[trigger] requests@[i]).same(
                    summary.dependencies@[j].identity(),
                ),
        forall|k: int|
            0 <= k < requests@.len() ==> final(index).registered(#[trigger] requests@[k]) && !old(
                index,
            ).registered(requests@[k]),
{
    let ghost idx0 = *old(index);
    let mut requests: Vec<PubGrubPackage> = Vec::new();
    let mut k: usize = 0;
    while k < summary.dependencies.len()
        invariant
            index.wf(),
            k <= summary.dependencies@.len(),
            fulfilled_preserved(idx0, *index),
            registered_preserved(idx0, *index),
            forall|j: int|
                0 <= j < k ==> index.registered((#[trigger] summary.dependencies@[j]).identity()),
            forall|j: int|
                0 <= j < summary.dependencies@.len() && index.registered(
                    (#[trigger] summary.dependencies@[j]).identity(),
                ) && !idx0.registered(summary.dependencies@[j].identity()) ==> exists|i: int|
                    0 <= i < requests@.len() && (#[trigger] requests@[i]).same(
                        summary.dependencies@[j].identity(),
                    ),
            forall|k2: int|
                0 <= k2 < requests@.len() ==> index.registered(#[trigger] requests@[k2]) && !(
                idx0.registered(requests@[k2])),
        decreases summary.dependencies@.len() - k,
    {
        let ghost prev = *index;
        let ghost reqs0 = requests@;
        let pkg = summary.dependencies[k].to_package();
        let fresh = index.register(&pkg);
        if fresh {
            requests.push(pkg);
        }
        proof {
            assert(fulfilled_preserved(idx0, *index));
            assert(registered_preserved(idx0, *index));
            assert(index.registered(summary.dependencies@[k as int].identity()));
            assert forall|j: int| 0 <= j < k + 1 implies index.registered(
                (#[trigger] summary.dependencies@[j]).identity(),
            ) by {
                if j < k {
                    assert(prev.registered(summary.dependencies@[j].identity()));
                }
            }
            assert forall|k2: int| 0 <= k2 < requests@.len() implies index.registered(
                #[trigger] requests@[k2],
            ) && !(idx0.registered(requests@[k2])) by {
                if k2 < reqs0.len() {
                    assert(requests@[k2] == reqs0[k2]);
                    assert(prev.registered(reqs0[k2]));
                } else {
                    assert(requests@[k2] == pkg);
                    assert(fresh);
                    if idx0.registered(pkg) {
                        assert(prev.registered(pkg));
                        assert(false);
                    }
                }
            }
            assert forall|j: int|
                0 <= j < summary.dependencies@.len() && index.registered(
                    (#[trigger] summary.dependencies@[j]).identity(),
                ) && !idx0.registered(summary.dependencies@[j].identity()) implies exists|i: int|
                    0 <= i < requests@.len() && (#[trigger] requests@[i]).same(
                        summary.dependencies@[j].identity(),
                    ) by {
                let d = summary.dependencies@[j].identity();
                if prev.registered(d) {
                    let i = choose|i: int| 0 <= i < reqs0.len() && (#[trigger] reqs0[i]).same(d);
                    assert(requests@[i] == reqs0[i]);
                    assert(0 <= i < requests@.len() && requests@[i].same(d));
                } else {
                    assert(index.registered(d) == (prev.registered(d) || d.same(pkg)));
                    assert(d.same(pkg));
                    prev.lemma_entry_same_class(d, pkg);
                    assert(!prev.registered(pkg));
                    assert(fresh);
                    let i = reqs0.len() as int;
                    assert(requests@[i] == pkg);
                    assert(requests@[i].same(d));
                    assert(0 <= i < requests@.len());
                }
            }
        }
        k += 1;
    }
    requests
}

/// What `fetch_summary` promises of its outcome, relative to the
/// provider and index states before and after the call.
#[verifier::opaque]
pub open spec fn fetch_summary_post(
    s0: PubGrubDependencyProvider,
    s1: PubGrubDependencyProvider,
    i0: PackageOnceMap,
    i1: PackageOnceMap,
    pid: PackageId,
    r: SummaryOutcome,
) -> bool {
    match r {
        SummaryOutcome::Fetched { summary, requests } => {
            &&& summary.package_id.same(pid)
            &&& s1.cached(pid) matches Some(c) && summary.same(c)
            &&& (s0.cached(pid) is None ==> (i0.response_of(pid.identity()) matches Some(resp) && (
            exists|j: int|
                0 <= j < resp.summaries().len() && (#[trigger] resp.summaries()[j]).same(
                    summary,
                ))))
            &&& forall|k: int|
                0 <= k < requests@.len() ==> i1.registered(#[trigger] requests@[k]) && !(
                i0.registered(requests@[k]))
            &&& forall|j: int|
                0 <= j < summary.dependencies@.len() ==> i1.registered(
                    (#[trigger] summary.dependencies@[j]).identity(),
                )
            &&& forall|j: int|
                0 <= j < summary.dependencies@.len() && !i0.registered(
                    (#[trigger] summary.dependencies@[j]).identity(),
                ) ==> exists|i: int|
                    0 <= i < requests@.len() && (#[trigger] requests@[i]).same(
                        summary.dependencies@[j].identity(),
                    )
        },
        SummaryOutcome::Pending(p) => {
            &&& p == pid.identity()
            &&& !i0.fulfilled(p)
            &&& i1 == i0
        },
        SummaryOutcome::Failed(e) => {
            &&& e matches DependencyProviderError::PackageNotFound { name, version }
                && name@ == pid.name@ && version == (DependencyVersionReq::Range {
                lower: ReqBound::Inclusive(pid.version),
                upper: ReqBound::Inclusive(pid.version),
            })
            &&& i1 == i0
            &&& i0.response_of(pid.identity()) matches Some(resp) && (forall|j: int|
                0 <= j < resp.summaries().len() ==> !(#[trigger] resp.summaries()[j]).package_id
                    .same(pid))
        },
    }
}

/// Whether a dependency's declared source must be rewritten: path
/// dependencies inside a git checkout resolve against the parent's
/// git source, not against the literal filesystem path.
pub open spec fn rewrite_applies(parent: PackageId, d: ManifestDependency) -> bool {
    parent.source_id.kind == SourceKind::Git && d.source_id.kind == SourceKind::Path
}

/// The identity a rewritten dependency points at: the declared name,
/// drawn from the parent's source.
pub open spec fn rewritten_identity(parent: PackageId, d: ManifestDependency) -> PubGrubPackage {
    PubGrubPackage { name: d.name, source_id: parent.source_id }
}

/// How a dependency handed to the solver relates to the declared one:
/// unchanged where no rewrite applies; otherwise either rewritten to
/// the parent's source, whose identity resolved to a non-empty
/// version set, or kept as declared because the rewritten identity
/// resolved to an empty one.
pub open spec fn rewrite_rel(
    idx: PackageOnceMap,
    parent: PackageId,
    d: ManifestDependency,
    d2: ManifestDependency,
) -> bool {
    if rewrite_applies(parent, d) {
        ||| (d2 == d && (idx.response_of(rewritten_identity(parent, d)) matches Some(resp)
            && resp.summaries().len() == 0))
        ||| (d2.name@ == d.name@ && d2.source_id.same(parent.source_id) && d2.version_req
            == d.version_req && d2.kind == d.kind && (idx.response_of(
            rewritten_identity(parent, d),
        ) matches Some(resp) && resp.summaries().len() > 0))
    } else {
        d2 == d
    }
}

/// The constraint the solver receives for one dependency: the edge
/// points at the best matching summary, the highest version
/// satisfying the requirement among the fulfilled response for the
/// dependency's identity, and the range admits exactly the versions
/// the requirement admits.
pub open spec fn constraint_for(
    idx: PackageOnceMap,
    d: ManifestDependency,
    c: (PubGrubPackage, VersionRanges),
) -> bool {
    &&& idx.response_of(d.identity()) matches Some(resp) && (exists|j: int|
        {
            &&& 0 <= j < resp.summaries().len()
            &&& d.version_req.matches_spec((#[trigger] resp.summaries()[j]).package_id.version)
            &&& c.0.same(resp.summaries()[j].package_id.identity())
            &&& forall|k: int|
                0 <= k < resp.summaries().len() && d.version_req.matches_spec(
                    (#[trigger] resp.summaries()[k]).package_id.version,
                ) ==> resp.summaries()[k].package_id.version.spec_le(
                    resp.summaries()[j].package_id.version,
                )
        })
    &&& forall|t: (int, int, int)| #[trigger] range_versions(c.1).contains(t) <==> d.version_req.admits(t)
}

/// A constraint stays valid as the index gains entries: fulfilled
/// responses never change.
proof fn lemma_constraint_preserved(
    i1: PackageOnceMap,
    i2: PackageOnceMap,
    d: ManifestDependency,
    c: (PubGrubPackage, VersionRanges),
)
    requires
        fulfilled_preserved(i1, i2),
        constraint_for(i1, d, c),
    ensures
        constraint_for(i2, d, c),
{
    assert(i1.response_of(d.identity()) is Some);
    assert(i2.response_of(d.identity()) == i1.response_of(d.identity()));
}

/// The rewrite relation stays valid as the index gains entries.
proof fn lemma_rewrite_preserved(
    i1: PackageOnceMap,
    i2: PackageOnceMap,
    parent: PackageId,
    d: ManifestDependency,
    d2: ManifestDependency,
)
    requires
        fulfilled_preserved(i1, i2),
        rewrite_rel(i1, parent, d, d2),
    ensures
        rewrite_rel(i2, parent, d, d2),
{
    if rewrite_applies(parent, d) {
        assert(i1.response_of(rewritten_identity(parent, d)) is Some);
        assert(i2.response_of(rewritten_identity(parent, d)) == i1.response_of(
            rewritten_identity(parent, d),
        ));
    }
}

/// The resolved package a solver decision names: the package's
/// identity at the chosen version.
pub open spec fn pid_of(package: PubGrubPackage, version: PackageVersion) -> PackageId {
    PackageId { name: package.name, version, source_id: package.source_id }
}

/// The dependencies of a summary that a filter lets through.
pub open spec fn allowed_deps(f: DependencyFilter, s: Summary) -> Seq<ManifestDependency> {
    s.dependencies@.filter(|d: ManifestDependency| f.allows(d.kind))
}

/// The outcome of rewriting one dependency's source.
pub enum RewriteOutcome {
    /// The dependency as declared.
    Kept(ManifestDependency),
    /// The dependency redirected to its parent's source.
    Rewritten(ManifestDependency),
    /// The declared identity's metadata has not arrived: fulfil it,
    /// then ask again.
    Pending(PubGrubPackage),
}

/// The outcome of enumerating a package version's dependencies.
pub enum DepsOutcome {
    /// The constraint set for the solver, and the identities whose
    /// fetches the caller owes the index.
    Available { constraints: Vec<(PubGrubPackage, VersionRanges)>, requests: Vec<PubGrubPackage> },
    /// An identity's metadata has not arrived: send the owed
    /// requests, let this identity be fulfilled, then ask again.
    Pending { package: PubGrubPackage, requests: Vec<PubGrubPackage> },
    /// A hard failure: a package was missing, or the package depends
    /// on itself.
    Failed(DependencyProviderError),
}

/// The dependency filter that a resolved package's role selects:
/// everything for a root package, only transitive kinds otherwise.
pub open spec fn filter_for(s1: PubGrubDependencyProvider, c: Summary) -> DependencyFilter {
    DependencyFilter::propagation_spec(s1.is_main(c.package_id))
}

/// Every returned request is an identity this call was first to
/// register: registered after it, not registered before it.
pub open spec fn requests_sound(
    i0: PackageOnceMap,
    i1: PackageOnceMap,
    requests: Seq<PubGrubPackage>,
) -> bool {
    forall|k: int|
        0 <= k < requests.len() ==> i1.registered(#[trigger] requests[k]) && !(i0.registered(
            requests[k],
        ))
}

/// Where an identity a dependency enumeration waits for may come
/// from: the queried package itself, or a declared or rewritten
/// dependency of its cached summary.
pub open spec fn pending_from(
    s1: PubGrubDependencyProvider,
    package: PubGrubPackage,
    version: PackageVersion,
    p: PubGrubPackage,
) -> bool {
    ||| p.same(package)
    ||| (s1.cached(pid_of(package, version)) matches Some(c) && (exists|j: int|
        0 <= j < allowed_deps(filter_for(s1, c), c).len() && (p.same(
            (#[trigger] allowed_deps(filter_for(s1, c), c)[j]).identity(),
        ) || p.same(rewritten_identity(c.package_id, allowed_deps(filter_for(s1, c), c)[j])))))
}

/// The queried exact package resolves to no summary: its identity's
/// fulfilled response holds none with that name, version and source.
pub open spec fn missing_package(
    i1: PackageOnceMap,
    package: PubGrubPackage,
    version: PackageVersion,
    name: String,
    vreq: DependencyVersionReq,
) -> bool {
    &&& name@ == package.name@
    &&& vreq == (DependencyVersionReq::Range {
        lower: ReqBound::Inclusive(version),
        upper: ReqBound::Inclusive(version),
    })
    &&& i1.response_of(pid_of(package, version).identity()) matches Some(resp) && (forall|j: int|
        0 <= j < resp.summaries().len() ==> !(#[trigger] resp.summaries()[j]).package_id.same(
            pid_of(package, version),
        ))
}

/// Some filtered dependency of the cached summary, after source
/// rewriting, matches no version in its identity's fulfilled
/// response; the error names that dependency and its requirement.
pub open spec fn missing_dependency(
    s1: PubGrubDependencyProvider,
    i1: PackageOnceMap,
    c: Summary,
    name: String,
    vreq: DependencyVersionReq,
) -> bool {
    exists|j: int, d2: ManifestDependency|
        {
            &&& 0 <= j < allowed_deps(filter_for(s1, c), c).len()
            &&& rewrite_rel(i1, c.package_id, allowed_deps(filter_for(s1, c), c)[j], d2)
            &&& name@ == d2.name@
            &&& vreq == d2.version_req
            &&& i1.response_of(d2.identity()) matches Some(resp) && (forall|k: int|
                0 <= k < resp.summaries().len() ==> !d2.version_req.matches_spec(
                    (#[trigger] resp.summaries()[k]).package_id.version,
                ))
        }
}

/// What `Available` promises of the cached summary `c`: the
/// constraint set corresponds one to one to `c`'s filtered
/// dependencies, none of which names the package itself; each edge is
/// related to its declared dependency by the rewrite relation and
/// points at the best matching summary with the requirement's exact
/// range; and the depth from the roots is propagated to exactly `c`'s
/// dependencies, one level deeper, all other priorities unchanged.
pub open spec fn available_for(
    s0: PubGrubDependencyProvider,
    s1: PubGrubDependencyProvider,
    i1: PackageOnceMap,
    package: PubGrubPackage,
    version: PackageVersion,
    c: Summary,
    constraints: Seq<(PubGrubPackage, VersionRanges)>,
) -> bool {
    exists|wits: Seq<ManifestDependency>|
        {
            &&& c.package_id.same(pid_of(package, version))
            &&& constraints.len() == allowed_deps(filter_for(s1, c), c).len()
            &&& (#[trigger] wits.len()) == allowed_deps(filter_for(s1, c), c).len()
            &&& forall|i: int|
                0 <= i < allowed_deps(filter_for(s1, c), c).len() ==> !(#[trigger] allowed_deps(
                    filter_for(s1, c),
                    c,
                )[i]).identity().same(package)
            &&& forall|i: int|
                0 <= i < allowed_deps(filter_for(s1, c), c).len() ==> rewrite_rel(
                    i1,
                    c.package_id,
                    (#[trigger] allowed_deps(filter_for(s1, c), c)[i]),
                    wits[i],
                ) && constraint_for(i1, wits[i], constraints[i])
            &&& forall|j: int|
                0 <= j < c.dependencies@.len() ==> (s0.priority_of(package) matches Some(dp)
                    ==> s1.priority_of((#[trigger] c.dependencies@[j]).identity()) == Some(
                    next_depth(dp),
                ))
            &&& forall|p2: PubGrubPackage|
                #![trigger s1.priority_of(p2)]
                s1.priority_of(p2) == s0.priority_of(p2) || (s0.priority_of(
                    package,
                ) matches Some(dp) && s1.priority_of(p2) == Some(next_depth(dp)) && (exists|
                    j: int,
                |
                    0 <= j < c.dependencies@.len() && (#[trigger] c.dependencies@[j]).identity()
                        .same(p2)))
        }
}

/// What `get_dependencies` promises of its outcome, relative to the
/// provider states before and after the call and the index state
/// before and after it.
#[verifier::opaque]
pub open spec fn get_dependencies_post(
    s0: PubGrubDependencyProvider,
    s1: PubGrubDependencyProvider,
    i0: PackageOnceMap,
    i1: PackageOnceMap,
    package: PubGrubPackage,
    version: PackageVersion,
    r: DepsOutcome,
) -> bool {
    match r {
        DepsOutcome::Available { constraints, requests } => {
            &&& s1.cached(pid_of(package, version)) matches Some(c) && available_for(
                s0,
                s1,
                i1,
                package,
                version,
                c,
                constraints@,
            )
            &&& requests_sound(i0, i1, requests@)
        },
        DepsOutcome::Pending { package: p, requests } => {
            &&& !i1.fulfilled(p)
            &&& pending_from(s1, package, version, p)
            &&& requests_sound(i0, i1, requests@)
        },
        DepsOutcome::Failed(e) => match e {
            DependencyProviderError::SelfDependency { name, version: v } => {
                &&& name@ == package.name@
                &&& v == version
                &&& s1.cached(pid_of(package, version)) matches Some(c) && (exists|i: int|
                    0 <= i < allowed_deps(filter_for(s1, c), c).len() && (#[trigger] allowed_deps(
                        filter_for(s1, c),
                        c,
                    )[i]).identity().same(package))
            },
            DependencyProviderError::PackageNotFound { name, version: vreq } => {
                ||| missing_package(i1, package, version, name, vreq)
                ||| (s1.cached(pid_of(package, version)) matches Some(c) && missing_dependency(
                    s1,
                    i1,
                    c,
                    name,
                    vreq,
                ))
            },
            _ => false,
        },
    }
}

/// The position of the first dependency that names the package it
/// belongs to, if any: a self-dependency.
fn find_self_dependency(deps: &Vec<ManifestDependency>, package: &PubGrubPackage) -> (r: Option<
    usize,
>)
    ensures
        match r {
            Some(i) => i < deps@.len() && deps@[i as int].identity().same(*package),
            None => forall|k: int|
                0 <= k < deps@.len() ==> !(#[trigger] deps@[k]).identity().same(*package),
        },
{
    let mut c: usize = 0;
    while c < deps.len()
        invariant
            c <= deps@.len(),
            forall|k: int| 0 <= k < c ==> !(#[trigger] deps@[k]).identity().same(*package),
        decreases deps@.len() - c,
    {
        if deps[c].to_package().same_package(package) {
            return Some(c);
        }
        c += 1;
    }
    None
}

/// The position of the first summary whose version satisfies the
/// requirement, in a list sorted highest first: the best match.
fn best_match(sorted: &Vec<Summary>, req: &DependencyVersionReq) -> (r: Option<usize>)
    requires
        sorted_desc(sorted@),
    ensures
        match r {
            Some(j) => {
                &&& j < sorted@.len()
                &&& req.matches_spec(sorted@[j as int].package_id.version)
                &&& forall|k: int|
                    0 <= k < sorted@.len() && req.matches_spec(
                        (#[trigger] sorted@[k]).package_id.version,
                    ) ==> sorted@[k].package_id.version.spec_le(
                        sorted@[j as int].package_id.version,
                    )
            },
            None => forall|k: int|
                0 <= k < sorted@.len() ==> !req.matches_spec(
                    (#[trigger] sorted@[k]).package_id.version,
                ),
        },
{
    let mut i: usize = 0;
    while i < sorted.len()
        invariant
            sorted_desc(sorted@),
            i <= sorted@.len(),
            forall|k: int|
                0 <= k < i ==> !req.matches_spec((#[trigger] sorted@[k]).package_id.version),
        decreases sorted@.len() - i,
    {
        if req.matches(&sorted[i].package_id.version) {
            proof {
                assert forall|k: int|
                    0 <= k < sorted@.len() && req.matches_spec(
                        (#[trigger] sorted@[k]).package_id.version,
                    ) implies sorted@[k].package_id.version.spec_le(
                    sorted@[i as int].package_id.version,
                ) by {
                    if k < i {
                        assert(!req.matches_spec(sorted@[k].package_id.version));
                    } else {
                        assert(triple_le(
                            sorted@[k].package_id.version.as_triple(),
                            sorted@[i as int].package_id.version.as_triple(),
                        ));
                    }
                }
            }
            return Some(i);
        }
        i += 1;
    }
    None
}

/// The adapter between the version solver and the shared index: it
/// picks versions, enumerates dependencies and ranks packages, all
/// over metadata already fetched or demanded through the index.
pub struct PubGrubDependencyProvider {
    priority: PriorityMap,
    packages: SummaryCache,
    main_package_ids: Vec<PackageId>,
}

impl PubGrubDependencyProvider {
    pub closed spec fn wf(self) -> bool {
        self.priority.wf() && self.packages.wf()
    }

    /// The depth recorded for an identity, if any.
    pub closed spec fn priority_of(self, p: PubGrubPackage) -> Option<usize> {
        self.priority.value_of(p)
    }

    /// The cached summary for a resolved package, if any.
    pub closed spec fn cached(self, id: PackageId) -> Option<Summary> {
        self.packages.cached(id)
    }

    /// The run's root packages.
    pub closed spec fn mains(self) -> Seq<PackageId> {
        self.main_package_ids@
    }

    /// Whether the resolved package is one of the run's roots.
    pub closed spec fn is_main(self, id: PackageId) -> bool {
        exists|i: int|
            0 <= i < self.main_package_ids@.len() && (#[trigger] self.main_package_ids@[i].same(
                id,
            ))
    }

    /// A fresh provider for one run: the given roots are pinned at
    /// depth zero, which seeds the breadth-first priority order, and
    /// both caches start empty.
    pub fn new(main_package_ids: Vec<PackageId>) -> (r: Self)
        ensures
            r.wf(),
            r.mains() == main_package_ids@,
            forall|id: PackageId| #[trigger] r.cached(id) == None::<Summary>,
            forall|p: PubGrubPackage|
                #![trigger r.priority_of(p)]
                r.priority_of(p) == if exists|i: int|
                    0 <= i < main_package_ids@.len() && (#[trigger] main_package_ids@[i].identity()).same(p) {
                    Some(0usize)
                } else {
                    None::<usize>
                },
    {
        let mut priority = PriorityMap::new();
        let mut i: usize = 0;
        while i < main_package_ids.len()
            invariant
                priority.wf(),
                i <= main_package_ids@.len(),
                forall|p: PubGrubPackage|
                    #![trigger priority.value_of(p)]
                    priority.value_of(p) == if exists|k: int|
                        0 <= k < i && (#[trigger] main_package_ids@[k].identity()).same(p) {
                        Some(0usize)
                    } else {
                        None::<usize>
                    },
            decreases main_package_ids@.len() - i,
        {
            let pkg = main_package_ids[i].to_package();
            priority.set(&pkg, 0);
            proof {
                assert forall|p: PubGrubPackage|
                    #![trigger priority.value_of(p)]
                    priority.value_of(p) == if exists|k: int|
                        0 <= k < i + 1 && (#[trigger] main_package_ids@[k].identity()).same(p) {
                        Some(0usize)
                    } else {
                        None::<usize>
                    } by {
                    if p.same(pkg) {
                        assert(main_package_ids@[i as int].identity().same(p));
                    } else {
                        if exists|k: int|
                            0 <= k < i + 1 && (#[trigger] main_package_ids@[k].identity()).same(
                                p,
                            ) {
                            let k = choose|k: int|
                                0 <= k < i + 1 && (#[trigger] main_package_ids@[k].identity()).same(
                                    p,
                                );
                            assert(k < i);
                        }
                    }
                }
            }
            i += 1;
        }
        PubGrubDependencyProvider {
            priority,
            packages: SummaryCache::new(),
            main_package_ids,
        }
    }

    /// The packages this run was started from.
    pub fn main_package_ids(&self) -> (r: &Vec<PackageId>)
        ensures
            r@ == self.mains(),
    {
        &self.main_package_ids
    }

    /// Whether a resolved package is one of the roots.
    pub fn is_main_package(&self, id: &PackageId) -> (r: bool)
        ensures
            r == self.is_main(*id),
    {
        let mut i: usize = 0;
        while i < self.main_package_ids.len()
            invariant
                i <= self.main_package_ids@.len(),
                forall|k: int| 0 <= k < i ==> !(#[trigger] self.main_package_ids@[k].same(*id)),
            decreases self.main_package_ids@.len() - i,
        {
            if self.main_package_ids[i].same_id(id) {
                return true;
            }
            i += 1;
        }
        false
    }

    /// Rank a package for the solver's next decision, and make sure
    /// its metadata is on the way: the identity is registered with the
    /// shared index, and the second component tells the caller whether
    /// this claim was fresh, in which case the caller owes the index a
    /// fetch for it.  A package with no recorded depth gets no
    /// priority, leaving the solver free to order it.
    pub fn prioritize(&self, index: &mut PackageOnceMap, package: &PubGrubPackage) -> (r: (
        Option<PubGrubPriority>,
        bool,
    ))
        requires
            self.wf(),
            old(index).wf(),
        ensures
            final(index).wf(),
            r.1 == !old(index).registered(*package),
            final(index).registered(*package),
            final(index).response_of(*package) == old(index).response_of(*package),
            fulfilled_preserved(*old(index), *final(index)),
            registered_preserved(*old(index), *final(index)),
            r.0 == match self.priority_of(*package) {
                Some(d) => Some(PubGrubPriority::Unspecified(d)),
                None => None::<PubGrubPriority>,
            },
    {
        let fresh = index.register(package);
        let prio = match self.priority.get(package) {
            Some(d) => Some(PubGrubPriority::Unspecified(d)),
            None => None,
        };
        (prio, fresh)
    }

    /// The synchronous crossing point between the solver and the fetch
    /// side: read the fulfilled response for a dependency's identity,
    /// remember every summary it carries, and hand them back sorted by
    /// version, highest first.  When the response has not arrived the
    /// caller learns which identity to wait for.
    pub fn query(&mut self, index: &PackageOnceMap, dependency: &ManifestDependency) -> (r:
        QueryOutcome)
        requires
            old(self).wf(),
            index.wf(),
        ensures
            final(self).wf(),
            match r {
                QueryOutcome::Pending(p) => {
                    &&& p == dependency.identity()
                    &&& !index.fulfilled(dependency.identity())
                    &&& *final(self) == *old(self)
                },
                QueryOutcome::Ready(v) => {
                    &&& index.response_of(dependency.identity()) matches Some(resp)
                        && metas(v@).to_multiset() == metas(resp.summaries()).to_multiset()
                        && v@.len() == resp.summaries().len() && (forall|q: PackageId|
                        #![trigger old(self).cached(q)]
                        old(self).cached(q) is None ==> (final(self).cached(q) matches Some(c)
                            ==> (exists|j: int|
                            0 <= j < resp.summaries().len() && (#[trigger] resp.summaries()[j])
                                .same(c))))
                    &&& sorted_desc(v@)
                    &&& forall|i: int|
                        0 <= i < v@.len() ==> #[trigger] final(self).cached(
                            v@[i].package_id,
                        ) is Some
                    &&& forall|q: PackageId|
                        #[trigger] old(self).cached(q) is Some ==> final(self).cached(q) == old(
                            self,
                        ).cached(q)
                    &&& forall|p: PubGrubPackage| #[trigger]
                        final(self).priority_of(p) == old(self).priority_of(p)
                    &&& final(self).mains() == old(self).mains()
                },
            },
    {
        let pkg = dependency.to_package();
        let cloned = match index.get(&pkg) {
            Some(resp) => resp.clone(),
            None => {
                return QueryOutcome::Pending(pkg);
            },
        };
        let ghost ss = (index.response_of(dependency.identity())->Some_0).summaries();
        proof {
            assert(summaries_same(cloned.summaries(), ss));
        }
        let VersionsResponse::Found(list) = cloned;
        let mut i: usize = 0;
        while i < list.len()
            invariant
                self.wf(),
                i <= list@.len(),
                forall|j: int| 0 <= j < i ==> #[trigger] self.cached(list@[j].package_id) is Some,
                forall|q: PackageId|
                    #![trigger old(self).cached(q)]
                    old(self).cached(q) is Some ==> self.cached(q) == old(self).cached(q),
                forall|p: PubGrubPackage|
                    #![trigger old(self).priority_of(p)]
                    self.priority_of(p) == old(self).priority_of(p),
                self.mains() == old(self).mains(),
                summaries_same(list@, ss),
                forall|q: PackageId|
                    #![trigger old(self).cached(q)]
                    old(self).cached(q) is None ==> (self.cached(q) matches Some(c) ==> (exists|
                        j: int,
                    |
                        0 <= j < ss.len() && (#[trigger] ss[j]).same(c))),
            decreases list@.len() - i,
        {
            let s = list[i].clone();
            let ghost sid = s.package_id;
            let ghost prev = *self;
            proof {
                assert(s.same(list@[i as int]));
                assert(sid == list@[i as int].package_id);
            }
            self.packages.store(s);
            proof {
                assert(self.priority == prev.priority);
                assert(self.main_package_ids == prev.main_package_ids);
                assert forall|p: PubGrubPackage|
                    #![trigger old(self).priority_of(p)]
                    self.priority_of(p) == old(self).priority_of(p) by {
                    assert(prev.priority_of(p) == old(self).priority_of(p));
                }
                assert(self.cached(sid) is Some);
                assert forall|j: int| 0 <= j < i + 1 implies #[trigger] self.cached(
                    list@[j].package_id,
                ) is Some by {
                    if j < i {
                        assert(prev.cached(list@[j].package_id) is Some);
                        assert(self.cached(list@[j].package_id) == prev.cached(
                            list@[j].package_id,
                        ));
                    } else {
                        assert(list@[j].package_id == sid);
                    }
                }
                assert forall|q: PackageId|
                    #![trigger old(self).cached(q)]
                    old(self).cached(q) is Some implies self.cached(q) == old(self).cached(
                    q,
                ) by {
                    assert(prev.cached(q) == old(self).cached(q));
                    assert(prev.cached(q) is Some);
                    assert(self.cached(q) == prev.cached(q));
                }
                assert forall|q: PackageId|
                    #![trigger old(self).cached(q)]
                    old(self).cached(q) is None implies (self.cached(q) matches Some(c) ==> (
                    exists|j: int| 0 <= j < ss.len() && (#[trigger] ss[j]).same(c))) by {
                    if self.cached(q) is Some {
                        let c = self.cached(q)->Some_0;
                        if prev.cached(q) is Some {
                            assert(self.cached(q) == prev.cached(q));
                            let j = choose|j: int|
                                0 <= j < ss.len() && (#[trigger] ss[j]).same(
                                    prev.cached(q)->Some_0,
                                );
                            assert(0 <= j < ss.len() && ss[j].same(c));
                        } else {
                            if !q.same(sid) {
                                assert(self.cached(q) == prev.cached(q));
                                assert(false);
                            }
                            self.packages.lemma_cached_same_class(q, sid);
                            prev.packages.lemma_cached_same_class(q, sid);
                            assert(prev.cached(sid) is None);
                            assert(self.cached(sid) == Some(c));
                            assert(c == s);
                            assert(list@[i as int].same(ss[i as int]));
                            assert(s.same(list@[i as int]));
                            assert(0 <= i < ss.len() && ss[i as int].same(c));
                        }
                    }
                }
            }
            i += 1;
        }
        let sorted = sort_summaries_descending(list);
        proof {
            sorted@.to_multiset_ensures();
            list@.to_multiset_ensures();
            assert(sorted@.len() == list@.len());
            lemma_metas_multiset(sorted@, list@);
            assert forall|i: int| 0 <= i < metas(list@).len() implies #[trigger] metas(list@)[i]
                == metas(ss)[i] by {
                assert(list@[i].same(ss[i]));
            }
            assert(metas(list@) =~= metas(ss));
            assert(metas(sorted@).to_multiset() == metas(ss).to_multiset());
            assert forall|i: int| 0 <= i < sorted@.len() implies #[trigger] self.cached(
                sorted@[i].package_id,
            ) is Some by {
                assert(sorted@.contains(sorted@[i]));
                assert(sorted@.to_multiset().count(sorted@[i]) > 0);
                assert(list@.contains(sorted@[i]));
                let j = choose|j: int| 0 <= j < list@.len() && list@[j] == sorted@[i];
                assert(self.cached(list@[j].package_id) is Some);
            }
            let respv = index.response_of(dependency.identity());
            assert(respv is Some);
            assert((respv->Some_0).summaries() == ss);
            assert forall|q: PackageId|
                #![trigger old(self).cached(q)]
                old(self).cached(q) is None implies (self.cached(q) matches Some(c) ==> (exists|
                    j: int,
                |
                    0 <= j < (respv->Some_0).summaries().len() && (
                    #[trigger] (respv->Some_0).summaries()[j]).same(c))) by {
                if self.cached(q) is Some {
                    let c = self.cached(q)->Some_0;
                    let j = choose|j: int| 0 <= j < ss.len() && (#[trigger] ss[j]).same(c);
                    assert(0 <= j < (respv->Some_0).summaries().len() && (
                    respv->Some_0).summaries()[j].same(c));
                }
            }
        }
        QueryOutcome::Ready(sorted)
    }

    /// Pick the version the solver should try for a package: the
    /// highest available version inside the given range, or none when
    /// no available version fits, which signals an infeasible branch
    /// rather than an error.
    pub fn choose_version(
        &mut self,
        index: &PackageOnceMap,
        package: &PubGrubPackage,
        range: &VersionRanges,
    ) -> (r: ChooseOutcome)
        requires
            old(self).wf(),
            index.wf(),
        ensures
            final(self).wf(),
            forall|q: PackageId|
                #![trigger old(self).cached(q)]
                old(self).cached(q) is Some ==> final(self).cached(q) == old(self).cached(q),
            forall|p: PubGrubPackage|
                #![trigger old(self).priority_of(p)]
                final(self).priority_of(p) == old(self).priority_of(p),
            final(self).mains() == old(self).mains(),
            match r {
                ChooseOutcome::Pending(p) => {
                    &&& p == *package
                    &&& !index.fulfilled(*package)
                    &&& *final(self) == *old(self)
                },
                ChooseOutcome::Chosen(choice) => index.response_of(*package) matches Some(resp)
                    && {
                    let avail = resp.summaries();
                    match choice {
                        Some(ver) => {
                            &&& exists|j: int|
                                0 <= j < avail.len() && (#[trigger] avail[j]).package_id.version
                                    == ver && final(self).cached(avail[j].package_id) is Some
                            &&& range_versions(*range).contains(ver.as_triple())
                            &&& forall|j: int|
                                0 <= j < avail.len() && range_versions(*range).contains(
                                    (#[trigger] avail[j]).package_id.version.as_triple(),
                                ) ==> avail[j].package_id.version.spec_le(ver)
                        },
                        None => forall|j: int|
                            0 <= j < avail.len() ==> !range_versions(*range).contains(
                                (#[trigger] avail[j]).package_id.version.as_triple(),
                            ),
                    }
                },
            },
    {
        let dependency = package.to_dependency();
        let sorted = match self.query(index, &dependency) {
            QueryOutcome::Pending(p) => {
                return ChooseOutcome::Pending(p);
            },
            QueryOutcome::Ready(v) => v,
        };
        let ghost avail = (index.response_of(*package)->Some_0).summaries();
        let mut i: usize = 0;
        while i < sorted.len()
            invariant
                self.wf(),
                i <= sorted@.len(),
                index.wf(),
                index.response_of(*package) is Some,
                forall|q: PackageId|
                    #![trigger old(self).cached(q)]
                    old(self).cached(q) is Some ==> self.cached(q) == old(self).cached(q),
                forall|p: PubGrubPackage|
                    #![trigger old(self).priority_of(p)]
                    self.priority_of(p) == old(self).priority_of(p),
                self.mains() == old(self).mains(),
                forall|k: int|
                    0 <= k < sorted@.len() ==> #[trigger] self.cached(
                        sorted@[k].package_id,
                    ) is Some,
                metas(sorted@).to_multiset() == metas(avail).to_multiset(),
                sorted@.len() == avail.len(),
                sorted_desc(sorted@),
                avail == (index.response_of(*package)->Some_0).summaries(),
                forall|k: int|
                    0 <= k < i ==> !range_versions(*range).contains(
                        (#[trigger] sorted@[k]).package_id.version.as_triple(),
                    ),
            decreases sorted@.len() - i,
        {
            if range_contains(range, &sorted[i].package_id.version) {
                let ver = sorted[i].package_id.version;
                proof {
                    lemma_meta_counterpart(avail, sorted@, i as int);
                    let j0 = choose|j0: int|
                        0 <= j0 < avail.len() && (#[trigger] avail[j0]).same(sorted@[i as int]);
                    assert(avail[j0].package_id.version == ver);
                    assert(self.cached(sorted@[i as int].package_id) is Some);
                    assert(avail[j0].package_id == sorted@[i as int].package_id);
                    assert(0 <= j0 < avail.len() && avail[j0].package_id.version == ver && self
                        .cached(avail[j0].package_id) is Some);
                    assert forall|j: int|
                        0 <= j < avail.len() && range_versions(*range).contains(
                            (#[trigger] avail[j]).package_id.version.as_triple(),
                        ) implies avail[j].package_id.version.spec_le(ver) by {
                        lemma_meta_counterpart(sorted@, avail, j);
                        let i2 = choose|i2: int|
                            0 <= i2 < sorted@.len() && (#[trigger] sorted@[i2]).same(avail[j]);
                        if i2 < i {
                            assert(!range_versions(*range).contains(
                                sorted@[i2].package_id.version.as_triple(),
                            ));
                            assert(false);
                        }
                        assert(triple_le(
                            sorted@[i2].package_id.version.as_triple(),
                            sorted@[i as int].package_id.version.as_triple(),
                        ));
                    }
                }
                return ChooseOutcome::Chosen(Some(ver));
            }
            i += 1;
        }
        proof {
            assert forall|j: int| 0 <= j < avail.len() implies !range_versions(*range).contains(
                (#[trigger] avail[j]).package_id.version.as_triple(),
            ) by {
                lemma_meta_counterpart(sorted@, avail, j);
                let i2 = choose|i2: int|
                    0 <= i2 < sorted@.len() && (#[trigger] sorted@[i2]).same(avail[j]);
                assert(!range_versions(*range).contains(
                    sorted@[i2].package_id.version.as_triple(),
                ));
            }
        }
        ChooseOutcome::Chosen(None)
    }

    /// The uncached half of summary resolution: read the exact
    /// package's summary from the shared index and remember it.
    /// The uncached half of summary resolution: let the shared
    /// index's response fill the cache, then read the exact package's
    /// summary back from it.
    fn fetch_summary_uncached(&mut self, index: &PackageOnceMap, package_id: &PackageId) -> (r:
        Result<Summary, SummaryOutcome>)
        requires
            old(self).wf(),
            index.wf(),
            old(self).cached(*package_id) is None,
        ensures
            final(self).wf(),
            forall|q: PackageId|
                #![trigger old(self).cached(q)]
                old(self).cached(q) is Some ==> final(self).cached(q) == old(self).cached(q),
            forall|p: PubGrubPackage|
                #![trigger old(self).priority_of(p)]
                final(self).priority_of(p) == old(self).priority_of(p),
            final(self).mains() == old(self).mains(),
            match r {
                Ok(summary) => {
                    &&& summary.package_id.same(*package_id)
                    &&& final(self).cached(*package_id) matches Some(c) && summary.same(c)
                    &&& index.response_of(package_id.identity()) matches Some(resp) && (exists|
                        j: int,
                    |
                        0 <= j < resp.summaries().len() && (#[trigger] resp.summaries()[j]).same(
                            summary,
                        ))
                },
                Err(out) => match out {
                    SummaryOutcome::Pending(p) => {
                        &&& p == package_id.identity()
                        &&& !index.fulfilled(p)
                        &&& *final(self) == *old(self)
                    },
                    SummaryOutcome::Failed(e) => {
                        &&& e matches DependencyProviderError::PackageNotFound { name, version }
                            && name@ == package_id.name@ && version
                            == (DependencyVersionReq::Range {
                            lower: ReqBound::Inclusive(package_id.version),
                            upper: ReqBound::Inclusive(package_id.version),
                        })
                        &&& index.response_of(package_id.identity()) matches Some(resp) && (
                        forall|j: int|
                            0 <= j < resp.summaries().len() ==> !(#[trigger] resp.summaries()[j])
                                .package_id.same(*package_id))
                    },
                    SummaryOutcome::Fetched { .. } => false,
                },
            },
    {
        let dependency = ManifestDependency {
            name: package_id.name.clone(),
            source_id: package_id.source_id.clone(),
            version_req: DependencyVersionReq::exact(&package_id.version),
            kind: DepKind::Normal,
        };
        let sorted = match self.query(index, &dependency) {
            QueryOutcome::Pending(p) => {
                return Err(SummaryOutcome::Pending(p));
            },
            QueryOutcome::Ready(v) => v,
        };
        let ghost avail = (index.response_of(package_id.identity())->Some_0).summaries();
        match self.packages.get(package_id) {
            Some(s) => {
                proof {
                    assert(old(self).cached(*package_id) is None);
                    let c = self.cached(*package_id)->Some_0;
                    assert(s.same(c));
                    let j = choose|j: int| 0 <= j < avail.len() && (#[trigger] avail[j]).same(c);
                    assert(0 <= j < avail.len() && avail[j].same(s));
                }
                Ok(s)
            },
            None => {
                proof {
                    assert forall|j: int|
                        0 <= j < avail.len() implies !(#[trigger] avail[j]).package_id.same(
                        *package_id,
                    ) by {
                        lemma_meta_counterpart(sorted@, avail, j);
                        let i2 = choose|i2: int|
                            0 <= i2 < sorted@.len() && (#[trigger] sorted@[i2]).same(avail[j]);
                        if avail[j].package_id.same(*package_id) {
                            assert(sorted@[i2].package_id.same(*package_id));
                            assert(self.cached(sorted@[i2].package_id) is Some);
                            self.packages.lemma_cached_same_class(
                                sorted@[i2].package_id,
                                *package_id,
                            );
                            assert(false);
                        }
                    }
                }
                Err(
                    SummaryOutcome::Failed(
                        DependencyProviderError::PackageNotFound {
                            name: package_id.name.clone(),
                            version: DependencyVersionReq::exact(&package_id.version),
                        },
                    ),
                )
            },
        }
    }

    /// Resolve the summary for one exact resolved package: from the
    /// provider's cache when already seen, otherwise from the shared
    /// index.  Every dependency of the found summary is registered
    /// with the index, and every dependency not already registered is
    /// covered by one of the returned requests, the fetches the caller
    /// owes the index; see `fetch_summary_post`.
    pub fn fetch_summary(&mut self, index: &mut PackageOnceMap, package_id: &PackageId) -> (r:
        SummaryOutcome)
        requires
            old(self).wf(),
            old(index).wf(),
        ensures
            final(self).wf(),
            final(index).wf(),
            fulfilled_preserved(*old(index), *final(index)),
            registered_preserved(*old(index), *final(index)),
            forall|q: PackageId|
                #![trigger old(self).cached(q)]
                old(self).cached(q) is Some ==> final(self).cached(q) == old(self).cached(q),
            forall|p: PubGrubPackage|
                #![trigger old(self).priority_of(p)]
                final(self).priority_of(p) == old(self).priority_of(p),
            final(self).mains() == old(self).mains(),
            r is Pending ==> *final(self) == *old(self),
            fetch_summary_post(
                *old(self),
                *final(self),
                *old(index),
                *final(index),
                *package_id,
                r,
            ),
    {
        let cached = self.packages.get(package_id);
        let summary = match cached {
            Some(s) => s,
            None => match self.fetch_summary_uncached(index, package_id) {
                Ok(s) => s,
                Err(out) => {
                    proof {
                        reveal(fetch_summary_post);
                        assert(*index == *old(index));
                        match &out {
                            SummaryOutcome::Pending(p) => {
                                assert(*p == package_id.identity());
                                assert(!old(index).fulfilled(*p));
                            },
                            SummaryOutcome::Failed(_) => {
                                assert(old(index).response_of(package_id.identity()) is Some);
                            },
                            SummaryOutcome::Fetched { .. } => {
                                assert(false);
                            },
                        }
                        assert(fetch_summary_post(
                            *old(self),
                            *self,
                            *old(index),
                            *index,
                            *package_id,
                            out,
                        ));
                    }
                    return out;
                },
            },
        };
        let requests = register_dependencies(index, &summary);
        let out = SummaryOutcome::Fetched { summary, requests };
        proof {
            reveal(fetch_summary_post);
            assert(out.arrow_Fetched_summary().package_id.same(*package_id));
            assert(self.cached(*package_id) is Some);
            assert forall|j: int|
                0 <= j < out.arrow_Fetched_summary().dependencies@.len() implies index.registered(
                (#[trigger] out.arrow_Fetched_summary().dependencies@[j]).identity(),
            ) by {
                assert(out.arrow_Fetched_summary().dependencies@ == summary.dependencies@);
            }
            assert forall|j: int|
                0 <= j < out.arrow_Fetched_summary().dependencies@.len() && !old(index).registered(
                    (#[trigger] out.arrow_Fetched_summary().dependencies@[j]).identity(),
                ) implies exists|i: int|
                    0 <= i < out.arrow_Fetched_requests()@.len() && (
                    #[trigger] out.arrow_Fetched_requests()@[i]).same(
                        out.arrow_Fetched_summary().dependencies@[j].identity(),
                    ) by {
                assert(out.arrow_Fetched_summary().dependencies@ == summary.dependencies@);
                assert(out.arrow_Fetched_requests()@ == requests@);
            }
            assert(fetch_summary_post(
                *old(self),
                *self,
                *old(index),
                *index,
                *package_id,
                out,
            ));
        }
        out
    }

    /// Redirect a path dependency of a git-sourced package to the
    /// parent's git source.  An already-fulfilled entry for the
    /// declared identity is copied under the rewritten identity
    /// rather than re-fetched; if the rewritten identity's version
    /// set is empty the declared dependency is kept, the local
    /// fallback that lets such packages resolve by path.
    pub fn rewrite_dependency_source_id(
        &self,
        index: &mut PackageOnceMap,
        package_id: &PackageId,
        dependency: &ManifestDependency,
    ) -> (r: RewriteOutcome)
        requires
            old(index).wf(),
        ensures
            final(index).wf(),
            fulfilled_preserved(*old(index), *final(index)),
            registered_preserved(*old(index), *final(index)),
            !rewrite_applies(*package_id, *dependency) ==> (r matches RewriteOutcome::Kept(d2)
                && d2 == *dependency && *final(index) == *old(index)),
            forall|q: PubGrubPackage|
                !q.same(rewritten_identity(*package_id, *dependency))
                    ==> #[trigger] final(index).entry_of(q) == old(index).entry_of(q),
            (rewrite_applies(*package_id, *dependency)
                && old(index).fulfilled(dependency.identity())
                && !old(index).fulfilled(rewritten_identity(*package_id, *dependency)))
                ==> (final(index).response_of(rewritten_identity(*package_id, *dependency))
                matches Some(r2)
                && (old(index).response_of(dependency.identity()) matches Some(r1)
                && r2.same(r1))),
            match r {
                RewriteOutcome::Kept(d2) => rewrite_rel(
                    *final(index),
                    *package_id,
                    *dependency,
                    d2,
                ),
                RewriteOutcome::Rewritten(d2) => rewrite_rel(
                    *final(index),
                    *package_id,
                    *dependency,
                    d2,
                ),
                RewriteOutcome::Pending(p) => {
                    &&& p == dependency.identity()
                    &&& !final(index).fulfilled(p)
                },
            },
    {
        if !(package_id.source_id.is_git() && dependency.source_id.is_path()) {
            return RewriteOutcome::Kept(dependency.clone());
        }
        let rewritten = ManifestDependency {
            name: dependency.name.clone(),
            source_id: package_id.source_id.clone(),
            version_req: dependency.version_req,
            kind: dependency.kind,
        };
        let orig_pkg = dependency.to_package();
        let new_pkg = rewritten.to_package();
        proof {
            assert(new_pkg == rewritten_identity(*package_id, *dependency));
        }
        let aliased = match index.get(&orig_pkg) {
            Some(resp) => Some(resp.clone()),
            None => None,
        };
        match aliased {
            Some(copy) => {
                let ghost pre = *index;
                index.done(&new_pkg, copy);
                proof {
                    if !pre.fulfilled(new_pkg) {
                        assert(index.response_of(new_pkg) is Some);
                        assert((index.response_of(new_pkg)->Some_0).same(
                            pre.response_of(orig_pkg)->Some_0,
                        ));
                    }
                }
            },
            None => (),
        }
        match index.get(&new_pkg) {
            Some(resp) => {
                let empty = match resp {
                    VersionsResponse::Found(list) => list.len() == 0,
                };
                if empty {
                    RewriteOutcome::Kept(dependency.clone())
                } else {
                    RewriteOutcome::Rewritten(rewritten)
                }
            },
            None => {
                proof {
                    assert(!index.fulfilled(new_pkg));
                    assert(!index.fulfilled(orig_pkg));
                }
                RewriteOutcome::Pending(orig_pkg)
            },
        }
    }

    /// Enumerate the constraints one resolved package imposes: its
    /// cached summary's dependencies, filtered by the package's role,
    /// source-rewritten where needed, each resolved to its best
    /// matching summary, with the depth from the roots propagated one
    /// level further; see `get_dependencies_post`.  A package that
    /// declares itself as a dependency fails with a self-dependency
    /// error.
    pub fn get_dependencies(
        &mut self,
        index: &mut PackageOnceMap,
        package: &PubGrubPackage,
        version: &PackageVersion,
    ) -> (r: DepsOutcome)
        requires
            old(self).wf(),
            old(index).wf(),
        ensures
            final(self).wf(),
            final(index).wf(),
            fulfilled_preserved(*old(index), *final(index)),
            registered_preserved(*old(index), *final(index)),
            get_dependencies_post(
                *old(self),
                *final(self),
                *old(index),
                *final(index),
                *package,
                *version,
                r,
            ),
    {
        let package_id = PackageId::new(
            package.name.clone(),
            *version,
            package.source_id.clone(),
        );
        proof {
            assert(package_id == pid_of(*package, *version));
            reveal(fetch_summary_post);
        }
        let (summary, requests) = match self.fetch_summary(index, &package_id) {
            SummaryOutcome::Fetched { summary, requests } => (summary, requests),
            SummaryOutcome::Pending(p) => {
                proof {
                    reveal(get_dependencies_post);
                    assert(p.same(*package));
                }
                return DepsOutcome::Pending { package: p, requests: Vec::new() };
            },
            SummaryOutcome::Failed(e) => {
                proof {
                    reveal(get_dependencies_post);
                }
                return DepsOutcome::Failed(e);
            },
        };
        let ghost self_fetched = *self;
        let ghost c0 = self.cached(package_id)->Some_0;
        proof {
            assert(self.cached(package_id) is Some);
            assert(summary.same(c0));
            assert(c0.package_id == summary.package_id);
            assert(c0.dependencies@ == summary.dependencies@);
        }
        let ghost dep0 = old(self).priority_of(*package);
        let prio = self.priority.get(package);
        proof {
            assert(prio == dep0);
        }
        match prio {
            Some(dp) => {
                let nd = if dp == usize::MAX {
                    dp
                } else {
                    dp + 1
                };
                proof {
                    assert(dep0 matches Some(d0) && nd == next_depth(d0));
                }
                let mut t: usize = 0;
                while t < summary.dependencies.len()
                    invariant
                        self.wf(),
                        t <= summary.dependencies@.len(),
                        dep0 matches Some(d0) && nd == next_depth(d0),
                        self.packages == self_fetched.packages,
                        self.main_package_ids == self_fetched.main_package_ids,
                        forall|j: int|
                            0 <= j < t ==> self.priority_of(
                                (#[trigger] summary.dependencies@[j]).identity(),
                            ) == Some(nd),
                        forall|p2: PubGrubPackage|
                            #![trigger self_fetched.priority_of(p2)]
                            self.priority_of(p2) == self_fetched.priority_of(p2) || (self
                                .priority_of(p2) == Some(nd) && (exists|j: int|
                                0 <= j < t && (#[trigger] summary.dependencies@[j]).identity()
                                    .same(p2))),
                    decreases summary.dependencies@.len() - t,
                {
                    let ghost sprev = *self;
                    let pkg = summary.dependencies[t].to_package();
                    self.priority.set(&pkg, nd);
                    proof {
                        assert(self.priority_of(summary.dependencies@[t as int].identity())
                            == Some(nd));
                        assert forall|j: int| 0 <= j < t + 1 implies self.priority_of(
                            (#[trigger] summary.dependencies@[j]).identity(),
                        ) == Some(nd) by {
                            if j < t {
                                let d = summary.dependencies@[j].identity();
                                if d.same(pkg) {
                                } else {
                                    assert(self.priority_of(d) == sprev.priority_of(d));
                                }
                            }
                        }
                        assert forall|p2: PubGrubPackage|
                            #![trigger self_fetched.priority_of(p2)]
                            self.priority_of(p2) == self_fetched.priority_of(p2) || (self
                                .priority_of(p2) == Some(nd) && (exists|j: int|
                                0 <= j < t + 1 && (#[trigger] summary.dependencies@[j]).identity()
                                    .same(p2))) by {
                            if p2.same(pkg) {
                                assert(summary.dependencies@[t as int].identity().same(p2));
                                assert(0 <= t < t + 1 && summary.dependencies@[
                                    t as int
                                ].identity().same(p2));
                            } else {
                                assert(self.priority_of(p2) == sprev.priority_of(p2));
                                if sprev.priority_of(p2) != self_fetched.priority_of(p2) {
                                    let j = choose|j: int|
                                        0 <= j < t && (
                                        #[trigger] summary.dependencies@[j]).identity().same(p2);
                                    assert(0 <= j < t + 1 && summary.dependencies@[j].identity()
                                        .same(p2));
                                }
                            }
                        }
                    }
                    t += 1;
                }
                proof {
                    assert forall|j: int|
                        0 <= j < summary.dependencies@.len() implies self.priority_of(
                        (#[trigger] summary.dependencies@[j]).identity(),
                    ) == Some(next_depth(dep0->Some_0)) by {
                        assert(self.priority_of(summary.dependencies@[j].identity()) == Some(nd));
                    }
                }
            },
            None => (),
        }
        let ghost self_prio = *self;
        proof {
            assert(self_prio.cached(package_id) == Some(c0));
            assert forall|p2: PubGrubPackage|
                #![trigger self_prio.priority_of(p2)]
                self_prio.priority_of(p2) == old(self).priority_of(p2) || (dep0 matches Some(dp)
                    && self_prio.priority_of(p2) == Some(next_depth(dp)) && (exists|j: int|
                    0 <= j < summary.dependencies@.len() && (
                    #[trigger] summary.dependencies@[j]).identity().same(p2))) by {
                assert(self_fetched.priority_of(p2) == old(self).priority_of(p2));
            }
        }
        let is_main = self.is_main_package(&summary.package_id);
        let dep_filter = DependencyFilter::propagation(is_main);
        let filtered = summary.filtered_full_dependencies(&dep_filter);
        proof {
            assert(filtered@ == allowed_deps(dep_filter, summary));
            assert(dep_filter == filter_for(*self, c0));
            assert(filtered@ == allowed_deps(filter_for(*self, c0), c0));
        }
        match find_self_dependency(&filtered, package) {
            Some(c) => {
                let out = DepsOutcome::Failed(
                    DependencyProviderError::SelfDependency {
                        name: package.name.clone(),
                        version: *version,
                    },
                );
                proof {
                    reveal(get_dependencies_post);
                    assert(self.cached(pid_of(*package, *version)) == Some(c0));
                    assert(allowed_deps(filter_for(*self, c0), c0)[c as int].identity().same(
                        *package,
                    ));
                    assert(get_dependencies_post(
                        *old(self),
                        *self,
                        *old(index),
                        *index,
                        *package,
                        *version,
                        out,
                    ));
                }
                return out;
            },
            None => (),
        }
        let mut constraints: Vec<(PubGrubPackage, VersionRanges)> = Vec::new();
        let ghost mut wits: Seq<ManifestDependency> = Seq::empty();
        let mut i: usize = 0;
        while i < filtered.len()
            invariant
                self.wf(),
                index.wf(),
                i <= filtered@.len(),
                constraints@.len() == i,
                wits.len() == i,
                fulfilled_preserved(*old(index), *index),
                registered_preserved(*old(index), *index),
                requests_sound(*old(index), *index, requests@),
                package_id == pid_of(*package, *version),
                summary.same(c0),
                self_prio.cached(package_id) == Some(c0),
                dep_filter == filter_for(self_prio, c0),
                filtered@ == allowed_deps(filter_for(self_prio, c0), c0),
                self.mains() == self_prio.mains(),
                forall|q: PackageId|
                    #![trigger self_prio.cached(q)]
                    self_prio.cached(q) is Some ==> self.cached(q) == self_prio.cached(q),
                forall|p: PubGrubPackage|
                    #![trigger self_prio.priority_of(p)]
                    self.priority_of(p) == self_prio.priority_of(p),
                forall|m: int|
                    0 <= m < i ==> rewrite_rel(
                        *index,
                        summary.package_id,
                        filtered@[m],
                        #[trigger] wits[m],
                    ) && constraint_for(*index, wits[m], constraints@[m]),
            decreases filtered@.len() - i,
        {
            let ghost iprev = *index;
            let ghost sprev = *self;
            let ghost cprev = constraints@;
            let ghost wprev = wits;
            let d2 = match self.rewrite_dependency_source_id(
                index,
                &summary.package_id,
                &filtered[i],
            ) {
                RewriteOutcome::Kept(d) => d,
                RewriteOutcome::Rewritten(d) => d,
                RewriteOutcome::Pending(p) => {
                    let out = DepsOutcome::Pending { package: p, requests };
                    proof {
                        reveal(get_dependencies_post);
                        assert(self_prio.cached(package_id) == Some(c0));
                        assert(self.cached(package_id) == Some(c0));
                        assert(self.cached(pid_of(*package, *version)) == Some(c0));
                        assert(self.mains() == self_prio.mains());
                        assert(self.is_main(c0.package_id) == self_prio.is_main(c0.package_id));
                        assert(filter_for(*self, c0) == filter_for(self_prio, c0));
                        assert(filtered@ == allowed_deps(filter_for(*self, c0), c0));
                        assert(p.same(allowed_deps(filter_for(*self, c0), c0)[i as int].identity()));
                        assert(pending_from(*self, *package, *version, p));
                        assert forall|k: int|
                            0 <= k < requests@.len() implies index.registered(
                            #[trigger] requests@[k],
                        ) && !(old(index).registered(requests@[k])) by {
                            assert(iprev.registered(requests@[k]));
                        }
                    }
                    return out;
                },
            };
            let ghost irew = *index;
            let sorted = match self.query(index, &d2) {
                QueryOutcome::Pending(p) => {
                    let out = DepsOutcome::Pending { package: p, requests };
                    proof {
                        reveal(get_dependencies_post);
                        assert(self_prio.cached(package_id) == Some(c0));
                        assert(self.cached(package_id) == Some(c0));
                        assert(self.cached(pid_of(*package, *version)) == Some(c0));
                        assert(self.mains() == self_prio.mains());
                        assert(self.is_main(c0.package_id) == self_prio.is_main(c0.package_id));
                        assert(filter_for(*self, c0) == filter_for(self_prio, c0));
                        assert(filtered@ == allowed_deps(filter_for(*self, c0), c0));
                        assert(rewrite_rel(irew, summary.package_id, filtered@[i as int], d2));
                        if d2 == filtered@[i as int] {
                            assert(p.same(
                                allowed_deps(filter_for(*self, c0), c0)[i as int].identity(),
                            ));
                        } else {
                            assert(p.same(rewritten_identity(
                                c0.package_id,
                                allowed_deps(filter_for(*self, c0), c0)[i as int],
                            )));
                        }
                        assert(pending_from(*self, *package, *version, p));
                        assert forall|k: int|
                            0 <= k < requests@.len() implies index.registered(
                            #[trigger] requests@[k],
                        ) && !(old(index).registered(requests@[k])) by {
                            assert(iprev.registered(requests@[k]));
                            assert(irew.registered(requests@[k]));
                        }
                    }
                    return out;
                },
                QueryOutcome::Ready(v) => v,
            };
            let found = best_match(&sorted, &d2.version_req);
            let j = match found {
                Some(j) => j,
                None => {
                    let out = DepsOutcome::Failed(
                        DependencyProviderError::PackageNotFound {
                            name: d2.name.clone(),
                            version: d2.version_req,
                        },
                    );
                    proof {
                        reveal(get_dependencies_post);
                        assert(self_prio.cached(package_id) == Some(c0));
                        assert(self.cached(package_id) == Some(c0));
                        assert(self.cached(pid_of(*package, *version)) == Some(c0));
                        assert(self.mains() == self_prio.mains());
                        assert(self.is_main(c0.package_id) == self_prio.is_main(c0.package_id));
                        assert(filter_for(*self, c0) == filter_for(self_prio, c0));
                        assert(filtered@ == allowed_deps(filter_for(*self, c0), c0));
                        let avail = (index.response_of(d2.identity())->Some_0).summaries();
                        assert forall|k: int|
                            0 <= k < avail.len() implies !d2.version_req.matches_spec(
                            (#[trigger] avail[k]).package_id.version,
                        ) by {
                            lemma_meta_counterpart(sorted@, avail, k);
                            let k2 = choose|k2: int|
                                0 <= k2 < sorted@.len() && (#[trigger] sorted@[k2]).same(
                                    avail[k],
                                );
                            assert(!d2.version_req.matches_spec(
                                sorted@[k2].package_id.version,
                            ));
                        }
                        assert(rewrite_rel(irew, summary.package_id, filtered@[i as int], d2));
                        assert(rewrite_rel(
                            *index,
                            c0.package_id,
                            allowed_deps(filter_for(*self, c0), c0)[i as int],
                            d2,
                        ));
                        assert(missing_dependency(
                            *self,
                            *index,
                            c0,
                            out.arrow_Failed_0().arrow_PackageNotFound_name(),
                            out.arrow_Failed_0().arrow_PackageNotFound_version(),
                        ));
                        assert forall|k: int|
                            0 <= k < requests@.len() implies index.registered(
                            #[trigger] requests@[k],
                        ) && !(old(index).registered(requests@[k])) by {
                            assert(iprev.registered(requests@[k]));
                            assert(irew.registered(requests@[k]));
                        }
                    }
                    return out;
                },
            };
            let chosen_pkg = sorted[j].package_id.to_package();
            let range = req_to_range(&d2.version_req);
            constraints.push((chosen_pkg, range));
            proof {
                let avail = (index.response_of(d2.identity())->Some_0).summaries();
                lemma_meta_counterpart(avail, sorted@, j as int);
                let j0 = choose|j0: int|
                    0 <= j0 < avail.len() && (#[trigger] avail[j0]).same(sorted@[j as int]);
                assert(avail[j0].package_id == sorted@[j as int].package_id);
                assert(d2.version_req.matches_spec(avail[j0].package_id.version));
                assert(chosen_pkg.same(avail[j0].package_id.identity()));
                assert forall|k: int|
                    0 <= k < avail.len() && d2.version_req.matches_spec(
                        (#[trigger] avail[k]).package_id.version,
                    ) implies avail[k].package_id.version.spec_le(
                    avail[j0].package_id.version,
                ) by {
                    lemma_meta_counterpart(sorted@, avail, k);
                    let k2 = choose|k2: int|
                        0 <= k2 < sorted@.len() && (#[trigger] sorted@[k2]).same(avail[k]);
                    assert(d2.version_req.matches_spec(sorted@[k2].package_id.version));
                    assert(sorted@[k2].package_id.version.spec_le(
                        sorted@[j as int].package_id.version,
                    ));
                }
                assert(constraint_for(*index, d2, (chosen_pkg, range)));
                assert(rewrite_rel(irew, summary.package_id, filtered@[i as int], d2));
                lemma_rewrite_preserved(
                    irew,
                    *index,
                    summary.package_id,
                    filtered@[i as int],
                    d2,
                );
                wits = wits.push(d2);
                assert forall|m: int| 0 <= m < i + 1 implies rewrite_rel(
                    *index,
                    summary.package_id,
                    filtered@[m],
                    #[trigger] wits[m],
                ) && constraint_for(*index, wits[m], constraints@[m]) by {
                    if m < i {
                        assert(wits[m] == wprev[m]);
                        assert(rewrite_rel(iprev, summary.package_id, filtered@[m], wits[m])
                            && constraint_for(iprev, wits[m], cprev[m]));
                        lemma_rewrite_preserved(
                            iprev,
                            *index,
                            summary.package_id,
                            filtered@[m],
                            wits[m],
                        );
                        lemma_constraint_preserved(iprev, *index, wits[m], cprev[m]);
                        assert(constraints@[m] == cprev[m]);
                    } else {
                        assert(wits[m] == d2);
                        assert(rewrite_rel(*index, summary.package_id, filtered@[m], d2)
                            && constraint_for(*index, d2, constraints@[m]));
                    }
                }
                assert forall|k: int| 0 <= k < requests@.len() implies index.registered(
                    #[trigger] requests@[k],
                ) && !(old(index).registered(requests@[k])) by {
                    assert(iprev.registered(requests@[k]));
                    assert(irew.registered(requests@[k]));
                }
                assert forall|q: PackageId|
                    #![trigger self_prio.cached(q)]
                    self_prio.cached(q) is Some implies self.cached(q) == self_prio.cached(
                    q,
                ) by {
                    assert(sprev.cached(q) == self_prio.cached(q));
                    assert(sprev.cached(q) is Some);
                }
                assert forall|p2: PubGrubPackage|
                    #![trigger self_prio.priority_of(p2)]
                    self.priority_of(p2) == self_prio.priority_of(p2) by {
                    assert(sprev.priority_of(p2) == self_prio.priority_of(p2));
                }
            }
            i += 1;
        }
        let out = DepsOutcome::Available { constraints, requests };
        proof {
            reveal(get_dependencies_post);
            assert(self.cached(pid_of(*package, *version)) == Some(c0));
            assert(c0.package_id.same(pid_of(*package, *version)));
            assert(out.arrow_Available_constraints()@.len() == allowed_deps(
                filter_for(*self, c0),
                c0,
            ).len());
            assert(wits.len() == allowed_deps(filter_for(*self, c0), c0).len());
            assert forall|m: int|
                0 <= m < allowed_deps(filter_for(*self, c0), c0).len() implies !(
            #[trigger] allowed_deps(filter_for(*self, c0), c0)[m]).identity().same(*package) by {
                assert(!filtered@[m].identity().same(*package));
            }
            assert forall|m: int|
                0 <= m < allowed_deps(filter_for(*self, c0), c0).len() implies rewrite_rel(
                *index,
                c0.package_id,
                (#[trigger] allowed_deps(filter_for(*self, c0), c0)[m]),
                wits[m],
            ) && constraint_for(*index, wits[m], out.arrow_Available_constraints()@[m]) by {
                assert(rewrite_rel(*index, summary.package_id, filtered@[m], wits[m])
                    && constraint_for(*index, wits[m], constraints@[m]));
            }
            assert forall|j2: int|
                0 <= j2 < c0.dependencies@.len() implies (old(self).priority_of(
                    *package,
                ) matches Some(dp) ==> self.priority_of(
                    (#[trigger] c0.dependencies@[j2]).identity(),
                ) == Some(next_depth(dp))) by {
                if old(self).priority_of(*package) is Some {
                    assert(c0.dependencies@[j2] == summary.dependencies@[j2]);
                    assert(self_prio.priority_of(summary.dependencies@[j2].identity()) == Some(
                        next_depth(dep0->Some_0),
                    ));
                }
            }
            assert forall|p2: PubGrubPackage|
                #![trigger self.priority_of(p2)]
                self.priority_of(p2) == old(self).priority_of(p2) || (old(self).priority_of(
                    *package,
                ) matches Some(dp) && self.priority_of(p2) == Some(next_depth(dp)) && (exists|
                    j: int,
                |
                    0 <= j < c0.dependencies@.len() && (#[trigger] c0.dependencies@[j]).identity()
                        .same(p2))) by {
                assert(self.priority_of(p2) == self_prio.priority_of(p2));
                assert(self_prio.priority_of(p2) == old(self).priority_of(p2) || (
                dep0 matches Some(dp) && self_prio.priority_of(p2) == Some(next_depth(dp)) && (
                exists|j: int|
                    0 <= j < summary.dependencies@.len() && (
                    #[trigger] summary.dependencies@[j]).identity().same(p2))));
                if self_prio.priority_of(p2) != old(self).priority_of(p2) {
                    let j = choose|j: int|
                        0 <= j < summary.dependencies@.len() && (
                        #[trigger] summary.dependencies@[j]).identity().same(p2);
                    assert(c0.dependencies@[j] == summary.dependencies@[j]);
                    assert(0 <= j < c0.dependencies@.len() && c0.dependencies@[j].identity().same(
                        p2,
                    ));
                }
            }
            assert(available_for(
                *old(self),
                *self,
                *index,
                *package,
                *version,
                c0,
                out.arrow_Available_constraints()@,
            ));
            assert(get_dependencies_post(
                *old(self),
                *self,
                *old(index),
                *index,
                *package,
                *version,
                out,
            ));
        }
        out
    }
}

} // verus!
