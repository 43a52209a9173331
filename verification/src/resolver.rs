use vstd::prelude::*;

use crate::index::{fulfilled_preserved, registered_preserved, PackageOnceMap};
use crate::pkg::{PubGrubPackage, Summary};
use crate::source::SourceId;
use crate::version::PackageVersion;

verus! {

/// One unit of work for the fetch side: resolve every known version
/// of a package identity.
#[derive(Debug)]
pub enum Request {
    Package(PubGrubPackage),
}

/// The fetch side's answer: the summaries known for the identity.
#[derive(Debug)]
pub enum Response {
    Package(PubGrubPackage, Vec<Summary>),
}

/// A solution named one package from two different sources: the final
/// dependency graph is addressed by name alone, so it is rejected,
/// naming both sources.
#[derive(Debug)]
pub struct IncompatibleSourcesError {
    pub name: String,
    pub first_source: SourceId,
    pub second_source: SourceId,
}

/// Register the run's root packages and all their declared
/// dependencies with the shared index before solving starts, so that
/// early fetches overlap with solver setup.  The returned identities
/// are exactly those this call was first to register, the fetches the
/// caller owes the index: every root or dependency identity that was
/// not already registered is covered by one of them.
#[verifier::rlimit(100)]
pub fn prime_index(index: &mut PackageOnceMap, summaries: &Vec<Summary>) -> (requests: Vec<
    PubGrubPackage,
>)
    requires
        old(index).wf(),
    ensures
        final(index).wf(),
        fulfilled_preserved(*old(index), *final(index)),
        registered_preserved(*old(index), *final(index)),
        forall|i: int|
            0 <= i < summaries@.len() ==> final(index).registered(
                (#[trigger] summaries@[i]).package_id.identity(),
            ),
        forall|i: int, j: int|
            0 <= i < summaries@.len() && 0 <= j < summaries@[i].dependencies@.len()
                ==> final(index).registered(
                (#[trigger] summaries@[i].dependencies@[j]).identity(),
            ),
        forall|k: int|
            0 <= k < requests@.len() ==> final(index).registered(#[trigger] requests@[k]) && !old(
                index,
            ).registered(requests@[k]),
        forall|i: int|
            0 <= i < summaries@.len() && !old(index).registered(
                (#[trigger] summaries@[i]).package_id.identity(),
            ) ==> exists|k: int|
                0 <= k < requests@.len() && (#[trigger] requests@[k]).same(
                    summaries@[i].package_id.identity(),
                ),
        forall|i: int, j: int|
            0 <= i < summaries@.len() && 0 <= j < summaries@[i].dependencies@.len() && !old(
                index,
            ).registered((#[trigger] summaries@[i].dependencies@[j]).identity()) ==> exists|
                k: int,
            |
                0 <= k < requests@.len() && (#[trigger] requests@[k]).same(
                    summaries@[i].dependencies@[j].identity(),
                ),
{
    let ghost idx0 = *old(index);
    let mut requests: Vec<PubGrubPackage> = Vec::new();
    let mut i: usize = 0;
    while i < summaries.len()
        invariant
            index.wf(),
            i <= summaries@.len(),
            fulfilled_preserved(idx0, *index),
            registered_preserved(idx0, *index),
            forall|m: int|
                0 <= m < i ==> index.registered((#[trigger] summaries@[m]).package_id.identity()),
            forall|m: int, j: int|
                0 <= m < i && 0 <= j < summaries@[m].dependencies@.len() ==> index.registered(
                    (#[trigger] summaries@[m].dependencies@[j]).identity(),
                ),
            forall|k: int|
                0 <= k < requests@.len() ==> index.registered(#[trigger] requests@[k]) && !(
                idx0.registered(requests@[k])),
            forall|m: int|
                0 <= m < summaries@.len() && index.registered(
                    (#[trigger] summaries@[m]).package_id.identity(),
                ) && !idx0.registered(summaries@[m].package_id.identity()) ==> exists|k: int|
                    0 <= k < requests@.len() && (#[trigger] requests@[k]).same(
                        summaries@[m].package_id.identity(),
                    ),
            forall|m: int, j: int|
                0 <= m < summaries@.len() && 0 <= j < summaries@[m].dependencies@.len()
                    && index.registered(
                    (#[trigger] summaries@[m].dependencies@[j]).identity(),
                ) && !idx0.registered(summaries@[m].dependencies@[j].identity()) ==> exists|
                    k: int,
                |
                    0 <= k < requests@.len() && (#[trigger] requests@[k]).same(
                        summaries@[m].dependencies@[j].identity(),
                    ),
        decreases summaries@.len() - i,
    {
        let ghost prev = *index;
        let ghost reqs0 = requests@;
        let pkg = summaries[i].package_id.to_package();
        let fresh = index.register(&pkg);
        if fresh {
            requests.push(pkg);
        }
        proof {
            assert(fulfilled_preserved(idx0, *index));
            assert(registered_preserved(idx0, *index));
            assert forall|k: int| 0 <= k < requests@.len() implies index.registered(
                #[trigger] requests@[k],
            ) && !(idx0.registered(requests@[k])) by {
                if k < reqs0.len() {
                    assert(requests@[k] == reqs0[k]);
                    assert(prev.registered(reqs0[k]));
                } else {
                    assert(requests@[k] == pkg);
                    assert(fresh);
                    if idx0.registered(pkg) {
                        assert(prev.registered(pkg));
                        assert(false);
                    }
                }
            }
            assert forall|m: int|
                0 <= m < summaries@.len() && index.registered(
                    (#[trigger] summaries@[m]).package_id.identity(),
                ) && !idx0.registered(summaries@[m].package_id.identity()) implies exists|k: int|
                    0 <= k < requests@.len() && (#[trigger] requests@[k]).same(
                        summaries@[m].package_id.identity(),
                    ) by {
                let d = summaries@[m].package_id.identity();
                if prev.registered(d) {
                    let k = choose|k: int| 0 <= k < reqs0.len() && (#[trigger] reqs0[k]).same(d);
                    assert(requests@[k] == reqs0[k]);
                    assert(0 <= k < requests@.len() && requests@[k].same(d));
                } else {
                    assert(index.registered(d) == (prev.registered(d) || d.same(pkg)));
                    assert(d.same(pkg));
                    prev.lemma_entry_same_class(d, pkg);
                    assert(!prev.registered(pkg));
                    assert(fresh);
                    let k = reqs0.len() as int;
                    assert(requests@[k] == pkg);
                    assert(0 <= k < requests@.len() && requests@[k].same(d));
                }
            }
            assert forall|m: int, j: int|
                0 <= m < summaries@.len() && 0 <= j < summaries@[m].dependencies@.len()
                    && index.registered(
                    (#[trigger] summaries@[m].dependencies@[j]).identity(),
                ) && !idx0.registered(summaries@[m].dependencies@[j].identity()) implies exists|
                    k: int,
                |
                    0 <= k < requests@.len() && (#[trigger] requests@[k]).same(
                        summaries@[m].dependencies@[j].identity(),
                    ) by {
                let d = summaries@[m].dependencies@[j].identity();
                if prev.registered(d) {
                    let k = choose|k: int| 0 <= k < reqs0.len() && (#[trigger] reqs0[k]).same(d);
                    assert(requests@[k] == reqs0[k]);
                    assert(0 <= k < requests@.len() && requests@[k].same(d));
                } else {
                    assert(index.registered(d) == (prev.registered(d) || d.same(pkg)));
                    assert(d.same(pkg));
                    prev.lemma_entry_same_class(d, pkg);
                    assert(!prev.registered(pkg));
                    assert(fresh);
                    let k = reqs0.len() as int;
                    assert(requests@[k] == pkg);
                    assert(0 <= k < requests@.len() && requests@[k].same(d));
                }
            }
        }
        let root = &summaries[i];
        let mut j: usize = 0;
        while j < root.dependencies.len()
            invariant
                index.wf(),
                i < summaries@.len(),
                root == &summaries@[i as int],
                j <= root.dependencies@.len(),
                fulfilled_preserved(idx0, *index),
                registered_preserved(idx0, *index),
                index.registered(summaries@[i as int].package_id.identity()),
                forall|m: int|
                    0 <= m < i ==> index.registered(
                        (#[trigger] summaries@[m]).package_id.identity(),
                    ),
                forall|m: int, j2: int|
                    0 <= m < i && 0 <= j2 < summaries@[m].dependencies@.len() ==> index.registered(
                        (#[trigger] summaries@[m].dependencies@[j2]).identity(),
                    ),
                forall|j2: int|
                    0 <= j2 < j ==> index.registered(
                        (#[trigger] root.dependencies@[j2]).identity(),
                    ),
                forall|k: int|
                    0 <= k < requests@.len() ==> index.registered(#[trigger] requests@[k]) && !(
                    idx0.registered(requests@[k])),
                forall|m: int|
                    0 <= m < summaries@.len() && index.registered(
                        (#[trigger] summaries@[m]).package_id.identity(),
                    ) && !idx0.registered(summaries@[m].package_id.identity()) ==> exists|k: int|
                        0 <= k < requests@.len() && (#[trigger] requests@[k]).same(
                            summaries@[m].package_id.identity(),
                        ),
                forall|m: int, j2: int|
                    0 <= m < summaries@.len() && 0 <= j2 < summaries@[m].dependencies@.len()
                        && index.registered(
                        (#[trigger] summaries@[m].dependencies@[j2]).identity(),
                    ) && !idx0.registered(summaries@[m].dependencies@[j2].identity()) ==> exists|
                        k: int,
                    |
                        0 <= k < requests@.len() && (#[trigger] requests@[k]).same(
                            summaries@[m].dependencies@[j2].identity(),
                        ),
            decreases root.dependencies@.len() - j,
        {
            let ghost prev = *index;
            let ghost reqs0 = requests@;
            let pkg = root.dependencies[j].to_package();
            let fresh = index.register(&pkg);
            if fresh {
                requests.push(pkg);
            }
            proof {
                assert(fulfilled_preserved(idx0, *index));
                assert(registered_preserved(idx0, *index));
                assert(index.registered(root.dependencies@[j as int].identity()));
                assert forall|j2: int| 0 <= j2 < j + 1 implies index.registered(
                    (#[trigger] root.dependencies@[j2]).identity(),
                ) by {
                    if j2 < j {
                        assert(prev.registered(root.dependencies@[j2].identity()));
                    }
                }
                assert forall|k: int| 0 <= k < requests@.len() implies index.registered(
                    #[trigger] requests@[k],
                ) && !(idx0.registered(requests@[k])) by {
                    if k < reqs0.len() {
                        assert(requests@[k] == reqs0[k]);
                        assert(prev.registered(reqs0[k]));
                    } else {
                        assert(requests@[k] == pkg);
                        assert(fresh);
                        if idx0.registered(pkg) {
                            assert(prev.registered(pkg));
                            assert(false);
                        }
                    }
                }
                assert forall|m: int|
                    0 <= m < summaries@.len() && index.registered(
                        (#[trigger] summaries@[m]).package_id.identity(),
                    ) && !idx0.registered(summaries@[m].package_id.identity()) implies exists|
                        k: int,
                    |
                        0 <= k < requests@.len() && (#[trigger] requests@[k]).same(
                            summaries@[m].package_id.identity(),
                        ) by {
                    let d = summaries@[m].package_id.identity();
                    if prev.registered(d) {
                        let k = choose|k: int|
                            0 <= k < reqs0.len() && (#[trigger] reqs0[k]).same(d);
                        assert(requests@[k] == reqs0[k]);
                        assert(0 <= k < requests@.len() && requests@[k].same(d));
                    } else {
                        assert(index.registered(d) == (prev.registered(d) || d.same(pkg)));
                        assert(d.same(pkg));
                        prev.lemma_entry_same_class(d, pkg);
                        assert(!prev.registered(pkg));
                        assert(fresh);
                        let k = reqs0.len() as int;
                        assert(requests@[k] == pkg);
                        assert(0 <= k < requests@.len() && requests@[k].same(d));
                    }
                }
                assert forall|m: int, j2: int|
                    0 <= m < summaries@.len() && 0 <= j2 < summaries@[m].dependencies@.len()
                        && index.registered(
                        (#[trigger] summaries@[m].dependencies@[j2]).identity(),
                    ) && !idx0.registered(summaries@[m].dependencies@[j2].identity()) implies
                    exists|k: int|
                        0 <= k < requests@.len() && (#[trigger] requests@[k]).same(
                            summaries@[m].dependencies@[j2].identity(),
                        ) by {
                    let d = summaries@[m].dependencies@[j2].identity();
                    if prev.registered(d) {
                        let k = choose|k: int|
                            0 <= k < reqs0.len() && (#[trigger] reqs0[k]).same(d);
                        assert(requests@[k] == reqs0[k]);
                        assert(0 <= k < requests@.len() && requests@[k].same(d));
                    } else {
                        assert(index.registered(d) == (prev.registered(d) || d.same(pkg)));
                        assert(d.same(pkg));
                        prev.lemma_entry_same_class(d, pkg);
                        assert(!prev.registered(pkg));
                        assert(fresh);
                        let k = reqs0.len() as int;
                        assert(requests@[k] == pkg);
                        assert(0 <= k < requests@.len() && requests@[k].same(d));
                    }
                }
            }
            j += 1;
        }
        i += 1;
    }
    requests
}

/// Check a solution for two distinct identities sharing one package
/// name.  The version solver distinguishes packages by name and
/// source, but the final graph is addressed by name alone: a solution
/// that resolved one name from two sources is rejected, with both
/// sources named in the error.
pub fn validate_solution(solution: &Vec<(PubGrubPackage, PackageVersion)>) -> (r: Result<
    (),
    IncompatibleSourcesError,
>)
    ensures
        r is Ok <==> (forall|a: int, b: int|
            0 <= a < b < solution@.len() ==> (#[trigger] solution@[a]).0.name@ != (
            #[trigger] solution@[b]).0.name@),
        r matches Err(e) ==> exists|a: int, b: int|
            {
                &&& 0 <= a < b < solution@.len()
                &&& (#[trigger] solution@[a]).0.name@ == (#[trigger] solution@[b]).0.name@
                &&& e.name@ == solution@[b].0.name@
                &&& e.first_source == solution@[a].0.source_id
                &&& e.second_source == solution@[b].0.source_id
            },
{
    let mut b: usize = 0;
    while b < solution.len()
        invariant
            b <= solution@.len(),
            forall|x: int, y: int|
                0 <= x < y < b ==> (#[trigger] solution@[x]).0.name@ != (
                #[trigger] solution@[y]).0.name@,
        decreases solution@.len() - b,
    {
        let mut a: usize = 0;
        while a < b
            invariant
                a <= b < solution@.len(),
                forall|x: int, y: int|
                    0 <= x < y < b ==> (#[trigger] solution@[x]).0.name@ != (
                    #[trigger] solution@[y]).0.name@,
                forall|x: int|
                    0 <= x < a ==> (#[trigger] solution@[x]).0.name@ != solution@[
                        b as int
                    ].0.name@,
            decreases b - a,
        {
            if solution[a].0.name == solution[b].0.name {
                let e = IncompatibleSourcesError {
                    name: solution[b].0.name.clone(),
                    first_source: solution[a].0.source_id.clone(),
                    second_source: solution[b].0.source_id.clone(),
                };
                proof {
                    assert(0 <= a < b < solution@.len() && solution@[a as int].0.name@
                        == solution@[b as int].0.name@ && e.name@ == solution@[b as int].0.name@
                        && e.first_source == solution@[a as int].0.source_id && e.second_source
                        == solution@[b as int].0.source_id);
                }
                return Err(e);
            }
            a += 1;
        }
        b += 1;
    }
    Ok(())
}

} // verus!
