//! The order in which packages are processed: by name, and the versions of
//! one library from the newest down; and the runs of packages that share a
//! name.

use crate::package::{Package, PackageView};
use crate::text::{
    before, lemma_text_connected, lemma_text_irreflexive, lemma_text_transitive, same,
    text_before,
};
use crate::version::{
    lemma_version_connected, lemma_version_irreflexive, lemma_version_level_alike,
    lemma_version_not_before_chain, lemma_version_transitive, version_before, version_level,
};
use itertools::Itertools;
use vstd::prelude::*;
use vstd::string::*;

verus! {

/// Whether `p` is processed before `q`: its name comes first, or the two
/// are versions of one library and `p` is the newer.
pub open spec fn package_before(p: PackageView, q: PackageView) -> bool {
    text_before(p.name, q.name) || (p.name == q.name && version_before(q.version, p.version))
}

/// Whether the packages stand in processing order.
pub open spec fn ordered(packages: Seq<PackageView>) -> bool {
    forall|i: int, j: int|
        0 <= i < j < packages.len() ==> !package_before(packages[j], packages[i])
}

/// Where `p` goes into an ordered list: in front of the first package that
/// it is processed before, and so behind every package that it ties with.
pub open spec fn slot(packages: Seq<PackageView>, p: PackageView) -> int
    decreases packages.len(),
{
    if packages.len() == 0 {
        0
    } else if package_before(p, packages[0]) {
        0
    } else {
        1 + slot(packages.drop_first(), p)
    }
}

/// The packages in processing order; packages that tie keep the order in
/// which they were given.
pub open spec fn arranged(packages: Seq<PackageView>) -> Seq<PackageView>
    decreases packages.len(),
{
    if packages.len() == 0 {
        packages
    } else {
        let earlier = arranged(packages.drop_last());
        earlier.insert(slot(earlier, packages.last()), packages.last())
    }
}

/// No package is processed before itself.
pub proof fn lemma_package_irreflexive(p: PackageView)
    ensures
        !package_before(p, p),
{
    lemma_text_irreflexive(p.name);
    lemma_version_irreflexive(p.version);
}

/// The processing order is transitive.
pub proof fn lemma_package_transitive(p: PackageView, q: PackageView, r: PackageView)
    requires
        package_before(p, q),
        package_before(q, r),
    ensures
        package_before(p, r),
{
    lemma_text_irreflexive(q.name);
    if text_before(p.name, q.name) && text_before(q.name, r.name) {
        lemma_text_transitive(p.name, q.name, r.name);
    } else if p.name == q.name && q.name == r.name {
        lemma_version_transitive(r.version, q.version, p.version);
    }
}

/// If `p` is not processed before `q`, nor `q` before `r`, then `p` is not
/// processed before `r`.
pub proof fn lemma_package_not_before_chain(p: PackageView, q: PackageView, r: PackageView)
    requires
        !package_before(p, q),
        !package_before(q, r),
    ensures
        !package_before(p, r),
{
    if package_before(p, r) {
        if text_before(p.name, r.name) {
            if !text_before(q.name, p.name) {
                lemma_text_connected(p.name, q.name);
            } else {
                lemma_text_transitive(q.name, p.name, r.name);
            }
        } else {
            lemma_text_connected(p.name, q.name);
            lemma_version_not_before_chain(r.version, q.version, p.version);
        }
    }
}

/// Whether two packages tie: neither is processed before the other. They
/// are then versions of one library that differ in build metadata at most.
pub open spec fn ties(p: PackageView, q: PackageView) -> bool {
    !package_before(p, q) && !package_before(q, p)
}

/// Two packages tie exactly if they are versions of one library that
/// differ in build metadata at most.
pub proof fn lemma_ties(p: PackageView, q: PackageView)
    ensures
        ties(p, q) <==> p.name == q.name && version_level(p.version, q.version),
{
    lemma_text_irreflexive(p.name);
    if ties(p, q) {
        lemma_text_connected(p.name, q.name);
        lemma_version_connected(p.version, q.version);
    }
    if p.name == q.name && version_level(p.version, q.version) {
        lemma_version_level_alike(p.version, q.version, p.version);
        lemma_version_level_alike(q.version, p.version, q.version);
    }
}

/// What the slot of a package is.
pub proof fn lemma_slot(packages: Seq<PackageView>, p: PackageView)
    ensures
        0 <= slot(packages, p) <= packages.len(),
        forall|i: int| 0 <= i < slot(packages, p) ==> !package_before(p, #[trigger] packages[i]),
        slot(packages, p) < packages.len() ==> package_before(p, packages[slot(packages, p)]),
    decreases packages.len(),
{
    if packages.len() > 0 && !package_before(p, packages[0]) {
        let rest = packages.drop_first();
        lemma_slot(rest, p);
        assert forall|i: int| 0 <= i < slot(packages, p) implies !package_before(
            p,
            #[trigger] packages[i],
        ) by {
            if i > 0 {
                assert(packages[i] == rest[i - 1]);
            }
        }
    }
}

/// A package put into its slot leaves an ordered list ordered.
pub proof fn lemma_insert_keeps_order(packages: Seq<PackageView>, p: PackageView)
    requires
        ordered(packages),
    ensures
        ordered(packages.insert(slot(packages, p), p)),
{
    let at = slot(packages, p);
    lemma_slot(packages, p);
    let now = packages.insert(at, p);
    assert forall|i: int, j: int| 0 <= i < j < now.len() implies !package_before(
        now[j],
        now[i],
    ) by {
        if j == at {
            assert(now[i] == packages[i]);
        } else if i == at {
            assert(now[j] == packages[j - 1]);
            if package_before(packages[j - 1], p) {
                lemma_package_transitive(packages[j - 1], p, packages[at]);
                lemma_package_irreflexive(packages[at]);
            }
        } else {
            let i0 = if i < at { i } else { i - 1 };
            let j0 = if j < at { j } else { j - 1 };
            assert(now[i] == packages[i0] && now[j] == packages[j0]);
        }
    }
}

/// The arranged packages stand in processing order.
pub proof fn lemma_arranged_ordered(packages: Seq<PackageView>)
    ensures
        ordered(arranged(packages)),
    decreases packages.len(),
{
    if packages.len() > 0 {
        lemma_arranged_ordered(packages.drop_last());
        lemma_insert_keeps_order(arranged(packages.drop_last()), packages.last());
    }
}

/// Arranging drops no package and adds none.
pub proof fn lemma_arranged_permutes(packages: Seq<PackageView>)
    ensures
        arranged(packages).to_multiset() == packages.to_multiset(),
        arranged(packages).len() == packages.len(),
    decreases packages.len(),
{
    broadcast use vstd::seq_lib::group_to_multiset_ensures;

    if packages.len() > 0 {
        let earlier = arranged(packages.drop_last());
        let p = packages.last();
        lemma_arranged_permutes(packages.drop_last());
        lemma_slot(earlier, p);
        let at = slot(earlier, p);
        let now = earlier.insert(at, p);
        assert(now.remove(at) =~= earlier);
        assert(now[at] == p);
        assert(now.to_multiset() =~= earlier.to_multiset().insert(p));
        assert(packages =~= packages.drop_last().push(p));
    }
}

/// Arranging is stable: the packages that tie with a given one stand in
/// the order in which they were given.
pub proof fn lemma_arranged_stable(packages: Seq<PackageView>, x: PackageView)
    ensures
        arranged(packages).filter(|p: PackageView| ties(p, x)) == packages.filter(
            |p: PackageView| ties(p, x),
        ),
    decreases packages.len(),
{
    let level = |p: PackageView| ties(p, x);
    if packages.len() == 0 {
    } else {
        let given = packages.drop_last();
        let p = packages.last();
        let earlier = arranged(given);
        let at = slot(earlier, p);
        let front = earlier.take(at);
        let back = earlier.skip(at);
        lemma_arranged_stable(given, x);
        lemma_arranged_ordered(given);
        lemma_slot(earlier, p);
        assert(packages =~= given.push(p));
        given.lemma_filter_push(p, level);
        assert(earlier =~= front + back);
        assert(earlier.insert(at, p) =~= front.push(p) + back);
        Seq::filter_distributes_over_add(front, back, level);
        Seq::filter_distributes_over_add(front.push(p), back, level);
        front.lemma_filter_push(p, level);
        if ties(p, x) {
            assert(back.filter(level) =~= Seq::<PackageView>::empty()) by {
                if back.filter(level).len() > 0 {
                    let e = back.filter(level)[0];
                    assert(back.filter(level).contains(e));
                    back.lemma_filter_contains_rev(level, e);
                    back.lemma_filter_pred(level, 0);
                    let m = choose|m: int| 0 <= m < back.len() && back[m] == e;
                    assert(back[m] == earlier[at + m]);
                    assert(package_before(p, earlier[at]));
                    if m > 0 {
                        assert(!package_before(earlier[at + m], earlier[at]));
                    } else {
                        lemma_package_irreflexive(earlier[at]);
                    }
                    if !package_before(p, e) {
                        lemma_package_not_before_chain(p, e, earlier[at]);
                    }
                    // `e` and `p` both tie with `x`, so that they tie with each other.
                    if package_before(p, e) {
                        lemma_package_not_before_chain(p, x, e);
                    }
                }
            }
        }
    }
}

/// Whether `p` is processed before `q`.
pub fn comes_before(p: &Package, q: &Package) -> (r: bool)
    ensures
        r == package_before(p.deep_view(), q.deep_view()),
{
    if before(p.summary.name.as_str(), q.summary.name.as_str()) {
        true
    } else if same(p.summary.name.as_str(), q.summary.name.as_str()) {
        q.summary.version.precedes(&p.summary.version)
    } else {
        false
    }
}

/// Puts the packages into processing order: by name, the versions of one
/// library from the newest down, and packages that tie in the order given.
pub fn arrange(packages: Vec<Package>) -> (r: Vec<Package>)
    ensures
        r.deep_view() == arranged(packages.deep_view()),
        ordered(r.deep_view()),
        r.deep_view().to_multiset() == packages.deep_view().to_multiset(),
        r.len() == packages.len(),
{
    let ghost all = packages.deep_view();
    let mut out: Vec<Package> = Vec::new();
    assert(out.deep_view() =~= arranged(all.take(0)));
    for p in it: packages
        invariant
            it.seq().len() == all.len(),
            forall|k: int| 0 <= k < all.len() ==> it.seq()[k].deep_view() == all[k],
            out.deep_view() == arranged(all.take(it.index() as int)),
    {
        let ghost at = it.index() as int;
        let ghost earlier = out.deep_view();
        proof {
            assert(all.take(at + 1).drop_last() =~= all.take(at));
            assert(all.take(at + 1).last() == p.deep_view());
            lemma_slot(earlier, p.deep_view());
        }
        let mut j: usize = 0;
        proof {
            assert(earlier.skip(0) =~= earlier);
        }
        while j < out.len() && !comes_before(&p, &out[j])
            invariant
                j <= out.len(),
                earlier == out.deep_view(),
                slot(earlier, p.deep_view()) == j + slot(earlier.skip(j as int), p.deep_view()),
            decreases out.len() - j,
        {
            proof {
                assert(earlier.skip(j as int).drop_first() =~= earlier.skip(j + 1));
                assert(earlier.skip(j as int)[0] == out[j as int].deep_view());
            }
            j += 1;
        }
        proof {
            if j < out.len() {
                assert(earlier.skip(j as int)[0] == out[j as int].deep_view());
            }
        }
        out.insert(j, p);
        assert(out.deep_view() =~= earlier.insert(j as int, p.deep_view()));
    }
    proof {
        assert(all.take(all.len() as int) =~= all);
        lemma_arranged_ordered(all);
        lemma_arranged_permutes(all);
    }
    out
}

/// Whether `runs` cuts `packages` into its runs: laid end to end the runs
/// give the packages back, none is empty, the packages of a run share a
/// name, and each run stops where the name changes.
pub open spec fn is_runs_of(runs: Seq<Seq<PackageView>>, packages: Seq<PackageView>) -> bool {
    &&& runs.flatten() == packages
    &&& forall|g: int| 0 <= g < runs.len() ==> (#[trigger] runs[g]).len() > 0
    &&& forall|g: int, k: int|
        0 <= g < runs.len() && 0 <= k < runs[g].len() ==> (#[trigger] runs[g][k]).name
            == runs[g][0].name
    &&& forall|g: int, h: int|
        0 <= g < runs.len() && h == g + 1 && h < runs.len() ==> (#[trigger] runs[g])[0].name != (
        #[trigger] runs[h])[0].name
}

/// Cuts the packages into runs of equal names with itertools' `group_by`,
/// keyed by the package's name, and collects each group that it hands out.
///
/// The contract is taken on trust. It says of `group_by` that it puts
/// consecutive elements whose keys are equal into one group, starts a new
/// group where the key differs from that of the element before, and hands
/// out the groups in order, each element in one of them.
#[verifier::external_body]
fn runs_by_name(packages: Vec<Package>) -> (runs: Vec<Vec<Package>>)
    ensures
        is_runs_of(runs.deep_view(), packages.deep_view()),
{
    let grouped = packages.into_iter().group_by(|p| p.summary.name.clone());
    let mut runs = Vec::new();
    for (_, run) in &grouped {
        runs.push(run.collect());
    }
    runs
}

/// How many packages stand in the runs before run `g`.
pub open spec fn run_start(runs: Seq<Seq<PackageView>>, g: int) -> int {
    runs.take(g).flatten().len() as int
}

/// Where the packages of a run stand among all packages.
pub proof fn lemma_run_position(runs: Seq<Seq<PackageView>>, g: int, k: int)
    requires
        0 <= g < runs.len(),
        0 <= k < runs[g].len(),
    ensures
        0 <= run_start(runs, g) + k < runs.flatten().len(),
        runs.flatten()[run_start(runs, g) + k] == runs[g][k],
        run_start(runs, g + 1) == run_start(runs, g) + runs[g].len(),
{
    let head = runs.take(g);
    let upto = runs.take(g + 1);
    let tail = runs.skip(g + 1);
    assert(upto =~= head.push(runs[g]));
    head.lemma_flatten_push(runs[g]);
    assert(upto + tail =~= runs);
    vstd::seq_lib::lemma_flatten_concat(upto, tail);
    assert(runs.flatten() == head.flatten() + runs[g] + tail.flatten());
}

/// The runs end where the packages end.
pub proof fn lemma_run_end(runs: Seq<Seq<PackageView>>)
    ensures
        run_start(runs, runs.len() as int) == runs.flatten().len(),
        run_start(runs, 0) == 0,
{
    assert(runs.take(runs.len() as int) =~= runs);
    assert(runs.take(0) =~= Seq::<Seq<PackageView>>::empty());
}

/// Puts the packages into processing order and cuts them into the runs of
/// packages that share a name: one run for each library, its newest version
/// first.
pub fn arrange_runs(packages: Vec<Package>) -> (runs: Vec<Vec<Package>>)
    ensures
        is_runs_of(runs.deep_view(), arranged(packages.deep_view())),
{
    runs_by_name(arrange(packages))
}

} // verus!
