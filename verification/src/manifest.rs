//! The dependency table and the index: which identifier each resolved
//! package is exposed under, and what is pinned for it.

use crate::arrange::{
    arrange_runs, arranged, is_runs_of, lemma_arranged_permutes, lemma_run_end,
    lemma_run_position, run_start,
};
use crate::error::{PipelineError, PipelineErrorView};
use crate::features::{feature_override, playground_metadata_features};
use crate::names::{
    ascending, in_order, lemma_ascending_distinct, lemma_in_order, lemma_rank,
    lemma_rank_of_member, position, rank,
};
use crate::package::{canonical_identifier, has_library, Package, PackageView};
use crate::text::{lemma_text_connected, same, text_before};
use crate::version::{triple_text, version_text};
use vstd::prelude::*;
use vstd::string::*;

verus! {

/// What the manifest pins for one exposed identifier.
#[derive(Clone, Debug, PartialEq, Eq)]
pub struct DependencySpec {
    /// The library's name in the registry.
    pub package: String,
    /// The exact version, as text.
    pub version: String,
    /// The features to enable, in ascending order.
    pub features: Vec<String>,
    /// Whether the library's default features are kept.
    pub default_features: bool,
}

/// What a [`DependencySpec`] stands for.
pub struct DependencySpecView {
    pub package: Seq<char>,
    pub version: Seq<char>,
    pub features: Seq<Seq<char>>,
    pub default_features: bool,
}

impl DeepView for DependencySpec {
    type V = DependencySpecView;

    open spec fn deep_view(&self) -> DependencySpecView {
        DependencySpecView {
            package: self.package@,
            version: self.version@,
            features: self.features.deep_view(),
            default_features: self.default_features,
        }
    }
}

/// One entry of the index: the name and version behind an identifier.
#[derive(Clone, Debug, PartialEq, Eq)]
pub struct CrateInformation {
    pub name: String,
    pub version: String,
    pub id: String,
}

/// What a [`CrateInformation`] stands for.
pub struct CrateInformationView {
    pub name: Seq<char>,
    pub version: Seq<char>,
    pub id: Seq<char>,
}

impl DeepView for CrateInformation {
    type V = CrateInformationView;

    open spec fn deep_view(&self) -> CrateInformationView {
        CrateInformationView { name: self.name@, version: self.version@, id: self.id@ }
    }
}

/// The dependency table: what is pinned under each exposed identifier,
/// kept in ascending order of the identifiers.
#[derive(Clone, Debug, PartialEq, Eq)]
pub struct DependencyTable {
    ids: Vec<String>,
    specs: Vec<DependencySpec>,
}

impl DependencyTable {
    /// The identifiers, in the order in which the table lists them.
    pub closed spec fn ids(&self) -> Seq<Seq<char>> {
        self.ids.deep_view()
    }

    /// What is pinned, in the order in which the table lists it.
    pub closed spec fn specs(&self) -> Seq<DependencySpecView> {
        self.specs.deep_view()
    }

    /// Every identifier has its entry, and the identifiers ascend.
    pub open spec fn well_formed(&self) -> bool {
        &&& self.ids().len() == self.specs().len()
        &&& ascending(self.ids())
    }

    /// The table as a mapping from identifier to what is pinned under it.
    pub open spec fn as_map(&self) -> Map<Seq<char>, DependencySpecView> {
        Map::new(
            |id: Seq<char>| self.ids().contains(id),
            |id: Seq<char>| self.specs()[rank(self.ids(), id)],
        )
    }

    /// A table without entries.
    pub fn new() -> (r: DependencyTable)
        ensures
            r.well_formed(),
            r.ids().len() == 0,
            r.as_map() == Map::<Seq<char>, DependencySpecView>::empty(),
    {
        let r = DependencyTable { ids: Vec::new(), specs: Vec::new() };
        assert(r.as_map() =~= Map::<Seq<char>, DependencySpecView>::empty());
        r
    }

    /// The number of entries.
    pub fn len(&self) -> (r: usize)
        requires
            self.well_formed(),
        ensures
            r == self.ids().len(),
    {
        self.ids.len()
    }

    /// The identifier of entry `i`, counted in ascending order.
    pub fn id(&self, i: usize) -> (r: &String)
        requires
            self.well_formed(),
            i < self.ids().len(),
        ensures
            r@ == self.ids()[i as int],
    {
        &self.ids[i]
    }

    /// What entry `i` pins, counted in ascending order of the identifiers.
    pub fn spec(&self, i: usize) -> (r: &DependencySpec)
        requires
            self.well_formed(),
            i < self.ids().len(),
        ensures
            r.deep_view() == self.specs()[i as int],
            r.deep_view() == self.as_map()[self.ids()[i as int]],
    {
        proof {
            lemma_rank_of_member(self.ids(), i as int);
            assert(self.ids().contains(self.ids()[i as int]));
        }
        &self.specs[i]
    }

    /// What is pinned under `id`, if the table has it.
    pub fn get(&self, id: &str) -> (r: Option<&DependencySpec>)
        requires
            self.well_formed(),
        ensures
            r is Some <==> self.as_map().dom().contains(id@),
            r matches Some(spec) ==> spec.deep_view() == self.as_map()[id@],
    {
        let at = position(&self.ids, id);
        proof {
            lemma_rank(self.ids(), id@);
        }
        if at < self.ids.len() && same(self.ids[at].as_str(), id) {
            assert(self.ids()[at as int] == id@);
            Some(&self.specs[at])
        } else {
            proof {
                if self.ids().contains(id@) {
                    let k = choose|k: int| 0 <= k < self.ids().len() && self.ids()[k] == id@;
                    lemma_rank_of_member(self.ids(), k);
                }
            }
            None
        }
    }

    /// Pins `spec` under `id`, in place of what was pinned there before.
    pub fn insert(&mut self, id: String, spec: DependencySpec)
        requires
            old(self).well_formed(),
        ensures
            final(self).well_formed(),
            final(self).as_map() == old(self).as_map().insert(id@, spec.deep_view()),
    {
        let ghost ids = self.ids();
        let ghost specs = self.specs();
        let at = position(&self.ids, id.as_str());
        proof {
            lemma_rank(ids, id@);
        }
        if at < self.ids.len() && same(self.ids[at].as_str(), id.as_str()) {
            self.specs.set(at, spec);
            proof {
                assert(ids[at as int] == id@);
                assert(self.specs() =~= specs.update(at as int, spec.deep_view()));
                assert(self.as_map() =~= old(self).as_map().insert(id@, spec.deep_view())) by {
                    assert forall|k: Seq<char>| ids.contains(k) implies self.as_map()[k] == old(
                        self,
                    ).as_map().insert(id@, spec.deep_view())[k] by {
                        let i = choose|i: int| 0 <= i < ids.len() && ids[i] == k;
                        lemma_rank_of_member(ids, i);
                    }
                }
            }
        } else {
            self.ids.insert(at, id);
            self.specs.insert(at, spec);
            proof {
                let now = self.ids();
                assert(now =~= ids.insert(at as int, id@));
                assert(self.specs() =~= specs.insert(at as int, spec.deep_view()));
                assert(!ids.contains(id@)) by {
                    if ids.contains(id@) {
                        let k = choose|k: int| 0 <= k < ids.len() && ids[k] == id@;
                        lemma_rank_of_member(ids, k);
                    }
                }
                assert forall|i: int, j: int| 0 <= i < j < now.len() implies text_before(
                    now[i],
                    now[j],
                ) by {
                    if j == at {
                        assert(now[i] == ids[i]);
                    } else if i == at {
                        assert(now[j] == ids[j - 1]);
                        assert(ids.contains(ids[j - 1]));
                        if !text_before(id@, ids[j - 1]) {
                            lemma_text_connected(id@, ids[j - 1]);
                        }
                    } else {
                        let i0 = if i < at { i } else { i - 1 };
                        let j0 = if j < at { j } else { j - 1 };
                        assert(now[i] == ids[i0] && now[j] == ids[j0]);
                    }
                }
                assert(self.as_map() =~= old(self).as_map().insert(id@, spec.deep_view())) by {
                    assert forall|k: Seq<char>| now.contains(k) implies ids.contains(k) || k
                        == id@ by {
                        let i = choose|i: int| 0 <= i < now.len() && now[i] == k;
                        if i < at {
                            assert(ids[i] == k);
                        } else if i > at {
                            assert(ids[i - 1] == k);
                        }
                    }
                    let wanted = old(self).as_map().insert(id@, spec.deep_view());
                    assert forall|k: Seq<char>| ids.contains(k) || k == id@ implies now.contains(
                        k,
                    ) && self.as_map()[k] == wanted[k] by {
                        if k == id@ {
                            assert(now[at as int] == k);
                            lemma_rank_of_member(now, at as int);
                        } else {
                            let i = choose|i: int| 0 <= i < ids.len() && ids[i] == k;
                            lemma_rank_of_member(ids, i);
                            let i1 = if i < at { i } else { i + 1 };
                            assert(now[i1] == k);
                            lemma_rank_of_member(now, i1);
                        }
                    }
                }
            }
        }
    }
}

/// The identifiers of a table differ from each other.
pub proof fn lemma_table_identifiers_distinct(table: DependencyTable)
    requires
        table.well_formed(),
    ensures
        table.ids().no_duplicates(),
{
    lemma_ascending_distinct(table.ids());
}

/// Whether the package at `i` is the first of its library: the newest
/// version of it, where the packages stand in processing order.
pub open spec fn leads_run(sorted: Seq<PackageView>, i: int) -> bool {
    i == 0 || sorted[i - 1].name != sorted[i].name
}

/// The identifier under which the package at `i` is exposed: the canonical
/// identifier for the first package of a library, and for every other that
/// identifier with `_major_minor_patch` behind it.
pub open spec fn exposed_identifier(sorted: Seq<PackageView>, i: int) -> Seq<char> {
    if leads_run(sorted, i) {
        canonical_identifier(sorted[i])
    } else {
        canonical_identifier(sorted[i]) + seq!['_'] + triple_text(sorted[i].version, seq!['_'])
    }
}

/// What is pinned for a package: its name, its exact version, and the
/// feature override that it asks for; without one, no features and the
/// defaults kept.
pub open spec fn spec_of(p: PackageView) -> DependencySpecView {
    DependencySpecView {
        package: p.name,
        version: version_text(p.version),
        features: match feature_override(p) {
            Some((features, _)) => in_order(features),
            None => Seq::empty(),
        },
        default_features: match feature_override(p) {
            Some((_, keeps_defaults)) => keeps_defaults,
            None => true,
        },
    }
}

/// The index entry of the package at `i`.
pub open spec fn info_of(sorted: Seq<PackageView>, i: int) -> CrateInformationView {
    CrateInformationView {
        name: sorted[i].name,
        version: version_text(sorted[i].version),
        id: exposed_identifier(sorted, i),
    }
}

/// The index: one entry for each package, in processing order.
pub open spec fn index_of(sorted: Seq<PackageView>) -> Seq<CrateInformationView> {
    Seq::new(sorted.len(), |i: int| info_of(sorted, i))
}

/// The dependency table of the first `n` packages: each pinned under its
/// exposed identifier, a later package taking the place of an earlier one
/// that was exposed under the same identifier.
pub open spec fn table_upto(sorted: Seq<PackageView>, n: int) -> Map<Seq<char>, DependencySpecView>
    decreases n,
{
    if n <= 0 {
        Map::empty()
    } else {
        table_upto(sorted, n - 1).insert(exposed_identifier(sorted, n - 1), spec_of(sorted[n - 1]))
    }
}

/// The place of the first package without a library target, or the number
/// of packages if each has one.
pub open spec fn first_without_library(sorted: Seq<PackageView>) -> int
    decreases sorted.len(),
{
    if sorted.len() == 0 {
        0
    } else if !has_library(sorted[0]) {
        0
    } else {
        1 + first_without_library(sorted.drop_first())
    }
}

/// What the place of the first package without a library target is.
pub proof fn lemma_first_without_library(sorted: Seq<PackageView>)
    ensures
        0 <= first_without_library(sorted) <= sorted.len(),
        first_without_library(sorted) < sorted.len() ==> !has_library(
            sorted[first_without_library(sorted)],
        ),
        forall|i: int| 0 <= i < first_without_library(sorted) ==> has_library(#[trigger] sorted[i]),
    decreases sorted.len(),
{
    if sorted.len() > 0 && has_library(sorted[0]) {
        let rest = sorted.drop_first();
        lemma_first_without_library(rest);
        assert forall|i: int| 0 <= i < first_without_library(sorted) implies has_library(
            #[trigger] sorted[i],
        ) by {
            if i > 0 {
                assert(sorted[i] == rest[i - 1]);
            }
        }
    }
}

/// The two artifacts of a run, before they are written.
#[derive(Clone, Debug, PartialEq, Eq)]
pub struct Synthesis {
    /// The manifest's dependency table.
    pub dependencies: DependencyTable,
    /// The index, in processing order.
    pub infos: Vec<CrateInformation>,
}

/// Whether `s` is what a run on `packages` hands back for writing: every
/// package has a library target, the index lists the packages in processing
/// order, each with the identifier it is exposed under, and the table pins
/// each package under that identifier.
pub open spec fn synthesized(packages: Seq<PackageView>, s: Synthesis) -> bool {
    let sorted = arranged(packages);
    &&& first_without_library(sorted) == sorted.len()
    &&& s.dependencies.well_formed()
    &&& s.dependencies.as_map() == table_upto(sorted, sorted.len() as int)
    &&& s.infos.deep_view() == index_of(sorted)
}

/// In a cut of the packages into runs, the first package of each run leads
/// and no other does.
proof fn lemma_run_leads(cut: Seq<Seq<PackageView>>, sorted: Seq<PackageView>, g: int, k: int)
    requires
        is_runs_of(cut, sorted),
        0 <= g < cut.len(),
        0 <= k < cut[g].len(),
    ensures
        leads_run(sorted, run_start(cut, g) + k) <==> k == 0,
        sorted[run_start(cut, g) + k] == cut[g][k],
{
    lemma_run_position(cut, g, k);
    lemma_run_end(cut);
    if k > 0 {
        lemma_run_position(cut, g, k - 1);
        assert(cut[g][k].name == cut[g][0].name);
        assert(cut[g][k - 1].name == cut[g][0].name);
    } else if g > 0 {
        let h = g - 1;
        assert(cut[h].len() > 0);
        let last = cut[h].len() - 1;
        lemma_run_position(cut, h, last);
        assert(cut[h][last].name == cut[h][0].name);
        assert(cut[h][0].name != cut[g][0].name);
    }
}

/// Gives every resolved package its exposed identifier and pins it.
///
/// The packages are processed by name, the versions of one library from the
/// newest down. The newest is exposed under the library's canonical
/// identifier, the identifier of its library target; every older one under
/// that identifier followed by `_major_minor_patch`. A package without a
/// library target ends the run, and nothing is handed back for writing.
#[verifier::loop_isolation(false)]
pub fn synthesize(packages: Vec<Package>) -> (r: Result<Synthesis, PipelineError>)
    ensures
        match r {
            Ok(s) => synthesized(packages.deep_view(), s) && s.infos.len() == packages.len(),
            Err(e) => {
                let sorted = arranged(packages.deep_view());
                &&& first_without_library(sorted) < sorted.len()
                &&& e.deep_view() == (PipelineErrorView::MissingLibraryTarget {
                    name: sorted[first_without_library(sorted)].name,
                })
            },
        },
{
    let ghost sorted = arranged(packages.deep_view());
    let runs = arrange_runs(packages);
    let ghost cut = runs.deep_view();
    proof {
        lemma_first_without_library(sorted);
        lemma_arranged_permutes(packages.deep_view());
        lemma_run_end(cut);
        reveal_strlit("_");
        assert("_"@ =~= seq!['_']);
    }
    let mut dependencies = DependencyTable::new();
    let mut infos: Vec<CrateInformation> = Vec::new();
    let mut g: usize = 0;
    assert(infos.deep_view() =~= index_of(sorted).take(0));
    while g < runs.len()
        invariant
            g <= runs.len(),
            dependencies.well_formed(),
            infos.deep_view() == index_of(sorted).take(run_start(cut, g as int)),
            dependencies.as_map() == table_upto(sorted, run_start(cut, g as int)),
            0 <= run_start(cut, g as int) <= first_without_library(sorted),
        decreases runs.len() - g,
    {
        let run = &runs[g];
        let ghost start = run_start(cut, g as int);
        assert(run.deep_view() == cut[g as int]);
        let mut k: usize = 0;
        while k < run.len()
            invariant
                k <= run.len(),
                dependencies.well_formed(),
                infos.deep_view() == index_of(sorted).take(start + k),
                dependencies.as_map() == table_upto(sorted, start + k),
                start + k <= first_without_library(sorted),
            decreases run.len() - k,
        {
            let pkg = &run[k];
            let ghost at = start + k;
            proof {
                lemma_run_leads(cut, sorted, g as int, k as int);
                lemma_run_position(cut, g as int, k as int);
                assert(pkg.deep_view() == sorted[at]);
            }
            let name = &pkg.summary.name;
            let version = &pkg.summary.version;

            let crate_name = match pkg.library_name() {
                Some(crate_name) => crate_name,
                None => {
                    return Err(PipelineError::MissingLibraryTarget { name: name.clone() });
                },
            };

            // The newest version comes first. Every later version has its
            // numbers appended, so that it is named apart.
            let exposed_name = if k == 0 {
                crate_name.clone()
            } else {
                let mut exposed = crate_name.clone();
                exposed.append("_");
                exposed.append(version.triple("_").as_str());
                exposed
            };
            assert(exposed_name@ =~= exposed_identifier(sorted, at));

            let (features, default_features) = match playground_metadata_features(pkg) {
                Some((features, default_features)) => {
                    proof {
                        lemma_in_order(features.deep_view());
                    }
                    (features, default_features)
                },
                None => (Vec::new(), true),
            };
            let spec = DependencySpec {
                package: name.clone(),
                version: version.to_string(),
                features,
                default_features,
            };
            assert(spec.deep_view().features =~= spec_of(sorted[at]).features);
            assert(spec.deep_view() == spec_of(sorted[at]));

            dependencies.insert(exposed_name.clone(), spec);

            let ghost listed = infos.deep_view();
            infos.push(
                CrateInformation {
                    name: name.clone(),
                    version: version.to_string(),
                    id: exposed_name,
                },
            );
            proof {
                assert(infos.deep_view() =~= listed.push(info_of(sorted, at)));
                assert(index_of(sorted).take(at + 1) =~= index_of(sorted).take(at).push(
                    info_of(sorted, at),
                ));
                if first_without_library(sorted) == at {
                    assert(false);
                }
            }
            k += 1;
        }
        proof {
            lemma_run_position(cut, g as int, 0);
        }
        g += 1;
    }
    proof {
        assert(index_of(sorted).take(sorted.len() as int) =~= index_of(sorted));
        assert(infos.deep_view().len() == infos.len());
    }
    Ok(Synthesis { dependencies, infos })
}

} // verus!
