//! What the registry tells of a library version, and the materialized
//! package with its build targets and embedded metadata.

use crate::version::{Version, VersionView};
use vstd::prelude::*;
use vstd::string::*;

verus! {

/// A named feature of a library and the feature names that it implies.
#[derive(Clone, Debug, PartialEq, Eq)]
pub struct Feature {
    pub name: String,
    pub implies: Vec<String>,
}

/// What a [`Feature`] stands for.
pub struct FeatureView {
    pub name: Seq<char>,
    pub implies: Seq<Seq<char>>,
}

impl DeepView for Feature {
    type V = FeatureView;

    open spec fn deep_view(&self) -> FeatureView {
        FeatureView { name: self.name@, implies: self.implies.deep_view() }
    }
}

/// The registry's view of one version of a library.
#[derive(Clone, Debug, PartialEq, Eq)]
pub struct Summary {
    pub name: String,
    pub version: Version,
    /// The features that the library declares.
    pub features: Vec<Feature>,
}

/// What a [`Summary`] stands for.
pub struct SummaryView {
    pub name: Seq<char>,
    pub version: VersionView,
    pub features: Seq<FeatureView>,
}

impl DeepView for Summary {
    type V = SummaryView;

    open spec fn deep_view(&self) -> SummaryView {
        SummaryView {
            name: self.name@,
            version: self.version@,
            features: self.features.deep_view(),
        }
    }
}

/// The kind of a build target.
#[derive(Clone, Copy, Debug, PartialEq, Eq, Structural)]
pub enum TargetKind {
    Lib,
    Bin,
    Test,
    Bench,
    ExampleLib,
    ExampleBin,
    CustomBuild,
}

/// A build target of a package.
#[derive(Clone, Debug, PartialEq, Eq)]
pub struct Target {
    pub kind: TargetKind,
    /// The identifier under which source code refers to the target.
    pub crate_name: String,
}

/// What a [`Target`] stands for.
pub struct TargetView {
    pub kind: TargetKind,
    pub crate_name: Seq<char>,
}

impl DeepView for Target {
    type V = TargetView;

    open spec fn deep_view(&self) -> TargetView {
        TargetView { kind: self.kind, crate_name: self.crate_name@ }
    }
}

/// The playground's block in a package's metadata, with every field set.
#[derive(Clone, Debug, PartialEq, Eq)]
pub struct Metadata {
    pub features: Vec<String>,
    pub default_features: bool,
    pub all_features: bool,
}

/// What a [`Metadata`] stands for.
pub struct MetadataView {
    pub features: Seq<Seq<char>>,
    pub default_features: bool,
    pub all_features: bool,
}

impl DeepView for Metadata {
    type V = MetadataView;

    open spec fn deep_view(&self) -> MetadataView {
        MetadataView {
            features: self.features.deep_view(),
            default_features: self.default_features,
            all_features: self.all_features,
        }
    }
}

impl Default for Metadata {
    /// The block of a package that sets none of the fields: no feature
    /// named, the default features kept, not all features asked for.
    fn default() -> (r: Metadata)
        ensures
            r.features@.len() == 0,
            r.default_features,
            !r.all_features,
    {
        Metadata { features: Vec::new(), default_features: true, all_features: false }
    }
}

/// The playground's block as it was found in a package.
#[derive(Clone, Debug, PartialEq, Eq)]
pub enum MetadataBlock {
    /// The package has no such block.
    Absent,
    /// The package has one that could not be read; it counts as absent.
    Malformed,
    /// The block, with the defaults filled in.
    Present(Metadata),
}

/// What a [`MetadataBlock`] stands for.
pub enum MetadataBlockView {
    Absent,
    Malformed,
    Present(MetadataView),
}

impl DeepView for MetadataBlock {
    type V = MetadataBlockView;

    open spec fn deep_view(&self) -> MetadataBlockView {
        match self {
            MetadataBlock::Absent => MetadataBlockView::Absent,
            MetadataBlock::Malformed => MetadataBlockView::Malformed,
            MetadataBlock::Present(m) => MetadataBlockView::Present(m.deep_view()),
        }
    }
}

/// A materialized package: one resolved version of a library.
#[derive(Clone, Debug, PartialEq, Eq)]
pub struct Package {
    pub summary: Summary,
    pub targets: Vec<Target>,
    pub metadata: MetadataBlock,
}

/// What a [`Package`] stands for.
pub struct PackageView {
    pub name: Seq<char>,
    pub version: VersionView,
    pub features: Seq<FeatureView>,
    pub targets: Seq<TargetView>,
    pub metadata: MetadataBlockView,
}

impl DeepView for Package {
    type V = PackageView;

    open spec fn deep_view(&self) -> PackageView {
        PackageView {
            name: self.summary.name@,
            version: self.summary.version@,
            features: self.summary.features.deep_view(),
            targets: self.targets.deep_view(),
            metadata: self.metadata.deep_view(),
        }
    }
}

/// The place of the first library target among `targets`, or their number
/// if none of them is a library.
pub open spec fn library_at(targets: Seq<TargetView>) -> int
    decreases targets.len(),
{
    if targets.len() == 0 {
        0
    } else if targets[0].kind == TargetKind::Lib {
        0
    } else {
        1 + library_at(targets.drop_first())
    }
}

/// Whether the package has a library target.
pub open spec fn has_library(p: PackageView) -> bool {
    exists|i: int| 0 <= i < p.targets.len() && p.targets[i].kind == TargetKind::Lib
}

/// The canonical identifier of a package: the identifier of its first
/// library target.
pub open spec fn canonical_identifier(p: PackageView) -> Seq<char>
    recommends
        has_library(p),
{
    p.targets[library_at(p.targets)].crate_name
}

/// The first library target is a library target, nothing before it is one,
/// and it exists whenever any target is a library.
pub proof fn lemma_library_at(targets: Seq<TargetView>)
    ensures
        0 <= library_at(targets) <= targets.len(),
        library_at(targets) < targets.len() ==> targets[library_at(targets)].kind
            == TargetKind::Lib,
        forall|i: int| 0 <= i < library_at(targets) ==> targets[i].kind != TargetKind::Lib,
    decreases targets.len(),
{
    if targets.len() > 0 && targets[0].kind != TargetKind::Lib {
        let rest = targets.drop_first();
        lemma_library_at(rest);
        assert forall|i: int| 0 <= i < library_at(targets) implies targets[i].kind
            != TargetKind::Lib by {
            if i > 0 {
                assert(targets[i] == rest[i - 1]);
            }
        }
    }
}

impl Package {
    /// The identifier of the package's first library target, if it has one.
    pub fn library_name(&self) -> (r: Option<&String>)
        ensures
            r is Some <==> has_library(self.deep_view()),
            r matches Some(name) ==> name@ == canonical_identifier(self.deep_view()),
    {
        let ghost targets = self.targets.deep_view();
        proof {
            lemma_library_at(targets);
        }
        let mut i: usize = 0;
        while i < self.targets.len()
            invariant
                i <= self.targets.len(),
                targets == self.targets.deep_view(),
                i <= library_at(targets),
                library_at(targets) < targets.len() ==> targets[library_at(targets)].kind
                    == TargetKind::Lib,
                forall|k: int| 0 <= k < library_at(targets) ==> targets[k].kind != TargetKind::Lib,
            decreases self.targets.len() - i,
        {
            assert(targets[i as int] == self.targets[i as int].deep_view());
            match self.targets[i].kind {
                TargetKind::Lib => {
                    return Some(&self.targets[i].crate_name);
                },
                _ => {},
            }
            i += 1;
        }
        None
    }
}

} // verus!
