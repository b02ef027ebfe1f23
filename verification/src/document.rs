//! The manifest as a document: its fixed header and build profiles, and the
//! row that each dependency is written as.

use crate::manifest::{DependencySpec, DependencySpecView, DependencyTable};
use vstd::prelude::*;
use vstd::string::*;

verus! {

/// The header of the manifest.
#[derive(Clone, Debug, PartialEq, Eq)]
pub struct TomlPackage {
    pub name: String,
    pub version: String,
    pub authors: Vec<String>,
}

/// A build profile of the manifest.
#[derive(Clone, Copy, Debug, PartialEq, Eq, Structural)]
pub struct Profile {
    pub codegen_units: u32,
    pub incremental: bool,
}

/// The build profiles that the manifest sets.
#[derive(Clone, Copy, Debug, PartialEq, Eq, Structural)]
pub struct Profiles {
    pub dev: Profile,
    pub release: Profile,
}

/// The manifest: header, build profiles and dependency table.
#[derive(Clone, Debug, PartialEq, Eq)]
pub struct TomlManifest {
    pub package: TomlPackage,
    pub profile: Profiles,
    pub dependencies: DependencyTable,
}

/// A dependency as the manifest writes it: what need not be said is left
/// out.
#[derive(Clone, Debug, PartialEq, Eq)]
pub struct DependencyRow {
    /// The library's name, unless the identifier is that name.
    pub package: Option<String>,
    /// The version requirement: the one exact version.
    pub version: String,
    /// The features to enable, unless there are none.
    pub features: Option<Vec<String>>,
    /// `false` where the default features are switched off.
    pub default_features: Option<bool>,
}

/// What a [`DependencyRow`] stands for.
pub struct DependencyRowView {
    pub package: Option<Seq<char>>,
    pub version: Seq<char>,
    pub features: Option<Seq<Seq<char>>>,
    pub default_features: Option<bool>,
}

impl DeepView for DependencyRow {
    type V = DependencyRowView;

    open spec fn deep_view(&self) -> DependencyRowView {
        DependencyRowView {
            package: match self.package {
                Some(name) => Some(name@),
                None => None,
            },
            version: self.version@,
            features: match self.features {
                Some(features) => Some(features.deep_view()),
                None => None,
            },
            default_features: self.default_features,
        }
    }
}

/// An identifier with the row written under it.
#[derive(Clone, Debug, PartialEq, Eq)]
pub struct ManifestEntry {
    pub id: String,
    pub row: DependencyRow,
}

/// The requirement that only `version` meets.
pub open spec fn exact_requirement(version: Seq<char>) -> Seq<char> {
    seq!['='] + version
}

/// The row of what is pinned under `id`: the name left out where it is the
/// identifier, the feature list where it is empty, and the flag for the
/// default features where they are kept.
pub open spec fn row_of(id: Seq<char>, spec: DependencySpecView) -> DependencyRowView {
    DependencyRowView {
        package: if spec.package == id {
            None
        } else {
            Some(spec.package)
        },
        version: exact_requirement(spec.version),
        features: if spec.features.len() == 0 {
            None
        } else {
            Some(spec.features)
        },
        default_features: if spec.default_features {
            None
        } else {
            Some(false)
        },
    }
}

/// Whether a flag is set; the manifest leaves out a `default-features` entry
/// exactly when this holds of it.
pub fn is_true(b: &bool) -> (r: bool)
    ensures
        r == *b,
{
    *b
}

/// Writes a version as the requirement that this version alone meets.
pub fn exact_version(version: &String) -> (r: String)
    ensures
        r@ == exact_requirement(version@),
{
    proof {
        reveal_strlit("=");
        assert("="@ =~= seq!['=']);
    }
    let mut out = String::from_str("=");
    out.append(version.as_str());
    out
}

/// A copy of a list of texts.
pub fn copy_names(names: &Vec<String>) -> (r: Vec<String>)
    ensures
        r.deep_view() == names.deep_view(),
{
    let mut out: Vec<String> = Vec::new();
    let mut i: usize = 0;
    while i < names.len()
        invariant
            i <= names.len(),
            out.deep_view() == names.deep_view().take(i as int),
        decreases names.len() - i,
    {
        let ghost before = out.deep_view();
        out.push(names[i].clone());
        assert(out.deep_view() =~= before.push(names[i as int]@));
        assert(names.deep_view().take(i + 1) =~= names.deep_view().take(i as int).push(
            names[i as int]@,
        ));
        i += 1;
    }
    assert(names.deep_view().take(names.len() as int) =~= names.deep_view());
    out
}

impl DependencySpec {
    /// The row that the manifest writes for this dependency under `id`.
    pub fn row(&self, id: &str) -> (r: DependencyRow)
        ensures
            r.deep_view() == row_of(id@, self.deep_view()),
    {
        let package = if crate::text::same(self.package.as_str(), id) {
            None
        } else {
            Some(self.package.clone())
        };
        let features = if self.features.len() == 0 {
            None
        } else {
            Some(copy_names(&self.features))
        };
        let default_features = if is_true(&self.default_features) {
            None
        } else {
            Some(false)
        };
        DependencyRow { package, version: exact_version(&self.version), features, default_features }
    }
}

/// The manifest of the playground around a dependency table: the fixed
/// header, and for development and release alike one code generation unit
/// and no incremental compilation.
pub fn playground_manifest(dependencies: DependencyTable) -> (r: TomlManifest)
    ensures
        r.package.name@ == "playground"@,
        r.package.version@ == "0.0.1"@,
        r.package.authors.deep_view() == seq!["The Rust Playground"@],
        r.profile.dev == (Profile { codegen_units: 1, incremental: false }),
        r.profile.release == (Profile { codegen_units: 1, incremental: false }),
        r.dependencies == dependencies,
{
    let mut authors: Vec<String> = Vec::new();
    authors.push(String::from_str("The Rust Playground"));
    assert(authors.deep_view() =~= seq!["The Rust Playground"@]);
    TomlManifest {
        package: TomlPackage {
            name: String::from_str("playground"),
            version: String::from_str("0.0.1"),
            authors,
        },
        profile: Profiles {
            dev: Profile { codegen_units: 1, incremental: false },
            release: Profile { codegen_units: 1, incremental: false },
        },
        dependencies,
    }
}

impl TomlManifest {
    /// The rows of the dependency table, in ascending order of their
    /// identifiers: the order in which the manifest lists them.
    pub fn rows(&self) -> (r: Vec<ManifestEntry>)
        requires
            self.dependencies.well_formed(),
        ensures
            r.len() == self.dependencies.ids().len(),
            forall|i: int|
                0 <= i < r.len() ==> (#[trigger] r[i]).id@ == self.dependencies.ids()[i]
                    && r[i].row.deep_view() == row_of(
                    self.dependencies.ids()[i],
                    self.dependencies.specs()[i],
                ),
    {
        let mut out: Vec<ManifestEntry> = Vec::new();
        let mut i: usize = 0;
        while i < self.dependencies.len()
            invariant
                self.dependencies.well_formed(),
                i <= self.dependencies.ids().len(),
                out.len() == i,
                forall|k: int|
                    0 <= k < out.len() ==> (#[trigger] out[k]).id@ == self.dependencies.ids()[k]
                        && out[k].row.deep_view() == row_of(
                        self.dependencies.ids()[k],
                        self.dependencies.specs()[k],
                    ),
            decreases self.dependencies.ids().len() - i,
        {
            let id = self.dependencies.id(i);
            let row = self.dependencies.spec(i).row(id.as_str());
            out.push(ManifestEntry { id: id.clone(), row });
            i += 1;
        }
        out
    }
}

} // verus!
