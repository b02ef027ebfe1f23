use top_crates::arrange::{arrange, arrange_runs, comes_before};
use top_crates::catalog::Modifications;
use top_crates::document::{
    exact_version, is_true, playground_manifest, DependencyRow, ManifestEntry, Profile,
};
use top_crates::error::PipelineError;
use top_crates::manifest::{synthesize, CrateInformation, DependencySpec, DependencyTable};
use top_crates::package::{
    Feature, Metadata, MetadataBlock, Package, Summary, Target, TargetKind,
};
use top_crates::selection::{allowed_ids, ResolvedId};
use top_crates::version::{Identifier, Version};

fn release(major: u64, minor: u64, patch: u64) -> Version {
    Version { major, minor, patch, pre: vec![], build: vec![] }
}

fn package(name: &str, version: Version, library: Option<&str>) -> Package {
    let mut targets = vec![Target {
        kind: TargetKind::CustomBuild,
        crate_name: "build_script_build".to_string(),
    }];
    if let Some(library) = library {
        targets.push(Target { kind: TargetKind::Lib, crate_name: library.to_string() });
    }
    Package {
        summary: Summary { name: name.to_string(), version, features: vec![] },
        targets,
        metadata: MetadataBlock::Absent,
    }
}

fn plain(package: &str, version: &str) -> DependencySpec {
    DependencySpec {
        package: package.to_string(),
        version: version.to_string(),
        features: vec![],
        default_features: true,
    }
}

fn info(name: &str, version: &str, id: &str) -> CrateInformation {
    CrateInformation { name: name.to_string(), version: version.to_string(), id: id.to_string() }
}

fn entries(table: &DependencyTable) -> Vec<(String, DependencySpec)> {
    (0..table.len()).map(|i| (table.id(i).clone(), table.spec(i).clone())).collect()
}

#[test]
fn is_true_gives_the_flag() {
    assert!(is_true(&true));
    assert!(!is_true(&false));
}

#[test]
fn exact_version_puts_an_equals_sign_in_front() {
    assert_eq!(exact_version(&"1.2.3".to_string()), "=1.2.3");
    assert_eq!(exact_version(&"0.9.0+1.0.1".to_string()), "=0.9.0+1.0.1");
}

#[test]
fn packages_are_processed_by_name_and_from_the_newest_down() {
    let sorted = arrange(vec![
        package("rand", release(0, 6, 5), Some("rand")),
        package("libc", release(0, 2, 60), Some("libc")),
        package("rand", release(0, 7, 0), Some("rand")),
        package("rand", release(0, 3, 23), Some("rand")),
        package("aho-corasick", release(0, 7, 4), Some("aho_corasick")),
    ]);
    let order: Vec<(String, String)> =
        sorted.iter().map(|p| (p.summary.name.clone(), p.summary.version.to_string())).collect();
    assert_eq!(
        order,
        vec![
            ("aho-corasick".to_string(), "0.7.4".to_string()),
            ("libc".to_string(), "0.2.60".to_string()),
            ("rand".to_string(), "0.7.0".to_string()),
            ("rand".to_string(), "0.6.5".to_string()),
            ("rand".to_string(), "0.3.23".to_string()),
        ]
    );
}

#[test]
fn packages_that_tie_keep_their_order() {
    let mut first = package("x", release(1, 0, 0), Some("first"));
    first.summary.version.build = vec![Identifier::Numeric(1)];
    let mut second = package("x", release(1, 0, 0), Some("second"));
    second.summary.version.build = vec![Identifier::Numeric(2)];
    assert!(!comes_before(&first, &second));
    assert!(!comes_before(&second, &first));
    let newest = package("x", release(2, 0, 0), Some("x"));
    let sorted = arrange(vec![second.clone(), newest, first.clone()]);
    assert_eq!(sorted[1], second);
    assert_eq!(sorted[2], first);
}

#[test]
fn comes_before_goes_by_name_then_by_version_downwards() {
    let a1 = package("a", release(1, 0, 0), None);
    let a2 = package("a", release(2, 0, 0), None);
    let b1 = package("b", release(1, 0, 0), None);
    assert!(comes_before(&a1, &b1));
    assert!(comes_before(&a2, &b1));
    assert!(!comes_before(&b1, &a2));
    assert!(comes_before(&a2, &a1));
    assert!(!comes_before(&a1, &a2));
    assert!(!comes_before(&a1, &a1));
}

#[test]
fn runs_hold_the_versions_of_one_library() {
    let runs = arrange_runs(vec![
        package("b", release(1, 0, 0), Some("b")),
        package("a", release(1, 0, 0), Some("a")),
        package("c", release(0, 1, 0), Some("c")),
        package("a", release(2, 0, 0), Some("a")),
        package("c", release(0, 3, 0), Some("c")),
        package("c", release(0, 2, 0), Some("c")),
    ]);
    let shape: Vec<Vec<String>> = runs
        .iter()
        .map(|run| {
            run.iter()
                .map(|p| format!("{} {}", p.summary.name, p.summary.version.to_string()))
                .collect()
        })
        .collect();
    assert_eq!(
        shape,
        vec![
            vec!["a 2.0.0".to_string(), "a 1.0.0".to_string()],
            vec!["b 1.0.0".to_string()],
            vec!["c 0.3.0".to_string(), "c 0.2.0".to_string(), "c 0.1.0".to_string()],
        ]
    );
    assert!(arrange_runs(vec![]).is_empty());
}

#[test]
fn the_newest_version_gets_the_plain_identifier() {
    let s = synthesize(vec![
        package("foo", release(1, 1, 0), Some("foo")),
        package("foo", release(1, 2, 0), Some("foo")),
    ])
    .unwrap();
    assert_eq!(s.infos, vec![info("foo", "1.2.0", "foo"), info("foo", "1.1.0", "foo_1_1_0")]);
    assert_eq!(
        entries(&s.dependencies),
        vec![
            ("foo".to_string(), plain("foo", "1.2.0")),
            ("foo_1_1_0".to_string(), plain("foo", "1.1.0")),
        ]
    );
}

#[test]
fn the_identifier_is_that_of_the_library_target() {
    let s = synthesize(vec![
        package("serde-json", release(1, 0, 40), Some("serde_json")),
        package("md-5", release(0, 8, 0), Some("md5")),
        package("md-5", release(0, 7, 0), Some("md5")),
    ])
    .unwrap();
    assert_eq!(
        s.infos,
        vec![
            info("md-5", "0.8.0", "md5"),
            info("md-5", "0.7.0", "md5_0_7_0"),
            info("serde-json", "1.0.40", "serde_json"),
        ]
    );
    assert_eq!(s.dependencies.get("md5"), Some(&plain("md-5", "0.8.0")));
    assert_eq!(s.dependencies.get("md5_0_7_0"), Some(&plain("md-5", "0.7.0")));
    assert_eq!(s.dependencies.get("serde_json"), Some(&plain("serde-json", "1.0.40")));
    assert_eq!(s.dependencies.get("md-5"), None);
}

#[test]
fn the_manifest_lists_identifiers_in_ascending_order() {
    let s = synthesize(vec![
        package("zz", release(1, 0, 0), Some("alpha")),
        package("aa", release(1, 0, 0), Some("omega")),
        package("mm", release(2, 0, 0), Some("mm")),
        package("mm", release(1, 0, 0), Some("mm")),
    ])
    .unwrap();
    let ids: Vec<String> = entries(&s.dependencies).into_iter().map(|e| e.0).collect();
    assert_eq!(ids, vec!["alpha", "mm", "mm_1_0_0", "omega"]);
    let index: Vec<String> = s.infos.iter().map(|i| i.id.clone()).collect();
    assert_eq!(index, vec!["omega", "mm", "mm_1_0_0", "alpha"]);
}

#[test]
fn every_identifier_is_listed_once() {
    let s = synthesize(vec![
        package("a", release(1, 0, 0), Some("a")),
        package("a", release(0, 9, 0), Some("a")),
        package("a", release(0, 10, 0), Some("a")),
        package("b", release(1, 0, 0), Some("b")),
        package("b", release(1, 0, 1), Some("b")),
    ])
    .unwrap();
    let mut ids: Vec<String> = s.infos.iter().map(|i| i.id.clone()).collect();
    assert_eq!(ids, vec!["a", "a_0_10_0", "a_0_9_0", "b", "b_1_0_0"]);
    ids.sort();
    ids.dedup();
    assert_eq!(ids.len(), 5);
    assert_eq!(s.dependencies.len(), 5);
}

#[test]
fn two_packages_under_one_identifier_leave_the_later_one_pinned() {
    let s = synthesize(vec![
        package("foo-bar", release(1, 0, 0), Some("foo_bar")),
        package("foo_bar", release(2, 0, 0), Some("foo_bar")),
    ])
    .unwrap();
    assert_eq!(s.infos.len(), 2);
    assert_eq!(entries(&s.dependencies), vec![("foo_bar".to_string(), plain("foo_bar", "2.0.0"))]);
}

#[test]
fn a_package_without_a_library_ends_the_run() {
    let r = synthesize(vec![
        package("serde", release(1, 0, 0), Some("serde")),
        package("cargo-edit", release(0, 3, 0), None),
        package("zz-tool", release(0, 1, 0), None),
    ]);
    assert_eq!(r, Err(PipelineError::MissingLibraryTarget { name: "cargo-edit".to_string() }));
    assert_eq!(r.unwrap_err().message(), "cargo-edit did not have a library");
}

#[test]
fn no_packages_nothing_pinned() {
    let s = synthesize(vec![]).unwrap();
    assert!(s.infos.is_empty());
    assert_eq!(s.dependencies.len(), 0);
}

#[test]
fn the_feature_override_is_pinned() {
    let mut syn = package("syn", release(0, 15, 0), Some("syn"));
    syn.summary.features = vec![
        Feature { name: "default".to_string(), implies: vec!["derive".to_string()] },
        Feature { name: "derive".to_string(), implies: vec![] },
        Feature { name: "full".to_string(), implies: vec![] },
    ];
    syn.metadata = MetadataBlock::Present(Metadata {
        features: vec!["full".to_string(), "derive".to_string()],
        default_features: true,
        all_features: false,
    });
    let mut bare = package("bare", release(1, 0, 0), Some("bare"));
    bare.metadata = MetadataBlock::Present(Metadata {
        features: vec![],
        default_features: false,
        all_features: false,
    });
    let mut broken = package("broken", release(1, 0, 0), Some("broken"));
    broken.metadata = MetadataBlock::Malformed;
    let s = synthesize(vec![syn, bare, broken]).unwrap();
    assert_eq!(
        s.dependencies.get("syn"),
        Some(&DependencySpec {
            package: "syn".to_string(),
            version: "0.15.0".to_string(),
            features: vec!["full".to_string()],
            default_features: true,
        })
    );
    assert_eq!(
        s.dependencies.get("bare"),
        Some(&DependencySpec {
            package: "bare".to_string(),
            version: "1.0.0".to_string(),
            features: vec![],
            default_features: false,
        })
    );
    assert_eq!(s.dependencies.get("broken"), Some(&plain("broken", "1.0.0")));
}

#[test]
fn the_same_packages_give_the_same_output() {
    let packages = vec![
        package("b", release(1, 0, 0), Some("b")),
        package("a", release(1, 0, 0), Some("a")),
        package("a", release(2, 0, 0), Some("a")),
    ];
    let first = synthesize(packages.clone());
    let second = synthesize(packages.clone());
    assert_eq!(first, second);
    let mut turned = packages;
    turned.reverse();
    assert_eq!(synthesize(turned), first);
}

#[test]
fn a_blacklisted_library_is_in_neither_artifact() {
    let m = Modifications { blacklist: vec!["winapi".to_string()], additions: vec![] };
    let resolved = vec![
        ResolvedId { name: "winapi".to_string(), version: release(0, 3, 8) },
        ResolvedId { name: "libc".to_string(), version: release(0, 2, 60) },
        ResolvedId { name: "winapi".to_string(), version: release(0, 2, 8) },
    ];
    let fetched: Vec<Package> = allowed_ids(resolved, &m)
        .into_iter()
        .map(|id| package(&id.name, id.version, Some(&id.name)))
        .collect();
    let s = synthesize(fetched).unwrap();
    assert_eq!(s.infos, vec![info("libc", "0.2.60", "libc")]);
    assert_eq!(entries(&s.dependencies), vec![("libc".to_string(), plain("libc", "0.2.60"))]);
    assert!(s.infos.iter().all(|i| !m.blacklisted(&i.name)));
}

#[test]
fn a_table_keeps_its_identifiers_in_order() {
    let mut table = DependencyTable::new();
    assert_eq!(table.len(), 0);
    table.insert("m".to_string(), plain("m", "1.0.0"));
    table.insert("a".to_string(), plain("a", "1.0.0"));
    table.insert("z".to_string(), plain("z", "1.0.0"));
    table.insert("m".to_string(), plain("m", "2.0.0"));
    assert_eq!(
        entries(&table),
        vec![
            ("a".to_string(), plain("a", "1.0.0")),
            ("m".to_string(), plain("m", "2.0.0")),
            ("z".to_string(), plain("z", "1.0.0")),
        ]
    );
    assert_eq!(table.get("m"), Some(&plain("m", "2.0.0")));
    assert_eq!(table.get("b"), None);
}

#[test]
fn a_row_leaves_out_what_need_not_be_said() {
    let row = plain("libc", "0.2.60").row("libc");
    assert_eq!(
        row,
        DependencyRow {
            package: None,
            version: "=0.2.60".to_string(),
            features: None,
            default_features: None,
        }
    );
}

#[test]
fn a_row_says_what_differs() {
    let spec = DependencySpec {
        package: "md-5".to_string(),
        version: "0.7.0".to_string(),
        features: vec!["asm".to_string(), "std".to_string()],
        default_features: false,
    };
    assert_eq!(
        spec.row("md5_0_7_0"),
        DependencyRow {
            package: Some("md-5".to_string()),
            version: "=0.7.0".to_string(),
            features: Some(vec!["asm".to_string(), "std".to_string()]),
            default_features: Some(false),
        }
    );
}

#[test]
fn the_manifest_has_its_fixed_header_and_profiles() {
    let s = synthesize(vec![
        package("rand", release(0, 7, 0), Some("rand")),
        package("md-5", release(0, 8, 0), Some("md5")),
    ])
    .unwrap();
    let manifest = playground_manifest(s.dependencies.clone());
    assert_eq!(manifest.package.name, "playground");
    assert_eq!(manifest.package.version, "0.0.1");
    assert_eq!(manifest.package.authors, vec!["The Rust Playground".to_string()]);
    assert_eq!(manifest.profile.dev, Profile { codegen_units: 1, incremental: false });
    assert_eq!(manifest.profile.release, Profile { codegen_units: 1, incremental: false });
    assert_eq!(manifest.dependencies, s.dependencies);
    assert_eq!(
        manifest.rows(),
        vec![
            ManifestEntry {
                id: "md5".to_string(),
                row: DependencyRow {
                    package: Some("md-5".to_string()),
                    version: "=0.8.0".to_string(),
                    features: None,
                    default_features: None,
                },
            },
            ManifestEntry {
                id: "rand".to_string(),
                row: DependencyRow {
                    package: None,
                    version: "=0.7.0".to_string(),
                    features: None,
                    default_features: None,
                },
            },
        ]
    );
}
