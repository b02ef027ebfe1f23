use top_crates::features::{
    declared_names, find_default_group, playground_metadata_features, remove_names, sorted_names,
};
use top_crates::names::{insert_name, position, remove_name};
use top_crates::package::{
    Feature, Metadata, MetadataBlock, Package, Summary, Target, TargetKind,
};
use top_crates::version::Version;

fn texts(names: &[&str]) -> Vec<String> {
    names.iter().map(|n| n.to_string()).collect()
}

fn feature(name: &str, implies: &[&str]) -> Feature {
    Feature { name: name.to_string(), implies: texts(implies) }
}

fn package(features: Vec<Feature>, metadata: MetadataBlock) -> Package {
    Package {
        summary: Summary {
            name: "lib".to_string(),
            version: Version { major: 1, minor: 0, patch: 0, pre: vec![], build: vec![] },
            features,
        },
        targets: vec![Target { kind: TargetKind::Lib, crate_name: "lib".to_string() }],
        metadata,
    }
}

fn present(features: &[&str], default_features: bool, all_features: bool) -> MetadataBlock {
    MetadataBlock::Present(Metadata { features: texts(features), default_features, all_features })
}

#[test]
fn metadata_defaults() {
    let m = Metadata::default();
    assert!(m.features.is_empty());
    assert!(m.default_features);
    assert!(!m.all_features);
}

#[test]
fn no_metadata_no_override() {
    let declared = vec![feature("default", &["std"]), feature("std", &[])];
    let absent = package(declared.clone(), MetadataBlock::Absent);
    assert_eq!(playground_metadata_features(&absent), None);
    assert_eq!(playground_metadata_features(&package(declared, MetadataBlock::Malformed)), None);
}

#[test]
fn a_block_that_sets_nothing_is_no_override() {
    let p = package(vec![feature("std", &[])], MetadataBlock::Present(Metadata::default()));
    assert_eq!(playground_metadata_features(&p), None);
}

#[test]
fn a_feature_that_the_defaults_imply_is_not_recorded() {
    let p = package(
        vec![feature("default", &["x"]), feature("x", &[])],
        present(&["x"], true, false),
    );
    assert_eq!(playground_metadata_features(&p), None);
}

#[test]
fn features_beside_the_defaults_are_recorded() {
    let p = package(
        vec![feature("default", &["std"]), feature("std", &[]), feature("serde", &[])],
        present(&["std", "serde", "default"], true, false),
    );
    assert_eq!(playground_metadata_features(&p), Some((texts(&["serde"]), true)));
}

#[test]
fn all_features_enables_every_declared_feature() {
    let declared = vec![feature("std", &[]), feature("extra", &[])];
    let p = package(declared.clone(), present(&[], true, true));
    assert_eq!(playground_metadata_features(&p), Some((texts(&["extra", "std"]), true)));
    let q = package(declared, present(&[], false, true));
    assert_eq!(playground_metadata_features(&q), Some((texts(&["extra", "std"]), false)));
}

#[test]
fn all_features_does_not_look_at_the_listed_features() {
    let p = package(
        vec![feature("std", &[]), feature("extra", &[])],
        present(&["nightly"], false, true),
    );
    assert_eq!(playground_metadata_features(&p), Some((texts(&["extra", "std"]), false)));
}

#[test]
fn all_features_without_what_the_defaults_bring() {
    let p = package(
        vec![
            feature("default", &["std", "alloc"]),
            feature("std", &[]),
            feature("alloc", &[]),
            feature("extra", &[]),
            feature("unstable", &["extra"]),
        ],
        present(&[], true, true),
    );
    assert_eq!(playground_metadata_features(&p), Some((texts(&["extra", "unstable"]), true)));
}

#[test]
fn without_the_defaults_nothing_is_taken_out() {
    let p = package(
        vec![feature("default", &["std"]), feature("std", &[])],
        present(&["std", "default"], false, false),
    );
    assert_eq!(playground_metadata_features(&p), Some((texts(&["default", "std"]), false)));
}

#[test]
fn switching_the_defaults_off_is_an_override_by_itself() {
    let p = package(vec![feature("default", &["std"])], present(&[], false, false));
    assert_eq!(playground_metadata_features(&p), Some((vec![], false)));
}

#[test]
fn the_name_default_is_taken_out_where_the_defaults_are_kept() {
    let p = package(vec![feature("std", &[])], present(&["default"], true, false));
    assert_eq!(playground_metadata_features(&p), None);
    let q = package(vec![feature("std", &[])], present(&["default", "std"], true, false));
    assert_eq!(playground_metadata_features(&q), Some((texts(&["std"]), true)));
}

#[test]
fn features_come_out_in_order_and_once() {
    let p = package(vec![], present(&["serde", "std", "alloc", "serde", "std"], true, false));
    assert_eq!(playground_metadata_features(&p), Some((texts(&["alloc", "serde", "std"]), true)));
}

#[test]
fn implied_features_of_other_libraries_are_texts_like_any_other() {
    let p = package(
        vec![feature("default", &["serde/derive", "std"])],
        present(&["serde/derive", "serde/std"], true, false),
    );
    assert_eq!(playground_metadata_features(&p), Some((texts(&["serde/std"]), true)));
}

#[test]
fn the_first_default_group_counts() {
    let declared = vec![feature("a", &[]), feature("default", &["a"]), feature("default", &["b"])];
    assert_eq!(find_default_group(&declared), Some(&feature("default", &["a"])));
    assert_eq!(find_default_group(&vec![feature("a", &["default"])]), None);
    assert_eq!(find_default_group(&vec![]), None);
}

#[test]
fn sorted_names_and_declared_names() {
    assert_eq!(sorted_names(&texts(&["b", "a", "c", "a"])), texts(&["a", "b", "c"]));
    assert_eq!(sorted_names(&vec![]), Vec::<String>::new());
    let declared = vec![feature("std", &["alloc"]), feature("alloc", &[]), feature("std", &[])];
    assert_eq!(declared_names(&declared), texts(&["alloc", "std"]));
}

#[test]
fn names_go_in_and_out_of_an_ascending_list() {
    let mut list = texts(&["b", "d"]);
    insert_name(&mut list, "c".to_string());
    insert_name(&mut list, "a".to_string());
    insert_name(&mut list, "e".to_string());
    insert_name(&mut list, "c".to_string());
    assert_eq!(list, texts(&["a", "b", "c", "d", "e"]));
    assert_eq!(position(&list, "c"), 2);
    assert_eq!(position(&list, "bb"), 2);
    assert_eq!(position(&list, "z"), 5);
    assert_eq!(position(&list, ""), 0);
    remove_name(&mut list, "a");
    remove_name(&mut list, "x");
    remove_name(&mut list, "e");
    assert_eq!(list, texts(&["b", "c", "d"]));
    remove_names(&mut list, &texts(&["d", "b", "d", "q"]));
    assert_eq!(list, texts(&["c"]));
}

#[test]
fn library_name_is_that_of_the_first_library_target() {
    let mut p = package(vec![], MetadataBlock::Absent);
    p.targets = vec![
        Target { kind: TargetKind::CustomBuild, crate_name: "build_script_build".to_string() },
        Target { kind: TargetKind::Bin, crate_name: "tool".to_string() },
        Target { kind: TargetKind::Lib, crate_name: "serde_json".to_string() },
        Target { kind: TargetKind::Lib, crate_name: "other".to_string() },
    ];
    assert_eq!(p.library_name(), Some(&"serde_json".to_string()));
    p.targets.truncate(2);
    assert_eq!(p.library_name(), None);
    p.targets = vec![Target { kind: TargetKind::ExampleLib, crate_name: "demo".to_string() }];
    assert_eq!(p.library_name(), None);
    p.targets.clear();
    assert_eq!(p.library_name(), None);
}
