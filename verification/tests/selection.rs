use top_crates::catalog::Modifications;
use top_crates::error::PipelineError;
use top_crates::package::Summary;
use top_crates::selection::{
    allowed_ids, newest_release, root_requirement, select_root, select_roots, Answer, ResolvedId,
};
use top_crates::version::{Identifier, Version};

fn release(major: u64, minor: u64, patch: u64) -> Version {
    Version { major, minor, patch, pre: vec![], build: vec![] }
}

fn beta(major: u64, minor: u64, patch: u64) -> Version {
    Version {
        major,
        minor,
        patch,
        pre: vec![Identifier::AlphaNumeric("beta".to_string())],
        build: vec![],
    }
}

fn summary(name: &str, version: Version) -> Summary {
    Summary { name: name.to_string(), version, features: vec![] }
}

fn answer(name: &str, versions: Vec<Version>) -> Answer {
    Answer {
        name: name.to_string(),
        matches: versions.into_iter().map(|v| summary(name, v)).collect(),
    }
}

#[test]
fn newest_release_is_the_greatest_version() {
    let a = answer("rand", vec![release(0, 6, 5), release(0, 7, 0), release(0, 3, 23)]);
    assert_eq!(newest_release(&a.matches), Some(1));
}

#[test]
fn newest_release_passes_over_prereleases() {
    let a = answer("rand", vec![release(0, 7, 0), beta(0, 8, 0), beta(1, 0, 0)]);
    assert_eq!(newest_release(&a.matches), Some(0));
    let b = answer("rand", vec![beta(2, 0, 0), release(0, 1, 0), release(0, 2, 0)]);
    assert_eq!(newest_release(&b.matches), Some(2));
}

#[test]
fn newest_release_of_level_versions_is_the_last() {
    let mut built = release(1, 0, 0);
    built.build = vec![Identifier::Numeric(1)];
    let a = answer("x", vec![release(1, 0, 0), release(0, 9, 0), built]);
    assert_eq!(newest_release(&a.matches), Some(2));
}

#[test]
fn no_release_no_selection() {
    assert_eq!(newest_release(&vec![]), None);
    let a = answer("x", vec![beta(1, 0, 0), beta(2, 0, 0)]);
    assert_eq!(newest_release(&a.matches), None);
}

#[test]
fn root_requirement_asks_for_the_defaults_only() {
    let r = root_requirement(summary("serde", release(1, 0, 99)));
    assert_eq!(r.summary, summary("serde", release(1, 0, 99)));
    assert!(!r.dev_deps);
    assert!(r.features.is_empty());
    assert!(r.uses_default_features);
    assert!(!r.all_features);
}

#[test]
fn select_root_takes_the_newest_release() {
    let r = select_root(answer("log", vec![release(0, 3, 9), release(0, 4, 8), beta(0, 5, 0)]));
    assert_eq!(r, Ok(root_requirement(summary("log", release(0, 4, 8)))));
}

#[test]
fn select_root_fails_without_a_release() {
    let r = select_root(answer("ghost", vec![beta(0, 1, 0)]));
    assert_eq!(r, Err(PipelineError::NoViableVersion { name: "ghost".to_string() }));
    let e = select_root(answer("ghost", vec![])).unwrap_err();
    assert_eq!(e.message(), "Registry has no viable versions of ghost");
}

#[test]
fn every_error_has_its_message_and_the_same_status() {
    let errors = vec![
        (
            PipelineError::SourceFetch { detail: "Invalid JSON: eof".to_string() },
            "Invalid JSON: eof",
        ),
        (
            PipelineError::NoViableVersion { name: "rand".to_string() },
            "Registry has no viable versions of rand",
        ),
        (
            PipelineError::CandidateResolution { detail: "Unable to update registry".to_string() },
            "Unable to update registry",
        ),
        (
            PipelineError::MissingLibraryTarget { name: "cargo-edit".to_string() },
            "cargo-edit did not have a library",
        ),
        (PipelineError::OutputWrite { detail: "Couldn't write".to_string() }, "Couldn't write"),
    ];
    for (error, message) in errors {
        assert_eq!(error.message(), message);
        assert_eq!(error.exit_status(), 1);
    }
}

#[test]
fn select_roots_keeps_the_order_of_the_candidates() {
    let r = select_roots(vec![
        answer("b", vec![release(1, 0, 0), release(1, 1, 0)]),
        answer("a", vec![release(0, 2, 0), release(0, 1, 0)]),
    ]);
    assert_eq!(
        r,
        Ok(vec![
            root_requirement(summary("b", release(1, 1, 0))),
            root_requirement(summary("a", release(0, 2, 0))),
        ])
    );
    assert_eq!(select_roots(vec![]), Ok(vec![]));
}

#[test]
fn one_candidate_without_a_release_fails_the_run() {
    let r = select_roots(vec![
        answer("a", vec![release(1, 0, 0)]),
        answer("b", vec![beta(1, 0, 0)]),
        answer("c", vec![]),
    ]);
    assert_eq!(r, Err(PipelineError::NoViableVersion { name: "b".to_string() }));
}

#[test]
fn allowed_ids_drops_blacklisted_libraries() {
    let m = Modifications {
        blacklist: vec!["openssl".to_string(), "winapi".to_string()],
        additions: vec![],
    };
    let id = |name: &str, v: Version| ResolvedId { name: name.to_string(), version: v };
    let resolved = vec![
        id("serde", release(1, 0, 0)),
        id("winapi", release(0, 3, 8)),
        id("rand", release(0, 7, 0)),
        id("winapi", release(0, 2, 8)),
        id("openssl", release(0, 10, 0)),
        id("openssl-sys", release(0, 9, 0)),
    ];
    assert_eq!(
        allowed_ids(resolved, &m),
        vec![
            id("serde", release(1, 0, 0)),
            id("rand", release(0, 7, 0)),
            id("openssl-sys", release(0, 9, 0)),
        ]
    );
    assert_eq!(allowed_ids(vec![], &m), vec![]);
}
