use top_crates::catalog::{candidate_set, Crate, Modifications, TopCrates};

fn top(names: &[&str]) -> TopCrates {
    TopCrates { crates: names.iter().map(|n| Crate { name: n.to_string() }).collect() }
}

fn modifications(blacklist: &[&str], additions: &[&str]) -> Modifications {
    Modifications {
        blacklist: blacklist.iter().map(|n| n.to_string()).collect(),
        additions: additions.iter().map(|n| n.to_string()).collect(),
    }
}

#[test]
fn blacklisted_finds_a_listed_name() {
    let m = modifications(&["libressl-pnacl-sys", "pnacl-build-helper"], &[]);
    assert!(m.blacklisted("pnacl-build-helper"));
    assert!(m.blacklisted("libressl-pnacl-sys"));
}

#[test]
fn blacklisted_is_false_for_other_names() {
    let m = modifications(&["libressl-pnacl-sys"], &["libressl-pnacl"]);
    assert!(!m.blacklisted("libressl-pnacl"));
    assert!(!m.blacklisted("libressl-pnacl-sys2"));
    assert!(!m.blacklisted(""));
    assert!(!modifications(&[], &[]).blacklisted("serde"));
}

#[test]
fn add_curated_crates_appends_in_order() {
    let mut t = top(&["serde", "rand"]);
    t.add_curated_crates(&modifications(&[], &["aho-corasick", "zip"]));
    assert_eq!(t, top(&["serde", "rand", "aho-corasick", "zip"]));
}

#[test]
fn add_curated_crates_without_additions_changes_nothing() {
    let mut t = top(&["serde"]);
    t.add_curated_crates(&modifications(&["rand"], &[]));
    assert_eq!(t, top(&["serde"]));
}

#[test]
fn candidates_keep_the_order_of_first_occurrence() {
    let t = top(&["syn", "libc", "syn", "rand", "libc"]);
    let c = t.candidates(&modifications(&[], &[]));
    assert_eq!(c, vec!["syn".to_string(), "libc".to_string(), "rand".to_string()]);
}

#[test]
fn a_name_both_popular_and_added_is_a_candidate_once() {
    let c = candidate_set(top(&["serde", "rand"]), &modifications(&[], &["rand", "zip"]));
    assert_eq!(c, vec!["serde".to_string(), "rand".to_string(), "zip".to_string()]);
    assert_eq!(c.iter().filter(|n| n.as_str() == "rand").count(), 1);
}

#[test]
fn a_blacklisted_name_is_no_candidate() {
    let m = modifications(&["rand", "zip"], &["zip", "regex"]);
    let c = candidate_set(top(&["serde", "rand", "log"]), &m);
    assert_eq!(c, vec!["serde".to_string(), "log".to_string(), "regex".to_string()]);
}

#[test]
fn no_candidates_from_nothing() {
    let c = candidate_set(top(&[]), &modifications(&["rand"], &[]));
    assert!(c.is_empty());
}
