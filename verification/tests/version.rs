use top_crates::text::{before, decimal_text, listed, same};
use top_crates::version::{dotted_text, tag_precedes, Identifier, Version};

fn num(n: u64) -> Identifier {
    Identifier::Numeric(n)
}

fn alpha(s: &str) -> Identifier {
    Identifier::AlphaNumeric(s.to_string())
}

fn release(major: u64, minor: u64, patch: u64) -> Version {
    Version { major, minor, patch, pre: vec![], build: vec![] }
}

fn pre(major: u64, minor: u64, patch: u64, pre: Vec<Identifier>) -> Version {
    Version { major, minor, patch, pre, build: vec![] }
}

#[test]
fn texts_are_ordered_by_their_bytes() {
    assert!(before("a", "b"));
    assert!(!before("b", "a"));
    assert!(before("ab", "abc"));
    assert!(!before("abc", "ab"));
    assert!(before("", "a"));
    assert!(!before("", ""));
    assert!(!before("serde", "serde"));
    assert!(before("Z", "a"));
    assert!(before("foo-bar", "foo_bar"));
    assert!(before("z", "\u{e9}"));
    assert!(before("\u{e9}", "\u{4e2d}"));
}

#[test]
fn text_order_agrees_with_the_order_of_strings() {
    let samples =
        ["", "a", "ab", "abc", "b", "B", "foo_1_2_3", "foo", "\u{e9}", "z", "0", "10", "9"];
    for x in samples.iter() {
        for y in samples.iter() {
            assert_eq!(before(x, y), x < y);
            assert_eq!(same(x, y), x == y);
        }
    }
}

#[test]
fn listed_looks_for_the_whole_text() {
    let names = vec!["serde".to_string(), "serde_json".to_string()];
    assert!(listed(&names, "serde"));
    assert!(listed(&names, "serde_json"));
    assert!(!listed(&names, "serde_"));
    assert!(!listed(&vec![], "serde"));
}

#[test]
fn decimal_text_writes_numbers() {
    assert_eq!(decimal_text(0), "0");
    assert_eq!(decimal_text(7), "7");
    assert_eq!(decimal_text(10), "10");
    assert_eq!(decimal_text(109), "109");
    assert_eq!(decimal_text(1234567890), "1234567890");
    assert_eq!(decimal_text(u64::MAX), "18446744073709551615");
}

#[test]
fn versions_go_by_their_numbers() {
    assert!(release(1, 1, 0).precedes(&release(1, 2, 0)));
    assert!(!release(1, 2, 0).precedes(&release(1, 1, 0)));
    assert!(release(1, 9, 9).precedes(&release(2, 0, 0)));
    assert!(release(1, 2, 3).precedes(&release(1, 2, 4)));
    assert!(release(0, 9, 0).precedes(&release(0, 10, 0)));
    assert!(!release(1, 2, 3).precedes(&release(1, 2, 3)));
    assert!(!release(2, 0, 0).precedes(&release(1, 99, 99)));
}

#[test]
fn a_prerelease_comes_before_its_release() {
    let alpha1 = pre(1, 0, 0, vec![alpha("alpha"), num(1)]);
    assert!(alpha1.is_prerelease());
    assert!(!release(1, 0, 0).is_prerelease());
    assert!(alpha1.precedes(&release(1, 0, 0)));
    assert!(!release(1, 0, 0).precedes(&alpha1));
    assert!(release(0, 9, 9).precedes(&alpha1));
    assert!(alpha1.precedes(&release(1, 0, 1)));
}

#[test]
fn prerelease_tags_go_part_by_part() {
    let a = pre(1, 0, 0, vec![alpha("alpha")]);
    let a1 = pre(1, 0, 0, vec![alpha("alpha"), num(1)]);
    let a2 = pre(1, 0, 0, vec![alpha("alpha"), num(2)]);
    let a10 = pre(1, 0, 0, vec![alpha("alpha"), num(10)]);
    let abeta = pre(1, 0, 0, vec![alpha("alpha"), alpha("beta")]);
    let beta = pre(1, 0, 0, vec![alpha("beta")]);
    let rc = pre(1, 0, 0, vec![alpha("rc"), num(1)]);
    let order = [&a, &a1, &a2, &a10, &abeta, &beta, &rc];
    for i in 0..order.len() {
        for j in 0..order.len() {
            assert_eq!(order[i].precedes(order[j]), i < j);
        }
    }
    assert!(tag_precedes(&vec![num(99)], &vec![alpha("0a")]));
    assert!(!tag_precedes(&vec![], &vec![]));
    assert!(tag_precedes(&vec![], &vec![num(0)]));
}

#[test]
fn build_metadata_plays_no_part_in_precedence() {
    let plain = release(1, 0, 0);
    let built = Version { major: 1, minor: 0, patch: 0, pre: vec![], build: vec![num(5)] };
    assert!(!plain.precedes(&built));
    assert!(!built.precedes(&plain));
    assert!(!built.is_prerelease());
}

#[test]
fn version_text_is_the_usual_one() {
    assert_eq!(release(1, 2, 0).to_string(), "1.2.0");
    assert_eq!(release(0, 0, 0).to_string(), "0.0.0");
    assert_eq!(release(10, 20, 305).to_string(), "10.20.305");
    assert_eq!(pre(1, 0, 0, vec![alpha("alpha"), num(1)]).to_string(), "1.0.0-alpha.1");
    let full = Version {
        major: 111,
        minor: 6,
        patch: 0,
        pre: vec![alpha("rc"), num(2)],
        build: vec![num(1), num(1), alpha("1d")],
    };
    assert_eq!(full.to_string(), "111.6.0-rc.2+1.1.1d");
    let built = Version { major: 0, minor: 9, patch: 0, pre: vec![], build: vec![alpha("x")] };
    assert_eq!(built.to_string(), "0.9.0+x");
}

#[test]
fn triple_joins_the_numbers() {
    assert_eq!(release(1, 1, 0).triple("_"), "1_1_0");
    assert_eq!(pre(0, 12, 7, vec![alpha("beta")]).triple("_"), "0_12_7");
    assert_eq!(release(3, 2, 1).triple("."), "3.2.1");
}

#[test]
fn dotted_text_puts_dots_between_parts() {
    assert_eq!(dotted_text(&vec![]), "");
    assert_eq!(dotted_text(&vec![num(4)]), "4");
    assert_eq!(dotted_text(&vec![alpha("rc"), num(0), alpha("x-y")]), "rc.0.x-y");
    assert_eq!(num(42).to_string(), "42");
    assert_eq!(alpha("beta").to_string(), "beta");
}

#[test]
fn identifiers_put_numbers_before_texts() {
    assert!(num(1).precedes(&num(2)));
    assert!(!num(2).precedes(&num(2)));
    assert!(num(1000).precedes(&alpha("a")));
    assert!(!alpha("a").precedes(&num(1000)));
    assert!(alpha("a").precedes(&alpha("b")));
    assert!(!alpha("b").precedes(&alpha("a")));
}
