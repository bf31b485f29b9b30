use cargo_license::details::sort_details;
use cargo_license::metadata::PackageNode;
use cargo_license::order::{compare_numbers, compare_optional_text, compare_text, Order};
use cargo_license::text::{join, replace_newlines, trim, white_space};
use cargo_license::version::Version;
use cargo_license::DependencyDetails;

fn version(major: u64, minor: u64, patch: u64, pre: &str, build: &str) -> Version {
    Version { major, minor, patch, pre: pre.to_string(), build: build.to_string() }
}

fn package() -> PackageNode {
    PackageNode {
        id: "demo 0.3.1".to_string(),
        name: "demo".to_string(),
        version: version(0, 3, 1, "", ""),
        authors: vec!["Ann <ann@example.org>".to_string(), "Bob".to_string()],
        license: Some("MIT/Apache-2.0".to_string()),
        license_file: Some("LICENSE".to_string()),
        repository: Some("https://example.org/demo".to_string()),
        description: Some("  A demo\ncrate. \n".to_string()),
        target_kinds: vec!["lib".to_string()],
    }
}

fn record(name: &str, v: Version) -> DependencyDetails {
    DependencyDetails {
        name: name.to_string(),
        version: v,
        authors: None,
        repository: None,
        license: None,
        license_file: None,
        description: None,
    }
}

#[test]
fn record_of_a_package() {
    let details = DependencyDetails::new(&package());
    assert_eq!(details.name, "demo");
    assert_eq!(details.version, version(0, 3, 1, "", ""));
    assert_eq!(details.authors.as_deref(), Some("Ann <ann@example.org>|Bob"));
    assert_eq!(details.repository.as_deref(), Some("https://example.org/demo"));
    assert_eq!(details.license.as_deref(), Some("Apache-2.0 OR MIT"));
    assert_eq!(details.license_file.as_deref(), Some("LICENSE"));
    assert_eq!(details.description.as_deref(), Some("A demo crate."));
}

#[test]
fn absent_fields_stay_absent() {
    let mut p = package();
    p.authors = vec![];
    p.license = None;
    p.license_file = None;
    p.repository = None;
    p.description = None;
    let details = DependencyDetails::new(&p);
    assert_eq!(details.authors, None);
    assert_eq!(details.repository, None);
    assert_eq!(details.license, None);
    assert_eq!(details.license_file, None);
    assert_eq!(details.description, None);
}

#[test]
fn unparseable_license_is_kept_verbatim() {
    let mut p = package();
    p.license = Some("???not-a-license???".to_string());
    assert_eq!(
        DependencyDetails::new(&p).license.as_deref(),
        Some("???not-a-license???")
    );
}

#[test]
fn description_loses_unicode_white_space_at_its_ends() {
    let mut p = package();
    p.description = Some("\u{a0}\t x\ny \u{3000}\r\n".to_string());
    assert_eq!(DependencyDetails::new(&p).description.as_deref(), Some("x y"));
}

#[test]
fn trim_and_replace() {
    assert_eq!(trim("  a b  "), "a b");
    assert_eq!(trim(""), "");
    assert_eq!(trim(" \n\t "), "");
    assert_eq!(trim("x"), "x");
    assert_eq!(replace_newlines("a\nb\n"), "a b ");
    assert_eq!(replace_newlines(""), "");
    assert_eq!(replace_newlines("é\nü"), "é ü");
}

#[test]
fn join_puts_the_separator_between() {
    assert_eq!(join(&vec![], "|"), "");
    assert_eq!(join(&vec!["a".to_string()], "|"), "a");
    assert_eq!(join(&vec!["a".to_string(), "b".to_string(), "".to_string()], "|"), "a|b|");
}

#[test]
fn text_is_ordered_by_bytes() {
    assert_eq!(compare_text("", ""), Order::Equal);
    assert_eq!(compare_text("", "a"), Order::Less);
    assert_eq!(compare_text("a", ""), Order::Greater);
    assert_eq!(compare_text("Apache-2.0", "Apache-2.0 WITH LLVM-exception"), Order::Less);
    assert_eq!(compare_text("Zlib", "apache"), Order::Less);
    assert_eq!(compare_text("ab", "aa"), Order::Greater);
    assert_eq!(compare_text("é", "z"), Order::Greater);
    assert_eq!(compare_numbers(3, 10), Order::Less);
    assert_eq!(compare_numbers(10, 3), Order::Greater);
    assert_eq!(compare_numbers(7, 7), Order::Equal);
}

#[test]
fn absent_text_comes_first() {
    let a = Some("a".to_string());
    let b = Some("b".to_string());
    assert_eq!(compare_optional_text(&None, &None), Order::Equal);
    assert_eq!(compare_optional_text(&None, &a), Order::Less);
    assert_eq!(compare_optional_text(&a, &None), Order::Greater);
    assert_eq!(compare_optional_text(&a, &b), Order::Less);
    assert_eq!(compare_optional_text(&b, &a), Order::Greater);
    assert_eq!(compare_optional_text(&a, &a), Order::Equal);
}

#[test]
fn versions_are_ordered_by_their_numbers() {
    assert_eq!(version(1, 5, 0, "", "").compare(&version(1, 19, 0, "", "")), Order::Less);
    assert_eq!(version(2, 0, 0, "", "").compare(&version(1, 19, 0, "", "")), Order::Greater);
    assert_eq!(version(1, 0, 1, "", "").compare(&version(1, 0, 0, "", "")), Order::Greater);
    assert_eq!(version(1, 0, 0, "", "").compare(&version(1, 0, 0, "", "")), Order::Equal);
}

#[test]
fn prereleases_are_ordered_as_semver_orders_them() {
    let release = version(1, 0, 0, "", "");
    assert_eq!(version(1, 0, 0, "alpha.1", "").compare(&release), Order::Less);
    assert_eq!(release.compare(&version(1, 0, 0, "rc.1", "")), Order::Greater);
    assert_eq!(
        version(1, 0, 0, "alpha.9", "").compare(&version(1, 0, 0, "alpha.10", "")),
        Order::Less
    );
    assert_eq!(
        version(1, 0, 0, "alpha.1", "").compare(&version(1, 0, 0, "alpha.beta", "")),
        Order::Less
    );
    assert_eq!(
        version(1, 0, 0, "beta", "").compare(&version(1, 0, 0, "alpha.beta", "")),
        Order::Greater
    );
}

#[test]
fn build_metadata_is_ordered_as_semver_orders_it() {
    assert_eq!(
        version(1, 0, 0, "", "9").compare(&version(1, 0, 0, "", "10")),
        Order::Less
    );
    assert_eq!(
        version(1, 0, 0, "", "").compare(&version(1, 0, 0, "", "1")),
        Order::Less
    );
    assert_eq!(
        version(1, 0, 0, "", "b").compare(&version(1, 0, 0, "", "a")),
        Order::Greater
    );
}

#[test]
fn identifiers_that_semver_rejects_are_ordered_as_text() {
    assert_eq!(
        version(1, 0, 0, "not valid", "").compare(&version(1, 0, 0, "not_valid", "")),
        Order::Less
    );
    assert_eq!(
        version(1, 0, 0, "", "?").compare(&version(1, 0, 0, "", "!")),
        Order::Greater
    );
}

#[test]
fn version_order_given_what_semver_says() {
    let a = version(1, 2, 3, "x", "y");
    let b = version(1, 2, 3, "z", "w");
    assert_eq!(a.compare_given(&b, Some(Order::Greater), Some(Order::Less)), Order::Greater);
    assert_eq!(a.compare_given(&b, Some(Order::Equal), Some(Order::Less)), Order::Less);
    assert_eq!(a.compare_given(&b, None, None), Order::Less);
    assert_eq!(a.compare_given(&b, Some(Order::Equal), None), Order::Greater);
    assert_eq!(version(1, 2, 4, "", "").compare_given(&b, Some(Order::Less), None), Order::Greater);
}

#[test]
fn records_are_ordered_field_by_field() {
    let base = DependencyDetails::new(&package());
    let mut other = base.clone();
    assert_eq!(base.compare(&other), Order::Equal);
    other.description = None;
    assert_eq!(base.compare(&other), Order::Greater);
    other.license_file = Some("M".to_string());
    assert_eq!(base.compare(&other), Order::Less);
    other.license = Some("Apache-2.0".to_string());
    assert_eq!(base.compare(&other), Order::Greater);
    other.repository = None;
    assert_eq!(base.compare(&other), Order::Greater);
    other.authors = Some("Zed".to_string());
    assert_eq!(base.compare(&other), Order::Less);
    other.version = version(0, 3, 0, "", "");
    assert_eq!(base.compare(&other), Order::Greater);
    other.name = "demo2".to_string();
    assert_eq!(base.compare(&other), Order::Less);
}

#[test]
fn sort_orders_by_name_then_version() {
    let sorted = sort_details(vec![
        record("b", version(1, 0, 0, "", "")),
        record("a", version(1, 10, 0, "", "")),
        record("a", version(1, 9, 0, "", "")),
        record("a", version(1, 9, 0, "rc.1", "")),
        record("c", version(0, 1, 0, "", "")),
        record("a", version(1, 9, 0, "", "")),
    ]);
    let keys: Vec<(String, u64, String)> = sorted
        .into_iter()
        .map(|d| (d.name, d.version.minor, d.version.pre))
        .collect();
    assert_eq!(
        keys,
        vec![
            ("a".to_string(), 9, "rc.1".to_string()),
            ("a".to_string(), 9, "".to_string()),
            ("a".to_string(), 9, "".to_string()),
            ("a".to_string(), 10, "".to_string()),
            ("b".to_string(), 0, "".to_string()),
            ("c".to_string(), 1, "".to_string()),
        ]
    );
    assert!(sort_details(vec![]).is_empty());
}

#[test]
fn white_space_is_what_the_unicode_property_says() {
    for n in 0..=0x10FFFF_u32 {
        if let Some(c) = char::from_u32(n) {
            assert_eq!(white_space(c), c.is_whitespace(), "U+{n:04X}");
        }
    }
    assert!(white_space(' '));
    assert!(white_space('\n'));
    assert!(white_space('\u{3000}'));
    assert!(!white_space('a'));
    assert!(!white_space('\u{200B}'));
}
