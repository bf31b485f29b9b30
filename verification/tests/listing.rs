use cargo_license::gitlab::{
    add_license, licenses_of_tokens, merge_licenses, GitlabLicense, GitlabLicenseScanningReport,
};
use cargo_license::listing::{group_by_license, sorted_unique};
use cargo_license::parse::PostfixToken;
use cargo_license::requirement::LicenseRequirement;
use cargo_license::version::Version;
use cargo_license::DependencyDetails;

fn listed(name: &str, license: Option<&str>, file: Option<&str>, authors: Option<&str>) -> DependencyDetails {
    DependencyDetails {
        name: name.to_string(),
        version: Version::new(1, 0, 0),
        authors: authors.map(str::to_string),
        repository: None,
        license: license.map(str::to_string),
        license_file: file.map(str::to_string),
        description: None,
    }
}

fn gitlab_license(id: &str, name: &str) -> GitlabLicense {
    GitlabLicense { id: id.to_string(), name: name.to_string(), url: String::new() }
}

#[test]
fn label_of_a_record() {
    assert_eq!(listed("a", Some("MIT"), Some("LICENSE"), None).license_label(), "MIT");
    assert_eq!(listed("a", None, Some("LICENSE"), None).license_label(), "Custom License File");
    assert_eq!(listed("a", None, None, None).license_label(), "N/A");
    assert_eq!(listed("a", None, None, Some("Ann")).authors_label(), "Ann");
    assert_eq!(listed("a", None, None, None).authors_label(), "N/A");
}

#[test]
fn records_are_grouped_by_label() {
    let groups = group_by_license(vec![
        listed("z", Some("MIT"), None, Some("Zed")),
        listed("b", Some("Apache-2.0 OR MIT"), None, None),
        listed("c", None, None, None),
        listed("a", Some("MIT"), None, Some("Ann")),
        listed("d", None, Some("COPYING"), Some("Ann")),
        listed("m", Some("MIT"), None, Some("Zed")),
    ]);
    let labels: Vec<&str> = groups.iter().map(|g| g.license.as_str()).collect();
    assert_eq!(labels, vec!["Apache-2.0 OR MIT", "Custom License File", "MIT", "N/A"]);
    assert_eq!(groups[2].names(), vec!["z", "a", "m"]);
    assert_eq!(groups[2].authors(), vec!["Ann", "Zed"]);
    assert_eq!(groups[0].names(), vec!["b"]);
    assert_eq!(groups[0].authors(), vec!["N/A"]);
    assert_eq!(groups[3].crates.len(), 1);
    assert!(group_by_license(vec![]).is_empty());
}

#[test]
fn sorted_unique_sorts_and_drops_repetitions() {
    let texts = vec!["b", "a", "c", "a", "", "b"].into_iter().map(str::to_string).collect();
    assert_eq!(sorted_unique(texts), vec!["", "a", "b", "c"]);
    assert!(sorted_unique(vec![]).is_empty());
}

#[test]
fn licenses_are_added_once() {
    let mut list = vec![gitlab_license("MIT", "MIT License")];
    add_license(&mut list, gitlab_license("Zlib", "zlib License"));
    add_license(&mut list, gitlab_license("MIT", "another name"));
    assert_eq!(
        list,
        vec![gitlab_license("MIT", "MIT License"), gitlab_license("Zlib", "zlib License")]
    );
    let more = vec![
        gitlab_license("Zlib", "zlib License"),
        gitlab_license("ISC", "ISC License"),
        gitlab_license("ISC", "ISC License"),
    ];
    merge_licenses(&mut list, &more);
    let ids: Vec<&str> = list.iter().map(|l| l.id.as_str()).collect();
    assert_eq!(ids, vec!["MIT", "Zlib", "ISC"]);
}

#[test]
fn licenses_of_tokens_are_those_of_the_spdx_list() {
    let tokens = vec![
        PostfixToken::Requirement(LicenseRequirement::new("MIT".to_string())),
        PostfixToken::Requirement(LicenseRequirement::new("LicenseRef-mine".to_string())),
        PostfixToken::Operator(cargo_license::expr::Operator::Or),
        PostfixToken::Requirement(LicenseRequirement::with_exception(
            "Apache-2.0".to_string(),
            "LLVM-exception".to_string(),
        )),
        PostfixToken::Requirement(LicenseRequirement::new("MIT".to_string())),
    ];
    assert_eq!(
        licenses_of_tokens(&tokens),
        vec![
            gitlab_license("MIT", "MIT License"),
            gitlab_license("Apache-2.0", "Apache License 2.0"),
        ]
    );
}

#[test]
fn licenses_of_a_record() {
    let both = listed("a", Some("(Apache-2.0 OR MIT) AND MIT"), None, None);
    assert_eq!(
        GitlabLicense::parse_licenses(&both).unwrap(),
        vec![
            gitlab_license("Apache-2.0", "Apache License 2.0"),
            gitlab_license("MIT", "MIT License"),
        ]
    );
    assert!(GitlabLicense::parse_licenses(&listed("a", None, None, None)).unwrap().is_empty());
    assert!(GitlabLicense::parse_licenses(&listed("a", Some("LicenseRef-x"), None, None))
        .unwrap()
        .is_empty());
    assert!(GitlabLicense::parse_licenses(&listed("a", Some("no license at all"), None, None)).is_err());
    assert!(GitlabLicense::parse_licenses(&listed("a", Some("NoSuchLicense"), None, None)).is_err());
}

#[test]
fn gitlab_report_lists_every_license_once() {
    let report = GitlabLicenseScanningReport::try_from(&[
        listed("a", Some("Apache-2.0 OR MIT"), None, None),
        listed("b", None, Some("LICENSE"), None),
        listed("c", Some("MIT AND Zlib"), None, None),
    ])
    .unwrap();
    assert_eq!(report.version, "2.1");
    let ids: Vec<&str> = report.licenses.iter().map(|l| l.id.as_str()).collect();
    assert_eq!(ids, vec!["Apache-2.0", "MIT", "Zlib"]);
    assert!(report.licenses.iter().all(|l| l.url.is_empty()));
    assert_eq!(report.dependencies.len(), 3);
    assert_eq!(report.dependencies[0].name, "a");
    assert_eq!(report.dependencies[0].version, Version::new(1, 0, 0));
    assert_eq!(report.dependencies[0].package_manager, "cargo");
    assert_eq!(report.dependencies[0].path, "");
    assert_eq!(report.dependencies[0].licenses, vec!["Apache-2.0", "MIT"]);
    assert!(report.dependencies[1].licenses.is_empty());
    assert_eq!(report.dependencies[2].licenses, vec!["MIT", "Zlib"]);
}

#[test]
fn gitlab_report_fails_on_a_malformed_license() {
    let outcome = GitlabLicenseScanningReport::try_from(&[
        listed("a", Some("MIT"), None, None),
        listed("b", Some("(MIT"), None, None),
    ]);
    assert!(outcome.is_err());
    let empty: [DependencyDetails; 0] = [];
    let report = GitlabLicenseScanningReport::try_from(&empty).unwrap();
    assert!(report.licenses.is_empty());
    assert!(report.dependencies.is_empty());
}
