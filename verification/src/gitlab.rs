//! The license scanning report in the form that GitLab reads: the
//! dependencies with the licenses of the SPDX list that their license
//! expressions name, and the list of those licenses.

use crate::details::{models, DependencyDetails, DetailsModel};
use crate::error::MalformedLicenseExpression;
use crate::parse::{items, postfix_read, read_postfix, PostfixItem, PostfixToken};
use crate::text::texts;
use crate::version::{Version, VersionModel};
use vstd::prelude::*;
use vstd::string::*;

verus! {

/// The identifier and the full name of a license of the SPDX list.
#[derive(Clone, Debug, PartialEq, Eq)]
pub struct LicenseNames {
    pub id: String,
    pub name: String,
}

/// The names of a license, as a value.
pub struct LicenseNamesModel {
    pub id: Seq<char>,
    pub name: Seq<char>,
}

impl View for LicenseNames {
    type V = LicenseNamesModel;

    open spec fn view(&self) -> LicenseNamesModel {
        LicenseNamesModel { id: self.id@, name: self.name@ }
    }
}

/// A license as the report lists it.
#[derive(Clone, Debug, Hash, PartialEq, Eq)]
pub struct GitlabLicense {
    pub id: String,
    pub name: String,
    pub url: String,
}

/// A license of the report, as a value.
pub struct GitlabLicenseModel {
    pub id: Seq<char>,
    pub name: Seq<char>,
    pub url: Seq<char>,
}

impl View for GitlabLicense {
    type V = GitlabLicenseModel;

    open spec fn view(&self) -> GitlabLicenseModel {
        GitlabLicenseModel { id: self.id@, name: self.name@, url: self.url@ }
    }
}

/// A dependency as the report lists it, with the identifiers of its
/// licenses.
#[derive(Clone, Debug, Hash, PartialEq, Eq)]
pub struct GitlabDependency {
    pub name: String,
    pub version: Version,
    pub package_manager: String,
    pub path: String,
    pub licenses: Vec<String>,
}

/// A dependency of the report, as a value.
pub struct GitlabDependencyModel {
    pub name: Seq<char>,
    pub version: VersionModel,
    pub package_manager: Seq<char>,
    pub path: Seq<char>,
    pub licenses: Seq<Seq<char>>,
}

impl View for GitlabDependency {
    type V = GitlabDependencyModel;

    open spec fn view(&self) -> GitlabDependencyModel {
        GitlabDependencyModel {
            name: self.name@,
            version: self.version@,
            package_manager: self.package_manager@,
            path: self.path@,
            licenses: texts(self.licenses@),
        }
    }
}

/// The license scanning report. No license is listed twice.
#[derive(Clone, Debug, PartialEq, Eq)]
pub struct GitlabLicenseScanningReport {
    pub version: String,
    pub licenses: Vec<GitlabLicense>,
    pub dependencies: Vec<GitlabDependency>,
}

/// A report, as a value.
pub struct GitlabReportModel {
    pub version: Seq<char>,
    pub licenses: Seq<GitlabLicenseModel>,
    pub dependencies: Seq<GitlabDependencyModel>,
}

impl View for GitlabLicenseScanningReport {
    type V = GitlabReportModel;

    open spec fn view(&self) -> GitlabReportModel {
        GitlabReportModel {
            version: self.version@,
            licenses: license_models(self.licenses@),
            dependencies: dependency_models(self.dependencies@),
        }
    }
}

/// The licenses that a list holds.
pub open spec fn license_models(list: Seq<GitlabLicense>) -> Seq<GitlabLicenseModel> {
    Seq::new(list.len(), |i: int| list[i]@)
}

/// The dependencies that a list holds.
pub open spec fn dependency_models(list: Seq<GitlabDependency>) -> Seq<GitlabDependencyModel> {
    Seq::new(list.len(), |i: int| list[i]@)
}

/// The names that the outcome of a lookup stands for.
pub open spec fn optional_names(names: Option<LicenseNames>) -> Option<LicenseNamesModel> {
    match names {
        Some(n) => Some(n@),
        None => None,
    }
}

/// The license of the SPDX list that `spdx` finds for an identifier;
/// `None` where it finds none.
pub uninterp spec fn spdx_license(license: Seq<char>) -> Option<LicenseNamesModel>;

/// Calls `spdx::license_id`, which looks an identifier up in the SPDX
/// license list, a `+` at its end left aside, and hands out the `name` and
/// the `full_name` of what it found. The contract names the outcome and
/// claims nothing else of it.
#[verifier::external_body]
fn lookup_license(license: &str) -> (r: Option<LicenseNames>)
    ensures
        optional_names(r) == spdx_license(license@),
{
    spdx::license_id(license).map(|id| LicenseNames {
        id: id.name.to_owned(),
        name: id.full_name.to_owned(),
    })
}

/// The version of the report format.
pub open spec fn report_version() -> Seq<char> {
    "2.1"@
}

/// The package manager of every dependency of the report.
pub open spec fn package_manager() -> Seq<char> {
    "cargo"@
}

/// The license with the given names as the report lists it.
pub open spec fn gitlab_license(names: LicenseNamesModel) -> GitlabLicenseModel {
    GitlabLicenseModel { id: names.id, name: names.name, url: Seq::empty() }
}

/// Some license of the list has the identifier.
pub open spec fn holds_id(list: Seq<GitlabLicenseModel>, id: Seq<char>) -> bool {
    exists|i: int| 0 <= i < list.len() && (#[trigger] list[i]).id == id
}

/// No two licenses of the list have one identifier.
pub open spec fn unique_ids(list: Seq<GitlabLicenseModel>) -> bool {
    forall|i: int, j: int| 0 <= i < j < list.len() ==> list[i].id != list[j].id
}

/// The list with the license at its end, unless it holds a license with
/// the identifier already.
pub open spec fn with_license(list: Seq<GitlabLicenseModel>, license: GitlabLicenseModel) -> Seq<
    GitlabLicenseModel,
> {
    if holds_id(list, license.id) {
        list
    } else {
        list.push(license)
    }
}

/// The list with the licenses of `more` added one by one.
pub open spec fn merged(list: Seq<GitlabLicenseModel>, more: Seq<GitlabLicenseModel>) -> Seq<
    GitlabLicenseModel,
>
    decreases more.len(),
{
    if more.len() == 0 {
        list
    } else {
        with_license(merged(list, more.drop_last()), more.last())
    }
}

/// The licenses of the SPDX list that the requirements among the elements
/// name, each once, in the order in which they are first named.
pub open spec fn licenses_of_items(items: Seq<PostfixItem>) -> Seq<GitlabLicenseModel>
    decreases items.len(),
{
    if items.len() == 0 {
        Seq::empty()
    } else {
        let front = licenses_of_items(items.drop_last());
        match items.last() {
            PostfixItem::Requirement(r) => match spdx_license(r.license) {
                Some(names) => with_license(front, gitlab_license(names)),
                None => front,
            },
            PostfixItem::Operator(_) => front,
        }
    }
}

/// The licenses of a record: none where it has no license expression, and
/// `None` where the parser rejects its license expression.
pub open spec fn licenses_of(d: DetailsModel) -> Option<Seq<GitlabLicenseModel>> {
    match d.license {
        None => Some(Seq::empty()),
        Some(l) => match postfix_read(l, false) {
            Some(items) => Some(licenses_of_items(items)),
            None => None,
        },
    }
}

/// The identifiers of the licenses, in their order.
pub open spec fn ids_of(list: Seq<GitlabLicenseModel>) -> Seq<Seq<char>> {
    Seq::new(list.len(), |i: int| list[i].id)
}

/// The dependency of the report for a record with the given licenses.
pub open spec fn gitlab_dependency(
    d: DetailsModel,
    licenses: Seq<GitlabLicenseModel>,
) -> GitlabDependencyModel {
    GitlabDependencyModel {
        name: d.name,
        version: d.version,
        package_manager: package_manager(),
        path: Seq::empty(),
        licenses: ids_of(licenses),
    }
}

/// The report of the records: for each record its dependency, and the
/// licenses of all records, each once, in the order in which they are
/// first named. `None` where the parser rejects the license expression of
/// a record.
pub open spec fn gitlab_report_of(list: Seq<DetailsModel>) -> Option<GitlabReportModel>
    decreases list.len(),
{
    if list.len() == 0 {
        Some(
            GitlabReportModel {
                version: report_version(),
                licenses: Seq::empty(),
                dependencies: Seq::empty(),
            },
        )
    } else {
        match (gitlab_report_of(list.drop_last()), licenses_of(list.last())) {
            (Some(front), Some(licenses)) => Some(
                GitlabReportModel {
                    version: report_version(),
                    licenses: merged(front.licenses, licenses),
                    dependencies: front.dependencies.push(
                        gitlab_dependency(list.last(), licenses),
                    ),
                },
            ),
            _ => None,
        }
    }
}

/// Adding a license keeps the identifiers of a list unique.
pub proof fn lemma_with_license_unique(list: Seq<GitlabLicenseModel>, license: GitlabLicenseModel)
    requires
        unique_ids(list),
    ensures
        unique_ids(with_license(list, license)),
{
    if !holds_id(list, license.id) {
        let r = list.push(license);
        assert forall|i: int, j: int| 0 <= i < j < r.len() implies r[i].id != r[j].id by {
            if j == list.len() {
                assert(r[i] == list[i]);
            }
        }
    }
}

/// Merging lists keeps the identifiers unique.
pub proof fn lemma_merged_unique(list: Seq<GitlabLicenseModel>, more: Seq<GitlabLicenseModel>)
    requires
        unique_ids(list),
    ensures
        unique_ids(merged(list, more)),
    decreases more.len(),
{
    if more.len() > 0 {
        lemma_merged_unique(list, more.drop_last());
        lemma_with_license_unique(merged(list, more.drop_last()), more.last());
    }
}

/// The licenses that elements name have unique identifiers.
pub proof fn lemma_licenses_of_items_unique(items: Seq<PostfixItem>)
    ensures
        unique_ids(licenses_of_items(items)),
    decreases items.len(),
{
    if items.len() > 0 {
        lemma_licenses_of_items_unique(items.drop_last());
        match items.last() {
            PostfixItem::Requirement(r) => match spdx_license(r.license) {
                Some(names) => {
                    lemma_with_license_unique(
                        licenses_of_items(items.drop_last()),
                        gitlab_license(names),
                    );
                },
                None => {},
            },
            PostfixItem::Operator(_) => {},
        }
    }
}

/// The licenses of a report have unique identifiers.
pub proof fn lemma_report_licenses_unique(list: Seq<DetailsModel>)
    ensures
        gitlab_report_of(list) matches Some(report) ==> unique_ids(report.licenses),
    decreases list.len(),
{
    if list.len() > 0 {
        lemma_report_licenses_unique(list.drop_last());
        match (gitlab_report_of(list.drop_last()), licenses_of(list.last())) {
            (Some(front), Some(licenses)) => {
                lemma_merged_unique(front.licenses, licenses);
            },
            _ => {},
        }
    }
}

/// Puts the license at the end of the list, unless the list holds a license
/// with its identifier already.
pub fn add_license(list: &mut Vec<GitlabLicense>, license: GitlabLicense)
    ensures
        license_models(final(list)@) == with_license(license_models(old(list)@), license@),
{
    let ghost before = license_models(list@);
    let mut i: usize = 0;
    while i < list.len()
        invariant
            i <= list.len(),
            list@ == old(list)@,
            before == license_models(list@),
            forall|k: int| 0 <= k < i ==> (#[trigger] before[k]).id != license@.id,
        decreases list.len() - i,
    {
        if list[i].id == license.id {
            assert(before[i as int].id == license@.id);
            return ;
        }
        assert(before[i as int].id != license@.id);
        i = i + 1;
    }
    assert(!holds_id(before, license@.id));
    list.push(license);
    assert(license_models(list@) =~= before.push(license@));
}

/// Adds the licenses of `more` to the list one by one.
pub fn merge_licenses(list: &mut Vec<GitlabLicense>, more: &Vec<GitlabLicense>)
    ensures
        license_models(final(list)@) == merged(license_models(old(list)@), license_models(more@)),
{
    let mut i: usize = 0;
    while i < more.len()
        invariant
            i <= more.len(),
            license_models(list@) == merged(
                license_models(old(list)@),
                license_models(more@).take(i as int),
            ),
        decreases more.len() - i,
    {
        proof {
            let all = license_models(more@);
            assert(all.take(i + 1).drop_last() =~= all.take(i as int));
            assert(all.take(i + 1).last() == more@[i as int]@);
        }
        let license = GitlabLicense {
            id: more[i].id.clone(),
            name: more[i].name.clone(),
            url: more[i].url.clone(),
        };
        add_license(list, license);
        i = i + 1;
    }
    assert(license_models(more@).take(more.len() as int) =~= license_models(more@));
}

/// The licenses of the SPDX list that the requirements among the tokens
/// name, each once, in the order in which they are first named.
pub fn licenses_of_tokens(tokens: &Vec<PostfixToken>) -> (r: Vec<GitlabLicense>)
    ensures
        license_models(r@) == licenses_of_items(items(tokens@)),
        unique_ids(license_models(r@)),
{
    let ghost all = items(tokens@);
    let mut out: Vec<GitlabLicense> = Vec::new();
    let mut i: usize = 0;
    while i < tokens.len()
        invariant
            i <= tokens.len(),
            all == items(tokens@),
            license_models(out@) == licenses_of_items(all.take(i as int)),
        decreases tokens.len() - i,
    {
        proof {
            assert(all.take(i + 1).drop_last() =~= all.take(i as int));
            assert(all.take(i + 1).last() == tokens@[i as int]@);
        }
        match &tokens[i] {
            PostfixToken::Requirement(r) => {
                match lookup_license(r.license.as_str()) {
                    Some(names) => {
                        let license = GitlabLicense {
                            id: names.id,
                            name: names.name,
                            url: String::new(),
                        };
                        add_license(&mut out, license);
                    },
                    None => {},
                }
            },
            PostfixToken::Operator(_) => {},
        }
        i = i + 1;
    }
    proof {
        assert(all.take(tokens.len() as int) =~= all);
        lemma_licenses_of_items_unique(all);
    }
    out
}

/// The licenses that the outcome stands for.
pub open spec fn licenses_outcome(
    outcome: Result<Vec<GitlabLicense>, MalformedLicenseExpression>,
) -> Option<Seq<GitlabLicenseModel>> {
    match outcome {
        Ok(list) => Some(license_models(list@)),
        Err(_) => None,
    }
}

/// The report that the outcome stands for.
pub open spec fn report_outcome(
    outcome: Result<GitlabLicenseScanningReport, MalformedLicenseExpression>,
) -> Option<GitlabReportModel> {
    match outcome {
        Ok(report) => Some(report@),
        Err(_) => None,
    }
}

impl GitlabLicense {
    /// The licenses of the SPDX list that the license expression of a record
    /// names, each once. A record without a license expression has none;
    /// one whose license expression the parser rejects is malformed.
    pub fn parse_licenses(dependency: &DependencyDetails) -> (r: Result<
        Vec<GitlabLicense>,
        MalformedLicenseExpression,
    >)
        ensures
            licenses_outcome(r) == licenses_of(dependency@),
            r matches Ok(list) ==> unique_ids(license_models(list@)),
    {
        match &dependency.license {
            None => {
                let none: Vec<GitlabLicense> = Vec::new();
                assert(license_models(none@) =~= Seq::<GitlabLicenseModel>::empty());
                Ok(none)
            },
            Some(license) => match read_postfix(license.as_str(), false) {
                None => Err(MalformedLicenseExpression),
                Some(tokens) => Ok(licenses_of_tokens(&tokens)),
            },
        }
    }
}

/// The identifiers of the licenses, in their order.
fn license_ids(list: &Vec<GitlabLicense>) -> (r: Vec<String>)
    ensures
        texts(r@) == ids_of(license_models(list@)),
{
    let mut out: Vec<String> = Vec::new();
    let mut i: usize = 0;
    while i < list.len()
        invariant
            i <= list.len(),
            texts(out@) == ids_of(license_models(list@)).take(i as int),
        decreases list.len() - i,
    {
        out.push(list[i].id.clone());
        assert(ids_of(license_models(list@))[i as int] == list@[i as int].id@);
        assert(texts(out@) =~= ids_of(license_models(list@)).take(i as int).push(
            list@[i as int].id@,
        ));
        assert(texts(out@) =~= ids_of(license_models(list@)).take(i + 1));
        i = i + 1;
    }
    assert(ids_of(license_models(list@)).take(list.len() as int) =~= ids_of(
        license_models(list@),
    ));
    out
}

impl GitlabLicenseScanningReport {
    /// The report of the records. There is none where the parser rejects
    /// the license expression of a record.
    pub fn try_from(dependencies: &[DependencyDetails]) -> (r: Result<
        GitlabLicenseScanningReport,
        MalformedLicenseExpression,
    >)
        ensures
            report_outcome(r) == gitlab_report_of(models(dependencies@)),
            r matches Ok(report) ==> unique_ids(report@.licenses),
    {
        let ghost all = models(dependencies@);
        let mut licenses: Vec<GitlabLicense> = Vec::new();
        let mut listed: Vec<GitlabDependency> = Vec::new();
        let mut i: usize = 0;
        proof {
            assert(license_models(licenses@) =~= Seq::<GitlabLicenseModel>::empty());
            assert(dependency_models(listed@) =~= Seq::<GitlabDependencyModel>::empty());
        }
        while i < dependencies.len()
            invariant
                i <= dependencies.len(),
                all == models(dependencies@),
                gitlab_report_of(all.take(i as int)) == Some(
                    GitlabReportModel {
                        version: report_version(),
                        licenses: license_models(licenses@),
                        dependencies: dependency_models(listed@),
                    },
                ),
            decreases dependencies.len() - i,
        {
            proof {
                assert(all.take(i + 1).drop_last() =~= all.take(i as int));
                assert(all.take(i + 1).last() == dependencies@[i as int]@);
            }
            let dependency = &dependencies[i];
            match GitlabLicense::parse_licenses(dependency) {
                Err(e) => {
                    proof {
                        lemma_report_failure(all, i + 1);
                    }
                    return Err(e);
                },
                Ok(found) => {
                    merge_licenses(&mut licenses, &found);
                    let ghost before = dependency_models(listed@);
                    let entry = GitlabDependency {
                        name: dependency.name.clone(),
                        version: dependency.version.duplicate(),
                        package_manager: "cargo".to_owned(),
                        path: String::new(),
                        licenses: license_ids(&found),
                    };
                    listed.push(entry);
                    assert(dependency_models(listed@) =~= before.push(
                        gitlab_dependency(dependency@, license_models(found@)),
                    ));
                },
            }
            i = i + 1;
        }
        proof {
            assert(all.take(dependencies.len() as int) =~= all);
            lemma_report_licenses_unique(all);
        }
        Ok(GitlabLicenseScanningReport { version: "2.1".to_owned(), licenses, dependencies: listed })
    }
}

/// Once the license expression of a record is rejected, there is no
/// report, whatever follows.
proof fn lemma_report_failure(list: Seq<DetailsModel>, n: int)
    requires
        0 <= n <= list.len(),
        gitlab_report_of(list.take(n)).is_none(),
    ensures
        gitlab_report_of(list).is_none(),
    decreases list.len() - n,
{
    if n == list.len() {
        assert(list.take(n) =~= list);
    } else {
        assert(list.take(n + 1).drop_last() =~= list.take(n));
        lemma_report_failure(list, n + 1);
    }
}

} // verus!
