//! The record that a report holds of a package, and the order of the
//! records.

use crate::metadata::PackageNode;
use crate::order::{
    compare_optional_text, compare_text, lemma_text_order_flip, lemma_text_order_transitive,
    number_order, optional_text, optional_text_order, text_order, Order,
};
use crate::parse::{canonical_text_of, normalize};
use crate::text::{
    duplicate_optional, join, joined_texts, newlines_as_spaces, replace_newlines, texts, trim,
    trimmed,
};
use crate::version::{version_order, Version, VersionModel};
use vstd::prelude::*;
use vstd::string::*;

verus! {

/// What a report says of a package. A field that the package does not have
/// is absent.
#[derive(Clone, Debug, Hash, PartialEq, Eq)]
pub struct DependencyDetails {
    pub name: String,
    pub version: Version,
    pub authors: Option<String>,
    pub repository: Option<String>,
    pub license: Option<String>,
    pub license_file: Option<String>,
    pub description: Option<String>,
}

/// A record as a value.
pub struct DetailsModel {
    pub name: Seq<char>,
    pub version: VersionModel,
    pub authors: Option<Seq<char>>,
    pub repository: Option<Seq<char>>,
    pub license: Option<Seq<char>>,
    pub license_file: Option<Seq<char>>,
    pub description: Option<Seq<char>>,
}

impl View for DependencyDetails {
    type V = DetailsModel;

    open spec fn view(&self) -> DetailsModel {
        DetailsModel {
            name: self.name@,
            version: self.version@,
            authors: optional_text(self.authors),
            repository: optional_text(self.repository),
            license: optional_text(self.license),
            license_file: optional_text(self.license_file),
            description: optional_text(self.description),
        }
    }
}

/// The authors of a package as one text, with `|` between them; absent
/// where the package names none.
pub open spec fn authors_text(authors: Seq<String>) -> Option<Seq<char>> {
    if authors.len() == 0 {
        None
    } else {
        Some(joined_texts(texts(authors), "|"@))
    }
}

/// The canonical text of a license declaration.
pub open spec fn license_text(license: Seq<char>) -> Seq<char> {
    canonical_text_of(license)
}

/// A description on one line: without white space at its ends, and with
/// spaces for its newlines.
pub open spec fn description_text(description: Seq<char>) -> Seq<char> {
    newlines_as_spaces(trimmed(description))
}

/// The record of a package.
pub open spec fn details_of(package: PackageNode) -> DetailsModel {
    DetailsModel {
        name: package.name@,
        version: package.version@,
        authors: authors_text(package.authors@),
        repository: optional_text(package.repository),
        license: match package.license {
            Some(l) => Some(license_text(l@)),
            None => None,
        },
        license_file: optional_text(package.license_file),
        description: match package.description {
            Some(d) => Some(description_text(d@)),
            None => None,
        },
    }
}

/// The order of the records: by name, then version, authors, repository,
/// license, license file and description. An absent field comes before a
/// present one.
pub open spec fn details_order(a: DetailsModel, b: DetailsModel) -> Order {
    text_order(a.name, b.name).or_else(
        version_order(a.version, b.version).or_else(
            optional_text_order(a.authors, b.authors).or_else(
                optional_text_order(a.repository, b.repository).or_else(
                    optional_text_order(a.license, b.license).or_else(
                        optional_text_order(a.license_file, b.license_file).or_else(
                            optional_text_order(a.description, b.description),
                        ),
                    ),
                ),
            ),
        ),
    )
}

/// The records that a list holds.
pub open spec fn models(list: Seq<DependencyDetails>) -> Seq<DetailsModel> {
    Seq::new(list.len(), |i: int| list[i]@)
}

/// `x` put into `sorted` behind every record that does not come after it.
pub open spec fn inserted_record(sorted: Seq<DetailsModel>, x: DetailsModel) -> Seq<DetailsModel>
    decreases sorted.len(),
{
    if sorted.len() == 0 {
        seq![x]
    } else if details_order(sorted.last(), x) == Order::Greater {
        inserted_record(sorted.drop_last(), x).push(sorted.last())
    } else {
        sorted.push(x)
    }
}

/// The records in ascending order; records that compare equal keep the
/// order they had.
pub open spec fn sorted_records(list: Seq<DetailsModel>) -> Seq<DetailsModel>
    decreases list.len(),
{
    if list.len() == 0 {
        Seq::empty()
    } else {
        inserted_record(sorted_records(list.drop_last()), list.last())
    }
}

/// Records that come after `x` stay behind it: putting `x` into the list is
/// putting it into the part before them.
proof fn lemma_inserted_record_split(s: Seq<DetailsModel>, x: DetailsModel, j: int)
    requires
        0 <= j <= s.len(),
        forall|k: int| j <= k < s.len() ==> details_order(#[trigger] s[k], x) == Order::Greater,
    ensures
        inserted_record(s, x) == inserted_record(s.take(j), x) + s.skip(j),
    decreases s.len() - j,
{
    if j == s.len() {
        assert(s.take(j) =~= s);
        assert(inserted_record(s, x) + s.skip(j) =~= inserted_record(s, x));
    } else {
        assert(details_order(s[s.len() - 1], x) == Order::Greater);
        lemma_inserted_record_split(s.drop_last(), x, j);
        assert forall|k: int| j <= k < s.len() - 1 implies details_order(
            #[trigger] s.drop_last()[k],
            x,
        ) == Order::Greater by {
            assert(s.drop_last()[k] == s[k]);
        }
        assert(s.drop_last().take(j) =~= s.take(j));
        assert(s.drop_last().skip(j).push(s.last()) =~= s.skip(j));
        assert((inserted_record(s.take(j), x) + s.drop_last().skip(j)).push(s.last())
            =~= inserted_record(s.take(j), x) + s.skip(j));
    }
}

/// The order of the records by their names and by the three numbers of
/// their versions alone.
pub open spec fn key_order(a: DetailsModel, b: DetailsModel) -> Order {
    text_order(a.name, b.name).or_else(
        number_order(a.version.major, b.version.major).or_else(
            number_order(a.version.minor, b.version.minor).or_else(
                number_order(a.version.patch, b.version.patch),
            ),
        ),
    )
}

/// No record comes, by its name and the three numbers of its version,
/// after a later one.
pub open spec fn ascending_by_key(s: Seq<DetailsModel>) -> bool {
    forall|i: int, j: int| 0 <= i < j < s.len() ==> key_order(s[i], s[j]) != Order::Greater
}

/// Exchanging the operands of the order by name and numbers flips its
/// outcome.
proof fn lemma_key_order_flip(a: DetailsModel, b: DetailsModel)
    ensures
        key_order(b, a) == key_order(a, b).flip(),
{
    lemma_text_order_flip(a.name, b.name);
}

/// The order by name and numbers is transitive.
proof fn lemma_key_order_transitive(a: DetailsModel, b: DetailsModel, c: DetailsModel)
    requires
        key_order(a, b) != Order::Greater,
        key_order(b, c) != Order::Greater,
    ensures
        key_order(a, c) != Order::Greater,
{
    lemma_text_order_transitive(a.name, b.name, c.name);
}

/// Where the names and the numbers tell two records apart, they decide
/// their order.
proof fn lemma_key_order_decides(a: DetailsModel, b: DetailsModel)
    ensures
        key_order(a, b) != Order::Equal ==> details_order(a, b) == key_order(a, b),
{
}

/// Where `x` goes into `sorted`: behind the last record that does not come
/// after it.
spec fn record_position(sorted: Seq<DetailsModel>, x: DetailsModel) -> int
    decreases sorted.len(),
{
    if sorted.len() == 0 {
        0
    } else if details_order(sorted.last(), x) == Order::Greater {
        record_position(sorted.drop_last(), x)
    } else {
        sorted.len() as int
    }
}

/// Putting `x` into a list is inserting it at its position, behind a record
/// that does not come after it and before the records that do.
proof fn lemma_inserted_record_at(s: Seq<DetailsModel>, x: DetailsModel)
    ensures
        0 <= record_position(s, x) <= s.len(),
        inserted_record(s, x) == s.insert(record_position(s, x), x),
        record_position(s, x) > 0 ==> details_order(s[record_position(s, x) - 1], x)
            != Order::Greater,
        forall|k: int|
            record_position(s, x) <= k < s.len() ==> details_order(#[trigger] s[k], x)
                == Order::Greater,
    decreases s.len(),
{
    if s.len() == 0 {
        assert(seq![x] =~= s.insert(0, x));
    } else if details_order(s.last(), x) == Order::Greater {
        let front = s.drop_last();
        lemma_inserted_record_at(front, x);
        let j = record_position(front, x);
        assert(front.insert(j, x).push(s.last()) =~= s.insert(j, x));
        assert forall|k: int| j <= k < s.len() implies details_order(#[trigger] s[k], x)
            == Order::Greater by {
            if k < front.len() {
                assert(front[k] == s[k]);
            }
        }
    } else {
        assert(s.push(x) =~= s.insert(s.len() as int, x));
    }
}

/// A record put into a list that ascends by name and numbers leaves it
/// ascending.
proof fn lemma_inserted_record_ascending(s: Seq<DetailsModel>, x: DetailsModel)
    requires
        ascending_by_key(s),
    ensures
        ascending_by_key(inserted_record(s, x)),
{
    lemma_inserted_record_at(s, x);
    let p = record_position(s, x);
    let r = inserted_record(s, x);
    assert forall|i: int, j: int| 0 <= i < j < r.len() implies key_order(r[i], r[j])
        != Order::Greater by {
        if j < p {
        } else if j == p {
            lemma_key_order_decides(s[p - 1], x);
            if i < p - 1 {
                lemma_key_order_transitive(s[i], s[p - 1], x);
            }
        } else if i < p {
            assert(r[j] == s[j - 1]);
        } else if i == p {
            assert(r[j] == s[j - 1]);
            lemma_key_order_decides(s[j - 1], x);
            lemma_key_order_flip(s[j - 1], x);
        } else {
            assert(r[i] == s[i - 1]);
            assert(r[j] == s[j - 1]);
        }
    }
}

/// Sorted records are in ascending order of their names, and those of one
/// name in ascending order of the three numbers of their versions.
pub proof fn lemma_sorted_records_ascending(list: Seq<DetailsModel>)
    ensures
        ascending_by_key(sorted_records(list)),
    decreases list.len(),
{
    if list.len() > 0 {
        lemma_sorted_records_ascending(list.drop_last());
        lemma_inserted_record_ascending(sorted_records(list.drop_last()), list.last());
    }
}

/// Sorting neither adds nor loses a record.
pub proof fn lemma_sorted_records_permutation(list: Seq<DetailsModel>)
    ensures
        sorted_records(list).to_multiset() == list.to_multiset(),
    decreases list.len(),
{
    broadcast use vstd::seq_lib::group_to_multiset_ensures;

    if list.len() > 0 {
        let front = list.drop_last();
        lemma_sorted_records_permutation(front);
        lemma_inserted_record_permutation(sorted_records(front), list.last());
        assert(front.push(list.last()) =~= list);
    }
}

/// Putting a record into a list adds that record and nothing else.
proof fn lemma_inserted_record_permutation(s: Seq<DetailsModel>, x: DetailsModel)
    ensures
        inserted_record(s, x).to_multiset() == s.to_multiset().insert(x),
    decreases s.len(),
{
    broadcast use vstd::seq_lib::group_to_multiset_ensures;

    if s.len() == 0 {
        assert(seq![x] =~= Seq::<DetailsModel>::empty().push(x));
    } else if details_order(s.last(), x) == Order::Greater {
        lemma_inserted_record_permutation(s.drop_last(), x);
        assert(s.drop_last().push(s.last()) =~= s);
        assert(inserted_record(s, x).to_multiset() =~= s.to_multiset().insert(x));
    }
}

impl DependencyDetails {
    /// The record of a package: its name, version and repository as they
    /// are, its authors joined by `|`, its license declaration in
    /// canonical form, and its description on one line.
    pub fn new(package: &PackageNode) -> (r: Self)
        ensures
            r@ == details_of(*package),
    {
        let authors = if package.authors.len() == 0 {
            None
        } else {
            Some(join(&package.authors, "|"))
        };
        let license = match &package.license {
            Some(l) => Some(normalize(l.as_str())),
            None => None,
        };
        let description = match &package.description {
            Some(d) => Some(replace_newlines(trim(d.as_str()))),
            None => None,
        };
        DependencyDetails {
            name: package.name.clone(),
            version: package.version.duplicate(),
            authors,
            repository: duplicate_optional(&package.repository),
            license,
            license_file: duplicate_optional(&package.license_file),
            description,
        }
    }

    /// Compares two records: by name, then version, authors, repository,
    /// license, license file and description.
    pub fn compare(&self, other: &Self) -> (r: Order)
        ensures
            r == details_order(self@, other@),
    {
        let name = compare_text(self.name.as_str(), other.name.as_str());
        if name != Order::Equal {
            return name;
        }
        let version = self.version.compare(&other.version);
        if version != Order::Equal {
            return version;
        }
        let authors = compare_optional_text(&self.authors, &other.authors);
        if authors != Order::Equal {
            return authors;
        }
        let repository = compare_optional_text(&self.repository, &other.repository);
        if repository != Order::Equal {
            return repository;
        }
        let license = compare_optional_text(&self.license, &other.license);
        if license != Order::Equal {
            return license;
        }
        let license_file = compare_optional_text(&self.license_file, &other.license_file);
        if license_file != Order::Equal {
            return license_file;
        }
        compare_optional_text(&self.description, &other.description)
    }
}

/// Puts the records in ascending order; records that compare equal keep
/// the order they had.
pub fn sort_details(list: Vec<DependencyDetails>) -> (r: Vec<DependencyDetails>)
    ensures
        models(r@) == sorted_records(models(list@)),
        models(r@).to_multiset() == models(list@).to_multiset(),
        ascending_by_key(models(r@)),
{
    let ghost all = list@;
    let mut sorted: Vec<DependencyDetails> = Vec::new();
    for x in it: list
        invariant
            it.seq() == all,
            models(sorted@) == sorted_records(models(all).take(it.index() as int)),
    {
        let ghost before = models(sorted@);
        let mut j: usize = sorted.len();
        loop
            invariant
                j <= sorted.len(),
                models(sorted@) == before,
                forall|k: int|
                    j <= k < sorted.len() ==> details_order(#[trigger] before[k], x@)
                        == Order::Greater,
            ensures
                j == 0 || details_order(before[j - 1], x@) != Order::Greater,
            decreases j,
        {
            if j == 0 {
                break ;
            }
            let o = sorted[j - 1].compare(&x);
            if o != Order::Greater {
                break ;
            }
            j = j - 1;
        }
        proof {
            lemma_inserted_record_split(before, x@, j as int);
            if j > 0 {
                assert(before.take(j as int).last() == before[j - 1]);
            }
            assert(inserted_record(before.take(j as int), x@) == before.take(j as int).push(x@));
            assert(before.take(j as int).push(x@) + before.skip(j as int) =~= before.insert(
                j as int,
                x@,
            ));
            assert(models(sorted@.insert(j as int, x)) =~= before.insert(j as int, x@));
            assert(models(all).take(it.index() + 1).drop_last() =~= models(all).take(
                it.index() as int,
            ));
        }
        sorted.insert(j, x);
    }
    proof {
        assert(models(all).take(all.len() as int) =~= models(all));
        lemma_sorted_records_permutation(models(all));
        lemma_sorted_records_ascending(models(all));
    }
    sorted
}

} // verus!
