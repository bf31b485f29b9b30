//! What the listings of a report show: the label under which a record is
//! listed, the records grouped by that label, and the names and authors of
//! a group.

use crate::details::{models, DependencyDetails, DetailsModel};
use crate::expr::{expr_order, leaves_order, LicenseExpr};
use crate::normal_form::requirements;
use crate::order::{
    compare_text, lemma_text_order_equal, lemma_text_order_flip, lemma_text_order_transitive,
    text_order, Order,
};
use crate::sorted_operands::lemma_strictly_ascending_unique;
use crate::text::texts;
use vstd::prelude::*;
use vstd::string::*;

verus! {

/// The label of what a record does not have.
pub open spec fn not_available() -> Seq<char> {
    "N/A"@
}

/// The label of a record that has a license file and no license.
pub open spec fn custom_license_file() -> Seq<char> {
    "Custom License File"@
}

/// The label under which a record is listed: its license, or a note that
/// it has a license file of its own, or that it has neither.
pub open spec fn license_label(d: DetailsModel) -> Seq<char> {
    match d.license {
        Some(l) => l,
        None => if d.license_file.is_some() {
            custom_license_file()
        } else {
            not_available()
        },
    }
}

/// The authors of a record as they are listed.
pub open spec fn authors_label(d: DetailsModel) -> Seq<char> {
    match d.authors {
        Some(a) => a,
        None => not_available(),
    }
}

/// The records that are listed under one label.
#[derive(Clone, Debug, PartialEq, Eq)]
pub struct LicenseGroup {
    pub license: String,
    pub crates: Vec<DependencyDetails>,
}

/// A group of records as a value.
pub struct GroupModel {
    pub license: Seq<char>,
    pub crates: Seq<DetailsModel>,
}

impl View for LicenseGroup {
    type V = GroupModel;

    open spec fn view(&self) -> GroupModel {
        GroupModel { license: self.license@, crates: models(self.crates@) }
    }
}

/// The groups that a list holds.
pub open spec fn group_models(groups: Seq<LicenseGroup>) -> Seq<GroupModel> {
    Seq::new(groups.len(), |i: int| groups[i]@)
}

/// The records of the list that are listed under `label`, in their order.
pub open spec fn with_label(list: Seq<DetailsModel>, label: Seq<char>) -> Seq<DetailsModel>
    decreases list.len(),
{
    if list.len() == 0 {
        Seq::empty()
    } else if license_label(list.last()) == label {
        with_label(list.drop_last(), label).push(list.last())
    } else {
        with_label(list.drop_last(), label)
    }
}

/// The groups are the records of the list by label: the labels ascend,
/// each group holds the records of its label in the order of the list and
/// is not empty, and every record is in the group of its label.
pub open spec fn groups_of(groups: Seq<GroupModel>, list: Seq<DetailsModel>) -> bool {
    &&& forall|i: int, j: int|
        0 <= i < j < groups.len() ==> text_order(groups[i].license, groups[j].license)
            == Order::Less
    &&& forall|i: int|
        0 <= i < groups.len() ==> (#[trigger] groups[i]).crates.len() > 0 && groups[i].crates
            == with_label(list, groups[i].license)
    &&& forall|k: int| 0 <= k < list.len() ==> has_label(groups, license_label(#[trigger] list[k]))
}

/// Some group has the label.
pub open spec fn has_label(groups: Seq<GroupModel>, label: Seq<char>) -> bool {
    exists|i: int| 0 <= i < groups.len() && (#[trigger] groups[i]).license == label
}

/// The texts ascend, each before every later one, and are those of `items`.
pub open spec fn sorted_set_of(out: Seq<Seq<char>>, items: Seq<Seq<char>>) -> bool {
    &&& forall|i: int, j: int| 0 <= i < j < out.len() ==> text_order(out[i], out[j]) == Order::Less
    &&& forall|t: Seq<char>| out.contains(t) <==> items.contains(t)
}

/// The names of the records, in their order.
pub open spec fn names_of(list: Seq<DetailsModel>) -> Seq<Seq<char>> {
    Seq::new(list.len(), |i: int| list[i].name)
}

/// The authors of the records as they are listed, in the order of the
/// records.
pub open spec fn authors_of(list: Seq<DetailsModel>) -> Seq<Seq<char>> {
    Seq::new(list.len(), |i: int| authors_label(list[i]))
}

/// No record is listed under a label that no record has.
proof fn lemma_with_label_absent(list: Seq<DetailsModel>, label: Seq<char>)
    requires
        forall|k: int| 0 <= k < list.len() ==> license_label(#[trigger] list[k]) != label,
    ensures
        with_label(list, label) == Seq::<DetailsModel>::empty(),
    decreases list.len(),
{
    if list.len() > 0 {
        assert forall|k: int| 0 <= k < list.len() - 1 implies license_label(
            #[trigger] list.drop_last()[k],
        ) != label by {
            assert(list.drop_last()[k] == list[k]);
        }
        lemma_with_label_absent(list.drop_last(), label);
        assert(license_label(list[list.len() - 1]) != label);
    }
}

/// The texts of a list in ascending order, each once.
pub fn sorted_unique(items: Vec<String>) -> (r: Vec<String>)
    ensures
        sorted_set_of(texts(r@), texts(items@)),
{
    let ghost all = texts(items@);
    let mut out: Vec<String> = Vec::new();
    for x in it: items
        invariant
            texts(it.seq()) == all,
            sorted_set_of(texts(out@), all.take(it.index() as int)),
    {
        let ghost before = texts(out@);
        let ghost seen = all.take(it.index() as int);
        let mut p: usize = 0;
        let mut found = false;
        loop
            invariant_except_break
                !found,
            invariant
                p <= out.len(),
                texts(out@) == before,
                forall|i: int| 0 <= i < p ==> text_order(before[i], x@) == Order::Less,
            ensures
                p <= out.len(),
                texts(out@) == before,
                forall|i: int| 0 <= i < p ==> text_order(before[i], x@) == Order::Less,
                found ==> p < out.len() && before[p as int] == x@,
                !found ==> p == out.len() || text_order(before[p as int], x@) == Order::Greater,
            decreases out.len() - p,
        {
            if p == out.len() {
                break ;
            }
            let o = compare_text(out[p].as_str(), x.as_str());
            proof {
                lemma_text_order_equal(before[p as int], x@);
            }
            if o == Order::Equal {
                found = true;
                break ;
            }
            if o == Order::Greater {
                break ;
            }
            p = p + 1;
        }
        proof {
            assert(all.take(it.index() + 1) =~= seen.push(x@));
        }
        if found {
            assert forall|t: Seq<char>| before.contains(t) <==> seen.push(x@).contains(t) by {
                if seen.push(x@).contains(t) {
                    let k = choose|k: int| 0 <= k < seen.push(x@).len() && seen.push(x@)[k] == t;
                    if k < seen.len() {
                        assert(seen[k] == t);
                        assert(seen.contains(t));
                    } else {
                        assert(before[p as int] == t);
                    }
                }
                if before.contains(t) {
                    assert(seen.contains(t));
                    let k = choose|k: int| 0 <= k < seen.len() && seen[k] == t;
                    assert(seen.push(x@)[k] == t);
                }
            }
        } else {
            proof {
                lemma_sorted_insert(before, x@, p as int);
                assert(texts(out@.insert(p as int, x)) =~= before.insert(p as int, x@));
                let after = before.insert(p as int, x@);
                assert forall|t: Seq<char>| after.contains(t) <==> seen.push(x@).contains(t) by {
                    if after.contains(t) {
                        let k = choose|k: int| 0 <= k < after.len() && after[k] == t;
                        if k < p {
                            assert(before[k] == t);
                            assert(before.contains(t));
                            let m = choose|m: int| 0 <= m < seen.len() && seen[m] == t;
                            assert(seen.push(x@)[m] == t);
                        } else if k == p {
                            assert(seen.push(x@)[seen.len() as int] == t);
                        } else {
                            assert(before[k - 1] == t);
                            assert(before.contains(t));
                            let m = choose|m: int| 0 <= m < seen.len() && seen[m] == t;
                            assert(seen.push(x@)[m] == t);
                        }
                    }
                    if seen.push(x@).contains(t) {
                        let k = choose|k: int|
                            0 <= k < seen.push(x@).len() && seen.push(x@)[k] == t;
                        if k < seen.len() {
                            assert(seen[k] == t);
                            assert(seen.contains(t));
                            let m = choose|m: int| 0 <= m < before.len() && before[m] == t;
                            if m < p {
                                assert(after[m] == t);
                            } else {
                                assert(after[m + 1] == t);
                            }
                        } else {
                            assert(after[p as int] == t);
                        }
                    }
                }
            }
            out.insert(p, x);
        }
    }
    assert(all.take(all.len() as int) =~= all);
    out
}

/// A text put between the texts that come before it and those that come
/// after it keeps ascending texts ascending.
proof fn lemma_sorted_insert(s: Seq<Seq<char>>, x: Seq<char>, p: int)
    requires
        0 <= p <= s.len(),
        forall|i: int, j: int| 0 <= i < j < s.len() ==> text_order(s[i], s[j]) == Order::Less,
        forall|i: int| 0 <= i < p ==> text_order(s[i], x) == Order::Less,
        p == s.len() || text_order(s[p], x) == Order::Greater,
    ensures
        forall|i: int, j: int|
            0 <= i < j < s.insert(p, x).len() ==> text_order(s.insert(p, x)[i], s.insert(p, x)[j])
                == Order::Less,
{
    let r = s.insert(p, x);
    assert forall|i: int, j: int| 0 <= i < j < r.len() implies text_order(r[i], r[j])
        == Order::Less by {
        if j < p {
        } else if j == p {
        } else if i < p {
            assert(r[j] == s[j - 1]);
        } else if i == p {
            assert(r[j] == s[j - 1]);
            lemma_text_order_flip(s[p], x);
            if j - 1 > p {
                assert(text_order(s[p], s[j - 1]) == Order::Less);
                lemma_text_order_transitive(x, s[p], s[j - 1]);
                lemma_text_order_equal(x, s[p]);
                lemma_text_order_equal(s[p], s[j - 1]);
            }
        } else {
            assert(r[i] == s[i - 1]);
            assert(r[j] == s[j - 1]);
        }
    }
}

/// The labels of the groups, in their order.
pub open spec fn labels_of(groups: Seq<GroupModel>) -> Seq<Seq<char>> {
    Seq::new(groups.len(), |i: int| groups[i].license)
}

/// Where the labels ascend, no group but the one at `p` has the label of
/// the group at `p`.
proof fn lemma_label_is_unique(groups: Seq<GroupModel>, p: int, i: int)
    requires
        forall|a: int, b: int|
            0 <= a < b < groups.len() ==> text_order(groups[a].license, groups[b].license)
                == Order::Less,
        0 <= p < groups.len(),
        0 <= i < groups.len(),
        i != p,
    ensures
        groups[i].license != groups[p].license,
{
    lemma_text_order_equal(groups[i].license, groups[p].license);
    if i < p {
        assert(text_order(groups[i].license, groups[p].license) == Order::Less);
    } else {
        assert(text_order(groups[p].license, groups[i].license) == Order::Less);
        lemma_text_order_flip(groups[p].license, groups[i].license);
    }
}

/// Where the labels ascend, those before `p` come before `label` and the
/// one at `p` comes after it, no group has `label`.
proof fn lemma_label_is_new(groups: Seq<GroupModel>, label: Seq<char>, p: int, i: int)
    requires
        forall|a: int, b: int|
            0 <= a < b < groups.len() ==> text_order(groups[a].license, groups[b].license)
                == Order::Less,
        0 <= p <= groups.len(),
        forall|a: int| 0 <= a < p ==> text_order(groups[a].license, label) == Order::Less,
        p == groups.len() || text_order(groups[p].license, label) == Order::Greater,
        0 <= i < groups.len(),
    ensures
        groups[i].license != label,
{
    lemma_text_order_equal(groups[i].license, label);
    if i < p {
        assert(text_order(groups[i].license, label) == Order::Less);
    } else if i > p {
        assert(text_order(groups[p].license, groups[i].license) == Order::Less);
        lemma_text_order_flip(groups[p].license, label);
        lemma_text_order_transitive(label, groups[p].license, groups[i].license);
        lemma_text_order_flip(label, groups[i].license);
    }
}

/// A record that joins the group of its label leaves the groups the groups
/// of the records.
proof fn lemma_groups_after_push(
    before: Seq<GroupModel>,
    seen: Seq<DetailsModel>,
    d: DetailsModel,
    p: int,
)
    requires
        groups_of(before, seen),
        0 <= p < before.len(),
        before[p].license == license_label(d),
    ensures
        groups_of(
            before.update(
                p,
                GroupModel { license: before[p].license, crates: before[p].crates.push(d) },
            ),
            seen.push(d),
        ),
{
    let after = before.update(
        p,
        GroupModel { license: before[p].license, crates: before[p].crates.push(d) },
    );
    let list = seen.push(d);
    assert(list.drop_last() =~= seen);
    assert forall|i: int, j: int| 0 <= i < j < after.len() implies text_order(
        after[i].license,
        after[j].license,
    ) == Order::Less by {
        assert(text_order(before[i].license, before[j].license) == Order::Less);
    }
    assert forall|i: int| 0 <= i < after.len() implies (#[trigger] after[i]).crates.len() > 0
        && after[i].crates == with_label(list, after[i].license) by {
        assert(before[i].crates.len() > 0 && before[i].crates == with_label(
            seen,
            before[i].license,
        ));
        if i != p {
            lemma_label_is_unique(before, p, i);
        }
    }
    assert forall|k: int| 0 <= k < list.len() implies has_label(
        after,
        license_label(#[trigger] list[k]),
    ) by {
        if k < seen.len() {
            assert(list[k] == seen[k]);
            assert(has_label(before, license_label(seen[k])));
            let i = choose|i: int|
                0 <= i < before.len() && (#[trigger] before[i]).license == license_label(seen[k]);
            assert(after[i].license == license_label(seen[k]));
        } else {
            assert(after[p].license == license_label(d));
        }
    }
}

/// A record whose label no group has, put as a group of its own between
/// the labels before and after its label, leaves the groups the groups of
/// the records.
proof fn lemma_groups_after_insert(
    before: Seq<GroupModel>,
    seen: Seq<DetailsModel>,
    d: DetailsModel,
    p: int,
)
    requires
        groups_of(before, seen),
        0 <= p <= before.len(),
        forall|i: int| 0 <= i < p ==> text_order(before[i].license, license_label(d)) == Order::Less,
        p == before.len() || text_order(before[p].license, license_label(d)) == Order::Greater,
    ensures
        groups_of(
            before.insert(p, GroupModel { license: license_label(d), crates: seq![d] }),
            seen.push(d),
        ),
{
    let label = license_label(d);
    let after = before.insert(p, GroupModel { license: label, crates: seq![d] });
    let list = seen.push(d);
    assert(list.drop_last() =~= seen);
    assert forall|k: int| 0 <= k < seen.len() implies license_label(#[trigger] seen[k])
        != label by {
        assert(has_label(before, license_label(seen[k])));
        let i = choose|i: int|
            0 <= i < before.len() && (#[trigger] before[i]).license == license_label(seen[k]);
        lemma_label_is_new(before, label, p, i);
    }
    lemma_with_label_absent(seen, label);
    lemma_sorted_insert(labels_of(before), label, p);
    assert(labels_of(after) =~= labels_of(before).insert(p, label));
    assert forall|i: int, j: int| 0 <= i < j < after.len() implies text_order(
        after[i].license,
        after[j].license,
    ) == Order::Less by {
        assert(labels_of(after)[i] == after[i].license);
        assert(labels_of(after)[j] == after[j].license);
    }
    assert forall|i: int| 0 <= i < after.len() implies (#[trigger] after[i]).crates.len() > 0
        && after[i].crates == with_label(list, after[i].license) by {
        if i < p {
            assert(after[i] == before[i]);
            lemma_label_is_new(before, label, p, i);
        } else if i > p {
            assert(after[i] == before[i - 1]);
            lemma_label_is_new(before, label, p, i - 1);
        } else {
            assert(with_label(list, label) =~= seq![d]);
        }
    }
    assert forall|k: int| 0 <= k < list.len() implies has_label(
        after,
        license_label(#[trigger] list[k]),
    ) by {
        if k < seen.len() {
            assert(list[k] == seen[k]);
            assert(has_label(before, license_label(seen[k])));
            let i = choose|i: int|
                0 <= i < before.len() && (#[trigger] before[i]).license == license_label(seen[k]);
            if i < p {
                assert(after[i] == before[i]);
            } else {
                assert(after[i + 1] == before[i]);
            }
        } else {
            assert(after[p].license == label);
        }
    }
}

impl DependencyDetails {
    /// The label under which the record is listed: its license, or
    /// `Custom License File` where it has only a license file, or `N/A`
    /// where it has neither.
    pub fn license_label(&self) -> (r: String)
        ensures
            r@ == license_label(self@),
    {
        match &self.license {
            Some(l) => l.clone(),
            None => if self.license_file.is_some() {
                "Custom License File".to_owned()
            } else {
                "N/A".to_owned()
            },
        }
    }

    /// The authors of the record as they are listed: its authors, or `N/A`
    /// where it names none.
    pub fn authors_label(&self) -> (r: String)
        ensures
            r@ == authors_label(self@),
    {
        match &self.authors {
            Some(a) => a.clone(),
            None => "N/A".to_owned(),
        }
    }
}

impl LicenseGroup {
    /// The names of the records of the group, in their order.
    pub fn names(&self) -> (r: Vec<String>)
        ensures
            texts(r@) == names_of(self@.crates),
    {
        let mut out: Vec<String> = Vec::new();
        let mut i: usize = 0;
        while i < self.crates.len()
            invariant
                i <= self.crates.len(),
                texts(out@) == names_of(self@.crates).take(i as int),
            decreases self.crates.len() - i,
        {
            out.push(self.crates[i].name.clone());
            assert(names_of(self@.crates)[i as int] == self.crates@[i as int]@.name);
            assert(texts(out@) =~= names_of(self@.crates).take(i as int).push(
                self.crates@[i as int].name@,
            ));
            assert(texts(out@) =~= names_of(self@.crates).take(i + 1));
            i = i + 1;
        }
        assert(names_of(self@.crates).take(self.crates.len() as int) =~= names_of(self@.crates));
        out
    }

    /// The authors of the records of the group as they are listed, in
    /// ascending order and each once.
    pub fn authors(&self) -> (r: Vec<String>)
        ensures
            sorted_set_of(texts(r@), authors_of(self@.crates)),
    {
        let mut all: Vec<String> = Vec::new();
        let mut i: usize = 0;
        while i < self.crates.len()
            invariant
                i <= self.crates.len(),
                texts(all@) == authors_of(self@.crates).take(i as int),
            decreases self.crates.len() - i,
        {
            all.push(self.crates[i].authors_label());
            assert(authors_of(self@.crates)[i as int] == authors_label(self.crates@[i as int]@));
            assert(texts(all@) =~= authors_of(self@.crates).take(i as int).push(
                authors_label(self.crates@[i as int]@),
            ));
            assert(texts(all@) =~= authors_of(self@.crates).take(i + 1));
            i = i + 1;
        }
        assert(authors_of(self@.crates).take(self.crates.len() as int) =~= authors_of(
            self@.crates,
        ));
        sorted_unique(all)
    }
}

/// The records grouped by the label under which they are listed: the
/// groups in ascending order of their labels, the records of a group in
/// the order they had.
pub fn group_by_license(dependencies: Vec<DependencyDetails>) -> (r: Vec<LicenseGroup>)
    ensures
        groups_of(group_models(r@), models(dependencies@)),
{
    let ghost all = models(dependencies@);
    let mut groups: Vec<LicenseGroup> = Vec::new();
    for d in it: dependencies
        invariant
            models(it.seq()) == all,
            groups_of(group_models(groups@), all.take(it.index() as int)),
    {
        let ghost before = group_models(groups@);
        let ghost seen = all.take(it.index() as int);
        let label = d.license_label();
        let mut p: usize = 0;
        let mut found = false;
        loop
            invariant_except_break
                !found,
            invariant
                p <= groups.len(),
                group_models(groups@) == before,
                forall|i: int| 0 <= i < p ==> text_order(before[i].license, label@) == Order::Less,
            ensures
                p <= groups.len(),
                group_models(groups@) == before,
                forall|i: int| 0 <= i < p ==> text_order(before[i].license, label@) == Order::Less,
                found ==> p < groups.len() && before[p as int].license == label@,
                !found ==> p == groups.len() || text_order(before[p as int].license, label@)
                    == Order::Greater,
            decreases groups.len() - p,
        {
            if p == groups.len() {
                break ;
            }
            let o = compare_text(groups[p].license.as_str(), label.as_str());
            proof {
                assert(before[p as int].license == groups@[p as int].license@);
                lemma_text_order_equal(before[p as int].license, label@);
            }
            if o == Order::Equal {
                found = true;
                break ;
            }
            if o == Order::Greater {
                break ;
            }
            p = p + 1;
        }
        proof {
            assert(all.take(it.index() + 1) =~= seen.push(d@));
            assert(seen.push(d@).drop_last() =~= seen);
        }
        if found {
            groups[p].crates.push(d);
            proof {
                let after = group_models(groups@);
                assert(after =~= before.update(
                    p as int,
                    GroupModel {
                        license: before[p as int].license,
                        crates: before[p as int].crates.push(d@),
                    },
                )) by {
                    assert(after.len() == before.len());
                    assert(after[p as int].crates =~= before[p as int].crates.push(d@));
                }
                lemma_groups_after_push(before, seen, d@, p as int);
            }
        } else {
            let mut crates: Vec<DependencyDetails> = Vec::new();
            crates.push(d);
            let group = LicenseGroup { license: label, crates };
            proof {
                assert(group@.crates =~= seq![d@]);
                assert(group_models(groups@.insert(p as int, group)) =~= before.insert(
                    p as int,
                    GroupModel { license: license_label(d@), crates: seq![d@] },
                ));
                lemma_groups_after_insert(before, seen, d@, p as int);
            }
            groups.insert(p, group);
        }
    }
    assert(all.take(all.len() as int) =~= all);
    groups
}

/// Two lists of texts that hold the same texts, each before every later
/// one, are the same list.
pub proof fn lemma_sorted_set_unique(a: Seq<Seq<char>>, b: Seq<Seq<char>>)
    requires
        forall|i: int, j: int| 0 <= i < j < a.len() ==> text_order(a[i], a[j]) == Order::Less,
        forall|i: int, j: int| 0 <= i < j < b.len() ==> text_order(b[i], b[j]) == Order::Less,
        forall|t: Seq<char>| a.contains(t) <==> b.contains(t),
    ensures
        a == b,
{
    let ra = requirements(a);
    let rb = requirements(b);
    assert forall|i: int, j: int| 0 <= i < j < ra.len() implies expr_order(ra[i], ra[j])
        == Order::Less by {
        lemma_requirement_order(a[i], a[j]);
    }
    assert forall|i: int, j: int| 0 <= i < j < rb.len() implies expr_order(rb[i], rb[j])
        == Order::Less by {
        lemma_requirement_order(b[i], b[j]);
    }
    assert forall|e: LicenseExpr| ra.contains(e) <==> rb.contains(e) by {
        if ra.contains(e) {
            let i = choose|i: int| 0 <= i < ra.len() && ra[i] == e;
            assert(a.contains(a[i]));
            let j = choose|j: int| 0 <= j < b.len() && b[j] == a[i];
            assert(rb[j] == e);
        }
        if rb.contains(e) {
            let i = choose|i: int| 0 <= i < rb.len() && rb[i] == e;
            assert(b.contains(b[i]));
            let j = choose|j: int| 0 <= j < a.len() && a[j] == b[i];
            assert(ra[j] == e);
        }
    }
    lemma_strictly_ascending_unique(ra, rb);
    assert forall|i: int| 0 <= i < a.len() implies a[i] == b[i] by {
        assert(ra[i] == rb[i]);
    }
    assert(a =~= b);
}

/// Two requirements are ordered as their texts are.
proof fn lemma_requirement_order(a: Seq<char>, b: Seq<char>)
    ensures
        expr_order(LicenseExpr::Requirement(a), LicenseExpr::Requirement(b)) == text_order(a, b),
{
    reveal(expr_order);
    reveal_with_fuel(leaves_order, 2);
    assert(seq![a].drop_first() =~= Seq::<Seq<char>>::empty());
    assert(seq![b].drop_first() =~= Seq::<Seq<char>>::empty());
}

/// There is one way to group the records of a list by their labels.
pub proof fn lemma_groups_unique(g1: Seq<GroupModel>, g2: Seq<GroupModel>, list: Seq<DetailsModel>)
    requires
        groups_of(g1, list),
        groups_of(g2, list),
    ensures
        g1 == g2,
{
    let l1 = labels_of(g1);
    let l2 = labels_of(g2);
    assert forall|t: Seq<char>| l1.contains(t) <==> l2.contains(t) by {
        if l1.contains(t) {
            let i = choose|i: int| 0 <= i < l1.len() && l1[i] == t;
            lemma_label_occurs(g1, list, i);
            let k = choose|k: int| 0 <= k < list.len() && license_label(list[k]) == t;
            assert(has_label(g2, license_label(list[k])));
            let j = choose|j: int| 0 <= j < g2.len() && (#[trigger] g2[j]).license == t;
            assert(l2[j] == t);
        }
        if l2.contains(t) {
            let i = choose|i: int| 0 <= i < l2.len() && l2[i] == t;
            lemma_label_occurs(g2, list, i);
            let k = choose|k: int| 0 <= k < list.len() && license_label(list[k]) == t;
            assert(has_label(g1, license_label(list[k])));
            let j = choose|j: int| 0 <= j < g1.len() && (#[trigger] g1[j]).license == t;
            assert(l1[j] == t);
        }
    }
    assert forall|i: int, j: int| 0 <= i < j < l1.len() implies text_order(l1[i], l1[j])
        == Order::Less by {
        assert(text_order(g1[i].license, g1[j].license) == Order::Less);
    }
    assert forall|i: int, j: int| 0 <= i < j < l2.len() implies text_order(l2[i], l2[j])
        == Order::Less by {
        assert(text_order(g2[i].license, g2[j].license) == Order::Less);
    }
    lemma_sorted_set_unique(l1, l2);
    assert forall|i: int| 0 <= i < g1.len() implies g1[i] == g2[i] by {
        assert(l1[i] == l2[i]);
        assert(g1[i].crates == with_label(list, g1[i].license));
        assert(g2[i].crates == with_label(list, g2[i].license));
    }
    assert(g1 =~= g2);
}

/// The label of a group is the label of some record.
proof fn lemma_label_occurs(groups: Seq<GroupModel>, list: Seq<DetailsModel>, i: int)
    requires
        groups_of(groups, list),
        0 <= i < groups.len(),
    ensures
        exists|k: int| 0 <= k < list.len() && license_label(list[k]) == groups[i].license,
{
    assert(groups[i].crates.len() > 0 && groups[i].crates == with_label(list, groups[i].license));
    if forall|k: int| 0 <= k < list.len() ==> license_label(#[trigger] list[k])
        != groups[i].license {
        lemma_with_label_absent(list, groups[i].license);
    }
}

} // verus!
