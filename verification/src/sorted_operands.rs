//! Sorted operands without duplicates: the operands of a canonical node
//! are determined by which operands there are, not by how they were
//! written.

use crate::expr::{deduplicated, expr_order, inserted, sorted_children, LicenseExpr};
use crate::expr_order::{lemma_expr_order_equal, lemma_expr_order_flip, lemma_expr_order_transitive};
use crate::order::Order;
use vstd::prelude::*;

verus! {

/// No operand comes after a later one.
pub open spec fn ascending(s: Seq<LicenseExpr>) -> bool {
    forall|i: int, j: int| 0 <= i < j < s.len() ==> expr_order(s[i], s[j]) != Order::Greater
}

/// Every operand comes before every later one.
pub open spec fn strictly_ascending(s: Seq<LicenseExpr>) -> bool {
    forall|i: int, j: int| 0 <= i < j < s.len() ==> expr_order(s[i], s[j]) == Order::Less
}

/// The two lists hold the same operands, in whatever order and number.
pub open spec fn same_members(a: Seq<LicenseExpr>, b: Seq<LicenseExpr>) -> bool {
    forall|e: LicenseExpr| a.contains(e) <==> b.contains(e)
}

/// Operands of the list that compare equal are the same expression.
pub open spec fn tie_free(s: Seq<LicenseExpr>) -> bool {
    forall|i: int, j: int|
        0 <= i < s.len() && 0 <= j < s.len() && expr_order(s[i], s[j]) == Order::Equal ==> s[i]
            == s[j]
}

/// Some operand of the list compares equal to `e`.
pub open spec fn has_equal(s: Seq<LicenseExpr>, e: LicenseExpr) -> bool {
    exists|k: int| 0 <= k < s.len() && expr_order(#[trigger] s[k], e) == Order::Equal
}

/// Where `x` goes into `sorted`: behind the last operand that does not
/// come after it.
pub open spec fn insertion_point(sorted: Seq<LicenseExpr>, x: LicenseExpr) -> int
    decreases sorted.len(),
{
    if sorted.len() == 0 {
        0
    } else if expr_order(sorted.last(), x) == Order::Greater {
        insertion_point(sorted.drop_last(), x)
    } else {
        sorted.len() as int
    }
}

/// Putting `x` into a list is inserting it at its insertion point, behind
/// an operand that does not come after it and before the operands that do.
pub proof fn lemma_inserted_at(s: Seq<LicenseExpr>, x: LicenseExpr)
    ensures
        0 <= insertion_point(s, x) <= s.len(),
        inserted(s, x) == s.insert(insertion_point(s, x), x),
        insertion_point(s, x) > 0 ==> expr_order(s[insertion_point(s, x) - 1], x)
            != Order::Greater,
        forall|k: int|
            insertion_point(s, x) <= k < s.len() ==> expr_order(#[trigger] s[k], x)
                == Order::Greater,
    decreases s.len(),
{
    if s.len() == 0 {
        assert(seq![x] =~= s.insert(0, x));
    } else if expr_order(s.last(), x) == Order::Greater {
        let front = s.drop_last();
        lemma_inserted_at(front, x);
        let j = insertion_point(front, x);
        assert(front.insert(j, x).push(s.last()) =~= s.insert(j, x));
        assert forall|k: int| j <= k < s.len() implies expr_order(#[trigger] s[k], x)
            == Order::Greater by {
            if k < front.len() {
                assert(front[k] == s[k]);
            }
        }
    } else {
        assert(s.push(x) =~= s.insert(s.len() as int, x));
    }
}

/// An operand put into operands that ascend leaves them ascending.
pub proof fn lemma_inserted_ascending(s: Seq<LicenseExpr>, x: LicenseExpr)
    requires
        ascending(s),
    ensures
        ascending(inserted(s, x)),
{
    lemma_inserted_at(s, x);
    let p = insertion_point(s, x);
    let r = inserted(s, x);
    assert forall|i: int, j: int| 0 <= i < j < r.len() implies expr_order(r[i], r[j])
        != Order::Greater by {
        if j < p {
        } else if j == p {
            if i < p - 1 {
                lemma_expr_order_transitive(s[i], s[p - 1], x);
            }
        } else if i < p {
            assert(r[j] == s[j - 1]);
        } else if i == p {
            assert(r[j] == s[j - 1]);
            lemma_expr_order_flip(s[j - 1], x);
        } else {
            assert(r[i] == s[i - 1]);
            assert(r[j] == s[j - 1]);
        }
    }
}

/// Putting an operand into a list adds that operand and nothing else.
pub proof fn lemma_inserted_members(s: Seq<LicenseExpr>, x: LicenseExpr)
    ensures
        forall|e: LicenseExpr| inserted(s, x).contains(e) <==> (s.contains(e) || e == x),
{
    lemma_inserted_at(s, x);
    let p = insertion_point(s, x);
    let r = inserted(s, x);
    assert forall|e: LicenseExpr| r.contains(e) <==> (s.contains(e) || e == x) by {
        if r.contains(e) {
            let i = choose|i: int| 0 <= i < r.len() && r[i] == e;
            if i < p {
                assert(s[i] == e);
            } else if i > p {
                assert(s[i - 1] == e);
            }
        }
        if s.contains(e) {
            let i = choose|i: int| 0 <= i < s.len() && s[i] == e;
            if i < p {
                assert(r[i] == e);
            } else {
                assert(r[i + 1] == e);
            }
        }
        if e == x {
            assert(r[p] == e);
        }
    }
}

/// Sorting leaves the operands in ascending order, and neither adds nor
/// loses one.
pub proof fn lemma_sorted_children(cs: Seq<LicenseExpr>)
    ensures
        ascending(sorted_children(cs)),
        same_members(sorted_children(cs), cs),
    decreases cs.len(),
{
    if cs.len() > 0 {
        let front = cs.drop_last();
        lemma_sorted_children(front);
        lemma_inserted_ascending(sorted_children(front), cs.last());
        lemma_inserted_members(sorted_children(front), cs.last());
        assert forall|e: LicenseExpr| sorted_children(cs).contains(e) <==> cs.contains(e) by {
            if cs.contains(e) {
                let i = choose|i: int| 0 <= i < cs.len() && cs[i] == e;
                if i < front.len() {
                    assert(front[i] == e);
                    assert(front.contains(e));
                }
            }
            if front.contains(e) {
                let i = choose|i: int| 0 <= i < front.len() && front[i] == e;
                assert(cs[i] == e);
            }
            if e == cs.last() {
                assert(cs[cs.len() - 1] == e);
            }
        }
    }
}

/// Operands that ascend still do without the last, and none comes after
/// the last.
proof fn lemma_ascending_front(s: Seq<LicenseExpr>)
    requires
        ascending(s),
        s.len() > 0,
    ensures
        ascending(s.drop_last()),
        forall|i: int|
            0 <= i < s.len() - 1 ==> expr_order(#[trigger] s.drop_last()[i], s.last())
                != Order::Greater,
{
    let front = s.drop_last();
    assert forall|i: int, j: int| 0 <= i < j < front.len() implies expr_order(front[i], front[j])
        != Order::Greater by {
        assert(front[i] == s[i] && front[j] == s[j]);
    }
    assert forall|i: int| 0 <= i < s.len() - 1 implies expr_order(#[trigger] front[i], s.last())
        != Order::Greater by {
        assert(front[i] == s[i] && s.last() == s[s.len() - 1]);
    }
}

/// Dropping duplicates adds no operand.
pub proof fn lemma_deduplicated_members(s: Seq<LicenseExpr>)
    ensures
        forall|i: int|
            0 <= i < deduplicated(s).len() ==> s.contains(#[trigger] deduplicated(s)[i]),
    decreases s.len(),
{
    if s.len() > 0 {
        let front = s.drop_last();
        lemma_deduplicated_members(front);
        let d = deduplicated(front);
        let r = deduplicated(s);
        assert forall|i: int| 0 <= i < r.len() implies s.contains(#[trigger] r[i]) by {
            if i < d.len() {
                assert(r[i] == d[i]);
                assert(front.contains(d[i]));
                let k = choose|k: int| 0 <= k < front.len() && front[k] == d[i];
                assert(s[k] == r[i]);
            } else {
                assert(s[s.len() - 1] == r[i]);
            }
        }
    }
}

/// Each operand that is dropped as a duplicate compares equal to one that
/// stays.
pub proof fn lemma_deduplicated_covers(s: Seq<LicenseExpr>)
    ensures
        forall|i: int| 0 <= i < s.len() ==> has_equal(deduplicated(s), #[trigger] s[i]),
    decreases s.len(),
{
    if s.len() > 0 {
        let front = s.drop_last();
        let x = s.last();
        lemma_deduplicated_covers(front);
        let d = deduplicated(front);
        let r = deduplicated(s);
        lemma_expr_order_equal(x, x);
        assert forall|i: int| 0 <= i < s.len() implies has_equal(r, #[trigger] s[i]) by {
            if i < front.len() {
                assert(front[i] == s[i]);
                assert(has_equal(d, front[i]));
                let k = choose|k: int|
                    0 <= k < d.len() && expr_order(#[trigger] d[k], front[i]) == Order::Equal;
                assert(r[k] == d[k]);
            } else if d.len() > 0 && expr_order(d.last(), x) == Order::Equal {
                assert(r[d.len() - 1] == d.last());
            } else {
                assert(r[r.len() - 1] == x);
            }
        }
    }
}

/// Of operands in ascending order, dropping duplicates leaves operands of
/// which each comes before every later one.
pub proof fn lemma_deduplicated_strict(s: Seq<LicenseExpr>)
    requires
        ascending(s),
    ensures
        strictly_ascending(deduplicated(s)),
    decreases s.len(),
{
    if s.len() > 0 {
        let front = s.drop_last();
        let x = s.last();
        lemma_ascending_front(s);
        lemma_deduplicated_strict(front);
        lemma_deduplicated_members(front);
        let d = deduplicated(front);
        let r = deduplicated(s);
        if !(d.len() > 0 && expr_order(d.last(), x) == Order::Equal) {
            assert(r == d.push(x));
            assert forall|i: int, j: int| 0 <= i < j < r.len() implies expr_order(r[i], r[j])
                == Order::Less by {
                if j == d.len() {
                    assert(r[i] == d[i] && r[j] == x);
                    lemma_not_after_last(front, d, i, x);
                    if expr_order(d[i], x) == Order::Equal {
                        lemma_not_after_last(front, d, d.len() - 1, x);
                        if i < d.len() - 1 {
                            assert(expr_order(d[i], d[d.len() - 1]) == Order::Less);
                        } else {
                            lemma_expr_order_equal(d[i], d[i]);
                        }
                        lemma_expr_order_transitive(d[i], d.last(), x);
                    }
                } else {
                    assert(r[i] == d[i] && r[j] == d[j]);
                }
            }
        }
    }
}

/// An operand that is among operands of which none comes after `x` does
/// not come after `x`.
proof fn lemma_not_after_last(front: Seq<LicenseExpr>, d: Seq<LicenseExpr>, i: int, x: LicenseExpr)
    requires
        0 <= i < d.len(),
        front.contains(d[i]),
        forall|k: int| 0 <= k < front.len() ==> expr_order(#[trigger] front[k], x) != Order::Greater,
    ensures
        expr_order(d[i], x) != Order::Greater,
{
    let k = choose|k: int| 0 <= k < front.len() && front[k] == d[i];
    assert(expr_order(front[k], x) != Order::Greater);
}

/// A list that holds what a list with an element holds has an element.
proof fn lemma_same_members_nonempty(a: Seq<LicenseExpr>, b: Seq<LicenseExpr>)
    requires
        same_members(a, b),
        a.len() > 0,
    ensures
        b.len() > 0,
{
    assert(a.contains(a[0]));
    assert(b.contains(a[0]));
}

/// Two strictly ascending lists of the same operands end in the same
/// operand.
proof fn lemma_last_is_shared(a: Seq<LicenseExpr>, b: Seq<LicenseExpr>)
    requires
        strictly_ascending(a),
        strictly_ascending(b),
        same_members(a, b),
        a.len() > 0,
        b.len() > 0,
    ensures
        a.last() == b.last(),
{
    let x = a.last();
    let y = b.last();
    assert(a.contains(a[a.len() - 1]));
    assert(b.contains(x));
    assert(b.contains(b[b.len() - 1]));
    assert(a.contains(y));
    let j = choose|j: int| 0 <= j < b.len() && b[j] == x;
    let i = choose|i: int| 0 <= i < a.len() && a[i] == y;
    if j < b.len() - 1 {
        assert(expr_order(b[j], b[b.len() - 1]) == Order::Less);
        lemma_expr_order_flip(x, y);
        if i < a.len() - 1 {
            assert(expr_order(a[i], a[a.len() - 1]) == Order::Less);
        } else {
            lemma_expr_order_equal(x, x);
        }
    }
}

/// What a strictly ascending list holds before its last operand, a list of
/// the same operands with the same last operand holds before its last.
proof fn lemma_front_members(a: Seq<LicenseExpr>, b: Seq<LicenseExpr>, e: LicenseExpr)
    requires
        strictly_ascending(a),
        same_members(a, b),
        a.len() > 0,
        b.len() > 0,
        a.last() == b.last(),
        a.drop_last().contains(e),
    ensures
        b.drop_last().contains(e),
{
    let k = choose|k: int| 0 <= k < a.drop_last().len() && a.drop_last()[k] == e;
    assert(a[k] == e);
    assert(a.contains(e));
    assert(b.contains(e));
    let m = choose|m: int| 0 <= m < b.len() && b[m] == e;
    if m == b.len() - 1 {
        assert(expr_order(a[k], a[a.len() - 1]) == Order::Less);
        lemma_expr_order_equal(e, e);
    } else {
        assert(b.drop_last()[m] == e);
    }
}

/// A strictly ascending list is still one without its last operand.
proof fn lemma_strictly_ascending_front(a: Seq<LicenseExpr>)
    requires
        strictly_ascending(a),
        a.len() > 0,
    ensures
        strictly_ascending(a.drop_last()),
{
    let front = a.drop_last();
    assert forall|i: int, j: int| 0 <= i < j < front.len() implies expr_order(front[i], front[j])
        == Order::Less by {
        assert(front[i] == a[i] && front[j] == a[j]);
    }
}

/// Two lists that hold the same operands, each before every later one, are
/// the same list.
pub proof fn lemma_strictly_ascending_unique(a: Seq<LicenseExpr>, b: Seq<LicenseExpr>)
    requires
        strictly_ascending(a),
        strictly_ascending(b),
        same_members(a, b),
    ensures
        a == b,
    decreases a.len(),
{
    if a.len() == 0 {
        if b.len() > 0 {
            lemma_same_members_nonempty(b, a);
        }
        assert(a =~= b);
    } else {
        lemma_same_members_nonempty(a, b);
        lemma_last_is_shared(a, b);
        lemma_strictly_ascending_front(a);
        lemma_strictly_ascending_front(b);
        assert forall|e: LicenseExpr| a.drop_last().contains(e) <==> b.drop_last().contains(
            e,
        ) by {
            if a.drop_last().contains(e) {
                lemma_front_members(a, b, e);
            }
            if b.drop_last().contains(e) {
                lemma_front_members(b, a, e);
            }
        }
        lemma_strictly_ascending_unique(a.drop_last(), b.drop_last());
        assert(a =~= a.drop_last().push(a.last()));
        assert(b =~= b.drop_last().push(b.last()));
    }
}

/// Sorted and freed of duplicates, operands of which no two different
/// ones compare equal are still the same operands.
pub proof fn lemma_canonical_members(f: Seq<LicenseExpr>)
    requires
        tie_free(f),
    ensures
        strictly_ascending(deduplicated(sorted_children(f))),
        same_members(deduplicated(sorted_children(f)), f),
{
    let s = sorted_children(f);
    let r = deduplicated(s);
    lemma_sorted_children(f);
    lemma_deduplicated_strict(s);
    lemma_deduplicated_members(s);
    lemma_deduplicated_covers(s);
    assert forall|e: LicenseExpr| r.contains(e) <==> f.contains(e) by {
        if r.contains(e) {
            let i = choose|i: int| 0 <= i < r.len() && r[i] == e;
            assert(s.contains(r[i]));
        }
        if f.contains(e) {
            assert(s.contains(e));
            let i = choose|i: int| 0 <= i < s.len() && s[i] == e;
            assert(has_equal(r, s[i]));
            let k = choose|k: int| 0 <= k < r.len() && expr_order(#[trigger] r[k], e) == Order::Equal;
            assert(s.contains(r[k]));
            assert(f.contains(r[k]));
            let m = choose|m: int| 0 <= m < f.len() && f[m] == r[k];
            let n = choose|n: int| 0 <= n < f.len() && f[n] == e;
            assert(f[m] == f[n]);
            assert(r.contains(e));
        }
    }
}

/// The operands of the list are those of the other list.
proof fn lemma_tie_free_transfers(a: Seq<LicenseExpr>, b: Seq<LicenseExpr>)
    requires
        same_members(a, b),
        tie_free(a),
    ensures
        tie_free(b),
{
    assert forall|i: int, j: int|
        0 <= i < b.len() && 0 <= j < b.len() && expr_order(b[i], b[j]) == Order::Equal implies b[i]
        == b[j] by {
        assert(b.contains(b[i]) && b.contains(b[j]));
        assert(a.contains(b[i]) && a.contains(b[j]));
        let m = choose|m: int| 0 <= m < a.len() && a[m] == b[i];
        let n = choose|n: int| 0 <= n < a.len() && a[n] == b[j];
        assert(a[m] == a[n]);
    }
}

/// The sorted, duplicate-free operands depend only on which operands there
/// are: two lists that hold the same operands, in whatever order and
/// number, come out the same, provided that operands which compare equal
/// are the same expression.
pub proof fn lemma_canonical_unique(f1: Seq<LicenseExpr>, f2: Seq<LicenseExpr>)
    requires
        same_members(f1, f2),
        tie_free(f1),
    ensures
        deduplicated(sorted_children(f1)) == deduplicated(sorted_children(f2)),
{
    lemma_tie_free_transfers(f1, f2);
    lemma_canonical_members(f1);
    lemma_canonical_members(f2);
    lemma_strictly_ascending_unique(
        deduplicated(sorted_children(f1)),
        deduplicated(sorted_children(f2)),
    );
}

} // verus!
