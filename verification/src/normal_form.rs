//! The canonical form of a license expression: what it looks like, that
//! bringing an expression into it twice changes nothing, and that it does
//! not depend on the order, the grouping or the repetition of operands.

use crate::sorted_operands::{
    ascending, lemma_canonical_members, lemma_canonical_unique, lemma_deduplicated_members,
    lemma_deduplicated_strict, lemma_sorted_children, same_members, strictly_ascending, tie_free,
};
use crate::expr::{
    canonical_children, deduplicated, expr_order, flattened, inserted, kept, normalized_all,
    sorted_children, spliced, LicenseExpr, Operator,
};
use crate::expr_order::{lemma_expr_order_equal, lemma_expr_order_flip};
use crate::order::Order;
use vstd::prelude::*;

verus! {

/// The expression is in canonical form: no node has an operand of its own
/// operator, and the operands of every node are canonical themselves and
/// stand each before every later one, so that none occurs twice.
pub open spec fn is_canonical(e: LicenseExpr) -> bool
    decreases e,
{
    match e {
        LicenseExpr::Requirement(_) => true,
        LicenseExpr::Or(cs) => are_canonical_operands(cs, Operator::Or),
        LicenseExpr::And(cs) => are_canonical_operands(cs, Operator::And),
    }
}

/// The list can be the operands of a canonical node of `op`.
pub open spec fn are_canonical_operands(cs: Seq<LicenseExpr>, op: Operator) -> bool
    decreases cs,
{
    &&& forall|i: int|
        0 <= i < cs.len() ==> (#[trigger] cs[i]).operator() != Some(op) && is_canonical(cs[i])
    &&& strictly_ascending(cs)
}

/// `e` is among the operands that a node of `op` over `cs` has once it is
/// flattened: an element of `cs` that is no node of `op`, or an operand of
/// an element that is one.
pub open spec fn is_operand(cs: Seq<LicenseExpr>, op: Operator, e: LicenseExpr) -> bool {
    ||| cs.contains(e) && e.operator() != Some(op)
    ||| exists|i: int|
        0 <= i < cs.len() && (#[trigger] cs[i]).operator() == Some(op) && cs[i].children().contains(
            e,
        )
}

/// The operands that are kept are the elements that are no nodes of `op`.
proof fn lemma_kept_members(cs: Seq<LicenseExpr>, op: Operator)
    ensures
        forall|e: LicenseExpr|
            kept(cs, op).contains(e) <==> cs.contains(e) && e.operator() != Some(op),
    decreases cs.len(),
{
    if cs.len() > 0 {
        let front = cs.drop_last();
        let x = cs.last();
        lemma_kept_members(front, op);
        let r = kept(cs, op);
        let f = kept(front, op);
        assert forall|e: LicenseExpr| r.contains(e) <==> cs.contains(e) && e.operator() != Some(
            op,
        ) by {
            if r.contains(e) {
                let i = choose|i: int| 0 <= i < r.len() && r[i] == e;
                if i < f.len() {
                    assert(f[i] == e);
                    assert(f.contains(e));
                    let k = choose|k: int| 0 <= k < front.len() && front[k] == e;
                    assert(cs[k] == e);
                } else {
                    assert(cs[cs.len() - 1] == e);
                }
            }
            if cs.contains(e) && e.operator() != Some(op) {
                let k = choose|k: int| 0 <= k < cs.len() && cs[k] == e;
                if k < front.len() {
                    assert(front[k] == e);
                    assert(front.contains(e));
                    let i = choose|i: int| 0 <= i < f.len() && f[i] == e;
                    assert(r[i] == e);
                } else {
                    assert(r[r.len() - 1] == e);
                }
            }
        }
    }
}

/// The operands that are spliced in are the operands of the elements that
/// are nodes of `op`.
proof fn lemma_spliced_members(cs: Seq<LicenseExpr>, op: Operator)
    ensures
        forall|e: LicenseExpr|
            spliced(cs, op).contains(e) <==> exists|i: int|
                0 <= i < cs.len() && (#[trigger] cs[i]).operator() == Some(op)
                    && cs[i].children().contains(e),
    decreases cs.len(),
{
    if cs.len() > 0 {
        let front = cs.drop_last();
        let x = cs.last();
        lemma_spliced_members(front, op);
        let r = spliced(cs, op);
        let f = spliced(front, op);
        assert forall|e: LicenseExpr|
            r.contains(e) <==> exists|i: int|
                0 <= i < cs.len() && (#[trigger] cs[i]).operator() == Some(op)
                    && cs[i].children().contains(e) by {
            if r.contains(e) {
                let i = choose|i: int| 0 <= i < r.len() && r[i] == e;
                if i < f.len() {
                    assert(f[i] == e);
                    assert(f.contains(e));
                    let k = choose|k: int|
                        0 <= k < front.len() && (#[trigger] front[k]).operator() == Some(op)
                            && front[k].children().contains(e);
                    assert(cs[k] == front[k]);
                } else {
                    assert(x.children()[i - f.len()] == e);
                    assert(cs[cs.len() - 1] == x);
                }
            }
            if exists|i: int|
                0 <= i < cs.len() && (#[trigger] cs[i]).operator() == Some(op)
                    && cs[i].children().contains(e) {
                let k = choose|k: int|
                    0 <= k < cs.len() && (#[trigger] cs[k]).operator() == Some(op)
                        && cs[k].children().contains(e);
                if k < front.len() {
                    assert(front[k] == cs[k]);
                    assert(f.contains(e));
                    let i = choose|i: int| 0 <= i < f.len() && f[i] == e;
                    assert(r[i] == e);
                } else {
                    let m = choose|m: int| 0 <= m < x.children().len() && x.children()[m] == e;
                    assert(r[f.len() + m] == e);
                }
            }
        }
    }
}

/// The flattened operands are exactly the operands in the sense of
/// `is_operand`.
pub proof fn lemma_flattened_members(cs: Seq<LicenseExpr>, op: Operator)
    ensures
        forall|e: LicenseExpr| flattened(cs, op).contains(e) <==> is_operand(cs, op, e),
{
    lemma_kept_members(cs, op);
    lemma_spliced_members(cs, op);
    let a = kept(cs, op);
    let b = spliced(cs, op);
    assert forall|e: LicenseExpr| (a + b).contains(e) <==> a.contains(e) || b.contains(e) by {
        if (a + b).contains(e) {
            let i = choose|i: int| 0 <= i < (a + b).len() && (a + b)[i] == e;
            if i < a.len() {
                assert(a[i] == e);
            } else {
                assert(b[i - a.len()] == e);
            }
        }
        if a.contains(e) {
            let i = choose|i: int| 0 <= i < a.len() && a[i] == e;
            assert((a + b)[i] == e);
        }
        if b.contains(e) {
            let i = choose|i: int| 0 <= i < b.len() && b[i] == e;
            assert((a + b)[a.len() + i] == e);
        }
    }
}

/// Every operand of the flattened list is canonical and no node of `op`,
/// where the elements of the list are canonical.
proof fn lemma_operands_of_canonical(cs: Seq<LicenseExpr>, op: Operator, e: LicenseExpr)
    requires
        forall|i: int| 0 <= i < cs.len() ==> is_canonical(#[trigger] cs[i]),
        is_operand(cs, op, e),
    ensures
        e.operator() != Some(op),
        is_canonical(e),
{
    if cs.contains(e) && e.operator() != Some(op) {
        let k = choose|k: int| 0 <= k < cs.len() && cs[k] == e;
        assert(is_canonical(cs[k]));
    } else {
        let i = choose|i: int|
            0 <= i < cs.len() && (#[trigger] cs[i]).operator() == Some(op)
                && cs[i].children().contains(e);
        assert(is_canonical(cs[i]));
        let ds = cs[i].children();
        assert(are_canonical_operands(ds, op));
        let m = choose|m: int| 0 <= m < ds.len() && ds[m] == e;
        assert(ds[m].operator() != Some(op) && is_canonical(ds[m]));
    }
}

/// Canonical operands of `op` come out of canonical elements.
proof fn lemma_canonical_children(cs: Seq<LicenseExpr>, op: Operator)
    requires
        forall|i: int| 0 <= i < cs.len() ==> is_canonical(#[trigger] cs[i]),
    ensures
        are_canonical_operands(canonical_children(cs, op), op),
{
    let f = flattened(cs, op);
    let s = sorted_children(f);
    let r = deduplicated(s);
    lemma_flattened_members(cs, op);
    lemma_sorted_children(f);
    lemma_deduplicated_strict(s);
    lemma_deduplicated_members(s);
    assert forall|i: int| 0 <= i < r.len() implies (#[trigger] r[i]).operator() != Some(op)
        && is_canonical(r[i]) by {
        assert(s.contains(r[i]));
        assert(f.contains(r[i]));
        lemma_operands_of_canonical(cs, op, r[i]);
    }
}

/// The canonical form of an expression is in canonical form.
pub proof fn lemma_normalized_is_canonical(e: LicenseExpr)
    ensures
        is_canonical(e.normalized()),
    decreases e,
{
    match e {
        LicenseExpr::Requirement(_) => {},
        LicenseExpr::Or(cs) => {
            lemma_normalized_all_canonical(cs);
            lemma_canonical_children(normalized_all(cs), Operator::Or);
        },
        LicenseExpr::And(cs) => {
            lemma_normalized_all_canonical(cs);
            lemma_canonical_children(normalized_all(cs), Operator::And);
        },
    }
}

/// The canonical forms of a list of expressions are in canonical form.
proof fn lemma_normalized_all_canonical(cs: Seq<LicenseExpr>)
    ensures
        forall|i: int| 0 <= i < cs.len() ==> is_canonical(#[trigger] normalized_all(cs)[i]),
    decreases cs,
{
    assert forall|i: int| 0 <= i < cs.len() implies is_canonical(
        #[trigger] normalized_all(cs)[i],
    ) by {
        lemma_normalized_is_canonical(cs[i]);
    }
}

/// Where no operand is a node of `op`, flattening changes nothing.
proof fn lemma_nothing_to_flatten(cs: Seq<LicenseExpr>, op: Operator)
    requires
        forall|i: int| 0 <= i < cs.len() ==> (#[trigger] cs[i]).operator() != Some(op),
    ensures
        kept(cs, op) == cs,
        spliced(cs, op) == Seq::<LicenseExpr>::empty(),
        flattened(cs, op) == cs,
    decreases cs.len(),
{
    if cs.len() > 0 {
        let front = cs.drop_last();
        assert forall|i: int| 0 <= i < front.len() implies (#[trigger] front[i]).operator()
            != Some(op) by {
            assert(front[i] == cs[i]);
        }
        lemma_nothing_to_flatten(front, op);
        assert(cs[cs.len() - 1].operator() != Some(op));
        assert(front.push(cs.last()) =~= cs);
    }
    assert(kept(cs, op) + Seq::<LicenseExpr>::empty() =~= kept(cs, op));
}

/// Sorting operands that ascend changes nothing.
proof fn lemma_nothing_to_sort(cs: Seq<LicenseExpr>)
    requires
        ascending(cs),
    ensures
        sorted_children(cs) == cs,
    decreases cs.len(),
{
    if cs.len() > 0 {
        let front = cs.drop_last();
        assert forall|i: int, j: int| 0 <= i < j < front.len() implies expr_order(
            front[i],
            front[j],
        ) != Order::Greater by {
            assert(front[i] == cs[i] && front[j] == cs[j]);
        }
        lemma_nothing_to_sort(front);
        if front.len() > 0 {
            assert(front.last() == cs[cs.len() - 2]);
            assert(expr_order(cs[cs.len() - 2], cs[cs.len() - 1]) != Order::Greater);
        }
        assert(inserted(front, cs.last()) == front.push(cs.last()));
        assert(front.push(cs.last()) =~= cs);
    }
}

/// Operands of which each comes before every later one hold no duplicate.
proof fn lemma_nothing_to_drop(cs: Seq<LicenseExpr>)
    requires
        strictly_ascending(cs),
    ensures
        deduplicated(cs) == cs,
    decreases cs.len(),
{
    if cs.len() > 0 {
        let front = cs.drop_last();
        assert forall|i: int, j: int| 0 <= i < j < front.len() implies expr_order(
            front[i],
            front[j],
        ) == Order::Less by {
            assert(front[i] == cs[i] && front[j] == cs[j]);
        }
        lemma_nothing_to_drop(front);
        if front.len() > 0 {
            assert(front.last() == cs[cs.len() - 2]);
            assert(expr_order(cs[cs.len() - 2], cs[cs.len() - 1]) == Order::Less);
        }
        assert(front.push(cs.last()) =~= cs);
    }
}

/// Operands of which each comes before every later one ascend.
proof fn lemma_strict_is_ascending(cs: Seq<LicenseExpr>)
    requires
        strictly_ascending(cs),
    ensures
        ascending(cs),
{
}

/// Bringing an expression that is in canonical form into canonical form
/// changes nothing.
pub proof fn lemma_canonical_is_fixed(e: LicenseExpr)
    requires
        is_canonical(e),
    ensures
        e.normalized() == e,
    decreases e,
{
    match e {
        LicenseExpr::Requirement(_) => {},
        LicenseExpr::Or(cs) => {
            lemma_canonical_operands_fixed(cs, Operator::Or);
        },
        LicenseExpr::And(cs) => {
            lemma_canonical_operands_fixed(cs, Operator::And);
        },
    }
}

/// Canonical operands are their own canonical operands.
proof fn lemma_canonical_operands_fixed(cs: Seq<LicenseExpr>, op: Operator)
    requires
        are_canonical_operands(cs, op),
    ensures
        canonical_children(normalized_all(cs), op) == cs,
    decreases cs,
{
    assert forall|i: int| 0 <= i < cs.len() implies normalized_all(cs)[i] == cs[i] by {
        assert(cs[i].operator() != Some(op) && is_canonical(cs[i]));
        lemma_canonical_is_fixed(cs[i]);
    }
    assert(normalized_all(cs) =~= cs);
    lemma_nothing_to_flatten(cs, op);
    lemma_strict_is_ascending(cs);
    lemma_nothing_to_sort(cs);
    lemma_nothing_to_drop(cs);
}

/// Bringing an expression into canonical form twice gives what doing it
/// once gives.
pub proof fn lemma_normalize_idempotent(e: LicenseExpr)
    ensures
        e.normalized().normalized() == e.normalized(),
{
    lemma_normalized_is_canonical(e);
    lemma_canonical_is_fixed(e.normalized());
}

/// The canonical forms of the elements of one list are among those of
/// every list that holds the elements.
proof fn lemma_normalized_all_members(cs1: Seq<LicenseExpr>, cs2: Seq<LicenseExpr>)
    requires
        forall|e: LicenseExpr| cs1.contains(e) ==> cs2.contains(e),
    ensures
        forall|e: LicenseExpr|
            normalized_all(cs1).contains(e) ==> normalized_all(cs2).contains(e),
{
    let n1 = normalized_all(cs1);
    let n2 = normalized_all(cs2);
    assert forall|e: LicenseExpr| n1.contains(e) implies n2.contains(e) by {
        let i = choose|i: int| 0 <= i < n1.len() && n1[i] == e;
        assert(cs1.contains(cs1[i]));
        let j = choose|j: int| 0 <= j < cs2.len() && cs2[j] == cs1[i];
        assert(n2[j] == e);
    }
}

/// The operands of one list are among those of every list that holds its
/// elements.
proof fn lemma_operands_from_members(cs1: Seq<LicenseExpr>, cs2: Seq<LicenseExpr>, op: Operator)
    requires
        forall|e: LicenseExpr| cs1.contains(e) ==> cs2.contains(e),
    ensures
        forall|e: LicenseExpr| is_operand(cs1, op, e) ==> is_operand(cs2, op, e),
{
    assert forall|e: LicenseExpr| is_operand(cs1, op, e) implies is_operand(cs2, op, e) by {
        if !(cs1.contains(e) && e.operator() != Some(op)) {
            let i = choose|i: int|
                0 <= i < cs1.len() && (#[trigger] cs1[i]).operator() == Some(op)
                    && cs1[i].children().contains(e);
            assert(cs1.contains(cs1[i]));
            let j = choose|j: int| 0 <= j < cs2.len() && cs2[j] == cs1[i];
            assert(cs2[j].operator() == Some(op) && cs2[j].children().contains(e));
        }
    }
}

/// The canonical form of a node is the node of the canonical operands.
proof fn lemma_join_normalized(op: Operator, cs: Seq<LicenseExpr>)
    ensures
        LicenseExpr::join(op, cs).normalized() == LicenseExpr::join(
            op,
            canonical_children(normalized_all(cs), op),
        ),
{
}

/// The canonical form of a node does not depend on the order of its
/// operands, nor on how often one is repeated: two nodes of one operator
/// over the same operands have the same canonical form, provided that
/// those of the flattened operands which compare equal are the same
/// expression.
pub proof fn lemma_operand_order_irrelevant(
    op: Operator,
    cs1: Seq<LicenseExpr>,
    cs2: Seq<LicenseExpr>,
)
    requires
        same_members(cs1, cs2),
        tie_free(flattened(normalized_all(cs1), op)),
    ensures
        LicenseExpr::join(op, cs1).normalized() == LicenseExpr::join(op, cs2).normalized(),
{
    let n1 = normalized_all(cs1);
    let n2 = normalized_all(cs2);
    lemma_normalized_all_members(cs1, cs2);
    lemma_normalized_all_members(cs2, cs1);
    lemma_operands_from_members(n1, n2, op);
    lemma_operands_from_members(n2, n1, op);
    lemma_flattened_members(n1, op);
    lemma_flattened_members(n2, op);
    assert forall|e: LicenseExpr| flattened(n1, op).contains(e) <==> flattened(n2, op).contains(
        e,
    ) by {
        assert(flattened(n1, op).contains(e) <==> is_operand(n1, op, e));
        assert(flattened(n2, op).contains(e) <==> is_operand(n2, op, e));
        assert(is_operand(n1, op, e) ==> is_operand(n2, op, e));
        assert(is_operand(n2, op, e) ==> is_operand(n1, op, e));
    }
    lemma_canonical_unique(flattened(n1, op), flattened(n2, op));
    lemma_join_normalized(op, cs1);
    lemma_join_normalized(op, cs2);
}

/// What two lists hold, one after the other, is what either holds.
proof fn lemma_contains_concat(a: Seq<LicenseExpr>, b: Seq<LicenseExpr>)
    ensures
        forall|e: LicenseExpr| (a + b).contains(e) <==> a.contains(e) || b.contains(e),
{
    assert forall|e: LicenseExpr| (a + b).contains(e) <==> a.contains(e) || b.contains(e) by {
        if (a + b).contains(e) {
            let i = choose|i: int| 0 <= i < (a + b).len() && (a + b)[i] == e;
            if i < a.len() {
                assert(a[i] == e);
            } else {
                assert(b[i - a.len()] == e);
            }
        }
        if a.contains(e) {
            let i = choose|i: int| 0 <= i < a.len() && a[i] == e;
            assert((a + b)[i] == e);
        }
        if b.contains(e) {
            let i = choose|i: int| 0 <= i < b.len() && b[i] == e;
            assert((a + b)[a.len() + i] == e);
        }
    }
}

/// The operands of two lists, one after the other, are those of either.
proof fn lemma_operands_concat(a: Seq<LicenseExpr>, b: Seq<LicenseExpr>, op: Operator)
    ensures
        forall|e: LicenseExpr|
            is_operand(a + b, op, e) <==> is_operand(a, op, e) || is_operand(b, op, e),
{
    lemma_contains_concat(a, b);
    assert forall|e: LicenseExpr|
        is_operand(a + b, op, e) <==> is_operand(a, op, e) || is_operand(b, op, e) by {
        if is_operand(a + b, op, e) && !((a + b).contains(e) && e.operator() != Some(op)) {
            let i = choose|i: int|
                0 <= i < (a + b).len() && (#[trigger] (a + b)[i]).operator() == Some(op) && (a
                    + b)[i].children().contains(e);
            if i < a.len() {
                assert(a[i] == (a + b)[i]);
            } else {
                assert(b[i - a.len()] == (a + b)[i]);
            }
        }
        if is_operand(a, op, e) && !(a.contains(e) && e.operator() != Some(op)) {
            let i = choose|i: int|
                0 <= i < a.len() && (#[trigger] a[i]).operator() == Some(op)
                    && a[i].children().contains(e);
            assert((a + b)[i] == a[i]);
        }
        if is_operand(b, op, e) && !(b.contains(e) && e.operator() != Some(op)) {
            let i = choose|i: int|
                0 <= i < b.len() && (#[trigger] b[i]).operator() == Some(op)
                    && b[i].children().contains(e);
            assert((a + b)[a.len() + i] == b[i]);
        }
    }
}

/// Part of a list without ties is without ties.
proof fn lemma_tie_free_subset(a: Seq<LicenseExpr>, b: Seq<LicenseExpr>)
    requires
        forall|e: LicenseExpr| a.contains(e) ==> b.contains(e),
        tie_free(b),
    ensures
        tie_free(a),
{
    assert forall|i: int, j: int|
        0 <= i < a.len() && 0 <= j < a.len() && expr_order(a[i], a[j]) == Order::Equal implies a[i]
        == a[j] by {
        assert(a.contains(a[i]) && a.contains(a[j]));
        let m = choose|m: int| 0 <= m < b.len() && b[m] == a[i];
        let n = choose|n: int| 0 <= n < b.len() && b[n] == a[j];
        assert(b[m] == b[n]);
    }
}

/// The operands of a single node of `op` are its own operands.
proof fn lemma_operands_of_node(node: LicenseExpr, op: Operator)
    requires
        node.operator() == Some(op),
    ensures
        forall|e: LicenseExpr| is_operand(seq![node], op, e) <==> node.children().contains(e),
{
    let s = seq![node];
    assert forall|e: LicenseExpr| is_operand(s, op, e) <==> node.children().contains(e) by {
        if is_operand(s, op, e) {
            if s.contains(e) && e.operator() != Some(op) {
                let k = choose|k: int| 0 <= k < s.len() && s[k] == e;
            } else {
                let i = choose|i: int|
                    0 <= i < s.len() && (#[trigger] s[i]).operator() == Some(op)
                        && s[i].children().contains(e);
            }
        }
        if node.children().contains(e) {
            assert(s[0].operator() == Some(op) && s[0].children().contains(e));
        }
    }
}

/// The canonical form of a node does not depend on how its operands are
/// grouped: an operand that is a node of the same operator can be replaced
/// by its own operands, provided that those of the flattened operands
/// which compare equal are the same expression.
pub proof fn lemma_nested_operands_merge(
    op: Operator,
    before: Seq<LicenseExpr>,
    inner: Seq<LicenseExpr>,
    after: Seq<LicenseExpr>,
)
    requires
        tie_free(flattened(normalized_all(before + inner + after), op)),
    ensures
        LicenseExpr::join(op, before + seq![LicenseExpr::join(op, inner)] + after).normalized()
            == LicenseExpr::join(op, before + inner + after).normalized(),
{
    let node = LicenseExpr::join(op, inner);
    let nested = before + seq![node] + after;
    let flat = before + inner + after;
    let nb = normalized_all(before);
    let ni = normalized_all(inner);
    let na = normalized_all(after);
    let nn = seq![node.normalized()];
    assert(normalized_all(nested) =~= nb + nn + na);
    assert(normalized_all(flat) =~= nb + ni + na);
    let f_nested = flattened(nb + nn + na, op);
    let f_flat = flattened(nb + ni + na, op);
    let f_inner = flattened(ni, op);
    lemma_flattened_members(nb + nn + na, op);
    lemma_flattened_members(nb + ni + na, op);
    lemma_flattened_members(ni, op);
    lemma_operands_concat(nb + nn, na, op);
    lemma_operands_concat(nb, nn, op);
    lemma_operands_concat(nb + ni, na, op);
    lemma_operands_concat(nb, ni, op);
    lemma_join_normalized(op, inner);
    lemma_operands_of_node(node.normalized(), op);
    assert forall|e: LicenseExpr| f_inner.contains(e) implies f_flat.contains(e) by {
        assert(is_operand(ni, op, e));
        assert(is_operand(nb + ni, op, e));
        assert(is_operand(nb + ni + na, op, e));
    }
    lemma_tie_free_subset(f_inner, f_flat);
    lemma_canonical_members(f_inner);
    assert(node.normalized().children() == canonical_children(ni, op));
    assert forall|e: LicenseExpr| f_flat.contains(e) <==> f_nested.contains(e) by {
        assert(f_flat.contains(e) <==> is_operand(nb + ni + na, op, e));
        assert(f_nested.contains(e) <==> is_operand(nb + nn + na, op, e));
        assert(is_operand(nb + ni + na, op, e) <==> is_operand(nb + ni, op, e) || is_operand(
            na,
            op,
            e,
        ));
        assert(is_operand(nb + ni, op, e) <==> is_operand(nb, op, e) || is_operand(ni, op, e));
        assert(is_operand(nb + nn + na, op, e) <==> is_operand(nb + nn, op, e) || is_operand(
            na,
            op,
            e,
        ));
        assert(is_operand(nb + nn, op, e) <==> is_operand(nb, op, e) || is_operand(nn, op, e));
        assert(is_operand(nn, op, e) <==> node.normalized().children().contains(e));
        assert(canonical_children(ni, op).contains(e) <==> f_inner.contains(e));
        assert(f_inner.contains(e) <==> is_operand(ni, op, e));
    }
    lemma_canonical_unique(f_flat, f_nested);
    lemma_join_normalized(op, nested);
    lemma_join_normalized(op, flat);
}

/// The requirements with the given texts, as expressions.
pub open spec fn requirements(texts: Seq<Seq<char>>) -> Seq<LicenseExpr> {
    Seq::new(texts.len(), |i: int| LicenseExpr::Requirement(texts[i]))
}

/// Requirements are their own flattened canonical forms, and those that
/// compare equal are the same.
proof fn lemma_requirements_flattened(texts: Seq<Seq<char>>, op: Operator)
    ensures
        flattened(normalized_all(requirements(texts)), op) == requirements(texts),
        tie_free(requirements(texts)),
{
    let rs = requirements(texts);
    assert(normalized_all(rs) =~= rs);
    lemma_nothing_to_flatten(rs, op);
    assert forall|i: int, j: int|
        0 <= i < rs.len() && 0 <= j < rs.len() && expr_order(rs[i], rs[j])
            == Order::Equal implies rs[i] == rs[j] by {
        lemma_expr_order_equal(rs[i], rs[j]);
        assert(rs[i].leaves() == seq![texts[i]]);
        assert(rs[j].leaves() == seq![texts[j]]);
        assert(seq![texts[i]][0] == seq![texts[j]][0]);
    }
}

/// A node over requirements alone has a canonical form that depends only
/// on which requirements there are: not on their order, nor on how often
/// one is repeated.
pub proof fn lemma_requirement_order_irrelevant(
    op: Operator,
    texts1: Seq<Seq<char>>,
    texts2: Seq<Seq<char>>,
)
    requires
        forall|t: Seq<char>| texts1.contains(t) <==> texts2.contains(t),
    ensures
        LicenseExpr::join(op, requirements(texts1)).normalized() == LicenseExpr::join(
            op,
            requirements(texts2),
        ).normalized(),
{
    let r1 = requirements(texts1);
    let r2 = requirements(texts2);
    lemma_requirements_flattened(texts1, op);
    assert forall|e: LicenseExpr| r1.contains(e) <==> r2.contains(e) by {
        if r1.contains(e) {
            let i = choose|i: int| 0 <= i < r1.len() && r1[i] == e;
            assert(texts1.contains(texts1[i]));
            let j = choose|j: int| 0 <= j < texts2.len() && texts2[j] == texts1[i];
            assert(r2[j] == e);
        }
        if r2.contains(e) {
            let i = choose|i: int| 0 <= i < r2.len() && r2[i] == e;
            assert(texts2.contains(texts2[i]));
            let j = choose|j: int| 0 <= j < texts1.len() && texts1[j] == texts2[i];
            assert(r1[j] == e);
        }
    }
    lemma_operand_order_irrelevant(op, r1, r2);
}

/// Two requirements joined by an operator have the same canonical form in
/// either order.
pub proof fn lemma_requirements_commute(op: Operator, a: Seq<char>, b: Seq<char>)
    ensures
        LicenseExpr::join(
            op,
            seq![LicenseExpr::Requirement(a), LicenseExpr::Requirement(b)],
        ).normalized() == LicenseExpr::join(
            op,
            seq![LicenseExpr::Requirement(b), LicenseExpr::Requirement(a)],
        ).normalized(),
{
    let t1 = seq![a, b];
    let t2 = seq![b, a];
    assert(requirements(t1) =~= seq![LicenseExpr::Requirement(a), LicenseExpr::Requirement(b)]);
    assert(requirements(t2) =~= seq![LicenseExpr::Requirement(b), LicenseExpr::Requirement(a)]);
    assert forall|t: Seq<char>| t1.contains(t) <==> t2.contains(t) by {
        if t1.contains(t) {
            let i = choose|i: int| 0 <= i < t1.len() && t1[i] == t;
            assert(t2[1 - i] == t);
        }
        if t2.contains(t) {
            let i = choose|i: int| 0 <= i < t2.len() && t2[i] == t;
            assert(t1[1 - i] == t);
        }
    }
    lemma_requirement_order_irrelevant(op, t1, t2);
}

/// Three requirements joined by one operator have the same canonical form
/// however they are grouped.
pub proof fn lemma_nested_requirements_merge(
    op: Operator,
    a: Seq<char>,
    b: Seq<char>,
    c: Seq<char>,
)
    ensures
        LicenseExpr::join(
            op,
            seq![
                LicenseExpr::Requirement(a),
                LicenseExpr::join(
                    op,
                    seq![LicenseExpr::Requirement(b), LicenseExpr::Requirement(c)],
                ),
            ],
        ).normalized() == LicenseExpr::join(
            op,
            seq![
                LicenseExpr::Requirement(a),
                LicenseExpr::Requirement(b),
                LicenseExpr::Requirement(c),
            ],
        ).normalized(),
        LicenseExpr::join(
            op,
            seq![
                LicenseExpr::join(
                    op,
                    seq![LicenseExpr::Requirement(a), LicenseExpr::Requirement(b)],
                ),
                LicenseExpr::Requirement(c),
            ],
        ).normalized() == LicenseExpr::join(
            op,
            seq![
                LicenseExpr::Requirement(a),
                LicenseExpr::Requirement(b),
                LicenseExpr::Requirement(c),
            ],
        ).normalized(),
{
    let ra = LicenseExpr::Requirement(a);
    let rb = LicenseExpr::Requirement(b);
    let rc = LicenseExpr::Requirement(c);
    let none = Seq::<LicenseExpr>::empty();
    lemma_requirements_flattened(seq![a, b, c], op);
    assert(requirements(seq![a, b, c]) =~= seq![ra, rb, rc]);
    assert(seq![ra] + seq![rb, rc] + none =~= seq![ra, rb, rc]);
    assert(seq![ra] + seq![LicenseExpr::join(op, seq![rb, rc])] + none =~= seq![
        ra,
        LicenseExpr::join(op, seq![rb, rc]),
    ]);
    lemma_nested_operands_merge(op, seq![ra], seq![rb, rc], none);
    assert(none + seq![ra, rb] + seq![rc] =~= seq![ra, rb, rc]);
    assert(none + seq![LicenseExpr::join(op, seq![ra, rb])] + seq![rc] =~= seq![
        LicenseExpr::join(op, seq![ra, rb]),
        rc,
    ]);
    lemma_nested_operands_merge(op, none, seq![ra, rb], seq![rc]);
}

/// An expression joined with itself has the canonical text of the
/// expression alone.
pub proof fn lemma_repeated_operand(op: Operator, x: LicenseExpr)
    ensures
        LicenseExpr::join(op, seq![x, x]).normalized().text() == x.normalized().text(),
{
    let nx = x.normalized();
    let twice = seq![nx, nx];
    let once = seq![nx];
    let both = LicenseExpr::join(op, seq![x, x]);
    assert(normalized_all(seq![x, x]) =~= twice);
    lemma_join_normalized(op, seq![x, x]);
    lemma_normalized_is_canonical(x);
    lemma_flattened_members(twice, op);
    lemma_flattened_members(once, op);
    assert forall|e: LicenseExpr| twice.contains(e) <==> once.contains(e) by {
        if twice.contains(e) {
            assert(once[0] == e);
        }
        if once.contains(e) {
            assert(twice[0] == e);
        }
    }
    lemma_operands_from_members(twice, once, op);
    lemma_operands_from_members(once, twice, op);
    assert forall|e: LicenseExpr| flattened(twice, op).contains(e) <==> flattened(
        once,
        op,
    ).contains(e) by {
        assert(flattened(twice, op).contains(e) <==> is_operand(twice, op, e));
        assert(flattened(once, op).contains(e) <==> is_operand(once, op, e));
        assert(is_operand(twice, op, e) ==> is_operand(once, op, e));
        assert(is_operand(once, op, e) ==> is_operand(twice, op, e));
    }
    if nx.operator() == Some(op) {
        // the operands of `nx` take its place, and they are canonical operands already
        let ds = nx.children();
        assert(are_canonical_operands(ds, op));
        assert(flattened(once, op) =~= ds) by {
            reveal_with_fuel(kept, 2);
            reveal_with_fuel(spliced, 2);
            assert(once.drop_last() =~= Seq::<LicenseExpr>::empty());
        }
        lemma_strictly_ascending_tie_free(ds);
        lemma_canonical_unique(flattened(once, op), flattened(twice, op));
        lemma_strict_is_ascending(ds);
        lemma_nothing_to_sort(ds);
        lemma_nothing_to_drop(ds);
        assert(canonical_children(twice, op) == ds);
        assert(both.normalized() == nx);
    } else {
        lemma_nothing_to_flatten(once, op);
        lemma_strict_single(nx);
        lemma_strictly_ascending_tie_free(once);
        lemma_canonical_unique(flattened(once, op), flattened(twice, op));
        lemma_nothing_to_sort(once);
        lemma_nothing_to_drop(once);
        assert(canonical_children(twice, op) == once);
        assert(both.normalized() == LicenseExpr::join(op, once));
        assert(LicenseExpr::join(op, once).text() == nx.text());
    }
}

/// Operands of which each comes before every later one are all different
/// in the order.
proof fn lemma_strictly_ascending_tie_free(s: Seq<LicenseExpr>)
    requires
        strictly_ascending(s),
    ensures
        tie_free(s),
{
    assert forall|i: int, j: int|
        0 <= i < s.len() && 0 <= j < s.len() && expr_order(s[i], s[j]) == Order::Equal implies s[i]
        == s[j] by {
        if i < j {
            assert(expr_order(s[i], s[j]) == Order::Less);
        } else if j < i {
            assert(expr_order(s[j], s[i]) == Order::Less);
            lemma_expr_order_flip(s[j], s[i]);
        }
    }
}

/// A requirement joined with itself has the canonical text of the
/// requirement alone, which is its own text.
pub proof fn lemma_repeated_requirement(op: Operator, a: Seq<char>)
    ensures
        LicenseExpr::join(
            op,
            seq![LicenseExpr::Requirement(a), LicenseExpr::Requirement(a)],
        ).normalized().text() == a,
{
    lemma_repeated_operand(op, LicenseExpr::Requirement(a));
}

/// A single operand ascends.
proof fn lemma_strict_single(x: LicenseExpr)
    ensures
        strictly_ascending(seq![x]),
        ascending(seq![x]),
{
}

/// Every node of the expression has two or more operands.
pub open spec fn is_proper(e: LicenseExpr) -> bool
    decreases e,
{
    match e {
        LicenseExpr::Requirement(_) => true,
        LicenseExpr::Or(cs) => are_proper(cs),
        LicenseExpr::And(cs) => are_proper(cs),
    }
}

/// There are two or more expressions, and every node of them has two or
/// more operands.
pub open spec fn are_proper(cs: Seq<LicenseExpr>) -> bool
    decreases cs,
{
    cs.len() >= 2 && forall|i: int| 0 <= i < cs.len() ==> is_proper(#[trigger] cs[i])
}

/// The expression as a text spells it from left to right: a node of more
/// than two operands is the node of its first operand and of the node of
/// the others.
pub open spec fn paired(e: LicenseExpr) -> LicenseExpr
    decreases e,
{
    match e {
        LicenseExpr::Requirement(_) => e,
        LicenseExpr::Or(cs) => paired_node(Operator::Or, cs),
        LicenseExpr::And(cs) => paired_node(Operator::And, cs),
    }
}

/// The node of `op` over the operands, each as a text spells it, with the
/// operands after the first in a node of their own where there are more
/// than two.
pub open spec fn paired_node(op: Operator, cs: Seq<LicenseExpr>) -> LicenseExpr
    decreases cs,
{
    if cs.len() > 2 {
        LicenseExpr::join(op, seq![paired(cs[0]), paired_node(op, cs.drop_first())])
    } else if cs.len() == 2 {
        LicenseExpr::join(op, seq![paired(cs[0]), paired(cs[1])])
    } else {
        LicenseExpr::join(op, cs)
    }
}

/// Canonical operands are still canonical operands without the first.
proof fn lemma_canonical_operands_rest(cs: Seq<LicenseExpr>, op: Operator)
    requires
        are_canonical_operands(cs, op),
        cs.len() > 0,
    ensures
        are_canonical_operands(cs.drop_first(), op),
{
    let rest = cs.drop_first();
    assert forall|i: int| 0 <= i < rest.len() implies (#[trigger] rest[i]).operator() != Some(op)
        && is_canonical(rest[i]) by {
        assert(rest[i] == cs[i + 1]);
        assert(cs[i + 1].operator() != Some(op) && is_canonical(cs[i + 1]));
    }
    assert forall|i: int, j: int| 0 <= i < j < rest.len() implies expr_order(rest[i], rest[j])
        == Order::Less by {
        assert(rest[i] == cs[i + 1] && rest[j] == cs[j + 1]);
    }
}

/// Canonical operands are their own sorted, duplicate-free operands.
proof fn lemma_canonical_operands_settled(cs: Seq<LicenseExpr>)
    requires
        strictly_ascending(cs),
    ensures
        deduplicated(sorted_children(cs)) == cs,
{
    lemma_strict_is_ascending(cs);
    lemma_nothing_to_sort(cs);
    lemma_nothing_to_drop(cs);
}

/// A canonical expression whose nodes all have two or more operands is
/// the canonical form of the expression as a text spells it.
pub proof fn lemma_paired_normalizes(e: LicenseExpr)
    requires
        is_canonical(e),
        is_proper(e),
    ensures
        paired(e).normalized() == e,
    decreases e,
{
    match e {
        LicenseExpr::Requirement(_) => {},
        LicenseExpr::Or(cs) => {
            lemma_paired_node_normalizes(Operator::Or, cs);
        },
        LicenseExpr::And(cs) => {
            lemma_paired_node_normalizes(Operator::And, cs);
        },
    }
}

/// The node over canonical operands of two or more operands each, as a
/// text spells it, has the node over the operands as its canonical form.
proof fn lemma_paired_node_normalizes(op: Operator, cs: Seq<LicenseExpr>)
    requires
        are_canonical_operands(cs, op),
        cs.len() >= 2,
        forall|i: int| 0 <= i < cs.len() ==> is_proper(#[trigger] cs[i]),
    ensures
        paired_node(op, cs).normalized() == LicenseExpr::join(op, cs),
    decreases cs,
{
    assert(cs[0].operator() != Some(op) && is_canonical(cs[0]));
    assert(is_proper(cs[0]));
    lemma_paired_normalizes(cs[0]);
    lemma_canonical_operands_settled(cs);
    if cs.len() > 2 {
        let rest = cs.drop_first();
        lemma_canonical_operands_rest(cs, op);
        assert forall|i: int| 0 <= i < rest.len() implies is_proper(#[trigger] rest[i]) by {
            assert(rest[i] == cs[i + 1]);
        }
        lemma_paired_node_normalizes(op, rest);
        let operands = seq![paired(cs[0]), paired_node(op, rest)];
        let node = LicenseExpr::join(op, rest);
        assert(normalized_all(operands) =~= seq![cs[0], node]);
        assert(flattened(seq![cs[0], node], op) =~= cs) by {
            reveal_with_fuel(kept, 3);
            reveal_with_fuel(spliced, 3);
            assert(seq![cs[0], node].drop_last() =~= seq![cs[0]]);
            assert(seq![cs[0]].drop_last() =~= Seq::<LicenseExpr>::empty());
            assert(seq![cs[0]] + rest =~= cs);
        }
        lemma_join_normalized(op, operands);
    } else {
        assert(cs[1].operator() != Some(op) && is_canonical(cs[1]));
        assert(is_proper(cs[1]));
        lemma_paired_normalizes(cs[1]);
        let operands = seq![paired(cs[0]), paired(cs[1])];
        assert(normalized_all(operands) =~= cs);
        lemma_nothing_to_flatten(cs, op);
        lemma_join_normalized(op, operands);
    }
}

} // verus!
