//! Properties of the order in which operands are sorted.

use crate::expr::{expr_order, leaves_order, LicenseExpr};
use crate::order::{
    lemma_text_order_equal, lemma_text_order_flip, lemma_text_order_transitive, text_order, Order,
};
use vstd::prelude::*;

verus! {

/// Exchanging the operands of the order on requirement sequences flips its
/// outcome.
pub proof fn lemma_leaves_order_flip(a: Seq<Seq<char>>, b: Seq<Seq<char>>)
    ensures
        leaves_order(b, a) == leaves_order(a, b).flip(),
    decreases a.len(),
{
    if a.len() > 0 && b.len() > 0 {
        lemma_text_order_flip(a[0], b[0]);
        lemma_leaves_order_flip(a.drop_first(), b.drop_first());
    }
}

/// Two requirement sequences compare equal exactly when they are the same.
pub proof fn lemma_leaves_order_equal(a: Seq<Seq<char>>, b: Seq<Seq<char>>)
    ensures
        leaves_order(a, b) == Order::Equal <==> a == b,
    decreases a.len(),
{
    if a.len() > 0 && b.len() > 0 {
        lemma_text_order_equal(a[0], b[0]);
        lemma_leaves_order_equal(a.drop_first(), b.drop_first());
        if a[0] == b[0] && a.drop_first() == b.drop_first() {
            assert(a =~= seq![a[0]] + a.drop_first());
            assert(b =~= seq![b[0]] + b.drop_first());
        }
    } else if a.len() == 0 && b.len() == 0 {
        assert(a =~= b);
    }
}

/// The order on requirement sequences is transitive, and two sequences
/// that compare equal have nothing strictly between them.
pub proof fn lemma_leaves_order_transitive(
    a: Seq<Seq<char>>,
    b: Seq<Seq<char>>,
    c: Seq<Seq<char>>,
)
    requires
        leaves_order(a, b) != Order::Greater,
        leaves_order(b, c) != Order::Greater,
    ensures
        leaves_order(a, c) != Order::Greater,
        leaves_order(a, c) == Order::Equal ==> leaves_order(a, b) == Order::Equal && leaves_order(
            b,
            c,
        ) == Order::Equal,
    decreases a.len(),
{
    if a.len() > 0 && b.len() > 0 && c.len() > 0 {
        lemma_text_order_transitive(a[0], b[0], c[0]);
        if text_order(a[0], b[0]) == Order::Equal && text_order(b[0], c[0]) == Order::Equal {
            lemma_leaves_order_transitive(a.drop_first(), b.drop_first(), c.drop_first());
        }
    }
}

/// Exchanging the operands of the order on expressions flips its outcome.
pub proof fn lemma_expr_order_flip(x: LicenseExpr, y: LicenseExpr)
    ensures
        expr_order(y, x) == expr_order(x, y).flip(),
{
    reveal(expr_order);
    lemma_leaves_order_flip(x.leaves(), y.leaves());
}

/// Two expressions compare equal exactly when they have the same
/// requirements in the same order.
pub proof fn lemma_expr_order_equal(x: LicenseExpr, y: LicenseExpr)
    ensures
        expr_order(x, y) == Order::Equal <==> x.leaves() == y.leaves(),
{
    reveal(expr_order);
    lemma_leaves_order_equal(x.leaves(), y.leaves());
}

/// The order on expressions is transitive, and two expressions that
/// compare equal have nothing strictly between them.
pub proof fn lemma_expr_order_transitive(x: LicenseExpr, y: LicenseExpr, z: LicenseExpr)
    requires
        expr_order(x, y) != Order::Greater,
        expr_order(y, z) != Order::Greater,
    ensures
        expr_order(x, z) != Order::Greater,
        expr_order(x, z) == Order::Equal ==> expr_order(x, y) == Order::Equal && expr_order(y, z)
            == Order::Equal,
{
    reveal(expr_order);
    lemma_leaves_order_transitive(x.leaves(), y.leaves(), z.leaves());
}

} // verus!
