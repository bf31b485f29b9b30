//! The mathematical model of license expressions: a tree of requirements
//! joined by `OR` and `AND`, its canonical form and its rendering as text.

use crate::order::{text_order, Order};
use vstd::prelude::*;

verus! {

/// The two joining operators of a license expression.
#[derive(Clone, Copy, Debug, PartialEq, Eq, Structural)]
pub enum Operator {
    Or,
    And,
}

/// A license expression. A requirement is held as its canonical text.
pub enum LicenseExpr {
    Requirement(Seq<char>),
    Or(Seq<LicenseExpr>),
    And(Seq<LicenseExpr>),
}

impl LicenseExpr {
    /// The operator of an operator node.
    pub open spec fn operator(self) -> Option<Operator> {
        match self {
            LicenseExpr::Requirement(_) => None,
            LicenseExpr::Or(_) => Some(Operator::Or),
            LicenseExpr::And(_) => Some(Operator::And),
        }
    }

    /// The operands of an operator node; a requirement has none.
    pub open spec fn children(self) -> Seq<LicenseExpr> {
        match self {
            LicenseExpr::Requirement(_) => Seq::empty(),
            LicenseExpr::Or(cs) => cs,
            LicenseExpr::And(cs) => cs,
        }
    }

    /// The operator node with the given operands.
    pub open spec fn join(op: Operator, children: Seq<LicenseExpr>) -> LicenseExpr {
        match op {
            Operator::Or => LicenseExpr::Or(children),
            Operator::And => LicenseExpr::And(children),
        }
    }

    /// The requirements of the tree, from left to right.
    pub open spec fn leaves(self) -> Seq<Seq<char>>
        decreases self,
    {
        match self {
            LicenseExpr::Requirement(r) => seq![r],
            LicenseExpr::Or(cs) => leaves_of(cs),
            LicenseExpr::And(cs) => leaves_of(cs),
        }
    }

    /// The canonical form of the tree.
    pub open spec fn normalized(self) -> LicenseExpr
        decreases self,
    {
        match self {
            LicenseExpr::Requirement(r) => self,
            LicenseExpr::Or(cs) => LicenseExpr::Or(
                canonical_children(normalized_all(cs), Operator::Or),
            ),
            LicenseExpr::And(cs) => LicenseExpr::And(
                canonical_children(normalized_all(cs), Operator::And),
            ),
        }
    }

    /// The text of the tree where it stands under a node of `parent`, or
    /// as a whole expression where there is no such node. A node of two or
    /// more operands is put in parentheses under the other operator, and
    /// only there; a node of a single operand is written as that operand.
    pub open spec fn rendered(self, parent: Option<Operator>) -> Seq<char>
        decreases self,
    {
        match self {
            LicenseExpr::Requirement(r) => r,
            LicenseExpr::Or(cs) => if cs.len() == 1 {
                cs[0].rendered(parent)
            } else {
                enclosed(
                    needs_parentheses(Operator::Or, cs.len(), parent),
                    joined(cs, Operator::Or),
                )
            },
            LicenseExpr::And(cs) => if cs.len() == 1 {
                cs[0].rendered(parent)
            } else {
                enclosed(
                    needs_parentheses(Operator::And, cs.len(), parent),
                    joined(cs, Operator::And),
                )
            },
        }
    }

    /// The text of the tree as a whole expression.
    pub open spec fn text(self) -> Seq<char> {
        self.rendered(None)
    }
}

/// The requirements of a list of trees, from left to right.
pub open spec fn leaves_of(cs: Seq<LicenseExpr>) -> Seq<Seq<char>>
    decreases cs,
{
    if cs.len() == 0 {
        Seq::empty()
    } else {
        leaves_of(cs.drop_last()) + cs.last().leaves()
    }
}

/// The order on sequences of requirements: the first differing requirement
/// decides by the order on text; where one sequence is a proper prefix of
/// the other, the shorter one comes first.
pub open spec fn leaves_order(a: Seq<Seq<char>>, b: Seq<Seq<char>>) -> Order
    decreases a.len(),
{
    if a.len() == 0 {
        if b.len() == 0 {
            Order::Equal
        } else {
            Order::Less
        }
    } else if b.len() == 0 {
        Order::Greater
    } else {
        match text_order(a[0], b[0]) {
            Order::Equal => leaves_order(a.drop_first(), b.drop_first()),
            o => o,
        }
    }
}

/// The order in which operands are sorted: by their requirements alone,
/// whatever the operators that join them.
#[verifier::opaque]
pub open spec fn expr_order(x: LicenseExpr, y: LicenseExpr) -> Order {
    leaves_order(x.leaves(), y.leaves())
}

/// The operands that are not themselves nodes of `op`, in their order.
pub open spec fn kept(cs: Seq<LicenseExpr>, op: Operator) -> Seq<LicenseExpr>
    decreases cs.len(),
{
    if cs.len() == 0 {
        Seq::empty()
    } else if cs.last().operator() == Some(op) {
        kept(cs.drop_last(), op)
    } else {
        kept(cs.drop_last(), op).push(cs.last())
    }
}

/// The operands of the operands that are nodes of `op`, in their order.
pub open spec fn spliced(cs: Seq<LicenseExpr>, op: Operator) -> Seq<LicenseExpr>
    decreases cs.len(),
{
    if cs.len() == 0 {
        Seq::empty()
    } else if cs.last().operator() == Some(op) {
        spliced(cs.drop_last(), op) + cs.last().children()
    } else {
        spliced(cs.drop_last(), op)
    }
}

/// The operands of a node of `op` with every operand that is a node of `op`
/// replaced by that operand's own operands, which move to the end.
pub open spec fn flattened(cs: Seq<LicenseExpr>, op: Operator) -> Seq<LicenseExpr> {
    kept(cs, op) + spliced(cs, op)
}

/// `x` put into `sorted` behind every operand that does not come after it.
pub open spec fn inserted(sorted: Seq<LicenseExpr>, x: LicenseExpr) -> Seq<LicenseExpr>
    decreases sorted.len(),
{
    if sorted.len() == 0 {
        seq![x]
    } else if expr_order(sorted.last(), x) == Order::Greater {
        inserted(sorted.drop_last(), x).push(sorted.last())
    } else {
        sorted.push(x)
    }
}

/// The operands in ascending order; operands that compare equal keep the
/// order they had.
pub open spec fn sorted_children(cs: Seq<LicenseExpr>) -> Seq<LicenseExpr>
    decreases cs.len(),
{
    if cs.len() == 0 {
        Seq::empty()
    } else {
        inserted(sorted_children(cs.drop_last()), cs.last())
    }
}

/// The operands without those that compare equal to the operand kept
/// before them.
pub open spec fn deduplicated(cs: Seq<LicenseExpr>) -> Seq<LicenseExpr>
    decreases cs.len(),
{
    if cs.len() == 0 {
        Seq::empty()
    } else {
        let front = deduplicated(cs.drop_last());
        if front.len() > 0 && expr_order(front.last(), cs.last()) == Order::Equal {
            front
        } else {
            front.push(cs.last())
        }
    }
}

/// The operands of a canonical node of `op`, from operands that are
/// canonical themselves: flattened, sorted, and without duplicates.
pub open spec fn canonical_children(cs: Seq<LicenseExpr>, op: Operator) -> Seq<LicenseExpr> {
    deduplicated(sorted_children(flattened(cs, op)))
}

/// The canonical forms of the trees of a list.
pub open spec fn normalized_all(cs: Seq<LicenseExpr>) -> Seq<LicenseExpr>
    decreases cs,
{
    Seq::new(
        cs.len(),
        |i: int|
            if 0 <= i < cs.len() {
                cs[i].normalized()
            } else {
                cs[i]
            },
    )
}

/// The word that stands between the operands of a node.
pub open spec fn separator(op: Operator) -> Seq<char> {
    match op {
        Operator::Or => " OR "@,
        Operator::And => " AND "@,
    }
}

/// Whether a node of `op` with `count` operands is put in parentheses
/// under `parent`.
pub open spec fn needs_parentheses(op: Operator, count: nat, parent: Option<Operator>) -> bool {
    count > 1 && parent.is_some() && parent != Some(op)
}

/// `body`, in parentheses where `parentheses` holds.
pub open spec fn enclosed(parentheses: bool, body: Seq<char>) -> Seq<char> {
    if parentheses {
        "("@ + body + ")"@
    } else {
        body
    }
}

/// The texts of the operands of a node of `op`, with the separator of `op`
/// between them.
pub open spec fn joined(cs: Seq<LicenseExpr>, op: Operator) -> Seq<char>
    decreases cs,
{
    if cs.len() == 0 {
        Seq::empty()
    } else if cs.len() == 1 {
        cs[0].rendered(Some(op))
    } else {
        joined(cs.drop_last(), op) + separator(op) + cs.last().rendered(Some(op))
    }
}

} // verus!
