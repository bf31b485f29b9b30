//! License expression trees, their order, canonical form and text.

use crate::expr::{
    canonical_children, deduplicated, expr_order, inserted, joined, kept, leaves_of, leaves_order,
    needs_parentheses, normalized_all, sorted_children, spliced, LicenseExpr, Operator,
};
use crate::normal_form::{is_canonical, lemma_normalized_is_canonical};
use crate::order::{compare_text, text_order, Order};
use crate::requirement::LicenseRequirement;
use crate::text::texts;
use vstd::prelude::*;
use vstd::string::*;

verus! {

/// A license expression: a requirement, or two or more expressions joined
/// by `OR` or by `AND`.
#[derive(Debug, PartialEq, Eq)]
pub enum LicenseTree {
    License(LicenseRequirement),
    Or(Vec<LicenseTree>),
    And(Vec<LicenseTree>),
}

/// The expressions that a list of trees stands for.
pub open spec fn views(ts: Seq<LicenseTree>) -> Seq<LicenseExpr>
    decreases ts,
{
    Seq::new(
        ts.len(),
        |i: int|
            if 0 <= i < ts.len() {
                ts[i]@
            } else {
                LicenseExpr::Requirement(Seq::empty())
            },
    )
}

impl View for LicenseTree {
    type V = LicenseExpr;

    open spec fn view(&self) -> LicenseExpr
        decreases self,
    {
        match self {
            LicenseTree::License(r) => LicenseExpr::Requirement(r@.text()),
            LicenseTree::Or(nodes) => LicenseExpr::Or(views(nodes@)),
            LicenseTree::And(nodes) => LicenseExpr::And(views(nodes@)),
        }
    }
}

/// The requirements of one more tree follow those of the trees before it.
proof fn lemma_leaves_of_step(cs: Seq<LicenseExpr>, i: int)
    requires
        0 <= i < cs.len(),
    ensures
        leaves_of(cs.take(i + 1)) == leaves_of(cs.take(i)) + cs[i].leaves(),
{
    assert(cs.take(i + 1).drop_last() =~= cs.take(i));
}

/// Requirements that two sequences share at their start do not decide
/// their order.
proof fn lemma_leaves_order_skip(a: Seq<Seq<char>>, b: Seq<Seq<char>>, i: int)
    requires
        0 <= i <= a.len(),
        i <= b.len(),
        forall|k: int| 0 <= k < i ==> text_order(a[k], b[k]) == Order::Equal,
    ensures
        leaves_order(a, b) == leaves_order(a.skip(i), b.skip(i)),
    decreases i,
{
    if i == 0 {
        assert(a.skip(0) =~= a);
        assert(b.skip(0) =~= b);
    } else {
        assert forall|k: int| 0 <= k < i - 1 implies text_order(
            a.drop_first()[k],
            b.drop_first()[k],
        ) == Order::Equal by {
            assert(a.drop_first()[k] == a[k + 1]);
            assert(b.drop_first()[k] == b[k + 1]);
        }
        lemma_leaves_order_skip(a.drop_first(), b.drop_first(), i - 1);
        assert(a.drop_first().skip(i - 1) =~= a.skip(i));
        assert(b.drop_first().skip(i - 1) =~= b.skip(i));
    }
}

/// A tree put at the end of a list stands at the end of what the list
/// stands for.
proof fn lemma_views_push(ts: Seq<LicenseTree>, t: LicenseTree)
    ensures
        views(ts.push(t)) == views(ts).push(t@),
{
    assert(views(ts.push(t)) =~= views(ts).push(t@));
}

/// Two lists, one after the other, stand for what they stand for, one
/// after the other.
proof fn lemma_views_add(a: Seq<LicenseTree>, b: Seq<LicenseTree>)
    ensures
        views(a + b) == views(a) + views(b),
{
    assert(views(a + b) =~= views(a) + views(b));
}

/// A tree inserted into a list is inserted into what the list stands for.
proof fn lemma_views_insert(ts: Seq<LicenseTree>, i: int, t: LicenseTree)
    requires
        0 <= i <= ts.len(),
    ensures
        views(ts.insert(i, t)) == views(ts).insert(i, t@),
{
    assert(views(ts.insert(i, t)) =~= views(ts).insert(i, t@));
}

/// Operands that come after `x` stay behind it: putting `x` into the list
/// is putting it into the part before them.
proof fn lemma_inserted_split(s: Seq<LicenseExpr>, x: LicenseExpr, j: int)
    requires
        0 <= j <= s.len(),
        forall|k: int| j <= k < s.len() ==> expr_order(s[k], x) == Order::Greater,
    ensures
        inserted(s, x) == inserted(s.take(j), x) + s.skip(j),
    decreases s.len() - j,
{
    if j == s.len() {
        assert(s.take(j) =~= s);
        assert(inserted(s, x) + s.skip(j) =~= inserted(s, x));
    } else {
        lemma_inserted_split(s.drop_last(), x, j);
        assert(s.drop_last().take(j) =~= s.take(j));
        assert(s.drop_last().skip(j).push(s.last()) =~= s.skip(j));
        assert((inserted(s.take(j), x) + s.drop_last().skip(j)).push(s.last()) =~= inserted(
            s.take(j),
            x,
        ) + s.skip(j));
    }
}

/// Puts the trees in ascending order; trees that compare equal keep the
/// order they had.
fn sort_trees(nodes: Vec<LicenseTree>) -> (r: Vec<LicenseTree>)
    ensures
        views(r@) == sorted_children(views(nodes@)),
{
    let ghost all = nodes@;
    let mut sorted: Vec<LicenseTree> = Vec::new();
    for x in it: nodes
        invariant
            it.seq() == all,
            views(sorted@) == sorted_children(views(all).take(it.index() as int)),
    {
        let ghost before = views(sorted@);
        let mut j: usize = sorted.len();
        loop
            invariant
                j <= sorted.len(),
                views(sorted@) == before,
                forall|k: int| j <= k < sorted.len() ==> expr_order(before[k], x@) == Order::Greater,
            ensures
                j == 0 || expr_order(before[j - 1], x@) != Order::Greater,
            decreases j,
        {
            if j == 0 {
                break ;
            }
            let o = sorted[j - 1].compare(&x);
            if o != Order::Greater {
                break ;
            }
            j = j - 1;
        }
        proof {
            lemma_inserted_split(before, x@, j as int);
            if j > 0 {
                assert(before.take(j as int).last() == before[j - 1]);
            }
            assert(inserted(before.take(j as int), x@) == before.take(j as int).push(x@));
            assert(before.take(j as int).push(x@) + before.skip(j as int) =~= before.insert(
                j as int,
                x@,
            ));
            lemma_views_insert(sorted@, j as int, x);
            assert(views(all).take(it.index() + 1).drop_last() =~= views(all).take(
                it.index() as int,
            ));
        }
        sorted.insert(j, x);
    }
    assert(views(all).take(all.len() as int) =~= views(all));
    sorted
}

/// Drops every tree that compares equal to the tree kept before it.
fn dedup_trees(nodes: Vec<LicenseTree>) -> (r: Vec<LicenseTree>)
    ensures
        views(r@) == deduplicated(views(nodes@)),
{
    let ghost all = nodes@;
    let mut out: Vec<LicenseTree> = Vec::new();
    for x in it: nodes
        invariant
            it.seq() == all,
            views(out@) == deduplicated(views(all).take(it.index() as int)),
    {
        proof {
            assert(views(all).take(it.index() + 1).drop_last() =~= views(all).take(
                it.index() as int,
            ));
            lemma_views_push(out@, x);
        }
        let fresh = if out.len() == 0 {
            true
        } else {
            out[out.len() - 1].compare(&x) != Order::Equal
        };
        if fresh {
            out.push(x);
        }
    }
    assert(views(all).take(all.len() as int) =~= views(all));
    out
}

/// The operands of the canonical node of `op` over `nodes`.
fn canonical_operands(nodes: &Vec<LicenseTree>, op: Operator) -> (r: Vec<LicenseTree>)
    ensures
        views(r@) == canonical_children(normalized_all(views(nodes@)), op),
    decreases nodes,
{
    let ghost all = normalized_all(views(nodes@));
    let mut retained: Vec<LicenseTree> = Vec::new();
    let mut moved: Vec<LicenseTree> = Vec::new();
    let mut i: usize = 0;
    while i < nodes.len()
        invariant
            i <= nodes.len(),
            all == normalized_all(views(nodes@)),
            views(retained@) == kept(all.take(i as int), op),
            views(moved@) == spliced(all.take(i as int), op),
        decreases nodes.len() - i,
    {
        let n = nodes[i].normalized();
        proof {
            assert(all.take(i + 1).drop_last() =~= all.take(i as int));
            assert(all.take(i + 1).last() == n@);
        }
        match n {
            LicenseTree::License(r) => {
                proof {
                    lemma_views_push(retained@, LicenseTree::License(r));
                }
                retained.push(LicenseTree::License(r));
            },
            LicenseTree::Or(mut inner) => {
                if op == Operator::Or {
                    proof {
                        lemma_views_add(moved@, inner@);
                    }
                    moved.append(&mut inner);
                } else {
                    proof {
                        lemma_views_push(retained@, LicenseTree::Or(inner));
                    }
                    retained.push(LicenseTree::Or(inner));
                }
            },
            LicenseTree::And(mut inner) => {
                if op == Operator::And {
                    proof {
                        lemma_views_add(moved@, inner@);
                    }
                    moved.append(&mut inner);
                } else {
                    proof {
                        lemma_views_push(retained@, LicenseTree::And(inner));
                    }
                    retained.push(LicenseTree::And(inner));
                }
            },
        }
        i = i + 1;
    }
    proof {
        assert(all.take(nodes.len() as int) =~= all);
        lemma_views_add(retained@, moved@);
    }
    retained.append(&mut moved);
    dedup_trees(sort_trees(retained))
}

/// Whether a node of `op` with `count` operands is written in parentheses
/// under `parent`.
fn parenthesised(op: Operator, count: usize, parent: Option<Operator>) -> (r: bool)
    ensures
        r == needs_parentheses(op, count as nat, parent),
{
    match parent {
        Some(p) => count > 1 && p != op,
        None => false,
    }
}

/// Appends the texts of the operands of a node of `op` to `acc`, with the
/// separator of `op` between them.
fn serialize_operands(nodes: &Vec<LicenseTree>, op: Operator, acc: &mut String)
    ensures
        final(acc)@ == old(acc)@ + joined(views(nodes@), op),
    decreases nodes,
{
    let mut i: usize = 0;
    while i < nodes.len()
        invariant
            i <= nodes.len(),
            acc@ == old(acc)@ + joined(views(nodes@).take(i as int), op),
        decreases nodes.len() - i,
    {
        if i > 0 {
            match op {
                Operator::Or => acc.append(" OR "),
                Operator::And => acc.append(" AND "),
            }
        }
        nodes[i].serialize_inner(acc, Some(op));
        proof {
            let cs = views(nodes@);
            assert(cs.take(i + 1).drop_last() =~= cs.take(i as int));
            assert(cs.take(i + 1).last() == cs[i as int]);
            if i == 0 {
                assert(cs.take(1)[0] == cs[0]);
                assert(acc@ =~= old(acc)@ + joined(cs.take(1), op));
            } else {
                assert(acc@ =~= old(acc)@ + joined(cs.take(i + 1), op));
            }
        }
        i = i + 1;
    }
    assert(views(nodes@).take(nodes.len() as int) =~= views(nodes@));
}

/// Appends the requirements of the trees of `nodes` to `out`.
fn collect_leaves_of(nodes: &Vec<LicenseTree>, out: &mut Vec<String>)
    ensures
        texts(final(out)@) == texts(old(out)@) + leaves_of(views(nodes@)),
    decreases nodes,
{
    let mut i: usize = 0;
    while i < nodes.len()
        invariant
            i <= nodes.len(),
            texts(out@) == texts(old(out)@) + leaves_of(views(nodes@).take(i as int)),
        decreases nodes.len() - i,
    {
        proof {
            lemma_leaves_of_step(views(nodes@), i as int);
        }
        nodes[i].collect_leaves(out);
        i = i + 1;
    }
    assert(views(nodes@).take(nodes.len() as int) =~= views(nodes@));
}

impl LicenseTree {
    /// Appends the requirements of the tree to `out`, from left to right.
    fn collect_leaves(&self, out: &mut Vec<String>)
        ensures
            texts(final(out)@) == texts(old(out)@) + self@.leaves(),
        decreases self,
    {
        match self {
            LicenseTree::License(r) => {
                let text = r.canonical();
                out.push(text);
                assert(texts(out@) =~= texts(old(out)@) + seq![r@.text()]);
            },
            LicenseTree::Or(nodes) => {
                collect_leaves_of(nodes, out);
            },
            LicenseTree::And(nodes) => {
                collect_leaves_of(nodes, out);
            },
        }
    }

    /// The canonical form of the tree, as a new tree.
    pub fn normalized(&self) -> (r: LicenseTree)
        ensures
            r@ == self@.normalized(),
        decreases self,
    {
        match self {
            LicenseTree::License(r) => LicenseTree::License(r.duplicate()),
            LicenseTree::Or(nodes) => LicenseTree::Or(canonical_operands(nodes, Operator::Or)),
            LicenseTree::And(nodes) => LicenseTree::And(canonical_operands(nodes, Operator::And)),
        }
    }

    /// Brings the tree into its canonical form: nested nodes of one
    /// operator are merged, and the operands of every node are sorted and
    /// freed of duplicates.
    pub fn normalize(&mut self)
        ensures
            final(self)@ == old(self)@.normalized(),
            is_canonical(final(self)@),
    {
        let canonical = self.normalized();
        proof {
            lemma_normalized_is_canonical(self@);
        }
        *self = canonical;
    }

    /// Appends the text of the tree, as an operand of `parent`, to `acc`.
    fn serialize_inner(&self, acc: &mut String, parent: Option<Operator>)
        ensures
            final(acc)@ == old(acc)@ + self@.rendered(parent),
        decreases self,
    {
        match self {
            LicenseTree::License(r) => {
                let text = r.canonical();
                acc.append(text.as_str());
            },
            LicenseTree::Or(nodes) => {
                if nodes.len() == 1 {
                    nodes[0].serialize_inner(acc, parent);
                } else {
                    let parentheses = parenthesised(Operator::Or, nodes.len(), parent);
                    if parentheses {
                        acc.append("(");
                    }
                    serialize_operands(nodes, Operator::Or, acc);
                    if parentheses {
                        acc.append(")");
                    }
                    assert(acc@ =~= old(acc)@ + self@.rendered(parent));
                }
            },
            LicenseTree::And(nodes) => {
                if nodes.len() == 1 {
                    nodes[0].serialize_inner(acc, parent);
                } else {
                    let parentheses = parenthesised(Operator::And, nodes.len(), parent);
                    if parentheses {
                        acc.append("(");
                    }
                    serialize_operands(nodes, Operator::And, acc);
                    if parentheses {
                        acc.append(")");
                    }
                    assert(acc@ =~= old(acc)@ + self@.rendered(parent));
                }
            },
        }
    }

    /// The text of the tree: requirements as their canonical text, the
    /// operands of a node joined by ` OR ` or ` AND `, and parentheses only
    /// round a node of two or more operands under the other operator. A
    /// node of a single operand is written as that operand.
    pub fn serialize(&self) -> (r: String)
        ensures
            r@ == self@.text(),
    {
        let mut acc = String::new();
        self.serialize_inner(&mut acc, None);
        assert(Seq::<char>::empty() + self@.rendered(None) =~= self@.rendered(None));
        acc
    }

    /// The requirements of the tree as text, from left to right.
    pub fn leaves(&self) -> (r: Vec<String>)
        ensures
            texts(r@) == self@.leaves(),
    {
        let mut out: Vec<String> = Vec::new();
        self.collect_leaves(&mut out);
        assert(texts(Seq::<String>::empty()) + self@.leaves() =~= self@.leaves());
        out
    }

    /// Compares two trees by their requirements alone, from left to right:
    /// the first differing requirement decides, and where the requirements
    /// of one tree are a proper prefix of the other's, the tree with fewer
    /// requirements comes first.
    pub fn compare(&self, other: &Self) -> (r: Order)
        ensures
            r == expr_order(self@, other@),
    {
        let a = self.leaves();
        let b = other.leaves();
        let mut i: usize = 0;
        loop
            invariant
                i <= a.len(),
                i <= b.len(),
                texts(a@) == self@.leaves(),
                texts(b@) == other@.leaves(),
                forall|k: int| 0 <= k < i ==> text_order(texts(a@)[k], texts(b@)[k]) == Order::Equal,
            decreases a.len() - i,
        {
            proof {
                reveal(expr_order);
                lemma_leaves_order_skip(texts(a@), texts(b@), i as int);
            }
            if i >= a.len() {
                if i >= b.len() {
                    return Order::Equal;
                } else {
                    return Order::Less;
                }
            }
            if i >= b.len() {
                return Order::Greater;
            }
            let o = compare_text(a[i].as_str(), b[i].as_str());
            if o != Order::Equal {
                return o;
            }
            i = i + 1;
        }
    }
}

} // verus!
