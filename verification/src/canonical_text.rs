//! What the canonical text of a license string does not depend on: the
//! order of the operands of an operator, their grouping, and their
//! repetition. The statements are about what the parser hands out, the
//! elements of the expression in postfix order.

use crate::sorted_operands::tie_free;
use crate::expr::{flattened, normalized_all, LicenseExpr, Operator};
use crate::normal_form::{
    is_proper, lemma_nested_operands_merge, lemma_nested_requirements_merge,
    lemma_normalized_is_canonical, lemma_operand_order_irrelevant, lemma_paired_normalizes,
    lemma_repeated_operand, lemma_requirements_commute, paired,
};
use crate::parse::{
    canonical_text_of, normalized_text, stack_after, tree_of, tree_read, PostfixItem,
};
use crate::requirement::RequirementModel;
use vstd::prelude::*;

verus! {

/// Elements that spell stacks of expressions spell, one after the other,
/// the one stack on top of the other.
pub proof fn lemma_stack_after_concat(p: Seq<PostfixItem>, q: Seq<PostfixItem>)
    requires
        stack_after(p).is_some(),
        stack_after(q).is_some(),
    ensures
        stack_after(p + q) == Some(stack_after(p).unwrap() + stack_after(q).unwrap()),
    decreases q.len(),
{
    let sp = stack_after(p).unwrap();
    if q.len() == 0 {
        assert(p + q =~= p);
        assert(sp + stack_after(q).unwrap() =~= sp);
    } else {
        let front = q.drop_last();
        assert((p + q).drop_last() =~= p + front);
        assert((p + q).last() == q.last());
        lemma_stack_after_concat(p, front);
        let sf = stack_after(front).unwrap();
        match q.last() {
            PostfixItem::Requirement(r) => {
                assert((sp + sf).push(LicenseExpr::Requirement(r.text())) =~= sp + sf.push(
                    LicenseExpr::Requirement(r.text()),
                ));
            },
            PostfixItem::Operator(op) => {
                let joined = LicenseExpr::join(op, seq![sf[sf.len() - 2], sf[sf.len() - 1]]);
                assert((sp + sf).take((sp + sf).len() - 2).push(joined) =~= sp + sf.take(
                    sf.len() - 2,
                ).push(joined));
            },
        }
    }
}

/// Two expressions in postfix order, followed by an operator, spell the
/// two expressions joined by the operator.
pub proof fn lemma_tree_of_join(p: Seq<PostfixItem>, q: Seq<PostfixItem>, op: Operator)
    requires
        tree_of(p).is_some(),
        tree_of(q).is_some(),
    ensures
        tree_of(p + q + seq![PostfixItem::Operator(op)]) == Some(
            LicenseExpr::join(op, seq![tree_of(p).unwrap(), tree_of(q).unwrap()]),
        ),
{
    lemma_stack_after_concat(p, q);
    let all = p + q + seq![PostfixItem::Operator(op)];
    assert(all.drop_last() =~= p + q);
    let s = stack_after(p).unwrap() + stack_after(q).unwrap();
    assert(s.take(s.len() - 2) =~= Seq::<LicenseExpr>::empty());
    assert(Seq::<LicenseExpr>::empty().push(
        LicenseExpr::join(op, seq![s[s.len() - 2], s[s.len() - 1]]),
    ).len() == 1);
}

/// A requirement alone spells itself.
pub proof fn lemma_tree_of_requirement(a: RequirementModel)
    ensures
        tree_of(seq![PostfixItem::Requirement(a)]) == Some(LicenseExpr::Requirement(a.text())),
{
    let p = seq![PostfixItem::Requirement(a)];
    assert(p.drop_last() =~= Seq::<PostfixItem>::empty());
    reveal_with_fuel(stack_after, 2);
}

/// The canonical text does not depend on the order of the two operands of
/// an operator, provided that those of their flattened operands which
/// compare equal are the same expression.
pub proof fn lemma_text_operands_commute(
    raw1: Seq<char>,
    raw2: Seq<char>,
    op: Operator,
    p: Seq<PostfixItem>,
    q: Seq<PostfixItem>,
)
    requires
        tree_of(p).is_some(),
        tree_of(q).is_some(),
        tie_free(flattened(normalized_all(seq![tree_of(p).unwrap(), tree_of(q).unwrap()]), op)),
    ensures
        normalized_text(raw1, Some(p + q + seq![PostfixItem::Operator(op)])) == normalized_text(
            raw2,
            Some(q + p + seq![PostfixItem::Operator(op)]),
        ),
{
    let x = tree_of(p).unwrap();
    let y = tree_of(q).unwrap();
    lemma_tree_of_join(p, q, op);
    lemma_tree_of_join(q, p, op);
    let xy = seq![x, y];
    let yx = seq![y, x];
    assert forall|e: LicenseExpr| xy.contains(e) <==> yx.contains(e) by {
        if xy.contains(e) {
            let i = choose|i: int| 0 <= i < xy.len() && xy[i] == e;
            assert(yx[1 - i] == e);
        }
        if yx.contains(e) {
            let i = choose|i: int| 0 <= i < yx.len() && yx[i] == e;
            assert(xy[1 - i] == e);
        }
    }
    lemma_operand_order_irrelevant(op, xy, yx);
}

/// The canonical text of two requirements joined by an operator is the
/// same in either order.
pub proof fn lemma_text_requirements_commute(
    raw1: Seq<char>,
    raw2: Seq<char>,
    op: Operator,
    a: RequirementModel,
    b: RequirementModel,
)
    ensures
        normalized_text(
            raw1,
            Some(
                seq![
                    PostfixItem::Requirement(a),
                    PostfixItem::Requirement(b),
                    PostfixItem::Operator(op),
                ],
            ),
        ) == normalized_text(
            raw2,
            Some(
                seq![
                    PostfixItem::Requirement(b),
                    PostfixItem::Requirement(a),
                    PostfixItem::Operator(op),
                ],
            ),
        ),
{
    let pa = seq![PostfixItem::Requirement(a)];
    let pb = seq![PostfixItem::Requirement(b)];
    let o = seq![PostfixItem::Operator(op)];
    lemma_tree_of_requirement(a);
    lemma_tree_of_requirement(b);
    lemma_tree_of_join(pa, pb, op);
    lemma_tree_of_join(pb, pa, op);
    assert(pa + pb + o =~= seq![
        PostfixItem::Requirement(a),
        PostfixItem::Requirement(b),
        PostfixItem::Operator(op),
    ]);
    assert(pb + pa + o =~= seq![
        PostfixItem::Requirement(b),
        PostfixItem::Requirement(a),
        PostfixItem::Operator(op),
    ]);
    lemma_requirements_commute(op, a.text(), b.text());
}

/// The canonical text does not depend on how three operands of one
/// operator are grouped, provided that those of their flattened operands
/// which compare equal are the same expression.
pub proof fn lemma_text_grouping_irrelevant(
    raw1: Seq<char>,
    raw2: Seq<char>,
    op: Operator,
    p: Seq<PostfixItem>,
    q: Seq<PostfixItem>,
    r: Seq<PostfixItem>,
)
    requires
        tree_of(p).is_some(),
        tree_of(q).is_some(),
        tree_of(r).is_some(),
        tie_free(
            flattened(
                normalized_all(
                    seq![tree_of(p).unwrap(), tree_of(q).unwrap(), tree_of(r).unwrap()],
                ),
                op,
            ),
        ),
    ensures
        normalized_text(
            raw1,
            Some(p + (q + r + seq![PostfixItem::Operator(op)]) + seq![PostfixItem::Operator(op)]),
        ) == normalized_text(
            raw2,
            Some((p + q + seq![PostfixItem::Operator(op)]) + r + seq![PostfixItem::Operator(op)]),
        ),
{
    let x = tree_of(p).unwrap();
    let y = tree_of(q).unwrap();
    let z = tree_of(r).unwrap();
    let none = Seq::<LicenseExpr>::empty();
    lemma_tree_of_join(q, r, op);
    lemma_tree_of_join(p, q + r + seq![PostfixItem::Operator(op)], op);
    lemma_tree_of_join(p, q, op);
    lemma_tree_of_join(p + q + seq![PostfixItem::Operator(op)], r, op);
    assert(seq![x] + seq![y, z] + none =~= seq![x, y, z]);
    assert(seq![x] + seq![LicenseExpr::join(op, seq![y, z])] + none =~= seq![
        x,
        LicenseExpr::join(op, seq![y, z]),
    ]);
    lemma_nested_operands_merge(op, seq![x], seq![y, z], none);
    assert(none + seq![x, y] + seq![z] =~= seq![x, y, z]);
    assert(none + seq![LicenseExpr::join(op, seq![x, y])] + seq![z] =~= seq![
        LicenseExpr::join(op, seq![x, y]),
        z,
    ]);
    lemma_nested_operands_merge(op, none, seq![x, y], seq![z]);
}

/// The canonical text of three requirements joined by one operator is the
/// same however they are grouped.
pub proof fn lemma_text_requirements_grouping(
    raw1: Seq<char>,
    raw2: Seq<char>,
    op: Operator,
    a: RequirementModel,
    b: RequirementModel,
    c: RequirementModel,
)
    ensures
        normalized_text(
            raw1,
            Some(
                seq![
                    PostfixItem::Requirement(a),
                    PostfixItem::Requirement(b),
                    PostfixItem::Requirement(c),
                    PostfixItem::Operator(op),
                    PostfixItem::Operator(op),
                ],
            ),
        ) == normalized_text(
            raw2,
            Some(
                seq![
                    PostfixItem::Requirement(a),
                    PostfixItem::Requirement(b),
                    PostfixItem::Operator(op),
                    PostfixItem::Requirement(c),
                    PostfixItem::Operator(op),
                ],
            ),
        ),
{
    let pa = seq![PostfixItem::Requirement(a)];
    let pb = seq![PostfixItem::Requirement(b)];
    let pc = seq![PostfixItem::Requirement(c)];
    let o = seq![PostfixItem::Operator(op)];
    lemma_tree_of_requirement(a);
    lemma_tree_of_requirement(b);
    lemma_tree_of_requirement(c);
    lemma_tree_of_join(pb, pc, op);
    lemma_tree_of_join(pa, pb + pc + o, op);
    lemma_tree_of_join(pa, pb, op);
    lemma_tree_of_join(pa + pb + o, pc, op);
    assert(pa + (pb + pc + o) + o =~= seq![
        PostfixItem::Requirement(a),
        PostfixItem::Requirement(b),
        PostfixItem::Requirement(c),
        PostfixItem::Operator(op),
        PostfixItem::Operator(op),
    ]);
    assert((pa + pb + o) + pc + o =~= seq![
        PostfixItem::Requirement(a),
        PostfixItem::Requirement(b),
        PostfixItem::Operator(op),
        PostfixItem::Requirement(c),
        PostfixItem::Operator(op),
    ]);
    lemma_nested_requirements_merge(op, a.text(), b.text(), c.text());
}

/// The canonical text of an expression joined with itself is the canonical
/// text of the expression alone.
pub proof fn lemma_text_repetition_irrelevant(
    raw1: Seq<char>,
    raw2: Seq<char>,
    op: Operator,
    p: Seq<PostfixItem>,
)
    requires
        tree_of(p).is_some(),
    ensures
        normalized_text(raw1, Some(p + p + seq![PostfixItem::Operator(op)])) == normalized_text(
            raw2,
            Some(p),
        ),
{
    lemma_tree_of_join(p, p, op);
    lemma_repeated_operand(op, tree_of(p).unwrap());
}

/// The canonical text of a string that is no expression is that string,
/// and its canonical text is the string again.
pub proof fn lemma_text_twice_where_rejected(raw: Seq<char>)
    requires
        tree_read(raw).is_none(),
    ensures
        canonical_text_of(raw) == raw,
        canonical_text_of(canonical_text_of(raw)) == canonical_text_of(raw),
{
}

/// The canonical text of a canonical text is that text again, where an
/// expression of the same canonical form is read back from it.
pub proof fn lemma_text_twice_where_read_back(raw: Seq<char>)
    requires
        tree_read(raw).is_some(),
        tree_read(canonical_text_of(raw)).is_some(),
        tree_read(canonical_text_of(raw)).unwrap().normalized() == tree_read(
            raw,
        ).unwrap().normalized(),
    ensures
        canonical_text_of(canonical_text_of(raw)) == canonical_text_of(raw),
{
}

/// The canonical text of a canonical text is that text again, where every
/// node of the canonical form has two or more operands and the expression
/// is read back from the text as the text spells it.
pub proof fn lemma_text_twice_where_read_as_spelled(raw: Seq<char>)
    requires
        tree_read(raw).is_some(),
        is_proper(tree_read(raw).unwrap().normalized()),
        tree_read(canonical_text_of(raw)) == Some(paired(tree_read(raw).unwrap().normalized())),
    ensures
        canonical_text_of(canonical_text_of(raw)) == canonical_text_of(raw),
{
    let tree = tree_read(raw).unwrap();
    lemma_normalized_is_canonical(tree);
    lemma_paired_normalizes(tree.normalized());
    lemma_text_twice_where_read_back(raw);
}

} // verus!
