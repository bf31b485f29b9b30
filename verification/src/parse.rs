//! From a license string to its canonical text: the expression is parsed
//! by the `spdx` crate, and the tree is built, brought into canonical form
//! and written out here.

use crate::error::MalformedLicenseExpression;
use crate::expr::{LicenseExpr, Operator};
use crate::order::optional_text;
use crate::requirement::{LicenseRequirement, RequirementModel};
use crate::tree::{views, LicenseTree};
use spdx::expression::{ExprNode, Operator as SpdxOperator};
use spdx::{Expression, LicenseItem, ParseMode};
use vstd::prelude::*;
use vstd::string::*;

verus! {

/// One element of an expression in postfix order, as a value.
pub enum PostfixItem {
    Requirement(RequirementModel),
    Operator(Operator),
}

/// One element of an expression in postfix order: a requirement, or an
/// operator that joins the two expressions before it.
#[derive(Clone, Debug, PartialEq, Eq)]
pub enum PostfixToken {
    Requirement(LicenseRequirement),
    Operator(Operator),
}

impl View for PostfixToken {
    type V = PostfixItem;

    open spec fn view(&self) -> PostfixItem {
        match self {
            PostfixToken::Requirement(r) => PostfixItem::Requirement(r@),
            PostfixToken::Operator(op) => PostfixItem::Operator(*op),
        }
    }
}

/// The elements that a list of tokens stands for.
pub open spec fn items(tokens: Seq<PostfixToken>) -> Seq<PostfixItem> {
    Seq::new(tokens.len(), |i: int| tokens[i]@)
}

/// The elements that the outcome of parsing stands for.
pub open spec fn parsed_items(parsed: Option<Vec<PostfixToken>>) -> Option<Seq<PostfixItem>> {
    match parsed {
        Some(tokens) => Some(items(tokens@)),
        None => None,
    }
}

/// What the parser tells of a requirement: whether its license is of the
/// SPDX list, the license as `spdx` writes it and as the string has it, and
/// the addition behind `WITH`, as `spdx` writes it, where there is one.
#[derive(Clone, Debug, PartialEq, Eq)]
pub struct ParsedRequirement {
    pub of_spdx_list: bool,
    pub as_spdx_writes: String,
    pub as_written: String,
    pub addition: Option<String>,
}

/// What the parser tells of a requirement, as a value.
pub struct ParsedRequirementModel {
    pub of_spdx_list: bool,
    pub as_spdx_writes: Seq<char>,
    pub as_written: Seq<char>,
    pub addition: Option<Seq<char>>,
}

impl View for ParsedRequirement {
    type V = ParsedRequirementModel;

    open spec fn view(&self) -> ParsedRequirementModel {
        ParsedRequirementModel {
            of_spdx_list: self.of_spdx_list,
            as_spdx_writes: self.as_spdx_writes@,
            as_written: self.as_written@,
            addition: optional_text(self.addition),
        }
    }
}

/// One element of what the parser read, in postfix order.
#[derive(Clone, Debug, PartialEq, Eq)]
pub enum ParsedToken {
    Requirement(ParsedRequirement),
    Operator(Operator),
}

/// One element of what the parser read, as a value.
pub enum ParsedItem {
    Requirement(ParsedRequirementModel),
    Operator(Operator),
}

impl View for ParsedToken {
    type V = ParsedItem;

    open spec fn view(&self) -> ParsedItem {
        match self {
            ParsedToken::Requirement(r) => ParsedItem::Requirement(r@),
            ParsedToken::Operator(op) => ParsedItem::Operator(*op),
        }
    }
}

/// What a list of parsed tokens stands for.
pub open spec fn told(tokens: Seq<ParsedToken>) -> Seq<ParsedItem> {
    Seq::new(tokens.len(), |i: int| tokens[i]@)
}

/// What the outcome of the parser stands for.
pub open spec fn optional_told(parsed: Option<Vec<ParsedToken>>) -> Option<Seq<ParsedItem>> {
    match parsed {
        Some(tokens) => Some(told(tokens@)),
        None => None,
    }
}

/// The text into which `spdx` rewrites a license string before strict
/// parsing; `None` where it rejects the string or leaves it as it is.
pub uninterp spec fn spdx_canonical(text: Seq<char>) -> Option<Seq<char>>;

/// What `spdx` reads from a license string in its lax mode, with unknown
/// identifiers admitted or not, in postfix order; `None` where it rejects
/// the string.
pub uninterp spec fn spdx_postfix(text: Seq<char>, allow_unknown: bool) -> Option<
    Seq<ParsedItem>,
>;

/// Calls `spdx::Expression::canonicalize`. The contract names the rewritten
/// text and claims nothing else of it; an error of the crate and an
/// unchanged string both come back as `None`.
#[verifier::external_body]
fn canonicalize_expression(text: &str) -> (r: Option<String>)
    ensures
        optional_text(r) == spdx_canonical(text@),
{
    Expression::canonicalize(text).unwrap_or_default()
}

/// Calls `spdx::Expression::parse_mode` with `ParseMode::LAX`, in which
/// `allow_unknown` is set as given, and hands out the nodes of
/// `Expression::iter`, which come in postfix order. Of a requirement it
/// hands out whether the license is the variant `LicenseItem::Spdx`, the
/// license and the addition by the crate's own `Display`, and the part of
/// the text that the span of the requirement marks. The contract names the
/// outcome and claims nothing else of it: not even that the operators find
/// their operands.
#[verifier::external_body]
fn parse_expression(text: &str, allow_unknown: bool) -> (r: Option<Vec<ParsedToken>>)
    ensures
        optional_told(r) == spdx_postfix(text@, allow_unknown),
{
    let parsed = Expression::parse_mode(text, ParseMode { allow_unknown, ..ParseMode::LAX }).ok()?;
    Some(parsed.iter().map(|node| match node {
        ExprNode::Req(r) => ParsedToken::Requirement(ParsedRequirement {
            of_spdx_list: matches!(r.req.license, LicenseItem::Spdx { .. }),
            as_spdx_writes: r.req.license.to_string(),
            as_written: text[r.span.start as usize..r.span.end as usize].into(),
            addition: r.req.addition.as_ref().map(|a| a.to_string()),
        }),
        ExprNode::Op(SpdxOperator::Or) => ParsedToken::Operator(Operator::Or),
        ExprNode::Op(SpdxOperator::And) => ParsedToken::Operator(Operator::And),
    }).collect())
}

/// The requirement that stands for what the parser told. A license of the
/// SPDX list is written as `spdx` writes it, any other license as the
/// string has it. An exception is written as `spdx` writes it, whether it
/// is of the SPDX list or not: of an exception the parser does not tell
/// how the string has it.
pub open spec fn chosen_requirement(p: ParsedRequirementModel) -> RequirementModel {
    RequirementModel {
        license: if p.of_spdx_list {
            p.as_spdx_writes
        } else {
            p.as_written
        },
        exception: p.addition,
    }
}

/// The element that stands for what the parser told.
pub open spec fn chosen_item(item: ParsedItem) -> PostfixItem {
    match item {
        ParsedItem::Requirement(p) => PostfixItem::Requirement(chosen_requirement(p)),
        ParsedItem::Operator(op) => PostfixItem::Operator(op),
    }
}

/// The elements that stand for what the parser told, in their order.
pub open spec fn chosen_items(parsed: Seq<ParsedItem>) -> Seq<PostfixItem> {
    Seq::new(parsed.len(), |i: int| chosen_item(parsed[i]))
}

/// The elements of the expression that the parser reads from a text, with
/// unknown identifiers admitted or not; `None` where it rejects the text.
pub open spec fn postfix_read(text: Seq<char>, allow_unknown: bool) -> Option<Seq<PostfixItem>> {
    match spdx_postfix(text, allow_unknown) {
        Some(parsed) => Some(chosen_items(parsed)),
        None => None,
    }
}

/// The requirement that stands for what the parser told: with the license
/// as `spdx` writes it where it is of the SPDX list and else as the string
/// has it, and with the exception as `spdx` writes it.
pub fn requirement_of(p: ParsedRequirement) -> (r: LicenseRequirement)
    ensures
        r@ == chosen_requirement(p@),
        r.license@ == (if p.of_spdx_list {
            p.as_spdx_writes@
        } else {
            p.as_written@
        }),
        optional_text(r.exception) == optional_text(p.addition),
{
    let ParsedRequirement { of_spdx_list, as_spdx_writes, as_written, addition } = p;
    let license = if of_spdx_list {
        as_spdx_writes
    } else {
        as_written
    };
    LicenseRequirement { license, exception: addition }
}

/// The tokens that stand for what the parser told, in their order.
pub fn postfix_tokens(parsed: Vec<ParsedToken>) -> (r: Vec<PostfixToken>)
    ensures
        items(r@) == chosen_items(told(parsed@)),
{
    let ghost all = told(parsed@);
    let mut out: Vec<PostfixToken> = Vec::new();
    for token in it: parsed
        invariant
            told(it.seq()) == all,
            items(out@) == chosen_items(all).take(it.index() as int),
    {
        let ghost before = items(out@);
        let chosen = match token {
            ParsedToken::Requirement(p) => PostfixToken::Requirement(requirement_of(p)),
            ParsedToken::Operator(op) => PostfixToken::Operator(op),
        };
        proof {
            assert(all[it.index() as int] == token@);
            assert(chosen@ == chosen_item(token@));
        }
        out.push(chosen);
        assert(items(out@) =~= before.push(chosen@));
        assert(items(out@) =~= chosen_items(all).take(it.index() + 1));
    }
    assert(chosen_items(all).take(all.len() as int) =~= chosen_items(all));
    out
}

/// The elements of the expression that the parser reads from a text, with
/// unknown identifiers admitted or not.
pub fn read_postfix(text: &str, allow_unknown: bool) -> (r: Option<Vec<PostfixToken>>)
    ensures
        parsed_items(r) == postfix_read(text@, allow_unknown),
{
    match parse_expression(text, allow_unknown) {
        Some(parsed) => Some(postfix_tokens(parsed)),
        None => None,
    }
}

/// The stack of expressions after the elements were read in postfix order:
/// a requirement is put on the stack, an operator joins the two expressions
/// on top of it, the earlier one first. `None` where an operator finds
/// fewer than two expressions.
pub open spec fn stack_after(items: Seq<PostfixItem>) -> Option<Seq<LicenseExpr>>
    decreases items.len(),
{
    if items.len() == 0 {
        Some(Seq::empty())
    } else {
        match stack_after(items.drop_last()) {
            None => None,
            Some(stack) => match items.last() {
                PostfixItem::Requirement(r) => Some(
                    stack.push(LicenseExpr::Requirement(r.text())),
                ),
                PostfixItem::Operator(op) => if stack.len() < 2 {
                    None
                } else {
                    Some(
                        stack.take(stack.len() - 2).push(
                            LicenseExpr::join(
                                op,
                                seq![stack[stack.len() - 2], stack[stack.len() - 1]],
                            ),
                        ),
                    )
                },
            },
        }
    }
}

/// The expression that the elements spell in postfix order; `None` where
/// they spell none, or more than one.
pub open spec fn tree_of(items: Seq<PostfixItem>) -> Option<LicenseExpr> {
    match stack_after(items) {
        Some(stack) => if stack.len() == 1 {
            Some(stack[0])
        } else {
            None
        },
        None => None,
    }
}

/// The expression that an optional tree stands for.
pub open spec fn optional_expr(tree: Option<LicenseTree>) -> Option<LicenseExpr> {
    match tree {
        Some(t) => Some(t@),
        None => None,
    }
}

/// The canonical text of a license string, given what the parser made of
/// it: the text of the canonical form of the expression, or the string
/// itself where the parser rejected it or the elements spell no expression.
pub open spec fn normalized_text(raw: Seq<char>, parsed: Option<Seq<PostfixItem>>) -> Seq<char> {
    match parsed {
        None => raw,
        Some(items) => match tree_of(items) {
            None => raw,
            Some(tree) => tree.normalized().text(),
        },
    }
}

/// The text that is handed to the parser: the license string as `spdx`
/// rewrites it, or the string itself where it does not.
pub open spec fn parser_input(raw: Seq<char>) -> Seq<char> {
    match spdx_canonical(raw) {
        Some(c) => c,
        None => raw,
    }
}

/// Builds the tree that the tokens spell in postfix order.
pub fn build_tree(tokens: Vec<PostfixToken>) -> (r: Option<LicenseTree>)
    ensures
        optional_expr(r) == tree_of(items(tokens@)),
{
    let ghost all = items(tokens@);
    let mut stack: Vec<LicenseTree> = Vec::new();
    for token in it: tokens
        invariant
            items(it.seq()) == all,
            stack_after(all.take(it.index() as int)) == Some(views(stack@)),
    {
        proof {
            assert(all.take(it.index() + 1).drop_last() =~= all.take(it.index() as int));
            assert(all.take(it.index() + 1).last() == token@);
        }
        let ghost before = views(stack@);
        match token {
            PostfixToken::Requirement(r) => {
                stack.push(LicenseTree::License(r));
                assert(views(stack@) =~= before.push(
                    LicenseExpr::Requirement(r@.text()),
                ));
            },
            PostfixToken::Operator(op) => {
                if stack.len() < 2 {
                    proof {
                        lemma_stack_failure(all, it.index() + 1);
                    }
                    return None;
                }
                let right = stack.pop().unwrap();
                let left = stack.pop().unwrap();
                let mut operands: Vec<LicenseTree> = Vec::new();
                operands.push(left);
                operands.push(right);
                assert(views(operands@) =~= seq![
                    before[before.len() - 2],
                    before[before.len() - 1],
                ]);
                let node = match op {
                    Operator::Or => LicenseTree::Or(operands),
                    Operator::And => LicenseTree::And(operands),
                };
                stack.push(node);
                assert(views(stack@) =~= before.take(before.len() - 2).push(
                    LicenseExpr::join(op, seq![before[before.len() - 2], before[before.len() - 1]]),
                ));
            },
        }
    }
    assert(all.take(all.len() as int) =~= all);
    if stack.len() == 1 {
        stack.pop()
    } else {
        None
    }
}

/// Once an operator has found too few expressions, the elements spell no
/// expression, whatever follows.
proof fn lemma_stack_failure(items: Seq<PostfixItem>, n: int)
    requires
        0 <= n <= items.len(),
        stack_after(items.take(n)).is_none(),
    ensures
        stack_after(items).is_none(),
    decreases items.len() - n,
{
    if n == items.len() {
        assert(items.take(n) =~= items);
    } else {
        assert(items.take(n + 1).drop_last() =~= items.take(n));
        lemma_stack_failure(items, n + 1);
    }
}

/// The expression that the parser read, where it read one.
pub open spec fn parsed_tree(parsed: Option<Seq<PostfixItem>>) -> Option<LicenseExpr> {
    match parsed {
        Some(items) => tree_of(items),
        None => None,
    }
}

/// The expression that the outcome of parsing stands for.
pub open spec fn parse_outcome(outcome: Result<LicenseTree, MalformedLicenseExpression>) -> Option<
    LicenseExpr,
> {
    match outcome {
        Ok(tree) => Some(tree@),
        Err(_) => None,
    }
}

/// The tree of what the parser made of a license string. The string is
/// malformed where the parser rejected it, and where what it read spells
/// no single expression.
pub fn parse_tokens(parsed: Option<Vec<PostfixToken>>) -> (r: Result<
    LicenseTree,
    MalformedLicenseExpression,
>)
    ensures
        parse_outcome(r) == parsed_tree(parsed_items(parsed)),
{
    match parsed {
        None => Err(MalformedLicenseExpression),
        Some(tokens) => match build_tree(tokens) {
            None => Err(MalformedLicenseExpression),
            Some(tree) => Ok(tree),
        },
    }
}

/// What the lenient parser makes of a text: an identifier that is no
/// known license is a requirement like any other.
pub open spec fn lenient_postfix(text: Seq<char>) -> Option<Seq<PostfixItem>> {
    postfix_read(text, true)
}

/// The tree of a license string: requirements joined by `OR` and `AND`,
/// where `AND` binds tighter and parentheses group; `/` stands for `OR`,
/// and an identifier that is no known license is a requirement like any
/// other.
pub fn parse(license_string: &str) -> (r: Result<LicenseTree, MalformedLicenseExpression>)
    ensures
        parse_outcome(r) == parsed_tree(lenient_postfix(license_string@)),
{
    parse_tokens(read_postfix(license_string, true))
}

/// The canonical text of a license string of which the parser made
/// `parsed`.
pub fn normalize_parsed(license_string: &str, parsed: Option<Vec<PostfixToken>>) -> (r: String)
    ensures
        r@ == normalized_text(license_string@, parsed_items(parsed)),
        parsed_tree(parsed_items(parsed)).is_none() ==> r@ == license_string@,
{
    match parse_tokens(parsed) {
        Err(_) => license_string.to_owned(),
        Ok(mut tree) => {
            tree.normalize();
            tree.serialize()
        },
    }
}

/// The expression that is read from a license string: by the lenient
/// parser, from the string as `spdx` rewrites it or, where it does not,
/// from the string itself. `None` where the string is no expression.
pub open spec fn tree_read(raw: Seq<char>) -> Option<LicenseExpr> {
    parsed_tree(lenient_postfix(parser_input(raw)))
}

/// The canonical text of a license string: the text of the canonical form
/// of the expression that is read from it, or the string itself where it
/// is no expression.
pub open spec fn canonical_text_of(raw: Seq<char>) -> Seq<char> {
    normalized_text(raw, lenient_postfix(parser_input(raw)))
}

/// The canonical text of a license string: expressions that differ only in
/// the order, the grouping or the repetition of their operands get one
/// text. A string that is no license expression comes back as it is.
#[must_use]
pub fn normalize(license_string: &str) -> (r: String)
    ensures
        r@ == canonical_text_of(license_string@),
        tree_read(license_string@).is_none() ==> r@ == license_string@,
        tree_read(license_string@) matches Some(tree) ==> r@ == tree.normalized().text(),
{
    let parsed = match canonicalize_expression(license_string) {
        Some(canonical) => read_postfix(canonical.as_str(), true),
        None => read_postfix(license_string, true),
    };
    normalize_parsed(license_string, parsed)
}

} // verus!
