use cargo_license::expr::Operator;
use cargo_license::normalize;
use cargo_license::order::Order;
use cargo_license::error::MalformedLicenseExpression;
use cargo_license::parse::{
    build_tree, normalize_parsed, parse, parse_tokens, postfix_tokens, read_postfix, requirement_of,
    ParsedRequirement, ParsedToken, PostfixToken,
};
use cargo_license::requirement::LicenseRequirement;
use cargo_license::tree::LicenseTree;

fn license(name: &str) -> LicenseTree {
    LicenseTree::License(LicenseRequirement::new(name.to_string()))
}

fn requirement(name: &str) -> PostfixToken {
    PostfixToken::Requirement(LicenseRequirement::new(name.to_string()))
}

#[test]
fn test_normalize() {
    let tests = [
        ("MIT", "MIT"),
        ("MIT OR Apache-2.0", "Apache-2.0 OR MIT"),
        ("Apache-2.0 OR MIT", "Apache-2.0 OR MIT"),
        (
            "(Apache-2.0 OR MIT) AND Apache-2.0",
            "Apache-2.0 AND (Apache-2.0 OR MIT)",
        ),
        ("(Apache-2.0 OR MIT) AND MIT", "(Apache-2.0 OR MIT) AND MIT"),
        (
            "Apache-2.0 AND (Apache-2.0 OR MIT)",
            "Apache-2.0 AND (Apache-2.0 OR MIT)",
        ),
        ("MIT AND (Apache-2.0 OR MIT)", "(Apache-2.0 OR MIT) AND MIT"),
        (
            "(Apache-2.0 AND Unicode-3.0) OR (Apache-2.0 AND MIT)",
            "(Apache-2.0 AND MIT) OR (Apache-2.0 AND Unicode-3.0)",
        ),
        (
            "Unicode-3.0 AND (MIT OR Apache-2.0)",
            "(Apache-2.0 OR MIT) AND Unicode-3.0",
        ),
        (
            "(MIT OR Apache-2.0) AND Unicode-3.0",
            "(Apache-2.0 OR MIT) AND Unicode-3.0",
        ),
        ("MIT AND (MIT OR Apache-2.0)", "(Apache-2.0 OR MIT) AND MIT"),
        (
            "((((Apache-2.0 WITH LLVM-exception) OR (Apache-2.0)) AND (OpenSSL)) OR (MIT))",
            "((Apache-2.0 OR Apache-2.0 WITH LLVM-exception) AND OpenSSL) OR MIT",
        ),
        (
            "Borceux OR MIT AND BitTorrent-1.1",
            "(BitTorrent-1.1 AND MIT) OR Borceux",
        ),
        ("Zlib OR Apache-2.0 OR MIT", "Apache-2.0 OR MIT OR Zlib"),
        ("MIT OR Zlib OR Apache-2.0", "Apache-2.0 OR MIT OR Zlib"),
        (
            "Apache-2.0 WITH LLVM-exception OR Apache-2.0 OR MIT",
            "Apache-2.0 OR Apache-2.0 WITH LLVM-exception OR MIT",
        ),
    ];

    for (i, o) in tests {
        assert_eq!(normalize(i), o, "Input {i}");
    }
}

#[test]
fn slash_is_read_as_or() {
    assert_eq!(normalize("MIT/Apache-2.0"), "Apache-2.0 OR MIT");
}

#[test]
fn conjunction_with_nested_disjunction() {
    assert_eq!(
        normalize("Apache-2.0 AND (Apache-2.0 OR MIT)"),
        "Apache-2.0 AND (Apache-2.0 OR MIT)"
    );
    assert_eq!(
        normalize("(Apache-2.0 OR MIT) AND Apache-2.0"),
        "Apache-2.0 AND (Apache-2.0 OR MIT)"
    );
}

#[test]
fn unparseable_string_comes_back_unchanged() {
    assert_eq!(normalize("???not-a-license???"), "???not-a-license???");
}

#[test]
fn malformed_expressions_come_back_unchanged() {
    for raw in ["", "   ", "(MIT", "MIT)", "MIT OR", "AND MIT", "MIT Apache-2.0", "MIT OR OR Zlib"] {
        assert_eq!(normalize(raw), raw, "Input {raw:?}");
    }
}

#[test]
fn normalize_twice_is_normalize_once() {
    for raw in [
        "MIT",
        "MIT/Apache-2.0",
        "Zlib OR Apache-2.0 OR MIT",
        "Apache-2.0 AND (Apache-2.0 OR MIT)",
        "((((Apache-2.0 WITH LLVM-exception) OR (Apache-2.0)) AND (OpenSSL)) OR (MIT))",
        "MIT OR MIT",
        "???not-a-license???",
        "Unlicense OR MIT",
        "0BSD OR MIT OR Apache-2.0",
        "(MIT OR Apache-2.0) AND Unicode-DFS-2016",
        "MIT / Apache-2.0",
        "MIT and Apache-2.0",
        "GPL-3.0+",
        "GPL-2.0",
        "Apache-2.0+",
        "LGPL-2.1-or-later",
        "Proprietary",
        "MIT WITH NoSuchException",
        "DocumentRef-x:LicenseRef-y OR MIT",
        "((MIT OR Zlib) AND (Zlib OR MIT)) OR ISC",
        "(MIT AND Zlib) OR (Zlib AND MIT) OR (MIT AND Zlib AND ISC)",
        "apache with LLVM-exception/gpl-3.0+ and gplv2",
        "MIT; Apache-2.0",
        "BSD-3-Clause AND (MIT OR (Apache-2.0 AND (ISC OR Zlib)))",
    ] {
        let once = normalize(raw);
        assert_eq!(normalize(&once), once, "Input {raw:?}");
    }
}

#[test]
fn lenient_forms_are_read() {
    assert_eq!(normalize("GPL-3.0+"), "GPL-3.0-or-later");
    assert_eq!(normalize("Apache-2.0+ OR MIT"), "Apache-2.0+ OR MIT");
    assert_eq!(normalize("Proprietary"), "Proprietary");
    assert_eq!(
        normalize("MIT WITH NoSuchException"),
        "MIT WITH AdditionRef-NoSuchException"
    );
    assert_eq!(
        normalize("apache with LLVM-exception/gpl-3.0+ and gplv2"),
        "Apache-2.0 WITH LLVM-exception OR (GPL-2.0-only AND GPL-3.0-or-later)"
    );
    assert_eq!(normalize("MIT; Apache-2.0"), "MIT; Apache-2.0");
}

#[test]
fn operands_commute() {
    assert_eq!(normalize("MIT OR Zlib"), normalize("Zlib OR MIT"));
    assert_eq!(normalize("MIT AND Zlib"), normalize("Zlib AND MIT"));
    assert_eq!(normalize("MIT AND Zlib"), "MIT AND Zlib");
}

#[test]
fn nested_operands_are_flattened() {
    assert_eq!(normalize("MIT OR (Zlib OR ISC)"), normalize("MIT OR Zlib OR ISC"));
    assert_eq!(normalize("(MIT OR Zlib) OR ISC"), "ISC OR MIT OR Zlib");
    assert_eq!(normalize("MIT AND (Zlib AND ISC)"), "ISC AND MIT AND Zlib");
}

#[test]
fn repeated_operands_are_dropped() {
    assert_eq!(normalize("MIT OR MIT"), normalize("MIT"));
    assert_eq!(normalize("MIT OR MIT"), "MIT");
    assert_eq!(normalize("MIT AND Zlib AND MIT"), "MIT AND Zlib");
    assert_eq!(normalize("(MIT OR Zlib) AND (Zlib OR MIT)"), "MIT OR Zlib");
    assert_eq!(normalize("(MIT AND Zlib) OR (MIT AND Zlib)"), normalize("MIT AND Zlib"));
    assert_eq!(
        normalize("((MIT OR Zlib) AND (Zlib OR MIT)) OR ISC"),
        "ISC OR MIT OR Zlib"
    );
}

#[test]
fn single_operand_nodes_are_written_as_their_operand() {
    let inner = LicenseTree::Or(vec![license("MIT"), license("Zlib")]);
    let tree = LicenseTree::And(vec![
        license("ISC"),
        LicenseTree::Or(vec![LicenseTree::And(vec![inner])]),
    ]);
    assert_eq!(tree.serialize(), "ISC AND (MIT OR Zlib)");
    let tree = LicenseTree::Or(vec![LicenseTree::And(vec![license("MIT")])]);
    assert_eq!(tree.serialize(), "MIT");
}

#[test]
fn unknown_identifiers_are_kept_as_leaves() {
    assert_eq!(normalize("Zlib OR NoSuchLicense"), "NoSuchLicense OR Zlib");
    assert_eq!(normalize("Zlib OR LicenseRef-mine"), "LicenseRef-mine OR Zlib");
    assert_eq!(
        normalize("Zlib AND (Proprietary OR DocumentRef-d:LicenseRef-mine)"),
        "(DocumentRef-d:LicenseRef-mine OR Proprietary) AND Zlib"
    );
    assert_eq!(normalize("apache2 OR Proprietary"), "Apache-2.0 OR Proprietary");
}

#[test]
fn lexical_fixes_come_before_parsing() {
    assert_eq!(normalize("GPL-2.0"), "GPL-2.0-only");
    assert_eq!(normalize("mit or apache"), "Apache-2.0 OR MIT");
}

#[test]
fn shorter_leaf_sequence_sorts_first() {
    let pair = LicenseTree::Or(vec![license("Apache-2.0"), license("MIT")]);
    let single = license("Apache-2.0");
    assert_eq!(pair.compare(&single), Order::Greater);
    assert_eq!(single.compare(&pair), Order::Less);
    assert_eq!(single.compare(&license("Apache-2.0")), Order::Equal);
    assert_eq!(license("MIT").compare(&license("Zlib")), Order::Less);
}

#[test]
fn comparison_ignores_operators() {
    let or = LicenseTree::Or(vec![license("MIT"), license("Zlib")]);
    let and = LicenseTree::And(vec![license("MIT"), license("Zlib")]);
    assert_eq!(or.compare(&and), Order::Equal);
}

#[test]
fn tree_normalize_flattens_sorts_and_dedups() {
    let mut tree = LicenseTree::Or(vec![
        license("Zlib"),
        LicenseTree::Or(vec![license("MIT"), license("Zlib")]),
        LicenseTree::And(vec![license("ISC"), license("BSL-1.0")]),
    ]);
    tree.normalize();
    assert_eq!(tree.serialize(), "(BSL-1.0 AND ISC) OR MIT OR Zlib");
    assert_eq!(tree.leaves(), vec!["BSL-1.0", "ISC", "MIT", "Zlib"]);
}

#[test]
fn serialize_parenthesises_only_under_the_other_operator() {
    let tree = LicenseTree::And(vec![
        LicenseTree::Or(vec![license("MIT"), license("Zlib")]),
        LicenseTree::Or(vec![license("ISC")]),
        LicenseTree::And(vec![license("A"), license("B")]),
        license("C"),
    ]);
    assert_eq!(tree.serialize(), "(MIT OR Zlib) AND ISC AND A AND B AND C");
}

#[test]
fn requirement_with_exception_has_with_in_its_text() {
    let plain = LicenseRequirement::new("Apache-2.0".to_string());
    let with = LicenseRequirement::with_exception(
        "Apache-2.0".to_string(),
        "LLVM-exception".to_string(),
    );
    assert_eq!(plain.canonical(), "Apache-2.0");
    assert_eq!(with.canonical(), "Apache-2.0 WITH LLVM-exception");
    assert_eq!(plain.compare(&with), Order::Less);
    assert_eq!(with.compare(&plain), Order::Greater);
    let spelled = LicenseRequirement::new("Apache-2.0 WITH LLVM-exception".to_string());
    assert_eq!(with.compare(&spelled), Order::Equal);
    assert_eq!(with.duplicate(), with);
}

#[test]
fn postfix_tokens_build_a_tree() {
    let tokens = vec![
        requirement("MIT"),
        requirement("Zlib"),
        requirement("ISC"),
        PostfixToken::Operator(Operator::And),
        PostfixToken::Operator(Operator::Or),
    ];
    let tree = build_tree(tokens).unwrap();
    assert_eq!(tree.serialize(), "MIT OR (Zlib AND ISC)");
}

#[test]
fn postfix_tokens_that_spell_no_tree() {
    assert!(build_tree(vec![]).is_none());
    assert!(build_tree(vec![requirement("MIT"), requirement("Zlib")]).is_none());
    assert!(build_tree(vec![requirement("MIT"), PostfixToken::Operator(Operator::Or)]).is_none());
    assert!(build_tree(vec![PostfixToken::Operator(Operator::And)]).is_none());
}

#[test]
fn normalize_parsed_falls_back_to_the_raw_string() {
    assert_eq!(normalize_parsed("whatever", None), "whatever");
    assert_eq!(
        normalize_parsed("whatever", Some(vec![PostfixToken::Operator(Operator::Or)])),
        "whatever"
    );
    assert_eq!(
        normalize_parsed(
            "whatever",
            Some(vec![
                requirement("Zlib"),
                requirement("MIT"),
                PostfixToken::Operator(Operator::Or),
            ])
        ),
        "MIT OR Zlib"
    );
}

#[test]
fn parse_builds_the_tree_of_an_expression() {
    let tree = parse("MIT OR Zlib AND ISC").unwrap();
    assert_eq!(
        tree,
        LicenseTree::Or(vec![
            license("MIT"),
            LicenseTree::And(vec![license("Zlib"), license("ISC")]),
        ])
    );
    let tree = parse("(MIT OR Zlib) AND Apache-2.0 WITH LLVM-exception").unwrap();
    assert_eq!(
        tree,
        LicenseTree::And(vec![
            LicenseTree::Or(vec![license("MIT"), license("Zlib")]),
            LicenseTree::License(LicenseRequirement::with_exception(
                "Apache-2.0".to_string(),
                "LLVM-exception".to_string(),
            )),
        ])
    );
}

#[test]
fn parse_rejects_what_is_no_expression() {
    for raw in ["", "(", "MIT AND", "MIT OR (Zlib", "???not-a-license???", "MIT WITH"] {
        assert_eq!(parse(raw), Err(MalformedLicenseExpression), "Input {raw:?}");
    }
    assert_eq!(parse_tokens(None), Err(MalformedLicenseExpression));
    assert_eq!(
        parse_tokens(Some(vec![requirement("MIT"), requirement("Zlib")])),
        Err(MalformedLicenseExpression)
    );
    assert_eq!(parse_tokens(Some(vec![requirement("MIT")])), Ok(license("MIT")));
}

#[test]
fn normalized_tree_is_a_fixed_point() {
    let tree = parse("Zlib OR (MIT AND (ISC OR MIT) AND MIT) OR Zlib").unwrap();
    let once = tree.normalized();
    let twice = once.normalized();
    assert_eq!(once, twice);
    assert_eq!(once.serialize(), "((ISC OR MIT) AND MIT) OR Zlib");
}

#[test]
fn operands_with_the_same_requirements_count_as_one() {
    // both operands have the requirements Apache-2.0, ISC, MIT in this order:
    // the one that is written first stays
    assert_eq!(
        normalize("((Apache-2.0 OR ISC) AND MIT) OR (Apache-2.0 AND ISC AND MIT)"),
        "(Apache-2.0 OR ISC) AND MIT"
    );
    assert_eq!(
        normalize("(Apache-2.0 AND ISC AND MIT) OR ((Apache-2.0 OR ISC) AND MIT)"),
        "Apache-2.0 AND ISC AND MIT"
    );
}

fn told(of_spdx_list: bool, spdx: &str, written: &str, addition: Option<&str>) -> ParsedRequirement {
    ParsedRequirement {
        of_spdx_list,
        as_spdx_writes: spdx.to_string(),
        as_written: written.to_string(),
        addition: addition.map(str::to_string),
    }
}

#[test]
fn license_of_the_spdx_list_is_written_as_spdx_writes_it() {
    let r = requirement_of(told(true, "Apache-2.0", "apache2", None));
    assert_eq!(r, LicenseRequirement::new("Apache-2.0".to_string()));
    let r = requirement_of(told(true, "GPL-3.0-or-later", "GPL-3.0", Some("Classpath-exception-2.0")));
    assert_eq!(r.canonical(), "GPL-3.0-or-later WITH Classpath-exception-2.0");
}

#[test]
fn other_license_is_written_as_the_string_has_it() {
    let r = requirement_of(told(false, "LicenseRef-Proprietary", "Proprietary", None));
    assert_eq!(r, LicenseRequirement::new("Proprietary".to_string()));
    let r = requirement_of(told(false, "LicenseRef-mine", "LicenseRef-mine", None));
    assert_eq!(r.canonical(), "LicenseRef-mine");
}

#[test]
fn exception_is_written_as_spdx_writes_it() {
    let r = requirement_of(told(true, "MIT", "MIT", Some("AdditionRef-NoSuchException")));
    assert_eq!(
        r,
        LicenseRequirement::with_exception(
            "MIT".to_string(),
            "AdditionRef-NoSuchException".to_string()
        )
    );
    assert_eq!(
        normalize("MIT WITH NoSuchException"),
        "MIT WITH AdditionRef-NoSuchException"
    );
    assert_eq!(
        normalize("Proprietary WITH NoSuchException"),
        "Proprietary WITH AdditionRef-NoSuchException"
    );
}

#[test]
fn parsed_tokens_become_postfix_tokens_in_their_order() {
    let tokens = postfix_tokens(vec![
        ParsedToken::Requirement(told(false, "LicenseRef-x", "x", None)),
        ParsedToken::Requirement(told(true, "MIT", "mit", Some("LLVM-exception"))),
        ParsedToken::Operator(Operator::And),
    ]);
    assert_eq!(
        tokens,
        vec![
            requirement("x"),
            PostfixToken::Requirement(LicenseRequirement::with_exception(
                "MIT".to_string(),
                "LLVM-exception".to_string()
            )),
            PostfixToken::Operator(Operator::And),
        ]
    );
    assert!(postfix_tokens(vec![]).is_empty());
}

#[test]
fn read_postfix_reads_what_the_parser_reads() {
    assert_eq!(
        read_postfix("mit OR Proprietary", true),
        Some(vec![
            requirement("MIT"),
            requirement("Proprietary"),
            PostfixToken::Operator(Operator::Or),
        ])
    );
    assert_eq!(read_postfix("mit OR Proprietary", false), None);
    assert_eq!(read_postfix("(MIT", true), None);
    assert_eq!(
        read_postfix("LicenseRef-mine", false),
        Some(vec![requirement("LicenseRef-mine")])
    );
}

#[test]
fn node_left_with_one_operand_keeps_its_operands_together() {
    let once = normalize("((Apache-2.0 AND Zlib) OR (Apache-2.0 AND Zlib)) AND MIT");
    assert_eq!(once, "Apache-2.0 AND Zlib AND MIT");
    assert_eq!(normalize(&once), "Apache-2.0 AND MIT AND Zlib");
}
