use spdx_expression::token::{tokenize, Token};
use spdx_expression::{ExpressionVariant, ParseError};

fn license(id: &str) -> ExpressionVariant {
    ExpressionVariant::License(id.to_string())
}

fn and(left: ExpressionVariant, right: ExpressionVariant, grouped: bool) -> ExpressionVariant {
    ExpressionVariant::And {
        left: Box::new(left),
        right: Box::new(right),
        grouped,
    }
}

fn or(left: ExpressionVariant, right: ExpressionVariant, grouped: bool) -> ExpressionVariant {
    ExpressionVariant::Or {
        left: Box::new(left),
        right: Box::new(right),
        grouped,
    }
}

fn with(license: ExpressionVariant, exception: &str, grouped: bool) -> ExpressionVariant {
    ExpressionVariant::With {
        license: Box::new(license),
        exception: exception.to_string(),
        grouped,
    }
}

fn unexpected(position: usize, token: &str) -> ParseError {
    ParseError::UnexpectedToken {
        position,
        token: token.to_string(),
    }
}

fn invalid(position: usize, token: &str) -> ParseError {
    ParseError::InvalidIdentifier {
        position,
        token: token.to_string(),
    }
}

#[test]
fn and_binds_tighter_than_or() {
    let parsed = ExpressionVariant::parse("A OR B AND C").unwrap();
    assert_eq!(
        parsed,
        or(license("A"), and(license("B"), license("C"), false), false)
    );
    assert_eq!(parsed.to_string(), "A OR B AND C");
    let other = ExpressionVariant::parse("A AND B OR C").unwrap();
    assert_eq!(
        other,
        or(and(license("A"), license("B"), false), license("C"), false)
    );
    assert_eq!(other.to_string(), "A AND B OR C");
}

#[test]
fn explicit_grouping_is_kept() {
    let parsed = ExpressionVariant::parse("(A OR B) AND C").unwrap();
    assert_eq!(
        parsed,
        and(or(license("A"), license("B"), true), license("C"), false)
    );
    assert_eq!(parsed.to_string(), "(A OR B) AND C");
    assert_ne!(parsed, ExpressionVariant::parse("A OR B AND C").unwrap());
}

#[test]
fn redundant_grouping_of_a_compound_is_kept() {
    let parsed = ExpressionVariant::parse("A OR (B AND C)").unwrap();
    assert_eq!(
        parsed,
        or(license("A"), and(license("B"), license("C"), true), false)
    );
    assert_eq!(parsed.to_string(), "A OR (B AND C)");
    assert_ne!(parsed, ExpressionVariant::parse("A OR B AND C").unwrap());
}

#[test]
fn with_binds_tighter_than_and_and_or() {
    assert_eq!(
        ExpressionVariant::parse("A WITH B OR C").unwrap(),
        or(with(license("A"), "B", false), license("C"), false)
    );
    assert_eq!(
        ExpressionVariant::parse("A AND B WITH C").unwrap(),
        and(license("A"), with(license("B"), "C", false), false)
    );
    assert_eq!(
        ExpressionVariant::parse("A OR B WITH C AND D").unwrap(),
        or(
            license("A"),
            and(with(license("B"), "C", false), license("D"), false),
            false
        )
    );
}

#[test]
fn operators_chain_to_the_left() {
    assert_eq!(
        ExpressionVariant::parse("A AND B AND C").unwrap(),
        and(and(license("A"), license("B"), false), license("C"), false)
    );
    assert_eq!(
        ExpressionVariant::parse("A OR B OR C OR D").unwrap(),
        or(
            or(or(license("A"), license("B"), false), license("C"), false),
            license("D"),
            false
        )
    );
    assert_eq!(
        ExpressionVariant::parse("A AND (B AND C)").unwrap(),
        and(license("A"), and(license("B"), license("C"), true), false)
    );
}

#[test]
fn with_takes_a_group_on_its_left() {
    assert_eq!(
        ExpressionVariant::parse("(A OR B) WITH C").unwrap(),
        with(or(license("A"), license("B"), true), "C", false)
    );
    assert_eq!(
        ExpressionVariant::parse("(A WITH B) WITH C").unwrap(),
        with(with(license("A"), "B", true), "C", false)
    );
    assert_eq!(
        ExpressionVariant::parse("A WITH B WITH C"),
        Err(unexpected(3, "WITH"))
    );
}

#[test]
fn parentheses_round_a_leaf_are_dropped() {
    let parsed = ExpressionVariant::parse("(MIT)").unwrap();
    assert_eq!(parsed, license("MIT"));
    assert_eq!(parsed.to_string(), "MIT");
    let constant = ExpressionVariant::parse("((NONE))").unwrap();
    assert_eq!(constant, ExpressionVariant::NoLicense);
    assert_eq!(constant.to_string(), "NONE");
}

#[test]
fn doubled_parentheses_are_written_once() {
    let parsed = ExpressionVariant::parse("((A OR B))").unwrap();
    assert_eq!(parsed, or(license("A"), license("B"), true));
    assert_eq!(parsed.to_string(), "(A OR B)");
}

#[test]
fn constants_are_read_in_exact_case() {
    assert_eq!(
        ExpressionVariant::parse("NONE").unwrap(),
        ExpressionVariant::NoLicense
    );
    assert_eq!(
        ExpressionVariant::parse("NOASSERTION").unwrap(),
        ExpressionVariant::NoAssertion
    );
    assert_eq!(ExpressionVariant::parse("none").unwrap(), license("none"));
    assert_eq!(
        ExpressionVariant::parse("NoAssertion").unwrap(),
        license("NoAssertion")
    );
    assert_eq!(
        ExpressionVariant::parse("NONE AND MIT").unwrap(),
        and(ExpressionVariant::NoLicense, license("MIT"), false)
    );
}

#[test]
fn operators_are_read_in_exact_case() {
    assert_eq!(ExpressionVariant::parse("and").unwrap(), license("and"));
    assert_eq!(
        ExpressionVariant::parse("MIT and ISC"),
        Err(unexpected(1, "and"))
    );
    assert_eq!(
        ExpressionVariant::parse("MIT with ISC"),
        Err(unexpected(1, "with"))
    );
    assert_eq!(
        ExpressionVariant::parse("or OR Or").unwrap(),
        or(license("or"), license("Or"), false)
    );
}

#[test]
fn white_space_and_parentheses_separate_tokens() {
    let parsed = ExpressionVariant::parse(" \tMIT\nAND(Apache-2.0\r\nOR\x0CISC)  ").unwrap();
    assert_eq!(
        parsed,
        and(
            license("MIT"),
            or(license("Apache-2.0"), license("ISC"), true),
            false
        )
    );
    assert_eq!(parsed.to_string(), "MIT AND (Apache-2.0 OR ISC)");
}

#[test]
fn identifier_forms() {
    assert_eq!(
        ExpressionVariant::parse("GPL-2.0+").unwrap(),
        license("GPL-2.0+")
    );
    assert_eq!(
        ExpressionVariant::parse("LicenseRef-My.License-1").unwrap(),
        license("LicenseRef-My.License-1")
    );
    assert_eq!(
        ExpressionVariant::parse("DocumentRef-spdx-tool-1.2:LicenseRef-MIT-Style-2").unwrap(),
        license("DocumentRef-spdx-tool-1.2:LicenseRef-MIT-Style-2")
    );
    assert_eq!(
        ExpressionVariant::parse("DocumentRef-a:LicenseRef-b").unwrap(),
        license("DocumentRef-a:LicenseRef-b")
    );
    assert_eq!(ExpressionVariant::parse("0BSD").unwrap(), license("0BSD"));
}

#[test]
fn malformed_identifiers_are_rejected() {
    assert_eq!(ExpressionVariant::parse("+"), Err(invalid(0, "+")));
    assert_eq!(ExpressionVariant::parse("MIT++"), Err(invalid(0, "MIT++")));
    assert_eq!(ExpressionVariant::parse("+MIT"), Err(invalid(0, "+MIT")));
    assert_eq!(ExpressionVariant::parse("a:b"), Err(invalid(0, "a:b")));
    assert_eq!(
        ExpressionVariant::parse("DocumentRef-:LicenseRef-b"),
        Err(invalid(0, "DocumentRef-:LicenseRef-b"))
    );
    assert_eq!(
        ExpressionVariant::parse("DocumentRef-a:LicenseRef-"),
        Err(invalid(0, "DocumentRef-a:LicenseRef-"))
    );
    assert_eq!(
        ExpressionVariant::parse("DocumentRef-a:LicenseRef-b+"),
        Err(invalid(0, "DocumentRef-a:LicenseRef-b+"))
    );
    assert_eq!(
        ExpressionVariant::parse("documentref-a:LicenseRef-b"),
        Err(invalid(0, "documentref-a:LicenseRef-b"))
    );
    assert_eq!(
        ExpressionVariant::parse("DocumentRef-a:LicenseRef-b:LicenseRef-c"),
        Err(invalid(0, "DocumentRef-a:LicenseRef-b:LicenseRef-c"))
    );
    assert_eq!(
        ExpressionVariant::parse("MIT OR foo$bar"),
        Err(invalid(2, "foo$bar"))
    );
    assert_eq!(
        ExpressionVariant::parse("MIT OR caf\u{e9}"),
        Err(invalid(2, "caf\u{e9}"))
    );
    assert_eq!(
        ExpressionVariant::parse("MIT\u{a0}OR ISC"),
        Err(invalid(0, "MIT\u{a0}OR"))
    );
    assert_eq!(
        ExpressionVariant::parse("MIT WITH foo_bar"),
        Err(invalid(2, "foo_bar"))
    );
}

#[test]
fn unexpected_end() {
    assert_eq!(ExpressionVariant::parse(""), Err(ParseError::UnexpectedEnd));
    assert_eq!(
        ExpressionVariant::parse(" \t\n"),
        Err(ParseError::UnexpectedEnd)
    );
    assert_eq!(
        ExpressionVariant::parse("MIT AND"),
        Err(ParseError::UnexpectedEnd)
    );
    assert_eq!(
        ExpressionVariant::parse("MIT OR"),
        Err(ParseError::UnexpectedEnd)
    );
    assert_eq!(
        ExpressionVariant::parse("MIT WITH"),
        Err(ParseError::UnexpectedEnd)
    );
    assert_eq!(ExpressionVariant::parse("("), Err(ParseError::UnexpectedEnd));
    assert_eq!(
        ExpressionVariant::parse("(MIT AND"),
        Err(ParseError::UnexpectedEnd)
    );
}

#[test]
fn unmatched_parenthesis() {
    assert_eq!(
        ExpressionVariant::parse("(MIT"),
        Err(ParseError::UnmatchedParenthesis { position: 0 })
    );
    assert_eq!(
        ExpressionVariant::parse("MIT AND (ISC OR (A AND B)"),
        Err(ParseError::UnmatchedParenthesis { position: 2 })
    );
    assert_eq!(
        ExpressionVariant::parse("MIT)"),
        Err(ParseError::UnmatchedParenthesis { position: 1 })
    );
    assert_eq!(
        ExpressionVariant::parse("(MIT))"),
        Err(ParseError::UnmatchedParenthesis { position: 3 })
    );
}

#[test]
fn unexpected_token() {
    assert_eq!(
        ExpressionVariant::parse("MIT OR OR Apache-2.0"),
        Err(unexpected(2, "OR"))
    );
    assert_eq!(
        ExpressionVariant::parse("MIT AND OR ISC"),
        Err(unexpected(2, "OR"))
    );
    assert_eq!(ExpressionVariant::parse("AND MIT"), Err(unexpected(0, "AND")));
    assert_eq!(ExpressionVariant::parse("WITH"), Err(unexpected(0, "WITH")));
    assert_eq!(ExpressionVariant::parse("()"), Err(unexpected(1, ")")));
    assert_eq!(ExpressionVariant::parse(")"), Err(unexpected(0, ")")));
    assert_eq!(
        ExpressionVariant::parse("MIT Apache-2.0"),
        Err(unexpected(1, "Apache-2.0"))
    );
    assert_eq!(
        ExpressionVariant::parse("MIT (ISC)"),
        Err(unexpected(1, "("))
    );
    assert_eq!(
        ExpressionVariant::parse("(MIT ISC)"),
        Err(unexpected(2, "ISC"))
    );
    assert_eq!(
        ExpressionVariant::parse("MIT NONE"),
        Err(unexpected(1, "NONE"))
    );
    assert_eq!(
        ExpressionVariant::parse("MIT WITH AND"),
        Err(unexpected(2, "AND"))
    );
    assert_eq!(
        ExpressionVariant::parse("MIT WITH NONE"),
        Err(unexpected(2, "NONE"))
    );
    assert_eq!(
        ExpressionVariant::parse("MIT WITH NOASSERTION"),
        Err(unexpected(2, "NOASSERTION"))
    );
    assert_eq!(
        ExpressionVariant::parse("MIT WITH (A)"),
        Err(unexpected(2, "("))
    );
}

#[test]
fn the_first_failure_is_reported() {
    assert_eq!(
        ExpressionVariant::parse("MIT AND AND foo$ ("),
        Err(unexpected(2, "AND"))
    );
    assert_eq!(
        ExpressionVariant::parse("foo$ AND AND"),
        Err(invalid(0, "foo$"))
    );
}

#[test]
fn descriptions() {
    assert_eq!(
        ParseError::UnexpectedEnd.description(),
        "unexpected end of expression"
    );
    assert_eq!(
        ParseError::UnmatchedParenthesis { position: 12 }.description(),
        "unmatched parenthesis at token 12"
    );
    assert_eq!(
        unexpected(100, ")").description(),
        "unexpected token `)` at token 100"
    );
    assert_eq!(
        invalid(7, "a_b").description(),
        "invalid identifier `a_b` at token 7"
    );
}

#[test]
fn decimal_text_of_numbers() {
    assert_eq!(spdx_expression::error::decimal_text(0), "0");
    assert_eq!(spdx_expression::error::decimal_text(9), "9");
    assert_eq!(spdx_expression::error::decimal_text(10), "10");
    assert_eq!(spdx_expression::error::decimal_text(1234567890), "1234567890");
    assert_eq!(
        spdx_expression::error::decimal_text(usize::MAX),
        format!("{}", usize::MAX)
    );
}

#[test]
fn tokens_of_a_text() {
    assert_eq!(tokenize(""), Vec::<Token>::new());
    assert_eq!(tokenize(" \n "), Vec::<Token>::new());
    assert_eq!(
        tokenize("(MIT)AND x_y WITH OR NONE NOASSERTION(("),
        vec![
            Token::Open,
            Token::Ident("MIT".to_string()),
            Token::Close,
            Token::And,
            Token::Invalid("x_y".to_string()),
            Token::With,
            Token::Or,
            Token::NoLicense,
            Token::NoAssertion,
            Token::Open,
            Token::Open
        ]
    );
    assert_eq!(Token::Open.text(), "(");
    assert_eq!(Token::Close.text(), ")");
    assert_eq!(Token::And.text(), "AND");
    assert_eq!(Token::Or.text(), "OR");
    assert_eq!(Token::With.text(), "WITH");
    assert_eq!(Token::NoLicense.text(), "NONE");
    assert_eq!(Token::NoAssertion.text(), "NOASSERTION");
    assert_eq!(Token::Ident("MIT".to_string()).text(), "MIT");
}

#[test]
fn characters_of_a_text() {
    assert_eq!(
        spdx_expression::token::chars_of("a\u{e9}("),
        vec!['a', '\u{e9}', '(']
    );
    assert!(spdx_expression::token::is_space_char('\t'));
    assert!(!spdx_expression::token::is_space_char('\u{a0}'));
    assert!(spdx_expression::token::is_delimiter_char(')'));
    assert!(!spdx_expression::token::is_delimiter_char('+'));
}

#[test]
fn parse_tokens_reads_all_tokens() {
    let tokens = vec![
        Token::Ident("A".to_string()),
        Token::Or,
        Token::Ident("B".to_string()),
    ];
    assert_eq!(
        spdx_expression::grammar::parse_tokens(&tokens),
        Ok(or(license("A"), license("B"), false))
    );
    let trailing = vec![Token::Ident("A".to_string()), Token::Open];
    assert_eq!(
        spdx_expression::grammar::parse_tokens(&trailing),
        Err(unexpected(1, "("))
    );
}

#[test]
fn operands_that_bind_too_loosely_are_written_in_parentheses() {
    let tree = and(or(license("A"), license("B"), false), license("C"), false);
    assert_eq!(tree.to_string(), "(A OR B) AND C");
    assert_eq!(
        ExpressionVariant::parse(&tree.to_string()).unwrap(),
        and(or(license("A"), license("B"), true), license("C"), false)
    );
    let right_nested = and(license("A"), and(license("B"), license("C"), false), false);
    assert_eq!(right_nested.to_string(), "A AND (B AND C)");
    let right_or = or(license("A"), or(license("B"), license("C"), false), false);
    assert_eq!(right_or.to_string(), "A OR (B OR C)");
    let loose_with = with(and(license("A"), license("B"), false), "C", false);
    assert_eq!(loose_with.to_string(), "(A AND B) WITH C");
    let nested_with = with(with(license("A"), "B", false), "C", false);
    assert_eq!(nested_with.to_string(), "(A WITH B) WITH C");
    let with_in_and = and(
        with(license("A"), "B", false),
        with(license("C"), "D", false),
        false,
    );
    assert_eq!(with_in_and.to_string(), "A WITH B AND C WITH D");
}

#[test]
fn grouping_marks_compound_nodes_only() {
    assert_eq!(license("A").into_grouped(), license("A"));
    assert_eq!(
        ExpressionVariant::NoAssertion.into_grouped(),
        ExpressionVariant::NoAssertion
    );
    assert_eq!(
        or(license("A"), license("B"), false).into_grouped(),
        or(license("A"), license("B"), true)
    );
    assert_eq!(
        with(license("A"), "B", false).into_grouped().to_string(),
        "(A WITH B)"
    );
    assert_eq!(
        and(license("A"), license("B"), true).clone(),
        and(license("A"), license("B"), true)
    );
}
