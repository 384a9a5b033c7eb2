use spdx_expression::{SpdxExpression, SpdxExpressionError};

#[test]
fn test_parsing_works() {
    let expression = SpdxExpression::parse("MIT AND (Apache-2.0 OR ISC)").unwrap();
    assert_eq!(expression.to_string(), "MIT AND (Apache-2.0 OR ISC)");
}

#[test]
fn test_licenses_from_simple_expression() {
    let expression = SpdxExpression::parse("MIT").unwrap();
    let licenses = expression.licenses();
    assert_eq!(licenses, vec!["MIT".to_string()]);
}

#[test]
fn test_licenses_from_compound_or_expression() {
    let expression = SpdxExpression::parse("MIT OR Apache-2.0").unwrap();
    let licenses = expression.licenses();
    assert_eq!(licenses, vec!["Apache-2.0".to_string(), "MIT".to_string()]);
}

#[test]
fn test_licenses_from_compound_parentheses_expression() {
    let expression = SpdxExpression::parse(
        "(MIT OR Apache-2.0 AND (GPL-2.0-only WITH Classpath-exception-2.0 OR ISC))",
    )
    .unwrap();
    let licenses = expression.licenses();
    assert_eq!(
        licenses,
        vec![
            "Apache-2.0".to_string(),
            "Classpath-exception-2.0".to_string(),
            "GPL-2.0-only".to_string(),
            "ISC".to_string(),
            "MIT".to_string()
        ]
    );
}

#[test]
fn unknown_identifiers_are_accepted() {
    let expression = SpdxExpression::parse("MIT OR InvalidLicenseId").unwrap();
    assert_eq!(expression.to_string(), "MIT OR InvalidLicenseId");
    assert_eq!(
        expression.licenses(),
        vec!["InvalidLicenseId".to_string(), "MIT".to_string()]
    );
}

#[test]
fn invalid_syntax_is_rejected() {
    assert_eq!(
        SpdxExpression::parse("MIT AND"),
        Err(SpdxExpressionError::Parse(
            "unexpected end of expression".to_string()
        ))
    );
    assert_eq!(
        SpdxExpression::parse("MIT OR OR Apache-2.0"),
        Err(SpdxExpressionError::Parse(
            "unexpected token `OR` at token 2".to_string()
        ))
    );
    assert_eq!(
        SpdxExpression::parse("(MIT"),
        Err(SpdxExpressionError::Parse(
            "unmatched parenthesis at token 0".to_string()
        ))
    );
}

#[test]
fn invalid_identifier_is_described() {
    assert_eq!(
        SpdxExpression::parse("MIT AND foo_bar"),
        Err(SpdxExpressionError::Parse(
            "invalid identifier `foo_bar` at token 2".to_string()
        ))
    );
}

#[test]
fn constants_parse_and_name_no_license() {
    let none = SpdxExpression::parse("NONE").unwrap();
    assert_eq!(none.to_string(), "NONE");
    assert_eq!(none.licenses(), Vec::<String>::new());
    let unknown = SpdxExpression::parse("NOASSERTION").unwrap();
    assert_eq!(unknown.to_string(), "NOASSERTION");
    assert_eq!(unknown.licenses(), Vec::<String>::new());
    let mixed = SpdxExpression::parse("MIT OR NONE").unwrap();
    assert_eq!(mixed.licenses(), vec!["MIT".to_string()]);
}

#[test]
fn licenses_are_deduplicated() {
    let expression = SpdxExpression::parse("MIT OR MIT AND (ISC OR MIT) AND ISC").unwrap();
    assert_eq!(
        expression.licenses(),
        vec!["ISC".to_string(), "MIT".to_string()]
    );
}

#[test]
fn licenses_are_ordered_by_code_point() {
    let expression = SpdxExpression::parse("b OR a OR B OR MIT-0 OR MIT OR 0BSD").unwrap();
    assert_eq!(
        expression.licenses(),
        vec![
            "0BSD".to_string(),
            "B".to_string(),
            "MIT".to_string(),
            "MIT-0".to_string(),
            "a".to_string(),
            "b".to_string()
        ]
    );
}

#[test]
fn licenses_hold_exceptions() {
    let expression = SpdxExpression::parse("GPL-2.0-only WITH Classpath-exception-2.0").unwrap();
    assert_eq!(
        expression.licenses(),
        vec![
            "Classpath-exception-2.0".to_string(),
            "GPL-2.0-only".to_string()
        ]
    );
}

#[test]
fn licenses_match_the_words_of_the_text() {
    let expression =
        SpdxExpression::parse("(MIT OR Apache-2.0 AND (GPL-2.0-only WITH Classpath-exception-2.0 OR ISC))")
            .unwrap();
    let text = expression.to_string();
    let mut words: Vec<String> = text
        .split_ascii_whitespace()
        .filter(|&word| word != "OR" && word != "AND" && word != "WITH")
        .map(|word| word.replace('(', "").replace(')', ""))
        .collect();
    words.sort_unstable();
    words.dedup();
    assert_eq!(expression.licenses(), words);
}

#[test]
fn text_is_read_back_as_the_same_expression() {
    let texts = [
        "MIT",
        "MIT OR Apache-2.0",
        "A OR B AND C",
        "(A OR B) AND C",
        "A WITH B OR C",
        "(MIT OR Apache-2.0 AND (GPL-2.0-only WITH Classpath-exception-2.0 OR ISC))",
        "A AND (B AND C)",
        "(A WITH B) WITH C",
        "NONE",
        "DocumentRef-spdx-tool-1.2:LicenseRef-MIT-Style-2 AND GPL-2.0+",
    ];
    for text in texts {
        let expression = SpdxExpression::parse(text).unwrap();
        assert_eq!(expression.to_string(), text);
        let again = SpdxExpression::parse(&expression.to_string()).unwrap();
        assert_eq!(again, expression);
    }
}

#[test]
fn reparse_is_stable_for_loose_text() {
    let expression = SpdxExpression::parse("  ((MIT))\tAND\n( Apache-2.0  OR (ISC) )").unwrap();
    let text = expression.to_string();
    assert_eq!(text, "MIT AND (Apache-2.0 OR ISC)");
    let again = SpdxExpression::parse(&text).unwrap();
    assert_eq!(again, expression);
    assert_eq!(again.to_string(), text);
}

#[test]
fn variant_is_the_parsed_tree() {
    let expression = SpdxExpression::parse("MIT").unwrap();
    assert_eq!(
        *expression.variant(),
        spdx_expression::ExpressionVariant::License("MIT".to_string())
    );
}

#[test]
fn clone_is_equal() {
    let expression = SpdxExpression::parse("(A OR B) AND C WITH D").unwrap();
    let copy = expression.clone();
    assert_eq!(copy, expression);
    assert_eq!(copy.to_string(), "(A OR B) AND C WITH D");
}
