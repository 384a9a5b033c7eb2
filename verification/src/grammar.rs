//! The grammar of license expressions, and the parser that implements it.
//!
//! From the tightest binding to the loosest:
//!
//! ```text
//! atom            = "(" or-expression ")" | identifier | "NONE" | "NOASSERTION"
//! with-expression = atom [ "WITH" identifier ]
//! and-expression  = with-expression { "AND" with-expression }
//! or-expression   = and-expression { "OR" and-expression }
//! ```
//!
//! `AND` and `OR` chain to the left.

use crate::error::{ParseError, SpecParseError};
use crate::expression_variant::{ExpressionVariant, SpecExpression};
use crate::token::{
    lemma_tokenize_checked, spec_tokenize, token_views, tokenize, tokens_checked, SpecToken, Token,
};
use vstd::prelude::*;

verus! {

/// What a rule of the grammar makes of the tokens from some index on: an
/// expression and the number of tokens it was read from, or the first
/// failure.
pub type SpecParsed = Result<(SpecExpression, nat), SpecParseError>;

/// The failure for a token that cannot stand at index `i`.
pub open spec fn unexpected(tokens: Seq<SpecToken>, i: int) -> SpecParseError {
    match tokens[i] {
        SpecToken::Invalid(word) => SpecParseError::InvalidIdentifier {
            position: i as nat,
            token: word,
        },
        other => SpecParseError::UnexpectedToken { position: i as nat, token: other.text() },
    }
}

/// The number of tokens from index `i` on.
pub open spec fn tokens_left(tokens: Seq<SpecToken>, i: int) -> nat {
    if i <= tokens.len() {
        (tokens.len() - i) as nat
    } else {
        0
    }
}

/// An atom at index `i`: a constant, an identifier, or an expression in
/// parentheses, which comes out grouped.
pub open spec fn atom(tokens: Seq<SpecToken>, i: int) -> SpecParsed
    decreases tokens_left(tokens, i), 0nat,
{
    if !(0 <= i < tokens.len()) {
        Err(SpecParseError::UnexpectedEnd)
    } else {
        match tokens[i] {
            SpecToken::NoAssertion => Ok((SpecExpression::NoAssertion, 1nat)),
            SpecToken::NoLicense => Ok((SpecExpression::NoLicense, 1nat)),
            SpecToken::Ident(id) => Ok((SpecExpression::License(id), 1nat)),
            SpecToken::Open => match or_expression(tokens, i + 1) {
                Ok((inner, n)) => {
                    if i + 1 + n >= tokens.len() {
                        Err(SpecParseError::UnmatchedParenthesis { position: i as nat })
                    } else if !(tokens[i + 1 + n] is Close) {
                        Err(unexpected(tokens, i + 1 + n))
                    } else {
                        Ok((inner.grouped(), n + 2))
                    }
                },
                Err(failure) => Err(failure),
            },
            _ => Err(unexpected(tokens, i)),
        }
    }
}

/// An atom at index `i`, with an exception where `WITH` follows it.
pub open spec fn with_expression(tokens: Seq<SpecToken>, i: int) -> SpecParsed
    decreases tokens_left(tokens, i), 1nat,
{
    match atom(tokens, i) {
        Ok((license, n)) => {
            if i + n < tokens.len() && tokens[i + n] is With {
                if i + n + 1 >= tokens.len() {
                    Err(SpecParseError::UnexpectedEnd)
                } else {
                    match tokens[i + n + 1] {
                        SpecToken::Ident(exception) => Ok(
                            (
                                SpecExpression::With {
                                    license: Box::new(license),
                                    exception,
                                    grouped: false,
                                },
                                n + 2,
                            ),
                        ),
                        _ => Err(unexpected(tokens, i + n + 1)),
                    }
                }
            } else {
                Ok((license, n))
            }
        },
        Err(failure) => Err(failure),
    }
}

/// The rest of an `AND` chain that starts at index `i`, of which `left`
/// was read from the first `n` tokens.
pub open spec fn and_chain(tokens: Seq<SpecToken>, left: SpecExpression, i: int, n: nat) -> SpecParsed
    decreases tokens_left(tokens, i + n), 2nat,
{
    if 0 <= i + n < tokens.len() && tokens[i + n] is And {
        match with_expression(tokens, i + n + 1) {
            Ok((right, m)) => and_chain(
                tokens,
                SpecExpression::And { left: Box::new(left), right: Box::new(right), grouped: false },
                i,
                n + 1 + m,
            ),
            Err(failure) => Err(failure),
        }
    } else {
        Ok((left, n))
    }
}

/// One or more with-expressions joined by `AND`, from index `i` on.
pub open spec fn and_expression(tokens: Seq<SpecToken>, i: int) -> SpecParsed
    decreases tokens_left(tokens, i), 3nat,
{
    match with_expression(tokens, i) {
        Ok((first, n)) => and_chain(tokens, first, i, n),
        Err(failure) => Err(failure),
    }
}

/// The rest of an `OR` chain that starts at index `i`, of which `left` was
/// read from the first `n` tokens.
pub open spec fn or_chain(tokens: Seq<SpecToken>, left: SpecExpression, i: int, n: nat) -> SpecParsed
    decreases tokens_left(tokens, i + n), 4nat,
{
    if 0 <= i + n < tokens.len() && tokens[i + n] is Or {
        match and_expression(tokens, i + n + 1) {
            Ok((right, m)) => or_chain(
                tokens,
                SpecExpression::Or { left: Box::new(left), right: Box::new(right), grouped: false },
                i,
                n + 1 + m,
            ),
            Err(failure) => Err(failure),
        }
    } else {
        Ok((left, n))
    }
}

/// One or more and-expressions joined by `OR`, from index `i` on.
pub open spec fn or_expression(tokens: Seq<SpecToken>, i: int) -> SpecParsed
    decreases tokens_left(tokens, i), 5nat,
{
    match and_expression(tokens, i) {
        Ok((first, n)) => or_chain(tokens, first, i, n),
        Err(failure) => Err(failure),
    }
}

/// The expression that a sequence of tokens spells, all of them read; or
/// the first failure.
pub open spec fn expression(tokens: Seq<SpecToken>) -> Result<SpecExpression, SpecParseError> {
    match or_expression(tokens, 0) {
        Ok((e, n)) => {
            if n >= tokens.len() {
                Ok(e)
            } else if tokens[n as int] is Close {
                Err(SpecParseError::UnmatchedParenthesis { position: n })
            } else {
                Err(unexpected(tokens, n as int))
            }
        },
        Err(failure) => Err(failure),
    }
}

/// The expression that a text spells, or the reason it spells none.
pub open spec fn parse_expression(text: Seq<char>) -> Result<SpecExpression, SpecParseError> {
    expression(spec_tokenize(text))
}

/// A rule's success is a well-formed expression that binds at least as
/// tightly as `level`, read from at least one token, none past the end.
pub open spec fn sound(tokens: Seq<SpecToken>, i: int, rule: SpecParsed, level: int) -> bool {
    match rule {
        Ok((e, n)) => {
            &&& e.well_formed()
            &&& e.precedence() >= level
            &&& 1 <= n
            &&& i + n <= tokens.len()
        },
        Err(_) => true,
    }
}

/// What the rule for atoms reads is sound.
pub proof fn lemma_atom_sound(tokens: Seq<SpecToken>, i: int)
    requires
        tokens_checked(tokens),
        0 <= i,
    ensures
        sound(tokens, i, atom(tokens, i), 4),
    decreases tokens_left(tokens, i), 0nat,
{
    if i < tokens.len() && tokens[i] is Open {
        lemma_or_sound(tokens, i + 1);
    }
}

/// What the rule for with-expressions reads is sound.
pub proof fn lemma_with_sound(tokens: Seq<SpecToken>, i: int)
    requires
        tokens_checked(tokens),
        0 <= i,
    ensures
        sound(tokens, i, with_expression(tokens, i), 3),
    decreases tokens_left(tokens, i), 1nat,
{
    lemma_atom_sound(tokens, i);
}

/// An `AND` chain that starts from something sound ends in something sound.
pub proof fn lemma_and_chain_sound(tokens: Seq<SpecToken>, left: SpecExpression, i: int, n: nat)
    requires
        tokens_checked(tokens),
        0 <= i,
        sound(tokens, i, Ok((left, n)), 2),
    ensures
        sound(tokens, i, and_chain(tokens, left, i, n), 2),
    decreases tokens_left(tokens, i + n), 2nat,
{
    if i + n < tokens.len() && tokens[i + n] is And {
        lemma_with_sound(tokens, i + n + 1);
        match with_expression(tokens, i + n + 1) {
            Ok((right, m)) => {
                let joined = SpecExpression::And {
                    left: Box::new(left),
                    right: Box::new(right),
                    grouped: false,
                };
                lemma_and_chain_sound(tokens, joined, i, n + 1 + m);
            },
            Err(_) => {},
        }
    }
}

/// What the rule for and-expressions reads is sound.
pub proof fn lemma_and_sound(tokens: Seq<SpecToken>, i: int)
    requires
        tokens_checked(tokens),
        0 <= i,
    ensures
        sound(tokens, i, and_expression(tokens, i), 2),
    decreases tokens_left(tokens, i), 3nat,
{
    lemma_with_sound(tokens, i);
    match with_expression(tokens, i) {
        Ok((first, n)) => {
            lemma_and_chain_sound(tokens, first, i, n);
        },
        Err(_) => {},
    }
}

/// An `OR` chain that starts from something sound ends in something sound.
pub proof fn lemma_or_chain_sound(tokens: Seq<SpecToken>, left: SpecExpression, i: int, n: nat)
    requires
        tokens_checked(tokens),
        0 <= i,
        sound(tokens, i, Ok((left, n)), 1),
    ensures
        sound(tokens, i, or_chain(tokens, left, i, n), 1),
    decreases tokens_left(tokens, i + n), 4nat,
{
    if i + n < tokens.len() && tokens[i + n] is Or {
        lemma_and_sound(tokens, i + n + 1);
        match and_expression(tokens, i + n + 1) {
            Ok((right, m)) => {
                let joined = SpecExpression::Or {
                    left: Box::new(left),
                    right: Box::new(right),
                    grouped: false,
                };
                lemma_or_chain_sound(tokens, joined, i, n + 1 + m);
            },
            Err(_) => {},
        }
    }
}

/// What the rule for or-expressions reads is sound.
pub proof fn lemma_or_sound(tokens: Seq<SpecToken>, i: int)
    requires
        tokens_checked(tokens),
        0 <= i,
    ensures
        sound(tokens, i, or_expression(tokens, i), 1),
    decreases tokens_left(tokens, i), 5nat,
{
    lemma_and_sound(tokens, i);
    match and_expression(tokens, i) {
        Ok((first, n)) => {
            lemma_or_chain_sound(tokens, first, i, n);
        },
        Err(_) => {},
    }
}

/// Whatever the grammar reads from a text is a well-formed expression.
pub proof fn lemma_parse_well_formed(text: Seq<char>)
    ensures
        parse_expression(text) matches Ok(e) ==> e.well_formed(),
{
    lemma_tokenize_checked(text);
    lemma_or_sound(spec_tokenize(text), 0);
}

/// `r` is what the grammar's rule, with result `rule`, gives from index
/// `i` on; a successful `r` holds the index after the last token read.
pub open spec fn agrees(
    r: Result<(ExpressionVariant, usize), ParseError>,
    rule: SpecParsed,
    i: usize,
    len: nat,
) -> bool {
    match r {
        Ok((e, next)) => i < next <= len && rule == Ok::<_, SpecParseError>(
            (e@, (next - i) as nat),
        ),
        Err(failure) => rule == Err::<(SpecExpression, nat), _>(failure@),
    }
}

fn unexpected_at(tokens: &Vec<Token>, i: usize) -> (r: ParseError)
    requires
        i < tokens.len(),
    ensures
        r@ == unexpected(token_views(tokens@), i as int),
{
    match &tokens[i] {
        Token::Invalid(word) => ParseError::InvalidIdentifier { position: i, token: word.clone() },
        other => ParseError::UnexpectedToken { position: i, token: other.text() },
    }
}

fn parse_atom(tokens: &Vec<Token>, i: usize) -> (r: Result<(ExpressionVariant, usize), ParseError>)
    requires
        i <= tokens.len(),
    ensures
        agrees(r, atom(token_views(tokens@), i as int), i, tokens@.len()),
    decreases tokens.len() - i, 0nat,
{
    if i >= tokens.len() {
        return Err(ParseError::UnexpectedEnd);
    }
    match &tokens[i] {
        Token::NoAssertion => Ok((ExpressionVariant::NoAssertion, i + 1)),
        Token::NoLicense => Ok((ExpressionVariant::NoLicense, i + 1)),
        Token::Ident(id) => Ok((ExpressionVariant::License(id.clone()), i + 1)),
        Token::Open => match parse_or(tokens, i + 1) {
            Ok((inner, next)) => {
                if next >= tokens.len() {
                    Err(ParseError::UnmatchedParenthesis { position: i })
                } else if !tokens[next].is_close() {
                    Err(unexpected_at(tokens, next))
                } else {
                    Ok((inner.into_grouped(), next + 1))
                }
            },
            Err(failure) => Err(failure),
        },
        _ => Err(unexpected_at(tokens, i)),
    }
}

fn parse_with(tokens: &Vec<Token>, i: usize) -> (r: Result<(ExpressionVariant, usize), ParseError>)
    requires
        i <= tokens.len(),
    ensures
        agrees(r, with_expression(token_views(tokens@), i as int), i, tokens@.len()),
    decreases tokens.len() - i, 1nat,
{
    match parse_atom(tokens, i) {
        Ok((license, next)) => {
            if next < tokens.len() && tokens[next].is_with() {
                if next + 1 >= tokens.len() {
                    return Err(ParseError::UnexpectedEnd);
                }
                match &tokens[next + 1] {
                    Token::Ident(exception) => Ok(
                        (
                            ExpressionVariant::With {
                                license: Box::new(license),
                                exception: exception.clone(),
                                grouped: false,
                            },
                            next + 2,
                        ),
                    ),
                    _ => Err(unexpected_at(tokens, next + 1)),
                }
            } else {
                Ok((license, next))
            }
        },
        Err(failure) => Err(failure),
    }
}

fn parse_and(tokens: &Vec<Token>, i: usize) -> (r: Result<(ExpressionVariant, usize), ParseError>)
    requires
        i <= tokens.len(),
    ensures
        agrees(r, and_expression(token_views(tokens@), i as int), i, tokens@.len()),
    decreases tokens.len() - i, 3nat,
{
    let ghost views = token_views(tokens@);
    let mut left: ExpressionVariant;
    let mut next: usize;
    match parse_with(tokens, i) {
        Ok((first, after)) => {
            left = first;
            next = after;
        },
        Err(failure) => {
            return Err(failure);
        },
    }
    while next < tokens.len() && tokens[next].is_and()
        invariant
            views == token_views(tokens@),
            i < next <= tokens.len(),
            and_expression(views, i as int) == and_chain(
                views,
                left@,
                i as int,
                (next - i) as nat,
            ),
        decreases tokens.len() - next,
    {
        match parse_with(tokens, next + 1) {
            Ok((right, after)) => {
                left =
                ExpressionVariant::And {
                    left: Box::new(left),
                    right: Box::new(right),
                    grouped: false,
                };
                next = after;
            },
            Err(failure) => {
                return Err(failure);
            },
        }
    }
    Ok((left, next))
}

fn parse_or(tokens: &Vec<Token>, i: usize) -> (r: Result<(ExpressionVariant, usize), ParseError>)
    requires
        i <= tokens.len(),
    ensures
        agrees(r, or_expression(token_views(tokens@), i as int), i, tokens@.len()),
    decreases tokens.len() - i, 5nat,
{
    let ghost views = token_views(tokens@);
    let mut left: ExpressionVariant;
    let mut next: usize;
    match parse_and(tokens, i) {
        Ok((first, after)) => {
            left = first;
            next = after;
        },
        Err(failure) => {
            return Err(failure);
        },
    }
    while next < tokens.len() && tokens[next].is_or()
        invariant
            views == token_views(tokens@),
            i < next <= tokens.len(),
            or_expression(views, i as int) == or_chain(views, left@, i as int, (next - i) as nat),
        decreases tokens.len() - next,
    {
        match parse_and(tokens, next + 1) {
            Ok((right, after)) => {
                left =
                ExpressionVariant::Or {
                    left: Box::new(left),
                    right: Box::new(right),
                    grouped: false,
                };
                next = after;
            },
            Err(failure) => {
                return Err(failure);
            },
        }
    }
    Ok((left, next))
}

/// Reads one expression from all of `tokens`.
pub fn parse_tokens(tokens: &Vec<Token>) -> (r: Result<ExpressionVariant, ParseError>)
    ensures
        match r {
            Ok(e) => expression(token_views(tokens@)) == Ok::<_, SpecParseError>(e@),
            Err(failure) => expression(token_views(tokens@)) == Err::<SpecExpression, _>(
                failure@,
            ),
        },
{
    match parse_or(tokens, 0) {
        Ok((e, next)) => {
            if next >= tokens.len() {
                Ok(e)
            } else if tokens[next].is_close() {
                Err(ParseError::UnmatchedParenthesis { position: next })
            } else {
                Err(unexpected_at(tokens, next))
            }
        },
        Err(failure) => Err(failure),
    }
}

impl ExpressionVariant {
    /// Parses a license expression.
    ///
    /// The text is split into tokens and read by the grammar of this
    /// module, all of it: the result is the expression that
    /// [`parse_expression`] gives, or its failure. Identifiers are held to
    /// their form, not to any list of licenses.
    pub fn parse(text: &str) -> (r: Result<ExpressionVariant, ParseError>)
        ensures
            match r {
                Ok(e) => parse_expression(text@) == Ok::<_, SpecParseError>(e@)
                    && e@.well_formed(),
                Err(failure) => parse_expression(text@) == Err::<SpecExpression, _>(failure@),
            },
    {
        proof {
            lemma_parse_well_formed(text@);
        }
        let tokens = tokenize(text);
        parse_tokens(&tokens)
    }
}

} // verus!
