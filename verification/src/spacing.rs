//! Canonical spacing and redundant parentheses: which texts are the
//! canonical text of the expression they are read as.

use crate::canonical::{
    bracketed, lemma_atom_complete, lemma_expression_of_tokens, lemma_reads_join,
    lemma_reads_one, lemma_reads_split, lemma_reads_token, lemma_tokenize_render, reads,
    stands_at,
};
use crate::error::SpecParseError;
use crate::expression_variant::{parenthesized, SpecExpression};
use crate::grammar::{
    and_chain, and_expression, atom, expression, lemma_and_sound, lemma_atom_sound,
    lemma_or_sound, lemma_parse_well_formed, lemma_with_sound, or_chain, or_expression,
    parse_expression, sound, tokens_left, with_expression, SpecParsed,
};
use crate::token::{lemma_tokenize_checked, spec_tokenize, tokens_checked, SpecToken};
use vstd::prelude::*;

verus! {

/// What stands between two neighbouring tokens in canonical text: nothing
/// after `(` and before `)`, one space elsewhere.
pub open spec fn gap(before: SpecToken, after: SpecToken) -> Seq<char> {
    if before is Open || after is Close {
        Seq::empty()
    } else {
        " "@
    }
}

/// The tokens written one after the other in canonical spacing.
pub open spec fn spaced(tokens: Seq<SpecToken>) -> Seq<char>
    decreases tokens.len(),
{
    if tokens.len() == 0 {
        Seq::empty()
    } else if tokens.len() == 1 {
        tokens[0].text()
    } else {
        tokens[0].text() + gap(tokens[0], tokens[1]) + spaced(tokens.skip(1))
    }
}

/// The text is its own tokens in canonical spacing.
pub open spec fn canonically_spaced(text: Seq<char>) -> bool {
    text == spaced(spec_tokenize(text))
}

/// The parenthesis at index `i` and its partner hold nothing but an atom:
/// a constant, an identifier, or another pair of parentheses.
pub open spec fn redundant_at(tokens: Seq<SpecToken>, i: int) -> bool {
    &&& stands_at(tokens, i, SpecToken::Open)
    &&& atom(tokens, i + 1) matches Ok((_, n)) && stands_at(tokens, i + 1 + n, SpecToken::Close)
}

/// Some pair of parentheses holds nothing but an atom. The expression
/// read from such tokens is written without that pair.
pub open spec fn has_redundant_parentheses(tokens: Seq<SpecToken>) -> bool {
    exists|i: int| redundant_at(tokens, i)
}

/// A rule's success was read from just the tokens of its expression.
pub open spec fn yields(tokens: Seq<SpecToken>, i: int, rule: SpecParsed, level: int) -> bool {
    match rule {
        Ok((e, n)) => reads(tokens, i, e.tokens_at(level)) && e.tokens_at(level).len() == n,
        Err(_) => true,
    }
}

/// An `AND` chain that ends in something tighter than `AND` has joined nothing.
proof fn lemma_and_chain_keeps(tokens: Seq<SpecToken>, left: SpecExpression, i: int, n: nat)
    ensures
        and_chain(tokens, left, i, n) matches Ok((e, m)) ==> e.precedence() >= 3 ==> e == left
            && m == n,
    decreases tokens_left(tokens, i + n),
{
    if 0 <= i + n < tokens.len() && tokens[i + n] is And {
        match with_expression(tokens, i + n + 1) {
            Ok((right, m)) => {
                let joined = SpecExpression::And {
                    left: Box::new(left),
                    right: Box::new(right),
                    grouped: false,
                };
                lemma_and_chain_keeps(tokens, joined, i, n + 1 + m);
            },
            Err(_) => {},
        }
    }
}

/// An `OR` chain that ends in something tighter than `OR` has joined nothing.
proof fn lemma_or_chain_keeps(tokens: Seq<SpecToken>, left: SpecExpression, i: int, n: nat)
    ensures
        or_chain(tokens, left, i, n) matches Ok((e, m)) ==> e.precedence() >= 2 ==> e == left
            && m == n,
    decreases tokens_left(tokens, i + n),
{
    if 0 <= i + n < tokens.len() && tokens[i + n] is Or {
        match and_expression(tokens, i + n + 1) {
            Ok((right, m)) => {
                let joined = SpecExpression::Or {
                    left: Box::new(left),
                    right: Box::new(right),
                    grouped: false,
                };
                lemma_or_chain_keeps(tokens, joined, i, n + 1 + m);
            },
            Err(_) => {},
        }
    }
}

/// Where the loosest rule reads something that needs no parentheses
/// anywhere, it has read one atom.
proof fn lemma_or_is_atom(tokens: Seq<SpecToken>, i: int)
    ensures
        or_expression(tokens, i) matches Ok((e, n)) ==> e.precedence() >= 4 ==> atom(tokens, i)
            == Ok::<_, SpecParseError>((e, n)),
{
    match and_expression(tokens, i) {
        Ok((first, n)) => {
            lemma_or_chain_keeps(tokens, first, i, n);
            match with_expression(tokens, i) {
                Ok((start, m)) => {
                    lemma_and_chain_keeps(tokens, start, i, m);
                },
                Err(_) => {},
            }
        },
        Err(_) => {},
    }
}

/// An atom is read from just its tokens.
proof fn lemma_atom_yield(tokens: Seq<SpecToken>, i: int)
    requires
        tokens_checked(tokens),
        !has_redundant_parentheses(tokens),
        0 <= i,
    ensures
        yields(tokens, i, atom(tokens, i), 4),
    decreases tokens_left(tokens, i), 0nat,
{
    if i < tokens.len() {
        match tokens[i] {
            SpecToken::NoAssertion => {
                lemma_reads_token(tokens, i, SpecToken::NoAssertion);
            },
            SpecToken::NoLicense => {
                lemma_reads_token(tokens, i, SpecToken::NoLicense);
            },
            SpecToken::Ident(id) => {
                lemma_reads_token(tokens, i, SpecToken::Ident(id));
            },
            SpecToken::Open => {
                lemma_or_yield(tokens, i + 1);
                lemma_or_sound(tokens, i + 1);
                lemma_or_is_atom(tokens, i + 1);
                match or_expression(tokens, i + 1) {
                    Ok((inner, n)) => {
                        if i + 1 + n < tokens.len() && tokens[i + 1 + n] is Close {
                            assert(!redundant_at(tokens, i));
                            assert(inner.precedence() < 4);
                            let body = inner.tokens_at(1);
                            let e = inner.grouped();
                            assert(e.tokens_at(4) == seq![SpecToken::Open] + body + seq![
                                SpecToken::Close,
                            ]);
                            lemma_reads_token(tokens, i, SpecToken::Open);
                            lemma_reads_token(tokens, i + 1 + n, SpecToken::Close);
                            lemma_reads_join(tokens, i, seq![SpecToken::Open], body);
                            lemma_reads_join(
                                tokens,
                                i,
                                seq![SpecToken::Open] + body,
                                seq![SpecToken::Close],
                            );
                        }
                    },
                    Err(_) => {},
                }
            },
            _ => {},
        }
    }
}

/// A with-expression is read from just its tokens.
proof fn lemma_with_yield(tokens: Seq<SpecToken>, i: int)
    requires
        tokens_checked(tokens),
        !has_redundant_parentheses(tokens),
        0 <= i,
    ensures
        yields(tokens, i, with_expression(tokens, i), 3),
    decreases tokens_left(tokens, i), 1nat,
{
    lemma_atom_yield(tokens, i);
    lemma_atom_sound(tokens, i);
    match atom(tokens, i) {
        Ok((license, n)) => {
            assert(license.tokens_at(3) == license.tokens_at(4));
            if i + n + 1 < tokens.len() && tokens[i + n] is With {
                match tokens[i + n + 1] {
                    SpecToken::Ident(exception) => {
                        let head = license.tokens_at(4);
                        lemma_reads_token(tokens, i + n, SpecToken::With);
                        lemma_reads_token(tokens, i + n + 1, SpecToken::Ident(exception));
                        lemma_reads_join(tokens, i, head, seq![SpecToken::With]);
                        lemma_reads_join(
                            tokens,
                            i,
                            head + seq![SpecToken::With],
                            seq![SpecToken::Ident(exception)],
                        );
                    },
                    _ => {},
                }
            }
        },
        Err(_) => {},
    }
}

/// An `AND` chain goes on reading just the tokens of what it joins.
proof fn lemma_and_chain_yield(tokens: Seq<SpecToken>, left: SpecExpression, i: int, n: nat)
    requires
        tokens_checked(tokens),
        !has_redundant_parentheses(tokens),
        0 <= i,
        sound(tokens, i, Ok((left, n)), 2),
        yields(tokens, i, Ok((left, n)), 2),
    ensures
        yields(tokens, i, and_chain(tokens, left, i, n), 2),
    decreases tokens_left(tokens, i + n), 2nat,
{
    if i + n < tokens.len() && tokens[i + n] is And {
        lemma_with_yield(tokens, i + n + 1);
        lemma_with_sound(tokens, i + n + 1);
        match with_expression(tokens, i + n + 1) {
            Ok((right, m)) => {
                let joined = SpecExpression::And {
                    left: Box::new(left),
                    right: Box::new(right),
                    grouped: false,
                };
                let head = left.tokens_at(2);
                let tail = right.tokens_at(3);
                assert(joined.tokens_at(2) == head + seq![SpecToken::And] + tail);
                lemma_reads_token(tokens, i + n, SpecToken::And);
                lemma_reads_join(tokens, i, head, seq![SpecToken::And]);
                lemma_reads_join(tokens, i, head + seq![SpecToken::And], tail);
                lemma_and_chain_yield(tokens, joined, i, n + 1 + m);
            },
            Err(_) => {},
        }
    }
}

/// An and-expression is read from just its tokens.
proof fn lemma_and_yield(tokens: Seq<SpecToken>, i: int)
    requires
        tokens_checked(tokens),
        !has_redundant_parentheses(tokens),
        0 <= i,
    ensures
        yields(tokens, i, and_expression(tokens, i), 2),
    decreases tokens_left(tokens, i), 3nat,
{
    lemma_with_yield(tokens, i);
    lemma_with_sound(tokens, i);
    match with_expression(tokens, i) {
        Ok((first, n)) => {
            assert(first.tokens_at(2) == first.tokens_at(3));
            lemma_and_chain_yield(tokens, first, i, n);
        },
        Err(_) => {},
    }
}

/// An `OR` chain goes on reading just the tokens of what it joins.
proof fn lemma_or_chain_yield(tokens: Seq<SpecToken>, left: SpecExpression, i: int, n: nat)
    requires
        tokens_checked(tokens),
        !has_redundant_parentheses(tokens),
        0 <= i,
        sound(tokens, i, Ok((left, n)), 1),
        yields(tokens, i, Ok((left, n)), 1),
    ensures
        yields(tokens, i, or_chain(tokens, left, i, n), 1),
    decreases tokens_left(tokens, i + n), 4nat,
{
    if i + n < tokens.len() && tokens[i + n] is Or {
        lemma_and_yield(tokens, i + n + 1);
        lemma_and_sound(tokens, i + n + 1);
        match and_expression(tokens, i + n + 1) {
            Ok((right, m)) => {
                let joined = SpecExpression::Or {
                    left: Box::new(left),
                    right: Box::new(right),
                    grouped: false,
                };
                let head = left.tokens_at(1);
                let tail = right.tokens_at(2);
                assert(joined.tokens_at(1) == head + seq![SpecToken::Or] + tail);
                lemma_reads_token(tokens, i + n, SpecToken::Or);
                lemma_reads_join(tokens, i, head, seq![SpecToken::Or]);
                lemma_reads_join(tokens, i, head + seq![SpecToken::Or], tail);
                lemma_or_chain_yield(tokens, joined, i, n + 1 + m);
            },
            Err(_) => {},
        }
    }
}

/// An or-expression is read from just its tokens.
proof fn lemma_or_yield(tokens: Seq<SpecToken>, i: int)
    requires
        tokens_checked(tokens),
        !has_redundant_parentheses(tokens),
        0 <= i,
    ensures
        yields(tokens, i, or_expression(tokens, i), 1),
    decreases tokens_left(tokens, i), 5nat,
{
    lemma_and_yield(tokens, i);
    lemma_and_sound(tokens, i);
    match and_expression(tokens, i) {
        Ok((first, n)) => {
            assert(first.tokens_at(1) == first.tokens_at(2));
            lemma_or_chain_yield(tokens, first, i, n);
        },
        Err(_) => {},
    }
}

/// Tokens without redundant parentheses are the tokens of the expression
/// that the grammar reads from them.
pub proof fn lemma_tokens_of_expression(tokens: Seq<SpecToken>)
    requires
        tokens_checked(tokens),
        !has_redundant_parentheses(tokens),
    ensures
        expression(tokens) matches Ok(e) ==> e.tokens_at(1) == tokens,
{
    lemma_or_yield(tokens, 0);
    lemma_or_sound(tokens, 0);
    match expression(tokens) {
        Ok(e) => {
            assert(e.tokens_at(1) =~= tokens);
        },
        Err(_) => {},
    }
}

/// The tokens of an expression start with no `)` and end with no `(`.
proof fn lemma_tokens_ends(e: SpecExpression, min: int)
    ensures
        e.tokens_at(min).len() > 0,
        !(e.tokens_at(min).first() is Close),
        !(e.tokens_at(min).last() is Open),
    decreases e,
{
    match e {
        SpecExpression::Or { left, right, grouped } => {
            lemma_tokens_ends(*left, 1);
            lemma_tokens_ends(*right, 2);
        },
        SpecExpression::And { left, right, grouped } => {
            lemma_tokens_ends(*left, 2);
            lemma_tokens_ends(*right, 3);
        },
        SpecExpression::With { license, exception, grouped } => {
            lemma_tokens_ends(*license, 4);
        },
        _ => {},
    }
}

/// Two runs of tokens are spaced one after the other, with the gap of
/// the two tokens that meet between them.
proof fn lemma_spaced_concat(a: Seq<SpecToken>, b: Seq<SpecToken>)
    requires
        a.len() > 0,
        b.len() > 0,
    ensures
        spaced(a + b) == spaced(a) + gap(a.last(), b[0]) + spaced(b),
    decreases a.len(),
{
    let s = a + b;
    assert(s[0] == a[0]);
    if a.len() == 1 {
        assert(s.skip(1) =~= b);
        assert(s[1] == b[0]);
    } else {
        let rest = a.skip(1);
        assert(s.skip(1) =~= rest + b);
        assert(s[1] == a[1]);
        assert(rest.last() == a.last());
        lemma_spaced_concat(rest, b);
        assert(a[0].text() + gap(a[0], a[1]) + (spaced(rest) + gap(a.last(), b[0]) + spaced(b))
            =~= (a[0].text() + gap(a[0], a[1]) + spaced(rest)) + gap(a.last(), b[0]) + spaced(
            b,
        ));
    }
}

/// Two operands and the operator between them, spaced.
proof fn lemma_spaced_operator(a: Seq<SpecToken>, operator: SpecToken, b: Seq<SpecToken>)
    requires
        a.len() > 0,
        b.len() > 0,
        !(a.last() is Open),
        !(b[0] is Close),
        !(operator is Open),
        !(operator is Close),
    ensures
        spaced(a + seq![operator] + b) == spaced(a) + " "@ + operator.text() + " "@ + spaced(b),
{
    let middle = seq![operator];
    lemma_spaced_concat(a + middle, b);
    lemma_spaced_concat(a, middle);
    assert((a + middle).last() == operator);
}

/// Tokens between a pair of parentheses, spaced.
proof fn lemma_spaced_bracketed(wrap: bool, body: Seq<SpecToken>)
    requires
        body.len() > 0,
    ensures
        spaced(bracketed(wrap, body)) == parenthesized(wrap, spaced(body)),
{
    if wrap {
        let open = seq![SpecToken::Open];
        let close = seq![SpecToken::Close];
        lemma_spaced_concat(open + body, close);
        lemma_spaced_concat(open, body);
        assert("("@ + Seq::<char>::empty() + spaced(body) + Seq::<char>::empty() + ")"@ =~= "("@
            + spaced(body) + ")"@);
    }
}

/// The canonical text of an expression is its tokens in canonical spacing.
pub proof fn lemma_render_spaced(e: SpecExpression, min: int)
    ensures
        e.render_at(min) == spaced(e.tokens_at(min)),
    decreases e,
{
    reveal_strlit(" ");
    reveal_strlit("OR");
    reveal_strlit("AND");
    reveal_strlit("WITH");
    reveal_strlit(" OR ");
    reveal_strlit(" AND ");
    reveal_strlit(" WITH ");
    match e {
        SpecExpression::Or { left, right, grouped } => {
            let head = left.tokens_at(1);
            let tail = right.tokens_at(2);
            lemma_render_spaced(*left, 1);
            lemma_render_spaced(*right, 2);
            lemma_tokens_ends(*left, 1);
            lemma_tokens_ends(*right, 2);
            lemma_spaced_operator(head, SpecToken::Or, tail);
            lemma_spaced_bracketed(grouped || min > 1, head + seq![SpecToken::Or] + tail);
            assert(" "@ + "OR"@ + " "@ =~= " OR "@);
            assert(spaced(head) + " "@ + "OR"@ + " "@ + spaced(tail) =~= spaced(head) + (" "@
                + "OR"@ + " "@) + spaced(tail));
        },
        SpecExpression::And { left, right, grouped } => {
            let head = left.tokens_at(2);
            let tail = right.tokens_at(3);
            lemma_render_spaced(*left, 2);
            lemma_render_spaced(*right, 3);
            lemma_tokens_ends(*left, 2);
            lemma_tokens_ends(*right, 3);
            lemma_spaced_operator(head, SpecToken::And, tail);
            lemma_spaced_bracketed(grouped || min > 2, head + seq![SpecToken::And] + tail);
            assert(" "@ + "AND"@ + " "@ =~= " AND "@);
            assert(spaced(head) + " "@ + "AND"@ + " "@ + spaced(tail) =~= spaced(head) + (" "@
                + "AND"@ + " "@) + spaced(tail));
        },
        SpecExpression::With { license, exception, grouped } => {
            let head = license.tokens_at(4);
            let tail = seq![SpecToken::Ident(exception)];
            lemma_render_spaced(*license, 4);
            lemma_tokens_ends(*license, 4);
            lemma_spaced_operator(head, SpecToken::With, tail);
            lemma_spaced_bracketed(grouped || min > 3, head + seq![SpecToken::With] + tail);
            assert(" "@ + "WITH"@ + " "@ =~= " WITH "@);
            assert(spaced(head) + " "@ + "WITH"@ + " "@ + spaced(tail) =~= spaced(head) + (" "@
                + "WITH"@ + " "@) + spaced(tail));
        },
        _ => {},
    }
}

/// Round trip: a text in canonical spacing, with no pair of parentheses
/// round a lone atom, is the canonical text of the expression it is read
/// as.
pub proof fn lemma_render_parsed(text: Seq<char>)
    requires
        canonically_spaced(text),
        !has_redundant_parentheses(spec_tokenize(text)),
    ensures
        parse_expression(text) matches Ok(e) ==> e.render() == text,
{
    let tokens = spec_tokenize(text);
    lemma_tokenize_checked(text);
    lemma_tokens_of_expression(tokens);
    match parse_expression(text) {
        Ok(e) => {
            lemma_render_spaced(e, 1);
        },
        Err(_) => {},
    }
}

/// The token at index `j` is one of the three operators.
pub open spec fn operator_at(tokens: Seq<SpecToken>, j: int) -> bool {
    0 <= j < tokens.len() && (tokens[j] is Or || tokens[j] is And || tokens[j] is With)
}

/// After the first atom of a bare compound expression comes an operator.
proof fn lemma_first_atom(tokens: Seq<SpecToken>, j: int, e: SpecExpression)
    requires
        e.well_formed(),
        e.precedence() < 4,
        reads(tokens, j, e.tokens_at(1)),
    ensures
        atom(tokens, j) matches Ok((_, n)) ==> operator_at(tokens, j + n),
    decreases e,
{
    match e {
        SpecExpression::Or { left, right, grouped } => {
            let head = left.tokens_at(1);
            let tail = right.tokens_at(2);
            assert(e.tokens_at(1) == head + seq![SpecToken::Or] + tail);
            lemma_reads_split(tokens, j, head + seq![SpecToken::Or], tail);
            lemma_reads_split(tokens, j, head, seq![SpecToken::Or]);
            lemma_reads_one(tokens, j + head.len(), SpecToken::Or);
            if left.precedence() >= 4 {
                assert(left.tokens_at(1) == left.tokens_at(4));
                lemma_atom_complete(tokens, j, *left);
            } else {
                lemma_first_atom(tokens, j, *left);
            }
        },
        SpecExpression::And { left, right, grouped } => {
            let head = left.tokens_at(2);
            let tail = right.tokens_at(3);
            assert(e.tokens_at(1) == head + seq![SpecToken::And] + tail);
            lemma_reads_split(tokens, j, head + seq![SpecToken::And], tail);
            lemma_reads_split(tokens, j, head, seq![SpecToken::And]);
            lemma_reads_one(tokens, j + head.len(), SpecToken::And);
            if left.precedence() >= 4 {
                assert(left.tokens_at(2) == left.tokens_at(4));
                lemma_atom_complete(tokens, j, *left);
            } else {
                assert(left.tokens_at(2) == left.tokens_at(1));
                lemma_first_atom(tokens, j, *left);
            }
        },
        SpecExpression::With { license, exception, grouped } => {
            let head = license.tokens_at(4);
            assert(e.tokens_at(1) == head + seq![SpecToken::With] + seq![
                SpecToken::Ident(exception),
            ]);
            lemma_reads_split(
                tokens,
                j,
                head + seq![SpecToken::With],
                seq![SpecToken::Ident(exception)],
            );
            lemma_reads_split(tokens, j, head, seq![SpecToken::With]);
            lemma_reads_one(tokens, j + head.len(), SpecToken::With);
            lemma_atom_complete(tokens, j, *license);
        },
        _ => {},
    }
}

/// Where the tokens of a well-formed expression stand, no pair of
/// parentheses holds a lone atom.
proof fn lemma_tidy_within(tokens: Seq<SpecToken>, i: int, e: SpecExpression, min: int)
    requires
        e.well_formed(),
        e.precedence() >= min,
        reads(tokens, i, e.tokens_at(min)),
    ensures
        forall|k: int| i <= k < i + e.tokens_at(min).len() ==> !redundant_at(tokens, k),
    decreases e.weight(),
{
    let part = e.tokens_at(min);
    if e.precedence() >= 4 {
        match e {
            SpecExpression::NoAssertion => {
                lemma_reads_one(tokens, i, SpecToken::NoAssertion);
            },
            SpecExpression::NoLicense => {
                lemma_reads_one(tokens, i, SpecToken::NoLicense);
            },
            SpecExpression::License(id) => {
                lemma_reads_one(tokens, i, SpecToken::Ident(id));
            },
            _ => {
                let inner = e.ungrouped();
                let body = inner.tokens_at(1);
                assert(part == seq![SpecToken::Open] + body + seq![SpecToken::Close]);
                assert(inner.well_formed());
                lemma_reads_split(tokens, i, seq![SpecToken::Open] + body, seq![SpecToken::Close]);
                lemma_reads_split(tokens, i, seq![SpecToken::Open], body);
                lemma_reads_one(tokens, i + 1 + body.len(), SpecToken::Close);
                lemma_first_atom(tokens, i + 1, inner);
                lemma_tidy_within(tokens, i + 1, inner, 1);
            },
        }
    } else {
        match e {
            SpecExpression::Or { left, right, grouped } => {
                let head = left.tokens_at(1);
                let tail = right.tokens_at(2);
                assert(part == head + seq![SpecToken::Or] + tail);
                lemma_reads_split(tokens, i, head + seq![SpecToken::Or], tail);
                lemma_reads_split(tokens, i, head, seq![SpecToken::Or]);
                lemma_reads_one(tokens, i + head.len(), SpecToken::Or);
                lemma_tidy_within(tokens, i, *left, 1);
                lemma_tidy_within(tokens, i + head.len() + 1, *right, 2);
            },
            SpecExpression::And { left, right, grouped } => {
                let head = left.tokens_at(2);
                let tail = right.tokens_at(3);
                assert(part == head + seq![SpecToken::And] + tail);
                lemma_reads_split(tokens, i, head + seq![SpecToken::And], tail);
                lemma_reads_split(tokens, i, head, seq![SpecToken::And]);
                lemma_reads_one(tokens, i + head.len(), SpecToken::And);
                lemma_tidy_within(tokens, i, *left, 2);
                lemma_tidy_within(tokens, i + head.len() + 1, *right, 3);
            },
            SpecExpression::With { license, exception, grouped } => {
                let head = license.tokens_at(4);
                assert(part == head + seq![SpecToken::With] + seq![SpecToken::Ident(exception)]);
                lemma_reads_split(
                    tokens,
                    i,
                    head + seq![SpecToken::With],
                    seq![SpecToken::Ident(exception)],
                );
                lemma_reads_split(tokens, i, head, seq![SpecToken::With]);
                lemma_reads_one(tokens, i + head.len(), SpecToken::With);
                lemma_reads_one(tokens, i + head.len() + 1, SpecToken::Ident(exception));
                lemma_tidy_within(tokens, i, *license, 4);
            },
            _ => {},
        }
    }
}

/// The canonical text of a well-formed expression is in canonical
/// spacing, and none of its parentheses is redundant.
pub proof fn lemma_canonical_text(e: SpecExpression)
    requires
        e.well_formed(),
    ensures
        canonically_spaced(e.render()),
        !has_redundant_parentheses(spec_tokenize(e.render())),
{
    let tokens = e.tokens_at(1);
    lemma_tokenize_render(e, 1);
    lemma_render_spaced(e, 1);
    assert(reads(tokens, 0, tokens));
    lemma_tidy_within(tokens, 0, e, 1);
}

/// Round trip, both ways: of the texts that are read as an expression,
/// those that are the canonical text of what they are read as are the
/// texts in canonical spacing without redundant parentheses.
pub proof fn lemma_render_parsed_exactly(text: Seq<char>)
    ensures
        parse_expression(text) matches Ok(e) ==> (e.render() == text <==> canonically_spaced(text)
            && !has_redundant_parentheses(spec_tokenize(text))),
{
    lemma_parse_well_formed(text);
    match parse_expression(text) {
        Ok(e) => {
            lemma_canonical_text(e);
            if canonically_spaced(text) && !has_redundant_parentheses(spec_tokenize(text)) {
                lemma_render_parsed(text);
            }
        },
        Err(_) => {},
    }
}

/// Reading undoes writing: where no pair of parentheses holds a lone
/// atom, a text is read as an expression just when the expression is
/// well-formed and the tokens of the text are its tokens.
pub proof fn lemma_parse_inverts_render(text: Seq<char>, e: SpecExpression)
    requires
        !has_redundant_parentheses(spec_tokenize(text)),
    ensures
        parse_expression(text) == Ok::<_, SpecParseError>(e) <==> e.well_formed() && e.tokens_at(1)
            == spec_tokenize(text),
{
    let tokens = spec_tokenize(text);
    lemma_tokenize_checked(text);
    lemma_parse_well_formed(text);
    lemma_tokens_of_expression(tokens);
    if e.well_formed() && e.tokens_at(1) == tokens {
        lemma_expression_of_tokens(e);
    }
}

} // verus!
