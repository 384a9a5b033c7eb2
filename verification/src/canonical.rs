//! The tokens of an expression's canonical text, and the law that what is
//! written is read back: the grammar reads the canonical text of an
//! expression as that expression.

use crate::error::SpecParseError;
use crate::expression_variant::{parenthesized, SpecExpression};
use crate::grammar::{
    and_chain, and_expression, atom, expression, lemma_parse_well_formed, or_chain,
    or_expression, parse_expression, with_expression,
};
use crate::token::{
    lemma_identifier_is_word, lemma_tokenize_concat, lemma_tokenize_delimiter,
    lemma_tokenize_joined, lemma_tokenize_spaced_word, lemma_tokenize_word, spec_tokenize,
    SpecToken,
};
use vstd::prelude::*;

verus! {

/// `body`, between a pair of parentheses where `wrap` holds.
pub open spec fn bracketed(wrap: bool, body: Seq<SpecToken>) -> Seq<SpecToken> {
    if wrap {
        seq![SpecToken::Open] + body + seq![SpecToken::Close]
    } else {
        body
    }
}

impl SpecExpression {
    /// The tokens of the expression where its place asks for a precedence
    /// of at least `min`: those of its canonical text.
    pub open spec fn tokens_at(self, min: int) -> Seq<SpecToken>
        decreases self,
    {
        match self {
            SpecExpression::NoAssertion => seq![SpecToken::NoAssertion],
            SpecExpression::NoLicense => seq![SpecToken::NoLicense],
            SpecExpression::License(id) => seq![SpecToken::Ident(id)],
            SpecExpression::Or { left, right, grouped } => bracketed(
                grouped || min > 1,
                left.tokens_at(1) + seq![SpecToken::Or] + right.tokens_at(2),
            ),
            SpecExpression::And { left, right, grouped } => bracketed(
                grouped || min > 2,
                left.tokens_at(2) + seq![SpecToken::And] + right.tokens_at(3),
            ),
            SpecExpression::With { license, exception, grouped } => bracketed(
                grouped || min > 3,
                license.tokens_at(4) + seq![SpecToken::With] + seq![SpecToken::Ident(exception)],
            ),
        }
    }

    /// The number of nodes, a grouped node counted twice.
    pub open spec fn weight(self) -> nat
        decreases self,
    {
        match self {
            SpecExpression::Or { left, right, grouped } => 1 + left.weight() + right.weight() + if grouped {
                1nat
            } else {
                0nat
            },
            SpecExpression::And { left, right, grouped } => 1 + left.weight() + right.weight() + if grouped {
                1nat
            } else {
                0nat
            },
            SpecExpression::With { license, grouped, .. } => 1 + license.weight() + if grouped {
                1nat
            } else {
                0nat
            },
            _ => 1,
        }
    }
}

/// The tokens from index `i` on start with `part`.
pub open spec fn reads(tokens: Seq<SpecToken>, i: int, part: Seq<SpecToken>) -> bool {
    &&& 0 <= i
    &&& i + part.len() <= tokens.len()
    &&& forall|k: int| 0 <= k < part.len() ==> tokens[i + k] == #[trigger] part[k]
}

/// The token at index `j`, if there is one, is `token`.
pub open spec fn stands_at(tokens: Seq<SpecToken>, j: int, token: SpecToken) -> bool {
    0 <= j < tokens.len() && tokens[j] == token
}

/// What starts with two runs of tokens starts with the first, and goes on with the second.
pub proof fn lemma_reads_split(tokens: Seq<SpecToken>, i: int, a: Seq<SpecToken>, b: Seq<SpecToken>)
    requires
        reads(tokens, i, a + b),
    ensures
        reads(tokens, i, a),
        reads(tokens, i + a.len(), b),
{
    let whole = a + b;
    assert forall|k: int| 0 <= k < a.len() implies tokens[i + k] == #[trigger] a[k] by {
        assert(whole[k] == a[k]);
    }
    assert forall|k: int| 0 <= k < b.len() implies tokens[i + a.len() + k] == #[trigger] b[k] by {
        assert(whole[a.len() + k] == b[k]);
    }
}

/// What starts with a run of one token has that token first.
pub proof fn lemma_reads_one(tokens: Seq<SpecToken>, i: int, token: SpecToken)
    requires
        reads(tokens, i, seq![token]),
    ensures
        stands_at(tokens, i, token),
{
    assert(seq![token][0] == token);
    assert(tokens[i + 0] == seq![token][0]);
}

/// What starts with one run of tokens and goes on with another starts with both.
pub proof fn lemma_reads_join(tokens: Seq<SpecToken>, i: int, a: Seq<SpecToken>, b: Seq<SpecToken>)
    requires
        reads(tokens, i, a),
        reads(tokens, i + a.len(), b),
    ensures
        reads(tokens, i, a + b),
{
    let whole = a + b;
    assert forall|k: int| 0 <= k < whole.len() implies tokens[i + k] == #[trigger] whole[k] by {
        if k < a.len() {
            assert(whole[k] == a[k]);
        } else {
            assert(whole[k] == b[k - a.len()]);
            assert(tokens[i + a.len() + (k - a.len())] == b[k - a.len()]);
        }
    }
}

/// A token is a run of one.
pub proof fn lemma_reads_token(tokens: Seq<SpecToken>, i: int, token: SpecToken)
    requires
        stands_at(tokens, i, token),
    ensures
        reads(tokens, i, seq![token]),
{
    assert forall|k: int| 0 <= k < seq![token].len() implies tokens[i + k] == #[trigger] seq![
        token,
    ][k] by {}
}

/// The rule for atoms reads the tokens of a well-formed atom as that atom.
pub proof fn lemma_atom_complete(tokens: Seq<SpecToken>, i: int, e: SpecExpression)
    requires
        e.well_formed(),
        e.precedence() >= 4,
        reads(tokens, i, e.tokens_at(4)),
    ensures
        atom(tokens, i) == Ok::<_, SpecParseError>((e, e.tokens_at(4).len())),
    decreases e.weight(), 0nat,
{
    match e {
        SpecExpression::NoAssertion => {
            lemma_reads_one(tokens, i, SpecToken::NoAssertion);
        },
        SpecExpression::NoLicense => {
            lemma_reads_one(tokens, i, SpecToken::NoLicense);
        },
        SpecExpression::License(id) => {
            lemma_reads_one(tokens, i, SpecToken::Ident(id));
        },
        _ => {
            let inner = e.ungrouped();
            let body = inner.tokens_at(1);
            assert(e.tokens_at(4) == seq![SpecToken::Open] + body + seq![SpecToken::Close]);
            assert(inner.grouped() == e);
            assert(inner.well_formed());
            lemma_reads_split(tokens, i, seq![SpecToken::Open] + body, seq![SpecToken::Close]);
            lemma_reads_split(tokens, i, seq![SpecToken::Open], body);
            lemma_reads_one(tokens, i, SpecToken::Open);
            lemma_reads_one(tokens, i + 1 + body.len(), SpecToken::Close);
            lemma_or_complete(tokens, i + 1, inner);
        },
    }
}

/// The rule for with-expressions reads the tokens of a well-formed
/// expression that binds as tightly as `WITH`, where no `WITH` follows them.
proof fn lemma_with_complete(tokens: Seq<SpecToken>, i: int, e: SpecExpression)
    requires
        e.well_formed(),
        e.precedence() >= 3,
        reads(tokens, i, e.tokens_at(3)),
        !stands_at(tokens, i + e.tokens_at(3).len(), SpecToken::With),
    ensures
        with_expression(tokens, i) == Ok::<_, SpecParseError>((e, e.tokens_at(3).len())),
    decreases e.weight(), 1nat,
{
    if e.precedence() >= 4 {
        assert(e.tokens_at(3) == e.tokens_at(4));
        lemma_atom_complete(tokens, i, e);
    } else {
        match e {
            SpecExpression::With { license, exception, grouped } => {
                let head = license.tokens_at(4);
                assert(e.tokens_at(3) == head + seq![SpecToken::With] + seq![
                    SpecToken::Ident(exception),
                ]);
                lemma_reads_split(
                    tokens,
                    i,
                    head + seq![SpecToken::With],
                    seq![SpecToken::Ident(exception)],
                );
                lemma_reads_split(tokens, i, head, seq![SpecToken::With]);
                lemma_reads_one(tokens, i + head.len(), SpecToken::With);
                lemma_reads_one(tokens, i + head.len() + 1, SpecToken::Ident(exception));
                lemma_atom_complete(tokens, i, *license);
            },
            _ => {},
        }
    }
}

/// The rule for and-expressions reads the tokens of a well-formed
/// expression that binds as tightly as `AND`, and goes on with the chain
/// from there.
proof fn lemma_and_complete(tokens: Seq<SpecToken>, i: int, e: SpecExpression)
    requires
        e.well_formed(),
        e.precedence() >= 2,
        reads(tokens, i, e.tokens_at(2)),
        !stands_at(tokens, i + e.tokens_at(2).len(), SpecToken::With),
    ensures
        and_expression(tokens, i) == and_chain(tokens, e, i, e.tokens_at(2).len()),
    decreases e.weight(), 2nat,
{
    if e.precedence() >= 3 {
        assert(e.tokens_at(2) == e.tokens_at(3));
        lemma_with_complete(tokens, i, e);
    } else {
        match e {
            SpecExpression::And { left, right, grouped } => {
                let head = left.tokens_at(2);
                let tail = right.tokens_at(3);
                assert(e.tokens_at(2) == head + seq![SpecToken::And] + tail);
                lemma_reads_split(tokens, i, head + seq![SpecToken::And], tail);
                lemma_reads_split(tokens, i, head, seq![SpecToken::And]);
                lemma_reads_one(tokens, i + head.len(), SpecToken::And);
                lemma_and_complete(tokens, i, *left);
                lemma_with_complete(tokens, i + head.len() + 1, *right);
            },
            _ => {},
        }
    }
}

/// The rule for or-expressions reads the tokens of a well-formed
/// expression, and goes on with the chain from there.
proof fn lemma_or_complete(tokens: Seq<SpecToken>, i: int, e: SpecExpression)
    requires
        e.well_formed(),
        reads(tokens, i, e.tokens_at(1)),
        !stands_at(tokens, i + e.tokens_at(1).len(), SpecToken::With),
        !stands_at(tokens, i + e.tokens_at(1).len(), SpecToken::And),
    ensures
        or_expression(tokens, i) == or_chain(tokens, e, i, e.tokens_at(1).len()),
    decreases e.weight(), 3nat,
{
    if e.precedence() >= 2 {
        assert(e.tokens_at(1) == e.tokens_at(2));
        lemma_and_complete(tokens, i, e);
    } else {
        match e {
            SpecExpression::Or { left, right, grouped } => {
                let head = left.tokens_at(1);
                let tail = right.tokens_at(2);
                assert(e.tokens_at(1) == head + seq![SpecToken::Or] + tail);
                lemma_reads_split(tokens, i, head + seq![SpecToken::Or], tail);
                lemma_reads_split(tokens, i, head, seq![SpecToken::Or]);
                lemma_reads_one(tokens, i + head.len(), SpecToken::Or);
                lemma_or_complete(tokens, i, *left);
                lemma_and_complete(tokens, i + head.len() + 1, *right);
            },
            _ => {},
        }
    }
}

/// The grammar reads the tokens of a well-formed expression back as that
/// expression.
pub proof fn lemma_expression_of_tokens(e: SpecExpression)
    requires
        e.well_formed(),
    ensures
        expression(e.tokens_at(1)) == Ok::<_, SpecParseError>(e),
{
    lemma_or_complete(e.tokens_at(1), 0, e);
}

/// A text in parentheses gives its tokens between the two parentheses.
proof fn lemma_tokenize_parenthesized(wrap: bool, body: Seq<char>)
    ensures
        spec_tokenize(parenthesized(wrap, body)) == bracketed(wrap, spec_tokenize(body)),
{
    if wrap {
        reveal_strlit("(");
        reveal_strlit(")");
        let open = "("@;
        let close = ")"@;
        assert(open =~= seq!['(']);
        assert(close =~= seq![')']);
        lemma_tokenize_delimiter('(');
        lemma_tokenize_delimiter(')');
        lemma_tokenize_concat(open + body, close);
        lemma_tokenize_concat(open, body);
    }
}

/// The three operators, each between two spaces, are one token each.
proof fn lemma_tokenize_operators()
    ensures
        spec_tokenize(" OR "@) == seq![SpecToken::Or],
        spec_tokenize(" AND "@) == seq![SpecToken::And],
        spec_tokenize(" WITH "@) == seq![SpecToken::With],
{
    reveal_strlit(" OR ");
    reveal_strlit(" AND ");
    reveal_strlit(" WITH ");
    reveal_strlit("OR");
    reveal_strlit("AND");
    reveal_strlit("WITH");
    assert(" OR "@ =~= seq![' '] + "OR"@ + seq![' ']);
    assert(" AND "@ =~= seq![' '] + "AND"@ + seq![' ']);
    assert(" WITH "@ =~= seq![' '] + "WITH"@ + seq![' ']);
    lemma_tokenize_spaced_word(" OR "@, "OR"@);
    lemma_tokenize_spaced_word(" AND "@, "AND"@);
    lemma_tokenize_spaced_word(" WITH "@, "WITH"@);
}

/// The two constants are one token each.
proof fn lemma_tokenize_constants()
    ensures
        spec_tokenize("NONE"@) == seq![SpecToken::NoLicense],
        spec_tokenize("NOASSERTION"@) == seq![SpecToken::NoAssertion],
{
    reveal_strlit("OR");
    reveal_strlit("AND");
    reveal_strlit("WITH");
    reveal_strlit("NONE");
    reveal_strlit("NOASSERTION");
    lemma_tokenize_word("NONE"@);
    lemma_tokenize_word("NOASSERTION"@);
}

/// The canonical text of a well-formed expression is split into the
/// tokens of the expression.
pub proof fn lemma_tokenize_render(e: SpecExpression, min: int)
    requires
        e.well_formed(),
    ensures
        spec_tokenize(e.render_at(min)) == e.tokens_at(min),
    decreases e,
{
    reveal_strlit(" OR ");
    reveal_strlit(" AND ");
    reveal_strlit(" WITH ");
    match e {
        SpecExpression::NoAssertion => {
            lemma_tokenize_constants();
        },
        SpecExpression::NoLicense => {
            lemma_tokenize_constants();
        },
        SpecExpression::License(id) => {
            lemma_identifier_is_word(id);
            lemma_tokenize_word(id);
        },
        SpecExpression::Or { left, right, grouped } => {
            lemma_tokenize_render(*left, 1);
            lemma_tokenize_render(*right, 2);
            lemma_tokenize_operators();
            lemma_tokenize_joined(left.render_at(1), " OR "@, right.render_at(2));
            lemma_tokenize_parenthesized(
                grouped || min > 1,
                left.render_at(1) + " OR "@ + right.render_at(2),
            );
        },
        SpecExpression::And { left, right, grouped } => {
            lemma_tokenize_render(*left, 2);
            lemma_tokenize_render(*right, 3);
            lemma_tokenize_operators();
            lemma_tokenize_joined(left.render_at(2), " AND "@, right.render_at(3));
            lemma_tokenize_parenthesized(
                grouped || min > 2,
                left.render_at(2) + " AND "@ + right.render_at(3),
            );
        },
        SpecExpression::With { license, exception, grouped } => {
            lemma_tokenize_render(*license, 4);
            lemma_identifier_is_word(exception);
            lemma_tokenize_word(exception);
            lemma_tokenize_operators();
            lemma_tokenize_joined(license.render_at(4), " WITH "@, exception);
            lemma_tokenize_parenthesized(
                grouped || min > 3,
                license.render_at(4) + " WITH "@ + exception,
            );
        },
    }
}

/// A well-formed expression is read back from its canonical text.
pub proof fn lemma_parse_render(e: SpecExpression)
    requires
        e.well_formed(),
    ensures
        parse_expression(e.render()) == Ok::<_, SpecParseError>(e),
{
    lemma_tokenize_render(e, 1);
    lemma_expression_of_tokens(e);
}

/// Parsing is stable: the canonical text of what was read from a text is
/// read as the same expression again.
pub proof fn lemma_reparse(text: Seq<char>)
    ensures
        parse_expression(text) matches Ok(e) ==> parse_expression(e.render()) == Ok::<
            _,
            SpecParseError,
        >(e),
{
    lemma_parse_well_formed(text);
    match parse_expression(text) {
        Ok(e) => {
            lemma_parse_render(e);
        },
        Err(_) => {},
    }
}

/// Regrouping makes an expression well-formed and changes neither its
/// text nor, but for the grouping, its structure. A well-formed expression
/// stays as it is.
pub proof fn lemma_regrouped(e: SpecExpression, min: int)
    requires
        min <= 4,
    ensures
        e.regrouped(min).render_at(min) == e.render_at(min),
        e.regrouped(min).bare() == e.bare(),
        e.regrouped(min).precedence() >= min,
        e.names_well_formed() ==> e.regrouped(min).well_formed(),
        e.well_formed() && e.precedence() >= min ==> e.regrouped(min) == e,
        e.well_formed() ==> e.names_well_formed(),
    decreases e,
{
    match e {
        SpecExpression::Or { left, right, grouped } => {
            lemma_regrouped(*left, 1);
            lemma_regrouped(*right, 2);
        },
        SpecExpression::And { left, right, grouped } => {
            lemma_regrouped(*left, 2);
            lemma_regrouped(*right, 3);
        },
        SpecExpression::With { license, exception, grouped } => {
            lemma_regrouped(*license, 4);
        },
        _ => {},
    }
}

/// The canonical text of any expression with well-formed identifiers is
/// read as that expression, regrouped: with the same structure, and
/// grouped wherever the text has parentheses.
pub proof fn lemma_parse_render_any(e: SpecExpression)
    requires
        e.names_well_formed(),
    ensures
        parse_expression(e.render()) == Ok::<_, SpecParseError>(e.regrouped(1)),
        e.regrouped(1).bare() == e.bare(),
{
    lemma_regrouped(e, 1);
    lemma_parse_render(e.regrouped(1));
}

/// The identifiers among the tokens.
pub open spec fn identifier_words(tokens: Seq<SpecToken>) -> Set<Seq<char>> {
    Set::new(|word: Seq<char>| tokens.contains(SpecToken::Ident(word)))
}

/// The identifiers among two runs of tokens are those of the one and those of the other.
proof fn lemma_identifier_words_concat(a: Seq<SpecToken>, b: Seq<SpecToken>)
    ensures
        identifier_words(a + b) == identifier_words(a).union(identifier_words(b)),
{
    let whole = a + b;
    assert forall|word: Seq<char>|
        identifier_words(whole).contains(word) <==> identifier_words(a).contains(word)
            || identifier_words(b).contains(word) by {
        let token = SpecToken::Ident(word);
        if whole.contains(token) {
            let k = choose|k: int| 0 <= k < whole.len() && whole[k] == token;
            if k < a.len() {
                assert(a[k] == token);
            } else {
                assert(b[k - a.len()] == token);
            }
        }
        if a.contains(token) {
            let k = choose|k: int| 0 <= k < a.len() && a[k] == token;
            assert(whole[k] == token);
        }
        if b.contains(token) {
            let k = choose|k: int| 0 <= k < b.len() && b[k] == token;
            assert(whole[a.len() + k] == token);
        }
    }
    assert(identifier_words(whole) =~= identifier_words(a).union(identifier_words(b)));
}

/// The identifiers among a run of one token.
proof fn lemma_identifier_words_one(token: SpecToken)
    ensures
        identifier_words(seq![token]) == match token {
            SpecToken::Ident(word) => Set::<Seq<char>>::empty().insert(word),
            _ => Set::<Seq<char>>::empty(),
        },
{
    let one = seq![token];
    let expected = match token {
        SpecToken::Ident(word) => Set::<Seq<char>>::empty().insert(word),
        _ => Set::<Seq<char>>::empty(),
    };
    assert forall|word: Seq<char>|
        identifier_words(one).contains(word) <==> expected.contains(word) by {
        if token == SpecToken::Ident(word) {
            assert(one[0] == SpecToken::Ident(word));
        }
    }
    assert(identifier_words(one) =~= expected);
}

/// Parentheses add no identifier.
proof fn lemma_identifier_words_bracketed(wrap: bool, body: Seq<SpecToken>)
    ensures
        identifier_words(bracketed(wrap, body)) == identifier_words(body),
{
    if wrap {
        lemma_identifier_words_concat(seq![SpecToken::Open] + body, seq![SpecToken::Close]);
        lemma_identifier_words_concat(seq![SpecToken::Open], body);
        lemma_identifier_words_one(SpecToken::Open);
        lemma_identifier_words_one(SpecToken::Close);
        assert(identifier_words(bracketed(wrap, body)) =~= identifier_words(body));
    }
}

/// The identifiers of an expression are the identifiers among its tokens.
pub proof fn lemma_identifiers_of_tokens(e: SpecExpression, min: int)
    ensures
        identifier_words(e.tokens_at(min)) == e.identifiers(),
    decreases e,
{
    match e {
        SpecExpression::NoAssertion => {
            lemma_identifier_words_one(SpecToken::NoAssertion);
        },
        SpecExpression::NoLicense => {
            lemma_identifier_words_one(SpecToken::NoLicense);
        },
        SpecExpression::License(id) => {
            lemma_identifier_words_one(SpecToken::Ident(id));
        },
        SpecExpression::Or { left, right, grouped } => {
            let head = left.tokens_at(1);
            let tail = right.tokens_at(2);
            lemma_identifiers_of_tokens(*left, 1);
            lemma_identifiers_of_tokens(*right, 2);
            lemma_identifier_words_one(SpecToken::Or);
            lemma_identifier_words_concat(head, seq![SpecToken::Or]);
            lemma_identifier_words_concat(head + seq![SpecToken::Or], tail);
            lemma_identifier_words_bracketed(grouped || min > 1, head + seq![SpecToken::Or] + tail);
            assert(identifier_words(e.tokens_at(min)) =~= e.identifiers());
        },
        SpecExpression::And { left, right, grouped } => {
            let head = left.tokens_at(2);
            let tail = right.tokens_at(3);
            lemma_identifiers_of_tokens(*left, 2);
            lemma_identifiers_of_tokens(*right, 3);
            lemma_identifier_words_one(SpecToken::And);
            lemma_identifier_words_concat(head, seq![SpecToken::And]);
            lemma_identifier_words_concat(head + seq![SpecToken::And], tail);
            lemma_identifier_words_bracketed(
                grouped || min > 2,
                head + seq![SpecToken::And] + tail,
            );
            assert(identifier_words(e.tokens_at(min)) =~= e.identifiers());
        },
        SpecExpression::With { license, exception, grouped } => {
            let head = license.tokens_at(4);
            let tail = seq![SpecToken::Ident(exception)];
            lemma_identifiers_of_tokens(*license, 4);
            lemma_identifier_words_one(SpecToken::With);
            lemma_identifier_words_one(SpecToken::Ident(exception));
            lemma_identifier_words_concat(head, seq![SpecToken::With]);
            lemma_identifier_words_concat(head + seq![SpecToken::With], tail);
            lemma_identifier_words_bracketed(
                grouped || min > 3,
                head + seq![SpecToken::With] + tail,
            );
            assert(identifier_words(e.tokens_at(min)) =~= e.identifiers());
        },
    }
}

/// The identifiers of a well-formed expression are the identifier words
/// of its canonical text: what is left of the text's words when the
/// operators, the parentheses and the two constants are taken out.
pub proof fn lemma_identifiers_of_text(e: SpecExpression)
    requires
        e.well_formed(),
    ensures
        identifier_words(spec_tokenize(e.render())) == e.identifiers(),
{
    lemma_tokenize_render(e, 1);
    lemma_identifiers_of_tokens(e, 1);
}

} // verus!
