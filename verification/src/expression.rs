//! The expression as the library hands it out.

use crate::canonical::{identifier_words, lemma_identifiers_of_text, lemma_parse_render};
use crate::error::{SpdxExpressionError, SpecParseError};
use crate::expression_variant::{ExpressionVariant, SpecExpression};
use crate::grammar::parse_expression;
use crate::token::{chars_of, spec_tokenize};
use vstd::prelude::*;

verus! {

/// The order of texts: character by character, by code point; a proper
/// prefix comes first.
pub open spec fn precedes(a: Seq<char>, b: Seq<char>) -> bool
    decreases a.len(),
{
    if b.len() == 0 {
        false
    } else if a.len() == 0 {
        true
    } else if a[0] != b[0] {
        a[0] < b[0]
    } else {
        precedes(a.drop_first(), b.drop_first())
    }
}

/// Each text comes before all that follow it: the texts ascend, none twice.
pub open spec fn ascending(texts: Seq<String>) -> bool {
    forall|i: int, j: int|
        0 <= i < j < texts.len() ==> precedes(#[trigger] texts[i]@, #[trigger] texts[j]@)
}

/// The texts of a sequence of strings.
pub open spec fn views(texts: Seq<String>) -> Seq<Seq<char>> {
    texts.map_values(|text: String| text@)
}

/// `after` holds the texts of `before` and those of `added`, and no others.
pub open spec fn gathered(before: Seq<String>, added: Set<Seq<char>>, after: Seq<String>) -> bool {
    forall|t: Seq<char>| #[trigger]
        views(after).contains(t) <==> views(before).contains(t) || added.contains(t)
}

/// Of two different texts one comes before the other.
pub proof fn lemma_precedes_total(a: Seq<char>, b: Seq<char>)
    ensures
        a == b || precedes(a, b) || precedes(b, a),
    decreases a.len(),
{
    if a.len() == 0 || b.len() == 0 {
        if a.len() == 0 && b.len() == 0 {
            assert(a =~= b);
        }
    } else if a[0] == b[0] {
        lemma_precedes_total(a.drop_first(), b.drop_first());
        if a.drop_first() == b.drop_first() {
            assert(a =~= seq![a[0]] + a.drop_first());
            assert(b =~= seq![b[0]] + b.drop_first());
        }
    }
}

/// What comes before a text comes before all that the text comes before.
pub proof fn lemma_precedes_transitive(a: Seq<char>, b: Seq<char>, c: Seq<char>)
    requires
        precedes(a, b),
        precedes(b, c),
    ensures
        precedes(a, c),
    decreases a.len(),
{
    if a.len() > 0 && a[0] == b[0] && b[0] == c[0] {
        lemma_precedes_transitive(a.drop_first(), b.drop_first(), c.drop_first());
    }
}

/// No text comes before itself.
pub proof fn lemma_precedes_irreflexive(a: Seq<char>)
    ensures
        !precedes(a, a),
    decreases a.len(),
{
    if a.len() > 0 {
        lemma_precedes_irreflexive(a.drop_first());
    }
}

/// Two ascending sequences of the same texts start with the same text;
/// what follows the first text of the one is ascending, and is among what
/// follows the first text of the other.
proof fn lemma_ascending_rest(a: Seq<String>, b: Seq<String>)
    requires
        ascending(a),
        ascending(b),
        a.len() > 0,
        b.len() > 0,
        views(a).to_set() == views(b).to_set(),
    ensures
        a[0]@ == b[0]@,
        ascending(a.drop_first()),
        forall|t: Seq<char>|
            views(a.drop_first()).contains(t) ==> #[trigger] views(b.drop_first()).contains(t),
{
    let va = views(a);
    let vb = views(b);
    assert(va.contains(va[0]));
    assert(vb.contains(vb[0]));
    assert(vb.to_set().contains(va[0]));
    assert(va.to_set().contains(vb[0]));
    let k = choose|k: int| 0 <= k < vb.len() && vb[k] == va[0];
    let m = choose|m: int| 0 <= m < va.len() && va[m] == vb[0];
    if k > 0 && m > 0 {
        assert(precedes(b[0]@, b[k]@));
        assert(precedes(a[0]@, a[m]@));
        lemma_precedes_transitive(a[0]@, b[0]@, a[0]@);
        lemma_precedes_irreflexive(a[0]@);
    }
    let rest = a.drop_first();
    assert forall|i: int, j: int| 0 <= i < j < rest.len() implies precedes(
        #[trigger] rest[i]@,
        #[trigger] rest[j]@,
    ) by {
        assert(rest[i] == a[i + 1]);
        assert(rest[j] == a[j + 1]);
    }
    assert forall|t: Seq<char>| views(rest).contains(t) implies #[trigger] views(
        b.drop_first(),
    ).contains(t) by {
        let j = choose|j: int| 0 <= j < views(rest).len() && views(rest)[j] == t;
        assert(va[j + 1] == t);
        assert(va.contains(t));
        assert(vb.to_set().contains(t));
        let n = choose|n: int| 0 <= n < vb.len() && vb[n] == t;
        if n == 0 {
            assert(precedes(a[0]@, a[j + 1]@));
            lemma_precedes_irreflexive(t);
        }
        assert(views(b.drop_first())[n - 1] == t);
    }
}

/// There is one ascending sequence of any given texts: ascending order
/// and the set of the texts determine the sequence.
pub proof fn lemma_ascending_unique(a: Seq<String>, b: Seq<String>)
    requires
        ascending(a),
        ascending(b),
        views(a).to_set() == views(b).to_set(),
    ensures
        views(a) == views(b),
    decreases a.len(),
{
    let va = views(a);
    let vb = views(b);
    if a.len() == 0 || b.len() == 0 {
        if b.len() > 0 {
            assert(vb.contains(vb[0]));
            assert(va.to_set().contains(vb[0]));
        }
        if a.len() > 0 {
            assert(va.contains(va[0]));
            assert(vb.to_set().contains(va[0]));
        }
        assert(va =~= vb);
    } else {
        lemma_ascending_rest(a, b);
        lemma_ascending_rest(b, a);
        let ra = a.drop_first();
        let rb = b.drop_first();
        assert(views(ra).to_set() =~= views(rb).to_set());
        lemma_ascending_unique(ra, rb);
        assert(va.len() == views(ra).len() + 1);
        assert(vb.len() == views(rb).len() + 1);
        assert forall|i: int| 0 <= i < va.len() implies va[i] == vb[i] by {
            if i > 0 {
                assert(views(ra)[i - 1] == va[i]);
                assert(views(rb)[i - 1] == vb[i]);
            }
        }
        assert(va =~= vb);
    }
}

fn chars_precede(a: &Vec<char>, b: &Vec<char>) -> (r: bool)
    ensures
        r == precedes(a@, b@),
{
    let mut k: usize = 0;
    assert(a@.skip(0) =~= a@);
    assert(b@.skip(0) =~= b@);
    while k < a.len() && k < b.len() && a[k] == b[k]
        invariant
            k <= a.len(),
            k <= b.len(),
            precedes(a@, b@) == precedes(a@.skip(k as int), b@.skip(k as int)),
        decreases a.len() - k,
    {
        assert(a@.skip(k as int).drop_first() =~= a@.skip(k + 1));
        assert(b@.skip(k as int).drop_first() =~= b@.skip(k + 1));
        k += 1;
    }
    if k >= b.len() {
        false
    } else if k >= a.len() {
        true
    } else {
        a[k] < b[k]
    }
}

fn text_precedes(a: &String, b: &String) -> (r: bool)
    ensures
        r == precedes(a@, b@),
{
    let left = chars_of(a.as_str());
    let right = chars_of(b.as_str());
    chars_precede(&left, &right)
}

/// Puts `id` in its place among the ascending `out`, unless it is there.
fn insert_text(out: &mut Vec<String>, id: &String)
    requires
        ascending(old(out)@),
    ensures
        ascending(final(out)@),
        gathered(old(out)@, Set::<Seq<char>>::empty().insert(id@), final(out)@),
{
    let ghost before = out@;
    let mut i: usize = 0;
    while i < out.len() && text_precedes(&out[i], id)
        invariant
            out@ == before,
            i <= out.len(),
            forall|j: int| 0 <= j < i ==> precedes(#[trigger] before[j]@, id@),
        decreases out.len() - i,
    {
        i += 1;
    }
    if i < out.len() && out[i] == *id {
        assert forall|t: Seq<char>| views(before).contains(t) || t == id@ implies views(
            before,
        ).contains(t) by {
            if t == id@ {
                assert(views(before)[i as int] == t);
            }
        }
        assert(gathered(before, Set::<Seq<char>>::empty().insert(id@), out@));
        return;
    }
    let copy = id.clone();
    out.insert(i, copy);
    proof {
        let after = out@;
        assert forall|j: int| i <= j < before.len() implies precedes(id@, #[trigger] before[j]@) by {
            lemma_precedes_total(before[i as int]@, id@);
            if j > i {
                lemma_precedes_transitive(id@, before[i as int]@, before[j]@);
            }
        }
        assert forall|a: int, b: int| 0 <= a < b < after.len() implies precedes(
            #[trigger] after[a]@,
            #[trigger] after[b]@,
        ) by {
            if a < i {
                assert(after[a] == before[a]);
            } else if a > i {
                assert(after[a] == before[a - 1]);
            }
            if b < i {
                assert(after[b] == before[b]);
            } else if b > i {
                assert(after[b] == before[b - 1]);
            }
        }
        assert forall|t: Seq<char>| views(after).contains(t) <==> views(before).contains(t) || t
            == id@ by {
            if views(after).contains(t) {
                let k = choose|k: int| 0 <= k < views(after).len() && views(after)[k] == t;
                if k < i {
                    assert(views(before)[k] == t);
                } else if k > i {
                    assert(views(before)[k - 1] == t);
                }
            }
            if views(before).contains(t) {
                let k = choose|k: int| 0 <= k < views(before).len() && views(before)[k] == t;
                if k < i {
                    assert(views(after)[k] == t);
                } else {
                    assert(views(after)[k + 1] == t);
                }
            }
            if t == id@ {
                assert(views(after)[i as int] == t);
            }
        }
        assert(gathered(before, Set::<Seq<char>>::empty().insert(id@), after));
    }
}

/// Puts every identifier of `e` in its place among the ascending `out`.
fn collect_identifiers(e: &ExpressionVariant, out: &mut Vec<String>)
    requires
        ascending(old(out)@),
    ensures
        ascending(final(out)@),
        gathered(old(out)@, e@.identifiers(), final(out)@),
    decreases e,
{
    let ghost start = out@;
    match e {
        ExpressionVariant::NoAssertion => {},
        ExpressionVariant::NoLicense => {},
        ExpressionVariant::License(id) => {
            insert_text(out, id);
        },
        ExpressionVariant::Or { left, right, grouped: _ } => {
            collect_identifiers(left, out);
            let ghost middle = out@;
            collect_identifiers(right, out);
            proof {
                let first = left.model().identifiers();
                let second = right.model().identifiers();
                assert(gathered(start, first, middle));
                assert(gathered(middle, second, out@));
                assert(e@.identifiers() == first.union(second));
            }
        },
        ExpressionVariant::And { left, right, grouped: _ } => {
            collect_identifiers(left, out);
            let ghost middle = out@;
            collect_identifiers(right, out);
            proof {
                let first = left.model().identifiers();
                let second = right.model().identifiers();
                assert(gathered(start, first, middle));
                assert(gathered(middle, second, out@));
                assert(e@.identifiers() == first.union(second));
            }
        },
        ExpressionVariant::With { license, exception, grouped: _ } => {
            collect_identifiers(license, out);
            let ghost middle = out@;
            insert_text(out, exception);
            proof {
                let first = license.model().identifiers();
                assert(gathered(start, first, middle));
                assert(gathered(middle, Set::<Seq<char>>::empty().insert(exception@), out@));
                assert(e@.identifiers() == first.insert(exception@));
            }
        },
    }
}

/// An SPDX license expression. It comes from [`SpdxExpression::parse`]
/// and from nowhere else, and is not changed afterwards.
#[derive(Debug, PartialEq, Eq)]
pub struct SpdxExpression {
    /// The parsed expression.
    inner: ExpressionVariant,
}

impl View for SpdxExpression {
    type V = SpecExpression;

    closed spec fn view(&self) -> SpecExpression {
        self.inner@
    }
}

impl SpdxExpression {
    #[verifier::type_invariant]
    spec fn inner_well_formed(self) -> bool {
        self.inner@.well_formed()
    }

    /// Parses an expression from a text.
    ///
    /// The text has to be a license expression by its syntax, `NONE` and
    /// `NOASSERTION` among them. Identifiers are held to their form only:
    /// one that is on no license list is accepted.
    ///
    /// # Errors
    ///
    /// The one error says that the text is no expression, and carries the
    /// description of the first failure.
    pub fn parse(expression: &str) -> (r: Result<SpdxExpression, SpdxExpressionError>)
        ensures
            match r {
                Ok(parsed) => parse_expression(expression@) == Ok::<_, SpecParseError>(parsed@)
                    && parsed@.well_formed(),
                Err(SpdxExpressionError::Parse(message)) => parse_expression(expression@) is Err
                    && message@ == parse_expression(expression@)->Err_0.description(),
            },
    {
        match ExpressionVariant::parse(expression) {
            Ok(inner) => Ok(SpdxExpression { inner }),
            Err(failure) => Err(SpdxExpressionError::Parse(failure.description())),
        }
    }

    /// The expression tree.
    pub fn variant(&self) -> (r: &ExpressionVariant)
        ensures
            r@ == self@,
            r@.well_formed(),
    {
        proof {
            use_type_invariant(self);
        }
        &self.inner
    }

    /// All license and exception identifiers of the expression, in
    /// ascending order of their characters, each of them once. They are
    /// the identifier words of the canonical text. The constants `NONE`
    /// and `NOASSERTION` are no identifiers and do not occur in the result.
    pub fn licenses(&self) -> (r: Vec<String>)
        ensures
            ascending(r@),
            views(r@).to_set() == self@.identifiers(),
            views(r@).to_set() == identifier_words(spec_tokenize(self@.render())),
    {
        let mut r: Vec<String> = Vec::new();
        collect_identifiers(&self.inner, &mut r);
        proof {
            use_type_invariant(self);
            lemma_identifiers_of_text(self@);
            assert(gathered(Seq::<String>::empty(), self@.identifiers(), r@));
            assert forall|t: Seq<char>| !views(Seq::<String>::empty()).contains(t) by {}
            assert forall|t: Seq<char>|
                views(r@).to_set().contains(t) <==> self@.identifiers().contains(t) by {
                assert(views(r@).to_set().contains(t) <==> views(r@).contains(t));
            }
            assert(views(r@).to_set() =~= self@.identifiers());
        }
        r
    }

    /// The canonical text of the expression. Parsing it gives this
    /// expression again.
    pub fn to_string(&self) -> (r: String)
        ensures
            r@ == self@.render(),
            parse_expression(r@) == Ok::<_, SpecParseError>(self@),
    {
        proof {
            use_type_invariant(self);
            lemma_parse_render(self@);
        }
        self.inner.to_string()
    }
}

impl Clone for SpdxExpression {
    fn clone(&self) -> (r: Self)
        ensures
            r@ == self@,
    {
        proof {
            use_type_invariant(self);
        }
        SpdxExpression { inner: self.inner.clone() }
    }
}

} // verus!
