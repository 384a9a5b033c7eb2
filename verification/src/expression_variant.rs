//! The expression tree and its canonical text.

use crate::canonical::{lemma_parse_render_any, lemma_regrouped};
use crate::error::SpecParseError;
use crate::grammar::parse_expression;
use crate::token::is_identifier;
use vstd::prelude::*;

verus! {

/// An expression tree, as contracts speak of it.
///
/// A compound node is `grouped` where it is written inside parentheses of
/// its own.
pub enum SpecExpression {
    NoAssertion,
    NoLicense,
    License(Seq<char>),
    And { left: Box<SpecExpression>, right: Box<SpecExpression>, grouped: bool },
    Or { left: Box<SpecExpression>, right: Box<SpecExpression>, grouped: bool },
    With { license: Box<SpecExpression>, exception: Seq<char>, grouped: bool },
}

impl SpecExpression {
    /// How tightly the expression holds together as it is written: 1 for a
    /// bare `OR`, 2 for a bare `AND`, 3 for a bare `WITH`, and 4 for what
    /// needs no parentheses anywhere: a leaf, or a grouped node.
    pub open spec fn precedence(self) -> int {
        match self {
            SpecExpression::Or { grouped: false, .. } => 1,
            SpecExpression::And { grouped: false, .. } => 2,
            SpecExpression::With { grouped: false, .. } => 3,
            _ => 4,
        }
    }

    /// The same expression inside parentheses. A leaf has no mark to set
    /// and stays as it is.
    pub open spec fn grouped(self) -> SpecExpression {
        match self {
            SpecExpression::And { left, right, .. } => SpecExpression::And {
                left,
                right,
                grouped: true,
            },
            SpecExpression::Or { left, right, .. } => SpecExpression::Or {
                left,
                right,
                grouped: true,
            },
            SpecExpression::With { license, exception, .. } => SpecExpression::With {
                license,
                exception,
                grouped: true,
            },
            leaf => leaf,
        }
    }

    /// The same expression without parentheses of its own.
    pub open spec fn ungrouped(self) -> SpecExpression {
        match self {
            SpecExpression::And { left, right, .. } => SpecExpression::And {
                left,
                right,
                grouped: false,
            },
            SpecExpression::Or { left, right, .. } => SpecExpression::Or {
                left,
                right,
                grouped: false,
            },
            SpecExpression::With { license, exception, .. } => SpecExpression::With {
                license,
                exception,
                grouped: false,
            },
            leaf => leaf,
        }
    }

    /// The shape of every tree that the parser builds: identifiers are
    /// well-formed words, and an operand that binds less tightly than its
    /// place allows is grouped. `OR` and `AND` chain to the left, so their
    /// right operand binds tighter than the operator itself; `WITH` takes
    /// nothing but a leaf or a group on its left.
    pub open spec fn well_formed(self) -> bool
        decreases self,
    {
        match self {
            SpecExpression::NoAssertion => true,
            SpecExpression::NoLicense => true,
            SpecExpression::License(id) => is_identifier(id),
            SpecExpression::Or { left, right, .. } => {
                &&& left.well_formed()
                &&& right.well_formed()
                &&& right.precedence() >= 2
            },
            SpecExpression::And { left, right, .. } => {
                &&& left.well_formed()
                &&& right.well_formed()
                &&& left.precedence() >= 2
                &&& right.precedence() >= 3
            },
            SpecExpression::With { license, exception, .. } => {
                &&& license.well_formed()
                &&& license.precedence() >= 4
                &&& is_identifier(exception)
            },
        }
    }

    /// Every identifier in the expression is a well-formed word.
    pub open spec fn names_well_formed(self) -> bool
        decreases self,
    {
        match self {
            SpecExpression::NoAssertion => true,
            SpecExpression::NoLicense => true,
            SpecExpression::License(id) => is_identifier(id),
            SpecExpression::Or { left, right, .. } => left.names_well_formed()
                && right.names_well_formed(),
            SpecExpression::And { left, right, .. } => left.names_well_formed()
                && right.names_well_formed(),
            SpecExpression::With { license, exception, .. } => license.names_well_formed()
                && is_identifier(exception),
        }
    }

    /// The expression with every node grouped that is written in
    /// parentheses where its place asks for a precedence of at least `min`.
    pub open spec fn regrouped(self, min: int) -> SpecExpression
        decreases self,
    {
        match self {
            SpecExpression::Or { left, right, grouped } => SpecExpression::Or {
                left: Box::new(left.regrouped(1)),
                right: Box::new(right.regrouped(2)),
                grouped: grouped || min > 1,
            },
            SpecExpression::And { left, right, grouped } => SpecExpression::And {
                left: Box::new(left.regrouped(2)),
                right: Box::new(right.regrouped(3)),
                grouped: grouped || min > 2,
            },
            SpecExpression::With { license, exception, grouped } => SpecExpression::With {
                license: Box::new(license.regrouped(4)),
                exception,
                grouped: grouped || min > 3,
            },
            leaf => leaf,
        }
    }

    /// The expression without any grouping: what it means.
    pub open spec fn bare(self) -> SpecExpression
        decreases self,
    {
        match self {
            SpecExpression::Or { left, right, .. } => SpecExpression::Or {
                left: Box::new(left.bare()),
                right: Box::new(right.bare()),
                grouped: false,
            },
            SpecExpression::And { left, right, .. } => SpecExpression::And {
                left: Box::new(left.bare()),
                right: Box::new(right.bare()),
                grouped: false,
            },
            SpecExpression::With { license, exception, .. } => SpecExpression::With {
                license: Box::new(license.bare()),
                exception,
                grouped: false,
            },
            leaf => leaf,
        }
    }

    /// The text of the expression where its place asks for a precedence of
    /// at least `min`: operators stand between single spaces, and the whole
    /// is put in parentheses where it is grouped or binds less tightly than
    /// `min`.
    pub open spec fn render_at(self, min: int) -> Seq<char>
        decreases self,
    {
        match self {
            SpecExpression::NoAssertion => "NOASSERTION"@,
            SpecExpression::NoLicense => "NONE"@,
            SpecExpression::License(id) => id,
            SpecExpression::Or { left, right, grouped } => parenthesized(
                grouped || min > 1,
                left.render_at(1) + " OR "@ + right.render_at(2),
            ),
            SpecExpression::And { left, right, grouped } => parenthesized(
                grouped || min > 2,
                left.render_at(2) + " AND "@ + right.render_at(3),
            ),
            SpecExpression::With { license, exception, grouped } => parenthesized(
                grouped || min > 3,
                license.render_at(4) + " WITH "@ + exception,
            ),
        }
    }

    /// The canonical text of the expression.
    pub open spec fn render(self) -> Seq<char> {
        self.render_at(1)
    }

    /// Every license and exception identifier in the expression. The
    /// constants `NONE` and `NOASSERTION` name no license and are left out.
    pub open spec fn identifiers(self) -> Set<Seq<char>>
        decreases self,
    {
        match self {
            SpecExpression::NoAssertion => Set::empty(),
            SpecExpression::NoLicense => Set::empty(),
            SpecExpression::License(id) => Set::empty().insert(id),
            SpecExpression::Or { left, right, .. } => left.identifiers().union(
                right.identifiers(),
            ),
            SpecExpression::And { left, right, .. } => left.identifiers().union(
                right.identifiers(),
            ),
            SpecExpression::With { license, exception, .. } => license.identifiers().insert(
                exception,
            ),
        }
    }
}

/// `body`, inside parentheses where `wrap` holds.
pub open spec fn parenthesized(wrap: bool, body: Seq<char>) -> Seq<char> {
    if wrap {
        "("@ + body + ")"@
    } else {
        body
    }
}

/// A parsed license expression.
///
/// `NoLicense` stands for the reserved word `NONE`, `NoAssertion` for
/// `NOASSERTION`. A compound node is `grouped` where the text it was read
/// from had it inside parentheses of its own; the mark changes how the node
/// is written, never what it means.
#[derive(Debug, PartialEq, Eq)]
pub enum ExpressionVariant {
    NoAssertion,
    NoLicense,
    License(String),
    And { left: Box<ExpressionVariant>, right: Box<ExpressionVariant>, grouped: bool },
    Or { left: Box<ExpressionVariant>, right: Box<ExpressionVariant>, grouped: bool },
    With { license: Box<ExpressionVariant>, exception: String, grouped: bool },
}

impl ExpressionVariant {
    /// The tree that this value stands for.
    pub open spec fn model(&self) -> SpecExpression
        decreases self,
    {
        match self {
            ExpressionVariant::NoAssertion => SpecExpression::NoAssertion,
            ExpressionVariant::NoLicense => SpecExpression::NoLicense,
            ExpressionVariant::License(id) => SpecExpression::License(id@),
            ExpressionVariant::And { left, right, grouped } => SpecExpression::And {
                left: Box::new(left.model()),
                right: Box::new(right.model()),
                grouped: *grouped,
            },
            ExpressionVariant::Or { left, right, grouped } => SpecExpression::Or {
                left: Box::new(left.model()),
                right: Box::new(right.model()),
                grouped: *grouped,
            },
            ExpressionVariant::With { license, exception, grouped } => SpecExpression::With {
                license: Box::new(license.model()),
                exception: exception@,
                grouped: *grouped,
            },
        }
    }

    /// Marks the expression as written inside parentheses.
    pub fn into_grouped(self) -> (r: ExpressionVariant)
        ensures
            r@ == self@.grouped(),
    {
        match self {
            ExpressionVariant::And { left, right, grouped: _ } => ExpressionVariant::And {
                left,
                right,
                grouped: true,
            },
            ExpressionVariant::Or { left, right, grouped: _ } => ExpressionVariant::Or {
                left,
                right,
                grouped: true,
            },
            ExpressionVariant::With { license, exception, grouped: _ } => ExpressionVariant::With {
                license,
                exception,
                grouped: true,
            },
            leaf => leaf,
        }
    }

    /// Appends the text of the expression to `out`, for a place that asks
    /// for a precedence of at least `min`.
    fn write_to(&self, min: u8, out: &mut String)
        ensures
            final(out)@ == old(out)@ + self@.render_at(min as int),
        decreases self,
    {
        let ghost before = out@;
        match self {
            ExpressionVariant::NoAssertion => {
                out.append("NOASSERTION");
            },
            ExpressionVariant::NoLicense => {
                out.append("NONE");
            },
            ExpressionVariant::License(id) => {
                out.append(id.as_str());
            },
            ExpressionVariant::Or { left, right, grouped } => {
                let wrap = *grouped || min > 1;
                if wrap {
                    out.append("(");
                }
                left.write_to(1, out);
                out.append(" OR ");
                right.write_to(2, out);
                if wrap {
                    out.append(")");
                }
                proof {
                    let body = left@.render_at(1) + " OR "@ + right@.render_at(2);
                    assert(out@ =~= before + parenthesized(wrap, body));
                }
            },
            ExpressionVariant::And { left, right, grouped } => {
                let wrap = *grouped || min > 2;
                if wrap {
                    out.append("(");
                }
                left.write_to(2, out);
                out.append(" AND ");
                right.write_to(3, out);
                if wrap {
                    out.append(")");
                }
                proof {
                    let body = left@.render_at(2) + " AND "@ + right@.render_at(3);
                    assert(out@ =~= before + parenthesized(wrap, body));
                }
            },
            ExpressionVariant::With { license, exception, grouped } => {
                let wrap = *grouped || min > 3;
                if wrap {
                    out.append("(");
                }
                license.write_to(4, out);
                out.append(" WITH ");
                out.append(exception.as_str());
                if wrap {
                    out.append(")");
                }
                proof {
                    let body = license@.render_at(4) + " WITH "@ + exception@;
                    assert(out@ =~= before + parenthesized(wrap, body));
                }
            },
        }
    }

    /// The canonical text of the expression: operators between single
    /// spaces, parentheses round every grouped node and round every operand
    /// that would otherwise be read with another structure. Where the
    /// identifiers are well-formed words, the text is read as the same
    /// expression again, grouped wherever the text has parentheses.
    pub fn to_string(&self) -> (r: String)
        ensures
            r@ == self@.render(),
            self@.names_well_formed() ==> parse_expression(r@) == Ok::<_, SpecParseError>(
                self@.regrouped(1),
            ),
            self@.well_formed() ==> parse_expression(r@) == Ok::<_, SpecParseError>(self@),
    {
        proof {
            lemma_regrouped(self@, 1);
            if self@.names_well_formed() {
                lemma_parse_render_any(self@);
            }
        }
        let mut r = String::new();
        self.write_to(1, &mut r);
        assert(Seq::<char>::empty() + self@.render_at(1) =~= self@.render_at(1));
        r
    }
}

impl View for ExpressionVariant {
    type V = SpecExpression;

    open spec fn view(&self) -> SpecExpression {
        self.model()
    }
}

impl Clone for ExpressionVariant {
    fn clone(&self) -> (r: Self)
        ensures
            r@ == self@,
        decreases self,
    {
        match self {
            ExpressionVariant::NoAssertion => ExpressionVariant::NoAssertion,
            ExpressionVariant::NoLicense => ExpressionVariant::NoLicense,
            ExpressionVariant::License(id) => ExpressionVariant::License(id.clone()),
            ExpressionVariant::And { left, right, grouped } => ExpressionVariant::And {
                left: Box::new((&**left).clone()),
                right: Box::new((&**right).clone()),
                grouped: *grouped,
            },
            ExpressionVariant::Or { left, right, grouped } => ExpressionVariant::Or {
                left: Box::new((&**left).clone()),
                right: Box::new((&**right).clone()),
                grouped: *grouped,
            },
            ExpressionVariant::With { license, exception, grouped } => ExpressionVariant::With {
                license: Box::new((&**license).clone()),
                exception: exception.clone(),
                grouped: *grouped,
            },
        }
    }
}

} // verus!
