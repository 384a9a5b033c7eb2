//! What the parser reports when a text is no expression.

use vstd::prelude::*;

verus! {

/// A parse failure, as contracts speak of it. Positions count tokens from 0.
pub enum SpecParseError {
    UnexpectedEnd,
    UnmatchedParenthesis { position: nat },
    UnexpectedToken { position: nat, token: Seq<char> },
    InvalidIdentifier { position: nat, token: Seq<char> },
}

/// The reason a text is not an expression. Positions count tokens from 0.
#[derive(Debug, PartialEq, Eq)]
pub enum ParseError {
    /// The text ended where an operand or an exception identifier had to follow.
    UnexpectedEnd,
    /// The parenthesis at `position` has no partner.
    UnmatchedParenthesis { position: usize },
    /// The token at `position` cannot stand there.
    UnexpectedToken { position: usize, token: String },
    /// The word at `position` stands where an identifier is read, and is none.
    InvalidIdentifier { position: usize, token: String },
}

impl View for ParseError {
    type V = SpecParseError;

    open spec fn view(&self) -> SpecParseError {
        match self {
            ParseError::UnexpectedEnd => SpecParseError::UnexpectedEnd,
            ParseError::UnmatchedParenthesis { position } => SpecParseError::UnmatchedParenthesis {
                position: *position as nat,
            },
            ParseError::UnexpectedToken { position, token } => SpecParseError::UnexpectedToken {
                position: *position as nat,
                token: token@,
            },
            ParseError::InvalidIdentifier { position, token } => SpecParseError::InvalidIdentifier {
                position: *position as nat,
                token: token@,
            },
        }
    }
}

/// The decimal digit for a number below ten.
pub open spec fn digit(d: nat) -> Seq<char> {
    if d == 0 {
        "0"@
    } else if d == 1 {
        "1"@
    } else if d == 2 {
        "2"@
    } else if d == 3 {
        "3"@
    } else if d == 4 {
        "4"@
    } else if d == 5 {
        "5"@
    } else if d == 6 {
        "6"@
    } else if d == 7 {
        "7"@
    } else if d == 8 {
        "8"@
    } else {
        "9"@
    }
}

/// A number in decimal notation, without leading zeros.
pub open spec fn decimal(n: nat) -> Seq<char>
    decreases n,
{
    if n < 10 {
        digit(n)
    } else {
        decimal(n / 10) + digit(n % 10)
    }
}

fn digit_text(d: usize) -> (r: &'static str)
    requires
        d < 10,
    ensures
        r@ == digit(d as nat),
{
    if d == 0 {
        "0"
    } else if d == 1 {
        "1"
    } else if d == 2 {
        "2"
    } else if d == 3 {
        "3"
    } else if d == 4 {
        "4"
    } else if d == 5 {
        "5"
    } else if d == 6 {
        "6"
    } else if d == 7 {
        "7"
    } else if d == 8 {
        "8"
    } else {
        "9"
    }
}

/// Writes a number in decimal notation.
pub fn decimal_text(n: usize) -> (r: String)
    ensures
        r@ == decimal(n as nat),
    decreases n,
{
    if n < 10 {
        String::from_str(digit_text(n))
    } else {
        let mut r = decimal_text(n / 10);
        r.append(digit_text(n % 10));
        r
    }
}

impl SpecParseError {
    /// The sentence that describes a failure.
    pub open spec fn description(self) -> Seq<char> {
        match self {
            SpecParseError::UnexpectedEnd => "unexpected end of expression"@,
            SpecParseError::UnmatchedParenthesis { position } => "unmatched parenthesis at token "@
                + decimal(position),
            SpecParseError::UnexpectedToken { position, token } => "unexpected token `"@ + token
                + "` at token "@ + decimal(position),
            SpecParseError::InvalidIdentifier { position, token } => "invalid identifier `"@
                + token + "` at token "@ + decimal(position),
        }
    }
}

impl ParseError {
    /// A sentence that names the failure, the offending token and its position.
    pub fn description(&self) -> (r: String)
        ensures
            r@ == self@.description(),
    {
        match self {
            ParseError::UnexpectedEnd => String::from_str("unexpected end of expression"),
            ParseError::UnmatchedParenthesis { position } => {
                let mut r = String::from_str("unmatched parenthesis at token ");
                let number = decimal_text(*position);
                r.append(number.as_str());
                r
            },
            ParseError::UnexpectedToken { position, token } => {
                let mut r = String::from_str("unexpected token `");
                r.append(token.as_str());
                r.append("` at token ");
                let number = decimal_text(*position);
                r.append(number.as_str());
                r
            },
            ParseError::InvalidIdentifier { position, token } => {
                let mut r = String::from_str("invalid identifier `");
                r.append(token.as_str());
                r.append("` at token ");
                let number = decimal_text(*position);
                r.append(number.as_str());
                r
            },
        }
    }
}

impl Clone for ParseError {
    fn clone(&self) -> (r: Self)
        ensures
            r@ == self@,
    {
        match self {
            ParseError::UnexpectedEnd => ParseError::UnexpectedEnd,
            ParseError::UnmatchedParenthesis { position } => ParseError::UnmatchedParenthesis {
                position: *position,
            },
            ParseError::UnexpectedToken { position, token } => ParseError::UnexpectedToken {
                position: *position,
                token: token.clone(),
            },
            ParseError::InvalidIdentifier { position, token } => ParseError::InvalidIdentifier {
                position: *position,
                token: token.clone(),
            },
        }
    }
}

/// The one error of the library's boundary: the text is no expression.
/// It carries the description of the failure.
#[derive(Debug, PartialEq, Eq)]
pub enum SpdxExpressionError {
    Parse(String),
}

impl Clone for SpdxExpressionError {
    fn clone(&self) -> (r: Self)
        ensures
            r == *self,
    {
        match self {
            SpdxExpressionError::Parse(message) => SpdxExpressionError::Parse(message.clone()),
        }
    }
}

} // verus!
