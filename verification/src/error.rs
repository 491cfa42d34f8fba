//! Why a manifest was rejected.

use vstd::prelude::*;
use vstd::string::*;

verus! {

/// The three ways in which a manifest can be wrong.
#[derive(Clone, Copy, Debug, PartialEq, Eq, Structural)]
pub enum ErrorKind {
    /// A line starts with a word that is neither a directive nor a comment.
    UnrecognizedKeyword,
    /// The body of a directive does not match its grammar.
    MalformedEntry,
    /// The text ends inside a parenthesized block.
    UnterminatedBlock,
}

/// A rejection: what was wrong, and at which character of the text.
#[derive(Clone, Copy, Debug, PartialEq, Eq, Structural)]
pub struct ParseError {
    pub kind: ErrorKind,
    pub offset: usize,
}

/// A rejection as the grammar states it, with an unbounded position.
pub struct Failure {
    pub kind: ErrorKind,
    pub at: int,
}

impl View for ParseError {
    type V = Failure;

    open spec fn view(&self) -> Failure {
        Failure { kind: self.kind, at: self.offset as int }
    }
}

/// The decimal digits of `n`, most significant first.
pub open spec fn decimal(n: nat) -> Seq<char>
    decreases n,
{
    if n < 10 {
        seq![digit(n)]
    } else {
        decimal(n / 10).push(digit(n % 10))
    }
}

/// The character for a value below ten.
pub open spec fn digit(d: nat) -> char {
    if d == 0 {
        '0'
    } else if d == 1 {
        '1'
    } else if d == 2 {
        '2'
    } else if d == 3 {
        '3'
    } else if d == 4 {
        '4'
    } else if d == 5 {
        '5'
    } else if d == 6 {
        '6'
    } else if d == 7 {
        '7'
    } else if d == 8 {
        '8'
    } else {
        '9'
    }
}

impl ErrorKind {
    /// The words that name this kind of error in a message.
    pub open spec fn words(self) -> Seq<char> {
        match self {
            ErrorKind::UnrecognizedKeyword => "unrecognized keyword"@,
            ErrorKind::MalformedEntry => "malformed entry"@,
            ErrorKind::UnterminatedBlock => "unterminated block"@,
        }
    }

    /// The words that name this kind of error in a message.
    pub fn describe(&self) -> (words: &'static str)
        ensures
            words@ == self.words(),
    {
        match self {
            ErrorKind::UnrecognizedKeyword => "unrecognized keyword",
            ErrorKind::MalformedEntry => "malformed entry",
            ErrorKind::UnterminatedBlock => "unterminated block",
        }
    }
}

impl Failure {
    /// The message for this rejection: the kind in words, then the position.
    pub open spec fn message(self) -> Seq<char>
        recommends
            self.at >= 0,
    {
        self.kind.words() + " at offset "@ + decimal(self.at as nat)
    }
}

/// The text for a single decimal digit.
fn digit_str(d: usize) -> (text: &'static str)
    requires
        d < 10,
    ensures
        text@ == seq![digit(d as nat)],
{
    proof {
        reveal_strlit("0");
        reveal_strlit("1");
        reveal_strlit("2");
        reveal_strlit("3");
        reveal_strlit("4");
        reveal_strlit("5");
        reveal_strlit("6");
        reveal_strlit("7");
        reveal_strlit("8");
        reveal_strlit("9");
    }
    let text = if d == 0 {
        "0"
    } else if d == 1 {
        "1"
    } else if d == 2 {
        "2"
    } else if d == 3 {
        "3"
    } else if d == 4 {
        "4"
    } else if d == 5 {
        "5"
    } else if d == 6 {
        "6"
    } else if d == 7 {
        "7"
    } else if d == 8 {
        "8"
    } else {
        "9"
    };
    assert(text@ =~= seq![digit(d as nat)]);
    text
}

/// Writes `n` in decimal digits.
pub fn to_decimal(n: usize) -> (text: String)
    ensures
        text@ == decimal(n as nat),
{
    let mut text = String::from_str(digit_str(n % 10));
    let mut rest: usize = n / 10;
    while rest > 0
        invariant
            decimal(n as nat) == if rest == 0 {
                text@
            } else {
                decimal(rest as nat) + text@
            },
        decreases rest,
    {
        let ghost before = text@;
        text = String::from_str(digit_str(rest % 10)).concat(text.as_str());
        proof {
            let d = seq![digit((rest % 10) as nat)];
            assert(text@ == d + before);
            if rest < 10 {
                assert(decimal(rest as nat) == d);
            } else {
                assert(decimal(rest as nat) == decimal((rest / 10) as nat).push(
                    digit((rest % 10) as nat),
                ));
                assert(decimal((rest / 10) as nat).push(digit((rest % 10) as nat)) + before
                    =~= decimal((rest / 10) as nat) + (d + before));
            }
        }
        rest = rest / 10;
    }
    text
}

impl ParseError {
    /// The message for this error: its kind in words, then the position,
    /// as in `malformed entry at offset 12`.
    pub fn message(&self) -> (text: String)
        ensures
            text@ == self@.message(),
    {
        let mut text = String::from_str(self.kind.describe());
        text.append(" at offset ");
        text.append(to_decimal(self.offset).as_str());
        text
    }
}

} // verus!
