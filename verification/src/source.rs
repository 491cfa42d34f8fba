//! The text under the parser, held so that a character is read in constant
//! time and a piece of the text can be copied out by character positions.

use vstd::prelude::*;
use vstd::string::*;

verus! {

/// A manifest text together with its characters.
///
/// Positions into a `Source` count characters, not bytes.
pub struct Source<'a> {
    text: &'a str,
    chars: Vec<char>,
    ascii: bool,
}

impl<'a> View for Source<'a> {
    type V = Seq<char>;

    closed spec fn view(&self) -> Seq<char> {
        self.text@
    }
}

impl<'a> Source<'a> {
    #[verifier::type_invariant]
    spec fn consistent(self) -> bool {
        &&& self.chars@ == self.text@
        &&& self.ascii ==> is_ascii(self.text)
    }

    /// Reads `text` once and keeps its characters.
    pub fn new(text: &'a str) -> (src: Self)
        ensures
            src@ == text@,
    {
        let mut chars: Vec<char> = Vec::new();
        for c in it: text.chars()
            invariant
                it.seq() == text@,
                chars@ == it.seq().take(it.index()),
        {
            chars.push(c);
        }
        assert(chars@ == text@);
        let ascii = text.is_ascii();
        Source { text, chars, ascii }
    }

    /// The characters of the text.
    pub fn chars(&self) -> (chars: &[char])
        ensures
            chars@ == self@,
    {
        proof {
            use_type_invariant(self);
        }
        self.chars.as_slice()
    }

    /// The number of characters of the text.
    pub fn len(&self) -> (n: usize)
        ensures
            n == self@.len(),
    {
        proof {
            use_type_invariant(self);
        }
        self.chars.len()
    }

    /// A copy of the characters from `from` up to, not including, `to`.
    pub fn slice(&self, from: usize, to: usize) -> (piece: String)
        requires
            from <= to <= self@.len(),
        ensures
            piece@ == self@.subrange(from as int, to as int),
    {
        proof {
            use_type_invariant(self);
        }
        if self.ascii {
            self.text.substring_ascii(from, to).to_owned()
        } else {
            self.text.substring_char(from, to).to_owned()
        }
    }
}

} // verus!
