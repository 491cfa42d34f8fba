//! Scanner primitives: character sets, maximal runs and literal matches.
//!
//! Every directive parser is assembled from the few functions of this module.
//! Each of them looks at a text from a position onwards and reports where a
//! run of characters ends; none of them fails on a position past the end of
//! the text, which simply counts as the end.

use vstd::prelude::*;

verus! {

/// The characters that separate the words of one line: space and tab.
pub const BLANKS: [char; 2] = [' ', '\t'];

/// The characters that end a line: carriage return and line feed.
pub const CRLF: [char; 2] = ['\r', '\n'];

/// Blanks and line terminators together.
pub const WHITESPACES: [char; 4] = [' ', '\t', '\r', '\n'];

/// The separator between the key and the value of a `godebug` setting.
pub const KEY_END: [char; 1] = ['='];

/// What ends the lower bound of a retracted version range.
pub const LOWER_END: [char; 2] = [',', ' '];

/// What ends the upper bound of a retracted version range.
pub const UPPER_END: [char; 2] = [']', ' '];

/// Whether `c` is a space or a tab.
pub open spec fn is_blank(c: char) -> bool {
    c == ' ' || c == '\t'
}

/// Whether `c` is a carriage return or a line feed.
pub open spec fn is_line_break(c: char) -> bool {
    c == '\r' || c == '\n'
}

/// Whether `c` is a blank or ends a line.
pub open spec fn is_whitespace(c: char) -> bool {
    is_blank(c) || is_line_break(c)
}

/// Where the longest run of characters of `set` that starts at `i` ends.
pub open spec fn span_while(s: Seq<char>, i: int, set: Seq<char>) -> int
    decreases s.len() - i,
{
    if 0 <= i < s.len() && set.contains(s[i]) {
        span_while(s, i + 1, set)
    } else {
        i
    }
}

/// Where the longest run of characters outside `stops` that starts at `i` ends.
pub open spec fn span_until(s: Seq<char>, i: int, stops: Seq<char>) -> int
    decreases s.len() - i,
{
    if 0 <= i < s.len() && !stops.contains(s[i]) {
        span_until(s, i + 1, stops)
    } else {
        i
    }
}

/// Whether the text continues with `lit` at position `i`.
pub open spec fn has_prefix_at(s: Seq<char>, i: int, lit: Seq<char>) -> bool {
    &&& 0 <= i
    &&& i + lit.len() <= s.len()
    &&& s.subrange(i, i + lit.len()) == lit
}

/// The named sets hold exactly the characters of their classes.
pub proof fn lemma_char_sets()
    ensures
        forall|c: char| #[trigger] BLANKS@.contains(c) <==> is_blank(c),
        forall|c: char| #[trigger] CRLF@.contains(c) <==> is_line_break(c),
        forall|c: char| #[trigger] WHITESPACES@.contains(c) <==> is_whitespace(c),
        forall|c: char| #[trigger] KEY_END@.contains(c) <==> c == '=',
        forall|c: char| #[trigger] LOWER_END@.contains(c) <==> (c == ',' || c == ' '),
        forall|c: char| #[trigger] UPPER_END@.contains(c) <==> (c == ']' || c == ' '),
{
    assert(BLANKS@[0] == ' ' && BLANKS@[1] == '\t');
    assert(CRLF@[0] == '\r' && CRLF@[1] == '\n');
    assert(WHITESPACES@[0] == ' ' && WHITESPACES@[1] == '\t');
    assert(WHITESPACES@[2] == '\r' && WHITESPACES@[3] == '\n');
    assert(KEY_END@[0] == '=');
    assert(LOWER_END@[0] == ',' && LOWER_END@[1] == ' ');
    assert(UPPER_END@[0] == ']' && UPPER_END@[1] == ' ');
}

/// A run of `set` lies inside the text, holds only characters of `set`, and
/// cannot be made longer. From a position outside the text the run is empty.
pub proof fn lemma_span_while(s: Seq<char>, i: int, set: Seq<char>)
    ensures
        i <= span_while(s, i, set),
        span_while(s, i, set) != i ==> 0 <= i < s.len() && set.contains(s[i]),
        0 <= i <= s.len() ==> span_while(s, i, set) <= s.len(),
        forall|k: int| 0 <= i <= k < span_while(s, i, set) ==> set.contains(#[trigger] s[k]),
        0 <= i && span_while(s, i, set) < s.len() ==> !set.contains(s[span_while(s, i, set)]),
    decreases s.len() - i,
{
    if 0 <= i < s.len() && set.contains(s[i]) {
        lemma_span_while(s, i + 1, set);
    }
}

/// The end of a run is the one position that the three facts of
/// [`lemma_span_while`] describe.
pub proof fn lemma_span_while_unique(s: Seq<char>, i: int, set: Seq<char>, j: int)
    requires
        0 <= i <= j <= s.len(),
        forall|k: int| i <= k < j ==> set.contains(#[trigger] s[k]),
        j < s.len() ==> !set.contains(s[j]),
    ensures
        span_while(s, i, set) == j,
    decreases j - i,
{
    if i < j {
        lemma_span_while_unique(s, i + 1, set, j);
    }
}

/// A run outside `stops` lies inside the text, holds no character of
/// `stops`, and cannot be made longer. From a position outside the text the
/// run is empty.
pub proof fn lemma_span_until(s: Seq<char>, i: int, stops: Seq<char>)
    ensures
        i <= span_until(s, i, stops),
        span_until(s, i, stops) != i ==> 0 <= i < s.len() && !stops.contains(s[i]),
        0 <= i <= s.len() ==> span_until(s, i, stops) <= s.len(),
        forall|k: int|
            0 <= i <= k < span_until(s, i, stops) ==> !stops.contains(#[trigger] s[k]),
        0 <= i && span_until(s, i, stops) < s.len() ==> stops.contains(
            s[span_until(s, i, stops)],
        ),
    decreases s.len() - i,
{
    if 0 <= i < s.len() && !stops.contains(s[i]) {
        lemma_span_until(s, i + 1, stops);
    }
}

/// The end of a run outside `stops` is the one position that the three
/// facts of [`lemma_span_until`] describe.
pub proof fn lemma_span_until_unique(s: Seq<char>, i: int, stops: Seq<char>, j: int)
    requires
        0 <= i <= j <= s.len(),
        forall|k: int| i <= k < j ==> !stops.contains(#[trigger] s[k]),
        j < s.len() ==> stops.contains(s[j]),
    ensures
        span_until(s, i, stops) == j,
    decreases j - i,
{
    if i < j {
        lemma_span_until_unique(s, i + 1, stops, j);
    }
}

/// Whether `c` is one of the characters of `set`.
pub fn member(set: &[char], c: char) -> (found: bool)
    ensures
        found == set@.contains(c),
{
    let mut k: usize = 0;
    while k < set.len()
        invariant
            k <= set.len(),
            forall|j: int| 0 <= j < k ==> set@[j] != c,
        decreases set.len() - k,
    {
        if set[k] == c {
            return true;
        }
        k += 1;
    }
    false
}

/// Skips the characters of `set` that follow `pos`.
pub fn take_while(input: &[char], pos: usize, set: &[char]) -> (end: usize)
    ensures
        end == span_while(input@, pos as int, set@),
        pos <= end,
        pos <= input@.len() || pos < end ==> end <= input@.len(),
{
    let mut end: usize = pos;
    while end < input.len() && member(set, input[end])
        invariant
            pos <= end,
            pos <= input@.len() || pos < end ==> end <= input@.len(),
            span_while(input@, end as int, set@) == span_while(input@, pos as int, set@),
        decreases input@.len() - end,
    {
        end += 1;
    }
    end
}

/// Skips the characters that follow `pos` up to the first one of `stops`.
pub fn take_till(input: &[char], pos: usize, stops: &[char]) -> (end: usize)
    ensures
        end == span_until(input@, pos as int, stops@),
        pos <= end,
        pos <= input@.len() || pos < end ==> end <= input@.len(),
{
    let mut end: usize = pos;
    while end < input.len() && !member(stops, input[end])
        invariant
            pos <= end,
            pos <= input@.len() || pos < end ==> end <= input@.len(),
            span_until(input@, end as int, stops@) == span_until(input@, pos as int, stops@),
        decreases input@.len() - end,
    {
        end += 1;
    }
    end
}

/// The end of the word that starts at `pos`: one or more characters up to
/// the next space, tab, carriage return or line feed. `None` where no word
/// starts at `pos`.
pub fn not_whitespace(input: &[char], pos: usize) -> (end: Option<usize>)
    ensures
        match end {
            Some(end) => end == span_until(input@, pos as int, WHITESPACES@) && pos < end
                <= input@.len(),
            None => span_until(input@, pos as int, WHITESPACES@) == pos,
        },
{
    let end = take_till(input, pos, &WHITESPACES);
    if end > pos {
        Some(end)
    } else {
        None
    }
}

/// Whether the character at `pos` is `c`; false at the end of the text.
pub fn char_is(input: &[char], pos: usize, c: char) -> (found: bool)
    ensures
        found == (pos < input@.len() && input@[pos as int] == c),
{
    pos < input.len() && input[pos] == c
}

/// Whether the text continues with `lit` at `pos`.
pub fn tag(input: &[char], pos: usize, lit: &str) -> (found: bool)
    ensures
        found == has_prefix_at(input@, pos as int, lit@),
{
    let mut matched: usize = 0;
    let mut same = pos <= input.len();
    for c in it: lit.chars()
        invariant
            it.seq() == lit@,
            same ==> matched == it.index(),
            same <==> (pos + it.index() <= input@.len() && forall|j: int|
                0 <= j < it.index() ==> input@[pos + j] == #[trigger] lit@[j]),
    {
        if same && matched < input.len() - pos && input[pos + matched] == c {
            matched += 1;
        } else {
            same = false;
        }
    }
    proof {
        if same {
            assert(input@.subrange(pos as int, pos + lit@.len()) =~= lit@);
        } else if pos + lit@.len() <= input@.len() {
            let j = choose|j: int| 0 <= j < lit@.len() && input@[pos + j] != lit@[j];
            assert(input@.subrange(pos as int, pos + lit@.len())[j] != lit@[j]);
        }
    }
    same
}

} // verus!
