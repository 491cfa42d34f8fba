//! What one piece of a text reads as, where the characters of the piece
//! are known.

use vstd::prelude::*;
use crate::combinator::{
    has_prefix_at, is_blank, is_line_break, is_whitespace, lemma_char_sets,
    lemma_span_until_unique, lemma_span_while_unique, BLANKS, CRLF, WHITESPACES,
};
use crate::error::Failure;
use crate::grammar::{
    char_at, comment, dependency, line_end, line_value, manifest, skip_blanks,
    skip_line_breaks, skip_whitespace, word_end, DirectiveView,
};
use crate::{record, GoModView, ModuleDependencyView, ModuleView};

verus! {

/// Whether `w` is a word: one or more characters, none of them whitespace.
pub open spec fn is_word(w: Seq<char>) -> bool {
    w.len() > 0 && forall|k: int| 0 <= k < w.len() ==> !is_whitespace(#[trigger] w[k])
}

/// Whether no character of `text` ends a line.
pub open spec fn one_line(text: Seq<char>) -> bool {
    forall|k: int| 0 <= k < text.len() ==> !is_line_break(#[trigger] text[k])
}

/// Whether `v` can be the value of a one-line directive: it is not empty,
/// does not start with a blank, and holds no line terminator.
pub open spec fn is_line_text(v: Seq<char>) -> bool {
    v.len() > 0 && !is_blank(v[0]) && one_line(v)
}

/// Whether the text has ended at `i`, or holds a line terminator there.
pub open spec fn at_line_end(t: Seq<char>, i: int) -> bool {
    i >= t.len() || is_line_break(t[i])
}

/// A word of the text ends where whitespace or the end of the text
/// follows it.
pub proof fn lemma_word_at(t: Seq<char>, i: int, w: Seq<char>)
    requires
        has_prefix_at(t, i, w),
        is_word(w),
        i + w.len() < t.len() ==> is_whitespace(t[i + w.len()]),
    ensures
        word_end(t, i) == i + w.len(),
        t.subrange(i, word_end(t, i)) == w,
{
    lemma_char_sets();
    assert forall|k: int| i <= k < i + w.len() implies !WHITESPACES@.contains(#[trigger] t[k]) by {
        assert(t.subrange(i, i + w.len())[k - i] == t[k]);
        assert(!is_whitespace(w[k - i]));
    }
    lemma_span_until_unique(t, i, WHITESPACES@, i + w.len());
}

/// A value is read up to the end of its line.
pub proof fn lemma_line_at(t: Seq<char>, i: int, v: Seq<char>)
    requires
        has_prefix_at(t, i, v),
        one_line(v),
        at_line_end(t, i + v.len()),
    ensures
        line_end(t, i) == i + v.len(),
        t.subrange(i, line_end(t, i)) == v,
{
    lemma_char_sets();
    assert forall|k: int| i <= k < i + v.len() implies !CRLF@.contains(#[trigger] t[k]) by {
        assert(t.subrange(i, i + v.len())[k - i] == t[k]);
        assert(!is_line_break(v[k - i]));
    }
    lemma_span_until_unique(t, i, CRLF@, i + v.len());
}

/// One blank, with something else behind it, is skipped as one.
pub proof fn lemma_blank_at(t: Seq<char>, i: int)
    requires
        0 <= i < t.len(),
        is_blank(t[i]),
        i + 1 < t.len() ==> !is_blank(t[i + 1]),
    ensures
        skip_blanks(t, i) == i + 1,
{
    lemma_char_sets();
    lemma_span_while_unique(t, i, BLANKS@, i + 1);
}

/// A stretch of line terminators, with something else behind it, is
/// skipped whole.
pub proof fn lemma_line_breaks_at(t: Seq<char>, i: int, n: int)
    requires
        0 <= i,
        0 <= n,
        i + n <= t.len(),
        forall|k: int| i <= k < i + n ==> is_line_break(#[trigger] t[k]),
        i + n < t.len() ==> !is_line_break(t[i + n]),
    ensures
        skip_line_breaks(t, i) == i + n,
{
    lemma_char_sets();
    lemma_span_while_unique(t, i, CRLF@, i + n);
}

/// A stretch of whitespace, with something else behind it, is skipped
/// whole.
pub proof fn lemma_whitespace_at(t: Seq<char>, i: int, n: int)
    requires
        0 <= i,
        0 <= n,
        i + n <= t.len(),
        forall|k: int| i <= k < i + n ==> is_whitespace(#[trigger] t[k]),
        i + n < t.len() ==> !is_whitespace(t[i + n]),
    ensures
        skip_whitespace(t, i) == i + n,
{
    lemma_char_sets();
    lemma_span_while_unique(t, i, WHITESPACES@, i + n);
}

/// A value behind one space is the value of a one-line directive.
pub proof fn lemma_line_value_at(t: Seq<char>, i: int, v: Seq<char>)
    requires
        0 <= i < t.len(),
        t[i] == ' ',
        has_prefix_at(t, i + 1, v),
        is_line_text(v),
        at_line_end(t, i + 1 + v.len()),
    ensures
        line_value(t, i) == Ok::<(Seq<char>, int), Failure>(
            (v, skip_line_breaks(t, i + 1 + v.len())),
        ),
{
    assert(t[i + 1] == v[0]) by {
        assert(t.subrange(i + 1, i + 1 + v.len())[0] == t[i + 1]);
    }
    lemma_blank_at(t, i);
    lemma_line_at(t, i + 1, v);
}

/// A path, one space and a version, with the end of the line behind them,
/// are a dependency that is not marked.
pub proof fn lemma_dependency_at(t: Seq<char>, i: int, path: Seq<char>, version: Seq<char>)
    requires
        has_prefix_at(t, i, path),
        is_word(path),
        path[0] != ')',
        char_at(t, i + path.len(), ' '),
        has_prefix_at(t, i + path.len() + 1, version),
        is_word(version),
        at_line_end(t, i + path.len() + 1 + version.len()),
    ensures
        dependency(t, i) == Ok::<(ModuleDependencyView, int), Failure>(
            (
                ModuleDependencyView { module: ModuleView { path, version }, indirect: false },
                i + path.len() + 1 + version.len(),
            ),
        ),
{
    reveal_strlit("//");
    lemma_char_sets();
    let space = i + path.len();
    let start = space + 1;
    let end = start + version.len();
    assert(t[i] == path[0]) by {
        assert(t.subrange(i, i + path.len())[0] == t[i]);
    }
    assert(t[start] == version[0]) by {
        assert(t.subrange(start, end)[0] == t[start]);
    }
    lemma_word_at(t, i, path);
    lemma_blank_at(t, space);
    lemma_word_at(t, start, version);
    lemma_span_while_unique(t, end, BLANKS@, end);
    if has_prefix_at(t, end, "//"@) {
        assert(t.subrange(end, end + 2)[0] == '/');
    }
}

/// A space, the marker, a space and a text up to the end of the line are
/// a comment with that text.
pub proof fn lemma_comment_at(t: Seq<char>, i: int, text: Seq<char>)
    requires
        char_at(t, i, ' '),
        char_at(t, i + 1, '/'),
        char_at(t, i + 2, '/'),
        char_at(t, i + 3, ' '),
        has_prefix_at(t, i + 4, text),
        one_line(text),
        at_line_end(t, i + 4 + text.len()),
    ensures
        comment(t, i) == Some((text, skip_line_breaks(t, i + 4 + text.len()))),
{
    reveal_strlit("//");
    lemma_blank_at(t, i);
    assert(t.subrange(i + 1, i + 3) =~= "//"@);
    lemma_line_at(t, i + 4, text);
}

/// Where a keyword stands, no comment starts and no line terminator is
/// skipped.
pub proof fn lemma_keyword_is_no_comment(t: Seq<char>, i: int, keyword: Seq<char>)
    requires
        has_prefix_at(t, i, keyword),
        is_word(keyword),
        keyword[0] != '/',
    ensures
        !has_prefix_at(t, i, "//"@),
        skip_line_breaks(t, i) == i,
{
    reveal_strlit("//");
    lemma_char_sets();
    assert(t.subrange(i, i + keyword.len())[0] == t[i]);
    assert(!is_whitespace(keyword[0]));
    if has_prefix_at(t, i, "//"@) {
        assert(t.subrange(i, i + 2)[0] == '/');
    }
}

/// A piece of a piece of the text is a piece of the text.
pub proof fn lemma_window(t: Seq<char>, q: int, w: Seq<char>, k: int, piece: Seq<char>)
    requires
        has_prefix_at(t, q, w),
        has_prefix_at(w, k, piece),
    ensures
        has_prefix_at(t, q + k, piece),
{
    assert(t.subrange(q + k, q + k + piece.len()) =~= t.subrange(q, q + w.len()).subrange(
        k,
        k + piece.len(),
    ));
}

/// A character of a piece of the text is a character of the text.
pub proof fn lemma_window_char(t: Seq<char>, q: int, w: Seq<char>, k: int)
    requires
        has_prefix_at(t, q, w),
        0 <= k < w.len(),
    ensures
        t[q + k] == w[k],
{
    assert(t.subrange(q, q + w.len())[k] == t[q + k]);
}

/// Where the rest of the text is two pieces, the first stands at the
/// start of the rest and the second is the rest behind it.
pub proof fn lemma_split(t: Seq<char>, q: int, first: Seq<char>, second: Seq<char>)
    requires
        0 <= q <= t.len(),
        t.subrange(q, t.len() as int) == first + second,
    ensures
        has_prefix_at(t, q, first),
        t.subrange(q + first.len(), t.len() as int) == second,
{
    let rest = t.subrange(q, t.len() as int);
    assert(rest.len() == first.len() + second.len());
    assert(t.subrange(q, q + first.len()) =~= rest.subrange(0, first.len() as int));
    assert(rest.subrange(0, first.len() as int) =~= first);
    assert(t.subrange(q + first.len(), t.len() as int) =~= rest.subrange(
        first.len() as int,
        rest.len() as int,
    ));
    assert(rest.subrange(first.len() as int, rest.len() as int) =~= second);
}

/// The record of a text is the record of its directives.
pub proof fn lemma_record_of(t: Seq<char>, list: Seq<DirectiveView>)
    requires
        manifest(t) == Ok::<Seq<DirectiveView>, Failure>(list),
    ensures
        record(t) == Ok::<GoModView, Failure>(GoModView::collect(list)),
{
}

} // verus!
