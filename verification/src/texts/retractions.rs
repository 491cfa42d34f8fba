//! A retracted range with a comment behind it.

use vstd::prelude::*;
use crate::combinator::{
    has_prefix_at, is_whitespace, lemma_char_sets, lemma_span_until_unique, LOWER_END,
    UPPER_END,
};
use crate::error::Failure;
use crate::grammar::{
    char_at, directive, keyword_end, lemma_directives_end, lemma_directives_step, listing,
    retract_body, retraction, version_range, DirectiveView, Entry,
};
use crate::texts::pieces::{
    is_word, one_line, lemma_blank_at, lemma_comment_at, lemma_keyword_is_no_comment,
    lemma_line_breaks_at, lemma_record_of, lemma_whitespace_at, lemma_word_at,
};
use crate::{record, GoModView, ModuleRetract, ModuleRetractView};

verus! {

/// Whether `bound` can be written as the lower bound of a range: it is not
/// empty and holds neither a comma nor a space.
pub open spec fn is_lower_bound(bound: Seq<char>) -> bool {
    bound.len() > 0 && forall|k: int|
        0 <= k < bound.len() ==> (#[trigger] bound[k]) != ',' && bound[k] != ' '
}

/// Whether `bound` can be written as the upper bound of a range: it is not
/// empty, does not start with a tab, and holds neither a closing bracket
/// nor a space.
pub open spec fn is_upper_bound(bound: Seq<char>) -> bool {
    bound.len() > 0 && bound[0] != '\t' && forall|k: int|
        0 <= k < bound.len() ==> (#[trigger] bound[k]) != ']' && bound[k] != ' '
}

/// The manifest that retracts one range, with a comment behind the range.
pub open spec fn retract_range_text(lower: Seq<char>, upper: Seq<char>, text: Seq<char>) -> Seq<
    char,
> {
    "retract"@ + seq![' ', '['] + lower + seq![',', ' '] + upper + seq![']', ' ', '/', '/', ' ']
        + text
}

/// No other keyword is spelled `retract`.
proof fn lemma_retract_keyword()
    ensures
        is_word("retract"@),
        "retract"@.len() == 7,
        "retract"@[0] == 'r',
        "retract"@ != "module"@,
        "retract"@ != "go"@,
        "retract"@ != "godebug"@,
        "retract"@ != "tool"@,
        "retract"@ != "toolchain"@,
        "retract"@ != "require"@,
        "retract"@ != "exclude"@,
        "retract"@ != "replace"@,
{
    reveal_strlit("retract");
    reveal_strlit("module");
    reveal_strlit("go");
    reveal_strlit("godebug");
    reveal_strlit("tool");
    reveal_strlit("toolchain");
    reveal_strlit("require");
    reveal_strlit("exclude");
    reveal_strlit("replace");
    assert("retract"@.len() != "module"@.len());
    assert("retract"@.len() != "go"@.len());
    assert("retract"@[0] != "godebug"@[0]);
    assert("retract"@.len() != "tool"@.len());
    assert("retract"@.len() != "toolchain"@.len());
    assert("retract"@[2] != "require"@[2]);
    assert("retract"@[0] != "exclude"@[0]);
    assert("retract"@[2] != "replace"@[2]);
}

/// The keyword `retract` reads as the directive of what is listed behind
/// it.
proof fn lemma_retract_at(t: Seq<char>, i: int)
    requires
        has_prefix_at(t, i, "retract"@),
        i + 7 < t.len() ==> is_whitespace(t[i + 7]),
    ensures
        directive(t, i) == retract_body(t, i + 7),
{
    reveal(directive);
    lemma_retract_keyword();
    lemma_keyword_is_no_comment(t, i, "retract"@);
    lemma_word_at(t, i, "retract"@);
    assert(keyword_end(t, i, "retract"@) == Some(i + 7));
}

/// Two bounds between brackets, with a comma and one space between them,
/// are a retracted range.
proof fn lemma_version_range_at(t: Seq<char>, i: int, lower: Seq<char>, upper: Seq<char>)
    requires
        char_at(t, i, '['),
        has_prefix_at(t, i + 1, lower),
        is_lower_bound(lower),
        char_at(t, i + 1 + lower.len(), ','),
        char_at(t, i + 2 + lower.len(), ' '),
        has_prefix_at(t, i + 3 + lower.len(), upper),
        is_upper_bound(upper),
        char_at(t, i + 3 + lower.len() + upper.len(), ']'),
    ensures
        version_range(t, i) == Ok::<(ModuleRetractView, int), Failure>(
            (ModuleRetractView::Range(lower, upper), i + 4 + lower.len() + upper.len()),
        ),
{
    lemma_char_sets();
    let l = lower.len() as int;
    let u = upper.len() as int;
    assert forall|k: int| i + 1 <= k < i + 1 + l implies !LOWER_END@.contains(#[trigger] t[k]) by {
        assert(t.subrange(i + 1, i + 1 + l)[k - (i + 1)] == t[k]);
        assert(lower[k - (i + 1)] != ',' && lower[k - (i + 1)] != ' ');
    }
    lemma_span_until_unique(t, i + 1, LOWER_END@, i + 1 + l);
    assert(t[i + 3 + l] == upper[0]) by {
        assert(t.subrange(i + 3 + l, i + 3 + l + u)[0] == t[i + 3 + l]);
    }
    assert(upper[0] != ' ');
    lemma_blank_at(t, i + 2 + l);
    assert forall|k: int| i + 3 + l <= k < i + 3 + l + u implies !UPPER_END@.contains(
        #[trigger] t[k],
    ) by {
        assert(t.subrange(i + 3 + l, i + 3 + l + u)[k - (i + 3 + l)] == t[k]);
        assert(upper[k - (i + 3 + l)] != ']' && upper[k - (i + 3 + l)] != ' ');
    }
    lemma_span_until_unique(t, i + 3 + l, UPPER_END@, i + 3 + l + u);
}

/// Where the pieces of a retracted range and its comment stand in their
/// text.
proof fn lemma_retract_range_text(lower: Seq<char>, upper: Seq<char>, text: Seq<char>)
    ensures
        ({
            let t = retract_range_text(lower, upper, text);
            let l = lower.len() as int;
            let u = upper.len() as int;
            &&& t.len() == 16 + l + u + text.len()
            &&& has_prefix_at(t, 0, "retract"@)
            &&& t[0] == 'r'
            &&& t[7] == ' '
            &&& t[8] == '['
            &&& has_prefix_at(t, 9, lower)
            &&& t[9 + l] == ','
            &&& t[10 + l] == ' '
            &&& has_prefix_at(t, 11 + l, upper)
            &&& t[11 + l + u] == ']'
            &&& t[12 + l + u] == ' '
            &&& t[13 + l + u] == '/'
            &&& t[14 + l + u] == '/'
            &&& t[15 + l + u] == ' '
            &&& has_prefix_at(t, 16 + l + u, text)
        }),
{
    lemma_retract_keyword();
    let t = retract_range_text(lower, upper, text);
    let l = lower.len() as int;
    let u = upper.len() as int;
    assert(t.subrange(0, 7) =~= "retract"@);
    assert(t[0] == 'r') by {
        assert(t.subrange(0, 7)[0] == t[0]);
    }
    assert(t.subrange(9, 9 + l) =~= lower);
    assert(t.subrange(11 + l, 11 + l + u) =~= upper);
    assert(t.subrange(16 + l + u, 16 + l + u + text.len()) =~= text);
}

/// A range with a comment behind it on the same line, behind the keyword
/// `retract` and one space, is a listing of the range alone.
proof fn lemma_retract_listing_at(
    t: Seq<char>,
    lower: Seq<char>,
    upper: Seq<char>,
    text: Seq<char>,
)
    requires
        is_lower_bound(lower),
        is_upper_bound(upper),
        one_line(text),
        ({
            let l = lower.len() as int;
            let u = upper.len() as int;
            &&& t.len() == 16 + l + u + text.len()
            &&& t[7] == ' '
            &&& t[8] == '['
            &&& has_prefix_at(t, 9, lower)
            &&& t[9 + l] == ','
            &&& t[10 + l] == ' '
            &&& has_prefix_at(t, 11 + l, upper)
            &&& t[11 + l + u] == ']'
            &&& t[12 + l + u] == ' '
            &&& t[13 + l + u] == '/'
            &&& t[14 + l + u] == '/'
            &&& t[15 + l + u] == ' '
            &&& has_prefix_at(t, 16 + l + u, text)
        }),
    ensures
        listing::<ModuleRetract>(t, 7) == Ok::<(Seq<ModuleRetractView>, int), Failure>(
            (seq![ModuleRetractView::Range(lower, upper)], t.len() as int),
        ),
{
    let l = lower.len() as int;
    let u = upper.len() as int;
    lemma_blank_at(t, 7);
    lemma_version_range_at(t, 8, lower, upper);
    lemma_comment_at(t, 12 + l + u, text);
    lemma_line_breaks_at(t, t.len() as int, 0);
    assert(ModuleRetract::entry(t, 8) == retraction(t, 8));
}

/// The record of one `retract` directive holds its entries, and nothing
/// else.
proof fn lemma_collect_retract(list: Seq<ModuleRetractView>)
    ensures
        GoModView::collect(seq![DirectiveView::Retract(list)]) == (GoModView {
            retract: list,
            ..GoModView::empty()
        }),
{
    let one = seq![DirectiveView::Retract(list)];
    assert(one.drop_last() =~= Seq::<DirectiveView>::empty());
    assert(GoModView::collect(one.drop_last()) == GoModView::empty());
    assert(GoModView::collect(one) == GoModView::empty().apply(one.last()));
    assert(Seq::<ModuleRetractView>::empty() + list =~= list);
}

/// A comment behind a retraction, on the same line, is read and not kept:
/// the record holds the range, and no comment.
pub proof fn theorem_retract_comment(lower: Seq<char>, upper: Seq<char>, text: Seq<char>)
    requires
        is_lower_bound(lower),
        is_upper_bound(upper),
        one_line(text),
    ensures
        record(retract_range_text(lower, upper, text)) == Ok::<GoModView, Failure>(
            GoModView {
                retract: seq![ModuleRetractView::Range(lower, upper)],
                ..GoModView::empty()
            },
        ),
{
    let t = retract_range_text(lower, upper, text);
    let list = seq![ModuleRetractView::Range(lower, upper)];
    lemma_retract_range_text(lower, upper, text);
    lemma_retract_listing_at(t, lower, upper, text);
    lemma_whitespace_at(t, 0, 0);
    lemma_retract_at(t, 0);
    lemma_whitespace_at(t, t.len() as int, 0);
    lemma_directives_end(t, t.len() as int);
    lemma_directives_step(t, 0, DirectiveView::Retract(list), t.len() as int, Seq::empty());
    assert(seq![DirectiveView::Retract(list)] + Seq::empty() =~= seq![
        DirectiveView::Retract(list),
    ]);
    lemma_record_of(t, seq![DirectiveView::Retract(list)]);
    lemma_collect_retract(list);
}

} // verus!
