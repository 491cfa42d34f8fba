//! The settings of `godebug`, written as one block.

use vstd::prelude::*;
use crate::combinator::{
    has_prefix_at, is_whitespace, lemma_char_sets, lemma_span_until_unique,
    lemma_span_while_unique, BLANKS, KEY_END,
};
use crate::error::Failure;
use crate::grammar::{
    directive, entries, godebug_body, keyword_end, lemma_directives_end, lemma_directives_step,
    listing, setting, DirectiveView, Entry,
};
use crate::settings::{as_map, insert_all, lemma_merge_last_wins, lemma_merge_merged, merge};
use crate::texts::pieces::{
    is_word, lemma_blank_at, lemma_keyword_is_no_comment, lemma_record_of, lemma_split,
    lemma_whitespace_at, lemma_window, lemma_window_char, lemma_word_at,
};
use crate::{record, GoModView, Setting};

verus! {

/// Whether a setting can be written as a line of a block: key and value
/// are words, the key holds no equals sign and starts with no closing
/// parenthesis.
pub open spec fn is_written_setting(x: Setting) -> bool {
    &&& is_word(x.0)
    &&& is_word(x.1)
    &&& x.0[0] != ')'
    &&& forall|k: int| 0 <= k < x.0.len() ==> (#[trigger] x.0[k]) != '='
}

/// A setting as a line of a block: a space, the key, the equals sign, the
/// value.
pub open spec fn setting_line(x: Setting) -> Seq<char> {
    seq![' '] + x.0 + seq!['='] + x.1 + seq!['\n']
}

/// The settings of a list, each as a line of a block.
pub open spec fn setting_lines(list: Seq<Setting>) -> Seq<char>
    decreases list.len(),
{
    if list.len() == 0 {
        Seq::empty()
    } else {
        setting_line(list[0]) + setting_lines(list.drop_first())
    }
}

/// The manifest of one `godebug` block with the settings of a list.
pub open spec fn godebug_block_text(list: Seq<Setting>) -> Seq<char> {
    "godebug"@ + seq![' ', '(', '\n'] + setting_lines(list) + seq![')']
}

/// No keyword before `godebug` is spelled `godebug`.
proof fn lemma_godebug_keyword()
    ensures
        is_word("godebug"@),
        "godebug"@.len() == 7,
        "godebug"@[0] == 'g',
        "godebug"@ != "module"@,
        "godebug"@ != "go"@,
{
    reveal_strlit("godebug");
    reveal_strlit("module");
    reveal_strlit("go");
    assert("godebug"@.len() != "module"@.len());
    assert("godebug"@.len() != "go"@.len());
}

/// The keyword `godebug` reads as the directive of what is listed behind
/// it.
proof fn lemma_godebug_at(t: Seq<char>, i: int)
    requires
        has_prefix_at(t, i, "godebug"@),
        i + 7 < t.len() ==> is_whitespace(t[i + 7]),
    ensures
        directive(t, i) == godebug_body(t, i + 7),
{
    reveal(directive);
    lemma_godebug_keyword();
    lemma_keyword_is_no_comment(t, i, "godebug"@);
    lemma_word_at(t, i, "godebug"@);
    assert(keyword_end(t, i, "godebug"@) == Some(i + 7));
}

/// A key, the equals sign and a value, with whitespace or the end of the
/// text behind them, are a setting.
proof fn lemma_setting_at(t: Seq<char>, i: int, x: Setting)
    requires
        has_prefix_at(t, i, x.0),
        is_written_setting(x),
        0 <= i + x.0.len() < t.len(),
        t[i + x.0.len()] == '=',
        has_prefix_at(t, i + x.0.len() + 1, x.1),
        i + x.0.len() + 1 + x.1.len() < t.len() ==> is_whitespace(
            t[i + x.0.len() + 1 + x.1.len()],
        ),
    ensures
        setting(t, i) == Ok::<(Setting, int), Failure>((x, i + x.0.len() + 1 + x.1.len())),
{
    lemma_char_sets();
    let k = x.0.len() as int;
    assert(t[i] == x.0[0]) by {
        assert(t.subrange(i, i + k)[0] == t[i]);
    }
    assert forall|j: int| i <= j < i + k implies !KEY_END@.contains(#[trigger] t[j]) by {
        assert(t.subrange(i, i + k)[j - i] == t[j]);
        assert(x.0[j - i] != '=');
    }
    lemma_span_until_unique(t, i, KEY_END@, i + k);
    lemma_word_at(t, i + k + 1, x.1);
}

/// Where the pieces of a setting stand in its line of a block.
proof fn lemma_setting_line(x: Setting)
    ensures
        ({
            let w = setting_line(x);
            let k = x.0.len() as int;
            let v = x.1.len() as int;
            &&& w.len() == 3 + k + v
            &&& w[0] == ' '
            &&& has_prefix_at(w, 1, x.0)
            &&& w[1 + k] == '='
            &&& has_prefix_at(w, 2 + k, x.1)
            &&& w[2 + k + v] == '\n'
        }),
{
    let w = setting_line(x);
    let k = x.0.len() as int;
    let v = x.1.len() as int;
    assert(w.subrange(1, 1 + k) =~= x.0);
    assert(w.subrange(2 + k, 2 + k + v) =~= x.1);
}

/// The lines of a block of settings, up to its closing parenthesis, are
/// the entries of the block.
proof fn lemma_setting_lines_at(t: Seq<char>, q: int, list: Seq<Setting>)
    requires
        0 <= q <= t.len(),
        list.len() > 0,
        t.subrange(q, t.len() as int) == setting_lines(list) + seq![')'],
        forall|k: int| 0 <= k < list.len() ==> is_written_setting(#[trigger] list[k]),
    ensures
        entries::<(String, String)>(t, q + 1) == Ok::<(Seq<Setting>, int), Failure>(
            (list, t.len() as int),
        ),
    decreases list.len(),
{
    let x = list[0];
    let w = setting_line(x);
    let k = x.0.len() as int;
    let v = x.1.len() as int;
    let rest = list.drop_first();
    let next = q + w.len();
    assert(is_written_setting(x));
    lemma_setting_line(x);
    assert(setting_lines(list) + seq![')'] =~= w + (setting_lines(rest) + seq![')']));
    lemma_split(t, q, w, setting_lines(rest) + seq![')']);
    lemma_window(t, q, w, 1, x.0);
    lemma_window_char(t, q, w, 1 + k);
    lemma_window(t, q, w, 2 + k, x.1);
    lemma_window_char(t, q, w, 2 + k + v);
    lemma_setting_at(t, q + 1, x);
    assert(<(String, String) as Entry>::entry(t, q + 1) == setting(t, q + 1));
    let end = q + 2 + k + v;
    if rest.len() == 0 {
        assert(setting_lines(rest) + seq![')'] =~= seq![')']);
        assert(t.subrange(next, t.len() as int)[0] == ')');
        assert(t[next] == ')');
        assert(t.len() == next + 1);
        lemma_whitespace_at(t, end, 1);
        lemma_whitespace_at(t, next + 1, 0);
        assert(list =~= seq![x]);
    } else {
        let second = setting_line(rest[0]);
        assert(is_written_setting(rest[0])) by {
            assert(rest[0] == list[1]);
        }
        lemma_setting_line(rest[0]);
        assert(setting_lines(rest) + seq![')'] =~= second + (setting_lines(rest.drop_first())
            + seq![')']));
        lemma_split(t, next, second, setting_lines(rest.drop_first()) + seq![')']);
        lemma_window_char(t, next, second, 0);
        lemma_window_char(t, next, second, 1);
        assert(second[1] == rest[0].0[0]) by {
            assert(second.subrange(1, 1 + rest[0].0.len() as int)[0] == second[1]);
        }
        lemma_whitespace_at(t, end, 2);
        assert forall|j: int| 0 <= j < rest.len() implies is_written_setting(
            #[trigger] rest[j],
        ) by {
            assert(rest[j] == list[j + 1]);
        }
        lemma_setting_lines_at(t, next, rest);
        assert(seq![x] + rest =~= list);
    }
}

/// Where the pieces of a block of settings stand in its text.
proof fn lemma_godebug_block_text(list: Seq<Setting>)
    requires
        list.len() > 0,
        is_written_setting(list[0]),
    ensures
        ({
            let t = godebug_block_text(list);
            &&& has_prefix_at(t, 0, "godebug"@)
            &&& t[0] == 'g'
            &&& t[7] == ' '
            &&& t[8] == '('
            &&& t[9] == '\n'
            &&& t[10] == ' '
            &&& t.len() > 11
            &&& !is_whitespace(t[11])
            &&& t.subrange(10, t.len() as int) == setting_lines(list) + seq![')']
        }),
{
    let t = godebug_block_text(list);
    let x = list[0];
    let w = setting_line(x);
    lemma_godebug_keyword();
    lemma_setting_line(x);
    assert(t.subrange(0, 7) =~= "godebug"@);
    assert(t.subrange(10, t.len() as int) =~= setting_lines(list) + seq![')']);
    assert(setting_lines(list) + seq![')'] =~= w + (setting_lines(list.drop_first()) + seq![')']));
    lemma_split(t, 10, w, setting_lines(list.drop_first()) + seq![')']);
    lemma_window_char(t, 10, w, 0);
    lemma_window_char(t, 10, w, 1);
    assert(w[1] == x.0[0]) by {
        assert(w.subrange(1, 1 + x.0.len() as int)[0] == w[1]);
    }
    assert(t[0] == 'g') by {
        assert(t.subrange(0, 7)[0] == t[0]);
    }
}

/// A block of settings behind its keyword is a listing of them.
proof fn lemma_godebug_block_at(t: Seq<char>, list: Seq<Setting>)
    requires
        list.len() > 0,
        forall|k: int| 0 <= k < list.len() ==> is_written_setting(#[trigger] list[k]),
        t.len() > 11,
        t[7] == ' ',
        t[8] == '(',
        t[9] == '\n',
        t[10] == ' ',
        !is_whitespace(t[11]),
        t.subrange(10, t.len() as int) == setting_lines(list) + seq![')'],
    ensures
        listing::<(String, String)>(t, 7) == Ok::<(Seq<Setting>, int), Failure>(
            (list, t.len() as int),
        ),
{
    lemma_blank_at(t, 7);
    lemma_char_sets();
    lemma_span_while_unique(t, 9, BLANKS@, 9);
    lemma_whitespace_at(t, 9, 2);
    lemma_setting_lines_at(t, 10, list);
}

/// The record of one `godebug` directive holds its settings, and nothing
/// else.
proof fn lemma_collect_godebug(list: Seq<Setting>)
    ensures
        GoModView::collect(seq![DirectiveView::GoDebug(merge(Seq::empty(), list))]) == (GoModView {
            godebug: merge(Seq::empty(), list),
            ..GoModView::empty()
        }),
{
    let one = seq![DirectiveView::GoDebug(merge(Seq::empty(), list))];
    assert(one.drop_last() =~= Seq::<DirectiveView>::empty());
    assert(GoModView::collect(one.drop_last()) == GoModView::empty());
    assert(GoModView::collect(one) == GoModView::empty().apply(one.last()));
    lemma_merge_merged(Seq::empty(), list);
}

/// The later value wins: a block of settings parses to the record that
/// holds each key once, where it stood first, and as a mapping the
/// settings are what inserting them in the order of the text gives.
pub proof fn theorem_godebug_block(list: Seq<Setting>)
    requires
        list.len() > 0,
        forall|k: int| 0 <= k < list.len() ==> is_written_setting(#[trigger] list[k]),
    ensures
        record(godebug_block_text(list)) == Ok::<GoModView, Failure>(
            GoModView { godebug: merge(Seq::empty(), list), ..GoModView::empty() },
        ),
        as_map(merge(Seq::empty(), list)) == insert_all(Map::empty(), list),
{
    let t = godebug_block_text(list);
    let merged = merge(Seq::empty(), list);
    assert(is_written_setting(list[0]));
    lemma_godebug_block_text(list);
    lemma_godebug_block_at(t, list);
    lemma_whitespace_at(t, 0, 0);
    lemma_godebug_at(t, 0);
    lemma_whitespace_at(t, t.len() as int, 0);
    lemma_directives_end(t, t.len() as int);
    lemma_directives_step(t, 0, DirectiveView::GoDebug(merged), t.len() as int, Seq::empty());
    assert(seq![DirectiveView::GoDebug(merged)] + Seq::empty() =~= seq![
        DirectiveView::GoDebug(merged),
    ]);
    lemma_record_of(t, seq![DirectiveView::GoDebug(merged)]);
    lemma_collect_godebug(list);
    lemma_merge_last_wins(Seq::empty(), list);
    assert(as_map(Seq::<Setting>::empty()) =~= Map::<Seq<char>, Seq<char>>::empty());
}

} // verus!
