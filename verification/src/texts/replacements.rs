//! A replacement as it is written.

use vstd::prelude::*;
use crate::combinator::{
    has_prefix_at, is_whitespace, lemma_char_sets, lemma_span_until_unique,
    lemma_span_while_unique, BLANKS, WHITESPACES,
};
use crate::error::Failure;
use crate::grammar::{
    arrow_at, char_at, directive, keyword_end, lemma_directives_end, lemma_directives_step,
    listing, replace_body, replacement, replacement_target, DirectiveView, Entry,
};
use crate::texts::pieces::{
    at_line_end, is_word, lemma_blank_at, lemma_keyword_is_no_comment, lemma_line_breaks_at,
    lemma_record_of, lemma_whitespace_at, lemma_window, lemma_window_char, lemma_word_at,
};
use crate::{record, GoModView, ModuleReplacement, ModuleReplacementView, ReplacementView};

verus! {

/// Whether a target can be written behind the arrow: its path is a word,
/// and so is its version where it has one.
pub open spec fn is_written_target(target: ReplacementView) -> bool {
    match target {
        ReplacementView::FilePath(path) => is_word(path),
        ReplacementView::Module(module) => is_word(module.path) && is_word(module.version),
    }
}

/// Whether a replacement can be written as an entry: its parts are words,
/// the replaced path starts with no parenthesis, and the replaced version,
/// where there is one, is not the arrow itself.
pub open spec fn is_written_replacement(r: ModuleReplacementView) -> bool {
    &&& is_word(r.path)
    &&& r.path[0] != '('
    &&& r.path[0] != ')'
    &&& r.version matches Some(version) ==> is_word(version) && version != "=>"@
    &&& is_written_target(r.replacement)
}

/// A target as it is written: the path, and the version behind one space
/// where there is one.
pub open spec fn target_text(target: ReplacementView) -> Seq<char> {
    match target {
        ReplacementView::FilePath(path) => path,
        ReplacementView::Module(module) => module.path + seq![' '] + module.version,
    }
}

/// What is replaced as it is written: the path, and the version behind one
/// space where there is one.
pub open spec fn source_text(r: ModuleReplacementView) -> Seq<char> {
    match r.version {
        Some(version) => r.path + seq![' '] + version,
        None => r.path,
    }
}

/// A replacement as it is written: what is replaced, the arrow between
/// two spaces, the target.
pub open spec fn replacement_text(r: ModuleReplacementView) -> Seq<char> {
    source_text(r) + seq![' ', '=', '>', ' '] + target_text(r.replacement)
}

/// The manifest of one replacement.
pub open spec fn replace_text(r: ModuleReplacementView) -> Seq<char> {
    "replace"@ + seq![' '] + replacement_text(r)
}

/// No keyword before `replace` is spelled `replace`.
proof fn lemma_replace_keyword()
    ensures
        is_word("replace"@),
        "replace"@.len() == 7,
        "replace"@[0] == 'r',
        "replace"@ != "module"@,
        "replace"@ != "go"@,
        "replace"@ != "godebug"@,
        "replace"@ != "tool"@,
        "replace"@ != "toolchain"@,
        "replace"@ != "require"@,
        "replace"@ != "exclude"@,
{
    reveal_strlit("replace");
    reveal_strlit("module");
    reveal_strlit("go");
    reveal_strlit("godebug");
    reveal_strlit("tool");
    reveal_strlit("toolchain");
    reveal_strlit("require");
    reveal_strlit("exclude");
    assert("replace"@.len() != "module"@.len());
    assert("replace"@.len() != "go"@.len());
    assert("replace"@[0] != "godebug"@[0]);
    assert("replace"@.len() != "tool"@.len());
    assert("replace"@.len() != "toolchain"@.len());
    assert("replace"@[2] != "require"@[2]);
    assert("replace"@[0] != "exclude"@[0]);
}

/// The keyword `replace` reads as the directive of what is listed behind
/// it.
proof fn lemma_replace_at(t: Seq<char>, i: int)
    requires
        has_prefix_at(t, i, "replace"@),
        i + 7 < t.len() ==> is_whitespace(t[i + 7]),
    ensures
        directive(t, i) == replace_body(t, i + 7),
{
    reveal(directive);
    lemma_replace_keyword();
    lemma_keyword_is_no_comment(t, i, "replace"@);
    lemma_word_at(t, i, "replace"@);
    assert(keyword_end(t, i, "replace"@) == Some(i + 7));
}

/// The arrow, one space and a written target, with the end of the line
/// behind them, are that target.
proof fn lemma_target_at(t: Seq<char>, i: int, target: ReplacementView)
    requires
        has_prefix_at(t, i, "=>"@),
        char_at(t, i + 2, ' '),
        has_prefix_at(t, i + 3, target_text(target)),
        is_written_target(target),
        at_line_end(t, i + 3 + target_text(target).len()),
    ensures
        replacement_target(t, i) == Ok::<(ReplacementView, int), Failure>(
            (target, i + 3 + target_text(target).len()),
        ),
{
    reveal_strlit("=>");
    lemma_char_sets();
    let w = target_text(target);
    let start = i + 3;
    match target {
        ReplacementView::FilePath(path) => {
            lemma_window_char(t, start, w, 0);
            lemma_blank_at(t, i + 2);
            lemma_word_at(t, start, path);
            lemma_span_while_unique(t, start + path.len(), BLANKS@, start + path.len());
            lemma_span_until_unique(
                t,
                start + path.len(),
                WHITESPACES@,
                start + path.len(),
            );
        },
        ReplacementView::Module(module) => {
            let p = module.path.len() as int;
            let v = module.version.len() as int;
            assert(w.subrange(0, p) =~= module.path);
            assert(w.subrange(p + 1, p + 1 + v) =~= module.version);
            lemma_window(t, start, w, 0, module.path);
            lemma_window_char(t, start, w, 0);
            lemma_window_char(t, start, w, p);
            lemma_window(t, start, w, p + 1, module.version);
            lemma_window_char(t, start, w, p + 1);
            lemma_blank_at(t, i + 2);
            lemma_word_at(t, start, module.path);
            lemma_blank_at(t, start + p);
            lemma_word_at(t, start + p + 1, module.version);
        },
    }
}

/// A written replacement, with the end of the line behind it, is that
/// replacement.
proof fn lemma_replacement_at(t: Seq<char>, i: int, r: ModuleReplacementView)
    requires
        has_prefix_at(t, i, replacement_text(r)),
        is_written_replacement(r),
        at_line_end(t, i + replacement_text(r).len()),
    ensures
        replacement(t, i) == Ok::<(ModuleReplacementView, int), Failure>(
            (r, i + replacement_text(r).len()),
        ),
{
    reveal_strlit("=>");
    lemma_char_sets();
    let w = replacement_text(r);
    let source = source_text(r);
    let target = target_text(r.replacement);
    let n = source.len() as int;
    let p = r.path.len() as int;
    assert(w.subrange(0, n) =~= source);
    assert(w[n] == ' ' && w[n + 1] == '=' && w[n + 2] == '>' && w[n + 3] == ' ');
    assert(w.subrange(n + 1, n + 3) =~= "=>"@);
    assert(w.subrange(n + 4, n + 4 + target.len()) =~= target);
    lemma_window(t, i, w, 0, source);
    lemma_window_char(t, i, w, n);
    lemma_window(t, i, w, n + 1, "=>"@);
    lemma_window_char(t, i, w, n + 1);
    lemma_window_char(t, i, w, n + 3);
    lemma_window(t, i, w, n + 4, target);
    lemma_target_at(t, i + n + 1, r.replacement);
    assert(is_word("=>"@));
    lemma_word_at(t, i + n + 1, "=>"@);
    assert(arrow_at(t, i + n + 1));
    assert(source.subrange(0, p) =~= r.path);
    lemma_window(t, i, source, 0, r.path);
    lemma_window_char(t, i, source, 0);
    match r.version {
        None => {
            lemma_word_at(t, i, r.path);
            lemma_blank_at(t, i + p);
        },
        Some(version) => {
            let v = version.len() as int;
            assert(source.subrange(p + 1, p + 1 + v) =~= version);
            lemma_window_char(t, i, source, p);
            lemma_window(t, i, source, p + 1, version);
            lemma_window_char(t, i, source, p + 1);
            lemma_word_at(t, i, r.path);
            lemma_blank_at(t, i + p);
            lemma_word_at(t, i + p + 1, version);
            lemma_blank_at(t, i + n);
            assert(!arrow_at(t, i + p + 1));
        },
    }
}

/// The record of one `replace` directive holds its entries, and nothing
/// else.
proof fn lemma_collect_replace(list: Seq<ModuleReplacementView>)
    ensures
        GoModView::collect(seq![DirectiveView::Replace(list)]) == (GoModView {
            replace: list,
            ..GoModView::empty()
        }),
{
    let one = seq![DirectiveView::Replace(list)];
    assert(one.drop_last() =~= Seq::<DirectiveView>::empty());
    assert(GoModView::collect(one.drop_last()) == GoModView::empty());
    assert(GoModView::collect(one) == GoModView::empty().apply(one.last()));
    assert(Seq::<ModuleReplacementView>::empty() + list =~= list);
}

/// A written replacement behind the keyword `replace` and one space, at
/// the end of the text, is a listing of that replacement.
proof fn lemma_replace_listing_at(t: Seq<char>, r: ModuleReplacementView)
    requires
        is_written_replacement(r),
        t.len() == 8 + replacement_text(r).len(),
        t[7] == ' ',
        has_prefix_at(t, 8, replacement_text(r)),
    ensures
        listing::<ModuleReplacement>(t, 7) == Ok::<(Seq<ModuleReplacementView>, int), Failure>(
            (seq![r], t.len() as int),
        ),
{
    let w = replacement_text(r);
    assert(w[0] == r.path[0]);
    lemma_window_char(t, 8, w, 0);
    lemma_blank_at(t, 7);
    lemma_replacement_at(t, 8, r);
    lemma_line_breaks_at(t, t.len() as int, 0);
    assert(ModuleReplacement::entry(t, 8) == replacement(t, 8));
}

/// A replacement reads as it is written: without a version behind the new
/// path the target is a directory, with one it is a module; the version
/// before the arrow is kept where one is written.
pub proof fn theorem_replace(r: ModuleReplacementView)
    requires
        is_written_replacement(r),
    ensures
        record(replace_text(r)) == Ok::<GoModView, Failure>(
            GoModView { replace: seq![r], ..GoModView::empty() },
        ),
{
    let t = replace_text(r);
    let w = replacement_text(r);
    lemma_replace_keyword();
    assert(t.subrange(0, 7) =~= "replace"@);
    assert(t[0] == 'r') by {
        assert(t.subrange(0, 7)[0] == t[0]);
    }
    assert(t[7] == ' ');
    assert(t.subrange(8, 8 + w.len() as int) =~= w);
    lemma_replace_listing_at(t, r);
    lemma_whitespace_at(t, 0, 0);
    lemma_replace_at(t, 0);
    lemma_whitespace_at(t, t.len() as int, 0);
    lemma_directives_end(t, t.len() as int);
    lemma_directives_step(t, 0, DirectiveView::Replace(seq![r]), t.len() as int, Seq::empty());
    assert(seq![DirectiveView::Replace(seq![r])] + Seq::empty() =~= seq![
        DirectiveView::Replace(seq![r]),
    ]);
    lemma_record_of(t, seq![DirectiveView::Replace(seq![r])]);
    lemma_collect_replace(seq![r]);
}

} // verus!
