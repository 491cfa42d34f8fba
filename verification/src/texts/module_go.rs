//! A module line and a go line.

use vstd::prelude::*;
use crate::combinator::has_prefix_at;
use crate::error::Failure;
use crate::grammar::{
    char_at, directive, lemma_directives_end, lemma_directives_step, manifest,
    skip_line_breaks, DirectiveView,
};
use crate::texts::pieces::{
    at_line_end, is_line_text, is_word, lemma_keyword_is_no_comment, lemma_line_breaks_at,
    lemma_line_value_at, lemma_whitespace_at, lemma_word_at,
};
use crate::{record, GoModView};

verus! {

/// The keyword `module`, one space and a path, with the end of the line
/// behind them, are a `module` directive.
pub proof fn lemma_module_line_at(t: Seq<char>, i: int, path: Seq<char>)
    requires
        has_prefix_at(t, i, "module"@),
        char_at(t, i + 6, ' '),
        has_prefix_at(t, i + 7, path),
        is_line_text(path),
        at_line_end(t, i + 7 + path.len()),
    ensures
        directive(t, i) == Ok::<(DirectiveView, int), Failure>(
            (DirectiveView::Module(path), skip_line_breaks(t, i + 7 + path.len())),
        ),
{
    reveal(directive);
    reveal_strlit("module");
    assert(is_word("module"@));
    lemma_keyword_is_no_comment(t, i, "module"@);
    lemma_word_at(t, i, "module"@);
    lemma_line_value_at(t, i + 6, path);
}

/// The keyword `go`, one space and a version, with the end of the line
/// behind them, are a `go` directive.
pub proof fn lemma_go_line_at(t: Seq<char>, i: int, version: Seq<char>)
    requires
        has_prefix_at(t, i, "go"@),
        char_at(t, i + 2, ' '),
        has_prefix_at(t, i + 3, version),
        is_line_text(version),
        at_line_end(t, i + 3 + version.len()),
    ensures
        directive(t, i) == Ok::<(DirectiveView, int), Failure>(
            (DirectiveView::Go(version), skip_line_breaks(t, i + 3 + version.len())),
        ),
{
    reveal(directive);
    reveal_strlit("go");
    reveal_strlit("module");
    assert(is_word("go"@));
    lemma_keyword_is_no_comment(t, i, "go"@);
    lemma_word_at(t, i, "go"@);
    lemma_line_value_at(t, i + 2, version);
    assert("go"@.len() != "module"@.len());
}

/// The record of two directives.
proof fn lemma_collect_two(first: DirectiveView, second: DirectiveView)
    ensures
        GoModView::collect(seq![first, second]) == GoModView::empty().apply(first).apply(second),
{
    let list = seq![first, second];
    assert(list.drop_last() =~= seq![first]);
    assert(list.drop_last().drop_last() =~= Seq::<DirectiveView>::empty());
    assert(GoModView::collect(list.drop_last().drop_last()) == GoModView::empty());
    assert(GoModView::collect(list.drop_last()) == GoModView::empty().apply(first));
}

/// The manifest of a module line, an empty line and a go line.
pub open spec fn module_go_text(path: Seq<char>, version: Seq<char>) -> Seq<char> {
    "module "@ + path + "\n\ngo "@ + version + "\n"@
}

/// Where the pieces of a module line and a go line stand in their text.
proof fn lemma_module_go_text(path: Seq<char>, version: Seq<char>)
    ensures
        ({
            let t = module_go_text(path, version);
            let p = path.len() as int;
            let v = version.len() as int;
            &&& t.len() == 13 + p + v
            &&& has_prefix_at(t, 0, "module"@)
            &&& t[0] == 'm'
            &&& t[6] == ' '
            &&& has_prefix_at(t, 7, path)
            &&& t[7 + p] == '\n'
            &&& t[8 + p] == '\n'
            &&& has_prefix_at(t, 9 + p, "go"@)
            &&& t[9 + p] == 'g'
            &&& t[11 + p] == ' '
            &&& has_prefix_at(t, 12 + p, version)
            &&& t[12 + p + v] == '\n'
        }),
{
    reveal_strlit("module ");
    reveal_strlit("module");
    reveal_strlit("go");
    reveal_strlit("\n\ngo ");
    reveal_strlit("\n");
    let t = module_go_text(path, version);
    let p = path.len() as int;
    let v = version.len() as int;
    assert(t.len() == 13 + p + v);
    assert(t[0] == 'm' && t[1] == 'o' && t[2] == 'd' && t[3] == 'u' && t[4] == 'l' && t[5] == 'e'
        && t[6] == ' ');
    assert(t[7 + p] == '\n' && t[8 + p] == '\n' && t[9 + p] == 'g' && t[10 + p] == 'o' && t[11
        + p] == ' ');
    assert(t[12 + p + v] == '\n');
    assert(t.subrange(7, 7 + p) =~= path);
    assert(t.subrange(12 + p, 12 + p + v) =~= version);
    assert(t.subrange(0, 6) =~= "module"@);
    assert(t.subrange(9 + p, 11 + p) =~= "go"@);
}

/// The pieces of a module line and a go line, in their places, are a
/// manifest of two directives.
proof fn lemma_module_go_manifest(t: Seq<char>, path: Seq<char>, version: Seq<char>)
    requires
        is_line_text(path),
        is_line_text(version),
        ({
            let p = path.len() as int;
            let v = version.len() as int;
            &&& t.len() == 13 + p + v
            &&& has_prefix_at(t, 0, "module"@)
            &&& t[0] == 'm'
            &&& t[6] == ' '
            &&& has_prefix_at(t, 7, path)
            &&& t[7 + p] == '\n'
            &&& t[8 + p] == '\n'
            &&& has_prefix_at(t, 9 + p, "go"@)
            &&& t[9 + p] == 'g'
            &&& t[11 + p] == ' '
            &&& has_prefix_at(t, 12 + p, version)
            &&& t[12 + p + v] == '\n'
        }),
    ensures
        manifest(t) == Ok::<Seq<DirectiveView>, Failure>(
            seq![DirectiveView::Module(path), DirectiveView::Go(version)],
        ),
{
    let p = path.len() as int;
    let v = version.len() as int;
    let second = 9 + p;
    let end = 13 + p + v;
    lemma_whitespace_at(t, 0, 0);
    lemma_module_line_at(t, 0, path);
    lemma_line_breaks_at(t, 7 + p, 2);
    lemma_whitespace_at(t, second, 0);
    lemma_go_line_at(t, second, version);
    lemma_line_breaks_at(t, 12 + p + v, 1);
    lemma_whitespace_at(t, end, 0);
    lemma_directives_end(t, end);
    lemma_directives_step(t, second, DirectiveView::Go(version), end, Seq::empty());
    lemma_directives_step(
        t,
        0,
        DirectiveView::Module(path),
        second,
        seq![DirectiveView::Go(version)] + Seq::empty(),
    );
    assert(seq![DirectiveView::Module(path)] + (seq![DirectiveView::Go(version)] + Seq::empty())
        =~= seq![DirectiveView::Module(path), DirectiveView::Go(version)]);
}

/// A module line and a go line parse to the record with that module path
/// and that go version, and nothing else.
pub proof fn theorem_module_go(path: Seq<char>, version: Seq<char>)
    requires
        is_line_text(path),
        is_line_text(version),
    ensures
        record(module_go_text(path, version)) == Ok::<GoModView, Failure>(
            GoModView { module: path, go: Some(version), ..GoModView::empty() },
        ),
{
    lemma_module_go_text(path, version);
    lemma_module_go_manifest(module_go_text(path, version), path, version);
    lemma_collect_two(DirectiveView::Module(path), DirectiveView::Go(version));
}

} // verus!
