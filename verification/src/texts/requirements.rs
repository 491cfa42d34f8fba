//! Requirements: as one block or line by line, with a comment or without.

use vstd::prelude::*;
use crate::combinator::{
    has_prefix_at, is_line_break, is_whitespace, lemma_char_sets, lemma_span_while_unique,
    BLANKS,
};
use crate::error::Failure;
use crate::grammar::{
    char_at, dependency, directive, directives, entries, keyword_end, lemma_directives_end,
    lemma_directives_step, listing, manifest, require_body, skip_line_breaks, DirectiveView, Entry,
};
use crate::texts::pieces::{
    at_line_end, is_word, one_line, lemma_blank_at, lemma_comment_at, lemma_dependency_at,
    lemma_keyword_is_no_comment, lemma_line_breaks_at, lemma_record_of, lemma_split,
    lemma_whitespace_at, lemma_window, lemma_window_char, lemma_word_at,
};
use crate::{record, GoModView, ModuleDependency, ModuleDependencyView, ModuleView};

verus! {

/// Whether a module can be written as a requirement: path and version are
/// words, and the path starts with no parenthesis.
pub open spec fn is_requirement(m: ModuleView) -> bool {
    is_word(m.path) && is_word(m.version) && m.path[0] != '(' && m.path[0] != ')'
}

/// The dependencies that a list of modules is required as: each module,
/// not marked.
pub open spec fn requirements(list: Seq<ModuleView>) -> Seq<ModuleDependencyView> {
    Seq::new(list.len(), |k: int| ModuleDependencyView { module: list[k], indirect: false })
}

/// A requirement as a line of its own: the keyword, the path, the version.
pub open spec fn require_line(m: ModuleView) -> Seq<char> {
    "require"@ + seq![' '] + m.path + seq![' '] + m.version + seq!['\n']
}

/// The requirements of a list, each as a line of its own.
pub open spec fn require_lines_text(list: Seq<ModuleView>) -> Seq<char>
    decreases list.len(),
{
    if list.len() == 0 {
        Seq::empty()
    } else {
        require_line(list[0]) + require_lines_text(list.drop_first())
    }
}

/// A requirement as a line of a block: a space, the path, the version.
pub open spec fn block_line(m: ModuleView) -> Seq<char> {
    seq![' '] + m.path + seq![' '] + m.version + seq!['\n']
}

/// The requirements of a list, each as a line of a block.
pub open spec fn block_lines(list: Seq<ModuleView>) -> Seq<char>
    decreases list.len(),
{
    if list.len() == 0 {
        Seq::empty()
    } else {
        block_line(list[0]) + block_lines(list.drop_first())
    }
}

/// The requirements of a list as one block.
pub open spec fn require_block_text(list: Seq<ModuleView>) -> Seq<char> {
    "require"@ + seq![' ', '(', '\n'] + block_lines(list) + seq![')']
}

/// No other keyword is spelled `require`.
proof fn lemma_require_keyword()
    ensures
        is_word("require"@),
        "require"@.len() == 7,
        "require"@[0] == 'r',
        "require"@ != "module"@,
        "require"@ != "go"@,
        "require"@ != "godebug"@,
        "require"@ != "tool"@,
        "require"@ != "toolchain"@,
{
    reveal_strlit("require");
    reveal_strlit("module");
    reveal_strlit("go");
    reveal_strlit("godebug");
    reveal_strlit("tool");
    reveal_strlit("toolchain");
    assert("require"@.len() != "module"@.len());
    assert("require"@.len() != "go"@.len());
    assert("require"@[0] != "godebug"@[0]);
    assert("require"@.len() != "tool"@.len());
    assert("require"@.len() != "toolchain"@.len());
}

/// The keyword `require` reads as the directive of what is listed behind
/// it.
proof fn lemma_require_at(t: Seq<char>, i: int)
    requires
        has_prefix_at(t, i, "require"@),
        i + 7 < t.len() ==> is_whitespace(t[i + 7]),
    ensures
        directive(t, i) == require_body(t, i + 7),
{
    reveal(directive);
    lemma_require_keyword();
    lemma_keyword_is_no_comment(t, i, "require"@);
    lemma_word_at(t, i, "require"@);
    assert(keyword_end(t, i, "require"@) == Some(i + 7));
}

/// Where the pieces of a requirement stand in its line.
proof fn lemma_require_line(m: ModuleView)
    ensures
        ({
            let w = require_line(m);
            let p = m.path.len() as int;
            let v = m.version.len() as int;
            &&& w.len() == 10 + p + v
            &&& has_prefix_at(w, 0, "require"@)
            &&& w[7] == ' '
            &&& has_prefix_at(w, 8, m.path)
            &&& w[8 + p] == ' '
            &&& has_prefix_at(w, 9 + p, m.version)
            &&& w[9 + p + v] == '\n'
        }),
{
    lemma_require_keyword();
    let w = require_line(m);
    let p = m.path.len() as int;
    let v = m.version.len() as int;
    assert(w.subrange(0, 7) =~= "require"@);
    assert(w.subrange(8, 8 + p) =~= m.path);
    assert(w.subrange(9 + p, 9 + p + v) =~= m.version);
}

/// Where the pieces of a requirement stand in its line of a block.
proof fn lemma_block_line(m: ModuleView)
    ensures
        ({
            let w = block_line(m);
            let p = m.path.len() as int;
            let v = m.version.len() as int;
            &&& w.len() == 3 + p + v
            &&& w[0] == ' '
            &&& has_prefix_at(w, 1, m.path)
            &&& w[1 + p] == ' '
            &&& has_prefix_at(w, 2 + p, m.version)
            &&& w[2 + p + v] == '\n'
        }),
{
    let w = block_line(m);
    let p = m.path.len() as int;
    let v = m.version.len() as int;
    assert(w.subrange(1, 1 + p) =~= m.path);
    assert(w.subrange(2 + p, 2 + p + v) =~= m.version);
}

/// A path and a version behind the keyword `require` and one space, with
/// one line feed behind them and no line terminator behind that, are a
/// listing of one dependency.
proof fn lemma_single_listing_at(t: Seq<char>, i: int, path: Seq<char>, version: Seq<char>)
    requires
        char_at(t, i, ' '),
        has_prefix_at(t, i + 1, path),
        is_word(path),
        path[0] != '(',
        path[0] != ')',
        char_at(t, i + 1 + path.len(), ' '),
        has_prefix_at(t, i + 2 + path.len(), version),
        is_word(version),
        char_at(t, i + 2 + path.len() + version.len(), '\n'),
        i + 3 + path.len() + version.len() < t.len() ==> !is_line_break(
            t[i + 3 + path.len() + version.len()],
        ),
    ensures
        listing::<ModuleDependency>(t, i) == Ok::<(Seq<ModuleDependencyView>, int), Failure>(
            (
                seq![
                    ModuleDependencyView { module: ModuleView { path, version }, indirect: false },
                ],
                i + 3 + path.len() + version.len(),
            ),
        ),
{
    assert(t[i + 1] == path[0]) by {
        assert(t.subrange(i + 1, i + 1 + path.len())[0] == t[i + 1]);
    }
    lemma_blank_at(t, i);
    lemma_dependency_at(t, i + 1, path, version);
    lemma_line_breaks_at(t, i + 2 + path.len() + version.len(), 1);
    assert(ModuleDependency::entry(t, i + 1) == dependency(t, i + 1));
}

/// A requirement on a line of its own, with no line terminator behind the
/// line, is a `require` directive of one dependency.
proof fn lemma_require_line_at(t: Seq<char>, q: int, m: ModuleView)
    requires
        has_prefix_at(t, q, require_line(m)),
        is_requirement(m),
        q + require_line(m).len() < t.len() ==> !is_line_break(t[q + require_line(m).len()]),
    ensures
        directive(t, q) == Ok::<(DirectiveView, int), Failure>(
            (
                DirectiveView::Require(
                    seq![ModuleDependencyView { module: m, indirect: false }],
                ),
                q + require_line(m).len(),
            ),
        ),
{
    let w = require_line(m);
    let p = m.path.len() as int;
    let v = m.version.len() as int;
    lemma_require_line(m);
    lemma_window(t, q, w, 0, "require"@);
    lemma_window_char(t, q, w, 7);
    lemma_window(t, q, w, 8, m.path);
    lemma_window_char(t, q, w, 8 + p);
    lemma_window(t, q, w, 9 + p, m.version);
    lemma_window_char(t, q, w, 9 + p + v);
    lemma_require_at(t, q);
    lemma_single_listing_at(t, q + 7, m.path, m.version);
}

/// The directives that a list of modules is required by, line by line.
pub open spec fn require_lines(list: Seq<ModuleView>) -> Seq<DirectiveView> {
    Seq::new(
        list.len(),
        |k: int|
            DirectiveView::Require(seq![ModuleDependencyView { module: list[k], indirect: false }]),
    )
}

/// Requirements written line by line are as many `require` directives.
proof fn lemma_require_lines_at(t: Seq<char>, q: int, list: Seq<ModuleView>)
    requires
        0 <= q <= t.len(),
        t.subrange(q, t.len() as int) == require_lines_text(list),
        forall|k: int| 0 <= k < list.len() ==> is_requirement(#[trigger] list[k]),
    ensures
        directives(t, q) == Ok::<Seq<DirectiveView>, Failure>(require_lines(list)),
    decreases list.len(),
{
    if list.len() == 0 {
        assert(t.subrange(q, t.len() as int).len() == 0);
        lemma_whitespace_at(t, q, 0);
        lemma_directives_end(t, q);
        assert(require_lines(list) =~= Seq::<DirectiveView>::empty());
    } else {
        let m = list[0];
        let w = require_line(m);
        let rest = list.drop_first();
        let next = q + w.len();
        assert(is_requirement(m));
        lemma_require_keyword();
        lemma_require_line(m);
        lemma_split(t, q, w, require_lines_text(rest));
        lemma_window_char(t, q, w, 0);
        assert(w[0] == 'r') by {
            assert(w.subrange(0, 7)[0] == w[0]);
        }
        lemma_whitespace_at(t, q, 0);
        assert(next < t.len() ==> !is_line_break(t[next])) by {
            if next < t.len() {
                assert(rest.len() > 0);
                let second = require_line(rest[0]);
                lemma_require_line(rest[0]);
                lemma_split(t, next, second, require_lines_text(rest.drop_first()));
                lemma_window_char(t, next, second, 0);
                assert(second[0] == 'r') by {
                    assert(second.subrange(0, 7)[0] == second[0]);
                }
            }
        }
        lemma_require_line_at(t, q, m);
        assert forall|k: int| 0 <= k < rest.len() implies is_requirement(#[trigger] rest[k]) by {
            assert(rest[k] == list[k + 1]);
        }
        lemma_require_lines_at(t, next, rest);
        lemma_directives_step(
            t,
            q,
            DirectiveView::Require(seq![ModuleDependencyView { module: m, indirect: false }]),
            next,
            require_lines(rest),
        );
        assert(seq![
            DirectiveView::Require(seq![ModuleDependencyView { module: m, indirect: false }]),
        ] + require_lines(rest) =~= require_lines(list));
    }
}

/// The lines of a block, up to its closing parenthesis, are the entries of
/// the block.
proof fn lemma_block_lines_at(t: Seq<char>, q: int, list: Seq<ModuleView>)
    requires
        0 <= q <= t.len(),
        list.len() > 0,
        t.subrange(q, t.len() as int) == block_lines(list) + seq![')'],
        forall|k: int| 0 <= k < list.len() ==> is_requirement(#[trigger] list[k]),
    ensures
        entries::<ModuleDependency>(t, q + 1) == Ok::<(Seq<ModuleDependencyView>, int), Failure>(
            (requirements(list), t.len() as int),
        ),
    decreases list.len(),
{
    let m = list[0];
    let w = block_line(m);
    let p = m.path.len() as int;
    let v = m.version.len() as int;
    let rest = list.drop_first();
    let next = q + w.len();
    let first = ModuleDependencyView { module: m, indirect: false };
    assert(is_requirement(m));
    lemma_block_line(m);
    assert(block_lines(list) + seq![')'] =~= w + (block_lines(rest) + seq![')']));
    lemma_split(t, q, w, block_lines(rest) + seq![')']);
    lemma_window(t, q, w, 1, m.path);
    lemma_window_char(t, q, w, 1 + p);
    lemma_window(t, q, w, 2 + p, m.version);
    lemma_window_char(t, q, w, 2 + p + v);
    lemma_dependency_at(t, q + 1, m.path, m.version);
    assert(ModuleDependency::entry(t, q + 1) == dependency(t, q + 1));
    let end = q + 2 + p + v;
    if rest.len() == 0 {
        assert(block_lines(rest) + seq![')'] =~= seq![')']);
        assert(t.subrange(next, t.len() as int)[0] == ')');
        assert(t[next] == ')');
        assert(t.len() == next + 1);
        lemma_whitespace_at(t, end, 1);
        lemma_whitespace_at(t, next + 1, 0);
        assert(requirements(list) =~= seq![first]);
    } else {
        let second = block_line(rest[0]);
        assert(is_requirement(rest[0])) by {
            assert(rest[0] == list[1]);
        }
        lemma_block_line(rest[0]);
        assert(block_lines(rest) + seq![')'] =~= second + (block_lines(rest.drop_first())
            + seq![')']));
        lemma_split(t, next, second, block_lines(rest.drop_first()) + seq![')']);
        lemma_window_char(t, next, second, 0);
        lemma_window_char(t, next, second, 1);
        assert(second[1] == rest[0].path[0]) by {
            assert(second.subrange(1, 1 + rest[0].path.len() as int)[0] == second[1]);
        }
        lemma_whitespace_at(t, end, 2);
        assert forall|k: int| 0 <= k < rest.len() implies is_requirement(#[trigger] rest[k]) by {
            assert(rest[k] == list[k + 1]);
        }
        lemma_block_lines_at(t, next, rest);
        assert(seq![first] + requirements(rest) =~= requirements(list));
    }
}

/// Where the pieces of a block of requirements stand in its text.
proof fn lemma_require_block_text(list: Seq<ModuleView>)
    requires
        list.len() > 0,
        is_requirement(list[0]),
    ensures
        ({
            let t = require_block_text(list);
            &&& has_prefix_at(t, 0, "require"@)
            &&& t[0] == 'r'
            &&& t[7] == ' '
            &&& t[8] == '('
            &&& t[9] == '\n'
            &&& t[10] == ' '
            &&& t.len() > 11
            &&& !is_whitespace(t[11])
            &&& t.subrange(10, t.len() as int) == block_lines(list) + seq![')']
        }),
{
    let t = require_block_text(list);
    let m = list[0];
    let w = block_line(m);
    lemma_require_keyword();
    lemma_block_line(m);
    assert(t.subrange(0, 7) =~= "require"@);
    assert(t.subrange(10, t.len() as int) =~= block_lines(list) + seq![')']);
    assert(block_lines(list) + seq![')'] =~= w + (block_lines(list.drop_first()) + seq![')']));
    lemma_split(t, 10, w, block_lines(list.drop_first()) + seq![')']);
    lemma_window_char(t, 10, w, 0);
    lemma_window_char(t, 10, w, 1);
    assert(w[1] == m.path[0]) by {
        assert(w.subrange(1, 1 + m.path.len() as int)[0] == w[1]);
    }
    assert(t[0] == 'r') by {
        assert(t.subrange(0, 7)[0] == t[0]);
    }
}

/// A block of requirements behind its keyword is a listing of them.
proof fn lemma_require_block_at(t: Seq<char>, list: Seq<ModuleView>)
    requires
        list.len() > 0,
        forall|k: int| 0 <= k < list.len() ==> is_requirement(#[trigger] list[k]),
        t.len() > 11,
        t[7] == ' ',
        t[8] == '(',
        t[9] == '\n',
        t[10] == ' ',
        !is_whitespace(t[11]),
        t.subrange(10, t.len() as int) == block_lines(list) + seq![')'],
    ensures
        listing::<ModuleDependency>(t, 7) == Ok::<(Seq<ModuleDependencyView>, int), Failure>(
            (requirements(list), t.len() as int),
        ),
{
    lemma_blank_at(t, 7);
    lemma_char_sets();
    lemma_span_while_unique(t, 9, BLANKS@, 9);
    lemma_whitespace_at(t, 9, 2);
    lemma_block_lines_at(t, 10, list);
}

/// Requirements written as one block are one `require` directive.
proof fn lemma_require_block(list: Seq<ModuleView>)
    requires
        list.len() > 0,
        forall|k: int| 0 <= k < list.len() ==> is_requirement(#[trigger] list[k]),
    ensures
        manifest(require_block_text(list)) == Ok::<Seq<DirectiveView>, Failure>(
            seq![DirectiveView::Require(requirements(list))],
        ),
{
    let t = require_block_text(list);
    assert(is_requirement(list[0]));
    lemma_require_block_text(list);
    lemma_require_block_at(t, list);
    lemma_whitespace_at(t, 0, 0);
    lemma_require_at(t, 0);
    lemma_whitespace_at(t, t.len() as int, 0);
    lemma_directives_end(t, t.len() as int);
    lemma_directives_step(
        t,
        0,
        DirectiveView::Require(requirements(list)),
        t.len() as int,
        Seq::empty(),
    );
    assert(seq![DirectiveView::Require(requirements(list))] + Seq::empty()
        =~= seq![DirectiveView::Require(requirements(list))]);
}

/// The record of requirements that were given line by line holds them in
/// their order, and nothing else.
proof fn lemma_collect_require_lines(list: Seq<ModuleView>)
    ensures
        GoModView::collect(require_lines(list)) == (GoModView {
            require: requirements(list),
            ..GoModView::empty()
        }),
    decreases list.len(),
{
    if list.len() == 0 {
        assert(requirements(list) =~= Seq::<ModuleDependencyView>::empty());
    } else {
        lemma_collect_require_lines(list.drop_last());
        assert(require_lines(list).drop_last() =~= require_lines(list.drop_last()));
        assert(requirements(list.drop_last()) + seq![
            ModuleDependencyView { module: list.last(), indirect: false },
        ] =~= requirements(list));
    }
}

/// The record of one `require` directive holds its dependencies, and
/// nothing else.
proof fn lemma_collect_require(list: Seq<ModuleDependencyView>)
    ensures
        GoModView::collect(seq![DirectiveView::Require(list)]) == (GoModView {
            require: list,
            ..GoModView::empty()
        }),
{
    let block = seq![DirectiveView::Require(list)];
    assert(block.drop_last() =~= Seq::<DirectiveView>::empty());
    assert(GoModView::collect(block.drop_last()) == GoModView::empty());
    assert(GoModView::collect(block) == GoModView::empty().apply(block.last()));
    assert(Seq::<ModuleDependencyView>::empty() + list =~= list);
}

/// Requirements written line by line are as many `require` directives.
proof fn lemma_require_lines(list: Seq<ModuleView>)
    requires
        forall|k: int| 0 <= k < list.len() ==> is_requirement(#[trigger] list[k]),
    ensures
        manifest(require_lines_text(list)) == Ok::<Seq<DirectiveView>, Failure>(
            require_lines(list),
        ),
{
    let t = require_lines_text(list);
    assert(t.subrange(0, t.len() as int) =~= t);
    lemma_require_lines_at(t, 0, list);
}

/// Block and repeated single form are equivalent: a list of requirements
/// written as one block parses to the same record as the list written line
/// by line, and the record holds the requirements in the order of the
/// list.
pub proof fn theorem_block_or_lines(list: Seq<ModuleView>)
    requires
        list.len() > 0,
        forall|k: int| 0 <= k < list.len() ==> is_requirement(#[trigger] list[k]),
    ensures
        record(require_block_text(list)) == Ok::<GoModView, Failure>(
            GoModView { require: requirements(list), ..GoModView::empty() },
        ),
        record(require_lines_text(list)) == record(require_block_text(list)),
{
    lemma_require_block(list);
    lemma_record_of(require_block_text(list), seq![DirectiveView::Require(requirements(list))]);
    lemma_collect_require(requirements(list));
    lemma_require_lines(list);
    lemma_record_of(require_lines_text(list), require_lines(list));
    lemma_collect_require_lines(list);
}

/// The manifest that requires one module, with a comment behind it.
pub open spec fn require_comment_text(m: ModuleView, text: Seq<char>) -> Seq<char> {
    "require"@ + seq![' '] + m.path + seq![' '] + m.version + seq![' ', '/', '/', ' '] + text
}

/// Where the pieces of a requirement and its comment stand in their text.
proof fn lemma_require_comment_text(m: ModuleView, text: Seq<char>)
    ensures
        ({
            let t = require_comment_text(m, text);
            let p = m.path.len() as int;
            let v = m.version.len() as int;
            &&& t.len() == 13 + p + v + text.len()
            &&& has_prefix_at(t, 0, "require"@)
            &&& t[0] == 'r'
            &&& t[7] == ' '
            &&& has_prefix_at(t, 8, m.path)
            &&& t[8 + p] == ' '
            &&& has_prefix_at(t, 9 + p, m.version)
            &&& t[9 + p + v] == ' '
            &&& t[10 + p + v] == '/'
            &&& t[11 + p + v] == '/'
            &&& t[12 + p + v] == ' '
            &&& has_prefix_at(t, 13 + p + v, text)
        }),
{
    lemma_require_keyword();
    let t = require_comment_text(m, text);
    let p = m.path.len() as int;
    let v = m.version.len() as int;
    assert(t.subrange(0, 7) =~= "require"@);
    assert(t[0] == 'r') by {
        assert(t.subrange(0, 7)[0] == t[0]);
    }
    assert(t.subrange(8, 8 + p) =~= m.path);
    assert(t.subrange(9 + p, 9 + p + v) =~= m.version);
    assert(t.subrange(13 + p + v, 13 + p + v + text.len()) =~= text);
}

/// A path, one space and a version, with a comment behind them on the
/// same line, are a dependency that is marked where the comment says
/// `indirect` and nothing else.
proof fn lemma_dependency_comment_at(
    t: Seq<char>,
    i: int,
    path: Seq<char>,
    version: Seq<char>,
    text: Seq<char>,
)
    requires
        has_prefix_at(t, i, path),
        is_word(path),
        path[0] != ')',
        char_at(t, i + path.len(), ' '),
        has_prefix_at(t, i + path.len() + 1, version),
        is_word(version),
        char_at(t, i + path.len() + 1 + version.len(), ' '),
        char_at(t, i + path.len() + 2 + version.len(), '/'),
        char_at(t, i + path.len() + 3 + version.len(), '/'),
        char_at(t, i + path.len() + 4 + version.len(), ' '),
        has_prefix_at(t, i + path.len() + 5 + version.len(), text),
        one_line(text),
        at_line_end(t, i + path.len() + 5 + version.len() + text.len()),
    ensures
        dependency(t, i) == Ok::<(ModuleDependencyView, int), Failure>(
            (
                ModuleDependencyView {
                    module: ModuleView { path, version },
                    indirect: text == "indirect"@,
                },
                skip_line_breaks(t, i + path.len() + 5 + version.len() + text.len()),
            ),
        ),
{
    lemma_char_sets();
    let space = i + path.len();
    let start = space + 1;
    let end = start + version.len();
    assert(t[i] == path[0]) by {
        assert(t.subrange(i, i + path.len())[0] == t[i]);
    }
    assert(t[start] == version[0]) by {
        assert(t.subrange(start, end)[0] == t[start]);
    }
    lemma_word_at(t, i, path);
    lemma_blank_at(t, space);
    lemma_word_at(t, start, version);
    lemma_comment_at(t, end, text);
}

/// A requirement with a comment behind it, behind the keyword `require`
/// and one space, is a listing of one dependency.
proof fn lemma_require_comment_listing_at(t: Seq<char>, m: ModuleView, text: Seq<char>)
    requires
        is_requirement(m),
        one_line(text),
        ({
            let p = m.path.len() as int;
            let v = m.version.len() as int;
            &&& t.len() == 13 + p + v + text.len()
            &&& t[7] == ' '
            &&& has_prefix_at(t, 8, m.path)
            &&& t[8 + p] == ' '
            &&& has_prefix_at(t, 9 + p, m.version)
            &&& t[9 + p + v] == ' '
            &&& t[10 + p + v] == '/'
            &&& t[11 + p + v] == '/'
            &&& t[12 + p + v] == ' '
            &&& has_prefix_at(t, 13 + p + v, text)
        }),
    ensures
        listing::<ModuleDependency>(t, 7) == Ok::<(Seq<ModuleDependencyView>, int), Failure>(
            (
                seq![ModuleDependencyView { module: m, indirect: text == "indirect"@ }],
                t.len() as int,
            ),
        ),
{
    assert(t[8] == m.path[0]) by {
        assert(t.subrange(8, 8 + m.path.len() as int)[0] == t[8]);
    }
    lemma_blank_at(t, 7);
    lemma_dependency_comment_at(t, 8, m.path, m.version, text);
    lemma_line_breaks_at(t, t.len() as int, 0);
    assert(ModuleDependency::entry(t, 8) == dependency(t, 8));
}

/// The rule of the mark: a requirement with a comment behind it on the
/// same line is indirect where the comment reads exactly `indirect`, and
/// direct with any other comment. The comment itself is not kept.
pub proof fn theorem_indirect_mark(m: ModuleView, text: Seq<char>)
    requires
        is_requirement(m),
        one_line(text),
    ensures
        record(require_comment_text(m, text)) == Ok::<GoModView, Failure>(
            GoModView {
                require: seq![ModuleDependencyView { module: m, indirect: text == "indirect"@ }],
                ..GoModView::empty()
            },
        ),
{
    let t = require_comment_text(m, text);
    let p = m.path.len() as int;
    let v = m.version.len() as int;
    let list = seq![ModuleDependencyView { module: m, indirect: text == "indirect"@ }];
    lemma_require_comment_text(m, text);
    lemma_require_comment_listing_at(t, m, text);
    lemma_whitespace_at(t, 0, 0);
    lemma_require_at(t, 0);
    lemma_whitespace_at(t, t.len() as int, 0);
    lemma_directives_end(t, t.len() as int);
    lemma_directives_step(t, 0, DirectiveView::Require(list), t.len() as int, Seq::empty());
    assert(seq![DirectiveView::Require(list)] + Seq::empty() =~= seq![
        DirectiveView::Require(list),
    ]);
    lemma_record_of(t, seq![DirectiveView::Require(list)]);
    lemma_collect_require(list);
}

} // verus!
