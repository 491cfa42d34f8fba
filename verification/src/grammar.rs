//! The grammar of a manifest, as specification functions.
//!
//! A text is a sequence of characters and a position is an index into it.
//! Each function says what the text reads as from a position onwards: the
//! value, and the position after it, or the failure. Nothing here runs; the
//! functions of [`crate::parser`] are proved to compute exactly this.
//!
//! ```text
//! manifest    := { whitespace* directive } whitespace*
//! directive   := line-break* one
//! one         := comment
//!              | ("module" | "go" | "toolchain" | "tool") blank+ line-value
//!              | "godebug" listing(setting)
//!              | ("require" | "exclude") listing(dependency)
//!              | "replace" listing(replacement)
//!              | "retract" listing(retraction)
//! comment     := "//" blank? text-to-line-end line-break*
//! line-value  := text-to-line-end line-break*
//! listing(e)  := blank+ ( e line-break* | block(e) )
//! block(e)    := "(" blank* line-break whitespace* e { whitespace* e } whitespace* ")" whitespace*
//! setting     := key "=" word
//! dependency  := word blank+ word [ blank* comment ]
//! replacement := word [ blank+ word ] blank+ "=>" blank+ word [ blank+ word ]
//! retraction  := ( word | "[" lower "," blank* upper "]" ) [ blank* comment ]
//! ```
//!
//! A word is one or more characters other than space, tab, carriage return
//! and line feed. A keyword, and the arrow `=>`, is a word of its own: a
//! longer word that begins with it is something else. No entry of a
//! listing starts with `)`. The settings that one `godebug` directive lists
//! are merged by key, so that the directive holds each key once.

use vstd::prelude::*;
use crate::combinator::{
    has_prefix_at, is_blank, is_line_break, lemma_char_sets, lemma_span_until, lemma_span_while,
    span_until, span_while, BLANKS, CRLF, KEY_END, LOWER_END, UPPER_END, WHITESPACES,
};
use crate::error::{ErrorKind, Failure, ParseError};
use crate::settings::{
    all_filled, distinct_keys, has_key, lemma_merge_filled, lemma_merge_inserts,
    lemma_merge_keys, merge,
};
use crate::source::Source;
use crate::{
    ModuleDependency, ModuleDependencyView, ModuleReplacement, ModuleReplacementView,
    ModuleRetract, ModuleRetractView, ModuleView, ReplacementView, Setting,
};

verus! {

/// What a production reads: a value and the position after it, or a failure.
pub type Parsed<T> = Result<(T, int), Failure>;

/// What a [`crate::parser::Directive`] stands for.
pub enum DirectiveView {
    Comment(Seq<char>),
    Module(Seq<char>),
    Go(Seq<char>),
    GoDebug(Seq<Setting>),
    Tool(Seq<Seq<char>>),
    Toolchain(Seq<char>),
    Require(Seq<ModuleDependencyView>),
    Exclude(Seq<ModuleDependencyView>),
    Replace(Seq<ModuleReplacementView>),
    Retract(Seq<ModuleRetractView>),
}

/// The failure of a directive's body at `at`.
pub open spec fn malformed(at: int) -> Failure {
    Failure { kind: ErrorKind::MalformedEntry, at }
}

/// The failure of a block that the text ends in; `at` is the end of the
/// text.
pub open spec fn unterminated(at: int) -> Failure {
    Failure { kind: ErrorKind::UnterminatedBlock, at }
}

/// The failure of a line whose first word, at `at`, is no keyword.
pub open spec fn unrecognized(at: int) -> Failure {
    Failure { kind: ErrorKind::UnrecognizedKeyword, at }
}

/// The value of `p` changed by `f`, the position and a failure kept.
pub open spec fn map_value<T, U>(p: Parsed<T>, f: spec_fn(T) -> U) -> Parsed<U> {
    match p {
        Ok((value, next)) => Ok((f(value), next)),
        Err(failure) => Err(failure),
    }
}

/// The position behind the spaces and tabs at `i`.
pub open spec fn skip_blanks(s: Seq<char>, i: int) -> int {
    span_while(s, i, BLANKS@)
}

/// The position behind the line terminators at `i`.
pub open spec fn skip_line_breaks(s: Seq<char>, i: int) -> int {
    span_while(s, i, CRLF@)
}

/// The position behind the whitespace at `i`: blanks, line terminators,
/// and so blank lines and indentation.
pub open spec fn skip_whitespace(s: Seq<char>, i: int) -> int {
    span_while(s, i, WHITESPACES@)
}

/// Where the word that starts at `i` ends; `i` itself where none starts.
pub open spec fn word_end(s: Seq<char>, i: int) -> int {
    span_until(s, i, WHITESPACES@)
}

/// Where the line that `i` lies in ends: at its terminator, or at the end
/// of the text.
pub open spec fn line_end(s: Seq<char>, i: int) -> int {
    span_until(s, i, CRLF@)
}

/// Whether the character at `i` is `c`; false at the end of the text.
pub open spec fn char_at(s: Seq<char>, i: int, c: char) -> bool {
    0 <= i < s.len() && s[i] == c
}

/// A comment whose marker stands at `marker`: the text after the marker and
/// at most one blank, up to the end of the line, and the position after the
/// line's terminators. The end of the text ends a comment as a terminator
/// does.
pub open spec fn comment_body(s: Seq<char>, marker: int) -> (Seq<char>, int) {
    let text = if 0 <= marker + 2 < s.len() && is_blank(s[marker + 2]) {
        marker + 3
    } else {
        marker + 2
    };
    let end = line_end(s, text);
    (s.subrange(text, end), skip_line_breaks(s, end))
}

/// A comment on the rest of the line: blanks, the marker, the text.
/// `None` where the rest of the line holds anything else.
pub open spec fn comment(s: Seq<char>, i: int) -> Option<(Seq<char>, int)> {
    let marker = skip_blanks(s, i);
    if has_prefix_at(s, marker, "//"@) {
        Some(comment_body(s, marker))
    } else {
        None
    }
}

/// The value of a `module`, `go`, `toolchain` or `tool` directive whose
/// keyword ends at `i`: one or more blanks, then everything up to the end of
/// the line, which must be something.
pub open spec fn line_value(s: Seq<char>, i: int) -> Parsed<Seq<char>> {
    let start = skip_blanks(s, i);
    let end = line_end(s, start);
    if start == i {
        Err(malformed(i))
    } else if end == start {
        Err(malformed(start))
    } else {
        Ok((s.subrange(start, end), skip_line_breaks(s, end)))
    }
}

/// Whether an entry of a listing may start at `i`: inside the text, and not
/// with the parenthesis that closes a block.
pub open spec fn entry_start(s: Seq<char>, i: int) -> bool {
    0 <= i < s.len() && s[i] != ')'
}

/// One `godebug` setting: the key is everything up to `=`, the value the
/// word after it.
pub open spec fn setting(s: Seq<char>, i: int) -> Parsed<Setting> {
    let key_end = span_until(s, i, KEY_END@);
    let value_end = word_end(s, key_end + 1);
    if !entry_start(s, i) {
        Err(malformed(i))
    } else if key_end == i {
        Err(malformed(i))
    } else if key_end >= s.len() {
        Err(malformed(key_end))
    } else if value_end == key_end + 1 {
        Err(malformed(key_end + 1))
    } else {
        Ok(((s.subrange(i, key_end), s.subrange(key_end + 1, value_end)), value_end))
    }
}

/// One entry of `require` or `exclude`: a module path, blanks, a version,
/// and perhaps a comment on the same line. The entry is indirect where the
/// comment reads exactly `indirect`.
pub open spec fn dependency(s: Seq<char>, i: int) -> Parsed<ModuleDependencyView> {
    let path_end = word_end(s, i);
    let version = skip_blanks(s, path_end);
    let version_end = word_end(s, version);
    let module = ModuleView {
        path: s.subrange(i, path_end),
        version: s.subrange(version, version_end),
    };
    if !entry_start(s, i) {
        Err(malformed(i))
    } else if path_end == i {
        Err(malformed(i))
    } else if version == path_end {
        Err(malformed(path_end))
    } else if version_end == version {
        Err(malformed(version))
    } else {
        match comment(s, version_end) {
            Some((text, next)) => Ok(
                (ModuleDependencyView { module, indirect: text == "indirect"@ }, next),
            ),
            None => Ok((ModuleDependencyView { module, indirect: false }, version_end)),
        }
    }
}

/// What stands after the arrow of a replacement, the arrow being at
/// `arrow`: blanks and the new path, and perhaps blanks and a version on the
/// same line. With a version the target is a module, without one a
/// directory.
pub open spec fn replacement_target(s: Seq<char>, arrow: int) -> Parsed<ReplacementView> {
    let path = skip_blanks(s, arrow + 2);
    let path_end = word_end(s, path);
    let version = skip_blanks(s, path_end);
    let version_end = word_end(s, version);
    if path == arrow + 2 {
        Err(malformed(arrow + 2))
    } else if path_end == path {
        Err(malformed(path))
    } else if version_end > version {
        Ok(
            (
                ReplacementView::Module(
                    ModuleView {
                        path: s.subrange(path, path_end),
                        version: s.subrange(version, version_end),
                    },
                ),
                version_end,
            ),
        )
    } else {
        Ok((ReplacementView::FilePath(s.subrange(path, path_end)), path_end))
    }
}

/// Whether the word at `i` is the arrow and nothing else.
pub open spec fn arrow_at(s: Seq<char>, i: int) -> bool {
    0 <= i && s.subrange(i, word_end(s, i)) == "=>"@
}

/// One entry of `replace`: the replaced path, a version unless the word
/// behind the path is the arrow, the arrow, and the target. A word that
/// only begins with the arrow is a version.
pub open spec fn replacement(s: Seq<char>, i: int) -> Parsed<ModuleReplacementView> {
    let path_end = word_end(s, i);
    let second = skip_blanks(s, path_end);
    let version_end = word_end(s, second);
    let arrow = skip_blanks(s, version_end);
    let path = s.subrange(i, path_end);
    if !entry_start(s, i) {
        Err(malformed(i))
    } else if path_end == i {
        Err(malformed(i))
    } else if second == path_end {
        Err(malformed(path_end))
    } else if arrow_at(s, second) {
        map_value(
            replacement_target(s, second),
            |target: ReplacementView|
                ModuleReplacementView { path, version: None, replacement: target },
        )
    } else if version_end == second {
        Err(malformed(second))
    } else if arrow == version_end {
        Err(malformed(version_end))
    } else if !arrow_at(s, arrow) {
        Err(malformed(arrow))
    } else {
        map_value(
            replacement_target(s, arrow),
            |target: ReplacementView|
                ModuleReplacementView {
                    path,
                    version: Some(s.subrange(second, version_end)),
                    replacement: target,
                },
        )
    }
}

/// A retracted range at `i`: the opening bracket, the lower bound up to a
/// comma, blanks, the upper bound up to the closing bracket. A bound is one
/// or more characters and holds no space.
pub open spec fn version_range(s: Seq<char>, i: int) -> Parsed<ModuleRetractView> {
    let lower_end = span_until(s, i + 1, LOWER_END@);
    let upper = skip_blanks(s, lower_end + 1);
    let upper_end = span_until(s, upper, UPPER_END@);
    if !char_at(s, i, '[') {
        Err(malformed(i))
    } else if lower_end == i + 1 {
        Err(malformed(i + 1))
    } else if !char_at(s, lower_end, ',') {
        Err(malformed(lower_end))
    } else if upper_end == upper {
        Err(malformed(upper))
    } else if !char_at(s, upper_end, ']') {
        Err(malformed(upper_end))
    } else {
        Ok(
            (
                ModuleRetractView::Range(
                    s.subrange(i + 1, lower_end),
                    s.subrange(upper, upper_end),
                ),
                upper_end + 1,
            ),
        )
    }
}

/// A single retracted version: the word at `i`.
pub open spec fn version_single(s: Seq<char>, i: int) -> Parsed<ModuleRetractView> {
    let end = word_end(s, i);
    if end == i {
        Err(malformed(i))
    } else {
        Ok((ModuleRetractView::Single(s.subrange(i, end)), end))
    }
}

/// One entry of `retract`: a range where the entry starts with `[`, else a
/// single version; a comment on the same line is read and dropped.
pub open spec fn retraction(s: Seq<char>, i: int) -> Parsed<ModuleRetractView> {
    if !entry_start(s, i) {
        Err(malformed(i))
    } else {
        match if s[i] == '[' {
            version_range(s, i)
        } else {
            version_single(s, i)
        } {
            Err(failure) => Err(failure),
            Ok((retract, end)) => match comment(s, end) {
                Some((_, next)) => Ok((retract, next)),
                None => Ok((retract, end)),
            },
        }
    }
}

/// A kind of entry that a directive lists, singly or in a block.
pub trait Entry: DeepView + Sized {
    /// What the text reads as one entry at `i`.
    spec fn entry(s: Seq<char>, i: int) -> Parsed<Self::V>;

    /// What holds of every entry that was read.
    spec fn well_formed(value: Self::V) -> bool;

    /// An entry holds at least one character, ends inside the text and is
    /// well formed.
    proof fn lemma_entry_bounds(s: Seq<char>, i: int)
        ensures
            Self::entry(s, i) matches Ok((value, end)) ==> 0 <= i < end <= s.len()
                && Self::well_formed(value),
    ;

    /// Reads one entry at `pos`.
    fn parse(src: &Source, pos: usize) -> (r: Result<(Self, usize), ParseError>)
        ensures
            agrees(r, Self::entry(src@, pos as int)),
    ;
}

/// Whether what a parser returned is what the grammar states.
pub open spec fn agrees<T: DeepView>(r: Result<(T, usize), ParseError>, p: Parsed<T::V>) -> bool {
    match r {
        Ok((value, next)) => p == Ok::<(T::V, int), Failure>((value.deep_view(), next as int)),
        Err(error) => p == Err::<(T::V, int), Failure>(error@),
    }
}

/// The entries of a block from the entry at `i` on, up to the closing
/// parenthesis and the whitespace after it. Whitespace separates the
/// entries; the text must not end before the parenthesis.
pub open spec fn entries<E: Entry>(s: Seq<char>, i: int) -> Parsed<Seq<E::V>>
    decreases s.len() - i,
{
    match E::entry(s, i) {
        Err(failure) => Err(failure),
        Ok((first, end)) => {
            let next = skip_whitespace(s, end);
            if next >= s.len() {
                Err(unterminated(s.len() as int))
            } else if s[next] == ')' {
                Ok((seq![first], skip_whitespace(s, next + 1)))
            } else {
                proof {
                    E::lemma_entry_bounds(s, i);
                    lemma_span_while(s, end, WHITESPACES@);
                }
                match entries::<E>(s, next) {
                    Err(failure) => Err(failure),
                    Ok((rest, after)) => Ok((seq![first] + rest, after)),
                }
            }
        },
    }
}

/// A block at `open`: the opening parenthesis, behind which the line must
/// end, blanks apart; then one or more entries and the closing
/// parenthesis.
pub open spec fn block<E: Entry>(s: Seq<char>, open: int) -> Parsed<Seq<E::V>> {
    let line_break = skip_blanks(s, open + 1);
    let first = skip_whitespace(s, line_break);
    if !char_at(s, open, '(') {
        Err(malformed(open))
    } else if first >= s.len() {
        Err(unterminated(s.len() as int))
    } else if !is_line_break(s[line_break]) {
        Err(malformed(open + 1))
    } else {
        entries::<E>(s, first)
    }
}

/// The entries of a directive whose keyword ends at `i`: one or more
/// blanks, then a block where a parenthesis follows, else a single entry
/// and the terminators of its line.
pub open spec fn listing<E: Entry>(s: Seq<char>, i: int) -> Parsed<Seq<E::V>> {
    let start = skip_blanks(s, i);
    if start == i {
        Err(malformed(i))
    } else if char_at(s, start, '(') {
        block::<E>(s, start)
    } else {
        match E::entry(s, start) {
            Err(failure) => Err(failure),
            Ok((only, end)) => Ok((seq![only], skip_line_breaks(s, end))),
        }
    }
}

/// Where the keyword `keyword` ends that stands at `i` as a word of its
/// own; `None` where another word stands there, or none.
pub open spec fn keyword_end(s: Seq<char>, i: int, keyword: Seq<char>) -> Option<int> {
    let end = word_end(s, i);
    if 0 <= i < end && s.subrange(i, end) == keyword {
        Some(end)
    } else {
        None
    }
}

/// What `body` reads behind the keyword `keyword` at `i`; the failure of
/// an unrecognized keyword where the keyword does not stand at `i`.
pub open spec fn behind_keyword(
    s: Seq<char>,
    i: int,
    keyword: Seq<char>,
    body: spec_fn(int) -> Parsed<DirectiveView>,
) -> Parsed<DirectiveView> {
    match keyword_end(s, i, keyword) {
        Some(end) => body(end),
        None => Err(unrecognized(i)),
    }
}

/// What follows the keyword `module`, which ends at `i`.
pub open spec fn module_body(s: Seq<char>, i: int) -> Parsed<DirectiveView> {
    map_value(line_value(s, i), |value: Seq<char>| DirectiveView::Module(value))
}

/// What follows the keyword `go`, which ends at `i`.
pub open spec fn go_body(s: Seq<char>, i: int) -> Parsed<DirectiveView> {
    map_value(line_value(s, i), |value: Seq<char>| DirectiveView::Go(value))
}

/// What follows the keyword `toolchain`, which ends at `i`.
pub open spec fn toolchain_body(s: Seq<char>, i: int) -> Parsed<DirectiveView> {
    map_value(line_value(s, i), |value: Seq<char>| DirectiveView::Toolchain(value))
}

/// What follows the keyword `tool`, which ends at `i`: a list of one path.
pub open spec fn tool_body(s: Seq<char>, i: int) -> Parsed<DirectiveView> {
    map_value(line_value(s, i), |value: Seq<char>| DirectiveView::Tool(seq![value]))
}

/// What follows the keyword `godebug`, which ends at `i`: the settings
/// that are listed, merged by key, so that each key stands once, where it
/// stood first and with the value that was given last.
pub open spec fn godebug_body(s: Seq<char>, i: int) -> Parsed<DirectiveView> {
    map_value(
        listing::<(String, String)>(s, i),
        |settings: Seq<Setting>| DirectiveView::GoDebug(merge(Seq::empty(), settings)),
    )
}

/// What follows the keyword `require`, which ends at `i`.
pub open spec fn require_body(s: Seq<char>, i: int) -> Parsed<DirectiveView> {
    map_value(
        listing::<ModuleDependency>(s, i),
        |list: Seq<ModuleDependencyView>| DirectiveView::Require(list),
    )
}

/// What follows the keyword `exclude`, which ends at `i`; the entries are
/// read as those of `require`, mark included.
pub open spec fn exclude_body(s: Seq<char>, i: int) -> Parsed<DirectiveView> {
    map_value(
        listing::<ModuleDependency>(s, i),
        |list: Seq<ModuleDependencyView>| DirectiveView::Exclude(list),
    )
}

/// What follows the keyword `replace`, which ends at `i`.
pub open spec fn replace_body(s: Seq<char>, i: int) -> Parsed<DirectiveView> {
    map_value(
        listing::<ModuleReplacement>(s, i),
        |list: Seq<ModuleReplacementView>| DirectiveView::Replace(list),
    )
}

/// What follows the keyword `retract`, which ends at `i`.
pub open spec fn retract_body(s: Seq<char>, i: int) -> Parsed<DirectiveView> {
    map_value(
        listing::<ModuleRetract>(s, i),
        |list: Seq<ModuleRetractView>| DirectiveView::Retract(list),
    )
}

/// The `module` directive at `i`: the keyword, blanks, the path.
pub open spec fn module(s: Seq<char>, i: int) -> Parsed<DirectiveView> {
    behind_keyword(s, i, "module"@, |end: int| module_body(s, end))
}

/// The `go` directive at `i`: the keyword, blanks, the version.
pub open spec fn go(s: Seq<char>, i: int) -> Parsed<DirectiveView> {
    behind_keyword(s, i, "go"@, |end: int| go_body(s, end))
}

/// The `toolchain` directive at `i`: the keyword, blanks, the version.
pub open spec fn toolchain(s: Seq<char>, i: int) -> Parsed<DirectiveView> {
    behind_keyword(s, i, "toolchain"@, |end: int| toolchain_body(s, end))
}

/// The `tool` directive at `i`: the keyword, blanks, the path.
pub open spec fn tool(s: Seq<char>, i: int) -> Parsed<DirectiveView> {
    behind_keyword(s, i, "tool"@, |end: int| tool_body(s, end))
}

/// The `godebug` directive at `i`: the keyword and its settings, single
/// or in a block.
pub open spec fn godebug(s: Seq<char>, i: int) -> Parsed<DirectiveView> {
    behind_keyword(s, i, "godebug"@, |end: int| godebug_body(s, end))
}

/// The `require` directive at `i`: the keyword and its entries.
pub open spec fn require(s: Seq<char>, i: int) -> Parsed<DirectiveView> {
    behind_keyword(s, i, "require"@, |end: int| require_body(s, end))
}

/// The `exclude` directive at `i`: the keyword and its entries.
pub open spec fn exclude(s: Seq<char>, i: int) -> Parsed<DirectiveView> {
    behind_keyword(s, i, "exclude"@, |end: int| exclude_body(s, end))
}

/// The `replace` directive at `i`: the keyword and its entries.
pub open spec fn replace(s: Seq<char>, i: int) -> Parsed<DirectiveView> {
    behind_keyword(s, i, "replace"@, |end: int| replace_body(s, end))
}

/// The `retract` directive at `i`: the keyword and its entries.
pub open spec fn retract(s: Seq<char>, i: int) -> Parsed<DirectiveView> {
    behind_keyword(s, i, "retract"@, |end: int| retract_body(s, end))
}

/// Whether `word` is one of the nine keywords.
pub open spec fn is_keyword(word: Seq<char>) -> bool {
    ||| word == "module"@
    ||| word == "go"@
    ||| word == "godebug"@
    ||| word == "tool"@
    ||| word == "toolchain"@
    ||| word == "require"@
    ||| word == "exclude"@
    ||| word == "replace"@
    ||| word == "retract"@
}

/// One directive at `i`: line terminators before it are skipped; then
/// comes a comment where the marker stands, else what the first word asks
/// for. A first word that is no keyword is a failure of its own kind, at
/// the place of the word.
#[verifier::opaque]
pub open spec fn directive(s: Seq<char>, i: int) -> Parsed<DirectiveView> {
    let start = skip_line_breaks(s, i);
    let end = word_end(s, start);
    let word = s.subrange(start, end);
    if has_prefix_at(s, start, "//"@) {
        Ok((DirectiveView::Comment(comment_body(s, start).0), comment_body(s, start).1))
    } else if end <= start {
        Err(unrecognized(start))
    } else if word == "module"@ {
        module(s, start)
    } else if word == "go"@ {
        go(s, start)
    } else if word == "godebug"@ {
        godebug(s, start)
    } else if word == "tool"@ {
        tool(s, start)
    } else if word == "toolchain"@ {
        toolchain(s, start)
    } else if word == "require"@ {
        require(s, start)
    } else if word == "exclude"@ {
        exclude(s, start)
    } else if word == "replace"@ {
        replace(s, start)
    } else if word == "retract"@ {
        retract(s, start)
    } else {
        Err(unrecognized(start))
    }
}

/// The directives from `i` to the end of the text, in the order of the
/// text. All whitespace before a directive is skipped here, blanks as well as
/// line terminators: a line that holds blanks only counts as a blank line,
/// and a directive or a comment may be indented. This is meant. The first
/// failure is the failure of the whole.
pub open spec fn directives(s: Seq<char>, i: int) -> Result<Seq<DirectiveView>, Failure>
    decreases s.len() - i,
{
    let start = skip_whitespace(s, i);
    if start >= s.len() {
        Ok(Seq::empty())
    } else {
        match directive(s, start) {
            Err(failure) => Err(failure),
            Ok((first, next)) => {
                proof {
                    lemma_span_while(s, i, WHITESPACES@);
                    lemma_directive_bounds(s, start);
                }
                match directives(s, next) {
                    Err(failure) => Err(failure),
                    Ok(rest) => Ok(seq![first] + rest),
                }
            },
        }
    }
}

/// The directives of a whole manifest. The empty text is a manifest
/// without directives.
pub open spec fn manifest(s: Seq<char>) -> Result<Seq<DirectiveView>, Failure> {
    directives(s, 0)
}

/// A comment ends after its marker and inside the text.
pub proof fn lemma_comment_bounds(s: Seq<char>, i: int)
    ensures
        has_prefix_at(s, i, "//"@) ==> i + 2 <= comment_body(s, i).1 <= s.len(),
        comment(s, i) matches Some((_, next)) ==> 0 <= i < next <= s.len(),
{
    reveal_strlit("//");
    lemma_span_while(s, i, BLANKS@);
    let marker = skip_blanks(s, i);
    if has_prefix_at(s, i, "//"@) {
        let text = if is_blank(s[i + 2]) && i + 2 < s.len() {
            i + 3
        } else {
            i + 2
        };
        lemma_span_until(s, text, CRLF@);
        lemma_span_while(s, line_end(s, text), CRLF@);
    }
    if has_prefix_at(s, marker, "//"@) {
        let text = if is_blank(s[marker + 2]) && marker + 2 < s.len() {
            marker + 3
        } else {
            marker + 2
        };
        lemma_span_until(s, text, CRLF@);
        lemma_span_while(s, line_end(s, text), CRLF@);
    }
}

/// A line value ends after its first character and inside the text, and
/// is not empty.
pub proof fn lemma_line_value_bounds(s: Seq<char>, i: int)
    ensures
        line_value(s, i) matches Ok((value, next)) ==> 0 <= i < next <= s.len() && value.len()
            > 0,
{
    lemma_span_while(s, i, BLANKS@);
    lemma_span_until(s, skip_blanks(s, i), CRLF@);
    lemma_span_while(s, line_end(s, skip_blanks(s, i)), CRLF@);
}

/// A setting ends after its first character and inside the text; neither
/// its key nor its value is empty.
pub proof fn lemma_setting_bounds(s: Seq<char>, i: int)
    ensures
        setting(s, i) matches Ok((value, end)) ==> 0 <= i < end <= s.len() && value.0.len() > 0
            && value.1.len() > 0,
{
    lemma_span_until(s, i, KEY_END@);
    lemma_span_until(s, span_until(s, i, KEY_END@) + 1, WHITESPACES@);
}

/// A dependency ends after its first character and inside the text, and
/// is well formed.
pub proof fn lemma_dependency_bounds(s: Seq<char>, i: int)
    ensures
        dependency(s, i) matches Ok((value, end)) ==> 0 <= i < end <= s.len()
            && value.well_formed(),
{
    let path_end = word_end(s, i);
    let version = skip_blanks(s, path_end);
    let version_end = word_end(s, version);
    lemma_span_until(s, i, WHITESPACES@);
    lemma_span_while(s, path_end, BLANKS@);
    lemma_span_until(s, version, WHITESPACES@);
    lemma_comment_bounds(s, version_end);
}

/// The target of a replacement ends after its arrow and inside the text,
/// and is well formed.
pub proof fn lemma_replacement_target_bounds(s: Seq<char>, arrow: int)
    ensures
        replacement_target(s, arrow) matches Ok((value, end)) ==> arrow + 2 < end && (0 <= arrow
            ==> end <= s.len() && value.well_formed()),
{
    let path = skip_blanks(s, arrow + 2);
    let path_end = word_end(s, path);
    let version = skip_blanks(s, path_end);
    lemma_span_while(s, arrow + 2, BLANKS@);
    lemma_span_until(s, path, WHITESPACES@);
    lemma_span_while(s, path_end, BLANKS@);
    lemma_span_until(s, version, WHITESPACES@);
}

/// A replacement ends after its first character and inside the text, and
/// is well formed.
pub proof fn lemma_replacement_bounds(s: Seq<char>, i: int)
    ensures
        replacement(s, i) matches Ok((value, end)) ==> 0 <= i < end <= s.len()
            && value.well_formed(),
{
    let path_end = word_end(s, i);
    let second = skip_blanks(s, path_end);
    let version_end = word_end(s, second);
    let arrow = skip_blanks(s, version_end);
    lemma_span_until(s, i, WHITESPACES@);
    lemma_span_while(s, path_end, BLANKS@);
    lemma_span_until(s, second, WHITESPACES@);
    lemma_span_while(s, version_end, BLANKS@);
    lemma_replacement_target_bounds(s, second);
    lemma_replacement_target_bounds(s, arrow);
}

/// A retraction ends after its first character and inside the text, and
/// is well formed.
pub proof fn lemma_retraction_bounds(s: Seq<char>, i: int)
    ensures
        retraction(s, i) matches Ok((value, end)) ==> 0 <= i < end <= s.len()
            && value.well_formed(),
{
    let lower_end = span_until(s, i + 1, LOWER_END@);
    let upper = skip_blanks(s, lower_end + 1);
    let upper_end = span_until(s, upper, UPPER_END@);
    lemma_span_until(s, i + 1, LOWER_END@);
    lemma_span_while(s, lower_end + 1, BLANKS@);
    lemma_span_until(s, upper, UPPER_END@);
    lemma_span_until(s, i, WHITESPACES@);
    lemma_comment_bounds(s, upper_end + 1);
    lemma_comment_bounds(s, word_end(s, i));
}

/// Whether a list holds an entry, and well-formed entries only.
pub open spec fn all_well_formed<E: Entry>(list: Seq<E::V>) -> bool {
    list.len() > 0 && forall|k: int| 0 <= k < list.len() ==> E::well_formed(#[trigger] list[k])
}

/// The entries of a block end after the first of them and inside the text,
/// and are well formed.
pub proof fn lemma_entries_bounds<E: Entry>(s: Seq<char>, i: int)
    ensures
        entries::<E>(s, i) matches Ok((list, after)) ==> 0 <= i < after <= s.len()
            && all_well_formed::<E>(list),
    decreases s.len() - i,
{
    E::lemma_entry_bounds(s, i);
    if let Ok((first, end)) = E::entry(s, i) {
        let next = skip_whitespace(s, end);
        lemma_span_while(s, end, WHITESPACES@);
        if next < s.len() {
            if s[next] == ')' {
                lemma_span_while(s, next + 1, WHITESPACES@);
            } else {
                lemma_entries_bounds::<E>(s, next);
            }
        }
    }
}

/// A listing ends after its first character and inside the text, and
/// holds at least one entry, and well-formed entries only.
pub proof fn lemma_listing_bounds<E: Entry>(s: Seq<char>, i: int)
    ensures
        listing::<E>(s, i) matches Ok((list, next)) ==> 0 <= i < next <= s.len()
            && all_well_formed::<E>(list),
{
    let start = skip_blanks(s, i);
    lemma_span_while(s, i, BLANKS@);
    if start != i {
        if char_at(s, start, '(') {
            lemma_span_while(s, start + 1, BLANKS@);
            lemma_span_while(s, skip_blanks(s, start + 1), WHITESPACES@);
            lemma_entries_bounds::<E>(s, skip_whitespace(s, skip_blanks(s, start + 1)));
        } else {
            E::lemma_entry_bounds(s, start);
            if let Ok((only, end)) = E::entry(s, start) {
                lemma_span_while(s, end, CRLF@);
            }
        }
    }
}

impl DirectiveView {
    /// The directive that lists what this directive and `other` list, one
    /// behind the other, where both are of one kind and of a kind that
    /// lists. Settings are merged by key.
    pub open spec fn joined(self, other: DirectiveView) -> Option<DirectiveView> {
        match (self, other) {
            (DirectiveView::GoDebug(a), DirectiveView::GoDebug(b)) => Some(
                DirectiveView::GoDebug(merge(a, b)),
            ),
            (DirectiveView::Tool(a), DirectiveView::Tool(b)) => Some(DirectiveView::Tool(a + b)),
            (DirectiveView::Require(a), DirectiveView::Require(b)) => Some(
                DirectiveView::Require(a + b),
            ),
            (DirectiveView::Exclude(a), DirectiveView::Exclude(b)) => Some(
                DirectiveView::Exclude(a + b),
            ),
            (DirectiveView::Replace(a), DirectiveView::Replace(b)) => Some(
                DirectiveView::Replace(a + b),
            ),
            (DirectiveView::Retract(a), DirectiveView::Retract(b)) => Some(
                DirectiveView::Retract(a + b),
            ),
            _ => None,
        }
    }

    /// What holds of every directive that was read: no value but the text
    /// of a comment is empty, a list holds an entry, every entry is well
    /// formed, and no key of a setting stands twice.
    pub open spec fn well_formed(self) -> bool {
        match self {
            DirectiveView::Comment(_) => true,
            DirectiveView::Module(path) => path.len() > 0,
            DirectiveView::Go(version) => version.len() > 0,
            DirectiveView::GoDebug(settings) => all_well_formed::<(String, String)>(settings)
                && distinct_keys(settings),
            DirectiveView::Tool(paths) => paths.len() == 1 && paths[0].len() > 0,
            DirectiveView::Toolchain(version) => version.len() > 0,
            DirectiveView::Require(list) => all_well_formed::<ModuleDependency>(list),
            DirectiveView::Exclude(list) => all_well_formed::<ModuleDependency>(list),
            DirectiveView::Replace(list) => all_well_formed::<ModuleReplacement>(list),
            DirectiveView::Retract(list) => all_well_formed::<ModuleRetract>(list),
        }
    }
}

/// The settings of a `godebug` directive are well formed and hold each key
/// once.
pub proof fn lemma_godebug_body_bounds(s: Seq<char>, i: int)
    ensures
        godebug_body(s, i) matches Ok((value, next)) ==> 0 <= i < next <= s.len()
            && value.well_formed(),
{
    lemma_listing_bounds::<(String, String)>(s, i);
    if let Ok((list, next)) = listing::<(String, String)>(s, i) {
        let merged = merge(Seq::empty(), list);
        assert(all_filled(list)) by {
            assert forall|k: int| 0 <= k < list.len() implies (#[trigger] list[k]).0.len() > 0
                && list[k].1.len() > 0 by {
                assert(<(String, String) as Entry>::well_formed(list[k]));
            }
        }
        lemma_merge_filled(Seq::empty(), list);
        lemma_merge_inserts(Seq::empty(), list);
        lemma_merge_keys(Seq::empty(), list);
        assert(has_key(merged, list[0].0));
        assert forall|k: int|
            0 <= k < merged.len() implies <(String, String) as Entry>::well_formed(
            #[trigger] merged[k],
        ) by {}
    }
}

/// A directive ends after its first character and inside the text, and is
/// well formed.
pub proof fn lemma_directive_bounds(s: Seq<char>, i: int)
    ensures
        directive(s, i) matches Ok((value, next)) ==> 0 <= i < next <= s.len()
            && value.well_formed(),
{
    reveal(directive);
    lemma_span_while(s, i, CRLF@);
    let start = skip_line_breaks(s, i);
    let end = word_end(s, start);
    lemma_comment_bounds(s, start);
    lemma_span_until(s, start, WHITESPACES@);
    lemma_line_value_bounds(s, end);
    lemma_godebug_body_bounds(s, end);
    lemma_listing_bounds::<ModuleDependency>(s, end);
    lemma_listing_bounds::<ModuleReplacement>(s, end);
    lemma_listing_bounds::<ModuleRetract>(s, end);
}

/// The directives of a text are its first directive and the directives
/// behind it.
pub proof fn lemma_directives_step(
    t: Seq<char>,
    i: int,
    first: DirectiveView,
    next: int,
    rest: Seq<DirectiveView>,
)
    requires
        skip_whitespace(t, i) < t.len(),
        directive(t, skip_whitespace(t, i)) == Ok::<(DirectiveView, int), Failure>((first, next)),
        directives(t, next) == Ok::<Seq<DirectiveView>, Failure>(rest),
    ensures
        directives(t, i) == Ok::<Seq<DirectiveView>, Failure>(seq![first] + rest),
{
}

/// Where only whitespace is left, no directive is left.
pub proof fn lemma_directives_end(t: Seq<char>, i: int)
    requires
        skip_whitespace(t, i) >= t.len(),
    ensures
        directives(t, i) == Ok::<Seq<DirectiveView>, Failure>(Seq::empty()),
{
}

/// A line that starts with neither a keyword nor a comment is not skipped:
/// it fails the directives from `i` on, for the unrecognized keyword and at
/// the place of the word.
pub proof fn lemma_unrecognized_keyword(s: Seq<char>, i: int)
    requires
        skip_whitespace(s, i) < s.len(),
        !has_prefix_at(s, skip_whitespace(s, i), "//"@),
        !is_keyword(s.subrange(skip_whitespace(s, i), word_end(s, skip_whitespace(s, i)))),
    ensures
        directives(s, i) == Err::<Seq<DirectiveView>, Failure>(
            unrecognized(skip_whitespace(s, i)),
        ),
{
    reveal(directive);
    lemma_char_sets();
    lemma_span_while(s, i, WHITESPACES@);
    assert(skip_line_breaks(s, skip_whitespace(s, i)) == skip_whitespace(s, i));
}

/// The first failure is the failure of the whole: where a directive
/// fails, or the directives behind it fail, the directives from `i` on fail
/// in the same way.
pub proof fn lemma_failure_is_fatal(s: Seq<char>, i: int)
    requires
        skip_whitespace(s, i) < s.len(),
    ensures
        match directive(s, skip_whitespace(s, i)) {
            Err(failure) => directives(s, i) == Err::<Seq<DirectiveView>, Failure>(failure),
            Ok((_, next)) => directives(s, next) matches Err(failure) ==> directives(s, i)
                == Err::<Seq<DirectiveView>, Failure>(failure),
        },
{
}

/// Every directive of a manifest is well formed.
pub proof fn lemma_directives_well_formed(s: Seq<char>, i: int)
    ensures
        directives(s, i) matches Ok(list) ==> forall|k: int|
            0 <= k < list.len() ==> (#[trigger] list[k]).well_formed(),
    decreases s.len() - i,
{
    let start = skip_whitespace(s, i);
    lemma_span_while(s, i, WHITESPACES@);
    if start < s.len() {
        lemma_directive_bounds(s, start);
        if let Ok((first, next)) = directive(s, start) {
            lemma_directives_well_formed(s, next);
        }
    }
}

} // verus!
