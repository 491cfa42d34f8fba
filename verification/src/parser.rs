//! The parser: executable functions that read a manifest as
//! [`crate::grammar`] states it.
//!
//! Every function takes the text and the position at which what it reads
//! starts: a directive starts at its keyword, a block at its parenthesis,
//! a range at its bracket. It returns a value with the position after it.
//! A position past the end of the text is accepted everywhere and reads as
//! the end.

use vstd::prelude::*;
use vstd::string::*;
use crate::combinator::{
    char_is, has_prefix_at, lemma_char_sets, member, not_whitespace, tag, take_till,
    take_while, BLANKS, CRLF, KEY_END, LOWER_END, UPPER_END, WHITESPACES,
};
use crate::error::{ErrorKind, ParseError};
use crate::grammar;
use crate::grammar::{agrees, DirectiveView, Entry};
use crate::settings::merge_settings;
use crate::source::Source;
use crate::{Module, ModuleDependency, ModuleReplacement, ModuleRetract, Replacement};

verus! {

/// One directive of a manifest, with what it holds. The settings of a
/// `godebug` directive that was read hold each key once, with the value
/// that was given last.
#[derive(Debug, PartialEq, Eq)]
pub enum Directive {
    Comment(String),
    Module(String),
    Go(String),
    GoDebug(Vec<(String, String)>),
    Tool(Vec<String>),
    Toolchain(String),
    Require(Vec<ModuleDependency>),
    Exclude(Vec<ModuleDependency>),
    Replace(Vec<ModuleReplacement>),
    Retract(Vec<ModuleRetract>),
}

impl DeepView for Directive {
    type V = DirectiveView;

    open spec fn deep_view(&self) -> DirectiveView {
        match self {
            Directive::Comment(text) => DirectiveView::Comment(text@),
            Directive::Module(path) => DirectiveView::Module(path@),
            Directive::Go(version) => DirectiveView::Go(version@),
            Directive::GoDebug(settings) => DirectiveView::GoDebug(settings.deep_view()),
            Directive::Tool(paths) => DirectiveView::Tool(paths.deep_view()),
            Directive::Toolchain(version) => DirectiveView::Toolchain(version@),
            Directive::Require(list) => DirectiveView::Require(list.deep_view()),
            Directive::Exclude(list) => DirectiveView::Exclude(list.deep_view()),
            Directive::Replace(list) => DirectiveView::Replace(list.deep_view()),
            Directive::Retract(list) => DirectiveView::Retract(list.deep_view()),
        }
    }
}

impl View for Directive {
    type V = DirectiveView;

    open spec fn view(&self) -> DirectiveView {
        self.deep_view()
    }
}

fn malformed(offset: usize) -> (error: ParseError)
    ensures
        error@ == grammar::malformed(offset as int),
{
    ParseError { kind: ErrorKind::MalformedEntry, offset }
}

fn unterminated(offset: usize) -> (error: ParseError)
    ensures
        error@ == grammar::unterminated(offset as int),
{
    ParseError { kind: ErrorKind::UnterminatedBlock, offset }
}

fn unrecognized(offset: usize) -> (error: ParseError)
    ensures
        error@ == grammar::unrecognized(offset as int),
{
    ParseError { kind: ErrorKind::UnrecognizedKeyword, offset }
}

/// A list of one item.
fn single<T: DeepView>(item: T) -> (list: Vec<T>)
    ensures
        list.deep_view() == seq![item.deep_view()],
{
    let mut list: Vec<T> = Vec::new();
    list.push(item);
    assert(list.deep_view() =~= seq![item.deep_view()]);
    list
}

/// Whether the characters from `from` to `to` spell `keyword`.
fn word_is(chars: &[char], from: usize, to: usize, keyword: &str) -> (same: bool)
    requires
        from <= to <= chars@.len(),
    ensures
        same == (chars@.subrange(from as int, to as int) == keyword@),
{
    tag(chars, from, keyword) && keyword.unicode_len() == to - from
}

/// The end of the keyword `keyword` where it stands at `pos` as a word of
/// its own.
fn keyword(chars: &[char], pos: usize, word: &str) -> (end: Option<usize>)
    ensures
        match end {
            Some(end) => grammar::keyword_end(chars@, pos as int, word@) == Some(end as int)
                && pos < end <= chars@.len(),
            None => grammar::keyword_end(chars@, pos as int, word@) is None,
        },
{
    match not_whitespace(chars, pos) {
        Some(end) => if word_is(chars, pos, end, word) {
            Some(end)
        } else {
            None
        },
        None => None,
    }
}

/// Reads the comment whose marker stands at `marker`.
fn comment_body(src: &Source, marker: usize) -> (r: (String, usize))
    requires
        has_prefix_at(src@, marker as int, "//"@),
    ensures
        r.0@ == grammar::comment_body(src@, marker as int).0,
        r.1 == grammar::comment_body(src@, marker as int).1,
{
    proof {
        reveal_strlit("//");
        lemma_char_sets();
    }
    let chars = src.chars();
    let len = chars.len();
    let text = if marker + 2 < len && member(&BLANKS, chars[marker + 2]) {
        marker + 3
    } else {
        marker + 2
    };
    let end = take_till(chars, text, &CRLF);
    let next = take_while(chars, end, &CRLF);
    (src.slice(text, end), next)
}

/// Reads a comment on the rest of the line at `pos`: its text, and the
/// position after the line. `None`, where the rest of the line is no
/// comment.
pub fn comment(src: &Source, pos: usize) -> (r: Option<(String, usize)>)
    ensures
        match r {
            Some((text, next)) => grammar::comment(src@, pos as int) == Some(
                (text@, next as int),
            ),
            None => grammar::comment(src@, pos as int) is None,
        },
{
    let marker = take_while(src.chars(), pos, &BLANKS);
    if tag(src.chars(), marker, "//") {
        let (text, next) = comment_body(src, marker);
        Some((text, next))
    } else {
        None
    }
}

/// Reads the value of a one-line directive whose keyword ends at `pos`.
pub fn line_value(src: &Source, pos: usize) -> (r: Result<(String, usize), ParseError>)
    ensures
        agrees(r, grammar::line_value(src@, pos as int)),
{
    let chars = src.chars();
    let start = take_while(chars, pos, &BLANKS);
    if start == pos {
        return Err(malformed(pos));
    }
    let end = take_till(chars, start, &CRLF);
    if end == start {
        return Err(malformed(start));
    }
    let next = take_while(chars, end, &CRLF);
    Ok((src.slice(start, end), next))
}

/// Reads the `module` directive at `pos`, keyword first.
pub fn module(src: &Source, pos: usize) -> (r: Result<(Directive, usize), ParseError>)
    ensures
        agrees(r, grammar::module(src@, pos as int)),
{
    let end = match keyword(src.chars(), pos, "module") {
        Some(end) => end,
        None => {
            return Err(unrecognized(pos));
        },
    };
    match line_value(src, end) {
        Ok((value, next)) => Ok((Directive::Module(value), next)),
        Err(error) => Err(error),
    }
}

/// Reads the `go` directive at `pos`, keyword first.
pub fn go(src: &Source, pos: usize) -> (r: Result<(Directive, usize), ParseError>)
    ensures
        agrees(r, grammar::go(src@, pos as int)),
{
    let end = match keyword(src.chars(), pos, "go") {
        Some(end) => end,
        None => {
            return Err(unrecognized(pos));
        },
    };
    match line_value(src, end) {
        Ok((value, next)) => Ok((Directive::Go(value), next)),
        Err(error) => Err(error),
    }
}

/// Reads the `toolchain` directive at `pos`, keyword first.
pub fn toolchain(src: &Source, pos: usize) -> (r: Result<(Directive, usize), ParseError>)
    ensures
        agrees(r, grammar::toolchain(src@, pos as int)),
{
    let end = match keyword(src.chars(), pos, "toolchain") {
        Some(end) => end,
        None => {
            return Err(unrecognized(pos));
        },
    };
    match line_value(src, end) {
        Ok((value, next)) => Ok((Directive::Toolchain(value), next)),
        Err(error) => Err(error),
    }
}

/// Reads the `tool` directive at `pos`, keyword first.
pub fn tool(src: &Source, pos: usize) -> (r: Result<(Directive, usize), ParseError>)
    ensures
        agrees(r, grammar::tool(src@, pos as int)),
{
    let end = match keyword(src.chars(), pos, "tool") {
        Some(end) => end,
        None => {
            return Err(unrecognized(pos));
        },
    };
    match line_value(src, end) {
        Ok((path, next)) => {
            let paths = single(path);
            Ok((Directive::Tool(paths), next))
        },
        Err(error) => Err(error),
    }
}

/// Reads one `godebug` setting at `pos`.
pub fn godebug_single(src: &Source, pos: usize) -> (r: Result<
    ((String, String), usize),
    ParseError,
>)
    ensures
        agrees(r, grammar::setting(src@, pos as int)),
{
    let chars = src.chars();
    if pos >= chars.len() || chars[pos] == ')' {
        return Err(malformed(pos));
    }
    let key_end = take_till(chars, pos, &KEY_END);
    if key_end == pos {
        return Err(malformed(pos));
    }
    if key_end >= chars.len() {
        return Err(malformed(key_end));
    }
    let value_end = take_till(chars, key_end + 1, &WHITESPACES);
    if value_end == key_end + 1 {
        return Err(malformed(key_end + 1));
    }
    Ok(((src.slice(pos, key_end), src.slice(key_end + 1, value_end)), value_end))
}

/// Reads one entry of `require` or `exclude` at `pos`.
pub fn require_single(src: &Source, pos: usize) -> (r: Result<
    (ModuleDependency, usize),
    ParseError,
>)
    ensures
        agrees(r, grammar::dependency(src@, pos as int)),
{
    let chars = src.chars();
    if pos >= chars.len() || chars[pos] == ')' {
        return Err(malformed(pos));
    }
    let path_end = take_till(chars, pos, &WHITESPACES);
    if path_end == pos {
        return Err(malformed(pos));
    }
    let version = take_while(chars, path_end, &BLANKS);
    if version == path_end {
        return Err(malformed(path_end));
    }
    let version_end = take_till(chars, version, &WHITESPACES);
    if version_end == version {
        return Err(malformed(version));
    }
    let module = Module {
        path: src.slice(pos, path_end),
        version: src.slice(version, version_end),
    };
    match comment(src, version_end) {
        Some((text, next)) => {
            let indirect = text == "indirect".to_owned();
            Ok((ModuleDependency { module, indirect }, next))
        },
        None => Ok((ModuleDependency { module, indirect: false }, version_end)),
    }
}

/// Reads what stands after the arrow of a replacement, the arrow being at
/// `arrow`.
fn replacement_target(src: &Source, arrow: usize) -> (r: Result<(Replacement, usize), ParseError>)
    requires
        has_prefix_at(src@, arrow as int, "=>"@),
    ensures
        agrees(r, grammar::replacement_target(src@, arrow as int)),
{
    proof {
        reveal_strlit("=>");
    }
    let chars = src.chars();
    let len = chars.len();
    let path = take_while(chars, arrow + 2, &BLANKS);
    if path == arrow + 2 {
        return Err(malformed(arrow + 2));
    }
    let path_end = take_till(chars, path, &WHITESPACES);
    if path_end == path {
        return Err(malformed(path));
    }
    let version = take_while(chars, path_end, &BLANKS);
    let version_end = take_till(chars, version, &WHITESPACES);
    if version_end > version {
        let module = Module {
            path: src.slice(path, path_end),
            version: src.slice(version, version_end),
        };
        Ok((Replacement::Module(module), version_end))
    } else {
        Ok((Replacement::FilePath(src.slice(path, path_end)), path_end))
    }
}

/// Reads one entry of `replace` at `pos`.
pub fn replace_single(src: &Source, pos: usize) -> (r: Result<
    (ModuleReplacement, usize),
    ParseError,
>)
    ensures
        agrees(r, grammar::replacement(src@, pos as int)),
{
    let chars = src.chars();
    if pos >= chars.len() || chars[pos] == ')' {
        return Err(malformed(pos));
    }
    let path_end = take_till(chars, pos, &WHITESPACES);
    if path_end == pos {
        return Err(malformed(pos));
    }
    let second = take_while(chars, path_end, &BLANKS);
    if second == path_end {
        return Err(malformed(path_end));
    }
    let version_end = take_till(chars, second, &WHITESPACES);
    if word_is(chars, second, version_end, "=>") {
        return match replacement_target(src, second) {
            Ok((replacement, end)) => Ok(
                (
                    ModuleReplacement {
                        path: src.slice(pos, path_end),
                        version: None,
                        replacement,
                    },
                    end,
                ),
            ),
            Err(error) => Err(error),
        };
    }
    if version_end == second {
        return Err(malformed(second));
    }
    let arrow = take_while(chars, version_end, &BLANKS);
    if arrow == version_end {
        return Err(malformed(version_end));
    }
    let arrow_end = take_till(chars, arrow, &WHITESPACES);
    if !word_is(chars, arrow, arrow_end, "=>") {
        return Err(malformed(arrow));
    }
    match replacement_target(src, arrow) {
        Ok((replacement, end)) => Ok(
            (
                ModuleReplacement {
                    path: src.slice(pos, path_end),
                    version: Some(src.slice(second, version_end)),
                    replacement,
                },
                end,
            ),
        ),
        Err(error) => Err(error),
    }
}

/// Reads the retracted range at `pos`, bracket first.
pub fn version_range(src: &Source, pos: usize) -> (r: Result<(ModuleRetract, usize), ParseError>)
    ensures
        agrees(r, grammar::version_range(src@, pos as int)),
{
    let chars = src.chars();
    let len = chars.len();
    if !char_is(chars, pos, '[') {
        return Err(malformed(pos));
    }
    let lower_end = take_till(chars, pos + 1, &LOWER_END);
    if lower_end == pos + 1 {
        return Err(malformed(pos + 1));
    }
    if !char_is(chars, lower_end, ',') {
        return Err(malformed(lower_end));
    }
    let upper = take_while(chars, lower_end + 1, &BLANKS);
    let upper_end = take_till(chars, upper, &UPPER_END);
    if upper_end == upper {
        return Err(malformed(upper));
    }
    if !char_is(chars, upper_end, ']') {
        return Err(malformed(upper_end));
    }
    Ok(
        (
            ModuleRetract::Range(src.slice(pos + 1, lower_end), src.slice(upper, upper_end)),
            upper_end + 1,
        ),
    )
}

/// Reads the single retracted version at `pos`.
pub fn version_single(src: &Source, pos: usize) -> (r: Result<(ModuleRetract, usize), ParseError>)
    ensures
        agrees(r, grammar::version_single(src@, pos as int)),
{
    let end = take_till(src.chars(), pos, &WHITESPACES);
    if end == pos {
        return Err(malformed(pos));
    }
    Ok((ModuleRetract::Single(src.slice(pos, end)), end))
}

/// Reads one entry of `retract` at `pos`.
pub fn retract_single(src: &Source, pos: usize) -> (r: Result<(ModuleRetract, usize), ParseError>)
    ensures
        agrees(r, grammar::retraction(src@, pos as int)),
{
    let chars = src.chars();
    if pos >= chars.len() || chars[pos] == ')' {
        return Err(malformed(pos));
    }
    let version = if chars[pos] == '[' {
        version_range(src, pos)
    } else {
        version_single(src, pos)
    };
    match version {
        Err(error) => Err(error),
        Ok((retract, end)) => match comment(src, end) {
            Some((_, next)) => Ok((retract, next)),
            None => Ok((retract, end)),
        },
    }
}

impl Entry for (String, String) {
    open spec fn entry(s: Seq<char>, i: int) -> grammar::Parsed<crate::Setting> {
        grammar::setting(s, i)
    }

    open spec fn well_formed(value: crate::Setting) -> bool {
        value.0.len() > 0 && value.1.len() > 0
    }

    proof fn lemma_entry_bounds(s: Seq<char>, i: int) {
        grammar::lemma_setting_bounds(s, i);
    }

    fn parse(src: &Source, pos: usize) -> (r: Result<(Self, usize), ParseError>) {
        godebug_single(src, pos)
    }
}

impl Entry for ModuleDependency {
    open spec fn entry(s: Seq<char>, i: int) -> grammar::Parsed<crate::ModuleDependencyView> {
        grammar::dependency(s, i)
    }

    open spec fn well_formed(value: crate::ModuleDependencyView) -> bool {
        value.well_formed()
    }

    proof fn lemma_entry_bounds(s: Seq<char>, i: int) {
        grammar::lemma_dependency_bounds(s, i);
    }

    fn parse(src: &Source, pos: usize) -> (r: Result<(Self, usize), ParseError>) {
        require_single(src, pos)
    }
}

impl Entry for ModuleReplacement {
    open spec fn entry(s: Seq<char>, i: int) -> grammar::Parsed<crate::ModuleReplacementView> {
        grammar::replacement(s, i)
    }

    open spec fn well_formed(value: crate::ModuleReplacementView) -> bool {
        value.well_formed()
    }

    proof fn lemma_entry_bounds(s: Seq<char>, i: int) {
        grammar::lemma_replacement_bounds(s, i);
    }

    fn parse(src: &Source, pos: usize) -> (r: Result<(Self, usize), ParseError>) {
        replace_single(src, pos)
    }
}

impl Entry for ModuleRetract {
    open spec fn entry(s: Seq<char>, i: int) -> grammar::Parsed<crate::ModuleRetractView> {
        grammar::retraction(s, i)
    }

    open spec fn well_formed(value: crate::ModuleRetractView) -> bool {
        value.well_formed()
    }

    proof fn lemma_entry_bounds(s: Seq<char>, i: int) {
        grammar::lemma_retraction_bounds(s, i);
    }

    fn parse(src: &Source, pos: usize) -> (r: Result<(Self, usize), ParseError>) {
        retract_single(src, pos)
    }
}

/// Reads the block at `open`, parenthesis first: its entries, and the
/// position after the closing parenthesis and the whitespace behind it.
pub fn block<E: Entry>(src: &Source, open: usize) -> (r: Result<(Vec<E>, usize), ParseError>)
    ensures
        agrees(r, grammar::block::<E>(src@, open as int)),
{
    let chars = src.chars();
    let len = chars.len();
    if !char_is(chars, open, '(') {
        return Err(malformed(open));
    }
    let line_break = take_while(chars, open + 1, &BLANKS);
    let first = take_while(chars, line_break, &WHITESPACES);
    if first >= chars.len() {
        return Err(unterminated(chars.len()));
    }
    if !member(&CRLF, chars[line_break]) {
        return Err(malformed(open + 1));
    }
    let mut list: Vec<E> = Vec::new();
    let mut pos = first;
    loop
        invariant
            chars@ == src@,
            pos < chars@.len(),
            grammar::block::<E>(src@, open as int) == grammar::entries::<E>(src@, first as int),
            match grammar::entries::<E>(src@, pos as int) {
                Ok((rest, after)) => grammar::entries::<E>(src@, first as int) == Ok::<
                    (Seq<E::V>, int),
                    crate::error::Failure,
                >((list.deep_view() + rest, after)),
                Err(failure) => grammar::entries::<E>(src@, first as int) == Err::<
                    (Seq<E::V>, int),
                    crate::error::Failure,
                >(failure),
            },
        decreases chars@.len() - pos,
    {
        match E::parse(src, pos) {
            Err(error) => {
                return Err(error);
            },
            Ok((item, end)) => {
                proof {
                    E::lemma_entry_bounds(src@, pos as int);
                }
                let ghost before = list.deep_view();
                let ghost item_view = item.deep_view();
                list.push(item);
                assert(list.deep_view() =~= before.push(item_view));
                let next = take_while(chars, end, &WHITESPACES);
                if next >= chars.len() {
                    return Err(unterminated(chars.len()));
                }
                if chars[next] == ')' {
                    let after = take_while(chars, next + 1, &WHITESPACES);
                    assert(before + seq![item_view] =~= before.push(item_view));
                    return Ok((list, after));
                }
                proof {
                    if let Ok((rest, after)) = grammar::entries::<E>(src@, next as int) {
                        assert(before + (seq![item_view] + rest) =~= before.push(item_view)
                            + rest);
                    }
                }
                pos = next;
            },
        }
    }
}

/// Reads the entries of a directive whose keyword ends at `pos`, from a
/// single entry or from a block.
pub fn listing<E: Entry>(src: &Source, pos: usize) -> (r: Result<(Vec<E>, usize), ParseError>)
    ensures
        agrees(r, grammar::listing::<E>(src@, pos as int)),
{
    let chars = src.chars();
    let start = take_while(chars, pos, &BLANKS);
    if start == pos {
        return Err(malformed(pos));
    }
    if char_is(chars, start, '(') {
        return block::<E>(src, start);
    }
    match E::parse(src, start) {
        Err(error) => Err(error),
        Ok((only, end)) => {
            let next = take_while(chars, end, &CRLF);
            Ok((single(only), next))
        },
    }
}

/// Reads the `godebug` directive at `pos`, keyword first.
pub fn godebug(src: &Source, pos: usize) -> (r: Result<(Directive, usize), ParseError>)
    ensures
        agrees(r, grammar::godebug(src@, pos as int)),
{
    let end = match keyword(src.chars(), pos, "godebug") {
        Some(end) => end,
        None => {
            return Err(unrecognized(pos));
        },
    };
    match listing::<(String, String)>(src, end) {
        Ok((listed, next)) => {
            let mut settings: Vec<(String, String)> = Vec::new();
            assert(settings.deep_view() =~= Seq::<crate::Setting>::empty());
            merge_settings(&mut settings, listed);
            Ok((Directive::GoDebug(settings), next))
        },
        Err(error) => Err(error),
    }
}

/// Reads the `require` directive at `pos`, keyword first.
pub fn require(src: &Source, pos: usize) -> (r: Result<(Directive, usize), ParseError>)
    ensures
        agrees(r, grammar::require(src@, pos as int)),
{
    let end = match keyword(src.chars(), pos, "require") {
        Some(end) => end,
        None => {
            return Err(unrecognized(pos));
        },
    };
    match listing::<ModuleDependency>(src, end) {
        Ok((list, next)) => Ok((Directive::Require(list), next)),
        Err(error) => Err(error),
    }
}

/// Reads the `exclude` directive at `pos`, keyword first.
pub fn exclude(src: &Source, pos: usize) -> (r: Result<(Directive, usize), ParseError>)
    ensures
        agrees(r, grammar::exclude(src@, pos as int)),
{
    let end = match keyword(src.chars(), pos, "exclude") {
        Some(end) => end,
        None => {
            return Err(unrecognized(pos));
        },
    };
    match listing::<ModuleDependency>(src, end) {
        Ok((list, next)) => Ok((Directive::Exclude(list), next)),
        Err(error) => Err(error),
    }
}

/// Reads the `replace` directive at `pos`, keyword first.
pub fn replace(src: &Source, pos: usize) -> (r: Result<(Directive, usize), ParseError>)
    ensures
        agrees(r, grammar::replace(src@, pos as int)),
{
    let end = match keyword(src.chars(), pos, "replace") {
        Some(end) => end,
        None => {
            return Err(unrecognized(pos));
        },
    };
    match listing::<ModuleReplacement>(src, end) {
        Ok((list, next)) => Ok((Directive::Replace(list), next)),
        Err(error) => Err(error),
    }
}

/// Reads the `retract` directive at `pos`, keyword first.
pub fn retract(src: &Source, pos: usize) -> (r: Result<(Directive, usize), ParseError>)
    ensures
        agrees(r, grammar::retract(src@, pos as int)),
{
    let end = match keyword(src.chars(), pos, "retract") {
        Some(end) => end,
        None => {
            return Err(unrecognized(pos));
        },
    };
    match listing::<ModuleRetract>(src, end) {
        Ok((list, next)) => Ok((Directive::Retract(list), next)),
        Err(error) => Err(error),
    }
}

/// Reads the directive at `pos`: skips the line terminators before it,
/// then reads a comment, or what the first word asks for.
pub fn directive(src: &Source, pos: usize) -> (r: Result<(Directive, usize), ParseError>)
    ensures
        agrees(r, grammar::directive(src@, pos as int)),
{
    proof {
        reveal(grammar::directive);
    }
    let chars = src.chars();
    let start = take_while(chars, pos, &CRLF);
    if tag(chars, start, "//") {
        let (text, next) = comment_body(src, start);
        return Ok((Directive::Comment(text), next));
    }
    let end = match not_whitespace(chars, start) {
        Some(end) => end,
        None => {
            return Err(unrecognized(start));
        },
    };
    if word_is(chars, start, end, "module") {
        module(src, start)
    } else if word_is(chars, start, end, "go") {
        go(src, start)
    } else if word_is(chars, start, end, "godebug") {
        godebug(src, start)
    } else if word_is(chars, start, end, "tool") {
        tool(src, start)
    } else if word_is(chars, start, end, "toolchain") {
        toolchain(src, start)
    } else if word_is(chars, start, end, "require") {
        require(src, start)
    } else if word_is(chars, start, end, "exclude") {
        exclude(src, start)
    } else if word_is(chars, start, end, "replace") {
        replace(src, start)
    } else if word_is(chars, start, end, "retract") {
        retract(src, start)
    } else {
        Err(unrecognized(start))
    }
}

/// Reads a whole manifest: its directives in the order of the text, or
/// the first failure.
pub fn gomod(input: &str) -> (r: Result<Vec<Directive>, ParseError>)
    ensures
        match r {
            Ok(list) => grammar::manifest(input@) == Ok::<
                Seq<DirectiveView>,
                crate::error::Failure,
            >(list.deep_view()),
            Err(error) => grammar::manifest(input@) == Err::<
                Seq<DirectiveView>,
                crate::error::Failure,
            >(error@),
        },
{
    let src = Source::new(input);
    let chars = src.chars();
    let mut list: Vec<Directive> = Vec::new();
    let mut pos: usize = 0;
    loop
        invariant
            chars@ == src@,
            src@ == input@,
            pos <= chars@.len(),
            match grammar::directives(src@, pos as int) {
                Ok(rest) => grammar::manifest(src@) == Ok::<
                    Seq<DirectiveView>,
                    crate::error::Failure,
                >(list.deep_view() + rest),
                Err(failure) => grammar::manifest(src@) == Err::<
                    Seq<DirectiveView>,
                    crate::error::Failure,
                >(failure),
            },
        decreases chars@.len() - pos,
    {
        let start = take_while(chars, pos, &WHITESPACES);
        if start >= chars.len() {
            assert(list.deep_view() + Seq::<DirectiveView>::empty() =~= list.deep_view());
            return Ok(list);
        }
        match directive(&src, start) {
            Err(error) => {
                return Err(error);
            },
            Ok((item, next)) => {
                proof {
                    grammar::lemma_directive_bounds(src@, start as int);
                    if let Ok(rest) = grammar::directives(src@, next as int) {
                        assert(list.deep_view() + (seq![item.deep_view()] + rest)
                            =~= list.deep_view().push(item.deep_view()) + rest);
                    }
                }
                let ghost before = list.deep_view();
                let ghost item_view = item.deep_view();
                list.push(item);
                assert(list.deep_view() =~= before.push(item_view));
                pos = next;
            },
        }
    }
}

} // verus!
