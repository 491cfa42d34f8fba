//! A parser for Go module manifests (`go.mod` files).
//!
//! [`GoMod`] is the record that a manifest text parses to. Its directives
//! are read by the functions of [`parser`], which are proved to compute what
//! the specification functions of [`grammar`] state. A text parses as a
//! whole or not at all: the first failure is returned, with its kind and
//! the position of the character at which it was found.
//!
//! ```
//! use gomod_parser::GoMod;
//!
//! let go_mod: GoMod = "module example.com/hello\n\ngo 1.22\n".parse().unwrap();
//! assert_eq!(go_mod.module, "example.com/hello");
//! assert_eq!(go_mod.go.as_deref(), Some("1.22"));
//!
//! let go_mod: GoMod = "require rsc.io/quote v1.5.2 // indirect".parse().unwrap();
//! assert!(go_mod.require[0].indirect);
//!
//! assert!("bogus foo".parse::<GoMod>().is_err());
//! ```
//!
//! The theorems of [`line_endings`] and [`texts`] state what holds of the
//! grammar as a whole: that line terminators of either kind, and any number
//! of them at the end of a text, make no difference; that a block and its
//! entries line by line are one and the same.

use vstd::prelude::*;
use crate::error::{Failure, ParseError};
use crate::grammar::{lemma_directives_well_formed, manifest, DirectiveView};
use crate::parser::{gomod, Directive};
use crate::settings::{
    as_map, distinct_keys, lemma_merge_in_steps, lemma_merge_inserts, lookup, merge,
    merge_settings,
};

pub mod combinator;
pub mod error;
pub mod grammar;
pub mod line_endings;
pub mod parser;
pub mod settings;
pub mod source;
pub mod texts;

verus! {

/// A module at a version.
#[derive(Debug, PartialEq, Eq)]
pub struct Module {
    pub path: String,
    pub version: String,
}

/// A dependency, with the mark that says it is not imported directly.
#[derive(Debug, PartialEq, Eq)]
pub struct ModuleDependency {
    pub module: Module,
    pub indirect: bool,
}

/// The substitution of one module, at every version or at one, by a
/// directory or by another module.
#[derive(Debug, PartialEq, Eq)]
pub struct ModuleReplacement {
    pub path: String,
    pub version: Option<String>,
    pub replacement: Replacement,
}

/// What a replaced module is taken from.
#[derive(Debug, PartialEq, Eq)]
pub enum Replacement {
    FilePath(String),
    Module(Module),
}

/// A withdrawn version, or a closed range of them, lower bound first.
#[derive(Debug, PartialEq, Eq)]
pub enum ModuleRetract {
    Single(String),
    Range(String, String),
}

/// A parsed manifest.
///
/// The lists keep the order of the text. In every record that was parsed,
/// `godebug` holds each key once, at the place where the key first occurred
/// and with the value that was given last. The fields are public, so the
/// type alone does not hold this: [`GoModView::well_formed`] states it, and
/// [`GoMod::parse`] and `from_str` ensure it.
#[derive(Debug, PartialEq, Eq)]
pub struct GoMod {
    pub comment: Vec<String>,
    pub module: String,
    pub go: Option<String>,
    pub godebug: Vec<(String, String)>,
    pub tool: Vec<String>,
    pub toolchain: Option<String>,
    pub require: Vec<ModuleDependency>,
    pub exclude: Vec<ModuleDependency>,
    pub replace: Vec<ModuleReplacement>,
    pub retract: Vec<ModuleRetract>,
}

/// What a [`Module`] stands for.
pub struct ModuleView {
    pub path: Seq<char>,
    pub version: Seq<char>,
}

/// What a [`ModuleDependency`] stands for.
pub struct ModuleDependencyView {
    pub module: ModuleView,
    pub indirect: bool,
}

/// What a [`Replacement`] stands for.
pub enum ReplacementView {
    FilePath(Seq<char>),
    Module(ModuleView),
}

/// What a [`ModuleReplacement`] stands for.
pub struct ModuleReplacementView {
    pub path: Seq<char>,
    pub version: Option<Seq<char>>,
    pub replacement: ReplacementView,
}

/// What a [`ModuleRetract`] stands for.
pub enum ModuleRetractView {
    Single(Seq<char>),
    Range(Seq<char>, Seq<char>),
}

/// A key of a `godebug` setting with its value.
pub type Setting = (Seq<char>, Seq<char>);

/// What a [`GoMod`] stands for.
pub struct GoModView {
    pub comment: Seq<Seq<char>>,
    pub module: Seq<char>,
    pub go: Option<Seq<char>>,
    pub godebug: Seq<Setting>,
    pub tool: Seq<Seq<char>>,
    pub toolchain: Option<Seq<char>>,
    pub require: Seq<ModuleDependencyView>,
    pub exclude: Seq<ModuleDependencyView>,
    pub replace: Seq<ModuleReplacementView>,
    pub retract: Seq<ModuleRetractView>,
}

impl DeepView for Module {
    type V = ModuleView;

    open spec fn deep_view(&self) -> ModuleView {
        ModuleView { path: self.path@, version: self.version@ }
    }
}

impl View for Module {
    type V = ModuleView;

    open spec fn view(&self) -> ModuleView {
        self.deep_view()
    }
}

impl DeepView for ModuleDependency {
    type V = ModuleDependencyView;

    open spec fn deep_view(&self) -> ModuleDependencyView {
        ModuleDependencyView { module: self.module@, indirect: self.indirect }
    }
}

impl View for ModuleDependency {
    type V = ModuleDependencyView;

    open spec fn view(&self) -> ModuleDependencyView {
        self.deep_view()
    }
}

impl DeepView for Replacement {
    type V = ReplacementView;

    open spec fn deep_view(&self) -> ReplacementView {
        match self {
            Replacement::FilePath(path) => ReplacementView::FilePath(path@),
            Replacement::Module(module) => ReplacementView::Module(module@),
        }
    }
}

impl View for Replacement {
    type V = ReplacementView;

    open spec fn view(&self) -> ReplacementView {
        self.deep_view()
    }
}

impl DeepView for ModuleReplacement {
    type V = ModuleReplacementView;

    open spec fn deep_view(&self) -> ModuleReplacementView {
        ModuleReplacementView {
            path: self.path@,
            version: self.version.deep_view(),
            replacement: self.replacement@,
        }
    }
}

impl View for ModuleReplacement {
    type V = ModuleReplacementView;

    open spec fn view(&self) -> ModuleReplacementView {
        self.deep_view()
    }
}

impl DeepView for ModuleRetract {
    type V = ModuleRetractView;

    open spec fn deep_view(&self) -> ModuleRetractView {
        match self {
            ModuleRetract::Single(version) => ModuleRetractView::Single(version@),
            ModuleRetract::Range(lower, upper) => ModuleRetractView::Range(lower@, upper@),
        }
    }
}

impl View for ModuleRetract {
    type V = ModuleRetractView;

    open spec fn view(&self) -> ModuleRetractView {
        self.deep_view()
    }
}

impl View for GoMod {
    type V = GoModView;

    open spec fn view(&self) -> GoModView {
        GoModView {
            comment: self.comment.deep_view(),
            module: self.module@,
            go: self.go.deep_view(),
            godebug: self.godebug.deep_view(),
            tool: self.tool.deep_view(),
            toolchain: self.toolchain.deep_view(),
            require: self.require.deep_view(),
            exclude: self.exclude.deep_view(),
            replace: self.replace.deep_view(),
            retract: self.retract.deep_view(),
        }
    }
}

impl ModuleView {
    /// A module has a path and a version: neither is empty.
    pub open spec fn well_formed(self) -> bool {
        self.path.len() > 0 && self.version.len() > 0
    }
}

impl ModuleDependencyView {
    /// A dependency is well formed where its module is.
    pub open spec fn well_formed(self) -> bool {
        self.module.well_formed()
    }
}

impl ReplacementView {
    /// A directory has a path that is not empty; a module is well formed.
    pub open spec fn well_formed(self) -> bool {
        match self {
            ReplacementView::FilePath(path) => path.len() > 0,
            ReplacementView::Module(module) => module.well_formed(),
        }
    }
}

impl ModuleReplacementView {
    /// The replaced path is not empty, nor is the version where one is
    /// given, and the target is well formed.
    pub open spec fn well_formed(self) -> bool {
        &&& self.path.len() > 0
        &&& self.version matches Some(version) ==> version.len() > 0
        &&& self.replacement.well_formed()
    }
}

impl ModuleRetractView {
    /// No version and no bound of a range is empty.
    pub open spec fn well_formed(self) -> bool {
        match self {
            ModuleRetractView::Single(version) => version.len() > 0,
            ModuleRetractView::Range(lower, upper) => lower.len() > 0 && upper.len() > 0,
        }
    }
}

impl GoModView {
    /// What holds of every record that was parsed: no key of `godebug`
    /// stands twice, and every entry of the four lists is well formed.
    pub open spec fn well_formed(self) -> bool {
        &&& distinct_keys(self.godebug)
        &&& forall|i: int|
            0 <= i < self.require.len() ==> (#[trigger] self.require[i]).well_formed()
        &&& forall|i: int|
            0 <= i < self.exclude.len() ==> (#[trigger] self.exclude[i]).well_formed()
        &&& forall|i: int|
            0 <= i < self.replace.len() ==> (#[trigger] self.replace[i]).well_formed()
        &&& forall|i: int|
            0 <= i < self.retract.len() ==> (#[trigger] self.retract[i]).well_formed()
    }

    /// The record of a manifest without directives.
    pub open spec fn empty() -> GoModView {
        GoModView {
            comment: Seq::empty(),
            module: Seq::empty(),
            go: None,
            godebug: Seq::empty(),
            tool: Seq::empty(),
            toolchain: None,
            require: Seq::empty(),
            exclude: Seq::empty(),
            replace: Seq::empty(),
            retract: Seq::empty(),
        }
    }

    /// The record after one more directive: a single value replaces what
    /// was there, settings are merged by key, a list is appended. The
    /// settings of a directive that was read hold each key once, and the
    /// record is what it would be with the settings as they were listed.
    pub open spec fn apply(self, directive: DirectiveView) -> GoModView {
        match directive {
            DirectiveView::Comment(text) => GoModView { comment: self.comment.push(text), ..self },
            DirectiveView::Module(path) => GoModView { module: path, ..self },
            DirectiveView::Go(version) => GoModView { go: Some(version), ..self },
            DirectiveView::GoDebug(settings) => GoModView {
                godebug: merge(self.godebug, settings),
                ..self
            },
            DirectiveView::Tool(paths) => GoModView { tool: self.tool + paths, ..self },
            DirectiveView::Toolchain(version) => GoModView { toolchain: Some(version), ..self },
            DirectiveView::Require(list) => GoModView { require: self.require + list, ..self },
            DirectiveView::Exclude(list) => GoModView { exclude: self.exclude + list, ..self },
            DirectiveView::Replace(list) => GoModView { replace: self.replace + list, ..self },
            DirectiveView::Retract(list) => GoModView { retract: self.retract + list, ..self },
        }
    }

    /// The record of a sequence of directives, applied in their order to
    /// the empty record.
    pub open spec fn collect(directives: Seq<DirectiveView>) -> GoModView
        decreases directives.len(),
    {
        if directives.len() == 0 {
            GoModView::empty()
        } else {
            GoModView::collect(directives.drop_last()).apply(directives.last())
        }
    }
}

/// What a manifest text parses to: the record of its directives, or the
/// first failure.
pub open spec fn record(s: Seq<char>) -> Result<GoModView, Failure> {
    match manifest(s) {
        Ok(directives) => Ok(GoModView::collect(directives)),
        Err(failure) => Err(failure),
    }
}

/// One directive with a list is worth its parts: the record after two
/// directives of one kind is the record after the one directive that lists
/// what the two list. So it is with the settings of `godebug`, which are
/// merged by key.
pub proof fn lemma_apply_joined(record: GoModView, first: DirectiveView, second: DirectiveView)
    requires
        first.joined(second) is Some,
        first matches DirectiveView::GoDebug(settings) ==> distinct_keys(settings),
    ensures
        record.apply(first).apply(second) == record.apply(first.joined(second)->Some_0),
{
    match (first, second) {
        (DirectiveView::GoDebug(a), DirectiveView::GoDebug(b)) => {
            lemma_merge_in_steps(record.godebug, a, b);
        },
        (DirectiveView::Tool(a), DirectiveView::Tool(b)) => {
            assert(record.tool + a + b =~= record.tool + (a + b));
        },
        (DirectiveView::Require(a), DirectiveView::Require(b)) => {
            assert(record.require + a + b =~= record.require + (a + b));
        },
        (DirectiveView::Exclude(a), DirectiveView::Exclude(b)) => {
            assert(record.exclude + a + b =~= record.exclude + (a + b));
        },
        (DirectiveView::Replace(a), DirectiveView::Replace(b)) => {
            assert(record.replace + a + b =~= record.replace + (a + b));
        },
        (DirectiveView::Retract(a), DirectiveView::Retract(b)) => {
            assert(record.retract + a + b =~= record.retract + (a + b));
        },
        _ => {},
    }
}

/// A well-formed directive leaves a well-formed record well formed.
pub proof fn lemma_apply_well_formed(record: GoModView, directive: DirectiveView)
    requires
        record.well_formed(),
        directive.well_formed(),
    ensures
        record.apply(directive).well_formed(),
{
    match directive {
        DirectiveView::GoDebug(settings) => {
            lemma_merge_inserts(record.godebug, settings);
        },
        _ => {},
    }
}

/// The record of well-formed directives is well formed.
pub proof fn lemma_collect_well_formed(directives: Seq<DirectiveView>)
    requires
        forall|k: int| 0 <= k < directives.len() ==> (#[trigger] directives[k]).well_formed(),
    ensures
        GoModView::collect(directives).well_formed(),
    decreases directives.len(),
{
    if directives.len() > 0 {
        lemma_collect_well_formed(directives.drop_last());
        lemma_apply_well_formed(GoModView::collect(directives.drop_last()), directives.last());
    }
}

/// Every record that a text parses to is well formed.
pub proof fn lemma_record_well_formed(s: Seq<char>)
    ensures
        record(s) matches Ok(parsed) ==> parsed.well_formed(),
{
    lemma_directives_well_formed(s, 0);
    if let Ok(directives) = manifest(s) {
        lemma_collect_well_formed(directives);
    }
}

impl GoMod {
    /// The record of a manifest without directives.
    pub fn new() -> (record: GoMod)
        ensures
            record@ == GoModView::empty(),
    {
        let record = GoMod {
            comment: Vec::new(),
            module: String::new(),
            go: None,
            godebug: Vec::new(),
            tool: Vec::new(),
            toolchain: None,
            require: Vec::new(),
            exclude: Vec::new(),
            replace: Vec::new(),
            retract: Vec::new(),
        };
        assert(record@.comment =~= Seq::empty());
        assert(record@.godebug =~= Seq::empty());
        assert(record@.tool =~= Seq::empty());
        assert(record@.require =~= Seq::empty());
        assert(record@.exclude =~= Seq::empty());
        assert(record@.replace =~= Seq::empty());
        assert(record@.retract =~= Seq::empty());
        record
    }

    /// Takes one more directive into the record.
    pub fn apply(&mut self, directive: Directive)
        ensures
            final(self)@ == old(self)@.apply(directive@),
    {
        let ghost before = self@;
        match directive {
            Directive::Comment(text) => {
                self.comment.push(text);
                assert(self@.comment =~= before.comment.push(text@));
            },
            Directive::Module(path) => {
                self.module = path;
            },
            Directive::Go(version) => {
                self.go = Some(version);
            },
            Directive::GoDebug(settings) => {
                merge_settings(&mut self.godebug, settings);
            },
            Directive::Tool(paths) => {
                let mut paths = paths;
                let ghost more = paths.deep_view();
                self.tool.append(&mut paths);
                assert(self@.tool =~= before.tool + more);
            },
            Directive::Toolchain(version) => {
                self.toolchain = Some(version);
            },
            Directive::Require(list) => {
                let mut list = list;
                let ghost more = list.deep_view();
                self.require.append(&mut list);
                assert(self@.require =~= before.require + more);
            },
            Directive::Exclude(list) => {
                let mut list = list;
                let ghost more = list.deep_view();
                self.exclude.append(&mut list);
                assert(self@.exclude =~= before.exclude + more);
            },
            Directive::Replace(list) => {
                let mut list = list;
                let ghost more = list.deep_view();
                self.replace.append(&mut list);
                assert(self@.replace =~= before.replace + more);
            },
            Directive::Retract(list) => {
                let mut list = list;
                let ghost more = list.deep_view();
                self.retract.append(&mut list);
                assert(self@.retract =~= before.retract + more);
            },
        }
    }

    /// The record of a sequence of directives.
    pub fn collect(directives: Vec<Directive>) -> (record: GoMod)
        ensures
            record@ == GoModView::collect(directives.deep_view()),
    {
        let ghost all = directives.deep_view();
        let mut record = GoMod::new();
        for directive in it: directives
            invariant
                it.seq() == directives@,
                all == directives.deep_view(),
                record@ == GoModView::collect(all.take(it.index())),
        {
            proof {
                let k = it.index();
                assert(all.take(k + 1).drop_last() =~= all.take(k));
                assert(all.take(k + 1).last() == directive@);
            }
            record.apply(directive);
        }
        assert(all.take(all.len() as int) =~= all);
        record
    }

    /// The value of the `godebug` setting with the key `key`, if there is
    /// one.
    pub fn debug_setting(&self, key: &str) -> (value: Option<&String>)
        ensures
            match value {
                Some(value) => as_map(self@.godebug).contains_pair(key@, value@),
                None => !as_map(self@.godebug).contains_key(key@),
            },
    {
        lookup(&self.godebug, key)
    }

    /// Parses a manifest, with the error as a value.
    pub fn parse(input: &str) -> (r: Result<GoMod, ParseError>)
        ensures
            match r {
                Ok(parsed) => record(input@) == Ok::<GoModView, Failure>(parsed@)
                    && parsed@.well_formed(),
                Err(error) => record(input@) == Err::<GoModView, Failure>(error@),
            },
    {
        proof {
            lemma_record_well_formed(input@);
        }
        match gomod(input) {
            Ok(directives) => Ok(GoMod::collect(directives)),
            Err(error) => Err(error),
        }
    }
}

impl Default for GoMod {
    fn default() -> (record: GoMod)
        ensures
            record@ == GoModView::empty(),
    {
        GoMod::new()
    }
}

impl std::str::FromStr for GoMod {
    type Err = String;

    /// Parses a manifest, with the error as its message.
    fn from_str(input: &str) -> (r: Result<GoMod, String>)
        ensures
            match r {
                Ok(parsed) => record(input@) == Ok::<GoModView, Failure>(parsed@)
                    && parsed@.well_formed(),
                Err(message) => record(input@) matches Err(failure) && message@
                    == failure.message(),
            },
    {
        match GoMod::parse(input) {
            Ok(parsed) => Ok(parsed),
            Err(error) => Err(error.message()),
        }
    }
}

} // verus!
