use gomod_parser::error::{ErrorKind, ParseError};
use gomod_parser::parser::{gomod, Directive};
use gomod_parser::{Module, ModuleDependency, ModuleReplacement, ModuleRetract, Replacement};

fn text(s: &str) -> String {
    s.to_string()
}

fn dependency(path: &str, version: &str, indirect: bool) -> ModuleDependency {
    ModuleDependency { module: Module { path: text(path), version: text(version) }, indirect }
}

fn failure(kind: ErrorKind, offset: usize) -> ParseError {
    ParseError { kind, offset }
}

#[test]
fn empty_text_has_no_directives() {
    assert_eq!(gomod(""), Ok(vec![]));
}

#[test]
fn blank_lines_and_indentation_are_skipped() {
    assert_eq!(gomod("\n\r\n  \n\t\n"), Ok(vec![]));
    assert_eq!(
        gomod("\n\n  module a\n \n\tgo 1.2\n   "),
        Ok(vec![Directive::Module(text("a")), Directive::Go(text("1.2"))])
    );
}

#[test]
fn module_takes_the_rest_of_the_line() {
    assert_eq!(gomod("module github.com/x\n"), Ok(vec![Directive::Module(text("github.com/x"))]));
    assert_eq!(
        gomod("module \t github.com/x // not a comment \n"),
        Ok(vec![Directive::Module(text("github.com/x // not a comment "))])
    );
}

#[test]
fn go_and_toolchain_take_a_value() {
    assert_eq!(
        gomod("go 1.21\ntoolchain go1.21.1\n"),
        Ok(vec![Directive::Go(text("1.21")), Directive::Toolchain(text("go1.21.1"))])
    );
}

#[test]
fn tool_is_a_list_of_one_path() {
    assert_eq!(
        gomod("tool example.com/cmd/a\ntool example.com/cmd/b\n"),
        Ok(vec![
            Directive::Tool(vec![text("example.com/cmd/a")]),
            Directive::Tool(vec![text("example.com/cmd/b")]),
        ])
    );
}

#[test]
fn comment_drops_marker_and_one_blank() {
    assert_eq!(gomod("// a comment\n"), Ok(vec![Directive::Comment(text("a comment"))]));
    assert_eq!(gomod("//tight\n"), Ok(vec![Directive::Comment(text("tight"))]));
    assert_eq!(gomod("//\tafter a tab\n"), Ok(vec![Directive::Comment(text("after a tab"))]));
    assert_eq!(gomod("//  two blanks\n"), Ok(vec![Directive::Comment(text(" two blanks"))]));
    assert_eq!(gomod("//\n"), Ok(vec![Directive::Comment(text(""))]));
    assert_eq!(gomod("   // indented\n"), Ok(vec![Directive::Comment(text("indented"))]));
}

#[test]
fn comment_ends_at_the_end_of_the_text() {
    assert_eq!(gomod("// last"), Ok(vec![Directive::Comment(text("last"))]));
    assert_eq!(gomod("//"), Ok(vec![Directive::Comment(text(""))]));
    assert_eq!(
        gomod("module a\n// last"),
        Ok(vec![Directive::Module(text("a")), Directive::Comment(text("last"))])
    );
}

#[test]
fn godebug_single_setting() {
    assert_eq!(
        gomod("godebug default=go1.21\n"),
        Ok(vec![Directive::GoDebug(vec![(text("default"), text("go1.21"))])])
    );
}

#[test]
fn godebug_block_holds_each_key_once() {
    assert_eq!(
        gomod("godebug (\n\tdefault=go1.21\n\n\tpanicnil=1\n\tdefault=go1.22\n)\n"),
        Ok(vec![Directive::GoDebug(vec![
            (text("default"), text("go1.22")),
            (text("panicnil"), text("1")),
        ])])
    );
    assert_eq!(
        gomod("godebug (\n default=go1.21\n default=go1.22\n)"),
        Ok(vec![Directive::GoDebug(vec![(text("default"), text("go1.22"))])])
    );
}

#[test]
fn godebug_key_is_everything_before_the_equals_sign() {
    assert_eq!(
        gomod("godebug a b=c d\n"),
        Err(failure(ErrorKind::UnrecognizedKeyword, 14))
    );
    assert_eq!(
        gomod("godebug a b=c\n"),
        Ok(vec![Directive::GoDebug(vec![(text("a b"), text("c"))])])
    );
}

#[test]
fn require_without_comment_is_direct() {
    assert_eq!(
        gomod("require a/b v1.0.0"),
        Ok(vec![Directive::Require(vec![dependency("a/b", "v1.0.0", false)])])
    );
}

#[test]
fn require_with_indirect_comment_is_indirect() {
    assert_eq!(
        gomod("require a/b v1.0.0 // indirect"),
        Ok(vec![Directive::Require(vec![dependency("a/b", "v1.0.0", true)])])
    );
    assert_eq!(
        gomod("require a/b v1.0.0 //indirect\n"),
        Ok(vec![Directive::Require(vec![dependency("a/b", "v1.0.0", true)])])
    );
    assert_eq!(
        gomod("require a/b v1.0.0\t \t// indirect\r\n"),
        Ok(vec![Directive::Require(vec![dependency("a/b", "v1.0.0", true)])])
    );
}

#[test]
fn require_with_another_comment_is_direct() {
    assert_eq!(
        gomod("require a/b v1.0.0 // indirectly\n"),
        Ok(vec![Directive::Require(vec![dependency("a/b", "v1.0.0", false)])])
    );
    assert_eq!(
        gomod("require a/b v1.0.0 //  indirect\n"),
        Ok(vec![Directive::Require(vec![dependency("a/b", "v1.0.0", false)])])
    );
    assert_eq!(
        gomod("require a/b v1.0.0 // indirect \n"),
        Ok(vec![Directive::Require(vec![dependency("a/b", "v1.0.0", false)])])
    );
}

#[test]
fn require_block_with_comments_and_blank_lines() {
    assert_eq!(
        gomod("require (\n\ta v1 // indirect\n\n\tb v2\n  \n\tc v3 // why\n)\n"),
        Ok(vec![Directive::Require(vec![
            dependency("a", "v1", true),
            dependency("b", "v2", false),
            dependency("c", "v3", false),
        ])])
    );
}

#[test]
fn exclude_reads_entries_as_require_does() {
    assert_eq!(
        gomod("exclude a v1 // indirect\nexclude (\n b v2\n)\n"),
        Ok(vec![
            Directive::Exclude(vec![dependency("a", "v1", true)]),
            Directive::Exclude(vec![dependency("b", "v2", false)]),
        ])
    );
}

#[test]
fn replace_by_a_directory() {
    assert_eq!(
        gomod("replace a => ../local"),
        Ok(vec![Directive::Replace(vec![ModuleReplacement {
            path: text("a"),
            version: None,
            replacement: Replacement::FilePath(text("../local")),
        }])])
    );
}

#[test]
fn replace_by_a_module() {
    assert_eq!(
        gomod("replace a => b v1.2.0"),
        Ok(vec![Directive::Replace(vec![ModuleReplacement {
            path: text("a"),
            version: None,
            replacement: Replacement::Module(Module { path: text("b"), version: text("v1.2.0") }),
        }])])
    );
}

#[test]
fn replace_one_version() {
    assert_eq!(
        gomod("replace a v1.0.0 => ./fork\n"),
        Ok(vec![Directive::Replace(vec![ModuleReplacement {
            path: text("a"),
            version: Some(text("v1.0.0")),
            replacement: Replacement::FilePath(text("./fork")),
        }])])
    );
}

#[test]
fn replace_block() {
    assert_eq!(
        gomod("replace (\n\ta => ../a\n\tb v1 => c v2\n)\n"),
        Ok(vec![Directive::Replace(vec![
            ModuleReplacement {
                path: text("a"),
                version: None,
                replacement: Replacement::FilePath(text("../a")),
            },
            ModuleReplacement {
                path: text("b"),
                version: Some(text("v1")),
                replacement: Replacement::Module(Module { path: text("c"), version: text("v2") }),
            },
        ])])
    );
}

#[test]
fn retract_range_keeps_the_bounds_as_written() {
    assert_eq!(
        gomod("retract [v1.0.0, v1.0.5]"),
        Ok(vec![Directive::Retract(vec![ModuleRetract::Range(text("v1.0.0"), text("v1.0.5"))])])
    );
    assert_eq!(
        gomod("retract [v2.0.0,v1.0.0]\n"),
        Ok(vec![Directive::Retract(vec![ModuleRetract::Range(text("v2.0.0"), text("v1.0.0"))])])
    );
}

#[test]
fn retract_drops_a_comment_on_the_same_line() {
    assert_eq!(
        gomod("retract [v1.0.0, v1.0.5] // broken\n"),
        Ok(vec![Directive::Retract(vec![ModuleRetract::Range(text("v1.0.0"), text("v1.0.5"))])])
    );
    assert_eq!(
        gomod("retract v1.0.0 // broken"),
        Ok(vec![Directive::Retract(vec![ModuleRetract::Single(text("v1.0.0"))])])
    );
}

#[test]
fn retract_keeps_a_comment_on_the_next_line() {
    assert_eq!(
        gomod("retract v1.0.0\n// about the module\n"),
        Ok(vec![
            Directive::Retract(vec![ModuleRetract::Single(text("v1.0.0"))]),
            Directive::Comment(text("about the module")),
        ])
    );
}

#[test]
fn retract_block() {
    assert_eq!(
        gomod("retract (\n\tv1.0.0 // one\n\t[v1.1.0, v1.2.0] // some\n\tv2.0.0\n)"),
        Ok(vec![Directive::Retract(vec![
            ModuleRetract::Single(text("v1.0.0")),
            ModuleRetract::Range(text("v1.1.0"), text("v1.2.0")),
            ModuleRetract::Single(text("v2.0.0")),
        ])])
    );
}

#[test]
fn unknown_keyword_fails_the_whole_parse() {
    assert_eq!(gomod("bogus foo"), Err(failure(ErrorKind::UnrecognizedKeyword, 0)));
    assert_eq!(
        gomod("module a\n\nbogus foo\ngo 1.21\n"),
        Err(failure(ErrorKind::UnrecognizedKeyword, 10))
    );
    assert_eq!(gomod("modules a\n"), Err(failure(ErrorKind::UnrecognizedKeyword, 0)));
    assert_eq!(gomod("Module a\n"), Err(failure(ErrorKind::UnrecognizedKeyword, 0)));
}

#[test]
fn keyword_without_value_is_malformed() {
    assert_eq!(gomod("module"), Err(failure(ErrorKind::MalformedEntry, 6)));
    assert_eq!(gomod("module\nx\n"), Err(failure(ErrorKind::MalformedEntry, 6)));
    assert_eq!(gomod("module  \n"), Err(failure(ErrorKind::MalformedEntry, 8)));
    assert_eq!(gomod("go "), Err(failure(ErrorKind::MalformedEntry, 3)));
    assert_eq!(gomod("require"), Err(failure(ErrorKind::MalformedEntry, 7)));
    assert_eq!(gomod("require \n"), Err(failure(ErrorKind::MalformedEntry, 8)));
}

#[test]
fn entry_without_its_parts_is_malformed() {
    assert_eq!(gomod("require a\n"), Err(failure(ErrorKind::MalformedEntry, 9)));
    assert_eq!(gomod("require a \n"), Err(failure(ErrorKind::MalformedEntry, 10)));
    assert_eq!(gomod("require )\n"), Err(failure(ErrorKind::MalformedEntry, 8)));
    assert_eq!(gomod("godebug a\n"), Err(failure(ErrorKind::MalformedEntry, 10)));
    assert_eq!(gomod("godebug =b\n"), Err(failure(ErrorKind::MalformedEntry, 8)));
    assert_eq!(gomod("godebug a=\n"), Err(failure(ErrorKind::MalformedEntry, 10)));
    assert_eq!(gomod("replace a\n"), Err(failure(ErrorKind::MalformedEntry, 9)));
    assert_eq!(gomod("replace a b\n"), Err(failure(ErrorKind::MalformedEntry, 11)));
    assert_eq!(gomod("replace a b c\n"), Err(failure(ErrorKind::MalformedEntry, 12)));
    assert_eq!(gomod("replace a =>\n"), Err(failure(ErrorKind::MalformedEntry, 12)));
    assert_eq!(gomod("replace a =>b\n"), Err(failure(ErrorKind::MalformedEntry, 13)));
    assert_eq!(gomod("replace a v1 =>b c\n"), Err(failure(ErrorKind::MalformedEntry, 13)));
    assert_eq!(gomod("replace a => \n"), Err(failure(ErrorKind::MalformedEntry, 13)));
    assert_eq!(gomod("retract [\n"), Err(failure(ErrorKind::MalformedEntry, 10)));
    assert_eq!(gomod("retract [,v1]\n"), Err(failure(ErrorKind::MalformedEntry, 9)));
    assert_eq!(gomod("retract [v1 ,v2]\n"), Err(failure(ErrorKind::MalformedEntry, 11)));
    assert_eq!(gomod("retract [v1,]\n"), Err(failure(ErrorKind::MalformedEntry, 12)));
    assert_eq!(gomod("retract [v1, v2\n"), Err(failure(ErrorKind::MalformedEntry, 16)));
    assert_eq!(gomod("retract [v1, v2 ]\n"), Err(failure(ErrorKind::MalformedEntry, 15)));
}

#[test]
fn block_needs_a_line_break_and_an_entry() {
    assert_eq!(gomod("require ( a v1 )\n"), Err(failure(ErrorKind::MalformedEntry, 9)));
    assert_eq!(gomod("require (a v1\n)\n"), Err(failure(ErrorKind::MalformedEntry, 9)));
    assert_eq!(gomod("require (\n)\n"), Err(failure(ErrorKind::MalformedEntry, 10)));
    assert_eq!(
        gomod("require ( \t\r\n a v1 )"),
        Ok(vec![Directive::Require(vec![dependency("a", "v1", false)])])
    );
}

#[test]
fn block_that_is_not_closed_is_unterminated() {
    assert_eq!(gomod("require ("), Err(failure(ErrorKind::UnterminatedBlock, 9)));
    assert_eq!(gomod("require (\n"), Err(failure(ErrorKind::UnterminatedBlock, 10)));
    assert_eq!(gomod("require (\n a v1\n"), Err(failure(ErrorKind::UnterminatedBlock, 16)));
    assert_eq!(gomod("godebug (\n a=1"), Err(failure(ErrorKind::UnterminatedBlock, 14)));
    assert_eq!(
        gomod("replace (\n a => b\n\n"),
        Err(failure(ErrorKind::UnterminatedBlock, 19))
    );
    assert_eq!(gomod("retract (\n v1 // c"), Err(failure(ErrorKind::UnterminatedBlock, 18)));
}

#[test]
fn malformed_entry_inside_a_block() {
    assert_eq!(gomod("require (\n a v1\n b\n)\n"), Err(failure(ErrorKind::MalformedEntry, 18)));
}

#[test]
fn positions_count_characters_not_bytes() {
    assert_eq!(
        gomod("module exämple.com/mödule\n// Grüße\nbogus"),
        Err(failure(ErrorKind::UnrecognizedKeyword, 35))
    );
    assert_eq!(
        gomod("module exämple.com/mödule\n// Grüße\n"),
        Ok(vec![Directive::Module(text("exämple.com/mödule")), Directive::Comment(text("Grüße"))])
    );
}

#[test]
fn every_directive_ends_at_the_end_of_the_text() {
    assert_eq!(gomod("module a"), Ok(vec![Directive::Module(text("a"))]));
    assert_eq!(gomod("go 1.21"), Ok(vec![Directive::Go(text("1.21"))]));
    assert_eq!(gomod("toolchain go1.21.1"), Ok(vec![Directive::Toolchain(text("go1.21.1"))]));
    assert_eq!(gomod("tool a/b"), Ok(vec![Directive::Tool(vec![text("a/b")])]));
    assert_eq!(gomod("godebug a=1"), Ok(vec![Directive::GoDebug(vec![(text("a"), text("1"))])]));
    assert_eq!(
        gomod("godebug (\n a=1\n)"),
        Ok(vec![Directive::GoDebug(vec![(text("a"), text("1"))])])
    );
    assert_eq!(
        gomod("exclude a v1"),
        Ok(vec![Directive::Exclude(vec![dependency("a", "v1", false)])])
    );
    assert_eq!(
        gomod("exclude (\n a v1\n)"),
        Ok(vec![Directive::Exclude(vec![dependency("a", "v1", false)])])
    );
    assert_eq!(
        gomod("replace (\n a => b v1\n)"),
        Ok(vec![Directive::Replace(vec![ModuleReplacement {
            path: text("a"),
            version: None,
            replacement: Replacement::Module(Module { path: text("b"), version: text("v1") }),
        }])])
    );
    assert_eq!(
        gomod("retract v1.0.0"),
        Ok(vec![Directive::Retract(vec![ModuleRetract::Single(text("v1.0.0"))])])
    );
    assert_eq!(
        gomod("retract (\n [v1, v2]\n)"),
        Ok(vec![Directive::Retract(vec![ModuleRetract::Range(text("v1"), text("v2"))])])
    );
}

#[test]
fn replace_takes_a_word_that_only_begins_with_the_arrow_as_a_version() {
    assert_eq!(
        gomod("replace a =>x => b"),
        Ok(vec![Directive::Replace(vec![ModuleReplacement {
            path: text("a"),
            version: Some(text("=>x")),
            replacement: Replacement::FilePath(text("b")),
        }])])
    );
    assert_eq!(
        gomod("replace a => =>x v1\n"),
        Ok(vec![Directive::Replace(vec![ModuleReplacement {
            path: text("a"),
            version: None,
            replacement: Replacement::Module(Module { path: text("=>x"), version: text("v1") }),
        }])])
    );
    assert_eq!(
        gomod("replace => => b\n"),
        Ok(vec![Directive::Replace(vec![ModuleReplacement {
            path: text("=>"),
            version: None,
            replacement: Replacement::FilePath(text("b")),
        }])])
    );
}
