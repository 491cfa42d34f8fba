use gomod_parser::error::{to_decimal, ErrorKind, ParseError};
use gomod_parser::parser::Directive;
use gomod_parser::settings::{lookup, merge_settings, put_setting};
use gomod_parser::{GoMod, Module, ModuleDependency, ModuleReplacement, ModuleRetract, Replacement};
use std::str::FromStr;

fn text(s: &str) -> String {
    s.to_string()
}

fn dependency(path: &str, version: &str, indirect: bool) -> ModuleDependency {
    ModuleDependency { module: Module { path: text(path), version: text(version) }, indirect }
}

const EVERYTHING: &str = "// first\nmodule example.com/all\n\ngo 1.22\ntoolchain go1.22.1\n\ngodebug (\n\tdefault=go1.21\n\tpanicnil=1\n)\ngodebug default=go1.22\n\ntool example.com/all/cmd/a\ntool example.com/all/cmd/b\n\nrequire (\n\ta.example/x v1.0.0\n\tb.example/y v2.0.0 // indirect\n)\nrequire c.example/z v3.0.0\n\nexclude a.example/x v0.9.0\n\nreplace a.example/x => ../x\nreplace (\n\tb.example/y v2.0.0 => b.example/fork v2.0.1\n)\n\nretract [v0.1.0, v0.2.0] // early\nretract v0.3.0\n// last\n";

fn everything() -> GoMod {
    GoMod {
        comment: vec![text("first"), text("last")],
        module: text("example.com/all"),
        go: Some(text("1.22")),
        godebug: vec![(text("default"), text("go1.22")), (text("panicnil"), text("1"))],
        tool: vec![text("example.com/all/cmd/a"), text("example.com/all/cmd/b")],
        toolchain: Some(text("go1.22.1")),
        require: vec![
            dependency("a.example/x", "v1.0.0", false),
            dependency("b.example/y", "v2.0.0", true),
            dependency("c.example/z", "v3.0.0", false),
        ],
        exclude: vec![dependency("a.example/x", "v0.9.0", false)],
        replace: vec![
            ModuleReplacement {
                path: text("a.example/x"),
                version: None,
                replacement: Replacement::FilePath(text("../x")),
            },
            ModuleReplacement {
                path: text("b.example/y"),
                version: Some(text("v2.0.0")),
                replacement: Replacement::Module(Module {
                    path: text("b.example/fork"),
                    version: text("v2.0.1"),
                }),
            },
        ],
        retract: vec![
            ModuleRetract::Range(text("v0.1.0"), text("v0.2.0")),
            ModuleRetract::Single(text("v0.3.0")),
        ],
    }
}

#[test]
fn a_manifest_with_every_directive() {
    assert_eq!(GoMod::from_str(EVERYTHING), Ok(everything()));
    assert_eq!(GoMod::parse(EVERYTHING), Ok(everything()));
    assert_eq!(EVERYTHING.parse::<GoMod>(), Ok(everything()));
}

#[test]
fn empty_text_is_the_empty_record() {
    let empty = GoMod::from_str("").unwrap();
    assert_eq!(empty, GoMod::new());
    assert_eq!(empty, GoMod::default());
    assert_eq!(empty.module, "");
    assert_eq!(empty.go, None);
    assert_eq!(empty.toolchain, None);
    assert!(empty.comment.is_empty() && empty.godebug.is_empty() && empty.tool.is_empty());
    assert!(empty.require.is_empty() && empty.exclude.is_empty());
    assert!(empty.replace.is_empty() && empty.retract.is_empty());
}

#[test]
fn module_and_go_pair() {
    let go_mod = GoMod::from_str("module github.com/x\n\ngo 1.21\n").unwrap();
    assert_eq!(go_mod.module, "github.com/x");
    assert_eq!(go_mod.go, Some(text("1.21")));
    let mut expected = GoMod::new();
    expected.module = text("github.com/x");
    expected.go = Some(text("1.21"));
    assert_eq!(go_mod, expected);
}

#[test]
fn line_endings_do_not_change_the_record() {
    let crlf = EVERYTHING.replace("\n", "\r\n");
    assert_ne!(crlf, EVERYTHING);
    assert_eq!(GoMod::from_str(&crlf), Ok(everything()));
    let doubled = EVERYTHING.replace("\n", "\n\r\n\n");
    assert_eq!(GoMod::from_str(&doubled), Ok(everything()));
}

#[test]
fn trailing_line_terminators_do_not_change_the_record() {
    let trimmed = EVERYTHING.trim_end();
    assert!(!trimmed.ends_with('\n'));
    assert_eq!(GoMod::from_str(trimmed), Ok(everything()));
    let longer = format!("{}\r\n\n", EVERYTHING);
    assert_eq!(GoMod::from_str(&longer), Ok(everything()));
}

#[test]
fn block_and_repeated_single_forms_are_equal() {
    let block = GoMod::from_str("require (\n a v1\n b v2\n)").unwrap();
    let singles = GoMod::from_str("require a v1\nrequire b v2").unwrap();
    assert_eq!(block.require, vec![dependency("a", "v1", false), dependency("b", "v2", false)]);
    assert_eq!(block, singles);
}

#[test]
fn later_godebug_setting_wins() {
    let go_mod = GoMod::from_str("godebug (\n default=go1.21\n default=go1.22\n)").unwrap();
    assert_eq!(go_mod.godebug, vec![(text("default"), text("go1.22"))]);
}

#[test]
fn godebug_keeps_the_place_of_the_first_setting() {
    let go_mod = GoMod::from_str("godebug a=1\ngodebug b=2\ngodebug a=3\ngodebug c=4\n").unwrap();
    assert_eq!(
        go_mod.godebug,
        vec![(text("a"), text("3")), (text("b"), text("2")), (text("c"), text("4"))]
    );
}

#[test]
fn later_single_value_replaces_the_earlier() {
    let go_mod =
        GoMod::from_str("module a\ngo 1.1\ntoolchain t1\nmodule b\ngo 1.2\ntoolchain t2\n").unwrap();
    assert_eq!(go_mod.module, "b");
    assert_eq!(go_mod.go, Some(text("1.2")));
    assert_eq!(go_mod.toolchain, Some(text("t2")));
}

#[test]
fn lists_append_without_removing_duplicates() {
    let go_mod = GoMod::from_str(
        "require a v1\nexclude a v1\ntool t\nrequire a v1\nexclude a v1\ntool t\nretract v1\nretract v1\n",
    )
    .unwrap();
    assert_eq!(go_mod.require, vec![dependency("a", "v1", false), dependency("a", "v1", false)]);
    assert_eq!(go_mod.exclude, vec![dependency("a", "v1", false), dependency("a", "v1", false)]);
    assert_eq!(go_mod.tool, vec![text("t"), text("t")]);
    assert_eq!(go_mod.retract, vec![ModuleRetract::Single(text("v1")), ModuleRetract::Single(text("v1"))]);
}

#[test]
fn apply_takes_one_directive() {
    let mut go_mod = GoMod::new();
    go_mod.apply(Directive::Comment(text("c")));
    go_mod.apply(Directive::GoDebug(vec![(text("k"), text("1")), (text("k"), text("2"))]));
    go_mod.apply(Directive::Require(vec![dependency("a", "v1", true)]));
    go_mod.apply(Directive::Tool(vec![text("t")]));
    assert_eq!(go_mod.comment, vec![text("c")]);
    assert_eq!(go_mod.godebug, vec![(text("k"), text("2"))]);
    assert_eq!(go_mod.require, vec![dependency("a", "v1", true)]);
    assert_eq!(go_mod.tool, vec![text("t")]);
}

#[test]
fn collect_applies_in_order() {
    let go_mod = GoMod::collect(vec![
        Directive::Module(text("a")),
        Directive::Retract(vec![ModuleRetract::Single(text("v1"))]),
        Directive::Module(text("b")),
        Directive::Retract(vec![ModuleRetract::Single(text("v2"))]),
    ]);
    assert_eq!(go_mod.module, "b");
    assert_eq!(
        go_mod.retract,
        vec![ModuleRetract::Single(text("v1")), ModuleRetract::Single(text("v2"))]
    );
}

#[test]
fn no_partial_record_on_failure() {
    assert_eq!(
        GoMod::parse("module a\nrequire b v1\nbogus foo\n"),
        Err(ParseError { kind: ErrorKind::UnrecognizedKeyword, offset: 22 })
    );
    assert_eq!(
        GoMod::from_str("module a\nrequire b v1\nbogus foo\n"),
        Err(text("unrecognized keyword at offset 22"))
    );
}

#[test]
fn messages_name_kind_and_position() {
    assert_eq!(
        ParseError { kind: ErrorKind::MalformedEntry, offset: 7 }.message(),
        "malformed entry at offset 7"
    );
    assert_eq!(
        ParseError { kind: ErrorKind::UnterminatedBlock, offset: 1024 }.message(),
        "unterminated block at offset 1024"
    );
    assert_eq!(GoMod::from_str("require (\n a v1\n"), Err(text("unterminated block at offset 16")));
    assert_eq!(GoMod::from_str("module"), Err(text("malformed entry at offset 6")));
    assert_eq!(ErrorKind::UnrecognizedKeyword.describe(), "unrecognized keyword");
}

#[test]
fn decimal_digits() {
    assert_eq!(to_decimal(0), "0");
    assert_eq!(to_decimal(9), "9");
    assert_eq!(to_decimal(10), "10");
    assert_eq!(to_decimal(1234567890), "1234567890");
    assert_eq!(to_decimal(usize::MAX), usize::MAX.to_string());
}

#[test]
fn put_setting_replaces_in_place_or_appends() {
    let mut settings = vec![(text("a"), text("1")), (text("b"), text("2"))];
    put_setting(&mut settings, text("a"), text("3"));
    assert_eq!(settings, vec![(text("a"), text("3")), (text("b"), text("2"))]);
    put_setting(&mut settings, text("c"), text("4"));
    assert_eq!(
        settings,
        vec![(text("a"), text("3")), (text("b"), text("2")), (text("c"), text("4"))]
    );
    put_setting(&mut settings, text("b"), text("2"));
    assert_eq!(
        settings,
        vec![(text("a"), text("3")), (text("b"), text("2")), (text("c"), text("4"))]
    );
    let mut empty: Vec<(String, String)> = vec![];
    put_setting(&mut empty, text(""), text(""));
    assert_eq!(empty, vec![(text(""), text(""))]);
}

#[test]
fn merge_settings_puts_in_order() {
    let mut settings = vec![(text("a"), text("1"))];
    merge_settings(
        &mut settings,
        vec![(text("b"), text("2")), (text("a"), text("3")), (text("b"), text("4"))],
    );
    assert_eq!(settings, vec![(text("a"), text("3")), (text("b"), text("4"))]);
    merge_settings(&mut settings, vec![]);
    assert_eq!(settings, vec![(text("a"), text("3")), (text("b"), text("4"))]);
}

#[test]
fn one_block_is_worth_its_lines_for_every_list() {
    let block = GoMod::from_str(
        "godebug (\n a=1\n b=2\n)\nexclude (\n a v1\n b v2\n)\nreplace (\n a => b\n c => d v1\n)\nretract (\n v1\n [v2, v3]\n)\n",
    )
    .unwrap();
    let lines = GoMod::from_str(
        "godebug a=1\ngodebug b=2\nexclude a v1\nexclude b v2\nreplace a => b\nreplace c => d v1\nretract v1\nretract [v2, v3]\n",
    )
    .unwrap();
    assert_eq!(block, lines);
    assert_eq!(block.godebug.len(), 2);
    assert_eq!(block.exclude.len(), 2);
    assert_eq!(block.replace.len(), 2);
    assert_eq!(block.retract.len(), 2);
}

#[test]
fn failures_are_of_the_same_kind_with_either_line_ending() {
    for input in ["module", "bogus foo\n", "require (\n a v1\n", "module a\nreplace a b\n"] {
        let lf = GoMod::parse(input).unwrap_err();
        let crlf = GoMod::parse(&input.replace("\n", "\r\n")).unwrap_err();
        assert_eq!(lf.kind, crlf.kind);
        let longer = GoMod::parse(&format!("{}\n\n", input)).unwrap_err();
        assert_eq!(lf.kind, longer.kind);
    }
}

#[test]
fn a_key_over_two_lines_changes_with_the_line_ending() {
    let lf = GoMod::from_str("godebug a\nb=1\n").unwrap();
    let crlf = GoMod::from_str("godebug a\r\nb=1\r\n").unwrap();
    assert_eq!(lf.godebug, vec![(text("a\nb"), text("1"))]);
    assert_eq!(crlf.godebug, vec![(text("a\r\nb"), text("1"))]);
}

#[test]
fn parse_through_the_standard_trait() {
    let go_mod: GoMod = "module example.com/hello\n\ngo 1.22\n".parse().unwrap();
    assert_eq!(go_mod.module, "example.com/hello");
    assert_eq!(go_mod.go.as_deref(), Some("1.22"));

    let go_mod: GoMod = "require rsc.io/quote v1.5.2 // indirect".parse().unwrap();
    assert!(go_mod.require[0].indirect);

    assert!("bogus foo".parse::<GoMod>().is_err());
}

#[test]
fn settings_are_found_by_key() {
    let go_mod = GoMod::from_str("godebug (\n default=go1.21\n panicnil=1\n default=go1.22\n)").unwrap();
    assert_eq!(go_mod.debug_setting("default"), Some(&text("go1.22")));
    assert_eq!(go_mod.debug_setting("panicnil"), Some(&text("1")));
    assert_eq!(go_mod.debug_setting("other"), None);
    assert_eq!(go_mod.debug_setting(""), None);
    assert_eq!(lookup(&go_mod.godebug, "panicnil"), Some(&text("1")));
    assert_eq!(lookup(&vec![], "panicnil"), None);
}
