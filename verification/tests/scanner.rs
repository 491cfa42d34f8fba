use gomod_parser::combinator::{
    char_is, member, not_whitespace, tag, take_till, take_while, BLANKS, CRLF,
    WHITESPACES,
};
use gomod_parser::parser::{
    block, comment, directive, exclude, go, godebug, godebug_single, line_value, listing, module,
    replace, replace_single, require, require_single, retract, retract_single, tool, toolchain,
    version_range, version_single, Directive,
};
use gomod_parser::error::{ErrorKind, ParseError};
use gomod_parser::source::Source;
use gomod_parser::{Module, ModuleDependency, ModuleRetract};

fn chars(s: &str) -> Vec<char> {
    s.chars().collect()
}

#[test]
fn member_of_a_set() {
    assert!(member(&BLANKS, ' ') && member(&BLANKS, '\t'));
    assert!(!member(&BLANKS, '\n') && !member(&BLANKS, 'a'));
    assert!(member(&CRLF, '\r') && member(&CRLF, '\n') && !member(&CRLF, ' '));
    assert!(member(&WHITESPACES, ' ') && member(&WHITESPACES, '\n'));
    assert!(!member(&[], 'a'));
}

#[test]
fn take_while_stops_at_the_first_other_character() {
    let input = chars("  \t x ");
    assert_eq!(take_while(&input, 0, &BLANKS), 4);
    assert_eq!(take_while(&input, 4, &BLANKS), 4);
    assert_eq!(take_while(&input, 5, &BLANKS), 6);
    assert_eq!(take_while(&input, 6, &BLANKS), 6);
    assert_eq!(take_while(&input, 60, &BLANKS), 60);
}

#[test]
fn take_till_stops_at_the_first_stop() {
    let input = chars("ab cd\nef");
    assert_eq!(take_till(&input, 0, &WHITESPACES), 2);
    assert_eq!(take_till(&input, 0, &CRLF), 5);
    assert_eq!(take_till(&input, 2, &WHITESPACES), 2);
    assert_eq!(take_till(&input, 6, &WHITESPACES), 8);
    assert_eq!(take_till(&input, 9, &WHITESPACES), 9);
}

#[test]
fn not_whitespace_needs_one_character() {
    let input = chars("go 1.21\r\nx\ty");
    assert_eq!(not_whitespace(&input, 0), Some(2));
    assert_eq!(not_whitespace(&input, 2), None);
    assert_eq!(not_whitespace(&input, 3), Some(7));
    assert_eq!(not_whitespace(&input, 7), None);
    assert_eq!(not_whitespace(&input, 9), Some(10));
    assert_eq!(not_whitespace(&input, 11), Some(12));
    assert_eq!(not_whitespace(&input, 12), None);
    assert_eq!(not_whitespace(&input, 13), None);
}

#[test]
fn tag_matches_a_literal() {
    let input = chars("a => b");
    assert!(tag(&input, 2, "=>"));
    assert!(!tag(&input, 1, "=>"));
    assert!(!tag(&input, 3, "=>"));
    assert!(tag(&input, 5, "b"));
    assert!(!tag(&input, 5, "bb"));
    assert!(tag(&input, 6, ""));
    assert!(!tag(&input, 7, ""));
    assert!(tag(&input, 0, "a => b"));
}

#[test]
fn char_is_false_at_the_end() {
    let input = chars("()");
    assert!(char_is(&input, 0, '('));
    assert!(!char_is(&input, 0, ')'));
    assert!(char_is(&input, 1, ')'));
    assert!(!char_is(&input, 2, ')'));
}

#[test]
fn source_slices_by_characters() {
    let ascii = Source::new("module a");
    assert_eq!(ascii.len(), 8);
    assert_eq!(ascii.slice(0, 6), "module");
    assert_eq!(ascii.slice(7, 8), "a");
    assert_eq!(ascii.slice(8, 8), "");
    assert_eq!(ascii.chars(), &chars("module a")[..]);
    let other = Source::new("é=ü x");
    assert_eq!(other.len(), 5);
    assert_eq!(other.slice(0, 1), "é");
    assert_eq!(other.slice(2, 5), "ü x");
}

#[test]
fn comment_reads_the_rest_of_a_line() {
    let src = Source::new("a v1  // indirect\r\n\r\nb");
    assert_eq!(comment(&src, 4), Some(("indirect".to_string(), 21)));
    assert_eq!(comment(&src, 6), Some(("indirect".to_string(), 21)));
    assert_eq!(comment(&src, 0), None);
    assert_eq!(comment(&src, 7), None);
    assert_eq!(comment(&src, 22), None);
    assert_eq!(comment(&src, 99), None);
}

#[test]
fn line_value_reads_after_blanks() {
    let src = Source::new("module  a b \n\ngo");
    assert_eq!(line_value(&src, 6), Ok(("a b ".to_string(), 14)));
    assert_eq!(line_value(&src, 9), Ok(("b ".to_string(), 14)));
    assert_eq!(
        line_value(&src, 8),
        Err(ParseError { kind: ErrorKind::MalformedEntry, offset: 8 })
    );
    assert_eq!(
        line_value(&src, 16),
        Err(ParseError { kind: ErrorKind::MalformedEntry, offset: 16 })
    );
}

#[test]
fn entries_by_position() {
    let src = Source::new("a=1 b v2 [v1,v2] c => d");
    assert_eq!(godebug_single(&src, 0), Ok((("a".to_string(), "1".to_string()), 3)));
    assert_eq!(
        require_single(&src, 4),
        Ok((
            ModuleDependency {
                module: Module { path: "b".to_string(), version: "v2".to_string() },
                indirect: false
            },
            8
        ))
    );
    assert_eq!(
        version_range(&src, 9),
        Ok((ModuleRetract::Range("v1".to_string(), "v2".to_string()), 16))
    );
    assert_eq!(
        retract_single(&src, 9),
        Ok((ModuleRetract::Range("v1".to_string(), "v2".to_string()), 16))
    );
    assert_eq!(version_single(&src, 6), Ok((ModuleRetract::Single("v2".to_string()), 8)));
    assert_eq!(retract_single(&src, 6), Ok((ModuleRetract::Single("v2".to_string()), 8)));
    let replaced = replace_single(&src, 17).unwrap();
    assert_eq!(replaced.0.path, "c");
    assert_eq!(replaced.1, 23);
    assert_eq!(
        replace_single(&src, 23),
        Err(ParseError { kind: ErrorKind::MalformedEntry, offset: 23 })
    );
}

#[test]
fn listing_reads_single_and_block() {
    let src = Source::new("x a=1\n\ny (\n a=1\n b=2 ) \n z");
    assert_eq!(
        listing::<(String, String)>(&src, 1),
        Ok((vec![("a".to_string(), "1".to_string())], 7))
    );
    assert_eq!(
        listing::<(String, String)>(&src, 8),
        Ok((
            vec![("a".to_string(), "1".to_string()), ("b".to_string(), "2".to_string())],
            25
        ))
    );
    assert_eq!(
        block::<(String, String)>(&src, 9),
        Ok((
            vec![("a".to_string(), "1".to_string()), ("b".to_string(), "2".to_string())],
            25
        ))
    );
    assert_eq!(
        block::<(String, String)>(&src, 99),
        Err(ParseError { kind: ErrorKind::MalformedEntry, offset: 99 })
    );
    assert_eq!(
        block::<(String, String)>(&src, 8),
        Err(ParseError { kind: ErrorKind::MalformedEntry, offset: 8 })
    );
}

#[test]
fn directive_by_position() {
    let src = Source::new("go 1.21\n\ntool t\n");
    assert_eq!(directive(&src, 0), Ok((Directive::Go("1.21".to_string()), 9)));
    assert_eq!(directive(&src, 9), Ok((Directive::Tool(vec!["t".to_string()]), 16)));
    assert_eq!(
        directive(&src, 16),
        Err(ParseError { kind: ErrorKind::UnrecognizedKeyword, offset: 16 })
    );
    assert_eq!(
        directive(&src, 2),
        Err(ParseError { kind: ErrorKind::UnrecognizedKeyword, offset: 2 })
    );
}

fn unrecognized(offset: usize) -> ParseError {
    ParseError { kind: ErrorKind::UnrecognizedKeyword, offset }
}

#[test]
fn one_line_directives_start_at_their_keyword() {
    let src = Source::new("module github.com/x\ngo 1.21\ntoolchain go1.21.1\ntool a/b");
    assert_eq!(module(&src, 0), Ok((Directive::Module("github.com/x".to_string()), 20)));
    assert_eq!(go(&src, 20), Ok((Directive::Go("1.21".to_string()), 28)));
    assert_eq!(toolchain(&src, 28), Ok((Directive::Toolchain("go1.21.1".to_string()), 47)));
    assert_eq!(tool(&src, 47), Ok((Directive::Tool(vec!["a/b".to_string()]), 55)));
    assert_eq!(module(&src, 20), Err(unrecognized(20)));
    assert_eq!(module(&src, 6), Err(unrecognized(6)));
    assert_eq!(module(&src, 2), Err(unrecognized(2)));
    assert_eq!(go(&src, 0), Err(unrecognized(0)));
    assert_eq!(go(&src, 22), Err(unrecognized(22)));
    assert_eq!(toolchain(&src, 47), Err(unrecognized(47)));
    assert_eq!(tool(&src, 28), Err(unrecognized(28)));
    assert_eq!(tool(&src, 99), Err(unrecognized(99)));
}

#[test]
fn listing_directives_start_at_their_keyword() {
    let src = Source::new("godebug a=1\nrequire a v1\nexclude b v2\nreplace c => d\nretract v3");
    assert_eq!(
        godebug(&src, 0),
        Ok((Directive::GoDebug(vec![("a".to_string(), "1".to_string())]), 12))
    );
    assert_eq!(
        require(&src, 12),
        Ok((
            Directive::Require(vec![ModuleDependency {
                module: Module { path: "a".to_string(), version: "v1".to_string() },
                indirect: false
            }]),
            25
        ))
    );
    assert_eq!(
        exclude(&src, 25),
        Ok((
            Directive::Exclude(vec![ModuleDependency {
                module: Module { path: "b".to_string(), version: "v2".to_string() },
                indirect: false
            }]),
            38
        ))
    );
    assert_eq!(replace(&src, 38).unwrap().1, 53);
    assert_eq!(
        retract(&src, 53),
        Ok((Directive::Retract(vec![ModuleRetract::Single("v3".to_string())]), 63))
    );
    assert_eq!(godebug(&src, 12), Err(unrecognized(12)));
    assert_eq!(require(&src, 0), Err(unrecognized(0)));
    assert_eq!(require(&src, 19), Err(unrecognized(19)));
    assert_eq!(exclude(&src, 12), Err(unrecognized(12)));
    assert_eq!(replace(&src, 53), Err(unrecognized(53)));
    assert_eq!(retract(&src, 38), Err(unrecognized(38)));
    assert_eq!(retract(&src, 64), Err(unrecognized(64)));
}

#[test]
fn godebug_directive_merges_by_key() {
    let src = Source::new("godebug (\n a=1\n b=2\n a=3\n)");
    assert_eq!(
        godebug(&src, 0),
        Ok((
            Directive::GoDebug(vec![
                ("a".to_string(), "3".to_string()),
                ("b".to_string(), "2".to_string())
            ]),
            26
        ))
    );
    assert_eq!(
        listing::<(String, String)>(&src, 7).unwrap().0,
        vec![
            ("a".to_string(), "1".to_string()),
            ("b".to_string(), "2".to_string()),
            ("a".to_string(), "3".to_string())
        ]
    );
}

#[test]
fn range_and_block_start_at_their_bracket() {
    let src = Source::new("xv1,v2] [v1,v2]");
    assert_eq!(
        version_range(&src, 0),
        Err(ParseError { kind: ErrorKind::MalformedEntry, offset: 0 })
    );
    assert_eq!(
        version_range(&src, 15),
        Err(ParseError { kind: ErrorKind::MalformedEntry, offset: 15 })
    );
    assert_eq!(
        version_range(&src, 8),
        Ok((ModuleRetract::Range("v1".to_string(), "v2".to_string()), 15))
    );
    let src = Source::new("x\n a=1\n)");
    assert_eq!(
        block::<(String, String)>(&src, 0),
        Err(ParseError { kind: ErrorKind::MalformedEntry, offset: 0 })
    );
}

#[test]
fn directive_skips_leading_line_terminators() {
    let src = Source::new("\n\ntoolchain go1.21.1\n");
    assert_eq!(directive(&src, 0), Ok((Directive::Toolchain("go1.21.1".to_string()), 21)));
    assert_eq!(directive(&src, 1), Ok((Directive::Toolchain("go1.21.1".to_string()), 21)));
    assert_eq!(directive(&src, 2), Ok((Directive::Toolchain("go1.21.1".to_string()), 21)));
    let src = Source::new("\r\n\r\n// c\r\n\n bogus");
    assert_eq!(directive(&src, 0), Ok((Directive::Comment("c".to_string()), 11)));
    assert_eq!(directive(&src, 8), Err(unrecognized(11)));
    assert_eq!(directive(&src, 11), Err(unrecognized(11)));
    assert_eq!(directive(&src, 12), Err(unrecognized(12)));
    let src = Source::new("\n\n");
    assert_eq!(directive(&src, 0), Err(unrecognized(2)));
    let src = Source::new("\n\nbogus foo");
    assert_eq!(directive(&src, 0), Err(unrecognized(2)));
}
