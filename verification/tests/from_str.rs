use gomod_parser::{GoMod, Module, ModuleDependency, ModuleReplacement, ModuleRetract, Replacement};
use std::collections::HashMap;
use std::str::FromStr;

#[test]
fn test_parse_complete() {
    let input = "// Complete example\n\nmodule github.com/complete\n\ngo 1.21\n\ntoolchain go1.21.1\n\nrequire golang.org/x/net v0.20.0\n\nexclude golang.org/x/net v0.19.1\n\nreplace golang.org/x/net v0.19.0 => example.com/fork/net v0.19.1\n\nretract v1.0.0\n";

    let go_mod = GoMod::from_str(input).unwrap();

    assert_eq!(go_mod.module, "github.com/complete".to_string());
    assert_eq!(go_mod.go, Some("1.21".to_string()));
    assert_eq!(go_mod.toolchain, Some("go1.21.1".to_string()));
    assert_eq!(
        go_mod.require,
        vec![ModuleDependency {
            module: Module {
                path: "golang.org/x/net".to_string(),
                version: "v0.20.0".to_string()
            },
            indirect: false
        }]
    );
    assert_eq!(
        go_mod.exclude,
        vec![ModuleDependency {
            module: Module {
                path: "golang.org/x/net".to_string(),
                version: "v0.19.1".to_string()
            },
            indirect: false
        }]
    );
    assert_eq!(
        go_mod.replace,
        vec![ModuleReplacement {
            path: "golang.org/x/net".to_string(),
            version: Some("v0.19.0".to_string()),
            replacement: Replacement::Module(Module {
                path: "example.com/fork/net".to_string(),
                version: "v0.19.1".to_string(),
            })
        }]
    );
    assert_eq!(
        go_mod.retract,
        vec![ModuleRetract::Single("v1.0.0".to_string())]
    );
    assert_eq!(go_mod.comment, vec!["Complete example".to_string()]);
}

#[test]
fn test_invalid_content() {
    let input = "modulegithub.com/no-space\n";

    let go_mod = GoMod::from_str(input);

    assert!(go_mod.is_err());
}

#[test]
fn test_no_line_ending_after_module() {
    let input = "module github.com/no-line-ending";

    let go_mod = GoMod::from_str(input).unwrap();

    assert_eq!(go_mod.module, "github.com/no-line-ending".to_string());
}

#[test]
fn test_no_line_ending_after_go() {
    let input = "module github.com/no-line-ending\n\ngo 1.24";

    let go_mod = GoMod::from_str(input).unwrap();

    assert_eq!(go_mod.go, Some("1.24".to_string()));
}

#[test]
fn test_no_line_ending_after_godebug() {
    let input = "module github.com/no-line-ending\n\ngodebug (\n    default=go1.21\n    panicnil=1\n)";

    let go_mod = GoMod::from_str(input).unwrap();

    assert_eq!(
        HashMap::<String, String>::from_iter(go_mod.godebug),
        HashMap::from([
            ("default".to_string(), "go1.21".to_string()),
            ("panicnil".to_string(), "1".to_string())
        ])
    );
}

#[test]
fn test_no_line_ending_after_tool() {
    let input = "module github.com/no-line-ending\n\ntool example.com/mymodule/cmd/mytool1";

    let go_mod = GoMod::from_str(input).unwrap();

    assert_eq!(
        go_mod.tool,
        vec!["example.com/mymodule/cmd/mytool1".to_string()]
    );
}

#[test]
fn test_no_line_ending_after_toolchain() {
    let input = "module github.com/no-line-ending\n\ntoolchain go1.21.1";

    let go_mod = GoMod::from_str(input).unwrap();

    assert_eq!(go_mod.toolchain, Some("go1.21.1".to_string()));
}

#[test]
fn test_no_line_ending_after_require() {
    let input = "module github.com/no-line-ending\n\nrequire (\n    golang.org/x/net v0.20.0\n)";

    let go_mod = GoMod::from_str(input).unwrap();

    assert_eq!(
        go_mod.require,
        vec![ModuleDependency {
            module: Module {
                path: "golang.org/x/net".to_string(),
                version: "v0.20.0".to_string()
            },
            indirect: false
        }]
    );
}

#[test]
fn test_comments() {
    let input = "module github.com/comments\n\n// 1st comment\n//2nd comment\n  // 3rd comment\n";

    let go_mod = GoMod::from_str(input).unwrap();

    assert_eq!(go_mod.module, "github.com/comments".to_string());
    assert_eq!(
        go_mod.comment,
        vec![
            "1st comment".to_string(),
            "2nd comment".to_string(),
            "3rd comment".to_string(),
        ]
    );
}
