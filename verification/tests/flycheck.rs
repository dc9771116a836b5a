use rules_rust_tools::flycheck::{
    absolutize_file_names, bep_path, candidate_lines, diagnostic_files, emitted_line,
    emitted_lines, execution_root_args, exit_code, flycheck_command, output_user_root,
    parse_execution_root, workspace_dir,
};
use rules_rust_tools::json::{parse_json, Tree};

fn json(text: &str) -> Tree {
    parse_json(text).unwrap()
}

fn concat(lines: &[&str]) -> String {
    lines.join("\n")
}

fn member<'a>(value: &'a Tree, key: &str) -> &'a Tree {
    value.get(key).unwrap_or_else(|| panic!("no `{key}`"))
}

fn items(value: &Tree) -> &Vec<Tree> {
    match value {
        Tree::Array(list) => list,
        other => panic!("not a list: {other:?}"),
    }
}

fn texts(list: &[&str]) -> Vec<String> {
    list.iter().map(|s| s.to_string()).collect()
}

#[test]
fn relative_file_names_become_absolute() {
    let workspace = camino::Utf8Path::new("/abs/ws");
    let mut v = json(
        r#"{
            "$message_type": "diagnostic",
            "spans": [
                {"file_name": "util/label/label.rs", "byte_start": 0},
                {"file_name": "/already/absolute.rs", "byte_start": 1},
                {
                    "file_name": "src/lib.rs",
                    "expansion": {
                        "span": {"file_name": "src/macro.rs"}
                    }
                }
            ],
            "children": [
                {"spans": [{"file_name": "src/inner.rs"}]}
            ]
        }"#,
    );
    absolutize_file_names(&mut v, workspace.as_str());
    let expect = |rel: &str| Tree::Text(workspace.join(rel).to_string());
    let spans = items(member(&v, "spans"));
    assert_eq!(member(&spans[0], "file_name"), &expect("util/label/label.rs"));
    assert_eq!(
        member(&spans[1], "file_name"),
        &Tree::Text("/already/absolute.rs".to_string())
    );
    assert_eq!(member(&spans[2], "file_name"), &expect("src/lib.rs"));
    assert_eq!(
        member(member(member(&spans[2], "expansion"), "span"), "file_name"),
        &expect("src/macro.rs"),
    );
    let children = items(member(&v, "children"));
    assert_eq!(
        member(&items(member(&children[0], "spans"))[0], "file_name"),
        &expect("src/inner.rs"),
    );
    assert_eq!(member(&spans[0], "byte_start"), &Tree::Number("0".to_string()));
}

#[test]
fn empty_file_name_is_left_alone() {
    let mut v = json(r#"{"spans": [{"file_name": ""}]}"#);
    absolutize_file_names(&mut v, "/ws");
    assert_eq!(
        member(&items(member(&v, "spans"))[0], "file_name"),
        &Tree::Text(String::new())
    );
}

#[test]
fn absolute_file_names_stay_when_made_absolute_again() {
    let mut once = json(r#"{"file_name": "a.rs", "other": [{"file_name": 3}, null, true]}"#);
    absolutize_file_names(&mut once, "/ws");
    let mut twice = once.copied();
    absolutize_file_names(&mut twice, "/elsewhere");
    assert_eq!(once, twice);
}

#[test]
fn lines_that_may_hold_diagnostics() {
    assert_eq!(
        candidate_lines("noise\n  {\"a\":1}\r\n\n{not json\nx{}\n\t{}"),
        texts(&["  {\"a\":1}", "{not json", "\t{}"]),
    );
}

#[test]
fn what_is_no_json_is_dropped() {
    assert_eq!(emitted_lines("{not json\nsandbox warning\n", "/ws"), vec![]);
    assert_eq!(emitted_line(None, "/ws"), None);
    assert_eq!(
        emitted_line(Some(json(r#"{"file_name": "/a.rs"}"#)), "/ws"),
        Some(json(r#"{"file_name": "/a.rs"}"#)),
    );
}

#[test]
fn diagnostics_of_a_file_come_in_order() {
    let content = concat(&[
        "warning: sandbox",
        r#"  {"b": [1, 2.50], "a": null, "file_name": "src/lib.rs"}"#,
        "{broken",
        r#"{} trailing"#,
        r#"{"children": [{"file_name": "/abs.rs"}], "k": "\u0041\n", "k": true}"#,
    ]);
    let expected = |rel: &str| Tree::Text(camino::Utf8Path::new("/ws").join(rel).to_string());
    assert_eq!(
        emitted_lines(&content, "/ws"),
        vec![
            Tree::Object(vec![
                ("a".to_string(), Tree::Null),
                (
                    "b".to_string(),
                    Tree::Array(vec![
                        Tree::Number("1".to_string()),
                        Tree::Number("2.5".to_string()),
                    ]),
                ),
                ("file_name".to_string(), expected("src/lib.rs")),
            ]),
            Tree::Object(vec![
                (
                    "children".to_string(),
                    Tree::Array(vec![Tree::Object(vec![(
                        "file_name".to_string(),
                        Tree::Text("/abs.rs".to_string()),
                    )])]),
                ),
                ("k".to_string(), Tree::Bool(true)),
            ]),
        ],
    );
}

#[test]
fn json_is_read_as_a_whole() {
    assert_eq!(parse_json(""), None);
    assert_eq!(parse_json("1 2"), None);
    assert_eq!(parse_json(" \"\\u00e9\" "), Some(Tree::Text("\u{e9}".to_string())));
    assert_eq!(parse_json("-7"), Some(Tree::Number("-7".to_string())));
}

#[test]
fn files_of_actions_come_before_those_of_clippy() {
    let actions = Some(texts(&["a"]));
    let clippy = Some(texts(&["b", "c"]));
    assert_eq!(diagnostic_files(&actions, true, &clippy), texts(&["a", "b", "c"]));
    assert_eq!(diagnostic_files(&actions, false, &clippy), texts(&["a"]));
    assert_eq!(diagnostic_files(&None, true, &clippy), texts(&["b", "c"]));
    assert_eq!(diagnostic_files(&actions, true, &None), texts(&["a"]));
}

#[test]
fn flycheck_builds_with_a_server_of_its_own() {
    let plain = flycheck_command("bazel", "/ws", "/root", "//a:b", "/tmp/bep.json", false);
    assert_eq!(plain.program, "bazel");
    assert_eq!(plain.cwd, "/ws");
    assert_eq!(
        plain.args,
        texts(&[
            "--output_user_root=/root",
            "build",
            "//a:b",
            "--@rules_rust//rust/settings:error_format=json",
            "--@rules_rust//rust/settings:rustc_output_diagnostics=true",
            "--output_groups=+rustc_output",
            "--keep_going",
            "--build_event_json_file=/tmp/bep.json",
        ]),
    );
    let with_clippy = flycheck_command("bazel", "/ws", "/root", "//a:b", "/tmp/bep.json", true);
    assert_eq!(with_clippy.args[..8], plain.args[..]);
    assert_eq!(
        with_clippy.args[8..],
        texts(&[
            "--aspects=@rules_rust//rust:defs.bzl%rust_clippy_aspect",
            "--@rules_rust//rust/settings:clippy_output_diagnostics=true",
            "--output_groups=+clippy_output",
        ]),
    );
}

#[test]
fn flycheck_paths() {
    assert_eq!(workspace_dir(&Some("/ws".to_string()), "/cwd"), "/ws");
    assert_eq!(workspace_dir(&None, "/cwd"), "/cwd");
    assert_eq!(
        bep_path("/tmp", 42),
        camino::Utf8Path::new("/tmp").join("flycheck_bep_42.json").as_str()
    );
    assert_eq!(output_user_root(&Some("/r".to_string()), "/install"), "/r");
    assert_eq!(
        output_user_root(&None, "/install"),
        camino::Utf8Path::new("/install").join("output_user_root").as_str()
    );
}

#[test]
fn execution_root_is_asked_for_and_trimmed() {
    assert_eq!(
        execution_root_args("/root"),
        texts(&["--output_user_root=/root", "info", "execution_root"])
    );
    assert_eq!(parse_execution_root("  /exec/root\n"), "/exec/root");
}

#[test]
fn flycheck_status_is_that_of_bazel() {
    assert_eq!(exit_code(Some(0)), 0);
    assert_eq!(exit_code(Some(3)), 3);
    assert_eq!(exit_code(Some(257)), 1);
    assert_eq!(exit_code(None), 1);
}
