use rules_rust_tools::rustdoc_runner::{
    find_test_binaries, load_test_name_map, report, test_name_for_bin, test_name_in, test_result,
    Entry, TestResult,
};
use rules_rust_tools::rustdoc_wrapper::{
    conclude, contains_subslice, label_names, line_has_warning, locate, mangle_test_name,
    parse_test_names, sanitize, test_metadata, Counts, WrapperArgs, WrapperError,
};
use rules_rust_tools::string_map::StringMap;

fn texts(list: &[&str]) -> Vec<String> {
    list.iter().map(|s| s.to_string()).collect()
}

const PRINTED: &str = "\nrunning 3 tests\n\
test src/lib.rs - a (line 3) ... ok\r\n\
test src/lib.rs - b (line 10) ... ok\n\
test src/lib.rs - b (line 10) ... FAILED\n\
testing nothing ... ok\n\
test without a status\n";

#[test]
fn command_of_the_wrapper() {
    let args =
        WrapperArgs::parse(&texts(&["--test-metadata", "m.txt", "--", "rustdoc", "--", "-x"]))
            .unwrap();
    assert_eq!(args.test_metadata_path.as_deref(), Some("m.txt"));
    assert_eq!(args.child_args, texts(&["rustdoc", "--", "-x"]));
    assert_eq!(args.command().unwrap(), ("rustdoc".to_string(), texts(&["--", "-x"])));
}

#[test]
fn wrapper_takes_the_last_path_for_names() {
    let args = WrapperArgs::parse(&texts(&["--test-metadata", "a", "--test-metadata", "b"]));
    assert_eq!(args.unwrap().test_metadata_path.as_deref(), Some("b"));
    let args = WrapperArgs::parse(&texts(&["--test-metadata", "a", "--test-metadata"]));
    assert_eq!(args.unwrap().test_metadata_path, None);
}

#[test]
fn wrapper_errors_are_described() {
    let err = WrapperArgs::parse(&texts(&["--bogus", "--"])).unwrap_err();
    assert_eq!(err, WrapperError::UnknownFlag("--bogus".to_string()));
    assert_eq!(err.message(), "Unknown wrapper flag: --bogus");
    let err = WrapperArgs::parse(&texts(&["--"])).unwrap().command().unwrap_err();
    assert_eq!(err, WrapperError::NoCommand);
    assert_eq!(
        err.message(),
        "Usage: rustdoc_compile_wrapper [--test-metadata FILE] -- <command> [args...]"
    );
}

#[test]
fn names_come_in_the_order_in_which_they_are_printed() {
    assert_eq!(
        parse_test_names(PRINTED),
        texts(&[
            "src/lib.rs - a (line 3)",
            "src/lib.rs - b (line 10)",
            "src/lib.rs - b (line 10)",
        ]),
    );
    assert_eq!(parse_test_names("test a ... b ... ok"), texts(&["a ... b"]));
}

#[test]
fn directories_are_numbered_at_each_place() {
    let mut counts = Counts::new();
    let mut mangle = |name: &str| mangle_test_name(name, &mut counts);
    assert_eq!(mangle("src/lib.rs - a (line 3)"), "src_lib_rs_3_0");
    assert_eq!(mangle("src/lib.rs - b (line 10)"), "src_lib_rs_10_0");
    assert_eq!(mangle("src/lib.rs - c::d (line 3)"), "src_lib_rs_3_1");
    assert_eq!(mangle("src/lib.rs - a (line 3)"), "src_lib_rs_3_2");
    assert_eq!(mangle("a - b - c (line 1) (line 2)"), "a_2_0");
    assert_eq!(mangle("no place: \u{e9}"), "no_place___");
    assert_eq!(mangle("no item (line 3)"), "no_item__line_3_");
}

#[test]
fn places_of_names() {
    assert_eq!(
        locate("a/b.rs - x (line 7)"),
        Some(("a_b_rs".to_string(), "7".to_string()))
    );
    assert_eq!(locate("a/b.rs - x (line 7"), None);
    assert_eq!(locate("a/b.rs (line 7)"), None);
    assert_eq!(sanitize("aZ9-_\u{e9}"), "aZ9___");
}

#[test]
fn metadata_is_sorted_by_directory() {
    assert_eq!(
        test_metadata(PRINTED),
        "src_lib_rs_10_0=src/lib.rs - b (line 10)\n\
         src_lib_rs_10_1=src/lib.rs - b (line 10)\n\
         src_lib_rs_3_0=src/lib.rs - a (line 3)\n",
    );
    assert_eq!(test_metadata(""), "");
}

#[test]
fn no_two_tests_share_a_directory() {
    let labelled = label_names(texts(&[
        "a_1 - x (line 2)",
        "a - x (line 1)",
        "a - y (line 1)",
        "a_1 - y (line 2)",
        "a/1 - z (line 2)",
    ]));
    let mut directories: Vec<String> = labelled.into_iter().map(|(d, _)| d).collect();
    assert_eq!(directories, texts(&["a_1_2_0", "a_1_0", "a_1_1", "a_1_2_1", "a_1_2_2"]));
    directories.sort();
    directories.dedup();
    assert_eq!(directories.len(), 5);
}

#[test]
fn runner_reads_what_the_wrapper_wrote() {
    let map = load_test_name_map(&Some(test_metadata(PRINTED)));
    for (directory, name) in label_names(parse_test_names(PRINTED)) {
        assert_eq!(map.get(&directory), Some(&name));
    }
    assert_eq!(map.len(), 3);
    assert!(load_test_name_map(&None).is_empty());
}

#[test]
fn a_name_with_an_equals_sign_is_read_back() {
    let printed = "test a.rs - f::<A=B> (line 4) ... ok\ntest a.rs - g (line 4) ... ok\n";
    let map = load_test_name_map(&Some(test_metadata(printed)));
    assert_eq!(map.get("a_rs_4_0"), Some(&"a.rs - f::<A=B> (line 4)".to_string()));
    assert_eq!(map.get("a_rs_4_1"), Some(&"a.rs - g (line 4)".to_string()));
    assert_eq!(map.len(), 2);
}

#[test]
fn lines_without_a_name_are_passed_over() {
    let map = load_test_name_map(&Some("a=b=c\nnothing\n=x\na=d\n".to_string()));
    assert_eq!(map.get("a").map(String::as_str), Some("d"));
    assert_eq!(map.get("").map(String::as_str), Some("x"));
    assert_eq!(map.len(), 2);
}

#[test]
fn warnings_are_seen() {
    assert!(line_has_warning(b"warning: unused"));
    assert!(line_has_warning(b"\xff src/lib.rs: warning:"));
    assert!(!line_has_warning(b"warning"));
    assert!(!line_has_warning(b""));
    assert!(contains_subslice(b"aab", b"ab"));
    assert!(!contains_subslice(b"aab", b"ba"));
}

#[test]
fn output_is_shown_after_a_failure_or_a_warning() {
    let some = vec![1u8];
    assert_eq!(conclude(false, Some(0), false, &some), (0, false));
    assert_eq!(conclude(false, Some(0), true, &some), (0, true));
    assert_eq!(conclude(false, Some(101), false, &some), (101, true));
    assert_eq!(conclude(false, None, false, &some), (1, true));
    assert_eq!(conclude(true, Some(101), true, &some), (101, false));
    assert_eq!(conclude(false, Some(101), true, &Vec::new()), (101, false));
}

#[test]
fn tests_are_found_in_the_order_of_their_paths() {
    let file = |name: &str| Entry::File(name.to_string());
    let dir = |name: &str, entries: Vec<Entry>| Entry::Directory(name.to_string(), entries);
    let found = find_test_binaries(&vec![
        dir("a.b", vec![file("rust_out")]),
        dir("a", vec![
            file("notes"),
            file("rust_out.exe"),
            dir("rust_out", vec![file("rust_out")]),
        ]),
        file("rust_out"),
        dir("empty", vec![]),
    ]);
    assert_eq!(
        found,
        vec![
            texts(&["a", "rust_out", "rust_out"]),
            texts(&["a", "rust_out.exe"]),
            texts(&["a.b", "rust_out"]),
            texts(&["rust_out"]),
        ],
    );
}

#[test]
fn tests_are_called_by_their_directory() {
    let map = StringMap::from_pairs(vec![("d_1_0".to_string(), "d - x (line 1)".to_string())]);
    assert_eq!(test_name_for_bin("/t/d_1_0/rust_out", &map), "d - x (line 1)");
    assert_eq!(test_name_for_bin("/t/other/rust_out", &map), "other");
    assert_eq!(test_name_for_bin("/rust_out", &map), "unknown");
    assert_eq!(test_name_for_bin("", &map), "unknown");
    assert_eq!(test_name_in(&None, &map), "unknown");
    assert_eq!(test_name_in(&Some("d_1_0".to_string()), &map), "d - x (line 1)");
}

fn result(name: &str, code: Option<i32>, stdout: &str, stderr: &str) -> TestResult {
    test_result(
        name.to_string(),
        code == Some(0),
        code,
        stdout.to_string(),
        stderr.to_string(),
    )
}

#[test]
fn report_of_a_run_that_passed() {
    let (text, passed) = report(&vec![result("a", Some(0), "x", "y")], "0.12");
    assert!(passed);
    assert_eq!(
        text,
        "\nrunning 1 test\n\
         test a ... ok\n\
         \n\
         test result: ok. 1 passed; 0 failed; 0 ignored; 0 measured; 0 filtered out; finished in 0.12s\n",
    );
    let (text, passed) = report(&Vec::new(), "0.00");
    assert!(passed);
    assert_eq!(
        text,
        "\nrunning 0 tests\n\
         \n\
         test result: ok. 0 passed; 0 failed; 0 ignored; 0 measured; 0 filtered out; finished in 0.00s\n",
    );
}

#[test]
fn report_of_a_run_that_failed() {
    let (text, passed) = report(
        &vec![
            result("z", Some(101), "  printed \n", "panicked\n"),
            result("ok", Some(0), "", ""),
            result("b", None, "", " \n"),
        ],
        "1.50",
    );
    assert!(!passed);
    assert_eq!(
        text,
        "\nrunning 3 tests\n\
         test z ... FAILED\n\
         test ok ... ok\n\
         test b ... FAILED\n\
         \n\
         failures:\n\
         \n\
         ---- z stdout ----\n\
         printed\n\
         \n\
         Test executable failed (exit status: 101).\n\
         \n\
         stderr:\n\
         \n\
         panicked\n\
         \n\
         \n\
         ---- b stdout ----\n\
         Test executable failed (exit status: 1).\n\
         \n\
         stderr:\n\
         \n\
         \n\
         \n\
         failures:\n    \
             b\n    \
             z\n\
         \n\
         test result: FAILED. 1 passed; 2 failed; 0 ignored; 0 measured; 0 filtered out; finished in 1.50s\n",
    );
}
