use rules_rust_tools::mdbook::{
    book_dir, copy_error, exit_status, is_build_success, path_separator, plugin_path, profile_tmp,
    restage_failed_message, restaged_message, rlocation_of, scratch_dir, serve_args, stage_input,
    tmp_root, tmp_variables, watches_builds, Args, ServeError, StagedFile,
};
use rules_rust_tools::multi_buf::{next_chunk, MultiBuf};

fn texts(list: &[&str]) -> Vec<String> {
    list.iter().map(|s| s.to_string()).collect()
}

fn some(text: &str) -> Option<String> {
    Some(text.to_string())
}

fn under(parts: &[&str]) -> String {
    let mut p = camino::Utf8PathBuf::from(parts[0]);
    for part in &parts[1..] {
        p.push(part);
    }
    p.into_string()
}

/// Finds everything in the runfiles but what begins with `missing`.
fn parse(raw: &[&str]) -> Result<Args, ServeError> {
    let raw = texts(raw);
    let locations: Vec<Option<String>> = raw
        .iter()
        .map(|arg| {
            rlocation_of(arg)
                .filter(|r| !r.starts_with("missing"))
                .map(|r| format!("/runfiles/{r}"))
        })
        .collect();
    Args::parse(&raw, &locations, texts(&["--open"]))
}

const NEEDED: [&str; 4] = ["--mdbook=m", "--config=book.toml", "--hostname=h", "--port=80"];

#[test]
fn server_command_line() {
    let mut raw = NEEDED.to_vec();
    raw.extend(["--plugin=p1", "--src=a=docs/a.md", "--plugin=p2", "ignored", "--src=b=x=y"]);
    let args = parse(&raw).unwrap();
    assert_eq!(args.mdbook, "/runfiles/m");
    assert_eq!(args.config_dest, "book.toml");
    assert_eq!(args.hostname, "h");
    assert_eq!(args.port, "80");
    assert_eq!(args.plugins, texts(&["/runfiles/p1", "/runfiles/p2"]));
    assert_eq!(
        args.srcs,
        vec![
            ("docs/a.md".to_string(), "/runfiles/a".to_string()),
            ("x=y".to_string(), "/runfiles/b".to_string()),
        ],
    );
    assert_eq!(args.mdbook_args, texts(&["--open"]));
}

#[test]
fn files_are_staged_in_the_order_of_their_places() {
    let mut raw = NEEDED.to_vec();
    raw.extend(["--src=1=b.md", "--src=2=a-b", "--src=3=a/b", "--src=4=a", "--src=5=/abs"]);
    let places: Vec<String> =
        parse(&raw).unwrap().srcs.into_iter().map(|(place, _)| place).collect();
    assert_eq!(places, texts(&["/abs", "a", "a/b", "a-b", "b.md"]));
}

#[test]
fn last_file_named_for_a_place_is_staged_there() {
    let mut raw = NEEDED.to_vec();
    raw.extend(["--src=a=docs/x.md", "--src=b=other.md", "--src=c=docs//x.md", "--port=81"]);
    let args = parse(&raw).unwrap();
    assert_eq!(
        args.srcs,
        vec![
            ("docs/x.md".to_string(), "/runfiles/c".to_string()),
            ("other.md".to_string(), "/runfiles/b".to_string()),
        ],
    );
    assert_eq!(args.port, "81");
}

#[test]
fn first_wrong_argument_is_the_error() {
    assert_eq!(
        parse(&["--mdbook=missing1", "--src=nothing"]).unwrap_err(),
        ServeError::MissingProgram("missing1".to_string())
    );
    assert_eq!(
        parse(&["--plugin=missing2"]).unwrap_err().message(),
        "Failed to resolve runfile: missing2"
    );
    let err = parse(&["--src=nothing", "--mdbook=missing1"]).unwrap_err();
    assert_eq!(err, ServeError::MalformedSrc("nothing".to_string()));
    assert_eq!(
        err.message(),
        "Malformed --src arg (expected `rlocation=dest`): nothing"
    );
    let err = parse(&["--src=missing3=dest"]).unwrap_err();
    assert_eq!(err, ServeError::MissingSrc("missing3".to_string()));
    assert_eq!(err.message(), "Failed to resolve src runfile: missing3");
    for left_out in 0..NEEDED.len() {
        let mut raw = NEEDED.to_vec();
        raw.remove(left_out);
        let err = parse(&raw).unwrap_err();
        assert_eq!(err, ServeError::MissingArgument);
        assert_eq!(err.message(), "--mdbook, --config, --hostname and --port are required");
    }
}

#[test]
fn what_is_looked_up_in_the_runfiles() {
    assert_eq!(rlocation_of("--mdbook=a/b"), some("a/b"));
    assert_eq!(rlocation_of("--plugin=p"), some("p"));
    assert_eq!(rlocation_of("--src=r=d"), some("r"));
    assert_eq!(rlocation_of("--src=r"), None);
    assert_eq!(rlocation_of("--port=1"), None);
    assert_eq!(rlocation_of("x--mdbook=a"), None);
}

#[test]
fn directory_for_temporary_files() {
    assert_eq!(tmp_variables(), texts(&["TMP", "TEMP", "TMPDIR", "TEMPDIR"]));
    let unset = vec![None, None, None, None];
    assert_eq!(
        tmp_root(&vec![None, some("/t"), some("/u"), None], true, &None, false),
        some("/t")
    );
    assert_eq!(tmp_root(&unset, true, &some("/p"), true), some("/tmp"));
    assert_eq!(
        tmp_root(&unset, false, &some("/p"), true),
        Some(under(&["/p", "AppData", "Local", "Temp"]))
    );
    assert_eq!(tmp_root(&unset, false, &some("/p"), false), None);
    assert_eq!(tmp_root(&unset, false, &None, true), None);
    assert_eq!(profile_tmp("/p"), under(&["/p", "AppData", "Local", "Temp"]));
    assert_eq!(
        scratch_dir("/t", 17, "dest"),
        under(&["/t", "rules_mdbook_server", "17-dest"])
    );
}

#[test]
fn nothing_is_staged_outside() {
    assert_eq!(
        stage_input("/w", "docs/a.md", "/src/a").unwrap(),
        StagedFile {
            path: under(&["/w", "docs/a.md"]),
            parent: Some(under(&["/w", "docs"])),
        },
    );
    let err = stage_input("/w", "/etc/a.md", "/src/a").unwrap_err();
    assert_eq!(
        err,
        ServeError::OutsideWorkdir("/src/a".to_string(), "/etc/a.md".to_string())
    );
    assert_eq!(err.message(), "Refusing to stage outside workdir: /src/a -> /etc/a.md");
    assert_eq!(copy_error("a", "b", "gone"), "copy `a` -> `b`: gone");
    assert_eq!(book_dir("/w", "docs/book.toml"), Some(under(&["/w", "docs"])));
}

#[test]
fn builds_that_succeeded() {
    assert!(is_build_success("IBAZEL_BUILD_COMPLETED SUCCESS\n"));
    assert!(is_build_success("  IBAZEL_BUILD_COMPLETED SUCCESS \r\n"));
    assert!(!is_build_success("IBAZEL_BUILD_COMPLETED FAILURE\n"));
    assert!(!is_build_success("IBAZEL_BUILD_STARTED\n"));
    assert!(!is_build_success("x IBAZEL_BUILD_COMPLETED SUCCESS"));
    assert!(watches_builds(&some("y")));
    assert!(!watches_builds(&some("n")));
    assert!(!watches_builds(&None));
    assert_eq!(
        restaged_message(2),
        "[mdbook_server] re-staged sources (#2) after ibazel build"
    );
    assert_eq!(restage_failed_message("full"), "[mdbook_server] re-stage failed: full");
}

#[test]
fn plugins_come_first_in_the_path() {
    assert_eq!(plugin_path(&Vec::new(), "/pwd", "/bin", ":").unwrap(), None);
    assert_eq!(
        plugin_path(&texts(&["/p/a", "rel/b"]), "/pwd", "/bin", ":").unwrap(),
        Some(format!("/p:{}:/bin", under(&["/pwd", "rel"])))
    );
    let err = plugin_path(&texts(&["/p/a", "/"]), "/pwd", "/bin", ":").unwrap_err();
    assert_eq!(err, ServeError::NoDirectory("/".to_string()));
    assert_eq!(err.message(), "plugin has no parent: /");
    assert_eq!(path_separator(false), ":");
    assert_eq!(path_separator(true), ";");
}

#[test]
fn options_are_added_unless_the_user_gives_them() {
    let (args, user_dest) = serve_args("/book", &texts(&["--open"]), "localhost", "3000", "/dest");
    assert_eq!(
        args,
        texts(&[
            "serve", "/book", "--open", "--hostname", "localhost", "--port", "3000", "--dest-dir",
            "/dest",
        ]),
    );
    assert!(!user_dest);
    let (args, user_dest) =
        serve_args("/book", &texts(&["-n", "x", "-p=1", "--dest-dir=/d"]), "h", "2", "/dest");
    assert_eq!(args, texts(&["serve", "/book", "-n", "x", "-p=1", "--dest-dir=/d"]));
    assert!(user_dest);
    let (args, user_dest) =
        serve_args("/book", &texts(&["--hostname=x", "--portable", "-d"]), "h", "2", "/dest");
    assert_eq!(
        args,
        texts(&["serve", "/book", "--hostname=x", "--portable", "-d", "--port", "2"])
    );
    assert!(user_dest);
}

#[test]
fn server_ends_like_mdbook() {
    assert_eq!(exit_status(true, Some(0)), None);
    assert_eq!(exit_status(false, Some(3)), Some(3));
    assert_eq!(exit_status(false, None), Some(1));
}

#[test]
fn test_next_chunk_iterates_and_terminates() {
    let mut buf = MultiBuf { chunks: vec![b"hello".to_vec(), b"world".to_vec()], pos: 0 };
    assert_eq!(next_chunk(&mut buf), b"hello");
    assert_eq!(next_chunk(&mut buf), b"world");
    assert_eq!(next_chunk(&mut buf), b"" as &[u8]);
}
