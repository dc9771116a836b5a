use rules_rust_tools::cache::{cache_dir, cache_file, compute_key, staging_file};
use rules_rust_tools::crate_spec::{CrateSpec, CrateSpecBuild, CrateSpecs, CrateType};
use rules_rust_tools::discovery::{
    assess_discovery, bazel_command, bazel_info_command, bep_file_path, build_file_label_map,
    build_file_names, buildfile_candidates, buildfile_to_targets, crate_info_command, dir_to_bazel_package,
    flycheck_output_base, parse_bazel_info, source_file_to_buildfile, substitute_placeholders,
    warnings_report, workspace_root_file_names, BazelInfo, DiscoveryError, RustAnalyzerArg, ToolchainInfo,
};
use rules_rust_tools::generate::{first_step, next_step, DiscoveryBuild, Event, Request, Step};
use rules_rust_tools::order::SortedSet;
use rules_rust_tools::string_map::StringMap;
use rules_rust_tools::user_config::{load, saved, ConfigFields, ConfigRead, UserConfig};

fn texts(list: &[&str]) -> Vec<String> {
    list.iter().map(|s| s.to_string()).collect()
}

fn pairs(list: &[(&str, &str)]) -> Vec<(String, String)> {
    list.iter().map(|(a, b)| (a.to_string(), b.to_string())).collect()
}

fn under(parts: &[&str]) -> String {
    let mut p = camino::Utf8PathBuf::from(parts[0]);
    for part in &parts[1..] {
        p.push(part);
    }
    p.into_string()
}

fn spec(id: &str, root_module: &str, label: Option<&str>) -> CrateSpec {
    CrateSpec {
        aliases: StringMap::new(),
        crate_id: id.to_string(),
        display_name: id.to_string(),
        edition: "2021".to_string(),
        root_module: root_module.to_string(),
        is_workspace_member: true,
        deps: SortedSet::new(),
        proc_macro_dylib_path: None,
        source: None,
        cfg: Vec::new(),
        env: StringMap::new(),
        target: "x86_64-unknown-linux-gnu".to_string(),
        crate_type: CrateType::Lib,
        is_test: false,
        build: label.map(|l| CrateSpecBuild {
            label: l.to_string(),
            build_file: "BUILD.bazel".to_string(),
        }),
    }
}

#[test]
fn dir_to_bazel_package_normalizes_backslashes() {
    assert_eq!(dir_to_bazel_package(r"foo\bar\baz"), "foo/bar/baz");
    assert_eq!(dir_to_bazel_package(r"util\label"), "util/label");
    assert_eq!(dir_to_bazel_package("foo/bar"), "foo/bar");
    assert_eq!(dir_to_bazel_package(""), "");
    assert_eq!(dir_to_bazel_package(r"a/b\c/d"), "a/b/c/d");
}

#[test]
fn flycheck_output_base_appends_suffix_at_leaf() {
    assert_eq!(
        flycheck_output_base("/home/u/.cache/bazel/_bazel_u/abc123"),
        "/home/u/.cache/bazel/_bazel_u/abc123_rra",
    );
}

#[test]
fn assess_discovery_clean_build_is_complete() {
    assert!(!assess_discovery(true, 0, "").unwrap());
    assert!(!assess_discovery(true, 42, "").unwrap());
}

#[test]
fn assess_discovery_partial_failure_is_usable_but_incomplete() {
    assert!(assess_discovery(false, 2712, "boom").unwrap());
}

#[test]
fn assess_discovery_total_failure_errors() {
    let err = assess_discovery(false, 0, "the real bazel error")
        .unwrap_err()
        .message();
    assert!(err.contains("the real bazel error"), "got: {}", err);
}

#[test]
fn compute_key_is_stable() {
    let toolchain = "{\"sysroot\":\"a\"}";
    let specs = pairs(&[
        ("a/foo.json", "{\"id\":\"a\"}"),
        ("b/bar.json", "{\"id\":\"b\"}"),
    ]);
    let k1 = compute_key(&specs, toolchain, "/usr/bin/bazel", "/ws", "/er", "");
    let k2 = compute_key(&specs, toolchain, "/usr/bin/bazel", "/ws", "/er", "");
    assert_eq!(k1, k2);
    assert_eq!(k1.len(), 16);
}

#[test]
fn compute_key_changes_with_content() {
    let base = pairs(&[("a.json", "a")]);
    let mutated = pairs(&[("a.json", "b")]);
    assert_ne!(
        compute_key(&base, "{}", "/usr/bin/bazel", "/ws", "/er", ""),
        compute_key(&mutated, "{}", "/usr/bin/bazel", "/ws", "/er", "")
    );
}

#[test]
fn compute_key_changes_with_toolchain() {
    let specs = pairs(&[("a.json", "a")]);
    assert_ne!(
        compute_key(&specs, "{\"sysroot\":\"a\"}", "/usr/bin/bazel", "/ws", "/er", ""),
        compute_key(&specs, "{\"sysroot\":\"b\"}", "/usr/bin/bazel", "/ws", "/er", ""),
    );
}

#[test]
fn compute_key_changes_with_workspace() {
    let specs = pairs(&[("a.json", "a")]);
    assert_ne!(
        compute_key(&specs, "{}", "/usr/bin/bazel", "/ws1", "/er", ""),
        compute_key(&specs, "{}", "/usr/bin/bazel", "/ws2", "/er", ""),
    );
}

#[test]
fn compute_key_changes_with_launcher_dir() {
    let specs = pairs(&[("a.json", "a")]);
    assert_ne!(
        compute_key(
            &specs,
            "{}",
            "/usr/bin/bazel",
            "/ws",
            "/er",
            "/ws/.vscode/.rules_rust_analyzer",
        ),
        compute_key(
            &specs,
            "{}",
            "/usr/bin/bazel",
            "/ws",
            "/er",
            "/ws/.helix/.rules_rust_analyzer",
        ),
    );
}

#[test]
fn moving_text_between_inputs_changes_the_key() {
    assert_ne!(
        compute_key(&pairs(&[("ab", "c")]), "", "", "", "", ""),
        compute_key(&pairs(&[("a", "bc")]), "", "", "", "", ""),
    );
    assert_ne!(
        compute_key(&Vec::new(), "", "x", "", "", ""),
        compute_key(&Vec::new(), "", "", "x", "", ""),
    );
}

#[test]
fn the_cache_lies_where_the_environment_says() {
    assert_eq!(cache_dir("/ws", &Some("/cache".to_string())), "/cache");
    assert_eq!(
        cache_dir("/ws", &Some(String::new())),
        under(&["/ws", ".rules_rust_analyzer", "cache"])
    );
    let file = cache_file("/ws", &None, "00ff");
    assert_eq!(file, under(&["/ws", ".rules_rust_analyzer", "cache", "00ff.json"]));
    assert_eq!(
        staging_file(&file),
        under(&["/ws", ".rules_rust_analyzer", "cache", "00ff.json.tmp"])
    );
}

#[test]
fn bazel_commands_are_put_together() {
    let plain = bazel_command("bazel", &None, &None);
    assert_eq!(plain.cwd, ".");
    assert!(plain.args.is_empty());
    assert_eq!(
        plain.env_remove,
        texts(&[
            "BAZELISK_SKIP_WRAPPER",
            "BUILD_WORKING_DIRECTORY",
            "BUILD_WORKSPACE_DIRECTORY",
        ])
    );
    let info = bazel_info_command(
        "bazel",
        &Some("/ws".to_string()),
        &Some("/ob".to_string()),
        &texts(&["--nohome_rc"]),
        &texts(&["--config=x"]),
    );
    assert_eq!(info.cwd, "/ws");
    assert_eq!(
        info.args,
        texts(&["--output_base=/ob", "--nohome_rc", "info", "--config=x"])
    );
    let build = crate_info_command(
        "bazel",
        "/ob",
        "/ws",
        &texts(&["--startup"]),
        &texts(&["--arg"]),
        "@rules_rust",
        &texts(&["//a", "//b"]),
        "/bep.json",
    );
    assert_eq!(
        build.args,
        texts(&[
            "--output_base=/ob",
            "--startup",
            "build",
            "--arg",
            "--keep_going",
            "--norun_validations",
            "--remote_download_all",
            "--aspects=@rules_rust//rust:defs.bzl%rust_analyzer_aspect",
            "--output_groups=rust_analyzer_crate_spec,rust_generated_srcs,rust_analyzer_proc_macro_dylib,rust_analyzer_src",
            "--build_event_json_file=/bep.json",
            "--build_event_publish_all_actions",
            "//a",
            "//b",
        ])
    );
    assert_eq!(bep_file_path("/ob", 4711), under(&["/ob", "rules_rust_ra_bep_4711.json"]));
}

#[test]
fn bazel_info_is_parsed_line_by_line() {
    let info = parse_bazel_info(
        "\n  output_base: /ob \nnonsense\nworkspace: /ws\nexecution_root:/er: x\nworkspace: /ws2\n",
    );
    assert_eq!(
        info.to_pairs(),
        pairs(&[("execution_root", "/er: x"), ("output_base", "/ob"), ("workspace", "/ws2")])
    );
    assert_eq!(
        BazelInfo::try_new(&info).unwrap(),
        BazelInfo {
            output_base: "/ob".to_string(),
            workspace: "/ws2".to_string(),
            execution_root: "/er: x".to_string(),
        }
    );
    let partial = parse_bazel_info("output_base: /ob");
    assert_eq!(
        BazelInfo::try_new(&partial),
        Err(DiscoveryError::MissingInfo("workspace".to_string()))
    );
    assert_eq!(
        BazelInfo::try_new(&partial).unwrap_err().message(),
        "`bazel info` returned no `workspace` line"
    );
}

#[test]
fn placeholders_are_filled_in() {
    assert_eq!(
        substitute_placeholders(
            "__WORKSPACE__ ${pwd} __EXEC_ROOT__ __OUTPUT_BASE__ __WORKSPACE__",
            "/ob",
            "/ws",
            "/er",
        ),
        "/ws /er /er /ob /ws"
    );
}

#[test]
fn labels_are_kept_by_root_module() {
    let specs: CrateSpecs = SortedSet::from_list(vec![
        spec("ID-a", "/ws/a/lib.rs", Some("//a")),
        spec("ID-b", "/ws/b/lib.rs", None),
        spec("ID-c", "/ws/a/./lib.rs", Some("//a:test")),
        spec("ID-d", "/ws/d/lib.rs", Some("//d")),
    ]);
    assert_eq!(
        build_file_label_map(&specs),
        pairs(&[("/ws/a/lib.rs", "//a:test"), ("/ws/d/lib.rs", "//d")])
    );
    assert_eq!(warnings_report(&specs), None);
}

#[test]
fn buildfiles_are_looked_for_upwards() {
    let candidates = buildfile_candidates("/ws/a/b.rs");
    assert_eq!(
        candidates,
        vec![
            under(&["/ws/a", "BUILD.bazel"]),
            under(&["/ws/a", "BUILD"]),
            under(&["/ws", "BUILD.bazel"]),
            under(&["/ws", "BUILD"]),
            under(&["/", "BUILD.bazel"]),
            under(&["/", "BUILD"]),
        ]
    );
    assert_eq!(
        source_file_to_buildfile("/ws/a/b.rs", &vec![false, false, true, true, false, false]),
        Ok(under(&["/ws", "BUILD.bazel"]))
    );
    let none = source_file_to_buildfile("/ws/a/b.rs", &vec![false; 6]).unwrap_err();
    assert_eq!(none, DiscoveryError::NoBuildfile("/ws/a/b.rs".to_string()));
    assert_eq!(none.message(), "no buildfile found for /ws/a/b.rs");
}

#[test]
fn buildfiles_name_their_targets() {
    assert_eq!(buildfile_to_targets("/ws", "/ws/a/b/BUILD").unwrap(), "//a/b:all");
    assert_eq!(buildfile_to_targets("/ws", "/ws/BUILD.bazel").unwrap(), "//...");
    let outside = buildfile_to_targets("/ws", "/elsewhere/BUILD").unwrap_err();
    assert_eq!(outside.message(), "/elsewhere/BUILD not part of workspace");
}

#[test]
fn arguments_lead_to_targets() {
    assert_eq!(
        RustAnalyzerArg::Buildfile("/ws/x/BUILD".to_string())
            .into_target_details("/ws", &Vec::new()),
        Ok(("/ws/x/BUILD".to_string(), "//x:all".to_string()))
    );
    assert_eq!(
        RustAnalyzerArg::Path("/ws/x/y.rs".to_string())
            .into_target_details("/ws", &vec![false, true]),
        Ok((under(&["/ws/x", "BUILD"]), "//x:all".to_string()))
    );
    assert_eq!(
        RustAnalyzerArg::Path("/ws/x/y.rs".to_string()).into_target_details("/ws", &Vec::new()),
        Err(DiscoveryError::NoBuildfile("/ws/x/y.rs".to_string()))
    );
}

fn request() -> Request {
    Request {
        bazel: "bazel".to_string(),
        output_base: "/ob".to_string(),
        workspace: "/ws".to_string(),
        execution_root: "/er".to_string(),
        bazel_startup_options: Vec::new(),
        bazel_args: Vec::new(),
        rules_rust_name: "@rules_rust".to_string(),
        targets: texts(&["//..."]),
        toolchain_info: "{\"sysroot\": \"__EXEC_ROOT__/s\"}".to_string(),
        launcher_dir: Some("/launch".to_string()),
        process_id: 7,
    }
}

fn built(success: bool) -> Event {
    Event::Built {
        build: DiscoveryBuild { success, stderr: "printed".to_string() },
    }
}

#[test]
fn a_discovery_runs_to_its_project() {
    let request = request();
    let step = first_step(&request);
    match &step {
        Step::Build { command, bep_file } => {
            assert_eq!(bep_file, &under(&["/ob", "rules_rust_ra_bep_7.json"]));
            assert_eq!(command.args.last().unwrap(), "//...");
        }
        other => panic!("unexpected {other:?}"),
    }
    let step = next_step(&request, step, built(false)).unwrap();
    let step =
        next_step(&request, step, Event::EventsRead { paths: texts(&["/er/a.json"]) }).unwrap();
    assert_eq!(step, Step::ReadSpecs { paths: texts(&["/er/a.json"]), incomplete: true });
    let contents = pairs(&[("/er/a.json", "__WORKSPACE__/a")]);
    let key = compute_key(
        &contents,
        &request.toolchain_info,
        "bazel",
        "/ws",
        "/er",
        "/launch",
    );
    let step =
        next_step(&request, step, Event::SpecsRead { contents: contents.clone() }).unwrap();
    assert_eq!(step, Step::ReadCache { key: key.clone(), contents });
    let step = next_step(&request, step, Event::CacheCorrupted).unwrap();
    assert_eq!(
        step,
        Step::Parse {
            key: key.clone(),
            toolchain: "{\"sysroot\": \"/er/s\"}".to_string(),
            specs: pairs(&[("/er/a.json", "/ws/a")]),
        }
    );
    let parsed = Event::Parsed {
        toolchain: ToolchainInfo {
            sysroot: "/er/s".to_string(),
            sysroot_src: "/er/src".to_string(),
            version: String::new(),
        },
        specs: SortedSet::from_list(vec![spec("ID-a", "/ws/a", Some("//a"))]),
    };
    match next_step(&request, step, parsed).unwrap() {
        Step::Publish { key: k, sidecar, project, report } => {
            assert_eq!(k, key);
            let sidecar = sidecar.unwrap();
            assert_eq!(sidecar.output_base, Some("/ob".to_string()));
            assert_eq!(sidecar.file_labels, pairs(&[("/ws/a", "//a")]));
            assert_eq!(project.crates.len(), 1);
            assert_eq!(project.sysroot, "/er/s");
            assert_eq!(report, None);
        }
        other => panic!("unexpected {other:?}"),
    }
}

#[test]
fn a_discovery_uses_the_cache() {
    let step = Step::ReadCache { key: "k".to_string(), contents: Vec::new() };
    assert_eq!(next_step(&request(), step, Event::CacheHit), Some(Step::UseCached));
}

#[test]
fn a_discovery_fails_with_the_cause() {
    let request = request();
    let reading = |success: bool| {
        next_step(&request, first_step(&request), built(success)).unwrap()
    };
    let unreadable = || Event::EventsUnreadable { reason: "bad".to_string() };
    assert_eq!(
        next_step(&request, reading(false), unreadable()),
        Some(Step::Fail { error: DiscoveryError::NoUsableOutput("printed".to_string()) })
    );
    match next_step(&request, reading(true), unreadable()).unwrap() {
        Step::Fail { error } => assert_eq!(
            error.message(),
            format!("parsing BEP file {}: bad", under(&["/ob", "rules_rust_ra_bep_7.json"]))
        ),
        other => panic!("unexpected {other:?}"),
    }
    assert_eq!(
        next_step(&request, reading(false), Event::EventsRead { paths: Vec::new() }),
        Some(Step::Fail { error: DiscoveryError::NoCrateSpecs("printed".to_string()) })
    );
    assert_eq!(next_step(&request, reading(false), Event::CacheHit), None);
}

#[test]
fn missing_file_returns_defaults() {
    let config = load(&ConfigRead::Missing);
    assert_eq!(config, UserConfig::default());
    assert!(!config.clippy);
    assert!(config.per_package_workspaces);
    assert_eq!(config.output_base, None);
}

#[test]
fn roundtrip_preserves_all_fields() {
    let original = UserConfig {
        clippy: true,
        per_package_workspaces: true,
        output_base: Some("/tmp/custom_flycheck_base".to_string()),
    };
    let loaded = load(&ConfigRead::Fields(saved(&original)));
    assert_eq!(loaded, original);
}

#[test]
fn absent_output_base_stays_none() {
    let fields = saved(&UserConfig::default());
    assert_eq!(fields.output_base, None);
    assert_eq!(fields.clippy, Some(false));
    assert_eq!(load(&ConfigRead::Fields(fields)), UserConfig::default());
}

#[test]
fn malformed_file_falls_back_to_defaults() {
    assert_eq!(load(&ConfigRead::Malformed), UserConfig::default());
    assert_eq!(load(&ConfigRead::Unreadable), UserConfig::default());
}

#[test]
fn partial_file_uses_defaults_for_missing_keys() {
    let config = load(&ConfigRead::Fields(ConfigFields {
        clippy: Some(true),
        per_package_workspaces: None,
        output_base: None,
    }));
    assert!(config.clippy);
    assert!(config.per_package_workspaces);
}

#[test]
fn explicit_false_in_file_is_preserved() {
    let config = load(&ConfigRead::Fields(ConfigFields {
        clippy: None,
        per_package_workspaces: Some(false),
        output_base: Some("/ob".to_string()),
    }));
    assert!(!config.per_package_workspaces);
    assert_eq!(config.output_base, Some("/ob".to_string()));
}

#[test]
fn names_of_build_files_and_workspace_files() {
    assert_eq!(build_file_names(), texts(&["BUILD.bazel", "BUILD"]));
    assert_eq!(
        workspace_root_file_names(),
        texts(&["MODULE.bazel", "REPO.bazel", "WORKSPACE.bazel", "WORKSPACE"])
    );
}
