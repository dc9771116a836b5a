use rules_rust_tools::crate_spec::{
    CrateSpec, CrateSpecBuild, CrateSpecSource, CrateSpecs, CrateType,
};
use rules_rust_tools::discovery::ToolchainInfo;
use rules_rust_tools::order::SortedSet;
use rules_rust_tools::rust_project::{
    assemble_rust_project, diagnose, flycheck_launcher_path, format_diagnostics,
    supports_test_mod, AssemblyDiagnostics, RunnableKind, TargetKind,
};
use rules_rust_tools::string_map::StringMap;

fn texts(list: &[&str]) -> Vec<String> {
    list.iter().map(|s| s.to_string()).collect()
}

fn named_spec(id: &str, name: &str, deps: &[&str]) -> CrateSpec {
    CrateSpec {
        aliases: StringMap::new(),
        crate_id: id.to_string(),
        display_name: name.to_string(),
        edition: "2018".to_string(),
        root_module: format!("{name}/lib.rs"),
        is_workspace_member: true,
        deps: SortedSet::from_list(texts(deps)),
        proc_macro_dylib_path: None,
        source: None,
        cfg: texts(&["test", "debug_assertions"]),
        env: StringMap::new(),
        target: "x86_64-unknown-linux-gnu".to_string(),
        crate_type: CrateType::Rlib,
        is_test: false,
        build: None,
    }
}

fn spec(id: &str, deps: &[&str]) -> CrateSpec {
    let mut s = named_spec(id, &id.replace("ID-", ""), deps);
    s.cfg = Vec::new();
    s
}

fn specs(list: Vec<CrateSpec>) -> CrateSpecs {
    SortedSet::from_list(list)
}

fn toolchain() -> ToolchainInfo {
    ToolchainInfo {
        sysroot: "sysroot".to_string(),
        sysroot_src: "sysroot_src".to_string(),
        version: String::new(),
    }
}

#[test]
fn supports_test_mod_at_or_above_1_96() {
    assert!(supports_test_mod("1.96.0"));
    assert!(supports_test_mod("2.0.0"));
    assert!(!supports_test_mod("1.95.0"));
    assert!(!supports_test_mod(""));
    assert!(!supports_test_mod("not-a-version"));
}

#[test]
fn versions_begin_with_two_numbers() {
    assert!(supports_test_mod("1.97"));
    assert!(supports_test_mod("1.96.0-nightly"));
    assert!(!supports_test_mod("v1.95.0"));
    assert!(!supports_test_mod("v1.96.0"));
    assert!(!supports_test_mod("1.x.96"));
    assert!(!supports_test_mod("2"));
}

#[test]
fn generate_rust_project_single() {
    let project = assemble_rust_project(
        "bazel",
        "workspace",
        toolchain(),
        &specs(vec![named_spec("ID-example", "example", &[])]),
        &None,
    )
    .expect("expect success");

    assert_eq!(project.crates.len(), 1);
    let c = &project.crates[0];
    assert_eq!(c.display_name, Some("example".to_string()));
    assert_eq!(c.root_module, "example/lib.rs");
    assert_eq!(c.deps.len(), 0);
}

#[test]
fn diagnose_independent_cycles_all_reported() {
    let diag = diagnose(&specs(vec![
        spec("ID-a", &["ID-b"]),
        spec("ID-b", &["ID-a"]),
        spec("ID-x", &["ID-y"]),
        spec("ID-y", &["ID-x"]),
    ]));
    assert!(diag.missing_deps.is_empty());
    assert_eq!(
        diag.cycles,
        vec![
            texts(&["ID-a", "ID-b", "ID-a"]),
            texts(&["ID-x", "ID-y", "ID-x"]),
        ]
    );
}

#[test]
fn generate_rust_project_with_deps() {
    let mut dep_a = named_spec("ID-dep_a", "dep_a", &[]);
    dep_a.is_workspace_member = false;
    let mut dep_b = named_spec("ID-dep_b", "dep_b", &[]);
    dep_b.is_workspace_member = false;
    let project = assemble_rust_project(
        "bazel",
        "workspace",
        toolchain(),
        &specs(vec![
            named_spec("ID-example", "example", &["ID-dep_a", "ID-dep_b"]),
            dep_a,
            dep_b,
        ]),
        &None,
    )
    .expect("expect success");

    assert_eq!(project.crates.len(), 3);
    assert!(
        Some("dep_a".to_string()) == project.crates[0].display_name
            || Some("dep_a".to_string()) == project.crates[1].display_name
    );
    assert!(
        Some("dep_b".to_string()) == project.crates[0].display_name
            || Some("dep_b".to_string()) == project.crates[1].display_name
    );
    let c = &project.crates[2];
    assert_eq!(c.display_name, Some("example".to_string()));
    let deps: Vec<(usize, &str)> =
        c.deps.iter().map(|d| (d.crate_index, d.name.as_str())).collect();
    assert_eq!(deps, vec![(0, "dep_a"), (1, "dep_b")]);
}

#[test]
fn cycle_does_not_break_assembly() {
    let project = assemble_rust_project(
        "bazel",
        "workspace",
        toolchain(),
        &specs(vec![spec("ID-a", &["ID-b"]), spec("ID-b", &["ID-a"])]),
        &None,
    )
    .expect("cycle must not fail assembly");

    assert_eq!(project.crates.len(), 2);
    let a = project
        .crates
        .iter()
        .find(|c| c.display_name.as_deref() == Some("a"))
        .unwrap();
    let b = project
        .crates
        .iter()
        .find(|c| c.display_name.as_deref() == Some("b"))
        .unwrap();
    assert_eq!(a.deps.len(), 1);
    assert_eq!(b.deps.len(), 1);
}

#[test]
fn missing_dep_is_dropped_not_fatal() {
    let project = assemble_rust_project(
        "bazel",
        "workspace",
        toolchain(),
        &specs(vec![spec("ID-a", &["ID-nonexistent"])]),
        &None,
    )
    .expect("missing dep must not fail assembly");

    assert_eq!(project.crates.len(), 1);
    assert_eq!(project.crates[0].deps.len(), 0);
}

#[test]
fn flycheck_runnable_uses_positional_args_only() {
    let project = assemble_rust_project(
        "bazel",
        "workspace",
        toolchain(),
        &specs(vec![spec("ID-a", &[])]),
        &None,
    )
    .expect("expect success");

    let flycheck = project
        .runnables
        .iter()
        .find(|r| matches!(r.kind, RunnableKind::Flycheck))
        .expect("flycheck runnable must exist");
    assert_eq!(flycheck.args, texts(&["{label}", "{saved_file}"]));
}

#[test]
fn flycheck_program_lies_in_the_launcher_dir() {
    let of = |dir: Option<&str>| {
        flycheck_launcher_path("/ws", &dir.map(|d| d.to_string()))
    };
    let under = |parts: &[&str]| {
        let mut p = camino::Utf8PathBuf::from(parts[0]);
        for part in &parts[1..] {
            p.push(part);
        }
        p.into_string()
    };
    assert_eq!(of(Some("/launch")), under(&["/launch", "flycheck.exe"]));
    assert_eq!(of(Some("")), under(&["/ws", ".rules_rust_analyzer", "flycheck.exe"]));
    assert_eq!(of(None), under(&["/ws", ".rules_rust_analyzer", "flycheck.exe"]));
}

#[test]
fn runnables_follow_the_toolchain_version() {
    let kinds = |version: &str| {
        let mut info = toolchain();
        info.version = version.to_string();
        let project =
            assemble_rust_project("bazel", "ws", info, &specs(Vec::new()), &None).unwrap();
        project.runnables.iter().map(|r| r.kind).collect::<Vec<_>>()
    };
    assert_eq!(
        kinds("1.95.0"),
        vec![
            RunnableKind::Check,
            RunnableKind::Flycheck,
            RunnableKind::TestOne,
            RunnableKind::Run,
        ]
    );
    assert_eq!(
        kinds("1.96.0"),
        vec![
            RunnableKind::Check,
            RunnableKind::Flycheck,
            RunnableKind::TestOne,
            RunnableKind::Run,
            RunnableKind::TestMod,
        ]
    );
}

#[test]
fn aliases_rename_dependencies_and_kinds_follow_the_crate_type() {
    let mut main = named_spec("ID-main", "main", &["ID-dep", "ID-gone"]);
    main.aliases =
        StringMap::from_pairs(vec![("ID-dep".to_string(), "renamed".to_string())]);
    main.crate_type = CrateType::Bin;
    main.is_test = true;
    main.build = Some(CrateSpecBuild {
        label: "//:main".to_string(),
        build_file: "BUILD".to_string(),
    });
    let mut dep = named_spec("ID-dep", "dep", &[]);
    dep.proc_macro_dylib_path = Some("libdep.so".to_string());
    dep.source = Some(CrateSpecSource {
        exclude_dirs: texts(&["out"]),
        include_dirs: texts(&["src"]),
    });
    let project =
        assemble_rust_project("bazel", "ws", toolchain(), &specs(vec![main, dep]), &None)
            .unwrap();
    let dep = &project.crates[0];
    let main = &project.crates[1];
    assert!(dep.is_proc_macro);
    assert_eq!(dep.source.include_dirs, texts(&["src"]));
    assert!(!dep.source.is_empty());
    assert!(main.source.is_empty());
    assert_eq!(main.deps.len(), 1);
    assert_eq!(main.deps[0].name, "renamed");
    assert_eq!(main.deps[0].crate_index, 0);
    assert_eq!(main.build.as_ref().unwrap().target_kind, TargetKind::Test);
}

#[test]
fn the_last_crate_with_an_id_resolves_it() {
    let mut first = named_spec("ID-x", "a", &[]);
    first.edition = "2018".to_string();
    let second = named_spec("ID-x", "b", &[]);
    let user = named_spec("ID-y", "user", &["ID-x"]);
    let project =
        assemble_rust_project("bazel", "ws", toolchain(), &specs(vec![first, second, user]), &None)
            .unwrap();
    assert_eq!(project.crates[2].deps[0].crate_index, 1);
    assert_eq!(project.crates[2].deps[0].name, "b");
}

#[test]
fn findings_depend_on_ids_and_dependencies_alone() {
    let list = |name: &str| {
        vec![
            named_spec("ID-a", &format!("{name}-last"), &["ID-b", "ID-gone"]),
            named_spec("ID-b", &format!("{name}-first"), &["ID-a", "ID-lost"]),
        ]
    };
    let mut other = list("z");
    other[0].display_name = "0".to_string();
    other.reverse();
    let diag = diagnose(&specs(list("a")));
    assert_eq!(diag, diagnose(&specs(other)));
    assert_eq!(diag.missing_deps.len(), 2);
    assert_eq!(diag.cycles, vec![vec!["ID-a", "ID-b", "ID-a"]]);
}

#[test]
fn diagnose_missing_dep_names_both_crates() {
    let diag = diagnose(&specs(vec![spec("ID-a", &["ID-nonexistent"])]));
    assert_eq!(diag.cycles, Vec::<Vec<String>>::new());
    assert_eq!(
        diag.missing_deps,
        vec![("ID-a".to_string(), "ID-nonexistent".to_string())]
    );
}

#[test]
fn diagnose_simple_cycle_reports_full_path() {
    let diag = diagnose(&specs(vec![spec("ID-a", &["ID-b"]), spec("ID-b", &["ID-a"])]));
    assert!(diag.missing_deps.is_empty(), "{:?}", diag.missing_deps);
    assert_eq!(diag.cycles, vec![vec!["ID-a", "ID-b", "ID-a"]]);
}

#[test]
fn diagnose_three_cycle_reports_full_path() {
    let diag = diagnose(&specs(vec![
        spec("ID-a", &["ID-b"]),
        spec("ID-b", &["ID-c"]),
        spec("ID-c", &["ID-a"]),
    ]));
    assert!(diag.missing_deps.is_empty());
    assert_eq!(diag.cycles, vec![vec!["ID-a", "ID-b", "ID-c", "ID-a"]]);
}

#[test]
fn diagnose_self_loop_is_a_cycle() {
    let diag = diagnose(&specs(vec![spec("ID-a", &["ID-a"])]));
    assert!(diag.missing_deps.is_empty());
    assert_eq!(diag.cycles, vec![vec!["ID-a", "ID-a"]]);
}

#[test]
fn diagnose_acyclic_graph_reports_nothing() {
    let diag = diagnose(&specs(vec![
        spec("ID-a", &["ID-b", "ID-c"]),
        spec("ID-b", &["ID-c"]),
        spec("ID-c", &[]),
    ]));
    assert!(diag.is_empty(), "expected no diagnostics, got {:?}", diag);
}

#[test]
fn diagnose_diamond_dependency_no_cycle() {
    let diag = diagnose(&specs(vec![
        spec("ID-a", &["ID-b", "ID-c"]),
        spec("ID-b", &["ID-d"]),
        spec("ID-c", &["ID-d"]),
        spec("ID-d", &[]),
    ]));
    assert!(
        diag.cycles.is_empty(),
        "diamond is not a cycle, got {:?}",
        diag.cycles
    );
}

#[test]
fn diagnose_reports_missing_and_cycle_together() {
    let diag = diagnose(&specs(vec![
        spec("ID-a", &["ID-b", "ID-missing"]),
        spec("ID-b", &["ID-a"]),
    ]));
    assert_eq!(
        diag.missing_deps,
        vec![("ID-a".to_string(), "ID-missing".to_string())]
    );
    assert_eq!(diag.cycles, vec![vec!["ID-a", "ID-b", "ID-a"]]);
}

#[test]
fn a_cycle_is_reported_once_wherever_the_search_enters_it() {
    // The search enters at `ID-a`, outside the cycle, and meets it at `ID-c`.
    let diag = diagnose(&specs(vec![
        spec("ID-a", &["ID-c"]),
        spec("ID-b", &["ID-c"]),
        spec("ID-c", &["ID-d"]),
        spec("ID-d", &["ID-b"]),
    ]));
    assert_eq!(diag.cycles, vec![vec!["ID-b", "ID-c", "ID-d", "ID-b"]]);
}

#[test]
fn missing_deps_are_sorted_and_keep_repetitions() {
    let mut twin = spec("ID-b", &["ID-gone"]);
    twin.edition = "2021".to_string();
    let diag = diagnose(&specs(vec![
        spec("ID-c", &["ID-x", "ID-a"]),
        spec("ID-b", &["ID-gone"]),
        twin,
    ]));
    let pair = |a: &str, b: &str| (a.to_string(), b.to_string());
    assert_eq!(
        diag.missing_deps,
        vec![
            pair("ID-b", "ID-gone"),
            pair("ID-b", "ID-gone"),
            pair("ID-c", "ID-a"),
            pair("ID-c", "ID-x"),
        ]
    );
}

#[test]
fn format_diagnostics_renders_human_readable_lines() {
    let diag = AssemblyDiagnostics {
        missing_deps: vec![("ID-foo".to_string(), "ID-bar".to_string())],
        cycles: vec![texts(&["ID-a", "ID-b", "ID-a"])],
    };
    let out = format_diagnostics(&diag);
    assert!(out.contains("missing dep: crate ID-foo references ID-bar"));
    assert!(out.contains("dep cycle: ID-a → ID-b → ID-a"));
}

#[test]
fn the_report_has_one_line_per_finding() {
    let diag = AssemblyDiagnostics {
        missing_deps: vec![("A".to_string(), "B".to_string())],
        cycles: vec![texts(&["C", "C"])],
    };
    assert_eq!(
        format_diagnostics(&diag),
        "missing dep: crate A references B which is not in the project (target may be a non-Rust dep, filtered, or its spec generation failed)\ndep cycle: C → C\n"
    );
    assert_eq!(format_diagnostics(&AssemblyDiagnostics::default()), "");
}
