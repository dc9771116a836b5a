use rules_rust_tools::json::Tree;
use rules_rust_tools::launcher::{
    find_target, logical_name, resolve_target, LauncherError, PATHS_FILENAME,
};
use rules_rust_tools::settings::{
    merge_file, replace_managed_file, updated_file, vscode_managed_keys, workspace_relative,
    ManagedValue, SettingsError, BAZEL_OUTPUTS_GLOB, CHECK_OVERRIDE_KEY, DISCOVER_CONFIG_KEY,
    FILES_EXCLUDE_KEY, FILES_WATCHER_EXCLUDE_KEY, LAUNCHER_SUBDIR, PROC_MACRO_SRV_KEY,
    RUSTFMT_OVERRIDE_KEY, SEARCH_EXCLUDE_KEY, SERVER_PATH_KEY, VSCODE_LAUNCHER_REL,
};
use rules_rust_tools::setup::{
    abs_or_under, apply_user_config_edits, expunge_command, expunge_report,
    known_flycheck_output_base, launcher_dir_for, launcher_filename, launcher_logical_names,
    launcher_paths_json, pick_toggle, plan_expunge, resolve_flycheck_output_base,
    resolve_vscode_targets, source_binaries, toolchain_target_for, vscode_writes, ExpungeOutcome,
    ExpungePlan, IdeCmd, SetupError, ToolchainBinaries, VscodeArgs,
};
use rules_rust_tools::snippets::{
    generate_helix_toml, generate_neovim_lua, generate_settings_json, opt_block,
    to_forward_slashes, SetupCtx, SnippetPaths, HELIX_TOML_PROC_MACRO, HELIX_TOML_RUSTFMT,
    HELIX_TOML_TEMPLATE, NEOVIM_LUA_PROC_MACRO, NEOVIM_LUA_RUSTFMT, NEOVIM_LUA_TEMPLATE,
    SETTINGS_JSON_PROC_MACRO, SETTINGS_JSON_RUSTFMT, SETTINGS_JSON_TEMPLATE,
    TPL_DISCOVER_LAUNCHER, TPL_OPT_PROC_MACRO, TPL_OPT_RUSTFMT, TPL_PMS_LAUNCHER,
    TPL_RA_LAUNCHER, TPL_RUSTFMT_LAUNCHER,
};
use rules_rust_tools::string_map::StringMap;
use rules_rust_tools::user_config::{load, saved, ConfigRead, UserConfig};

const DUMMY_WORKSPACE: &str = "/ws";

fn under(parts: &[&str]) -> String {
    let mut p = camino::Utf8PathBuf::from(parts[0]);
    for part in &parts[1..] {
        p.push(part);
    }
    p.into_string()
}

fn dummy_toolchain() -> ToolchainBinaries {
    ToolchainBinaries {
        rust_analyzer: "/obase/external/ra/rust-analyzer".to_string(),
        proc_macro_srv: "/obase/external/ra/proc-macro-srv".to_string(),
        rustfmt: "/obase/external/rfmt/rustfmt".to_string(),
    }
}

fn dummy_ctx() -> (SetupCtx, String) {
    let launcher_dir = under(&[DUMMY_WORKSPACE, VSCODE_LAUNCHER_REL, LAUNCHER_SUBDIR]);
    let ctx = SetupCtx {
        launcher_dir: launcher_dir.clone(),
        skip_proc_macro_server: false,
        skip_rustfmt: false,
        toolchain: dummy_toolchain(),
        windows: false,
    };
    (ctx, launcher_dir)
}

fn all_managed() -> Vec<(String, ManagedValue)> {
    vscode_managed_keys(false, false)
}

fn has_key(keys: &[(String, ManagedValue)], key: &str) -> bool {
    keys.iter().any(|(k, _)| k == key)
}

fn replace_value<'a>(keys: &'a [(String, ManagedValue)], key: &str) -> &'a Tree {
    let entry = keys
        .iter()
        .find(|(k, _)| k == key)
        .unwrap_or_else(|| panic!("missing managed key {key}"));
    match &entry.1 {
        ManagedValue::Replace(v) => v,
        ManagedValue::InsertEntries(_) => panic!("expected Replace strategy for {key}"),
    }
}

fn text(value: &Tree) -> &str {
    match value {
        Tree::Text(s) => s,
        other => panic!("not a text: {other:?}"),
    }
}

fn items(value: &Tree) -> &Vec<Tree> {
    match value {
        Tree::Array(list) => list,
        other => panic!("not a list: {other:?}"),
    }
}

fn discover_command(keys: &[(String, ManagedValue)]) -> Vec<String> {
    let command = replace_value(keys, DISCOVER_CONFIG_KEY).get("command").expect("a command");
    items(command).iter().map(|v| text(v).to_string()).collect()
}

fn parse_merged(merged: &str) -> serde_json::Value {
    jsonc_parser::parse_to_serde_value(merged, &Default::default())
        .expect("output must be valid JSON")
}

fn parse_json(text: &str) -> serde_json::Value {
    serde_json::from_str(text).unwrap()
}

fn some(text: &str) -> Option<String> {
    Some(text.to_string())
}

fn empty_vscode_args() -> VscodeArgs {
    VscodeArgs {
        settings_json: None,
        code_workspace: None,
        no_code_workspace: false,
        settings_key: None,
        dry_run: false,
        replace: false,
    }
}

fn listing(names: &[&str]) -> Option<Vec<String>> {
    Some(names.iter().map(|s| s.to_string()).collect())
}

#[test]
fn merge_preserves_user_keys() {
    let existing = some(r#"{"editor.tabSize": 4, "rust-analyzer.server.path": "old"}"#);
    let merged = merge_file("settings.json", &existing, &all_managed(), &None).unwrap();
    let parsed = parse_merged(&merged);
    let obj = parsed.as_object().unwrap();
    assert_eq!(obj.get("editor.tabSize"), Some(&serde_json::Value::from(4)));
    assert_eq!(
        obj.get(SERVER_PATH_KEY).unwrap().as_str().unwrap(),
        "${workspaceFolder}/.vscode/.rules_rust_analyzer/rust_analyzer.exe"
    );
    assert!(obj.get(DISCOVER_CONFIG_KEY).is_some());
}

#[test]
fn merge_handles_missing_file() {
    let merged = merge_file("settings.json", &None, &all_managed(), &None).unwrap();
    let parsed = parse_merged(&merged);
    let obj = parsed.as_object().unwrap();
    assert!(obj.contains_key(DISCOVER_CONFIG_KEY));
    assert!(obj.contains_key(SERVER_PATH_KEY));
    assert!(obj.contains_key(PROC_MACRO_SRV_KEY));
    assert!(obj.contains_key(RUSTFMT_OVERRIDE_KEY));
    assert!(obj.contains_key(FILES_WATCHER_EXCLUDE_KEY));
    assert!(obj.contains_key(FILES_EXCLUDE_KEY));
    assert!(obj.contains_key(SEARCH_EXCLUDE_KEY));
}

#[test]
fn skip_proc_macro_server_drops_one_key() {
    let with_srv = vscode_managed_keys(false, false);
    let without_srv = vscode_managed_keys(true, false);
    assert_eq!(with_srv.len(), 8);
    assert_eq!(without_srv.len(), 7);
    assert!(!has_key(&without_srv, PROC_MACRO_SRV_KEY));
}

#[test]
fn skip_rustfmt_drops_only_the_rustfmt_key() {
    let with_fmt = vscode_managed_keys(false, false);
    let without_fmt = vscode_managed_keys(false, true);
    assert_eq!(with_fmt.len(), 8);
    assert_eq!(without_fmt.len(), 7);
    assert!(!has_key(&without_fmt, RUSTFMT_OVERRIDE_KEY));
    assert!(has_key(&without_fmt, PROC_MACRO_SRV_KEY));
    assert!(has_key(&without_fmt, CHECK_OVERRIDE_KEY));
}

#[test]
fn rustfmt_override_is_argv_array_pointing_at_launcher() {
    let keys = all_managed();
    let arr = items(replace_value(&keys, RUSTFMT_OVERRIDE_KEY));
    assert_eq!(arr.len(), 1);
    assert_eq!(
        text(&arr[0]),
        "${workspaceFolder}/.vscode/.rules_rust_analyzer/rustfmt.exe"
    );
}

#[test]
fn vscode_managed_keys_emit_workspace_folder_refs_with_exe_suffix() {
    let keys = all_managed();
    assert_eq!(
        text(replace_value(&keys, SERVER_PATH_KEY)),
        "${workspaceFolder}/.vscode/.rules_rust_analyzer/rust_analyzer.exe"
    );
    assert_eq!(
        text(replace_value(&keys, PROC_MACRO_SRV_KEY)),
        "${workspaceFolder}/.vscode/.rules_rust_analyzer/rust_analyzer_proc_macro_srv.exe"
    );
    assert_eq!(
        discover_command(&keys)[0],
        "${workspaceFolder}/.vscode/.rules_rust_analyzer/discover_bazel_rust_project.exe"
    );
}

#[test]
fn discover_command_is_identical_regardless_of_user_preferences() {
    let discover_cmd = discover_command(&all_managed());
    assert!(
        !discover_cmd.iter().any(|v| v == "--clippy"),
        "shared discover command must not encode --clippy: {discover_cmd:?}",
    );
    assert!(
        discover_cmd.iter().any(|v| v == "{arg}"),
        "shared discover command must always template {{arg}}: {discover_cmd:?}",
    );
}

#[test]
fn apply_user_config_edits_writes_only_named_fields() {
    let before = ConfigRead::Fields(saved(&UserConfig {
        clippy: false,
        per_package_workspaces: true,
        output_base: some("/existing/base"),
    }));
    let written = apply_user_config_edits(&before, Some(true), None, None).unwrap();
    let loaded = load(&ConfigRead::Fields(written));
    assert!(loaded.clippy, "--clippy must land in the file");
    assert!(loaded.per_package_workspaces, "unnamed fields must be preserved: got {loaded:?}");
    assert_eq!(
        loaded.output_base,
        some("/existing/base"),
        "unnamed fields must be preserved: got {loaded:?}",
    );
}

#[test]
fn apply_user_config_edits_persists_output_base() {
    let written = apply_user_config_edits(
        &ConfigRead::Missing,
        None,
        None,
        some("/custom/flycheck/base"),
    )
    .unwrap();
    let loaded = load(&ConfigRead::Fields(written));
    assert_eq!(loaded.output_base, some("/custom/flycheck/base"));
    assert!(!loaded.clippy, "unrelated fields must stay default");
}

#[test]
fn apply_user_config_edits_is_a_noop_when_nothing_pending() {
    assert_eq!(apply_user_config_edits(&ConfigRead::Missing, None, None, None), None);
}

#[test]
fn watcher_exclude_dict_merges_with_user_entries() {
    let existing = some(
        r#"{
              "files.watcherExclude": {
                "**/node_modules/**": true,
                "**/bazel-*/**": false
              }
            }"#,
    );
    let merged = merge_file("settings.json", &existing, &all_managed(), &None).unwrap();
    let parsed = parse_merged(&merged);
    let watchers = parsed
        .as_object()
        .unwrap()
        .get(FILES_WATCHER_EXCLUDE_KEY)
        .unwrap()
        .as_object()
        .unwrap();
    assert_eq!(watchers.get("**/node_modules/**"), Some(&serde_json::Value::Bool(true)));
    assert_eq!(watchers.get(BAZEL_OUTPUTS_GLOB), Some(&serde_json::Value::Bool(false)));
}

#[test]
fn launcher_dir_for_picks_editor_specific_subdir() {
    let ws = "/workspace";
    assert_eq!(
        launcher_dir_for(ws, &IdeCmd::Vscode(empty_vscode_args())),
        under(&["/workspace", ".vscode", ".rules_rust_analyzer"]),
    );
    assert_eq!(
        launcher_dir_for(ws, &IdeCmd::Helix),
        under(&["/workspace", ".helix", ".rules_rust_analyzer"]),
    );
    assert_eq!(
        launcher_dir_for(ws, &IdeCmd::Neovim),
        under(&["/workspace", ".rules_rust_analyzer"]),
    );
    assert_eq!(
        launcher_dir_for(ws, &IdeCmd::Print),
        under(&["/workspace", ".rules_rust_analyzer"]),
    );
}

#[test]
fn launcher_dir_for_vscode_is_pinned_regardless_of_output() {
    assert_eq!(
        launcher_dir_for("/workspace", &IdeCmd::Vscode(empty_vscode_args())),
        under(&["/workspace", ".vscode", ".rules_rust_analyzer"]),
    );
    let mut args = empty_vscode_args();
    args.settings_json = some("/elsewhere/settings.json");
    args.code_workspace = some("x.code-workspace");
    assert_eq!(
        launcher_dir_for("/workspace", &IdeCmd::Vscode(args)),
        under(&["/workspace", ".vscode", ".rules_rust_analyzer"]),
    );
}

#[test]
fn neovim_snippet_contains_toolchain_and_discover_paths_and_lens_enable() {
    let (ctx, _) = dummy_ctx();
    let launcher_dir = under(&[DUMMY_WORKSPACE, LAUNCHER_SUBDIR]);
    let snippet = generate_neovim_lua(&ctx, &launcher_dir);
    assert!(snippet.contains("require(\"lspconfig\").rust_analyzer.setup"));
    assert!(snippet.contains("/obase/external/ra/rust-analyzer"));
    assert!(snippet.contains("/ws/.rules_rust_analyzer/discover_bazel_rust_project"));
    assert!(snippet.contains("lens = { enable = true }"));
}

#[test]
fn helix_snippet_uses_toml_section_headers() {
    let (ctx, _) = dummy_ctx();
    let launcher_dir = under(&[DUMMY_WORKSPACE, ".helix", LAUNCHER_SUBDIR]);
    let snippet = generate_helix_toml(&ctx, &launcher_dir);
    assert!(snippet.contains("[language-server.rust-analyzer]"));
    assert!(snippet.contains(
        "[language-server.rust-analyzer.config.rust-analyzer.workspace.discoverConfig]"
    ));
    assert!(snippet.contains("/obase/external/ra/rust-analyzer"));
    assert!(snippet.contains("/ws/.helix/.rules_rust_analyzer/discover_bazel_rust_project"));
}

#[test]
fn print_snippet_is_valid_json() {
    let (ctx, _) = dummy_ctx();
    let launcher_dir = under(&[DUMMY_WORKSPACE, LAUNCHER_SUBDIR]);
    let snippet = generate_settings_json(&ctx, &launcher_dir);
    let parsed: serde_json::Value =
        serde_json::from_str(&snippet).expect("snippet must be valid JSON");
    let obj = parsed.as_object().unwrap();
    assert!(obj.contains_key(SERVER_PATH_KEY));
    assert!(obj.contains_key(DISCOVER_CONFIG_KEY));
    assert!(obj.contains_key(PROC_MACRO_SRV_KEY));
    assert!(obj.contains_key(RUSTFMT_OVERRIDE_KEY));
    assert_eq!(
        obj.get(SERVER_PATH_KEY).unwrap().as_str().unwrap(),
        "/obase/external/ra/rust-analyzer"
    );
    assert_eq!(
        obj.get(PROC_MACRO_SRV_KEY).unwrap().as_str().unwrap(),
        "/obase/external/ra/proc-macro-srv"
    );
}

#[test]
fn print_snippet_is_valid_json_under_every_skip_combination() {
    for &(skip_pms, skip_fmt) in &[(false, false), (true, false), (false, true), (true, true)] {
        let (mut ctx, _) = dummy_ctx();
        ctx.skip_proc_macro_server = skip_pms;
        ctx.skip_rustfmt = skip_fmt;
        let launcher_dir = under(&[DUMMY_WORKSPACE, LAUNCHER_SUBDIR]);
        let snippet = generate_settings_json(&ctx, &launcher_dir);
        serde_json::from_str::<serde_json::Value>(&snippet).unwrap_or_else(|e| {
            panic!(
                "snippet not valid JSON for skip_pms={skip_pms} skip_fmt={skip_fmt}: {e}\n--- snippet ---\n{snippet}"
            )
        });
    }
}

#[test]
fn skip_flags_drop_optional_blocks_from_all_snippets() {
    let (mut ctx, _) = dummy_ctx();
    ctx.skip_proc_macro_server = true;
    ctx.skip_rustfmt = true;
    let launcher_dir = under(&[DUMMY_WORKSPACE, LAUNCHER_SUBDIR]);

    let lua = generate_neovim_lua(&ctx, &launcher_dir);
    assert!(!lua.contains("procMacro"), "lua: procMacro block leaked\n{lua}");
    assert!(!lua.contains("rustfmt = {"), "lua: rustfmt block leaked\n{lua}");
    assert!(lua.contains("discoverConfig"));

    let toml = generate_helix_toml(&ctx, &launcher_dir);
    assert!(!toml.contains("procMacro"), "helix: procMacro block leaked\n{toml}");
    assert!(!toml.contains("rustfmt]"), "helix: rustfmt block leaked\n{toml}");

    let json = generate_settings_json(&ctx, &launcher_dir);
    let parsed: serde_json::Value = serde_json::from_str(&json).unwrap();
    let obj = parsed.as_object().unwrap();
    assert!(!obj.contains_key(PROC_MACRO_SRV_KEY));
    assert!(!obj.contains_key(RUSTFMT_OVERRIDE_KEY));
    assert!(obj.contains_key(SERVER_PATH_KEY));
    assert!(obj.contains_key(DISCOVER_CONFIG_KEY));
}

#[test]
fn discover_command_always_includes_per_package_arg_template() {
    let cmd = discover_command(&all_managed());
    assert_eq!(
        cmd.len(),
        2,
        "discover command should always be [binary, \"{{arg}}\"]; got {cmd:?}"
    );
    assert_eq!(cmd[1], "{arg}");
}

#[test]
fn snippets_always_include_per_package_arg_template() {
    let (ctx, launcher_dir) = dummy_ctx();
    let lua = generate_neovim_lua(&ctx, &launcher_dir);
    let toml = generate_helix_toml(&ctx, &launcher_dir);
    let json = generate_settings_json(&ctx, &launcher_dir);
    assert!(lua.contains("\"{arg}\""), "lua missing {{arg}}:\n{lua}");
    assert!(toml.contains("\"{arg}\""), "toml missing {{arg}}:\n{toml}");
    assert!(json.contains("\"{arg}\""), "json missing {{arg}}:\n{json}");
    serde_json::from_str::<serde_json::Value>(&json).expect("json snippet stays valid");
}

#[test]
fn snippet_templates_contain_every_placeholder_they_reference() {
    for (name, body) in [
        ("neovim main", NEOVIM_LUA_TEMPLATE),
        ("helix main", HELIX_TOML_TEMPLATE),
        ("json main", SETTINGS_JSON_TEMPLATE),
    ] {
        for ph in [
            TPL_RA_LAUNCHER,
            TPL_DISCOVER_LAUNCHER,
            TPL_OPT_PROC_MACRO,
            TPL_OPT_RUSTFMT,
        ] {
            assert!(body.contains(ph), "{name} missing {ph}");
        }
    }
    for (name, body) in [
        ("neovim proc_macro", NEOVIM_LUA_PROC_MACRO),
        ("helix proc_macro", HELIX_TOML_PROC_MACRO),
        ("json proc_macro", SETTINGS_JSON_PROC_MACRO),
    ] {
        assert!(body.contains(TPL_PMS_LAUNCHER), "{name} missing {TPL_PMS_LAUNCHER}");
    }
    for (name, body) in [
        ("neovim rustfmt", NEOVIM_LUA_RUSTFMT),
        ("helix rustfmt", HELIX_TOML_RUSTFMT),
        ("json rustfmt", SETTINGS_JSON_RUSTFMT),
    ] {
        assert!(body.contains(TPL_RUSTFMT_LAUNCHER), "{name} missing {TPL_RUSTFMT_LAUNCHER}");
    }
}

#[test]
fn merge_under_settings_key_preserves_top_level_keys() {
    let existing = some(
        r#"{
                    "folders": [{"path": "."}],
                    "tasks": {"version": "2.0.0"},
                    "settings": {"editor.tabSize": 4}
                }"#,
    );
    let merged =
        merge_file("proj.code-workspace", &existing, &all_managed(), &some("settings")).unwrap();
    let parsed = parse_merged(&merged);
    let root = parsed.as_object().unwrap();
    assert_eq!(
        root.get("folders").unwrap(),
        &parse_json(r#"[{"path": "."}]"#),
        "folders must survive a merge under settings_key",
    );
    assert_eq!(
        root.get("tasks").unwrap(),
        &parse_json(r#"{"version": "2.0.0"}"#),
        "tasks must survive a merge under settings_key",
    );
    assert!(!root.contains_key(SERVER_PATH_KEY));
    let settings = root.get("settings").unwrap().as_object().unwrap();
    assert_eq!(
        settings.get(SERVER_PATH_KEY).unwrap().as_str().unwrap(),
        "${workspaceFolder}/.vscode/.rules_rust_analyzer/rust_analyzer.exe"
    );
    assert_eq!(settings.get("editor.tabSize"), Some(&serde_json::Value::from(4)));
}

#[test]
fn merge_under_settings_key_creates_settings_when_missing() {
    let existing = some(r#"{"folders": [{"path": "."}]}"#);
    let merged =
        merge_file("proj.code-workspace", &existing, &all_managed(), &some("settings")).unwrap();
    let parsed = parse_merged(&merged);
    let settings = parsed
        .as_object()
        .unwrap()
        .get("settings")
        .expect("settings object should have been created")
        .as_object()
        .unwrap();
    assert!(settings.contains_key(DISCOVER_CONFIG_KEY));
}

#[test]
fn merge_under_settings_key_errors_on_non_object_settings() {
    let existing = some(r#"{"settings": "not an object"}"#);
    let err = merge_file("proj.code-workspace", &existing, &all_managed(), &some("settings"))
        .unwrap_err()
        .message();
    assert!(
        err.contains("`settings`") && err.contains("not an object"),
        "error should name the bad key and its shape, got: {err}"
    );
}

#[test]
fn replace_under_settings_key_preserves_top_level() {
    let existing = some(
        r#"{
                    "folders": [{"path": "."}],
                    "extensions": {"recommendations": ["rust-lang.rust-analyzer"]},
                    "settings": {"editor.tabSize": 4, "rust-analyzer.server.path": "stale"}
                }"#,
    );
    let replaced =
        replace_managed_file("proj.code-workspace", &existing, &all_managed(), &some("settings"))
            .unwrap();
    let parsed = parse_merged(&replaced);
    let root = parsed.as_object().unwrap();
    assert_eq!(root.get("folders").unwrap(), &parse_json(r#"[{"path": "."}]"#));
    assert_eq!(
        root.get("extensions").unwrap(),
        &parse_json(r#"{"recommendations": ["rust-lang.rust-analyzer"]}"#),
    );
    let settings = root.get("settings").unwrap().as_object().unwrap();
    assert!(!settings.contains_key("editor.tabSize"));
    assert!(settings.contains_key(SERVER_PATH_KEY));
}

#[test]
fn replace_without_settings_key_overwrites_root_as_before() {
    let replaced = replace_managed_file("settings.json", &None, &all_managed(), &None).unwrap();
    let parsed = parse_merged(&replaced);
    let root = parsed.as_object().unwrap();
    assert!(root.contains_key(SERVER_PATH_KEY));
    assert!(root.contains_key(DISCOVER_CONFIG_KEY));
    let over = replace_managed_file(
        "settings.json",
        &some(r#"{"editor.tabSize": 4}"#),
        &all_managed(),
        &None,
    )
    .unwrap();
    assert!(!parse_merged(&over).as_object().unwrap().contains_key("editor.tabSize"));
}

#[test]
fn settings_json_always_resolved_to_default_when_unset() {
    let resolved = resolve_vscode_targets("/ws", &empty_vscode_args(), &listing(&[])).unwrap();
    assert_eq!(resolved.settings_json, under(&["/ws", ".vscode/settings.json"]));
    assert!(resolved.code_workspace.is_none());
}

#[test]
fn autodetect_picks_unique_code_workspace_alongside_settings_json() {
    let resolved = resolve_vscode_targets(
        "/ws",
        &empty_vscode_args(),
        &listing(&["src", "myproj.code-workspace", "BUILD"]),
    )
    .unwrap();
    assert_eq!(resolved.settings_json, under(&["/ws", ".vscode/settings.json"]));
    let cw = resolved.code_workspace.expect("autodetect should pick up the .code-workspace");
    assert_eq!(cw.path, under(&["/ws", "myproj.code-workspace"]));
    assert_eq!(cw.settings_key, "settings");
}

#[test]
fn autodetect_errors_on_multiple_code_workspaces() {
    let err = resolve_vscode_targets(
        "/ws",
        &empty_vscode_args(),
        &listing(&["b.code-workspace", "a.code-workspace"]),
    )
    .unwrap_err();
    assert_eq!(
        err,
        SetupError::AmbiguousCodeWorkspace(
            "/ws".to_string(),
            vec!["a.code-workspace".to_string(), "b.code-workspace".to_string()],
        )
    );
    let err = err.message();
    assert!(
        err.contains("a.code-workspace") && err.contains("b.code-workspace"),
        "error should list both candidates, got: {err}"
    );
    assert!(err.contains("--code-workspace"));
    assert!(err.contains("--no-code-workspace"));
    assert_eq!(
        err,
        "multiple `*.code-workspace` files at /ws: a.code-workspace, b.code-workspace. Pass `--code-workspace <path>` to pick one, or `--no-code-workspace` to skip."
    );
}

#[test]
fn no_code_workspace_skips_even_if_one_is_present() {
    let mut args = empty_vscode_args();
    args.no_code_workspace = true;
    let resolved =
        resolve_vscode_targets("/ws", &args, &listing(&["myproj.code-workspace"])).unwrap();
    assert!(resolved.code_workspace.is_none());
}

#[test]
fn explicit_code_workspace_flag_forces_target() {
    let mut args = empty_vscode_args();
    args.code_workspace = some("/ws/new.code-workspace");
    let resolved = resolve_vscode_targets("/ws", &args, &None).unwrap();
    let cw = resolved.code_workspace.unwrap();
    assert_eq!(cw.path, "/ws/new.code-workspace");
    assert_eq!(cw.settings_key, "settings");
}

#[test]
fn explicit_settings_key_overrides_default() {
    let mut args = empty_vscode_args();
    args.code_workspace = some("/ws/foo.code-workspace");
    args.settings_key = some("my_settings");
    let resolved = resolve_vscode_targets("/ws", &args, &None).unwrap();
    let cw = resolved.code_workspace.unwrap();
    assert_eq!(cw.settings_key, "my_settings");
}

#[test]
fn explicit_settings_key_nests_under_arbitrary_key() {
    let merged =
        merge_file("settings.json", &some("{}"), &all_managed(), &some("rust")).unwrap();
    let parsed = parse_merged(&merged);
    let nested = parsed
        .as_object()
        .unwrap()
        .get("rust")
        .expect("nested key should be created")
        .as_object()
        .unwrap();
    assert!(nested.contains_key(SERVER_PATH_KEY));
}

#[test]
fn write_launcher_paths_json_emits_three_logical_names() {
    let written = launcher_paths_json(&dummy_toolchain());
    assert!(written.ends_with("}\n"));
    let parsed: serde_json::Value = serde_json::from_str(&written).unwrap();
    let obj = parsed.as_object().unwrap();
    assert_eq!(
        obj.get("rust_analyzer").unwrap().as_str().unwrap(),
        "/obase/external/ra/rust-analyzer"
    );
    assert_eq!(
        obj.get("rust_analyzer_proc_macro_srv").unwrap().as_str().unwrap(),
        "/obase/external/ra/proc-macro-srv"
    );
    assert_eq!(
        obj.get("rustfmt").unwrap().as_str().unwrap(),
        "/obase/external/rfmt/rustfmt"
    );
}

#[test]
fn read_root_object_accepts_jsonc_file() {
    let existing = some(
        r#"{
  // team-wide indent
  "editor.tabSize": 4,
  "rust-analyzer.checkOnSave": true,
}
"#,
    );
    let managed: Vec<(String, ManagedValue)> = vec![];
    let merged = merge_file("settings.json", &existing, &managed, &None).unwrap();
    assert!(merged.contains("// team-wide indent"), "line comment must survive: {merged}");
    let parsed = parse_merged(&merged);
    let obj = parsed.as_object().unwrap();
    assert_eq!(obj.get("editor.tabSize"), Some(&serde_json::Value::from(4)));
    assert_eq!(
        obj.get("rust-analyzer.checkOnSave"),
        Some(&serde_json::Value::Bool(true))
    );
}

#[test]
fn logical_name_strips_exe_suffix() {
    assert_eq!(logical_name("/x/rust_analyzer.exe").as_deref(), Some("rust_analyzer"));
}

#[test]
fn logical_name_passes_through_when_no_suffix() {
    assert_eq!(logical_name("/x/rustfmt").as_deref(), Some("rustfmt"));
    assert_eq!(logical_name("/").as_deref(), None);
}

#[test]
fn resolve_target_returns_mapped_path() {
    let out = resolve_target(
        "/x/launcher_paths.json",
        r#"{"rust_analyzer": "/abs/rust-analyzer", "rustfmt": "/abs/rustfmt"}"#,
        "rust_analyzer",
    )
    .unwrap();
    assert_eq!(out, "/abs/rust-analyzer");
}

#[test]
fn resolve_target_errors_on_missing_key_with_path_context() {
    let paths = under(&["/x", PATHS_FILENAME]);
    let err = resolve_target(&paths, r#"{"rust_analyzer": "/abs/rust-analyzer"}"#, "rustfmt")
        .unwrap_err();
    let msg = err.message();
    assert!(msg.contains("rustfmt"), "{msg}");
    assert!(msg.contains(PATHS_FILENAME), "{msg}");
    assert_eq!(err, LauncherError::NoEntry("rustfmt".to_string(), paths));
}

#[test]
fn target_is_found_among_entries() {
    let entries = vec![
        ("a".to_string(), "/a".to_string()),
        ("b".to_string(), "/b".to_string()),
    ];
    assert_eq!(find_target(&entries, "p", "b").unwrap(), "/b");
    assert_eq!(
        find_target(&entries, "p", "c").unwrap_err().message(),
        "no entry for `c` in p"
    );
}

#[test]
fn launchers_find_what_setup_wrote() {
    let written = launcher_paths_json(&dummy_toolchain());
    for name in launcher_logical_names() {
        let exe = under(&["/x", &launcher_filename(&name)]);
        let logical = logical_name(&exe).unwrap();
        assert_eq!(logical, name);
        assert_eq!(
            resolve_target("p", &written, &logical).unwrap(),
            toolchain_target_for(&name, &dummy_toolchain()),
        );
    }
}

#[test]
fn launchers_find_paths_that_json_escapes() {
    let toolchain = ToolchainBinaries {
        rust_analyzer: "C:\\tools\\rust-analyzer.exe".to_string(),
        ..dummy_toolchain()
    };
    let written = launcher_paths_json(&toolchain);
    assert!(written.contains("C:\\\\tools"), "{written}");
    assert_eq!(
        resolve_target("p", &written, "rust_analyzer").unwrap(),
        "C:\\tools\\rust-analyzer.exe"
    );
}

#[test]
fn a_broken_file_of_paths_is_described() {
    let err = resolve_target("/x/p.json", "[", "rustfmt").unwrap_err();
    assert!(matches!(&err, LauncherError::Unparsable(path, _) if path == "/x/p.json"));
    assert!(err.message().starts_with("parsing /x/p.json: "), "{}", err.message());
}

#[test]
fn settings_that_are_no_object_are_not_merged_into() {
    let err = merge_file("s.json", &some("[1]"), &all_managed(), &None).unwrap_err();
    assert_eq!(err, SettingsError::RootNotObject("s.json".to_string()));
    assert_eq!(
        err.message(),
        "s.json's root is not a JSON object; refusing to merge. Use --replace to overwrite."
    );
    let err = merge_file("s.json", &some("{ nonsense"), &all_managed(), &None).unwrap_err();
    assert!(matches!(&err, SettingsError::NotJson(path, _) if path == "s.json"));
    assert!(err.message().starts_with("s.json is not valid JSON ("), "{}", err.message());
}

#[test]
fn merging_twice_is_merging_once() {
    let existing = some(
        r#"{
  // kept
  "files.exclude": {"**/bazel-*/**": false},
  "a": [1, 2],
}
"#,
    );
    let once = merge_file("s.json", &existing, &all_managed(), &None).unwrap();
    let twice = merge_file("s.json", &Some(once.clone()), &all_managed(), &None).unwrap();
    assert_eq!(parse_merged(&once), parse_merged(&twice));
    assert!(twice.contains("// kept"));
    assert_eq!(
        updated_file("s.json", &existing, &all_managed(), &None, false).unwrap(),
        once
    );
    assert_eq!(
        updated_file("s.json", &existing, &all_managed(), &None, true).unwrap(),
        replace_managed_file("s.json", &existing, &all_managed(), &None).unwrap()
    );
}

#[test]
fn values_of_every_kind_are_written() {
    let value = Tree::Object(vec![
        ("null".to_string(), Tree::Null),
        ("bool".to_string(), Tree::Bool(true)),
        ("number".to_string(), Tree::Number("1.5".to_string())),
        ("text".to_string(), Tree::Text("a \"b\"\n".to_string())),
        ("list".to_string(), Tree::Array(vec![Tree::Null, Tree::Bool(false)])),
    ]);
    let managed = vec![
        ("k".to_string(), ManagedValue::Replace(value)),
        (
            "d".to_string(),
            ManagedValue::InsertEntries(vec![("x".to_string(), Tree::Bool(true))]),
        ),
    ];
    let merged = merge_file("s.json", &some(r#"{"d": 3}"#), &managed, &None).unwrap();
    assert_eq!(
        parse_merged(&merged),
        parse_json(
            r#"{"k": {"null": null, "bool": true, "number": 1.5, "text": "a \"b\"\n", "list": [null, false]}, "d": {"x": true}}"#
        ),
    );
}

#[test]
fn merged_text_reads_back_however_it_was_laid_out() {
    let managed = vec![
        ("k".to_string(), ManagedValue::Replace(Tree::Text("new\u{1}".to_string()))),
        (
            "d".to_string(),
            ManagedValue::InsertEntries(vec![("x".to_string(), Tree::Bool(true))]),
        ),
    ];
    for (text, rest) in [
        ("{k:'old'b:2}", r#""b": 2"#),
        ("{k:1 b:2 // c\n}", r#""b": 2"#),
        ("{\"b\":2, // c\r}", r#""b": 2"#),
        ("{\"b\":2 /* c\n */ , // e\n\n\n}", r#""b": 2"#),
        ("// top\n{ // only\n}// end", ""),
        ("{ /* only */ }", ""),
        ("{\n\n  \"d\": 3,\n\n  \"b\": 2,\n\n}\n", r#""b": 2"#),
        ("{\"b\":2,\"d\":{ // in\n}}", r#""b": 2"#),
    ] {
        let merged = merge_file("s.json", &some(text), &managed, &None).unwrap();
        let separator = if rest.is_empty() { "" } else { ", " };
        assert_eq!(
            parse_merged(&merged),
            parse_json(&format!(
                r#"{{"k": "new\u0001", "d": {{"x": true}}{separator}{rest}}}"#
            )),
            "{text:?} became {merged:?}",
        );
        assert_eq!(
            merge_file("s.json", &Some(merged.clone()), &managed, &None)
                .map(|again| parse_merged(&again))
                .unwrap(),
            parse_merged(&merged),
        );
    }
}

#[test]
fn bare_values_are_merged_where_there_are_commas() {
    let replace = |key: &str, value: Tree| (key.to_string(), ManagedValue::Replace(value));
    let managed = vec![
        replace("b", Tree::Bool(false)),
        replace("n", Tree::Null),
        replace("i", Tree::Number("-1.5e3".to_string())),
    ];
    let merged = merge_file(
        "s.json",
        &some("{b:'x',n:[] /* c */,i:{},last:1}"),
        &managed,
        &None,
    )
    .unwrap();
    assert!(merged.contains("/* c */"), "{merged}");
    assert_eq!(
        parse_merged(&merged),
        parse_json(r#"{"b": false, "n": null, "i": -1.5e3, "last": 1}"#)
    );
    let added = merge_file("s.json", &some("{last:'x'other:1}"), &managed, &None).unwrap();
    assert_eq!(
        parse_merged(&added),
        parse_json(r#"{"b": false, "n": null, "i": -1.5e3, "last": "x", "other": 1}"#)
    );
}

#[test]
fn replaced_text_reads_back_however_it_was_laid_out() {
    let managed = vec![("m".to_string(), ManagedValue::Replace(Tree::Bool(true)))];
    let key = some("k");
    for (text, rest) in [
        (r#"{"k": {"old": 1}}"#, ""),
        (r#"{"k": 1, "b": [1, 2 /* in */]}"#, r#""b": [1, 2], "#),
        ("{\"b\": 2, // above\n\"k\": 1}", r#""b": 2, "#),
        ("{\"b\": 2, // above\n  /* x */ \"k\": 1, // beside\n \"c\": 3}", r#""b": 2, "c": 3, "#),
        ("{\"b\":2,\"k\":1 // x\r ,\"c\":3,}", r#""b": 2, "c": 3, "#),
        ("{b:'x' k:1 c:'y'}", r#""b": "x", "c": "y", "#),
        ("{b:'x', c:'y'k:1}// end", r#""b": "x", "c": "y", "#),
        ("{ // only\n\"k\": 1 // last\n}", ""),
    ] {
        let replaced = replace_managed_file("s.json", &some(text), &managed, &key).unwrap();
        assert_eq!(
            parse_merged(&replaced),
            parse_json(&format!(r#"{{{rest}"k": {{"m": true}}}}"#)),
            "{text:?} became {replaced:?}",
        );
        assert_eq!(replaced.contains("/* in */"), text.contains("/* in */"));
    }
}

#[test]
fn managed_paths_are_relative_to_the_workspace() {
    assert_eq!(
        workspace_relative("x.exe"),
        "${workspaceFolder}/.vscode/.rules_rust_analyzer/x.exe"
    );
}

#[test]
fn toggles_say_on_off_or_nothing() {
    assert_eq!(pick_toggle(true, false), Some(true));
    assert_eq!(pick_toggle(false, true), Some(false));
    assert_eq!(pick_toggle(false, false), None);
}

#[test]
fn paths_that_are_asked_for_are_under_the_workspace() {
    assert_eq!(abs_or_under("/ws", "a/b.json"), under(&["/ws", "a/b.json"]));
    assert_eq!(abs_or_under("/ws", "/a/b.json"), "/a/b.json");
}

#[test]
fn settings_are_written_before_the_workspace_file() {
    let mut args = empty_vscode_args();
    args.settings_json = some("s.json");
    args.code_workspace = some("/p.code-workspace");
    let targets = resolve_vscode_targets("/ws", &args, &None).unwrap();
    assert_eq!(
        vscode_writes(&targets),
        vec![
            (under(&["/ws", "s.json"]), None),
            ("/p.code-workspace".to_string(), some("settings")),
        ],
    );
    let alone = resolve_vscode_targets("/ws", &empty_vscode_args(), &None).unwrap();
    assert_eq!(
        vscode_writes(&alone),
        vec![(under(&["/ws", ".vscode/settings.json"]), None)]
    );
}

#[test]
fn programs_that_setup_copies() {
    assert_eq!(
        source_binaries(),
        vec![
            (
                "rules_rust/tools/rust_analyzer/discover_bazel_rust_project_opt".to_string(),
                "discover_bazel_rust_project.exe".to_string(),
            ),
            (
                "rules_rust/tools/rust_analyzer/flycheck_opt".to_string(),
                "flycheck.exe".to_string(),
            ),
        ],
    );
    assert_eq!(launcher_filename("rustfmt"), "rustfmt.exe");
    assert_eq!(
        launcher_logical_names(),
        vec!["rust_analyzer", "rust_analyzer_proc_macro_srv", "rustfmt"]
    );
}

#[test]
fn expunge_only_what_discovery_left_and_what_exists() {
    assert_eq!(
        plan_expunge("/l", &None),
        ExpungePlan::NoSidecar(format!(
            "no sidecar at {}; skipping flycheck output_base expunge (nothing to clean before rust-analyzer discovery has run)",
            under(&["/l", "toolchain_info.json"])
        ))
    );
    assert_eq!(
        plan_expunge("/l", &some("/base")),
        ExpungePlan::Expunge("/base_rra".to_string())
    );
    assert_eq!(expunge_command("/ws", "/base_rra", false), None);
    let command = expunge_command("/ws", "/base_rra", true).unwrap();
    assert_eq!(command.program, "bazel");
    assert_eq!(command.cwd, "/ws");
    assert_eq!(
        command.args,
        vec!["--output_base=/base_rra", "clean", "--expunge"]
    );
}

#[test]
fn expunge_is_told_of() {
    assert_eq!(
        expunge_report("/b", &ExpungeOutcome::Succeeded),
        "expunged flycheck output_base at /b"
    );
    assert_eq!(
        expunge_report("/b", &ExpungeOutcome::Exited("exit status: 2".to_string())),
        "bazel clean --expunge on flycheck output_base /b exited with exit status: 2; leaving the directory as-is"
    );
    assert_eq!(
        expunge_report("/b", &ExpungeOutcome::NotRun("not found".to_string())),
        "could not invoke `bazel` to expunge flycheck output_base at /b: not found; delete it by hand if needed"
    );
}

#[test]
fn output_base_of_flycheck_by_precedence() {
    let mut user = UserConfig::default();
    let info = StringMap::from_pairs(vec![("output_base".to_string(), "/outer".to_string())]);
    let nothing = StringMap::new();
    assert_eq!(known_flycheck_output_base(&user, &None), None);
    assert_eq!(
        resolve_flycheck_output_base(&user, &None, &info).unwrap(),
        "/outer_rra"
    );
    let err = resolve_flycheck_output_base(&user, &None, &nothing).unwrap_err();
    assert_eq!(err, SetupError::NoOuterOutputBase);
    assert_eq!(err.message(), "outer `bazel info` returned no `output_base` line");
    assert_eq!(
        resolve_flycheck_output_base(&user, &some("/side"), &info).unwrap(),
        "/side_rra"
    );
    user.output_base = some("/mine");
    assert_eq!(
        resolve_flycheck_output_base(&user, &some("/side"), &info).unwrap(),
        "/mine"
    );
}

#[test]
fn backslashes_become_slashes_where_paths_have_them() {
    assert_eq!(to_forward_slashes(r"C:\a\b", true), "C:/a/b");
    assert_eq!(to_forward_slashes(r"C:\a\b", false), r"C:\a\b");
    let (mut ctx, _) = dummy_ctx();
    ctx.windows = true;
    ctx.toolchain.rustfmt = r"C:\rustfmt.exe".to_string();
    let paths = SnippetPaths::for_ctx(&ctx, "/l");
    assert_eq!(paths.rustfmt, "C:/rustfmt.exe");
    assert_eq!(paths.ra, "/obase/external/ra/rust-analyzer");
    assert!(paths.discover.ends_with("/discover_bazel_rust_project.exe"));
}

#[test]
fn parts_are_there_or_not() {
    assert_eq!(opt_block(true, "a", |b: &str| format!("<{b}>")), "<a>");
    assert_eq!(opt_block(false, "a", |b: &str| format!("<{b}>")), "");
}

#[test]
fn helix_settings_in_full() {
    let (mut ctx, _) = dummy_ctx();
    ctx.skip_rustfmt = true;
    assert_eq!(
        generate_helix_toml(&ctx, "/l"),
        format!(
            r#"[language-server.rust-analyzer]
command = "/obase/external/ra/rust-analyzer"

[language-server.rust-analyzer.config.rust-analyzer.workspace.discoverConfig]
command = ["{}", "{{arg}}"]
progressLabel = "rules_rust"
filesToWatch = ["BUILD", "BUILD.bazel", "MODULE.bazel", "WORKSPACE", "WORKSPACE.bazel"]

[language-server.rust-analyzer.config.rust-analyzer.procMacro]
server = "/obase/external/ra/proc-macro-srv"

[language-server.rust-analyzer.config.rust-analyzer.lens]
enable = true
"#,
            under(&["/l", "discover_bazel_rust_project.exe"])
        ),
    );
}

#[test]
fn comments_beside_managed_values_survive_a_merge() {
    let existing = "// first\n{\n  /* a */ \"x\": [1, /* b */ 2], // c\n  \"rust-analyzer.server.path\": /* d */ \"old\",\n  \"files.exclude\": {\n    // e\n    \"y\": true\n  },\n  \"search.exclude\": [ /* lost */ ]\n  // f\n}\n// last\n";
    let merged =
        merge_file("s.json", &some(existing), &all_managed(), &None).unwrap();
    let mut at = 0;
    for comment in ["// first", "/* a */", "/* b */", "// c", "/* d */", "// e", "// f", "// last"] {
        let found = merged[at..].find(comment);
        assert!(found.is_some(), "{comment} is gone or out of place:\n{merged}");
        at += found.unwrap() + comment.len();
    }
    assert!(!merged.contains("/* lost */"));
}

#[test]
fn nothing_to_merge_leaves_the_text_alone() {
    let existing = "\u{20}{ 'a' : 0x1F, // odd\r\n b: [ +1 , ], }  \n\n";
    assert_eq!(
        merge_file("s.json", &some(existing), &Vec::new(), &None).unwrap(),
        existing
    );
    assert_eq!(merge_file("s.json", &some(" \n"), &Vec::new(), &None).unwrap(), "{}\n");
}
