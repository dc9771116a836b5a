//! What setup decides: which files it writes, where the launchers go, and what
//! it does about the server that flycheck uses.
use vstd::prelude::*;
use crate::discovery;
use crate::discovery::{
    bazel_command, flycheck_output_base, BazelCommand, DISCOVER_BINARY_FILENAME,
    FLYCHECK_BINARY_FILENAME, RRA_OUTPUT_BASE_SUFFIX, TOOLCHAIN_INFO_SIDECAR,
};
use crate::launcher;
use crate::order;
use crate::order::sort_list;
use crate::paths;
use crate::settings::{LAUNCHER_SUBDIR, VSCODE_LAUNCHER_REL};
use crate::string_map;
use crate::string_map::StringMap;
use crate::text;
use crate::text::{copied, finishes_with, join_texts, same_text};
use crate::user_config;
use crate::user_config::{ConfigFields, ConfigRead, UserConfig, UserConfigView};

verus! {

/// The suffix of a workspace file of VS Code.
pub const CODE_WORKSPACE_EXT: &'static str = ".code-workspace";

/// The settings of VS Code, in the workspace.
pub const DEFAULT_VSCODE_OUTPUT: &'static str = ".vscode/settings.json";

pub const DISCOVER_BINARY_RLOCATION: &'static str =
    "rules_rust/tools/rust_analyzer/discover_bazel_rust_project_opt";

pub const FLYCHECK_BINARY_RLOCATION: &'static str = "rules_rust/tools/rust_analyzer/flycheck_opt";

/// What setup is asked for VS Code.
#[derive(Debug, PartialEq, Eq)]
pub struct VscodeArgs {
    /// The settings to write, where they are not the usual ones.
    pub settings_json: Option<String>,
    /// The workspace file to write as well.
    pub code_workspace: Option<String>,
    /// Whether to write no workspace file at all.
    pub no_code_workspace: bool,
    /// The key of the workspace file that holds settings.
    pub settings_key: Option<String>,
    /// Whether to print instead of write.
    pub dry_run: bool,
    /// Whether to replace what is managed instead of merging.
    pub replace: bool,
}

/// The editor that setup is for.
#[derive(Debug, PartialEq, Eq)]
pub enum IdeCmd {
    Vscode(VscodeArgs),
    Neovim,
    Helix,
    /// Any other editor that takes its settings as JSON.
    Print,
}

/// What a pair of flags, one to turn on and one to turn off, says.
pub fn pick_toggle(on: bool, off: bool) -> (r: Option<bool>)
    ensures
        r == (if on {
            Some(true)
        } else if off {
            Some(false)
        } else {
            None
        }),
{
    if on {
        Some(true)
    } else if off {
        Some(false)
    } else {
        None
    }
}

/// Settings with what is given set and all else as it is in `config`.
pub open spec fn edited(
    config: UserConfigView,
    clippy: Option<bool>,
    per_package_workspaces: Option<bool>,
    output_base: Option<Seq<char>>,
) -> UserConfigView {
    UserConfigView {
        clippy: match clippy {
            Some(v) => v,
            None => config.clippy,
        },
        per_package_workspaces: match per_package_workspaces {
            Some(v) => v,
            None => config.per_package_workspaces,
        },
        output_base: match output_base {
            Some(v) => Some(v),
            None => config.output_base,
        },
    }
}

/// What the file of the settings is to hold after the edits, where `read` is
/// what it holds now; `None` when there are none to make, and the file is left
/// alone. What is read from the file afterwards is what was read before, but
/// for what is named.
pub fn apply_user_config_edits(
    read: &ConfigRead,
    clippy: Option<bool>,
    per_package_workspaces: Option<bool>,
    output_base: Option<String>,
) -> (r: Option<ConfigFields>)
    ensures
        r is None <==> clippy is None && per_package_workspaces is None && output_base is None,
        r matches Some(fields) ==> {
            let after = edited(
                user_config::loaded(*read),
                clippy,
                per_package_workspaces,
                text::opt_view(output_base),
            );
            user_config::is_saved(fields, after) && user_config::loaded(
                ConfigRead::Fields(fields),
            ) == after
        },
{
    if clippy.is_none() && per_package_workspaces.is_none() && output_base.is_none() {
        return None;
    }
    let mut config = user_config::load(read);
    match clippy {
        Some(v) => {
            config.clippy = v;
        },
        None => {},
    }
    match per_package_workspaces {
        Some(v) => {
            config.per_package_workspaces = v;
        },
        None => {},
    }
    match output_base {
        Some(v) => {
            config.output_base = Some(v);
        },
        None => {},
    }
    let fields = user_config::saved(&config);
    proof {
        user_config::lemma_saved_reads_back(fields, config@);
    }
    Some(fields)
}

// ---------------------------------------------------------------------------
// The files of VS Code
// ---------------------------------------------------------------------------

/// Why setup fails.
#[derive(Debug, PartialEq, Eq)]
pub enum SetupError {
    /// The workspace has several workspace files; holds it and their names.
    AmbiguousCodeWorkspace(String, Vec<String>),
    /// The outer server does not say what its `output_base` is.
    NoOuterOutputBase,
}

impl SetupError {
    /// The text of the error.
    pub open spec fn text(self) -> Seq<char> {
        match self {
            SetupError::AmbiguousCodeWorkspace(workspace, names) => "multiple `*"@
                + CODE_WORKSPACE_EXT@ + "` files at "@ + workspace@ + ": "@ + text::joined_with(
                text::views(names@),
                ", "@,
            )
                + ". Pass `--code-workspace <path>` to pick one, or `--no-code-workspace` to skip."@,
            SetupError::NoOuterOutputBase =>
                "outer `bazel info` returned no `output_base` line"@,
        }
    }

    /// Describes the error.
    pub fn message(&self) -> (r: String)
        ensures
            r@ == self.text(),
    {
        match self {
            SetupError::AmbiguousCodeWorkspace(workspace, names) => {
                let mut r = "multiple `*".to_owned();
                r.append(CODE_WORKSPACE_EXT);
                r.append("` files at ");
                r.append(workspace.as_str());
                r.append(": ");
                r.append(join_texts(names, ", ").as_str());
                r.append(
                    ". Pass `--code-workspace <path>` to pick one, or `--no-code-workspace` to skip.",
                );
                r
            },
            SetupError::NoOuterOutputBase =>
                "outer `bazel info` returned no `output_base` line".to_owned(),
        }
    }
}

/// A path that was asked for: as it is when it is absolute, and otherwise in
/// the workspace.
pub open spec fn anchored_path(workspace: Seq<char>, path: Seq<char>) -> Seq<char> {
    if paths::absolute(path) {
        path
    } else {
        paths::joined(workspace, path)
    }
}

/// A path that was asked for: as it is when it is absolute, and otherwise in
/// the workspace.
pub fn abs_or_under(workspace: &str, path: &str) -> (r: String)
    ensures
        r@ == anchored_path(workspace@, path@),
{
    if paths::is_absolute(path) {
        path.to_owned()
    } else {
        paths::join(workspace, path)
    }
}

/// The names among `names` of workspace files.
pub open spec fn code_workspace_names(names: Seq<Seq<char>>) -> Seq<Seq<char>>
    decreases names.len(),
{
    if names.len() == 0 {
        Seq::empty()
    } else if CODE_WORKSPACE_EXT@.is_suffix_of(names.last()) {
        code_workspace_names(names.drop_last()).push(names.last())
    } else {
        code_workspace_names(names.drop_last())
    }
}

/// The names of the files in the workspace; none where it cannot be listed.
pub open spec fn listed(listing: Option<Vec<String>>) -> Seq<Seq<char>> {
    match listing {
        Some(names) => text::views(names@),
        None => Seq::empty(),
    }
}

/// The workspace file in the workspace, whose files are `listing`: none when
/// there is none, the one when there is one, and an error that names them all,
/// sorted, when there are several.
pub fn autodetect_code_workspace(workspace: &str, listing: &Option<Vec<String>>) -> (r: Result<
    Option<String>,
    SetupError,
>)
    ensures
        ({
            let found = code_workspace_names(listed(*listing));
            match r {
                Ok(None) => found.len() == 0,
                Ok(Some(path)) => found.len() == 1 && path@ == paths::joined(workspace@, found[0]),
                Err(SetupError::AmbiguousCodeWorkspace(at, names)) => found.len() > 1 && at@
                    == workspace@ && order::is_sorting(text::views(names@), found),
                Err(_) => false,
            }
        }),
{
    let mut found: Vec<String> = Vec::new();
    assert(text::views(found@) =~= Seq::empty());
    match listing {
        Some(names) => {
            let ghost all = text::views(names@);
            let mut i: usize = 0;
            assert(all.take(0) =~= Seq::empty());
            while i < names.len()
                invariant
                    i <= names@.len(),
                    all == text::views(names@),
                    text::views(found@) == code_workspace_names(all.take(i as int)),
                decreases names@.len() - i,
            {
                let ghost before = found@;
                assert(all.take(i + 1).drop_last() =~= all.take(i as int));
                assert(all.take(i + 1).last() == names@[i as int]@);
                if finishes_with(names[i].as_str(), CODE_WORKSPACE_EXT) {
                    found.push(copied(&names[i]));
                    assert(text::views(found@) =~= text::views(before).push(names@[i as int]@));
                }
                i += 1;
            }
            assert(all.take(i as int) =~= all);
        },
        None => {},
    }
    if found.len() == 0 {
        Ok(None)
    } else if found.len() == 1 {
        assert(found@[0]@ == text::views(found@)[0]);
        Ok(Some(paths::join(workspace, found[0].as_str())))
    } else {
        let ghost unsorted = found@;
        let names = sort_list(found);
        assert(text::views(names@) =~= order::keys(names@));
        assert(text::views(unsorted) =~= order::keys(unsorted));
        Err(SetupError::AmbiguousCodeWorkspace(workspace.to_owned(), names))
    }
}

/// A workspace file to write, and the key under which its settings are.
#[derive(Debug, PartialEq, Eq)]
pub struct CodeWorkspaceTarget {
    pub path: String,
    pub settings_key: String,
}

/// The files of VS Code to write.
#[derive(Debug, PartialEq, Eq)]
pub struct ResolvedVscodeTargets {
    pub settings_json: String,
    pub code_workspace: Option<CodeWorkspaceTarget>,
}

/// Whether `r` is the workspace file to write: none when that is asked for,
/// the one that is asked for, or else the one in the workspace.
pub open spec fn is_code_workspace_target(
    workspace: Seq<char>,
    args: VscodeArgs,
    listing: Option<Vec<String>>,
    r: Result<Option<CodeWorkspaceTarget>, SetupError>,
) -> bool {
    let found = code_workspace_names(listed(listing));
    let key = match args.settings_key {
        Some(k) => k@,
        None => "settings"@,
    };
    if args.no_code_workspace {
        r == Ok::<Option<CodeWorkspaceTarget>, SetupError>(None)
    } else {
        match args.code_workspace {
            Some(p) => r matches Ok(Some(t)) && t.path@ == anchored_path(workspace, p@)
                && t.settings_key@ == key,
            None => match r {
                Ok(None) => found.len() == 0,
                Ok(Some(t)) => found.len() == 1 && t.path@ == paths::joined(workspace, found[0])
                    && t.settings_key@ == key,
                Err(SetupError::AmbiguousCodeWorkspace(at, names)) => found.len() > 1 && at@
                    == workspace && order::is_sorting(text::views(names@), found),
                Err(_) => false,
            },
        }
    }
}

/// The workspace file to write, where `listing` are the files in the
/// workspace.
pub fn resolve_code_workspace_target(
    workspace: &str,
    args: &VscodeArgs,
    listing: &Option<Vec<String>>,
) -> (r: Result<Option<CodeWorkspaceTarget>, SetupError>)
    ensures
        is_code_workspace_target(workspace@, *args, *listing, r),
{
    if args.no_code_workspace {
        return Ok(None);
    }
    let path = match &args.code_workspace {
        Some(p) => Some(abs_or_under(workspace, p.as_str())),
        None => match autodetect_code_workspace(workspace, listing) {
            Ok(p) => p,
            Err(e) => return Err(e),
        },
    };
    match path {
        Some(path) => {
            let settings_key = match &args.settings_key {
                Some(k) => copied(k),
                None => "settings".to_owned(),
            };
            Ok(Some(CodeWorkspaceTarget { path, settings_key }))
        },
        None => Ok(None),
    }
}

/// The settings file to write.
pub open spec fn settings_target(workspace: Seq<char>, args: VscodeArgs) -> Seq<char> {
    match args.settings_json {
        Some(p) => anchored_path(workspace, p@),
        None => paths::joined(workspace, DEFAULT_VSCODE_OUTPUT@),
    }
}

/// The files of VS Code to write, where `listing` are the files in the
/// workspace. The settings are always among them.
pub fn resolve_vscode_targets(
    workspace: &str,
    args: &VscodeArgs,
    listing: &Option<Vec<String>>,
) -> (r: Result<ResolvedVscodeTargets, SetupError>)
    ensures
        match r {
            Ok(targets) => {
                &&& targets.settings_json@ == settings_target(workspace@, *args)
                &&& is_code_workspace_target(
                    workspace@,
                    *args,
                    *listing,
                    Ok(targets.code_workspace),
                )
            },
            Err(e) => is_code_workspace_target(workspace@, *args, *listing, Err(e)),
        },
{
    let settings_json = match &args.settings_json {
        Some(p) => abs_or_under(workspace, p.as_str()),
        None => paths::join(workspace, DEFAULT_VSCODE_OUTPUT),
    };
    match resolve_code_workspace_target(workspace, args, listing) {
        Ok(code_workspace) => Ok(ResolvedVscodeTargets { settings_json, code_workspace }),
        Err(e) => Err(e),
    }
}

/// The contents of a list of files with the keys to write under.
pub open spec fn write_views(
    list: Seq<(String, Option<String>)>,
) -> Seq<(Seq<char>, Option<Seq<char>>)> {
    list.map_values(|w: (String, Option<String>)| (w.0@, text::opt_view(w.1)))
}

/// What is written, in order: the settings with the managed keys at the top,
/// and the workspace file with them under its key.
pub fn vscode_writes(targets: &ResolvedVscodeTargets) -> (r: Vec<(String, Option<String>)>)
    ensures
        write_views(r@) == seq![(targets.settings_json@, None::<Seq<char>>)] + (
        match targets.code_workspace {
            Some(t) => seq![(t.path@, Some(t.settings_key@))],
            None => Seq::empty(),
        }),
{
    let mut r: Vec<(String, Option<String>)> = Vec::new();
    r.push((copied(&targets.settings_json), None));
    match &targets.code_workspace {
        Some(t) => {
            r.push((copied(&t.path), Some(copied(&t.settings_key))));
            assert(write_views(r@) =~= seq![(targets.settings_json@, None::<Seq<char>>)] + seq![
                (t.path@, Some(t.settings_key@)),
            ]);
        },
        None => {
            assert(write_views(r@) =~= seq![(targets.settings_json@, None::<Seq<char>>)]
                + Seq::empty());
        },
    }
    r
}

// ---------------------------------------------------------------------------
// The launchers
// ---------------------------------------------------------------------------

/// The directory of the launchers for an editor.
pub open spec fn launcher_dir(workspace: Seq<char>, ide: IdeCmd) -> Seq<char> {
    match ide {
        IdeCmd::Vscode(_) => paths::joined(
            paths::joined(workspace, VSCODE_LAUNCHER_REL@),
            LAUNCHER_SUBDIR@,
        ),
        IdeCmd::Helix => paths::joined(paths::joined(workspace, ".helix"@), LAUNCHER_SUBDIR@),
        IdeCmd::Neovim => paths::joined(workspace, LAUNCHER_SUBDIR@),
        IdeCmd::Print => paths::joined(workspace, LAUNCHER_SUBDIR@),
    }
}

/// The directory of the launchers for an editor: inside its own directory, or
/// at the top of the workspace for one that has none.
pub fn launcher_dir_for(workspace: &str, ide: &IdeCmd) -> (r: String)
    ensures
        r@ == launcher_dir(workspace@, *ide),
{
    match ide {
        IdeCmd::Vscode(_) => paths::join(
            paths::join(workspace, VSCODE_LAUNCHER_REL).as_str(),
            LAUNCHER_SUBDIR,
        ),
        IdeCmd::Helix => paths::join(paths::join(workspace, ".helix").as_str(), LAUNCHER_SUBDIR),
        IdeCmd::Neovim | IdeCmd::Print => paths::join(workspace, LAUNCHER_SUBDIR),
    }
}

/// The programs of the toolchain.
#[derive(Debug, PartialEq, Eq)]
pub struct ToolchainBinaries {
    pub rust_analyzer: String,
    pub proc_macro_srv: String,
    pub rustfmt: String,
}

/// The programs that setup copies: where each comes from, and what it is
/// called.
pub fn source_binaries() -> (r: Vec<(String, String)>)
    ensures
        string_map::pair_views(r@) == seq![
            (DISCOVER_BINARY_RLOCATION@, DISCOVER_BINARY_FILENAME@),
            (FLYCHECK_BINARY_RLOCATION@, FLYCHECK_BINARY_FILENAME@),
        ],
{
    let r: Vec<(String, String)> = vec![
        (DISCOVER_BINARY_RLOCATION.to_owned(), DISCOVER_BINARY_FILENAME.to_owned()),
        (FLYCHECK_BINARY_RLOCATION.to_owned(), FLYCHECK_BINARY_FILENAME.to_owned()),
    ];
    assert(string_map::pair_views(r@) =~= seq![
        (DISCOVER_BINARY_RLOCATION@, DISCOVER_BINARY_FILENAME@),
        (FLYCHECK_BINARY_RLOCATION@, FLYCHECK_BINARY_FILENAME@),
    ]);
    r
}

/// The names of the launchers.
pub open spec fn logical_names() -> Seq<Seq<char>> {
    seq!["rust_analyzer"@, "rust_analyzer_proc_macro_srv"@, "rustfmt"@]
}

/// The names of the launchers.
pub fn launcher_logical_names() -> (r: Vec<String>)
    ensures
        text::views(r@) == logical_names(),
{
    let r: Vec<String> = vec![
        "rust_analyzer".to_owned(),
        "rust_analyzer_proc_macro_srv".to_owned(),
        "rustfmt".to_owned(),
    ];
    assert(text::views(r@) =~= logical_names());
    r
}

/// The file of the launcher called `logical`. It ends in `.exe` everywhere.
pub fn launcher_filename(logical: &str) -> (r: String)
    ensures
        r@ == logical@ + ".exe"@,
{
    let mut r = logical.to_owned();
    r.append(".exe");
    r
}

/// The program behind the launcher called `logical`.
pub open spec fn target_of(logical: Seq<char>, toolchain: ToolchainBinaries) -> Seq<char> {
    if logical == "rust_analyzer"@ {
        toolchain.rust_analyzer@
    } else if logical == "rust_analyzer_proc_macro_srv"@ {
        toolchain.proc_macro_srv@
    } else {
        toolchain.rustfmt@
    }
}

/// The program behind the launcher called `logical`.
pub fn toolchain_target_for(logical: &str, toolchain: &ToolchainBinaries) -> (r: String)
    requires
        logical_names().contains(logical@),
    ensures
        r@ == target_of(logical@, *toolchain),
{
    if same_text(logical, "rust_analyzer") {
        copied(&toolchain.rust_analyzer)
    } else if same_text(logical, "rust_analyzer_proc_macro_srv") {
        copied(&toolchain.proc_macro_srv)
    } else {
        copied(&toolchain.rustfmt)
    }
}

/// The entries of the file that the launchers read.
pub open spec fn launcher_entries(toolchain: ToolchainBinaries) -> Seq<(Seq<char>, Seq<char>)> {
    logical_names().map_values(|name: Seq<char>| (name, target_of(name, toolchain)))
}

/// Whether every launcher finds its program in the text `raw`.
pub open spec fn all_found(raw: Seq<char>, toolchain: ToolchainBinaries) -> bool {
    forall|i: int|
        0 <= i < logical_names().len() ==> launcher::finds(
            raw,
            #[trigger] logical_names()[i],
            target_of(logical_names()[i], toolchain),
        )
}

proof fn lemma_gathered_launchers(toolchain: ToolchainBinaries, i: int)
    requires
        0 <= i < logical_names().len(),
    ensures
        string_map::lookup(
            string_map::gathered(launcher_entries(toolchain)),
            logical_names()[i],
        ) == Some(target_of(logical_names()[i], toolchain)),
{
    reveal_strlit("rust_analyzer");
    reveal_strlit("rust_analyzer_proc_macro_srv");
    reveal_strlit("rustfmt");
    let e = launcher_entries(toolchain);
    let q = logical_names()[i];
    let e0 = Seq::<(Seq<char>, Seq<char>)>::empty();
    let g1 = string_map::put(e0, e[0].0, e[0].1);
    let g2 = string_map::put(g1, e[1].0, e[1].1);
    let g3 = string_map::put(g2, e[2].0, e[2].1);
    let d2 = e.drop_last();
    let d1 = d2.drop_last();
    assert(d1.drop_last() =~= e0);
    assert(string_map::put_all(e0, d1.drop_last()) == e0);
    assert(string_map::put_all(e0, d1) == g1);
    assert(string_map::put_all(e0, d2) == g2);
    assert(string_map::gathered(e) == g3);
    string_map::lemma_put_sorted(e0, e[0].0, e[0].1);
    string_map::lemma_put_sorted(g1, e[1].0, e[1].1);
    string_map::lemma_put_lookup(e0, e[0].0, e[0].1, q);
    string_map::lemma_put_lookup(g1, e[1].0, e[1].1, q);
    string_map::lemma_put_lookup(g2, e[2].0, e[2].1, q);
    assert(e[0].0.len() != e[1].0.len() && e[1].0.len() != e[2].0.len() && e[0].0.len()
        != e[2].0.len());
}

/// The text of the file that the launchers read. Every launcher finds its
/// program in it.
pub fn launcher_paths_json(toolchain: &ToolchainBinaries) -> (r: String)
    ensures
        r@ == launcher::printed_paths(launcher_entries(*toolchain)).push('\n'),
        all_found(r@, *toolchain),
{
    let names = launcher_logical_names();
    let ghost all = launcher_entries(*toolchain);
    let mut entries: Vec<(String, String)> = Vec::new();
    let mut i: usize = 0;
    while i < names.len()
        invariant
            i <= names@.len(),
            text::views(names@) == logical_names(),
            all == launcher_entries(*toolchain),
            entries@.len() == i,
            forall|k: int| 0 <= k < i ==> string_map::pair_views(entries@)[k] == #[trigger] all[k],
        decreases names@.len() - i,
    {
        let ghost before = entries@;
        assert(names@[i as int]@ == logical_names()[i as int]);
        assert(logical_names().contains(names@[i as int]@));
        entries.push(
            (copied(&names[i]), toolchain_target_for(names[i].as_str(), toolchain)),
        );
        assert forall|k: int| 0 <= k < i + 1 implies string_map::pair_views(entries@)[k]
            == #[trigger] all[k] by {
            if k < i {
                assert(string_map::pair_views(before)[k] == all[k]);
                assert(entries@[k] == before[k]);
            }
        }
        i += 1;
    }
    assert(string_map::pair_views(entries@) =~= all);
    let mut r = launcher::print_paths(&entries);
    r.push('\n');
    proof {
        assert forall|k: int| 0 <= k < logical_names().len() implies launcher::finds(
            r@,
            #[trigger] logical_names()[k],
            target_of(logical_names()[k], *toolchain),
        ) by {
            lemma_gathered_launchers(*toolchain, k);
        }
    }
    r
}

// ---------------------------------------------------------------------------
// The server of flycheck
// ---------------------------------------------------------------------------

/// What is known of the server of flycheck before it is cleaned up.
#[derive(Debug, PartialEq, Eq)]
pub enum ExpungePlan {
    /// Discovery has not run yet: there is nothing to clean up. Holds what to
    /// tell.
    NoSidecar(String),
    /// The `output_base` to expunge, if it exists.
    Expunge(String),
}

/// What to clean up, where `outer` is the `output_base` that discovery left in
/// the launcher directory.
pub fn plan_expunge(launcher_dir: &str, outer: &Option<String>) -> (r: ExpungePlan)
    ensures
        match (r, outer) {
            (ExpungePlan::NoSidecar(told), None) => told@ == "no sidecar at "@ + paths::joined(
                launcher_dir@,
                TOOLCHAIN_INFO_SIDECAR@,
            )
                + "; skipping flycheck output_base expunge (nothing to clean before rust-analyzer discovery has run)"@,
            (ExpungePlan::Expunge(base), Some(o)) => base@ == o@ + RRA_OUTPUT_BASE_SUFFIX@,
            _ => false,
        },
{
    match outer {
        Some(o) => ExpungePlan::Expunge(flycheck_output_base(o.as_str())),
        None => {
            let mut told = "no sidecar at ".to_owned();
            told.append(paths::join(launcher_dir, TOOLCHAIN_INFO_SIDECAR).as_str());
            told.append(
                "; skipping flycheck output_base expunge (nothing to clean before rust-analyzer discovery has run)",
            );
            ExpungePlan::NoSidecar(told)
        },
    }
}

/// The command that shuts the server at `base` down and removes what it wrote,
/// or `None` when there is nothing at `base`.
pub fn expunge_command(workspace: &str, base: &str, exists: bool) -> (r: Option<BazelCommand>)
    ensures
        match r {
            Some(command) => exists && command@ == discovery::with_args(
                discovery::bazel_command_view("bazel"@, Some(workspace@), Some(base@)),
                seq!["clean"@, "--expunge"@],
            ),
            None => !exists,
        },
{
    if !exists {
        return None;
    }
    let mut cmd = bazel_command("bazel", &Some(workspace.to_owned()), &Some(base.to_owned()));
    let ghost before = cmd@;
    cmd.arg("clean".to_owned());
    cmd.arg("--expunge".to_owned());
    assert(cmd@.args =~= before.args + seq!["clean"@, "--expunge"@]);
    Some(cmd)
}

/// What came of an expunge.
#[derive(Debug, PartialEq, Eq)]
pub enum ExpungeOutcome {
    Succeeded,
    /// Bazel ended with this status.
    Exited(String),
    /// Bazel could not be run, for this reason.
    NotRun(String),
}

/// What to tell of an expunge of `base`.
pub open spec fn expunge_text(base: Seq<char>, outcome: ExpungeOutcome) -> Seq<char> {
    match outcome {
        ExpungeOutcome::Succeeded => "expunged flycheck output_base at "@ + base,
        ExpungeOutcome::Exited(status) => "bazel clean --expunge on flycheck output_base "@ + base
            + " exited with "@ + status@ + "; leaving the directory as-is"@,
        ExpungeOutcome::NotRun(reason) =>
            "could not invoke `bazel` to expunge flycheck output_base at "@ + base + ": "@
            + reason@ + "; delete it by hand if needed"@,
    }
}

/// What to tell of an expunge of `base`. It is never an error: the clean-up is
/// a courtesy.
pub fn expunge_report(base: &str, outcome: &ExpungeOutcome) -> (r: String)
    ensures
        r@ == expunge_text(base@, *outcome),
{
    match outcome {
        ExpungeOutcome::Succeeded => {
            let mut r = "expunged flycheck output_base at ".to_owned();
            r.append(base);
            r
        },
        ExpungeOutcome::Exited(status) => {
            let mut r = "bazel clean --expunge on flycheck output_base ".to_owned();
            r.append(base);
            r.append(" exited with ");
            r.append(status.as_str());
            r.append("; leaving the directory as-is");
            r
        },
        ExpungeOutcome::NotRun(reason) => {
            let mut r = "could not invoke `bazel` to expunge flycheck output_base at ".to_owned();
            r.append(base);
            r.append(": ");
            r.append(reason.as_str());
            r.append("; delete it by hand if needed");
            r
        },
    }
}

/// The `output_base` of flycheck, as far as it is known without asking the
/// outer server: what the user set, or else what follows from the one that
/// discovery found.
pub fn known_flycheck_output_base(user: &UserConfig, outer: &Option<String>) -> (r: Option<String>)
    ensures
        text::opt_view(r) == (match user.output_base {
            Some(base) => Some(base@),
            None => match outer {
                Some(o) => Some(o@ + RRA_OUTPUT_BASE_SUFFIX@),
                None => None,
            },
        }),
{
    match &user.output_base {
        Some(base) => Some(copied(base)),
        None => match outer {
            Some(o) => Some(flycheck_output_base(o.as_str())),
            None => None,
        },
    }
}

/// The `output_base` of flycheck: what is known without asking, or else what
/// follows from what the outer server says in `info`.
pub fn resolve_flycheck_output_base(
    user: &UserConfig,
    outer: &Option<String>,
    info: &StringMap,
) -> (r: Result<String, SetupError>)
    ensures
        ({
            let base = match user.output_base {
                Some(base) => Some(base@),
                None => match outer {
                    Some(o) => Some(o@ + RRA_OUTPUT_BASE_SUFFIX@),
                    None => match string_map::lookup(info@, "output_base"@) {
                        Some(o) => Some(o + RRA_OUTPUT_BASE_SUFFIX@),
                        None => None,
                    },
                },
            };
            match (r, base) {
                (Ok(b), Some(c)) => b@ == c,
                (Err(e), None) => e == SetupError::NoOuterOutputBase,
                _ => false,
            }
        }),
{
    match known_flycheck_output_base(user, outer) {
        Some(base) => Ok(base),
        None => match info.get("output_base") {
            Some(o) => Ok(flycheck_output_base(o.as_str())),
            None => Err(SetupError::NoOuterOutputBase),
        },
    }
}

// ---------------------------------------------------------------------------
// What follows from what is asked for
// ---------------------------------------------------------------------------

/// An edit sets what it names and nothing else.
pub proof fn lemma_edits(
    config: UserConfigView,
    clippy: Option<bool>,
    per_package: Option<bool>,
    base: Option<Seq<char>>,
)
    ensures
        ({
            let r = edited(config, clippy, per_package, base);
            &&& clippy matches Some(v) ==> r.clippy == v
            &&& clippy is None ==> r.clippy == config.clippy
            &&& per_package matches Some(v) ==> r.per_package_workspaces == v
            &&& per_package is None ==> r.per_package_workspaces == config.per_package_workspaces
            &&& base is Some ==> r.output_base == base
            &&& base is None ==> r.output_base == config.output_base
        }),
{
}

/// A relative path is one in the workspace, and an absolute one stays.
pub proof fn lemma_anchored_path(workspace: Seq<char>, path: Seq<char>)
    ensures
        paths::absolute(path) ==> anchored_path(workspace, path) == path,
        !paths::absolute(path) ==> anchored_path(workspace, path) == paths::joined(
            workspace,
            path,
        ),
{
}

/// Every file whose name ends like a workspace file is one, and no other is.
pub proof fn lemma_code_workspaces(a: Seq<Seq<char>>, b: Seq<Seq<char>>, name: Seq<char>)
    ensures
        code_workspace_names(a + b) == code_workspace_names(a) + code_workspace_names(b),
        code_workspace_names(seq![name + ".code-workspace"@]) == seq![
            name + ".code-workspace"@,
        ],
        !".code-workspace"@.is_suffix_of(name) ==> code_workspace_names(seq![name]).len() == 0,
    decreases b.len(),
{
    let file = name + ".code-workspace"@;
    assert(file.subrange(file.len() - ".code-workspace"@.len(), file.len() as int)
        =~= ".code-workspace"@);
    assert(seq![file].drop_last() =~= Seq::empty());
    assert(seq![name].drop_last() =~= Seq::empty());
    assert(code_workspace_names(Seq::empty()) =~= Seq::empty());
    assert(code_workspace_names(seq![file]) =~= seq![file]);
    if b.len() == 0 {
        assert(a + b =~= a);
        assert(code_workspace_names(a) + code_workspace_names(b) =~= code_workspace_names(a));
    } else {
        assert((a + b).drop_last() =~= a + b.drop_last());
        assert((a + b).last() == b.last());
        lemma_code_workspaces(a, b.drop_last(), name);
        assert(code_workspace_names(a + b) =~= code_workspace_names(a) + code_workspace_names(
            b,
        ));
    }
}

proof fn lemma_code_workspaces_filter(names: Seq<Seq<char>>)
    ensures
        code_workspace_names(names) == names.filter(
            |n: Seq<char>| ".code-workspace"@.is_suffix_of(n),
        ),
    decreases names.len(),
{
    reveal(Seq::filter);
    if names.len() > 0 {
        lemma_code_workspaces_filter(names.drop_last());
    }
}

/// No workspace file is written where that is asked for. One that is named is
/// written, whatever else there is. Otherwise the only one in the workspace is;
/// with several of them setup fails.
pub proof fn lemma_code_workspace_chosen(
    workspace: Seq<char>,
    args: VscodeArgs,
    listing: Option<Vec<String>>,
    r: Result<Option<CodeWorkspaceTarget>, SetupError>,
)
    requires
        is_code_workspace_target(workspace, args, listing, r),
    ensures
        args.no_code_workspace ==> r == Ok::<Option<CodeWorkspaceTarget>, SetupError>(None),
        !args.no_code_workspace ==> {
            &&& args.code_workspace matches Some(p) ==> (r matches Ok(Some(t)) && t.path@
                == if paths::absolute(p@) {
                p@
            } else {
                paths::joined(workspace, p@)
            })
            &&& r matches Ok(Some(t)) ==> t.settings_key@ == match args.settings_key {
                Some(k) => k@,
                None => "settings"@,
            }
            &&& args.code_workspace is None && listing is None
                ==> r == Ok::<Option<CodeWorkspaceTarget>, SetupError>(None)
            &&& args.code_workspace is None && listing is Some ==> {
                let found = text::views(listing->0@).filter(
                    |n: Seq<char>| ".code-workspace"@.is_suffix_of(n),
                );
                &&& found.len() == 0 <==> r == Ok::<Option<CodeWorkspaceTarget>, SetupError>(None)
                &&& found.len() == 1 <==> (r matches Ok(Some(t)) && t.path@ == paths::joined(
                    workspace,
                    found[0],
                ))
                &&& found.len() > 1 <==> (r matches Err(
                    SetupError::AmbiguousCodeWorkspace(at, names),
                ) && at@ == workspace && order::is_sorting(text::views(names@), found))
            }
        },
{
    if listing is Some {
        lemma_code_workspaces_filter(text::views(listing->0@));
    }
}

/// The settings that are named are written, and otherwise those of the workspace.
pub proof fn lemma_settings_chosen(workspace: Seq<char>, args: VscodeArgs)
    ensures
        args.settings_json matches Some(p) ==> settings_target(workspace, args)
            == if paths::absolute(p@) {
            p@
        } else {
            paths::joined(workspace, p@)
        },
        args.settings_json is None ==> settings_target(workspace, args) == paths::joined(
            workspace,
            ".vscode/settings.json"@,
        ),
{
}

/// Every editor has its launchers in its own directory, and one without a
/// directory at the top of the workspace.
pub proof fn lemma_launcher_places(workspace: Seq<char>, args: VscodeArgs)
    ensures
        launcher_dir(workspace, IdeCmd::Vscode(args)) == paths::joined(
            paths::joined(workspace, ".vscode"@),
            ".rules_rust_analyzer"@,
        ),
        launcher_dir(workspace, IdeCmd::Helix) == paths::joined(
            paths::joined(workspace, ".helix"@),
            ".rules_rust_analyzer"@,
        ),
        launcher_dir(workspace, IdeCmd::Neovim) == paths::joined(
            workspace,
            ".rules_rust_analyzer"@,
        ),
        launcher_dir(workspace, IdeCmd::Print) == paths::joined(
            workspace,
            ".rules_rust_analyzer"@,
        ),
{
}

/// Each of the three launchers finds its own program of the toolchain.
pub proof fn lemma_launchers_find(raw: Seq<char>, toolchain: ToolchainBinaries)
    requires
        all_found(raw, toolchain),
    ensures
        launcher::finds(raw, "rust_analyzer"@, toolchain.rust_analyzer@),
        launcher::finds(raw, "rust_analyzer_proc_macro_srv"@, toolchain.proc_macro_srv@),
        launcher::finds(raw, "rustfmt"@, toolchain.rustfmt@),
{
    reveal_strlit("rust_analyzer");
    reveal_strlit("rust_analyzer_proc_macro_srv");
    reveal_strlit("rustfmt");
    let names = logical_names();
    assert(names[0] == "rust_analyzer"@);
    assert(names[1] == "rust_analyzer_proc_macro_srv"@);
    assert(names[2] == "rustfmt"@);
    assert("rust_analyzer"@.len() != "rust_analyzer_proc_macro_srv"@.len());
    assert("rust_analyzer"@.len() != "rustfmt"@.len());
    assert("rustfmt"@.len() != "rust_analyzer_proc_macro_srv"@.len());
}

/// Everything that is told of an expunge names what was expunged, and a failure
/// tells why.
pub proof fn lemma_expunge_told(base: Seq<char>, why: String)
    ensures
        expunge_text(base, ExpungeOutcome::Succeeded) == "expunged flycheck output_base at "@
            + base,
        expunge_text(base, ExpungeOutcome::Exited(why))
            == "bazel clean --expunge on flycheck output_base "@ + base + " exited with "@ + why@
            + "; leaving the directory as-is"@,
        expunge_text(base, ExpungeOutcome::NotRun(why))
            == "could not invoke `bazel` to expunge flycheck output_base at "@ + base + ": "@
            + why@ + "; delete it by hand if needed"@,
{
}

/// Where several workspace files are in the way, all of them are named.
pub proof fn lemma_ambiguity_told(workspace: String, names: Vec<String>)
    ensures
        SetupError::AmbiguousCodeWorkspace(workspace, names).text() == "multiple `*"@
            + ".code-workspace"@ + "` files at "@ + workspace@ + ": "@ + text::joined_with(
            text::views(names@),
            ", "@,
        ) + ". Pass `--code-workspace <path>` to pick one, or `--no-code-workspace` to skip."@,
{
}

/// A flag that turns on wins over one that turns off, and without either nothing
/// is said.
pub proof fn lemma_toggle(on: bool, off: bool, r: Option<bool>)
    requires
        call_ensures(pick_toggle, (on, off), r),
    ensures
        on ==> r == Some(true),
        !on && off ==> r == Some(false),
        !on && !off ==> r is None,
{
}

/// What the user set is the `output_base` of flycheck, as it is. Otherwise it
/// follows from the one that discovery found, and then from what the outer server
/// says.
pub proof fn lemma_output_base_answer(
    user: &UserConfig,
    outer: &Option<String>,
    info: &StringMap,
    r: Result<String, SetupError>,
)
    requires
        call_ensures(resolve_flycheck_output_base, (user, outer, info), r),
    ensures
        user.output_base matches Some(base) ==> (r matches Ok(b) && b@ == base@),
        user.output_base is None ==> {
            &&& outer matches Some(o) ==> (r matches Ok(b) && b@ == o@ + RRA_OUTPUT_BASE_SUFFIX@)
            &&& outer is None ==> match string_map::lookup(info@, "output_base"@) {
                Some(o) => r matches Ok(b) && b@ == o + RRA_OUTPUT_BASE_SUFFIX@,
                None => r matches Err(e) && e == SetupError::NoOuterOutputBase,
            }
        },
{
}

/// The settings are always written, and the workspace file after them, under its
/// key, where there is one.
pub proof fn lemma_writes_answer(
    targets: &ResolvedVscodeTargets,
    r: Vec<(String, Option<String>)>,
)
    requires
        call_ensures(vscode_writes, (targets,), r),
    ensures
        r@.len() >= 1,
        r@[0].0@ == targets.settings_json@ && r@[0].1 is None,
        targets.code_workspace is None ==> r@.len() == 1,
        targets.code_workspace matches Some(t) ==> r@.len() == 2 && r@[1].0@ == t.path@ && (
        r@[1].1 matches Some(key) && key@ == t.settings_key@),
{
    let all = write_views(r@);
    assert(all.len() == r@.len());
    assert(all[0] == (r@[0].0@, text::opt_view(r@[0].1)));
    if targets.code_workspace is Some {
        assert(all[1] == (r@[1].0@, text::opt_view(r@[1].1)));
    }
}

/// The server of flycheck is cleaned up where there is something of it, by the
/// command that removes what it wrote.
pub proof fn lemma_expunge_answer(
    workspace: &str,
    base: &str,
    exists: bool,
    r: Option<BazelCommand>,
)
    requires
        call_ensures(expunge_command, (workspace, base, exists), r),
    ensures
        r is Some <==> exists,
        r matches Some(c) ==> c.program@ == "bazel"@ && c.cwd@ == workspace@ && text::views(c.args@)
            == seq!["--output_base="@ + base@, "clean"@, "--expunge"@],
{
    if let Some(c) = r {
        assert(c@.args =~= seq!["--output_base="@ + base@, "clean"@, "--expunge"@]);
    }
}

} // verus!
