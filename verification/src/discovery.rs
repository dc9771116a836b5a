//! Project discovery: the commands that ask the build about its crates, and
//! what its answers mean.
use vstd::prelude::*;
use crate::crate_spec::{CrateSpec, CrateSpecs};
use crate::paths;
use crate::rust_project::{diagnose, format_diagnostics};
use crate::rust_project;
use crate::string_map;
use crate::string_map::StringMap;
use crate::text;
use crate::text::{copied, decimal_of, replace_text, split_first, split_text, trim_of};

verus! {

/// The file, in the launcher directory, that tells flycheck what discovery
/// found out.
pub const TOOLCHAIN_INFO_SIDECAR: &'static str = "toolchain_info.json";

/// What is appended to the `output_base` of the outer server to get the one of
/// the flycheck server.
pub const RRA_OUTPUT_BASE_SUFFIX: &'static str = "_rra";

/// The file, in the launcher directory, that caches what `bazel info` says of
/// the flycheck server.
pub const BAZEL_INFO_FILENAME: &'static str = "bazel_info.json";

/// The name of the installed flycheck program. It ends in `.exe` everywhere:
/// one platform needs that to run it, and the others do not mind.
pub const FLYCHECK_BINARY_FILENAME: &'static str = "flycheck.exe";

/// The name of the installed discovery program.
pub const DISCOVER_BINARY_FILENAME: &'static str = "discover_bazel_rust_project.exe";

/// Where the findings about the crates are kept, in the workspace.
pub const WARNINGS_LOG_REL: &'static str = ".vscode/.rules_rust_analyzer/last_warnings.log";

/// The files that mark the root of a workspace.
pub fn workspace_root_file_names() -> (r: Vec<String>)
    ensures
        text::views(r@) == seq!["MODULE.bazel"@, "REPO.bazel"@, "WORKSPACE.bazel"@, "WORKSPACE"@],
{
    let r: Vec<String> = vec![
        "MODULE.bazel".to_owned(),
        "REPO.bazel".to_owned(),
        "WORKSPACE.bazel".to_owned(),
        "WORKSPACE".to_owned(),
    ];
    assert(text::views(r@) =~= seq![
        "MODULE.bazel"@,
        "REPO.bazel"@,
        "WORKSPACE.bazel"@,
        "WORKSPACE"@,
    ]);
    r
}

/// The names of build files, the preferred one first.
pub open spec fn build_file_names_spec() -> Seq<Seq<char>> {
    seq!["BUILD.bazel"@, "BUILD"@]
}

/// The names of build files, the preferred one first.
pub fn build_file_names() -> (r: Vec<String>)
    ensures
        text::views(r@) == build_file_names_spec(),
{
    let r: Vec<String> = vec!["BUILD.bazel".to_owned(), "BUILD".to_owned()];
    assert(text::views(r@) =~= build_file_names_spec());
    r
}

/// What the toolchain says of itself.
#[derive(Debug, PartialEq, Eq)]
pub struct ToolchainInfo {
    pub sysroot: String,
    pub sysroot_src: String,
    /// The version of rust-analyzer, such as `1.96.0`. Empty when the
    /// toolchain does not declare it, which is to be taken for the oldest
    /// supported one.
    pub version: String,
}

/// What discovery leaves for flycheck. Everything but the sysroot may be
/// missing; flycheck then finds it out the slow way.
#[derive(Debug, PartialEq, Eq)]
pub struct ToolchainInfoSidecar {
    pub sysroot_src: String,
    pub workspace: Option<String>,
    /// The `output_base` of the outer server when discovery last ran.
    pub output_base: Option<String>,
    /// The label that owns a source file, by path; no two are the same path.
    pub file_labels: Vec<(String, String)>,
}

/// What `bazel info` says of a server.
#[derive(Debug, PartialEq, Eq)]
pub struct BazelInfo {
    pub output_base: String,
    pub workspace: String,
    pub execution_root: String,
}

/// Why discovery fails.
#[derive(Debug, PartialEq, Eq)]
pub enum DiscoveryError {
    /// The build failed and described no crate; holds what it printed.
    NoCrateSpecs(String),
    /// The build failed and left no readable record; holds what it printed.
    NoUsableOutput(String),
    /// The build succeeded but its record cannot be read; holds the file and
    /// the reason.
    UnreadableEvents(String, String),
    /// No build file owns the source file.
    NoBuildfile(String),
    /// The build file lies outside the workspace.
    OutsideWorkspace(String),
    /// `bazel info` did not print the value with this name.
    MissingInfo(String),
}

impl DiscoveryError {
    /// The text of the error.
    pub open spec fn text(self) -> Seq<char> {
        match self {
            DiscoveryError::NoCrateSpecs(stderr) =>
                "bazel build failed and produced no crate specs:\n"@ + stderr@,
            DiscoveryError::NoUsableOutput(stderr) =>
                "bazel build failed and produced no usable output:\n"@ + stderr@,
            DiscoveryError::UnreadableEvents(file, reason) => "parsing BEP file "@ + file@ + ": "@
                + reason@,
            DiscoveryError::NoBuildfile(file) => "no buildfile found for "@ + file@,
            DiscoveryError::OutsideWorkspace(file) => file@ + " not part of workspace"@,
            DiscoveryError::MissingInfo(name) => "`bazel info` returned no `"@ + name@ + "` line"@,
        }
    }

    /// Describes the error.
    pub fn message(&self) -> (r: String)
        ensures
            r@ == self.text(),
    {
        match self {
            DiscoveryError::NoCrateSpecs(stderr) => {
                let mut r = "bazel build failed and produced no crate specs:\n".to_owned();
                r.append(stderr.as_str());
                r
            },
            DiscoveryError::NoUsableOutput(stderr) => {
                let mut r = "bazel build failed and produced no usable output:\n".to_owned();
                r.append(stderr.as_str());
                r
            },
            DiscoveryError::UnreadableEvents(file, reason) => {
                let mut r = "parsing BEP file ".to_owned();
                r.append(file.as_str());
                r.append(": ");
                r.append(reason.as_str());
                r
            },
            DiscoveryError::NoBuildfile(file) => {
                let mut r = "no buildfile found for ".to_owned();
                r.append(file.as_str());
                r
            },
            DiscoveryError::OutsideWorkspace(file) => {
                let mut r = copied(file);
                r.append(" not part of workspace");
                r
            },
            DiscoveryError::MissingInfo(name) => {
                let mut r = "`bazel info` returned no `".to_owned();
                r.append(name.as_str());
                r.append("` line");
                r
            },
        }
    }
}

/// The `output_base` of the flycheck server: next to that of the outer server,
/// so that both share what the installation extracted.
pub fn flycheck_output_base(outer: &str) -> (r: String)
    ensures
        r@ == outer@ + RRA_OUTPUT_BASE_SUFFIX@,
{
    let mut sibling = outer.to_owned();
    sibling.append(RRA_OUTPUT_BASE_SUFFIX);
    sibling
}

// ---------------------------------------------------------------------------
// Commands
// ---------------------------------------------------------------------------

/// A command to run.
#[derive(Debug, PartialEq, Eq)]
pub struct BazelCommand {
    pub program: String,
    pub args: Vec<String>,
    /// The directory to run in.
    pub cwd: String,
    /// Environment variables that the command does not inherit.
    pub env_remove: Vec<String>,
}

/// The contents of a command.
pub struct CommandView {
    pub program: Seq<char>,
    pub args: Seq<Seq<char>>,
    pub cwd: Seq<char>,
    pub env_remove: Seq<Seq<char>>,
}

impl View for BazelCommand {
    type V = CommandView;

    open spec fn view(&self) -> CommandView {
        CommandView {
            program: self.program@,
            args: text::views(self.args@),
            cwd: self.cwd@,
            env_remove: text::views(self.env_remove@),
        }
    }
}

/// A Bazel command in `workspace`, or here, against the server at
/// `output_base`, or the usual one.
pub open spec fn bazel_command_view(
    bazel: Seq<char>,
    workspace: Option<Seq<char>>,
    output_base: Option<Seq<char>>,
) -> CommandView {
    CommandView {
        program: bazel,
        args: match output_base {
            Some(base) => seq!["--output_base="@ + base],
            None => Seq::empty(),
        },
        cwd: match workspace {
            Some(dir) => dir,
            None => "."@,
        },
        env_remove: seq![
            "BAZELISK_SKIP_WRAPPER"@,
            "BUILD_WORKING_DIRECTORY"@,
            "BUILD_WORKSPACE_DIRECTORY"@,
        ],
    }
}

/// A Bazel command in `workspace`, or here, against the server at
/// `output_base`, or the usual one. It does not inherit what an outer Bazel
/// set for itself.
pub fn bazel_command(
    bazel: &str,
    workspace: &Option<String>,
    output_base: &Option<String>,
) -> (r: BazelCommand)
    ensures
        r@ == bazel_command_view(bazel@, text::opt_view(*workspace), text::opt_view(*output_base)),
{
    let mut args: Vec<String> = Vec::new();
    match output_base {
        Some(base) => {
            let mut arg = "--output_base=".to_owned();
            arg.append(base.as_str());
            args.push(arg);
            assert(text::views(args@) =~= seq!["--output_base="@ + base@]);
        },
        None => {
            assert(text::views(args@) =~= Seq::empty());
        },
    }
    let cwd = match workspace {
        Some(dir) => copied(dir),
        None => ".".to_owned(),
    };
    let env_remove: Vec<String> = vec![
        "BAZELISK_SKIP_WRAPPER".to_owned(),
        "BUILD_WORKING_DIRECTORY".to_owned(),
        "BUILD_WORKSPACE_DIRECTORY".to_owned(),
    ];
    assert(text::views(env_remove@) =~= seq![
        "BAZELISK_SKIP_WRAPPER"@,
        "BUILD_WORKING_DIRECTORY"@,
        "BUILD_WORKSPACE_DIRECTORY"@,
    ]);
    BazelCommand { program: bazel.to_owned(), args, cwd, env_remove }
}

/// `c` with more arguments at the end.
pub open spec fn with_args(c: CommandView, more: Seq<Seq<char>>) -> CommandView {
    CommandView { args: c.args + more, ..c }
}

impl BazelCommand {
    /// Appends an argument.
    pub fn arg(&mut self, arg: String)
        ensures
            final(self)@ == with_args(old(self)@, seq![arg@]),
    {
        let ghost before = self.args@;
        self.args.push(arg);
        assert(text::views(self.args@) =~= text::views(before) + seq![arg@]);
    }

    /// Appends arguments.
    pub fn args(&mut self, more: &Vec<String>)
        ensures
            final(self)@ == with_args(old(self)@, text::views(more@)),
    {
        let ghost before = self@;
        let mut i: usize = 0;
        assert(self.args@.len() == before.args.len());
        assert(before.args + text::views(more@).take(0) =~= before.args);
        while i < more.len()
            invariant
                i <= more@.len(),
                self@ == with_args(before, text::views(more@).take(i as int)),
            decreases more@.len() - i,
        {
            self.arg(copied(&more[i]));
            assert(before.args + text::views(more@).take(i + 1) =~= before.args + text::views(
                more@,
            ).take(i as int) + seq![more@[i as int]@]);
            i += 1;
        }
        assert(text::views(more@).take(i as int) =~= text::views(more@));
    }
}

/// The command that asks a server about itself.
pub fn bazel_info_command(
    bazel: &str,
    workspace: &Option<String>,
    output_base: &Option<String>,
    bazel_startup_options: &Vec<String>,
    bazel_args: &Vec<String>,
) -> (r: BazelCommand)
    ensures
        r@ == with_args(
            bazel_command_view(bazel@, text::opt_view(*workspace), text::opt_view(*output_base)),
            text::views(bazel_startup_options@) + seq!["info"@] + text::views(bazel_args@),
        ),
{
    let mut cmd = bazel_command(bazel, workspace, output_base);
    let ghost base = cmd@;
    cmd.args(bazel_startup_options);
    cmd.arg("info".to_owned());
    cmd.args(bazel_args);
    assert(cmd@.args =~= base.args + (text::views(bazel_startup_options@) + seq!["info"@]
        + text::views(bazel_args@)));
    cmd
}

/// The pairs that the lines with a colon give: what precedes the first colon,
/// and what follows it without the white space around it.
pub open spec fn info_pairs(lines: Seq<Seq<char>>) -> Seq<(Seq<char>, Seq<char>)>
    decreases lines.len(),
{
    if lines.len() == 0 {
        Seq::empty()
    } else {
        let rest = info_pairs(lines.drop_last());
        match text::split_at_first(lines.last(), seq![':']) {
            Some(pair) => rest.push((pair.0, text::trimmed(pair.1))),
            None => rest,
        }
    }
}

/// What the output of `bazel info` says: a later line replaces an earlier one
/// with the same name.
pub fn parse_bazel_info(stdout: &str) -> (r: StringMap)
    ensures
        r@ == string_map::gathered(
            info_pairs(text::split_on(text::trimmed(stdout@), '\n')),
        ),
{
    let body = trim_of(stdout);
    let lines = split_text(body.as_str(), '\n');
    let ghost all = text::views(lines@);
    let mut r = StringMap::new();
    let mut i: usize = 0;
    proof {
        assert(all.take(0) =~= Seq::empty());
        reveal_strlit(":");
        assert(":"@ =~= seq![':']);
    }
    while i < lines.len()
        invariant
            i <= lines@.len(),
            all == text::views(lines@),
            ":"@ == seq![':'],
            r@ == string_map::gathered(info_pairs(all.take(i as int))),
        decreases lines@.len() - i,
    {
        let ghost so_far = info_pairs(all.take(i as int));
        assert(all.take(i + 1).drop_last() =~= all.take(i as int));
        assert(all.take(i + 1).last() == lines@[i as int]@);
        match split_first(lines[i].as_str(), ":") {
            Some(pair) => {
                let value = trim_of(pair.1.as_str());
                proof {
                    let next = so_far.push((pair.0@, value@));
                    assert(next.drop_last() =~= so_far);
                    assert(info_pairs(all.take(i + 1)) == next);
                }
                r.insert(pair.0, value);
            },
            None => {},
        }
        i += 1;
    }
    assert(all.take(i as int) =~= all);
    r
}

/// The value with the given name, or the error that it is missing.
fn required(info: &StringMap, name: &str) -> (r: Result<String, DiscoveryError>)
    ensures
        match (r, string_map::lookup(info@, name@)) {
            (Ok(v), Some(w)) => v@ == w,
            (Err(DiscoveryError::MissingInfo(n)), None) => n@ == name@,
            _ => false,
        },
{
    match info.get(name) {
        Some(v) => Ok(copied(v)),
        None => Err(DiscoveryError::MissingInfo(name.to_owned())),
    }
}

impl BazelInfo {
    /// What `bazel info` said, when it named all three values; otherwise the
    /// first one that is missing, in the order `output_base`, `workspace`,
    /// `execution_root`.
    pub fn try_new(info: &StringMap) -> (r: Result<BazelInfo, DiscoveryError>)
        ensures
            ({
                let base = string_map::lookup(info@, "output_base"@);
                let workspace = string_map::lookup(info@, "workspace"@);
                let root = string_map::lookup(info@, "execution_root"@);
                match r {
                    Ok(i) => base == Some(i.output_base@) && workspace == Some(i.workspace@)
                        && root == Some(i.execution_root@),
                    Err(DiscoveryError::MissingInfo(name)) => {
                        ||| base is None && name@ == "output_base"@
                        ||| base is Some && workspace is None && name@ == "workspace"@
                        ||| base is Some && workspace is Some && root is None && name@
                            == "execution_root"@
                    },
                    Err(_) => false,
                }
            }),
    {
        let output_base = match required(info, "output_base") {
            Ok(v) => v,
            Err(e) => return Err(e),
        };
        let workspace = match required(info, "workspace") {
            Ok(v) => v,
            Err(e) => return Err(e),
        };
        let execution_root = match required(info, "execution_root") {
            Ok(v) => v,
            Err(e) => return Err(e),
        };
        Ok(BazelInfo { output_base, workspace, execution_root })
    }
}

/// The arguments of the build that describes the crates of `targets`, after
/// the startup options.
pub open spec fn crate_info_args(
    bazel_args: Seq<Seq<char>>,
    rules_rust: Seq<char>,
    targets: Seq<Seq<char>>,
    bep_file: Seq<char>,
) -> Seq<Seq<char>> {
    seq!["build"@] + bazel_args + seq![
        "--keep_going"@,
        "--norun_validations"@,
        "--remote_download_all"@,
        "--aspects="@ + rules_rust + "//rust:defs.bzl%rust_analyzer_aspect"@,
        "--output_groups=rust_analyzer_crate_spec,rust_generated_srcs,rust_analyzer_proc_macro_dylib,rust_analyzer_src"@,
        "--build_event_json_file="@ + bep_file,
        "--build_event_publish_all_actions"@,
    ] + targets
}

/// The build that makes the aspect describe the crates of `targets` and writes
/// its events to `bep_file`. It goes on after a target that fails, since a
/// partial result may be usable.
pub fn crate_info_command(
    bazel: &str,
    output_base: &str,
    workspace: &str,
    bazel_startup_options: &Vec<String>,
    bazel_args: &Vec<String>,
    rules_rust: &str,
    targets: &Vec<String>,
    bep_file: &str,
) -> (r: BazelCommand)
    ensures
        r@ == with_args(
            bazel_command_view(bazel@, Some(workspace@), Some(output_base@)),
            text::views(bazel_startup_options@) + crate_info_args(
                text::views(bazel_args@),
                rules_rust@,
                text::views(targets@),
                bep_file@,
            ),
        ),
{
    let mut cmd = bazel_command(bazel, &Some(workspace.to_owned()), &Some(output_base.to_owned()));
    let ghost base = cmd@;
    cmd.args(bazel_startup_options);
    cmd.arg("build".to_owned());
    cmd.args(bazel_args);
    cmd.arg("--keep_going".to_owned());
    cmd.arg("--norun_validations".to_owned());
    cmd.arg("--remote_download_all".to_owned());
    let mut aspects = "--aspects=".to_owned();
    aspects.append(rules_rust);
    aspects.append("//rust:defs.bzl%rust_analyzer_aspect");
    cmd.arg(aspects);
    cmd.arg(
        "--output_groups=rust_analyzer_crate_spec,rust_generated_srcs,rust_analyzer_proc_macro_dylib,rust_analyzer_src".to_owned(),
    );
    let mut events = "--build_event_json_file=".to_owned();
    events.append(bep_file);
    cmd.arg(events);
    cmd.arg("--build_event_publish_all_actions".to_owned());
    cmd.args(targets);
    assert(cmd@.args =~= base.args + (text::views(bazel_startup_options@) + crate_info_args(
        text::views(bazel_args@),
        rules_rust@,
        text::views(targets@),
        bep_file@,
    )));
    cmd
}

/// Where the build writes its events: a file of this process in the
/// `output_base`.
pub fn bep_file_path(output_base: &str, process_id: u32) -> (r: String)
    ensures
        r@ == paths::joined(
            output_base@,
            "rules_rust_ra_bep_"@ + text::decimal(process_id as nat) + ".json"@,
        ),
{
    let mut name = "rules_rust_ra_bep_".to_owned();
    name.append(decimal_of(process_id as u64).as_str());
    name.append(".json");
    paths::join(output_base, name.as_str())
}

// ---------------------------------------------------------------------------
// Answers
// ---------------------------------------------------------------------------

/// Whether what a build gave is usable: `Ok(true)` when some targets failed,
/// `Ok(false)` when all went well, and an error when it failed and described
/// no crate.
pub fn assess_discovery(success: bool, spec_count: usize, stderr: &str) -> (r: Result<
    bool,
    DiscoveryError,
>)
    ensures
        match r {
            Ok(incomplete) => (success || spec_count > 0) && incomplete == !success,
            Err(DiscoveryError::NoCrateSpecs(printed)) => !success && spec_count == 0 && printed@
                == stderr@,
            Err(_) => false,
        },
{
    if success {
        Ok(false)
    } else if spec_count == 0 {
        Err(DiscoveryError::NoCrateSpecs(stderr.to_owned()))
    } else {
        Ok(true)
    }
}

/// `content` with the workspace, the execution root and the output base filled
/// in for their placeholders.
pub open spec fn filled_in(
    content: Seq<char>,
    output_base: Seq<char>,
    workspace: Seq<char>,
    execution_root: Seq<char>,
) -> Seq<char> {
    let a = text::replaced(content, "__WORKSPACE__"@, workspace);
    let b = text::replaced(a, "${pwd}"@, execution_root);
    let c = text::replaced(b, "__EXEC_ROOT__"@, execution_root);
    text::replaced(c, "__OUTPUT_BASE__"@, output_base)
}

/// `content` with the workspace, the execution root and the output base filled
/// in for their placeholders.
pub fn substitute_placeholders(
    content: &str,
    output_base: &str,
    workspace: &str,
    execution_root: &str,
) -> (r: String)
    ensures
        r@ == filled_in(content@, output_base@, workspace@, execution_root@),
{
    proof {
        reveal_strlit("__WORKSPACE__");
        reveal_strlit("${pwd}");
        reveal_strlit("__EXEC_ROOT__");
        reveal_strlit("__OUTPUT_BASE__");
    }
    let a = replace_text(content, "__WORKSPACE__", workspace);
    let b = replace_text(a.as_str(), "${pwd}", execution_root);
    let c = replace_text(b.as_str(), "__EXEC_ROOT__", execution_root);
    replace_text(c.as_str(), "__OUTPUT_BASE__", output_base)
}

/// `entries` with `label` stored for `path`: in the place of an entry for the
/// same path, which keeps its spelling, or else at the end.
pub open spec fn labelled(
    entries: Seq<(Seq<char>, Seq<char>)>,
    path: Seq<char>,
    label: Seq<char>,
) -> Seq<(Seq<char>, Seq<char>)>
    decreases entries.len(),
{
    if entries.len() == 0 {
        seq![(path, label)]
    } else if paths::same_path(entries[0].0, path) {
        seq![(entries[0].0, label)] + entries.drop_first()
    } else {
        seq![entries[0]] + labelled(entries.drop_first(), path, label)
    }
}

/// The label of every crate that has one, by the path of its root module.
pub open spec fn file_labels_of(specs: Seq<CrateSpec>) -> Seq<(Seq<char>, Seq<char>)>
    decreases specs.len(),
{
    if specs.len() == 0 {
        Seq::empty()
    } else {
        let rest = file_labels_of(specs.drop_last());
        match specs.last().build {
            Some(build) => labelled(rest, specs.last().root_module@, build.label@),
            None => rest,
        }
    }
}

proof fn lemma_labelled(
    entries: Seq<(Seq<char>, Seq<char>)>,
    path: Seq<char>,
    label: Seq<char>,
    n: int,
)
    requires
        0 <= n <= entries.len(),
        forall|k: int| 0 <= k < n ==> !paths::same_path((#[trigger] entries[k]).0, path),
        n < entries.len() ==> paths::same_path(entries[n].0, path),
    ensures
        labelled(entries, path, label) == (if n < entries.len() {
            entries.update(n, (entries[n].0, label))
        } else {
            entries.push((path, label))
        }),
    decreases n,
{
    if entries.len() == 0 {
        assert(labelled(entries, path, label) =~= entries.push((path, label)));
    } else if n == 0 {
        assert(labelled(entries, path, label) =~= entries.update(0, (entries[0].0, label)));
    } else {
        let t = entries.drop_first();
        assert(!paths::same_path(entries[0].0, path));
        assert forall|k: int| 0 <= k < n - 1 implies !paths::same_path((#[trigger] t[k]).0, path) by {
            assert(t[k] == entries[k + 1]);
        }
        lemma_labelled(t, path, label, n - 1);
        if n < entries.len() {
            assert(labelled(entries, path, label) =~= entries.update(n, (entries[n].0, label)));
        } else {
            assert(labelled(entries, path, label) =~= entries.push((path, label)));
        }
    }
}

/// Stores the label for a path.
fn store_label(entries: &mut Vec<(String, String)>, path: &String, label: &String)
    ensures
        string_map::pair_views(final(entries)@) == labelled(
            string_map::pair_views(old(entries)@),
            path@,
            label@,
        ),
{
    let ghost before = string_map::pair_views(entries@);
    let mut n: usize = 0;
    while n < entries.len() && !paths::is_same(entries[n].0.as_str(), path.as_str())
        invariant
            n <= entries@.len(),
            *entries == *old(entries),
            before == string_map::pair_views(entries@),
            forall|k: int| 0 <= k < n ==> !paths::same_path((#[trigger] before[k]).0, path@),
        decreases entries@.len() - n,
    {
        n += 1;
    }
    proof {
        lemma_labelled(before, path@, label@, n as int);
    }
    if n < entries.len() {
        let kept = copied(&entries[n].0);
        entries.set(n, (kept, copied(label)));
        assert(string_map::pair_views(entries@) =~= before.update(
            n as int,
            (before[n as int].0, label@),
        ));
    } else {
        entries.push((copied(path), copied(label)));
        assert(string_map::pair_views(entries@) =~= before.push((path@, label@)));
    }
}

/// The label of every crate that has one, by the path of its root module. A
/// later crate with the same root module takes the place of an earlier one.
pub fn build_file_label_map(crate_specs: &CrateSpecs) -> (r: Vec<(String, String)>)
    ensures
        string_map::pair_views(r@) == file_labels_of(crate_specs.values()),
{
    let ghost specs = crate_specs.values();
    proof {
        crate_specs.lemma_values();
    }
    let mut out: Vec<(String, String)> = Vec::new();
    let mut i: usize = 0;
    assert(string_map::pair_views(out@) =~= file_labels_of(specs.take(0)));
    while i < crate_specs.len()
        invariant
            specs == crate_specs.values(),
            specs.len() == crate_specs@.len(),
            i <= specs.len(),
            string_map::pair_views(out@) == file_labels_of(specs.take(i as int)),
        decreases specs.len() - i,
    {
        let spec = crate_specs.get(i);
        assert(specs.take(i + 1).drop_last() =~= specs.take(i as int));
        assert(specs.take(i + 1).last() == *spec);
        match &spec.build {
            Some(build) => {
                store_label(&mut out, &spec.root_module, &build.label);
            },
            None => {},
        }
        i += 1;
    }
    assert(specs.take(i as int) =~= specs);
    out
}

/// The findings about the crates as a report, or `None` when there are none.
pub fn warnings_report(crate_specs: &CrateSpecs) -> (r: Option<String>)
    ensures
        exists|d: rust_project::AssemblyDiagnostics|
            {
                &&& #[trigger] rust_project::is_diagnosis(d, crate_specs.values())
                &&& match r {
                    None => d.missing_deps@.len() == 0 && d.cycles@.len() == 0,
                    Some(report) => {
                        &&& d.missing_deps@.len() > 0 || d.cycles@.len() > 0
                        &&& report@ == rust_project::report_of(d)
                    },
                }
            },
{
    let diag = diagnose(crate_specs);
    if diag.is_empty() {
        None
    } else {
        Some(format_diagnostics(&diag))
    }
}

// ---------------------------------------------------------------------------
// Build files and targets
// ---------------------------------------------------------------------------

/// `dir` as part of a label, where `/` separates.
pub open spec fn as_package(dir: Seq<char>) -> Seq<char> {
    dir.map_values(|c: char| if c == '\\' { '/' } else { c })
}

/// Turns a directory of the workspace into a package: always with `/`, even
/// where the platform writes `\`.
pub fn dir_to_bazel_package(dir: &str) -> (r: String)
    ensures
        r@ == as_package(dir@),
{
    let mut r = String::new();
    for c in it: dir.chars()
        invariant
            it.seq() == dir@,
            r@ == as_package(dir@).take(it.index() as int),
    {
        let ghost k = it.index() as int;
        assert(as_package(dir@).take(k + 1) =~= as_package(dir@).take(k).push(
            as_package(dir@)[k],
        ));
        if c == '\\' {
            r.push('/');
        } else {
            r.push(c);
        }
    }
    assert(as_package(dir@).take(dir@.len() as int) =~= as_package(dir@));
    r
}

/// The build files that could own `file`: in its directory, then in every
/// directory above.
pub open spec fn buildfile_candidates_of(dirs: Seq<Seq<char>>) -> Seq<Seq<char>>
    decreases dirs.len(),
{
    if dirs.len() == 0 {
        Seq::empty()
    } else {
        buildfile_candidates_of(dirs.drop_last()) + seq![
            paths::joined(dirs.last(), "BUILD.bazel"@),
            paths::joined(dirs.last(), "BUILD"@),
        ]
    }
}

/// The build files that could own `file`, the closest first.
pub fn buildfile_candidates(file: &str) -> (r: Vec<String>)
    ensures
        text::views(r@) == buildfile_candidates_of(paths::lineage(file@).skip(1)),
{
    let all = paths::ancestors(file);
    let ghost dirs = paths::lineage(file@).skip(1);
    let mut out: Vec<String> = Vec::new();
    let mut i: usize = 1;
    assert(text::views(out@) =~= buildfile_candidates_of(dirs.take(0)));
    while i < all.len()
        invariant
            1 <= i <= all@.len(),
            dirs == text::views(all@).skip(1),
            text::views(out@) == buildfile_candidates_of(dirs.take(i - 1)),
        decreases all@.len() - i,
    {
        let ghost before = out@;
        out.push(paths::join(all[i].as_str(), "BUILD.bazel"));
        out.push(paths::join(all[i].as_str(), "BUILD"));
        proof {
            assert(dirs.take(i as int).drop_last() =~= dirs.take(i - 1));
            assert(dirs.take(i as int).last() == all@[i as int]@);
            assert(text::views(out@) =~= text::views(before) + seq![
                paths::joined(all@[i as int]@, "BUILD.bazel"@),
                paths::joined(all@[i as int]@, "BUILD"@),
            ]);
        }
        i += 1;
    }
    assert(dirs.take(i - 1) =~= dirs);
    out
}

/// The first position that `exists` marks.
pub open spec fn first_marked(exists: Seq<bool>) -> Option<int>
    decreases exists.len(),
{
    if exists.len() == 0 {
        None
    } else if exists[0] {
        Some(0)
    } else {
        match first_marked(exists.drop_first()) {
            Some(i) => Some(i + 1),
            None => None,
        }
    }
}

/// The build file that owns `file`: the first candidate that exists, where
/// `exists` tells so for every candidate.
pub open spec fn owning_buildfile(file: Seq<char>, exists: Seq<bool>) -> Option<Seq<char>> {
    let candidates = buildfile_candidates_of(paths::lineage(file).skip(1));
    match first_marked(exists) {
        Some(i) => if i < candidates.len() {
            Some(candidates[i])
        } else {
            None
        },
        None => None,
    }
}

proof fn lemma_first_marked(exists: Seq<bool>, n: int)
    requires
        0 <= n <= exists.len(),
        forall|k: int| 0 <= k < n ==> !#[trigger] exists[k],
        n < exists.len() ==> exists[n],
    ensures
        first_marked(exists) == (if n < exists.len() {
            Some(n)
        } else {
            None
        }),
    decreases n,
{
    if n > 0 {
        let t = exists.drop_first();
        assert(!exists[0]);
        assert forall|k: int| 0 <= k < n - 1 implies !#[trigger] t[k] by {
            assert(t[k] == exists[k + 1]);
        }
        lemma_first_marked(t, n - 1);
    }
}

/// The build file that owns `file`: the first of `buildfile_candidates` that
/// exists, where `exists` tells so for every candidate.
pub fn source_file_to_buildfile(file: &str, exists: &Vec<bool>) -> (r: Result<
    String,
    DiscoveryError,
>)
    ensures
        match (r, owning_buildfile(file@, exists@)) {
            (Ok(b), Some(c)) => b@ == c,
            (Err(DiscoveryError::NoBuildfile(f)), None) => f@ == file@,
            _ => false,
        },
{
    let candidates = buildfile_candidates(file);
    let mut i: usize = 0;
    while i < exists.len() && !exists[i]
        invariant
            i <= exists@.len(),
            forall|k: int| 0 <= k < i ==> !#[trigger] exists@[k],
        decreases exists@.len() - i,
    {
        i += 1;
    }
    proof {
        lemma_first_marked(exists@, i as int);
    }
    if i < exists.len() && i < candidates.len() {
        assert(candidates@[i as int]@ == text::views(candidates@)[i as int]);
        Ok(copied(&candidates[i]))
    } else {
        Err(DiscoveryError::NoBuildfile(file.to_owned()))
    }
}

/// The targets that `buildfile` defines, or `None` when it lies outside the
/// workspace: all of its package, or everything for the root package.
pub open spec fn targets_of(workspace: Seq<char>, buildfile: Seq<char>) -> Option<Seq<char>> {
    match paths::below(buildfile, workspace) {
        Some(rel) => match paths::parent_of(rel) {
            Some(dir) => if dir.len() > 0 {
                Some("//"@ + as_package(dir) + ":all"@)
            } else {
                Some("//..."@)
            },
            None => Some("//..."@),
        },
        None => None,
    }
}

/// The pattern for the targets of the package whose directory in the workspace
/// is `dir`; everything for no directory or an empty one.
pub fn package_targets(dir: &Option<String>) -> (r: String)
    ensures
        r@ == (match dir {
            Some(d) => if d@.len() > 0 {
                "//"@ + as_package(d@) + ":all"@
            } else {
                "//..."@
            },
            None => "//..."@,
        }),
{
    match dir {
        Some(d) => {
            proof {
                reveal_strlit("");
                assert(""@ =~= Seq::<char>::empty());
                if d@.len() == 0 {
                    assert(d@ =~= Seq::<char>::empty());
                }
            }
            if text::same_text(d.as_str(), "") {
                "//...".to_owned()
            } else {
                let mut r = "//".to_owned();
                r.append(dir_to_bazel_package(d.as_str()).as_str());
                r.append(":all");
                r
            }
        },
        None => "//...".to_owned(),
    }
}

/// The targets that `buildfile` defines, as a pattern.
pub fn buildfile_to_targets(workspace: &str, buildfile: &str) -> (r: Result<
    String,
    DiscoveryError,
>)
    ensures
        match (r, targets_of(workspace@, buildfile@)) {
            (Ok(t), Some(u)) => t@ == u,
            (Err(DiscoveryError::OutsideWorkspace(f)), None) => f@ == buildfile@,
            _ => false,
        },
{
    match paths::strip_prefix(buildfile, workspace) {
        Some(rel) => Ok(package_targets(&paths::parent(rel.as_str()))),
        None => Err(DiscoveryError::OutsideWorkspace(buildfile.to_owned())),
    }
}

/// What rust-analyzer asks to discover: the project of a source file, or of a
/// build file.
#[derive(Debug, PartialEq, Eq)]
pub enum RustAnalyzerArg {
    Path(String),
    Buildfile(String),
}

impl RustAnalyzerArg {
    /// The build file and the targets to build. For a source file, `exists`
    /// tells which of `buildfile_candidates` exist.
    pub fn into_target_details(self, workspace: &str, exists: &Vec<bool>) -> (r: Result<
        (String, String),
        DiscoveryError,
    >)
        ensures
            ({
                let buildfile = match self {
                    RustAnalyzerArg::Path(file) => owning_buildfile(file@, exists@),
                    RustAnalyzerArg::Buildfile(b) => Some(b@),
                };
                match (r, buildfile) {
                    (Ok(p), Some(b)) => p.0@ == b && targets_of(workspace@, b) == Some(p.1@),
                    (Err(DiscoveryError::OutsideWorkspace(f)), Some(b)) => f@ == b && targets_of(
                        workspace@,
                        b,
                    ) is None,
                    (Err(DiscoveryError::NoBuildfile(f)), None) => self matches
                        RustAnalyzerArg::Path(file) && f@ == file@,
                    _ => false,
                }
            }),
    {
        let buildfile = match self {
            RustAnalyzerArg::Path(file) => match source_file_to_buildfile(file.as_str(), exists) {
                Ok(b) => b,
                Err(e) => return Err(e),
            },
            RustAnalyzerArg::Buildfile(b) => b,
        };
        match buildfile_to_targets(workspace, buildfile.as_str()) {
            Ok(targets) => Ok((buildfile, targets)),
            Err(e) => Err(e),
        }
    }
}

// ---------------------------------------------------------------------------
// What a discovery finds
// ---------------------------------------------------------------------------

proof fn lemma_candidate_at(dirs: Seq<Seq<char>>, d: int)
    requires
        0 <= d < dirs.len(),
    ensures
        buildfile_candidates_of(dirs).len() == 2 * dirs.len(),
        buildfile_candidates_of(dirs)[2 * d] == paths::joined(dirs[d], "BUILD.bazel"@),
        buildfile_candidates_of(dirs)[2 * d + 1] == paths::joined(dirs[d], "BUILD"@),
    decreases dirs.len(),
{
    let t = dirs.drop_last();
    let rest = buildfile_candidates_of(t);
    let last = seq![
        paths::joined(dirs.last(), "BUILD.bazel"@),
        paths::joined(dirs.last(), "BUILD"@),
    ];
    assert(buildfile_candidates_of(dirs) == rest + last);
    if t.len() > 0 {
        lemma_candidate_at(
            t,
            if d < t.len() {
                d
            } else {
                0
            },
        );
    } else {
        assert(rest.len() == 0);
    }
    if d < t.len() {
        assert(t[d] == dirs[d]);
        assert((rest + last)[2 * d] == rest[2 * d]);
        assert((rest + last)[2 * d + 1] == rest[2 * d + 1]);
    } else {
        assert((rest + last)[2 * d] == last[0]);
        assert((rest + last)[2 * d + 1] == last[1]);
    }
}

proof fn lemma_marked(marks: Seq<bool>)
    ensures
        match first_marked(marks) {
            Some(i) => 0 <= i < marks.len() && marks[i] && forall|k: int|
                0 <= k < i ==> !#[trigger] marks[k],
            None => forall|k: int| 0 <= k < marks.len() ==> !#[trigger] marks[k],
        },
    decreases marks.len(),
{
    if marks.len() > 0 && !marks[0] {
        let t = marks.drop_first();
        lemma_marked(t);
        match first_marked(t) {
            Some(i) => {
                assert(marks[i + 1] == t[i]);
                assert forall|k: int| 0 <= k < i + 1 implies !#[trigger] marks[k] by {
                    if k > 0 {
                        assert(t[k - 1] == marks[k]);
                    }
                }
            },
            None => {
                assert forall|k: int| 0 <= k < marks.len() implies !#[trigger] marks[k] by {
                    if k > 0 {
                        assert(t[k - 1] == marks[k]);
                    }
                }
            },
        }
    }
}

/// The build files that could own a file are looked for directory by directory,
/// from the one that the file is in upwards, and in each the preferred name comes
/// first.
pub proof fn lemma_candidates_upwards(file: Seq<char>, d: int)
    requires
        0 <= d < paths::lineage(file).len() - 1,
    ensures
        buildfile_candidates_of(paths::lineage(file).skip(1)).len() == 2 * (paths::lineage(
            file,
        ).len() - 1),
        buildfile_candidates_of(paths::lineage(file).skip(1))[2 * d] == paths::joined(
            paths::lineage(file)[d + 1],
            "BUILD.bazel"@,
        ),
        buildfile_candidates_of(paths::lineage(file).skip(1))[2 * d + 1] == paths::joined(
            paths::lineage(file)[d + 1],
            "BUILD"@,
        ),
{
    let dirs = paths::lineage(file).skip(1);
    lemma_candidate_at(dirs, d);
    assert(dirs[d] == paths::lineage(file)[d + 1]);
}

/// The build file that owns a file is the closest one that exists: it is one of
/// the candidates, it exists, and no candidate before it does. A file has none
/// exactly when no candidate exists.
pub proof fn lemma_closest_buildfile(file: Seq<char>, there: Seq<bool>)
    requires
        there.len() == buildfile_candidates_of(paths::lineage(file).skip(1)).len(),
    ensures
        owning_buildfile(file, there) matches Some(b) ==> exists|i: int|
            0 <= i < there.len() && #[trigger] there[i] && b == buildfile_candidates_of(
                paths::lineage(file).skip(1),
            )[i] && forall|k: int| 0 <= k < i ==> !#[trigger] there[k],
        owning_buildfile(file, there) is None <==> forall|k: int|
            0 <= k < there.len() ==> !#[trigger] there[k],
{
    lemma_marked(there);
    match first_marked(there) {
        Some(i) => {
            assert(there[i]);
        },
        None => {},
    }
}

/// A build file further up does not count: where a directory has a build file and
/// none below it has one, a file is owned by that directory's, by the preferred
/// name if both are there.
pub proof fn lemma_directory_owns(file: Seq<char>, there: Seq<bool>, d: int)
    requires
        there.len() == 2 * (paths::lineage(file).len() - 1),
        0 <= d < paths::lineage(file).len() - 1,
        forall|k: int| 0 <= k < 2 * d ==> !#[trigger] there[k],
    ensures
        there[2 * d] ==> owning_buildfile(file, there) == Some(
            paths::joined(paths::lineage(file)[d + 1], "BUILD.bazel"@),
        ),
        !there[2 * d] && there[2 * d + 1] ==> owning_buildfile(file, there) == Some(
            paths::joined(paths::lineage(file)[d + 1], "BUILD"@),
        ),
{
    lemma_candidates_upwards(file, d);
    if there[2 * d] {
        lemma_first_marked(there, 2 * d);
    } else if there[2 * d + 1] {
        lemma_first_marked(there, 2 * d + 1);
    }
}

/// A package is its directory, character by character, with `/` for every `\`.
pub proof fn lemma_package(dir: Seq<char>, i: int)
    ensures
        as_package(dir).len() == dir.len(),
        0 <= i < dir.len() ==> as_package(dir)[i] == (if dir[i] == '\\' {
            '/'
        } else {
            dir[i]
        }),
{
}

/// The targets of a build file are all of its package, which is the directory
/// that it is in, seen from the workspace. The build file at the top stands for
/// the whole workspace, and one outside of it for nothing.
pub proof fn lemma_targets_of(workspace: Seq<char>, buildfile: Seq<char>)
    ensures
        targets_of(workspace, buildfile) is None <==> paths::below(buildfile, workspace) is None,
        paths::below(buildfile, workspace) matches Some(rel) ==> match paths::parent_of(rel) {
            Some(dir) => targets_of(workspace, buildfile) == Some(
                if dir.len() == 0 {
                    "//..."@
                } else {
                    "//"@ + as_package(dir) + ":all"@
                },
            ),
            None => targets_of(workspace, buildfile) == Some("//..."@),
        },
{
}

proof fn lemma_info_pair_at(lines: Seq<Seq<char>>, name: Seq<char>, value: Seq<char>)
    ensures
        info_pairs(lines).contains((name, value)) ==> exists|i: int|
            0 <= i < lines.len() && is_info_line(#[trigger] lines[i], name, value),
        info_pairs(lines).len() <= lines.len(),
    decreases lines.len(),
{
    if lines.len() > 0 {
        let d = lines.drop_last();
        let n = lines.len() - 1;
        lemma_info_pair_at(d, name, value);
        let all = info_pairs(lines);
        if all.contains((name, value)) {
            let k = choose|k: int| 0 <= k < all.len() && all[k] == (name, value);
            let rest = info_pairs(d);
            if k < rest.len() {
                assert(rest[k] == all[k]);
                let i = choose|i: int|
                    0 <= i < d.len() && is_info_line(#[trigger] d[i], name, value);
                assert(is_info_line(lines[i], name, value));
            } else {
                let pair = text::split_at_first(lines.last(), seq![':'])->0;
                lemma_info_line(lines.last());
                assert(is_info_line(lines[n], name, value));
            }
        }
    }
}

/// Whether a line is `name`, a colon and something that is `value` between white
/// space, where `name` has no colon.
pub open spec fn is_info_line(line: Seq<char>, name: Seq<char>, value: Seq<char>) -> bool {
    exists|rest: Seq<char>|
        line == #[trigger] (name + seq![':'] + rest) && text::free_of(name, ':') && value
            == text::trimmed(rest)
}

proof fn lemma_info_split(line: Seq<char>, name: Seq<char>, rest: Seq<char>)
    requires
        line == name + seq![':'] + rest,
        text::free_of(name, ':'),
    ensures
        text::split_at_first(line, seq![':']) == Some((name, rest)),
{
    let n = name.len() as int;
    assert forall|j: int| 0 <= j < n implies #[trigger] line[j] != ':' by {
        assert(line[j] == name[j]);
    }
    assert(line[n] == ':');
    text::lemma_find_char(line, ':', 0, n);
    assert(line.take(n) =~= name);
    assert(line.skip(n + 1) =~= rest);
}

proof fn lemma_info_found(line: Seq<char>)
    ensures
        match text::split_at_first(line, seq![':']) {
            Some(pair) => line == pair.0 + seq![':'] + pair.1 && text::free_of(pair.0, ':'),
            None => text::free_of(line, ':'),
        },
{
    text::lemma_find_from(line, seq![':'], 0);
    match text::find_from(line, seq![':'], 0) {
        Some(k) => {
            text::lemma_one_char(line, ':', k);
            let name = line.take(k);
            let rest = line.skip(k + 1);
            assert(line =~= name + seq![':'] + rest);
            assert forall|j: int| 0 <= j < name.len() implies #[trigger] name[j] != ':' by {
                text::lemma_one_char(line, ':', j);
            }
            assert(seq![':'].len() == 1);
            assert(text::split_at_first(line, seq![':']) == Some((name, rest)));
        },
        None => {
            assert forall|j: int| 0 <= j < line.len() implies #[trigger] line[j] != ':' by {
                text::lemma_one_char(line, ':', j);
            }
        },
    }
}

proof fn lemma_info_line(line: Seq<char>)
    ensures
        match text::split_at_first(line, seq![':']) {
            Some(pair) => is_info_line(line, pair.0, text::trimmed(pair.1)),
            None => text::free_of(line, ':'),
        },
        forall|name: Seq<char>, rest: Seq<char>|
            line == #[trigger] (name + seq![':'] + rest) && text::free_of(name, ':')
                ==> text::split_at_first(line, seq![':']) == Some((name, rest)),
{
    lemma_info_found(line);
    assert forall|name: Seq<char>, rest: Seq<char>|
        line == #[trigger] (name + seq![':'] + rest) && text::free_of(
            name,
            ':',
        ) implies text::split_at_first(line, seq![':']) == Some((name, rest)) by {
        lemma_info_split(line, name, rest);
    }
}

proof fn lemma_info_last(lines: Seq<Seq<char>>, i: int, name: Seq<char>, value: Seq<char>)
    requires
        0 <= i < lines.len(),
        is_info_line(lines[i], name, value),
        forall|j: int, other: Seq<char>|
            i < j < lines.len() ==> !#[trigger] is_info_line(lines[j], name, other),
    ensures
        string_map::lookup(string_map::gathered(info_pairs(lines)), name) == Some(value),
    decreases lines.len(),
{
    let d = lines.drop_last();
    let n = lines.len() - 1;
    let rest = info_pairs(d);
    let all = info_pairs(lines);
    lemma_info_line(lines[n]);
    string_map::lemma_put_all_sorted(Seq::empty(), rest);
    if i == n {
        let tail = choose|tail: Seq<char>|
            lines[n] == #[trigger] (name + seq![':'] + tail) && text::free_of(name, ':') && value
                == text::trimmed(tail);
        assert(text::split_at_first(lines[n], seq![':']) == Some((name, tail)));
        assert(all == rest.push((name, value)));
        assert(all.drop_last() =~= rest);
        string_map::lemma_put_lookup(string_map::gathered(rest), name, value, name);
    } else {
        assert forall|j: int, other: Seq<char>| i < j < d.len() implies !#[trigger] is_info_line(
            d[j],
            name,
            other,
        ) by {
            assert(!is_info_line(lines[j], name, other));
        }
        lemma_info_last(d, i, name, value);
        match text::split_at_first(lines[n], seq![':']) {
            Some(pair) => {
                let v = text::trimmed(pair.1);
                assert(all == rest.push((pair.0, v)));
                assert(all.drop_last() =~= rest);
                if pair.0 == name {
                    assert(!is_info_line(lines[n], name, v));
                }
                string_map::lemma_put_lookup(string_map::gathered(rest), pair.0, v, name);
            },
            None => {},
        }
    }
}

/// What is read of a line `name: value` is the value under the name, where no
/// later line has the name; and no name is found that no line has.
pub proof fn lemma_info_read(stdout: Seq<char>, i: int, name: Seq<char>, value: Seq<char>)
    ensures
        ({
            let lines = text::split_on(text::trimmed(stdout), '\n');
            let read = string_map::gathered(info_pairs(lines));
            &&& 0 <= i < lines.len() && is_info_line(lines[i], name, value) && (forall|
                j: int,
                other: Seq<char>,
            |
                i < j < lines.len() ==> !#[trigger] is_info_line(lines[j], name, other))
                ==> string_map::lookup(read, name) == Some(value)
            &&& string_map::lookup(read, name) == Some(value) ==> exists|j: int|
                0 <= j < lines.len() && is_info_line(#[trigger] lines[j], name, value)
        }),
{
    let lines = text::split_on(text::trimmed(stdout), '\n');
    let all = info_pairs(lines);
    let read = string_map::gathered(all);
    if 0 <= i < lines.len() && is_info_line(lines[i], name, value) && forall|
        j: int,
        other: Seq<char>,
    |
        i < j < lines.len() ==> !#[trigger] is_info_line(lines[j], name, other) {
        lemma_info_last(lines, i, name, value);
    }
    if string_map::lookup(read, name) == Some(value) {
        string_map::lemma_gathered_lookup(all, name);
        let k = choose|k: int| 0 <= k < all.len() && #[trigger] all[k] == (name, value);
        assert(all.contains((name, value)));
        lemma_info_pair_at(lines, name, value);
    }
}

/// Whether a text has neither an underscore nor a dollar sign, and so no
/// placeholder and no part of one.
pub open spec fn is_literal(s: Seq<char>) -> bool {
    text::free_of(s, '_') && text::free_of(s, '$')
}

proof fn lemma_literal_absent(s: Seq<char>, pat: Seq<char>)
    requires
        is_literal(s),
        pat.len() > 0,
        pat[0] == '_' || pat[0] == '$',
    ensures
        text::is_absent(s, pat),
{
    assert forall|i: int| 0 <= i && i + pat.len() <= s.len() implies #[trigger] s.subrange(
        i,
        i + pat.len(),
    ) != pat by {
        assert(s.subrange(i, i + pat.len())[0] == s[i]);
    }
}

proof fn lemma_fill_one(a: Seq<char>, pat: Seq<char>, b: Seq<char>, value: Seq<char>)
    requires
        is_literal(a),
        is_literal(b),
        pat.len() > 0,
        pat[0] == '_' || pat[0] == '$',
    ensures
        text::replaced(a + pat + b, pat, value) == a + value + b,
{
    let s = a + pat + b;
    assert(s.subrange(a.len() as int, a.len() as int + pat.len()) =~= pat);
    assert forall|i: int| 0 <= i < a.len() implies #[trigger] s.subrange(i, i + pat.len())
        != pat by {
        assert(s.subrange(i, i + pat.len())[0] == a[i]);
    }
    lemma_literal_absent(b, pat);
    text::lemma_replaced(a, pat, b, value, b);
}

proof fn lemma_no_dollar(a: Seq<char>, mid: Seq<char>, b: Seq<char>)
    requires
        is_literal(a),
        is_literal(b),
        text::free_of(mid, '$'),
    ensures
        text::is_absent(a + mid + b, "${pwd}"@),
{
    reveal_strlit("${pwd}");
    let s = a + mid + b;
    let pat = "${pwd}"@;
    assert forall|i: int| 0 <= i && i + pat.len() <= s.len() implies #[trigger] s.subrange(
        i,
        i + pat.len(),
    ) != pat by {
        assert(s.subrange(i, i + pat.len())[0] == s[i]);
        if i < a.len() {
            assert(s[i] == a[i]);
        } else if i < a.len() + mid.len() {
            assert(s[i] == mid[i - a.len()]);
        } else {
            assert(s[i] == b[i - a.len() - mid.len()]);
        }
    }
}

/// A pattern that begins and ends with two underscores, and whose third character
/// is another than that of `mid`, does not occur around `mid`, which begins and
/// ends with two underscores and has no two of them inside.
proof fn lemma_other_placeholder(a: Seq<char>, mid: Seq<char>, b: Seq<char>, pat: Seq<char>)
    requires
        is_literal(a),
        is_literal(b),
        mid.len() > 4,
        pat.len() > 4,
        pat[0] == '_' && pat[1] == '_',
        pat[pat.len() - 1] == '_',
        mid[2] != pat[2],
        forall|i: int|
            0 < i < mid.len() - 2 && #[trigger] mid[i] == '_' ==> mid[i + 1] != '_',
        pat.len() > 2,
    ensures
        text::is_absent(a + mid + b, pat),
{
    let s = a + mid + b;
    let n = a.len() as int;
    assert forall|i: int| 0 <= i && i + pat.len() <= s.len() implies #[trigger] s.subrange(
        i,
        i + pat.len(),
    ) != pat by {
        let w = s.subrange(i, i + pat.len());
        if w == pat {
            assert(w[0] == s[i] && w[1] == s[i + 1] && w[2] == s[i + 2]);
            let e = i + pat.len() - 1;
            assert(w[pat.len() - 1] == s[e]);
            if i < n {
                assert(s[i] == a[i]);
            } else if i >= n + mid.len() {
                assert(s[i] == b[i - n - mid.len()]);
            } else {
                assert(s[i] == mid[i - n]);
                if i == n {
                    assert(s[i + 2] == mid[2]);
                } else if i < n + mid.len() - 2 {
                    assert(s[i + 1] == mid[i - n + 1]);
                } else {
                    assert(e >= n + mid.len());
                    assert(s[e] == b[e - n - mid.len()]);
                }
            }
        }
    }
}

/// Each placeholder between other text gives way to what it stands for, and
/// text without placeholders stays as it is.
pub proof fn lemma_filled_in(
    a: Seq<char>,
    b: Seq<char>,
    output_base: Seq<char>,
    workspace: Seq<char>,
    execution_root: Seq<char>,
)
    requires
        is_literal(a),
        is_literal(b),
        is_literal(output_base),
        is_literal(workspace),
        is_literal(execution_root),
    ensures
        filled_in(a, output_base, workspace, execution_root) == a,
        filled_in(a + "__WORKSPACE__"@ + b, output_base, workspace, execution_root) == a
            + workspace + b,
        filled_in(a + "${pwd}"@ + b, output_base, workspace, execution_root) == a + execution_root
            + b,
        filled_in(a + "__EXEC_ROOT__"@ + b, output_base, workspace, execution_root) == a
            + execution_root + b,
        filled_in(a + "__OUTPUT_BASE__"@ + b, output_base, workspace, execution_root) == a
            + output_base + b,
{
    reveal_strlit("__WORKSPACE__");
    reveal_strlit("${pwd}");
    reveal_strlit("__EXEC_ROOT__");
    reveal_strlit("__OUTPUT_BASE__");
    let ws = "__WORKSPACE__"@;
    let pwd = "${pwd}"@;
    let root = "__EXEC_ROOT__"@;
    let base = "__OUTPUT_BASE__"@;
    lemma_filled_literal(a, output_base, workspace, execution_root);
    // the workspace
    lemma_fill_one(a, ws, b, workspace);
    lemma_filled_literal(a + workspace + b, output_base, workspace, execution_root);
    lemma_literal_absent(a + workspace + b, ws);
    text::lemma_replaced(a, ws, b, workspace, a + workspace + b);
    // the execution root, in its two forms
    let s = a + pwd + b;
    assert(text::free_of(s, '_')) by {
        assert forall|i: int| 0 <= i < s.len() implies #[trigger] s[i] != '_' by {
            if i < a.len() {
                assert(s[i] == a[i]);
            } else if i < a.len() + pwd.len() {
                assert(s[i] == pwd[i - a.len()]);
            } else {
                assert(s[i] == b[i - a.len() - pwd.len()]);
            }
        }
    }
    assert(text::is_absent(s, ws)) by {
        assert forall|i: int| 0 <= i && i + ws.len() <= s.len() implies #[trigger] s.subrange(
            i,
            i + ws.len(),
        ) != ws by {
            assert(s.subrange(i, i + ws.len())[0] == s[i]);
        }
    }
    text::lemma_replaced(a, ws, b, workspace, s);
    lemma_fill_one(a, pwd, b, execution_root);
    let filled = a + execution_root + b;
    assert(is_literal(filled));
    lemma_literal_absent(filled, root);
    lemma_literal_absent(filled, base);
    text::lemma_replaced(a, root, b, execution_root, filled);
    text::lemma_replaced(a, base, b, output_base, filled);
    let t = a + root + b;
    lemma_other_placeholder(a, root, b, ws);
    text::lemma_replaced(a, ws, b, workspace, t);
    lemma_no_dollar(a, root, b);
    text::lemma_replaced(a, pwd, b, execution_root, t);
    lemma_fill_one(a, root, b, execution_root);
    // the output base
    let u = a + base + b;
    lemma_other_placeholder(a, base, b, ws);
    text::lemma_replaced(a, ws, b, workspace, u);
    lemma_no_dollar(a, base, b);
    text::lemma_replaced(a, pwd, b, execution_root, u);
    lemma_other_placeholder(a, base, b, root);
    text::lemma_replaced(a, root, b, execution_root, u);
    lemma_fill_one(a, base, b, output_base);
}

proof fn lemma_filled_literal(
    s: Seq<char>,
    output_base: Seq<char>,
    workspace: Seq<char>,
    execution_root: Seq<char>,
)
    requires
        is_literal(s),
    ensures
        filled_in(s, output_base, workspace, execution_root) == s,
        text::replaced(
            text::replaced(
                text::replaced(s, "${pwd}"@, execution_root),
                "__EXEC_ROOT__"@,
                execution_root,
            ),
            "__OUTPUT_BASE__"@,
            output_base,
        ) == s,
{
    reveal_strlit("__WORKSPACE__");
    reveal_strlit("${pwd}");
    reveal_strlit("__EXEC_ROOT__");
    reveal_strlit("__OUTPUT_BASE__");
    lemma_literal_absent(s, "__WORKSPACE__"@);
    lemma_literal_absent(s, "${pwd}"@);
    lemma_literal_absent(s, "__EXEC_ROOT__"@);
    lemma_literal_absent(s, "__OUTPUT_BASE__"@);
    text::lemma_replaced(s, "__WORKSPACE__"@, s, workspace, s);
    text::lemma_replaced(s, "${pwd}"@, s, execution_root, s);
    text::lemma_replaced(s, "__EXEC_ROOT__"@, s, execution_root, s);
    text::lemma_replaced(s, "__OUTPUT_BASE__"@, s, output_base, s);
}

/// A command against a server names it before everything else, runs in the
/// workspace, and does not inherit what an outer Bazel set for itself.
pub proof fn lemma_bazel_command(
    bazel: Seq<char>,
    workspace: Seq<char>,
    output_base: Seq<char>,
)
    ensures
        bazel_command_view(bazel, Some(workspace), None).program == bazel,
        bazel_command_view(bazel, Some(workspace), None).cwd == workspace,
        bazel_command_view(bazel, None, None).cwd == "."@,
        bazel_command_view(bazel, Some(workspace), None).args.len() == 0,
        bazel_command_view(bazel, Some(workspace), Some(output_base)).args == seq![
            "--output_base="@ + output_base,
        ],
        bazel_command_view(bazel, Some(workspace), Some(output_base)).program == bazel,
        bazel_command_view(bazel, Some(workspace), Some(output_base)).cwd == workspace,
        bazel_command_view(bazel, Some(workspace), Some(output_base)).env_remove.contains(
            "BAZELISK_SKIP_WRAPPER"@,
        ),
        bazel_command_view(bazel, Some(workspace), Some(output_base)).env_remove.contains(
            "BUILD_WORKING_DIRECTORY"@,
        ),
        bazel_command_view(bazel, Some(workspace), Some(output_base)).env_remove.contains(
            "BUILD_WORKSPACE_DIRECTORY"@,
        ),
{
    let removed = bazel_command_view(bazel, Some(workspace), Some(output_base)).env_remove;
    assert(removed[0] == "BAZELISK_SKIP_WRAPPER"@);
    assert(removed[1] == "BUILD_WORKING_DIRECTORY"@);
    assert(removed[2] == "BUILD_WORKSPACE_DIRECTORY"@);
}

/// The build that describes the crates is told, after `build` and the arguments
/// of the user, to go on after failures, to write its events to the file, and to
/// run the aspect; the targets come last, all of them in their order.
pub proof fn lemma_crate_info_args(
    bazel_args: Seq<Seq<char>>,
    rules_rust: Seq<char>,
    targets: Seq<Seq<char>>,
    bep_file: Seq<char>,
    i: int,
)
    ensures
        ({
            let args = crate_info_args(bazel_args, rules_rust, targets, bep_file);
            &&& args.len() > bazel_args.len() + targets.len()
            &&& args[0] == "build"@
            &&& 0 <= i < bazel_args.len() ==> args[1 + i] == bazel_args[i]
            &&& 0 <= i < targets.len() ==> args[args.len() - targets.len() + i] == targets[i]
            &&& args.contains("--keep_going"@)
            &&& args.contains("--norun_validations"@)
            &&& args.contains("--remote_download_all"@)
            &&& args.contains(
                "--aspects="@ + rules_rust + "//rust:defs.bzl%rust_analyzer_aspect"@,
            )
            &&& args.contains(
                "--output_groups=rust_analyzer_crate_spec,rust_generated_srcs,rust_analyzer_proc_macro_dylib,rust_analyzer_src"@,
            )
            &&& args.contains("--build_event_json_file="@ + bep_file)
            &&& args.contains("--build_event_publish_all_actions"@)
        }),
{
    let args = crate_info_args(bazel_args, rules_rust, targets, bep_file);
    let n = bazel_args.len() as int;
    assert(args[n + 1] == "--keep_going"@);
    assert(args[n + 2] == "--norun_validations"@);
    assert(args[n + 3] == "--remote_download_all"@);
    assert(args[n + 4] == "--aspects="@ + rules_rust + "//rust:defs.bzl%rust_analyzer_aspect"@);
    assert(args[n + 5]
        == "--output_groups=rust_analyzer_crate_spec,rust_generated_srcs,rust_analyzer_proc_macro_dylib,rust_analyzer_src"@);
    assert(args[n + 6] == "--build_event_json_file="@ + bep_file);
    assert(args[n + 7] == "--build_event_publish_all_actions"@);
}

proof fn lemma_labels_apart(specs: Seq<CrateSpec>, n: int)
    requires
        0 <= n <= specs.len(),
        roots_apart(specs),
    ensures
        forall|k: int|
            0 <= k < file_labels_of(specs.take(n)).len() ==> exists|i: int|
                0 <= i < n && (#[trigger] specs[i]).build is Some && specs[i].root_module@ == (
                #[trigger] file_labels_of(specs.take(n))[k]).0 && specs[i].build->0.label@
                    == file_labels_of(specs.take(n))[k].1,
        forall|i: int|
            0 <= i < n && (#[trigger] specs[i]).build is Some ==> file_labels_of(
                specs.take(n),
            ).contains((specs[i].root_module@, specs[i].build->0.label@)),
    decreases n,
{
    if n > 0 {
        lemma_labels_apart(specs, n - 1);
        let part = specs.take(n);
        assert(part.drop_last() =~= specs.take(n - 1));
        let rest = file_labels_of(specs.take(n - 1));
        let all = file_labels_of(part);
        let c = specs[n - 1];
        if c.build is Some {
            assert forall|k: int| 0 <= k < rest.len() implies !paths::same_path(
                (#[trigger] rest[k]).0,
                c.root_module@,
            ) by {
                let i = choose|i: int|
                    0 <= i < n - 1 && (#[trigger] specs[i]).build is Some
                        && specs[i].root_module@ == rest[k].0 && specs[i].build->0.label@
                        == rest[k].1;
                assert(!paths::same_path(specs[i].root_module@, specs[n - 1].root_module@));
            }
            lemma_labelled(rest, c.root_module@, c.build->0.label@, rest.len() as int);
            assert(all == rest.push((c.root_module@, c.build->0.label@)));
            assert(all[rest.len() as int] == (c.root_module@, c.build->0.label@));
        }
        assert forall|k: int| 0 <= k < all.len() implies exists|i: int|
            0 <= i < n && (#[trigger] specs[i]).build is Some && specs[i].root_module@ == (
            #[trigger] all[k]).0 && specs[i].build->0.label@ == all[k].1 by {
            if k < rest.len() {
                assert(all[k] == rest[k]);
                let i = choose|i: int|
                    0 <= i < n - 1 && (#[trigger] specs[i]).build is Some
                        && specs[i].root_module@ == rest[k].0 && specs[i].build->0.label@
                        == rest[k].1;
                assert(specs[i].build is Some);
            } else {
                assert(specs[n - 1].build is Some);
            }
        }
        assert forall|i: int| 0 <= i < n && (#[trigger] specs[i]).build is Some implies all.contains(
            (specs[i].root_module@, specs[i].build->0.label@),
        ) by {
            if i < n - 1 {
                let e = (specs[i].root_module@, specs[i].build->0.label@);
                assert(rest.contains(e));
                let k = choose|k: int| 0 <= k < rest.len() && rest[k] == e;
                assert(all[k] == e);
            }
        }
    } else {
        assert(specs.take(0) =~= Seq::empty());
    }
}

/// Whether no two crates with a label have the same root module.
pub open spec fn roots_apart(specs: Seq<CrateSpec>) -> bool {
    forall|i: int, j: int|
        0 <= i < j < specs.len() && (#[trigger] specs[i]).build is Some && (
        #[trigger] specs[j]).build is Some ==> !paths::same_path(
            specs[i].root_module@,
            specs[j].root_module@,
        )
}

/// Where no two crates share a root module, the labels by path are exactly those
/// of the crates that have one, each under its root module.
pub proof fn lemma_file_labels(specs: Seq<CrateSpec>, path: Seq<char>, label: Seq<char>)
    requires
        roots_apart(specs),
    ensures
        file_labels_of(specs).contains((path, label)) <==> exists|i: int|
            0 <= i < specs.len() && (#[trigger] specs[i]).root_module@ == path && (
            specs[i].build matches Some(build) && build.label@ == label),
{
    let n = specs.len() as int;
    assert(specs.take(n) =~= specs);
    lemma_labels_apart(specs, n);
    let all = file_labels_of(specs);
    if all.contains((path, label)) {
        let k = choose|k: int| 0 <= k < all.len() && all[k] == (path, label);
        let i = choose|i: int|
            0 <= i < n && (#[trigger] specs[i]).build is Some && specs[i].root_module@ == all[k].0
                && specs[i].build->0.label@ == all[k].1;
        assert(specs[i].root_module@ == path);
    }
}

/// A label goes to the place of the same root module, and otherwise to the end;
/// what belongs to other root modules stays.
pub proof fn lemma_label_put(
    entries: Seq<(Seq<char>, Seq<char>)>,
    path: Seq<char>,
    label: Seq<char>,
    n: int,
)
    requires
        0 <= n <= entries.len(),
        forall|k: int| 0 <= k < n ==> !paths::same_path((#[trigger] entries[k]).0, path),
        n < entries.len() ==> paths::same_path(entries[n].0, path),
    ensures
        n < entries.len() ==> labelled(entries, path, label) == entries.update(
            n,
            (entries[n].0, label),
        ),
        n == entries.len() ==> labelled(entries, path, label) == entries.push((path, label)),
{
    lemma_labelled(entries, path, label, n);
}

/// The labels of more crates go over those of the crates before them; a crate
/// without a label changes nothing.
pub proof fn lemma_later_labels(specs: Seq<CrateSpec>, c: CrateSpec)
    ensures
        c.build is None ==> file_labels_of(specs.push(c)) == file_labels_of(specs),
        c.build matches Some(build) ==> file_labels_of(specs.push(c)) == labelled(
            file_labels_of(specs),
            c.root_module@,
            build.label@,
        ),
{
    assert(specs.push(c).drop_last() =~= specs);
}

/// Errors tell what went wrong and where.
pub proof fn lemma_error_texts(a: String, b: String)
    ensures
        DiscoveryError::NoCrateSpecs(a).text()
            == "bazel build failed and produced no crate specs:\n"@ + a@,
        DiscoveryError::NoUsableOutput(a).text()
            == "bazel build failed and produced no usable output:\n"@ + a@,
        DiscoveryError::UnreadableEvents(a, b).text() == "parsing BEP file "@ + a@ + ": "@ + b@,
        DiscoveryError::NoBuildfile(a).text() == "no buildfile found for "@ + a@,
        DiscoveryError::OutsideWorkspace(a).text() == a@ + " not part of workspace"@,
        DiscoveryError::MissingInfo(a).text() == "`bazel info` returned no `"@ + a@ + "` line"@,
{
}

/// Whether a character is in none of the placeholders.
pub open spec fn is_between(c: char) -> bool {
    c != '_' && c != '$' && c != '{' && c != '}' && c != 'p' && c != 'w' && c != 'd' && !('A' <= c
        <= 'Z')
}

/// What is filled in on one side of a slash, a quote, or another character that
/// no placeholder has, does not depend on the other side: all placeholders are
/// filled in, however many there are and whatever they stand for.
pub proof fn lemma_filled_in_apart(
    x: Seq<char>,
    c: char,
    y: Seq<char>,
    output_base: Seq<char>,
    workspace: Seq<char>,
    execution_root: Seq<char>,
)
    requires
        is_between(c),
    ensures
        filled_in(x + seq![c] + y, output_base, workspace, execution_root) == filled_in(
            x,
            output_base,
            workspace,
            execution_root,
        ) + seq![c] + filled_in(y, output_base, workspace, execution_root),
{
    reveal_strlit("__WORKSPACE__");
    reveal_strlit("${pwd}");
    reveal_strlit("__EXEC_ROOT__");
    reveal_strlit("__OUTPUT_BASE__");
    let (ws, pwd) = ("__WORKSPACE__"@, "${pwd}"@);
    let (root, base) = ("__EXEC_ROOT__"@, "__OUTPUT_BASE__"@);
    text::lemma_replaced_apart(x, c, y, ws, workspace);
    let (x1, y1) = (text::replaced(x, ws, workspace), text::replaced(y, ws, workspace));
    text::lemma_replaced_apart(x1, c, y1, pwd, execution_root);
    let (x2, y2) = (
        text::replaced(x1, pwd, execution_root),
        text::replaced(y1, pwd, execution_root),
    );
    text::lemma_replaced_apart(x2, c, y2, root, execution_root);
    let (x3, y3) = (
        text::replaced(x2, root, execution_root),
        text::replaced(y2, root, execution_root),
    );
    text::lemma_replaced_apart(x3, c, y3, base, output_base);
}

/// What a placeholder stands for may be any text without placeholders in it, and
/// the output base any text at all.
pub proof fn lemma_filled_in_values(
    a: Seq<char>,
    b: Seq<char>,
    output_base: Seq<char>,
    workspace: Seq<char>,
    execution_root: Seq<char>,
)
    requires
        is_literal(a),
        is_literal(b),
    ensures
        text::is_absent(a + workspace + b, "${pwd}"@) && text::is_absent(
            a + workspace + b,
            "__EXEC_ROOT__"@,
        ) && text::is_absent(a + workspace + b, "__OUTPUT_BASE__"@) ==> filled_in(
            a + "__WORKSPACE__"@ + b,
            output_base,
            workspace,
            execution_root,
        ) == a + workspace + b,
        text::is_absent(a + execution_root + b, "__OUTPUT_BASE__"@) ==> filled_in(
            a + "__EXEC_ROOT__"@ + b,
            output_base,
            workspace,
            execution_root,
        ) == a + execution_root + b,
        filled_in(a + "__OUTPUT_BASE__"@ + b, output_base, workspace, execution_root) == a
            + output_base + b,
{
    reveal_strlit("__WORKSPACE__");
    reveal_strlit("${pwd}");
    reveal_strlit("__EXEC_ROOT__");
    reveal_strlit("__OUTPUT_BASE__");
    let (ws, pwd) = ("__WORKSPACE__"@, "${pwd}"@);
    let (root, base) = ("__EXEC_ROOT__"@, "__OUTPUT_BASE__"@);
    lemma_fill_one(a, ws, b, workspace);
    let filled = a + workspace + b;
    text::lemma_replaced(a, pwd, b, execution_root, filled);
    text::lemma_replaced(a, root, b, execution_root, filled);
    text::lemma_replaced(a, base, b, output_base, filled);
    let t = a + root + b;
    lemma_other_placeholder(a, root, b, ws);
    text::lemma_replaced(a, ws, b, workspace, t);
    lemma_no_dollar(a, root, b);
    text::lemma_replaced(a, pwd, b, execution_root, t);
    lemma_fill_one(a, root, b, execution_root);
    text::lemma_replaced(a, base, b, output_base, a + execution_root + b);
    let u = a + base + b;
    lemma_other_placeholder(a, base, b, ws);
    text::lemma_replaced(a, ws, b, workspace, u);
    lemma_no_dollar(a, base, b);
    text::lemma_replaced(a, pwd, b, execution_root, u);
    lemma_other_placeholder(a, base, b, root);
    text::lemma_replaced(a, root, b, execution_root, u);
    lemma_fill_one(a, base, b, output_base);
}

/// A file belongs to the closest directory above it that has a build file, to the
/// preferred one of that directory; without any it belongs to none.
pub proof fn lemma_buildfile_answer(
    file: &str,
    there: &Vec<bool>,
    r: Result<String, DiscoveryError>,
    d: int,
)
    requires
        call_ensures(source_file_to_buildfile, (file, there), r),
        there@.len() == 2 * (paths::lineage(file@).len() - 1),
    ensures
        0 <= d < paths::lineage(file@).len() - 1 && (forall|k: int|
            0 <= k < 2 * d ==> !#[trigger] there@[k]) ==> {
            &&& there@[2 * d] ==> (r matches Ok(b) && b@ == paths::joined(
                paths::lineage(file@)[d + 1],
                "BUILD.bazel"@,
            ))
            &&& !there@[2 * d] && there@[2 * d + 1] ==> (r matches Ok(b) && b@ == paths::joined(
                paths::lineage(file@)[d + 1],
                "BUILD"@,
            ))
        },
        (forall|k: int| 0 <= k < there@.len() ==> !#[trigger] there@[k]) ==> (r matches Err(
            DiscoveryError::NoBuildfile(f),
        ) && f@ == file@),
{
    if 0 <= d < paths::lineage(file@).len() - 1 && (forall|k: int|
        0 <= k < 2 * d ==> !#[trigger] there@[k]) {
        lemma_directory_owns(file@, there@, d);
    }
    if forall|k: int| 0 <= k < there@.len() ==> !#[trigger] there@[k] {
        lemma_first_marked(there@, there@.len() as int);
    }
}

/// A build that failed is of use exactly where it left descriptions, which are
/// then incomplete; without any, what it said is the error.
pub proof fn lemma_assessment(
    success: bool,
    spec_count: usize,
    stderr: &str,
    r: Result<bool, DiscoveryError>,
)
    requires
        call_ensures(assess_discovery, (success, spec_count, stderr), r),
    ensures
        success ==> r == Ok::<bool, DiscoveryError>(false),
        !success && spec_count > 0 ==> r == Ok::<bool, DiscoveryError>(true),
        !success && spec_count == 0 ==> (r matches Err(DiscoveryError::NoCrateSpecs(printed))
            && printed@ == stderr@),
{
}

/// The pattern for a package names its directory; the top of the workspace stands
/// for everything.
pub proof fn lemma_package_answer(dir: &Option<String>, r: String)
    requires
        call_ensures(package_targets, (dir,), r),
    ensures
        dir is None ==> r@ == "//..."@,
        dir matches Some(d) ==> (d@.len() == 0 ==> r@ == "//..."@),
        dir matches Some(d) ==> (d@.len() > 0 ==> r@ == "//"@ + as_package(d@) + ":all"@),
{
}

/// All three places have to be told; the first one that is not is the error.
pub proof fn lemma_info_answer(info: &StringMap, r: Result<BazelInfo, DiscoveryError>)
    requires
        call_ensures(BazelInfo::try_new, (info,), r),
    ensures
        r matches Ok(i) ==> string_map::lookup(info@, "output_base"@) == Some(i.output_base@)
            && string_map::lookup(info@, "workspace"@) == Some(i.workspace@)
            && string_map::lookup(info@, "execution_root"@) == Some(i.execution_root@),
        string_map::lookup(info@, "output_base"@) is Some && string_map::lookup(
            info@,
            "workspace"@,
        ) is Some && string_map::lookup(info@, "execution_root"@) is Some ==> r is Ok,
        string_map::lookup(info@, "output_base"@) is None ==> (r matches Err(
            DiscoveryError::MissingInfo(name),
        ) && name@ == "output_base"@),
        r matches Err(e) ==> (e matches DiscoveryError::MissingInfo(name) && string_map::lookup(
            info@,
            name@,
        ) is None),
{
}

/// A path is led to the build file that owns it, and a build file to itself; both
/// to the targets that the build file stands for.
pub proof fn lemma_details_answer(
    arg: RustAnalyzerArg,
    workspace: &str,
    there: &Vec<bool>,
    r: Result<(String, String), DiscoveryError>,
)
    requires
        call_ensures(RustAnalyzerArg::into_target_details, (arg, workspace, there), r),
    ensures
        arg matches RustAnalyzerArg::Buildfile(b) ==> match targets_of(workspace@, b@) {
            Some(t) => r matches Ok(p) && p.0@ == b@ && p.1@ == t,
            None => r matches Err(DiscoveryError::OutsideWorkspace(f)) && f@ == b@,
        },
        arg matches RustAnalyzerArg::Path(file) ==> match owning_buildfile(file@, there@) {
            Some(b) => match targets_of(workspace@, b) {
                Some(t) => r matches Ok(p) && p.0@ == b && p.1@ == t,
                None => r matches Err(DiscoveryError::OutsideWorkspace(f)) && f@ == b,
            },
            None => r matches Err(DiscoveryError::NoBuildfile(f)) && f@ == file@,
        },
{
}

} // verus!
