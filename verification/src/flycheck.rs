//! The build that runs on every save, and the diagnostics that come of it.
use vstd::prelude::*;
use crate::discovery::BazelCommand;
use crate::discovery;
use crate::json;
use crate::json::{parse_json, Json, Tree};
use crate::paths;
use crate::text;
use crate::text::{begins_with, copied, decimal_of, lines_of, same_text, trim_of, trim_start_of};

verus! {

/// The output group with the diagnostics of the compiler.
pub const RUSTC_OUTPUT_GROUP: &'static str = "rustc_output";

/// The output group with the diagnostics of clippy.
pub const CLIPPY_OUTPUT_GROUP: &'static str = "clippy_output";

// ---------------------------------------------------------------------------
// The build
// ---------------------------------------------------------------------------

/// The workspace: what the environment names, or else the current directory.
pub fn workspace_dir(named: &Option<String>, current_dir: &str) -> (r: String)
    ensures
        r@ == (match named {
            Some(dir) => dir@,
            None => current_dir@,
        }),
{
    match named {
        Some(dir) => copied(dir),
        None => current_dir.to_owned(),
    }
}

/// Where the build writes its events: a file of this process in the temporary
/// directory.
pub fn bep_path(temp_dir: &str, process_id: u32) -> (r: String)
    ensures
        r@ == paths::joined(
            temp_dir@,
            "flycheck_bep_"@ + text::decimal(process_id as nat) + ".json"@,
        ),
{
    let mut name = "flycheck_bep_".to_owned();
    name.append(decimal_of(process_id as u64).as_str());
    name.append(".json");
    paths::join(temp_dir, name.as_str())
}

/// The root of what the server of the build writes: what was asked for, or
/// else a directory next to the program.
pub fn output_user_root(requested: &Option<String>, install_dir: &str) -> (r: String)
    ensures
        r@ == (match requested {
            Some(root) => root@,
            None => paths::joined(install_dir@, "output_user_root"@),
        }),
{
    match requested {
        Some(root) => copied(root),
        None => paths::join(install_dir, "output_user_root"),
    }
}

/// The arguments of the build of `label`.
pub open spec fn flycheck_args(
    output_user_root: Seq<char>,
    label: Seq<char>,
    bep_path: Seq<char>,
    clippy: bool,
) -> Seq<Seq<char>> {
    let base = seq![
        "--output_user_root="@ + output_user_root,
        "build"@,
        label,
        "--@rules_rust//rust/settings:error_format=json"@,
        "--@rules_rust//rust/settings:rustc_output_diagnostics=true"@,
        "--output_groups=+"@ + RUSTC_OUTPUT_GROUP@,
        "--keep_going"@,
        "--build_event_json_file="@ + bep_path,
    ];
    if clippy {
        base + seq![
            "--aspects=@rules_rust//rust:defs.bzl%rust_clippy_aspect"@,
            "--@rules_rust//rust/settings:clippy_output_diagnostics=true"@,
            "--output_groups=+"@ + CLIPPY_OUTPUT_GROUP@,
        ]
    } else {
        base
    }
}

/// The build of `label`, which keeps going after an error so that all
/// diagnostics come at once. It has a server of its own, so that its settings
/// do not disturb the one of the user. With clippy its aspect and its output
/// group are added.
pub fn flycheck_command(
    bazel: &str,
    workspace: &str,
    output_user_root: &str,
    label: &str,
    bep_path: &str,
    clippy: bool,
) -> (r: BazelCommand)
    ensures
        r@ == discovery::with_args(
            discovery::bazel_command_view(bazel@, Some(workspace@), None),
            flycheck_args(output_user_root@, label@, bep_path@, clippy),
        ),
{
    let mut cmd = discovery::bazel_command(bazel, &Some(workspace.to_owned()), &None);
    let ghost before = cmd@;
    let mut root = "--output_user_root=".to_owned();
    root.append(output_user_root);
    cmd.arg(root);
    cmd.arg("build".to_owned());
    cmd.arg(label.to_owned());
    cmd.arg("--@rules_rust//rust/settings:error_format=json".to_owned());
    cmd.arg("--@rules_rust//rust/settings:rustc_output_diagnostics=true".to_owned());
    let mut group = "--output_groups=+".to_owned();
    group.append(RUSTC_OUTPUT_GROUP);
    cmd.arg(group);
    cmd.arg("--keep_going".to_owned());
    let mut events = "--build_event_json_file=".to_owned();
    events.append(bep_path);
    cmd.arg(events);
    if clippy {
        cmd.arg("--aspects=@rules_rust//rust:defs.bzl%rust_clippy_aspect".to_owned());
        cmd.arg("--@rules_rust//rust/settings:clippy_output_diagnostics=true".to_owned());
        let mut more = "--output_groups=+".to_owned();
        more.append(CLIPPY_OUTPUT_GROUP);
        cmd.arg(more);
    }
    assert(cmd@.args =~= before.args + flycheck_args(
        output_user_root@,
        label@,
        bep_path@,
        clippy,
    ));
    cmd
}

/// The arguments that ask the server of the build for its execution root.
pub fn execution_root_args(output_user_root: &str) -> (r: Vec<String>)
    ensures
        text::views(r@) == seq![
            "--output_user_root="@ + output_user_root@,
            "info"@,
            "execution_root"@,
        ],
{
    let mut root = "--output_user_root=".to_owned();
    root.append(output_user_root);
    let r: Vec<String> = vec![root, "info".to_owned(), "execution_root".to_owned()];
    assert(text::views(r@) =~= seq![
        "--output_user_root="@ + output_user_root@,
        "info"@,
        "execution_root"@,
    ]);
    r
}

/// The execution root in what the server printed.
pub fn parse_execution_root(stdout: &str) -> (r: String)
    ensures
        r@ == text::trimmed(stdout@),
{
    trim_of(stdout)
}

/// The files with diagnostics: what the actions printed, and with clippy its
/// own files. A part that could not be found out counts as empty.
pub fn diagnostic_files(
    action_stderr: &Option<Vec<String>>,
    clippy: bool,
    clippy_output: &Option<Vec<String>>,
) -> (r: Vec<String>)
    ensures
        text::views(r@) == (match action_stderr {
            Some(list) => text::views(list@),
            None => Seq::empty(),
        }) + (match clippy_output {
            Some(list) => if clippy {
                text::views(list@)
            } else {
                Seq::empty()
            },
            None => Seq::empty(),
        }),
{
    let mut r: Vec<String> = Vec::new();
    match action_stderr {
        Some(list) => {
            r = text::copied_list(list);
        },
        None => {},
    }
    assert(action_stderr is None ==> text::views(r@) =~= Seq::empty());
    let ghost first = text::views(r@);
    if clippy {
        match clippy_output {
            Some(list) => {
                let mut i: usize = 0;
                assert(text::views(r@) =~= first + text::views(list@).take(0));
                while i < list.len()
                    invariant
                        i <= list@.len(),
                        text::views(r@) == first + text::views(list@).take(i as int),
                    decreases list@.len() - i,
                {
                    let ghost before = r@;
                    r.push(copied(&list[i]));
                    assert(text::views(r@) =~= text::views(before).push(list@[i as int]@));
                    assert(text::views(r@) =~= first + text::views(list@).take(i + 1));
                    i += 1;
                }
                assert(text::views(list@).take(i as int) =~= text::views(list@));
            },
            None => {
                assert(text::views(r@) =~= first + Seq::<Seq<char>>::empty());
            },
        }
    } else {
        assert(text::views(r@) =~= first + Seq::<Seq<char>>::empty());
    }
    r
}

/// The exit code to end with, given that of the build: its lowest byte, and 1
/// when a signal ended the build.
pub fn exit_code(status: Option<i32>) -> (r: u8)
    ensures
        r == (match status {
            Some(code) => code as u8,
            None => 1u8,
        }),
{
    match status {
        Some(code) => #[verifier::truncate]
        (code as u8),
        None => 1,
    }
}

// ---------------------------------------------------------------------------
// The diagnostics
// ---------------------------------------------------------------------------

/// A file name as it is shown: anchored at the workspace, unless it is empty
/// or absolute.
pub open spec fn anchored(s: Seq<char>, workspace: Seq<char>) -> Seq<char> {
    if s.len() > 0 && !paths::absolute(s) {
        paths::joined(workspace, s)
    } else {
        s
    }
}

/// The value of a `file_name`, with a text anchored.
pub open spec fn anchored_value(j: Json, workspace: Seq<char>) -> Json {
    match j {
        Json::Text(s) => Json::Text(anchored(s, workspace)),
        _ => j,
    }
}

/// `j` with every `file_name` anchored, at any depth. What a `file_name` holds
/// other than a text is left as it is.
pub open spec fn absolutized(j: Json, workspace: Seq<char>) -> Json
    decreases j,
{
    match j {
        Json::Array(items) => Json::Array(
            Seq::new(
                items.len(),
                |i: int|
                    if 0 <= i < items.len() {
                        absolutized(items[i], workspace)
                    } else {
                        Json::Null
                    },
            ),
        ),
        Json::Object(entries) => Json::Object(
            Seq::new(
                entries.len(),
                |i: int|
                    if 0 <= i < entries.len() {
                        (
                            entries[i].0,
                            if entries[i].0 == "file_name"@ {
                                anchored_value(entries[i].1, workspace)
                            } else {
                                absolutized(entries[i].1, workspace)
                            },
                        )
                    } else {
                        (Seq::empty(), Json::Null)
                    },
            ),
        ),
        _ => j,
    }
}

/// The value of a `file_name`, with a text anchored.
fn anchored_copy(value: &Tree, workspace: &str) -> (r: Tree)
    ensures
        r@ == anchored_value(value@, workspace@),
{
    match value {
        Tree::Text(s) => {
            if !s.as_str().is_empty() && !paths::is_absolute(s.as_str()) {
                Tree::Text(paths::join(workspace, s.as_str()))
            } else {
                Tree::Text(copied(s))
            }
        },
        _ => value.copied(),
    }
}

/// A copy of `value` with every `file_name` anchored.
fn absolutized_copy(value: &Tree, workspace: &str) -> (r: Tree)
    ensures
        r@ == absolutized(value@, workspace@),
    decreases value,
{
    match value {
        Tree::Array(items) => {
            let mut out: Vec<Tree> = Vec::new();
            let mut i: usize = 0;
            while i < items.len()
                invariant
                    i <= items@.len(),
                    value matches Tree::Array(v) && v == items,
                    out@.len() == i,
                    forall|k: int|
                        0 <= k < i ==> (#[trigger] out@[k])@ == absolutized(
                            items@[k]@,
                            workspace@,
                        ),
                decreases items@.len() - i,
            {
                out.push(absolutized_copy(&items[i], workspace));
                i += 1;
            }
            let r = Tree::Array(out);
            assert(r@->Array_0 =~= absolutized(value@, workspace@)->Array_0);
            r
        },
        Tree::Object(entries) => {
            let mut out: Vec<(String, Tree)> = Vec::new();
            let mut i: usize = 0;
            while i < entries.len()
                invariant
                    i <= entries@.len(),
                    value matches Tree::Object(v) && v == entries,
                    out@.len() == i,
                    forall|k: int|
                        0 <= k < i ==> {
                            &&& (#[trigger] out@[k]).0@ == entries@[k].0@
                            &&& out@[k].1@ == (if entries@[k].0@ == "file_name"@ {
                                anchored_value(entries@[k].1@, workspace@)
                            } else {
                                absolutized(entries@[k].1@, workspace@)
                            })
                        },
                decreases entries@.len() - i,
            {
                let child = if same_text(entries[i].0.as_str(), "file_name") {
                    anchored_copy(&entries[i].1, workspace)
                } else {
                    absolutized_copy(&entries[i].1, workspace)
                };
                out.push((copied(&entries[i].0), child));
                i += 1;
            }
            let ghost listed = out@;
            let r = Tree::Object(out);
            proof {
                let a = r@->Object_0;
                let b = absolutized(value@, workspace@)->Object_0;
                assert(value@->Object_0 == json::entries_view(entries@));
                assert forall|k: int| 0 <= k < a.len() implies a[k] == b[k] by {
                    assert(a[k] == (listed[k].0@, listed[k].1@));
                }
                assert(a =~= b);
            }
            r
        },
        _ => value.copied(),
    }
}

/// Makes every `file_name` in a diagnostic absolute, at any depth: the
/// compiler names files relative to the workspace, and an editor would look
/// for them next to the saved file.
pub fn absolutize_file_names(value: &mut Tree, workspace: &str)
    ensures
        final(value)@ == absolutized(old(value)@, workspace@),
{
    let r = absolutized_copy(&*value, workspace);
    *value = r;
}

/// Whether a line may hold a diagnostic: after white space it begins with `{`.
pub open spec fn is_candidate(line: Seq<char>) -> bool {
    seq!['{'].is_prefix_of(text::trimmed_start(line))
}

/// The lines that may hold a diagnostic.
pub open spec fn candidates(lines: Seq<Seq<char>>) -> Seq<Seq<char>>
    decreases lines.len(),
{
    if lines.len() == 0 {
        Seq::empty()
    } else if is_candidate(lines.last()) {
        candidates(lines.drop_last()).push(lines.last())
    } else {
        candidates(lines.drop_last())
    }
}

/// The lines of a file that may hold a diagnostic; the others are noise that
/// no reader of diagnostics expects.
pub fn candidate_lines(content: &str) -> (r: Vec<String>)
    ensures
        text::views(r@) == candidates(text::lines(content@)),
{
    let lines = lines_of(content);
    let ghost all = text::views(lines@);
    let mut r: Vec<String> = Vec::new();
    let mut i: usize = 0;
    proof {
        assert(text::views(r@) =~= candidates(all.take(0)));
        reveal_strlit("{");
        assert("{"@ =~= seq!['{']);
    }
    while i < lines.len()
        invariant
            i <= lines@.len(),
            all == text::views(lines@),
            "{"@ == seq!['{'],
            text::views(r@) == candidates(all.take(i as int)),
        decreases lines@.len() - i,
    {
        let ghost before = r@;
        assert(all.take(i + 1).drop_last() =~= all.take(i as int));
        assert(all.take(i + 1).last() == lines@[i as int]@);
        if begins_with(trim_start_of(lines[i].as_str()).as_str(), "{") {
            r.push(copied(&lines[i]));
            assert(text::views(r@) =~= text::views(before).push(lines@[i as int]@));
        }
        i += 1;
    }
    assert(all.take(i as int) =~= all);
    r
}

/// What is handed on for a line in which `parsed` was read: the diagnostic with
/// its file names made absolute. Nothing is for a line that is no JSON.
pub open spec fn emitted_for(parsed: Option<Json>, workspace: Seq<char>) -> Option<Json> {
    match parsed {
        Some(j) => Some(absolutized(j, workspace)),
        None => None,
    }
}

/// What is handed on for the lines that may hold a diagnostic, in order.
pub open spec fn emitted(lines: Seq<Seq<char>>, workspace: Seq<char>) -> Seq<Json>
    decreases lines.len(),
{
    if lines.len() == 0 {
        Seq::empty()
    } else {
        let rest = emitted(lines.drop_last(), workspace);
        match emitted_for(json::parsed_json(text::trimmed_start(lines.last())), workspace) {
            Some(j) => rest.push(j),
            None => rest,
        }
    }
}

/// What is handed on for a line in which `parsed` was read.
pub fn emitted_line(parsed: Option<Tree>, workspace: &str) -> (r: Option<Tree>)
    ensures
        json::opt_view(r) == emitted_for(json::opt_view(parsed), workspace@),
{
    match parsed {
        Some(value) => {
            let mut out = value;
            absolutize_file_names(&mut out, workspace);
            Some(out)
        },
        None => None,
    }
}

/// The diagnostics in a file, in order, with their file names made absolute. A
/// line that holds none is dropped, so that who reads them meets nothing else.
pub fn emitted_lines(content: &str, workspace: &str) -> (r: Vec<Tree>)
    ensures
        json::items_view(r@) == emitted(candidates(text::lines(content@)), workspace@),
{
    let lines = candidate_lines(content);
    let ghost all = text::views(lines@);
    let mut r: Vec<Tree> = Vec::new();
    let mut i: usize = 0;
    assert(json::items_view(r@) =~= emitted(all.take(0), workspace@));
    while i < lines.len()
        invariant
            i <= lines@.len(),
            all == text::views(lines@),
            json::items_view(r@) == emitted(all.take(i as int), workspace@),
        decreases lines@.len() - i,
    {
        let ghost before = r@;
        assert(all.take(i + 1).drop_last() =~= all.take(i as int));
        assert(all.take(i + 1).last() == lines@[i as int]@);
        let parsed = parse_json(trim_start_of(lines[i].as_str()).as_str());
        match emitted_line(parsed, workspace) {
            Some(value) => {
                r.push(value);
                assert(json::items_view(r@) =~= json::items_view(before).push(value@));
            },
            None => {},
        }
        i += 1;
    }
    assert(all.take(i as int) =~= all);
    r
}

/// A line is handed on exactly where it is JSON: what comes out for the lines
/// of a file is what comes out for each of them.
pub proof fn lemma_only_json_emitted(lines: Seq<Seq<char>>, line: Seq<char>, workspace: Seq<char>)
    ensures
        emitted(candidates(lines.push(line)), workspace) == (if is_candidate(line)
            && json::parsed_json(text::trimmed_start(line)) is Some {
            emitted(candidates(lines), workspace).push(
                absolutized(json::parsed_json(text::trimmed_start(line))->0, workspace),
            )
        } else {
            emitted(candidates(lines), workspace)
        }),
{
    assert(lines.push(line).drop_last() =~= lines);
    if is_candidate(line) {
        assert(candidates(lines).push(line).drop_last() =~= candidates(lines));
    }
}

/// Whether every `file_name` in `j` that is anchored is absolute afterwards.
pub open spec fn settles(j: Json, workspace: Seq<char>) -> bool
    decreases j,
{
    match j {
        Json::Array(items) => forall|i: int|
            0 <= i < items.len() ==> settles(#[trigger] items[i], workspace),
        Json::Object(entries) => forall|i: int|
            0 <= i < entries.len() ==> {
                if (#[trigger] entries[i]).0 == "file_name"@ {
                    entries[i].1 matches Json::Text(s) ==> s.len() == 0 || paths::absolute(s)
                        || paths::absolute(paths::joined(workspace, s))
                } else {
                    settles(entries[i].1, workspace)
                }
            },
        _ => true,
    }
}

/// A second pass finds nothing to do, where every name that the first one
/// anchored became absolute. A workspace that is itself relative anchors names
/// again and again.
pub proof fn lemma_absolutize_twice(j: Json, workspace: Seq<char>)
    requires
        settles(j, workspace),
    ensures
        absolutized(absolutized(j, workspace), workspace) == absolutized(j, workspace),
    decreases j,
{
    let once = absolutized(j, workspace);
    match j {
        Json::Array(items) => {
            let a = once->Array_0;
            let b = absolutized(once, workspace)->Array_0;
            assert forall|i: int| 0 <= i < a.len() implies a[i] == b[i] by {
                assert(settles(j->Array_0[i], workspace));
                lemma_absolutize_twice(items[i], workspace);
            }
            assert(a =~= b);
        },
        Json::Object(entries) => {
            let a = once->Object_0;
            let b = absolutized(once, workspace)->Object_0;
            assert forall|i: int| 0 <= i < a.len() implies a[i] == b[i] by {
                assert(j->Object_0[i] == entries[i]);
                if entries[i].0 != "file_name"@ {
                    lemma_absolutize_twice(entries[i].1, workspace);
                }
            }
            assert(a =~= b);
        },
        _ => {},
    }
}

/// A relative file name is looked for in the workspace, and one that is empty or
/// absolute stays.
pub proof fn lemma_anchored(s: Seq<char>, workspace: Seq<char>)
    ensures
        s.len() > 0 && !paths::absolute(s) ==> anchored(s, workspace) == paths::joined(
            workspace,
            s,
        ),
        s.len() == 0 || paths::absolute(s) ==> anchored(s, workspace) == s,
{
}

/// Only file names change in a diagnostic: lists and objects keep their lengths
/// and keys, and every relative `file_name` becomes a path in the workspace.
pub proof fn lemma_file_names_only(j: Json, workspace: Seq<char>, i: int)
    ensures
        !(j is Array) && !(j is Object) ==> absolutized(j, workspace) == j,
        j matches Json::Array(items) ==> (absolutized(j, workspace) matches Json::Array(out)
            && out.len() == items.len() && (0 <= i < items.len() ==> out[i] == absolutized(
            items[i],
            workspace,
        ))),
        j matches Json::Object(entries) ==> (absolutized(j, workspace) matches Json::Object(out)
            && out.len() == entries.len() && (0 <= i < entries.len() ==> out[i].0 == entries[i].0
            && (entries[i].0 != "file_name"@ ==> out[i].1 == absolutized(entries[i].1, workspace))
            && (entries[i].0 == "file_name"@ ==> match entries[i].1 {
            Json::Text(s) => out[i].1 == Json::Text(
                if s.len() > 0 && !paths::absolute(s) {
                    paths::joined(workspace, s)
                } else {
                    s
                },
            ),
            _ => out[i].1 == entries[i].1,
        }))),
{
}

/// A line may hold a diagnostic exactly where a brace is its first character
/// after white space.
pub proof fn lemma_candidate(blank: Seq<char>, rest: Seq<char>, line: Seq<char>)
    requires
        forall|i: int| 0 <= i < blank.len() ==> text::is_white(#[trigger] blank[i]),
    ensures
        is_candidate(blank + seq!['{'] + rest),
        is_candidate(line) ==> exists|n: int|
            0 <= n < line.len() && #[trigger] line[n] == '{' && forall|i: int|
                0 <= i < n ==> text::is_white(#[trigger] line[i]),
{
    let s = blank + seq!['{'] + rest;
    text::lemma_white('{');
    let n = text::lemma_trimmed_start(s);
    assert(s[blank.len() as int] == '{');
    if n < blank.len() {
        assert(s[n] == blank[n]);
        assert(false);
    }
    if n > blank.len() {
        assert(text::is_white(s[blank.len() as int]));
        assert(false);
    }
    let t = text::trimmed_start(s);
    assert(t.subrange(0, 1) =~= seq!['{']);
    assert(t.take(1) =~= seq!['{']);
    let m = text::lemma_trimmed_start(line);
    if is_candidate(line) {
        let u = text::trimmed_start(line);
        assert(u[0] == '{');
        assert(line[m] == '{');
    }
}

/// The lines that may hold a diagnostic keep their order, and none of them is
/// lost.
pub proof fn lemma_candidates_kept(a: Seq<Seq<char>>, b: Seq<Seq<char>>, line: Seq<char>)
    ensures
        candidates(a + b) == candidates(a) + candidates(b),
        is_candidate(line) ==> candidates(seq![line]) == seq![line],
        !is_candidate(line) ==> candidates(seq![line]).len() == 0,
    decreases b.len(),
{
    assert(seq![line].drop_last() =~= Seq::empty());
    assert(candidates(Seq::empty()) =~= Seq::empty());
    if is_candidate(line) {
        assert(candidates(seq![line]) =~= seq![line]);
    }
    if b.len() == 0 {
        assert(a + b =~= a);
        assert(candidates(a) + candidates(b) =~= candidates(a));
    } else {
        assert((a + b).drop_last() =~= a + b.drop_last());
        assert((a + b).last() == b.last());
        lemma_candidates_kept(a, b.drop_last(), line);
        assert(candidates(a + b) =~= candidates(a) + candidates(b));
    }
}

/// A line that is JSON is handed on with its file names made absolute, and a line
/// that is none is not.
pub proof fn lemma_emitted_for(j: Json, workspace: Seq<char>)
    ensures
        emitted_for(Some(j), workspace) == Some(absolutized(j, workspace)),
        emitted_for(None, workspace) is None,
{
}

/// The build has its own server, builds the label, writes its events to the given
/// file and keeps going; clippy adds its aspect and its output group to that and
/// takes nothing away.
pub proof fn lemma_build_args(root: Seq<char>, label: Seq<char>, events: Seq<char>, clippy: bool)
    ensures
        ({
            let args = flycheck_args(root, label, events, clippy);
            &&& args[0] == "--output_user_root="@ + root
            &&& args[1] == "build"@
            &&& args[2] == label
            &&& args.contains("--@rules_rust//rust/settings:error_format=json"@)
            &&& args.contains("--@rules_rust//rust/settings:rustc_output_diagnostics=true"@)
            &&& args.contains("--output_groups=+"@ + "rustc_output"@)
            &&& args.contains("--keep_going"@)
            &&& args.contains("--build_event_json_file="@ + events)
            &&& clippy ==> args.contains(
                "--aspects=@rules_rust//rust:defs.bzl%rust_clippy_aspect"@,
            )
            &&& clippy ==> args.contains(
                "--@rules_rust//rust/settings:clippy_output_diagnostics=true"@,
            )
            &&& clippy ==> args.contains("--output_groups=+"@ + "clippy_output"@)
            &&& args.len() == if clippy {
                11int
            } else {
                8
            }
        }),
        flycheck_args(root, label, events, false) == flycheck_args(root, label, events, true).take(
            8,
        ),
{
    let args = flycheck_args(root, label, events, clippy);
    assert(args[3] == "--@rules_rust//rust/settings:error_format=json"@);
    assert(args[4] == "--@rules_rust//rust/settings:rustc_output_diagnostics=true"@);
    assert(args[5] == "--output_groups=+"@ + "rustc_output"@);
    assert(args[6] == "--keep_going"@);
    assert(args[7] == "--build_event_json_file="@ + events);
    if clippy {
        assert(args[8] == "--aspects=@rules_rust//rust:defs.bzl%rust_clippy_aspect"@);
        assert(args[9] == "--@rules_rust//rust/settings:clippy_output_diagnostics=true"@);
        assert(args[10] == "--output_groups=+"@ + "clippy_output"@);
    }
    assert(flycheck_args(root, label, events, false) =~= flycheck_args(
        root,
        label,
        events,
        true,
    ).take(8));
}

/// Every file with diagnostics of an action is read, and those of clippy after
/// them exactly where clippy was asked for.
pub proof fn lemma_files_answer(
    action_stderr: &Option<Vec<String>>,
    clippy: bool,
    clippy_output: &Option<Vec<String>>,
    r: Vec<String>,
    i: int,
)
    requires
        call_ensures(diagnostic_files, (action_stderr, clippy, clippy_output), r),
    ensures
        ({
            let first = match action_stderr {
                Some(list) => list@,
                None => Seq::empty(),
            };
            let second = match clippy_output {
                Some(list) => list@,
                None => Seq::empty(),
            };
            &&& 0 <= i < first.len() ==> r@[i]@ == first[i]@
            &&& clippy && 0 <= i < second.len() ==> r@[first.len() + i]@ == second[i]@
            &&& r@.len() == first.len() + (if clippy {
                second.len()
            } else {
                0
            })
        }),
{
    let first = match action_stderr {
        Some(list) => list@,
        None => Seq::empty(),
    };
    let second = match clippy_output {
        Some(list) => list@,
        None => Seq::empty(),
    };
    let all = text::views(r@);
    assert(all.len() == r@.len());
    assert(text::views(first).len() == first.len());
    assert(text::views(second).len() == second.len());
    if 0 <= i < first.len() {
        assert(all[i] == r@[i]@);
        assert(all[i] == text::views(first)[i]);
    }
    if clippy && 0 <= i < second.len() {
        let n = first.len() + i;
        assert(all[n] == r@[n]@);
        assert(all[n] == text::views(second)[i]);
    }
}

/// A build that ends by itself gives its code, and one that a signal ended gives
/// a failure.
pub proof fn lemma_code_answer(status: Option<i32>, r: u8)
    requires
        call_ensures(exit_code, (status,), r),
    ensures
        status is None ==> r == 1,
        status matches Some(code) ==> (0 <= code < 256 ==> r == code),
{
}

} // verus!
