//! The course of a discovery: which step follows what came of the one before.
//!
//! A discovery builds the targets with the aspect that describes crates, reads
//! the descriptions that the build events name, and assembles the project from
//! them, unless a project from the very same inputs is in the cache.
use vstd::prelude::*;
use std::collections::hash_map::DefaultHasher;
use vstd::std_specs::hash::DefaultHasherAdditionalSpecFns;
use crate::cache;
use crate::cache::compute_key;
use crate::crate_spec::CrateSpecs;
use crate::discovery;
use crate::discovery::{
    assess_discovery, bep_file_path, build_file_label_map, crate_info_command,
    substitute_placeholders, warnings_report, BazelCommand, DiscoveryError, ToolchainInfo,
    ToolchainInfoSidecar,
};
use crate::paths;
use crate::rust_project;
use crate::rust_project::{assemble_rust_project, RustProject};
use crate::string_map;
use crate::text;
use crate::text::copied;

verus! {

/// What a discovery is asked for.
#[derive(Debug, PartialEq, Eq)]
pub struct Request {
    pub bazel: String,
    pub output_base: String,
    pub workspace: String,
    pub execution_root: String,
    pub bazel_startup_options: Vec<String>,
    pub bazel_args: Vec<String>,
    /// The name under which the rules are known.
    pub rules_rust_name: String,
    pub targets: Vec<String>,
    /// What the toolchain says of itself, with its placeholders.
    pub toolchain_info: String,
    /// The launcher directory that the environment names.
    pub launcher_dir: Option<String>,
    pub process_id: u32,
}

/// What came of the build. One that failed may still be of use.
#[derive(Debug, PartialEq, Eq)]
pub struct DiscoveryBuild {
    pub success: bool,
    pub stderr: String,
}

/// What a discovery does next.
#[derive(Debug, PartialEq, Eq)]
pub enum Step {
    /// Run the build, which writes its events to the file.
    Build { command: BazelCommand, bep_file: String },
    /// Read the paths of the crate descriptions out of the events.
    ReadEvents { bep_file: String, build: DiscoveryBuild },
    /// Read the crate descriptions. Some targets failed when they are
    /// incomplete.
    ReadSpecs { paths: Vec<String>, incomplete: bool },
    /// Look for the entry with the key in the cache.
    ReadCache { key: String, contents: Vec<(String, String)> },
    /// Take apart the toolchain and the crate descriptions, whose placeholders
    /// are filled in.
    Parse { key: String, toolchain: String, specs: Vec<(String, String)> },
    /// Write the sidecar, the report of the findings (or remove an older one)
    /// and the cache entry, and hand out the project.
    Publish {
        key: String,
        sidecar: Option<ToolchainInfoSidecar>,
        project: RustProject,
        report: Option<String>,
    },
    /// Hand out the project from the cache.
    UseCached,
    /// Give up.
    Fail { error: DiscoveryError },
}

/// What came of a step.
#[derive(Debug, PartialEq, Eq)]
pub enum Event {
    /// The build ended.
    Built { build: DiscoveryBuild },
    /// The events name these crate descriptions.
    EventsRead { paths: Vec<String> },
    /// The events cannot be read.
    EventsUnreadable { reason: String },
    /// The crate descriptions, as pairs of path and content.
    SpecsRead { contents: Vec<(String, String)> },
    /// The cache has no entry with the key.
    CacheMiss,
    /// The cache has an entry with the key, but it holds no project.
    CacheCorrupted,
    /// The cache has a project under the key.
    CacheHit,
    /// The toolchain and the crates.
    Parsed { toolchain: ToolchainInfo, specs: CrateSpecs },
}

/// The launcher directory, empty when the environment names none.
pub open spec fn launcher_dir_of(request: Request) -> Seq<char> {
    match request.launcher_dir {
        Some(dir) => dir@,
        None => Seq::empty(),
    }
}

/// Where the build of a request writes its events.
pub open spec fn bep_file_of(request: Request) -> Seq<char> {
    paths::joined(
        request.output_base@,
        "rules_rust_ra_bep_"@ + text::decimal(request.process_id as nat) + ".json"@,
    )
}

/// The build of a request.
pub open spec fn is_build_step(request: Request, step: Step) -> bool {
    step matches Step::Build { command, bep_file } && {
        &&& bep_file@ == bep_file_of(request)
        &&& command@ == discovery::with_args(
            discovery::bazel_command_view(
                request.bazel@,
                Some(request.workspace@),
                Some(request.output_base@),
            ),
            text::views(request.bazel_startup_options@) + discovery::crate_info_args(
                text::views(request.bazel_args@),
                request.rules_rust_name@,
                text::views(request.targets@),
                bep_file@,
            ),
        )
    }
}

/// The first step of a discovery: the build.
pub fn first_step(request: &Request) -> (r: Step)
    ensures
        is_build_step(*request, r),
{
    let bep_file = bep_file_path(request.output_base.as_str(), request.process_id);
    let command = crate_info_command(
        request.bazel.as_str(),
        request.output_base.as_str(),
        request.workspace.as_str(),
        &request.bazel_startup_options,
        &request.bazel_args,
        request.rules_rust_name.as_str(),
        &request.targets,
        bep_file.as_str(),
    );
    Step::Build { command, bep_file }
}

/// What follows when the events name `paths`, after the build: an error when
/// it failed and there are none, and otherwise reading them.
pub open spec fn after_events(build: DiscoveryBuild, paths: Vec<String>, r: Step) -> bool {
    if !build.success && paths@.len() == 0 {
        r matches Step::Fail { error: DiscoveryError::NoCrateSpecs(stderr) } && stderr@
            == build.stderr@
    } else {
        r == (Step::ReadSpecs { paths, incomplete: !build.success })
    }
}

/// What follows when the events cannot be read: the build is to blame when it
/// failed.
pub open spec fn after_unreadable(
    build: DiscoveryBuild,
    bep_file: String,
    reason: String,
    r: Step,
) -> bool {
    if build.success {
        r == (Step::Fail { error: DiscoveryError::UnreadableEvents(bep_file, reason) })
    } else {
        r == (Step::Fail { error: DiscoveryError::NoUsableOutput(build.stderr) })
    }
}

/// The key of the project that a request makes from the descriptions.
pub open spec fn key_of(request: Request, contents: Seq<(Seq<char>, Seq<char>)>) -> Seq<char> {
    text::hex(
        DefaultHasher::spec_finish(
            cache::key_writes(
                contents,
                request.toolchain_info@,
                request.bazel@,
                request.workspace@,
                request.execution_root@,
                launcher_dir_of(request),
            ),
        ) as nat,
        16,
    )
}

/// A text with the placeholders of a request filled in.
pub open spec fn filled(request: Request, content: Seq<char>) -> Seq<char> {
    discovery::filled_in(
        content,
        request.output_base@,
        request.workspace@,
        request.execution_root@,
    )
}

/// The descriptions with their placeholders filled in.
pub open spec fn filled_specs(
    request: Request,
    contents: Seq<(Seq<char>, Seq<char>)>,
) -> Seq<(Seq<char>, Seq<char>)> {
    contents.map_values(|p: (Seq<char>, Seq<char>)| (p.0, filled(request, p.1)))
}

/// What follows when the cache is of no use: taking the inputs apart.
pub open spec fn after_miss(
    request: Request,
    key: String,
    contents: Vec<(String, String)>,
    r: Step,
) -> bool {
    r matches Step::Parse { key: k, toolchain, specs } && {
        &&& k == key
        &&& toolchain@ == filled(request, request.toolchain_info@)
        &&& string_map::pair_views(specs@) == filled_specs(
            request,
            string_map::pair_views(contents@),
        )
    }
}

/// The sidecar that a discovery leaves in the launcher directory.
pub open spec fn is_sidecar(
    request: Request,
    toolchain: ToolchainInfo,
    specs: CrateSpecs,
    sidecar: ToolchainInfoSidecar,
) -> bool {
    &&& sidecar.sysroot_src@ == toolchain.sysroot_src@
    &&& text::opt_view(sidecar.workspace) == Some(request.workspace@)
    &&& text::opt_view(sidecar.output_base) == Some(request.output_base@)
    &&& string_map::pair_views(sidecar.file_labels@) == discovery::file_labels_of(specs.values())
}

/// Whether `project` is assembled from the toolchain and the crates.
pub open spec fn is_project(
    request: Request,
    toolchain: ToolchainInfo,
    specs: CrateSpecs,
    project: RustProject,
) -> bool {
    &&& project.sysroot@ == toolchain.sysroot@
    &&& project.sysroot_src@ == toolchain.sysroot_src@
    &&& rust_project::crate_views(project.crates@) == rust_project::crates_for(specs.values())
    &&& rust_project::runnable_views(project.runnables@) == rust_project::runnables_for(
        request.bazel@,
        request.workspace@,
        rust_project::flycheck_path(request.workspace@, text::opt_view(request.launcher_dir)),
        rust_project::reaches_test_mod(toolchain.version@),
    )
}

/// Whether `report` is the report of the findings about the crates, or absent
/// when there are none.
pub open spec fn is_report(specs: CrateSpecs, report: Option<String>) -> bool {
    exists|d: rust_project::AssemblyDiagnostics|
        {
            &&& #[trigger] rust_project::is_diagnosis(d, specs.values())
            &&& match report {
                None => d.missing_deps@.len() == 0 && d.cycles@.len() == 0,
                Some(r) => {
                    &&& d.missing_deps@.len() > 0 || d.cycles@.len() > 0
                    &&& r@ == rust_project::report_of(d)
                },
            }
        }
}

/// What follows when the inputs are taken apart: publishing the project. A
/// sidecar is written only where the environment names a launcher directory.
pub open spec fn after_parse(
    request: Request,
    key: String,
    toolchain: ToolchainInfo,
    specs: CrateSpecs,
    r: Step,
) -> bool {
    r matches Step::Publish { key: k, sidecar, project, report } && {
        &&& k == key
        &&& match sidecar {
            Some(s) => launcher_dir_of(request).len() > 0 && is_sidecar(
                request,
                toolchain,
                specs,
                s,
            ),
            None => launcher_dir_of(request).len() == 0,
        }
        &&& is_project(request, toolchain, specs, project)
        &&& is_report(specs, report)
    }
}

/// Whether `r` is the step that follows `event`, which came of `step`, or
/// `None` when the event is no answer to the step.
pub open spec fn is_next(request: Request, step: Step, event: Event, r: Option<Step>) -> bool {
    match (step, event) {
        (Step::Build { command, bep_file }, Event::Built { build }) => r == Some(
            Step::ReadEvents { bep_file, build },
        ),
        (Step::ReadEvents { bep_file, build }, Event::EventsRead { paths }) => r matches Some(s)
            && after_events(build, paths, s),
        (Step::ReadEvents { bep_file, build }, Event::EventsUnreadable { reason }) => r matches
            Some(s) && after_unreadable(build, bep_file, reason, s),
        (Step::ReadSpecs { paths, incomplete }, Event::SpecsRead { contents }) => r matches Some(
            Step::ReadCache { key, contents: c },
        ) && c == contents && key@ == key_of(request, string_map::pair_views(contents@)),
        (Step::ReadCache { key, contents }, Event::CacheHit) => r == Some(Step::UseCached),
        (Step::ReadCache { key, contents }, Event::CacheMiss) => r matches Some(s) && after_miss(
            request,
            key,
            contents,
            s,
        ),
        (Step::ReadCache { key, contents }, Event::CacheCorrupted) => r matches Some(s)
            && after_miss(request, key, contents, s),
        (Step::Parse { key, toolchain: t, specs: u }, Event::Parsed { toolchain, specs }) => r
            matches Some(s) && after_parse(request, key, toolchain, specs, s),
        _ => r is None,
    }
}

/// The inputs of the assembly, with their placeholders filled in.
fn parse_step(request: &Request, key: String, contents: &Vec<(String, String)>) -> (r: Step)
    ensures
        after_miss(*request, key, *contents, r),
{
    let toolchain = substitute_placeholders(
        request.toolchain_info.as_str(),
        request.output_base.as_str(),
        request.workspace.as_str(),
        request.execution_root.as_str(),
    );
    let ghost all = string_map::pair_views(contents@);
    let mut specs: Vec<(String, String)> = Vec::new();
    let mut i: usize = 0;
    while i < contents.len()
        invariant
            i <= contents@.len(),
            all == string_map::pair_views(contents@),
            specs@.len() == i,
            forall|k: int|
                0 <= k < i ==> string_map::pair_views(specs@)[k] == #[trigger] filled_specs(
                    *request,
                    all,
                )[k],
        decreases contents@.len() - i,
    {
        let filled_in = substitute_placeholders(
            contents[i].1.as_str(),
            request.output_base.as_str(),
            request.workspace.as_str(),
            request.execution_root.as_str(),
        );
        let ghost before = specs@;
        specs.push((copied(&contents[i].0), filled_in));
        assert forall|k: int| 0 <= k < i + 1 implies string_map::pair_views(specs@)[k]
            == #[trigger] filled_specs(*request, all)[k] by {
            if k < i {
                assert(string_map::pair_views(before)[k] == filled_specs(*request, all)[k]);
                assert(specs@[k] == before[k]);
            }
        }
        i += 1;
    }
    assert(string_map::pair_views(specs@) =~= filled_specs(*request, all));
    Step::Parse { key, toolchain, specs }
}

/// The assembled project and what goes with it.
fn publish_step(
    request: &Request,
    key: String,
    toolchain: ToolchainInfo,
    specs: &CrateSpecs,
) -> (r: Step)
    ensures
        after_parse(*request, key, toolchain, *specs, r),
{
    let with_sidecar = match &request.launcher_dir {
        Some(dir) => !dir.as_str().is_empty(),
        None => false,
    };
    let sidecar = if with_sidecar {
        Some(
            ToolchainInfoSidecar {
                sysroot_src: copied(&toolchain.sysroot_src),
                workspace: Some(copied(&request.workspace)),
                output_base: Some(copied(&request.output_base)),
                file_labels: build_file_label_map(specs),
            },
        )
    } else {
        None
    };
    let report = warnings_report(specs);
    match assemble_rust_project(
        request.bazel.as_str(),
        request.workspace.as_str(),
        toolchain,
        specs,
        &request.launcher_dir,
    ) {
        Ok(project) => Step::Publish { key, sidecar, project, report },
        Err(error) => Step::Fail { error },
    }
}

/// The step that follows `event`, which came of `step`; `None` when the event
/// is no answer to the step.
pub fn next_step(request: &Request, step: Step, event: Event) -> (r: Option<Step>)
    ensures
        is_next(*request, step, event, r),
{
    match (step, event) {
        (Step::Build { command: _, bep_file }, Event::Built { build }) => Some(
            Step::ReadEvents { bep_file, build },
        ),
        (Step::ReadEvents { bep_file: _, build }, Event::EventsRead { paths }) => {
            match assess_discovery(build.success, paths.len(), build.stderr.as_str()) {
                Ok(incomplete) => Some(Step::ReadSpecs { paths, incomplete }),
                Err(error) => Some(Step::Fail { error }),
            }
        },
        (Step::ReadEvents { bep_file, build }, Event::EventsUnreadable { reason }) => {
            if build.success {
                Some(Step::Fail { error: DiscoveryError::UnreadableEvents(bep_file, reason) })
            } else {
                Some(Step::Fail { error: DiscoveryError::NoUsableOutput(build.stderr) })
            }
        },
        (Step::ReadSpecs { paths: _, incomplete: _ }, Event::SpecsRead { contents }) => {
            let launcher_dir = match &request.launcher_dir {
                Some(dir) => copied(dir),
                None => String::new(),
            };
            let key = compute_key(
                &contents,
                request.toolchain_info.as_str(),
                request.bazel.as_str(),
                request.workspace.as_str(),
                request.execution_root.as_str(),
                launcher_dir.as_str(),
            );
            Some(Step::ReadCache { key, contents })
        },
        (Step::ReadCache { key: _, contents: _ }, Event::CacheHit) => Some(Step::UseCached),
        (Step::ReadCache { key, contents }, Event::CacheMiss) => Some(
            parse_step(request, key, &contents),
        ),
        (Step::ReadCache { key, contents }, Event::CacheCorrupted) => Some(
            parse_step(request, key, &contents),
        ),
        (Step::Parse { key, toolchain: _, specs: _ }, Event::Parsed { toolchain, specs }) => Some(
            publish_step(request, key, toolchain, &specs),
        ),
        _ => None,
    }
}

/// How many steps can still follow.
pub open spec fn steps_left(step: Step) -> nat {
    match step {
        Step::Build { .. } => 5,
        Step::ReadEvents { .. } => 4,
        Step::ReadSpecs { .. } => 3,
        Step::ReadCache { .. } => 2,
        Step::Parse { .. } => 1,
        _ => 0,
    }
}

/// Every discovery ends: each step leaves fewer steps to follow, and one that
/// publishes, uses the cache or fails has none.
pub proof fn lemma_discovery_ends(request: Request, step: Step, event: Event, r: Step)
    requires
        is_next(request, step, event, Some(r)),
    ensures
        steps_left(r) < steps_left(step),
{
}

/// After the build come its events, with what came of the build.
pub proof fn lemma_build_then_events(
    request: Request,
    command: BazelCommand,
    bep_file: String,
    build: DiscoveryBuild,
    r: Option<Step>,
)
    requires
        is_next(request, Step::Build { command, bep_file }, Event::Built { build }, r),
    ensures
        r matches Some(Step::ReadEvents { bep_file: f, build: b }) && f == bep_file && b == build,
{
}

/// Descriptions are read where there are any, also after a build that failed,
/// which leaves them incomplete; a build that failed and left none is an error
/// with what the build said.
pub proof fn lemma_events_then_specs(
    request: Request,
    bep_file: String,
    build: DiscoveryBuild,
    paths: Vec<String>,
    r: Option<Step>,
)
    requires
        is_next(
            request,
            Step::ReadEvents { bep_file, build },
            Event::EventsRead { paths },
            r,
        ),
    ensures
        paths@.len() > 0 || build.success ==> (r matches Some(
            Step::ReadSpecs { paths: p, incomplete },
        ) && p == paths && incomplete == !build.success),
        paths@.len() == 0 && !build.success ==> (r matches Some(
            Step::Fail { error: DiscoveryError::NoCrateSpecs(stderr) },
        ) && stderr@ == build.stderr@),
{
}

/// Events that cannot be read end the discovery, with what the build said where
/// the build failed.
pub proof fn lemma_unreadable_events(
    request: Request,
    bep_file: String,
    build: DiscoveryBuild,
    reason: String,
    r: Option<Step>,
)
    requires
        is_next(
            request,
            Step::ReadEvents { bep_file, build },
            Event::EventsUnreadable { reason },
            r,
        ),
    ensures
        build.success ==> (r matches Some(
            Step::Fail { error: DiscoveryError::UnreadableEvents(f, why) },
        ) && f == bep_file && why == reason),
        !build.success ==> (r matches Some(
            Step::Fail { error: DiscoveryError::NoUsableOutput(stderr) },
        ) && stderr == build.stderr),
{
}

/// A project in the cache is used. An entry that is missing or spoilt makes no
/// difference: every description is taken apart under its own path, with its
/// placeholders filled in, and so is the toolchain.
pub proof fn lemma_cache_then_parse(
    request: Request,
    key: String,
    contents: Vec<(String, String)>,
    event: Event,
    r: Option<Step>,
    i: int,
)
    requires
        is_next(request, Step::ReadCache { key, contents }, event, r),
        event is CacheHit || event is CacheMiss || event is CacheCorrupted,
    ensures
        event is CacheHit ==> r == Some(Step::UseCached),
        !(event is CacheHit) ==> (r matches Some(Step::Parse { key: k, toolchain, specs }) && k
            == key && toolchain@ == discovery::filled_in(
            request.toolchain_info@,
            request.output_base@,
            request.workspace@,
            request.execution_root@,
        ) && specs@.len() == contents@.len() && (0 <= i < contents@.len() ==> specs@[i].0@
            == contents@[i].0@ && specs@[i].1@ == discovery::filled_in(
            contents@[i].1@,
            request.output_base@,
            request.workspace@,
            request.execution_root@,
        ))),
{
    if !(event is CacheHit) {
        let specs = r->0->Parse_specs;
        let all = string_map::pair_views(contents@);
        let out = string_map::pair_views(specs@);
        assert(out == filled_specs(request, all));
        assert(out.len() == specs@.len());
        assert(all.len() == contents@.len());
        if 0 <= i < contents@.len() {
            assert(out[i] == (specs@[i].0@, specs@[i].1@));
            assert(all[i] == (contents@[i].0@, contents@[i].1@));
        }
    }
}

/// The cache is asked for a project from these very descriptions, and from the
/// toolchain and the paths of the request.
pub proof fn lemma_specs_then_cache(
    request: Request,
    paths: Vec<String>,
    incomplete: bool,
    contents: Vec<(String, String)>,
    r: Option<Step>,
)
    requires
        is_next(
            request,
            Step::ReadSpecs { paths, incomplete },
            Event::SpecsRead { contents },
            r,
        ),
    ensures
        r matches Some(Step::ReadCache { key, contents: c }) && c == contents && key@ == text::hex(
            DefaultHasher::spec_finish(
                cache::key_writes(
                    string_map::pair_views(contents@),
                    request.toolchain_info@,
                    request.bazel@,
                    request.workspace@,
                    request.execution_root@,
                    match request.launcher_dir {
                        Some(dir) => dir@,
                        None => Seq::empty(),
                    },
                ),
            ) as nat,
            16,
        ),
{
}

/// A project is published under the key that was looked for, with a crate for
/// every description and the toolchain's places. A sidecar goes with it exactly
/// where the environment names a launcher directory.
pub proof fn lemma_parse_then_publish(
    request: Request,
    key: String,
    text: String,
    texts: Vec<(String, String)>,
    toolchain: ToolchainInfo,
    specs: CrateSpecs,
    r: Option<Step>,
)
    requires
        is_next(
            request,
            Step::Parse { key, toolchain: text, specs: texts },
            Event::Parsed { toolchain, specs },
            r,
        ),
    ensures
        r matches Some(Step::Publish { key: k, sidecar, project, report }) && {
            &&& k == key
            &&& sidecar is Some <==> (request.launcher_dir matches Some(dir) && dir@.len() > 0)
            &&& sidecar matches Some(s) ==> s.sysroot_src@ == toolchain.sysroot_src@ && (
            s.workspace matches Some(w) && w@ == request.workspace@) && (
            s.output_base matches Some(o) && o@ == request.output_base@)
            &&& project.sysroot@ == toolchain.sysroot@
            &&& project.sysroot_src@ == toolchain.sysroot_src@
            &&& project.crates@.len() == specs.values().len()
        },
{
    let project = r->0->Publish_project;
    assert(rust_project::crate_views(project.crates@).len() == project.crates@.len());
    assert(rust_project::crates_for(specs.values()).len() == specs.values().len());
}

/// An event that is no answer to a step leads nowhere, and neither does anything
/// after the end.
pub proof fn lemma_no_answer(request: Request, step: Step, event: Event, r: Option<Step>)
    requires
        is_next(request, step, event, r),
        step is Publish || step is UseCached || step is Fail || (step is Build && !(
        event is Built)) || (step is Parse && !(event is Parsed)) || (step is ReadSpecs && !(
        event is SpecsRead)) || (step is ReadEvents && !(event is EventsRead) && !(
        event is EventsUnreadable)) || (step is ReadCache && !(event is CacheHit) && !(
        event is CacheMiss) && !(event is CacheCorrupted)),
    ensures
        r is None,
{
}

/// The build of a request runs where the workspace is, in the given place, with
/// the options of the request before the command and the targets in it.
pub proof fn lemma_first_build(request: Request, step: Step)
    requires
        is_build_step(request, step),
    ensures
        step matches Step::Build { command, bep_file } && bep_file@ == paths::joined(
            request.output_base@,
            "rules_rust_ra_bep_"@ + text::decimal(request.process_id as nat) + ".json"@,
        ) && command@ == discovery::with_args(
            discovery::bazel_command_view(
                request.bazel@,
                Some(request.workspace@),
                Some(request.output_base@),
            ),
            text::views(request.bazel_startup_options@) + discovery::crate_info_args(
                text::views(request.bazel_args@),
                request.rules_rust_name@,
                text::views(request.targets@),
                bep_file@,
            ),
        ),
{
}

/// A report goes with the project exactly where a dependency is missing or crates
/// depend on each other in a circle, and it tells of every missing dependency.
pub proof fn lemma_report_when_needed(
    specs: CrateSpecs,
    report: Option<String>,
    i: int,
    dep: Seq<char>,
    around: Seq<Seq<char>>,
)
    requires
        is_report(specs, report),
    ensures
        0 <= i < specs.values().len() && specs.values()[i].deps@.contains(dep) && (forall|k: int|
            0 <= k < specs.values().len() ==> (#[trigger] specs.values()[k]).crate_id@ != dep)
            ==> (report matches Some(r) && exists|before: Seq<char>, after: Seq<char>|
            r@ == #[trigger] (before + ("missing dep: crate "@ + specs.values()[i].crate_id@
                + " references "@ + dep
                + " which is not in the project (target may be a non-Rust dep, filtered, or its spec generation failed)\n"@)
                + after)),
        rust_project::is_dependency_loop(specs.values(), around) ==> report is Some,
        report is Some ==> (exists|k: int, missing: Seq<char>|
            0 <= k < specs.values().len() && #[trigger] specs.values()[k].deps@.contains(missing)
                && forall|m: int|
                0 <= m < specs.values().len() ==> (#[trigger] specs.values()[m]).crate_id@
                    != missing) || exists|w: Seq<Seq<char>>| #[trigger]
            rust_project::is_dependency_loop(specs.values(), w),
{
    let all = specs.values();
    let d = choose|d: rust_project::AssemblyDiagnostics|
        {
            &&& #[trigger] rust_project::is_diagnosis(d, specs.values())
            &&& match report {
                None => d.missing_deps@.len() == 0 && d.cycles@.len() == 0,
                Some(r) => {
                    &&& d.missing_deps@.len() > 0 || d.cycles@.len() > 0
                    &&& r@ == rust_project::report_of(d)
                },
            }
        };
    rust_project::lemma_cycles_listed(d, all, 0, 0);
    if 0 <= i < all.len() && all[i].deps@.contains(dep) && (forall|k: int|
        0 <= k < all.len() ==> (#[trigger] all[k]).crate_id@ != dep) {
        rust_project::lemma_missing_listed(d, all, all[i].crate_id@, dep);
        let m = choose|m: int|
            0 <= m < d.missing_deps@.len() && (#[trigger] d.missing_deps@[m]).0@
                == all[i].crate_id@ && d.missing_deps@[m].1@ == dep;
        rust_project::lemma_missing_in_report(d, m);
    }
    if report is Some {
        if d.missing_deps@.len() > 0 {
            let id = d.missing_deps@[0].0@;
            let missing = d.missing_deps@[0].1@;
            rust_project::lemma_missing_listed(d, all, id, missing);
            let k = choose|k: int|
                0 <= k < all.len() && (#[trigger] all[k]).crate_id@ == id
                    && all[k].deps@.contains(missing);
            assert(all[k].deps@.contains(missing));
        }
    }
}

/// What can be run in a published project runs where the workspace is, and the
/// sidecar has the labels of the crates by their root modules.
pub proof fn lemma_published_parts(
    request: Request,
    toolchain: ToolchainInfo,
    specs: CrateSpecs,
    project: RustProject,
    sidecar: ToolchainInfoSidecar,
    i: int,
)
    ensures
        is_project(request, toolchain, specs, project) && 0 <= i < project.runnables@.len()
            ==> project.runnables@[i].cwd@ == request.workspace@ && rust_project::has_argument(
            project.runnables@[i],
            "{label}"@,
        ),
        is_project(request, toolchain, specs, project) && 0 <= i < specs.values().len()
            ==> project.crates@.len() == specs.values().len() && text::same_texts(
            project.crates@[i].cfg@,
            specs.values()[i].cfg@,
        ) && project.crates@[i].root_module@ == specs.values()[i].root_module@,
        is_sidecar(request, toolchain, specs, sidecar) ==> string_map::pair_views(
            sidecar.file_labels@,
        ) == discovery::file_labels_of(specs.values()),
{
    if is_project(request, toolchain, specs, project) {
        if 0 <= i < project.runnables@.len() {
            rust_project::lemma_project_commands(
                project.runnables@,
                request.bazel@,
                request.workspace@,
                rust_project::flycheck_path(
                    request.workspace@,
                    text::opt_view(request.launcher_dir),
                ),
                rust_project::reaches_test_mod(toolchain.version@),
                i,
            );
        }
        if 0 <= i < specs.values().len() {
            rust_project::lemma_crate_as_described(project.crates@, specs.values(), i);
        }
    }
}

} // verus!
